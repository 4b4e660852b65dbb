//! Walking the records of a little-endian symbol table one at a time.

use vstd::prelude::*;

use crate::bytes::{u16_at, u32_at, u64_at, Endianness};
use crate::parse::Symbol64Raw;

verus! {

/// A symbol record as it stands in the table.
#[derive(Clone, Copy, Debug, PartialEq, Eq, Structural)]
pub struct Symbol {
    pub name: u32,
    pub info: u8,
    pub other: u8,
    pub shndx: u16,
    pub value: u64,
    pub size: u64,
}

/// The little-endian symbol record at the start of `s`.
pub open spec fn symbol_le_spec(s: Seq<u8>) -> Symbol {
    Symbol {
        name: u32_at(s, 0, Endianness::Little),
        info: s[4],
        other: s[5],
        shndx: u16_at(s, 6, Endianness::Little),
        value: u64_at(s, 8, Endianness::Little),
        size: u64_at(s, 16, Endianness::Little),
    }
}

/// The records of a little-endian symbol table not read yet.
pub struct SymbolIterator<'a> {
    pub data: &'a [u8],
}

impl<'a> SymbolIterator<'a> {
    /// The next record, or `None` when fewer than 24 bytes are left.
    pub fn next(&mut self) -> (r: Option<Symbol>)
        ensures
            old(self).data@.len() < 24 ==> r is None && final(self).data@ == old(self).data@,
            old(self).data@.len() >= 24 ==> r == Some(symbol_le_spec(old(self).data@))
                && final(self).data@ == old(self).data@.subrange(24, old(self).data@.len() as int),
    {
        if self.data.len() < 24 {
            return None;
        }
        let raw: Symbol64Raw = Symbol64Raw::parse_one(self.data, 0, Endianness::Little);
        let (_head, tail) = self.data.split_at(24);
        self.data = tail;
        Some(
            Symbol {
                name: raw.name,
                info: raw.info,
                other: raw.other,
                shndx: raw.shndx,
                value: raw.value,
                size: raw.size,
            },
        )
    }
}

} // verus!
