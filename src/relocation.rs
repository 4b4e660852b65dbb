//! Relocation records with an explicit addend.

use vstd::prelude::*;

use crate::bytes::{bytes_of, push_uint, Endianness};
use crate::elf::ElfFileError;
use crate::parse::relas_spec;
use crate::section::Section64;

verus! {

/// One RELA record. `info` packs the symbol index in its high 32 bits and
/// the relocation type in its low 32 bits. `addend` holds the two's
/// complement bits of the signed addend. `merged` is true for a record that
/// the link engine copied from an incoming file: its symbol index still
/// refers to that file's symbols.
#[derive(Clone, Copy, Debug, PartialEq, Eq, Structural)]
pub struct RelocationA64 {
    pub offset: u64,
    pub info: u64,
    pub addend: u64,
    pub merged: bool,
}

/// The 24 bytes of a RELA record.
pub open spec fn rela_bytes(r: RelocationA64, e: Endianness) -> Seq<u8> {
    bytes_of(r.offset as nat, 8, e) + bytes_of(r.info as nat, 8, e) + bytes_of(r.addend as nat, 8, e)
}

/// The symbol index of an `info` word.
pub open spec fn info_sym(info: u64) -> nat {
    info as nat / 0x1_0000_0000
}

/// The relocation type of an `info` word.
pub open spec fn info_type(info: u64) -> nat {
    info as nat % 0x1_0000_0000
}

impl RelocationA64 {
    /// The 24-byte encoding of this record in byte order `e`.
    pub fn as_raw(&self, e: Endianness) -> (r: Vec<u8>)
        ensures
            r@ == rela_bytes(*self, e),
    {
        let mut out: Vec<u8> = Vec::new();
        push_uint(&mut out, self.offset, 8, e);
        push_uint(&mut out, self.info, 8, e);
        push_uint(&mut out, self.addend, 8, e);
        proof {
            assert(out@ =~= rela_bytes(*self, e));
        }
        out
    }

    /// The index of the symbol this relocation refers to.
    pub fn get_sym(&self) -> (r: usize)
        ensures
            r as nat == info_sym(self.info),
    {
        let info = self.info;
        assert(info >> 32u64 == info / 0x1_0000_0000u64 && info >> 32u64 <= 0xffff_ffffu64) by (bit_vector);
        let sym: u32 = (info >> 32u64) as u32;
        sym as usize
    }

    /// The relocation type.
    pub fn get_type(&self) -> (r: usize)
        ensures
            r as nat == info_type(self.info),
    {
        let info = self.info;
        assert(info & 0xffff_ffffu64 == info % 0x1_0000_0000u64 && info & 0xffff_ffffu64 <= 0xffff_ffffu64) by (bit_vector);
        let kind: u32 = (info & 0xffff_ffffu64) as u32;
        kind as usize
    }

    /// Packs `sym` and `kind` into `info`; the other fields stay.
    pub fn set_info(&mut self, sym: usize, kind: usize)
        requires
            sym < 0x1_0000_0000,
            kind < 0x1_0000_0000,
        ensures
            final(self).info as nat == sym as nat * 0x1_0000_0000 + kind as nat,
            info_sym(final(self).info) == sym as nat,
            info_type(final(self).info) == kind as nat,
            final(self).offset == old(self).offset,
            final(self).addend == old(self).addend,
            final(self).merged == old(self).merged,
    {
        let info: u64 = (sym as u64) * 0x1_0000_0000u64 + kind as u64;
        self.info = info;
    }
}

/// Decodes the records of the relocation table `rela`.
pub fn get_relocations(rela: &Section64, e: Endianness) -> (r: Result<Vec<RelocationA64>, ElfFileError>)
    ensures
        match r {
            Ok(v) => relas_spec(rela.data@, e) == Some(v@),
            Err(x) => relas_spec(rela.data@, e) is None && x == ElfFileError::ParseError,
        },
{
    match RelocationA64::parse_many(rela.data.as_slice(), e) {
        Ok(v) => Ok(v),
        Err(_) => Err(ElfFileError::ParseError),
    }
}

} // verus!
