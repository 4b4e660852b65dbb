//! Symbols: decoding the symbol table into named entries.

use vstd::prelude::*;

use crate::elf::ElfFileError;
use crate::parse::{symbols_raw_spec, ElfFile64Raw, RawImage, Symbol64Raw};
use crate::section::{get_section_data, section_data_spec, Section64, SectionModel};
use crate::strtab::{cstr_at, read_cstr};

verus! {

/// Section index of an undefined symbol.
pub const SHN_UNDEF: u16 = 0;

/// Section index of an absolute symbol, which no relocation moves.
pub const SHN_ABS: u16 = 0xfff1;

/// A symbol of the logical model.
pub struct Symbol64 {
    pub name: Vec<u8>,
    pub info: u8,
    pub other: u8,
    pub shndx: u16,
    pub value: u64,
    pub size: u64,
}

/// The value of a [`Symbol64`].
pub ghost struct SymbolModel {
    pub name: Seq<u8>,
    pub info: u8,
    pub other: u8,
    pub shndx: u16,
    pub value: u64,
    pub size: u64,
}

impl View for Symbol64 {
    type V = SymbolModel;

    open spec fn view(&self) -> SymbolModel {
        SymbolModel {
            name: self.name@,
            info: self.info,
            other: self.other,
            shndx: self.shndx,
            value: self.value,
            size: self.size,
        }
    }
}

/// The values of a sequence of symbols.
pub open spec fn symbols_view(v: Seq<Symbol64>) -> Seq<SymbolModel> {
    v.map_values(|s: Symbol64| s@)
}

/// The binding of a symbol: the high nibble of `info`; zero is local.
pub open spec fn binding_spec(info: u8) -> u8 {
    info / 16
}

/// The binding of `sym`.
pub fn sym_bind(sym: &Symbol64) -> (r: u8)
    ensures
        r == binding_spec(sym.info),
{
    sym.info / 16
}

impl Symbol64 {
    /// A copy of this symbol.
    pub fn duplicate(&self) -> (r: Symbol64)
        ensures
            r@ == self@,
    {
        Symbol64 {
            name: crate::section::copy_bytes(&self.name),
            info: self.info,
            other: self.other,
            shndx: self.shndx,
            value: self.value,
            size: self.size,
        }
    }
}

/// The section index `old` carried through `map`; the undefined and
/// absolute indices stay as they are.
pub open spec fn new_shndx_spec(old: u16, map: Seq<Option<usize>>) -> Option<u16> {
    if old == SHN_ABS || old == SHN_UNDEF {
        Some(old)
    } else if (old as int) < map.len() && map[old as int] is Some && map[old as int]->0 <= 0xffff {
        Some(map[old as int]->0 as u16)
    } else {
        None
    }
}

/// Carries the section index `old` through `index_map`.
pub fn get_new_shndx(old: u16, index_map: &Vec<Option<usize>>) -> (r: Option<u16>)
    ensures
        r == new_shndx_spec(old, index_map@),
{
    if old == SHN_ABS || old == SHN_UNDEF {
        Some(old)
    } else if (old as usize) < index_map.len() {
        match index_map[old as usize] {
            Some(new) => if new <= 0xffff {
                Some(new as u16)
            } else {
                None
            },
            None => None,
        }
    } else {
        None
    }
}

/// The bytes of the string table that section header `link` of `raw`
/// describes.
pub open spec fn symbol_names_spec(raw: RawImage, link: u32) -> Option<Seq<u8>> {
    if (link as int) < raw.section_headers.len() && raw.section_headers[link as int].section_type
        == 3 {
        section_data_spec(raw, raw.section_headers[link as int])
    } else {
        None
    }
}

/// All symbols of the symbol table `symtab` of `raw`, named from its string
/// table and with section indices carried through `map`. A name that does
/// not resolve is a parse error; a section index that is not kept is a
/// structural error.
pub open spec fn symbols_spec(raw: RawImage, symtab: SectionModel, map: Seq<Option<usize>>) -> Result<
    Seq<SymbolModel>,
    ElfFileError,
> {
    match (symbol_names_spec(raw, symtab.link), symbols_raw_spec(symtab.data, raw.header.identifier.endianness)) {
        (Some(names), Some(records)) => if exists|k: int|
            0 <= k < records.len() && (#[trigger] cstr_at(names, records[k].name as int)) is None {
            Err(ElfFileError::ParseError)
        } else if exists|k: int|
            0 <= k < records.len() && (#[trigger] new_shndx_spec(records[k].shndx, map)) is None {
            Err(ElfFileError::InvalidFileError)
        } else {
            Ok(
                Seq::new(
                    records.len(),
                    |k: int|
                        SymbolModel {
                            name: cstr_at(names, records[k].name as int)->0,
                            info: records[k].info,
                            other: records[k].other,
                            shndx: new_shndx_spec(records[k].shndx, map)->0,
                            value: records[k].value,
                            size: records[k].size,
                        },
                ),
            )
        },
        _ => Err(ElfFileError::ParseError),
    }
}

/// Decodes the symbols of `symtab_section`.
pub fn get_symbols(
    raw: &ElfFile64Raw,
    symtab_section: &Section64,
    index_map: &Vec<Option<usize>>,
) -> (r: Result<Vec<Symbol64>, ElfFileError>)
    ensures
        match r {
            Ok(v) => symbols_spec(raw@, symtab_section@, index_map@) == Ok::<
                Seq<SymbolModel>,
                ElfFileError,
            >(symbols_view(v@)),
            Err(e) => symbols_spec(raw@, symtab_section@, index_map@) == Err::<
                Seq<SymbolModel>,
                ElfFileError,
            >(e),
        },
{
    let link = symtab_section.link as usize;
    if link >= raw.section_headers.len() || raw.section_headers[link].section_type != 3 {
        return Err(ElfFileError::ParseError);
    }
    let names = match get_section_data(raw, &raw.section_headers[link]) {
        Some(n) => n,
        None => {
            return Err(ElfFileError::ParseError);
        },
    };
    let e = raw.header.identifier.endianness;
    let records = match Symbol64Raw::parse_many(symtab_section.data.as_slice(), e) {
        Ok(v) => v,
        Err(_) => {
            return Err(ElfFileError::ParseError);
        },
    };
    let ghost spec_records = records@;
    let mut symbols: Vec<Symbol64> = Vec::new();
    let mut bad_index = false;
    let mut i: usize = 0;
    let n = records.len();
    while i < n
        invariant
            i <= n,
            n == records@.len(),
            symbol_names_spec(raw@, symtab_section.link) == Some(names@),
            symbols_raw_spec(symtab_section.data@, e) == Some(records@),
            e == raw@.header.identifier.endianness,
            forall|k: int| 0 <= k < i ==> (#[trigger] cstr_at(names@, records@[k].name as int)) is Some,
            bad_index <==> exists|k: int|
                0 <= k < i && (#[trigger] new_shndx_spec(records@[k].shndx, index_map@)) is None,
            !bad_index ==> symbols_view(symbols@) =~= Seq::new(
                i as nat,
                |k: int|
                    SymbolModel {
                        name: cstr_at(names@, records@[k].name as int)->0,
                        info: records@[k].info,
                        other: records@[k].other,
                        shndx: new_shndx_spec(records@[k].shndx, index_map@)->0,
                        value: records@[k].value,
                        size: records@[k].size,
                    },
            ),
        decreases n - i,
    {
        let rec = &records[i];
        let name = match read_cstr(names.as_slice(), rec.name as usize) {
            Some(name) => name,
            None => {
                return Err(ElfFileError::ParseError);
            },
        };
        match get_new_shndx(rec.shndx, index_map) {
            Some(shndx) => {
                if !bad_index {
                    let ghost before = symbols@;
                    let sym = Symbol64 {
                        name,
                        info: rec.info,
                        other: rec.other,
                        shndx,
                        value: rec.value,
                        size: rec.size,
                    };
                    let ghost sv = sym@;
                    symbols.push(sym);
                    assert(symbols_view(symbols@) =~= symbols_view(before).push(sv));
                }
            },
            None => {
                bad_index = true;
            },
        }
        i += 1;
    }
    if bad_index {
        return Err(ElfFileError::InvalidFileError);
    }
    Ok(symbols)
}

} // verus!
