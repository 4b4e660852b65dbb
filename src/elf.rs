//! The decoded image of an ELF64 relocatable object.

use vstd::prelude::*;

use crate::bytes::Endianness;
use crate::parse::{raw_spec, relas_spec, ElfFile64HeaderRaw, ElfFile64Raw, RawImage};
use crate::relocation::get_relocations;
use crate::link::shndx_valid;
use crate::parse::symbols_raw_spec;
use crate::section::{
    get_sections, index_map_spec, is_primary, organize_sections, organize_spec, primary_pred,
    sections_spec, sections_view, Section64, SectionModel,
};
use crate::symbol::{
    get_symbols, new_shndx_spec, symbols_spec, symbols_view, Symbol64, SymbolModel, SHN_ABS,
    SHN_UNDEF,
};

verus! {

/// Why an object file could not be read or linked.
#[derive(Debug, PartialEq, Eq)]
pub enum ElfFileError {
    /// The bytes are not an ELF64 file of the accepted shape.
    ParseError,
    /// The file decodes but breaks a structural rule: no symbol table or
    /// more than one, a relocation table for a section that is not kept, a
    /// symbol in a section that is not kept.
    InvalidFileError,
    /// Two sections of one name that cannot be merged, or a symbol of this
    /// name defined twice.
    MergeConflict(Vec<u8>),
}

/// The value of an [`ElfFileError`].
pub ghost enum ErrorModel {
    Parse,
    Invalid,
    Conflict(Seq<u8>),
}

impl View for ElfFileError {
    type V = ErrorModel;

    open spec fn view(&self) -> ErrorModel {
        match self {
            ElfFileError::ParseError => ErrorModel::Parse,
            ElfFileError::InvalidFileError => ErrorModel::Invalid,
            ElfFileError::MergeConflict(name) => ErrorModel::Conflict(name@),
        }
    }
}

/// A decoded object file: its header, its primary sections (each carrying
/// its relocations), and its symbols.
pub struct ElfFile64 {
    pub header: ElfFile64HeaderRaw,
    pub unorganized_sections: Vec<Section64>,
    pub symbols: Vec<Symbol64>,
}

/// The value of an [`ElfFile64`].
pub ghost struct ElfModel {
    pub header: ElfFile64HeaderRaw,
    pub sections: Seq<SectionModel>,
    pub symbols: Seq<SymbolModel>,
}

impl View for ElfFile64 {
    type V = ElfModel;

    open spec fn view(&self) -> ElfModel {
        ElfModel {
            header: self.header,
            sections: sections_view(self.unorganized_sections@),
            symbols: symbols_view(self.symbols@),
        }
    }
}

/// `sec` with its relocation list set to `relocations`.
pub open spec fn with_relocations(sec: SectionModel, relocations: Seq<crate::relocation::RelocationA64>) -> SectionModel {
    SectionModel {
        name: sec.name,
        section_type: sec.section_type,
        flags: sec.flags,
        addr: sec.addr,
        link: sec.link,
        info: sec.info,
        addralign: sec.addralign,
        data: sec.data,
        relocations: Some(relocations),
    }
}

/// The primary sections `prims` after the records of each relocation table
/// of `relas`, in order, are hung off the section its `info` names.
pub open spec fn attach_spec(prims: Seq<SectionModel>, relas: Seq<SectionModel>, e: Endianness) -> Result<
    Seq<SectionModel>,
    ElfFileError,
>
    decreases relas.len(),
{
    if relas.len() == 0 {
        Ok(prims)
    } else {
        match attach_spec(prims, relas.drop_last(), e) {
            Ok(q) => {
                let r = relas.last();
                match relas_spec(r.data, e) {
                    Some(records) => if (r.info as int) < q.len() {
                        Ok(q.update(r.info as int, with_relocations(q[r.info as int], records)))
                    } else {
                        Err(ElfFileError::InvalidFileError)
                    },
                    None => Err(ElfFileError::ParseError),
                }
            },
            Err(x) => Err(x),
        }
    }
}

/// Once hanging the first `j` tables fails, hanging them all fails the same
/// way.
proof fn lemma_attach_err(prims: Seq<SectionModel>, relas: Seq<SectionModel>, j: int, e: Endianness)
    requires
        0 <= j <= relas.len(),
        attach_spec(prims, relas.subrange(0, j), e) is Err,
    ensures
        attach_spec(prims, relas, e) == attach_spec(prims, relas.subrange(0, j), e),
    decreases relas.len() - j,
{
    if j < relas.len() {
        assert(relas.subrange(0, j + 1).drop_last() =~= relas.subrange(0, j));
        lemma_attach_err(prims, relas, j + 1, e);
    } else {
        assert(relas.subrange(0, j) =~= relas);
    }
}

/// The logical model of the file `s`.
pub open spec fn decode_spec(s: Seq<u8>) -> Result<ElfModel, ElfFileError> {
    match raw_spec(s) {
        None => Err(ElfFileError::ParseError),
        Some(raw) => model_of_raw(raw),
    }
}

/// The logical model of the split file `raw`.
pub open spec fn model_of_raw(raw: RawImage) -> Result<ElfModel, ElfFileError> {
    match sections_spec(raw) {
            None => Err(ElfFileError::ParseError),
            Some(secs) => match organize_spec(secs) {
                None => Err(ElfFileError::InvalidFileError),
                Some((prims, symtab, relas, map)) => match symbols_spec(raw, symtab, map) {
                    Err(x) => Err(x),
                    Ok(syms) => match attach_spec(prims, relas, raw.header.identifier.endianness) {
                        Err(x) => Err(x),
                        Ok(sections) => Ok(ElfModel { header: raw.header, sections, symbols: syms }),
                    },
                },
            },
        }
}

proof fn lemma_attach_len(prims: Seq<SectionModel>, relas: Seq<SectionModel>, e: Endianness)
    requires
        attach_spec(prims, relas, e) is Ok,
    ensures
        attach_spec(prims, relas, e)->Ok_0.len() == prims.len(),
    decreases relas.len(),
{
    if relas.len() > 0 {
        lemma_attach_len(prims, relas.drop_last(), e);
    }
}

/// A primary section is counted among the primary sections before it, so
/// its new index is below their number.
proof fn lemma_index_map_bound(s: Seq<SectionModel>, i: int)
    requires
        0 <= i < s.len(),
        is_primary(s[i].section_type),
    ensures
        s.subrange(0, i).filter(primary_pred()).len() < s.filter(primary_pred()).len(),
{
    broadcast use Seq::lemma_filter_push;

    let sub = s.subrange(0, i);
    assert(s.subrange(0, i + 1) =~= sub.push(s[i]));
    sub.lemma_filter_push(s[i], primary_pred());
    s.subrange(0, i + 1).lemma_filter_monotone(s, primary_pred());
    assert(s.subrange(0, i + 1).is_prefix_of(s));
}

/// Every symbol of a decoded file that is neither undefined nor absolute
/// names one of its sections.
pub proof fn lemma_decoded_symbols_valid(s: Seq<u8>)
    requires
        decode_spec(s) is Ok,
    ensures
        shndx_valid(decode_spec(s)->Ok_0.symbols, decode_spec(s)->Ok_0.sections.len() as int),
{
    let raw = raw_spec(s)->0;
    let secs = sections_spec(raw)->0;
    let (prims, symtab, relas, map) = organize_spec(secs)->0;
    let syms = symbols_spec(raw, symtab, map)->Ok_0;
    lemma_attach_len(prims, relas, raw.header.identifier.endianness);
    let m = decode_spec(s)->Ok_0;
    assert(m.symbols == syms);
    assert(m.sections.len() == prims.len());
    assert forall|i: int| 0 <= i < syms.len() implies {
        let x = #[trigger] syms[i].shndx;
        x == SHN_UNDEF || x == SHN_ABS || (x as int) < prims.len()
    } by {
        let records = symbols_raw_spec(symtab.data, raw.header.identifier.endianness)->0;
        let old = records[i].shndx;
        if old != SHN_UNDEF && old != SHN_ABS {
            let k = old as int;
            assert(new_shndx_spec(old, map) is Some);
            assert(map == index_map_spec(secs));
            assert(is_primary(secs[k].section_type));
            lemma_index_map_bound(secs, k);
        }
    }
}

impl ElfFile64 {
    /// Decodes the object file `input`.
    pub fn parse(input: &[u8]) -> (r: Result<ElfFile64, ElfFileError>)
        ensures
            match r {
                Ok(f) => decode_spec(input@) == Ok::<ElfModel, ElfFileError>(f@),
                Err(e) => decode_spec(input@) == Err::<ElfModel, ElfFileError>(e),
            },
    {
        match ElfFile64Raw::parse(input) {
            Ok(raw) => Self::from_raw(raw),
            Err(_) => Err(ElfFileError::ParseError),
        }
    }

    /// Builds the logical model of the split file `raw`: decodes its
    /// sections, lifts out the tables, decodes the symbols and hangs each
    /// relocation table off the section it patches.
    pub fn from_raw(raw: ElfFile64Raw) -> (r: Result<ElfFile64, ElfFileError>)
        ensures
            match r {
                Ok(f) => model_of_raw(raw@) == Ok::<ElfModel, ElfFileError>(f@),
                Err(e) => model_of_raw(raw@) == Err::<ElfModel, ElfFileError>(e),
            },
    {
        let sections = get_sections(&raw)?;
        let ghost secs = sections_view(sections@);
        let (mut prims, symtab, relas, index_map) = organize_sections(sections)?;
        let symbols = get_symbols(&raw, &symtab, &index_map)?;
        let e = raw.header.identifier.endianness;
        let mut k: usize = 0;
        let ghost lifted = sections_view(prims@);
        let ghost rv = sections_view(relas@);
        assert(rv.subrange(0, 0) =~= Seq::<SectionModel>::empty());
        while k < relas.len()
            invariant
                k <= relas@.len(),
                rv == sections_view(relas@),
                e == raw@.header.identifier.endianness,
                sections_spec(raw@) == Some(secs),
                organize_spec(secs) == Some((lifted, symtab@, rv, index_map@)),
                symbols_spec(raw@, symtab@, index_map@) == Ok::<Seq<SymbolModel>, ElfFileError>(
                    symbols_view(symbols@),
                ),
                attach_spec(lifted, rv.subrange(0, k as int), e) == Ok::<Seq<SectionModel>, ElfFileError>(
                    sections_view(prims@),
                ),
            decreases relas@.len() - k,
        {
            let rela = &relas[k];
            assert(rv.subrange(0, k + 1).drop_last() =~= rv.subrange(0, k as int));
            assert(rv.subrange(0, k + 1).last() == rela@);
            let records = match get_relocations(rela, e) {
                Ok(v) => v,
                Err(x) => {
                    proof {
                        lemma_attach_err(lifted, rv, k + 1, e);
                    }
                    return Err(x);
                },
            };
            let target = rela.info as usize;
            if target >= prims.len() {
                proof {
                    lemma_attach_err(lifted, rv, k + 1, e);
                }
                return Err(ElfFileError::InvalidFileError);
            }
            let ghost before = sections_view(prims@);
            let mut sec = prims[target].duplicate();
            sec.relocations = Some(records);
            let ghost sv = sec@;
            prims.set(target, sec);
            assert(sections_view(prims@) =~= before.update(target as int, sv));
            k += 1;
        }
        assert(rv.subrange(0, relas@.len() as int) =~= rv);
        Ok(ElfFile64 { header: raw.header, unorganized_sections: prims, symbols })
    }
}

} // verus!
