//! The encoder: rebuilds the string, symbol and relocation tables of an
//! image and lays the whole file out as bytes.

use vstd::prelude::*;

use crate::bytes::{
    bytes_of, lemma_bytes_of_len, lemma_pow256_widths, lemma_u16_field, lemma_u32_field,
    lemma_u64_field, lemma_uint_round_trip, push_uint, u16_at, u64_at, Endianness,
};
use crate::elf::{ElfFile64, ElfModel};
use crate::link::is_local;
use crate::parse::ElfFile64HeaderRaw;
use crate::relocation::{rela_bytes, RelocationA64};
use crate::parse::{relas_spec, rela_spec, ElfFile64SectionHeaderRaw, RawImage};
use crate::section::{
    is_primary, section_data_spec, section_type_code, sections_view, Section64, SectionModel,
    SectionType64,
};
use crate::strtab::{build_string_table, bytes_view, string_offset, strtab_bytes, unique_names, StringTable};
use crate::symbol::{symbols_view, Symbol64, SymbolModel};
use crate::utils::{section_names, symbol_names};

verus! {

/// `.rela`, the prefix of a relocation table's name.
pub open spec fn rela_prefix() -> Seq<u8> {
    seq![0x2eu8, 0x72, 0x65, 0x6c, 0x61]
}

/// `.symtab`
pub open spec fn symtab_name() -> Seq<u8> {
    seq![0x2eu8, 0x73, 0x79, 0x6d, 0x74, 0x61, 0x62]
}

/// `.strtab`
pub open spec fn strtab_name() -> Seq<u8> {
    seq![0x2eu8, 0x73, 0x74, 0x72, 0x74, 0x61, 0x62]
}

/// `.shstrtab`
pub open spec fn shstrtab_name() -> Seq<u8> {
    seq![0x2eu8, 0x73, 0x68, 0x73, 0x74, 0x72, 0x74, 0x61, 0x62]
}

fn rela_prefix_exec() -> (r: Vec<u8>)
    ensures
        r@ == rela_prefix(),
{
    let r = vec![0x2eu8, 0x72, 0x65, 0x6c, 0x61];
    assert(r@ =~= rela_prefix());
    r
}

fn symtab_name_exec() -> (r: Vec<u8>)
    ensures
        r@ == symtab_name(),
{
    let r = vec![0x2eu8, 0x73, 0x79, 0x6d, 0x74, 0x61, 0x62];
    assert(r@ =~= symtab_name());
    r
}

fn strtab_name_exec() -> (r: Vec<u8>)
    ensures
        r@ == strtab_name(),
{
    let r = vec![0x2eu8, 0x73, 0x74, 0x72, 0x74, 0x61, 0x62];
    assert(r@ =~= strtab_name());
    r
}

fn shstrtab_name_exec() -> (r: Vec<u8>)
    ensures
        r@ == shstrtab_name(),
{
    let r = vec![0x2eu8, 0x73, 0x68, 0x73, 0x74, 0x72, 0x74, 0x61, 0x62];
    assert(r@ =~= shstrtab_name());
    r
}

/// Appends the bytes `src` to `out`.
pub fn append_bytes(out: &mut Vec<u8>, src: &Vec<u8>)
    ensures
        final(out)@ == old(out)@ + src@,
{
    let ghost start = out@;
    let mut i: usize = 0;
    while i < src.len()
        invariant
            i <= src@.len(),
            out@ == start + src@.subrange(0, i as int),
        decreases src@.len() - i,
    {
        out.push(src[i]);
        i += 1;
        assert(out@ =~= start + src@.subrange(0, i as int));
    }
    assert(src@.subrange(0, src@.len() as int) =~= src@);
}

/// The records of a relocation table.
pub open spec fn rela_records_bytes(rs: Seq<RelocationA64>, e: Endianness) -> Seq<u8>
    decreases rs.len(),
{
    if rs.len() == 0 {
        Seq::empty()
    } else {
        rela_records_bytes(rs.drop_last(), e) + rela_bytes(rs.last(), e)
    }
}

/// The relocation table of primary section `p` at index `idx`.
pub open spec fn rela_section_spec(p: SectionModel, idx: int, symtab_idx: int, e: Endianness) -> SectionModel {
    SectionModel {
        name: rela_prefix() + p.name,
        section_type: SectionType64::Rela,
        flags: 0,
        addr: 0,
        link: symtab_idx as u32,
        info: idx as u32,
        addralign: 8,
        data: rela_records_bytes(p.relocations->0, e),
        relocations: None,
    }
}

/// One relocation table for each primary section with relocations, in
/// order.
pub open spec fn rela_sections_spec(prims: Seq<SectionModel>, symtab_idx: int, e: Endianness) -> Seq<
    SectionModel,
>
    decreases prims.len(),
{
    if prims.len() == 0 {
        Seq::empty()
    } else {
        let r = rela_sections_spec(prims.drop_last(), symtab_idx, e);
        if prims.last().relocations is Some {
            r.push(rela_section_spec(prims.last(), prims.len() - 1, symtab_idx, e))
        } else {
            r
        }
    }
}

/// The names of the relocation tables of `prims`.
pub open spec fn rela_names_spec(prims: Seq<SectionModel>) -> Seq<Seq<u8>>
    decreases prims.len(),
{
    if prims.len() == 0 {
        Seq::empty()
    } else {
        let r = rela_names_spec(prims.drop_last());
        if prims.last().relocations is Some {
            r.push(rela_prefix() + prims.last().name)
        } else {
            r
        }
    }
}

/// The names that go into the section name string table.
pub open spec fn section_strings_spec(prims: Seq<SectionModel>) -> Seq<Seq<u8>> {
    section_names(prims) + seq![strtab_name(), shstrtab_name(), symtab_name()] + rela_names_spec(prims)
}

/// The 24-byte record of symbol `s`, whose name stands at `name_off`.
pub open spec fn symbol_bytes(s: SymbolModel, name_off: int, e: Endianness) -> Seq<u8> {
    bytes_of(name_off as nat, 4, e) + seq![s.info, s.other] + bytes_of(s.shndx as nat, 2, e)
        + bytes_of(s.value as nat, 8, e) + bytes_of(s.size as nat, 8, e)
}

/// The records of the symbol table, names looked up in the string table
/// holding `names`.
pub open spec fn symtab_data_spec(syms: Seq<SymbolModel>, names: Seq<Seq<u8>>, e: Endianness) -> Option<
    Seq<u8>,
>
    decreases syms.len(),
{
    if syms.len() == 0 {
        Some(Seq::empty())
    } else {
        match (symtab_data_spec(syms.drop_last(), names, e), string_offset(names, syms.last().name)) {
            (Some(d), Some(o)) => if o <= u32::MAX {
                Some(d + symbol_bytes(syms.last(), o, e))
            } else {
                None
            },
            _ => None,
        }
    }
}

/// `k` is the index of the first symbol of `syms` that is not local, or the
/// number of symbols if all are.
pub open spec fn is_first_nonlocal(syms: Seq<SymbolModel>, k: int) -> bool {
    &&& 0 <= k <= syms.len()
    &&& forall|j: int| 0 <= j < k ==> is_local(#[trigger] syms[j])
    &&& (k == syms.len() || !is_local(syms[k]))
}

/// The index of the first non-local symbol.
pub open spec fn first_nonlocal(syms: Seq<SymbolModel>) -> int {
    choose|k: int| is_first_nonlocal(syms, k)
}

pub proof fn lemma_first_nonlocal(syms: Seq<SymbolModel>, k: int)
    requires
        is_first_nonlocal(syms, k),
    ensures
        first_nonlocal(syms) == k,
{
    let c = first_nonlocal(syms);
    assert(is_first_nonlocal(syms, c));
    if c < k {
        assert(is_local(syms[c]));
    } else if k < c {
        assert(is_local(syms[k]));
    }
}

/// The synthesized symbol table.
pub open spec fn symtab_section_spec(
    syms: Seq<SymbolModel>,
    names: Seq<Seq<u8>>,
    strtab_idx: int,
    e: Endianness,
) -> Option<SectionModel> {
    match symtab_data_spec(syms, names, e) {
        Some(data) => if first_nonlocal(syms) <= u32::MAX && strtab_idx <= u32::MAX {
            Some(
                SectionModel {
                    name: symtab_name(),
                    section_type: SectionType64::Symtab,
                    flags: 0,
                    addr: 0,
                    link: strtab_idx as u32,
                    info: first_nonlocal(syms) as u32,
                    addralign: 8,
                    data,
                    relocations: None,
                },
            )
        } else {
            None
        },
        None => None,
    }
}

/// A synthesized string table named `name` holding `names`.
pub open spec fn strtab_section_spec(name: Seq<u8>, names: Seq<Seq<u8>>) -> SectionModel {
    SectionModel {
        name,
        section_type: SectionType64::Strtab,
        flags: 0,
        addr: 0,
        link: 0,
        info: 0,
        addralign: 1,
        data: strtab_bytes(names),
        relocations: None,
    }
}

/// The sections of the output, in order: the primary sections, their
/// relocation tables, `.symtab`, `.strtab` and `.shstrtab`.
#[verifier::opaque]
pub open spec fn output_sections_spec(m: ElfModel) -> Option<Seq<SectionModel>> {
    let prims = m.sections;
    let e = m.header.identifier.endianness;
    let symtab_idx = (prims.len() + rela_names_spec(prims).len()) as int;
    let symnames = unique_names(symbol_names(m.symbols));
    if symtab_idx + 3 > 0xffff {
        None
    } else {
        match symtab_section_spec(m.symbols, symnames, symtab_idx + 1, e) {
            Some(symtab) => Some(
                prims + rela_sections_spec(prims, symtab_idx, e) + seq![
                    symtab,
                    strtab_section_spec(strtab_name(), symnames),
                    strtab_section_spec(shstrtab_name(), unique_names(section_strings_spec(prims))),
                ],
            ),
            None => None,
        }
    }
}

impl Section64 {
    /// The string table section named `name` holding the names of `strtab`.
    pub fn from_strtab(strtab: &StringTable, name: Vec<u8>) -> (r: Section64)
        requires
            strtab.wf(),
        ensures
            r@ == strtab_section_spec(name@, bytes_view(strtab.names@)),
    {
        Section64 {
            name,
            section_type: SectionType64::Strtab,
            flags: 0,
            addr: 0,
            link: 0,
            info: 0,
            addralign: 1,
            data: crate::section::copy_bytes(&strtab.data),
            relocations: None,
        }
    }

    /// The symbol table section of `symtab`, names looked up in `strtab`,
    /// linked to the string table at index `strtab_idx`.
    pub fn from_symtab(symtab: &Vec<Symbol64>, strtab: &StringTable, strtab_idx: usize, e: Endianness) -> (r:
        Option<Section64>)
        requires
            strtab.wf(),
        ensures
            match r {
                Some(sec) => symtab_section_spec(
                    symbols_view(symtab@),
                    bytes_view(strtab.names@),
                    strtab_idx as int,
                    e,
                ) == Some(sec@),
                None => symtab_section_spec(
                    symbols_view(symtab@),
                    bytes_view(strtab.names@),
                    strtab_idx as int,
                    e,
                ) is None,
            },
    {
        let data = match symtab_data(symtab, strtab, e) {
            Some(d) => d,
            None => {
                return None;
            },
        };
        let k = first_nonlocal_exec(symtab);
        if k as u64 > 0xffff_ffffu64 || strtab_idx as u64 > 0xffff_ffffu64 {
            return None;
        }
        Some(
            Section64 {
                name: symtab_name_exec(),
                section_type: SectionType64::Symtab,
                flags: 0,
                addr: 0,
                link: strtab_idx as u32,
                info: k as u32,
                addralign: 8,
                data,
                relocations: None,
            },
        )
    }

    /// The relocation table section named `name` holding `relas`, for the
    /// section at `section_idx`, linked to the symbol table at
    /// `symtab_idx`.
    pub fn from_rela(
        relas: &Vec<RelocationA64>,
        symtab_idx: usize,
        section_idx: usize,
        name: Vec<u8>,
        e: Endianness,
    ) -> (r: Section64)
        requires
            symtab_idx <= u32::MAX,
            section_idx <= u32::MAX,
        ensures
            r@ == (SectionModel {
                name: name@,
                section_type: SectionType64::Rela,
                flags: 0,
                addr: 0,
                link: symtab_idx as u32,
                info: section_idx as u32,
                addralign: 8,
                data: rela_records_bytes(relas@, e),
                relocations: None,
            }),
    {
        let mut data: Vec<u8> = Vec::new();
        let mut i: usize = 0;
        assert(relas@.subrange(0, 0) =~= Seq::<RelocationA64>::empty());
        while i < relas.len()
            invariant
                i <= relas@.len(),
                data@ == rela_records_bytes(relas@.subrange(0, i as int), e),
            decreases relas@.len() - i,
        {
            let raw = relas[i].as_raw(e);
            append_bytes(&mut data, &raw);
            assert(relas@.subrange(0, i + 1).drop_last() =~= relas@.subrange(0, i as int));
            i += 1;
        }
        assert(relas@.subrange(0, relas@.len() as int) =~= relas@);
        Section64 {
            name,
            section_type: SectionType64::Rela,
            flags: 0,
            addr: 0,
            link: symtab_idx as u32,
            info: section_idx as u32,
            addralign: 8,
            data,
            relocations: None,
        }
    }
}

/// The records of the symbol table of `symtab`, names looked up in
/// `strtab`.
#[verifier::rlimit(40)]
fn symtab_data(symtab: &Vec<Symbol64>, strtab: &StringTable, e: Endianness) -> (r: Option<Vec<u8>>)
    requires
        strtab.wf(),
    ensures
        match r {
            Some(d) => symtab_data_spec(symbols_view(symtab@), bytes_view(strtab.names@), e) == Some(d@),
            None => symtab_data_spec(symbols_view(symtab@), bytes_view(strtab.names@), e) is None,
        },
{
    let ghost syms = symbols_view(symtab@);
    let ghost names = bytes_view(strtab.names@);
    let mut data: Vec<u8> = Vec::new();
    let mut i: usize = 0;
    assert(syms.subrange(0, 0) =~= Seq::<SymbolModel>::empty());
    while i < symtab.len()
        invariant
            i <= symtab@.len(),
            syms == symbols_view(symtab@),
            names == bytes_view(strtab.names@),
            strtab.wf(),
            symtab_data_spec(syms.subrange(0, i as int), names, e) == Some(data@),
        decreases symtab@.len() - i,
    {
        let sym = &symtab[i];
        assert(syms.subrange(0, i + 1).drop_last() =~= syms.subrange(0, i as int));
        assert(syms.subrange(0, i + 1).last() == sym@);
        let off = match strtab.offset_of(&sym.name) {
            Some(o) => o,
            None => {
                proof {
                    lemma_symtab_data_none(syms, names, e, i + 1);
                }
                return None;
            },
        };
        if off as u64 > 0xffff_ffffu64 {
            proof {
                lemma_symtab_data_none(syms, names, e, i + 1);
            }
            return None;
        }
        let record = symbol_record(sym, off as u32, e);
        append_bytes(&mut data, &record);
        i += 1;
    }
    assert(syms.subrange(0, symtab@.len() as int) =~= syms);
    Some(data)
}

/// The index of the first symbol of `symtab` that is not local.
fn first_nonlocal_exec(symtab: &Vec<Symbol64>) -> (k: usize)
    ensures
        k as int == first_nonlocal(symbols_view(symtab@)),
{
    let ghost syms = symbols_view(symtab@);
    let mut k: usize = 0;
    while k < symtab.len() && symtab[k].info / 16 == 0
        invariant
            k <= symtab@.len(),
            syms == symbols_view(symtab@),
            forall|j: int| 0 <= j < k ==> is_local(#[trigger] syms[j]),
        decreases symtab@.len() - k,
    {
        assert(syms[k as int].info == symtab@[k as int].info);
        k += 1;
    }
    proof {
        if k < symtab@.len() {
            assert(syms[k as int].info == symtab@[k as int].info);
        }
        lemma_first_nonlocal(syms, k as int);
    }
    k
}

/// The 24-byte record of `sym`, whose name stands at `name_off`.
fn symbol_record(sym: &Symbol64, name_off: u32, e: Endianness) -> (r: Vec<u8>)
    ensures
        r@ == symbol_bytes(sym@, name_off as int, e),
{
    let mut out: Vec<u8> = Vec::new();
    push_uint(&mut out, name_off as u64, 4, e);
    out.push(sym.info);
    out.push(sym.other);
    push_uint(&mut out, sym.shndx as u64, 2, e);
    push_uint(&mut out, sym.value, 8, e);
    push_uint(&mut out, sym.size, 8, e);
    assert(out@ =~= symbol_bytes(sym@, name_off as int, e));
    out
}

/// The names of the relocation tables of `prims`.
fn rela_names_of(prims: &Vec<Section64>) -> (r: Vec<Vec<u8>>)
    ensures
        bytes_view(r@) == rela_names_spec(sections_view(prims@)),
        r@.len() <= prims@.len(),
{
    let ghost pv = sections_view(prims@);
    let mut rela_names: Vec<Vec<u8>> = Vec::new();
    let mut i: usize = 0;
    assert(pv.subrange(0, 0) =~= Seq::<SectionModel>::empty());
    assert(bytes_view(rela_names@) =~= Seq::<Seq<u8>>::empty());
    while i < prims.len()
        invariant
            i <= prims@.len(),
            pv == sections_view(prims@),
            bytes_view(rela_names@) == rela_names_spec(pv.subrange(0, i as int)),
            rela_names@.len() <= i,
        decreases prims@.len() - i,
    {
        assert(pv.subrange(0, i + 1).drop_last() =~= pv.subrange(0, i as int));
        assert(pv.subrange(0, i + 1).last() == prims@[i as int]@);
        if prims[i].relocations.is_some() {
            let mut name = rela_prefix_exec();
            append_bytes(&mut name, &prims[i].name);
            let ghost before = rela_names@;
            let ghost nv = name@;
            rela_names.push(name);
            assert(bytes_view(rela_names@) =~= bytes_view(before).push(nv));
        }
        i += 1;
    }
    assert(pv.subrange(0, prims@.len() as int) =~= pv);
    rela_names
}

/// The names of the symbols of `symbols`.
fn symbol_strings_of(symbols: &Vec<Symbol64>) -> (r: Vec<Vec<u8>>)
    ensures
        bytes_view(r@) == symbol_names(symbols_view(symbols@)),
{
    let ghost sv = symbols_view(symbols@);
    let mut out: Vec<Vec<u8>> = Vec::new();
    let mut k: usize = 0;
    while k < symbols.len()
        invariant
            k <= symbols@.len(),
            sv == symbols_view(symbols@),
            bytes_view(out@) == symbol_names(sv).subrange(0, k as int),
        decreases symbols@.len() - k,
    {
        let ghost before = out@;
        let c = crate::section::copy_bytes(&symbols[k].name);
        let ghost cv = c@;
        out.push(c);
        assert(bytes_view(out@) =~= bytes_view(before).push(cv));
        assert(symbol_names(sv).subrange(0, k + 1) =~= symbol_names(sv).subrange(0, k as int).push(cv));
        k += 1;
    }
    assert(symbol_names(sv).subrange(0, symbols@.len() as int) =~= symbol_names(sv));
    out
}

/// The names that go into the section name string table of `prims`.
fn section_strings_of(prims: &Vec<Section64>, rela_names: &Vec<Vec<u8>>) -> (r: Vec<Vec<u8>>)
    requires
        bytes_view(rela_names@) == rela_names_spec(sections_view(prims@)),
    ensures
        bytes_view(r@) == section_strings_spec(sections_view(prims@)),
{
    let ghost pv = sections_view(prims@);
    let mut section_strings: Vec<Vec<u8>> = Vec::new();
    let mut k: usize = 0;
    while k < prims.len()
        invariant
            k <= prims@.len(),
            pv == sections_view(prims@),
            bytes_view(section_strings@) == section_names(pv).subrange(0, k as int),
        decreases prims@.len() - k,
    {
        let ghost before = section_strings@;
        let c = crate::section::copy_bytes(&prims[k].name);
        let ghost cv = c@;
        section_strings.push(c);
        assert(bytes_view(section_strings@) =~= bytes_view(before).push(cv));
        assert(section_names(pv).subrange(0, k + 1) =~= section_names(pv).subrange(0, k as int).push(cv));
        k += 1;
    }
    assert(section_names(pv).subrange(0, prims@.len() as int) =~= section_names(pv));
    let ghost b0 = section_strings@;
    let c1 = strtab_name_exec();
    let c2 = shstrtab_name_exec();
    let c3 = symtab_name_exec();
    section_strings.push(c1);
    section_strings.push(c2);
    section_strings.push(c3);
    let ghost fixed = bytes_view(section_strings@);
    assert(fixed =~= section_names(pv) + seq![strtab_name(), shstrtab_name(), symtab_name()]);
    let mut k: usize = 0;
    while k < rela_names.len()
        invariant
            k <= rela_names@.len(),
            bytes_view(section_strings@) == fixed + bytes_view(rela_names@).subrange(0, k as int),
        decreases rela_names@.len() - k,
    {
        let ghost before = section_strings@;
        let c = crate::section::copy_bytes(&rela_names[k]);
        let ghost cv = c@;
        section_strings.push(c);
        assert(bytes_view(section_strings@) =~= bytes_view(before).push(cv));
        assert(bytes_view(rela_names@).subrange(0, k + 1) =~= bytes_view(rela_names@).subrange(
            0,
            k as int,
        ).push(cv));
        k += 1;
    }
    assert(bytes_view(rela_names@).subrange(0, rela_names@.len() as int) =~= bytes_view(rela_names@));
    section_strings
}

/// Copies of the sections `prims`, followed by their relocation tables.
fn primaries_and_relas(prims: &Vec<Section64>, symtab_idx: usize, e: Endianness) -> (r: Vec<Section64>)
    requires
        prims@.len() <= symtab_idx < 0xffff,
    ensures
        sections_view(r@) == sections_view(prims@) + rela_sections_spec(
            sections_view(prims@),
            symtab_idx as int,
            e,
        ),
{
    let ghost pv = sections_view(prims@);
    let mut out: Vec<Section64> = Vec::new();
    let mut i: usize = 0;
    while i < prims.len()
        invariant
            i <= prims@.len(),
            pv == sections_view(prims@),
            sections_view(out@) == pv.subrange(0, i as int),
        decreases prims@.len() - i,
    {
        let d = prims[i].duplicate();
        let ghost before = out@;
        let ghost dv = d@;
        out.push(d);
        assert(sections_view(out@) =~= sections_view(before).push(dv));
        assert(pv.subrange(0, i + 1) =~= pv.subrange(0, i as int).push(dv));
        i += 1;
    }
    assert(pv.subrange(0, prims@.len() as int) =~= pv);
    let mut i: usize = 0;
    assert(pv.subrange(0, 0) =~= Seq::<SectionModel>::empty());
    while i < prims.len()
        invariant
            i <= prims@.len(),
            pv == sections_view(prims@),
            prims@.len() <= symtab_idx < 0xffff,
            sections_view(out@) == pv + rela_sections_spec(pv.subrange(0, i as int), symtab_idx as int, e),
        decreases prims@.len() - i,
    {
        assert(pv.subrange(0, i + 1).drop_last() =~= pv.subrange(0, i as int));
        assert(pv.subrange(0, i + 1).last() == prims@[i as int]@);
        match &prims[i].relocations {
            Some(rs) => {
                let mut name = rela_prefix_exec();
                append_bytes(&mut name, &prims[i].name);
                let sec = Section64::from_rela(rs, symtab_idx, i, name, e);
                let ghost before = out@;
                let ghost secv = sec@;
                out.push(sec);
                assert(sections_view(out@) =~= sections_view(before).push(secv));
            },
            None => {},
        }
        i += 1;
    }
    assert(pv.subrange(0, prims@.len() as int) =~= pv);
    out
}

/// The sections of the output and the section name string table, or
/// `None` when the output would exceed the format's limits.
pub fn build_output_sections(file: &ElfFile64) -> (r: Option<(Vec<Section64>, StringTable)>)
    ensures
        match r {
            Some((secs, table)) => output_sections_spec(file@) == Some(sections_view(secs@))
                && table.wf() && bytes_view(table.names@) == unique_names(
                section_strings_spec(file@.sections),
            ),
            None => output_sections_spec(file@) is None,
        },
{
    proof {
        reveal(output_sections_spec);
    }
    let prims = &file.unorganized_sections;
    let e = file.header.identifier.endianness;
    let rela_names = rela_names_of(prims);
    if prims.len() > 0xffff || prims.len() + rela_names.len() + 3 > 0xffff {
        return None;
    }
    let symtab_idx = prims.len() + rela_names.len();
    let symbol_strings = symbol_strings_of(&file.symbols);
    let strtab = build_string_table(&symbol_strings);
    let section_strings = section_strings_of(prims, &rela_names);
    let shstrtab = build_string_table(&section_strings);
    let symtab = match Section64::from_symtab(&file.symbols, &strtab, symtab_idx + 1, e) {
        Some(t) => t,
        None => {
            return None;
        },
    };
    let mut out = primaries_and_relas(prims, symtab_idx, e);
    let ghost before = out@;
    let ghost symtab_v = symtab@;
    out.push(symtab);
    let strtab_sec = Section64::from_strtab(&strtab, strtab_name_exec());
    let ghost strtab_v = strtab_sec@;
    out.push(strtab_sec);
    let shstrtab_sec = Section64::from_strtab(&shstrtab, shstrtab_name_exec());
    let ghost shstrtab_v = shstrtab_sec@;
    out.push(shstrtab_sec);
    assert(sections_view(out@) =~= sections_view(before) + seq![symtab_v, strtab_v, shstrtab_v]);
    Some((out, shstrtab))
}

/// The total size of the data of `secs`.
pub open spec fn total_size(secs: Seq<SectionModel>) -> int
    decreases secs.len(),
{
    if secs.len() == 0 {
        0
    } else {
        total_size(secs.drop_last()) + secs.last().data.len()
    }
}

/// The data of `secs`, one after the other.
pub open spec fn bodies_spec(secs: Seq<SectionModel>) -> Seq<u8>
    decreases secs.len(),
{
    if secs.len() == 0 {
        Seq::empty()
    } else {
        bodies_spec(secs.drop_last()) + secs.last().data
    }
}

/// The record size of a section: 24 for symbol and relocation tables.
pub open spec fn entsize_spec(t: SectionType64) -> u64 {
    if t is Symtab || t is Rela {
        24
    } else {
        0
    }
}

/// The 64-byte header of section `s`, named at `name_off`, whose data
/// stands at `offset`.
pub open spec fn section_header_bytes(s: SectionModel, name_off: int, offset: int, e: Endianness) -> Seq<u8> {
    bytes_of(name_off as nat, 4, e) + bytes_of(section_type_code(s.section_type) as nat, 4, e)
        + bytes_of(s.flags as nat, 8, e) + bytes_of(s.addr as nat, 8, e) + bytes_of(offset as nat, 8, e)
        + bytes_of(s.data.len(), 8, e) + bytes_of(s.link as nat, 4, e) + bytes_of(s.info as nat, 4, e)
        + bytes_of(s.addralign as nat, 8, e) + bytes_of(entsize_spec(s.section_type) as nat, 8, e)
}

/// The section header table of `secs`, whose data is laid out one after
/// the other from offset 64, names looked up in the string table holding
/// `names`.
pub open spec fn section_headers_spec(secs: Seq<SectionModel>, names: Seq<Seq<u8>>, e: Endianness) -> Option<
    Seq<u8>,
>
    decreases secs.len(),
{
    if secs.len() == 0 {
        Some(Seq::empty())
    } else {
        match (section_headers_spec(secs.drop_last(), names, e), string_offset(names, secs.last().name)) {
            (Some(h), Some(o)) => if o <= u32::MAX {
                Some(h + section_header_bytes(secs.last(), o, 64 + total_size(secs.drop_last()), e))
            } else {
                None
            },
            _ => None,
        }
    }
}

/// The identifier byte of a byte order.
pub open spec fn endianness_byte(e: Endianness) -> u8 {
    match e {
        Endianness::Little => 1,
        Endianness::Big => 2,
    }
}

/// The file header of the output: the identifier and ABI fields, type,
/// machine, version, entry and flags of `h`; no program headers; header
/// and section header sizes of 64; `shnum` sections whose table starts at
/// `shoff`; the section name string table last.
pub open spec fn header_bytes(h: ElfFile64HeaderRaw, shoff: int, shnum: int) -> Seq<u8> {
    let e = h.identifier.endianness;
    seq![
        0x7fu8,
        0x45,
        0x4c,
        0x46,
        2,
        endianness_byte(e),
        h.identifier.version,
        h.identifier.os_abi,
        h.identifier.abi_version,
        0,
        0,
        0,
        0,
        0,
        0,
        0,
    ] + bytes_of(h.file_type as nat, 2, e) + bytes_of(h.machine as nat, 2, e) + bytes_of(
        h.version as nat,
        4,
        e,
    ) + bytes_of(h.entry as nat, 8, e) + bytes_of(0, 8, e) + bytes_of(shoff as nat, 8, e) + bytes_of(
        h.flags as nat,
        4,
        e,
    ) + bytes_of(64, 2, e) + bytes_of(h.phentsize as nat, 2, e) + bytes_of(0, 2, e) + bytes_of(64, 2, e)
        + bytes_of(shnum as nat, 2, e) + bytes_of((shnum - 1) as nat, 2, e)
}

/// The bytes of the output file of image `m`: file header, section data,
/// section header table; `None` when the output would exceed the format's
/// limits.
#[verifier::opaque]
pub open spec fn encode_spec(m: ElfModel) -> Option<Seq<u8>> {
    match output_sections_spec(m) {
        None => None,
        Some(secs) => if 64 + total_size(secs) > u64::MAX {
            None
        } else {
            match section_headers_spec(
                secs,
                unique_names(section_strings_spec(m.sections)),
                m.header.identifier.endianness,
            ) {
                None => None,
                Some(table) => Some(
                    header_bytes(m.header, 64 + total_size(secs), secs.len() as int) + bodies_spec(secs)
                        + table,
                ),
            }
        },
    }
}

/// The identifier byte of byte order `e`.
pub fn serialize_endianness(e: Endianness) -> (r: u8)
    ensures
        r == endianness_byte(e),
{
    match e {
        Endianness::Little => 1,
        Endianness::Big => 2,
    }
}

/// The file header of the output.
fn write_header(h: &ElfFile64HeaderRaw, shoff: u64, shnum: u16) -> (r: Vec<u8>)
    requires
        shnum >= 1,
    ensures
        r@ == header_bytes(*h, shoff as int, shnum as int),
{
    let e = h.identifier.endianness;
    let mut out: Vec<u8> = vec![0x7fu8, 0x45, 0x4c, 0x46, 2];
    out.push(serialize_endianness(e));
    out.push(h.identifier.version);
    out.push(h.identifier.os_abi);
    out.push(h.identifier.abi_version);
    let mut k: usize = 0;
    while k < 7
        invariant
            k <= 7,
            out@.len() == 9 + k,
            forall|j: int| 9 <= j < 9 + k ==> out@[j] == 0,
            out@.subrange(0, 9) == seq![
                0x7fu8,
                0x45,
                0x4c,
                0x46,
                2,
                endianness_byte(e),
                h.identifier.version,
                h.identifier.os_abi,
                h.identifier.abi_version,
            ],
        decreases 7 - k,
    {
        out.push(0u8);
        k += 1;
    }
    let ghost ident = out@;
    assert(ident =~= seq![
        0x7fu8,
        0x45,
        0x4c,
        0x46,
        2,
        endianness_byte(e),
        h.identifier.version,
        h.identifier.os_abi,
        h.identifier.abi_version,
        0,
        0,
        0,
        0,
        0,
        0,
        0,
    ]);
    push_uint(&mut out, h.file_type as u64, 2, e);
    push_uint(&mut out, h.machine as u64, 2, e);
    push_uint(&mut out, h.version as u64, 4, e);
    push_uint(&mut out, h.entry, 8, e);
    push_uint(&mut out, 0, 8, e);
    push_uint(&mut out, shoff, 8, e);
    push_uint(&mut out, h.flags as u64, 4, e);
    push_uint(&mut out, 64, 2, e);
    push_uint(&mut out, h.phentsize as u64, 2, e);
    push_uint(&mut out, 0, 2, e);
    push_uint(&mut out, 64, 2, e);
    push_uint(&mut out, shnum as u64, 2, e);
    push_uint(&mut out, (shnum - 1) as u64, 2, e);
    assert(out@ =~= header_bytes(*h, shoff as int, shnum as int));
    out
}

/// The header of section `s`, named at `name_off`, whose data stands at
/// `offset`.
fn write_section_header(s: &Section64, name_off: u32, offset: u64, e: Endianness) -> (r: Vec<u8>)
    ensures
        r@ == section_header_bytes(s@, name_off as int, offset as int, e),
{
    let mut out: Vec<u8> = Vec::new();
    push_uint(&mut out, name_off as u64, 4, e);
    push_uint(&mut out, s.section_type.to_raw() as u64, 4, e);
    push_uint(&mut out, s.flags, 8, e);
    push_uint(&mut out, s.addr, 8, e);
    push_uint(&mut out, offset, 8, e);
    push_uint(&mut out, s.data.len() as u64, 8, e);
    push_uint(&mut out, s.link as u64, 4, e);
    push_uint(&mut out, s.info as u64, 4, e);
    push_uint(&mut out, s.addralign, 8, e);
    let entsize: u64 = match s.section_type {
        SectionType64::Symtab => 24,
        SectionType64::Rela => 24,
        _ => 0,
    };
    push_uint(&mut out, entsize, 8, e);
    assert(out@ =~= section_header_bytes(s@, name_off as int, offset as int, e));
    out
}

proof fn lemma_total_size_prefix(secs: Seq<SectionModel>, i: int)
    requires
        0 <= i <= secs.len(),
    ensures
        total_size(secs.subrange(0, i)) <= total_size(secs),
        0 <= total_size(secs.subrange(0, i)),
    decreases secs.len() - i,
{
    lemma_total_size_nonneg(secs.subrange(0, i));
    if i < secs.len() {
        assert(secs.subrange(0, i + 1).drop_last() =~= secs.subrange(0, i));
        lemma_total_size_prefix(secs, i + 1);
    } else {
        assert(secs.subrange(0, i) =~= secs);
        lemma_total_size_nonneg(secs);
    }
}

pub proof fn lemma_total_size_nonneg(secs: Seq<SectionModel>)
    ensures
        0 <= total_size(secs),
    decreases secs.len(),
{
    if secs.len() > 0 {
        lemma_total_size_nonneg(secs.drop_last());
    }
}

proof fn lemma_section_headers_none(secs: Seq<SectionModel>, names: Seq<Seq<u8>>, e: Endianness, j: int)
    requires
        0 <= j <= secs.len(),
        section_headers_spec(secs.subrange(0, j), names, e) is None,
    ensures
        section_headers_spec(secs, names, e) is None,
    decreases secs.len() - j,
{
    if j < secs.len() {
        assert(secs.subrange(0, j + 1).drop_last() =~= secs.subrange(0, j));
        lemma_section_headers_none(secs, names, e, j + 1);
    } else {
        assert(secs.subrange(0, j) =~= secs);
    }
}

/// The total size of the data of `secs`, if the file it would make fits in
/// 64-bit offsets.
pub fn get_section_data_size(secs: &Vec<Section64>) -> (r: Option<u64>)
    ensures
        match r {
            Some(n) => n as int == total_size(sections_view(secs@)) && 64 + n <= u64::MAX,
            None => 64 + total_size(sections_view(secs@)) > u64::MAX,
        },
{
    let ghost sv = sections_view(secs@);
    let mut total: u64 = 0;
    let mut i: usize = 0;
    assert(sv.subrange(0, 0) =~= Seq::<SectionModel>::empty());
    while i < secs.len()
        invariant
            i <= secs@.len(),
            sv == sections_view(secs@),
            total as int == total_size(sv.subrange(0, i as int)),
            64 + total <= u64::MAX,
        decreases secs@.len() - i,
    {
        assert(sv.subrange(0, i + 1).drop_last() =~= sv.subrange(0, i as int));
        assert(sv.subrange(0, i + 1).last() == secs@[i as int]@);
        let len = secs[i].data.len() as u64;
        if len > 0xffff_ffff_ffff_ffbfu64 - total {
            proof {
                lemma_total_size_prefix(sv, i + 1);
            }
            return None;
        }
        total = total + len;
        i += 1;
    }
    assert(sv.subrange(0, secs@.len() as int) =~= sv);
    Some(total)
}

/// The data of `sections`, one after the other.
fn write_section_data(sections: &Vec<Section64>) -> (r: Vec<u8>)
    ensures
        r@ == bodies_spec(sections_view(sections@)),
{
    let ghost sv = sections_view(sections@);
    let mut out: Vec<u8> = Vec::new();
    let mut i: usize = 0;
    assert(sv.subrange(0, 0) =~= Seq::<SectionModel>::empty());
    while i < sections.len()
        invariant
            i <= sections@.len(),
            sv == sections_view(sections@),
            out@ == bodies_spec(sv.subrange(0, i as int)),
        decreases sections@.len() - i,
    {
        assert(sv.subrange(0, i + 1).drop_last() =~= sv.subrange(0, i as int));
        assert(sv.subrange(0, i + 1).last() == sections@[i as int]@);
        append_bytes(&mut out, &sections[i].data);
        i += 1;
    }
    assert(sv.subrange(0, sections@.len() as int) =~= sv);
    out
}

/// The section header table of `sections`, names looked up in `shstrtab`.
fn write_section_headers(sections: &Vec<Section64>, shstrtab: &StringTable, e: Endianness) -> (r: Option<
    Vec<u8>,
>)
    requires
        shstrtab.wf(),
        64 + total_size(sections_view(sections@)) <= u64::MAX,
    ensures
        match r {
            Some(t) => section_headers_spec(sections_view(sections@), bytes_view(shstrtab.names@), e)
                == Some(t@),
            None => section_headers_spec(sections_view(sections@), bytes_view(shstrtab.names@), e) is None,
        },
{
    let ghost sv = sections_view(sections@);
    let ghost names = bytes_view(shstrtab.names@);
    let mut out: Vec<u8> = Vec::new();
    let mut offset: u64 = 64;
    let mut i: usize = 0;
    assert(sv.subrange(0, 0) =~= Seq::<SectionModel>::empty());
    while i < sections.len()
        invariant
            i <= sections@.len(),
            sv == sections_view(sections@),
            names == bytes_view(shstrtab.names@),
            shstrtab.wf(),
            offset as int == 64 + total_size(sv.subrange(0, i as int)),
            64 + total_size(sv) <= u64::MAX,
            section_headers_spec(sv.subrange(0, i as int), names, e) == Some(out@),
        decreases sections@.len() - i,
    {
        assert(sv.subrange(0, i + 1).drop_last() =~= sv.subrange(0, i as int));
        assert(sv.subrange(0, i + 1).last() == sections@[i as int]@);
        let sec = &sections[i];
        let name_off = match shstrtab.offset_of(&sec.name) {
            Some(o) => o,
            None => {
                proof {
                    lemma_section_headers_none(sv, names, e, i + 1);
                }
                return None;
            },
        };
        if name_off as u64 > 0xffff_ffffu64 {
            proof {
                lemma_section_headers_none(sv, names, e, i + 1);
            }
            return None;
        }
        let header = write_section_header(sec, name_off as u32, offset, e);
        append_bytes(&mut out, &header);
        proof {
            lemma_total_size_prefix(sv, i + 1);
        }
        offset = offset + sec.data.len() as u64;
        i += 1;
    }
    assert(sv.subrange(0, sections@.len() as int) =~= sv);
    Some(out)
}

impl ElfFile64 {
    /// Encodes this image as an ELF64 object file, or `None` when it would
    /// exceed the format's limits.
    #[verifier::rlimit(80)]
    pub fn write_out(&self) -> (r: Option<Vec<u8>>)
        ensures
            match r {
                Some(bytes) => encode_spec(self@) == Some(bytes@),
                None => encode_spec(self@) is None,
            },
    {
        proof {
            reveal(encode_spec);
        }
        let (sections, shstrtab) = match build_output_sections(self) {
            Some(x) => x,
            None => {
                return None;
            },
        };
        let e = self.header.identifier.endianness;
        let size = match get_section_data_size(&sections) {
            Some(n) => n,
            None => {
                return None;
            },
        };
        let table = match write_section_headers(&sections, &shstrtab, e) {
            Some(t) => t,
            None => {
                return None;
            },
        };
        let shnum = sections.len();
        proof {
            lemma_output_sections_len(self@);
        }
        let mut out = write_header(&self.header, 64 + size, shnum as u16);
        let bodies = write_section_data(&sections);
        append_bytes(&mut out, &bodies);
        append_bytes(&mut out, &table);
        Some(out)
    }
}

/// Each primary section with relocations gets one relocation table.
pub proof fn lemma_rela_counts(prims: Seq<SectionModel>, symtab_idx: int, e: Endianness)
    ensures
        rela_sections_spec(prims, symtab_idx, e).len() == rela_names_spec(prims).len(),
        rela_names_spec(prims).len() <= prims.len(),
    decreases prims.len(),
{
    if prims.len() > 0 {
        lemma_rela_counts(prims.drop_last(), symtab_idx, e);
    }
}

/// The output holds the primary sections, their relocation tables and
/// three more, at most 0xffff in all.
#[verifier::rlimit(40)]
pub proof fn lemma_output_sections_len(m: ElfModel)
    requires
        output_sections_spec(m) is Some,
    ensures
        output_sections_spec(m)->0.len() == m.sections.len() + rela_names_spec(m.sections).len() + 3,
        3 <= output_sections_spec(m)->0.len() <= 0xffff,
{
    reveal(output_sections_spec);
    let symtab_idx = (m.sections.len() + rela_names_spec(m.sections).len()) as int;
    lemma_rela_counts(m.sections, symtab_idx, m.header.identifier.endianness);
}

/// The section name string table is the last section of the output, and
/// the file header names it: the header's `shnum` counts the sections and
/// its `shstrndx` is `shnum - 1`.
#[verifier::rlimit(50)]
pub proof fn lemma_shstrtab_last(m: ElfModel)
    requires
        encode_spec(m) is Some,
    ensures
        ({
            let secs = output_sections_spec(m)->0;
            let bytes = encode_spec(m)->0;
            let e = m.header.identifier.endianness;
            &&& secs.last() == strtab_section_spec(
                shstrtab_name(),
                unique_names(section_strings_spec(m.sections)),
            )
            &&& u16_at(bytes, 60, e) == secs.len()
            &&& u16_at(bytes, 62, e) == secs.len() - 1
        }),
{
    reveal(encode_spec);
    reveal(output_sections_spec);
    let secs = output_sections_spec(m)->0;
    let e = m.header.identifier.endianness;
    let h = m.header;
    let shoff = 64 + total_size(secs);
    let n = secs.len() as int;
    lemma_output_sections_len(m);
    lemma_pow256_widths();
    lemma_header_layout(h, shoff, n);
    let hb = header_bytes(h, shoff, n);
    let table = section_headers_spec(secs, unique_names(section_strings_spec(m.sections)), e)->0;
    let bytes = hb + bodies_spec(secs) + table;
    assert(bytes.subrange(60, 62) =~= hb.subrange(60, 62));
    assert(bytes.subrange(62, 64) =~= hb.subrange(62, 64));
    lemma_uint_round_trip(n as nat, 2, e);
    lemma_uint_round_trip((n - 1) as nat, 2, e);
}

/// Where the fields of the output's file header stand.
pub proof fn lemma_header_layout(h: ElfFile64HeaderRaw, shoff: int, shnum: int)
    ensures
        header_bytes(h, shoff, shnum).len() == 64,
        header_bytes(h, shoff, shnum).subrange(60, 62) == bytes_of(shnum as nat, 2, h.identifier.endianness),
        header_bytes(h, shoff, shnum).subrange(62, 64) == bytes_of(
            (shnum - 1) as nat,
            2,
            h.identifier.endianness,
        ),
{
    let e = h.identifier.endianness;
    lemma_bytes_of_len(h.file_type as nat, 2, e);
    lemma_bytes_of_len(h.machine as nat, 2, e);
    lemma_bytes_of_len(h.version as nat, 4, e);
    lemma_bytes_of_len(h.entry as nat, 8, e);
    lemma_bytes_of_len(0, 8, e);
    lemma_bytes_of_len(shoff as nat, 8, e);
    lemma_bytes_of_len(h.flags as nat, 4, e);
    lemma_bytes_of_len(64, 2, e);
    lemma_bytes_of_len(h.phentsize as nat, 2, e);
    lemma_bytes_of_len(0, 2, e);
    lemma_bytes_of_len(shnum as nat, 2, e);
    lemma_bytes_of_len((shnum - 1) as nat, 2, e);
    let hb = header_bytes(h, shoff, shnum);
    assert(hb.subrange(60, 62) =~= bytes_of(shnum as nat, 2, e));
    assert(hb.subrange(62, 64) =~= bytes_of((shnum - 1) as nat, 2, e));
}

/// A section whose header gives offset and size zero decodes to empty
/// data, and a section with empty data is written with size zero.
pub proof fn lemma_empty_section(
    raw: RawImage,
    h: ElfFile64SectionHeaderRaw,
    s: SectionModel,
    name_off: int,
    offset: int,
    e: Endianness,
)
    requires
        h.offset == 0,
        h.size == 0,
        s.data.len() == 0,
    ensures
        section_data_spec(raw, h) == Some(Seq::<u8>::empty()),
        u64_at(section_header_bytes(s, name_off, offset, e), 32, e) == 0,
{
    lemma_bytes_of_len(name_off as nat, 4, e);
    lemma_bytes_of_len(section_type_code(s.section_type) as nat, 4, e);
    lemma_bytes_of_len(s.flags as nat, 8, e);
    lemma_bytes_of_len(s.addr as nat, 8, e);
    lemma_bytes_of_len(offset as nat, 8, e);
    lemma_bytes_of_len(0, 8, e);
    lemma_pow256_widths();
    lemma_uint_round_trip(0, 8, e);
    let b = section_header_bytes(s, name_off, offset, e);
    assert(b.subrange(32, 40) =~= bytes_of(0, 8, e));
}

proof fn lemma_rela_sections_props(prims: Seq<SectionModel>, st: int, e: Endianness)
    requires
        prims.len() <= 0xffff,
        0 <= st <= 0xffff,
    ensures
        forall|j: int|
            0 <= j < rela_sections_spec(prims, st, e).len() ==> {
                let r = #[trigger] rela_sections_spec(prims, st, e)[j];
                &&& r.section_type is Rela
                &&& r.link == st as u32
                &&& (r.info as int) < prims.len()
                &&& prims[r.info as int].relocations is Some
            },
    decreases prims.len(),
{
    if prims.len() > 0 {
        let d = prims.drop_last();
        lemma_rela_sections_props(d, st, e);
        let rd = rela_sections_spec(d, st, e);
        let r = rela_sections_spec(prims, st, e);
        assert forall|j: int| 0 <= j < r.len() implies {
            let x = #[trigger] r[j];
            &&& x.section_type is Rela
            &&& x.link == st as u32
            &&& (x.info as int) < prims.len()
            &&& prims[x.info as int].relocations is Some
        } by {
            if j < rd.len() {
                assert(r[j] == rd[j]);
                assert(prims[rd[j].info as int] == d[rd[j].info as int]);
            }
        }
    }
}

/// In the output, the sections after the primary ones and before
/// `.symtab` are relocation tables; each links to `.symtab` and applies to
/// a primary section that has relocations, which is no relocation table
/// itself; the three last sections are `.symtab`, `.strtab` and
/// `.shstrtab`.
pub proof fn lemma_rela_sections(m: ElfModel)
    requires
        output_sections_spec(m) is Some,
        forall|i: int| 0 <= i < m.sections.len() ==> is_primary(#[trigger] m.sections[i].section_type),
    ensures
        ({
            let secs = output_sections_spec(m)->0;
            let p = m.sections.len() as int;
            let st = p + rela_names_spec(m.sections).len();
            &&& secs.len() == st + 3
            &&& secs[st].section_type is Symtab
            &&& secs[st + 1].section_type is Strtab
            &&& secs[st + 2].section_type is Strtab
            &&& forall|i: int| 0 <= i < p ==> !(#[trigger] secs[i].section_type is Rela)
            &&& forall|i: int|
                p <= i < st ==> {
                    &&& (#[trigger] secs[i]).section_type is Rela
                    &&& secs[i].link == st as u32
                    &&& (secs[i].info as int) < p
                    &&& !(m.sections[secs[i].info as int].section_type is Rela)
                    &&& m.sections[secs[i].info as int].relocations is Some
                }
        }),
{
    reveal(output_sections_spec);
    lemma_output_sections_len(m);
    let p = m.sections.len() as int;
    let st = p + rela_names_spec(m.sections).len();
    let e = m.header.identifier.endianness;
    lemma_rela_counts(m.sections, st, e);
    lemma_rela_sections_props(m.sections, st, e);
    let secs = output_sections_spec(m)->0;
    let rs = rela_sections_spec(m.sections, st, e);
    assert forall|i: int| 0 <= i < p implies !(#[trigger] secs[i].section_type is Rela) by {
        assert(secs[i] == m.sections[i]);
        assert(is_primary(m.sections[i].section_type));
    }
    assert forall|i: int| p <= i < st implies {
        &&& (#[trigger] secs[i]).section_type is Rela
        &&& secs[i].link == st as u32
        &&& (secs[i].info as int) < p
        &&& !(m.sections[secs[i].info as int].section_type is Rela)
        &&& m.sections[secs[i].info as int].relocations is Some
    } by {
        assert(secs[i] == rs[i - p]);
        assert(is_primary(m.sections[rs[i - p].info as int].section_type));
    }
}

/// Where each record stands in the bytes of a relocation table.
proof fn lemma_rela_records_layout(rs: Seq<RelocationA64>, e: Endianness)
    ensures
        rela_records_bytes(rs, e).len() == 24 * rs.len(),
        forall|k: int|
            0 <= k < rs.len() ==> #[trigger] rela_records_bytes(rs, e).subrange(24 * k, 24 * k + 24)
                == rela_bytes(rs[k], e),
    decreases rs.len(),
{
    if rs.len() > 0 {
        let d = rs.drop_last();
        lemma_rela_records_layout(d, e);
        let b = rela_records_bytes(d, e);
        let x = rela_bytes(rs.last(), e);
        lemma_bytes_of_len(rs.last().offset as nat, 8, e);
        lemma_bytes_of_len(rs.last().info as nat, 8, e);
        lemma_bytes_of_len(rs.last().addend as nat, 8, e);
        assert(x.len() == 24);
        let all = rela_records_bytes(rs, e);
        assert(all == b + x);
        assert forall|k: int| 0 <= k < rs.len() implies #[trigger] all.subrange(24 * k, 24 * k + 24)
            == rela_bytes(rs[k], e) by {
            if k < d.len() {
                assert(all.subrange(24 * k, 24 * k + 24) =~= b.subrange(24 * k, 24 * k + 24));
                assert(d[k] == rs[k]);
            } else {
                assert(all.subrange(24 * k, 24 * k + 24) =~= x);
            }
        }
    }
}

/// `r` as the decoder gives it back: not copied from an incoming file.
pub open spec fn as_decoded(r: RelocationA64) -> RelocationA64 {
    RelocationA64 { offset: r.offset, info: r.info, addend: r.addend, merged: false }
}

/// Decoding the bytes of a non-empty relocation table gives back its
/// records, none of them marked as copied from an incoming file.
pub proof fn lemma_relas_round_trip(rs: Seq<RelocationA64>, e: Endianness)
    requires
        rs.len() > 0,
    ensures
        relas_spec(rela_records_bytes(rs, e), e) == Some(rs.map_values(|r: RelocationA64| as_decoded(r))),
{
    let b = rela_records_bytes(rs, e);
    lemma_rela_records_layout(rs, e);
    assert(b.len() / 24 == rs.len()) by (nonlinear_arith)
        requires
            b.len() == 24 * rs.len(),
    ;
    assert(b.len() % 24 == 0) by (nonlinear_arith)
        requires
            b.len() == 24 * rs.len(),
    ;
    let decoded = Seq::new(b.len() / 24, |i: int| rela_spec(b, 24 * i, e));
    assert forall|k: int| 0 <= k < rs.len() implies decoded[k] == as_decoded(rs[k]) by {
        let r = rs[k];
        let w = b.subrange(24 * k, 24 * k + 24);
        assert(w == rela_bytes(r, e));
        lemma_bytes_of_len(r.offset as nat, 8, e);
        lemma_bytes_of_len(r.info as nat, 8, e);
        lemma_bytes_of_len(r.addend as nat, 8, e);
        assert(b.subrange(24 * k, 24 * k + 8) =~= w.subrange(0, 8));
        assert(w.subrange(0, 8) =~= bytes_of(r.offset as nat, 8, e));
        assert(b.subrange(24 * k + 8, 24 * k + 16) =~= w.subrange(8, 16));
        assert(w.subrange(8, 16) =~= bytes_of(r.info as nat, 8, e));
        assert(b.subrange(24 * k + 16, 24 * k + 24) =~= w.subrange(16, 24));
        assert(w.subrange(16, 24) =~= bytes_of(r.addend as nat, 8, e));
        lemma_u64_field(b, 24 * k, r.offset, e);
        lemma_u64_field(b, 24 * k + 8, r.info, e);
        lemma_u64_field(b, 24 * k + 16, r.addend, e);
    }
    assert(decoded =~= rs.map_values(|r: RelocationA64| as_decoded(r)));
}

/// The file header as the decoder reads it back from the output: the
/// fields of `h` that the encoder keeps, and the layout it chose.
pub open spec fn relaid_header(h: ElfFile64HeaderRaw, shoff: int, shnum: int) -> ElfFile64HeaderRaw {
    ElfFile64HeaderRaw {
        identifier: crate::parse::ElfFileIdentifier {
            class: 2,
            endianness: h.identifier.endianness,
            version: h.identifier.version,
            os_abi: h.identifier.os_abi,
            abi_version: h.identifier.abi_version,
        },
        file_type: h.file_type,
        machine: h.machine,
        version: h.version,
        entry: h.entry,
        phoff: 0,
        shoff: shoff as u64,
        flags: h.flags,
        ehsize: 64,
        phentsize: h.phentsize,
        phnum: 0,
        shentsize: 64,
        shnum: shnum as u16,
        shstrndx: (shnum - 1) as u16,
    }
}

/// Decoding the output's file header gives back the fields the encoder
/// keeps and the layout it chose.
#[verifier::rlimit(60)]
pub proof fn lemma_header_round_trip(h: ElfFile64HeaderRaw, shoff: int, shnum: int, rest: Seq<u8>)
    requires
        0 <= shoff <= u64::MAX,
        1 <= shnum <= 0xffff,
    ensures
        crate::parse::header_spec(header_bytes(h, shoff, shnum) + rest) == Some(
            relaid_header(h, shoff, shnum),
        ),
{
    let e = h.identifier.endianness;
    let hb = header_bytes(h, shoff, shnum);
    let s = hb + rest;
    lemma_bytes_of_len(h.file_type as nat, 2, e);
    lemma_bytes_of_len(h.machine as nat, 2, e);
    lemma_bytes_of_len(h.version as nat, 4, e);
    lemma_bytes_of_len(h.entry as nat, 8, e);
    lemma_bytes_of_len(0, 8, e);
    lemma_bytes_of_len(shoff as nat, 8, e);
    lemma_bytes_of_len(h.flags as nat, 4, e);
    lemma_bytes_of_len(64, 2, e);
    lemma_bytes_of_len(h.phentsize as nat, 2, e);
    lemma_bytes_of_len(0, 2, e);
    lemma_bytes_of_len(shnum as nat, 2, e);
    lemma_bytes_of_len((shnum - 1) as nat, 2, e);
    assert(hb.len() == 64);
    assert(s[0] == 0x7f && s[1] == 0x45 && s[2] == 0x4c && s[3] == 0x46 && s[4] == 2);
    assert(s[5] == endianness_byte(e));
    assert(s[6] == h.identifier.version && s[7] == h.identifier.os_abi && s[8] == h.identifier.abi_version);
    assert(s.subrange(16, 18) =~= bytes_of(h.file_type as nat, 2, e));
    assert(s.subrange(18, 20) =~= bytes_of(h.machine as nat, 2, e));
    assert(s.subrange(20, 24) =~= bytes_of(h.version as nat, 4, e));
    assert(s.subrange(24, 32) =~= bytes_of(h.entry as nat, 8, e));
    assert(s.subrange(32, 40) =~= bytes_of(0, 8, e));
    assert(s.subrange(40, 48) =~= bytes_of(shoff as nat, 8, e));
    assert(s.subrange(48, 52) =~= bytes_of(h.flags as nat, 4, e));
    assert(s.subrange(52, 54) =~= bytes_of(64, 2, e));
    assert(s.subrange(54, 56) =~= bytes_of(h.phentsize as nat, 2, e));
    assert(s.subrange(56, 58) =~= bytes_of(0, 2, e));
    assert(s.subrange(58, 60) =~= bytes_of(64, 2, e));
    assert(s.subrange(60, 62) =~= bytes_of(shnum as nat, 2, e));
    assert(s.subrange(62, 64) =~= bytes_of((shnum - 1) as nat, 2, e));
    lemma_u16_field(s, 16, h.file_type, e);
    lemma_u16_field(s, 18, h.machine, e);
    lemma_u32_field(s, 20, h.version, e);
    lemma_u64_field(s, 24, h.entry, e);
    lemma_u64_field(s, 32, 0, e);
    lemma_u64_field(s, 40, shoff as u64, e);
    lemma_u32_field(s, 48, h.flags, e);
    lemma_u16_field(s, 52, 64, e);
    lemma_u16_field(s, 54, h.phentsize, e);
    lemma_u16_field(s, 56, 0, e);
    lemma_u16_field(s, 58, 64, e);
    lemma_u16_field(s, 60, shnum as u16, e);
    lemma_u16_field(s, 62, (shnum - 1) as u16, e);
}

/// What a successful encoding consists of.
pub proof fn lemma_encode_parts(m: ElfModel)
    requires
        encode_spec(m) is Some,
    ensures
        output_sections_spec(m) is Some,
        64 + total_size(output_sections_spec(m)->0) <= u64::MAX,
        section_headers_spec(
            output_sections_spec(m)->0,
            unique_names(section_strings_spec(m.sections)),
            m.header.identifier.endianness,
        ) is Some,
        encode_spec(m)->0 == header_bytes(
            m.header,
            64 + total_size(output_sections_spec(m)->0),
            output_sections_spec(m)->0.len() as int,
        ) + bodies_spec(output_sections_spec(m)->0) + section_headers_spec(
            output_sections_spec(m)->0,
            unique_names(section_strings_spec(m.sections)),
            m.header.identifier.endianness,
        )->0,
{
    reveal(encode_spec);
}

/// What the output's sections consist of.
pub proof fn lemma_output_parts(m: ElfModel)
    requires
        output_sections_spec(m) is Some,
    ensures
        ({
            let prims = m.sections;
            let e = m.header.identifier.endianness;
            let symtab_idx = (prims.len() + rela_names_spec(prims).len()) as int;
            let symnames = unique_names(symbol_names(m.symbols));
            &&& symtab_idx + 3 <= 0xffff
            &&& symtab_section_spec(m.symbols, symnames, symtab_idx + 1, e) is Some
            &&& output_sections_spec(m)->0 == prims + rela_sections_spec(prims, symtab_idx, e) + seq![
                symtab_section_spec(m.symbols, symnames, symtab_idx + 1, e)->0,
                strtab_section_spec(strtab_name(), symnames),
                strtab_section_spec(shstrtab_name(), unique_names(section_strings_spec(prims))),
            ]
        }),
{
    reveal(output_sections_spec);
}

proof fn lemma_symtab_data_none(syms: Seq<SymbolModel>, names: Seq<Seq<u8>>, e: Endianness, j: int)
    requires
        0 <= j <= syms.len(),
        symtab_data_spec(syms.subrange(0, j), names, e) is None,
    ensures
        symtab_data_spec(syms, names, e) is None,
    decreases syms.len() - j,
{
    if j < syms.len() {
        assert(syms.subrange(0, j + 1).drop_last() =~= syms.subrange(0, j));
        lemma_symtab_data_none(syms, names, e, j + 1);
    } else {
        assert(syms.subrange(0, j) =~= syms);
    }
}

} // verus!
