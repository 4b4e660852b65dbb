//! Decoding the encoder's output: its file header, the split of the file
//! into header, bodies and section header table, and each section read
//! back.

use vstd::prelude::*;

use crate::bytes::{bytes_of, lemma_bytes_of_len, lemma_u16_field, lemma_u32_field, lemma_u64_field, Endianness};
use crate::parse::{section_header_spec, ElfFile64SectionHeaderRaw};
use crate::section::{
    section_data_spec, section_names_spec, section_spec, section_type_code, section_type_spec,
    sections_spec, SectionModel, SectionType64,
};
use crate::strtab::{
    cstr_at, lemma_strtab_empty_name, lemma_strtab_lookup, nul_free, string_offset, strtab_bytes,
};
use crate::utils::{last_index_of, lemma_last_index_of_some};
use crate::elf::ElfModel;
use crate::parse::{raw_spec, symbol_raw_spec, symbols_raw_spec, RawImage, Symbol64Raw};
use crate::symbol::SymbolModel;
use crate::strtab::unique_names;
use crate::write::{
    bodies_spec, encode_spec, lemma_total_size_nonneg, entsize_spec, header_bytes, lemma_header_layout,
    lemma_encode_parts, lemma_header_round_trip, lemma_shstrtab_last, lemma_output_parts, lemma_output_sections_len, lemma_rela_counts, output_sections_spec,
    rela_names_spec, rela_prefix, rela_sections_spec, relaid_header, section_header_bytes,
    section_headers_spec, section_strings_spec, shstrtab_name, strtab_name, strtab_section_spec,
    symbol_bytes, symtab_data_spec, symtab_name, total_size,
};

verus! {

/// A name that the string table holding `names` resolves reads back at its
/// offset.
pub proof fn lemma_name_reads_back(names: Seq<Seq<u8>>, name: Seq<u8>)
    requires
        string_offset(names, name) is Some,
        nul_free(name),
    ensures
        cstr_at(strtab_bytes(names), string_offset(names, name)->0) == Some(name),
{
    if name.len() == 0 {
        lemma_strtab_empty_name(names);
        assert(name =~= Seq::<u8>::empty());
    } else {
        lemma_last_index_of_some(names, name);
        let k = last_index_of(names, name)->0;
        lemma_strtab_lookup(names, k);
    }
}

/// Each section type reads back from its header value.
pub proof fn lemma_section_type_round_trip(t: SectionType64)
    ensures
        section_type_spec(section_type_code(t)) == Some(t),
{
}

proof fn lemma_bodies_len(secs: Seq<SectionModel>)
    ensures
        bodies_spec(secs).len() == total_size(secs),
    decreases secs.len(),
{
    if secs.len() > 0 {
        lemma_bodies_len(secs.drop_last());
    }
}

/// Where the data of section `i` stands among the bodies.
pub proof fn lemma_body_at(secs: Seq<SectionModel>, i: int)
    requires
        0 <= i < secs.len(),
    ensures
        bodies_spec(secs).len() == total_size(secs),
        0 <= total_size(secs.subrange(0, i)),
        total_size(secs.subrange(0, i)) + secs[i].data.len() <= total_size(secs),
        bodies_spec(secs).subrange(
            total_size(secs.subrange(0, i)),
            total_size(secs.subrange(0, i)) + secs[i].data.len(),
        ) == secs[i].data,
    decreases secs.len(),
{
    let d = secs.drop_last();
    lemma_bodies_len(secs);
    lemma_bodies_len(d);
    lemma_total_size_nonneg(d);
    let b = bodies_spec(d);
    let all = bodies_spec(secs);
    if i < d.len() {
        lemma_body_at(d, i);
        assert(secs.subrange(0, i) =~= d.subrange(0, i));
        assert(d[i] == secs[i]);
        let a = total_size(d.subrange(0, i));
        assert(all.subrange(a, a + secs[i].data.len()) =~= b.subrange(a, a + d[i].data.len()));
    } else {
        assert(secs.subrange(0, i) =~= d);
        assert(all.subrange(total_size(d), total_size(d) + secs[i].data.len()) =~= secs[i].data);
    }
}

proof fn lemma_section_header_len(sec: SectionModel, o: int, off: int, e: Endianness)
    ensures
        section_header_bytes(sec, o, off, e).len() == 64,
{
    lemma_bytes_of_len(o as nat, 4, e);
    lemma_bytes_of_len(section_type_code(sec.section_type) as nat, 4, e);
    lemma_bytes_of_len(sec.flags as nat, 8, e);
    lemma_bytes_of_len(sec.addr as nat, 8, e);
    lemma_bytes_of_len(off as nat, 8, e);
    lemma_bytes_of_len(sec.data.len(), 8, e);
    lemma_bytes_of_len(sec.link as nat, 4, e);
    lemma_bytes_of_len(sec.info as nat, 4, e);
    lemma_bytes_of_len(sec.addralign as nat, 8, e);
    lemma_bytes_of_len(entsize_spec(sec.section_type) as nat, 8, e);
}

proof fn lemma_headers_len(secs: Seq<SectionModel>, names: Seq<Seq<u8>>, e: Endianness)
    requires
        section_headers_spec(secs, names, e) is Some,
    ensures
        section_headers_spec(secs, names, e)->0.len() == 64 * secs.len(),
    decreases secs.len(),
{
    if secs.len() > 0 {
        lemma_headers_len(secs.drop_last(), names, e);
        let o = string_offset(names, secs.last().name)->0;
        lemma_section_header_len(secs.last(), o, 64 + total_size(secs.drop_last()), e);
    }
}

/// Where the header of section `i` stands in the section header table.
#[verifier::rlimit(40)]
pub proof fn lemma_header_at(secs: Seq<SectionModel>, names: Seq<Seq<u8>>, e: Endianness, i: int)
    requires
        section_headers_spec(secs, names, e) is Some,
        0 <= i < secs.len(),
    ensures
        section_headers_spec(secs, names, e)->0.len() == 64 * secs.len(),
        string_offset(names, secs[i].name) is Some,
        0 <= string_offset(names, secs[i].name)->0 <= u32::MAX,
        section_headers_spec(secs, names, e)->0.subrange(64 * i, 64 * i + 64) == section_header_bytes(
            secs[i],
            string_offset(names, secs[i].name)->0,
            64 + total_size(secs.subrange(0, i)),
            e,
        ),
    decreases secs.len(),
{
    let d = secs.drop_last();
    lemma_headers_len(secs, names, e);
    lemma_headers_len(d, names, e);
    let t = section_headers_spec(secs, names, e)->0;
    let td = section_headers_spec(d, names, e)->0;
    let o = string_offset(names, secs.last().name)->0;
    if o < 0 {
        assert(false);
    }
    if i < d.len() {
        lemma_header_at(d, names, e, i);
        assert(secs.subrange(0, i) =~= d.subrange(0, i));
        assert(d[i] == secs[i]);
        assert(t.subrange(64 * i, 64 * i + 64) =~= td.subrange(64 * i, 64 * i + 64));
    } else {
        assert(secs.subrange(0, i) =~= d);
        lemma_section_header_len(secs.last(), o, 64 + total_size(d), e);
        assert(t.subrange(64 * i, 64 * i + 64) =~= section_header_bytes(secs[i], o, 64 + total_size(d), e));
    }
}

/// A section header written by the encoder reads back field by field.
#[verifier::rlimit(60)]
pub proof fn lemma_section_header_decode(
    s: Seq<u8>,
    pos: int,
    sec: SectionModel,
    o: int,
    off: int,
    e: Endianness,
)
    requires
        0 <= pos,
        pos + 64 <= s.len(),
        s.subrange(pos, pos + 64) == section_header_bytes(sec, o, off, e),
        0 <= o <= u32::MAX,
        0 <= off <= u64::MAX,
        sec.data.len() <= u64::MAX,
    ensures
        section_header_spec(s, pos, e) == (ElfFile64SectionHeaderRaw {
            name: o as u32,
            section_type: section_type_code(sec.section_type),
            flags: sec.flags,
            addr: sec.addr,
            offset: off as u64,
            size: sec.data.len() as u64,
            link: sec.link,
            info: sec.info,
            addralign: sec.addralign,
            entsize: entsize_spec(sec.section_type),
        }),
{
    let w = section_header_bytes(sec, o, off, e);
    lemma_bytes_of_len(o as nat, 4, e);
    lemma_bytes_of_len(section_type_code(sec.section_type) as nat, 4, e);
    lemma_bytes_of_len(sec.flags as nat, 8, e);
    lemma_bytes_of_len(sec.addr as nat, 8, e);
    lemma_bytes_of_len(off as nat, 8, e);
    lemma_bytes_of_len(sec.data.len(), 8, e);
    lemma_bytes_of_len(sec.link as nat, 4, e);
    lemma_bytes_of_len(sec.info as nat, 4, e);
    lemma_bytes_of_len(sec.addralign as nat, 8, e);
    lemma_bytes_of_len(entsize_spec(sec.section_type) as nat, 8, e);
    assert(s.subrange(pos, pos + 4) =~= w.subrange(0, 4));
    assert(w.subrange(0, 4) =~= bytes_of(o as nat, 4, e));
    assert(s.subrange(pos + 4, pos + 8) =~= w.subrange(4, 8));
    assert(w.subrange(4, 8) =~= bytes_of(section_type_code(sec.section_type) as nat, 4, e));
    assert(s.subrange(pos + 8, pos + 16) =~= w.subrange(8, 16));
    assert(w.subrange(8, 16) =~= bytes_of(sec.flags as nat, 8, e));
    assert(s.subrange(pos + 16, pos + 24) =~= w.subrange(16, 24));
    assert(w.subrange(16, 24) =~= bytes_of(sec.addr as nat, 8, e));
    assert(s.subrange(pos + 24, pos + 32) =~= w.subrange(24, 32));
    assert(w.subrange(24, 32) =~= bytes_of(off as nat, 8, e));
    assert(s.subrange(pos + 32, pos + 40) =~= w.subrange(32, 40));
    assert(w.subrange(32, 40) =~= bytes_of(sec.data.len(), 8, e));
    assert(s.subrange(pos + 40, pos + 44) =~= w.subrange(40, 44));
    assert(w.subrange(40, 44) =~= bytes_of(sec.link as nat, 4, e));
    assert(s.subrange(pos + 44, pos + 48) =~= w.subrange(44, 48));
    assert(w.subrange(44, 48) =~= bytes_of(sec.info as nat, 4, e));
    assert(s.subrange(pos + 48, pos + 56) =~= w.subrange(48, 56));
    assert(w.subrange(48, 56) =~= bytes_of(sec.addralign as nat, 8, e));
    assert(s.subrange(pos + 56, pos + 64) =~= w.subrange(56, 64));
    assert(w.subrange(56, 64) =~= bytes_of(entsize_spec(sec.section_type) as nat, 8, e));
    lemma_u32_field(s, pos, o as u32, e);
    lemma_u32_field(s, pos + 4, section_type_code(sec.section_type), e);
    lemma_u64_field(s, pos + 8, sec.flags, e);
    lemma_u64_field(s, pos + 16, sec.addr, e);
    lemma_u64_field(s, pos + 24, off as u64, e);
    lemma_u64_field(s, pos + 32, sec.data.len() as u64, e);
    lemma_u32_field(s, pos + 40, sec.link, e);
    lemma_u32_field(s, pos + 44, sec.info, e);
    lemma_u64_field(s, pos + 48, sec.addralign, e);
    lemma_u64_field(s, pos + 56, entsize_spec(sec.section_type), e);
}

/// The header table entry that the encoder writes for section `i` of
/// `secs`, names looked up in the table holding `names`.
pub open spec fn header_record(secs: Seq<SectionModel>, names: Seq<Seq<u8>>, i: int) -> ElfFile64SectionHeaderRaw {
    ElfFile64SectionHeaderRaw {
        name: string_offset(names, secs[i].name)->0 as u32,
        section_type: section_type_code(secs[i].section_type),
        flags: secs[i].flags,
        addr: secs[i].addr,
        offset: (64 + total_size(secs.subrange(0, i))) as u64,
        size: secs[i].data.len() as u64,
        link: secs[i].link,
        info: secs[i].info,
        addralign: secs[i].addralign,
        entsize: entsize_spec(secs[i].section_type),
    }
}

/// The header table entries that the encoder writes for `secs`.
pub open spec fn header_records(secs: Seq<SectionModel>, names: Seq<Seq<u8>>) -> Seq<ElfFile64SectionHeaderRaw> {
    Seq::new(secs.len(), |i: int| header_record(secs, names, i))
}

/// The encoder's output splits into the header it wrote, the bodies, and
/// the header table it wrote.
#[verifier::rlimit(60)]
pub proof fn lemma_raw_of_output(m: ElfModel)
    requires
        encode_spec(m) is Some,
    ensures
        ({
            let secs = output_sections_spec(m)->0;
            let names = unique_names(section_strings_spec(m.sections));
            raw_spec(encode_spec(m)->0) == Some(
                RawImage {
                    header: relaid_header(m.header, 64 + total_size(secs), secs.len() as int),
                    section_data: bodies_spec(secs),
                    section_headers: header_records(secs, names),
                },
            )
        }),
{
    lemma_encode_parts(m);
    let secs = output_sections_spec(m)->0;
    let names = unique_names(section_strings_spec(m.sections));
    let e = m.header.identifier.endianness;
    let n = secs.len() as int;
    let total = total_size(secs);
    let shoff = 64 + total;
    lemma_output_sections_len(m);
    lemma_total_size_nonneg(secs);
    lemma_bodies_len(secs);
    let hb = header_bytes(m.header, shoff, n);
    let bodies = bodies_spec(secs);
    let table = section_headers_spec(secs, names, e)->0;
    lemma_headers_len(secs, names, e);
    let bytes = encode_spec(m)->0;
    assert(bytes == hb + bodies + table);
    assert(hb + bodies + table =~= hb + (bodies + table));
    lemma_header_round_trip(m.header, shoff, n, bodies + table);
    lemma_header_layout(m.header, shoff, n);
    assert(bytes.subrange(64, 64 + total) =~= bodies);
    let decoded = Seq::new(n as nat, |i: int| section_header_spec(bytes, 64 + total + 64 * i, e));
    assert forall|i: int| 0 <= i < n implies decoded[i] == header_record(secs, names, i) by {
        lemma_header_at(secs, names, e, i);
        lemma_body_at(secs, i);
        let pos = 64 + total + 64 * i;
        assert(bytes.subrange(pos, pos + 64) =~= table.subrange(64 * i, 64 * i + 64));
        lemma_section_header_decode(
            bytes,
            pos,
            secs[i],
            string_offset(names, secs[i].name)->0,
            64 + total_size(secs.subrange(0, i)),
            e,
        );
    }
    assert(decoded =~= header_records(secs, names));
}

/// `s` without its relocation list, as the decoder first reads it.
pub open spec fn strip(s: SectionModel) -> SectionModel {
    SectionModel {
        name: s.name,
        section_type: s.section_type,
        flags: s.flags,
        addr: s.addr,
        link: s.link,
        info: s.info,
        addralign: s.addralign,
        data: s.data,
        relocations: None,
    }
}

pub open spec fn strip_all(secs: Seq<SectionModel>) -> Seq<SectionModel> {
    secs.map_values(|s: SectionModel| strip(s))
}

proof fn lemma_rela_names_nul_free(prims: Seq<SectionModel>, st: int, e: Endianness)
    requires
        forall|i: int| 0 <= i < prims.len() ==> nul_free(#[trigger] prims[i].name),
    ensures
        forall|j: int|
            0 <= j < rela_sections_spec(prims, st, e).len() ==> nul_free(
                #[trigger] rela_sections_spec(prims, st, e)[j].name,
            ),
    decreases prims.len(),
{
    if prims.len() > 0 {
        let d = prims.drop_last();
        assert forall|i: int| 0 <= i < d.len() implies nul_free(#[trigger] d[i].name) by {
            assert(d[i] == prims[i]);
        }
        lemma_rela_names_nul_free(d, st, e);
        let r = rela_sections_spec(prims, st, e);
        let rd = rela_sections_spec(d, st, e);
        assert forall|j: int| 0 <= j < r.len() implies nul_free(#[trigger] r[j].name) by {
            if j < rd.len() {
                assert(r[j] == rd[j]);
            } else {
                let name = rela_prefix() + prims.last().name;
                assert(nul_free(prims.last().name));
                assert(r[j].name == name);
                assert forall|k: int| 0 <= k < name.len() implies name[k] != 0 by {
                    if k >= 5 {
                        assert(name[k] == prims.last().name[k - 5]);
                    }
                }
            }
        }
    }
}

/// No name of the output's sections holds a NUL byte when no primary
/// section's name does.
pub proof fn lemma_output_names_nul_free(m: ElfModel)
    requires
        output_sections_spec(m) is Some,
        forall|i: int| 0 <= i < m.sections.len() ==> nul_free(#[trigger] m.sections[i].name),
    ensures
        forall|i: int|
            0 <= i < output_sections_spec(m)->0.len() ==> nul_free(
                #[trigger] output_sections_spec(m)->0[i].name,
            ),
{
    lemma_output_parts(m);
    let secs = output_sections_spec(m)->0;
    let p = m.sections.len() as int;
    let st = p + rela_names_spec(m.sections).len();
    let e = m.header.identifier.endianness;
    lemma_output_sections_len(m);
    lemma_rela_counts(m.sections, st, e);
    lemma_rela_names_nul_free(m.sections, st, e);
    let rs = rela_sections_spec(m.sections, st, e);
    assert forall|i: int| 0 <= i < secs.len() implies nul_free(#[trigger] secs[i].name) by {
        if i < p {
            assert(secs[i] == m.sections[i]);
        } else if i < st {
            assert(secs[i] == rs[i - p]);
        } else if i == st {
            assert(secs[i].name == symtab_name());
        } else if i == st + 1 {
            assert(secs[i].name == strtab_name());
        } else {
            assert(secs[i].name == shstrtab_name());
        }
    }
}

proof fn lemma_section_at(
    raw: RawImage,
    secs: Seq<SectionModel>,
    names: Seq<Seq<u8>>,
    e: Endianness,
    i: int,
)
    requires
        raw.header.ehsize == 64,
        raw.section_data == bodies_spec(secs),
        raw.section_headers == header_records(secs, names),
        section_headers_spec(secs, names, e) is Some,
        64 + total_size(secs) <= u64::MAX,
        0 <= i < secs.len(),
        nul_free(secs[i].name),
    ensures
        section_data_spec(raw, raw.section_headers[i]) == Some(secs[i].data),
        section_spec(raw, strtab_bytes(names), i) == Some(strip(secs[i])),
{
    lemma_body_at(secs, i);
    lemma_header_at(secs, names, e, i);
    lemma_name_reads_back(names, secs[i].name);
    lemma_section_type_round_trip(secs[i].section_type);
    assert(raw.section_headers[i] == header_record(secs, names, i));
}

proof fn lemma_sections_from_parts(raw: RawImage, secs: Seq<SectionModel>, names: Seq<Seq<u8>>, e: Endianness)
    requires
        raw.header.ehsize == 64,
        raw.header.shstrndx as int == secs.len() - 1,
        raw.section_data == bodies_spec(secs),
        raw.section_headers == header_records(secs, names),
        section_headers_spec(secs, names, e) is Some,
        64 + total_size(secs) <= u64::MAX,
        secs.len() >= 1,
        secs[secs.len() - 1] == strtab_section_spec(shstrtab_name(), names),
        forall|i: int| 0 <= i < secs.len() ==> nul_free(#[trigger] secs[i].name),
    ensures
        sections_spec(raw) == Some(strip_all(secs)),
{
    let n = secs.len() as int;
    lemma_section_at(raw, secs, names, e, n - 1);
    assert(raw.section_headers[n - 1] == header_record(secs, names, n - 1));
    assert(section_names_spec(raw) == Some(strtab_bytes(names)));
    assert forall|i: int| 0 <= i < n implies #[trigger] section_spec(raw, strtab_bytes(names), i) == Some(
        strip(secs[i]),
    ) by {
        lemma_section_at(raw, secs, names, e, i);
    }
    assert(Seq::new(n as nat, |i: int| section_spec(raw, strtab_bytes(names), i)->0) =~= strip_all(secs));
}

/// The decoder reads the output's sections back, each without its
/// relocation list.
#[verifier::rlimit(60)]
pub proof fn lemma_sections_of_output(m: ElfModel)
    requires
        encode_spec(m) is Some,
        forall|i: int| 0 <= i < m.sections.len() ==> nul_free(#[trigger] m.sections[i].name),
    ensures
        sections_spec(raw_spec(encode_spec(m)->0)->0) == Some(strip_all(output_sections_spec(m)->0)),
{
    lemma_encode_parts(m);
    lemma_shstrtab_last(m);
    let secs = output_sections_spec(m)->0;
    let names = unique_names(section_strings_spec(m.sections));
    let e = m.header.identifier.endianness;
    lemma_raw_of_output(m);
    lemma_output_sections_len(m);
    lemma_output_names_nul_free(m);
    let raw = raw_spec(encode_spec(m)->0)->0;
    let n = secs.len() as int;
    assert(raw.header.ehsize == 64);
    assert(raw.header.shstrndx as int == n - 1);
    assert(secs[n - 1] == strtab_section_spec(shstrtab_name(), names));
    lemma_sections_from_parts(raw, secs, names, e);
}

proof fn lemma_symtab_len(syms: Seq<SymbolModel>, names: Seq<Seq<u8>>, e: Endianness)
    requires
        symtab_data_spec(syms, names, e) is Some,
    ensures
        symtab_data_spec(syms, names, e)->0.len() == 24 * syms.len(),
    decreases syms.len(),
{
    if syms.len() > 0 {
        lemma_symtab_len(syms.drop_last(), names, e);
        let o = string_offset(names, syms.last().name)->0;
        lemma_symbol_bytes_len(syms.last(), o, e);
    }
}

proof fn lemma_symbol_bytes_len(sym: SymbolModel, o: int, e: Endianness)
    ensures
        symbol_bytes(sym, o, e).len() == 24,
{
    lemma_bytes_of_len(o as nat, 4, e);
    lemma_bytes_of_len(sym.shndx as nat, 2, e);
    lemma_bytes_of_len(sym.value as nat, 8, e);
    lemma_bytes_of_len(sym.size as nat, 8, e);
}

/// Where the record of symbol `k` stands in the symbol table's data.
#[verifier::rlimit(40)]
proof fn lemma_symbol_at(syms: Seq<SymbolModel>, names: Seq<Seq<u8>>, e: Endianness, k: int)
    requires
        symtab_data_spec(syms, names, e) is Some,
        0 <= k < syms.len(),
    ensures
        string_offset(names, syms[k].name) is Some,
        0 <= string_offset(names, syms[k].name)->0 <= u32::MAX,
        symtab_data_spec(syms, names, e)->0.subrange(24 * k, 24 * k + 24) == symbol_bytes(
            syms[k],
            string_offset(names, syms[k].name)->0,
            e,
        ),
    decreases syms.len(),
{
    let d = syms.drop_last();
    lemma_symtab_len(syms, names, e);
    lemma_symtab_len(d, names, e);
    let t = symtab_data_spec(syms, names, e)->0;
    let td = symtab_data_spec(d, names, e)->0;
    let o = string_offset(names, syms.last().name)->0;
    if o < 0 {
        assert(false);
    }
    if k < d.len() {
        lemma_symbol_at(d, names, e, k);
        assert(d[k] == syms[k]);
        assert(t.subrange(24 * k, 24 * k + 24) =~= td.subrange(24 * k, 24 * k + 24));
    } else {
        lemma_symbol_bytes_len(syms.last(), o, e);
        assert(t.subrange(24 * k, 24 * k + 24) =~= symbol_bytes(syms[k], o, e));
    }
}

/// A symbol record written by the encoder reads back field by field.
proof fn lemma_symbol_record_decode(s: Seq<u8>, pos: int, sym: SymbolModel, o: int, e: Endianness)
    requires
        0 <= pos,
        pos + 24 <= s.len(),
        s.subrange(pos, pos + 24) == symbol_bytes(sym, o, e),
        0 <= o <= u32::MAX,
    ensures
        symbol_raw_spec(s, pos, e) == (Symbol64Raw {
            name: o as u32,
            info: sym.info,
            other: sym.other,
            shndx: sym.shndx,
            value: sym.value,
            size: sym.size,
        }),
{
    let w = symbol_bytes(sym, o, e);
    lemma_bytes_of_len(o as nat, 4, e);
    lemma_bytes_of_len(sym.shndx as nat, 2, e);
    lemma_bytes_of_len(sym.value as nat, 8, e);
    lemma_bytes_of_len(sym.size as nat, 8, e);
    assert(s.subrange(pos, pos + 4) =~= w.subrange(0, 4));
    assert(w.subrange(0, 4) =~= bytes_of(o as nat, 4, e));
    assert(s[pos + 4] == w[4] && s[pos + 5] == w[5]);
    assert(s.subrange(pos + 6, pos + 8) =~= w.subrange(6, 8));
    assert(w.subrange(6, 8) =~= bytes_of(sym.shndx as nat, 2, e));
    assert(s.subrange(pos + 8, pos + 16) =~= w.subrange(8, 16));
    assert(w.subrange(8, 16) =~= bytes_of(sym.value as nat, 8, e));
    assert(s.subrange(pos + 16, pos + 24) =~= w.subrange(16, 24));
    assert(w.subrange(16, 24) =~= bytes_of(sym.size as nat, 8, e));
    lemma_u32_field(s, pos, o as u32, e);
    lemma_u16_field(s, pos + 6, sym.shndx, e);
    lemma_u64_field(s, pos + 8, sym.value, e);
    lemma_u64_field(s, pos + 16, sym.size, e);
}

/// Decoding the symbol table's data gives back one record per symbol,
/// with its fields, and a name offset that reads back as its name in the
/// string table holding `names`.
pub proof fn lemma_symtab_round_trip(syms: Seq<SymbolModel>, names: Seq<Seq<u8>>, e: Endianness)
    requires
        symtab_data_spec(syms, names, e) is Some,
        syms.len() > 0,
        forall|k: int| 0 <= k < syms.len() ==> nul_free(#[trigger] syms[k].name),
    ensures
        ({
            let data = symtab_data_spec(syms, names, e)->0;
            &&& symbols_raw_spec(data, e) is Some
            &&& symbols_raw_spec(data, e)->0.len() == syms.len()
            &&& forall|k: int|
                0 <= k < syms.len() ==> {
                    let r = #[trigger] symbols_raw_spec(data, e)->0[k];
                    &&& cstr_at(strtab_bytes(names), r.name as int) == Some(syms[k].name)
                    &&& r.info == syms[k].info
                    &&& r.other == syms[k].other
                    &&& r.shndx == syms[k].shndx
                    &&& r.value == syms[k].value
                    &&& r.size == syms[k].size
                }
        }),
{
    let data = symtab_data_spec(syms, names, e)->0;
    lemma_symtab_len(syms, names, e);
    assert(data.len() / 24 == syms.len()) by (nonlinear_arith)
        requires
            data.len() == 24 * syms.len(),
    ;
    assert(data.len() % 24 == 0) by (nonlinear_arith)
        requires
            data.len() == 24 * syms.len(),
    ;
    assert forall|k: int| 0 <= k < syms.len() implies {
        let r = #[trigger] symbols_raw_spec(data, e)->0[k];
        &&& cstr_at(strtab_bytes(names), r.name as int) == Some(syms[k].name)
        &&& r.info == syms[k].info
        &&& r.other == syms[k].other
        &&& r.shndx == syms[k].shndx
        &&& r.value == syms[k].value
        &&& r.size == syms[k].size
    } by {
        lemma_symbol_at(syms, names, e, k);
        let o = string_offset(names, syms[k].name)->0;
        lemma_symbol_record_decode(data, 24 * k, syms[k], o, e);
        lemma_name_reads_back(names, syms[k].name);
    }
}

} // verus!
