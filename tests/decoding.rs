use ld_rs::bytes::{push_uint, read_u16, read_u32, read_u64, Endianness};
use ld_rs::elf::{ElfFile64, ElfFileError};
use ld_rs::parse::{
    ElfFile64HeaderRaw, ElfFile64Raw, ElfFile64RawParseError, ElfFile64SectionHeaderRaw,
    ElfFileIdentifier, Symbol64Raw,
};
use ld_rs::relocation::RelocationA64;
use ld_rs::section::{organize_sections, Section64, SectionType64};
use ld_rs::strtab::{build_string_table, read_cstr};
use ld_rs::symbol::{get_new_shndx, Symbol64};
use ld_rs::symbol_iter::SymbolIterator;
use ld_rs::utils::next_aligned_value;
use ld_rs::write::serialize_endianness;

fn header() -> ElfFile64HeaderRaw {
    ElfFile64HeaderRaw {
        identifier: ElfFileIdentifier {
            class: 2,
            endianness: Endianness::Little,
            version: 1,
            os_abi: 0,
            abi_version: 0,
        },
        file_type: 1,
        machine: 62,
        version: 1,
        entry: 0,
        phoff: 0,
        shoff: 0,
        flags: 0,
        ehsize: 64,
        phentsize: 0,
        phnum: 0,
        shentsize: 64,
        shnum: 0,
        shstrndx: 0,
    }
}

fn section(name: &str, section_type: SectionType64, data: Vec<u8>) -> Section64 {
    Section64 {
        name: name.as_bytes().to_vec(),
        section_type,
        flags: 0,
        addr: 0,
        link: 0,
        info: 0,
        addralign: 1,
        data,
        relocations: None,
    }
}

fn symbol(name: &str, info: u8, shndx: u16) -> Symbol64 {
    Symbol64 {
        name: name.as_bytes().to_vec(),
        info,
        other: 0,
        shndx,
        value: 0,
        size: 0,
    }
}

fn small_object() -> Vec<u8> {
    let file = ElfFile64 {
        header: header(),
        unorganized_sections: vec![
            section("", SectionType64::Null, Vec::new()),
            section(".text", SectionType64::Progbits, vec![0xc3]),
            section(".bss", SectionType64::Progbits, Vec::new()),
        ],
        symbols: vec![symbol("", 0, 0), symbol("main", 0x12, 1)],
    };
    file.write_out().unwrap()
}

#[test]
fn reads_integers_in_both_orders() {
    let b = [0x01, 0x02, 0x03, 0x04, 0x05, 0x06, 0x07, 0x08];
    assert_eq!(read_u16(&b, 0, Endianness::Little), 0x0201);
    assert_eq!(read_u16(&b, 0, Endianness::Big), 0x0102);
    assert_eq!(read_u32(&b, 4, Endianness::Little), 0x0807_0605);
    assert_eq!(read_u32(&b, 4, Endianness::Big), 0x0506_0708);
    assert_eq!(read_u64(&b, 0, Endianness::Little), 0x0807_0605_0403_0201);
    assert_eq!(read_u64(&b, 0, Endianness::Big), 0x0102_0304_0506_0708);
}

#[test]
fn writes_integers_in_both_orders() {
    let mut out = vec![9];
    push_uint(&mut out, 0x0102_0304, 4, Endianness::Little);
    push_uint(&mut out, 0x0a0b, 2, Endianness::Big);
    assert_eq!(out, vec![9, 4, 3, 2, 1, 0x0a, 0x0b]);
}

#[test]
fn serializes_endianness() {
    assert_eq!(serialize_endianness(Endianness::Little), 1);
    assert_eq!(serialize_endianness(Endianness::Big), 2);
}

#[test]
fn rejects_bad_magic() {
    let mut bytes = small_object();
    bytes[1] = b'X';
    assert_eq!(ElfFile64::parse(&bytes).err(), Some(ElfFileError::ParseError));
}

#[test]
fn rejects_32_bit_class() {
    let mut bytes = small_object();
    bytes[4] = 1;
    assert_eq!(ElfFile64::parse(&bytes).err(), Some(ElfFileError::ParseError));
}

#[test]
fn rejects_unknown_byte_order() {
    let mut bytes = small_object();
    bytes[5] = 3;
    assert!(ElfFileIdentifier::parse(&bytes).is_err());
    assert_eq!(ElfFile64::parse(&bytes).err(), Some(ElfFileError::ParseError));
}

#[test]
fn rejects_trailing_bytes() {
    let mut bytes = small_object();
    bytes.push(0);
    assert!(ElfFile64Raw::parse(&bytes).is_err());
    assert_eq!(ElfFile64::parse(&bytes).err(), Some(ElfFileError::ParseError));
}

#[test]
fn rejects_short_input() {
    let bytes = small_object();
    assert_eq!(ElfFile64::parse(&bytes[..40]).err(), Some(ElfFileError::ParseError));
    assert_eq!(
        ElfFile64HeaderRaw::parse(&bytes[..63]).err(),
        Some(ElfFile64RawParseError)
    );
}

#[test]
fn rejects_unknown_section_type() {
    let mut bytes = small_object();
    let raw = ElfFile64Raw::parse(&bytes).unwrap();
    let table = 64 + (raw.header.shoff as usize - 64);
    // the type field of the second section header
    bytes[table + 64 + 4] = 9;
    assert_eq!(ElfFile64::parse(&bytes).err(), Some(ElfFileError::ParseError));
}

#[test]
fn decodes_header_fields() {
    let bytes = small_object();
    let h = ElfFile64HeaderRaw::parse(&bytes).unwrap();
    assert_eq!(h.identifier.class, 2);
    assert_eq!(h.file_type, 1);
    assert_eq!(h.machine, 62);
    assert_eq!(h.ehsize, 64);
    assert_eq!(h.shentsize, 64);
    assert_eq!(h.shnum, 6);
    assert_eq!(h.shstrndx, 5);
    let raw = ElfFile64Raw::parse(&bytes).unwrap();
    assert_eq!(raw.section_headers.len(), 6);
    assert_eq!(raw.header.shoff, 64 + raw.section_data.len() as u64);
}

#[test]
fn zero_length_section_survives() {
    let bytes = small_object();
    let decoded = ElfFile64::parse(&bytes).unwrap();
    assert_eq!(decoded.unorganized_sections.len(), 3);
    assert_eq!(decoded.unorganized_sections[0].data.len(), 0);
    assert_eq!(decoded.unorganized_sections[2].name, b".bss".to_vec());
    assert_eq!(decoded.unorganized_sections[2].data.len(), 0);
    let raw = ElfFile64Raw::parse(&bytes).unwrap();
    assert_eq!(raw.section_headers[2].size, 0);
    let again = decoded.write_out().unwrap();
    assert_eq!(again, bytes);
}

#[test]
fn shstrtab_is_last() {
    let bytes = small_object();
    let h = ElfFile64HeaderRaw::parse(&bytes).unwrap();
    assert_eq!(h.shstrndx, h.shnum - 1);
    let raw = ElfFile64Raw::parse(&bytes).unwrap();
    let last = &raw.section_headers[raw.section_headers.len() - 1];
    assert_eq!(last.section_type, 3);
    let names_at = (last.offset - 64) as usize;
    let names = &raw.section_data[names_at..names_at + last.size as usize];
    assert_eq!(read_cstr(names, last.name as usize), Some(b".shstrtab".to_vec()));
}

#[test]
fn symtab_counts_locals_and_links_strtab() {
    let bytes = small_object();
    let raw = ElfFile64Raw::parse(&bytes).unwrap();
    let (i, symtab) = raw
        .section_headers
        .iter()
        .enumerate()
        .find(|(_, h)| h.section_type == 2)
        .unwrap();
    assert_eq!(symtab.info, 1);
    assert_eq!(symtab.entsize, 24);
    assert_eq!(symtab.addralign, 8);
    assert_eq!(symtab.link as usize, i + 1);
    assert_eq!(raw.section_headers[i + 1].section_type, 3);
}

#[test]
fn string_table_layout() {
    let names = vec![
        b"foo".to_vec(),
        Vec::new(),
        b"bar".to_vec(),
        b"foo".to_vec(),
    ];
    let t = build_string_table(&names);
    assert_eq!(t.data, b"\0foo\0bar\0".to_vec());
    assert_eq!(t.offset_of(&b"foo".to_vec()), Some(1));
    assert_eq!(t.offset_of(&b"bar".to_vec()), Some(5));
    assert_eq!(t.offset_of(&Vec::new()), Some(0));
    assert_eq!(t.offset_of(&b"baz".to_vec()), None);
    let again = build_string_table(&names);
    assert_eq!(again.data, t.data);
}

#[test]
fn empty_string_table_is_one_nul() {
    let t = build_string_table(&Vec::new());
    assert_eq!(t.data, vec![0]);
}

#[test]
fn reads_c_strings() {
    let t = b"\0abc\0de";
    assert_eq!(read_cstr(t, 1), Some(b"abc".to_vec()));
    assert_eq!(read_cstr(t, 0), Some(Vec::new()));
    assert_eq!(read_cstr(t, 5), None);
    assert_eq!(read_cstr(t, 9), None);
}

#[test]
fn aligns_values() {
    assert_eq!(next_aligned_value(3, 8), 8);
    assert_eq!(next_aligned_value(8, 8), 8);
    assert_eq!(next_aligned_value(0, 8), 0);
    assert_eq!(next_aligned_value(5, 1), 5);
    assert_eq!(next_aligned_value(5, 0), 5);
    assert_eq!(next_aligned_value(17, 16), 32);
}

#[test]
fn relocation_info_fields() {
    let mut r = RelocationA64 {
        offset: 0,
        info: (7u64 << 32) | 0x0a,
        addend: 0,
        merged: true,
    };
    assert_eq!(r.get_sym(), 7);
    assert_eq!(r.get_type(), 10);
    r.set_info(2, 4);
    assert_eq!(r.info, (2u64 << 32) | 4);
    assert!(r.merged);
    assert_eq!(r.as_raw(Endianness::Little).len(), 24);
    assert_eq!(&r.as_raw(Endianness::Big)[8..16], &[0, 0, 0, 2, 0, 0, 0, 4]);
}

#[test]
fn parses_relocation_records() {
    let r = RelocationA64 {
        offset: 0x10,
        info: (1u64 << 32) | 2,
        addend: 3,
        merged: false,
    };
    let mut bytes = r.as_raw(Endianness::Little);
    bytes.extend(r.as_raw(Endianness::Little));
    let back = RelocationA64::parse_many(&bytes, Endianness::Little).unwrap();
    assert_eq!(back, vec![r, r]);
    assert!(RelocationA64::parse_many(&bytes[..30], Endianness::Little).is_err());
    assert!(RelocationA64::parse_many(&[], Endianness::Little).is_err());
}

#[test]
fn parses_symbol_records() {
    let mut bytes = vec![5, 0, 0, 0, 0x12, 0, 1, 0];
    bytes.extend(vec![0x10, 0, 0, 0, 0, 0, 0, 0]);
    bytes.extend(vec![4, 0, 0, 0, 0, 0, 0, 0]);
    let syms = Symbol64Raw::parse_many(&bytes, Endianness::Little).unwrap();
    assert_eq!(syms.len(), 1);
    assert_eq!(syms[0].name, 5);
    assert_eq!(syms[0].info, 0x12);
    assert_eq!(syms[0].shndx, 1);
    assert_eq!(syms[0].value, 0x10);
    assert_eq!(syms[0].size, 4);
    let mut it = SymbolIterator { data: &bytes };
    let first = it.next().unwrap();
    assert_eq!(first.value, 0x10);
    assert!(it.next().is_none());
}

#[test]
fn parses_section_header() {
    let mut bytes = vec![0u8; 64];
    bytes[4] = 1;
    bytes[48] = 16;
    let h = ElfFile64SectionHeaderRaw::parse(&bytes, Endianness::Little).unwrap();
    assert_eq!(h.section_type, 1);
    assert_eq!(h.addralign, 16);
    assert!(ElfFile64SectionHeaderRaw::parse(&bytes[..10], Endianness::Little).is_err());
}

#[test]
fn organize_lifts_tables() {
    let mut rela = section(".rela.text", SectionType64::Rela, vec![0; 24]);
    rela.info = 2;
    let sections = vec![
        section("", SectionType64::Null, Vec::new()),
        section(".strtab", SectionType64::Strtab, vec![0]),
        section(".text", SectionType64::Progbits, vec![1]),
        rela,
        section(".symtab", SectionType64::Symtab, vec![0; 24]),
        section(".data", SectionType64::Progbits, vec![2]),
    ];
    let (prims, symtab, relas, map) = organize_sections(sections).unwrap();
    assert_eq!(prims.len(), 3);
    assert_eq!(prims[2].name, b".data".to_vec());
    assert_eq!(symtab.name, b".symtab".to_vec());
    assert_eq!(relas.len(), 1);
    assert_eq!(relas[0].info, 1);
    assert_eq!(map, vec![Some(0), None, Some(1), None, None, Some(2)]);
    assert_eq!(get_new_shndx(5, &map), Some(2));
    assert_eq!(get_new_shndx(0xfff1, &map), Some(0xfff1));
    assert_eq!(get_new_shndx(0, &map), Some(0));
    assert_eq!(get_new_shndx(1, &map), None);
}

#[test]
fn organize_rejects_two_symtabs() {
    let sections = vec![
        section(".symtab", SectionType64::Symtab, vec![0; 24]),
        section(".symtab", SectionType64::Symtab, vec![0; 24]),
    ];
    assert_eq!(
        organize_sections(sections).err(),
        Some(ElfFileError::InvalidFileError)
    );
}

#[test]
fn organize_rejects_missing_symtab() {
    let sections = vec![section("", SectionType64::Null, Vec::new())];
    assert_eq!(
        organize_sections(sections).err(),
        Some(ElfFileError::InvalidFileError)
    );
}

#[test]
fn organize_rejects_rela_for_lifted_section() {
    let mut rela = section(".rela.strtab", SectionType64::Rela, vec![0; 24]);
    rela.info = 1;
    let sections = vec![
        section("", SectionType64::Null, Vec::new()),
        section(".strtab", SectionType64::Strtab, vec![0]),
        rela,
        section(".symtab", SectionType64::Symtab, vec![0; 24]),
    ];
    assert_eq!(
        organize_sections(sections).err(),
        Some(ElfFileError::InvalidFileError)
    );
}

#[test]
fn section_types_round_trip() {
    for t in [
        SectionType64::Null,
        SectionType64::Progbits,
        SectionType64::Symtab,
        SectionType64::Strtab,
        SectionType64::Rela,
        SectionType64::UnwindX64,
        SectionType64::Loos,
    ] {
        assert_eq!(SectionType64::from_raw(t.to_raw()), Some(t));
    }
    assert_eq!(SectionType64::UnwindX64.to_raw(), 0x7000_0001);
    assert_eq!(SectionType64::Loos.to_raw(), 0x6fff_8003);
    assert_eq!(SectionType64::from_raw(5), None);
}

#[test]
fn symbol_in_dropped_section_is_invalid() {
    let file = ElfFile64 {
        header: header(),
        unorganized_sections: vec![section("", SectionType64::Null, Vec::new())],
        symbols: vec![symbol("", 0, 0), symbol("lost", 0x10, 3)],
    };
    let bytes = file.write_out().unwrap();
    assert_eq!(ElfFile64::parse(&bytes).err(), Some(ElfFileError::InvalidFileError));
}
