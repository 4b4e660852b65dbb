use ld_rs::bytes::Endianness;
use ld_rs::elf::{ElfFile64, ElfFileError};
use ld_rs::link::link;
use ld_rs::parse::{ElfFile64HeaderRaw, ElfFile64Raw, ElfFileIdentifier};
use ld_rs::relocation::RelocationA64;
use ld_rs::section::{Section64, SectionType64};
use ld_rs::symbol::Symbol64;

const STB_GLOBAL_NOTYPE: u8 = 0x10;
const STB_LOCAL_NOTYPE: u8 = 0x00;

fn header(endianness: Endianness) -> ElfFile64HeaderRaw {
    ElfFile64HeaderRaw {
        identifier: ElfFileIdentifier {
            class: 2,
            endianness,
            version: 1,
            os_abi: 0,
            abi_version: 0,
        },
        file_type: 1,
        machine: 62,
        version: 1,
        entry: 0,
        phoff: 0,
        shoff: 0,
        flags: 0,
        ehsize: 64,
        phentsize: 0,
        phnum: 0,
        shentsize: 64,
        shnum: 0,
        shstrndx: 0,
    }
}

fn section(name: &str, section_type: SectionType64, addralign: u64, data: Vec<u8>) -> Section64 {
    Section64 {
        name: name.as_bytes().to_vec(),
        section_type,
        flags: 0,
        addr: 0,
        link: 0,
        info: 0,
        addralign,
        data,
        relocations: None,
    }
}

fn null_section() -> Section64 {
    section("", SectionType64::Null, 0, Vec::new())
}

fn symbol(name: &str, info: u8, shndx: u16, value: u64) -> Symbol64 {
    Symbol64 {
        name: name.as_bytes().to_vec(),
        info,
        other: 0,
        shndx,
        value,
        size: 0,
    }
}

fn null_symbol() -> Symbol64 {
    symbol("", 0, 0, 0)
}

fn object(sections: Vec<Section64>, symbols: Vec<Symbol64>) -> ElfFile64 {
    ElfFile64 {
        header: header(Endianness::Little),
        unorganized_sections: sections,
        symbols,
    }
}

fn names(symbols: &[Symbol64]) -> Vec<String> {
    symbols
        .iter()
        .map(|s| String::from_utf8(s.name.clone()).unwrap())
        .collect()
}

fn symtab_info(bytes: &[u8]) -> u32 {
    let raw = ElfFile64Raw::parse(bytes).unwrap();
    let symtab = raw
        .section_headers
        .iter()
        .find(|h| h.section_type == 2)
        .unwrap();
    symtab.info
}

fn count_relas(bytes: &[u8]) -> usize {
    let raw = ElfFile64Raw::parse(bytes).unwrap();
    raw.section_headers
        .iter()
        .filter(|h| h.section_type == 4)
        .count()
}

#[test]
fn single_object_round_trips() {
    let file = object(
        vec![
            null_section(),
            section(".text", SectionType64::Progbits, 1, vec![0x90; 8]),
        ],
        vec![null_symbol(), symbol("foo", STB_LOCAL_NOTYPE, 1, 0)],
    );
    let bytes = file.write_out().unwrap();
    let decoded = ElfFile64::parse(&bytes).unwrap();
    assert_eq!(decoded.unorganized_sections.len(), 2);
    assert_eq!(decoded.unorganized_sections[1].name, b".text".to_vec());
    assert_eq!(decoded.unorganized_sections[1].data, vec![0x90; 8]);
    assert_eq!(names(&decoded.symbols), vec!["", "foo"]);
    assert_eq!(decoded.symbols[1].shndx, 1);
    assert_eq!(symtab_info(&bytes), 2);
    assert_eq!(count_relas(&bytes), 0);
    assert!(decoded.unorganized_sections[1].relocations.is_none());
}

#[test]
fn two_globals_in_two_texts() {
    let a = object(
        vec![
            null_section(),
            section(".text", SectionType64::Progbits, 1, vec![1, 2, 3, 4]),
        ],
        vec![null_symbol(), symbol("a", STB_GLOBAL_NOTYPE, 1, 0)],
    );
    let b = object(
        vec![
            null_section(),
            section(".text", SectionType64::Progbits, 1, vec![5, 6, 7, 8]),
        ],
        vec![null_symbol(), symbol("b", STB_GLOBAL_NOTYPE, 1, 0)],
    );
    let linked = link(vec![a, b]).unwrap();
    assert_eq!(linked.unorganized_sections[1].data, vec![1, 2, 3, 4, 5, 6, 7, 8]);
    assert_eq!(names(&linked.symbols), vec!["", "a", "b"]);
    assert_eq!(linked.symbols[2].value, 4);
    assert_eq!(linked.symbols[2].shndx, 1);
    let bytes = linked.write_out().unwrap();
    assert_eq!(symtab_info(&bytes), 1);
}

#[test]
fn undefined_resolves_to_later_definition() {
    let a = object(
        vec![
            null_section(),
            section(".text", SectionType64::Progbits, 1, vec![0; 0x20]),
        ],
        vec![null_symbol(), symbol("bar", STB_GLOBAL_NOTYPE, 0, 0)],
    );
    let b = object(
        vec![
            null_section(),
            section(".text", SectionType64::Progbits, 1, vec![0; 0x20]),
        ],
        vec![null_symbol(), symbol("bar", STB_GLOBAL_NOTYPE, 1, 0x10)],
    );
    let linked = link(vec![a, b]).unwrap();
    let bars: Vec<&Symbol64> = linked
        .symbols
        .iter()
        .filter(|s| s.name == b"bar".to_vec())
        .collect();
    assert_eq!(bars.len(), 1);
    assert_eq!(bars[0].shndx, 1);
    assert_eq!(bars[0].value, 0x10 + 0x20);
}

#[test]
fn defined_then_undefined_keeps_definition() {
    let a = object(
        vec![
            null_section(),
            section(".text", SectionType64::Progbits, 1, vec![0; 0x20]),
        ],
        vec![null_symbol(), symbol("bar", STB_GLOBAL_NOTYPE, 1, 0x10)],
    );
    let b = object(
        vec![null_section()],
        vec![null_symbol(), symbol("bar", STB_GLOBAL_NOTYPE, 0, 0)],
    );
    let linked = link(vec![a, b]).unwrap();
    assert_eq!(names(&linked.symbols), vec!["", "bar"]);
    assert_eq!(linked.symbols[1].shndx, 1);
    assert_eq!(linked.symbols[1].value, 0x10);
}

#[test]
fn duplicate_definition_is_a_conflict() {
    let make = || {
        object(
            vec![
                null_section(),
                section(".text", SectionType64::Progbits, 1, vec![0; 4]),
            ],
            vec![null_symbol(), symbol("dup", STB_GLOBAL_NOTYPE, 1, 0)],
        )
    };
    let r = link(vec![make(), make()]);
    assert_eq!(r.err(), Some(ElfFileError::MergeConflict(b"dup".to_vec())));
}

#[test]
fn data_is_padded_to_alignment() {
    let mut incoming = section(".data", SectionType64::Progbits, 8, vec![6, 7, 8, 9, 10]);
    incoming.relocations = Some(vec![RelocationA64 {
        offset: 2,
        info: (1u64 << 32) | 1,
        addend: 0,
        merged: false,
    }]);
    let mut existing = section(".data", SectionType64::Progbits, 8, vec![1, 2, 3]);
    let at = existing.merge(&incoming).unwrap();
    assert_eq!(at, 8);
    assert_eq!(existing.data.len(), 13);
    assert_eq!(&existing.data[0..3], &[1, 2, 3]);
    assert_eq!(&existing.data[3..8], &[0xff; 5]);
    assert_eq!(&existing.data[8..13], &[6, 7, 8, 9, 10]);
    let relas = existing.relocations.unwrap();
    assert_eq!(relas.len(), 1);
    assert_eq!(relas[0].offset, 2 + 8);
    assert!(relas[0].merged);
}

#[test]
fn merge_of_different_alignment_is_a_conflict() {
    let mut existing = section(".data", SectionType64::Progbits, 8, vec![1, 2, 3]);
    let incoming = section(".data", SectionType64::Progbits, 4, vec![4]);
    assert_eq!(
        existing.merge(&incoming).err(),
        Some(ElfFileError::MergeConflict(b".data".to_vec()))
    );
    assert_eq!(existing.data, vec![1, 2, 3]);
    assert!(existing.relocations.is_none());
}

#[test]
fn aligned_data_gets_no_padding() {
    let mut existing = section(".data", SectionType64::Progbits, 4, vec![1, 2, 3, 4]);
    let incoming = section(".data", SectionType64::Progbits, 4, vec![5]);
    assert_eq!(existing.merge(&incoming).unwrap(), 4);
    assert_eq!(existing.data, vec![1, 2, 3, 4, 5]);
}

#[test]
fn linked_relocation_follows_its_symbol() {
    let mut text = section(".text", SectionType64::Progbits, 1, vec![0; 16]);
    text.relocations = Some(vec![RelocationA64 {
        offset: 4,
        info: (3u64 << 32) | 2,
        addend: 0xffff_ffff_ffff_fffc,
        merged: false,
    }]);
    let a = object(
        vec![null_section(), text],
        vec![
            null_symbol(),
            symbol("w", STB_LOCAL_NOTYPE, 1, 0),
            symbol("x", STB_GLOBAL_NOTYPE, 1, 4),
            symbol("z", STB_LOCAL_NOTYPE, 1, 8),
        ],
    );
    let b = object(vec![null_section()], vec![null_symbol()]);
    let linked = link(vec![a, b]).unwrap();
    assert_eq!(names(&linked.symbols), vec!["", "w", "z", "x"]);
    let r = &linked.unorganized_sections[1].relocations.as_ref().unwrap()[0];
    assert_eq!(r.get_sym(), 2);
    assert_eq!(r.get_type(), 2);
    assert_eq!(r.addend, 0xffff_ffff_ffff_fffc);
    assert!(!r.merged);
}

#[test]
fn incoming_relocation_goes_through_symbol_map() {
    let mut text_b = section(".text", SectionType64::Progbits, 4, vec![0; 4]);
    text_b.relocations = Some(vec![RelocationA64 {
        offset: 0,
        info: (1u64 << 32) | 4,
        addend: 0,
        merged: false,
    }]);
    let a = object(
        vec![
            null_section(),
            section(".text", SectionType64::Progbits, 4, vec![0; 6]),
        ],
        vec![
            null_symbol(),
            symbol("g", STB_GLOBAL_NOTYPE, 1, 0),
            symbol("l", STB_LOCAL_NOTYPE, 1, 2),
        ],
    );
    let b = object(
        vec![null_section(), text_b],
        vec![null_symbol(), symbol("g", STB_GLOBAL_NOTYPE, 0, 0)],
    );
    let linked = link(vec![a, b]).unwrap();
    assert_eq!(names(&linked.symbols), vec!["", "l", "g"]);
    let relas = linked.unorganized_sections[1].relocations.as_ref().unwrap();
    assert_eq!(relas.len(), 1);
    assert_eq!(relas[0].offset, 8);
    assert_eq!(relas[0].get_sym(), 2);
    assert_eq!(relas[0].get_type(), 4);
    let bytes = linked.write_out().unwrap();
    assert_eq!(count_relas(&bytes), 1);
    let decoded = ElfFile64::parse(&bytes).unwrap();
    let back = decoded.unorganized_sections[1].relocations.as_ref().unwrap();
    assert_eq!(back[0].offset, 8);
    assert_eq!(back[0].info, relas[0].info);
}

#[test]
fn three_files_link_in_order() {
    let make = |name: &str, byte: u8| {
        object(
            vec![
                null_section(),
                section(".text", SectionType64::Progbits, 2, vec![byte]),
            ],
            vec![null_symbol(), symbol(name, STB_GLOBAL_NOTYPE, 1, 0)],
        )
    };
    let linked = link(vec![make("p", 1), make("q", 2), make("r", 3)]).unwrap();
    assert_eq!(linked.unorganized_sections[1].data, vec![1, 0xff, 2, 0xff, 3]);
    assert_eq!(names(&linked.symbols), vec!["", "p", "q", "r"]);
    assert_eq!(linked.symbols[2].value, 2);
    assert_eq!(linked.symbols[3].value, 4);
}

#[test]
fn new_section_is_appended() {
    let a = object(
        vec![null_section(), section(".text", SectionType64::Progbits, 1, vec![1])],
        vec![null_symbol()],
    );
    let b = object(
        vec![null_section(), section(".data", SectionType64::Progbits, 1, vec![2, 3])],
        vec![null_symbol(), symbol("d", STB_GLOBAL_NOTYPE, 1, 1)],
    );
    let linked = link(vec![a, b]).unwrap();
    assert_eq!(linked.unorganized_sections.len(), 3);
    assert_eq!(linked.unorganized_sections[2].name, b".data".to_vec());
    assert_eq!(linked.symbols[1].shndx, 2);
    assert_eq!(linked.symbols[1].value, 1);
}

#[test]
fn absolute_symbol_is_not_moved() {
    let a = object(
        vec![null_section(), section(".text", SectionType64::Progbits, 1, vec![0; 8])],
        vec![null_symbol()],
    );
    let b = object(
        vec![null_section(), section(".text", SectionType64::Progbits, 1, vec![0; 8])],
        vec![null_symbol(), symbol("abs", STB_GLOBAL_NOTYPE, 0xfff1, 0x1234)],
    );
    let linked = link(vec![a, b]).unwrap();
    assert_eq!(linked.symbols[1].shndx, 0xfff1);
    assert_eq!(linked.symbols[1].value, 0x1234);
}

#[test]
fn big_endian_round_trips() {
    let mut text = section(".text", SectionType64::Progbits, 16, vec![0xc3, 0x90]);
    text.relocations = Some(vec![RelocationA64 {
        offset: 1,
        info: (1u64 << 32) | 0x0102_0304,
        addend: 7,
        merged: false,
    }]);
    let file = ElfFile64 {
        header: header(Endianness::Big),
        unorganized_sections: vec![null_section(), text],
        symbols: vec![null_symbol(), symbol("start", STB_GLOBAL_NOTYPE, 1, 0)],
    };
    let bytes = file.write_out().unwrap();
    assert_eq!(&bytes[0..6], &[0x7f, b'E', b'L', b'F', 2, 2]);
    let decoded = ElfFile64::parse(&bytes).unwrap();
    assert_eq!(decoded.header.identifier.endianness, Endianness::Big);
    assert_eq!(decoded.unorganized_sections[1].addralign, 16);
    assert_eq!(decoded.unorganized_sections[1].data, vec![0xc3, 0x90]);
    let relas = decoded.unorganized_sections[1].relocations.as_ref().unwrap();
    assert_eq!(relas[0].info, (1u64 << 32) | 0x0102_0304);
    assert_eq!(relas[0].addend, 7);
    assert_eq!(names(&decoded.symbols), vec!["", "start"]);
}


#[test]
fn rela_sections_point_at_symtab_and_target() {
    let mut data = section(".data", SectionType64::Progbits, 8, vec![0; 16]);
    data.relocations = Some(vec![RelocationA64 {
        offset: 8,
        info: (1u64 << 32) | 1,
        addend: 0,
        merged: false,
    }]);
    let file = object(
        vec![
            null_section(),
            section(".text", SectionType64::Progbits, 1, vec![0x90]),
            data,
        ],
        vec![null_symbol(), symbol("v", STB_GLOBAL_NOTYPE, 2, 0)],
    );
    let bytes = file.write_out().unwrap();
    let raw = ElfFile64Raw::parse(&bytes).unwrap();
    let headers = &raw.section_headers;
    assert_eq!(headers.len(), 7);
    assert_eq!(headers[3].section_type, 4);
    assert_eq!(headers[3].link, 4);
    assert_eq!(headers[3].info, 2);
    assert_eq!(headers[3].entsize, 24);
    assert_eq!(headers[3].size, 24);
    assert_eq!(headers[4].section_type, 2);
    assert_eq!(headers[4].link, 5);
    assert_eq!(headers[5].section_type, 3);
    assert_eq!(headers[6].section_type, 3);
    assert_eq!(raw.header.shstrndx, 6);
}

#[test]
fn null_symbol_stays_first_after_link() {
    let a = object(
        vec![null_section(), section(".text", SectionType64::Progbits, 1, vec![0])],
        vec![null_symbol(), symbol("g", STB_GLOBAL_NOTYPE, 1, 0)],
    );
    let b = object(
        vec![null_section(), section(".text", SectionType64::Progbits, 1, vec![0])],
        vec![
            null_symbol(),
            symbol("", STB_LOCAL_NOTYPE | 3, 1, 0),
            symbol("l", STB_LOCAL_NOTYPE, 1, 0),
        ],
    );
    let linked = link(vec![a, b]).unwrap();
    assert_eq!(linked.symbols[0].name, Vec::<u8>::new());
    assert_eq!(linked.symbols[0].shndx, 0);
    assert_eq!(names(&linked.symbols), vec!["", "l", "g"]);
    let bytes = linked.write_out().unwrap();
    assert_eq!(symtab_info(&bytes), 2);
}

#[test]
fn empty_named_incoming_symbols_are_skipped() {
    let a = object(
        vec![null_section(), section(".text", SectionType64::Progbits, 1, vec![0])],
        vec![null_symbol(), symbol("", STB_LOCAL_NOTYPE | 3, 1, 0)],
    );
    let b = object(
        vec![null_section(), section(".text", SectionType64::Progbits, 1, vec![0])],
        vec![
            null_symbol(),
            symbol("", STB_LOCAL_NOTYPE | 3, 1, 0),
            symbol("", STB_LOCAL_NOTYPE | 4, 1, 0),
            symbol("h", STB_GLOBAL_NOTYPE, 1, 0),
        ],
    );
    let linked = link(vec![a, b]).unwrap();
    assert_eq!(linked.symbols.len(), 3);
    assert_eq!(names(&linked.symbols), vec!["", "", "h"]);
}

#[test]
fn relocation_against_skipped_symbol_is_invalid() {
    let mut text_b = section(".text", SectionType64::Progbits, 1, vec![0; 4]);
    text_b.relocations = Some(vec![RelocationA64 {
        offset: 0,
        info: (1u64 << 32) | 1,
        addend: 0,
        merged: false,
    }]);
    let a = object(
        vec![null_section(), section(".text", SectionType64::Progbits, 1, vec![0; 4])],
        vec![null_symbol()],
    );
    let b = object(
        vec![null_section(), text_b],
        vec![null_symbol(), symbol("", STB_LOCAL_NOTYPE | 3, 1, 0)],
    );
    assert_eq!(link(vec![a, b]).err(), Some(ElfFileError::InvalidFileError));
}

#[test]
fn named_incoming_symbol_zero_is_appended() {
    let a = object(
        vec![null_section(), section(".text", SectionType64::Progbits, 1, vec![0; 4])],
        vec![null_symbol()],
    );
    let mut text_b = section(".text", SectionType64::Progbits, 1, vec![0; 4]);
    text_b.relocations = Some(vec![RelocationA64 {
        offset: 0,
        info: 4,
        addend: 0,
        merged: false,
    }]);
    let b = object(
        vec![null_section(), text_b],
        vec![symbol("ext", STB_GLOBAL_NOTYPE, 0, 0)],
    );
    let linked = link(vec![a, b]).unwrap();
    assert_eq!(names(&linked.symbols), vec!["", "ext"]);
    let relas = linked.unorganized_sections[1].relocations.as_ref().unwrap();
    assert_eq!(relas[0].get_sym(), 1);
    assert_eq!(relas[0].get_type(), 4);
    assert_eq!(relas[0].offset, 4);
}
