//! Byte-level decoding of the ELF header, the section header table and the
//! fixed-size records held in symbol and relocation tables.

use vstd::prelude::*;

use crate::bytes::{copy_range, read_u16, read_u32, read_u64, u16_at, u32_at, u64_at, Endianness};
use crate::relocation::RelocationA64;

verus! {

/// Size of the ELF64 file header.
pub const EHSIZE_64: usize = 64;

/// Size of one ELF64 section header.
pub const SHENTSIZE_64: usize = 64;

/// Size of one symbol record.
pub const SYMBOL_SIZE_64: usize = 24;

/// Size of one RELA record.
pub const RELA_SIZE_64: usize = 24;

/// The input is not an ELF64 file of the accepted shape.
#[derive(Clone, Copy, Debug, PartialEq, Eq, Structural)]
pub struct ElfFile64RawParseError;

/// `Ok` of the value of `o`, or the parse error.
pub open spec fn result_of<T>(o: Option<T>) -> Result<T, ElfFile64RawParseError> {
    match o {
        Some(x) => Ok(x),
        None => Err(ElfFile64RawParseError),
    }
}

/// The first sixteen bytes of an ELF file.
#[derive(Clone, Copy, Debug, PartialEq, Eq, Structural)]
pub struct ElfFileIdentifier {
    pub class: u8,
    pub endianness: Endianness,
    pub version: u8,
    pub os_abi: u8,
    pub abi_version: u8,
}

/// The byte order that the identifier byte `b` names.
pub open spec fn endianness_spec(b: u8) -> Option<Endianness> {
    if b == 1 {
        Some(Endianness::Little)
    } else if b == 2 {
        Some(Endianness::Big)
    } else {
        None
    }
}

/// The identifier at the start of `s`: magic `7F 'E' 'L' 'F'`, class 2
/// (64-bit), a known byte order, three informational bytes and seven bytes
/// of padding.
pub open spec fn identifier_spec(s: Seq<u8>) -> Option<ElfFileIdentifier> {
    if s.len() >= 16 && s[0] == 0x7f && s[1] == 0x45 && s[2] == 0x4c && s[3] == 0x46 && s[4] == 2
        && endianness_spec(s[5]) is Some {
        Some(
            ElfFileIdentifier {
                class: s[4],
                endianness: endianness_spec(s[5])->0,
                version: s[6],
                os_abi: s[7],
                abi_version: s[8],
            },
        )
    } else {
        None
    }
}

impl ElfFileIdentifier {
    /// Decodes the identifier at the start of `input`.
    pub fn parse(input: &[u8]) -> (r: Result<ElfFileIdentifier, ElfFile64RawParseError>)
        ensures
            r == result_of(identifier_spec(input@)),
    {
        if input.len() < 16 || input[0] != 0x7f || input[1] != 0x45 || input[2] != 0x4c
            || input[3] != 0x46 || input[4] != 2 {
            return Err(ElfFile64RawParseError);
        }
        let endianness = if input[5] == 1 {
            Endianness::Little
        } else if input[5] == 2 {
            Endianness::Big
        } else {
            return Err(ElfFile64RawParseError);
        };
        Ok(
            ElfFileIdentifier {
                class: input[4],
                endianness,
                version: input[6],
                os_abi: input[7],
                abi_version: input[8],
            },
        )
    }
}

/// The 64-byte ELF64 file header.
#[derive(Clone, Copy, Debug, PartialEq, Eq, Structural)]
pub struct ElfFile64HeaderRaw {
    pub identifier: ElfFileIdentifier,
    pub file_type: u16,
    pub machine: u16,
    pub version: u32,
    pub entry: u64,
    pub phoff: u64,
    pub shoff: u64,
    pub flags: u32,
    pub ehsize: u16,
    pub phentsize: u16,
    pub phnum: u16,
    pub shentsize: u16,
    pub shnum: u16,
    pub shstrndx: u16,
}

/// The file header at the start of `s`.
pub open spec fn header_spec(s: Seq<u8>) -> Option<ElfFile64HeaderRaw> {
    match identifier_spec(s) {
        Some(id) => if s.len() >= 64 {
            let e = id.endianness;
            Some(
                ElfFile64HeaderRaw {
                    identifier: id,
                    file_type: u16_at(s, 16, e),
                    machine: u16_at(s, 18, e),
                    version: u32_at(s, 20, e),
                    entry: u64_at(s, 24, e),
                    phoff: u64_at(s, 32, e),
                    shoff: u64_at(s, 40, e),
                    flags: u32_at(s, 48, e),
                    ehsize: u16_at(s, 52, e),
                    phentsize: u16_at(s, 54, e),
                    phnum: u16_at(s, 56, e),
                    shentsize: u16_at(s, 58, e),
                    shnum: u16_at(s, 60, e),
                    shstrndx: u16_at(s, 62, e),
                },
            )
        } else {
            None
        },
        None => None,
    }
}

impl ElfFile64HeaderRaw {
    /// Decodes the file header at the start of `input`.
    pub fn parse(input: &[u8]) -> (r: Result<ElfFile64HeaderRaw, ElfFile64RawParseError>)
        ensures
            r == result_of(header_spec(input@)),
    {
        let identifier = ElfFileIdentifier::parse(input)?;
        if input.len() < 64 {
            return Err(ElfFile64RawParseError);
        }
        let e = identifier.endianness;
        Ok(
            ElfFile64HeaderRaw {
                identifier,
                file_type: read_u16(input, 16, e),
                machine: read_u16(input, 18, e),
                version: read_u32(input, 20, e),
                entry: read_u64(input, 24, e),
                phoff: read_u64(input, 32, e),
                shoff: read_u64(input, 40, e),
                flags: read_u32(input, 48, e),
                ehsize: read_u16(input, 52, e),
                phentsize: read_u16(input, 54, e),
                phnum: read_u16(input, 56, e),
                shentsize: read_u16(input, 58, e),
                shnum: read_u16(input, 60, e),
                shstrndx: read_u16(input, 62, e),
            },
        )
    }
}

/// One 64-byte entry of the section header table.
#[derive(Clone, Copy, Debug, PartialEq, Eq, Structural)]
pub struct ElfFile64SectionHeaderRaw {
    pub name: u32,
    pub section_type: u32,
    pub flags: u64,
    pub addr: u64,
    pub offset: u64,
    pub size: u64,
    pub link: u32,
    pub info: u32,
    pub addralign: u64,
    pub entsize: u64,
}

/// The section header at `pos` of `s`.
pub open spec fn section_header_spec(s: Seq<u8>, pos: int, e: Endianness) -> ElfFile64SectionHeaderRaw {
    ElfFile64SectionHeaderRaw {
        name: u32_at(s, pos, e),
        section_type: u32_at(s, pos + 4, e),
        flags: u64_at(s, pos + 8, e),
        addr: u64_at(s, pos + 16, e),
        offset: u64_at(s, pos + 24, e),
        size: u64_at(s, pos + 32, e),
        link: u32_at(s, pos + 40, e),
        info: u32_at(s, pos + 44, e),
        addralign: u64_at(s, pos + 48, e),
        entsize: u64_at(s, pos + 56, e),
    }
}

impl ElfFile64SectionHeaderRaw {
    /// Decodes the section header at the start of `input`.
    pub fn parse(input: &[u8], endianness: Endianness) -> (r: Result<
        ElfFile64SectionHeaderRaw,
        ElfFile64RawParseError,
    >)
        ensures
            r == (if input@.len() >= 64 {
                Ok(section_header_spec(input@, 0, endianness))
            } else {
                Err(ElfFile64RawParseError)
            }),
    {
        if input.len() < 64 {
            return Err(ElfFile64RawParseError);
        }
        Ok(Self::parse_at(input, 0, endianness))
    }

    /// Decodes the section header at `pos` of `input`.
    pub fn parse_at(input: &[u8], pos: usize, e: Endianness) -> (r: ElfFile64SectionHeaderRaw)
        requires
            pos + 64 <= input.len(),
        ensures
            r == section_header_spec(input@, pos as int, e),
    {
        ElfFile64SectionHeaderRaw {
            name: read_u32(input, pos, e),
            section_type: read_u32(input, pos + 4, e),
            flags: read_u64(input, pos + 8, e),
            addr: read_u64(input, pos + 16, e),
            offset: read_u64(input, pos + 24, e),
            size: read_u64(input, pos + 32, e),
            link: read_u32(input, pos + 40, e),
            info: read_u32(input, pos + 44, e),
            addralign: read_u64(input, pos + 48, e),
            entsize: read_u64(input, pos + 56, e),
        }
    }
}

/// What the decoder sees of a file: its header, the bytes between the
/// header and the section header table, and that table.
pub struct ElfFile64Raw {
    pub header: ElfFile64HeaderRaw,
    pub section_data: Vec<u8>,
    pub section_headers: Vec<ElfFile64SectionHeaderRaw>,
}

/// The value of an [`ElfFile64Raw`].
pub ghost struct RawImage {
    pub header: ElfFile64HeaderRaw,
    pub section_data: Seq<u8>,
    pub section_headers: Seq<ElfFile64SectionHeaderRaw>,
}

impl View for ElfFile64Raw {
    type V = RawImage;

    open spec fn view(&self) -> RawImage {
        RawImage {
            header: self.header,
            section_data: self.section_data@,
            section_headers: self.section_headers@,
        }
    }
}

/// The file `s` split into header, body and section header table: the body
/// is the `shoff - ehsize` bytes after the header, and exactly `shnum >= 1`
/// section headers follow it, with nothing after them.
pub open spec fn raw_spec(s: Seq<u8>) -> Option<RawImage> {
    match header_spec(s) {
        Some(h) => {
            let d = h.shoff as int - h.ehsize as int;
            if d >= 0 && h.shnum >= 1 && s.len() == 64 + d + 64 * h.shnum {
                Some(
                    RawImage {
                        header: h,
                        section_data: s.subrange(64, 64 + d),
                        section_headers: Seq::new(
                            h.shnum as nat,
                            |i: int| section_header_spec(s, 64 + d + 64 * i, h.identifier.endianness),
                        ),
                    },
                )
            } else {
                None
            }
        },
        None => None,
    }
}

impl ElfFile64Raw {
    /// Splits `input` into header, body and section headers.
    pub fn parse(input: &[u8]) -> (r: Result<ElfFile64Raw, ElfFile64RawParseError>)
        ensures
            r is Ok <==> raw_spec(input@) is Some,
            r is Ok ==> r->Ok_0@ == raw_spec(input@)->0,
    {
        let header = ElfFile64HeaderRaw::parse(input)?;
        if header.shoff < header.ehsize as u64 {
            return Err(ElfFile64RawParseError);
        }
        let d: u64 = header.shoff - header.ehsize as u64;
        let total = input.len();
        if d > (total - 64) as u64 {
            return Err(ElfFile64RawParseError);
        }
        let body_end: usize = 64 + d as usize;
        let table_len: u64 = header.shnum as u64 * 64;
        if header.shnum == 0 || (total - body_end) as u64 != table_len {
            return Err(ElfFile64RawParseError);
        }
        let section_data = copy_range(input, 64, body_end);
        let e = header.identifier.endianness;
        let mut section_headers: Vec<ElfFile64SectionHeaderRaw> = Vec::new();
        let mut i: usize = 0;
        let n = header.shnum as usize;
        while i < n
            invariant
                i <= n,
                n == header.shnum,
                e == header.identifier.endianness,
                body_end + 64 * n == input.len(),
                section_headers@ =~= Seq::new(
                    i as nat,
                    |k: int| section_header_spec(input@, body_end + 64 * k, e),
                ),
            decreases n - i,
        {
            let h = ElfFile64SectionHeaderRaw::parse_at(input, body_end + 64 * i, e);
            section_headers.push(h);
            i += 1;
        }
        Ok(ElfFile64Raw { header, section_data, section_headers })
    }
}

/// One 24-byte record of a symbol table.
#[derive(Clone, Copy, Debug, PartialEq, Eq, Structural)]
pub struct Symbol64Raw {
    pub name: u32,
    pub info: u8,
    pub other: u8,
    pub shndx: u16,
    pub value: u64,
    pub size: u64,
}

/// The symbol record at `pos` of `s`.
pub open spec fn symbol_raw_spec(s: Seq<u8>, pos: int, e: Endianness) -> Symbol64Raw {
    Symbol64Raw {
        name: u32_at(s, pos, e),
        info: s[pos + 4],
        other: s[pos + 5],
        shndx: u16_at(s, pos + 6, e),
        value: u64_at(s, pos + 8, e),
        size: u64_at(s, pos + 16, e),
    }
}

/// The symbol records that fill `s`: at least one, with nothing left over.
pub open spec fn symbols_raw_spec(s: Seq<u8>, e: Endianness) -> Option<Seq<Symbol64Raw>> {
    if s.len() > 0 && s.len() % 24 == 0 {
        Some(Seq::new(s.len() / 24, |i: int| symbol_raw_spec(s, 24 * i, e)))
    } else {
        None
    }
}

impl Symbol64Raw {
    /// Decodes the symbol records that fill `input`.
    pub fn parse_many(input: &[u8], endianness: Endianness) -> (r: Result<
        Vec<Symbol64Raw>,
        ElfFile64RawParseError,
    >)
        ensures
            r is Ok <==> symbols_raw_spec(input@, endianness) is Some,
            r is Ok ==> r->Ok_0@ == symbols_raw_spec(input@, endianness)->0,
    {
        let len = input.len();
        if len == 0 || len % 24 != 0 {
            return Err(ElfFile64RawParseError);
        }
        let n = len / 24;
        let mut out: Vec<Symbol64Raw> = Vec::new();
        let mut i: usize = 0;
        while i < n
            invariant
                i <= n,
                n == len / 24,
                len == input@.len(),
                len % 24 == 0,
                out@ =~= Seq::new(i as nat, |k: int| symbol_raw_spec(input@, 24 * k, endianness)),
            decreases n - i,
        {
            out.push(Self::parse_one(input, 24 * i, endianness));
            i += 1;
        }
        Ok(out)
    }

    /// Decodes the symbol record at `pos` of `input`.
    pub fn parse_one(input: &[u8], pos: usize, endianness: Endianness) -> (r: Symbol64Raw)
        requires
            pos + 24 <= input.len(),
        ensures
            r == symbol_raw_spec(input@, pos as int, endianness),
    {
        Symbol64Raw {
            name: read_u32(input, pos, endianness),
            info: input[pos + 4],
            other: input[pos + 5],
            shndx: read_u16(input, pos + 6, endianness),
            value: read_u64(input, pos + 8, endianness),
            size: read_u64(input, pos + 16, endianness),
        }
    }
}

/// The RELA record at `pos` of `s`.
pub open spec fn rela_spec(s: Seq<u8>, pos: int, e: Endianness) -> RelocationA64 {
    RelocationA64 {
        offset: u64_at(s, pos, e),
        info: u64_at(s, pos + 8, e),
        addend: u64_at(s, pos + 16, e),
        merged: false,
    }
}

/// The RELA records that fill `s`: at least one, with nothing left over.
pub open spec fn relas_spec(s: Seq<u8>, e: Endianness) -> Option<Seq<RelocationA64>> {
    if s.len() > 0 && s.len() % 24 == 0 {
        Some(Seq::new(s.len() / 24, |i: int| rela_spec(s, 24 * i, e)))
    } else {
        None
    }
}

impl RelocationA64 {
    /// Decodes the RELA records that fill `input`.
    pub fn parse_many(input: &[u8], endianness: Endianness) -> (r: Result<
        Vec<RelocationA64>,
        ElfFile64RawParseError,
    >)
        ensures
            r is Ok <==> relas_spec(input@, endianness) is Some,
            r is Ok ==> r->Ok_0@ == relas_spec(input@, endianness)->0,
    {
        let len = input.len();
        if len == 0 || len % 24 != 0 {
            return Err(ElfFile64RawParseError);
        }
        let n = len / 24;
        let mut out: Vec<RelocationA64> = Vec::new();
        let mut i: usize = 0;
        while i < n
            invariant
                i <= n,
                n == len / 24,
                len == input@.len(),
                len % 24 == 0,
                out@ =~= Seq::new(i as nat, |k: int| rela_spec(input@, 24 * k, endianness)),
            decreases n - i,
        {
            out.push(Self::parse_one(input, 24 * i, endianness));
            i += 1;
        }
        Ok(out)
    }

    /// Decodes the RELA record at `pos` of `input`.
    pub fn parse_one(input: &[u8], pos: usize, endianness: Endianness) -> (r: RelocationA64)
        requires
            pos + 24 <= input.len(),
        ensures
            r == rela_spec(input@, pos as int, endianness),
    {
        RelocationA64 {
            offset: read_u64(input, pos, endianness),
            info: read_u64(input, pos + 8, endianness),
            addend: read_u64(input, pos + 16, endianness),
            merged: false,
        }
    }
}

} // verus!
