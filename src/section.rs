//! Sections: decoding them from the section header table, and lifting the
//! string, symbol and relocation tables out of the list.

use vstd::prelude::*;

use crate::bytes::copy_range;
use crate::elf::ElfFileError;
use crate::parse::{ElfFile64Raw, ElfFile64SectionHeaderRaw, RawImage};
use crate::relocation::RelocationA64;
use crate::strtab::{cstr_at, read_cstr};

verus! {

/// The section types this linker accepts.
#[derive(Clone, Copy, Debug, PartialEq, Eq, Structural)]
pub enum SectionType64 {
    Null,
    Progbits,
    Symtab,
    Strtab,
    Rela,
    UnwindX64,
    Loos,
}

/// The section type that the header value `x` names.
pub open spec fn section_type_spec(x: u32) -> Option<SectionType64> {
    if x == 0 {
        Some(SectionType64::Null)
    } else if x == 1 {
        Some(SectionType64::Progbits)
    } else if x == 2 {
        Some(SectionType64::Symtab)
    } else if x == 3 {
        Some(SectionType64::Strtab)
    } else if x == 4 {
        Some(SectionType64::Rela)
    } else if x == 0x7000_0001 {
        Some(SectionType64::UnwindX64)
    } else if x == 0x6fff_8003 {
        Some(SectionType64::Loos)
    } else {
        None
    }
}

/// The header value of a section type.
pub open spec fn section_type_code(t: SectionType64) -> u32 {
    match t {
        SectionType64::Null => 0,
        SectionType64::Progbits => 1,
        SectionType64::Symtab => 2,
        SectionType64::Strtab => 3,
        SectionType64::Rela => 4,
        SectionType64::UnwindX64 => 0x7000_0001,
        SectionType64::Loos => 0x6fff_8003,
    }
}

impl SectionType64 {
    /// The section type of header value `x`, if it is one of the accepted.
    pub fn from_raw(x: u32) -> (r: Option<SectionType64>)
        ensures
            r == section_type_spec(x),
    {
        if x == 0 {
            Some(SectionType64::Null)
        } else if x == 1 {
            Some(SectionType64::Progbits)
        } else if x == 2 {
            Some(SectionType64::Symtab)
        } else if x == 3 {
            Some(SectionType64::Strtab)
        } else if x == 4 {
            Some(SectionType64::Rela)
        } else if x == 0x7000_0001 {
            Some(SectionType64::UnwindX64)
        } else if x == 0x6fff_8003 {
            Some(SectionType64::Loos)
        } else {
            None
        }
    }

    /// The header value of this type.
    pub fn to_raw(self) -> (r: u32)
        ensures
            r == section_type_code(self),
            section_type_spec(r) == Some(self),
    {
        match self {
            SectionType64::Null => 0,
            SectionType64::Progbits => 1,
            SectionType64::Symtab => 2,
            SectionType64::Strtab => 3,
            SectionType64::Rela => 4,
            SectionType64::UnwindX64 => 0x7000_0001,
            SectionType64::Loos => 0x6fff_8003,
        }
    }
}

/// A section of the logical model. `relocations`, when present, holds the
/// RELA records that patch this section's data.
pub struct Section64 {
    pub name: Vec<u8>,
    pub section_type: SectionType64,
    pub flags: u64,
    pub addr: u64,
    pub link: u32,
    pub info: u32,
    pub addralign: u64,
    pub data: Vec<u8>,
    pub relocations: Option<Vec<RelocationA64>>,
}

/// The value of a [`Section64`].
pub ghost struct SectionModel {
    pub name: Seq<u8>,
    pub section_type: SectionType64,
    pub flags: u64,
    pub addr: u64,
    pub link: u32,
    pub info: u32,
    pub addralign: u64,
    pub data: Seq<u8>,
    pub relocations: Option<Seq<RelocationA64>>,
}

impl View for Section64 {
    type V = SectionModel;

    open spec fn view(&self) -> SectionModel {
        SectionModel {
            name: self.name@,
            section_type: self.section_type,
            flags: self.flags,
            addr: self.addr,
            link: self.link,
            info: self.info,
            addralign: self.addralign,
            data: self.data@,
            relocations: match self.relocations {
                Some(v) => Some(v@),
                None => None,
            },
        }
    }
}

/// The values of a sequence of sections.
pub open spec fn sections_view(v: Seq<Section64>) -> Seq<SectionModel> {
    v.map_values(|s: Section64| s@)
}

/// A copy of the bytes `v`.
pub fn copy_bytes(v: &Vec<u8>) -> (r: Vec<u8>)
    ensures
        r@ == v@,
{
    let r = copy_range(v.as_slice(), 0, v.len());
    assert(v@.subrange(0, v@.len() as int) =~= v@);
    r
}

/// A copy of the relocation records `v`.
pub fn copy_relocations(v: &Vec<RelocationA64>) -> (r: Vec<RelocationA64>)
    ensures
        r@ == v@,
{
    let mut out: Vec<RelocationA64> = Vec::new();
    let mut i: usize = 0;
    while i < v.len()
        invariant
            i <= v@.len(),
            out@ == v@.subrange(0, i as int),
        decreases v@.len() - i,
    {
        out.push(v[i]);
        i += 1;
        assert(out@ =~= v@.subrange(0, i as int));
    }
    assert(v@.subrange(0, v@.len() as int) =~= v@);
    out
}

impl Section64 {
    /// A copy of this section.
    pub fn duplicate(&self) -> (r: Section64)
        ensures
            r@ == self@,
    {
        let relocations = match &self.relocations {
            Some(v) => Some(copy_relocations(v)),
            None => None,
        };
        Section64 {
            name: copy_bytes(&self.name),
            section_type: self.section_type,
            flags: self.flags,
            addr: self.addr,
            link: self.link,
            info: self.info,
            addralign: self.addralign,
            data: copy_bytes(&self.data),
            relocations,
        }
    }
}

/// The bytes of the section that header `h` describes, within the body of
/// `raw`. A header with offset and size zero describes an empty section.
pub open spec fn section_data_spec(raw: RawImage, h: ElfFile64SectionHeaderRaw) -> Option<Seq<u8>> {
    if h.offset == 0 && h.size == 0 {
        Some(Seq::empty())
    } else {
        let begin = h.offset as int - raw.header.ehsize as int;
        if 0 <= begin && begin + h.size <= raw.section_data.len() {
            Some(raw.section_data.subrange(begin, begin + h.size))
        } else {
            None
        }
    }
}

/// The bytes of the section name string table of `raw`, which must be a
/// string table.
pub open spec fn section_names_spec(raw: RawImage) -> Option<Seq<u8>> {
    let i = raw.header.shstrndx as int;
    if i < raw.section_headers.len() && raw.section_headers[i].section_type == 3 {
        section_data_spec(raw, raw.section_headers[i])
    } else {
        None
    }
}

/// Section `i` of `raw`, named from the section name string table `names`.
pub open spec fn section_spec(raw: RawImage, names: Seq<u8>, i: int) -> Option<SectionModel> {
    let h = raw.section_headers[i];
    match (cstr_at(names, h.name as int), section_type_spec(h.section_type), section_data_spec(raw, h)) {
        (Some(name), Some(t), Some(data)) => Some(
            SectionModel {
                name,
                section_type: t,
                flags: h.flags,
                addr: h.addr,
                link: h.link,
                info: h.info,
                addralign: h.addralign,
                data,
                relocations: None,
            },
        ),
        _ => None,
    }
}

/// All sections of `raw`, in header order.
pub open spec fn sections_spec(raw: RawImage) -> Option<Seq<SectionModel>> {
    match section_names_spec(raw) {
        Some(names) => if forall|i: int|
            0 <= i < raw.section_headers.len() ==> (#[trigger] section_spec(raw, names, i)) is Some {
            Some(
                Seq::new(
                    raw.section_headers.len(),
                    |i: int| section_spec(raw, names, i)->0,
                ),
            )
        } else {
            None
        },
        None => None,
    }
}

/// The bytes of the section that header `h` describes.
pub fn get_section_data(raw: &ElfFile64Raw, h: &ElfFile64SectionHeaderRaw) -> (r: Option<Vec<u8>>)
    ensures
        r is Some <==> section_data_spec(raw@, *h) is Some,
        r is Some ==> r->0@ == section_data_spec(raw@, *h)->0,
{
    if h.offset == 0 && h.size == 0 {
        return Some(Vec::new());
    }
    let ehsize = raw.header.ehsize as u64;
    let len = raw.section_data.len();
    if h.offset < ehsize {
        return None;
    }
    let begin: u64 = h.offset - ehsize;
    if begin > len as u64 || h.size > len as u64 - begin {
        return None;
    }
    Some(copy_range(raw.section_data.as_slice(), begin as usize, (begin + h.size) as usize))
}

/// Decodes every section of `raw`: its name from the section name string
/// table, its type, and its bytes.
pub fn get_sections(raw: &ElfFile64Raw) -> (r: Result<Vec<Section64>, ElfFileError>)
    ensures
        r is Ok <==> sections_spec(raw@) is Some,
        r is Ok ==> sections_view(r->Ok_0@) == sections_spec(raw@)->0,
        r is Err ==> r == Err::<Vec<Section64>, ElfFileError>(ElfFileError::ParseError),
{
    let idx = raw.header.shstrndx as usize;
    if idx >= raw.section_headers.len() || raw.section_headers[idx].section_type != 3 {
        return Err(ElfFileError::ParseError);
    }
    let names = match get_section_data(raw, &raw.section_headers[idx]) {
        Some(n) => n,
        None => {
            return Err(ElfFileError::ParseError);
        },
    };
    let ghost names_spec = names@;
    let mut sections: Vec<Section64> = Vec::new();
    let mut i: usize = 0;
    let n = raw.section_headers.len();
    while i < n
        invariant
            i <= n,
            n == raw.section_headers@.len(),
            section_names_spec(raw@) == Some(names@),
            forall|k: int| 0 <= k < i ==> (#[trigger] section_spec(raw@, names@, k)) is Some,
            sections_view(sections@) =~= Seq::new(
                i as nat,
                |k: int| section_spec(raw@, names@, k)->0,
            ),
        decreases n - i,
    {
        let h = &raw.section_headers[i];
        let name = read_cstr(names.as_slice(), h.name as usize);
        let section_type = SectionType64::from_raw(h.section_type);
        let data = get_section_data(raw, h);
        match (name, section_type, data) {
            (Some(name), Some(section_type), Some(data)) => {
                let ghost before = sections@;
                let sec = Section64 {
                        name,
                        section_type,
                        flags: h.flags,
                        addr: h.addr,
                        link: h.link,
                        info: h.info,
                        addralign: h.addralign,
                        data,
                        relocations: None,
                    };
                let ghost sv = sec@;
                sections.push(sec);
                assert(sections_view(sections@) =~= sections_view(before).push(sv));
            },
            _ => {
                assert(section_spec(raw@, names@, i as int) is None);
                return Err(ElfFileError::ParseError);
            },
        }
        i += 1;
    }
    Ok(sections)
}

/// A section that stays in the primary list: any but a string, symbol or
/// relocation table.
pub open spec fn is_primary(t: SectionType64) -> bool {
    !(t is Symtab) && !(t is Rela) && !(t is Strtab)
}

pub open spec fn primary_pred() -> spec_fn(SectionModel) -> bool {
    |x: SectionModel| is_primary(x.section_type)
}

pub open spec fn symtab_pred() -> spec_fn(SectionModel) -> bool {
    |x: SectionModel| x.section_type is Symtab
}

pub open spec fn rela_pred() -> spec_fn(SectionModel) -> bool {
    |x: SectionModel| x.section_type is Rela
}

/// For each section of `s`, its index among the primary sections, if it is
/// one.
pub open spec fn index_map_spec(s: Seq<SectionModel>) -> Seq<Option<usize>> {
    Seq::new(
        s.len(),
        |i: int|
            if is_primary(s[i].section_type) {
                Some(s.subrange(0, i).filter(primary_pred()).len() as usize)
            } else {
                None
            },
    )
}

/// Relocation table `r` with `info` carried through `map`, if it names a
/// primary section.
pub open spec fn retarget_spec(r: SectionModel, map: Seq<Option<usize>>) -> Option<SectionModel> {
    if (r.info as int) < map.len() && map[r.info as int] is Some {
        Some(
            SectionModel {
                name: r.name,
                section_type: r.section_type,
                flags: r.flags,
                addr: r.addr,
                link: r.link,
                info: map[r.info as int]->0 as u32,
                addralign: r.addralign,
                data: r.data,
                relocations: r.relocations,
            },
        )
    } else {
        None
    }
}

/// The lifted model of the sections `s`: the primary sections in order, the
/// one symbol table, the relocation tables in order with `info` renumbered
/// among the primary sections, and the map from old to new indices.
pub open spec fn organize_spec(s: Seq<SectionModel>) -> Option<
    (Seq<SectionModel>, SectionModel, Seq<SectionModel>, Seq<Option<usize>>),
> {
    let symtabs = s.filter(symtab_pred());
    let relas = s.filter(rela_pred());
    let map = index_map_spec(s);
    if symtabs.len() == 1 && forall|k: int|
        0 <= k < relas.len() ==> (#[trigger] retarget_spec(relas[k], map)) is Some {
        Some(
            (
                s.filter(primary_pred()),
                symtabs[0],
                Seq::new(relas.len(), |k: int| retarget_spec(relas[k], map)->0),
                map,
            ),
        )
    } else {
        None
    }
}

/// Splits `sections` into the primary sections, the symbol table and the
/// relocation tables, dropping the string tables, and renumbers each
/// relocation table's target among the primary sections.
pub fn organize_sections(sections: Vec<Section64>) -> (r: Result<
    (Vec<Section64>, Section64, Vec<Section64>, Vec<Option<usize>>),
    ElfFileError,
>)
    ensures
        r is Ok <==> organize_spec(sections_view(sections@)) is Some,
        r is Ok ==> ({
            let (p, t, rs, m) = r->Ok_0;
            let (sp, st, srs, sm) = organize_spec(sections_view(sections@))->0;
            sections_view(p@) == sp && t@ == st && sections_view(rs@) == srs && m@ == sm
        }),
        r is Err ==> r == Err::<
            (Vec<Section64>, Section64, Vec<Section64>, Vec<Option<usize>>),
            ElfFileError,
        >(ElfFileError::InvalidFileError),
{
    broadcast use Seq::lemma_filter_push, Seq::lemma_filter_len;

    let ghost s = sections_view(sections@);
    let mut primaries: Vec<Section64> = Vec::new();
    let mut symtab: Option<Section64> = None;
    let mut relas: Vec<Section64> = Vec::new();
    let mut index_map: Vec<Option<usize>> = Vec::new();
    let n = sections.len();
    let mut i: usize = 0;
    assert(s.subrange(0, 0).filter(primary_pred()) =~= Seq::<SectionModel>::empty()) by {
        reveal(Seq::filter);
    }
    assert(s.subrange(0, 0).filter(symtab_pred()) =~= Seq::<SectionModel>::empty()) by {
        reveal(Seq::filter);
    }
    assert(s.subrange(0, 0).filter(rela_pred()) =~= Seq::<SectionModel>::empty()) by {
        reveal(Seq::filter);
    }
    while i < n
        invariant
            i <= n,
            n == sections@.len(),
            s == sections_view(sections@),
            sections_view(primaries@) == s.subrange(0, i as int).filter(primary_pred()),
            sections_view(relas@) == s.subrange(0, i as int).filter(rela_pred()),
            s.subrange(0, i as int).filter(symtab_pred()).len() <= 1,
            symtab is Some <==> s.subrange(0, i as int).filter(symtab_pred()).len() == 1,
            symtab is Some ==> symtab->0@ == s.subrange(0, i as int).filter(symtab_pred())[0],
            index_map@ == index_map_spec(s).subrange(0, i as int),
        decreases n - i,
    {
        let ghost sub = s.subrange(0, i as int);
        assert(s.subrange(0, i + 1) =~= sub.push(s[i as int]));
        let section = sections[i].duplicate();
        assert(section@ == s[i as int]);
        proof {
            sub.lemma_filter_push(s[i as int], primary_pred());
            sub.lemma_filter_push(s[i as int], rela_pred());
            sub.lemma_filter_push(s[i as int], symtab_pred());
        }
        assert(sub.push(s[i as int]).filter(primary_pred()) == if is_primary(s[i as int].section_type) {
            sub.filter(primary_pred()).push(s[i as int])
        } else {
            sub.filter(primary_pred())
        });
        assert(sub.push(s[i as int]).filter(rela_pred()) == if s[i as int].section_type is Rela {
            sub.filter(rela_pred()).push(s[i as int])
        } else {
            sub.filter(rela_pred())
        });
        assert(sub.push(s[i as int]).filter(symtab_pred()) == if s[i as int].section_type is Symtab {
            sub.filter(symtab_pred()).push(s[i as int])
        } else {
            sub.filter(symtab_pred())
        });
        let ghost before_p = primaries@;
        let ghost before_r = relas@;
        match section.section_type {
            SectionType64::Symtab => {
                if symtab.is_some() {
                    proof {
                        sub.push(s[i as int]).lemma_filter_monotone(s, symtab_pred());
                        assert(sub.push(s[i as int]).is_prefix_of(s));
                    }
                    return Err(ElfFileError::InvalidFileError);
                }
                index_map.push(None);
                symtab = Some(section);
            },
            SectionType64::Rela => {
                index_map.push(None);
                relas.push(section);
                assert(sections_view(relas@) =~= sections_view(before_r).push(s[i as int]));
            },
            SectionType64::Strtab => {
                index_map.push(None);
            },
            _ => {
                index_map.push(Some(primaries.len()));
                primaries.push(section);
                assert(sections_view(primaries@) =~= sections_view(before_p).push(s[i as int]));
            },
        }
        assert(index_map@ =~= index_map_spec(s).subrange(0, i + 1));
        i += 1;
    }
    assert(s.subrange(0, n as int) =~= s);
    let symtab = match symtab {
        Some(t) => t,
        None => {
            return Err(ElfFileError::InvalidFileError);
        },
    };
    let ghost map = index_map_spec(s);
    let ghost srelas = s.filter(rela_pred());
    let mut k: usize = 0;
    let m = relas.len();
    while k < m
        invariant
            k <= m,
            m == relas@.len(),
            index_map@ == map,
            map == index_map_spec(s),
            s == sections_view(sections@),
            s.len() == n,
            srelas == s.filter(rela_pred()),
            srelas.len() == m,
            forall|j: int| 0 <= j < k ==> (#[trigger] retarget_spec(srelas[j], map)) is Some,
            forall|j: int|
                0 <= j < k ==> relas@[j]@ == retarget_spec(srelas[j], map)->0,
            forall|j: int| k <= j < m ==> relas@[j]@ == srelas[j],
        decreases m - k,
    {
        let old_info = relas[k].info as usize;
        assert(relas@[k as int]@ == srelas[k as int]);
        if old_info >= index_map.len() {
            assert(retarget_spec(srelas[k as int], map) is None);
            return Err(ElfFileError::InvalidFileError);
        }
        match index_map[old_info] {
            Some(new_info) => {
                assert(s.subrange(0, old_info as int).filter(primary_pred()).len() <= old_info);
                let mut r = relas[k].duplicate();
                r.info = new_info as u32;
                relas.set(k, r);
            },
            None => {
                assert(retarget_spec(srelas[k as int], map) is None);
                return Err(ElfFileError::InvalidFileError);
            },
        }
        k += 1;
    }
    proof {
        assert(sections_view(relas@) =~= Seq::new(srelas.len(), |j: int| retarget_spec(srelas[j], map)->0));
    }
    Ok((primaries, symtab, relas, index_map))
}

} // verus!
