//! The link engine: merging an incoming object file into an accumulated
//! one, section by section and symbol by symbol, then putting the local
//! symbols first and renumbering the relocations.

use vstd::prelude::*;

use crate::elf::{ElfFile64, ElfFileError, ElfModel, ErrorModel};
use crate::relocation::{info_sym, info_type, RelocationA64};
use crate::section::{
    copy_bytes, copy_relocations, sections_view, Section64, SectionModel, SectionType64,
};
use crate::symbol::{binding_spec, symbols_view, Symbol64, SymbolModel, SHN_ABS, SHN_UNDEF};
use crate::utils::{
    align_up, last_index_of, lemma_last_index_of_some, next_aligned_value, section_index_by_name,
    section_names, symbol_index_by_name, symbol_names,
};

verus! {

/// The byte that pads a section up to its alignment: it traps when run as
/// x86-64 code.
pub const PADDING_BYTE: u8 = 0xff;

/// `n` padding bytes.
pub open spec fn padding(n: int) -> Seq<u8> {
    Seq::new(n as nat, |i: int| PADDING_BYTE)
}

/// `r` moved `by` bytes further into its section and marked as copied from
/// the incoming file.
pub open spec fn bias_relocation(r: RelocationA64, by: int) -> RelocationA64 {
    RelocationA64 {
        offset: ((r.offset + by) % 0x1_0000_0000_0000_0000) as u64,
        info: r.info,
        addend: r.addend,
        merged: true,
    }
}

pub open spec fn bias_relocations(rs: Seq<RelocationA64>, by: int) -> Seq<RelocationA64> {
    rs.map_values(|r: RelocationA64| bias_relocation(r, by))
}

/// The relocation list of a merged section: the existing records, then the
/// incoming ones moved by `by`.
pub open spec fn merged_relocations(
    existing: Option<Seq<RelocationA64>>,
    incoming: Option<Seq<RelocationA64>>,
    by: int,
) -> Option<Seq<RelocationA64>> {
    match incoming {
        None => existing,
        Some(rs) => match existing {
            None => Some(bias_relocations(rs, by)),
            Some(es) => Some(es + bias_relocations(rs, by)),
        },
    }
}

/// Merging section `s` onto section `e`: both must agree in alignment,
/// type, flags and address. The data of `e` is padded up to its alignment,
/// then `s`'s data follows; the result comes with the offset at which `s`'s
/// data now stands.
pub open spec fn merge_spec(e: SectionModel, s: SectionModel) -> Result<(SectionModel, int), ErrorModel> {
    if e.addralign != s.addralign || e.section_type != s.section_type || e.flags != s.flags
        || e.addr != s.addr {
        Err(ErrorModel::Conflict(s.name))
    } else if e.addralign > 1 && e.data.len() + e.addralign > usize::MAX {
        Err(ErrorModel::Invalid)
    } else {
        let at = align_up(e.data.len() as int, e.addralign as int);
        Ok(
            (
                SectionModel {
                    name: e.name,
                    section_type: e.section_type,
                    flags: e.flags,
                    addr: e.addr,
                    link: e.link,
                    info: e.info,
                    addralign: e.addralign,
                    data: e.data + padding(at - e.data.len()) + s.data,
                    relocations: merged_relocations(e.relocations, s.relocations, at),
                },
                at,
            ),
        )
    }
}

/// The padding between the data of section `e` and the incoming data of
/// section `s` is exactly `(-L) mod A` bytes of `0xFF`, where `L` is the
/// length of `e`'s data and `A >= 1` its alignment.
pub proof fn lemma_merge_padding(e: SectionModel, s: SectionModel)
    requires
        e.addralign >= 1,
        merge_spec(e, s) is Ok,
    ensures
        ({
            let (m, at) = merge_spec(e, s)->Ok_0;
            let len = e.data.len() as int;
            &&& at - len == (-len) % (e.addralign as int)
            &&& m.data == e.data + padding(at - len) + s.data
            &&& forall|i: int| len <= i < at ==> m.data[i] == PADDING_BYTE
        }),
{
    let len = e.data.len() as int;
    let a = e.addralign as int;
    let at = align_up(len, a);
    let r = len % a;
    vstd::arithmetic::div_mod::lemma_fundamental_div_mod(len, a);
    if a == 1 {
        vstd::arithmetic::div_mod::lemma_fundamental_div_mod_converse_mod(-len, a, -len, 0);
    } else if r == 0 {
        assert(-len == (-(len / a)) * a + 0) by (nonlinear_arith)
            requires
                len == a * (len / a) + r,
                r == 0,
        ;
        vstd::arithmetic::div_mod::lemma_fundamental_div_mod_converse_mod(-len, a, -(len / a), 0);
    } else {
        assert(-len == (-(len / a) - 1) * a + (a - r)) by (nonlinear_arith)
            requires
                len == a * (len / a) + r,
        ;
        vstd::arithmetic::div_mod::lemma_fundamental_div_mod_converse_mod(
            -len,
            a,
            -(len / a) - 1,
            a - r,
        );
    }
    let m = merge_spec(e, s)->Ok_0.0;
    assert forall|i: int| len <= i < at implies m.data[i] == PADDING_BYTE by {
        assert(m.data[i] == padding(at - len)[i - len]);
    }
}

/// Copies the relocations `rs` onto the end of `out`, each moved `by` bytes
/// and marked as copied from the incoming file.
fn push_biased_relocations(out: &mut Vec<RelocationA64>, rs: &Vec<RelocationA64>, by: u64)
    ensures
        final(out)@ == old(out)@ + bias_relocations(rs@, by as int),
{
    let ghost start = out@;
    let mut i: usize = 0;
    while i < rs.len()
        invariant
            i <= rs@.len(),
            out@ == start + bias_relocations(rs@.subrange(0, i as int), by as int),
        decreases rs@.len() - i,
    {
        let r = rs[i];
        let moved = RelocationA64 {
            offset: r.offset.wrapping_add(by),
            info: r.info,
            addend: r.addend,
            merged: true,
        };
        out.push(moved);
        assert(bias_relocations(rs@.subrange(0, i + 1), by as int) =~= bias_relocations(
            rs@.subrange(0, i as int),
            by as int,
        ).push(bias_relocation(r, by as int)));
        i += 1;
    }
    assert(rs@.subrange(0, rs@.len() as int) =~= rs@);
}

impl Section64 {
    /// Merges `other` onto this section and returns the offset at which its
    /// data now stands.
    pub fn merge(&mut self, other: &Section64) -> (r: Result<usize, ElfFileError>)
        ensures
            match r {
                Ok(at) => merge_spec(old(self)@, other@) == Ok::<(SectionModel, int), ErrorModel>(
                    (final(self)@, at as int),
                ),
                Err(x) => merge_spec(old(self)@, other@) == Err::<(SectionModel, int), ErrorModel>(
                    x@,
                ) && final(self)@ == old(self)@,
            },
    {
        if self.addralign != other.addralign || self.section_type != other.section_type
            || self.flags != other.flags || self.addr != other.addr {
            return Err(ElfFileError::MergeConflict(copy_bytes(&other.name)));
        }
        let len = self.data.len();
        let align = self.addralign;
        if align > 1 && align > (usize::MAX - len) as u64 {
            return Err(ElfFileError::InvalidFileError);
        }
        let at = next_aligned_value(len, align as usize);
        let mut data: Vec<u8> = Vec::new();
        std::mem::swap(&mut data, &mut self.data);
        let ghost before = data@;
        while data.len() < at
            invariant
                len <= data@.len() <= at,
                data@ == before + padding(data@.len() - len),
            decreases at - data@.len(),
        {
            let ghost n = data@.len() - len;
            data.push(PADDING_BYTE);
            assert(padding(n + 1) =~= padding(n).push(PADDING_BYTE));
        }
        let ghost padded = data@;
        let mut i: usize = 0;
        while i < other.data.len()
            invariant
                i <= other.data@.len(),
                data@ == padded + other.data@.subrange(0, i as int),
            decreases other.data@.len() - i,
        {
            data.push(other.data[i]);
            i += 1;
            assert(data@ =~= padded + other.data@.subrange(0, i as int));
        }
        assert(other.data@.subrange(0, other.data@.len() as int) =~= other.data@);
        self.data = data;
        assert(at as int == align_up(len as int, old(self).addralign as int));
        assert(self.data@ == old(self).data@ + padding(at - len) + other.data@);
        match &other.relocations {
            None => {},
            Some(rs) => {
                let mut existing = match &self.relocations {
                    Some(es) => copy_relocations(es),
                    None => Vec::new(),
                };
                push_biased_relocations(&mut existing, rs, at as u64);
                self.relocations = Some(existing);
            },
        }
        Ok(at)
    }
}

/// The accumulated sections after the section pass, with, for each incoming
/// section, the index it went to and the offset its data stands at there.
pub ghost struct SectionMerge {
    pub sections: Seq<SectionModel>,
    pub targets: Seq<int>,
    pub offsets: Seq<int>,
}

/// An incoming section appended as it is: its relocations, if any, are
/// marked as copied from the incoming file.
pub open spec fn appended_section(s: SectionModel) -> SectionModel {
    SectionModel {
        name: s.name,
        section_type: s.section_type,
        flags: s.flags,
        addr: s.addr,
        link: s.link,
        info: s.info,
        addralign: s.addralign,
        data: s.data,
        relocations: match s.relocations {
            Some(rs) => Some(bias_relocations(rs, 0)),
            None => None,
        },
    }
}

/// One step of the section pass: the incoming section `s` is merged onto the last
/// accumulated section of its name, or appended when there is none.
pub open spec fn merge_section_step(m: SectionMerge, s: SectionModel) -> Result<SectionMerge, ErrorModel> {
    match last_index_of(section_names(m.sections), s.name) {
        None => Ok(
            SectionMerge {
                sections: m.sections.push(appended_section(s)),
                targets: m.targets.push(m.sections.len() as int),
                offsets: m.offsets.push(0),
            },
        ),
        Some(j) => match merge_spec(m.sections[j], s) {
            Ok((merged, at)) => Ok(
                SectionMerge {
                    sections: m.sections.update(j, merged),
                    targets: m.targets.push(j),
                    offsets: m.offsets.push(at),
                },
            ),
            Err(x) => Err(x),
        },
    }
}

/// The section pass: the incoming sections `b`, in order, merged into `a`.
pub open spec fn merge_sections_spec(a: Seq<SectionModel>, b: Seq<SectionModel>) -> Result<
    SectionMerge,
    ErrorModel,
>
    decreases b.len(),
{
    if b.len() == 0 {
        Ok(SectionMerge { sections: a, targets: Seq::empty(), offsets: Seq::empty() })
    } else {
        match merge_sections_spec(a, b.drop_last()) {
            Ok(m) => merge_section_step(m, b.last()),
            Err(x) => Err(x),
        }
    }
}

/// Once the section pass fails on a prefix of the incoming sections, it fails the
/// same way on all of them.
proof fn lemma_merge_sections_err(a: Seq<SectionModel>, b: Seq<SectionModel>, j: int)
    requires
        0 <= j <= b.len(),
        merge_sections_spec(a, b.subrange(0, j)) is Err,
    ensures
        merge_sections_spec(a, b) == merge_sections_spec(a, b.subrange(0, j)),
    decreases b.len() - j,
{
    if j < b.len() {
        assert(b.subrange(0, j + 1).drop_last() =~= b.subrange(0, j));
        lemma_merge_sections_err(a, b, j + 1);
    } else {
        assert(b.subrange(0, j) =~= b);
    }
}

/// A copy of `s` whose relocations are marked as copied from the incoming
/// file.
fn appended_copy(s: &Section64) -> (r: Section64)
    ensures
        r@ == appended_section(s@),
{
    let relocations = match &s.relocations {
        Some(rs) => {
            let mut out: Vec<RelocationA64> = Vec::new();
            push_biased_relocations(&mut out, rs, 0);
            assert(out@ =~= bias_relocations(rs@, 0));
            Some(out)
        },
        None => None,
    };
    Section64 {
        name: copy_bytes(&s.name),
        section_type: s.section_type,
        flags: s.flags,
        addr: s.addr,
        link: s.link,
        info: s.info,
        addralign: s.addralign,
        data: copy_bytes(&s.data),
        relocations,
    }
}

/// The section pass: merges the sections `incoming` into `sections` and returns, for
/// each incoming section, where it went and at which offset.
fn merge_sections(sections: &mut Vec<Section64>, incoming: &Vec<Section64>) -> (r: Result<
    (Vec<usize>, Vec<usize>),
    ElfFileError,
>)
    ensures
        match r {
            Ok((targets, offsets)) => merge_sections_spec(
                sections_view(old(sections)@),
                sections_view(incoming@),
            ) == Ok::<SectionMerge, ErrorModel>(
                SectionMerge {
                    sections: sections_view(final(sections)@),
                    targets: targets@.map_values(|t: usize| t as int),
                    offsets: offsets@.map_values(|o: usize| o as int),
                },
            ),
            Err(x) => merge_sections_spec(sections_view(old(sections)@), sections_view(incoming@))
                == Err::<SectionMerge, ErrorModel>(x@),
        },
{
    let ghost a = sections_view(sections@);
    let ghost b = sections_view(incoming@);
    let mut targets: Vec<usize> = Vec::new();
    let mut offsets: Vec<usize> = Vec::new();
    let mut i: usize = 0;
    assert(b.subrange(0, 0) =~= Seq::<SectionModel>::empty());
    assert(targets@.map_values(|t: usize| t as int) =~= Seq::<int>::empty());
    assert(offsets@.map_values(|o: usize| o as int) =~= Seq::<int>::empty());
    while i < incoming.len()
        invariant
            i <= incoming@.len(),
            targets@.len() == i,
            offsets@.len() == i,
            a == sections_view(old(sections)@),
            b == sections_view(incoming@),
            merge_sections_spec(a, b.subrange(0, i as int)) == Ok::<SectionMerge, ErrorModel>(
                SectionMerge {
                    sections: sections_view(sections@),
                    targets: targets@.map_values(|t: usize| t as int),
                    offsets: offsets@.map_values(|o: usize| o as int),
                },
            ),
        decreases incoming@.len() - i,
    {
        let s = &incoming[i];
        assert(b.subrange(0, i + 1).drop_last() =~= b.subrange(0, i as int));
        assert(b.subrange(0, i + 1).last() == s@);
        let ghost m = SectionMerge {
            sections: sections_view(sections@),
            targets: targets@.map_values(|t: usize| t as int),
            offsets: offsets@.map_values(|o: usize| o as int),
        };
        let ghost before_t = targets@;
        let ghost before_o = offsets@;
        match section_index_by_name(sections, &s.name) {
            None => {
                let ghost before = sections@;
                targets.push(sections.len());
                offsets.push(0);
                let copy = appended_copy(s);
                sections.push(copy);
                assert(sections_view(sections@) =~= sections_view(before).push(appended_section(s@)));
            },
            Some(j) => {
                let ghost before = sections@;
                let mut e = sections[j].duplicate();
                match e.merge(s) {
                    Ok(at) => {
                        let ghost ev = e@;
                        sections.set(j, e);
                        assert(sections_view(sections@) =~= sections_view(before).update(j as int, ev));
                        targets.push(j);
                        offsets.push(at);
                    },
                    Err(x) => {
                        proof {
                            lemma_merge_sections_err(a, b, i + 1);
                        }
                        return Err(x);
                    },
                }
            },
        }
        assert(targets@.map_values(|t: usize| t as int) =~= m.targets.push(
            targets@[i as int] as int,
        ));
        assert(offsets@.map_values(|o: usize| o as int) =~= m.offsets.push(
            offsets@[i as int] as int,
        ));
        i += 1;
    }
    assert(b.subrange(0, incoming@.len() as int) =~= b);
    Ok((targets, offsets))
}

/// The accumulated symbols after the symbol pass, with, for each incoming symbol,
/// the index of the accumulated symbol it became or resolved to, or `-1`
/// for a skipped one.
pub ghost struct SymbolMerge {
    pub symbols: Seq<SymbolModel>,
    pub targets: Seq<int>,
}

/// Incoming symbol `s` carried into the accumulated sections: a defined,
/// non-absolute symbol moves to the section its own went to, its value
/// moved by the offset its section's data now stands at.
pub open spec fn remap_symbol(s: SymbolModel, targets: Seq<int>, offsets: Seq<int>) -> Result<
    SymbolModel,
    ErrorModel,
> {
    if s.shndx == SHN_UNDEF || s.shndx == SHN_ABS {
        Ok(s)
    } else if (s.shndx as int) < targets.len() && (s.shndx as int) < offsets.len() && 0
        <= targets[s.shndx as int] <= 0xffff {
        Ok(
            SymbolModel {
                name: s.name,
                info: s.info,
                other: s.other,
                shndx: targets[s.shndx as int] as u16,
                value: ((s.value + offsets[s.shndx as int]) % 0x1_0000_0000_0000_0000) as u64,
                size: s.size,
            },
        )
    } else {
        Err(ErrorModel::Invalid)
    }
}

/// One step of the symbol pass, for incoming symbol `s` at index `i`. The null
/// symbol (index 0, empty name) resolves to the accumulated null symbol. Any
/// other symbol with an empty name is skipped and resolves to no symbol (`-1`). A named symbol whose
/// name is already defined resolves to the last symbol of that name: two
/// definitions clash, a definition replaces an undefined symbol, and an
/// undefined symbol takes the existing one. Any other symbol is appended.
pub open spec fn merge_symbol_step(
    m: SymbolMerge,
    s: SymbolModel,
    i: int,
    targets: Seq<int>,
    offsets: Seq<int>,
) -> Result<SymbolMerge, ErrorModel> {
    if i == 0 && s.name.len() == 0 {
        Ok(SymbolMerge { symbols: m.symbols, targets: m.targets.push(0) })
    } else if s.name.len() == 0 {
        Ok(SymbolMerge { symbols: m.symbols, targets: m.targets.push(-1) })
    } else if last_index_of(symbol_names(m.symbols), s.name) is Some {
        let j = last_index_of(symbol_names(m.symbols), s.name)->0;
        let t = m.symbols[j];
        if t.shndx != SHN_UNDEF && s.shndx != SHN_UNDEF {
            Err(ErrorModel::Conflict(s.name))
        } else if t.shndx == SHN_UNDEF && s.shndx != SHN_UNDEF {
            match remap_symbol(s, targets, offsets) {
                Ok(r) => Ok(SymbolMerge { symbols: m.symbols.update(j, r), targets: m.targets.push(j) }),
                Err(x) => Err(x),
            }
        } else {
            Ok(SymbolMerge { symbols: m.symbols, targets: m.targets.push(j) })
        }
    } else {
        match remap_symbol(s, targets, offsets) {
            Ok(r) => Ok(
                SymbolMerge {
                    symbols: m.symbols.push(r),
                    targets: m.targets.push(m.symbols.len() as int),
                },
            ),
            Err(x) => Err(x),
        }
    }
}

/// A definition that meets an undefined symbol of its name replaces it;
/// an undefined symbol that meets a definition of its name leaves the
/// definition in place. Either way the symbol of that name ends up being
/// the definition.
pub proof fn lemma_undefined_meets_defined(
    m: SymbolMerge,
    s: SymbolModel,
    i: int,
    targets: Seq<int>,
    offsets: Seq<int>,
)
    requires
        s.name.len() > 0,
        last_index_of(symbol_names(m.symbols), s.name) is Some,
    ensures
        ({
            let j = last_index_of(symbol_names(m.symbols), s.name)->0;
            let t = m.symbols[j];
            &&& (t.shndx == SHN_UNDEF && s.shndx != SHN_UNDEF && remap_symbol(s, targets, offsets) is Ok)
                ==> merge_symbol_step(m, s, i, targets, offsets) == Ok::<SymbolMerge, ErrorModel>(
                SymbolMerge {
                    symbols: m.symbols.update(j, remap_symbol(s, targets, offsets)->Ok_0),
                    targets: m.targets.push(j),
                },
            )
            &&& (t.shndx != SHN_UNDEF && s.shndx == SHN_UNDEF) ==> merge_symbol_step(
                m,
                s,
                i,
                targets,
                offsets,
            ) == Ok::<SymbolMerge, ErrorModel>(
                SymbolMerge { symbols: m.symbols, targets: m.targets.push(j) },
            )
            &&& m.symbols[j].name == s.name
        }),
{
    lemma_last_index_of_some(symbol_names(m.symbols), s.name);
}

/// The symbol pass: the incoming symbols `b`, in order, merged into `a`.
pub open spec fn merge_symbols_spec(
    a: Seq<SymbolModel>,
    b: Seq<SymbolModel>,
    targets: Seq<int>,
    offsets: Seq<int>,
) -> Result<SymbolMerge, ErrorModel>
    decreases b.len(),
{
    if b.len() == 0 {
        Ok(SymbolMerge { symbols: a, targets: Seq::empty() })
    } else {
        match merge_symbols_spec(a, b.drop_last(), targets, offsets) {
            Ok(m) => merge_symbol_step(m, b.last(), b.len() - 1, targets, offsets),
            Err(x) => Err(x),
        }
    }
}

proof fn lemma_merge_symbols_err(
    a: Seq<SymbolModel>,
    b: Seq<SymbolModel>,
    targets: Seq<int>,
    offsets: Seq<int>,
    j: int,
)
    requires
        0 <= j <= b.len(),
        merge_symbols_spec(a, b.subrange(0, j), targets, offsets) is Err,
    ensures
        merge_symbols_spec(a, b, targets, offsets) == merge_symbols_spec(
            a,
            b.subrange(0, j),
            targets,
            offsets,
        ),
    decreases b.len() - j,
{
    if j < b.len() {
        assert(b.subrange(0, j + 1).drop_last() =~= b.subrange(0, j));
        lemma_merge_symbols_err(a, b, targets, offsets, j + 1);
    } else {
        assert(b.subrange(0, j) =~= b);
    }
}

/// The symbol indices that `map` holds, `-1` standing for a skipped symbol.
pub open spec fn symbol_targets(map: Seq<Option<usize>>) -> Seq<int> {
    Seq::new(
        map.len(),
        |i: int|
            match map[i] {
                Some(t) => t as int,
                None => -1,
            },
    )
}

/// Carries incoming symbol `s` into the accumulated sections.
fn remap_symbol_exec(s: &Symbol64, targets: &Vec<usize>, offsets: &Vec<usize>) -> (r: Result<
    Symbol64,
    ElfFileError,
>)
    ensures
        match r {
            Ok(x) => remap_symbol(
                s@,
                targets@.map_values(|t: usize| t as int),
                offsets@.map_values(|o: usize| o as int),
            ) == Ok::<SymbolModel, ErrorModel>(x@),
            Err(x) => remap_symbol(
                s@,
                targets@.map_values(|t: usize| t as int),
                offsets@.map_values(|o: usize| o as int),
            ) == Err::<SymbolModel, ErrorModel>(x@),
        },
{
    if s.shndx == SHN_UNDEF || s.shndx == SHN_ABS {
        return Ok(s.duplicate());
    }
    let k = s.shndx as usize;
    if k >= targets.len() || k >= offsets.len() || targets[k] > 0xffff {
        return Err(ElfFileError::InvalidFileError);
    }
    Ok(
        Symbol64 {
            name: copy_bytes(&s.name),
            info: s.info,
            other: s.other,
            shndx: targets[k] as u16,
            value: s.value.wrapping_add(offsets[k] as u64),
            size: s.size,
        },
    )
}

/// The symbol pass: merges the symbols `incoming` into `symbols` and returns, for
/// each incoming symbol, the index it became or resolved to.
fn merge_symbols(
    symbols: &mut Vec<Symbol64>,
    incoming: &Vec<Symbol64>,
    targets: &Vec<usize>,
    offsets: &Vec<usize>,
) -> (r: Result<Vec<Option<usize>>, ElfFileError>)
    ensures
        match r {
            Ok(map) => merge_symbols_spec(
                symbols_view(old(symbols)@),
                symbols_view(incoming@),
                targets@.map_values(|t: usize| t as int),
                offsets@.map_values(|o: usize| o as int),
            ) == Ok::<SymbolMerge, ErrorModel>(
                SymbolMerge {
                    symbols: symbols_view(final(symbols)@),
                    targets: symbol_targets(map@),
                },
            ),
            Err(x) => merge_symbols_spec(
                symbols_view(old(symbols)@),
                symbols_view(incoming@),
                targets@.map_values(|t: usize| t as int),
                offsets@.map_values(|o: usize| o as int),
            ) == Err::<SymbolMerge, ErrorModel>(x@),
        },
{
    let ghost a = symbols_view(symbols@);
    let ghost b = symbols_view(incoming@);
    let ghost ts = targets@.map_values(|t: usize| t as int);
    let ghost os = offsets@.map_values(|o: usize| o as int);
    let mut map: Vec<Option<usize>> = Vec::new();
    let mut i: usize = 0;
    assert(b.subrange(0, 0) =~= Seq::<SymbolModel>::empty());
    assert(symbol_targets(map@) =~= Seq::<int>::empty());
    while i < incoming.len()
        invariant
            i <= incoming@.len(),
            map@.len() == i,
            a == symbols_view(old(symbols)@),
            b == symbols_view(incoming@),
            ts == targets@.map_values(|t: usize| t as int),
            os == offsets@.map_values(|o: usize| o as int),
            merge_symbols_spec(a, b.subrange(0, i as int), ts, os) == Ok::<SymbolMerge, ErrorModel>(
                SymbolMerge {
                    symbols: symbols_view(symbols@),
                    targets: symbol_targets(map@),
                },
            ),
        decreases incoming@.len() - i,
    {
        let s = &incoming[i];
        assert(b.subrange(0, i + 1).drop_last() =~= b.subrange(0, i as int));
        assert(b.subrange(0, i + 1).last() == s@);
        let ghost m = SymbolMerge {
            symbols: symbols_view(symbols@),
            targets: symbol_targets(map@),
        };
        let ghost before = symbols@;
        let found = if s.name.len() == 0 {
            None
        } else {
            symbol_index_by_name(symbols, &s.name)
        };
        if i == 0 && s.name.len() == 0 {
            map.push(Some(0));
        } else if s.name.len() == 0 {
            map.push(None);
        } else if let Some(j) = found {
            let t_undef = symbols[j].shndx == SHN_UNDEF;
            let s_undef = s.shndx == SHN_UNDEF;
            if !t_undef && !s_undef {
                proof {
                    lemma_merge_symbols_err(a, b, ts, os, i + 1);
                }
                return Err(ElfFileError::MergeConflict(copy_bytes(&s.name)));
            } else if t_undef && !s_undef {
                match remap_symbol_exec(s, targets, offsets) {
                    Ok(r) => {
                        let ghost rv = r@;
                        symbols.set(j, r);
                        assert(symbols_view(symbols@) =~= symbols_view(before).update(j as int, rv));
                    },
                    Err(x) => {
                        proof {
                            lemma_merge_symbols_err(a, b, ts, os, i + 1);
                        }
                        return Err(x);
                    },
                }
                map.push(Some(j));
            } else {
                map.push(Some(j));
            }
        } else {
            match remap_symbol_exec(s, targets, offsets) {
                Ok(r) => {
                    let ghost rv = r@;
                    map.push(Some(symbols.len()));
                    symbols.push(r);
                    assert(symbols_view(symbols@) =~= symbols_view(before).push(rv));
                },
                Err(x) => {
                    proof {
                        lemma_merge_symbols_err(a, b, ts, os, i + 1);
                    }
                    return Err(x);
                },
            }
        }
        assert(symbol_targets(map@) =~= m.targets.push(symbol_targets(map@)[i as int]));
        i += 1;
    }
    assert(b.subrange(0, incoming@.len() as int) =~= b);
    Ok(map)
}

/// A symbol of local binding.
pub open spec fn is_local(s: SymbolModel) -> bool {
    binding_spec(s.info) == 0
}

pub open spec fn local_pred() -> spec_fn(SymbolModel) -> bool {
    |s: SymbolModel| is_local(s)
}

pub open spec fn nonlocal_pred() -> spec_fn(SymbolModel) -> bool {
    |s: SymbolModel| !is_local(s)
}

/// The symbols `syms` with the local ones first: the null symbol stays at
/// index 0, and each group keeps its order.
pub open spec fn reorder_spec(syms: Seq<SymbolModel>) -> Seq<SymbolModel> {
    if syms.len() == 0 {
        syms
    } else {
        let rest = syms.subrange(1, syms.len() as int);
        seq![syms[0]] + rest.filter(local_pred()) + rest.filter(nonlocal_pred())
    }
}

/// The index that symbol `old` of `syms` takes in `reorder_spec(syms)`.
pub open spec fn new_index_spec(syms: Seq<SymbolModel>, old: int) -> int {
    if old == 0 {
        0
    } else if is_local(syms[old]) {
        1 + syms.subrange(1, old).filter(local_pred()).len() as int
    } else {
        1 + syms.subrange(1, syms.len() as int).filter(local_pred()).len() as int + syms.subrange(
            1,
            old,
        ).filter(nonlocal_pred()).len() as int
    }
}

/// Relocation `r` pointed at the reordered symbols. A record copied from
/// the incoming file first goes through `map`, from incoming to accumulated
/// symbol indices.
pub open spec fn reindex_relocation(r: RelocationA64, syms: Seq<SymbolModel>, map: Seq<int>) -> Option<
    RelocationA64,
> {
    let old = info_sym(r.info) as int;
    let pre = if r.merged {
        if old < map.len() {
            map[old]
        } else {
            -1
        }
    } else {
        old
    };
    if 0 <= pre < syms.len() && new_index_spec(syms, pre) < 0x1_0000_0000 {
        Some(
            RelocationA64 {
                offset: r.offset,
                info: (new_index_spec(syms, pre) * 0x1_0000_0000 + info_type(r.info)) as u64,
                addend: r.addend,
                merged: false,
            },
        )
    } else {
        None
    }
}

/// Section `sec` with each of its relocations reindexed.
pub open spec fn reindex_section(sec: SectionModel, syms: Seq<SymbolModel>, map: Seq<int>) -> Option<
    SectionModel,
> {
    match sec.relocations {
        None => Some(sec),
        Some(rs) => if forall|k: int|
            0 <= k < rs.len() ==> (#[trigger] reindex_relocation(rs[k], syms, map)) is Some {
            Some(
                SectionModel {
                    name: sec.name,
                    section_type: sec.section_type,
                    flags: sec.flags,
                    addr: sec.addr,
                    link: sec.link,
                    info: sec.info,
                    addralign: sec.addralign,
                    data: sec.data,
                    relocations: Some(
                        Seq::new(rs.len(), |k: int| reindex_relocation(rs[k], syms, map)->0),
                    ),
                },
            )
        } else {
            None
        },
    }
}

/// Every section of `secs` with its relocations reindexed.
pub open spec fn reindex_sections_spec(
    secs: Seq<SectionModel>,
    syms: Seq<SymbolModel>,
    map: Seq<int>,
) -> Option<Seq<SectionModel>> {
    if forall|i: int| 0 <= i < secs.len() ==> (#[trigger] reindex_section(secs[i], syms, map)) is Some {
        Some(Seq::new(secs.len(), |i: int| reindex_section(secs[i], syms, map)->0))
    } else {
        None
    }
}

/// Each symbol is local or not.
proof fn lemma_partition_len(s: Seq<SymbolModel>)
    ensures
        s.filter(local_pred()).len() + s.filter(nonlocal_pred()).len() == s.len(),
    decreases s.len(),
{
    reveal(Seq::filter);
    if s.len() > 0 {
        lemma_partition_len(s.drop_last());
    }
}

/// Reordering moves each symbol to the index `new_index_spec` gives it, so
/// a relocation renumbered through `new_index_spec` still names the same
/// symbol.
pub proof fn lemma_new_index_names_same_symbol(syms: Seq<SymbolModel>, k: int)
    requires
        0 <= k < syms.len(),
    ensures
        0 <= new_index_spec(syms, k) < reorder_spec(syms).len(),
        reorder_spec(syms)[new_index_spec(syms, k)] == syms[k],
{
    broadcast use Seq::lemma_filter_push;

    let n = syms.len() as int;
    let rest = syms.subrange(1, n);
    let l = rest.filter(local_pred());
    let nl = rest.filter(nonlocal_pred());
    let r = reorder_spec(syms);
    lemma_partition_len(rest);
    if k > 0 {
        let sub = syms.subrange(1, k);
        let sub1 = syms.subrange(1, k + 1);
        assert(sub1 =~= sub.push(syms[k]));
        sub.lemma_filter_push(syms[k], local_pred());
        sub.lemma_filter_push(syms[k], nonlocal_pred());
        sub1.lemma_filter_monotone(rest, local_pred());
        sub1.lemma_filter_monotone(rest, nonlocal_pred());
        assert(sub1.is_prefix_of(rest));
        if is_local(syms[k]) {
            let j = sub.filter(local_pred()).len() as int;
            assert(sub1.filter(local_pred())[j] == syms[k]);
            assert(l[j] == syms[k]);
            assert(r[1 + j] == l[j]);
        } else {
            let j = sub.filter(nonlocal_pred()).len() as int;
            assert(sub1.filter(nonlocal_pred())[j] == syms[k]);
            assert(nl[j] == syms[k]);
            assert(r[1 + l.len() + j] == nl[j]);
        }
    }
}

/// Puts the local symbols of `symbols` first, keeping the null symbol at
/// index 0 and the order within each group; returns the new order and the
/// new index of each old one.
fn reorder_symbols(symbols: &Vec<Symbol64>) -> (r: (Vec<Symbol64>, Vec<usize>))
    ensures
        symbols_view(r.0@) == reorder_spec(symbols_view(symbols@)),
        r.1@.len() == symbols@.len(),
        forall|k: int|
            0 <= k < symbols@.len() ==> r.1@[k] as int == new_index_spec(symbols_view(symbols@), k),
{
    broadcast use Seq::lemma_filter_push, Seq::lemma_filter_len;

    let ghost syms = symbols_view(symbols@);
    let n = symbols.len();
    if n == 0 {
        return (Vec::new(), Vec::new());
    }
    let mut locals: Vec<Symbol64> = Vec::new();
    let mut nonlocals: Vec<Symbol64> = Vec::new();
    let mut k: usize = 1;
    assert(syms.subrange(1, 1).filter(local_pred()) =~= Seq::<SymbolModel>::empty()) by {
        reveal(Seq::filter);
    }
    assert(syms.subrange(1, 1).filter(nonlocal_pred()) =~= Seq::<SymbolModel>::empty()) by {
        reveal(Seq::filter);
    }
    while k < n
        invariant
            1 <= k <= n,
            n == symbols@.len(),
            syms == symbols_view(symbols@),
            symbols_view(locals@) == syms.subrange(1, k as int).filter(local_pred()),
            symbols_view(nonlocals@) == syms.subrange(1, k as int).filter(nonlocal_pred()),
        decreases n - k,
    {
        let ghost sub = syms.subrange(1, k as int);
        assert(syms.subrange(1, k + 1) =~= sub.push(syms[k as int]));
        proof {
            sub.lemma_filter_push(syms[k as int], local_pred());
            sub.lemma_filter_push(syms[k as int], nonlocal_pred());
        }
        let s = symbols[k].duplicate();
        assert(s@ == syms[k as int]);
        let ghost sv = s@;
        if s.info / 16 == 0 {
            let ghost before = locals@;
            locals.push(s);
            assert(symbols_view(locals@) =~= symbols_view(before).push(sv));
        } else {
            let ghost before = nonlocals@;
            nonlocals.push(s);
            assert(symbols_view(nonlocals@) =~= symbols_view(before).push(sv));
        }
        k += 1;
    }
    let n_locals = locals.len();
    let mut new_index: Vec<usize> = Vec::new();
    new_index.push(0);
    let mut lc: usize = 0;
    let mut nc: usize = 0;
    let mut k: usize = 1;
    proof {
        lemma_partition_len(syms.subrange(1, n as int));
    }
    while k < n
        invariant
            1 <= k <= n,
            n == symbols@.len(),
            syms == symbols_view(symbols@),
            n_locals == syms.subrange(1, n as int).filter(local_pred()).len(),
            n_locals + syms.subrange(1, n as int).filter(nonlocal_pred()).len() == n - 1,
            lc == syms.subrange(1, k as int).filter(local_pred()).len(),
            nc == syms.subrange(1, k as int).filter(nonlocal_pred()).len(),
            lc + nc == k - 1,
            new_index@.len() == k,
            forall|j: int| 0 <= j < k ==> new_index@[j] as int == new_index_spec(syms, j),
        decreases n - k,
    {
        let ghost sub = syms.subrange(1, k as int);
        assert(syms.subrange(1, k + 1) =~= sub.push(syms[k as int]));
        proof {
            sub.lemma_filter_push(syms[k as int], local_pred());
            sub.lemma_filter_push(syms[k as int], nonlocal_pred());
            sub.lemma_filter_len_push(local_pred(), syms[k as int]);
            sub.lemma_filter_len_push(nonlocal_pred(), syms[k as int]);
        }
        assert(symbols@[k as int].info == syms[k as int].info);
        proof {
            syms.subrange(1, k + 1).lemma_filter_monotone(syms.subrange(1, n as int), nonlocal_pred());
            assert(syms.subrange(1, k + 1).is_prefix_of(syms.subrange(1, n as int)));
        }
        if symbols[k].info / 16 == 0 {
            new_index.push(1 + lc);
            lc += 1;
        } else {
            new_index.push(1 + n_locals + nc);
            nc += 1;
        }
        k += 1;
    }
    let mut out: Vec<Symbol64> = Vec::new();
    out.push(symbols[0].duplicate());
    let ghost first = out@;
    let mut i: usize = 0;
    while i < locals.len()
        invariant
            i <= locals@.len(),
            symbols_view(out@) == symbols_view(first) + symbols_view(locals@).subrange(0, i as int),
        decreases locals@.len() - i,
    {
        let d = locals[i].duplicate();
        let ghost before = out@;
        let ghost dv = d@;
        out.push(d);
        assert(symbols_view(out@) =~= symbols_view(before).push(dv));
        assert(symbols_view(locals@).subrange(0, i + 1) =~= symbols_view(locals@).subrange(0, i as int).push(dv));
        assert(symbols_view(out@) =~= symbols_view(first) + symbols_view(locals@).subrange(0, i + 1));
        i += 1;
    }
    assert(symbols_view(locals@).subrange(0, locals@.len() as int) =~= symbols_view(locals@));
    let ghost second = out@;
    let mut i: usize = 0;
    while i < nonlocals.len()
        invariant
            i <= nonlocals@.len(),
            symbols_view(out@) == symbols_view(second) + symbols_view(nonlocals@).subrange(0, i as int),
        decreases nonlocals@.len() - i,
    {
        let d = nonlocals[i].duplicate();
        let ghost before = out@;
        let ghost dv = d@;
        out.push(d);
        assert(symbols_view(out@) =~= symbols_view(before).push(dv));
        assert(symbols_view(nonlocals@).subrange(0, i + 1) =~= symbols_view(nonlocals@).subrange(0, i as int).push(dv));
        assert(symbols_view(out@) =~= symbols_view(second) + symbols_view(nonlocals@).subrange(0, i + 1));
        i += 1;
    }
    assert(symbols_view(nonlocals@).subrange(0, nonlocals@.len() as int) =~= symbols_view(nonlocals@));
    assert(symbols_view(first) =~= seq![syms[0]]);
    assert(symbols_view(out@) =~= reorder_spec(syms));
    (out, new_index)
}

/// Points relocation `r` at the reordered symbols.
fn reindex_relocation_exec(
    r: &RelocationA64,
    syms: &Vec<Symbol64>,
    new_index: &Vec<usize>,
    map: &Vec<Option<usize>>,
) -> (out: Option<RelocationA64>)
    requires
        new_index@.len() == syms@.len(),
        forall|k: int|
            0 <= k < syms@.len() ==> new_index@[k] as int == new_index_spec(symbols_view(syms@), k),
    ensures
        out == reindex_relocation(*r, symbols_view(syms@), symbol_targets(map@)),
{
    let old = r.get_sym();
    let kind = r.get_type();
    let pre = if r.merged {
        if old >= map.len() {
            return None;
        }
        match map[old] {
            Some(p) => p,
            None => {
                return None;
            },
        }
    } else {
        old
    };
    if pre >= new_index.len() {
        return None;
    }
    let n = new_index[pre];
    if n as u64 >= 0x1_0000_0000u64 {
        return None;
    }
    let mut moved = *r;
    moved.set_info(n, kind);
    moved.merged = false;
    Some(moved)
}

/// The reordering pass on the sections: points every relocation at the reordered
/// symbols.
fn reindex_sections(
    sections: &mut Vec<Section64>,
    syms: &Vec<Symbol64>,
    new_index: &Vec<usize>,
    map: &Vec<Option<usize>>,
) -> (ok: bool)
    requires
        new_index@.len() == syms@.len(),
        forall|k: int|
            0 <= k < syms@.len() ==> new_index@[k] as int == new_index_spec(symbols_view(syms@), k),
    ensures
        ok == reindex_sections_spec(
            sections_view(old(sections)@),
            symbols_view(syms@),
            symbol_targets(map@),
        ) is Some,
        ok ==> sections_view(final(sections)@) == reindex_sections_spec(
            sections_view(old(sections)@),
            symbols_view(syms@),
            symbol_targets(map@),
        )->0,
{
    let ghost secs = sections_view(sections@);
    let ghost sv = symbols_view(syms@);
    let ghost mv = symbol_targets(map@);
    let mut i: usize = 0;
    while i < sections.len()
        invariant
            i <= sections@.len(),
            secs.len() == sections@.len(),
            new_index@.len() == syms@.len(),
            forall|k: int|
                0 <= k < syms@.len() ==> new_index@[k] as int == new_index_spec(symbols_view(syms@), k),
            sv == symbols_view(syms@),
            mv == symbol_targets(map@),
            secs == sections_view(old(sections)@),
            forall|j: int| 0 <= j < i ==> (#[trigger] reindex_section(secs[j], sv, mv)) is Some,
            forall|j: int| 0 <= j < i ==> sections@[j]@ == reindex_section(secs[j], sv, mv)->0,
            forall|j: int| i <= j < sections@.len() ==> sections@[j]@ == secs[j],
        decreases sections@.len() - i,
    {
        assert(sections@[i as int]@ == secs[i as int]);
        let fresh = match &sections[i].relocations {
            None => None,
            Some(rs) => {
                let mut out: Vec<RelocationA64> = Vec::new();
                let mut k: usize = 0;
                while k < rs.len()
                    invariant
                        k <= rs@.len(),
                        new_index@.len() == syms@.len(),
                        forall|q: int|
                            0 <= q < syms@.len() ==> new_index@[q] as int == new_index_spec(
                                symbols_view(syms@),
                                q,
                            ),
                        sv == symbols_view(syms@),
                        mv == symbol_targets(map@),
                        i < secs.len(),
                        secs == sections_view(old(sections)@),
                        secs[i as int].relocations == Some(rs@),
                        out@.len() == k,
                        forall|q: int|
                            0 <= q < k ==> (#[trigger] reindex_relocation(rs@[q], sv, mv)) is Some,
                        forall|q: int| 0 <= q < k ==> out@[q] == reindex_relocation(rs@[q], sv, mv)->0,
                    decreases rs@.len() - k,
                {
                    match reindex_relocation_exec(&rs[k], syms, new_index, map) {
                        Some(r) => out.push(r),
                        None => {
                            assert(reindex_relocation(rs@[k as int], sv, mv) is None);
                            assert(reindex_section(secs[i as int], sv, mv) is None);
                            return false;
                        },
                    }
                    k += 1;
                }
                assert(out@ =~= Seq::new(rs@.len(), |q: int| reindex_relocation(rs@[q], sv, mv)->0));
                Some(out)
            },
        };
        assert(fresh is None <==> secs[i as int].relocations is None);
        assert(fresh is Some ==> reindex_section(secs[i as int], sv, mv) is Some
            && reindex_section(secs[i as int], sv, mv)->0.relocations == Some(fresh->0@));
        match fresh {
            None => {},
            Some(out) => {
                let mut sec = Section64 {
                    name: Vec::new(),
                    section_type: SectionType64::Null,
                    flags: 0,
                    addr: 0,
                    link: 0,
                    info: 0,
                    addralign: 0,
                    data: Vec::new(),
                    relocations: None,
                };
                let ghost before = sections@;
                std::mem::swap(&mut sec, &mut sections[i]);
                sec.relocations = Some(out);
                std::mem::swap(&mut sec, &mut sections[i]);
                assert(sections@[i as int]@ =~= reindex_section(secs[i as int], sv, mv)->0);
            },
        }
        i += 1;
    }
    assert(sections_view(sections@) =~= reindex_sections_spec(secs, sv, mv)->0);
    true
}

/// Linking object `b` into object `a`: the section pass merges the sections,
/// the symbol pass the symbols, and the reordering pass puts the local symbols first and points
/// every relocation at the reordered symbols.
pub open spec fn link_spec(a: ElfModel, b: ElfModel) -> Result<ElfModel, ErrorModel> {
    match merge_sections_spec(a.sections, b.sections) {
        Err(x) => Err(x),
        Ok(sm) => match merge_symbols_spec(a.symbols, b.symbols, sm.targets, sm.offsets) {
            Err(x) => Err(x),
            Ok(ym) => match reindex_sections_spec(sm.sections, ym.symbols, ym.targets) {
                None => Err(ErrorModel::Invalid),
                Some(secs) => Ok(
                    ElfModel { header: a.header, sections: secs, symbols: reorder_spec(ym.symbols) },
                ),
            },
        },
    }
}

/// Linking the objects `files` in order, the first being the starting
/// accumulator.
pub open spec fn link_all_spec(files: Seq<ElfModel>) -> Result<ElfModel, ErrorModel>
    recommends
        files.len() >= 1,
    decreases files.len(),
{
    if files.len() <= 1 {
        Ok(files[0])
    } else {
        match link_all_spec(files.drop_last()) {
            Ok(acc) => link_spec(acc, files.last()),
            Err(x) => Err(x),
        }
    }
}

proof fn lemma_link_all_err(files: Seq<ElfModel>, j: int)
    requires
        1 <= j <= files.len(),
        link_all_spec(files.subrange(0, j)) is Err,
    ensures
        link_all_spec(files) == link_all_spec(files.subrange(0, j)),
    decreases files.len() - j,
{
    if j < files.len() {
        assert(files.subrange(0, j + 1).drop_last() =~= files.subrange(0, j));
        lemma_link_all_err(files, j + 1);
    } else {
        assert(files.subrange(0, j) =~= files);
    }
}

/// The symbol pass never touches the first accumulated symbol when its name is
/// empty, and only adds symbols.
proof fn lemma_merge_symbols_keeps_first(
    a: Seq<SymbolModel>,
    b: Seq<SymbolModel>,
    targets: Seq<int>,
    offsets: Seq<int>,
)
    requires
        a.len() >= 1,
        a[0].name.len() == 0,
        merge_symbols_spec(a, b, targets, offsets) is Ok,
    ensures
        merge_symbols_spec(a, b, targets, offsets)->Ok_0.symbols.len() >= a.len(),
        merge_symbols_spec(a, b, targets, offsets)->Ok_0.symbols[0] == a[0],
    decreases b.len(),
{
    if b.len() > 0 {
        let prev = merge_symbols_spec(a, b.drop_last(), targets, offsets);
        assert(prev is Ok);
        lemma_merge_symbols_keeps_first(a, b.drop_last(), targets, offsets);
        let m = prev->Ok_0;
        let s = b.last();
        let i = b.len() - 1;
        if s.name.len() > 0 && last_index_of(symbol_names(m.symbols), s.name) is Some {
            lemma_last_index_of_some(symbol_names(m.symbols), s.name);
            let j = last_index_of(symbol_names(m.symbols), s.name)->0;
            assert(symbol_names(m.symbols)[0] == m.symbols[0].name);
            assert(j != 0);
        }
    }
}

proof fn lemma_filter_all_true(s: Seq<SymbolModel>, p: spec_fn(SymbolModel) -> bool)
    requires
        forall|i: int| 0 <= i < s.len() ==> p(s[i]),
    ensures
        s.filter(p) == s,
    decreases s.len(),
{
    reveal(Seq::filter);
    if s.len() > 0 {
        lemma_filter_all_true(s.drop_last(), p);
        assert(s.drop_last().push(s.last()) =~= s);
    }
}

proof fn lemma_filter_all_false(s: Seq<SymbolModel>, p: spec_fn(SymbolModel) -> bool)
    requires
        forall|i: int| 0 <= i < s.len() ==> !p(s[i]),
    ensures
        s.filter(p).len() == 0,
    decreases s.len(),
{
    reveal(Seq::filter);
    if s.len() > 0 {
        lemma_filter_all_false(s.drop_last(), p);
    }
}

/// The reordered symbols hold every local symbol before every other one,
/// so the index of the first non-local symbol counts the local ones.
proof fn lemma_reorder_partitioned(syms: Seq<SymbolModel>)
    requires
        syms.len() >= 1,
        is_local(syms[0]),
    ensures
        crate::write::is_first_nonlocal(
            reorder_spec(syms),
            1 + syms.subrange(1, syms.len() as int).filter(local_pred()).len() as int,
        ),
        reorder_spec(syms).filter(local_pred()).len() == 1 + syms.subrange(
            1,
            syms.len() as int,
        ).filter(local_pred()).len(),
{
    broadcast use Seq::lemma_filter_pred;

    let rest = syms.subrange(1, syms.len() as int);
    let l = rest.filter(local_pred());
    let n = rest.filter(nonlocal_pred());
    let r = reorder_spec(syms);
    assert(forall|i: int| 0 <= i < l.len() ==> local_pred()(#[trigger] l[i]));
    assert(forall|i: int| 0 <= i < n.len() ==> nonlocal_pred()(#[trigger] n[i]));
    assert forall|j: int| 0 <= j < 1 + l.len() implies is_local(#[trigger] r[j]) by {
        if j > 0 {
            assert(r[j] == l[j - 1]);
            assert(local_pred()(l[j - 1]));
        }
    }
    if 1 + l.len() < r.len() {
        assert(r[1 + l.len() as int] == n[0]);
        assert(nonlocal_pred()(n[0]));
    }
    lemma_filter_all_true(seq![syms[0]] + l, local_pred());
    lemma_filter_all_false(n, local_pred());
    Seq::filter_distributes_over_add(seq![syms[0]] + l, n, local_pred());
}

/// Linking keeps the accumulated file's null symbol (empty name) at index
/// 0: no incoming symbol is merged into it, none is placed before it.
pub proof fn lemma_null_symbol_kept(a: ElfModel, b: ElfModel)
    requires
        a.symbols.len() >= 1,
        a.symbols[0].name.len() == 0,
        link_spec(a, b) is Ok,
    ensures
        link_spec(a, b)->Ok_0.symbols.len() >= 1,
        link_spec(a, b)->Ok_0.symbols[0] == a.symbols[0],
{
    let sm = merge_sections_spec(a.sections, b.sections)->Ok_0;
    lemma_merge_symbols_keeps_first(a.symbols, b.symbols, sm.targets, sm.offsets);
}

/// After a link whose accumulated file starts with a local null symbol,
/// the index of the first non-local symbol, which becomes `.symtab`'s
/// `sh_info`, equals the number of local symbols.
pub proof fn lemma_symtab_info_counts_locals(a: ElfModel, b: ElfModel)
    requires
        a.symbols.len() >= 1,
        a.symbols[0].name.len() == 0,
        is_local(a.symbols[0]),
        link_spec(a, b) is Ok,
    ensures
        crate::write::first_nonlocal(link_spec(a, b)->Ok_0.symbols) == link_spec(
            a,
            b,
        )->Ok_0.symbols.filter(local_pred()).len(),
{
    let sm = merge_sections_spec(a.sections, b.sections)->Ok_0;
    lemma_merge_symbols_keeps_first(a.symbols, b.symbols, sm.targets, sm.offsets);
    let ym = merge_symbols_spec(a.symbols, b.symbols, sm.targets, sm.offsets)->Ok_0;
    lemma_reorder_partitioned(ym.symbols);
    crate::write::lemma_first_nonlocal(
        reorder_spec(ym.symbols),
        1 + ym.symbols.subrange(1, ym.symbols.len() as int).filter(local_pred()).len() as int,
    );
}

/// Every symbol of `syms` that is neither undefined nor absolute names one
/// of `n` sections.
pub open spec fn shndx_valid(syms: Seq<SymbolModel>, n: int) -> bool {
    forall|i: int|
        0 <= i < syms.len() ==> {
            let x = #[trigger] syms[i].shndx;
            x == SHN_UNDEF || x == SHN_ABS || (x as int) < n
        }
}

proof fn lemma_merge_sections_targets(a: Seq<SectionModel>, b: Seq<SectionModel>)
    requires
        merge_sections_spec(a, b) is Ok,
    ensures
        ({
            let sm = merge_sections_spec(a, b)->Ok_0;
            &&& sm.sections.len() >= a.len()
            &&& sm.targets.len() == b.len()
            &&& forall|i: int| 0 <= i < sm.targets.len() ==> 0 <= #[trigger] sm.targets[i] < sm.sections.len()
        }),
    decreases b.len(),
{
    if b.len() > 0 {
        lemma_merge_sections_targets(a, b.drop_last());
        let m = merge_sections_spec(a, b.drop_last())->Ok_0;
        match last_index_of(section_names(m.sections), b.last().name) {
            Some(j) => {
                lemma_last_index_of_some(section_names(m.sections), b.last().name);
            },
            None => {},
        }
    }
}

proof fn lemma_merge_symbols_valid(
    a: Seq<SymbolModel>,
    b: Seq<SymbolModel>,
    targets: Seq<int>,
    offsets: Seq<int>,
    n: int,
)
    requires
        shndx_valid(a, n),
        forall|i: int| 0 <= i < targets.len() ==> 0 <= #[trigger] targets[i] < n,
        merge_symbols_spec(a, b, targets, offsets) is Ok,
    ensures
        shndx_valid(merge_symbols_spec(a, b, targets, offsets)->Ok_0.symbols, n),
    decreases b.len(),
{
    if b.len() > 0 {
        lemma_merge_symbols_valid(a, b.drop_last(), targets, offsets, n);
        let m = merge_symbols_spec(a, b.drop_last(), targets, offsets)->Ok_0;
        let s = b.last();
        if remap_symbol(s, targets, offsets) is Ok {
            let r = remap_symbol(s, targets, offsets)->Ok_0;
            assert(r.shndx == SHN_UNDEF || r.shndx == SHN_ABS || (r.shndx as int) < n);
        }
        let i = b.len() - 1;
        if s.name.len() > 0 && last_index_of(symbol_names(m.symbols), s.name) is Some {
            lemma_last_index_of_some(symbol_names(m.symbols), s.name);
        }
        let out = merge_symbols_spec(a, b, targets, offsets)->Ok_0.symbols;
        assert forall|k: int| 0 <= k < out.len() implies {
            let x = #[trigger] out[k].shndx;
            x == SHN_UNDEF || x == SHN_ABS || (x as int) < n
        } by {
            if k < m.symbols.len() && out[k] == m.symbols[k] {
                assert(m.symbols[k].shndx == out[k].shndx);
            }
        }
    }
}

proof fn lemma_filter_valid(s: Seq<SymbolModel>, p: spec_fn(SymbolModel) -> bool, n: int)
    requires
        shndx_valid(s, n),
    ensures
        shndx_valid(s.filter(p), n),
{
    broadcast use Seq::lemma_filter_contains_rev;

    assert forall|i: int| 0 <= i < s.filter(p).len() implies {
        let x = #[trigger] s.filter(p)[i].shndx;
        x == SHN_UNDEF || x == SHN_ABS || (x as int) < n
    } by {
        assert(s.filter(p).contains(s.filter(p)[i]));
        assert(s.contains(s.filter(p)[i]));
        let k = choose|k: int| 0 <= k < s.len() && s[k] == s.filter(p)[i];
        assert(s[k].shndx == s.filter(p)[i].shndx);
    }
}

/// Linking keeps symbols pointing at sections: when every symbol of the
/// accumulated file that is neither undefined nor absolute names one of
/// its sections, the same holds of the linked file.
pub proof fn lemma_symbol_sections_valid(a: ElfModel, b: ElfModel)
    requires
        shndx_valid(a.symbols, a.sections.len() as int),
        link_spec(a, b) is Ok,
    ensures
        shndx_valid(link_spec(a, b)->Ok_0.symbols, link_spec(a, b)->Ok_0.sections.len() as int),
{
    lemma_merge_sections_targets(a.sections, b.sections);
    let sm = merge_sections_spec(a.sections, b.sections)->Ok_0;
    let n = sm.sections.len() as int;
    assert forall|i: int| 0 <= i < a.symbols.len() implies {
        let x = #[trigger] a.symbols[i].shndx;
        x == SHN_UNDEF || x == SHN_ABS || (x as int) < n
    } by {
        let x = a.symbols[i].shndx;
        assert(x == SHN_UNDEF || x == SHN_ABS || (x as int) < a.sections.len());
    }
    lemma_merge_symbols_valid(a.symbols, b.symbols, sm.targets, sm.offsets, n);
    let ym = merge_symbols_spec(a.symbols, b.symbols, sm.targets, sm.offsets)->Ok_0;
    let syms = ym.symbols;
    if syms.len() > 0 {
        let rest = syms.subrange(1, syms.len() as int);
        assert(shndx_valid(rest, n)) by {
            assert forall|i: int| 0 <= i < rest.len() implies {
                let x = #[trigger] rest[i].shndx;
                x == SHN_UNDEF || x == SHN_ABS || (x as int) < n
            } by {
                assert(rest[i] == syms[i + 1]);
                let x = syms[i + 1].shndx;
                assert(x == SHN_UNDEF || x == SHN_ABS || (x as int) < n);
            }
        }
        lemma_filter_valid(rest, local_pred(), n);
        lemma_filter_valid(rest, nonlocal_pred(), n);
        let l = rest.filter(local_pred());
        let nl = rest.filter(nonlocal_pred());
        let r = reorder_spec(syms);
        assert forall|i: int| 0 <= i < r.len() implies {
            let x = #[trigger] r[i].shndx;
            x == SHN_UNDEF || x == SHN_ABS || (x as int) < n
        } by {
            if i == 0 {
                let x = syms[0].shndx;
                assert(x == SHN_UNDEF || x == SHN_ABS || (x as int) < n);
            } else if i < 1 + l.len() {
                assert(r[i] == l[i - 1]);
                let x = l[i - 1].shndx;
                assert(x == SHN_UNDEF || x == SHN_ABS || (x as int) < n);
            } else {
                assert(r[i] == nl[i - 1 - l.len()]);
                let x = nl[i - 1 - l.len()].shndx;
                assert(x == SHN_UNDEF || x == SHN_ABS || (x as int) < n);
            }
        }
    }
}

/// `j` is the one index of `syms` whose symbol is named `n`.
pub open spec fn named_only_at(syms: Seq<SymbolModel>, n: Seq<u8>, j: int) -> bool {
    &&& 0 <= j < syms.len()
    &&& syms[j].name == n
    &&& forall|k: int| 0 <= k < syms.len() && k != j ==> (#[trigger] syms[k]).name != n
}

/// The symbol named `n` once the accumulated `before` meets the incoming
/// `incoming` of that name: the incoming definition, carried into the
/// accumulated sections, replaces an undefined `before`; otherwise `before`
/// stays.
pub open spec fn resolved_symbol(
    before: SymbolModel,
    incoming: SymbolModel,
    targets: Seq<int>,
    offsets: Seq<int>,
) -> SymbolModel {
    if before.shndx == SHN_UNDEF && incoming.shndx != SHN_UNDEF {
        remap_symbol(incoming, targets, offsets)->Ok_0
    } else {
        before
    }
}

/// Over the whole symbol pass, the one accumulated symbol named `n` stays
/// at its index and becomes the resolved symbol once the one incoming
/// symbol of that name has been met.
proof fn lemma_symbol_pass_tracks(
    a: Seq<SymbolModel>,
    b: Seq<SymbolModel>,
    targets: Seq<int>,
    offsets: Seq<int>,
    n: Seq<u8>,
    j: int,
    i: int,
    incoming: SymbolModel,
)
    requires
        n.len() > 0,
        named_only_at(a, n, j),
        0 <= i,
        i < b.len() ==> b[i] == incoming,
        incoming.name == n,
        forall|k: int| 0 <= k < b.len() && k != i ==> (#[trigger] b[k]).name != n,
        merge_symbols_spec(a, b, targets, offsets) is Ok,
    ensures
        named_only_at(merge_symbols_spec(a, b, targets, offsets)->Ok_0.symbols, n, j),
        merge_symbols_spec(a, b, targets, offsets)->Ok_0.symbols[j] == (if i < b.len() {
            resolved_symbol(a[j], incoming, targets, offsets)
        } else {
            a[j]
        }),
    decreases b.len(),
{
    if b.len() > 0 {
        let d = b.drop_last();
        assert forall|k: int| 0 <= k < d.len() && k != i implies (#[trigger] d[k]).name != n by {
            assert(d[k] == b[k]);
        }
        if i < d.len() {
            assert(d[i] == b[i]);
        }
        lemma_symbol_pass_tracks(a, d, targets, offsets, n, j, i, incoming);
        let m = merge_symbols_spec(a, d, targets, offsets)->Ok_0;
        let s = b.last();
        let q = b.len() - 1;
        let out = merge_symbols_spec(a, b, targets, offsets)->Ok_0.symbols;
        let names = symbol_names(m.symbols);
        if q == i {
            assert(s == incoming);
            assert forall|k: int| 0 <= k < names.len() && j < k implies names[k] != n by {
                assert(names[k] == m.symbols[k].name);
            }
            assert(names[j] == m.symbols[j].name);
            crate::utils::lemma_last_index_of(names, n, j);
        } else {
            assert(s.name != n);
            if s.name.len() > 0 && last_index_of(names, s.name) is Some {
                lemma_last_index_of_some(names, s.name);
                let k = last_index_of(names, s.name)->0;
                assert(names[k] == m.symbols[k].name);
            }
        }
        assert forall|k: int| 0 <= k < out.len() && k != j implies (#[trigger] out[k]).name != n by {
            if k < m.symbols.len() {
                assert(m.symbols[k].name != n);
            }
        }
    }
}

/// A definition meeting an undefined symbol of the same name, over a whole
/// link and in either order: when the accumulated file holds one symbol
/// named `n` and the incoming file one, every symbol named `n` after the
/// link is the resolved one (the incoming definition, carried into the
/// merged sections, if the accumulated symbol was undefined; the
/// accumulated symbol otherwise), and it is present.
pub proof fn lemma_undefined_meets_defined_link(a: ElfModel, b: ElfModel, n: Seq<u8>, j: int, i: int)
    requires
        n.len() > 0,
        named_only_at(a.symbols, n, j),
        named_only_at(b.symbols, n, i),
        link_spec(a, b) is Ok,
    ensures
        ({
            let sm = merge_sections_spec(a.sections, b.sections)->Ok_0;
            let def = resolved_symbol(a.symbols[j], b.symbols[i], sm.targets, sm.offsets);
            let c = link_spec(a, b)->Ok_0;
            &&& exists|p: int| 0 <= p < c.symbols.len() && c.symbols[p] == def
            &&& forall|p: int| 0 <= p < c.symbols.len() && (#[trigger] c.symbols[p]).name == n ==> c.symbols[p] == def
        }),
{
    broadcast use Seq::lemma_filter_contains_rev;

    let sm = merge_sections_spec(a.sections, b.sections)->Ok_0;
    lemma_symbol_pass_tracks(a.symbols, b.symbols, sm.targets, sm.offsets, n, j, i, b.symbols[i]);
    let syms = merge_symbols_spec(a.symbols, b.symbols, sm.targets, sm.offsets)->Ok_0.symbols;
    let def = resolved_symbol(a.symbols[j], b.symbols[i], sm.targets, sm.offsets);
    let r = reorder_spec(syms);
    lemma_new_index_names_same_symbol(syms, j);
    assert(link_spec(a, b)->Ok_0.symbols == r);
    let w = new_index_spec(syms, j);
    assert(0 <= w < r.len() && r[w] == def);
    let len = syms.len() as int;
    let rest = syms.subrange(1, len);
    let l = rest.filter(local_pred());
    let nl = rest.filter(nonlocal_pred());
    assert forall|p: int| 0 <= p < r.len() && (#[trigger] r[p]).name == n implies r[p] == def by {
        if p == 0 {
            assert(r[0] == syms[0]);
        } else {
            let x = r[p];
            if p < 1 + l.len() {
                assert(x == l[p - 1]);
                assert(l.contains(x));
            } else {
                assert(x == nl[p - 1 - l.len()]);
                assert(nl.contains(x));
            }
            assert(rest.contains(x));
            let k = choose|k: int| 0 <= k < rest.len() && rest[k] == x;
            assert(syms[k + 1] == x);
        }
    }
}

impl ElfFile64 {
    /// Links `other` into this object. On failure this object is left in
    /// an unspecified state.
    pub fn link(&mut self, other: &ElfFile64) -> (r: Result<(), ElfFileError>)
        ensures
            match r {
                Ok(()) => link_spec(old(self)@, other@) == Ok::<ElfModel, ErrorModel>(final(self)@),
                Err(x) => link_spec(old(self)@, other@) == Err::<ElfModel, ErrorModel>(x@),
            },
    {
        let (targets, offsets) = merge_sections(&mut self.unorganized_sections, &other.unorganized_sections)?;
        let map = merge_symbols(&mut self.symbols, &other.symbols, &targets, &offsets)?;
        let (reordered, new_index) = reorder_symbols(&self.symbols);
        if !reindex_sections(&mut self.unorganized_sections, &self.symbols, &new_index, &map) {
            return Err(ElfFileError::InvalidFileError);
        }
        self.symbols = reordered;
        Ok(())
    }
}

/// The values of a sequence of objects.
pub open spec fn files_view(v: Seq<ElfFile64>) -> Seq<ElfModel> {
    v.map_values(|f: ElfFile64| f@)
}

/// Links the objects `object_files` in order into the first.
#[verifier::loop_isolation(false)]
pub fn link(object_files: Vec<ElfFile64>) -> (r: Result<ElfFile64, ElfFileError>)
    requires
        object_files@.len() >= 1,
    ensures
        match r {
            Ok(f) => link_all_spec(files_view(object_files@)) == Ok::<
                ElfModel,
                ErrorModel,
            >(f@),
            Err(x) => link_all_spec(files_view(object_files@)) == Err::<
                ElfModel,
                ErrorModel,
            >(x@),
        },
{
    let ghost files = files_view(object_files@);
    let mut object_files = object_files;
    let mut rest = object_files.split_off(1);
    let mut result = match object_files.pop() {
        Some(f) => f,
        None => {
            return Err(ElfFileError::InvalidFileError);
        },
    };
    assert(files.subrange(0, 1) =~= seq![result@]);
    let mut i: usize = 0;
    while i < rest.len()
        invariant
            i <= rest@.len(),
            files.len() == rest@.len() + 1,
            forall|k: int| 0 <= k < rest@.len() ==> files[k + 1] == rest@[k]@,
            link_all_spec(files.subrange(0, i + 1)) == Ok::<ElfModel, ErrorModel>(result@),
        decreases rest@.len() - i,
    {
        assert(files.subrange(0, i + 2).drop_last() =~= files.subrange(0, i + 1));
        assert(files.subrange(0, i + 2).last() == rest@[i as int]@);
        let ghost acc = result@;
        match result.link(&rest[i]) {
            Ok(()) => {},
            Err(x) => {
                assert(link_all_spec(files.subrange(0, i + 2)) == link_spec(acc, rest@[i as int]@));
                proof {
                    lemma_link_all_err(files, i + 2);
                }
                return Err(x);
            },
        }
        i += 1;
    }
    assert(files.subrange(0, rest@.len() as int + 1) =~= files);
    Ok(result)
}

} // verus!
