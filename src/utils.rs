//! Small helpers of the link engine: alignment and lookup by name.

use vstd::prelude::*;

use crate::section::{sections_view, Section64, SectionModel};
use crate::symbol::{symbols_view, Symbol64, SymbolModel};

verus! {

/// `value` rounded up to a multiple of `align`; an alignment of zero or
/// one asks for nothing.
pub open spec fn align_up(value: int, align: int) -> int {
    if align <= 1 || value % align == 0 {
        value
    } else {
        value + (align - value % align)
    }
}

/// Rounds `value` up to the next multiple of `align`.
pub fn next_aligned_value(value: usize, align: usize) -> (r: usize)
    requires
        align <= 1 || value + align <= usize::MAX,
    ensures
        r == align_up(value as int, align as int),
        align > 1 ==> r % align == 0,
        value <= r,
        align > 1 ==> r < value + align,
{
    if align <= 1 || value % align == 0 {
        value
    } else {
        let r = value + (align - value % align);
        proof {
            let q = value as int / align as int;
            vstd::arithmetic::div_mod::lemma_fundamental_div_mod(value as int, align as int);
            assert(r == (q + 1) * align) by (nonlinear_arith)
                requires
                    value == align * q + value % align,
                    r == value + (align - value % align),
            ;
            vstd::arithmetic::div_mod::lemma_mod_multiples_basic(q + 1, align as int);
        }
        r
    }
}

/// The last index of `name` in `names`.
pub open spec fn last_index_of(names: Seq<Seq<u8>>, name: Seq<u8>) -> Option<int> {
    if exists|i: int| 0 <= i < names.len() && names[i] == name {
        Some(
            choose|i: int|
                0 <= i < names.len() && names[i] == name && forall|j: int|
                    i < j < names.len() ==> names[j] != name,
        )
    } else {
        None
    }
}

/// The last index of `name` is the one index that holds it and after which
/// no index does.
pub proof fn lemma_last_index_of(names: Seq<Seq<u8>>, name: Seq<u8>, i: int)
    requires
        0 <= i < names.len(),
        names[i] == name,
        forall|j: int| i < j < names.len() ==> names[j] != name,
    ensures
        last_index_of(names, name) == Some(i),
{
    let c = choose|c: int|
        0 <= c < names.len() && names[c] == name && forall|j: int|
            c < j < names.len() ==> names[j] != name;
    assert(0 <= c < names.len() && names[c] == name && forall|j: int|
        c < j < names.len() ==> names[j] != name);
    if c < i {
        assert(names[i] != name);
    } else if i < c {
        assert(names[c] != name);
    }
}

proof fn lemma_last_exists(names: Seq<Seq<u8>>, name: Seq<u8>, i: int)
    requires
        0 <= i < names.len(),
        names[i] == name,
    ensures
        exists|k: int|
            0 <= k < names.len() && names[k] == name && forall|j: int|
                k < j < names.len() ==> names[j] != name,
    decreases names.len() - i,
{
    if exists|j: int| i < j < names.len() && names[j] == name {
        let j = choose|j: int| i < j < names.len() && names[j] == name;
        lemma_last_exists(names, name, j);
    } else {
        assert(forall|j: int| i < j < names.len() ==> names[j] != name);
    }
}

/// When a name occurs, its last index is an index that holds it and after
/// which no index does.
pub proof fn lemma_last_index_of_some(names: Seq<Seq<u8>>, name: Seq<u8>)
    requires
        last_index_of(names, name) is Some,
    ensures
        0 <= last_index_of(names, name)->0 < names.len(),
        names[last_index_of(names, name)->0] == name,
        forall|j: int| last_index_of(names, name)->0 < j < names.len() ==> names[j] != name,
{
    let i = choose|i: int| 0 <= i < names.len() && names[i] == name;
    lemma_last_exists(names, name, i);
}

/// The names of a sequence of sections.
pub open spec fn section_names(s: Seq<SectionModel>) -> Seq<Seq<u8>> {
    s.map_values(|x: SectionModel| x.name)
}

/// The names of a sequence of symbols.
pub open spec fn symbol_names(s: Seq<SymbolModel>) -> Seq<Seq<u8>> {
    s.map_values(|x: SymbolModel| x.name)
}

/// Whether two byte strings are equal.
pub fn bytes_equal(a: &Vec<u8>, b: &Vec<u8>) -> (r: bool)
    ensures
        r == (a@ == b@),
{
    if a.len() != b.len() {
        return false;
    }
    let mut i: usize = 0;
    while i < a.len()
        invariant
            i <= a@.len(),
            a@.len() == b@.len(),
            forall|k: int| 0 <= k < i ==> a@[k] == b@[k],
        decreases a@.len() - i,
    {
        if a[i] != b[i] {
            return false;
        }
        i += 1;
    }
    assert(a@ =~= b@);
    true
}

/// The index of the last section of `sections` named `name`.
pub fn section_index_by_name(sections: &Vec<Section64>, name: &Vec<u8>) -> (r: Option<usize>)
    ensures
        match r {
            Some(i) => i < sections@.len() && last_index_of(section_names(sections_view(sections@)), name@) == Some(i as int),
            None => last_index_of(section_names(sections_view(sections@)), name@) is None,
        },
{
    let ghost names = section_names(sections_view(sections@));
    let mut i: usize = sections.len();
    while i > 0
        invariant
            i <= sections@.len(),
            names == section_names(sections_view(sections@)),
            forall|j: int| i <= j < names.len() ==> names[j] != name@,
        decreases i,
    {
        i -= 1;
        assert(names[i as int] == sections@[i as int].name@);
        if bytes_equal(&sections[i].name, name) {
            proof {
                lemma_last_index_of(names, name@, i as int);
            }
            return Some(i);
        }
    }
    None
}

/// The index of the last symbol of `symbols` named `name`.
pub fn symbol_index_by_name(symbols: &Vec<Symbol64>, name: &Vec<u8>) -> (r: Option<usize>)
    ensures
        match r {
            Some(i) => i < symbols@.len() && last_index_of(symbol_names(symbols_view(symbols@)), name@) == Some(i as int),
            None => last_index_of(symbol_names(symbols_view(symbols@)), name@) is None,
        },
{
    let ghost names = symbol_names(symbols_view(symbols@));
    let mut i: usize = symbols.len();
    while i > 0
        invariant
            i <= symbols@.len(),
            names == symbol_names(symbols_view(symbols@)),
            forall|j: int| i <= j < names.len() ==> names[j] != name@,
        decreases i,
    {
        i -= 1;
        assert(names[i as int] == symbols@[i as int].name@);
        if bytes_equal(&symbols[i].name, name) {
            proof {
                lemma_last_index_of(names, name@, i as int);
            }
            return Some(i);
        }
    }
    None
}

} // verus!
