//! String tables: NUL-terminated names looked up by offset.

use vstd::prelude::*;

use crate::utils::{bytes_equal, last_index_of, lemma_last_index_of};

verus! {

/// No byte of `name` is NUL.
pub open spec fn nul_free(name: Seq<u8>) -> bool {
    forall|k: int| 0 <= k < name.len() ==> name[k] != 0
}

/// `name` followed by a NUL byte stands at offset `off` of `t`.
pub open spec fn is_cstr_at(t: Seq<u8>, off: int, name: Seq<u8>) -> bool {
    &&& 0 <= off
    &&& off + name.len() < t.len()
    &&& t.subrange(off, off + name.len()) == name
    &&& t[off + name.len()] == 0
    &&& nul_free(name)
}

/// The NUL-terminated string at offset `off` of `t`, if a NUL ends it
/// within `t`.
pub open spec fn cstr_at(t: Seq<u8>, off: int) -> Option<Seq<u8>> {
    if exists|name: Seq<u8>| is_cstr_at(t, off, name) {
        Some(choose|name: Seq<u8>| is_cstr_at(t, off, name))
    } else {
        None
    }
}

/// At most one string stands at an offset.
pub proof fn lemma_cstr_unique(t: Seq<u8>, off: int, a: Seq<u8>, b: Seq<u8>)
    requires
        is_cstr_at(t, off, a),
        is_cstr_at(t, off, b),
    ensures
        a == b,
{
    if a.len() < b.len() {
        assert(b[a.len() as int] == t.subrange(off, off + b.len())[a.len() as int]);
    } else if b.len() < a.len() {
        assert(a[b.len() as int] == t.subrange(off, off + a.len())[b.len() as int]);
    }
}

/// Once a string is known to stand at `off`, it is the one there.
pub proof fn lemma_cstr_at(t: Seq<u8>, off: int, name: Seq<u8>)
    requires
        is_cstr_at(t, off, name),
    ensures
        cstr_at(t, off) == Some(name),
{
    let c = choose|n: Seq<u8>| is_cstr_at(t, off, n);
    lemma_cstr_unique(t, off, c, name);
}

/// Reads the NUL-terminated string at offset `off` of `t`.
pub fn read_cstr(t: &[u8], off: usize) -> (r: Option<Vec<u8>>)
    ensures
        r is Some <==> cstr_at(t@, off as int) is Some,
        r is Some ==> cstr_at(t@, off as int) == Some(r->0@),
{
    let len = t.len();
    if off >= len {
        return None;
    }
    let mut j: usize = off;
    while j < len && t[j] != 0
        invariant
            off <= j <= len,
            len == t@.len(),
            forall|k: int| off <= k < j ==> t@[k] != 0,
        decreases len - j,
    {
        j += 1;
    }
    if j == len {
        assert forall|n: Seq<u8>| !is_cstr_at(t@, off as int, n) by {
            if is_cstr_at(t@, off as int, n) {
                assert(t@[off + n.len()] != 0);
            }
        }
        return None;
    }
    let mut name: Vec<u8> = Vec::new();
    let mut i: usize = off;
    while i < j
        invariant
            off <= i <= j,
            j < len,
            len == t@.len(),
            name@ == t@.subrange(off as int, i as int),
        decreases j - i,
    {
        name.push(t[i]);
        i += 1;
        assert(name@ =~= t@.subrange(off as int, i as int));
    }
    proof {
        assert(is_cstr_at(t@, off as int, name@));
        lemma_cstr_at(t@, off as int, name@);
    }
    Some(name)
}

/// The values of a sequence of byte strings.
pub open spec fn bytes_view(v: Seq<Vec<u8>>) -> Seq<Seq<u8>> {
    v.map_values(|x: Vec<u8>| x@)
}

/// The distinct non-empty strings of `strings`, in order of first
/// occurrence.
pub open spec fn unique_names(strings: Seq<Seq<u8>>) -> Seq<Seq<u8>>
    decreases strings.len(),
{
    if strings.len() == 0 {
        Seq::empty()
    } else {
        let u = unique_names(strings.drop_last());
        let s = strings.last();
        if s.len() == 0 || u.contains(s) {
            u
        } else {
            u.push(s)
        }
    }
}

/// The bytes of a string table holding `names`: a NUL byte, then each name
/// followed by a NUL byte.
pub open spec fn strtab_bytes(names: Seq<Seq<u8>>) -> Seq<u8>
    decreases names.len(),
{
    if names.len() == 0 {
        seq![0u8]
    } else {
        strtab_bytes(names.drop_last()) + names.last() + seq![0u8]
    }
}

/// The offset of `name` in the string table holding `names`: zero for the
/// empty name.
pub open spec fn string_offset(names: Seq<Seq<u8>>, name: Seq<u8>) -> Option<int> {
    if name.len() == 0 {
        Some(0)
    } else {
        match last_index_of(names, name) {
            Some(k) => Some(strtab_bytes(names.subrange(0, k)).len() as int),
            None => None,
        }
    }
}

proof fn lemma_strtab_prefix(names: Seq<Seq<u8>>, i: int)
    requires
        0 <= i <= names.len(),
    ensures
        strtab_bytes(names.subrange(0, i)).len() <= strtab_bytes(names).len(),
        strtab_bytes(names).subrange(0, strtab_bytes(names.subrange(0, i)).len() as int)
            == strtab_bytes(names.subrange(0, i)),
    decreases names.len() - i,
{
    if i < names.len() {
        lemma_strtab_prefix(names, i + 1);
        let a = strtab_bytes(names.subrange(0, i));
        let b = strtab_bytes(names.subrange(0, i + 1));
        assert(names.subrange(0, i + 1).drop_last() =~= names.subrange(0, i));
        assert(b == a + names[i] + seq![0u8]);
        assert(strtab_bytes(names).subrange(0, a.len() as int) =~= b.subrange(0, a.len() as int));
        assert(b.subrange(0, a.len() as int) =~= a);
    } else {
        assert(names.subrange(0, i) =~= names);
        assert(strtab_bytes(names).subrange(0, strtab_bytes(names).len() as int) =~= strtab_bytes(names));
    }
}

/// A string table starts with a NUL byte, and each name in it that holds
/// no NUL byte reads back, NUL-terminated, at its offset.
pub proof fn lemma_strtab_lookup(names: Seq<Seq<u8>>, k: int)
    requires
        0 <= k < names.len(),
        nul_free(names[k]),
    ensures
        strtab_bytes(names)[0] == 0,
        is_cstr_at(strtab_bytes(names), strtab_bytes(names.subrange(0, k)).len() as int, names[k]),
        cstr_at(strtab_bytes(names), strtab_bytes(names.subrange(0, k)).len() as int) == Some(names[k]),
{
    lemma_strtab_first(names);
    lemma_strtab_prefix(names, k + 1);
    let a = strtab_bytes(names.subrange(0, k));
    let b = strtab_bytes(names.subrange(0, k + 1));
    let t = strtab_bytes(names);
    assert(names.subrange(0, k + 1).drop_last() =~= names.subrange(0, k));
    assert(b == a + names[k] + seq![0u8]);
    let o = a.len() as int;
    let n = names[k].len() as int;
    assert(t.subrange(o, o + n) =~= b.subrange(o, o + n));
    assert(b.subrange(o, o + n) =~= names[k]);
    assert(t[o + n] == b[o + n]);
    lemma_cstr_at(t, o, names[k]);
}

proof fn lemma_strtab_first(names: Seq<Seq<u8>>)
    ensures
        strtab_bytes(names).len() >= 1,
        strtab_bytes(names)[0] == 0,
    decreases names.len(),
{
    if names.len() > 0 {
        lemma_strtab_first(names.drop_last());
    }
}

/// The empty name reads back at offset zero of any string table.
pub proof fn lemma_strtab_empty_name(names: Seq<Seq<u8>>)
    ensures
        cstr_at(strtab_bytes(names), 0) == Some(Seq::<u8>::empty()),
{
    lemma_strtab_first(names);
    assert(strtab_bytes(names).subrange(0, 0) =~= Seq::<u8>::empty());
    lemma_cstr_at(strtab_bytes(names), 0, Seq::empty());
}

/// A string table under construction: its distinct non-empty names in
/// order, the offset of each, and its bytes.
pub struct StringTable {
    pub names: Vec<Vec<u8>>,
    pub offsets: Vec<usize>,
    pub data: Vec<u8>,
}

impl StringTable {
    /// The names, offsets and bytes agree.
    pub open spec fn wf(&self) -> bool {
        &&& self.data@ == strtab_bytes(bytes_view(self.names@))
        &&& self.offsets@.len() == self.names@.len()
        &&& forall|k: int|
            0 <= k < self.offsets@.len() ==> self.offsets@[k] as int == strtab_bytes(
                bytes_view(self.names@).subrange(0, k),
            ).len()
    }

    /// The offset of `name` in this table.
    pub fn offset_of(&self, name: &Vec<u8>) -> (r: Option<usize>)
        requires
            self.wf(),
        ensures
            match r {
                Some(o) => string_offset(bytes_view(self.names@), name@) == Some(o as int),
                None => string_offset(bytes_view(self.names@), name@) is None,
            },
    {
        if name.len() == 0 {
            return Some(0);
        }
        let ghost names = bytes_view(self.names@);
        let mut i: usize = self.names.len();
        while i > 0
            invariant
                i <= self.names@.len(),
                names == bytes_view(self.names@),
                name@.len() > 0,
                self.wf(),
                forall|j: int| i <= j < names.len() ==> names[j] != name@,
            decreases i,
        {
            i -= 1;
            assert(names[i as int] == self.names@[i as int]@);
            if bytes_equal(&self.names[i], name) {
                proof {
                    lemma_last_index_of(names, name@, i as int);
                    assert(self.offsets@[i as int] as int == strtab_bytes(names.subrange(0, i as int)).len());
                    assert(last_index_of(names, name@) == Some(i as int));
                    assert(name@.len() > 0);
                    assert(string_offset(names, name@) == Some(self.offsets@[i as int] as int));
                }
                return Some(self.offsets[i]);
            }
        }
        None
    }
}

/// Builds the string table of `strings`: a NUL byte, then each distinct
/// non-empty string once, in order of first occurrence, followed by a NUL.
pub fn build_string_table(strings: &Vec<Vec<u8>>) -> (r: StringTable)
    ensures
        r.wf(),
        bytes_view(r.names@) == unique_names(bytes_view(strings@)),
        r.data@ == strtab_bytes(unique_names(bytes_view(strings@))),
{
    let ghost all = bytes_view(strings@);
    let mut table = StringTable { names: Vec::new(), offsets: Vec::new(), data: Vec::new() };
    table.data.push(0u8);
    assert(bytes_view(table.names@) =~= Seq::<Seq<u8>>::empty());
    assert(table.data@ =~= strtab_bytes(Seq::empty()));
    assert(all.subrange(0, 0) =~= Seq::<Seq<u8>>::empty());
    let mut i: usize = 0;
    while i < strings.len()
        invariant
            i <= strings@.len(),
            all == bytes_view(strings@),
            table.wf(),
            bytes_view(table.names@) == unique_names(all.subrange(0, i as int)),
        decreases strings@.len() - i,
    {
        let s = &strings[i];
        assert(all.subrange(0, i + 1).drop_last() =~= all.subrange(0, i as int));
        assert(all.subrange(0, i + 1).last() == s@);
        let ghost u = bytes_view(table.names@);
        if s.len() > 0 {
            if table.offset_of(s).is_none() {
                proof {
                    if u.contains(s@) {
                        let k = choose|k: int| 0 <= k < u.len() && u[k] == s@;
                        assert(exists|k: int| 0 <= k < u.len() && u[k] == s@);
                    }
                }
                let offset = table.data.len();
                let ghost before_data = table.data@;
                let ghost before_offsets = table.offsets@;
                table.offsets.push(offset);
                let c = crate::section::copy_bytes(s);
                let ghost before_names = table.names@;
                table.names.push(c);
                assert(bytes_view(table.names@) =~= bytes_view(before_names).push(s@));
                let mut k: usize = 0;
                let ghost names_after = table.names@;
                let ghost offsets_after = table.offsets@;
                while k < s.len()
                    invariant
                        k <= s@.len(),
                        table.names@ == names_after,
                        table.offsets@ == offsets_after,
                        table.data@ == before_data + s@.subrange(0, k as int),
                    decreases s@.len() - k,
                {
                    table.data.push(s[k]);
                    k += 1;
                    assert(table.data@ =~= before_data + s@.subrange(0, k as int));
                }
                table.data.push(0u8);
                proof {
                    let nu = bytes_view(table.names@);
                    assert(nu =~= u.push(s@));
                    assert(nu.drop_last() =~= u);
                    assert(s@.subrange(0, s@.len() as int) =~= s@);
                    assert(table.data@ =~= strtab_bytes(nu));
                    assert(nu.len() == table.offsets@.len());
                    assert forall|j: int| 0 <= j < table.offsets@.len() implies table.offsets@[j] as int
                        == strtab_bytes(nu.subrange(0, j)).len() by {
                        if j < u.len() {
                            assert(nu.subrange(0, j) =~= u.subrange(0, j));
                        } else {
                            assert(nu.subrange(0, j) =~= u);
                        }
                    }
                }
            } else {
                assert(last_index_of(u, s@) is Some);
                assert(exists|j: int| 0 <= j < u.len() && u[j] == s@);
                assert(u.contains(s@));
            }
        }
        i += 1;
    }
    assert(all.subrange(0, strings@.len() as int) =~= all);
    table
}

} // verus!
