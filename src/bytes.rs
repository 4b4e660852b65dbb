//! Unsigned integers of one to eight bytes in either byte order.

use vstd::prelude::*;

verus! {

/// Byte order of the multi-byte integers of an ELF file.
#[derive(Clone, Copy, Debug, PartialEq, Eq, Structural)]
pub enum Endianness {
    Little,
    Big,
}

/// `256` to the power `n`.
pub open spec fn pow256(n: nat) -> nat
    decreases n,
{
    if n == 0 {
        1
    } else {
        256 * pow256((n - 1) as nat)
    }
}

/// The value of `s` read least significant byte first.
pub open spec fn uint_le(s: Seq<u8>) -> nat
    decreases s.len(),
{
    if s.len() == 0 {
        0
    } else {
        s[0] as nat + 256 * uint_le(s.drop_first())
    }
}

/// `s` back to front.
pub open spec fn reversed(s: Seq<u8>) -> Seq<u8> {
    Seq::new(s.len(), |i: int| s[s.len() - 1 - i])
}

/// The value of the bytes `s` in byte order `e`.
pub open spec fn uint_of(s: Seq<u8>, e: Endianness) -> nat {
    match e {
        Endianness::Little => uint_le(s),
        Endianness::Big => uint_le(reversed(s)),
    }
}

/// The `n` low bytes of `v`, least significant first.
pub open spec fn bytes_le(v: nat, n: nat) -> Seq<u8>
    decreases n,
{
    if n == 0 {
        seq![]
    } else {
        seq![(v % 256) as u8] + bytes_le(v / 256, (n - 1) as nat)
    }
}

/// The `n` low bytes of `v` in byte order `e`.
pub open spec fn bytes_of(v: nat, n: nat, e: Endianness) -> Seq<u8> {
    match e {
        Endianness::Little => bytes_le(v, n),
        Endianness::Big => reversed(bytes_le(v, n)),
    }
}

pub proof fn lemma_pow256_mono(a: nat, b: nat)
    requires
        a <= b,
    ensures
        pow256(a) <= pow256(b),
        pow256(a) >= 1,
    decreases b,
{
    if b > a {
        lemma_pow256_mono(a, (b - 1) as nat);
    } else if a > 0 {
        lemma_pow256_mono((a - 1) as nat, (a - 1) as nat);
    }
}

proof fn lemma_pow256_seven()
    ensures
        pow256(7) == 0x100_0000_0000_0000,
{
    assert(pow256(0) == 1);
    assert(pow256(1) == 0x100);
    assert(pow256(2) == 0x1_0000);
    assert(pow256(3) == 0x100_0000);
    assert(pow256(4) == 0x1_0000_0000);
    assert(pow256(5) == 0x100_0000_0000);
    assert(pow256(6) == 0x1_0000_0000_0000);
}

pub proof fn lemma_uint_le_bound(s: Seq<u8>)
    ensures
        uint_le(s) < pow256(s.len()),
    decreases s.len(),
{
    if s.len() > 0 {
        lemma_uint_le_bound(s.drop_first());
    }
}

pub proof fn lemma_bytes_le_len(v: nat, n: nat)
    ensures
        bytes_le(v, n).len() == n,
    decreases n,
{
    if n > 0 {
        lemma_bytes_le_len(v / 256, (n - 1) as nat);
    }
}

proof fn lemma_uint_bytes_le(v: nat, n: nat)
    requires
        v < pow256(n),
    ensures
        uint_le(bytes_le(v, n)) == v,
    decreases n,
{
    lemma_bytes_le_len(v, n);
    if n > 0 {
        let rest = bytes_le(v / 256, (n - 1) as nat);
        assert((seq![(v % 256) as u8] + rest).drop_first() =~= rest);
        assert(v / 256 < pow256((n - 1) as nat)) by (nonlinear_arith)
            requires
                v < 256 * pow256((n - 1) as nat),
        ;
        lemma_uint_bytes_le(v / 256, (n - 1) as nat);
    }
}

/// Reading back `n` bytes written in byte order `e` gives the value written,
/// when it fits in `n` bytes.
pub proof fn lemma_uint_round_trip(v: nat, n: nat, e: Endianness)
    requires
        v < pow256(n),
    ensures
        bytes_of(v, n, e).len() == n,
        uint_of(bytes_of(v, n, e), e) == v,
{
    lemma_bytes_le_len(v, n);
    lemma_uint_bytes_le(v, n);
    assert(reversed(reversed(bytes_le(v, n))) =~= bytes_le(v, n));
}

/// `bytes_of(v, n, e)` holds `n` bytes.
pub proof fn lemma_bytes_of_len(v: nat, n: nat, e: Endianness)
    ensures
        bytes_of(v, n, e).len() == n,
{
    lemma_bytes_le_len(v, n);
}

/// An eight-byte field written with `bytes_of` reads back.
pub proof fn lemma_u64_field(s: Seq<u8>, pos: int, v: u64, e: Endianness)
    requires
        0 <= pos,
        pos + 8 <= s.len(),
        s.subrange(pos, pos + 8) == bytes_of(v as nat, 8, e),
    ensures
        u64_at(s, pos, e) == v,
{
    lemma_pow256_widths();
    lemma_uint_round_trip(v as nat, 8, e);
}

/// A four-byte field written with `bytes_of` reads back.
pub proof fn lemma_u32_field(s: Seq<u8>, pos: int, v: u32, e: Endianness)
    requires
        0 <= pos,
        pos + 4 <= s.len(),
        s.subrange(pos, pos + 4) == bytes_of(v as nat, 4, e),
    ensures
        u32_at(s, pos, e) == v,
{
    lemma_pow256_widths();
    lemma_uint_round_trip(v as nat, 4, e);
}

/// A two-byte field written with `bytes_of` reads back.
pub proof fn lemma_u16_field(s: Seq<u8>, pos: int, v: u16, e: Endianness)
    requires
        0 <= pos,
        pos + 2 <= s.len(),
        s.subrange(pos, pos + 2) == bytes_of(v as nat, 2, e),
    ensures
        u16_at(s, pos, e) == v,
{
    lemma_pow256_widths();
    lemma_uint_round_trip(v as nat, 2, e);
}

/// Reads the unsigned integer of `width` bytes at `pos`, in byte order `e`.
pub fn read_uint(input: &[u8], pos: usize, width: usize, e: Endianness) -> (r: u64)
    requires
        pos + width <= input@.len(),
        width <= 8,
    ensures
        r as nat == uint_of(input@.subrange(pos as int, pos + width), e),
{
    let ghost s = input@.subrange(pos as int, pos + width);
    let ghost t = match e {
        Endianness::Little => s,
        Endianness::Big => reversed(s),
    };
    let len = input.len();
    let mut v: u64 = 0;
    let mut k: usize = width;
    assert(t.subrange(width as int, width as int) =~= Seq::<u8>::empty());
    while k > 0
        invariant
            k <= width,
            width <= 8,
            pos + width <= len,
            len == input@.len(),
            s == input@.subrange(pos as int, pos + width),
            t == (match e {
                Endianness::Little => s,
                Endianness::Big => reversed(s),
            }),
            v as nat == uint_le(t.subrange(k as int, width as int)),
        decreases k,
    {
        k = k - 1;
        let b = match e {
            Endianness::Little => input[pos + k],
            Endianness::Big => input[pos + width - 1 - k],
        };
        assert(b == t[k as int]);
        let ghost tail = t.subrange(k as int + 1, width as int);
        assert(t.subrange(k as int, width as int).drop_first() =~= tail);
        proof {
            lemma_uint_le_bound(tail);
            lemma_pow256_mono(tail.len(), 7);
            lemma_pow256_seven();
        }
        v = v * 256 + b as u64;
    }
    assert(t.subrange(0, width as int) =~= t);
    v
}

/// Appends the `width` low bytes of `v` to `out`, in byte order `e`.
pub fn push_uint(out: &mut Vec<u8>, v: u64, width: usize, e: Endianness)
    requires
        width <= 8,
    ensures
        final(out)@ == old(out)@ + bytes_of(v as nat, width as nat, e),
{
    let mut le: Vec<u8> = Vec::new();
    let mut x: u64 = v;
    let mut i: usize = 0;
    while i < width
        invariant
            i <= width,
            le@.len() == i,
            le@ + bytes_le(x as nat, (width - i) as nat) == bytes_le(v as nat, width as nat),
        decreases width - i,
    {
        let ghost rest = bytes_le(x as nat / 256, (width - i - 1) as nat);
        assert(bytes_le(x as nat, (width - i) as nat) == seq![(x as nat % 256) as u8] + rest);
        assert(le@ + (seq![(x % 256) as u8] + rest) =~= le@.push((x % 256) as u8) + rest);
        le.push((x % 256) as u8);
        x = x / 256;
        i += 1;
    }
    assert(le@ =~= bytes_le(v as nat, width as nat));
    let ghost start = out@;
    let mut k: usize = 0;
    while k < width
        invariant
            k <= width,
            le@.len() == width,
            le@ == bytes_le(v as nat, width as nat),
            out@ == start + (match e {
                Endianness::Little => le@,
                Endianness::Big => reversed(le@),
            }).subrange(0, k as int),
        decreases width - k,
    {
        let b = match e {
            Endianness::Little => le[k],
            Endianness::Big => le[width - 1 - k],
        };
        let ghost w = match e {
            Endianness::Little => le@,
            Endianness::Big => reversed(le@),
        };
        assert(w.subrange(0, k + 1) =~= w.subrange(0, k as int).push(b));
        out.push(b);
        k += 1;
    }
    let ghost w = match e {
        Endianness::Little => le@,
        Endianness::Big => reversed(le@),
    };
    assert(w.subrange(0, width as int) =~= w);
}

/// The two-byte integer at `pos`.
pub open spec fn u16_at(s: Seq<u8>, pos: int, e: Endianness) -> u16 {
    uint_of(s.subrange(pos, pos + 2), e) as u16
}

/// The four-byte integer at `pos`.
pub open spec fn u32_at(s: Seq<u8>, pos: int, e: Endianness) -> u32 {
    uint_of(s.subrange(pos, pos + 4), e) as u32
}

/// The eight-byte integer at `pos`.
pub open spec fn u64_at(s: Seq<u8>, pos: int, e: Endianness) -> u64 {
    uint_of(s.subrange(pos, pos + 8), e) as u64
}

proof fn lemma_uint_of_bound(s: Seq<u8>, e: Endianness)
    ensures
        uint_of(s, e) < pow256(s.len()),
{
    lemma_uint_le_bound(s);
    lemma_uint_le_bound(reversed(s));
}

pub fn read_u16(input: &[u8], pos: usize, e: Endianness) -> (r: u16)
    requires
        pos + 2 <= input@.len(),
    ensures
        r == u16_at(input@, pos as int, e),
        r as nat == uint_of(input@.subrange(pos as int, pos + 2), e),
{
    let v = read_uint(input, pos, 2, e);
    proof {
        lemma_uint_of_bound(input@.subrange(pos as int, pos + 2), e);
        assert(pow256(2) == 0x1_0000) by {
            assert(pow256(0) == 1);
            assert(pow256(1) == 0x100);
        }
    }
    v as u16
}

pub fn read_u32(input: &[u8], pos: usize, e: Endianness) -> (r: u32)
    requires
        pos + 4 <= input@.len(),
    ensures
        r == u32_at(input@, pos as int, e),
        r as nat == uint_of(input@.subrange(pos as int, pos + 4), e),
{
    let v = read_uint(input, pos, 4, e);
    proof {
        lemma_uint_of_bound(input@.subrange(pos as int, pos + 4), e);
        assert(pow256(4) == 0x1_0000_0000) by {
            assert(pow256(0) == 1);
            assert(pow256(1) == 0x100);
            assert(pow256(2) == 0x1_0000);
            assert(pow256(3) == 0x100_0000);
        }
    }
    v as u32
}

pub fn read_u64(input: &[u8], pos: usize, e: Endianness) -> (r: u64)
    requires
        pos + 8 <= input@.len(),
    ensures
        r == u64_at(input@, pos as int, e),
        r as nat == uint_of(input@.subrange(pos as int, pos + 8), e),
{
    read_uint(input, pos, 8, e)
}

/// A copy of `input[start..end]`.
pub fn copy_range(input: &[u8], start: usize, end: usize) -> (r: Vec<u8>)
    requires
        start <= end <= input@.len(),
    ensures
        r@ == input@.subrange(start as int, end as int),
{
    let mut out: Vec<u8> = Vec::new();
    let mut i: usize = start;
    while i < end
        invariant
            start <= i <= end,
            end <= input@.len(),
            out@ == input@.subrange(start as int, i as int),
        decreases end - i,
    {
        out.push(input[i]);
        i += 1;
        assert(out@ =~= input@.subrange(start as int, i as int));
    }
    out
}

/// A value of `u16`, `u32` or `u64` fits in its width.
pub proof fn lemma_pow256_widths()
    ensures
        pow256(2) == 0x1_0000,
        pow256(4) == 0x1_0000_0000,
        pow256(8) == 0x1_0000_0000_0000_0000,
{
    lemma_pow256_seven();
    assert(pow256(2) == 0x1_0000) by {
        assert(pow256(0) == 1);
        assert(pow256(1) == 0x100);
    }
    assert(pow256(4) == 0x1_0000_0000) by {
        assert(pow256(3) == 0x100_0000);
    }
}

} // verus!
