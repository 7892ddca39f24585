//! Fixed-width integers as byte strings, and the order of byte strings.
//!
//! Keys of the store are big-endian, so that the order of the keys is the order of
//! the numbers in them. Values and wire messages are little-endian.

use vstd::prelude::*;

verus! {

/// The lowest `width` base-256 digits of `v`, most significant first.
pub open spec fn be_bytes(v: nat, width: nat) -> Seq<u8>
    decreases width,
{
    if width == 0 {
        Seq::empty()
    } else {
        be_bytes(v / 256, (width - 1) as nat).push((v % 256) as u8)
    }
}

/// The number whose base-256 digits, most significant first, are `s`.
pub open spec fn be_value(s: Seq<u8>) -> nat
    decreases s.len(),
{
    if s.len() == 0 {
        0
    } else {
        be_value(s.drop_last()) * 256 + s.last() as nat
    }
}

/// The lowest `width` base-256 digits of `v`, least significant first.
pub open spec fn le_bytes(v: nat, width: nat) -> Seq<u8>
    decreases width,
{
    if width == 0 {
        Seq::empty()
    } else {
        seq![(v % 256) as u8] + le_bytes(v / 256, (width - 1) as nat)
    }
}

/// The number whose base-256 digits, least significant first, are `s`.
pub open spec fn le_value(s: Seq<u8>) -> nat
    decreases s.len(),
{
    if s.len() == 0 {
        0
    } else {
        s[0] as nat + 256 * le_value(s.drop_first())
    }
}

/// The number of values that `width` base-256 digits can hold.
pub open spec fn byte_range(width: nat) -> nat
    decreases width,
{
    if width == 0 {
        1
    } else {
        256 * byte_range((width - 1) as nat)
    }
}

/// Byte strings in dictionary order, the order of the keys of the store.
pub open spec fn lex_less(a: Seq<u8>, b: Seq<u8>) -> bool
    decreases a.len(),
{
    if b.len() == 0 {
        false
    } else if a.len() == 0 {
        true
    } else if a[0] != b[0] {
        a[0] < b[0]
    } else {
        lex_less(a.drop_first(), b.drop_first())
    }
}

pub proof fn lemma_byte_ranges()
    ensures
        byte_range(1) == 0x100,
        byte_range(2) == 0x1_0000,
        byte_range(4) == 0x1_0000_0000,
        byte_range(8) == 0x1_0000_0000_0000_0000,
{
    reveal_with_fuel(byte_range, 9);
}

pub proof fn lemma_be_bytes_len(v: nat, width: nat)
    ensures
        be_bytes(v, width).len() == width,
    decreases width,
{
    if width > 0 {
        lemma_be_bytes_len(v / 256, (width - 1) as nat);
    }
}

pub proof fn lemma_le_bytes_len(v: nat, width: nat)
    ensures
        le_bytes(v, width).len() == width,
    decreases width,
{
    if width > 0 {
        lemma_le_bytes_len(v / 256, (width - 1) as nat);
    }
}

/// Reading back the big-endian digits of a number that fits gives the number.
pub proof fn lemma_be_value_of_bytes(v: nat, width: nat)
    requires
        v < byte_range(width),
    ensures
        be_value(be_bytes(v, width)) == v,
    decreases width,
{
    if width > 0 {
        let w = (width - 1) as nat;
        assert(v / 256 < byte_range(w)) by (nonlinear_arith)
            requires
                v < 256 * byte_range(w),
        ;
        lemma_be_value_of_bytes(v / 256, w);
        assert(be_bytes(v, width).drop_last() =~= be_bytes(v / 256, w));
    }
}

/// Every byte string is the big-endian form of the number that it reads as.
pub proof fn lemma_be_bytes_of_value(s: Seq<u8>)
    ensures
        be_bytes(be_value(s), s.len()) == s,
        be_value(s) < byte_range(s.len()),
    decreases s.len(),
{
    if s.len() > 0 {
        let front = s.drop_last();
        lemma_be_bytes_of_value(front);
        let high = be_value(front);
        let low = s.last() as nat;
        assert((high * 256 + low) / 256 == high && (high * 256 + low) % 256 == low)
            by (nonlinear_arith)
            requires
                low < 256,
        ;
        assert(front.push(s.last()) =~= s);
    }
}

/// Reading back the little-endian digits of a number that fits gives the number.
pub proof fn lemma_le_value_of_bytes(v: nat, width: nat)
    requires
        v < byte_range(width),
    ensures
        le_value(le_bytes(v, width)) == v,
    decreases width,
{
    if width > 0 {
        let w = (width - 1) as nat;
        assert(v / 256 < byte_range(w)) by (nonlinear_arith)
            requires
                v < 256 * byte_range(w),
        ;
        lemma_le_value_of_bytes(v / 256, w);
        assert(le_bytes(v, width).drop_first() =~= le_bytes(v / 256, w));
    }
}

/// Every byte string is the little-endian form of the number that it reads as.
pub proof fn lemma_le_bytes_of_value(s: Seq<u8>)
    ensures
        le_bytes(le_value(s), s.len()) == s,
        le_value(s) < byte_range(s.len()),
    decreases s.len(),
{
    if s.len() > 0 {
        let rest = s.drop_first();
        lemma_le_bytes_of_value(rest);
        let high = le_value(rest);
        let low = s[0] as nat;
        assert((low + 256 * high) / 256 == high && (low + 256 * high) % 256 == low)
            by (nonlinear_arith)
            requires
                low < 256,
        ;
        assert(seq![s[0]] + rest =~= s);
    }
}

/// Dictionary order looks past a common prefix.
pub proof fn lemma_lex_common_prefix(p: Seq<u8>, a: Seq<u8>, b: Seq<u8>)
    ensures
        lex_less(p + a, p + b) == lex_less(a, b),
    decreases p.len(),
{
    if p.len() == 0 {
        assert(p + a =~= a);
        assert(p + b =~= b);
    } else {
        lemma_lex_common_prefix(p.drop_first(), a, b);
        assert((p + a).drop_first() =~= p.drop_first() + a);
        assert((p + b).drop_first() =~= p.drop_first() + b);
    }
}

/// Two byte strings of one length that differ are ordered by what precedes any
/// bytes appended to them.
pub proof fn lemma_lex_append(a: Seq<u8>, b: Seq<u8>, x: Seq<u8>, y: Seq<u8>)
    requires
        a.len() == b.len(),
        a != b,
    ensures
        lex_less(a + x, b + y) == lex_less(a, b),
    decreases a.len(),
{
    if a.len() == 0 {
        assert(a =~= b);
    } else {
        assert((a + x).drop_first() =~= a.drop_first() + x);
        assert((b + y).drop_first() =~= b.drop_first() + y);
        if a[0] == b[0] {
            if a.drop_first() == b.drop_first() {
                assert(a =~= seq![a[0]] + a.drop_first());
                assert(b =~= seq![b[0]] + b.drop_first());
            }
            lemma_lex_append(a.drop_first(), b.drop_first(), x, y);
        }
    }
}

pub proof fn lemma_lex_irreflexive(a: Seq<u8>)
    ensures
        !lex_less(a, a),
    decreases a.len(),
{
    if a.len() > 0 {
        lemma_lex_irreflexive(a.drop_first());
    }
}

/// The key that comes next after `a` is `a` with a zero behind it.
pub proof fn lemma_lex_next(a: Seq<u8>, k: Seq<u8>)
    ensures
        lex_less(a, k) == !lex_less(k, a.push(0)),
    decreases a.len(),
{
    let b = a.push(0);
    if a.len() == 0 {
        assert(b.drop_first() =~= Seq::<u8>::empty());
        reveal_with_fuel(lex_less, 2);
    } else if k.len() > 0 && a[0] == k[0] {
        lemma_lex_next(a.drop_first(), k.drop_first());
        assert(b.drop_first() =~= a.drop_first().push(0));
    }
}

pub proof fn lemma_lex_total(a: Seq<u8>, b: Seq<u8>)
    ensures
        lex_less(a, b) || a == b || lex_less(b, a),
    decreases a.len(),
{
    if a.len() == 0 && b.len() == 0 {
        assert(a =~= b);
    } else if a.len() > 0 && b.len() > 0 && a[0] == b[0] {
        lemma_lex_total(a.drop_first(), b.drop_first());
        if a.drop_first() == b.drop_first() {
            assert(a =~= seq![a[0]] + a.drop_first());
            assert(b =~= seq![b[0]] + b.drop_first());
        }
    }
}

pub proof fn lemma_lex_transitive(a: Seq<u8>, b: Seq<u8>, c: Seq<u8>)
    requires
        lex_less(a, b),
        lex_less(b, c),
    ensures
        lex_less(a, c),
    decreases a.len(),
{
    if a.len() > 0 && b.len() > 0 && c.len() > 0 && a[0] == b[0] && b[0] == c[0] {
        lemma_lex_transitive(a.drop_first(), b.drop_first(), c.drop_first());
    }
}

/// Big-endian forms of one width are in dictionary order exactly as the numbers are.
pub proof fn lemma_be_bytes_order(x: nat, y: nat, width: nat)
    requires
        x < byte_range(width),
        y < byte_range(width),
    ensures
        lex_less(be_bytes(x, width), be_bytes(y, width)) <==> x < y,
        be_bytes(x, width) == be_bytes(y, width) <==> x == y,
    decreases width,
{
    lemma_be_value_of_bytes(x, width);
    lemma_be_value_of_bytes(y, width);
    if width > 0 {
        let w = (width - 1) as nat;
        assert(x / 256 < byte_range(w) && y / 256 < byte_range(w)) by (nonlinear_arith)
            requires
                x < 256 * byte_range(w),
                y < 256 * byte_range(w),
        ;
        lemma_be_bytes_order(x / 256, y / 256, w);
        lemma_be_bytes_len(x / 256, w);
        lemma_be_bytes_len(y / 256, w);
        let p = be_bytes(x / 256, w);
        let q = be_bytes(y / 256, w);
        let a = seq![(x % 256) as u8];
        let b = seq![(y % 256) as u8];
        assert(be_bytes(x, width) =~= p + a);
        assert(be_bytes(y, width) =~= q + b);
        if p == q {
            lemma_lex_common_prefix(p, a, b);
            reveal_with_fuel(lex_less, 2);
        } else {
            lemma_lex_append(p, q, a, b);
        }
    }
}

/// The 8 big-endian bytes of `v`.
pub fn u64_be_bytes(v: u64) -> (r: [u8; 8])
    ensures
        r@ == be_bytes(v as nat, 8),
{
    let mut out: [u8; 8] = [0u8; 8];
    let mut rest: u64 = v;
    let mut i: usize = 8;
    assert(be_bytes(v as nat, 8) =~= be_bytes(rest as nat, 8) + out@.subrange(8, 8));
    while i > 0
        invariant
            i <= 8,
            be_bytes(v as nat, 8) == be_bytes(rest as nat, i as nat) + out@.subrange(i as int, 8),
        decreases i,
    {
        let ghost before = out@;
        let ghost n = rest as nat;
        i = i - 1;
        out[i] = (rest % 256) as u8;
        rest = rest / 256;
        assert(be_bytes(n, (i + 1) as nat) == be_bytes(rest as nat, i as nat).push(
            (n % 256) as u8,
        ));
        assert(be_bytes(rest as nat, i as nat) + out@.subrange(i as int, 8) =~= be_bytes(
            n,
            (i + 1) as nat,
        ) + before.subrange(i + 1, 8));
    }
    assert(be_bytes(rest as nat, 0) + out@.subrange(0, 8) =~= out@);
    out
}

/// The 4 big-endian bytes of `v`.
pub fn u32_be_bytes(v: u32) -> (r: [u8; 4])
    ensures
        r@ == be_bytes(v as nat, 4),
{
    let mut out: [u8; 4] = [0u8; 4];
    let mut rest: u32 = v;
    let mut i: usize = 4;
    assert(be_bytes(v as nat, 4) =~= be_bytes(rest as nat, 4) + out@.subrange(4, 4));
    while i > 0
        invariant
            i <= 4,
            be_bytes(v as nat, 4) == be_bytes(rest as nat, i as nat) + out@.subrange(i as int, 4),
        decreases i,
    {
        let ghost before = out@;
        let ghost n = rest as nat;
        i = i - 1;
        out[i] = (rest % 256) as u8;
        rest = rest / 256;
        assert(be_bytes(n, (i + 1) as nat) == be_bytes(rest as nat, i as nat).push(
            (n % 256) as u8,
        ));
        assert(be_bytes(rest as nat, i as nat) + out@.subrange(i as int, 4) =~= be_bytes(
            n,
            (i + 1) as nat,
        ) + before.subrange(i + 1, 4));
    }
    assert(be_bytes(rest as nat, 0) + out@.subrange(0, 4) =~= out@);
    out
}

/// Reads the 8 bytes of `s` from `at` on as a big-endian number.
pub fn u64_from_be(s: &[u8], at: usize) -> (r: u64)
    requires
        at + 8 <= s@.len(),
    ensures
        r as nat == be_value(s@.subrange(at as int, at + 8)),
{
    let len: usize = s.len();
    let mut acc: u64 = 0;
    let mut i: usize = 0;
    proof {
        lemma_byte_ranges();
        assert(s@.subrange(at as int, at as int) =~= Seq::empty());
    }
    while i < 8
        invariant
            i <= 8,
            at + 8 <= len == s@.len(),
            acc as nat == be_value(s@.subrange(at as int, at + i)),
        decreases 8 - i,
    {
        proof {
            let part = s@.subrange(at as int, at + i);
            let next = s@.subrange(at as int, at + i + 1);
            assert(next.drop_last() =~= part);
            lemma_be_bytes_of_value(next);
            lemma_byte_range_monotone((i + 1) as nat, 8);
            lemma_byte_ranges();
        }
        acc = acc * 256 + s[at + i] as u64;
        i = i + 1;
    }
    acc
}

proof fn lemma_byte_range_monotone(a: nat, b: nat)
    requires
        a <= b,
    ensures
        0 < byte_range(a) <= byte_range(b),
    decreases b,
{
    if a < b {
        lemma_byte_range_monotone(a, (b - 1) as nat);
    } else if a > 0 {
        lemma_byte_range_monotone((a - 1) as nat, (a - 1) as nat);
    }
}

/// Reads the 4 bytes of `s` from `at` on as a big-endian number.
pub fn u32_from_be(s: &[u8], at: usize) -> (r: u32)
    requires
        at + 4 <= s@.len(),
    ensures
        r as nat == be_value(s@.subrange(at as int, at + 4)),
{
    let len: usize = s.len();
    let mut acc: u32 = 0;
    let mut i: usize = 0;
    proof {
        lemma_byte_ranges();
        assert(s@.subrange(at as int, at as int) =~= Seq::empty());
    }
    while i < 4
        invariant
            i <= 4,
            at + 4 <= len == s@.len(),
            acc as nat == be_value(s@.subrange(at as int, at + i)),
        decreases 4 - i,
    {
        proof {
            let part = s@.subrange(at as int, at + i);
            let next = s@.subrange(at as int, at + i + 1);
            assert(next.drop_last() =~= part);
            lemma_be_bytes_of_value(next);
            lemma_byte_range_monotone((i + 1) as nat, 4);
            lemma_byte_ranges();
        }
        acc = acc * 256 + s[at + i] as u32;
        i = i + 1;
    }
    acc
}

/// Whether one byte string comes before another in dictionary order.
pub fn lex_before(a: &[u8], b: &[u8]) -> (r: bool)
    ensures
        r == lex_less(a@, b@),
{
    let n: usize = a.len();
    let m: usize = b.len();
    let mut i: usize = 0;
    proof {
        lemma_lex_common_prefix(Seq::empty(), a@, b@);
        assert(a@.skip(0) =~= a@);
        assert(b@.skip(0) =~= b@);
    }
    while i < n && i < m
        invariant
            i <= n == a@.len(),
            i <= m == b@.len(),
            lex_less(a@, b@) == lex_less(a@.skip(i as int), b@.skip(i as int)),
        decreases n - i,
    {
        if a[i] != b[i] {
            return a[i] < b[i];
        }
        proof {
            assert(a@.skip(i as int).drop_first() =~= a@.skip(i + 1));
            assert(b@.skip(i as int).drop_first() =~= b@.skip(i + 1));
        }
        i = i + 1;
    }
    i < m
}

/// Whether two byte strings are the same.
pub fn same_bytes(a: &[u8], b: &[u8]) -> (r: bool)
    ensures
        r == (a@ == b@),
{
    let n: usize = a.len();
    if n != b.len() {
        return false;
    }
    assert(a@.subrange(0, n as int) =~= a@);
    starts_with(a, b)
}

/// Whether a byte string begins with another.
pub fn starts_with(a: &[u8], prefix: &[u8]) -> (r: bool)
    ensures
        r == (a@.len() >= prefix@.len() && a@.subrange(0, prefix@.len() as int) == prefix@),
{
    let n: usize = a.len();
    let m: usize = prefix.len();
    if n < m {
        return false;
    }
    let mut i: usize = 0;
    while i < m
        invariant
            i <= m == prefix@.len(),
            m <= n == a@.len(),
            forall|j: int| 0 <= j < i ==> a@[j] == prefix@[j],
        decreases m - i,
    {
        if a[i] != prefix[i] {
            assert(a@.subrange(0, m as int)[i as int] != prefix@[i as int]);
            return false;
        }
        i = i + 1;
    }
    assert(a@.subrange(0, m as int) =~= prefix@);
    true
}

} // verus!
