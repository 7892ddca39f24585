//! Addresses as plain values.

use crate::text::{decimal, hexadecimal, push_hexadecimal, push_str, push_u64};
use vstd::prelude::*;

verus! {

/// An IP address: whether it is a version 6 address, and its bits.
pub type Ip = (bool, u128);

/// A socket address: its IP address, port, and for version 6 the flow information and the
/// scope.
pub type PeerAddr = (Ip, u16, u32, u32);

/// The bytes of a version 4 address, the first one for 0.
pub open spec fn octet(bits: u128, i: int) -> u8 {
    (bits >> ((24 - 8 * i) as u128)) as u8
}

/// The groups of a version 6 address.
pub open spec fn groups(bits: u128) -> Seq<u16> {
    Seq::new(8, |i: int| (bits >> ((112 - 16 * i) as u128)) as u16)
}

/// A version 4 address as text.
pub open spec fn v4_text(bits: u128) -> Seq<char> {
    decimal(octet(bits, 0) as nat) + "."@ + decimal(octet(bits, 1) as nat) + "."@ + decimal(
        octet(bits, 2) as nat,
    ) + "."@ + decimal(octet(bits, 3) as nat)
}

/// Groups with colons between them.
pub open spec fn groups_text(g: Seq<u16>) -> Seq<char>
    decreases g.len(),
{
    if g.len() == 0 {
        Seq::empty()
    } else if g.len() == 1 {
        hexadecimal(g[0] as nat)
    } else {
        groups_text(g.drop_last()) + ":"@ + hexadecimal(g.last() as nat)
    }
}

/// How many groups from the given one on are zero.
pub open spec fn zeros_at(g: Seq<u16>, i: int) -> nat
    decreases g.len() - i,
{
    if 0 <= i < g.len() && g[i] == 0 {
        1 + zeros_at(g, i + 1)
    } else {
        0
    }
}

/// Where, among the positions up to the given one, the longest row of zeros starts; the
/// first of equally long ones.
pub open spec fn longest_zeros(g: Seq<u16>, last: nat) -> nat
    decreases last,
{
    if last == 0 {
        0
    } else {
        let best = longest_zeros(g, (last - 1) as nat);
        if zeros_at(g, last as int) > zeros_at(g, best as int) {
            last
        } else {
            best
        }
    }
}

/// A version 6 address as text: a version 4 address that is mapped into version 6 is shown
/// as such, and two colons stand for the longest row of two or more zeros.
pub open spec fn v6_text(bits: u128) -> Seq<char> {
    let g = groups(bits);
    let start = longest_zeros(g, 7) as int;
    let len = zeros_at(g, start);
    if bits >> 32u128 == 0xffff {
        "::ffff:"@ + v4_text(bits)
    } else if len > 1 {
        groups_text(g.take(start)) + "::"@ + groups_text(g.skip(start + len))
    } else {
        groups_text(g)
    }
}

/// An IP address as text.
pub open spec fn ip_text(ip: Ip) -> Seq<char> {
    if ip.0 {
        v6_text(ip.1)
    } else {
        v4_text(ip.1)
    }
}

fn push_v4(out: &mut String, bits: u128)
    ensures
        final(out)@ == old(out)@ + v4_text(bits),
{
    push_u64(out, ((bits >> 24u128) as u8) as u64);
    push_str(out, ".");
    push_u64(out, ((bits >> 16u128) as u8) as u64);
    push_str(out, ".");
    push_u64(out, ((bits >> 8u128) as u8) as u64);
    push_str(out, ".");
    push_u64(out, ((bits >> 0u128) as u8) as u64);
    assert(out@ =~= old(out)@ + v4_text(bits));
}

/// Appends the groups from one position up to another.
fn push_groups(out: &mut String, g: &Vec<u16>, from: usize, to: usize)
    requires
        from <= to <= g@.len(),
    ensures
        final(out)@ == old(out)@ + groups_text(g@.subrange(from as int, to as int)),
{
    let mut i: usize = from;
    assert(out@ =~= old(out)@ + groups_text(g@.subrange(from as int, from as int)));
    while i < to
        invariant
            from <= i <= to <= g@.len(),
            out@ == old(out)@ + groups_text(g@.subrange(from as int, i as int)),
        decreases to - i,
    {
        let ghost before = out@;
        let ghost next = g@.subrange(from as int, i + 1);
        assert(next.drop_last() =~= g@.subrange(from as int, i as int));
        if i > from {
            push_str(out, ":");
        }
        push_hexadecimal(out, g[i]);
        i += 1;
        assert(out@ =~= old(out)@ + groups_text(next));
    }
}

fn count_zeros(g: &Vec<u16>, i: usize) -> (r: usize)
    ensures
        r == zeros_at(g@, i as int),
        i <= g@.len() ==> i + r <= g@.len(),
    decreases g@.len() - i,
{
    if i < g.len() && g[i] == 0 {
        1 + count_zeros(g, i + 1)
    } else {
        0
    }
}

fn push_v6(out: &mut String, bits: u128)
    ensures
        final(out)@ == old(out)@ + v6_text(bits),
{
    if bits >> 32u128 == 0xffff {
        push_str(out, "::ffff:");
        push_v4(out, bits);
        assert(out@ =~= old(out)@ + v6_text(bits));
    } else {
        let mut g: Vec<u16> = Vec::new();
        let mut i: u128 = 0;
        while i < 8
            invariant
                i <= 8,
                g@ == groups(bits).take(i as int),
            decreases 8 - i,
        {
            g.push((bits >> (112 - 16 * i)) as u16);
            i += 1;
            assert(g@ =~= groups(bits).take(i as int));
        }
        assert(g@ =~= groups(bits));
        let mut start: usize = 0;
        let mut last: usize = 0;
        while last < 7
            invariant
                start <= last <= 7,
                g@.len() == 8,
                start == longest_zeros(g@, last as nat),
            decreases 7 - last,
        {
            last += 1;
            if count_zeros(&g, last) > count_zeros(&g, start) {
                start = last;
            }
        }
        let len: usize = count_zeros(&g, start);
        if len > 1 {
            push_groups(out, &g, 0, start);
            push_str(out, "::");
            push_groups(out, &g, start + len, 8);
            assert(g@.subrange(0, start as int) =~= g@.take(start as int));
            assert(g@.subrange(start + len, 8) =~= g@.skip(start + len));
        } else {
            push_groups(out, &g, 0, 8);
            assert(g@.subrange(0, 8) =~= g@);
        }
        assert(out@ =~= old(out)@ + v6_text(bits));
    }
}

/// Appends an IP address.
pub fn push_ip(out: &mut String, ip: Ip)
    ensures
        final(out)@ == old(out)@ + ip_text(ip),
{
    if ip.0 {
        push_v6(out, ip.1);
    } else {
        push_v4(out, ip.1);
    }
}

} // verus!
