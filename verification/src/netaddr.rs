use vstd::prelude::*;
use crate::numbers::{dec_chars, dec_string, hex_string, radix_chars};
use crate::text::append_chars;

verus! {

/// An IPv4 address in dotted decimal, as `Ipv4Addr` displays it.
pub open spec fn ipv4_text(a: u8, b: u8, c: u8, d: u8) -> Seq<char> {
    dec_string(a as nat) + seq!['.'] + dec_string(b as nat) + seq!['.'] + dec_string(c as nat)
        + seq!['.'] + dec_string(d as nat)
}

pub fn ipv4_chars(a: u8, b: u8, c: u8, d: u8) -> (res: Vec<char>)
    ensures
        res@ == ipv4_text(a, b, c, d),
{
    let mut res = dec_chars(a as u64);
    res.push('.');
    let t = dec_chars(b as u64);
    append_chars(&mut res, t.as_slice());
    res.push('.');
    let t = dec_chars(c as u64);
    append_chars(&mut res, t.as_slice());
    res.push('.');
    let t = dec_chars(d as u64);
    append_chars(&mut res, t.as_slice());
    res
}

/// The eight 16-bit groups of an IPv6 address given by its sixteen octets, most
/// significant octet first.
pub open spec fn segments(o: Seq<u8>) -> Seq<int> {
    Seq::new(8, |i: int| 256 * o[2 * i] + o[2 * i + 1])
}

/// The values of 16-bit groups.
pub open spec fn seg_values(s: Seq<u16>) -> Seq<int> {
    s.map_values(|x: u16| x as int)
}

/// The groups `st` up to `st + l` are all zero.
pub open spec fn zero_run(s: Seq<int>, st: int, l: int) -> bool {
    0 <= st && 0 <= l && st + l <= s.len() && forall|k: int| st <= k < st + l ==> s[k] == 0
}

/// The groups `st` up to `st + l` are the leftmost of the longest runs of zero groups,
/// and that run is at least two groups long: these are the groups written as `::`.
pub open spec fn is_elided_run(s: Seq<int>, st: int, l: int) -> bool {
    &&& l >= 2
    &&& zero_run(s, st, l)
    &&& forall|st2: int, l2: int| zero_run(s, st2, l2) ==> l2 <= l
    &&& forall|st2: int| 0 <= st2 < st ==> !zero_run(s, st2, l)
}

/// The groups in lower-case hexadecimal, separated by colons.
pub open spec fn hex_groups(s: Seq<int>) -> Seq<char>
    decreases s.len(),
{
    if s.len() == 0 {
        Seq::empty()
    } else if s.len() == 1 {
        hex_string(s[0] as nat)
    } else {
        hex_groups(s.drop_last()) + seq![':'] + hex_string(s.last() as nat)
    }
}

/// An IPv6 address as `Ipv6Addr` displays it: an IPv4-mapped address as `::ffff:` and the
/// dotted IPv4 address; otherwise the groups in hexadecimal, with the leftmost longest run of
/// at least two zero groups written as `::`.
pub open spec fn ipv6_text(o: Seq<u8>) -> Seq<char> {
    let s = segments(o);
    if s[0] == 0 && s[1] == 0 && s[2] == 0 && s[3] == 0 && s[4] == 0 && s[5] == 0xffff {
        seq![':', ':', 'f', 'f', 'f', 'f', ':'] + ipv4_text(o[12], o[13], o[14], o[15])
    } else if exists|st: int, l: int| #[trigger] is_elided_run(s, st, l) {
        let (st, l) = choose|st: int, l: int| is_elided_run(s, st, l);
        hex_groups(s.take(st)) + seq![':', ':'] + hex_groups(s.skip(st + l))
    } else {
        hex_groups(s)
    }
}

fn hex_groups_chars(s: &[u16]) -> (res: Vec<char>)
    ensures
        res@ == hex_groups(seg_values(s@)),
{
    let ghost v = seg_values(s@);
    let mut res: Vec<char> = Vec::new();
    let mut i: usize = 0;
    while i < s.len()
        invariant
            i <= s.len(),
            v == seg_values(s@),
            res@ == hex_groups(v.take(i as int)),
        decreases s.len() - i,
    {
        assert(v.take(i + 1).drop_last() =~= v.take(i as int));
        if i > 0 {
            res.push(':');
        } else {
            assert(res@ =~= Seq::<char>::empty());
        }
        let h = radix_chars(s[i] as u64, 16);
        append_chars(&mut res, h.as_slice());
        i = i + 1;
        assert(res@ =~= hex_groups(v.take(i as int)));
    }
    assert(v.take(s.len() as int) =~= v);
    res
}

fn is_zero_run(s: &[u16; 8], st: usize, l: usize) -> (b: bool)
    requires
        st + l <= 8,
    ensures
        b == zero_run(seg_values(s@), st as int, l as int),
{
    let mut k: usize = st;
    while k < st + l
        invariant
            st <= k <= st + l,
            st + l <= 8,
            forall|j: int| st <= j < k ==> s@[j] == 0,
        decreases st + l - k,
    {
        if s[k] != 0 {
            assert(seg_values(s@)[k as int] != 0);
            return false;
        }
        k = k + 1;
    }
    true
}

/// Finds the groups to write as `::`, if any.
fn elided_run(s: &[u16; 8]) -> (res: Option<(usize, usize)>)
    ensures
        match res {
            Some((st, l)) => is_elided_run(seg_values(s@), st as int, l as int),
            None => !exists|st: int, l: int| #[trigger] is_elided_run(seg_values(s@), st, l),
        },
{
    let ghost v = seg_values(s@);
    let mut l: usize = 8;
    while l >= 2
        invariant
            1 <= l <= 8,
            v == seg_values(s@),
            forall|st2: int, l2: int| zero_run(v, st2, l2) ==> l2 <= l,
        decreases l,
    {
        let mut st: usize = 0;
        while st + l <= 8
            invariant
                2 <= l <= 8,
                st <= 8,
                v == seg_values(s@),
                forall|st2: int, l2: int| zero_run(v, st2, l2) ==> l2 <= l,
                forall|st2: int| 0 <= st2 < st ==> !zero_run(v, st2, l as int),
            decreases 8 - st,
        {
            if is_zero_run(s, st, l) {
                return Some((st, l));
            }
            st = st + 1;
        }
        assert forall|st2: int, l2: int| zero_run(v, st2, l2) implies l2 <= l - 1 by {
            if l2 == l {
                assert(st2 < st);
            } else if l2 > l {
            }
        }
        l = l - 1;
    }
    assert forall|st: int, l2: int| !is_elided_run(v, st, l2) by {}
    None
}

/// The text of the IPv6 address with octets `o`.
pub fn ipv6_chars(o: &[u8]) -> (res: Vec<char>)
    requires
        o@.len() == 16,
    ensures
        res@ == ipv6_text(o@),
{
    let mut seg: [u16; 8] = [0; 8];
    let mut i: usize = 0;
    while i < 8
        invariant
            i <= 8,
            o@.len() == 16,
            forall|j: int| 0 <= j < i ==> seg@[j] as int == 256 * o@[2 * j] + o@[2 * j + 1],
        decreases 8 - i,
    {
        let hi = o[2 * i] as u16;
        let lo = o[2 * i + 1] as u16;
        seg[i] = hi * 256 + lo;
        i = i + 1;
    }
    let ghost v = seg_values(seg@);
    assert(v =~= segments(o@));
    if seg[0] == 0 && seg[1] == 0 && seg[2] == 0 && seg[3] == 0 && seg[4] == 0 && seg[5] == 0xffff {
        let mut res: Vec<char> = Vec::new();
        res.push(':');
        res.push(':');
        res.push('f');
        res.push('f');
        res.push('f');
        res.push('f');
        res.push(':');
        let t = ipv4_chars(o[12], o[13], o[14], o[15]);
        append_chars(&mut res, t.as_slice());
        assert(res@ =~= ipv6_text(o@));
        return res;
    }
    match elided_run(&seg) {
        Some((st, l)) => {
            let ghost pick = choose|st: int, l: int| is_elided_run(v, st, l);
            assert(pick.0 == st && pick.1 == l) by {
                let (a, b) = pick;
                assert(is_elided_run(v, a, b));
                assert(b == l);
                if a < st {
                } else if a > st {
                    assert(zero_run(v, st as int, l as int));
                }
            }
            let mut res = hex_groups_chars(&seg[0..st]);
            res.push(':');
            res.push(':');
            let tail = hex_groups_chars(&seg[st + l..8]);
            append_chars(&mut res, tail.as_slice());
            assert(seg_values(seg@.subrange(0, st as int)) =~= v.take(st as int));
            assert(seg_values(seg@.subrange(st + l, 8)) =~= v.skip(st + l));
            res
        },
        None => {
            let res = hex_groups_chars(&seg);
            res
        },
    }
}

} // verus!
