use vstd::prelude::*;
use crate::netaddr::{ipv4_chars, ipv4_text, ipv6_chars, ipv6_text};
use std::collections::HashMap;
use crate::endpoint::lemma_dec_string;
use crate::numbers::{dec_chars, dec_string, parse_unsigned, parse_unsigned_spec};
use crate::ports::{raw_views, somes, RawPort, RawPortEntry};
use crate::text::{opt_text, append_chars, chars_of, ends_with, eq_chars, has_prefix, has_suffix, lines, split_lines, split_once, split_once_at, split_whitespace, starts_with, string_of, sub_vec, views, words};

verus! {

/// The name of a TCP state as `/proc/net/tcp` codes it in hexadecimal.
pub open spec fn tcp_state_name(v: Seq<char>) -> Seq<char> {
    if v == seq!['0', '1'] {
        "ESTABLISHED"@
    } else if v == seq!['0', '2'] {
        "SYN_SENT"@
    } else if v == seq!['0', '3'] {
        "SYN_RECEIVED"@
    } else if v == seq!['0', '4'] {
        "FIN_WAIT1"@
    } else if v == seq!['0', '5'] {
        "FIN_WAIT2"@
    } else if v == seq!['0', '6'] {
        "TIME_WAIT"@
    } else if v == seq!['0', '7'] {
        "CLOSE"@
    } else if v == seq!['0', '8'] {
        "CLOSE_WAIT"@
    } else if v == seq!['0', '9'] {
        "LAST_ACK"@
    } else if v == seq!['0', 'A'] {
        "LISTENING"@
    } else if v == seq!['0', 'B'] {
        "CLOSING"@
    } else if v == seq!['0', 'C'] {
        "NEW_SYN_RECV"@
    } else {
        "UNKNOWN"@
    }
}

pub fn tcp_state_chars(v: &[char]) -> (res: &'static str)
    ensures
        res@ == tcp_state_name(v@),
{
    if v.len() != 2 || v[0] != '0' {
        assert(forall|c: char| v@ != seq!['0', c]) by {
            assert forall|c: char| v@ != seq!['0', c] by {
                if v@ == seq!['0', c] {
                    assert(v@[0] == '0');
                }
            }
        }
        return "UNKNOWN";
    }
    let c = v[1];
    assert(v@ =~= seq!['0', c]);
    if c == '1' {
        "ESTABLISHED"
    } else if c == '2' {
        "SYN_SENT"
    } else if c == '3' {
        "SYN_RECEIVED"
    } else if c == '4' {
        "FIN_WAIT1"
    } else if c == '5' {
        "FIN_WAIT2"
    } else if c == '6' {
        "TIME_WAIT"
    } else if c == '7' {
        "CLOSE"
    } else if c == '8' {
        "CLOSE_WAIT"
    } else if c == '9' {
        "LAST_ACK"
    } else if c == 'A' {
        "LISTENING"
    } else if c == 'B' {
        "CLOSING"
    } else if c == 'C' {
        "NEW_SYN_RECV"
    } else {
        "UNKNOWN"
    }
}

/// The name of the TCP state that `/proc/net/tcp` writes as `value` (`UNKNOWN` for any other text).
pub fn linux_tcp_state(value: &str) -> (res: &'static str)
    ensures
        res@ == tcp_state_name(value@),
{
    let v = chars_of(value);
    tcp_state_chars(v.as_slice())
}

/// Byte `k` (0 is the least significant) of the 32-bit word `w`.
pub open spec fn le_byte(w: int, k: int) -> u8 {
    if k == 0 {
        (w % 256) as u8
    } else if k == 1 {
        ((w / 256) % 256) as u8
    } else if k == 2 {
        ((w / 65536) % 256) as u8
    } else {
        ((w / 16777216) % 256) as u8
    }
}

/// The 32-bit word written in hexadecimal by characters `8 * b` to `8 * b + 8` of `addr`.
pub open spec fn hex_word(addr: Seq<char>, b: int) -> Option<int> {
    parse_unsigned_spec(addr.subrange(8 * b, 8 * b + 8), 16, 0xffff_ffff)
}

/// The octets of an IPv6 address that `/proc/net/tcp6` writes as four hexadecimal words,
/// each word's bytes least significant first.
pub open spec fn ipv6_octets(addr: Seq<char>) -> Seq<u8> {
    Seq::new(16, |i: int| le_byte(hex_word(addr, i / 4).unwrap(), i % 4))
}

/// `addr` is 32 characters that write four hexadecimal 32-bit words.
pub open spec fn proc_ipv6_valid(addr: Seq<char>) -> bool {
    addr.len() == 32 && hex_word(addr, 0) is Some && hex_word(addr, 1) is Some && hex_word(addr, 2) is Some
        && hex_word(addr, 3) is Some
}

/// The address and port of an endpoint of `/proc/net/{tcp,udp}` (`ipv6` false) or
/// `/proc/net/{tcp6,udp6}` (`ipv6` true), written `ADDRESS:PORT` in hexadecimal.
#[verifier::opaque]
pub open spec fn proc_endpoint_spec(value: Seq<char>, ipv6: bool) -> Option<(Seq<char>, u16)> {
    match split_once(value, seq![':']) {
        None => None,
        Some((addr, port)) => match parse_unsigned_spec(port, 16, 65535) {
            None => None,
            Some(p) => if ipv6 {
                if proc_ipv6_valid(addr) {
                    Some((ipv6_text(ipv6_octets(addr)), p as u16))
                } else {
                    None
                }
            } else {
                match parse_unsigned_spec(addr, 16, 0xffff_ffff) {
                    Some(w) => Some(
                        (
                            ipv4_text(le_byte(w, 0), le_byte(w, 1), le_byte(w, 2), le_byte(w, 3)),
                            p as u16,
                        ),
                    ),
                    None => None,
                }
            },
        },
    }
}

fn le_byte_exec(w: u64, k: usize) -> (res: u8)
    requires
        w <= 0xffff_ffff,
        k < 4,
    ensures
        res == le_byte(w as int, k as int),
{
    if k == 0 {
        (w % 256) as u8
    } else if k == 1 {
        ((w / 256) % 256) as u8
    } else if k == 2 {
        ((w / 65536) % 256) as u8
    } else {
        ((w / 16777216) % 256) as u8
    }
}

fn hex_word_exec(addr: &[char], b: usize) -> (res: Option<u64>)
    requires
        addr@.len() == 32,
        b < 4,
    ensures
        match res {
            Some(w) => hex_word(addr@, b as int) == Some(w as int) && w <= 0xffff_ffff,
            None => hex_word(addr@, b as int) is None,
        },
{
    parse_unsigned(&addr[8 * b..8 * b + 8], 16, 0xffff_ffff)
}

proof fn lemma_word_pushed(before: Seq<u8>, after: Seq<u8>, addr: Seq<char>, b: int, w: int)
    requires
        0 <= b < 4,
        before.len() == 4 * b,
        hex_word(addr, b) == Some(w),
        forall|i: int| 0 <= i < 4 * b ==> #[trigger] before[i] == le_byte(hex_word(addr, i / 4).unwrap(), i % 4),
        after == before.push(le_byte(w, 0)).push(le_byte(w, 1)).push(le_byte(w, 2)).push(le_byte(w, 3)),
    ensures
        after.len() == 4 * b + 4,
        forall|i: int| 0 <= i < 4 * b + 4 ==> #[trigger] after[i] == le_byte(hex_word(addr, i / 4).unwrap(), i % 4),
{
    assert forall|i: int| 0 <= i < 4 * b + 4 implies #[trigger] after[i] == le_byte(hex_word(addr, i / 4).unwrap(), i % 4) by {
        if i < 4 * b {
            assert(after[i] == before[i]);
        } else {
            assert(i / 4 == b);
        }
    }
}

/// The IPv6 address text for the 32 hexadecimal digits `addr`.
fn proc_ipv6_text(addr: &[char]) -> (res: Option<Vec<char>>)
    ensures
        match res {
            Some(t) => proc_ipv6_valid(addr@) && t@ == ipv6_text(ipv6_octets(addr@)),
            None => !proc_ipv6_valid(addr@),
        },
{
    if addr.len() != 32 {
        return None;
    }
    let mut octets: Vec<u8> = Vec::new();
    let mut b: usize = 0;
    while b < 4
        invariant
            b <= 4,
            addr@.len() == 32,
            octets@.len() == 4 * b,
            forall|j: int| 0 <= j < b ==> hex_word(addr@, j) is Some,
            forall|i: int| 0 <= i < 4 * b ==> #[trigger] octets@[i] == le_byte(hex_word(addr@, i / 4).unwrap(), i % 4),
        decreases 4 - b,
    {
        let w = match hex_word_exec(addr, b) {
            Some(w) => w,
            None => return None,
        };
        let ghost before = octets@;
        octets.push(le_byte_exec(w, 0));
        octets.push(le_byte_exec(w, 1));
        octets.push(le_byte_exec(w, 2));
        octets.push(le_byte_exec(w, 3));
        proof {
            lemma_word_pushed(before, octets@, addr@, b as int, w as int);
        }
        b = b + 1;
    }
    assert(octets@ =~= ipv6_octets(addr@));
    Some(ipv6_chars(octets.as_slice()))
}

pub fn linux_parse_proc_endpoint_chars(value: &[char], ipv6: bool) -> (res: Option<(Vec<char>, u16)>)
    ensures
        match res {
            Some((a, p)) => proc_endpoint_spec(value@, ipv6) == Some((a@, p)),
            None => proc_endpoint_spec(value@, ipv6) is None,
        },
{
    reveal(proc_endpoint_spec);
    let colon: [char; 1] = [':'];
    assert(colon@ =~= seq![':']);
    let (addr, port_hex) = match split_once_at(value, &colon) {
        Some(parts) => parts,
        None => return None,
    };
    let port = match parse_unsigned(port_hex.as_slice(), 16, 65535) {
        Some(p) => p,
        None => return None,
    };
    if ipv6 {
        match proc_ipv6_text(addr.as_slice()) {
            Some(text) => Some((text, port as u16)),
            None => None,
        }
    } else {
        let w = match parse_unsigned(addr.as_slice(), 16, 0xffff_ffff) {
            Some(w) => w,
            None => return None,
        };
        let text = ipv4_chars(le_byte_exec(w, 0), le_byte_exec(w, 1), le_byte_exec(w, 2), le_byte_exec(w, 3));
        Some((text, port as u16))
    }
}

/// Reads an endpoint of `/proc/net` as its address text and port.
pub fn linux_parse_proc_endpoint(value: &str, ipv6: bool) -> (res: Option<(String, u16)>)
    ensures
        match res {
            Some((a, p)) => proc_endpoint_spec(value@, ipv6) == Some((a@, p)),
            None => proc_endpoint_spec(value@, ipv6) is None,
        },
{
    let v = chars_of(value);
    match linux_parse_proc_endpoint_chars(v.as_slice(), ipv6) {
        Some((a, p)) => Some((string_of(a.as_slice()), p)),
        None => None,
    }
}

/// A process directory of `/proc`: its name and the link targets of its open file descriptors
/// that could be read.
#[derive(Debug, Clone, PartialEq, Eq)]
pub struct ProcFdListing {
    pub dir_name: String,
    pub fd_targets: Vec<String>,
}

/// `socket:[`.
pub open spec fn socket_prefix() -> Seq<char> {
    seq!['s', 'o', 'c', 'k', 'e', 't', ':', '[']
}

/// The inode of a descriptor's link target `socket:[INODE]`.
pub open spec fn socket_inode(target: Seq<char>) -> Option<Seq<char>> {
    if target.len() >= 9 && starts_with(target, socket_prefix()) && target.last() == ']' {
        Some(target.subrange(8, target.len() - 1))
    } else {
        None
    }
}

/// The (inode, process id) pairs of the socket link targets of one process.
pub open spec fn target_pairs(targets: Seq<String>, pid: u32) -> Seq<(Seq<char>, u32)>
    decreases targets.len(),
{
    if targets.len() == 0 {
        Seq::empty()
    } else {
        target_pairs(targets.drop_last(), pid) + match socket_inode(targets.last()@) {
            Some(inode) => seq![(inode, pid)],
            None => Seq::empty(),
        }
    }
}

/// The (inode, process id) pairs of the socket descriptors of the processes whose directory
/// is named by a decimal process id, in the order of the listings and of their targets.
pub open spec fn socket_pairs(listings: Seq<ProcFdListing>) -> Seq<(Seq<char>, u32)>
    decreases listings.len(),
{
    if listings.len() == 0 {
        Seq::empty()
    } else {
        let l = listings.last();
        socket_pairs(listings.drop_last()) + match parse_unsigned_spec(l.dir_name@, 10, 0xffff_ffff) {
            Some(pid) => target_pairs(l.fd_targets@, pid as u32),
            None => Seq::empty(),
        }
    }
}

/// The process id of the first pair for `inode`.
pub open spec fn first_pid(pairs: Seq<(Seq<char>, u32)>, inode: Seq<char>) -> Option<u32>
    decreases pairs.len(),
{
    if pairs.len() == 0 {
        None
    } else if pairs[0].0 == inode {
        Some(pairs[0].1)
    } else {
        first_pid(pairs.drop_first(), inode)
    }
}

/// The process that holds each socket inode: the process of the first pair for it.
pub open spec fn inode_owners(pairs: Seq<(Seq<char>, u32)>) -> Map<Seq<char>, u32> {
    Map::new(|t: Seq<char>| first_pid(pairs, t) is Some, |t: Seq<char>| first_pid(pairs, t).unwrap())
}

/// The first pair for `inode` stays first when a pair is added at the end; when there was
/// none, the added pair is the first one if it is for `inode`.
proof fn lemma_first_pid_push(pairs: Seq<(Seq<char>, u32)>, x: (Seq<char>, u32), inode: Seq<char>)
    ensures
        first_pid(pairs.push(x), inode) == match first_pid(pairs, inode) {
            Some(p) => Some(p),
            None => if x.0 == inode { Some(x.1) } else { None },
        },
    decreases pairs.len(),
{
    if pairs.len() > 0 {
        assert(pairs.push(x)[0] == pairs[0]);
        assert(pairs.push(x).drop_first() =~= pairs.drop_first().push(x));
        lemma_first_pid_push(pairs.drop_first(), x, inode);
    } else {
        assert(pairs.push(x).drop_first() =~= Seq::<(Seq<char>, u32)>::empty());
        assert(pairs.push(x)[0] == x);
        assert(first_pid(pairs.push(x).drop_first(), inode) is None);
    }
}

/// The number that `t` writes in plain decimal (no sign, no leading zero), when it fits in
/// 32 bits: the form in which the kernel writes socket inodes.
pub open spec fn decimal_key(t: Seq<char>) -> Option<u32> {
    match parse_unsigned_spec(t, 10, 0xffff_ffff) {
        Some(n) => if dec_string(n as nat) == t {
            Some(n as u32)
        } else {
            None
        },
        None => None,
    }
}

/// A text with a decimal key is the decimal text of that key, and different keys have
/// different texts.
proof fn lemma_decimal_key(t: Seq<char>, u: Seq<char>)
    ensures
        decimal_key(t) is Some ==> dec_string(decimal_key(t).unwrap() as nat) == t,
        decimal_key(t) is Some && decimal_key(u) is Some && decimal_key(t) != decimal_key(u) ==> t != u,
{
    if decimal_key(t) is Some {
        let k = parse_unsigned_spec(t, 10, 0xffff_ffff).unwrap();
        assert(0 <= k <= 0xffff_ffff) by {
            crate::numbers::lemma_parse_unsigned_bounds(t, 10, 0xffff_ffff);
        }
    }
}

fn decimal_key_exec(t: &[char]) -> (res: Option<u32>)
    ensures
        res == decimal_key(t@),
{
    match parse_unsigned(t, 10, 0xffff_ffff) {
        Some(n) => {
            let digits = dec_chars(n);
            if eq_chars(digits.as_slice(), t) {
                Some(n as u32)
            } else {
                None
            }
        },
        None => None,
    }
}

/// The texts of (inode, process id) pairs.
pub open spec fn text_pairs(v: Seq<(String, u32)>) -> Seq<(Seq<char>, u32)> {
    v.map_values(|p: (String, u32)| (p.0@, p.1))
}

/// The process recorded for `inode`: by its number when it is written in plain decimal,
/// else by its text.
pub open spec fn table_owner(by_number: Map<u32, u32>, by_text: Seq<(String, u32)>, inode: Seq<char>) -> Option<u32> {
    match decimal_key(inode) {
        Some(n) => if by_number.contains_key(n) {
            Some(by_number[n])
        } else {
            None
        },
        None => first_pid(text_pairs(by_text), inode),
    }
}

/// Socket inodes and the processes that hold them; the first process recorded for an inode
/// is the one it belongs to. Inodes written in plain decimal are keyed by their number.
#[derive(Debug)]
pub struct InodeTable {
    by_number: HashMap<u32, u32>,
    by_text: Vec<(String, u32)>,
}

impl View for InodeTable {
    type V = Map<Seq<char>, u32>;

    closed spec fn view(&self) -> Map<Seq<char>, u32> {
        Map::new(
            |t: Seq<char>| table_owner(self.by_number@, self.by_text@, t) is Some,
            |t: Seq<char>| table_owner(self.by_number@, self.by_text@, t).unwrap(),
        )
    }
}

impl InodeTable {
    /// The process that holds the socket `inode`.
    pub fn lookup(&self, inode: &String) -> (res: Option<u32>)
        ensures
            res == (if self@.contains_key(inode@) {
                Some(self@[inode@])
            } else {
                None
            }),
    {
        broadcast use vstd::std_specs::hash::group_hash_axioms;
        let chars = chars_of(inode.as_str());
        let res = match decimal_key_exec(chars.as_slice()) {
            Some(n) => match self.by_number.get(&n) {
                Some(p) => Some(*p),
                None => None,
            },
            None => find_text(&self.by_text, inode),
        };
        assert(res == table_owner(self.by_number@, self.by_text@, inode@));
        res
    }
}

/// The process of the first pair for `inode` in a list of (inode text, process) pairs.
fn find_text(pairs: &Vec<(String, u32)>, inode: &String) -> (res: Option<u32>)
    ensures
        res == first_pid(text_pairs(pairs@), inode@),
{
    let ghost all = text_pairs(pairs@);
    let mut i: usize = 0;
    assert(all.skip(0) =~= all);
    while i < pairs.len()
        invariant
            i <= pairs.len(),
            all == text_pairs(pairs@),
            all.len() == pairs@.len(),
            first_pid(all, inode@) == first_pid(all.skip(i as int), inode@),
        decreases pairs.len() - i,
    {
        let ghost rest = all.skip(i as int);
        assert(rest[0] == (pairs@[i as int].0@, pairs@[i as int].1));
        assert(rest.drop_first() =~= all.skip(i + 1));
        if pairs[i].0 == *inode {
            return Some(pairs[i].1);
        }
        i = i + 1;
    }
    assert(all.skip(i as int) =~= Seq::<(Seq<char>, u32)>::empty());
    None
}

/// Records that `pid` holds socket `inode`, unless a process is already recorded for it.
fn record(by_number: &mut HashMap<u32, u32>, by_text: &mut Vec<(String, u32)>, inode: &[char], pid: u32)
    ensures
        forall|t: Seq<char>| #[trigger] table_owner(final(by_number)@, final(by_text)@, t) == match table_owner(old(by_number)@, old(by_text)@, t) {
            Some(p) => Some(p),
            None => if t == inode@ { Some(pid) } else { None },
        },
{
    broadcast use vstd::std_specs::hash::group_hash_axioms;
    match decimal_key_exec(inode) {
        Some(n) => {
            proof {
                lemma_decimal_key(inode@, inode@);
            }
            if !by_number.contains_key(&n) {
                by_number.insert(n, pid);
                assert forall|t: Seq<char>| #[trigger] table_owner(by_number@, by_text@, t) == match table_owner(old(by_number)@, old(by_text)@, t) {
                    Some(p) => Some(p),
                    None => if t == inode@ { Some(pid) } else { None },
                } by {
                    lemma_decimal_key(t, inode@);
                    lemma_decimal_key(inode@, t);
                    if decimal_key(t) is Some && decimal_key(t).unwrap() != n {
                        lemma_dec_string(decimal_key(t).unwrap() as nat);
                        lemma_dec_string(n as nat);
                        assert(t != inode@);
                    }
                }
            }
        },
        None => {
            let ghost before = by_text@;
            by_text.push((string_of(inode), pid));
            assert forall|t: Seq<char>| #[trigger] table_owner(by_number@, by_text@, t) == match table_owner(old(by_number)@, old(by_text)@, t) {
                Some(p) => Some(p),
                None => if t == inode@ { Some(pid) } else { None },
            } by {
                if decimal_key(t) is None {
                    assert(text_pairs(by_text@) =~= text_pairs(before).push((inode@, pid)));
                    lemma_first_pid_push(text_pairs(before), (inode@, pid), t);
                }
            }
        },
    }
}

/// Finds which process holds each socket inode, from the descriptor links of `/proc/*/fd`.
pub fn linux_socket_inode_to_pid(listings: &Vec<ProcFdListing>) -> (res: InodeTable)
    ensures
        res@ == inode_owners(socket_pairs(listings@)),
{
    let prefix: [char; 8] = ['s', 'o', 'c', 'k', 'e', 't', ':', '['];
    assert(prefix@ =~= socket_prefix());
    let mut by_number: HashMap<u32, u32> = HashMap::new();
    let mut by_text: Vec<(String, u32)> = Vec::new();
    let mut i: usize = 0;
    assert forall|t: Seq<char>| #[trigger] table_owner(by_number@, by_text@, t) == first_pid(socket_pairs(listings@.take(0)), t) by {
        assert(text_pairs(by_text@) =~= Seq::<(Seq<char>, u32)>::empty());
    }
    while i < listings.len()
        invariant
            i <= listings.len(),
            prefix@ == socket_prefix(),
            forall|t: Seq<char>| #[trigger] table_owner(by_number@, by_text@, t) == first_pid(socket_pairs(listings@.take(i as int)), t),
        decreases listings.len() - i,
    {
        let l = &listings[i];
        assert(listings@.take(i + 1).drop_last() =~= listings@.take(i as int));
        let ghost before = socket_pairs(listings@.take(i as int));
        let dir = chars_of(l.dir_name.as_str());
        match parse_unsigned(dir.as_slice(), 10, 0xffff_ffff) {
            Some(pid) => {
                let mut k: usize = 0;
                assert(before + target_pairs(l.fd_targets@.take(0), pid as u32) =~= before);
                while k < l.fd_targets.len()
                    invariant
                        k <= l.fd_targets.len(),
                        pid <= 0xffff_ffff,
                        prefix@ == socket_prefix(),
                        forall|t: Seq<char>| #[trigger] table_owner(by_number@, by_text@, t)
                            == first_pid(before + target_pairs(l.fd_targets@.take(k as int), pid as u32), t),
                    decreases l.fd_targets.len() - k,
                {
                    assert(l.fd_targets@.take(k + 1).drop_last() =~= l.fd_targets@.take(k as int));
                    let ghost so_far = before + target_pairs(l.fd_targets@.take(k as int), pid as u32);
                    let target = chars_of(l.fd_targets[k].as_str());
                    let n = target.len();
                    if n >= 9 && has_prefix(target.as_slice(), &prefix) && target[n - 1] == ']' {
                        let inode = sub_vec(target.as_slice(), 8, n - 1);
                        record(&mut by_number, &mut by_text, inode.as_slice(), pid as u32);
                        assert(before + target_pairs(l.fd_targets@.take(k + 1), pid as u32) =~= so_far.push((inode@, pid as u32)));
                        assert forall|t: Seq<char>| #[trigger] table_owner(by_number@, by_text@, t)
                            == first_pid(so_far.push((inode@, pid as u32)), t) by {
                            lemma_first_pid_push(so_far, (inode@, pid as u32), t);
                        }
                    } else {
                        assert(before + target_pairs(l.fd_targets@.take(k + 1), pid as u32) =~= so_far);
                    }
                    k = k + 1;
                }
                assert(l.fd_targets@.take(l.fd_targets.len() as int) =~= l.fd_targets@);
            },
            None => {
                assert(before + Seq::<(Seq<char>, u32)>::empty() =~= before);
            },
        }
        i = i + 1;
    }
    assert(listings@.take(listings.len() as int) =~= listings@);
    let res = InodeTable { by_number, by_text };
    assert(res@ =~= inode_owners(socket_pairs(listings@)));
    res
}

/// The view of an optional raw entry.
pub open spec fn opt_raw(o: Option<RawPortEntry>) -> Option<RawPort> {
    match o {
        Some(r) => Some(r@),
        None => None,
    }
}

/// `TCP`.
pub open spec fn tcp_text() -> Seq<char> {
    seq!['T', 'C', 'P']
}

/// The socket on line `index` of a `/proc/net` table read from `path`: none on the header line,
/// on a line of fewer than ten fields, or where an endpoint cannot be read; the inode's process
/// is 0 when no process holds it.
#[verifier::opaque]
pub open spec fn proc_net_row(
    path: Seq<char>,
    protocol: Seq<char>,
    ipv6: bool,
    owners: Map<Seq<char>, u32>,
    index: int,
    line: Seq<char>,
) -> Option<RawPort> {
    let parts = words(line);
    if index == 0 || parts.len() < 10 {
        None
    } else {
        match (proc_endpoint_spec(parts[1], ipv6), proc_endpoint_spec(parts[2], ipv6)) {
            (Some(local), Some(remote)) => {
                let inode = parts[9];
                Some(
                    RawPort {
                        protocol: protocol,
                        local_address: local.0,
                        local_port: local.1,
                        remote_address: Some(remote.0),
                        remote_port: Some(remote.1),
                        state: if protocol == tcp_text() {
                            Some(tcp_state_name(parts[3]))
                        } else {
                            None
                        },
                        pid: if owners.contains_key(inode) {
                            owners[inode]
                        } else {
                            0
                        },
                        process_name_hint: None,
                        id_hint: path + seq!['-'] + inode + seq!['-'] + dec_string(index as nat),
                    },
                )
            },
            _ => None,
        }
    }
}

/// The sockets of a `/proc/net` table, line by line.
pub open spec fn proc_net_row_options(
    path: Seq<char>,
    protocol: Seq<char>,
    ipv6: bool,
    owners: Map<Seq<char>, u32>,
    ls: Seq<Seq<char>>,
) -> Seq<Option<RawPort>> {
    Seq::new(ls.len(), |i: int| proc_net_row(path, protocol, ipv6, owners, i, ls[i]))
}

/// The sockets of the `/proc/net` table at `path` with content `text` (none when it could not
/// be read).
pub open spec fn proc_net_rows(
    path: Seq<char>,
    protocol: Seq<char>,
    ipv6: bool,
    owners: Map<Seq<char>, u32>,
    text: Option<Seq<char>>,
) -> Seq<RawPort> {
    match text {
        None => Seq::empty(),
        Some(t) => somes(proc_net_row_options(path, protocol, ipv6, owners, lines(t))),
    }
}

fn proc_net_row_exec(
    path: &[char],
    protocol: &String,
    is_tcp: bool,
    ipv6: bool,
    table: &InodeTable,
    index: usize,
    line: &Vec<char>,
) -> (res: Option<RawPortEntry>)
    requires
        is_tcp == (protocol@ == tcp_text()),
    ensures
        opt_raw(res) == proc_net_row(path@, protocol@, ipv6, table@, index as int, line@),
{
    reveal(proc_net_row);
    let parts = split_whitespace(line);
    if index == 0 || parts.len() < 10 {
        return None;
    }
    assert(parts@[1]@ == words(line@)[1] && parts@[2]@ == words(line@)[2] && parts@[3]@ == words(line@)[3] && parts@[9]@ == words(line@)[9]);
    let local = match linux_parse_proc_endpoint_chars(parts[1].as_slice(), ipv6) {
        Some(e) => e,
        None => return None,
    };
    let remote = match linux_parse_proc_endpoint_chars(parts[2].as_slice(), ipv6) {
        Some(e) => e,
        None => return None,
    };
    let inode = string_of(parts[9].as_slice());
    let pid = match table.lookup(&inode) {
        Some(p) => p,
        None => 0,
    };
    let state = if is_tcp {
        Some(tcp_state_chars(parts[3].as_slice()).to_owned())
    } else {
        None
    };
    let mut id: Vec<char> = Vec::new();
    append_chars(&mut id, path);
    id.push('-');
    append_chars(&mut id, parts[9].as_slice());
    id.push('-');
    let digits = dec_chars(index as u64);
    append_chars(&mut id, digits.as_slice());
    let (local_address, local_port) = local;
    let (remote_address, remote_port) = remote;
    let row = RawPortEntry {
        protocol: protocol.clone(),
        local_address: string_of(local_address.as_slice()),
        local_port,
        remote_address: Some(string_of(remote_address.as_slice())),
        remote_port: Some(remote_port),
        state,
        pid,
        process_name_hint: None,
        id_hint: string_of(id.as_slice()),
    };
    let ghost spec_row = proc_net_row(path@, protocol@, ipv6, table@, index as int, line@).unwrap();
    assert(id@ =~= spec_row.id_hint);
    assert(row@.protocol == spec_row.protocol);
    assert(row@.local_address == spec_row.local_address);
    assert(row@.state == spec_row.state);
    assert(row@.pid == spec_row.pid);
    assert(row@ == spec_row);
    Some(row)
}

/// Appends the sockets of the `/proc/net` table at `path` to `rows`; `text` is the table's
/// content, `None` when it could not be read, which adds nothing.
pub fn linux_read_proc_net(
    path: &str,
    protocol: &str,
    ipv6: bool,
    text: Option<&str>,
    inode_to_pid: &InodeTable,
    rows: &mut Vec<RawPortEntry>,
) -> (res: Result<(), String>)
    ensures
        res is Ok,
        raw_views(final(rows)@) == raw_views(old(rows)@) + proc_net_rows(
            path@,
            protocol@,
            ipv6,
            inode_to_pid@,
            match text {
                Some(t) => Some(t@),
                None => None,
            },
        ),
{
    let text = match text {
        Some(t) => t,
        None => {
            assert(raw_views(rows@) =~= raw_views(old(rows)@) + Seq::<RawPort>::empty());
            return Ok(());
        },
    };
    let path_chars = chars_of(path);
    let protocol_string = protocol.to_owned();
    let protocol_chars = chars_of(protocol);
    let tcp: [char; 3] = ['T', 'C', 'P'];
    assert(tcp@ =~= tcp_text());
    let is_tcp = eq_chars(protocol_chars.as_slice(), &tcp);
    let chars = chars_of(text);
    let ls = split_lines(&chars);
    let ghost opts = proc_net_row_options(path@, protocol@, ipv6, inode_to_pid@, lines(text@));
    let mut i: usize = 0;
    while i < ls.len()
        invariant
            i <= ls.len(),
            views(ls@) == lines(text@),
            opts == proc_net_row_options(path@, protocol@, ipv6, inode_to_pid@, lines(text@)),
            path_chars@ == path@,
            protocol_string@ == protocol@,
            is_tcp == (protocol@ == tcp_text()),
            raw_views(rows@) == raw_views(old(rows)@) + somes(opts.take(i as int)),
        decreases ls.len() - i,
    {
        assert(views(ls@)[i as int] == ls@[i as int]@);
        let row = proc_net_row_exec(path_chars.as_slice(), &protocol_string, is_tcp, ipv6, inode_to_pid, i, &ls[i]);
        assert(opts.take(i + 1).drop_last() =~= opts.take(i as int));
        assert(opts.take(i + 1).last() == opt_raw(row));
        let ghost before = rows@;
        match row {
            Some(r) => {
                rows.push(r);
                assert(raw_views(rows@) =~= raw_views(before).push(r@));
            },
            None => {},
        }
        i = i + 1;
    }
    assert(opts.take(ls.len() as int) =~= opts);
    Ok(())
}

/// What the four `/proc/net` tables hold (each `None` when it could not be read) and the
/// descriptor links of the processes in `/proc`.
#[derive(Debug, Clone, PartialEq, Eq)]
pub struct ProcSnapshot {
    pub tcp: Option<String>,
    pub tcp6: Option<String>,
    pub udp: Option<String>,
    pub udp6: Option<String>,
    pub fd_listings: Vec<ProcFdListing>,
}

/// The sockets of a Linux snapshot: those of `/proc/net/tcp`, `tcp6`, `udp` and `udp6`, in
/// that order, each owned by the process that holds its inode.
pub open spec fn linux_rows(snapshot: ProcSnapshot) -> Seq<RawPort> {
    let table = inode_owners(socket_pairs(snapshot.fd_listings@));
    proc_net_rows("/proc/net/tcp"@, "TCP"@, false, table, opt_text(snapshot.tcp))
        + proc_net_rows("/proc/net/tcp6"@, "TCP"@, true, table, opt_text(snapshot.tcp6))
        + proc_net_rows("/proc/net/udp"@, "UDP"@, false, table, opt_text(snapshot.udp))
        + proc_net_rows("/proc/net/udp6"@, "UDP"@, true, table, opt_text(snapshot.udp6))
}

fn opt_str(o: &Option<String>) -> (res: Option<&str>)
    ensures
        match res {
            Some(t) => o is Some && t@ == o.unwrap()@,
            None => o is None,
        },
{
    match o {
        Some(s) => Some(s.as_str()),
        None => None,
    }
}

/// The sockets that a snapshot of `/proc` lists.
pub fn list_ports_linux(snapshot: &ProcSnapshot) -> (res: Result<Vec<RawPortEntry>, String>)
    ensures
        res is Ok,
        raw_views(res.unwrap()@) == linux_rows(*snapshot),
{
    let inode_to_pid = linux_socket_inode_to_pid(&snapshot.fd_listings);
    let mut rows: Vec<RawPortEntry> = Vec::new();
    assert(raw_views(rows@) =~= Seq::<RawPort>::empty());
    let _ = linux_read_proc_net("/proc/net/tcp", "TCP", false, opt_str(&snapshot.tcp), &inode_to_pid, &mut rows);
    let _ = linux_read_proc_net("/proc/net/tcp6", "TCP", true, opt_str(&snapshot.tcp6), &inode_to_pid, &mut rows);
    let _ = linux_read_proc_net("/proc/net/udp", "UDP", false, opt_str(&snapshot.udp), &inode_to_pid, &mut rows);
    let _ = linux_read_proc_net("/proc/net/udp6", "UDP", true, opt_str(&snapshot.udp6), &inode_to_pid, &mut rows);
    assert(raw_views(rows@) =~= linux_rows(*snapshot));
    Ok(rows)
}

/// Law: `/proc/net/tcp` writes the kernel's TCP states by their numbers in two hexadecimal
/// digits, in the kernel's order (1 established, 2 SYN sent, 3 SYN received, 4 and 5 the FIN
/// waits, 6 time wait, 7 close, 8 close wait, 9 last ACK, 10 listen, 11 closing, 12 new SYN
/// received); every other text is an unknown state.
pub proof fn law_tcp_state_codes(v: Seq<char>)
    ensures
        tcp_state_name(seq!['0', '1']) == "ESTABLISHED"@,
        tcp_state_name(seq!['0', '2']) == "SYN_SENT"@,
        tcp_state_name(seq!['0', '3']) == "SYN_RECEIVED"@,
        tcp_state_name(seq!['0', '4']) == "FIN_WAIT1"@,
        tcp_state_name(seq!['0', '5']) == "FIN_WAIT2"@,
        tcp_state_name(seq!['0', '6']) == "TIME_WAIT"@,
        tcp_state_name(seq!['0', '7']) == "CLOSE"@,
        tcp_state_name(seq!['0', '8']) == "CLOSE_WAIT"@,
        tcp_state_name(seq!['0', '9']) == "LAST_ACK"@,
        tcp_state_name(seq!['0', 'A']) == "LISTENING"@,
        tcp_state_name(seq!['0', 'B']) == "CLOSING"@,
        tcp_state_name(seq!['0', 'C']) == "NEW_SYN_RECV"@,
        !(v.len() == 2 && v[0] == '0' && (('1' <= v[1] && v[1] <= '9') || ('A' <= v[1] && v[1] <= 'C')))
            ==> tcp_state_name(v) == "UNKNOWN"@,
{
    assert(seq!['0', '1'] != seq!['0', '2']);
    if !(v.len() == 2 && v[0] == '0' && (('1' <= v[1] && v[1] <= '9') || ('A' <= v[1] && v[1] <= 'C'))) {
        assert forall|c: char| ('1' <= c && c <= '9') || ('A' <= c && c <= 'C') implies v != seq!['0', c] by {
            if v == seq!['0', c] {
                assert(v[1] == c);
            }
        }
        assert(v != seq!['0', '1'] && v != seq!['0', '2'] && v != seq!['0', '3'] && v != seq!['0', '4']);
        assert(v != seq!['0', '5'] && v != seq!['0', '6'] && v != seq!['0', '7'] && v != seq!['0', '8']);
        assert(v != seq!['0', '9'] && v != seq!['0', 'A'] && v != seq!['0', 'B'] && v != seq!['0', 'C']);
    }
}

} // verus!
