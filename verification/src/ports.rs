use vstd::prelude::*;
use std::collections::HashMap;
use crate::numbers::{dec_chars, dec_string, digits_value};
use crate::endpoint::lemma_dec_string;
use crate::process::{build_process_info, clone_opt, process_name_spec, ProcessInfo};
use crate::text::{append_chars, chars_of, opt_text, string_of};

verus! {

/// A socket as a platform listing reports it, before process details are added.
#[derive(Debug, Clone, PartialEq, Eq)]
pub struct RawPortEntry {
    pub protocol: String,
    pub local_address: String,
    pub local_port: u16,
    pub remote_address: Option<String>,
    pub remote_port: Option<u16>,
    pub state: Option<String>,
    pub pid: u32,
    pub process_name_hint: Option<String>,
    pub id_hint: String,
}

/// A listed socket with its texts as character sequences.
pub struct RawPort {
    pub protocol: Seq<char>,
    pub local_address: Seq<char>,
    pub local_port: u16,
    pub remote_address: Option<Seq<char>>,
    pub remote_port: Option<u16>,
    pub state: Option<Seq<char>>,
    pub pid: u32,
    pub process_name_hint: Option<Seq<char>>,
    pub id_hint: Seq<char>,
}

impl View for RawPortEntry {
    type V = RawPort;

    open spec fn view(&self) -> RawPort {
        RawPort {
            protocol: self.protocol@,
            local_address: self.local_address@,
            local_port: self.local_port,
            remote_address: opt_text(self.remote_address),
            remote_port: self.remote_port,
            state: opt_text(self.state),
            pid: self.pid,
            process_name_hint: opt_text(self.process_name_hint),
            id_hint: self.id_hint@,
        }
    }
}

/// The views of a list of raw entries.
pub open spec fn raw_views(rows: Seq<RawPortEntry>) -> Seq<RawPort> {
    rows.map_values(|r: RawPortEntry| r@)
}

/// The values present in a list of optional values, in order.
pub open spec fn somes<T>(s: Seq<Option<T>>) -> Seq<T>
    decreases s.len(),
{
    if s.len() == 0 {
        Seq::empty()
    } else {
        match s.last() {
            Some(x) => somes(s.drop_last()).push(x),
            None => somes(s.drop_last()),
        }
    }
}

/// A socket as the port list shows it.
#[derive(Debug, Clone, PartialEq, Eq)]
pub struct PortEntry {
    pub id: String,
    pub protocol: String,
    pub local_address: String,
    pub local_port: u16,
    pub remote_address: Option<String>,
    pub remote_port: Option<u16>,
    pub state: Option<String>,
    pub pid: u32,
    pub process_name: String,
    pub process_path: Option<String>,
}

/// A shown socket with its texts as character sequences.
pub struct PortRow {
    pub id: Seq<char>,
    pub protocol: Seq<char>,
    pub local_address: Seq<char>,
    pub local_port: u16,
    pub remote_address: Option<Seq<char>>,
    pub remote_port: Option<u16>,
    pub state: Option<Seq<char>>,
    pub pid: u32,
    pub process_name: Seq<char>,
    pub process_path: Option<Seq<char>>,
}

impl View for PortEntry {
    type V = PortRow;

    open spec fn view(&self) -> PortRow {
        PortRow {
            id: self.id@,
            protocol: self.protocol@,
            local_address: self.local_address@,
            local_port: self.local_port,
            remote_address: opt_text(self.remote_address),
            remote_port: self.remote_port,
            state: opt_text(self.state),
            pid: self.pid,
            process_name: self.process_name@,
            process_path: opt_text(self.process_path),
        }
    }
}

/// The views of a list of shown sockets.
pub open spec fn row_views(rows: Seq<PortEntry>) -> Seq<PortRow> {
    rows.map_values(|r: PortEntry| r@)
}

/// The index of the first entry of `raws` for process `pid` (the length when there is none).
pub open spec fn pid_first(raws: Seq<RawPort>, pid: u32) -> int
    decreases raws.len(),
{
    if raws.len() == 0 {
        0
    } else if raws[0].pid == pid {
        0
    } else {
        1 + pid_first(raws.drop_first(), pid)
    }
}

proof fn lemma_pid_first(raws: Seq<RawPort>, pid: u32)
    ensures
        0 <= pid_first(raws, pid) <= raws.len(),
        forall|k: int| 0 <= k < pid_first(raws, pid) ==> raws[k].pid != pid,
        pid_first(raws, pid) < raws.len() ==> raws[pid_first(raws, pid)].pid == pid,
    decreases raws.len(),
{
    if raws.len() > 0 && raws[0].pid != pid {
        lemma_pid_first(raws.drop_first(), pid);
        assert forall|k: int| 0 <= k < pid_first(raws, pid) implies raws[k].pid != pid by {
            if k > 0 {
                assert(raws[k] == raws.drop_first()[k - 1]);
            }
        }
    }
}

proof fn lemma_pid_first_unique(raws: Seq<RawPort>, pid: u32, j: int)
    requires
        0 <= j < raws.len(),
        raws[j].pid == pid,
        forall|k: int| 0 <= k < j ==> raws[k].pid != pid,
    ensures
        pid_first(raws, pid) == j,
{
    lemma_pid_first(raws, pid);
    let f = pid_first(raws, pid);
    if f < j {
        assert(raws[f].pid != pid);
    } else if f > j {
        assert(raws[j].pid != pid);
    }
}

/// The path of process `pid` among the looked-up executable paths (none when it was not
/// looked up).
pub open spec fn path_of(paths: Map<u32, Option<String>>, pid: u32) -> Option<Seq<char>> {
    if paths.contains_key(pid) {
        opt_text(paths[pid])
    } else {
        None
    }
}

/// The id of the shown socket made from listed socket `r` at position `index`.
pub open spec fn row_id(r: RawPort, index: int) -> Seq<char> {
    r.protocol + seq!['-'] + r.local_address + seq!['-'] + dec_string(r.local_port as nat) + seq!['-']
        + dec_string(r.pid as nat) + seq!['-'] + r.id_hint + seq!['-'] + dec_string(index as nat)
}

/// The shown socket for the listed socket at `index`: its process is named from the name
/// hint of the first listed socket of the same process.
pub open spec fn port_row(
    raws: Seq<RawPort>,
    names: Map<u32, String>,
    paths: Map<u32, Option<String>>,
    index: int,
) -> PortRow {
    let r = raws[index];
    let hint = raws[pid_first(raws, r.pid)].process_name_hint;
    PortRow {
        id: row_id(r, index),
        protocol: r.protocol,
        local_address: r.local_address,
        local_port: r.local_port,
        remote_address: r.remote_address,
        remote_port: r.remote_port,
        state: r.state,
        pid: r.pid,
        process_name: process_name_spec(r.pid, hint, names, path_of(paths, r.pid)),
        process_path: path_of(paths, r.pid),
    }
}

/// The shown sockets for the listed ones, in listing order.
pub open spec fn port_rows(
    raws: Seq<RawPort>,
    names: Map<u32, String>,
    paths: Map<u32, Option<String>>,
) -> Seq<PortRow> {
    Seq::new(raws.len(), |i: int| port_row(raws, names, paths, i))
}

/// The process ids of `raws`, each once, in order of first appearance.
pub open spec fn distinct_pids_spec(raws: Seq<RawPort>) -> Seq<u32>
    decreases raws.len(),
{
    if raws.len() == 0 {
        Seq::empty()
    } else {
        let prefix = distinct_pids_spec(raws.drop_last());
        if prefix.contains(raws.last().pid) {
            prefix
        } else {
            prefix.push(raws.last().pid)
        }
    }
}

/// The process ids of the listed sockets, each once, in order of first appearance: the
/// processes whose executable paths are looked up.
pub fn distinct_pids(raws: &Vec<RawPortEntry>) -> (res: Vec<u32>)
    ensures
        res@ == distinct_pids_spec(raw_views(raws@)),
{
    let mut res: Vec<u32> = Vec::new();
    let mut i: usize = 0;
    while i < raws.len()
        invariant
            i <= raws.len(),
            res@ == distinct_pids_spec(raw_views(raws@).take(i as int)),
        decreases raws.len() - i,
    {
        assert(raw_views(raws@).take(i + 1).drop_last() =~= raw_views(raws@).take(i as int));
        let pid = raws[i].pid;
        let mut seen = false;
        let mut k: usize = 0;
        while k < res.len()
            invariant
                k <= res.len(),
                seen == (exists|m: int| 0 <= m < k && res@[m] == pid),
            decreases res.len() - k,
        {
            if res[k] == pid {
                seen = true;
            }
            k = k + 1;
        }
        assert(seen == res@.contains(pid));
        if !seen {
            res.push(pid);
        }
        i = i + 1;
    }
    assert(raw_views(raws@).take(raws.len() as int) =~= raw_views(raws@));
    res
}

fn push_str_chars(v: &mut Vec<char>, s: &String)
    ensures
        final(v)@ == old(v)@ + s@,
{
    let c = chars_of(s.as_str());
    append_chars(v, c.as_slice());
}

fn push_dec(v: &mut Vec<char>, n: u64)
    ensures
        final(v)@ == old(v)@ + dec_string(n as nat),
{
    let c = dec_chars(n);
    append_chars(v, c.as_slice());
}

fn make_id(r: &RawPortEntry, index: usize) -> (id: String)
    ensures
        id@ == row_id(r@, index as int),
{
    let mut v: Vec<char> = Vec::new();
    push_str_chars(&mut v, &r.protocol);
    v.push('-');
    push_str_chars(&mut v, &r.local_address);
    v.push('-');
    push_dec(&mut v, r.local_port as u64);
    v.push('-');
    push_dec(&mut v, r.pid as u64);
    v.push('-');
    push_str_chars(&mut v, &r.id_hint);
    v.push('-');
    push_dec(&mut v, index as u64);
    assert(v@ =~= row_id(r@, index as int));
    string_of(v.as_slice())
}

fn opt_as_str(o: &Option<String>) -> (res: Option<&str>)
    ensures
        match res {
            Some(t) => o is Some && t@ == o.unwrap()@,
            None => o is None,
        },
{
    match o {
        Some(s) => Some(s.as_str()),
        None => None,
    }
}

/// The shown sockets for the listed ones, in listing order.
fn build_rows(
    raws: &Vec<RawPortEntry>,
    process_names: &HashMap<u32, String>,
    process_paths: &HashMap<u32, Option<String>>,
) -> (rows: Vec<PortEntry>)
    ensures
        row_views(rows@) == port_rows(raw_views(raws@), process_names@, process_paths@),
{
    broadcast use vstd::std_specs::hash::group_hash_axioms;

    let ghost rv = raw_views(raws@);
    let ghost target = port_rows(rv, process_names@, process_paths@);
    let mut first: HashMap<u32, usize> = HashMap::new();
    let mut rows: Vec<PortEntry> = Vec::new();
    let mut i: usize = 0;
    while i < raws.len()
        invariant
            i <= raws.len(),
            rv == raw_views(raws@),
            target == port_rows(rv, process_names@, process_paths@),
            forall|p: u32| #[trigger] first@.contains_key(p) ==> first@[p] < i && pid_first(rv, p) == first@[p] as int,
            forall|j: int| 0 <= j < i ==> #[trigger] first@.contains_key(rv[j].pid),
            row_views(rows@) == target.take(i as int),
        decreases raws.len() - i,
    {
        let r = &raws[i];
        let pid = r.pid;
        assert(rv[i as int] == r@);
        let f: usize = match first.get(&pid) {
            Some(f) => *f,
            None => {
                assert forall|k: int| 0 <= k < i implies rv[k].pid != pid by {
                    if rv[k].pid == pid {
                        assert(first@.contains_key(rv[k].pid));
                    }
                }
                proof {
                    lemma_pid_first_unique(rv, pid, i as int);
                }
                first.insert(pid, i);
                i
            },
        };
        assert(pid_first(rv, pid) == f as int);
        let hint = opt_as_str(&raws[f].process_name_hint);
        assert(rv[f as int] == raws@[f as int]@);
        let path = match process_paths.get(&pid) {
            Some(o) => clone_opt(o),
            None => None,
        };
        assert(opt_text(path) == path_of(process_paths@, pid));
        let info = build_process_info(pid, hint, process_names, path);
        let row = PortEntry {
            id: make_id(r, i),
            protocol: r.protocol.clone(),
            local_address: r.local_address.clone(),
            local_port: r.local_port,
            remote_address: clone_opt(&r.remote_address),
            remote_port: r.remote_port,
            state: clone_opt(&r.state),
            pid,
            process_name: info.name,
            process_path: info.path,
        };
        assert(row@ == target[i as int]);
        let ghost before = rows@;
        rows.push(row);
        assert(row_views(rows@) =~= row_views(before).push(row@));
        assert(target.take(i + 1) =~= target.take(i as int).push(target[i as int]));
        i = i + 1;
    }
    assert(target.take(raws.len() as int) =~= target);
    rows
}

/// `a` comes before `b` in lexicographic order of characters (which is also the byte order
/// of their UTF-8 encodings, the order of `String`).
pub open spec fn text_lt(a: Seq<char>, b: Seq<char>) -> bool
    decreases a.len(),
{
    if a.len() == 0 {
        b.len() > 0
    } else if b.len() == 0 {
        false
    } else if a[0] != b[0] {
        a[0] < b[0]
    } else {
        text_lt(a.drop_first(), b.drop_first())
    }
}

/// Two different texts are ordered one way or the other, and never both ways.
pub proof fn lemma_text_lt_total(a: Seq<char>, b: Seq<char>)
    ensures
        a != b ==> text_lt(a, b) || text_lt(b, a),
        !(text_lt(a, b) && text_lt(b, a)),
        !text_lt(a, a),
    decreases a.len(),
{
    if a.len() > 0 && b.len() > 0 && a[0] == b[0] {
        lemma_text_lt_total(a.drop_first(), b.drop_first());
        if a != b {
            assert(a.drop_first() != b.drop_first()) by {
                if a.drop_first() == b.drop_first() {
                    assert(a =~= seq![a[0]] + a.drop_first());
                    assert(b =~= seq![b[0]] + b.drop_first());
                }
            }
        }
    }
    if a.len() > 0 {
        lemma_text_lt_total(a.drop_first(), a.drop_first());
    }
    if a.len() == 0 && b.len() == 0 {
        assert(a =~= b);
    }
}

/// `text_lt` is transitive.
pub proof fn lemma_text_lt_transitive(a: Seq<char>, b: Seq<char>, c: Seq<char>)
    requires
        text_lt(a, b),
        text_lt(b, c),
    ensures
        text_lt(a, c),
    decreases a.len(),
{
    if a.len() > 0 && b.len() > 0 && c.len() > 0 && a[0] == b[0] && b[0] == c[0] {
        lemma_text_lt_transitive(a.drop_first(), b.drop_first(), c.drop_first());
    }
}

/// Whether `a` comes before `b` in character order.
pub fn chars_lt(a: &[char], b: &[char]) -> (res: bool)
    ensures
        res == text_lt(a@, b@),
{
    let mut i: usize = 0;
    assert(a@.skip(0) =~= a@);
    assert(b@.skip(0) =~= b@);
    while i < a.len() && i < b.len()
        invariant
            i <= a.len(),
            i <= b.len(),
            text_lt(a@, b@) == text_lt(a@.skip(i as int), b@.skip(i as int)),
        decreases a.len() - i,
    {
        assert(a@.skip(i as int)[0] == a@[i as int]);
        assert(b@.skip(i as int)[0] == b@[i as int]);
        if a[i] != b[i] {
            return a[i] < b[i];
        }
        assert(a@.skip(i as int).drop_first() =~= a@.skip(i + 1));
        assert(b@.skip(i as int).drop_first() =~= b@.skip(i + 1));
        i = i + 1;
    }
    i == a.len() && i < b.len()
}

/// The sort key of a shown socket: local port, then protocol, then process id.
pub open spec fn key_lt(a: PortRow, b: PortRow) -> bool {
    ||| a.local_port < b.local_port
    ||| a.local_port == b.local_port && text_lt(a.protocol, b.protocol)
    ||| a.local_port == b.local_port && a.protocol == b.protocol && a.pid < b.pid
}

/// Two shown sockets have the same sort key.
pub open spec fn same_key(a: PortRow, b: PortRow) -> bool {
    a.local_port == b.local_port && a.protocol == b.protocol && a.pid == b.pid
}

/// Row `a`, which was at position `ia` before sorting, comes right before row `b`, which was
/// at `ib`: its key is smaller, or the keys are equal and it came first (the sort is stable).
pub open spec fn sorted_before(a: PortRow, ia: int, b: PortRow, ib: int) -> bool {
    key_lt(a, b) || (same_key(a, b) && ia < ib)
}

/// `perm` lists each index below `n` exactly once.
pub open spec fn is_permutation(perm: Seq<int>, n: int) -> bool {
    &&& perm.len() == n
    &&& forall|k: int| 0 <= k < n ==> 0 <= #[trigger] perm[k] < n
    &&& forall|k1: int, k2: int| 0 <= k1 < n && 0 <= k2 < n && k1 != k2 ==> perm[k1] != perm[k2]
}

/// `sorted` is `rows` stably sorted by local port, protocol and process id, `perm` telling for
/// each sorted row where it stood before.
pub open spec fn is_stable_sort(rows: Seq<PortRow>, sorted: Seq<PortRow>, perm: Seq<int>) -> bool {
    &&& is_permutation(perm, rows.len() as int)
    &&& sorted.len() == rows.len()
    &&& forall|k: int| 0 <= k < sorted.len() ==> #[trigger] sorted[k] == rows[perm[k]]
    &&& forall|k: int| 0 <= k < sorted.len() - 1 ==> sorted_before(#[trigger] sorted[k], perm[k], sorted[k + 1], perm[k + 1])
}

fn key_gt(a: &PortEntry, b: &PortEntry) -> (res: bool)
    ensures
        res == key_lt(b@, a@),
{
    if a.local_port != b.local_port {
        return a.local_port > b.local_port;
    }
    let pa = chars_of(a.protocol.as_str());
    let pb = chars_of(b.protocol.as_str());
    if chars_lt(pb.as_slice(), pa.as_slice()) {
        return true;
    }
    if a.protocol != b.protocol {
        return false;
    }
    a.pid > b.pid
}

proof fn lemma_not_gt(a: PortRow, b: PortRow)
    requires
        !key_lt(b, a),
    ensures
        key_lt(a, b) || same_key(a, b),
{
    lemma_text_lt_total(a.protocol, b.protocol);
}

/// What holds after `i` rounds of insertion sort: the rows are the starting ones rearranged
/// by `perm`, the first `i` are sorted and came from the first `i` places, the rest are untouched.
pub open spec fn insertion_state(orig: Seq<PortRow>, rows: Seq<PortRow>, perm: Seq<int>, i: int) -> bool {
    let n = orig.len() as int;
    &&& 1 <= i <= n
    &&& rows.len() == n
    &&& is_permutation(perm, n)
    &&& forall|k: int| 0 <= k < n ==> #[trigger] rows[k] == orig[perm[k]]
    &&& forall|k: int| i <= k < n ==> #[trigger] perm[k] == k
    &&& forall|k: int| 0 <= k < i ==> #[trigger] perm[k] < i
    &&& forall|k: int| 0 <= k < i - 1 ==> sorted_before(#[trigger] rows[k], perm[k], rows[k + 1], perm[k + 1])
}

/// The place that place `k` takes its row from when row `i` moves to place `j`.
pub open spec fn moved_from(k: int, i: int, j: int) -> int {
    if k < j {
        k
    } else if k == j {
        i
    } else if k <= i {
        k - 1
    } else {
        k
    }
}

proof fn lemma_move_places<T>(s: Seq<T>, i: int, j: int)
    requires
        0 <= j <= i < s.len(),
    ensures
        s.remove(i).insert(j, s[i]).len() == s.len(),
        forall|k: int| 0 <= k < s.len() ==> #[trigger] s.remove(i).insert(j, s[i])[k] == s[moved_from(k, i, j)],
{
    assert forall|k: int| 0 <= k < s.len() implies #[trigger] s.remove(i).insert(j, s[i])[k] == s[moved_from(k, i, j)] by {
        if k < j {
        } else if k == j {
        } else if k <= i {
        } else {
        }
    }
}

proof fn lemma_move_permutation(perm: Seq<int>, n: int, i: int, j: int)
    requires
        is_permutation(perm, n),
        0 <= j <= i < n,
        forall|k: int| i <= k < n ==> #[trigger] perm[k] == k,
        forall|k: int| 0 <= k < i ==> #[trigger] perm[k] < i,
    ensures
        is_permutation(perm.remove(i).insert(j, perm[i]), n),
        forall|k: int| i + 1 <= k < n ==> #[trigger] perm.remove(i).insert(j, perm[i])[k] == k,
        forall|k: int| 0 <= k < i + 1 ==> #[trigger] perm.remove(i).insert(j, perm[i])[k] < i + 1,
{
    let p2 = perm.remove(i).insert(j, perm[i]);
    lemma_move_places(perm, i, j);
    assert forall|k: int| 0 <= k < n implies 0 <= #[trigger] p2[k] < n by {
        assert(p2[k] == perm[moved_from(k, i, j)]);
    }
    assert forall|k1: int, k2: int| 0 <= k1 < n && 0 <= k2 < n && k1 != k2 implies p2[k1] != p2[k2] by {
        assert(p2[k1] == perm[moved_from(k1, i, j)]);
        assert(p2[k2] == perm[moved_from(k2, i, j)]);
    }
    assert forall|k: int| i + 1 <= k < n implies #[trigger] p2[k] == k by {
        assert(p2[k] == perm[moved_from(k, i, j)]);
    }
    assert forall|k: int| 0 <= k < i + 1 implies #[trigger] p2[k] < i + 1 by {
        assert(p2[k] == perm[moved_from(k, i, j)]);
    }
}

proof fn lemma_move_sorted(rows: Seq<PortRow>, perm: Seq<int>, i: int, j: int)
    requires
        rows.len() == perm.len(),
        0 <= j <= i < rows.len(),
        forall|k: int| 0 <= k < i ==> #[trigger] perm[k] < i,
        perm[i] == i,
        forall|k: int| 0 <= k < i - 1 ==> sorted_before(#[trigger] rows[k], perm[k], rows[k + 1], perm[k + 1]),
        j > 0 ==> !key_lt(rows[i], rows[j - 1]),
        j < i ==> key_lt(rows[i], rows[j]),
    ensures
        ({
            let r2 = rows.remove(i).insert(j, rows[i]);
            let p2 = perm.remove(i).insert(j, perm[i]);
            forall|k: int| 0 <= k < i ==> sorted_before(#[trigger] r2[k], p2[k], r2[k + 1], p2[k + 1])
        }),
{
    let r2 = rows.remove(i).insert(j, rows[i]);
    let p2 = perm.remove(i).insert(j, perm[i]);
    lemma_move_places(rows, i, j);
    lemma_move_places(perm, i, j);
    assert forall|k: int| 0 <= k < i implies sorted_before(#[trigger] r2[k], p2[k], r2[k + 1], p2[k + 1]) by {
        assert(r2[k] == rows[moved_from(k, i, j)] && p2[k] == perm[moved_from(k, i, j)]);
        assert(r2[k + 1] == rows[moved_from(k + 1, i, j)] && p2[k + 1] == perm[moved_from(k + 1, i, j)]);
        if k + 1 < j {
            assert(sorted_before(rows[k], perm[k], rows[k + 1], perm[k + 1]));
        } else if k + 1 == j {
            lemma_not_gt(rows[j - 1], rows[i]);
            assert(perm[j - 1] < i);
        } else if k == j {
        } else {
            assert(sorted_before(rows[k - 1], perm[k - 1], rows[k], perm[k]));
        }
    }
}

/// Moving row `i` to place `j`, before the first of the sorted rows whose key is larger,
/// extends the sorted part by one row.
proof fn lemma_insertion_step(orig: Seq<PortRow>, rows: Seq<PortRow>, perm: Seq<int>, i: int, j: int)
    requires
        insertion_state(orig, rows, perm, i),
        i < orig.len(),
        0 <= j <= i,
        j > 0 ==> !key_lt(rows[i], rows[j - 1]),
        j < i ==> key_lt(rows[i], rows[j]),
    ensures
        insertion_state(orig, rows.remove(i).insert(j, rows[i]), perm.remove(i).insert(j, perm[i]), i + 1),
{
    let n = orig.len() as int;
    let r2 = rows.remove(i).insert(j, rows[i]);
    let p2 = perm.remove(i).insert(j, perm[i]);
    lemma_move_permutation(perm, n, i, j);
    lemma_move_sorted(rows, perm, i, j);
    lemma_move_places(rows, i, j);
    lemma_move_places(perm, i, j);
    assert forall|k: int| 0 <= k < n implies #[trigger] r2[k] == orig[p2[k]] by {
        assert(r2[k] == rows[moved_from(k, i, j)] && p2[k] == perm[moved_from(k, i, j)]);
    }
}

/// Sorts the rows stably by local port, protocol and process id (insertion sort).
fn sort_rows(rows: &mut Vec<PortEntry>) -> (perm: Ghost<Seq<int>>)
    ensures
        is_stable_sort(row_views(old(rows)@), row_views(final(rows)@), perm@),
{
    let ghost orig = row_views(rows@);
    let ghost mut perm: Seq<int> = Seq::new(rows.len() as nat, |k: int| k);
    let n = rows.len();
    if n == 0 {
        assert(is_stable_sort(orig, row_views(rows@), perm));
        return Ghost(perm);
    }
    assert(insertion_state(orig, row_views(rows@), perm, 1));
    let mut i: usize = 1;
    while i < n
        invariant
            rows.len() == n,
            orig.len() == n,
            orig == row_views(old(rows)@),
            insertion_state(orig, row_views(rows@), perm, i as int),
        decreases n - i,
    {
        let ghost views_before = row_views(rows@);
        let x = rows.remove(i);
        let ghost shrunk = rows@;
        assert(x@ == views_before[i as int]);
        assert(forall|k: int| 0 <= k < i ==> #[trigger] shrunk[k]@ == views_before[k]);
        let mut j: usize = i;
        while j > 0 && key_gt(&rows[j - 1], &x)
            invariant
                0 <= j <= i,
                i < n,
                rows@ == shrunk,
                shrunk.len() == n - 1,
                j < i ==> key_lt(x@, shrunk[j as int]@),
            decreases j,
        {
            j = j - 1;
        }
        rows.insert(j, x);
        proof {
            assert(j > 0 ==> !key_lt(views_before[i as int], views_before[j - 1]));
            assert(j < i ==> key_lt(views_before[i as int], views_before[j as int]));
            lemma_insertion_step(orig, views_before, perm, i as int, j as int);
            assert(row_views(rows@) =~= views_before.remove(i as int).insert(j as int, views_before[i as int]));
            perm = perm.remove(i as int).insert(j as int, perm[i as int]);
        }
        i = i + 1;
    }
    assert(is_stable_sort(orig, row_views(rows@), perm));
    Ghost(perm)
}

/// The port list: one shown socket per listed socket, its process named from the known
/// process names, the name hint of the first listed socket of that process and the looked-up
/// path of its executable, with an id made of its fields and its place in the listing;
/// sorted stably by local port, protocol and process id.
pub fn list_ports(
    raw_entries: Vec<RawPortEntry>,
    process_names: &HashMap<u32, String>,
    process_paths: &HashMap<u32, Option<String>>,
) -> (rows: Vec<PortEntry>)
    ensures
        exists|perm: Seq<int>|
            is_stable_sort(
                port_rows(raw_views(raw_entries@), process_names@, process_paths@),
                row_views(rows@),
                perm,
            ),
{
    let mut rows = build_rows(&raw_entries, process_names, process_paths);
    let perm = sort_rows(&mut rows);
    rows
}

/// Law: in the port list, sockets of the same process show the same process name and path.
pub proof fn law_same_process_same_info(
    raws: Seq<RawPort>,
    names: Map<u32, String>,
    paths: Map<u32, Option<String>>,
    sorted: Seq<PortRow>,
    perm: Seq<int>,
    k1: int,
    k2: int,
)
    requires
        is_stable_sort(port_rows(raws, names, paths), sorted, perm),
        0 <= k1 < sorted.len(),
        0 <= k2 < sorted.len(),
        sorted[k1].pid == sorted[k2].pid,
    ensures
        sorted[k1].process_name == sorted[k2].process_name,
        sorted[k1].process_path == sorted[k2].process_path,
{
    let rows = port_rows(raws, names, paths);
    assert(sorted[k1] == rows[perm[k1]]);
    assert(sorted[k2] == rows[perm[k2]]);
}

proof fn lemma_key_order_transitive(a: PortRow, b: PortRow, c: PortRow)
    requires
        key_lt(a, b) || same_key(a, b),
        key_lt(b, c) || same_key(b, c),
    ensures
        key_lt(a, c) || same_key(a, c),
{
    if text_lt(a.protocol, b.protocol) && text_lt(b.protocol, c.protocol) {
        lemma_text_lt_transitive(a.protocol, b.protocol, c.protocol);
    }
}

/// Law: the port list is ordered by local port, then protocol, then process id: no socket
/// comes after one with a larger key.
pub proof fn law_port_list_ordered(rows: Seq<PortRow>, sorted: Seq<PortRow>, perm: Seq<int>, k1: int, k2: int)
    requires
        is_stable_sort(rows, sorted, perm),
        0 <= k1 <= k2 < sorted.len(),
    ensures
        key_lt(sorted[k1], sorted[k2]) || same_key(sorted[k1], sorted[k2]),
    decreases k2 - k1,
{
    if k1 == k2 {
    } else {
        law_port_list_ordered(rows, sorted, perm, k1, k2 - 1);
        assert(sorted_before(sorted[k2 - 1], perm[k2 - 1], sorted[k2], perm[k2]));
        lemma_key_order_transitive(sorted[k1], sorted[k2 - 1], sorted[k2]);
    }
}

/// Two texts that end in a dash followed by digits end in the same digits when they are equal.
proof fn lemma_same_digit_suffix(x: Seq<char>, d1: Seq<char>, y: Seq<char>, d2: Seq<char>)
    requires
        (x + seq!['-']) + d1 == (y + seq!['-']) + d2,
        forall|i: int| 0 <= i < d1.len() ==> '0' <= #[trigger] d1[i] <= '9',
        forall|i: int| 0 <= i < d2.len() ==> '0' <= #[trigger] d2[i] <= '9',
    ensures
        d1 == d2,
{
    let s = (x + seq!['-']) + d1;
    let t = (y + seq!['-']) + d2;
    let n = s.len() as int;
    if d1.len() < d2.len() {
        let p = n - d1.len() - 1;
        assert(s[p] == '-');
        assert(t[p] == d2[p - (n - d2.len())]);
    } else if d2.len() < d1.len() {
        let p = n - d2.len() - 1;
        assert(t[p] == '-');
        assert(s[p] == d1[p - (n - d1.len())]);
    } else {
        assert(d1 =~= s.subrange(n - d1.len(), n));
        assert(d2 =~= t.subrange(n - d2.len(), n));
    }
}

/// Law: every socket of the port list has an id of its own.
pub proof fn law_port_ids_distinct(
    raws: Seq<RawPort>,
    names: Map<u32, String>,
    paths: Map<u32, Option<String>>,
    sorted: Seq<PortRow>,
    perm: Seq<int>,
    k1: int,
    k2: int,
)
    requires
        is_stable_sort(port_rows(raws, names, paths), sorted, perm),
        0 <= k1 < sorted.len(),
        0 <= k2 < sorted.len(),
        k1 != k2,
    ensures
        sorted[k1].id != sorted[k2].id,
{
    let rows = port_rows(raws, names, paths);
    let a = perm[k1];
    let b = perm[k2];
    assert(sorted[k1] == rows[a]);
    assert(sorted[k2] == rows[b]);
    assert(a != b);
    if sorted[k1].id == sorted[k2].id {
        let ra = raws[a];
        let rb = raws[b];
        let xa = ra.protocol + seq!['-'] + ra.local_address + seq!['-'] + dec_string(ra.local_port as nat)
            + seq!['-'] + dec_string(ra.pid as nat) + seq!['-'] + ra.id_hint;
        let xb = rb.protocol + seq!['-'] + rb.local_address + seq!['-'] + dec_string(rb.local_port as nat)
            + seq!['-'] + dec_string(rb.pid as nat) + seq!['-'] + rb.id_hint;
        assert(row_id(ra, a) == (xa + seq!['-']) + dec_string(a as nat));
        assert(row_id(rb, b) == (xb + seq!['-']) + dec_string(b as nat));
        lemma_dec_string(a as nat);
        lemma_dec_string(b as nat);
        lemma_same_digit_suffix(xa, dec_string(a as nat), xb, dec_string(b as nat));
        assert(digits_value(dec_string(a as nat), 10) == a);
        assert(digits_value(dec_string(b as nat), 10) == b);
    }
}

/// Law: the port list is ordered by local port as an unsigned number; sockets on the same
/// port are ordered by protocol name, and those with the same port and protocol by process id.
pub proof fn law_port_list_numeric_order(rows: Seq<PortRow>, sorted: Seq<PortRow>, perm: Seq<int>, k1: int, k2: int)
    requires
        is_stable_sort(rows, sorted, perm),
        0 <= k1 <= k2 < sorted.len(),
    ensures
        sorted[k1].local_port as int <= sorted[k2].local_port as int,
        sorted[k1].local_port == sorted[k2].local_port ==> !text_lt(sorted[k2].protocol, sorted[k1].protocol),
        sorted[k1].local_port == sorted[k2].local_port && sorted[k1].protocol == sorted[k2].protocol
            ==> sorted[k1].pid as int <= sorted[k2].pid as int,
{
    law_port_list_ordered(rows, sorted, perm, k1, k2);
    lemma_text_lt_total(sorted[k1].protocol, sorted[k2].protocol);
}

} // verus!
