use vstd::prelude::*;
use crate::endpoint::{endpoint_spec, parse_endpoint_chars};
use crate::numbers::{dec_chars, dec_string, parse_unsigned, parse_unsigned_spec};
use crate::ports::{raw_views, somes, RawPort, RawPortEntry};
use crate::procnet::{linux_rows, list_ports_linux, opt_raw, proc_net_row, proc_net_row_options, proc_net_rows, tcp_text, ProcSnapshot};
use crate::text::{opt_text, append_chars, ascii_upper_seq, chars_of, contains, eq_chars, find_in, from_utf8_lossy, lines, split_lines, split_once, split_once_at, split_whitespace, string_of, to_ascii_uppercase, trim_parens, trim_parens_spec, utf8_lossy, views, words};

verus! {

/// `UDP`.
pub open spec fn udp_text() -> Seq<char> {
    seq!['U', 'D', 'P']
}

/// A socket of `netstat -a -n -o` output with the given fields.
pub open spec fn netstat_entry(
    index: int,
    protocol: Seq<char>,
    local: Seq<char>,
    remote: Seq<char>,
    state: Option<Seq<char>>,
    pid: Seq<char>,
) -> Option<RawPort> {
    let (local_address, local_port) = endpoint_spec(local);
    let (remote_address, remote_port) = endpoint_spec(remote);
    match (local_port, parse_unsigned_spec(pid, 10, 0xffff_ffff)) {
        (Some(port), Some(pid)) => Some(
            RawPort {
                protocol: protocol,
                local_address: local_address,
                local_port: port,
                remote_address: Some(remote_address),
                remote_port: remote_port,
                state: state,
                pid: pid as u32,
                process_name_hint: None,
                id_hint: dec_string(index as nat),
            },
        ),
        _ => None,
    }
}

/// The socket on line `index` of `netstat -a -n -o` output: a TCP line has protocol, local
/// and remote endpoint, state and process id; a UDP line has no state. Other lines, lines
/// without a port or a process id, and lines with too few fields give none.
#[verifier::opaque]
pub open spec fn netstat_row(index: int, line: Seq<char>) -> Option<RawPort> {
    let parts = words(line);
    if parts.len() == 0 {
        None
    } else {
        let protocol = ascii_upper_seq(parts[0]);
        if protocol == tcp_text() && parts.len() >= 5 {
            netstat_entry(index, protocol, parts[1], parts[2], Some(parts[3]), parts[4])
        } else if protocol == udp_text() && parts.len() >= 4 {
            netstat_entry(index, protocol, parts[1], parts[2], None, parts[3])
        } else {
            None
        }
    }
}

/// The sockets that `netstat -a -n -o` output lists, line by line.
pub open spec fn netstat_rows(text: Seq<char>) -> Seq<RawPort> {
    let ls = lines(text);
    somes(Seq::new(ls.len(), |i: int| netstat_row(i, ls[i])))
}

fn netstat_row_exec(index: usize, line: &Vec<char>) -> (res: Option<RawPortEntry>)
    ensures
        opt_raw(res) == netstat_row(index as int, line@),
{
    reveal(netstat_row);
    let parts = split_whitespace(line);
    if parts.len() == 0 {
        return None;
    }
    let protocol = to_ascii_uppercase(parts[0].as_slice());
    let tcp: [char; 3] = ['T', 'C', 'P'];
    let udp: [char; 3] = ['U', 'D', 'P'];
    assert(tcp@ =~= tcp_text());
    assert(udp@ =~= udp_text());
    let is_tcp = eq_chars(protocol.as_slice(), &tcp);
    let is_udp = eq_chars(protocol.as_slice(), &udp);
    let pid_field: usize;
    let state: Option<String>;
    if is_tcp && parts.len() >= 5 {
        pid_field = 4;
        state = Some(string_of(parts[3].as_slice()));
    } else if is_udp && parts.len() >= 4 {
        pid_field = 3;
        state = None;
    } else {
        return None;
    }
    assert(forall|k: int| 0 <= k < parts@.len() ==> #[trigger] words(line@)[k] == parts@[k]@);
    let (local_address, local_port) = parse_endpoint_chars(parts[1].as_slice());
    let (remote_address, remote_port) = parse_endpoint_chars(parts[2].as_slice());
    let pid = parse_unsigned(parts[pid_field].as_slice(), 10, 0xffff_ffff);
    match (local_port, pid) {
        (Some(port), Some(pid)) => {
            let digits = dec_chars(index as u64);
            let row = RawPortEntry {
                protocol: string_of(protocol.as_slice()),
                local_address: string_of(local_address.as_slice()),
                local_port: port,
                remote_address: Some(string_of(remote_address.as_slice())),
                remote_port,
                state,
                pid: pid as u32,
                process_name_hint: None,
                id_hint: string_of(digits.as_slice()),
            };
            Some(row)
        },
        _ => None,
    }
}

/// The sockets listed by `netstat` output text.
pub fn netstat_rows_exec(text: &str) -> (res: Vec<RawPortEntry>)
    ensures
        raw_views(res@) == netstat_rows(text@),
{
    let chars = chars_of(text);
    let ls = split_lines(&chars);
    let ghost opts = Seq::new(lines(text@).len(), |i: int| netstat_row(i, lines(text@)[i]));
    let mut rows: Vec<RawPortEntry> = Vec::new();
    let mut i: usize = 0;
    while i < ls.len()
        invariant
            i <= ls.len(),
            views(ls@) == lines(text@),
            opts == Seq::new(lines(text@).len(), |i: int| netstat_row(i, lines(text@)[i])),
            raw_views(rows@) == somes(opts.take(i as int)),
        decreases ls.len() - i,
    {
        assert(views(ls@)[i as int] == ls@[i as int]@);
        let row = netstat_row_exec(i, &ls[i]);
        assert(opts.take(i + 1).drop_last() =~= opts.take(i as int));
        assert(opts.take(i + 1).last() == opt_raw(row));
        let ghost before = rows@;
        match row {
            Some(r) => {
                rows.push(r);
                assert(raw_views(rows@) =~= raw_views(before).push(r@));
            },
            None => {},
        }
        i = i + 1;
    }
    assert(opts.take(ls.len() as int) =~= opts);
    rows
}

/// `COMMAND`.
pub open spec fn command_text() -> Seq<char> {
    seq!['C', 'O', 'M', 'M', 'A', 'N', 'D']
}

/// `PID`.
pub open spec fn pid_text() -> Seq<char> {
    seq!['P', 'I', 'D']
}

/// `LISTEN`.
pub open spec fn listen_text() -> Seq<char> {
    seq!['L', 'I', 'S', 'T', 'E', 'N']
}

/// `LISTENING`.
pub open spec fn listening_text() -> Seq<char> {
    seq!['L', 'I', 'S', 'T', 'E', 'N', 'I', 'N', 'G']
}

/// The state that `lsof` writes as `(STATE)`: without parentheses, upper-case, and `LISTEN`
/// named `LISTENING` as the other platforms name it.
pub open spec fn lsof_state(field: Seq<char>) -> Seq<char> {
    let u = ascii_upper_seq(trim_parens_spec(field));
    if u == listen_text() {
        listening_text()
    } else {
        u
    }
}

/// The socket on line `index` of `lsof -nP -iTCP -iUDP` output: fields command, pid, ...,
/// protocol (8th), `LOCAL` or `LOCAL->REMOTE` (9th) and an optional `(STATE)`. The header
/// line, lines of fewer than nine fields, lines without a process id, a TCP/UDP protocol or a
/// local port give none.
#[verifier::opaque]
pub open spec fn lsof_row(index: int, line: Seq<char>) -> Option<RawPort> {
    let parts = words(line);
    if index == 0 && contains(line, command_text()) && contains(line, pid_text()) {
        None
    } else if parts.len() < 9 {
        None
    } else {
        match parse_unsigned_spec(parts[1], 10, 0xffff_ffff) {
            None => None,
            Some(pid) => {
                let protocol = ascii_upper_seq(parts[7]);
                if protocol != tcp_text() && protocol != udp_text() {
                    None
                } else {
                    let endpoint = parts[8];
                    let (local_raw, remote_raw) = match split_once(endpoint, seq!['-', '>']) {
                        Some((l, r)) => (l, Some(r)),
                        None => (endpoint, None),
                    };
                    let (local_address, local_port) = endpoint_spec(local_raw);
                    let (remote_address, remote_port) = match remote_raw {
                        Some(r) => endpoint_spec(r),
                        None => (seq!['*'], None),
                    };
                    match local_port {
                        None => None,
                        Some(port) => Some(
                            RawPort {
                                protocol: protocol,
                                local_address: local_address,
                                local_port: port,
                                remote_address: Some(remote_address),
                                remote_port: remote_port,
                                state: if parts.len() > 9 {
                                    Some(lsof_state(parts[9]))
                                } else {
                                    None
                                },
                                pid: pid as u32,
                                process_name_hint: Some(parts[0]),
                                id_hint: dec_string(index as nat),
                            },
                        ),
                    }
                }
            },
        }
    }
}

/// The sockets that `lsof` output lists, line by line.
pub open spec fn lsof_rows(text: Seq<char>) -> Seq<RawPort> {
    let ls = lines(text);
    somes(Seq::new(ls.len(), |i: int| lsof_row(i, ls[i])))
}

fn lsof_state_exec(field: &[char]) -> (res: Vec<char>)
    ensures
        res@ == lsof_state(field@),
{
    let trimmed = trim_parens(field);
    let u = to_ascii_uppercase(trimmed.as_slice());
    let listen: [char; 6] = ['L', 'I', 'S', 'T', 'E', 'N'];
    assert(listen@ =~= listen_text());
    if eq_chars(u.as_slice(), &listen) {
        let listening: [char; 9] = ['L', 'I', 'S', 'T', 'E', 'N', 'I', 'N', 'G'];
        let mut v: Vec<char> = Vec::new();
        append_chars(&mut v, &listening);
        assert(v@ =~= listening_text());
        v
    } else {
        u
    }
}

fn lsof_row_exec(index: usize, line: &Vec<char>) -> (res: Option<RawPortEntry>)
    ensures
        opt_raw(res) == lsof_row(index as int, line@),
{
    reveal(lsof_row);
    if index == 0 {
        let command: [char; 7] = ['C', 'O', 'M', 'M', 'A', 'N', 'D'];
        let pid: [char; 3] = ['P', 'I', 'D'];
        assert(command@ =~= command_text());
        assert(pid@ =~= pid_text());
        if find_in(line.as_slice(), &command).is_some() && find_in(line.as_slice(), &pid).is_some() {
            return None;
        }
    }
    let parts = split_whitespace(line);
    if parts.len() < 9 {
        return None;
    }
    assert(forall|k: int| 0 <= k < parts@.len() ==> #[trigger] words(line@)[k] == parts@[k]@);
    let pid = match parse_unsigned(parts[1].as_slice(), 10, 0xffff_ffff) {
        Some(p) => p,
        None => return None,
    };
    let protocol = to_ascii_uppercase(parts[7].as_slice());
    let tcp: [char; 3] = ['T', 'C', 'P'];
    let udp: [char; 3] = ['U', 'D', 'P'];
    assert(tcp@ =~= tcp_text());
    assert(udp@ =~= udp_text());
    if !eq_chars(protocol.as_slice(), &tcp) && !eq_chars(protocol.as_slice(), &udp) {
        return None;
    }
    let arrow: [char; 2] = ['-', '>'];
    assert(arrow@ =~= seq!['-', '>']);
    let (local_raw, remote_raw) = match split_once_at(parts[8].as_slice(), &arrow) {
        Some((l, r)) => (l, Some(r)),
        None => {
            let mut whole: Vec<char> = Vec::new();
            append_chars(&mut whole, parts[8].as_slice());
            (whole, None)
        },
    };
    let (local_address, local_port) = parse_endpoint_chars(local_raw.as_slice());
    let port = match local_port {
        Some(p) => p,
        None => return None,
    };
    let (remote_address, remote_port) = match remote_raw {
        Some(r) => parse_endpoint_chars(r.as_slice()),
        None => {
            let mut star: Vec<char> = Vec::new();
            star.push('*');
            assert(star@ =~= seq!['*']);
            (star, None)
        },
    };
    let state = if parts.len() > 9 {
        let st = lsof_state_exec(parts[9].as_slice());
        Some(string_of(st.as_slice()))
    } else {
        None
    };
    let digits = dec_chars(index as u64);
    let row = RawPortEntry {
        protocol: string_of(protocol.as_slice()),
        local_address: string_of(local_address.as_slice()),
        local_port: port,
        remote_address: Some(string_of(remote_address.as_slice())),
        remote_port,
        state,
        pid: pid as u32,
        process_name_hint: Some(string_of(parts[0].as_slice())),
        id_hint: string_of(digits.as_slice()),
    };
    Some(row)
}

/// The sockets listed by `lsof` output text.
pub fn lsof_rows_exec(text: &str) -> (res: Vec<RawPortEntry>)
    ensures
        raw_views(res@) == lsof_rows(text@),
{
    let chars = chars_of(text);
    let ls = split_lines(&chars);
    let ghost opts = Seq::new(lines(text@).len(), |i: int| lsof_row(i, lines(text@)[i]));
    let mut rows: Vec<RawPortEntry> = Vec::new();
    let mut i: usize = 0;
    while i < ls.len()
        invariant
            i <= ls.len(),
            views(ls@) == lines(text@),
            opts == Seq::new(lines(text@).len(), |i: int| lsof_row(i, lines(text@)[i])),
            raw_views(rows@) == somes(opts.take(i as int)),
        decreases ls.len() - i,
    {
        assert(views(ls@)[i as int] == ls@[i as int]@);
        let row = lsof_row_exec(i, &ls[i]);
        assert(opts.take(i + 1).drop_last() =~= opts.take(i as int));
        assert(opts.take(i + 1).last() == opt_raw(row));
        let ghost before = rows@;
        match row {
            Some(r) => {
                rows.push(r);
                assert(raw_views(rows@) =~= raw_views(before).push(r@));
            },
            None => {},
        }
        i = i + 1;
    }
    assert(opts.take(ls.len() as int) =~= opts);
    rows
}

/// What running a listing command gave.
#[derive(Debug, Clone, PartialEq, Eq)]
pub enum CommandOutput {
    /// The command could not be started; the error text.
    NotRun { error: String },
    /// The command ran: whether it exited successfully, and what it wrote.
    Ran { success: bool, stdout: Vec<u8>, stderr: Vec<u8> },
}

/// The sockets that `netstat -a -n -o` reported, or the error the listing fails with.
pub open spec fn windows_listing(output: CommandOutput) -> Result<Seq<RawPort>, Seq<char>> {
    match output {
        CommandOutput::NotRun { error } => Err("Failed to run netstat: "@ + error@),
        CommandOutput::Ran { success, stdout, stderr } => if !success {
            Err("netstat failed: "@ + utf8_lossy(stderr@))
        } else {
            Ok(netstat_rows(utf8_lossy(stdout@)))
        },
    }
}

/// The sockets that `lsof -nP -iTCP -iUDP` reported, or the error the listing fails with.
/// `lsof` exits unsuccessfully when some files cannot be read; its output still counts
/// unless it is empty.
pub open spec fn macos_listing(output: CommandOutput) -> Result<Seq<RawPort>, Seq<char>> {
    match output {
        CommandOutput::NotRun { error } => Err("Failed to run lsof: "@ + error@),
        CommandOutput::Ran { success, stdout, stderr } => if !success && stdout@.len() == 0 {
            Err("lsof failed: "@ + utf8_lossy(stderr@))
        } else {
            Ok(lsof_rows(utf8_lossy(stdout@)))
        },
    }
}

/// The views of a listing result.
pub open spec fn listing_view(res: Result<Vec<RawPortEntry>, String>) -> Result<Seq<RawPort>, Seq<char>> {
    match res {
        Ok(rows) => Ok(raw_views(rows@)),
        Err(e) => Err(e@),
    }
}

fn prefixed(prefix: &str, rest: &str) -> (res: String)
    ensures
        res@ == prefix@ + rest@,
{
    let mut v = chars_of(prefix);
    let r = chars_of(rest);
    append_chars(&mut v, r.as_slice());
    string_of(v.as_slice())
}

/// The sockets listed by Windows' `netstat -a -n -o`, from what running it gave.
pub fn list_ports_windows(output: &CommandOutput) -> (res: Result<Vec<RawPortEntry>, String>)
    ensures
        listing_view(res) == windows_listing(*output),
{
    match output {
        CommandOutput::NotRun { error } => Err(prefixed("Failed to run netstat: ", error.as_str())),
        CommandOutput::Ran { success, stdout, stderr } => {
            if !*success {
                let text = from_utf8_lossy(stderr.as_slice());
                Err(prefixed("netstat failed: ", text.as_str()))
            } else {
                let text = from_utf8_lossy(stdout.as_slice());
                Ok(netstat_rows_exec(text.as_str()))
            }
        },
    }
}

/// The sockets listed by macOS' `lsof -nP -iTCP -iUDP`, from what running it gave.
pub fn list_ports_macos(output: &CommandOutput) -> (res: Result<Vec<RawPortEntry>, String>)
    ensures
        listing_view(res) == macos_listing(*output),
{
    match output {
        CommandOutput::NotRun { error } => Err(prefixed("Failed to run lsof: ", error.as_str())),
        CommandOutput::Ran { success, stdout, stderr } => {
            if !*success && stdout.len() == 0 {
                let text = from_utf8_lossy(stderr.as_slice());
                Err(prefixed("lsof failed: ", text.as_str()))
            } else {
                let text = from_utf8_lossy(stdout.as_slice());
                Ok(lsof_rows_exec(text.as_str()))
            }
        },
    }
}

/// Where the sockets of this machine are read from: the output of `netstat` (Windows), of
/// `lsof` (macOS), a snapshot of `/proc` (Linux), or no source on other platforms.
#[derive(Debug, Clone, PartialEq, Eq)]
pub enum ListingSource {
    Netstat(CommandOutput),
    Lsof(CommandOutput),
    Proc(ProcSnapshot),
    Unsupported,
}

/// The sockets that a listing source gives, or the error the listing fails with.
pub open spec fn platform_listing(source: ListingSource) -> Result<Seq<RawPort>, Seq<char>> {
    match source {
        ListingSource::Netstat(output) => windows_listing(output),
        ListingSource::Lsof(output) => macos_listing(output),
        ListingSource::Proc(snapshot) => Ok(linux_rows(snapshot)),
        ListingSource::Unsupported => Err("Unsupported platform"@),
    }
}

/// Lists the sockets of this machine from the platform's source.
pub fn list_ports_platform(source: &ListingSource) -> (res: Result<Vec<RawPortEntry>, String>)
    ensures
        listing_view(res) == platform_listing(*source),
{
    match source {
        ListingSource::Netstat(output) => list_ports_windows(output),
        ListingSource::Lsof(output) => list_ports_macos(output),
        ListingSource::Proc(snapshot) => list_ports_linux(snapshot),
        ListingSource::Unsupported => Err("Unsupported platform".to_owned()),
    }
}

/// Each value present in a list of optional values is present at some place of the list.
proof fn lemma_somes_from<T>(s: Seq<Option<T>>, k: int)
    requires
        0 <= k < somes(s).len(),
    ensures
        exists|i: int| 0 <= i < s.len() && s[i] == Some(somes(s)[k]),
    decreases s.len(),
{
    let prefix = somes(s.drop_last());
    if k < prefix.len() {
        lemma_somes_from(s.drop_last(), k);
        let i = choose|i: int| 0 <= i < s.drop_last().len() && s.drop_last()[i] == Some(prefix[k]);
        assert(s[i] == Some(somes(s)[k]));
    } else {
        assert(s[s.len() - 1] == Some(somes(s)[k]));
    }
}

/// A `TCP` or `UDP` protocol name.
pub open spec fn is_tcp_or_udp(protocol: Seq<char>) -> bool {
    protocol == tcp_text() || protocol == udp_text()
}

proof fn lemma_proc_net_protocols(
    path: Seq<char>,
    protocol: Seq<char>,
    ipv6: bool,
    table: Map<Seq<char>, u32>,
    text: Option<Seq<char>>,
    k: int,
)
    requires
        0 <= k < proc_net_rows(path, protocol, ipv6, table, text).len(),
    ensures
        proc_net_rows(path, protocol, ipv6, table, text)[k].protocol == protocol,
{
    reveal(proc_net_row);
    let t = text.unwrap();
    let opts = proc_net_row_options(path, protocol, ipv6, table, lines(t));
    lemma_somes_from(opts, k);
}

/// Law: every socket that a platform listing reports is a `TCP` or a `UDP` socket.
pub proof fn law_listed_protocols(source: ListingSource, k: int)
    requires
        platform_listing(source) is Ok,
        0 <= k < platform_listing(source)->Ok_0.len(),
    ensures
        is_tcp_or_udp(platform_listing(source)->Ok_0[k].protocol),
{
    let rows = platform_listing(source)->Ok_0;
    match source {
        ListingSource::Netstat(output) => {
            reveal(netstat_row);
            if let CommandOutput::Ran { stdout, .. } = output {
                let ls = lines(utf8_lossy(stdout@));
                let opts = Seq::new(ls.len(), |i: int| netstat_row(i, ls[i]));
                assert(rows == somes(opts));
                lemma_somes_from(opts, k);
                let i = choose|i: int| 0 <= i < opts.len() && opts[i] == Some(somes(opts)[k]);
                let parts = words(ls[i]);
                let protocol = ascii_upper_seq(parts[0]);
                if protocol == tcp_text() && parts.len() >= 5 {
                    assert(netstat_entry(i, protocol, parts[1], parts[2], Some(parts[3]), parts[4]) == opts[i]);
                } else {
                    assert(netstat_entry(i, protocol, parts[1], parts[2], None, parts[3]) == opts[i]);
                }
            }
        },
        ListingSource::Lsof(output) => {
            reveal(lsof_row);
            if let CommandOutput::Ran { stdout, .. } = output {
                let ls = lines(utf8_lossy(stdout@));
                let opts = Seq::new(ls.len(), |i: int| lsof_row(i, ls[i]));
                assert(rows == somes(opts));
                lemma_somes_from(opts, k);
                let i = choose|i: int| 0 <= i < opts.len() && opts[i] == Some(somes(opts)[k]);
                assert(is_tcp_or_udp(opts[i].unwrap().protocol));
            }
        },
        ListingSource::Proc(snapshot) => {
            reveal_strlit("TCP");
            reveal_strlit("UDP");
            let table = crate::procnet::inode_owners(crate::procnet::socket_pairs(snapshot.fd_listings@));
            let a = proc_net_rows("/proc/net/tcp"@, "TCP"@, false, table, opt_text(snapshot.tcp));
            let b = proc_net_rows("/proc/net/tcp6"@, "TCP"@, true, table, opt_text(snapshot.tcp6));
            let c = proc_net_rows("/proc/net/udp"@, "UDP"@, false, table, opt_text(snapshot.udp));
            let d = proc_net_rows("/proc/net/udp6"@, "UDP"@, true, table, opt_text(snapshot.udp6));
            assert(rows == a + b + c + d);
            assert("TCP"@ =~= tcp_text());
            assert("UDP"@ =~= udp_text());
            if k < a.len() {
                lemma_proc_net_protocols("/proc/net/tcp"@, "TCP"@, false, table, opt_text(snapshot.tcp), k);
                assert(rows[k] == a[k]);
            } else if k < a.len() + b.len() {
                let j = k - a.len();
                lemma_proc_net_protocols("/proc/net/tcp6"@, "TCP"@, true, table, opt_text(snapshot.tcp6), j);
                assert(rows[k] == b[j]);
            } else if k < a.len() + b.len() + c.len() {
                let j = k - a.len() - b.len();
                lemma_proc_net_protocols("/proc/net/udp"@, "UDP"@, false, table, opt_text(snapshot.udp), j);
                assert(rows[k] == c[j]);
            } else {
                let j = k - a.len() - b.len() - c.len();
                lemma_proc_net_protocols("/proc/net/udp6"@, "UDP"@, true, table, opt_text(snapshot.udp6), j);
                assert(rows[k] == d[j]);
            }
        },
        ListingSource::Unsupported => {},
    }
}

/// Law: a line of `netstat -a -n -o` output gives a socket exactly when its first field is
/// `TCP` with at least five fields or `UDP` with at least four (in any letter case), its local
/// endpoint has a port and its process-id field (the fifth for TCP, the fourth for UDP) is an
/// unsigned 32-bit decimal; the socket then has that protocol, local address and port, remote
/// endpoint, the state field for TCP and none for UDP, and exactly that process id, whatever
/// its value (0 included).
pub proof fn law_netstat_line(index: int, line: Seq<char>)
    ensures
        ({
            let parts = words(line);
            let protocol = if parts.len() > 0 { ascii_upper_seq(parts[0]) } else { Seq::empty() };
            let is_tcp = protocol == seq!['T', 'C', 'P'] && parts.len() >= 5;
            let is_udp = protocol == seq!['U', 'D', 'P'] && parts.len() >= 4;
            let pid_field = if is_tcp { parts[4] } else { parts[3] };
            let pid = parse_unsigned_spec(pid_field, 10, 0xffff_ffff);
            let local = endpoint_spec(parts[1]);
            let remote = endpoint_spec(parts[2]);
            &&& (netstat_row(index, line) is Some <==> (is_tcp || is_udp) && local.1 is Some && pid is Some)
            &&& netstat_row(index, line) is Some ==> {
                let r = netstat_row(index, line).unwrap();
                &&& r.protocol == protocol
                &&& r.local_address == local.0
                &&& r.local_port == local.1.unwrap()
                &&& r.remote_address == Some(remote.0)
                &&& r.remote_port == remote.1
                &&& r.state == (if is_tcp { Some(parts[3]) } else { None::<Seq<char>> })
                &&& r.pid as int == pid.unwrap()
            }
        }),
{
    reveal(netstat_row);
    let parts = words(line);
    if parts.len() > 0 {
        let protocol = ascii_upper_seq(parts[0]);
        assert(tcp_text() == seq!['T', 'C', 'P']);
        assert(udp_text() == seq!['U', 'D', 'P']);
        assert(tcp_text() != udp_text()) by {
            assert(tcp_text()[0] != udp_text()[0]);
        }
        let pid_field = if protocol == tcp_text() && parts.len() >= 5 { parts[4] } else { parts[3] };
        crate::numbers::lemma_parse_unsigned_bounds(pid_field, 10, 0xffff_ffff);
    }
}

/// Law: a line of `lsof -nP -iTCP -iUDP` output other than the header, with at least nine
/// fields, whose second field is an unsigned 32-bit decimal, whose eighth is `TCP` or `UDP` (in
/// any letter case) and whose local endpoint (the ninth field up to any `->`) has a port, gives
/// a socket with that protocol, local port and process name, and exactly that process id.
pub proof fn law_lsof_line(index: int, line: Seq<char>)
    ensures
        ({
            let parts = words(line);
            let header = index == 0 && contains(line, command_text()) && contains(line, pid_text());
            let pid = parse_unsigned_spec(parts[1], 10, 0xffff_ffff);
            let protocol = ascii_upper_seq(parts[7]);
            let local_raw = match split_once(parts[8], seq!['-', '>']) {
                Some((l, r)) => l,
                None => parts[8],
            };
            let local = endpoint_spec(local_raw);
            let remote = match split_once(parts[8], seq!['-', '>']) {
                Some((l, r)) => (Some(endpoint_spec(r).0), endpoint_spec(r).1),
                None => (Some(seq!['*']), None),
            };
            let accepted = !header && parts.len() >= 9 && pid is Some && (protocol == seq!['T', 'C', 'P']
                || protocol == seq!['U', 'D', 'P']) && local.1 is Some;
            &&& (lsof_row(index, line) is Some <==> accepted)
            &&& accepted ==> {
                let r = lsof_row(index, line).unwrap();
                &&& r.pid as int == pid.unwrap()
                &&& r.protocol == protocol
                &&& r.local_address == local.0
                &&& r.local_port == local.1.unwrap()
                &&& r.remote_address == remote.0
                &&& r.remote_port == remote.1
                &&& (r.state is Some <==> parts.len() > 9)
                &&& r.process_name_hint == Some(parts[0])
            }
        }),
{
    reveal(lsof_row);
    let parts = words(line);
    assert(tcp_text() == seq!['T', 'C', 'P']);
    assert(udp_text() == seq!['U', 'D', 'P']);
    if parts.len() >= 9 {
        crate::numbers::lemma_parse_unsigned_bounds(parts[1], 10, 0xffff_ffff);
    }
}

} // verus!
