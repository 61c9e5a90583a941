use std::collections::HashMap;
use vstd::prelude::*;
use crate::numbers::{dec_chars, dec_string, parse_unsigned, parse_unsigned_spec};
use crate::text::{append_chars, chars_of, opt_text, str_from_utf8, string_of, trim, trim_ws};
use crate::wide::{before_nul, from_utf16_lossy, utf16_lossy, wide_to_string};

verus! {

broadcast use vstd::std_specs::hash::group_hash_axioms;

/// What is shown of the process behind a port.
#[derive(Debug, Clone, PartialEq, Eq)]
pub struct ProcessInfo {
    pub name: String,
    pub path: Option<String>,
}

/// The last component of a path as `std::path::Path::file_name` reads it on the target
/// platform (`None` when the path ends in `..` or has no component).
pub uninterp spec fn path_file_name(path: Seq<char>) -> Option<Seq<char>>;

/// `Path::file_name`, the last component turned back into text. Stated: the result is the
/// named last component of `path`. Left unsaid: how the target platform splits paths.
#[verifier::external_body]
fn file_name_of(path: &str) -> (res: Option<String>)
    ensures
        opt_text(res) == path_file_name(path@),
{
    std::path::Path::new(path).file_name().map(|n| n.to_string_lossy().into_owned())
}

/// `PID <pid>`.
pub open spec fn pid_label(pid: u32) -> Seq<char> {
    seq!['P', 'I', 'D', ' '] + dec_string(pid as nat)
}

/// The name shown for a process: its name in `names`, else a non-empty hint, else the last
/// component of its executable's path, else `PID <pid>`.
pub open spec fn process_name_spec(
    pid: u32,
    hint: Option<Seq<char>>,
    names: Map<u32, String>,
    path: Option<Seq<char>>,
) -> Seq<char> {
    if names.contains_key(pid) {
        names[pid]@
    } else if hint is Some && hint.unwrap().len() > 0 {
        hint.unwrap()
    } else if path is Some && path_file_name(path.unwrap()) is Some {
        path_file_name(path.unwrap()).unwrap()
    } else {
        pid_label(pid)
    }
}

pub fn clone_opt(o: &Option<String>) -> (res: Option<String>)
    ensures
        res == *o,
{
    match o {
        Some(s) => Some(s.clone()),
        None => None,
    }
}

/// Names the process `pid` from the known process names, a name hint that the port listing
/// gave, and the path of its executable, which is kept as the info's path.
pub fn build_process_info(
    pid: u32,
    name_hint: Option<&str>,
    process_names: &HashMap<u32, String>,
    path: Option<String>,
) -> (info: ProcessInfo)
    ensures
        info.name@ == process_name_spec(
            pid,
            match name_hint {
                Some(h) => Some(h@),
                None => None,
            },
            process_names@,
            opt_text(path),
        ),
        info.path == path,
{
    let name = match process_names.get(&pid) {
        Some(n) => n.clone(),
        None => {
            let from_hint = match name_hint {
                Some(h) => {
                    if h.is_empty() {
                        None
                    } else {
                        Some(h.to_owned())
                    }
                },
                None => None,
            };
            match from_hint {
                Some(n) => n,
                None => {
                    let from_path = match &path {
                        Some(p) => file_name_of(p.as_str()),
                        None => None,
                    };
                    match from_path {
                        Some(n) => n,
                        None => {
                            let mut label: Vec<char> = Vec::new();
                            label.push('P');
                            label.push('I');
                            label.push('D');
                            label.push(' ');
                            let digits = dec_chars(pid as u64);
                            append_chars(&mut label, digits.as_slice());
                            assert(label@ =~= pid_label(pid));
                            string_of(label.as_slice())
                        },
                    }
                },
            }
        },
    };
    ProcessInfo { name, path }
}

/// A process directory of `/proc`: its name and the content of its `comm` file, if it could
/// be read.
#[derive(Debug, Clone, PartialEq, Eq)]
pub struct ProcNameEntry {
    pub dir_name: String,
    pub comm: Option<String>,
}

/// The names of the processes listed by `entries`: for each directory named by a decimal
/// process id whose `comm` could be read, that id mapped to the trimmed content; a later
/// entry for the same id replaces an earlier one.
pub open spec fn names_spec(entries: Seq<ProcNameEntry>) -> Map<u32, Seq<char>>
    decreases entries.len(),
{
    if entries.len() == 0 {
        Map::empty()
    } else {
        let m = names_spec(entries.drop_last());
        let e = entries.last();
        match (parse_unsigned_spec(e.dir_name@, 10, 0xffff_ffff), e.comm) {
            (Some(pid), Some(comm)) => m.insert(pid as u32, trim_ws(comm@)),
            _ => m,
        }
    }
}

/// The process names found in `/proc`, by process id.
pub fn process_names_by_pid(entries: &Vec<ProcNameEntry>) -> (res: HashMap<u32, String>)
    ensures
        res@.dom() == names_spec(entries@).dom(),
        forall|pid: u32| #[trigger] res@.contains_key(pid) ==> res@[pid]@ == names_spec(entries@)[pid],
{
    let mut res: HashMap<u32, String> = HashMap::new();
    let mut i: usize = 0;
    while i < entries.len()
        invariant
            i <= entries.len(),
            res@.dom() == names_spec(entries@.take(i as int)).dom(),
            forall|pid: u32| #[trigger] res@.contains_key(pid) ==> res@[pid]@ == names_spec(entries@.take(i as int))[pid],
        decreases entries.len() - i,
    {
        let e = &entries[i];
        assert(entries@.take(i + 1).drop_last() =~= entries@.take(i as int));
        assert(entries@.take(i + 1).last() == *e);
        let dir = chars_of(e.dir_name.as_str());
        let pid = parse_unsigned(dir.as_slice(), 10, 0xffff_ffff);
        match (pid, &e.comm) {
            (Some(pid), Some(comm)) => {
                let text = chars_of(comm.as_str());
                let name = trim(text.as_slice());
                res.insert(pid as u32, string_of(name.as_slice()));
            },
            _ => {},
        }
        i = i + 1;
    }
    assert(entries@.take(entries.len() as int) =~= entries@);
    res
}

/// Why a request to terminate `pid` is refused before the operating system is asked, given
/// the id of this process: pid 0 and this process itself are refused, any other pid is not.
pub open spec fn kill_refusal(pid: u32, self_pid: u32) -> Option<Seq<char>> {
    if pid == 0 {
        Some("PID 0 cannot be terminated"@)
    } else if pid == self_pid {
        Some("The port manager process itself cannot be terminated"@)
    } else {
        None
    }
}

/// The text of a termination result.
pub open spec fn result_text(res: Result<(), String>) -> Result<(), Seq<char>> {
    match res {
        Ok(()) => Ok(()),
        Err(m) => Err(m@),
    }
}

fn refuse(pid: u32, self_pid: u32) -> (res: Option<String>)
    ensures
        match res {
            Some(m) => kill_refusal(pid, self_pid) == Some(m@),
            None => kill_refusal(pid, self_pid) is None,
        },
{
    if pid == 0 {
        return Some("PID 0 cannot be terminated".to_owned());
    }
    if pid == self_pid {
        return Some("The port manager process itself cannot be terminated".to_owned());
    }
    None
}

/// Terminates process `pid` on request, given the id of this process: pid 0 and this process
/// itself are refused with a message and `terminate` is never called; for any other pid,
/// `terminate` asks the operating system to end `pid` and the result is what its answer means
/// (see `terminate_process`).
pub fn kill_process<F: FnOnce(u32) -> KillReport>(pid: u32, self_pid: u32, terminate: F) -> (res: Result<(), String>)
    requires
        kill_refusal(pid, self_pid) is None ==> call_requires(terminate, (pid,)),
    ensures
        kill_refusal(pid, self_pid) is Some ==> result_text(res) == Err::<(), Seq<char>>(kill_refusal(pid, self_pid).unwrap()),
        kill_refusal(pid, self_pid) is None ==> exists|report: KillReport|
            call_ensures(terminate, (pid,), report) && result_text(res) == terminate_spec(pid, report),
{
    match refuse(pid, self_pid) {
        Some(m) => Err(m),
        None => {
            let report = terminate(pid);
            let ghost answer = report;
            let res = terminate_process(pid, report);
            assert(call_ensures(terminate, (pid,), answer) && result_text(res) == terminate_spec(pid, answer));
            res
        },
    }
}

/// The message for a process id that no Unix process can have.
pub open spec fn invalid_pid_message(pid: u32) -> Seq<char> {
    "PID "@ + dec_string(pid as nat) + " is not a valid process id"@
}

/// The Unix process id (`pid_t`) that a request to terminate `pid` may signal: only ids from
/// 1 to `i32::MAX` name a single process; any other id (0, or one that would turn negative
/// and name a process group or every process) is refused with a message.
pub fn unix_kill_target(pid: u32) -> (res: Result<i32, String>)
    ensures
        res is Ok <==> 1 <= pid <= 0x7fff_ffff,
        res is Ok ==> res->Ok_0 == pid as int,
        res is Err ==> res->Err_0@ == invalid_pid_message(pid),
{
    if pid == 0 || pid > 0x7fff_ffff {
        let mut v = chars_of("PID ");
        let digits = dec_chars(pid as u64);
        append_chars(&mut v, digits.as_slice());
        let tail = chars_of(" is not a valid process id");
        append_chars(&mut v, tail.as_slice());
        assert(v@ =~= invalid_pid_message(pid));
        return Err(string_of(v.as_slice()));
    }
    Ok(pid as i32)
}

/// Terminates process `pid` on request on Unix, given the id of this process: pid 0 and this
/// process itself are refused as by `kill_process`, and an id above `i32::MAX`, which would
/// name a process group or every process, is refused with a message; in these cases `signal`
/// is never called. Otherwise `signal` is given exactly `pid` as a `pid_t`, so only that one
/// process is ever signalled, and the result is what its answer means.
pub fn unix_kill_process<F: FnOnce(i32) -> KillReport>(pid: u32, self_pid: u32, signal: F) -> (res: Result<(), String>)
    requires
        kill_refusal(pid, self_pid) is None && pid <= 0x7fff_ffff ==> call_requires(signal, (pid as i32,)),
    ensures
        kill_refusal(pid, self_pid) is Some ==> result_text(res) == Err::<(), Seq<char>>(kill_refusal(pid, self_pid).unwrap()),
        kill_refusal(pid, self_pid) is None && pid > 0x7fff_ffff ==> result_text(res) == Err::<(), Seq<char>>(invalid_pid_message(pid)),
        kill_refusal(pid, self_pid) is None && pid <= 0x7fff_ffff ==> 1 <= pid && exists|report: KillReport|
            call_ensures(signal, (pid as i32,), report) && result_text(res) == terminate_spec(pid, report),
{
    if let Some(m) = refuse(pid, self_pid) {
        return Err(m);
    }
    let target = match unix_kill_target(pid) {
        Ok(t) => t,
        Err(m) => return Err(m),
    };
    let report = signal(target);
    let ghost answer = report;
    let res = terminate_process(pid, report);
    assert(call_ensures(signal, (pid as i32,), answer) && result_text(res) == terminate_spec(pid, answer));
    res
}

/// What the operating system answered to a request to terminate a process.
#[derive(Debug, Clone, PartialEq, Eq)]
pub enum KillReport {
    /// A signal was sent (Unix): the call's status and the OS error text when it failed.
    Signalled { status: i32, os_error: String },
    /// The process could not be opened (Windows), with the error code.
    OpenFailed { error_code: u32 },
    /// The process was opened but not terminated (Windows), with the error code.
    TerminateFailed { error_code: u32 },
    /// The process was terminated (Windows).
    Terminated,
    /// Termination is not available on this platform.
    Unsupported,
}

/// The outcome of terminating `pid` that `report` describes.
pub open spec fn terminate_spec(pid: u32, report: KillReport) -> Result<(), Seq<char>> {
    match report {
        KillReport::Signalled { status, os_error } => if status == 0 {
            Ok(())
        } else {
            Err("Failed to terminate PID "@ + dec_string(pid as nat)
                + ". Run as administrator/root. OS error: "@ + os_error@)
        },
        KillReport::OpenFailed { error_code } => Err("Failed to open PID "@ + dec_string(pid as nat)
            + ". Run as administrator. Windows error: "@ + dec_string(error_code as nat)),
        KillReport::TerminateFailed { error_code } => Err("Failed to terminate PID "@ + dec_string(
            pid as nat,
        ) + ". Windows error: "@ + dec_string(error_code as nat)),
        KillReport::Terminated => Ok(()),
        KillReport::Unsupported => Err("Unsupported platform"@),
    }
}

fn message3(a: &str, n: u64, b: &str, tail: &[char]) -> (res: String)
    ensures
        res@ == a@ + dec_string(n as nat) + b@ + tail@,
{
    let mut v = chars_of(a);
    let digits = dec_chars(n);
    append_chars(&mut v, digits.as_slice());
    let bv = chars_of(b);
    append_chars(&mut v, bv.as_slice());
    append_chars(&mut v, tail);
    string_of(v.as_slice())
}

/// Turns the operating system's answer to terminating `pid` into the result shown to the user.
pub fn terminate_process(pid: u32, report: KillReport) -> (res: Result<(), String>)
    ensures
        match (res, terminate_spec(pid, report)) {
            (Ok(()), Ok(())) => true,
            (Err(m), Err(s)) => m@ == s,
            _ => false,
        },
{
    match report {
        KillReport::Signalled { status, os_error } => {
            if status == 0 {
                Ok(())
            } else {
                let tail = chars_of(os_error.as_str());
                Err(message3("Failed to terminate PID ", pid as u64, ". Run as administrator/root. OS error: ", tail.as_slice()))
            }
        },
        KillReport::OpenFailed { error_code } => {
            let tail = dec_chars(error_code as u64);
            Err(message3("Failed to open PID ", pid as u64, ". Run as administrator. Windows error: ", tail.as_slice()))
        },
        KillReport::TerminateFailed { error_code } => {
            let tail = dec_chars(error_code as u64);
            Err(message3("Failed to terminate PID ", pid as u64, ". Windows error: ", tail.as_slice()))
        },
        KillReport::Terminated => Ok(()),
        KillReport::Unsupported => Err("Unsupported platform".to_owned()),
    }
}

/// The link in `/proc` that names the executable of process `pid`: `/proc/<pid>/exe`.
pub fn proc_exe_link(pid: u32) -> (res: String)
    ensures
        res@ == "/proc/"@ + dec_string(pid as nat) + "/exe"@,
{
    let mut v = chars_of("/proc/");
    let digits = dec_chars(pid as u64);
    append_chars(&mut v, digits.as_slice());
    let tail = chars_of("/exe");
    append_chars(&mut v, tail.as_slice());
    string_of(v.as_slice())
}

/// One process of a Windows process snapshot: its id and its executable's file name as the
/// snapshot holds it, a NUL-terminated UTF-16 buffer.
#[derive(Debug, Clone, PartialEq, Eq)]
pub struct SnapshotProcess {
    pub pid: u32,
    pub exe_file: Vec<u16>,
}

/// The names of the processes of a Windows snapshot, by process id; a later entry for the
/// same id replaces an earlier one.
pub open spec fn snapshot_names_spec(entries: Seq<SnapshotProcess>) -> Map<u32, Seq<char>>
    decreases entries.len(),
{
    if entries.len() == 0 {
        Map::empty()
    } else {
        let e = entries.last();
        snapshot_names_spec(entries.drop_last()).insert(e.pid, utf16_lossy(before_nul(e.exe_file@)))
    }
}

/// The process names of a Windows process snapshot, by process id.
pub fn process_names_from_snapshot(entries: &Vec<SnapshotProcess>) -> (res: HashMap<u32, String>)
    ensures
        res@.dom() == snapshot_names_spec(entries@).dom(),
        forall|pid: u32| #[trigger] res@.contains_key(pid) ==> res@[pid]@ == snapshot_names_spec(entries@)[pid],
{
    let mut res: HashMap<u32, String> = HashMap::new();
    let mut i: usize = 0;
    while i < entries.len()
        invariant
            i <= entries.len(),
            res@.dom() == snapshot_names_spec(entries@.take(i as int)).dom(),
            forall|pid: u32| #[trigger] res@.contains_key(pid) ==> res@[pid]@ == snapshot_names_spec(entries@.take(i as int))[pid],
        decreases entries.len() - i,
    {
        let e = &entries[i];
        assert(entries@.take(i + 1).drop_last() =~= entries@.take(i as int));
        assert(entries@.take(i + 1).last() == *e);
        let name = wide_to_string(e.exe_file.as_slice());
        res.insert(e.pid, name);
        i = i + 1;
    }
    assert(entries@.take(entries.len() as int) =~= entries@);
    res
}

/// The executable path that a Windows image-name query gave: none when the query failed or
/// gave no characters, else the first `size` units of the buffer, decoded with unpaired
/// surrogates replaced.
pub fn windows_image_path(succeeded: bool, size: u32, buffer: &[u16]) -> (res: Option<String>)
    requires
        size <= buffer.len(),
    ensures
        !succeeded || size == 0 ==> res is None,
        succeeded && size > 0 ==> res is Some && res.unwrap()@ == utf16_lossy(buffer@.take(size as int)),
{
    if !succeeded || size == 0 {
        return None;
    }
    let n = size as usize;
    assert(buffer@.subrange(0, n as int) =~= buffer@.take(size as int));
    Some(from_utf16_lossy(&buffer[0..n]))
}

/// The bytes before the first NUL (all of them when there is none).
pub open spec fn bytes_before_nul(bytes: Seq<u8>) -> Seq<u8> {
    if exists|i: int| 0 <= i < bytes.len() && bytes[i] == 0 {
        let i = choose|i: int| 0 <= i < bytes.len() && bytes[i] == 0 && forall|j: int| 0 <= j < i ==> bytes[j] != 0;
        bytes.take(i)
    } else {
        bytes
    }
}

/// The executable path that a macOS `proc_pidpath` call gave: none when it returned no
/// positive length, else the NUL-terminated text in the buffer when it is valid UTF-8.
pub fn macos_pid_path(length: i32, buffer: &[u8]) -> (res: Option<String>)
    ensures
        length <= 0 ==> res is None,
        length > 0 ==> (res is Some <==> vstd::utf8::valid_utf8(bytes_before_nul(buffer@))),
        length > 0 && res is Some ==> res.unwrap()@ == vstd::utf8::decode_utf8(bytes_before_nul(buffer@)),
{
    if length <= 0 {
        return None;
    }
    let mut len: usize = 0;
    while len < buffer.len() && buffer[len] != 0
        invariant
            len <= buffer.len(),
            forall|j: int| 0 <= j < len ==> buffer@[j] != 0,
        decreases buffer.len() - len,
    {
        len = len + 1;
    }
    proof {
        if len < buffer.len() {
            let i = choose|i: int| 0 <= i < buffer@.len() && buffer@[i] == 0 && forall|j: int| 0 <= j < i ==> buffer@[j] != 0;
            assert(i == len as int) by {
                if i > len {
                    assert(buffer@[len as int] == 0);
                }
            }
        } else {
            assert(buffer@.take(len as int) =~= buffer@);
        }
        assert(buffer@.subrange(0, len as int) =~= bytes_before_nul(buffer@));
    }
    str_from_utf8(&buffer[0..len])
}

} // verus!
