use std::collections::HashMap;
use port_manager::process::{
    build_process_info, kill_process, macos_pid_path, proc_exe_link, process_names_by_pid,
    process_names_from_snapshot, terminate_process, unix_kill_process, unix_kill_target, windows_image_path, KillReport, ProcNameEntry,
    SnapshotProcess,
};

fn never_called(_: u32) -> KillReport {
    panic!("the operating system must not be asked")
}

fn never_signalled(_: i32) -> KillReport {
    panic!("no signal may be sent")
}

#[test]
fn refuses_to_terminate_self_or_pid_zero() {
    let own_pid: u32 = 4242;
    assert!(kill_process(0, own_pid, never_called).is_err());
    assert!(kill_process(own_pid, own_pid, never_called).is_err());
}

#[test]
fn kill_messages_and_other_pids() {
    assert_eq!(kill_process(0, 7, never_called), Err("PID 0 cannot be terminated".to_string()));
    assert_eq!(kill_process(7, 7, never_called), Err("The port manager process itself cannot be terminated".to_string()));
    assert_eq!(kill_process(8, 7, |pid: u32| { assert_eq!(pid, 8); KillReport::Terminated }), Ok(()));
    assert_eq!(
        kill_process(8, 7, |_: u32| KillReport::OpenFailed { error_code: 5 }),
        Err("Failed to open PID 8. Run as administrator. Windows error: 5".to_string())
    );
}

#[test]
fn terminate_outcomes() {
    assert_eq!(terminate_process(42, KillReport::Signalled { status: 0, os_error: String::new() }), Ok(()));
    assert_eq!(
        terminate_process(42, KillReport::Signalled { status: -1, os_error: "Operation not permitted (os error 1)".to_string() }),
        Err("Failed to terminate PID 42. Run as administrator/root. OS error: Operation not permitted (os error 1)".to_string())
    );
    assert_eq!(
        terminate_process(9, KillReport::OpenFailed { error_code: 5 }),
        Err("Failed to open PID 9. Run as administrator. Windows error: 5".to_string())
    );
    assert_eq!(
        terminate_process(9, KillReport::TerminateFailed { error_code: 87 }),
        Err("Failed to terminate PID 9. Windows error: 87".to_string())
    );
    assert_eq!(terminate_process(9, KillReport::Terminated), Ok(()));
    assert_eq!(terminate_process(9, KillReport::Unsupported), Err("Unsupported platform".to_string()));
}

#[test]
fn process_name_prefers_known_names() {
    let mut names = HashMap::new();
    names.insert(10u32, "sshd".to_string());
    let info = build_process_info(10, Some("hint"), &names, Some("/usr/sbin/other".to_string()));
    assert_eq!(info.name, "sshd");
    assert_eq!(info.path, Some("/usr/sbin/other".to_string()));
}

#[test]
fn process_name_falls_back_to_hint_then_path_then_pid() {
    let names = HashMap::new();
    assert_eq!(build_process_info(3, Some("nginx"), &names, None).name, "nginx");
    assert_eq!(build_process_info(3, Some(""), &names, Some("/usr/bin/python3".to_string())).name, "python3");
    assert_eq!(build_process_info(3, None, &names, Some("/usr/bin/python3".to_string())).name, "python3");
    assert_eq!(build_process_info(42, None, &names, None).name, "PID 42");
    assert_eq!(build_process_info(42, Some(""), &names, Some("/".to_string())).name, "PID 42");
    assert_eq!(build_process_info(42, None, &names, Some("/usr/..".to_string())).name, "PID 42");
}

#[test]
fn proc_names_are_trimmed_and_keyed_by_pid() {
    let entries = vec![
        ProcNameEntry { dir_name: "1".to_string(), comm: Some("systemd\n".to_string()) },
        ProcNameEntry { dir_name: "self".to_string(), comm: Some("bash\n".to_string()) },
        ProcNameEntry { dir_name: "77".to_string(), comm: None },
        ProcNameEntry { dir_name: "200".to_string(), comm: Some("  node  ".to_string()) },
    ];
    let names = process_names_by_pid(&entries);
    assert_eq!(names.len(), 2);
    assert_eq!(names.get(&1), Some(&"systemd".to_string()));
    assert_eq!(names.get(&200), Some(&"node".to_string()));
    assert_eq!(names.get(&77), None);
}

#[test]
fn exe_link_path() {
    assert_eq!(proc_exe_link(1234), "/proc/1234/exe");
}

#[test]
fn snapshot_names_decode_up_to_nul_and_last_wins() {
    let entries = vec![
        SnapshotProcess { pid: 4, exe_file: vec![0x53, 0x79, 0x73, 0, 0x58] },
        SnapshotProcess { pid: 8, exe_file: "a.exe\0".encode_utf16().collect() },
        SnapshotProcess { pid: 8, exe_file: "b.exe\0".encode_utf16().collect() },
    ];
    let names = process_names_from_snapshot(&entries);
    assert_eq!(names.len(), 2);
    assert_eq!(names.get(&4), Some(&"Sys".to_string()));
    assert_eq!(names.get(&8), Some(&"b.exe".to_string()));
}

#[test]
fn windows_image_path_outcomes() {
    let buffer: Vec<u16> = "C:\\x.exe\0\0".encode_utf16().collect();
    assert_eq!(windows_image_path(false, 8, &buffer), None);
    assert_eq!(windows_image_path(true, 0, &buffer), None);
    assert_eq!(windows_image_path(true, 8, &buffer), Some("C:\\x.exe".to_string()));
    assert_eq!(windows_image_path(true, 3, &buffer), Some("C:\\".to_string()));
}

#[test]
fn macos_pid_path_outcomes() {
    let mut buffer = vec![0u8; 16];
    buffer[..8].copy_from_slice(b"/bin/ls\0");
    assert_eq!(macos_pid_path(0, &buffer), None);
    assert_eq!(macos_pid_path(-1, &buffer), None);
    assert_eq!(macos_pid_path(7, &buffer), Some("/bin/ls".to_string()));
    let invalid = [b'/', 0xff, 0];
    assert_eq!(macos_pid_path(2, &invalid), None);
}

#[test]
fn windows_process_info_smoke_test() {
    let pid: u32 = 4242;
    let entries = vec![SnapshotProcess { pid, exe_file: "port-manager.exe\0".encode_utf16().collect() }];
    let names = process_names_from_snapshot(&entries);
    assert!(names.contains_key(&pid));
    let buffer: Vec<u16> = "C:\\Apps\\port-manager.exe".encode_utf16().collect();
    assert!(windows_image_path(true, buffer.len() as u32, &buffer).is_some());
}

#[test]
fn unix_kill_target_refuses_ids_that_name_groups_or_everyone() {
    assert_eq!(unix_kill_target(u32::MAX), Err("PID 4294967295 is not a valid process id".to_string()));
    assert_eq!(unix_kill_target(0x8000_0000), Err("PID 2147483648 is not a valid process id".to_string()));
    assert_eq!(unix_kill_target(0), Err("PID 0 is not a valid process id".to_string()));
    assert_eq!(unix_kill_target(1), Ok(1));
    assert_eq!(unix_kill_target(0x7fff_ffff), Ok(i32::MAX));
    assert_eq!(unix_kill_target(4242), Ok(4242));
}

#[test]
fn unix_kill_signals_only_the_one_process() {
    assert_eq!(unix_kill_process(0, 7, never_signalled), Err("PID 0 cannot be terminated".to_string()));
    assert_eq!(unix_kill_process(7, 7, never_signalled), Err("The port manager process itself cannot be terminated".to_string()));
    assert_eq!(unix_kill_process(u32::MAX, 7, never_signalled), Err("PID 4294967295 is not a valid process id".to_string()));
    assert_eq!(unix_kill_process(0x8000_0000, 7, never_signalled), Err("PID 2147483648 is not a valid process id".to_string()));
    assert_eq!(
        unix_kill_process(4242, 7, |target: i32| {
            assert_eq!(target, 4242);
            KillReport::Signalled { status: 0, os_error: String::new() }
        }),
        Ok(())
    );
    assert_eq!(
        unix_kill_process(9, 7, |_: i32| KillReport::Signalled { status: -1, os_error: "No such process (os error 3)".to_string() }),
        Err("Failed to terminate PID 9. Run as administrator/root. OS error: No such process (os error 3)".to_string())
    );
}
