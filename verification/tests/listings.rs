use port_manager::listing::{list_ports_macos, list_ports_platform, list_ports_windows, CommandOutput, ListingSource};

const NETSTAT: &str = "\r\nActive Connections\r\n\r\n  Proto  Local Address          Foreign Address        State           PID\r\n  TCP    0.0.0.0:135            0.0.0.0:0              LISTENING       1124\r\n  TCP    [::]:445               [::]:0                 LISTENING       4\r\n  UDP    0.0.0.0:5353           *:*                                    2232\r\n  UDP    [::1]:1900             *:*                                    abc\r\n  tcp    127.0.0.1:9000         127.0.0.1:50000        ESTABLISHED     77\r\n  TCP    0.0.0.0:*              0.0.0.0:0              LISTENING       5\r\n";

fn ran(success: bool, stdout: &str, stderr: &[u8]) -> CommandOutput {
    CommandOutput::Ran { success, stdout: stdout.as_bytes().to_vec(), stderr: stderr.to_vec() }
}

#[test]
fn parses_netstat_output() {
    let rows = list_ports_windows(&ran(true, NETSTAT, b"")).unwrap();
    assert_eq!(rows.len(), 4);
    assert_eq!(rows[0].protocol, "TCP");
    assert_eq!(rows[0].local_address, "0.0.0.0");
    assert_eq!(rows[0].local_port, 135);
    assert_eq!(rows[0].remote_address, Some("0.0.0.0".to_string()));
    assert_eq!(rows[0].remote_port, Some(0));
    assert_eq!(rows[0].state, Some("LISTENING".to_string()));
    assert_eq!(rows[0].pid, 1124);
    assert_eq!(rows[0].process_name_hint, None);
    assert_eq!(rows[0].id_hint, "4");
    assert_eq!(rows[1].local_address, "::");
    assert_eq!(rows[1].local_port, 445);
    assert_eq!(rows[2].protocol, "UDP");
    assert_eq!(rows[2].state, None);
    assert_eq!(rows[2].remote_address, Some("*".to_string()));
    assert_eq!(rows[2].remote_port, None);
    assert_eq!(rows[2].id_hint, "6");
    assert_eq!(rows[3].protocol, "TCP");
    assert_eq!(rows[3].state, Some("ESTABLISHED".to_string()));
    assert_eq!(rows[3].pid, 77);
    assert_eq!(rows[3].id_hint, "8");
}

#[test]
fn netstat_failure_reports_stderr() {
    assert_eq!(
        list_ports_windows(&ran(false, "", b"access denied")).unwrap_err(),
        "netstat failed: access denied"
    );
    let err = list_ports_windows(&ran(false, "", &[b'x', 0xff, b'y'])).unwrap_err();
    assert_eq!(err, "netstat failed: x\u{fffd}y");
    assert_eq!(
        list_ports_windows(&CommandOutput::NotRun { error: "not found".to_string() }).unwrap_err(),
        "Failed to run netstat: not found"
    );
}

const LSOF: &str = "COMMAND   PID USER   FD   TYPE DEVICE SIZE/OFF NODE NAME\nrapportd  512 me    4u  IPv4 0x1234      0t0  TCP *:49152 (LISTEN)\nGoogle    900 me   30u  IPv4 0x5678      0t0  TCP 192.168.1.5:50000->142.250.1.1:443 (ESTABLISHED)\nmDNSResp  300 me    8u  IPv6 0x9abc      0t0  UDP *:5353\nbroken    xx  me    8u  IPv6 0x9abc      0t0  UDP *:5353\nshort line\n";

#[test]
fn parses_lsof_output() {
    let rows = list_ports_macos(&ran(true, LSOF, b"")).unwrap();
    assert_eq!(rows.len(), 3);
    assert_eq!(rows[0].process_name_hint, Some("rapportd".to_string()));
    assert_eq!(rows[0].pid, 512);
    assert_eq!(rows[0].local_address, "*");
    assert_eq!(rows[0].local_port, 49152);
    assert_eq!(rows[0].remote_address, Some("*".to_string()));
    assert_eq!(rows[0].remote_port, None);
    assert_eq!(rows[0].state, Some("LISTENING".to_string()));
    assert_eq!(rows[0].id_hint, "1");
    assert_eq!(rows[1].local_address, "192.168.1.5");
    assert_eq!(rows[1].remote_address, Some("142.250.1.1".to_string()));
    assert_eq!(rows[1].remote_port, Some(443));
    assert_eq!(rows[1].state, Some("ESTABLISHED".to_string()));
    assert_eq!(rows[2].protocol, "UDP");
    assert_eq!(rows[2].state, None);
}

#[test]
fn lsof_failure_only_without_output() {
    assert_eq!(list_ports_macos(&ran(false, "", b"boom")).unwrap_err(), "lsof failed: boom");
    assert_eq!(list_ports_macos(&ran(false, LSOF, b"warning")).unwrap().len(), 3);
    assert_eq!(
        list_ports_macos(&CommandOutput::NotRun { error: "missing".to_string() }).unwrap_err(),
        "Failed to run lsof: missing"
    );
}

#[test]
fn unsupported_platform() {
    assert_eq!(list_ports_platform(&ListingSource::Unsupported).unwrap_err(), "Unsupported platform");
    assert_eq!(list_ports_platform(&ListingSource::Lsof(ran(true, LSOF, b""))).unwrap().len(), 3);
}

#[test]
fn windows_port_listing_smoke_test() {
    let rows = list_ports_windows(&ran(true, NETSTAT, b"")).expect("windows port listing should succeed");
    assert!(rows.iter().all(|row| row.protocol == "TCP" || row.protocol == "UDP"));
}

#[test]
fn listed_protocols_are_tcp_or_udp() {
    let odd = "  SCTP   0.0.0.0:1 0.0.0.0:0 LISTENING 3\n  udp  0.0.0.0:53 *:* 9\nx y z\n";
    let rows = list_ports_windows(&ran(true, odd, b"")).unwrap();
    assert_eq!(rows.len(), 1);
    assert_eq!(rows[0].protocol, "UDP");
    let mac = list_ports_macos(&ran(true, LSOF, b"")).unwrap();
    assert!(mac.iter().all(|row| row.protocol == "TCP" || row.protocol == "UDP"));
}
