use port_manager::ports::RawPortEntry;
use port_manager::procnet::{
    linux_parse_proc_endpoint, linux_read_proc_net, linux_socket_inode_to_pid, linux_tcp_state, list_ports_linux,
    ProcFdListing, ProcSnapshot,
};

#[test]
fn tcp_states() {
    assert_eq!(linux_tcp_state("01"), "ESTABLISHED");
    assert_eq!(linux_tcp_state("0A"), "LISTENING");
    assert_eq!(linux_tcp_state("0C"), "NEW_SYN_RECV");
    assert_eq!(linux_tcp_state("0a"), "UNKNOWN");
    assert_eq!(linux_tcp_state("10"), "UNKNOWN");
}

#[test]
fn ipv4_proc_endpoint() {
    assert_eq!(linux_parse_proc_endpoint("0100007F:1F90", false), Some(("127.0.0.1".to_string(), 8080)));
    assert_eq!(linux_parse_proc_endpoint("00000000:0016", false), Some(("0.0.0.0".to_string(), 22)));
    assert_eq!(linux_parse_proc_endpoint("0100007F", false), None);
    assert_eq!(linux_parse_proc_endpoint("XYZ:0016", false), None);
    assert_eq!(linux_parse_proc_endpoint("0100007F:10000", false), None);
}

#[test]
fn ipv6_proc_endpoint() {
    assert_eq!(
        linux_parse_proc_endpoint("00000000000000000000000001000000:0050", true),
        Some(("::1".to_string(), 80))
    );
    assert_eq!(
        linux_parse_proc_endpoint("00000000000000000000000000000000:0050", true),
        Some(("::".to_string(), 80))
    );
    assert_eq!(
        linux_parse_proc_endpoint("0000000000000000FFFF00000100007F:0016", true),
        Some(("::ffff:127.0.0.1".to_string(), 22))
    );
    assert_eq!(
        linux_parse_proc_endpoint("000080FE00000000FF005452FEB10F2A:0277", true),
        Some(("fe80::5254:ff:2a0f:b1fe".to_string(), 631))
    );
    assert_eq!(linux_parse_proc_endpoint("0000000000000000:0050", true), None);
}

#[test]
fn ipv6_longest_zero_run_is_elided() {
    // 1:0:0:2:0:0:0:3 -> the longer run (three groups) becomes ::
    assert_eq!(
        linux_parse_proc_endpoint("00000100020000000000000003000000:0001", true),
        Some(("1:0:0:2::3".to_string(), 1))
    );
    // a single zero group is not elided
    assert_eq!(
        linux_parse_proc_endpoint("01000100010000000100010001000100:0001", true),
        Some(("1:1:0:1:1:1:1:1".to_string(), 1))
    );
}

const TCP: &str = "  sl  local_address rem_address   st tx_queue rx_queue tr tm->when retrnsmt   uid  timeout inode\n\
   0: 0100007F:1F90 00000000:0000 0A 00000000:00000000 00:00000000 00000000  1000        0 4242 1 0000000000000000 100 0 0 10 0\n\
   1: 0100007F:0016 0100007F:C350 01 00000000:00000000 00:00000000 00000000  1000        0 999 1 0000000000000000 100 0 0 10 0\n\
   2: garbage\n";

#[test]
fn reads_proc_net_table() {
    let listings = vec![
        ProcFdListing { dir_name: "321".to_string(), fd_targets: vec!["/dev/null".to_string(), "socket:[4242]".to_string()] },
        ProcFdListing { dir_name: "not-a-pid".to_string(), fd_targets: vec!["socket:[999]".to_string()] },
        ProcFdListing { dir_name: "555".to_string(), fd_targets: vec!["socket:[4242]".to_string()] },
    ];
    let table = linux_socket_inode_to_pid(&listings);
    assert_eq!(table.lookup(&"4242".to_string()), Some(321));
    assert_eq!(table.lookup(&"999".to_string()), None);
    let mut rows: Vec<RawPortEntry> = Vec::new();
    assert!(linux_read_proc_net("/proc/net/tcp", "TCP", false, Some(TCP), &table, &mut rows).is_ok());
    assert_eq!(rows.len(), 2);
    assert_eq!(rows[0].local_address, "127.0.0.1");
    assert_eq!(rows[0].local_port, 8080);
    assert_eq!(rows[0].remote_address, Some("0.0.0.0".to_string()));
    assert_eq!(rows[0].remote_port, Some(0));
    assert_eq!(rows[0].state, Some("LISTENING".to_string()));
    assert_eq!(rows[0].pid, 321);
    assert_eq!(rows[0].id_hint, "/proc/net/tcp-4242-1");
    assert_eq!(rows[1].pid, 0);
    assert_eq!(rows[1].state, Some("ESTABLISHED".to_string()));
    assert_eq!(rows[1].remote_port, Some(50000));
    assert!(linux_read_proc_net("/proc/net/udp", "UDP", false, None, &table, &mut rows).is_ok());
    assert_eq!(rows.len(), 2);
}

#[test]
fn lists_linux_snapshot_in_table_order() {
    let udp = "header\n   0: 00000000:0044 00000000:0000 07 00000000:00000000 00:00000000 00000000 0 0 777 2\n";
    let snapshot = ProcSnapshot {
        tcp: Some(TCP.to_string()),
        tcp6: None,
        udp: Some(udp.to_string()),
        udp6: Some(String::new()),
        fd_listings: vec![ProcFdListing { dir_name: "9".to_string(), fd_targets: vec!["socket:[777]".to_string()] }],
    };
    let rows = list_ports_linux(&snapshot).unwrap();
    assert_eq!(rows.len(), 3);
    assert_eq!(rows[2].protocol, "UDP");
    assert_eq!(rows[2].state, None);
    assert_eq!(rows[2].pid, 9);
    assert_eq!(rows[2].local_port, 68);
    assert_eq!(rows[2].id_hint, "/proc/net/udp-777-1");
}

#[test]
fn inode_table_keeps_first_process_for_every_inode_text() {
    let listings = vec![
        ProcFdListing {
            dir_name: "10".to_string(),
            fd_targets: vec![
                "socket:[42]".to_string(),
                "socket:[0042]".to_string(),
                "socket:[5000000000]".to_string(),
                "socket:[]".to_string(),
            ],
        },
        ProcFdListing {
            dir_name: "20".to_string(),
            fd_targets: vec![
                "socket:[42]".to_string(),
                "socket:[0042]".to_string(),
                "socket:[5000000000]".to_string(),
                "socket:[7]".to_string(),
            ],
        },
    ];
    let table = linux_socket_inode_to_pid(&listings);
    assert_eq!(table.lookup(&"42".to_string()), Some(10));
    assert_eq!(table.lookup(&"0042".to_string()), Some(10));
    assert_eq!(table.lookup(&"+42".to_string()), None);
    assert_eq!(table.lookup(&"5000000000".to_string()), Some(10));
    assert_eq!(table.lookup(&"".to_string()), Some(10));
    assert_eq!(table.lookup(&"7".to_string()), Some(20));
    assert_eq!(table.lookup(&"8".to_string()), None);
}
