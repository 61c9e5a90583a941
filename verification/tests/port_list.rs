use std::collections::HashMap;
use port_manager::ports::{distinct_pids, list_ports, RawPortEntry};

fn raw(protocol: &str, address: &str, port: u16, pid: u32, hint: Option<&str>, id_hint: &str) -> RawPortEntry {
    RawPortEntry {
        protocol: protocol.to_string(),
        local_address: address.to_string(),
        local_port: port,
        remote_address: None,
        remote_port: None,
        state: None,
        pid,
        process_name_hint: hint.map(|h| h.to_string()),
        id_hint: id_hint.to_string(),
    }
}

fn sample() -> Vec<RawPortEntry> {
    vec![
        raw("TCP", "0.0.0.0", 8080, 5, Some("a"), "0"),
        raw("UDP", "0.0.0.0", 53, 7, None, "1"),
        raw("TCP", "127.0.0.1", 8080, 5, Some("b"), "2"),
        raw("TCP", "0.0.0.0", 22, 1, None, "3"),
        raw("TCP", "::", 8080, 2, None, "4"),
        raw("UDP", "::", 8080, 1, None, "5"),
    ]
}

#[test]
fn rows_are_sorted_by_port_protocol_pid_and_stable() {
    let mut names = HashMap::new();
    names.insert(1u32, "init".to_string());
    let mut paths = HashMap::new();
    paths.insert(5u32, Some("/usr/bin/web".to_string()));
    paths.insert(7u32, None);
    let rows = list_ports(sample(), &names, &paths);
    let ids: Vec<&str> = rows.iter().map(|r| r.id.as_str()).collect();
    assert_eq!(
        ids,
        vec![
            "TCP-0.0.0.0-22-1-3-3",
            "UDP-0.0.0.0-53-7-1-1",
            "TCP-::-8080-2-4-4",
            "TCP-0.0.0.0-8080-5-0-0",
            "TCP-127.0.0.1-8080-5-2-2",
            "UDP-::-8080-1-5-5",
        ]
    );
    assert_eq!(rows[0].process_name, "init");
    assert_eq!(rows[1].process_name, "PID 7");
    assert_eq!(rows[1].process_path, None);
    assert_eq!(rows[2].process_name, "PID 2");
    assert_eq!(rows[3].process_name, "a");
    assert_eq!(rows[4].process_name, "a");
    assert_eq!(rows[4].process_path, Some("/usr/bin/web".to_string()));
    assert_eq!(rows[5].process_name, "init");
}

#[test]
fn empty_listing_gives_empty_list() {
    assert!(list_ports(Vec::new(), &HashMap::new(), &HashMap::new()).is_empty());
}

#[test]
fn pids_to_look_up_are_distinct_in_order() {
    assert_eq!(distinct_pids(&sample()), vec![5, 7, 1, 2]);
}

#[test]
fn ids_are_distinct_even_for_identical_sockets() {
    let same = vec![
        raw("TCP", "0.0.0.0", 80, 9, None, "1"),
        raw("TCP", "0.0.0.0", 80, 9, None, "1"),
        raw("TCP", "0.0.0.0", 80, 9, None, "1"),
    ];
    let rows = list_ports(same, &HashMap::new(), &HashMap::new());
    let ids: Vec<&str> = rows.iter().map(|r| r.id.as_str()).collect();
    assert_eq!(ids, vec!["TCP-0.0.0.0-80-9-1-0", "TCP-0.0.0.0-80-9-1-1", "TCP-0.0.0.0-80-9-1-2"]);
}
