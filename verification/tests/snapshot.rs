use psweep::{entries_from_snapshot, list_ports, Protocol, SocketBinding};

fn binding(protocol: Protocol, addr: Vec<u8>, port: u16, pid: u32, name: &str) -> SocketBinding {
    SocketBinding { protocol, addr, port, pid, process_name: name.to_string() }
}

fn v4_any() -> Vec<u8> {
    vec![0, 0, 0, 0]
}

fn v6_any() -> Vec<u8> {
    vec![0; 16]
}

#[test]
fn filters_to_wildcard_tcp_listeners() {
    let snapshot = vec![
        binding(Protocol::Tcp, v4_any(), 8080, 10, "web"),
        binding(Protocol::Udp, v4_any(), 53, 11, "dns"),
        binding(Protocol::Tcp, vec![127, 0, 0, 1], 9090, 12, "local"),
        binding(Protocol::Tcp, v4_any(), 0, 13, "phantom"),
    ];
    let rows = entries_from_snapshot(&snapshot);
    assert_eq!(rows.len(), 1);
    assert_eq!(rows[0].port, 8080);
    assert_eq!(rows[0].pid, 10);
    assert_eq!(rows[0].process_name, "web");
    assert_eq!(rows[0].status, "Running");
}

#[test]
fn dual_stack_pairs_deduplicate() {
    let snapshot = vec![
        binding(Protocol::Tcp, v4_any(), 3000, 42, "node"),
        binding(Protocol::Tcp, v6_any(), 3000, 42, "node"),
    ];
    let rows = entries_from_snapshot(&snapshot);
    assert_eq!(rows.len(), 1);
    assert_eq!((rows[0].port, rows[0].pid), (3000, 42));
}

#[test]
fn first_occurrence_is_kept() {
    let snapshot = vec![
        binding(Protocol::Tcp, v4_any(), 3000, 42, "first"),
        binding(Protocol::Tcp, v6_any(), 3000, 42, "second"),
    ];
    let rows = entries_from_snapshot(&snapshot);
    assert_eq!(rows.len(), 1);
    assert_eq!(rows[0].process_name, "first");
}

#[test]
fn rows_sort_ascending_by_port_then_pid() {
    let snapshot = vec![
        binding(Protocol::Tcp, v4_any(), 9000, 7, "c"),
        binding(Protocol::Tcp, v4_any(), 80, 99, "a"),
        binding(Protocol::Tcp, v6_any(), 9000, 3, "b"),
        binding(Protocol::Tcp, v4_any(), 443, 1, "d"),
    ];
    let rows = entries_from_snapshot(&snapshot);
    let keys: Vec<(u16, u32)> = rows.iter().map(|e| (e.port, e.pid)).collect();
    assert_eq!(keys, vec![(80, 99), (443, 1), (9000, 3), (9000, 7)]);
}

#[test]
fn same_port_distinct_pids_both_listed() {
    let snapshot = vec![
        binding(Protocol::Tcp, v4_any(), 8000, 20, "b"),
        binding(Protocol::Tcp, v4_any(), 8000, 10, "a"),
    ];
    let rows = entries_from_snapshot(&snapshot);
    assert_eq!(rows.len(), 2);
    assert_eq!((rows[0].port, rows[0].pid), (8000, 10));
    assert_eq!((rows[1].port, rows[1].pid), (8000, 20));
}

#[test]
fn empty_snapshot_gives_empty_table() {
    let rows = entries_from_snapshot(&Vec::new());
    assert!(rows.is_empty());
}

#[test]
fn live_listing_is_sorted_and_duplicate_free() {
    let rows = list_ports().expect("enumerating the live socket table");
    for w in rows.windows(2) {
        assert!((w[0].port, w[0].pid) < (w[1].port, w[1].pid));
    }
    for e in &rows {
        assert_eq!(e.status, "Running");
        assert!(e.port >= 1);
    }
}
