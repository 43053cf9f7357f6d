use psweep::{kill_port, kill_ports, list_ports, parse_port_spec};

#[test]
fn batch_reports_every_port_in_order() {
    let ports: Vec<u16> = vec![65533, 65532];
    let results = kill_ports(&ports);
    assert_eq!(results.len(), 2);
    assert_eq!(results[0].port, 65533);
    assert_eq!(results[1].port, 65532);
    assert!(results[0].message.starts_with("Port 65533"));
    assert!(results[1].message.starts_with("Port 65532"));
}

#[test]
fn failure_on_one_port_does_not_skip_the_next() {
    // The first port is never a real listener, so its kill fails; the second
    // port still gets its own, independently produced result.
    let ports: Vec<u16> = vec![65531, 65530];
    let results = kill_ports(&ports);
    assert_eq!(results.len(), 2);
    assert!(!results[0].success);
    assert!(results[0].message.contains("65531"));
    assert_eq!(results[1].port, 65530);
    assert!(results[1].message.contains("65530"));
}

#[test]
fn end_to_end_spec_to_batch() {
    let ports = parse_port_spec("8080,9000-9002").unwrap();
    assert_eq!(ports, vec![8080, 9000, 9001, 9002]);
    let listed = list_ports().unwrap();
    let busy = listed.iter().any(|e| ports.contains(&e.port));
    let results = kill_ports(&ports);
    assert_eq!(results.len(), 4);
    for (r, p) in results.iter().zip(ports.iter()) {
        assert_eq!(r.port, *p);
        assert!(r.message.starts_with(&format!("Port {}", p)));
        if !busy {
            assert!(!r.success);
            assert!(r.message.starts_with(&format!("Port {}: ", p)));
        }
    }
}

#[test]
fn success_flag_matches_message_shape() {
    let (success, message) = kill_port(65529);
    if success {
        assert_eq!(message, "Port 65529 terminated successfully!");
    } else {
        assert!(message.starts_with("Port 65529: "));
    }
}

#[test]
fn port_zero_cannot_resolve() {
    let (success, message) = kill_port(0);
    assert!(!success);
    assert!(message.starts_with("Port 0: "));
}
