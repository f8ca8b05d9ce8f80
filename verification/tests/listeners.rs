use port_authority::listeners::{
    compare_entries, summarize, AddressFamily, ListenerEntry, ListenerOrder, ObservedSocket,
};

fn ipv4(octets: [u8; 4]) -> u128 {
    u128::from(u32::from_be_bytes(octets))
}

fn socket(port: u16, tcp: bool, listening: bool, pid: u32) -> ObservedSocket {
    ObservedSocket {
        port,
        address: ipv4([127, 0, 0, 1]),
        family: AddressFamily::Ipv4,
        pid,
        process: format!("process-{pid}"),
        tcp,
        listening,
    }
}

fn dotted(entry: &ListenerEntry) -> String {
    let octets = (entry.address as u32).to_be_bytes();
    format!("{}.{}.{}.{}", octets[0], octets[1], octets[2], octets[3])
}

fn copy(socket: &ObservedSocket) -> ObservedSocket {
    ObservedSocket {
        port: socket.port,
        address: socket.address,
        family: socket.family,
        pid: socket.pid,
        process: socket.process.clone(),
        tcp: socket.tcp,
        listening: socket.listening,
    }
}

#[test]
fn keeps_only_requested_tcp_listeners_and_reports_missing_ports() {
    let result = summarize(
        &vec![
            socket(6008, true, true, 30),
            socket(6007, true, false, 20),
            socket(6007, false, false, 10),
        ],
        &vec![6008, 6009],
        ListenerOrder::Port,
    );

    assert_eq!(result.listeners.len(), 1);
    assert_eq!(result.listeners[0].port, 6008);
    assert_eq!(result.listeners[0].family, AddressFamily::Ipv4);
    assert_eq!(result.listeners[0].pid, 30);
    assert_eq!(result.missing_ports, vec![6009]);
}

#[test]
fn sorts_and_deduplicates_unfiltered_results() {
    let later = socket(6009, true, true, 20);
    let earlier = socket(6008, true, true, 10);
    let result = summarize(&vec![later, copy(&earlier), earlier], &vec![], ListenerOrder::Port);

    assert_eq!(
        result.listeners.iter().map(|entry| entry.port).collect::<Vec<_>>(),
        vec![6008, 6009]
    );
    assert!(result.missing_ports.is_empty());
}

#[test]
fn orders_addresses_numerically_rather_than_as_text() {
    let at = |address: [u8; 4], port: u16| ObservedSocket {
        port,
        address: ipv4(address),
        family: AddressFamily::Ipv4,
        pid: 10,
        process: "process".to_owned(),
        tcp: true,
        listening: true,
    };
    let result = summarize(
        &vec![at([10, 0, 0, 1], 6008), at([9, 0, 0, 1], 6009)],
        &vec![],
        ListenerOrder::Address,
    );

    assert_eq!(
        result.listeners.iter().map(dotted).collect::<Vec<_>>(),
        vec!["9.0.0.1", "10.0.0.1"]
    );
}

#[test]
fn every_order_selects_its_column_and_still_deduplicates() {
    let first = socket(6008, true, true, 30);
    let second = socket(6009, true, true, 20);
    let third = socket(6010, true, true, 10);
    let duplicated = vec![copy(&first), copy(&second), copy(&third), first, second, third];

    for (order, expected) in [
        (ListenerOrder::Port, vec![6008, 6009, 6010]),
        (ListenerOrder::Address, vec![6008, 6009, 6010]),
        (ListenerOrder::Family, vec![6008, 6009, 6010]),
        (ListenerOrder::Pid, vec![6010, 6009, 6008]),
        (ListenerOrder::Process, vec![6010, 6009, 6008]),
    ] {
        let result = summarize(&duplicated, &vec![], order);
        assert_eq!(
            result.listeners.iter().map(|entry| entry.port).collect::<Vec<_>>(),
            expected,
            "unexpected ordering for {order:?}"
        );
    }
}

#[test]
fn ipv4_listeners_come_before_ipv6_ones() {
    let v6 = ObservedSocket {
        port: 6008,
        address: 1,
        family: AddressFamily::Ipv6,
        pid: 1,
        process: "a".to_owned(),
        tcp: true,
        listening: true,
    };
    let v4 = ObservedSocket {
        port: 6008,
        address: ipv4([255, 255, 255, 255]),
        family: AddressFamily::Ipv4,
        pid: 1,
        process: "a".to_owned(),
        tcp: true,
        listening: true,
    };
    let result = summarize(&vec![v6, v4], &vec![6008, 6008, 7000], ListenerOrder::Address);
    assert_eq!(result.listeners[0].family, AddressFamily::Ipv4);
    assert_eq!(result.listeners[1].family, AddressFamily::Ipv6);
    assert_eq!(result.missing_ports, vec![7000]);
}

#[test]
fn entries_compare_by_column_then_by_every_field() {
    let a = ListenerEntry { port: 1, address: 5, family: AddressFamily::Ipv4, pid: 9, process: "b".to_owned() };
    let b = ListenerEntry { port: 2, address: 5, family: AddressFamily::Ipv4, pid: 1, process: "a".to_owned() };
    assert_eq!(compare_entries(ListenerOrder::Port, &a, &b), -1);
    assert_eq!(compare_entries(ListenerOrder::Pid, &a, &b), 1);
    assert_eq!(compare_entries(ListenerOrder::Process, &a, &b), 1);
    assert_eq!(compare_entries(ListenerOrder::Address, &a, &b), -1);
    assert_eq!(compare_entries(ListenerOrder::Family, &a, &a), 0);
}
