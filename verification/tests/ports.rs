use flowcalc::port::{Packet, Port, PortBay, PortIndex, VecPortBay};

#[test]
fn new_port_is_vacant() {
    let port: Port<i32, bool> = Port::new();
    assert!(port.incoming.is_none());
    assert!(port.outgoing.is_none());
}

#[test]
fn default_port_is_vacant() {
    let port: Port<i32, bool> = Default::default();
    assert!(port.incoming.is_none());
    assert!(port.outgoing.is_none());
}

#[test]
fn accept_installs_payload_and_piggyback() {
    let mut port: Port<i32, bool> = Port::new();
    port.accept_packet(Packet { payload: 5, piggyback: Some(true) });
    assert_eq!(port.incoming, Some(5));
    assert_eq!(port.outgoing, Some(true));
}

#[test]
fn accept_without_piggyback_leaves_outgoing_empty() {
    let mut port: Port<i32, bool> = Port::new();
    port.accept_packet(Packet { payload: 7, piggyback: None });
    assert_eq!(port.incoming, Some(7));
    assert_eq!(port.outgoing, None);
}

#[test]
fn dispatch_returns_pending_payload_with_piggyback() {
    let mut port: Port<i32, bool> = Port::new();
    port.accept_packet(Packet { payload: 5, piggyback: Some(true) });
    let packet = port.try_dispatch_packet().expect("a packet was pending");
    assert_eq!(packet.payload, true);
    assert_eq!(packet.piggyback, Some(5));
    assert!(port.incoming.is_none());
    assert!(port.outgoing.is_none());
}

#[test]
fn dispatch_without_pending_payload_returns_nothing() {
    let mut port: Port<i32, bool> = Port::new();
    port.incoming = Some(3);
    assert!(port.try_dispatch_packet().is_none());
    // a fruitless dispatch leaves the port untouched
    assert_eq!(port.incoming, Some(3));
}

#[test]
fn port_index_round_trip() {
    let index = PortIndex::new(4);
    assert_eq!(usize::from(index), 4);
    assert_eq!(index.get(), 4);
    assert_eq!(index, PortIndex::new(4));
    assert!(PortIndex::new(1) < PortIndex::new(2));
}

#[test]
fn bay_starts_with_vacant_ports() {
    let bay: VecPortBay<i32, bool> = VecPortBay::new(3);
    assert_eq!(bay.num_ports(), 3);
    for port in bay.ports() {
        assert!(port.incoming.is_none());
        assert!(port.outgoing.is_none());
    }
}

#[test]
fn bay_accept_and_dispatch_address_one_port() {
    let mut bay: VecPortBay<i32, bool> = VecPortBay::new(3);
    bay.accept_packet(PortIndex::new(1), Packet { payload: 9, piggyback: None });
    assert_eq!(bay.port(PortIndex::new(1)).incoming, Some(9));
    assert!(bay.port(PortIndex::new(0)).incoming.is_none());
    assert!(bay.port(PortIndex::new(2)).incoming.is_none());

    bay.port_mut(PortIndex::new(2)).outgoing = Some(true);
    let packet = bay.try_dispatch_packet(PortIndex::new(2)).expect("pending");
    assert_eq!(packet.payload, true);
    assert_eq!(packet.piggyback, None);
    assert!(bay.try_dispatch_packet(PortIndex::new(0)).is_none());
}

#[test]
fn bay_default_is_empty() {
    let bay: VecPortBay<i32, bool> = Default::default();
    assert_eq!(bay.num_ports(), 0);
}

#[test]
fn ports_mut_reaches_every_port() {
    let mut bay: VecPortBay<i32, bool> = VecPortBay::new(2);
    for port in bay.ports_mut().iter_mut() {
        port.outgoing = Some(false);
    }
    assert_eq!(bay.port(PortIndex::new(0)).outgoing, Some(false));
    assert_eq!(bay.port(PortIndex::new(1)).outgoing, Some(false));
}
