use destination::dst::{DestinationSet, ErrorKind, Remote, StreamEvent};
use destination::net::SocketAddress;
use destination::responder::{Responder, Update};
use destination::wire::{AddrSet, IpAddress, PbUpdate, TcpAddress, WeightedAddr, WeightedAddrSet,
    WireIp};
use futures::stream::Stream;
use futures::sync::mpsc::{unbounded, UnboundedReceiver};

fn tcp_v4(ip: u32, port: u32) -> TcpAddress {
    TcpAddress { ip: Some(IpAddress { ip: Some(WireIp::Ipv4(ip)) }), port }
}

fn weighted(ip: u32, port: u32, labels: Vec<(&str, &str)>) -> WeightedAddr {
    WeightedAddr {
        addr: Some(tcp_v4(ip, port)),
        weight: 0,
        metric_labels: labels
            .into_iter()
            .map(|(k, v)| (k.to_string(), v.to_string()))
            .collect(),
        protocol_hint: None,
        tls_identity: None,
    }
}

fn add_event(addrs: Vec<WeightedAddr>, set_labels: Vec<(&str, &str)>) -> StreamEvent {
    StreamEvent::Item(Some(PbUpdate::Add(WeightedAddrSet {
        addrs,
        metric_labels: set_labels
            .into_iter()
            .map(|(k, v)| (k.to_string(), v.to_string()))
            .collect(),
    })))
}

fn remove_event(addrs: Vec<TcpAddress>) -> StreamEvent {
    StreamEvent::Item(Some(PbUpdate::Remove(AddrSet { addrs })))
}

fn drain(rx: UnboundedReceiver<Update>) -> Vec<Update> {
    rx.wait().map(|r| r.unwrap()).collect()
}

const ADDR1: u32 = 0x0a00_0001;
const ADDR2: u32 = 0x0a00_0002;

#[test]
fn s1_first_add_reaches_initial_responder() {
    let (tx1, rx1) = unbounded();
    let mut set: DestinationSet<u8> = DestinationSet::new(
        Responder::new(tx1),
        Some(Remote::ConnectedOrConnecting { rx: 0u8 }),
    );
    let events = vec![
        add_event(vec![weighted(ADDR1, 80, vec![("az", "a")])], vec![("svc", "x")]),
        StreamEvent::NotReady,
    ];
    let needs = set.poll_dst(&events);
    assert!(!needs);
    drop(set);
    let got = drain(rx1);
    assert_eq!(got.len(), 1);
    match &got[0] {
        Update::Add(sa, meta) => {
            assert_eq!(*sa, SocketAddress::new_v4(ADDR1, 80));
            assert_eq!(
                meta.label_pairs(),
                vec![
                    ("az".to_string(), "a".to_string()),
                    ("svc".to_string(), "x".to_string())
                ]
            );
            assert_eq!(meta.weight(), 0);
            assert!(!meta.has_identity());
        }
        _ => panic!("expected Add"),
    }
}

#[test]
fn s2_late_responder_is_caught_up_and_first_hears_nothing() {
    let (tx1, rx1) = unbounded();
    let (tx2, rx2) = unbounded();
    let mut set: DestinationSet<u8> = DestinationSet::new(
        Responder::new(tx1),
        Some(Remote::ConnectedOrConnecting { rx: 0u8 }),
    );
    let events = vec![
        add_event(vec![weighted(ADDR1, 80, vec![("az", "a")])], vec![("svc", "x")]),
        StreamEvent::NotReady,
    ];
    set.poll_dst(&events);
    set.add_responder(Responder::new(tx2));
    drop(set);
    let got1 = drain(rx1);
    let got2 = drain(rx2);
    assert_eq!(got1.len(), 1, "first responder hears nothing new");
    assert_eq!(got2.len(), 1, "late responder is caught up");
    match &got2[0] {
        Update::Add(sa, _) => assert_eq!(*sa, SocketAddress::new_v4(ADDR1, 80)),
        _ => panic!("expected Add"),
    }
}

#[test]
fn s3_remove_reaches_both_responders() {
    let (tx1, rx1) = unbounded();
    let (tx2, rx2) = unbounded();
    let mut set: DestinationSet<u8> = DestinationSet::new(
        Responder::new(tx1),
        Some(Remote::ConnectedOrConnecting { rx: 0u8 }),
    );
    set.poll_dst(&vec![
        add_event(vec![weighted(ADDR1, 80, vec![("az", "a")])], vec![("svc", "x")]),
        StreamEvent::NotReady,
    ]);
    set.add_responder(Responder::new(tx2));
    set.poll_dst(&vec![remove_event(vec![tcp_v4(ADDR1, 80)]), StreamEvent::NotReady]);
    drop(set);
    let got1 = drain(rx1);
    let got2 = drain(rx2);
    assert_eq!(got1.len(), 2);
    assert_eq!(got2.len(), 2);
    for got in [&got1, &got2] {
        match &got[1] {
            Update::Remove(sa) => assert_eq!(*sa, SocketAddress::new_v4(ADDR1, 80)),
            _ => panic!("expected Remove"),
        }
    }
}

#[test]
fn s4_reconnect_resets_cleanly_without_spurious_churn() {
    let (tx1, rx1) = unbounded();
    let (tx2, rx2) = unbounded();
    let mut set: DestinationSet<u8> = DestinationSet::new(
        Responder::new(tx1),
        Some(Remote::ConnectedOrConnecting { rx: 0u8 }),
    );
    set.poll_dst(&vec![
        add_event(vec![weighted(ADDR1, 80, vec![("az", "a")])], vec![("svc", "x")]),
        StreamEvent::NotReady,
    ]);
    set.add_responder(Responder::new(tx2));
    set.poll_dst(&vec![remove_event(vec![tcp_v4(ADDR1, 80)]), StreamEvent::NotReady]);
    let needs = set.poll_dst(&vec![StreamEvent::EndOfStream]);
    assert!(needs, "end of stream requests a reconnect");
    set.reconnect(Some(Remote::ConnectedOrConnecting { rx: 1u8 }));
    set.poll_dst(&vec![
        add_event(vec![weighted(ADDR2, 80, vec![])], vec![]),
        StreamEvent::NotReady,
    ]);
    drop(set);
    let got1 = drain(rx1);
    let got2 = drain(rx2);
    for got in [&got1, &got2] {
        // Add(ADDR1), Remove(ADDR1), then only Add(ADDR2): ADDR1 was already
        // gone, so the armed reset synthesizes no extra removal.
        assert_eq!(got.len(), 3);
        match &got[2] {
            Update::Add(sa, _) => assert_eq!(*sa, SocketAddress::new_v4(ADDR2, 80)),
            _ => panic!("expected Add of the new snapshot"),
        }
    }
}

#[test]
fn s5_invalid_argument_drops_the_query_for_good() {
    let (tx1, rx1) = unbounded();
    let (tx2, rx2) = unbounded();
    let mut set: DestinationSet<u8> = DestinationSet::new(
        Responder::new(tx1),
        Some(Remote::ConnectedOrConnecting { rx: 0u8 }),
    );
    set.add_responder(Responder::new(tx2));
    let needs = set.poll_dst(&vec![StreamEvent::Failed(ErrorKind::InvalidArgument)]);
    assert!(!needs, "no reconnect is scheduled");
    assert!(!set.endpoints_known());
    // The query is dropped; a later poll re-asserts no-endpoints and still
    // schedules no reconnect.
    let needs_again = set.poll_dst(&vec![]);
    assert!(!needs_again);
    drop(set);
    let got1 = drain(rx1);
    let got2 = drain(rx2);
    for got in [&got1, &got2] {
        assert_eq!(got.len(), 2);
        assert!(got.iter().all(|u| matches!(u, Update::NoEndpoints)));
    }
}

#[test]
fn other_errors_request_reconnect() {
    let (tx1, rx1) = unbounded();
    let mut set: DestinationSet<u8> = DestinationSet::new(
        Responder::new(tx1),
        Some(Remote::ConnectedOrConnecting { rx: 0u8 }),
    );
    let needs = set.poll_dst(&vec![StreamEvent::Failed(ErrorKind::Other)]);
    assert!(needs);
    drop(set);
    assert_eq!(drain(rx1).len(), 0);
}

#[test]
fn p6_unknown_vs_no() {
    let (tx1, rx1) = unbounded();
    let (tx2, rx2) = unbounded();
    // Attached while Unknown: nothing arrives on attach.
    let mut set: DestinationSet<u8> = DestinationSet::new(
        Responder::new(tx1),
        Some(Remote::ConnectedOrConnecting { rx: 0u8 }),
    );
    // Known-empty: an attach still sends no Add.
    set.poll_dst(&vec![
        StreamEvent::Item(Some(PbUpdate::NoEndpoints(true))),
        StreamEvent::NotReady,
    ]);
    assert!(set.endpoints_known());
    set.add_responder(Responder::new(tx2));
    // A later no-endpoints with exists=false moves the set to No.
    set.poll_dst(&vec![
        StreamEvent::Item(Some(PbUpdate::NoEndpoints(false))),
        StreamEvent::NotReady,
    ]);
    assert!(!set.endpoints_known());
    drop(set);
    let got1 = drain(rx1);
    let got2 = drain(rx2);
    assert!(got1.iter().all(|u| matches!(u, Update::NoEndpoints)));
    assert_eq!(got1.len(), 2);
    // The late responder saw no Add either, only the second no-endpoints.
    assert_eq!(got2.len(), 1);
    assert!(matches!(got2[0], Update::NoEndpoints));
}

#[test]
fn retain_active_drops_dead_consumers() {
    let (tx1, _) = unbounded();
    let (tx2, rx2) = unbounded();
    let mut set: DestinationSet<u8> = DestinationSet::new(Responder::new(tx1), None);
    set.add_responder(Responder::new(tx2));
    assert!(set.is_active());
    set.retain_active();
    assert!(set.is_active(), "the consumer with a live receiver stays");
    drop(rx2);
    set.retain_active();
    assert!(!set.is_active(), "with every receiver gone the set is idle");
}

#[test]
fn dead_consumer_is_not_attached_during_catch_up() {
    let (tx1, _rx1) = unbounded();
    let mut set: DestinationSet<u8> = DestinationSet::new(
        Responder::new(tx1),
        Some(Remote::ConnectedOrConnecting { rx: 0u8 }),
    );
    set.poll_dst(&vec![
        add_event(vec![weighted(ADDR1, 80, vec![])], vec![]),
        StreamEvent::NotReady,
    ]);
    let (tx2, rx2) = unbounded();
    drop(rx2);
    set.add_responder(Responder::new(tx2));
    // The catch-up send fails, so the dead consumer is discarded instead
    // of joining the registry.
    assert_eq!(set.responders.len(), 1);
}
