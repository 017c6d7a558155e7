use destination::meta::{Name, ProtocolHint};
use destination::net::{IpValue, SocketAddress};
use destination::wire::{pb_to_addr_meta, pb_to_id, pb_to_sock_addr, DnsLikeIdentity,
    IdentityStrategy, IpAddress, ProtocolHintMsg, TcpAddress, TlsIdentity, WeightedAddr,
    WeightedAddrSet, WireIp, WireProtocol};

fn labels(pairs: Vec<(&str, &str)>) -> Vec<(String, String)> {
    pairs.into_iter().map(|(k, v)| (k.to_string(), v.to_string())).collect()
}

#[test]
fn ipv4_address_decodes() {
    let pb = TcpAddress { ip: Some(IpAddress { ip: Some(WireIp::Ipv4(0x7f000001)) }), port: 8080 };
    assert_eq!(pb_to_sock_addr(&pb), Some(SocketAddress::new_v4(0x7f000001, 8080)));
}

#[test]
fn ipv6_address_keeps_its_halves() {
    let pb = TcpAddress {
        ip: Some(IpAddress {
            ip: Some(WireIp::Ipv6 { first: 0x2001_0db8_0000_0000, last: 0x0000_0000_0000_0001 }),
        }),
        port: 443,
    };
    let got = pb_to_sock_addr(&pb).unwrap();
    assert_eq!(got.ip, IpValue::V6(0x2001_0db8_0000_0000, 0x0000_0000_0000_0001));
    assert_eq!(got.port, 443);
}

#[test]
fn wide_wire_port_narrows_to_sixteen_bits() {
    let pb = TcpAddress { ip: Some(IpAddress { ip: Some(WireIp::Ipv4(1)) }), port: 65616 };
    assert_eq!(pb_to_sock_addr(&pb).unwrap().port, 80);
}

#[test]
fn missing_ip_layers_drop_the_entry() {
    assert_eq!(pb_to_sock_addr(&TcpAddress { ip: None, port: 80 }), None);
    assert_eq!(pb_to_sock_addr(&TcpAddress { ip: Some(IpAddress { ip: None }), port: 80 }), None);
}

#[test]
fn p3_labels_sort_lexicographically_and_endpoint_wins_ties() {
    let pb = WeightedAddr {
        addr: Some(TcpAddress { ip: Some(IpAddress { ip: Some(WireIp::Ipv4(1)) }), port: 80 }),
        weight: 7,
        metric_labels: labels(vec![("zone", "z1"), ("az", "endpoint-wins")]),
        protocol_hint: None,
        tls_identity: None,
    };
    let set_labels = labels(vec![("svc", "x"), ("az", "set-loses")]);
    let (_, meta) = pb_to_addr_meta(&pb, &set_labels).unwrap();
    assert_eq!(
        meta.label_pairs(),
        labels(vec![("az", "endpoint-wins"), ("svc", "x"), ("zone", "z1")])
    );
    assert_eq!(meta.weight(), 7);
}

#[test]
fn protocol_hint_maps_h2_and_tolerates_absence() {
    let mk = |hint: Option<ProtocolHintMsg>| WeightedAddr {
        addr: Some(TcpAddress { ip: Some(IpAddress { ip: Some(WireIp::Ipv4(1)) }), port: 80 }),
        weight: 0,
        metric_labels: vec![],
        protocol_hint: hint,
        tls_identity: None,
    };
    let (_, m) = pb_to_addr_meta(
        &mk(Some(ProtocolHintMsg { protocol: Some(WireProtocol::H2) })),
        &vec![],
    )
    .unwrap();
    assert_eq!(m.protocol_hint(), ProtocolHint::Http2);
    let (_, m) = pb_to_addr_meta(&mk(Some(ProtocolHintMsg { protocol: None })), &vec![]).unwrap();
    assert_eq!(m.protocol_hint(), ProtocolHint::Unknown);
    let (_, m) = pb_to_addr_meta(&mk(None), &vec![]).unwrap();
    assert_eq!(m.protocol_hint(), ProtocolHint::Unknown);
}

#[test]
fn invalid_identity_is_dropped_but_endpoint_kept() {
    let pb = WeightedAddr {
        addr: Some(TcpAddress { ip: Some(IpAddress { ip: Some(WireIp::Ipv4(1)) }), port: 80 }),
        weight: 0,
        metric_labels: vec![],
        protocol_hint: None,
        tls_identity: Some(TlsIdentity {
            strategy: Some(IdentityStrategy::DnsLikeIdentity(DnsLikeIdentity {
                name: "Not..Valid".to_string(),
            })),
        }),
    };
    let (_, m) = pb_to_addr_meta(&pb, &vec![]).unwrap();
    assert!(!m.has_identity());
}

#[test]
fn valid_identity_is_attached() {
    let id = TlsIdentity {
        strategy: Some(IdentityStrategy::DnsLikeIdentity(DnsLikeIdentity {
            name: "web.emojivoto.svc.cluster.local".to_string(),
        })),
    };
    let got = pb_to_id(&id).unwrap();
    assert_eq!(got.to_text(), "web.emojivoto.svc.cluster.local");
}

#[test]
fn hostname_validation_rules() {
    assert!(Name::from_hostname("example.com").is_some());
    assert!(Name::from_hostname("a").is_some());
    assert!(Name::from_hostname("").is_none());
    assert!(Name::from_hostname(".leading").is_none());
    assert!(Name::from_hostname("trailing.").is_none());
    assert!(Name::from_hostname("dou..ble").is_none());
    assert!(Name::from_hostname("Upper.Case").is_none());
    assert!(Name::from_hostname("spa ce").is_none());
    let long = "a".repeat(254);
    assert!(Name::from_hostname(&long).is_none());
}

#[test]
fn entries_without_addresses_vanish_from_a_batch() {
    let aset = WeightedAddrSet {
        addrs: vec![
            WeightedAddr {
                addr: None,
                weight: 0,
                metric_labels: vec![],
                protocol_hint: None,
                tls_identity: None,
            },
            WeightedAddr {
                addr: Some(TcpAddress {
                    ip: Some(IpAddress { ip: Some(WireIp::Ipv4(9)) }),
                    port: 80,
                }),
                weight: 0,
                metric_labels: vec![],
                protocol_hint: None,
                tls_identity: None,
            },
        ],
        metric_labels: vec![],
    };
    let decoded = destination::wire::decode_weighted_set(&aset);
    assert_eq!(decoded.len(), 1);
    assert_eq!(decoded[0].0, SocketAddress::new_v4(9, 80));
}
