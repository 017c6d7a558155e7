use crate::labelmap::label_map_from_sorted;
use crate::labels::{lemma_merge_props, lview, spec_merge, str_bytes};
use crate::meta::{is_valid_hostname, view_wf, Metadata, MetadataView, Name, ProtocolHint};
use crate::net::{IpValue, SocketAddress};
use vstd::prelude::*;

verus! {

/// Wire form of an IP: a 32-bit IPv4 value, or an IPv6 as two 64-bit halves
/// (high, low) in network byte order.
pub enum WireIp {
    Ipv4(u32),
    Ipv6 { first: u64, last: u64 },
}

/// Wire envelope around an IP: the variant itself is optional.
pub struct IpAddress {
    pub ip: Option<WireIp>,
}

/// Wire form of a socket address: optional IP plus a 32-bit port field that
/// is narrowed to 16 bits.
pub struct TcpAddress {
    pub ip: Option<IpAddress>,
    pub port: u32,
}

/// Wire protocol hint.
pub enum WireProtocol {
    H2,
}

pub struct ProtocolHintMsg {
    pub protocol: Option<WireProtocol>,
}

pub struct DnsLikeIdentity {
    pub name: String,
}

pub enum IdentityStrategy {
    DnsLikeIdentity(DnsLikeIdentity),
}

pub struct TlsIdentity {
    pub strategy: Option<IdentityStrategy>,
}

/// One weighted endpoint as the wire carries it.
pub struct WeightedAddr {
    pub addr: Option<TcpAddress>,
    pub weight: u32,
    pub metric_labels: Vec<(String, String)>,
    pub protocol_hint: Option<ProtocolHintMsg>,
    pub tls_identity: Option<TlsIdentity>,
}

/// A batch of added endpoints with their set-level labels.
pub struct WeightedAddrSet {
    pub addrs: Vec<WeightedAddr>,
    pub metric_labels: Vec<(String, String)>,
}

/// A batch of removed addresses.
pub struct AddrSet {
    pub addrs: Vec<TcpAddress>,
}

/// The one-of carried by a stream message.
pub enum PbUpdate {
    Add(WeightedAddrSet),
    Remove(AddrSet),
    NoEndpoints(bool),
}

/// The 16-bit port a 32-bit wire port narrows to.
pub open spec fn spec_port(p: u32) -> u16 {
    (p % 0x10000) as u16
}

/// What a wire address decodes to: nothing when either optional IP layer is
/// missing.
pub open spec fn spec_sock_addr(pb: TcpAddress) -> Option<SocketAddress> {
    match pb.ip {
        Some(ipa) => match ipa.ip {
            Some(WireIp::Ipv4(octets)) => Some(
                SocketAddress { ip: IpValue::V4(octets), port: spec_port(pb.port) },
            ),
            Some(WireIp::Ipv6 { first, last }) => Some(
                SocketAddress { ip: IpValue::V6(first, last), port: spec_port(pb.port) },
            ),
            None => None,
        },
        None => None,
    }
}

/// Decode a wire address; entries with no IP are dropped.
pub fn pb_to_sock_addr(pb: &TcpAddress) -> (r: Option<SocketAddress>)
    ensures
        r == spec_sock_addr(*pb),
{
    match &pb.ip {
        Some(ipa) => match &ipa.ip {
            Some(WireIp::Ipv4(octets)) => {
                let port = (pb.port % 0x10000) as u16;
                Some(SocketAddress { ip: IpValue::V4(*octets), port })
            },
            Some(WireIp::Ipv6 { first, last }) => {
                let port = (pb.port % 0x10000) as u16;
                Some(SocketAddress { ip: IpValue::V6(*first, *last), port })
            },
            None => None,
        },
        None => None,
    }
}

/// The identity a wire TLS message yields: the name's bytes when the
/// strategy is a DNS-like identity and the name is valid.
pub open spec fn spec_id(t: TlsIdentity) -> Option<Seq<u8>> {
    match t.strategy {
        Some(IdentityStrategy::DnsLikeIdentity(i)) => if is_valid_hostname(str_bytes(i.name@)) {
            Some(str_bytes(i.name@))
        } else {
            None
        },
        None => None,
    }
}

/// Decode a wire TLS identity; an invalid name drops the identity (the
/// endpoint itself is kept by the caller).
pub fn pb_to_id(pb: &TlsIdentity) -> (r: Option<Name>)
    ensures
        match spec_id(*pb) {
            Some(b) => r is Some && r->0.id_bytes() == b && r->0.wf(),
            None => r is None,
        },
{
    match &pb.strategy {
        Some(IdentityStrategy::DnsLikeIdentity(i)) => Name::from_hostname(i.name.as_str()),
        None => None,
    }
}

/// The protocol hint a wire hint yields: unknown variants never fail.
pub open spec fn spec_hint(h: Option<ProtocolHintMsg>) -> ProtocolHint {
    match h {
        Some(hm) => match hm.protocol {
            Some(WireProtocol::H2) => ProtocolHint::Http2,
            None => ProtocolHint::Unknown,
        },
        None => ProtocolHint::Unknown,
    }
}

/// The metadata a wire endpoint carries: set-level labels merged with the
/// endpoint's own (the endpoint's win), key-sorted; hint, identity, weight.
pub open spec fn spec_meta(pb: WeightedAddr, set_labels: Seq<(String, String)>) -> MetadataView {
    MetadataView {
        labels: spec_merge(
            spec_merge(Seq::<(Seq<u8>, Seq<u8>)>::empty(), lview(set_labels)),
            lview(pb.metric_labels@),
        ),
        hint: spec_hint(pb.protocol_hint),
        identity: match pb.tls_identity {
            Some(t) => spec_id(t),
            None => None,
        },
        weight: pb.weight,
    }
}

/// What one wire endpoint decodes to, or nothing when its address is
/// missing or malformed.
pub open spec fn spec_addr_meta(pb: WeightedAddr, set_labels: Seq<(String, String)>) -> Option<
    (SocketAddress, MetadataView),
> {
    match pb.addr {
        Some(a) => match spec_sock_addr(a) {
            Some(sa) => Some((sa, spec_meta(pb, set_labels))),
            None => None,
        },
        None => None,
    }
}

/// The merged label list is key-sorted, so the metadata built from it is
/// well-formed.
pub proof fn lemma_meta_wf(pb: WeightedAddr, set_labels: Seq<(String, String)>)
    ensures
        view_wf(spec_meta(pb, set_labels)) == (match pb.tls_identity {
            Some(t) => spec_id(t) is Some ==> is_valid_hostname(spec_id(t)->0),
            None => true,
        }),
{
    lemma_merge_props(Seq::<(Seq<u8>, Seq<u8>)>::empty(), lview(set_labels));
    lemma_merge_props(
        spec_merge(Seq::<(Seq<u8>, Seq<u8>)>::empty(), lview(set_labels)),
        lview(pb.metric_labels@),
    );
}

/// Decode one wire endpoint against the batch's set-level labels.
pub fn pb_to_addr_meta(pb: &WeightedAddr, set_labels: &Vec<(String, String)>) -> (r: Option<
    (SocketAddress, Metadata),
>)
    ensures
        match spec_addr_meta(*pb, set_labels@) {
            Some(e) => r is Some && ({
                let got = r->0;
                got.0 == e.0 && got.1@ == e.1 && got.1.wf()
            }),
            None => r is None,
        },
{
    let sa = match &pb.addr {
        Some(a) => match pb_to_sock_addr(a) {
            Some(sa) => sa,
            None => {
                return None;
            },
        },
        None => {
            return None;
        },
    };
    let mut merged: Vec<(String, String)> = Vec::new();
    proof {
        assert(lview(merged@) =~= Seq::<(Seq<u8>, Seq<u8>)>::empty());
    }
    crate::labels::merge_into(&mut merged, set_labels);
    crate::labels::merge_into(&mut merged, &pb.metric_labels);
    let labels = label_map_from_sorted(&merged);
    let hint = match &pb.protocol_hint {
        Some(hm) => match &hm.protocol {
            Some(WireProtocol::H2) => ProtocolHint::Http2,
            None => ProtocolHint::Unknown,
        },
        None => ProtocolHint::Unknown,
    };
    let tls_id = match &pb.tls_identity {
        Some(t) => pb_to_id(t),
        None => None,
    };
    let meta = Metadata::new(labels, hint, tls_id, pb.weight);
    proof {
        lemma_meta_wf(*pb, set_labels@);
        assert(meta@ == spec_meta(*pb, set_labels@));
    }
    Some((sa, meta))
}

/// What a batch of wire endpoints decodes to, invalid entries dropped,
/// order kept.
pub open spec fn spec_decode_set(
    addrs: Seq<WeightedAddr>,
    set_labels: Seq<(String, String)>,
) -> Seq<(SocketAddress, MetadataView)>
    decreases addrs.len(),
{
    if addrs.len() == 0 {
        Seq::<(SocketAddress, MetadataView)>::empty()
    } else {
        spec_decode_set(addrs.drop_last(), set_labels) + (match spec_addr_meta(
            addrs.last(),
            set_labels,
        ) {
            Some(e) => seq![e],
            None => Seq::<(SocketAddress, MetadataView)>::empty(),
        })
    }
}

/// What a batch of wire removals decodes to, invalid entries dropped.
pub open spec fn spec_decode_addrs(addrs: Seq<TcpAddress>) -> Seq<SocketAddress>
    decreases addrs.len(),
{
    if addrs.len() == 0 {
        Seq::<SocketAddress>::empty()
    } else {
        spec_decode_addrs(addrs.drop_last()) + (match spec_sock_addr(addrs.last()) {
            Some(sa) => seq![sa],
            None => Seq::<SocketAddress>::empty(),
        })
    }
}

/// Decode an add-batch: each valid endpoint, in wire order, with merged
/// labels; invalid entries are dropped silently.
#[verifier::loop_isolation(false)]
pub fn decode_weighted_set(aset: &WeightedAddrSet) -> (r: Vec<(SocketAddress, Metadata)>)
    ensures
        crate::cache::eview(r@) == spec_decode_set(aset.addrs@, aset.metric_labels@),
        forall|i: int|
            0 <= i < r@.len() ==> view_wf(#[trigger] crate::cache::eview(r@)[i].1),
    {
    let mut r: Vec<(SocketAddress, Metadata)> = Vec::new();
    proof {
        assert(crate::cache::eview(r@) =~= spec_decode_set(
            aset.addrs@.subrange(0, 0),
            aset.metric_labels@,
        ));
    }
    let mut i: usize = 0;
    while i < aset.addrs.len()
        invariant
            i <= aset.addrs.len(),
            crate::cache::eview(r@) == spec_decode_set(
                aset.addrs@.subrange(0, i as int),
                aset.metric_labels@,
            ),
            forall|x: int|
                0 <= x < r@.len() ==> view_wf(#[trigger] crate::cache::eview(r@)[x].1),
        decreases aset.addrs.len() - i,
    {
        let pb: &WeightedAddr = vstd::slice::slice_index_get(aset.addrs.as_slice(), i);
        let ghost rprev = r@;
        match pb_to_addr_meta(pb, &aset.metric_labels) {
            Some(e) => {
                let ghost ev = (e.0, e.1@);
                r.push(e);
                proof {
                    assert(crate::cache::eview(r@) =~= crate::cache::eview(rprev).push(ev));
                }
            },
            None => {},
        }
        proof {
            let ghost pre = aset.addrs@.subrange(0, i + 1);
            assert(pre.drop_last() =~= aset.addrs@.subrange(0, i as int));
            assert(pre.last() == aset.addrs@[i as int]);
            assert(crate::cache::eview(r@) =~= spec_decode_set(pre, aset.metric_labels@));
        }
        i += 1;
    }
    proof {
        assert(aset.addrs@.subrange(0, aset.addrs@.len() as int) =~= aset.addrs@);
    }
    r
}

/// Decode a remove-batch: each valid address, in wire order.
#[verifier::loop_isolation(false)]
pub fn decode_addr_set(rset: &AddrSet) -> (r: Vec<SocketAddress>)
    ensures
        r@ == spec_decode_addrs(rset.addrs@),
{
    let mut r: Vec<SocketAddress> = Vec::new();
    proof {
        assert(r@ =~= spec_decode_addrs(rset.addrs@.subrange(0, 0)));
    }
    let mut i: usize = 0;
    while i < rset.addrs.len()
        invariant
            i <= rset.addrs.len(),
            r@ == spec_decode_addrs(rset.addrs@.subrange(0, i as int)),
        decreases rset.addrs.len() - i,
    {
        let pb: &TcpAddress = vstd::slice::slice_index_get(rset.addrs.as_slice(), i);
        match pb_to_sock_addr(pb) {
            Some(sa) => {
                r.push(sa);
            },
            None => {},
        }
        proof {
            let ghost pre = rset.addrs@.subrange(0, i + 1);
            assert(pre.drop_last() =~= rset.addrs@.subrange(0, i as int));
            assert(pre.last() == rset.addrs@[i as int]);
            assert(r@ =~= spec_decode_addrs(pre));
        }
        i += 1;
    }
    proof {
        assert(rset.addrs@.subrange(0, rset.addrs@.len() as int) =~= rset.addrs@);
    }
    r
}

} // verus!
