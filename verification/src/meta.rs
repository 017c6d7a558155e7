use crate::labelmap::{label_entries, label_map_clone, label_map_eq, label_map_pairs};
use crate::labels::{lemma_str_bytes_injective, lview, sorted_unique, str_bytes};
use indexmap::IndexMap;
use vstd::prelude::*;

verus! {

/// Hint from the control plane about the protocol an endpoint speaks.
#[derive(Clone, Copy, PartialEq, Eq, Structural, Debug)]
pub enum ProtocolHint {
    Unknown,
    Http2,
}

/// A byte is allowed in a DNS-like name: a lowercase ASCII letter, a digit,
/// `-` or `.` (45 is `-`, 46 is `.`, 48-57 are the digits, 97-122 the
/// lowercase letters).
pub open spec fn allowed_name_byte(b: u8) -> bool {
    (97 <= b <= 122) || (48 <= b <= 57) || b == 45 || b == 46
}

/// A DNS-like identity name: non-empty, at most 253 bytes, made of allowed
/// bytes, with no leading, trailing or doubled dot.
pub open spec fn is_valid_hostname(b: Seq<u8>) -> bool {
    &&& 1 <= b.len() <= 253
    &&& forall|i: int| 0 <= i < b.len() ==> allowed_name_byte(#[trigger] b[i])
    &&& b[0] != 46
    &&& b[b.len() - 1] != 46
    &&& forall|i: int| 0 <= i < b.len() - 1 ==> !((#[trigger] b[i]) == 46 && b[i + 1] == 46)
}

/// A validated TLS identity: a DNS-like name.
pub struct Name {
    name: String,
}

impl Name {
    /// The identity as specification data: the UTF-8 bytes of its name.
    pub closed spec fn id_bytes(&self) -> Seq<u8> {
        str_bytes(self.name@)
    }

    pub open spec fn wf(&self) -> bool {
        is_valid_hostname(self.id_bytes())
    }

    /// Parse a DNS-like identity from a wire name; rejected names yield
    /// `None` and the endpoint keeps no identity.
    #[verifier::loop_isolation(false)]
    pub fn from_hostname(s: &str) -> (r: Option<Name>)
        ensures
            r is Some <==> is_valid_hostname(str_bytes(s@)),
            r is Some ==> r->0.id_bytes() == str_bytes(s@) && r->0.wf(),
    {
        let b = s.as_bytes();
        let n = b.len();
        if n < 1 || n > 253 {
            return None;
        }
        let mut i: usize = 0;
        while i < n
            invariant
                i <= n,
                forall|j: int| 0 <= j < i ==> allowed_name_byte(#[trigger] b@[j]),
                forall|j: int| 0 <= j < i - 1 ==> !((#[trigger] b@[j]) == 46 && b@[j + 1] == 46),
                i > 0 ==> b@[0] != 46,
            decreases n - i,
        {
            let x = *vstd::slice::slice_index_get(b, i);
            let ok = (97 <= x && x <= 122) || (48 <= x && x <= 57) || x == 45 || x == 46;
            if !ok {
                return None;
            }
            if x == 46 {
                if i == 0 {
                    return None;
                }
                let prev = *vstd::slice::slice_index_get(b, i - 1);
                if prev == 46 {
                    return None;
                }
            }
            i += 1;
        }
        let last = *vstd::slice::slice_index_get(b, n - 1);
        if last == 46 {
            return None;
        }
        Some(Name { name: s.to_owned() })
    }

    /// The name as an owned string, for display at the edges.
    pub fn to_text(&self) -> (r: String)
        ensures
            str_bytes(r@) == self.id_bytes(),
    {
        self.name.clone()
    }

    /// Copy of the identity.
    pub fn duplicate(&self) -> (r: Name)
        ensures
            r == *self,
    {
        Name { name: self.name.clone() }
    }

    /// Identity equality: the two names are the same string.
    pub fn same_as(&self, other: &Name) -> (r: bool)
        ensures
            r == (self.id_bytes() == other.id_bytes()),
    {
        proof {
            lemma_str_bytes_injective(self.name@, other.name@);
        }
        self.name.eq(&other.name)
    }
}

/// Per-endpoint metadata: the sorted label map, a protocol hint, an
/// optional TLS identity and the endpoint's weight.
pub struct Metadata {
    labels: IndexMap<String, String>,
    protocol_hint: ProtocolHint,
    tls_identity: Option<Name>,
    weight: u32,
}

/// Metadata as specification data.
pub struct MetadataView {
    pub labels: Seq<(Seq<u8>, Seq<u8>)>,
    pub hint: ProtocolHint,
    pub identity: Option<Seq<u8>>,
    pub weight: u32,
}

impl View for Metadata {
    type V = MetadataView;

    closed spec fn view(&self) -> MetadataView {
        MetadataView {
            labels: label_entries(self.labels),
            hint: self.protocol_hint,
            identity: match self.tls_identity {
                Some(n) => Some(n.id_bytes()),
                None => None,
            },
            weight: self.weight,
        }
    }
}

/// The labels are key-sorted and the identity, if any, is a valid name.
pub open spec fn view_wf(m: MetadataView) -> bool {
    &&& sorted_unique(m.labels)
    &&& match m.identity {
        Some(b) => is_valid_hostname(b),
        None => true,
    }
}

impl Metadata {
    /// The labels are key-sorted and the identity, if any, is a valid name.
    pub open spec fn wf(&self) -> bool {
        view_wf(self@)
    }

    pub fn new(
        labels: IndexMap<String, String>,
        protocol_hint: ProtocolHint,
        tls_identity: Option<Name>,
        weight: u32,
    ) -> (r: Metadata)
        ensures
            r@.labels == label_entries(labels),
            r@.hint == protocol_hint,
            r@.identity == match tls_identity {
                Some(n) => Some(n.id_bytes()),
                None => None,
            },
            r@.weight == weight,
            sorted_unique(label_entries(labels)) && (tls_identity is Some
                ==> tls_identity->0.wf()) ==> r.wf(),
    {
        Metadata { labels, protocol_hint, tls_identity, weight }
    }

    /// Metadata with no labels, no hint, no identity and zero weight.
    pub fn no_endpoint_meta() -> (r: Metadata)
        ensures
            r@.labels == Seq::<(Seq<u8>, Seq<u8>)>::empty(),
            r@.hint == ProtocolHint::Unknown,
            r@.identity is None,
            r@.weight == 0,
            r.wf(),
    {
        Metadata {
            labels: crate::labelmap::label_map_new(),
            protocol_hint: ProtocolHint::Unknown,
            tls_identity: None,
            weight: 0,
        }
    }

    pub fn weight(&self) -> (r: u32)
        ensures
            r == self@.weight,
    {
        self.weight
    }

    pub fn protocol_hint(&self) -> (r: ProtocolHint)
        ensures
            r == self@.hint,
    {
        self.protocol_hint
    }

    pub fn has_identity(&self) -> (r: bool)
        ensures
            r == (self@.identity is Some),
    {
        self.tls_identity.is_some()
    }

    /// The labels as an owned pair list, in the map's order.
    pub fn label_pairs(&self) -> (r: Vec<(String, String)>)
        ensures
            lview(r@) == self@.labels,
    {
        label_map_pairs(&self.labels)
    }

    /// Whole-value equality, the equality a cache modification is judged by.
    pub fn same_as(&self, other: &Metadata) -> (r: bool)
        requires
            self.wf(),
            other.wf(),
        ensures
            r == (self@ == other@),
    {
        let labels_eq = label_map_eq(&self.labels, &other.labels);
        let hint_eq = self.protocol_hint == other.protocol_hint;
        let id_eq = match (&self.tls_identity, &other.tls_identity) {
            (None, None) => true,
            (Some(a), Some(b)) => a.same_as(b),
            _ => false,
        };
        let weight_eq = self.weight == other.weight;
        labels_eq && hint_eq && id_eq && weight_eq
    }

    /// Structure-preserving copy: the copy and the source have equal views.
    pub fn duplicate(&self) -> (r: Metadata)
        ensures
            r@ == self@,
            r.wf() == self.wf(),
    {
        let labels = label_map_clone(&self.labels);
        let tls_identity = match &self.tls_identity {
            Some(n) => Some(n.duplicate()),
            None => None,
        };
        Metadata { labels, protocol_hint: self.protocol_hint, tls_identity, weight: self.weight }
    }
}

} // verus!
