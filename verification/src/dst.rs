use crate::cache::{cview, removal_events, spec_remove, spec_union, Cache, CacheChange,
    ChangeView};
use crate::existence::Exists;
use crate::meta::{Metadata, MetadataView};
use crate::net::SocketAddress;
use crate::responder::{Responder, Update, UpdateView};
use crate::wire::{decode_addr_set, decode_weighted_set, spec_decode_addrs, spec_decode_set,
    PbUpdate};
use vstd::prelude::*;

verus! {

/// The stream side of a resolution: an in-flight subscription handle, or
/// the request that the supervisor open a new one. Inert data; transitions
/// are driven by `DestinationSet::poll_dst`.
pub enum Remote<Q> {
    ConnectedOrConnecting { rx: Q },
    NeedsReconnect,
}

/// Why a stream poll stopped or what it yielded, as plain data: one message
/// (whose one-of may be absent), end of stream, not ready, or a failure.
pub enum StreamEvent {
    Item(Option<PbUpdate>),
    EndOfStream,
    NotReady,
    Failed(ErrorKind),
}

/// The two failure classes the control plane distinguishes: a permanent
/// rejection of the authority, or anything transient.
#[derive(Clone, Copy, PartialEq, Eq, Structural, Debug)]
pub enum ErrorKind {
    InvalidArgument,
    Other,
}

/// What is known of the endpoint set, as specification data.
pub enum AddrsView {
    Unknown,
    No,
    Yes { entries: Seq<(SocketAddress, MetadataView)>, reset: bool },
}

/// The contents a mutating message starts from: the cached entries, or
/// nothing when nothing is cached yet or the reset flag will drain first.
pub open spec fn start_entries(a: AddrsView) -> Seq<(SocketAddress, MetadataView)> {
    match a {
        AddrsView::Yes { entries, reset } => if reset {
            Seq::<(SocketAddress, MetadataView)>::empty()
        } else {
            entries
        },
        _ => Seq::<(SocketAddress, MetadataView)>::empty(),
    }
}

/// The revocations an armed reset flag synthesizes before a mutating
/// message applies.
pub open spec fn reset_pre_events(a: AddrsView) -> Seq<ChangeView> {
    match a {
        AddrsView::Yes { entries, reset } => if reset {
            removal_events(entries)
        } else {
            Seq::<ChangeView>::empty()
        },
        _ => Seq::<ChangeView>::empty(),
    }
}

/// The endpoint knowledge one decoded message leaves behind.
pub open spec fn apply_msg(a: AddrsView, u: Option<PbUpdate>) -> AddrsView {
    match u {
        None => a,
        Some(PbUpdate::Add(aset)) => AddrsView::Yes {
            entries: spec_union(
                start_entries(a),
                spec_decode_set(aset.addrs@, aset.metric_labels@),
            ).0,
            reset: false,
        },
        Some(PbUpdate::Remove(rset)) => AddrsView::Yes {
            entries: spec_remove(start_entries(a), spec_decode_addrs(rset.addrs@)).0,
            reset: false,
        },
        Some(PbUpdate::NoEndpoints(present)) => if present {
            AddrsView::Yes {
                entries: Seq::<(SocketAddress, MetadataView)>::empty(),
                reset: false,
            }
        } else {
            AddrsView::No
        },
    }
}

/// The consumer-facing update one cache change maps to: an insertion or a
/// metadata change both arrive as `Add` (re-add means replace), a removal
/// as `Remove`.
pub open spec fn spec_update_of(c: ChangeView) -> UpdateView {
    match c {
        ChangeView::Insertion { key, value } => UpdateView::Add(key, value),
        ChangeView::Modification { key, new_value } => UpdateView::Add(key, new_value),
        ChangeView::Removal { key } => UpdateView::Remove(key),
    }
}

pub open spec fn updates_of(ch: Seq<ChangeView>) -> Seq<UpdateView> {
    ch.map_values(|c: ChangeView| spec_update_of(c))
}

/// Map one cache change to the update consumers receive for it.
pub fn change_to_update(change: CacheChange) -> (u: Update)
    ensures
        u@ == spec_update_of(change@),
{
    match change {
        CacheChange::Insertion { key, value } => Update::Add(key, value),
        CacheChange::Removal { key } => Update::Remove(key),
        CacheChange::Modification { key, new_value } => Update::Add(key, new_value),
    }
}

/// Everything consumers are sent for a no-endpoints signal: the signal
/// itself, then one revocation per cached entry, in cache order.
pub open spec fn no_endpoints_sent(a: AddrsView) -> Seq<UpdateView> {
    seq![UpdateView::NoEndpoints] + (match a {
        AddrsView::Yes { entries, .. } => updates_of(removal_events(entries)),
        _ => Seq::<UpdateView>::empty(),
    })
}

/// Everything consumers are sent for one decoded message.
pub open spec fn msg_sent(a: AddrsView, u: Option<PbUpdate>) -> Seq<UpdateView> {
    match u {
        None => Seq::<UpdateView>::empty(),
        Some(PbUpdate::Add(aset)) => updates_of(
            reset_pre_events(a) + spec_union(
                start_entries(a),
                spec_decode_set(aset.addrs@, aset.metric_labels@),
            ).1,
        ),
        Some(PbUpdate::Remove(rset)) => updates_of(
            reset_pre_events(a) + spec_remove(start_entries(a), spec_decode_addrs(rset.addrs@)).1,
        ),
        Some(PbUpdate::NoEndpoints(present)) => no_endpoints_sent(a),
    }
}

/// How a drained batch leaves the query.
pub enum QueryFate {
    Connected,
    Reconnect,
    Dropped,
}

/// Fold a drained event batch over the endpoint knowledge: messages apply
/// in order; the first terminal event fixes the query's fate and stops the
/// fold (whatever follows the terminal in the batch is discarded, so a
/// supervisor should end each batch at the first terminal it polls).
pub open spec fn apply_events(a: AddrsView, evs: Seq<StreamEvent>) -> (AddrsView, QueryFate)
    decreases evs.len(),
{
    if evs.len() == 0 {
        (a, QueryFate::Connected)
    } else {
        match evs[0] {
            StreamEvent::Item(u) => apply_events(apply_msg(a, u), evs.drop_first()),
            StreamEvent::EndOfStream => (a, QueryFate::Reconnect),
            StreamEvent::NotReady => (a, QueryFate::Connected),
            StreamEvent::Failed(ErrorKind::InvalidArgument) => (
                AddrsView::No,
                QueryFate::Dropped,
            ),
            StreamEvent::Failed(ErrorKind::Other) => (a, QueryFate::Reconnect),
        }
    }
}

/// Everything consumers are sent while a batch is folded, up to its first
/// terminal event: the per-message sends in order, plus the no-endpoints
/// burst when the control plane permanently rejects the authority.
pub open spec fn events_sent(a: AddrsView, evs: Seq<StreamEvent>) -> Seq<UpdateView>
    decreases evs.len(),
{
    if evs.len() == 0 {
        Seq::<UpdateView>::empty()
    } else {
        match evs[0] {
            StreamEvent::Item(u) => msg_sent(a, u) + events_sent(
                apply_msg(a, u),
                evs.drop_first(),
            ),
            StreamEvent::EndOfStream => Seq::<UpdateView>::empty(),
            StreamEvent::NotReady => Seq::<UpdateView>::empty(),
            StreamEvent::Failed(ErrorKind::InvalidArgument) => no_endpoints_sent(a),
            StreamEvent::Failed(ErrorKind::Other) => Seq::<UpdateView>::empty(),
        }
    }
}

/// A disconnect arms the reset flag on whatever is known.
pub open spec fn arm_reset(a: AddrsView) -> AddrsView {
    match a {
        AddrsView::Yes { entries, reset } => AddrsView::Yes { entries, reset: true },
        _ => a,
    }
}

/// One `Add` per cache entry, in cache order: the catch-up a late consumer
/// receives on attach.
pub open spec fn catchup_updates(entries: Seq<(SocketAddress, MetadataView)>) -> Seq<UpdateView> {
    entries.map_values(|e: (SocketAddress, MetadataView)| UpdateView::Add(e.0, e.1))
}

/// `m` maps each position of `now` to the strictly increasing position in
/// `before` of the responder it came from: same channel, and a history
/// grown by exactly `sent`.
pub open spec fn is_kept_witness(
    m: Seq<int>,
    now: Seq<Responder>,
    before: Seq<Responder>,
    sent: Seq<UpdateView>,
) -> bool {
    &&& m.len() == now.len()
    &&& forall|x: int| 0 <= x < m.len() ==> 0 <= #[trigger] m[x] < before.len()
    &&& forall|x: int| 0 <= x < m.len() ==> (#[trigger] now[x]).chan() == before[m[x]].chan()
    &&& forall|x: int|
        0 <= x < m.len() ==> (#[trigger] now[x]).history() == before[m[x]].history() + sent
    &&& forall|x: int, y: int| 0 <= x < y < m.len() ==> m[x] < m[y]
}

/// The surviving responders are an order-preserving subsequence of those
/// attached before, and each survivor's channel accepted exactly `sent`,
/// in order, on top of what it already held. Which responders survive
/// depends on their consumers, so only the survivors are pinned down.
pub open spec fn delivered(
    now: Seq<Responder>,
    before: Seq<Responder>,
    sent: Seq<UpdateView>,
) -> bool {
    exists|m: Seq<int>| #[trigger] is_kept_witness(m, now, before, sent)
}

/// Pruning without sending: every kept responder was already attached,
/// unchanged, and survivors keep their relative order.
pub open spec fn kept_from(now: Seq<Responder>, before: Seq<Responder>) -> bool {
    delivered(now, before, Seq::<UpdateView>::empty())
}

/// Delivering nothing to an unchanged registry.
proof fn lemma_kept_refl(a: Seq<Responder>)
    ensures
        kept_from(a, a),
{
    let m = Seq::new(a.len(), |x: int| x);
    assert(is_kept_witness(m, a, a, Seq::<UpdateView>::empty())) by {
        assert forall|x: int| 0 <= x < m.len() implies (#[trigger] a[x]).history() == a[m[x]]
            .history() + Seq::<UpdateView>::empty() by {
            assert(a[x].history() + Seq::<UpdateView>::empty() =~= a[x].history());
        }
    }
}

/// Two delivery rounds compose: survivors of both got the earlier sends,
/// then the later ones.
proof fn lemma_delivered_trans(
    a: Seq<Responder>,
    b: Seq<Responder>,
    c: Seq<Responder>,
    s1: Seq<UpdateView>,
    s2: Seq<UpdateView>,
)
    requires
        delivered(a, b, s1),
        delivered(b, c, s2),
    ensures
        delivered(a, c, s2 + s1),
{
    let m1 = choose|m: Seq<int>| #[trigger] is_kept_witness(m, a, b, s1);
    let m2 = choose|m: Seq<int>| #[trigger] is_kept_witness(m, b, c, s2);
    let m3 = Seq::new(a.len(), |x: int| m2[m1[x]]);
    assert(is_kept_witness(m3, a, c, s2 + s1)) by {
        assert forall|x: int| 0 <= x < m3.len() implies (#[trigger] a[x]).history() == c[m3[x]]
            .history() + (s2 + s1) by {
            assert(a[x].history() == b[m1[x]].history() + s1);
            assert(b[m1[x]].history() == c[m2[m1[x]]].history() + s2);
            assert((c[m3[x]].history() + s2) + s1 =~= c[m3[x]].history() + (s2 + s1));
        }
    }
}

/// The state of a single resolution: what is known of its endpoints, the
/// stream side, and the attached consumers.
pub struct DestinationSet<Q> {
    pub addrs: Exists<Cache>,
    pub query: Option<Remote<Q>>,
    pub responders: Vec<Responder>,
}

impl<Q> DestinationSet<Q> {
    /// What is known of the endpoint set.
    pub open spec fn addrs_view(&self) -> AddrsView {
        match self.addrs {
            Exists::Unknown => AddrsView::Unknown,
            Exists::No => AddrsView::No,
            Exists::Yes(c) => AddrsView::Yes { entries: c@.entries, reset: c@.reset },
        }
    }

    pub open spec fn responders_view(&self) -> Seq<Responder> {
        self.responders@
    }

    /// The held cache, if any, is well-formed.
    pub open spec fn wf(&self) -> bool {
        match self.addrs {
            Exists::Yes(c) => c.wf(),
            _ => true,
        }
    }

    /// A fresh resolution: nothing known yet, one consumer, and whatever
    /// subscription the supervisor opened. Nothing is sent on creation.
    pub fn new(responder: Responder, query: Option<Remote<Q>>) -> (r: DestinationSet<Q>)
        ensures
            r.addrs_view() is Unknown,
            r.query == query,
            r.responders_view() == seq![responder],
            r.wf(),
    {
        let mut responders: Vec<Responder> = Vec::new();
        responders.push(responder);
        proof {
            assert(responders@ =~= seq![responder]);
        }
        DestinationSet { addrs: Exists::Unknown, query, responders }
    }

    /// Replace the query with a freshly opened subscription; what is known
    /// of the endpoints, and the responders, are untouched.
    pub fn reconnect(&mut self, query: Option<Remote<Q>>)
        ensures
            final(self).query == query,
            final(self).addrs_view() == old(self).addrs_view(),
            final(self).responders_view() == old(self).responders_view(),
            final(self).wf() == old(self).wf(),
    {
        self.query = query;
    }

    /// At least one consumer is still attached.
    pub fn is_active(&self) -> (r: bool)
        ensures
            r == (self.responders_view().len() > 0),
    {
        self.responders.len() > 0
    }

    /// Drop the responders whose consumers are gone, sending nothing;
    /// survivors keep their order.
    #[verifier::loop_isolation(false)]
    pub fn retain_active(&mut self)
        ensures
            kept_from(final(self).responders_view(), old(self).responders_view()),
            final(self).addrs_view() == old(self).addrs_view(),
            final(self).query == old(self).query,
            final(self).wf() == old(self).wf(),
    {
        let ghost orig = self.responders@;
        let ghost nothing = Seq::<UpdateView>::empty();
        let mut olds: Vec<Responder> = Vec::new();
        core::mem::swap(&mut self.responders, &mut olds);
        let mut kept: Vec<Responder> = Vec::new();
        let ghost mut i: int = 0;
        let ghost mut wit: Seq<int> = Seq::<int>::empty();
        proof {
            assert(olds@ =~= orig.skip(0));
        }
        while olds.len() > 0
            invariant
                0 <= i && i + olds@.len() == orig.len(),
                olds@ == orig.skip(i),
                is_kept_witness(wit, kept@, orig.subrange(0, i), nothing),
            decreases olds.len(),
        {
            let r = olds.remove(0);
            proof {
                assert(r == orig[i]);
                assert(olds@ =~= orig.skip(i + 1));
            }
            let ghost keptprev = kept@;
            if r.is_active() {
                kept.push(r);
                proof {
                    wit = wit.push(i);
                    assert(is_kept_witness(wit, kept@, orig.subrange(0, i + 1), nothing)) by {
                        assert forall|x: int| 0 <= x < wit.len() implies (#[trigger] kept@[x])
                            .chan() == orig.subrange(0, i + 1)[wit[x]].chan() && kept@[x].history()
                            == orig.subrange(0, i + 1)[wit[x]].history() + nothing by {
                            if x < keptprev.len() {
                                assert(keptprev[x].history() == orig.subrange(0, i)[wit[x]]
                                    .history() + nothing);
                                assert(orig.subrange(0, i)[wit[x]] == orig.subrange(
                                    0,
                                    i + 1,
                                )[wit[x]]);
                            } else {
                                assert(kept@[x] == orig.subrange(0, i + 1)[i]);
                                assert(kept@[x].history() + nothing =~= kept@[x].history());
                            }
                        }
                    }
                }
            } else {
                proof {
                    assert(is_kept_witness(wit, kept@, orig.subrange(0, i + 1), nothing)) by {
                        assert forall|x: int| 0 <= x < wit.len() implies (#[trigger] kept@[x])
                            .chan() == orig.subrange(0, i + 1)[wit[x]].chan() && kept@[x].history()
                            == orig.subrange(0, i + 1)[wit[x]].history() + nothing by {
                            assert(orig.subrange(0, i)[wit[x]] == orig.subrange(0, i + 1)[wit[x]]);
                            assert(kept@[x].history() == orig.subrange(0, i)[wit[x]].history()
                                + nothing);
                        }
                    }
                }
            }
            proof {
                i = i + 1;
            }
        }
        proof {
            assert(orig.subrange(0, i) =~= orig);
            assert(is_kept_witness(wit, kept@, orig, nothing));
        }
        self.responders = kept;
    }

    /// Send one update to every responder, cloned per responder; a consumer
    /// that no longer accepts is dropped on the spot, so every survivor's
    /// channel accepted exactly this update.
    #[verifier::loop_isolation(false)]
    fn broadcast(&mut self, u: &Update)
        ensures
            delivered(final(self).responders_view(), old(self).responders_view(), seq![u@]),
            final(self).addrs == old(self).addrs,
            final(self).query == old(self).query,
    {
        let ghost orig = self.responders@;
        let ghost sent = seq![u@];
        let mut olds: Vec<Responder> = Vec::new();
        core::mem::swap(&mut self.responders, &mut olds);
        let mut kept: Vec<Responder> = Vec::new();
        let ghost mut i: int = 0;
        let ghost mut wit: Seq<int> = Seq::<int>::empty();
        proof {
            assert(olds@ =~= orig.skip(0));
        }
        while olds.len() > 0
            invariant
                0 <= i && i + olds@.len() == orig.len(),
                olds@ == orig.skip(i),
                is_kept_witness(wit, kept@, orig.subrange(0, i), sent),
            decreases olds.len(),
        {
            let mut r = olds.remove(0);
            proof {
                assert(r == orig[i]);
                assert(olds@ =~= orig.skip(i + 1));
            }
            let ghost keptprev = kept@;
            let accepted = r.send(u.duplicate());
            if accepted {
                kept.push(r);
                proof {
                    wit = wit.push(i);
                    assert(is_kept_witness(wit, kept@, orig.subrange(0, i + 1), sent)) by {
                        assert forall|x: int| 0 <= x < wit.len() implies (#[trigger] kept@[x])
                            .chan() == orig.subrange(0, i + 1)[wit[x]].chan() && kept@[x].history()
                            == orig.subrange(0, i + 1)[wit[x]].history() + sent by {
                            if x < keptprev.len() {
                                assert(keptprev[x].chan() == orig.subrange(0, i)[wit[x]].chan());
                                assert(keptprev[x].history() == orig.subrange(0, i)[wit[x]]
                                    .history() + sent);
                                assert(orig.subrange(0, i)[wit[x]] == orig.subrange(
                                    0,
                                    i + 1,
                                )[wit[x]]);
                            } else {
                                assert(orig.subrange(0, i + 1)[i] == orig[i]);
                                assert(kept@[x].history() == orig[i].history().push(u@));
                                assert(orig[i].history().push(u@) =~= orig[i].history() + sent);
                            }
                        }
                    }
                }
            } else {
                proof {
                    assert(is_kept_witness(wit, kept@, orig.subrange(0, i + 1), sent)) by {
                        assert forall|x: int| 0 <= x < wit.len() implies (#[trigger] kept@[x])
                            .chan() == orig.subrange(0, i + 1)[wit[x]].chan() && kept@[x].history()
                            == orig.subrange(0, i + 1)[wit[x]].history() + sent by {
                            assert(orig.subrange(0, i)[wit[x]] == orig.subrange(0, i + 1)[wit[x]]);
                            assert(kept@[x].chan() == orig.subrange(0, i)[wit[x]].chan());
                            assert(kept@[x].history() == orig.subrange(0, i)[wit[x]].history()
                                + sent);
                        }
                    }
                }
            }
            proof {
                i = i + 1;
            }
        }
        proof {
            assert(orig.subrange(0, i) =~= orig);
            assert(is_kept_witness(wit, kept@, orig, sent));
        }
        self.responders = kept;
    }

    /// Map one cache change to its update and send it to every responder.
    fn on_change(&mut self, change: CacheChange)
        ensures
            delivered(
                final(self).responders_view(),
                old(self).responders_view(),
                seq![spec_update_of(change@)],
            ),
            final(self).addrs == old(self).addrs,
            final(self).query == old(self).query,
    {
        let u = change_to_update(change);
        self.broadcast(&u);
    }

    /// Broadcast a batch of cache changes, mapped to updates, in order.
    #[verifier::loop_isolation(false)]
    fn broadcast_changes(&mut self, ch: Vec<CacheChange>)
        ensures
            delivered(
                final(self).responders_view(),
                old(self).responders_view(),
                updates_of(cview(ch@)),
            ),
            final(self).addrs == old(self).addrs,
            final(self).query == old(self).query,
    {
        let ghost full = cview(ch@);
        let mut ch = ch;
        let ghost mut j: int = 0;
        proof {
            lemma_kept_refl(self.responders_view());
            assert(cview(ch@) =~= full.skip(0));
            assert(updates_of(full).subrange(0, 0) =~= Seq::<UpdateView>::empty());
        }
        while ch.len() > 0
            invariant
                0 <= j && j + ch@.len() == full.len(),
                cview(ch@) == full.skip(j),
                delivered(
                    self.responders_view(),
                    old(self).responders_view(),
                    updates_of(full).subrange(0, j),
                ),
                self.addrs == old(self).addrs,
                self.query == old(self).query,
            decreases ch.len(),
        {
            let ghost before = self.responders_view();
            let ghost chprev = ch@;
            let c = ch.remove(0);
            proof {
                assert(cview(chprev)[0] == c@);
                assert(c@ == full[j]);
                assert(cview(ch@) =~= full.skip(j + 1)) by {
                    assert forall|x: int| 0 <= x < ch@.len() implies #[trigger] cview(ch@)[x]
                        == full.skip(j + 1)[x] by {
                        assert(ch@[x] == chprev[x + 1]);
                        assert(cview(chprev)[x + 1] == chprev[x + 1]@);
                    }
                }
            }
            self.on_change(c);
            proof {
                lemma_delivered_trans(
                    self.responders_view(),
                    before,
                    old(self).responders_view(),
                    seq![spec_update_of(c@)],
                    updates_of(full).subrange(0, j),
                );
                assert(updates_of(full).subrange(0, j) + seq![spec_update_of(c@)] =~= updates_of(
                    full,
                ).subrange(0, j + 1)) by {
                    assert(updates_of(full)[j] == spec_update_of(full[j]));
                }
                j = j + 1;
            }
        }
        proof {
            assert(updates_of(full).subrange(0, j) =~= updates_of(full));
        }
    }

    /// An authoritative response has been seen.
    pub fn endpoints_known(&self) -> (r: bool)
        ensures
            r == (self.addrs_view() is Yes),
    {
        self.addrs.is_yes()
    }

    /// After a disconnect: arm the cache, if any, to revoke its entries on
    /// the next mutation, so a resumed stream's first snapshot diffs
    /// cleanly instead of duplicating. Nothing is sent.
    pub fn reset_on_next_modification(&mut self)
        ensures
            final(self).addrs_view() == arm_reset(old(self).addrs_view()),
            final(self).query == old(self).query,
            final(self).responders_view() == old(self).responders_view(),
            final(self).wf() == old(self).wf(),
    {
        let ex = self.addrs.take();
        match ex {
            Exists::Yes(mut c) => {
                c.set_reset_on_next_modification();
                self.addrs = Exists::Yes(c);
            },
            Exists::No => {
                self.addrs = Exists::No;
            },
            Exists::Unknown => {
                self.addrs = Exists::Unknown;
            },
        }
    }

    /// Attach a consumer. If endpoints are known, it is caught up first
    /// with one `Add` per current entry, in cache order, before it joins
    /// the registry; under `No` or `Unknown` it is attached with nothing
    /// sent (it learns via later stream events or a no-endpoints signal).
    /// A consumer whose channel fails during the catch-up is a programming
    /// error per the error model; rather than abort, the dead responder is
    /// discarded instead of being attached.
    #[verifier::loop_isolation(false)]
    pub fn add_responder(&mut self, responder: Responder)
        requires
            old(self).wf(),
        ensures
            final(self).addrs == old(self).addrs,
            final(self).query == old(self).query,
            final(self).wf(),
            match old(self).addrs_view() {
                AddrsView::Yes { entries, .. } => {
                    ||| {
                        &&& final(self).responders_view().len() == old(
                            self,
                        ).responders_view().len() + 1
                        &&& final(self).responders_view().drop_last() == old(
                            self,
                        ).responders_view()
                        &&& final(self).responders_view().last().chan() == responder.chan()
                        &&& final(self).responders_view().last().history() == responder.history()
                            + catchup_updates(entries)
                    }
                    ||| final(self).responders_view() == old(self).responders_view()
                },
                _ => final(self).responders_view() == old(self).responders_view().push(responder),
            },
    {
        let mut responder = responder;
        let ghost h0 = responder.history();
        let ghost chan0 = responder.chan();
        match &self.addrs {
            Exists::Yes(c) => {
                let ghost entries = c@.entries;
                let ghost total = catchup_updates(entries);
                let snap = c.snapshot();
                let mut i: usize = 0;
                while i < snap.len()
                    invariant
                        i <= snap.len(),
                        crate::cache::eview(snap@) == entries,
                        responder.chan() == chan0,
                        responder.history() == h0 + total.subrange(0, i as int),
                    decreases snap.len() - i,
                {
                    let pr: &(SocketAddress, Metadata) = vstd::slice::slice_index_get(
                        snap.as_slice(),
                        i,
                    );
                    let ghost hpre = responder.history();
                    let u = Update::Add(pr.0, pr.1.duplicate());
                    proof {
                        assert(crate::cache::eview(snap@)[i as int] == (
                            snap@[i as int].0,
                            snap@[i as int].1@,
                        ));
                        assert(u@ == UpdateView::Add(entries[i as int].0, entries[i as int].1));
                        assert(total[i as int] == u@);
                    }
                    let accepted = responder.send(u);
                    if !accepted {
                        // The consumer vanished before it was ever attached:
                        // drop it, leaving the registry as it was.
                        return ;
                    }
                    proof {
                        assert(responder.history() =~= h0 + total.subrange(0, i + 1)) by {
                            assert(responder.history() == (h0 + total.subrange(0, i as int)).push(
                                total[i as int],
                            ));
                        }
                    }
                    i += 1;
                }
                proof {
                    assert(total.subrange(0, snap@.len() as int) =~= total);
                }
            },
            _ => {},
        }
        let ghost rs = self.responders@;
        self.responders.push(responder);
        proof {
            assert(self.responders@.drop_last() =~= rs);
            assert(self.responders@.last() == responder);
        }
    }

    /// Apply an add-batch to the cache (allocating one if endpoints were
    /// not yet known) and broadcast the resulting changes, reset-flag
    /// revocations first.
    fn add(&mut self, entries: &Vec<(SocketAddress, Metadata)>)
        requires
            old(self).wf(),
            forall|i: int|
                0 <= i < entries@.len() ==> crate::meta::view_wf(
                    #[trigger] crate::cache::eview(entries@)[i].1,
                ),
        ensures
            final(self).addrs_view() == (AddrsView::Yes {
                entries: spec_union(
                    start_entries(old(self).addrs_view()),
                    crate::cache::eview(entries@),
                ).0,
                reset: false,
            }),
            delivered(
                final(self).responders_view(),
                old(self).responders_view(),
                updates_of(
                    reset_pre_events(old(self).addrs_view()) + spec_union(
                        start_entries(old(self).addrs_view()),
                        crate::cache::eview(entries@),
                    ).1,
                ),
            ),
            final(self).query == old(self).query,
            final(self).wf(),
    {
        let ex = self.addrs.take();
        let mut cache = match ex {
            Exists::Yes(c) => c,
            _ => Cache::new(),
        };
        let ch = cache.update_union(entries);
        self.addrs = Exists::Yes(cache);
        self.broadcast_changes(ch);
    }

    /// Apply a remove-batch to the cache and broadcast the resulting
    /// removals; endpoints not yet known become a known-empty set that the
    /// removals then miss silently.
    fn remove_addrs(&mut self, ks: &Vec<SocketAddress>)
        requires
            old(self).wf(),
        ensures
            final(self).addrs_view() == (AddrsView::Yes {
                entries: spec_remove(start_entries(old(self).addrs_view()), ks@).0,
                reset: false,
            }),
            delivered(
                final(self).responders_view(),
                old(self).responders_view(),
                updates_of(
                    reset_pre_events(old(self).addrs_view()) + spec_remove(
                        start_entries(old(self).addrs_view()),
                        ks@,
                    ).1,
                ),
            ),
            final(self).query == old(self).query,
            final(self).wf(),
    {
        let ex = self.addrs.take();
        let mut cache = match ex {
            Exists::Yes(c) => c,
            _ => Cache::new(),
        };
        let ch = cache.remove(ks);
        self.addrs = Exists::Yes(cache);
        self.broadcast_changes(ch);
    }

    /// The control plane asserts there are no endpoints: send every
    /// responder the no-endpoints signal, then revoke whatever was cached
    /// (one `Remove` per entry, after the signal), and record whether the
    /// authority itself exists.
    fn no_endpoints(&mut self, present: bool)
        requires
            old(self).wf(),
        ensures
            final(self).addrs_view() == if present {
                AddrsView::Yes {
                    entries: Seq::<(SocketAddress, MetadataView)>::empty(),
                    reset: false,
                }
            } else {
                AddrsView::No
            },
            delivered(
                final(self).responders_view(),
                old(self).responders_view(),
                no_endpoints_sent(old(self).addrs_view()),
            ),
            final(self).query == old(self).query,
            final(self).wf(),
    {
        let ghost r0 = self.responders_view();
        let ghost a0 = self.addrs_view();
        self.broadcast(&Update::NoEndpoints);
        let ex = self.addrs.take();
        match ex {
            Exists::Yes(mut c) => {
                let ghost r1 = self.responders_view();
                let ch = c.clear();
                self.broadcast_changes(ch);
                proof {
                    lemma_delivered_trans(
                        self.responders_view(),
                        r1,
                        r0,
                        updates_of(cview(ch@)),
                        seq![UpdateView::NoEndpoints],
                    );
                    assert(seq![UpdateView::NoEndpoints] + updates_of(cview(ch@))
                        =~= no_endpoints_sent(a0));
                }
            },
            _ => {
                proof {
                    assert(seq![UpdateView::NoEndpoints] + Seq::<UpdateView>::empty()
                        =~= no_endpoints_sent(a0));
                    assert(no_endpoints_sent(a0) =~= seq![UpdateView::NoEndpoints]);
                }
            },
        }
        self.addrs = if present {
            Exists::Yes(Cache::new())
        } else {
            Exists::No
        };
    }

    /// Process one drained batch from the subscription (`rx` is the handle
    /// that was being polled): apply messages in order, stopping at the
    /// first terminal event (later events of the batch are discarded, so
    /// the supervisor should end each batch at the first terminal), and
    /// return the query to hold from here on (`None` when the authority is
    /// unservable and must not be retried).
    #[verifier::loop_isolation(false)]
    fn poll_query(&mut self, events: &Vec<StreamEvent>, rx: Q) -> (r: Option<Remote<Q>>)
        requires
            old(self).wf(),
        ensures
            final(self).addrs_view() == apply_events(old(self).addrs_view(), events@).0,
            match apply_events(old(self).addrs_view(), events@).1 {
                QueryFate::Connected => r == Some(Remote::<Q>::ConnectedOrConnecting { rx }),
                QueryFate::Reconnect => r == Some(Remote::<Q>::NeedsReconnect),
                QueryFate::Dropped => r is None,
            },
            delivered(
                final(self).responders_view(),
                old(self).responders_view(),
                events_sent(old(self).addrs_view(), events@),
            ),
            final(self).query == old(self).query,
            final(self).wf(),
    {
        let ghost a0 = old(self).addrs_view();
        let ghost target = apply_events(a0, events@);
        let ghost total = events_sent(a0, events@);
        let ghost mut sacc: Seq<UpdateView> = Seq::<UpdateView>::empty();
        proof {
            assert(events@.skip(0) =~= events@);
            lemma_kept_refl(self.responders_view());
            assert(sacc + events_sent(self.addrs_view(), events@.skip(0)) =~= events_sent(
                self.addrs_view(),
                events@.skip(0),
            ));
        }
        let mut i: usize = 0;
        while i < events.len()
            invariant
                i <= events.len(),
                target == apply_events(self.addrs_view(), events@.skip(i as int)),
                total == sacc + events_sent(self.addrs_view(), events@.skip(i as int)),
                delivered(self.responders_view(), old(self).responders_view(), sacc),
                self.query == old(self).query,
                self.wf(),
            decreases events.len() - i,
        {
            let ghost before = self.responders_view();
            let ghost cur = self.addrs_view();
            let ghost rest = events@.skip(i as int);
            let ev: &StreamEvent = vstd::slice::slice_index_get(events.as_slice(), i);
            proof {
                assert(rest[0] == events@[i as int]);
                assert(rest.drop_first() =~= events@.skip(i + 1));
            }
            match ev {
                StreamEvent::Item(u) => {
                    let ghost step = msg_sent(cur, *u);
                    match u {
                        Some(PbUpdate::Add(aset)) => {
                            let entries = decode_weighted_set(aset);
                            self.add(&entries);
                            proof {
                                assert(crate::cache::eview(entries@) == spec_decode_set(
                                    aset.addrs@,
                                    aset.metric_labels@,
                                ));
                            }
                        },
                        Some(PbUpdate::Remove(rset)) => {
                            let ks = decode_addr_set(rset);
                            self.remove_addrs(&ks);
                        },
                        Some(PbUpdate::NoEndpoints(present)) => {
                            self.no_endpoints(*present);
                        },
                        None => {
                            proof {
                                lemma_kept_refl(self.responders_view());
                            }
                        },
                    }
                    proof {
                        assert(self.addrs_view() == apply_msg(cur, *u));
                        assert(delivered(self.responders_view(), before, step));
                        lemma_delivered_trans(
                            self.responders_view(),
                            before,
                            old(self).responders_view(),
                            step,
                            sacc,
                        );
                        assert(events_sent(cur, rest) == step + events_sent(
                            apply_msg(cur, *u),
                            rest.drop_first(),
                        ));
                        assert((sacc + step) + events_sent(self.addrs_view(), events@.skip(i + 1))
                            =~= sacc + (step + events_sent(
                            self.addrs_view(),
                            events@.skip(i + 1),
                        )));
                        sacc = sacc + step;
                    }
                },
                StreamEvent::EndOfStream => {
                    proof {
                        assert(events_sent(cur, rest) =~= Seq::<UpdateView>::empty());
                        assert(sacc + events_sent(cur, rest) =~= sacc);
                        assert(total == sacc);
                    }
                    return Some(Remote::NeedsReconnect);
                },
                StreamEvent::NotReady => {
                    proof {
                        assert(sacc + events_sent(cur, rest) =~= sacc);
                        assert(total == sacc);
                    }
                    return Some(Remote::ConnectedOrConnecting { rx });
                },
                StreamEvent::Failed(ErrorKind::InvalidArgument) => {
                    self.no_endpoints(false);
                    proof {
                        lemma_delivered_trans(
                            self.responders_view(),
                            before,
                            old(self).responders_view(),
                            no_endpoints_sent(cur),
                            sacc,
                        );
                        assert(events_sent(cur, rest) == no_endpoints_sent(cur));
                        assert(total == sacc + no_endpoints_sent(cur));
                    }
                    return None;
                },
                StreamEvent::Failed(ErrorKind::Other) => {
                    proof {
                        assert(sacc + events_sent(cur, rest) =~= sacc);
                        assert(total == sacc);
                    }
                    return Some(Remote::NeedsReconnect);
                },
            }
            i += 1;
        }
        proof {
            assert(events@.skip(events@.len() as int).len() == 0);
            assert(sacc + events_sent(self.addrs_view(), events@.skip(events@.len() as int))
                =~= sacc);
            assert(total == sacc);
        }
        Some(Remote::ConnectedOrConnecting { rx })
    }

    /// Drive the resolution with what one poll of the subscription
    /// yielded, returning whether the set must be queued to reconnect.
    /// With no query at all, the known state is re-asserted to consumers
    /// as a no-endpoints signal; a query already waiting to reconnect is
    /// left alone and nothing is sent.
    pub fn poll_dst(&mut self, events: &Vec<StreamEvent>) -> (needs_reconnect: bool)
        requires
            old(self).wf(),
        ensures
            final(self).wf(),
            match old(self).query {
                None => {
                    &&& final(self).query is None
                    &&& !needs_reconnect
                    &&& final(self).addrs_view() == if old(self).addrs_view() is Yes {
                        AddrsView::Yes {
                            entries: Seq::<(SocketAddress, MetadataView)>::empty(),
                            reset: false,
                        }
                    } else {
                        AddrsView::No
                    }
                    &&& delivered(
                        final(self).responders_view(),
                        old(self).responders_view(),
                        no_endpoints_sent(old(self).addrs_view()),
                    )
                },
                Some(Remote::NeedsReconnect) => {
                    &&& final(self).query == old(self).query
                    &&& !needs_reconnect
                    &&& final(self).addrs_view() == old(self).addrs_view()
                    &&& final(self).responders_view() == old(self).responders_view()
                },
                Some(Remote::ConnectedOrConnecting { .. }) => {
                    let (a2, fate) = apply_events(old(self).addrs_view(), events@);
                    &&& delivered(
                        final(self).responders_view(),
                        old(self).responders_view(),
                        events_sent(old(self).addrs_view(), events@),
                    )
                    &&& match fate {
                        QueryFate::Connected => {
                            &&& final(self).query == old(self).query
                            &&& !needs_reconnect
                            &&& final(self).addrs_view() == a2
                        },
                        QueryFate::Reconnect => {
                            &&& final(self).query == Some(Remote::<Q>::NeedsReconnect)
                            &&& needs_reconnect
                            &&& final(self).addrs_view() == arm_reset(a2)
                        },
                        QueryFate::Dropped => {
                            &&& final(self).query is None
                            &&& !needs_reconnect
                            &&& final(self).addrs_view() == a2
                        },
                    }
                },
            },
    {
        let q = self.query.take();
        match q {
            Some(Remote::ConnectedOrConnecting { rx }) => {
                let new_query = self.poll_query(events, rx);
                let needs_reconnect = match &new_query {
                    Some(Remote::NeedsReconnect) => true,
                    _ => false,
                };
                if needs_reconnect {
                    self.reset_on_next_modification();
                }
                self.query = new_query;
                needs_reconnect
            },
            None => {
                let present = self.endpoints_known();
                self.no_endpoints(present);
                self.query = None;
                false
            },
            Some(Remote::NeedsReconnect) => {
                self.query = Some(Remote::NeedsReconnect);
                false
            },
        }
    }
}

} // verus!
