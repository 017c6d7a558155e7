use crate::meta::{Metadata, MetadataView};
use crate::net::SocketAddress;
use futures::sync::mpsc::UnboundedSender;
use vstd::prelude::*;

verus! {

#[verifier::external_type_specification]
#[verifier::external_body]
#[verifier::reject_recursive_types(T)]
pub struct ExUnboundedSender<T>(UnboundedSender<T>);

/// One message to a downstream consumer: a (re-)added endpoint, a removed
/// endpoint, or the signal that all prior adds are void.
pub enum Update {
    Add(SocketAddress, Metadata),
    Remove(SocketAddress),
    NoEndpoints,
}

/// An update as specification data.
pub enum UpdateView {
    Add(SocketAddress, MetadataView),
    Remove(SocketAddress),
    NoEndpoints,
}

impl View for Update {
    type V = UpdateView;

    open spec fn view(&self) -> UpdateView {
        match self {
            Update::Add(k, m) => UpdateView::Add(*k, m@),
            Update::Remove(k) => UpdateView::Remove(*k),
            Update::NoEndpoints => UpdateView::NoEndpoints,
        }
    }
}

impl Update {
    /// Structure-preserving copy: one clone per responder it is sent to.
    pub fn duplicate(&self) -> (r: Update)
        ensures
            r@ == self@,
    {
        match self {
            Update::Add(k, m) => Update::Add(*k, m.duplicate()),
            Update::Remove(k) => Update::Remove(*k),
            Update::NoEndpoints => Update::NoEndpoints,
        }
    }
}

/// The sink for one in-process consumer: an unbounded channel, plus the
/// ghost record of every update the channel has accepted, in order. The
/// record is what the library's delivery contracts speak of.
pub struct Responder {
    update_tx: UnboundedSender<Update>,
    hist: Ghost<Seq<UpdateView>>,
}

impl Responder {
    /// The channel this responder delivers on: its identity at the
    /// specification level.
    pub closed spec fn chan(&self) -> UnboundedSender<Update> {
        self.update_tx
    }

    /// Every update the consumer's channel has accepted since this
    /// responder was made, oldest first.
    pub closed spec fn history(&self) -> Seq<UpdateView> {
        self.hist@
    }

    pub fn new(update_tx: UnboundedSender<Update>) -> (r: Responder)
        ensures
            r.history() == Seq::<UpdateView>::empty(),
    {
        Responder { update_tx, hist: Ghost(Seq::empty()) }
    }

    /// Relies on futures' `UnboundedSender::is_closed`: true once the
    /// consumer's receiver is gone. The answer depends on the consumer, so
    /// nothing is promised of it.
    #[verifier::external_body]
    fn closed(&self) -> bool {
        self.update_tx.is_closed()
    }

    /// A responder is active while its consumer can still receive.
    pub fn is_active(&self) -> bool {
        !self.closed()
    }

    /// Relies on futures' `UnboundedSender::unbounded_send`: queueing on an
    /// unbounded channel fails only when the receiver is gone, and whether
    /// it does depends on the consumer, so success is not promised. The
    /// ghost history records exactly what the channel accepted: it grows by
    /// the sent update on success and is untouched on failure.
    #[verifier::external_body]
    pub fn send(&mut self, u: Update) -> (ok: bool)
        ensures
            final(self).chan() == old(self).chan(),
            ok ==> final(self).history() == old(self).history().push(u@),
            !ok ==> final(self).history() == old(self).history(),
    {
        self.update_tx.unbounded_send(u).is_ok()
    }
}

} // verus!
