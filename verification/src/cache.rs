use crate::meta::{view_wf, Metadata, MetadataView};
use crate::net::SocketAddress;
use vstd::pervasive::VecAdditionalExecFns;
use vstd::prelude::*;

verus! {

/// One change the cache made to its contents, as reported to the caller.
pub enum CacheChange {
    Insertion { key: SocketAddress, value: Metadata },
    Removal { key: SocketAddress },
    Modification { key: SocketAddress, new_value: Metadata },
}

/// A cache change as specification data.
pub enum ChangeView {
    Insertion { key: SocketAddress, value: MetadataView },
    Removal { key: SocketAddress },
    Modification { key: SocketAddress, new_value: MetadataView },
}

impl View for CacheChange {
    type V = ChangeView;

    open spec fn view(&self) -> ChangeView {
        match self {
            CacheChange::Insertion { key, value } => ChangeView::Insertion {
                key: *key,
                value: value@,
            },
            CacheChange::Removal { key } => ChangeView::Removal { key: *key },
            CacheChange::Modification { key, new_value } => ChangeView::Modification {
                key: *key,
                new_value: new_value@,
            },
        }
    }
}

/// Entry lists as specification data.
pub open spec fn eview(s: Seq<(SocketAddress, Metadata)>) -> Seq<(SocketAddress, MetadataView)> {
    s.map_values(|p: (SocketAddress, Metadata)| (p.0, p.1@))
}

pub open spec fn cview(s: Seq<CacheChange>) -> Seq<ChangeView> {
    s.map_values(|c: CacheChange| c@)
}

/// Keys appear at most once.
pub open spec fn key_uniq(s: Seq<(SocketAddress, MetadataView)>) -> bool {
    forall|i: int, j: int| 0 <= i < j < s.len() ==> s[i].0 != s[j].0
}

/// The value cached under `k`.
pub open spec fn spec_get(s: Seq<(SocketAddress, MetadataView)>, k: SocketAddress) -> Option<
    MetadataView,
>
    decreases s.len(),
{
    if s.len() == 0 {
        None
    } else if s[0].0 == k {
        Some(s[0].1)
    } else {
        spec_get(s.drop_first(), k)
    }
}

/// Replace the value under `k`, in place.
pub open spec fn spec_set_key(
    s: Seq<(SocketAddress, MetadataView)>,
    k: SocketAddress,
    v: MetadataView,
) -> Seq<(SocketAddress, MetadataView)>
    decreases s.len(),
{
    if s.len() == 0 {
        s
    } else if s[0].0 == k {
        seq![(k, v)] + s.drop_first()
    } else {
        seq![s[0]] + spec_set_key(s.drop_first(), k, v)
    }
}

/// Drop the entry under `k`, if any.
pub open spec fn spec_del(s: Seq<(SocketAddress, MetadataView)>, k: SocketAddress) -> Seq<
    (SocketAddress, MetadataView),
>
    decreases s.len(),
{
    if s.len() == 0 {
        s
    } else if s[0].0 == k {
        s.drop_first()
    } else {
        seq![s[0]] + spec_del(s.drop_first(), k)
    }
}

/// What one incoming entry does to the cache: insert when absent, replace
/// when present with a different value, nothing when unchanged.
pub open spec fn spec_union_step(
    s: Seq<(SocketAddress, MetadataView)>,
    e: (SocketAddress, MetadataView),
) -> (Seq<(SocketAddress, MetadataView)>, Seq<ChangeView>) {
    match spec_get(s, e.0) {
        None => (s.push(e), seq![ChangeView::Insertion { key: e.0, value: e.1 }]),
        Some(v) => if v != e.1 {
            (spec_set_key(s, e.0, e.1), seq![ChangeView::Modification { key: e.0, new_value: e.1 }])
        } else {
            (s, Seq::<ChangeView>::empty())
        },
    }
}

/// Fold of `spec_union_step` over the incoming entries, in their order.
pub open spec fn spec_union(
    s: Seq<(SocketAddress, MetadataView)>,
    ins: Seq<(SocketAddress, MetadataView)>,
) -> (Seq<(SocketAddress, MetadataView)>, Seq<ChangeView>)
    decreases ins.len(),
{
    if ins.len() == 0 {
        (s, Seq::<ChangeView>::empty())
    } else {
        let (s1, ev1) = spec_union_step(s, ins[0]);
        let (s2, ev2) = spec_union(s1, ins.drop_first());
        (s2, ev1 + ev2)
    }
}

/// What removing one key does: delete and report when present.
pub open spec fn spec_remove_step(
    s: Seq<(SocketAddress, MetadataView)>,
    k: SocketAddress,
) -> (Seq<(SocketAddress, MetadataView)>, Seq<ChangeView>) {
    if spec_get(s, k) is Some {
        (spec_del(s, k), seq![ChangeView::Removal { key: k }])
    } else {
        (s, Seq::<ChangeView>::empty())
    }
}

/// Fold of `spec_remove_step` over the keys, in their order.
pub open spec fn spec_remove(
    s: Seq<(SocketAddress, MetadataView)>,
    ks: Seq<SocketAddress>,
) -> (Seq<(SocketAddress, MetadataView)>, Seq<ChangeView>)
    decreases ks.len(),
{
    if ks.len() == 0 {
        (s, Seq::<ChangeView>::empty())
    } else {
        let (s1, ev1) = spec_remove_step(s, ks[0]);
        let (s2, ev2) = spec_remove(s1, ks.drop_first());
        (s2, ev1 + ev2)
    }
}

/// One removal report per entry, in the cache's own order.
pub open spec fn removal_events(s: Seq<(SocketAddress, MetadataView)>) -> Seq<ChangeView> {
    s.map_values(|e: (SocketAddress, MetadataView)| ChangeView::Removal { key: e.0 })
}

/// The key-to-metadata cache behind a resolution, with the
/// reset-on-next-modification flag used after a disconnect.
pub struct Cache {
    entries: Vec<(SocketAddress, Metadata)>,
    reset: bool,
}

/// The cache as specification data.
pub struct CacheView {
    pub entries: Seq<(SocketAddress, MetadataView)>,
    pub reset: bool,
}

impl View for Cache {
    type V = CacheView;

    closed spec fn view(&self) -> CacheView {
        CacheView { entries: eview(self.entries@), reset: self.reset }
    }
}

proof fn lemma_cview_push(s: Seq<CacheChange>, c: CacheChange)
    ensures
        cview(s.push(c)) =~= cview(s).push(c@),
{
    assert forall|m: int| 0 <= m < s.len() + 1 implies #[trigger] cview(s.push(c))[m] == cview(
        s,
    ).push(c@)[m] by {
        if m < s.len() {
            assert(s.push(c)[m] == s[m]);
        } else {
            assert(s.push(c)[m] == c);
        }
    }
}

proof fn lemma_eview_push(s: Seq<(SocketAddress, Metadata)>, e: (SocketAddress, Metadata))
    ensures
        eview(s.push(e)) =~= eview(s).push((e.0, e.1@)),
{
    assert forall|m: int| 0 <= m < s.len() + 1 implies #[trigger] eview(s.push(e))[m] == eview(
        s,
    ).push((e.0, e.1@))[m] by {
        if m < s.len() {
            assert(s.push(e)[m] == s[m]);
        } else {
            assert(s.push(e)[m] == e);
        }
    }
}

proof fn lemma_eview_update(s: Seq<(SocketAddress, Metadata)>, j: int, e: (SocketAddress, Metadata))
    requires
        0 <= j < s.len(),
    ensures
        eview(s.update(j, e)) =~= eview(s).update(j, (e.0, e.1@)),
{
    assert forall|m: int| 0 <= m < s.len() implies #[trigger] eview(s.update(j, e))[m] == eview(
        s,
    ).update(j, (e.0, e.1@))[m] by {
        if m != j {
            assert(s.update(j, e)[m] == s[m]);
        } else {
            assert(s.update(j, e)[m] == e);
        }
    }
}

proof fn lemma_eview_remove(s: Seq<(SocketAddress, Metadata)>, j: int)
    requires
        0 <= j < s.len(),
    ensures
        eview(s.remove(j)) =~= eview(s).remove(j),
{
    assert forall|m: int| 0 <= m < s.len() - 1 implies #[trigger] eview(s.remove(j))[m] == eview(
        s,
    ).remove(j)[m] by {
        if m < j {
            assert(s.remove(j)[m] == s[m]);
        } else {
            assert(s.remove(j)[m] == s[m + 1]);
        }
    }
}

pub proof fn lemma_get_absent(s: Seq<(SocketAddress, MetadataView)>, k: SocketAddress)
    requires
        forall|j: int| 0 <= j < s.len() ==> (#[trigger] s[j].0) != k,
    ensures
        spec_get(s, k) is None,
    decreases s.len(),
{
    if s.len() > 0 {
        assert(forall|j: int|
            0 <= j < s.drop_first().len() ==> (#[trigger] s.drop_first()[j].0) != k);
        lemma_get_absent(s.drop_first(), k);
    }
}

proof fn lemma_get_at(s: Seq<(SocketAddress, MetadataView)>, j: int)
    requires
        key_uniq(s),
        0 <= j < s.len(),
    ensures
        spec_get(s, s[j].0) == Some(s[j].1),
        spec_set_key(s, s[j].0, s[j].1) =~= s.update(j, (s[j].0, s[j].1)),
    decreases j,
{
    lemma_set_at(s, j, s[j].1);
    if j == 0 {
    } else {
        assert(key_uniq(s.drop_first()));
        assert(s.drop_first()[j - 1] == s[j]);
        lemma_get_at(s.drop_first(), j - 1);
        assert(s[0].0 != s[j].0);
    }
}

proof fn lemma_set_at(s: Seq<(SocketAddress, MetadataView)>, j: int, v: MetadataView)
    requires
        key_uniq(s),
        0 <= j < s.len(),
    ensures
        spec_set_key(s, s[j].0, v) =~= s.update(j, (s[j].0, v)),
    decreases j,
{
    if j == 0 {
        assert(spec_set_key(s, s[0].0, v) == seq![(s[0].0, v)] + s.drop_first());
    } else {
        assert(s[0].0 != s[j].0);
        assert(key_uniq(s.drop_first()));
        assert(s.drop_first()[j - 1] == s[j]);
        lemma_set_at(s.drop_first(), j - 1, v);
        assert(spec_set_key(s, s[j].0, v) == seq![s[0]] + spec_set_key(s.drop_first(), s[j].0, v));
    }
}

proof fn lemma_del_at(s: Seq<(SocketAddress, MetadataView)>, j: int)
    requires
        key_uniq(s),
        0 <= j < s.len(),
    ensures
        spec_del(s, s[j].0) =~= s.remove(j),
    decreases j,
{
    if j == 0 {
        assert(s.remove(0) =~= s.drop_first());
    } else {
        assert(s[0].0 != s[j].0);
        assert(key_uniq(s.drop_first()));
        assert(s.drop_first()[j - 1] == s[j]);
        lemma_del_at(s.drop_first(), j - 1);
        assert(spec_del(s, s[j].0) == seq![s[0]] + spec_del(s.drop_first(), s[j].0));
        assert(seq![s[0]] + s.drop_first().remove(j - 1) =~= s.remove(j));
    }
}

impl Cache {
    /// Unique keys, well-formed metadata.
    pub open spec fn wf(&self) -> bool {
        &&& key_uniq(self@.entries)
        &&& forall|i: int| 0 <= i < self@.entries.len() ==> view_wf(#[trigger] self@.entries[i].1)
    }

    pub fn new() -> (r: Cache)
        ensures
            r@.entries == Seq::<(SocketAddress, MetadataView)>::empty(),
            !r@.reset,
            r.wf(),
    {
        let r = Cache { entries: Vec::new(), reset: false };
        proof {
            assert(r@.entries =~= Seq::<(SocketAddress, MetadataView)>::empty());
        }
        r
    }

    /// Arm the flag: the next mutating call first revokes everything.
    pub fn set_reset_on_next_modification(&mut self)
        ensures
            final(self)@.entries == old(self)@.entries,
            final(self)@.reset,
            final(self).wf() == old(self).wf(),
    {
        self.reset = true;
    }

    /// The current entries, copied out in cache order.
    #[verifier::loop_isolation(false)]
    pub fn snapshot(&self) -> (r: Vec<(SocketAddress, Metadata)>)
        ensures
            eview(r@) == self@.entries,
    {
        let mut r: Vec<(SocketAddress, Metadata)> = Vec::new();
        let mut i: usize = 0;
        proof {
            assert(eview(r@) =~= self@.entries.subrange(0, 0));
        }
        while i < self.entries.len()
            invariant
                i <= self.entries.len(),
                eview(r@) == self@.entries.subrange(0, i as int),
            decreases self.entries.len() - i,
        {
            let pr: &(SocketAddress, Metadata) = vstd::slice::slice_index_get(
                self.entries.as_slice(),
                i,
            );
            let m = pr.1.duplicate();
            r.push((pr.0, m));
            proof {
                assert(eview(r@) =~= self@.entries.subrange(0, i + 1));
            }
            i += 1;
        }
        proof {
            assert(self@.entries.subrange(0, self.entries@.len() as int) =~= self@.entries);
        }
        r
    }

    /// Index of the entry with key `k`, if any.
    #[verifier::loop_isolation(false)]
    fn find(&self, k: &SocketAddress) -> (r: Option<usize>)
        requires
            self.wf(),
        ensures
            match r {
                Some(j) => j < self@.entries.len() && self@.entries[j as int].0 == *k
                    && spec_get(self@.entries, *k) == Some(self@.entries[j as int].1),
                None => spec_get(self@.entries, *k) is None,
            },
    {
        let mut i: usize = 0;
        while i < self.entries.len()
            invariant
                i <= self.entries.len(),
                forall|j: int| 0 <= j < i ==> (#[trigger] self@.entries[j].0) != *k,
            decreases self.entries.len() - i,
        {
            let pr: &(SocketAddress, Metadata) = vstd::slice::slice_index_get(
                self.entries.as_slice(),
                i,
            );
            if pr.0 == *k {
                proof {
                    lemma_get_at(self@.entries, i as int);
                }
                return Some(i);
            }
            i += 1;
        }
        proof {
            lemma_get_absent(self@.entries, *k);
        }
        None
    }

    /// If the reset flag is armed: revoke every entry first, reporting one
    /// removal per entry in cache order, and disarm the flag.
    #[verifier::loop_isolation(false)]
    fn drain_if_reset(&mut self, ch: &mut Vec<CacheChange>)
        requires
            old(self).wf(),
        ensures
            final(self).wf(),
            !final(self)@.reset,
            final(self)@.entries == if old(self)@.reset {
                Seq::<(SocketAddress, MetadataView)>::empty()
            } else {
                old(self)@.entries
            },
            cview(final(ch)@) == cview(old(ch)@) + if old(self)@.reset {
                removal_events(old(self)@.entries)
            } else {
                Seq::<ChangeView>::empty()
            },
    {
        if !self.reset {
            proof {
                assert(cview(ch@) =~= cview(ch@) + Seq::<ChangeView>::empty());
            }
            return ;
        }
        let ghost entries0 = self@.entries;
        let ghost ch0 = cview(ch@);
        let mut i: usize = 0;
        while i < self.entries.len()
            invariant
                i <= self.entries.len(),
                self@.entries == entries0,
                cview(ch@) == ch0 + removal_events(entries0).subrange(0, i as int),
            decreases self.entries.len() - i,
        {
            let pr: &(SocketAddress, Metadata) = vstd::slice::slice_index_get(
                self.entries.as_slice(),
                i,
            );
            let ghost chprev = ch@;
            let c = CacheChange::Removal { key: pr.0 };
            proof {
                assert(c@ == removal_events(entries0)[i as int]);
            }
            ch.push(c);
            proof {
                lemma_cview_push(chprev, c);
                assert((ch0 + removal_events(entries0).subrange(0, i as int)).push(
                    removal_events(entries0)[i as int],
                ) =~= ch0 + removal_events(entries0).subrange(0, i + 1));
            }
            i += 1;
        }
        self.entries.clear();
        self.reset = false;
        proof {
            assert(removal_events(entries0).subrange(0, entries0.len() as int) =~= removal_events(
                entries0,
            ));
            assert(final(self)@.entries =~= Seq::<(SocketAddress, MetadataView)>::empty());
        }
    }
}


/// A key that is not found differs from every key present.
pub proof fn lemma_get_none_absent(s: Seq<(SocketAddress, MetadataView)>, k: SocketAddress)
    requires
        spec_get(s, k) is None,
    ensures
        forall|j: int| 0 <= j < s.len() ==> (#[trigger] s[j].0) != k,
    decreases s.len(),
{
    if s.len() > 0 {
        lemma_get_none_absent(s.drop_first(), k);
        assert forall|j: int| 0 <= j < s.len() implies (#[trigger] s[j].0) != k by {
            if j > 0 {
                assert(s.drop_first()[j - 1] == s[j]);
            }
        }
    }
}

impl Cache {
    /// Merge a batch of entries: insert new keys, replace changed values,
    /// keep silent on unchanged ones; keys the batch does not name stay.
    /// An armed reset flag first revokes every prior entry.
    #[verifier::loop_isolation(false)]
    pub fn update_union(&mut self, ins: &Vec<(SocketAddress, Metadata)>) -> (ch: Vec<CacheChange>)
        requires
            old(self).wf(),
            forall|i: int| 0 <= i < ins@.len() ==> view_wf(#[trigger] eview(ins@)[i].1),
        ensures
            final(self).wf(),
            !final(self)@.reset,
            final(self)@.entries == spec_union(
                if old(self)@.reset {
                    Seq::<(SocketAddress, MetadataView)>::empty()
                } else {
                    old(self)@.entries
                },
                eview(ins@),
            ).0,
            cview(ch@) == (if old(self)@.reset {
                removal_events(old(self)@.entries)
            } else {
                Seq::<ChangeView>::empty()
            }) + spec_union(
                if old(self)@.reset {
                    Seq::<(SocketAddress, MetadataView)>::empty()
                } else {
                    old(self)@.entries
                },
                eview(ins@),
            ).1,
    {
        let mut ch: Vec<CacheChange> = Vec::new();
        self.drain_if_reset(&mut ch);
        let ghost start = self@.entries;
        let ghost pre = cview(ch@);
        let ghost insv = eview(ins@);
        proof {
            assert(insv.skip(0) =~= insv);
        }
        let mut i: usize = 0;
        while i < ins.len()
            invariant
                i <= ins.len(),
                self.wf(),
                !self@.reset,
                spec_union(start, insv).0 == spec_union(self@.entries, insv.skip(i as int)).0,
                pre + spec_union(start, insv).1 == cview(ch@) + spec_union(
                    self@.entries,
                    insv.skip(i as int),
                ).1,
            decreases ins.len() - i,
        {
            let pr: &(SocketAddress, Metadata) = vstd::slice::slice_index_get(ins.as_slice(), i);
            let k = pr.0;
            let m = pr.1.duplicate();
            let ghost cur = self@.entries;
            let ghost e = insv[i as int];
            let ghost chmid = cview(ch@);
            let ghost rest = insv.skip(i as int);
            proof {
                assert(e == (pr.0, pr.1@));
                assert(view_wf(e.1));
                assert(m@ == e.1);
                assert(rest[0] == e);
                assert(rest.drop_first() =~= insv.skip(i + 1));
            }
            match self.find(&k) {
                None => {
                    proof {
                        lemma_get_none_absent(cur, k);
                    }
                    let ghost entprev = self.entries@;
                    let ghost chprev = ch@;
                    let ghost pushed = (k, m);
                    let ev = CacheChange::Insertion { key: k, value: pr.1.duplicate() };
                    self.entries.push((k, m));
                    ch.push(ev);
                    proof {
                        let ghost evv = ChangeView::Insertion { key: e.0, value: e.1 };
                        assert(spec_union_step(cur, e) == (cur.push(e), seq![evv]));
                        lemma_eview_push(entprev, pushed);
                        assert(self@.entries =~= cur.push(e)) by {
                            assert((pushed.0, pushed.1@) == e);
                        }
                        lemma_cview_push(chprev, ev);
                        assert(ev@ == evv);
                        assert(cview(ch@) == chmid.push(evv));
                        assert(spec_union(cur, rest).0 == spec_union(
                            self@.entries,
                            insv.skip(i + 1),
                        ).0);
                        assert(spec_union(cur, rest).1 =~= seq![evv] + spec_union(
                            self@.entries,
                            insv.skip(i + 1),
                        ).1);
                        assert(chmid + spec_union(cur, rest).1 =~= cview(ch@) + spec_union(
                            self@.entries,
                            insv.skip(i + 1),
                        ).1);
                        assert(key_uniq(self@.entries)) by {
                            assert forall|x: int, y: int|
                                0 <= x < y < self@.entries.len() implies self@.entries[x].0
                                != self@.entries[y].0 by {
                                if y == self@.entries.len() - 1 {
                                    assert(self@.entries[x] == cur[x]);
                                } else {
                                    assert(self@.entries[x] == cur[x]);
                                    assert(self@.entries[y] == cur[y]);
                                }
                            }
                        }
                        assert forall|x: int| 0 <= x < self@.entries.len() implies view_wf(
                            #[trigger] self@.entries[x].1,
                        ) by {
                            if x < cur.len() {
                                assert(self@.entries[x] == cur[x]);
                            }
                        }
                    }
                },
                Some(j) => {
                    let stored: &(SocketAddress, Metadata) = vstd::slice::slice_index_get(
                        self.entries.as_slice(),
                        j,
                    );
                    let unchanged = stored.1.same_as(&m);
                    proof {
                        assert(stored.1@ == cur[j as int].1);
                        assert(spec_get(cur, e.0) == Some(cur[j as int].1));
                    }
                    if unchanged {
                        proof {
                            assert(spec_union_step(cur, e) == (cur, Seq::<ChangeView>::empty()));
                            assert(spec_union(cur, rest).0 == spec_union(
                                cur,
                                insv.skip(i + 1),
                            ).0);
                            assert(spec_union(cur, rest).1 =~= Seq::<ChangeView>::empty()
                                + spec_union(cur, insv.skip(i + 1)).1);
                            assert(spec_union(cur, rest).1 =~= spec_union(
                                cur,
                                insv.skip(i + 1),
                            ).1);
                        }
                    } else {
                        let ghost entprev = self.entries@;
                        let ghost chprev = ch@;
                        let ghost put = (k, m);
                        let ev = CacheChange::Modification { key: k, new_value: pr.1.duplicate() };
                        self.entries.set(j, (k, m));
                        ch.push(ev);
                        proof {
                            let ghost evv = ChangeView::Modification { key: e.0, new_value: e.1 };
                            assert(spec_union_step(cur, e) == (
                                spec_set_key(cur, e.0, e.1),
                                seq![evv],
                            ));
                            lemma_set_at(cur, j as int, e.1);
                            lemma_eview_update(entprev, j as int, put);
                            assert(self@.entries =~= spec_set_key(cur, e.0, e.1)) by {
                                assert((put.0, put.1@) == e);
                                assert(cur[j as int].0 == e.0);
                            }
                            lemma_cview_push(chprev, ev);
                            assert(ev@ == evv);
                            assert(cview(ch@) == chmid.push(evv));
                            assert(spec_union(cur, rest).0 == spec_union(
                                self@.entries,
                                insv.skip(i + 1),
                            ).0);
                            assert(spec_union(cur, rest).1 =~= seq![evv] + spec_union(
                                self@.entries,
                                insv.skip(i + 1),
                            ).1);
                            assert(chmid + spec_union(cur, rest).1 =~= cview(ch@) + spec_union(
                                self@.entries,
                                insv.skip(i + 1),
                            ).1);
                            assert(key_uniq(self@.entries)) by {
                                assert forall|x: int, y: int|
                                    0 <= x < y < self@.entries.len() implies self@.entries[x].0
                                    != self@.entries[y].0 by {
                                    assert(self@.entries[x].0 == cur[x].0);
                                    assert(self@.entries[y].0 == cur[y].0);
                                }
                            }
                            assert forall|x: int| 0 <= x < self@.entries.len() implies view_wf(
                                #[trigger] self@.entries[x].1,
                            ) by {
                                if x != j {
                                    assert(self@.entries[x] == cur[x]);
                                }
                            }
                        }
                    }
                },
            }
            i += 1;
        }
        proof {
            assert(insv.skip(ins@.len() as int).len() == 0);
            assert(pre + spec_union(start, insv).1 =~= cview(ch@) + Seq::<ChangeView>::empty());
        }
        ch
    }

    /// Delete each named key that is present, reporting one removal per hit;
    /// absent keys are silent. An armed reset flag first revokes everything,
    /// making the removals themselves no-ops.
    #[verifier::loop_isolation(false)]
    pub fn remove(&mut self, ks: &Vec<SocketAddress>) -> (ch: Vec<CacheChange>)
        requires
            old(self).wf(),
        ensures
            final(self).wf(),
            !final(self)@.reset,
            final(self)@.entries == spec_remove(
                if old(self)@.reset {
                    Seq::<(SocketAddress, MetadataView)>::empty()
                } else {
                    old(self)@.entries
                },
                ks@,
            ).0,
            cview(ch@) == (if old(self)@.reset {
                removal_events(old(self)@.entries)
            } else {
                Seq::<ChangeView>::empty()
            }) + spec_remove(
                if old(self)@.reset {
                    Seq::<(SocketAddress, MetadataView)>::empty()
                } else {
                    old(self)@.entries
                },
                ks@,
            ).1,
    {
        let mut ch: Vec<CacheChange> = Vec::new();
        self.drain_if_reset(&mut ch);
        let ghost start = self@.entries;
        let ghost pre = cview(ch@);
        proof {
            assert(ks@.skip(0) =~= ks@);
        }
        let mut i: usize = 0;
        while i < ks.len()
            invariant
                i <= ks.len(),
                self.wf(),
                !self@.reset,
                spec_remove(start, ks@).0 == spec_remove(self@.entries, ks@.skip(i as int)).0,
                pre + spec_remove(start, ks@).1 == cview(ch@) + spec_remove(
                    self@.entries,
                    ks@.skip(i as int),
                ).1,
            decreases ks.len() - i,
        {
            let k = *vstd::slice::slice_index_get(ks.as_slice(), i);
            let ghost cur = self@.entries;
            let ghost chmid = cview(ch@);
            let ghost rest = ks@.skip(i as int);
            proof {
                assert(rest[0] == k);
                assert(rest.drop_first() =~= ks@.skip(i + 1));
            }
            match self.find(&k) {
                Some(j) => {
                    let ghost entprev = self.entries@;
                    let ghost chprev = ch@;
                    self.entries.remove(j);
                    let ev = CacheChange::Removal { key: k };
                    ch.push(ev);
                    proof {
                        let ghost evv = ChangeView::Removal { key: k };
                        assert(spec_remove_step(cur, k) == (spec_del(cur, k), seq![evv]));
                        lemma_del_at(cur, j as int);
                        lemma_eview_remove(entprev, j as int);
                        assert(self@.entries =~= spec_del(cur, k)) by {
                            assert(cur[j as int].0 == k);
                        }
                        lemma_cview_push(chprev, ev);
                        assert(cview(ch@) == chmid.push(evv));
                        assert(spec_remove(cur, rest).0 == spec_remove(
                            self@.entries,
                            ks@.skip(i + 1),
                        ).0);
                        assert(spec_remove(cur, rest).1 =~= seq![evv] + spec_remove(
                            self@.entries,
                            ks@.skip(i + 1),
                        ).1);
                        assert(chmid + spec_remove(cur, rest).1 =~= cview(ch@) + spec_remove(
                            self@.entries,
                            ks@.skip(i + 1),
                        ).1);
                        assert(key_uniq(self@.entries)) by {
                            assert forall|x: int, y: int|
                                0 <= x < y < self@.entries.len() implies self@.entries[x].0
                                != self@.entries[y].0 by {
                                let px: int = if x < j { x } else { x + 1 };
                                let py: int = if y < j { y } else { y + 1 };
                                assert(self@.entries[x] == cur[px]);
                                assert(self@.entries[y] == cur[py]);
                            }
                        }
                        assert forall|x: int| 0 <= x < self@.entries.len() implies view_wf(
                            #[trigger] self@.entries[x].1,
                        ) by {
                            let px: int = if x < j { x } else { x + 1 };
                            assert(self@.entries[x] == cur[px]);
                        }
                    }
                },
                None => {
                    proof {
                        assert(spec_remove_step(cur, k) == (cur, Seq::<ChangeView>::empty()));
                        assert(spec_remove(cur, rest).0 == spec_remove(cur, ks@.skip(i + 1)).0);
                        assert(spec_remove(cur, rest).1 =~= spec_remove(cur, ks@.skip(i + 1)).1);
                    }
                },
            }
            i += 1;
        }
        proof {
            assert(ks@.skip(ks@.len() as int).len() == 0);
            assert(pre + spec_remove(start, ks@).1 =~= cview(ch@) + Seq::<ChangeView>::empty());
        }
        ch
    }

    /// Revoke every entry, reporting one removal per entry in cache order,
    /// and disarm the reset flag.
    pub fn clear(&mut self) -> (ch: Vec<CacheChange>)
        requires
            old(self).wf(),
        ensures
            final(self).wf(),
            !final(self)@.reset,
            final(self)@.entries == Seq::<(SocketAddress, MetadataView)>::empty(),
            cview(ch@) == removal_events(old(self)@.entries),
    {
        let mut ch: Vec<CacheChange> = Vec::new();
        self.reset = true;
        self.drain_if_reset(&mut ch);
        proof {
            assert(cview(ch@) =~= removal_events(old(self)@.entries));
        }
        ch
    }
}

} // verus!
