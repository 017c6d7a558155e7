use crate::cache::{key_uniq, spec_del, spec_get, spec_remove, spec_set_key, spec_union,
    spec_union_step, ChangeView};
use crate::labels::{last_value, lemma_merge_props, lookup, sorted_unique, spec_merge};
use crate::meta::MetadataView;
use crate::net::SocketAddress;
use vstd::prelude::*;

verus! {

/// The key an emitted change speaks of.
pub open spec fn change_key(c: ChangeView) -> SocketAddress {
    match c {
        ChangeView::Insertion { key, .. } => key,
        ChangeView::Removal { key } => key,
        ChangeView::Modification { key, .. } => key,
    }
}

/// The metadata the *last* entry of a batch gives a key, if any names it.
pub open spec fn last_meta(
    ins: Seq<(SocketAddress, MetadataView)>,
    k: SocketAddress,
) -> Option<MetadataView>
    decreases ins.len(),
{
    if ins.len() == 0 {
        None
    } else if ins.last().0 == k {
        Some(ins.last().1)
    } else {
        last_meta(ins.drop_last(), k)
    }
}

proof fn lemma_get_push(
    s: Seq<(SocketAddress, MetadataView)>,
    e: (SocketAddress, MetadataView),
    k: SocketAddress,
)
    requires
        spec_get(s, e.0) is None,
    ensures
        spec_get(s.push(e), k) == if spec_get(s, k) is Some {
            spec_get(s, k)
        } else if e.0 == k {
            Some(e.1)
        } else {
            None
        },
    decreases s.len(),
{
    if s.len() == 0 {
        assert(s.push(e)[0] == e);
        assert(s.push(e).drop_first() =~= Seq::<(SocketAddress, MetadataView)>::empty());
        if e.0 != k {
            assert(spec_get(s.push(e), k) == spec_get(s.push(e).drop_first(), k));
            assert(spec_get(s.push(e).drop_first(), k) is None);
        }
    } else {
        assert(s.push(e)[0] == s[0]);
        assert(s.push(e).drop_first() =~= s.drop_first().push(e));
        lemma_get_push(s.drop_first(), e, k);
        if s[0].0 == k {
            assert(spec_get(s.push(e), k) == Some(s[0].1));
            assert(spec_get(s, k) == Some(s[0].1));
        } else {
            assert(spec_get(s.push(e), k) == spec_get(s.drop_first().push(e), k));
            assert(spec_get(s, k) == spec_get(s.drop_first(), k));
        }
    }
}

proof fn lemma_get_set(
    s: Seq<(SocketAddress, MetadataView)>,
    k0: SocketAddress,
    v: MetadataView,
    k: SocketAddress,
)
    ensures
        spec_get(spec_set_key(s, k0, v), k) == if spec_get(s, k) is None {
            spec_get(s, k)
        } else if k0 == k {
            Some(v)
        } else {
            spec_get(s, k)
        },
    decreases s.len(),
{
    if s.len() == 0 {
    } else if s[0].0 == k0 {
        assert(spec_set_key(s, k0, v) == seq![(k0, v)] + s.drop_first());
        assert(spec_set_key(s, k0, v).drop_first() =~= s.drop_first());
        if k0 != k {
            assert(spec_get(spec_set_key(s, k0, v), k) == spec_get(s.drop_first(), k));
        }
    } else {
        assert(spec_set_key(s, k0, v) == seq![s[0]] + spec_set_key(s.drop_first(), k0, v));
        assert(spec_set_key(s, k0, v)[0] == s[0]);
        assert(spec_set_key(s, k0, v).drop_first() =~= spec_set_key(s.drop_first(), k0, v));
        lemma_get_set(s.drop_first(), k0, v, k);
    }
}

proof fn lemma_set_uniq(s: Seq<(SocketAddress, MetadataView)>, k0: SocketAddress, v: MetadataView)
    requires
        key_uniq(s),
    ensures
        key_uniq(spec_set_key(s, k0, v)),
        spec_set_key(s, k0, v).len() == s.len(),
        forall|j: int|
            0 <= j < s.len() ==> (#[trigger] spec_set_key(s, k0, v)[j].0) == s[j].0,
    decreases s.len(),
{
    if s.len() == 0 {
    } else if s[0].0 == k0 {
        assert(spec_set_key(s, k0, v) =~= seq![(k0, v)] + s.drop_first());
    } else {
        assert(key_uniq(s.drop_first()));
        lemma_set_uniq(s.drop_first(), k0, v);
        assert forall|j: int| 0 <= j < s.len() implies (#[trigger] spec_set_key(s, k0, v)[j].0)
            == s[j].0 by {
            if j > 0 {
                assert(spec_set_key(s, k0, v)[j] == spec_set_key(s.drop_first(), k0, v)[j - 1]);
            }
        }
        assert(key_uniq(spec_set_key(s, k0, v))) by {
            assert forall|x: int, y: int|
                0 <= x < y < spec_set_key(s, k0, v).len() implies spec_set_key(s, k0, v)[x].0
                != spec_set_key(s, k0, v)[y].0 by {
                assert(spec_set_key(s, k0, v)[x].0 == s[x].0);
                assert(spec_set_key(s, k0, v)[y].0 == s[y].0);
            }
        }
    }
}

proof fn lemma_push_uniq(s: Seq<(SocketAddress, MetadataView)>, e: (SocketAddress, MetadataView))
    requires
        key_uniq(s),
        spec_get(s, e.0) is None,
    ensures
        key_uniq(s.push(e)),
{
    crate::cache::lemma_get_none_absent(s, e.0);
    assert forall|x: int, y: int| 0 <= x < y < s.push(e).len() implies s.push(e)[x].0 != s.push(
        e,
    )[y].0 by {
        if y == s.len() {
            assert(s.push(e)[x] == s[x]);
            assert(s.push(e)[y] == e);
        } else {
            assert(s.push(e)[x] == s[x]);
            assert(s.push(e)[y] == s[y]);
        }
    }
}

/// Like `last_meta`, looking past the head of the batch.
proof fn lemma_last_meta_drop_first(ins: Seq<(SocketAddress, MetadataView)>, k: SocketAddress)
    requires
        ins.len() > 0,
    ensures
        last_meta(ins.drop_first(), k) is Some ==> last_meta(ins, k) == last_meta(
            ins.drop_first(),
            k,
        ),
        last_meta(ins.drop_first(), k) is None && ins[0].0 == k ==> last_meta(ins, k) == Some(
            ins[0].1,
        ),
        last_meta(ins.drop_first(), k) is None && ins[0].0 != k ==> last_meta(ins, k) is None,
    decreases ins.len(),
{
    if ins.len() == 1 {
        assert(ins.drop_first() =~= Seq::<(SocketAddress, MetadataView)>::empty());
        assert(ins.last() == ins[0]);
    } else {
        assert(ins.drop_first().last() == ins.last());
        if ins.last().0 == k {
        } else {
            assert(ins.drop_last().len() > 0);
            assert(ins.drop_last().drop_first() =~= ins.drop_first().drop_last());
            lemma_last_meta_drop_first(ins.drop_last(), k);
        }
    }
}

/// What a union batch leaves under each key: the batch's own last word for
/// keys it names, the prior value for the rest. Keys stay unique.
pub proof fn lemma_union_lookup(
    s: Seq<(SocketAddress, MetadataView)>,
    ins: Seq<(SocketAddress, MetadataView)>,
)
    requires
        key_uniq(s),
    ensures
        key_uniq(spec_union(s, ins).0),
        forall|k: SocketAddress|
            #[trigger] spec_get(spec_union(s, ins).0, k) == if last_meta(ins, k) is Some {
                last_meta(ins, k)
            } else {
                spec_get(s, k)
            },
    decreases ins.len(),
{
    if ins.len() == 0 {
    } else {
        let e = ins[0];
        let s1 = spec_union_step(s, e).0;
        assert(key_uniq(s1) && (forall|k: SocketAddress|
            #[trigger] spec_get(s1, k) == if e.0 == k {
                Some(e.1)
            } else {
                spec_get(s, k)
            })) by {
            match spec_get(s, e.0) {
                None => {
                    lemma_push_uniq(s, e);
                    assert forall|k: SocketAddress| true implies #[trigger] spec_get(s1, k) == (
                    if e.0 == k {
                        Some(e.1)
                    } else {
                        spec_get(s, k)
                    }) by {
                        lemma_get_push(s, e, k);
                    }
                },
                Some(v) => {
                    if v != e.1 {
                        lemma_set_uniq(s, e.0, e.1);
                        assert forall|k: SocketAddress| true implies #[trigger] spec_get(s1, k)
                            == (if e.0 == k {
                            Some(e.1)
                        } else {
                            spec_get(s, k)
                        }) by {
                            lemma_get_set(s, e.0, e.1, k);
                        }
                    }
                },
            }
        }
        lemma_union_lookup(s1, ins.drop_first());
        assert forall|k: SocketAddress| true implies #[trigger] spec_get(spec_union(s, ins).0, k)
            == (if last_meta(ins, k) is Some {
            last_meta(ins, k)
        } else {
            spec_get(s, k)
        }) by {
            lemma_last_meta_drop_first(ins, k);
        }
    }
}

/// Reconnect fidelity: after a disconnect arms the reset flag, the next
/// snapshot batch alone determines the cache. Every key maps to the
/// snapshot's last word on it, and a key the snapshot does not name is
/// absent: no ghost entries survive from before the disconnect.
pub proof fn lemma_reconnect_fidelity(ins: Seq<(SocketAddress, MetadataView)>)
    ensures
        key_uniq(spec_union(Seq::<(SocketAddress, MetadataView)>::empty(), ins).0),
        forall|k: SocketAddress|
            #[trigger] spec_get(
                spec_union(Seq::<(SocketAddress, MetadataView)>::empty(), ins).0,
                k,
            ) == last_meta(ins, k),
{
    lemma_union_lookup(Seq::<(SocketAddress, MetadataView)>::empty(), ins);
}

/// At most one Add per key per attach: a responder is caught up with one
/// `Add` per cached key on attach, and a union batch that does not change
/// a key's metadata emits no event for it at all, so the count of `Add`s
/// for the key stays one plus the number of actual metadata changes.
pub proof fn lemma_at_most_one_add_per_key(
    s: Seq<(SocketAddress, MetadataView)>,
    ins: Seq<(SocketAddress, MetadataView)>,
    k: SocketAddress,
)
    requires
        key_uniq(s),
        forall|i: int|
            0 <= i < ins.len() ==> ((#[trigger] ins[i]).0 == k ==> spec_get(s, k) == Some(
                ins[i].1,
            )),
    ensures
        forall|j: int|
            0 <= j < spec_union(s, ins).1.len() ==> change_key(
                #[trigger] spec_union(s, ins).1[j],
            ) != k,
    decreases ins.len(),
{
    if ins.len() == 0 {
    } else {
        let e = ins[0];
        let (s1, ev1) = spec_union_step(s, e);
        if e.0 == k {
            assert(spec_get(s, k) == Some(e.1));
            assert(s1 == s && ev1 == Seq::<ChangeView>::empty());
        } else {
            match spec_get(s, e.0) {
                None => {
                    lemma_push_uniq(s, e);
                    lemma_get_push(s, e, k);
                    assert(spec_get(s1, k) == spec_get(s, k));
                },
                Some(v) => {
                    if v != e.1 {
                        lemma_set_uniq(s, e.0, e.1);
                        lemma_get_set(s, e.0, e.1, k);
                        assert(spec_get(s1, k) == spec_get(s, k));
                    }
                },
            }
        }
        assert(key_uniq(s1) && spec_get(s1, k) == spec_get(s, k)) by {
            if e.0 != k {
            } else {
            }
        }
        assert(forall|i: int|
            0 <= i < ins.drop_first().len() ==> ((#[trigger] ins.drop_first()[i]).0 == k
                ==> spec_get(s1, k) == Some(ins.drop_first()[i].1)));
        lemma_at_most_one_add_per_key(s1, ins.drop_first(), k);
        assert forall|j: int| 0 <= j < spec_union(s, ins).1.len() implies change_key(
            #[trigger] spec_union(s, ins).1[j],
        ) != k by {
            if j < ev1.len() {
                assert(spec_union(s, ins).1[j] == ev1[j]);
            } else {
                assert(spec_union(s, ins).1[j] == spec_union(s1, ins.drop_first()).1[j
                    - ev1.len()]);
            }
        }
    }
}

/// Idempotent Remove: removing a key twice emits exactly one `Removal` for
/// it (and none at all if it was absent); the second pass is silent.
pub proof fn lemma_remove_idempotent(s: Seq<(SocketAddress, MetadataView)>, k: SocketAddress)
    requires
        key_uniq(s),
    ensures
        ({
            let first = spec_remove(s, seq![k]);
            let second = spec_remove(first.0, seq![k]);
            first.1 + second.1 == if spec_get(s, k) is Some {
                seq![ChangeView::Removal { key: k }]
            } else {
                Seq::<ChangeView>::empty()
            }
        }),
{
    let ks = seq![k];
    assert(ks[0] == k);
    assert(ks.drop_first() =~= Seq::<SocketAddress>::empty());
    lemma_del_gone(s, k);
    let step = crate::cache::spec_remove_step(s, k);
    assert(spec_remove(step.0, ks.drop_first()) == (step.0, Seq::<ChangeView>::empty()));
    let first = spec_remove(s, ks);
    assert(first.0 == step.0);
    assert(first.1 == step.1 + Seq::<ChangeView>::empty());
    let step2 = crate::cache::spec_remove_step(first.0, k);
    assert(spec_remove(step2.0, ks.drop_first()) == (step2.0, Seq::<ChangeView>::empty()));
    let second = spec_remove(first.0, ks);
    assert(second.1 == step2.1 + Seq::<ChangeView>::empty());
    if spec_get(s, k) is Some {
        assert(first.0 == spec_del(s, k));
        assert(spec_get(first.0, k) is None);
        assert(step2.1 == Seq::<ChangeView>::empty());
        assert(first.1 + second.1 =~= seq![ChangeView::Removal { key: k }]);
    } else {
        assert(first.0 == s);
        assert(step.1 == Seq::<ChangeView>::empty());
        assert(step2.1 == Seq::<ChangeView>::empty());
        assert(first.1 + second.1 =~= Seq::<ChangeView>::empty());
    }
}

/// After a deletion the key really is gone.
proof fn lemma_del_gone(s: Seq<(SocketAddress, MetadataView)>, k: SocketAddress)
    requires
        key_uniq(s),
    ensures
        spec_get(spec_del(s, k), k) is None,
    decreases s.len(),
{
    if s.len() == 0 {
    } else if s[0].0 == k {
        assert(spec_del(s, k) == s.drop_first());
        assert forall|j: int| 0 <= j < s.drop_first().len() implies (#[trigger] s.drop_first()[j].0)
            != k by {
            assert(s.drop_first()[j] == s[j + 1]);
        }
        crate::cache::lemma_get_absent(s.drop_first(), k);
    } else {
        assert(key_uniq(s.drop_first()));
        lemma_del_gone(s.drop_first(), k);
        assert(spec_del(s, k) == seq![s[0]] + spec_del(s.drop_first(), k));
        assert(spec_del(s, k)[0] == s[0]);
        assert(spec_del(s, k).drop_first() =~= spec_del(s.drop_first(), k));
    }
}

/// Label sort stability: for any entry, the stored label list is the
/// key-sorted merge of the set-level and per-endpoint labels, and on a
/// shared key the per-endpoint value wins (its list is folded second).
pub proof fn lemma_label_sort_stability(
    set_labels: Seq<(Seq<u8>, Seq<u8>)>,
    addr_labels: Seq<(Seq<u8>, Seq<u8>)>,
)
    ensures
        ({
            let merged = spec_merge(
                spec_merge(Seq::<(Seq<u8>, Seq<u8>)>::empty(), set_labels),
                addr_labels,
            );
            &&& sorted_unique(merged)
            &&& forall|k: Seq<u8>|
                #[trigger] lookup(merged, k) == if last_value(addr_labels, k) is Some {
                    last_value(addr_labels, k)
                } else {
                    last_value(set_labels, k)
                }
        }),
{
    let base = spec_merge(Seq::<(Seq<u8>, Seq<u8>)>::empty(), set_labels);
    lemma_merge_props(Seq::<(Seq<u8>, Seq<u8>)>::empty(), set_labels);
    lemma_merge_props(base, addr_labels);
}


/// How many emitted events speak of `k`.
pub open spec fn events_for(ch: Seq<ChangeView>, k: SocketAddress) -> nat
    decreases ch.len(),
{
    if ch.len() == 0 {
        0
    } else {
        events_for(ch.drop_first(), k) + if change_key(ch[0]) == k {
            1nat
        } else {
            0nat
        }
    }
}

proof fn lemma_events_for_concat(a: Seq<ChangeView>, b: Seq<ChangeView>, k: SocketAddress)
    ensures
        events_for(a + b, k) == events_for(a, k) + events_for(b, k),
    decreases a.len(),
{
    if a.len() == 0 {
        assert(a + b =~= b);
    } else {
        assert((a + b)[0] == a[0]);
        assert((a + b).drop_first() =~= a.drop_first() + b);
        lemma_events_for_concat(a.drop_first(), b, k);
    }
}

/// A union batch emits events only for keys it names.
proof fn lemma_events_only_batch_keys(
    s: Seq<(SocketAddress, MetadataView)>,
    ins: Seq<(SocketAddress, MetadataView)>,
    k: SocketAddress,
)
    requires
        forall|i: int| 0 <= i < ins.len() ==> (#[trigger] ins[i]).0 != k,
    ensures
        events_for(spec_union(s, ins).1, k) == 0,
    decreases ins.len(),
{
    if ins.len() > 0 {
        let e = ins[0];
        let (s1, ev1) = spec_union_step(s, e);
        assert(forall|i: int|
            0 <= i < ins.drop_first().len() ==> (#[trigger] ins.drop_first()[i]).0 != k);
        lemma_events_only_batch_keys(s1, ins.drop_first(), k);
        lemma_events_for_concat(ev1, spec_union(s1, ins.drop_first()).1, k);
        assert(events_for(ev1, k) == 0) by {
            if ev1.len() > 0 {
                assert(change_key(ev1[0]) == e.0);
                assert(ev1.drop_first() =~= Seq::<ChangeView>::empty());
                assert(events_for(ev1.drop_first(), k) == 0);
            }
        }
    }
}

/// The exact count behind the one-Add-per-key property: in a batch with
/// unique keys, a key it does not change gets no event, and a key it
/// inserts or whose metadata it replaces gets exactly one.
pub proof fn lemma_one_event_per_key(
    s: Seq<(SocketAddress, MetadataView)>,
    ins: Seq<(SocketAddress, MetadataView)>,
    k: SocketAddress,
    i: int,
)
    requires
        key_uniq(s),
        key_uniq(ins),
        0 <= i < ins.len(),
        ins[i].0 == k,
    ensures
        events_for(spec_union(s, ins).1, k) == if spec_get(s, k) == Some(ins[i].1) {
            0nat
        } else {
            1nat
        },
    decreases ins.len(),
{
    let e = ins[0];
    let (s1, ev1) = spec_union_step(s, e);
    if i == 0 {
        assert(forall|j: int|
            0 <= j < ins.drop_first().len() ==> (#[trigger] ins.drop_first()[j]).0 != k) by {
            assert forall|j: int|
                0 <= j < ins.drop_first().len() implies (#[trigger] ins.drop_first()[j]).0
                != k by {
                assert(ins.drop_first()[j] == ins[j + 1]);
            }
        }
        lemma_events_only_batch_keys(s1, ins.drop_first(), k);
        lemma_events_for_concat(ev1, spec_union(s1, ins.drop_first()).1, k);
        assert(events_for(ev1, k) == if spec_get(s, k) == Some(e.1) {
            0nat
        } else {
            1nat
        }) by {
            if ev1.len() > 0 {
                assert(change_key(ev1[0]) == k);
                assert(ev1.drop_first() =~= Seq::<ChangeView>::empty());
                assert(events_for(ev1.drop_first(), k) == 0);
            }
        }
    } else {
        assert(e.0 != k);
        assert(key_uniq(s1) && spec_get(s1, k) == spec_get(s, k)) by {
            match spec_get(s, e.0) {
                None => {
                    lemma_push_uniq(s, e);
                    lemma_get_push(s, e, k);
                },
                Some(v) => {
                    if v != e.1 {
                        lemma_set_uniq(s, e.0, e.1);
                        lemma_get_set(s, e.0, e.1, k);
                    }
                },
            }
        }
        assert(key_uniq(ins.drop_first()));
        assert(ins.drop_first()[i - 1] == ins[i]);
        lemma_one_event_per_key(s1, ins.drop_first(), k, i - 1);
        lemma_events_for_concat(ev1, spec_union(s1, ins.drop_first()).1, k);
        assert(events_for(ev1, k) == 0) by {
            if ev1.len() > 0 {
                assert(change_key(ev1[0]) == e.0);
                assert(ev1.drop_first() =~= Seq::<ChangeView>::empty());
                assert(events_for(ev1.drop_first(), k) == 0);
            }
        }
    }
}

} // verus!
