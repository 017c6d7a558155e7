use destination::cache::{Cache, CacheChange};
use destination::meta::Metadata;
use destination::net::SocketAddress;

fn k(n: u32) -> SocketAddress {
    SocketAddress::new_v4(n, 80)
}

fn meta() -> Metadata {
    Metadata::no_endpoint_meta()
}

#[test]
fn p5_remove_is_idempotent() {
    let mut c = Cache::new();
    let ch = c.update_union(&vec![(k(1), meta())]);
    assert_eq!(ch.len(), 1);
    let first = c.remove(&vec![k(1)]);
    assert_eq!(first.len(), 1);
    assert!(matches!(first[0], CacheChange::Removal { key } if key == k(1)));
    let second = c.remove(&vec![k(1)]);
    assert_eq!(second.len(), 0, "removing an absent key is silent");
}

#[test]
fn p1_reset_then_snapshot_leaves_no_ghost_entries() {
    let mut c = Cache::new();
    c.update_union(&vec![(k(1), meta()), (k(2), meta())]);
    c.set_reset_on_next_modification();
    let ch = c.update_union(&vec![(k(2), meta()), (k(3), meta())]);
    // Two synthesized removals (cache order), then the snapshot's inserts.
    assert_eq!(ch.len(), 4);
    assert!(matches!(ch[0], CacheChange::Removal { key } if key == k(1)));
    assert!(matches!(ch[1], CacheChange::Removal { key } if key == k(2)));
    assert!(matches!(ch[2], CacheChange::Insertion { key, .. } if key == k(2)));
    assert!(matches!(ch[3], CacheChange::Insertion { key, .. } if key == k(3)));
    let snap = c.snapshot();
    let keys: Vec<SocketAddress> = snap.iter().map(|e| e.0).collect();
    assert_eq!(keys, vec![k(2), k(3)], "only the new snapshot's keys remain");
}

#[test]
fn p2_unchanged_metadata_emits_nothing() {
    let mut c = Cache::new();
    let ch = c.update_union(&vec![(k(1), meta())]);
    assert_eq!(ch.len(), 1);
    let ch = c.update_union(&vec![(k(1), meta())]);
    assert_eq!(ch.len(), 0, "re-adding identical metadata is silent");
}

#[test]
fn update_union_keeps_unnamed_keys() {
    let mut c = Cache::new();
    c.update_union(&vec![(k(1), meta()), (k(2), meta())]);
    let ch = c.update_union(&vec![(k(3), meta())]);
    assert_eq!(ch.len(), 1);
    let snap = c.snapshot();
    assert_eq!(snap.len(), 3, "keys a union batch does not name stay");
}

#[test]
fn clear_revokes_everything_in_order() {
    let mut c = Cache::new();
    c.update_union(&vec![(k(1), meta()), (k(2), meta())]);
    let ch = c.clear();
    assert_eq!(ch.len(), 2);
    assert!(matches!(ch[0], CacheChange::Removal { key } if key == k(1)));
    assert!(matches!(ch[1], CacheChange::Removal { key } if key == k(2)));
    assert_eq!(c.snapshot().len(), 0);
}

#[test]
fn reset_flag_makes_remove_a_full_drain() {
    let mut c = Cache::new();
    c.update_union(&vec![(k(1), meta())]);
    c.set_reset_on_next_modification();
    // The drain empties the cache first, so the removal itself misses.
    let ch = c.remove(&vec![k(1)]);
    assert_eq!(ch.len(), 1);
    assert!(matches!(ch[0], CacheChange::Removal { key } if key == k(1)));
    assert_eq!(c.snapshot().len(), 0);
}
