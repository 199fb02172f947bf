use cola::{AnchorBias, Replica, TextRange};

#[test]
fn tie_break() {
    // Two peers insert one character each at offset 0 with equal Lamport
    // timestamps: the character of the replica with the higher id comes
    // first everywhere.
    let mut r1 = Replica::new(1, 0);
    let mut r2 = r1.fork(2);
    let ins1 = r1.inserted(0, 1);
    let ins2 = r2.inserted(0, 1);
    let off2_at_1 = r1.integrate_insertion(&ins2).unwrap();
    let off1_at_2 = r2.integrate_insertion(&ins1).unwrap();
    assert_eq!(off2_at_1, 0);
    assert_eq!(off1_at_2, 1);
    assert_eq!(r1.len(), 2);
    assert_eq!(r2.len(), 2);
}

#[test]
fn split_deletion() {
    // A concurrent insertion inside the deleted range splits the deletion
    // into two offset ranges.
    let mut r1 = Replica::new(1, 4);
    let mut r2 = r1.fork(2);
    let del = r1.deleted(1, 3);
    let _ = r2.inserted(2, 1);
    let ranges = r2.integrate_deletion(&del);
    assert_eq!(
        ranges,
        vec![TextRange::new(1, 2), TextRange::new(3, 4)]
    );
}

#[test]
fn causal_backlog() {
    // Three chained insertions delivered in reverse order: the first two
    // wait in the backlog until the one they depend on arrives.
    let mut r1 = Replica::new(1, 2);
    let mut r2 = r1.fork(2);
    let i_c = r1.inserted(2, 1);
    let i_d = r1.inserted(3, 1);
    let i_e = r1.inserted(4, 1);
    assert!(r2.integrate_insertion(&i_e).is_none());
    assert!(r2.integrate_insertion(&i_d).is_none());
    assert_eq!(r2.integrate_insertion(&i_c), Some(2));
    let drained = r2.backlogged_insertions();
    assert_eq!(drained.len(), 2);
    assert_eq!(drained[0].1, 3);
    assert_eq!(drained[1].1, 4);
    assert!(r2.backlogged_insertions().is_empty());
    assert_eq!(r2.len(), 5);
}

#[test]
fn insertion_idempotent() {
    // Integrating the same insertion twice: the second call returns `None`
    // and leaves the state unchanged.
    let mut r1 = Replica::new(1, 2);
    let mut r2 = r1.fork(2);
    let ins = r1.inserted(1, 2);
    assert_eq!(r2.integrate_insertion(&ins), Some(1));
    let len_before = r2.len();
    let runs_before = r2.num_runs();
    assert!(r2.integrate_insertion(&ins).is_none());
    assert_eq!(r2.len(), len_before);
    assert_eq!(r2.num_runs(), runs_before);
}

#[test]
fn deletion_idempotent() {
    // Integrating the same deletion twice: the second call returns no
    // ranges and leaves the state unchanged.
    let mut r1 = Replica::new(1, 5);
    let mut r2 = r1.fork(2);
    let del = r1.deleted(1, 4);
    let ranges = r2.integrate_deletion(&del);
    assert_eq!(ranges, vec![TextRange::new(1, 4)]);
    let len_before = r2.len();
    assert!(r2.integrate_deletion(&del).is_empty());
    assert_eq!(r2.len(), len_before);
}

#[test]
fn ready_operations_commute() {
    // Two causally independent, ready operations integrate to the same
    // state in either order.
    let mut r1 = Replica::new(1, 4);
    let mut r2 = r1.fork(2);
    let r3 = r1.fork(3);
    let a = r1.inserted(0, 1);
    let b = r2.inserted(4, 1);
    let mut ab = r3.fork(31);
    let mut ba = r3.fork(32);
    let _ = ab.integrate_insertion(&a);
    let _ = ab.integrate_insertion(&b);
    let _ = ba.integrate_insertion(&b);
    let _ = ba.integrate_insertion(&a);
    assert_eq!(ab.len(), 6);
    assert!(ab.eq_decoded(&ba));
}

#[test]
fn concurrent_insertions_converge() {
    // The doc-order of concurrently inserted runs is the same at both
    // peers: offsets reported on integration reflect the common order.
    let mut r1 = Replica::new(1, 2);
    let mut r2 = r1.fork(2);
    let insertion_1 = r1.inserted(1, 2);
    let insertion_2 = r2.inserted(0, 1);
    assert_eq!(r1.integrate_insertion(&insertion_2), Some(0));
    assert!(r1.integrate_insertion(&insertion_2).is_none());
    assert_eq!(r2.integrate_insertion(&insertion_1), Some(2));
    assert!(r1.eq_decoded(&r2));
}

#[test]
fn backlogged_deletion_released() {
    // A deletion that depends on an unseen insertion waits in the backlog
    // and is released once the insertion arrives.
    let mut replica1 = Replica::new(1, 5);
    let mut replica2 = replica1.fork(2);
    let mut replica3 = replica2.fork(3);
    let insert = replica1.inserted(5, 7);
    let _ = replica2.integrate_insertion(&insert);
    let delete = replica2.deleted(5, 11);
    let ranges = replica3.integrate_deletion(&delete);
    assert!(ranges.is_empty());
    let _ = replica3.integrate_insertion(&insert);
    let deletions = replica3.backlogged_deletions();
    assert_eq!(deletions, vec![vec![TextRange::new(5, 11)]]);
    assert!(replica3.backlogged_deletions().is_empty());
}

#[test]
fn no_op_operations() {
    // Zero-length edits are explicit no-ops and integrate as identity.
    let mut r1 = Replica::new(1, 3);
    let ins = r1.inserted(1, 0);
    assert_eq!(r1.len(), 3);
    let del = r1.deleted(2, 2);
    assert_eq!(r1.len(), 3);
    let mut r2 = r1.fork(2);
    assert!(r2.integrate_insertion(&ins).is_none());
    assert!(r2.integrate_deletion(&del).is_empty());
    assert_eq!(r2.len(), 3);
}

#[test]
fn empty_document() {
    let r = Replica::new(1, 0);
    assert_eq!(r.len(), 0);
    let a = r.create_anchor(0, AnchorBias::Left);
    assert_eq!(r.resolve_anchor(a), Some(0));
    let b = r.create_anchor(0, AnchorBias::Right);
    assert_eq!(r.resolve_anchor(b), Some(0));
}

#[test]
fn delete_everything() {
    let mut r1 = Replica::new(1, 6);
    let mut r2 = r1.fork(2);
    let del = r1.deleted(0, 6);
    assert_eq!(r1.len(), 0);
    assert_eq!(r2.integrate_deletion(&del), vec![TextRange::new(0, 6)]);
    assert_eq!(r2.len(), 0);
}

#[test]
fn interleaved_typing_converges() {
    // Both peers keep typing at their own ends; everything converges.
    let mut r1 = Replica::new(1, 1);
    let mut r2 = r1.fork(2);
    let a1 = r1.inserted(1, 2);
    let a2 = r1.inserted(3, 1);
    let b1 = r2.inserted(0, 2);
    let b2 = r2.inserted(0, 1);
    let _ = r1.integrate_insertion(&b1);
    let _ = r1.integrate_insertion(&b2);
    let _ = r2.integrate_insertion(&a1);
    let _ = r2.integrate_insertion(&a2);
    assert_eq!(r1.len(), 7);
    assert_eq!(r2.len(), 7);
    assert!(r1.eq_decoded(&r2));
}

#[test]
fn extension_races_concurrent_insertion() {
    // Peer 1 keeps typing at the end of its own run while peer 2
    // concurrently inserts at the same boundary. The concurrent insertion
    // orders between the run and its continuation at every peer, whatever
    // the delivery order.
    let mut r1 = Replica::new(1, 3);
    let mut r2 = r1.fork(2);
    let r3 = r1.fork(3);
    let e1 = r1.inserted(3, 2);
    let c1 = r2.inserted(3, 1);
    assert_eq!(r1.integrate_insertion(&c1), Some(3));
    assert_eq!(r2.integrate_insertion(&e1), Some(4));
    assert!(r1.eq_decoded(&r2));
    // A third peer sees the two operations in both orders.
    let mut r3a = r3.fork(31);
    let mut r3b = r3.fork(32);
    assert_eq!(r3a.integrate_insertion(&c1), Some(3));
    assert_eq!(r3a.integrate_insertion(&e1), Some(4));
    assert_eq!(r3b.integrate_insertion(&e1), Some(3));
    assert_eq!(r3b.integrate_insertion(&c1), Some(3));
    assert!(r3a.eq_decoded(&r3b));
    assert!(r3a.eq_decoded(&r1));
}

#[test]
fn deletions_ordered_per_deleter() {
    // Deletions from one replica integrate only in the order they were
    // made; a later one waits in the backlog.
    let mut r1 = Replica::new(1, 6);
    let mut r2 = r1.fork(2);
    let d1 = r1.deleted(0, 1);
    let d2 = r1.deleted(0, 1);
    assert!(r2.integrate_deletion(&d2).is_empty());
    assert_eq!(r2.integrate_deletion(&d1), vec![TextRange::new(0, 1)]);
    assert_eq!(r2.backlogged_deletions(), vec![vec![TextRange::new(0, 1)]]);
    assert_eq!(r2.len(), 4);
    assert_eq!(r1.len(), 4);
}
