use cola::{AnchorBias, Replica};

#[test]
fn anchor_resolves_immediately() {
    // An anchor created at offset `k` resolves to `k` right away, for both
    // biases and at both ends.
    let r = Replica::new(1, 10);
    for k in 0..=10u64 {
        let left = r.create_anchor(k, AnchorBias::Left);
        assert_eq!(r.resolve_anchor(left), Some(k), "left bias at {k}");
        let right = r.create_anchor(k, AnchorBias::Right);
        assert_eq!(r.resolve_anchor(right), Some(k), "right bias at {k}");
    }
}

#[test]
fn bias_decides_movement() {
    // Two anchors at the same offset with different biases: an insertion
    // between the two characters moves only the right-biased one.
    let mut replica = Replica::new(1, 2);
    let right_of_a = replica.create_anchor(1, AnchorBias::Left);
    let left_of_b = replica.create_anchor(1, AnchorBias::Right);
    let _ = replica.inserted(1, 1);
    assert_eq!(replica.resolve_anchor(right_of_a), Some(1));
    assert_eq!(replica.resolve_anchor(left_of_b), Some(2));
}

#[test]
fn anchor_survives_deletion() {
    // The anchored character is deleted: the anchor resolves to the offset
    // where the surviving neighbours now touch.
    let mut r = Replica::new(1, 11);
    let a = r.create_anchor(9, AnchorBias::Left);
    let _ = r.deleted(5, 10);
    assert_eq!(r.resolve_anchor(a), Some(5));
}

#[test]
fn document_start_sentinel() {
    // `create_anchor(0, Left)` always resolves to 0, however much is
    // inserted in front.
    let mut replica = Replica::new(1, 5);
    let start = replica.create_anchor(0, AnchorBias::Left);
    let _ = replica.inserted(0, 5);
    let _ = replica.inserted(0, 5);
    assert_eq!(replica.resolve_anchor(start), Some(0));
}

#[test]
fn document_end_sentinel() {
    // `create_anchor(len, Right)` always resolves to the current length,
    // however much is appended.
    let mut r = Replica::new(1, 5);
    let end = r.create_anchor(5, AnchorBias::Right);
    let _ = r.inserted(5, 5);
    let _ = r.inserted(10, 5);
    assert_eq!(r.len(), 15);
    assert_eq!(r.resolve_anchor(end), Some(15));
}

#[test]
fn unknown_anchor_is_none() {
    // An anchor into an insertion the peer has not integrated cannot be
    // resolved until that insertion arrives.
    let mut peer_1 = Replica::new(1, 10);
    let mut peer_2 = peer_1.fork(2);
    let insertion_at_2 = peer_2.inserted(10, 10);
    let anchor = peer_2.create_anchor(15, AnchorBias::Left);
    assert_eq!(peer_1.resolve_anchor(anchor), None);
    peer_1.integrate_insertion(&insertion_at_2);
    assert_eq!(peer_1.resolve_anchor(anchor), Some(15));
}

#[test]
fn anchor_stable_under_remote_edits() {
    // Edits that do not delete the anchored character keep both edges of
    // the character anchored.
    let mut r1 = Replica::new(1, 4);
    let mut r2 = r1.fork(2);
    let left = r1.create_anchor(2, AnchorBias::Left);
    let right = r1.create_anchor(2, AnchorBias::Right);
    // A remote insertion in front shifts both anchors.
    let ins = r2.inserted(0, 3);
    let _ = r1.integrate_insertion(&ins);
    assert_eq!(r1.resolve_anchor(left), Some(5));
    assert_eq!(r1.resolve_anchor(right), Some(5));
    // Deleting other characters to the left shifts them back.
    let _ = r1.deleted(0, 2);
    assert_eq!(r1.resolve_anchor(left), Some(3));
    assert_eq!(r1.resolve_anchor(right), Some(3));
}
