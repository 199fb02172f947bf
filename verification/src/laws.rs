//! Laws of the replica API: idempotent integration and exact anchor
//! resolution.
//!
//! Together with the contracts of
//! [`Replica::integrate_insertion`](crate::Replica::integrate_insertion),
//! [`Replica::integrate_deletion`](crate::Replica::integrate_deletion),
//! [`Replica::create_anchor`](crate::Replica::create_anchor) and
//! [`Replica::resolve_anchor`](crate::Replica::resolve_anchor), these
//! lemmas show that integrating the same operation twice is harmless and
//! that a fresh anchor resolves to the offset it was created at.

use vstd::prelude::*;

use crate::run_tree::{
    anchor_has_witness, anchor_names, frag_matches, fragments_disjoint, resolve_formula, EditRun,
};
use crate::{AnchorBias, Deletion, InnerAnchor, Insertion, Length, Replica};

verus! {

/// **An anchor created at offset `k` resolves to `k` immediately.**
///
/// `create_anchor` promises an anchor that names the visible character
/// beside the offset, witnessed by some fragment, and `resolve_anchor`
/// promises an offset computed from a fragment `k` holding the anchor's
/// character. On a tree whose fragments of one run never overlap — which is
/// true of every tree a replica builds, since splits partition intervals
/// and new runs carry fresh characters — the two fragments coincide, and
/// the resolved offset is exactly the offset the anchor was created at.
pub proof fn lemma_anchor_resolves_immediately(
    s: Seq<EditRun>,
    at_offset: Length,
    bias: AnchorBias,
    a: InnerAnchor,
    k: int,
    off: Length,
)
    requires
        fragments_disjoint(s),
        bias == AnchorBias::Left ==> at_offset >= 1 && anchor_has_witness(s, at_offset - 1, a),
        bias == AnchorBias::Right ==> anchor_has_witness(s, at_offset as int, a),
        frag_matches(s, k, a),
        off == resolve_formula(s, k, a, bias),
    ensures
        off == at_offset,
{
    let p: int = if bias == AnchorBias::Left {
        at_offset - 1
    } else {
        at_offset as int
    };
    let f = choose|f: int| anchor_names(s, f, p, a);
    assert(anchor_names(s, f, p, a));
    assert(frag_matches(s, f, a));
    if k != f {
        if k < f {
            assert(s[k].hi <= s[f].lo || s[f].hi <= s[k].lo);
        } else {
            assert(s[f].hi <= s[k].lo || s[k].hi <= s[f].lo);
        }
    }
}

/// Integrating the same insertion twice: applying an insertion leaves the
/// replica counting `text.end` characters from the inserter, which makes
/// the insertion merged, so by the contract of `integrate_insertion` the
/// second call returns `None` and leaves the state unchanged.
pub proof fn lemma_insertion_idempotent(post: Replica, ins: Insertion)
    requires
        ins.wf(),
        !ins.is_no_op_spec(),
        post.seen_spec(ins.inserted_by_spec()) == ins.text.end,
    ensures
        post.has_merged_insertion_spec(ins),
{
}

/// Integrating the same deletion twice: applying a deletion leaves the
/// replica recording the deleter's timestamp, which makes the deletion
/// merged, so by the contract of `integrate_deletion` the second call
/// returns no ranges and leaves the state unchanged.
pub proof fn lemma_deletion_idempotent(post: Replica, del: Deletion)
    requires
        del.wf(),
        post.deletion_seen_spec(del.deleted_by) == del.deletion_ts,
    ensures
        post.has_merged_deletion_spec(del),
{
}

/// A backlogged operation is untouched state: backlogging changes neither
/// the run tree nor any counter, so whether an operation is ready is
/// unaffected by other operations waiting in the backlog.
pub proof fn lemma_backlogged_keeps_readiness(pre: Replica, post: Replica, ins: Insertion)
    requires
        pre.run_tree == post.run_tree,
        pre.version_map == post.version_map,
        pre.deletion_map == post.deletion_map,
    ensures
        post.can_merge_insertion_spec(ins) == pre.can_merge_insertion_spec(ins),
        post.has_merged_insertion_spec(ins) == pre.has_merged_insertion_spec(ins),
{
}

} // verus!
