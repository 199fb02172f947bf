//! A positional text CRDT.
//!
//! A [`Replica`] tracks the identity and layout of the insertion runs that
//! make up a collaboratively edited character sequence, without storing the
//! characters themselves. Local edits produce [`Insertion`]s and
//! [`Deletion`]s that can be shipped to other peers, and remote operations
//! are integrated back into offsets that are valid against the local buffer.

mod anchor;
mod backlog;
pub mod codec;
mod encoded_replica;
mod idmap;
pub mod laws;
mod replica;
mod run_tree;
mod text;

pub use anchor::{Anchor, AnchorBias, InnerAnchor};
pub use backlog::Backlog;
pub use encoded_replica::{
    deletion_view, enc_envelope, enc_payload, lemma_encode_decode_inverse,
    lemma_envelope_injective, sha256_of, sp_payload, DecodeError, DeletionView, EncodedReplica,
    PayloadView, PROTOCOL_VERSION,
};
pub use idmap::{BaseMap, IdEntry};
pub use replica::{LamportClock, Replica, RunClock};
pub use replica::{entries_geq, sp_drain_deletions, sp_drain_insertions};
pub use run_tree::{
    anchor_has_witness, anchor_names, frag_matches, fragments_disjoint, pieces_of, ranges_sum,
    resolve_formula, run_chars, run_visible_chars, runs_wf, scan_wins, sp_boundary, sp_char_at,
    sp_delete_local, sp_find_fragment, sp_insert_local, sp_merge_deletion, sp_merge_insertion,
    sp_place, sp_scan, total_chars, visible_chars, zero_len_count, EditRun, RunTree,
};
pub use text::{Deletion, Insertion, Text, TextRange};

use vstd::prelude::*;

verus! {

/// The number of characters a replica has integrated, or an offset into the
/// local buffer.
pub type Length = u64;

/// The unique, non-zero identifier of a replica. Id `0` is reserved for the
/// document start/end sentinel anchors.
pub type ReplicaId = u64;

/// A Lamport timestamp: a distributed logical clock value used to totally
/// order concurrent insertion runs that share the same anchor.
pub type LamportTs = u64;

/// A per-replica counter distinguishing separate insertion runs originated
/// by the same replica.
pub type RunTs = u64;

/// A per-replica counter incremented on every local deletion.
pub type DeletionTs = u64;

/// The version of the binary interchange format, bumped on any breaking
/// change.
pub type ProtocolVersion = u16;

} // verus!
