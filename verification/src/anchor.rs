//! Stable positional references.

use vstd::prelude::*;

use crate::{Length, ReplicaId, RunTs};

verus! {

/// A bias to use when creating an [`Anchor`].
///
/// The bias tells the replica whether the anchor should stick to the left or
/// to the right side of the position at the given offset.
#[derive(Debug, Copy, Clone, PartialEq, Eq, Structural)]
pub enum AnchorBias {
    /// The anchor attaches to the left.
    Left,

    /// The anchor attaches to the right.
    Right,
}

/// The identity of a position between two characters, named by the character
/// immediately to its left.
///
/// An inner anchor `(replica_id, run_ts, offset)` denotes the position right
/// after the `offset - 1`-th character ever inserted by `replica_id`, which
/// lives in the run with timestamp `run_ts`. The special value with
/// `replica_id == 0` denotes the start (or, with a right bias, the end) of
/// the document.
#[derive(Debug, Copy, Clone, PartialEq, Eq, Structural)]
pub struct InnerAnchor {
    /// The replica that inserted the character this anchor attaches to.
    pub replica_id: ReplicaId,

    /// The run timestamp of the run containing that character.
    pub contained_in: RunTs,

    /// One past the character's index in its replica's character space.
    pub offset: Length,
}

impl InnerAnchor {
    /// Whether this is the reserved document sentinel anchor.
    pub fn is_zero(&self) -> (r: bool)
        ensures
            r == self.is_zero_spec(),
    {
        self.replica_id == 0
    }

    pub open spec fn is_zero_spec(&self) -> bool {
        self.replica_id == 0
    }

    /// A well-formed anchor either is the zero sentinel with all fields zero,
    /// or names a real character, whose index `offset - 1` is at least 0.
    pub open spec fn wf(&self) -> bool {
        if self.replica_id == 0 {
            self.offset == 0 && self.contained_in == 0
        } else {
            self.offset >= 1
        }
    }

    pub fn new(replica_id: ReplicaId, offset: Length, run_ts: RunTs) -> (r: Self)
        ensures
            r.replica_id == replica_id,
            r.offset == offset,
            r.contained_in == run_ts,
    {
        Self { replica_id, offset, contained_in: run_ts }
    }

    pub fn offset(&self) -> (r: Length)
        ensures
            r == self.offset,
    {
        self.offset
    }

    pub fn replica_id(&self) -> (r: ReplicaId)
        ensures
            r == self.replica_id,
    {
        self.replica_id
    }

    pub fn run_ts(&self) -> (r: RunTs)
        ensures
            r == self.contained_in,
    {
        self.contained_in
    }

    pub open spec fn spec_offset(&self) -> Length {
        self.offset
    }

    pub open spec fn spec_replica_id(&self) -> ReplicaId {
        self.replica_id
    }

    pub open spec fn spec_run_ts(&self) -> RunTs {
        self.contained_in
    }

    /// The special value used to anchor to the start or the end of the
    /// document.
    pub fn zero() -> (r: Self)
        ensures
            r == Self::zero_spec(),
    {
        Self { replica_id: 0, offset: 0, contained_in: 0 }
    }

    pub open spec fn zero_spec() -> Self {
        InnerAnchor { replica_id: 0, offset: 0, contained_in: 0 }
    }
}

/// A stable reference to a position in a [`Replica`](crate::Replica).
///
/// After its creation, an `Anchor` can be given back to a replica to
/// retrieve the current offset of the position it refers to, taking into
/// account all the edits that have been applied in the meantime.
#[derive(Debug, Copy, Clone, PartialEq, Eq, Structural)]
pub struct Anchor {
    pub inner: InnerAnchor,
    pub bias: AnchorBias,
}

impl Anchor {
    pub fn bias(&self) -> (r: AnchorBias)
        ensures
            r == self.bias,
    {
        self.bias
    }

    pub open spec fn spec_bias(&self) -> AnchorBias {
        self.bias
    }

    pub fn inner(&self) -> (r: InnerAnchor)
        ensures
            r == self.inner,
    {
        self.inner
    }

    pub open spec fn spec_inner(&self) -> InnerAnchor {
        self.inner
    }

    pub open spec fn wf(&self) -> bool {
        self.inner.wf()
    }

    pub fn new(inner: InnerAnchor, bias: AnchorBias) -> (r: Self)
        ensures
            r.inner == inner,
            r.bias == bias,
    {
        Self { inner, bias }
    }

    /// The anchor that always resolves to offset 0.
    pub fn start_of_document() -> (r: Self)
        ensures
            r == Self::start_of_document_spec(),
    {
        Self { inner: InnerAnchor::zero(), bias: AnchorBias::Left }
    }

    pub open spec fn start_of_document_spec() -> Self {
        Anchor { inner: InnerAnchor::zero_spec(), bias: AnchorBias::Left }
    }

    /// The anchor that always resolves to the current document length.
    pub fn end_of_document() -> (r: Self)
        ensures
            r == Self::end_of_document_spec(),
    {
        Self { inner: InnerAnchor::zero(), bias: AnchorBias::Right }
    }

    pub open spec fn end_of_document_spec() -> Self {
        Anchor { inner: InnerAnchor::zero_spec(), bias: AnchorBias::Right }
    }

    pub fn is_start_of_document(&self) -> (r: bool)
        ensures
            r == (*self == Self::start_of_document_spec()),
    {
        self.inner == InnerAnchor::zero() && matches!(self.bias, AnchorBias::Left)
    }

    pub fn is_end_of_document(&self) -> (r: bool)
        ensures
            r == (*self == Self::end_of_document_spec()),
    {
        self.inner == InnerAnchor::zero() && matches!(self.bias, AnchorBias::Right)
    }
}

} // verus!
