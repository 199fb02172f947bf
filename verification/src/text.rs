//! The value types that describe edits: character intervals, insertions and
//! deletions.

use vstd::prelude::*;

use crate::{BaseMap, DeletionTs, InnerAnchor, LamportTs, Length, ReplicaId, RunTs};

verus! {

/// A contiguous interval `[start, end)` of the characters inserted by one
/// replica, numbered in the order they were inserted.
///
/// The characters themselves are not stored anywhere: a `Text` is pure
/// bookkeeping that identifies them.
#[derive(Debug, Copy, Clone, PartialEq, Eq, Structural)]
pub struct Text {
    pub inserter: ReplicaId,
    pub start: Length,
    pub end: Length,
}

impl Text {
    pub open spec fn wf(&self) -> bool {
        self.start <= self.end
    }

    pub open spec fn len_spec(&self) -> int {
        self.end - self.start
    }

    pub fn new(inserter: ReplicaId, start: Length, end: Length) -> (r: Self)
        requires
            start <= end,
        ensures
            r == (Text { inserter, start, end }),
    {
        Self { inserter, start, end }
    }

    pub fn len(&self) -> (r: Length)
        requires
            self.wf(),
        ensures
            r == self.len_spec(),
    {
        self.end - self.start
    }

    pub fn inserted_by(&self) -> (r: ReplicaId)
        ensures
            r == self.inserter,
    {
        self.inserter
    }
}

/// A half-open offset range `[start, end)` into the local buffer.
#[derive(Debug, Copy, Clone, PartialEq, Eq, Structural)]
pub struct TextRange {
    pub start: Length,
    pub end: Length,
}

impl TextRange {
    pub open spec fn wf(&self) -> bool {
        self.start <= self.end
    }

    pub fn new(start: Length, end: Length) -> (r: Self)
        ensures
            r == (TextRange { start, end }),
    {
        Self { start, end }
    }
}

/// An insertion operation, produced by
/// [`Replica::inserted`](crate::Replica::inserted) and integrated by every
/// other replica with
/// [`Replica::integrate_insertion`](crate::Replica::integrate_insertion).
#[derive(Debug, Copy, Clone, PartialEq, Eq, Structural)]
pub struct Insertion {
    /// The position the new characters were inserted at, named by the
    /// character to their left (or the document-start sentinel).
    pub anchor: InnerAnchor,

    /// The identity of the inserted characters.
    pub text: Text,

    /// The Lamport timestamp of the run the characters belong to.
    pub lamport_ts: LamportTs,

    /// The run timestamp of the run the characters belong to.
    pub run_ts: RunTs,
}

impl Insertion {
    pub open spec fn wf(&self) -> bool {
        &&& self.text.wf()
        &&& self.anchor.wf()
        &&& self.text.inserter != 0
    }

    /// The first character timestamp of the inserted text.
    pub open spec fn start_spec(&self) -> Length {
        self.text.start
    }

    pub open spec fn len_spec(&self) -> int {
        self.text.len_spec()
    }

    pub open spec fn inserted_by_spec(&self) -> ReplicaId {
        self.text.inserter
    }

    pub open spec fn is_no_op_spec(&self) -> bool {
        self.text.start == self.text.end
    }

    pub fn new(anchor: InnerAnchor, text: Text, lamport_ts: LamportTs, run_ts: RunTs) -> (r: Self)
        ensures
            r == (Insertion { anchor, text, lamport_ts, run_ts }),
    {
        Self { anchor, text, lamport_ts, run_ts }
    }

    /// The insertion that carries no characters and leaves every replica
    /// unchanged.
    pub fn no_op() -> (r: Self)
        ensures
            r.is_no_op_spec(),
            r.wf(),
    {
        Self {
            anchor: InnerAnchor::zero(),
            text: Text { inserter: 1, start: 0, end: 0 },
            lamport_ts: 0,
            run_ts: 0,
        }
    }

    pub fn is_no_op(&self) -> (r: bool)
        ensures
            r == self.is_no_op_spec(),
    {
        self.text.start == self.text.end
    }

    pub fn anchor(&self) -> (r: InnerAnchor)
        ensures
            r == self.anchor,
    {
        self.anchor
    }

    pub fn text(&self) -> (r: Text)
        ensures
            r == self.text,
    {
        self.text
    }

    pub fn start(&self) -> (r: Length)
        ensures
            r == self.start_spec(),
    {
        self.text.start
    }

    pub fn len(&self) -> (r: Length)
        requires
            self.wf(),
        ensures
            r == self.len_spec(),
    {
        self.text.len()
    }

    pub fn inserted_by(&self) -> (r: ReplicaId)
        ensures
            r == self.inserted_by_spec(),
    {
        self.text.inserter
    }
}

/// A deletion operation, produced by
/// [`Replica::deleted`](crate::Replica::deleted) and integrated by every
/// other replica with
/// [`Replica::integrate_deletion`](crate::Replica::integrate_deletion).
#[derive(Debug, Clone, PartialEq, Eq)]
pub struct Deletion {
    /// The boundary to the left of the first deleted character.
    pub start: InnerAnchor,

    /// The boundary to the right of the last deleted character.
    pub end: InnerAnchor,

    /// For every replica owning characters inside the deleted region, how
    /// many of its characters the deleting replica had integrated when it
    /// deleted. Characters unknown to the deleter are skipped when the
    /// deletion is integrated.
    pub version_map: BaseMap,

    /// The replica that performed the deletion.
    pub deleted_by: ReplicaId,

    /// The deleter's deletion timestamp for this operation.
    pub deletion_ts: DeletionTs,
}

impl Deletion {
    pub open spec fn wf(&self) -> bool {
        &&& self.start.wf()
        &&& self.end.wf()
        &&& self.version_map.wf()
        &&& (self.deleted_by == 0 ==> (self.deletion_ts == 0 && self.start.is_zero_spec()
            && self.end.is_zero_spec()))
    }

    pub open spec fn is_no_op_spec(&self) -> bool {
        self.deleted_by == 0
    }

    pub fn new(
        start: InnerAnchor,
        end: InnerAnchor,
        version_map: BaseMap,
        deleted_by: ReplicaId,
        deletion_ts: DeletionTs,
    ) -> (r: Self)
        ensures
            r == (Deletion { start, end, version_map, deleted_by, deletion_ts }),
    {
        Self { start, end, version_map, deleted_by, deletion_ts }
    }

    /// The deletion that removes nothing and leaves every replica unchanged.
    pub fn no_op() -> (r: Self)
        ensures
            r.is_no_op_spec(),
            r.wf(),
            r.deletion_ts == 0,
    {
        Self {
            start: InnerAnchor::zero(),
            end: InnerAnchor::zero(),
            version_map: BaseMap::new(),
            deleted_by: 0,
            deletion_ts: 0,
        }
    }

    pub fn is_no_op(&self) -> (r: bool)
        ensures
            r == self.is_no_op_spec(),
    {
        self.deleted_by == 0
    }

    pub fn deleted_by(&self) -> (r: ReplicaId)
        ensures
            r == self.deleted_by,
    {
        self.deleted_by
    }

    pub fn deletion_ts(&self) -> (r: DeletionTs)
        ensures
            r == self.deletion_ts,
    {
        self.deletion_ts
    }

    pub fn version_map(&self) -> (r: &BaseMap)
        ensures
            r == &self.version_map,
    {
        &self.version_map
    }

    /// A structural copy of the deletion.
    pub fn duplicate(&self) -> (r: Self)
        ensures
            r.start == self.start,
            r.end == self.end,
            r.version_map.entries_spec() == self.version_map.entries_spec(),
            r.deleted_by == self.deleted_by,
            r.deletion_ts == self.deletion_ts,
    {
        let mut entries: Vec<crate::IdEntry> = Vec::new();
        let n = self.version_map.num_entries();
        let mut i: usize = 0;
        while i < n
            invariant
                n == self.version_map.entries_spec().len(),
                0 <= i <= n,
                entries@ == self.version_map.entries_spec().take(i as int),
            decreases n - i,
        {
            entries.push(self.version_map.entry_at(i));
            proof {
                assert(entries@ =~= self.version_map.entries_spec().take(i + 1));
            }
            i = i + 1;
        }
        proof {
            assert(entries@ =~= self.version_map.entries_spec());
        }
        Self {
            start: self.start,
            end: self.end,
            version_map: BaseMap { entries },
            deleted_by: self.deleted_by,
            deletion_ts: self.deletion_ts,
        }
    }
}

} // verus!
