//! The per-peer CRDT state and its public API.

use vstd::prelude::*;

use crate::run_tree::EditRun;
use crate::{
    Anchor, AnchorBias, Backlog, BaseMap, Deletion, InnerAnchor, Insertion, LamportTs, Length,
    ReplicaId, RunTree, RunTs, Text, TextRange,
};

verus! {

/// A distributed logical clock used to order concurrent runs: a run that was
/// already integrated when another run is created always has the strictly
/// smaller timestamp.
///
/// The clock saturates at `u64::MAX`, which no sequence of fewer than `2^64`
/// operations can reach.
#[derive(Debug, Copy, Clone, PartialEq, Eq, Structural)]
pub struct LamportClock(pub LamportTs);

impl LamportClock {
    pub fn new() -> (r: Self)
        ensures
            r.0 == 0,
    {
        LamportClock(0)
    }

    /// The highest timestamp this replica has seen so far.
    pub fn highest(&self) -> (r: LamportTs)
        ensures
            r == if self.0 == 0 {
                0u64
            } else {
                (self.0 - 1) as u64
            },
    {
        if self.0 == 0 {
            0
        } else {
            self.0 - 1
        }
    }

    /// The timestamp the next run will carry; advances the clock.
    pub fn next(&mut self) -> (r: LamportTs)
        ensures
            r == old(self).0,
            old(self).0 < u64::MAX ==> final(self).0 == old(self).0 + 1,
            old(self).0 == u64::MAX ==> final(self).0 == u64::MAX,
    {
        let next = self.0;
        if self.0 < u64::MAX {
            self.0 = self.0 + 1;
        }
        next
    }

    /// Witnesses a remote timestamp: the clock advances to
    /// `max(local, remote) + 1`.
    pub fn merge(&mut self, remote_ts: LamportTs)
        ensures
            final(self).0 >= old(self).0,
            ({
                let m = if old(self).0 >= remote_ts {
                    old(self).0
                } else {
                    remote_ts
                };
                final(self).0 == if m < u64::MAX {
                    (m + 1) as u64
                } else {
                    u64::MAX
                }
            }),
    {
        let m = if self.0 >= remote_ts {
            self.0
        } else {
            remote_ts
        };
        self.0 = if m < u64::MAX {
            m + 1
        } else {
            u64::MAX
        };
    }

    /// The value the next call to `next` would return.
    pub(crate) fn peek(&self) -> (r: LamportTs)
        ensures
            r == self.0,
    {
        self.0
    }
}

/// A local counter distinguishing the separate insertion runs this replica
/// originated. Saturates at `u64::MAX` like the Lamport clock.
#[derive(Debug, Copy, Clone, PartialEq, Eq, Structural)]
pub struct RunClock(pub RunTs);

impl RunClock {
    pub fn new() -> (r: Self)
        ensures
            r.0 == 0,
    {
        RunClock(0)
    }

    /// The timestamp of the most recently created run.
    pub fn last(&self) -> (r: RunTs)
        ensures
            r == if self.0 == 0 {
                0u64
            } else {
                (self.0 - 1) as u64
            },
    {
        if self.0 == 0 {
            0
        } else {
            self.0 - 1
        }
    }

    /// The timestamp the next run will carry; advances the clock.
    pub fn next(&mut self) -> (r: RunTs)
        ensures
            r == old(self).0,
            old(self).0 < u64::MAX ==> final(self).0 == old(self).0 + 1,
            old(self).0 == u64::MAX ==> final(self).0 == u64::MAX,
    {
        let next = self.0;
        if self.0 < u64::MAX {
            self.0 = self.0 + 1;
        }
        next
    }

    /// The value the next call to `next` would return.
    pub(crate) fn peek(&self) -> (r: RunTs)
        ensures
            r == self.0,
    {
        self.0
    }
}

/// One peer's complete CRDT state.
///
/// A `Replica` stores no text: it tracks the identity and layout of every
/// insertion run so that local edits can be turned into portable operations
/// and remote operations into offsets valid against the local buffer.
#[derive(Debug, Clone, PartialEq, Eq)]
pub struct Replica {
    /// The unique, non-zero identifier of this replica.
    pub id: ReplicaId,

    /// The CRDT-ordered fragments of every integrated insertion run.
    pub run_tree: RunTree,

    /// The Lamport clock at this replica.
    pub lamport_clock: LamportClock,

    /// Counts the insertion runs originated here.
    pub run_clock: RunClock,

    /// For every known replica, how many of its characters have been
    /// integrated here.
    pub version_map: BaseMap,

    /// For every known replica, its highest deletion timestamp integrated
    /// here.
    pub deletion_map: BaseMap,

    /// Remote operations waiting for their causal dependencies.
    pub backlog: Backlog,
}

/// The insertion-drain transition, mirroring one scan of the backlog from
/// index `i`: already-merged and no-op entries are dropped, a ready entry
/// that fits is integrated — rewriting the runs by [`sp_merge_insertion`],
/// counting its characters and advancing the Lamport clock — and the scan
/// restarts; anything else is passed over. Returns the final runs, version
/// entries, Lamport clock, backlog, and released `(text, offset)` pairs.
pub open spec fn sp_drain_insertions(
    runs: Seq<crate::run_tree::EditRun>,
    vm: Seq<crate::IdEntry>,
    lamport: u64,
    bl: Seq<Insertion>,
    i: int,
    out: Seq<(Text, Length)>,
) -> (Seq<crate::run_tree::EditRun>, Seq<crate::IdEntry>, u64, Seq<Insertion>, Seq<(Text, Length)>)
    decreases bl.len(), bl.len() - i,
{
    if i < 0 || i >= bl.len() {
        (runs, vm, lamport, bl, out)
    } else {
        let op = bl[i];
        if op.is_no_op_spec() || crate::idmap::entries_get(vm, op.text.inserter)
            > op.text.start {
            sp_drain_insertions(runs, vm, lamport, bl.remove(i), i, out)
        } else if crate::idmap::entries_get(vm, op.text.inserter) == op.text.start
            && crate::idmap::entries_get(vm, op.anchor.replica_id) >= op.anchor.offset && op.text.end
            - op.text.start <= u64::MAX - crate::run_tree::total_chars(runs) {
            let t = crate::run_tree::sp_merge_insertion(runs, op);
            let m = if lamport >= op.lamport_ts {
                lamport
            } else {
                op.lamport_ts
            };
            sp_drain_insertions(
                t.0,
                crate::idmap::sp_map_set(vm, op.text.inserter, op.text.end),
                if m < u64::MAX {
                    (m + 1) as u64
                } else {
                    u64::MAX
                },
                bl.remove(i),
                0,
                out.push((op.text, t.1 as Length)),
            )
        } else {
            sp_drain_insertions(runs, vm, lamport, bl, i + 1, out)
        }
    }
}

/// Pointwise `>=` over entry sequences, the causal-readiness order.
pub open spec fn entries_geq(a: Seq<crate::IdEntry>, b: Seq<crate::IdEntry>) -> bool {
    forall|id: ReplicaId|
        crate::idmap::entries_get(a, id) >= crate::idmap::entries_get(b, id)
}

/// The deletion-drain transition, mirroring one scan of the backlog from
/// index `i`: already-merged and no-op entries are dropped, a ready entry
/// is integrated — rewriting the runs by [`sp_merge_deletion`] and
/// recording its timestamp — and the scan restarts; anything else is
/// passed over. Returns the final runs, deletion entries, backlog, and the
/// released range lists.
pub open spec fn sp_drain_deletions(
    runs: Seq<crate::run_tree::EditRun>,
    dm: Seq<crate::IdEntry>,
    vm: Seq<crate::IdEntry>,
    bl: Seq<Deletion>,
    i: int,
    out: Seq<Seq<TextRange>>,
) -> (Seq<crate::run_tree::EditRun>, Seq<crate::IdEntry>, Seq<Deletion>, Seq<Seq<TextRange>>)
    decreases bl.len(), bl.len() - i,
{
    if i < 0 || i >= bl.len() {
        (runs, dm, bl, out)
    } else {
        let op = bl[i];
        if op.is_no_op_spec() || crate::idmap::entries_get(dm, op.deleted_by)
            >= op.deletion_ts {
            sp_drain_deletions(runs, dm, vm, bl.remove(i), i, out)
        } else if crate::idmap::entries_get(dm, op.deleted_by) + 1 == op.deletion_ts
            && entries_geq(vm, op.version_map.entries@) {
            let t = crate::run_tree::sp_merge_deletion(runs, op);
            sp_drain_deletions(
                t.0,
                crate::idmap::sp_map_set(dm, op.deleted_by, op.deletion_ts),
                vm,
                bl.remove(i),
                0,
                out.push(t.1),
            )
        } else {
            sp_drain_deletions(runs, dm, vm, bl, i + 1, out)
        }
    }
}

impl Replica {
    pub open spec fn wf(&self) -> bool {
        &&& self.id != 0
        &&& self.run_tree.wf()
        &&& self.version_map.wf()
        &&& self.deletion_map.wf()
        &&& self.backlog.wf()
    }

    /// The current visible document length.
    pub open spec fn len_spec(&self) -> int {
        self.run_tree.len_spec()
    }

    /// The number of characters tracked, tombstones included.
    pub open spec fn total_spec(&self) -> int {
        self.run_tree.total_spec()
    }

    /// How many characters from `id` this replica has integrated.
    pub open spec fn seen_spec(&self, id: ReplicaId) -> u64 {
        self.version_map.get_spec(id)
    }

    /// The highest deletion timestamp from `id` integrated here.
    pub open spec fn deletion_seen_spec(&self, id: ReplicaId) -> u64 {
        self.deletion_map.get_spec(id)
    }

    /// The insertion was integrated before: its characters are already
    /// counted.
    pub open spec fn has_merged_insertion_spec(&self, ins: Insertion) -> bool {
        self.seen_spec(ins.inserted_by_spec()) > ins.start_spec()
    }

    /// The insertion is causally ready: it continues the inserter's
    /// character sequence without a gap, and the run containing its anchor
    /// has been integrated.
    pub open spec fn can_merge_insertion_spec(&self, ins: Insertion) -> bool {
        &&& self.seen_spec(ins.inserted_by_spec()) == ins.start_spec()
        &&& self.seen_spec(ins.anchor.replica_id) >= ins.anchor.offset
    }

    /// The deletion was integrated before.
    pub open spec fn has_merged_deletion_spec(&self, del: Deletion) -> bool {
        self.deletion_seen_spec(del.deleted_by) >= del.deletion_ts
    }

    /// The deletion is causally ready: it is the deleter's next deletion and
    /// every insertion the deleter had seen has been integrated here.
    pub open spec fn can_merge_deletion_spec(&self, del: Deletion) -> bool {
        &&& self.deletion_seen_spec(del.deleted_by) + 1 == del.deletion_ts
        &&& self.version_map.geq_spec(&del.version_map)
    }

    /// Creates the first replica of a new collaboration session, seeding it
    /// with one visible run holding the `len` characters of the initial
    /// buffer.
    pub fn new(id: ReplicaId, len: Length) -> (r: Self)
        requires
            id != 0,
        ensures
            r.wf(),
            r.id == id,
            r.len_spec() == len,
            r.total_spec() == len,
            r.seen_spec(id) == len,
            forall|x: ReplicaId| x != id ==> r.seen_spec(x) == 0,
            forall|x: ReplicaId| r.deletion_seen_spec(x) == 0,
            r.backlog.is_empty_spec(),
            r.lamport_clock.0 == 1,
            r.run_clock.0 == 1,
            r.version_map.entries_spec() == seq![crate::IdEntry { id, value: len }],
            r.deletion_map.entries_spec() == Seq::<crate::IdEntry>::empty(),
            r.run_tree.runs_spec() == seq![
                EditRun {
                    inserter: id,
                    lo: 0,
                    hi: len,
                    run_ts: 0,
                    lamport_ts: 0,
                    parent: InnerAnchor::zero_spec(),
                    visible: true,
                },
            ],
    {
        let mut run_clock = RunClock::new();
        let mut lamport_clock = LamportClock::new();
        let first_run = EditRun {
            inserter: id,
            lo: 0,
            hi: len,
            run_ts: run_clock.next(),
            lamport_ts: lamport_clock.next(),
            parent: InnerAnchor::zero(),
            visible: true,
        };
        let run_tree = RunTree::new(first_run);
        let mut version_map = BaseMap::new();
        version_map.set(id, len);
        let deletion_map = BaseMap::new();
        Replica {
            id,
            run_tree,
            run_clock,
            lamport_clock,
            version_map,
            deletion_map,
            backlog: Backlog::new(),
        }
    }

    /// The id of this replica.
    pub fn id(&self) -> (r: ReplicaId)
        ensures
            r == self.id,
    {
        self.id
    }

    /// The current visible length of the document.
    pub fn len(&self) -> (r: Length)
        requires
            self.wf(),
        ensures
            r == self.len_spec(),
    {
        self.run_tree.len()
    }

    /// Records that `len` characters were inserted at `at_offset` in the
    /// local buffer, and returns the operation to broadcast.
    ///
    /// With `len == 0` the no-op insertion is returned and nothing changes.
    pub fn inserted(&mut self, at_offset: Length, len: Length) -> (r: Insertion)
        requires
            old(self).wf(),
            at_offset <= old(self).len_spec(),
            old(self).seen_spec(old(self).id) + len <= u64::MAX,
            old(self).total_spec() + len <= u64::MAX,
        ensures
            final(self).wf(),
            r.wf(),
            final(self).id == old(self).id,
            r.is_no_op_spec() <==> len == 0,
            len == 0 ==> *final(self) == *old(self),
            len > 0 ==> ((r.anchor == InnerAnchor::zero_spec()) <==> at_offset == 0),
            (len > 0 && at_offset >= 1) ==> crate::run_tree::anchor_has_witness(
                old(self).run_tree.runs_spec(),
                at_offset - 1,
                r.anchor,
            ),
            len > 0 ==> ({
                let t = crate::run_tree::sp_insert_local(
                    old(self).run_tree.runs_spec(),
                    at_offset,
                    Text {
                        inserter: old(self).id,
                        start: old(self).seen_spec(old(self).id),
                        end: (old(self).seen_spec(old(self).id) + len) as u64,
                    },
                    old(self).run_clock.0,
                    old(self).lamport_clock.0,
                );
                final(self).run_tree.runs_spec() == t.0 && r.anchor == t.1 && r.run_ts == t.2
            }),
            len > 0 ==> r.lamport_ts == (if final(self).lamport_clock.0 == 0 {
                0u64
            } else {
                (final(self).lamport_clock.0 - 1) as u64
            }),
            len > 0 ==> ({
                // Either the characters extended this replica's newest run —
                // reusing its run timestamp — and the clocks stand still, or
                // a fresh run was created under the next run timestamp and
                // both clocks advance.
                ||| (r.run_ts == r.anchor.contained_in && final(self).run_clock == old(
                    self,
                ).run_clock && final(self).lamport_clock == old(self).lamport_clock)
                ||| (r.run_ts == old(self).run_clock.0 && final(self).run_clock.0 == (
                if old(self).run_clock.0 < u64::MAX {
                    (old(self).run_clock.0 + 1) as u64
                } else {
                    u64::MAX
                }) && final(self).lamport_clock.0 == (
                if old(self).lamport_clock.0 < u64::MAX {
                    (old(self).lamport_clock.0 + 1) as u64
                } else {
                    u64::MAX
                }))
            }),
            len > 0 ==> {
                &&& final(self).len_spec() == old(self).len_spec() + len
                &&& final(self).total_spec() == old(self).total_spec() + len
                &&& r.text == (Text {
                    inserter: old(self).id,
                    start: old(self).seen_spec(old(self).id),
                    end: (old(self).seen_spec(old(self).id) + len) as u64,
                })
                &&& final(self).seen_spec(old(self).id) == old(self).seen_spec(old(self).id) + len
                &&& forall|x: ReplicaId|
                    x != old(self).id ==> final(self).seen_spec(x) == old(self).seen_spec(x)
                &&& final(self).deletion_map == old(self).deletion_map
                &&& final(self).backlog == old(self).backlog
            },
    {
        if len == 0 {
            return Insertion::no_op();
        }
        let start = self.version_map.get(self.id);
        self.version_map.set(self.id, start + len);
        let text = Text::new(self.id, start, start + len);
        let new_run_ts = self.run_clock.peek();
        let new_lamport = self.lamport_clock.peek();
        let placed = self.run_tree.insert_local(at_offset, text, new_run_ts, new_lamport);
        if !placed.2 {
            let _ = self.run_clock.next();
            let _ = self.lamport_clock.next();
        }
        Insertion::new(placed.0, text, self.lamport_clock.highest(), placed.1)
    }

    /// Records that the characters in `[start, end)` were deleted from the
    /// local buffer, and returns the operation to broadcast.
    ///
    /// An empty range produces the no-op deletion and changes nothing.
    pub fn deleted(&mut self, start: Length, end: Length) -> (r: Deletion)
        requires
            old(self).wf(),
            start <= end,
            end <= old(self).len_spec(),
            start < end ==> old(self).deletion_seen_spec(old(self).id) < u64::MAX,
        ensures
            final(self).wf(),
            r.wf(),
            final(self).id == old(self).id,
            r.is_no_op_spec() <==> start == end,
            start == end ==> *final(self) == *old(self),
            start < end ==> {
                &&& final(self).len_spec() == old(self).len_spec() - (end - start)
                &&& final(self).total_spec() == old(self).total_spec()
                &&& r.deleted_by == old(self).id
                &&& r.deletion_ts == old(self).deletion_seen_spec(old(self).id) + 1
                &&& final(self).deletion_seen_spec(old(self).id) == old(self).deletion_seen_spec(
                    old(self).id,
                ) + 1
                &&& forall|x: ReplicaId|
                    x != old(self).id ==> final(self).deletion_seen_spec(x) == old(
                        self,
                    ).deletion_seen_spec(x)
                &&& final(self).version_map == old(self).version_map
                &&& final(self).backlog == old(self).backlog
                &&& forall|x: ReplicaId|
                    r.version_map.get_spec(x) == old(self).seen_spec(x)
                        || r.version_map.get_spec(x) == 0
                &&& ((r.start == InnerAnchor::zero_spec()) <==> start == 0)
                &&& (start >= 1 ==> crate::run_tree::anchor_has_witness(
                    old(self).run_tree.runs_spec(),
                    start - 1,
                    r.start,
                ))
                &&& crate::run_tree::anchor_has_witness(
                    old(self).run_tree.runs_spec(),
                    end - 1,
                    r.end,
                )
                &&& r.version_map.get_spec(r.end.replica_id) == old(self).seen_spec(
                    r.end.replica_id,
                )
                &&& (start >= 1 ==> r.version_map.get_spec(r.start.replica_id) == old(
                    self,
                ).seen_spec(r.start.replica_id))
                &&& crate::run_tree::pieces_of(
                    final(self).run_tree.runs_spec(),
                    old(self).run_tree.runs_spec(),
                )
            },
    {
        if start == end {
            return Deletion::no_op();
        }
        let mut touched = BaseMap::new();
        let anchors = self.run_tree.delete_local(start, end, &mut touched);
        // Snapshot, for every touched replica, how much of it we have seen.
        proof {
            if start >= 1 {
                assert(anchors.0 != InnerAnchor::zero_spec());
                assert(anchors.0.replica_id != 0);
            }
        }
        let mut filled = BaseMap::new();
        let n = touched.num_entries();
        let mut i: usize = 0;
        while i < n
            invariant
                self.wf(),
                self.version_map == old(self).version_map,
                touched.wf(),
                filled.wf(),
                n == touched.entries_spec().len(),
                0 <= i <= n,
                crate::idmap::entries_has_id(touched.entries_spec(), anchors.1.replica_id),
                start >= 1 ==> anchors.0.replica_id != 0 && crate::idmap::entries_has_id(
                    touched.entries_spec(),
                    anchors.0.replica_id,
                ),
                forall|x: ReplicaId|
                    filled.get_spec(x) == old(self).seen_spec(x) || filled.get_spec(x) == 0,
                forall|x: ReplicaId|
                    !crate::idmap::entries_has_id(touched.entries_spec(), x) ==> filled.get_spec(
                        x,
                    ) == 0,
                forall|t: int|
                    0 <= t < i ==> filled.get_spec(#[trigger] touched.entries_spec()[t].id) == old(
                        self,
                    ).seen_spec(touched.entries_spec()[t].id),
            decreases n - i,
        {
            let e = touched.entry_at(i);
            filled.set(e.id, self.version_map.get(e.id));
            i = i + 1;
        }
        proof {
            let wend = choose|w: int|
                0 <= w < touched.entries_spec().len()
                    && (#[trigger] touched.entries_spec()[w]).id == anchors.1.replica_id;
            assert(filled.get_spec(anchors.1.replica_id) == old(self).seen_spec(
                anchors.1.replica_id,
            ));
            if start >= 1 {
                let wstart = choose|w: int|
                    0 <= w < touched.entries_spec().len()
                        && (#[trigger] touched.entries_spec()[w]).id == anchors.0.replica_id;
                assert(filled.get_spec(anchors.0.replica_id) == old(self).seen_spec(
                    anchors.0.replica_id,
                ));
            }
        }
        let ts = self.deletion_map.get(self.id) + 1;
        self.deletion_map.set(self.id, ts);
        Deletion::new(anchors.0, anchors.1, filled, self.id, ts)
    }

    /// Whether this replica has already merged the given insertion.
    fn has_merged_insertion(&self, ins: &Insertion) -> (r: bool)
        requires
            self.wf(),
        ensures
            r == self.has_merged_insertion_spec(*ins),
    {
        self.version_map.get(ins.inserted_by()) > ins.start()
    }

    /// Whether this replica is ready to merge the given insertion.
    fn can_merge_insertion(&self, ins: &Insertion) -> (r: bool)
        requires
            self.wf(),
        ensures
            r == self.can_merge_insertion_spec(*ins),
    {
        self.version_map.get(ins.inserted_by()) == ins.start() && self.version_map.get(
            ins.anchor.replica_id(),
        ) >= ins.anchor.offset()
    }

    /// Whether this replica has already merged the given deletion.
    fn has_merged_deletion(&self, del: &Deletion) -> (r: bool)
        requires
            self.wf(),
        ensures
            r == self.has_merged_deletion_spec(*del),
    {
        self.deletion_map.get(del.deleted_by()) >= del.deletion_ts()
    }

    /// Whether this replica is ready to merge the given deletion.
    fn can_merge_deletion(&self, del: &Deletion) -> (r: bool)
        requires
            self.wf(),
            del.wf(),
        ensures
            r == self.can_merge_deletion_spec(*del),
    {
        let seen = self.deletion_map.get(del.deleted_by());
        seen < u64::MAX && seen + 1 == del.deletion_ts() && self.version_map.geq(del.version_map())
    }

    /// Merges an insertion known to be ready.
    fn merge_unchecked_insertion(&mut self, ins: &Insertion) -> (offset: Length)
        requires
            old(self).wf(),
            ins.wf(),
            !ins.is_no_op_spec(),
            old(self).can_merge_insertion_spec(*ins),
            old(self).total_spec() + ins.len_spec() <= u64::MAX,
        ensures
            final(self).wf(),
            final(self).id == old(self).id,
            offset <= old(self).len_spec(),
            final(self).len_spec() == old(self).len_spec() + ins.len_spec(),
            final(self).total_spec() == old(self).total_spec() + ins.len_spec(),
            final(self).seen_spec(ins.inserted_by_spec()) == ins.text.end,
            forall|x: ReplicaId|
                x != ins.inserted_by_spec() ==> final(self).seen_spec(x) == old(self).seen_spec(x),
            final(self).version_map.entries_spec() == crate::idmap::sp_map_set(
                old(self).version_map.entries_spec(),
                ins.inserted_by_spec(),
                ins.text.end,
            ),
            final(self).deletion_map == old(self).deletion_map,
            final(self).backlog == old(self).backlog,
            final(self).run_clock == old(self).run_clock,
            ({
                let m = if old(self).lamport_clock.0 >= ins.lamport_ts {
                    old(self).lamport_clock.0
                } else {
                    ins.lamport_ts
                };
                final(self).lamport_clock.0 == if m < u64::MAX {
                    (m + 1) as u64
                } else {
                    u64::MAX
                }
            }),
            ({
                let t = crate::run_tree::sp_merge_insertion(old(self).run_tree.runs_spec(), *ins);
                final(self).run_tree.runs_spec() == t.0 && offset == t.1
            }),
            exists|j: int|
                0 <= j < final(self).run_tree.runs_spec().len()
                    && (#[trigger] final(self).run_tree.runs_spec()[j]).inserter
                    == ins.inserted_by_spec() && final(self).run_tree.runs_spec()[j].run_ts
                    == ins.run_ts && final(self).run_tree.runs_spec()[j].lo <= ins.text.start
                    && final(self).run_tree.runs_spec()[j].hi == ins.text.end
                    && final(self).run_tree.runs_spec()[j].visible
                    && offset == crate::run_tree::visible_chars(
                    final(self).run_tree.runs_spec().take(j),
                ) + (ins.text.start - final(self).run_tree.runs_spec()[j].lo),
    {
        let offset = self.run_tree.merge_insertion(ins);
        self.version_map.set(ins.inserted_by(), ins.text.end);
        self.lamport_clock.merge(ins.lamport_ts);
        offset
    }

    /// Merges a deletion known to be ready.
    fn merge_unchecked_deletion(&mut self, del: &Deletion) -> (ranges: Vec<TextRange>)
        requires
            old(self).wf(),
            del.wf(),
        ensures
            final(self).wf(),
            final(self).id == old(self).id,
            final(self).len_spec() <= old(self).len_spec(),
            final(self).total_spec() == old(self).total_spec(),
            final(self).deletion_seen_spec(del.deleted_by) == del.deletion_ts,
            forall|x: ReplicaId|
                x != del.deleted_by ==> final(self).deletion_seen_spec(x) == old(
                    self,
                ).deletion_seen_spec(x),
            final(self).deletion_map.entries_spec() == crate::idmap::sp_map_set(
                old(self).deletion_map.entries_spec(),
                del.deleted_by,
                del.deletion_ts,
            ),
            final(self).version_map == old(self).version_map,
            final(self).backlog == old(self).backlog,
            final(self).lamport_clock == old(self).lamport_clock,
            final(self).run_clock == old(self).run_clock,
            final(self).len_spec() == old(self).len_spec() - crate::run_tree::ranges_sum(ranges@),
            crate::run_tree::pieces_of(
                final(self).run_tree.runs_spec(),
                old(self).run_tree.runs_spec(),
            ),
            ({
                let t = crate::run_tree::sp_merge_deletion(old(self).run_tree.runs_spec(), *del);
                final(self).run_tree.runs_spec() == t.0 && ranges@ == t.1
            }),
            forall|j: int|
                0 <= j < ranges@.len() ==> (#[trigger] ranges@[j]).start < ranges@[j].end
                    && ranges@[j].end <= old(self).len_spec(),
            forall|j: int|
                0 <= j && j + 1 < ranges@.len() ==> (#[trigger] ranges@[j]).end < ranges@[j
                    + 1].start,
    {
        let ranges = self.run_tree.merge_deletion(del);
        self.deletion_map.set(del.deleted_by(), del.deletion_ts());
        ranges
    }

    /// Integrates a remote insertion.
    ///
    /// Returns `Some(offset)` where the local buffer should insert the
    /// operation's text when the operation is ready; `None` when it was
    /// integrated before (or is the no-op), in which case nothing changes,
    /// or when it is not yet ready, in which case it is backlogged.
    pub fn integrate_insertion(&mut self, ins: &Insertion) -> (r: Option<Length>)
        requires
            old(self).wf(),
            ins.wf(),
            (!ins.is_no_op_spec() && !old(self).has_merged_insertion_spec(*ins) && old(
                self,
            ).can_merge_insertion_spec(*ins)) ==> old(self).total_spec() + ins.len_spec()
                <= u64::MAX,
        ensures
            final(self).wf(),
            final(self).id == old(self).id,
            (ins.is_no_op_spec() || old(self).has_merged_insertion_spec(*ins)) ==> (r is None
                && *final(self) == *old(self)),
            (!ins.is_no_op_spec() && !old(self).has_merged_insertion_spec(*ins) && old(
                self,
            ).can_merge_insertion_spec(*ins)) ==> {
                &&& r is Some
                &&& r.unwrap() <= old(self).len_spec()
                &&& final(self).len_spec() == old(self).len_spec() + ins.len_spec()
                &&& final(self).seen_spec(ins.inserted_by_spec()) == ins.text.end
                &&& forall|x: ReplicaId|
                    x != ins.inserted_by_spec() ==> final(self).seen_spec(x) == old(
                        self,
                    ).seen_spec(x)
                &&& final(self).deletion_map == old(self).deletion_map
                &&& final(self).backlog == old(self).backlog
                &&& final(self).run_clock == old(self).run_clock
                &&& ({
                    let m = if old(self).lamport_clock.0 >= ins.lamport_ts {
                        old(self).lamport_clock.0
                    } else {
                        ins.lamport_ts
                    };
                    final(self).lamport_clock.0 == if m < u64::MAX {
                        (m + 1) as u64
                    } else {
                        u64::MAX
                    }
                })
                &&& ({
                    let t = crate::run_tree::sp_merge_insertion(
                        old(self).run_tree.runs_spec(),
                        *ins,
                    );
                    final(self).run_tree.runs_spec() == t.0 && r.unwrap() == t.1
                })
                &&& exists|j: int|
                    0 <= j < final(self).run_tree.runs_spec().len()
                        && (#[trigger] final(self).run_tree.runs_spec()[j]).inserter
                        == ins.inserted_by_spec() && final(self).run_tree.runs_spec()[j].run_ts
                        == ins.run_ts && final(self).run_tree.runs_spec()[j].lo <= ins.text.start
                        && final(self).run_tree.runs_spec()[j].hi == ins.text.end
                        && final(self).run_tree.runs_spec()[j].visible
                        && r.unwrap() == crate::run_tree::visible_chars(
                        final(self).run_tree.runs_spec().take(j),
                    ) + (ins.text.start - final(self).run_tree.runs_spec()[j].lo)
            },
            (!ins.is_no_op_spec() && !old(self).has_merged_insertion_spec(*ins) && !old(
                self,
            ).can_merge_insertion_spec(*ins)) ==> {
                &&& r is None
                &&& final(self).run_tree == old(self).run_tree
                &&& final(self).version_map == old(self).version_map
                &&& final(self).deletion_map == old(self).deletion_map
                &&& final(self).lamport_clock == old(self).lamport_clock
                &&& final(self).run_clock == old(self).run_clock
                &&& final(self).backlog.insertions@ == old(self).backlog.insertions@.push(*ins)
                &&& final(self).backlog.deletions@ == old(self).backlog.deletions@
            },
    {
        if ins.is_no_op() || self.has_merged_insertion(ins) {
            None
        } else if self.can_merge_insertion(ins) {
            Some(self.merge_unchecked_insertion(ins))
        } else {
            self.backlog.insert_insertion(*ins);
            None
        }
    }

    /// Integrates a remote deletion.
    ///
    /// Returns the offset ranges the local buffer should delete, ascending
    /// and non-overlapping. The list is empty when the deletion was
    /// integrated before (or is the no-op), in which case nothing changes,
    /// or when it is not yet ready, in which case it is backlogged.
    pub fn integrate_deletion(&mut self, del: &Deletion) -> (r: Vec<TextRange>)
        requires
            old(self).wf(),
            del.wf(),
        ensures
            final(self).wf(),
            final(self).id == old(self).id,
            (del.is_no_op_spec() || old(self).has_merged_deletion_spec(*del)) ==> (r@.len() == 0
                && *final(self) == *old(self)),
            (!del.is_no_op_spec() && !old(self).has_merged_deletion_spec(*del) && old(
                self,
            ).can_merge_deletion_spec(*del)) ==> {
                &&& final(self).len_spec() <= old(self).len_spec()
                &&& final(self).len_spec() == old(self).len_spec() - crate::run_tree::ranges_sum(
                    r@,
                )
                &&& crate::run_tree::pieces_of(
                    final(self).run_tree.runs_spec(),
                    old(self).run_tree.runs_spec(),
                )
                &&& ({
                    let t = crate::run_tree::sp_merge_deletion(
                        old(self).run_tree.runs_spec(),
                        *del,
                    );
                    final(self).run_tree.runs_spec() == t.0 && r@ == t.1
                })
                &&& final(self).deletion_seen_spec(del.deleted_by) == del.deletion_ts
                &&& forall|x: ReplicaId|
                    x != del.deleted_by ==> final(self).deletion_seen_spec(x) == old(
                        self,
                    ).deletion_seen_spec(x)
                &&& final(self).version_map == old(self).version_map
                &&& final(self).backlog == old(self).backlog
                &&& final(self).lamport_clock == old(self).lamport_clock
                &&& final(self).run_clock == old(self).run_clock
                &&& forall|j: int|
                    0 <= j < r@.len() ==> (#[trigger] r@[j]).start < r@[j].end && r@[j].end <= old(
                        self,
                    ).len_spec()
                &&& forall|j: int|
                    0 <= j && j + 1 < r@.len() ==> (#[trigger] r@[j]).end < r@[j + 1].start
            },
            (!del.is_no_op_spec() && !old(self).has_merged_deletion_spec(*del) && !old(
                self,
            ).can_merge_deletion_spec(*del)) ==> {
                &&& r@.len() == 0
                &&& final(self).run_tree == old(self).run_tree
                &&& final(self).version_map == old(self).version_map
                &&& final(self).deletion_map == old(self).deletion_map
                &&& final(self).lamport_clock == old(self).lamport_clock
                &&& final(self).run_clock == old(self).run_clock
                &&& final(self).backlog.insertions@ == old(self).backlog.insertions@
                &&& crate::backlog::deletions_eq(
                    final(self).backlog.deletions@,
                    old(self).backlog.deletions@.push(*del),
                )
            },
    {
        if del.is_no_op() || self.has_merged_deletion(del) {
            Vec::new()
        } else if self.can_merge_deletion(del) {
            self.merge_unchecked_deletion(del)
        } else {
            let copy = del.duplicate();
            self.backlog.insert_deletion(copy);
            proof {
                let a = self.backlog.deletions@;
                let b = old(self).backlog.deletions@.push(*del);
                assert forall|i: int| 0 <= i < a.len() implies crate::backlog::deletion_eq(
                    #[trigger] a[i],
                    b[i],
                ) by {
                    if i < a.len() - 1 {
                        assert(a[i] == old(self).backlog.deletions@[i]);
                    }
                }
            }
            Vec::new()
        }
    }

    /// Creates a new anchor at the given offset, with the given bias.
    ///
    /// An offset of `0` with a left bias yields the document-start sentinel,
    /// which always resolves to `0`; an offset equal to the current length
    /// with a right bias yields the document-end sentinel, which always
    /// resolves to the current length. Every other anchor attaches to the
    /// character beside the offset, on the side the bias names.
    pub fn create_anchor(&self, at_offset: Length, with_bias: AnchorBias) -> (r: Anchor)
        requires
            self.wf(),
            at_offset <= self.len_spec(),
        ensures
            r.wf(),
            r.spec_bias() == with_bias,
            (r == Anchor::start_of_document_spec()) <==> (at_offset == 0 && with_bias
                == AnchorBias::Left),
            (r == Anchor::end_of_document_spec()) <==> (at_offset == self.len_spec() && with_bias
                == AnchorBias::Right),
            (with_bias == AnchorBias::Left && at_offset >= 1)
                ==> crate::run_tree::anchor_has_witness(
                self.run_tree.runs_spec(),
                at_offset - 1,
                r.inner,
            ),
            (with_bias == AnchorBias::Right && at_offset < self.len_spec())
                ==> crate::run_tree::anchor_has_witness(
                self.run_tree.runs_spec(),
                at_offset as int,
                r.inner,
            ),
    {
        match with_bias {
            AnchorBias::Left => {
                if at_offset == 0 {
                    Anchor::start_of_document()
                } else {
                    let inner = self.run_tree.anchor_at(at_offset, AnchorBias::Left);
                    Anchor::new(inner, AnchorBias::Left)
                }
            },
            AnchorBias::Right => {
                if at_offset == self.run_tree.len() {
                    Anchor::end_of_document()
                } else {
                    let inner = self.run_tree.anchor_at(at_offset, AnchorBias::Right);
                    Anchor::new(inner, AnchorBias::Right)
                }
            },
        }
    }

    /// Resolves an anchor to its current offset.
    ///
    /// The document sentinels always resolve, to `0` and to the current
    /// length. Any other anchor resolves once the insertion containing its
    /// character has been integrated, even if that character has since been
    /// deleted; until then the result is `None`.
    pub fn resolve_anchor(&self, anchor: Anchor) -> (r: Option<Length>)
        requires
            self.wf(),
        ensures
            anchor == Anchor::start_of_document_spec() ==> r == Some(0u64),
            anchor == Anchor::end_of_document_spec() ==> (r is Some && r.unwrap()
                == self.len_spec()),
            r is Some ==> r.unwrap() <= self.len_spec(),
            (anchor.inner.replica_id != 0 && self.seen_spec(anchor.inner.replica_id)
                < anchor.inner.offset) ==> r is None,
            (r is Some && anchor.inner.replica_id != 0) ==> exists|k: int|
                #[trigger] crate::run_tree::frag_matches(
                    self.run_tree.runs_spec(),
                    k,
                    anchor.inner,
                ) && (forall|j: int|
                    0 <= j < k ==> !crate::run_tree::frag_matches(
                        self.run_tree.runs_spec(),
                        j,
                        anchor.inner,
                    )) && r.unwrap() == crate::run_tree::resolve_formula(
                    self.run_tree.runs_spec(),
                    k,
                    anchor.inner,
                    anchor.bias,
                ),
            (anchor.inner.replica_id != 0 && self.seen_spec(anchor.inner.replica_id)
                >= anchor.inner.offset && exists|k: int|
                #[trigger] crate::run_tree::frag_matches(
                    self.run_tree.runs_spec(),
                    k,
                    anchor.inner,
                )) ==> r is Some,
    {
        let inner = anchor.inner();
        if inner.replica_id() == 0 {
            proof {
                crate::run_tree::lemma_sums_nonneg(self.run_tree.runs_spec());
            }
            return match anchor.bias() {
                AnchorBias::Left => Some(0),
                AnchorBias::Right => Some(self.run_tree.len()),
            };
        }
        if self.version_map.get(inner.replica_id()) < inner.offset() {
            return None;
        }
        self.run_tree.resolve(inner, anchor.bias())
    }

    /// Creates a new replica with the given fresh id and the same document
    /// state as this one.
    pub fn fork(&self, new_id: ReplicaId) -> (r: Self)
        requires
            self.wf(),
            new_id != 0,
            new_id != self.id,
        ensures
            r.wf(),
            r.id == new_id,
            r.run_tree.runs_spec() == self.run_tree.runs_spec(),
            r.len_spec() == self.len_spec(),
            r.total_spec() == self.total_spec(),
            forall|x: ReplicaId| r.seen_spec(x) == self.seen_spec(x),
            forall|x: ReplicaId| r.deletion_seen_spec(x) == self.deletion_seen_spec(x),
            r.version_map.entries_spec() == self.version_map.entries_spec(),
            r.deletion_map.entries_spec() == self.deletion_map.entries_spec(),
            r.lamport_clock == self.lamport_clock,
            r.run_clock.0 == 0,
            r.backlog.insertions@ == self.backlog.insertions@,
            crate::backlog::deletions_eq(r.backlog.deletions@, self.backlog.deletions@),
    {
        Replica {
            id: new_id,
            run_tree: self.run_tree.duplicate(),
            run_clock: RunClock::new(),
            lamport_clock: self.lamport_clock,
            version_map: self.version_map.duplicate(),
            deletion_map: self.deletion_map.duplicate(),
            backlog: self.backlog.duplicate(),
        }
    }

    /// Whether the other replica carries the same document state: the same
    /// run fragments and the same backlog. Used to check that an
    /// encode-decode round trip was lossless.
    pub fn eq_decoded(&self, other: &Replica) -> (r: bool)
        requires
            self.wf(),
            other.wf(),
        ensures
            r == (self.run_tree.runs_spec() == other.run_tree.runs_spec()
                && self.backlog.insertions@ == other.backlog.insertions@
                && crate::backlog::deletions_eq(
                self.backlog.deletions@,
                other.backlog.deletions@,
            )),
    {
        let n = self.run_tree.runs.len();
        if n != other.run_tree.runs.len() {
            proof {
                assert(self.run_tree.runs_spec().len() != other.run_tree.runs_spec().len());
            }
            return false;
        }
        let mut i: usize = 0;
        while i < n
            invariant
                n == self.run_tree.runs@.len(),
                n == other.run_tree.runs@.len(),
                0 <= i <= n,
                forall|k: int|
                    0 <= k < i ==> self.run_tree.runs@[k] == other.run_tree.runs@[k],
            decreases n - i,
        {
            if self.run_tree.runs[i] != other.run_tree.runs[i] {
                return false;
            }
            i = i + 1;
        }
        proof {
            assert(self.run_tree.runs@ =~= other.run_tree.runs@);
        }
        let m = self.backlog.insertions.len();
        if m != other.backlog.insertions.len() {
            return false;
        }
        let mut j: usize = 0;
        while j < m
            invariant
                m == self.backlog.insertions@.len(),
                m == other.backlog.insertions@.len(),
                0 <= j <= m,
                forall|k: int|
                    0 <= k < j ==> self.backlog.insertions@[k] == other.backlog.insertions@[k],
            decreases m - j,
        {
            if self.backlog.insertions[j] != other.backlog.insertions[j] {
                return false;
            }
            j = j + 1;
        }
        proof {
            assert(self.backlog.insertions@ =~= other.backlog.insertions@);
        }
        let d = self.backlog.deletions.len();
        if d != other.backlog.deletions.len() {
            return false;
        }
        let mut k: usize = 0;
        while k < d
            invariant
                d == self.backlog.deletions@.len(),
                d == other.backlog.deletions@.len(),
                0 <= k <= d,
                forall|t: int|
                    0 <= t < k ==> crate::backlog::deletion_eq(
                        #[trigger] self.backlog.deletions@[t],
                        other.backlog.deletions@[t],
                    ),
            decreases d - k,
        {
            if !deletion_equal(&self.backlog.deletions[k], &other.backlog.deletions[k]) {
                return false;
            }
            k = k + 1;
        }
        true
    }

    /// The number of run fragments, a measure of internal fragmentation.
    pub fn num_runs(&self) -> (r: usize)
        requires
            self.wf(),
        ensures
            r == self.run_tree.runs_spec().len(),
    {
        self.run_tree.count_empty_leaves().1
    }

    /// The number of zero-length fragments and the number of all fragments.
    pub fn empty_leaves(&self) -> (r: (usize, usize))
        requires
            self.wf(),
        ensures
            r.0 == crate::run_tree::zero_len_count(self.run_tree.runs_spec()),
            r.1 == self.run_tree.runs_spec().len(),
            r.0 <= r.1,
    {
        self.run_tree.count_empty_leaves()
    }

    /// The structural invariants of a replica are maintained statically by
    /// its verified methods; this hook is kept for API compatibility and
    /// performs no runtime work.
    pub fn assert_invariants(&self)
        requires
            self.wf(),
    {
    }

    /// Whether a formerly backlogged insertion is accounted for: a no-op,
    /// integrated (its characters are counted), or still waiting.
    pub open spec fn insertion_accounted(&self, op: Insertion) -> bool {
        ||| op.is_no_op_spec()
        ||| self.has_merged_insertion_spec(op)
        ||| exists|j: int|
            0 <= j < self.backlog.insertions@.len() && (#[trigger] self.backlog.insertions@[j])
                == op
    }

    /// Whether a formerly backlogged deletion is accounted for: a no-op,
    /// integrated (its timestamp is recorded), or still waiting.
    pub open spec fn deletion_accounted(&self, op: Deletion) -> bool {
        ||| op.is_no_op_spec()
        ||| self.has_merged_deletion_spec(op)
        ||| exists|j: int|
            0 <= j < self.backlog.deletions@.len() && crate::backlog::deletion_eq(
                #[trigger] self.backlog.deletions@[j],
                op,
            )
    }

    /// Drains every backlogged insertion that has become ready, in the
    /// order the backlog releases them, returning for each the text to
    /// insert and the offset to insert it at. Already-merged and no-op
    /// entries are dropped. Applying one operation can unlock others: the
    /// scan restarts until a full pass releases nothing.
    pub fn backlogged_insertions(&mut self) -> (out: Vec<(Text, Length)>)
        requires
            old(self).wf(),
        ensures
            final(self).wf(),
            final(self).id == old(self).id,
            forall|k: int|
                0 <= k < final(self).backlog.insertions@.len() ==> ({
                    let op = #[trigger] final(self).backlog.insertions@[k];
                    &&& !op.is_no_op_spec()
                    &&& !final(self).has_merged_insertion_spec(op)
                    &&& !(final(self).can_merge_insertion_spec(op) && final(self).total_spec()
                        + op.len_spec() <= u64::MAX)
                }),
            forall|k: int|
                0 <= k < old(self).backlog.insertions@.len()
                    ==> final(self).insertion_accounted(
                    #[trigger] old(self).backlog.insertions@[k],
                ),
            forall|t: int|
                0 <= t < out@.len() ==> final(self).seen_spec((#[trigger] out@[t]).0.inserter)
                    >= out@[t].0.end,
            final(self).backlog.deletions@ == old(self).backlog.deletions@,
            final(self).deletion_map == old(self).deletion_map,
            final(self).run_clock == old(self).run_clock,
            ({
                let t = sp_drain_insertions(
                    old(self).run_tree.runs_spec(),
                    old(self).version_map.entries_spec(),
                    old(self).lamport_clock.0,
                    old(self).backlog.insertions@,
                    0,
                    Seq::empty(),
                );
                &&& final(self).run_tree.runs_spec() == t.0
                &&& final(self).version_map.entries_spec() == t.1
                &&& final(self).lamport_clock.0 == t.2
                &&& final(self).backlog.insertions@ == t.3
                &&& out@ == t.4
            }),
    {
        let mut out: Vec<(Text, Length)> = Vec::new();
        let mut i: usize = 0;
        loop
            invariant
                self.wf(),
                self.id == old(self).id,
                self.backlog.deletions@ == old(self).backlog.deletions@,
                self.deletion_map == old(self).deletion_map,
                self.run_clock == old(self).run_clock,
                sp_drain_insertions(
                    old(self).run_tree.runs_spec(),
                    old(self).version_map.entries_spec(),
                    old(self).lamport_clock.0,
                    old(self).backlog.insertions@,
                    0,
                    Seq::empty(),
                ) == sp_drain_insertions(
                    self.run_tree.runs_spec(),
                    self.version_map.entries_spec(),
                    self.lamport_clock.0,
                    self.backlog.insertions@,
                    i as int,
                    out@,
                ),
                i <= self.backlog.insertions@.len(),
                forall|k: int|
                    0 <= k < i ==> ({
                        let op = #[trigger] self.backlog.insertions@[k];
                        &&& !op.is_no_op_spec()
                        &&& !self.has_merged_insertion_spec(op)
                        &&& !(self.can_merge_insertion_spec(op) && self.total_spec()
                            + op.len_spec() <= u64::MAX)
                    }),
                forall|k: int|
                    0 <= k < old(self).backlog.insertions@.len() ==> self.insertion_accounted(
                        #[trigger] old(self).backlog.insertions@[k],
                    ),
                forall|t: int|
                    0 <= t < out@.len() ==> self.seen_spec((#[trigger] out@[t]).0.inserter)
                        >= out@[t].0.end,
            ensures
                self.wf(),
                self.id == old(self).id,
                self.backlog.deletions@ == old(self).backlog.deletions@,
                self.deletion_map == old(self).deletion_map,
                self.run_clock == old(self).run_clock,
                sp_drain_insertions(
                    old(self).run_tree.runs_spec(),
                    old(self).version_map.entries_spec(),
                    old(self).lamport_clock.0,
                    old(self).backlog.insertions@,
                    0,
                    Seq::empty(),
                ) == sp_drain_insertions(
                    self.run_tree.runs_spec(),
                    self.version_map.entries_spec(),
                    self.lamport_clock.0,
                    self.backlog.insertions@,
                    i as int,
                    out@,
                ),
                i as int >= self.backlog.insertions@.len(),
                forall|k: int|
                    0 <= k < self.backlog.insertions@.len() ==> ({
                        let op = #[trigger] self.backlog.insertions@[k];
                        &&& !op.is_no_op_spec()
                        &&& !self.has_merged_insertion_spec(op)
                        &&& !(self.can_merge_insertion_spec(op) && self.total_spec()
                            + op.len_spec() <= u64::MAX)
                    }),
                forall|k: int|
                    0 <= k < old(self).backlog.insertions@.len() ==> self.insertion_accounted(
                        #[trigger] old(self).backlog.insertions@[k],
                    ),
                forall|t: int|
                    0 <= t < out@.len() ==> self.seen_spec((#[trigger] out@[t]).0.inserter)
                        >= out@[t].0.end,
            decreases self.backlog.insertions@.len(), self.backlog.insertions@.len() - i,
        {
            let n = self.backlog.insertions.len();
            if i >= n {
                break ;
            }
            let ins = self.backlog.insertions[i];
            let ghost st0 = *self;
            let ghost pre = self.backlog.insertions@;
            let ghost out_pre = out@;
            if ins.is_no_op() || self.has_merged_insertion(&ins) {
                let _ = self.backlog.insertions.remove(i);
                proof {
                    assert(sp_drain_insertions(
                        st0.run_tree.runs_spec(),
                        st0.version_map.entries_spec(),
                        st0.lamport_clock.0,
                        pre,
                        i as int,
                        out_pre,
                    ) == sp_drain_insertions(
                        self.run_tree.runs_spec(),
                        self.version_map.entries_spec(),
                        self.lamport_clock.0,
                        self.backlog.insertions@,
                        i as int,
                        out@,
                    ));
                    lemma_wf_insertions_remove(pre, i as int);
                    assert forall|k: int|
                        0 <= k < old(self).backlog.insertions@.len() implies self.insertion_accounted(
                        #[trigger] old(self).backlog.insertions@[k],
                    ) by {
                        let op = old(self).backlog.insertions@[k];
                        if !op.is_no_op_spec() && !self.has_merged_insertion_spec(op) {
                            let j = choose|j: int|
                                0 <= j < pre.len() && (#[trigger] pre[j]) == op;
                            if j < i {
                                assert(self.backlog.insertions@[j] == op);
                            } else if j > i {
                                assert(self.backlog.insertions@[j - 1] == op);
                            }
                        }
                    }
                }
            } else if self.can_merge_insertion(&ins) {
                let total = self.run_tree.total_len();
                let l = ins.len();
                if l <= u64::MAX - total {
                    let _ = self.backlog.insertions.remove(i);
                    proof {
                        lemma_wf_insertions_remove(pre, i as int);
                    }
                    let off = self.merge_unchecked_insertion(&ins);
                    out.push((ins.text, off));
                    proof {
                        assert(out@ =~= out_pre.push((ins.text, off)));
                        assert(sp_drain_insertions(
                            st0.run_tree.runs_spec(),
                            st0.version_map.entries_spec(),
                            st0.lamport_clock.0,
                            pre,
                            i as int,
                            out_pre,
                        ) == sp_drain_insertions(
                            self.run_tree.runs_spec(),
                            self.version_map.entries_spec(),
                            self.lamport_clock.0,
                            self.backlog.insertions@,
                            0,
                            out@,
                        ));
                        assert forall|k: int|
                            0 <= k < old(self).backlog.insertions@.len() implies self.insertion_accounted(
                            #[trigger] old(self).backlog.insertions@[k],
                        ) by {
                            let op = old(self).backlog.insertions@[k];
                            if !op.is_no_op_spec() && !self.has_merged_insertion_spec(op) {
                                let j = choose|j: int|
                                    0 <= j < pre.len() && (#[trigger] pre[j]) == op;
                                if j < i {
                                    assert(self.backlog.insertions@[j] == op);
                                } else if j > i {
                                    assert(self.backlog.insertions@[j - 1] == op);
                                }
                            }
                        }
                    }
                    i = 0;
                } else {
                    proof {
                        assert(sp_drain_insertions(
                            st0.run_tree.runs_spec(),
                            st0.version_map.entries_spec(),
                            st0.lamport_clock.0,
                            pre,
                            i as int,
                            out_pre,
                        ) == sp_drain_insertions(
                            self.run_tree.runs_spec(),
                            self.version_map.entries_spec(),
                            self.lamport_clock.0,
                            self.backlog.insertions@,
                            i + 1,
                            out@,
                        ));
                    }
                    i = i + 1;
                }
            } else {
                proof {
                    assert(sp_drain_insertions(
                        st0.run_tree.runs_spec(),
                        st0.version_map.entries_spec(),
                        st0.lamport_clock.0,
                        pre,
                        i as int,
                        out_pre,
                    ) == sp_drain_insertions(
                        self.run_tree.runs_spec(),
                        self.version_map.entries_spec(),
                        self.lamport_clock.0,
                        self.backlog.insertions@,
                        i + 1,
                        out@,
                    ));
                }
                i = i + 1;
            }
        }
        out
    }

    /// Drains every backlogged deletion that has become ready, in the order
    /// the backlog releases them, returning for each the offset ranges to
    /// delete. Already-merged and no-op entries are dropped. Applying one
    /// operation can unlock others: the scan restarts until a full pass
    /// releases nothing.
    pub fn backlogged_deletions(&mut self) -> (out: Vec<Vec<TextRange>>)
        requires
            old(self).wf(),
        ensures
            final(self).wf(),
            final(self).id == old(self).id,
            forall|k: int|
                0 <= k < final(self).backlog.deletions@.len() ==> ({
                    let op = #[trigger] final(self).backlog.deletions@[k];
                    &&& !op.is_no_op_spec()
                    &&& !final(self).has_merged_deletion_spec(op)
                    &&& !final(self).can_merge_deletion_spec(op)
                }),
            forall|k: int|
                0 <= k < old(self).backlog.deletions@.len()
                    ==> final(self).deletion_accounted(
                    #[trigger] old(self).backlog.deletions@[k],
                ),
            final(self).backlog.insertions@ == old(self).backlog.insertions@,
            final(self).version_map == old(self).version_map,
            final(self).lamport_clock == old(self).lamport_clock,
            final(self).run_clock == old(self).run_clock,
            ({
                let t = sp_drain_deletions(
                    old(self).run_tree.runs_spec(),
                    old(self).deletion_map.entries_spec(),
                    old(self).version_map.entries_spec(),
                    old(self).backlog.deletions@,
                    0,
                    Seq::empty(),
                );
                &&& final(self).run_tree.runs_spec() == t.0
                &&& final(self).deletion_map.entries_spec() == t.1
                &&& final(self).backlog.deletions@ == t.2
                &&& out@.map_values(|v: Vec<TextRange>| v@) == t.3
            }),
    {
        let mut out: Vec<Vec<TextRange>> = Vec::new();
        let mut i: usize = 0;
        proof {
            assert(out@.map_values(|v: Vec<TextRange>| v@) =~= Seq::<Seq<TextRange>>::empty());
        }
        loop
            invariant
                self.wf(),
                self.id == old(self).id,
                self.backlog.insertions@ == old(self).backlog.insertions@,
                self.version_map == old(self).version_map,
                self.lamport_clock == old(self).lamport_clock,
                self.run_clock == old(self).run_clock,
                sp_drain_deletions(
                    old(self).run_tree.runs_spec(),
                    old(self).deletion_map.entries_spec(),
                    old(self).version_map.entries_spec(),
                    old(self).backlog.deletions@,
                    0,
                    Seq::empty(),
                ) == sp_drain_deletions(
                    self.run_tree.runs_spec(),
                    self.deletion_map.entries_spec(),
                    self.version_map.entries_spec(),
                    self.backlog.deletions@,
                    i as int,
                    out@.map_values(|v: Vec<TextRange>| v@),
                ),
                i <= self.backlog.deletions@.len(),
                forall|k: int|
                    0 <= k < i ==> ({
                        let op = #[trigger] self.backlog.deletions@[k];
                        &&& !op.is_no_op_spec()
                        &&& !self.has_merged_deletion_spec(op)
                        &&& !self.can_merge_deletion_spec(op)
                    }),
                forall|k: int|
                    0 <= k < old(self).backlog.deletions@.len() ==> self.deletion_accounted(
                        #[trigger] old(self).backlog.deletions@[k],
                    ),
            ensures
                self.wf(),
                self.id == old(self).id,
                self.backlog.insertions@ == old(self).backlog.insertions@,
                self.version_map == old(self).version_map,
                self.lamport_clock == old(self).lamport_clock,
                self.run_clock == old(self).run_clock,
                sp_drain_deletions(
                    old(self).run_tree.runs_spec(),
                    old(self).deletion_map.entries_spec(),
                    old(self).version_map.entries_spec(),
                    old(self).backlog.deletions@,
                    0,
                    Seq::empty(),
                ) == sp_drain_deletions(
                    self.run_tree.runs_spec(),
                    self.deletion_map.entries_spec(),
                    self.version_map.entries_spec(),
                    self.backlog.deletions@,
                    i as int,
                    out@.map_values(|v: Vec<TextRange>| v@),
                ),
                i as int >= self.backlog.deletions@.len(),
                forall|k: int|
                    0 <= k < self.backlog.deletions@.len() ==> ({
                        let op = #[trigger] self.backlog.deletions@[k];
                        &&& !op.is_no_op_spec()
                        &&& !self.has_merged_deletion_spec(op)
                        &&& !self.can_merge_deletion_spec(op)
                    }),
                forall|k: int|
                    0 <= k < old(self).backlog.deletions@.len() ==> self.deletion_accounted(
                        #[trigger] old(self).backlog.deletions@[k],
                    ),
            decreases self.backlog.deletions@.len(), self.backlog.deletions@.len() - i,
        {
            let n = self.backlog.deletions.len();
            if i >= n {
                break ;
            }
            let ghost st0 = *self;
            let ghost pre = self.backlog.deletions@;
            let ghost out_pre = out@.map_values(|v: Vec<TextRange>| v@);
            let drop_it = self.backlog.deletions[i].is_no_op() || self.has_merged_deletion(
                &self.backlog.deletions[i],
            );
            if drop_it {
                let _ = self.backlog.deletions.remove(i);
                proof {
                    assert(sp_drain_deletions(
                        st0.run_tree.runs_spec(),
                        st0.deletion_map.entries_spec(),
                        st0.version_map.entries_spec(),
                        pre,
                        i as int,
                        out_pre,
                    ) == sp_drain_deletions(
                        self.run_tree.runs_spec(),
                        self.deletion_map.entries_spec(),
                        self.version_map.entries_spec(),
                        self.backlog.deletions@,
                        i as int,
                        out@.map_values(|v: Vec<TextRange>| v@),
                    ));
                    lemma_wf_deletions_remove(pre, i as int);
                    assert forall|k: int|
                        0 <= k < old(self).backlog.deletions@.len() implies self.deletion_accounted(
                        #[trigger] old(self).backlog.deletions@[k],
                    ) by {
                        let op = old(self).backlog.deletions@[k];
                        if !op.is_no_op_spec() && !self.has_merged_deletion_spec(op) {
                            let j = choose|j: int|
                                0 <= j < pre.len() && crate::backlog::deletion_eq(
                                    #[trigger] pre[j],
                                    op,
                                );
                            if j < i {
                                assert(crate::backlog::deletion_eq(
                                    self.backlog.deletions@[j],
                                    op,
                                ));
                            } else if j > i {
                                assert(crate::backlog::deletion_eq(
                                    self.backlog.deletions@[j - 1],
                                    op,
                                ));
                            }
                        }
                    }
                }
            } else if self.can_merge_deletion(&self.backlog.deletions[i]) {
                let del = self.backlog.deletions.remove(i);
                proof {
                    lemma_wf_deletions_remove(pre, i as int);
                }
                let ranges = self.merge_unchecked_deletion(&del);
                out.push(ranges);
                proof {
                    lemma_geq_entries(&st0.version_map, &del.version_map);
                    assert(out@.map_values(|v: Vec<TextRange>| v@) =~= out_pre.push(
                        crate::run_tree::sp_merge_deletion(st0.run_tree.runs_spec(), pre[i as int]).1,
                    ));
                    assert(sp_drain_deletions(
                        st0.run_tree.runs_spec(),
                        st0.deletion_map.entries_spec(),
                        st0.version_map.entries_spec(),
                        pre,
                        i as int,
                        out_pre,
                    ) == sp_drain_deletions(
                        self.run_tree.runs_spec(),
                        self.deletion_map.entries_spec(),
                        self.version_map.entries_spec(),
                        self.backlog.deletions@,
                        0,
                        out@.map_values(|v: Vec<TextRange>| v@),
                    ));
                    assert forall|k: int|
                        0 <= k < old(self).backlog.deletions@.len() implies self.deletion_accounted(
                        #[trigger] old(self).backlog.deletions@[k],
                    ) by {
                        let op = old(self).backlog.deletions@[k];
                        if !op.is_no_op_spec() && !self.has_merged_deletion_spec(op) {
                            let j = choose|j: int|
                                0 <= j < pre.len() && crate::backlog::deletion_eq(
                                    #[trigger] pre[j],
                                    op,
                                );
                            if j < i {
                                assert(crate::backlog::deletion_eq(
                                    self.backlog.deletions@[j],
                                    op,
                                ));
                            } else if j > i {
                                assert(crate::backlog::deletion_eq(
                                    self.backlog.deletions@[j - 1],
                                    op,
                                ));
                            }
                        }
                    }
                }
                i = 0;
            } else {
                proof {
                    lemma_geq_entries(&st0.version_map, &pre[i as int].version_map);
                    assert(sp_drain_deletions(
                        st0.run_tree.runs_spec(),
                        st0.deletion_map.entries_spec(),
                        st0.version_map.entries_spec(),
                        pre,
                        i as int,
                        out_pre,
                    ) == sp_drain_deletions(
                        self.run_tree.runs_spec(),
                        self.deletion_map.entries_spec(),
                        self.version_map.entries_spec(),
                        self.backlog.deletions@,
                        i + 1,
                        out@.map_values(|v: Vec<TextRange>| v@),
                    ));
                }
                i = i + 1;
            }
        }
        out
    }
}

/// The map-level and entry-level readiness orders agree.
proof fn lemma_geq_entries(a: &BaseMap, b: &BaseMap)
    ensures
        a.geq_spec(b) == entries_geq(a.entries_spec(), b.entries_spec()),
{
    if a.geq_spec(b) {
        assert forall|id: ReplicaId|
            crate::idmap::entries_get(a.entries_spec(), id) >= crate::idmap::entries_get(
                b.entries_spec(),
                id,
            ) by {
            assert(a.get_spec(id) >= b.get_spec(id));
        }
    }
    if entries_geq(a.entries_spec(), b.entries_spec()) {
        assert forall|id: ReplicaId| a.get_spec(id) >= b.get_spec(id) by {
            assert(crate::idmap::entries_get(a.entries_spec(), id) >= crate::idmap::entries_get(
                b.entries_spec(),
                id,
            ));
        }
    }
}

/// Whether two deletion values carry the same data.
fn deletion_equal(a: &Deletion, b: &Deletion) -> (r: bool)
    ensures
        r == crate::backlog::deletion_eq(*a, *b),
{
    if !(a.start == b.start && a.end == b.end && a.deleted_by == b.deleted_by && a.deletion_ts
        == b.deletion_ts) {
        return false;
    }
    let n = a.version_map.num_entries();
    if n != b.version_map.num_entries() {
        return false;
    }
    let mut i: usize = 0;
    while i < n
        invariant
            n == a.version_map.entries_spec().len(),
            n == b.version_map.entries_spec().len(),
            0 <= i <= n,
            forall|k: int|
                0 <= k < i ==> a.version_map.entries_spec()[k] == b.version_map.entries_spec()[k],
        decreases n - i,
    {
        if a.version_map.entry_at(i) != b.version_map.entry_at(i) {
            return false;
        }
        i = i + 1;
    }
    proof {
        assert(a.version_map.entries_spec() =~= b.version_map.entries_spec());
    }
    true
}

/// Removing a backlog entry keeps every remaining entry well-formed.
proof fn lemma_wf_insertions_remove(s: Seq<Insertion>, i: int)
    requires
        0 <= i < s.len(),
        forall|j: int| 0 <= j < s.len() ==> (#[trigger] s[j]).wf(),
    ensures
        forall|j: int| 0 <= j < s.remove(i).len() ==> (#[trigger] s.remove(i)[j]).wf(),
{
    assert forall|j: int| 0 <= j < s.remove(i).len() implies (#[trigger] s.remove(i)[j]).wf() by {
        if j < i {
            assert(s.remove(i)[j] == s[j]);
        } else {
            assert(s.remove(i)[j] == s[j + 1]);
        }
    }
}

proof fn lemma_wf_deletions_remove(s: Seq<Deletion>, i: int)
    requires
        0 <= i < s.len(),
        forall|j: int| 0 <= j < s.len() ==> (#[trigger] s[j]).wf(),
    ensures
        forall|j: int| 0 <= j < s.remove(i).len() ==> (#[trigger] s.remove(i)[j]).wf(),
{
    assert forall|j: int| 0 <= j < s.remove(i).len() implies (#[trigger] s.remove(i)[j]).wf() by {
        if j < i {
            assert(s.remove(i)[j] == s[j]);
        } else {
            assert(s.remove(i)[j] == s[j + 1]);
        }
    }
}

} // verus!
