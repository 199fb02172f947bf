//! The sequence of edit runs that orders every character ever inserted.
//!
//! A [`RunTree`] holds, in document order, one [`EditRun`] for every maximal
//! fragment of an insertion run. Deleted fragments stay in the sequence as
//! tombstones so that anchors into them keep resolving; they contribute zero
//! to the visible length.

use vstd::prelude::*;

use crate::{AnchorBias, InnerAnchor, Insertion, LamportTs, Length, ReplicaId, RunTs, Text, TextRange};

verus! {

/// A fragment of a contiguous run of characters inserted by one replica.
#[derive(Debug, Copy, Clone, PartialEq, Eq, Structural)]
pub struct EditRun {
    /// The replica that inserted these characters.
    pub inserter: ReplicaId,

    /// The first character timestamp of the fragment.
    pub lo: Length,

    /// One past the last character timestamp of the fragment.
    pub hi: Length,

    /// The run timestamp the originating replica assigned to the run this
    /// fragment belongs to.
    pub run_ts: RunTs,

    /// The Lamport timestamp at the run's creation, used to order runs that
    /// share an anchor.
    pub lamport_ts: LamportTs,

    /// The boundary this fragment sits at: the identity of the character
    /// immediately to its left (or the document-start sentinel).
    pub parent: InnerAnchor,

    /// Cleared when the fragment is deleted; the fragment then stays in the
    /// sequence as a tombstone.
    pub visible: bool,
}

impl EditRun {
    pub open spec fn wf(&self) -> bool {
        &&& self.lo <= self.hi
        &&& self.inserter != 0
        &&& self.parent.wf()
    }
}

/// The number of characters a fragment spans, tombstoned or not.
pub open spec fn run_chars(r: EditRun) -> int {
    r.hi - r.lo
}

/// The number of visible characters a fragment contributes.
pub open spec fn run_visible_chars(r: EditRun) -> int {
    if r.visible {
        r.hi - r.lo
    } else {
        0
    }
}

/// The total number of characters (tombstones included) in `s`.
pub open spec fn total_chars(s: Seq<EditRun>) -> int
    decreases s.len(),
{
    if s.len() == 0 {
        0
    } else {
        total_chars(s.drop_last()) + run_chars(s.last())
    }
}

/// The number of visible characters in `s`: the current document length.
pub open spec fn visible_chars(s: Seq<EditRun>) -> int
    decreases s.len(),
{
    if s.len() == 0 {
        0
    } else {
        visible_chars(s.drop_last()) + run_visible_chars(s.last())
    }
}

/// Every fragment is well-formed and the character total fits a `u64`.
pub open spec fn runs_wf(s: Seq<EditRun>) -> bool {
    &&& forall|i: int| 0 <= i < s.len() ==> (#[trigger] s[i]).wf()
    &&& total_chars(s) <= u64::MAX
}

/// Whether fragment `k` holds the character the anchor names: same owner,
/// same run timestamp, character index inside the fragment's interval.
pub open spec fn frag_matches(s: Seq<EditRun>, k: int, a: InnerAnchor) -> bool {
    &&& 0 <= k < s.len()
    &&& s[k].inserter == a.replica_id
    &&& s[k].run_ts == a.contained_in
    &&& s[k].lo < a.offset
    &&& a.offset <= s[k].hi
}

/// Whether fragments of the same run never overlap: each character lives in
/// exactly one fragment. This holds of every tree a replica builds, because
/// splits partition intervals and new runs carry fresh characters.
pub open spec fn fragments_disjoint(s: Seq<EditRun>) -> bool {
    forall|i: int, j: int|
        0 <= i < j < s.len() && (#[trigger] s[i]).inserter == (#[trigger] s[j]).inserter
            && s[i].run_ts == s[j].run_ts ==> (s[i].hi <= s[j].lo || s[j].hi <= s[i].lo)
}

/// Whether `a` names the character side that visible position `p` and the
/// witness fragment `f` designate: the anchor points right after character
/// `a.offset - 1`, which is the visible character at position `p`.
pub open spec fn anchor_names(s: Seq<EditRun>, f: int, p: int, a: InnerAnchor) -> bool {
    &&& 0 <= f < s.len()
    &&& s[f].visible
    &&& s[f].lo < a.offset <= s[f].hi
    &&& a.replica_id == s[f].inserter
    &&& a.contained_in == s[f].run_ts
    &&& visible_chars(s.take(f)) + (a.offset - 1 - s[f].lo) == p
}

/// Whether some fragment witnesses that `a` names the visible character at
/// position `p`.
pub open spec fn anchor_has_witness(s: Seq<EditRun>, p: int, a: InnerAnchor) -> bool {
    exists|f: int| #[trigger] anchor_names(s, f, p, a)
}

/// A fragment witnessing `anchor_names` makes the existential hold.
pub proof fn lemma_anchor_witness(s: Seq<EditRun>, f: int, p: int, a: InnerAnchor)
    requires
        anchor_names(s, f, p, a),
    ensures
        anchor_has_witness(s, p, a),
{
}

/// The offset an anchor held by fragment `k` resolves to: the right or left
/// edge of its character while it is visible, and the meeting point of the
/// surviving neighbours once it is deleted.
pub open spec fn resolve_formula(s: Seq<EditRun>, k: int, a: InnerAnchor, bias: AnchorBias) -> int {
    if s[k].visible {
        match bias {
            AnchorBias::Left => visible_chars(s.take(k)) + (a.offset - 1 - s[k].lo) + 1,
            AnchorBias::Right => visible_chars(s.take(k)) + (a.offset - 1 - s[k].lo),
        }
    } else {
        visible_chars(s.take(k))
    }
}


/// The first fragment at or after `i` holding the anchor's character.
pub open spec fn sp_find_fragment(s: Seq<EditRun>, a: InnerAnchor, i: int) -> Option<int>
    decreases s.len() - i,
{
    if i < 0 || i >= s.len() {
        None
    } else if frag_matches(s, i, a) {
        Some(i)
    } else {
        sp_find_fragment(s, a, i + 1)
    }
}

/// A first match pins the search's result.
proof fn lemma_sp_find_from(s: Seq<EditRun>, a: InnerAnchor, i: int, k: int)
    requires
        0 <= i <= k,
        frag_matches(s, k, a),
        forall|j: int| i <= j < k ==> !frag_matches(s, j, a),
    ensures
        sp_find_fragment(s, a, i) == Some(k),
    decreases k - i,
{
    if i < k {
        lemma_sp_find_from(s, a, i + 1, k);
    }
}

/// No match anywhere makes the search fail.
proof fn lemma_sp_find_none_from(s: Seq<EditRun>, a: InnerAnchor, i: int)
    requires
        0 <= i,
        forall|j: int| !frag_matches(s, j, a),
    ensures
        sp_find_fragment(s, a, i) == None::<int>,
    decreases s.len() - i,
{
    if i < s.len() {
        lemma_sp_find_none_from(s, a, i + 1);
    }
}

/// The global character index (tombstones included) of the boundary an
/// anchor denotes: `0` for the document sentinel, and one past its
/// character for any other anchor whose run is present.
pub open spec fn sp_boundary(s: Seq<EditRun>, a: InnerAnchor) -> Option<int> {
    if a.replica_id == 0 {
        Some(0)
    } else {
        match sp_find_fragment(s, a, 0) {
            None => None,
            Some(k) => Some(total_chars(s.take(k)) + (a.offset - s[k].lo)),
        }
    }
}

/// The left piece of a fragment split at character timestamp `at`.
pub open spec fn split_left(r: EditRun, at: Length) -> EditRun {
    EditRun {
        inserter: r.inserter,
        lo: r.lo,
        hi: at,
        run_ts: r.run_ts,
        lamport_ts: r.lamport_ts,
        parent: r.parent,
        visible: r.visible,
    }
}

/// The right piece of a fragment split at character timestamp `at`,
/// parented at the split boundary.
pub open spec fn split_right(r: EditRun, at: Length) -> EditRun {
    EditRun {
        inserter: r.inserter,
        lo: at,
        hi: r.hi,
        run_ts: r.run_ts,
        lamport_ts: r.lamport_ts,
        parent: InnerAnchor { replica_id: r.inserter, contained_in: r.run_ts, offset: at },
        visible: r.visible,
    }
}

/// Whether the already-placed fragment `r` orders before a new insertion at
/// boundary `p`: it is a descendant of something after the boundary, or a
/// sibling at the boundary that wins the total order — higher Lamport
/// timestamp first, ties to the higher replica id — and a continuation of
/// an existing run orders after every sibling.
pub open spec fn scan_wins(s: Seq<EditRun>, r: EditRun, p: int, is_cont: bool, ins: Insertion) -> bool {
    let q = match sp_boundary(s, r.parent) {
        None => 0,
        Some(q) => q,
    };
    q > p || (q == p && (is_cont || r.lamport_ts > ins.lamport_ts || (r.lamport_ts
        == ins.lamport_ts && r.inserter > ins.text.inserter)))
}

/// The index a new insertion lands at: scanning right from the boundary, it
/// passes every fragment that wins against it and stops at the first that
/// does not.
pub open spec fn sp_scan(s: Seq<EditRun>, p: int, is_cont: bool, ins: Insertion, i: int) -> int
    decreases s.len() - i,
{
    if i < 0 || i >= s.len() {
        i
    } else if scan_wins(s, s[i], p, is_cont, ins) {
        sp_scan(s, p, is_cont, ins, i + 1)
    } else {
        i
    }
}

/// An insertion's characters merged onto the fragment that ends where they
/// begin.
pub open spec fn merged_run(prev: EditRun, ins: Insertion) -> EditRun {
    EditRun {
        inserter: prev.inserter,
        lo: prev.lo,
        hi: ins.text.end,
        run_ts: prev.run_ts,
        lamport_ts: prev.lamport_ts,
        parent: prev.parent,
        visible: true,
    }
}

/// An insertion's characters as a fresh fragment with effective Lamport
/// timestamp `eff`.
pub open spec fn placed_run(ins: Insertion, eff: LamportTs) -> EditRun {
    EditRun {
        inserter: ins.text.inserter,
        lo: ins.text.start,
        hi: ins.text.end,
        run_ts: ins.run_ts,
        lamport_ts: eff,
        parent: ins.anchor,
        visible: true,
    }
}

/// Places an insertion into the post-split sequence `s1`: scan from
/// `start` at boundary `p`, then merge onto the adjacent fragment of the
/// same run or insert a fresh fragment. Returns the new sequence and the
/// visible offset of the placement.
pub open spec fn sp_place(
    s1: Seq<EditRun>,
    p: int,
    is_cont: bool,
    eff: LamportTs,
    ins: Insertion,
    start: int,
) -> (Seq<EditRun>, int) {
    let i = sp_scan(s1, p, is_cont, ins, start);
    let off = visible_chars(s1.take(i));
    if i > 0 && s1[i - 1].inserter == ins.text.inserter && s1[i - 1].run_ts == ins.run_ts && s1[i
        - 1].hi == ins.text.start && s1[i - 1].visible {
        (s1.update(i - 1, merged_run(s1[i - 1], ins)), off)
    } else {
        (s1.insert(i, placed_run(ins, eff)), off)
    }
}

/// The whole remote-insertion transition: locate the anchor's fragment,
/// split it if the boundary falls inside, and place the new characters by
/// the sibling order. An insertion whose anchor's run is absent (never the
/// case for a ready operation) is placed at the front boundary.
pub open spec fn sp_merge_insertion(s: Seq<EditRun>, ins: Insertion) -> (Seq<EditRun>, int) {
    let a = ins.anchor;
    if a.replica_id != 0 && sp_find_fragment(s, a, 0) is Some {
        let k = sp_find_fragment(s, a, 0).unwrap();
        let s1 = if a.offset < s[k].hi {
            s.update(k, split_left(s[k], a.offset)).insert(k + 1, split_right(s[k], a.offset))
        } else {
            s
        };
        let is_cont = ins.text.inserter == a.replica_id && ins.run_ts == s[k].run_ts
            && ins.text.start == a.offset;
        let eff = if is_cont {
            s[k].lamport_ts
        } else {
            ins.lamport_ts
        };
        sp_place(s1, total_chars(s1.take(k + 1)), is_cont, eff, ins, k + 1)
    } else {
        sp_place(s, 0, false, ins.lamport_ts, ins, 0)
    }
}

/// The fragment index and character timestamp of the visible character at
/// position `p`, scanning from index `i` with `acc` visible characters
/// already passed.
pub open spec fn sp_char_at(s: Seq<EditRun>, p: int, i: int, acc: int) -> (int, Length)
    decreases s.len() - i,
{
    if i < 0 || i >= s.len() {
        (i, 0)
    } else if s[i].visible && p - acc < s[i].hi - s[i].lo {
        (i, (s[i].lo + (p - acc)) as Length)
    } else {
        sp_char_at(s, p, i + 1, acc + run_visible_chars(s[i]))
    }
}

/// A local insertion's characters as a fresh fragment.
pub open spec fn local_run(text: Text, rts: RunTs, lam: LamportTs, parent: InnerAnchor) -> EditRun {
    EditRun {
        inserter: text.inserter,
        lo: text.start,
        hi: text.end,
        run_ts: rts,
        lamport_ts: lam,
        parent,
        visible: true,
    }
}

/// A local insertion's characters appended onto this replica's newest run.
pub open spec fn extended_run(prev: EditRun, text: Text) -> EditRun {
    EditRun {
        inserter: prev.inserter,
        lo: prev.lo,
        hi: text.end,
        run_ts: prev.run_ts,
        lamport_ts: prev.lamport_ts,
        parent: prev.parent,
        visible: true,
    }
}

/// The whole local-insertion transition: the characters go directly after
/// the visible character at `at_offset - 1` (or at the front for offset 0),
/// extending this replica's own run in place when they continue it and no
/// sibling is anchored at that boundary. Returns the new sequence, the
/// anchor, the run timestamp used, and whether an extension happened.
pub open spec fn sp_insert_local(
    s: Seq<EditRun>,
    at_offset: Length,
    text: Text,
    new_run_ts: RunTs,
    new_lamport: LamportTs,
) -> (Seq<EditRun>, InnerAnchor, RunTs, bool) {
    if at_offset == 0 {
        let zero = InnerAnchor { replica_id: 0, contained_in: 0, offset: 0 };
        (s.insert(0, local_run(text, new_run_ts, new_lamport, zero)), zero, new_run_ts, false)
    } else {
        let found = sp_char_at(s, at_offset - 1, 0, 0);
        let k = found.0;
        let ts = found.1;
        let anchor = InnerAnchor {
            replica_id: s[k].inserter,
            contained_in: s[k].run_ts,
            offset: (ts + 1) as Length,
        };
        if ts + 1 == s[k].hi {
            let has_child = k + 1 < s.len() && s[k + 1].parent == anchor;
            if s[k].inserter == text.inserter && s[k].hi == text.start && !has_child {
                (s.update(k, extended_run(s[k], text)), anchor, s[k].run_ts, true)
            } else {
                (
                    s.insert(k + 1, local_run(text, new_run_ts, new_lamport, anchor)),
                    anchor,
                    new_run_ts,
                    false,
                )
            }
        } else {
            let s1 = s.update(k, split_left(s[k], (ts + 1) as Length)).insert(
                k + 1,
                split_right(s[k], (ts + 1) as Length),
            );
            (
                s1.insert(k + 1, local_run(text, new_run_ts, new_lamport, anchor)),
                anchor,
                new_run_ts,
                false,
            )
        }
    }
}


/// The pieces a visible fragment splits into under a deletion of global
/// character positions `[gs, ge)`, where `gi` is the fragment's first
/// global position and `seen` how many of its replica's characters the
/// deleter had integrated: characters both covered and seen are
/// tombstoned, the rest stay visible.
pub open spec fn sp_del_pieces(run: EditRun, gi: int, gs: int, ge: int, seen: u64) -> Seq<EditRun> {
    let a = if gs > gi {
        gs
    } else {
        gi
    };
    let b = if ge < gi + (run.hi - run.lo) {
        ge
    } else {
        gi + (run.hi - run.lo)
    };
    if !run.visible || a >= b {
        seq![run]
    } else {
        let t0 = (run.lo + (a - gi)) as Length;
        let t1 = (run.lo + (b - gi)) as Length;
        let td = if t0 >= seen {
            t0
        } else if t1 <= seen {
            t1
        } else {
            seen
        };
        if t0 < td {
            let mid = EditRun {
                inserter: run.inserter,
                lo: t0,
                hi: td,
                run_ts: run.run_ts,
                lamport_ts: run.lamport_ts,
                parent: if run.lo < t0 {
                    InnerAnchor { replica_id: run.inserter, contained_in: run.run_ts, offset: t0 }
                } else {
                    run.parent
                },
                visible: false,
            };
            let before = if run.lo < t0 {
                seq![split_left(run, t0)]
            } else {
                Seq::<EditRun>::empty()
            };
            let after = if td < run.hi {
                seq![
                    EditRun {
                        inserter: run.inserter,
                        lo: td,
                        hi: run.hi,
                        run_ts: run.run_ts,
                        lamport_ts: run.lamport_ts,
                        parent: InnerAnchor {
                            replica_id: run.inserter,
                            contained_in: run.run_ts,
                            offset: td,
                        },
                        visible: true,
                    },
                ]
            } else {
                Seq::<EditRun>::empty()
            };
            before + seq![mid] + after
        } else {
            seq![run]
        }
    }
}

/// The visible offset range a fragment loses under the same deletion, if
/// any, where `acc` is the fragment's first visible offset.
pub open spec fn sp_del_range(run: EditRun, gi: int, acc: int, gs: int, ge: int, seen: u64) -> Option<
    TextRange,
> {
    let a = if gs > gi {
        gs
    } else {
        gi
    };
    let b = if ge < gi + (run.hi - run.lo) {
        ge
    } else {
        gi + (run.hi - run.lo)
    };
    if !run.visible || a >= b {
        None
    } else {
        let t0 = (run.lo + (a - gi)) as Length;
        let t1 = (run.lo + (b - gi)) as Length;
        let td = if t0 >= seen {
            t0
        } else if t1 <= seen {
            t1
        } else {
            seen
        };
        if t0 < td {
            Some(
                TextRange {
                    start: (acc + (t0 - run.lo)) as Length,
                    end: (acc + (td - run.lo)) as Length,
                },
            )
        } else {
            None
        }
    }
}

/// Appends a deleted range, merging it with the last when they touch.
pub open spec fn sp_push_range(ranges: Seq<TextRange>, r: TextRange) -> Seq<TextRange> {
    if ranges.len() > 0 && ranges.last().end == r.start {
        ranges.update(ranges.len() - 1, TextRange { start: ranges.last().start, end: r.end })
    } else {
        ranges.push(r)
    }
}

/// Rewrites the fragments from index `i` on under a deletion of `[gs, ge)`
/// filtered by the deleter's version map, accumulating the rebuilt
/// sequence and the deleted visible ranges.
pub open spec fn sp_merge_del(
    s: Seq<EditRun>,
    i: int,
    gi: int,
    acc: int,
    gs: int,
    ge: int,
    vm: crate::BaseMap,
    out: Seq<EditRun>,
    ranges: Seq<TextRange>,
) -> (Seq<EditRun>, Seq<TextRange>)
    decreases s.len() - i,
{
    if i < 0 || i >= s.len() {
        (out, ranges)
    } else {
        let run = s[i];
        let seen = crate::idmap::entries_get(vm.entries@, run.inserter);
        let ranges2 = match sp_del_range(run, gi, acc, gs, ge, seen) {
            None => ranges,
            Some(r) => sp_push_range(ranges, r),
        };
        sp_merge_del(
            s,
            i + 1,
            gi + (run.hi - run.lo),
            acc + run_visible_chars(run),
            gs,
            ge,
            vm,
            out + sp_del_pieces(run, gi, gs, ge, seen),
            ranges2,
        )
    }
}

/// The whole remote-deletion transition: locate the two anchors'
/// boundaries and tombstone every visible character between them that the
/// deleter had seen. A deletion whose anchors are unknown or inverted
/// (never the case for a ready operation) changes nothing.
pub open spec fn sp_merge_deletion(s: Seq<EditRun>, del: crate::Deletion) -> (
    Seq<EditRun>,
    Seq<TextRange>,
) {
    if sp_boundary(s, del.start) is Some && sp_boundary(s, del.end) is Some {
        let gs = sp_boundary(s, del.start).unwrap();
        let ge = sp_boundary(s, del.end).unwrap();
        if ge <= gs {
            (s, Seq::empty())
        } else {
            sp_merge_del(s, 0, 0, 0, gs, ge, del.version_map, Seq::empty(), Seq::empty())
        }
    } else {
        (s, Seq::empty())
    }
}


/// The pieces a fragment splits into under a local deletion of the visible
/// range `[start, end)`, where `acc` is the fragment's first visible
/// offset.
pub open spec fn sp_local_pieces(run: EditRun, acc: int, start: Length, end: Length) -> Seq<EditRun> {
    let a = if start > acc {
        start as int
    } else {
        acc
    };
    let b = if (end as int) < acc + (run.hi - run.lo) {
        end as int
    } else {
        acc + (run.hi - run.lo)
    };
    if !run.visible || a >= b {
        seq![run]
    } else {
        let t0 = (run.lo + (a - acc)) as Length;
        let t1 = (run.lo + (b - acc)) as Length;
        let mid = EditRun {
            inserter: run.inserter,
            lo: t0,
            hi: t1,
            run_ts: run.run_ts,
            lamport_ts: run.lamport_ts,
            parent: if run.lo < t0 {
                InnerAnchor { replica_id: run.inserter, contained_in: run.run_ts, offset: t0 }
            } else {
                run.parent
            },
            visible: false,
        };
        let before = if run.lo < t0 {
            seq![split_left(run, t0)]
        } else {
            Seq::<EditRun>::empty()
        };
        let after = if t1 < run.hi {
            seq![
                EditRun {
                    inserter: run.inserter,
                    lo: t1,
                    hi: run.hi,
                    run_ts: run.run_ts,
                    lamport_ts: run.lamport_ts,
                    parent: InnerAnchor {
                        replica_id: run.inserter,
                        contained_in: run.run_ts,
                        offset: t1,
                    },
                    visible: true,
                },
            ]
        } else {
            Seq::<EditRun>::empty()
        };
        before + seq![mid] + after
    }
}

/// Rewrites the fragments from index `i` on under a local deletion of the
/// visible range `[start, end)`.
pub open spec fn sp_local_del(
    s: Seq<EditRun>,
    i: int,
    acc: int,
    start: Length,
    end: Length,
    out: Seq<EditRun>,
) -> Seq<EditRun>
    decreases s.len() - i,
{
    if i < 0 || i >= s.len() {
        out
    } else {
        sp_local_del(
            s,
            i + 1,
            acc + run_visible_chars(s[i]),
            start,
            end,
            out + sp_local_pieces(s[i], acc, start, end),
        )
    }
}

/// The whole local-deletion transition: tombstone the visible range
/// `[start, end)` and name its edges. Returns the new sequence, the anchor
/// before the first deleted character, and the anchor after the last one.
pub open spec fn sp_delete_local(s: Seq<EditRun>, start: Length, end: Length) -> (
    Seq<EditRun>,
    InnerAnchor,
    InnerAnchor,
) {
    let start_anchor = if start == 0 {
        InnerAnchor { replica_id: 0, contained_in: 0, offset: 0 }
    } else {
        let f = sp_char_at(s, start - 1, 0, 0);
        InnerAnchor {
            replica_id: s[f.0].inserter,
            contained_in: s[f.0].run_ts,
            offset: (f.1 + 1) as Length,
        }
    };
    let fe = sp_char_at(s, end - 1, 0, 0);
    let end_anchor = InnerAnchor {
        replica_id: s[fe.0].inserter,
        contained_in: s[fe.0].run_ts,
        offset: (fe.1 + 1) as Length,
    };
    (sp_local_del(s, 0, 0, start, end, Seq::empty()), start_anchor, end_anchor)
}

/// The replicas owning visible characters inside the locally deleted
/// visible range `[start, end)`, scanning from index `i` with visible
/// prefix `acc`.
pub open spec fn deletion_owners(
    s: Seq<EditRun>,
    i: int,
    acc: int,
    start: Length,
    end: Length,
) -> Set<ReplicaId>
    decreases s.len() - i,
{
    if i < 0 || i >= s.len() {
        Set::empty()
    } else {
        let rest = deletion_owners(s, i + 1, acc + run_visible_chars(s[i]), start, end);
        let a = if start > acc {
            start as int
        } else {
            acc
        };
        let b = if (end as int) < acc + (s[i].hi - s[i].lo) {
            end as int
        } else {
            acc + (s[i].hi - s[i].lo)
        };
        if s[i].visible && a < b {
            rest.insert(s[i].inserter)
        } else {
            rest
        }
    }
}

/// Scanning further never finds more owners.
proof fn lemma_owners_shrink(s: Seq<EditRun>, i: int, acc: int, start: Length, end: Length)
    requires
        0 <= i < s.len(),
    ensures
        deletion_owners(s, i + 1, acc + run_visible_chars(s[i]), start, end).subset_of(
            deletion_owners(s, i, acc, start, end),
        ),
{
}

pub proof fn lemma_take_snoc(s: Seq<EditRun>, i: int)
    requires
        0 <= i < s.len(),
    ensures
        total_chars(s.take(i + 1)) == total_chars(s.take(i)) + run_chars(s[i]),
        visible_chars(s.take(i + 1)) == visible_chars(s.take(i)) + run_visible_chars(s[i]),
{
    assert(s.take(i + 1).drop_last() =~= s.take(i));
    assert(s.take(i + 1).last() == s[i]);
}

pub proof fn lemma_sums_nonneg(s: Seq<EditRun>)
    requires
        forall|i: int| 0 <= i < s.len() ==> (#[trigger] s[i]).lo <= s[i].hi,
    ensures
        0 <= visible_chars(s),
        visible_chars(s) <= total_chars(s),
    decreases s.len(),
{
    if s.len() > 0 {
        lemma_sums_nonneg(s.drop_last());
    }
}

/// A prefix never holds more characters than the whole.
pub proof fn lemma_prefix_le(s: Seq<EditRun>, i: int)
    requires
        0 <= i <= s.len(),
        forall|k: int| 0 <= k < s.len() ==> (#[trigger] s[k]).lo <= s[k].hi,
    ensures
        total_chars(s.take(i)) <= total_chars(s),
        visible_chars(s.take(i)) <= visible_chars(s),
        0 <= total_chars(s.take(i)),
        0 <= visible_chars(s.take(i)),
    decreases s.len() - i,
{
    if i == s.len() {
        assert(s.take(i) =~= s);
        lemma_sums_nonneg(s);
    } else {
        lemma_take_snoc(s, i);
        lemma_prefix_le(s, i + 1);
        lemma_sums_nonneg(s.take(i));
    }
}

/// Inserting a fragment adds its characters to both sums.
pub proof fn lemma_sum_insert(s: Seq<EditRun>, i: int, x: EditRun)
    requires
        0 <= i <= s.len(),
    ensures
        total_chars(s.insert(i, x)) == total_chars(s) + run_chars(x),
        visible_chars(s.insert(i, x)) == visible_chars(s) + run_visible_chars(x),
    decreases s.len() - i,
{
    let t = s.insert(i, x);
    if i == s.len() {
        assert(t.drop_last() =~= s);
        assert(t.last() == x);
    } else {
        assert(t.drop_last() =~= s.drop_last().insert(i, x));
        assert(t.last() == s.last());
        lemma_sum_insert(s.drop_last(), i, x);
    }
}

/// Replacing a fragment swaps its contribution in both sums.
pub proof fn lemma_sum_update(s: Seq<EditRun>, i: int, x: EditRun)
    requires
        0 <= i < s.len(),
    ensures
        total_chars(s.update(i, x)) == total_chars(s) - run_chars(s[i]) + run_chars(x),
        visible_chars(s.update(i, x)) == visible_chars(s) - run_visible_chars(s[i])
            + run_visible_chars(x),
    decreases s.len(),
{
    let t = s.update(i, x);
    if i == s.len() - 1 {
        assert(t.drop_last() =~= s.drop_last());
        assert(t.last() == x);
    } else {
        assert(t.drop_last() =~= s.drop_last().update(i, x));
        assert(t.last() == s.last());
        lemma_sum_update(s.drop_last(), i, x);
    }
}

/// The CRDT-ordered sequence of edit-run fragments.
#[derive(Debug, Clone, PartialEq, Eq)]
pub struct RunTree {
    pub runs: Vec<EditRun>,
}

impl RunTree {
    pub open spec fn wf(&self) -> bool {
        runs_wf(self.runs@)
    }

    pub open spec fn runs_spec(&self) -> Seq<EditRun> {
        self.runs@
    }

    /// The current visible length of the document.
    pub open spec fn len_spec(&self) -> int {
        visible_chars(self.runs@)
    }

    pub open spec fn total_spec(&self) -> int {
        total_chars(self.runs@)
    }

    /// A tree holding a single fragment.
    pub fn new(first: EditRun) -> (r: Self)
        requires
            first.wf(),
        ensures
            r.runs_spec() == seq![first],
            r.wf(),
            r.len_spec() == run_visible_chars(first),
            r.total_spec() == run_chars(first),
    {
        let mut runs: Vec<EditRun> = Vec::new();
        runs.push(first);
        proof {
            assert(runs@ =~= seq![first]);
            assert(runs@.drop_last() =~= Seq::<EditRun>::empty());
            assert(total_chars(Seq::<EditRun>::empty()) == 0);
            assert(visible_chars(Seq::<EditRun>::empty()) == 0);
            assert(total_chars(runs@) == run_chars(first));
            assert(visible_chars(runs@) == run_visible_chars(first));
        }
        RunTree { runs }
    }

    /// The visible length of the document.
    pub fn len(&self) -> (r: Length)
        requires
            self.wf(),
        ensures
            r == self.len_spec(),
    {
        let n = self.runs.len();
        let mut acc: u64 = 0;
        let mut i: usize = 0;
        while i < n
            invariant
                self.wf(),
                n == self.runs@.len(),
                0 <= i <= n,
                acc == visible_chars(self.runs@.take(i as int)),
            decreases n - i,
        {
            let run = self.runs[i];
            proof {
                lemma_take_snoc(self.runs@, i as int);
                lemma_prefix_le(self.runs@, i + 1);
                lemma_sums_nonneg(self.runs@);
            }
            if run.visible {
                acc = acc + (run.hi - run.lo);
            }
            i = i + 1;
        }
        proof {
            assert(self.runs@.take(n as int) =~= self.runs@);
        }
        acc
    }

    /// The number of visible characters strictly before fragment `i`.
    fn visible_prefix(&self, i: usize) -> (r: Length)
        requires
            self.wf(),
            i <= self.runs_spec().len(),
        ensures
            r == visible_chars(self.runs_spec().take(i as int)),
    {
        let mut acc: u64 = 0;
        let mut k: usize = 0;
        while k < i
            invariant
                self.wf(),
                i <= self.runs@.len(),
                0 <= k <= i,
                acc == visible_chars(self.runs@.take(k as int)),
            decreases i - k,
        {
            let run = self.runs[k];
            proof {
                lemma_take_snoc(self.runs@, k as int);
                lemma_prefix_le(self.runs@, k + 1);
                lemma_sums_nonneg(self.runs@);
            }
            if run.visible {
                acc = acc + (run.hi - run.lo);
            }
            k = k + 1;
        }
        acc
    }

    /// The number of characters, tombstones included, strictly before
    /// fragment `i`.
    fn char_prefix(&self, i: usize) -> (r: Length)
        requires
            self.wf(),
            i <= self.runs_spec().len(),
        ensures
            r == total_chars(self.runs_spec().take(i as int)),
    {
        let mut acc: u64 = 0;
        let mut k: usize = 0;
        while k < i
            invariant
                self.wf(),
                i <= self.runs@.len(),
                0 <= k <= i,
                acc == total_chars(self.runs@.take(k as int)),
            decreases i - k,
        {
            let run = self.runs[k];
            proof {
                lemma_take_snoc(self.runs@, k as int);
                lemma_prefix_le(self.runs@, k + 1);
                lemma_sums_nonneg(self.runs@);
            }
            acc = acc + (run.hi - run.lo);
            k = k + 1;
        }
        acc
    }

    /// Finds the fragment holding the character `(anchor.replica_id,
    /// anchor.offset - 1)`, if it has been integrated.
    fn find_fragment(&self, anchor: InnerAnchor) -> (r: Option<usize>)
        requires
            self.wf(),
        ensures
            match r {
                Some(k) => frag_matches(self.runs_spec(), k as int, anchor) && forall|j: int|
                    0 <= j < k ==> !frag_matches(self.runs_spec(), j, anchor),
                None => forall|j: int| !frag_matches(self.runs_spec(), j, anchor),
            },
    {
        let n = self.runs.len();
        let mut i: usize = 0;
        while i < n
            invariant
                self.wf(),
                n == self.runs@.len(),
                0 <= i <= n,
                forall|j: int| 0 <= j < i ==> !frag_matches(self.runs@, j, anchor),
            decreases n - i,
        {
            let run = self.runs[i];
            if run.inserter == anchor.replica_id && run.run_ts == anchor.contained_in
                && run.lo < anchor.offset && anchor.offset <= run.hi {
                return Some(i);
            }
            i = i + 1;
        }
        None
    }

    /// The global character index (tombstones included) of the boundary an
    /// anchor denotes, or `None` if the anchor's character is unknown.
    fn boundary_index(&self, anchor: InnerAnchor) -> (r: Option<Length>)
        requires
            self.wf(),
        ensures
            match r {
                Some(g) => g <= self.total_spec() && sp_boundary(self.runs_spec(), anchor)
                    == Some(g as int),
                None => sp_boundary(self.runs_spec(), anchor) is None,
            },
    {
        if anchor.replica_id == 0 {
            proof {
                lemma_sums_nonneg(self.runs@);
            }
            return Some(0);
        }
        match self.find_fragment(anchor) {
            Some(k) => {
                let before = self.char_prefix(k);
                let run = self.runs[k];
                proof {
                    lemma_take_snoc(self.runs@, k as int);
                    lemma_prefix_le(self.runs@, k as int + 1);
                    lemma_sp_find_from(self.runs@, anchor, 0, k as int);
                }
                Some(before + (anchor.offset - run.lo))
            },
            None => {
                proof {
                    lemma_sp_find_none_from(self.runs@, anchor, 0);
                }
                None
            },
        }
    }

    /// Finds the visible character at visible offset `p`: returns the index
    /// of its fragment and its character timestamp.
    fn char_at_visible(&self, p: Length) -> (r: (usize, Length))
        requires
            self.wf(),
            p < self.len_spec(),
        ensures
            r.0 < self.runs_spec().len(),
            self.runs_spec()[r.0 as int].visible,
            self.runs_spec()[r.0 as int].lo <= r.1 < self.runs_spec()[r.0 as int].hi,
            visible_chars(self.runs_spec().take(r.0 as int)) + (r.1 - self.runs_spec()[
                r.0 as int].lo) == p,
            sp_char_at(self.runs_spec(), p as int, 0, 0) == (r.0 as int, r.1),
    {
        let n = self.runs.len();
        let mut acc: u64 = 0;
        let mut i: usize = 0;
        loop
            invariant
                self.wf(),
                n == self.runs@.len(),
                p < self.len_spec(),
                0 <= i <= n,
                acc == visible_chars(self.runs@.take(i as int)),
                acc <= p,
                sp_char_at(self.runs@, p as int, 0, 0) == sp_char_at(
                    self.runs@,
                    p as int,
                    i as int,
                    acc as int,
                ),
            decreases n - i,
        {
            proof {
                if i as int == n {
                    assert(self.runs@.take(n as int) =~= self.runs@);
                    assert(false);
                }
            }
            let run = self.runs[i];
            proof {
                lemma_take_snoc(self.runs@, i as int);
                lemma_prefix_le(self.runs@, i + 1);
                lemma_sums_nonneg(self.runs@);
            }
            if run.visible && p - acc < run.hi - run.lo {
                return (i, run.lo + (p - acc));
            }
            if run.visible {
                acc = acc + (run.hi - run.lo);
            }
            i = i + 1;
        }
    }

    /// Splits fragment `k` at character timestamp `at`, leaving `[lo, at)`
    /// at `k` and `[at, hi)` right after it. Both pieces keep the run's
    /// identity and visibility; the right piece is parented at the split
    /// boundary.
    fn split_fragment(&mut self, k: usize, at: Length)
        requires
            old(self).wf(),
            k < old(self).runs_spec().len(),
            old(self).runs_spec()[k as int].lo < at < old(self).runs_spec()[k as int].hi,
        ensures
            final(self).wf(),
            final(self).len_spec() == old(self).len_spec(),
            final(self).total_spec() == old(self).total_spec(),
            final(self).runs_spec().len() == old(self).runs_spec().len() + 1,
            final(self).runs_spec()[k as int].hi == at,
            final(self).runs_spec()[k as int].inserter == old(self).runs_spec()[k as int].inserter,
            final(self).runs_spec()[k as int].run_ts == old(self).runs_spec()[k as int].run_ts,
            final(self).runs_spec()[k as int].lamport_ts == old(self).runs_spec()[
                k as int].lamport_ts,
            final(self).runs_spec() == old(self).runs_spec().update(
                k as int,
                split_left(old(self).runs_spec()[k as int], at),
            ).insert(k as int + 1, split_right(old(self).runs_spec()[k as int], at)),
    {
        // Reading the length brings the vector's size bound into scope.
        let _n = self.runs.len();
        let run = self.runs[k];
        let left = EditRun {
            inserter: run.inserter,
            lo: run.lo,
            hi: at,
            run_ts: run.run_ts,
            lamport_ts: run.lamport_ts,
            parent: run.parent,
            visible: run.visible,
        };
        let right = EditRun {
            inserter: run.inserter,
            lo: at,
            hi: run.hi,
            run_ts: run.run_ts,
            lamport_ts: run.lamport_ts,
            parent: InnerAnchor::new(run.inserter, at, run.run_ts),
            visible: run.visible,
        };
        let ghost s0 = self.runs@;
        self.runs[k] = left;
        let ghost s1 = self.runs@;
        self.runs.insert(k + 1, right);
        proof {
            lemma_sum_update(s0, k as int, left);
            lemma_sum_insert(s1, k as int + 1, right);
            assert forall|i: int| 0 <= i < self.runs@.len() implies (#[trigger] self.runs@[i]).wf() by {
                if i < k as int {
                    assert(self.runs@[i] == s0[i]);
                } else if i == k as int + 1 {
                    assert(self.runs@[i] == right);
                } else if i > k as int + 1 {
                    assert(self.runs@[i] == s0[i - 1]);
                }
            }
        }
    }

    /// Locates the boundary a remote insertion attaches to, splitting the
    /// anchor's fragment when the boundary falls inside it. Returns the scan
    /// start index, the boundary's character position, whether the insertion
    /// continues the anchor's run, and the effective Lamport timestamp.
    fn locate_insertion(&mut self, ins: &Insertion) -> (r: (usize, Length, bool, LamportTs))
        requires
            old(self).wf(),
            ins.wf(),
        ensures
            final(self).wf(),
            final(self).len_spec() == old(self).len_spec(),
            final(self).total_spec() == old(self).total_spec(),
            r.0 <= final(self).runs_spec().len(),
            r.1 <= final(self).total_spec(),
            sp_merge_insertion(old(self).runs_spec(), *ins) == sp_place(
                final(self).runs_spec(),
                r.1 as int,
                r.2,
                r.3,
                *ins,
                r.0 as int,
            ),
    {
        let ghost s0 = self.runs@;
        let a = ins.anchor;
        if a.replica_id() != 0 {
            match self.find_fragment(a) {
                Some(k) => {
                    let run = self.runs[k];
                    if a.offset() < run.hi {
                        self.split_fragment(k, a.offset());
                    }
                    let _n = self.runs.len();
                    let p = self.char_prefix(k + 1);
                    let is_cont = ins.text.inserter == a.replica_id() && ins.run_ts == run.run_ts
                        && ins.text.start == a.offset();
                    let eff = if is_cont {
                        run.lamport_ts
                    } else {
                        ins.lamport_ts
                    };
                    proof {
                        lemma_sp_find_from(s0, a, 0, k as int);
                        lemma_prefix_le(self.runs@, k as int + 1);
                        assert(sp_merge_insertion(s0, *ins) == sp_place(
                            self.runs@,
                            p as int,
                            is_cont,
                            eff,
                            *ins,
                            k as int + 1,
                        ));
                    }
                    (k + 1, p, is_cont, eff)
                },
                None => {
                    // The anchor's run is unknown; readiness checks keep this
                    // from happening, but the placement stays total.
                    proof {
                        lemma_sp_find_none_from(s0, a, 0);
                        lemma_sums_nonneg(self.runs@);
                    }
                    (0, 0, false, ins.lamport_ts)
                },
            }
        } else {
            proof {
                lemma_sums_nonneg(self.runs@);
            }
            (0, 0, false, ins.lamport_ts)
        }
    }

    /// Places the characters of a remote insertion, returning the visible
    /// offset at which the host buffer should insert them.
    ///
    /// The whole transition is [`sp_merge_insertion`]: the position among
    /// the runs sharing the same anchor is decided by higher Lamport
    /// timestamp first, ties broken by higher replica id, so every replica
    /// chooses the same interleaving. An insertion that continues an
    /// already-integrated run of the same replica orders after every
    /// concurrent sibling and keeps the run's original Lamport timestamp.
    pub fn merge_insertion(&mut self, ins: &crate::Insertion) -> (offset: Length)
        requires
            old(self).wf(),
            ins.wf(),
            !ins.is_no_op_spec(),
            old(self).total_spec() + ins.len_spec() <= u64::MAX,
        ensures
            final(self).wf(),
            final(self).len_spec() == old(self).len_spec() + ins.len_spec(),
            final(self).total_spec() == old(self).total_spec() + ins.len_spec(),
            offset <= old(self).len_spec(),
            ({
                let t = sp_merge_insertion(old(self).runs_spec(), *ins);
                final(self).runs_spec() == t.0 && offset == t.1
            }),
            exists|j: int|
                0 <= j < final(self).runs_spec().len()
                    && (#[trigger] final(self).runs_spec()[j]).inserter == ins.text.inserter
                    && final(self).runs_spec()[j].run_ts == ins.run_ts
                    && final(self).runs_spec()[j].lo <= ins.text.start
                    && final(self).runs_spec()[j].hi == ins.text.end
                    && final(self).runs_spec()[j].visible
                    && offset == visible_chars(final(self).runs_spec().take(j)) + (ins.text.start
                    - final(self).runs_spec()[j].lo),
    {
        let a = ins.anchor;
        let located = self.locate_insertion(ins);
        let start_idx = located.0;
        let p = located.1;
        let is_cont = located.2;
        let eff_lamport = located.3;
        let ghost s1 = *self;
        let mut i: usize = start_idx;
        loop
            invariant
                *self == s1,
                self.wf(),
                start_idx <= i,
                i <= self.runs@.len(),
                sp_scan(self.runs@, p as int, is_cont, *ins, start_idx as int) == sp_scan(
                    self.runs@,
                    p as int,
                    is_cont,
                    *ins,
                    i as int,
                ),
            ensures
                *self == s1,
                self.wf(),
                start_idx <= i,
                i <= self.runs@.len(),
                i as int == sp_scan(self.runs@, p as int, is_cont, *ins, start_idx as int),
            decreases self.runs@.len() - i,
        {
            if i >= self.runs.len() {
                break ;
            }
            let r = self.runs[i];
            let q = match self.boundary_index(r.parent) {
                Some(q) => q,
                None => 0,
            };
            proof {
                assert(scan_wins(self.runs@, r, p as int, is_cont, *ins) == (q > p || (q == p && (
                is_cont || r.lamport_ts > ins.lamport_ts || (r.lamport_ts == ins.lamport_ts
                    && r.inserter > ins.text.inserter)))));
            }
            if q > p {
                i = i + 1;
            } else if q < p {
                break ;
            } else if is_cont {
                i = i + 1;
            } else if r.lamport_ts > ins.lamport_ts || (r.lamport_ts == ins.lamport_ts
                && r.inserter > ins.text.inserter) {
                i = i + 1;
            } else {
                break ;
            }
        }
        let ghost s1v = self.runs@;
        let offset = self.visible_prefix(i);
        proof {
            lemma_prefix_le(self.runs@, i as int);
        }
        if i > 0 {
            let prev = self.runs[i - 1];
            if prev.inserter == ins.text.inserter && prev.run_ts == ins.run_ts && prev.hi
                == ins.text.start && prev.visible {
                let merged = EditRun {
                    inserter: prev.inserter,
                    lo: prev.lo,
                    hi: ins.text.end,
                    run_ts: prev.run_ts,
                    lamport_ts: prev.lamport_ts,
                    parent: prev.parent,
                    visible: true,
                };
                let ghost s2 = self.runs@;
                self.runs[i - 1] = merged;
                proof {
                    lemma_sum_update(s2, i as int - 1, merged);
                    assert forall|j: int| 0 <= j < self.runs@.len() implies (#[trigger] self.runs@[j]).wf() by {
                        if j != i as int - 1 {
                            assert(self.runs@[j] == s2[j]);
                        }
                    }
                    assert(merged == merged_run(s2[i as int - 1], *ins));
                    assert(sp_place(s1v, p as int, is_cont, eff_lamport, *ins, start_idx as int)
                        == (self.runs@, offset as int));
                    assert(self.runs_spec().take(i - 1) =~= s2.take(i - 1));
                    lemma_take_snoc(s2, i as int - 1);
                    assert((self.runs_spec()[i - 1]).inserter == ins.text.inserter
                        && self.runs_spec()[i - 1].run_ts == ins.run_ts && self.runs_spec()[i
                        - 1].lo <= ins.text.start && self.runs_spec()[i - 1].hi == ins.text.end
                        && self.runs_spec()[i - 1].visible && offset == visible_chars(
                        self.runs_spec().take(i - 1),
                    ) + (ins.text.start - self.runs_spec()[i - 1].lo));
                }
                return offset;
            }
        }
        let new_run = EditRun {
            inserter: ins.text.inserter,
            lo: ins.text.start,
            hi: ins.text.end,
            run_ts: ins.run_ts,
            lamport_ts: eff_lamport,
            parent: a,
            visible: true,
        };
        let ghost s2 = self.runs@;
        self.runs.insert(i, new_run);
        proof {
            lemma_sum_insert(s2, i as int, new_run);
            assert forall|j: int| 0 <= j < self.runs@.len() implies (#[trigger] self.runs@[j]).wf() by {
                if j < i as int {
                    assert(self.runs@[j] == s2[j]);
                } else if j > i as int {
                    assert(self.runs@[j] == s2[j - 1]);
                }
            }
            assert(new_run == placed_run(*ins, eff_lamport));
            assert(sp_place(s1v, p as int, is_cont, eff_lamport, *ins, start_idx as int) == (
            self.runs@, offset as int));
            assert(self.runs_spec().take(i as int) =~= s2.take(i as int));
            assert((self.runs_spec()[i as int]).inserter == ins.text.inserter
                && self.runs_spec()[i as int].run_ts == ins.run_ts && self.runs_spec()[
                i as int].lo <= ins.text.start && self.runs_spec()[i as int].hi == ins.text.end
                && self.runs_spec()[i as int].visible && offset == visible_chars(
                self.runs_spec().take(i as int),
            ) + (ins.text.start - self.runs_spec()[i as int].lo));
        }
        offset
    }

    /// Records a local insertion of `text` at visible offset `at_offset`.
    ///
    /// Returns the anchor the insertion attaches to, the run timestamp of
    /// the run now holding the characters, and whether an existing run was
    /// extended (in which case the caller must not advance its clocks).
    pub fn insert_local(
        &mut self,
        at_offset: Length,
        text: Text,
        new_run_ts: RunTs,
        new_lamport: LamportTs,
    ) -> (r: (InnerAnchor, RunTs, bool))
        requires
            old(self).wf(),
            text.wf(),
            text.inserter != 0,
            text.start < text.end,
            at_offset <= old(self).len_spec(),
            old(self).total_spec() + text.len_spec() <= u64::MAX,
        ensures
            final(self).wf(),
            final(self).len_spec() == old(self).len_spec() + text.len_spec(),
            final(self).total_spec() == old(self).total_spec() + text.len_spec(),
            r.0.wf(),
            (r.0 == InnerAnchor::zero_spec()) <==> (at_offset == 0),
            !r.2 ==> r.1 == new_run_ts,
            r.2 ==> r.1 == r.0.contained_in,
            at_offset >= 1 ==> anchor_has_witness(old(self).runs_spec(), at_offset - 1, r.0),
            ({
                let t = sp_insert_local(
                    old(self).runs_spec(),
                    at_offset,
                    text,
                    new_run_ts,
                    new_lamport,
                );
                final(self).runs_spec() == t.0 && r.0 == t.1 && r.1 == t.2 && r.2 == t.3
            }),
    {
        if at_offset == 0 {
            let new_run = EditRun {
                inserter: text.inserter,
                lo: text.start,
                hi: text.end,
                run_ts: new_run_ts,
                lamport_ts: new_lamport,
                parent: InnerAnchor::zero(),
                visible: true,
            };
            let ghost s0 = self.runs@;
            self.runs.insert(0, new_run);
            proof {
                lemma_sum_insert(s0, 0, new_run);
                assert forall|j: int| 0 <= j < self.runs@.len() implies (#[trigger] self.runs@[j]).wf() by {
                    if j > 0 {
                        assert(self.runs@[j] == s0[j - 1]);
                    }
                }
            }
            return (InnerAnchor::zero(), new_run_ts, false);
        }
        proof {
            lemma_sums_nonneg(self.runs@);
        }
        let found = self.char_at_visible(at_offset - 1);
        let k = found.0;
        let ts = found.1;
        let n = self.runs.len();
        let run = self.runs[k];
        let anchor = InnerAnchor::new(run.inserter, ts + 1, run.run_ts);
        if ts + 1 == run.hi {
            // The boundary falls at the end of fragment `k`.
            let has_child = if k + 1 < n {
                let next = self.runs[k + 1];
                next.parent == anchor
            } else {
                false
            };
            if run.inserter == text.inserter && run.hi == text.start && !has_child {
                // Extend the run in place: the new characters stay part of
                // it, and no sibling can order between.
                let extended = EditRun {
                    inserter: run.inserter,
                    lo: run.lo,
                    hi: text.end,
                    run_ts: run.run_ts,
                    lamport_ts: run.lamport_ts,
                    parent: run.parent,
                    visible: true,
                };
                let ghost s0 = self.runs@;
                self.runs[k] = extended;
                proof {
                    lemma_sum_update(s0, k as int, extended);
                    assert forall|j: int| 0 <= j < self.runs@.len() implies (#[trigger] self.runs@[j]).wf() by {
                        if j != k as int {
                            assert(self.runs@[j] == s0[j]);
                        }
                    }
                    lemma_anchor_witness(old(self).runs_spec(), k as int, at_offset - 1, anchor);
                }
                return (anchor, run.run_ts, true);
            }
            let new_run = EditRun {
                inserter: text.inserter,
                lo: text.start,
                hi: text.end,
                run_ts: new_run_ts,
                lamport_ts: new_lamport,
                parent: anchor,
                visible: true,
            };
            let ghost s0 = self.runs@;
            self.runs.insert(k + 1, new_run);
            proof {
                lemma_sum_insert(s0, k as int + 1, new_run);
                assert forall|j: int| 0 <= j < self.runs@.len() implies (#[trigger] self.runs@[j]).wf() by {
                    if j < k as int + 1 {
                        assert(self.runs@[j] == s0[j]);
                    } else if j > k as int + 1 {
                        assert(self.runs@[j] == s0[j - 1]);
                    }
                }
                lemma_anchor_witness(old(self).runs_spec(), k as int, at_offset - 1, anchor);
            }
            (anchor, new_run_ts, false)
        } else {
            // The boundary falls inside fragment `k`: split it and place the
            // new run between the two pieces.
            self.split_fragment(k, ts + 1);
            let _n = self.runs.len();
            let new_run = EditRun {
                inserter: text.inserter,
                lo: text.start,
                hi: text.end,
                run_ts: new_run_ts,
                lamport_ts: new_lamport,
                parent: anchor,
                visible: true,
            };
            let ghost s0 = self.runs@;
            self.runs.insert(k + 1, new_run);
            proof {
                lemma_sum_insert(s0, k as int + 1, new_run);
                assert forall|j: int| 0 <= j < self.runs@.len() implies (#[trigger] self.runs@[j]).wf() by {
                    if j < k as int + 1 {
                        assert(self.runs@[j] == s0[j]);
                    } else if j > k as int + 1 {
                        assert(self.runs@[j] == s0[j - 1]);
                    }
                }
                lemma_anchor_witness(old(self).runs_spec(), k as int, at_offset - 1, anchor);
            }
            (anchor, new_run_ts, false)
        }
    }
}

/// How many characters of `[start, end)` lie below a visible prefix of
/// length `acc`.
pub open spec fn deleted_below(start: Length, end: Length, acc: int) -> int {
    if acc <= start {
        0
    } else if acc >= end {
        end - start
    } else {
        acc - start
    }
}

/// Whether `p` is a piece of some fragment of `s`: the same run identity,
/// an interval inside the source's, and visibility only turned off. A
/// deletion rewrites the sequence into such pieces and nothing else.
pub open spec fn piece_of(p: EditRun, s: Seq<EditRun>) -> bool {
    exists|i: int|
        0 <= i < s.len() && (#[trigger] s[i]).inserter == p.inserter && s[i].run_ts == p.run_ts
            && s[i].lamport_ts == p.lamport_ts && s[i].lo <= p.lo && p.hi <= s[i].hi && (p.visible
            ==> s[i].visible)
}

/// Whether every fragment of `post` is a piece of some fragment of `pre`:
/// a deletion only splits fragments and clears visibility.
pub open spec fn pieces_of(post: Seq<EditRun>, pre: Seq<EditRun>) -> bool {
    forall|j: int| 0 <= j < post.len() ==> piece_of(#[trigger] post[j], pre)
}

/// How many fragments of `s` span zero characters.
pub open spec fn zero_len_count(s: Seq<EditRun>) -> int
    decreases s.len(),
{
    if s.len() == 0 {
        0
    } else {
        zero_len_count(s.drop_last()) + if s.last().lo == s.last().hi {
            1int
        } else {
            0int
        }
    }
}

/// The total width of a list of offset ranges.
pub open spec fn ranges_sum(s: Seq<crate::TextRange>) -> int
    decreases s.len(),
{
    if s.len() == 0 {
        0
    } else {
        ranges_sum(s.drop_last()) + (s.last().end - s.last().start)
    }
}

/// A list of well-formed ranges has non-negative total width.
proof fn lemma_ranges_sum_nonneg(s: Seq<crate::TextRange>)
    requires
        forall|j: int| 0 <= j < s.len() ==> (#[trigger] s[j]).start <= s[j].end,
    ensures
        0 <= ranges_sum(s),
    decreases s.len(),
{
    if s.len() > 0 {
        lemma_ranges_sum_nonneg(s.drop_last());
    }
}

/// Replacing the last range swaps its width in the total.
proof fn lemma_ranges_sum_update_last(s: Seq<crate::TextRange>, x: crate::TextRange)
    requires
        s.len() > 0,
    ensures
        ranges_sum(s.update(s.len() - 1, x)) == ranges_sum(s) - (s.last().end - s.last().start) + (
        x.end - x.start),
{
    let t = s.update(s.len() - 1, x);
    assert(t.drop_last() =~= s.drop_last());
    assert(t.last() == x);
}

/// Appends a fragment to a sequence being rebuilt, keeping the running sums.
fn push_piece(out: &mut Vec<EditRun>, piece: EditRun)
    requires
        piece.wf(),
        forall|i: int| 0 <= i < old(out)@.len() ==> (#[trigger] old(out)@[i]).wf(),
    ensures
        final(out)@ == old(out)@.push(piece),
        forall|i: int| 0 <= i < final(out)@.len() ==> (#[trigger] final(out)@[i]).wf(),
        total_chars(final(out)@) == total_chars(old(out)@) + run_chars(piece),
        visible_chars(final(out)@) == visible_chars(old(out)@) + run_visible_chars(piece),
{
    out.push(piece);
    proof {
        assert(out@.drop_last() =~= old(out)@);
        assert(out@.last() == piece);
        assert forall|i: int| 0 <= i < out@.len() implies (#[trigger] out@[i]).wf() by {
            if i < out@.len() - 1 {
                assert(out@[i] == old(out)@[i]);
            }
        }
    }
}

impl RunTree {
    /// Records a local deletion of the visible range `[start, end)`,
    /// tombstoning the covered characters.
    ///
    /// Returns the anchors naming the left edge of the first deleted
    /// character and the right edge of the last one, and records in
    /// `touched` the owners of every run the deletion touched.
    pub fn delete_local(
        &mut self,
        start: Length,
        end: Length,
        touched: &mut crate::BaseMap,
    ) -> (r: (InnerAnchor, InnerAnchor))
        requires
            old(self).wf(),
            old(touched).wf(),
            start < end,
            end <= old(self).len_spec(),
        ensures
            final(self).wf(),
            final(self).len_spec() == old(self).len_spec() - (end - start),
            final(self).total_spec() == old(self).total_spec(),
            final(touched).wf(),
            r.0.wf(),
            r.1.wf(),
            (r.0 == InnerAnchor::zero_spec()) <==> start == 0,
            start >= 1 ==> anchor_has_witness(old(self).runs_spec(), start - 1, r.0),
            anchor_has_witness(old(self).runs_spec(), end - 1, r.1),
            crate::idmap::entries_has_id(final(touched).entries_spec(), r.1.replica_id),
            r.0.replica_id != 0 ==> crate::idmap::entries_has_id(
                final(touched).entries_spec(),
                r.0.replica_id,
            ),
            forall|x: ReplicaId|
                crate::idmap::entries_has_id(final(touched).entries_spec(), x) <==> (
                crate::idmap::entries_has_id(old(touched).entries_spec(), x) || x
                    == r.1.replica_id || (r.0.replica_id != 0 && x == r.0.replica_id)
                    || deletion_owners(old(self).runs_spec(), 0, 0, start, end).contains(x)),
            pieces_of(final(self).runs_spec(), old(self).runs_spec()),
            ({
                let t = sp_delete_local(old(self).runs_spec(), start, end);
                final(self).runs_spec() == t.0 && r.0 == t.1 && r.1 == t.2
            }),
    {
        proof {
            lemma_sums_nonneg(self.runs@);
        }
        let start_anchor = if start == 0 {
            InnerAnchor::zero()
        } else {
            let found = self.char_at_visible(start - 1);
            let run = self.runs[found.0];
            let a = InnerAnchor::new(run.inserter, found.1 + 1, run.run_ts);
            proof {
                lemma_anchor_witness(old(self).runs_spec(), found.0 as int, start - 1, a);
            }
            a
        };
        let found_end = self.char_at_visible(end - 1);
        let end_run = self.runs[found_end.0];
        let end_anchor = InnerAnchor::new(end_run.inserter, found_end.1 + 1, end_run.run_ts);
        if start_anchor.replica_id() != 0 {
            touched.set(start_anchor.replica_id(), 0);
        }
        touched.set(end_anchor.replica_id(), 0);

        let ghost s = self.runs@;
        let n = self.runs.len();
        let mut out: Vec<EditRun> = Vec::new();
        let mut acc: Length = 0;
        let mut i: usize = 0;
        while i < n
            invariant
                runs_wf(s),
                s == self.runs@,
                start < end,
                end <= visible_chars(s),
                n == s.len(),
                0 <= i <= n,
                acc == visible_chars(s.take(i as int)),
                forall|j: int| 0 <= j < out@.len() ==> (#[trigger] out@[j]).wf(),
                total_chars(out@) == total_chars(s.take(i as int)),
                visible_chars(out@) == visible_chars(s.take(i as int)) - deleted_below(
                    start,
                    end,
                    acc as int,
                ),
                touched.wf(),
                crate::idmap::entries_has_id(touched.entries_spec(), end_anchor.replica_id),
                start_anchor.replica_id != 0 ==> crate::idmap::entries_has_id(
                    touched.entries_spec(),
                    start_anchor.replica_id,
                ),
                deletion_owners(s, i as int, acc as int, start, end).subset_of(
                    deletion_owners(s, 0, 0, start, end),
                ),
                forall|x: ReplicaId|
                    crate::idmap::entries_has_id(touched.entries_spec(), x) ==> (
                    crate::idmap::entries_has_id(old(touched).entries_spec(), x) || x
                        == end_anchor.replica_id || (start_anchor.replica_id != 0 && x
                        == start_anchor.replica_id) || deletion_owners(
                        s,
                        0,
                        0,
                        start,
                        end,
                    ).contains(x)),
                forall|x: ReplicaId|
                    (crate::idmap::entries_has_id(old(touched).entries_spec(), x) || x
                        == end_anchor.replica_id || (start_anchor.replica_id != 0 && x
                        == start_anchor.replica_id) || deletion_owners(
                        s,
                        0,
                        0,
                        start,
                        end,
                    ).contains(x)) ==> (crate::idmap::entries_has_id(touched.entries_spec(), x)
                        || deletion_owners(s, i as int, acc as int, start, end).contains(x)),
                forall|j: int| 0 <= j < out@.len() ==> piece_of(#[trigger] out@[j], s),
                sp_local_del(s, 0, 0, start, end, Seq::empty()) == sp_local_del(
                    s,
                    i as int,
                    acc as int,
                    start,
                    end,
                    out@,
                ),
            decreases n - i,
        {
            let run = self.runs[i];
            let ghost out0 = out@;
            let ghost acc0 = acc;
            proof {
                lemma_take_snoc(s, i as int);
                lemma_prefix_le(s, i + 1);
                lemma_sums_nonneg(s);
            }
            if !run.visible {
                push_piece(&mut out, run);
            } else {
                let vlen = run.hi - run.lo;
                let a = if start > acc {
                    start
                } else {
                    acc
                };
                let b = if end < acc + vlen {
                    end
                } else {
                    acc + vlen
                };
                if a >= b {
                    push_piece(&mut out, run);
                } else {
                    touched.set(run.inserter, 0);
                    let t0 = run.lo + (a - acc);
                    let t1 = run.lo + (b - acc);
                    if run.lo < t0 {
                        push_piece(
                            &mut out,
                            EditRun {
                                inserter: run.inserter,
                                lo: run.lo,
                                hi: t0,
                                run_ts: run.run_ts,
                                lamport_ts: run.lamport_ts,
                                parent: run.parent,
                                visible: true,
                            },
                        );
                    }
                    push_piece(
                        &mut out,
                        EditRun {
                            inserter: run.inserter,
                            lo: t0,
                            hi: t1,
                            run_ts: run.run_ts,
                            lamport_ts: run.lamport_ts,
                            parent: if run.lo < t0 {
                                InnerAnchor::new(run.inserter, t0, run.run_ts)
                            } else {
                                run.parent
                            },
                            visible: false,
                        },
                    );
                    if t1 < run.hi {
                        push_piece(
                            &mut out,
                            EditRun {
                                inserter: run.inserter,
                                lo: t1,
                                hi: run.hi,
                                run_ts: run.run_ts,
                                lamport_ts: run.lamport_ts,
                                parent: InnerAnchor::new(run.inserter, t1, run.run_ts),
                                visible: true,
                            },
                        );
                    }
                }
                acc = acc + vlen;
            }
            proof {
                assert(out@ =~= out0 + sp_local_pieces(run, acc0 as int, start, end));
                assert(sp_local_del(s, i as int, acc0 as int, start, end, out0) == sp_local_del(
                    s,
                    i + 1,
                    acc0 + run_visible_chars(run),
                    start,
                    end,
                    out@,
                ));
                lemma_owners_shrink(s, i as int, acc0 as int, start, end);
            }
            i = i + 1;
        }
        proof {
            assert(s.take(n as int) =~= s);
            lemma_anchor_witness(old(self).runs_spec(), found_end.0 as int, end - 1, end_anchor);
        }
        self.runs = out;
        (start_anchor, end_anchor)
    }

    /// Integrates a remote deletion: tombstones every visible character
    /// between the two anchors that the deleting replica had seen, and
    /// returns the visible offset ranges the host buffer must delete,
    /// ascending and non-overlapping.
    pub fn merge_deletion(&mut self, del: &crate::Deletion) -> (ranges: Vec<crate::TextRange>)
        requires
            old(self).wf(),
            del.wf(),
        ensures
            final(self).wf(),
            final(self).total_spec() == old(self).total_spec(),
            final(self).len_spec() == old(self).len_spec() - ranges_sum(ranges@),
            final(self).len_spec() <= old(self).len_spec(),
            forall|j: int|
                0 <= j < ranges@.len() ==> (#[trigger] ranges@[j]).start < ranges@[j].end
                    && ranges@[j].end <= old(self).len_spec(),
            forall|j: int|
                0 <= j && j + 1 < ranges@.len() ==> (#[trigger] ranges@[j]).end < ranges@[j
                    + 1].start,
            pieces_of(final(self).runs_spec(), old(self).runs_spec()),
            ({
                let t = sp_merge_deletion(old(self).runs_spec(), *del);
                final(self).runs_spec() == t.0 && ranges@ == t.1
            }),
    {
        let gs = match self.boundary_index(del.start) {
            Some(g) => g,
            None => {
                return Vec::new();
            },
        };
        let ge = match self.boundary_index(del.end) {
            Some(g) => g,
            None => {
                return Vec::new();
            },
        };
        if ge <= gs {
            return Vec::new();
        }
        proof {
            lemma_sums_nonneg(self.runs@);
        }
        let ghost s = self.runs@;
        let n = self.runs.len();
        let mut out: Vec<EditRun> = Vec::new();
        let mut ranges: Vec<crate::TextRange> = Vec::new();
        let mut acc: Length = 0;
        let mut gi: Length = 0;
        let mut i: usize = 0;
        while i < n
            invariant
                runs_wf(s),
                s == self.runs@,
                del.wf(),
                n == s.len(),
                0 <= i <= n,
                acc == visible_chars(s.take(i as int)),
                gi == total_chars(s.take(i as int)),
                forall|j: int| 0 <= j < out@.len() ==> (#[trigger] out@[j]).wf(),
                total_chars(out@) == total_chars(s.take(i as int)),
                visible_chars(out@) == visible_chars(s.take(i as int)) - ranges_sum(ranges@),
                forall|j: int|
                    0 <= j < ranges@.len() ==> (#[trigger] ranges@[j]).start < ranges@[j].end
                        && ranges@[j].end <= acc,
                forall|j: int|
                    0 <= j && j + 1 < ranges@.len() ==> (#[trigger] ranges@[j]).end < ranges@[j
                        + 1].start,
                forall|j: int| 0 <= j < out@.len() ==> piece_of(#[trigger] out@[j], s),
                sp_merge_del(
                    s,
                    0,
                    0,
                    0,
                    gs as int,
                    ge as int,
                    del.version_map,
                    Seq::empty(),
                    Seq::empty(),
                ) == sp_merge_del(
                    s,
                    i as int,
                    gi as int,
                    acc as int,
                    gs as int,
                    ge as int,
                    del.version_map,
                    out@,
                    ranges@,
                ),
            decreases n - i,
        {
            let run = self.runs[i];
            let ghost out0 = out@;
            let ghost rs_pre = ranges@;
            let ghost gi0 = gi;
            let ghost acc0 = acc;
            let ghost seenv = crate::idmap::entries_get(del.version_map.entries@, run.inserter);
            proof {
                lemma_take_snoc(s, i as int);
                lemma_prefix_le(s, i + 1);
                lemma_sums_nonneg(s);
            }
            let clen = run.hi - run.lo;
            if !run.visible {
                push_piece(&mut out, run);
            } else {
                let a = if gs > gi {
                    gs
                } else {
                    gi
                };
                let b = if ge < gi + clen {
                    ge
                } else {
                    gi + clen
                };
                if a >= b {
                    push_piece(&mut out, run);
                } else {
                    let t0 = run.lo + (a - gi);
                    let t1 = run.lo + (b - gi);
                    let seen = del.version_map.get(run.inserter);
                    let td = if t0 >= seen {
                        t0
                    } else if t1 <= seen {
                        t1
                    } else {
                        seen
                    };
                    if t0 < td {
                        if run.lo < t0 {
                            push_piece(
                                &mut out,
                                EditRun {
                                    inserter: run.inserter,
                                    lo: run.lo,
                                    hi: t0,
                                    run_ts: run.run_ts,
                                    lamport_ts: run.lamport_ts,
                                    parent: run.parent,
                                    visible: true,
                                },
                            );
                        }
                        push_piece(
                            &mut out,
                            EditRun {
                                inserter: run.inserter,
                                lo: t0,
                                hi: td,
                                run_ts: run.run_ts,
                                lamport_ts: run.lamport_ts,
                                parent: if run.lo < t0 {
                                    InnerAnchor::new(run.inserter, t0, run.run_ts)
                                } else {
                                    run.parent
                                },
                                visible: false,
                            },
                        );
                        if td < run.hi {
                            push_piece(
                                &mut out,
                                EditRun {
                                    inserter: run.inserter,
                                    lo: td,
                                    hi: run.hi,
                                    run_ts: run.run_ts,
                                    lamport_ts: run.lamport_ts,
                                    parent: InnerAnchor::new(run.inserter, td, run.run_ts),
                                    visible: true,
                                },
                            );
                        }
                        let dstart = acc + (t0 - run.lo);
                        let dend = acc + (td - run.lo);
                        let nr = ranges.len();
                        let ghost rs0 = ranges@;
                        let mut merged = false;
                        if nr > 0 {
                            let last = ranges[nr - 1];
                            if last.end == dstart {
                                ranges[nr - 1] = crate::TextRange { start: last.start, end: dend };
                                merged = true;
                                proof {
                                    lemma_ranges_sum_update_last(
                                        rs0,
                                        crate::TextRange { start: last.start, end: dend },
                                    );
                                }
                            }
                        }
                        if !merged {
                            ranges.push(crate::TextRange { start: dstart, end: dend });
                            proof {
                                assert(ranges@.drop_last() =~= rs0);
                            }
                        }
                    } else {
                        push_piece(&mut out, run);
                    }
                }
                acc = acc + clen;
            }
            proof {
                assert(out@ =~= out0 + sp_del_pieces(
                    run,
                    gi0 as int,
                    gs as int,
                    ge as int,
                    seenv,
                ));
                assert(ranges@ == (match sp_del_range(
                    run,
                    gi0 as int,
                    acc0 as int,
                    gs as int,
                    ge as int,
                    seenv,
                ) {
                    None => rs_pre,
                    Some(r0) => sp_push_range(rs_pre, r0),
                }));
                assert(sp_merge_del(
                    s,
                    i as int,
                    gi0 as int,
                    acc0 as int,
                    gs as int,
                    ge as int,
                    del.version_map,
                    out0,
                    rs_pre,
                ) == sp_merge_del(
                    s,
                    i + 1,
                    gi0 + (run.hi - run.lo),
                    acc0 + run_visible_chars(run),
                    gs as int,
                    ge as int,
                    del.version_map,
                    out@,
                    ranges@,
                ));
            }
            gi = gi + clen;
            i = i + 1;
        }
        proof {
            assert(s.take(n as int) =~= s);
            lemma_ranges_sum_nonneg(ranges@);
        }
        self.runs = out;
        ranges
    }

    /// The inner anchor naming the character side that the offset/bias pair
    /// designates. The document sentinels are handled by the caller.
    pub fn anchor_at(&self, offset: Length, bias: AnchorBias) -> (r: InnerAnchor)
        requires
            self.wf(),
            matches!(bias, AnchorBias::Left) ==> 1 <= offset <= self.len_spec(),
            matches!(bias, AnchorBias::Right) ==> offset < self.len_spec(),
        ensures
            r.wf(),
            r.replica_id != 0,
            matches!(bias, AnchorBias::Left) ==> anchor_has_witness(
                self.runs_spec(),
                offset - 1,
                r,
            ),
            matches!(bias, AnchorBias::Right) ==> anchor_has_witness(
                self.runs_spec(),
                offset as int,
                r,
            ),
    {
        let found = match bias {
            AnchorBias::Left => self.char_at_visible(offset - 1),
            AnchorBias::Right => self.char_at_visible(offset),
        };
        let run = self.runs[found.0];
        let a = InnerAnchor::new(run.inserter, found.1 + 1, run.run_ts);
        proof {
            if matches!(bias, AnchorBias::Left) {
                assert(anchor_names(self.runs_spec(), found.0 as int, offset - 1, a));
            } else {
                assert(anchor_names(self.runs_spec(), found.0 as int, offset as int, a));
            }
        }
        a
    }

    /// The current visible offset of the position an anchor refers to, or
    /// `None` if the anchor's run has not been integrated.
    ///
    /// A left-biased anchor resolves to the right edge of its character and
    /// a right-biased one to its left edge; if the character has been
    /// deleted, both biases resolve to the offset where the surviving
    /// neighbours now touch.
    pub fn resolve(&self, inner: InnerAnchor, bias: AnchorBias) -> (r: Option<Length>)
        requires
            self.wf(),
        ensures
            match r {
                Some(off) => off <= self.len_spec() && exists|k: int|
                    frag_matches(self.runs_spec(), k, inner) && (forall|j: int|
                        0 <= j < k ==> !frag_matches(self.runs_spec(), j, inner)) && off
                        == resolve_formula(self.runs_spec(), k, inner, bias),
                None => forall|j: int| !frag_matches(self.runs_spec(), j, inner),
            },
    {
        match self.find_fragment(inner) {
            Some(k) => {
                let run = self.runs[k];
                let before = self.visible_prefix(k);
                proof {
                    lemma_take_snoc(self.runs@, k as int);
                    lemma_prefix_le(self.runs@, k as int + 1);
                    lemma_sums_nonneg(self.runs@);
                }
                if run.visible {
                    let base = before + (inner.offset - 1 - run.lo);
                    match bias {
                        AnchorBias::Left => Some(base + 1),
                        AnchorBias::Right => Some(base),
                    }
                } else {
                    Some(before)
                }
            },
            None => None,
        }
    }

    /// The number of characters tracked, tombstones included.
    pub fn total_len(&self) -> (r: Length)
        requires
            self.wf(),
        ensures
            r == self.total_spec(),
    {
        let n = self.runs.len();
        let mut acc: u64 = 0;
        let mut i: usize = 0;
        while i < n
            invariant
                self.wf(),
                n == self.runs@.len(),
                0 <= i <= n,
                acc == total_chars(self.runs@.take(i as int)),
            decreases n - i,
        {
            let run = self.runs[i];
            proof {
                lemma_take_snoc(self.runs@, i as int);
                lemma_prefix_le(self.runs@, i + 1);
                lemma_sums_nonneg(self.runs@);
            }
            acc = acc + (run.hi - run.lo);
            i = i + 1;
        }
        proof {
            assert(self.runs@.take(n as int) =~= self.runs@);
        }
        acc
    }

    /// A structural copy of the tree.
    pub fn duplicate(&self) -> (r: Self)
        ensures
            r.runs_spec() == self.runs_spec(),
    {
        let mut runs: Vec<EditRun> = Vec::new();
        let n = self.runs.len();
        let mut i: usize = 0;
        while i < n
            invariant
                n == self.runs@.len(),
                0 <= i <= n,
                runs@ == self.runs@.take(i as int),
            decreases n - i,
        {
            runs.push(self.runs[i]);
            proof {
                assert(runs@ =~= self.runs@.take(i + 1));
            }
            i = i + 1;
        }
        proof {
            assert(runs@ =~= self.runs@);
        }
        RunTree { runs }
    }

    /// Counts the zero-length fragments and all fragments, in that order.
    pub fn count_empty_leaves(&self) -> (r: (usize, usize))
        requires
            self.wf(),
        ensures
            r.0 == zero_len_count(self.runs_spec()),
            r.1 == self.runs_spec().len(),
            r.0 <= r.1,
    {
        let n = self.runs.len();
        let mut empty: usize = 0;
        let mut i: usize = 0;
        while i < n
            invariant
                self.wf(),
                n == self.runs@.len(),
                0 <= i <= n,
                empty <= i,
                empty == zero_len_count(self.runs@.take(i as int)),
            decreases n - i,
        {
            let run = self.runs[i];
            proof {
                assert(self.runs@.take(i + 1).drop_last() =~= self.runs@.take(i as int));
                assert(self.runs@.take(i + 1).last() == self.runs@[i as int]);
            }
            if run.lo == run.hi {
                empty = empty + 1;
            }
            i = i + 1;
        }
        proof {
            assert(self.runs@.take(n as int) =~= self.runs@);
        }
        (empty, n)
    }
}

} // verus!
