//! A small association map from replica ids to 64-bit counters.
//!
//! Lookups on ids that have no entry return `0`, which lets the map stand in
//! for the total function `ReplicaId -> u64` that the version and deletion
//! bookkeeping of the CRDT needs. The partial order `a >= b` (pointwise on
//! every id) decides whether a remote deletion is causally ready.

use vstd::prelude::*;

use crate::ReplicaId;

verus! {

/// One `id -> value` association.
#[derive(Debug, Copy, Clone, PartialEq, Eq, Structural)]
pub struct IdEntry {
    pub id: ReplicaId,
    pub value: u64,
}

/// The value a sequence of entries associates with `id`, or `0`.
pub open spec fn entries_get(s: Seq<IdEntry>, id: ReplicaId) -> u64
    decreases s.len(),
{
    if s.len() == 0 {
        0
    } else if s[0].id == id {
        s[0].value
    } else {
        entries_get(s.drop_first(), id)
    }
}

/// Whether no id occurs twice in `s`.
pub open spec fn entries_unique(s: Seq<IdEntry>) -> bool {
    forall|i: int, j: int| 0 <= i < j < s.len() ==> s[i].id != s[j].id
}

/// Whether some entry holds `id`.
pub open spec fn entries_has_id(s: Seq<IdEntry>, id: ReplicaId) -> bool {
    exists|i: int| 0 <= i < s.len() && (#[trigger] s[i]).id == id
}

/// The entries after setting `id` to `value`: the first entry holding `id`
/// is replaced, or a new entry is appended.
pub open spec fn sp_map_set(s: Seq<IdEntry>, id: ReplicaId, value: u64) -> Seq<IdEntry>
    decreases s.len(),
{
    if s.len() == 0 {
        seq![IdEntry { id, value }]
    } else if s[0].id == id {
        s.update(0, IdEntry { id, value })
    } else {
        seq![s[0]] + sp_map_set(s.drop_first(), id, value)
    }
}

/// Setting replaces the first entry holding `id`.
proof fn lemma_sp_map_set_update(s: Seq<IdEntry>, id: ReplicaId, value: u64, k: int)
    requires
        0 <= k < s.len(),
        s[k].id == id,
        forall|j: int| 0 <= j < k ==> s[j].id != id,
    ensures
        sp_map_set(s, id, value) == s.update(k, IdEntry { id, value }),
    decreases k,
{
    if k == 0 {
    } else {
        lemma_sp_map_set_update(s.drop_first(), id, value, k - 1);
        assert(sp_map_set(s, id, value) =~= s.update(k, IdEntry { id, value }));
    }
}

/// Setting an absent id appends an entry.
proof fn lemma_sp_map_set_absent(s: Seq<IdEntry>, id: ReplicaId, value: u64)
    requires
        forall|j: int| 0 <= j < s.len() ==> s[j].id != id,
    ensures
        sp_map_set(s, id, value) == s.push(IdEntry { id, value }),
    decreases s.len(),
{
    if s.len() > 0 {
        lemma_sp_map_set_absent(s.drop_first(), id, value);
        assert(sp_map_set(s, id, value) =~= s.push(IdEntry { id, value }));
    }
}

/// If `id` is not among the first `k` entries, the lookup is decided by the
/// rest of the sequence.
proof fn lemma_entries_get_skip(s: Seq<IdEntry>, id: ReplicaId, k: int)
    requires
        0 <= k <= s.len(),
        forall|i: int| 0 <= i < k ==> s[i].id != id,
    ensures
        entries_get(s, id) == entries_get(s.skip(k), id),
    decreases k,
{
    if k > 0 {
        assert(s.drop_first() =~= s.skip(1));
        lemma_entries_get_skip(s.skip(1), id, k - 1);
        assert(s.skip(1).skip(k - 1) =~= s.skip(k));
    } else {
        assert(s.skip(0) =~= s);
    }
}

/// If entry `k` holds `id`, the lookup returns its value, provided no
/// earlier entry holds `id`.
proof fn lemma_entries_get_found(s: Seq<IdEntry>, id: ReplicaId, k: int)
    requires
        0 <= k < s.len(),
        s[k].id == id,
        forall|i: int| 0 <= i < k ==> s[i].id != id,
    ensures
        entries_get(s, id) == s[k].value,
{
    lemma_entries_get_skip(s, id, k);
    assert(s.skip(k)[0] == s[k]);
}

/// If no entry holds `id`, the lookup returns `0`.
proof fn lemma_entries_get_absent(s: Seq<IdEntry>, id: ReplicaId)
    requires
        forall|i: int| 0 <= i < s.len() ==> s[i].id != id,
    ensures
        entries_get(s, id) == 0,
{
    lemma_entries_get_skip(s, id, s.len() as int);
}

/// A map from replica ids to counters, with `0` as the value of every id
/// that has no entry.
#[derive(Debug, Clone, PartialEq, Eq)]
pub struct BaseMap {
    pub entries: Vec<IdEntry>,
}

impl BaseMap {
    /// No id occurs twice.
    pub open spec fn wf(&self) -> bool {
        entries_unique(self.entries@)
    }

    pub open spec fn entries_spec(&self) -> Seq<IdEntry> {
        self.entries@
    }

    /// The value associated with `id` (total: absent ids map to `0`).
    pub open spec fn get_spec(&self, id: ReplicaId) -> u64 {
        entries_get(self.entries@, id)
    }

    /// Pointwise `>=` over every id, the causal-readiness order.
    pub open spec fn geq_spec(&self, other: &BaseMap) -> bool {
        forall|id: ReplicaId| self.get_spec(id) >= other.get_spec(id)
    }

    pub fn new() -> (r: Self)
        ensures
            r.wf(),
            r.entries_spec() == Seq::<IdEntry>::empty(),
            forall|id: ReplicaId| r.get_spec(id) == 0,
    {
        let m = BaseMap { entries: Vec::new() };
        proof {
            assert forall|id: ReplicaId| m.get_spec(id) == 0 by {
                lemma_entries_get_absent(m.entries@, id);
            }
        }
        m
    }

    pub fn get(&self, id: ReplicaId) -> (r: u64)
        requires
            self.wf(),
        ensures
            r == self.get_spec(id),
    {
        let n = self.entries.len();
        let mut i: usize = 0;
        while i < n
            invariant
                n == self.entries@.len(),
                0 <= i <= n,
                forall|k: int| 0 <= k < i ==> self.entries@[k].id != id,
            decreases n - i,
        {
            if self.entries[i].id == id {
                proof {
                    lemma_entries_get_found(self.entries@, id, i as int);
                }
                return self.entries[i].value;
            }
            i = i + 1;
        }
        proof {
            lemma_entries_get_absent(self.entries@, id);
        }
        0
    }

    /// Sets the value of `id`, inserting an entry if there is none.
    pub fn set(&mut self, id: ReplicaId, value: u64)
        requires
            old(self).wf(),
        ensures
            final(self).wf(),
            final(self).get_spec(id) == value,
            forall|other: ReplicaId|
                other != id ==> final(self).get_spec(other) == old(self).get_spec(other),
            entries_has_id(final(self).entries_spec(), id),
            forall|other: ReplicaId|
                entries_has_id(final(self).entries_spec(), other) <==> (entries_has_id(
                    old(self).entries_spec(),
                    other,
                ) || other == id),
            final(self).entries_spec() == sp_map_set(old(self).entries_spec(), id, value),
    {
        let ghost s0 = self.entries@;
        let n = self.entries.len();
        let mut i: usize = 0;
        while i < n
            invariant
                self.entries@ == s0,
                s0 == old(self).entries@,
                entries_unique(s0),
                n == s0.len(),
                0 <= i <= n,
                forall|k: int| 0 <= k < i ==> s0[k].id != id,
            decreases n - i,
        {
            if self.entries[i].id == id {
                let ghost idx = i as int;
                self.entries[i] = IdEntry { id, value };
                proof {
                    let s1 = self.entries@;
                    assert(s1 =~= s0.update(idx, IdEntry { id, value }));
                    lemma_sp_map_set_update(s0, id, value, idx);
                    assert(entries_unique(s1));
                    lemma_entries_get_found(s1, id, idx);
                    assert forall|other: ReplicaId| other != id implies entries_get(
                        s1,
                        other,
                    ) == entries_get(s0, other) by {
                        lemma_lookup_update_other(s0, s1, other);
                    }
                    assert(s1[idx].id == id);
                    assert forall|other: ReplicaId|
                        entries_has_id(s1, other) <==> (entries_has_id(s0, other) || other
                        == id) by {
                        if entries_has_id(s0, other) {
                            let w = choose|w: int|
                                0 <= w < s0.len() && (#[trigger] s0[w]).id == other;
                            assert(s1[w].id == other);
                        }
                        if entries_has_id(s1, other) && other != id {
                            let w = choose|w: int|
                                0 <= w < s1.len() && (#[trigger] s1[w]).id == other;
                            assert(s0[w].id == other);
                        }
                    }
                }
                return ;
            }
            i = i + 1;
        }
        let ghost idx = self.entries@.len() as int;
        self.entries.push(IdEntry { id, value });
        proof {
            lemma_sp_map_set_absent(s0, id, value);
            let s1 = self.entries@;
            assert(forall|k: int| 0 <= k < idx ==> s1[k] == s0[k]);
            assert(entries_unique(s1));
            lemma_entries_get_found(s1, id, idx);
            assert forall|other: ReplicaId| other != id implies entries_get(s1, other)
                == entries_get(s0, other) by {
                lemma_lookup_update_other(s0, s1, other);
            }
            assert(s1[idx].id == id);
            assert forall|other: ReplicaId|
                entries_has_id(s1, other) <==> (entries_has_id(s0, other) || other == id) by {
                if entries_has_id(s0, other) {
                    let w = choose|w: int| 0 <= w < s0.len() && (#[trigger] s0[w]).id == other;
                    assert(s1[w].id == other);
                }
                if entries_has_id(s1, other) && other != id {
                    let w = choose|w: int| 0 <= w < s1.len() && (#[trigger] s1[w]).id == other;
                    assert(w < s0.len() && s0[w].id == other);
                }
            }
        }
    }

    /// A structural copy of the map.
    pub fn duplicate(&self) -> (r: Self)
        ensures
            r.entries_spec() == self.entries_spec(),
    {
        let mut entries: Vec<IdEntry> = Vec::new();
        let n = self.entries.len();
        let mut i: usize = 0;
        while i < n
            invariant
                n == self.entries@.len(),
                0 <= i <= n,
                entries@ == self.entries@.take(i as int),
            decreases n - i,
        {
            entries.push(self.entries[i]);
            proof {
                assert(entries@ =~= self.entries@.take(i + 1));
            }
            i = i + 1;
        }
        proof {
            assert(entries@ =~= self.entries@);
        }
        BaseMap { entries }
    }

    /// How many entries the map holds.
    pub fn num_entries(&self) -> (r: usize)
        ensures
            r == self.entries_spec().len(),
    {
        self.entries.len()
    }

    /// The entry at `i`, for walking the map.
    pub fn entry_at(&self, i: usize) -> (r: IdEntry)
        requires
            i < self.entries_spec().len(),
        ensures
            r == self.entries_spec()[i as int],
    {
        self.entries[i]
    }

    /// Whether `self >= other` pointwise on every id.
    pub fn geq(&self, other: &BaseMap) -> (r: bool)
        requires
            self.wf(),
            other.wf(),
        ensures
            r == self.geq_spec(other),
    {
        let n = other.entries.len();
        let mut i: usize = 0;
        while i < n
            invariant
                self.wf(),
                other.wf(),
                n == other.entries@.len(),
                0 <= i <= n,
                forall|k: int| 0 <= k < i
                    ==> self.get_spec(#[trigger] other.entries@[k].id) >= other.entries@[k].value,
            decreases n - i,
        {
            let e = other.entries[i];
            let mine = self.get(e.id);
            if mine < e.value {
                proof {
                    lemma_entries_get_found(other.entries@, e.id, i as int);
                }
                return false;
            }
            i = i + 1;
        }
        proof {
            assert forall|id: ReplicaId| self.get_spec(id) >= other.get_spec(id) by {
                if exists|k: int| 0 <= k < other.entries@.len() && other.entries@[k].id == id {
                    let k = choose|k: int|
                        0 <= k < other.entries@.len() && other.entries@[k].id == id;
                    let f = first_index(other.entries@, id, k);
                    lemma_entries_get_found(other.entries@, id, f);
                } else {
                    lemma_entries_get_absent(other.entries@, id);
                }
            }
        }
        true
    }
}

/// The first index holding `id`, given that some index `k` holds it.
proof fn first_index(s: Seq<IdEntry>, id: ReplicaId, k: int) -> (r: int)
    requires
        0 <= k < s.len(),
        s[k].id == id,
    ensures
        0 <= r < s.len(),
        s[r].id == id,
        forall|i: int| 0 <= i < r ==> s[i].id != id,
    decreases k,
{
    if exists|i: int| 0 <= i < k && s[i].id == id {
        let i = choose|i: int| 0 <= i < k && s[i].id == id;
        first_index(s, id, i)
    } else {
        k
    }
}

/// Two entry sequences that agree on every entry that holds `id` (same
/// positions, same values) give the same lookup for `id`.
proof fn lemma_lookup_update_other(s0: Seq<IdEntry>, s1: Seq<IdEntry>, id: ReplicaId)
    requires
        s0.len() <= s1.len(),
        forall|i: int|
            0 <= i < s1.len() && #[trigger] s1[i].id == id ==> i < s0.len() && s1[i] == s0[i],
        forall|i: int|
            0 <= i < s0.len() && #[trigger] s0[i].id == id ==> s1[i] == s0[i],
    ensures
        entries_get(s0, id) == entries_get(s1, id),
{
    if exists|i: int| 0 <= i < s0.len() && s0[i].id == id {
        let i = choose|i: int| 0 <= i < s0.len() && s0[i].id == id;
        let f = first_index(s0, id, i);
        lemma_entries_get_found(s0, id, f);
        assert(s1[f].id == id);
        assert forall|j: int| 0 <= j < f implies s1[j].id != id by {
            if s1[j].id == id {
                assert(s1[j] == s0[j]);
            }
        }
        lemma_entries_get_found(s1, id, f);
    } else {
        lemma_entries_get_absent(s0, id);
        assert forall|j: int| 0 <= j < s1.len() implies s1[j].id != id by {
            if s1[j].id == id {
                assert(s1[j] == s0[j]);
            }
        }
        lemma_entries_get_absent(s1, id);
    }
}

} // verus!
