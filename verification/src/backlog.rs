//! Storage for remote operations that cannot be integrated yet.

use vstd::prelude::*;

use crate::{Deletion, Insertion};

verus! {

/// Whether two deletions carry the same data.
pub open spec fn deletion_eq(a: Deletion, b: Deletion) -> bool {
    &&& a.start == b.start
    &&& a.end == b.end
    &&& a.version_map.entries_spec() == b.version_map.entries_spec()
    &&& a.deleted_by == b.deleted_by
    &&& a.deletion_ts == b.deletion_ts
}

/// Whether two deletion sequences carry the same data, pointwise.
pub open spec fn deletions_eq(a: Seq<Deletion>, b: Seq<Deletion>) -> bool {
    &&& a.len() == b.len()
    &&& forall|i: int| 0 <= i < a.len() ==> deletion_eq(#[trigger] a[i], b[i])
}

/// The remote operations whose causal dependencies have not all arrived,
/// held back until they can be integrated.
#[derive(Debug, Clone, PartialEq, Eq)]
pub struct Backlog {
    pub insertions: Vec<Insertion>,
    pub deletions: Vec<Deletion>,
}

impl Backlog {
    pub open spec fn wf(&self) -> bool {
        &&& forall|i: int| 0 <= i < self.insertions@.len() ==> (#[trigger] self.insertions@[i]).wf()
        &&& forall|i: int| 0 <= i < self.deletions@.len() ==> (#[trigger] self.deletions@[i]).wf()
    }

    pub open spec fn is_empty_spec(&self) -> bool {
        self.insertions@.len() == 0 && self.deletions@.len() == 0
    }

    pub fn new() -> (r: Self)
        ensures
            r.wf(),
            r.insertions@ == Seq::<Insertion>::empty(),
            r.deletions@ == Seq::<Deletion>::empty(),
    {
        Backlog { insertions: Vec::new(), deletions: Vec::new() }
    }

    /// Whether no operation is waiting.
    pub fn is_empty(&self) -> (r: bool)
        ensures
            r == self.is_empty_spec(),
    {
        self.insertions.len() == 0 && self.deletions.len() == 0
    }

    pub fn insert_insertion(&mut self, ins: Insertion)
        requires
            old(self).wf(),
            ins.wf(),
        ensures
            final(self).wf(),
            final(self).insertions@ == old(self).insertions@.push(ins),
            final(self).deletions@ == old(self).deletions@,
    {
        self.insertions.push(ins);
        proof {
            assert forall|i: int| 0 <= i < self.insertions@.len() implies (
            #[trigger] self.insertions@[i]).wf() by {
                if i < self.insertions@.len() - 1 {
                    assert(self.insertions@[i] == old(self).insertions@[i]);
                }
            }
        }
    }

    pub fn insert_deletion(&mut self, del: Deletion)
        requires
            old(self).wf(),
            del.wf(),
        ensures
            final(self).wf(),
            final(self).deletions@ == old(self).deletions@.push(del),
            final(self).insertions@ == old(self).insertions@,
    {
        self.deletions.push(del);
        proof {
            assert forall|i: int| 0 <= i < self.deletions@.len() implies (
            #[trigger] self.deletions@[i]).wf() by {
                if i < self.deletions@.len() - 1 {
                    assert(self.deletions@[i] == old(self).deletions@[i]);
                }
            }
        }
    }

    /// A structural copy of the backlog.
    pub fn duplicate(&self) -> (r: Self)
        requires
            self.wf(),
        ensures
            r.wf(),
            r.insertions@ == self.insertions@,
            deletions_eq(r.deletions@, self.deletions@),
    {
        let mut insertions: Vec<Insertion> = Vec::new();
        let n = self.insertions.len();
        let mut i: usize = 0;
        while i < n
            invariant
                n == self.insertions@.len(),
                0 <= i <= n,
                insertions@ == self.insertions@.take(i as int),
            decreases n - i,
        {
            insertions.push(self.insertions[i]);
            proof {
                assert(insertions@ =~= self.insertions@.take(i + 1));
            }
            i = i + 1;
        }
        let mut deletions: Vec<Deletion> = Vec::new();
        let m = self.deletions.len();
        let mut j: usize = 0;
        while j < m
            invariant
                self.wf(),
                m == self.deletions@.len(),
                0 <= j <= m,
                deletions@.len() == j,
                forall|k: int| 0 <= k < j ==> deletion_eq(#[trigger] deletions@[k], self.deletions@[k]),
                forall|k: int| 0 <= k < j ==> (#[trigger] deletions@[k]).wf(),
            decreases m - j,
        {
            let d = self.deletions[j].duplicate();
            deletions.push(d);
            j = j + 1;
        }
        proof {
            assert(insertions@ =~= self.insertions@);
        }
        Backlog { insertions, deletions }
    }
}

} // verus!
