//! Schema migration bookkeeping.
//!
//! The catalog is a fixed ascending sequence of versions — notes and
//! folders, then tags, then the full-text index, then backlinks and
//! settings, then the tag color column. A run applies exactly the versions
//! not yet recorded, in ascending order, and records them; versions are
//! never skipped, reordered or reused, and a second run applies nothing.

use vstd::prelude::*;
use crate::store::{applied_ok, wf, Store, StoreV, MIGRATION_COUNT};

verus! {

/// The catalog of migration versions, in the order they must apply.
pub open spec fn catalog() -> Seq<u64> {
    seq![1u64, 2u64, 3u64, 4u64, 5u64]
}

/// Keeps the versions not yet recorded as applied.
pub open spec fn not_applied(applied: Seq<u64>) -> spec_fn(u64) -> bool {
    |v: u64| !applied.contains(v)
}

/// Whether a version is recorded as applied.
pub fn contains_version(applied: &Vec<u64>, v: u64) -> (r: bool)
    ensures
        r == applied@.contains(v),
{
    for i in 0..applied.len()
        invariant
            forall|j: int| 0 <= j < i ==> applied@[j] != v,
    {
        if applied[i] == v {
            return true;
        }
    }
    false
}

impl Store {
    /// Applies every migration not yet recorded, in strictly ascending
    /// version order, and records it; returns the versions applied by this
    /// run. Idempotent at the system level: when every version was already
    /// recorded, nothing is applied and nothing changes.
    pub fn run_migrations(&mut self) -> (newly: Vec<u64>)
        requires
            wf(old(self)@),
        ensures
            wf(final(self)@),
            final(self)@ == (StoreV { applied: catalog(), ..old(self)@ }),
            newly@ == catalog().filter(not_applied(old(self)@.applied)),
            old(self)@.applied == catalog() ==> newly@.len() == 0 && final(self)@ == old(self)@,
    {
        let ghost o = old(self)@;
        let ghost p = not_applied(o.applied);
        let mut new_applied: Vec<u64> = Vec::new();
        let mut newly: Vec<u64> = Vec::new();
        let mut v: u64 = 1;
        while v <= MIGRATION_COUNT
            invariant
                1 <= v <= MIGRATION_COUNT + 1,
                o == old(self)@,
                self.applied@ == o.applied,
                p == not_applied(o.applied),
                new_applied@ == catalog().take(v - 1),
                newly@ == catalog().take(v - 1).filter(p),
            decreases MIGRATION_COUNT + 1 - v,
        {
            let ghost prev_applied = new_applied@;
            let ghost prev_newly = newly@;
            new_applied.push(v);
            if !contains_version(&self.applied, v) {
                newly.push(v);
            }
            proof {
                assert(catalog()[v - 1] == v);
                assert(catalog().take(v as int) =~= catalog().take(v - 1).push(v));
                crate::seqs::lemma_filter_push(catalog().take(v - 1), v, p);
                assert(new_applied@ =~= catalog().take(v as int));
                if p(v) {
                    assert(newly@ =~= prev_newly.push(v));
                }
            }
            v = v + 1;
        }
        proof {
            assert(catalog().take(MIGRATION_COUNT as int) =~= catalog());
        }
        self.applied = new_applied;
        proof {
            assert(self@ =~= (StoreV { applied: catalog(), ..o }));
            assert(applied_ok(catalog())) by {
                assert forall|i: int, j: int|
                    0 <= i < j < catalog().len() implies (#[trigger] catalog()[i]) < (
                #[trigger] catalog()[j]) by {}
                assert forall|i: int|
                    0 <= i < catalog().len() implies 1 <= (#[trigger] catalog()[i])
                        <= MIGRATION_COUNT by {}
            }
            if o.applied == catalog() {
                assert forall|i: int| 0 <= i < catalog().len() implies !p(
                    #[trigger] catalog()[i],
                ) by {
                    assert(o.applied[i] == catalog()[i]);
                    assert(o.applied.contains(catalog()[i]));
                }
                assert(catalog().all(|x: u64| !p(x)));
                catalog().lemma_all_neg_filter_empty(p);
                assert(newly@.len() == 0);
                assert(self@ =~= o);
            }
        }
        newly
    }
}

} // verus!
