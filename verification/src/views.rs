//! The view history: every view a process has witnessed, with its
//! member set, ordered by view id.

use crate::assoc::{assoc_get, assoc_has, assoc_idx, assoc_sorted, lemma_assoc_at,
    lemma_assoc_insert, lemma_assoc_update};
use crate::members::{strictly_sorted, MemberSet};
use crate::{PeerId, ViewId};
use vstd::prelude::*;

verus! {

/// A process's record of the views it has witnessed.
pub struct ViewHistory {
    entries: Vec<(ViewId, MemberSet)>,
}

impl ViewHistory {
    /// The recorded views as (view id, member list) pairs, by view id.
    pub closed spec fn entries_view(&self) -> Seq<(ViewId, Seq<PeerId>)> {
        Seq::new(self.entries@.len(), |i: int| (self.entries@[i].0, self.entries@[i].1@))
    }

    /// Whether view `v` has been recorded.
    pub open spec fn has_view(&self, v: ViewId) -> bool {
        assoc_has(self.entries_view(), v)
    }

    /// The member list recorded for view `v`.
    pub open spec fn members_of(&self, v: ViewId) -> Seq<PeerId> {
        assoc_get(self.entries_view(), v)
    }

    /// The member list of view `v` as a set.
    pub open spec fn member_set_of(&self, v: ViewId) -> Set<PeerId> {
        self.members_of(v).to_set()
    }

    /// The invariant: view ids strictly increase and each member list is
    /// strictly sorted.
    pub open spec fn wf(&self) -> bool {
        &&& assoc_sorted(self.entries_view())
        &&& forall|i: int|
            0 <= i < self.entries_view().len() ==> strictly_sorted(
                #[trigger] self.entries_view()[i].1,
            )
    }

    /// An empty history.
    pub fn new() -> (r: Self)
        ensures
            r.wf(),
            r.entries_view() == Seq::<(ViewId, Seq<PeerId>)>::empty(),
            forall|v: ViewId| !r.has_view(v),
    {
        ViewHistory { entries: Vec::new() }
    }

    /// The member set of view `v`, if recorded.
    #[verifier::loop_isolation(false)]
    pub fn get(&self, v: ViewId) -> (r: Option<&MemberSet>)
        requires
            self.wf(),
        ensures
            match r {
                Some(ms) => self.has_view(v) && ms@ == self.members_of(v) && ms.wf(),
                None => !self.has_view(v),
            },
    {
        let n = self.entries.len();
        let mut i: usize = 0;
        while i < n
            invariant
                0 <= i <= n,
                n == self.entries@.len(),
                forall|j: int| 0 <= j < i ==> self.entries_view()[j].0 != v,
            decreases n - i,
        {
            if self.entries[i].0 == v {
                proof {
                    lemma_assoc_at(self.entries_view(), v, i as int);
                }
                return Some(&self.entries[i].1);
            }
            i += 1;
        }
        None
    }

    /// Record (or overwrite) view `v` with members `ms`.
    #[verifier::loop_isolation(false)]
    pub fn insert(&mut self, v: ViewId, ms: MemberSet)
        requires
            old(self).wf(),
            ms.wf(),
        ensures
            final(self).wf(),
            final(self).has_view(v),
            final(self).members_of(v) == ms@,
            forall|w: ViewId| w != v ==> final(self).has_view(w) == old(self).has_view(w),
            forall|w: ViewId|
                w != v && old(self).has_view(w) ==> final(self).members_of(w) == old(
                    self,
                ).members_of(w),
    {
        let ghost old_ev = self.entries_view();
        let n = self.entries.len();
        let mut i: usize = 0;
        while i < n
            invariant
                0 <= i <= n,
                n == self.entries@.len(),
                self.entries_view() == old_ev,
                forall|j: int| 0 <= j < i ==> old_ev[j].0 < v,
            decreases n - i,
        {
            if self.entries[i].0 == v {
                // replace in place
                self.entries[i] = (v, ms);
                proof {
                    let new_ev = self.entries_view();
                    assert(new_ev =~= old_ev.update(i as int, (v, ms@)));
                    lemma_assoc_update(old_ev, new_ev, v, ms@, i as int);
                }
                return ;
            }
            if self.entries[i].0 > v {
                proof {
                    assert forall|a: int| i as int <= a < old_ev.len() implies old_ev[a].0 > v by {
                        if a > i as int {
                            assert(old_ev[i as int].0 < old_ev[a].0);
                        }
                    }
                }
                self.entries.insert(i, (v, ms));
                proof {
                    let new_ev = self.entries_view();
                    assert(new_ev =~= old_ev.insert(i as int, (v, ms@)));
                    lemma_assoc_insert(old_ev, new_ev, v, ms@, i as int);
                }
                return ;
            }
            i += 1;
        }
        self.entries.push((v, ms));
        proof {
            let new_ev = self.entries_view();
            assert(new_ev =~= old_ev.insert(n as int, (v, ms@)));
            lemma_assoc_insert(old_ev, new_ev, v, ms@, n as int);
        }
    }
}

/// Sequential views: the view ids a process has recorded strictly
/// increase along its history, so no view is witnessed twice and the
/// record is totally ordered.
pub proof fn lemma_views_ordered(h: ViewHistory, i: int, j: int)
    requires
        h.wf(),
        0 <= i < j < h.entries_view().len(),
    ensures
        h.entries_view()[i].0 < h.entries_view()[j].0,
{
}

} // verus!
