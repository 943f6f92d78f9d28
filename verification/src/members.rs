//! The member set of a view: a strictly sorted vector of peer ids.
//!
//! Keeping the ids strictly sorted makes the representation canonical:
//! two member sets holding the same ids are byte-for-byte the same, which
//! is what lets every process encode a view identically.

use crate::PeerId;
use vstd::prelude::*;

verus! {

/// True when `s` is strictly increasing, so each id occurs at most once.
pub open spec fn strictly_sorted(s: Seq<PeerId>) -> bool {
    forall|i: int, j: int| 0 <= i < j < s.len() ==> s[i] < s[j]
}

/// `s` with `x` placed at its sorted position; `s` unchanged if `x` is
/// already present. Defined for strictly sorted `s`.
pub open spec fn sorted_insert(s: Seq<PeerId>, x: PeerId) -> Seq<PeerId>
    decreases s.len(),
{
    if s.len() == 0 {
        seq![x]
    } else if x > s.last() {
        s.push(x)
    } else if x == s.last() {
        s
    } else {
        sorted_insert(s.drop_last(), x).push(s.last())
    }
}

/// What `sorted_insert` does: it keeps the sequence strictly sorted and
/// its contents are the old contents plus `x`.
pub proof fn lemma_sorted_insert(s: Seq<PeerId>, x: PeerId)
    requires
        strictly_sorted(s),
    ensures
        strictly_sorted(sorted_insert(s, x)),
        forall|y: PeerId| #[trigger] sorted_insert(s, x).contains(y) <==> (s.contains(y) || y == x),
        sorted_insert(s, x).to_set() == s.to_set().insert(x),
        s.contains(x) ==> sorted_insert(s, x) == s,
        !s.contains(x) ==> sorted_insert(s, x).len() == s.len() + 1,
    decreases s.len(),
{
    if s.len() == 0 {
        assert(sorted_insert(s, x) == seq![x]);
        assert forall|y: PeerId| #[trigger] sorted_insert(s, x).contains(y) implies (s.contains(y)
            || y == x) by {
            let i = choose|i: int| 0 <= i < sorted_insert(s, x).len() && sorted_insert(s, x)[i] == y;
            assert(i == 0);
        }
        assert(sorted_insert(s, x)[0] == x);
        assert(sorted_insert(s, x).contains(x));
    } else if x > s.last() {
        assert(sorted_insert(s, x) == s.push(x));
        assert forall|y: PeerId| #[trigger] s.push(x).contains(y) implies (s.contains(y) || y
            == x) by {
            let i = choose|i: int| 0 <= i < s.push(x).len() && s.push(x)[i] == y;
            if i < s.len() {
                assert(s[i] == y);
            }
        }
        assert forall|y: PeerId| s.contains(y) || y == x implies #[trigger] s.push(x).contains(
            y,
        ) by {
            if s.contains(y) {
                let i = choose|i: int| 0 <= i < s.len() && s[i] == y;
                assert(s.push(x)[i] == y);
            } else {
                assert(s.push(x)[s.len() as int] == x);
            }
        }
        assert(forall|i: int| 0 <= i < s.len() ==> s[i] <= s.last());
        assert(!s.contains(x));
    } else if x == s.last() {
        assert(s.contains(x)) by {
            assert(s[s.len() - 1] == x);
        }
    } else {
        let d = s.drop_last();
        assert(strictly_sorted(d));
        lemma_sorted_insert(d, x);
        let r = sorted_insert(d, x).push(s.last());
        assert(sorted_insert(s, x) == r);
        // sortedness: everything in sorted_insert(d, x) is below s.last()
        assert forall|i: int, j: int| 0 <= i < j < r.len() implies r[i] < r[j] by {
            if j == r.len() - 1 {
                let yi = r[i];
                assert(sorted_insert(d, x).contains(yi)) by {
                    assert(sorted_insert(d, x)[i] == yi);
                }
                if d.contains(yi) {
                    let k = choose|k: int| 0 <= k < d.len() && d[k] == yi;
                    assert(s[k] == yi);
                    assert(s[k] < s.last());
                } else {
                    assert(yi == x);
                }
            }
        }
        // contents
        assert forall|y: PeerId| #[trigger] r.contains(y) implies (s.contains(y) || y == x) by {
            let i = choose|i: int| 0 <= i < r.len() && r[i] == y;
            if i < r.len() - 1 {
                assert(sorted_insert(d, x)[i] == y);
                assert(sorted_insert(d, x).contains(y));
                if d.contains(y) {
                    let k = choose|k: int| 0 <= k < d.len() && d[k] == y;
                    assert(s[k] == y);
                }
            } else {
                assert(y == s.last());
                assert(s[s.len() - 1] == y);
            }
        }
        assert forall|y: PeerId| s.contains(y) || y == x implies #[trigger] r.contains(y) by {
            if y == x || d.contains(y) {
                assert(sorted_insert(d, x).contains(y));
                let k = choose|k: int|
                    0 <= k < sorted_insert(d, x).len() && sorted_insert(d, x)[k] == y;
                assert(r[k] == y);
            } else {
                let k = choose|k: int| 0 <= k < s.len() && s[k] == y;
                if k < s.len() - 1 {
                    assert(d[k] == y);
                    assert(d.contains(y));
                } else {
                    assert(r[r.len() - 1] == y);
                }
            }
        }
        assert(sorted_insert(s, x).to_set() =~= s.to_set().insert(x));
        if s.contains(x) {
            assert(d.contains(x)) by {
                let k = choose|k: int| 0 <= k < s.len() && s[k] == x;
                assert(k < s.len() - 1);
                assert(d[k] == x);
            }
            assert(sorted_insert(s, x) =~= s);
        } else {
            if d.contains(x) {
                let k = choose|k: int| 0 <= k < d.len() && d[k] == x;
                assert(s[k] == x);
            }
        }
    }
    if s.len() == 0 || x >= s.last() {
        assert(sorted_insert(s, x).to_set() =~= s.to_set().insert(x));
    }
}

/// Quorum reads the same both ways: for canonical (strictly sorted)
/// lists — confirmation lists and quorum lists both are — the commit
/// test "the confirmation list equals the quorum list" holds exactly
/// when everyone the quorum names, and nobody else, has acknowledged.
pub proof fn lemma_quorum_exact(confs: Seq<PeerId>, quorum: Seq<PeerId>)
    requires
        strictly_sorted(confs),
        strictly_sorted(quorum),
    ensures
        (confs == quorum) <==> (confs.to_set() == quorum.to_set()),
{
    if confs.to_set() == quorum.to_set() {
        assert forall|y: PeerId| confs.contains(y) <==> quorum.contains(y) by {
            assert(confs.to_set().contains(y) == confs.contains(y));
            assert(quorum.to_set().contains(y) == quorum.contains(y));
        }
        lemma_sorted_unique(confs, quorum);
    }
}

/// A strictly sorted sequence is determined by the set of its elements.
pub proof fn lemma_sorted_unique(a: Seq<PeerId>, b: Seq<PeerId>)
    requires
        strictly_sorted(a),
        strictly_sorted(b),
        forall|y: PeerId| a.contains(y) <==> b.contains(y),
    ensures
        a == b,
    decreases a.len(),
{
    if a.len() == 0 {
        if b.len() > 0 {
            assert(b.contains(b.last())) by {
                assert(b[b.len() - 1] == b.last());
            }
            assert(false);
        }
        assert(a =~= b);
    } else if b.len() == 0 {
        assert(a.contains(a.last())) by {
            assert(a[a.len() - 1] == a.last());
        }
        assert(false);
    } else {
        // both ends are the maximum of the same set, so they agree
        assert(a.contains(a.last())) by {
            assert(a[a.len() - 1] == a.last());
        }
        assert(b.contains(b.last())) by {
            assert(b[b.len() - 1] == b.last());
        }
        let ka = choose|k: int| 0 <= k < b.len() && b[k] == a.last();
        assert(a.last() <= b.last());
        let kb = choose|k: int| 0 <= k < a.len() && a[k] == b.last();
        assert(b.last() <= a.last());
        assert(a.last() == b.last());
        assert forall|y: PeerId| a.drop_last().contains(y) <==> b.drop_last().contains(y) by {
            lemma_drop_last_contains(a, y);
            lemma_drop_last_contains(b, y);
        }
        lemma_sorted_unique(a.drop_last(), b.drop_last());
        assert(a =~= a.drop_last().push(a.last()));
        assert(b =~= b.drop_last().push(b.last()));
    }
}

/// In a strictly sorted sequence, the prefix before the last element
/// contains exactly the elements below the last.
proof fn lemma_drop_last_contains(s: Seq<PeerId>, y: PeerId)
    requires
        strictly_sorted(s),
        s.len() > 0,
    ensures
        s.drop_last().contains(y) <==> (s.contains(y) && y != s.last()),
{
    if s.drop_last().contains(y) {
        let k = choose|k: int| 0 <= k < s.drop_last().len() && s.drop_last()[k] == y;
        assert(s[k] == y);
        assert(s[k] < s.last());
    }
    if s.contains(y) && y != s.last() {
        let k = choose|k: int| 0 <= k < s.len() && s[k] == y;
        assert(k != s.len() - 1);
        assert(s.drop_last()[k] == y);
    }
}

/// `s` without every occurrence of `me`: the recipients of a broadcast
/// that must not reach the sender itself.
pub open spec fn without(s: Seq<PeerId>, me: PeerId) -> Seq<PeerId> {
    s.filter(|p: PeerId| p != me)
}

/// Dropping one id from a strictly sorted sequence keeps it strictly
/// sorted and holds exactly the other elements, so the result is again
/// the canonical form of its id set.
pub proof fn lemma_without_sorted(s: Seq<PeerId>, me: PeerId)
    requires
        strictly_sorted(s),
    ensures
        strictly_sorted(without(s, me)),
        forall|y: PeerId| #[trigger] without(s, me).contains(y) <==> (s.contains(y) && y != me),
        without(s, me).to_set() == s.to_set().remove(me),
    decreases s.len(),
{
    reveal(Seq::filter);
    if s.len() == 0 {
        assert(without(s, me) == s);
        assert(without(s, me).to_set() =~= s.to_set().remove(me));
    } else {
        let d = s.drop_last();
        assert(strictly_sorted(d));
        lemma_without_sorted(d, me);
        let f = without(s, me);
        let fd = without(d, me);
        assert(f == if s.last() != me {
            fd.push(s.last())
        } else {
            fd
        });
        // anything kept from the prefix lies below the last element
        assert forall|y: PeerId| #[trigger] fd.contains(y) implies y < s.last() by {
            assert(d.contains(y));
            let k = choose|k: int| 0 <= k < d.len() && d[k] == y;
            assert(s[k] == y);
            assert(s[k] < s.last());
        }
        if s.last() != me {
            assert forall|a: int, b: int| 0 <= a < b < f.len() implies f[a] < f[b] by {
                if b == f.len() - 1 {
                    assert(fd.contains(f[a])) by {
                        assert(fd[a] == f[a]);
                    }
                }
            }
            assert forall|y: PeerId| #[trigger] f.contains(y) implies (s.contains(y) && y
                != me) by {
                let k = choose|k: int| 0 <= k < f.len() && f[k] == y;
                if k < f.len() - 1 {
                    assert(fd[k] == y);
                    assert(fd.contains(y));
                    assert(d.contains(y));
                    let j = choose|j: int| 0 <= j < d.len() && d[j] == y;
                    assert(s[j] == y);
                } else {
                    assert(y == s.last());
                    assert(s[s.len() - 1] == y);
                }
            }
            assert forall|y: PeerId| s.contains(y) && y != me implies #[trigger] f.contains(
                y,
            ) by {
                if y == s.last() {
                    assert(f[f.len() - 1] == y);
                } else {
                    let k = choose|k: int| 0 <= k < s.len() && s[k] == y;
                    assert(k < s.len() - 1);
                    assert(d[k] == y);
                    assert(d.contains(y));
                    assert(fd.contains(y));
                    let j = choose|j: int| 0 <= j < fd.len() && fd[j] == y;
                    assert(f[j] == y);
                }
            }
        } else {
            assert forall|y: PeerId| #[trigger] f.contains(y) implies (s.contains(y) && y
                != me) by {
                assert(d.contains(y));
                let j = choose|j: int| 0 <= j < d.len() && d[j] == y;
                assert(s[j] == y);
            }
            assert forall|y: PeerId| s.contains(y) && y != me implies #[trigger] f.contains(
                y,
            ) by {
                let k = choose|k: int| 0 <= k < s.len() && s[k] == y;
                assert(k < s.len() - 1);
                assert(d[k] == y);
                assert(d.contains(y));
            }
        }
        assert(without(s, me).to_set() =~= s.to_set().remove(me));
    }
}

/// The set of peer ids belonging to one view.
#[derive(Debug)]
pub struct MemberSet {
    ids: Vec<PeerId>,
}

impl View for MemberSet {
    type V = Seq<PeerId>;

    closed spec fn view(&self) -> Seq<PeerId> {
        self.ids@
    }
}

impl MemberSet {
    /// The ids as a mathematical set.
    pub open spec fn to_set(&self) -> Set<PeerId> {
        self@.to_set()
    }

    /// The representation invariant: ids are strictly sorted.
    pub open spec fn wf(&self) -> bool {
        strictly_sorted(self@)
    }

    /// The empty member set.
    pub fn new() -> (s: Self)
        ensures
            s@ == Seq::<PeerId>::empty(),
            s.wf(),
    {
        MemberSet { ids: Vec::new() }
    }

    /// How many members there are.
    pub fn len(&self) -> (n: usize)
        ensures
            n == self@.len(),
    {
        self.ids.len()
    }

    /// Whether `p` is a member.
    #[verifier::loop_isolation(false)]
    pub fn contains(&self, p: PeerId) -> (r: bool)
        ensures
            r == self@.contains(p),
    {
        let n = self.ids.len();
        let mut i: usize = 0;
        while i < n
            invariant
                0 <= i <= n,
                n == self@.len(),
                forall|j: int| 0 <= j < i ==> self@[j] != p,
            decreases n - i,
        {
            if self.ids[i] == p {
                assert(self@[i as int] == p);
                return true;
            }
            i += 1;
        }
        assert(!self@.contains(p));
        false
    }

    /// The ids in increasing order.
    pub fn ids(&self) -> (r: &Vec<PeerId>)
        ensures
            r@ == self@,
    {
        &self.ids
    }

    /// Add `p`; nothing changes when `p` is already a member.
    #[verifier::loop_isolation(false)]
    pub fn insert(&mut self, p: PeerId)
        requires
            old(self).wf(),
        ensures
            final(self).wf(),
            final(self)@ == sorted_insert(old(self)@, p),
            final(self).to_set() == old(self).to_set().insert(p),
    {
        proof {
            lemma_sorted_insert(self@, p);
        }
        let ghost s0 = self@;
        let n = self.ids.len();
        let mut i: usize = 0;
        while i < n
            invariant
                0 <= i <= n,
                n == self.ids@.len(),
                self.ids@ == s0,
                forall|j: int| 0 <= j < i ==> self.ids@[j] < p,
            decreases n - i,
        {
            if self.ids[i] == p {
                proof {
                    assert(s0[i as int] == p);
                    assert(s0.contains(p));
                }
                return ;
            }
            if self.ids[i] > p {
                self.ids.insert(i, p);
                proof {
                    lemma_sorted_insert_position(s0, p, i as int);
                }
                return ;
            }
            i += 1;
        }
        self.ids.push(p);
        proof {
            assert(!s0.contains(p));
            if s0.len() > 0 {
                assert(s0[s0.len() - 1] < p);
            }
            assert(self.ids@ == sorted_insert(s0, p));
        }
    }

    /// Remove `p`; reports whether it was a member.
    #[verifier::loop_isolation(false)]
    pub fn remove(&mut self, p: PeerId) -> (r: bool)
        requires
            old(self).wf(),
        ensures
            final(self).wf(),
            r == old(self)@.contains(p),
            final(self)@ == old(self)@.remove_value(p),
            final(self).to_set() == old(self).to_set().remove(p),
    {
        let ghost s0 = self@;
        let n = self.ids.len();
        let mut i: usize = 0;
        while i < n
            invariant
                0 <= i <= n,
                n == self.ids@.len(),
                self.ids@ == s0,
                forall|j: int| 0 <= j < i ==> self.ids@[j] != p,
            decreases n - i,
        {
            if self.ids[i] == p {
                self.ids.remove(i);
                proof {
                    assert(s0[i as int] == p);
                    assert(s0.contains(p));
                    lemma_sorted_remove_at(s0, p, i as int);
                }
                return true;
            }
            i += 1;
        }
        proof {
            assert(!s0.contains(p));
            assert(s0.index_of_first(p) is None) by {
                s0.index_of_first_ensures(p);
            }
            assert(s0.remove_value(p) == s0);
            assert(self.to_set() =~= s0.to_set().remove(p));
        }
        false
    }

    /// The ids in increasing order, leaving out `me`.
    #[verifier::loop_isolation(false)]
    pub fn ids_without(&self, me: PeerId) -> (r: Vec<PeerId>)
        ensures
            r@ == without(self@, me),
    {
        let n = self.ids.len();
        let mut out: Vec<PeerId> = Vec::new();
        proof {
            reveal(Seq::filter);
            assert(self@.take(0) =~= Seq::<PeerId>::empty());
        }
        let mut i: usize = 0;
        while i < n
            invariant
                0 <= i <= n,
                out@ == without(self@.take(i as int), me),
            decreases n - i,
        {
            proof {
                reveal(Seq::filter);
                assert(self@.take(i as int + 1).drop_last() =~= self@.take(i as int));
                assert(self@.take(i as int + 1).last() == self@[i as int]);
            }
            if self.ids[i] != me {
                out.push(self.ids[i]);
            }
            i += 1;
        }
        proof {
            assert(self@.take(n as int) =~= self@);
        }
        out
    }

    /// Whether the two sets hold exactly the same ids.
    #[verifier::loop_isolation(false)]
    pub fn set_eq(&self, other: &MemberSet) -> (r: bool)
        requires
            self.wf(),
            other.wf(),
        ensures
            r == (self@ == other@),
            r == (self.to_set() == other.to_set()),
    {
        proof {
            if self.to_set() == other.to_set() {
                assert forall|y: PeerId| self@.contains(y) <==> other@.contains(y) by {
                    assert(self.to_set().contains(y) == self@.contains(y));
                    assert(other.to_set().contains(y) == other@.contains(y));
                }
                lemma_sorted_unique(self@, other@);
            }
            if self@ == other@ {
                assert(self.to_set() =~= other.to_set());
            }
        }
        let n = self.ids.len();
        if n != other.ids.len() {
            proof {
                assert(self@ != other@);
            }
            return false;
        }
        let mut i: usize = 0;
        while i < n
            invariant
                0 <= i <= n,
                n == self@.len(),
                n == other@.len(),
                forall|j: int| 0 <= j < i ==> self@[j] == other@[j],
            decreases n - i,
        {
            if self.ids[i] != other.ids[i] {
                proof {
                    assert(self@[i as int] != other@[i as int]);
                }
                return false;
            }
            i += 1;
        }
        proof {
            assert(self@ =~= other@);
        }
        true
    }

    /// Whether this set holds exactly the given ids, in the same order.
    #[verifier::loop_isolation(false)]
    pub fn equals_ids(&self, ids: &Vec<PeerId>) -> (r: bool)
        ensures
            r == (self@ == ids@),
    {
        let n = self.ids.len();
        if n != ids.len() {
            proof {
                assert(self@ != ids@);
            }
            return false;
        }
        let mut i: usize = 0;
        while i < n
            invariant
                0 <= i <= n,
                n == self@.len(),
                n == ids@.len(),
                forall|j: int| 0 <= j < i ==> self@[j] == ids@[j],
            decreases n - i,
        {
            if self.ids[i] != ids[i] {
                proof {
                    assert(self@[i as int] != ids@[i as int]);
                }
                return false;
            }
            i += 1;
        }
        proof {
            assert(self@ =~= ids@);
        }
        true
    }
}

impl Clone for MemberSet {
    /// A clone holds exactly the same ids.
    #[verifier::loop_isolation(false)]
    fn clone(&self) -> (r: Self)
        ensures
            r@ == self@,
    {
        let n = self.ids.len();
        let mut ids: Vec<PeerId> = Vec::new();
        let mut i: usize = 0;
        while i < n
            invariant
                0 <= i <= n,
                n == self.ids@.len(),
                ids@ == self.ids@.take(i as int),
            decreases n - i,
        {
            ids.push(self.ids[i]);
            proof {
                assert(ids@ =~= self.ids@.take(i as int + 1));
            }
            i += 1;
        }
        proof {
            assert(ids@ =~= self.ids@);
        }
        MemberSet { ids }
    }
}

/// Inserting `p` into strictly sorted `s` at the first position whose
/// entry exceeds `p` is what `sorted_insert` yields.
proof fn lemma_sorted_insert_position(s: Seq<PeerId>, p: PeerId, i: int)
    requires
        strictly_sorted(s),
        0 <= i < s.len(),
        forall|j: int| 0 <= j < i ==> s[j] < p,
        s[i] > p,
    ensures
        sorted_insert(s, p) == s.insert(i, p),
    decreases s.len(),
{
    if i == s.len() - 1 {
        // p sits just before the last element
        if s.len() == 1 {
            assert(sorted_insert(s, p) == sorted_insert(s.drop_last(), p).push(s.last()));
            assert(sorted_insert(s.drop_last(), p) == seq![p]);
            assert(sorted_insert(s, p) =~= s.insert(i, p));
        } else {
            let d = s.drop_last();
            assert(d[d.len() - 1] == s[s.len() - 2]);
            assert(d.len() > 0 && d.last() < p);
            assert(sorted_insert(d, p) == d.push(p));
            assert(sorted_insert(s, p) == d.push(p).push(s.last()));
            assert(sorted_insert(s, p) =~= s.insert(i, p));
        }
    } else {
        let d = s.drop_last();
        assert(s[i] == d[i]);
        lemma_sorted_insert_position(d, p, i);
        assert(sorted_insert(s, p) == sorted_insert(d, p).push(s.last()));
        assert(sorted_insert(s, p) =~= s.insert(i, p));
    }
}

/// Removing the (unique) occurrence of `p` from strictly sorted `s`
/// keeps it sorted and matches `remove_value`.
proof fn lemma_sorted_remove_at(s: Seq<PeerId>, p: PeerId, i: int)
    requires
        strictly_sorted(s),
        0 <= i < s.len(),
        s[i] == p,
    ensures
        strictly_sorted(s.remove(i)),
        s.remove(i) == s.remove_value(p),
        s.remove(i).to_set() == s.to_set().remove(p),
{
    assert(forall|j: int| 0 <= j < s.len() && j != i ==> s[j] != p);
    s.index_of_first_ensures(p);
    assert(s.index_of_first(p) == Some(i));
    assert(s.remove_value(p) == s.remove(i));
    let r = s.remove(i);
    assert forall|a: int, b: int| 0 <= a < b < r.len() implies r[a] < r[b] by {
        let a2 = if a < i {
            a
        } else {
            a + 1
        };
        let b2 = if b < i {
            b
        } else {
            b + 1
        };
        assert(r[a] == s[a2] && r[b] == s[b2]);
    }
    assert forall|y: PeerId| r.to_set().contains(y) implies s.to_set().remove(p).contains(y) by {
        let k = choose|k: int| 0 <= k < r.len() && r[k] == y;
        let k2 = if k < i {
            k
        } else {
            k + 1
        };
        assert(s[k2] == y);
        assert(s.contains(y));
        assert(y != p);
    }
    assert forall|y: PeerId| s.to_set().remove(p).contains(y) implies r.to_set().contains(y) by {
        let k = choose|k: int| 0 <= k < s.len() && s[k] == y;
        assert(k != i);
        let k2 = if k < i {
            k
        } else {
            k - 1
        };
        assert(r[k2] == y);
    }
    assert(r.to_set() =~= s.to_set().remove(p));
}

} // verus!
