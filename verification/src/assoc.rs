//! Association lists ordered by a `u32` key.
//!
//! The view history, the leader's pending requests and the follower's
//! acknowledgement queue are all maps with small integer keys held as
//! key-sorted vectors. This module holds the spec-level lookup and the
//! lemmas that update, insertion and removal keep every other
//! association as it was.

use vstd::prelude::*;

verus! {

/// Whether the association list holds key `k`.
pub open spec fn assoc_has<V>(ev: Seq<(u32, V)>, k: u32) -> bool {
    exists|i: int| 0 <= i < ev.len() && ev[i].0 == k
}

/// The position of key `k` in the association list.
pub open spec fn assoc_idx<V>(ev: Seq<(u32, V)>, k: u32) -> int {
    choose|i: int| 0 <= i < ev.len() && ev[i].0 == k
}

/// The value at key `k` in the association list.
pub open spec fn assoc_get<V>(ev: Seq<(u32, V)>, k: u32) -> V {
    ev[assoc_idx(ev, k)].1
}

/// Whether the keys strictly increase, so each key occurs at most once.
pub open spec fn assoc_sorted<V>(ev: Seq<(u32, V)>) -> bool {
    forall|i: int, j: int| 0 <= i < j < ev.len() ==> ev[i].0 < ev[j].0
}

/// In a key-sorted list the position that shows key `k` is the one
/// `assoc_idx` names.
pub proof fn lemma_assoc_at<V>(ev: Seq<(u32, V)>, k: u32, i: int)
    requires
        assoc_sorted(ev),
        0 <= i < ev.len(),
        ev[i].0 == k,
    ensures
        assoc_has(ev, k),
        assoc_idx(ev, k) == i,
        assoc_get(ev, k) == ev[i].1,
{
    assert(assoc_has(ev, k));
    let j = assoc_idx(ev, k);
    assert(ev[j].0 == k);
    if i < j {
        assert(ev[i].0 < ev[j].0);
    }
    if j < i {
        assert(ev[j].0 < ev[i].0);
    }
}

/// Replacing the value under an existing key keeps every other
/// association as it was.
pub proof fn lemma_assoc_update<V>(
    old_ev: Seq<(u32, V)>,
    new_ev: Seq<(u32, V)>,
    k: u32,
    val: V,
    i: int,
)
    requires
        assoc_sorted(old_ev),
        0 <= i < old_ev.len(),
        old_ev[i].0 == k,
        new_ev == old_ev.update(i, (k, val)),
    ensures
        assoc_sorted(new_ev),
        assoc_has(new_ev, k),
        assoc_get(new_ev, k) == val,
        forall|w: u32| w != k ==> assoc_has(new_ev, w) == assoc_has(old_ev, w),
        forall|w: u32|
            w != k && assoc_has(old_ev, w) ==> assoc_get(new_ev, w) == assoc_get(old_ev, w),
{
    assert(forall|a: int| 0 <= a < new_ev.len() && a != i ==> new_ev[a] == old_ev[a]);
    assert(new_ev[i] == (k, val));
    lemma_assoc_at(new_ev, k, i);
    assert forall|w: u32| w != k implies assoc_has(new_ev, w) == assoc_has(old_ev, w) by {
        if assoc_has(new_ev, w) {
            let a = assoc_idx(new_ev, w);
            assert(new_ev[a].0 == w);
            assert(a != i);
            assert(old_ev[a].0 == w);
        }
        if assoc_has(old_ev, w) {
            let a = assoc_idx(old_ev, w);
            assert(old_ev[a].0 == w);
            assert(a != i);
            assert(new_ev[a].0 == w);
        }
    }
    assert forall|w: u32| w != k && assoc_has(old_ev, w) implies assoc_get(new_ev, w) == assoc_get(
        old_ev,
        w,
    ) by {
        let a = assoc_idx(old_ev, w);
        assert(old_ev[a].0 == w);
        assert(a != i);
        lemma_assoc_at(new_ev, w, a);
    }
}

/// Inserting a fresh key at its sorted position keeps every other
/// association as it was.
pub proof fn lemma_assoc_insert<V>(
    old_ev: Seq<(u32, V)>,
    new_ev: Seq<(u32, V)>,
    k: u32,
    val: V,
    i: int,
)
    requires
        assoc_sorted(old_ev),
        0 <= i <= old_ev.len(),
        forall|a: int| 0 <= a < i ==> old_ev[a].0 < k,
        forall|a: int| i <= a < old_ev.len() ==> old_ev[a].0 > k,
        new_ev == old_ev.insert(i, (k, val)),
    ensures
        assoc_sorted(new_ev),
        assoc_has(new_ev, k),
        assoc_get(new_ev, k) == val,
        forall|w: u32| w != k ==> assoc_has(new_ev, w) == assoc_has(old_ev, w),
        forall|w: u32|
            w != k && assoc_has(old_ev, w) ==> assoc_get(new_ev, w) == assoc_get(old_ev, w),
{
    assert(new_ev.len() == old_ev.len() + 1);
    assert(forall|a: int| 0 <= a < i ==> new_ev[a] == old_ev[a]);
    assert(forall|a: int| i < a < new_ev.len() ==> new_ev[a] == old_ev[a - 1]);
    assert(new_ev[i] == (k, val));
    assert forall|a: int, b: int| 0 <= a < b < new_ev.len() implies new_ev[a].0 < new_ev[b].0 by {
        if a == i {
            assert(new_ev[b] == old_ev[b - 1]);
        } else if b == i {
            assert(new_ev[a] == old_ev[a]);
        }
    }
    lemma_assoc_at(new_ev, k, i);
    assert forall|w: u32| w != k implies assoc_has(new_ev, w) == assoc_has(old_ev, w) by {
        if assoc_has(new_ev, w) {
            let a = assoc_idx(new_ev, w);
            assert(new_ev[a].0 == w);
            assert(a != i);
            if a < i {
                assert(old_ev[a].0 == w);
            } else {
                assert(old_ev[a - 1].0 == w);
            }
        }
        if assoc_has(old_ev, w) {
            let a = assoc_idx(old_ev, w);
            assert(old_ev[a].0 == w);
            if a < i {
                assert(new_ev[a].0 == w);
            } else {
                assert(new_ev[a + 1].0 == w);
            }
        }
    }
    assert forall|w: u32| w != k && assoc_has(old_ev, w) implies assoc_get(new_ev, w) == assoc_get(
        old_ev,
        w,
    ) by {
        let a = assoc_idx(old_ev, w);
        assert(old_ev[a].0 == w);
        if a < i {
            lemma_assoc_at(new_ev, w, a);
        } else {
            lemma_assoc_at(new_ev, w, a + 1);
        }
    }
}

/// Removing one key keeps every other association as it was.
pub proof fn lemma_assoc_remove<V>(old_ev: Seq<(u32, V)>, new_ev: Seq<(u32, V)>, k: u32, i: int)
    requires
        assoc_sorted(old_ev),
        0 <= i < old_ev.len(),
        old_ev[i].0 == k,
        new_ev == old_ev.remove(i),
    ensures
        assoc_sorted(new_ev),
        !assoc_has(new_ev, k),
        forall|w: u32| w != k ==> assoc_has(new_ev, w) == assoc_has(old_ev, w),
        forall|w: u32|
            w != k && assoc_has(old_ev, w) ==> assoc_get(new_ev, w) == assoc_get(old_ev, w),
{
    assert(new_ev.len() == old_ev.len() - 1);
    assert(forall|a: int| 0 <= a < i ==> new_ev[a] == old_ev[a]);
    assert(forall|a: int| i <= a < new_ev.len() ==> new_ev[a] == old_ev[a + 1]);
    assert forall|a: int, b: int| 0 <= a < b < new_ev.len() implies new_ev[a].0 < new_ev[b].0 by {
        if a < i && b >= i {
            assert(new_ev[a] == old_ev[a] && new_ev[b] == old_ev[b + 1]);
        }
    }
    assert forall|a: int| 0 <= a < new_ev.len() implies new_ev[a].0 != k by {
        if a < i {
            assert(old_ev[a].0 < k);
        } else {
            assert(old_ev[i].0 < old_ev[a + 1].0);
        }
    }
    assert forall|w: u32| w != k implies assoc_has(new_ev, w) == assoc_has(old_ev, w) by {
        if assoc_has(new_ev, w) {
            let a = assoc_idx(new_ev, w);
            assert(new_ev[a].0 == w);
            if a < i {
                assert(old_ev[a].0 == w);
            } else {
                assert(old_ev[a + 1].0 == w);
            }
        }
        if assoc_has(old_ev, w) {
            let a = assoc_idx(old_ev, w);
            assert(old_ev[a].0 == w);
            assert(a != i);
            if a < i {
                assert(new_ev[a].0 == w);
            } else {
                assert(new_ev[a - 1].0 == w);
            }
        }
    }
    assert forall|w: u32| w != k && assoc_has(old_ev, w) implies assoc_get(new_ev, w) == assoc_get(
        old_ev,
        w,
    ) by {
        let a = assoc_idx(old_ev, w);
        assert(old_ev[a].0 == w);
        assert(a != i);
        if a < i {
            lemma_assoc_at(new_ev, w, a);
        } else {
            lemma_assoc_at(new_ev, w, a - 1);
        }
    }
}

} // verus!
