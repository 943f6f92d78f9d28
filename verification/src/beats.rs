//! The heartbeat log: when each peer was last heard from.
//!
//! A plain association list with distinct peer ids; order carries no
//! meaning, only the most recent receipt per peer does.

use crate::PeerId;
use vstd::prelude::*;

verus! {

/// When each peer last sent a heartbeat, in milliseconds of the local
/// monotonic clock.
pub struct BeatLog {
    entries: Vec<(PeerId, u64)>,
}

impl BeatLog {
    /// The recorded (peer, last seen) pairs.
    pub closed spec fn log(&self) -> Seq<(PeerId, u64)> {
        self.entries@
    }

    /// Whether peer `p` has a recorded heartbeat.
    pub open spec fn has_beat(&self, p: PeerId) -> bool {
        has_key(self.log(), p)
    }

    /// When peer `p` was last heard from.
    pub open spec fn beat_at(&self, p: PeerId) -> u64 {
        val_at(self.log(), p)
    }

    /// The invariant: one entry per peer.
    pub open spec fn wf(&self) -> bool {
        forall|i: int, j: int|
            0 <= i < j < self.log().len() ==> self.log()[i].0 != self.log()[j].0
    }

    /// An empty log.
    pub fn new() -> (r: Self)
        ensures
            r.wf(),
            forall|p: PeerId| !r.has_beat(p),
            r.log().len() == 0,
    {
        BeatLog { entries: Vec::new() }
    }

    /// When peer `p` was last heard from, if ever.
    #[verifier::loop_isolation(false)]
    pub fn get(&self, p: PeerId) -> (r: Option<u64>)
        requires
            self.wf(),
        ensures
            match r {
                Some(t) => self.has_beat(p) && t == self.beat_at(p),
                None => !self.has_beat(p),
            },
    {
        let n = self.entries.len();
        let mut i: usize = 0;
        while i < n
            invariant
                0 <= i <= n,
                n == self.log().len(),
                forall|j: int| 0 <= j < i ==> self.log()[j].0 != p,
            decreases n - i,
        {
            if self.entries[i].0 == p {
                proof {
                    lemma_beat_at(self.log(), p, i as int);
                }
                return Some(self.entries[i].1);
            }
            i += 1;
        }
        None
    }

    /// Record that peer `p` was heard from at `t`, replacing any earlier
    /// record.
    #[verifier::loop_isolation(false)]
    pub fn set(&mut self, p: PeerId, t: u64)
        requires
            old(self).wf(),
        ensures
            final(self).wf(),
            final(self).has_beat(p),
            final(self).beat_at(p) == t,
            forall|q: PeerId| q != p ==> final(self).has_beat(q) == old(self).has_beat(q),
            forall|q: PeerId|
                q != p && old(self).has_beat(q) ==> final(self).beat_at(q) == old(self).beat_at(q),
    {
        let ghost old_log = self.log();
        let n = self.entries.len();
        let mut i: usize = 0;
        while i < n
            invariant
                0 <= i <= n,
                n == self.log().len(),
                self.log() == old_log,
                forall|j: int| 0 <= j < i ==> old_log[j].0 != p,
            decreases n - i,
        {
            if self.entries[i].0 == p {
                self.entries[i] = (p, t);
                proof {
                    assert(self.log() =~= old_log.update(i as int, (p, t)));
                    lemma_beat_update(old_log, self.log(), p, t, i as int);
                }
                return ;
            }
            i += 1;
        }
        self.entries.push((p, t));
        proof {
            assert(!has_key(old_log, p));
            assert(self.log() =~= old_log.push((p, t)));
            lemma_beat_push(old_log, self.log(), p, t);
        }
    }

    /// Forget peer `p`.
    #[verifier::loop_isolation(false)]
    pub fn remove(&mut self, p: PeerId)
        requires
            old(self).wf(),
        ensures
            final(self).wf(),
            !final(self).has_beat(p),
            forall|q: PeerId| q != p ==> final(self).has_beat(q) == old(self).has_beat(q),
            forall|q: PeerId|
                q != p && old(self).has_beat(q) ==> final(self).beat_at(q) == old(self).beat_at(q),
    {
        let ghost old_log = self.log();
        let n = self.entries.len();
        let mut i: usize = 0;
        while i < n
            invariant
                0 <= i <= n,
                n == self.log().len(),
                self.log() == old_log,
                forall|j: int| 0 <= j < i ==> old_log[j].0 != p,
            decreases n - i,
        {
            if self.entries[i].0 == p {
                self.entries.remove(i);
                proof {
                    assert(self.log() =~= old_log.remove(i as int));
                    lemma_beat_remove(old_log, self.log(), p, i as int);
                }
                return ;
            }
            i += 1;
        }
        proof {
            assert(self.log() =~= old_log);
        }
    }
}

/// Whether the list holds key `p`.
pub open spec fn has_key(log: Seq<(PeerId, u64)>, p: PeerId) -> bool {
    exists|i: int| 0 <= i < log.len() && log[i].0 == p
}

/// The position of key `p` in the list.
pub open spec fn key_idx(log: Seq<(PeerId, u64)>, p: PeerId) -> int {
    choose|i: int| 0 <= i < log.len() && log[i].0 == p
}

/// The value stored under key `p`.
pub open spec fn val_at(log: Seq<(PeerId, u64)>, p: PeerId) -> u64 {
    log[key_idx(log, p)].1
}

/// Distinct keys.
spec fn distinct(log: Seq<(PeerId, u64)>) -> bool {
    forall|i: int, j: int| 0 <= i < j < log.len() ==> log[i].0 != log[j].0
}

/// The chosen index of a key is the index where it stands.
proof fn lemma_beat_at(log: Seq<(PeerId, u64)>, p: PeerId, i: int)
    requires
        distinct(log),
        0 <= i < log.len(),
        log[i].0 == p,
    ensures
        has_key(log, p),
        key_idx(log, p) == i,
        val_at(log, p) == log[i].1,
{
    let k = key_idx(log, p);
    assert(log[k].0 == p);
    if k != i {
        if k < i {
            assert(log[k].0 != log[i].0);
        } else {
            assert(log[i].0 != log[k].0);
        }
    }
}

/// Replacing the entry of one peer keeps every other as it was.
proof fn lemma_beat_update(
    old_log: Seq<(PeerId, u64)>,
    new_log: Seq<(PeerId, u64)>,
    p: PeerId,
    t: u64,
    i: int,
)
    requires
        distinct(old_log),
        0 <= i < old_log.len(),
        old_log[i].0 == p,
        new_log == old_log.update(i, (p, t)),
    ensures
        distinct(new_log),
        has_key(new_log, p),
        val_at(new_log, p) == t,
        forall|q: PeerId| q != p ==> has_key(new_log, q) == has_key(old_log, q),
        forall|q: PeerId|
            q != p && has_key(old_log, q) ==> val_at(new_log, q) == val_at(old_log, q),
{
    assert(forall|a: int| 0 <= a < new_log.len() && a != i ==> new_log[a] == old_log[a]);
    assert(new_log[i] == (p, t));
    lemma_beat_at(new_log, p, i);
    assert forall|q: PeerId| q != p implies has_key(new_log, q) == has_key(old_log, q) by {
        if has_key(new_log, q) {
            let a = choose|a: int| 0 <= a < new_log.len() && new_log[a].0 == q;
            assert(a != i);
            assert(old_log[a].0 == q);
        }
        if has_key(old_log, q) {
            let a = choose|a: int| 0 <= a < old_log.len() && old_log[a].0 == q;
            assert(a != i);
            assert(new_log[a].0 == q);
        }
    }
    assert forall|q: PeerId| q != p && has_key(old_log, q) implies val_at(new_log, q) == val_at(
        old_log,
        q,
    ) by {
        let a = choose|a: int| 0 <= a < old_log.len() && old_log[a].0 == q;
        assert(a != i);
        assert(new_log[a].0 == q);
        lemma_beat_at(old_log, q, a);
        lemma_beat_at(new_log, q, a);
    }
}

/// Appending a fresh peer keeps every other association as it was.
proof fn lemma_beat_push(
    old_log: Seq<(PeerId, u64)>,
    new_log: Seq<(PeerId, u64)>,
    p: PeerId,
    t: u64,
)
    requires
        distinct(old_log),
        !has_key(old_log, p),
        new_log == old_log.push((p, t)),
    ensures
        distinct(new_log),
        has_key(new_log, p),
        val_at(new_log, p) == t,
        forall|q: PeerId| q != p ==> has_key(new_log, q) == has_key(old_log, q),
        forall|q: PeerId|
            q != p && has_key(old_log, q) ==> val_at(new_log, q) == val_at(old_log, q),
{
    let n = old_log.len() as int;
    assert(forall|a: int| 0 <= a < n ==> new_log[a] == old_log[a]);
    assert(new_log[n] == (p, t));
    assert forall|a: int, b: int| 0 <= a < b < new_log.len() implies new_log[a].0 != new_log[b].0 by {
        if b == n {
            if new_log[a].0 == p {
                assert(old_log[a].0 == p);
            }
        }
    }
    lemma_beat_at(new_log, p, n);
    assert forall|q: PeerId| q != p implies has_key(new_log, q) == has_key(old_log, q) by {
        if has_key(new_log, q) {
            let a = choose|a: int| 0 <= a < new_log.len() && new_log[a].0 == q;
            assert(a != n);
            assert(old_log[a].0 == q);
        }
        if has_key(old_log, q) {
            let a = choose|a: int| 0 <= a < old_log.len() && old_log[a].0 == q;
            assert(new_log[a].0 == q);
        }
    }
    assert forall|q: PeerId| q != p && has_key(old_log, q) implies val_at(new_log, q) == val_at(
        old_log,
        q,
    ) by {
        let a = choose|a: int| 0 <= a < old_log.len() && old_log[a].0 == q;
        lemma_beat_at(old_log, q, a);
        lemma_beat_at(new_log, q, a);
    }
}

/// Removing one peer keeps every other association as it was.
proof fn lemma_beat_remove(
    old_log: Seq<(PeerId, u64)>,
    new_log: Seq<(PeerId, u64)>,
    p: PeerId,
    i: int,
)
    requires
        distinct(old_log),
        0 <= i < old_log.len(),
        old_log[i].0 == p,
        new_log == old_log.remove(i),
    ensures
        distinct(new_log),
        !has_key(new_log, p),
        forall|q: PeerId| q != p ==> has_key(new_log, q) == has_key(old_log, q),
        forall|q: PeerId|
            q != p && has_key(old_log, q) ==> val_at(new_log, q) == val_at(old_log, q),
{
    assert(new_log.len() == old_log.len() - 1);
    assert(forall|a: int| 0 <= a < i ==> new_log[a] == old_log[a]);
    assert(forall|a: int| i <= a < new_log.len() ==> new_log[a] == old_log[a + 1]);
    assert forall|a: int, b: int| 0 <= a < b < new_log.len() implies new_log[a].0 != new_log[b].0 by {
        if a < i && b >= i {
            assert(new_log[a] == old_log[a] && new_log[b] == old_log[b + 1]);
        }
    }
    assert forall|a: int| 0 <= a < new_log.len() implies new_log[a].0 != p by {
        if a < i {
            assert(old_log[a].0 != old_log[i].0);
        } else {
            assert(old_log[a + 1].0 != old_log[i].0);
        }
    }
    assert forall|q: PeerId| q != p implies has_key(new_log, q) == has_key(old_log, q) by {
        if has_key(new_log, q) {
            let a = choose|a: int| 0 <= a < new_log.len() && new_log[a].0 == q;
            if a < i {
                assert(old_log[a].0 == q);
            } else {
                assert(old_log[a + 1].0 == q);
            }
        }
        if has_key(old_log, q) {
            let a = choose|a: int| 0 <= a < old_log.len() && old_log[a].0 == q;
            assert(a != i);
            if a < i {
                assert(new_log[a].0 == q);
            } else {
                assert(new_log[a - 1].0 == q);
            }
        }
    }
    assert forall|q: PeerId| q != p && has_key(old_log, q) implies val_at(new_log, q) == val_at(
        old_log,
        q,
    ) by {
        let a = choose|a: int| 0 <= a < old_log.len() && old_log[a].0 == q;
        assert(a != i);
        lemma_beat_at(old_log, q, a);
        if a < i {
            lemma_beat_at(new_log, q, a);
        } else {
            lemma_beat_at(new_log, q, a - 1);
        }
    }
}

} // verus!
