//! The two roles: the leader's request ledger and the follower's
//! acknowledgement queue.
//!
//! The leader serializes membership changes: it numbers each request,
//! gathers acknowledgements per request, and lets at most one request be
//! in flight. A follower queues the instructions it receives and
//! acknowledges them in request order.

use crate::assoc::{assoc_get, assoc_has, assoc_sorted, lemma_assoc_at, lemma_assoc_insert,
    lemma_assoc_remove, lemma_assoc_update};
use crate::members::{sorted_insert, strictly_sorted, MemberSet};
use crate::messaging::{Instruction, Operation};
use crate::views::ViewHistory;
use crate::{PeerId, RequestId, ViewId, DEFAULT_LEADER_ID};
use vstd::prelude::*;

verus! {

/// One membership change the leader has accepted but not yet committed.
pub struct PendingReq {
    /// The peer being added or deleted.
    pub peer_id: PeerId,
    /// The view current when the leader accepted the request.
    pub view_id: ViewId,
    /// Whether the peer joins or leaves.
    pub op: Operation,
    /// Who has acknowledged the request so far.
    pub confirmations: MemberSet,
}

/// The mathematical shape of a pending request.
pub struct PendingV {
    pub peer_id: PeerId,
    pub view_id: ViewId,
    pub op: Operation,
    pub confirmations: Seq<PeerId>,
}

impl View for PendingReq {
    type V = PendingV;

    open spec fn view(&self) -> PendingV {
        PendingV {
            peer_id: self.peer_id,
            view_id: self.view_id,
            op: self.op,
            confirmations: self.confirmations@,
        }
    }
}

/// The acknowledgements a pending request needs before it may commit:
/// every member of the view it was accepted in — except, for a Delete,
/// the peer being evicted, which may be dead and can never answer for
/// its own removal.
pub open spec fn quorum_of(op: Operation, peer: PeerId, members: Seq<PeerId>) -> Seq<PeerId> {
    match op {
        Operation::Add => members,
        Operation::Delete => crate::members::without(members, peer),
    }
}

/// What a leader keeps: the request counter, the single in-flight
/// request, and every pending request keyed by its id.
pub struct Leading {
    requests_count: RequestId,
    waiting_for: Option<RequestId>,
    pending_requests: Vec<(RequestId, PendingReq)>,
}

impl Leading {
    /// How many requests have ever been accepted.
    pub closed spec fn count(&self) -> RequestId {
        self.requests_count
    }

    /// The request now in flight, if any.
    pub closed spec fn waiting(&self) -> Option<RequestId> {
        self.waiting_for
    }

    /// The pending requests, by request id.
    pub closed spec fn reqs(&self) -> Seq<(RequestId, PendingV)> {
        Seq::new(
            self.pending_requests@.len(),
            |i: int| (self.pending_requests@[i].0, self.pending_requests@[i].1@),
        )
    }

    /// Whether request `r` is still pending.
    pub open spec fn has_req(&self, r: RequestId) -> bool {
        assoc_has(self.reqs(), r)
    }

    /// The pending request numbered `r`.
    pub open spec fn req_at(&self, r: RequestId) -> PendingV {
        assoc_get(self.reqs(), r)
    }

    /// The invariant: request ids strictly increase and never exceed the
    /// counter, confirmation lists are sorted, and the in-flight request
    /// is still pending.
    pub open spec fn wf(&self) -> bool {
        &&& assoc_sorted(self.reqs())
        &&& forall|i: int|
            0 <= i < self.reqs().len() ==> 1 <= (#[trigger] self.reqs()[i]).0 <= self.count()
        &&& forall|i: int|
            0 <= i < self.reqs().len() ==> strictly_sorted((#[trigger] self.reqs()[i]).1.confirmations)
        &&& match self.waiting() {
            Some(r) => self.has_req(r),
            None => true,
        }
    }

    /// A fresh ledger: no requests yet, none in flight.
    pub fn new() -> (r: Self)
        ensures
            r.wf(),
            r.count() == 0,
            r.waiting() is None,
            r.reqs() == Seq::<(RequestId, PendingV)>::empty(),
    {
        let r = Leading { requests_count: 0, waiting_for: None, pending_requests: Vec::new() };
        proof {
            assert(r.reqs() =~= Seq::<(RequestId, PendingV)>::empty());
        }
        r
    }

    /// The id handed to the most recently accepted request.
    pub fn latest_request(&self) -> (r: RequestId)
        ensures
            r == self.count(),
    {
        self.requests_count
    }

    /// Accept a new request: bump the counter and record the change with
    /// no confirmations yet.
    pub fn push_request(&mut self, peer_id: PeerId, view_id: ViewId, op: Operation)
        requires
            old(self).wf(),
            old(self).count() < RequestId::MAX,
        ensures
            final(self).wf(),
            final(self).count() == old(self).count() + 1,
            final(self).waiting() == old(self).waiting(),
            final(self).reqs() == old(self).reqs().push(
                (
                    (old(self).count() + 1) as RequestId,
                    PendingV { peer_id, view_id, op, confirmations: Seq::<PeerId>::empty() },
                ),
            ),
            final(self).has_req((old(self).count() + 1) as RequestId),
            final(self).req_at((old(self).count() + 1) as RequestId) == (PendingV {
                peer_id,
                view_id,
                op,
                confirmations: Seq::<PeerId>::empty(),
            }),
            forall|r: RequestId|
                r != old(self).count() + 1 ==> final(self).has_req(r) == old(self).has_req(r),
            forall|r: RequestId|
                r != old(self).count() + 1 && old(self).has_req(r) ==> final(self).req_at(r) == old(
                    self,
                ).req_at(r),
    {
        let ghost old_reqs = self.reqs();
        self.requests_count = self.requests_count + 1;
        let rid = self.requests_count;
        let entry = PendingReq { peer_id, view_id, op, confirmations: MemberSet::new() };
        let ghost pv = entry@;
        let ghost n = self.pending_requests@.len() as int;
        self.pending_requests.push((rid, entry));
        proof {
            assert(self.reqs() =~= old_reqs.push((rid, pv)));
            assert(old_reqs.insert(n, (rid, pv)) =~= old_reqs.push((rid, pv)));
            lemma_assoc_insert(old_reqs, self.reqs(), rid, pv, n);
        }
    }

    /// Record peer `peer_id`'s acknowledgement of request `request_id`.
    /// An acknowledgement of a request no longer (or never) pending is
    /// dropped; a repeated one changes nothing.
    #[verifier::loop_isolation(false)]
    pub fn acknowledge_ok(&mut self, request_id: RequestId, peer_id: PeerId)
        requires
            old(self).wf(),
        ensures
            final(self).wf(),
            final(self).count() == old(self).count(),
            final(self).waiting() == old(self).waiting(),
            forall|r: RequestId| final(self).has_req(r) == old(self).has_req(r),
            !old(self).has_req(request_id) ==> final(self).reqs() == old(self).reqs(),
            old(self).has_req(request_id) ==> final(self).req_at(request_id) == (PendingV {
                confirmations: sorted_insert(old(self).req_at(request_id).confirmations, peer_id),
                ..old(self).req_at(request_id)
            }),
            forall|r: RequestId|
                r != request_id && old(self).has_req(r) ==> final(self).req_at(r) == old(
                    self,
                ).req_at(r),
    {
        let ghost old_reqs = self.reqs();
        let n = self.pending_requests.len();
        let mut i: usize = 0;
        while i < n
            invariant
                0 <= i <= n,
                n == self.pending_requests@.len(),
                self.pending_requests@ == old(self).pending_requests@,
                self.count() == old(self).count(),
                self.waiting() == old(self).waiting(),
                forall|j: int| 0 <= j < i ==> old_reqs[j].0 != request_id,
            decreases n - i,
        {
            if self.pending_requests[i].0 == request_id {
                proof {
                    lemma_assoc_at(old_reqs, request_id, i as int);
                }
                let entry = &mut self.pending_requests[i].1;
                proof {
                    crate::members::lemma_sorted_insert(entry.confirmations@, peer_id);
                }
                entry.confirmations.insert(peer_id);
                proof {
                    let upd = (
                        request_id,
                        PendingV {
                            confirmations: sorted_insert(old_reqs[i as int].1.confirmations, peer_id),
                            ..old_reqs[i as int].1
                        },
                    );
                    assert(self.reqs() =~= old_reqs.update(i as int, upd));
                    lemma_assoc_update(old_reqs, self.reqs(), request_id, upd.1, i as int);
                    assert forall|j: int| 0 <= j < self.reqs().len() implies 1 <= (
                    #[trigger] self.reqs()[j]).0 <= self.count() && strictly_sorted(
                        self.reqs()[j].1.confirmations,
                    ) by {
                        if j != i as int {
                            assert(self.reqs()[j] == old_reqs[j]);
                        }
                    }
                }
                return ;
            }
            i += 1;
        }
        proof {
            assert(!assoc_has(old_reqs, request_id));
            assert(self.reqs() =~= old_reqs);
        }
    }

    /// Whether a new request may go out: none is in flight and at least
    /// one is pending.
    pub fn can_proceed(&self) -> (r: bool)
        ensures
            r == (self.waiting() is None && self.reqs().len() > 0),
    {
        self.waiting_for.is_none() && self.pending_requests.len() > 0
    }

    /// Put the pending request with the lowest id in flight and hand
    /// back the instruction to broadcast.
    pub fn start_req(&mut self) -> (r: Instruction)
        requires
            old(self).wf(),
            old(self).waiting() is None,
            old(self).reqs().len() > 0,
        ensures
            final(self).wf(),
            final(self).count() == old(self).count(),
            final(self).reqs() == old(self).reqs(),
            final(self).waiting() == Some(old(self).reqs()[0].0),
            r.request_id == old(self).reqs()[0].0,
            r.peer_id == old(self).reqs()[0].1.peer_id,
            r.view_id == old(self).reqs()[0].1.view_id,
            r.op == old(self).reqs()[0].1.op,
            old(self).has_req(r.request_id) && old(self).req_at(r.request_id) == old(
                self,
            ).reqs()[0].1,
            forall|i: int|
                0 <= i < old(self).reqs().len() ==> old(self).reqs()[0].0 <= (#[trigger] old(
                    self,
                ).reqs()[i]).0,
    {
        let request_id = self.pending_requests[0].0;
        self.waiting_for = Some(request_id);
        let req = &self.pending_requests[0].1;
        proof {
            lemma_assoc_at(self.reqs(), request_id, 0);
            assert(self.reqs() =~= old(self).reqs());
        }
        Instruction { request_id, peer_id: req.peer_id, view_id: req.view_id, op: req.op }
    }

    /// If the in-flight request has gathered its quorum — every member
    /// of the view it was accepted in, less the evicted peer itself for
    /// a Delete — commit it: drop it from the ledger, clear the
    /// in-flight mark and hand back its instruction.
    #[verifier::loop_isolation(false)]
    pub fn check_req_complete(&mut self, history: &ViewHistory) -> (r: Option<Instruction>)
        requires
            old(self).wf(),
            history.wf(),
            match old(self).waiting() {
                Some(rid) => history.has_view(old(self).req_at(rid).view_id),
                None => true,
            },
        ensures
            final(self).wf(),
            final(self).count() == old(self).count(),
            match old(self).waiting() {
                None => r is None && *final(self) == *old(self),
                Some(rid) => ({
                    let pv = old(self).req_at(rid);
                    if pv.confirmations == quorum_of(pv.op, pv.peer_id, history.members_of(pv.view_id)) {
                        &&& r == Some(
                            Instruction {
                                request_id: rid,
                                peer_id: pv.peer_id,
                                view_id: pv.view_id,
                                op: pv.op,
                            },
                        )
                        &&& final(self).waiting() is None
                        &&& !final(self).has_req(rid)
                        &&& forall|w: RequestId|
                            w != rid ==> final(self).has_req(w) == old(self).has_req(w)
                        &&& forall|w: RequestId|
                            w != rid && old(self).has_req(w) ==> final(self).req_at(w) == old(
                                self,
                            ).req_at(w)
                    } else {
                        &&& r is None
                        &&& *final(self) == *old(self)
                    }
                }),
            },
    {
        let rid = match self.waiting_for {
            Some(rid) => rid,
            None => {
                return None;
            },
        };
        let ghost old_reqs = self.reqs();
        let n = self.pending_requests.len();
        let mut idx: usize = 0;
        let mut found: bool = false;
        while idx < n
            invariant
                0 <= idx <= n,
                n == self.pending_requests@.len(),
                !found ==> forall|j: int| 0 <= j < idx ==> old_reqs[j].0 != rid,
                found ==> idx < n && old_reqs[idx as int].0 == rid,
                self.pending_requests == old(self).pending_requests,
                self.waiting_for == old(self).waiting_for,
                self.requests_count == old(self).requests_count,
            decreases n - idx,
        {
            if self.pending_requests[idx].0 == rid {
                found = true;
                break ;
            }
            idx += 1;
        }
        proof {
            if !found {
                assert(!assoc_has(old_reqs, rid));
                assert(false);
            }
            lemma_assoc_at(old_reqs, rid, idx as int);
        }
        let req = &self.pending_requests[idx].1;
        let members = match history.get(req.view_id) {
            Some(ms) => ms,
            None => {
                proof {
                    assert(false);
                }
                return None;
            },
        };
        let complete = match req.op {
            Operation::Add => req.confirmations.set_eq(members),
            Operation::Delete => {
                let target = members.ids_without(req.peer_id);
                req.confirmations.equals_ids(&target)
            },
        };
        if complete {
            let instr = Instruction {
                request_id: rid,
                peer_id: req.peer_id,
                view_id: req.view_id,
                op: req.op,
            };
            self.waiting_for = None;
            self.pending_requests.remove(idx);
            proof {
                assert(self.reqs() =~= old_reqs.remove(idx as int));
                lemma_assoc_remove(old_reqs, self.reqs(), rid, idx as int);
            }
            Some(instr)
        } else {
            proof {
                assert(self.reqs() =~= old_reqs);
            }
            None
        }
    }

    /// The request now in flight, if any.
    pub fn waiting_for_id(&self) -> (r: Option<RequestId>)
        ensures
            r == self.waiting(),
    {
        self.waiting_for
    }

    /// The confirmations recorded so far for request `request_id`.
    #[verifier::loop_isolation(false)]
    pub fn confirmations_of(&self, request_id: RequestId) -> (r: Option<&MemberSet>)
        requires
            self.wf(),
        ensures
            match r {
                Some(ms) => self.has_req(request_id) && ms@ == self.req_at(request_id).confirmations
                    && ms.wf(),
                None => !self.has_req(request_id),
            },
    {
        let n = self.pending_requests.len();
        let mut i: usize = 0;
        while i < n
            invariant
                0 <= i <= n,
                n == self.pending_requests@.len(),
                forall|j: int| 0 <= j < i ==> self.reqs()[j].0 != request_id,
            decreases n - i,
        {
            if self.pending_requests[i].0 == request_id {
                proof {
                    lemma_assoc_at(self.reqs(), request_id, i as int);
                }
                return Some(&self.pending_requests[i].1.confirmations);
            }
            i += 1;
        }
        None
    }
}

/// What a follower keeps: who leads, and the instructions not yet
/// acknowledged, keyed by request id.
pub struct Following {
    leader_id: PeerId,
    ack_queue: Vec<(RequestId, Instruction)>,
}

impl Following {
    /// The leader this follower answers to.
    pub closed spec fn leader(&self) -> PeerId {
        self.leader_id
    }

    /// The queued instructions, by request id.
    pub closed spec fn acks(&self) -> Seq<(RequestId, Instruction)> {
        self.ack_queue@
    }

    /// Whether an instruction for request `r` is queued.
    pub open spec fn has_ack(&self, r: RequestId) -> bool {
        assoc_has(self.acks(), r)
    }

    /// The queued instruction for request `r`.
    pub open spec fn ack_at(&self, r: RequestId) -> Instruction {
        assoc_get(self.acks(), r)
    }

    /// The invariant: request ids strictly increase and each entry is
    /// keyed by its instruction's own request id.
    pub open spec fn wf(&self) -> bool {
        &&& assoc_sorted(self.acks())
        &&& forall|i: int|
            0 <= i < self.acks().len() ==> (#[trigger] self.acks()[i]).0
                == self.acks()[i].1.request_id
    }

    /// Who leads.
    pub fn leader_id(&self) -> (r: PeerId)
        ensures
            r == self.leader(),
    {
        self.leader_id
    }

    /// Queue an instruction for acknowledgement. A repeated request id
    /// replaces the queued instruction.
    #[verifier::loop_isolation(false)]
    pub fn push_instruction(&mut self, instr: Instruction)
        requires
            old(self).wf(),
        ensures
            final(self).wf(),
            final(self).leader() == old(self).leader(),
            final(self).has_ack(instr.request_id),
            final(self).ack_at(instr.request_id) == instr,
            forall|w: RequestId|
                w != instr.request_id ==> final(self).has_ack(w) == old(self).has_ack(w),
            forall|w: RequestId|
                w != instr.request_id && old(self).has_ack(w) ==> final(self).ack_at(w) == old(
                    self,
                ).ack_at(w),
    {
        let ghost old_acks = self.acks();
        let rid = instr.request_id;
        let n = self.ack_queue.len();
        let mut i: usize = 0;
        while i < n
            invariant
                0 <= i <= n,
                n == self.ack_queue@.len(),
                self.ack_queue@ == old(self).ack_queue@,
                self.leader() == old(self).leader(),
                forall|j: int| 0 <= j < i ==> old_acks[j].0 < rid,
            decreases n - i,
        {
            if self.ack_queue[i].0 == rid {
                self.ack_queue[i] = (rid, instr);
                proof {
                    assert(self.acks() =~= old_acks.update(i as int, (rid, instr)));
                    lemma_assoc_update(old_acks, self.acks(), rid, instr, i as int);
                }
                return ;
            }
            if self.ack_queue[i].0 > rid {
                proof {
                    assert forall|a: int| i as int <= a < old_acks.len() implies old_acks[a].0
                        > rid by {
                        if a > i as int {
                            assert(old_acks[i as int].0 < old_acks[a].0);
                        }
                    }
                }
                self.ack_queue.insert(i, (rid, instr));
                proof {
                    assert(self.acks() =~= old_acks.insert(i as int, (rid, instr)));
                    lemma_assoc_insert(old_acks, self.acks(), rid, instr, i as int);
                }
                return ;
            }
            i += 1;
        }
        self.ack_queue.push((rid, instr));
        proof {
            assert(self.acks() =~= old_acks.insert(n as int, (rid, instr)));
            lemma_assoc_insert(old_acks, self.acks(), rid, instr, n as int);
        }
    }

    /// Pop the queued instruction with the lowest request id, so that
    /// followers acknowledge in the order the leader issued.
    pub fn send_ok(&mut self) -> (r: Option<Instruction>)
        requires
            old(self).wf(),
        ensures
            final(self).wf(),
            final(self).leader() == old(self).leader(),
            old(self).acks().len() == 0 ==> r is None && final(self).acks() == old(self).acks(),
            old(self).acks().len() > 0 ==> r == Some(old(self).acks()[0].1) && final(self).acks()
                == old(self).acks().remove(0) && (forall|i: int|
                0 <= i < old(self).acks().len() ==> old(self).acks()[0].0 <= (#[trigger] old(
                    self,
                ).acks()[i]).0),
    {
        if self.ack_queue.len() == 0 {
            return None;
        }
        let entry = self.ack_queue.remove(0);
        Some(entry.1)
    }
}

/// A process is either the leader or a follower.
pub enum Role {
    Leader(Leading),
    Follower(Following),
}

impl Role {
    /// The role a process starts in, by its place in the host list.
    pub fn new(is_leader: bool) -> (r: Self)
        ensures
            match r {
                Role::Leader(lead) => is_leader && lead.wf() && lead.count() == 0 && lead.waiting()
                    is None && lead.reqs().len() == 0,
                Role::Follower(follow) => !is_leader && follow.wf() && follow.leader()
                    == DEFAULT_LEADER_ID && follow.acks().len() == 0,
            },
    {
        if is_leader {
            Role::Leader(Leading::new())
        } else {
            Role::Follower(Following { leader_id: DEFAULT_LEADER_ID, ack_queue: Vec::new() })
        }
    }
}

} // verus!
