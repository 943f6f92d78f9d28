//! The protocol state of one process, and its transitions.
//!
//! `Data` holds the role, the lifecycle, the view history and the place
//! in the host list. Its methods are the protocol: they take an inbound
//! letter or a clock reading and yield the letters to send, leaving all
//! I/O to the caller.

use crate::beats::BeatLog;
use crate::hostsfile::{lemma_count_eq, PeerList};
use crate::members::{sorted_insert, without, MemberSet};
use crate::messaging::{Instruction, Letter, Message, MessageV, Operation};
use crate::roles::{quorum_of, Following, Leading, PendingV, Role};
use crate::views::ViewHistory;
use crate::{PeerId, Reasons, RequestId, ViewId, DEFAULT_LEADER_ID, HEARTBEAT_PERIOD_MILLIS};
use vstd::prelude::*;

verus! {

/// Where a process stands in its life: gathering the initial membership,
/// or up and exchanging heartbeats.
pub enum LifeCycle {
    /// Not every host has appeared in the view yet; no heartbeats flow.
    Born,
    /// Every host has joined; heartbeats flow and silence is suspicious.
    Living(BeatLog),
}

/// A letter to send, together with who must receive it.
pub struct Outbound {
    /// The peers the letter goes to, each by id; never the sender itself.
    pub recipients: Vec<PeerId>,
    /// The letter to serialize and send.
    pub letter: Letter,
}

/// The whole protocol state of one process.
pub struct Data {
    role: Role,
    status: LifeCycle,
    memberships: ViewHistory,
    view_id: ViewId,
    peer_list: PeerList,
    crash_delay: Option<u64>,
}

impl Data {
    /// The role with its ledger or queue.
    pub closed spec fn role_spec(&self) -> Role {
        self.role
    }

    /// The lifecycle stage.
    pub closed spec fn status_spec(&self) -> LifeCycle {
        self.status
    }

    /// Every view this process has witnessed.
    pub closed spec fn history(&self) -> ViewHistory {
        self.memberships
    }

    /// The current view id.
    pub closed spec fn view_id_spec(&self) -> ViewId {
        self.view_id
    }

    /// The host list this process was started with.
    pub closed spec fn peers(&self) -> PeerList {
        self.peer_list
    }

    /// The configured simulated-crash delay, if any.
    pub closed spec fn crash_delay_spec(&self) -> Option<u64> {
        self.crash_delay
    }

    /// Whether this process leads.
    pub open spec fn is_leader(&self) -> bool {
        self.role_spec() is Leader
    }

    /// The leader ledger. Meaningful only when this process leads.
    pub open spec fn leading(&self) -> Leading {
        self.role_spec()->Leader_0
    }

    /// The follower queue. Meaningful only when this process follows.
    pub open spec fn following(&self) -> Following {
        self.role_spec()->Follower_0
    }

    /// This process's own peer id.
    pub open spec fn my_id(&self) -> PeerId {
        self.peers().id_of() as PeerId
    }

    /// The member list of the current view.
    pub open spec fn current_members_spec(&self) -> Seq<PeerId> {
        self.history().members_of(self.view_id_spec())
    }

    /// The invariant tying the parts together: the current view is
    /// recorded, the role's ledger is sound, every pending request's
    /// view is recorded, and only peer 1 ever leads.
    pub open spec fn wf(&self) -> bool {
        &&& self.peers().wf()
        &&& self.history().wf()
        &&& self.history().has_view(self.view_id_spec())
        &&& match self.role_spec() {
            Role::Leader(l) => {
                &&& l.wf()
                &&& self.peers().id_of() == DEFAULT_LEADER_ID
                &&& forall|rid: RequestId|
                    #[trigger] l.has_req(rid) ==> self.history().has_view(l.req_at(rid).view_id)
            },
            Role::Follower(f) => f.wf() && f.leader() == DEFAULT_LEADER_ID,
        }
        &&& match self.status_spec() {
            LifeCycle::Born => true,
            LifeCycle::Living(bl) => bl.wf(),
        }
    }

    /// Whether the role can absorb one more request.
    pub open spec fn can_accept(&self) -> bool {
        match self.role_spec() {
            Role::Leader(l) => l.count() < RequestId::MAX,
            Role::Follower(_) => true,
        }
    }

    /// The initial state: view 1 holds the leader alone, the lifecycle
    /// is Born, and the role follows from the host list.
    pub fn new(peer_list: PeerList, crash_delay: Option<u64>) -> (d: Data)
        requires
            peer_list.wf(),
        ensures
            d.wf(),
            d.peers() == peer_list,
            d.view_id_spec() == 1,
            d.status_spec() is Born,
            d.crash_delay_spec() == crash_delay,
            d.history().has_view(1),
            d.history().members_of(1) == seq![DEFAULT_LEADER_ID as PeerId],
            forall|w: ViewId| w != 1 ==> !d.history().has_view(w),
            d.is_leader() == (peer_list.names()[0] == peer_list.host_name()),
            d.is_leader() ==> d.leading().count() == 0 && d.leading().waiting() is None
                && d.leading().reqs().len() == 0,
            !d.is_leader() ==> d.following().acks().len() == 0 && d.following().leader()
                == DEFAULT_LEADER_ID,
    {
        let is_lead = peer_list.is_leader();
        let role = Role::new(is_lead);
        let mut members = MemberSet::new();
        proof {
            crate::members::lemma_sorted_insert(members@, DEFAULT_LEADER_ID);
        }
        members.insert(DEFAULT_LEADER_ID);
        proof {
            assert(members@ =~= seq![DEFAULT_LEADER_ID as PeerId]);
        }
        let mut memberships = ViewHistory::new();
        memberships.insert(1, members);
        proof {
            if is_lead {
                lemma_count_eq(peer_list.names(), peer_list.host_name());
                let k = choose|i: int|
                    0 <= i < peer_list.names().len() && peer_list.names()[i]
                        == peer_list.host_name();
                assert(peer_list.names()[k] == peer_list.host_name());
                assert(k == 0);
            }
        }
        Data { role, status: LifeCycle::Born, memberships, view_id: 1, peer_list, crash_delay }
    }

    /// The current view id.
    pub fn view_id(&self) -> (r: ViewId)
        ensures
            r == self.view_id_spec(),
    {
        self.view_id
    }

    /// Whether this process leads.
    pub fn leads(&self) -> (r: bool)
        ensures
            r == self.is_leader(),
    {
        matches!(self.role, Role::Leader(_))
    }

    /// Whether heartbeats are flowing.
    pub fn is_living(&self) -> (r: bool)
        ensures
            r == (self.status_spec() is Living),
    {
        matches!(self.status, LifeCycle::Living(_))
    }

    /// The configured simulated-crash delay, if any.
    pub fn crash_delay(&self) -> (r: Option<u64>)
        ensures
            r == self.crash_delay_spec(),
    {
        self.crash_delay
    }

    /// The role, for reading the ledger or the queue.
    pub fn role_ref(&self) -> (r: &Role)
        ensures
            *r == self.role_spec(),
    {
        &self.role
    }

    /// The id of the current leader in the system.
    pub fn leader_id(&self) -> (r: PeerId)
        requires
            self.wf(),
        ensures
            r == DEFAULT_LEADER_ID,
    {
        match &self.role {
            Role::Leader(_) => self.peer_list.id(),
            Role::Follower(follow) => follow.leader_id(),
        }
    }

    /// The members recorded for view `v`, if witnessed.
    pub fn members_of_view(&self, v: ViewId) -> (r: Option<&MemberSet>)
        requires
            self.wf(),
        ensures
            match r {
                Some(ms) => self.history().has_view(v) && ms@ == self.history().members_of(v)
                    && ms.wf(),
                None => !self.history().has_view(v),
            },
    {
        self.memberships.get(v)
    }

    /// The members of the current view.
    pub fn current_members(&self) -> (r: Option<&MemberSet>)
        requires
            self.wf(),
        ensures
            r matches Some(ms) && ms@ == self.current_members_spec() && ms.wf(),
    {
        self.memberships.get(self.view_id)
    }

    /// A follower's opening move: ask the leader to join. The leader has
    /// nothing to ask; it is in view 1 from the start.
    pub fn ask_to_join(&self) -> (r: Option<(PeerId, Letter)>)
        requires
            self.wf(),
        ensures
            match self.role_spec() {
                Role::Leader(_) => r is None,
                Role::Follower(f) => r matches Some((to, letter)) && to == f.leader()
                    && letter@.from == self.my_id() && letter@.msg is Join && letter.wf(),
            },
    {
        match &self.role {
            Role::Leader(_) => None,
            Role::Follower(follow) => {
                let letter = Letter::new(self.peer_list.id(), Message::JOIN);
                Some((follow.leader_id(), letter))
            },
        }
    }

    /// Take one inbound letter. A leader accepts JOIN (opening a request
    /// it immediately acknowledges itself) and OK (one more
    /// confirmation); a follower accepts REQ (queued for
    /// acknowledgement) and NEWVIEW (the new membership). Anything else
    /// is a protocol violation and leaves the state untouched.
    pub fn recv_message(&mut self, letter: &Letter) -> (r: Result<(), Reasons>)
        requires
            old(self).wf(),
            old(self).can_accept(),
            letter.wf(),
        ensures
            final(self).wf(),
            final(self).peers() == old(self).peers(),
            final(self).status_spec() == old(self).status_spec(),
            final(self).crash_delay_spec() == old(self).crash_delay_spec(),
            match old(self).role_spec() {
                Role::Leader(l) => {
                    &&& final(self).view_id_spec() == old(self).view_id_spec()
                    &&& final(self).history() == old(self).history()
                    &&& final(self).is_leader()
                    &&& match letter@.msg {
                        MessageV::Join => ({
                            let l2 = final(self).leading();
                            let rid = (l.count() + 1) as RequestId;
                            &&& r is Ok
                            &&& l2.count() == l.count() + 1
                            &&& l2.waiting() == l.waiting()
                            &&& l2.has_req(rid)
                            &&& l2.req_at(rid) == (PendingV {
                                peer_id: letter@.from,
                                view_id: old(self).view_id_spec(),
                                op: Operation::Add,
                                confirmations: seq![old(self).my_id()],
                            })
                            &&& forall|w: RequestId| w != rid ==> l2.has_req(w) == l.has_req(w)
                            &&& forall|w: RequestId|
                                w != rid && l.has_req(w) ==> l2.req_at(w) == l.req_at(w)
                        }),
                        MessageV::Okay { request_id, .. } => ({
                            let l2 = final(self).leading();
                            &&& r is Ok
                            &&& l2.count() == l.count()
                            &&& l2.waiting() == l.waiting()
                            &&& forall|w: RequestId| l2.has_req(w) == l.has_req(w)
                            &&& l.has_req(request_id) ==> l2.req_at(request_id) == (PendingV {
                                confirmations: sorted_insert(
                                    l.req_at(request_id).confirmations,
                                    letter@.from,
                                ),
                                ..l.req_at(request_id)
                            })
                            &&& forall|w: RequestId|
                                w != request_id && l.has_req(w) ==> l2.req_at(w) == l.req_at(w)
                        }),
                        _ => r == Err::<(), Reasons>(Reasons::ProtocolViolation) && final(self).role_spec()
                            == old(self).role_spec(),
                    }
                },
                Role::Follower(f) => match letter@.msg {
                    MessageV::Req(instr) => ({
                        let f2 = final(self).following();
                        &&& r is Ok
                        &&& final(self).view_id_spec() == old(self).view_id_spec()
                        &&& final(self).history() == old(self).history()
                        &&& !final(self).is_leader()
                        &&& f2.leader() == f.leader()
                        &&& f2.has_ack(instr.request_id)
                        &&& f2.ack_at(instr.request_id) == instr
                        &&& forall|w: RequestId|
                            w != instr.request_id ==> f2.has_ack(w) == f.has_ack(w)
                        &&& forall|w: RequestId|
                            w != instr.request_id && f.has_ack(w) ==> f2.ack_at(w) == f.ack_at(w)
                    }),
                    MessageV::NewView { view_id: v, members: m } => ({
                        &&& r is Ok
                        &&& final(self).role_spec() == old(self).role_spec()
                        &&& final(self).view_id_spec() == v
                        &&& final(self).history().has_view(v)
                        &&& final(self).history().members_of(v) == m
                        &&& forall|w: ViewId|
                            w != v ==> final(self).history().has_view(w) == old(self).history().has_view(w)
                        &&& forall|w: ViewId|
                            w != v && old(self).history().has_view(w) ==> final(self).history().members_of(w) == old(self).history().members_of(w)
                    }),
                    _ => r == Err::<(), Reasons>(Reasons::ProtocolViolation) && final(self).role_spec()
                        == old(self).role_spec() && final(self).view_id_spec() == old(self).view_id_spec() && final(self).history() == old(self).history(),
                },
            },
    {
        match letter.message() {
            Message::JOIN => match &mut self.role {
                Role::Leader(lead) => {
                    let my = self.peer_list.id();
                    lead.push_request(letter.from_whom(), self.view_id, Operation::Add);
                    let latest = lead.latest_request();
                    lead.acknowledge_ok(latest, my);
                    proof {
                        assert(sorted_insert(Seq::<PeerId>::empty(), my) =~= seq![my]);
                    }
                    Ok(())
                },
                Role::Follower(_) => Err(Reasons::ProtocolViolation),
            },
            Message::OK { request_id, .. } => match &mut self.role {
                Role::Leader(lead) => {
                    lead.acknowledge_ok(*request_id, letter.from_whom());
                    Ok(())
                },
                Role::Follower(_) => Err(Reasons::ProtocolViolation),
            },
            Message::REQ(instr) => match &mut self.role {
                Role::Follower(follow) => {
                    follow.push_instruction(*instr);
                    Ok(())
                },
                Role::Leader(_) => Err(Reasons::ProtocolViolation),
            },
            Message::NEWVIEW { view_id, members } => match &self.role {
                Role::Follower(_) => {
                    self.view_id = *view_id;
                    self.memberships.insert(*view_id, members.clone());
                    Ok(())
                },
                Role::Leader(_) => Err(Reasons::ProtocolViolation),
            },
            Message::HEARTBEAT => Err(Reasons::ProtocolViolation),
        }
    }

    /// If no request is in flight and some are pending, put the one with
    /// the lowest id in flight and hand back the REQ letter, addressed
    /// to every member of the view recorded on the request but this
    /// process itself. Never sends while another request is in flight.
    pub fn proceed_reqs(&mut self) -> (r: Option<(Vec<PeerId>, Letter)>)
        requires
            old(self).wf(),
        ensures
            final(self).wf(),
            final(self).peers() == old(self).peers(),
            final(self).view_id_spec() == old(self).view_id_spec(),
            final(self).history() == old(self).history(),
            final(self).status_spec() == old(self).status_spec(),
            final(self).crash_delay_spec() == old(self).crash_delay_spec(),
            match old(self).role_spec() {
                Role::Follower(_) => r is None && final(self).role_spec() == old(self).role_spec(),
                Role::Leader(l) => if l.waiting() is None && l.reqs().len() > 0 {
                    ({
                        let (rid, pv) = l.reqs()[0];
                        &&& final(self).is_leader()
                        &&& final(self).leading().waiting() == Some(rid)
                        &&& final(self).leading().reqs() == l.reqs()
                        &&& final(self).leading().count() == l.count()
                        &&& r matches Some((recips, letter)) && recips@ == without(
                            old(self).history().members_of(pv.view_id),
                            old(self).my_id(),
                        ) && letter@.from == old(self).my_id() && letter@.msg == MessageV::Req(
                            Instruction {
                                request_id: rid,
                                peer_id: pv.peer_id,
                                view_id: pv.view_id,
                                op: pv.op,
                            },
                        ) && letter.wf()
                        &&& forall|i: int| 0 <= i < l.reqs().len() ==> rid <= (#[trigger] l.reqs()[i]).0
                    })
                } else {
                    r is None && final(self).role_spec() == old(self).role_spec()
                },
            },
    {
        let instr_opt: Option<Instruction> = match &mut self.role {
            Role::Leader(lead) => if lead.can_proceed() {
                Some(lead.start_req())
            } else {
                None
            },
            Role::Follower(_) => None,
        };
        proof {
            if self.is_leader() {
                // the ledger may have changed, but its requests did not
                assert forall|rid: RequestId| #[trigger] self.leading().has_req(rid) implies self
                    .history().has_view(self.leading().req_at(rid).view_id) by {
                    assert(old(self).leading().has_req(rid));
                    assert(old(self).leading().req_at(rid) == self.leading().req_at(rid));
                }
            }
        }
        match instr_opt {
            Some(instr) => {
                proof {
                    assert(self.leading().has_req(instr.request_id));
                }
                let ms = match self.memberships.get(instr.view_id) {
                    Some(ms) => ms,
                    None => {
                        proof {
                            assert(false);
                        }
                        return None;
                    },
                };
                let recips = ms.ids_without(self.peer_list.id());
                let letter = Letter::new(self.peer_list.id(), Message::REQ(instr));
                Some((recips, letter))
            },
            None => None,
        }
    }

    /// Apply the committed operation to the current membership and open
    /// the next view with the result. A Delete of a peer that is not a
    /// member cannot be applied; that is fatal.
    fn push_new_view(&mut self, peer: PeerId, op: Operation) -> (r: Result<(), Reasons>)
        requires
            old(self).wf(),
            old(self).view_id_spec() < ViewId::MAX,
        ensures
            final(self).wf(),
            final(self).peers() == old(self).peers(),
            final(self).status_spec() == old(self).status_spec(),
            final(self).crash_delay_spec() == old(self).crash_delay_spec(),
            final(self).role_spec() == old(self).role_spec(),
            match r {
                Ok(()) => ({
                    let v2 = (old(self).view_id_spec() + 1) as ViewId;
                    &&& (op is Delete ==> old(self).current_members_spec().contains(peer))
                    &&& final(self).view_id_spec() == v2
                    &&& final(self).history().has_view(v2)
                    &&& final(self).history().members_of(v2).to_set() == apply_op(
                        old(self).current_members_spec().to_set(),
                        peer,
                        op,
                    )
                    &&& (op is Add ==> !old(self).current_members_spec().contains(peer))
                        ==> differs_by_one(
                        old(self).current_members_spec().to_set(),
                        final(self).history().members_of(v2).to_set(),
                    )
                    &&& forall|w: ViewId|
                        w != v2 ==> final(self).history().has_view(w) == old(self).history().has_view(w)
                    &&& forall|w: ViewId|
                        w != v2 && old(self).history().has_view(w) ==> final(self).history().members_of(w) == old(self).history().members_of(w)
                }),
                Err(e) => e == Reasons::ProtocolViolation && op is Delete && !old(self).current_members_spec().contains(peer) && final(self).view_id_spec() == old(self).view_id_spec() && final(self).history() == old(self).history(),
            },
    {
        let ms = match self.memberships.get(self.view_id) {
            Some(ms) => ms,
            None => {
                proof {
                    assert(false);
                }
                return Err(Reasons::ProtocolViolation);
            },
        };
        let mut next = ms.clone();
        match op {
            Operation::Add => {
                next.insert(peer);
            },
            Operation::Delete => {
                if !next.remove(peer) {
                    return Err(Reasons::ProtocolViolation);
                }
            },
        }
        self.view_id = self.view_id + 1;
        self.memberships.insert(self.view_id, next);
        proof {
            let before = old(self).current_members_spec().to_set();
            if match op {
                Operation::Add => !before.contains(peer),
                Operation::Delete => true,
            } {
                if op is Delete {
                    assert(old(self).current_members_spec().contains(peer));
                    assert(before.contains(peer));
                }
                lemma_view_step_changes_one(before, peer, op);
            }
        }
        Ok(())
    }

    /// The leader's announcement of the current view: a NEWVIEW letter
    /// for every member but itself. A follower announces nothing.
    pub fn update_views(&self) -> (r: Option<Outbound>)
        requires
            self.wf(),
        ensures
            match self.role_spec() {
                Role::Follower(_) => r is None,
                Role::Leader(_) => r matches Some(ob) && ob.letter@.from == self.my_id()
                    && ob.letter@.msg == (MessageV::NewView {
                    view_id: self.view_id_spec(),
                    members: self.current_members_spec(),
                }) && ob.letter.wf() && ob.recipients@ == without(
                    self.current_members_spec(),
                    self.my_id(),
                ),
            },
    {
        match &self.role {
            Role::Follower(_) => None,
            Role::Leader(_) => {
                let ms = match self.memberships.get(self.view_id) {
                    Some(ms) => ms,
                    None => {
                        proof {
                            assert(false);
                        }
                        return None;
                    },
                };
                let recipients = ms.ids_without(self.peer_list.id());
                let letter = Letter::new(
                    self.peer_list.id(),
                    Message::NEWVIEW { view_id: self.view_id, members: ms.clone() },
                );
                Some(Outbound { recipients, letter })
            },
        }
    }

    /// The per-loop flush. On the leader: if the in-flight request has
    /// gathered its quorum — every member of the view it was accepted
    /// in, less the evicted peer itself for a Delete — commit it into a
    /// new view and hand back the NEWVIEW broadcast. On a follower:
    /// acknowledge the queued instruction with the lowest request id to
    /// the leader.
    pub fn flush_instructions(&mut self) -> (r: Result<Option<Outbound>, Reasons>)
        requires
            old(self).wf(),
            old(self).is_leader() ==> old(self).view_id_spec() < ViewId::MAX,
        ensures
            final(self).wf(),
            final(self).peers() == old(self).peers(),
            final(self).status_spec() == old(self).status_spec(),
            final(self).crash_delay_spec() == old(self).crash_delay_spec(),
            match old(self).role_spec() {
                Role::Follower(f) => ({
                    &&& final(self).view_id_spec() == old(self).view_id_spec()
                    &&& final(self).history() == old(self).history()
                    &&& !final(self).is_leader()
                    &&& final(self).following().leader() == f.leader()
                    &&& if f.acks().len() == 0 {
                        r matches Ok(None) && final(self).following().acks() == f.acks()
                    } else {
                        ({
                            let instr = f.acks()[0].1;
                            &&& r matches Ok(Some(ob)) && ob.letter@.from == old(self).my_id()
                                && ob.letter@.msg == (MessageV::Okay {
                                request_id: instr.request_id,
                                view_id: instr.view_id,
                            }) && ob.letter.wf() && ob.recipients@ == seq![f.leader()]
                            &&& final(self).following().acks() == f.acks().remove(0)
                        })
                    }
                }),
                Role::Leader(l) => ({
                    &&& final(self).is_leader()
                    &&& match l.waiting() {
                        None => r matches Ok(None) && final(self).role_spec() == old(self).role_spec() && final(self).view_id_spec() == old(self).view_id_spec()
                            && final(self).history() == old(self).history(),
                        Some(rid) => ({
                            let pv = l.req_at(rid);
                            if pv.confirmations == quorum_of(
                                pv.op,
                                pv.peer_id,
                                old(self).history().members_of(pv.view_id),
                            ) {
                                // quorum reached: every member the request still
                                // needed has confirmed
                                let v2 = (old(self).view_id_spec() + 1) as ViewId;
                                &&& final(self).leading().waiting() is None
                                &&& !final(self).leading().has_req(rid)
                                &&& forall|w: RequestId|
                                    w != rid ==> final(self).leading().has_req(w) == l.has_req(w)
                                &&& forall|w: RequestId|
                                    w != rid && l.has_req(w) ==> final(self).leading().req_at(w)
                                        == l.req_at(w)
                                &&& final(self).leading().count() == l.count()
                                &&& if pv.op is Delete && !old(self).current_members_spec().contains(pv.peer_id) {
                                    r matches Err(e) && e == Reasons::ProtocolViolation && final(self).view_id_spec() == old(self).view_id_spec() && final(self).history() == old(self).history()
                                } else {
                                    &&& final(self).view_id_spec() == v2
                                    &&& final(self).history().has_view(v2)
                                    &&& final(self).history().members_of(v2).to_set() == apply_op(
                                        old(self).current_members_spec().to_set(),
                                        pv.peer_id,
                                        pv.op,
                                    )
                                    &&& (pv.op is Add ==> !old(
                                        self,
                                    ).current_members_spec().contains(pv.peer_id)) ==> differs_by_one(
                                        old(self).current_members_spec().to_set(),
                                        final(self).history().members_of(v2).to_set(),
                                    )
                                    &&& forall|w: ViewId|
                                        w != v2 ==> final(self).history().has_view(w) == old(self).history().has_view(w)
                                    &&& forall|w: ViewId|
                                        w != v2 && old(self).history().has_view(w) ==> final(self).history().members_of(w) == old(self).history().members_of(
                                            w,
                                        )
                                    &&& r matches Ok(Some(ob)) && ob.letter@.from == old(self).my_id() && ob.letter@.msg == (MessageV::NewView {
                                        view_id: v2,
                                        members: final(self).history().members_of(v2),
                                    }) && ob.letter.wf() && ob.recipients@ == without(
                                        final(self).history().members_of(v2),
                                        old(self).my_id(),
                                    )
                                }
                            } else {
                                r matches Ok(None) && final(self).role_spec() == old(self).role_spec() && final(self).view_id_spec() == old(self).view_id_spec() && final(self).history() == old(self).history()
                            }
                        }),
                    }
                }),
            },
    {
        let completed: Option<Instruction> = match &mut self.role {
            Role::Leader(lead) => lead.check_req_complete(&self.memberships),
            Role::Follower(_) => None,
        };
        proof {
            if self.is_leader() {
                // the committed request left the ledger; the rest kept their views
                assert forall|rid: RequestId| #[trigger] self.leading().has_req(rid) implies self
                    .history().has_view(self.leading().req_at(rid).view_id) by {
                    assert(old(self).leading().has_req(rid));
                    assert(old(self).leading().req_at(rid) == self.leading().req_at(rid));
                }
            }
        }
        match completed {
            Some(instr) => {
                match self.push_new_view(instr.peer_id, instr.op) {
                    Ok(()) => Ok(self.update_views()),
                    Err(e) => Err(e),
                }
            },
            None => {
                match &mut self.role {
                    Role::Follower(follow) => match follow.send_ok() {
                        Some(instr) => {
                            let letter = Letter::new(
                                self.peer_list.id(),
                                Message::OK {
                                    request_id: instr.request_id,
                                    view_id: instr.view_id,
                                },
                            );
                            let mut recipients: Vec<PeerId> = Vec::new();
                            recipients.push(follow.leader_id());
                            proof {
                                assert(recipients@ =~= seq![old(self).following().leader()]);
                            }
                            Ok(Some(Outbound { recipients, letter }))
                        },
                        None => Ok(None),
                    },
                    Role::Leader(_) => Ok(None),
                }
            },
        }
    }
}

impl Data {
    /// Once every host in the file stands in the current view, pass from
    /// Born to Living: start the heartbeat log with every other peer
    /// marked as seen now. The transition is one-way; the caller starts
    /// the heartbeat machinery when this returns true.
    #[verifier::loop_isolation(false)]
    pub fn refresh_lifecycle(&mut self, now: u64) -> (r: bool)
        requires
            old(self).wf(),
        ensures
            final(self).wf(),
            final(self).peers() == old(self).peers(),
            final(self).role_spec() == old(self).role_spec(),
            final(self).view_id_spec() == old(self).view_id_spec(),
            final(self).history() == old(self).history(),
            final(self).crash_delay_spec() == old(self).crash_delay_spec(),
            r == (old(self).status_spec() is Born && old(self).current_members_spec().to_set()
                == old(self).peers().full_id_set()),
            !r ==> final(self).status_spec() == old(self).status_spec(),
            r ==> final(self).status_spec() is Living && ({
                let bl = final(self).status_spec()->Living_0;
                forall|p: PeerId|
                    (#[trigger] bl.has_beat(p) <==> (1 <= p <= old(self).peers().names().len() && p
                        != old(self).my_id())) && (bl.has_beat(p) ==> bl.beat_at(p) == now)
            }),
    {
        if self.is_living() {
            return false;
        }
        let ms = match self.memberships.get(self.view_id) {
            Some(ms) => ms,
            None => {
                proof {
                    assert(false);
                }
                return false;
            },
        };
        if !self.peer_list.members_match_hosts(ms) {
            return false;
        }
        let peer_count = self.peer_list.len();
        let total = peer_count + 1;
        let my = self.peer_list.id();
        let mut bl = BeatLog::new();
        let mut i: usize = 0;
        while i < total
            invariant
                0 <= i <= total,
                bl.wf(),
                forall|q: PeerId|
                    #[trigger] bl.has_beat(q) <==> (1 <= q <= i && q != my),
                forall|q: PeerId| bl.has_beat(q) ==> bl.beat_at(q) == now,
            decreases total - i,
        {
            let p = i + 1;
            if p != my {
                bl.set(p, now);
            }
            i += 1;
        }
        self.status = LifeCycle::Living(bl);
        true
    }
}

impl Data {
    /// Whether the ledger can absorb one delete request per current
    /// member.
    pub open spec fn request_headroom(&self) -> bool {
        match self.role_spec() {
            Role::Leader(l) => l.count() + self.current_members_spec().len() <= RequestId::MAX,
            Role::Follower(_) => true,
        }
    }

    /// The liveness sweep, run once per loop while Living. First, every
    /// current member whose last heartbeat lies more than two heartbeat
    /// periods back is declared unreachable: it leaves the heartbeat log
    /// and, on the leader, a Delete request is opened and
    /// self-acknowledged. Then the freshly drained heartbeats stamp
    /// their senders as seen `now`. Returns the peers declared
    /// unreachable, for the caller to log.
    #[verifier::loop_isolation(false)]
    pub fn validate_peers(&mut self, now: u64, beats: &Vec<Letter>) -> (r: Vec<PeerId>)
        requires
            old(self).wf(),
            old(self).request_headroom(),
        ensures
            final(self).wf(),
            final(self).peers() == old(self).peers(),
            final(self).view_id_spec() == old(self).view_id_spec(),
            final(self).history() == old(self).history(),
            final(self).crash_delay_spec() == old(self).crash_delay_spec(),
            old(self).status_spec() is Born ==> r@ == Seq::<PeerId>::empty() && *final(self)
                == *old(self),
            old(self).status_spec() is Living ==> ({
                let bl0 = old(self).status_spec()->Living_0;
                let cur = old(self).current_members_spec();
                &&& r@ == cur.filter(overdue(bl0, now))
                &&& forall|p: PeerId|
                    #[trigger] r@.contains(p) <==> stale_at(bl0, cur, now, p)
                &&& final(self).status_spec() is Living
                &&& ({
                    let bl2 = final(self).status_spec()->Living_0;
                    forall|p: PeerId|
                        #![trigger bl2.has_beat(p)]
                        #![trigger bl0.has_beat(p)]
                        #![trigger heartbeat_from(beats@, p)]
                        if heartbeat_from(beats@, p) {
                            bl2.has_beat(p) && bl2.beat_at(p) == now
                        } else if stale_at(bl0, cur, now, p) {
                            !bl2.has_beat(p)
                        } else {
                            bl2.has_beat(p) == bl0.has_beat(p) && (bl0.has_beat(p)
                                ==> bl2.beat_at(p) == bl0.beat_at(p))
                        }
                })
                &&& match old(self).role_spec() {
                    Role::Follower(_) => final(self).role_spec() == old(self).role_spec(),
                    Role::Leader(l) => ({
                        let l2 = final(self).leading();
                        &&& final(self).is_leader()
                        &&& l2.count() == l.count() + r@.len()
                        &&& l2.waiting() == l.waiting()
                        &&& forall|j: int|
                            #![trigger r@[j]]
                            0 <= j < r@.len() ==> l2.has_req((l.count() + j + 1) as RequestId)
                                && l2.req_at((l.count() + j + 1) as RequestId) == (PendingV {
                                peer_id: r@[j],
                                view_id: old(self).view_id_spec(),
                                op: Operation::Delete,
                                confirmations: seq![old(self).my_id()],
                            })
                        &&& forall|w: RequestId| w <= l.count() ==> l2.has_req(w) == l.has_req(w)
                        &&& forall|w: RequestId|
                            w <= l.count() && l.has_req(w) ==> l2.req_at(w) == l.req_at(w)
                    }),
                }
            }),
    {
        if !self.is_living() {
            return Vec::new();
        }
        let ghost bl0 = self.status_spec()->Living_0;
        let ghost cur = self.current_members_spec();
        let ghost l0 = self.role_spec();
        // first pass: which members have gone silent for too long?
        let mut rm: Vec<PeerId> = Vec::new();
        {
            let bl = match &self.status {
                LifeCycle::Living(b) => b,
                LifeCycle::Born => {
                    proof {
                        assert(false);
                    }
                    return Vec::new();
                },
            };
            proof {
                assert(*bl == bl0);
            }
            let ms = match self.memberships.get(self.view_id) {
                Some(ms) => ms,
                None => {
                    proof {
                        assert(false);
                    }
                    return Vec::new();
                },
            };
            let ids = ms.ids();
            let n = ids.len();
            proof {
                reveal(Seq::filter);
                assert(cur.take(0) =~= Seq::<PeerId>::empty());
            }
            let mut i: usize = 0;
            while i < n
                invariant
                    0 <= i <= n,
                    n == cur.len(),
                    ids@ == cur,
                    rm@ == cur.take(i as int).filter(overdue(bl0, now)),
                    forall|k: int| 0 <= k < rm@.len() ==> cur.contains(#[trigger] rm@[k]),
                decreases n - i,
            {
                proof {
                    reveal(Seq::filter);
                    assert(cur.take(i as int + 1).drop_last() =~= cur.take(i as int));
                    assert(cur.take(i as int + 1).last() == cur[i as int]);
                }
                let p = ids[i];
                match bl.get(p) {
                    Some(t) => {
                        if t < now && now - t > 2 * HEARTBEAT_PERIOD_MILLIS {
                            rm.push(p);
                            proof {
                                assert(overdue(bl0, now)(p));
                                assert(cur.contains(p)) by {
                                    assert(cur[i as int] == p);
                                }
                            }
                        } else {
                            proof {
                                assert(!overdue(bl0, now)(p));
                            }
                        }
                    },
                    None => {
                        proof {
                            assert(!overdue(bl0, now)(p));
                        }
                    },
                }
                i += 1;
            }
            proof {
                assert(cur.take(n as int) =~= cur);
            }
        }
        proof {
            cur.lemma_filter_len(overdue(bl0, now));
            assert(rm@.len() <= cur.len());
            assert forall|p: PeerId| #[trigger] rm@.contains(p) <==> stale_at(bl0, cur, now, p) by {
                if rm@.contains(p) {
                    let k = choose|k: int| 0 <= k < rm@.len() && rm@[k] == p;
                    cur.lemma_filter_pred(overdue(bl0, now), k);
                    assert(overdue(bl0, now)(p));
                }
                if stale_at(bl0, cur, now, p) {
                    let k = choose|k: int| 0 <= k < cur.len() && cur[k] == p;
                    cur.lemma_filter_contains(overdue(bl0, now), k);
                }
            }
        }
        // second pass: evict the silent ones; the leader opens a Delete
        // request for each and counts its own vote at once
        let my = self.peer_list.id();
        let vid = self.view_id;
        let n_rm = rm.len();
        let mut k: usize = 0;
        while k < n_rm
            invariant
                0 <= k <= n_rm,
                n_rm == rm@.len(),
                self.status_spec() is Living,
                ({
                    let bl = self.status_spec()->Living_0;
                    &&& bl.wf()
                    &&& forall|p: PeerId|
                        #![trigger bl.has_beat(p)]
                        if rm@.take(k as int).contains(p) {
                            !bl.has_beat(p)
                        } else {
                            bl.has_beat(p) == bl0.has_beat(p) && (bl0.has_beat(p) ==> bl.beat_at(p)
                                == bl0.beat_at(p))
                        }
                }),
                self.history() == old(self).history(),
                self.view_id_spec() == old(self).view_id_spec(),
                self.peers() == old(self).peers(),
                self.crash_delay_spec() == old(self).crash_delay_spec(),
                match l0 {
                    Role::Follower(_) => self.role_spec() == l0,
                    Role::Leader(l) => ({
                        let l2 = self.leading();
                        &&& self.is_leader()
                        &&& l2.wf()
                        &&& l2.count() == l.count() + k
                        &&& l2.waiting() == l.waiting()
                        &&& forall|j: int|
                            #![trigger rm@[j]]
                            0 <= j < k ==> l2.has_req((l.count() + j + 1) as RequestId)
                                && l2.req_at((l.count() + j + 1) as RequestId) == (PendingV {
                                peer_id: rm@[j],
                                view_id: vid,
                                op: Operation::Delete,
                                confirmations: seq![my],
                            })
                        &&& forall|w: RequestId| w <= l.count() ==> l2.has_req(w) == l.has_req(w)
                        &&& forall|w: RequestId|
                            w <= l.count() && l.has_req(w) ==> l2.req_at(w) == l.req_at(w)
                    }),
                },
            decreases n_rm - k,
        {
            let p = rm[k];
            let ghost bl_before = self.status_spec()->Living_0;
            match &mut self.status {
                LifeCycle::Living(bl) => {
                    bl.remove(p);
                },
                LifeCycle::Born => {
                    proof {
                        assert(false);
                    }
                },
            }
            proof {
                assert(rm@.take(k as int + 1) =~= rm@.take(k as int).push(p));
                assert forall|q: PeerId|
                    rm@.take(k as int + 1).contains(q) <==> (rm@.take(k as int).contains(q) || q
                        == p) by {
                    let t1 = rm@.take(k as int + 1);
                    let t0 = rm@.take(k as int);
                    if t1.contains(q) {
                        let w = choose|w: int| 0 <= w < t1.len() && t1[w] == q;
                        if w < t0.len() {
                            assert(t0[w] == q);
                        }
                    }
                    if t0.contains(q) {
                        let w = choose|w: int| 0 <= w < t0.len() && t0[w] == q;
                        assert(t1[w] == q);
                    }
                    if q == p {
                        assert(t1[t1.len() - 1] == q);
                    }
                }
                let bl_now = self.status_spec()->Living_0;
                assert forall|q: PeerId| #![trigger bl_now.has_beat(q)]
                    if rm@.take(k as int + 1).contains(q) {
                        !bl_now.has_beat(q)
                    } else {
                        bl_now.has_beat(q) == bl0.has_beat(q) && (bl0.has_beat(q)
                            ==> bl_now.beat_at(q) == bl0.beat_at(q))
                    } by {
                    if q == p {
                        assert(rm@.take(k as int + 1)[k as int] == q);
                        assert(rm@.take(k as int + 1).contains(q));
                        assert(!bl_now.has_beat(q));
                    } else {
                        assert(bl_now.has_beat(q) == bl_before.has_beat(q));
                        assert(bl_before.has_beat(q) ==> bl_now.beat_at(q) == bl_before.beat_at(
                            q,
                        ));
                        if rm@.take(k as int).contains(q) {
                            assert(rm@.take(k as int + 1).contains(q));
                            assert(!bl_before.has_beat(q));
                            assert(!bl_now.has_beat(q));
                        } else {
                            assert(!rm@.take(k as int + 1).contains(q));
                            assert(bl_before.has_beat(q) == bl0.has_beat(q));
                            assert(bl_now.has_beat(q) == bl0.has_beat(q));
                            assert(bl0.has_beat(q) ==> bl_now.beat_at(q) == bl0.beat_at(q));
                        }
                    }
                }
            }
            match &mut self.role {
                Role::Leader(lead) => {
                    proof {
                        assert(lead.count() < RequestId::MAX);
                    }
                    lead.push_request(p, vid, Operation::Delete);
                    let latest = lead.latest_request();
                    lead.acknowledge_ok(latest, my);
                    proof {
                        assert(sorted_insert(Seq::<PeerId>::empty(), my) =~= seq![my]);
                    }
                },
                Role::Follower(_) => {},
            }
            k += 1;
        }
        proof {
            assert(rm@.take(n_rm as int) =~= rm@);
        }
        // third pass: stamp the senders of the drained heartbeats
        let ghost blmid = self.status_spec()->Living_0;
        let ghost rolemid = self.role_spec();
        let nb = beats.len();
        proof {
            assert(beats@.take(0) =~= Seq::<Letter>::empty());
        }
        let mut j: usize = 0;
        while j < nb
            invariant
                0 <= j <= nb,
                nb == beats@.len(),
                self.status_spec() is Living,
                ({
                    let bl = self.status_spec()->Living_0;
                    &&& bl.wf()
                    &&& forall|p: PeerId|
                        #![trigger bl.has_beat(p)]
                        if heartbeat_from(beats@.take(j as int), p) {
                            bl.has_beat(p) && bl.beat_at(p) == now
                        } else {
                            bl.has_beat(p) == blmid.has_beat(p) && (blmid.has_beat(p)
                                ==> bl.beat_at(p) == blmid.beat_at(p))
                        }
                }),
                self.role_spec() == rolemid,
                self.history() == old(self).history(),
                self.view_id_spec() == old(self).view_id_spec(),
                self.peers() == old(self).peers(),
                self.crash_delay_spec() == old(self).crash_delay_spec(),
            decreases nb - j,
        {
            let lt = &beats[j];
            match lt.message() {
                Message::HEARTBEAT => {
                    let from = lt.from_whom();
                    match &mut self.status {
                        LifeCycle::Living(bl) => {
                            bl.set(from, now);
                        },
                        LifeCycle::Born => {
                            proof {
                                assert(false);
                            }
                        },
                    }
                },
                _ => {},
            }
            proof {
                let t1 = beats@.take(j as int + 1);
                let t0 = beats@.take(j as int);
                assert forall|p: PeerId|
                    heartbeat_from(t1, p) <==> (heartbeat_from(t0, p) || (beats@[j as int]@.msg
                        is Heartbeat && beats@[j as int]@.from == p)) by {
                    if heartbeat_from(t1, p) {
                        let w = choose|w: int| 0 <= w < t1.len() && t1[w]@.msg is Heartbeat
                            && t1[w]@.from == p;
                        if w < t0.len() {
                            assert(t0[w] == t1[w]);
                            assert(heartbeat_from(t0, p));
                        } else {
                            assert(t1[w] == beats@[j as int]);
                        }
                    }
                    if heartbeat_from(t0, p) {
                        let w = choose|w: int| 0 <= w < t0.len() && t0[w]@.msg is Heartbeat
                            && t0[w]@.from == p;
                        assert(t1[w] == t0[w]);
                        assert(heartbeat_from(t1, p));
                    }
                    if beats@[j as int]@.msg is Heartbeat && beats@[j as int]@.from == p {
                        assert(t1[j as int] == beats@[j as int]);
                        assert(heartbeat_from(t1, p));
                    }
                }
            }
            j += 1;
        }
        proof {
            assert(beats@.take(nb as int) =~= beats@);
            // chain the three passes into the promised per-peer picture
            let bl2 = self.status_spec()->Living_0;
            assert forall|p: PeerId|
                #![trigger bl2.has_beat(p)]
                #![trigger bl0.has_beat(p)]
                #![trigger heartbeat_from(beats@, p)]
                if heartbeat_from(beats@, p) {
                    bl2.has_beat(p) && bl2.beat_at(p) == now
                } else if stale_at(bl0, cur, now, p) {
                    !bl2.has_beat(p)
                } else {
                    bl2.has_beat(p) == bl0.has_beat(p) && (bl0.has_beat(p) ==> bl2.beat_at(p)
                        == bl0.beat_at(p))
                } by {
                if !heartbeat_from(beats@, p) {
                    if stale_at(bl0, cur, now, p) {
                        assert(rm@.contains(p));
                        assert(!blmid.has_beat(p));
                    } else {
                        assert(!rm@.contains(p));
                    }
                }
            }
            // the ledger still records a view for every pending request
            if self.is_leader() {
                assert forall|rid: RequestId| #[trigger] self.leading().has_req(rid) implies self
                    .history().has_view(self.leading().req_at(rid).view_id) by {
                    let l = l0->Leader_0;
                    if rid <= l.count() {
                        assert(self.leading().has_req(rid) == l.has_req(rid));
                        assert(old(self).leading().has_req(rid));
                    } else {
                        // a fresh Delete request, recorded against the current view
                        let j2 = rid - l.count() - 1;
                        if 0 <= j2 < rm@.len() {
                            assert((l.count() + j2 + 1) as RequestId == rid);
                            assert(self.leading().req_at(rid) == (PendingV {
                                peer_id: rm@[j2],
                                view_id: vid,
                                op: Operation::Delete,
                                confirmations: seq![my],
                            }));
                            assert(self.leading().req_at(rid).view_id == vid);
                        } else {
                            // beyond the counter: nothing is pending there
                            assert(self.leading().count() < rid);
                            let reqs = self.leading().reqs();
                            let w = choose|w: int| 0 <= w < reqs.len() && reqs[w].0 == rid;
                            assert(reqs[w].0 <= self.leading().count());
                            assert(false);
                        }
                    }
                }
            }
        }
        rm
    }
}

/// Whether `beats` holds a heartbeat letter sent by `p`.
pub open spec fn heartbeat_from(beats: Seq<Letter>, p: PeerId) -> bool {
    exists|i: int|
        0 <= i < beats.len() && beats[i]@.msg is Heartbeat && beats[i]@.from == p
}

/// The test a heartbeat log applies to one peer: recorded, but silent
/// for more than two heartbeat periods.
pub open spec fn overdue(bl: BeatLog, now: u64) -> spec_fn(PeerId) -> bool {
    |p: PeerId| bl.has_beat(p) && now > bl.beat_at(p) + 2 * HEARTBEAT_PERIOD_MILLIS
}

/// Whether the sweep at `now` declares member `p` unreachable.
pub open spec fn stale_at(bl: BeatLog, members: Seq<PeerId>, now: u64, p: PeerId) -> bool {
    members.contains(p) && bl.has_beat(p) && now > bl.beat_at(p) + 2 * HEARTBEAT_PERIOD_MILLIS
}

/// The membership after an operation: Add inserts the peer, Delete
/// removes it.
pub open spec fn apply_op(s: Set<PeerId>, p: PeerId, op: Operation) -> Set<PeerId> {
    match op {
        Operation::Add => s.insert(p),
        Operation::Delete => s.remove(p),
    }
}

/// Whether `b` is `a` with exactly one peer added or removed.
pub open spec fn differs_by_one(a: Set<PeerId>, b: Set<PeerId>) -> bool {
    exists|q: PeerId|
        (!a.contains(q) && b == a.insert(q)) || (a.contains(q) && b == a.remove(q))
}

/// Sequential views: each committed operation moves the membership by
/// exactly one peer, so consecutive views differ in exactly one element.
/// An Add of a present peer or a Delete of an absent one moves nothing;
/// the protocol never commits those (a Delete of an absent peer is
/// fatal, and a joining peer is not yet a member).
pub proof fn lemma_view_step_changes_one(s: Set<PeerId>, p: PeerId, op: Operation)
    requires
        op is Add ==> !s.contains(p),
        op is Delete ==> s.contains(p),
    ensures
        differs_by_one(s, apply_op(s, p, op)),
{
    match op {
        Operation::Add => {
            assert(!s.contains(p) && apply_op(s, p, op) == s.insert(p));
        },
        Operation::Delete => {
            assert(s.contains(p) && apply_op(s, p, op) == s.remove(p));
        },
    }
}

} // verus!
