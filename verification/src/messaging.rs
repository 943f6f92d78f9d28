//! The protocol messages and the letters that carry them.
//!
//! A letter pairs a message with the sender's peer id, carried in-band
//! because the transport does not reveal who a byte stream belongs to.

use crate::members::MemberSet;
use crate::{PeerId, RequestId, ViewId};
use vstd::prelude::*;

verus! {

/// The membership change a request asks for.
#[derive(Clone, Copy, Debug, PartialEq, Eq, Structural)]
pub enum Operation {
    /// Admit the peer into the next view.
    Add,
    /// Evict the peer from the next view.
    Delete,
}

/// One membership change as the leader announces it to the members.
#[derive(Clone, Copy, Debug, PartialEq, Eq, Structural)]
pub struct Instruction {
    /// The leader-local id of the request this instruction answers.
    pub request_id: RequestId,
    /// The peer being added or deleted.
    pub peer_id: PeerId,
    /// The view in which the leader accepted the request.
    pub view_id: ViewId,
    /// Whether the peer joins or leaves.
    pub op: Operation,
}

/// A protocol message.
#[derive(Debug)]
pub enum Message {
    /// Leader to members: acknowledge this membership change.
    REQ(Instruction),
    /// Follower to leader: let me join.
    JOIN,
    /// Follower to leader: I acknowledge the named request.
    OK { request_id: RequestId, view_id: ViewId },
    /// Leader to members: the membership now stands thus.
    NEWVIEW { view_id: ViewId, members: MemberSet },
    /// Peer to peer: I am alive.
    HEARTBEAT,
}

/// The mathematical shape of a message: a member list is a sequence of ids.
pub enum MessageV {
    Req(Instruction),
    Join,
    Okay { request_id: RequestId, view_id: ViewId },
    NewView { view_id: ViewId, members: Seq<PeerId> },
    Heartbeat,
}

impl View for Message {
    type V = MessageV;

    open spec fn view(&self) -> MessageV {
        match self {
            Message::REQ(instr) => MessageV::Req(*instr),
            Message::JOIN => MessageV::Join,
            Message::OK { request_id, view_id } => MessageV::Okay {
                request_id: *request_id,
                view_id: *view_id,
            },
            Message::NEWVIEW { view_id, members } => MessageV::NewView {
                view_id: *view_id,
                members: members@,
            },
            Message::HEARTBEAT => MessageV::Heartbeat,
        }
    }
}

impl MessageV {
    /// Whether the member list, if any, is strictly sorted.
    pub open spec fn wf(&self) -> bool {
        match self {
            MessageV::NewView { members, .. } => crate::members::strictly_sorted(*members),
            _ => true,
        }
    }
}

impl Message {
    /// Whether the member list, if any, is strictly sorted.
    pub open spec fn wf(&self) -> bool {
        self@.wf()
    }
}

/// A message together with who sent it.
#[derive(Debug)]
pub struct Letter(PeerId, Message);

/// The mathematical shape of a letter.
pub struct LetterV {
    pub from: PeerId,
    pub msg: MessageV,
}

impl View for Letter {
    type V = LetterV;

    closed spec fn view(&self) -> LetterV {
        LetterV { from: self.0, msg: self.1@ }
    }
}

impl Letter {
    /// Wrap a sender id and a message into a letter.
    pub fn new(from: PeerId, msg: Message) -> (r: Self)
        ensures
            r@.from == from,
            r@.msg == msg@,
            r.wf() == msg.wf(),
    {
        Letter(from, msg)
    }

    /// Who sent this letter.
    pub fn from_whom(&self) -> (r: PeerId)
        ensures
            r == self@.from,
    {
        self.0
    }

    /// The message this letter carries.
    pub fn message(&self) -> (r: &Message)
        ensures
            r@ == self@.msg,
    {
        &self.1
    }

    /// Whether the member list, if any, is strictly sorted.
    pub open spec fn wf(&self) -> bool {
        self@.msg.wf()
    }
}

} // verus!
