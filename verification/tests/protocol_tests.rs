//! The membership protocol driven in memory: joins serialize into
//! sequential views, the leader counts its own vote, and duplicate
//! acknowledgements change nothing.

use membership::codec::{extract_letter, frame_letter};
use membership::hostsfile::PeerList;
use membership::messaging::{Letter, Message};
use membership::roles::Role;
use membership::state::Data;
use membership::Reasons;

fn node(host: &str, names: &[&str]) -> Data {
    let list = PeerList::new(
        host.to_string(),
        names.iter().map(|s| s.to_string()).collect(),
    )
    .expect("host stands in the list");
    Data::new(list, None)
}

/// Carry a letter across the wire: frame, then parse the frame.
fn transmit(letter: &Letter) -> Letter {
    let buf = frame_letter(letter);
    let (decoded, consumed) = extract_letter(&buf, 0)
        .expect("own frames decode")
        .expect("the frame is whole");
    assert_eq!(consumed, buf.len());
    decoded
}

/// Run leader work until quiet, delivering letters to the others by id.
fn settle(leader: &mut Data, others: &mut [(usize, &mut Data)]) {
    loop {
        let mut moved = false;
        if let Some((recipients, letter)) = leader.proceed_reqs() {
            moved = true;
            for (id, follower) in others.iter_mut() {
                if recipients.contains(id) {
                    follower.recv_message(&transmit(&letter)).unwrap();
                }
            }
        }
        if let Some(out) = leader.flush_instructions().unwrap() {
            moved = true;
            for (id, follower) in others.iter_mut() {
                if out.recipients.contains(id) {
                    follower.recv_message(&transmit(&out.letter)).unwrap();
                }
            }
        }
        for (_, follower) in others.iter_mut() {
            if let Some(out) = follower.flush_instructions().unwrap() {
                moved = true;
                leader.recv_message(&transmit(&out.letter)).unwrap();
            }
        }
        if !moved {
            break;
        }
    }
}

fn member_ids(d: &Data, view: u32) -> Vec<usize> {
    d.members_of_view(view).expect("view recorded").ids().clone()
}

#[test]
fn three_node_clean_join() {
    let names = ["a", "b", "c"];
    let mut a = node("a", &names);
    let mut b = node("b", &names);
    let mut c = node("c", &names);
    assert!(a.leads());
    assert!(!b.leads());
    assert_eq!(member_ids(&a, 1), vec![1]);

    // b joins, then c
    let (to, join_b) = b.ask_to_join().expect("a follower asks to join");
    assert_eq!(to, 1);
    a.recv_message(&transmit(&join_b)).unwrap();
    {
        let mut others = [(2usize, &mut b), (3usize, &mut c)];
        settle(&mut a, &mut others);
    }
    let (_, join_c) = c.ask_to_join().unwrap();
    a.recv_message(&transmit(&join_c)).unwrap();
    {
        let mut others = [(2usize, &mut b), (3usize, &mut c)];
        settle(&mut a, &mut others);
    }

    // every process starts with view 1 = {leader}; a NEWVIEW reaches
    // b from view 2 on and c only at view 3
    assert_eq!(member_ids(&a, 1), vec![1]);
    assert_eq!(member_ids(&a, 2), vec![1, 2]);
    assert_eq!(member_ids(&a, 3), vec![1, 2, 3]);
    assert_eq!(a.view_id(), 3);
    assert_eq!(member_ids(&b, 1), vec![1]);
    assert_eq!(member_ids(&b, 2), vec![1, 2]);
    assert_eq!(member_ids(&b, 3), vec![1, 2, 3]);
    assert_eq!(b.view_id(), 3);
    assert!(c.members_of_view(2).is_none());
    assert_eq!(member_ids(&c, 3), vec![1, 2, 3]);
    assert_eq!(c.view_id(), 3);
}

#[test]
fn concurrent_joins_serialize() {
    let names = ["a", "b", "c", "d"];
    let mut a = node("a", &names);
    let mut b = node("b", &names);
    let mut c = node("c", &names);
    let mut d = node("d", &names);

    // all three joins arrive before the leader moves
    for peer in [&b, &c, &d] {
        let (_, join) = peer.ask_to_join().unwrap();
        a.recv_message(&transmit(&join)).unwrap();
    }
    let mut others = [(2usize, &mut b), (3usize, &mut c), (4usize, &mut d)];
    settle(&mut a, &mut others);

    // one member joins per view, in some serial order
    assert_eq!(a.view_id(), 4);
    assert_eq!(member_ids(&a, 2).len(), 2);
    assert_eq!(member_ids(&a, 3).len(), 3);
    assert_eq!(member_ids(&a, 4), vec![1, 2, 3, 4]);
    // and every process that recorded a view agrees with the leader on it
    for (view, proc) in [(2u32, &b), (3u32, &c), (4u32, &d)] {
        assert_eq!(member_ids(proc, view), member_ids(&a, view));
        for later in (view + 1)..=4 {
            assert_eq!(member_ids(proc, later), member_ids(&a, later));
        }
    }
}

#[test]
fn self_ack_counts_the_leaders_vote() {
    let names = ["a", "b", "c"];
    let mut a = node("a", &names);
    let join = Letter::new(2, Message::JOIN);
    a.recv_message(&join).unwrap();
    match a.role_ref() {
        Role::Leader(lead) => {
            assert_eq!(lead.latest_request(), 1);
            let confs = lead.confirmations_of(1).expect("request 1 is pending");
            assert_eq!(confs.ids().as_slice(), &[1]);
        }
        Role::Follower(_) => panic!("the first host leads"),
    }
}

#[test]
fn duplicate_ok_is_idempotent() {
    let names = ["a", "b", "c"];
    let mut a = node("a", &names);
    let mut b = node("b", &names);
    let mut c = node("c", &names);

    // b joins and view 2 = {1, 2} commits
    let (_, join_b) = b.ask_to_join().unwrap();
    a.recv_message(&transmit(&join_b)).unwrap();
    {
        let mut others = [(2usize, &mut b), (3usize, &mut c)];
        settle(&mut a, &mut others);
    }
    assert_eq!(a.view_id(), 2);

    // c asks to join; the request is recorded against view 2
    let (_, join_c) = c.ask_to_join().unwrap();
    a.recv_message(&transmit(&join_c)).unwrap();
    let (recipients, req) = a.proceed_reqs().expect("a request goes out");
    assert_eq!(recipients, vec![2]);
    b.recv_message(&transmit(&req)).unwrap();

    // the same OK lands twice; the confirmation set stays a set
    let ok = Letter::new(2, Message::OK { request_id: 2, view_id: 2 });
    a.recv_message(&ok).unwrap();
    a.recv_message(&Letter::new(2, Message::OK { request_id: 2, view_id: 2 })).unwrap();
    match a.role_ref() {
        Role::Leader(lead) => {
            let confs = lead.confirmations_of(2).expect("request 2 is pending");
            assert_eq!(confs.ids().as_slice(), &[1, 2]);
        }
        Role::Follower(_) => panic!("the first host leads"),
    }

    // the quorum {1, 2} is reached: exactly one commit follows
    let out = a.flush_instructions().unwrap().expect("view 3 commits");
    assert_eq!(a.view_id(), 3);
    assert_eq!(member_ids(&a, 3), vec![1, 2, 3]);
    assert_eq!(out.recipients, vec![2, 3]);
    // a late duplicate of the same OK is ignored and commits nothing
    a.recv_message(&Letter::new(2, Message::OK { request_id: 2, view_id: 2 })).unwrap();
    assert!(a.flush_instructions().unwrap().is_none());
    assert_eq!(a.view_id(), 3);
}

#[test]
fn wrong_role_messages_are_protocol_violations() {
    let names = ["a", "b"];
    let mut a = node("a", &names);
    let mut b = node("b", &names);
    // a leader never takes REQ, NEWVIEW or HEARTBEAT over the control plane
    let newview = {
        let mut ms = membership::members::MemberSet::new();
        ms.insert(1);
        Letter::new(1, Message::NEWVIEW { view_id: 2, members: ms })
    };
    assert_eq!(a.recv_message(&newview), Err(Reasons::ProtocolViolation));
    assert_eq!(
        a.recv_message(&Letter::new(2, Message::HEARTBEAT)),
        Err(Reasons::ProtocolViolation)
    );
    // a follower never takes JOIN or OK
    assert_eq!(
        b.recv_message(&Letter::new(2, Message::JOIN)),
        Err(Reasons::ProtocolViolation)
    );
    assert_eq!(
        b.recv_message(&Letter::new(1, Message::OK { request_id: 1, view_id: 1 })),
        Err(Reasons::ProtocolViolation)
    );
}

#[test]
fn no_request_no_broadcast() {
    let names = ["a", "b"];
    let mut a = node("a", &names);
    assert!(a.proceed_reqs().is_none());
    assert!(a.flush_instructions().unwrap().is_none());
    // a follower with an empty queue acknowledges nothing
    let mut b = node("b", &names);
    assert!(b.proceed_reqs().is_none());
    assert!(b.flush_instructions().unwrap().is_none());
}

#[test]
fn single_flight_holds_while_waiting() {
    let names = ["a", "b", "c"];
    let mut a = node("a", &names);
    let mut b = node("b", &names);
    let mut c = node("c", &names);
    // reach view 2 = {1, 2}
    let (_, join_b) = b.ask_to_join().unwrap();
    a.recv_message(&transmit(&join_b)).unwrap();
    {
        let mut others = [(2usize, &mut b), (3usize, &mut c)];
        settle(&mut a, &mut others);
    }
    // c joins; its request needs b's acknowledgement
    let (_, join_c) = c.ask_to_join().unwrap();
    a.recv_message(&transmit(&join_c)).unwrap();
    assert!(a.proceed_reqs().is_some());
    // quorum: without b's acknowledgement nothing commits
    assert!(a.flush_instructions().unwrap().is_none());
    assert_eq!(a.view_id(), 2);
    // while request 2 is in flight, nothing further goes out
    assert!(a.proceed_reqs().is_none());
    match a.role_ref() {
        Role::Leader(lead) => assert_eq!(lead.waiting_for_id(), Some(2)),
        Role::Follower(_) => panic!("the first host leads"),
    }
}
