//! Heartbeats and failure detection: the Born-to-Living transition,
//! silence raising suspicion on every live peer, and the leader turning
//! suspicion into a Delete request.

use membership::codec::{extract_letter, frame_letter};
use membership::hostsfile::PeerList;
use membership::messaging::{Letter, Message, Operation};
use membership::roles::Role;
use membership::state::Data;
use membership::HEARTBEAT_PERIOD_MILLIS;

fn node(host: &str, names: &[&str]) -> Data {
    let list = PeerList::new(
        host.to_string(),
        names.iter().map(|s| s.to_string()).collect(),
    )
    .expect("host stands in the list");
    Data::new(list, None)
}

fn transmit(letter: &Letter) -> Letter {
    let buf = frame_letter(letter);
    extract_letter(&buf, 0).unwrap().unwrap().0
}

fn settle(leader: &mut Data, others: &mut [(usize, &mut Data)]) {
    loop {
        let mut moved = false;
        if let Some((recipients, letter)) = leader.proceed_reqs() {
            moved = true;
            for (id, follower) in others.iter_mut() {
                if recipients.contains(id) {
                    follower.recv_message(&transmit(&letter)).unwrap();
                }
            }
        }
        if let Some(out) = leader.flush_instructions().unwrap() {
            moved = true;
            for (id, follower) in others.iter_mut() {
                if out.recipients.contains(id) {
                    follower.recv_message(&transmit(&out.letter)).unwrap();
                }
            }
        }
        for (_, follower) in others.iter_mut() {
            if let Some(out) = follower.flush_instructions().unwrap() {
                moved = true;
                leader.recv_message(&transmit(&out.letter)).unwrap();
            }
        }
        if !moved {
            break;
        }
    }
}

/// Bring every host of `names` into one view and into Living.
fn full_cluster(names: &[&str]) -> Vec<Data> {
    let mut nodes: Vec<Data> = names.iter().map(|h| node(h, names)).collect();
    let mut rest = nodes.split_off(1);
    let mut leader = nodes.pop().unwrap();
    for peer in rest.iter() {
        let (_, join) = peer.ask_to_join().unwrap();
        leader.recv_message(&transmit(&join)).unwrap();
    }
    {
        let mut others: Vec<(usize, &mut Data)> =
            rest.iter_mut().enumerate().map(|(i, d)| (i + 2, d)).collect();
        settle(&mut leader, &mut others);
    }
    let mut all = vec![leader];
    all.append(&mut rest);
    for d in all.iter_mut() {
        assert!(d.refresh_lifecycle(0));
        assert!(d.is_living());
    }
    all
}

fn beats_from(ids: &[usize]) -> Vec<Letter> {
    ids.iter().map(|&p| Letter::new(p, Message::HEARTBEAT)).collect()
}

#[test]
fn born_to_living_needs_every_host() {
    let names = ["a", "b", "c"];
    let mut a = node("a", &names);
    // view 1 holds only the leader: no transition yet
    assert!(!a.refresh_lifecycle(0));
    assert!(!a.is_living());
    let mut b = node("b", &names);
    let mut c = node("c", &names);
    let (_, join_b) = b.ask_to_join().unwrap();
    a.recv_message(&transmit(&join_b)).unwrap();
    {
        let mut others = [(2usize, &mut b), (3usize, &mut c)];
        settle(&mut a, &mut others);
    }
    // view 2 = {1, 2} still lacks host c
    assert!(!a.refresh_lifecycle(0));
    let (_, join_c) = c.ask_to_join().unwrap();
    a.recv_message(&transmit(&join_c)).unwrap();
    {
        let mut others = [(2usize, &mut b), (3usize, &mut c)];
        settle(&mut a, &mut others);
    }
    // view 3 = {1, 2, 3} matches the host list on everyone
    assert!(a.refresh_lifecycle(0));
    assert!(b.refresh_lifecycle(0));
    assert!(c.refresh_lifecycle(0));
    // and the transition is one-way
    assert!(!a.refresh_lifecycle(1));
    assert!(a.is_living());
}

#[test]
fn fresh_heartbeats_keep_everyone_reachable() {
    let names = ["a", "b", "c"];
    let mut cluster = full_cluster(&names);
    let period = HEARTBEAT_PERIOD_MILLIS;
    for step in 1..=5u64 {
        let now = step * period;
        let all = beats_from(&[1, 2, 3]);
        for d in cluster.iter_mut() {
            assert_eq!(d.validate_peers(now, &all), Vec::<usize>::new());
        }
    }
}

#[test]
fn silent_follower_is_suspected_by_every_peer() {
    // hosts a, b, c, d reach view 4 = {1,2,3,4}; then d goes silent
    let names = ["a", "b", "c", "d"];
    let mut cluster = full_cluster(&names);
    assert_eq!(cluster[0].view_id(), 4);
    let t1 = 1000u64;
    let alive = beats_from(&[1, 2, 3]);
    for d in cluster.iter_mut().take(3) {
        assert_eq!(d.validate_peers(t1, &alive), Vec::<usize>::new());
    }
    // more than two heartbeat periods after peer 4 was last seen, and
    // within the allowance for the others, everyone suspects peer 4
    let t2 = 2 * HEARTBEAT_PERIOD_MILLIS + 500;
    for d in cluster.iter_mut().take(3) {
        assert_eq!(d.validate_peers(t2, &alive), vec![4]);
    }
    // the leader turned the suspicion into a Delete request...
    let leader = &mut cluster[0];
    match leader.role_ref() {
        Role::Leader(lead) => {
            let rid = lead.latest_request();
            let confs = lead.confirmations_of(rid).expect("the delete is pending");
            assert_eq!(confs.ids().as_slice(), &[1]);
        }
        Role::Follower(_) => panic!("the first host leads"),
    }
    // ...and broadcasts the REQ carrying the Delete to the view's others
    let (recipients, req) = leader.proceed_reqs().expect("the delete goes out");
    assert_eq!(recipients, vec![2, 3, 4]);
    match req.message() {
        Message::REQ(instr) => {
            assert_eq!(instr.peer_id, 4);
            assert_eq!(instr.op, Operation::Delete);
            assert_eq!(instr.view_id, 4);
        }
        _ => panic!("wrong message kind"),
    }
    // a suspected peer is suspected once: the next sweep stays quiet
    let t3 = t2 + 1;
    assert_eq!(cluster[0].validate_peers(t3, &alive), Vec::<usize>::new());
    // the live members acknowledge; the dead peer owes nothing for its
    // own eviction, so view 5 = {1,2,3} commits and reaches the others
    for i in [1usize, 2] {
        let follower = &mut cluster[i];
        follower.recv_message(&transmit(&req)).unwrap();
        let out = follower.flush_instructions().unwrap().expect("a live member acknowledges");
        assert_eq!(out.recipients, vec![1]);
        let ok = transmit(&out.letter);
        cluster[0].recv_message(&ok).unwrap();
    }
    let commit = cluster[0].flush_instructions().unwrap().expect("the delete commits");
    assert_eq!(commit.recipients, vec![2, 3]);
    cluster[1].recv_message(&transmit(&commit.letter)).unwrap();
    cluster[2].recv_message(&transmit(&commit.letter)).unwrap();
    for d in cluster.iter().take(3) {
        assert_eq!(d.view_id(), 5);
        assert_eq!(d.members_of_view(5).unwrap().ids().as_slice(), &[1, 2, 3]);
    }
}

#[test]
fn late_heartbeat_revives_a_peer_before_suspicion() {
    let names = ["a", "b"];
    let mut cluster = full_cluster(&names);
    let leader = &mut cluster[0];
    // peer 2 answers just in time, over and over
    for step in 1..=4u64 {
        let now = step * (2 * HEARTBEAT_PERIOD_MILLIS);
        assert_eq!(leader.validate_peers(now, &beats_from(&[2])), Vec::<usize>::new());
    }
    // exactly at the bound nothing happens; one past it does
    let base = 4 * (2 * HEARTBEAT_PERIOD_MILLIS);
    let none: Vec<Letter> = Vec::new();
    assert_eq!(
        leader.validate_peers(base + 2 * HEARTBEAT_PERIOD_MILLIS, &none),
        Vec::<usize>::new()
    );
    assert_eq!(
        leader.validate_peers(base + 2 * HEARTBEAT_PERIOD_MILLIS + 1, &none),
        vec![2]
    );
    // with only the leader left to ask, the self-acknowledged Delete
    // commits at once, and the new view has nobody else to tell
    assert!(leader.proceed_reqs().is_some());
    let commit = leader.flush_instructions().unwrap().expect("the delete commits");
    assert_eq!(commit.recipients, Vec::<usize>::new());
    assert_eq!(leader.view_id(), 3);
    assert_eq!(leader.members_of_view(3).unwrap().ids().as_slice(), &[1]);
}

#[test]
fn peer_that_stops_beating_is_evicted_from_heartbeats() {
    // three hosts run healthily; then peer 3 falls silent, as a process
    // would after its simulated crash stops its heartbeat timer
    let names = ["a", "b", "c"];
    let mut cluster = full_cluster(&names);
    for step in 1..=3u64 {
        let now = step * HEARTBEAT_PERIOD_MILLIS;
        let all = beats_from(&[1, 2, 3]);
        for d in cluster.iter_mut() {
            assert_eq!(d.validate_peers(now, &all), Vec::<usize>::new());
        }
    }
    // peer 3 last beat at 3 periods; 1 and 2 beat on without it
    let alive = beats_from(&[1, 2]);
    for d in cluster.iter_mut().take(2) {
        assert_eq!(
            d.validate_peers(4 * HEARTBEAT_PERIOD_MILLIS, &alive),
            Vec::<usize>::new()
        );
    }
    // past the allowance since peer 3's last beat, 1 and 2 suspect it
    let t_silent = 3 * HEARTBEAT_PERIOD_MILLIS + 2 * HEARTBEAT_PERIOD_MILLIS + 1;
    for d in cluster.iter_mut().take(2) {
        assert_eq!(d.validate_peers(t_silent, &alive), vec![3]);
    }
    // the leader opens Delete(3) against the current view
    let leader = &mut cluster[0];
    let (recipients, req) = leader.proceed_reqs().expect("the delete goes out");
    assert_eq!(recipients, vec![2, 3]);
    let instr = match req.message() {
        Message::REQ(instr) => *instr,
        _ => panic!("wrong message kind"),
    };
    assert_eq!(instr.peer_id, 3);
    assert_eq!(instr.op, Operation::Delete);
    assert_eq!(instr.view_id, 3);
    // the live follower acknowledges; the dead peer owes nothing for its
    // own eviction, so the delete commits without it
    {
        let b = &mut cluster[1];
        b.recv_message(&transmit(&req)).unwrap();
        let out = b.flush_instructions().unwrap().expect("b acknowledges");
        assert_eq!(out.recipients, vec![1]);
        let ok = transmit(&out.letter);
        cluster[0].recv_message(&ok).unwrap();
    }
    let commit = cluster[0].flush_instructions().unwrap().expect("the delete commits");
    assert_eq!(cluster[0].view_id(), 4);
    assert_eq!(
        cluster[0].members_of_view(4).unwrap().ids().as_slice(),
        &[1, 2]
    );
    assert_eq!(commit.recipients, vec![2]);
    let newview = transmit(&commit.letter);
    cluster[1].recv_message(&newview).unwrap();
    assert_eq!(cluster[1].view_id(), 4);
    assert_eq!(
        cluster[1].members_of_view(4).unwrap().ids().as_slice(),
        &[1, 2]
    );
}

#[test]
fn single_host_cluster_lives_alone() {
    let mut a = node("a", &["a"]);
    assert!(a.leads());
    // view 1 = {1} already matches the whole host list
    assert!(a.refresh_lifecycle(0));
    assert!(a.is_living());
    // with nobody to hear from, nothing ever goes unreachable
    let none: Vec<Letter> = Vec::new();
    assert_eq!(a.validate_peers(1_000_000, &none), Vec::<usize>::new());
}

#[test]
fn heartbeats_while_born_change_nothing() {
    let names = ["a", "b"];
    let mut a = node("a", &names);
    assert!(!a.is_living());
    assert_eq!(a.validate_peers(10_000, &beats_from(&[2])), Vec::<usize>::new());
    assert!(!a.is_living());
}
