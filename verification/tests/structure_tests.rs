//! The building blocks: the host list, the member sets, the view
//! history as seen through `Data`, and the initial states of both roles.

use membership::hostsfile::PeerList;
use membership::members::MemberSet;
use membership::roles::Role;
use membership::state::Data;
use membership::Reasons;

fn list(host: &str, names: &[&str]) -> Result<PeerList, Reasons> {
    PeerList::new(host.to_string(), names.iter().map(|s| s.to_string()).collect())
}

#[test]
fn own_host_must_stand_in_the_list_exactly_once() {
    assert!(matches!(list("a", &["a", "b"]), Ok(_)));
    assert!(matches!(list("x", &["a", "b"]), Err(Reasons::HostNotInHostsfile)));
    assert!(matches!(list("a", &["a", "b", "a"]), Err(Reasons::HostNotInHostsfile)));
    assert!(matches!(list("a", &[]), Err(Reasons::HostNotInHostsfile)));
}

#[test]
fn ids_follow_list_positions() {
    let a = list("a", &["a", "b", "c"]).unwrap();
    let c = list("c", &["a", "b", "c"]).unwrap();
    assert_eq!(a.id(), 1);
    assert!(a.is_leader());
    assert_eq!(c.id(), 3);
    assert!(!c.is_leader());
    assert_eq!(c.hostname(), "c");
    assert_eq!(c.len(), 2);
    let others = a.ids_and_names();
    assert_eq!(others.len(), 2);
    assert_eq!(others[0].0, 2);
    assert_eq!(others[0].1, "b");
    assert_eq!(others[1].0, 3);
    assert_eq!(others[1].1, "c");
}

#[test]
fn members_match_hosts_wants_every_id_once() {
    let a = list("a", &["a", "b", "c"]).unwrap();
    let mut ms = MemberSet::new();
    ms.insert(1);
    ms.insert(2);
    assert!(!a.members_match_hosts(&ms));
    ms.insert(3);
    assert!(a.members_match_hosts(&ms));
    ms.insert(4);
    assert!(!a.members_match_hosts(&ms));
}

#[test]
fn member_sets_stay_sorted_and_deduplicated() {
    let mut ms = MemberSet::new();
    for p in [3usize, 1, 2, 3, 1] {
        ms.insert(p);
    }
    assert_eq!(ms.ids().as_slice(), &[1, 2, 3]);
    assert_eq!(ms.len(), 3);
    assert!(ms.contains(2));
    assert!(!ms.contains(4));
    assert!(ms.remove(2));
    assert!(!ms.remove(2));
    assert_eq!(ms.ids().as_slice(), &[1, 3]);
    let same = {
        let mut s = MemberSet::new();
        s.insert(3);
        s.insert(1);
        s
    };
    assert!(ms.set_eq(&same));
    assert_eq!(ms.ids_without(3), vec![1]);
    assert_eq!(ms.ids_without(9), vec![1, 3]);
}

#[test]
fn beat_log_keeps_the_latest_receipt_per_peer() {
    let mut log = membership::beats::BeatLog::new();
    assert_eq!(log.get(2), None);
    log.set(2, 100);
    log.set(3, 200);
    log.set(2, 300);
    assert_eq!(log.get(2), Some(300));
    assert_eq!(log.get(3), Some(200));
    log.remove(3);
    assert_eq!(log.get(3), None);
    assert_eq!(log.get(2), Some(300));
    // removing an unknown peer changes nothing
    log.remove(9);
    assert_eq!(log.get(2), Some(300));
}

#[test]
fn initial_state_is_view_one_with_the_leader() {
    let a = Data::new(list("a", &["a", "b"]).unwrap(), Some(10));
    assert_eq!(a.view_id(), 1);
    assert!(a.leads());
    assert!(!a.is_living());
    assert_eq!(a.crash_delay(), Some(10));
    assert_eq!(a.leader_id(), 1);
    assert_eq!(a.current_members().unwrap().ids().as_slice(), &[1]);
    match a.role_ref() {
        Role::Leader(lead) => {
            assert_eq!(lead.latest_request(), 0);
            assert_eq!(lead.waiting_for_id(), None);
            assert!(!lead.can_proceed());
        }
        Role::Follower(_) => panic!("the first host leads"),
    }

    let b = Data::new(list("b", &["a", "b"]).unwrap(), None);
    assert!(!b.leads());
    assert_eq!(b.leader_id(), 1);
    assert_eq!(b.crash_delay(), None);
    match b.role_ref() {
        Role::Follower(follow) => assert_eq!(follow.leader_id(), 1),
        Role::Leader(_) => panic!("only the first host leads"),
    }
    // a follower opens with JOIN to the leader; the leader asks nothing
    let (to, letter) = b.ask_to_join().expect("followers ask to join");
    assert_eq!(to, 1);
    assert_eq!(letter.from_whom(), 2);
    assert!(matches!(letter.message(), membership::messaging::Message::JOIN));
    assert!(a.ask_to_join().is_none());
}
