//! The wire format: round trips, framing, and agreement with the
//! little-endian fixed-width layout that `bincode` produces for the
//! same shapes.

use membership::codec::{decode_letter, encode_letter, extract_letter, frame_letter};
use membership::members::MemberSet;
use membership::messaging::{Instruction, Letter, Message, Operation};
use membership::Reasons;

fn members_of(ids: &[usize]) -> MemberSet {
    let mut ms = MemberSet::new();
    for &p in ids {
        ms.insert(p);
    }
    ms
}

fn round_trip(letter: &Letter) -> Letter {
    let bytes = encode_letter(letter);
    decode_letter(bytes.as_slice()).expect("the encoding must decode")
}

#[test]
fn join_round_trip() {
    let l = round_trip(&Letter::new(2, Message::JOIN));
    assert_eq!(l.from_whom(), 2);
    assert!(matches!(l.message(), Message::JOIN));
}

#[test]
fn heartbeat_round_trip() {
    let l = round_trip(&Letter::new(7, Message::HEARTBEAT));
    assert_eq!(l.from_whom(), 7);
    assert!(matches!(l.message(), Message::HEARTBEAT));
}

#[test]
fn ok_round_trip() {
    let l = round_trip(&Letter::new(3, Message::OK { request_id: 9, view_id: 4 }));
    assert_eq!(l.from_whom(), 3);
    match l.message() {
        Message::OK { request_id, view_id } => {
            assert_eq!(*request_id, 9);
            assert_eq!(*view_id, 4);
        }
        _ => panic!("wrong message kind"),
    }
}

#[test]
fn req_round_trip() {
    let instr = Instruction { request_id: 5, peer_id: 4, view_id: 3, op: Operation::Delete };
    let l = round_trip(&Letter::new(1, Message::REQ(instr)));
    assert_eq!(l.from_whom(), 1);
    match l.message() {
        Message::REQ(i) => assert_eq!(*i, instr),
        _ => panic!("wrong message kind"),
    }
}

#[test]
fn newview_round_trip() {
    let l = round_trip(&Letter::new(
        1,
        Message::NEWVIEW { view_id: 3, members: members_of(&[1, 2, 3]) },
    ));
    assert_eq!(l.from_whom(), 1);
    match l.message() {
        Message::NEWVIEW { view_id, members } => {
            assert_eq!(*view_id, 3);
            assert_eq!(members.ids().as_slice(), &[1, 2, 3]);
        }
        _ => panic!("wrong message kind"),
    }
}

#[test]
fn newview_empty_members_round_trip() {
    let l = round_trip(&Letter::new(1, Message::NEWVIEW { view_id: 9, members: MemberSet::new() }));
    match l.message() {
        Message::NEWVIEW { view_id, members } => {
            assert_eq!(*view_id, 9);
            assert_eq!(members.len(), 0);
        }
        _ => panic!("wrong message kind"),
    }
}

// The payload layout must be the one bincode gives the same fields:
// little-endian, 8-byte peer ids and lengths, 4-byte tags.

#[test]
fn join_matches_bincode_layout() {
    let ours = encode_letter(&Letter::new(2, Message::JOIN));
    let reference = bincode::serialize(&(2u64, 1u32)).unwrap();
    assert_eq!(ours, reference);
}

#[test]
fn ok_matches_bincode_layout() {
    let ours = encode_letter(&Letter::new(3, Message::OK { request_id: 9, view_id: 4 }));
    let reference = bincode::serialize(&(3u64, 2u32, 9u32, 4u32)).unwrap();
    assert_eq!(ours, reference);
}

#[test]
fn req_matches_bincode_layout() {
    let instr = Instruction { request_id: 5, peer_id: 4, view_id: 3, op: Operation::Add };
    let ours = encode_letter(&Letter::new(1, Message::REQ(instr)));
    let reference = bincode::serialize(&(1u64, 0u32, 5u32, 4u64, 3u32, 0u32)).unwrap();
    assert_eq!(ours, reference);
}

#[test]
fn newview_matches_bincode_layout() {
    let ours = encode_letter(&Letter::new(
        1,
        Message::NEWVIEW { view_id: 3, members: members_of(&[1, 2, 3]) },
    ));
    let reference = bincode::serialize(&(1u64, 3u32, 3u32, vec![1u64, 2u64, 3u64])).unwrap();
    assert_eq!(ours, reference);
}

#[test]
fn members_decode_in_canonical_order() {
    // ids on the wire in any order decode to the same sorted set
    let mut scrambled = bincode::serialize(&(1u64, 3u32, 7u32, vec![3u64, 1u64, 2u64])).unwrap();
    let mut framed = bincode::serialize(&(scrambled.len() as u64)).unwrap();
    framed.append(&mut scrambled);
    let (l, _) = extract_letter(&framed, 0).unwrap().unwrap();
    match l.message() {
        Message::NEWVIEW { members, .. } => assert_eq!(members.ids().as_slice(), &[1, 2, 3]),
        _ => panic!("wrong message kind"),
    }
}

#[test]
fn frame_extraction_handles_partial_and_multiple_frames() {
    let a = frame_letter(&Letter::new(2, Message::JOIN));
    let b = frame_letter(&Letter::new(1, Message::NEWVIEW { view_id: 2, members: members_of(&[1, 2]) }));
    let mut buf: Vec<u8> = Vec::new();
    buf.extend_from_slice(&a);
    buf.extend_from_slice(&b);
    // a truncated buffer yields nothing yet
    let partial: Vec<u8> = buf[..a.len() + 3].to_vec();
    assert!(extract_letter(&partial, a.len()).unwrap().is_none());
    assert!(extract_letter(&buf[..4].to_vec(), 0).unwrap().is_none());
    // the full buffer yields both letters in order
    let (l1, next1) = extract_letter(&buf, 0).unwrap().unwrap();
    assert!(matches!(l1.message(), Message::JOIN));
    assert_eq!(next1, a.len());
    let (l2, next2) = extract_letter(&buf, next1).unwrap().unwrap();
    assert!(matches!(l2.message(), Message::NEWVIEW { .. }));
    assert_eq!(next2, buf.len());
}

#[test]
fn extreme_field_values_round_trip() {
    let instr = Instruction {
        request_id: u32::MAX,
        peer_id: usize::MAX,
        view_id: u32::MAX,
        op: Operation::Delete,
    };
    let l = round_trip(&Letter::new(usize::MAX, Message::REQ(instr)));
    assert_eq!(l.from_whom(), usize::MAX);
    match l.message() {
        Message::REQ(i) => assert_eq!(*i, instr),
        _ => panic!("wrong message kind"),
    }
    let big = members_of(&[usize::MAX - 1, usize::MAX]);
    let l2 = round_trip(&Letter::new(1, Message::NEWVIEW { view_id: u32::MAX, members: big }));
    match l2.message() {
        Message::NEWVIEW { view_id, members } => {
            assert_eq!(*view_id, u32::MAX);
            assert_eq!(members.ids().as_slice(), &[usize::MAX - 1, usize::MAX]);
        }
        _ => panic!("wrong message kind"),
    }
}

#[test]
fn malformed_payloads_decode_to_nothing() {
    // a JOIN with trailing bytes
    let mut long_join = bincode::serialize(&(2u64, 1u32)).unwrap();
    long_join.push(0);
    assert!(decode_letter(&long_join).is_none());
    // an OK cut short
    let short_ok = bincode::serialize(&(3u64, 2u32, 9u32)).unwrap();
    assert!(decode_letter(&short_ok).is_none());
    // a REQ whose operation tag is out of range
    let bad_op = bincode::serialize(&(1u64, 0u32, 5u32, 4u64, 3u32, 7u32)).unwrap();
    assert!(decode_letter(&bad_op).is_none());
    // a NEWVIEW whose count disagrees with the bytes that follow
    let bad_count = bincode::serialize(&(1u64, 3u32, 2u32, 5u64, 1u64, 2u64)).unwrap();
    assert!(decode_letter(&bad_count).is_none());
}

#[test]
fn garbage_payload_is_bad_message() {
    // a complete frame whose payload has an unknown tag
    let mut payload = bincode::serialize(&(1u64, 99u32)).unwrap();
    let mut framed = bincode::serialize(&(payload.len() as u64)).unwrap();
    framed.append(&mut payload);
    assert!(matches!(extract_letter(&framed, 0), Err(Reasons::BadMessage)));
    // a bare payload of the wrong length decodes to nothing
    assert!(decode_letter(&[0u8; 5]).is_none());
}
