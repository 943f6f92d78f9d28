//! The wire encoding of letters.
//!
//! Every letter travels as a length-prefixed record: an 8-byte
//! little-endian payload length, then the payload. Inside the payload all
//! numbers are little-endian: enum tags and `u32` fields take 4 bytes,
//! peer ids and container counts take 8, and a member list is its count
//! followed by the ids. Both the TCP and the UDP path use this one
//! format, so processes can interoperate whatever transport a letter
//! took.

use crate::members::{sorted_insert, strictly_sorted, MemberSet};
use crate::messaging::{Instruction, Letter, LetterV, Message, MessageV, Operation};
use crate::{PeerId, Reasons};
use vstd::bytes::{
    lemma_auto_spec_u32_to_from_le_bytes, lemma_auto_spec_u64_to_from_le_bytes,
    spec_u32_from_le_bytes, spec_u32_to_le_bytes, spec_u64_from_le_bytes, spec_u64_to_le_bytes,
    u32_from_le_bytes, u32_to_le_bytes, u64_from_le_bytes, u64_to_le_bytes,
};
use vstd::prelude::*;
use vstd::slice::slice_subrange;

verus! {

/// The 4 bytes at `i` read as a little-endian `u32`.
pub open spec fn rd_u32(b: Seq<u8>, i: int) -> u32 {
    spec_u32_from_le_bytes(b.subrange(i, i + 4))
}

/// The 8 bytes at `i` read as a little-endian `u64`.
pub open spec fn rd_u64(b: Seq<u8>, i: int) -> u64 {
    spec_u64_from_le_bytes(b.subrange(i, i + 8))
}

/// The wire tag of an operation.
pub open spec fn op_tag(op: Operation) -> u32 {
    match op {
        Operation::Add => 0,
        Operation::Delete => 1,
    }
}

/// The wire tag of a message.
pub open spec fn msg_tag(m: MessageV) -> u32 {
    match m {
        MessageV::Req(_) => 0,
        MessageV::Join => 1,
        MessageV::Okay { .. } => 2,
        MessageV::NewView { .. } => 3,
        MessageV::Heartbeat => 4,
    }
}

/// An instruction on the wire: request id, peer id, view id, operation.
pub open spec fn enc_instruction(i: Instruction) -> Seq<u8> {
    spec_u32_to_le_bytes(i.request_id) + spec_u64_to_le_bytes(i.peer_id as u64)
        + spec_u32_to_le_bytes(i.view_id) + spec_u32_to_le_bytes(op_tag(i.op))
}

/// A member list on the wire: each id as 8 bytes, in sequence order.
pub open spec fn enc_members(s: Seq<PeerId>) -> Seq<u8>
    decreases s.len(),
{
    if s.len() == 0 {
        Seq::<u8>::empty()
    } else {
        spec_u64_to_le_bytes(s[0] as u64) + enc_members(s.skip(1))
    }
}

/// A message on the wire: its tag, then its fields in declaration order.
pub open spec fn enc_message(m: MessageV) -> Seq<u8> {
    match m {
        MessageV::Req(i) => spec_u32_to_le_bytes(0) + enc_instruction(i),
        MessageV::Join => spec_u32_to_le_bytes(1),
        MessageV::Okay { request_id, view_id } => spec_u32_to_le_bytes(2) + spec_u32_to_le_bytes(
            request_id,
        ) + spec_u32_to_le_bytes(view_id),
        MessageV::NewView { view_id, members } => spec_u32_to_le_bytes(3) + spec_u32_to_le_bytes(
            view_id,
        ) + spec_u64_to_le_bytes(members.len() as u64) + enc_members(members),
        MessageV::Heartbeat => spec_u32_to_le_bytes(4),
    }
}

/// A letter's payload: the sender id, then the message.
pub open spec fn enc_letter(l: LetterV) -> Seq<u8> {
    spec_u64_to_le_bytes(l.from as u64) + enc_message(l.msg)
}

/// A full frame: the payload length as 8 bytes, then the payload.
pub open spec fn enc_frame(l: LetterV) -> Seq<u8> {
    spec_u64_to_le_bytes(enc_letter(l).len() as u64) + enc_letter(l)
}

/// Parse `n` ids from `b` (which must hold exactly `8 * n` bytes),
/// gathering them in sorted order onto `acc`.
pub open spec fn dec_members(b: Seq<u8>, n: nat, acc: Seq<PeerId>) -> Option<Seq<PeerId>>
    decreases n,
{
    if n == 0 {
        if b.len() == 0 {
            Some(acc)
        } else {
            None
        }
    } else if b.len() < 8 {
        None
    } else {
        let v = rd_u64(b, 0);
        if v <= usize::MAX as u64 {
            dec_members(b.skip(8), (n - 1) as nat, sorted_insert(acc, v as usize))
        } else {
            None
        }
    }
}

/// Parse a message from an exact payload (without the sender id).
pub open spec fn dec_message(b: Seq<u8>) -> Option<MessageV> {
    if b.len() < 4 {
        None
    } else {
        let tag = rd_u32(b, 0);
        if tag == 0 {
            if b.len() == 24 {
                let peer = rd_u64(b, 8);
                let t = rd_u32(b, 20);
                if peer <= usize::MAX as u64 && (t == 0 || t == 1) {
                    Some(
                        MessageV::Req(
                            Instruction {
                                request_id: rd_u32(b, 4),
                                peer_id: peer as usize,
                                view_id: rd_u32(b, 16),
                                op: if t == 0 {
                                    Operation::Add
                                } else {
                                    Operation::Delete
                                },
                            },
                        ),
                    )
                } else {
                    None
                }
            } else {
                None
            }
        } else if tag == 1 {
            if b.len() == 4 {
                Some(MessageV::Join)
            } else {
                None
            }
        } else if tag == 2 {
            if b.len() == 12 {
                Some(MessageV::Okay { request_id: rd_u32(b, 4), view_id: rd_u32(b, 8) })
            } else {
                None
            }
        } else if tag == 3 {
            if b.len() >= 16 {
                let n = rd_u64(b, 8);
                if b.len() == 16 + 8 * n {
                    match dec_members(b.skip(16), n as nat, Seq::<PeerId>::empty()) {
                        Some(ms) => Some(MessageV::NewView { view_id: rd_u32(b, 4), members: ms }),
                        None => None,
                    }
                } else {
                    None
                }
            } else {
                None
            }
        } else if tag == 4 {
            if b.len() == 4 {
                Some(MessageV::Heartbeat)
            } else {
                None
            }
        } else {
            None
        }
    }
}

/// Parse a letter from an exact payload.
pub open spec fn dec_letter(b: Seq<u8>) -> Option<LetterV> {
    if b.len() < 8 {
        None
    } else {
        let sender = rd_u64(b, 0);
        if sender <= usize::MAX as u64 {
            match dec_message(b.skip(8)) {
                Some(m) => Some(LetterV { from: sender as usize, msg: m }),
                None => None,
            }
        } else {
            None
        }
    }
}

/// Whether `b` begins with a whole frame: a length prefix and that many
/// payload bytes.
pub open spec fn frame_complete(b: Seq<u8>) -> bool {
    b.len() >= 8 && b.len() >= 8 + rd_u64(b, 0)
}

/// The payload of the frame at the front of `b`.
pub open spec fn frame_payload(b: Seq<u8>) -> Seq<u8> {
    b.subrange(8, 8 + rd_u64(b, 0) as int)
}

/// A letter that the wire format can carry faithfully: any member list
/// is strictly sorted and small enough for its count and the payload
/// length to fit their 8-byte fields.
pub open spec fn wire_wf(l: LetterV) -> bool {
    &&& l.msg.wf()
    &&& match l.msg {
        MessageV::NewView { members, .. } => 8 * members.len() + 24 <= u64::MAX,
        _ => true,
    }
}

/// Append `x` to `out` as 4 little-endian bytes.
fn push_u32(out: &mut Vec<u8>, x: u32)
    ensures
        final(out)@ == old(out)@ + spec_u32_to_le_bytes(x),
{
    let mut b = u32_to_le_bytes(x);
    out.append(&mut b);
}

/// Append `x` to `out` as 8 little-endian bytes.
fn push_u64(out: &mut Vec<u8>, x: u64)
    ensures
        final(out)@ == old(out)@ + spec_u64_to_le_bytes(x),
{
    let mut b = u64_to_le_bytes(x);
    out.append(&mut b);
}

/// Encode a letter's payload, without the frame length.
#[verifier::loop_isolation(false)]
pub fn encode_letter(l: &Letter) -> (r: Vec<u8>)
    ensures
        r@ == enc_letter(l@),
{
    let mut out: Vec<u8> = Vec::new();
    push_u64(&mut out, l.from_whom() as u64);
    match l.message() {
        Message::REQ(instr) => {
            push_u32(&mut out, 0);
            push_u32(&mut out, instr.request_id);
            push_u64(&mut out, instr.peer_id as u64);
            push_u32(&mut out, instr.view_id);
            match instr.op {
                Operation::Add => push_u32(&mut out, 0),
                Operation::Delete => push_u32(&mut out, 1),
            }
            proof {
                assert(out@ =~= enc_letter(l@));
            }
        },
        Message::JOIN => {
            push_u32(&mut out, 1);
            proof {
                assert(out@ =~= enc_letter(l@));
            }
        },
        Message::OK { request_id, view_id } => {
            push_u32(&mut out, 2);
            push_u32(&mut out, *request_id);
            push_u32(&mut out, *view_id);
            proof {
                assert(out@ =~= enc_letter(l@));
            }
        },
        Message::NEWVIEW { view_id, members } => {
            push_u32(&mut out, 3);
            push_u32(&mut out, *view_id);
            let ids = members.ids();
            let n = ids.len();
            push_u64(&mut out, n as u64);
            let ghost s = members@;
            let ghost base = out@;
            proof {
                assert(s.skip(0) =~= s);
            }
            let mut i: usize = 0;
            while i < n
                invariant
                    0 <= i <= n,
                    out@ + enc_members(s.skip(i as int)) == base + enc_members(s),
                decreases n - i,
            {
                proof {
                    assert(s.skip(i as int)[0] == s[i as int]);
                    assert(s.skip(i as int).skip(1) =~= s.skip(i as int + 1));
                }
                push_u64(&mut out, ids[i] as u64);
                proof {
                    assert(out@ + enc_members(s.skip(i as int + 1)) =~= base + enc_members(s));
                }
                i += 1;
            }
            proof {
                assert(enc_members(s.skip(n as int)) =~= Seq::<u8>::empty());
                assert(out@ =~= out@ + enc_members(s.skip(n as int)));
                assert(out@ =~= enc_letter(l@));
            }
        },
        Message::HEARTBEAT => {
            push_u32(&mut out, 4);
            proof {
                assert(out@ =~= enc_letter(l@));
            }
        },
    }
    out
}

/// Encode a letter as a full frame: length prefix, then payload.
pub fn frame_letter(l: &Letter) -> (r: Vec<u8>)
    ensures
        r@ == enc_frame(l@),
{
    let mut payload = encode_letter(l);
    let mut out: Vec<u8> = Vec::new();
    push_u64(&mut out, payload.len() as u64);
    out.append(&mut payload);
    proof {
        assert(out@ =~= enc_frame(l@));
    }
    out
}

/// Decode a letter from an exact payload. `None` means the bytes are not
/// a letter of this protocol.
#[verifier::loop_isolation(false)]
pub fn decode_letter(bytes: &[u8]) -> (r: Option<Letter>)
    ensures
        match r {
            Some(l) => dec_letter(bytes@) == Some(l@) && l.wf(),
            None => dec_letter(bytes@) is None,
        },
{
    let len = bytes.len();
    if len < 12 {
        return None;
    }
    let sender64 = u64_from_le_bytes(slice_subrange(bytes, 0, 8));
    proof {
        assert(bytes@.subrange(0, 8) == bytes@.subrange(0int, 0int + 8));
    }
    if sender64 > usize::MAX as u64 {
        return None;
    }
    let sender = sender64 as usize;
    let ghost mb = bytes@.skip(8);
    let tag = u32_from_le_bytes(slice_subrange(bytes, 8, 12));
    proof {
        assert(bytes@.subrange(8, 12) =~= mb.subrange(0, 4));
    }
    if tag == 0 {
        if len != 32 {
            return None;
        }
        let request_id = u32_from_le_bytes(slice_subrange(bytes, 12, 16));
        let peer64 = u64_from_le_bytes(slice_subrange(bytes, 16, 24));
        let view_id = u32_from_le_bytes(slice_subrange(bytes, 24, 28));
        let t = u32_from_le_bytes(slice_subrange(bytes, 28, 32));
        proof {
            assert(bytes@.subrange(12, 16) =~= mb.subrange(4, 8));
            assert(bytes@.subrange(16, 24) =~= mb.subrange(8, 16));
            assert(bytes@.subrange(24, 28) =~= mb.subrange(16, 20));
            assert(bytes@.subrange(28, 32) =~= mb.subrange(20, 24));
        }
        if peer64 > usize::MAX as u64 {
            return None;
        }
        if t > 1 {
            return None;
        }
        let op = if t == 0 {
            Operation::Add
        } else {
            Operation::Delete
        };
        let instr = Instruction { request_id, peer_id: peer64 as usize, view_id, op };
        Some(Letter::new(sender, Message::REQ(instr)))
    } else if tag == 1 {
        if len != 12 {
            return None;
        }
        Some(Letter::new(sender, Message::JOIN))
    } else if tag == 2 {
        if len != 20 {
            return None;
        }
        let request_id = u32_from_le_bytes(slice_subrange(bytes, 12, 16));
        let view_id = u32_from_le_bytes(slice_subrange(bytes, 16, 20));
        proof {
            assert(bytes@.subrange(12, 16) =~= mb.subrange(4, 8));
            assert(bytes@.subrange(16, 20) =~= mb.subrange(8, 12));
        }
        Some(Letter::new(sender, Message::OK { request_id, view_id }))
    } else if tag == 3 {
        if len < 24 {
            return None;
        }
        let view_id = u32_from_le_bytes(slice_subrange(bytes, 12, 16));
        let count64 = u64_from_le_bytes(slice_subrange(bytes, 16, 24));
        proof {
            assert(bytes@.subrange(12, 16) =~= mb.subrange(4, 8));
            assert(bytes@.subrange(16, 24) =~= mb.subrange(8, 16));
        }
        let rem = len - 24;
        if rem % 8 != 0 || (rem / 8) as u64 != count64 {
            proof {
                assert(mb.len() != 16 + 8 * rd_u64(mb, 8));
            }
            return None;
        }
        let n = rem / 8;
        proof {
            assert(mb.len() == 16 + 8 * rd_u64(mb, 8));
        }
        let mut ms = MemberSet::new();
        let mut i: usize = 0;
        while i < n
            invariant
                0 <= i <= n,
                ms.wf(),
                dec_members(mb.skip(16 + 8 * i as int), (n - i) as nat, ms@) == dec_members(
                    mb.skip(16),
                    n as nat,
                    Seq::<PeerId>::empty(),
                ),
            decreases n - i,
        {
            let off = 24 + 8 * i;
            let id64 = u64_from_le_bytes(slice_subrange(bytes, off, off + 8));
            let ghost rest = mb.skip(16 + 8 * i as int);
            proof {
                assert(bytes@.subrange(off as int, off as int + 8) =~= rest.subrange(0, 8));
                assert(rest.len() == 8 * (n - i));
            }
            if id64 > usize::MAX as u64 {
                proof {
                    assert(dec_members(rest, (n - i) as nat, ms@) is None);
                }
                return None;
            }
            ms.insert(id64 as usize);
            proof {
                assert(rest.skip(8) =~= mb.skip(16 + 8 * (i as int + 1)));
            }
            i += 1;
        }
        proof {
            assert(mb.skip(16 + 8 * n as int) =~= Seq::<u8>::empty());
            assert(dec_members(mb.skip(16), n as nat, Seq::<PeerId>::empty()) == Some(ms@));
        }
        Some(Letter::new(sender, Message::NEWVIEW { view_id, members: ms }))
    } else if tag == 4 {
        if len != 12 {
            return None;
        }
        Some(Letter::new(sender, Message::HEARTBEAT))
    } else {
        None
    }
}

/// Scan the receive buffer `buf` from `start` for one whole frame.
/// `Ok(None)` means more bytes must arrive first; `Ok(Some((l, next)))`
/// hands back the decoded letter and the offset just past its frame;
/// `Err` reports a payload that is not a letter.
pub fn extract_letter(buf: &Vec<u8>, start: usize) -> (r: Result<Option<(Letter, usize)>, Reasons>)
    requires
        start <= buf@.len(),
    ensures
        ({
            let rest = buf@.skip(start as int);
            match r {
                Ok(Some((l, next))) => frame_complete(rest) && dec_letter(frame_payload(rest))
                    == Some(l@) && l.wf() && next == start + 8 + rd_u64(rest, 0),
                Ok(None) => !frame_complete(rest),
                Err(e) => e == Reasons::BadMessage && frame_complete(rest) && dec_letter(
                    frame_payload(rest),
                ) is None,
            }
        }),
{
    let ghost rest = buf@.skip(start as int);
    let avail = buf.len() - start;
    if avail < 8 {
        return Ok(None);
    }
    let len64 = u64_from_le_bytes(slice_subrange(buf.as_slice(), start, start + 8));
    proof {
        assert(buf@.subrange(start as int, start as int + 8) =~= rest.subrange(0, 8));
    }
    if avail as u64 - 8 < len64 {
        proof {
            assert(!frame_complete(rest));
        }
        return Ok(None);
    }
    let plen = len64 as usize;
    let payload = slice_subrange(buf.as_slice(), start + 8, start + 8 + plen);
    proof {
        assert(payload@ =~= frame_payload(rest));
    }
    match decode_letter(payload) {
        Some(l) => Ok(Some((l, start + 8 + plen))),
        None => Err(Reasons::BadMessage),
    }
}

/// Parsing the ids that encoding laid down, onto an accumulator whose
/// entries all lie below them, appends them in order.
proof fn lemma_dec_members_of_enc(s: Seq<PeerId>, acc: Seq<PeerId>)
    requires
        strictly_sorted(s),
        strictly_sorted(acc),
        forall|i: int, j: int|
            0 <= i < acc.len() && 0 <= j < s.len() ==> acc[i] < s[j],
    ensures
        dec_members(enc_members(s), s.len(), acc) == Some(acc + s),
    decreases s.len(),
{
    lemma_auto_spec_u64_to_from_le_bytes();
    if s.len() == 0 {
        assert(acc + s =~= acc);
    } else {
        let b = enc_members(s);
        assert(b == spec_u64_to_le_bytes(s[0] as u64) + enc_members(s.skip(1)));
        assert(b.subrange(0, 8) =~= spec_u64_to_le_bytes(s[0] as u64));
        assert(rd_u64(b, 0) == s[0] as u64);
        assert(b.len() >= 8) by {
            assert(spec_u64_to_le_bytes(s[0] as u64).len() == 8);
        }
        assert(b.skip(8) =~= enc_members(s.skip(1)));
        // the new id exceeds everything gathered so far, so it lands at the end
        assert(sorted_insert(acc, s[0]) == acc.push(s[0])) by {
            if acc.len() > 0 {
                assert(acc.last() < s[0]);
            }
        }
        let acc2 = acc.push(s[0]);
        assert(strictly_sorted(acc2)) by {
            assert(forall|i: int| 0 <= i < acc.len() ==> acc2[i] == acc[i]);
            assert(acc2[acc.len() as int] == s[0]);
        }
        assert(strictly_sorted(s.skip(1)));
        assert(forall|i: int, j: int|
            0 <= i < acc2.len() && 0 <= j < s.skip(1).len() ==> acc2[i] < s.skip(1)[j]);
        lemma_dec_members_of_enc(s.skip(1), acc2);
        assert(acc2 + s.skip(1) =~= acc + s);
    }
}

/// Round trip: a well-formed letter decodes back from its own payload.
pub proof fn lemma_letter_round_trip(l: LetterV)
    requires
        wire_wf(l),
    ensures
        dec_letter(enc_letter(l)) == Some(l),
{
    lemma_auto_spec_u32_to_from_le_bytes();
    lemma_auto_spec_u64_to_from_le_bytes();
    let b = enc_letter(l);
    let mbv = enc_message(l.msg);
    assert(b.subrange(0, 8) =~= spec_u64_to_le_bytes(l.from as u64));
    assert(rd_u64(b, 0) == l.from as u64);
    assert(l.from as u64 <= usize::MAX as u64);
    assert(b.skip(8) =~= mbv);
    assert(mbv.subrange(0, 4) =~= spec_u32_to_le_bytes(msg_tag(l.msg)));
    assert(rd_u32(mbv, 0) == msg_tag(l.msg));
    match l.msg {
        MessageV::Req(i) => {
            assert(mbv.len() == 24);
            assert(mbv.subrange(4, 8) =~= spec_u32_to_le_bytes(i.request_id));
            assert(mbv.subrange(8, 16) =~= spec_u64_to_le_bytes(i.peer_id as u64));
            assert(mbv.subrange(16, 20) =~= spec_u32_to_le_bytes(i.view_id));
            assert(mbv.subrange(20, 24) =~= spec_u32_to_le_bytes(op_tag(i.op)));
            assert(dec_message(mbv) == Some(l.msg));
        },
        MessageV::Join => {
            assert(mbv.len() == 4);
            assert(dec_message(mbv) == Some(l.msg));
        },
        MessageV::Okay { request_id, view_id } => {
            assert(mbv.len() == 12);
            assert(mbv.subrange(4, 8) =~= spec_u32_to_le_bytes(request_id));
            assert(mbv.subrange(8, 12) =~= spec_u32_to_le_bytes(view_id));
            assert(dec_message(mbv) == Some(l.msg));
        },
        MessageV::NewView { view_id, members } => {
            let n = members.len();
            lemma_enc_members_len(members);
            assert(mbv.len() == 16 + 8 * n);
            assert(mbv.subrange(4, 8) =~= spec_u32_to_le_bytes(view_id));
            assert(mbv.subrange(8, 16) =~= spec_u64_to_le_bytes(n as u64));
            assert(rd_u64(mbv, 8) == n as u64);
            assert(n as u64 as int == n as int);
            assert(mbv.skip(16) =~= enc_members(members));
            lemma_dec_members_of_enc(members, Seq::<PeerId>::empty());
            assert(Seq::<PeerId>::empty() + members =~= members);
            assert(dec_message(mbv) == Some(l.msg));
        },
        MessageV::Heartbeat => {
            assert(mbv.len() == 4);
            assert(dec_message(mbv) == Some(l.msg));
        },
    }
}

/// The member list's encoding takes exactly 8 bytes per id.
pub proof fn lemma_enc_members_len(s: Seq<PeerId>)
    ensures
        enc_members(s).len() == 8 * s.len(),
    decreases s.len(),
{
    lemma_auto_spec_u64_to_from_le_bytes();
    if s.len() > 0 {
        lemma_enc_members_len(s.skip(1));
    }
}

/// The wire format is faithful: two well-formed letters with the same
/// payload bytes are the same letter.
pub proof fn lemma_encoding_injective(l1: LetterV, l2: LetterV)
    requires
        wire_wf(l1),
        wire_wf(l2),
        enc_letter(l1) == enc_letter(l2),
    ensures
        l1 == l2,
{
    lemma_letter_round_trip(l1);
    lemma_letter_round_trip(l2);
}

/// The encoding is canonical: two NEWVIEW letters for the same view
/// whose member lists hold the same ids — kept strictly sorted, as
/// every `MemberSet` is — travel as identical bytes, whatever order the
/// ids were gathered in.
pub proof fn lemma_canonical_encoding(l1: LetterV, l2: LetterV)
    requires
        l1.from == l2.from,
        l1.msg matches MessageV::NewView { view_id: v1, members: m1 } && l2.msg matches
            MessageV::NewView { view_id: v2, members: m2 } && v1 == v2 && strictly_sorted(m1)
            && strictly_sorted(m2) && m1.to_set() == m2.to_set(),
    ensures
        enc_letter(l1) == enc_letter(l2),
{
    let (m1, m2) = (l1.msg->NewView_members, l2.msg->NewView_members);
    assert forall|y: crate::PeerId| m1.contains(y) <==> m2.contains(y) by {
        assert(m1.to_set().contains(y) == m1.contains(y));
        assert(m2.to_set().contains(y) == m2.contains(y));
    }
    crate::members::lemma_sorted_unique(m1, m2);
}

/// Agreement: decoding is a function of the bytes, so every process
/// that receives one NEWVIEW broadcast records the same member set for
/// that view. Together with the canonical (sorted) member order on the
/// sending side, equal member sets always travel as equal bytes.
pub proof fn lemma_agreement(b: Seq<u8>, l1: LetterV, l2: LetterV)
    requires
        dec_letter(b) == Some(l1),
        dec_letter(b) == Some(l2),
    ensures
        l1 == l2,
        l1.msg matches MessageV::NewView { view_id: v1, members: m1 } ==> l2.msg matches
            MessageV::NewView { view_id: v2, members: m2 } && v1 == v2 && m1 == m2,
{
}

/// Round trip through framing: in a buffer that starts with a letter's
/// frame, scanning finds exactly that letter and stops just past it,
/// whatever bytes follow.
pub proof fn lemma_frame_round_trip(l: LetterV, extra: Seq<u8>)
    requires
        wire_wf(l),
    ensures
        frame_complete(enc_frame(l) + extra),
        dec_letter(frame_payload(enc_frame(l) + extra)) == Some(l),
        8 + rd_u64(enc_frame(l) + extra, 0) == enc_frame(l).len(),
{
    lemma_auto_spec_u32_to_from_le_bytes();
    lemma_auto_spec_u64_to_from_le_bytes();
    let p = enc_letter(l);
    assert(p.len() <= u64::MAX) by {
        match l.msg {
            MessageV::NewView { members, .. } => {
                lemma_enc_members_len(members);
                assert(p.len() == 24 + 8 * members.len());
            },
            _ => {},
        }
    }
    let b = enc_frame(l) + extra;
    assert(b.subrange(0, 8) =~= spec_u64_to_le_bytes(p.len() as u64));
    assert(rd_u64(b, 0) == p.len() as u64);
    assert(frame_payload(b) =~= p);
    lemma_letter_round_trip(l);
}

} // verus!
