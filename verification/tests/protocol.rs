use unreliable_message::msgqueue::{CompleteMessage, MsgChunk, MsgId, MsgQueue, PieceNum};
use unreliable_message::network::{PeerAddr, Receiver, ReceiverFilter};
use unreliable_message::codec::{decode_chunk, encode_chunk};
use unreliable_message::UnrError;

fn chunk(id: u64, index: u16, total: u16, payload: &[u8]) -> MsgChunk {
    MsgChunk(MsgId(id), PieceNum(index, total), payload.to_vec())
}

fn addr(ip: u128, port: u16) -> PeerAddr {
    PeerAddr { ip, v6: false, port }
}

#[test]
fn single_piece_fast_path_completes_at_once() {
    let mut q = MsgQueue::new(None);
    let r = q.insert_chunk(chunk(1, 1, 1, &[7, 8, 9]));
    match r {
        Some(CompleteMessage(MsgId(id), payload)) => {
            assert_eq!(id, 1);
            assert_eq!(payload, vec![7, 8, 9]);
        }
        None => panic!("single-piece chunk must complete at once"),
    }
    // last_released is now 1: replaying the same id is silently dropped.
    assert!(q.insert_chunk(chunk(1, 1, 1, &[7, 8, 9])).is_none());
}

#[test]
fn two_pieces_reassemble_in_order() {
    let mut q = MsgQueue::new(None);
    assert!(q.insert_chunk(chunk(1, 1, 2, &[0])).is_none());
    let r = q.insert_chunk(chunk(1, 2, 2, &[1])).expect("second piece completes");
    assert_eq!(r.0, MsgId(1));
    assert_eq!(r.1, vec![0, 1]);
}

#[test]
fn two_pieces_reassemble_out_of_order() {
    let mut q = MsgQueue::new(None);
    assert!(q.insert_chunk(chunk(1, 2, 2, &[1])).is_none());
    let r = q.insert_chunk(chunk(1, 1, 2, &[0])).expect("second arrival completes");
    assert_eq!(r.0, MsgId(1));
    assert_eq!(r.1, vec![0, 1]);
}

#[test]
fn duplicate_piece_is_ignored() {
    let mut q = MsgQueue::new(None);
    assert!(q.insert_chunk(chunk(1, 1, 3, &[10])).is_none());
    // The same (id, index) again: no premature readiness, first write wins.
    assert!(q.insert_chunk(chunk(1, 1, 3, &[99])).is_none());
    assert!(q.insert_chunk(chunk(1, 2, 3, &[20])).is_none());
    assert!(q.insert_chunk(chunk(1, 2, 3, &[98])).is_none());
    let r = q.insert_chunk(chunk(1, 3, 3, &[30])).expect("third distinct piece completes");
    assert_eq!(r.1, vec![10, 20, 30]);
}

#[test]
fn stale_ids_are_rejected() {
    let mut q = MsgQueue::new(None);
    assert!(q.insert_chunk(chunk(5, 1, 1, &[1])).is_some());
    // last_released = 5: anything at or below 5 is dropped.
    assert!(q.insert_chunk(chunk(5, 1, 1, &[1])).is_none());
    assert!(q.insert_chunk(chunk(4, 1, 1, &[1])).is_none());
    assert!(q.insert_chunk(chunk(3, 1, 2, &[1])).is_none());
    // No stage was created for id 3: its second piece completes nothing.
    assert!(q.insert_chunk(chunk(3, 2, 2, &[2])).is_none());
    // A strictly newer id is accepted.
    assert!(q.insert_chunk(chunk(6, 1, 1, &[1])).is_some());
}

#[test]
fn supersession_purges_older_stage() {
    let mut q = MsgQueue::new(None);
    // id 1 is mid-assembly.
    assert!(q.insert_chunk(chunk(1, 1, 2, &[1])).is_none());
    // id 2 completes first and purges id 1's stage.
    assert!(q.insert_chunk(chunk(2, 1, 1, &[2])).is_some());
    // The late piece of id 1 is dropped; id 1 never completes.
    assert!(q.insert_chunk(chunk(1, 2, 2, &[3])).is_none());
    assert!(q.insert_chunk(chunk(1, 1, 2, &[1])).is_none());
    assert!(q.insert_chunk(chunk(1, 2, 2, &[3])).is_none());
}

#[test]
fn interleaved_ids_complete_independently() {
    let mut q = MsgQueue::new(None);
    assert!(q.insert_chunk(chunk(1, 1, 2, &[11])).is_none());
    assert!(q.insert_chunk(chunk(2, 1, 2, &[21])).is_none());
    let first = q.insert_chunk(chunk(1, 2, 2, &[12])).expect("id 1 completes");
    assert_eq!(first.0, MsgId(1));
    assert_eq!(first.1, vec![11, 12]);
    // Completing id 1 must not purge the newer id 2.
    let second = q.insert_chunk(chunk(2, 2, 2, &[22])).expect("id 2 completes");
    assert_eq!(second.0, MsgId(2));
    assert_eq!(second.1, vec![21, 22]);
}

#[test]
fn out_of_range_piece_positions_are_dropped() {
    let mut q = MsgQueue::new(None);
    assert!(q.insert_chunk(chunk(1, 0, 2, &[1])).is_none());
    assert!(q.insert_chunk(chunk(1, 3, 2, &[1])).is_none());
    assert!(q.insert_chunk(chunk(1, 1, 0, &[1])).is_none());
    // The queue is untouched: a well-formed message still assembles.
    assert!(q.insert_chunk(chunk(1, 1, 2, &[0])).is_none());
    assert!(q.insert_chunk(chunk(1, 2, 2, &[1])).is_some());
}

#[test]
fn mismatched_piece_total_is_dropped() {
    let mut q = MsgQueue::new(None);
    assert!(q.insert_chunk(chunk(1, 1, 3, &[0])).is_none());
    // Same id, contradictory total: dropped, first writer decided the total.
    assert!(q.insert_chunk(chunk(1, 2, 2, &[1])).is_none());
    assert!(q.insert_chunk(chunk(1, 2, 3, &[1])).is_none());
    let r = q.insert_chunk(chunk(1, 3, 3, &[2])).expect("completes with total 3");
    assert_eq!(r.1, vec![0, 1, 2]);
}

#[test]
fn open_stage_cap_rejects_new_stages() {
    let mut q = MsgQueue::new(Some(1));
    assert!(q.insert_chunk(chunk(1, 1, 2, &[1])).is_none());
    // The cap is reached: a chunk that would open a second stage is dropped.
    assert!(q.insert_chunk(chunk(2, 1, 2, &[2])).is_none());
    assert!(q.insert_chunk(chunk(2, 2, 2, &[3])).is_none());
    // The open stage still completes.
    assert!(q.insert_chunk(chunk(1, 2, 2, &[4])).is_some());
}

#[test]
fn peers_hold_independent_state() {
    let a = addr(10, 1000);
    let b = addr(20, 2000);
    let mut recv = Receiver::new(None, ReceiverFilter::empty_blacklist());
    // Peer a releases id 5.
    assert!(recv.accept_chunk(a, chunk(5, 1, 1, &[1])).is_some());
    // Peer b is unaffected: id 5, even id 1, is fresh for it.
    assert!(recv.accept_chunk(b, chunk(1, 1, 1, &[2])).is_some());
    assert!(recv.accept_chunk(b, chunk(5, 1, 1, &[3])).is_some());
    // And peer a still rejects its released id.
    assert!(recv.accept_chunk(a, chunk(5, 1, 1, &[1])).is_none());
}

#[test]
fn clear_addr_forgets_one_peer_only() {
    let a = addr(10, 1000);
    let b = addr(20, 2000);
    let mut recv = Receiver::new(None, ReceiverFilter::empty_blacklist());
    assert!(recv.accept_chunk(a, chunk(9, 1, 1, &[1])).is_some());
    assert!(recv.accept_chunk(b, chunk(9, 1, 1, &[1])).is_some());
    recv.clear_addr(&a);
    // Peer a restarts from scratch: an old id is accepted again.
    assert!(recv.accept_chunk(a, chunk(1, 1, 1, &[2])).is_some());
    // Peer b kept its watermark.
    assert!(recv.accept_chunk(b, chunk(9, 1, 1, &[1])).is_none());
}

#[test]
fn blacklist_blocks_listed_addresses_only() {
    let bad = addr(66, 6000);
    let good = addr(10, 1000);
    let mut recv = Receiver::new(None, ReceiverFilter::Blacklist(vec![bad]));
    let bytes = encode_chunk(&chunk(1, 1, 1, &[42]), 512).unwrap();
    // A listed address never reaches reassembly: no message, no error.
    assert!(matches!(recv.handle_datagram(bad, &bytes[..]), Ok(None)));
    // Even malformed bytes from it surface no error.
    assert!(matches!(recv.handle_datagram(bad, &[0xff; 3]), Ok(None)));
    // An unlisted address goes through.
    let r = recv.handle_datagram(good, &bytes[..]).unwrap().expect("admitted and complete");
    assert_eq!(r.1, vec![42]);
}

#[test]
fn empty_blacklist_admits_everyone() {
    let mut recv = Receiver::new(None, ReceiverFilter::empty_blacklist());
    let bytes = encode_chunk(&chunk(1, 1, 1, &[5]), 512).unwrap();
    for port in [1u16, 2, 3] {
        let r = recv.handle_datagram(addr(port as u128, port), &bytes[..]).unwrap();
        assert!(r.is_some());
    }
}

#[test]
fn whitelist_admits_listed_addresses_only() {
    let listed = addr(10, 1000);
    let other = addr(20, 2000);
    let mut recv = Receiver::new(None, ReceiverFilter::Whitelist(vec![listed]));
    let bytes = encode_chunk(&chunk(1, 1, 1, &[9]), 512).unwrap();
    assert!(matches!(recv.handle_datagram(other, &bytes[..]), Ok(None)));
    assert!(recv.handle_datagram(listed, &bytes[..]).unwrap().is_some());
}

#[test]
fn empty_whitelist_admits_nobody() {
    let mut recv = Receiver::new(None, ReceiverFilter::Whitelist(Vec::new()));
    let bytes = encode_chunk(&chunk(1, 1, 1, &[9]), 512).unwrap();
    assert!(matches!(recv.handle_datagram(addr(1, 1), &bytes[..]), Ok(None)));
}

#[test]
fn chunk_round_trips_through_the_codec() {
    let c = chunk(0xdead_beef_0102_0304, 7, 9, &[1, 2, 3, 4, 5]);
    let bytes = encode_chunk(&c, 512).expect("fits easily");
    assert!(bytes.len() <= 512);
    let back = decode_chunk(&bytes[..]).expect("its own encoding decodes");
    assert_eq!(back.0, MsgId(0xdead_beef_0102_0304));
    assert_eq!(back.1, PieceNum(7, 9));
    assert_eq!(back.2, vec![1, 2, 3, 4, 5]);
}

#[test]
fn oversized_record_is_an_encoding_error() {
    let c = chunk(1, 1, 1, &[0; 100]);
    assert_eq!(encode_chunk(&c, 10), Err(UnrError::EncodingError));
}

#[test]
fn huge_length_claim_is_a_decoding_error() {
    // A 12-byte datagram whose payload-length varint claims u64::MAX: it
    // must come back as a decoding error, not take the process down.
    let mut data = vec![0u8, 0, 0, 253];
    data.extend_from_slice(&[0xff; 8]);
    assert_eq!(decode_chunk(&data[..]).map(|_| ()), Err(UnrError::DecodingError));
    let mut recv = Receiver::new(None, ReceiverFilter::empty_blacklist());
    let r = recv.handle_datagram(addr(1, 1), &data[..]);
    assert_eq!(r.map(|_| ()), Err(UnrError::DecodingError));
}

#[test]
fn address_families_are_distinct_peers() {
    let four = PeerAddr { ip: 77, v6: false, port: 9 };
    let six = PeerAddr { ip: 77, v6: true, port: 9 };
    let mut recv = Receiver::new(None, ReceiverFilter::empty_blacklist());
    assert!(recv.accept_chunk(four, chunk(5, 1, 1, &[1])).is_some());
    // The IPv6 peer at the same bits has its own queue: id 5 is fresh.
    assert!(recv.accept_chunk(six, chunk(5, 1, 1, &[2])).is_some());
    assert!(recv.accept_chunk(four, chunk(5, 1, 1, &[1])).is_none());
    // A blacklist entry for one family does not block the other.
    let mut filtered = Receiver::new(None, ReceiverFilter::Blacklist(vec![four]));
    let bytes = encode_chunk(&chunk(1, 1, 1, &[3]), 512).unwrap();
    assert!(matches!(filtered.handle_datagram(four, &bytes[..]), Ok(None)));
    assert!(filtered.handle_datagram(six, &bytes[..]).unwrap().is_some());
}

#[test]
fn malformed_bytes_are_a_decoding_error() {
    assert_eq!(decode_chunk(&[]).map(|_| ()), Err(UnrError::DecodingError));
    let mut recv = Receiver::new(None, ReceiverFilter::empty_blacklist());
    let r = recv.handle_datagram(addr(1, 1), &[]);
    assert_eq!(r.map(|_| ()), Err(UnrError::DecodingError));
}
