use unreliable_message::msgqueue::{MsgId, PieceNum};
use unreliable_message::network::{AddrsContainer, PeerAddr, Receiver, ReceiverFilter, Sender};

fn dest() -> AddrsContainer {
    AddrsContainer::from_vec(vec![PeerAddr { ip: 1, v6: false, port: 9000 }])
}

// The protocol overhead is 32 bytes, so a datagram length of 37 leaves a
// 5-byte payload capacity per fragment.
const DGRAM: u16 = 37;

#[test]
fn enqueue_splits_with_ceiling_division() {
    let mut s = Sender::new(DGRAM, 1);
    // 12 bytes at capacity 5: pieces of 5, 5 and 2 — the final partial
    // fragment is not dropped.
    s.enqueue((0u8..12).collect(), dest());
    assert_eq!(s.queue_len(), 3);
    let (b1, _) = s.next_datagram().unwrap().unwrap();
    let (b2, _) = s.next_datagram().unwrap().unwrap();
    let (b3, _) = s.next_datagram().unwrap().unwrap();
    assert!(s.is_queue_empty());
    let c1 = unreliable_message::codec::decode_chunk(&b1[..]).unwrap();
    let c2 = unreliable_message::codec::decode_chunk(&b2[..]).unwrap();
    let c3 = unreliable_message::codec::decode_chunk(&b3[..]).unwrap();
    assert_eq!(c1.1, PieceNum(1, 3));
    assert_eq!(c2.1, PieceNum(2, 3));
    assert_eq!(c3.1, PieceNum(3, 3));
    assert_eq!(c1.2, vec![0, 1, 2, 3, 4]);
    assert_eq!(c2.2, vec![5, 6, 7, 8, 9]);
    assert_eq!(c3.2, vec![10, 11]);
    assert_eq!(c1.0, MsgId(1));
    assert_eq!(c2.0, MsgId(1));
    assert_eq!(c3.0, MsgId(1));
}

#[test]
fn enqueue_exact_multiple_makes_no_empty_piece() {
    let mut s = Sender::new(DGRAM, 1);
    s.enqueue((0u8..10).collect(), dest());
    assert_eq!(s.queue_len(), 2);
}

#[test]
fn enqueue_empty_message_queues_nothing() {
    let mut s = Sender::new(DGRAM, 1);
    s.enqueue(Vec::new(), dest());
    assert!(s.is_queue_empty());
    assert_eq!(s.queue_len(), 0);
    assert!(s.next_datagram().unwrap().is_none());
}

#[test]
fn message_ids_increase_per_enqueue() {
    let mut s = Sender::new(DGRAM, 1);
    s.enqueue(vec![1], dest());
    s.enqueue(vec![2], dest());
    let (b1, _) = s.next_datagram().unwrap().unwrap();
    let (b2, _) = s.next_datagram().unwrap().unwrap();
    let c1 = unreliable_message::codec::decode_chunk(&b1[..]).unwrap();
    let c2 = unreliable_message::codec::decode_chunk(&b2[..]).unwrap();
    assert_eq!(c1.0, MsgId(1));
    assert_eq!(c2.0, MsgId(2));
}

#[test]
fn replication_repeats_identical_chunks() {
    let mut s = Sender::new(DGRAM, 2);
    s.enqueue((0u8..7).collect(), dest());
    // 2 pieces, twice over.
    assert_eq!(s.queue_len(), 4);
    let mut decoded = Vec::new();
    while let Some((bytes, _)) = s.next_datagram().unwrap() {
        decoded.push(unreliable_message::codec::decode_chunk(&bytes[..]).unwrap());
    }
    assert_eq!(decoded.len(), 4);
    // The second round repeats the same ids and piece positions.
    assert_eq!(decoded[0].0, decoded[2].0);
    assert_eq!(decoded[0].1, decoded[2].1);
    assert_eq!(decoded[0].2, decoded[2].2);
    assert_eq!(decoded[1].1, decoded[3].1);
    // The receiver deduplicates them into one complete message.
    let from = PeerAddr { ip: 7, v6: false, port: 7 };
    let mut recv = Receiver::new(None, ReceiverFilter::empty_blacklist());
    let mut completed = Vec::new();
    for c in decoded {
        if let Some(m) = recv.accept_chunk(from, c) {
            completed.push(m);
        }
    }
    assert_eq!(completed.len(), 1);
    assert_eq!(completed[0].1, (0u8..7).collect::<Vec<u8>>());
}

#[test]
fn sender_to_receiver_round_trip() {
    let message: Vec<u8> = (0u8..=255).cycle().take(300).collect();
    let mut s = Sender::new(96, 1);
    s.enqueue(message.clone(), dest());
    let from = PeerAddr { ip: 3, v6: false, port: 4 };
    let mut recv = Receiver::new(None, ReceiverFilter::empty_blacklist());
    let mut got = None;
    while let Some((bytes, to)) = s.next_datagram().unwrap() {
        assert!(bytes.len() <= 96);
        assert_eq!(to.len(), 1);
        if let Some(m) = recv.handle_datagram(from, &bytes[..]).unwrap() {
            got = Some(m);
        }
    }
    let m = got.expect("all pieces arrived in order");
    assert_eq!(m.1, message);
}

#[test]
fn addrs_container_keeps_its_addresses() {
    let a = PeerAddr { ip: 1, v6: false, port: 2 };
    let b = PeerAddr { ip: 3, v6: true, port: 4 };
    let c = AddrsContainer::from_vec(vec![a, b]);
    assert_eq!(c.len(), 2);
    assert_eq!(c.addr_at(0), a);
    assert_eq!(c.addr_at(1), b);
    let d = c.dup();
    assert_eq!(d.len(), 2);
    assert_eq!(d.addr_at(0), a);
    assert_eq!(d.addr_at(1), b);
}
