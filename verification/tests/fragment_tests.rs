//! Fragmentation: envelopes, detection, and reassembly.

use slipstream::fragment::fragment_packet;
use slipstream::fragment::is_fragmented;
use slipstream::fragment::parse_fragment;
use slipstream::fragment::FragmentBuffer;
use slipstream::fragment::FRAGMENT_HEADER_SIZE;

#[test]
fn fragment_small_packet() {
    let data = b"hello";
    let fragments = fragment_packet(data, 42, 100);
    assert_eq!(fragments.len(), 1);

    let (packet_id, frag_num, total, payload) = parse_fragment(&fragments[0]).unwrap();
    assert_eq!(packet_id, 42);
    assert_eq!(frag_num, 0);
    assert_eq!(total, 1);
    assert_eq!(payload, b"hello");
}

#[test]
fn fragment_large_packet() {
    let data: Vec<u8> = (0..100).collect();
    // 20 bytes per fragment = 5 header + 15 payload
    let fragments = fragment_packet(&data, 1, 20);

    // 100 bytes / 15 bytes per chunk = 7 fragments (6 full + 1 partial)
    assert_eq!(fragments.len(), 7);

    for (i, frag) in fragments.iter().enumerate() {
        let (packet_id, frag_num, total, _payload) = parse_fragment(frag).unwrap();
        assert_eq!(packet_id, 1);
        assert_eq!(frag_num, i as u8);
        assert_eq!(total, 7);
    }
}

#[test]
fn reassemble_in_order() {
    let data: Vec<u8> = (0..100).collect();
    let fragments = fragment_packet(&data, 1, 20);

    let mut buffer = FragmentBuffer::new();
    for (i, frag) in fragments.iter().enumerate() {
        let result = buffer.receive_fragment(frag);
        if i < fragments.len() - 1 {
            assert!(result.is_none());
        } else {
            assert_eq!(result, Some(data.clone()));
        }
    }
}

#[test]
fn reassemble_out_of_order() {
    let data: Vec<u8> = (0..100).collect();
    let mut fragments = fragment_packet(&data, 1, 20);
    fragments.reverse(); // Receive in reverse order

    let mut buffer = FragmentBuffer::new();
    for (i, frag) in fragments.iter().enumerate() {
        let result = buffer.receive_fragment(frag);
        if i < fragments.len() - 1 {
            assert!(result.is_none());
        } else {
            assert_eq!(result, Some(data.clone()));
        }
    }
}

#[test]
fn multiple_packets() {
    let data1: Vec<u8> = (0..50).collect();
    let data2: Vec<u8> = (100..150).collect();
    let frags1 = fragment_packet(&data1, 1, 20);
    let frags2 = fragment_packet(&data2, 2, 20);

    let mut buffer = FragmentBuffer::new();

    // Interleave fragments
    let result1 = buffer.receive_fragment(&frags1[0]);
    assert!(result1.is_none());
    let result2 = buffer.receive_fragment(&frags2[0]);
    assert!(result2.is_none());

    // Complete packet 1
    for frag in frags1.iter().skip(1) {
        buffer.receive_fragment(frag);
    }

    // Complete packet 2
    for frag in frags2.iter().skip(1) {
        buffer.receive_fragment(frag);
    }

    assert_eq!(buffer.pending_count(), 0);
}

#[test]
fn seven_fragment_sizes_and_reverse_reassembly() {
    let data: Vec<u8> = (0..=99).collect();
    let fragments = fragment_packet(&data, 1, 20);
    assert_eq!(fragments.len(), 7);
    let payload_sizes: Vec<usize> = fragments
        .iter()
        .map(|f| f.len() - FRAGMENT_HEADER_SIZE)
        .collect();
    assert_eq!(payload_sizes, vec![15, 15, 15, 15, 15, 15, 10]);

    let mut reversed = fragments.clone();
    reversed.reverse();
    let mut buffer = FragmentBuffer::new();
    let mut out = None;
    for frag in &reversed {
        if let Some(p) = buffer.receive_fragment(frag) {
            out = Some(p);
        }
    }
    assert_eq!(out, Some(data));
}

#[test]
fn detects_magic_and_length() {
    assert!(is_fragmented(&[0x53, 0, 1, 0, 1]));
    assert!(is_fragmented(&[0x53, 0, 1, 0, 1, 9, 9]));
    // one byte short of an envelope
    assert!(!is_fragmented(&[0x53, 0, 1, 0]));
    // wrong magic byte
    assert!(!is_fragmented(&[0x52, 0, 1, 0, 1]));
    // QUIC long headers start with the high bit set, never the magic
    assert!(!is_fragmented(&[0xc0, 0, 1, 0, 1]));
}

#[test]
fn rejects_bad_fragments_and_duplicates() {
    let mut buffer = FragmentBuffer::new();
    // total of zero is rejected
    assert!(buffer.receive_fragment(&[0x53, 0, 7, 0, 0, 1, 2]).is_none());
    // fragment number at the total is rejected
    assert!(buffer.receive_fragment(&[0x53, 0, 7, 2, 2, 1, 2]).is_none());
    assert_eq!(buffer.pending_count(), 0);

    let data: Vec<u8> = (0..40).collect();
    let frags = fragment_packet(&data, 7, 25);
    assert_eq!(frags.len(), 2);
    assert!(buffer.receive_fragment(&frags[0]).is_none());
    // a duplicate of the same fragment is ignored
    assert!(buffer.receive_fragment(&frags[0]).is_none());
    // a fragment contradicting the recorded total is dropped
    let mut wrong_total = frags[1].clone();
    wrong_total[4] = 3;
    assert!(buffer.receive_fragment(&wrong_total).is_none());
    // the real second fragment completes the packet
    assert_eq!(buffer.receive_fragment(&frags[1]), Some(data));
    assert_eq!(buffer.pending_count(), 0);
}

#[test]
fn non_fragment_data_is_ignored() {
    let mut buffer = FragmentBuffer::new();
    assert!(buffer.receive_fragment(b"plain bytes").is_none());
    assert_eq!(buffer.pending_count(), 0);
}

#[test]
fn tiny_budget_yields_no_fragments() {
    let data = b"payload";
    assert!(fragment_packet(data, 1, 5).is_empty());
    assert!(fragment_packet(data, 1, 0).is_empty());
}

#[test]
fn sweeping_follows_the_given_clock() {
    let mut buffer = FragmentBuffer::new();
    let data: Vec<u8> = (0..40).collect();
    let frags = fragment_packet(&data, 5, 25);
    assert!(buffer.receive_fragment(&frags[0]).is_none());
    // judged at the epoch, every entry is fresh
    buffer.cleanup_at(0);
    assert_eq!(buffer.pending_count(), 1);
    // judged far in the future, every entry is stale
    buffer.cleanup_at(u64::MAX);
    assert_eq!(buffer.pending_count(), 0);
}

#[test]
fn stale_entries_are_swept() {
    let mut buffer = FragmentBuffer::with_timeout(0);
    let data: Vec<u8> = (0..40).collect();
    let frags = fragment_packet(&data, 3, 25);
    assert!(buffer.receive_fragment(&frags[0]).is_none());
    assert_eq!(buffer.pending_count(), 1);
    buffer.cleanup_stale();
    assert_eq!(buffer.pending_count(), 0);
}
