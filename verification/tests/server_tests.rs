//! Server decisions: slots, single responses, and domain overlap.

use slipstream::addr::SockAddr;
use slipstream::dns::build_qname;
use slipstream::dns::decode_response;
use slipstream::dns::encode_query;
use slipstream::dns::QueryParams;
use slipstream::dns::Rcode;
use slipstream::dns::CLASS_IN;
use slipstream::dns::RR_TXT;
use slipstream::server::decode_slot;
use slipstream::server::is_label_suffix;
use slipstream::server::parse_domain;
use slipstream::server::parse_target_address;
use slipstream::server::respond_to_slot;
use slipstream::server::warn_overlapping_domains;

fn peer() -> SockAddr {
    SockAddr::V4 { addr: 0x0a000001, port: 4242 }
}

fn query_bytes(id: u16, qname: &str, rd: bool, cd: bool) -> Vec<u8> {
    encode_query(&QueryParams { id, qname, qtype: RR_TXT, qclass: CLASS_IN, rd, cd })
        .expect("query should encode")
}

#[test]
fn accepted_query_becomes_a_slot_with_payload() {
    let payload: Vec<u8> = vec![0x53, 0x01, 0x02];
    let qname = build_qname(&payload, "example.com").expect("fits");
    let wire = query_bytes(0x77, &qname, true, false);
    let slot = decode_slot(&wire, peer(), &["example.com"]).expect("accepted");
    assert_eq!(slot.id, 0x77);
    assert!(slot.rd);
    assert!(slot.rcode.is_none());
    assert_eq!(slot.payload, payload);
    assert_eq!(slot.peer, SockAddr::V6 { addr: 0x0000ffff0a000001, port: 4242 });
}

#[test]
fn error_reply_becomes_a_slot_and_garbage_none() {
    let wire = query_bytes(0x78, "zz.example.com", false, false);
    let slot = decode_slot(&wire, peer(), &["example.com"]).expect("reply slot");
    assert_eq!(slot.rcode, Some(Rcode::FormErr));
    assert!(slot.payload.is_empty());

    assert!(decode_slot(&[1, 2, 3], peer(), &["example.com"]).is_none());
}

#[test]
fn each_slot_gets_exactly_one_response() {
    let wire = query_bytes(0x42, "example.com", true, false);
    let slot = decode_slot(&wire, peer(), &["example.com"]).expect("poll slot");

    // nothing to send: the poll is still answered, with empty NOERROR
    let empty = respond_to_slot(&slot, None).expect("one response");
    assert_eq!(&empty[0..2], &[0x00, 0x42]);
    assert_eq!(empty[3] & 0x0f, 0);
    assert_eq!(decode_response(&empty).expect("decodes"), Vec::<u8>::new());

    // a prepared packet rides in the same single response
    let packet: Vec<u8> = (0..32).collect();
    let full = respond_to_slot(&slot, Some(&packet)).expect("one response");
    assert_eq!(decode_response(&full).expect("decodes"), packet);

    // an error slot is answered with its code
    let bad = query_bytes(0x43, "zz.example.com", false, false);
    let err_slot = decode_slot(&bad, peer(), &["example.com"]).expect("reply slot");
    let reply = respond_to_slot(&err_slot, None).expect("one response");
    assert_eq!(reply[3] & 0x0f, 1);
}

#[test]
fn zero_question_query_gets_header_only_formerr() {
    // a 12-octet header with RD set and no question at all
    let wire: Vec<u8> = vec![0x01, 0x02, 0x01, 0x00, 0x00, 0x00, 0, 0, 0, 0, 0, 0];
    let slot = decode_slot(&wire, peer(), &["example.com"]).expect("a reply slot");
    assert_eq!(slot.rcode, Some(Rcode::FormErr));
    assert!(slot.question.is_none());
    let reply = respond_to_slot(&slot, None).expect("one response");
    // header only: id echoed, QR|AA set, RD echoed, FORMERR, no sections
    assert_eq!(reply.len(), 12);
    assert_eq!(&reply[0..2], &[0x01, 0x02]);
    assert_eq!(reply[2] & 0x80, 0x80);
    assert_eq!(reply[2] & 0x01, 0x01);
    assert_eq!(reply[3] & 0x0f, 1);
    assert_eq!(&reply[4..12], &[0, 0, 0, 0, 0, 0, 0, 0]);
}

#[test]
fn overlong_query_names_are_dropped() {
    // five 60-octet labels overshoot the 255-octet name limit; such a
    // query fits a 512-byte datagram but gets no answer at all
    let label = "a".repeat(60);
    let parts = vec![label.clone(), label.clone(), label.clone(), label.clone(), label];
    let name = parts.join(".");
    let mut wire: Vec<u8> = vec![0x00, 0x09, 0x00, 0x00, 0x00, 0x01, 0, 0, 0, 0, 0, 0];
    for part in name.split('.') {
        wire.push(part.len() as u8);
        wire.extend_from_slice(part.as_bytes());
    }
    wire.push(0);
    wire.extend_from_slice(&[0, 16, 0, 1]);
    assert!(decode_slot(&wire, peer(), &["example.com"]).is_none());
}

#[test]
fn label_suffix_is_proper_and_dot_separated() {
    assert!(is_label_suffix("sub.example.com", "example.com"));
    assert!(!is_label_suffix("example.com", "example.com"));
    assert!(!is_label_suffix("notexample.com", "example.com"));
    assert!(!is_label_suffix("com", "example.com"));
}

#[test]
fn overlapping_domains_warn() {
    let none = warn_overlapping_domains(&["example.com".to_string(), "other.net".to_string()]);
    assert!(none.is_empty());

    let overlap = warn_overlapping_domains(&[
        "example.com".to_string(),
        "sub.example.com".to_string(),
    ]);
    assert_eq!(overlap.len(), 1);
    assert!(overlap[0].contains("longest suffix wins"));

    let dup = warn_overlapping_domains(&["a.net".to_string(), "A.net.".to_string()]);
    assert_eq!(dup.len(), 1);
    assert!(dup[0].contains("Duplicate domain"));

    let single = warn_overlapping_domains(&["example.com".to_string()]);
    assert!(single.is_empty());
}

#[test]
fn server_argument_parsers() {
    assert_eq!(parse_domain("example.com.").unwrap(), "example.com");
    assert!(parse_domain(" ").is_err());
    let hp = parse_target_address("127.0.0.1:5201").unwrap();
    assert_eq!(hp.host, "127.0.0.1");
    assert_eq!(hp.port, 5201);
    let hp = parse_target_address("10.1.2.3").unwrap();
    assert_eq!(hp.port, 5201);
    assert!(parse_target_address("x:0").is_err());
}
