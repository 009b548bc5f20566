//! DNS codec: names, queries, responses, and their round trips.

use slipstream::dns::build_qname;
use slipstream::dns::decode_query_with_domains;
use slipstream::dns::decode_response;
use slipstream::dns::encode_query;
use slipstream::dns::encode_response;
use slipstream::dns::max_payload_len_for_domain;
use slipstream::dns::DnsError;
use slipstream::dns::DecodeQueryError;
use slipstream::dns::QueryParams;
use slipstream::dns::Rcode;
use slipstream::dns::ResponseParams;
use slipstream::dns::CLASS_IN;
use slipstream::dns::RR_TXT;

fn query_bytes(id: u16, qname: &str, rd: bool, cd: bool) -> Vec<u8> {
    encode_query(&QueryParams { id, qname, qtype: RR_TXT, qclass: CLASS_IN, rd, cd })
        .expect("query should encode")
}

#[test]
fn query_roundtrip_preserves_fields_and_payload() {
    let payload: Vec<u8> = vec![0x00, 0x01, 0xfe, 0xff, 0x53, 0x42];
    let qname = build_qname(&payload, "example.com").expect("qname should build");
    let wire = query_bytes(0xbeef, &qname, true, false);
    let decoded = decode_query_with_domains(&wire, &["example.com"]).expect("query should decode");
    assert_eq!(decoded.id, 0xbeef);
    assert!(decoded.rd);
    assert!(!decoded.cd);
    assert_eq!(decoded.payload, payload);
    assert_eq!(decoded.question.qtype, RR_TXT);
    assert_eq!(decoded.question.qclass, CLASS_IN);
}

#[test]
fn poll_query_carries_empty_payload() {
    let qname = build_qname(&[], "example.com").expect("qname should build");
    assert_eq!(qname, "example.com");
    let wire = query_bytes(7, &qname, true, true);
    let decoded = decode_query_with_domains(&wire, &["example.com"]).expect("poll should decode");
    assert_eq!(decoded.id, 7);
    assert!(decoded.rd);
    assert!(decoded.cd);
    assert!(decoded.payload.is_empty());
}

#[test]
fn uppercase_hex_labels_decode() {
    // "AAAA" under example.com spells the two bytes 0xaa 0xaa
    let wire = query_bytes(1, "AAAA.example.com", false, false);
    let decoded = decode_query_with_domains(&wire, &["example.com"]).expect("should decode");
    assert_eq!(decoded.payload, vec![0xaa, 0xaa]);
}

#[test]
fn response_echoes_and_carries_payload() {
    let wire = query_bytes(0x1234, "AAAA.example.com", true, false);
    let decoded = decode_query_with_domains(&wire, &["example.com"]).expect("should decode");

    let server_payload: Vec<u8> = (0..300).map(|i| (i % 251) as u8).collect();
    let response = encode_response(&ResponseParams {
        id: decoded.id,
        rd: decoded.rd,
        cd: decoded.cd,
        question: &decoded.question,
        payload: Some(&server_payload),
        rcode: None,
    })
    .expect("response should encode");

    // id echoed
    assert_eq!(&response[0..2], &[0x12, 0x34]);
    // QR = 1 and AA = 1 in the first flag byte; RD echoed
    assert_eq!(response[2] & 0x80, 0x80);
    assert_eq!(response[2] & 0x04, 0x04);
    assert_eq!(response[2] & 0x01, 0x01);
    // NOERROR
    assert_eq!(response[3] & 0x0f, 0);

    // the payload comes back out of the TXT strings, across two strings
    let returned = decode_response(&response).expect("response should decode");
    assert_eq!(returned, server_payload);
}

#[test]
fn empty_response_is_a_valid_nothing() {
    let wire = query_bytes(9, "example.com", true, false);
    let decoded = decode_query_with_domains(&wire, &["example.com"]).expect("should decode");
    let response = encode_response(&ResponseParams {
        id: decoded.id,
        rd: decoded.rd,
        cd: decoded.cd,
        question: &decoded.question,
        payload: None,
        rcode: Some(Rcode::NoError),
    })
    .expect("response should encode");
    let returned = decode_response(&response).expect("response should decode");
    assert!(returned.is_empty());
    // a query is not a response
    assert!(decode_response(&wire).is_none());
}

#[test]
fn unknown_domain_gets_nxdomain() {
    let wire = query_bytes(5, "AAAA.other.net", false, false);
    match decode_query_with_domains(&wire, &["example.com"]) {
        Err(DecodeQueryError::Reply { id, rcode, question, .. }) => {
            assert_eq!(id, 5);
            assert_eq!(rcode, Rcode::NxDomain);
            assert!(question.is_some());
        }
        other => panic!("expected an NXDOMAIN reply, got {:?}", other.is_ok()),
    }
}

#[test]
fn wrong_type_gets_refused_and_bad_hex_formerr() {
    let mut wire = query_bytes(6, "AAAA.example.com", false, false);
    // flip QTYPE from TXT to A
    let n = wire.len();
    wire[n - 3] = 1;
    match decode_query_with_domains(&wire, &["example.com"]) {
        Err(DecodeQueryError::Reply { rcode, .. }) => assert_eq!(rcode, Rcode::Refused),
        other => panic!("expected a REFUSED reply, got {:?}", other.is_ok()),
    }

    // a label that does not spell whole hex bytes
    let wire = query_bytes(6, "zzz.example.com", false, false);
    match decode_query_with_domains(&wire, &["example.com"]) {
        Err(DecodeQueryError::Reply { rcode, .. }) => assert_eq!(rcode, Rcode::FormErr),
        other => panic!("expected a FORMERR reply, got {:?}", other.is_ok()),
    }
}

#[test]
fn responses_and_garbage_are_dropped() {
    // too short for a header
    assert!(matches!(
        decode_query_with_domains(&[0, 1, 2], &["example.com"]),
        Err(DecodeQueryError::Drop)
    ));
    // a response (QR set) is not a query
    let mut wire = query_bytes(8, "example.com", false, false);
    wire[2] |= 0x80;
    assert!(matches!(
        decode_query_with_domains(&wire, &["example.com"]),
        Err(DecodeQueryError::Drop)
    ));
}

#[test]
fn longest_suffix_domain_wins() {
    // 0x7878 spells "xx"; the name sits under sub.example.com
    let qname = build_qname(&[0x78, 0x78], "sub.example.com").expect("qname should build");
    let wire = query_bytes(3, &qname, false, false);
    // with both domains configured, the longer suffix must win: the
    // payload labels are those before sub.example.com
    let decoded =
        decode_query_with_domains(&wire, &["example.com", "sub.example.com"]).expect("decodes");
    assert_eq!(decoded.payload, vec![0x78, 0x78]);
    // order of configuration does not matter
    let decoded2 =
        decode_query_with_domains(&wire, &["sub.example.com", "example.com"]).expect("decodes");
    assert_eq!(decoded2.payload, vec![0x78, 0x78]);
}

#[test]
fn max_payload_exact_for_example_com() {
    // name budget: 255 - 1 (root) - 12 (domain labels) = 242 octets;
    // a payload of p bytes costs 2p hex digits plus one length octet per
    // label of 63: p = 119 costs 238 + 4 = 242, p = 120 costs 244.
    let p = max_payload_len_for_domain("example.com").expect("domain is fine");
    assert_eq!(p, 119);

    let payload = vec![0xab; 119];
    let qname = build_qname(&payload, "example.com").expect("fits");
    let wire = query_bytes(2, &qname, true, false);
    let decoded = decode_query_with_domains(&wire, &["example.com"]).expect("decodes");
    assert_eq!(decoded.payload, payload);

    let too_big = vec![0xab; 120];
    assert_eq!(build_qname(&too_big, "example.com"), Err(DnsError::PayloadTooLarge));
}

#[test]
fn bad_names_are_rejected() {
    // a label longer than 63 octets
    let long_label = "a".repeat(64) + ".example.com";
    let r = encode_query(&QueryParams {
        id: 1,
        qname: &long_label,
        qtype: RR_TXT,
        qclass: CLASS_IN,
        rd: false,
        cd: false,
    });
    assert_eq!(r, Err(DnsError::BadLabel));

    // an empty label
    let r = encode_query(&QueryParams {
        id: 1,
        qname: "a..b",
        qtype: RR_TXT,
        qclass: CLASS_IN,
        rd: false,
        cd: false,
    });
    assert_eq!(r, Err(DnsError::BadLabel));

    // a domain that is not ASCII cannot carry a payload
    assert_eq!(build_qname(b"x", "exampl\u{e9}.com"), Err(DnsError::BadLabel));
}

#[test]
fn overlong_names_are_rejected() {
    // five labels of sixty octets overshoot the 255-octet name limit
    let label = "a".repeat(60);
    let long_name = vec![label.clone(), label.clone(), label.clone(), label.clone(), label]
        .join(".");
    let r = encode_query(&QueryParams {
        id: 1,
        qname: &long_name,
        qtype: RR_TXT,
        qclass: CLASS_IN,
        rd: false,
        cd: false,
    });
    assert_eq!(r, Err(DnsError::NameTooLong));

    // a truncated response does not decode
    let wire = query_bytes(2, "example.com", true, false);
    let decoded = decode_query_with_domains(&wire, &["example.com"]).expect("decodes");
    let response = encode_response(&ResponseParams {
        id: 2,
        rd: true,
        cd: false,
        question: &decoded.question,
        payload: Some(b"abc"),
        rcode: None,
    })
    .expect("encodes");
    assert!(decode_response(&response[..response.len() - 1]).is_none());
}

#[test]
fn rcode_values_match_the_rfc() {
    assert_eq!(Rcode::NoError.code(), 0);
    assert_eq!(Rcode::FormErr.code(), 1);
    assert_eq!(Rcode::ServFail.code(), 2);
    assert_eq!(Rcode::NxDomain.code(), 3);
    assert_eq!(Rcode::NotImp.code(), 4);
    assert_eq!(Rcode::Refused.code(), 5);
}
