//! Server-side decisions: turning datagrams into answerable slots and
//! slots into responses.
//!
//! The server's loop reads UDP datagrams and talks to the QUIC endpoint;
//! both stay outside the library. What is decided here: whether a
//! datagram is a query this server answers, what the answer echoes, and
//! that every accepted query gets exactly one response, carrying either
//! the endpoint's packet or an empty `NOERROR`.

use crate::addr::SockAddr;
use crate::config::HostPort;
use crate::dns::DecodeQueryError;
use crate::dns::DecodedQuery;
use crate::dns::DnsError;
use crate::dns::Question;
use crate::dns::Rcode;
use crate::dns::ResponseParams;
use vstd::prelude::*;
use vstd::string::StringExecFns;
use vstd::string::StringSliceAdditionalSpecFns;

verus! {

/// An error from building or running the server.
#[derive(Debug, Clone)]
pub struct ServerError {
    message: String,
}

impl View for ServerError {
    type V = Seq<char>;

    closed spec fn view(&self) -> Seq<char> {
        self.message@
    }
}

impl ServerError {
    /// Wrap a message.
    pub fn new(message: String) -> (r: Self)
        ensures
            r@ == message@,
    {
        ServerError { message }
    }

    /// The message.
    pub fn message(&self) -> (r: &str)
        ensures
            r@ == self@,
    {
        self.message.as_str()
    }
}

/// Server configuration.
#[derive(Debug)]
pub struct ServerConfig {
    /// UDP port to answer DNS queries on.
    pub dns_listen_port: u16,
    /// The TCP service each stream is bridged to.
    pub target_address: HostPort,
    /// Path of the TLS certificate.
    pub cert: String,
    /// Path of the TLS key.
    pub key: String,
    /// The domains this server answers for.
    pub domains: Vec<String>,
    /// Largest number of concurrent connections.
    pub max_connections: u32,
    /// Log per-stream events.
    pub debug_streams: bool,
    /// Log command-channel statistics.
    pub debug_commands: bool,
}

/// Normalize a domain argument, the error as text.
pub fn parse_domain(input: &str) -> (r: Result<String, String>)
    ensures
        r is Ok <==> (input.is_ascii() && crate::config::normalized_domain_spec(
            input.spec_bytes(),
        ).len() > 0),
        r matches Ok(d) ==> d@ == crate::dns::bytes_as_chars(
            crate::config::normalized_domain_spec(input.spec_bytes()),
        ),
{
    match crate::config::normalize_domain(input) {
        Ok(d) => Ok(d),
        Err(e) => Err(String::from_str(e.message())),
    }
}

/// Parse the target address argument, the error as text.
pub fn parse_target_address(input: &str) -> (r: Result<HostPort, String>)
    ensures
        r is Ok <==> (input.is_ascii() && crate::config::host_port_spec(input.spec_bytes(), 5201)
            is Some),
        r matches Ok(hp) ==> crate::config::host_port_spec(input.spec_bytes(), 5201) matches Some(
            (host, port, family),
        ) && hp.host@ == crate::dns::bytes_as_chars(host) && hp.port == port && hp.family
            == family,
{
    match crate::config::parse_host_port(input, 5201, crate::config::AddressKind::Target) {
        Ok(hp) => Ok(hp),
        Err(e) => Err(String::from_str(e.message())),
    }
}

/// A decoded query awaiting its one response.
pub struct Slot {
    /// The peer to answer, dual-stack normalized.
    pub peer: SockAddr,
    /// The query's id, echoed.
    pub id: u16,
    /// The query's recursion-desired bit, echoed.
    pub rd: bool,
    /// The query's checking-disabled bit, echoed.
    pub cd: bool,
    /// The question, echoed when one was parsed. A slot without one is
    /// answered with a header-only error response.
    pub question: Option<Question>,
    /// The error code to answer with; `None` when the query was accepted
    /// and a payload may be returned.
    pub rcode: Option<Rcode>,
    /// The payload the query carried, to feed into the QUIC endpoint.
    /// Empty for a poll or an error reply.
    pub payload: Vec<u8>,
}

/// Decode one datagram into a slot: an accepted query with its payload,
/// an error reply to send, or nothing for datagrams the server ignores.
pub fn decode_slot(packet: &[u8], peer: SockAddr, domains: &[&str]) -> (r: Option<Slot>)
    ensures
        match r {
            Some(slot) => {
                &&& slot.peer == crate::addr::normalize_addr_spec(peer)
                &&& match slot.rcode {
                    None => slot.question matches Some(q) && crate::dns::decode_ok_spec(
                        packet@,
                        domains@,
                        DecodedQuery {
                            id: slot.id,
                            rd: slot.rd,
                            cd: slot.cd,
                            question: q,
                            payload: slot.payload,
                        },
                    ),
                    Some(rc) => crate::dns::decode_reply_spec(
                        packet@,
                        domains@,
                        slot.id,
                        slot.rd,
                        slot.cd,
                        slot.question,
                        rc,
                    ) && slot.payload@.len() == 0,
                }
            },
            None => crate::dns::decode_drop_spec(packet@),
        },
{
    match crate::dns::decode_query_with_domains(packet, domains) {
        Ok(d) => {
            let DecodedQuery { id, rd, cd, question, payload } = d;
            Some(
                Slot {
                    peer: crate::addr::normalize_dual_stack_addr(peer),
                    id,
                    rd,
                    cd,
                    question: Some(question),
                    rcode: None,
                    payload,
                },
            )
        },
        Err(DecodeQueryError::Drop) => None,
        Err(DecodeQueryError::Reply { id, rd, cd, question, rcode }) => Some(
            Slot {
                peer: crate::addr::normalize_dual_stack_addr(peer),
                id,
                rd,
                cd,
                question,
                rcode: Some(rcode),
                payload: Vec::new(),
            },
        ),
    }
}

/// What a slot's one response carries: an error slot gets its code and
/// never a payload; an accepted query gets the endpoint's packet when it
/// produced one, else an empty `NOERROR`.
pub open spec fn slot_answer_spec(rcode: Option<Rcode>, quic_payload: Option<Seq<u8>>) -> (
    Option<Seq<u8>>,
    u16,
) {
    match rcode {
        Some(c) => (None::<Seq<u8>>, crate::dns::rcode_code_spec(c)),
        None => match quic_payload {
            Some(p) => if p.len() > 0 {
                (Some(p), 0u16)
            } else {
                (None::<Seq<u8>>, 0u16)
            },
            None => (None::<Seq<u8>>, 0u16),
        },
    }
}

/// Build the single response a slot gets. A slot without a question gets
/// a header-only reply carrying its error code; one with a question gets
/// the echoing response, which exists exactly when the question fits the
/// wire and the payload, if any, fits a `TXT` record.
pub fn respond_to_slot(slot: &Slot, quic_payload: Option<&[u8]>) -> (r: Result<Vec<u8>, DnsError>)
    ensures
        slot.question is None ==> (r matches Ok(v) && v@ == crate::dns::error_response_wire_spec(
            slot.id,
            slot.rd,
            slot.cd,
            crate::dns::rcode_of_opt(slot.rcode),
        )),
        slot.question matches Some(q) ==> {
            &&& (r is Ok <==> (crate::dns::labels_wf(q.labels_seq()) && crate::dns::name_wire(
                q.labels_seq(),
            ).len() <= crate::dns::MAX_NAME_WIRE && (slot.rcode is None ==> (match quic_payload {
                Some(p) => p@.len() > 0 ==> p@.len() <= 65000,
                None => true,
            }))))
            &&& (r matches Ok(v) ==> ({
                let (pay, code) = slot_answer_spec(
                    slot.rcode,
                    match quic_payload {
                        Some(p) => Some(p@),
                        None => None,
                    },
                );
                v@ == crate::dns::response_wire_spec(
                    slot.id,
                    slot.rd,
                    slot.cd,
                    q.labels_seq(),
                    q.qtype,
                    q.qclass,
                    pay,
                    code,
                )
            }))
        },
{
    let question = match &slot.question {
        Some(q) => q,
        None => {
            let rc: Rcode = match slot.rcode {
                Some(c) => c,
                None => Rcode::NoError,
            };
            return Ok(crate::dns::encode_error_response(slot.id, slot.rd, slot.cd, rc));
        },
    };
    let has_data = slot.rcode.is_none() && match quic_payload {
        Some(p) => p.len() > 0,
        None => false,
    };
    if has_data {
        let p = match quic_payload {
            Some(p) => p,
            None => {
                proof {
                    assert(false);
                }
                return Err(DnsError::PayloadTooLarge);
            },
        };
        crate::dns::encode_response(
            &ResponseParams {
                id: slot.id,
                rd: slot.rd,
                cd: slot.cd,
                question,
                payload: Some(p),
                rcode: slot.rcode,
            },
        )
    } else {
        let rc: Option<Rcode> = match slot.rcode {
            None => Some(Rcode::NoError),
            Some(c) => Some(c),
        };
        crate::dns::encode_response(
            &ResponseParams {
                id: slot.id,
                rd: slot.rd,
                cd: slot.cd,
                question,
                payload: None,
                rcode: rc,
            },
        )
    }
}

/// Whether `suffix` is a proper label-suffix of `domain`: the domain ends
/// with the suffix and a dot sits just before it.
pub open spec fn label_suffix_spec(domain: Seq<u8>, suffix: Seq<u8>) -> bool {
    &&& domain.len() > suffix.len()
    &&& domain.skip(domain.len() - suffix.len()) == suffix
    &&& domain[domain.len() - suffix.len() - 1] == 0x2eu8
}

/// Whether `suffix` is a proper label-suffix of `domain`.
pub fn is_label_suffix(domain: &str, suffix: &str) -> (r: bool)
    ensures
        r == label_suffix_spec(domain.spec_bytes(), suffix.spec_bytes()),
{
    let db = domain.as_bytes();
    let sb = suffix.as_bytes();
    let dn = db.len();
    let sn = sb.len();
    if dn <= sn {
        return false;
    }
    let off = dn - sn;
    let mut i: usize = 0;
    while i < sn
        invariant
            db@ == domain.spec_bytes(),
            sb@ == suffix.spec_bytes(),
            dn == db@.len(),
            sn == sb@.len(),
            dn > sn,
            off == dn - sn,
            0 <= i <= sn,
            forall|k: int| 0 <= k < i ==> db@[off + k] == sb@[k],
        decreases sn - i,
    {
        if db[off + i] != sb[i] {
            proof {
                assert(db@.skip(off as int)[i as int] == db@[off + i]);
            }
            return false;
        }
        i += 1;
    }
    proof {
        assert(db@.skip(off as int) =~= sb@);
    }
    db[off - 1] == 0x2e
}

/// Lower-case a domain and strip its trailing dots, as the overlap check
/// compares domains.
fn canonical_domain(d: &str) -> (r: Vec<u8>)
    ensures
        r@ == crate::dns::lower_bytes(crate::config::trim_dots_end_spec(d.spec_bytes())),
{
    let b = d.as_bytes();
    let mut m: usize = b.len();
    while m > 0 && b[m - 1] == 0x2e
        invariant
            m <= b@.len(),
            forall|k: int| m <= k < b@.len() ==> (#[trigger] b@[k]) == 0x2eu8,
        decreases m,
    {
        m -= 1;
    }
    let ghost trimmed = crate::config::trim_dots_end_spec(d.spec_bytes());
    proof {
        crate::config::lemma_trim_dots_at(d.spec_bytes(), m as int);
    }
    let mut out: Vec<u8> = Vec::new();
    let mut i: usize = 0;
    while i < m
        invariant
            m <= b@.len(),
            trimmed == b@.take(m as int),
            0 <= i <= m,
            out@.len() == i,
            forall|k: int|
                0 <= k < i ==> (#[trigger] out@[k]) == crate::dns::lower_byte(b@[k]),
        decreases m - i,
    {
        let c = b[i];
        out.push(
            if 0x41 <= c && c <= 0x5a {
                c + 0x20
            } else {
                c
            },
        );
        i += 1;
    }
    proof {
        assert(out@ =~= crate::dns::lower_bytes(trimmed));
    }
    out
}

/// Whether two configured domains collide: equal after canonicalization,
/// or one a proper label-suffix of the other.
pub open spec fn domains_overlap_spec(a: Seq<u8>, b: Seq<u8>) -> bool {
    let ca = crate::dns::lower_bytes(crate::config::trim_dots_end_spec(a));
    let cb = crate::dns::lower_bytes(crate::config::trim_dots_end_spec(b));
    ca == cb || label_suffix_spec(ca, cb) || label_suffix_spec(cb, ca)
}

/// Whether the pair `(i, j)` of configured domains collides.
pub open spec fn overlap_pair(domains: Seq<String>, i: int, j: int) -> bool {
    domains_overlap_spec(
        vstd::utf8::encode_utf8(domains[i]@),
        vstd::utf8::encode_utf8(domains[j]@),
    )
}

/// How many partners from `j` on collide with domain `i`.
pub open spec fn overlap_row_count(domains: Seq<String>, i: int, j: int) -> int
    decreases domains.len() - j,
{
    if j < 0 || j >= domains.len() {
        0int
    } else {
        (if overlap_pair(domains, i, j) {
            1int
        } else {
            0int
        }) + overlap_row_count(domains, i, j + 1)
    }
}

/// How many colliding pairs `(a, b)` with `i <= a < b` the list holds.
pub open spec fn overlap_total_count(domains: Seq<String>, i: int) -> int
    decreases domains.len() - i,
{
    if i < 0 || i >= domains.len() {
        0int
    } else {
        overlap_row_count(domains, i, i + 1) + overlap_total_count(domains, i + 1)
    }
}

/// Collect one warning for each pair of configured domains that are equal
/// or where one is a proper label-suffix of the other, and none otherwise;
/// the longest suffix wins at lookup time, so overlap deserves the
/// operator's attention.
pub fn warn_overlapping_domains(domains: &[String]) -> (r: Vec<String>)
    ensures
        r@.len() == overlap_total_count(domains@, 0),
        r@.len() > 0 <==> exists|i: int, j: int|
            0 <= i < j < domains@.len() && domains_overlap_spec(
                vstd::utf8::encode_utf8((#[trigger] domains@[i])@),
                vstd::utf8::encode_utf8((#[trigger] domains@[j])@),
            ),
{
    let mut warnings: Vec<String> = Vec::new();
    let n = domains.len();
    if n < 2 {
        proof {
            assert forall|i: int, j: int|
                !(0 <= i < j < domains@.len() && domains_overlap_spec(
                    vstd::utf8::encode_utf8((#[trigger] domains@[i])@),
                    vstd::utf8::encode_utf8((#[trigger] domains@[j])@),
                )) by {}
            if n == 1 {
                assert(overlap_row_count(domains@, 0, 1) == 0);
                assert(overlap_total_count(domains@, 1) == 0);
            }
            assert(overlap_total_count(domains@, 0) == 0);
        }
        return warnings;
    }
    let mut i: usize = 0;
    while i < n
        invariant
            n == domains@.len(),
            0 <= i <= n,
            warnings@.len() + overlap_total_count(domains@, i as int) == overlap_total_count(
                domains@,
                0,
            ),
            warnings@.len() > 0 <==> exists|a: int, b: int|
                0 <= a < b < domains@.len() && a < i && domains_overlap_spec(
                    vstd::utf8::encode_utf8((#[trigger] domains@[a])@),
                    vstd::utf8::encode_utf8((#[trigger] domains@[b])@),
                ),
        decreases n - i,
    {
        let mut j: usize = i + 1;
        while j < n
            invariant
                n == domains@.len(),
                0 <= i < j <= n,
                warnings@.len() + overlap_row_count(domains@, i as int, j as int)
                    + overlap_total_count(domains@, i as int + 1) == overlap_total_count(
                    domains@,
                    0,
                ),
                warnings@.len() > 0 <==> exists|a: int, b: int|
                    0 <= a < b < domains@.len() && (a < i || (a == i && b < j))
                        && domains_overlap_spec(
                        vstd::utf8::encode_utf8((#[trigger] domains@[a])@),
                        vstd::utf8::encode_utf8((#[trigger] domains@[b])@),
                    ),
            decreases n - j,
        {
            let ca = canonical_domain(domains[i].as_str());
            let cb = canonical_domain(domains[j].as_str());
            let ghost ea = vstd::utf8::encode_utf8(domains@[i as int]@);
            let ghost eb = vstd::utf8::encode_utf8(domains@[j as int]@);
            let equal = byte_vecs_equal(&ca, &cb);
            let sa = label_suffix_bytes(&ca, &cb);
            let sb = label_suffix_bytes(&cb, &ca);
            if equal || sa || sb {
                let mut m = String::from_str(
                    if equal {
                        "Duplicate domain configured: "
                    } else {
                        "Configured domains overlap; longest suffix wins: "
                    },
                );
                m.append(domains[i].as_str());
                m.append(" and ");
                m.append(domains[j].as_str());
                warnings.push(m);
                proof {
                    assert(domains_overlap_spec(ea, eb));
                    assert(overlap_pair(domains@, i as int, j as int));
                }
            } else {
                proof {
                    assert(!domains_overlap_spec(ea, eb));
                    assert(!overlap_pair(domains@, i as int, j as int));
                }
            }
            j += 1;
        }
        proof {
            assert(overlap_row_count(domains@, i as int, n as int) == 0);
        }
        i += 1;
    }
    proof {
        assert(overlap_total_count(domains@, n as int) == 0);
    }
    warnings
}

/// Compare two byte vectors for equality.
fn byte_vecs_equal(a: &Vec<u8>, b: &Vec<u8>) -> (r: bool)
    ensures
        r == (a@ == b@),
{
    if a.len() != b.len() {
        return false;
    }
    let n = a.len();
    let mut i: usize = 0;
    while i < n
        invariant
            n == a@.len() == b@.len(),
            0 <= i <= n,
            forall|k: int| 0 <= k < i ==> a@[k] == b@[k],
        decreases n - i,
    {
        if a[i] != b[i] {
            return false;
        }
        i += 1;
    }
    proof {
        assert(a@ =~= b@);
    }
    true
}

/// Whether `suffix` is a proper label-suffix of `domain`, on bytes.
fn label_suffix_bytes(domain: &Vec<u8>, suffix: &Vec<u8>) -> (r: bool)
    ensures
        r == label_suffix_spec(domain@, suffix@),
{
    let dn = domain.len();
    let sn = suffix.len();
    if dn <= sn {
        return false;
    }
    let off = dn - sn;
    let mut i: usize = 0;
    while i < sn
        invariant
            dn == domain@.len(),
            sn == suffix@.len(),
            dn > sn,
            off == dn - sn,
            0 <= i <= sn,
            forall|k: int| 0 <= k < i ==> domain@[off + k] == suffix@[k],
        decreases sn - i,
    {
        if domain[off + i] != suffix[i] {
            proof {
                assert(domain@.skip(off as int)[i as int] == domain@[off + i]);
            }
            return false;
        }
        i += 1;
    }
    proof {
        assert(domain@.skip(off as int) =~= suffix@);
    }
    domain[off - 1] == 0x2e
}

} // verus!
