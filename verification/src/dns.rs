//! DNS message codec for the tunnel.
//!
//! Queries carry binary payloads in the question's owner name: the payload
//! is hex-encoded, chopped into labels of at most 63 octets, and suffixed
//! with a configured domain, keeping the whole name within 255 octets.
//! Responses echo the question and carry the return payload in the
//! character-strings of a single `TXT` record. Everything here works on
//! plain bytes; sockets and the QUIC endpoint stay outside the library.

use vstd::prelude::*;
use vstd::string::StringSliceAdditionalSpecFns;

verus! {

/// Resource record type for `TXT`.
pub const RR_TXT: u16 = 16;

/// DNS class `IN`.
pub const CLASS_IN: u16 = 1;

/// Largest wire length of a DNS name, octets.
pub const MAX_NAME_WIRE: usize = 255;

/// Largest length of one DNS label, octets.
pub const MAX_LABEL_LEN: usize = 63;

/// DNS response codes the tunnel uses.
#[derive(Debug, Clone, Copy, PartialEq, Eq)]
pub enum Rcode {
    /// `NOERROR`: success, possibly with an empty payload.
    NoError,
    /// `FORMERR`: the query could not be parsed.
    FormErr,
    /// `SERVFAIL`: the server failed internally.
    ServFail,
    /// `NXDOMAIN`: the name belongs to no configured domain.
    NxDomain,
    /// `NOTIMP`: the operation is not supported.
    NotImp,
    /// `REFUSED`: the query asks for something the server does not serve.
    Refused,
}

/// The numeric code of an `Rcode`.
pub open spec fn rcode_code_spec(rc: Rcode) -> u16 {
    match rc {
        Rcode::NoError => 0,
        Rcode::FormErr => 1,
        Rcode::ServFail => 2,
        Rcode::NxDomain => 3,
        Rcode::NotImp => 4,
        Rcode::Refused => 5,
    }
}

impl Rcode {
    /// The numeric code carried in the header's low four bits.
    pub fn code(self) -> (r: u16)
        ensures
            r == rcode_code_spec(self),
            r <= 5,
    {
        match self {
            Rcode::NoError => 0,
            Rcode::FormErr => 1,
            Rcode::ServFail => 2,
            Rcode::NxDomain => 3,
            Rcode::NotImp => 4,
            Rcode::Refused => 5,
        }
    }
}

/// A 16-bit big-endian value read at `pos`.
pub open spec fn be16_spec(b: Seq<u8>, pos: int) -> u16
    recommends
        0 <= pos,
        pos + 2 <= b.len(),
{
    (b[pos] as u16 * 256 + b[pos + 1] as u16) as u16
}

/// The two big-endian bytes of a 16-bit value.
pub open spec fn u16_bytes_spec(x: u16) -> Seq<u8> {
    seq![(x / 256) as u8, (x % 256) as u8]
}

/// Reading back the two bytes of a value gives the value.
pub proof fn lemma_u16_bytes_roundtrip(x: u16)
    ensures
        be16_spec(u16_bytes_spec(x), 0) == x,
{
    assert(x / 256 * 256 + x % 256 == x) by (nonlinear_arith);
}

/// Write a 16-bit value big-endian.
fn push_u16(out: &mut Vec<u8>, x: u16)
    ensures
        final(out)@ == old(out)@ + u16_bytes_spec(x),
{
    out.push((x / 256) as u8);
    out.push((x % 256) as u8);
    proof {
        assert(final(out)@ =~= old(out)@ + u16_bytes_spec(x));
    }
}

/// Header flags of a query: `QR = 0`, opcode 0, optionally `RD` and `CD`.
pub open spec fn query_flags_spec(rd: bool, cd: bool) -> u16 {
    ((if rd {
        0x100int
    } else {
        0int
    }) + (if cd {
        0x10int
    } else {
        0int
    })) as u16
}

/// Header flags of a response: `QR = 1`, `AA = 1`, echoed `RD` and `CD`,
/// and the response code in the low bits.
pub open spec fn response_flags_spec(rd: bool, cd: bool, rcode: u16) -> u16
    recommends
        rcode <= 15,
{
    (0x8000 + 0x400 + (if rd {
        0x100int
    } else {
        0int
    }) + (if cd {
        0x10int
    } else {
        0int
    }) + rcode) as u16
}

/// `QR`: the message is a response.
pub open spec fn flags_qr(f: u16) -> bool {
    f >= 0x8000
}

/// The opcode field, bits 11 to 14.
pub open spec fn flags_opcode(f: u16) -> u16 {
    ((f as int / 0x800) % 0x10) as u16
}

/// `RD`: recursion desired.
pub open spec fn flags_rd(f: u16) -> bool {
    (f as int / 0x100) % 2 == 1
}

/// `CD`: checking disabled.
pub open spec fn flags_cd(f: u16) -> bool {
    (f as int / 0x10) % 2 == 1
}

/// The response code, low four bits.
pub open spec fn flags_rcode(f: u16) -> u16 {
    (f as int % 0x10) as u16
}

/// Query flags read back as written: not a response, opcode zero, and the
/// two echoed bits.
pub proof fn lemma_query_flags_roundtrip(rd: bool, cd: bool)
    ensures
        !flags_qr(query_flags_spec(rd, cd)),
        flags_opcode(query_flags_spec(rd, cd)) == 0,
        flags_rd(query_flags_spec(rd, cd)) == rd,
        flags_cd(query_flags_spec(rd, cd)) == cd,
{
    let f = query_flags_spec(rd, cd) as int;
    let rdb: int = if rd {
        1
    } else {
        0
    };
    let cdb: int = if cd {
        1
    } else {
        0
    };
    vstd::arithmetic::div_mod::lemma_fundamental_div_mod_converse(f, 0x800, 0, f);
    vstd::arithmetic::div_mod::lemma_fundamental_div_mod_converse(f, 0x100, rdb, cdb * 0x10);
    vstd::arithmetic::div_mod::lemma_fundamental_div_mod_converse(f, 0x10, rdb * 0x10 + cdb, 0);
    vstd::arithmetic::div_mod::lemma_mod_bound(rdb, 2);
    assert(rdb % 2 == rdb);
    assert((rdb * 0x10 + cdb) % 2 == cdb) by (nonlinear_arith)
        requires
            0 <= cdb < 2,
            0 <= rdb < 2,
    ;
}

/// Response flags read back as written.
pub proof fn lemma_response_flags_roundtrip(rd: bool, cd: bool, rcode: u16)
    requires
        rcode <= 15,
    ensures
        flags_qr(response_flags_spec(rd, cd, rcode)),
        flags_rd(response_flags_spec(rd, cd, rcode)) == rd,
        flags_cd(response_flags_spec(rd, cd, rcode)) == cd,
        flags_rcode(response_flags_spec(rd, cd, rcode)) == rcode,
{
    let f = response_flags_spec(rd, cd, rcode) as int;
    let rdb: int = if rd {
        1
    } else {
        0
    };
    let cdb: int = if cd {
        1
    } else {
        0
    };
    vstd::arithmetic::div_mod::lemma_fundamental_div_mod_converse(
        f,
        0x100,
        0x84 + rdb,
        cdb * 0x10 + rcode,
    );
    vstd::arithmetic::div_mod::lemma_fundamental_div_mod_converse(
        f,
        0x10,
        0x840 + rdb * 0x10 + cdb,
        rcode as int,
    );
    assert((0x84 + rdb) % 2 == rdb) by (nonlinear_arith)
        requires
            0 <= rdb < 2,
    ;
    assert((0x840 + rdb * 0x10 + cdb) % 2 == cdb) by (nonlinear_arith)
        requires
            0 <= cdb < 2,
            0 <= rdb < 2,
    ;
    vstd::arithmetic::div_mod::lemma_fundamental_div_mod_converse(
        f,
        0x8000,
        1,
        f - 0x8000,
    );
}

/// The hex character for a nibble, lower case.
pub open spec fn hex_digit_spec(n: int) -> u8
    recommends
        0 <= n < 16,
{
    if n < 10 {
        (0x30 + n) as u8
    } else {
        (0x61 + n - 10) as u8
    }
}

/// Whether a byte is an ASCII hex digit, either case.
pub open spec fn is_hex_digit(b: u8) -> bool {
    (0x30 <= b <= 0x39) || (0x61 <= b <= 0x66) || (0x41 <= b <= 0x46)
}

/// The value of an ASCII hex digit, either case.
pub open spec fn hex_val_spec(b: u8) -> int
    recommends
        is_hex_digit(b),
{
    if 0x30 <= b <= 0x39 {
        b - 0x30
    } else if 0x61 <= b <= 0x66 {
        b - 0x61 + 10
    } else {
        b - 0x41 + 10
    }
}

/// The lower-case hex spelling of a byte string, two digits per byte.
pub open spec fn hex_of_bytes(b: Seq<u8>) -> Seq<u8>
    decreases b.len(),
{
    if b.len() == 0 {
        Seq::empty()
    } else {
        seq![hex_digit_spec(b[0] as int / 16), hex_digit_spec(b[0] as int % 16)]
            + hex_of_bytes(b.skip(1))
    }
}

/// The bytes spelled by a hex string, read two digits at a time.
pub open spec fn bytes_of_hex(s: Seq<u8>) -> Seq<u8>
    decreases s.len(),
{
    if s.len() < 2 {
        Seq::empty()
    } else {
        seq![(hex_val_spec(s[0]) * 16 + hex_val_spec(s[1])) as u8] + bytes_of_hex(s.skip(2))
    }
}

/// Every character of a hex spelling is a hex digit, and there are two
/// per byte.
pub proof fn lemma_hex_of_bytes_wf(b: Seq<u8>)
    ensures
        hex_of_bytes(b).len() == 2 * b.len(),
        forall|i: int| 0 <= i < 2 * b.len() ==> is_hex_digit(#[trigger] hex_of_bytes(b)[i]),
    decreases b.len(),
{
    if b.len() > 0 {
        lemma_hex_of_bytes_wf(b.skip(1));
    }
}

/// Hex encoding then decoding gives the bytes back.
pub proof fn lemma_hex_roundtrip(b: Seq<u8>)
    ensures
        bytes_of_hex(hex_of_bytes(b)) == b,
    decreases b.len(),
{
    if b.len() == 0 {
        assert(bytes_of_hex(hex_of_bytes(b)) =~= b);
    } else {
        lemma_hex_roundtrip(b.skip(1));
        lemma_hex_of_bytes_wf(b.skip(1));
        let h = hex_of_bytes(b);
        let v = b[0] as int;
        let hi = v / 16;
        let lo = v % 16;
        vstd::arithmetic::div_mod::lemma_mod_bound(v, 16);
        assert(0 <= hi < 16) by (nonlinear_arith)
            requires
                hi == v / 16,
                0 <= v < 256,
        ;
        assert(hex_val_spec(hex_digit_spec(hi)) == hi);
        assert(hex_val_spec(hex_digit_spec(lo)) == lo);
        vstd::arithmetic::div_mod::lemma_fundamental_div_mod(v, 16);
        assert(hi * 16 + lo == v);
        assert(h.skip(2) =~= hex_of_bytes(b.skip(1)));
        assert(bytes_of_hex(h) =~= b);
    }
}

/// Hex encoding distributes over concatenation.
pub proof fn lemma_hex_of_bytes_concat(a: Seq<u8>, b: Seq<u8>)
    ensures
        hex_of_bytes(a + b) == hex_of_bytes(a) + hex_of_bytes(b),
    decreases a.len(),
{
    if a.len() == 0 {
        assert(a + b =~= b);
        assert(hex_of_bytes(a) + hex_of_bytes(b) =~= hex_of_bytes(b));
    } else {
        lemma_hex_of_bytes_concat(a.skip(1), b);
        assert((a + b).skip(1) =~= a.skip(1) + b);
        assert(hex_of_bytes(a + b) =~= hex_of_bytes(a) + hex_of_bytes(b));
    }
}

/// The labels of a name, without the root: each label's bytes prefixed by
/// its length.
pub open spec fn labels_wire(labels: Seq<Seq<u8>>) -> Seq<u8>
    decreases labels.len(),
{
    if labels.len() == 0 {
        Seq::empty()
    } else {
        seq![labels[0].len() as u8] + labels[0] + labels_wire(labels.skip(1))
    }
}

/// The wire form of a whole name: the labels followed by the root label.
pub open spec fn name_wire(labels: Seq<Seq<u8>>) -> Seq<u8> {
    labels_wire(labels) + seq![0u8]
}

/// Every label fits the DNS label limit and is not empty.
pub open spec fn labels_wf(labels: Seq<Seq<u8>>) -> bool {
    forall|i: int| 0 <= i < labels.len() ==> 1 <= (#[trigger] labels[i]).len() <= MAX_LABEL_LEN
}

/// Label wires concatenate.
pub proof fn lemma_labels_wire_concat(a: Seq<Seq<u8>>, b: Seq<Seq<u8>>)
    ensures
        labels_wire(a + b) == labels_wire(a) + labels_wire(b),
    decreases a.len(),
{
    if a.len() == 0 {
        assert(a + b =~= b);
        assert(labels_wire(a) + labels_wire(b) =~= labels_wire(b));
    } else {
        lemma_labels_wire_concat(a.skip(1), b);
        assert((a + b).skip(1) =~= a.skip(1) + b);
        assert((a + b)[0] == a[0]);
        assert(labels_wire(a + b) =~= labels_wire(a) + labels_wire(b));
    }
}

/// The wire of a single label: its length octet then its bytes.
pub proof fn lemma_labels_wire_single(l: Seq<u8>)
    ensures
        labels_wire(seq![l]) == seq![l.len() as u8] + l,
{
    let s1 = seq![l];
    assert(s1.skip(1) =~= Seq::<Seq<u8>>::empty());
    assert(labels_wire(s1.skip(1)) == Seq::<u8>::empty());
    assert(labels_wire(s1) =~= seq![l.len() as u8] + l);
}

/// The hex spelling of a single byte: its two digits.
pub proof fn lemma_hex_single(v: u8)
    ensures
        hex_of_bytes(seq![v]) == seq![hex_digit_spec(v as int / 16), hex_digit_spec(v as int % 16)],
{
    let s1 = seq![v];
    assert(s1.skip(1) =~= Seq::<u8>::empty());
    assert(hex_of_bytes(s1.skip(1)) == Seq::<u8>::empty());
    assert(hex_of_bytes(s1) =~= seq![
        hex_digit_spec(v as int / 16),
        hex_digit_spec(v as int % 16),
    ]);
}

/// The dotted text form of labels: label bytes joined by dots.
pub open spec fn dotted_name(labels: Seq<Seq<u8>>) -> Seq<u8>
    decreases labels.len(),
{
    if labels.len() == 0 {
        Seq::empty()
    } else if labels.len() == 1 {
        labels[0]
    } else {
        labels[0] + seq![0x2eu8] + dotted_name(labels.skip(1))
    }
}

/// Split a byte string on dots, structurally from the front. The empty
/// string yields one empty label, as `str::split('.')` does.
pub open spec fn split_dots(s: Seq<u8>) -> Seq<Seq<u8>>
    decreases s.len(),
{
    if s.len() == 0 {
        seq![Seq::<u8>::empty()]
    } else {
        let rest = split_dots(s.skip(1));
        if s[0] == 0x2eu8 {
            seq![Seq::<u8>::empty()] + rest
        } else {
            seq![seq![s[0]] + rest[0]] + rest.skip(1)
        }
    }
}

/// A split has at least one label.
pub proof fn lemma_split_dots_len(s: Seq<u8>)
    ensures
        split_dots(s).len() >= 1,
    decreases s.len(),
{
    if s.len() > 0 {
        lemma_split_dots_len(s.skip(1));
    }
}

/// No byte of a label is a dot.
pub open spec fn label_dot_free(l: Seq<u8>) -> bool {
    forall|j: int| 0 <= j < l.len() ==> (#[trigger] l[j]) != 0x2eu8
}

/// Joining a split with dots gives the string back, and no label holds a
/// dot.
pub proof fn lemma_split_dots_join(s: Seq<u8>)
    ensures
        dotted_name(split_dots(s)) == s,
        forall|i: int| 0 <= i < split_dots(s).len() ==> label_dot_free(#[trigger] split_dots(s)[i]),
    decreases s.len(),
{
    lemma_split_dots_len(s);
    if s.len() == 0 {
    } else {
        lemma_split_dots_join(s.skip(1));
        lemma_split_dots_len(s.skip(1));
        let rest = split_dots(s.skip(1));
        if s[0] == 0x2eu8 {
            let whole = seq![Seq::<u8>::empty()] + rest;
            assert(whole.skip(1) =~= rest);
            assert(dotted_name(whole) =~= s);
        } else {
            let whole = seq![seq![s[0]] + rest[0]] + rest.skip(1);
            if rest.len() == 1 {
                assert(whole.len() == 1);
                assert(dotted_name(rest) == rest[0]);
                assert(dotted_name(whole) == seq![s[0]] + rest[0]);
                assert(dotted_name(whole) =~= s);
            } else {
                assert(whole.skip(1) =~= rest.skip(1));
                assert(dotted_name(rest) == rest[0] + seq![0x2eu8] + dotted_name(rest.skip(1)));
                assert(dotted_name(whole) == whole[0] + seq![0x2eu8] + dotted_name(whole.skip(1)));
                assert(whole[0] =~= seq![s[0]] + rest[0]);
                assert(s =~= seq![s[0]] + s.skip(1));
                assert(s.skip(1) == rest[0] + seq![0x2eu8] + dotted_name(rest.skip(1)));
                assert(dotted_name(whole) =~= s);
            }
            assert forall|i: int| 0 <= i < whole.len() implies label_dot_free(
                #[trigger] whole[i],
            ) by {
                if i == 0 {
                    assert(label_dot_free(rest[0]));
                    assert forall|j: int| 0 <= j < whole[0].len() implies (#[trigger] whole[0][j])
                        != 0x2eu8 by {
                        if j > 0 {
                            assert(whole[0][j] == rest[0][j - 1]);
                        }
                    }
                } else {
                    assert(whole[i] == rest[i]);
                }
            }
        }
    }
}

/// Bytes reinterpreted as characters, one each.
pub open spec fn bytes_as_chars(s: Seq<u8>) -> Seq<char> {
    Seq::new(s.len(), |i: int| s[i] as char)
}

/// Relies on String::from_utf8_lossy: ASCII bytes decode to the chars
/// with the same code points.
#[verifier::external_body]
pub(crate) fn ascii_bytes_to_string(bytes: &[u8]) -> (r: String)
    requires
        forall|i: int| 0 <= i < bytes@.len() ==> bytes@[i] < 128,
    ensures
        r@ == bytes_as_chars(bytes@),
{
    String::from_utf8_lossy(bytes).into_owned()
}

/// A vector of byte vectors as a sequence of byte sequences.
pub open spec fn labels_view(v: Seq<Vec<u8>>) -> Seq<Seq<u8>> {
    Seq::new(v.len(), |i: int| v[i]@)
}

/// Split a byte slice on dots, starting at `pos`.
fn split_from(s: &[u8], pos: usize) -> (r: Vec<Vec<u8>>)
    requires
        pos <= s@.len(),
    ensures
        labels_view(r@) == split_dots(s@.skip(pos as int)),
        r@.len() >= 1,
    decreases s@.len() - pos,
{
    if pos == s.len() {
        let mut v: Vec<Vec<u8>> = Vec::new();
        v.push(Vec::new());
        proof {
            assert(s@.skip(pos as int) =~= Seq::<u8>::empty());
            assert(labels_view(v@) =~= split_dots(s@.skip(pos as int)));
        }
        v
    } else {
        let mut rest = split_from(s, pos + 1);
        let ghost tail = s@.skip(pos as int + 1);
        proof {
            assert(s@.skip(pos as int)[0] == s@[pos as int]);
            assert(s@.skip(pos as int).skip(1) =~= tail);
        }
        if s[pos] == 0x2e {
            rest.insert(0, Vec::new());
            proof {
                assert(labels_view(rest@) =~= seq![Seq::<u8>::empty()] + split_dots(tail));
            }
            rest
        } else {
            let mut first = rest.remove(0);
            first.insert(0, s[pos]);
            proof {
                assert(first@ =~= seq![s@[pos as int]] + split_dots(tail)[0]);
            }
            rest.insert(0, first);
            proof {
                assert(labels_view(rest@) =~= seq![seq![s@[pos as int]] + split_dots(tail)[0]]
                    + split_dots(tail).skip(1));
            }
            rest
        }
    }
}

/// Split a byte slice on dots.
fn split_bytes_on_dots(s: &[u8]) -> (r: Vec<Vec<u8>>)
    ensures
        labels_view(r@) == split_dots(s@),
        r@.len() >= 1,
{
    let r = split_from(s, 0);
    proof {
        assert(s@.skip(0) =~= s@);
    }
    r
}

/// Hex-encode bytes, two lower-case digits per byte.
fn hex_encode(b: &[u8]) -> (r: Vec<u8>)
    ensures
        r@ == hex_of_bytes(b@),
{
    let mut out: Vec<u8> = Vec::new();
    let n = b.len();
    let mut i: usize = 0;
    proof {
        assert(b@.take(0) =~= Seq::<u8>::empty());
    }
    while i < n
        invariant
            n == b@.len(),
            0 <= i <= n,
            out@ == hex_of_bytes(b@.take(i as int)),
        decreases n - i,
    {
        let v = b[i];
        let hi: u8 = v / 16;
        let lo: u8 = v % 16;
        out.push(if hi < 10 {
            0x30 + hi
        } else {
            0x61 + hi - 10
        });
        out.push(if lo < 10 {
            0x30 + lo
        } else {
            0x61 + lo - 10
        });
        proof {
            lemma_hex_of_bytes_concat(b@.take(i as int), seq![b@[i as int]]);
            lemma_hex_single(b@[i as int]);
            assert(b@.take(i as int + 1) =~= b@.take(i as int) + seq![b@[i as int]]);
            assert(out@ =~= hex_of_bytes(b@.take(i as int + 1)));
        }
        i += 1;
    }
    proof {
        assert(b@.take(n as int) =~= b@);
    }
    out
}

/// The hex string of a payload chopped into labels of at most 63 octets.
pub open spec fn chunks63(s: Seq<u8>) -> Seq<Seq<u8>>
    decreases s.len(),
{
    if s.len() == 0 {
        Seq::empty()
    } else if s.len() <= 63 {
        seq![s]
    } else {
        seq![s.take(63)] + chunks63(s.skip(63))
    }
}

/// Chunks carry every byte, in order, in labels of one to 63 octets, and
/// their wire cost is the byte count plus one length octet per label.
pub proof fn lemma_chunks63_wf(s: Seq<u8>)
    ensures
        labels_wf(chunks63(s)),
        labels_wire(chunks63(s)).len() == s.len() + chunks63(s).len(),
        chunks63(s).len() == (s.len() + 62) / 63,
    decreases s.len(),
{
    if s.len() == 0 {
    } else if s.len() <= 63 {
        lemma_labels_wire_single(s);
    } else {
        lemma_chunks63_wf(s.skip(63));
        lemma_labels_wire_concat(seq![s.take(63)], chunks63(s.skip(63)));
        lemma_labels_wire_single(s.take(63));
        assert(labels_wire(seq![s.take(63)]) =~= seq![63u8] + s.take(63));
        assert((s.len() + 62) / 63 == 1 + (s.len() - 63 + 62) / 63) by {
            let l = s.len() as int;
            vstd::arithmetic::div_mod::lemma_fundamental_div_mod(l - 1, 63);
            vstd::arithmetic::div_mod::lemma_mod_bound(l - 1, 63);
            vstd::arithmetic::div_mod::lemma_fundamental_div_mod_converse(
                l + 62,
                63,
                (l - 1) / 63 + 1,
                (l - 1) % 63,
            );
        }
        assert forall|i: int| 0 <= i < chunks63(s).len() implies 1 <= (#[trigger] chunks63(
            s,
        )[i]).len() <= MAX_LABEL_LEN by {
            if i > 0 {
                assert(chunks63(s)[i] == chunks63(s.skip(63))[i - 1]);
            }
        }
    }
}

/// Concatenating the chunks gives the string back.
pub proof fn lemma_chunks63_concat(s: Seq<u8>)
    ensures
        concat_labels(chunks63(s)) == s,
    decreases s.len(),
{
    if s.len() == 0 {
        assert(concat_labels(chunks63(s)) =~= s);
    } else if s.len() <= 63 {
        lemma_concat_labels_single(s);
    } else {
        lemma_chunks63_concat(s.skip(63));
        assert(chunks63(s).skip(1) =~= chunks63(s.skip(63)));
        assert(chunks63(s)[0] == s.take(63));
        assert(concat_labels(chunks63(s)) =~= s);
    }
}

/// The bytes of all labels, concatenated without separators.
pub open spec fn concat_labels(ls: Seq<Seq<u8>>) -> Seq<u8>
    decreases ls.len(),
{
    if ls.len() == 0 {
        Seq::empty()
    } else {
        ls[0] + concat_labels(ls.skip(1))
    }
}

/// Label concatenation distributes over appending label lists.
pub proof fn lemma_concat_labels_concat(a: Seq<Seq<u8>>, b: Seq<Seq<u8>>)
    ensures
        concat_labels(a + b) == concat_labels(a) + concat_labels(b),
    decreases a.len(),
{
    if a.len() == 0 {
        assert(a + b =~= b);
        assert(concat_labels(a) + concat_labels(b) =~= concat_labels(b));
    } else {
        lemma_concat_labels_concat(a.skip(1), b);
        assert((a + b).skip(1) =~= a.skip(1) + b);
        assert((a + b)[0] == a[0]);
        assert(concat_labels(a + b) =~= concat_labels(a) + concat_labels(b));
    }
}

/// The concatenation of a single label is the label.
pub proof fn lemma_concat_labels_single(l: Seq<u8>)
    ensures
        concat_labels(seq![l]) == l,
{
    let s1 = seq![l];
    assert(s1.skip(1) =~= Seq::<Seq<u8>>::empty());
    assert(concat_labels(s1.skip(1)) == Seq::<u8>::empty());
    assert(concat_labels(s1) =~= l);
}

/// Errors from building or encoding DNS messages.
#[derive(Debug, Clone, Copy, PartialEq, Eq, Structural)]
pub enum DnsError {
    /// A label is empty or longer than 63 octets, or a name is not ASCII.
    BadLabel,
    /// The name would exceed 255 octets on the wire.
    NameTooLong,
    /// The payload does not fit one query under this domain.
    PayloadTooLarge,
}

/// The question of a query: its owner name as labels, its type and class.
#[derive(Debug, Clone)]
pub struct Question {
    /// The owner name's labels, root omitted.
    pub labels: Vec<Vec<u8>>,
    /// The query type.
    pub qtype: u16,
    /// The query class.
    pub qclass: u16,
}

impl Question {
    /// The labels as byte sequences.
    pub open spec fn labels_seq(&self) -> Seq<Seq<u8>> {
        labels_view(self.labels@)
    }
}

/// What a query is built from.
pub struct QueryParams<'a> {
    /// The DNS message id.
    pub id: u16,
    /// The owner name in dotted text form.
    pub qname: &'a str,
    /// The query type.
    pub qtype: u16,
    /// The query class.
    pub qclass: u16,
    /// Recursion desired.
    pub rd: bool,
    /// Checking disabled.
    pub cd: bool,
}

/// The wire bytes of a query with one question.
pub open spec fn query_wire_spec(
    id: u16,
    rd: bool,
    cd: bool,
    labels: Seq<Seq<u8>>,
    qtype: u16,
    qclass: u16,
) -> Seq<u8> {
    u16_bytes_spec(id) + u16_bytes_spec(query_flags_spec(rd, cd)) + u16_bytes_spec(1)
        + u16_bytes_spec(0) + u16_bytes_spec(0) + u16_bytes_spec(0) + name_wire(labels)
        + u16_bytes_spec(qtype) + u16_bytes_spec(qclass)
}

/// Write the labels of a name followed by the root label.
fn push_name(out: &mut Vec<u8>, labels: &Vec<Vec<u8>>)
    requires
        labels_wf(labels_view(labels@)),
    ensures
        final(out)@ == old(out)@ + name_wire(labels_view(labels@)),
{
    let ghost ls = labels_view(labels@);
    let n = labels.len();
    let mut i: usize = 0;
    proof {
        assert(labels_wire(ls.take(0)) =~= Seq::<u8>::empty());
        assert(out@ =~= old(out)@ + labels_wire(ls.take(0)));
    }
    while i < n
        invariant
            n == labels@.len(),
            ls == labels_view(labels@),
            labels_wf(ls),
            0 <= i <= n,
            out@ == old(out)@ + labels_wire(ls.take(i as int)),
        decreases n - i,
    {
        let lab = &labels[i];
        proof {
            assert(ls[i as int] == lab@);
        }
        out.push(lab.len() as u8);
        let mut k: usize = 0;
        let m = lab.len();
        while k < m
            invariant
                m == lab@.len(),
                m <= MAX_LABEL_LEN,
                0 <= k <= m,
                out@ == old(out)@ + labels_wire(ls.take(i as int)) + seq![lab@.len() as u8]
                    + lab@.take(k as int),
            decreases m - k,
        {
            out.push(lab[k]);
            proof {
                assert(lab@.take(k as int + 1) =~= lab@.take(k as int) + seq![lab@[k as int]]);
                assert(out@ =~= old(out)@ + labels_wire(ls.take(i as int)) + seq![lab@.len() as u8]
                    + lab@.take(k as int + 1));
            }
            k += 1;
        }
        proof {
            lemma_labels_wire_concat(ls.take(i as int), seq![ls[i as int]]);
            lemma_labels_wire_single(ls[i as int]);
            assert(ls.take(i as int + 1) =~= ls.take(i as int) + seq![ls[i as int]]);
            assert(lab@.take(m as int) =~= lab@);
            assert(out@ =~= old(out)@ + labels_wire(ls.take(i as int + 1)));
        }
        i += 1;
    }
    out.push(0);
    proof {
        assert(ls.take(n as int) =~= ls);
        assert(out@ =~= old(out)@ + name_wire(ls));
    }
}

/// Encode a query with one question. Succeeds exactly when every label of
/// the dotted name is one to 63 octets and the name fits 255 octets on
/// the wire; the bytes are then the standard header followed by the
/// question.
pub fn encode_query(params: &QueryParams<'_>) -> (r: Result<Vec<u8>, DnsError>)
    ensures
        r is Ok <==> (labels_wf(split_dots(params.qname.spec_bytes())) && name_wire(
            split_dots(params.qname.spec_bytes()),
        ).len() <= MAX_NAME_WIRE),
        r matches Ok(v) ==> v@ == query_wire_spec(
            params.id,
            params.rd,
            params.cd,
            split_dots(params.qname.spec_bytes()),
            params.qtype,
            params.qclass,
        ),
        r matches Err(e) ==> (e == DnsError::BadLabel || e == DnsError::NameTooLong),
{
    let qb = params.qname.as_bytes();
    let labels = split_bytes_on_dots(qb);
    let ghost ls = split_dots(params.qname.spec_bytes());

    let n = labels.len();
    let mut wire_len: usize = 1;
    let mut i: usize = 0;
    while i < n
        invariant
            n == labels@.len(),
            ls == labels_view(labels@),
            ls == split_dots(params.qname.spec_bytes()),
            0 <= i <= n,
            forall|k: int| 0 <= k < i ==> 1 <= (#[trigger] ls[k]).len() <= MAX_LABEL_LEN,
            wire_len == labels_wire(ls.take(i as int)).len() + 1,
            wire_len <= MAX_NAME_WIRE,
        decreases n - i,
    {
        let lab_len = labels[i].len();
        if lab_len == 0 || lab_len > MAX_LABEL_LEN {
            proof {
                assert(ls[i as int] == labels@[i as int]@);
                assert(ls[i as int].len() == lab_len);
                assert(!(1 <= ls[i as int].len() <= MAX_LABEL_LEN));
                assert(!labels_wf(ls));
            }
            return Err(DnsError::BadLabel);
        }
        proof {
            lemma_labels_wire_concat(ls.take(i as int), seq![ls[i as int]]);
            lemma_labels_wire_single(ls[i as int]);
            assert(ls.take(i as int + 1) =~= ls.take(i as int) + seq![ls[i as int]]);
        }
        if MAX_NAME_WIRE - wire_len < 1 + lab_len {
            proof {
                lemma_labels_wire_concat(ls.take(i as int + 1), ls.skip(i as int + 1));
                assert(ls.take(i as int + 1) + ls.skip(i as int + 1) =~= ls);
                assert(name_wire(ls).len() > MAX_NAME_WIRE);
            }
            return Err(DnsError::NameTooLong);
        }
        wire_len = wire_len + 1 + lab_len;
        i += 1;
    }
    proof {
        assert(ls.take(n as int) =~= ls);
        assert(name_wire(ls).len() == wire_len);
    }

    let mut out: Vec<u8> = Vec::new();
    push_u16(&mut out, params.id);
    let flags: u16 = (if params.rd {
        0x100u16
    } else {
        0u16
    }) + (if params.cd {
        0x10u16
    } else {
        0u16
    });
    push_u16(&mut out, flags);
    push_u16(&mut out, 1);
    push_u16(&mut out, 0);
    push_u16(&mut out, 0);
    push_u16(&mut out, 0);
    push_name(&mut out, &labels);
    push_u16(&mut out, params.qtype);
    push_u16(&mut out, params.qclass);
    proof {
        assert(out@ =~= query_wire_spec(
            params.id,
            params.rd,
            params.cd,
            ls,
            params.qtype,
            params.qclass,
        ));
    }
    Ok(out)
}

/// Every byte is ASCII.
pub open spec fn bytes_lt128(s: Seq<u8>) -> bool {
    forall|i: int| 0 <= i < s.len() ==> (#[trigger] s[i]) < 128
}

/// Splitting keeps every label's bytes ASCII when the string's are.
pub proof fn lemma_split_dots_ascii(s: Seq<u8>)
    requires
        bytes_lt128(s),
    ensures
        forall|i: int| 0 <= i < split_dots(s).len() ==> bytes_lt128(#[trigger] split_dots(s)[i]),
    decreases s.len(),
{
    if s.len() > 0 {
        assert(bytes_lt128(s.skip(1)));
        lemma_split_dots_ascii(s.skip(1));
        let rest = split_dots(s.skip(1));
        lemma_split_dots_len(s.skip(1));
        if s[0] == 0x2eu8 {
            let whole = seq![Seq::<u8>::empty()] + rest;
            assert forall|i: int| 0 <= i < whole.len() implies bytes_lt128(#[trigger] whole[i]) by {
                if i > 0 {
                    assert(whole[i] == rest[i - 1]);
                }
            }
        } else {
            let whole = seq![seq![s[0]] + rest[0]] + rest.skip(1);
            assert forall|i: int| 0 <= i < whole.len() implies bytes_lt128(#[trigger] whole[i]) by {
                if i == 0 {
                    assert(bytes_lt128(rest[0]));
                    assert forall|j: int| 0 <= j < whole[0].len() implies (#[trigger] whole[0][j])
                        < 128 by {
                        if j > 0 {
                            assert(whole[0][j] == rest[0][j - 1]);
                        }
                    }
                } else {
                    assert(whole[i] == rest[i]);
                }
            }
        }
    }
}

/// Chopping into chunks keeps every chunk's bytes ASCII.
pub proof fn lemma_chunks63_ascii(s: Seq<u8>)
    requires
        bytes_lt128(s),
    ensures
        forall|i: int| 0 <= i < chunks63(s).len() ==> bytes_lt128(#[trigger] chunks63(s)[i]),
    decreases s.len(),
{
    if s.len() == 0 {
    } else if s.len() <= 63 {
    } else {
        assert(bytes_lt128(s.skip(63)));
        lemma_chunks63_ascii(s.skip(63));
        assert forall|i: int| 0 <= i < chunks63(s).len() implies bytes_lt128(
            #[trigger] chunks63(s)[i],
        ) by {
            if i > 0 {
                assert(chunks63(s)[i] == chunks63(s.skip(63))[i - 1]);
            } else {
                assert(bytes_lt128(s.take(63)));
            }
        }
    }
}

/// A dotted name is ASCII when its labels are.
pub proof fn lemma_dotted_ascii(ls: Seq<Seq<u8>>)
    requires
        forall|i: int| 0 <= i < ls.len() ==> bytes_lt128(#[trigger] ls[i]),
    ensures
        bytes_lt128(dotted_name(ls)),
    decreases ls.len(),
{
    if ls.len() <= 1 {
    } else {
        assert forall|i: int| 0 <= i < ls.skip(1).len() implies bytes_lt128(
            #[trigger] ls.skip(1)[i],
        ) by {
            assert(ls.skip(1)[i] == ls[i + 1]);
        }
        lemma_dotted_ascii(ls.skip(1));
        assert(bytes_lt128(ls[0]));
        let d = ls[0] + seq![0x2eu8] + dotted_name(ls.skip(1));
        assert forall|i: int| 0 <= i < d.len() implies (#[trigger] d[i]) < 128 by {
            if i < ls[0].len() {
                assert(d[i] == ls[0][i]);
            } else if i > ls[0].len() {
                assert(d[i] == dotted_name(ls.skip(1))[i - ls[0].len() - 1]);
            }
        }
    }
}

/// The hex spelling of any bytes is ASCII.
pub proof fn lemma_hex_ascii(b: Seq<u8>)
    ensures
        bytes_lt128(hex_of_bytes(b)),
{
    lemma_hex_of_bytes_wf(b);
    assert forall|i: int| 0 <= i < hex_of_bytes(b).len() implies (#[trigger] hex_of_bytes(b)[i])
        < 128 by {
        assert(is_hex_digit(hex_of_bytes(b)[i]));
    }
}

/// Appending a label to a non-empty name adds a dot and the label.
pub proof fn lemma_dotted_push(a: Seq<Seq<u8>>, l: Seq<u8>)
    requires
        a.len() >= 1,
    ensures
        dotted_name(a.push(l)) == dotted_name(a) + seq![0x2eu8] + l,
    decreases a.len(),
{
    if a.len() == 1 {
        assert(a.push(l).skip(1) =~= seq![l]);
        assert(dotted_name(seq![l]) == l);
        assert(dotted_name(a.push(l)) == a[0] + seq![0x2eu8] + l);
        assert(dotted_name(a) == a[0]);
    } else {
        lemma_dotted_push(a.skip(1), l);
        assert(a.push(l).skip(1) =~= a.skip(1).push(l));
        assert(dotted_name(a.push(l)) == a[0] + seq![0x2eu8] + dotted_name(a.skip(1).push(l)));
        assert(dotted_name(a.push(l)) =~= dotted_name(a) + seq![0x2eu8] + l);
    }
}

/// Two well-formed label lists concatenate to a well-formed one.
pub proof fn lemma_labels_wf_concat(a: Seq<Seq<u8>>, b: Seq<Seq<u8>>)
    requires
        labels_wf(a),
        labels_wf(b),
    ensures
        labels_wf(a + b),
{
    assert forall|i: int| 0 <= i < (a + b).len() implies 1 <= (#[trigger] (a + b)[i]).len()
        <= MAX_LABEL_LEN by {
        if i < a.len() {
            assert((a + b)[i] == a[i]);
        } else {
            assert((a + b)[i] == b[i - a.len()]);
        }
    }
}

/// The labels of a query name that carries `payload` under a domain: the
/// hex spelling chopped into labels, then the domain's labels.
pub open spec fn qname_labels_spec(payload: Seq<u8>, dlabels: Seq<Seq<u8>>) -> Seq<Seq<u8>> {
    chunks63(hex_of_bytes(payload)) + dlabels
}

/// Wire octets a name may spend on payload labels once the domain's
/// labels and the root are paid for.
pub open spec fn domain_budget_spec(dlabels: Seq<Seq<u8>>) -> int {
    254 - labels_wire(dlabels).len()
}

/// Wire octets the payload labels of a `p`-byte payload cost: two hex
/// digits per byte plus one length octet per label of 63 digits.
pub open spec fn hex_cost_spec(p: int) -> int {
    2 * p + (2 * p + 62) / 63
}

/// The payload cost grows with the payload.
pub proof fn lemma_hex_cost_mono(a: int, b: int)
    requires
        0 <= a <= b,
    ensures
        hex_cost_spec(a) <= hex_cost_spec(b),
{
    vstd::arithmetic::div_mod::lemma_div_is_ordered(2 * a + 62, 2 * b + 62, 63);
}

/// A payload within the domain's budget yields a well-formed name that
/// fits the wire limit.
pub proof fn lemma_qname_fits(payload: Seq<u8>, dlabels: Seq<Seq<u8>>)
    requires
        labels_wf(dlabels),
        hex_cost_spec(payload.len() as int) <= domain_budget_spec(dlabels),
    ensures
        labels_wf(qname_labels_spec(payload, dlabels)),
        name_wire(qname_labels_spec(payload, dlabels)).len() <= MAX_NAME_WIRE,
{
    let h = hex_of_bytes(payload);
    lemma_hex_of_bytes_wf(payload);
    lemma_chunks63_wf(h);
    lemma_labels_wf_concat(chunks63(h), dlabels);
    lemma_labels_wire_concat(chunks63(h), dlabels);
}

/// Build the dotted query name that carries a payload under a domain:
/// the payload's hex digits in labels of up to 63 octets, then the
/// domain. Succeeds exactly when the domain is ASCII with well-formed
/// labels and the payload fits the name's wire budget.
pub fn build_qname(payload: &[u8], domain: &str) -> (r: Result<String, DnsError>)
    ensures
        r is Ok <==> (domain.is_ascii() && labels_wf(split_dots(domain.spec_bytes()))
            && hex_cost_spec(payload@.len() as int) <= domain_budget_spec(
            split_dots(domain.spec_bytes()),
        )),
        r matches Ok(q) ==> q@ == bytes_as_chars(
            dotted_name(qname_labels_spec(payload@, split_dots(domain.spec_bytes()))),
        ),
{
    broadcast use vstd::string::is_ascii_spec_bytes;

    if !domain.is_ascii() {
        return Err(DnsError::BadLabel);
    }
    let db = domain.as_bytes();
    let dlabels = split_bytes_on_dots(db);
    let ghost dls = split_dots(domain.spec_bytes());
    proof {
        assert(bytes_lt128(domain.spec_bytes()));
        lemma_split_dots_ascii(domain.spec_bytes());
    }

    let n = dlabels.len();
    let mut dwire: usize = 0;
    let mut i: usize = 0;
    while i < n
        invariant
            n == dlabels@.len(),
            dls == labels_view(dlabels@),
            dls == split_dots(domain.spec_bytes()),
            0 <= i <= n,
            forall|k: int| 0 <= k < i ==> 1 <= (#[trigger] dls[k]).len() <= MAX_LABEL_LEN,
            dwire == labels_wire(dls.take(i as int)).len(),
            dwire <= 254,
        decreases n - i,
    {
        let lab_len = dlabels[i].len();
        if lab_len == 0 || lab_len > MAX_LABEL_LEN {
            proof {
                assert(dls[i as int] == dlabels@[i as int]@);
                assert(!(1 <= dls[i as int].len() <= MAX_LABEL_LEN));
                assert(!labels_wf(dls));
            }
            return Err(DnsError::BadLabel);
        }
        proof {
            lemma_labels_wire_concat(dls.take(i as int), seq![dls[i as int]]);
            lemma_labels_wire_single(dls[i as int]);
            assert(dls.take(i as int + 1) =~= dls.take(i as int) + seq![dls[i as int]]);
        }
        if 254 - dwire < 1 + lab_len {
            proof {
                lemma_labels_wire_concat(dls.take(i as int + 1), dls.skip(i as int + 1));
                assert(dls.take(i as int + 1) + dls.skip(i as int + 1) =~= dls);
                assert(labels_wire(dls).len() > 254);
                assert(hex_cost_spec(payload@.len() as int) >= 0);
            }
            return Err(DnsError::NameTooLong);
        }
        dwire = dwire + 1 + lab_len;
        i += 1;
    }
    proof {
        assert(dls.take(n as int) =~= dls);
        assert(labels_wire(dls).len() == dwire);
    }
    let budget: usize = 254 - dwire;

    if payload.len() > 126 {
        proof {
            lemma_hex_cost_mono(127, payload@.len() as int);
            assert(hex_cost_spec(127) == 259);
        }
        return Err(DnsError::PayloadTooLarge);
    }
    let p = payload.len();
    let cost: usize = 2 * p + (2 * p + 62) / 63;
    if cost > budget {
        return Err(DnsError::PayloadTooLarge);
    }

    let hexv = hex_encode(payload);
    let mut qlabels = chop63(&hexv);
    let ghost chunks = chunks63(hex_of_bytes(payload@));
    let mut j: usize = 0;
    let dn = dlabels.len();
    while j < dn
        invariant
            dn == dlabels@.len(),
            0 <= j <= dn,
            labels_view(qlabels@) == chunks + labels_view(dlabels@).take(j as int),
        decreases dn - j,
    {
        let lab = vstd::slice::slice_to_vec(dlabels[j].as_slice());
        proof {
            assert(lab@ == dlabels@[j as int]@);
        }
        let ghost oldq = qlabels@;
        qlabels.push(lab);
        proof {
            let lhs = labels_view(qlabels@);
            let rhs = chunks + labels_view(dlabels@).take(j as int + 1);
            assert(qlabels@ == oldq.push(lab));
            assert(labels_view(oldq) == chunks + labels_view(dlabels@).take(j as int));
            assert(labels_view(oldq).len() == oldq.len());
            assert(labels_view(dlabels@).take(j as int).len() == j);
            assert(oldq.len() == chunks.len() + j);
            assert(lhs.len() == rhs.len());
            assert forall|t: int| 0 <= t < lhs.len() implies lhs[t] == rhs[t] by {
                assert(lhs[t] == qlabels@[t]@);
                if t < oldq.len() {
                    assert(qlabels@[t] == oldq[t]);
                    assert(labels_view(oldq)[t] == oldq[t]@);
                    assert(labels_view(oldq)[t] == (chunks + labels_view(dlabels@).take(
                        j as int,
                    ))[t]);
                    if t < chunks.len() {
                        assert(rhs[t] == chunks[t]);
                    } else {
                        assert(rhs[t] == labels_view(dlabels@)[t - chunks.len()]);
                        assert((chunks + labels_view(dlabels@).take(j as int))[t] == labels_view(
                            dlabels@,
                        )[t - chunks.len()]);
                    }
                } else {
                    assert(t == oldq.len());
                    assert(qlabels@[t] == lab);
                    assert(rhs[t] == labels_view(dlabels@)[j as int]);
                }
            }
            assert(lhs =~= rhs);
        }
        j += 1;
    }
    proof {
        assert(labels_view(dlabels@).take(dn as int) =~= labels_view(dlabels@));
        assert(labels_view(qlabels@) == qname_labels_spec(payload@, dls));
    }

    let name = join_dotted(&qlabels);
    proof {
        lemma_hex_ascii(payload@);
        lemma_chunks63_ascii(hex_of_bytes(payload@));
        assert forall|k: int| 0 <= k < labels_view(qlabels@).len() implies bytes_lt128(
            #[trigger] labels_view(qlabels@)[k],
        ) by {
            if k < chunks.len() {
                assert(labels_view(qlabels@)[k] == chunks[k]);
            } else {
                assert(labels_view(qlabels@)[k] == dls[k - chunks.len()]);
            }
        }
        lemma_dotted_ascii(labels_view(qlabels@));
    }
    Ok(ascii_bytes_to_string(name.as_slice()))
}

/// Chop a byte string into chunks of at most 63 bytes.
fn chop63(s: &[u8]) -> (r: Vec<Vec<u8>>)
    ensures
        labels_view(r@) == chunks63(s@),
    decreases s@.len(),
{
    let mut out: Vec<Vec<u8>> = Vec::new();
    if s.len() == 0 {
        proof {
            assert(labels_view(out@) =~= chunks63(s@));
        }
        return out;
    }
    if s.len() <= 63 {
        out.push(vstd::slice::slice_to_vec(s));
        proof {
            assert(labels_view(out@) =~= chunks63(s@));
        }
        return out;
    }
    let head = vstd::slice::slice_subrange(s, 0, 63);
    let tail = vstd::slice::slice_subrange(s, 63, s.len());
    let mut rest = chop63(tail);
    out.push(vstd::slice::slice_to_vec(head));
    let rn = rest.len();
    let mut k: usize = 0;
    while k < rn
        invariant
            rn == rest@.len(),
            0 <= k <= rn,
            labels_view(out@) == seq![s@.take(63)] + labels_view(rest@).take(k as int),
        decreases rn - k,
    {
        let lab = vstd::slice::slice_to_vec(rest[k].as_slice());
        proof {
            assert(lab@ == rest@[k as int]@);
        }
        let ghost oldo = out@;
        out.push(lab);
        proof {
            assert(out@ == oldo.push(lab));
            assert(labels_view(oldo) == seq![s@.take(63)] + labels_view(rest@).take(k as int));
            assert(labels_view(oldo).len() == oldo.len());
            assert(labels_view(rest@).take(k as int).len() == k);
            assert(oldo.len() == 1 + k);
            let lhs = labels_view(out@);
            let rhs = seq![s@.take(63)] + labels_view(rest@).take(k as int + 1);
            assert(lhs.len() == rhs.len());
            assert forall|t: int| 0 <= t < lhs.len() implies lhs[t] == rhs[t] by {
                assert(lhs[t] == out@[t]@);
                if t < oldo.len() {
                    assert(out@[t] == oldo[t]);
                    assert(labels_view(oldo)[t] == oldo[t]@);
                    assert(labels_view(oldo)[t] == (seq![s@.take(63)] + labels_view(rest@).take(
                        k as int,
                    ))[t]);
                    if t >= 1 {
                        assert(rhs[t] == labels_view(rest@)[t - 1]);
                        assert((seq![s@.take(63)] + labels_view(rest@).take(k as int))[t]
                            == labels_view(rest@)[t - 1]);
                    }
                } else {
                    assert(t == oldo.len());
                    assert(out@[t] == lab);
                    assert(rhs[t] == labels_view(rest@)[k as int]);
                }
            }
            assert(lhs =~= rhs);
        }
        k += 1;
    }
    proof {
        assert(labels_view(rest@).take(rn as int) =~= labels_view(rest@));
        assert(s@.skip(63) =~= tail@);
        assert(labels_view(out@) =~= chunks63(s@));
    }
    out
}

/// Join labels with dots into one byte string.
fn join_dotted(labels: &Vec<Vec<u8>>) -> (r: Vec<u8>)
    requires
        labels@.len() >= 1,
    ensures
        r@ == dotted_name(labels_view(labels@)),
{
    let ghost ls = labels_view(labels@);
    let mut out: Vec<u8> = vstd::slice::slice_to_vec(labels[0].as_slice());
    let n = labels.len();
    let mut i: usize = 1;
    proof {
        assert(ls.take(1) =~= seq![ls[0]]);
        assert(dotted_name(ls.take(1)) == ls[0]);
    }
    while i < n
        invariant
            n == labels@.len(),
            ls == labels_view(labels@),
            1 <= i <= n,
            out@ == dotted_name(ls.take(i as int)),
        decreases n - i,
    {
        out.push(0x2e);
        let lab = &labels[i];
        let m = lab.len();
        let mut k: usize = 0;
        while k < m
            invariant
                m == lab@.len(),
                0 <= k <= m,
                out@ == dotted_name(ls.take(i as int)) + seq![0x2eu8] + lab@.take(k as int),
            decreases m - k,
        {
            out.push(lab[k]);
            proof {
                assert(lab@.take(k as int + 1) =~= lab@.take(k as int) + seq![lab@[k as int]]);
                assert(out@ =~= dotted_name(ls.take(i as int)) + seq![0x2eu8] + lab@.take(
                    k as int + 1,
                ));
            }
            k += 1;
        }
        proof {
            lemma_dotted_push(ls.take(i as int), ls[i as int]);
            assert(ls.take(i as int + 1) =~= ls.take(i as int).push(ls[i as int]));
            assert(lab@.take(m as int) =~= lab@);
            assert(lab@ == ls[i as int]);
            assert(out@ =~= dotted_name(ls.take(i as int + 1)));
        }
        i += 1;
    }
    proof {
        assert(ls.take(n as int) =~= ls);
    }
    out
}

/// The largest payload length whose query name fits under this domain.
/// Succeeds exactly when the domain is ASCII, its labels are well-formed,
/// and its own wire cost leaves the name budget intact; the result is then
/// the largest length whose cost still fits the remaining budget.
pub fn max_payload_len_for_domain(domain: &str) -> (r: Result<usize, DnsError>)
    ensures
        r is Ok <==> (domain.is_ascii() && labels_wf(split_dots(domain.spec_bytes()))
            && labels_wire(split_dots(domain.spec_bytes())).len() <= 254),
        r matches Ok(p) ==> {
            let budget = domain_budget_spec(split_dots(domain.spec_bytes()));
            &&& hex_cost_spec(p as int) <= budget
            &&& hex_cost_spec(p as int + 1) > budget
        },
{
    broadcast use vstd::string::is_ascii_spec_bytes;

    if !domain.is_ascii() {
        return Err(DnsError::BadLabel);
    }
    let db = domain.as_bytes();
    let dlabels = split_bytes_on_dots(db);
    let ghost dls = split_dots(domain.spec_bytes());

    let n = dlabels.len();
    let mut dwire: usize = 0;
    let mut i: usize = 0;
    while i < n
        invariant
            n == dlabels@.len(),
            dls == labels_view(dlabels@),
            dls == split_dots(domain.spec_bytes()),
            0 <= i <= n,
            forall|k: int| 0 <= k < i ==> 1 <= (#[trigger] dls[k]).len() <= MAX_LABEL_LEN,
            dwire == labels_wire(dls.take(i as int)).len(),
            dwire <= 254,
        decreases n - i,
    {
        let lab_len = dlabels[i].len();
        if lab_len == 0 || lab_len > MAX_LABEL_LEN {
            proof {
                assert(dls[i as int] == dlabels@[i as int]@);
                assert(!(1 <= dls[i as int].len() <= MAX_LABEL_LEN));
                assert(!labels_wf(dls));
            }
            return Err(DnsError::BadLabel);
        }
        proof {
            lemma_labels_wire_concat(dls.take(i as int), seq![dls[i as int]]);
            lemma_labels_wire_single(dls[i as int]);
            assert(dls.take(i as int + 1) =~= dls.take(i as int) + seq![dls[i as int]]);
        }
        if 254 - dwire < 1 + lab_len {
            proof {
                lemma_labels_wire_concat(dls.take(i as int + 1), dls.skip(i as int + 1));
                assert(dls.take(i as int + 1) + dls.skip(i as int + 1) =~= dls);
                assert(labels_wire(dls).len() > 254);
            }
            return Err(DnsError::NameTooLong);
        }
        dwire = dwire + 1 + lab_len;
        i += 1;
    }
    proof {
        assert(dls.take(n as int) =~= dls);
        assert(labels_wire(dls).len() == dwire);
    }
    let budget: usize = 254 - dwire;

    let mut p: usize = 0;
    while p < 127 && 2 * (p + 1) + (2 * (p + 1) + 62) / 63 <= budget
        invariant
            budget <= 254,
            0 <= p <= 127,
            hex_cost_spec(p as int) <= budget,
        decreases 127 - p,
    {
        p += 1;
    }
    proof {
        if p == 127 {
            assert(hex_cost_spec(127) == 259);
            assert(false);
        }
    }
    Ok(p)
}

/// What label parsing at `pos` yields: the labels up to the root label,
/// and the position after the root. `None` when the bytes run out, a
/// length octet exceeds 63, or a label overruns the buffer.
pub open spec fn parse_labels_spec(b: Seq<u8>, pos: int) -> Option<(Seq<Seq<u8>>, int)>
    decreases b.len() - pos,
{
    if pos < 0 || pos >= b.len() {
        None
    } else {
        let l = b[pos] as int;
        if l == 0 {
            Some((Seq::empty(), pos + 1))
        } else if l > 63 {
            None
        } else if pos + 1 + l > b.len() {
            None
        } else {
            match parse_labels_spec(b, pos + 1 + l) {
                None => None,
                Some((rest, end)) => Some((seq![b.subrange(pos + 1, pos + 1 + l)] + rest, end)),
            }
        }
    }
}

/// Parsing consumes at least one octet and stays inside the buffer.
pub proof fn lemma_parse_labels_bounds(b: Seq<u8>, pos: int)
    ensures
        parse_labels_spec(b, pos) matches Some((labels, end)) ==> pos < end <= b.len(),
    decreases b.len() - pos,
{
    if 0 <= pos < b.len() {
        let l = b[pos] as int;
        if 1 <= l <= 63 && pos + 1 + l <= b.len() {
            lemma_parse_labels_bounds(b, pos + 1 + l);
        }
    }
}

/// A name written by the encoder parses back to its labels, wherever it
/// sits in a larger buffer.
pub proof fn lemma_parse_name_roundtrip(b: Seq<u8>, pos: int, labels: Seq<Seq<u8>>)
    requires
        labels_wf(labels),
        0 <= pos,
        pos + name_wire(labels).len() <= b.len(),
        b.subrange(pos, pos + name_wire(labels).len() as int) == name_wire(labels),
    ensures
        parse_labels_spec(b, pos) == Some((labels, pos + name_wire(labels).len() as int)),
    decreases labels.len(),
{
    let w = name_wire(labels);
    assert(b.subrange(pos, pos + w.len() as int)[0] == b[pos]);
    if labels.len() == 0 {
        assert(labels_wire(labels) == Seq::<u8>::empty());
        assert(w =~= seq![0u8]);
        assert(w[0] == 0);
        assert(b[pos] == 0);
    } else {
        let l0 = labels[0];
        let tail_labels = labels.skip(1);
        assert(labels_wf(tail_labels)) by {
            assert forall|i: int| 0 <= i < tail_labels.len() implies 1 <= (#[trigger] tail_labels[i]).len() <= MAX_LABEL_LEN by {
                assert(tail_labels[i] == labels[i + 1]);
            }
        }
        let tw = name_wire(tail_labels);
        assert(labels_wire(labels) == seq![l0.len() as u8] + l0 + labels_wire(tail_labels));
        assert(w =~= seq![l0.len() as u8] + l0 + tw);
        assert(w[0] == l0.len() as u8);
        assert(b[pos] == l0.len() as u8);
        let l = l0.len() as int;
        assert(b.subrange(pos + 1, pos + 1 + l) =~= l0) by {
            assert forall|k: int| 0 <= k < l implies b.subrange(pos + 1, pos + 1 + l)[k] == l0[k] by {
                assert(b[pos + 1 + k] == b.subrange(pos, pos + w.len() as int)[1 + k]);
                assert(w[1 + k] == l0[k]);
            }
        }
        assert(b.subrange(pos + 1 + l, pos + 1 + l + tw.len() as int) =~= tw) by {
            assert forall|k: int| 0 <= k < tw.len() implies b.subrange(
                pos + 1 + l,
                pos + 1 + l + tw.len() as int,
            )[k] == tw[k] by {
                assert(b[pos + 1 + l + k] == b.subrange(pos, pos + w.len() as int)[1 + l + k]);
                assert(w[1 + l + k] == tw[k]);
            }
        }
        lemma_parse_name_roundtrip(b, pos + 1 + l, tail_labels);
        assert(parse_labels_spec(b, pos) == Some(
            (seq![b.subrange(pos + 1, pos + 1 + l)] + tail_labels, pos + w.len() as int),
        ));
        assert(seq![b.subrange(pos + 1, pos + 1 + l)] + tail_labels =~= labels);
    }
}

/// What a whole query parses to: id, raw flags, question count, the
/// question's labels, type, and class. Trailing bytes after the question
/// are tolerated.
pub open spec fn parse_query_spec(b: Seq<u8>) -> Option<(u16, u16, u16, Seq<Seq<u8>>, u16, u16)> {
    if b.len() < 12 {
        None
    } else {
        match parse_labels_spec(b, 12) {
            None => None,
            Some((labels, end)) => if end + 4 <= b.len() {
                Some(
                    (
                        be16_spec(b, 0),
                        be16_spec(b, 2),
                        be16_spec(b, 4),
                        labels,
                        be16_spec(b, end),
                        be16_spec(b, end + 2),
                    ),
                )
            } else {
                None
            },
        }
    }
}

/// Parse a name starting at `pos`, mirroring `parse_labels_spec`.
fn parse_name_from(data: &[u8], pos: usize) -> (r: Option<(Vec<Vec<u8>>, usize)>)
    ensures
        match r {
            Some((labels, end)) => {
                &&& parse_labels_spec(data@, pos as int) == Some(
                    (labels_view(labels@), end as int),
                )
                &&& pos < end <= data@.len()
            },
            None => parse_labels_spec(data@, pos as int) is None,
        },
    decreases data@.len() - pos,
{
    if pos >= data.len() {
        return None;
    }
    let l = data[pos] as usize;
    if l == 0 {
        let empty_labels: Vec<Vec<u8>> = Vec::new();
        proof {
            assert(labels_view(empty_labels@) =~= Seq::<Seq<u8>>::empty());
        }
        return Some((empty_labels, pos + 1));
    }
    if l > 63 {
        return None;
    }
    if l > data.len() - pos - 1 {
        return None;
    }
    match parse_name_from(data, pos + 1 + l) {
        None => None,
        Some((mut rest, end)) => {
            let ghost oldr = rest@;
            let lab = vstd::slice::slice_to_vec(vstd::slice::slice_subrange(data, pos + 1, pos + 1 + l));
            rest.insert(0, lab);
            proof {
                let lhs = labels_view(rest@);
                let rhs = seq![data@.subrange(pos as int + 1, pos as int + 1 + l)] + labels_view(
                    oldr,
                );
                assert(lhs.len() == rhs.len());
                assert forall|t: int| 0 <= t < lhs.len() implies lhs[t] == rhs[t] by {
                    assert(lhs[t] == rest@[t]@);
                    if t > 0 {
                        assert(rest@[t] == oldr[t - 1]);
                        assert(rhs[t] == labels_view(oldr)[t - 1]);
                    }
                }
                assert(lhs =~= rhs);
            }
            Some((rest, end))
        },
    }
}

/// A byte lowered to ASCII lower case.
pub open spec fn lower_byte(b: u8) -> u8 {
    if 0x41 <= b <= 0x5a {
        (b + 0x20) as u8
    } else {
        b
    }
}

/// A byte string lowered to ASCII lower case.
pub open spec fn lower_bytes(s: Seq<u8>) -> Seq<u8> {
    Seq::new(s.len(), |i: int| lower_byte(s[i]))
}

/// Two label lists equal up to ASCII case, label by label.
pub open spec fn labels_ci_eq(a: Seq<Seq<u8>>, b: Seq<Seq<u8>>) -> bool {
    a.len() == b.len() && forall|i: int|
        0 <= i < a.len() ==> lower_bytes(#[trigger] a[i]) == lower_bytes(b[i])
}

/// The domain's labels are a case-insensitive suffix of the question's.
pub open spec fn is_suffix_of_ci(dom: Seq<Seq<u8>>, q: Seq<Seq<u8>>) -> bool {
    dom.len() <= q.len() && labels_ci_eq(q.skip(q.len() - dom.len()), dom)
}

/// Index `i` names the longest configured domain that suffixes the
/// question, the earliest such on ties.
pub open spec fn best_domain_match(q: Seq<Seq<u8>>, doms: Seq<Seq<Seq<u8>>>, i: int) -> bool {
    &&& 0 <= i < doms.len()
    &&& is_suffix_of_ci(doms[i], q)
    &&& forall|j: int|
        0 <= j < doms.len() && is_suffix_of_ci(#[trigger] doms[j], q) ==> (doms[j].len()
            < doms[i].len() || (doms[j].len() == doms[i].len() && i <= j))
}

/// The domains of a configuration, each split into labels.
pub open spec fn domains_labels_spec(domains: Seq<&str>) -> Seq<Seq<Seq<u8>>> {
    Seq::new(domains.len(), |i: int| split_dots(domains[i].spec_bytes()))
}

/// All bytes are hex digits and there are evenly many: the concatenated
/// payload labels spell whole bytes.
pub open spec fn payload_labels_ok(pl: Seq<Seq<u8>>) -> bool {
    let cc = concat_labels(pl);
    cc.len() % 2 == 0 && forall|k: int| 0 <= k < cc.len() ==> is_hex_digit(#[trigger] cc[k])
}

/// The payload the labels spell.
pub open spec fn payload_of_labels(pl: Seq<Seq<u8>>) -> Seq<u8> {
    bytes_of_hex(concat_labels(pl))
}



/// The string spells whole hex bytes: evenly many digits, all hex.
pub open spec fn hex_string_ok(s: Seq<u8>) -> bool {
    s.len() % 2 == 0 && forall|k: int| 0 <= k < s.len() ==> is_hex_digit(#[trigger] s[k])
}

/// Decode a hex string into bytes; `None` unless it spells whole bytes.
fn decode_hex_payload(cc: &Vec<u8>) -> (r: Option<Vec<u8>>)
    ensures
        match r {
            Some(p) => hex_string_ok(cc@) && p@ == bytes_of_hex(cc@),
            None => !hex_string_ok(cc@),
        },
{
    if cc.len() % 2 != 0 {
        return None;
    }
    let mut payload: Vec<u8> = Vec::new();
    let cn = cc.len();
    let mut u: usize = 0;
    proof {
        assert(cc@.take(0) =~= Seq::<u8>::empty());
        assert(bytes_of_hex(cc@.take(0)) == Seq::<u8>::empty());
    }
    while u < cn
        invariant
            cn == cc@.len(),
            cn % 2 == 0,
            u % 2 == 0,
            0 <= u <= cn,
            forall|k: int| 0 <= k < u ==> is_hex_digit(#[trigger] cc@[k]),
            payload@ == bytes_of_hex(cc@.take(u as int)),
        decreases cn - u,
    {
        let c0 = cc[u];
        let c1 = cc[u + 1];
        let v0: u8 = if 0x30 <= c0 && c0 <= 0x39 {
            c0 - 0x30
        } else if 0x61 <= c0 && c0 <= 0x66 {
            c0 - 0x61 + 10
        } else if 0x41 <= c0 && c0 <= 0x46 {
            c0 - 0x41 + 10
        } else {
            proof {
                assert(!is_hex_digit(cc@[u as int]));
            }
            return None;
        };
        let v1: u8 = if 0x30 <= c1 && c1 <= 0x39 {
            c1 - 0x30
        } else if 0x61 <= c1 && c1 <= 0x66 {
            c1 - 0x61 + 10
        } else if 0x41 <= c1 && c1 <= 0x46 {
            c1 - 0x41 + 10
        } else {
            proof {
                assert(!is_hex_digit(cc@[u as int + 1]));
            }
            return None;
        };
        payload.push(v0 * 16 + v1);
        proof {
            lemma_bytes_of_hex_step(cc@, u as int);
            assert(payload@ =~= bytes_of_hex(cc@.take(u as int + 2)));
        }
        u += 2;
    }
    proof {
        assert(cc@.take(cn as int) =~= cc@);
    }
    Some(payload)
}

/// What a successful decode returns: the parsed header fields, the echoed
/// question, and the payload spelled by the labels before the longest
/// matching domain.
pub open spec fn decode_ok_spec(data: Seq<u8>, domains: Seq<&str>, d: DecodedQuery) -> bool {
    &&& parse_query_spec(data) matches Some((id, flags, qd, labels, qtype, qclass))
    &&& {
        let doms = domains_labels_spec(domains);
        &&& d.id == id
        &&& d.rd == flags_rd(flags)
        &&& d.cd == flags_cd(flags)
        &&& !flags_qr(flags)
        &&& flags_opcode(flags) == 0
        &&& qd == 1
        &&& qtype == RR_TXT
        &&& qclass == CLASS_IN
        &&& d.question.labels_seq() == labels
        &&& d.question.qtype == qtype
        &&& d.question.qclass == qclass
        &&& name_wire(labels).len() <= MAX_NAME_WIRE
        &&& exists|mi: int|
            {
                &&& #[trigger] best_domain_match(labels, doms, mi)
                &&& payload_labels_ok(labels.take(labels.len() - doms[mi].len()))
                &&& d.payload@ == payload_of_labels(labels.take(labels.len() - doms[mi].len()))
            }
    }
}

/// When a datagram is dropped: too short for a header, itself a
/// response, a non-standard opcode, an unparsable question, or a name
/// beyond the wire limit.
pub open spec fn decode_drop_spec(data: Seq<u8>) -> bool {
    ||| data.len() < 12
    ||| (data.len() >= 12 && (flags_qr(be16_spec(data, 2)) || flags_opcode(be16_spec(data, 2))
        != 0))
    ||| (data.len() >= 12 && !flags_qr(be16_spec(data, 2)) && flags_opcode(be16_spec(data, 2)) == 0
        && be16_spec(data, 4) == 1 && parse_query_spec(data) is None)
    ||| (parse_query_spec(data) matches Some((id, flags, qd, labels, qtype, qclass)) && !flags_qr(
        flags,
    ) && flags_opcode(flags) == 0 && qd == 1 && name_wire(labels).len() > MAX_NAME_WIRE)
}

/// What an error reply echoes and which code it carries, by cause.
pub open spec fn decode_reply_spec(
    data: Seq<u8>,
    domains: Seq<&str>,
    id: u16,
    rd: bool,
    cd: bool,
    question: Option<Question>,
    rcode: Rcode,
) -> bool {
    if question is None {
        &&& data.len() >= 12
        &&& id == be16_spec(data, 0)
        &&& rd == flags_rd(be16_spec(data, 2))
        &&& cd == flags_cd(be16_spec(data, 2))
        &&& !flags_qr(be16_spec(data, 2))
        &&& flags_opcode(be16_spec(data, 2)) == 0
        &&& be16_spec(data, 4) != 1
        &&& rcode == Rcode::FormErr
    } else {
        &&& parse_query_spec(data) matches Some((pid, flags, qd, labels, qtype, qclass))
        &&& {
            let doms = domains_labels_spec(domains);
            &&& id == pid
            &&& rd == flags_rd(flags)
            &&& cd == flags_cd(flags)
            &&& !flags_qr(flags)
            &&& flags_opcode(flags) == 0
            &&& qd == 1
            &&& name_wire(labels).len() <= MAX_NAME_WIRE
            &&& if !(qtype == RR_TXT && qclass == CLASS_IN) {
                &&& question matches Some(qq) && qq.labels_seq() == labels && qq.qtype == qtype
                    && qq.qclass == qclass
                &&& rcode == Rcode::Refused
            } else if !(exists|mi: int| #[trigger] best_domain_match(labels, doms, mi)) {
                &&& question matches Some(qq) && qq.labels_seq() == labels && qq.qtype == qtype
                    && qq.qclass == qclass
                &&& rcode == Rcode::NxDomain
            } else {
                &&& question matches Some(qq) && qq.labels_seq() == labels && qq.qtype == qtype
                    && qq.qclass == qclass
                &&& rcode == Rcode::FormErr
                &&& exists|mi: int|
                    #[trigger] best_domain_match(labels, doms, mi) && !payload_labels_ok(
                        labels.take(labels.len() - doms[mi].len()),
                    )
            }
        }
    }
}

/// A decoded query: the fields the server echoes, and the carried payload.
#[derive(Debug)]
pub struct DecodedQuery {
    /// The DNS message id.
    pub id: u16,
    /// Recursion desired, echoed into the response.
    pub rd: bool,
    /// Checking disabled, echoed into the response.
    pub cd: bool,
    /// The question, echoed into the response.
    pub question: Question,
    /// The decoded binary payload; empty for a poll.
    pub payload: Vec<u8>,
}

/// Why a query yields no decoded payload: dropped silently, or answered
/// with an error code.
#[derive(Debug)]
pub enum DecodeQueryError {
    /// Ignore the datagram: not a query this server can answer.
    Drop,
    /// Answer with an error code, echoing what could be parsed.
    Reply {
        /// The query's id.
        id: u16,
        /// The query's recursion-desired bit.
        rd: bool,
        /// The query's checking-disabled bit.
        cd: bool,
        /// The question, when it parsed.
        question: Option<Question>,
        /// The response code to send.
        rcode: Rcode,
    },
}

/// Compare two labels for equality up to ASCII case.
fn label_eq_ci(a: &[u8], b: &[u8]) -> (r: bool)
    ensures
        r == (lower_bytes(a@) == lower_bytes(b@)),
{
    if a.len() != b.len() {
        proof {
            assert(lower_bytes(a@).len() != lower_bytes(b@).len());
        }
        return false;
    }
    let n = a.len();
    let mut i: usize = 0;
    while i < n
        invariant
            n == a@.len() == b@.len(),
            0 <= i <= n,
            forall|k: int| 0 <= k < i ==> lower_byte(a@[k]) == lower_byte(b@[k]),
        decreases n - i,
    {
        let ab = a[i];
        let bb = b[i];
        let al: u8 = if 0x41 <= ab && ab <= 0x5a {
            ab + 0x20
        } else {
            ab
        };
        let bl: u8 = if 0x41 <= bb && bb <= 0x5a {
            bb + 0x20
        } else {
            bb
        };
        if al != bl {
            proof {
                assert(lower_bytes(a@)[i as int] != lower_bytes(b@)[i as int]);
            }
            return false;
        }
        i += 1;
    }
    proof {
        assert(lower_bytes(a@) =~= lower_bytes(b@));
    }
    true
}

/// Whether the domain's labels are a case-insensitive suffix of the
/// question's labels.
fn labels_suffix_ci(q: &Vec<Vec<u8>>, dom: &Vec<Vec<u8>>) -> (r: bool)
    ensures
        r == is_suffix_of_ci(labels_view(dom@), labels_view(q@)),
{
    let qn = q.len();
    let dn = dom.len();
    if dn > qn {
        return false;
    }
    let off = qn - dn;
    let ghost qs = labels_view(q@);
    let ghost ds = labels_view(dom@);
    let mut i: usize = 0;
    while i < dn
        invariant
            qn == q@.len(),
            dn == dom@.len(),
            dn <= qn,
            off == qn - dn,
            qs == labels_view(q@),
            ds == labels_view(dom@),
            0 <= i <= dn,
            forall|k: int| 0 <= k < i ==> lower_bytes(qs[off + k]) == lower_bytes(#[trigger] ds[k]),
        decreases dn - i,
    {
        if !label_eq_ci(q[off + i].as_slice(), dom[i].as_slice()) {
            proof {
                assert(qs.skip(qs.len() - ds.len())[i as int] == qs[off + i]);
                assert(!labels_ci_eq(qs.skip(qs.len() - ds.len()), ds));
            }
            return false;
        }
        i += 1;
    }
    proof {
        assert forall|k: int| 0 <= k < ds.len() implies lower_bytes(
            #[trigger] qs.skip(qs.len() - ds.len())[k],
        ) == lower_bytes(ds[k]) by {
            assert(qs.skip(qs.len() - ds.len())[k] == qs[off + k]);
        }
        assert(labels_ci_eq(qs.skip(qs.len() - ds.len()), ds));
    }
    true
}


/// A query whose payload labels do not spell hex bytes is answered with
/// `FORMERR`, the question echoed.
proof fn lemma_reply_formerr_payload(
    data: Seq<u8>,
    domains: Seq<&str>,
    id: u16,
    flags: u16,
    rd: bool,
    cd: bool,
    q: Question,
    bi: int,
)
    requires
        parse_query_spec(data) == Some((id, flags, 1u16, q.labels_seq(), RR_TXT, CLASS_IN)),
        q.qtype == RR_TXT,
        q.qclass == CLASS_IN,
        rd == flags_rd(flags),
        cd == flags_cd(flags),
        !flags_qr(flags),
        flags_opcode(flags) == 0,
        name_wire(q.labels_seq()).len() <= MAX_NAME_WIRE,
        best_domain_match(q.labels_seq(), domains_labels_spec(domains), bi),
        !payload_labels_ok(
            q.labels_seq().take(
                q.labels_seq().len() - domains_labels_spec(domains)[bi].len(),
            ),
        ),
    ensures
        decode_reply_spec(data, domains, id, rd, cd, Some(q), Rcode::FormErr),
{
}

/// A well-formed query under a configured domain decodes to its header
/// fields, its question, and the payload its labels spell.
proof fn lemma_decode_ok(
    data: Seq<u8>,
    domains: Seq<&str>,
    d: DecodedQuery,
    flags: u16,
    bi: int,
)
    requires
        parse_query_spec(data) == Some((d.id, flags, 1u16, d.question.labels_seq(), RR_TXT, CLASS_IN)),
        d.question.qtype == RR_TXT,
        d.question.qclass == CLASS_IN,
        d.rd == flags_rd(flags),
        d.cd == flags_cd(flags),
        !flags_qr(flags),
        flags_opcode(flags) == 0,
        name_wire(d.question.labels_seq()).len() <= MAX_NAME_WIRE,
        best_domain_match(d.question.labels_seq(), domains_labels_spec(domains), bi),
        payload_labels_ok(
            d.question.labels_seq().take(
                d.question.labels_seq().len() - domains_labels_spec(domains)[bi].len(),
            ),
        ),
        d.payload@ == payload_of_labels(
            d.question.labels_seq().take(
                d.question.labels_seq().len() - domains_labels_spec(domains)[bi].len(),
            ),
        ),
    ensures
        decode_ok_spec(data, domains, d),
{
}

/// Decode a query against the configured domains.
///
/// Returns the id, flags, question and payload of a well-formed `TXT`
/// query whose name ends in the longest matching configured domain.
/// Unparsable datagrams, responses, and non-standard opcodes are dropped;
/// a query with other than one question gets `FORMERR`; a type or class
/// other than `TXT IN` gets `REFUSED`; a name under no configured domain
/// gets `NXDOMAIN`; payload labels that do not spell whole hex bytes get
/// `FORMERR`.
#[verifier::rlimit(60)]
pub fn decode_query_with_domains(data: &[u8], domains: &[&str]) -> (r: Result<
    DecodedQuery,
    DecodeQueryError,
>)
    ensures
        match r {
            Ok(d) => decode_ok_spec(data@, domains@, d),
            Err(DecodeQueryError::Drop) => decode_drop_spec(data@),
            Err(DecodeQueryError::Reply { id, rd, cd, question, rcode }) => decode_reply_spec(
                data@,
                domains@,
                id,
                rd,
                cd,
                question,
                rcode,
            ),
        },
{
    if data.len() < 12 {
        return Err(DecodeQueryError::Drop);
    }
    let id: u16 = data[0] as u16 * 256 + data[1] as u16;
    let flags: u16 = data[2] as u16 * 256 + data[3] as u16;
    let qd: u16 = data[4] as u16 * 256 + data[5] as u16;
    if flags >= 0x8000 {
        return Err(DecodeQueryError::Drop);
    }
    let opcode: u16 = (flags / 0x800) % 0x10;
    if opcode != 0 {
        return Err(DecodeQueryError::Drop);
    }
    let rd: bool = (flags / 0x100) % 2 == 1;
    let cd: bool = (flags / 0x10) % 2 == 1;

    if qd != 1 {
        return Err(
            DecodeQueryError::Reply { id, rd, cd, question: None, rcode: Rcode::FormErr },
        );
    }

    let parsed = parse_name_from(data, 12);
    let (qlabels, end) = match parsed {
        Some(t) => t,
        None => {
            return Err(DecodeQueryError::Drop);
        },
    };
    if data.len() - end < 4 {
        return Err(DecodeQueryError::Drop);
    }
    let qtype: u16 = data[end] as u16 * 256 + data[end + 1] as u16;
    let qclass: u16 = data[end + 2] as u16 * 256 + data[end + 3] as u16;
    let ghost ls = labels_view(qlabels@);
    proof {
        assert(parse_query_spec(data@) == Some((id, flags, qd, ls, qtype, qclass)));
        lemma_parse_labels_wf(data@, 12);
        assert(name_wire(ls).len() == end - 12);
    }
    if end - 12 > MAX_NAME_WIRE {
        return Err(DecodeQueryError::Drop);
    }

    if qtype != RR_TXT || qclass != CLASS_IN {
        return Err(
            DecodeQueryError::Reply {
                id,
                rd,
                cd,
                question: Some(Question { labels: qlabels, qtype, qclass }),
                rcode: Rcode::Refused,
            },
        );
    }

    let ghost doms = domains_labels_spec(domains@);
    let mut best: Option<usize> = None;
    let mut best_len: usize = 0;
    let dn = domains.len();
    let mut j: usize = 0;
    while j < dn
        invariant
            dn == domains@.len(),
            ls == labels_view(qlabels@),
            doms == domains_labels_spec(domains@),
            0 <= j <= dn,
            match best {
                Some(bi) => {
                    &&& 0 <= bi < j
                    &&& is_suffix_of_ci(doms[bi as int], ls)
                    &&& best_len == doms[bi as int].len()
                    &&& forall|k: int|
                        0 <= k < j && is_suffix_of_ci(#[trigger] doms[k], ls) ==> (doms[k].len()
                            < best_len || (doms[k].len() == best_len && bi <= k))
                },
                None => forall|k: int| 0 <= k < j ==> !is_suffix_of_ci(#[trigger] doms[k], ls),
            },
        decreases dn - j,
    {
        let dlab = split_bytes_on_dots(domains[j].as_bytes());
        proof {
            assert(labels_view(dlab@) == doms[j as int]);
        }
        if labels_suffix_ci(&qlabels, &dlab) {
            let cur_len = dlab.len();
            match best {
                None => {
                    best = Some(j);
                    best_len = cur_len;
                },
                Some(_) => {
                    if cur_len > best_len {
                        best = Some(j);
                        best_len = cur_len;
                    }
                },
            }
        }
        j += 1;
    }

    let bi = match best {
        Some(bi) => bi,
        None => {
            proof {
                assert forall|mi: int| !(#[trigger] best_domain_match(ls, doms, mi)) by {}
            }
            return Err(
                DecodeQueryError::Reply {
                    id,
                    rd,
                    cd,
                    question: Some(Question { labels: qlabels, qtype, qclass }),
                    rcode: Rcode::NxDomain,
                },
            );
        },
    };
    proof {
        assert(best_domain_match(ls, doms, bi as int));
    }

    let keep = qlabels.len() - best_len;
    let ghost pl = ls.take(keep as int);

    let mut cc: Vec<u8> = Vec::new();
    let mut t: usize = 0;
    proof {
        assert(concat_labels(pl.take(0)) =~= Seq::<u8>::empty());
    }
    while t < keep
        invariant
            keep <= qlabels@.len(),
            ls == labels_view(qlabels@),
            pl == ls.take(keep as int),
            0 <= t <= keep,
            cc@ == concat_labels(pl.take(t as int)),
        decreases keep - t,
    {
        cc.extend_from_slice(qlabels[t].as_slice());
        proof {
            lemma_concat_labels_concat(pl.take(t as int), seq![pl[t as int]]);
            lemma_concat_labels_single(pl[t as int]);
            assert(pl.take(t as int + 1) =~= pl.take(t as int) + seq![pl[t as int]]);
            assert(pl[t as int] == ls[t as int]);
            assert(cc@ =~= concat_labels(pl.take(t as int + 1)));
        }
        t += 1;
    }
    proof {
        assert(pl.take(keep as int) =~= pl);
        assert(cc@ == concat_labels(pl));
    }

    let payload = match decode_hex_payload(&cc) {
        Some(p) => p,
        None => {
            let q = Question { labels: qlabels, qtype, qclass };
            proof {
                assert(!payload_labels_ok(pl));
                assert(q.labels_seq() == ls);
                lemma_reply_formerr_payload(data@, domains@, id, flags, rd, cd, q, bi as int);
            }
            return Err(
                DecodeQueryError::Reply { id, rd, cd, question: Some(q), rcode: Rcode::FormErr },
            );
        },
    };
    let d = DecodedQuery {
        id,
        rd,
        cd,
        question: Question { labels: qlabels, qtype, qclass },
        payload,
    };
    proof {
        assert(payload_labels_ok(pl));
        assert(d.question.labels_seq() == ls);
        assert(d.payload@ == payload_of_labels(pl));
        lemma_decode_ok(data@, domains@, d, flags, bi as int);
    }
    Ok(d)
}

/// Decoding two more hex digits appends one more byte.
proof fn lemma_bytes_of_hex_step(s: Seq<u8>, u: int)
    requires
        0 <= u,
        u + 2 <= s.len(),
        u % 2 == 0,
        forall|k: int| 0 <= k < u + 2 ==> is_hex_digit(#[trigger] s[k]),
    ensures
        bytes_of_hex(s.take(u + 2)) == bytes_of_hex(s.take(u)).push(
            (hex_val_spec(s[u]) * 16 + hex_val_spec(s[u + 1])) as u8,
        ),
    decreases u,
{
    if u == 0 {
        assert(s.take(2).len() == 2);
        assert(s.take(2)[0] == s[0] && s.take(2)[1] == s[1]);
        assert(s.take(2).skip(2) =~= Seq::<u8>::empty());
        assert(bytes_of_hex(s.take(2).skip(2)) == Seq::<u8>::empty());
        assert(bytes_of_hex(s.take(0)) =~= Seq::<u8>::empty());
        assert(bytes_of_hex(s.take(2)) =~= bytes_of_hex(s.take(0)).push(
            (hex_val_spec(s[0]) * 16 + hex_val_spec(s[1])) as u8,
        ));
    } else {
        lemma_bytes_of_hex_step(s.skip(2), u - 2);
        assert(s.skip(2).take(u) =~= s.take(u + 2).skip(2));
        assert(s.skip(2).take(u - 2) =~= s.take(u).skip(2));
        assert(s.skip(2)[u - 2] == s[u] && s.skip(2)[u - 1] == s[u + 1]);
        assert(bytes_of_hex(s.take(u + 2)) == seq![
            (hex_val_spec(s[0]) * 16 + hex_val_spec(s[1])) as u8,
        ] + bytes_of_hex(s.take(u + 2).skip(2)));
        assert(bytes_of_hex(s.take(u)) == seq![
            (hex_val_spec(s[0]) * 16 + hex_val_spec(s[1])) as u8,
        ] + bytes_of_hex(s.take(u).skip(2)));
        assert(bytes_of_hex(s.take(u + 2)) =~= bytes_of_hex(s.take(u)).push(
            (hex_val_spec(s[u]) * 16 + hex_val_spec(s[u + 1])) as u8,
        ));
    }
}

/// The character-strings of a `TXT` record: the payload in chunks of at
/// most 255 octets, each preceded by its length.
pub open spec fn txt_chunks_wire(p: Seq<u8>) -> Seq<u8>
    decreases p.len(),
{
    if p.len() == 0 {
        Seq::empty()
    } else if p.len() <= 255 {
        seq![p.len() as u8] + p
    } else {
        seq![255u8] + p.take(255) + txt_chunks_wire(p.skip(255))
    }
}

/// The rdata of a `TXT` record: one empty string for an empty payload,
/// else the payload's chunks.
pub open spec fn txt_rdata_spec(p: Seq<u8>) -> Seq<u8> {
    if p.len() == 0 {
        seq![0u8]
    } else {
        txt_chunks_wire(p)
    }
}

/// The rdata's length: the payload plus one length octet per chunk.
pub proof fn lemma_txt_rdata_len(p: Seq<u8>)
    ensures
        p.len() == 0 ==> txt_rdata_spec(p).len() == 1,
        p.len() > 0 ==> txt_rdata_spec(p).len() == p.len() + (p.len() + 254) / 255,
    decreases p.len(),
{
    if p.len() > 255 {
        lemma_txt_rdata_len(p.skip(255));
        let l = p.len() as int;
        vstd::arithmetic::div_mod::lemma_fundamental_div_mod(l - 1, 255);
        vstd::arithmetic::div_mod::lemma_mod_bound(l - 1, 255);
        vstd::arithmetic::div_mod::lemma_fundamental_div_mod_converse(
            l + 254,
            255,
            (l - 1) / 255 + 1,
            (l - 1) % 255,
        );
    }
}

/// The wire bytes of a response: the header, the echoed question, and,
/// when a payload is present, one `TXT` record carrying it.
pub open spec fn response_wire_spec(
    id: u16,
    rd: bool,
    cd: bool,
    labels: Seq<Seq<u8>>,
    qtype: u16,
    qclass: u16,
    payload: Option<Seq<u8>>,
    rcode: u16,
) -> Seq<u8> {
    let header = u16_bytes_spec(id) + u16_bytes_spec(response_flags_spec(rd, cd, rcode))
        + u16_bytes_spec(1) + u16_bytes_spec(
        if payload is Some {
            1u16
        } else {
            0u16
        },
    ) + u16_bytes_spec(0) + u16_bytes_spec(0);
    let qsec = name_wire(labels) + u16_bytes_spec(qtype) + u16_bytes_spec(qclass);
    match payload {
        None => header + qsec,
        Some(p) => {
            let rdata = txt_rdata_spec(p);
            header + qsec + name_wire(labels) + u16_bytes_spec(RR_TXT) + u16_bytes_spec(CLASS_IN)
                + seq![0u8, 0u8, 0u8, 0u8] + u16_bytes_spec(rdata.len() as u16) + rdata
        },
    }
}

/// What a response is built from.
pub struct ResponseParams<'a> {
    /// The id echoed from the query.
    pub id: u16,
    /// The query's recursion-desired bit, echoed.
    pub rd: bool,
    /// The query's checking-disabled bit, echoed.
    pub cd: bool,
    /// The question echoed from the query.
    pub question: &'a Question,
    /// The payload to carry in a `TXT` record, if any.
    pub payload: Option<&'a [u8]>,
    /// The response code; `NOERROR` when absent.
    pub rcode: Option<Rcode>,
}

/// The numeric code a response carries for an optional `Rcode`.
pub open spec fn rcode_of_opt(rc: Option<Rcode>) -> u16 {
    match rc {
        Some(c) => rcode_code_spec(c),
        None => 0,
    }
}

/// Write the payload as `TXT` character-strings.
fn write_txt_chunks(p: &[u8]) -> (r: Vec<u8>)
    ensures
        r@ == txt_chunks_wire(p@),
    decreases p@.len(),
{
    let mut out: Vec<u8> = Vec::new();
    if p.len() == 0 {
        proof {
            assert(out@ =~= txt_chunks_wire(p@));
        }
        return out;
    }
    if p.len() <= 255 {
        out.push(p.len() as u8);
        out.extend_from_slice(p);
        proof {
            assert(out@ =~= txt_chunks_wire(p@));
        }
        return out;
    }
    let head = vstd::slice::slice_subrange(p, 0, 255);
    let tail = vstd::slice::slice_subrange(p, 255, p.len());
    let mut rest = write_txt_chunks(tail);
    out.push(255);
    out.extend_from_slice(head);
    out.append(&mut rest);
    proof {
        assert(p@.take(255) =~= head@);
        assert(p@.skip(255) =~= tail@);
        assert(out@ =~= txt_chunks_wire(p@));
    }
    out
}

/// Encode a response that echoes a question and optionally carries a
/// payload in one `TXT` record. Succeeds exactly when the question's
/// name is well-formed and fits the wire, and the payload, if present,
/// leaves the rdata within its 16-bit length.
#[verifier::rlimit(100)]
pub fn encode_response(params: &ResponseParams<'_>) -> (r: Result<Vec<u8>, DnsError>)
    ensures
        r is Ok <==> (labels_wf(params.question.labels_seq()) && name_wire(
            params.question.labels_seq(),
        ).len() <= MAX_NAME_WIRE && (params.payload matches Some(p) ==> p@.len() <= 65000)),
        r matches Ok(v) ==> v@ == response_wire_spec(
            params.id,
            params.rd,
            params.cd,
            params.question.labels_seq(),
            params.question.qtype,
            params.question.qclass,
            match params.payload {
                Some(p) => Some(p@),
                None => None,
            },
            rcode_of_opt(params.rcode),
        ),
{
    let ghost ls = params.question.labels_seq();
    let n = params.question.labels.len();
    let mut wire_len: usize = 1;
    let mut i: usize = 0;
    while i < n
        invariant
            n == params.question.labels@.len(),
            ls == params.question.labels_seq(),
            0 <= i <= n,
            forall|k: int| 0 <= k < i ==> 1 <= (#[trigger] ls[k]).len() <= MAX_LABEL_LEN,
            wire_len == labels_wire(ls.take(i as int)).len() + 1,
            wire_len <= MAX_NAME_WIRE,
        decreases n - i,
    {
        let lab_len = params.question.labels[i].len();
        if lab_len == 0 || lab_len > MAX_LABEL_LEN {
            proof {
                assert(ls[i as int] == params.question.labels@[i as int]@);
                assert(!(1 <= ls[i as int].len() <= MAX_LABEL_LEN));
                assert(!labels_wf(ls));
            }
            return Err(DnsError::BadLabel);
        }
        proof {
            lemma_labels_wire_concat(ls.take(i as int), seq![ls[i as int]]);
            lemma_labels_wire_single(ls[i as int]);
            assert(ls.take(i as int + 1) =~= ls.take(i as int) + seq![ls[i as int]]);
        }
        if MAX_NAME_WIRE - wire_len < 1 + lab_len {
            proof {
                lemma_labels_wire_concat(ls.take(i as int + 1), ls.skip(i as int + 1));
                assert(ls.take(i as int + 1) + ls.skip(i as int + 1) =~= ls);
                assert(name_wire(ls).len() > MAX_NAME_WIRE);
            }
            return Err(DnsError::NameTooLong);
        }
        wire_len = wire_len + 1 + lab_len;
        i += 1;
    }
    proof {
        assert(ls.take(n as int) =~= ls);
        assert(name_wire(ls).len() == wire_len);
    }

    let rcode_val: u16 = match params.rcode {
        Some(c) => c.code(),
        None => 0,
    };
    let has_payload = match params.payload {
        Some(_) => true,
        None => false,
    };
    if let Some(p) = params.payload {
        if p.len() > 65000 {
            return Err(DnsError::PayloadTooLarge);
        }
    }

    let mut out: Vec<u8> = Vec::new();
    push_u16(&mut out, params.id);
    let flags: u16 = 0x8000 + 0x400 + (if params.rd {
        0x100u16
    } else {
        0u16
    }) + (if params.cd {
        0x10u16
    } else {
        0u16
    }) + rcode_val;
    push_u16(&mut out, flags);
    push_u16(&mut out, 1);
    push_u16(
        &mut out,
        if has_payload {
            1
        } else {
            0
        },
    );
    push_u16(&mut out, 0);
    push_u16(&mut out, 0);
    push_name(&mut out, &params.question.labels);
    push_u16(&mut out, params.question.qtype);
    push_u16(&mut out, params.question.qclass);
    match params.payload {
        None => {
            proof {
                assert(out@ =~= response_wire_spec(
                    params.id,
                    params.rd,
                    params.cd,
                    ls,
                    params.question.qtype,
                    params.question.qclass,
                    None,
                    rcode_of_opt(params.rcode),
                ));
            }
            Ok(out)
        },
        Some(p) => {
            push_name(&mut out, &params.question.labels);
            push_u16(&mut out, RR_TXT);
            push_u16(&mut out, CLASS_IN);
            out.push(0);
            out.push(0);
            out.push(0);
            out.push(0);
            let mut rdata = if p.len() == 0 {
                let mut v: Vec<u8> = Vec::new();
                v.push(0);
                v
            } else {
                write_txt_chunks(p)
            };
            proof {
                assert(rdata@ == txt_rdata_spec(p@));
                lemma_txt_rdata_len(p@);
            }
            push_u16(&mut out, rdata.len() as u16);
            out.append(&mut rdata);
            proof {
                assert(out@ =~= response_wire_spec(
                    params.id,
                    params.rd,
                    params.cd,
                    ls,
                    params.question.qtype,
                    params.question.qclass,
                    Some(p@),
                    rcode_of_opt(params.rcode),
                ));
            }
            Ok(out)
        },
    }
}

/// Where an answer's owner name ends: two octets for a compression
/// pointer, else past its labels.
pub open spec fn skip_name_spec(b: Seq<u8>, pos: int) -> Option<int> {
    if 0 <= pos < b.len() && b[pos] >= 0xC0 {
        if pos + 2 <= b.len() {
            Some(pos + 2)
        } else {
            None
        }
    } else {
        match parse_labels_spec(b, pos) {
            None => None,
            Some((labels, end)) => Some(end),
        }
    }
}

/// The concatenated character-strings between `pos` and `end`.
pub open spec fn parse_txt_strings_spec(b: Seq<u8>, pos: int, end: int) -> Option<Seq<u8>>
    decreases end - pos,
{
    if pos == end {
        Some(Seq::empty())
    } else if pos < 0 || pos > end || end > b.len() {
        None
    } else {
        let l = b[pos] as int;
        if pos + 1 + l > end {
            None
        } else {
            match parse_txt_strings_spec(b, pos + 1 + l, end) {
                None => None,
                Some(rest) => Some(b.subrange(pos + 1, pos + 1 + l) + rest),
            }
        }
    }
}

/// What a response parses to: the payload carried by the first answer's
/// `TXT` strings, the empty sequence when the answer section is empty.
pub open spec fn parse_response_spec(b: Seq<u8>) -> Option<Seq<u8>> {
    if b.len() < 12 {
        None
    } else if !flags_qr(be16_spec(b, 2)) {
        None
    } else {
        match parse_labels_spec(b, 12) {
            None => None,
            Some((qlabels, qend)) => if qend + 4 > b.len() {
                None
            } else {
                let an = be16_spec(b, 6);
                let apos = qend + 4;
                if an == 0 {
                    Some(Seq::empty())
                } else {
                    match skip_name_spec(b, apos) {
                        None => None,
                        Some(nend) => if nend + 10 > b.len() {
                            None
                        } else {
                            let atype = be16_spec(b, nend);
                            let rdlen = be16_spec(b, nend + 8) as int;
                            if atype != RR_TXT {
                                None
                            } else if nend + 10 + rdlen > b.len() {
                                None
                            } else {
                                parse_txt_strings_spec(b, nend + 10, nend + 10 + rdlen)
                            }
                        },
                    }
                }
            },
        }
    }
}

/// Parse the character-strings between `pos` and `end`.
fn parse_txt_from(data: &[u8], pos: usize, end: usize) -> (r: Option<Vec<u8>>)
    requires
        end <= data@.len(),
    ensures
        match r {
            Some(p) => parse_txt_strings_spec(data@, pos as int, end as int) == Some(p@),
            None => parse_txt_strings_spec(data@, pos as int, end as int) is None,
        },
    decreases end - pos,
{
    if pos == end {
        let v: Vec<u8> = Vec::new();
        proof {
            assert(v@ =~= Seq::<u8>::empty());
        }
        return Some(v);
    }
    if pos > end {
        return None;
    }
    let l = data[pos] as usize;
    if l > end - pos - 1 {
        return None;
    }
    match parse_txt_from(data, pos + 1 + l, end) {
        None => None,
        Some(mut rest) => {
            let mut v = vstd::slice::slice_to_vec(
                vstd::slice::slice_subrange(data, pos + 1, pos + 1 + l),
            );
            v.append(&mut rest);
            Some(v)
        },
    }
}

/// Decode a response: the payload of its first `TXT` answer, empty when
/// the answer section is empty, `None` when the bytes are not a
/// well-formed response of that shape.
pub fn decode_response(data: &[u8]) -> (r: Option<Vec<u8>>)
    ensures
        match r {
            Some(p) => parse_response_spec(data@) == Some(p@),
            None => parse_response_spec(data@) is None,
        },
{
    if data.len() < 12 {
        return None;
    }
    let flags: u16 = data[2] as u16 * 256 + data[3] as u16;
    if flags < 0x8000 {
        return None;
    }
    let (_qlabels, qend) = match parse_name_from(data, 12) {
        Some(t) => t,
        None => {
            return None;
        },
    };
    if data.len() - qend < 4 {
        return None;
    }
    let an: u16 = data[6] as u16 * 256 + data[7] as u16;
    let apos = qend + 4;
    if an == 0 {
        let v: Vec<u8> = Vec::new();
        proof {
            assert(v@ =~= Seq::<u8>::empty());
        }
        return Some(v);
    }
    if apos >= data.len() {
        return None;
    }
    let nend: usize = if data[apos] >= 0xC0 {
        if data.len() - apos < 2 {
            return None;
        }
        apos + 2
    } else {
        match parse_name_from(data, apos) {
            Some((_alabels, e)) => e,
            None => {
                return None;
            },
        }
    };
    if data.len() - nend < 10 {
        return None;
    }
    let atype: u16 = data[nend] as u16 * 256 + data[nend + 1] as u16;
    let rdlen: usize = data[nend + 8] as usize * 256 + data[nend + 9] as usize;
    if atype != RR_TXT {
        return None;
    }
    if rdlen > data.len() - nend - 10 {
        return None;
    }
    parse_txt_from(data, nend + 10, nend + 10 + rdlen)
}

/// A dot-free string splits to itself alone.
pub proof fn lemma_split_nodot(s: Seq<u8>)
    requires
        label_dot_free(s),
    ensures
        split_dots(s) == seq![s],
    decreases s.len(),
{
    if s.len() > 0 {
        assert(label_dot_free(s.skip(1))) by {
            assert forall|j: int| 0 <= j < s.skip(1).len() implies (#[trigger] s.skip(1)[j])
                != 0x2eu8 by {
                assert(s.skip(1)[j] == s[j + 1]);
            }
        }
        lemma_split_nodot(s.skip(1));
        assert(split_dots(s) =~~= seq![s]) by {
            assert(seq![s[0]] + s.skip(1) =~= s);
        }
    } else {
        assert(split_dots(s) =~~= seq![s]);
    }
}

/// Splitting a dot-free prefix, a dot, and a rest peels off the prefix.
pub proof fn lemma_split_undot(a: Seq<u8>, t: Seq<u8>)
    requires
        label_dot_free(a),
    ensures
        split_dots(a + seq![0x2eu8] + t) == seq![a] + split_dots(t),
    decreases a.len(),
{
    let s = a + seq![0x2eu8] + t;
    if a.len() == 0 {
        assert(s[0] == 0x2eu8);
        assert(s.skip(1) =~= t);
        assert(split_dots(s) =~~= seq![a] + split_dots(t));
    } else {
        assert(label_dot_free(a.skip(1))) by {
            assert forall|j: int| 0 <= j < a.skip(1).len() implies (#[trigger] a.skip(1)[j])
                != 0x2eu8 by {
                assert(a.skip(1)[j] == a[j + 1]);
            }
        }
        lemma_split_undot(a.skip(1), t);
        lemma_split_dots_len(a.skip(1) + seq![0x2eu8] + t);
        assert(s[0] == a[0]);
        assert(s[0] != 0x2eu8);
        assert(s.skip(1) =~= a.skip(1) + seq![0x2eu8] + t);
        let rest = split_dots(s.skip(1));
        assert(rest == seq![a.skip(1)] + split_dots(t));
        assert(rest[0] == a.skip(1));
        assert(rest.skip(1) =~~= split_dots(t));
        assert(seq![s[0]] + rest[0] =~= a);
        assert(split_dots(s) == seq![seq![s[0]] + rest[0]] + rest.skip(1));
        assert(split_dots(s) =~~= seq![a] + split_dots(t));
    }
}

/// Splitting the dotted form of dot-free labels gives the labels back.
pub proof fn lemma_split_dotted(ls: Seq<Seq<u8>>)
    requires
        ls.len() >= 1,
        forall|i: int| 0 <= i < ls.len() ==> label_dot_free(#[trigger] ls[i]),
    ensures
        split_dots(dotted_name(ls)) == ls,
    decreases ls.len(),
{
    if ls.len() == 1 {
        lemma_split_nodot(ls[0]);
        assert(seq![ls[0]] =~~= ls);
    } else {
        assert forall|i: int| 0 <= i < ls.skip(1).len() implies label_dot_free(
            #[trigger] ls.skip(1)[i],
        ) by {
            assert(ls.skip(1)[i] == ls[i + 1]);
        }
        lemma_split_dotted(ls.skip(1));
        lemma_split_undot(ls[0], dotted_name(ls.skip(1)));
        assert(dotted_name(ls) == ls[0] + seq![0x2eu8] + dotted_name(ls.skip(1)));
        assert(split_dots(dotted_name(ls)) == seq![ls[0]] + ls.skip(1));
        assert(seq![ls[0]] + ls.skip(1) =~~= ls);
    }
}

/// Hex digits are never dots, so a hex chunk is dot-free.
pub proof fn lemma_hex_chunks_dot_free(p: Seq<u8>)
    ensures
        forall|i: int|
            0 <= i < chunks63(hex_of_bytes(p)).len() ==> label_dot_free(
                #[trigger] chunks63(hex_of_bytes(p))[i],
            ),
{
    let h = hex_of_bytes(p);
    lemma_hex_of_bytes_wf(p);
    lemma_chunks63_concat(h);
    assert forall|i: int| 0 <= i < chunks63(h).len() implies label_dot_free(
        #[trigger] chunks63(h)[i],
    ) by {
        lemma_chunk_bytes_in_string(h, i);
    }
}

/// Every byte of a chunk is a byte of the chunked string.
proof fn lemma_chunk_bytes_in_string(h: Seq<u8>, i: int)
    requires
        0 <= i < chunks63(h).len(),
        forall|k: int| 0 <= k < h.len() ==> is_hex_digit(#[trigger] h[k]),
    ensures
        label_dot_free(chunks63(h)[i]),
    decreases h.len(),
{
    if h.len() == 0 {
    } else if h.len() <= 63 {
        assert forall|j: int| 0 <= j < chunks63(h)[i].len() implies (#[trigger] chunks63(h)[i][j])
            != 0x2eu8 by {
            assert(chunks63(h)[0] == h);
            assert(is_hex_digit(h[j]));
        }
    } else {
        if i == 0 {
            assert forall|j: int|
                0 <= j < chunks63(h)[0].len() implies (#[trigger] chunks63(h)[0][j]) != 0x2eu8 by {
                assert(chunks63(h)[0] == h.take(63));
                assert(h.take(63)[j] == h[j]);
                assert(is_hex_digit(h[j]));
            }
        } else {
            assert(forall|k: int|
                0 <= k < h.skip(63).len() ==> is_hex_digit(#[trigger] h.skip(63)[k])) by {
                assert forall|k: int|
                    0 <= k < h.skip(63).len() implies is_hex_digit(#[trigger] h.skip(63)[k]) by {
                    assert(h.skip(63)[k] == h[k + 63]);
                }
            }
            lemma_chunk_bytes_in_string(h.skip(63), i - 1);
            assert(chunks63(h)[i] == chunks63(h.skip(63))[i - 1]);
        }
    }
}

/// The name a payload was packed into decodes back to the payload: the
/// built name splits into the hex chunks and the domain's labels; the
/// query wire parses to the same id, flags, and labels; the domain is the
/// best match for the name; and the labels before it spell the payload.
pub proof fn lemma_query_roundtrip(
    id: u16,
    rd: bool,
    cd: bool,
    payload: Seq<u8>,
    domain_bytes: Seq<u8>,
)
    requires
        labels_wf(split_dots(domain_bytes)),
        hex_cost_spec(payload.len() as int) <= domain_budget_spec(split_dots(domain_bytes)),
    ensures
        ({
            let dls = split_dots(domain_bytes);
            let qlabels = qname_labels_spec(payload, dls);
            let wire = query_wire_spec(id, rd, cd, qlabels, RR_TXT, CLASS_IN);
            &&& split_dots(dotted_name(qlabels)) == qlabels
            &&& labels_wf(qlabels)
            &&& name_wire(qlabels).len() <= MAX_NAME_WIRE
            &&& parse_query_spec(wire) == Some(
                (id, query_flags_spec(rd, cd), 1u16, qlabels, RR_TXT, CLASS_IN),
            )
            &&& best_domain_match(qlabels, seq![dls], 0)
            &&& payload_labels_ok(qlabels.take(qlabels.len() - dls.len()))
            &&& payload_of_labels(qlabels.take(qlabels.len() - dls.len())) == payload
        }),
{
    let dls = split_dots(domain_bytes);
    let chunks = chunks63(hex_of_bytes(payload));
    let qlabels = qname_labels_spec(payload, dls);
    let wire = query_wire_spec(id, rd, cd, qlabels, RR_TXT, CLASS_IN);

    lemma_qname_fits(payload, dls);

    lemma_split_dots_join(domain_bytes);
    lemma_hex_chunks_dot_free(payload);
    assert(qlabels.len() >= 1);
    assert forall|i: int| 0 <= i < qlabels.len() implies label_dot_free(#[trigger] qlabels[i]) by {
        if i < chunks.len() {
            assert(qlabels[i] == chunks[i]);
        } else {
            assert(qlabels[i] == dls[i - chunks.len()]);
        }
    }
    lemma_split_dotted(qlabels);

    let nw = name_wire(qlabels);
    let header = u16_bytes_spec(id) + u16_bytes_spec(query_flags_spec(rd, cd)) + u16_bytes_spec(1)
        + u16_bytes_spec(0) + u16_bytes_spec(0) + u16_bytes_spec(0);
    assert(header.len() == 12);
    assert(wire.len() == 12 + nw.len() + 4);
    assert(wire.subrange(12, 12 + nw.len() as int) =~= nw);
    lemma_parse_name_roundtrip(wire, 12, qlabels);
    let end = 12 + nw.len() as int;

    lemma_u16_bytes_roundtrip(id);
    lemma_u16_bytes_roundtrip(query_flags_spec(rd, cd));
    lemma_u16_bytes_roundtrip(1);
    lemma_u16_bytes_roundtrip(RR_TXT);
    lemma_u16_bytes_roundtrip(CLASS_IN);
    assert(wire[0] == u16_bytes_spec(id)[0] && wire[1] == u16_bytes_spec(id)[1]);
    assert(be16_spec(wire, 0) == id);
    assert(wire[2] == u16_bytes_spec(query_flags_spec(rd, cd))[0] && wire[3] == u16_bytes_spec(
        query_flags_spec(rd, cd),
    )[1]);
    assert(be16_spec(wire, 2) == query_flags_spec(rd, cd));
    assert(wire[4] == u16_bytes_spec(1)[0] && wire[5] == u16_bytes_spec(1)[1]);
    assert(be16_spec(wire, 4) == 1);
    assert(wire[end] == u16_bytes_spec(RR_TXT)[0] && wire[end + 1] == u16_bytes_spec(RR_TXT)[1]);
    assert(be16_spec(wire, end) == RR_TXT);
    assert(wire[end + 2] == u16_bytes_spec(CLASS_IN)[0] && wire[end + 3] == u16_bytes_spec(
        CLASS_IN,
    )[1]);
    assert(be16_spec(wire, end + 2) == CLASS_IN);
    assert(parse_query_spec(wire) == Some(
        (id, query_flags_spec(rd, cd), 1u16, qlabels, RR_TXT, CLASS_IN),
    ));

    let doms = seq![dls];
    assert(qlabels.skip(qlabels.len() - dls.len()) =~~= dls);
    assert(labels_ci_eq(qlabels.skip(qlabels.len() - dls.len()), dls));
    assert(is_suffix_of_ci(dls, qlabels));
    assert(best_domain_match(qlabels, doms, 0));

    let pl = qlabels.take(qlabels.len() - dls.len());
    assert(pl =~~= chunks);
    lemma_chunks63_concat(hex_of_bytes(payload));
    lemma_hex_of_bytes_wf(payload);
    assert(concat_labels(pl) == hex_of_bytes(payload));
    assert(payload_labels_ok(pl));
    lemma_hex_roundtrip(payload);
    assert(payload_of_labels(pl) == payload);
}

/// The query name that `build_qname` returns has exactly the bytes of the
/// dotted built name, so encoding it splits back to the built labels.
pub proof fn lemma_qname_string_bytes(q: &str, d: Seq<u8>)
    requires
        q@ == bytes_as_chars(d),
        bytes_lt128(d),
    ensures
        q.spec_bytes() == d,
{
    broadcast use vstd::string::is_ascii_spec_bytes;

    assert(vstd::string::is_ascii(q)) by {
        assert forall|i: int| 0 <= i < q@.len() implies '\0' <= #[trigger] q@[i] <= '\u{7f}' by {
            assert(q@[i] == d[i] as char);
        }
    }
    assert(q.spec_bytes() =~= d) by {
        assert forall|i: int| 0 <= i < q.spec_bytes().len() implies q.spec_bytes()[i] == d[i] by {
            assert(q.spec_bytes()[i] == q@[i] as u8);
            assert(q@[i] == d[i] as char);
        }
    }
}

/// Longest-suffix wins: when one configured domain has strictly fewer
/// labels than another that also suffixes the question, the match never
/// picks the shorter one.
pub proof fn lemma_longest_suffix_wins(
    q: Seq<Seq<u8>>,
    doms: Seq<Seq<Seq<u8>>>,
    ia: int,
    ib: int,
    mi: int,
)
    requires
        0 <= ia < doms.len(),
        0 <= ib < doms.len(),
        doms[ia].len() < doms[ib].len(),
        is_suffix_of_ci(doms[ib], q),
        best_domain_match(q, doms, mi),
    ensures
        doms[mi].len() >= doms[ib].len(),
        mi != ia,
{
}

/// Parsed labels are well-formed and occupy exactly their wire length.
pub proof fn lemma_parse_labels_wf(b: Seq<u8>, pos: int)
    ensures
        parse_labels_spec(b, pos) matches Some((labels, end)) ==> labels_wf(labels) && name_wire(
            labels,
        ).len() == end - pos,
    decreases b.len() - pos,
{
    if 0 <= pos < b.len() {
        let l = b[pos] as int;
        if 1 <= l <= 63 && pos + 1 + l <= b.len() {
            lemma_parse_labels_wf(b, pos + 1 + l);
            match parse_labels_spec(b, pos + 1 + l) {
                None => {},
                Some((rest, end)) => {
                    let labels = seq![b.subrange(pos + 1, pos + 1 + l)] + rest;
                    assert forall|i: int| 0 <= i < labels.len() implies 1 <= (
                    #[trigger] labels[i]).len() <= MAX_LABEL_LEN by {
                        if i > 0 {
                            assert(labels[i] == rest[i - 1]);
                        }
                    }
                    assert(labels.skip(1) =~= rest);
                    assert(labels_wire(labels) =~= seq![l as u8] + b.subrange(pos + 1, pos + 1 + l)
                        + labels_wire(rest));
                },
            }
        }
    }
}

/// One response per accepted query: the question a decode produces has
/// well-formed labels whose wire form fits inside the query itself, so a
/// query of wire-limit size always meets `respond_to_slot`'s conditions
/// for its single answer.
pub proof fn lemma_accepted_query_answerable(data: Seq<u8>, domains: Seq<&str>, d: DecodedQuery)
    requires
        decode_ok_spec(data, domains, d),
    ensures
        labels_wf(d.question.labels_seq()),
        name_wire(d.question.labels_seq()).len() <= MAX_NAME_WIRE,
{
    lemma_parse_labels_wf(data, 12);
    lemma_parse_labels_bounds(data, 12);
}

/// The `TXT` rdata written for a payload parses back to the payload,
/// wherever it sits in a larger buffer.
proof fn lemma_parse_txt_roundtrip(b: Seq<u8>, pos: int, p: Seq<u8>)
    requires
        0 <= pos,
        pos + txt_rdata_spec(p).len() <= b.len(),
        b.subrange(pos, pos + txt_rdata_spec(p).len() as int) == txt_rdata_spec(p),
    ensures
        parse_txt_strings_spec(b, pos, pos + txt_rdata_spec(p).len() as int) == Some(p),
    decreases p.len(),
{
    let rd = txt_rdata_spec(p);
    let end = pos + rd.len() as int;
    assert(b.subrange(pos, end)[0] == b[pos]);
    if p.len() == 0 {
        assert(b[pos] == 0);
        assert(parse_txt_strings_spec(b, pos + 1, end) == Some(Seq::<u8>::empty()));
        assert(b.subrange(pos + 1, pos + 1) + Seq::<u8>::empty() =~= p);
    } else if p.len() <= 255 {
        assert(rd =~= seq![p.len() as u8] + p);
        assert(b[pos] == p.len() as u8);
        let l = p.len() as int;
        assert(b.subrange(pos + 1, pos + 1 + l) =~= p) by {
            assert forall|k: int| 0 <= k < l implies b.subrange(pos + 1, pos + 1 + l)[k] == p[k] by {
                assert(b[pos + 1 + k] == b.subrange(pos, end)[1 + k]);
                assert(rd[1 + k] == p[k]);
            }
        }
        assert(parse_txt_strings_spec(b, pos + 1 + l, end) == Some(Seq::<u8>::empty()));
        assert(b.subrange(pos + 1, pos + 1 + l) + Seq::<u8>::empty() =~= p);
    } else {
        let head = p.take(255);
        let tail = p.skip(255);
        let tail_rd = txt_rdata_spec(tail);
        assert(tail_rd == txt_chunks_wire(tail));
        assert(rd =~= seq![255u8] + head + tail_rd);
        assert(b[pos] == 255);
        assert(b.subrange(pos + 1, pos + 256) =~= head) by {
            assert forall|k: int| 0 <= k < 255 implies b.subrange(pos + 1, pos + 256)[k]
                == head[k] by {
                assert(b[pos + 1 + k] == b.subrange(pos, end)[1 + k]);
                assert(rd[1 + k] == head[k]);
            }
        }
        assert(b.subrange(pos + 256, pos + 256 + tail_rd.len() as int) =~= tail_rd) by {
            assert forall|k: int| 0 <= k < tail_rd.len() implies b.subrange(
                pos + 256,
                pos + 256 + tail_rd.len() as int,
            )[k] == tail_rd[k] by {
                assert(b[pos + 256 + k] == b.subrange(pos, end)[256 + k]);
                assert(rd[256 + k] == tail_rd[k]);
            }
        }
        lemma_parse_txt_roundtrip(b, pos + 256, tail);
        assert(parse_txt_strings_spec(b, pos, end) == Some(b.subrange(pos + 1, pos + 256) + tail));
        assert(b.subrange(pos + 1, pos + 256) + tail =~= p);
    }
}

/// Response round-trip: a response built for a question with a payload
/// parses back to exactly that payload, and one built without a payload
/// parses to the empty one.
#[verifier::spinoff_prover]
#[verifier::rlimit(100)]
pub proof fn lemma_response_roundtrip(
    id: u16,
    rd: bool,
    cd: bool,
    labels: Seq<Seq<u8>>,
    qtype: u16,
    qclass: u16,
    payload: Option<Seq<u8>>,
    rcode: u16,
)
    requires
        labels_wf(labels),
        name_wire(labels).len() <= MAX_NAME_WIRE,
        rcode <= 15,
        payload matches Some(p) ==> p.len() <= 65000,
    ensures
        parse_response_spec(response_wire_spec(id, rd, cd, labels, qtype, qclass, payload, rcode))
            == Some(
            match payload {
                Some(p) => p,
                None => Seq::<u8>::empty(),
            },
        ),
{
    let w = response_wire_spec(id, rd, cd, labels, qtype, qclass, payload, rcode);
    let nw = name_wire(labels);
    let flags = response_flags_spec(rd, cd, rcode);
    let an: u16 = if payload is Some {
        1u16
    } else {
        0u16
    };
    let header = u16_bytes_spec(id) + u16_bytes_spec(flags) + u16_bytes_spec(1) + u16_bytes_spec(
        an,
    ) + u16_bytes_spec(0) + u16_bytes_spec(0);
    assert(header.len() == 12);
    let qsec = nw + u16_bytes_spec(qtype) + u16_bytes_spec(qclass);

    lemma_u16_bytes_roundtrip(flags);
    lemma_u16_bytes_roundtrip(an);
    lemma_response_flags_roundtrip(rd, cd, rcode);

    match payload {
        None => {
            assert(w =~= header + qsec);
            assert(w.len() == 12 + nw.len() + 4);
            assert(w[2] == u16_bytes_spec(flags)[0] && w[3] == u16_bytes_spec(flags)[1]);
            assert(be16_spec(w, 2) == flags);
            assert(w[6] == u16_bytes_spec(an)[0] && w[7] == u16_bytes_spec(an)[1]);
            assert(be16_spec(w, 6) == 0);
            assert(w.subrange(12, 12 + nw.len() as int) =~= nw);
            lemma_parse_name_roundtrip(w, 12, labels);
        },
        Some(p) => {
            let rdata = txt_rdata_spec(p);
            lemma_txt_rdata_len(p);
            assert(rdata.len() <= 65535);
            let tail = nw + u16_bytes_spec(RR_TXT) + u16_bytes_spec(CLASS_IN) + seq![
                0u8,
                0u8,
                0u8,
                0u8,
            ] + u16_bytes_spec(rdata.len() as u16) + rdata;
            assert(w =~= header + qsec + tail);
            let qend = 12 + nw.len() as int;
            let apos = qend + 4;
            let nend = apos + nw.len() as int;
            assert(w.len() == nend + 10 + rdata.len());

            assert(w[2] == u16_bytes_spec(flags)[0] && w[3] == u16_bytes_spec(flags)[1]);
            assert(be16_spec(w, 2) == flags);
            assert(w[6] == u16_bytes_spec(an)[0] && w[7] == u16_bytes_spec(an)[1]);
            assert(be16_spec(w, 6) == 1);

            assert(w.subrange(12, qend) =~= nw);
            lemma_parse_name_roundtrip(w, 12, labels);

            assert(w.subrange(apos, nend) =~= nw) by {
                assert forall|k: int| 0 <= k < nw.len() implies w.subrange(apos, nend)[k]
                    == nw[k] by {
                    assert(w[apos + k] == tail[k]);
                }
            }
            lemma_parse_name_roundtrip(w, apos, labels);
            assert(w[apos] == nw[0]);
            assert(nw[0] < 0xC0) by {
                if labels.len() == 0 {
                    assert(labels_wire(labels) == Seq::<u8>::empty());
                    assert(nw =~= seq![0u8]);
                } else {
                    assert(labels_wire(labels) == seq![labels[0].len() as u8] + labels[0]
                        + labels_wire(labels.skip(1)));
                    assert(nw[0] == labels[0].len() as u8);
                    assert(1 <= labels[0].len() <= MAX_LABEL_LEN);
                }
            }
            assert(skip_name_spec(w, apos) == Some(nend));

            lemma_u16_bytes_roundtrip(RR_TXT);
            lemma_u16_bytes_roundtrip(rdata.len() as u16);
            assert(w[nend] == tail[nw.len() as int]);
            assert(w[nend + 1] == tail[nw.len() as int + 1]);
            assert(w[nend] == u16_bytes_spec(RR_TXT)[0] && w[nend + 1] == u16_bytes_spec(
                RR_TXT,
            )[1]);
            assert(be16_spec(w, nend) == RR_TXT);
            assert(w[nend + 8] == tail[nw.len() as int + 8]);
            assert(w[nend + 9] == tail[nw.len() as int + 9]);
            assert(w[nend + 8] == u16_bytes_spec(rdata.len() as u16)[0] && w[nend + 9]
                == u16_bytes_spec(rdata.len() as u16)[1]);
            assert(be16_spec(w, nend + 8) == rdata.len() as u16);

            assert(w.subrange(nend + 10, nend + 10 + rdata.len() as int) =~= rdata) by {
                assert forall|k: int| 0 <= k < rdata.len() implies w.subrange(
                    nend + 10,
                    nend + 10 + rdata.len() as int,
                )[k] == rdata[k] by {
                    assert(w[nend + 10 + k] == tail[nw.len() as int + 10 + k]);
                }
            }
            lemma_parse_txt_roundtrip(w, nend + 10, p);
        },
    }
}

/// The wire bytes of a header-only error response: no question, no
/// answer, just the echoed id and flag bits with the error code.
pub open spec fn error_response_wire_spec(id: u16, rd: bool, cd: bool, rcode: u16) -> Seq<u8> {
    u16_bytes_spec(id) + u16_bytes_spec(response_flags_spec(rd, cd, rcode)) + u16_bytes_spec(0)
        + u16_bytes_spec(0) + u16_bytes_spec(0) + u16_bytes_spec(0)
}

/// Encode a header-only error response, for queries whose question could
/// not be parsed or echoed (a query with no question gets `FORMERR`).
pub fn encode_error_response(id: u16, rd: bool, cd: bool, rcode: Rcode) -> (r: Vec<u8>)
    ensures
        r@ == error_response_wire_spec(id, rd, cd, rcode_code_spec(rcode)),
{
    let mut out: Vec<u8> = Vec::new();
    push_u16(&mut out, id);
    let flags: u16 = 0x8000 + 0x400 + (if rd {
        0x100u16
    } else {
        0u16
    }) + (if cd {
        0x10u16
    } else {
        0u16
    }) + rcode.code();
    push_u16(&mut out, flags);
    push_u16(&mut out, 0);
    push_u16(&mut out, 0);
    push_u16(&mut out, 0);
    push_u16(&mut out, 0);
    proof {
        assert(out@ =~= error_response_wire_spec(id, rd, cd, rcode_code_spec(rcode)));
    }
    out
}

} // verus!
