//! Socket addresses as plain values.
//!
//! The tunnel compares resolver addresses for equality after mapping IPv4
//! into IPv6, so both families are carried as integers here. Turning a
//! host name into an address is name resolution, which is I/O and happens
//! outside the library; IPv4 literals are parsed here.

use vstd::prelude::*;

verus! {

/// A socket address: the IP as an integer, and the port.
#[derive(Debug, Clone, Copy, PartialEq, Eq, Structural)]
pub enum SockAddr {
    /// An IPv4 address and port.
    V4 {
        /// The four octets, big-endian.
        addr: u32,
        /// The port.
        port: u16,
    },
    /// An IPv6 address and port.
    V6 {
        /// The sixteen octets, big-endian.
        addr: u128,
        /// The port.
        port: u16,
    },
}

/// The dual-stack normal form: IPv4 mapped into IPv6, IPv6 unchanged.
pub open spec fn normalize_addr_spec(a: SockAddr) -> SockAddr {
    match a {
        SockAddr::V4 { addr, port } => SockAddr::V6 {
            addr: (0xffff00000000u128 + addr as u128) as u128,
            port,
        },
        SockAddr::V6 { addr, port } => SockAddr::V6 { addr, port },
    }
}

/// Map an address to its dual-stack normal form: an IPv4 address becomes
/// the corresponding IPv4-mapped IPv6 address, an IPv6 address stays.
pub fn normalize_dual_stack_addr(a: SockAddr) -> (r: SockAddr)
    ensures
        r == normalize_addr_spec(a),
{
    match a {
        SockAddr::V4 { addr, port } => SockAddr::V6 {
            addr: 0xffff00000000u128 + addr as u128,
            port,
        },
        SockAddr::V6 { addr, port } => SockAddr::V6 { addr, port },
    }
}

/// Normalization is idempotent: a normalized address normalizes to itself.
pub proof fn lemma_normalize_idempotent(a: SockAddr)
    ensures
        normalize_addr_spec(normalize_addr_spec(a)) == normalize_addr_spec(a),
{
}

/// The IPv4 address a dotted-quad literal spells: four decimal octets,
/// each up to 255, single octets unpadded (no leading zeros).
pub open spec fn ipv4_literal_spec(s: Seq<u8>) -> Option<u32> {
    match crate::config::find_byte_spec(s, 0x2eu8) {
        None => None,
        Some(d1) => match crate::config::find_byte_spec(s.skip(d1 + 1), 0x2eu8) {
            None => None,
            Some(d2) => match crate::config::find_byte_spec(s.skip(d1 + 1).skip(d2 + 1), 0x2eu8) {
                None => None,
                Some(d3) => {
                    let p1 = s.take(d1);
                    let p2 = s.skip(d1 + 1).take(d2);
                    let p3 = s.skip(d1 + 1).skip(d2 + 1).take(d3);
                    let p4 = s.skip(d1 + 1).skip(d2 + 1).skip(d3 + 1);
                    match (octet_spec(p1), octet_spec(p2), octet_spec(p3), octet_spec(p4)) {
                        (Some(a), Some(b), Some(c), Some(d)) => Some(
                            (a * 0x1000000 + b * 0x10000 + c * 0x100 + d) as u32,
                        ),
                        _ => None,
                    }
                },
            },
        },
    }
}

/// The value of one dotted-quad octet: one to three digits, at most 255,
/// without a superfluous leading zero.
pub open spec fn octet_spec(s: Seq<u8>) -> Option<u32> {
    if 1 <= s.len() <= 3 && crate::config::all_digits(s) && crate::config::dec_value_spec(s) <= 255
        && (s.len() == 1 || s[0] != 0x30) {
        Some(crate::config::dec_value_spec(s) as u32)
    } else {
        None
    }
}

/// Parse one dotted-quad octet.
fn parse_octet(s: &[u8]) -> (r: Option<u32>)
    ensures
        r == octet_spec(s@),
{
    let n = s.len();
    if n == 0 || n > 3 {
        return None;
    }
    if n > 1 && s[0] == 0x30 {
        return None;
    }
    let mut acc: u32 = 0;
    let mut i: usize = 0;
    proof {
        assert(s@.take(0) =~= Seq::<u8>::empty());
    }
    while i < n
        invariant
            n == s@.len(),
            n <= 3,
            0 <= i <= n,
            forall|k: int| 0 <= k < i ==> 0x30 <= (#[trigger] s@[k]) <= 0x39,
            acc == crate::config::dec_value_spec(s@.take(i as int)),
            i < 1 ==> acc == 0,
            i < 2 ==> acc <= 9,
            i < 3 ==> acc <= 99,
            acc <= 999,
        decreases n - i,
    {
        let c = s[i];
        if c < 0x30 || c > 0x39 {
            proof {
                assert(!crate::config::all_digits(s@));
            }
            return None;
        }
        proof {
            assert(s@.take(i as int + 1).drop_last() =~= s@.take(i as int));
        }
        acc = acc * 10 + (c - 0x30) as u32;
        proof {
            if i as int + 1 == n {
                assert(s@.take(n as int) =~= s@);
            }
        }
        i += 1;
    }
    proof {
        assert(s@.take(n as int) =~= s@);
    }
    if acc > 255 {
        return None;
    }
    Some(acc)
}

/// Parse a dotted-quad IPv4 literal.
pub fn parse_ipv4_literal(s: &[u8]) -> (r: Option<u32>)
    ensures
        r == ipv4_literal_spec(s@),
{
    let d1 = match crate::config::find_byte(s, 0x2e) {
        Some(d) => {
            proof {
                crate::config::lemma_find_byte_spec(s@, 0x2eu8);
            }
            d
        },
        None => {
            return None;
        },
    };
    let sl = s.len();
    proof {
        assert(d1 < sl);
    }
    let rest1 = vstd::slice::slice_subrange(s, d1 + 1, sl);
    proof {
        assert(rest1@ =~= s@.skip(d1 as int + 1));
    }
    let d2 = match crate::config::find_byte(rest1, 0x2e) {
        Some(d) => {
            proof {
                crate::config::lemma_find_byte_spec(rest1@, 0x2eu8);
            }
            d
        },
        None => {
            return None;
        },
    };
    let r1l = rest1.len();
    proof {
        assert(d2 < r1l);
    }
    let rest2 = vstd::slice::slice_subrange(rest1, d2 + 1, r1l);
    proof {
        assert(rest2@ =~= rest1@.skip(d2 as int + 1));
    }
    let d3 = match crate::config::find_byte(rest2, 0x2e) {
        Some(d) => {
            proof {
                crate::config::lemma_find_byte_spec(rest2@, 0x2eu8);
            }
            d
        },
        None => {
            return None;
        },
    };
    let r2l = rest2.len();
    proof {
        assert(d3 < r2l);
    }
    let p1 = vstd::slice::slice_subrange(s, 0, d1);
    let p2 = vstd::slice::slice_subrange(rest1, 0, d2);
    let p3 = vstd::slice::slice_subrange(rest2, 0, d3);
    let p4 = vstd::slice::slice_subrange(rest2, d3 + 1, r2l);
    proof {
        assert(p1@ =~= s@.take(d1 as int));
        assert(p2@ =~= s@.skip(d1 as int + 1).take(d2 as int));
        assert(p3@ =~= s@.skip(d1 as int + 1).skip(d2 as int + 1).take(d3 as int));
        assert(p4@ =~= s@.skip(d1 as int + 1).skip(d2 as int + 1).skip(d3 as int + 1));
    }
    let a = match parse_octet(p1) {
        Some(v) => v,
        None => {
            return None;
        },
    };
    let b = match parse_octet(p2) {
        Some(v) => v,
        None => {
            return None;
        },
    };
    let c = match parse_octet(p3) {
        Some(v) => v,
        None => {
            return None;
        },
    };
    let d = match parse_octet(p4) {
        Some(v) => v,
        None => {
            return None;
        },
    };
    proof {
        crate::config::lemma_dec_value_prefix(p1@, 0);
        crate::config::lemma_dec_value_prefix(p2@, 0);
        crate::config::lemma_dec_value_prefix(p3@, 0);
        crate::config::lemma_dec_value_prefix(p4@, 0);
        assert(a <= 255 && b <= 255 && c <= 255 && d <= 255);
    }
    Some(a * 0x1000000 + b * 0x10000 + c * 0x100 + d)
}

} // verus!
