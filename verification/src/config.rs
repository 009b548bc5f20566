//! Configuration types and address parsing shared by client and server.
//!
//! Hosts and ports arrive as command-line text; parsing validates them
//! and normalizes domains before anything touches the network. Name
//! resolution itself is I/O and happens outside the library; these
//! parsers accept the textual forms and report configuration errors.

use vstd::prelude::*;
use vstd::string::StringExecFns;
use vstd::string::StringSliceAdditionalSpecFns;

verus! {

/// QUIC error code the tunnel closes connections with.
pub const SLIPSTREAM_INTERNAL_ERROR: u64 = 0x101;

/// QUIC error code for cancelled streams.
pub const SLIPSTREAM_FILE_CANCEL_ERROR: u64 = 0x105;

/// Resolver operating mode.
#[derive(Debug, Clone, Copy, PartialEq, Eq, Structural)]
pub enum ResolverMode {
    /// A normal DNS forwarder; the server can only answer what is asked.
    Recursive,
    /// Direct DNS to the tunnel server; any query can carry an answer.
    Authoritative,
}

/// Resolver specification with address and mode.
#[derive(Debug, Clone)]
pub struct ResolverSpec {
    /// The resolver's textual address.
    pub resolver: HostPort,
    /// Whether the resolver is recursive or authoritative.
    pub mode: ResolverMode,
}

/// Client configuration.
#[derive(Debug)]
pub struct ClientConfig<'a> {
    /// Local TCP port to accept connections on.
    pub tcp_listen_port: u16,
    /// The resolvers, in command-line order.
    pub resolvers: &'a [ResolverSpec],
    /// The domain queries are built under.
    pub domain: &'a str,
    /// Path of a certificate pinned as the only trusted CA.
    pub cert: Option<&'a str>,
    /// Congestion control algorithm override.
    pub congestion_control: Option<&'a str>,
    /// Whether to use generic segmentation offload.
    pub gso: bool,
    /// Keep-alive interval in milliseconds.
    pub keep_alive_interval: usize,
    /// Log poll pacing decisions.
    pub debug_poll: bool,
    /// Log per-stream events.
    pub debug_streams: bool,
}

/// Which textual address family a host was written in.
#[derive(Debug, Clone, Copy, PartialEq, Eq, Structural)]
pub enum AddressFamily {
    /// A plain host, IPv4 or name.
    V4,
    /// A bracketed IPv6 host.
    V6,
}

/// A host and port as written on the command line.
#[derive(Debug, Clone)]
pub struct HostPort {
    /// The host: an address literal or a name.
    pub host: String,
    /// The port.
    pub port: u16,
    /// The family the address was written in.
    pub family: AddressFamily,
}

/// A configuration error with a message for the operator.
#[derive(Debug, Clone)]
pub struct ConfigError {
    message: String,
}

impl View for ConfigError {
    type V = Seq<char>;

    closed spec fn view(&self) -> Seq<char> {
        self.message@
    }
}

impl ConfigError {
    /// Wrap a message.
    pub fn new(message: String) -> (r: Self)
        ensures
            r@ == message@,
    {
        ConfigError { message }
    }

    /// The message.
    pub fn message(&self) -> (r: &str)
        ensures
            r@ == self@,
    {
        self.message.as_str()
    }
}

/// What an address names, for error messages.
#[derive(Debug, Clone, Copy)]
pub enum AddressKind {
    /// A resolver to send queries to.
    Resolver,
    /// The target service the server bridges to.
    Target,
}

impl AddressKind {
    /// The word used for this kind in error messages.
    pub fn label(self) -> (r: &'static str) {
        match self {
            AddressKind::Resolver => "resolver",
            AddressKind::Target => "target",
        }
    }
}

/// ASCII whitespace, as `str::trim` removes at the ends of ASCII text.
pub open spec fn is_space(b: u8) -> bool {
    b == 0x20 || b == 0x09 || b == 0x0a || b == 0x0d || b == 0x0b || b == 0x0c
}

/// Whether a byte is ASCII whitespace.
fn is_space_byte(c: u8) -> (r: bool)
    ensures
        r == is_space(c),
{
    c == 0x20 || c == 0x09 || c == 0x0a || c == 0x0d || c == 0x0b || c == 0x0c
}

/// The string without leading whitespace.
pub open spec fn trim_start_spec(s: Seq<u8>) -> Seq<u8>
    decreases s.len(),
{
    if s.len() > 0 && is_space(s[0]) {
        trim_start_spec(s.skip(1))
    } else {
        s
    }
}

/// The string without trailing whitespace.
pub open spec fn trim_end_spec(s: Seq<u8>) -> Seq<u8>
    decreases s.len(),
{
    if s.len() > 0 && is_space(s.last()) {
        trim_end_spec(s.drop_last())
    } else {
        s
    }
}

/// The string without trailing dots.
pub open spec fn trim_dots_end_spec(s: Seq<u8>) -> Seq<u8>
    decreases s.len(),
{
    if s.len() > 0 && s.last() == 0x2eu8 {
        trim_dots_end_spec(s.drop_last())
    } else {
        s
    }
}

/// A domain normalized: whitespace trimmed, then trailing dots removed.
pub open spec fn normalized_domain_spec(s: Seq<u8>) -> Seq<u8> {
    trim_dots_end_spec(trim_end_spec(trim_start_spec(s)))
}

/// Trimming the start keeps a suffix: the bytes from the first non-space.
proof fn lemma_trim_start_at(s: Seq<u8>, i: int)
    requires
        0 <= i <= s.len(),
        forall|k: int| 0 <= k < i ==> is_space(#[trigger] s[k]),
        i < s.len() ==> !is_space(s[i]),
    ensures
        trim_start_spec(s) == s.skip(i),
    decreases i,
{
    if i == 0 {
        if s.len() > 0 {
            assert(!is_space(s[0]));
        }
        assert(s.skip(0) =~= s);
    } else {
        assert(is_space(s[0]));
        assert forall|k: int| 0 <= k < i - 1 implies is_space(#[trigger] s.skip(1)[k]) by {
            assert(s.skip(1)[k] == s[k + 1]);
        }
        assert(i - 1 < s.skip(1).len() ==> !is_space(s.skip(1)[i - 1]));
        lemma_trim_start_at(s.skip(1), i - 1);
        assert(s.skip(1).skip(i - 1) =~= s.skip(i));
    }
}

/// Trimming the end keeps a prefix: the bytes up to the last non-space.
proof fn lemma_trim_end_at(s: Seq<u8>, j: int)
    requires
        0 <= j <= s.len(),
        forall|k: int| j <= k < s.len() ==> is_space(#[trigger] s[k]),
        j > 0 ==> !is_space(s[j - 1]),
    ensures
        trim_end_spec(s) == s.take(j),
    decreases s.len() - j,
{
    if j == s.len() {
        if s.len() > 0 {
            assert(!is_space(s.last()));
        }
        assert(s.take(j) =~= s);
    } else {
        assert(is_space(s.last()));
        assert forall|k: int| j <= k < s.drop_last().len() implies is_space(
            #[trigger] s.drop_last()[k],
        ) by {
            assert(s.drop_last()[k] == s[k]);
        }
        assert(j > 0 ==> !is_space(s.drop_last()[j - 1]));
        lemma_trim_end_at(s.drop_last(), j);
        assert(s.drop_last().take(j) =~= s.take(j));
    }
}

/// Trimming dots keeps a prefix: the bytes up to the last non-dot.
pub(crate) proof fn lemma_trim_dots_at(s: Seq<u8>, j: int)
    requires
        0 <= j <= s.len(),
        forall|k: int| j <= k < s.len() ==> (#[trigger] s[k]) == 0x2eu8,
        j > 0 ==> s[j - 1] != 0x2eu8,
    ensures
        trim_dots_end_spec(s) == s.take(j),
    decreases s.len() - j,
{
    if j == s.len() {
        if s.len() > 0 {
            assert(s.last() != 0x2eu8);
        }
        assert(s.take(j) =~= s);
    } else {
        assert(s.last() == 0x2eu8);
        assert forall|k: int| j <= k < s.drop_last().len() implies (#[trigger] s.drop_last()[k])
            == 0x2eu8 by {
            assert(s.drop_last()[k] == s[k]);
        }
        assert(j > 0 ==> s.drop_last()[j - 1] != 0x2eu8);
        lemma_trim_dots_at(s.drop_last(), j);
        assert(s.drop_last().take(j) =~= s.take(j));
    }
}

/// Normalize a domain: trim surrounding whitespace and trailing dots.
/// Errors when the input is not ASCII or nothing remains.
pub fn normalize_domain(input: &str) -> (r: Result<String, ConfigError>)
    ensures
        r is Ok <==> (input.is_ascii() && normalized_domain_spec(input.spec_bytes()).len() > 0),
        r matches Ok(d) ==> d@ == crate::dns::bytes_as_chars(
            normalized_domain_spec(input.spec_bytes()),
        ),
{
    broadcast use vstd::string::is_ascii_spec_bytes;

    if !input.is_ascii() {
        return Err(ConfigError::new(String::from_str("Domain must be ASCII")));
    }
    let b = input.as_bytes();
    let n = b.len();
    let ghost bs = input.spec_bytes();

    let mut i: usize = 0;
    while i < n && is_space_byte(b[i])
        invariant
            n == bs.len(),
            b@ == bs,
            0 <= i <= n,
            forall|k: int| 0 <= k < i ==> is_space(#[trigger] bs[k]),
        decreases n - i,
    {
        i += 1;
    }
    proof {
        lemma_trim_start_at(bs, i as int);
    }
    let ghost t1 = bs.skip(i as int);

    let mut j: usize = n;
    while j > i && is_space_byte(b[j - 1])
        invariant
            n == bs.len(),
            b@ == bs,
            0 <= i <= j <= n,
            forall|k: int| 0 <= k < i ==> is_space(#[trigger] bs[k]),
            forall|k: int| j <= k < n ==> is_space(#[trigger] bs[k]),
        decreases j,
    {
        j -= 1;
    }
    proof {
        assert forall|k: int| j - i <= k < t1.len() implies is_space(#[trigger] t1[k]) by {
            assert(t1[k] == bs[k + i]);
        }
        if j > i {
            assert(t1[j - i - 1] == bs[j - 1]);
        }
        lemma_trim_end_at(t1, j - i);
    }
    let ghost t2 = t1.take(j - i);

    let mut m: usize = j;
    while m > i && b[m - 1] == 0x2e
        invariant
            n == bs.len(),
            b@ == bs,
            0 <= i <= m <= j <= n,
            forall|k: int| m <= k < j ==> (#[trigger] bs[k]) == 0x2eu8,
        decreases m,
    {
        m -= 1;
    }
    proof {
        assert(t2.len() == j - i);
        assert forall|k: int| m - i <= k < t2.len() implies (#[trigger] t2[k]) == 0x2eu8 by {
            assert(t2[k] == bs[k + i]);
        }
        if m > i {
            assert(t2[m - i - 1] == bs[m - 1]);
        }
        lemma_trim_dots_at(t2, m - i);
        assert(t2.take(m - i) =~= bs.subrange(i as int, m as int));
        assert(normalized_domain_spec(bs) == bs.subrange(i as int, m as int));
    }

    if m == i {
        return Err(ConfigError::new(String::from_str("Domain must not be empty")));
    }
    let out = vstd::slice::slice_subrange(b, i, m);
    proof {
        assert(out@ == bs.subrange(i as int, m as int));
        assert forall|k: int| 0 <= k < out@.len() implies out@[k] < 128 by {
            assert(out@[k] == bs[k + i]);
            assert(bs[k + i] == input@[k + i] as u8);
        }
    }
    Ok(crate::dns::ascii_bytes_to_string(out))
}

/// The first position of a byte, if it occurs.
pub open spec fn find_byte_spec(s: Seq<u8>, c: u8) -> Option<int>
    decreases s.len(),
{
    if s.len() == 0 {
        None
    } else if s[0] == c {
        Some(0int)
    } else {
        match find_byte_spec(s.skip(1), c) {
            None => None,
            Some(i) => Some(i + 1),
        }
    }
}

/// A found position is in range, holds the byte, and nothing earlier does.
pub proof fn lemma_find_byte_spec(s: Seq<u8>, c: u8)
    ensures
        match find_byte_spec(s, c) {
            Some(i) => 0 <= i < s.len() && s[i] == c && forall|k: int| 0 <= k < i ==> s[k] != c,
            None => forall|k: int| 0 <= k < s.len() ==> s[k] != c,
        },
    decreases s.len(),
{
    if s.len() > 0 && s[0] != c {
        lemma_find_byte_spec(s.skip(1), c);
        match find_byte_spec(s.skip(1), c) {
            Some(i) => {
                assert(s[i + 1] == s.skip(1)[i]);
                assert forall|k: int| 0 <= k < i + 1 implies s[k] != c by {
                    if k > 0 {
                        assert(s.skip(1)[k - 1] == s[k]);
                    }
                }
            },
            None => {
                assert forall|k: int| 0 <= k < s.len() implies s[k] != c by {
                    if k > 0 {
                        assert(s.skip(1)[k - 1] == s[k]);
                    }
                }
            },
        }
    }
}

/// Find the first position of a byte.
pub(crate) fn find_byte(b: &[u8], c: u8) -> (r: Option<usize>)
    ensures
        match r {
            Some(i) => find_byte_spec(b@, c) == Some(i as int),
            None => find_byte_spec(b@, c) is None,
        },
{
    let n = b.len();
    let mut i: usize = 0;
    while i < n
        invariant
            n == b@.len(),
            0 <= i <= n,
            forall|k: int| 0 <= k < i ==> b@[k] != c,
        decreases n - i,
    {
        if b[i] == c {
            proof {
                lemma_find_byte_spec(b@, c);
                match find_byte_spec(b@, c) {
                    Some(w) => {
                        assert(w == i as int);
                    },
                    None => {
                        assert(b@[i as int] != c);
                    },
                }
            }
            return Some(i);
        }
        i += 1;
    }
    proof {
        lemma_find_byte_spec(b@, c);
        match find_byte_spec(b@, c) {
            Some(w) => {
                assert(b@[w] != c);
            },
            None => {},
        }
    }
    None
}

/// Whether every byte is an ASCII digit.
pub open spec fn all_digits(s: Seq<u8>) -> bool {
    forall|k: int| 0 <= k < s.len() ==> 0x30 <= (#[trigger] s[k]) <= 0x39
}

/// The decimal value a digit string spells.
pub open spec fn dec_value_spec(s: Seq<u8>) -> int
    decreases s.len(),
{
    if s.len() == 0 {
        0int
    } else {
        dec_value_spec(s.drop_last()) * 10 + (s.last() - 0x30)
    }
}

/// Decimal values are non-negative and grow along prefixes.
pub proof fn lemma_dec_value_prefix(s: Seq<u8>, k: int)
    requires
        all_digits(s),
        0 <= k <= s.len(),
    ensures
        dec_value_spec(s) >= dec_value_spec(s.take(k)) >= 0,
    decreases s.len(),
{
    if s.len() == 0 {
        assert(s.take(k) =~= s);
    } else {
        assert(all_digits(s.drop_last())) by {
            assert forall|m: int| 0 <= m < s.drop_last().len() implies 0x30 <= (
            #[trigger] s.drop_last()[m]) <= 0x39 by {
                assert(s.drop_last()[m] == s[m]);
            }
        }
        lemma_dec_value_prefix(s.drop_last(), if k <= s.len() - 1 {
            k
        } else {
            s.len() - 1
        });
        assert(dec_value_spec(s.drop_last()) >= 0);
        assert(dec_value_spec(s) >= dec_value_spec(s.drop_last())) by (nonlinear_arith)
            requires
                dec_value_spec(s) == dec_value_spec(s.drop_last()) * 10 + (s.last() - 0x30),
                dec_value_spec(s.drop_last()) >= 0,
                0x30 <= s.last() <= 0x39,
        ;
        if k <= s.len() - 1 {
            assert(s.drop_last().take(k) =~= s.take(k));
        } else {
            assert(s.take(k) =~= s);
        }
    }
}

/// A port a digit string spells: between 1 and 65535.
pub open spec fn port_spec(s: Seq<u8>) -> Option<u16> {
    if s.len() > 0 && all_digits(s) && 1 <= dec_value_spec(s) <= 65535 {
        Some(dec_value_spec(s) as u16)
    } else {
        None
    }
}

/// Parse a port from a digit string. Succeeds exactly when the string is
/// non-empty, all digits, and spells a value from 1 to 65535.
fn parse_port_bytes(s: &[u8]) -> (r: Option<u16>)
    ensures
        r == port_spec(s@),
{
    let n = s.len();
    if n == 0 {
        return None;
    }
    let mut acc: u32 = 0;
    let mut i: usize = 0;
    proof {
        assert(s@.take(0) =~= Seq::<u8>::empty());
    }
    while i < n
        invariant
            n == s@.len(),
            0 <= i <= n,
            forall|k: int| 0 <= k < i ==> 0x30 <= (#[trigger] s@[k]) <= 0x39,
            acc == dec_value_spec(s@.take(i as int)),
            acc <= 65535,
        decreases n - i,
    {
        let c = s[i];
        if c < 0x30 || c > 0x39 {
            proof {
                assert(!all_digits(s@));
            }
            return None;
        }
        let d: u32 = (c - 0x30) as u32;
        let nv: u32 = acc * 10 + d;
        proof {
            assert(s@.take(i as int + 1).drop_last() =~= s@.take(i as int));
            assert(dec_value_spec(s@.take(i as int + 1)) == acc * 10 + d);
        }
        if nv > 65535 {
            proof {
                assert(all_digits(s@) ==> dec_value_spec(s@) > 65535) by {
                    if all_digits(s@) {
                        lemma_dec_value_prefix(s@, i as int + 1);
                    }
                }
            }
            return None;
        }
        acc = nv;
        i += 1;
    }
    proof {
        assert(s@.take(n as int) =~= s@);
    }
    if acc == 0 {
        return None;
    }
    Some(acc as u16)
}

/// What `parse_host_port` accepts: a bracketed IPv6 host with an optional
/// `:port`, or a plain host with an optional all-digit `:port`.
pub open spec fn host_port_spec(b: Seq<u8>, default_port: u16) -> Option<(Seq<u8>, u16, AddressFamily)> {
    if b.len() > 0 && b[0] == 0x5bu8 {
        let rest = b.skip(1);
        match find_byte_spec(rest, 0x5du8) {
            None => None,
            Some(e) => {
                let host = rest.take(e);
                if host.len() == 0 {
                    None
                } else {
                    let rem = rest.skip(e + 1);
                    if rem.len() == 0 {
                        Some((host, default_port, AddressFamily::V6))
                    } else if rem[0] == 0x3au8 {
                        match port_spec(rem.skip(1)) {
                            Some(p) => Some((host, p, AddressFamily::V6)),
                            None => None,
                        }
                    } else {
                        None
                    }
                }
            },
        }
    } else {
        match find_byte_spec(b, 0x3au8) {
            None => if b.len() == 0 {
                None
            } else {
                Some((b, default_port, AddressFamily::V4))
            },
            Some(c) => {
                let host = b.take(c);
                let right = b.skip(c + 1);
                if right.len() == 0 || !all_digits(right) {
                    None
                } else {
                    match port_spec(right) {
                        Some(p) => if host.len() == 0 {
                            None
                        } else {
                            Some((host, p, AddressFamily::V4))
                        },
                        None => None,
                    }
                }
            },
        }
    }
}

/// Parse `host`, `host:port`, `[v6host]` or `[v6host]:port`. Succeeds
/// exactly on ASCII input of one of these shapes with a valid port.
pub fn parse_host_port(input: &str, default_port: u16, kind: AddressKind) -> (r: Result<
    HostPort,
    ConfigError,
>)
    ensures
        r is Ok <==> (input.is_ascii() && host_port_spec(input.spec_bytes(), default_port)
            is Some),
        r matches Ok(hp) ==> host_port_spec(input.spec_bytes(), default_port) matches Some(
            (host, port, family),
        ) && hp.host@ == crate::dns::bytes_as_chars(host) && hp.port == port && hp.family
            == family,
{
    broadcast use vstd::string::is_ascii_spec_bytes;

    let label = kind.label();
    if !input.is_ascii() {
        let mut m = String::from_str("Invalid ");
        m.append(label);
        m.append(" address: ");
        m.append(input);
        return Err(ConfigError::new(m));
    }
    let b = input.as_bytes();
    let ghost bs = input.spec_bytes();
    proof {
        assert forall|k: int| 0 <= k < bs.len() implies bs[k] < 128 by {
            assert(bs[k] == input@[k] as u8);
        }
    }

    if b.len() > 0 && b[0] == 0x5b {
        let rest = vstd::slice::slice_subrange(b, 1, b.len());
        proof {
            assert(rest@ =~= bs.skip(1));
        }
        let e = match find_byte(rest, 0x5d) {
            Some(e) => {
                proof {
                    lemma_find_byte_spec(rest@, 0x5du8);
                }
                e
            },
            None => {
                let mut m = String::from_str(
                    "Invalid IPv6 address format (missing closing bracket): ",
                );
                m.append(input);
                return Err(ConfigError::new(m));
            },
        };
        if e == 0 {
            let mut m = String::from_str("Invalid IPv6 address in ");
            m.append(label);
            m.append(": ");
            m.append(input);
            return Err(ConfigError::new(m));
        }
        let host_b = vstd::slice::slice_subrange(rest, 0, e);
        proof {
            assert(host_b@ =~= bs.skip(1).take(e as int));
            assert forall|k: int| 0 <= k < host_b@.len() implies host_b@[k] < 128 by {
                assert(host_b@[k] == bs[k + 1]);
            }
        }
        let port: u16 = if e + 1 == rest.len() {
            proof {
                assert(bs.skip(1).skip(e as int + 1).len() == 0);
            }
            default_port
        } else if rest[e + 1] == 0x3a {
            let pb = vstd::slice::slice_subrange(rest, e + 2, rest.len());
            proof {
                assert(pb@ =~= bs.skip(1).skip(e as int + 1).skip(1));
                assert(bs.skip(1).skip(e as int + 1)[0] == 0x3au8);
            }
            match parse_port_bytes(pb) {
                Some(p) => p,
                None => {
                    let mut m = String::from_str("Invalid port number in ");
                    m.append(label);
                    m.append(" address: ");
                    m.append(input);
                    return Err(ConfigError::new(m));
                },
            }
        } else {
            proof {
                assert(bs.skip(1).skip(e as int + 1)[0] == bs[e + 2]);
            }
            let mut m = String::from_str(
                "Invalid IPv6 address format (missing closing bracket): ",
            );
            m.append(input);
            return Err(ConfigError::new(m));
        };
        return Ok(
            HostPort {
                host: crate::dns::ascii_bytes_to_string(host_b),
                port,
                family: AddressFamily::V6,
            },
        );
    }

    let colon = find_byte(b, 0x3a);
    proof {
        lemma_find_byte_spec(b@, 0x3au8);
    }
    match colon {
        None => {
            if b.len() == 0 {
                let mut m = String::from_str("Invalid ");
                m.append(label);
                m.append(" address: ");
                m.append(input);
                return Err(ConfigError::new(m));
            }
            proof {
                assert(input@ =~= crate::dns::bytes_as_chars(bs)) by {
                    assert forall|k: int| 0 <= k < input@.len() implies input@[k]
                        == crate::dns::bytes_as_chars(bs)[k] by {
                        assert(bs[k] == input@[k] as u8);
                    }
                }
            }
            Ok(
                HostPort {
                    host: String::from_str(input),
                    port: default_port,
                    family: AddressFamily::V4,
                },
            )
        },
        Some(c) => {
            let right = vstd::slice::slice_subrange(b, c + 1, b.len());
            proof {
                assert(right@ =~= bs.skip(c as int + 1));
            }
            let port = match parse_port_bytes(right) {
                Some(p) => p,
                None => {
                    let mut m = String::from_str("Invalid port number in ");
                    m.append(label);
                    m.append(" address: ");
                    m.append(input);
                    return Err(ConfigError::new(m));
                },
            };
            if c == 0 {
                let mut m = String::from_str("Invalid ");
                m.append(label);
                m.append(" address: ");
                m.append(input);
                return Err(ConfigError::new(m));
            }
            let host_b = vstd::slice::slice_subrange(b, 0, c);
            proof {
                assert(host_b@ =~= bs.take(c as int));
                assert forall|k: int| 0 <= k < host_b@.len() implies host_b@[k] < 128 by {
                    assert(host_b@[k] == bs[k]);
                }
            }
            Ok(
                HostPort {
                    host: crate::dns::ascii_bytes_to_string(host_b),
                    port,
                    family: AddressFamily::V4,
                },
            )
        },
    }
}

/// Parse each resolver address with the default DNS port. Succeeds
/// exactly when every address parses.
pub fn parse_resolver_addresses(addrs: &[String]) -> (r: Result<Vec<HostPort>, ConfigError>)
    ensures
        r is Ok <==> forall|i: int|
            0 <= i < addrs@.len() ==> (vstd::utf8::is_ascii_chars((#[trigger] addrs@[i])@)
                && host_port_spec(vstd::utf8::encode_utf8(addrs@[i]@), 53) is Some),
        r matches Ok(v) ==> v@.len() == addrs@.len() && forall|i: int|
            0 <= i < v@.len() ==> (host_port_spec(
                vstd::utf8::encode_utf8((#[trigger] addrs@[i])@),
                53,
            ) matches Some((host, port, family)) && v@[i].host@ == crate::dns::bytes_as_chars(host)
                && v@[i].port == port && v@[i].family == family),
{
    let mut parsed: Vec<HostPort> = Vec::new();
    let n = addrs.len();
    let mut i: usize = 0;
    while i < n
        invariant
            n == addrs@.len(),
            0 <= i <= n,
            parsed@.len() == i,
            forall|k: int|
                0 <= k < i ==> (vstd::utf8::is_ascii_chars((#[trigger] addrs@[k])@)
                    && host_port_spec(vstd::utf8::encode_utf8(addrs@[k]@), 53) is Some),
            forall|k: int|
                0 <= k < i ==> (host_port_spec(
                    vstd::utf8::encode_utf8((#[trigger] addrs@[k])@),
                    53,
                ) matches Some((host, port, family)) && parsed@[k].host@
                    == crate::dns::bytes_as_chars(host) && parsed@[k].port == port
                    && parsed@[k].family == family),
        decreases n - i,
    {
        match parse_host_port(addrs[i].as_str(), 53, AddressKind::Resolver) {
            Ok(hp) => {
                parsed.push(hp);
            },
            Err(e) => {
                return Err(e);
            },
        }
        i += 1;
    }
    Ok(parsed)
}

} // verus!
