//! Per-resolver path state and its transitions.
//!
//! The client keeps one state per configured resolver: the normalized
//! address, the mode, the QUIC path id once the path is installed, the
//! probing schedule, and, for authoritative paths, the polls in flight.
//! Path events from the QUIC endpoint drive the transitions; the endpoint
//! itself stays outside the library.

use crate::addr::SockAddr;
use crate::assoc::AssocTable;
use crate::config::AddressFamily;
use crate::config::ResolverMode;
use crate::config::ResolverSpec;
use crate::quic::PathEvent;
use vstd::prelude::*;
use vstd::string::StringExecFns;
use vstd::string::StringSliceAdditionalSpecFns;

verus! {

/// How long an authoritative poll may stay in flight, in microseconds.
pub const AUTHORITATIVE_POLL_TIMEOUT_US: u64 = 5000000;

/// An error from building or running the client.
#[derive(Debug, Clone)]
pub struct ClientError {
    message: String,
}

impl View for ClientError {
    type V = Seq<char>;

    closed spec fn view(&self) -> Seq<char> {
        self.message@
    }
}

impl ClientError {
    /// Wrap a message.
    pub fn new(message: String) -> (r: Self)
        ensures
            r@ == message@,
    {
        ClientError { message }
    }

    /// The message.
    pub fn message(&self) -> (r: &str)
        ensures
            r@ == self@,
    {
        self.message.as_str()
    }
}

/// The state of one resolver path.
pub struct ResolverState {
    /// The resolver's address, dual-stack normalized.
    pub addr: SockAddr,
    /// Recursive or authoritative.
    pub mode: ResolverMode,
    /// Whether the path currently serves traffic.
    pub added: bool,
    /// The QUIC path id, once the path is installed.
    pub path_id: Option<u64>,
    /// How many times this path has been probed.
    pub probe_attempts: u32,
    /// Earliest time of the next probe, microseconds.
    pub next_probe_at: u64,
    /// Poll slots scheduled but not yet sent.
    pub pending_polls: usize,
    /// In-flight polls by DNS id, with the send time in microseconds.
    /// Only authoritative paths use this.
    pub inflight_poll_ids: AssocTable<u64>,
    /// Packets sent on this path, for diagnostics.
    pub send_packets: u64,
    /// Bytes sent on this path, for diagnostics.
    pub send_bytes: u64,
}

/// A resolver state as plain values, the poll table as a map.
#[verifier::ext_equal]
pub struct ResolverStateV {
    /// The normalized address.
    pub addr: SockAddr,
    /// The mode.
    pub mode: ResolverMode,
    /// Whether the path serves traffic.
    pub added: bool,
    /// The QUIC path id, if installed.
    pub path_id: Option<u64>,
    /// Probe count.
    pub probe_attempts: u32,
    /// Next probe time.
    pub next_probe_at: u64,
    /// Scheduled polls.
    pub pending_polls: usize,
    /// In-flight polls by DNS id.
    pub inflight_polls: Map<u16, u64>,
}

impl View for ResolverState {
    type V = ResolverStateV;

    open spec fn view(&self) -> ResolverStateV {
        ResolverStateV {
            addr: self.addr,
            mode: self.mode,
            added: self.added,
            path_id: self.path_id,
            probe_attempts: self.probe_attempts,
            next_probe_at: self.next_probe_at,
            pending_polls: self.pending_polls,
            inflight_polls: self.inflight_poll_ids.view(),
        }
    }
}

impl ResolverState {
    /// Well-formed: the poll table's keys are unique.
    pub open spec fn wf(&self) -> bool {
        self.inflight_poll_ids.wf()
    }
}

/// The states of a list of resolvers, as plain values.
pub open spec fn states_view(rs: Seq<ResolverState>) -> Seq<ResolverStateV> {
    Seq::new(rs.len(), |i: int| rs[i]@)
}

/// The address a resolver spec resolves to inside the library: an IPv4
/// literal host, normalized. Host names and IPv6 literals are resolved
/// outside the library, which is I/O.
pub open spec fn resolved_addr_spec(host: Seq<u8>, port: u16, family: AddressFamily) -> Option<
    SockAddr,
> {
    match family {
        AddressFamily::V4 => match crate::addr::ipv4_literal_spec(host) {
            Some(a) => Some(
                crate::addr::normalize_addr_spec(SockAddr::V4 { addr: a, port }),
            ),
            None => None,
        },
        AddressFamily::V6 => None,
    }
}

/// The bytes of a spec's host.
pub open spec fn spec_host_bytes(spec: ResolverSpec) -> Seq<u8> {
    vstd::utf8::encode_utf8(spec.resolver.host@)
}

/// Every spec's host is an IPv4 literal.
pub open spec fn all_resolve(specs: Seq<ResolverSpec>) -> bool {
    forall|i: int|
        0 <= i < specs.len() ==> resolved_addr_spec(
            spec_host_bytes(#[trigger] specs[i]),
            specs[i].resolver.port,
            specs[i].resolver.family,
        ) is Some
}

/// No two specs normalize to the same address.
pub open spec fn resolved_distinct(specs: Seq<ResolverSpec>) -> bool {
    forall|i: int, j: int|
        0 <= i < j < specs.len() ==> resolved_addr_spec(
            spec_host_bytes(#[trigger] specs[i]),
            specs[i].resolver.port,
            specs[i].resolver.family,
        ) != resolved_addr_spec(
            spec_host_bytes(#[trigger] specs[j]),
            specs[j].resolver.port,
            specs[j].resolver.family,
        )
}

/// The decimal digits of a non-negative number, most significant first.
pub open spec fn dec_digits_spec(p: int) -> Seq<u8>
    recommends
        p >= 0,
    decreases p,
{
    if p < 10 {
        seq![(0x30 + p) as u8]
    } else {
        dec_digits_spec(p / 10) + seq![(0x30 + p % 10) as u8]
    }
}

/// Spell a port as decimal digits.
fn port_to_string(p: u16) -> (r: String)
    ensures
        r@ == crate::dns::bytes_as_chars(dec_digits_spec(p as int)),
{
    let mut digits: Vec<u8> = Vec::new();
    let mut v: u16 = p;
    let mut guard: usize = 0;
    while v > 0 && guard < 5
        invariant
            0 <= guard <= 5,
            guard == 0 ==> v == p,
            guard == 1 ==> v <= 6553,
            guard == 2 ==> v <= 655,
            guard == 3 ==> v <= 65,
            guard == 4 ==> v <= 6,
            guard == 5 ==> v == 0,
            digits@.len() == guard,
            p == 0 ==> guard == 0,
            v > 0 ==> dec_digits_spec(p as int) == dec_digits_spec(v as int) + digits@,
            v == 0 ==> (p == 0 || dec_digits_spec(p as int) == digits@),
            forall|k: int| 0 <= k < digits@.len() ==> 0x30 <= #[trigger] digits@[k] <= 0x39,
        decreases 5 - guard,
    {
        let ghost before = digits@;
        digits.insert(0, 0x30 + (v % 10) as u8);
        proof {
            assert(digits@ =~= seq![(0x30 + (v as int) % 10) as u8] + before);
            if v >= 10 {
                assert(dec_digits_spec(v as int) == dec_digits_spec(v as int / 10) + seq![
                    (0x30 + (v as int) % 10) as u8,
                ]);
                assert(dec_digits_spec(v as int / 10) + seq![(0x30 + (v as int) % 10) as u8]
                    + before =~= dec_digits_spec(v as int / 10) + digits@);
            } else {
                assert(dec_digits_spec(v as int) =~= seq![(0x30 + (v as int) % 10) as u8]);
                assert(dec_digits_spec(v as int) + before =~= digits@);
            }
        }
        v = v / 10;
        guard += 1;
    }
    if digits.len() == 0 {
        proof {
            assert(p == 0);
            assert(dec_digits_spec(0) =~= seq![0x30u8]);
        }
        digits.push(0x30);
        proof {
            assert(digits@ =~= dec_digits_spec(p as int));
        }
    }
    proof {
        assert(digits@ == dec_digits_spec(p as int));
        assert forall|k: int| 0 <= k < digits@.len() implies #[trigger] digits@[k] < 128 by {}
    }
    crate::dns::ascii_bytes_to_string(digits.as_slice())
}

/// The message rejecting a duplicate of the given spec's address.
pub open spec fn duplicate_message_spec(spec: ResolverSpec) -> Seq<char> {
    "Duplicate resolver address "@ + spec.resolver.host@ + ":"@ + crate::dns::bytes_as_chars(
        dec_digits_spec(spec.resolver.port as int),
    )
}

/// No two addresses normalize to the same one.
pub open spec fn addrs_distinct(addrs: Seq<SockAddr>) -> bool {
    forall|i: int, j: int|
        0 <= i < j < addrs.len() ==> crate::addr::normalize_addr_spec(#[trigger] addrs[i])
            != crate::addr::normalize_addr_spec(#[trigger] addrs[j])
}

/// The fields every fresh path state carries for spec `i` of a list.
pub open spec fn fresh_state_ok(rs: ResolverState, spec: ResolverSpec, i: int) -> bool {
    &&& rs.mode == spec.mode
    &&& rs.added == (i == 0)
    &&& rs.path_id == if i == 0 {
        Some(0u64)
    } else {
        None::<u64>
    }
    &&& rs.pending_polls == 0
    &&& rs.probe_attempts == 0
    &&& rs.next_probe_at == 0
    &&& rs@.inflight_polls == Map::<u16, u64>::empty()
    &&& rs.wf()
}

/// Build the per-path states from addresses resolved outside the library:
/// normalize each, reject duplicates, and mark the first resolver as the
/// initial path. Name resolution is I/O and happens outside; this takes
/// its plain results, so IPv6 resolvers are carried the same as IPv4
/// ones. `addrs[i]` is the resolved address of `resolvers[i]`.
pub fn resolver_states_from_addrs(
    resolvers: &[ResolverSpec],
    addrs: &[SockAddr],
    mtu: u32,
    debug_poll: bool,
) -> (r: Result<Vec<ResolverState>, ClientError>)
    ensures
        r is Ok <==> (addrs@.len() == resolvers@.len() && addrs_distinct(addrs@)),
        r matches Ok(v) ==> {
            &&& v@.len() == resolvers@.len()
            &&& forall|i: int|
                0 <= i < v@.len() ==> (#[trigger] v@[i]).addr == crate::addr::normalize_addr_spec(
                    addrs@[i],
                ) && fresh_state_ok(v@[i], resolvers@[i], i)
            &&& forall|i: int, j: int| 0 <= i < j < v@.len() ==> v@[i].addr != v@[j].addr
        },
        r matches Err(e) ==> (addrs@.len() == resolvers@.len() ==> exists|i: int, j: int|
            0 <= i < j < addrs@.len() && crate::addr::normalize_addr_spec(#[trigger] addrs@[i])
                == crate::addr::normalize_addr_spec(#[trigger] addrs@[j]) && e@
                == duplicate_message_spec(resolvers@[j])),
{
    let _ = mtu;
    let _ = debug_poll;
    let n = resolvers.len();
    if addrs.len() != n {
        return Err(ClientError::new(String::from_str("Resolver addresses out of step")));
    }
    let mut resolved: Vec<ResolverState> = Vec::new();
    let mut idx: usize = 0;
    while idx < n
        invariant
            n == resolvers@.len(),
            n == addrs@.len(),
            0 <= idx <= n,
            resolved@.len() == idx,
            forall|i: int|
                0 <= i < idx ==> (#[trigger] resolved@[i]).addr
                    == crate::addr::normalize_addr_spec(addrs@[i]) && fresh_state_ok(
                    resolved@[i],
                    resolvers@[i],
                    i,
                ),
            forall|i: int, j: int| 0 <= i < j < idx ==> resolved@[i].addr != resolved@[j].addr,
        decreases n - idx,
    {
        let addr = crate::addr::normalize_dual_stack_addr(addrs[idx]);
        let mut k: usize = 0;
        while k < idx
            invariant
                n == resolvers@.len(),
                n == addrs@.len(),
                0 <= k <= idx < n,
                idx <= resolved@.len(),
                addr == crate::addr::normalize_addr_spec(addrs@[idx as int]),
                forall|i: int|
                    0 <= i < idx ==> (#[trigger] resolved@[i]).addr
                        == crate::addr::normalize_addr_spec(addrs@[i]),
                forall|i: int| 0 <= i < k ==> (#[trigger] resolved@[i]).addr != addr,
            decreases idx - k,
        {
            if resolved[k].addr == addr {
                let spec_i = &resolvers[idx];
                let mut m = String::from_str("Duplicate resolver address ");
                m.append(spec_i.resolver.host.as_str());
                m.append(":");
                let ps = port_to_string(spec_i.resolver.port);
                m.append(ps.as_str());
                proof {
                    assert(crate::addr::normalize_addr_spec(addrs@[k as int])
                        == crate::addr::normalize_addr_spec(addrs@[idx as int]));
                    assert(m@ == duplicate_message_spec(resolvers@[idx as int]));
                    assert(!addrs_distinct(addrs@));
                }
                return Err(ClientError::new(m));
            }
            k += 1;
        }

        let spec_i = &resolvers[idx];
        let is_primary = idx == 0;
        let state = ResolverState {
            addr,
            mode: spec_i.mode,
            added: is_primary,
            path_id: if is_primary {
                Some(0u64)
            } else {
                None
            },
            probe_attempts: 0,
            next_probe_at: 0,
            pending_polls: 0,
            inflight_poll_ids: AssocTable::new(),
            send_packets: 0,
            send_bytes: 0,
        };
        resolved.push(state);
        idx += 1;
    }
    proof {
        assert forall|i: int, j: int|
            0 <= i < j < addrs@.len() implies crate::addr::normalize_addr_spec(#[trigger] addrs@[i])
            != crate::addr::normalize_addr_spec(#[trigger] addrs@[j]) by {
            assert(resolved@[i].addr == crate::addr::normalize_addr_spec(addrs@[i]));
            assert(resolved@[j].addr == crate::addr::normalize_addr_spec(addrs@[j]));
        }
    }
    Ok(resolved)
}

/// Build the per-path states from the configured resolvers: parse and
/// normalize each address, reject duplicates, and mark the first resolver
/// as the initial path. This path handles IPv4 literal hosts itself; host
/// names and IPv6 literals are resolved outside the library and handed to
/// `resolver_states_from_addrs` as plain addresses.
pub fn resolve_resolvers(resolvers: &[ResolverSpec], mtu: u32, debug_poll: bool) -> (r: Result<
    Vec<ResolverState>,
    ClientError,
>)
    ensures
        r is Ok <==> (all_resolve(resolvers@) && resolved_distinct(resolvers@)),
        r matches Ok(v) ==> {
            &&& v@.len() == resolvers@.len()
            &&& forall|i: int|
                0 <= i < v@.len() ==> Some((#[trigger] v@[i]).addr) == resolved_addr_spec(
                    spec_host_bytes(resolvers@[i]),
                    resolvers@[i].resolver.port,
                    resolvers@[i].resolver.family,
                ) && fresh_state_ok(v@[i], resolvers@[i], i)
            &&& forall|i: int, j: int| 0 <= i < j < v@.len() ==> v@[i].addr != v@[j].addr
        },
        r matches Err(e) ==> (all_resolve(resolvers@) ==> exists|i: int, j: int|
            0 <= i < j < resolvers@.len() && resolved_addr_spec(
                spec_host_bytes(#[trigger] resolvers@[i]),
                resolvers@[i].resolver.port,
                resolvers@[i].resolver.family,
            ) == resolved_addr_spec(
                spec_host_bytes(#[trigger] resolvers@[j]),
                resolvers@[j].resolver.port,
                resolvers@[j].resolver.family,
            ) && e@ == duplicate_message_spec(resolvers@[j])),
{
    broadcast use vstd::string::is_ascii_spec_bytes;

    let n = resolvers.len();
    let mut addrs: Vec<SockAddr> = Vec::new();
    let mut idx: usize = 0;
    while idx < n
        invariant
            n == resolvers@.len(),
            0 <= idx <= n,
            addrs@.len() == idx,
            forall|i: int|
                0 <= i < idx ==> resolved_addr_spec(
                    spec_host_bytes(#[trigger] resolvers@[i]),
                    resolvers@[i].resolver.port,
                    resolvers@[i].resolver.family,
                ) == Some(crate::addr::normalize_addr_spec(addrs@[i])),
        decreases n - idx,
    {
        let spec_i = &resolvers[idx];
        match spec_i.resolver.family {
            AddressFamily::V4 => {
                match crate::addr::parse_ipv4_literal(spec_i.resolver.host.as_str().as_bytes()) {
                    Some(a) => {
                        addrs.push(SockAddr::V4 { addr: a, port: spec_i.resolver.port });
                    },
                    None => {
                        let mut m = String::from_str("Cannot resolve ");
                        m.append(spec_i.resolver.host.as_str());
                        proof {
                            assert(resolved_addr_spec(
                                spec_host_bytes(resolvers@[idx as int]),
                                resolvers@[idx as int].resolver.port,
                                resolvers@[idx as int].resolver.family,
                            ) is None);
                            assert(!all_resolve(resolvers@));
                        }
                        return Err(ClientError::new(m));
                    },
                }
            },
            AddressFamily::V6 => {
                let mut m = String::from_str("Cannot resolve ");
                m.append(spec_i.resolver.host.as_str());
                proof {
                    assert(resolved_addr_spec(
                        spec_host_bytes(resolvers@[idx as int]),
                        resolvers@[idx as int].resolver.port,
                        resolvers@[idx as int].resolver.family,
                    ) is None);
                    assert(!all_resolve(resolvers@));
                }
                return Err(ClientError::new(m));
            },
        }
        idx += 1;
    }
    proof {
        assert forall|i: int|
            0 <= i < resolvers@.len() implies resolved_addr_spec(
            spec_host_bytes(#[trigger] resolvers@[i]),
            resolvers@[i].resolver.port,
            resolvers@[i].resolver.family,
        ) is Some by {
            assert(resolved_addr_spec(
                spec_host_bytes(resolvers@[i]),
                resolvers@[i].resolver.port,
                resolvers@[i].resolver.family,
            ) == Some(crate::addr::normalize_addr_spec(addrs@[i])));
        }
        assert(all_resolve(resolvers@));
        assert forall|i: int, j: int|
            0 <= i < j < resolvers@.len() implies (resolved_addr_spec(
            spec_host_bytes(#[trigger] resolvers@[i]),
            resolvers@[i].resolver.port,
            resolvers@[i].resolver.family,
        ) == resolved_addr_spec(
            spec_host_bytes(#[trigger] resolvers@[j]),
            resolvers@[j].resolver.port,
            resolvers@[j].resolver.family,
        ) <==> crate::addr::normalize_addr_spec(addrs@[i]) == crate::addr::normalize_addr_spec(
            addrs@[j],
        )) by {
            assert(resolved_addr_spec(
                spec_host_bytes(resolvers@[i]),
                resolvers@[i].resolver.port,
                resolvers@[i].resolver.family,
            ) == Some(crate::addr::normalize_addr_spec(addrs@[i])));
            assert(resolved_addr_spec(
                spec_host_bytes(resolvers@[j]),
                resolvers@[j].resolver.port,
                resolvers@[j].resolver.family,
            ) == Some(crate::addr::normalize_addr_spec(addrs@[j])));
        }
    }
    let r = resolver_states_from_addrs(resolvers, addrs.as_slice(), mtu, debug_poll);
    proof {
        match &r {
            Ok(v) => {
                assert(addrs_distinct(addrs@));
                assert forall|i: int|
                    0 <= i < v@.len() implies Some((#[trigger] v@[i]).addr) == resolved_addr_spec(
                    spec_host_bytes(resolvers@[i]),
                    resolvers@[i].resolver.port,
                    resolvers@[i].resolver.family,
                ) by {
                    assert(v@[i].addr == crate::addr::normalize_addr_spec(addrs@[i]));
                }
                assert forall|i: int, j: int|
                    0 <= i < j < resolvers@.len() implies resolved_addr_spec(
                    spec_host_bytes(#[trigger] resolvers@[i]),
                    resolvers@[i].resolver.port,
                    resolvers@[i].resolver.family,
                ) != resolved_addr_spec(
                    spec_host_bytes(#[trigger] resolvers@[j]),
                    resolvers@[j].resolver.port,
                    resolvers@[j].resolver.family,
                ) by {
                    assert(crate::addr::normalize_addr_spec(addrs@[i])
                        != crate::addr::normalize_addr_spec(addrs@[j]));
                }
                assert(resolved_distinct(resolvers@));
            },
            Err(e) => {
                let (wi, wj) = choose|i: int, j: int|
                    0 <= i < j < addrs@.len() && crate::addr::normalize_addr_spec(
                        #[trigger] addrs@[i],
                    ) == crate::addr::normalize_addr_spec(#[trigger] addrs@[j]) && e@
                        == duplicate_message_spec(resolvers@[j]);
                assert(resolved_addr_spec(
                    spec_host_bytes(resolvers@[wi]),
                    resolvers@[wi].resolver.port,
                    resolvers@[wi].resolver.family,
                ) == Some(crate::addr::normalize_addr_spec(addrs@[wi])));
                assert(resolved_addr_spec(
                    spec_host_bytes(resolvers@[wj]),
                    resolvers@[wj].resolver.port,
                    resolvers@[wj].resolver.family,
                ) == Some(crate::addr::normalize_addr_spec(addrs@[wj])));
                assert(!resolved_distinct(resolvers@));
            },
        }
    }
    r
}

/// Whether an in-flight poll sent at `sent_at` is still within its
/// five-second window at `now`.
pub open spec fn poll_fresh_at(sent_at: u64, now: u64) -> bool {
    (if now >= AUTHORITATIVE_POLL_TIMEOUT_US {
        now - AUTHORITATIVE_POLL_TIMEOUT_US
    } else {
        0int
    }) < sent_at
}

/// Drop in-flight polls older than the timeout. Surviving entries keep
/// their send times; exactly those within the window at `now` survive.
pub fn expire_inflight_polls(inflight_poll_ids: &mut AssocTable<u64>, now: u64)
    requires
        old(inflight_poll_ids).wf(),
    ensures
        final(inflight_poll_ids).wf(),
        forall|id: u16|
            #[trigger] final(inflight_poll_ids).view().contains_key(id) <==> (old(inflight_poll_ids).view().contains_key(id)
                && poll_fresh_at(old(inflight_poll_ids).view()[id], now)),
        forall|id: u16|
            #[trigger] final(inflight_poll_ids).view().contains_key(id)
                ==> final(inflight_poll_ids).view()[id] == old(inflight_poll_ids).view()[id],
{
    let expire_before: u64 = if now >= AUTHORITATIVE_POLL_TIMEOUT_US {
        now - AUTHORITATIVE_POLL_TIMEOUT_US
    } else {
        0
    };
    let mut kept: AssocTable<u64> = AssocTable::new();
    let ghost orig = inflight_poll_ids.view();
    while inflight_poll_ids.len() > 0
        invariant
            inflight_poll_ids.wf(),
            kept.wf(),
            expire_before == (if now >= AUTHORITATIVE_POLL_TIMEOUT_US {
                now - AUTHORITATIVE_POLL_TIMEOUT_US
            } else {
                0int
            }),
            forall|id: u16|
                #[trigger] inflight_poll_ids.view().contains_key(id) ==> orig.contains_key(id)
                    && inflight_poll_ids.view()[id] == orig[id],
            forall|id: u16|
                #[trigger] kept.view().contains_key(id) ==> orig.contains_key(id) && kept.view()[id]
                    == orig[id] && !inflight_poll_ids.view().contains_key(id),
            forall|id: u16|
                orig.contains_key(id) && !(#[trigger] inflight_poll_ids.view().contains_key(id))
                    ==> (kept.view().contains_key(id) <==> poll_fresh_at(orig[id], now)),
        decreases inflight_poll_ids.entries@.len(),
    {
        let (id, sent_at) = inflight_poll_ids.remove_at(0);
        if sent_at > expire_before {
            kept.insert_fresh(id, sent_at);
        }
    }
    let ghost rem = inflight_poll_ids.view();
    let ghost keptv = kept.view();
    proof {
        assert(inflight_poll_ids.entries@.len() == 0);
        assert forall|id: u16| !(#[trigger] rem.contains_key(id)) by {
            crate::assoc::lemma_pairs_map_contains::<u64>(inflight_poll_ids.entries@, id);
        }
    }
    *inflight_poll_ids = kept;
    proof {
        assert(inflight_poll_ids.view() == keptv);
        assert forall|id: u16|
            #[trigger] inflight_poll_ids.view().contains_key(id) <==> (orig.contains_key(id)
                && poll_fresh_at(orig[id], now)) by {
            assert(!rem.contains_key(id));
        }
    }
}

/// Reset a path to probeable: not added, no path id, no pending or
/// in-flight polls, the probing schedule cleared. Address and mode stay.
pub fn reset_resolver_path(resolver: &mut ResolverState)
    ensures
        final(resolver).wf(),
        final(resolver).addr == old(resolver).addr,
        final(resolver).mode == old(resolver).mode,
        !final(resolver).added,
        final(resolver).path_id is None,
        final(resolver).pending_polls == 0,
        final(resolver).probe_attempts == 0,
        final(resolver).next_probe_at == 0,
        final(resolver)@.inflight_polls == Map::<u16, u64>::empty(),
{
    resolver.added = false;
    resolver.path_id = None;
    resolver.pending_polls = 0;
    resolver.inflight_poll_ids = AssocTable::new();
    resolver.probe_attempts = 0;
    resolver.next_probe_at = 0;
}

/// The first path with no id that is not yet serving traffic, from `i`.
pub open spec fn find_unassigned_from(rs: Seq<ResolverStateV>, i: int) -> Option<int>
    decreases rs.len() - i,
{
    if i < 0 || i >= rs.len() {
        None
    } else if rs[i].path_id is None && !rs[i].added {
        Some(i)
    } else {
        find_unassigned_from(rs, i + 1)
    }
}

/// The first path carrying this id, from `i`.
pub open spec fn find_path_from(rs: Seq<ResolverStateV>, id: u64, i: int) -> Option<int>
    decreases rs.len() - i,
{
    if i < 0 || i >= rs.len() {
        None
    } else if rs[i].path_id == Some(id) {
        Some(i)
    } else {
        find_path_from(rs, id, i + 1)
    }
}

/// A state with a path installed on it.
pub open spec fn assigned_state(r: ResolverStateV, id: u64) -> ResolverStateV {
    ResolverStateV { path_id: Some(id), added: true, ..r }
}

/// A state reset to probeable.
pub open spec fn reset_state(r: ResolverStateV) -> ResolverStateV {
    ResolverStateV {
        added: false,
        path_id: None,
        pending_polls: 0,
        probe_attempts: 0,
        next_probe_at: 0,
        inflight_polls: Map::<u16, u64>::empty(),
        ..r
    }
}

/// How one path event transforms the states: an available path is
/// installed on the first unassigned resolver; a deleted path resets the
/// resolver carrying it; other events change nothing.
pub open spec fn apply_path_event_spec(rs: Seq<ResolverStateV>, e: PathEvent) -> Seq<
    ResolverStateV,
> {
    match e {
        PathEvent::Available(id) => match find_unassigned_from(rs, 0) {
            Some(i) => rs.update(i, assigned_state(rs[i], id)),
            None => rs,
        },
        PathEvent::Deleted(id) => match find_path_from(rs, id, 0) {
            Some(i) => rs.update(i, reset_state(rs[i])),
            None => rs,
        },
        _ => rs,
    }
}

/// All states well-formed.
pub open spec fn states_wf(rs: Seq<ResolverState>) -> bool {
    forall|i: int| 0 <= i < rs.len() ==> (#[trigger] rs[i]).wf()
}

/// Apply one path event to the resolver states.
pub fn apply_path_event(resolvers: &mut Vec<ResolverState>, event: &PathEvent)
    requires
        states_wf(old(resolvers)@),
    ensures
        states_wf(final(resolvers)@),
        states_view(final(resolvers)@) == apply_path_event_spec(states_view(old(resolvers)@), *event),
{
    let ghost rsv = states_view(resolvers@);
    match *event {
        PathEvent::Available(id) => {
            let n = resolvers.len();
            let mut j: usize = 0;
            while j < n
                invariant
                    n == resolvers@.len(),
                    resolvers@ == old(resolvers)@,
                    *event == PathEvent::Available(id),
                    rsv == states_view(resolvers@),
                    states_wf(resolvers@),
                    0 <= j <= n,
                    forall|k: int|
                        0 <= k < j ==> !((#[trigger] rsv[k]).path_id is None && !rsv[k].added),
                decreases n - j,
            {
                let unassigned = resolvers[j].path_id.is_none() && !resolvers[j].added;
                if unassigned {
                    proof {
                        lemma_find_first_unassigned(rsv, j as int);
                    }
                    let mut st = resolvers.remove(j);
                    st.path_id = Some(id);
                    st.added = true;
                    resolvers.insert(j, st);
                    proof {
                        assert(resolvers@ =~= old(resolvers)@.update(j as int, st));
                        assert(states_view(resolvers@) =~~= rsv.update(
                            j as int,
                            assigned_state(rsv[j as int], id),
                        ));
                    }
                    return ;
                }
                j += 1;
            }
            proof {
                lemma_find_no_unassigned(rsv);
                assert(states_view(resolvers@) =~= rsv);
            }
        },
        PathEvent::Deleted(id) => {
            let n = resolvers.len();
            let mut j: usize = 0;
            while j < n
                invariant
                    n == resolvers@.len(),
                    resolvers@ == old(resolvers)@,
                    *event == PathEvent::Deleted(id),
                    rsv == states_view(resolvers@),
                    states_wf(resolvers@),
                    0 <= j <= n,
                    forall|k: int| 0 <= k < j ==> (#[trigger] rsv[k]).path_id != Some(id),
                decreases n - j,
            {
                let matches_id = match resolvers[j].path_id {
                    Some(p) => p == id,
                    None => false,
                };
                if matches_id {
                    proof {
                        lemma_find_first_path(rsv, id, j as int);
                    }
                    let mut st = resolvers.remove(j);
                    reset_resolver_path(&mut st);
                    resolvers.insert(j, st);
                    proof {
                        assert(resolvers@ =~= old(resolvers)@.update(j as int, st));
                        assert(st@ == reset_state(rsv[j as int]));
                        assert(st@ =~~= reset_state(rsv[j as int]));
                        assert(states_view(resolvers@) =~~= rsv.update(
                            j as int,
                            reset_state(rsv[j as int]),
                        ));
                    }
                    return ;
                }
                j += 1;
            }
            proof {
                lemma_find_no_path(rsv, id);
                assert(states_view(resolvers@) =~= rsv);
            }
        },
        PathEvent::Suspended(_) => {
            proof {
                assert(states_view(resolvers@) =~= rsv);
            }
        },
        PathEvent::QualityChanged(_) => {
            proof {
                assert(states_view(resolvers@) =~= rsv);
            }
        },
    }
}

/// When nothing before `j` qualifies and `j` does, the search finds `j`.
proof fn lemma_find_first_unassigned(rs: Seq<ResolverStateV>, j: int)
    requires
        0 <= j < rs.len(),
        forall|k: int| 0 <= k < j ==> !((#[trigger] rs[k]).path_id is None && !rs[k].added),
        rs[j].path_id is None && !rs[j].added,
    ensures
        find_unassigned_from(rs, 0) == Some(j),
{
    lemma_find_unassigned_step(rs, 0, j);
}

/// The search from `i` finds `j` when nothing in between qualifies.
proof fn lemma_find_unassigned_step(rs: Seq<ResolverStateV>, i: int, j: int)
    requires
        0 <= i <= j < rs.len(),
        forall|k: int| i <= k < j ==> !((#[trigger] rs[k]).path_id is None && !rs[k].added),
        rs[j].path_id is None && !rs[j].added,
    ensures
        find_unassigned_from(rs, i) == Some(j),
    decreases j - i,
{
    if i < j {
        lemma_find_unassigned_step(rs, i + 1, j);
    }
}

/// When nothing qualifies, the search fails.
proof fn lemma_find_no_unassigned(rs: Seq<ResolverStateV>)
    requires
        forall|k: int| 0 <= k < rs.len() ==> !((#[trigger] rs[k]).path_id is None && !rs[k].added),
    ensures
        find_unassigned_from(rs, 0) is None,
{
    lemma_find_no_unassigned_step(rs, 0);
}

/// The search from `i` fails when nothing from `i` on qualifies.
proof fn lemma_find_no_unassigned_step(rs: Seq<ResolverStateV>, i: int)
    requires
        0 <= i,
        forall|k: int| i <= k < rs.len() ==> !((#[trigger] rs[k]).path_id is None && !rs[k].added),
    ensures
        find_unassigned_from(rs, i) is None,
    decreases rs.len() - i,
{
    if i < rs.len() {
        lemma_find_no_unassigned_step(rs, i + 1);
    }
}

/// When nothing before `j` carries the id and `j` does, the search finds
/// `j`.
proof fn lemma_find_first_path(rs: Seq<ResolverStateV>, id: u64, j: int)
    requires
        0 <= j < rs.len(),
        forall|k: int| 0 <= k < j ==> (#[trigger] rs[k]).path_id != Some(id),
        rs[j].path_id == Some(id),
    ensures
        find_path_from(rs, id, 0) == Some(j),
{
    lemma_find_path_step(rs, id, 0, j);
}

/// The search from `i` finds `j` when nothing in between carries the id.
proof fn lemma_find_path_step(rs: Seq<ResolverStateV>, id: u64, i: int, j: int)
    requires
        0 <= i <= j < rs.len(),
        forall|k: int| i <= k < j ==> (#[trigger] rs[k]).path_id != Some(id),
        rs[j].path_id == Some(id),
    ensures
        find_path_from(rs, id, i) == Some(j),
    decreases j - i,
{
    if i < j {
        lemma_find_path_step(rs, id, i + 1, j);
    }
}

/// When nothing carries the id, the search fails.
proof fn lemma_find_no_path(rs: Seq<ResolverStateV>, id: u64)
    requires
        forall|k: int| 0 <= k < rs.len() ==> (#[trigger] rs[k]).path_id != Some(id),
    ensures
        find_path_from(rs, id, 0) is None,
{
    lemma_find_no_path_step(rs, id, 0);
}

/// The search from `i` fails when nothing from `i` on carries the id.
proof fn lemma_find_no_path_step(rs: Seq<ResolverStateV>, id: u64, i: int)
    requires
        0 <= i,
        forall|k: int| i <= k < rs.len() ==> (#[trigger] rs[k]).path_id != Some(id),
    ensures
        find_path_from(rs, id, i) is None,
    decreases rs.len() - i,
{
    if i < rs.len() {
        lemma_find_no_path_step(rs, id, i + 1);
    }
}

/// The states after a whole list of events, applied in order.
pub open spec fn apply_events_spec(rs: Seq<ResolverStateV>, events: Seq<PathEvent>) -> Seq<
    ResolverStateV,
>
    decreases events.len(),
{
    if events.len() == 0 {
        rs
    } else {
        apply_events_spec(apply_path_event_spec(rs, events[0]), events.skip(1))
    }
}

/// Apply a batch of drained path events, in order.
pub fn drain_path_events(resolvers: &mut Vec<ResolverState>, events: &[PathEvent])
    requires
        states_wf(old(resolvers)@),
    ensures
        states_wf(final(resolvers)@),
        states_view(final(resolvers)@) == apply_events_spec(states_view(old(resolvers)@), events@),
{
    let n = events.len();
    let mut i: usize = 0;
    proof {
        assert(events@.skip(0) =~= events@);
    }
    while i < n
        invariant
            n == events@.len(),
            0 <= i <= n,
            states_wf(resolvers@),
            apply_events_spec(states_view(resolvers@), events@.skip(i as int)) == apply_events_spec(
                states_view(old(resolvers)@),
                events@,
            ),
        decreases n - i,
    {
        let ghost before = states_view(resolvers@);
        apply_path_event(resolvers, &events[i]);
        proof {
            assert(events@.skip(i as int)[0] == events@[i as int]);
            assert(events@.skip(i as int).skip(1) =~= events@.skip(i as int + 1));
            assert(apply_events_spec(before, events@.skip(i as int)) == apply_events_spec(
                apply_path_event_spec(before, events@[i as int]),
                events@.skip(i as int + 1),
            ));
        }
        i += 1;
    }
    proof {
        assert(events@.skip(n as int) =~= Seq::<PathEvent>::empty());
    }
}

/// The per-path burst multiplier: authoritative paths carry traffic both
/// ways on every query, so their bursts are four times the base.
pub open spec fn path_multiplier_spec(mode: ResolverMode) -> int {
    match mode {
        ResolverMode::Authoritative => 4int,
        ResolverMode::Recursive => 1int,
    }
}

/// The burst multiplier for a path's mode.
pub fn path_loop_multiplier(mode: ResolverMode) -> (r: usize)
    ensures
        r == path_multiplier_spec(mode),
{
    match mode {
        ResolverMode::Authoritative => 4,
        ResolverMode::Recursive => 1,
    }
}

/// Addition saturating at the largest `usize`.
pub open spec fn sat_add_usize(a: int, b: int) -> int {
    if a + b > usize::MAX {
        usize::MAX as int
    } else {
        a + b
    }
}

/// The total burst over the paths: the base times each path's multiplier,
/// summed, saturating.
pub open spec fn burst_total_spec(rs: Seq<ResolverStateV>, base: int) -> int
    decreases rs.len(),
{
    if rs.len() == 0 {
        0int
    } else {
        let m = path_multiplier_spec(rs.last().mode) * base;
        sat_add_usize(
            burst_total_spec(rs.drop_last(), base),
            if m > usize::MAX {
                usize::MAX as int
            } else {
                m
            },
        )
    }
}

/// Total datagram burst across all paths for one loop turn.
pub fn loop_burst_total(resolvers: &Vec<ResolverState>, base: usize) -> (r: usize)
    ensures
        r == burst_total_spec(states_view(resolvers@), base as int),
{
    let ghost rsv = states_view(resolvers@);
    let n = resolvers.len();
    let mut acc: usize = 0;
    let mut i: usize = 0;
    proof {
        assert(rsv.take(0) =~= Seq::<ResolverStateV>::empty());
    }
    while i < n
        invariant
            n == resolvers@.len(),
            rsv == states_view(resolvers@),
            0 <= i <= n,
            acc == burst_total_spec(rsv.take(i as int), base as int),
        decreases n - i,
    {
        let mult = path_loop_multiplier(resolvers[i].mode);
        let step: usize = if base == 0 {
            0
        } else if mult > usize::MAX / base {
            proof {
                vstd::arithmetic::div_mod::lemma_fundamental_div_mod(usize::MAX as int, base as int);
                vstd::arithmetic::div_mod::lemma_mod_bound(usize::MAX as int, base as int);
                assert(mult * base > usize::MAX) by (nonlinear_arith)
                    requires
                        mult >= usize::MAX as int / base as int + 1,
                        base >= 1,
                        usize::MAX as int == base as int * (usize::MAX as int / base as int) + (
                        usize::MAX as int % base as int),
                        (usize::MAX as int % base as int) < base,
                ;
            }
            usize::MAX
        } else {
            proof {
                vstd::arithmetic::div_mod::lemma_fundamental_div_mod(usize::MAX as int, base as int);
                vstd::arithmetic::div_mod::lemma_mod_bound(usize::MAX as int, base as int);
                assert(mult * base <= usize::MAX) by (nonlinear_arith)
                    requires
                        mult <= usize::MAX as int / base as int,
                        base >= 1,
                        usize::MAX as int == base as int * (usize::MAX as int / base as int) + (
                        usize::MAX as int % base as int),
                        0 <= (usize::MAX as int % base as int),
                ;
            }
            base * mult
        };
        proof {
            assert(step == if mult * base > usize::MAX {
                usize::MAX as int
            } else {
                mult * base
            });
        }
        let new_acc: usize = if acc > usize::MAX - step {
            usize::MAX
        } else {
            acc + step
        };
        proof {
            assert(rsv.take(i as int + 1).drop_last() =~= rsv.take(i as int));
            assert(rsv.take(i as int + 1).last() == rsv[i as int]);
            assert(rsv[i as int].mode == resolvers@[i as int].mode);
        }
        acc = new_acc;
        i += 1;
    }
    proof {
        assert(rsv.take(n as int) =~= rsv);
    }
    acc
}

/// The largest poll burst one path may send in a turn.
pub fn path_poll_burst_max(resolver: &ResolverState) -> (r: usize)
    ensures
        r == 64 * path_multiplier_spec(resolver.mode),
{
    64 * path_loop_multiplier(resolver.mode)
}

/// The first resolver whose address is the normalized `addr`.
pub fn find_resolver_by_addr(resolvers: &Vec<ResolverState>, addr: SockAddr) -> (r: Option<usize>)
    ensures
        match r {
            Some(j) => {
                &&& 0 <= j < resolvers@.len()
                &&& resolvers@[j as int].addr == crate::addr::normalize_addr_spec(addr)
                &&& forall|k: int|
                    0 <= k < j ==> (#[trigger] resolvers@[k]).addr != crate::addr::normalize_addr_spec(
                        addr,
                    )
            },
            None => forall|k: int|
                0 <= k < resolvers@.len() ==> (#[trigger] resolvers@[k]).addr
                    != crate::addr::normalize_addr_spec(addr),
        },
{
    let norm = crate::addr::normalize_dual_stack_addr(addr);
    let n = resolvers.len();
    let mut j: usize = 0;
    while j < n
        invariant
            n == resolvers@.len(),
            norm == crate::addr::normalize_addr_spec(addr),
            0 <= j <= n,
            forall|k: int|
                0 <= k < j ==> (#[trigger] resolvers@[k]).addr != crate::addr::normalize_addr_spec(
                    addr,
                ),
        decreases n - j,
    {
        if resolvers[j].addr == norm {
            return Some(j);
        }
        j += 1;
    }
    None
}

/// The first resolver carrying this path id.
pub fn find_resolver_by_path_id(resolvers: &Vec<ResolverState>, path_id: u64) -> (r: Option<usize>)
    ensures
        match r {
            Some(j) => {
                &&& 0 <= j < resolvers@.len()
                &&& resolvers@[j as int].path_id == Some(path_id)
                &&& forall|k: int|
                    0 <= k < j ==> (#[trigger] resolvers@[k]).path_id != Some(path_id)
            },
            None => forall|k: int|
                0 <= k < resolvers@.len() ==> (#[trigger] resolvers@[k]).path_id != Some(path_id),
        },
{
    let n = resolvers.len();
    let mut j: usize = 0;
    while j < n
        invariant
            n == resolvers@.len(),
            0 <= j <= n,
            forall|k: int| 0 <= k < j ==> (#[trigger] resolvers@[k]).path_id != Some(path_id),
        decreases n - j,
    {
        let matches_id = match resolvers[j].path_id {
            Some(p) => p == path_id,
            None => false,
        };
        if matches_id {
            return Some(j);
        }
        j += 1;
    }
    None
}

} // verus!
