//! Client-side decisions: resolver ordering, loop pacing, per-stream
//! bookkeeping, and write coalescing.
//!
//! The client's event loop waits on sockets, channels and timers; that
//! waiting, and the QUIC endpoint it drives, stay outside the library.
//! What is decided here: the order of the configured resolvers, how long
//! the loop may sleep, what each stream's counters become on each event,
//! and how queued writes are coalesced before one TCP write.

use crate::assoc64::AssocTable64;
use crate::config::AddressFamily;
use crate::config::HostPort;
use crate::config::ResolverMode;
use crate::config::ResolverSpec;
use crate::resolver::ClientError;
use vstd::prelude::*;
use vstd::string::StringExecFns;

verus! {

/// Largest QUIC payload before the DNS envelope is paid for.
pub const BASE_MTU: u32 = 1200;

/// Longest idle sleep of the event loop, microseconds.
pub const DNS_WAKE_DELAY_MAX_US: u64 = 10000000;

/// Longest sleep while work is pending, microseconds.
pub const DNS_POLL_SLICE_US: u64 = 50000;

/// Base datagram burst per loop turn.
pub const PACKET_LOOP_SEND_MAX: usize = 64;

/// Base receive burst per loop turn.
pub const PACKET_LOOP_RECV_MAX: usize = 64;

/// The payload budget per packet under a domain of the given length.
/// The domain rides in every query name, so each of its octets comes out
/// of the packet budget. Succeeds exactly when the domain leaves room.
pub fn compute_mtu(domain_len: usize) -> (r: Result<u32, ClientError>)
    ensures
        r is Ok <==> domain_len < BASE_MTU,
        r matches Ok(m) ==> m == BASE_MTU - domain_len,
{
    if domain_len >= 1200 {
        return Err(ClientError::new(String::from_str("Domain too long for DNS tunneling")));
    }
    Ok(1200 - domain_len as u32)
}

/// How long the loop may sleep: within one poll slice while work is
/// pending, else until the endpoint's own deadline, never zero.
pub fn loop_timeout_us(delay_us: u64, has_work: bool) -> (r: u64)
    ensures
        has_work ==> r == (if delay_us < 1 {
            1u64
        } else if delay_us > DNS_POLL_SLICE_US {
            DNS_POLL_SLICE_US as u64
        } else {
            delay_us
        }),
        !has_work ==> r == (if delay_us < 1 {
            1u64
        } else {
            delay_us
        }),
{
    if has_work {
        if delay_us < 1 {
            1
        } else if delay_us > DNS_POLL_SLICE_US {
            DNS_POLL_SLICE_US
        } else {
            delay_us
        }
    } else {
        if delay_us < 1 {
            1
        } else {
            delay_us
        }
    }
}

/// The polls a path still owes for the loop's sleep decision: the pacing
/// target minus the in-flight estimate on an authoritative path, the
/// scheduled polls on a recursive one.
pub fn pending_for_sleep(
    mode: ResolverMode,
    pending_polls: usize,
    cwnd: u64,
    bytes_in_flight: u64,
    mtu: u32,
) -> (r: u64)
    requires
        mtu > 0,
    ensures
        mode == ResolverMode::Authoritative ==> r == (if crate::pacing::target_polls_spec(
            cwnd as int,
            mtu as int,
        ) >= crate::pacing::inflight_estimate_spec(bytes_in_flight as int, mtu as int) {
            crate::pacing::target_polls_spec(cwnd as int, mtu as int)
                - crate::pacing::inflight_estimate_spec(bytes_in_flight as int, mtu as int)
        } else {
            0int
        }),
        mode == ResolverMode::Recursive ==> r == pending_polls,
{
    match mode {
        ResolverMode::Authoritative => crate::pacing::pending_poll_target(
            cwnd,
            bytes_in_flight,
            mtu,
        ),
        ResolverMode::Recursive => pending_polls as u64,
    }
}

/// An item of a resolver flag with its position on the command line.
pub struct IndexedHostPort {
    /// The flag's position among all arguments.
    pub index: usize,
    /// The parsed address.
    pub host_port: HostPort,
}

/// A host-port as plain values.
pub open spec fn hp_view(hp: HostPort) -> (Seq<char>, u16, AddressFamily) {
    (hp.host@, hp.port, hp.family)
}

/// An indexed item as plain values.
pub open spec fn indexed_view(v: Seq<IndexedHostPort>) -> Seq<(int, (Seq<char>, u16, AddressFamily))> {
    Seq::new(v.len(), |i: int| (v[i].index as int, hp_view(v[i].host_port)))
}

/// Resolver specs as plain values.
pub open spec fn specs_view(v: Seq<ResolverSpec>) -> Seq<((Seq<char>, u16, AddressFamily), ResolverMode)> {
    Seq::new(v.len(), |i: int| (hp_view(v[i].resolver), v[i].mode))
}

/// The merged resolver list: items of both flags ordered by command-line
/// position, recursive items winning ties, each keeping its mode.
pub open spec fn merge_ordered_spec(
    rec: Seq<(int, (Seq<char>, u16, AddressFamily))>,
    aut: Seq<(int, (Seq<char>, u16, AddressFamily))>,
) -> Seq<((Seq<char>, u16, AddressFamily), ResolverMode)>
    decreases rec.len() + aut.len(),
{
    if rec.len() == 0 && aut.len() == 0 {
        Seq::empty()
    } else if aut.len() == 0 || (rec.len() > 0 && rec[0].0 <= aut[0].0) {
        seq![(rec[0].1, ResolverMode::Recursive)] + merge_ordered_spec(rec.skip(1), aut)
    } else {
        seq![(aut[0].1, ResolverMode::Authoritative)] + merge_ordered_spec(rec, aut.skip(1))
    }
}

/// Copy a host-port.
fn clone_host_port(hp: &HostPort) -> (r: HostPort)
    ensures
        hp_view(r) == hp_view(*hp),
{
    HostPort { host: hp.host.clone(), port: hp.port, family: hp.family }
}

/// Merge the two resolver flags into one list ordered as they stood on
/// the command line, ties to the recursive flag. Errors when both lists
/// are empty: at least one resolver is required.
pub fn build_resolvers(recursive: &[IndexedHostPort], authoritative: &[IndexedHostPort]) -> (r:
    Result<Vec<ResolverSpec>, ClientError>)
    ensures
        r is Ok <==> recursive@.len() + authoritative@.len() > 0,
        r matches Ok(v) ==> specs_view(v@) == merge_ordered_spec(
            indexed_view(recursive@),
            indexed_view(authoritative@),
        ),
{
    let rn = recursive.len();
    let an = authoritative.len();
    if rn == 0 && an == 0 {
        return Err(ClientError::new(String::from_str("At least one resolver is required")));
    }
    let ghost rv = indexed_view(recursive@);
    let ghost av = indexed_view(authoritative@);
    let mut out: Vec<ResolverSpec> = Vec::new();
    let mut i: usize = 0;
    let mut j: usize = 0;
    proof {
        assert(rv.skip(0) =~= rv);
        assert(av.skip(0) =~= av);
        assert(specs_view(out@) =~~= Seq::<((Seq<char>, u16, AddressFamily), ResolverMode)>::empty());
        assert(merge_ordered_spec(rv, av) =~~= specs_view(out@) + merge_ordered_spec(
            rv.skip(0),
            av.skip(0),
        ));
    }
    while i < rn || j < an
        invariant
            rn == recursive@.len(),
            an == authoritative@.len(),
            rv == indexed_view(recursive@),
            av == indexed_view(authoritative@),
            0 <= i <= rn,
            0 <= j <= an,
            merge_ordered_spec(rv, av) == specs_view(out@) + merge_ordered_spec(
                rv.skip(i as int),
                av.skip(j as int),
            ),
        decreases rn - i + an - j,
    {
        let take_recursive = if j >= an {
            true
        } else if i >= rn {
            false
        } else {
            recursive[i].index <= authoritative[j].index
        };
        let ghost rs = rv.skip(i as int);
        let ghost as_ = av.skip(j as int);
        let ghost oldout = out@;
        if take_recursive {
            let hp = clone_host_port(&recursive[i].host_port);
            out.push(ResolverSpec { resolver: hp, mode: ResolverMode::Recursive });
            proof {
                assert(rs[0] == rv[i as int]);
                assert(rs.skip(1) =~= rv.skip(i as int + 1));
                assert(merge_ordered_spec(rs, as_) == seq![(rs[0].1, ResolverMode::Recursive)]
                    + merge_ordered_spec(rv.skip(i as int + 1), as_));
                assert(specs_view(out@) =~~= specs_view(oldout) + seq![
                    (rs[0].1, ResolverMode::Recursive),
                ]);
                assert(merge_ordered_spec(rv, av) =~~= specs_view(out@) + merge_ordered_spec(
                    rv.skip(i as int + 1),
                    av.skip(j as int),
                ));
            }
            i += 1;
        } else {
            let hp = clone_host_port(&authoritative[j].host_port);
            out.push(ResolverSpec { resolver: hp, mode: ResolverMode::Authoritative });
            proof {
                assert(as_[0] == av[j as int]);
                assert(as_.skip(1) =~= av.skip(j as int + 1));
                assert(merge_ordered_spec(rs, as_) == seq![(as_[0].1, ResolverMode::Authoritative)]
                    + merge_ordered_spec(rs, av.skip(j as int + 1)));
                assert(specs_view(out@) =~~= specs_view(oldout) + seq![
                    (as_[0].1, ResolverMode::Authoritative),
                ]);
                assert(merge_ordered_spec(rv, av) =~~= specs_view(out@) + merge_ordered_spec(
                    rv.skip(i as int),
                    av.skip(j as int + 1),
                ));
            }
            j += 1;
        }
    }
    proof {
        assert(rv.skip(rn as int).len() == 0);
        assert(av.skip(an as int).len() == 0);
        assert(merge_ordered_spec(rv.skip(rn as int), av.skip(an as int))
            =~~= Seq::<((Seq<char>, u16, AddressFamily), ResolverMode)>::empty());
        assert(specs_view(out@) + merge_ordered_spec(rv.skip(rn as int), av.skip(an as int))
            =~~= specs_view(out@));
    }
    Ok(out)
}

/// Counters for one open stream.
pub struct StreamState {
    /// Bytes handed to the TCP writer and not yet written out.
    pub queued_bytes: usize,
    /// Bytes received from the stream.
    pub rx_bytes: u64,
    /// Bytes written to the stream.
    pub tx_bytes: u64,
}

/// The per-stream bookkeeping of the event loop, keyed by stream id.
pub struct StreamTable {
    streams: AssocTable64<StreamState>,
}

impl StreamTable {
    /// The streams by id.
    pub closed spec fn view(&self) -> Map<u64, StreamState> {
        self.streams.view()
    }

    /// Well-formed: stream ids unique.
    pub closed spec fn wf(&self) -> bool {
        self.streams.wf()
    }

    /// An empty table.
    pub fn new() -> (r: Self)
        ensures
            r.wf(),
            r.view() == Map::<u64, StreamState>::empty(),
    {
        StreamTable { streams: AssocTable64::new() }
    }

    /// How many streams are open.
    pub fn len(&self) -> (r: usize)
        requires
            self.wf(),
        ensures
            r == self.view().dom().len(),
    {
        proof {
            crate::assoc64::lemma_pairs_map64_card(self.streams.entries@);
        }
        self.streams.len()
    }

    /// Whether a stream is open.
    pub fn contains(&self, stream_id: u64) -> (r: bool)
        requires
            self.wf(),
        ensures
            r == self.view().contains_key(stream_id),
    {
        match self.streams.find(stream_id) {
            Some(_) => true,
            None => false,
        }
    }

    /// Open a stream with zeroed counters. A stream the endpoint already
    /// handed out is never opened twice.
    pub fn insert_stream(&mut self, stream_id: u64)
        requires
            old(self).wf(),
            !old(self).view().contains_key(stream_id),
        ensures
            final(self).wf(),
            final(self).view() == old(self).view().insert(
                stream_id,
                StreamState { queued_bytes: 0, rx_bytes: 0, tx_bytes: 0 },
            ),
    {
        self.streams.insert_fresh(
            stream_id,
            StreamState { queued_bytes: 0, rx_bytes: 0, tx_bytes: 0 },
        );
    }

    /// Drop a stream. Streams not in the table are left alone.
    pub fn remove_stream(&mut self, stream_id: u64)
        requires
            old(self).wf(),
        ensures
            final(self).wf(),
            final(self).view() == old(self).view().remove(stream_id),
    {
        match self.streams.find(stream_id) {
            Some(j) => {
                let _ = self.streams.remove_at(j);
            },
            None => {
                proof {
                    assert(self.view() =~= old(self).view().remove(stream_id));
                }
            },
        }
    }

    /// Count bytes written to a stream, saturating.
    pub fn record_tx(&mut self, stream_id: u64, bytes: usize)
        requires
            old(self).wf(),
        ensures
            final(self).wf(),
            old(self).view().contains_key(stream_id) ==> final(self).view() == old(
                self,
            ).view().insert(
                stream_id,
                StreamState {
                    tx_bytes: (if old(self).view()[stream_id].tx_bytes + bytes > u64::MAX {
                        u64::MAX as int
                    } else {
                        old(self).view()[stream_id].tx_bytes + bytes
                    }) as u64,
                    ..old(self).view()[stream_id]
                },
            ),
            !old(self).view().contains_key(stream_id) ==> final(self).view() == old(self).view(),
    {
        match self.streams.find(stream_id) {
            Some(j) => {
                let (id, st) = self.streams.remove_at(j);
                let new_tx: u64 = if st.tx_bytes > u64::MAX - bytes as u64 {
                    u64::MAX
                } else {
                    st.tx_bytes + bytes as u64
                };
                self.streams.insert_fresh(id, StreamState { tx_bytes: new_tx, ..st });
                proof {
                    assert(self.view() =~= old(self).view().insert(
                        stream_id,
                        StreamState {
                            tx_bytes: (if old(self).view()[stream_id].tx_bytes + bytes
                                > u64::MAX {
                                u64::MAX as int
                            } else {
                                old(self).view()[stream_id].tx_bytes + bytes
                            }) as u64,
                            ..old(self).view()[stream_id]
                        },
                    ));
                }
            },
            None => {
            },
        }
    }

    /// Count bytes drained by the TCP writer, saturating at zero.
    pub fn record_drained(&mut self, stream_id: u64, bytes: usize)
        requires
            old(self).wf(),
        ensures
            final(self).wf(),
            old(self).view().contains_key(stream_id) ==> final(self).view() == old(
                self,
            ).view().insert(
                stream_id,
                StreamState {
                    queued_bytes: (if old(self).view()[stream_id].queued_bytes >= bytes {
                        old(self).view()[stream_id].queued_bytes - bytes
                    } else {
                        0int
                    }) as usize,
                    ..old(self).view()[stream_id]
                },
            ),
            !old(self).view().contains_key(stream_id) ==> final(self).view() == old(self).view(),
    {
        match self.streams.find(stream_id) {
            Some(j) => {
                let (id, st) = self.streams.remove_at(j);
                let new_q: usize = if st.queued_bytes >= bytes {
                    st.queued_bytes - bytes
                } else {
                    0
                };
                self.streams.insert_fresh(id, StreamState { queued_bytes: new_q, ..st });
                proof {
                    assert(self.view() =~= old(self).view().insert(
                        stream_id,
                        StreamState {
                            queued_bytes: (if old(self).view()[stream_id].queued_bytes >= bytes {
                                old(self).view()[stream_id].queued_bytes - bytes
                            } else {
                                0int
                            }) as usize,
                            ..old(self).view()[stream_id]
                        },
                    ));
                }
            },
            None => {
            },
        }
    }
}

/// One message queued for the TCP writer.
pub enum StreamWrite {
    /// Bytes to write.
    Data(Vec<u8>),
    /// The stream ended; shut the socket down after the queue drains.
    Fin,
}

/// What coalescing from index `i` with `acc` bytes already gathered
/// consumes and produces: data messages are appended until the buffer
/// reaches `max` octets, a fin stops and is consumed, the queue's end
/// stops.
pub open spec fn coalesce_spec(msgs: Seq<StreamWrite>, i: int, acc: int, max: int) -> (
    int,
    Seq<u8>,
    bool,
)
    decreases msgs.len() - i,
{
    if i < 0 || i >= msgs.len() || acc >= max {
        (0int, Seq::<u8>::empty(), false)
    } else {
        match msgs[i] {
            StreamWrite::Fin => (1int, Seq::<u8>::empty(), true),
            StreamWrite::Data(d) => {
                let (c, b, f) = coalesce_spec(msgs, i + 1, acc + d@.len(), max);
                (c + 1, d@ + b, f)
            },
        }
    }
}

/// Gather queued writes from index `i` into one buffer of up to `max`
/// octets.
fn coalesce_from(msgs: &Vec<StreamWrite>, i: usize, acc: usize, max: usize) -> (r: (
    Vec<u8>,
    usize,
    bool,
))
    requires
        acc <= max,
    ensures
        ({
            let (c, b, f) = coalesce_spec(msgs@, i as int, acc as int, max as int);
            &&& r.1 == c
            &&& r.0@ == b
            &&& r.2 == f
        }),
        i < msgs@.len() ==> r.1 <= msgs@.len() - i,
        i >= msgs@.len() ==> r.1 == 0,
    decreases msgs@.len() - i,
{
    if i >= msgs.len() || acc >= max {
        return (Vec::new(), 0, false);
    }
    match &msgs[i] {
        StreamWrite::Fin => (Vec::new(), 1, true),
        StreamWrite::Data(d) => {
            let dl = d.len();
            let next_acc: usize = if dl > max - acc {
                max
            } else {
                acc + dl
            };
            let (rest, c, f) = coalesce_from(msgs, i + 1, next_acc, max);
            proof {
                if acc + dl >= max {
                    assert(coalesce_spec(msgs@, i as int + 1, acc + d@.len(), max as int) == (
                        0int,
                        Seq::<u8>::empty(),
                        false,
                    ));
                    assert(coalesce_spec(msgs@, i as int + 1, next_acc as int, max as int) == (
                        0int,
                        Seq::<u8>::empty(),
                        false,
                    ));
                }
            }
            let mut buf = vstd::slice::slice_to_vec(d.as_slice());
            let mut rest_vec = rest;
            buf.append(&mut rest_vec);
            (buf, c + 1, f)
        },
    }
}

/// Gather queued writes into one buffer of up to `coalesce_max` octets:
/// data messages are appended in order until the buffer is full, a fin is
/// consumed and reported, and the consumed count says how many messages
/// the buffer covers.
pub fn coalesce_writes(msgs: &Vec<StreamWrite>, coalesce_max: usize) -> (r: (Vec<u8>, usize, bool))
    ensures
        ({
            let m: int = if coalesce_max < 1 {
                1int
            } else {
                coalesce_max as int
            };
            let (c, b, f) = coalesce_spec(msgs@, 0, 0, m);
            &&& r.1 == c
            &&& r.0@ == b
            &&& r.2 == f
        }),
{
    let max: usize = if coalesce_max < 1 {
        1
    } else {
        coalesce_max
    };
    coalesce_from(msgs, 0, 0, max)
}

} // verus!
