//! Application-layer fragmentation for QUIC packets carried over DNS.
//!
//! A DNS query name can hold far fewer bytes than a QUIC packet may need,
//! so large packets are split into up to 255 ordered fragments. Each
//! fragment starts with a five-byte envelope: a magic byte, a big-endian
//! packet id, the fragment's zero-based number, and the total fragment
//! count. The peer collects fragments per packet id and emits the packet
//! once every fragment has arrived.

use vstd::prelude::*;

verus! {

/// Magic byte that marks a fragment envelope.
pub const FRAGMENT_MAGIC: u8 = 0x53;

/// Envelope size: magic (1) + packet id (2) + fragment number (1) + total (1).
pub const FRAGMENT_HEADER_SIZE: usize = 5;

/// The five envelope bytes for one fragment.
pub open spec fn frag_header_spec(packet_id: u16, frag_num: u8, total: u8) -> Seq<u8> {
    seq![
        FRAGMENT_MAGIC,
        (packet_id / 256) as u8,
        (packet_id % 256) as u8,
        frag_num,
        total,
    ]
}

/// Payload bytes a fragment can carry once the envelope is paid for.
pub open spec fn frag_chunk_size(max_payload: int) -> int {
    max_payload - FRAGMENT_HEADER_SIZE
}

/// How many fragments a packet of `len` bytes yields with `chunk` payload
/// bytes per fragment: one when it fits, else the ceiling capped at 255.
pub open spec fn frag_count_spec(len: int, chunk: int) -> int
    recommends
        chunk > 0,
{
    if len <= chunk {
        1int
    } else {
        let n = len / chunk + if len % chunk != 0 {
            1int
        } else {
            0int
        };
        if n <= 255 {
            n
        } else {
            255int
        }
    }
}

/// The payload slice of fragment `i`: bytes `i * chunk` up to the next
/// chunk boundary or the packet's end.
pub open spec fn frag_payload_spec(packet: Seq<u8>, chunk: int, i: int) -> Seq<u8>
    recommends
        chunk > 0,
        0 <= i,
        i * chunk <= packet.len(),
{
    packet.subrange(
        i * chunk,
        if (i + 1) * chunk <= packet.len() {
            (i + 1) * chunk
        } else {
            packet.len() as int
        },
    )
}

/// The full wire bytes of fragment `i` of a packet.
pub open spec fn frag_bytes_spec(packet: Seq<u8>, packet_id: u16, chunk: int, i: int, total: u8) -> Seq<
    u8,
> {
    frag_header_spec(packet_id, i as u8, total) + frag_payload_spec(packet, chunk, i)
}

/// What a fragment envelope parses to: packet id, fragment number, total,
/// and the payload after the header. `None` when the bytes are too short
/// or do not start with the magic byte.
pub open spec fn parse_fragment_spec(data: Seq<u8>) -> Option<(u16, u8, u8, Seq<u8>)> {
    if data.len() >= FRAGMENT_HEADER_SIZE && data[0] == FRAGMENT_MAGIC {
        Some(
            (
                (data[1] as u16 * 256 + data[2] as u16) as u16,
                data[3],
                data[4],
                data.subrange(FRAGMENT_HEADER_SIZE as int, data.len() as int),
            ),
        )
    } else {
        None
    }
}

/// Split a packet into enveloped fragments ready for DNS encoding.
///
/// With `max_payload` no larger than the envelope nothing fits and no
/// fragments are produced; the caller must raise `max_payload`. A packet
/// that fits one chunk yields a single fragment with `total = 1`. Larger
/// packets are cut into contiguous chunks of the leftover size. A packet
/// needing more than 255 fragments cannot be carried and is outside this
/// function's domain: the caller rejects it, or raises `max_payload`.
pub fn fragment_packet(packet: &[u8], packet_id: u16, max_payload: usize) -> (r: Vec<Vec<u8>>)
    requires
        max_payload > FRAGMENT_HEADER_SIZE ==> packet@.len() <= 255 * frag_chunk_size(
            max_payload as int,
        ),
    ensures
        max_payload <= FRAGMENT_HEADER_SIZE ==> r@.len() == 0,
        max_payload > FRAGMENT_HEADER_SIZE ==> {
            let chunk = frag_chunk_size(max_payload as int);
            let n = frag_count_spec(packet@.len() as int, chunk);
            &&& r@.len() == n
            &&& forall|i: int|
                0 <= i < n ==> (#[trigger] r@[i])@ == frag_bytes_spec(
                    packet@,
                    packet_id,
                    chunk,
                    i,
                    n as u8,
                )
        },
{
    if max_payload <= FRAGMENT_HEADER_SIZE {
        return Vec::new();
    }
    let chunk_size: usize = max_payload - FRAGMENT_HEADER_SIZE;
    let ghost chunk = chunk_size as int;
    let len = packet.len();

    let total: usize = if len <= chunk_size {
        1
    } else {
        let q = len / chunk_size;
        let n = if len % chunk_size != 0 {
            proof {
                assert(chunk_size >= 2) by {
                    if chunk_size == 1 {
                        assert(len % 1 == 0) by (nonlinear_arith);
                    }
                }
                assert(len / chunk_size <= len / 2) by (nonlinear_arith)
                    requires
                        chunk_size >= 2,
                        len >= 0,
                ;
            }
            q + 1
        } else {
            q
        };
        if n <= 255 {
            n
        } else {
            255
        }
    };
    proof {
        assert(total == frag_count_spec(len as int, chunk));
        if len > chunk_size {
            assert(len / chunk_size >= 1) by (nonlinear_arith)
                requires
                    len > chunk_size > 0,
            ;
        }
    }

    let mut fragments: Vec<Vec<u8>> = Vec::new();
    let mut i: usize = 0;
    let mut off: usize = 0;
    while i < total
        invariant
            chunk == chunk_size as int,
            0 < chunk_size,
            len == packet@.len(),
            total == frag_count_spec(len as int, chunk),
            1 <= total <= 255,
            0 <= i <= total,
            i < total ==> off == i * chunk_size && off <= len,
            fragments@.len() == i,
            forall|j: int|
                0 <= j < i ==> (#[trigger] fragments@[j])@ == frag_bytes_spec(
                    packet@,
                    packet_id,
                    chunk,
                    j,
                    total as u8,
                ),
        decreases total - i,
    {
        let end: usize = if len - off <= chunk_size {
            len
        } else {
            off + chunk_size
        };
        let mut frag: Vec<u8> = Vec::new();
        frag.push(FRAGMENT_MAGIC);
        frag.push((packet_id / 256) as u8);
        frag.push((packet_id % 256) as u8);
        frag.push(i as u8);
        frag.push(total as u8);
        let mut k: usize = off;
        while k < end
            invariant
                off <= k <= end <= packet@.len(),
                frag@.len() == 5 + (k - off),
                frag@.subrange(0, 5) == frag_header_spec(packet_id, (i as u8), (total as u8)),
                frag@.subrange(5, frag@.len() as int) == packet@.subrange(off as int, k as int),
            decreases end - k,
        {
            frag.push(packet[k]);
            proof {
                assert(frag@.subrange(0, 5) =~= frag@.subrange(0, frag@.len() - 1).subrange(0, 5));
                assert(frag@.subrange(5, frag@.len() as int) =~= packet@.subrange(
                    off as int,
                    k + 1,
                ));
            }
            k += 1;
        }
        proof {
            assert((i + 1) * chunk == off + chunk_size) by (nonlinear_arith)
                requires
                    off == i * chunk_size,
                    chunk == chunk_size as int,
            ;
            lemma_frag_end(len as int, chunk, total as int, i as int);
            assert(end as int == if (i as int + 1) * chunk <= len as int {
                (i as int + 1) * chunk
            } else {
                len as int
            });
            assert(frag@ =~= frag@.subrange(0, 5) + frag@.subrange(5, frag@.len() as int));
            assert(frag@ == frag_bytes_spec(packet@, packet_id, chunk, i as int, total as u8));
        }
        fragments.push(frag);
        proof {
            if i + 1 < total {
                lemma_frag_off_in_range(len as int, chunk, total as int, i as int + 1);
                if end == len {
                    assert(false);
                }
                assert(end == off + chunk_size);
            }
        }
        i += 1;
        off = end;
    }
    fragments
}

/// Fragment `i` of an unfinished run ends exactly at the next chunk
/// boundary, and only the last fragment may end at the packet's end.
proof fn lemma_frag_end(len: int, chunk: int, total: int, i: int)
    requires
        chunk > 0,
        total == frag_count_spec(len, chunk),
        total <= 255,
        0 <= i < total,
        i * chunk <= len,
    ensures
        len - i * chunk <= chunk <==> (i + 1) * chunk >= len,
{
    assert((i + 1) * chunk == i * chunk + chunk) by (nonlinear_arith);
}

/// Every fragment index below the total starts strictly inside the packet.
proof fn lemma_frag_off_in_range(len: int, chunk: int, total: int, i: int)
    requires
        chunk > 0,
        total == frag_count_spec(len, chunk),
        1 <= i < total,
    ensures
        i * chunk <= len - 1,
{
    if len <= chunk {
        assert(false);
    } else {
        let n = len / chunk + if len % chunk != 0 {
            1int
        } else {
            0int
        };
        assert(i <= n - 1);
        if len % chunk != 0 {
            assert(i <= len / chunk);
            assert(i * chunk <= (len / chunk) * chunk) by (nonlinear_arith)
                requires
                    chunk > 0,
                    i <= len / chunk,
            ;
            assert((len / chunk) * chunk + len % chunk == len) by (nonlinear_arith)
                requires
                    chunk > 0,
            ;
            assert(len % chunk >= 1);
        } else {
            assert(i <= len / chunk - 1);
            assert(i * chunk <= (len / chunk - 1) * chunk) by (nonlinear_arith)
                requires
                    chunk > 0,
                    i <= len / chunk - 1,
            ;
            assert((len / chunk) * chunk == len) by (nonlinear_arith)
                requires
                    chunk > 0,
                    len % chunk == 0,
            ;
            assert((len / chunk - 1) * chunk == len - chunk) by (nonlinear_arith)
                requires
                    chunk > 0,
                    (len / chunk) * chunk == len,
            ;
        }
    }
}

/// Parse a fragment envelope into packet id, fragment number, total, and
/// the payload after the header. Rejects short data and a wrong magic byte.
pub fn parse_fragment<'a>(data: &'a [u8]) -> (r: Option<(u16, u8, u8, &'a [u8])>)
    ensures
        match r {
            Some((packet_id, frag_num, total, payload)) => {
                &&& parse_fragment_spec(data@) == Some(
                    (packet_id, frag_num, total, payload@),
                )
                &&& payload@ == data@.subrange(FRAGMENT_HEADER_SIZE as int, data@.len() as int)
            },
            None => parse_fragment_spec(data@) is None,
        },
{
    if data.len() < FRAGMENT_HEADER_SIZE {
        return None;
    }
    if data[0] != FRAGMENT_MAGIC {
        return None;
    }
    let packet_id: u16 = data[1] as u16 * 256 + data[2] as u16;
    let frag_num = data[3];
    let total = data[4];
    let payload = vstd::slice::slice_subrange(data, FRAGMENT_HEADER_SIZE, data.len());
    Some((packet_id, frag_num, total, payload))
}

/// True exactly when the bytes are long enough for an envelope and start
/// with the fragment magic byte.
pub fn is_fragmented(data: &[u8]) -> (r: bool)
    ensures
        r == (data@.len() >= FRAGMENT_HEADER_SIZE && data@[0] == FRAGMENT_MAGIC),
{
    if data.len() < FRAGMENT_HEADER_SIZE {
        return false;
    }
    data[0] == FRAGMENT_MAGIC
}

/// A fragment envelope built by `fragment_packet` parses back to the same
/// packet id, fragment number, total, and payload slice.
pub proof fn lemma_fragment_parses_back(packet: Seq<u8>, packet_id: u16, chunk: int, i: int, total: u8)
    requires
        chunk > 0,
        0 <= i < total,
        i * chunk <= packet.len(),
    ensures
        parse_fragment_spec(frag_bytes_spec(packet, packet_id, chunk, i, total)) == Some(
            (packet_id, i as u8, total, frag_payload_spec(packet, chunk, i)),
        ),
{
    let b = frag_bytes_spec(packet, packet_id, chunk, i, total);
    assert(b[0] == FRAGMENT_MAGIC);
    assert(b[1] == (packet_id / 256) as u8);
    assert(b[2] == (packet_id % 256) as u8);
    assert(packet_id / 256 * 256 + packet_id % 256 == packet_id) by (nonlinear_arith);
    assert(b.subrange(FRAGMENT_HEADER_SIZE as int, b.len() as int) =~= frag_payload_spec(
        packet,
        chunk,
        i,
    ));
}

/// The bytes a reassembly slot holds: the fragment payload, or nothing yet.
pub open spec fn part_view(o: Option<Vec<u8>>) -> Option<Seq<u8>> {
    match o {
        Some(v) => Some(v@),
        None => None,
    }
}

/// The slot vector of a reassembly entry as a sequence of byte sequences.
pub open spec fn parts_view(parts: Seq<Option<Vec<u8>>>) -> Seq<Option<Seq<u8>>> {
    Seq::new(parts.len(), |i: int| part_view(parts[i]))
}

/// The payload of a filled slot; an empty sequence for an empty one.
pub open spec fn opt_bytes(o: Option<Seq<u8>>) -> Seq<u8> {
    match o {
        Some(b) => b,
        None => Seq::empty(),
    }
}

/// The packet a fully filled slot sequence reassembles to: the slots'
/// payloads concatenated in order.
pub open spec fn concat_parts(parts: Seq<Option<Seq<u8>>>) -> Seq<u8>
    decreases parts.len(),
{
    if parts.len() == 0 {
        Seq::empty()
    } else {
        concat_parts(parts.drop_last()) + opt_bytes(parts.last())
    }
}

/// How many slots are filled.
pub open spec fn count_some(parts: Seq<Option<Seq<u8>>>) -> int
    decreases parts.len(),
{
    if parts.len() == 0 {
        0int
    } else {
        count_some(parts.drop_last()) + if parts.last() is Some {
            1int
        } else {
            0int
        }
    }
}

/// The filled-slot count stays between zero and the slot count.
pub proof fn lemma_count_some_bounds(parts: Seq<Option<Seq<u8>>>)
    ensures
        0 <= count_some(parts) <= parts.len(),
    decreases parts.len(),
{
    if parts.len() > 0 {
        lemma_count_some_bounds(parts.drop_last());
    }
}

/// Filling an empty slot raises the filled-slot count by one.
pub proof fn lemma_count_some_update(parts: Seq<Option<Seq<u8>>>, i: int, b: Seq<u8>)
    requires
        0 <= i < parts.len(),
        parts[i] is None,
    ensures
        count_some(parts.update(i, Some(b))) == count_some(parts) + 1,
    decreases parts.len(),
{
    let upd = parts.update(i, Some(b));
    if i == parts.len() - 1 {
        assert(upd.drop_last() =~= parts.drop_last());
    } else {
        assert(upd.drop_last() =~= parts.drop_last().update(i, Some(b)));
        lemma_count_some_update(parts.drop_last(), i, b);
        assert(upd.last() == parts.last());
    }
}

/// When every slot counts as filled, every slot is filled.
pub proof fn lemma_count_some_full(parts: Seq<Option<Seq<u8>>>)
    requires
        count_some(parts) == parts.len(),
    ensures
        forall|i: int| 0 <= i < parts.len() ==> (#[trigger] parts[i]) is Some,
    decreases parts.len(),
{
    if parts.len() > 0 {
        lemma_count_some_bounds(parts.drop_last());
        lemma_count_some_full(parts.drop_last());
        assert forall|i: int| 0 <= i < parts.len() implies (#[trigger] parts[i]) is Some by {
            if i < parts.len() - 1 {
                assert(parts.drop_last()[i] == parts[i]);
            }
        }
    }
}

/// Concatenating one more slot appends its payload.
proof fn lemma_concat_parts_take_step(parts: Seq<Option<Seq<u8>>>, k: int)
    requires
        0 <= k < parts.len(),
    ensures
        concat_parts(parts.take(k + 1)) == concat_parts(parts.take(k)) + opt_bytes(parts[k]),
{
    assert(parts.take(k + 1).drop_last() =~= parts.take(k));
    assert(parts.take(k + 1).last() == parts[k]);
}

/// The concatenation of the first `k` fragment payloads of a packet is the
/// packet's first `k * chunk` bytes (or all of it, for the last fragment).
#[verifier::spinoff_prover]
proof fn lemma_concat_fragment_prefix(packet: Seq<u8>, chunk: int, n: int, k: int)
    requires
        chunk > 0,
        n == frag_count_spec(packet.len() as int, chunk),
        packet.len() <= 255 * chunk,
        0 <= k <= n,
    ensures
        concat_parts(Seq::new(n as nat, |i: int| Some(frag_payload_spec(packet, chunk, i))).take(k))
            == packet.take(
            if k * chunk <= packet.len() {
                k * chunk
            } else {
                packet.len() as int
            },
        ),
    decreases k,
{
    let all = Seq::new(n as nat, |i: int| Some(frag_payload_spec(packet, chunk, i)));
    if k == 0 {
        assert(concat_parts(all.take(0)) =~= Seq::<u8>::empty());
        assert(packet.take(0) =~= Seq::<u8>::empty());
    } else {
        lemma_concat_fragment_prefix(packet, chunk, n, k - 1);
        lemma_concat_parts_take_step(all, k - 1);
        if k - 1 >= 1 {
            lemma_frag_off_in_range(packet.len() as int, chunk, n, k - 1);
        } else {
            assert((k - 1) * chunk == 0) by (nonlinear_arith)
                requires
                    k == 1,
            ;
        }
        assert((k - 1) * chunk == k * chunk - chunk) by (nonlinear_arith);
        assert((k - 1) * chunk <= packet.len());
        let prev_end = (k - 1) * chunk;
        let this_end: int = if k * chunk <= packet.len() {
            k * chunk
        } else {
            packet.len() as int
        };
        assert(all[k - 1] == Some(frag_payload_spec(packet, chunk, k - 1)));
        assert(opt_bytes(all[k - 1]) == packet.subrange(prev_end, this_end));
        assert(concat_parts(all.take(k - 1)) == packet.take(prev_end));
        assert(concat_parts(all.take(k)) == packet.take(prev_end) + packet.subrange(
            prev_end,
            this_end,
        ));
        assert(packet.take(prev_end) + packet.subrange(prev_end, this_end) =~= packet.take(
            this_end,
        ));
    }
}

/// Fragment round-trip, stated over slots: when every slot of a complete
/// reassembly holds the corresponding fragment payload of a packet that
/// fits 255 fragments, the concatenation is exactly the packet.
pub proof fn lemma_reassembly_emits_packet(packet: Seq<u8>, chunk: int, parts: Seq<Option<Seq<u8>>>)
    requires
        chunk > 0,
        0 < packet.len() <= 255 * chunk,
        parts.len() == frag_count_spec(packet.len() as int, chunk),
        forall|i: int| 0 <= i < parts.len() ==> (#[trigger] parts[i]) == Some(
            frag_payload_spec(packet, chunk, i),
        ),
    ensures
        concat_parts(parts) == packet,
{
    let n = frag_count_spec(packet.len() as int, chunk);
    let all = Seq::new(n as nat, |i: int| Some(frag_payload_spec(packet, chunk, i)));
    assert(parts =~= all);
    lemma_concat_fragment_prefix(packet, chunk, n, n);
    assert(all.take(n) =~= all);
    if packet.len() as int <= chunk {
        assert(n == 1);
        assert(n * chunk >= packet.len());
    } else {
        let q = packet.len() as int / chunk;
        let rem = packet.len() as int % chunk;
        vstd::arithmetic::div_mod::lemma_fundamental_div_mod(packet.len() as int, chunk);
        vstd::arithmetic::div_mod::lemma_mod_bound(packet.len() as int, chunk);
        assert(q * chunk + rem == packet.len() && 0 <= rem < chunk);
        if rem != 0 {
            assert(n == if q + 1 <= 255 { q + 1 } else { 255int });
            assert(q + 1 <= 255) by (nonlinear_arith)
                requires
                    q * chunk + rem == packet.len(),
                    packet.len() <= 255 * chunk,
                    0 < rem < chunk,
                    chunk > 0,
            ;
            assert((q + 1) * chunk >= packet.len()) by (nonlinear_arith)
                requires
                    q * chunk + rem == packet.len(),
                    rem < chunk,
            ;
        } else {
            assert(q <= 255) by (nonlinear_arith)
                requires
                    q * chunk == packet.len(),
                    packet.len() <= 255 * chunk,
                    chunk > 0,
            ;
        }
    }
    assert(n * chunk >= packet.len());
    assert(packet.take(packet.len() as int) =~= packet);
}

/// One packet's reassembly state: one slot per expected fragment, the
/// stamp of the first fragment's arrival, and the filled-slot count.
pub struct FragmentEntry {
    /// Fragment payloads by fragment number; `None` until one arrives.
    pub parts: Vec<Option<Vec<u8>>>,
    /// Total number of fragments the packet was split into.
    pub total: u8,
    /// Microsecond timestamp of the entry's creation.
    pub created: u64,
    /// How many distinct fragments have arrived.
    pub received: u8,
}

impl FragmentEntry {
    /// The slots as byte sequences.
    pub open spec fn parts_seq(&self) -> Seq<Option<Seq<u8>>> {
        parts_view(self.parts@)
    }

    /// Well-formed: slot count matches the announced total, the received
    /// counter counts the filled slots, and the entry is incomplete (a
    /// complete entry is emitted and removed at once).
    pub open spec fn wf(&self) -> bool {
        &&& 1 <= self.total
        &&& self.parts@.len() == self.total as int
        &&& self.received as int == count_some(self.parts_seq())
        &&& (self.received as int) < (self.total as int)
    }
}

/// Relies on std::time::SystemTime::now: microseconds since the Unix
/// epoch, or zero when the clock reads earlier than the epoch.
#[verifier::external_body]
fn now_micros() -> u64 {
    match std::time::SystemTime::now().duration_since(std::time::UNIX_EPOCH) {
        Ok(d) => d.as_micros() as u64,
        Err(_) => 0,
    }
}

/// Default timeout for incomplete reassemblies, in seconds.
pub const FRAGMENT_TIMEOUT_SECS: u64 = 5;

/// Whether an entry created at `created` is still fresh at `now` with the
/// given timeout: its age, measured without wrapping, is under the limit.
pub open spec fn entry_fresh_at(created: u64, now: u64, timeout_us: u64) -> bool {
    (if now >= created {
        now - created
    } else {
        0int
    }) < timeout_us
}

/// The timeout in microseconds, saturating at the largest value.
pub open spec fn timeout_us_spec(timeout_secs: u64) -> u64 {
    if timeout_secs > u64::MAX / 1000000 {
        u64::MAX
    } else {
        (timeout_secs * 1000000) as u64
    }
}

/// One sweep of the buffer against one clock reading: exactly the entries
/// still fresh at `now` survive.
pub open spec fn sweep_ok(
    before: Map<u16, FragmentEntry>,
    after: Map<u16, FragmentEntry>,
    now: u64,
    timeout_us: u64,
) -> bool {
    forall|id: u16|
        #![auto]
        after.contains_key(id) <==> (before.contains_key(id) && entry_fresh_at(
            before[id].created,
            now,
            timeout_us,
        ))
}

/// Buffer that reassembles fragmented packets, keyed by packet id.
pub struct FragmentBuffer {
    entries: crate::assoc::AssocTable<FragmentEntry>,
    timeout_secs: u64,
}

impl FragmentBuffer {
    /// The pending reassemblies by packet id.
    pub closed spec fn view(&self) -> Map<u16, FragmentEntry> {
        self.entries.view()
    }

    /// The reassembly timeout in seconds.
    pub closed spec fn timeout_spec(&self) -> u64 {
        self.timeout_secs
    }

    /// Well-formed: keys unique and every pending entry incomplete and
    /// internally consistent.
    pub closed spec fn wf(&self) -> bool {
        &&& self.entries.wf()
        &&& forall|id: u16|
            #[trigger] self.view().contains_key(id) ==> self.view()[id].wf()
    }

    /// A fresh buffer with the default timeout.
    pub fn new() -> (r: Self)
        ensures
            r.wf(),
            r.view() == Map::<u16, FragmentEntry>::empty(),
            r.timeout_spec() == FRAGMENT_TIMEOUT_SECS,
    {
        FragmentBuffer { entries: crate::assoc::AssocTable::new(), timeout_secs: FRAGMENT_TIMEOUT_SECS }
    }

    /// A fresh buffer with the given timeout in seconds.
    pub fn with_timeout(timeout_secs: u64) -> (r: Self)
        ensures
            r.wf(),
            r.view() == Map::<u16, FragmentEntry>::empty(),
            r.timeout_spec() == timeout_secs,
    {
        FragmentBuffer { entries: crate::assoc::AssocTable::new(), timeout_secs }
    }

    /// Number of pending incomplete reassemblies.
    pub fn pending_count(&self) -> (r: usize)
        requires
            self.wf(),
        ensures
            r == self.view().dom().len(),
    {
        proof {
            crate::assoc::lemma_pairs_map_card(self.entries.entries@);
        }
        self.entries.len()
    }

    /// Feed one datagram. Returns the reassembled packet when this
    /// fragment completes it; `None` while fragments are missing or when
    /// the data is not a usable fragment.
    ///
    /// A datagram that does not parse as a fragment, announces a zero
    /// total, carries a fragment number at or past the total, or
    /// contradicts the total already recorded for its packet id leaves the
    /// buffer unchanged. A duplicate of an already-filled slot is ignored.
    /// Otherwise the payload fills its slot; when the last slot fills, the
    /// slots are concatenated in fragment order, the entry is dropped, and
    /// the packet is returned.
    pub fn receive_fragment(&mut self, data: &[u8]) -> (r: Option<Vec<u8>>)
        requires
            old(self).wf(),
        ensures
            final(self).wf(),
            final(self).timeout_spec() == old(self).timeout_spec(),
            match parse_fragment_spec(data@) {
                None => r is None && final(self).view() == old(self).view(),
                Some((id, fnum, total, payload)) => {
                    if total == 0 || fnum >= total {
                        r is None && final(self).view() == old(self).view()
                    } else if old(self).view().contains_key(id) && old(self).view()[id].total
                        != total {
                        r is None && final(self).view() == old(self).view()
                    } else {
                        let parts0 = if old(self).view().contains_key(id) {
                            old(self).view()[id].parts_seq()
                        } else {
                            Seq::new(total as nat, |i: int| None::<Seq<u8>>)
                        };
                        let parts1 = if parts0[fnum as int] is None {
                            parts0.update(fnum as int, Some(payload))
                        } else {
                            parts0
                        };
                        if count_some(parts1) == total as int {
                            &&& r matches Some(v) && v@ == concat_parts(parts1)
                            &&& final(self).view() == old(self).view().remove(id)
                        } else {
                            &&& r is None
                            &&& final(self).view().contains_key(id)
                            &&& final(self).view()[id].parts_seq() == parts1
                            &&& final(self).view()[id].total == total
                            &&& (old(self).view().contains_key(id) ==> final(self).view()[id].created
                                == old(self).view()[id].created)
                            &&& final(self).view().remove(id) == old(self).view().remove(id)
                        }
                    }
                },
            },
    {
        let parsed = parse_fragment(data);
        let (packet_id, frag_num, total, payload) = match parsed {
            Some(t) => t,
            None => {
                return None;
            },
        };
        if total == 0 || frag_num >= total {
            return None;
        }
        let fi = frag_num as usize;
        match self.entries.find(packet_id) {
            Some(j) => {
                if self.entries.entries[j].1.total != total {
                    return None;
                }
                let (id, mut e) = self.entries.remove_at(j);
                let ghost parts0 = e.parts_seq();
                if e.parts[fi].is_some() {
                    self.entries.insert_fresh(id, e);
                    proof {
                        assert(self.view() =~= old(self).view());
                        lemma_count_some_bounds(parts0);
                    }
                    return None;
                }
                e.parts[fi] = Some(vstd::slice::slice_to_vec(payload));
                proof {
                    assert(e.parts_seq() =~= parts0.update(fi as int, Some(payload@)));
                    lemma_count_some_update(parts0, fi as int, payload@);
                }
                e.received = e.received + 1;
                if e.received == total {
                    proof {
                        assert(count_some(e.parts_seq()) == e.parts_seq().len());
                        lemma_count_some_full(e.parts_seq());
                        assert forall|ii: int|
                            0 <= ii < e.parts@.len() implies (#[trigger] e.parts@[ii]) is Some by {
                            assert(e.parts_seq()[ii] is Some);
                        }
                    }
                    let packet = assemble_parts(&e.parts);
                    return Some(packet);
                }
                self.entries.insert_fresh(id, e);
                proof {
                    assert(self.view().remove(id) =~= old(self).view().remove(id));
                }
                None
            },
            None => {
                let mut parts: Vec<Option<Vec<u8>>> = Vec::new();
                let total_us: usize = total as usize;
                let mut c: usize = 0;
                while c < total_us
                    invariant
                        0 <= c <= total_us,
                        parts@.len() == c,
                        count_some(parts_view(parts@)) == 0,
                        forall|k: int| 0 <= k < c ==> (#[trigger] parts@[k]) is None,
                    decreases total_us - c,
                {
                    let ghost before = parts_view(parts@);
                    parts.push(None);
                    proof {
                        assert(parts_view(parts@).drop_last() =~= before);
                    }
                    c += 1;
                }
                let ghost parts0 = Seq::new(total as nat, |i: int| None::<Seq<u8>>);
                proof {
                    assert(parts_view(parts@) =~= parts0);
                }
                parts[fi] = Some(vstd::slice::slice_to_vec(payload));
                proof {
                    assert(parts_view(parts@) =~= parts0.update(fi as int, Some(payload@)));
                    lemma_count_some_update(parts0, fi as int, payload@);
                }
                if total == 1 {
                    let e = FragmentEntry { parts, total, created: 0, received: 1 };
                    proof {
                        assert(count_some(e.parts_seq()) == e.parts_seq().len());
                        lemma_count_some_full(e.parts_seq());
                        assert forall|ii: int|
                            0 <= ii < e.parts@.len() implies (#[trigger] e.parts@[ii]) is Some by {
                            assert(e.parts_seq()[ii] is Some);
                        }
                        assert(old(self).view().remove(packet_id) =~= old(self).view());
                    }
                    let packet = assemble_parts(&e.parts);
                    return Some(packet);
                }
                let e = FragmentEntry { parts, total, created: now_micros(), received: 1 };
                self.entries.insert_fresh(packet_id, e);
                proof {
                    assert(self.view().remove(packet_id) =~= old(self).view());
                }
                None
            },
        }
    }

    /// Drop reassemblies older than the timeout, judged against the
    /// given clock reading. Surviving entries keep their state; exactly
    /// those still fresh at `now` survive.
    pub fn cleanup_at(&mut self, now: u64)
        requires
            old(self).wf(),
        ensures
            final(self).wf(),
            final(self).timeout_spec() == old(self).timeout_spec(),
            forall|id: u16|
                #[trigger] final(self).view().contains_key(id) ==> final(self).view()[id] == old(
                    self,
                ).view()[id],
            sweep_ok(
                old(self).view(),
                final(self).view(),
                now,
                timeout_us_spec(old(self).timeout_spec()),
            ),
    {
        let timeout_us: u64 = if self.timeout_secs > u64::MAX / 1000000 {
            u64::MAX
        } else {
            self.timeout_secs * 1000000
        };
        let ghost t0 = self.timeout_secs;
        let mut kept: crate::assoc::AssocTable<FragmentEntry> = crate::assoc::AssocTable::new();
        let ghost orig = self.entries.view();
        proof {
            assert(orig == self.view());
            assert forall|id: u16| #[trigger] orig.contains_key(id) implies orig[id].wf() by {
                assert(self.view().contains_key(id));
            }
        }
        while self.entries.len() > 0
            invariant
                self.timeout_secs == t0,
                self.entries.wf(),
                kept.wf(),
                timeout_us == timeout_us_spec(t0),
                forall|id: u16|
                    #[trigger] orig.contains_key(id) ==> orig[id].wf(),
                forall|id: u16|
                    #[trigger] self.entries.view().contains_key(id) ==> orig.contains_key(id)
                        && self.entries.view()[id] == orig[id],
                forall|id: u16|
                    #[trigger] kept.view().contains_key(id) ==> orig.contains_key(id)
                        && kept.view()[id] == orig[id] && !self.entries.view().contains_key(id),
                forall|id: u16|
                    orig.contains_key(id) && !(#[trigger] self.entries.view().contains_key(id))
                        ==> (kept.view().contains_key(id) <==> entry_fresh_at(
                        orig[id].created,
                        now,
                        timeout_us,
                    )),
            decreases self.entries.entries@.len(),
        {
            let (id, e) = self.entries.remove_at(0);
            let age = if now >= e.created {
                now - e.created
            } else {
                0
            };
            if age < timeout_us {
                kept.insert_fresh(id, e);
            }
        }
        let ghost rem = self.entries.view();
        let ghost keptv = kept.view();
        proof {
            assert(self.entries.entries@.len() == 0);
            assert forall|id: u16| !(#[trigger] rem.contains_key(id)) by {
                crate::assoc::lemma_pairs_map_contains::<FragmentEntry>(self.entries.entries@, id);
            }
        }
        self.entries = kept;
        proof {
            assert(self.view() == keptv);
            assert forall|id: u16|
                #![auto]
                self.view().contains_key(id) <==> (orig.contains_key(id) && entry_fresh_at(
                    orig[id].created,
                    now,
                    timeout_us,
                )) by {
                assert(!rem.contains_key(id));
            }
            assert(sweep_ok(orig, self.view(), now, timeout_us));
        }
    }

    /// Drop reassemblies older than the timeout, judged against the
    /// clock read during the sweep; the discard is eventual, not exact.
    pub fn cleanup_stale(&mut self)
        requires
            old(self).wf(),
        ensures
            final(self).wf(),
            final(self).timeout_spec() == old(self).timeout_spec(),
            forall|id: u16|
                #[trigger] final(self).view().contains_key(id) ==> old(self).view().contains_key(id)
                    && final(self).view()[id] == old(self).view()[id],
            exists|now: u64|
                sweep_ok(
                    old(self).view(),
                    final(self).view(),
                    now,
                    timeout_us_spec(old(self).timeout_spec()),
                ),
    {
        let now = now_micros();
        self.cleanup_at(now);
    }
}

impl Default for FragmentBuffer {
    /// A fresh buffer with the default timeout.
    fn default() -> (r: Self)
        ensures
            r.wf(),
            r.view() == Map::<u16, FragmentEntry>::empty(),
            r.timeout_spec() == FRAGMENT_TIMEOUT_SECS,
    {
        FragmentBuffer::new()
    }
}

/// Concatenate the slots of a complete reassembly in fragment order.
fn assemble_parts(parts: &Vec<Option<Vec<u8>>>) -> (r: Vec<u8>)
    requires
        forall|i: int| 0 <= i < parts@.len() ==> (#[trigger] parts@[i]) is Some,
    ensures
        r@ == concat_parts(parts_view(parts@)),
{
    let mut out: Vec<u8> = Vec::new();
    let n = parts.len();
    let mut i: usize = 0;
    proof {
        assert(parts_view(parts@).take(0) =~= Seq::<Option<Seq<u8>>>::empty());
    }
    while i < n
        invariant
            n == parts@.len(),
            0 <= i <= n,
            forall|k: int| 0 <= k < n ==> (#[trigger] parts@[k]) is Some,
            out@ == concat_parts(parts_view(parts@).take(i as int)),
        decreases n - i,
    {
        proof {
            lemma_concat_parts_take_step(parts_view(parts@), i as int);
        }
        match &parts[i] {
            Some(v) => {
                out.extend_from_slice(v.as_slice());
            },
            None => {
                proof {
                    assert(false);
                }
            },
        }
        i += 1;
    }
    proof {
        assert(parts_view(parts@).take(n as int) =~= parts_view(parts@));
    }
    out
}

} // verus!
