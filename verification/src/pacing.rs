//! Poll pacing: translating congestion-window bytes into a count of
//! in-flight polls.
//!
//! On an authoritative path the server may only speak when a query gives it
//! a response slot, so the client keeps enough empty queries ("polls")
//! outstanding to let the server return a roughly congestion-window-sized
//! train of packets. The target is one poll per MTU-sized packet the window
//! admits, and never fewer than one.

use vstd::prelude::*;

verus! {

/// Ceiling division on mathematical integers.
pub open spec fn div_ceil_spec(n: int, d: int) -> int
    recommends
        d > 0,
{
    n / d + if n % d != 0 {
        1int
    } else {
        0int
    }
}

/// The poll target for a congestion window: `max(1, ceil(cwnd / mtu))`.
pub open spec fn target_polls_spec(cwnd: int, mtu: int) -> int
    recommends
        mtu > 0,
{
    let c = div_ceil_spec(cwnd, mtu);
    if c < 1 {
        1int
    } else {
        c
    }
}

/// The estimated number of packets a byte count keeps in flight:
/// `ceil(bytes / mtu)`, so a partially filled packet counts as one.
pub open spec fn inflight_estimate_spec(bytes: int, mtu: int) -> int
    recommends
        mtu > 0,
{
    div_ceil_spec(bytes, mtu)
}

/// Number of polls the client should have outstanding on an authoritative
/// path so the server can return a congestion-window's worth of packets.
pub fn cwnd_target_polls(cwnd_bytes: u64, mtu: u32) -> (r: u64)
    requires
        mtu > 0,
    ensures
        r == target_polls_spec(cwnd_bytes as int, mtu as int),
        r >= 1,
{
    let m = mtu as u64;
    let q = cwnd_bytes / m;
    let c = if cwnd_bytes % m != 0 {
        proof {
            lemma_rem_nonzero_bounds(cwnd_bytes as int, m as int);
        }
        q + 1
    } else {
        q
    };
    if c < 1 {
        1
    } else {
        c
    }
}

/// Estimate how many packets `bytes_in_flight` bytes occupy on the wire.
pub fn inflight_packet_estimate(bytes_in_flight: u64, mtu: u32) -> (r: u64)
    requires
        mtu > 0,
    ensures
        r == inflight_estimate_spec(bytes_in_flight as int, mtu as int),
{
    let m = mtu as u64;
    let q = bytes_in_flight / m;
    if bytes_in_flight % m != 0 {
        proof {
            lemma_rem_nonzero_bounds(bytes_in_flight as int, m as int);
        }
        q + 1
    } else {
        q
    }
}

/// How many more polls a path should schedule: the target minus the
/// in-flight estimate, clamped at zero.
pub fn pending_poll_target(cwnd_bytes: u64, bytes_in_flight: u64, mtu: u32) -> (r: u64)
    requires
        mtu > 0,
    ensures
        r == if target_polls_spec(cwnd_bytes as int, mtu as int) >= inflight_estimate_spec(
            bytes_in_flight as int,
            mtu as int,
        ) {
            target_polls_spec(cwnd_bytes as int, mtu as int) - inflight_estimate_spec(
                bytes_in_flight as int,
                mtu as int,
            )
        } else {
            0int
        },
{
    let target = cwnd_target_polls(cwnd_bytes, mtu);
    let inflight = inflight_packet_estimate(bytes_in_flight, mtu);
    if target >= inflight {
        target - inflight
    } else {
        0
    }
}

/// When a division's remainder is nonzero the quotient is strictly below
/// the dividend's bound, so adding one cannot overflow.
proof fn lemma_rem_nonzero_bounds(n: int, m: int)
    requires
        m > 0,
        0 <= n <= u64::MAX,
        n % m != 0,
    ensures
        n / m + 1 <= u64::MAX,
{
    assert(m >= 2) by {
        if m == 1 {
            assert(n % 1 == 0) by (nonlinear_arith);
        }
    }
    assert(n / m <= n / 2 < u64::MAX) by (nonlinear_arith)
        requires
            m >= 2,
            0 <= n <= u64::MAX,
    ;
}

/// The poll target is never below one: even an empty congestion window
/// leaves one poll outstanding so the server keeps a response slot.
pub proof fn lemma_target_polls_at_least_one(cwnd: int, mtu: int)
    requires
        mtu > 0,
        cwnd >= 0,
    ensures
        target_polls_spec(cwnd, mtu) >= 1,
{
}

/// A congestion window of exactly `k` MTU-sized packets asks for exactly
/// `k` polls.
pub proof fn lemma_target_polls_exact_multiple(k: int, mtu: int)
    requires
        mtu > 0,
        k >= 1,
    ensures
        target_polls_spec(k * mtu, mtu) == k,
{
    assert((k * mtu) / mtu == k && (k * mtu) % mtu == 0) by (nonlinear_arith)
        requires
            mtu > 0,
            k >= 1,
    ;
}

} // verus!
