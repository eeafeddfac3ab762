//! Energy transfer arithmetic for one frequency.
use vstd::prelude::*;

verus! {

/// The most energy one frequency stores.
pub const ENERGY_BUFFER_LIMIT: i64 = 4294967295;

/// How much of `offered` a store holding `cur` takes: the offer held to the
/// range from zero to the room left under the limit.
pub open spec fn recv_accept(cur: i64, offered: i64) -> int {
    let room: int = if ENERGY_BUFFER_LIMIT - cur > 0 {
        ENERGY_BUFFER_LIMIT - cur
    } else {
        0
    };
    if offered < 0 {
        0
    } else if offered < room {
        offered as int
    } else {
        room
    }
}

/// What is handed back of `offered`: the part not taken, never negative.
pub open spec fn recv_reject(cur: i64, offered: i64) -> int {
    if offered - recv_accept(cur, offered) > 0 {
        offered - recv_accept(cur, offered)
    } else {
        0
    }
}

/// The room left under the limit is representable as an `i64`.
pub open spec fn recv_in_range(cur: i64) -> bool {
    ENERGY_BUFFER_LIMIT - cur <= i64::MAX
}

/// How much a store holding `cur` sends for a request of `want`.
pub open spec fn send_amount(cur: i64, want: i64) -> i64 {
    let w: i64 = if want > 0 {
        want
    } else {
        0
    };
    if w < cur {
        w
    } else {
        cur
    }
}

/// Takes energy offered by a client into a store holding `cur`; returns the
/// new store and the amount rejected.
pub fn energy_receive(cur: i64, offered: i64) -> (r: (i64, i64))
    requires
        recv_in_range(cur),
    ensures
        r.0 == cur + recv_accept(cur, offered),
        r.1 == recv_reject(cur, offered),
        0 <= recv_accept(cur, offered),
        0 <= r.1,
        0 <= cur <= ENERGY_BUFFER_LIMIT ==> 0 <= r.0 <= ENERGY_BUFFER_LIMIT,
{
    let room_raw = ENERGY_BUFFER_LIMIT - cur;
    let room = if room_raw > 0 {
        room_raw
    } else {
        0
    };
    let accept = if offered < 0 {
        0
    } else if offered < room {
        offered
    } else {
        room
    };
    let reject = if offered - accept > 0 {
        offered - accept
    } else {
        0
    };
    (cur + accept, reject)
}

/// Sends energy to a client from a store holding `cur`; returns the new store
/// and the amount sent.
pub fn energy_send(cur: i64, want: i64) -> (r: (i64, i64))
    ensures
        r.1 == send_amount(cur, want),
        r.0 == cur - send_amount(cur, want),
        0 <= cur <= ENERGY_BUFFER_LIMIT ==> 0 <= r.0 <= ENERGY_BUFFER_LIMIT && 0 <= r.1,
{
    let w = if want > 0 {
        want
    } else {
        0
    };
    let send = if w < cur {
        w
    } else {
        cur
    };
    (cur - send, send)
}

} // verus!
