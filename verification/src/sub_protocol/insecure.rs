use vstd::prelude::*;

verus! {

/// Whether `msg` lies within `delta` of `state`.
pub open spec fn within(state: int, msg: int, delta: int) -> bool {
    state - delta <= msg <= state + delta
}

/// The first step, on a point of the first party: the message for the
/// peer and the state to keep. Both are the point itself.
pub fn sub_protocol_1(point: u64) -> (r: (u64, u64))
    ensures
        r == (point, point),
{
    (point, point)
}

/// The second step, on the peer's message and a point of the second
/// party: the reply, which is the point itself.
pub fn sub_protocol_2(_msg_from_a: u64, point: u64) -> (r: u64)
    ensures
        r == point,
{
    point
}

/// The third step, on the kept state and the peer's reply: the reply where
/// it lies within `delta` of the state, nothing where not.
pub fn sub_protocol_3(state: u64, msg_from_b: u64, delta: u64) -> (r: Option<u64>)
    ensures
        r == if within(state as int, msg_from_b as int, delta as int) {
            Some(msg_from_b)
        } else {
            None
        },
{
    let near = if msg_from_b >= state {
        msg_from_b - state <= delta
    } else {
        state - msg_from_b <= delta
    };
    if near {
        Some(msg_from_b)
    } else {
        None
    }
}

} // verus!
