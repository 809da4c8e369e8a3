use vstd::prelude::*;

verus! {

/// Capacity of a growable buffer after it has run out of room: buffers start
/// at eight slots and double from there.
pub open spec fn grown_capacity(capacity: nat) -> nat {
    if capacity < 8 {
        8
    } else {
        capacity * 2
    }
}

/// The capacity to reserve when a buffer holding `capacity` slots is full.
pub fn grow_capacity(capacity: usize) -> (r: usize)
    requires
        capacity <= usize::MAX / 2,
    ensures
        r == grown_capacity(capacity as nat),
        r > capacity,
{
    if capacity < 8 {
        8
    } else {
        capacity * 2
    }
}

} // verus!
