//! Searching a range that a predicate cuts in two.

use std::ops::Range;
use vstd::prelude::*;

verus! {

/// Wherever `p` can hold inside `rng`, it holds on everything before: over
/// `rng`, the answers of `p` read `true, .., true, false, .., false`.
pub open spec fn partitions<F: Fn(i64) -> bool>(p: F, rng: Range<i64>) -> bool {
    forall|x: i64, y: i64, at_x: bool, at_y: bool|
        rng.start <= x <= y < rng.end && #[trigger] call_ensures(p, (x,), at_x)
            && #[trigger] call_ensures(p, (y,), at_y) && at_y ==> at_x
}

/// The partition point of `rng` under `p`: the first element of `rng` at
/// which `p` does not hold, or the end of `rng` if it holds throughout.
/// An empty or reversed range gives its start.
///
/// `p` was seen to hold just before the point, and seen not to hold at it,
/// wherever the range has such an element.
pub fn partition_point<F: Fn(i64) -> bool>(rng: Range<i64>, p: F) -> (point: i64)
    requires
        rng.start <= rng.end ==> rng.end - rng.start <= i64::MAX,
        forall|x: i64| rng.start <= x < rng.end ==> call_requires(p, (x,)),
        partitions(p, rng),
    ensures
        rng.start <= rng.end ==> rng.start <= point <= rng.end,
        rng.start > rng.end ==> point == rng.start,
        rng.start < point ==> call_ensures(p, ((point - 1) as i64,), true),
        point < rng.end ==> call_ensures(p, (point,), false),
        forall|x: i64, at_x: bool|
            rng.start <= x < point && #[trigger] call_ensures(p, (x,), at_x) ==> at_x,
        forall|x: i64, at_x: bool|
            point <= x < rng.end && #[trigger] call_ensures(p, (x,), at_x) ==> !at_x,
{
    let mut start = rng.start;
    let mut end = rng.end;
    while start < end
        invariant
            rng.start <= rng.end ==> rng.start <= start <= end <= rng.end,
            rng.start > rng.end ==> start == rng.start && end == rng.end,
            rng.start <= rng.end ==> rng.end - rng.start <= i64::MAX,
            forall|x: i64| rng.start <= x < rng.end ==> call_requires(p, (x,)),
            partitions(p, rng),
            rng.start < start ==> call_ensures(p, ((start - 1) as i64,), true),
            end < rng.end ==> call_ensures(p, (end,), false),
            forall|x: i64, at_x: bool|
                rng.start <= x < start && #[trigger] call_ensures(p, (x,), at_x) ==> at_x,
            forall|x: i64, at_x: bool|
                end <= x < rng.end && #[trigger] call_ensures(p, (x,), at_x) ==> !at_x,
        decreases end - start,
    {
        let middle = start + (end - start) / 2;
        let holds = p(middle);
        if holds {
            assert forall|x: i64, at_x: bool|
                rng.start <= x < middle + 1 && #[trigger] call_ensures(
                    p,
                    (x,),
                    at_x,
                ) implies at_x by {
                assert(call_ensures(p, (middle,), holds));
            }
            start = middle + 1;
        } else {
            assert forall|x: i64, at_x: bool|
                middle <= x < rng.end && #[trigger] call_ensures(p, (x,), at_x) implies !at_x by {
                assert(call_ensures(p, (middle,), holds));
            }
            end = middle;
        }
    }
    start
}

} // verus!
