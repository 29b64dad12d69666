//! Running minima and maxima in an `Option`.

use std::cmp::Ordering;
use vstd::prelude::*;
use vstd::std_specs::cmp::PartialOrdSpec;

verus! {

/// What a running minimum is after it has met `new_value`.
pub open spec fn min_with<T: Ord>(seen: Option<T>, new_value: T) -> Option<T> {
    match seen {
        None => Some(new_value),
        Some(old_value) => if new_value.partial_cmp_spec(&old_value) == Some(Ordering::Less) {
            Some(new_value)
        } else {
            Some(old_value)
        },
    }
}

/// What a running maximum is after it has met `new_value`.
pub open spec fn max_with<T: Ord>(seen: Option<T>, new_value: T) -> Option<T> {
    match seen {
        None => Some(new_value),
        Some(old_value) => if new_value.partial_cmp_spec(&old_value) == Some(Ordering::Greater) {
            Some(new_value)
        } else {
            Some(old_value)
        },
    }
}

/// An optional value that keeps the least or the greatest of the values it
/// is shown.
pub trait OptionExt<T> {
    /// Puts `new_value` in `min_var` if it is less than what is there, or if
    /// nothing is there.
    fn update_min(min_var: &mut Self, new_value: T);

    /// Puts `new_value` in `max_var` if it is greater than what is there, or
    /// if nothing is there.
    fn update_max(max_var: &mut Self, new_value: T);
}

impl<T: Ord> OptionExt<T> for Option<T> {
    fn update_min(min_var: &mut Self, new_value: T)
        ensures
            T::obeys_partial_cmp_spec() ==> *final(min_var) == min_with(*old(min_var), new_value),
    {
        match min_var.take() {
            None => {
                *min_var = Some(new_value);
            },
            Some(old_value) => {
                if new_value < old_value {
                    *min_var = Some(new_value);
                } else {
                    *min_var = Some(old_value);
                }
            },
        }
    }

    fn update_max(max_var: &mut Self, new_value: T)
        ensures
            T::obeys_partial_cmp_spec() ==> *final(max_var) == max_with(*old(max_var), new_value),
    {
        match max_var.take() {
            None => {
                *max_var = Some(new_value);
            },
            Some(old_value) => {
                if new_value > old_value {
                    *max_var = Some(new_value);
                } else {
                    *max_var = Some(old_value);
                }
            },
        }
    }
}

} // verus!
