//! Small helpers shared by the serialised forms of diagrams and graphs.

use vstd::prelude::*;
use vstd::std_specs::cmp::PartialEqSpec;

verus! {

/// Whether `t` equals its type's default value, so that it can be left out
/// when a value is written out.
///
/// The result is `t == T::default()`, for whatever value `default` returns.
pub fn is_default<T: Default + PartialEq>(t: &T) -> (r: bool)
    ensures
        exists|d: T|
            #![trigger call_ensures(T::default, (), d)]
            call_ensures(T::default, (), d) && (T::obeys_eq_spec() ==> r == t.eq_spec(&d)),
{
    let d = T::default();
    let equal = t.eq(&d);
    assert(call_ensures(T::default, (), d) && (T::obeys_eq_spec() ==> equal == t.eq_spec(&d)));
    equal
}

} // verus!
