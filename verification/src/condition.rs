//! Run conditions over resources. A condition is handed the resource, or
//! `None` when the world has none of that type, and tells whether a system
//! should run.

use vstd::prelude::*;
use vstd::std_specs::cmp::PartialEqSpec;

verus! {

/// A condition that holds when the resource exists.
pub fn resource_exists<T>() -> (r: impl Fn(Option<&T>) -> bool)
    ensures
        forall|res: Option<&T>| #[trigger] r.requires((res,)),
        forall|res: Option<&T>, b: bool| r.ensures((res,), b) ==> b == res is Some,
{
    |res: Option<&T>| -> (b: bool)
        ensures
            b == res is Some,
        { res.is_some() }
}

/// A condition that holds when the resource equals `value`. It is handed the
/// resource itself: a world without the resource is outside it.
pub fn resource_equals<T: PartialEq>(value: T) -> (r: impl Fn(&T) -> bool)
    ensures
        forall|res: &T| #[trigger] r.requires((res,)),
        forall|res: &T, b: bool|
            r.ensures((res,), b) ==> (T::obeys_eq_spec() ==> b == res.eq_spec(&value)),
{
    move |res: &T| -> (b: bool)
        ensures
            T::obeys_eq_spec() ==> b == res.eq_spec(&value),
        { *res == value }
}

/// A condition that holds when the resource exists and equals `value`.
pub fn resource_exists_and_equals<T: PartialEq>(value: T) -> (r: impl Fn(Option<&T>) -> bool)
    ensures
        forall|res: Option<&T>| #[trigger] r.requires((res,)),
        forall|res: Option<&T>, b: bool|
            r.ensures((res,), b) ==> match res {
                Some(x) => T::obeys_eq_spec() ==> b == x.eq_spec(&value),
                None => !b,
            },
{
    move |res: Option<&T>| -> (b: bool)
        ensures
            match res {
                Some(x) => T::obeys_eq_spec() ==> b == x.eq_spec(&value),
                None => !b,
            },
        {
            match res {
                Some(x) => *x == value,
                None => false,
            }
        }
}

/// A condition that holds when the non-`Send` resource exists.
pub fn non_send_resource_exists<T>() -> (r: impl Fn(Option<&T>) -> bool)
    ensures
        forall|res: Option<&T>| #[trigger] r.requires((res,)),
        forall|res: Option<&T>, b: bool| r.ensures((res,), b) ==> b == res is Some,
{
    |res: Option<&T>| -> (b: bool)
        ensures
            b == res is Some,
        { res.is_some() }
}

/// A condition that holds when the non-`Send` resource equals `value`. It is
/// handed the resource itself: a world without the resource is outside it.
pub fn non_send_resource_equals<T: PartialEq>(value: T) -> (r: impl Fn(&T) -> bool)
    ensures
        forall|res: &T| #[trigger] r.requires((res,)),
        forall|res: &T, b: bool|
            r.ensures((res,), b) ==> (T::obeys_eq_spec() ==> b == res.eq_spec(&value)),
{
    move |res: &T| -> (b: bool)
        ensures
            T::obeys_eq_spec() ==> b == res.eq_spec(&value),
        { *res == value }
}

/// A condition that holds when the non-`Send` resource exists and equals
/// `value`.
pub fn non_send_resource_exists_and_equals<T: PartialEq>(value: T) -> (r: impl Fn(
    Option<&T>,
) -> bool)
    ensures
        forall|res: Option<&T>| #[trigger] r.requires((res,)),
        forall|res: Option<&T>, b: bool|
            r.ensures((res,), b) ==> match res {
                Some(x) => T::obeys_eq_spec() ==> b == x.eq_spec(&value),
                None => !b,
            },
{
    move |res: Option<&T>| -> (b: bool)
        ensures
            match res {
                Some(x) => T::obeys_eq_spec() ==> b == x.eq_spec(&value),
                None => !b,
            },
        {
            match res {
                Some(x) => *x == value,
                None => false,
            }
        }
}

} // verus!
