//! Calls of functions as values. Of what such a call gives back it is known that
//! this function gave it for these arguments, also where nothing else is known.
use vstd::prelude::*;

verus! {

/// Call a function without arguments.
pub fn call0<R, F: Fn() -> R>(f: F) -> (r: R)
    requires
        call_requires(f, ()),
    ensures
        call_ensures(f, (), r),
{
    f()
}

/// Call a function of one argument.
pub fn call1<A, R, F: Fn(A) -> R>(f: F, a: A) -> (r: R)
    requires
        call_requires(f, (a,)),
    ensures
        call_ensures(f, (a,), r),
{
    f(a)
}

/// Call a function of two arguments.
pub fn call2<A, B, R, F: Fn(A, B) -> R>(f: F, a: A, b: B) -> (r: R)
    requires
        call_requires(f, (a, b)),
    ensures
        call_ensures(f, (a, b), r),
{
    f(a, b)
}

/// Call a function of three arguments.
pub fn call3<A, B, C, R, F: Fn(A, B, C) -> R>(f: F, a: A, b: B, c: C) -> (r: R)
    requires
        call_requires(f, (a, b, c)),
    ensures
        call_ensures(f, (a, b, c), r),
{
    f(a, b, c)
}

/// Call a function of five arguments.
pub fn call5<A, B, C, D, E, R, F: Fn(A, B, C, D, E) -> R>(f: F, a: A, b: B, c: C, d: D, e: E) -> (r:
    R)
    requires
        call_requires(f, (a, b, c, d, e)),
    ensures
        call_ensures(f, (a, b, c, d, e), r),
{
    f(a, b, c, d, e)
}

} // verus!
