//! Functions handed in by the caller.
//!
//! Arithmetic on samples comes in from outside as functions. A pure function
//! accepts every argument and gives the same result for the same arguments, so
//! that contracts can speak of *the* result.

use vstd::prelude::*;

verus! {

/// `f` is a pure function of one argument.
pub open spec fn pure1<A, R, F: Fn(A) -> R>(f: F) -> bool {
    &&& forall|a: A| call_requires(f, (a,))
    &&& forall|a: A, r: R, s: R| call_ensures(f, (a,), r) && call_ensures(f, (a,), s) ==> r == s
}

/// The result of a pure function.
pub open spec fn of1<A, R, F: Fn(A) -> R>(f: F, a: A) -> R {
    choose|r: R| call_ensures(f, (a,), r)
}

/// `f` is a pure function of two arguments.
pub open spec fn pure2<A, B, R, F: Fn(A, B) -> R>(f: F) -> bool {
    &&& forall|a: A, b: B| call_requires(f, (a, b))
    &&& forall|a: A, b: B, r: R, s: R|
        call_ensures(f, (a, b), r) && call_ensures(f, (a, b), s) ==> r == s
}

/// The result of a pure function.
pub open spec fn of2<A, B, R, F: Fn(A, B) -> R>(f: F, a: A, b: B) -> R {
    choose|r: R| call_ensures(f, (a, b), r)
}

/// `f` is a pure function of three arguments.
pub open spec fn pure3<A, B, C, R, F: Fn(A, B, C) -> R>(f: F) -> bool {
    &&& forall|a: A, b: B, c: C| call_requires(f, (a, b, c))
    &&& forall|a: A, b: B, c: C, r: R, s: R|
        call_ensures(f, (a, b, c), r) && call_ensures(f, (a, b, c), s) ==> r == s
}

/// The result of a pure function.
pub open spec fn of3<A, B, C, R, F: Fn(A, B, C) -> R>(f: F, a: A, b: B, c: C) -> R {
    choose|r: R| call_ensures(f, (a, b, c), r)
}

/// `f` is a pure function from a run of values to a list of `n`: it accepts any
/// run of `m` values, and the list depends on the values alone.
pub open spec fn pure_list<A, R, F: Fn(&[A]) -> Vec<R>>(f: F, m: int, n: int) -> bool {
    &&& forall|a: &[A]| a@.len() == m ==> call_requires(f, (a,))
    &&& forall|a: &[A], r: Vec<R>|
        a@.len() == m && #[trigger] call_ensures(f, (a,), r) ==> r@.len() == n
    &&& forall|a: &[A], b: &[A], r: Vec<R>, s: Vec<R>|
        a@ == b@ && #[trigger] call_ensures(f, (a,), r) && #[trigger] call_ensures(f, (b,), s)
            ==> r@ == s@
}

/// `f` may turn the run `a` into the list `r`.
pub open spec fn lists<A, R, F: Fn(&[A]) -> Vec<R>>(f: F, a: Seq<A>, r: Seq<R>) -> bool {
    exists|s: &[A], v: Vec<R>| s@ == a && v@ == r && #[trigger] call_ensures(f, (s,), v)
}

/// The list that a pure function makes of a run of values.
pub open spec fn list_of<A, R, F: Fn(&[A]) -> Vec<R>>(f: F, a: Seq<A>) -> Seq<R> {
    choose|r: Seq<R>| lists(f, a, r)
}

} // verus!
