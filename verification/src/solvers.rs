//! Vector kernels of the iterative solvers.
use vstd::prelude::*;
use vstd::std_specs::ops::{AddSpec, MulSpec};
use std::ops::{Add, Mul};
use crate::sparse::adjoint::int_dot;

verus! {

/// `init + a[0]*b[0] + ... + a[n-1]*b[n-1]`, summed left to right.
pub open spec fn dot_from<T: Add<Output = T> + Mul<Output = T>>(a: Seq<T>, b: Seq<T>, init: T, n: int) -> T
    decreases n,
{
    if n <= 0 {
        init
    } else {
        dot_from(a, b, init, n - 1).add_spec(a[n - 1].mul_spec(b[n - 1]))
    }
}

/// Every product and partial sum of `dot_from(a, b, init, n)` is defined
/// (for integers: does not overflow).
pub open spec fn dot_defined<T: Add<Output = T> + Mul<Output = T>>(a: Seq<T>, b: Seq<T>, init: T, n: int) -> bool
    decreases n,
{
    n <= 0 || {
        &&& dot_defined(a, b, init, n - 1)
        &&& a[n - 1].mul_req(b[n - 1])
        &&& dot_from(a, b, init, n - 1).add_req(a[n - 1].mul_spec(b[n - 1]))
    }
}

/// The shorter of two lengths.
pub open spec fn min_len(a: nat, b: nat) -> nat {
    if a < b { a } else { b }
}

/// Squared L2 norm of a vector: the sum of `x * x`, starting from
/// `T::default()`.
pub fn square_norm<T: Mul<Output = T> + Add<Output = T> + Copy + Default>(v: &[T]) -> (r: T)
    requires
        T::obeys_add_spec(),
        T::obeys_mul_spec(),
        forall|d: T| #[trigger] call_ensures(T::default, (), d) ==> dot_defined(v@, v@, d, v@.len() as int),
    ensures
        exists|d: T| #[trigger] call_ensures(T::default, (), d) && r == dot_from(v@, v@, d, v@.len() as int),
{
    let d = T::default();
    let mut acc = d;
    let mut i: usize = 0;
    while i < v.len()
        invariant
            T::obeys_add_spec(),
            T::obeys_mul_spec(),
            call_ensures(T::default, (), d),
            dot_defined(v@, v@, d, v@.len() as int),
            i <= v@.len(),
            acc == dot_from(v@, v@, d, i as int),
        decreases v@.len() - i,
    {
        proof {
            lemma_dot_defined_prefix(v@, v@, d, i + 1, v@.len() as int);
        }
        let x = v[i];
        acc = acc + x * x;
        i += 1;
    }
    acc
}

/// Dot product of two vectors over their common length, starting from
/// `T::default()`.
pub fn dot<T: Mul<Output = T> + Add<Output = T> + Copy + Default>(a: &[T], b: &[T]) -> (r: T)
    requires
        T::obeys_add_spec(),
        T::obeys_mul_spec(),
        forall|d: T| #[trigger] call_ensures(T::default, (), d) ==> dot_defined(a@, b@, d, min_len(a@.len(), b@.len()) as int),
    ensures
        exists|d: T| #[trigger] call_ensures(T::default, (), d) && r == dot_from(a@, b@, d, min_len(a@.len(), b@.len()) as int),
{
    let n = if a.len() < b.len() { a.len() } else { b.len() };
    let d = T::default();
    let mut acc = d;
    let mut i: usize = 0;
    while i < n
        invariant
            T::obeys_add_spec(),
            T::obeys_mul_spec(),
            call_ensures(T::default, (), d),
            n == min_len(a@.len(), b@.len()),
            dot_defined(a@, b@, d, n as int),
            i <= n,
            acc == dot_from(a@, b@, d, i as int),
        decreases n - i,
    {
        proof {
            lemma_dot_defined_prefix(a@, b@, d, i + 1, n as int);
        }
        acc = acc + a[i] * b[i];
        i += 1;
    }
    acc
}

/// A sum that is defined for `n` terms is defined for fewer.
proof fn lemma_dot_defined_prefix<T: Add<Output = T> + Mul<Output = T>>(a: Seq<T>, b: Seq<T>, init: T, m: int, n: int)
    requires
        m <= n,
        dot_defined(a, b, init, n),
    ensures
        dot_defined(a, b, init, m),
    decreases n - m,
{
    if m < n {
        lemma_dot_defined_prefix(a, b, init, m, n - 1);
    }
}

/// `square_norm(v)` is `dot(v, v)`: from the same default value both sum
/// the same products in the same order, and are defined on the same inputs.
pub proof fn lemma_square_norm_is_self_dot<T: Add<Output = T> + Mul<Output = T>>(v: Seq<T>, d: T)
    ensures
        dot_from(v, v, d, min_len(v.len(), v.len()) as int) == dot_from(v, v, d, v.len() as int),
        dot_defined(v, v, d, min_len(v.len(), v.len()) as int) == dot_defined(v, v, d, v.len() as int),
{
}

proof fn lemma_dot_from_is_int_dot(a: Seq<i64>, b: Seq<i64>, n: int)
    requires
        dot_defined(a, b, 0i64, n),
    ensures
        n >= 0 ==> dot_from(a, b, 0i64, n) == int_dot(a, b, n),
    decreases n,
{
    if n > 0 {
        lemma_dot_from_is_int_dot(a, b, n - 1);
    }
}

/// On integers `dot` is exact: a result as `dot` (or `square_norm`, with
/// `b == a`) states it, with every step defined, is the integer sum of
/// `a[i] * b[i]`.
pub proof fn lemma_integer_dot(a: Seq<i64>, b: Seq<i64>, n: nat, r: i64)
    requires
        dot_defined(a, b, 0i64, n as int),
        exists|d: i64| #[trigger] call_ensures(i64::default, (), d) && r == dot_from(a, b, d, n as int),
    ensures
        r == int_dot(a, b, n as int),
{
    let d = choose|d: i64| #[trigger] call_ensures(i64::default, (), d) && r == dot_from(a, b, d, n as int);
    assert(d == 0);
    lemma_dot_from_is_int_dot(a, b, n as int);
}

} // verus!
