//! Vectors of fixed-point numbers, modelled as sequences of raw counts.

use crate::fixed::{fx_add, fx_mul, lemma_fx_mul_commutative, representable, Fixed};
use vstd::prelude::*;

verus! {

/// Whether every entry of `v` is the raw count of some `Fixed`.
pub open spec fn all_representable(v: Seq<int>) -> bool {
    forall|i: int| 0 <= i < v.len() ==> representable(#[trigger] v[i])
}

/// The inner product of the first `k` entries of `x` and `w`, accumulated
/// from the left: each product is rounded, each partial sum saturates.
pub open spec fn dot_upto(x: Seq<int>, w: Seq<int>, k: int) -> int
    decreases k,
{
    if k <= 0 {
        0
    } else {
        fx_add(dot_upto(x, w, k - 1), fx_mul(x[k - 1], w[k - 1]))
    }
}

/// The inner product of two vectors of equal dimension.
pub open spec fn dot(x: Seq<int>, w: Seq<int>) -> int {
    dot_upto(x, w, x.len() as int)
}

/// `c * v`, entry by entry.
pub open spec fn scaled(c: int, v: Seq<int>) -> Seq<int> {
    Seq::new(v.len(), |i: int| fx_mul(c, v[i]))
}

/// `a + b`, entry by entry, for vectors of equal dimension.
pub open spec fn sum_of(a: Seq<int>, b: Seq<int>) -> Seq<int> {
    Seq::new(a.len(), |i: int| fx_add(a[i], b[i]))
}

/// The zero vector of dimension `d`.
pub open spec fn zeros(d: nat) -> Seq<int> {
    Seq::new(d, |i: int| 0int)
}

/// The inner product does not depend on the order of its arguments.
pub proof fn lemma_dot_symmetric(x: Seq<int>, w: Seq<int>)
    requires
        x.len() == w.len(),
    ensures
        dot(x, w) == dot(w, x),
{
    lemma_dot_upto_symmetric(x, w, x.len() as int);
}

proof fn lemma_dot_upto_symmetric(x: Seq<int>, w: Seq<int>, k: int)
    ensures
        dot_upto(x, w, k) == dot_upto(w, x, k),
    decreases k,
{
    if k > 0 {
        lemma_dot_upto_symmetric(x, w, k - 1);
        lemma_fx_mul_commutative(x[k - 1], w[k - 1]);
    }
}

pub(crate) fn dot_product(x: &[Fixed], w: &[Fixed]) -> (r: Fixed)
    requires
        x@.len() == w@.len(),
    ensures
        r@ == dot(x.deep_view(), w.deep_view()),
{
    let n: usize = x.len();
    let mut acc: Fixed = Fixed::zero();
    let mut i: usize = 0;
    while i < n
        invariant
            n == x@.len(),
            n == w@.len(),
            i <= n,
            acc@ == dot_upto(x.deep_view(), w.deep_view(), i as int),
        decreases n - i,
    {
        acc = acc.plus(x[i].times(w[i]));
        i = i + 1;
    }
    acc
}

pub(crate) fn zero_vector(d: usize) -> (r: Vec<Fixed>)
    ensures
        r.deep_view() == zeros(d as nat),
        r@.len() == d,
{
    let mut v: Vec<Fixed> = Vec::with_capacity(d);
    let mut i: usize = 0;
    while i < d
        invariant
            i <= d,
            v@.len() == i,
            forall|j: int| 0 <= j < i ==> (#[trigger] v@[j])@ == 0,
        decreases d - i,
    {
        v.push(Fixed::zero());
        i = i + 1;
    }
    assert(v.deep_view() =~= zeros(d as nat));
    v
}

pub(crate) fn copy_of(v: &[Fixed]) -> (r: Vec<Fixed>)
    ensures
        r@ == v@,
{
    let n: usize = v.len();
    let mut out: Vec<Fixed> = Vec::with_capacity(n);
    let mut i: usize = 0;
    while i < n
        invariant
            n == v@.len(),
            i <= n,
            out@ == v@.subrange(0, i as int),
        decreases n - i,
    {
        out.push(v[i]);
        i = i + 1;
        assert(out@ =~= v@.subrange(0, i as int));
    }
    assert(out@ =~= v@);
    out
}

pub(crate) fn scale(c: Fixed, v: &[Fixed]) -> (r: Vec<Fixed>)
    ensures
        r.deep_view() == scaled(c@, v.deep_view()),
        r@.len() == v@.len(),
{
    let n: usize = v.len();
    let mut out: Vec<Fixed> = Vec::with_capacity(n);
    let mut i: usize = 0;
    while i < n
        invariant
            n == v@.len(),
            i <= n,
            out@.len() == i,
            forall|j: int| 0 <= j < i ==> (#[trigger] out@[j])@ == fx_mul(c@, v@[j]@),
        decreases n - i,
    {
        out.push(c.times(v[i]));
        i = i + 1;
    }
    assert(out.deep_view() =~= scaled(c@, v.deep_view()));
    out
}

pub(crate) fn add_scaled(a: &[Fixed], c: Fixed, x: &[Fixed]) -> (r: Vec<Fixed>)
    requires
        a@.len() == x@.len(),
    ensures
        r.deep_view() == sum_of(a.deep_view(), scaled(c@, x.deep_view())),
        r@.len() == a@.len(),
{
    let n: usize = a.len();
    let mut out: Vec<Fixed> = Vec::with_capacity(n);
    let mut i: usize = 0;
    while i < n
        invariant
            n == a@.len(),
            n == x@.len(),
            i <= n,
            out@.len() == i,
            forall|j: int|
                0 <= j < i ==> (#[trigger] out@[j])@ == fx_add(a@[j]@, fx_mul(c@, x@[j]@)),
        decreases n - i,
    {
        out.push(a[i].plus(c.times(x[i])));
        i = i + 1;
    }
    assert(out.deep_view() =~= sum_of(a.deep_view(), scaled(c@, x.deep_view())));
    out
}

} // verus!
