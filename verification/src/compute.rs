//! Pure compute functions for computed items.

use vstd::prelude::*;

verus! {

/// A pure function from an ordered sequence of dependency values to a value.
///
/// An implementor states the function's mathematical meaning as a spec
/// function and proves that the executable evaluation matches it exactly, so
/// the store's contracts can speak of the value a computed item must hold.
pub trait ComputeFn: Sized {
    /// The type of the values the function consumes and produces.
    type Value: Copy;

    /// The mathematical meaning of the function.
    spec fn spec_compute(&self, vals: Seq<Self::Value>) -> Self::Value;

    /// Evaluates the function on the dependency values, in dependency order.
    fn compute(&self, vals: &[Self::Value]) -> (r: Self::Value)
        ensures
            r == self.spec_compute(vals@),
    ;
}

/// The wrapping sum of a sequence of values: additions are taken modulo 2^64.
pub open spec fn wrapping_sum(vals: Seq<u64>) -> u64
    decreases vals.len(),
{
    if vals.len() == 0 {
        0u64
    } else {
        vstd::wrapping::u64_specs::wrapping_add(wrapping_sum(vals.drop_last()), vals.last())
    }
}

/// Wrapping sum of a slice, matching [`wrapping_sum`] on its view.
fn sum_all(vals: &[u64]) -> (r: u64)
    ensures
        r == wrapping_sum(vals@),
{
    let mut acc: u64 = 0;
    let mut k: usize = 0;
    while k < vals.len()
        invariant
            k <= vals@.len(),
            acc == wrapping_sum(vals@.take(k as int)),
        decreases vals@.len() - k,
    {
        acc = acc.wrapping_add(vals[k]);
        k = k + 1;
        proof {
            assert(vals@.take(k as int).drop_last() =~= vals@.take(k as int - 1));
        }
    }
    proof {
        assert(vals@.take(vals@.len() as int) =~= vals@);
    }
    acc
}

/// Arithmetic compute functions over `u64` values.
///
/// All arithmetic wraps modulo 2^64, so every variant is total: the store may
/// re-evaluate a computed item on any current dependency values.
#[derive(Clone, Copy, Debug)]
pub enum ArithFn {
    /// The wrapping sum of all dependency values.
    Sum,
    /// `offset + scale * sum` where `sum` is the wrapping sum of all
    /// dependency values; the products and sums wrap.
    Affine { scale: u64, offset: u64 },
}

impl ComputeFn for ArithFn {
    type Value = u64;

    open spec fn spec_compute(&self, vals: Seq<u64>) -> u64 {
        match *self {
            ArithFn::Sum => wrapping_sum(vals),
            ArithFn::Affine { scale, offset } => vstd::wrapping::u64_specs::wrapping_add(
                offset,
                vstd::wrapping::u64_specs::wrapping_mul(scale, wrapping_sum(vals)),
            ),
        }
    }

    fn compute(&self, vals: &[u64]) -> (r: u64) {
        let s: u64 = sum_all(vals);
        match *self {
            ArithFn::Sum => s,
            ArithFn::Affine { scale, offset } => offset.wrapping_add(scale.wrapping_mul(s)),
        }
    }
}

} // verus!
