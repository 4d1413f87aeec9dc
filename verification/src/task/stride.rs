//! Stride values, ordered on the circle of machine words.

use core::cmp::Ordering;
use vstd::prelude::*;
use vstd::std_specs::cmp::PartialEqSpecImpl;
use vstd::std_specs::cmp::PartialOrdSpec;
use vstd::std_specs::cmp::PartialOrdSpecImpl;
use vstd::std_specs::convert::FromSpecImpl;

verus! {

/// The stride that a task of weight one advances by when it is selected.
pub const BIG_STRIDE: usize = usize::MAX;

/// The accumulated stride of a task. It wraps around on overflow, so two
/// strides are compared by their distance on the circle, not as numbers.
#[derive(Debug)]
pub struct Stride(pub usize);

/// How far `b` lies ahead of `a` when walking the circle of machine words
/// upwards from `a`.
pub open spec fn wrap_distance(a: usize, b: usize) -> int {
    if b >= a {
        b - a
    } else {
        b - a + usize::MAX + 1
    }
}

/// `a` comes before `b`: `b` lies ahead of `a` by at most half of
/// `BIG_STRIDE`. Of two strides that lie exactly opposite each other the
/// numerically larger one comes first.
pub open spec fn stride_precedes(a: usize, b: usize) -> bool {
    a != b && (wrap_distance(a, b) <= BIG_STRIDE / 2 || (a > b && wrap_distance(b, a)
        > BIG_STRIDE / 2))
}

/// The order of two strides.
pub open spec fn stride_order(a: usize, b: usize) -> Ordering {
    if a == b {
        Ordering::Equal
    } else if stride_precedes(a, b) {
        Ordering::Less
    } else {
        Ordering::Greater
    }
}

/// The stride reached from `a` after advancing by `pass`, wrapping around.
pub open spec fn stride_after(a: usize, pass: usize) -> usize {
    if a + pass <= usize::MAX {
        (a + pass) as usize
    } else {
        (a + pass - usize::MAX - 1) as usize
    }
}

impl PartialEq for Stride {
    /// Two stride values are never reported equal by `==`: tasks with the
    /// same stride stay distinct entries of a ready queue.
    fn eq(&self, _other: &Self) -> (r: bool) {
        false
    }
}

impl PartialEqSpecImpl for Stride {
    open spec fn obeys_eq_spec() -> bool {
        true
    }

    open spec fn eq_spec(&self, _other: &Self) -> bool {
        false
    }
}

impl PartialOrd for Stride {
    fn partial_cmp(&self, other: &Self) -> (r: Option<Ordering>) {
        if self.0 == other.0 {
            Some(Ordering::Equal)
        } else if self.0 > other.0 {
            if self.0 - other.0 <= BIG_STRIDE / 2 {
                Some(Ordering::Greater)
            } else {
                Some(Ordering::Less)
            }
        } else if other.0 - self.0 <= BIG_STRIDE / 2 {
            Some(Ordering::Less)
        } else {
            Some(Ordering::Greater)
        }
    }
}

impl PartialOrdSpecImpl for Stride {
    open spec fn obeys_partial_cmp_spec() -> bool {
        true
    }

    open spec fn partial_cmp_spec(&self, other: &Self) -> Option<Ordering> {
        Some(stride_order(self.0, other.0))
    }
}

impl From<usize> for Stride {
    fn from(other: usize) -> (r: Self) {
        Stride(other)
    }
}

impl FromSpecImpl<usize> for Stride {
    open spec fn obeys_from_spec() -> bool {
        true
    }

    open spec fn from_spec(other: usize) -> Self {
        Stride(other)
    }
}

impl Stride {
    /// Advances the stride by `other`, wrapping around the machine word.
    pub fn add(&mut self, other: usize)
        ensures
            final(self).0 == stride_after(old(self).0, other),
    {
        self.0 = self.0.wrapping_add(other);
    }

    /// Whether this stride comes before `other` on the circle.
    pub fn precedes(&self, other: &Stride) -> (r: bool)
        ensures
            r == stride_precedes(self.0, other.0),
    {
        match self.partial_cmp(other) {
            Some(Ordering::Less) => true,
            _ => false,
        }
    }
}

/// The order of strides is total and antisymmetric: any two strides are
/// ordered, they are equal exactly when they are the same number, and one
/// comes before the other exactly when the other comes after it.
pub proof fn lemma_stride_order_total_antisymmetric(a: usize, b: usize)
    ensures
        PartialOrdSpec::partial_cmp_spec(&Stride(a), &Stride(b)) == Some(stride_order(a, b)),
        stride_order(a, b) == Ordering::Equal <==> a == b,
        stride_order(a, b) == Ordering::Less <==> stride_order(b, a) == Ordering::Greater,
        stride_order(a, b) == Ordering::Greater <==> stride_order(b, a) == Ordering::Less,
{
}

/// Among strides that lie within half of `BIG_STRIDE` of each other the
/// order is the order of the numbers.
pub proof fn lemma_stride_order_of_live_pair(a: usize, b: usize)
    requires
        a - b <= BIG_STRIDE / 2,
        b - a <= BIG_STRIDE / 2,
    ensures
        stride_order(a, b) == Ordering::Less <==> a < b,
        stride_order(a, b) == Ordering::Greater <==> a > b,
{
}

/// A stride that advances by a pass of at most half of `BIG_STRIDE` comes
/// after the stride it started from, at exactly that distance.
pub proof fn lemma_advanced_stride_comes_after(a: usize, pass: usize)
    requires
        0 < pass <= BIG_STRIDE / 2,
    ensures
        wrap_distance(a, stride_after(a, pass)) == pass,
        stride_order(a, stride_after(a, pass)) == Ordering::Less,
{
}

/// On an arc of the circle no longer than half of `BIG_STRIDE` the order is
/// transitive: with `a`, `b` and `c` all within that distance ahead of
/// `base`, `a` before `b` and `b` before `c` give `a` before `c`.
pub proof fn lemma_stride_order_transitive(base: usize, a: usize, b: usize, c: usize)
    requires
        wrap_distance(base, a) <= BIG_STRIDE / 2,
        wrap_distance(base, b) <= BIG_STRIDE / 2,
        wrap_distance(base, c) <= BIG_STRIDE / 2,
        stride_order(a, b) == Ordering::Less,
        stride_order(b, c) == Ordering::Less,
    ensures
        stride_order(a, c) == Ordering::Less,
        stride_order(a, b) == Ordering::Less <==> wrap_distance(base, a) < wrap_distance(base, b),
{
}

} // verus!
