//! The four statistics and the lengths for which each is defined.
//!
//! The arithmetic mean and the Euclidean norm are zero on the empty sequence.
//! The population variance needs two elements and the median one; below that
//! they have no value, which is not the same as a value of zero.

use crate::binary64::Binary64;
use crate::median::median_of;
use vstd::prelude::*;

verus! {

/// A statistic over a finite sequence of doubles.
#[derive(Clone, Copy, Debug, PartialEq, Eq, Structural)]
pub enum Statistic {
    /// The arithmetic mean.
    Mean,
    /// The population variance: the mean of the squared deviations from the
    /// mean, with no square root taken.
    Stddev,
    /// The middle element of the ascending order, the lower of the two
    /// central elements where the length is even.
    Median,
    /// The Euclidean norm.
    L2,
}

/// How a statistic comes by its result on a sequence of a given length.
#[derive(Clone, Copy, Debug, PartialEq, Eq, Structural)]
pub enum Plan {
    /// The statistic has no value on a sequence this short.
    Undefined,
    /// The sequence is empty and the value is zero.
    Zero,
    /// The value is computed from the elements.
    Computed,
}

impl Statistic {
    /// The least length on which the statistic has a value.
    pub open spec fn spec_min_len(self) -> nat {
        match self {
            Statistic::Mean => 0,
            Statistic::Stddev => 2,
            Statistic::Median => 1,
            Statistic::L2 => 0,
        }
    }

    /// The plan for a sequence of length `len`.
    pub open spec fn spec_plan(self, len: nat) -> Plan {
        if len < self.spec_min_len() {
            Plan::Undefined
        } else if len == 0 {
            Plan::Zero
        } else {
            Plan::Computed
        }
    }

    /// The least length on which the statistic has a value.
    pub fn min_len(self) -> (n: usize)
        ensures
            n == self.spec_min_len(),
    {
        match self {
            Statistic::Mean => 0,
            Statistic::Stddev => 2,
            Statistic::Median => 1,
            Statistic::L2 => 0,
        }
    }

    /// The plan for a sequence of length `len`.
    pub fn plan(self, len: usize) -> (plan: Plan)
        ensures
            plan == self.spec_plan(len as nat),
            plan == Plan::Undefined <==> len < self.spec_min_len(),
            plan == Plan::Zero <==> len == 0 && (self == Statistic::Mean || self == Statistic::L2),
    {
        if len < self.min_len() {
            Plan::Undefined
        } else if len == 0 {
            Plan::Zero
        } else {
            Plan::Computed
        }
    }
}

/// The mean and the Euclidean norm have a value on every sequence.
pub proof fn lemma_mean_and_norm_always_defined(len: nat)
    ensures
        Statistic::Mean.spec_plan(len) != Plan::Undefined,
        Statistic::L2.spec_plan(len) != Plan::Undefined,
{
}

/// A statistic that has a value on some length has one on every greater
/// length.
pub proof fn lemma_defined_on_longer(statistic: Statistic, len: nat, longer: nat)
    requires
        len <= longer,
        statistic.spec_plan(len) != Plan::Undefined,
    ensures
        statistic.spec_plan(longer) != Plan::Undefined,
{
}

/// The median has a value exactly where its plan says so.
pub proof fn lemma_median_follows_plan(s: Seq<Binary64>)
    ensures
        median_of(s) is None <==> Statistic::Median.spec_plan(s.len()) == Plan::Undefined,
        Statistic::Median.spec_plan(s.len()) != Plan::Zero,
{
}

} // verus!
