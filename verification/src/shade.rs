//! The rule that turns an escape count into a shade.
//!
//! A point that did not diverge within the budget gets the one in-set shade.
//! A point that diverged gets a hue, the fraction `count / budget` of the
//! colour wheel, meant to be shown at full saturation and mid lightness.

use vstd::prelude::*;

verus! {

/// What a pixel is painted with.
#[derive(Clone, Copy, Debug, PartialEq, Eq, Structural)]
pub enum Shade {
    /// The fixed colour of the points that stayed bounded.
    InSet,
    /// The hue `count / budget` of a point that diverged after `count`
    /// applications out of `budget`.
    Band { count: u32, budget: u32 },
}

impl Shade {
    /// The hue of a band is a proper fraction, at least zero and below one.
    pub open spec fn wf(self) -> bool {
        match self {
            Shade::InSet => true,
            Shade::Band { count, budget } => count < budget,
        }
    }

    /// Both shades are bands and the hue of `self` is the smaller fraction.
    pub open spec fn hue_below(self, other: Shade) -> bool {
        match (self, other) {
            (Shade::Band { count: a, budget: m }, Shade::Band { count: b, budget: n }) => a * n
                < b * m,
            _ => false,
        }
    }
}

/// The shade of an escape count under a budget.
pub open spec fn shade_of(count: u32, budget: u32) -> Shade {
    if count == budget {
        Shade::InSet
    } else {
        Shade::Band { count, budget }
    }
}

/// The shade of a pixel whose point has the escape count `count` under the
/// budget `budget`: the in-set shade if the whole budget was used, else the
/// hue `count / budget`. An escape count never exceeds its budget, so the hue
/// is a proper fraction.
pub fn shade(count: u32, budget: u32) -> (s: Shade)
    ensures
        s == shade_of(count, budget),
        s is InSet <==> count == budget,
        count <= budget ==> s.wf(),
{
    if count == budget {
        Shade::InSet
    } else {
        Shade::Band { count, budget }
    }
}

/// The hue grows with the escape count: of two points that diverged under the
/// same budget, the one that lasted longer has the larger hue.
pub proof fn lemma_hue_is_monotonic(earlier: u32, later: u32, budget: u32)
    requires
        earlier < later < budget,
    ensures
        shade_of(earlier, budget).hue_below(shade_of(later, budget)),
{
    assert(earlier * budget < later * budget) by (nonlinear_arith)
        requires
            earlier < later,
            0 < budget,
    ;
}

/// The hue is linear in the escape count: a point that diverged after `count`
/// applications out of `budget` has the hue `count / budget`, so that one
/// more application moves the hue by one part in `budget`.
pub proof fn lemma_hue_is_count_over_budget(count: u32, budget: u32)
    requires
        count < budget,
    ensures
        shade_of(count, budget) == (Shade::Band { count, budget }),
{
}

} // verus!
