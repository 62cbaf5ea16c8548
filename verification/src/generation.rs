//! Generations: the count that each inserted row draws from, so that what is generated
//! for one row differs from what is generated for any other.

use crate::order::Duplicate;
use vstd::prelude::*;

verus! {

/// A generation: a count without a limit, by its limbs from the lowest up.
#[derive(Debug, PartialEq, Eq)]
pub enum Generation {
    Zero,
    Limb(u64, Box<Generation>),
}

/// How many values a limb has.
pub open spec fn limb_size() -> nat {
    0x1_0000_0000_0000_0000nat
}

/// The count a generation stands for.
pub open spec fn count_of(g: Generation) -> nat
    decreases g,
{
    match g {
        Generation::Zero => 0,
        Generation::Limb(low, rest) => low as nat + limb_size() * count_of(*rest),
    }
}

impl View for Generation {
    type V = nat;

    open spec fn view(&self) -> nat {
        count_of(*self)
    }
}

impl Generation {
    /// The generation after this one.
    pub fn next(self) -> (r: Generation)
        ensures
            r@ == self@ + 1,
        decreases self,
    {
        match self {
            Generation::Zero => {
                let r = Generation::Limb(1, Box::new(Generation::Zero));
                proof {
                    assert(count_of(Generation::Zero) == 0);
                }
                r
            },
            Generation::Limb(low, rest) => if low < u64::MAX {
                Generation::Limb(low + 1, rest)
            } else {
                let above = (*rest).next();
                Generation::Limb(0, Box::new(above))
            },
        }
    }
}

impl Duplicate for Generation {
    fn duplicate(&self) -> (r: Self)
        decreases self,
    {
        match self {
            Generation::Zero => Generation::Zero,
            Generation::Limb(low, rest) => Generation::Limb(*low, Box::new(rest.duplicate())),
        }
    }
}

} // verus!
