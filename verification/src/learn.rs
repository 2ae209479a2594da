use vstd::prelude::*;
use crate::money::Money;

verus! {

/// Which action-history encoding a training plan feeds its network.
#[derive(Clone, Debug, Eq, PartialEq, Structural)]
pub enum ActionsEncoding {
    Binary,
    Compact,
}

/// Which card encoding a training plan feeds its network; the
/// strength-sampling variant carries its sampling accuracy.
#[derive(Clone, Debug)]
pub enum CardsEncoding {
    Binary,
    StrengthMC(usize),
    StrengthNNet,
}

/// Scales per-hand fund deltas into bounded rewards, relative to the
/// worst-case delta of one hand.
#[derive(Clone, Debug)]
pub struct RewardF {
    pub delta_biggest: Money,
}

impl RewardF {
    pub fn new(delta_biggest: Money) -> (r: RewardF)
        ensures
            r.delta_biggest == delta_biggest,
    {
        RewardF { delta_biggest }
    }
}

} // verus!
