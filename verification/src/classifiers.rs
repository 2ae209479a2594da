use vstd::prelude::*;
use std::collections::HashSet;
use crate::money::Money;
use crate::model::{
    Action, ActionClass, action_of_class, class_of_action, pledge_view, spec_decoded_pledge,
    spec_mask_contains,
};

verus! {

broadcast use vstd::std_specs::hash::group_hash_axioms, crate::money::lemma_money_nonneg,
    crate::money::lemma_money_bounded;

/// The Kuhn variant: a single blind-sized raise, a blind-sized call.
#[derive(Clone)]
pub struct ActionKuhn {}

impl ActionClass for ActionKuhn {
    open spec fn wf(&self) -> bool {
        true
    }

    open spec fn round_ok(&self, round_id: int) -> bool {
        true
    }

    open spec fn raise_size(&self, blind_biggest: int, round_id: int) -> int {
        blind_biggest
    }

    open spec fn call_allowed(&self, blind_biggest: int, target: int, fund: int, pot: int) -> bool {
        fund >= blind_biggest
    }

    open spec fn call_pledge(&self, blind_biggest: int, target: int, pot: int) -> int {
        blind_biggest
    }

    proof fn lemma_pledges_bounded(
        &self,
        blind_biggest: int,
        round_id: int,
        target: int,
        pot: int,
    ) {
    }

    fn apply(&self, blind_biggest: Money, player_fund: Money, action: Action, pledge: Money) -> (c:
        u8) {
        match action {
            Action::Fold => 0,
            Action::Call => 1,
            Action::Raise => 2,
        }
    }

    fn unapply(
        &self,
        blind_biggest: Money,
        round_id: usize,
        player_fund: Money,
        table_target: Money,
        table_target_raise: Money,
        player_pot: Money,
        action_class: u8,
    ) -> (r: Result<(Action, Option<Money>), String>) {
        match action_class {
            0 => Ok((Action::Fold, None)),
            1 => Ok(
                (
                    Action::Call,
                    if player_pot.unpack() == table_target.unpack() {
                        None
                    } else {
                        Some(blind_biggest)
                    },
                ),
            ),
            _ => {
                let pledge = Money::from_u32(
                    table_target.unpack() + blind_biggest.unpack() - player_pot.unpack(),
                );
                Ok((Action::Raise, Some(pledge)))
            },
        }
    }

    fn is_fold(&self, class: u8) -> (b: bool) {
        class == 0
    }

    fn is_raise(&self, class: u8) -> (b: bool) {
        class == 2
    }

    fn normalize(
        &self,
        blind_biggest: Money,
        round_id: usize,
        table_target: Money,
        table_target_raise: Option<Money>,
        player_fund: Money,
        player_pot: Money,
    ) -> (mask: HashSet<usize>) {
        let raisable = table_target_raise.is_some() && player_fund.unpack()
            >= blind_biggest.unpack();
        let callable = if player_pot.unpack() >= table_target.unpack() {
            true
        } else {
            player_fund.unpack() >= blind_biggest.unpack()
        };

        let mut xs: HashSet<usize> = HashSet::new();
        if player_pot.unpack() < table_target.unpack() {
            xs.insert(0);
        }
        if callable {
            xs.insert(1);
        }
        if raisable {
            xs.insert(2);
        }
        xs
    }

    fn size(&self) -> (n: usize) {
        3
    }
}

/// The fixed-limit variant: the raise size of a round is the big blind
/// scaled by that round's entry of `raises`.
#[derive(Clone)]
pub struct ActionLimit {
    /// Raise size per round, as a ratio of the big blind.
    pub raises: Vec<usize>,
}

impl ActionClass for ActionLimit {
    open spec fn wf(&self) -> bool {
        true
    }

    open spec fn round_ok(&self, round_id: int) -> bool {
        0 <= round_id < self.raises@.len()
    }

    open spec fn raise_size(&self, blind_biggest: int, round_id: int) -> int {
        blind_biggest * self.raises@[round_id]
    }

    open spec fn call_allowed(&self, blind_biggest: int, target: int, fund: int, pot: int) -> bool {
        fund + pot > target
    }

    open spec fn call_pledge(&self, blind_biggest: int, target: int, pot: int) -> int {
        target - pot
    }

    proof fn lemma_pledges_bounded(
        &self,
        blind_biggest: int,
        round_id: int,
        target: int,
        pot: int,
    ) {
        assert(blind_biggest * self.raises@[round_id] >= 0) by (nonlinear_arith)
            requires
                blind_biggest >= 0 && self.raises@[round_id] >= 0,
        ;
    }

    fn apply(&self, blind_biggest: Money, player_fund: Money, action: Action, pledge: Money) -> (c:
        u8) {
        match action {
            Action::Fold => 0,
            Action::Call => 1,
            Action::Raise => 2,
        }
    }

    fn unapply(
        &self,
        blind_biggest: Money,
        round_id: usize,
        player_fund: Money,
        table_target: Money,
        table_target_raise: Money,
        player_pot: Money,
        action_class: u8,
    ) -> (r: Result<(Action, Option<Money>), String>) {
        match action_class {
            0 => Ok((Action::Fold, None)),
            1 => {
                let money = if player_pot.unpack() == table_target.unpack() {
                    None
                } else {
                    Some(Money::from_u32(table_target.unpack() - player_pot.unpack()))
                };
                Ok((Action::Call, money))
            },
            _ => {
                let raise64: u64 = (blind_biggest.unpack() as u64) * (self.raises[round_id]
                    as u64);
                let raise: u32 = raise64 as u32;
                let pledge = Money::from_u32(table_target.unpack() + raise - player_pot.unpack());
                Ok((Action::Raise, Some(pledge)))
            },
        }
    }

    fn is_fold(&self, class: u8) -> (b: bool) {
        class == 0
    }

    fn is_raise(&self, class: u8) -> (b: bool) {
        class == 2
    }

    fn normalize(
        &self,
        blind_biggest: Money,
        round_id: usize,
        table_target: Money,
        table_target_raise: Option<Money>,
        player_fund: Money,
        player_pot: Money,
    ) -> (mask: HashSet<usize>) {
        if round_id >= self.raises.len() {
            // No raise table entry for this round: an empty mask.
            let empty: HashSet<usize> = HashSet::new();
            return empty;
        }
        proof {
            assert((blind_biggest@ as u128) * (self.raises@[round_id as int] as u128)
                <= u128::MAX) by (nonlinear_arith)
                requires
                    0 <= blind_biggest@ <= u32::MAX && 0 <= self.raises@[round_id as int]
                        <= u64::MAX,
            ;
        }
        let raise128: u128 = (blind_biggest.unpack() as u128) * (self.raises[round_id] as u128);
        let raisable = table_target_raise.is_some() && (player_fund.unpack() as u128) >= raise128;
        let callable = if player_pot.unpack() >= table_target.unpack() {
            true
        } else {
            (player_fund.unpack() as u64) + (player_pot.unpack() as u64) > (table_target.unpack()
                as u64)
        };

        let mut xs: HashSet<usize> = HashSet::new();
        if player_pot.unpack() < table_target.unpack() {
            xs.insert(0);
        }
        if callable {
            xs.insert(1);
        }
        if raisable {
            xs.insert(2);
        }
        xs
    }

    fn size(&self) -> (n: usize) {
        3
    }
}

/// Legal-mask soundness for the Kuhn variant: every class the mask admits
/// decodes to an action whose pledge the seat can afford, and a call decodes
/// to no pledge exactly when the seat already meets the target. A masked
/// raise whose full pledge exceeds the seat's fund is left out by the last
/// premise: the mask only checks the fund against the raise size itself.
pub proof fn lemma_mask_soundness_kuhn(
    ac: ActionKuhn,
    blind: int,
    round_id: int,
    target: int,
    target_raise: Option<int>,
    fund: int,
    pot: int,
    class: int,
)
    requires
        0 <= blind,
        0 <= fund,
        0 <= pot <= target,
        spec_mask_contains(ac, blind, round_id, target, target_raise, fund, pot, class),
        class == 2 ==> fund + pot >= target + blind,
    ensures
        0 <= class <= 2,
        (spec_decoded_pledge(ac, blind, round_id, target, pot, class) matches Some(p) ==> p
            <= fund),
        class == 1 ==> (spec_decoded_pledge(ac, blind, round_id, target, pot, class) is None <==>
        pot == target),
{
}

/// Legal-mask soundness for the fixed-limit variant, stated as for Kuhn.
/// A masked call below the target is affordable because the mask demands
/// that the seat's fund strictly exceed the gap; a masked raise whose full
/// pledge exceeds the seat's fund is left out by the last premise.
pub proof fn lemma_mask_soundness_limit(
    ac: ActionLimit,
    blind: int,
    round_id: int,
    target: int,
    target_raise: Option<int>,
    fund: int,
    pot: int,
    class: int,
)
    requires
        0 <= blind,
        0 <= fund,
        0 <= pot <= target,
        spec_mask_contains(ac, blind, round_id, target, target_raise, fund, pot, class),
        class == 2 ==> fund + pot >= target + ac.raise_size(blind, round_id),
    ensures
        0 <= class <= 2,
        (spec_decoded_pledge(ac, blind, round_id, target, pot, class) matches Some(p) ==> p
            <= fund),
        class == 1 ==> (spec_decoded_pledge(ac, blind, round_id, target, pot, class) is None <==>
        pot == target),
{
}

} // verus!
