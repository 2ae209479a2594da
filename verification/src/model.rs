use vstd::prelude::*;
use std::collections::HashSet;
use crate::money::Money;

verus! {

/// A seat index at the table, dense in `[0, players)`.
pub type SeatId = usize;

#[derive(Clone, Copy, Debug, Eq, Hash, PartialEq, Structural)]
pub enum Action {
    Fold,
    Call,
    Raise,
}

/// The compact class index of an action: fold 0, call 1, raise 2.
pub open spec fn class_of_action(a: Action) -> int {
    match a {
        Action::Fold => 0,
        Action::Call => 1,
        Action::Raise => 2,
    }
}

/// The action a class index stands for.
pub open spec fn action_of_class(c: int) -> Action {
    if c == 0 {
        Action::Fold
    } else if c == 2 {
        Action::Raise
    } else {
        Action::Call
    }
}

/// The view of an optional pledge, as optional cents.
pub open spec fn pledge_view(p: Option<Money>) -> Option<int> {
    match p {
        Some(m) => Some(m@),
        None => None,
    }
}

/// Whether `class` belongs to the legal-action mask of the given betting
/// state: fold is legal below the target, a call when the target is met or
/// the variant's call condition holds, a raise when the raise option is open
/// and the seat's fund covers the round's raise size.
pub open spec fn spec_mask_contains<AC: ActionClass>(
    ac: AC,
    blind: int,
    round_id: int,
    target: int,
    target_raise: Option<int>,
    fund: int,
    pot: int,
    class: int,
) -> bool {
    if class == 0 {
        pot < target
    } else if class == 1 {
        pot >= target || ac.call_allowed(blind, target, fund, pot)
    } else if class == 2 {
        target_raise is Some && fund >= ac.raise_size(blind, round_id)
    } else {
        false
    }
}

/// The pledge `unapply` computes for a class: none for a fold or a check,
/// the variant's call pledge below the target, and the amount that lifts the
/// seat's pot one raise size above the target for a raise.
pub open spec fn spec_decoded_pledge<AC: ActionClass>(
    ac: AC,
    blind: int,
    round_id: int,
    target: int,
    pot: int,
    class: int,
) -> Option<int> {
    if class == 0 {
        None
    } else if class == 1 {
        if pot == target {
            None
        } else {
            Some(ac.call_pledge(blind, target, pot))
        }
    } else {
        Some(target + ac.raise_size(blind, round_id) - pot)
    }
}

/// Strategy mapping between the semantic `Action` vocabulary and the bounded
/// integer class indices a learning component consumes, together with the
/// legal-action mask for a betting state.
///
/// Each implementation fixes, through the spec members, which rounds it is
/// defined for, the structural raise size of a round, and what a call asks
/// of a seat that is below the table target.
pub trait ActionClass: Sized {
    spec fn wf(&self) -> bool;

    /// The rounds this classifier can decode actions for.
    spec fn round_ok(&self, round_id: int) -> bool;

    /// The structural raise size for a round, in cents.
    spec fn raise_size(&self, blind_biggest: int, round_id: int) -> int;

    /// Whether a call is inside the mask for a seat strictly below the target.
    spec fn call_allowed(&self, blind_biggest: int, target: int, fund: int, pot: int) -> bool;

    /// The pledge a call asks of a seat strictly below the target.
    spec fn call_pledge(&self, blind_biggest: int, target: int, pot: int) -> int;

    /// The pledges a variant can ask for are bounded: the raise size is
    /// never negative, and a call asks at most what a raise would.
    proof fn lemma_pledges_bounded(&self, blind_biggest: int, round_id: int, target: int, pot: int)
        requires
            self.wf(),
            self.round_ok(round_id),
            0 <= blind_biggest,
            0 <= pot <= target,
        ensures
            self.raise_size(blind_biggest, round_id) >= 0,
            0 <= self.call_pledge(blind_biggest, target, pot) <= target + self.raise_size(
                blind_biggest,
                round_id,
            ) - pot,
    ;

    /// Compact-encode an action; the class depends on the action alone.
    fn apply(&self, blind_biggest: Money, player_fund: Money, action: Action, pledge: Money) -> (c:
        u8)
        ensures
            c == class_of_action(action),
    ;

    /// Decode a class index into an action and the concrete pledge it asks.
    fn unapply(
        &self,
        blind_biggest: Money,
        round_id: usize,
        player_fund: Money,
        table_target: Money,
        table_target_raise: Money,
        player_pot: Money,
        action_class: u8,
    ) -> (r: Result<(Action, Option<Money>), String>)
        requires
            self.wf(),
            self.round_ok(round_id as int),
            action_class < 3,
            player_pot@ <= table_target@,
            table_target@ + self.raise_size(blind_biggest@, round_id as int) <= u32::MAX,
        ensures
            (r matches Ok((a, p)) && a == action_of_class(action_class as int) && pledge_view(p)
                == (if action_class == 0 {
                None::<int>
            } else if action_class == 1 {
                if player_pot@ == table_target@ {
                    None::<int>
                } else {
                    Some(self.call_pledge(blind_biggest@, table_target@, player_pot@))
                }
            } else {
                Some(
                    table_target@ + self.raise_size(blind_biggest@, round_id as int) - player_pot@,
                )
            })),
    ;

    fn is_fold(&self, class: u8) -> (b: bool)
        ensures
            b == (class == 0),
    ;

    fn is_raise(&self, class: u8) -> (b: bool)
        ensures
            b == (class == 2),
    ;

    /// The legal-action mask for the given betting state. The mask is exact
    /// whenever the classifier is well formed and knows the round; it never
    /// holds a class index above two.
    fn normalize(
        &self,
        blind_biggest: Money,
        round_id: usize,
        table_target: Money,
        table_target_raise: Option<Money>,
        player_fund: Money,
        player_pot: Money,
    ) -> (mask: HashSet<usize>)
        ensures
            self.wf() && self.round_ok(round_id as int) ==> {
                &&& (mask@.contains(0usize) <==> player_pot@ < table_target@)
                &&& (mask@.contains(1usize) <==> (player_pot@ >= table_target@
                    || self.call_allowed(
                    blind_biggest@,
                    table_target@,
                    player_fund@,
                    player_pot@,
                )))
                &&& (mask@.contains(2usize) <==> (table_target_raise is Some && player_fund@
                    >= self.raise_size(blind_biggest@, round_id as int)))
            },
            forall|c: usize| c > 2 ==> !(#[trigger] mask@.contains(c)),
    ;

    /// The number of class indices, three for every shipped variant.
    fn size(&self) -> (n: usize)
        ensures
            n == 3,
    ;

    /// The action a class index stands for, derived from `is_fold`/`is_raise`.
    fn to_action(&self, class: u8) -> (a: Action)
        ensures
            a == action_of_class(class as int),
    {
        if self.is_fold(class) {
            Action::Fold
        } else if self.is_raise(class) {
            Action::Raise
        } else {
            Action::Call
        }
    }
}

/// Encoding an action and mapping the class back returns the action:
/// `to_action` inverts `apply` for fold, call and raise, in every variant
/// and every betting context, since `apply` yields `class_of_action` and
/// `to_action` yields `action_of_class`.
pub proof fn lemma_apply_to_action_inverse(a: Action)
    ensures
        action_of_class(class_of_action(a)) == a,
{
}

} // verus!
