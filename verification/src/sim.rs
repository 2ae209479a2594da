use vstd::prelude::*;
use crate::cards::Card;
use crate::model::{ActionClass, SeatId};
use crate::money::{Money, spec_money_max};
use crate::profile::Profile;

verus! {

/// One recorded play: which seat acted, and the class index it chose.
#[derive(Clone, Copy, Debug)]
pub struct Act {
    pub seat_id: SeatId,
    pub action: u8,
}

/// An entry of the replay log: a play by a seat, or a community-card reveal.
#[derive(Clone, Debug)]
pub enum Event {
    Play(Act),
    Table { cards: Vec<Card> },
}

/// Per-seat standing during one hand: still playing (possibly all-in),
/// folded, or not dealt in.
#[derive(Clone, Debug, Eq, PartialEq)]
pub enum State {
    Play { cards: Vec<Card>, all_in: bool },
    Folded,
    Off,
}

/// A seat that can still act: playing and not all-in.
pub open spec fn state_active(s: State) -> bool {
    s matches State::Play { all_in: false, .. }
}

/// A seat that is still in the hand, all-in or not.
pub open spec fn state_in_hand(s: State) -> bool {
    s matches State::Play { .. }
}

/// How many seats can still act.
pub open spec fn spec_active_count(states: Seq<State>) -> int
    decreases states.len(),
{
    if states.len() == 0 {
        0
    } else {
        spec_active_count(states.drop_last()) + if state_active(states.last()) {
            1int
        } else {
            0int
        }
    }
}

/// Simulation context: the action classifier, the biggest blind, the game
/// profile, and whether betting legality is enforced strictly.
///
/// With `strict` disabled the engine tolerates a fold by a seat that already
/// meets the target, to accommodate approximate or human-driven play.
#[derive(Clone)]
pub struct Sim<AC: ActionClass> {
    pub action_class: AC,
    pub blind_biggest: Money,
    pub profile: Profile,
    pub strict: bool,
}

impl<AC: ActionClass> Sim<AC> {
    /// The context is consistent: the classifier is well formed and the
    /// cached biggest blind is the maximum of the profile's blinds.
    pub open spec fn wf(&self) -> bool {
        &&& self.action_class.wf()
        &&& self.profile.blinds@.len() >= 1
        &&& self.blind_biggest@ == spec_money_max(self.profile.blinds@)
    }

    /// Install a new blind structure and refresh the cached biggest blind.
    pub fn set_blinds(&mut self, blinds: &Vec<Money>)
        requires
            blinds@.len() > 0,
        ensures
            final(self).profile.blinds@ == blinds@,
            final(self).blind_biggest@ == spec_money_max(blinds@),
            final(self).action_class == old(self).action_class,
            final(self).strict == old(self).strict,
            final(self).profile.id == old(self).profile.id,
            final(self).profile.players == old(self).profile.players,
            final(self).profile.rounds@ == old(self).profile.rounds@,
            final(self).profile.deck@ == old(self).profile.deck@,
            final(self).profile.limit == old(self).profile.limit,
    {
        self.blind_biggest = Money::max_of(blinds);
        let mut copy: Vec<Money> = Vec::new();
        let mut i: usize = 0;
        while i < blinds.len()
            invariant
                i <= blinds@.len(),
                copy@ =~= blinds@.take(i as int),
            decreases blinds@.len() - i,
        {
            copy.push(blinds[i]);
            i += 1;
        }
        assert(copy@ =~= blinds@);
        self.profile.blinds = copy;
    }
}

} // verus!
