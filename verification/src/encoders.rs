use vstd::prelude::*;
use crate::cards::Card;
use crate::model::ActionClass;
use crate::profile::Profile;

verus! {

/// Shape of the one-hot action-history encoding: one slot per player,
/// action class, round and betting lap.
#[derive(Clone, Debug)]
pub struct ActionsBinary {
    pub players: usize,
    pub actions: usize,
    pub rounds: usize,
    pub laps: usize,
    pub size: usize,
}

impl ActionsBinary {
    pub fn new<AC: ActionClass>(profile: &Profile, action_class: &AC) -> (r: ActionsBinary)
        requires
            profile.limit matches Some(l) && ({
                &&& profile.players * 3 <= usize::MAX
                &&& profile.players * 3 * profile.rounds@.len() <= usize::MAX
                &&& profile.players * 3 * profile.rounds@.len() * l.caps <= usize::MAX
            }),
        ensures
            profile.limit matches Some(l) && ({
                &&& r.players == profile.players
                &&& r.actions == 3
                &&& r.rounds == profile.rounds@.len()
                &&& r.laps == l.caps
                &&& r.size == profile.players * 3 * profile.rounds@.len() * l.caps
            }),
    {
        let laps = match &profile.limit {
            None => {
                // Unreachable: the precondition asks for a limit structure.
                0
            },
            Some(limit) => limit.caps,
        };

        let actions = action_class.size();
        let size = profile.players * actions * profile.rounds.len() * laps;

        ActionsBinary {
            players: profile.players,
            actions,
            rounds: profile.rounds.len(),
            laps,
            size,
        }
    }
}

/// Shape of the compact action-history encoding: per-round action
/// distributions for the own seat and the rest of the table.
#[derive(Clone, Debug)]
pub struct ActionsCompact {
    pub source: ActionsBinary,
    pub size: usize,
}

impl ActionsCompact {
    pub fn new(source: ActionsBinary) -> (r: ActionsCompact)
        requires
            2 * source.actions <= usize::MAX,
            2 * source.actions * source.rounds <= usize::MAX,
        ensures
            r.size == 2 * source.actions * source.rounds,
            r.source == source,
    {
        let size = 2 * source.actions * source.rounds;
        ActionsCompact { size, source }
    }
}

/// Shape of the one-hot card encoding: one slot per deck card and round.
#[derive(Clone, Debug)]
pub struct CardsBinary {
    pub deck: Vec<Card>,
    pub rounds: Vec<usize>,
    pub size: usize,
}

impl CardsBinary {
    pub fn new(deck: &Vec<Card>, rounds: &Vec<usize>) -> (r: CardsBinary)
        requires
            rounds@.len() * deck@.len() <= usize::MAX,
        ensures
            r.deck@ == deck@,
            r.rounds@ == rounds@,
            r.size == rounds@.len() * deck@.len(),
    {
        let size = rounds.len() * deck.len();
        CardsBinary {
            size,
            rounds: crate::math::copy_usizes(rounds),
            deck: crate::cards::copy_cards(deck),
        }
    }
}

} // verus!
