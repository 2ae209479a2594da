use vstd::prelude::*;
use crate::cards::Card;
use crate::model::{ActionClass, SeatId};
use crate::money::Money;
use crate::sim::Event;

verus! {

/// Decision collaborator: the engine calls `init` once per hand and `play`
/// once per action required from the active seat, handing it the events
/// since that seat's previous turn. Implemented by scripted bots, learning
/// agents, or a human-driven front end.
pub trait Players<E> {
    fn init(
        &mut self,
        blinds: &Vec<Money>,
        player_first: SeatId,
        player_funds: &Vec<Money>,
        playing_hands: &Vec<(usize, Vec<Card>)>,
    );

    fn play(
        &mut self,
        round_id: usize,
        table_target: Money,
        table_target_raise: Option<Money>,
        player_pots: &Vec<Money>,
        seat_id: usize,
        player_fund: Money,
        events: &Vec<Event>,
    ) -> Result<u8, E>;
}

/// Card collaborator: acknowledges the start of a hand and supplies each
/// street's community cards, possibly none.
pub trait Table<E> {
    fn game_start(&mut self, blinds: Vec<(usize, Money)>) -> Result<(), E>;

    fn round_start(&mut self, round_id: usize, table_target: Money) -> Result<Vec<Card>, E>;
}

/// A scripted card source: the community cards of each street are fixed up
/// front, and dealt out round by round.
pub struct TableStatic {
    /// Cards dealt per round; the first entry counts private hole cards.
    pub rounds: Vec<usize>,
    pub table_cards: Vec<Card>,
}

/// Total cards dealt to the table strictly before `round_id`, not counting
/// the private hole cards of round zero.
pub open spec fn spec_cards_before(rounds: Seq<usize>, round_id: int) -> int
    decreases round_id,
{
    if round_id <= 1 {
        0
    } else {
        spec_cards_before(rounds, round_id - 1) + if round_id - 1 < rounds.len() {
            rounds[round_id - 1] as int
        } else {
            0
        }
    }
}

pub open spec fn min_len(a: int, b: int) -> int {
    if a < b {
        a
    } else {
        b
    }
}

impl TableStatic {
    /// The slice of the fixed table cards that belongs to one street: it
    /// starts where the earlier streets' cards end and holds the round's
    /// own count, clipped to the cards that are there; the hole-card round
    /// and rounds past the schedule get nothing.
    #[verifier::loop_isolation(false)]
    pub fn cards_for_round(&self, round_id: usize) -> (r: Vec<Card>)
        requires
            round_id < usize::MAX,
        ensures
            ({
                let len = self.table_cards@.len() as int;
                let before = spec_cards_before(self.rounds@, round_id as int);
                let takes: int = if 1 <= round_id && (round_id as int) < self.rounds@.len() {
                    self.rounds@[round_id as int] as int
                } else {
                    0
                };
                r@ == self.table_cards@.subrange(
                    min_len(before, len),
                    min_len(before + takes, len),
                )
            }),
            round_id == 0 ==> r@.len() == 0,
    {
        let n = self.table_cards.len();
        let mut skips: usize = 0;
        let mut takes: usize = 0;

        let mut i: usize = 1;
        while i < round_id + 1
            invariant
                1 <= i <= round_id + 1,
                skips as int == min_len(
                    spec_cards_before(
                        self.rounds@,
                        if i <= round_id {
                            i as int
                        } else {
                            round_id as int
                        },
                    ),
                    n as int,
                ),
                takes as int == (if 1 <= round_id && (round_id as int) < self.rounds@.len() && i
                    > round_id {
                    self.rounds@[round_id as int] as int
                } else {
                    0
                }),
            decreases round_id + 1 - i,
        {
            if i < self.rounds.len() {
                let c = self.rounds[i];
                if round_id == i {
                    takes = c;
                } else {
                    if c < n - skips {
                        skips = skips + c;
                    } else {
                        skips = n;
                    }
                }
            }
            i += 1;
        }

        let mut r: Vec<Card> = Vec::new();
        let mut j: usize = skips;
        let mut taken: usize = 0;
        while j < self.table_cards.len() && taken < takes
            invariant
                r@.len() == taken,
                j == skips + taken,
                j <= n,
                taken <= takes,
                r@ =~= self.table_cards@.subrange(skips as int, j as int),
            decreases self.table_cards@.len() - j,
        {
            proof {
                assert(self.table_cards@.subrange(skips as int, j + 1)
                    =~= self.table_cards@.subrange(skips as int, j as int).push(
                    self.table_cards@[j as int],
                ));
            }
            r.push(self.table_cards[j]);
            j += 1;
            taken += 1;
        }
        proof {
            let len = self.table_cards@.len() as int;
            let before = spec_cards_before(self.rounds@, round_id as int);
            assert(skips as int == min_len(before, len));
            assert(j as int == min_len(skips as int + takes as int, len));
            assert(min_len(skips as int + takes as int, len) == min_len(
                before + takes as int,
                len,
            ));
            assert(r@ =~= self.table_cards@.subrange(
                min_len(before, len),
                min_len(before + takes as int, len),
            ));
        }
        r
    }
}

impl<E> Table<E> for TableStatic {
    fn game_start(&mut self, blinds: Vec<(usize, Money)>) -> Result<(), E> {
        Ok(())
    }

    fn round_start(&mut self, round_id: usize, table_target: Money) -> Result<Vec<Card>, E> {
        if round_id == usize::MAX {
            // No street can have this number; nothing to deal.
            return Ok(Vec::new());
        }
        Ok(self.cards_for_round(round_id))
    }
}

/// A scripted bot that always picks the lowest legal class: it folds when
/// it may, else checks or calls, and raises only when nothing else is
/// legal.
pub struct PlayersFold<AC: ActionClass> {
    pub action_class: AC,
    pub blind_biggest: Money,
}

impl<AC: ActionClass> PlayersFold<AC> {
    pub fn new(action_class: AC) -> (r: PlayersFold<AC>)
        ensures
            r.blind_biggest@ == 0,
    {
        PlayersFold { action_class, blind_biggest: Money::zero() }
    }
}

impl<AC: ActionClass> Players<()> for PlayersFold<AC> {
    fn init(
        &mut self,
        blinds: &Vec<Money>,
        player_first: SeatId,
        player_funds: &Vec<Money>,
        playing_hands: &Vec<(usize, Vec<Card>)>,
    ) {
        if blinds.len() > 0 {
            self.blind_biggest = Money::max_of(blinds);
        }
    }

    fn play(
        &mut self,
        round_id: usize,
        table_target: Money,
        table_target_raise: Option<Money>,
        player_pots: &Vec<Money>,
        seat_id: usize,
        player_fund: Money,
        events: &Vec<Event>,
    ) -> Result<u8, ()> {
        if seat_id >= player_pots.len() {
            return Err(());
        }
        let mask = self.action_class.normalize(
            self.blind_biggest,
            round_id,
            table_target,
            table_target_raise,
            player_fund,
            player_pots[seat_id],
        );

        let size = self.action_class.size();
        let mut i: usize = 0;
        while i < size
            invariant
                i <= size,
            decreases size - i,
        {
            if mask.contains(&i) {
                if i < 256 {
                    return Ok(i as u8);
                }
            }
            i += 1;
        }
        Err(())
    }
}

/// A bot that plays a uniformly random legal action, drawing from its own
/// generator so that hands stay reproducible under a fixed seed.
pub struct PlayersRand<AC: ActionClass> {
    pub action_class: AC,
    pub blind_biggest: Money,
    pub rng: rand::rngs::StdRng,
}

impl<AC: ActionClass> Players<()> for PlayersRand<AC> {
    fn init(
        &mut self,
        blinds: &Vec<Money>,
        player_first: SeatId,
        player_funds: &Vec<Money>,
        playing_hands: &Vec<(usize, Vec<Card>)>,
    ) {
        if blinds.len() > 0 {
            self.blind_biggest = Money::max_of(blinds);
        }
    }

    fn play(
        &mut self,
        round_id: usize,
        table_target: Money,
        table_target_raise: Option<Money>,
        player_pots: &Vec<Money>,
        seat_id: usize,
        player_fund: Money,
        events: &Vec<Event>,
    ) -> Result<u8, ()> {
        if seat_id >= player_pots.len() {
            return Err(());
        }
        let mask = self.action_class.normalize(
            self.blind_biggest,
            round_id,
            table_target,
            table_target_raise,
            player_fund,
            player_pots[seat_id],
        );

        let size = self.action_class.size();
        let mut legal: Vec<usize> = Vec::new();
        let mut i: usize = 0;
        while i < size
            invariant
                i <= size,
                forall|k: int| 0 <= k < legal@.len() ==> (#[trigger] legal@[k]) < 256,
            decreases size - i,
        {
            if mask.contains(&i) && i < 256 {
                legal.push(i);
            }
            i += 1;
        }
        if legal.len() == 0 {
            return Err(());
        }
        let pick = crate::random::pick_index(&mut self.rng, legal.len());
        Ok(legal[pick] as u8)
    }
}

/// A fully scripted bot: a fixed list of (seat, class) pairs, consumed one
/// per action; a call out of script order fails.
pub struct PlayersStatic(pub Vec<(SeatId, u8)>);

impl Players<()> for PlayersStatic {
    fn init(
        &mut self,
        blinds: &Vec<Money>,
        player_first: SeatId,
        player_funds: &Vec<Money>,
        playing_hands: &Vec<(usize, Vec<Card>)>,
    ) {
    }

    fn play(
        &mut self,
        round_id: usize,
        table_target: Money,
        table_target_raise: Option<Money>,
        player_pots: &Vec<Money>,
        seat_id: usize,
        player_fund: Money,
        events: &Vec<Event>,
    ) -> Result<u8, ()> {
        if self.0.len() == 0 {
            return Err(());
        }
        let (seat, action) = self.0.remove(0);
        if seat == seat_id {
            Ok(action)
        } else {
            Err(())
        }
    }
}

} // verus!
