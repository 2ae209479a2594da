use vstd::prelude::*;
use vstd::string::StringExecFns;
use crate::cards::{Card, CardVal, Suit, deck_full, deck_kuhn, deck_leduc};
use crate::money::Money;

verus! {

broadcast use crate::money::lemma_money_nonneg, crate::money::lemma_money_bounded;

/// Betting-cap structure of a fixed-limit game.
#[derive(Clone, Debug)]
pub struct Limit {
    /// Most raises allowed in one round.
    pub caps: usize,
    /// Raise size per round, as a ratio of the big blind.
    pub raises: Vec<usize>,
}

/// Static game description: deck, blind structure, player count, dealt-card
/// counts per round, and the optional betting-cap structure. Pure data,
/// never mutated during play.
#[derive(Clone, Debug)]
pub struct Profile {
    pub id: String,
    pub blinds: Vec<Money>,
    pub deck: Vec<Card>,
    pub players: usize,
    /// Cards dealt per round; the first entry counts private hole cards.
    pub rounds: Vec<usize>,
    pub limit: Option<Limit>,
}

/// Sum of the per-round raise allowances, scaled by the blind, the cap and
/// the number of opponents; the accumulated worst-case delta of one hand.
pub open spec fn spec_delta_terms(blind: int, players: int, caps: int, raises: Seq<usize>) -> int
    decreases raises.len(),
{
    if raises.len() == 0 {
        0
    } else {
        spec_delta_terms(blind, players, caps, raises.drop_last()) + blind * raises.last() * caps
            * (players - 1)
    }
}

proof fn lemma_delta_terms_nonneg(blind: int, players: int, caps: int, raises: Seq<usize>)
    requires
        blind >= 0,
        players >= 1,
        caps >= 0,
    ensures
        spec_delta_terms(blind, players, caps, raises) >= 0,
    decreases raises.len(),
{
    if raises.len() > 0 {
        lemma_delta_terms_nonneg(blind, players, caps, raises.drop_last());
        assert(blind * raises.last() * caps * (players - 1) >= 0) by (nonlinear_arith)
            requires
                blind >= 0 && raises.last() >= 0 && caps >= 0 && players >= 1,
        ;
    }
}

proof fn lemma_delta_terms_prefix(blind: int, players: int, caps: int, raises: Seq<usize>, i: int)
    requires
        0 <= i <= raises.len(),
        blind >= 0,
        players >= 1,
        caps >= 0,
    ensures
        spec_delta_terms(blind, players, caps, raises.take(i)) <= spec_delta_terms(
            blind,
            players,
            caps,
            raises,
        ),
    decreases raises.len() - i,
{
    if i == raises.len() {
        assert(raises.take(i) =~= raises);
    } else {
        lemma_delta_terms_prefix(blind, players, caps, raises, i + 1);
        assert(raises.take(i + 1).drop_last() =~= raises.take(i));
        assert(raises.take(i + 1).last() == raises[i]);
        assert(blind * raises[i] * caps * (players - 1) >= 0) by (nonlinear_arith)
            requires
                blind >= 0 && raises[i] >= 0 && caps >= 0 && players >= 1,
        ;
    }
}

impl Profile {
    /// Worst-case per-hand fund delta, as a multiple of the big blind.
    #[verifier::loop_isolation(false)]
    pub fn delta_biggest_r(&self) -> (r: u32)
        requires
            self.blinds@.len() > 0,
            self.limit matches Some(limit) && ({
                let blind = crate::money::spec_money_max(self.blinds@);
                &&& blind >= 1
                &&& limit.caps >= 1
                &&& self.players >= 2
                &&& blind * (self.players - 1) + spec_delta_terms(
                    blind,
                    self.players as int,
                    limit.caps as int,
                    limit.raises@,
                ) <= u32::MAX
            }),
        ensures
            self.limit matches Some(limit) && ({
                let blind = crate::money::spec_money_max(self.blinds@);
                r == (blind * (self.players - 1) + spec_delta_terms(
                    blind,
                    self.players as int,
                    limit.caps as int,
                    limit.raises@,
                )) / blind
            }),
    {
        let blind_biggest = Money::max_of(&self.blinds).unpack();
        proof {
            crate::money::lemma_money_max_is_max(self.blinds@);
        }

        let (caps, raises) = match &self.limit {
            None => {
                // Unreachable: the precondition asks for a limit structure.
                return 0;
            },
            Some(limit) => (limit.caps, &limit.raises),
        };

        let ghost blind = blind_biggest as int;
        let ghost p = self.players as int;
        let ghost c = caps as int;

        proof {
            lemma_delta_terms_nonneg(blind, p, c, raises@);
            assert(p - 1 <= blind * (p - 1)) by (nonlinear_arith)
                requires
                    blind >= 1 && p >= 1,
            ;
        }
        let mut delta: u32 = blind_biggest * ((self.players - 1) as u32);

        let mut i: usize = 0;
        while i < raises.len()
            invariant
                i <= raises@.len(),
                delta == blind * (p - 1) + spec_delta_terms(blind, p, c, raises@.take(i as int)),
            decreases raises@.len() - i,
        {
            let ghost ri = raises@[i as int] as int;
            let ghost term = blind * ri * c * (p - 1);
            proof {
                lemma_delta_terms_prefix(blind, p, c, raises@, i + 1);
                assert(raises@.take(i + 1).drop_last() =~= raises@.take(i as int));
                assert(raises@.take(i + 1).last() == raises@[i as int]);
                assert(spec_delta_terms(blind, p, c, raises@.take(i + 1)) == spec_delta_terms(
                    blind,
                    p,
                    c,
                    raises@.take(i as int),
                ) + term);
                // Every partial product is bounded by the whole term, since
                // the remaining factors are at least one.
                assert(blind * ri <= term && blind * ri * c <= term && term >= 0)
                    by (nonlinear_arith)
                    requires
                        blind >= 0 && ri >= 0 && c >= 1 && p >= 2 && term == blind * ri * c * (p
                            - 1),
                ;
            }
            let t1: u64 = (blind_biggest as u64) * (raises[i] as u64);
            let t2: u64 = t1 * (caps as u64);
            let t3: u64 = t2 * ((self.players - 1) as u64);
            assert(t3 == term);
            delta = delta + (t3 as u32);
            i += 1;
        }
        proof {
            assert(raises@.take(raises@.len() as int) =~= raises@);
        }

        delta / blind_biggest
    }
}

/// A list holding `players` copies of one blind value.
fn blinds_equal(players: usize, blind: Money) -> (r: Vec<Money>)
    ensures
        r@.len() == players,
        forall|i: int| 0 <= i < players ==> r@[i] == blind,
{
    let mut r: Vec<Money> = Vec::new();
    let mut i: usize = 0;
    while i < players
        invariant
            i <= players,
            r@.len() == i,
            forall|k: int| 0 <= k < i ==> r@[k] == blind,
        decreases players - i,
    {
        r.push(blind);
        i += 1;
    }
    r
}

/// The Kuhn game: one private card, one blind-sized raise per hand.
pub fn profile_kuhn(players: usize) -> (p: Profile)
    requires
        2 <= players <= 3,
    ensures
        p.blinds@.len() == players,
        forall|i: int| 0 <= i < players ==> p.blinds@[i]@ == 100,
        p.deck@.len() == 3,
        p.deck@[0] == (Card { value: CardVal::CJ, suit: Suit::Spade }),
        p.deck@[1] == (Card { value: CardVal::CQ, suit: Suit::Spade }),
        p.deck@[2] == (Card { value: CardVal::CK, suit: Suit::Spade }),
        p.players == players,
        p.rounds@ =~= seq![1usize],
        p.limit matches Some(l) && l.caps == 1 && l.raises@ =~= seq![1usize],
        p.id@ == "kuhn"@,
{
    let one = Money::new(1, 0);
    let mut raises: Vec<usize> = Vec::new();
    raises.push(1);
    let mut rounds: Vec<usize> = Vec::new();
    rounds.push(1);

    Profile {
        id: String::from_str("kuhn"),
        blinds: blinds_equal(players, one),
        deck: deck_kuhn(),
        rounds,
        players,
        limit: Some(Limit { caps: 1, raises }),
    }
}

/// The Leduc game: two rounds over a six-card deck, a two-bet maximum with
/// raise sizes of two and four blinds.
pub fn profile_leduc(players: usize) -> (p: Profile)
    requires
        2 <= players <= 5,
    ensures
        p.blinds@.len() == players,
        forall|i: int| 0 <= i < players ==> p.blinds@[i]@ == 100,
        p.deck@.len() == 6,
        p.deck@[0] == (Card { value: CardVal::CJ, suit: Suit::Spade }),
        p.deck@[1] == (Card { value: CardVal::CJ, suit: Suit::Heart }),
        p.deck@[2] == (Card { value: CardVal::CQ, suit: Suit::Spade }),
        p.deck@[3] == (Card { value: CardVal::CQ, suit: Suit::Heart }),
        p.deck@[4] == (Card { value: CardVal::CK, suit: Suit::Spade }),
        p.deck@[5] == (Card { value: CardVal::CK, suit: Suit::Heart }),
        p.players == players,
        p.rounds@ =~= seq![1usize, 1usize],
        p.limit matches Some(l) && l.caps == 2 && l.raises@ =~= seq![2usize, 4usize],
        p.id@ == "leduc"@,
{
    let one = Money::new(1, 0);
    let mut raises: Vec<usize> = Vec::new();
    raises.push(2);
    raises.push(4);
    let mut rounds: Vec<usize> = Vec::new();
    rounds.push(1);
    rounds.push(1);

    Profile {
        id: String::from_str("leduc"),
        blinds: blinds_equal(players, one),
        deck: deck_leduc(),
        rounds,
        players,
        limit: Some(Limit { caps: 2, raises }),
    }
}

/// Leduc rules over the full French deck.
pub fn profile_leduc_french(players: usize) -> (p: Profile)
    ensures
        p.blinds@.len() == players,
        forall|i: int| 0 <= i < players ==> p.blinds@[i]@ == 100,
        p.deck@.len() == 52,
        forall|i: int|
            0 <= i < 52 ==> crate::cards::card_val_id(#[trigger] p.deck@[i].value) == i / 4
                && crate::cards::suit_id(p.deck@[i].suit) == i % 4,
        p.players == players,
        p.rounds@ =~= seq![1usize, 1usize],
        p.limit matches Some(l) && l.caps == 2 && l.raises@ =~= seq![2usize, 4usize],
        p.id@ == "leduc_french"@,
{
    let one = Money::new(1, 0);
    let mut raises: Vec<usize> = Vec::new();
    raises.push(2);
    raises.push(4);
    let mut rounds: Vec<usize> = Vec::new();
    rounds.push(1);
    rounds.push(1);

    Profile {
        id: String::from_str("leduc_french"),
        blinds: blinds_equal(players, one),
        deck: deck_full(),
        rounds,
        players,
        limit: Some(Limit { caps: 2, raises }),
    }
}

/// A three-round variant over the full deck: two private cards, then one
/// community card on each of two streets.
pub fn profile_cochard(players: usize) -> (p: Profile)
    ensures
        p.blinds@.len() == players,
        forall|i: int| 0 <= i < players ==> p.blinds@[i]@ == 100,
        p.deck@.len() == 52,
        forall|i: int|
            0 <= i < 52 ==> crate::cards::card_val_id(#[trigger] p.deck@[i].value) == i / 4
                && crate::cards::suit_id(p.deck@[i].suit) == i % 4,
        p.players == players,
        p.rounds@ =~= seq![2usize, 1usize, 1usize],
        p.limit matches Some(l) && l.caps == 2 && l.raises@ =~= seq![1usize, 2usize, 4usize],
        p.id@ == "cochard"@,
{
    let one = Money::new(1, 0);
    let mut raises: Vec<usize> = Vec::new();
    raises.push(1);
    raises.push(2);
    raises.push(4);
    let mut rounds: Vec<usize> = Vec::new();
    rounds.push(2);
    rounds.push(1);
    rounds.push(1);

    Profile {
        id: String::from_str("cochard"),
        blinds: blinds_equal(players, one),
        deck: deck_full(),
        rounds,
        players,
        limit: Some(Limit { caps: 2, raises }),
    }
}

/// Fixed-limit Texas-style play: two private cards, three community streets,
/// small and big blind, a four-bet cap.
pub fn profile_texas_limit(players: usize, blind_small: Money, blind_big: Money) -> (p: Profile)
    ensures
        p.blinds@ =~= seq![blind_small, blind_big],
        p.deck@.len() == 52,
        forall|i: int|
            0 <= i < 52 ==> crate::cards::card_val_id(#[trigger] p.deck@[i].value) == i / 4
                && crate::cards::suit_id(p.deck@[i].suit) == i % 4,
        p.players == players,
        p.rounds@ =~= seq![2usize, 3usize, 1usize, 1usize],
        p.limit matches Some(l) && l.caps == 4 && l.raises@ =~= seq![
            1usize,
            1usize,
            2usize,
            2usize,
        ],
        p.id@ == "texas_limit"@,
{
    let mut blinds: Vec<Money> = Vec::new();
    blinds.push(blind_small);
    blinds.push(blind_big);
    let mut raises: Vec<usize> = Vec::new();
    raises.push(1);
    raises.push(1);
    raises.push(2);
    raises.push(2);
    let mut rounds: Vec<usize> = Vec::new();
    rounds.push(2);
    rounds.push(3);
    rounds.push(1);
    rounds.push(1);

    Profile {
        id: String::from_str("texas_limit"),
        blinds,
        deck: deck_full(),
        rounds,
        players,
        limit: Some(Limit { caps: 4, raises }),
    }
}

} // verus!
