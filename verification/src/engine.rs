use vstd::prelude::*;
use vstd::string::StringExecFns;
use crate::cards::{Card, copy_cards};
use crate::eval::Eval;
use crate::players::{Players, Table, TableStatic};
use crate::model::{Action, ActionClass, SeatId};
use crate::money::{Money, spec_money_sum};
use crate::rounds::{
    contains_seat, lemma_first_active_step_found, lemma_walk_covers, lemma_walk_formula,
    player_actives, pledge_apply, pledge_unapply, seat_next_active, seat_previous,
    spec_first_active_step, spec_posted, spec_walk,
};
use crate::sim::{Act, Event, Sim, State, spec_active_count, state_active, state_in_hand};

verus! {

broadcast use crate::money::lemma_money_nonneg, crate::money::lemma_money_bounded;

/// Everything that can abort a hand: a betting-rule violation, a seat dealt
/// in with too little money, a pledge beyond a seat's fund in strict mode,
/// and the collaborator's own error, forwarded untouched.
#[derive(Clone, Debug, Eq, PartialEq)]
pub enum Error<E> {
    Semantic(String),
    InsufficientBringIn { seat_id: SeatId },
    InsufficientFund { seat_id: SeatId, fund: Money, bet: Money },
    Play(E),
}

/// Per-round normalized action records, for display and logging.
pub type Rounds = Vec<Vec<(SeatId, Action, Option<Money>)>>;

/// The full replay record of one hand.
#[derive(Clone, Debug)]
pub struct Log {
    pub players_init: Vec<(SeatId, Money, Vec<Card>)>,
    pub events: Vec<Event>,
    pub rounds: Rounds,
    pub table_cards: Vec<Card>,
}

/// The outcome of one hand: final funds per dealt seat, the pot that was
/// played for, the winning seats and their score.
#[derive(Clone, Debug)]
pub struct Score {
    pub player_funds: Vec<(SeatId, Money)>,
    pub pot: Money,
    pub winners: Vec<SeatId>,
    pub winners_score: u64,
}

/// Build the initial per-seat funds, pots and states from the dealt seats.
/// Every dealt seat must bring at least the biggest blind; the first seat
/// that cannot is reported.
#[verifier::loop_isolation(false)]
pub fn table_players_init<AC: ActionClass, E>(
    sim: &Sim<AC>,
    players_init: &Vec<(SeatId, Money, Vec<Card>)>,
) -> (r: Result<(Vec<Money>, Vec<Money>, Vec<State>), Error<E>>)
    requires
        forall|k: int|
            0 <= k < players_init@.len() ==> (#[trigger] players_init@[k]).0
                < sim.profile.players,
        forall|k1: int, k2: int|
            0 <= k1 < k2 < players_init@.len() ==> players_init@[k1].0 != players_init@[k2].0,
    ensures
        (r matches Ok(t) ==> {
            let (funds, pots, states) = t;
            &&& funds@.len() == sim.profile.players
            &&& pots@.len() == sim.profile.players
            &&& states@.len() == sim.profile.players
            &&& forall|s: int| 0 <= s < sim.profile.players ==> pots@[s]@ == 0
            &&& forall|k: int|
                0 <= k < players_init@.len() ==> {
                    let (seat, money, cards) = #[trigger] players_init@[k];
                    &&& funds@[seat as int] == money
                    &&& (states@[seat as int] matches State::Play { cards: cs, all_in } && cs@
                        == cards@ && all_in == false)
                }
            &&& forall|s: int|
                0 <= s < sim.profile.players ==> ((exists|k: int|
                    0 <= k < players_init@.len() && (#[trigger] players_init@[k]).0 == s) || (
                funds@[s]@ == 0 && states@[s] == State::Off))
        }),
        (r is Ok <==> forall|k: int|
            0 <= k < players_init@.len() ==> (#[trigger] players_init@[k]).1@
                >= sim.blind_biggest@),
        (r matches Err(e) ==> exists|k: int|
            {
                &&& 0 <= k < players_init@.len()
                &&& (#[trigger] players_init@[k]).1@ < sim.blind_biggest@
                &&& e == Error::<E>::InsufficientBringIn { seat_id: players_init@[k].0 }
                &&& forall|j: int| 0 <= j < k ==> players_init@[j].1@ >= sim.blind_biggest@
            }),
{
    let players = sim.profile.players;
    let mut player_funds: Vec<Money> = Vec::new();
    let mut player_pots: Vec<Money> = Vec::new();
    let mut player_states: Vec<State> = Vec::new();
    let mut i: usize = 0;
    while i < players
        invariant
            i <= players,
            player_funds@.len() == i,
            player_pots@.len() == i,
            player_states@.len() == i,
            forall|s: int| 0 <= s < i ==> player_funds@[s]@ == 0,
            forall|s: int| 0 <= s < i ==> player_pots@[s]@ == 0,
            forall|s: int| 0 <= s < i ==> player_states@[s] == State::Off,
        decreases players - i,
    {
        player_funds.push(Money::zero());
        player_pots.push(Money::zero());
        player_states.push(State::Off);
        i += 1;
    }

    let mut k: usize = 0;
    while k < players_init.len()
        invariant
            k <= players_init@.len(),
            player_funds@.len() == players,
            player_pots@.len() == players,
            player_states@.len() == players,
            forall|s: int| 0 <= s < players ==> player_pots@[s]@ == 0,
            forall|j: int|
                0 <= j < k ==> {
                    let (seat, money, cards) = #[trigger] players_init@[j];
                    &&& player_funds@[seat as int] == money
                    &&& (player_states@[seat as int] matches State::Play { cards: cs, all_in }
                        && cs@ == cards@ && all_in == false)
                },
            forall|s: int|
                0 <= s < players ==> ((exists|j: int|
                    0 <= j < k && (#[trigger] players_init@[j]).0 == s) || (player_funds@[s]@
                    == 0 && player_states@[s] == State::Off)),
            forall|j: int| 0 <= j < k ==> (#[trigger] players_init@[j]).1@ >= sim.blind_biggest@,
        decreases players_init@.len() - k,
    {
        let (seat_id, money, cards) = &players_init[k];
        let idx = *seat_id;
        player_funds.set(idx, *money);
        let mut cs: Vec<Card> = Vec::new();
        let mut c: usize = 0;
        while c < cards.len()
            invariant
                c <= cards@.len(),
                cs@ =~= cards@.take(c as int),
            decreases cards@.len() - c,
        {
            cs.push(cards[c]);
            c += 1;
        }
        assert(cs@ =~= cards@);
        player_states.set(idx, State::Play { cards: cs, all_in: false });

        if money.unpack() < sim.blind_biggest.unpack() {
            return Err(Error::InsufficientBringIn { seat_id: idx });
        }
        proof {
            assert(forall|j: int|
                0 <= j < k ==> (#[trigger] players_init@[j]).0 != players_init@[k as int].0);
        }
        k += 1;
    }

    Ok((player_funds, player_pots, player_states))
}

pub open spec fn min_int(a: int, b: int) -> int {
    if a < b {
        a
    } else {
        b
    }
}

/// Total contribution of all seats, with each seat's pot capped at `t`.
pub open spec fn spec_sum_min(pots: Seq<Money>, t: int) -> int
    decreases pots.len(),
{
    if pots.len() == 0 {
        0
    } else {
        spec_sum_min(pots.drop_last(), t) + min_int(pots.last()@, t)
    }
}

/// Total contribution of all seats beyond the cap `t`.
pub open spec fn spec_sum_over(pots: Seq<Money>, t: int) -> int
    decreases pots.len(),
{
    if pots.len() == 0 {
        0
    } else {
        spec_sum_over(pots.drop_last(), t) + if pots.last()@ > t {
            pots.last()@ - t
        } else {
            0int
        }
    }
}

pub proof fn lemma_sum_min_zero(pots: Seq<Money>)
    ensures
        spec_sum_min(pots, 0) == 0,
    decreases pots.len(),
{
    if pots.len() > 0 {
        lemma_sum_min_zero(pots.drop_last());
    }
}

pub proof fn lemma_sum_min_mono(pots: Seq<Money>, t1: int, t2: int)
    requires
        t1 <= t2,
    ensures
        spec_sum_min(pots, t1) <= spec_sum_min(pots, t2),
    decreases pots.len(),
{
    if pots.len() > 0 {
        lemma_sum_min_mono(pots.drop_last(), t1, t2);
    }
}

/// The capped and over-the-cap contributions together are the whole pot.
pub proof fn lemma_sum_min_over_split(pots: Seq<Money>, t: int)
    requires
        t >= 0,
    ensures
        spec_sum_min(pots, t) + spec_sum_over(pots, t) == spec_money_sum(pots),
    decreases pots.len(),
{
    if pots.len() > 0 {
        lemma_sum_min_over_split(pots.drop_last(), t);
    }
}

pub proof fn lemma_sum_min_le_sum(pots: Seq<Money>, t: int)
    requires
        t >= 0,
    ensures
        0 <= spec_sum_min(pots, t) <= spec_money_sum(pots),
{
    lemma_sum_min_over_split(pots, t);
    lemma_sum_min_zero(pots);
    lemma_sum_min_mono(pots, 0, t);
    lemma_sum_over_nonneg(pots, t);
}

pub proof fn lemma_sum_over_nonneg(pots: Seq<Money>, t: int)
    requires
        t >= 0,
    ensures
        spec_sum_over(pots, t) >= 0,
    decreases pots.len(),
{
    if pots.len() > 0 {
        lemma_sum_over_nonneg(pots.drop_last(), t);
    }
}

/// The biggest pot among the winning seats.
pub open spec fn spec_winners_pot_max(pots: Seq<Money>, winners: Seq<SeatId>) -> int
    decreases winners.len(),
{
    if winners.len() <= 1 {
        if winners.len() == 1 {
            pots[winners[0] as int]@
        } else {
            0
        }
    } else {
        let m = spec_winners_pot_max(pots, winners.drop_last());
        if pots[winners.last() as int]@ > m {
            pots[winners.last() as int]@
        } else {
            m
        }
    }
}

pub proof fn lemma_winners_pot_max_is_max(pots: Seq<Money>, winners: Seq<SeatId>)
    requires
        winners.len() >= 1,
        forall|k: int| 0 <= k < winners.len() ==> (#[trigger] winners[k]) < pots.len(),
    ensures
        forall|k: int|
            0 <= k < winners.len() ==> pots[(#[trigger] winners[k]) as int]@
                <= spec_winners_pot_max(pots, winners),
        exists|k: int|
            0 <= k < winners.len() && pots[(#[trigger] winners[k]) as int]@
                == spec_winners_pot_max(pots, winners),
    decreases winners.len(),
{
    if winners.len() == 1 {
        assert(pots[winners[0] as int]@ == spec_winners_pot_max(pots, winners));
    } else {
        lemma_winners_pot_max_is_max(pots, winners.drop_last());
        assert(forall|k: int| 0 <= k < winners.len() - 1 ==> winners[k] == winners.drop_last()[k]);
        if spec_winners_pot_max(pots, winners) == pots[winners.last() as int]@ {
            assert(pots[winners[winners.len() - 1] as int]@ == spec_winners_pot_max(pots, winners));
        } else {
            let k = choose|k: int|
                0 <= k < winners.drop_last().len() && pots[(#[trigger] winners.drop_last()[k]) as int]@
                    == spec_winners_pot_max(pots, winners.drop_last());
            assert(pots[winners[k] as int]@ == spec_winners_pot_max(pots, winners));
        }
    }
}

/// The money values of a fund list, as plain integers.
pub open spec fn spec_views(s: Seq<Money>) -> Seq<int> {
    Seq::new(s.len(), |i: int| s[i]@)
}

/// The first position, at or after `k`, of the listed seat holding the
/// lowest fund among the listed seats from `k` on.
pub open spec fn spec_first_min_idx(funds: Seq<int>, winners: Seq<SeatId>, k: int) -> int
    decreases winners.len() - k,
{
    if k < 0 || k >= winners.len() - 1 {
        winners.len() - 1
    } else {
        let rest = spec_first_min_idx(funds, winners, k + 1);
        if funds[winners[k] as int] <= funds[winners[rest] as int] {
            k
        } else {
            rest
        }
    }
}

proof fn lemma_first_min_idx(funds: Seq<int>, winners: Seq<SeatId>, k: int)
    requires
        0 <= k < winners.len(),
    ensures
        ({
            let idx = spec_first_min_idx(funds, winners, k);
            &&& k <= idx < winners.len()
            &&& forall|j: int|
                k <= j < winners.len() ==> funds[(#[trigger] winners[j]) as int]
                    >= funds[winners[idx] as int]
            &&& forall|j: int|
                k <= j < idx ==> funds[(#[trigger] winners[j]) as int]
                    > funds[winners[idx] as int]
        }),
    decreases winners.len() - k,
{
    if k < winners.len() - 1 {
        lemma_first_min_idx(funds, winners, k + 1);
    }
}

/// Share `money` among the listed seats: every listed seat gets the even
/// integer share, and the first listed seat holding the lowest fund also
/// gets the division remainder.
pub open spec fn spec_prorata(funds: Seq<int>, winners: Seq<SeatId>, money: int) -> Seq<int> {
    let n = winners.len() as int;
    let q = money / n;
    let rem = money % n;
    let w = winners[spec_first_min_idx(funds, winners, 0)];
    Seq::new(
        funds.len(),
        |s: int|
            funds[s] + (if winners.contains(s as usize) {
                q
            } else {
                0
            }) + (if s == w as int {
                rem
            } else {
                0
            }),
    )
}

/// Share `money` evenly among the listed seats, the integer-division
/// remainder going to the listed seat that currently holds the lowest fund
/// (first such seat on ties). Adds exactly `money` to the listed seats'
/// funds and touches no other seat.
#[verifier::loop_isolation(false)]
#[verifier::rlimit(100)]
fn prorata(player_funds: &mut Vec<Money>, winners: &Vec<SeatId>, money: u32)
    requires
        1 <= winners@.len() <= u32::MAX,
        forall|k: int| 0 <= k < winners@.len() ==> (#[trigger] winners@[k]) < old(player_funds)@.len(),
        forall|k1: int, k2: int| 0 <= k1 < k2 < winners@.len() ==> winners@[k1] != winners@[k2],
        spec_money_sum(old(player_funds)@) + money <= u32::MAX,
    ensures
        final(player_funds)@.len() == old(player_funds)@.len(),
        spec_views(final(player_funds)@) == spec_prorata(
            spec_views(old(player_funds)@),
            winners@,
            money as int,
        ),
        spec_money_sum(final(player_funds)@) == spec_money_sum(old(player_funds)@) + money,
        forall|s: int|
            0 <= s < final(player_funds)@.len() ==> final(player_funds)@[s]@ >= old(
                player_funds)@[s]@,
        forall|s: int|
            0 <= s < final(player_funds)@.len() && !winners@.contains(s as usize) ==> final(
                player_funds)@[s] == old(player_funds)@[s],
{
    let k: u32 = winners.len() as u32;
    let q: u32 = money / k;
    proof {
        assert(q * k <= money) by (nonlinear_arith)
            requires
                k >= 1 && q == money / k,
        ;
    }
    let rem: u32 = money - q * k;
    let nseats: usize = player_funds.len();
    let ghost funds0 = old(player_funds)@;
    let ghost views0 = spec_views(funds0);
    let ghost widx = spec_first_min_idx(views0, winners@, 0);
    let ghost elected = winners@[widx];
    let ghost gmax = crate::money::spec_money_max(funds0);

    proof {
        lemma_first_min_idx(views0, winners@, 0);
        assert(winners@[0] < old(player_funds)@.len());
        assert(rem == money as int % winners@.len() as int) by (nonlinear_arith)
            requires
                k == winners@.len() && k >= 1 && q == money / k && rem == money - q * k,
        ;
        crate::money::lemma_money_max_is_max(funds0);
    }
    if rem > 0 {
        let mut m: u32 = Money::max_of(player_funds).unpack();
        let mut seat: usize = winners[0];
        let mut i: usize = 0;
        while i < winners.len()
            invariant
                i <= winners@.len(),
                winners@.contains(seat),
                seat < player_funds@.len(),
                player_funds@ == funds0,
                m as int <= gmax,
                forall|j: int| 0 <= j < i ==> views0[(#[trigger] winners@[j]) as int] >= m as int,
                (m as int == gmax && seat == winners@[0]) || (exists|j0: int|
                    0 <= j0 < i && winners@[j0] == seat && views0[seat as int] == m as int && (
                    forall|j: int|
                        0 <= j < j0 ==> views0[(#[trigger] winners@[j]) as int] > m as int)),
            decreases winners@.len() - i,
        {
            let w = winners[i];
            if player_funds[w].unpack() < m {
                let ghost m_old = m as int;
                seat = w;
                m = player_funds[w].unpack();
                proof {
                    assert(winners@.contains(seat)) by {
                        assert(winners@[i as int] == seat);
                    }
                    assert(views0[seat as int] == m as int);
                    assert forall|j: int|
                        0 <= j < i implies views0[(#[trigger] winners@[j]) as int]
                        > m as int by {
                        assert(views0[winners@[j] as int] >= m_old);
                    }
                }
            }
            i += 1;
        }
        proof {
            // The scanned seat is the seat of the first lowest-fund winner.
            assert(seat == elected) by {
                if exists|j0: int|
                    0 <= j0 < winners@.len() && winners@[j0] == seat && views0[seat as int]
                        == m as int && (forall|j: int|
                        0 <= j < j0 ==> views0[(#[trigger] winners@[j]) as int] > m as int) {
                    let j0 = choose|j0: int|
                        0 <= j0 < winners@.len() && winners@[j0] == seat && views0[seat as int]
                            == m as int && (forall|j: int|
                            0 <= j < j0 ==> views0[(#[trigger] winners@[j]) as int] > m as int);
                    assert(views0[winners@[widx] as int] >= m as int);
                    assert(views0[winners@[widx] as int] <= views0[winners@[j0] as int]);
                    assert(views0[winners@[widx] as int] == m as int);
                    if j0 < widx {
                        assert(views0[winners@[j0] as int] > views0[winners@[widx] as int]);
                        assert(false);
                    }
                    if widx < j0 {
                        assert(views0[winners@[widx] as int] > m as int);
                        assert(false);
                    }
                } else {
                    assert(m as int == gmax && seat == winners@[0]);
                    // Every listed fund then sits at the overall maximum.
                    assert forall|j: int|
                        0 <= j < winners@.len() implies views0[(#[trigger] winners@[j]) as int]
                        == gmax by {
                        assert(views0[winners@[j] as int] >= m as int);
                        assert(funds0[winners@[j] as int]@ <= gmax);
                    }
                    assert(widx == 0) by {
                        if widx > 0 {
                            assert(views0[winners@[0] as int]
                                > views0[winners@[widx] as int]);
                        }
                    }
                }
            }
            crate::money::lemma_money_sum_elem(player_funds@, seat as int);
        }
        let bumped = player_funds[seat].plus(Money::from_u32(rem));
        let ghost before = player_funds@;
        player_funds.set(seat, bumped);
        proof {
            crate::money::lemma_money_sum_update(before, player_funds@, seat as int);
        }
    }

    proof {
        assert(forall|s: int| 0 <= s < player_funds@.len() ==> player_funds@[s]@ >= funds0[s]@);
        assert(forall|s: int|
            0 <= s < player_funds@.len() && !winners@.contains(s as usize) ==> player_funds@[s]
                == funds0[s]);
        assert(forall|s: int|
            0 <= s < player_funds@.len() ==> player_funds@[s]@ == funds0[s]@ + (if s
                == elected as int {
                rem as int
            } else {
                0
            }));
    }
    let ghost sum_after_rem = spec_money_sum(player_funds@);
    let ghost funds_after_rem = player_funds@;
    let mut i: usize = 0;
    while i < winners.len()
        invariant
            i <= winners@.len(),
            player_funds@.len() == funds0.len(),
            spec_money_sum(player_funds@) == sum_after_rem + q * i,
            sum_after_rem + q * (winners@.len() as int) <= spec_money_sum(funds0) + money,
            forall|s: int|
                0 <= s < player_funds@.len() ==> player_funds@[s]@ == funds_after_rem[s]@ + (
                if winners@.take(i as int).contains(s as usize) {
                    q as int
                } else {
                    0
                }),
            forall|s: int|
                0 <= s < player_funds@.len() && !winners@.contains(s as usize) ==> player_funds@[s]
                    == funds_after_rem[s],
        decreases winners@.len() - i,
    {
        let w = winners[i];
        proof {
            assert(!winners@.take(i as int).contains(w)) by {
                if winners@.take(i as int).contains(w) {
                    let j = choose|j: int|
                        0 <= j < i && winners@.take(i as int)[j] == w;
                    assert(winners@[j] == winners@[i as int]);
                }
            }
            crate::money::lemma_money_sum_elem(player_funds@, w as int);
            assert(q * (i + 1) <= q * (winners@.len() as int)) by (nonlinear_arith)
                requires
                    q >= 0 && i + 1 <= winners@.len(),
            ;
            assert(q * (i + 1) == q * i + q) by (nonlinear_arith);
        }
        let bumped = player_funds[w].plus(Money::from_u32(q));
        let ghost before = player_funds@;
        player_funds.set(w, bumped);
        proof {
            crate::money::lemma_money_sum_update(before, player_funds@, w as int);
            assert(winners@.contains(w));
            assert(winners@.take(i + 1).drop_last() =~= winners@.take(i as int));
            assert(winners@.take(i + 1).last() == winners@[i as int]);
            assert forall|s: int|
                0 <= s < player_funds@.len() implies player_funds@[s]@ == funds_after_rem[s]@ + (
            if winners@.take(i + 1).contains(s as usize) {
                q as int
            } else {
                0
            }) by {
                if s == w as int {
                    assert(winners@.take(i + 1).contains(w)) by {
                        assert(winners@.take(i + 1)[i as int] == w);
                    }
                } else {
                    if winners@.take(i + 1).contains(s as usize) {
                        let j = choose|j: int|
                            0 <= j < i + 1 && #[trigger] winners@.take(i + 1)[j] == s as usize;
                        assert(winners@.take(i + 1)[j] == winners@[j]);
                        if j == i {
                            assert(winners@[j] == w);
                            assert(s as usize == w);
                            assert(s < nseats as int);
                            assert(s == w as int);
                            assert(false);
                        }
                        assert(winners@.take(i as int)[j] == s as usize);
                        assert(winners@.take(i as int).contains(s as usize));
                    }
                    if winners@.take(i as int).contains(s as usize) {
                        let j = choose|j: int|
                            0 <= j < i && #[trigger] winners@.take(i as int)[j] == s as usize;
                        assert(winners@.take(i + 1)[j] == s as usize);
                        assert(winners@.take(i + 1).contains(s as usize));
                    }
                }
            }
        }
        i += 1;
    }
    proof {
        assert(q * (winners@.len() as int) + rem == money);
        assert(winners@.take(winners@.len() as int) =~= winners@);
        assert(q as int == money as int / winners@.len() as int);
        assert(spec_views(player_funds@) =~= spec_prorata(views0, winners@, money as int));
    }
}

proof fn lemma_sum_min_take_succ(pots: Seq<Money>, t: int, i: int)
    requires
        0 <= i < pots.len(),
    ensures
        spec_sum_min(pots.take(i + 1), t) == spec_sum_min(pots.take(i), t) + min_int(pots[i]@, t),
{
    assert(pots.take(i + 1).drop_last() =~= pots.take(i));
    assert(pots.take(i + 1).last() == pots[i]);
}

proof fn lemma_sum_min_take_le(pots: Seq<Money>, t: int, i: int)
    requires
        0 <= i <= pots.len(),
        t >= 0,
    ensures
        spec_sum_min(pots.take(i), t) <= spec_sum_min(pots, t),
    decreases pots.len() - i,
{
    if i == pots.len() {
        assert(pots.take(i) =~= pots);
    } else {
        lemma_sum_min_take_succ(pots, t, i);
        lemma_sum_min_take_le(pots, t, i + 1);
    }
}

proof fn lemma_sum_over_take_succ(pots: Seq<Money>, t: int, i: int)
    requires
        0 <= i < pots.len(),
    ensures
        spec_sum_over(pots.take(i + 1), t) == spec_sum_over(pots.take(i), t) + if pots[i]@ > t {
            pots[i]@ - t
        } else {
            0int
        },
{
    assert(pots.take(i + 1).drop_last() =~= pots.take(i));
    assert(pots.take(i + 1).last() == pots[i]);
}

proof fn lemma_sum_over_take_le(pots: Seq<Money>, t: int, i: int)
    requires
        0 <= i <= pots.len(),
        t >= 0,
    ensures
        spec_sum_over(pots.take(i), t) <= spec_sum_over(pots, t),
    decreases pots.len() - i,
{
    if i == pots.len() {
        assert(pots.take(i) =~= pots);
    } else {
        lemma_sum_over_take_succ(pots, t, i);
        lemma_sum_over_take_le(pots, t, i + 1);
    }
}

/// The listed seats whose contributed pot reaches the tier `t`, in listed
/// order.
pub open spec fn spec_winners_reaching(pots: Seq<Money>, winners: Seq<SeatId>, t: int) -> Seq<
    SeatId,
>
    decreases winners.len(),
{
    if winners.len() == 0 {
        Seq::empty()
    } else {
        let rest = spec_winners_reaching(pots, winners.drop_last(), t);
        if pots[winners.last() as int]@ >= t {
            rest.push(winners.last())
        } else {
            rest
        }
    }
}

proof fn lemma_reaching_distinct(pots: Seq<Money>, winners: Seq<SeatId>, t: int)
    requires
        forall|k1: int, k2: int| 0 <= k1 < k2 < winners.len() ==> winners[k1] != winners[k2],
    ensures
        ({
            let r = spec_winners_reaching(pots, winners, t);
            &&& (forall|a: int, b: int| 0 <= a < b < r.len() ==> r[a] != r[b])
            &&& (forall|a: int| 0 <= a < r.len() ==> winners.contains(#[trigger] r[a]))
        }),
    decreases winners.len(),
{
    if winners.len() > 0 {
        assert(forall|k1: int, k2: int|
            0 <= k1 < k2 < winners.drop_last().len() ==> winners.drop_last()[k1]
                != winners.drop_last()[k2]);
        lemma_reaching_distinct(pots, winners.drop_last(), t);
        let rest = spec_winners_reaching(pots, winners.drop_last(), t);
        let r = spec_winners_reaching(pots, winners, t);
        assert forall|a: int| 0 <= a < r.len() implies winners.contains(#[trigger] r[a]) by {
            if a < rest.len() {
                assert(winners.drop_last().contains(rest[a]));
                let j = choose|j: int|
                    0 <= j < winners.drop_last().len() && winners.drop_last()[j] == rest[a];
                assert(winners[j] == rest[a]);
            } else {
                assert(r[a] == winners.last());
            }
        }
        assert forall|a: int, b: int| 0 <= a < b < r.len() implies r[a] != r[b] by {
            if b == rest.len() && pots[winners.last() as int]@ >= t {
                assert(winners.drop_last().contains(rest[a]));
                let j = choose|j: int|
                    0 <= j < winners.drop_last().len() && winners.drop_last()[j] == rest[a];
                assert(winners[j] == rest[a]);
                assert(winners[j] != winners[winners.len() - 1]);
            }
        }
    }
}

/// Fold the side pots over the ascending contribution tiers: each tier's
/// pot, the capped contributions between the previous tier and this one, is
/// shared pro rata among the winners whose contribution reaches the tier.
pub open spec fn spec_settle_tiers(
    funds: Seq<int>,
    pots: Seq<Money>,
    winners: Seq<SeatId>,
    tiers: Seq<u32>,
    t_last: int,
) -> Seq<int>
    decreases tiers.len(),
{
    if tiers.len() == 0 {
        funds
    } else {
        let t = tiers[0] as int;
        let side = spec_sum_min(pots, t) - spec_sum_min(pots, t_last);
        let ws = spec_winners_reaching(pots, winners, t);
        spec_settle_tiers(spec_prorata(funds, ws, side), pots, winners, tiers.skip(1), t)
    }
}

/// Return to every seat whatever it contributed beyond the cap `t`.
pub open spec fn spec_refund_over(funds: Seq<int>, pots: Seq<Money>, t: int) -> Seq<int> {
    Seq::new(
        funds.len(),
        |s: int|
            funds[s] + if pots[s]@ > t {
                pots[s]@ - t
            } else {
                0
            },
    )
}

/// Distribute the final pots to the winning seats. When no winner is
/// short-stacked below the table's biggest pot, the whole pot is shared
/// pro rata among the winners; otherwise side pots are built per distinct
/// winner contribution tier, each shared among the winners whose
/// contribution reaches it, and any contribution beyond the biggest winner
/// pot is refunded to its seat. The total money across funds and pots is
/// conserved exactly.
#[verifier::loop_isolation(false)]
#[verifier::rlimit(100)]
pub fn funds_update<AC: ActionClass>(
    sim: &Sim<AC>,
    player_funds: &mut Vec<Money>,
    player_pots: &Vec<Money>,
    winners: &Vec<SeatId>,
)
    requires
        old(player_funds)@.len() == sim.profile.players,
        player_pots@.len() == sim.profile.players,
        sim.profile.players >= 1,
        1 <= winners@.len() <= u32::MAX,
        forall|k: int| 0 <= k < winners@.len() ==> (#[trigger] winners@[k]) < sim.profile.players,
        forall|k1: int, k2: int| 0 <= k1 < k2 < winners@.len() ==> winners@[k1] != winners@[k2],
        spec_money_sum(old(player_funds)@) + spec_money_sum(player_pots@) <= u32::MAX,
    ensures
        final(player_funds)@.len() == sim.profile.players,
        spec_money_sum(final(player_funds)@) == spec_money_sum(old(player_funds)@)
            + spec_money_sum(player_pots@),
        forall|s: int|
            0 <= s < sim.profile.players ==> final(player_funds)@[s]@ >= old(player_funds)@[s]@,
        forall|s: int|
            0 <= s < sim.profile.players && !winners@.contains(s as usize) && player_pots@[s]@
                <= spec_winners_pot_max(player_pots@, winners@) ==> final(player_funds)@[s] == old(
                player_funds)@[s],
        forall|s: int|
            0 <= s < sim.profile.players && !winners@.contains(s as usize) && player_pots@[s]@
                > spec_winners_pot_max(player_pots@, winners@) ==> final(player_funds)@[s]@ == old(
                player_funds)@[s]@ + player_pots@[s]@ - spec_winners_pot_max(
                player_pots@,
                winners@,
            ),
        // No winner short of the biggest pot: one pro-rata share of the
        // whole pot.
        (forall|k: int|
            0 <= k < winners@.len() ==> player_pots@[(#[trigger] winners@[k]) as int]@
                == crate::money::spec_money_max(player_pots@)) ==> spec_views(
            final(player_funds)@,
        ) == spec_prorata(
            spec_views(old(player_funds)@),
            winners@,
            spec_money_sum(player_pots@),
        ),
        // A winner is short: the side pots are folded over the ascending
        // distinct winner contribution tiers, and contributions beyond the
        // biggest winner pot come back to their seats.
        (exists|k: int|
            0 <= k < winners@.len() && player_pots@[(#[trigger] winners@[k]) as int]@
                != crate::money::spec_money_max(player_pots@)) ==> (exists|tiers: Seq<u32>|
            {
                &&& (forall|a: int, b: int| 0 <= a < b < tiers.len() ==> tiers[a] < tiers[b])
                &&& (forall|u: u32|
                    tiers.contains(u) <==> (exists|k: int|
                        0 <= k < winners@.len() && player_pots@[(#[trigger] winners@[k]) as int]@
                            == u))
                &&& spec_views(final(player_funds)@) == spec_refund_over(
                    spec_settle_tiers(
                        spec_views(old(player_funds)@),
                        player_pots@,
                        winners@,
                        tiers,
                        0,
                    ),
                    player_pots@,
                    spec_winners_pot_max(player_pots@, winners@),
                )
            }),
{
    let players = sim.profile.players;
    let ghost funds0 = old(player_funds)@;
    let ghost pots = player_pots@;
    let ghost wpm = spec_winners_pot_max(pots, winners@);
    proof {
        lemma_winners_pot_max_is_max(pots, winners@);
        crate::money::lemma_money_sum_nonneg(funds0);
        crate::money::lemma_money_sum_nonneg(pots);
    }

    let player_pots_max = Money::max_of(player_pots);

    let mut short = false;
    let mut i: usize = 0;
    while i < winners.len()
        invariant
            i <= winners@.len(),
            short <==> exists|k: int|
                0 <= k < i && pots[(#[trigger] winners@[k]) as int]@ != player_pots_max@,
        decreases winners@.len() - i,
    {
        if player_pots[winners[i]].unpack() != player_pots_max.unpack() {
            short = true;
            assert(pots[winners@[i as int] as int]@ != player_pots_max@);
        }
        i += 1;
    }

    if !short {
        // No winner is short: distribute the whole pot pro rata.
        proof {
            assert(wpm == player_pots_max@) by {
                let k = choose|k: int|
                    0 <= k < winners@.len() && pots[(#[trigger] winners@[k]) as int]@ == wpm;
                assert(pots[winners@[0] as int]@ == player_pots_max@);
            }
        }
        let mut pot: u32 = 0;
        let mut s: usize = 0;
        while s < players
            invariant
                s <= players,
                pot == spec_money_sum(pots.take(s as int)),
            decreases players - s,
        {
            proof {
                crate::money::lemma_money_sum_take_succ(pots, s as int);
                crate::money::lemma_money_sum_take_le(pots, s + 1);
            }
            pot = pot + player_pots[s].unpack();
            s += 1;
        }
        proof {
            assert(pots.take(players as int) =~= pots);
        }
        prorata(player_funds, winners, pot);
        proof {
            assert forall|s2: int| 0 <= s2 < players implies pots[s2]@ <= wpm by {
                crate::money::lemma_money_max_is_max(pots);
            }
            assert(pot as int == spec_money_sum(pots));
        }
    } else {
        // A winner is short: build the distinct winner-contribution tiers.
        let mut xs: Vec<u32> = Vec::new();
        let mut i: usize = 0;
        while i < winners.len()
            invariant
                i <= winners@.len(),
                xs@.len() <= i,
                forall|a: int, b: int| 0 <= a < b < xs@.len() ==> xs@[a] < xs@[b],
                forall|u: u32|
                    xs@.contains(u) <==> exists|k: int|
                        0 <= k < i && pots[(#[trigger] winners@[k]) as int]@ == u,
            decreases winners@.len() - i,
        {
            let v = player_pots[winners[i]].unpack();
            let mut j: usize = 0;
            while j < xs.len() && xs[j] < v
                invariant
                    j <= xs@.len(),
                    forall|a: int| 0 <= a < j ==> xs@[a] < v,
                decreases xs@.len() - j,
            {
                j += 1;
            }
            let ghost xs_before = xs@;
            assert(xs_before == xs@);
            if j == xs.len() || xs[j] != v {
                xs.insert(j, v);
                proof {
                    assert(xs@ == xs_before.insert(j as int, v));
                    assert forall|u: u32| xs@.contains(u) implies (xs_before.contains(u) || u
                        == v) by {
                        let w = choose|w: int| 0 <= w < xs@.len() && xs@[w] == u;
                        if w < j {
                            assert(xs_before[w] == u);
                        } else if w > j {
                            assert(xs_before[w - 1] == u);
                        }
                    }
                    assert forall|u: u32| xs_before.contains(u) implies xs@.contains(u) by {
                        let w = choose|w: int| 0 <= w < xs_before.len() && xs_before[w] == u;
                        if w < j {
                            assert(xs@[w] == u);
                        } else {
                            assert(xs@[w + 1] == u);
                        }
                    }
                    assert(xs@.contains(v)) by {
                        assert(xs@[j as int] == v);
                    }
                    // sortedness is kept: entries before j are below v, the
                    // entry after j (old entry at j) is above v
                    assert forall|a: int, b: int| 0 <= a < b < xs@.len() implies xs@[a]
                        < xs@[b] by {
                        if a < j && b == j {
                        } else if a == j && b > j {
                            assert(xs@[b] == xs_before[b - 1]);
                            if b - 1 == j {
                                assert(xs_before[j as int] != v && !(xs_before[j as int] < v));
                            } else {
                                assert(xs_before[j as int] < xs_before[b - 1]);
                                assert(!(xs_before[j as int] < v));
                            }
                        } else if a < j && b > j {
                            assert(xs@[a] == xs_before[a]);
                            assert(xs@[b] == xs_before[b - 1]);
                            if b - 1 == a {
                                assert(xs@[a] < v);
                            }
                        } else if a > j && b > j {
                            assert(xs@[a] == xs_before[a - 1] && xs@[b] == xs_before[b - 1]);
                        }
                    }
                }
            } else {
                proof {
                    assert(xs@.contains(v)) by {
                        assert(xs@[j as int] == v);
                    }
                }
            }
            proof {
                assert(v == pots[winners@[i as int] as int]@);
                assert forall|u: u32| xs@.contains(u) implies exists|k: int|
                    0 <= k < i + 1 && pots[(#[trigger] winners@[k]) as int]@ == u by {
                    if xs_before.contains(u) {
                        let k = choose|k: int|
                            0 <= k < i && pots[(#[trigger] winners@[k]) as int]@ == u;
                        assert(pots[winners@[k] as int]@ == u);
                    } else {
                        assert(u == v);
                        assert(pots[winners@[i as int] as int]@ == u);
                    }
                }
                assert forall|u: u32| (exists|k: int|
                    0 <= k < i + 1 && pots[(#[trigger] winners@[k]) as int]@ == u) implies
                    xs@.contains(u) by {
                    let k = choose|k: int|
                        0 <= k < i + 1 && pots[(#[trigger] winners@[k]) as int]@ == u;
                    if k < i {
                        assert(xs_before.contains(u));
                    } else {
                        assert(u == v);
                    }
                }
            }
            i += 1;
        }

        proof {
            // The last tier is the biggest winner pot.
            let k = choose|k: int|
                0 <= k < winners@.len() && pots[(#[trigger] winners@[k]) as int]@ == wpm;
            assert(xs@.contains(wpm as u32));
            assert(xs@.len() >= 1);
            let w = choose|w: int| 0 <= w < xs@.len() && xs@[w] == wpm as u32;
            assert forall|a: int| 0 <= a < xs@.len() implies xs@[a] <= wpm by {
                assert(xs@.contains(xs@[a]));
                let kk = choose|kk: int|
                    0 <= kk < winners@.len() && pots[(#[trigger] winners@[kk]) as int]@ == xs@[a];
                assert(pots[winners@[kk] as int]@ <= wpm);
            }
            assert(xs@[xs@.len() - 1] == wpm) by {
                if w < xs@.len() - 1 {
                    assert(xs@[w] < xs@[xs@.len() - 1]);
                }
            }
        }
        let winners_target: u32 = xs[xs.len() - 1];

        let ghost sum0 = spec_money_sum(funds0);
        let ghost views0v = spec_views(funds0);
        proof {
            lemma_sum_min_zero(pots);
            assert(xs@.skip(0) =~= xs@);
        }
        let mut pot_target_last: u32 = 0;
        let mut ti: usize = 0;
        while ti < xs.len()
            invariant
                ti <= xs@.len(),
                player_funds@.len() == players,
                pot_target_last == if ti == 0 {
                    0
                } else {
                    xs@[ti - 1] as int
                },
                forall|a: int| ti <= a < xs@.len() ==> pot_target_last <= xs@[a],
                spec_money_sum(player_funds@) == sum0 + spec_sum_min(pots, pot_target_last as int),
                forall|s: int| 0 <= s < players ==> player_funds@[s]@ >= funds0[s]@,
                forall|s: int|
                    0 <= s < players && !winners@.contains(s as usize) ==> player_funds@[s]
                        == funds0[s],
                spec_settle_tiers(
                    spec_views(player_funds@),
                    pots,
                    winners@,
                    xs@.skip(ti as int),
                    pot_target_last as int,
                ) == spec_settle_tiers(views0v, pots, winners@, xs@, 0),
            decreases xs@.len() - ti,
        {
            let t = xs[ti];
            let ghost t_last = pot_target_last as int;

            let mut pot_side: u32 = 0;
            let mut s: usize = 0;
            while s < players
                invariant
                    s <= players,
                    pot_side == spec_sum_min(pots.take(s as int), t as int) - spec_sum_min(
                        pots.take(s as int),
                        t_last,
                    ),
                decreases players - s,
            {
                proof {
                    lemma_sum_min_take_succ(pots, t as int, s as int);
                    lemma_sum_min_take_succ(pots, t_last, s as int);
                    lemma_sum_min_take_le(pots, t as int, s + 1);
                    lemma_sum_min_mono(pots.take(s + 1), t_last, t as int);
                    lemma_sum_min_le_sum(pots, t as int);
                    lemma_sum_min_mono(pots.take(s as int), t_last, t as int);
                    lemma_sum_min_zero(pots.take(s as int));
                    lemma_sum_min_mono(pots.take(s as int), 0, t_last);
                }
                let p = player_pots[s].unpack();
                if p > 0 {
                    if p >= t {
                        pot_side = pot_side + (t - pot_target_last);
                    } else if p > pot_target_last {
                        pot_side = pot_side + (p - pot_target_last);
                    }
                }
                s += 1;
            }
            proof {
                assert(pots.take(players as int) =~= pots);
            }

            let mut winners_side: Vec<SeatId> = Vec::new();
            let mut w: usize = 0;
            while w < winners.len()
                invariant
                    w <= winners@.len(),
                    winners_side@.len() <= w,
                    forall|a: int|
                        0 <= a < winners_side@.len() ==> winners@.contains(
                            #[trigger] winners_side@[a],
                        ) && winners_side@[a] < players,
                    (exists|k: int|
                        0 <= k < w && pots[(#[trigger] winners@[k]) as int]@ >= t)
                        ==> winners_side@.len() >= 1,
                    winners_side@ == spec_winners_reaching(pots, winners@.take(w as int), t as int),
                decreases winners@.len() - w,
            {
                proof {
                    assert(winners@.take(w + 1).drop_last() =~= winners@.take(w as int));
                    assert(winners@.take(w + 1).last() == winners@[w as int]);
                }
                let wi = winners[w];
                if player_pots[wi].unpack() >= t {
                    winners_side.push(wi);
                    assert(winners@.contains(wi));
                }
                w += 1;
            }
            proof {
                // The tier value is some winner's pot, so the side list is
                // not empty.
                assert(xs@.contains(t)) by {
                    assert(xs@[ti as int] == t);
                }
                let k = choose|k: int|
                    0 <= k < winners@.len() && pots[(#[trigger] winners@[k]) as int]@ == t;
                assert(pots[winners@[k] as int]@ >= t);
                lemma_sum_min_le_sum(pots, t as int);
                lemma_sum_min_zero(pots);
                lemma_sum_min_mono(pots, 0, t_last);
                lemma_sum_min_mono(pots, t_last, t as int);
                assert(winners@.take(winners@.len() as int) =~= winners@);
                assert(winners_side@ == spec_winners_reaching(pots, winners@, t as int));
                lemma_reaching_distinct(pots, winners@, t as int);
            }
            let ghost views_cur = spec_views(player_funds@);
            prorata(player_funds, &winners_side, pot_side);
            proof {
                // One tier of the fold was applied: the remaining fold over
                // the later tiers still reaches the same result.
                assert(pot_side as int == spec_sum_min(pots, t as int) - spec_sum_min(
                    pots,
                    t_last,
                ));
                assert(xs@.skip(ti as int)[0] == xs@[ti as int]);
                assert(xs@.skip(ti as int).skip(1) =~= xs@.skip(ti + 1));
                assert(xs@.skip(ti as int).len() > 0);
                assert(spec_settle_tiers(views_cur, pots, winners@, xs@.skip(ti as int), t_last)
                    == spec_settle_tiers(
                    spec_prorata(views_cur, winners_side@, pot_side as int),
                    pots,
                    winners@,
                    xs@.skip(ti + 1),
                    t as int,
                ));
                assert(spec_views(player_funds@) == spec_prorata(
                    views_cur,
                    winners_side@,
                    pot_side as int,
                ));
            }
            pot_target_last = t;
            proof {
                assert forall|a: int| ti + 1 <= a < xs@.len() implies pot_target_last
                    <= xs@[a] by {
                    if a > ti {
                        assert(xs@[ti as int] < xs@[a]);
                    }
                }
            }
            ti += 1;
        }

        // Give back what nobody could win: contributions beyond the biggest
        // winner pot return to their seats.
        let ghost funds_tiers = player_funds@;
        let ghost sum_tiers = spec_money_sum(funds_tiers);
        proof {
            assert(pot_target_last == winners_target);
            assert(winners_target as int == wpm);
            // The whole tier fold is done: the funds now stand at its result.
            assert(xs@.skip(xs@.len() as int) =~= Seq::<u32>::empty());
            assert(spec_views(funds_tiers) == spec_settle_tiers(views0v, pots, winners@, xs@, 0));
        }
        let mut s: usize = 0;
        while s < players
            invariant
                s <= players,
                player_funds@.len() == players,
                spec_money_sum(player_funds@) == sum_tiers + spec_sum_over(
                    pots.take(s as int),
                    wpm,
                ),
                forall|u: int| s <= u < players ==> player_funds@[u] == funds_tiers[u],
                forall|u: int|
                    0 <= u < s && pots[u]@ <= wpm ==> player_funds@[u] == funds_tiers[u],
                forall|u: int|
                    0 <= u < s && pots[u]@ > wpm ==> player_funds@[u]@ == funds_tiers[u]@
                        + pots[u]@ - wpm,
                forall|u: int| 0 <= u < players ==> player_funds@[u]@ >= funds_tiers[u]@,
            decreases players - s,
        {
            proof {
                lemma_sum_over_take_succ(pots, wpm, s as int);
                lemma_sum_over_take_le(pots, wpm, s + 1);
                lemma_sum_over_nonneg(pots, wpm);
                lemma_sum_min_over_split(pots, wpm);
                lemma_sum_min_le_sum(pots, wpm);
                crate::money::lemma_money_sum_elem(player_funds@, s as int);
                lemma_sum_over_take_le(pots, wpm, s as int);
            }
            if player_pots[s].unpack() > winners_target {
                let refund = Money::from_u32(player_pots[s].unpack() - winners_target);
                let bumped = player_funds[s].plus(refund);
                let ghost before = player_funds@;
                player_funds.set(s, bumped);
                proof {
                    crate::money::lemma_money_sum_update(before, player_funds@, s as int);
                }
            }
            s += 1;
        }
        proof {
            assert(pots.take(players as int) =~= pots);
            lemma_sum_min_over_split(pots, wpm);
            // The refunds on top of the fold give the advertised outcome.
            assert(spec_views(player_funds@) =~= spec_refund_over(
                spec_views(funds_tiers),
                pots,
                wpm,
            ));
            let tiers_w = xs@;
            assert((forall|a: int, b: int| 0 <= a < b < tiers_w.len() ==> tiers_w[a] < tiers_w[b])
                && (forall|u: u32|
                tiers_w.contains(u) <==> (exists|k: int|
                    0 <= k < winners@.len() && pots[(#[trigger] winners@[k]) as int]@ == u))
                && spec_views(player_funds@) == spec_refund_over(
                spec_settle_tiers(spec_views(funds0), pots, winners@, tiers_w, 0),
                pots,
                spec_winners_pot_max(pots, winners@),
            ));
        }
    }
}

/// Compute what happens after a seat's action: the hand ends, the round
/// closes and a new one opens, or play continues at the next active seat.
#[verifier::loop_isolation(false)]
pub fn table_next<AC: ActionClass>(
    sim: &Sim<AC>,
    player_pots: &Vec<Money>,
    player_states: &Vec<State>,
    table_target: &Money,
    table_target_raise: &mut Money,
    table_target_by: &mut Option<usize>,
    dealer: usize,
    round_id: usize,
    seat_id: usize,
) -> (r: Result<usize, Option<usize>>)
    requires
        sim.profile.players >= 1,
        player_pots@.len() == sim.profile.players,
        player_states@.len() == sim.profile.players,
        dealer < sim.profile.players,
        seat_id < sim.profile.players,
        round_id < sim.profile.rounds@.len(),
    ensures
        ({
            let p = sim.profile.players as int;
            let cnt = spec_active_count(player_states@);
            let hand_over = cnt == 0 || (cnt == 1 && (forall|s: int|
                0 <= s < p && state_active(player_states@[s]) ==> player_pots@[s]@
                    >= table_target@));
            let step = spec_first_active_step(player_states@, p, seat_id as int, 0);
            let nxt = spec_walk(p, seat_id as int, step);
            let dstep = spec_first_active_step(player_states@, p, dealer as int, 0);
            let init = spec_walk(p, dealer as int, dstep);
            if hand_over {
                r == Err::<usize, Option<usize>>(None) && *final(table_target_raise) == *old(table_target_raise) && *final(table_target_by) == *old(table_target_by)
            } else if *old(table_target_by) == Some(nxt as usize) {
                if round_id == sim.profile.rounds@.len() - 1 {
                    r == Err::<usize, Option<usize>>(None) && *final(table_target_raise) == *old(table_target_raise) && *final(table_target_by) == *old(table_target_by)
                } else {
                    &&& r == Err::<usize, Option<usize>>(Some(init as usize))
                    &&& *final(table_target_raise) == sim.blind_biggest
                    &&& *final(table_target_by) == Some(init as usize)
                    &&& 0 <= init < p
                    &&& state_active(player_states@[init])
                }
            } else {
                &&& r == Ok::<usize, Option<usize>>(nxt as usize)
                &&& *final(table_target_raise) == *old(table_target_raise)
                &&& *final(table_target_by) == *old(table_target_by)
                &&& 0 <= nxt < p
                &&& state_active(player_states@[nxt])
            }
        }),
{
    let players = sim.profile.players;
    let actives = player_actives(player_states);

    if actives.len() == 0 || (actives.len() == 1 && player_pots[actives[0]].unpack()
        >= table_target.unpack()) {
        proof {
            if actives@.len() == 1 {
                assert forall|s: int|
                    0 <= s < players && state_active(player_states@[s]) implies player_pots@[s]@
                    >= table_target@ by {
                    assert(actives@.contains(s as usize));
                    let w = choose|w: int| 0 <= w < actives@.len() && actives@[w] == s as usize;
                    assert(w == 0);
                }
            }
        }
        Err(None)
    } else {
        let seat_id_next = match seat_next_active(players, &actives, seat_id) {
            Some(s) => s,
            None => {
                proof {
                    lemma_walk_covers(players as int, seat_id as int, actives@[0] as int);
                    let kk = choose|kk: int|
                        0 <= kk < players && spec_walk(players as int, seat_id as int, kk)
                            == actives@[0] as int;
                    assert(actives@.contains(actives@[0]));
                    assert(!actives@.contains(
                        spec_walk(players as int, seat_id as int, kk) as usize,
                    ));
                }
                0
            },
        };
        proof {
            let k = choose|k: int|
                {
                    &&& 0 <= k < players
                    &&& seat_id_next as int == spec_walk(players as int, seat_id as int, k)
                    &&& actives@.contains(seat_id_next)
                    &&& forall|j: int|
                        0 <= j < k ==> !actives@.contains(
                            spec_walk(players as int, seat_id as int, j) as usize,
                        )
                };
            assert forall|j: int| 0 <= j < k implies !(0 <= spec_walk(
                players as int,
                seat_id as int,
                j,
            ) < player_states@.len() && state_active(
                player_states@[spec_walk(players as int, seat_id as int, j)],
            )) by {
                lemma_walk_formula(players as int, seat_id as int, j);
                if state_active(player_states@[spec_walk(players as int, seat_id as int, j)]) {
                    assert(actives@.contains(
                        spec_walk(players as int, seat_id as int, j) as usize,
                    ));
                }
            }
            let w = choose|w: int| 0 <= w < actives@.len() && actives@[w] == seat_id_next;
            lemma_first_active_step_found(
                player_states@,
                players as int,
                seat_id as int,
                0,
                k,
            );
        }

        let matches_by = match table_target_by {
            Some(b) => *b == seat_id_next,
            None => false,
        };
        if matches_by {
            if round_id == sim.profile.rounds.len() - 1 {
                Err(None)
            } else {
                let seat_id_init = match seat_next_active(players, &actives, dealer) {
                    Some(s) => s,
                    None => {
                        proof {
                            lemma_walk_covers(players as int, dealer as int, actives@[0] as int);
                            let kk = choose|kk: int|
                                0 <= kk < players && spec_walk(players as int, dealer as int, kk)
                                    == actives@[0] as int;
                            assert(actives@.contains(actives@[0]));
                            assert(!actives@.contains(
                                spec_walk(players as int, dealer as int, kk) as usize,
                            ));
                        }
                        0
                    },
                };
                proof {
                    let k = choose|k: int|
                        {
                            &&& 0 <= k < players
                            &&& seat_id_init as int == spec_walk(players as int, dealer as int, k)
                            &&& actives@.contains(seat_id_init)
                            &&& forall|j: int|
                                0 <= j < k ==> !actives@.contains(
                                    spec_walk(players as int, dealer as int, j) as usize,
                                )
                        };
                    assert forall|j: int| 0 <= j < k implies !(0 <= spec_walk(
                        players as int,
                        dealer as int,
                        j,
                    ) < player_states@.len() && state_active(
                        player_states@[spec_walk(players as int, dealer as int, j)],
                    )) by {
                        lemma_walk_formula(players as int, dealer as int, j);
                        if state_active(
                            player_states@[spec_walk(players as int, dealer as int, j)],
                        ) {
                            assert(actives@.contains(
                                spec_walk(players as int, dealer as int, j) as usize,
                            ));
                        }
                    }
                    let w = choose|w: int|
                        0 <= w < actives@.len() && actives@[w] == seat_id_init;
                    lemma_first_active_step_found(
                        player_states@,
                        players as int,
                        dealer as int,
                        0,
                        k,
                    );
                }
                *table_target_raise = sim.blind_biggest;
                *table_target_by = Some(seat_id_init);
                Err(Some(seat_id_init))
            }
        } else {
            Ok(seat_id_next)
        }
    }
}

/// A fund vector that holds money exactly at the listed seats holds, in
/// total, exactly the listed values.
pub proof fn lemma_indexed_sum(
    seats: Seq<SeatId>,
    values: Seq<Money>,
    funds: Seq<Money>,
    zero: Money,
)
    requires
        zero@ == 0,
        seats.len() == values.len(),
        forall|k1: int, k2: int| 0 <= k1 < k2 < seats.len() ==> seats[k1] != seats[k2],
        forall|k: int| 0 <= k < seats.len() ==> (#[trigger] seats[k]) < funds.len(),
        forall|k: int| 0 <= k < seats.len() ==> funds[(#[trigger] seats[k]) as int] == values[k],
        forall|s: int|
            0 <= s < funds.len() && (forall|k: int|
                0 <= k < seats.len() ==> (#[trigger] seats[k]) != s) ==> funds[s]@ == 0,
    ensures
        spec_money_sum(funds) == spec_money_sum(values),
    decreases seats.len(),
{
    if seats.len() == 0 {
        assert forall|s: int| 0 <= s < funds.len() implies funds[s]@ == 0 by {
        }
        lemma_zero_sum(funds);
    } else {
        let last_seat = seats.last();
        let funds2 = funds.update(last_seat as int, zero);
        assert forall|k: int| 0 <= k < seats.len() - 1 implies funds2[(#[trigger] seats.drop_last(
        )[k]) as int] == values.drop_last()[k] by {
            assert(seats[k] != last_seat);
        }
        assert forall|s: int|
            0 <= s < funds2.len() && (forall|k: int|
                0 <= k < seats.drop_last().len() ==> (#[trigger] seats.drop_last()[k]) != s)
            implies funds2[s]@ == 0 by {
            if s == last_seat {
            } else {
                assert forall|k: int| 0 <= k < seats.len() implies (#[trigger] seats[k]) != s by {
                    if k < seats.len() - 1 {
                        assert(seats.drop_last()[k] == seats[k]);
                    }
                }
            }
        }
        lemma_indexed_sum(seats.drop_last(), values.drop_last(), funds2, zero);
        crate::money::lemma_money_sum_update(funds, funds2, last_seat as int);
    }
}

proof fn lemma_zero_sum(funds: Seq<Money>)
    requires
        forall|s: int| 0 <= s < funds.len() ==> funds[s]@ == 0,
    ensures
        spec_money_sum(funds) == 0,
    decreases funds.len(),
{
    if funds.len() > 0 {
        lemma_zero_sum(funds.drop_last());
    }
}

/// Some finalist among the first `bound` holds this seat and this score.
pub open spec fn spec_winner_at<EV: Eval>(
    ev: EV,
    table: Seq<Card>,
    finalists: Seq<(usize, Vec<Card>, bool)>,
    seat: SeatId,
    score: int,
    bound: int,
) -> bool {
    exists|j: int|
        0 <= j < bound && (#[trigger] finalists[j]).0 == seat && ev.score_spec(
            table + finalists[j].1@,
        ) == score
}

/// Collect the seats still in the hand, score each over the community
/// cards, and elect the winners: with two or more finalists, the seats
/// whose hands reach the highest score; with fewer, the finalists
/// themselves, unscored.
#[verifier::loop_isolation(false)]
pub fn game_finish<EV: Eval>(
    evaluator: &EV,
    table_cards: &Vec<Card>,
    player_states: &Vec<State>,
) -> (r: (Vec<(usize, Vec<Card>, bool)>, Vec<SeatId>, u64))
    requires
        forall|s: int|
            0 <= s < player_states@.len() ==> ((#[trigger] player_states@[s])
                matches State::Play { cards, .. } ==> table_cards@.len() + cards@.len()
                <= u32::MAX),
    ensures
        ({
            let (finalists, winners, winners_score) = r;
            &&& forall|i: int|
                0 <= i < finalists@.len() ==> {
                    let (s, cs, ai) = #[trigger] finalists@[i];
                    &&& s < player_states@.len()
                    &&& (player_states@[s as int] matches State::Play { cards, all_in } && cs@
                        == cards@ && ai == all_in)
                }
            &&& forall|s: SeatId|
                s < player_states@.len() && state_in_hand(player_states@[s as int])
                    ==> exists|i: int|
                    0 <= i < finalists@.len() && (#[trigger] finalists@[i]).0 == s
            &&& forall|i: int, j: int|
                0 <= i < j < finalists@.len() ==> finalists@[i].0 < finalists@[j].0
            &&& winners@.len() <= finalists@.len()
            &&& forall|i: int, j: int| 0 <= i < j < winners@.len() ==> winners@[i] < winners@[j]
            &&& if finalists@.len() > 1 {
                &&& winners@.len() >= 1
                &&& forall|k: int|
                    0 <= k < winners@.len() ==> spec_winner_at(
                        *evaluator,
                        table_cards@,
                        finalists@,
                        #[trigger] winners@[k],
                        winners_score as int,
                        finalists@.len() as int,
                    )
                &&& forall|i: int|
                    0 <= i < finalists@.len() ==> evaluator.score_spec(
                        table_cards@ + (#[trigger] finalists@[i]).1@,
                    ) <= winners_score
                &&& forall|i: int|
                    0 <= i < finalists@.len() && evaluator.score_spec(
                        table_cards@ + (#[trigger] finalists@[i]).1@,
                    ) == winners_score ==> winners@.contains(finalists@[i].0)
            } else {
                &&& winners_score == 0
                &&& winners@.len() == finalists@.len()
                &&& forall|k: int|
                    0 <= k < winners@.len() ==> winners@[k] == finalists@[k].0
            }
        }),
{
    let mut finalists: Vec<(usize, Vec<Card>, bool)> = Vec::new();
    let mut s: usize = 0;
    while s < player_states.len()
        invariant
            s <= player_states@.len(),
            forall|i: int|
                0 <= i < finalists@.len() ==> {
                    let (fs, cs, ai) = #[trigger] finalists@[i];
                    &&& fs < s
                    &&& (player_states@[fs as int] matches State::Play { cards, all_in } && cs@
                        == cards@ && ai == all_in)
                },
            forall|t: SeatId|
                t < s && state_in_hand(player_states@[t as int]) ==> exists|i: int|
                    0 <= i < finalists@.len() && (#[trigger] finalists@[i]).0 == t,
            forall|i: int, j: int|
                0 <= i < j < finalists@.len() ==> finalists@[i].0 < finalists@[j].0,
        decreases player_states@.len() - s,
    {
        let entry = match &player_states[s] {
            State::Play { cards, all_in } => Some((s, copy_cards(cards), *all_in)),
            _ => None,
        };
        if let Some(e) = entry {
            let ghost before = finalists@;
            finalists.push(e);
            assert(finalists@[finalists@.len() - 1].0 == s);
            assert(forall|i: int| 0 <= i < before.len() ==> finalists@[i] == before[i]);
        }
        s += 1;
    }

    let mut winners: Vec<SeatId> = Vec::new();
    let mut winners_score: u64 = 0;

    if finalists.len() > 1 {
        let mut i: usize = 0;
        while i < finalists.len()
            invariant
                i <= finalists@.len(),
                forall|j: int|
                    0 <= j < i ==> evaluator.score_spec(
                        table_cards@ + (#[trigger] finalists@[j]).1@,
                    ) <= winners_score,
                forall|k: int|
                    0 <= k < winners@.len() ==> spec_winner_at(
                        *evaluator,
                        table_cards@,
                        finalists@,
                        #[trigger] winners@[k],
                        winners_score as int,
                        i as int,
                    ),
                forall|j: int|
                    0 <= j < i && evaluator.score_spec(
                        table_cards@ + (#[trigger] finalists@[j]).1@,
                    ) == winners_score ==> winners@.contains(finalists@[j].0),
                i >= 1 ==> winners@.len() >= 1,
                i == 0 ==> winners_score == 0 && winners@.len() == 0,
                winners@.len() <= i,
                forall|a: int, b: int| 0 <= a < b < winners@.len() ==> winners@[a] < winners@[b],
            decreases finalists@.len() - i,
        {
            let (seat_id, player_cards, _) = &finalists[i];
            let mut hand: Vec<Card> = Vec::new();
            let mut c: usize = 0;
            while c < table_cards.len()
                invariant
                    c <= table_cards@.len(),
                    hand@ =~= table_cards@.take(c as int),
                decreases table_cards@.len() - c,
            {
                hand.push(table_cards[c]);
                c += 1;
            }
            assert(hand@ =~= table_cards@);
            let mut c2: usize = 0;
            while c2 < player_cards.len()
                invariant
                    c2 <= player_cards@.len(),
                    hand@ =~= table_cards@ + player_cards@.take(c2 as int),
                decreases player_cards@.len() - c2,
            {
                hand.push(player_cards[c2]);
                c2 += 1;
            }
            assert(hand@ =~= table_cards@ + player_cards@);

            let score = evaluator.score(&hand);
            let ghost fscore = evaluator.score_spec(table_cards@ + finalists@[i as int].1@);
            proof {
                assert(hand@ == table_cards@ + finalists@[i as int].1@);
                assert(score == fscore);
            }
            if score >= winners_score {
                if score == winners_score {
                    let ghost before = winners@;
                    winners.push(*seat_id);
                    proof {
                        assert(winners@[winners@.len() - 1] == finalists@[i as int].0);
                        assert(forall|k: int| 0 <= k < before.len() ==> winners@[k] == before[k]);
                        assert forall|k: int| 0 <= k < winners@.len() implies spec_winner_at(
                            *evaluator,
                            table_cards@,
                            finalists@,
                            winners@[k],
                            winners_score as int,
                            i + 1,
                        ) by {
                            if k < before.len() {
                                assert(spec_winner_at(
                                    *evaluator,
                                    table_cards@,
                                    finalists@,
                                    winners@[k],
                                    winners_score as int,
                                    i as int,
                                ));
                                let j = choose|j: int|
                                    0 <= j < i && (#[trigger] finalists@[j]).0 == winners@[k]
                                        && evaluator.score_spec(table_cards@ + finalists@[j].1@)
                                        == winners_score;
                                assert((finalists@[j]).0 == winners@[k] && 0 <= j < i + 1);
                            } else {
                                assert((finalists@[i as int]).0 == winners@[k]
                                    && evaluator.score_spec(
                                    table_cards@ + finalists@[i as int].1@,
                                ) == winners_score);
                            }
                        }
                        assert forall|j: int|
                            0 <= j < i + 1 && evaluator.score_spec(
                                table_cards@ + (#[trigger] finalists@[j]).1@,
                            ) == winners_score implies winners@.contains(finalists@[j].0) by {
                            if j < i {
                                assert(before.contains(finalists@[j].0));
                                let k = choose|k: int|
                                    0 <= k < before.len() && before[k] == finalists@[j].0;
                                assert(winners@[k] == finalists@[j].0);
                            } else {
                                assert(winners@[winners@.len() - 1] == finalists@[j].0);
                            }
                        }
                        // The appended seat is above every earlier winner,
                        // each of which belongs to an earlier finalist.
                        assert forall|a: int, b: int|
                            0 <= a < b < winners@.len() implies winners@[a] < winners@[b] by {
                            if b == winners@.len() - 1 {
                                assert(spec_winner_at(
                                    *evaluator,
                                    table_cards@,
                                    finalists@,
                                    before[a],
                                    winners_score as int,
                                    i as int,
                                ));
                                let j = choose|j: int|
                                    0 <= j < i && (#[trigger] finalists@[j]).0 == before[a]
                                        && evaluator.score_spec(table_cards@ + finalists@[j].1@)
                                        == winners_score;
                                assert(finalists@[j].0 < finalists@[i as int].0);
                                assert(winners@[a] == before[a]);
                            }
                        }
                    }
                } else {
                    winners = Vec::new();
                    winners.push(*seat_id);
                    winners_score = score;
                    proof {
                        assert(winners@[0] == finalists@[i as int].0);
                        assert forall|k: int| 0 <= k < winners@.len() implies spec_winner_at(
                            *evaluator,
                            table_cards@,
                            finalists@,
                            winners@[k],
                            winners_score as int,
                            i + 1,
                        ) by {
                            assert((finalists@[i as int]).0 == winners@[k]
                                && evaluator.score_spec(table_cards@ + finalists@[i as int].1@)
                                == winners_score);
                        }
                        assert forall|j: int|
                            0 <= j < i + 1 && evaluator.score_spec(
                                table_cards@ + (#[trigger] finalists@[j]).1@,
                            ) == winners_score implies winners@.contains(finalists@[j].0) by {
                            assert(j == i);
                        }
                    }
                }
            } else {
                proof {
                    assert forall|k: int| 0 <= k < winners@.len() implies spec_winner_at(
                        *evaluator,
                        table_cards@,
                        finalists@,
                        winners@[k],
                        winners_score as int,
                        i + 1,
                    ) by {
                        assert(spec_winner_at(
                            *evaluator,
                            table_cards@,
                            finalists@,
                            winners@[k],
                            winners_score as int,
                            i as int,
                        ));
                        let j = choose|j: int|
                            0 <= j < i && (#[trigger] finalists@[j]).0 == winners@[k]
                                && evaluator.score_spec(table_cards@ + finalists@[j].1@)
                                == winners_score;
                        assert((finalists@[j]).0 == winners@[k] && 0 <= j < i + 1);
                    }
                }
            }
            i += 1;
        }
    } else {
        let mut i: usize = 0;
        while i < finalists.len()
            invariant
                i <= finalists@.len(),
                winners@.len() == i,
                forall|k: int| 0 <= k < i ==> winners@[k] == finalists@[k].0,
            decreases finalists@.len() - i,
        {
            let (seat_id, _, _) = &finalists[i];
            winners.push(*seat_id);
            i += 1;
        }
    }

    (finalists, winners, winners_score)
}

/// Total money the dealt seats bring to the hand.
pub open spec fn spec_dealt_total(players_init: Seq<(SeatId, Money, Vec<Card>)>) -> int
    decreases players_init.len(),
{
    if players_init.len() == 0 {
        0
    } else {
        spec_dealt_total(players_init.drop_last()) + players_init.last().1@
    }
}

proof fn lemma_dealt_total_eq(players_init: Seq<(SeatId, Money, Vec<Card>)>)
    ensures
        spec_dealt_total(players_init) == spec_money_sum(
            players_init.map_values(|t: (SeatId, Money, Vec<Card>)| t.1),
        ),
    decreases players_init.len(),
{
    let mapped = players_init.map_values(|t: (SeatId, Money, Vec<Card>)| t.1);
    if players_init.len() > 0 {
        lemma_dealt_total_eq(players_init.drop_last());
        assert(players_init.drop_last().map_values(|t: (SeatId, Money, Vec<Card>)| t.1)
            =~= mapped.drop_last());
        assert(mapped.last() == players_init.last().1);
    }
}

/// Saturating product, for the action budget.
fn sat_mul(a: usize, b: usize) -> (r: usize)
    ensures
        r <= usize::MAX,
{
    if b == 0 {
        0
    } else if a > usize::MAX / b {
        usize::MAX
    } else {
        proof {
            assert(a * b <= usize::MAX) by (nonlinear_arith)
                requires
                    b >= 1 && 0 <= a <= (usize::MAX as int) / (b as int),
            ;
        }
        a * b
    }
}

/// Saturating sum, for the action budget.
fn sat_add(a: usize, b: usize) -> (r: usize)
    ensures
        r <= usize::MAX,
{
    if a > usize::MAX - b {
        usize::MAX
    } else {
        a + b
    }
}

/// A copy of the tail of the event log, from `begin` on.
fn copy_events(events: &Vec<Event>, begin: usize) -> (r: Vec<Event>)
    requires
        begin <= events@.len(),
{
    let mut r: Vec<Event> = Vec::new();
    let mut i: usize = begin;
    while i < events.len()
        invariant
            begin <= i <= events@.len(),
        decreases events@.len() - i,
    {
        let copy = match &events[i] {
            Event::Play(act) => Event::Play(*act),
            Event::Table { cards } => Event::Table { cards: copy_cards(cards) },
        };
        r.push(copy);
        i += 1;
    }
    r
}

/// Run one hand from blind posting to its terminal state, asking the
/// `Players` collaborator for each action and the `Table` collaborator for
/// each street's cards. Returns the per-round records, the event log, and
/// the final funds, pots and states, or `None` for a dead hand in which no
/// bet beyond the blinds was ever made and every posting was refunded. Any
/// rule violation or collaborator error aborts the hand with the partial
/// log. The total of funds and pots is conserved through every action.
#[verifier::loop_isolation(false)]
pub fn table_game_simulate_<AC: ActionClass, E, P: Players<E>, T: Table<E>>(
    sim: &Sim<AC>,
    players_table: &mut P,
    table: &mut T,
    players_init: &Vec<(SeatId, Money, Vec<Card>)>,
    player_first: SeatId,
) -> (r: Result<
    (Rounds, Vec<Event>, Option<(Vec<Money>, Vec<Money>, Vec<State>)>),
    (Rounds, Vec<Event>, Error<E>),
>)
    requires
        sim.wf(),
        players_init@.len() >= 1,
        forall|k: int|
            0 <= k < players_init@.len() ==> (#[trigger] players_init@[k]).0
                < sim.profile.players,
        forall|k1: int, k2: int|
            0 <= k1 < k2 < players_init@.len() ==> players_init@[k1].0 != players_init@[k2].0,
        exists|k: int|
            0 <= k < players_init@.len() && (#[trigger] players_init@[k]).0 == player_first,
        sim.profile.rounds@.len() >= 1,
        forall|rd: int|
            0 <= rd < sim.profile.rounds@.len() ==> sim.action_class.round_ok(rd),
        forall|rd: int|
            0 <= rd < sim.profile.rounds@.len() ==> spec_dealt_total(players_init@)
                + sim.action_class.raise_size(sim.blind_biggest@, rd) <= u32::MAX,
        spec_dealt_total(players_init@) <= u32::MAX,
    ensures
        (r matches Ok(t) ==> (t.2 matches Some(fin) ==> {
            let (funds, pots, states) = fin;
            &&& funds@.len() == sim.profile.players
            &&& pots@.len() == sim.profile.players
            &&& states@.len() == sim.profile.players
            &&& spec_money_sum(funds@) + spec_money_sum(pots@) == spec_dealt_total(players_init@)
            &&& forall|s: int|
                0 <= s < sim.profile.players ==> ((#[trigger] states@[s])
                    matches State::Play { cards, .. } ==> exists|k: int|
                    0 <= k < players_init@.len() && (#[trigger] players_init@[k]).0 == s && cards@
                        == players_init@[k].2@)
            &&& forall|s: int|
                0 <= s < sim.profile.players ==> ((exists|k: int|
                    0 <= k < players_init@.len() && (#[trigger] players_init@[k]).0 == s) || (
                funds@[s]@ == 0 && pots@[s]@ == 0))
        })),
        (r matches Ok(t) ==> 1 <= t.0@.len() <= sim.profile.rounds@.len()),
        (r matches Err(t) ==> t.0@.len() <= sim.profile.rounds@.len()),
        // A seat that cannot cover the biggest blind is rejected before any
        // play, with empty partial logs; the first such listed seat is
        // named, and the rejection happens only on such a seat.
        ((exists|k: int|
            0 <= k < players_init@.len() && (#[trigger] players_init@[k]).1@
                < sim.blind_biggest@) ==> (r matches Err(t) && t.0@.len() == 0 && t.1@.len() == 0
            && (exists|k: int|
            {
                &&& 0 <= k < players_init@.len()
                &&& (#[trigger] players_init@[k]).1@ < sim.blind_biggest@
                &&& (forall|j: int| 0 <= j < k ==> players_init@[j].1@ >= sim.blind_biggest@)
                &&& t.2 == Error::<E>::InsufficientBringIn { seat_id: players_init@[k].0 }
            }))),
        ((forall|k: int|
            0 <= k < players_init@.len() ==> (#[trigger] players_init@[k]).1@
                >= sim.blind_biggest@) ==> !(r matches Err(t) && t.2 matches
            Error::InsufficientBringIn { .. })),
{
    let players = sim.profile.players;
    let blind_biggest = sim.blind_biggest;

    // Equal blinds for everyone mean ante play: the target starts owned.
    let mut blinds_ante = true;
    let mut bi: usize = 0;
    while bi < sim.profile.blinds.len()
        invariant
            bi <= sim.profile.blinds@.len(),
        decreases sim.profile.blinds@.len() - bi,
    {
        if sim.profile.blinds[bi].unpack() != blind_biggest.unpack() {
            blinds_ante = false;
        }
        bi += 1;
    }

    let dealer = seat_previous(players, player_first);

    let init = table_players_init::<AC, E>(sim, players_init);
    let (mut player_funds, mut player_pots, mut player_states) = match init {
        Ok(t) => t,
        Err(e) => {
            return Err((Vec::new(), Vec::new(), e));
        },
    };

    let ghost init_states = player_states@;
    let ghost t_total = spec_dealt_total(players_init@);
    let zero_money = Money::zero();
    proof {
        let seats = players_init@.map_values(|t: (SeatId, Money, Vec<Card>)| t.0);
        let values = players_init@.map_values(|t: (SeatId, Money, Vec<Card>)| t.1);
        assert(forall|k: int|
            0 <= k < players_init@.len() ==> (#[trigger] seats[k]) == players_init@[k].0
                && values[k] == players_init@[k].1);
        assert forall|k: int| 0 <= k < seats.len() implies player_funds@[(
        #[trigger] seats[k]) as int] == values[k] by {
            assert(players_init@[k].0 == seats[k]);
        }
        assert forall|s: int|
            0 <= s < player_funds@.len() && (forall|k: int|
                0 <= k < seats.len() ==> (#[trigger] seats[k]) != s) implies player_funds@[s]@
            == 0 by {
            if exists|k2: int|
                0 <= k2 < players_init@.len() && (#[trigger] players_init@[k2]).0 == s {
                let k2 = choose|k2: int|
                    0 <= k2 < players_init@.len() && (#[trigger] players_init@[k2]).0 == s;
                assert(seats[k2] == s);
            } else {
                assert(0 <= s < sim.profile.players);
                assert((exists|k2: int|
                    0 <= k2 < players_init@.len() && (#[trigger] players_init@[k2]).0 == s) || (
                player_funds@[s]@ == 0 && player_states@[s] == State::Off));
                assert(player_funds@[s]@ == 0);
            }
        }
        lemma_indexed_sum(seats, values, player_funds@, zero_money);
        lemma_dealt_total_eq(players_init@);
        assert(spec_money_sum(player_funds@) == t_total);
        lemma_zero_sum(player_pots@);
        // The first actor was dealt in, so it is active.
        let k = choose|k: int|
            0 <= k < players_init@.len() && (#[trigger] players_init@[k]).0 == player_first;
        assert(state_active(player_states@[player_first as int]));
        // Every dealt seat brought at least the biggest blind.
        assert forall|s: int|
            0 <= s < players && state_active(player_states@[s]) implies player_funds@[s]@
            >= sim.blind_biggest@ by {
            if exists|k2: int|
                0 <= k2 < players_init@.len() && (#[trigger] players_init@[k2]).0 == s {
                let k2 = choose|k2: int|
                    0 <= k2 < players_init@.len() && (#[trigger] players_init@[k2]).0 == s;
                assert(player_funds@[s] == players_init@[k2].1);
            } else {
                assert(player_states@[s] == State::Off);
            }
        }
        assert forall|s: int|
            0 <= s < players implies player_funds@[s]@ + player_pots@[s]@ <= u32::MAX by {
            crate::money::lemma_money_sum_elem(player_funds@, s);
        }
    }

    let mut table_target: Money = blind_biggest;
    let mut table_target_raise: Money = blind_biggest;

    let mut events: Vec<Event> = Vec::new();
    let mut round_raises: usize = 0;
    let mut rounds: Rounds = Vec::new();
    let mut rounds_buffer: Vec<(SeatId, Action, Option<Money>)> = Vec::new();

    // Hand the collaborator the dealt hands.
    let mut player_cards: Vec<(usize, Vec<Card>)> = Vec::new();
    let mut pc: usize = 0;
    while pc < players_init.len()
        invariant
            pc <= players_init@.len(),
        decreases players_init@.len() - pc,
    {
        let (seat, _, cards) = &players_init[pc];
        player_cards.push((*seat, copy_cards(cards)));
        pc += 1;
    }
    players_table.init(&sim.profile.blinds, player_first, &player_funds, &player_cards);

    let ghost funds_init = player_funds@;
    let ghost pots_init = player_pots@;
    let (first_active, blinds_actions) = crate::rounds::blinds_apply(
        sim,
        player_first,
        &mut player_funds,
        &mut player_pots,
        &player_states,
    );
    let mut active = first_active;
    let ghost funds_ab = player_funds@;
    let ghost pots_ab = player_pots@;
    let ghost posts = blinds_actions@;

    proof {
        crate::money::lemma_money_two_sum_pointwise(funds_init, pots_init, funds_ab, pots_ab);
        // Each posting seat posted exactly one blind, so no pot passes the
        // biggest blind, which is the opening target.
        crate::money::lemma_money_max_is_max(sim.profile.blinds@);
        assert forall|s: int| 0 <= s < players implies player_pots@[s]@ <= blind_biggest@ by {
            if exists|k: int|
                0 <= k < posts.len() && (#[trigger] posts[k]).0.seat_id == s {
                let k = choose|k: int|
                    0 <= k < posts.len() && (#[trigger] posts[k]).0.seat_id == s;
                crate::rounds::lemma_posted_distinct(posts, s, k);
                assert(posts[k].1 == sim.profile.blinds@[k]);
            } else {
                assert(forall|k: int|
                    0 <= k < posts.len() ==> (#[trigger] posts[k]).0.seat_id != s);
                crate::rounds::lemma_posted_zero(posts, s);
            }
        }
        // The opening target is covered by the money at the table.
        let values = players_init@.map_values(|t: (SeatId, Money, Vec<Card>)| t.1);
        lemma_dealt_total_eq(players_init@);
        crate::money::lemma_money_sum_elem(values, 0);
        assert(values[0] == players_init@[0].1);
        assert(players_init@[0].1@ >= blind_biggest@);
        // Seats that were not dealt in posted nothing and hold nothing.
        assert forall|s: int|
            0 <= s < players && !(exists|k: int|
                0 <= k < players_init@.len() && (#[trigger] players_init@[k]).0 == s) implies (
        player_funds@[s]@ == 0 && player_pots@[s]@ == 0 && player_states@[s] == State::Off) by {
            assert((exists|k2: int|
                0 <= k2 < players_init@.len() && (#[trigger] players_init@[k2]).0 == s) || (
            funds_init[s]@ == 0 && player_states@[s] == State::Off));
            assert forall|k2: int|
                0 <= k2 < posts.len() implies (#[trigger] posts[k2]).0.seat_id != s by {
                if posts[k2].0.seat_id == s {
                    assert(state_active(player_states@[s]));
                }
            }
            crate::rounds::lemma_posted_zero(posts, s);
        }
    }

    let blinds_player_last = blinds_actions[blinds_actions.len() - 1].0.seat_id;

    let mut blind_pairs: Vec<(usize, Money)> = Vec::new();
    let mut bp: usize = 0;
    while bp < blinds_actions.len()
        invariant
            bp <= blinds_actions@.len(),
        decreases blinds_actions@.len() - bp,
    {
        let (act, m) = &blinds_actions[bp];
        blind_pairs.push((act.seat_id, *m));
        bp += 1;
    }
    match table.game_start(blind_pairs) {
        Ok(_) => {},
        Err(e) => {
            return Err((Vec::new(), Vec::new(), Error::Play(e)));
        },
    }

    // The first street's reveal is requested but not logged.
    match table.round_start(0, table_target) {
        Ok(_) => {},
        Err(e) => {
            return Err((Vec::new(), Vec::new(), Error::Play(e)));
        },
    }

    let mut ba: usize = 0;
    while ba < blinds_actions.len()
        invariant
            ba <= blinds_actions@.len(),
        decreases blinds_actions@.len() - ba,
    {
        let (act, m) = &blinds_actions[ba];
        rounds_buffer.push((act.seat_id, Action::Raise, Some(*m)));
        if !blinds_ante {
            events.push(Event::Play(*act));
        }
        ba += 1;
    }

    let mut running = true;
    let mut table_bootstrapped = false;
    let mut round_id: usize = 0;
    let mut action_id: usize = blinds_actions.len();
    let mut table_target_by: Option<usize> = if blinds_ante {
        Some(active)
    } else {
        None
    };

    // The action budget bounds the hand: rounds, seats and the raise cap
    // bound how many actions a hand can need.
    let caps_part = match &sim.profile.limit {
        Some(limit) => sat_add(limit.caps, 2),
        None => sat_add(blind_biggest.unpack() as usize, u32::MAX as usize),
    };
    let mut fuel: usize = sat_add(sat_add(sat_mul(sat_mul(sim.profile.rounds.len(), players), caps_part), players), 8);

    while running
        invariant
            player_funds@.len() == players,
            player_pots@.len() == players,
            player_states@.len() == players,
            spec_money_sum(player_funds@) + spec_money_sum(player_pots@) == t_total,
            forall|s: int| 0 <= s < players ==> player_pots@[s]@ <= table_target@,
            table_target@ <= t_total,
            active < players,
            running ==> state_active(player_states@[active as int]),
            (table_target_by matches Some(b) ==> b < players),
            round_id < sim.profile.rounds@.len(),
            forall|s: int|
                0 <= s < players ==> ((#[trigger] player_states@[s])
                    matches State::Play { cards, .. } ==> (init_states[s]
                    matches State::Play { cards: c0, .. } && cards@ == c0@)),
            table_target_by is None ==> player_funds@ == funds_ab && player_pots@ == pots_ab,
            forall|s: int|
                0 <= s < players ==> ((exists|k: int|
                    0 <= k < players_init@.len() && (#[trigger] players_init@[k]).0 == s) || (
                player_funds@[s]@ == 0 && player_pots@[s]@ == 0 && player_states@[s]
                    == State::Off)),
            rounds@.len() == round_id,
        decreases fuel,
    {
        if fuel == 0 {
            rounds.push(rounds_buffer);
            return Err((rounds, events, Error::Semantic(
                String::from_str("the action budget of the hand was exhausted"),
            )));
        }
        fuel = fuel - 1;

        if action_id == 0 {
            match table.round_start(round_id, table_target) {
                Ok(cards) => {
                    events.push(Event::Table { cards });
                },
                Err(e) => {
                    rounds.push(rounds_buffer);
                    return Err((rounds, events, Error::Play(e)));
                },
            }
        }

        // The events since this seat's previous turn.
        let mut begin: usize = 0;
        if !table_bootstrapped {
            if active == blinds_player_last {
                table_bootstrapped = true;
            }
        } else {
            let mut idx: usize = events.len();
            while idx > 0
                invariant
                    idx <= events@.len(),
                decreases idx,
            {
                let cont = match &events[idx - 1] {
                    Event::Play(act) => act.seat_id != active,
                    Event::Table { .. } => true,
                };
                if !cont {
                    break;
                }
                idx = idx - 1;
            }
            begin = if idx == 0 {
                0
            } else {
                idx - 1
            };
        }
        let events_player = copy_events(&events, begin);

        let action_raisable = match &sim.profile.limit {
            None => true,
            Some(limit) => round_raises < limit.caps,
        };

        let action_i = match players_table.play(
            round_id,
            table_target,
            if action_raisable {
                Some(table_target_raise)
            } else {
                None
            },
            &player_pots,
            active,
            player_funds[active],
            &events_player,
        ) {
            Ok(a) => a,
            Err(e) => {
                rounds.push(rounds_buffer);
                return Err((rounds, events, Error::Play(e)));
            },
        };

        if action_i >= 3 {
            rounds.push(rounds_buffer);
            return Err((rounds, events, Error::Semantic(
                String::from_str("the chosen action class does not exist"),
            )));
        }

        let ghost funds_before = player_funds@;
        let ghost pots_before = player_pots@;
        let run = table_run::<AC, E>(
            sim,
            round_id,
            &mut player_funds,
            &mut player_pots,
            &mut player_states,
            &mut table_target,
            &mut table_target_raise,
            &mut table_target_by,
            active,
            action_i,
        );
        proof {
            crate::money::lemma_money_sum_update(
                funds_before,
                player_funds@,
                active as int,
            );
            crate::money::lemma_money_sum_update(pots_before, player_pots@, active as int);
        }
        let (action, money_opt, _money_norm) = match run {
            Ok(t) => t,
            Err(e) => {
                rounds.push(rounds_buffer);
                return Err((rounds, events, e));
            },
        };
        proof {
            crate::money::lemma_money_sum_elem(player_pots@, active as int);
            crate::money::lemma_money_sum_nonneg(player_funds@);
        }

        events.push(Event::Play(Act { seat_id: active, action: action_i }));
        rounds_buffer.push((active, action, money_opt));

        if matches!(action, Action::Raise) {
            if !action_raisable {
                rounds.push(rounds_buffer);
                return Err((rounds, events, Error::Semantic(
                    String::from_str("raise beyond the round's raise cap"),
                )));
            }
            if round_raises < usize::MAX {
                round_raises = round_raises + 1;
            }
        }

        if action_id < usize::MAX {
            action_id = action_id + 1;
        }

        match table_next(
            sim,
            &player_pots,
            &player_states,
            &table_target,
            &mut table_target_raise,
            &mut table_target_by,
            dealer,
            round_id,
            active,
        ) {
            Err(None) => {
                running = false;
            },
            Err(Some(next)) => {
                active = next;
                rounds.push(rounds_buffer);
                rounds_buffer = Vec::new();
                round_id = round_id + 1;
                round_raises = 0;
                action_id = 0;
            },
            Ok(next) => {
                active = next;
            },
        }
    }

    rounds.push(rounds_buffer);

    let is_dead = match table_target_by {
        Some(_) => false,
        None => true,
    };
    if is_dead {
        // A dead hand: no bet beyond the blinds was ever made; roll the
        // postings back so every seat holds its funds again.
        let mut i: usize = 0;
        while i < blinds_actions.len()
            invariant
                i <= blinds_actions@.len(),
                player_funds@.len() == players,
                player_pots@.len() == players,
                forall|s: int|
                    0 <= s < players ==> player_pots@[s]@ == pots_ab[s]@ - spec_posted(
                        posts.take(i as int),
                        s,
                    ),
                forall|s: int|
                    0 <= s < players ==> player_funds@[s]@ == funds_ab[s]@ + spec_posted(
                        posts.take(i as int),
                        s,
                    ),
            decreases blinds_actions@.len() - i,
        {
            let (act, m) = &blinds_actions[i];
            proof {
                crate::rounds::lemma_posted_take_bound(posts, act.seat_id as int, i as int);
                crate::money::lemma_money_sum_elem(player_funds@, act.seat_id as int);
                assert forall|s: int|
                    0 <= s < players implies spec_posted(posts.take(i + 1), s) == spec_posted(
                    posts.take(i as int),
                    s,
                ) + (if act.seat_id == s {
                    m@
                } else {
                    0int
                }) by {
                    assert(posts.take(i + 1).drop_last() =~= posts.take(i as int));
                    assert(posts.take(i + 1).last() == posts[i as int]);
                }
                crate::rounds::lemma_posted_nonneg(posts.take(i as int), act.seat_id as int);
            }
            pledge_unapply(&mut player_funds, &mut player_pots, act.seat_id, *m);
            i += 1;
        }
        Ok((rounds, events, None))
    } else {
        proof {
            assert forall|s: int|
                0 <= s < players && !(exists|k: int|
                    0 <= k < players_init@.len() && (#[trigger] players_init@[k]).0 == s)
                implies (player_funds@[s]@ == 0 && player_pots@[s]@ == 0) by {
                assert((exists|k: int|
                    0 <= k < players_init@.len() && (#[trigger] players_init@[k]).0 == s) || (
                player_funds@[s]@ == 0 && player_pots@[s]@ == 0 && player_states@[s]
                    == State::Off));
            }
        }
        Ok((rounds, events, Some((player_funds, player_pots, player_states))))
    }
}

/// Total money a list of (seat, fund) pairs brings to the table.
pub open spec fn spec_pair_total(pairs: Seq<(SeatId, Money)>) -> int
    decreases pairs.len(),
{
    if pairs.len() == 0 {
        0
    } else {
        spec_pair_total(pairs.drop_last()) + pairs.last().1@
    }
}

/// Total community cards over the streets after the hole-card round.
pub open spec fn spec_rounds_tail_sum(rounds: Seq<usize>) -> int
    decreases rounds.len(),
{
    if rounds.len() <= 1 {
        0
    } else {
        spec_rounds_tail_sum(rounds.drop_last()) + rounds.last()
    }
}

proof fn lemma_rounds_tail_take_succ(rounds: Seq<usize>, i: int)
    requires
        1 <= i < rounds.len(),
    ensures
        spec_rounds_tail_sum(rounds.take(i + 1)) == spec_rounds_tail_sum(rounds.take(i))
            + rounds[i],
{
    assert(rounds.take(i + 1).drop_last() =~= rounds.take(i));
    assert(rounds.take(i + 1).last() == rounds[i]);
}

proof fn lemma_rounds_tail_take_le(rounds: Seq<usize>, i: int)
    requires
        0 <= i <= rounds.len(),
    ensures
        spec_rounds_tail_sum(rounds.take(i)) <= spec_rounds_tail_sum(rounds),
    decreases rounds.len() - i,
{
    if i == rounds.len() {
        assert(rounds.take(i) =~= rounds);
    } else if i >= 1 {
        lemma_rounds_tail_take_succ(rounds, i);
        lemma_rounds_tail_take_le(rounds, i + 1);
    } else {
        lemma_rounds_tail_take_le(rounds, i + 1);
        assert(rounds.take(0).len() == 0);
        assert(rounds.take(1).len() <= 1);
        assert(spec_rounds_tail_sum(rounds.take(0)) == 0);
        assert(spec_rounds_tail_sum(rounds.take(1)) == 0);
    }
}

/// No card is dealt twice in one hand: the hole cards of all seats and the
/// community cards are pairwise distinct.
pub open spec fn spec_deal_distinct(log: Log) -> bool {
    &&& (forall|k1: int, k2: int, a: int, b: int|
        0 <= k1 < log.players_init@.len() && 0 <= k2 < log.players_init@.len() && 0 <= a
            < log.players_init@[k1].2@.len() && 0 <= b < log.players_init@[k2].2@.len() && (k1
            != k2 || a != b) ==> (#[trigger] log.players_init@[k1].2@[a]) != (
        #[trigger] log.players_init@[k2].2@[b]))
    &&& (forall|k: int, a: int, b: int|
        0 <= k < log.players_init@.len() && 0 <= a < log.players_init@[k].2@.len() && 0 <= b
            < log.table_cards@.len() ==> (#[trigger] log.players_init@[k].2@[a]) != (
        #[trigger] log.table_cards@[b]))
    &&& log.table_cards@.no_duplicates()
}

/// The dealt hands and streets recorded in a hand's log match the listed
/// seats, their funds, and the profile's per-round card counts.
pub open spec fn spec_log_deal(log: Log, init: Seq<(SeatId, Money)>, rounds: Seq<usize>) -> bool {
    &&& log.players_init@.len() == init.len()
    &&& (forall|k: int|
        0 <= k < init.len() ==> {
            let t = #[trigger] log.players_init@[k];
            &&& t.0 == init[k].0
            &&& t.1 == init[k].1
            &&& t.2@.len() == rounds[0]
        })
    &&& log.table_cards@.len() == spec_rounds_tail_sum(rounds)
}

/// Shuffle the deck, deal each listed seat its private cards and the table
/// its community cards, run the hand, settle it, and return the hand's log
/// and score. A dead hand scores with every listed seat's fund untouched.
/// The total of the scored funds equals the total brought in.
#[verifier::loop_isolation(false)]
#[verifier::rlimit(100)]
pub fn table_game_simulate<AC: ActionClass, E, EV: Eval, P: Players<E>>(
    rng: &mut rand::rngs::StdRng,
    sim: &Sim<AC>,
    evaluator: &EV,
    players: &mut P,
    player_funds_init: &Vec<(SeatId, Money)>,
    player_first: SeatId,
) -> (r: Result<(Log, Score), (Log, Error<E>)>)
    requires
        sim.wf(),
        player_funds_init@.len() >= 1,
        forall|k: int|
            0 <= k < player_funds_init@.len() ==> (#[trigger] player_funds_init@[k]).0
                < sim.profile.players,
        forall|k1: int, k2: int|
            0 <= k1 < k2 < player_funds_init@.len() ==> player_funds_init@[k1].0
                != player_funds_init@[k2].0,
        exists|k: int|
            0 <= k < player_funds_init@.len() && (#[trigger] player_funds_init@[k]).0
                == player_first,
        sim.profile.rounds@.len() >= 1,
        forall|rd: int|
            0 <= rd < sim.profile.rounds@.len() ==> sim.action_class.round_ok(rd),
        forall|rd: int|
            0 <= rd < sim.profile.rounds@.len() ==> spec_pair_total(player_funds_init@)
                + sim.action_class.raise_size(sim.blind_biggest@, rd) <= u32::MAX,
        spec_pair_total(player_funds_init@) <= u32::MAX,
        player_funds_init@.len() * sim.profile.rounds@[0] + spec_rounds_tail_sum(
            sim.profile.rounds@,
        ) <= sim.profile.deck@.len(),
        2 * sim.profile.deck@.len() <= u32::MAX,
        sim.profile.players <= u32::MAX,
    ensures
        (r matches Ok(t) ==> {
            let score = t.1;
            &&& score.player_funds@.len() == player_funds_init@.len()
            &&& forall|k: int|
                0 <= k < player_funds_init@.len() ==> (#[trigger] score.player_funds@[k]).0
                    == player_funds_init@[k].0
            &&& spec_pair_total(score.player_funds@) == spec_pair_total(player_funds_init@)
        }),
        (r matches Ok(t) ==> spec_log_deal(t.0, player_funds_init@, sim.profile.rounds@)),
        (r matches Err(t) ==> spec_log_deal(t.0, player_funds_init@, sim.profile.rounds@)),
        // A deck without repeated cards deals every card at most once.
        sim.profile.deck@.no_duplicates() ==> (r matches Ok(t) ==> spec_deal_distinct(t.0)),
        sim.profile.deck@.no_duplicates() ==> (r matches Err(t) ==> spec_deal_distinct(t.0)),
        // A dead hand returns every listed fund untouched and an empty pot.
        (r matches Ok(t) ==> (t.1.winners@.len() == 0 ==> t.1.player_funds@
            == player_funds_init@ && t.1.pot@ == 0)),
        // A seat short of the biggest blind is rejected before any play.
        ((exists|k: int|
            0 <= k < player_funds_init@.len() && (#[trigger] player_funds_init@[k]).1@
                < sim.blind_biggest@) ==> (r matches Err(t) && t.0.rounds@.len() == 0
            && t.0.events@.len() == 0 && (exists|k: int|
            {
                &&& 0 <= k < player_funds_init@.len()
                &&& (#[trigger] player_funds_init@[k]).1@ < sim.blind_biggest@
                &&& (forall|j: int|
                    0 <= j < k ==> player_funds_init@[j].1@ >= sim.blind_biggest@)
                &&& t.1 == Error::<E>::InsufficientBringIn { seat_id: player_funds_init@[k].0 }
            }))),
        ((forall|k: int|
            0 <= k < player_funds_init@.len() ==> (#[trigger] player_funds_init@[k]).1@
                >= sim.blind_biggest@) ==> !(r matches Err(t) && t.1 matches
            Error::InsufficientBringIn { .. })),
{
    let mut deck = copy_cards(&sim.profile.deck);
    crate::random::shuffle_cards(rng, &mut deck);

    let private_n = sim.profile.rounds[0];
    proof {
        assert(sim.profile.rounds@.take(1).len() <= 1);
        assert(spec_rounds_tail_sum(sim.profile.rounds@.take(1)) == 0);
        lemma_rounds_tail_take_le(sim.profile.rounds@, 1);
        assert(spec_rounds_tail_sum(sim.profile.rounds@) >= 0);
        assert(player_funds_init@.len() * sim.profile.rounds@[0] <= sim.profile.deck@.len());
    }

    let mut players_init: Vec<(SeatId, Money, Vec<Card>)> = Vec::new();
    let mut offset: usize = 0;
    let mut k: usize = 0;
    while k < player_funds_init.len()
        invariant
            k <= player_funds_init@.len(),
            offset == k * private_n,
            players_init@.len() == k,
            forall|j: int|
                0 <= j < k ==> {
                    let t = #[trigger] players_init@[j];
                    &&& t.0 == player_funds_init@[j].0
                    &&& t.1 == player_funds_init@[j].1
                    &&& t.2@.len() == private_n
                },
            forall|j: int, c: int|
                0 <= j < k && 0 <= c < private_n ==> (#[trigger] players_init@[j].2@[c])
                    == deck@[j * private_n + c],
            spec_dealt_total(players_init@) == spec_pair_total(
                player_funds_init@.take(k as int),
            ),
        decreases player_funds_init@.len() - k,
    {
        proof {
            assert((k + 1) * private_n <= player_funds_init@.len() * private_n)
                by (nonlinear_arith)
                requires
                    k + 1 <= player_funds_init@.len() && private_n >= 0,
            ;
            assert((k + 1) * private_n == k * private_n + private_n) by (nonlinear_arith);
        }
        let (seat, money) = player_funds_init[k];
        let mut cs: Vec<Card> = Vec::new();
        let mut c: usize = 0;
        while c < private_n
            invariant
                c <= private_n,
                cs@.len() == c,
                offset + private_n <= deck@.len(),
                forall|c2: int| 0 <= c2 < c ==> (#[trigger] cs@[c2]) == deck@[offset + c2],
            decreases private_n - c,
        {
            cs.push(deck[offset + c]);
            c += 1;
        }
        let ghost before = players_init@;
        players_init.push((seat, money, cs));
        proof {
            assert(players_init@.drop_last() =~= before);
            assert(player_funds_init@.take(k + 1).drop_last() =~= player_funds_init@.take(
                k as int,
            ));
            assert(player_funds_init@.take(k + 1).last() == player_funds_init@[k as int]);
        }
        offset = offset + private_n;
        k += 1;
    }
    proof {
        assert(player_funds_init@.take(player_funds_init@.len() as int) =~= player_funds_init@);
    }

    // The community cards: as many as the later streets ask for, from the
    // remainder of the shuffled deck.
    let ghost tail_total = spec_rounds_tail_sum(sim.profile.rounds@);
    proof {
        assert(0 <= player_funds_init@.len() * sim.profile.rounds@[0]) by (nonlinear_arith)
            requires
                player_funds_init@.len() >= 0 && sim.profile.rounds@[0] >= 0,
        ;
        assert(tail_total <= sim.profile.deck@.len());
        assert(sim.profile.rounds@.take(1).len() <= 1);
        assert(spec_rounds_tail_sum(sim.profile.rounds@.take(1)) == 0);
        lemma_rounds_tail_take_le(sim.profile.rounds@, 1);
    }
    let mut tsize: usize = 0;
    let mut ri: usize = 1;
    while ri < sim.profile.rounds.len()
        invariant
            1 <= ri <= sim.profile.rounds@.len(),
            tsize == spec_rounds_tail_sum(sim.profile.rounds@.take(ri as int)),
            tsize <= tail_total,
        decreases sim.profile.rounds@.len() - ri,
    {
        proof {
            lemma_rounds_tail_take_succ(sim.profile.rounds@, ri as int);
            lemma_rounds_tail_take_le(sim.profile.rounds@, ri + 1);
        }
        tsize = tsize + sim.profile.rounds[ri];
        ri += 1;
    }
    proof {
        assert(sim.profile.rounds@.take(sim.profile.rounds@.len() as int)
            =~= sim.profile.rounds@);
        assert(tsize == tail_total);
    }
    let mut table_cards: Vec<Card> = Vec::new();
    let mut j: usize = offset;
    let mut taken: usize = 0;
    while j < deck.len() && taken < tsize
        invariant
            table_cards@.len() == taken,
            j == offset + taken,
            taken <= tsize,
            table_cards@.len() <= deck@.len(),
            forall|b: int| 0 <= b < taken ==> (#[trigger] table_cards@[b]) == deck@[offset + b],
        decreases deck@.len() - j,
    {
        table_cards.push(deck[j]);
        j += 1;
        taken += 1;
    }
    proof {
        // The deck covers every street, so the whole community run is dealt.
        assert(offset + tsize <= deck@.len());
        assert(taken == tsize);
        if sim.profile.deck@.no_duplicates() {
            // The shuffle kept the multiset, so the shuffled deck repeats no
            // card, and distinct deck positions hold distinct cards.
            sim.profile.deck@.lemma_multiset_has_no_duplicates();
            assert forall|x: Card|
                deck@.to_multiset().contains(x) implies deck@.to_multiset().count(x) == 1 by {
                assert(sim.profile.deck@.to_multiset().count(x) == deck@.to_multiset().count(
                    x,
                ));
            }
            deck@.lemma_multiset_has_no_duplicates_conv();
            let h = private_n as int;
            let nn = player_funds_init@.len() as int;
            assert forall|k1: int, k2: int, a: int, b: int|
                0 <= k1 < nn && 0 <= k2 < nn && 0 <= a < h && 0 <= b < h && (k1 != k2 || a
                    != b) implies (#[trigger] players_init@[k1].2@[a]) != (
            #[trigger] players_init@[k2].2@[b]) by {
                assert(players_init@[k1].2@[a] == deck@[k1 * h + a]);
                assert(players_init@[k2].2@[b] == deck@[k2 * h + b]);
                assert(k1 * h + a != k2 * h + b && 0 <= k1 * h + a < nn * h && 0 <= k2 * h + b
                    < nn * h) by (nonlinear_arith)
                    requires
                        0 <= k1 < nn && 0 <= k2 < nn && 0 <= a < h && 0 <= b < h && (k1 != k2
                            || a != b),
                ;
                assert(deck@[k1 * h + a] != deck@[k2 * h + b]);
            }
            assert forall|k: int, a: int, b: int|
                0 <= k < nn && 0 <= a < h && 0 <= b < table_cards@.len() implies (
            #[trigger] players_init@[k].2@[a]) != (#[trigger] table_cards@[b]) by {
                assert(players_init@[k].2@[a] == deck@[k * h + a]);
                assert(table_cards@[b] == deck@[offset + b]);
                assert(0 <= k * h + a < nn * h) by (nonlinear_arith)
                    requires
                        0 <= k < nn && 0 <= a < h,
                ;
                assert(offset == nn * h);
                assert(deck@[k * h + a] != deck@[offset + b]);
            }
            assert forall|b1: int, b2: int|
                0 <= b1 < table_cards@.len() && 0 <= b2 < table_cards@.len() && b1
                    != b2 implies #[trigger] table_cards@[b1] != #[trigger] table_cards@[b2] by {
                assert(table_cards@[b1] == deck@[offset + b1]);
                assert(table_cards@[b2] == deck@[offset + b2]);
            }
            assert(table_cards@.no_duplicates());
        }
    }

    let mut rounds_copy: Vec<usize> = Vec::new();
    let mut rc: usize = 0;
    while rc < sim.profile.rounds.len()
        invariant
            rc <= sim.profile.rounds@.len(),
        decreases sim.profile.rounds@.len() - rc,
    {
        rounds_copy.push(sim.profile.rounds[rc]);
        rc += 1;
    }
    let mut table = TableStatic { rounds: rounds_copy, table_cards: copy_cards(&table_cards) };

    let ghost t_total = spec_pair_total(player_funds_init@);
    proof {
        let kf = choose|k: int|
            0 <= k < player_funds_init@.len() && (#[trigger] player_funds_init@[k]).0
                == player_first;
        assert(players_init@[kf].0 == player_first);
        assert forall|k1: int, k2: int|
            0 <= k1 < k2 < players_init@.len() implies players_init@[k1].0
            != players_init@[k2].0 by {
            assert(players_init@[k1].0 == player_funds_init@[k1].0);
            assert(players_init@[k2].0 == player_funds_init@[k2].0);
        }
        assert forall|k: int|
            0 <= k < players_init@.len() implies (#[trigger] players_init@[k]).0
            < sim.profile.players by {
            assert(players_init@[k].0 == player_funds_init@[k].0);
        }
        assert(spec_dealt_total(players_init@) == t_total);
    }
    let result = table_game_simulate_::<AC, E, P, TableStatic>(
        sim,
        players,
        &mut table,
        &players_init,
        player_first,
    );

    let (rounds, events, outcome) = match result {
        Ok(t) => t,
        Err((rounds, events, e)) => {
            proof {
                if exists|k: int|
                    0 <= k < player_funds_init@.len() && (#[trigger] player_funds_init@[k]).1@
                        < sim.blind_biggest@ {
                    let k = choose|k: int|
                        0 <= k < player_funds_init@.len() && (
                        #[trigger] player_funds_init@[k]).1@ < sim.blind_biggest@;
                    assert(players_init@[k].1@ < sim.blind_biggest@);
                    let k2 = choose|k2: int|
                        {
                            &&& 0 <= k2 < players_init@.len()
                            &&& (#[trigger] players_init@[k2]).1@ < sim.blind_biggest@
                            &&& (forall|j: int|
                                0 <= j < k2 ==> players_init@[j].1@ >= sim.blind_biggest@)
                            &&& e == Error::<E>::InsufficientBringIn {
                                seat_id: players_init@[k2].0,
                            }
                        };
                    assert(player_funds_init@[k2].1@ < sim.blind_biggest@);
                    assert forall|j: int|
                        0 <= j < k2 implies player_funds_init@[j].1@ >= sim.blind_biggest@ by {
                        assert(players_init@[j].1 == player_funds_init@[j].1);
                    }
                    assert(player_funds_init@[k2].0 == players_init@[k2].0);
                }
                if forall|k: int|
                    0 <= k < player_funds_init@.len() ==> (#[trigger] player_funds_init@[k]).1@
                        >= sim.blind_biggest@ {
                    assert forall|k: int|
                        0 <= k < players_init@.len() implies (#[trigger] players_init@[k]).1@
                        >= sim.blind_biggest@ by {
                        assert(players_init@[k].1 == player_funds_init@[k].1);
                    }
                }
            }
            let log = Log { players_init, events, rounds, table_cards };
            return Err((log, e));
        },
    };
    proof {
        // With the hand played, nobody was short of the biggest blind.
        if exists|k: int|
            0 <= k < player_funds_init@.len() && (#[trigger] player_funds_init@[k]).1@
                < sim.blind_biggest@ {
            let k = choose|k: int|
                0 <= k < player_funds_init@.len() && (#[trigger] player_funds_init@[k]).1@
                    < sim.blind_biggest@;
            assert(players_init@[k].1@ < sim.blind_biggest@);
            assert(false);
        }
    }

    match outcome {
        None => {
            // A dead hand: every posting came back, the funds stand as they
            // were brought in.
            let mut pairs: Vec<(SeatId, Money)> = Vec::new();
            let mut i: usize = 0;
            while i < player_funds_init.len()
                invariant
                    i <= player_funds_init@.len(),
                    pairs@ =~= player_funds_init@.take(i as int),
                decreases player_funds_init@.len() - i,
            {
                pairs.push(player_funds_init[i]);
                i += 1;
            }
            proof {
                assert(pairs@ =~= player_funds_init@);
            }
            let score = Score {
                winners: Vec::new(),
                winners_score: 0,
                player_funds: pairs,
                pot: Money::zero(),
            };
            let log = Log { players_init, events, rounds, table_cards };
            Ok((log, score))
        },
        Some((mut player_funds, player_pots, player_states)) => {
            proof {
                assert(private_n <= sim.profile.deck@.len()) by (nonlinear_arith)
                    requires
                        player_funds_init@.len() >= 1 && private_n >= 0 && player_funds_init@.len()
                            * private_n <= sim.profile.deck@.len(),
                ;
                assert forall|s: int|
                    0 <= s < player_states@.len() implies ((#[trigger] player_states@[s])
                    matches State::Play { cards, .. } ==> table_cards@.len() + cards@.len()
                    <= u32::MAX) by {
                    match player_states@[s] {
                        State::Play { cards, .. } => {
                            let kk = choose|kk: int|
                                0 <= kk < players_init@.len() && (#[trigger] players_init@[kk]).0
                                    == s && cards@ == players_init@[kk].2@;
                            assert(players_init@[kk].2@.len() == private_n);
                        },
                        _ => {},
                    }
                }
            }
            let (finalists, winners, winners_score) = game_finish(
                evaluator,
                &table_cards,
                &player_states,
            );

            let mut pot: u32 = 0;
            let mut s: usize = 0;
            proof {
                crate::money::lemma_money_sum_nonneg(player_funds@);
            }
            while s < player_pots.len()
                invariant
                    s <= player_pots@.len(),
                    pot == spec_money_sum(player_pots@.take(s as int)),
                decreases player_pots@.len() - s,
            {
                proof {
                    crate::money::lemma_money_sum_take_succ(player_pots@, s as int);
                    crate::money::lemma_money_sum_take_le(player_pots@, s + 1);
                }
                pot = pot + player_pots[s].unpack();
                s += 1;
            }
            proof {
                assert(player_pots@.take(player_pots@.len() as int) =~= player_pots@);
            }

            if winners.len() == 0 {
                // Every seat left the hand: there is nobody to settle on.
                let log = Log { players_init, events, rounds, table_cards };
                return Err(
                    (
                        log,
                        Error::Semantic(
                            String::from_str("no seat is left to take the pot"),
                        ),
                    ),
                );
            }

            proof {
                // Winners are finalist seats, inside the table.
                assert forall|w: int| 0 <= w < winners@.len() implies (#[trigger] winners@[w])
                    < sim.profile.players by {
                    if finalists@.len() > 1 {
                        assert(spec_winner_at(
                            *evaluator,
                            table_cards@,
                            finalists@,
                            winners@[w],
                            winners_score as int,
                            finalists@.len() as int,
                        ));
                        let i = choose|i: int|
                            0 <= i < finalists@.len() && (#[trigger] finalists@[i]).0
                                == winners@[w] && evaluator.score_spec(
                                table_cards@ + finalists@[i].1@,
                            ) == winners_score;
                        assert(finalists@[i].0 < player_states@.len());
                    } else {
                        assert(winners@[w] == finalists@[w].0);
                    }
                }
                // There are no more finalists than seats.
                assert forall|i: int| 0 <= i < finalists@.len() implies i
                    <= (#[trigger] finalists@[i]).0 by {
                    lemma_ascending_bounds(
                        finalists@.map_values(|t: (usize, Vec<Card>, bool)| t.0),
                        i,
                    );
                    assert(finalists@.map_values(|t: (usize, Vec<Card>, bool)| t.0)[i]
                        == finalists@[i].0);
                }
                if finalists@.len() > sim.profile.players {
                    assert(finalists@.len() - 1 <= finalists@[finalists@.len() - 1].0);
                    assert(finalists@[finalists@.len() - 1].0 < sim.profile.players);
                }
            }

            let ghost funds_pre = player_funds@;
            let zero_money = Money::zero();
            funds_update(sim, &mut player_funds, &player_pots, &winners);

            let mut pairs: Vec<(SeatId, Money)> = Vec::new();
            let mut i: usize = 0;
            while i < players_init.len()
                invariant
                    i <= players_init@.len(),
                    pairs@.len() == i,
                    player_funds@.len() == sim.profile.players,
                    forall|j: int|
                        0 <= j < i ==> (#[trigger] pairs@[j]).0 == players_init@[j].0
                            && pairs@[j].1 == player_funds@[players_init@[j].0 as int],
                decreases players_init@.len() - i,
            {
                let (seat, _, _) = &players_init[i];
                pairs.push((*seat, player_funds[*seat]));
                i += 1;
            }

            proof {
                // The listed seats hold everything: every other seat still
                // holds nothing after the hand and the settlement.
                let seats = players_init@.map_values(|t: (SeatId, Money, Vec<Card>)| t.0);
                let values = pairs@.map_values(|t: (SeatId, Money)| t.1);
                assert forall|s2: int|
                    0 <= s2 < player_funds@.len() && (forall|k2: int|
                        0 <= k2 < seats.len() ==> (#[trigger] seats[k2]) != s2)
                    implies player_funds@[s2]@ == 0 by {
                    assert forall|k2: int|
                        0 <= k2 < players_init@.len() implies (#[trigger] players_init@[k2]).0
                        != s2 by {
                        assert(seats[k2] == players_init@[k2].0);
                    }
                    assert(!(exists|k2: int|
                        0 <= k2 < players_init@.len() && (#[trigger] players_init@[k2]).0 == s2));
                    assert(funds_pre[s2]@ == 0 && player_pots@[s2]@ == 0);
                    lemma_winners_pot_max_is_max(player_pots@, winners@);
                    assert(!winners@.contains(s2 as usize)) by {
                        if winners@.contains(s2 as usize) {
                            let w = choose|w: int|
                                0 <= w < winners@.len() && winners@[w] == s2 as usize;
                            if finalists@.len() > 1 {
                                assert(spec_winner_at(
                                    *evaluator,
                                    table_cards@,
                                    finalists@,
                                    winners@[w],
                                    winners_score as int,
                                    finalists@.len() as int,
                                ));
                                let fi = choose|fi: int|
                                    0 <= fi < finalists@.len() && (#[trigger] finalists@[fi]).0
                                        == winners@[w] && evaluator.score_spec(
                                        table_cards@ + finalists@[fi].1@,
                                    ) == winners_score;
                                assert(state_in_hand(player_states@[s2]));
                            } else {
                                assert(winners@[w] == finalists@[w].0);
                                assert(state_in_hand(player_states@[s2]));
                            }
                        }
                    }
                }
                assert forall|k2: int| 0 <= k2 < seats.len() implies player_funds@[(
                #[trigger] seats[k2]) as int] == values[k2] by {
                    assert(seats[k2] == players_init@[k2].0);
                    assert(values[k2] == pairs@[k2].1);
                }
                lemma_indexed_sum(seats, values, player_funds@, zero_money);
                lemma_pair_total_eq(pairs@);
                assert(spec_money_sum(values) == spec_pair_total(pairs@));
                assert(spec_money_sum(player_funds@) == spec_money_sum(funds_pre)
                    + spec_money_sum(player_pots@));
                assert(spec_pair_total(pairs@) == t_total);
            }

            let score = Score {
                winners,
                winners_score,
                player_funds: pairs,
                pot: Money::from_u32(pot),
            };
            let log = Log { players_init, events, rounds, table_cards };
            Ok((log, score))
        },
    }
}

proof fn lemma_pair_total_nonneg(pairs: Seq<(SeatId, Money)>)
    ensures
        spec_pair_total(pairs) >= 0,
    decreases pairs.len(),
{
    if pairs.len() > 0 {
        lemma_pair_total_nonneg(pairs.drop_last());
        crate::money::lemma_money_nonneg(pairs.last().1);
    }
}

/// Some entry of the fund list belongs to this seat.
pub open spec fn spec_holds_seat(funds: Seq<(SeatId, Money)>, seat: SeatId) -> bool {
    exists|k: int| 0 <= k < funds.len() && (#[trigger] funds[k]).0 == seat
}

/// Split the funded seats into the ones listed as playing and the retired
/// rest, keeping order, money and distinctness.
#[verifier::loop_isolation(false)]
#[verifier::rlimit(100)]
fn funds_partition(
    player_funds: &Vec<(SeatId, Money)>,
    actives: &Vec<SeatId>,
    players_count: usize,
) -> (r: (Vec<(SeatId, Money)>, Vec<(SeatId, Money)>))
    requires
        forall|k: int|
            0 <= k < player_funds@.len() ==> (#[trigger] player_funds@[k]).0 < players_count,
        forall|k1: int, k2: int|
            0 <= k1 < k2 < player_funds@.len() ==> player_funds@[k1].0 != player_funds@[k2].0,
    ensures
        ({
            let (sub, out) = r;
            &&& sub@.len() + out@.len() == player_funds@.len()
            &&& spec_pair_total(sub@) + spec_pair_total(out@) == spec_pair_total(player_funds@)
            &&& forall|k: int|
                0 <= k < sub@.len() ==> actives@.contains((#[trigger] sub@[k]).0) && sub@[k].0
                    < players_count
            &&& forall|k: int|
                0 <= k < out@.len() ==> !actives@.contains((#[trigger] out@[k]).0) && out@[k].0
                    < players_count
            &&& forall|k1: int, k2: int| 0 <= k1 < k2 < sub@.len() ==> sub@[k1].0 != sub@[k2].0
            &&& forall|k1: int, k2: int| 0 <= k1 < k2 < out@.len() ==> out@[k1].0 != out@[k2].0
            &&& forall|k: int|
                0 <= k < player_funds@.len() ==> ((exists|j: int|
                    0 <= j < sub@.len() && (#[trigger] sub@[j]) == (
                #[trigger] player_funds@[k])) || (exists|j: int|
                    0 <= j < out@.len() && (#[trigger] out@[j]) == player_funds@[k]))
        }),
{
    let mut funds_sub: Vec<(SeatId, Money)> = Vec::new();
    let mut funds_out: Vec<(SeatId, Money)> = Vec::new();
    let mut fi: usize = 0;
    while fi < player_funds.len()
        invariant
            fi <= player_funds@.len(),
            funds_sub@.len() + funds_out@.len() == fi,
            spec_pair_total(funds_sub@) + spec_pair_total(funds_out@) == spec_pair_total(
                player_funds@.take(fi as int),
            ),
            forall|k: int|
                0 <= k < funds_sub@.len() ==> actives@.contains((#[trigger] funds_sub@[k]).0)
                    && funds_sub@[k].0 < players_count,
            forall|k: int|
                0 <= k < funds_out@.len() ==> !actives@.contains((#[trigger] funds_out@[k]).0)
                    && funds_out@[k].0 < players_count,
            forall|k1: int, k2: int|
                0 <= k1 < k2 < funds_sub@.len() ==> funds_sub@[k1].0 != funds_sub@[k2].0,
            forall|k1: int, k2: int|
                0 <= k1 < k2 < funds_out@.len() ==> funds_out@[k1].0 != funds_out@[k2].0,
            forall|k: int|
                0 <= k < fi ==> ((exists|j: int|
                    0 <= j < funds_sub@.len() && (#[trigger] funds_sub@[j]) == (
                #[trigger] player_funds@[k])) || (exists|j: int|
                    0 <= j < funds_out@.len() && (#[trigger] funds_out@[j])
                        == player_funds@[k])),
            forall|k: int|
                0 <= k < funds_sub@.len() ==> exists|j: int|
                    0 <= j < fi && (#[trigger] player_funds@[j]) == (#[trigger] funds_sub@[k]),
            forall|k: int|
                0 <= k < funds_out@.len() ==> exists|j: int|
                    0 <= j < fi && (#[trigger] player_funds@[j]) == (#[trigger] funds_out@[k]),
        decreases player_funds@.len() - fi,
    {
        proof {
            assert(player_funds@.take(fi + 1).drop_last() =~= player_funds@.take(fi as int));
            assert(player_funds@.take(fi + 1).last() == player_funds@[fi as int]);
        }
        let entry = player_funds[fi];
        let ghost sub_before = funds_sub@;
        let ghost out_before = funds_out@;
        if contains_seat(actives, entry.0) {
            funds_sub.push(entry);
            proof {
                assert(funds_sub@.drop_last() =~= sub_before);
                assert(funds_sub@[funds_sub@.len() - 1] == player_funds@[fi as int]);
                assert forall|k1: int, k2: int|
                    0 <= k1 < k2 < funds_sub@.len() implies funds_sub@[k1].0
                    != funds_sub@[k2].0 by {
                    if k2 == funds_sub@.len() - 1 {
                        let j1 = choose|j: int|
                            0 <= j < fi && (#[trigger] player_funds@[j]) == sub_before[k1];
                        assert(player_funds@[j1].0 == funds_sub@[k1].0);
                        assert(player_funds@[j1].0 != player_funds@[fi as int].0);
                    }
                }
            }
        } else {
            funds_out.push(entry);
            proof {
                assert(funds_out@.drop_last() =~= out_before);
                assert(funds_out@[funds_out@.len() - 1] == player_funds@[fi as int]);
                assert forall|k1: int, k2: int|
                    0 <= k1 < k2 < funds_out@.len() implies funds_out@[k1].0
                    != funds_out@[k2].0 by {
                    if k2 == funds_out@.len() - 1 {
                        let j1 = choose|j: int|
                            0 <= j < fi && (#[trigger] player_funds@[j]) == out_before[k1];
                        assert(player_funds@[j1].0 == funds_out@[k1].0);
                        assert(player_funds@[j1].0 != player_funds@[fi as int].0);
                    }
                }
            }
        }
        fi += 1;
    }
    proof {
        assert(player_funds@.take(player_funds@.len() as int) =~= player_funds@);
    }
    (funds_sub, funds_out)
}

/// Append the played seats' new funds to the retired seats' entries.
#[verifier::loop_isolation(false)]
fn funds_merge(out: Vec<(SeatId, Money)>, sf: &Vec<(SeatId, Money)>) -> (r: Vec<(SeatId, Money)>)
    ensures
        r@.len() == out@.len() + sf@.len(),
        forall|k: int| 0 <= k < out@.len() ==> r@[k] == out@[k],
        forall|k: int| 0 <= k < sf@.len() ==> r@[out@.len() + k] == sf@[k],
        spec_pair_total(r@) == spec_pair_total(out@) + spec_pair_total(sf@),
{
    let ghost out_seq = out@;
    let ghost out_len = out@.len();
    let mut r = out;
    let mut ni: usize = 0;
    while ni < sf.len()
        invariant
            ni <= sf@.len(),
            r@.len() == out_len + ni,
            forall|k: int| 0 <= k < out_len ==> r@[k] == out_seq[k],
            forall|k: int| 0 <= k < ni ==> r@[out_len + k] == sf@[k],
            spec_pair_total(r@) == spec_pair_total(out_seq) + spec_pair_total(
                sf@.take(ni as int),
            ),
        decreases sf@.len() - ni,
    {
        proof {
            assert(sf@.take(ni + 1).drop_last() =~= sf@.take(ni as int));
            assert(sf@.take(ni + 1).last() == sf@[ni as int]);
        }
        let ghost before = r@;
        r.push(sf[ni]);
        proof {
            assert(r@.drop_last() =~= before);
        }
        ni += 1;
    }
    proof {
        assert(sf@.take(sf@.len() as int) =~= sf@);
    }
    r
}

/// The merged fund list keeps every seat inside the table, all seats
/// distinct, and every listed seat represented.
proof fn lemma_merge_invariants(
    funds: Seq<(SeatId, Money)>,
    actives: Seq<SeatId>,
    sub: Seq<(SeatId, Money)>,
    out: Seq<(SeatId, Money)>,
    sf: Seq<(SeatId, Money)>,
    merged: Seq<(SeatId, Money)>,
    players_count: usize,
)
    requires
        sf.len() == sub.len(),
        forall|k: int| 0 <= k < sf.len() ==> (#[trigger] sf[k]).0 == sub[k].0,
        forall|k: int|
            0 <= k < sub.len() ==> actives.contains((#[trigger] sub[k]).0) && sub[k].0
                < players_count,
        forall|k: int|
            0 <= k < out.len() ==> !actives.contains((#[trigger] out[k]).0) && out[k].0
                < players_count,
        forall|k1: int, k2: int| 0 <= k1 < k2 < sub.len() ==> sub[k1].0 != sub[k2].0,
        forall|k1: int, k2: int| 0 <= k1 < k2 < out.len() ==> out[k1].0 != out[k2].0,
        forall|k: int|
            0 <= k < funds.len() ==> ((exists|j: int|
                0 <= j < sub.len() && (#[trigger] sub[j]) == (#[trigger] funds[k])) || (
            exists|j: int|
                0 <= j < out.len() && (#[trigger] out[j]) == funds[k])),
        merged.len() == out.len() + sf.len(),
        forall|k: int| 0 <= k < out.len() ==> merged[k] == out[k],
        forall|k: int| 0 <= k < sf.len() ==> merged[out.len() + k] == sf[k],
        forall|i: int|
            0 <= i < actives.len() ==> spec_holds_seat(funds, #[trigger] actives[i]),
    ensures
        forall|k: int| 0 <= k < merged.len() ==> (#[trigger] merged[k]).0 < players_count,
        forall|k1: int, k2: int| 0 <= k1 < k2 < merged.len() ==> merged[k1].0 != merged[k2].0,
        forall|i: int|
            0 <= i < actives.len() ==> spec_holds_seat(merged, #[trigger] actives[i]),
        forall|x: SeatId| spec_holds_seat(funds, x) ==> spec_holds_seat(merged, x),
{
    let out_len = out.len() as int;
    assert forall|k: int| 0 <= k < merged.len() implies (#[trigger] merged[k]).0
        < players_count by {
        if k < out_len {
            assert(merged[k] == out[k]);
        } else {
            assert(merged[k] == sf[k - out_len]);
            assert(sf[k - out_len].0 == sub[k - out_len].0);
        }
    }
    assert forall|k1: int, k2: int|
        0 <= k1 < k2 < merged.len() implies merged[k1].0 != merged[k2].0 by {
        if k1 < out_len && k2 >= out_len {
            assert(merged[k1] == out[k1]);
            assert(merged[k2].0 == sf[k2 - out_len].0);
            assert(sf[k2 - out_len].0 == sub[k2 - out_len].0);
            assert(actives.contains(sub[k2 - out_len].0));
            assert(!actives.contains(out[k1].0));
        } else if k1 < out_len && k2 < out_len {
            assert(merged[k1] == out[k1] && merged[k2] == out[k2]);
        } else {
            assert(merged[k1].0 == sf[k1 - out_len].0 && merged[k2].0 == sf[k2 - out_len].0);
            assert(sf[k1 - out_len].0 == sub[k1 - out_len].0 && sf[k2 - out_len].0 == sub[k2
                - out_len].0);
        }
    }
    assert forall|x: SeatId| spec_holds_seat(funds, x) implies spec_holds_seat(merged, x) by {
        let kold = choose|k: int| 0 <= k < funds.len() && (#[trigger] funds[k]).0 == x;
        if exists|j: int| 0 <= j < out.len() && (#[trigger] out[j]) == funds[kold] {
            let j = choose|j: int| 0 <= j < out.len() && (#[trigger] out[j]) == funds[kold];
            assert(merged[j] == out[j]);
            assert((#[trigger] merged[j]).0 == x);
        } else {
            let j = choose|j: int| 0 <= j < sub.len() && (#[trigger] sub[j]) == funds[kold];
            assert(sf[j].0 == sub[j].0);
            assert((#[trigger] merged[out_len + j]).0 == x);
        }
    }
    assert forall|i: int|
        0 <= i < actives.len() implies spec_holds_seat(merged, #[trigger] actives[i]) by {
        assert(spec_holds_seat(funds, actives[i]));
    }
}

/// Drop from the listed seats the ones whose fund no longer covers the
/// biggest blind.
#[verifier::loop_isolation(false)]
fn actives_retire(
    actives: &Vec<SeatId>,
    player_funds: &Vec<(SeatId, Money)>,
    blind_biggest: Money,
    players_count: usize,
) -> (r: Vec<SeatId>)
    requires
        forall|i: int| 0 <= i < actives@.len() ==> (#[trigger] actives@[i]) < players_count,
        forall|i: int|
            0 <= i < actives@.len() ==> spec_holds_seat(player_funds@, #[trigger] actives@[i]),
    ensures
        forall|i: int| 0 <= i < r@.len() ==> (#[trigger] r@[i]) < players_count,
        forall|i: int| 0 <= i < r@.len() ==> spec_holds_seat(player_funds@, #[trigger] r@[i]),
{
    let mut new_actives: Vec<SeatId> = Vec::new();
    let mut na: usize = 0;
    while na < actives.len()
        invariant
            na <= actives@.len(),
            forall|i: int|
                0 <= i < new_actives@.len() ==> actives@.contains(#[trigger] new_actives@[i]),
        decreases actives@.len() - na,
    {
        let a = actives[na];
        let mut broke = false;
        let mut bi2: usize = 0;
        while bi2 < player_funds.len()
            invariant
                bi2 <= player_funds@.len(),
            decreases player_funds@.len() - bi2,
        {
            let e = player_funds[bi2];
            if e.0 == a && e.1.unpack() <= blind_biggest.unpack() {
                broke = true;
            }
            bi2 += 1;
        }
        if !broke {
            new_actives.push(a);
            proof {
                assert(actives@.contains(a));
            }
        }
        na += 1;
    }
    proof {
        assert forall|i: int|
            0 <= i < new_actives@.len() implies (#[trigger] new_actives@[i]) < players_count by {
            let w = choose|w: int| 0 <= w < actives@.len() && actives@[w] == new_actives@[i];
        }
        assert forall|i: int|
            0 <= i < new_actives@.len() implies spec_holds_seat(
            player_funds@,
            #[trigger] new_actives@[i],
        ) by {
            let w = choose|w: int| 0 <= w < actives@.len() && actives@[w] == new_actives@[i];
            assert(spec_holds_seat(player_funds@, actives@[w]));
        }
    }
    new_actives
}

/// Run hands back to back on one table: the dealer button moves to the next
/// funded seat, broke seats are retired, and a run of six dead hands in a
/// row stops the match with those hands dropped from the record. The total
/// money at the table is conserved across every hand.
#[verifier::loop_isolation(false)]
#[verifier::rlimit(100)]
pub fn table_simulate_<AC: ActionClass, E, EV: Eval, P: Players<E>>(
    rng: &mut rand::rngs::StdRng,
    sim: &Sim<AC>,
    evaluator: &EV,
    players: &mut P,
    player_funds_init: &Vec<(SeatId, Money)>,
    player_first: SeatId,
    games_max: Option<usize>,
) -> (r: Result<(Vec<(SeatId, Money)>, Vec<(Log, Score)>), (Vec<(Log, Score)>, Log, Error<E>)>)
    requires
        sim.wf(),
        player_funds_init@.len() >= 1,
        forall|k: int|
            0 <= k < player_funds_init@.len() ==> (#[trigger] player_funds_init@[k]).0
                < sim.profile.players,
        forall|k1: int, k2: int|
            0 <= k1 < k2 < player_funds_init@.len() ==> player_funds_init@[k1].0
                != player_funds_init@[k2].0,
        player_first < sim.profile.players,
        sim.profile.rounds@.len() >= 1,
        forall|rd: int|
            0 <= rd < sim.profile.rounds@.len() ==> sim.action_class.round_ok(rd),
        forall|rd: int|
            0 <= rd < sim.profile.rounds@.len() ==> spec_pair_total(player_funds_init@)
                + sim.action_class.raise_size(sim.blind_biggest@, rd) <= u32::MAX,
        spec_pair_total(player_funds_init@) <= u32::MAX,
        player_funds_init@.len() * sim.profile.rounds@[0] + spec_rounds_tail_sum(
            sim.profile.rounds@,
        ) <= sim.profile.deck@.len(),
        2 * sim.profile.deck@.len() <= u32::MAX,
        sim.profile.players <= u32::MAX,
    ensures
        (r matches Ok(t) ==> spec_pair_total(t.0@) == spec_pair_total(player_funds_init@)),
        // The returned funds list the dealt seats exactly: one entry per
        // listed seat, every seat kept, retired or not, and no seat twice.
        (r matches Ok(t) ==> {
            &&& t.0@.len() == player_funds_init@.len()
            &&& (forall|k: int|
                0 <= k < t.0@.len() ==> (#[trigger] t.0@[k]).0 < sim.profile.players)
            &&& (forall|k1: int, k2: int| 0 <= k1 < k2 < t.0@.len() ==> t.0@[k1].0 != t.0@[k2].0)
            &&& (forall|k: int|
                0 <= k < player_funds_init@.len() ==> spec_holds_seat(
                    t.0@,
                    (#[trigger] player_funds_init@[k]).0,
                ))
        }),
        (r matches Ok(t) ==> (games_max matches Some(g) ==> t.1@.len() <= g)),
{
    let players_count = sim.profile.players;
    let n0 = player_funds_init.len();
    let ghost t0 = spec_pair_total(player_funds_init@);

    let mut player_funds: Vec<(SeatId, Money)> = Vec::new();
    let mut ci: usize = 0;
    while ci < player_funds_init.len()
        invariant
            ci <= player_funds_init@.len(),
            player_funds@ =~= player_funds_init@.take(ci as int),
        decreases player_funds_init@.len() - ci,
    {
        player_funds.push(player_funds_init[ci]);
        ci += 1;
    }
    proof {
        assert(player_funds@ =~= player_funds_init@);
        assert forall|k: int|
            0 <= k < player_funds_init@.len() implies spec_holds_seat(
            player_funds@,
            (#[trigger] player_funds_init@[k]).0,
        ) by {
            assert((#[trigger] player_funds@[k]).0 == player_funds_init@[k].0);
        }
    }

    let mut actives: Vec<SeatId> = Vec::new();
    let mut ai: usize = 0;
    while ai < player_funds.len()
        invariant
            ai <= player_funds@.len(),
            forall|i: int| 0 <= i < actives@.len() ==> (#[trigger] actives@[i]) < players_count,
            forall|i: int|
                0 <= i < actives@.len() ==> spec_holds_seat(
                    player_funds@,
                    #[trigger] actives@[i],
                ),
        decreases player_funds@.len() - ai,
    {
        let seat = player_funds[ai].0;
        actives.push(seat);
        proof {
            assert((#[trigger] player_funds@[ai as int]).0 == seat);
            assert(spec_holds_seat(player_funds@, seat));
        }
        ai += 1;
    }

    let mut scores: Vec<(Log, Score)> = Vec::new();
    let mut deads: usize = 0;
    let games_cap = match games_max {
        Some(g) => g,
        None => usize::MAX,
    };

    while actives.len() > 1 && deads < 6 && scores.len() < games_cap
        invariant
            spec_pair_total(player_funds@) == t0,
            player_funds@.len() == n0,
            forall|k: int|
                0 <= k < player_funds@.len() ==> (#[trigger] player_funds@[k]).0 < players_count,
            forall|k1: int, k2: int|
                0 <= k1 < k2 < player_funds@.len() ==> player_funds@[k1].0
                    != player_funds@[k2].0,
            forall|i: int| 0 <= i < actives@.len() ==> (#[trigger] actives@[i]) < players_count,
            forall|i: int|
                0 <= i < actives@.len() ==> spec_holds_seat(
                    player_funds@,
                    #[trigger] actives@[i],
                ),
            forall|k: int|
                0 <= k < player_funds_init@.len() ==> spec_holds_seat(
                    player_funds@,
                    (#[trigger] player_funds_init@[k]).0,
                ),
            scores@.len() <= games_cap,
        decreases games_cap - scores@.len(),
    {
        // The button: the next listed seat after the fixed first seat.
        let dealer_seat = match seat_next_active(players_count, &actives, player_first) {
            Some(s) => s,
            None => {
                proof {
                    lemma_walk_covers(players_count as int, player_first as int, actives@[0] as int);
                    let kk = choose|kk: int|
                        0 <= kk < players_count && spec_walk(
                            players_count as int,
                            player_first as int,
                            kk,
                        ) == actives@[0] as int;
                    assert(actives@.contains(actives@[0]));
                    assert(!actives@.contains(
                        spec_walk(players_count as int, player_first as int, kk) as usize,
                    ));
                }
                player_first
            },
        };
        proof {
            assert(actives@.contains(dealer_seat));
        }

        let (funds_sub, funds_out) = funds_partition(&player_funds, &actives, players_count);

        proof {
            lemma_pair_total_nonneg(funds_out@);
            lemma_pair_total_nonneg(funds_sub@);
            // The dealer's entry was kept for the hand.
            let wd = choose|w: int| 0 <= w < actives@.len() && actives@[w] == dealer_seat;
            assert(spec_holds_seat(player_funds@, actives@[wd]));
            let kd = choose|k: int|
                0 <= k < player_funds@.len() && (#[trigger] player_funds@[k]).0 == dealer_seat;
            if exists|j: int|
                0 <= j < funds_out@.len() && (#[trigger] funds_out@[j]) == player_funds@[kd] {
                let j = choose|j: int|
                    0 <= j < funds_out@.len() && (#[trigger] funds_out@[j]) == player_funds@[kd];
                assert(!actives@.contains(funds_out@[j].0));
            }
            assert(exists|j: int|
                0 <= j < funds_sub@.len() && (#[trigger] funds_sub@[j]).0 == dealer_seat) by {
                let j = choose|j: int|
                    0 <= j < funds_sub@.len() && (#[trigger] funds_sub@[j]) == player_funds@[kd];
                assert(funds_sub@[j].0 == dealer_seat);
            }
            assert((n0 as int) * sim.profile.rounds@[0] + spec_rounds_tail_sum(
                sim.profile.rounds@,
            ) <= sim.profile.deck@.len());
            assert(funds_sub@.len() * sim.profile.rounds@[0] <= (n0 as int)
                * sim.profile.rounds@[0]) by (nonlinear_arith)
                requires
                    funds_sub@.len() <= n0 && sim.profile.rounds@[0] >= 0,
            ;
        }

        let hand = table_game_simulate::<AC, E, EV, P>(
            rng,
            sim,
            evaluator,
            players,
            &funds_sub,
            dealer_seat,
        );
        let (log, score) = match hand {
            Ok(t) => t,
            Err((log, e)) => {
                return Err((scores, log, e));
            },
        };

        // A hand that moved no money is dead.
        let mut same = score.player_funds.len() == funds_sub.len();
        let mut di: usize = 0;
        while di < score.player_funds.len() && di < funds_sub.len()
            invariant
                di <= score.player_funds@.len(),
                di <= funds_sub@.len(),
            decreases score.player_funds@.len() - di,
        {
            let a = score.player_funds[di];
            let b = funds_sub[di];
            if !(a.0 == b.0 && a.1 == b.1) {
                same = false;
            }
            di += 1;
        }

        let Score { player_funds: sf, pot, winners, winners_score } = score;

        let mut sf_copy: Vec<(SeatId, Money)> = Vec::new();
        let mut si: usize = 0;
        while si < sf.len()
            invariant
                si <= sf@.len(),
                sf_copy@ =~= sf@.take(si as int),
            decreases sf@.len() - si,
        {
            sf_copy.push(sf[si]);
            si += 1;
        }
        proof {
            assert(sf_copy@ =~= sf@);
        }
        let mut wn_copy: Vec<SeatId> = Vec::new();
        let mut wi: usize = 0;
        while wi < winners.len()
            invariant
                wi <= winners@.len(),
            decreases winners@.len() - wi,
        {
            wn_copy.push(winners[wi]);
            wi += 1;
        }
        scores.push(
            (log, Score { player_funds: sf_copy, pot, winners: wn_copy, winners_score }),
        );

        if same {
            if deads < 6 {
                deads = deads + 1;
            }
        } else {
            deads = 0;
            // The played seats take their new funds; the retired seats keep
            // theirs.
            let ghost out_seq = funds_out@;
            let new_funds = funds_merge(funds_out, &sf);
            proof {
                lemma_merge_invariants(
                    player_funds@,
                    actives@,
                    funds_sub@,
                    out_seq,
                    sf@,
                    new_funds@,
                    players_count,
                );
                assert(spec_pair_total(sf@) == spec_pair_total(funds_sub@));
            }
            player_funds = new_funds;
        }

        // Retire the seats that can no longer cover the big blind.
        actives = actives_retire(&actives, &player_funds, sim.blind_biggest, players_count);
    }

    if deads == 6 {
        if scores.len() >= 6 {
            let n = scores.len() - 6;
            scores.truncate(n);
        }
    }

    Ok((player_funds, scores))
}

/// Run hands until one funded seat remains, with no cap on their number.
pub fn table_simulate<AC: ActionClass, E, EV: Eval, P: Players<E>>(
    rng: &mut rand::rngs::StdRng,
    sim: &Sim<AC>,
    evaluator: &EV,
    players: &mut P,
    player_funds_init: &Vec<(SeatId, Money)>,
    player_first: SeatId,
) -> (r: Result<(Vec<(SeatId, Money)>, Vec<(Log, Score)>), (Vec<(Log, Score)>, Log, Error<E>)>)
    requires
        sim.wf(),
        player_funds_init@.len() >= 1,
        forall|k: int|
            0 <= k < player_funds_init@.len() ==> (#[trigger] player_funds_init@[k]).0
                < sim.profile.players,
        forall|k1: int, k2: int|
            0 <= k1 < k2 < player_funds_init@.len() ==> player_funds_init@[k1].0
                != player_funds_init@[k2].0,
        player_first < sim.profile.players,
        sim.profile.rounds@.len() >= 1,
        forall|rd: int|
            0 <= rd < sim.profile.rounds@.len() ==> sim.action_class.round_ok(rd),
        forall|rd: int|
            0 <= rd < sim.profile.rounds@.len() ==> spec_pair_total(player_funds_init@)
                + sim.action_class.raise_size(sim.blind_biggest@, rd) <= u32::MAX,
        spec_pair_total(player_funds_init@) <= u32::MAX,
        player_funds_init@.len() * sim.profile.rounds@[0] + spec_rounds_tail_sum(
            sim.profile.rounds@,
        ) <= sim.profile.deck@.len(),
        2 * sim.profile.deck@.len() <= u32::MAX,
        sim.profile.players <= u32::MAX,
    ensures
        (r matches Ok(t) ==> spec_pair_total(t.0@) == spec_pair_total(player_funds_init@)),
        (r matches Ok(t) ==> {
            &&& t.0@.len() == player_funds_init@.len()
            &&& (forall|k: int|
                0 <= k < t.0@.len() ==> (#[trigger] t.0@[k]).0 < sim.profile.players)
            &&& (forall|k1: int, k2: int| 0 <= k1 < k2 < t.0@.len() ==> t.0@[k1].0 != t.0@[k2].0)
            &&& (forall|k: int|
                0 <= k < player_funds_init@.len() ==> spec_holds_seat(
                    t.0@,
                    (#[trigger] player_funds_init@[k]).0,
                ))
        }),
{
    table_simulate_::<AC, E, EV, P>(
        rng,
        sim,
        evaluator,
        players,
        player_funds_init,
        player_first,
        None,
    )
}

proof fn lemma_ascending_bounds(xs: Seq<usize>, i: int)
    requires
        forall|a: int, b: int| 0 <= a < b < xs.len() ==> xs[a] < xs[b],
        0 <= i < xs.len(),
    ensures
        i <= xs[i],
    decreases i,
{
    if i > 0 {
        lemma_ascending_bounds(xs, i - 1);
    }
}

proof fn lemma_pair_total_eq(pairs: Seq<(SeatId, Money)>)
    ensures
        spec_pair_total(pairs) == spec_money_sum(pairs.map_values(|t: (SeatId, Money)| t.1)),
    decreases pairs.len(),
{
    let mapped = pairs.map_values(|t: (SeatId, Money)| t.1);
    if pairs.len() > 0 {
        lemma_pair_total_eq(pairs.drop_last());
        assert(pairs.drop_last().map_values(|t: (SeatId, Money)| t.1) =~= mapped.drop_last());
        assert(mapped.last() == pairs.last().1);
    }
}

/// The acting seat went all-in: same cards, the all-in flag now set.
pub open spec fn spec_marked_all_in(before: State, after: State) -> bool {
    match (before, after) {
        (State::Play { cards: c0, all_in: _ }, State::Play { cards: c1, all_in: a }) => c1@ == c0@
            && a == true,
        _ => false,
    }
}

/// Decode a seat's chosen class and apply it to the betting state: fold,
/// check, call or raise, with all-in marking, the full-bet normalization of
/// a short all-in call, and the table-target bookkeeping. A betting-rule
/// violation aborts with an error. The sum of the acting seat's fund and
/// pot is conserved in every outcome, and no other seat is touched.
#[verifier::loop_isolation(false)]
pub fn table_run<AC: ActionClass, E>(
    sim: &Sim<AC>,
    round_id: usize,
    player_funds: &mut Vec<Money>,
    player_pots: &mut Vec<Money>,
    player_states: &mut Vec<State>,
    table_target: &mut Money,
    table_target_raise: &mut Money,
    table_target_by: &mut Option<usize>,
    seat_id: SeatId,
    action_i: u8,
) -> (r: Result<(Action, Option<Money>, Option<Money>), Error<E>>)
    requires
        sim.wf(),
        sim.action_class.round_ok(round_id as int),
        old(player_funds)@.len() == sim.profile.players,
        old(player_pots)@.len() == sim.profile.players,
        old(player_states)@.len() == sim.profile.players,
        seat_id < sim.profile.players,
        action_i < 3,
        state_active(old(player_states)@[seat_id as int]),
        forall|s: int|
            0 <= s < sim.profile.players ==> old(player_pots)@[s]@ <= old(table_target)@,
        old(table_target)@ + sim.action_class.raise_size(sim.blind_biggest@, round_id as int)
            <= u32::MAX,
        (*old(table_target_by) matches Some(b) ==> b < sim.profile.players),
    ensures
        final(player_funds)@.len() == sim.profile.players,
        final(player_pots)@.len() == sim.profile.players,
        final(player_states)@.len() == sim.profile.players,
        forall|j: int|
            0 <= j < sim.profile.players && j != seat_id ==> final(player_funds)@[j] == old(
                player_funds)@[j] && final(player_pots)@[j] == old(player_pots)@[j] && final(
                player_states)@[j] == old(player_states)@[j],
        final(player_funds)@[seat_id as int]@ + final(player_pots)@[seat_id as int]@ == old(
            player_funds)@[seat_id as int]@ + old(player_pots)@[seat_id as int]@,
        old(table_target)@ <= final(table_target)@,
        (r is Ok ==> forall|s: int|
            0 <= s < sim.profile.players ==> final(player_pots)@[s]@ <= final(table_target)@),
        (*final(table_target_by) matches Some(b) ==> b < sim.profile.players),
        (*final(table_target_by) == *old(table_target_by) || *final(table_target_by) == Some(
            seat_id,
        )),
        ({
            let blind = sim.blind_biggest@;
            let pot0 = old(player_pots)@[seat_id as int]@;
            let fund0 = old(player_funds)@[seat_id as int]@;
            let target0 = old(table_target)@;
            let raise0 = old(table_target_raise)@;
            let rs = sim.action_class.raise_size(blind, round_id as int);
            let cp = sim.action_class.call_pledge(blind, target0, pot0);
            let targets_unchanged = *final(table_target) == *old(table_target) && *final(table_target_raise) == *old(table_target_raise);
            if action_i == 0 {
                &&& targets_unchanged
                &&& *final(table_target_by) == *old(table_target_by)
                &&& final(player_funds)@ == old(player_funds)@
                &&& final(player_pots)@ == old(player_pots)@
                &&& if pot0 >= target0 && sim.strict {
                    (r matches Err(e) && e matches Error::Semantic(_)) && final(player_states)@
                        == old(player_states)@
                } else {
                    r == Ok::<_, Error<E>>((Action::Fold, None::<Money>, None::<Money>)) && final(player_states)@[seat_id as int] == State::Folded
                }
            } else if action_i == 1 && pot0 == target0 {
                &&& targets_unchanged
                &&& *final(table_target_by) == *old(table_target_by)
                &&& final(player_funds)@ == old(player_funds)@
                &&& final(player_pots)@ == old(player_pots)@
                &&& final(player_states)@ == old(player_states)@
                &&& (r matches Ok(t) && t.0 == Action::Call && t.1 is None && t.2 is None)
            } else {
                let money0 = if action_i == 1 {
                    cp
                } else {
                    target0 + rs - pot0
                };
                let money = if money0 > fund0 && !sim.strict {
                    fund0
                } else {
                    money0
                };
                let all_in = money == fund0;
                let pot1 = pot0 + money;
                let raise = pot1 - target0;
                if money0 > fund0 && sim.strict {
                    // The pledge exceeds the fund under strict play: the
                    // hand aborts with nothing changed.
                    &&& targets_unchanged
                    &&& *final(table_target_by) == *old(table_target_by)
                    &&& final(player_funds)@ == old(player_funds)@
                    &&& final(player_pots)@ == old(player_pots)@
                    &&& final(player_states)@ == old(player_states)@
                    &&& (r matches Err(e) && (e matches Error::InsufficientFund {
                        seat_id: es,
                        fund: ef,
                        bet: eb,
                    } && es == seat_id && ef@ == fund0 && eb@ == money0))
                } else {
                    // With strict play off, a pledge beyond the fund is
                    // clipped to the whole fund and the seat is all-in.
                    let states_ok = if all_in {
                        spec_marked_all_in(
                            old(player_states)@[seat_id as int],
                            final(player_states)@[seat_id as int],
                        )
                    } else {
                        final(player_states)@ == old(player_states)@
                    };
                    &&& states_ok
                    &&& if action_i == 1 {
                        if all_in && raise > 0 && raise >= raise0 {
                            // A short all-in that is not short after all:
                            // the pledge stands but the hand aborts.
                            &&& (r matches Err(e) && e matches Error::Semantic(_))
                            &&& targets_unchanged
                            &&& *final(table_target_by) == *old(table_target_by)
                            &&& final(player_funds)@[seat_id as int]@ == fund0 - money
                            &&& final(player_pots)@[seat_id as int]@ == pot1
                        } else if !all_in && raise != 0 {
                            // A call that does not land on the target.
                            &&& (r matches Err(e) && e matches Error::Semantic(_))
                            &&& targets_unchanged
                            &&& *final(table_target_by) == *old(table_target_by)
                            &&& final(player_funds)@[seat_id as int]@ == fund0 - money
                            &&& final(player_pots)@[seat_id as int]@ == pot1
                        } else {
                            let norm = if all_in && raise > 0 {
                                money - raise
                            } else {
                                money
                            };
                            let pot_final = if all_in && raise > 0 {
                                target0
                            } else {
                                pot1
                            };
                            let by_was_set = match *old(table_target_by) {
                                Some(b) => (final(player_states)@[b as int]
                                    matches State::Play { all_in: a, .. } && a),
                                None => true,
                            };
                            let by_err = match *old(table_target_by) {
                                Some(b) => !(final(player_states)@[b as int]
                                    matches State::Play { .. }),
                                None => false,
                            };
                            &&& final(player_funds)@[seat_id as int]@ == fund0 - norm
                            &&& final(player_pots)@[seat_id as int]@ == pot_final
                            &&& targets_unchanged
                            &&& if by_err {
                                (r matches Err(e) && e matches Error::Semantic(_)) && *final(table_target_by) == *old(table_target_by)
                            } else {
                                &&& (r matches Ok(t) && t.0 == Action::Call && (
                                t.1 matches Some(m) && m@ == money) && (t.2 matches Some(m2)
                                    && m2@ == norm))
                                &&& *final(table_target_by) == if by_was_set {
                                    Some(seat_id)
                                } else {
                                    *old(table_target_by)
                                }
                            }
                        }
                    } else {
                        // A raise: it must be a genuine raise of at least
                        // the standing raise size.
                        if !(raise > 0 && raise >= raise0) {
                            &&& (r matches Err(e) && e matches Error::Semantic(_))
                            &&& targets_unchanged
                            &&& *final(table_target_by) == *old(table_target_by)
                            &&& final(player_funds)@[seat_id as int]@ == fund0 - money
                            &&& final(player_pots)@[seat_id as int]@ == pot1
                        } else {
                            &&& (r matches Ok(t) && t.0 == Action::Raise && (t.1 matches Some(m)
                                && m@ == money) && (t.2 matches Some(m2) && m2@ == money))
                            &&& final(player_funds)@[seat_id as int]@ == fund0 - money
                            &&& final(player_pots)@[seat_id as int]@ == pot1
                            &&& final(table_target)@ == pot1
                            &&& final(table_target_raise)@ == raise
                            &&& *final(table_target_by) == Some(seat_id)
                        }
                    }
                }
            }
        }),
{
    let ghost blind = sim.blind_biggest@;
    let ghost pot0 = player_pots@[seat_id as int]@;
    let ghost fund0 = player_funds@[seat_id as int]@;
    let ghost target0 = table_target@;
    let ghost rs = sim.action_class.raise_size(blind, round_id as int);
    proof {
        sim.action_class.lemma_pledges_bounded(blind, round_id as int, target0, pot0);
    }

    let decoded = sim.action_class.unapply(
        sim.blind_biggest,
        round_id,
        player_funds[seat_id],
        *table_target,
        *table_target_raise,
        player_pots[seat_id],
        action_i,
    );
    let (action, money_opt) = match decoded {
        Ok(pair) => pair,
        Err(msg) => {
            return Err(Error::Semantic(msg));
        },
    };

    let mut money_norm = money_opt;

    if matches!(action, Action::Fold) {
        if player_pots[seat_id].unpack() >= table_target.unpack() && sim.strict {
            return Err(
                Error::Semantic(String::from_str("can not fold when already at target")),
            );
        } else {
            player_states.set(seat_id, State::Folded);
        }
        Ok((action, money_opt, money_norm))
    } else if matches!(action, Action::Call) && money_opt.is_none() {
        if player_pots[seat_id].unpack() != table_target.unpack() {
            return Err(
                Error::Semantic(String::from_str("can not check when target is not reached")),
            );
        }
        Ok((action, money_opt, money_norm))
    } else {
        let money = match money_opt {
            Some(m) => m,
            None => {
                // Unreachable: a call or raise always decodes a pledge.
                return Err(Error::Semantic(String::from_str("missing pledge")));
            },
        };

        let is_call = matches!(action, Action::Call);
        if is_call && player_pots[seat_id].unpack() >= table_target.unpack() {
            // Unreachable for the shipped variants: a call below the target
            // always carries a pledge.
            return Err(Error::Semantic(String::from_str("can not call when already at target")));
        }

        if money.unpack() > player_funds[seat_id].unpack() && sim.strict {
            return Err(
                Error::InsufficientFund {
                    seat_id,
                    fund: player_funds[seat_id],
                    bet: money,
                },
            );
        }
        // With strict play off, an over-fund pledge is clipped to the fund.
        let money = if money.unpack() > player_funds[seat_id].unpack() {
            player_funds[seat_id]
        } else {
            money
        };
        let money_opt = Some(money);
        money_norm = Some(money);

        let all_in = money.unpack() == player_funds[seat_id].unpack();
        if all_in {
            let cards_copy = match &player_states[seat_id] {
                State::Play { cards, .. } => crate::cards::copy_cards(cards),
                _ => {
                    // Unreachable: the acting seat is playing.
                    Vec::new()
                },
            };
            player_states.set(seat_id, State::Play { cards: cards_copy, all_in: true });
        }

        if !pledge_apply(player_funds, player_pots, seat_id, money) {
            // Unreachable: the pledge never exceeds the fund here.
            return Err(
                Error::InsufficientFund {
                    seat_id,
                    fund: player_funds[seat_id],
                    bet: money,
                },
            );
        }

        let ghost pot1 = player_pots@[seat_id as int]@;
        let raise_up = player_pots[seat_id].unpack() > table_target.unpack();
        let ghost raise = pot1 - target0;

        if is_call {
            if all_in {
                // The full-bet rule: a short all-in call is normalized down
                // to the short amount; it cannot stand as a raise.
                if raise_up {
                    let excess = player_pots[seat_id].unpack() - table_target.unpack();
                    if excess >= table_target_raise.unpack() {
                        return Err(
                            Error::Semantic(
                                String::from_str("all-in overshoot reaches the raise size"),
                            ),
                        );
                    }
                    money_norm = Some(Money::from_u32(money.unpack() - excess));
                    pledge_unapply(player_funds, player_pots, seat_id, Money::from_u32(excess));
                }
            } else {
                if raise_up || player_pots[seat_id].unpack() < table_target.unpack() {
                    return Err(
                        Error::Semantic(String::from_str("call does not land on the target")),
                    );
                }
            }

            let target_set = match *table_target_by {
                Some(by) => match &player_states[by] {
                    State::Play { all_in: a, .. } => *a,
                    _ => {
                        return Err(
                            Error::Semantic(
                                String::from_str("target setter is no longer playing"),
                            ),
                        );
                    },
                },
                None => true,
            };
            if target_set {
                *table_target_by = Some(seat_id);
            }
            Ok((action, money_opt, money_norm))
        } else {
            let raise_ok = raise_up && (player_pots[seat_id].unpack() - table_target.unpack())
                >= table_target_raise.unpack();
            if !raise_ok {
                return Err(
                    Error::Semantic(String::from_str("raise below the standing raise size")),
                );
            }
            *table_target_raise = Money::from_u32(
                player_pots[seat_id].unpack() - table_target.unpack(),
            );
            *table_target = player_pots[seat_id];
            *table_target_by = Some(seat_id);
            Ok((action, money_opt, money_norm))
        }
    }
}

} // verus!
