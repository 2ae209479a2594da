use vstd::prelude::*;
use crate::model::{Action, ActionClass, SeatId, class_of_action};
use crate::money::Money;
use crate::sim::{Act, Sim, State, state_active};

verus! {

broadcast use crate::money::lemma_money_nonneg, crate::money::lemma_money_bounded;

/// The seat after `seat_id` in rotation order.
pub open spec fn spec_seat_next(players: int, seat_id: int) -> int {
    if seat_id == players - 1 {
        0
    } else {
        seat_id + 1
    }
}

/// The seat before `seat_id` in rotation order.
pub open spec fn spec_seat_previous(players: int, seat_id: int) -> int {
    if seat_id == 0 {
        players - 1
    } else {
        seat_id - 1
    }
}

/// The seat reached from `seat_id` by `k + 1` forward steps.
pub open spec fn spec_walk(players: int, seat_id: int, k: int) -> int
    decreases k + 1,
{
    if k <= 0 {
        spec_seat_next(players, seat_id)
    } else {
        spec_seat_next(players, spec_walk(players, seat_id, k - 1))
    }
}

/// Closed form of the walk: adding the step count and wrapping at most once
/// around the table, as long as fewer than `players` steps are taken.
pub proof fn lemma_walk_formula(players: int, seat_id: int, k: int)
    requires
        0 <= seat_id < players,
        0 <= k < players,
    ensures
        spec_walk(players, seat_id, k) == if seat_id + 1 + k < players {
            seat_id + 1 + k
        } else {
            seat_id + 1 + k - players
        },
        0 <= spec_walk(players, seat_id, k) < players,
    decreases k,
{
    if k > 0 {
        lemma_walk_formula(players, seat_id, k - 1);
    }
}

/// Distinct step counts below `players` reach distinct seats.
pub proof fn lemma_walk_injective(players: int, seat_id: int, k1: int, k2: int)
    requires
        0 <= seat_id < players,
        0 <= k1 < players,
        0 <= k2 < players,
        k1 != k2,
    ensures
        spec_walk(players, seat_id, k1) != spec_walk(players, seat_id, k2),
{
    lemma_walk_formula(players, seat_id, k1);
    lemma_walk_formula(players, seat_id, k2);
}

/// Every seat is reached within `players` steps.
pub proof fn lemma_walk_covers(players: int, seat_id: int, target: int)
    requires
        0 <= seat_id < players,
        0 <= target < players,
    ensures
        exists|k: int|
            0 <= k < players && spec_walk(players, seat_id, k) == target,
{
    if target > seat_id {
        let k = target - seat_id - 1;
        lemma_walk_formula(players, seat_id, k);
        assert(spec_walk(players, seat_id, k) == target);
    } else {
        let k = target + players - seat_id - 1;
        lemma_walk_formula(players, seat_id, k);
        assert(spec_walk(players, seat_id, k) == target);
    }
}

/// Walking from a seat already reached by a walk continues the same walk.
pub proof fn lemma_walk_compose(players: int, seat_id: int, e: int, k: int)
    requires
        0 <= seat_id < players,
        e >= 0,
        k >= 0,
    ensures
        spec_walk(players, spec_walk(players, seat_id, e), k) == spec_walk(
            players,
            seat_id,
            e + 1 + k,
        ),
    decreases k,
{
    if k == 0 {
    } else {
        lemma_walk_compose(players, seat_id, e, k - 1);
    }
}

pub fn seat_next(players: usize, seat_id: SeatId) -> (r: SeatId)
    requires
        players >= 1,
        seat_id < players,
    ensures
        r == spec_seat_next(players as int, seat_id as int),
        r < players,
{
    if seat_id == players - 1 {
        0
    } else {
        seat_id + 1
    }
}

pub fn seat_previous(players: usize, seat_id: SeatId) -> (r: SeatId)
    requires
        players >= 1,
        seat_id < players,
    ensures
        r == spec_seat_previous(players as int, seat_id as int),
        r < players,
{
    if seat_id == 0 {
        players - 1
    } else {
        seat_id - 1
    }
}

/// The step count at which the walk from `seat` first reaches a seat that
/// can still act, or `players` when none can.
pub open spec fn spec_first_active_step(states: Seq<State>, players: int, seat: int, k: int) -> int
    decreases players - k,
{
    if k < 0 || k >= players {
        players
    } else if 0 <= spec_walk(players, seat, k) < states.len() && state_active(
        states[spec_walk(players, seat, k)],
    ) {
        k
    } else {
        spec_first_active_step(states, players, seat, k + 1)
    }
}

pub proof fn lemma_first_active_step_found(
    states: Seq<State>,
    players: int,
    seat: int,
    m: int,
    k: int,
)
    requires
        0 <= m <= k < players,
        0 <= seat < players,
        states.len() == players,
        0 <= spec_walk(players, seat, k) < players,
        state_active(states[spec_walk(players, seat, k)]),
        forall|j: int|
            m <= j < k ==> !(0 <= spec_walk(players, seat, j) < states.len() && state_active(
                states[spec_walk(players, seat, j)],
            )),
    ensures
        spec_first_active_step(states, players, seat, m) == k,
    decreases k - m,
{
    if m < k {
        lemma_first_active_step_found(states, players, seat, m + 1, k);
    }
}

/// The seat reached from `seat` by walking forward to the first seat that
/// can still act.
pub open spec fn spec_next_active_seat(states: Seq<State>, players: int, seat: int) -> int {
    spec_walk(players, seat, spec_first_active_step(states, players, seat, 0))
}

/// Whether a seat list holds a given seat.
pub fn contains_seat(xs: &Vec<SeatId>, v: SeatId) -> (b: bool)
    ensures
        b == xs@.contains(v),
{
    let mut i: usize = 0;
    while i < xs.len()
        invariant
            i <= xs@.len(),
            forall|k: int| 0 <= k < i ==> xs@[k] != v,
        decreases xs@.len() - i,
    {
        if xs[i] == v {
            assert(xs@.contains(v));
            return true;
        }
        i += 1;
    }
    assert(!xs@.contains(v)) by {
        if xs@.contains(v) {
            let w = choose|w: int| 0 <= w < xs@.len() && xs@[w] == v;
            assert(xs@[w] != v);
        }
    }
    false
}

/// The first seat in `player_actives`, walking forward from the seat after
/// `seat_id`; `None` when no listed seat lies inside the table.
#[verifier::loop_isolation(false)]
pub fn seat_next_active(players: usize, player_actives: &Vec<SeatId>, seat_id: SeatId) -> (r:
    Option<SeatId>)
    requires
        players >= 1,
        seat_id < players,
    ensures
        (r matches Some(s) ==> exists|k: int|
            {
                &&& 0 <= k < players
                &&& s == spec_walk(players as int, seat_id as int, k)
                &&& player_actives@.contains(s)
                &&& forall|j: int|
                    0 <= j < k ==> !player_actives@.contains(
                        spec_walk(players as int, seat_id as int, j) as usize,
                    )
            }),
        r is None ==> forall|k: int|
            0 <= k < players ==> !player_actives@.contains(
                spec_walk(players as int, seat_id as int, k) as usize,
            ),
{
    let mut value = seat_next(players, seat_id);
    let mut i: usize = 0;
    while i < players
        invariant
            i <= players,
            value == spec_walk(players as int, seat_id as int, i as int),
            0 <= value < players,
            forall|j: int|
                0 <= j < i ==> !player_actives@.contains(
                    spec_walk(players as int, seat_id as int, j) as usize,
                ),
        decreases players - i,
    {
        proof {
            lemma_walk_formula(players as int, seat_id as int, i as int);
        }
        if contains_seat(player_actives, value) {
            return Some(value);
        }
        value = seat_next(players, value);
        i += 1;
    }
    None
}

/// Seats that can still act: playing and not all-in, in ascending order.
pub fn player_actives(player_states: &Vec<State>) -> (r: Vec<SeatId>)
    ensures
        forall|i: int|
            0 <= i < r@.len() ==> (#[trigger] r@[i]) < player_states@.len() && state_active(
                player_states@[r@[i] as int],
            ),
        forall|s: SeatId|
            s < player_states@.len() && state_active(player_states@[s as int]) ==> r@.contains(s),
        forall|i: int, j: int| 0 <= i < j < r@.len() ==> r@[i] < r@[j],
        r@.len() == crate::sim::spec_active_count(player_states@),
{
    let mut r: Vec<SeatId> = Vec::new();
    let mut s: usize = 0;
    while s < player_states.len()
        invariant
            s <= player_states@.len(),
            r@.len() == crate::sim::spec_active_count(player_states@.take(s as int)),
            forall|i: int|
                0 <= i < r@.len() ==> (#[trigger] r@[i]) < s && state_active(
                    player_states@[r@[i] as int],
                ),
            forall|t: SeatId|
                t < s && state_active(player_states@[t as int]) ==> r@.contains(t),
            forall|i: int, j: int| 0 <= i < j < r@.len() ==> r@[i] < r@[j],
        decreases player_states@.len() - s,
    {
        let active = match &player_states[s] {
            State::Play { all_in, .. } => !*all_in,
            _ => false,
        };
        assert(active == state_active(player_states@[s as int]));
        proof {
            assert(player_states@.take(s + 1).drop_last() =~= player_states@.take(s as int));
            assert(player_states@.take(s + 1).last() == player_states@[s as int]);
        }
        let ghost r_before = r@;
        if active {
            r.push(s);
            assert(r@.contains(s)) by {
                assert(r@[r@.len() - 1] == s);
            }
        }
        proof {
            assert forall|t: SeatId|
                t < s + 1 && state_active(player_states@[t as int]) implies r@.contains(t) by {
                if t < s {
                    assert(r_before.contains(t));
                    let w = choose|w: int| 0 <= w < r_before.len() && r_before[w] == t;
                    assert(r@[w] == t);
                } else {
                    assert(t == s);
                }
            }
        }
        s += 1;
    }
    proof {
        assert(player_states@.take(player_states@.len() as int) =~= player_states@);
    }
    r
}

/// Move `money` from a seat's fund into its pot; `false`, with nothing
/// changed, when the fund does not cover it.
pub fn pledge_apply(
    player_funds: &mut Vec<Money>,
    player_pots: &mut Vec<Money>,
    seat_id: usize,
    money: Money,
) -> (b: bool)
    requires
        seat_id < old(player_funds)@.len(),
        old(player_funds)@.len() == old(player_pots)@.len(),
        old(player_pots)@[seat_id as int]@ + money@ <= u32::MAX,
    ensures
        final(player_funds)@.len() == old(player_funds)@.len(),
        final(player_pots)@.len() == old(player_pots)@.len(),
        b == (old(player_funds)@[seat_id as int]@ >= money@),
        b ==> final(player_funds)@[seat_id as int]@ == old(player_funds)@[seat_id as int]@ - money@
            && final(player_pots)@[seat_id as int]@ == old(player_pots)@[seat_id as int]@ + money@,
        !b ==> final(player_funds)@ == old(player_funds)@ && final(player_pots)@ == old(player_pots)@,
        forall|j: int|
            0 <= j < final(player_funds)@.len() && j != seat_id ==> final(player_funds)@[j] == old(
                player_funds,
            )@[j] && final(player_pots)@[j] == old(player_pots)@[j],
{
    let fund = player_funds[seat_id];
    match fund.checked_sub(money) {
        Some(rest) => {
            let pot = player_pots[seat_id].plus(money);
            player_funds.set(seat_id, rest);
            player_pots.set(seat_id, pot);
            true
        },
        None => false,
    }
}

/// Move `money` back from a seat's pot into its fund; the pot must cover it.
pub fn pledge_unapply(
    player_funds: &mut Vec<Money>,
    player_pots: &mut Vec<Money>,
    seat_id: usize,
    money: Money,
)
    requires
        seat_id < old(player_funds)@.len(),
        old(player_funds)@.len() == old(player_pots)@.len(),
        old(player_pots)@[seat_id as int]@ >= money@,
        old(player_funds)@[seat_id as int]@ + money@ <= u32::MAX,
    ensures
        final(player_funds)@.len() == old(player_funds)@.len(),
        final(player_pots)@.len() == old(player_pots)@.len(),
        final(player_funds)@[seat_id as int]@ == old(player_funds)@[seat_id as int]@ + money@,
        final(player_pots)@[seat_id as int]@ == old(player_pots)@[seat_id as int]@ - money@,
        forall|j: int|
            0 <= j < final(player_funds)@.len() && j != seat_id ==> final(player_funds)@[j] == old(
                player_funds,
            )@[j] && final(player_pots)@[j] == old(player_pots)@[j],
{
    let pot = match player_pots[seat_id].checked_sub(money) {
        Some(p) => p,
        None => {
            // Unreachable: the precondition asks that the pot cover it.
            Money::zero()
        },
    };
    let fund = player_funds[seat_id].plus(money);
    player_pots.set(seat_id, pot);
    player_funds.set(seat_id, fund);
}

/// Total cents that a list of blind posts takes from one seat.
pub open spec fn spec_posted(posts: Seq<(Act, Money)>, s: int) -> int
    decreases posts.len(),
{
    if posts.len() == 0 {
        0
    } else {
        spec_posted(posts.drop_last(), s) + if posts.last().0.seat_id == s {
            posts.last().1@
        } else {
            0
        }
    }
}

pub proof fn lemma_posted_nonneg(posts: Seq<(Act, Money)>, s: int)
    ensures
        spec_posted(posts, s) >= 0,
    decreases posts.len(),
{
    if posts.len() > 0 {
        lemma_posted_nonneg(posts.drop_last(), s);
    }
}

/// A seat that appears in no post is charged nothing.
pub proof fn lemma_posted_zero(posts: Seq<(Act, Money)>, s: int)
    requires
        forall|k: int| 0 <= k < posts.len() ==> (#[trigger] posts[k]).0.seat_id != s,
    ensures
        spec_posted(posts, s) == 0,
    decreases posts.len(),
{
    if posts.len() > 0 {
        lemma_posted_zero(posts.drop_last(), s);
    }
}

/// With pairwise distinct posting seats, a seat that posted is charged
/// exactly its one post.
pub proof fn lemma_posted_distinct(posts: Seq<(Act, Money)>, s: int, k: int)
    requires
        0 <= k < posts.len(),
        posts[k].0.seat_id == s,
        forall|k1: int, k2: int|
            0 <= k1 < k2 < posts.len() ==> posts[k1].0.seat_id != posts[k2].0.seat_id,
    ensures
        spec_posted(posts, s) == posts[k].1@,
    decreases posts.len(),
{
    if k == posts.len() - 1 {
        assert(forall|j: int|
            0 <= j < posts.drop_last().len() ==> (#[trigger] posts.drop_last()[j]).0.seat_id
                != s);
        lemma_posted_zero(posts.drop_last(), s);
    } else {
        assert(posts.drop_last()[k] == posts[k]);
        lemma_posted_distinct(posts.drop_last(), s, k);
        assert(posts.last().0.seat_id != s);
    }
}

/// A prefix of the posts, plus one further post by the seat, charges the
/// seat no more than the whole list does.
pub proof fn lemma_posted_take_bound(posts: Seq<(Act, Money)>, s: int, i: int)
    requires
        0 <= i < posts.len(),
        posts[i].0.seat_id == s,
    ensures
        spec_posted(posts, s) >= spec_posted(posts.take(i), s) + posts[i].1@,
    decreases posts.len(),
{
    if i == posts.len() - 1 {
        assert(posts.take(i) =~= posts.drop_last());
        lemma_posted_nonneg(posts.drop_last(), s);
    } else {
        assert(posts.drop_last().take(i) =~= posts.take(i));
        assert(posts.drop_last()[i] == posts[i]);
        lemma_posted_take_bound(posts.drop_last(), s, i);
    }
}

/// Post the blinds in seat order starting at `player_first`, skipping seats
/// that are not playing. One blind is posted per active seat, in rotation
/// order, until the blind list or the active seats run out; no seat posts
/// twice. Returns the seat to act next and the ordered list of posts.
#[verifier::loop_isolation(false)]
pub fn blinds_apply<AC: ActionClass>(
    sim: &Sim<AC>,
    player_first: SeatId,
    player_funds: &mut Vec<Money>,
    player_pots: &mut Vec<Money>,
    player_states: &Vec<State>,
) -> (r: (SeatId, Vec<(Act, Money)>))
    requires
        sim.wf(),
        player_states@.len() == sim.profile.players,
        old(player_funds)@.len() == sim.profile.players,
        old(player_pots)@.len() == sim.profile.players,
        player_first < sim.profile.players,
        state_active(player_states@[player_first as int]),
        forall|s: int|
            0 <= s < sim.profile.players && state_active(player_states@[s]) ==> old(
                player_funds,
            )@[s]@ >= sim.blind_biggest@,
        forall|s: int|
            0 <= s < sim.profile.players ==> old(player_funds)@[s]@ + old(player_pots)@[s]@
                <= u32::MAX,
    ensures
        final(player_funds)@.len() == sim.profile.players,
        final(player_pots)@.len() == sim.profile.players,
        forall|s: int|
            0 <= s < sim.profile.players ==> final(player_funds)@[s]@ == old(player_funds)@[s]@
                - spec_posted(r.1@, s) && final(player_pots)@[s]@ == old(player_pots)@[s]@
                + spec_posted(r.1@, s),
        1 <= r.1@.len() <= sim.profile.blinds@.len(),
        forall|k: int|
            0 <= k < r.1@.len() ==> {
                let post = #[trigger] r.1@[k];
                &&& post.1 == sim.profile.blinds@[k]
                &&& post.0.action == 2
                &&& post.0.seat_id < sim.profile.players
                &&& state_active(player_states@[post.0.seat_id as int])
            },
        forall|k1: int, k2: int|
            0 <= k1 < k2 < r.1@.len() ==> r.1@[k1].0.seat_id != r.1@[k2].0.seat_id,
        r.1@[0].0.seat_id == player_first,
        r.0 < sim.profile.players,
        state_active(player_states@[r.0 as int]),
        // The posters are the consecutive active seats in rotation, and
        // play continues at the active seat after the last poster.
        forall|k: int|
            0 <= k < r.1@.len() - 1 ==> (#[trigger] r.1@[k + 1]).0.seat_id as int
                == spec_next_active_seat(
                player_states@,
                sim.profile.players as int,
                r.1@[k].0.seat_id as int,
            ),
        r.0 as int == spec_next_active_seat(
            player_states@,
            sim.profile.players as int,
            r.1@[r.1@.len() - 1].0.seat_id as int,
        ),
{
    let players = sim.profile.players;
    let actives = player_actives(player_states);
    let n = if sim.profile.blinds.len() < actives.len() {
        sim.profile.blinds.len()
    } else {
        actives.len()
    };
    proof {
        assert(actives@.contains(player_first));
        assert(n >= 1);
        assert(actives@.no_duplicates());
    }

    let ghost q = spec_seat_previous(players as int, player_first as int);
    let ghost funds0 = old(player_funds)@;
    let ghost pots0 = old(player_pots)@;

    let mut active = player_first;
    let mut raises: Vec<(Act, Money)> = Vec::new();
    let ghost mut es: Seq<int> = Seq::empty();
    let ghost mut e_cur: int = 0;

    proof {
        assert(spec_walk(players as int, q, 0) == player_first as int);
    }

    let mut k: usize = 0;
    while k < n
        invariant
            k <= n,
            raises@.len() == k,
            es.len() == k,
            player_funds@.len() == players,
            player_pots@.len() == players,
            // books per seat
            forall|s: int|
                0 <= s < players ==> player_funds@[s]@ == funds0[s]@ - spec_posted(raises@, s)
                    && player_pots@[s]@ == pots0[s]@ + spec_posted(raises@, s),
            // recorded posts
            forall|j: int|
                0 <= j < k ==> {
                    let post = #[trigger] raises@[j];
                    &&& post.1 == sim.profile.blinds@[j]
                    &&& post.0.action == 2
                    &&& post.0.seat_id < players
                    &&& state_active(player_states@[post.0.seat_id as int])
                    &&& actives@.contains(post.0.seat_id)
                },
            k > 0 ==> raises@[0].0.seat_id == player_first,
            forall|j1: int, j2: int|
                0 <= j1 < j2 < k ==> raises@[j1].0.seat_id != raises@[j2].0.seat_id,
            // ghost walk bookkeeping, live while more posts remain
            k < n ==> {
                &&& 0 <= e_cur <= players - 1
                &&& active as int == spec_walk(players as int, q, e_cur)
                &&& actives@.contains(active)
                &&& forall|j: int| 0 <= j < k ==> 0 <= #[trigger] es[j] < e_cur
                &&& forall|j: int|
                    0 <= j < k ==> raises@[j].0.seat_id as int == spec_walk(
                        players as int,
                        q,
                        es[j],
                    )
                &&& forall|t: int|
                    0 <= t < e_cur && actives@.contains(
                        spec_walk(players as int, q, t) as usize,
                    ) ==> exists|j: int| 0 <= j < k && es[j] == t
            },
            active < players,
            state_active(player_states@[active as int]),
            k >= 1 ==> active as int == spec_next_active_seat(
                player_states@,
                players as int,
                raises@[k - 1].0.seat_id as int,
            ),
            forall|j: int|
                0 <= j < k - 1 ==> (#[trigger] raises@[j + 1]).0.seat_id as int
                    == spec_next_active_seat(
                    player_states@,
                    players as int,
                    raises@[j].0.seat_id as int,
                ),
        decreases n - k,
    {
        let blind = sim.profile.blinds[k];
        proof {
            // The current candidate has not posted yet, so its fund is whole.
            assert forall|j: int| 0 <= j < k implies raises@[j].0.seat_id != active by {
                lemma_walk_injective(players as int, q, es[j], e_cur);
            }
            lemma_posted_zero(raises@, active as int);
            crate::money::lemma_money_max_is_max(sim.profile.blinds@);
            assert(blind@ <= sim.blind_biggest@);
        }
        let action_i = action_apply(
            sim,
            player_funds,
            player_pots,
            active,
            Action::Raise,
            Some(blind),
        );
        let ghost raises_before = raises@;
        let ghost es0 = es;
        raises.push((Act { seat_id: active, action: action_i }, blind));
        proof {
            es = es0.push(e_cur);
            assert(forall|j: int| 0 <= j < k ==> es[j] == es0[j]);
            assert(es[k as int] == e_cur);
            assert(raises@.drop_last() =~= raises_before);
            assert(forall|j: int| 0 <= j < k ==> raises@[j] == raises_before[j]);
            assert(raises@[k as int].0.seat_id == active);
            assert forall|s: int| 0 <= s < players implies spec_posted(raises@, s) == spec_posted(
                raises_before,
                s,
            ) + (if active as int == s {
                blind@
            } else {
                0
            }) by {
            }
        }

        // Advance to the next active seat.
        let ghost e_posted = e_cur;
        let next = match seat_next_active(players, &actives, active) {
            Some(s) => s,
            None => {
                proof {
                    lemma_walk_covers(players as int, active as int, active as int);
                    let kk = choose|kk: int|
                        0 <= kk < players && spec_walk(players as int, active as int, kk)
                            == active as int;
                    assert(!actives@.contains(
                        spec_walk(players as int, active as int, kk) as usize,
                    ));
                }
                active
            },
        };
        proof {
            let step = choose|st: int|
                {
                    &&& 0 <= st < players
                    &&& next as int == spec_walk(players as int, active as int, st)
                    &&& actives@.contains(next)
                    &&& forall|j: int|
                        0 <= j < st ==> !actives@.contains(
                            spec_walk(players as int, active as int, j) as usize,
                        )
                };
            // The chosen seat is the first active one after the poster.
            assert forall|j: int|
                0 <= j < step implies !(0 <= spec_walk(players as int, active as int, j)
                < player_states@.len() && state_active(
                player_states@[spec_walk(players as int, active as int, j)],
            )) by {
                lemma_walk_formula(players as int, active as int, j);
                if state_active(player_states@[spec_walk(players as int, active as int, j)]) {
                    assert(actives@.contains(
                        spec_walk(players as int, active as int, j) as usize,
                    ));
                }
            }
            let wnext = choose|w: int| 0 <= w < actives@.len() && actives@[w] == next;
            lemma_walk_formula(players as int, active as int, step);
            lemma_first_active_step_found(player_states@, players as int, active as int, 0, step);
            assert(next as int == spec_next_active_seat(
                player_states@,
                players as int,
                active as int,
            ));
            let e_next = e_posted + 1 + step;
            lemma_walk_compose(players as int, q, e_posted, step);
            assert(next as int == spec_walk(players as int, q, e_next));
            // Positions strictly between the posted seat and the next active
            // seat hold no active seat.
            assert forall|t: int|
                e_posted < t < e_next && actives@.contains(
                    spec_walk(players as int, q, t) as usize,
                ) implies false by {
                lemma_walk_compose(players as int, q, e_posted, t - e_posted - 1);
                assert(spec_walk(players as int, q, t) == spec_walk(
                    players as int,
                    active as int,
                    t - e_posted - 1,
                ));
            }
            if k + 1 < n {
                // The walk cannot wrap: otherwise every active seat would
                // already have posted, yet more posts are owed than there
                // are posters so far.
                if e_next > players - 1 {
                    let posters = raises@.map_values(|post: (Act, Money)| post.0.seat_id);
                    assert(posters.len() == k + 1);
                    assert forall|a: SeatId| actives@.contains(a) implies posters.contains(a) by {
                        let ghost ai = choose|ai: int|
                            0 <= ai < actives@.len() && actives@[ai] == a;
                        lemma_walk_covers(players as int, q, a as int);
                        let t = choose|t: int|
                            0 <= t < players && spec_walk(players as int, q, t) == a as int;
                        if t < e_next {
                            if t < e_posted {
                                let j = choose|j: int| 0 <= j < k && es0[j] == t;
                                assert(raises@[j] == raises_before[j]);
                                assert(raises_before[j].0.seat_id as int == spec_walk(
                                    players as int,
                                    q,
                                    es0[j],
                                ));
                                assert(raises@[j].0.seat_id == a);
                                assert(posters[j] == a);
                            } else if t == e_posted {
                                assert(raises@[k as int].0.seat_id == a);
                                assert(posters[k as int] == a);
                            } else {
                                assert(false);
                            }
                        } else {
                            assert(t >= players);
                            assert(false);
                        }
                    }
                    assert(actives@.to_set().subset_of(posters.to_set())) by {
                        assert forall|a: SeatId| actives@.to_set().contains(a) implies
                            posters.to_set().contains(a) by {
                            assert(actives@.contains(a));
                            assert(posters.contains(a));
                        }
                    }
                    actives@.unique_seq_to_set();
                    posters.lemma_cardinality_of_set();
                    vstd::seq_lib::seq_to_set_is_finite(posters);
                    vstd::set_lib::lemma_len_subset(actives@.to_set(), posters.to_set());
                    assert(actives@.len() <= k + 1);
                    assert(n <= actives@.len());
                    assert(false);
                }
                assert(e_next <= players - 1);
                assert forall|t: int|
                    0 <= t < e_next && actives@.contains(
                        spec_walk(players as int, q, t) as usize,
                    ) implies exists|j: int| 0 <= j < k + 1 && es[j] == t by {
                    if t < e_posted {
                        let j = choose|j: int| 0 <= j < k && es0[j] == t;
                        assert(es[j] == t);
                    } else if t == e_posted {
                        assert(es[k as int] == t);
                    } else {
                        assert(false);
                    }
                }
            }
            e_cur = e_next;
        }
        active = next;
        k += 1;
    }

    (active, raises)
}

/// Apply an optional pledge for a seat and encode the action's class.
pub fn action_apply<AC: ActionClass>(
    sim: &Sim<AC>,
    player_funds: &mut Vec<Money>,
    player_pots: &mut Vec<Money>,
    seat_id: SeatId,
    action: Action,
    money: Option<Money>,
) -> (c: u8)
    requires
        seat_id < old(player_funds)@.len(),
        old(player_funds)@.len() == old(player_pots)@.len(),
        money matches Some(m) ==> old(player_funds)@[seat_id as int]@ >= m@ && old(
            player_pots,
        )@[seat_id as int]@ + m@ <= u32::MAX,
    ensures
        c == class_of_action(action),
        final(player_funds)@.len() == old(player_funds)@.len(),
        final(player_pots)@.len() == old(player_pots)@.len(),
        (money matches Some(m) ==> final(player_funds)@[seat_id as int]@ == old(
            player_funds,
        )@[seat_id as int]@ - m@ && final(player_pots)@[seat_id as int]@ == old(
            player_pots,
        )@[seat_id as int]@ + m@),
        money is None ==> final(player_funds)@ == old(player_funds)@ && final(player_pots)@ == old(
            player_pots,
        )@,
        forall|j: int|
            0 <= j < final(player_funds)@.len() && j != seat_id ==> final(player_funds)@[j] == old(
                player_funds,
            )@[j] && final(player_pots)@[j] == old(player_pots)@[j],
{
    let money_flat = match money {
        Some(m) => {
            let ok = pledge_apply(player_funds, player_pots, seat_id, m);
            assert(ok);
            m
        },
        None => Money::zero(),
    };
    sim.action_class.apply(sim.blind_biggest, player_funds[seat_id], action, money_flat)
}

} // verus!
