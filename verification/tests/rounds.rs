use anna::cards::deck_full;
use anna::classifiers::ActionKuhn;
use anna::math::sample_all;
use anna::model::Action;
use anna::money::Money;
use anna::players::{Players, PlayersFold, PlayersRand};
use anna::random::{rng_from_seed, rseed, shuffle_cards};
use anna::rounds::{
    blinds_apply, pledge_apply, pledge_unapply, player_actives, seat_next, seat_next_active,
    seat_previous,
};
use anna::sim::{Sim, State};
use anna::profile::profile_kuhn;

#[test]
fn seat_rotation() {
    assert_eq!(seat_next(3, 0), 1);
    assert_eq!(seat_next(3, 2), 0);
    assert_eq!(seat_previous(3, 0), 2);
    assert_eq!(seat_previous(3, 1), 0);
    assert_eq!(seat_next(1, 0), 0);
}

#[test]
fn next_active_walks_forward() {
    let actives = vec![0, 2];
    assert_eq!(seat_next_active(4, &actives, 0), Some(2));
    assert_eq!(seat_next_active(4, &actives, 2), Some(0));
    assert_eq!(seat_next_active(4, &actives, 3), Some(0));
    assert_eq!(seat_next_active(4, &vec![], 0), None);
}

#[test]
fn actives_are_play_not_all_in() {
    let states = vec![
        State::Play { cards: vec![], all_in: false },
        State::Folded,
        State::Play { cards: vec![], all_in: true },
        State::Off,
        State::Play { cards: vec![], all_in: false },
    ];
    assert_eq!(player_actives(&states), vec![0, 4]);
}

#[test]
fn pledge_moves_money_both_ways() {
    let mut funds = vec![Money::from_u32(100), Money::from_u32(50)];
    let mut pots = vec![Money::zero(), Money::zero()];
    assert!(pledge_apply(&mut funds, &mut pots, 0, Money::from_u32(30)));
    assert_eq!(funds[0].unpack(), 70);
    assert_eq!(pots[0].unpack(), 30);
    // A pledge beyond the fund changes nothing.
    assert!(!pledge_apply(&mut funds, &mut pots, 1, Money::from_u32(60)));
    assert_eq!(funds[1].unpack(), 50);
    assert_eq!(pots[1].unpack(), 0);
    pledge_unapply(&mut funds, &mut pots, 0, Money::from_u32(30));
    assert_eq!(funds[0].unpack(), 100);
    assert_eq!(pots[0].unpack(), 0);
}

#[test]
fn blinds_post_in_rotation() {
    let sim = Sim {
        action_class: ActionKuhn {},
        blind_biggest: Money::new(1, 0),
        profile: profile_kuhn(3),
        strict: true,
    };
    let mut funds = vec![Money::new(10, 0), Money::new(10, 0), Money::new(10, 0)];
    let mut pots = vec![Money::zero(), Money::zero(), Money::zero()];
    let states = vec![
        State::Play { cards: vec![], all_in: false },
        State::Play { cards: vec![], all_in: false },
        State::Play { cards: vec![], all_in: false },
    ];
    let (next, posts) = blinds_apply(&sim, 1, &mut funds, &mut pots, &states);
    // Three equal blinds, posted from seat 1 around the table.
    assert_eq!(posts.len(), 3);
    let seats: Vec<usize> = posts.iter().map(|(act, _)| act.seat_id).collect();
    assert_eq!(seats, vec![1, 2, 0]);
    for (_, m) in posts.iter() {
        assert_eq!(m.unpack(), 100);
    }
    assert_eq!(next, 1);
    for s in 0..3 {
        assert_eq!(funds[s].unpack(), 900);
        assert_eq!(pots[s].unpack(), 100);
    }
}

#[test]
fn players_fold_picks_lowest_legal() {
    let mut bot = PlayersFold::new(ActionKuhn {});
    bot.init(
        &vec![Money::from_u32(10), Money::from_u32(10)],
        0,
        &vec![Money::from_u32(100), Money::from_u32(100)],
        &vec![],
    );
    // Below the target the lowest legal class is a fold.
    let c = bot
        .play(
            0,
            Money::from_u32(20),
            Some(Money::from_u32(10)),
            &vec![Money::from_u32(10), Money::from_u32(20)],
            0,
            Money::from_u32(100),
            &vec![],
        )
        .unwrap();
    assert_eq!(c, 0);
    // At the target a check comes first.
    let c = bot
        .play(
            0,
            Money::from_u32(20),
            Some(Money::from_u32(10)),
            &vec![Money::from_u32(20), Money::from_u32(20)],
            0,
            Money::from_u32(100),
            &vec![],
        )
        .unwrap();
    assert_eq!(c, 1);
}

#[test]
fn players_rand_stays_legal() {
    let mut bot = PlayersRand {
        action_class: ActionKuhn {},
        blind_biggest: Money::from_u32(10),
        rng: rng_from_seed([5u8; 32]),
    };
    // Only a check is legal: at the target, broke, no raise open.
    for _ in 0..20 {
        let c = bot
            .play(
                0,
                Money::from_u32(10),
                None,
                &vec![Money::from_u32(10)],
                0,
                Money::from_u32(5),
                &vec![],
            )
            .unwrap();
        assert_eq!(c, 1);
    }
}

#[test]
fn shuffle_keeps_the_deck() {
    let mut rng = rng_from_seed([9u8; 32]);
    let mut deck = deck_full();
    shuffle_cards(&mut rng, &mut deck);
    assert_eq!(deck.len(), 52);
    let mut ids: Vec<u8> = deck.iter().map(|c| c.as_u8()).collect();
    ids.sort();
    let expected: Vec<u8> = (0u8..52).collect();
    assert_eq!(ids, expected);
}

#[test]
fn seeded_generators_repeat() {
    let mut rng1 = rng_from_seed([4u8; 32]);
    let mut rng2 = rng_from_seed([4u8; 32]);
    let mut d1 = deck_full();
    let mut d2 = deck_full();
    shuffle_cards(&mut rng1, &mut d1);
    shuffle_cards(&mut rng2, &mut d2);
    assert_eq!(d1, d2);
    // A reseeded generator diverges from its parent deterministically.
    let mut child1 = rseed(&mut rng1);
    let mut child2 = rseed(&mut rng2);
    let mut e1 = deck_full();
    let mut e2 = deck_full();
    shuffle_cards(&mut child1, &mut e1);
    shuffle_cards(&mut child2, &mut e2);
    assert_eq!(e1, e2);
}

#[test]
fn sample_all_draws() {
    let mut rng = rng_from_seed([6u8; 32]);
    let items: Vec<u32> = (0..10).collect();
    let taken = sample_all(&mut rng, items.clone(), 3);
    assert_eq!(taken.len(), 3);
    for t in taken.iter() {
        assert!(items.contains(t));
    }
    let all = sample_all(&mut rng, items.clone(), 20);
    let mut sorted = all.clone();
    sorted.sort();
    assert_eq!(sorted, items);
}

#[test]
fn action_apply_encodes_and_moves() {
    let sim = Sim {
        action_class: ActionKuhn {},
        blind_biggest: Money::new(1, 0),
        profile: profile_kuhn(2),
        strict: true,
    };
    let mut funds = vec![Money::new(5, 0), Money::new(5, 0)];
    let mut pots = vec![Money::zero(), Money::zero()];
    let c = anna::rounds::action_apply(
        &sim,
        &mut funds,
        &mut pots,
        0,
        Action::Raise,
        Some(Money::new(1, 0)),
    );
    assert_eq!(c, 2);
    assert_eq!(funds[0].unpack(), 400);
    assert_eq!(pots[0].unpack(), 100);
}
