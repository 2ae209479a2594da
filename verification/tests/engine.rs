use anna::cards::deck_kuhn;
use anna::classifiers::{ActionKuhn, ActionLimit};
use anna::engine::{
    Error, funds_update, game_finish, table_game_simulate, table_game_simulate_,
    table_players_init, table_run, table_simulate_,
};
use anna::eval::EvalNaive;
use anna::model::Action;
use anna::money::Money;
use anna::players::{PlayersRand, PlayersStatic, TableStatic};
use anna::profile::{profile_kuhn, profile_leduc, profile_texas_limit};
use anna::random::rng_from_seed;
use anna::sim::{Sim, State};

fn kuhn_sim(players: usize) -> Sim<ActionKuhn> {
    let profile = profile_kuhn(players);
    Sim {
        action_class: ActionKuhn {},
        blind_biggest: Money::new(1, 0),
        profile,
        strict: true,
    }
}

#[test]
fn kuhn_sample_game() {
    let mut rng = rng_from_seed([0u8; 32]);
    let eval = EvalNaive {};

    let blind = Money::new(1, 0);
    let fund = Money::new(100, 0);

    let funds = vec![(0, fund), (1, fund)];

    let sim = kuhn_sim(3);
    let mut players = PlayersRand {
        action_class: ActionKuhn {},
        blind_biggest: blind,
        rng: rng_from_seed([1u8; 32]),
    };

    for _ in 0..10 {
        let (_, score) = table_game_simulate(&mut rng, &sim, &eval, &mut players, &funds, 0)
            .map_err(|(_, err)| err)
            .expect("table simulation failed.");

        let total: u32 = score.player_funds.iter().map(|&(_, m)| m.unpack()).sum();
        assert_eq!(total, 20000);
    }
}

#[test]
fn leduc_sample_game() {
    let mut rng = rng_from_seed([0u8; 32]);
    let eval = EvalNaive {};

    let blind = Money::new(1, 0);
    let fund = Money::new(100, 0);

    let funds = vec![(0, fund), (1, fund)];

    let profile = profile_leduc(3);
    let raises = profile.limit.clone().unwrap().raises;

    let sim = Sim {
        action_class: ActionLimit { raises: raises.clone() },
        blind_biggest: blind,
        profile,
        strict: true,
    };

    let mut players = PlayersRand {
        action_class: ActionLimit { raises },
        blind_biggest: blind,
        rng: rng_from_seed([2u8; 32]),
    };

    for _ in 0..10 {
        let (_, score) = table_game_simulate(&mut rng, &sim, &eval, &mut players, &funds, 0)
            .map_err(|(_, err)| err)
            .expect("table simulation failed.");

        let total: u32 = score.player_funds.iter().map(|&(_, m)| m.unpack()).sum();
        assert_eq!(total, 20000);
    }
}

#[test]
fn match_conserves_funds() {
    let mut rng = rng_from_seed([7u8; 32]);
    let eval = EvalNaive {};
    let sim = kuhn_sim(2);
    let mut players = PlayersRand {
        action_class: ActionKuhn {},
        blind_biggest: Money::new(1, 0),
        rng: rng_from_seed([8u8; 32]),
    };
    let funds = vec![(0, Money::new(20, 0)), (1, Money::new(20, 0))];
    let (final_funds, scores) = table_simulate_(
        &mut rng,
        &sim,
        &eval,
        &mut players,
        &funds,
        0,
        Some(25),
    )
    .map_err(|(_, _, e)| e)
    .expect("match failed");
    assert!(scores.len() <= 25);
    let total: u32 = final_funds.iter().map(|&(_, m)| m.unpack()).sum();
    assert_eq!(total, 4000);
}

#[test]
fn side_pot_three_seats() {
    // Seat 0 is all-in short at 50 and wins outright: it takes the covered
    // main pot of 150; the two uncovered contributions of 50 come back.
    let sim = kuhn_sim(3);
    let mut funds = vec![Money::zero(), Money::zero(), Money::zero()];
    let pots = vec![
        Money::from_u32(50),
        Money::from_u32(100),
        Money::from_u32(100),
    ];
    let winners = vec![0];
    funds_update(&sim, &mut funds, &pots, &winners);
    assert_eq!(funds[0].unpack(), 150);
    assert_eq!(funds[1].unpack(), 50);
    assert_eq!(funds[2].unpack(), 50);
}

#[test]
fn prorata_remainder_to_lowest_fund() {
    // Two equal winners and an odd pot: the spare cent goes to the winner
    // holding the lowest fund.
    let sim = kuhn_sim(3);
    let mut funds = vec![Money::from_u32(10), Money::from_u32(5), Money::zero()];
    let pots = vec![
        Money::from_u32(51),
        Money::from_u32(51),
        Money::from_u32(1),
    ];
    let winners = vec![0, 1];
    funds_update(&sim, &mut funds, &pots, &winners);
    assert_eq!(funds[0].unpack(), 61);
    assert_eq!(funds[1].unpack(), 57);
    assert_eq!(funds[2].unpack(), 0);
}

#[test]
fn dead_game_refund() {
    // Unequal blinds, the small blind folds straight away: the hand is dead
    // and both seats' funds stand exactly as they were.
    let mut rng = rng_from_seed([3u8; 32]);
    let eval = EvalNaive {};
    let profile = profile_texas_limit(2, Money::new(0, 50), Money::new(1, 0));
    let raises = profile.limit.clone().unwrap().raises;
    let sim = Sim {
        action_class: ActionLimit { raises },
        blind_biggest: Money::new(1, 0),
        profile,
        strict: true,
    };
    let mut players = PlayersStatic(vec![(0, 0)]);
    let funds = vec![(0, Money::new(50, 0)), (1, Money::new(40, 0))];
    let (_, score) = table_game_simulate(&mut rng, &sim, &eval, &mut players, &funds, 0)
        .map_err(|(_, e)| e)
        .expect("hand failed");
    assert!(score.winners.is_empty());
    assert_eq!(score.pot.unpack(), 0);
    assert_eq!(score.player_funds, funds);
}

#[test]
fn full_bet_rule_clips_short_all_in() {
    // Facing a standing raise of 20 with only 8 behind, the all-in call is
    // normalized down to the 3 cents actually owed; the raise requirement
    // stands untouched for the other seats.
    let mut sim = kuhn_sim(2);
    sim.set_blinds(&vec![Money::from_u32(8), Money::from_u32(8)]);

    let mut funds = vec![Money::from_u32(8), Money::from_u32(100)];
    let mut pots = vec![Money::zero(), Money::from_u32(3)];
    let mut states = vec![
        State::Play { cards: vec![], all_in: false },
        State::Play { cards: vec![], all_in: false },
    ];
    let mut target = Money::from_u32(3);
    let mut target_raise = Money::from_u32(20);
    let mut target_by = Some(1);

    let r: Result<_, Error<()>> = table_run(
        &sim,
        0,
        &mut funds,
        &mut pots,
        &mut states,
        &mut target,
        &mut target_raise,
        &mut target_by,
        0,
        1,
    );
    let (action, pledge, normalized) = r.expect("call failed");
    assert_eq!(action, Action::Call);
    assert_eq!(pledge.unwrap().unpack(), 8);
    assert_eq!(normalized.unwrap().unpack(), 3);
    assert_eq!(funds[0].unpack(), 5);
    assert_eq!(pots[0].unpack(), 3);
    assert_eq!(target.unpack(), 3);
    assert_eq!(target_raise.unpack(), 20);
    assert_eq!(target_by, Some(1));
    assert!(matches!(states[0], State::Play { all_in: true, .. }));
}

#[test]
fn kuhn_outright() {
    // Deterministic Kuhn hand: the king bets, the jack calls, the king
    // holder nets exactly one raised blind.
    let sim = kuhn_sim(2);
    let deck = deck_kuhn();
    let king = deck[2];
    let jack = deck[0];

    let players_init = vec![
        (0, Money::new(100, 0), vec![king]),
        (1, Money::new(100, 0), vec![jack]),
    ];
    let mut players = PlayersStatic(vec![(0, 2), (1, 1)]);
    let mut table = TableStatic { rounds: vec![1], table_cards: vec![] };

    let (_, _, outcome) =
        table_game_simulate_::<ActionKuhn, (), PlayersStatic, TableStatic>(
            &sim,
            &mut players,
            &mut table,
            &players_init,
            0,
        )
        .map_err(|(_, _, e)| e)
        .expect("hand failed");
    let (mut funds, pots, states) = outcome.expect("hand was dead");
    assert_eq!(pots[0].unpack(), 200);
    assert_eq!(pots[1].unpack(), 200);

    let eval = EvalNaive {};
    let (_, winners, _) = game_finish(&eval, &vec![], &states);
    assert_eq!(winners, vec![0]);

    funds_update(&sim, &mut funds, &pots, &winners);
    assert_eq!(funds[0].unpack(), 10200);
    assert_eq!(funds[1].unpack(), 9800);
}

#[test]
fn insufficient_bring_in() {
    let sim = kuhn_sim(2);
    let players_init = vec![(0, Money::from_u32(50), vec![])];
    let r: Result<_, Error<()>> = table_players_init(&sim, &players_init);
    match r {
        Err(Error::InsufficientBringIn { seat_id }) => assert_eq!(seat_id, 0),
        _ => panic!("expected a bring-in rejection"),
    }
}

#[test]
fn insufficient_fund_on_call() {
    let mut sim = kuhn_sim(2);
    sim.set_blinds(&vec![Money::from_u32(10), Money::from_u32(10)]);

    let mut funds = vec![Money::from_u32(5), Money::from_u32(100)];
    let mut pots = vec![Money::zero(), Money::from_u32(10)];
    let mut states = vec![
        State::Play { cards: vec![], all_in: false },
        State::Play { cards: vec![], all_in: false },
    ];
    let mut target = Money::from_u32(10);
    let mut target_raise = Money::from_u32(10);
    let mut target_by = Some(1);

    let r: Result<_, Error<()>> = table_run(
        &sim,
        0,
        &mut funds,
        &mut pots,
        &mut states,
        &mut target,
        &mut target_raise,
        &mut target_by,
        0,
        1,
    );
    match r {
        Err(Error::InsufficientFund { seat_id, fund, bet }) => {
            assert_eq!(seat_id, 0);
            assert_eq!(fund.unpack(), 5);
            assert_eq!(bet.unpack(), 10);
        },
        _ => panic!("expected an insufficient-fund rejection"),
    }
}

#[test]
fn fold_at_target_is_semantic_error() {
    let sim = kuhn_sim(2);

    let mut funds = vec![Money::new(99, 0), Money::new(99, 0)];
    let mut pots = vec![Money::new(1, 0), Money::new(1, 0)];
    let mut states = vec![
        State::Play { cards: vec![], all_in: false },
        State::Play { cards: vec![], all_in: false },
    ];
    let mut target = Money::new(1, 0);
    let mut target_raise = Money::new(1, 0);
    let mut target_by = Some(0);

    let r: Result<_, Error<()>> = table_run(
        &sim,
        0,
        &mut funds,
        &mut pots,
        &mut states,
        &mut target,
        &mut target_raise,
        &mut target_by,
        0,
        0,
    );
    assert!(matches!(r, Err(Error::Semantic(_))));
    // Nothing moved.
    assert_eq!(funds[0].unpack(), 9900);
    assert_eq!(pots[0].unpack(), 100);
}

#[test]
fn fold_out_awards_pot_without_showdown() {
    // The raiser takes the pot when everyone else folds.
    let sim = kuhn_sim(2);
    let deck = deck_kuhn();

    let players_init = vec![
        (0, Money::new(100, 0), vec![deck[0]]),
        (1, Money::new(100, 0), vec![deck[2]]),
    ];
    let mut players = PlayersStatic(vec![(0, 2), (1, 0)]);
    let mut table = TableStatic { rounds: vec![1], table_cards: vec![] };

    let (_, _, outcome) =
        table_game_simulate_::<ActionKuhn, (), PlayersStatic, TableStatic>(
            &sim,
            &mut players,
            &mut table,
            &players_init,
            0,
        )
        .map_err(|(_, _, e)| e)
        .expect("hand failed");
    let (mut funds, pots, states) = outcome.expect("hand was dead");
    assert!(matches!(states[1], State::Folded));

    let eval = EvalNaive {};
    let (_, winners, winners_score) = game_finish(&eval, &vec![], &states);
    assert_eq!(winners, vec![0]);
    assert_eq!(winners_score, 0);

    funds_update(&sim, &mut funds, &pots, &winners);
    assert_eq!(funds[0].unpack(), 10100);
    assert_eq!(funds[1].unpack(), 9900);
}

#[test]
fn raise_beyond_cap_aborts() {
    // Kuhn allows one raise per round; a scripted second raise is refused.
    let sim = kuhn_sim(2);
    let deck = deck_kuhn();

    let players_init = vec![
        (0, Money::new(100, 0), vec![deck[0]]),
        (1, Money::new(100, 0), vec![deck[1]]),
    ];
    let mut players = PlayersStatic(vec![(0, 2), (1, 2)]);
    let mut table = TableStatic { rounds: vec![1], table_cards: vec![] };

    let r = table_game_simulate_::<ActionKuhn, (), PlayersStatic, TableStatic>(
        &sim,
        &mut players,
        &mut table,
        &players_init,
        0,
    );
    match r {
        Err((_, _, Error::Semantic(_))) => {},
        _ => panic!("expected the capped raise to abort the hand"),
    }
}

#[test]
fn over_fund_call_clipped_when_not_strict() {
    let mut sim = kuhn_sim(2);
    sim.strict = false;
    sim.set_blinds(&vec![Money::from_u32(10), Money::from_u32(10)]);

    let mut funds = vec![Money::from_u32(5), Money::from_u32(100)];
    let mut pots = vec![Money::zero(), Money::from_u32(10)];
    let mut states = vec![
        State::Play { cards: vec![], all_in: false },
        State::Play { cards: vec![], all_in: false },
    ];
    let mut target = Money::from_u32(10);
    let mut target_raise = Money::from_u32(10);
    let mut target_by = Some(1);

    let r: Result<_, Error<()>> = table_run(
        &sim,
        0,
        &mut funds,
        &mut pots,
        &mut states,
        &mut target,
        &mut target_raise,
        &mut target_by,
        0,
        1,
    );
    match r {
        Ok((action, pledge, norm)) => {
            assert!(matches!(action, Action::Call));
            assert_eq!(pledge.unwrap().unpack(), 5);
            assert_eq!(norm.unwrap().unpack(), 5);
        },
        _ => panic!("expected the call to be clipped to the fund"),
    }
    assert_eq!(funds[0].unpack(), 0);
    assert_eq!(pots[0].unpack(), 5);
    assert!(matches!(states[0], State::Play { all_in: true, .. }));
}
