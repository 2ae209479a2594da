use anna::cards::{Card, CardVal, Suit, cards_class, deck_full, deck_kuhn};
use anna::classifiers::{ActionKuhn, ActionLimit};
use anna::eval::{Eval, EvalNaive};
use anna::math::combinations;
use anna::model::{Action, ActionClass};
use anna::money::Money;
use anna::profile::{profile_kuhn, profile_leduc, profile_texas_limit};

#[test]
fn combinations_check() {
    assert!(combinations(7, 5).len() == 21);
}

#[test]
fn combinations_entries_sorted() {
    let rs = combinations(5, 3);
    assert_eq!(rs.len(), 10);
    for r in rs.iter() {
        assert_eq!(r.len(), 3);
        assert!(r[0] < r[1] && r[1] < r[2]);
        assert!(r[2] < 5);
    }
}

#[test]
fn kuhn_eval() {
    let eval = EvalNaive {};
    let deck = deck_kuhn();

    let s0 = eval.score(&vec![deck[0]]);
    let s1 = eval.score(&vec![deck[1]]);
    assert!(s1 > s0);
    let s2 = eval.score(&vec![deck[2]]);
    assert!(s2 > s1);
}

#[test]
fn leduc_eval() {
    let eval = EvalNaive {};

    // OnePair
    let s0 = eval.score(&vec![
        Card { suit: Suit::Spade, value: CardVal::CK },
        Card { suit: Suit::Heart, value: CardVal::CK },
    ]);

    let s1 = eval.score(&vec![
        Card { suit: Suit::Spade, value: CardVal::CQ },
        Card { suit: Suit::Heart, value: CardVal::CQ },
    ]);

    assert!(s1 < s0);

    let s2 = eval.score(&vec![
        Card { suit: Suit::Spade, value: CardVal::CJ },
        Card { suit: Suit::Heart, value: CardVal::CJ },
    ]);

    assert!(s2 < s1);

    // HighCard
    let s3 = eval.score(&vec![
        Card { suit: Suit::Spade, value: CardVal::CQ },
        Card { suit: Suit::Heart, value: CardVal::CK },
    ]);

    assert!(s3 < s2);

    let s4 = eval.score(&vec![
        Card { suit: Suit::Spade, value: CardVal::CJ },
        Card { suit: Suit::Heart, value: CardVal::CQ },
    ]);

    assert!(s4 < s3);
}

#[test]
fn money_values() {
    assert_eq!(Money::new(2, 50).unpack(), 250);
    assert_eq!(Money::new(0, 7).unpack(), 7);
    assert_eq!(Money::zero().unpack(), 0);
    assert!(Money::zero().is_null());
    assert!(!Money::new(1, 0).is_null());
    assert_eq!(Money::from_i32(-1), None);
    assert_eq!(Money::from_i32(130), Some(Money::from_u32(130)));
    assert_eq!(Money::new(1, 0).plus(Money::new(0, 50)).unpack(), 150);
    assert_eq!(
        Money::new(1, 0).checked_sub(Money::new(0, 25)),
        Some(Money::from_u32(75))
    );
    assert_eq!(Money::new(0, 25).checked_sub(Money::new(1, 0)), None);
    assert_eq!(
        Money::max_of(&vec![Money::from_u32(3), Money::from_u32(9), Money::from_u32(4)]).unpack(),
        9
    );
}

#[test]
fn card_codec_round_trip() {
    for u in 0u8..52 {
        let card = Card::from_u8(u).unwrap();
        assert_eq!(card.as_u8(), u);
    }
    assert!(Card::from_u8(52).is_none());
    assert!(Card::from_u8(255).is_none());
}

#[test]
fn cards_class_indexes() {
    let deck = deck_full();
    let cards = vec![deck[0], deck[13], deck[51]];
    let classes = cards_class(&deck, &cards);
    assert_eq!(classes, vec![0, 13, 51]);
}

#[test]
fn profiles_shape() {
    let kuhn = profile_kuhn(2);
    assert_eq!(kuhn.players, 2);
    assert_eq!(kuhn.blinds.len(), 2);
    assert_eq!(kuhn.blinds[0].unpack(), 100);
    assert_eq!(kuhn.deck.len(), 3);
    assert_eq!(kuhn.rounds, vec![1]);
    let limit = kuhn.limit.unwrap();
    assert_eq!(limit.caps, 1);
    assert_eq!(limit.raises, vec![1]);

    let leduc = profile_leduc(3);
    assert_eq!(leduc.players, 3);
    assert_eq!(leduc.deck.len(), 6);
    assert_eq!(leduc.rounds, vec![1, 1]);
    let limit = leduc.limit.unwrap();
    assert_eq!(limit.caps, 2);
    assert_eq!(limit.raises, vec![2, 4]);

    let texas = profile_texas_limit(2, Money::new(0, 50), Money::new(1, 0));
    assert_eq!(texas.blinds, vec![Money::new(0, 50), Money::new(1, 0)]);
    assert_eq!(texas.rounds, vec![2, 3, 1, 1]);
    assert_eq!(texas.deck.len(), 52);
}

#[test]
fn delta_biggest_ratio() {
    let kuhn = profile_kuhn(2);
    // One blind from the opponent, plus one capped blind-sized raise.
    assert_eq!(kuhn.delta_biggest_r(), 2);

    let leduc = profile_leduc(2);
    // Blind + caps * (2 + 4) blinds from one opponent.
    assert_eq!(leduc.delta_biggest_r(), 13);
}

#[test]
fn apply_to_action_round_trip() {
    let kuhn = ActionKuhn {};
    let limit = ActionLimit { raises: vec![1, 2] };
    let blind = Money::new(1, 0);
    let fund = Money::new(10, 0);
    for action in [Action::Fold, Action::Call, Action::Raise] {
        let c = kuhn.apply(blind, fund, action, Money::zero());
        assert_eq!(kuhn.to_action(c), action);
        let c = limit.apply(blind, fund, action, Money::zero());
        assert_eq!(limit.to_action(c), action);
    }
    assert!(kuhn.is_fold(0) && !kuhn.is_fold(1));
    assert!(kuhn.is_raise(2) && !kuhn.is_raise(1));
    assert_eq!(kuhn.size(), 3);
    assert_eq!(limit.size(), 3);
}

#[test]
fn legal_mask_kuhn() {
    let kuhn = ActionKuhn {};
    let blind = Money::from_u32(10);

    // Below the target with money: fold, call and raise are all legal.
    let mask = kuhn.normalize(
        blind,
        0,
        Money::from_u32(20),
        Some(Money::from_u32(10)),
        Money::from_u32(50),
        Money::from_u32(10),
    );
    assert!(mask.contains(&0) && mask.contains(&1) && mask.contains(&2));

    // At the target: no fold, check is free, raise if funded.
    let mask = kuhn.normalize(
        blind,
        0,
        Money::from_u32(20),
        Some(Money::from_u32(10)),
        Money::from_u32(50),
        Money::from_u32(20),
    );
    assert!(!mask.contains(&0) && mask.contains(&1) && mask.contains(&2));

    // Raise cap reached: no raise.
    let mask = kuhn.normalize(
        blind,
        0,
        Money::from_u32(20),
        None,
        Money::from_u32(50),
        Money::from_u32(20),
    );
    assert!(!mask.contains(&2));

    // Broke below the target: only fold.
    let mask = kuhn.normalize(
        blind,
        0,
        Money::from_u32(20),
        Some(Money::from_u32(10)),
        Money::from_u32(5),
        Money::from_u32(10),
    );
    assert!(mask.contains(&0) && !mask.contains(&1) && !mask.contains(&2));
}

#[test]
fn legal_mask_sound_through_unapply() {
    // Every class the mask admits decodes to an affordable action when the
    // seat can cover a full raise.
    let limit = ActionLimit { raises: vec![2] };
    let blind = Money::from_u32(10);
    let target = Money::from_u32(30);
    let pot = Money::from_u32(10);
    let fund = Money::from_u32(100);
    let raise = Money::from_u32(20);

    let mask = limit.normalize(blind, 0, target, Some(raise), fund, pot);
    for class in 0usize..3 {
        if mask.contains(&class) {
            let (action, pledge) = limit
                .unapply(blind, 0, fund, target, raise, pot, class as u8)
                .unwrap();
            match pledge {
                Some(m) => assert!(m.unpack() <= fund.unpack()),
                None => assert!(
                    action == Action::Fold
                        || (action == Action::Call && pot.unpack() == target.unpack())
                ),
            }
            if action == Action::Call && pledge.is_none() {
                assert_eq!(pot.unpack(), target.unpack());
            }
        }
    }

    // A call decodes with no pledge exactly at the target.
    let (_, pledge) = limit
        .unapply(blind, 0, fund, target, raise, target, 1)
        .unwrap();
    assert!(pledge.is_none());
    let (_, pledge) = limit.unapply(blind, 0, fund, target, raise, pot, 1).unwrap();
    assert_eq!(pledge.unwrap().unpack(), 20);
}

#[test]
fn unapply_pledges() {
    let kuhn = ActionKuhn {};
    let blind = Money::from_u32(100);
    // A Kuhn raise asks for the gap plus one blind.
    let (action, pledge) = kuhn
        .unapply(
            blind,
            0,
            Money::from_u32(1000),
            Money::from_u32(200),
            blind,
            Money::from_u32(100),
            2,
        )
        .unwrap();
    assert_eq!(action, Action::Raise);
    assert_eq!(pledge.unwrap().unpack(), 200);

    let limit = ActionLimit { raises: vec![1, 2] };
    // A limit raise in the second round is twice the blind above the target.
    let (action, pledge) = limit
        .unapply(
            blind,
            1,
            Money::from_u32(1000),
            Money::from_u32(300),
            blind,
            Money::from_u32(100),
            2,
        )
        .unwrap();
    assert_eq!(action, Action::Raise);
    assert_eq!(pledge.unwrap().unpack(), 400);
}

#[test]
fn encoder_sizes() {
    let kuhn = profile_kuhn(2);
    let ab = anna::encoders::ActionsBinary::new(&kuhn, &ActionKuhn {});
    assert_eq!(ab.size, 2 * 3 * 1 * 1);
    let compact = anna::encoders::ActionsCompact::new(ab);
    assert_eq!(compact.size, 2 * 3 * 1);
    let cb = anna::encoders::CardsBinary::new(&kuhn.deck, &kuhn.rounds);
    assert_eq!(cb.size, 3);
    let reward = anna::learn::RewardF::new(Money::new(2, 0));
    assert_eq!(reward.delta_biggest.unpack(), 200);
}
