use vstd::prelude::*;

verus! {

#[derive(Clone, Copy, Debug, Eq, Hash, PartialEq, Structural)]
pub enum CardVal {
    C2,
    C3,
    C4,
    C5,
    C6,
    C7,
    C8,
    C9,
    C10,
    CJ,
    CQ,
    CK,
    CA,
}

#[derive(Clone, Copy, Debug, Eq, Hash, PartialEq, Structural)]
pub enum Suit {
    Spade,
    Heart,
    Diamond,
    Club,
}

#[derive(Clone, Copy, Debug, Eq, Hash, PartialEq, Structural)]
pub struct Card {
    pub value: CardVal,
    pub suit: Suit,
}

/// Rank of a card value, `C2` lowest through `CA` highest.
pub open spec fn card_val_id(v: CardVal) -> int {
    match v {
        CardVal::C2 => 0,
        CardVal::C3 => 1,
        CardVal::C4 => 2,
        CardVal::C5 => 3,
        CardVal::C6 => 4,
        CardVal::C7 => 5,
        CardVal::C8 => 6,
        CardVal::C9 => 7,
        CardVal::C10 => 8,
        CardVal::CJ => 9,
        CardVal::CQ => 10,
        CardVal::CK => 11,
        CardVal::CA => 12,
    }
}

pub open spec fn suit_id(s: Suit) -> int {
    match s {
        Suit::Spade => 0,
        Suit::Heart => 1,
        Suit::Diamond => 2,
        Suit::Club => 3,
    }
}

/// Compact id of a card: thirteen values per suit, suits in `Suit` order.
pub open spec fn card_id(c: Card) -> int {
    card_val_id(c.value) + suit_id(c.suit) * 13
}

pub fn card_val_rank(v: CardVal) -> (r: u8)
    ensures
        r == card_val_id(v),
{
    match v {
        CardVal::C2 => 0,
        CardVal::C3 => 1,
        CardVal::C4 => 2,
        CardVal::C5 => 3,
        CardVal::C6 => 4,
        CardVal::C7 => 5,
        CardVal::C8 => 6,
        CardVal::C9 => 7,
        CardVal::C10 => 8,
        CardVal::CJ => 9,
        CardVal::CQ => 10,
        CardVal::CK => 11,
        CardVal::CA => 12,
    }
}

pub fn card_val_of_rank(r: u8) -> (v: CardVal)
    requires
        r < 13,
    ensures
        card_val_id(v) == r,
{
    match r {
        0 => CardVal::C2,
        1 => CardVal::C3,
        2 => CardVal::C4,
        3 => CardVal::C5,
        4 => CardVal::C6,
        5 => CardVal::C7,
        6 => CardVal::C8,
        7 => CardVal::C9,
        8 => CardVal::C10,
        9 => CardVal::CJ,
        10 => CardVal::CQ,
        11 => CardVal::CK,
        _ => CardVal::CA,
    }
}

pub fn suit_rank(s: Suit) -> (r: u8)
    ensures
        r == suit_id(s),
{
    match s {
        Suit::Spade => 0,
        Suit::Heart => 1,
        Suit::Diamond => 2,
        Suit::Club => 3,
    }
}

pub fn suit_of_rank(r: u8) -> (s: Suit)
    requires
        r < 4,
    ensures
        suit_id(s) == r,
{
    match r {
        0 => Suit::Spade,
        1 => Suit::Heart,
        2 => Suit::Diamond,
        _ => Suit::Club,
    }
}

impl Card {
    /// Decode a card from its compact id; ids `52..` are not cards.
    pub fn from_u8(u: u8) -> (r: Option<Card>)
        ensures
            u < 52 ==> (r matches Some(c) && card_id(c) == u),
            u >= 52 ==> r is None,
    {
        if u < 52 {
            let suit_i = u / 13;
            let suit = suit_of_rank(suit_i);
            let val_i = u - suit_i * 13;
            let value = card_val_of_rank(val_i);
            Some(Card { suit, value })
        } else {
            None
        }
    }

    pub fn as_u8(self) -> (r: u8)
        ensures
            r == card_id(self),
    {
        card_val_rank(self.value) + suit_rank(self.suit) * 13
    }
}

/// Map each card to its index in `deck`; every card must occur in the deck.
#[verifier::loop_isolation(false)]
pub fn cards_class(deck: &Vec<Card>, cards: &Vec<Card>) -> (r: Vec<usize>)
    requires
        forall|i: int| 0 <= i < cards@.len() ==> deck@.contains(cards@[i]),
    ensures
        r@.len() == cards@.len(),
        forall|i: int|
            0 <= i < r@.len() ==> (#[trigger] r@[i]) < deck@.len() && deck@[r@[i] as int]
                == cards@[i],
{
    let mut r: Vec<usize> = Vec::new();
    let mut i: usize = 0;
    while i < cards.len()
        invariant
            i <= cards@.len(),
            r@.len() == i,
            forall|k: int| 0 <= k < cards@.len() ==> deck@.contains(cards@[k]),
            forall|k: int|
                0 <= k < i ==> (#[trigger] r@[k]) < deck@.len() && deck@[r@[k] as int]
                    == cards@[k],
        decreases cards@.len() - i,
    {
        let card = cards[i];
        let mut j: usize = 0;
        let mut found: usize = 0;
        let mut has_found = false;
        while j < deck.len()
            invariant
                j <= deck@.len(),
                deck@.contains(card),
                !has_found ==> forall|k: int| 0 <= k < j ==> deck@[k] != card,
                has_found ==> found < deck@.len() && deck@[found as int] == card,
            decreases deck@.len() - j,
        {
            if !has_found && deck[j] == card {
                found = j;
                has_found = true;
            }
            j += 1;
        }
        assert(has_found) by {
            if !has_found {
                let w = choose|w: int| 0 <= w < deck@.len() && deck@[w] == card;
                assert(deck@[w] != card);
            }
        }
        let ghost r_before = r@;
        r.push(found);
        assert(r@[i as int] == found);
        assert(forall|k: int| 0 <= k < i ==> r@[k] == r_before[k]);
        i += 1;
    }
    r
}

/// An element-for-element copy of a card list.
pub fn copy_cards(xs: &Vec<Card>) -> (r: Vec<Card>)
    ensures
        r@ == xs@,
{
    let mut r: Vec<Card> = Vec::new();
    let mut i: usize = 0;
    while i < xs.len()
        invariant
            i <= xs@.len(),
            r@ =~= xs@.take(i as int),
        decreases xs@.len() - i,
    {
        r.push(xs[i]);
        i += 1;
    }
    assert(r@ =~= xs@);
    r
}

/// The full 52-card deck, ordered by value first and suit second.
pub fn deck_full() -> (r: Vec<Card>)
    ensures
        r@.len() == 52,
        forall|i: int|
            0 <= i < 52 ==> card_val_id(#[trigger] r@[i].value) == i / 4 && suit_id(r@[i].suit)
                == i % 4,
{
    let mut r: Vec<Card> = Vec::new();
    let mut v: u8 = 0;
    while v < 13
        invariant
            v <= 13,
            r@.len() == v * 4,
            forall|i: int|
                0 <= i < r@.len() ==> card_val_id(#[trigger] r@[i].value) == i / 4 && suit_id(
                    r@[i].suit,
                ) == i % 4,
        decreases 13 - v,
    {
        let mut s: u8 = 0;
        while s < 4
            invariant
                v < 13,
                s <= 4,
                r@.len() == v * 4 + s,
                forall|i: int|
                    0 <= i < r@.len() ==> card_val_id(#[trigger] r@[i].value) == i / 4 && suit_id(
                        r@[i].suit,
                    ) == i % 4,
            decreases 4 - s,
        {
            let card = Card { value: card_val_of_rank(v), suit: suit_of_rank(s) };
            r.push(card);
            assert(r@.len() - 1 == v * 4 + s);
            assert((v * 4 + s) / 4 == v && (v * 4 + s) % 4 == s) by (nonlinear_arith)
                requires
                    0 <= v < 13 && 0 <= s < 4,
            ;
            s += 1;
        }
        v += 1;
    }
    r
}

/// The three-card Kuhn deck: jack, queen, king of spades.
pub fn deck_kuhn() -> (r: Vec<Card>)
    ensures
        r@.len() == 3,
        r@[0] == (Card { value: CardVal::CJ, suit: Suit::Spade }),
        r@[1] == (Card { value: CardVal::CQ, suit: Suit::Spade }),
        r@[2] == (Card { value: CardVal::CK, suit: Suit::Spade }),
{
    let mut r: Vec<Card> = Vec::new();
    r.push(Card { value: CardVal::CJ, suit: Suit::Spade });
    r.push(Card { value: CardVal::CQ, suit: Suit::Spade });
    r.push(Card { value: CardVal::CK, suit: Suit::Spade });
    r
}

/// The six-card Leduc deck: two suits of jack, queen, king.
pub fn deck_leduc() -> (r: Vec<Card>)
    ensures
        r@.len() == 6,
        r@[0] == (Card { value: CardVal::CJ, suit: Suit::Spade }),
        r@[1] == (Card { value: CardVal::CJ, suit: Suit::Heart }),
        r@[2] == (Card { value: CardVal::CQ, suit: Suit::Spade }),
        r@[3] == (Card { value: CardVal::CQ, suit: Suit::Heart }),
        r@[4] == (Card { value: CardVal::CK, suit: Suit::Spade }),
        r@[5] == (Card { value: CardVal::CK, suit: Suit::Heart }),
{
    let mut r: Vec<Card> = Vec::new();
    r.push(Card { value: CardVal::CJ, suit: Suit::Spade });
    r.push(Card { value: CardVal::CJ, suit: Suit::Heart });
    r.push(Card { value: CardVal::CQ, suit: Suit::Spade });
    r.push(Card { value: CardVal::CQ, suit: Suit::Heart });
    r.push(Card { value: CardVal::CK, suit: Suit::Spade });
    r.push(Card { value: CardVal::CK, suit: Suit::Heart });
    r
}

} // verus!
