//! Card sets as 52-bit masks, and the enumeration of the cards and hole pairs
//! that a set leaves free.

use vstd::prelude::*;

verus! {

/// Number of cards in the deck; card `c` is bit `c` of a card set.
pub const DECK: u8 = 52;

/// Whether the card set `mask` holds card `c`.
pub open spec fn holds(mask: u64, c: u8) -> bool {
    c < 64 && (mask >> (c as u64)) & 1 == 1
}

/// The card set that holds exactly the two cards `a` and `b`.
pub open spec fn pair_mask(a: u8, b: u8) -> u64 {
    (1u64 << (a as u64)) | (1u64 << (b as u64))
}

/// Whether `mask` holds card `c`.
pub fn has_card(mask: u64, c: u8) -> (r: bool)
    requires
        c < 64,
    ensures
        r == holds(mask, c),
{
    (mask >> (c as u64)) & 1 == 1
}

/// The card set of the hole pair `(a, b)`.
pub fn hole_mask(a: u8, b: u8) -> (mask: u64)
    requires
        a < 64,
        b < 64,
    ensures
        mask == pair_mask(a, b),
        forall|c: u8| holds(mask, c) <==> c < 64 && (c == a || c == b),
{
    let mask: u64 = (1u64 << (a as u64)) | (1u64 << (b as u64));
    proof {
        let x: u64 = a as u64;
        let y: u64 = b as u64;
        assert(forall|z: u64|
            z < 64 ==> ((((1u64 << x) | (1u64 << y)) >> z) & 1 == 1 <==> (z == x || z == y)))
            by (bit_vector)
            requires
                x < 64,
                y < 64,
        ;
        assert forall|c: u8| holds(mask, c) <==> c < 64 && (c == a || c == b) by {
            let z: u64 = c as u64;
            if c < 64 {
                assert(z < 64);
            }
        }
    }
    mask
}

/// Two cards are both missing from a card set exactly when the set and the
/// card set of the pair have no card in common.
pub proof fn lemma_pair_apart(blocked: u64, a: u8, b: u8)
    requires
        a < 64,
        b < 64,
    ensures
        (!holds(blocked, a) && !holds(blocked, b)) <==> pair_mask(a, b) & blocked == 0,
{
    let x: u64 = a as u64;
    let y: u64 = b as u64;
    assert((((blocked >> x) & 1) != 1 && ((blocked >> y) & 1) != 1) <==> ((1u64 << x) | (1u64
        << y)) & blocked == 0) by (bit_vector)
        requires
            x < 64,
            y < 64,
    ;
}

/// Whether card `c` is a card of the deck that `blocked` does not hold.
pub open spec fn free_card(blocked: u64, c: u8) -> bool {
    c < DECK && !holds(blocked, c)
}

/// Whether `p` is a hole pair, lower card first, of two cards that `blocked`
/// does not hold.
pub open spec fn free_pair(blocked: u64, p: (u8, u8)) -> bool {
    p.0 < p.1 && free_card(blocked, p.0) && free_card(blocked, p.1)
}

/// Hole pairs are enumerated by their first card, then by their second.
pub open spec fn pair_before(p: (u8, u8), q: (u8, u8)) -> bool {
    p.0 < q.0 || (p.0 == q.0 && p.1 < q.1)
}

/// The number of cards below `n` that `blocked` does not hold.
pub open spec fn free_below(blocked: u64, n: nat) -> nat
    decreases n,
{
    if n == 0 {
        0
    } else {
        free_below(blocked, (n - 1) as nat) + if holds(blocked, (n - 1) as u8) {
            0nat
        } else {
            1nat
        }
    }
}

/// The number of cards of the deck that `blocked` does not hold.
pub open spec fn free_count(blocked: u64) -> nat {
    free_below(blocked, DECK as nat)
}

/// The cards of the deck that `blocked` does not hold, in ascending order.
pub fn free_cards(blocked: u64) -> (cards: Vec<u8>)
    ensures
        forall|i: int| 0 <= i < cards.len() ==> free_card(blocked, #[trigger] cards[i]),
        forall|i: int, j: int| 0 <= i < j < cards.len() ==> cards[i] < cards[j],
        forall|c: u8| free_card(blocked, c) ==> cards@.contains(c),
        cards.len() == free_count(blocked),
{
    let mut cards: Vec<u8> = Vec::new();
    let mut c: u8 = 0;
    while c < DECK
        invariant
            c <= DECK,
            cards.len() == free_below(blocked, c as nat),
            forall|i: int| 0 <= i < cards.len() ==> free_card(blocked, #[trigger] cards[i]),
            forall|i: int| 0 <= i < cards.len() ==> #[trigger] cards[i] < c,
            forall|i: int, j: int| 0 <= i < j < cards.len() ==> cards[i] < cards[j],
            forall|d: u8| d < c && free_card(blocked, d) ==> cards@.contains(d),
        decreases DECK - c,
    {
        if !has_card(blocked, c) {
            let ghost before = cards@;
            cards.push(c);
            proof {
                assert(cards@[before.len() as int] == c);
                assert forall|d: u8| d < c + 1 && free_card(blocked, d) implies cards@.contains(
                    d,
                ) by {
                    if d < c {
                        let i = choose|i: int| 0 <= i < before.len() && before[i] == d;
                        assert(cards@[i] == d);
                    }
                }
            }
        }
        c = c + 1;
    }
    cards
}

/// The hole pairs of two cards that `blocked` does not hold, each with its
/// lower card first, ordered by first card and then by second: as many as
/// there are ways to choose two of the free cards.
pub fn hole_pairs(blocked: u64) -> (pairs: Vec<(u8, u8)>)
    ensures
        forall|i: int| 0 <= i < pairs.len() ==> free_pair(blocked, #[trigger] pairs[i]),
        forall|i: int, j: int|
            0 <= i < j < pairs.len() ==> pair_before(#[trigger] pairs[i], #[trigger] pairs[j]),
        forall|a: u8, b: u8| free_pair(blocked, (a, b)) ==> pairs@.contains((a, b)),
        2 * pairs.len() == free_count(blocked) * (free_count(blocked) - 1),
{
    let mut pairs: Vec<(u8, u8)> = Vec::new();
    let mut a: u8 = 0;
    let ghost free = free_count(blocked) as int;
    proof {
        let none = free_below(blocked, 0) as int;
        assert(none * (2 * free - none - 1) == 0) by (nonlinear_arith)
            requires
                none == 0,
        ;
    }
    while a < DECK
        invariant
            a <= DECK,
            free == free_count(blocked),
            2 * pairs.len() == free_below(blocked, a as nat) * (2 * free - free_below(
                blocked,
                a as nat,
            ) - 1),
            forall|i: int| 0 <= i < pairs.len() ==> free_pair(blocked, #[trigger] pairs[i]),
            forall|i: int| 0 <= i < pairs.len() ==> (#[trigger] pairs[i]).0 < a,
            forall|i: int, j: int|
                0 <= i < j < pairs.len() ==> pair_before(#[trigger] pairs[i], #[trigger] pairs[j]),
            forall|x: u8, y: u8| x < a && free_pair(blocked, (x, y)) ==> pairs@.contains((x, y)),
        decreases DECK - a,
    {
        if !has_card(blocked, a) {
            let mut b: u8 = a + 1;
            let ghost started = pairs.len() as int;
            while b < DECK
                invariant
                    a < b <= DECK,
                    free_card(blocked, a),
                    pairs.len() == started + free_below(blocked, b as nat) - free_below(
                        blocked,
                        (a + 1) as nat,
                    ),
                    forall|i: int|
                        0 <= i < pairs.len() ==> free_pair(blocked, #[trigger] pairs[i]),
                    forall|i: int|
                        0 <= i < pairs.len() ==> pair_before(#[trigger] pairs[i], (a, b)),
                    forall|i: int, j: int|
                        0 <= i < j < pairs.len() ==> pair_before(
                            #[trigger] pairs[i],
                            #[trigger] pairs[j],
                        ),
                    forall|x: u8, y: u8|
                        pair_before((x, y), (a, b)) && free_pair(blocked, (x, y))
                            ==> pairs@.contains((x, y)),
                decreases DECK - b,
            {
                if !has_card(blocked, b) {
                    let ghost before = pairs@;
                    pairs.push((a, b));
                    proof {
                        assert(pairs@[before.len() as int] == (a, b));
                        assert forall|x: u8, y: u8|
                            pair_before((x, y), (a, (b + 1) as u8)) && free_pair(
                                blocked,
                                (x, y),
                            ) implies pairs@.contains((x, y)) by {
                            if pair_before((x, y), (a, b)) {
                                let i = choose|i: int|
                                    0 <= i < before.len() && before[i] == (x, y);
                                assert(pairs@[i] == (x, y));
                            }
                        }
                    }
                }
                b = b + 1;
            }
            proof {
                let m = free_below(blocked, a as nat) as int;
                let added = pairs.len() - started;
                assert(added == free - (m + 1));
                assert(m * (2 * free - m - 1) + 2 * (free - (m + 1)) == (m + 1) * (2 * free - (m
                    + 1) - 1)) by (nonlinear_arith);
            }
        }
        a = a + 1;
    }
    proof {
        assert(free * (2 * free - free - 1) == free * (free - 1)) by (nonlinear_arith);
    }
    pairs
}

} // verus!
