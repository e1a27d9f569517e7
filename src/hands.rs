//! Cards and preflop hand classes of hold'em.
//!
//! A card is a number below 52: rank `card / 4` (2 up to ace) and suit
//! `card % 4` (spades, hearts, diamonds, clubs). The 169 preflop classes
//! (pairs, suited and offsuit combinations) are laid out on a 13 x 13 grid
//! in two ways: the push/fold grid of [`Hand::get_index`], with suited hands
//! below the diagonal, and the table order of [`preflop_hand_from_cards`],
//! with suited hands above it.
use vstd::prelude::*;
use vstd::string::*;

verus! {

/// Number of cards in the deck.
pub const CARD_COUNT: usize = 52;

/// Number of preflop hand classes.
pub const HAND_COUNT: usize = 169;

/// Character of rank `r`: 2 to 9, then T, J, Q, K, A.
pub open spec fn rank_char(r: int) -> char {
    if r == 0 {
        '2'
    } else if r == 1 {
        '3'
    } else if r == 2 {
        '4'
    } else if r == 3 {
        '5'
    } else if r == 4 {
        '6'
    } else if r == 5 {
        '7'
    } else if r == 6 {
        '8'
    } else if r == 7 {
        '9'
    } else if r == 8 {
        'T'
    } else if r == 9 {
        'J'
    } else if r == 10 {
        'Q'
    } else if r == 11 {
        'K'
    } else {
        'A'
    }
}

/// Character of suit `s`.
pub open spec fn suit_char(s: int) -> char {
    if s == 0 {
        's'
    } else if s == 1 {
        'h'
    } else if s == 2 {
        'd'
    } else {
        'c'
    }
}

/// Name of card `c`, as in "Ts".
pub open spec fn card_name(c: int) -> Seq<char> {
    seq![rank_char(c / 4), suit_char(c % 4)]
}

/// Name of the class of two cards: the rank twice for a pair, else the
/// higher rank, the lower rank, and `s` (same suit) or `o`.
pub open spec fn class_name(c1: int, c2: int) -> Seq<char> {
    let r1 = c1 / 4;
    let r2 = c2 / 4;
    if r1 == r2 {
        seq![rank_char(r1), rank_char(r1)]
    } else {
        let hi = if r1 > r2 {
            r1
        } else {
            r2
        };
        let lo = if r1 > r2 {
            r2
        } else {
            r1
        };
        seq![rank_char(hi), rank_char(lo), if c1 % 4 == c2 % 4 {
            's'
        } else {
            'o'
        }]
    }
}

/// Name of cell `x` of the push/fold grid: row `x / 13`, column `x % 13`;
/// pairs on the diagonal, suited hands below it, offsuit hands above.
pub open spec fn grid_name(x: int) -> Seq<char> {
    let i = x / 13;
    let j = x % 13;
    if i > j {
        seq![rank_char(i), rank_char(j), 's']
    } else if i < j {
        seq![rank_char(j), rank_char(i), 'o']
    } else {
        seq![rank_char(i), rank_char(j)]
    }
}

/// Name of class `h` in table order: row `h / 13`, column `h % 13`; pairs
/// on the diagonal, suited hands above it, offsuit hands below.
pub open spec fn table_name(h: int) -> Seq<char> {
    let r = h / 13;
    let c = h % 13;
    if r == c {
        seq![rank_char(r), rank_char(r)]
    } else if c > r {
        seq![rank_char(c), rank_char(r), 's']
    } else {
        seq![rank_char(r), rank_char(c), 'o']
    }
}

proof fn lemma_div_mod(a: int, b: int, d: int)
    requires
        0 <= a,
        0 <= b < d,
    ensures
        (d * a + b) / d == a,
        (d * a + b) % d == b,
        (a * d + b) / d == a,
        (a * d + b) % d == b,
{
    assert(d * a == a * d) by (nonlinear_arith);
    vstd::arithmetic::div_mod::lemma_fundamental_div_mod_converse(a * d + b, d, a, b);
}

proof fn lemma_card_rank(c: int)
    requires
        0 <= c < 52,
    ensures
        0 <= c / 4 < 13,
        0 <= c % 4 < 4,
        c == 4 * (c / 4) + c % 4,
{
}

/// Rank of a rank character.
fn rank_of(c: char) -> (r: Option<usize>)
    ensures
        r matches Some(x) ==> x < 13 && rank_char(x as int) == c,
        r is None ==> forall|x: int| 0 <= x < 13 ==> rank_char(x) != c,
{
    match c {
        '2' => Some(0),
        '3' => Some(1),
        '4' => Some(2),
        '5' => Some(3),
        '6' => Some(4),
        '7' => Some(5),
        '8' => Some(6),
        '9' => Some(7),
        'T' => Some(8),
        'J' => Some(9),
        'Q' => Some(10),
        'K' => Some(11),
        'A' => Some(12),
        _ => None,
    }
}

/// Suit of a suit character.
fn suit_of(c: char) -> (r: Option<usize>)
    ensures
        r matches Some(x) ==> x < 4 && suit_char(x as int) == c,
        r is None ==> forall|x: int| 0 <= x < 4 ==> suit_char(x) != c,
{
    match c {
        's' => Some(0),
        'h' => Some(1),
        'd' => Some(2),
        'c' => Some(3),
        _ => None,
    }
}

/// Character of rank `r`.
fn rank_to_char(r: usize) -> (c: char)
    requires
        r < 13,
    ensures
        c == rank_char(r as int),
{
    match r {
        0 => '2',
        1 => '3',
        2 => '4',
        3 => '5',
        4 => '6',
        5 => '7',
        6 => '8',
        7 => '9',
        8 => 'T',
        9 => 'J',
        10 => 'Q',
        11 => 'K',
        _ => 'A',
    }
}

/// Relies on std's `String::push`: appends one character.
#[verifier::external_body]
fn push_char(s: &mut String, c: char)
    ensures
        final(s)@ == old(s)@.push(c),
{
    s.push(c);
}

/// A string of the given characters.
fn string_of(chars: &[char]) -> (r: String)
    ensures
        r@ == chars@,
{
    let mut r = String::new();
    let mut i: usize = 0;
    while i < chars.len()
        invariant
            i <= chars@.len(),
            r@ == chars@.subrange(0, i as int),
        decreases chars@.len() - i,
    {
        push_char(&mut r, chars[i]);
        assert(r@ =~= chars@.subrange(0, i + 1));
        i = i + 1;
    }
    assert(r@ =~= chars@);
    r
}

/// Two hole cards.
#[derive(Debug, Clone, Copy, PartialEq, Eq, Structural)]
pub struct Hand(pub usize, pub usize);

impl Hand {
    /// Name of the hand's class, as in "AKs", "T9o" or "22".
    pub fn name(&self) -> (r: String)
        requires
            self.0 < CARD_COUNT,
            self.1 < CARD_COUNT,
        ensures
            r@ == class_name(self.0 as int, self.1 as int),
    {
        let r1 = self.0 / 4;
        let r2 = self.1 / 4;
        let s1 = self.0 % 4;
        let s2 = self.1 % 4;
        if r1 == r2 {
            string_of(&[rank_to_char(r1), rank_to_char(r1)])
        } else {
            let (hi, lo) = if r1 > r2 {
                (r1, r2)
            } else {
                (r2, r1)
            };
            let suffix = if s1 == s2 {
                's'
            } else {
                'o'
            };
            let r = string_of(&[rank_to_char(hi), rank_to_char(lo), suffix]);
            r
        }
    }

    /// Name of cell `x` of the push/fold grid.
    pub fn index_to_str(x: usize) -> (r: String)
        requires
            x < HAND_COUNT,
        ensures
            r@ == grid_name(x as int),
    {
        let i = x / 13;
        let j = x % 13;
        if i > j {
            string_of(&[rank_to_char(i), rank_to_char(j), 's'])
        } else if i < j {
            string_of(&[rank_to_char(j), rank_to_char(i), 'o'])
        } else {
            string_of(&[rank_to_char(i), rank_to_char(j)])
        }
    }

    /// Push/fold grid cell of two cards: row of the first card's rank for a
    /// pair or a suited hand, row of the second card's rank otherwise.
    pub fn get_index(c1: usize, c2: usize) -> (r: usize)
        requires
            c1 < CARD_COUNT,
            c2 < CARD_COUNT,
        ensures
            r < HAND_COUNT,
            r == if c1 / 4 == c2 / 4 || c1 % 4 == c2 % 4 {
                13 * (c1 / 4) + c2 / 4
            } else {
                13 * (c2 / 4) + c1 / 4
            },
    {
        let r1 = c1 / 4;
        let s1 = c1 % 4;
        let r2 = c2 / 4;
        let s2 = c2 % 4;
        if r1 == r2 || s1 == s2 {
            13 * r1 + r2
        } else {
            13 * r2 + r1
        }
    }
}

/// The push/fold grid names a hand whose first card is the higher one: the
/// cell that `get_index` gives holds the name of the hand's class.
pub proof fn lemma_grid_names_hand(c1: int, c2: int)
    requires
        0 <= c2 < c1 < 52,
    ensures
        grid_name(
            if c1 / 4 == c2 / 4 || c1 % 4 == c2 % 4 {
                13 * (c1 / 4) + c2 / 4
            } else {
                13 * (c2 / 4) + c1 / 4
            },
        ) == class_name(c1, c2),
{
    lemma_card_rank(c1);
    lemma_card_rank(c2);
    let r1 = c1 / 4;
    let r2 = c2 / 4;
    assert(r1 >= r2);
    lemma_div_mod(r1, r2, 13);
    lemma_div_mod(r2, r1, 13);
    if r1 == r2 || c1 % 4 == c2 % 4 {
        assert(grid_name(13 * r1 + r2) =~= class_name(c1, c2));
    } else {
        assert(grid_name(13 * r2 + r1) =~= class_name(c1, c2));
    }
}


/// Name of class `h` in table order, as in "AKs", "T9o" or "22".
pub fn preflop_hand_name(h: usize) -> (r: String)
    requires
        h < HAND_COUNT,
    ensures
        r@ == table_name(h as int),
{
    let row = h / 13;
    let col = h % 13;
    if row == col {
        string_of(&[rank_to_char(row), rank_to_char(row)])
    } else if col > row {
        string_of(&[rank_to_char(col), rank_to_char(row), 's'])
    } else {
        string_of(&[rank_to_char(row), rank_to_char(col), 'o'])
    }
}

/// Card of a two-character name such as "Ts"; `None` for any other text.
pub fn card_from_str(card: &str) -> (r: Option<u8>)
    ensures
        r matches Some(c) ==> c < CARD_COUNT && card@ == card_name(c as int),
        r is None ==> forall|c: int| 0 <= c < CARD_COUNT ==> card@ != card_name(c),
{
    if card.unicode_len() != 2 {
        assert forall|c: int| 0 <= c < CARD_COUNT implies card@ != card_name(c) by {
            assert(card_name(c).len() == 2);
        }
        return None;
    }
    let c0 = card.get_char(0);
    let c1 = card.get_char(1);
    match (rank_of(c0), suit_of(c1)) {
        (Some(rank), Some(suit)) => {
            let c = 4 * rank + suit;
            proof {
                lemma_div_mod(rank as int, suit as int, 4);
                assert(card@ =~= card_name(c as int));
            }
            Some(c as u8)
        },
        _ => {
            assert forall|c: int| 0 <= c < CARD_COUNT implies card@ != card_name(c) by {
                lemma_card_rank(c);
                if card@ == card_name(c) {
                    assert(card@[0] == rank_char(c / 4));
                    assert(card@[1] == suit_char(c % 4));
                }
            }
            None
        },
    }
}

/// Preflop class, in table order, of two cards.
pub fn preflop_hand_from_cards(a: u8, b: u8) -> (r: u8)
    requires
        a < CARD_COUNT,
        b < CARD_COUNT,
    ensures
        r < HAND_COUNT,
        table_name(r as int) == class_name(a as int, b as int),
        r == ({
            let (ra, rb) = (a / 4, b / 4);
            let (hi, lo) = if ra > rb {
                (ra, rb)
            } else {
                (rb, ra)
            };
            if ra == rb || a % 4 == b % 4 {
                lo * 13 + hi
            } else {
                hi * 13 + lo
            }
        }),
{
    let rank_a = a / 4;
    let suit_a = a % 4;
    let rank_b = b / 4;
    let suit_b = b % 4;
    let max_rank = if rank_a > rank_b {
        rank_a
    } else {
        rank_b
    };
    let min_rank = if rank_a > rank_b {
        rank_b
    } else {
        rank_a
    };
    proof {
        lemma_div_mod(min_rank as int, max_rank as int, 13);
        lemma_div_mod(max_rank as int, min_rank as int, 13);
    }
    if rank_a == rank_b || suit_a == suit_b {
        let r = min_rank * 13 + max_rank;
        assert(table_name(r as int) =~= class_name(a as int, b as int));
        r
    } else {
        let r = max_rank * 13 + min_rank;
        assert(table_name(r as int) =~= class_name(a as int, b as int));
        r
    }
}

/// Preflop class, in table order, of a class name such as "AKs", "T9o" or
/// "22"; `None` for any other text.
pub fn preflop_hand_from_str(hand: &str) -> (r: Option<u8>)
    ensures
        r matches Some(h) ==> h < HAND_COUNT && hand@ == table_name(h as int),
        r is None ==> forall|h: int| 0 <= h < HAND_COUNT ==> hand@ != table_name(h),
{
    let n = hand.unicode_len();
    if n == 2 {
        let c0 = hand.get_char(0);
        let c1 = hand.get_char(1);
        if let (Some(a), Some(b)) = (rank_of(c0), rank_of(c1)) {
            if a == b {
                proof {
                    lemma_div_mod(a as int, a as int, 13);
                }
                let h = a * 13 + a;
                assert(hand@ =~= table_name(h as int));
                return Some(h as u8);
            }
        }
        assert forall|h: int| 0 <= h < HAND_COUNT implies hand@ != table_name(h) by {
            if hand@ == table_name(h) {
                assert(h / 13 == h % 13);
                assert(hand@[0] == rank_char(h / 13));
                assert(hand@[1] == rank_char(h / 13));
            }
        }
        None
    } else if n == 3 {
        let c0 = hand.get_char(0);
        let c1 = hand.get_char(1);
        let c2 = hand.get_char(2);
        if let (Some(hi), Some(lo)) = (rank_of(c0), rank_of(c1)) {
            if hi > lo && (c2 == 's' || c2 == 'o') {
                proof {
                    lemma_div_mod(lo as int, hi as int, 13);
                    lemma_div_mod(hi as int, lo as int, 13);
                }
                let h = if c2 == 's' {
                    lo * 13 + hi
                } else {
                    hi * 13 + lo
                };
                assert(hand@ =~= table_name(h as int));
                return Some(h as u8);
            }
        }
        assert forall|h: int| 0 <= h < HAND_COUNT implies hand@ != table_name(h) by {
            if hand@ == table_name(h) {
                let r = h / 13;
                let c = h % 13;
                assert(r != c);
                if c > r {
                    assert(hand@[0] == rank_char(c));
                    assert(hand@[1] == rank_char(r));
                    assert(hand@[2] == 's');
                } else {
                    assert(hand@[0] == rank_char(r));
                    assert(hand@[1] == rank_char(c));
                    assert(hand@[2] == 'o');
                }
            }
        }
        None
    } else {
        assert forall|h: int| 0 <= h < HAND_COUNT implies hand@ != table_name(h) by {
            assert(table_name(h).len() == 2 || table_name(h).len() == 3);
        }
        None
    }
}

} // verus!
