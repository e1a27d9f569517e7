//! Counts of how often each pair of preflop classes meets, over the ways of
//! splitting four dealt cards between two players.
use vstd::prelude::*;
use crate::hands::{Hand, preflop_hand_from_cards, HAND_COUNT};

verus! {

/// Number of cells of the 169 x 169 table.
pub const CELL_COUNT: usize = 28561;

/// Sum of all entries.
pub open spec fn total(s: Seq<u64>) -> int
    decreases s.len(),
{
    if s.len() == 0 {
        0
    } else {
        total(s.drop_last()) + s.last()
    }
}

/// `s` with entry `i` raised by one.
pub open spec fn bump(s: Seq<u64>, i: int) -> Seq<u64> {
    s.update(i, (s[i] + 1) as u64)
}

/// Number of times cell `(a, b)` is counted for the matchups `pairs`: once
/// for each matchup `(a, b)` and once for each matchup `(b, a)`.
pub open spec fn count_cell(pairs: Seq<(int, int)>, a: int, b: int) -> int
    decreases pairs.len(),
{
    if pairs.len() == 0 {
        0
    } else {
        let p = pairs.last();
        count_cell(pairs.drop_last(), a, b) + (if p == (a, b) {
            1int
        } else {
            0int
        }) + (if p == (b, a) {
            1int
        } else {
            0int
        })
    }
}

/// The three ways to split a deal of four cards into two hands, each given
/// as the matchup of the two hands' classes.
pub open spec fn deal_pairs(d: Seq<int>, grid: bool) -> Seq<(int, int)> {
    seq![
        (cell_of(grid, d[0], d[1]), cell_of(grid, d[2], d[3])),
        (cell_of(grid, d[0], d[2]), cell_of(grid, d[1], d[3])),
        (cell_of(grid, d[0], d[3]), cell_of(grid, d[1], d[2])),
    ]
}

/// Class of two cards in the push/fold grid (`grid`) or in table order.
pub open spec fn cell_of(grid: bool, a: int, b: int) -> int {
    if grid {
        grid_index(a, b)
    } else {
        class_index(a, b)
    }
}

/// The matchups of a list of deals, deal after deal.
pub open spec fn all_pairs(deals: Seq<Seq<int>>, grid: bool) -> Seq<(int, int)>
    decreases deals.len(),
{
    if deals.len() == 0 {
        Seq::empty()
    } else {
        all_pairs(deals.drop_last(), grid) + deal_pairs(deals.last(), grid)
    }
}

/// Push/fold grid cell of two cards (see `Hand::get_index`).
pub open spec fn grid_index(c1: int, c2: int) -> int {
    if c1 / 4 == c2 / 4 || c1 % 4 == c2 % 4 {
        13 * (c1 / 4) + c2 / 4
    } else {
        13 * (c2 / 4) + c1 / 4
    }
}

/// Table-order class of two cards (see `preflop_hand_from_cards`).
pub open spec fn class_index(a: int, b: int) -> int {
    let (ra, rb) = (a / 4, b / 4);
    let (hi, lo) = if ra > rb {
        (ra, rb)
    } else {
        (rb, ra)
    };
    if ra == rb || a % 4 == b % 4 {
        lo * 13 + hi
    } else {
        hi * 13 + lo
    }
}

/// Deals of `usize` cards as sequences of integers.
pub open spec fn deals_of_usize(deals: Seq<Vec<usize>>) -> Seq<Seq<int>> {
    Seq::new(deals.len(), |i: int| Seq::new(deals[i]@.len(), |j: int| deals[i]@[j] as int))
}

/// Deals of `u8` cards as sequences of integers.
pub open spec fn deals_of_u8(deals: Seq<Vec<u8>>) -> Seq<Seq<int>> {
    Seq::new(deals.len(), |i: int| Seq::new(deals[i]@.len(), |j: int| deals[i]@[j] as int))
}

/// Every deal holds four cards of the deck.
pub open spec fn valid_deals(deals: Seq<Seq<int>>) -> bool {
    forall|i: int| 0 <= i < deals.len() ==> {
        &&& (#[trigger] deals[i]).len() == 4
        &&& forall|j: int| 0 <= j < 4 ==> 0 <= #[trigger] deals[i][j] < 52
    }
}

proof fn lemma_total_update(s: Seq<u64>, i: int, v: u64)
    requires
        0 <= i < s.len(),
    ensures
        total(s.update(i, v)) == total(s) - s[i] + v,
    decreases s.len(),
{
    if i < s.len() - 1 {
        assert(s.update(i, v).drop_last() =~= s.drop_last().update(i, v));
        lemma_total_update(s.drop_last(), i, v);
    } else {
        assert(s.update(i, v).drop_last() =~= s.drop_last());
    }
}

proof fn lemma_entry_le_total(s: Seq<u64>, i: int)
    requires
        0 <= i < s.len(),
    ensures
        s[i] <= total(s),
    decreases s.len(),
{
    lemma_total_nonneg(s.drop_last());
    if i < s.len() - 1 {
        lemma_entry_le_total(s.drop_last(), i);
    }
}

proof fn lemma_total_nonneg(s: Seq<u64>)
    ensures
        total(s) >= 0,
    decreases s.len(),
{
    if s.len() > 0 {
        lemma_total_nonneg(s.drop_last());
    }
}

proof fn lemma_total_prefix(s: Seq<u64>, i: int)
    requires
        0 <= i < s.len(),
    ensures
        total(s.subrange(0, i + 1)) == total(s.subrange(0, i)) + s[i],
        total(s.subrange(0, i + 1)) <= total(s),
    decreases s.len() - i,
{
    assert(s.subrange(0, i + 1).drop_last() =~= s.subrange(0, i));
    if i + 1 < s.len() {
        lemma_total_prefix(s, i + 1);
        lemma_total_nonneg(s.subrange(0, i + 1));
    } else {
        assert(s.subrange(0, i + 1) =~= s);
    }
}

proof fn lemma_cell_index(a: int, b: int, c: int, d: int)
    requires
        0 <= a < 169,
        0 <= b < 169,
        0 <= c < 169,
        0 <= d < 169,
        a * 169 + b == c * 169 + d,
    ensures
        a == c && b == d,
{
    vstd::arithmetic::div_mod::lemma_fundamental_div_mod_converse(a * 169 + b, 169, a, b);
    vstd::arithmetic::div_mod::lemma_fundamental_div_mod_converse(c * 169 + d, 169, c, d);
}

proof fn lemma_count_cell_bound(pairs: Seq<(int, int)>, a: int, b: int)
    ensures
        0 <= count_cell(pairs, a, b) <= 2 * pairs.len(),
    decreases pairs.len(),
{
    if pairs.len() > 0 {
        lemma_count_cell_bound(pairs.drop_last(), a, b);
    }
}

/// How often each pair of classes meets: cell `(a, b)` at `a * 169 + b`.
pub struct MatchupTable {
    counts: Vec<u64>,
}

impl MatchupTable {
    /// The cells, row by row.
    pub closed spec fn cells(&self) -> Seq<u64> {
        self.counts@
    }

    /// The table has one cell for each ordered pair of classes.
    pub open spec fn wf(&self) -> bool {
        self.cells().len() == CELL_COUNT
    }

    /// Cells agree with counting the matchups `pairs`.
    pub open spec fn counts_pairs(&self, pairs: Seq<(int, int)>) -> bool {
        forall|a: int, b: int|
            0 <= a < 169 && 0 <= b < 169 ==> #[trigger] self.cells()[a * 169 + b] as int
                == count_cell(pairs, a, b)
    }

    /// A table of zeros.
    pub fn new() -> (r: Self)
        ensures
            r.wf(),
            r.counts_pairs(Seq::empty()),
            total(r.cells()) == 0,
    {
        let mut counts: Vec<u64> = Vec::new();
        let mut i: usize = 0;
        while i < CELL_COUNT
            invariant
                i <= CELL_COUNT,
                counts@.len() == i,
                forall|j: int| 0 <= j < i ==> counts@[j] == 0,
                total(counts@) == 0,
            decreases CELL_COUNT - i,
        {
            let ghost before = counts@;
            counts.push(0);
            assert(counts@.drop_last() =~= before);
            i = i + 1;
        }
        let r = MatchupTable { counts };
        assert forall|a: int, b: int| 0 <= a < 169 && 0 <= b < 169 implies #[trigger] r.cells()[a
            * 169 + b] as int == count_cell(Seq::empty(), a, b) by {
            assert(0 <= a * 169 + b < CELL_COUNT) by (nonlinear_arith)
                requires
                    0 <= a < 169,
                    0 <= b < 169,
            ;
        }
        r
    }

    /// Records one meeting of classes `h1` and `h2`: cell `(h1, h2)` and
    /// cell `(h2, h1)` each go up by one (the diagonal cell by two).
    pub fn count_matchup(&mut self, h1: usize, h2: usize)
        requires
            old(self).wf(),
            h1 < HAND_COUNT,
            h2 < HAND_COUNT,
            total(old(self).cells()) + 2 <= u64::MAX,
        ensures
            final(self).wf(),
            final(self).cells() == bump(bump(old(self).cells(), h1 * 169 + h2), h2 * 169 + h1),
            total(final(self).cells()) == total(old(self).cells()) + 2,
    {
        let i1 = h1 * 169 + h2;
        let i2 = h2 * 169 + h1;
        proof {
            lemma_entry_le_total(self.counts@, i1 as int);
            lemma_total_update(self.counts@, i1 as int, (self.counts@[i1 as int] + 1) as u64);
        }
        let v1 = self.counts[i1] + 1;
        self.counts.set(i1, v1);
        proof {
            lemma_entry_le_total(self.counts@, i2 as int);
            lemma_total_update(self.counts@, i2 as int, (self.counts@[i2 as int] + 1) as u64);
        }
        let v2 = self.counts[i2] + 1;
        self.counts.set(i2, v2);
    }

    /// Count in cell `(h1, h2)`.
    pub fn get(&self, h1: usize, h2: usize) -> (r: u64)
        requires
            self.wf(),
            h1 < HAND_COUNT,
            h2 < HAND_COUNT,
        ensures
            r == self.cells()[h1 * 169 + h2],
    {
        self.counts[h1 * 169 + h2]
    }

    /// Sum of all cells.
    pub fn sum(&self) -> (r: u64)
        requires
            total(self.cells()) <= u64::MAX,
        ensures
            r == total(self.cells()),
    {
        let mut acc: u64 = 0;
        let mut i: usize = 0;
        while i < self.counts.len()
            invariant
                i <= self.counts@.len(),
                acc == total(self.counts@.subrange(0, i as int)),
                total(self.counts@) <= u64::MAX,
            decreases self.counts@.len() - i,
        {
            proof {
                lemma_total_prefix(self.counts@, i as int);
            }
            acc = acc + self.counts[i];
            i = i + 1;
        }
        assert(self.counts@.subrange(0, i as int) =~= self.counts@);
        acc
    }

    /// Counting one more matchup `(h1, h2)` bumps exactly its two cells.
    proof fn lemma_step(
        before: Seq<u64>,
        after: Seq<u64>,
        pairs: Seq<(int, int)>,
        h1: int,
        h2: int,
    )
        requires
            before.len() == CELL_COUNT,
            0 <= h1 < 169,
            0 <= h2 < 169,
            before[h1 * 169 + h2] + 2 <= u64::MAX,
            before[h2 * 169 + h1] + 2 <= u64::MAX,
            after == bump(bump(before, h1 * 169 + h2), h2 * 169 + h1),
            forall|a: int, b: int|
                0 <= a < 169 && 0 <= b < 169 ==> #[trigger] before[a * 169 + b] as int
                    == count_cell(pairs, a, b),
        ensures
            forall|a: int, b: int|
                0 <= a < 169 && 0 <= b < 169 ==> #[trigger] after[a * 169 + b] as int
                    == count_cell(pairs.push((h1, h2)), a, b),
    {
        let i1 = h1 * 169 + h2;
        let i2 = h2 * 169 + h1;
        assert(0 <= i1 < CELL_COUNT && 0 <= i2 < CELL_COUNT) by (nonlinear_arith)
            requires
                0 <= h1 < 169,
                0 <= h2 < 169,
                i1 == h1 * 169 + h2,
                i2 == h2 * 169 + h1,
        ;
        let mid = bump(before, i1);
        assert forall|a: int, b: int| 0 <= a < 169 && 0 <= b < 169 implies #[trigger] after[a
            * 169 + b] as int == count_cell(pairs.push((h1, h2)), a, b) by {
            let x = a * 169 + b;
            assert(0 <= x < CELL_COUNT) by (nonlinear_arith)
                requires
                    0 <= a < 169,
                    0 <= b < 169,
                    x == a * 169 + b,
            ;
            assert(pairs.push((h1, h2)).drop_last() =~= pairs);
            assert(pairs.push((h1, h2)).last() == (h1, h2));
            assert((x == i1) == (a == h1 && b == h2)) by {
                if x == i1 {
                    lemma_cell_index(a, b, h1, h2);
                }
            }
            assert((x == i2) == (a == h2 && b == h1)) by {
                if x == i2 {
                    lemma_cell_index(a, b, h2, h1);
                }
            }
            assert(before[x] as int == count_cell(pairs, a, b));
            assert(mid[x] == if x == i1 {
                (before[i1] + 1) as u64
            } else {
                before[x]
            });
            assert(after[x] == if x == i2 {
                (mid[i2] + 1) as u64
            } else {
                mid[x]
            });
        }
    }
}

impl Default for MatchupTable {
    /// A table of zeros.
    fn default() -> (r: Self)
        ensures
            r.wf(),
            r.counts_pairs(Seq::empty()),
            total(r.cells()) == 0,
    {
        MatchupTable::new()
    }
}

impl MatchupTable {
    /// Records the three matchups `p`, `q`, `r` of one deal.
    fn count_deal(&mut self, p: (usize, usize), q: (usize, usize), r: (usize, usize), Ghost(pairs): Ghost<Seq<(int, int)>>)
        requires
            old(self).wf(),
            old(self).counts_pairs(pairs),
            p.0 < 169 && p.1 < 169 && q.0 < 169 && q.1 < 169 && r.0 < 169 && r.1 < 169,
            total(old(self).cells()) + 6 <= u64::MAX,
        ensures
            final(self).wf(),
            final(self).counts_pairs(
                pairs.push((p.0 as int, p.1 as int)).push((q.0 as int, q.1 as int)).push(
                    (r.0 as int, r.1 as int),
                ),
            ),
            total(final(self).cells()) == total(old(self).cells()) + 6,
    {
        let ghost mut ps = pairs;
        proof {
            let c = self.cells();
            lemma_entry_le_total(c, p.0 * 169 + p.1);
            lemma_entry_le_total(c, p.1 * 169 + p.0);
        }
        let ghost before = self.cells();
        self.count_matchup(p.0, p.1);
        proof {
            MatchupTable::lemma_step(before, self.cells(), ps, p.0 as int, p.1 as int);
            ps = ps.push((p.0 as int, p.1 as int));
            let c = self.cells();
            lemma_entry_le_total(c, q.0 * 169 + q.1);
            lemma_entry_le_total(c, q.1 * 169 + q.0);
        }
        let ghost before = self.cells();
        self.count_matchup(q.0, q.1);
        proof {
            MatchupTable::lemma_step(before, self.cells(), ps, q.0 as int, q.1 as int);
            ps = ps.push((q.0 as int, q.1 as int));
            let c = self.cells();
            lemma_entry_le_total(c, r.0 * 169 + r.1);
            lemma_entry_le_total(c, r.1 * 169 + r.0);
        }
        let ghost before = self.cells();
        self.count_matchup(r.0, r.1);
        proof {
            MatchupTable::lemma_step(before, self.cells(), ps, r.0 as int, r.1 as int);
        }
    }

    /// Counts, in the push/fold grid, the matchups of every way to split
    /// each deal of four cards between two players.
    pub fn tally_grid(deals: &Vec<Vec<usize>>) -> (t: MatchupTable)
        requires
            valid_deals(deals_of_usize(deals@)),
            6 * deals@.len() <= u64::MAX,
        ensures
            t.wf(),
            t.counts_pairs(all_pairs(deals_of_usize(deals@), true)),
            total(t.cells()) == 6 * deals@.len(),
    {
        let ghost all = deals_of_usize(deals@);
        let mut t = MatchupTable::new();
        let mut d: usize = 0;
        while d < deals.len()
            invariant
                d <= deals@.len(),
                all == deals_of_usize(deals@),
                valid_deals(all),
                6 * deals@.len() <= u64::MAX,
                t.wf(),
                t.counts_pairs(all_pairs(all.subrange(0, d as int), true)),
                total(t.cells()) == 6 * d,
            decreases deals@.len() - d,
        {
            let x = &deals[d];
            assert(all[d as int].len() == 4);
            assert(forall|j: int| 0 <= j < 4 ==> #[trigger] x@[j] == all[d as int][j]);
            assert(0 <= all[d as int][0] < 52 && 0 <= all[d as int][1] < 52);
            assert(0 <= all[d as int][2] < 52 && 0 <= all[d as int][3] < 52);
            let p = (Hand::get_index(x[0], x[1]), Hand::get_index(x[2], x[3]));
            let q = (Hand::get_index(x[0], x[2]), Hand::get_index(x[1], x[3]));
            let r = (Hand::get_index(x[0], x[3]), Hand::get_index(x[1], x[2]));
            let ghost pairs = all_pairs(all.subrange(0, d as int), true);
            t.count_deal(p, q, r, Ghost(pairs));
            proof {
                let next = all.subrange(0, d + 1);
                assert(next.drop_last() =~= all.subrange(0, d as int));
                assert(next.last() == all[d as int]);
                assert(all_pairs(next, true) =~= pairs.push((p.0 as int, p.1 as int)).push(
                    (q.0 as int, q.1 as int),
                ).push((r.0 as int, r.1 as int)));
            }
            d = d + 1;
        }
        assert(all.subrange(0, d as int) =~= all);
        t
    }

    /// Counts, in table order, the matchups of every way to split each deal
    /// of four cards between two players.
    pub fn tally_table(deals: &Vec<Vec<u8>>) -> (t: MatchupTable)
        requires
            valid_deals(deals_of_u8(deals@)),
            6 * deals@.len() <= u64::MAX,
        ensures
            t.wf(),
            t.counts_pairs(all_pairs(deals_of_u8(deals@), false)),
            total(t.cells()) == 6 * deals@.len(),
    {
        let ghost all = deals_of_u8(deals@);
        let mut t = MatchupTable::new();
        let mut d: usize = 0;
        while d < deals.len()
            invariant
                d <= deals@.len(),
                all == deals_of_u8(deals@),
                valid_deals(all),
                6 * deals@.len() <= u64::MAX,
                t.wf(),
                t.counts_pairs(all_pairs(all.subrange(0, d as int), false)),
                total(t.cells()) == 6 * d,
            decreases deals@.len() - d,
        {
            let x = &deals[d];
            assert(all[d as int].len() == 4);
            assert(forall|j: int| 0 <= j < 4 ==> #[trigger] x@[j] == all[d as int][j]);
            assert(0 <= all[d as int][0] < 52 && 0 <= all[d as int][1] < 52);
            assert(0 <= all[d as int][2] < 52 && 0 <= all[d as int][3] < 52);
            let p = (
                preflop_hand_from_cards(x[0], x[1]) as usize,
                preflop_hand_from_cards(x[2], x[3]) as usize,
            );
            let q = (
                preflop_hand_from_cards(x[0], x[2]) as usize,
                preflop_hand_from_cards(x[1], x[3]) as usize,
            );
            let r = (
                preflop_hand_from_cards(x[0], x[3]) as usize,
                preflop_hand_from_cards(x[1], x[2]) as usize,
            );
            let ghost pairs = all_pairs(all.subrange(0, d as int), false);
            t.count_deal(p, q, r, Ghost(pairs));
            proof {
                let next = all.subrange(0, d + 1);
                assert(next.drop_last() =~= all.subrange(0, d as int));
                assert(next.last() == all[d as int]);
                assert(all_pairs(next, false) =~= pairs.push((p.0 as int, p.1 as int)).push(
                    (q.0 as int, q.1 as int),
                ).push((r.0 as int, r.1 as int)));
            }
            d = d + 1;
        }
        assert(all.subrange(0, d as int) =~= all);
        t
    }
}

} // verus!
