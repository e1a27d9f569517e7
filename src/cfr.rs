//! Vectorised counterfactual regret minimisation.
//!
//! The game tree carries a vector over all `S` raw states through every
//! node. A decision node groups the states into `I` information sets and
//! keeps its strategies and regrets as `A x I` matrices (one row per action,
//! one column per information set). Each iteration runs three passes from
//! the root: reach probabilities down, expected values up, then regret and
//! strategy updates.
//!
//! The engine is generic over its numbers (`Scalar`). Each arithmetic
//! operation is named by a spec function of its operands, and the contracts
//! say, entry by entry, which operations produce every number the engine
//! writes: `prob_step`, `ev_step` and `strategy_step` describe the three
//! passes at every node of the tree, `iterated` a run of whole iterations.
//! They also keep the tree's invariants (`wf`) and fixed parts.
use vstd::prelude::*;

verus! {

/// Every member of every information set is a state below `n_states`.
pub open spec fn members_in_range(infosets: Seq<Seq<usize>>, n_states: nat) -> bool {
    forall|i: int, j: int|
        0 <= i < infosets.len() && 0 <= j < infosets[i].len() ==> (#[trigger] infosets[i][j])
            < n_states
}

/// No state is listed twice, within one information set or across two.
pub open spec fn members_distinct(infosets: Seq<Seq<usize>>) -> bool {
    forall|i1: int, j1: int, i2: int, j2: int|
        0 <= i1 < infosets.len() && 0 <= j1 < infosets[i1].len() && 0 <= i2 < infosets.len() && 0
            <= j2 < infosets[i2].len() && #[trigger] infosets[i1][j1] == #[trigger] infosets[i2][j2]
            ==> i1 == i2 && j1 == j2
}

/// State `s` is listed in some information set.
pub open spec fn is_listed(infosets: Seq<Seq<usize>>, s: usize) -> bool {
    exists|i: int, j: int|
        0 <= i < infosets.len() && 0 <= j < infosets[i].len() && #[trigger] infosets[i][j] == s
}

/// Every state below `n_states` is listed in some information set.
pub open spec fn members_cover(infosets: Seq<Seq<usize>>, n_states: nat) -> bool {
    forall|s: usize| s < n_states ==> #[trigger] is_listed(infosets, s)
}

/// The information sets partition the states `0..n_states`.
pub open spec fn is_partition(infosets: Seq<Seq<usize>>, n_states: nat) -> bool {
    &&& members_in_range(infosets, n_states)
    &&& members_distinct(infosets)
    &&& members_cover(infosets, n_states)
}

/// `owners` maps each of the `n_states` states to the information set that
/// lists it.
pub open spec fn is_owner_map(infosets: Seq<Seq<usize>>, owners: Seq<usize>) -> bool {
    &&& forall|s: int| 0 <= s < owners.len() ==> #[trigger] owners[s] < infosets.len()
    &&& forall|i: int, j: int|
        0 <= i < infosets.len() && 0 <= j < infosets[i].len() ==> (#[trigger] infosets[i][j])
            < owners.len() && owners[infosets[i][j] as int] == i
}

/// The information sets as a sequence of sequences.
pub open spec fn view_sets(infosets: &Vec<Vec<usize>>) -> Seq<Seq<usize>> {
    infosets@.map_values(|v: Vec<usize>| v@)
}

/// Checks that `infosets` partitions the states `0..n_states` and, when it
/// does, gives for each state the index of its information set.
pub fn infoset_owners(infosets: &Vec<Vec<usize>>, n_states: usize) -> (r: Option<Vec<usize>>)
    ensures
        r is Some <==> is_partition(view_sets(infosets), n_states as nat),
        r matches Some(owners) ==> owners@.len() == n_states && is_owner_map(
            view_sets(infosets),
            owners@,
        ),
{
    let ghost sets = view_sets(infosets);
    let n_sets = infosets.len();
    let mut owners: Vec<usize> = Vec::new();
    let mut s: usize = 0;
    while s < n_states
        invariant
            s <= n_states,
            owners@.len() == s,
            forall|t: int| 0 <= t < s ==> owners@[t] == n_sets,
        decreases n_states - s,
    {
        owners.push(n_sets);
        s = s + 1;
    }
    // Where each assigned state was found.
    let ghost mut found: Seq<(int, int)> = Seq::new(n_states as nat, |t: int| (0int, 0int));
    let mut i: usize = 0;
    while i < n_sets
        invariant
            i <= n_sets,
            n_sets == infosets@.len(),
            sets == view_sets(infosets),
            owners@.len() == n_states,
            found.len() == n_states,
            forall|t: int| 0 <= t < n_states ==> #[trigger] owners@[t] <= n_sets,
            forall|a: int, b: int|
                0 <= a < i && 0 <= b < sets[a].len() ==> (#[trigger] sets[a][b]) < n_states
                    && owners@[sets[a][b] as int] == a && found[sets[a][b] as int] == (a, b),
            forall|t: int|
                0 <= t < n_states && #[trigger] owners@[t] != n_sets ==> {
                    let (a, b) = found[t];
                    0 <= a < i && 0 <= b < sets[a].len() && sets[a][b] == t
                },
        decreases n_sets - i,
    {
        let set = &infosets[i];
        assert(set@ == sets[i as int]);
        let mut j: usize = 0;
        while j < set.len()
            invariant
                i < n_sets,
                j <= set@.len(),
                n_sets == infosets@.len(),
                sets == view_sets(infosets),
                set@ == sets[i as int],
                owners@.len() == n_states,
                found.len() == n_states,
                forall|t: int| 0 <= t < n_states ==> #[trigger] owners@[t] <= n_sets,
                forall|a: int, b: int|
                    (0 <= a < i && 0 <= b < sets[a].len()) || (a == i && 0 <= b < j) ==> (
                    #[trigger] sets[a][b]) < n_states && owners@[sets[a][b] as int] == a && found[sets[a][b] as int] == (a, b),
                forall|t: int|
                    0 <= t < n_states && #[trigger] owners@[t] != n_sets ==> {
                        let (a, b) = found[t];
                        ((0 <= a < i && 0 <= b < sets[a].len()) || (a == i && 0 <= b < j))
                            && sets[a][b] == t
                    },
            decreases set@.len() - j,
        {
            let m = set[j];
            if m >= n_states {
                assert(!members_in_range(sets, n_states as nat)) by {
                    assert(sets[i as int][j as int] == m);
                }
                return None;
            }
            if owners[m] != n_sets {
                assert(!members_distinct(sets)) by {
                    let (a, b) = found[m as int];
                    assert(sets[a][b] == sets[i as int][j as int]);
                }
                return None;
            }
            owners.set(m, i);
            proof {
                found = found.update(m as int, (i as int, j as int));
            }
            j = j + 1;
        }
        i = i + 1;
    }
    let mut t: usize = 0;
    while t < n_states
        invariant
            t <= n_states,
            n_sets == infosets@.len(),
            sets == view_sets(infosets),
            owners@.len() == n_states,
            found.len() == n_states,
            forall|a: int, b: int|
                0 <= a < n_sets && 0 <= b < sets[a].len() ==> (#[trigger] sets[a][b]) < n_states
                    && owners@[sets[a][b] as int] == a && found[sets[a][b] as int] == (a, b),
            forall|u: int|
                0 <= u < n_states && #[trigger] owners@[u] != n_sets ==> {
                    let (a, b) = found[u];
                    0 <= a < n_sets && 0 <= b < sets[a].len() && sets[a][b] == u
                },
            forall|u: int| 0 <= u < t ==> #[trigger] owners@[u] < n_sets,
            forall|u: int| 0 <= u < n_states ==> #[trigger] owners@[u] <= n_sets,
        decreases n_states - t,
    {
        if owners[t] == n_sets {
            assert(!members_cover(sets, n_states as nat)) by {
                if is_listed(sets, t) {
                    let (a, b) = choose|a: int, b: int|
                        0 <= a < sets.len() && 0 <= b < sets[a].len() && #[trigger] sets[a][b]
                            == t;
                    assert(owners@[sets[a][b] as int] == a);
                }
            }
            return None;
        }
        t = t + 1;
    }
    proof {
        assert forall|i1: int, j1: int, i2: int, j2: int|
            0 <= i1 < sets.len() && 0 <= j1 < sets[i1].len() && 0 <= i2 < sets.len() && 0 <= j2
                < sets[i2].len() && #[trigger] sets[i1][j1] == #[trigger] sets[i2][j2] implies i1
            == i2 && j1 == j2 by {
            assert(found[sets[i1][j1] as int] == (i1, j1));
            assert(found[sets[i2][j2] as int] == (i2, j2));
        }
        assert forall|u: usize| u < n_states implies #[trigger] is_listed(sets, u) by {
            assert(owners@[u as int] < n_sets);
            let (a, b) = found[u as int];
            assert(sets[a][b] == u);
        }
    }
    Some(owners)
}


/// A matrix held as a vector of rows, seen as a sequence of sequences.
pub open spec fn view_rows<T>(m: &Vec<Vec<T>>) -> Seq<Seq<T>> {
    m@.map_values(|v: Vec<T>| v@)
}

/// Column `c` of a matrix held as rows.
pub open spec fn column<T>(m: Seq<Seq<T>>, c: int) -> Seq<T> {
    Seq::new(m.len(), |a: int| m[a][c])
}

/// `expanded` is `strategy` carried over to the state dimension through
/// `owners`: entry `(a, s)` is the strategy of action `a` at the information
/// set of state `s`.
pub open spec fn is_expansion<T>(strategy: Seq<Seq<T>>, owners: Seq<usize>, expanded: Seq<Seq<T>>) -> bool {
    &&& expanded.len() == strategy.len()
    &&& forall|a: int| 0 <= a < expanded.len() ==> (#[trigger] expanded[a]).len() == owners.len()
    &&& forall|a: int, s: int|
        0 <= a < expanded.len() && 0 <= s < owners.len() ==> #[trigger] expanded[a][s]
            == strategy[a][owners[s] as int]
}

/// Carries an `A x I` strategy over to `A x S`: within an information set the
/// acting player cannot tell the states apart, so every state plays the
/// column of its information set.
pub fn spread_columns<T: Copy>(strategy: &Vec<Vec<T>>, owners: &Vec<usize>) -> (r: Vec<Vec<T>>)
    requires
        forall|a: int, s: int|
            0 <= a < strategy@.len() && 0 <= s < owners@.len() ==> #[trigger] owners@[s] < (
            #[trigger] strategy@[a])@.len(),
    ensures
        is_expansion(view_rows(strategy), owners@, view_rows(&r)),
{
    let ghost st = view_rows(strategy);
    let mut r: Vec<Vec<T>> = Vec::new();
    let mut a: usize = 0;
    while a < strategy.len()
        invariant
            a <= strategy@.len(),
            st == view_rows(strategy),
            forall|b: int, s: int|
                0 <= b < strategy@.len() && 0 <= s < owners@.len() ==> #[trigger] owners@[s] < (
                #[trigger] strategy@[b])@.len(),
            r@.len() == a,
            forall|b: int| 0 <= b < a ==> (#[trigger] r@[b])@.len() == owners@.len(),
            forall|b: int, s: int|
                0 <= b < a && 0 <= s < owners@.len() ==> #[trigger] r@[b]@[s] == st[b][owners@[s] as int],
        decreases strategy@.len() - a,
    {
        let row = &strategy[a];
        assert forall|u: int| 0 <= u < owners@.len() implies owners@[u] < row@.len() by {
            assert(owners@[u] < strategy@[a as int]@.len());
        }
        let mut expanded_row: Vec<T> = Vec::new();
        let mut s: usize = 0;
        while s < owners.len()
            invariant
                a < strategy@.len(),
                row@ == st[a as int],
                st == view_rows(strategy),
                s <= owners@.len(),
                expanded_row@.len() == s,
                forall|u: int| 0 <= u < owners@.len() ==> owners@[u] < row@.len(),
                forall|u: int| 0 <= u < s ==> #[trigger] expanded_row@[u] == row@[owners@[u] as int],
            decreases owners@.len() - s,
        {
            assert(owners@[s as int] < strategy@[a as int]@.len());
            let v: T = row[owners[s]];
            expanded_row.push(v);
            s = s + 1;
        }
        r.push(expanded_row);
        a = a + 1;
    }
    assert(view_rows(&r).len() == r@.len());
    r
}

/// Every column of an expanded strategy is the strategy column of its
/// state's information set. Columns of the expansion therefore sum to what
/// the strategy's columns sum to: to one, for a strategy whose columns are
/// distributions.
pub proof fn lemma_expanded_columns<T>(
    infosets: Seq<Seq<usize>>,
    owners: Seq<usize>,
    strategy: Seq<Seq<T>>,
    expanded: Seq<Seq<T>>,
)
    requires
        is_owner_map(infosets, owners),
        is_expansion(strategy, owners, expanded),
    ensures
        forall|i: int, j: int|
            0 <= i < infosets.len() && 0 <= j < infosets[i].len() ==> column(
                expanded,
                #[trigger] infosets[i][j] as int,
            ) == column(strategy, i),
{
    assert forall|i: int, j: int| 0 <= i < infosets.len() && 0 <= j < infosets[i].len() implies column(
        expanded,
        #[trigger] infosets[i][j] as int,
    ) == column(strategy, i) by {
        let s = infosets[i][j] as int;
        assert(column(expanded, s) =~= column(strategy, i));
    }
}


/// Arithmetic that the engine needs of its numbers. Each operation is a
/// function of its operands, named by a spec function: the engine's
/// contracts say which operations produce each number, whatever the
/// implementing type computes.
pub trait Scalar: Copy + Sized {
    spec fn spec_zero() -> Self;

    spec fn spec_one() -> Self;

    spec fn spec_from_u64(n: u64) -> Self;

    spec fn spec_plus(self, o: Self) -> Self;

    spec fn spec_minus(self, o: Self) -> Self;

    spec fn spec_times(self, o: Self) -> Self;

    spec fn spec_over(self, o: Self) -> Self;

    spec fn spec_neg(self) -> Self;

    spec fn spec_is_zero(self) -> bool;

    spec fn spec_is_negative(self) -> bool;

    /// Additive identity.
    fn zero() -> (r: Self)
        ensures
            r == Self::spec_zero(),
    ;

    /// Multiplicative identity.
    fn one() -> (r: Self)
        ensures
            r == Self::spec_one(),
    ;

    /// The number `n`.
    fn from_u64(n: u64) -> (r: Self)
        ensures
            r == Self::spec_from_u64(n),
    ;

    /// Sum.
    fn plus(&self, o: &Self) -> (r: Self)
        ensures
            r == self.spec_plus(*o),
    ;

    /// Difference.
    fn minus(&self, o: &Self) -> (r: Self)
        ensures
            r == self.spec_minus(*o),
    ;

    /// Product.
    fn times(&self, o: &Self) -> (r: Self)
        ensures
            r == self.spec_times(*o),
    ;

    /// Quotient.
    fn over(&self, o: &Self) -> (r: Self)
        ensures
            r == self.spec_over(*o),
    ;

    /// Additive inverse.
    fn negated(&self) -> (r: Self)
        ensures
            r == self.spec_neg(),
    ;

    /// Whether the number is zero.
    fn is_zero(&self) -> (r: bool)
        ensures
            r == self.spec_is_zero(),
    ;

    /// Whether the number is below zero.
    fn is_negative(&self) -> (r: bool)
        ensures
            r == self.spec_is_negative(),
    ;
}

/// Left-to-right sum of `v`, starting from zero.
pub open spec fn seq_sum<T: Scalar>(v: Seq<T>) -> T
    decreases v.len(),
{
    if v.len() == 0 {
        T::spec_zero()
    } else {
        seq_sum(v.drop_last()).spec_plus(v.last())
    }
}

proof fn lemma_seq_sum_step<T: Scalar>(v: Seq<T>, j: int)
    requires
        0 <= j < v.len(),
    ensures
        seq_sum(v.subrange(0, j + 1)) == seq_sum(v.subrange(0, j)).spec_plus(v[j]),
{
    assert(v.subrange(0, j + 1).drop_last() =~= v.subrange(0, j));
}

/// `x`, or one where `x` is zero: the divisor that turns 0/0 into 0.
pub open spec fn safe_denom<T: Scalar>(x: T) -> T {
    if x.spec_is_zero() {
        T::spec_one()
    } else {
        x
    }
}

/// The entries of `v` at the states of `set`.
pub open spec fn pick<T>(v: Seq<T>, set: Seq<usize>) -> Seq<T> {
    Seq::new(set.len(), |j: int| v[set[j] as int])
}

/// Entrywise product of `u` and `v` at the states of `set`.
pub open spec fn pick_products<T: Scalar>(u: Seq<T>, v: Seq<T>, set: Seq<usize>) -> Seq<T> {
    Seq::new(set.len(), |j: int| u[set[j] as int].spec_times(v[set[j] as int]))
}

/// Reach of each information set: the sum of `probs` over its states.
pub open spec fn spec_infoset_probabilities<T: Scalar>(sets: Seq<Seq<usize>>, probs: Seq<T>) -> Seq<T> {
    Seq::new(sets.len(), |i: int| seq_sum(pick(probs, sets[i])))
}

/// Value of each information set: the reach-weighted sum of `evs` over its
/// states, over its reach (over one where the reach is zero).
pub open spec fn spec_infoset_evs<T: Scalar>(sets: Seq<Seq<usize>>, evs: Seq<T>, probs: Seq<T>) -> Seq<T> {
    Seq::new(
        sets.len(),
        |i: int|
            seq_sum(pick_products(evs, probs, sets[i])).spec_over(
                safe_denom(seq_sum(pick(probs, sets[i]))),
            ),
    )
}

/// Denominator of the smoothing term that regret matching adds to every
/// positive-part regret: the term is `1 / SMOOTHING_DENOMINATOR`.
pub const SMOOTHING_DENOMINATOR: u64 = 100_000_000;

/// `m` has `rows` rows of `cols` entries each.
pub open spec fn is_matrix<T>(m: Seq<Vec<T>>, rows: nat, cols: nat) -> bool {
    &&& m.len() == rows
    &&& forall|a: int| 0 <= a < rows ==> (#[trigger] m[a])@.len() == cols
}

/// The regret with a negative value replaced by zero.
pub open spec fn positive_part<T: Scalar>(x: T) -> T {
    if x.spec_is_negative() {
        T::spec_zero()
    } else {
        x
    }
}

/// The smoothing term `1 / SMOOTHING_DENOMINATOR`.
pub open spec fn smoothing<T: Scalar>() -> T {
    T::spec_one().spec_over(T::spec_from_u64(SMOOTHING_DENOMINATOR))
}

/// Positive parts of column `i` of `regrets`, action by action.
pub open spec fn positive_parts<T: Scalar>(regrets: Seq<Seq<T>>, n_actions: nat, i: int) -> Seq<T> {
    Seq::new(n_actions, |a: int| positive_part(regrets[a][i]))
}

/// Each entry raised by the smoothing term.
pub open spec fn smoothed<T: Scalar>(p: Seq<T>) -> Seq<T> {
    Seq::new(p.len(), |a: int| p[a].spec_plus(smoothing::<T>()))
}

/// Regret matching of column `i`: uniform when its positive parts sum to
/// zero, else each smoothed positive part over the sum of them all.
pub open spec fn matched_column<T: Scalar>(regrets: Seq<Seq<T>>, n_actions: nat, i: int) -> Seq<T> {
    let p = positive_parts(regrets, n_actions, i);
    if seq_sum(p).spec_is_zero() {
        Seq::new(n_actions, |a: int| T::spec_one().spec_over(T::spec_from_u64(n_actions as u64)))
    } else {
        let q = smoothed(p);
        Seq::new(n_actions, |a: int| q[a].spec_over(seq_sum(q)))
    }
}

/// Regret matching of every column, as an actions x information sets matrix.
pub open spec fn spec_regret_match<T: Scalar>(regrets: Seq<Seq<T>>, n_actions: nat, n_infosets: nat) -> Seq<Seq<T>> {
    Seq::new(n_actions, |a: int| Seq::new(n_infosets, |i: int| matched_column(regrets, n_actions, i)[a]))
}

/// The running-mean regret update: `(regrets + current * reach) * t / (t + 1)`
/// entry by entry, `reach` spread across rows.
pub open spec fn spec_next_regrets<T: Scalar>(regrets: Seq<Seq<T>>, current: Seq<Seq<T>>, reach: Seq<T>, t: u64) -> Seq<Seq<T>> {
    Seq::new(
        regrets.len(),
        |a: int|
            Seq::new(
                reach.len(),
                |i: int|
                    regrets[a][i].spec_plus(current[a][i].spec_times(reach[i])).spec_times(
                        T::spec_from_u64(t),
                    ).spec_over(T::spec_from_u64((t + 1) as u64)),
            ),
    )
}

/// The reach-weighted average: `(avg * totals + strategy * reach) /
/// (totals + reach)` entry by entry, vectors spread across rows.
pub open spec fn spec_next_avg<T: Scalar>(avg: Seq<Seq<T>>, totals: Seq<T>, strategy: Seq<Seq<T>>, reach: Seq<T>) -> Seq<Seq<T>> {
    Seq::new(
        avg.len(),
        |a: int|
            Seq::new(
                reach.len(),
                |i: int|
                    avg[a][i].spec_times(totals[i]).spec_plus(strategy[a][i].spec_times(reach[i])).spec_over(
                        totals[i].spec_plus(reach[i]),
                    ),
            ),
    )
}

/// `totals + reach`, entry by entry.
pub open spec fn spec_next_totals<T: Scalar>(totals: Seq<T>, reach: Seq<T>) -> Seq<T> {
    Seq::new(reach.len(), |i: int| totals[i].spec_plus(reach[i]))
}

/// A child's reach: the parent's reach times the child's row of the expanded
/// strategy, state by state.
pub open spec fn spec_child_probabilities<T: Scalar>(probs: Seq<T>, row: Seq<T>) -> Seq<T> {
    Seq::new(probs.len(), |s: int| probs[s].spec_times(row[s]))
}

/// A leaf: a fixed payout for each state.
pub struct TerminalNode<T> {
    pub name: String,
    /// Reach probability of each state (written by the downward pass).
    pub state_probabilities: Vec<T>,
    /// Payout of each state, from the root player's side.
    pub payouts: Vec<T>,
}

/// A node where one player picks among the actions that lead to `children`.
pub struct ActionNode<T> {
    pub name: String,
    /// Reach probability of each state.
    pub state_probabilities: Vec<T>,
    /// Reach of each information set summed over past iterations.
    pub total_probabilities: Vec<T>,
    /// Expected value of each state under the current strategies.
    pub evs: Vec<T>,
    /// The states of each information set.
    pub infosets: Vec<Vec<usize>>,
    /// Current strategy, indexed by action, then information set.
    pub strategy: Vec<Vec<T>>,
    /// Reach-weighted average strategy, indexed like `strategy`.
    pub avg_strategy: Vec<Vec<T>>,
    /// Running mean of reach-weighted regrets, indexed like `strategy`.
    pub regrets: Vec<Vec<T>>,
    /// One subtree per action, in action order.
    pub children: Vec<Node<T>>,
    /// 1 where the root player acts, -1 where the other player does.
    pub sign: i8,
    /// Number of strategy updates applied, plus one.
    pub iter_count: u64,
}

/// A node of the game tree.
pub enum Node<T> {
    Action(ActionNode<T>),
    Terminal(TerminalNode<T>),
}

impl<T> ActionNode<T> {
    pub open spec fn n_states(&self) -> nat {
        self.state_probabilities@.len()
    }

    pub open spec fn n_infosets(&self) -> nat {
        self.infosets@.len()
    }

    pub open spec fn n_actions(&self) -> nat {
        self.children@.len()
    }

    /// The node's own fields fit together (its children aside).
    pub open spec fn local_wf(&self) -> bool {
        &&& self.n_actions() >= 1
        &&& is_partition(view_sets(&self.infosets), self.n_states())
        &&& self.evs@.len() == self.n_states()
        &&& self.total_probabilities@.len() == self.n_infosets()
        &&& is_matrix(self.strategy@, self.n_actions(), self.n_infosets())
        &&& is_matrix(self.avg_strategy@, self.n_actions(), self.n_infosets())
        &&& is_matrix(self.regrets@, self.n_actions(), self.n_infosets())
        &&& (self.sign == 1 || self.sign == -1)
        &&& self.iter_count >= 1
    }

    /// Every child holds a vector of `n_states` probabilities and one of
    /// `n_states` payouts.
    pub open spec fn children_fit(&self) -> bool {
        forall|a: int|
            0 <= a < self.children@.len() ==> (#[trigger] self.children@[a]).n_states()
                == self.n_states() && self.children@[a].payout_len() == self.n_states()
    }
}

impl<T: Scalar> ActionNode<T> {
    /// Row `a`: `spec_infoset_evs` of child `a`'s payouts under its reach.
    pub open spec fn spec_action_evs(&self) -> Seq<Seq<T>> {
        Seq::new(
            self.children@.len(),
            |a: int|
                spec_infoset_evs(
                    view_sets(&self.infosets),
                    self.children@[a].spec_payouts(),
                    self.children@[a].spec_probabilities(),
                ),
        )
    }

    /// One for the root player's nodes, minus one for the other player's.
    pub open spec fn sign_factor(&self) -> T {
        if self.sign == 1 {
            T::spec_one()
        } else {
            T::spec_one().spec_neg()
        }
    }

    /// Entry `(a, i)`: action value minus information-set value, times the
    /// sign factor.
    pub open spec fn spec_current_regret(&self) -> Seq<Seq<T>> {
        let values = self.spec_action_evs();
        let base = spec_infoset_evs(view_sets(&self.infosets), self.evs@, self.state_probabilities@);
        Seq::new(
            self.children@.len(),
            |a: int|
                Seq::new(
                    self.infosets@.len(),
                    |i: int| values[a][i].spec_minus(base[i]).spec_times(self.sign_factor()),
                ),
        )
    }
}

impl<T: Scalar> ActionNode<T> {
    /// What each child contributes to the value of state `s`: its payout
    /// times its reach.
    pub open spec fn ev_terms(&self, s: int) -> Seq<T> {
        Seq::new(
            self.children@.len(),
            |a: int|
                self.children@[a].spec_payouts()[s].spec_times(self.children@[a].spec_probabilities()[s]),
        )
    }

    /// Value of each state: the sum of `ev_terms` over the state's reach,
    /// over one where that reach is zero.
    pub open spec fn spec_backed_up_evs(&self) -> Seq<T> {
        Seq::new(
            self.state_probabilities@.len(),
            |s: int| seq_sum(self.ev_terms(s)).spec_over(safe_denom(self.state_probabilities@[s])),
        )
    }
}

impl<T> Node<T> {
    /// Number of states.
    pub open spec fn n_states(&self) -> nat {
        match self {
            Node::Action(a) => a.state_probabilities@.len(),
            Node::Terminal(t) => t.state_probabilities@.len(),
        }
    }

    /// Length of what `payouts` returns.
    pub open spec fn payout_len(&self) -> nat {
        match self {
            Node::Action(a) => a.evs@.len(),
            Node::Terminal(t) => t.payouts@.len(),
        }
    }

    /// The tree's invariants hold at every node: payouts and evs match the
    /// states, information sets partition the states, matrices are
    /// actions x information sets, signs are +-1, counters are positive, and
    /// children have the states of their parent.
    pub open spec fn wf(&self) -> bool
        decreases self,
    {
        match self {
            Node::Terminal(t) => t.payouts@.len() == t.state_probabilities@.len(),
            Node::Action(a) => {
                &&& a.local_wf()
                &&& forall|i: int|
                    0 <= i < a.children@.len() ==> (#[trigger] a.children@[i]).wf()
                        && a.children@[i].n_states() == a.n_states()
            },
        }
    }
}

/// A copy of `v`.
fn copy_vec<T: Copy>(v: &Vec<T>) -> (r: Vec<T>)
    ensures
        r@ == v@,
{
    let mut r: Vec<T> = Vec::new();
    let mut i: usize = 0;
    while i < v.len()
        invariant
            i <= v@.len(),
            r@ == v@.subrange(0, i as int),
        decreases v@.len() - i,
    {
        r.push(v[i]);
        i = i + 1;
    }
    assert(r@ =~= v@);
    r
}

/// A copy of the matrix `m`.
fn copy_matrix<T: Copy>(m: &Vec<Vec<T>>) -> (r: Vec<Vec<T>>)
    ensures
        view_rows(&r) == view_rows(m),
{
    let mut r: Vec<Vec<T>> = Vec::new();
    let mut i: usize = 0;
    while i < m.len()
        invariant
            i <= m@.len(),
            r@.len() == i,
            forall|j: int| 0 <= j < i ==> (#[trigger] r@[j])@ == m@[j]@,
        decreases m@.len() - i,
    {
        r.push(copy_vec(&m[i]));
        i = i + 1;
    }
    assert(view_rows(&r) =~= view_rows(m));
    r
}

/// The `rows x cols` matrix whose entry `(a, i)` is entry `(i, a)` of `cols_m`.
fn transpose<T: Copy>(cols_m: &Vec<Vec<T>>, rows: usize) -> (r: Vec<Vec<T>>)
    requires
        is_matrix(cols_m@, cols_m@.len(), rows as nat),
    ensures
        is_matrix(r@, rows as nat, cols_m@.len()),
        forall|a: int, i: int|
            0 <= a < rows && 0 <= i < cols_m@.len() ==> #[trigger] r@[a]@[i] == cols_m@[i]@[a],
{
    let mut r: Vec<Vec<T>> = Vec::new();
    let mut a: usize = 0;
    while a < rows
        invariant
            a <= rows,
            is_matrix(cols_m@, cols_m@.len(), rows as nat),
            r@.len() == a,
            forall|b: int| 0 <= b < a ==> (#[trigger] r@[b])@.len() == cols_m@.len(),
            forall|b: int, i: int|
                0 <= b < a && 0 <= i < cols_m@.len() ==> #[trigger] r@[b]@[i] == cols_m@[i]@[b],
        decreases rows - a,
    {
        let mut row: Vec<T> = Vec::new();
        let mut i: usize = 0;
        while i < cols_m.len()
            invariant
                a < rows,
                i <= cols_m@.len(),
                is_matrix(cols_m@, cols_m@.len(), rows as nat),
                row@.len() == i,
                forall|j: int| 0 <= j < i ==> #[trigger] row@[j] == cols_m@[j]@[a as int],
            decreases cols_m@.len() - i,
        {
            assert(cols_m@[i as int]@.len() == rows);
            row.push(cols_m[i][a]);
            i = i + 1;
        }
        r.push(row);
        a = a + 1;
    }
    r
}

impl<T: Scalar> ActionNode<T> {
    /// For each information set, the sum of `state_probabilities` over its
    /// states: the reach of the information set.
    pub fn infoset_probabilities(&self, state_probabilities: &Vec<T>) -> (r: Vec<T>)
        requires
            self.local_wf(),
            state_probabilities@.len() == self.n_states(),
        ensures
            r@ == spec_infoset_probabilities(view_sets(&self.infosets), state_probabilities@),
    {
        let ghost sets = view_sets(&self.infosets);
        let mut r: Vec<T> = Vec::new();
        let mut i: usize = 0;
        while i < self.infosets.len()
            invariant
                i <= self.infosets@.len(),
                r@ == spec_infoset_probabilities(sets, state_probabilities@).subrange(0, i as int),
                sets == view_sets(&self.infosets),
                members_in_range(sets, self.n_states()),
                state_probabilities@.len() == self.n_states(),
            decreases self.infosets@.len() - i,
        {
            let set = &self.infosets[i];
            assert(set@ == sets[i as int]);
            let ghost terms = pick(state_probabilities@, set@);
            let mut sum = T::zero();
            let mut j: usize = 0;
            while j < set.len()
                invariant
                    i < self.infosets@.len(),
                    sets.len() == self.infosets@.len(),
                    j <= set@.len(),
                    set@ == sets[i as int],
                    terms == pick(state_probabilities@, set@),
                    sum == seq_sum(terms.subrange(0, j as int)),
                    members_in_range(sets, self.n_states()),
                    state_probabilities@.len() == self.n_states(),
                decreases set@.len() - j,
            {
                assert(sets[i as int][j as int] < self.n_states());
                proof {
                    lemma_seq_sum_step(terms, j as int);
                }
                sum = sum.plus(&state_probabilities[set[j]]);
                j = j + 1;
            }
            assert(terms.subrange(0, j as int) =~= terms);
            r.push(sum);
            assert(r@ =~= spec_infoset_probabilities(sets, state_probabilities@).subrange(0, i + 1));
            i = i + 1;
        }
        assert(r@ =~= spec_infoset_probabilities(sets, state_probabilities@));
        r
    }

    /// For each information set, the reach-weighted mean of `evs` over its
    /// states; an information set that is never reached gets its weighted
    /// sum over one, that is 0.
    pub fn infoset_evs(&self, evs: &Vec<T>, state_probabilities: &Vec<T>) -> (r: Vec<T>)
        requires
            self.local_wf(),
            evs@.len() == self.n_states(),
            state_probabilities@.len() == self.n_states(),
        ensures
            r@ == spec_infoset_evs(view_sets(&self.infosets), evs@, state_probabilities@),
    {
        let reach = self.infoset_probabilities(state_probabilities);
        let ghost sets = view_sets(&self.infosets);
        let ghost want = spec_infoset_evs(sets, evs@, state_probabilities@);
        let mut r: Vec<T> = Vec::new();
        let mut i: usize = 0;
        while i < self.infosets.len()
            invariant
                i <= self.infosets@.len(),
                r@ == want.subrange(0, i as int),
                want == spec_infoset_evs(sets, evs@, state_probabilities@),
                reach@ == spec_infoset_probabilities(sets, state_probabilities@),
                sets == view_sets(&self.infosets),
                members_in_range(sets, self.n_states()),
                evs@.len() == self.n_states(),
                state_probabilities@.len() == self.n_states(),
            decreases self.infosets@.len() - i,
        {
            let set = &self.infosets[i];
            assert(set@ == sets[i as int]);
            let ghost terms = pick_products(evs@, state_probabilities@, set@);
            let mut sum = T::zero();
            let mut j: usize = 0;
            while j < set.len()
                invariant
                    i < self.infosets@.len(),
                    sets.len() == self.infosets@.len(),
                    j <= set@.len(),
                    set@ == sets[i as int],
                    terms == pick_products(evs@, state_probabilities@, set@),
                    sum == seq_sum(terms.subrange(0, j as int)),
                    members_in_range(sets, self.n_states()),
                    evs@.len() == self.n_states(),
                    state_probabilities@.len() == self.n_states(),
                decreases set@.len() - j,
            {
                assert(sets[i as int][j as int] < self.n_states());
                proof {
                    lemma_seq_sum_step(terms, j as int);
                }
                let m = set[j];
                sum = sum.plus(&evs[m].times(&state_probabilities[m]));
                j = j + 1;
            }
            assert(terms.subrange(0, j as int) =~= terms);
            let denominator = if reach[i].is_zero() {
                T::one()
            } else {
                reach[i]
            };
            r.push(sum.over(&denominator));
            assert(r@ =~= want.subrange(0, i + 1));
            i = i + 1;
        }
        assert(r@ =~= want);
        r
    }
}

impl<T> Node<T> {
    /// Reach probabilities of the node's states.
    pub open spec fn spec_probabilities(&self) -> Seq<T> {
        match self {
            Node::Action(a) => a.state_probabilities@,
            Node::Terminal(t) => t.state_probabilities@,
        }
    }

    /// What the node pays its parent: fixed payouts, or computed evs.
    pub open spec fn spec_payouts(&self) -> Seq<T> {
        match self {
            Node::Action(a) => a.evs@,
            Node::Terminal(t) => t.payouts@,
        }
    }

    fn probabilities_ref(&self) -> (r: &Vec<T>)
        ensures
            r@ == self.spec_probabilities(),
    {
        match self {
            Node::Action(a) => &a.state_probabilities,
            Node::Terminal(t) => &t.state_probabilities,
        }
    }

    fn payouts_ref(&self) -> (r: &Vec<T>)
        ensures
            r@ == self.spec_payouts(),
    {
        match self {
            Node::Action(a) => &a.evs,
            Node::Terminal(t) => &t.payouts,
        }
    }

    /// Name of the node.
    pub fn name(&self) -> (r: String)
        ensures
            r@ == match self {
                Node::Action(a) => a.name@,
                Node::Terminal(t) => t.name@,
            },
    {
        match self {
            Node::Action(a) => a.name.clone(),
            Node::Terminal(t) => t.name.clone(),
        }
    }

    /// Children in action order; `None` for a terminal.
    pub fn children(&self) -> (r: Option<&Vec<Node<T>>>)
        ensures
            match self {
                Node::Action(a) => r == Some(&a.children),
                Node::Terminal(_) => r is None,
            },
    {
        match self {
            Node::Action(a) => Some(&a.children),
            Node::Terminal(_) => None,
        }
    }
}

impl<T: Copy> Node<T> {
    /// Current reach probability of each state.
    pub fn state_probabilities(&self) -> (r: Vec<T>)
        ensures
            r@ == self.spec_probabilities(),
    {
        copy_vec(self.probabilities_ref())
    }

    /// Payouts of a terminal; expected values of a decision node.
    pub fn payouts(&self) -> (r: Vec<T>)
        ensures
            r@ == self.spec_payouts(),
    {
        copy_vec(self.payouts_ref())
    }

    /// Current strategy of a decision node.
    pub fn strategy(&self) -> (r: Option<Vec<Vec<T>>>)
        ensures
            match self {
                Node::Action(a) => r matches Some(m) && view_rows(&m) == view_rows(&a.strategy),
                Node::Terminal(_) => r is None,
            },
    {
        match self {
            Node::Action(a) => Some(copy_matrix(&a.strategy)),
            Node::Terminal(_) => None,
        }
    }

    /// Average strategy of a decision node.
    pub fn avg_strategy(&self) -> (r: Option<Vec<Vec<T>>>)
        ensures
            match self {
                Node::Action(a) => r matches Some(m) && view_rows(&m) == view_rows(&a.avg_strategy),
                Node::Terminal(_) => r is None,
            },
    {
        match self {
            Node::Action(a) => Some(copy_matrix(&a.avg_strategy)),
            Node::Terminal(_) => None,
        }
    }

    /// Overwrites the reach probabilities.
    pub fn set_state_probabilities(&mut self, p: Vec<T>)
        ensures
            final(self).spec_probabilities() == p@,
            match (*old(self), *final(self)) {
                (Node::Action(a), Node::Action(b)) => b == ActionNode { state_probabilities: b.state_probabilities, ..a },
                (Node::Terminal(a), Node::Terminal(b)) => b == TerminalNode { state_probabilities: b.state_probabilities, ..a },
                _ => false,
            },
    {
        match self {
            Node::Action(a) => {
                a.state_probabilities = p;
            },
            Node::Terminal(t) => {
                t.state_probabilities = p;
            },
        }
    }
}

impl<T: Scalar> ActionNode<T> {
    /// The strategy carried over to the state dimension: entry `(a, s)` is
    /// the strategy of action `a` at the information set of state `s`.
    pub fn expand_strategy(&self) -> (r: Vec<Vec<T>>)
        requires
            self.local_wf(),
        ensures
            is_matrix(r@, self.n_actions(), self.n_states()),
            forall|a: int, i: int, j: int|
                0 <= a < self.n_actions() && 0 <= i < self.n_infosets() && 0 <= j
                    < self.infosets@[i]@.len() ==> r@[a]@[#[trigger] self.infosets@[i]@[j] as int]
                    == #[trigger] self.strategy@[a]@[i],
    {
        let ghost sets = view_sets(&self.infosets);
        match infoset_owners(&self.infosets, self.state_probabilities.len()) {
            Some(owners) => {
                let r = spread_columns(&self.strategy, &owners);
                let ghost rows = view_rows(&r);
                assert(r@.len() == rows.len());
                assert forall|a: int, i: int, j: int|
                    0 <= a < self.n_actions() && 0 <= i < self.n_infosets() && 0 <= j
                        < self.infosets@[i]@.len() implies r@[a]@[
                    #[trigger] self.infosets@[i]@[j] as int] == #[trigger] self.strategy@[a]@[i] by {
                    assert(sets[i][j] == self.infosets@[i]@[j]);
                    assert(owners@[sets[i][j] as int] == i);
                    assert(rows[a][sets[i][j] as int] == view_rows(&self.strategy)[a][i]);
                }
                assert forall|a: int| 0 <= a < self.n_actions() implies (#[trigger] r@[a])@.len()
                    == self.n_states() by {
                    assert(rows[a].len() == owners@.len());
                }
                r
            },
            None => {
                proof {
                    assert(false);
                }
                Vec::new()
            },
        }
    }

    /// Expected value of each action at each information set: row `a` is
    /// `infoset_evs` of child `a`'s payouts under child `a`'s reach, over
    /// this node's information sets.
    pub fn action_evs(&self) -> (r: Vec<Vec<T>>)
        requires
            self.local_wf(),
            self.children_fit(),
        ensures
            view_rows(&r) == self.spec_action_evs(),
            is_matrix(r@, self.n_actions(), self.n_infosets()),
    {
        let ghost want = self.spec_action_evs();
        let mut r: Vec<Vec<T>> = Vec::new();
        let mut a: usize = 0;
        while a < self.children.len()
            invariant
                a <= self.children@.len(),
                self.local_wf(),
                self.children_fit(),
                want == self.spec_action_evs(),
                r@.len() == a,
                forall|b: int| 0 <= b < a ==> (#[trigger] r@[b])@ == want[b],
            decreases self.children@.len() - a,
        {
            let child = &self.children[a];
            assert(child.n_states() == self.n_states() && child.payout_len() == self.n_states());
            r.push(self.infoset_evs(child.payouts_ref(), child.probabilities_ref()));
            a = a + 1;
        }
        assert(view_rows(&r) =~= want);
        r
    }

    /// This iteration's regret of each action at each information set, from
    /// the acting player's side: action value minus information-set value,
    /// times `sign`.
    pub fn current_regret(&self) -> (r: Vec<Vec<T>>)
        requires
            self.local_wf(),
            self.children_fit(),
        ensures
            view_rows(&r) == self.spec_current_regret(),
            is_matrix(r@, self.n_actions(), self.n_infosets()),
    {
        let action_values = self.action_evs();
        let base = self.infoset_evs(&self.evs, &self.state_probabilities);
        let factor = if self.sign == 1 {
            T::one()
        } else {
            T::one().negated()
        };
        let ghost want = self.spec_current_regret();
        let mut r: Vec<Vec<T>> = Vec::new();
        let mut a: usize = 0;
        while a < action_values.len()
            invariant
                a <= action_values@.len(),
                is_matrix(action_values@, self.n_actions(), self.n_infosets()),
                view_rows(&action_values) == self.spec_action_evs(),
                base@ == spec_infoset_evs(view_sets(&self.infosets), self.evs@, self.state_probabilities@),
                factor == self.sign_factor(),
                want == self.spec_current_regret(),
                base@.len() == self.n_infosets(),
                r@.len() == a,
                forall|b: int| 0 <= b < a ==> (#[trigger] r@[b])@ == want[b],
            decreases action_values@.len() - a,
        {
            let values = &action_values[a];
            assert(values@ == view_rows(&action_values)[a as int]);
            assert(values@.len() == self.n_infosets());
            let mut row: Vec<T> = Vec::new();
            let mut i: usize = 0;
            while i < base.len()
                invariant
                    i <= base@.len(),
                    values@.len() == base@.len(),
                    a < self.n_actions(),
                    values@ == self.spec_action_evs()[a as int],
                    base@ == spec_infoset_evs(view_sets(&self.infosets), self.evs@, self.state_probabilities@),
                    factor == self.sign_factor(),
                    want == self.spec_current_regret(),
                    row@ == want[a as int].subrange(0, i as int),
                decreases base@.len() - i,
            {
                row.push(values[i].minus(&base[i]).times(&factor));
                assert(row@ =~= want[a as int].subrange(0, i + 1));
                i = i + 1;
            }
            assert(row@ =~= want[a as int]);
            r.push(row);
            a = a + 1;
        }
        assert(view_rows(&r) =~= want);
        r
    }

    /// Regret matching: each column becomes proportional to the positive
    /// parts of its regrets, each raised by `1 / SMOOTHING_DENOMINATOR`; a
    /// column with no positive regret becomes uniform.
    pub fn regret_match(&self) -> (r: Vec<Vec<T>>)
        requires
            self.local_wf(),
        ensures
            view_rows(&r) == spec_regret_match(view_rows(&self.regrets), self.n_actions(), self.n_infosets()),
            is_matrix(r@, self.n_actions(), self.n_infosets()),
    {
        let ghost regrets = view_rows(&self.regrets);
        let n_actions = self.children.len();
        let epsilon = T::one().over(&T::from_u64(SMOOTHING_DENOMINATOR));
        let uniform = T::one().over(&T::from_u64(n_actions as u64));
        let mut columns: Vec<Vec<T>> = Vec::new();
        let mut i: usize = 0;
        while i < self.infosets.len()
            invariant
                self.local_wf(),
                regrets == view_rows(&self.regrets),
                n_actions == self.n_actions(),
                epsilon == smoothing::<T>(),
                uniform == T::spec_one().spec_over(T::spec_from_u64(n_actions as u64)),
                i <= self.n_infosets(),
                columns@.len() == i,
                forall|c: int| 0 <= c < i ==> (#[trigger] columns@[c])@ == matched_column(regrets, n_actions as nat, c),
            decreases self.n_infosets() - i,
        {
            let ghost parts = positive_parts(regrets, n_actions as nat, i as int);
            let mut positive: Vec<T> = Vec::new();
            let mut sum = T::zero();
            let mut a: usize = 0;
            while a < n_actions
                invariant
                    self.local_wf(),
                    regrets == view_rows(&self.regrets),
                    n_actions == self.n_actions(),
                    parts == positive_parts(regrets, n_actions as nat, i as int),
                    i < self.n_infosets(),
                    a <= n_actions,
                    positive@ == parts.subrange(0, a as int),
                    sum == seq_sum(parts.subrange(0, a as int)),
                decreases n_actions - a,
            {
                assert(self.regrets@[a as int]@.len() == self.n_infosets());
                assert(regrets[a as int] == self.regrets@[a as int]@);
                let regret = self.regrets[a][i];
                let part = if regret.is_negative() {
                    T::zero()
                } else {
                    regret
                };
                proof {
                    lemma_seq_sum_step(parts, a as int);
                }
                sum = sum.plus(&part);
                positive.push(part);
                assert(positive@ =~= parts.subrange(0, a + 1));
                a = a + 1;
            }
            assert(parts.subrange(0, a as int) =~= parts);
            let ghost want = matched_column(regrets, n_actions as nat, i as int);
            let mut column: Vec<T> = Vec::new();
            if sum.is_zero() {
                let mut b: usize = 0;
                while b < n_actions
                    invariant
                        b <= n_actions,
                        sum.spec_is_zero(),
                        sum == seq_sum(parts),
                        parts == positive_parts(regrets, n_actions as nat, i as int),
                        want == matched_column(regrets, n_actions as nat, i as int),
                        uniform == T::spec_one().spec_over(T::spec_from_u64(n_actions as u64)),
                        column@ == want.subrange(0, b as int),
                    decreases n_actions - b,
                {
                    column.push(uniform);
                    assert(column@ =~= want.subrange(0, b + 1));
                    b = b + 1;
                }
                assert(column@ =~= want);
            } else {
                let ghost q = smoothed(parts);
                let mut smoothed_sum = T::zero();
                let mut b: usize = 0;
                while b < n_actions
                    invariant
                        b <= n_actions,
                        positive@ == parts,
                        parts.len() == n_actions,
                        epsilon == smoothing::<T>(),
                        q == smoothed(parts),
                        smoothed_sum == seq_sum(q.subrange(0, b as int)),
                    decreases n_actions - b,
                {
                    proof {
                        lemma_seq_sum_step(q, b as int);
                    }
                    smoothed_sum = smoothed_sum.plus(&positive[b].plus(&epsilon));
                    b = b + 1;
                }
                assert(q.subrange(0, b as int) =~= q);
                let mut b: usize = 0;
                while b < n_actions
                    invariant
                        b <= n_actions,
                        positive@ == parts,
                        parts.len() == n_actions,
                        !sum.spec_is_zero(),
                        sum == seq_sum(parts),
                        parts == positive_parts(regrets, n_actions as nat, i as int),
                        epsilon == smoothing::<T>(),
                        q == smoothed(parts),
                        smoothed_sum == seq_sum(q),
                        want == matched_column(regrets, n_actions as nat, i as int),
                        column@ == want.subrange(0, b as int),
                    decreases n_actions - b,
                {
                    column.push(positive[b].plus(&epsilon).over(&smoothed_sum));
                    assert(column@ =~= want.subrange(0, b + 1));
                    b = b + 1;
                }
                assert(column@ =~= want);
            }
            columns.push(column);
            i = i + 1;
        }
        let r = transpose(&columns, n_actions);
        let ghost want = spec_regret_match(regrets, self.n_actions(), self.n_infosets());
        assert forall|a: int| 0 <= a < n_actions implies #[trigger] view_rows(&r)[a] =~= want[a] by {
            assert forall|i: int| 0 <= i < self.n_infosets() implies view_rows(&r)[a][i] == want[a][i] by {
                assert(r@[a]@[i] == columns@[i]@[a]);
                assert(columns@[i]@ == matched_column(regrets, n_actions as nat, i));
            }
        }
        assert(view_rows(&r) =~= spec_regret_match(regrets, self.n_actions(), self.n_infosets()));
        r
    }
}


/// `after` differs from `before` only in probabilities, expected values,
/// strategies, regrets and reach totals, with every decision node's counter
/// raised by `bump`: names, information sets, signs, payouts and the shape
/// of the tree stay.
pub open spec fn same_frame<T>(before: Node<T>, after: Node<T>, bump: int) -> bool
    decreases before,
{
    match before {
        Node::Terminal(a) => match after {
            Node::Terminal(b) => a.name@ == b.name@ && a.payouts@ == b.payouts@,
            Node::Action(_) => false,
        },
        Node::Action(a) => match after {
            Node::Action(b) => {
                &&& a.name@ == b.name@
                &&& a.infosets@ == b.infosets@
                &&& a.sign == b.sign
                &&& b.iter_count == a.iter_count + bump
                &&& a.children@.len() == b.children@.len()
                &&& forall|i: int|
                    0 <= i < a.children@.len() ==> same_frame(
                        #[trigger] a.children@[i],
                        b.children@[i],
                        bump,
                    )
            },
            Node::Terminal(_) => false,
        },
    }
}

/// Every decision node's counter is at most `b`.
pub open spec fn iters_at_most<T>(n: Node<T>, b: int) -> bool
    decreases n,
{
    match n {
        Node::Terminal(_) => true,
        Node::Action(a) => a.iter_count <= b && forall|i: int|
            0 <= i < a.children@.len() ==> iters_at_most(#[trigger] a.children@[i], b),
    }
}

/// `child`'s reach is `parent`'s reach times the strategy of action `k`:
/// at state `s` of information set `i`, `reach[s] * strategy[k][i]`.
pub open spec fn reach_from<T: Scalar>(parent: ActionNode<T>, child: Node<T>, k: int) -> bool {
    &&& child.spec_probabilities().len() == parent.n_states()
    &&& forall|i: int, j: int|
        0 <= i < parent.infosets@.len() && 0 <= j < parent.infosets@[i]@.len() ==> #[trigger] child.spec_probabilities()[parent.infosets@[i]@[j] as int]
            == parent.state_probabilities@[parent.infosets@[i]@[j] as int].spec_times(parent.strategy@[k]@[i])
}

/// The downward pass from `before` gives `after`: at each decision node the
/// reach totals are set to the information-set reach if they summed to zero,
/// and each child's reach is the node's reach times the strategy of its
/// action; nothing else changes (the top node's reach is set by its caller).
pub open spec fn prob_step<T: Scalar>(before: Node<T>, after: Node<T>) -> bool
    decreases before,
{
    match before {
        Node::Terminal(a) => match after {
            Node::Terminal(b) => b == TerminalNode { state_probabilities: b.state_probabilities, ..a },
            Node::Action(_) => false,
        },
        Node::Action(a) => match after {
            Node::Action(b) => {
                &&& b == ActionNode {
                    state_probabilities: b.state_probabilities,
                    total_probabilities: b.total_probabilities,
                    children: b.children,
                    ..a
                }
                &&& b.total_probabilities@ == if seq_sum(a.total_probabilities@).spec_is_zero() {
                    spec_infoset_probabilities(view_sets(&a.infosets), b.state_probabilities@)
                } else {
                    a.total_probabilities@
                }
                &&& a.children@.len() == b.children@.len()
                &&& forall|k: int|
                    0 <= k < a.children@.len() ==> prob_step(#[trigger] a.children@[k], b.children@[k])
                        && reach_from(b, b.children@[k], k)
            },
            Node::Terminal(_) => false,
        },
    }
}

/// The upward pass from `before` gives `after`: children first, then each
/// decision node's `evs` become `spec_backed_up_evs` of its updated
/// children; nothing else changes.
pub open spec fn ev_step<T: Scalar>(before: Node<T>, after: Node<T>) -> bool
    decreases before,
{
    match before {
        Node::Terminal(a) => after == before,
        Node::Action(a) => match after {
            Node::Action(b) => {
                &&& b == ActionNode { evs: b.evs, children: b.children, ..a }
                &&& b.evs@ == b.spec_backed_up_evs()
                &&& a.children@.len() == b.children@.len()
                &&& forall|k: int|
                    0 <= k < a.children@.len() ==> ev_step(#[trigger] a.children@[k], b.children@[k])
            },
            Node::Terminal(_) => false,
        },
    }
}

/// The strategy-update pass from `before` gives `after`: at each decision
/// node, with `reach` its information-set reach, the regrets take the
/// running-mean update with this iteration's regret, the strategy is regret
/// matching of the new regrets, the average strategy takes the
/// reach-weighted update, the totals add the reach, and the counter goes up
/// by one; nothing else changes.
pub open spec fn strategy_step<T: Scalar>(before: Node<T>, after: Node<T>) -> bool
    decreases before,
{
    match before {
        Node::Terminal(a) => after == before,
        Node::Action(a) => match after {
            Node::Action(b) => {
                let reach = spec_infoset_probabilities(view_sets(&a.infosets), a.state_probabilities@);
                let regrets = spec_next_regrets(view_rows(&a.regrets), a.spec_current_regret(), reach, a.iter_count);
                let strategy = spec_regret_match(regrets, a.n_actions(), a.n_infosets());
                &&& b == ActionNode {
                    regrets: b.regrets,
                    strategy: b.strategy,
                    avg_strategy: b.avg_strategy,
                    total_probabilities: b.total_probabilities,
                    iter_count: b.iter_count,
                    children: b.children,
                    ..a
                }
                &&& view_rows(&b.regrets) == regrets
                &&& view_rows(&b.strategy) == strategy
                &&& view_rows(&b.avg_strategy) == spec_next_avg(view_rows(&a.avg_strategy), a.total_probabilities@, strategy, reach)
                &&& b.total_probabilities@ == spec_next_totals(a.total_probabilities@, reach)
                &&& b.iter_count == a.iter_count + 1
                &&& a.children@.len() == b.children@.len()
                &&& forall|k: int|
                    0 <= k < a.children@.len() ==> strategy_step(#[trigger] a.children@[k], b.children@[k])
            },
            Node::Terminal(_) => false,
        },
    }
}

/// One full iteration takes `x` to `y`: downward pass with the root's reach
/// kept, then upward pass, then strategy update.
pub open spec fn one_iteration<T: Scalar>(x: Node<T>, y: Node<T>) -> bool {
    exists|p: Node<T>, e: Node<T>|
        #[trigger] prob_step(x, p) && p.spec_probabilities() == x.spec_probabilities() && #[trigger] ev_step(p, e) && strategy_step(e, y)
}

/// The states `states[0]`, ..., `states[n]` follow one another by full
/// iterations.
pub open spec fn is_run<T: Scalar>(states: Seq<Node<T>>, n: nat) -> bool {
    &&& states.len() == n + 1
    &&& forall|i: int| 0 <= i < n ==> one_iteration(#[trigger] states[i], states[i + 1])
}

/// `n` full iterations take `x` to `y`.
pub open spec fn iterated<T: Scalar>(x: Node<T>, y: Node<T>, n: nat) -> bool {
    exists|states: Seq<Node<T>>| #[trigger] is_run(states, n) && states[0] == x && states[n as int] == y
}

/// Frames compose: their counter raises add up.
pub proof fn lemma_frame_trans<T>(a: Node<T>, b: Node<T>, c: Node<T>, x: int, y: int)
    requires
        same_frame(a, b, x),
        same_frame(b, c, y),
    ensures
        same_frame(a, c, x + y),
    decreases a,
{
    broadcast use vstd::std_specs::vec::axiom_vec_index_decreases;

    if let Node::Action(na) = a {
        if let Node::Action(nb) = b {
            if let Node::Action(nc) = c {
                assert forall|i: int| 0 <= i < na.children@.len() implies same_frame(
                    #[trigger] na.children@[i],
                    nc.children@[i],
                    x + y,
                ) by {
                    assert(decreases_to!(a => na.children@[i]));
                    lemma_frame_trans(na.children@[i], nb.children@[i], nc.children@[i], x, y);
                }
            }
        }
    }
}

/// A frame that raises counters by `k` keeps them within a bound `k` higher.
pub proof fn lemma_frame_iters<T>(a: Node<T>, b: Node<T>, k: int, bound: int, c: int)
    requires
        same_frame(a, b, k),
        iters_at_most(a, bound),
        bound + k <= c,
    ensures
        iters_at_most(b, c),
    decreases a,
{
    broadcast use vstd::std_specs::vec::axiom_vec_index_decreases;

    if let Node::Action(na) = a {
        if let Node::Action(nb) = b {
            assert forall|i: int| 0 <= i < nb.children@.len() implies iters_at_most(
                #[trigger] nb.children@[i],
                c,
            ) by {
                assert(decreases_to!(a => na.children@[i]));
                assert(same_frame(na.children@[i], nb.children@[i], k));
                lemma_frame_iters(na.children@[i], nb.children@[i], k, bound, c);
            }
        }
    }
}

/// A node always frames itself.
pub proof fn lemma_frame_refl<T>(a: Node<T>)
    ensures
        same_frame(a, a, 0),
    decreases a,
{
    broadcast use vstd::std_specs::vec::axiom_vec_index_decreases;

    if let Node::Action(na) = a {
        assert forall|i: int| 0 <= i < na.children@.len() implies same_frame(
            #[trigger] na.children@[i],
            na.children@[i],
            0,
        ) by {
            assert(decreases_to!(a => na.children@[i]));
            lemma_frame_refl(na.children@[i]);
        }
    }
}

impl<T: Scalar> ActionNode<T> {
    /// Sum of the entries of `v`.
    fn sum_of(v: &Vec<T>) -> (r: T)
        ensures
            r == seq_sum(v@),
    {
        let mut sum = T::zero();
        let mut i: usize = 0;
        while i < v.len()
            invariant
                i <= v@.len(),
                sum == seq_sum(v@.subrange(0, i as int)),
            decreases v@.len() - i,
        {
            proof {
                lemma_seq_sum_step(v@, i as int);
            }
            sum = sum.plus(&v[i]);
            i = i + 1;
        }
        assert(v@.subrange(0, i as int) =~= v@);
        sum
    }

    /// `regrets + current * reach`, scaled by `iter_count / (iter_count + 1)`.
    fn next_regrets(&self, current: &Vec<Vec<T>>, reach: &Vec<T>) -> (r: Vec<Vec<T>>)
        requires
            self.local_wf(),
            self.iter_count < u64::MAX,
            is_matrix(current@, self.n_actions(), self.n_infosets()),
            reach@.len() == self.n_infosets(),
        ensures
            is_matrix(r@, self.n_actions(), self.n_infosets()),
            view_rows(&r) == spec_next_regrets(view_rows(&self.regrets), view_rows(current), reach@, self.iter_count),
    {
        let ghost want = spec_next_regrets(view_rows(&self.regrets), view_rows(current), reach@, self.iter_count);
        let t = T::from_u64(self.iter_count);
        let t_next = T::from_u64(self.iter_count + 1);
        let mut r: Vec<Vec<T>> = Vec::new();
        let mut a: usize = 0;
        while a < self.regrets.len()
            invariant
                self.local_wf(),
                self.iter_count < u64::MAX,
                is_matrix(current@, self.n_actions(), self.n_infosets()),
                reach@.len() == self.n_infosets(),
                want == spec_next_regrets(view_rows(&self.regrets), view_rows(current), reach@, self.iter_count),
                t == T::spec_from_u64(self.iter_count),
                t_next == T::spec_from_u64((self.iter_count + 1) as u64),
                a <= self.n_actions(),
                r@.len() == a,
                forall|b: int| 0 <= b < a ==> (#[trigger] r@[b])@ == want[b],
            decreases self.n_actions() - a,
        {
            let old_row = &self.regrets[a];
            let cur_row = &current[a];
            assert(old_row@.len() == self.n_infosets() && cur_row@.len() == self.n_infosets());
            assert(old_row@ == view_rows(&self.regrets)[a as int]);
            assert(cur_row@ == view_rows(current)[a as int]);
            let mut row: Vec<T> = Vec::new();
            let mut i: usize = 0;
            while i < reach.len()
                invariant
                    i <= reach@.len(),
                    a < self.n_actions(),
                    self.local_wf(),
                    is_matrix(current@, self.n_actions(), self.n_infosets()),
                    old_row@.len() == reach@.len(),
                    cur_row@.len() == reach@.len(),
                    old_row@ == view_rows(&self.regrets)[a as int],
                    cur_row@ == view_rows(current)[a as int],
                    want == spec_next_regrets(view_rows(&self.regrets), view_rows(current), reach@, self.iter_count),
                    t == T::spec_from_u64(self.iter_count),
                    t_next == T::spec_from_u64((self.iter_count + 1) as u64),
                    row@ == want[a as int].subrange(0, i as int),
                decreases reach@.len() - i,
            {
                row.push(old_row[i].plus(&cur_row[i].times(&reach[i])).times(&t).over(&t_next));
                assert(row@ =~= want[a as int].subrange(0, i + 1));
                i = i + 1;
            }
            assert(row@ =~= want[a as int]);
            r.push(row);
            a = a + 1;
        }
        assert(view_rows(&r) =~= want);
        r
    }

    /// `(avg_strategy * total_probabilities + strategy * reach) /
    /// (total_probabilities + reach)`, column by column.
    fn next_avg_strategy(&self, reach: &Vec<T>) -> (r: Vec<Vec<T>>)
        requires
            self.local_wf(),
            reach@.len() == self.n_infosets(),
        ensures
            is_matrix(r@, self.n_actions(), self.n_infosets()),
            view_rows(&r) == spec_next_avg(view_rows(&self.avg_strategy), self.total_probabilities@, view_rows(&self.strategy), reach@),
    {
        let ghost want = spec_next_avg(view_rows(&self.avg_strategy), self.total_probabilities@, view_rows(&self.strategy), reach@);
        let mut r: Vec<Vec<T>> = Vec::new();
        let mut a: usize = 0;
        while a < self.avg_strategy.len()
            invariant
                self.local_wf(),
                reach@.len() == self.n_infosets(),
                want == spec_next_avg(view_rows(&self.avg_strategy), self.total_probabilities@, view_rows(&self.strategy), reach@),
                a <= self.n_actions(),
                r@.len() == a,
                forall|b: int| 0 <= b < a ==> (#[trigger] r@[b])@ == want[b],
            decreases self.n_actions() - a,
        {
            let avg_row = &self.avg_strategy[a];
            let row_now = &self.strategy[a];
            assert(avg_row@.len() == self.n_infosets() && row_now@.len() == self.n_infosets());
            assert(avg_row@ == view_rows(&self.avg_strategy)[a as int]);
            assert(row_now@ == view_rows(&self.strategy)[a as int]);
            let mut row: Vec<T> = Vec::new();
            let mut i: usize = 0;
            while i < reach.len()
                invariant
                    i <= reach@.len(),
                    a < self.n_actions(),
                    self.local_wf(),
                    avg_row@.len() == reach@.len(),
                    row_now@.len() == reach@.len(),
                    avg_row@ == view_rows(&self.avg_strategy)[a as int],
                    row_now@ == view_rows(&self.strategy)[a as int],
                    self.total_probabilities@.len() == reach@.len(),
                    want == spec_next_avg(view_rows(&self.avg_strategy), self.total_probabilities@, view_rows(&self.strategy), reach@),
                    row@ == want[a as int].subrange(0, i as int),
                decreases reach@.len() - i,
            {
                let weight = &self.total_probabilities[i];
                row.push(
                    avg_row[i].times(weight).plus(&row_now[i].times(&reach[i])).over(
                        &weight.plus(&reach[i]),
                    ),
                );
                assert(row@ =~= want[a as int].subrange(0, i + 1));
                i = i + 1;
            }
            assert(row@ =~= want[a as int]);
            r.push(row);
            a = a + 1;
        }
        assert(view_rows(&r) =~= want);
        r
    }

    /// `total_probabilities + reach`.
    fn next_totals(&self, reach: &Vec<T>) -> (r: Vec<T>)
        requires
            self.local_wf(),
            reach@.len() == self.n_infosets(),
        ensures
            r@ == spec_next_totals(self.total_probabilities@, reach@),
    {
        let mut r: Vec<T> = Vec::new();
        let mut i: usize = 0;
        while i < reach.len()
            invariant
                i <= reach@.len(),
                self.total_probabilities@.len() == reach@.len(),
                r@ == spec_next_totals(self.total_probabilities@, reach@).subrange(0, i as int),
            decreases reach@.len() - i,
        {
            r.push(self.total_probabilities[i].plus(&reach[i]));
            assert(r@ =~= spec_next_totals(self.total_probabilities@, reach@).subrange(0, i + 1));
            i = i + 1;
        }
        assert(r@ =~= spec_next_totals(self.total_probabilities@, reach@));
        r
    }

    /// Expected value of each state: the reach-weighted sum of the
    /// children's payouts over the state's own reach (over 1 where that reach
    /// is 0).
    fn backed_up_evs(&self) -> (r: Vec<T>)
        requires
            self.local_wf(),
            self.children_fit(),
        ensures
            r@ == self.spec_backed_up_evs(),
    {
        let n = self.state_probabilities.len();
        let mut sums: Vec<T> = Vec::new();
        let mut s: usize = 0;
        while s < n
            invariant
                s <= n,
                sums@.len() == s,
                forall|u: int| 0 <= u < s ==> #[trigger] sums@[u] == T::spec_zero(),
            decreases n - s,
        {
            sums.push(T::zero());
            s = s + 1;
        }
        let mut a: usize = 0;
        while a < self.children.len()
            invariant
                self.local_wf(),
                self.children_fit(),
                n == self.n_states(),
                a <= self.n_actions(),
                sums@.len() == n,
                forall|u: int| 0 <= u < n ==> #[trigger] sums@[u] == seq_sum(self.ev_terms(u).subrange(0, a as int)),
            decreases self.n_actions() - a,
        {
            let child = &self.children[a];
            let pay = child.payouts_ref();
            let probs = child.probabilities_ref();
            let mut s: usize = 0;
            while s < n
                invariant
                    s <= n,
                    a < self.n_actions(),
                    n == self.n_states(),
                    sums@.len() == n,
                    pay@ == self.children@[a as int].spec_payouts(),
                    probs@ == self.children@[a as int].spec_probabilities(),
                    pay@.len() == n,
                    probs@.len() == n,
                    forall|u: int| 0 <= u < s ==> #[trigger] sums@[u] == seq_sum(self.ev_terms(u).subrange(0, a + 1)),
                    forall|u: int| s <= u < n ==> #[trigger] sums@[u] == seq_sum(self.ev_terms(u).subrange(0, a as int)),
                decreases n - s,
            {
                proof {
                    lemma_seq_sum_step(self.ev_terms(s as int), a as int);
                }
                let v = sums[s].plus(&pay[s].times(&probs[s]));
                sums.set(s, v);
                s = s + 1;
            }
            a = a + 1;
        }
        let ghost want = self.spec_backed_up_evs();
        let mut r: Vec<T> = Vec::new();
        let mut s: usize = 0;
        while s < n
            invariant
                s <= n,
                n == self.n_states(),
                a == self.n_actions(),
                sums@.len() == n,
                forall|u: int| 0 <= u < n ==> #[trigger] sums@[u] == seq_sum(self.ev_terms(u).subrange(0, a as int)),
                want == self.spec_backed_up_evs(),
                r@ == want.subrange(0, s as int),
            decreases n - s,
        {
            assert(self.ev_terms(s as int).subrange(0, a as int) =~= self.ev_terms(s as int));
            let reach = self.state_probabilities[s];
            let denominator = if reach.is_zero() {
                T::one()
            } else {
                reach
            };
            r.push(sums[s].over(&denominator));
            assert(r@ =~= want.subrange(0, s + 1));
            s = s + 1;
        }
        assert(r@ =~= want);
        r
    }
}

proof fn lemma_wf_payouts<T>(n: Node<T>)
    requires
        n.wf(),
    ensures
        n.payout_len() == n.n_states(),
{
}

proof fn lemma_children_fit<T>(a: ActionNode<T>)
    requires
        Node::Action(a).wf(),
    ensures
        a.children_fit(),
        forall|i: int| 0 <= i < a.children@.len() ==> (#[trigger] a.children@[i]).wf(),
{
    assert forall|i: int| 0 <= i < a.children@.len() implies (#[trigger] a.children@[i]).n_states()
        == a.n_states() && a.children@[i].payout_len() == a.n_states() by {
        lemma_wf_payouts(a.children@[i]);
    }
}


impl<T: Scalar> Node<T> {
    /// Takes `p` as this node's reach and propagates reach down the subtree.
    fn descend(&mut self, p: Vec<T>)
        requires
            old(self).wf(),
            p@.len() == old(self).n_states(),
        ensures
            final(self).wf(),
            final(self).n_states() == old(self).n_states(),
            final(self).spec_probabilities() == p@,
            same_frame(*old(self), *final(self), 0),
            prob_step(*old(self), *final(self)),
        decreases *old(self),
    {
        let ghost me = *self;
        match self {
            Node::Terminal(t) => {
                t.state_probabilities = p;
            },
            Node::Action(a) => {
                proof {
                    lemma_children_fit(*a);
                }
                let ghost tp0 = a.total_probabilities@;
                a.state_probabilities = p;
                if ActionNode::sum_of(&a.total_probabilities).is_zero() {
                    a.total_probabilities = a.infoset_probabilities(&a.state_probabilities);
                }
                assert(a.total_probabilities@ == if seq_sum(tp0).spec_is_zero() {
                    spec_infoset_probabilities(view_sets(&a.infosets), a.state_probabilities@)
                } else {
                    tp0
                });
                let expanded = a.expand_strategy();
                let ghost orig_vec = a.children;
                let ghost orig = orig_vec@;
                let mut kids: Vec<Node<T>> = Vec::new();
                std::mem::swap(&mut kids, &mut a.children);
                let n = kids.len();
                let mut out: Vec<Node<T>> = Vec::new();
                let mut k: usize = 0;
                while k < n
                    invariant
                        k <= n,
                        n == orig.len(),
                        orig == orig_vec@,
                        me == *old(self),
                        me matches Node::Action(a0) && a0.children == orig_vec,
                        kids@ == orig.subrange(k as int, n as int),
                        me matches Node::Action(a0) && *a == (ActionNode {
                            state_probabilities: a.state_probabilities,
                            total_probabilities: a.total_probabilities,
                            children: a.children,
                            ..a0
                        }),
                        tp0 == (match me { Node::Action(a0) => a0.total_probabilities@, _ => tp0 }),
                        a.total_probabilities@ == if seq_sum(tp0).spec_is_zero() {
                            spec_infoset_probabilities(view_sets(&a.infosets), a.state_probabilities@)
                        } else {
                            tp0
                        },
                        a.local_wf_except_children(n as nat),
                        is_matrix(expanded@, n as nat, a.n_states()),
                        forall|kk: int, i: int, j: int|
                            0 <= kk < n && 0 <= i < a.infosets@.len() && 0 <= j < a.infosets@[i]@.len()
                                ==> expanded@[kk]@[#[trigger] a.infosets@[i]@[j] as int] == #[trigger] a.strategy@[kk]@[i],
                        forall|j: int| 0 <= j < n ==> (#[trigger] orig[j]).wf() && orig[j].n_states() == a.n_states(),
                        out@.len() == k,
                        forall|j: int|
                            0 <= j < k ==> (#[trigger] out@[j]).wf() && out@[j].n_states()
                                == a.n_states() && same_frame(orig[j], out@[j], 0) && prob_step(orig[j], out@[j])
                                && reach_from(*a, out@[j], j),
                    decreases n - k,
                {
                    let mut c = kids.remove(0);
                    assert(c == orig[k as int]);
                    let v = a.child_probabilities(&expanded, k, n);
                    assert forall|i: int, j: int|
                        0 <= i < a.infosets@.len() && 0 <= j < a.infosets@[i]@.len() implies #[trigger] v@[a.infosets@[i]@[j] as int]
                            == a.state_probabilities@[a.infosets@[i]@[j] as int].spec_times(a.strategy@[k as int]@[i]) by {
                        assert(expanded@[k as int]@[a.infosets@[i]@[j] as int] == a.strategy@[k as int]@[i]);
                        assert(view_sets(&a.infosets)[i][j] == a.infosets@[i]@[j]);
                    }
                    proof {
                        broadcast use vstd::std_specs::vec::axiom_vec_index_decreases;

                        assert(decreases_to!(me => orig_vec[k as int]));
                    }
                    c.descend(v);
                    out.push(c);
                    k = k + 1;
                }
                a.children = out;
            },
        }
    }
}

impl<T> ActionNode<T> {
    /// `local_wf` for a node whose children, `n_actions` of them, are
    /// elsewhere for the moment.
    pub open spec fn local_wf_except_children(&self, n_actions: nat) -> bool {
        &&& n_actions >= 1
        &&& is_partition(view_sets(&self.infosets), self.n_states())
        &&& self.evs@.len() == self.n_states()
        &&& self.total_probabilities@.len() == self.n_infosets()
        &&& is_matrix(self.strategy@, n_actions, self.n_infosets())
        &&& is_matrix(self.avg_strategy@, n_actions, self.n_infosets())
        &&& is_matrix(self.regrets@, n_actions, self.n_infosets())
        &&& (self.sign == 1 || self.sign == -1)
        &&& self.iter_count >= 1
    }
}

impl<T: Scalar> ActionNode<T> {
    /// `state_probabilities` times row `a` of `expanded`, state by state.
    fn child_probabilities(&self, expanded: &Vec<Vec<T>>, a: usize, n: usize) -> (r: Vec<T>)
        requires
            is_matrix(expanded@, n as nat, self.n_states()),
            a < n,
        ensures
            r@ == spec_child_probabilities(self.state_probabilities@, expanded@[a as int]@),
    {
        let row = &expanded[a];
        let ghost want = spec_child_probabilities(self.state_probabilities@, row@);
        let mut r: Vec<T> = Vec::new();
        let mut s: usize = 0;
        while s < self.state_probabilities.len()
            invariant
                s <= self.n_states(),
                row@.len() == self.n_states(),
                want == spec_child_probabilities(self.state_probabilities@, row@),
                r@ == want.subrange(0, s as int),
            decreases self.n_states() - s,
        {
            r.push(self.state_probabilities[s].times(&row[s]));
            assert(r@ =~= want.subrange(0, s + 1));
            s = s + 1;
        }
        assert(r@ =~= want);
        r
    }
}


impl<T: Scalar> Node<T> {
    /// Downward pass: propagates this node's reach probabilities to every
    /// node below. A decision node first visited sets its reach totals to
    /// its current information-set reach; each child's reach is the parent's
    /// times the expanded strategy row of its action.
    pub fn update_probabilities(&mut self)
        requires
            old(self).wf(),
        ensures
            final(self).wf(),
            final(self).spec_probabilities() == old(self).spec_probabilities(),
            same_frame(*old(self), *final(self), 0),
            prob_step(*old(self), *final(self)),
    {
        let p = self.state_probabilities();
        self.descend(p);
    }

    /// Upward pass: computes the expected values of every decision node of
    /// the subtree, children first.
    pub fn update_ev(&mut self)
        requires
            old(self).wf(),
        ensures
            final(self).wf(),
            final(self).spec_probabilities() == old(self).spec_probabilities(),
            same_frame(*old(self), *final(self), 0),
            ev_step(*old(self), *final(self)),
        decreases *old(self),
    {
        let ghost me = *self;
        match self {
            Node::Terminal(_) => {},
            Node::Action(a) => {
                proof {
                    lemma_children_fit(*a);
                }
                let ghost orig_vec = a.children;
                let ghost orig = orig_vec@;
                let mut kids: Vec<Node<T>> = Vec::new();
                std::mem::swap(&mut kids, &mut a.children);
                let n = kids.len();
                let mut out: Vec<Node<T>> = Vec::new();
                let mut k: usize = 0;
                while k < n
                    invariant
                        k <= n,
                        n == orig.len(),
                        orig == orig_vec@,
                        me == *old(self),
                        me matches Node::Action(a0) && a0.children == orig_vec && *a == (ActionNode {
                            children: a.children,
                            ..a0
                        }),
                        kids@ == orig.subrange(k as int, n as int),
                        forall|j: int| 0 <= j < n ==> (#[trigger] orig[j]).wf() && orig[j].n_states() == a.n_states(),
                        out@.len() == k,
                        forall|j: int|
                            0 <= j < k ==> (#[trigger] out@[j]).wf() && out@[j].n_states()
                                == a.n_states() && same_frame(orig[j], out@[j], 0) && ev_step(orig[j], out@[j]),
                    decreases n - k,
                {
                    let mut c = kids.remove(0);
                    assert(c == orig[k as int]);
                    proof {
                        broadcast use vstd::std_specs::vec::axiom_vec_index_decreases;

                        assert(decreases_to!(me => orig_vec[k as int]));
                    }
                    c.update_ev();
                    out.push(c);
                    k = k + 1;
                }
                a.children = out;
                proof {
                    assert forall|i: int| 0 <= i < a.children@.len() implies (
                    #[trigger] a.children@[i]).n_states() == a.n_states()
                        && a.children@[i].payout_len() == a.n_states() by {
                        lemma_wf_payouts(a.children@[i]);
                    }
                }
                let ghost pre = *a;
                a.evs = a.backed_up_evs();
                proof {
                    assert forall|u: int| 0 <= u < a.n_states() implies #[trigger] a.ev_terms(u) == pre.ev_terms(u) by {
                        assert(a.ev_terms(u) =~= pre.ev_terms(u));
                    }
                    assert(a.spec_backed_up_evs() =~= pre.spec_backed_up_evs());
                }
            },
        }
    }

    /// Strategy-update pass: at every decision node, accumulates this
    /// iteration's regret as a running mean, applies regret matching,
    /// folds the new strategy into the reach-weighted average, adds the
    /// reach to the totals and raises the counter by one.
    pub fn update_strategy(&mut self)
        requires
            old(self).wf(),
            iters_at_most(*old(self), u64::MAX - 1),
        ensures
            final(self).wf(),
            final(self).spec_probabilities() == old(self).spec_probabilities(),
            same_frame(*old(self), *final(self), 1),
            strategy_step(*old(self), *final(self)),
        decreases *old(self),
    {
        let ghost me = *self;
        match self {
            Node::Terminal(_) => {},
            Node::Action(a) => {
                proof {
                    lemma_children_fit(*a);
                }
                let ghost a_start = *a;
                let reach = a.infoset_probabilities(&a.state_probabilities);
                let current = a.current_regret();
                a.regrets = a.next_regrets(&current, &reach);
                a.strategy = a.regret_match();
                a.avg_strategy = a.next_avg_strategy(&reach);
                a.total_probabilities = a.next_totals(&reach);
                a.iter_count = a.iter_count + 1;
                let ghost orig_vec = a.children;
                let ghost orig = orig_vec@;
                let mut kids: Vec<Node<T>> = Vec::new();
                std::mem::swap(&mut kids, &mut a.children);
                let n = kids.len();
                let mut out: Vec<Node<T>> = Vec::new();
                let mut k: usize = 0;
                while k < n
                    invariant
                        k <= n,
                        n == orig.len(),
                        orig == orig_vec@,
                        me == *old(self),
                        me matches Node::Action(a0) && a0.children == orig_vec && *a == (ActionNode {
                            regrets: a.regrets,
                            strategy: a.strategy,
                            avg_strategy: a.avg_strategy,
                            total_probabilities: a.total_probabilities,
                            iter_count: a.iter_count,
                            children: a.children,
                            ..a0
                        }),
                        me == Node::Action(a_start),
                        ({
                            let reach = spec_infoset_probabilities(view_sets(&a_start.infosets), a_start.state_probabilities@);
                            let regrets = spec_next_regrets(view_rows(&a_start.regrets), a_start.spec_current_regret(), reach, a_start.iter_count);
                            let strategy = spec_regret_match(regrets, a_start.n_actions(), a_start.n_infosets());
                            &&& view_rows(&a.regrets) == regrets
                            &&& view_rows(&a.strategy) == strategy
                            &&& view_rows(&a.avg_strategy) == spec_next_avg(view_rows(&a_start.avg_strategy), a_start.total_probabilities@, strategy, reach)
                            &&& a.total_probabilities@ == spec_next_totals(a_start.total_probabilities@, reach)
                            &&& a.iter_count == a_start.iter_count + 1
                        }),
                        kids@ == orig.subrange(k as int, n as int),
                        forall|j: int|
                            0 <= j < n ==> (#[trigger] orig[j]).wf() && orig[j].n_states()
                                == a.n_states() && iters_at_most(orig[j], u64::MAX - 1),
                        out@.len() == k,
                        forall|j: int|
                            0 <= j < k ==> (#[trigger] out@[j]).wf() && out@[j].n_states()
                                == a.n_states() && same_frame(orig[j], out@[j], 1) && strategy_step(orig[j], out@[j]),
                    decreases n - k,
                {
                    let mut c = kids.remove(0);
                    assert(c == orig[k as int]);
                    proof {
                        broadcast use vstd::std_specs::vec::axiom_vec_index_decreases;

                        assert(decreases_to!(me => orig_vec[k as int]));
                    }
                    c.update_strategy();
                    out.push(c);
                    k = k + 1;
                }
                a.children = out;
            },
        }
    }

    /// Runs `iterations` full iterations: downward pass, upward pass,
    /// strategy update, in that order.
    pub fn run(&mut self, iterations: u64)
        requires
            old(self).wf(),
            iters_at_most(*old(self), u64::MAX - iterations),
        ensures
            final(self).wf(),
            same_frame(*old(self), *final(self), iterations as int),
            iterated(*old(self), *final(self), iterations as nat),
    {
        let ghost start = *self;
        let ghost mut states: Seq<Node<T>> = seq![start];
        proof {
            lemma_frame_refl(start);
        }
        let mut k: u64 = 0;
        while k < iterations
            invariant
                k <= iterations,
                self.wf(),
                iters_at_most(start, u64::MAX - iterations),
                same_frame(start, *self, k as int),
                is_run(states, k as nat),
                states[0] == start,
                states[k as int] == *self,
            decreases iterations - k,
        {
            let ghost s0 = *self;
            self.update_probabilities();
            let ghost s1 = *self;
            self.update_ev();
            let ghost s2 = *self;
            proof {
                lemma_frame_trans(s0, s1, s2, 0, 0);
                lemma_frame_trans(start, s0, s2, k as int, 0);
                lemma_frame_iters(start, s2, k as int, u64::MAX - iterations, u64::MAX - 1);
            }
            self.update_strategy();
            proof {
                lemma_frame_trans(start, s2, *self, k as int, 1);
                assert(prob_step(s0, s1) && ev_step(s1, s2));
                assert(one_iteration(s0, *self));
                assert(one_iteration(s0, *self));
                let next = states.push(*self);
                assert forall|i: int| 0 <= i < k + 1 implies one_iteration(#[trigger] next[i], next[i + 1]) by {
                    if i < k {
                        assert(next[i] == states[i] && next[i + 1] == states[i + 1]);
                    }
                }
                states = next;
            }
            k = k + 1;
        }
        assert(is_run(states, iterations as nat));
    }
}


/// With each state alone in its information set, state `s` in set `s`,
/// expanding a strategy changes nothing: vectorised CFR is then ordinary
/// per-state CFR.
pub proof fn lemma_singleton_expansion<T>(owners: Seq<usize>, strategy: Seq<Seq<T>>, expanded: Seq<Seq<T>>)
    requires
        forall|s: int| 0 <= s < owners.len() ==> #[trigger] owners[s] == s,
        forall|a: int| 0 <= a < strategy.len() ==> (#[trigger] strategy[a]).len() == owners.len(),
        is_expansion(strategy, owners, expanded),
    ensures
        expanded == strategy,
{
    assert forall|a: int| 0 <= a < strategy.len() implies #[trigger] expanded[a] == strategy[a] by {
        assert(expanded[a] =~= strategy[a]);
    }
    assert(expanded =~= strategy);
}

/// The owner map of singleton information sets `[[0], [1], ...]` sends
/// each state to itself.
pub proof fn lemma_singleton_owners(infosets: Seq<Seq<usize>>, owners: Seq<usize>)
    requires
        forall|i: int| 0 <= i < infosets.len() ==> #[trigger] infosets[i] == seq![i as usize],
        owners.len() == infosets.len(),
        is_owner_map(infosets, owners),
    ensures
        forall|s: int| 0 <= s < owners.len() ==> #[trigger] owners[s] == s,
{
    assert forall|s: int| 0 <= s < owners.len() implies #[trigger] owners[s] == s by {
        assert(infosets[s][0] == s);
    }
}


/// Regret matching gives a uniform column where no regret is positive, that
/// is where the positive parts of the column sum to zero: every action then
/// gets one over the number of actions, with no smoothing.
pub proof fn lemma_uniform_without_positive_regret<T: Scalar>(
    regrets: Seq<Seq<T>>,
    n_actions: nat,
    n_infosets: nat,
    i: int,
)
    requires
        0 <= i < n_infosets,
        seq_sum(positive_parts(regrets, n_actions, i)).spec_is_zero(),
    ensures
        forall|a: int|
            0 <= a < n_actions ==> #[trigger] spec_regret_match(regrets, n_actions, n_infosets)[a][i]
                == T::spec_one().spec_over(T::spec_from_u64(n_actions as u64)),
{
}

/// With each state alone in its information set, state `s` in set `s`, the
/// reach and the value of information set `s` are those of state `s` alone:
/// every quantity of the strategy update is then per state, as in ordinary
/// CFR.
pub proof fn lemma_singleton_aggregation<T: Scalar>(sets: Seq<Seq<usize>>, probs: Seq<T>, evs: Seq<T>)
    requires
        forall|i: int| 0 <= i < sets.len() ==> #[trigger] sets[i] == seq![i as usize],
        sets.len() <= usize::MAX,
        probs.len() == sets.len(),
        evs.len() == sets.len(),
    ensures
        forall|i: int|
            0 <= i < sets.len() ==> #[trigger] spec_infoset_probabilities(sets, probs)[i] == seq_sum(
                seq![probs[i]],
            ),
        forall|i: int|
            0 <= i < sets.len() ==> #[trigger] spec_infoset_evs(sets, evs, probs)[i] == seq_sum(
                seq![evs[i].spec_times(probs[i])],
            ).spec_over(safe_denom(seq_sum(seq![probs[i]]))),
{
    assert forall|i: int| 0 <= i < sets.len() implies #[trigger] spec_infoset_probabilities(sets, probs)[i]
        == seq_sum(seq![probs[i]]) by {
        assert(sets[i][0] == i as usize);
        assert(pick(probs, sets[i]) =~= seq![probs[i]]);
    }
    assert forall|i: int| 0 <= i < sets.len() implies #[trigger] spec_infoset_evs(sets, evs, probs)[i]
        == seq_sum(seq![evs[i].spec_times(probs[i])]).spec_over(safe_denom(seq_sum(seq![probs[i]]))) by {
        assert(sets[i][0] == i as usize);
        assert(pick(probs, sets[i]) =~= seq![probs[i]]);
        assert(pick_products(evs, probs, sets[i]) =~= seq![evs[i].spec_times(probs[i])]);
    }
}

} // verus!
