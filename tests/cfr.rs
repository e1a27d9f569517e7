use poker_cfr::cfr::{infoset_owners, ActionNode, Node, Scalar, TerminalNode};

/// Double-precision numbers for the engine.
#[derive(Clone, Copy, Debug, PartialEq)]
struct F(f64);

impl Scalar for F {
    fn spec_zero() -> Self {
        F(0.0)
    }
    fn spec_one() -> Self {
        F(1.0)
    }
    fn spec_from_u64(n: u64) -> Self {
        F(n as f64)
    }
    fn spec_plus(self, o: Self) -> Self {
        F(self.0 + o.0)
    }
    fn spec_minus(self, o: Self) -> Self {
        F(self.0 - o.0)
    }
    fn spec_times(self, o: Self) -> Self {
        F(self.0 * o.0)
    }
    fn spec_over(self, o: Self) -> Self {
        F(self.0 / o.0)
    }
    fn spec_neg(self) -> Self {
        F(-self.0)
    }
    fn spec_is_zero(self) -> bool {
        self.0 == 0.0
    }
    fn spec_is_negative(self) -> bool {
        self.0 < 0.0
    }
    fn zero() -> Self {
        Self::spec_zero()
    }
    fn one() -> Self {
        Self::spec_one()
    }
    fn from_u64(n: u64) -> Self {
        Self::spec_from_u64(n)
    }
    fn plus(&self, o: &Self) -> Self {
        self.spec_plus(*o)
    }
    fn minus(&self, o: &Self) -> Self {
        self.spec_minus(*o)
    }
    fn times(&self, o: &Self) -> Self {
        self.spec_times(*o)
    }
    fn over(&self, o: &Self) -> Self {
        self.spec_over(*o)
    }
    fn negated(&self) -> Self {
        self.spec_neg()
    }
    fn is_zero(&self) -> bool {
        self.spec_is_zero()
    }
    fn is_negative(&self) -> bool {
        self.spec_is_negative()
    }
}

fn vf(v: &[f64]) -> Vec<F> {
    v.iter().map(|x| F(*x)).collect()
}

fn filled(n: usize, x: f64) -> Vec<F> {
    vec![F(x); n]
}

fn matrix(rows: usize, cols: usize, x: f64) -> Vec<Vec<F>> {
    vec![filled(cols, x); rows]
}

fn terminal(name: &str, n_states: usize, payouts: &[f64]) -> Node<F> {
    Node::Terminal(TerminalNode {
        name: name.to_string(),
        state_probabilities: filled(n_states, 0.),
        payouts: vf(payouts),
    })
}

fn action(
    name: &str,
    state_probabilities: Vec<F>,
    infosets: Vec<Vec<usize>>,
    sign: i8,
    children: Vec<Node<F>>,
) -> ActionNode<F> {
    let n_states = state_probabilities.len();
    let n_infosets = infosets.len();
    let n_actions = children.len();
    ActionNode {
        name: name.to_string(),
        state_probabilities,
        total_probabilities: filled(n_infosets, 0.),
        evs: filled(n_states, 0.),
        infosets,
        strategy: matrix(n_actions, n_infosets, 1. / n_actions as f64),
        avg_strategy: matrix(n_actions, n_infosets, 1. / n_actions as f64),
        regrets: matrix(n_actions, n_infosets, 0.),
        children,
        sign,
        iter_count: 1,
    }
}

fn inner(node: &Node<F>) -> &ActionNode<F> {
    match node {
        Node::Action(a) => a,
        Node::Terminal(_) => panic!("not a decision node"),
    }
}

fn close(a: f64, b: f64, tol: f64) -> bool {
    (a - b).abs() <= tol
}

fn uniform_stub() -> Node<F> {
    Node::Action(action(
        "root",
        filled(3, 1. / 3.),
        vec![vec![0], vec![1], vec![2]],
        1,
        vec![
            terminal("a", 3, &[3., 2., 3.]),
            terminal("b", 3, &[1., 2.5, 2.]),
            terminal("c", 3, &[4., 2., 2.]),
        ],
    ))
}

fn kuhn_tree() -> Node<F> {
    let p1 = || vec![vec![0, 1], vec![2, 3], vec![4, 5]];
    let p2 = || vec![vec![2, 4], vec![0, 5], vec![1, 3]];
    let showdown = [2., 2., -2., 2., -2., -2.];
    Node::Action(action(
        "root",
        filled(6, 1. / 6.),
        p1(),
        1,
        vec![
            Node::Action(action(
                "b",
                filled(6, 0.),
                p2(),
                -1,
                vec![terminal("bc", 6, &showdown), terminal("bf", 6, &[1.; 6])],
            )),
            Node::Action(action(
                "x",
                filled(6, 0.),
                p2(),
                -1,
                vec![
                    Node::Action(action(
                        "xb",
                        filled(6, 0.),
                        p1(),
                        1,
                        vec![terminal("bc", 6, &showdown), terminal("bf", 6, &[-1.; 6])],
                    )),
                    terminal("xx", 6, &[1., 1., -1., 1., -1., -1.]),
                ],
            )),
        ],
    ))
}

/// Visits every decision node.
fn each_action(node: &Node<F>, f: &mut dyn FnMut(&ActionNode<F>)) {
    if let Node::Action(a) = node {
        f(a);
        for c in &a.children {
            each_action(c, f);
        }
    }
}

/// Every decision node plays its average strategy.
fn play_average(node: &mut Node<F>) {
    if let Node::Action(a) = node {
        a.strategy = a.avg_strategy.clone();
        for c in a.children.iter_mut() {
            play_average(c);
        }
    }
}

fn column_sum(m: &[Vec<F>], i: usize) -> f64 {
    m.iter().map(|row| row[i].0).sum()
}

#[test]
fn test_expand_strategy() {
    let root = ActionNode {
        name: "root".to_string(),
        state_probabilities: filled(6, 1. / 6.),
        total_probabilities: filled(3, 0.),
        evs: filled(6, 0.),
        infosets: vec![vec![0, 1], vec![2, 3], vec![4, 5]],
        strategy: matrix(2, 3, 1. / 2.),
        avg_strategy: matrix(2, 3, 1. / 2.),
        regrets: matrix(2, 3, 0.),
        children: vec![
            Node::Terminal(TerminalNode {
                name: "a".to_string(),
                state_probabilities: filled(3, 0.),
                payouts: vf(&[3., 2., 1.]),
            }),
            Node::Terminal(TerminalNode {
                name: "b".to_string(),
                state_probabilities: filled(3, 0.),
                payouts: vf(&[1., 2., 3.]),
            }),
        ],
        sign: 1,
        iter_count: 1,
    };

    assert_eq!(root.expand_strategy(), matrix(2, 6, 1. / 2.));
}

#[test]
fn test_update_tree() {
    let mut root = Node::Action(ActionNode {
        name: "root".to_string(),
        state_probabilities: filled(3, 1. / 3.),
        total_probabilities: filled(3, 0.),
        evs: filled(3, 0.),
        infosets: vec![vec![0], vec![1], vec![2]],
        strategy: matrix(3, 3, 1. / 3.),
        avg_strategy: matrix(3, 3, 1. / 3.),
        regrets: matrix(3, 3, 0.),
        children: vec![
            Node::Terminal(TerminalNode {
                name: "a".to_string(),
                state_probabilities: filled(3, 0.),
                payouts: vf(&[3., 2., 3.]),
            }),
            Node::Terminal(TerminalNode {
                name: "b".to_string(),
                state_probabilities: filled(3, 0.),
                payouts: vf(&[1., 2.5, 2.]),
            }),
            Node::Terminal(TerminalNode {
                name: "c".to_string(),
                state_probabilities: filled(3, 0.),
                payouts: vf(&[4., 2., 2.]),
            }),
        ],
        sign: 1,
        iter_count: 1,
    });

    for _ in 0..1 {
        // Run one iteration of CFR
        root.update_probabilities();
        root.update_ev();
        root.update_strategy();
        root.update_probabilities();
    }

    let a = inner(&root);
    println!("{:?}", a.infoset_probabilities(&a.state_probabilities));
    println!("{:?}", a.infoset_evs(&a.evs, &a.state_probabilities));
    println!("{:?}", a.action_evs());
    println!("{:?}", a.current_regret());
}

#[test]
fn uniform_stub_after_one_iteration() {
    let mut root = uniform_stub();
    root.run(1);
    let a = inner(&root);
    let evs: Vec<f64> = a.evs.iter().map(|x| x.0).collect();
    for (got, want) in evs.iter().zip([8. / 3., 13. / 6., 7. / 3.]) {
        assert!(close(*got, want, 1e-12), "{got} vs {want}");
    }
    let payouts = [[3., 2., 3.], [1., 2.5, 2.], [4., 2., 2.]];
    let action_evs = a.action_evs();
    let current = a.current_regret();
    for act in 0..3 {
        for i in 0..3 {
            assert!(close(action_evs[act][i].0, payouts[act][i], 1e-12));
            let regret = payouts[act][i] - evs[i];
            assert!(close(current[act][i].0, regret, 1e-12));
            // Halved running mean of the reach-weighted regret (reach 1/3).
            assert!(close(a.regrets[act][i].0, regret / 3. / 2., 1e-12));
        }
    }
    assert_eq!(a.iter_count, 2);
    // Set to the reach on the first visit, then raised by it.
    assert_eq!(a.total_probabilities, filled(3, 2. / 3.));
    // Column 0: positive regrets 1/18 and 4/18 only.
    let s = &a.strategy;
    let eps = 1e-8;
    let denom = 1. / 18. + 4. / 18. + 3. * eps;
    assert!(close(s[0][0].0, (1. / 18. + eps) / denom, 1e-12));
    assert!(close(s[1][0].0, eps / denom, 1e-12));
    assert!(close(s[2][0].0, (4. / 18. + eps) / denom, 1e-12));
}

#[test]
fn columns_are_distributions_after_iterations() {
    let mut root = kuhn_tree();
    root.run(200);
    each_action(&root, &mut |a| {
        for i in 0..a.infosets.len() {
            assert!(close(column_sum(&a.strategy, i), 1., 1e-6));
            assert!(close(column_sum(&a.avg_strategy, i), 1., 1e-6));
        }
    });
}

#[test]
fn smoothed_strategy_is_strictly_inside() {
    let mut root = kuhn_tree();
    root.run(50);
    each_action(&root, &mut |a| {
        for i in 0..a.infosets.len() {
            if a.regrets.iter().any(|row| row[i].0 > 0.) {
                for row in &a.strategy {
                    assert!(row[i].0 > 0. && row[i].0 < 1.);
                }
            }
        }
    });
}

#[test]
fn reach_shrinks_down_the_tree() {
    let mut root = kuhn_tree();
    root.run(30);
    root.update_probabilities();
    let top: f64 = root.state_probabilities().iter().map(|x| x.0).sum();
    fn walk(n: &Node<F>, top: f64) {
        let here: f64 = n.state_probabilities().iter().map(|x| x.0).sum();
        assert!(here <= top + 1e-12);
        if let Some(children) = n.children() {
            for c in children {
                walk(c, top);
            }
        }
    }
    walk(&root, top);
}

#[test]
fn expanded_columns_sum_to_one() {
    let mut root = kuhn_tree();
    root.run(20);
    each_action(&root, &mut |a| {
        let e = a.expand_strategy();
        for s in 0..6 {
            assert!(close(column_sum(&e, s), 1., 1e-6));
        }
    });
}

#[test]
fn first_update_of_an_indifferent_game_keeps_average_equal() {
    // Every action pays the same, so no regret arises and the strategy stays
    // uniform; the first average is then the strategy itself.
    let mut root = Node::Action(action(
        "root",
        filled(2, 0.5),
        vec![vec![0], vec![1]],
        1,
        vec![terminal("a", 2, &[1., -1.]), terminal("b", 2, &[1., -1.])],
    ));
    root.run(1);
    let a = inner(&root);
    assert_eq!(a.strategy, a.avg_strategy);
}

#[test]
fn first_update_of_the_stub_moves_average_halfway() {
    let mut root = uniform_stub();
    root.run(1);
    let a = inner(&root);
    for act in 0..3 {
        for i in 0..3 {
            let want = (1. / 3. + a.strategy[act][i].0) / 2.;
            assert!(close(a.avg_strategy[act][i].0, want, 1e-12));
        }
    }
    assert_ne!(a.strategy, a.avg_strategy);
}

#[test]
fn kuhn_average_strategy_reaches_the_game_value() {
    let mut root = kuhn_tree();
    root.run(20_000);
    play_average(&mut root);
    root.update_probabilities();
    root.update_ev();
    let value: f64 = root
        .payouts()
        .iter()
        .zip(root.state_probabilities().iter())
        .map(|(v, p)| v.0 * p.0)
        .sum();
    assert!(close(value, -1. / 18., 0.01), "{value}");
}

#[test]
fn kuhn_equilibrium() {
    let mut root = kuhn_tree();
    root.run(20_000);
    let root_avg = root.avg_strategy().unwrap();
    // Columns: K, Q, J. Row 0 bets.
    let alpha = root_avg[0][2].0;
    assert!(alpha <= 1. / 3. + 0.02);
    assert!(close(root_avg[0][0].0, 3. * alpha, 0.05));
    assert!(close(root_avg[0][1].0, 0., 0.02));
    let b = root.children().unwrap()[0].avg_strategy().unwrap();
    // Row 0 calls.
    assert!(close(b[0][0].0, 1., 0.02));
    assert!(close(b[0][1].0, 1. / 3., 0.02));
    assert!(close(b[0][2].0, 0., 0.02));
}

#[test]
fn unreached_state_has_zero_value() {
    let mut root = Node::Action(action(
        "root",
        vf(&[0.5, 0.5, 0.]),
        vec![vec![0], vec![1], vec![2]],
        1,
        vec![terminal("a", 3, &[1., 2., 3.]), terminal("b", 3, &[3., 2., 1.])],
    ));
    root.update_probabilities();
    root.update_ev();
    let evs = root.payouts();
    assert_eq!(evs[2], F(0.));
    assert!(!evs[2].0.is_nan());
    let a = inner(&root);
    let by_set = a.infoset_evs(&a.evs, &a.state_probabilities);
    assert_eq!(by_set[2], F(0.));
}

#[test]
fn no_positive_regret_gives_uniform_column() {
    let mut a = action(
        "root",
        filled(2, 0.5),
        vec![vec![0], vec![1]],
        1,
        vec![
            terminal("a", 2, &[0., 0.]),
            terminal("b", 2, &[0., 0.]),
            terminal("c", 2, &[0., 0.]),
            terminal("d", 2, &[0., 0.]),
        ],
    );
    a.regrets = vec![vf(&[-1., 2.]), vf(&[0., -3.]), vf(&[-0.5, 0.]), vf(&[-2., 0.])];
    let s = a.regret_match();
    for row in &s {
        assert_eq!(row[0], F(0.25));
    }
    let eps = 1e-8;
    assert!(close(s[0][1].0, (2. + eps) / (2. + 4. * eps), 1e-15));
    assert!(close(s[1][1].0, eps / (2. + 4. * eps), 1e-15));
}

/// Ordinary per-state CFR of a one-move game, with the same running-mean
/// regret and smoothing.
fn per_state_cfr(payouts: &[[f64; 3]; 3], prior: &[f64; 3], iterations: usize) -> Vec<[f64; 3]> {
    let mut strategy = [[1. / 3.; 3]; 3]; // [state][action]
    let mut regrets = [[0.; 3]; 3];
    for t in 1..=iterations {
        for s in 0..3 {
            let ev: f64 = (0..3).map(|a| strategy[s][a] * payouts[a][s]).sum();
            for a in 0..3 {
                regrets[s][a] =
                    (regrets[s][a] + (payouts[a][s] - ev) * prior[s]) * t as f64 / (t as f64 + 1.);
            }
            let pos: Vec<f64> = regrets[s].iter().map(|r| r.max(0.)).collect();
            let sum: f64 = pos.iter().sum();
            for a in 0..3 {
                strategy[s][a] = if sum == 0. {
                    1. / 3.
                } else {
                    (pos[a] + 1e-8) / (sum + 3e-8)
                };
            }
        }
    }
    strategy.to_vec()
}

#[test]
fn singleton_infosets_match_per_state_cfr() {
    let mut root = uniform_stub();
    root.run(10);
    let a = inner(&root);
    let want = per_state_cfr(
        &[[3., 2., 3.], [1., 2.5, 2.], [4., 2., 2.]],
        &[1. / 3.; 3],
        10,
    );
    for s in 0..3 {
        for act in 0..3 {
            assert!(close(a.strategy[act][s].0, want[s][act], 1e-9));
        }
    }
    // With singleton information sets the expansion is the strategy itself.
    assert_eq!(a.expand_strategy(), a.strategy);
}

#[test]
fn infoset_partition_is_checked() {
    assert_eq!(
        infoset_owners(&vec![vec![0, 1], vec![2, 3], vec![4, 5]], 6),
        Some(vec![0, 0, 1, 1, 2, 2])
    );
    assert_eq!(
        infoset_owners(&vec![vec![2, 4], vec![0, 5], vec![1, 3]], 6),
        Some(vec![1, 2, 0, 2, 0, 1])
    );
    // A state listed twice.
    assert_eq!(infoset_owners(&vec![vec![0, 1], vec![1, 2]], 3), None);
    assert_eq!(infoset_owners(&vec![vec![0, 0], vec![1]], 2), None);
    // A state out of range.
    assert_eq!(infoset_owners(&vec![vec![0, 3], vec![1, 2]], 3), None);
    // A state missing.
    assert_eq!(infoset_owners(&vec![vec![0], vec![2]], 3), None);
}

#[test]
fn passes_keep_names_signs_and_payouts() {
    let mut root = kuhn_tree();
    root.run(3);
    assert_eq!(root.name(), "root");
    let a = inner(&root);
    assert_eq!(a.iter_count, 4);
    let b = inner(&a.children[0]);
    assert_eq!(b.sign, -1);
    assert_eq!(b.iter_count, 4);
    match &b.children[1] {
        Node::Terminal(t) => assert_eq!(t.payouts, filled(6, 1.)),
        Node::Action(_) => panic!("expected a terminal"),
    }
    assert!(b.children[1].strategy().is_none());
}
