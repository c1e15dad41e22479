use barracuda::b_runner::{goes_on, next_report, report_due, BarracudaRunner};
use barracuda::components::{Simulation, Ucb};
use barracuda::extensions::{Rave, TranspositionTable};
use barracuda::fixed::{Fixed, SCALE};
use barracuda::formula::{Event, Formula};
use barracuda::mcts::{
    best_index, outcome, playout_seed, terminal_seed, BarracudaAlgorithms, Node, Tree,
};
use barracuda::policy::Uniform;
use barracuda::simulate::RandomPlayout;
use barracuda::traits::{BarracudaBoard, BarracudaMove, BarracudaParams, GameState, Player};
use barracuda::ttt::{Square, TicTacToeBoard, TicTacToeParams};
use barracuda::ucb::{Exploration, Random, Value};

/// The usual score: the mean outcome for the side that moved to the node,
/// and a bonus for nodes that were visited little.
struct Uct {
    value: Value,
    exploration: Exploration,
}

impl<B: BarracudaBoard<P, M>, P: BarracudaParams, M: BarracudaMove, const N: usize>
    Formula<B, P, M, N> for Uct
{
    fn value(&self, _tree: Tree<B, P, M, N>, _node: usize, _last_move: M) -> Fixed {
        unreachable!()
    }

    fn told(
        _before: Self,
        _tree: Tree<B, P, M, N>,
        _event: Event<M>,
        _after: Self,
        _tree_after: Tree<B, P, M, N>,
    ) -> bool {
        unreachable!()
    }

    fn plain(&self) -> bool {
        unreachable!()
    }

    fn get(&self, tree: &Tree<B, P, M, N>, node: usize, last_move: &M) -> Fixed {
        self.value
            .get(tree, node, last_move)
            .plus(self.exploration.get(tree, node, last_move))
    }

    fn on_score(&mut self, tree: &mut Tree<B, P, M, N>, node: usize, _last_move: &M) {
        let root = Exploration::visits_of(tree, node).map(|(parent, own)| {
            let parent = parent.raw() as f64 / SCALE as f64;
            let own = own.raw() as f64 / SCALE as f64;
            Fixed::from_raw(((parent.ln() / own).sqrt() * SCALE as f64) as i64)
        });
        self.exploration.stage(root);
    }

    fn on_playout(&mut self, _tree: &mut Tree<B, P, M, N>, _node: usize, _last_move: &M, _eval: Fixed) {
    }

    fn on_backprop(&mut self, _tree: &mut Tree<B, P, M, N>, _node: usize, _score: Fixed) {}
}

type B = TicTacToeBoard;
type P = TicTacToeParams;
type M = Square;
type Playout = RandomPlayout<B, P, M, Uniform>;
type Algorithms =
    BarracudaAlgorithms<Random, Uct, Uniform, Rave<B, P, M>, Playout, TranspositionTable<B, P, M, 0>>;
type Runner = BarracudaRunner<
    B,
    P,
    M,
    Random,
    Uct,
    Uniform,
    Rave<B, P, M>,
    Playout,
    TranspositionTable<B, P, M, 0>,
    0,
>;

fn algorithms() -> Algorithms {
    BarracudaAlgorithms {
        ucb_algorithms: vec![],
        ucb: Ucb::new(Uct {
            value: Value::new(),
            exploration: Exploration::new(Fixed::from_raw(141_400_000)),
        }),
        policy: Uniform::new(),
        simulation_algorithms: vec![],
        simulation: RandomPlayout::new(usize::MAX, Uniform::new()),
        backprop_algorithms: vec![],
    }
}

fn sq(x: usize, y: usize) -> Square {
    Square { x, y }
}

fn board_after(moves: &[(usize, usize)]) -> B {
    let mut board = B::new(TicTacToeParams);
    for (x, y) in moves {
        board.make_move(sq(*x, *y));
    }
    board
}

fn single(board: B) -> Tree<B, P, M, 0> {
    Tree {
        nodes: vec![Node::new(board, None)],
    }
}

#[test]
fn a_new_node_is_unvisited() {
    let node: Node<B, P, M, 3> = Node::new(B::new(TicTacToeParams), Some(4));
    assert_eq!(node.parent, Some(4));
    assert!(node.moves.is_empty());
    assert!(node.child_nodes.is_empty());
    assert_eq!(node.score, Fixed::zero());
    assert_eq!(node.visits.raw(), 1);
    assert_eq!(node.registers, vec![Fixed::zero(); 3]);
    assert_eq!(node.eval(), Fixed::zero());
    assert_eq!(node.visits(), 0);
}

#[test]
fn eval_is_score_by_visits() {
    let mut node: Node<B, P, M, 0> = Node::new(B::new(TicTacToeParams), None);
    node.score = Fixed::from_int(3);
    node.visits = Fixed::from_int(4).plus(Fixed::epsilon());
    assert_eq!(node.eval().raw(), 74_999_999);
    assert_eq!(node.visits(), 4);
    node.visits = Fixed::max_value();
    assert_eq!(node.visits(), u32::MAX);
    node.visits = Fixed::from_int(-5);
    assert_eq!(node.visits(), 0);
}

#[test]
fn outcomes_are_one_half_and_zero() {
    assert_eq!(outcome(GameState::End(Some(Player::P1))), Fixed::one());
    assert_eq!(outcome(GameState::End(Some(Player::P2))), Fixed::zero());
    assert_eq!(outcome(GameState::End(None)), Fixed::half());
    assert_eq!(outcome(GameState::Ongoing), Fixed::half());
}

#[test]
fn seeds_turn_with_the_side_to_move() {
    let won = GameState::End(Some(Player::P1));
    assert_eq!(terminal_seed(won, Player::P1), Fixed::zero());
    assert_eq!(terminal_seed(won, Player::P2), Fixed::one());
    assert_eq!(terminal_seed(GameState::End(None), Player::P1), Fixed::half());
    let estimate = Fixed::from_raw(30_000_000);
    assert_eq!(playout_seed(estimate, Player::P1), estimate);
    assert_eq!(playout_seed(estimate, Player::P2).raw(), 70_000_000);
}

#[test]
fn the_first_of_equal_scores_is_best() {
    let scores: Vec<Fixed> = [1, 5, 5, 2, 5].iter().map(|v| Fixed::from_int(*v)).collect();
    assert_eq!(best_index(&scores), 1);
    assert_eq!(best_index(&vec![Fixed::min_value(); 3]), 0);
    assert_eq!(best_index(&vec![Fixed::zero()]), 0);
    let rising: Vec<Fixed> = (0..6).map(Fixed::from_int).collect();
    assert_eq!(best_index(&rising), 5);
}

#[test]
fn the_first_iteration_expands_the_root() {
    let mut tree = single(B::new(TicTacToeParams));
    let mut algo = algorithms();
    let (path, value) = Node::search(&mut tree, &mut algo);
    assert_eq!(tree.nodes.len(), 10);
    assert_eq!(path.len(), 2);
    assert_eq!(path[0], 0);
    let root_board = tree.nodes[0].board;
    assert_eq!(tree.nodes[0].moves, root_board.get_moves());
    assert_eq!(tree.nodes[0].child_nodes, (1..10).collect::<Vec<_>>());
    for (mv, child) in tree.nodes[0].moves.iter().zip(tree.nodes[0].child_nodes.iter()) {
        let mut expected = root_board;
        expected.make_move(*mv);
        assert!(tree.nodes[*child].board.same_position(&expected));
        assert_eq!(tree.nodes[*child].parent, Some(0));
        if *child == path[1] {
            assert_eq!(tree.nodes[*child].visits.raw(), SCALE + 1);
            assert_eq!(tree.nodes[*child].score, value);
        } else {
            assert_eq!(tree.nodes[*child].visits.raw(), 1);
            assert_eq!(tree.nodes[*child].score, Fixed::zero());
        }
    }
    assert_eq!(tree.nodes[0].visits.raw(), SCALE + 1);
    assert_eq!(tree.nodes[0].score, Fixed::one().minus(value));
    assert!(value == Fixed::zero() || value == Fixed::half() || value == Fixed::one());
}

#[test]
fn children_match_the_legal_moves_everywhere() {
    let mut tree = single(B::new(TicTacToeParams));
    let mut algo = algorithms();
    for _ in 0..300 {
        Node::search(&mut tree, &mut algo);
    }
    let mut expanded = 0;
    for i in 0..tree.nodes.len() {
        let node = &tree.nodes[i];
        assert_eq!(node.moves.len(), node.child_nodes.len());
        if node.moves.is_empty() {
            continue;
        }
        expanded += 1;
        assert_eq!(node.moves, node.board.get_moves());
        for (mv, child) in node.moves.iter().zip(node.child_nodes.iter()) {
            let mut expected = node.board;
            expected.make_move(*mv);
            assert!(tree.nodes[*child].board.same_position(&expected));
            assert_eq!(tree.nodes[*child].parent, Some(i));
            assert!(*child > i);
        }
    }
    assert!(expanded > 10);
}

#[test]
fn visits_never_shrink() {
    let mut tree = single(B::new(TicTacToeParams));
    let mut algo = algorithms();
    let mut before: Vec<i64> = vec![1];
    for iteration in 1..=200i64 {
        let (path, _) = Node::search(&mut tree, &mut algo);
        for (i, node) in tree.nodes.iter().enumerate() {
            let was = if i < before.len() { before[i] } else { 1 };
            if path.contains(&i) {
                assert_eq!(node.visits.raw(), was + SCALE);
            } else {
                assert_eq!(node.visits.raw(), was);
            }
        }
        assert_eq!(tree.nodes[0].visits.raw(), iteration * SCALE + 1);
        before = tree.nodes.iter().map(|n| n.visits.raw()).collect();
    }
}

#[test]
fn values_alternate_up_the_path() {
    let mut tree = single(B::new(TicTacToeParams));
    let mut algo = algorithms();
    for _ in 0..100 {
        let scores: Vec<Fixed> = tree.nodes.iter().map(|n| n.score).collect();
        let (path, value) = Node::search(&mut tree, &mut algo);
        let mut expected = value;
        for i in path.iter().rev() {
            let was = if *i < scores.len() { scores[*i] } else { Fixed::zero() };
            assert_eq!(tree.nodes[*i].score, was.plus(expected));
            expected = Fixed::one().minus(expected);
        }
        for j in 1..path.len() {
            assert_eq!(tree.nodes[path[j]].parent, Some(path[j - 1]));
        }
    }
}

#[test]
fn a_finished_game_is_not_expanded() {
    let won = board_after(&[(1, 0), (0, 0), (1, 1), (0, 1), (1, 2)]);
    let mut tree = single(won);
    let mut algo = algorithms();
    let (path, value) = Node::search(&mut tree, &mut algo);
    assert_eq!(path, vec![0]);
    assert_eq!(tree.nodes.len(), 1);
    assert_eq!(value, Fixed::one());
    assert_eq!(tree.nodes[0].score, Fixed::one());
    assert_eq!(tree.nodes[0].visits.raw(), SCALE + 1);
    let (result, chosen) = Node::expand(
        &mut tree,
        0,
        &mut algo.policy,
        &mut algo.simulation,
        &mut algo.simulation_algorithms,
        &mut algo.ucb.formula,
    );
    assert_eq!(chosen, None);
    assert_eq!(result, Fixed::one());
}

#[test]
fn a_drawn_game_propagates_one_half() {
    let drawn = board_after(&[
        (0, 0),
        (0, 1),
        (0, 2),
        (1, 1),
        (1, 0),
        (1, 2),
        (2, 1),
        (2, 0),
        (2, 2),
    ]);
    let mut tree = single(drawn);
    let mut algo = algorithms();
    let (_, value) = Node::search(&mut tree, &mut algo);
    assert_eq!(value, Fixed::half());
}

#[test]
fn propagation_adds_a_visit_and_the_turned_value() {
    let mut tree = single(B::new(TicTacToeParams));
    let mut algo = algorithms();
    Node::search(&mut tree, &mut algo);
    let before: Vec<(Fixed, Fixed)> = tree.nodes.iter().map(|n| (n.score, n.visits)).collect();
    let path = vec![0, 4];
    Node::backpropagate(
        &mut tree,
        &mut algo.backprop_algorithms,
        &mut algo.ucb.formula,
        &path,
        Fixed::from_raw(25_000_000),
    );
    assert_eq!(tree.nodes[4].score, before[4].0.plus(Fixed::from_raw(25_000_000)));
    assert_eq!(tree.nodes[0].score, before[0].0.plus(Fixed::from_raw(75_000_000)));
    assert_eq!(tree.nodes[4].visits, before[4].1.plus(Fixed::one()));
    assert_eq!(tree.nodes[0].visits, before[0].1.plus(Fixed::one()));
    for i in [1, 2, 3, 5, 6, 7, 8, 9] {
        assert_eq!((tree.nodes[i].score, tree.nodes[i].visits), before[i]);
    }
}

#[test]
fn selection_follows_the_best_score() {
    let mut tree = single(B::new(TicTacToeParams));
    let mut algo = algorithms();
    Node::search(&mut tree, &mut algo);
    for child in 1..10 {
        tree.nodes[child].visits = Fixed::from_int(10);
        tree.nodes[child].score = Fixed::from_int(10);
    }
    tree.nodes[6].score = Fixed::from_int(2);
    tree.nodes[8].score = Fixed::from_int(2);
    let path = Node::select(&mut tree, &mut algo.ucb_algorithms, &mut algo.ucb);
    assert_eq!(path, vec![0, 6]);
}

#[test]
fn the_principal_variation_follows_the_most_visited_children() {
    let mut tree = single(B::new(TicTacToeParams));
    let mut algo = algorithms();
    assert!(Node::pv(&tree, 0).is_empty());
    Node::search(&mut tree, &mut algo);
    for child in 1..10 {
        tree.nodes[child].visits = Fixed::from_int(3);
    }
    tree.nodes[5].visits = Fixed::from_int(7);
    tree.nodes[7].visits = Fixed::from_int(7);
    let line = Node::pv(&tree, 0);
    assert_eq!(line, vec![tree.nodes[0].moves[4]]);
    assert!(Node::pv(&tree, 5).is_empty());
}

#[test]
fn random_playouts_end_in_a_result() {
    let mut playout: Playout = RandomPlayout::new(usize::MAX, Uniform::new());
    let start = B::new(TicTacToeParams);
    let mut seen = std::collections::HashSet::new();
    for _ in 0..300 {
        let estimate = playout.simulate(&start);
        assert!(estimate == Fixed::zero() || estimate == Fixed::half() || estimate == Fixed::one());
        seen.insert(estimate.raw());
    }
    assert_eq!(seen.len(), 3);
}

#[test]
fn playouts_of_no_depth_judge_the_position_as_it_stands() {
    let mut playout: Playout = RandomPlayout::new(0, Uniform::new());
    assert_eq!(playout.simulate(&B::new(TicTacToeParams)), Fixed::half());
    let won = board_after(&[(1, 0), (0, 0), (1, 1), (0, 1), (1, 2)]);
    assert_eq!(playout.simulate(&won), Fixed::one());
    assert_eq!(playout.eval(&won), Fixed::one());
    let lost = board_after(&[(0, 0), (0, 2), (1, 0), (1, 2), (2, 1), (2, 2)]);
    let mut deep: Playout = RandomPlayout::new(usize::MAX, Uniform::new());
    assert_eq!(deep.simulate(&lost), Fixed::zero());
}

#[test]
fn a_cut_off_playout_is_worth_one_half() {
    let mut playout: Playout = RandomPlayout::new(2, Uniform::new());
    for _ in 0..50 {
        assert_eq!(playout.simulate(&B::new(TicTacToeParams)), Fixed::half());
    }
}

#[test]
fn the_runner_starts_with_a_single_root() {
    let runner: Runner = BarracudaRunner::new(algorithms(), TicTacToeParams);
    assert_eq!(runner.tree.nodes.len(), 1);
    assert!(runner.tree.nodes[0].board.same_position(&B::new(TicTacToeParams)));
    assert!(runner.board.same_position(&B::new(TicTacToeParams)));
}

#[test]
fn the_runner_counts_its_iterations_at_the_root() {
    let mut runner: Runner = BarracudaRunner::new(algorithms(), TicTacToeParams);
    runner.search(0);
    assert_eq!(runner.tree.nodes[0].visits.raw(), 1);
    runner.search(25);
    assert_eq!(runner.tree.nodes[0].visits.raw(), 25 * SCALE + 1);
    assert_eq!(runner.tree.nodes[0].visits(), 25);
    runner.search(5);
    assert_eq!(runner.tree.nodes[0].visits(), 30);
    assert!(runner.board.same_position(&B::new(TicTacToeParams)));
}

#[test]
fn the_best_move_is_the_most_visited_one() {
    let mut runner: Runner = BarracudaRunner::new(algorithms(), TicTacToeParams);
    runner.search(400);
    let best = runner.best_move();
    let root = &runner.tree.nodes[0];
    let mut most = 0;
    for k in 1..root.moves.len() {
        if root.tree_visits(&runner.tree, k) > root.tree_visits(&runner.tree, most) {
            most = k;
        }
    }
    assert_eq!(best, root.moves[most]);
    assert_eq!(Node::pv(&runner.tree, 0)[0], best);
}

trait ChildVisits {
    fn tree_visits(&self, tree: &Tree<B, P, M, 0>, k: usize) -> i64;
}

impl ChildVisits for Node<B, P, M, 0> {
    fn tree_visits(&self, tree: &Tree<B, P, M, 0>, k: usize) -> i64 {
        tree.nodes[self.child_nodes[k]].visits.raw()
    }
}

#[test]
fn committing_a_move_rebuilds_the_tree() {
    let mut runner: Runner = BarracudaRunner::new(algorithms(), TicTacToeParams);
    let mut replay = B::new(TicTacToeParams);
    for mv in [sq(1, 1), sq(0, 0), sq(2, 1)] {
        runner.search(50);
        assert!(runner.tree.nodes.len() > 1);
        runner.make_move(mv);
        replay.make_move(mv);
        assert_eq!(runner.tree.nodes.len(), 1);
        assert_eq!(runner.tree.nodes[0].visits.raw(), 1);
        assert_eq!(runner.tree.nodes[0].score, Fixed::zero());
        assert!(runner.tree.nodes[0].moves.is_empty());
        assert!(runner.tree.nodes[0].board.same_position(&replay));
        assert!(runner.board.same_position(&replay));
    }
    assert_eq!(runner.board.turn(), Player::P2);
}

#[test]
fn setting_a_board_rebuilds_the_tree() {
    let mut runner: Runner = BarracudaRunner::new(algorithms(), TicTacToeParams);
    runner.search(20);
    let board = board_after(&[(0, 0), (1, 1)]);
    runner.set_board(board);
    assert_eq!(runner.tree.nodes.len(), 1);
    assert!(runner.board.same_position(&board));
    assert!(runner.tree.nodes[0].board.same_position(&board));
}

#[test]
fn a_game_against_itself_ends_within_nine_plies() {
    for _ in 0..3 {
        let mut runner: Runner = BarracudaRunner::new(algorithms(), TicTacToeParams);
        let mut board = B::new(TicTacToeParams);
        let mut plies = 0;
        while board.game_state() == GameState::Ongoing {
            runner.search(300);
            let mv = runner.best_move();
            assert!(board.get_moves().contains(&mv));
            board.make_move(mv);
            runner.make_move(mv);
            plies += 1;
            assert!(plies <= 9);
            assert!(runner.board.same_position(&board));
        }
        assert!(matches!(board.game_state(), GameState::End(_)));
        assert!(plies >= 5);
    }
}

#[test]
fn a_forced_win_settles_the_means() {
    let last_move_wins = board_after(&[
        (0, 0),
        (0, 1),
        (0, 2),
        (1, 0),
        (1, 2),
        (1, 1),
        (2, 1),
        (2, 0),
    ]);
    assert_eq!(last_move_wins.get_moves(), vec![sq(2, 2)]);
    let mut runner: Runner = BarracudaRunner::new(algorithms(), TicTacToeParams);
    runner.set_board(last_move_wins);
    let mut previous = i64::MAX;
    for round in 1..=10i64 {
        runner.search(100);
        let root = &runner.tree.nodes[0];
        let child = &runner.tree.nodes[1];
        assert_eq!(runner.tree.nodes.len(), 2);
        assert_eq!(root.score, Fixed::one());
        assert_eq!(child.score, Fixed::from_int(100 * round - 1));
        assert_eq!(root.visits.raw(), 100 * round * SCALE + 1);
        let mean = root.eval().raw();
        assert!(mean < previous);
        let exact = (SCALE as i128 * SCALE as i128) / (100 * round as i128 * SCALE as i128 + 1);
        assert_eq!(mean as i128, exact);
        previous = mean;
    }
    assert_eq!(runner.tree.nodes[0].eval().raw(), 99_999);
    assert_eq!(runner.tree.nodes[1].eval().raw(), 99_899_999);
    assert_eq!(runner.best_move(), sq(2, 2));
}

#[test]
fn the_first_playout_of_a_won_child_counts_for_the_mover() {
    let last_move_wins = board_after(&[
        (0, 0),
        (0, 1),
        (0, 2),
        (1, 0),
        (1, 2),
        (1, 1),
        (2, 1),
        (2, 0),
    ]);
    let mut tree = single(last_move_wins);
    let mut algo = algorithms();
    let (path, value) = Node::search(&mut tree, &mut algo);
    assert_eq!(path, vec![0, 1]);
    assert_eq!(value, Fixed::zero());
    assert_eq!(tree.nodes[1].score, Fixed::zero());
    assert_eq!(tree.nodes[0].score, Fixed::one());
    assert_eq!(Value::new().get(&tree, 1, &sq(2, 2)), Fixed::one());
    let (path, value) = Node::search(&mut tree, &mut algo);
    assert_eq!(path, vec![0, 1]);
    assert_eq!(value, Fixed::one());
}

#[test]
fn ranking_reads_the_expression_for_every_child() {
    let mut tree = single(B::new(TicTacToeParams));
    let mut algo = algorithms();
    Node::search(&mut tree, &mut algo);
    for child in 1..10 {
        tree.nodes[child].visits = Fixed::from_int(4);
        tree.nodes[child].score = Fixed::from_int(child as i64 % 4);
    }
    tree.nodes[0].visits = Fixed::one();
    let scores = Node::rank(&mut tree, &mut algo.ucb_algorithms, &mut algo.ucb, 0);
    let expected: Vec<i64> = (1..10i64).map(|c| 100_000_000 - (c % 4) * 25_000_000).collect();
    assert_eq!(scores.iter().map(|s| s.raw()).collect::<Vec<_>>(), expected);
    let one = Node::score(&mut tree, &mut algo.ucb_algorithms, &mut algo.ucb, 3, &sq(0, 2));
    assert_eq!(one.raw(), 25_000_000);
}

#[test]
fn equal_scores_lead_to_the_first_child() {
    let mut tree = single(B::new(TicTacToeParams));
    let mut algo: BarracudaAlgorithms<
        Random,
        barracuda::formula::Const,
        Uniform,
        Rave<B, P, M>,
        Playout,
        TranspositionTable<B, P, M, 0>,
    > = BarracudaAlgorithms {
        ucb_algorithms: vec![],
        ucb: Ucb::new(barracuda::formula::Const::new(Fixed::one())),
        policy: Uniform::new(),
        simulation_algorithms: vec![],
        simulation: RandomPlayout::new(usize::MAX, Uniform::new()),
        backprop_algorithms: vec![],
    };
    Node::search(&mut tree, &mut algo);
    let (path, _) = Node::search(&mut tree, &mut algo);
    assert_eq!(path[1], 1);
    assert_eq!(tree.nodes[1].moves.len(), 8);
    for child in 2..10 {
        assert!(tree.nodes[child].moves.is_empty());
    }
    assert_eq!(tree.nodes[0].visits(), 2);
    assert!(tree.nodes[1].visits() >= 1);
}

#[test]
fn a_finished_position_is_searched_without_growing() {
    let won = board_after(&[(0, 0), (1, 0), (0, 1), (1, 1), (0, 2)]);
    let mut tree = single(won);
    let mut algo = algorithms();
    for _ in 0..3 {
        Node::search(&mut tree, &mut algo);
    }
    assert_eq!(tree.nodes.len(), 1);
    assert_eq!(tree.nodes[0].score, Fixed::from_int(3));
    assert_eq!(tree.nodes[0].visits(), 3);
    assert_eq!(tree.nodes[0].eval().raw(), 99_999_999);
    assert!(tree.nodes[0].moves.is_empty());
}

#[test]
fn a_fresh_root_has_registers_of_zero() {
    let mut tree: Tree<B, P, M, 3> = Tree {
        nodes: vec![Node::new(B::new(TicTacToeParams), None)],
    };
    assert_eq!(tree.nodes[0].registers, vec![Fixed::zero(); 3]);
    let mut algo: BarracudaAlgorithms<
        Random,
        barracuda::formula::Const,
        Uniform,
        Rave<B, P, M>,
        RandomPlayout<B, P, M, Uniform>,
        TranspositionTable<B, P, M, 3>,
    > = BarracudaAlgorithms {
        ucb_algorithms: vec![],
        ucb: Ucb::new(barracuda::formula::Const::new(Fixed::one())),
        policy: Uniform::new(),
        simulation_algorithms: vec![],
        simulation: RandomPlayout::new(usize::MAX, Uniform::new()),
        backprop_algorithms: vec![],
    };
    for _ in 0..20 {
        Node::search(&mut tree, &mut algo);
    }
    for node in tree.nodes.iter() {
        assert_eq!(node.registers, vec![Fixed::zero(); 3]);
    }
}

#[test]
fn the_budget_is_looked_at_between_iterations() {
    assert!(goes_on(0, 1));
    assert!(goes_on(999, 1000));
    assert!(!goes_on(1000, 1000));
    assert!(!goes_on(5, 0));
    assert!(report_due(201, 200));
    assert!(!report_due(200, 200));
    assert_eq!(next_report(250, 200), 450);
    assert_eq!(next_report(250, u64::MAX), u64::MAX);
    assert_eq!(next_report(u64::MAX, 1), u64::MAX);
}

#[test]
fn registered_hooks_are_told_of_every_event() {
    let start = B::new(TicTacToeParams);
    let mut tree: Tree<B, P, M, 2> = Tree {
        nodes: vec![Node::new(start, None)],
    };
    let mut table: TranspositionTable<B, P, M, 2> = TranspositionTable::new();
    table.seed(start, Fixed::zero(), Fixed::zero());
    let mut algo: BarracudaAlgorithms<
        Random,
        barracuda::formula::Const,
        Uniform,
        Rave<B, P, M>,
        RandomPlayout<B, P, M, Uniform>,
        TranspositionTable<B, P, M, 2>,
    > = BarracudaAlgorithms {
        ucb_algorithms: vec![Random::new(Fixed::from_raw(1000))],
        ucb: Ucb::new(barracuda::formula::Const::new(Fixed::one())),
        policy: Uniform::new(),
        simulation_algorithms: vec![Rave::new(0, 1)],
        simulation: RandomPlayout::new(usize::MAX, Uniform::new()),
        backprop_algorithms: vec![table],
    };
    let (path, value) = Node::search(&mut tree, &mut algo);
    assert_eq!(tree.nodes[path[1]].registers[1], Fixed::one());
    assert_eq!(tree.nodes[path[1]].registers[0], value);
    assert_eq!(tree.nodes[0].registers[1], Fixed::zero());
    for _ in 0..9 {
        Node::search(&mut tree, &mut algo);
    }
    let kept = &algo.backprop_algorithms[0];
    let seen = barracuda::formula::Formula::get(kept, &tree, 0, &sq(0, 0));
    let mean = tree.nodes[0].score.divided_by(Fixed::from_int(10));
    assert_eq!(seen, Fixed::one().minus(mean));
    let drawn = barracuda::formula::Formula::get(&algo.ucb_algorithms[0], &tree, 0, &sq(0, 0));
    assert!(drawn.raw() < 1000);
}
