use barracuda::cf::{CfParams, ConnectFour};
use barracuda::cf_eval::CfEval;
use barracuda::components::{Backprop, BarracudaSimulationParams, BarracudaUcbParams};
use barracuda::formula::Add;
use barracuda::extensions::{has_move, Mast, MoveMap, Rave, TranspositionTable};
use barracuda::fixed::Fixed;
use barracuda::formula::Formula;
use barracuda::mcts::{Node, Tree};
use barracuda::traits::{BarracudaBoard, Player};
use barracuda::ttt::{Square, TicTacToeBoard, TicTacToeParams};
use barracuda::ucb::{Exploration, ProgressiveBias, Random, Value};

type TttTree<const N: usize> = Tree<TicTacToeBoard, TicTacToeParams, Square, N>;
type CfTree<const N: usize> = Tree<ConnectFour, CfParams, usize, N>;

fn sq(x: usize, y: usize) -> Square {
    Square { x, y }
}

fn chain<const N: usize>(squares: &[Square]) -> TttTree<N> {
    let mut board = TicTacToeBoard::new(TicTacToeParams);
    let mut nodes = vec![Node::new(board, None)];
    for (i, mv) in squares.iter().enumerate() {
        nodes[i].moves = vec![*mv];
        nodes[i].child_nodes = vec![i + 1];
        board.make_move(*mv);
        nodes.push(Node::new(board, Some(i)));
    }
    Tree { nodes }
}

#[test]
fn move_table_keeps_the_first_outcome() {
    let mut table: MoveMap<usize> = MoveMap::new(Fixed::from_raw(5_000_000));
    assert_eq!(table.get(Player::P1, 3), None);
    table.add(Player::P1, 3, Fixed::one());
    assert_eq!(table.get(Player::P1, 3), Some(Fixed::one()));
}

#[test]
fn move_table_blends_later_outcomes() {
    let mut table: MoveMap<usize> = MoveMap::new(Fixed::from_raw(5_000_000));
    table.add(Player::P1, 3, Fixed::one());
    table.add(Player::P1, 3, Fixed::zero());
    assert_eq!(table.get(Player::P1, 3).unwrap().raw(), 95_000_000);
    table.add(Player::P1, 3, Fixed::zero());
    assert_eq!(table.get(Player::P1, 3).unwrap().raw(), 90_250_000);
    table.add(Player::P1, 3, Fixed::one());
    assert_eq!(table.get(Player::P1, 3).unwrap().raw(), 90_737_500);
}

#[test]
fn move_table_closes_in_on_a_repeated_outcome() {
    let rate = 25_000_000i64;
    let mut table: MoveMap<usize> = MoveMap::new(Fixed::from_raw(rate));
    table.add(Player::P2, 0, Fixed::zero());
    let mut distance = 100_000_000i64;
    for _ in 0..40 {
        table.add(Player::P2, 0, Fixed::one());
        let now = 100_000_000 - table.get(Player::P2, 0).unwrap().raw();
        assert!(now >= 0);
        assert!(now * 100_000_000 >= distance * (100_000_000 - rate));
        assert!(now * 100_000_000 < distance * (100_000_000 - rate) + 200_000_000);
        distance = now;
    }
    assert!(distance < 2_000);
}

#[test]
fn move_table_keys_do_not_interfere() {
    let mut table: MoveMap<usize> = MoveMap::new(Fixed::from_raw(50_000_000));
    table.add(Player::P1, 3, Fixed::one());
    table.add(Player::P2, 3, Fixed::zero());
    table.add(Player::P1, 4, Fixed::half());
    table.add(Player::P2, 3, Fixed::one());
    assert_eq!(table.get(Player::P1, 3), Some(Fixed::one()));
    assert_eq!(table.get(Player::P2, 3), Some(Fixed::half()));
    assert_eq!(table.get(Player::P1, 4), Some(Fixed::half()));
    assert_eq!(table.get(Player::P2, 4), None);
    assert_eq!(
        table.all_moves(),
        vec![
            ((Player::P1, 3), Fixed::one()),
            ((Player::P2, 3), Fixed::half()),
            ((Player::P1, 4), Fixed::half()),
        ]
    );
}

#[test]
fn has_move_compares_moves() {
    let moves = vec![sq(0, 1), sq(2, 2)];
    assert!(has_move(&moves, &sq(2, 2)));
    assert!(!has_move(&moves, &sq(1, 0)));
    assert!(!has_move(&vec![], &sq(0, 0)));
}

#[test]
fn value_is_one_minus_the_mean() {
    let mut tree: TttTree<0> = chain(&[sq(0, 0)]);
    tree.nodes[1].score = Fixed::from_int(3);
    tree.nodes[1].visits = Fixed::from_int(4);
    let value = Value::new();
    assert_eq!(value.get(&tree, 1, &sq(0, 0)).raw(), 25_000_000);
    assert_eq!(value.get(&tree, 0, &sq(0, 0)), Fixed::one());
}

#[test]
fn exploration_reads_the_visits_of_parent_and_node() {
    let mut tree: TttTree<0> = chain(&[sq(0, 0)]);
    tree.nodes[0].visits = Fixed::from_int(9);
    tree.nodes[1].visits = Fixed::from_int(4);
    assert_eq!(
        Exploration::visits_of(&tree, 1),
        Some((Fixed::from_int(9), Fixed::from_int(4)))
    );
    assert_eq!(Exploration::visits_of(&tree, 0), None);
}

#[test]
fn exploration_scales_the_root_by_the_temperature() {
    let tree: TttTree<0> = chain(&[sq(0, 0)]);
    let mut term = Exploration::new(Fixed::from_raw(141_400_000));
    assert_eq!(term.get(&tree, 1, &sq(0, 0)), Fixed::zero());
    term.stage(Some(Fixed::from_int(2)));
    assert_eq!(term.get(&tree, 1, &sq(0, 0)).raw(), 282_800_000);
    assert_eq!(term.get(&tree, 0, &sq(1, 1)).raw(), 282_800_000);
    term.stage(None);
    assert_eq!(term.get(&tree, 1, &sq(0, 0)), Fixed::zero());
}

#[test]
fn noise_stays_below_its_bound() {
    let mut tree: TttTree<0> = chain(&[]);
    let mut noise = Random::new(Fixed::from_raw(100_000));
    let mut distinct = std::collections::HashSet::new();
    for _ in 0..500 {
        noise.on_score(&mut tree, 0, &sq(0, 0));
        let drawn = noise.get(&tree, 0, &sq(0, 0)).raw();
        assert!(drawn >= 0 && drawn < 100_000);
        distinct.insert(drawn);
    }
    assert!(distinct.len() > 100);
    let mut none = Random::new(Fixed::zero());
    none.draw();
    assert_eq!(none.get(&tree, 0, &sq(0, 0)), Fixed::zero());
    let mut listed = Random::new(Fixed::from_raw(10));
    BarracudaUcbParams::set_node(&mut listed, &mut tree, 0, &sq(0, 0));
    assert!(listed.get(&tree, 0, &sq(0, 0)).raw() < 10);
}

#[test]
fn progressive_bias_evaluates_a_node_once() {
    let mut board = ConnectFour::new(CfParams::default());
    board.make_move(3);
    let mut tree: CfTree<2> = Tree {
        nodes: vec![Node::new(board, None)],
    };
    let mut bias: ProgressiveBias<ConnectFour, CfParams, usize, CfEval, 2> =
        ProgressiveBias::new(0, 1, CfEval {});
    tree.nodes[0].visits = Fixed::from_int(2);
    assert_eq!(bias.get(&tree, 0, &3), Fixed::one());
    bias.on_score(&mut tree, 0, &3);
    assert_eq!(tree.nodes[0].registers[0], Fixed::one());
    assert_eq!(tree.nodes[0].registers[1].raw(), -80_000_000);
    assert_eq!(bias.get(&tree, 0, &3).raw(), 140_000_000);
    tree.nodes[0].registers[1] = Fixed::from_int(1);
    BarracudaUcbParams::set_node(&mut bias, &mut tree, 0, &3);
    assert_eq!(tree.nodes[0].registers[1], Fixed::from_int(1));
    assert_eq!(bias.get(&tree, 0, &3).raw(), 50_000_000);
}

#[test]
fn mast_scores_by_the_value_of_the_last_move() {
    let mut tree: TttTree<0> = chain(&[sq(1, 1)]);
    let mut mast: Mast<TicTacToeBoard, TicTacToeParams, Square> =
        Mast::new(Fixed::from_raw(50_000_000));
    assert_eq!(mast.get(&tree, 1, &sq(1, 1)), Fixed::zero());
    BarracudaSimulationParams::set_node(&mut mast, &mut tree, 1, &sq(1, 1), Fixed::one());
    mast.on_playout(&mut tree, 1, &sq(1, 1), Fixed::zero());
    tree.nodes[1].visits = Fixed::from_int(2);
    assert_eq!(mast.get(&tree, 1, &sq(1, 1)).raw(), 25_000_000);
    assert_eq!(mast.get(&tree, 1, &sq(0, 0)), Fixed::zero());
    assert_eq!(mast.get(&tree, 0, &sq(1, 1)), Fixed::zero());
}

#[test]
fn mast_offers_scores_for_a_draw_of_moves() {
    let mut tree: TttTree<0> = chain(&[sq(1, 1)]);
    let mut mast: Mast<TicTacToeBoard, TicTacToeParams, Square> =
        Mast::new(Fixed::from_raw(50_000_000));
    BarracudaSimulationParams::set_node(&mut mast, &mut tree, 1, &sq(0, 2), Fixed::one());
    let board = tree.nodes[1].board;
    let moves = board.get_moves();
    let scores = mast.scores(&board, &moves);
    assert_eq!(scores.len(), 8);
    for (mv, score) in moves.iter().zip(scores.iter()) {
        if *mv == sq(0, 2) {
            assert_eq!(*score, Fixed::one());
        } else {
            assert_eq!(*score, Fixed::zero());
        }
    }
    let other = tree.nodes[0].board;
    let none = mast.scores(&other, &other.get_moves());
    assert!(none.iter().all(|s| *s == Fixed::zero()));
}

#[test]
fn rave_scores_by_its_registers() {
    let mut tree: TttTree<2> = chain(&[sq(0, 0)]);
    tree.nodes[1].registers[0] = Fixed::from_int(3);
    tree.nodes[1].registers[1] = Fixed::from_int(4);
    let rave: Rave<TicTacToeBoard, TicTacToeParams, Square> = Rave::new(0, 1);
    assert_eq!(rave.get(&tree, 1, &sq(0, 0)).raw(), 74_999_999);
    assert_eq!(rave.get(&tree, 0, &sq(0, 0)), Fixed::zero());
}

#[test]
fn rave_shares_a_result_with_every_second_ancestor_from_the_fourth() {
    let line = [
        sq(0, 0),
        sq(0, 1),
        sq(0, 2),
        sq(1, 1),
        sq(1, 0),
        sq(1, 2),
        sq(2, 1),
    ];
    let mut tree: TttTree<2> = chain(&line);
    let shared = sq(2, 2);
    for node in tree.nodes.iter_mut() {
        node.moves.push(shared);
        node.child_nodes.push(7);
    }
    tree.nodes[7].moves.clear();
    tree.nodes[7].child_nodes.clear();
    let mut rave: Rave<TicTacToeBoard, TicTacToeParams, Square> = Rave::new(0, 1);
    BarracudaSimulationParams::set_node(&mut rave, &mut tree, 7, &shared, Fixed::half());
    let touched: Vec<bool> = tree
        .nodes
        .iter()
        .map(|n| n.registers[1] == Fixed::one())
        .collect();
    assert_eq!(
        touched,
        vec![false, true, false, true, false, false, false, true]
    );
    assert_eq!(tree.nodes[7].registers[0], Fixed::half());
    assert_eq!(tree.nodes[3].registers[0], Fixed::half());
    assert_eq!(tree.nodes[1].registers[0], Fixed::half());
    assert_eq!(tree.nodes[5].registers[0], Fixed::zero());
}

#[test]
fn rave_skips_ancestors_without_the_move() {
    let line = [sq(0, 0), sq(0, 1), sq(0, 2), sq(1, 1), sq(1, 0)];
    let mut tree: TttTree<2> = chain(&line);
    let mut rave: Rave<TicTacToeBoard, TicTacToeParams, Square> = Rave::new(0, 1);
    BarracudaSimulationParams::set_node(&mut rave, &mut tree, 5, &sq(2, 2), Fixed::one());
    assert_eq!(tree.nodes[5].registers[0], Fixed::one());
    assert_eq!(tree.nodes[5].registers[1], Fixed::one());
    for i in 0..5 {
        assert_eq!(tree.nodes[i].registers[0], Fixed::zero());
        assert_eq!(tree.nodes[i].registers[1], Fixed::zero());
    }
    BarracudaSimulationParams::set_node(&mut rave, &mut tree, 5, &sq(0, 1), Fixed::one());
    assert_eq!(tree.nodes[5].registers[0], Fixed::from_int(2));
    assert_eq!(tree.nodes[1].registers[0], Fixed::one());
    assert_eq!(tree.nodes[1].registers[1], Fixed::one());
    assert_eq!(tree.nodes[0].registers[1], Fixed::zero());
}

#[test]
fn rave_without_its_registers_leaves_the_tree_alone() {
    let mut tree: TttTree<1> = chain(&[sq(0, 0)]);
    let mut rave: Rave<TicTacToeBoard, TicTacToeParams, Square> = Rave::new(0, 1);
    BarracudaSimulationParams::set_node(&mut rave, &mut tree, 1, &sq(0, 0), Fixed::one());
    assert_eq!(tree.nodes[1].registers[0], Fixed::zero());
    assert_eq!(rave.get(&tree, 1, &sq(0, 0)), Fixed::zero());
}

#[test]
fn transposition_table_is_not_seeded_by_the_search() {
    let mut tree: TttTree<0> = chain(&[sq(0, 0)]);
    let mut table: TranspositionTable<TicTacToeBoard, TicTacToeParams, Square, 0> =
        TranspositionTable::new();
    table.backprop(&mut tree, 1, Fixed::one());
    table.on_backprop(&mut tree, 1, Fixed::one());
    assert_eq!(table.get(&tree, 1, &sq(0, 0)), Fixed::zero());
}

#[test]
fn transposition_table_updates_the_entries_it_has() {
    let mut tree: TttTree<0> = chain(&[sq(0, 0)]);
    let mut table: TranspositionTable<TicTacToeBoard, TicTacToeParams, Square, 0> =
        TranspositionTable::new();
    table.seed(tree.nodes[1].board, Fixed::one(), Fixed::from_int(2));
    assert_eq!(table.get(&tree, 1, &sq(0, 0)).raw(), 50_000_000);
    table.backprop(&mut tree, 1, Fixed::one());
    table.on_backprop(&mut tree, 0, Fixed::one());
    assert_eq!(table.get(&tree, 1, &sq(0, 0)).raw(), 33_333_334);
    assert_eq!(table.get(&tree, 0, &sq(0, 0)), Fixed::zero());
}

#[test]
fn transposition_table_shares_by_position() {
    let first: TttTree<0> = chain(&[sq(0, 0), sq(1, 1), sq(2, 2)]);
    let mut second: TttTree<0> = chain(&[sq(2, 2), sq(1, 1), sq(0, 0)]);
    let mut table: TranspositionTable<TicTacToeBoard, TicTacToeParams, Square, 0> =
        TranspositionTable::new();
    table.seed(first.nodes[3].board, Fixed::zero(), Fixed::one());
    table.backprop(&mut second, 3, Fixed::one());
    assert_eq!(table.get(&second, 3, &sq(0, 0)).raw(), 50_000_000);
    table.clear();
    assert_eq!(table.get(&second, 3, &sq(0, 0)), Fixed::zero());
}

#[test]
fn a_sum_passes_events_on_to_its_parts() {
    let mut tree: TttTree<2> = chain(&[sq(0, 0)]);
    let mut sum: Add<Rave<TicTacToeBoard, TicTacToeParams, Square>> =
        Add::new(vec![Rave::new(0, 1), Rave::new(1, 0)]);
    sum.on_playout(&mut tree, 1, &sq(0, 0), Fixed::one());
    assert_eq!(tree.nodes[1].registers[0], Fixed::from_int(2));
    assert_eq!(tree.nodes[1].registers[1], Fixed::from_int(2));
    assert_eq!(sum.get(&tree, 1, &sq(0, 0)).raw(), 2 * 99_999_999);
    sum.on_score(&mut tree, 1, &sq(0, 0));
    sum.on_backprop(&mut tree, 1, Fixed::one());
    assert_eq!(tree.nodes[1].registers[0], Fixed::from_int(2));
}
