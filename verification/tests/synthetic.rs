use barracuda::components::Ucb;
use barracuda::extensions::{Rave, TranspositionTable};
use barracuda::fixed::{Fixed, SCALE};
use barracuda::formula::Const;
use barracuda::mcts::{BarracudaAlgorithms, Node, Tree};
use barracuda::policy::Uniform;
use barracuda::simulate::RandomPlayout;
use barracuda::traits::{BarracudaBoard, BarracudaMove, BarracudaParams, GameState, Player};
use barracuda::ucb::Random;
use vstd::seq::Seq;
use vstd::view::View;

/// A pile of stones: the sides take one stone in turn, and when the pile is
/// gone the first side has won, whoever took the last stone.
#[derive(Clone, Copy, Debug, PartialEq, Eq)]
struct Pile {
    left: u8,
    turn: Player,
}

#[derive(Clone, Copy, Debug, PartialEq, Eq)]
struct Take;

struct Stones(u8);

impl BarracudaMove for Take {
    fn same(&self, _other: &Self) -> bool {
        true
    }
}

impl BarracudaParams for Stones {}

impl View for Pile {
    type V = Pile;

    fn view(&self) -> Pile {
        unreachable!()
    }
}

impl BarracudaBoard<Stones, Take> for Pile {
    fn valid(_p: Pile) -> bool {
        unreachable!()
    }

    fn accepts(_params: Stones) -> bool {
        unreachable!()
    }

    fn initial(_params: Stones) -> Pile {
        unreachable!()
    }

    fn legal(_p: Pile, _mv: Take) -> bool {
        unreachable!()
    }

    fn legal_moves(_p: Pile) -> Seq<Take> {
        unreachable!()
    }

    fn play(_p: Pile, _mv: Take) -> Pile {
        unreachable!()
    }

    fn state_of(_p: Pile) -> GameState {
        unreachable!()
    }

    fn to_move(_p: Pile) -> Player {
        unreachable!()
    }

    fn move_text(_mv: Take) -> Seq<char> {
        unreachable!()
    }

    fn enumeration_is_exact(_p: Pile, _mv: Take) {}

    fn stuck_is_over(_p: Pile) {}

    fn new(params: Stones) -> Self {
        Pile {
            left: params.0,
            turn: Player::P1,
        }
    }

    fn make_move(&mut self, _mv: Take) {
        assert!(self.left > 0);
        self.left -= 1;
        self.turn = self.turn.other();
    }

    fn get_moves(&self) -> Vec<Take> {
        if self.left > 0 {
            vec![Take]
        } else {
            vec![]
        }
    }

    fn game_state(&self) -> GameState {
        if self.left == 0 {
            GameState::End(Some(Player::P1))
        } else {
            GameState::Ongoing
        }
    }

    fn turn(&self) -> Player {
        self.turn
    }

    fn move_to_str(&self, _mv: Take) -> String {
        format!("take")
    }

    fn duplicate(&self) -> Self {
        *self
    }

    fn same_position(&self, other: &Self) -> bool {
        self == other
    }
}

type Algorithms = BarracudaAlgorithms<
    Random,
    Const,
    Uniform,
    Rave<Pile, Stones, Take>,
    RandomPlayout<Pile, Stones, Take, Uniform>,
    TranspositionTable<Pile, Stones, Take, 0>,
>;

fn algorithms() -> Algorithms {
    BarracudaAlgorithms {
        ucb_algorithms: vec![],
        ucb: Ucb::new(Const::new(Fixed::zero())),
        policy: Uniform::new(),
        simulation_algorithms: vec![],
        simulation: RandomPlayout::new(usize::MAX, Uniform::new()),
        backprop_algorithms: vec![],
    }
}

fn mean(node: &Node<Pile, Stones, Take, 0>) -> f64 {
    node.eval().raw() as f64 / SCALE as f64
}

#[test]
fn a_game_from_outside_is_searched() {
    let mut tree: Tree<Pile, Stones, Take, 0> = Tree {
        nodes: vec![Node::new(Pile::new(Stones(3)), None)],
    };
    let mut algo = algorithms();
    let mut paths = vec![];
    let mut values = vec![];
    for _ in 0..5 {
        let (path, value) = Node::search(&mut tree, &mut algo);
        paths.push(path);
        values.push(value.raw());
    }
    assert_eq!(
        paths,
        vec![
            vec![0, 1],
            vec![0, 1, 2],
            vec![0, 1, 2, 3],
            vec![0, 1, 2, 3],
            vec![0, 1, 2, 3]
        ]
    );
    assert_eq!(values, vec![0, SCALE, 0, SCALE, SCALE]);
    assert_eq!(tree.nodes.len(), 4);
    assert_eq!(tree.nodes[3].board.left, 0);
    assert_eq!(tree.nodes[0].score, Fixed::from_int(3));
    assert_eq!(tree.nodes[1].score, Fixed::from_int(2));
    assert_eq!(tree.nodes[2].score, Fixed::from_int(2));
    assert_eq!(tree.nodes[3].score, Fixed::from_int(2));
}

#[test]
fn the_means_of_a_forced_win_settle_at_the_ends() {
    let mut tree: Tree<Pile, Stones, Take, 0> = Tree {
        nodes: vec![Node::new(Pile::new(Stones(3)), None)],
    };
    let mut algo = algorithms();
    let mut last = 2.0;
    for round in 0..6 {
        for _ in 0..500 {
            Node::search(&mut tree, &mut algo);
        }
        let now = mean(&tree.nodes[0]);
        assert!(now < last);
        last = now;
        assert_eq!(tree.nodes[0].visits(), 500 * (round + 1));
    }
    assert!(mean(&tree.nodes[0]) < 0.002);
    assert!(mean(&tree.nodes[1]) > 0.998);
    assert!(mean(&tree.nodes[2]) < 0.002);
    assert!(mean(&tree.nodes[3]) > 0.998);
    assert_eq!(Node::pv(&tree, 0), vec![Take, Take, Take]);
}
