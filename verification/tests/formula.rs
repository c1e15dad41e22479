use barracuda::fixed::Fixed;
use barracuda::formula::{Add, Const, Div, Formula, Mul, Sub};
use barracuda::mcts::{Node, Tree};
use barracuda::traits::BarracudaBoard;
use barracuda::ttt::{Square, TicTacToeBoard, TicTacToeParams};

fn read<F: Formula<TicTacToeBoard, TicTacToeParams, Square, 0>>(formula: &F) -> Fixed {
    let tree: Tree<TicTacToeBoard, TicTacToeParams, Square, 0> = Tree {
        nodes: vec![Node::new(TicTacToeBoard::new(TicTacToeParams), None)],
    };
    formula.get(&tree, 0, &Square { x: 0, y: 0 })
}

fn constants(values: &[i64]) -> Vec<Const> {
    values.iter().map(|v| Const::new(Fixed::from_int(*v))).collect()
}

#[test]
fn constant_reads_its_value() {
    assert_eq!(read(&Const::new(Fixed::from_raw(123))).raw(), 123);
}

#[test]
fn sum_of_two_three_five_is_ten() {
    let sum = Add::new(constants(&[2, 3, 5]));
    assert_eq!(read(&sum), Fixed::from_int(10));
}

#[test]
fn product_of_two_three_five_is_thirty() {
    let product = Mul::new(constants(&[2, 3, 5]));
    assert_eq!(read(&product), Fixed::from_int(30));
}

#[test]
fn difference_of_seven_and_two_is_five() {
    let difference = Sub::new(Const::new(Fixed::from_int(7)), Const::new(Fixed::from_int(2)));
    assert_eq!(read(&difference), Fixed::from_int(5));
}

#[test]
fn quotient_of_seven_and_two_is_three_and_a_half() {
    let quotient = Div::new(Const::new(Fixed::from_int(7)), Const::new(Fixed::from_int(2)));
    assert_eq!(read(&quotient).raw(), 350_000_000);
}

#[test]
fn division_by_a_zero_leaf_is_unbounded_not_a_crash() {
    let quotient = Div::new(Const::new(Fixed::from_int(7)), Const::new(Fixed::zero()));
    assert_eq!(read(&quotient), Fixed::max_value());
    let negative = Div::new(Const::new(Fixed::from_int(-7)), Const::new(Fixed::zero()));
    assert_eq!(read(&negative), Fixed::min_value());
}

#[test]
fn empty_sum_is_zero_and_empty_product_is_one() {
    assert_eq!(read(&Add::new(constants(&[]))), Fixed::zero());
    assert_eq!(read(&Mul::new(constants(&[]))), Fixed::one());
}

#[test]
fn expressions_nest() {
    let inner = Sub::new(
        Add::new(constants(&[1, 2, 3])),
        Mul::new(constants(&[2, 2])),
    );
    let outer = Div::new(inner, Const::new(Fixed::from_int(4)));
    assert_eq!(read(&outer).raw(), 50_000_000);
}

#[test]
fn unbounded_sums_stay_at_the_end_of_the_range() {
    let sum = Add::new(vec![
        Const::new(Fixed::max_value()),
        Const::new(Fixed::one()),
    ]);
    assert_eq!(read(&sum), Fixed::max_value());
}
