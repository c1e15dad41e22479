use barracuda::cf::{CfParams, ConnectFour};
use barracuda::cli::CommandOut;
use barracuda::debugger::{BarracudaDebug, Debugger, NoDebug, NEVER};
use barracuda::fixed::Fixed;
use barracuda::text::{decimal, digit, fixed_to_text, padded};
use barracuda::traits::BarracudaBoard;
use barracuda::ttt::{Square, TicTacToeBoard, TicTacToeParams};

#[test]
fn digits_are_single_characters() {
    let all: Vec<&str> = (0..10).map(digit).collect();
    assert_eq!(all, vec!["0", "1", "2", "3", "4", "5", "6", "7", "8", "9"]);
}

#[test]
fn numbers_are_written_without_leading_zeros() {
    assert_eq!(decimal(0), "0");
    assert_eq!(decimal(7), "7");
    assert_eq!(decimal(10), "10");
    assert_eq!(decimal(1_234_567_890), "1234567890");
    assert_eq!(decimal(u64::MAX), "18446744073709551615");
}

#[test]
fn padded_numbers_keep_their_width() {
    assert_eq!(padded(42, 8), "00000042");
    assert_eq!(padded(12_345_678, 8), "12345678");
    assert_eq!(padded(123, 2), "23");
    assert_eq!(padded(5, 0), "");
}

#[test]
fn fixed_numbers_show_eight_digits_after_the_point() {
    assert_eq!(fixed_to_text(Fixed::half()), "0.50000000");
    assert_eq!(fixed_to_text(Fixed::zero()), "0.00000000");
    assert_eq!(fixed_to_text(Fixed::from_raw(-125_000_000)), "-1.25000000");
    assert_eq!(fixed_to_text(Fixed::from_raw(-1)), "-0.00000001");
    assert_eq!(fixed_to_text(Fixed::from_int(30)), "30.00000000");
    assert_eq!(fixed_to_text(Fixed::max_value()), "92233720368.54775807");
    assert_eq!(fixed_to_text(Fixed::min_value()), "-92233720368.54775808");
}

#[test]
fn the_silent_debugger_says_nothing() {
    let board = TicTacToeBoard::new(TicTacToeParams);
    let text = <NoDebug as Debugger<TicTacToeBoard, TicTacToeParams, Square>>::debug(
        &board,
        Fixed::half(),
        3,
        1,
        &[Square { x: 0, y: 0 }],
    );
    assert_eq!(text, "");
    assert_eq!(NoDebug::interval(), NEVER);
    assert_eq!(
        <NoDebug as Debugger<TicTacToeBoard, TicTacToeParams, Square>>::sampling_rate(),
        u64::MAX
    );
}

#[test]
fn the_debugger_reports_the_line_of_play() {
    let board = TicTacToeBoard::new(TicTacToeParams);
    let text = <BarracudaDebug as Debugger<TicTacToeBoard, TicTacToeParams, Square>>::debug(
        &board,
        Fixed::from_raw(62_500_000),
        12,
        2,
        &[Square { x: 0, y: 0 }, Square { x: 1, y: 1 }],
    );
    assert_eq!(text, "pwin: 0.62500000 visits: 12 depth: 2 pv: (0, 0) (1, 1) ");
    assert_eq!(BarracudaDebug::interval(), 200);
    assert_eq!(
        <BarracudaDebug as Debugger<TicTacToeBoard, TicTacToeParams, Square>>::sampling_rate(),
        200
    );
}

#[test]
fn the_debugger_reports_an_empty_line() {
    let board = ConnectFour::new(CfParams::default());
    let text = <BarracudaDebug as Debugger<ConnectFour, CfParams, usize>>::debug(
        &board,
        Fixed::zero(),
        0,
        0,
        &[],
    );
    assert_eq!(text, "pwin: 0.00000000 visits: 0 depth: 0 pv: ");
    let line = <BarracudaDebug as Debugger<ConnectFour, CfParams, usize>>::debug(
        &board,
        Fixed::one(),
        4_000_000_000,
        3,
        &[3, 4, 3],
    );
    assert_eq!(line, "pwin: 1.00000000 visits: 4000000000 depth: 3 pv: 3 4 3 ");
}

#[test]
fn a_command_ends_in_one_of_three_ways() {
    let done: CommandOut<bool, String, String> = CommandOut::Success(true);
    let warned: CommandOut<bool, String, String> = CommandOut::Warning((true, format!("more")));
    let refused: CommandOut<bool, String, String> = CommandOut::Error(format!("no"));
    assert!(matches!(done, CommandOut::Success(true)));
    assert!(matches!(warned, CommandOut::Warning((true, _))));
    assert!(matches!(refused, CommandOut::Error(_)));
}
