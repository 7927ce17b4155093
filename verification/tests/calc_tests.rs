//! The calculator state machine: arithmetic commands, stack discipline,
//! shift layers, the display sub-machine, and input editing.

use flical::calc::{Calc, DispState, State};
use flical::disp::NumDisplay;
use flical::num::Num;

#[test]
fn test_arithmetic_simple() {
    let mut calc = Calc::new();

    calc.y = Num::decode("-1.0");
    calc.x = Num::decode("1.23456789012");
    calc.handle_command("ADD", "");

    assert_eq!(calc.y, Num::decode("0.0"));
    assert_eq!(calc.x, Num::decode("0.23456789012"));

    calc.y = Num::decode("2.0");
    calc.handle_command("SUB", "");
    assert_eq!(calc.y, Num::decode("0.0"));
    assert_eq!(calc.x, Num::decode("1.76543210988"));

    calc.y = Num::decode("2.0");
    calc.handle_command("MUL", "");
    assert_eq!(calc.y, Num::decode("0.0"));
    assert_eq!(calc.x, Num::decode("3.53086421976"));

    calc.y = Num::decode("-3.0");
    calc.handle_command("DIV", "");
    assert_eq!(calc.y, Num::decode("0.0"));
    assert_eq!(calc.x, Num::decode("-0.84965034430124"));
}

#[test]
fn add_snapshots_last_x() {
    let mut calc = Calc::new();
    calc.y = Num::decode("-1.0");
    calc.x = Num::decode("1.23456789012");
    calc.handle_command("ADD", "");
    assert_eq!(calc.y, Num::zero());
    assert_eq!(calc.x, Num::decode("0.23456789012"));
    assert_eq!(calc.last_x, Num::decode("1.23456789012"));
}

#[test]
fn digit_entry_sequence() {
    let mut calc = Calc::new();
    calc.handle_command("4", "");
    calc.handle_command("2", "");
    calc.handle_command("ENTER", "");
    calc.handle_command("3", "");
    calc.handle_command("ADD", "");
    assert_eq!(calc.x, Num::from_z(45));
    assert_eq!(calc.y, Num::zero());
}

#[test]
fn meta_cycles_back_to_base() {
    let mut calc = Calc::new();
    assert_eq!(calc.state, State::Base);
    calc.handle_command("META", "");
    assert_eq!(calc.state, State::Alt);
    calc.handle_command("META", "");
    assert_eq!(calc.state, State::Inv);
    calc.handle_command("META", "");
    assert_eq!(calc.state, State::Base);
}

#[test]
fn second_point_reports_fraction() {
    let mut calc = Calc::new();
    calc.handle_command("1", "");
    calc.handle_command("DOT", "");
    assert_eq!(calc.input, vec![b'1', b'.']);
    calc.handle_command("DOT", "");
    assert_eq!(calc.input, vec![b'1', b'/']);
    calc.handle_command("DOT", "");
    assert_eq!(calc.text, "Already a fraction");
    assert_eq!(calc.input, vec![b'1', b'/']);
}

#[test]
fn dot_conflicts_report_errors() {
    let mut calc = Calc::new();
    calc.handle_command("1", "");
    calc.handle_command("DOT", "");
    calc.handle_command("5", "");
    calc.handle_command("DOT", "");
    assert_eq!(calc.text, "Integer part not supported");

    let mut calc = Calc::new();
    for d in ["1", "2", "3", "4", "5", "6"] {
        calc.handle_command(d, "");
    }
    calc.handle_command("DOT", "");
    calc.handle_command("DOT", "");
    assert_eq!(calc.text, "Numerator too large");
}

#[test]
fn exponent_marker_conflicts() {
    let mut calc = Calc::new();
    calc.handle_command("1", "");
    calc.handle_command("E", "");
    calc.handle_command("5", "");
    calc.handle_command("E", "");
    assert_eq!(calc.text, "Error: Duplicate 'e'");

    let mut calc = Calc::new();
    calc.handle_command("1", "");
    calc.handle_command("DOT", "");
    calc.handle_command("DOT", "");
    calc.handle_command("E", "");
    assert_eq!(calc.text, "Error: No 'e' for fractions");
}

#[test]
fn stack_push_and_drop() {
    let mut calc = Calc::new();
    calc.t = Num::from_z(1);
    calc.z = Num::from_z(2);
    calc.y = Num::from_z(3);
    calc.x = Num::from_z(4);
    calc.up_with_x(Num::from_z(5));
    assert_eq!(calc.t, Num::from_z(2));
    assert_eq!(calc.z, Num::from_z(3));
    assert_eq!(calc.y, Num::from_z(4));
    assert_eq!(calc.x, Num::from_z(5));
    calc.down_with_x(Num::from_z(9));
    assert_eq!(calc.x, Num::from_z(9));
    assert_eq!(calc.y, Num::from_z(3));
    assert_eq!(calc.z, Num::from_z(2));
    assert_eq!(calc.t, Num::from_z(2));
}

#[test]
fn display_submachine_sets_fix() {
    let mut calc = Calc::new();
    calc.handle_command("DISP", "");
    assert_eq!(calc.state, State::Disp(DispState::DispStart));
    calc.handle_command("B", "");
    assert_eq!(calc.state, State::Disp(DispState::DispFix));
    calc.handle_command("4", "");
    assert_eq!(calc.state, State::Base);
    assert_eq!(calc.disp, NumDisplay::Fix(4));
    assert_eq!(calc.text, "Display set to: Fix(4)");
}

#[test]
fn enter_duplicates_x() {
    let mut calc = Calc::new();
    calc.x = Num::from_z(7);
    calc.handle_command("ENTER", "");
    assert_eq!(calc.x, Num::from_z(7));
    assert_eq!(calc.y, Num::from_z(7));
}

#[test]
fn rotations_cycle_registers() {
    let mut calc = Calc::new();
    calc.t = Num::from_z(1);
    calc.z = Num::from_z(2);
    calc.y = Num::from_z(3);
    calc.x = Num::from_z(4);
    calc.handle_command("R_UP", "");
    assert_eq!(
        (calc.t, calc.z, calc.y, calc.x),
        (Num::from_z(2), Num::from_z(3), Num::from_z(4), Num::from_z(1)),
    );
    calc.handle_command("R_DOWN", "");
    assert_eq!(
        (calc.t, calc.z, calc.y, calc.x),
        (Num::from_z(1), Num::from_z(2), Num::from_z(3), Num::from_z(4)),
    );
}

#[test]
fn display_shows_registers() {
    let mut calc = Calc::new();
    calc.x = Num::from_z(42);
    let screen = calc.display();
    let lines: Vec<&str> = screen.split('\n').collect();
    assert_eq!(lines.len(), 5);
    assert!(lines[3].starts_with("42"));
}

#[test]
fn unknown_command_is_ignored() {
    let mut calc = Calc::new();
    let flash = calc.handle_command("NO_SUCH", "");
    assert!(!flash);
    assert_eq!(calc.x, Num::zero());
}

#[test]
fn long_press_shows_phrase() {
    let mut calc = Calc::new();
    calc.x = Num::from_z(7);
    let flash = calc.handle_command("ADD_long", "one\ntwo\nthree");
    assert!(flash);
    assert_eq!(calc.text, "one\ntwo\nthree");
    assert_eq!(calc.scroll, 1);
    // a scroll command moves the window
    calc.handle_command("0", "");
    assert_eq!(calc.scroll, 2);
    calc.handle_command("2", "");
    assert_eq!(calc.scroll, 1);
    // any other command dismisses the overlay without further processing
    let flash = calc.handle_command("ENTER", "");
    assert!(!flash);
    assert_eq!(calc.text, "");
    assert_eq!(calc.y, Num::zero());
    // the next command runs normally again
    calc.handle_command("ENTER", "");
    assert_eq!(calc.y, Num::from_z(7));
}

#[test]
fn last_x_repushes_consumed_value() {
    let mut calc = Calc::new();
    calc.y = Num::from_z(40);
    calc.x = Num::from_z(2);
    calc.handle_command("ADD", "");
    assert_eq!(calc.x, Num::from_z(42));
    calc.handle_command("LAST_X", "");
    assert_eq!(calc.x, Num::from_z(2));
    assert_eq!(calc.y, Num::from_z(42));
}

#[test]
fn swaps_exchange_registers() {
    let mut calc = Calc::new();
    calc.z = Num::from_z(1);
    calc.y = Num::from_z(2);
    calc.x = Num::from_z(3);
    calc.handle_command("XY", "");
    assert_eq!((calc.y, calc.x), (Num::from_z(3), Num::from_z(2)));
    calc.handle_command("XZ", "");
    assert_eq!((calc.z, calc.x), (Num::from_z(2), Num::from_z(1)));
}

#[test]
fn del_edits_entry_then_clears_x() {
    let mut calc = Calc::new();
    calc.handle_command("4", "");
    calc.handle_command("2", "");
    calc.handle_command("DEL", "");
    assert_eq!(calc.input, vec![b'4']);
    calc.handle_command("DEL", "");
    assert_eq!(calc.input, Vec::<u8>::new());
    calc.x = Num::from_z(9);
    calc.handle_command("DEL", "");
    assert_eq!(calc.x, Num::zero());
}

#[test]
fn bad_entry_reports_status() {
    let mut calc = Calc::new();
    calc.handle_command("1", "");
    calc.handle_command("E", "");
    calc.handle_command("ENTER", "");
    assert_eq!(calc.text, "Error: Bad number");
    assert_eq!(calc.x, Num::zero());
}

#[test]
fn button_translation_follows_layer() {
    let mut calc = Calc::new();
    assert_eq!(calc.translate_button_press(10, false), "ADD");
    assert_eq!(calc.translate_button_press(10, true), "ADD_long");
    assert_eq!(calc.translate_button_press(24, false), "0");
    assert_eq!(calc.translate_button_press(25, false), "ALT");
    calc.state = State::Alt;
    assert_eq!(calc.translate_button_press(11, false), "SIN");
    assert_eq!(calc.translate_button_press(25, false), "INV");
    calc.state = State::Inv;
    assert_eq!(calc.translate_button_press(11, false), "ASIN");
    assert_eq!(calc.translate_button_press(25, false), "BASE");
    assert_eq!(calc.translate_button_press(200, false), "");
}
