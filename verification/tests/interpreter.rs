use ante::machine::{Machine, RunError, RunOutcome};
use ante::token::{Rank, Suit, Token};
use num::BigInt;

const FUEL: usize = 100_000;

fn run_source(src: &str) -> (Machine, RunOutcome) {
    let mut m = Machine::new(src);
    let r = m.run(FUEL);
    (m, r)
}

#[test]
fn assignment_folds_left_to_right() {
    // 2♦ 3♥: start at 2, multiply by 3; Diamonds ends at 6.
    let (m, r) = run_source("2\u{2666}3\u{2665}");
    assert!(matches!(r, RunOutcome::Done));
    assert_eq!(m.regs.get(Suit::Diamonds), &BigInt::from(6));
}

#[test]
fn four_operators() {
    // 9♦ 2♥ 3♠ 4♦ 5♣: ((9 * 2) - 3 + 4) / 5 = 19 / 5 = 3.
    let (m, r) = run_source("9\u{2666}2\u{2665}3\u{2660}4\u{2666}5\u{2663}");
    assert!(matches!(r, RunOutcome::Done));
    assert_eq!(m.regs.get(Suit::Diamonds), &BigInt::from(3));
}

#[test]
fn ace_reads_a_register() {
    // Line 1 sets Hearts = 7; on line 2 the operand A♥ resolves to the
    // Hearts register and its suit multiplies: Diamonds = 2 * 7 = 14.
    let (m, r) = run_source("7\u{2665}\n2\u{2666}A\u{2665}");
    assert!(matches!(r, RunOutcome::Done));
    assert_eq!(m.regs.get(Suit::Diamonds), &BigInt::from(14));
}

#[test]
fn single_operand_overwrites() {
    // A one-card assignment replaces the register outright.
    let (m, r) = run_source("5\u{2666}\n7\u{2666}");
    assert!(matches!(r, RunOutcome::Done));
    assert_eq!(m.regs.get(Suit::Diamonds), &BigInt::from(7));
}

#[test]
fn end_to_end_scenario_executes() {
    // 5♦ assigns Diamonds = 5; the lone 10♦ heading a dispatch dumps that
    // register as a number.
    let (m, r) = run_source("5\u{2666}\n10\u{2666}");
    assert!(matches!(r, RunOutcome::Done));
    assert_eq!(m.output, b"5".to_vec());
    assert_eq!(m.regs.get(Suit::Diamonds), &BigInt::from(5));
}

#[test]
fn dump_number_of_fresh_register() {
    let (m, r) = run_source("10\u{2666}");
    assert!(matches!(r, RunOutcome::Done));
    assert_eq!(m.output, b"0".to_vec());
}

#[test]
fn dump_negative_number() {
    // 2♦ 5♠: Diamonds = 2 - 5 = -3.
    let (m, r) = run_source("2\u{2666}5\u{2660}\n10\u{2666}");
    assert!(matches!(r, RunOutcome::Done));
    assert_eq!(m.output, b"-3".to_vec());
}

#[test]
fn arithmetic_is_arbitrary_precision() {
    // 9 multiplied by ten twenty times: 9 * 10^20, past any fixed width.
    let tens = "10\u{2665}".repeat(20);
    let src = format!("9\u{2666}{}\n10\u{2666}", tens);
    let (m, r) = run_source(&src);
    assert!(matches!(r, RunOutcome::Done));
    assert_eq!(m.output, b"900000000000000000000".to_vec());
}

#[test]
fn division_by_zero_aborts_and_keeps_register() {
    // The operand run 5♦ 0♣ divides by a zero literal; built directly
    // since no card symbol writes a zero rank.
    let code = vec![
        Token::Line(1),
        Token::Card(Rank::Num(3), Suit::Diamonds),
        Token::Line(2),
        Token::Card(Rank::Num(5), Suit::Diamonds),
        Token::Card(Rank::Num(0), Suit::Clubs),
    ];
    let mut m = Machine::from_code(code);
    let r = m.run(FUEL);
    assert!(matches!(r, RunOutcome::Failed(RunError::DivisionByZero)));
    assert_eq!(m.regs.get(Suit::Diamonds), &BigInt::from(3));
    assert_eq!(m.line, 2);
}

#[test]
fn division_by_zero_through_ace() {
    // A♣ resolves to the Clubs register, which still holds zero.
    let (m, r) = run_source("5\u{2666}A\u{2663}");
    assert!(matches!(r, RunOutcome::Failed(RunError::DivisionByZero)));
    assert_eq!(m.regs.get(Suit::Diamonds), &BigInt::from(0));
    assert_eq!(m.line, 1);
    assert_eq!(m.pc, 3);
}

#[test]
fn character_dump_emits_a() {
    // 7 * 9 + 2 = 65; the Jack dumps it as the character "A".
    let (m, r) = run_source("7\u{2666}9\u{2665}2\u{2666}\nJ\u{2666}");
    assert!(matches!(r, RunOutcome::Done));
    assert_eq!(m.output, b"A".to_vec());
}

#[test]
fn character_dump_assembles_multibyte() {
    // 2*10*10 - 5 = 195 and 9*9*2 + 7 = 169: the bytes 0xC3 0xA9, which
    // only together form the character "é".
    let (m, r) = run_source(
        "2\u{2666}10\u{2665}10\u{2665}5\u{2660}\nJ\u{2666}\n9\u{2666}9\u{2665}2\u{2665}7\u{2666}\nJ\u{2666}",
    );
    assert!(matches!(r, RunOutcome::Done));
    assert_eq!(m.output, "\u{e9}".as_bytes().to_vec());
}

#[test]
fn incomplete_character_is_not_emitted() {
    let (m, r) = run_source("2\u{2666}10\u{2665}10\u{2665}5\u{2660}\nJ\u{2666}");
    assert!(matches!(r, RunOutcome::Done));
    assert_eq!(m.output, Vec::<u8>::new());
    assert_eq!(m.buffer, vec![0xc3]);
}

#[test]
fn character_dump_rejects_large_value() {
    // 9 * 9 * 9 = 729 is outside 0..=255.
    let (m, r) = run_source("9\u{2666}9\u{2665}9\u{2665}\nJ\u{2666}");
    match r {
        RunOutcome::Failed(RunError::CharOutOfRange { value }) => {
            assert_eq!(value, BigInt::from(729));
        },
        _ => panic!("expected a character range failure"),
    }
    assert_eq!(m.output, Vec::<u8>::new());
}

#[test]
fn character_dump_rejects_negative_value() {
    let (_, r) = run_source("2\u{2666}5\u{2660}\nJ\u{2666}");
    match r {
        RunOutcome::Failed(RunError::CharOutOfRange { value }) => {
            assert_eq!(value, BigInt::from(-3));
        },
        _ => panic!("expected a character range failure"),
    }
}

#[test]
fn jump_skips_to_label() {
    // Diamonds is nonzero, so the King jumps past the 3♥ line to the
    // label at the end; Hearts stays zero.
    let (m, r) = run_source("2\u{2666}\nK\u{2666}\n3\u{2665}\nQ\u{2666}");
    assert!(matches!(r, RunOutcome::Done));
    assert_eq!(m.regs.get(Suit::Hearts), &BigInt::from(0));
}

#[test]
fn jump_falls_through_on_zero() {
    let (m, r) = run_source("K\u{2666}\n2\u{2665}\nQ\u{2666}");
    assert!(matches!(r, RunOutcome::Done));
    assert_eq!(m.regs.get(Suit::Hearts), &BigInt::from(2));
}

#[test]
fn backward_jump_loops_until_zero() {
    // 4♦, then a loop body that subtracts 2 from Diamonds and jumps back
    // while it is nonzero: 4 → 2 → 0.
    let (m, r) = run_source("4\u{2666}\nQ\u{2666}A\u{2666}2\u{2660}K\u{2666}");
    assert!(matches!(r, RunOutcome::Done));
    assert_eq!(m.regs.get(Suit::Diamonds), &BigInt::from(0));
}

#[test]
fn jump_run_must_match_label_run_length() {
    // The label is two Queens of Hearts; a single King of Hearts denotes
    // a different key, so the jump fails.
    let (_, r) = run_source("2\u{2665}Q\u{2665}Q\u{2665}\nK\u{2665}");
    match r {
        RunOutcome::Failed(RunError::LabelNotFound { suit, count }) => {
            assert!(matches!(suit, Suit::Hearts));
            assert_eq!(count, 1);
        },
        _ => panic!("expected a missing label failure"),
    }
}

#[test]
fn double_king_reaches_double_queen_label() {
    // Label: two Queens of Hearts; jump: two Kings of Hearts.  The jump
    // lands just past the label, skipping the 9♥ in between.
    let (m, r) = run_source("2\u{2665}\nK\u{2665}K\u{2665}\n9\u{2665}\nQ\u{2665}Q\u{2665}");
    assert!(matches!(r, RunOutcome::Done));
    assert_eq!(m.regs.get(Suit::Hearts), &BigInt::from(2));
}

#[test]
fn missing_label_reports_suit_and_count() {
    let (m, r) = run_source("2\u{2665}\nK\u{2665}");
    match r {
        RunOutcome::Failed(RunError::LabelNotFound { suit, count }) => {
            assert!(matches!(suit, Suit::Hearts));
            assert_eq!(count, 1);
        },
        _ => panic!("expected a missing label failure"),
    }
    assert_eq!(m.line, 2);
}

#[test]
fn nonterminating_program_runs_out_of_steps() {
    // The King always sees a nonzero Diamonds register and jumps back to
    // the no-op assignment forever.
    let (_, r) = run_source("2\u{2666}\nQ\u{2666}A\u{2666}K\u{2666}");
    assert!(matches!(r, RunOutcome::OutOfSteps));
}

#[test]
fn take_output_drains() {
    let (mut m, r) = run_source("10\u{2666}");
    assert!(matches!(r, RunOutcome::Done));
    let out = m.take_output();
    assert_eq!(out, b"0".to_vec());
    assert_eq!(m.output, Vec::<u8>::new());
}

#[test]
fn boundary_stops_operand_run_mid_line() {
    // The Queen ends the first assignment's operand run even though the
    // line goes on: Diamonds keeps 2 and the 3♥ starts its own assignment.
    let (m, r) = run_source("2\u{2666}Q\u{2660}3\u{2665}");
    assert!(matches!(r, RunOutcome::Done));
    assert_eq!(m.regs.get(Suit::Diamonds), &BigInt::from(2));
    assert_eq!(m.regs.get(Suit::Hearts), &BigInt::from(3));
}

#[test]
fn jump_on_zero_consumes_whole_king_run() {
    // Hearts is zero, so the double King falls through as a unit and the
    // next line still executes.
    let (m, r) = run_source("K\u{2665}K\u{2665}\n2\u{2665}");
    assert!(matches!(r, RunOutcome::Done));
    assert_eq!(m.regs.get(Suit::Hearts), &BigInt::from(2));
}

#[test]
fn empty_program_halts_at_once() {
    let mut m = Machine::from_code(Vec::new());
    let r = m.run(FUEL);
    assert!(matches!(r, RunOutcome::Done));
    assert_eq!(m.output, Vec::<u8>::new());
}
