use ante::token::{Rank, Suit, Token};
use ante::tokenize::{chars_of, tokenize};

fn toks(src: &str) -> Vec<Token> {
    tokenize(&chars_of(src))
}

#[test]
fn end_to_end_scenario_tokens() {
    let code = toks("5\u{2666}\n10\u{2666}");
    assert_eq!(
        code,
        vec![
            Token::Line(1),
            Token::Card(Rank::Num(5), Suit::Diamonds),
            Token::Line(2),
            Token::Card(Rank::Num(10), Suit::Diamonds),
        ]
    );
}

#[test]
fn comments_are_stripped() {
    let code = toks("2\u{2666} #3\u{2665}");
    assert_eq!(code, vec![Token::Line(1), Token::Card(Rank::Num(2), Suit::Diamonds)]);
}

#[test]
fn stripping_is_idempotent() {
    // Tokenizing a line already stripped of comment and blanks gives the
    // same tokens as tokenizing the original line.
    let original = "  2\u{2666} 3\u{2665} # the rest 4\u{2660}";
    let prepared = "2\u{2666} 3\u{2665}";
    assert_eq!(toks(original), toks(prepared));
}

#[test]
fn unmatched_characters_are_skipped() {
    let code = toks("xxA10\u{2666}yy");
    assert_eq!(code, vec![Token::Line(1), Token::Card(Rank::Num(10), Suit::Diamonds)]);
}

#[test]
fn blank_and_comment_lines_still_count() {
    let code = toks("\n#c\n2\u{2666}");
    assert_eq!(
        code,
        vec![
            Token::Line(1),
            Token::Line(2),
            Token::Line(3),
            Token::Card(Rank::Num(2), Suit::Diamonds),
        ]
    );
}

#[test]
fn trailing_newline_opens_no_line() {
    let code = toks("2\u{2666}\n");
    assert_eq!(code, vec![Token::Line(1), Token::Card(Rank::Num(2), Suit::Diamonds)]);
}

#[test]
fn ten_needs_both_symbols() {
    // `102♦`: the `10` is not followed by a suit, so only `2♦` matches.
    let code = toks("102\u{2666}");
    assert_eq!(code, vec![Token::Line(1), Token::Card(Rank::Num(2), Suit::Diamonds)]);
}

#[test]
fn all_ranks_and_suits() {
    let code = toks("2\u{2666}9\u{2665}10\u{2660}J\u{2663}Q\u{2666}K\u{2665}A\u{2660}");
    assert_eq!(
        code,
        vec![
            Token::Line(1),
            Token::Card(Rank::Num(2), Suit::Diamonds),
            Token::Card(Rank::Num(9), Suit::Hearts),
            Token::Card(Rank::Num(10), Suit::Spades),
            Token::Card(Rank::Jack, Suit::Clubs),
            Token::Card(Rank::Queen, Suit::Diamonds),
            Token::Card(Rank::King, Suit::Hearts),
            Token::Card(Rank::Ace, Suit::Spades),
        ]
    );
}

#[test]
fn empty_source_has_no_tokens() {
    let code = toks("");
    assert_eq!(code, Vec::<Token>::new());
}
