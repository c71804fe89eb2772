use ante::labels::{resolve, LabelMap};
use ante::tokenize::{chars_of, tokenize};

// The suit weights are the glyphs' code points.
const DIAMONDS_W: u128 = 0x2666;
const HEARTS_W: u128 = 0x2665;

#[test]
fn map_put_get() {
    let mut m = LabelMap::new();
    assert_eq!(m.get(7), None);
    m.put(7, 40);
    m.put(9, 50);
    assert_eq!(m.get(7), Some(40));
    assert_eq!(m.get(9), Some(50));
    assert_eq!(m.get(8), None);
}

#[test]
fn map_later_binding_wins() {
    let mut m = LabelMap::new();
    m.put(7, 40);
    m.put(7, 41);
    assert_eq!(m.get(7), Some(41));
}

#[test]
fn single_queen_run_resolves() {
    // Tokens: marker, Q♦, Q♦ — the run ends at index 3 and its key is
    // twice the Diamonds weight.
    let code = tokenize(&chars_of("Q\u{2666}Q\u{2666}"));
    let labels = resolve(&code);
    assert_eq!(labels.get(2 * DIAMONDS_W), Some(3));
    assert_eq!(labels.get(DIAMONDS_W), None);
}

#[test]
fn runs_of_different_suits_are_independent() {
    // Tokens: marker, Q♦, Q♥ — two runs of one Queen each.
    let code = tokenize(&chars_of("Q\u{2666}Q\u{2665}"));
    let labels = resolve(&code);
    assert_eq!(labels.get(DIAMONDS_W), Some(2));
    assert_eq!(labels.get(HEARTS_W), Some(3));
}

#[test]
fn later_equal_run_overrides() {
    // Two separate one-Queen Diamonds runs share a key; the later one is
    // the binding kept.
    let code = tokenize(&chars_of("Q\u{2666}\nQ\u{2666}"));
    let labels = resolve(&code);
    assert_eq!(labels.get(DIAMONDS_W), Some(4));
}

#[test]
fn run_at_stream_end_still_resolves() {
    let code = tokenize(&chars_of("2\u{2666}Q\u{2665}"));
    let labels = resolve(&code);
    assert_eq!(labels.get(HEARTS_W), Some(3));
}
