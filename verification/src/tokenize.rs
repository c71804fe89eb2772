//! The tokenizer: source text to the instruction stream.
//!
//! The text is split into lines; each line is stripped of its comment (from
//! the first `#` to the end of the line) and of surrounding blanks, then
//! scanned left to right for cards, a rank symbol immediately followed by a
//! suit glyph.  Every line contributes one line-marker token ahead of its
//! cards; characters that match no card are skipped silently.

use vstd::prelude::*;

use crate::token::{Rank, Suit, Token};
use vstd::std_specs::iter::IteratorSpec;

verus! {

broadcast use vstd::string::axiom_spec_iter, vstd::string::next_postcondition;

/// The characters of a string slice, in order.
pub fn chars_of(s: &str) -> (v: Vec<char>)
    ensures
        v@ == s@,
{
    let mut it = s.chars();
    let mut v: Vec<char> = Vec::new();
    assert(v@ + it.remaining() =~= s@);
    loop
        invariant_except_break
            v@ + it.remaining() == s@,
            it.decrease() is Some,
        ensures
            v@ == s@,
        decreases it.decrease()->0,
    {
        match it.next() {
            Some(c) => {
                v.push(c);
                assert(v@ + it.remaining() =~= s@);
            },
            None => {
                assert(v@ + it.remaining() =~= v@);
                break ;
            },
        }
    }
    v
}

/// Blank characters trimmed from line ends.
pub open spec fn is_blank(c: char) -> bool {
    c == ' ' || c == '\t' || c == '\r'
}

/// A line up to (not including) its first `#`.
pub open spec fn strip_comment(s: Seq<char>) -> Seq<char>
    decreases s.len(),
{
    if s.len() == 0 {
        Seq::empty()
    } else if s[0] == '#' {
        Seq::empty()
    } else {
        seq![s[0]] + strip_comment(s.drop_first())
    }
}

/// A line without its leading blanks.
pub open spec fn trim_front(s: Seq<char>) -> Seq<char>
    decreases s.len(),
{
    if s.len() > 0 && is_blank(s[0]) {
        trim_front(s.drop_first())
    } else {
        s
    }
}

/// A line without its trailing blanks.
pub open spec fn trim_back(s: Seq<char>) -> Seq<char>
    decreases s.len(),
{
    if s.len() > 0 && is_blank(s.last()) {
        trim_back(s.drop_last())
    } else {
        s
    }
}

/// A line without leading or trailing blanks.
pub open spec fn trim_blanks(s: Seq<char>) -> Seq<char> {
    trim_back(trim_front(s))
}

/// What remains of a line once its comment and surrounding blanks are gone.
pub open spec fn line_body(s: Seq<char>) -> Seq<char> {
    trim_blanks(strip_comment(s))
}

/// The rank a single symbol stands for, if any.  `10` is the one two-symbol
/// rank and is handled by [`scan_cards`] directly.
pub open spec fn rank_of_char(c: char) -> Option<Rank> {
    if 0x32 <= c as u32 && c as u32 <= 0x39 {
        Some(Rank::Num((c as u32 - 0x30) as u8))
    } else if c == 'J' {
        Some(Rank::Jack)
    } else if c == 'Q' {
        Some(Rank::Queen)
    } else if c == 'K' {
        Some(Rank::King)
    } else if c == 'A' {
        Some(Rank::Ace)
    } else {
        None
    }
}

/// The suit a glyph stands for, if any.
pub open spec fn suit_of_char(c: char) -> Option<Suit> {
    if c == '\u{2666}' {
        Some(Suit::Diamonds)
    } else if c == '\u{2665}' {
        Some(Suit::Hearts)
    } else if c == '\u{2660}' {
        Some(Suit::Spades)
    } else if c == '\u{2663}' {
        Some(Suit::Clubs)
    } else {
        None
    }
}

/// The cards of a prepared line, scanned left to right: at each position a
/// `10` followed by a suit glyph, else a one-symbol rank followed by a suit
/// glyph, else the character is skipped.
pub open spec fn scan_cards(s: Seq<char>) -> Seq<Token>
    decreases s.len(),
{
    if s.len() == 0 {
        Seq::empty()
    } else if s.len() >= 3 && s[0] == '1' && s[1] == '0' && suit_of_char(s[2]) is Some {
        seq![Token::Card(Rank::Num(10), suit_of_char(s[2])->Some_0)] + scan_cards(s.skip(3))
    } else if s.len() >= 2 && rank_of_char(s[0]) is Some && suit_of_char(s[1]) is Some {
        seq![Token::Card(rank_of_char(s[0])->Some_0, suit_of_char(s[1])->Some_0)] + scan_cards(
            s.skip(2),
        )
    } else {
        scan_cards(s.skip(1))
    }
}

/// The cards contributed by one source line.
pub open spec fn line_cards(s: Seq<char>) -> Seq<Token> {
    scan_cards(line_body(s))
}

/// The lines of the text, split at `\n`; a final line terminator opens no
/// further line.
pub open spec fn nl_split(s: Seq<char>) -> Seq<Seq<char>>
    decreases s.len(),
{
    if s.len() == 0 {
        Seq::empty()
    } else if s[0] == '\n' {
        seq![Seq::empty()] + nl_split(s.drop_first())
    } else {
        let rest = nl_split(s.drop_first());
        if rest.len() == 0 {
            seq![seq![s[0]]]
        } else {
            seq![seq![s[0]] + rest[0]] + rest.drop_first()
        }
    }
}

/// The tokens of a sequence of lines, the first of which has the given
/// 1-based number: each line yields its marker, then its cards.
pub open spec fn lines_tokens(ls: Seq<Seq<char>>, first: int) -> Seq<Token>
    decreases ls.len(),
{
    if ls.len() == 0 {
        Seq::empty()
    } else {
        seq![Token::Line(first as usize)] + line_cards(ls[0]) + lines_tokens(
            ls.drop_first(),
            first + 1,
        )
    }
}

/// The whole instruction stream of a source text.
pub open spec fn tokenize_spec(s: Seq<char>) -> Seq<Token> {
    lines_tokens(nl_split(s), 1)
}

/// `strip_comment` keeps exactly the prefix before the first `#`.
proof fn lemma_strip_comment_prefix(s: Seq<char>, k: int)
    requires
        0 <= k <= s.len(),
        forall|j: int| 0 <= j < k ==> s[j] != '#',
        k == s.len() || s[k] == '#',
    ensures
        strip_comment(s) == s.subrange(0, k),
    decreases s.len(),
{
    if s.len() == 0 {
        assert(strip_comment(s) =~= s.subrange(0, 0));
    } else if s[0] == '#' {
        assert(k == 0);
        assert(strip_comment(s) =~= s.subrange(0, 0));
    } else {
        assert(k >= 1);
        lemma_strip_comment_prefix(s.drop_first(), k - 1);
        assert(seq![s[0]] + s.drop_first().subrange(0, k - 1) =~= s.subrange(0, k));
    }
}

/// `trim_front` keeps exactly the suffix from the first non-blank on.
proof fn lemma_trim_front_skip(s: Seq<char>, a: int)
    requires
        0 <= a <= s.len(),
        forall|j: int| 0 <= j < a ==> is_blank(s[j]),
        a == s.len() || !is_blank(s[a]),
    ensures
        trim_front(s) == s.subrange(a, s.len() as int),
    decreases s.len(),
{
    if a == 0 {
        assert(trim_front(s) =~= s.subrange(0, s.len() as int));
    } else {
        lemma_trim_front_skip(s.drop_first(), a - 1);
        assert(s.drop_first().subrange(a - 1, s.drop_first().len() as int) =~= s.subrange(
            a,
            s.len() as int,
        ));
    }
}

/// `trim_back` keeps exactly the prefix up to the last non-blank.
proof fn lemma_trim_back_take(s: Seq<char>, b: int)
    requires
        0 <= b <= s.len(),
        forall|j: int| b <= j < s.len() ==> is_blank(s[j]),
        b == 0 || !is_blank(s[b - 1]),
    ensures
        trim_back(s) == s.subrange(0, b),
    decreases s.len(),
{
    if b == s.len() {
        if s.len() == 0 || !is_blank(s.last()) {
            assert(trim_back(s) =~= s.subrange(0, b));
        }
    } else {
        lemma_trim_back_take(s.drop_last(), b);
        assert(s.drop_last() =~= s.subrange(0, s.len() - 1));
        assert(s.drop_last().subrange(0, b) =~= s.subrange(0, b));
    }
}

/// No `#` survives `strip_comment`.
proof fn lemma_strip_comment_no_hash(s: Seq<char>)
    ensures
        forall|j: int| 0 <= j < strip_comment(s).len() ==> strip_comment(s)[j] != '#',
    decreases s.len(),
{
    if s.len() != 0 && s[0] != '#' {
        lemma_strip_comment_no_hash(s.drop_first());
        assert forall|j: int| 0 <= j < strip_comment(s).len() implies strip_comment(s)[j]
            != '#' by {
            if j > 0 {
                assert(strip_comment(s)[j] == strip_comment(s.drop_first())[j - 1]);
            }
        }
    }
}

/// `strip_comment` leaves a `#`-free line as it is.
proof fn lemma_strip_comment_id(s: Seq<char>)
    requires
        forall|j: int| 0 <= j < s.len() ==> s[j] != '#',
    ensures
        strip_comment(s) == s,
    decreases s.len(),
{
    if s.len() != 0 {
        lemma_strip_comment_id(s.drop_first());
        assert(seq![s[0]] + s.drop_first() =~= s);
    }
}

/// The front-trimmed line never starts with a blank.
proof fn lemma_trim_front_head(s: Seq<char>)
    ensures
        trim_front(s).len() > 0 ==> !is_blank(trim_front(s)[0]),
    decreases s.len(),
{
    if s.len() > 0 && is_blank(s[0]) {
        lemma_trim_front_head(s.drop_first());
    }
}

/// `trim_back` yields a prefix, so it keeps the first character.
proof fn lemma_trim_back_prefix(s: Seq<char>)
    ensures
        trim_back(s).len() <= s.len(),
        forall|j: int| 0 <= j < trim_back(s).len() ==> trim_back(s)[j] == s[j],
    decreases s.len(),
{
    if s.len() > 0 && is_blank(s.last()) {
        lemma_trim_back_prefix(s.drop_last());
        assert forall|j: int| 0 <= j < trim_back(s).len() implies trim_back(s)[j] == s[j] by {
            assert(trim_back(s)[j] == s.drop_last()[j]);
        }
    }
}

/// Trimming twice is trimming once.
proof fn lemma_trim_back_idem(s: Seq<char>)
    ensures
        trim_back(trim_back(s)) == trim_back(s),
    decreases s.len(),
{
    if s.len() > 0 && is_blank(s.last()) {
        lemma_trim_back_idem(s.drop_last());
    }
}

/// `trim_front` yields a suffix, so membership carries over.
proof fn lemma_trim_front_suffix(s: Seq<char>)
    ensures
        trim_front(s).len() <= s.len(),
        forall|j: int|
            0 <= j < trim_front(s).len() ==> trim_front(s)[j] == s[j + s.len() - trim_front(
                s,
            ).len()],
    decreases s.len(),
{
    if s.len() > 0 && is_blank(s[0]) {
        lemma_trim_front_suffix(s.drop_first());
    }
}

/// Unfolds [`nl_split`] by its first line: everything up to the first `\n`
/// (or the whole text when none is left).
proof fn lemma_nl_split_first(s: Seq<char>, n: int)
    requires
        s.len() > 0,
        0 <= n <= s.len(),
        forall|j: int| 0 <= j < n ==> s[j] != '\n',
        n == s.len() || s[n] == '\n',
    ensures
        n == s.len() ==> nl_split(s) == seq![s],
        n < s.len() ==> nl_split(s) == seq![s.subrange(0, n)] + nl_split(
            s.subrange(n + 1, s.len() as int),
        ),
    decreases s.len(),
{
    if s[0] == '\n' {
        assert(n == 0);
        assert(s.subrange(0, 0) =~= Seq::<char>::empty());
        assert(s.subrange(1, s.len() as int) =~= s.drop_first());
    } else if s.len() == 1 {
        assert(n == 1);
        assert(s.drop_first() =~= Seq::<char>::empty());
        assert(nl_split(s.drop_first()) == Seq::<Seq<char>>::empty());
        assert(nl_split(s) == seq![seq![s[0]]]);
        assert(seq![s[0]] =~= s);
        assert(nl_split(s) =~~= seq![s]);
    } else {
        let df = s.drop_first();
        lemma_nl_split_first(df, n - 1);
        let rest = nl_split(df);
        if n == s.len() {
            assert(rest == seq![df]);
            assert(seq![s[0]] + df =~= s);
            assert(nl_split(s) =~~= seq![s]);
        } else {
            assert(rest == seq![df.subrange(0, n - 1)] + nl_split(
                df.subrange(n, df.len() as int),
            ));
            assert(rest.len() >= 1);
            assert(seq![s[0]] + rest[0] =~= s.subrange(0, n));
            assert(rest.drop_first() =~= nl_split(df.subrange(n, df.len() as int)));
            assert(df.subrange(n, df.len() as int) =~= s.subrange(n + 1, s.len() as int));
        }
    }
}

/// Executable counterpart of [`rank_of_char`].
pub fn rank_of(c: char) -> (r: Option<Rank>)
    ensures
        r == rank_of_char(c),
{
    let u = c as u32;
    if 0x32 <= u && u <= 0x39 {
        Some(Rank::Num((u - 0x30) as u8))
    } else if c == 'J' {
        Some(Rank::Jack)
    } else if c == 'Q' {
        Some(Rank::Queen)
    } else if c == 'K' {
        Some(Rank::King)
    } else if c == 'A' {
        Some(Rank::Ace)
    } else {
        None
    }
}

/// Executable counterpart of [`suit_of_char`].
pub fn suit_of(c: char) -> (r: Option<Suit>)
    ensures
        r == suit_of_char(c),
{
    if c == '\u{2666}' {
        Some(Suit::Diamonds)
    } else if c == '\u{2665}' {
        Some(Suit::Hearts)
    } else if c == '\u{2660}' {
        Some(Suit::Spades)
    } else if c == '\u{2663}' {
        Some(Suit::Clubs)
    } else {
        None
    }
}

/// Executable counterpart of [`is_blank`].
fn blank(c: char) -> (b: bool)
    ensures
        b == is_blank(c),
{
    c == ' ' || c == '\t' || c == '\r'
}

/// Scans `src[from..to]` for cards and appends them, left to right.
fn scan_window(src: &Vec<char>, from: usize, to: usize, code: &mut Vec<Token>)
    requires
        from <= to <= src.len(),
    ensures
        final(code)@ == old(code)@ + scan_cards(src@.subrange(from as int, to as int)),
{
    let mut k: usize = from;
    while k < to
        invariant
            from <= k <= to <= src.len(),
            code@ + scan_cards(src@.subrange(k as int, to as int)) == old(code)@ + scan_cards(
                src@.subrange(from as int, to as int),
            ),
        decreases to - k,
    {
        let ghost w = src@.subrange(k as int, to as int);
        assert(w[0] == src@[k as int]);
        if to - k >= 3 && src[k] == '1' && src[k + 1] == '0' && suit_of(src[k + 2]).is_some() {
            let s = suit_of(src[k + 2]).unwrap();
            code.push(Token::Card(Rank::Num(10), s));
            assert(w[1] == src@[k as int + 1] && w[2] == src@[k as int + 2]);
            assert(w.skip(3) =~= src@.subrange(k as int + 3, to as int));
            k = k + 3;
        } else if to - k >= 2 && rank_of(src[k]).is_some() && suit_of(src[k + 1]).is_some() {
            let r = rank_of(src[k]).unwrap();
            let s = suit_of(src[k + 1]).unwrap();
            code.push(Token::Card(r, s));
            assert(w[1] == src@[k as int + 1]);
            assert(w.skip(2) =~= src@.subrange(k as int + 2, to as int));
            k = k + 2;
        } else {
            assert(w.len() >= 3 ==> w[1] == src@[k as int + 1] && w[2] == src@[k as int + 2]);
            assert(w.len() == 2 ==> w[1] == src@[k as int + 1]);
            assert(w.skip(1) =~= src@.subrange(k as int + 1, to as int));
            k = k + 1;
        }
    }
    assert(src@.subrange(k as int, to as int) =~= Seq::<char>::empty());
}

/// Appends the marker and the cards of the source line `src[i..j]`.
fn emit_line(src: &Vec<char>, i: usize, j: usize, line_no: usize, code: &mut Vec<Token>)
    requires
        i <= j <= src.len(),
    ensures
        final(code)@ == old(code)@ + seq![Token::Line(line_no)] + line_cards(
            src@.subrange(i as int, j as int),
        ),
{
    let ghost line = src@.subrange(i as int, j as int);
    // Strip the comment: the prepared line ends at its first `#`.
    let mut e: usize = i;
    while e < j && src[e] != '#'
        invariant
            i <= e <= j <= src@.len(),
            forall|m: int| i <= m < e ==> src@[m] != '#',
        decreases j - e,
    {
        e = e + 1;
    }
    proof {
        assert forall|m: int| 0 <= m < e - i implies line[m] != '#' by {
            assert(line[m] == src@[m + i]);
        }
        assert(e < j ==> line[e - i] == src@[e as int]);
        lemma_strip_comment_prefix(line, e - i);
    }
    let ghost stripped = src@.subrange(i as int, e as int);
    assert(line.subrange(0, e - i) =~= stripped);
    // Trim blanks from both ends of what is left.
    let mut a: usize = i;
    while a < e && blank(src[a])
        invariant
            i <= a <= e <= src@.len(),
            forall|m: int| i <= m < a ==> is_blank(src@[m]),
        decreases e - a,
    {
        a = a + 1;
    }
    proof {
        assert forall|m: int| 0 <= m < a - i implies is_blank(stripped[m]) by {
            assert(stripped[m] == src@[m + i]);
        }
        assert(a < e ==> stripped[a - i] == src@[a as int]);
        lemma_trim_front_skip(stripped, a - i);
    }
    let ghost fronted = src@.subrange(a as int, e as int);
    assert(stripped.subrange(a - i, e - i) =~= fronted);
    let mut b: usize = e;
    while b > a && blank(src[b - 1])
        invariant
            a <= b <= e <= src@.len(),
            forall|m: int| b <= m < e ==> is_blank(src@[m]),
        decreases b,
    {
        b = b - 1;
    }
    proof {
        assert forall|m: int| b - a <= m < fronted.len() implies is_blank(fronted[m]) by {
            assert(fronted[m] == src@[m + a]);
        }
        assert(b > a ==> fronted[b - a - 1] == src@[b - 1]);
        lemma_trim_back_take(fronted, b - a);
        assert(fronted.subrange(0, b - a) =~= src@.subrange(a as int, b as int));
        assert(line_body(line) == src@.subrange(a as int, b as int));
    }
    let ghost before = code@;
    code.push(Token::Line(line_no));
    scan_window(src, a, b, code);
    assert(code@ =~= before + seq![Token::Line(line_no)] + line_cards(line));
}

/// Turns source text into the instruction stream: one line marker per line,
/// each followed by the cards of that line.
pub fn tokenize(src: &Vec<char>) -> (code: Vec<Token>)
    requires
        src@.len() + 1 <= usize::MAX,
    ensures
        code@ == tokenize_spec(src@),
{
    let n = src.len();
    let mut code: Vec<Token> = Vec::new();
    let mut i: usize = 0;
    let mut line_no: usize = 1;
    proof {
        assert(src@.skip(0) =~= src@);
        assert(Seq::<Token>::empty() + lines_tokens(nl_split(src@), 1) =~= lines_tokens(
            nl_split(src@),
            1,
        ));
    }
    while i < n
        invariant
            n == src@.len(),
            n + 1 <= usize::MAX,
            i <= n,
            1 <= line_no <= i + 1,
            code@ + lines_tokens(nl_split(src@.skip(i as int)), line_no as int) == tokenize_spec(
                src@,
            ),
        decreases n - i,
    {
        let ghost t = src@.skip(i as int);
        let ghost i0 = i as int;
        let ghost lno = line_no as int;
        let ghost c0 = code@;
        // The current line runs to the next newline or to the end.
        let mut j: usize = i;
        while j < n && src[j] != '\n'
            invariant
                i <= j <= n == src@.len(),
                forall|m: int| i <= m < j ==> src@[m] != '\n',
            decreases n - j,
        {
            j = j + 1;
        }
        proof {
            assert(t.len() > 0);
            assert forall|m: int| 0 <= m < j - i implies t[m] != '\n' by {
                assert(t[m] == src@[m + i]);
            }
            assert(j < n ==> t[j - i] == src@[j as int]);
            lemma_nl_split_first(t, j - i);
        }
        let ghost line = src@.subrange(i as int, j as int);
        assert(t.subrange(0, j - i) =~= line);
        emit_line(src, i, j, line_no, &mut code);
        let ghost ls = nl_split(t);
        if j < n {
            i = j + 1;
            line_no = line_no + 1;
            proof {
                let rest = src@.skip(i as int);
                assert(t.subrange(j - i0 + 1, t.len() as int) =~= rest);
                assert(t.subrange(0, j - i0) == line);
                assert(ls == seq![line] + nl_split(rest));
                assert(ls[0] == line);
                assert(ls.drop_first() =~= nl_split(rest));
                assert(lines_tokens(ls, lno) == seq![Token::Line(lno as usize)] + line_cards(
                    line,
                ) + lines_tokens(nl_split(rest), lno + 1));
                assert(c0 + lines_tokens(ls, lno) =~= code@ + lines_tokens(
                    nl_split(rest),
                    lno + 1,
                ));
            }
        } else {
            i = n;
            proof {
                assert(ls == seq![t]);
                assert(t =~= line);
                assert(ls[0] == line);
                assert(ls.drop_first() =~= Seq::<Seq<char>>::empty());
                assert(lines_tokens(ls, lno) == seq![Token::Line(lno as usize)] + line_cards(
                    line,
                ) + lines_tokens(Seq::<Seq<char>>::empty(), lno + 1));
                assert(src@.skip(n as int) =~= Seq::<char>::empty());
                assert(c0 + lines_tokens(ls, lno) =~= code@ + lines_tokens(
                    nl_split(src@.skip(n as int)),
                    lno,
                ));
            }
        }
    }
    assert(src@.skip(i as int) =~= Seq::<char>::empty());
    assert(code@ + lines_tokens(nl_split(src@.skip(i as int)), line_no as int) =~= code@);
    code
}

/// Preparing a line is idempotent: the body of a body is the body itself.
/// Re-tokenizing a line already stripped of comment and blanks therefore
/// yields the same cards as tokenizing the original line.
pub proof fn lemma_line_body_stable(s: Seq<char>)
    ensures
        line_body(line_body(s)) == line_body(s),
        line_cards(line_body(s)) == line_cards(s),
{
    let y = line_body(s);
    lemma_strip_comment_no_hash(s);
    lemma_trim_front_suffix(strip_comment(s));
    lemma_trim_back_prefix(trim_front(strip_comment(s)));
    assert forall|j: int| 0 <= j < y.len() implies y[j] != '#' by {
        let z = strip_comment(s);
        let t = trim_front(z);
        assert(y[j] == t[j]);
        assert(t[j] == z[j + z.len() - t.len()]);
    }
    lemma_strip_comment_id(y);
    lemma_trim_front_head(strip_comment(s));
    if y.len() > 0 {
        assert(y[0] == trim_front(strip_comment(s))[0]);
        assert(!is_blank(y[0]));
    }
    assert(trim_front(y) == y);
    lemma_trim_back_idem(trim_front(strip_comment(s)));
}

} // verus!
