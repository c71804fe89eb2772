//! The label resolver: a read-only pass over the finished instruction stream
//! that maps each run of consecutive same-suit Queens to the index just past
//! the run.  A run of `n` Queens of weight `w` defines the label key `n * w`;
//! a later run with the same key overrides an earlier one.

use vstd::prelude::*;

use crate::token::{suit_weight, suit_weight_u32, Rank, Suit, Token};

verus! {

/// The label table, a small association list read far more often than it is
/// written.  Later entries override earlier ones, as repeated insertions
/// into a map would.
pub struct LabelMap {
    entries: Vec<(u128, usize)>,
}

/// The map an entry list denotes: entries applied left to right, each
/// overriding any earlier binding of its key.
pub open spec fn map_of_entries(entries: Seq<(u128, usize)>) -> Map<u128, usize>
    decreases entries.len(),
{
    if entries.len() == 0 {
        Map::empty()
    } else {
        map_of_entries(entries.drop_last()).insert(entries.last().0, entries.last().1)
    }
}

/// If `entries[j]` holds the key and nothing after it does, it gives the
/// key's binding.
proof fn lemma_map_of_entries_find(entries: Seq<(u128, usize)>, k: u128, j: int)
    requires
        0 <= j < entries.len(),
        entries[j].0 == k,
        forall|m: int| j < m < entries.len() ==> entries[m].0 != k,
    ensures
        map_of_entries(entries).dom().contains(k),
        map_of_entries(entries)[k] == entries[j].1,
    decreases entries.len(),
{
    if j == entries.len() - 1 {
    } else {
        lemma_map_of_entries_find(entries.drop_last(), k, j);
    }
}

/// A key held by no entry is not in the map.
proof fn lemma_map_of_entries_absent(entries: Seq<(u128, usize)>, k: u128)
    requires
        forall|m: int| 0 <= m < entries.len() ==> entries[m].0 != k,
    ensures
        !map_of_entries(entries).dom().contains(k),
    decreases entries.len(),
{
    if entries.len() > 0 {
        lemma_map_of_entries_absent(entries.drop_last(), k);
    }
}

impl LabelMap {
    /// The mapping this table denotes.
    pub closed spec fn view(&self) -> Map<u128, usize> {
        map_of_entries(self.entries@)
    }

    /// An empty table.
    pub fn new() -> (r: LabelMap)
        ensures
            r@ == Map::<u128, usize>::empty(),
    {
        LabelMap { entries: Vec::new() }
    }

    /// Binds `k` to `v`, overriding any earlier binding.
    pub fn put(&mut self, k: u128, v: usize)
        ensures
            final(self)@ == old(self)@.insert(k, v),
    {
        self.entries.push((k, v));
        proof {
            assert(self.entries@.drop_last() =~= old(self).entries@);
        }
    }

    /// Looks `k` up: the latest binding, if any.
    pub fn get(&self, k: u128) -> (r: Option<usize>)
        ensures
            match r {
                Some(v) => self@.dom().contains(k) && self@[k] == v,
                None => !self@.dom().contains(k),
            },
    {
        let n = self.entries.len();
        let mut j: usize = n;
        while j > 0
            invariant
                j <= n == self.entries@.len(),
                forall|m: int| j <= m < n ==> self.entries@[m].0 != k,
            decreases j,
        {
            j = j - 1;
            let (ek, ev) = self.entries[j];
            if ek == k {
                proof {
                    lemma_map_of_entries_find(self.entries@, k, j as int);
                }
                return Some(ev);
            }
        }
        proof {
            lemma_map_of_entries_absent(self.entries@, k);
        }
        None
    }
}

/// The index just past the run of Queens of suit `s` that starts at `i`.
pub open spec fn queen_run_end(code: Seq<Token>, i: int, s: Suit) -> int
    decreases code.len() - i when i <= code.len()
{
    if i < code.len() && code[i] == Token::Card(Rank::Queen, s) {
        queen_run_end(code, i + 1, s)
    } else {
        i
    }
}

/// The key a label or jump run denotes: the run length times the suit's
/// weight.
pub open spec fn label_key(count: int, s: Suit) -> int {
    count * suit_weight(s)
}

/// Bounds and contents of a Queen run.
pub proof fn lemma_queen_run_end(code: Seq<Token>, i: int, s: Suit)
    requires
        0 <= i <= code.len(),
    ensures
        i <= queen_run_end(code, i, s) <= code.len(),
        forall|m: int| i <= m < queen_run_end(code, i, s) ==> code[m] == Token::Card(
            Rank::Queen,
            s,
        ),
        queen_run_end(code, i, s) == code.len() || code[queen_run_end(code, i, s)] != Token::Card(
            Rank::Queen,
            s,
        ),
    decreases code.len() - i,
{
    if i < code.len() && code[i] == Token::Card(Rank::Queen, s) {
        lemma_queen_run_end(code, i + 1, s);
    }
}

/// A fully delimited Queen run determines `queen_run_end`.
pub proof fn lemma_queen_run_end_exact(code: Seq<Token>, i: int, e: int, s: Suit)
    requires
        0 <= i <= e <= code.len(),
        forall|m: int| i <= m < e ==> code[m] == Token::Card(Rank::Queen, s),
        e == code.len() || code[e] != Token::Card(Rank::Queen, s),
    ensures
        queen_run_end(code, i, s) == e,
    decreases e - i,
{
    if i < e {
        lemma_queen_run_end_exact(code, i + 1, e, s);
    }
}

/// The label table of the stream from `i` on, with the bindings made so far.
pub open spec fn resolve_from(code: Seq<Token>, i: int, acc: Map<u128, usize>) -> Map<u128, usize>
    decreases code.len() - i when 0 <= i <= code.len() via resolve_from_decreases
{
    if i >= code.len() {
        acc
    } else {
        match code[i] {
            Token::Card(Rank::Queen, s) => {
                let e = queen_run_end(code, i, s);
                resolve_from(code, e, acc.insert(label_key(e - i, s) as u128, e as usize))
            },
            _ => resolve_from(code, i + 1, acc),
        }
    }
}

#[via_fn]
proof fn resolve_from_decreases(code: Seq<Token>, i: int, acc: Map<u128, usize>) {
    if i < code.len() {
        match code[i] {
            Token::Card(Rank::Queen, s) => {
                lemma_queen_run_end(code, i + 1, s);
            },
            _ => {},
        }
    }
}

/// The whole label table of a stream.
pub open spec fn resolve_spec(code: Seq<Token>) -> Map<u128, usize> {
    resolve_from(code, 0, Map::empty())
}

/// Builds the label table: every Queen run is recorded under its key, later
/// runs overriding earlier ones.
pub fn resolve(code: &Vec<Token>) -> (labels: LabelMap)
    ensures
        labels@ == resolve_spec(code@),
{
    let n = code.len();
    let mut labels = LabelMap::new();
    let mut pc: usize = 0;
    while pc < n
        invariant
            pc <= n == code@.len(),
            resolve_from(code@, pc as int, labels@) == resolve_spec(code@),
        decreases n - pc,
    {
        let t = code[pc];
        match t {
            Token::Card(Rank::Queen, s) => {
                let ghost l0 = labels@;
                let w = suit_weight_u32(s) as u128;
                let start = pc;
                let mut key: u128 = w;
                pc = pc + 1;
                while pc < n && code[pc] == Token::Card(Rank::Queen, s)
                    invariant
                        start < pc <= n == code@.len(),
                        w == suit_weight(s),
                        forall|m: int| start <= m < pc ==> code@[m] == Token::Card(Rank::Queen, s),
                        key == label_key(pc - start, s),
                        key <= 0xffff_ffff_ffff_ffffu128 * 0x2666,
                    decreases n - pc,
                {
                    proof {
                        assert((pc + 1 - start) * suit_weight(s) == (pc - start) * suit_weight(s)
                            + suit_weight(s)) by (nonlinear_arith);
                        assert((pc + 1 - start) * suit_weight(s) <= 0xffff_ffff_ffff_ffff * 0x2666)
                            by (nonlinear_arith)
                            requires
                                0 < pc + 1 - start <= 0xffff_ffff_ffff_ffff,
                                0 < suit_weight(s) <= 0x2666,
                        ;
                    }
                    key = key + w;
                    pc = pc + 1;
                }
                proof {
                    lemma_queen_run_end_exact(code@, start as int, pc as int, s);
                }
                labels.put(key, pc);
                proof {
                    assert(resolve_from(code@, start as int, l0) == resolve_from(
                        code@,
                        pc as int,
                        labels@,
                    ));
                }
            },
            _ => {
                pc = pc + 1;
            },
        }
    }
    labels
}

/// A maximal run of `n` consecutive Queens of suit `s` starting at `j`.
pub open spec fn is_queen_run(code: Seq<Token>, j: int, n: int, s: Suit) -> bool {
    &&& 0 <= j
    &&& n >= 1
    &&& j + n <= code.len()
    &&& (forall|m: int| j <= m < j + n ==> code[m] == Token::Card(Rank::Queen, s))
    &&& (j == 0 || code[j - 1] != Token::Card(Rank::Queen, s))
    &&& (j + n == code.len() || code[j + n] != Token::Card(Rank::Queen, s))
}

/// The scan never lands in the middle of a Queen run: when it stands on a
/// Queen, the token before it is no Queen of the same suit.
pub open spec fn run_start_ok(code: Seq<Token>, i: int) -> bool {
    forall|s2: Suit|
        0 < i < code.len() && code[i] == Token::Card(Rank::Queen, s2) ==> code[i - 1]
            != Token::Card(Rank::Queen, s2)
}

/// A key no remaining run denotes is left exactly as the accumulator has it.
proof fn lemma_resolve_from_preserves(code: Seq<Token>, i: int, acc: Map<u128, usize>, k: u128)
    requires
        0 <= i <= code.len(),
        run_start_ok(code, i),
        forall|j2: int, n2: int, s2: Suit|
            is_queen_run(code, j2, n2, s2) && j2 >= i ==> label_key(n2, s2) as u128 != k,
    ensures
        resolve_from(code, i, acc).dom().contains(k) == acc.dom().contains(k),
        acc.dom().contains(k) ==> resolve_from(code, i, acc)[k] == acc[k],
    decreases code.len() - i,
{
    if i < code.len() {
        match code[i] {
            Token::Card(Rank::Queen, s) => {
                lemma_queen_run_end(code, i, s);
                let e = queen_run_end(code, i, s);
                assert(is_queen_run(code, i, e - i, s));
                lemma_resolve_from_preserves(
                    code,
                    e,
                    acc.insert(label_key(e - i, s) as u128, e as usize),
                    k,
                );
            },
            _ => {
                lemma_resolve_from_preserves(code, i + 1, acc, k);
            },
        }
    }
}

/// Scanning from `i` records the run at `j` under its key, provided no
/// other run from `i` on denotes the same key.
proof fn lemma_resolve_from_finds(
    code: Seq<Token>,
    i: int,
    acc: Map<u128, usize>,
    j: int,
    n: int,
    s: Suit,
)
    requires
        0 <= i <= j,
        is_queen_run(code, j, n, s),
        run_start_ok(code, i),
        forall|j2: int, n2: int, s2: Suit|
            is_queen_run(code, j2, n2, s2) && j2 >= i && label_key(n2, s2) as u128 == label_key(
                n,
                s,
            ) as u128 ==> j2 == j,
    ensures
        resolve_from(code, i, acc).dom().contains(label_key(n, s) as u128),
        resolve_from(code, i, acc)[label_key(n, s) as u128] == (j + n) as usize,
    decreases j - i,
{
    let k = label_key(n, s) as u128;
    if i == j {
        lemma_queen_run_end_exact(code, j, j + n, s);
        let acc1 = acc.insert(k, (j + n) as usize);
        assert(resolve_from(code, i, acc) == resolve_from(code, j + n, acc1));
        lemma_resolve_from_preserves(code, j + n, acc1, k);
    } else {
        match code[i] {
            Token::Card(Rank::Queen, s1) => {
                lemma_queen_run_end(code, i, s1);
                let e = queen_run_end(code, i, s1);
                if e > j {
                    assert(code[j] == Token::Card(Rank::Queen, s1));
                    assert(code[j - 1] == Token::Card(Rank::Queen, s1));
                    assert(false);
                }
                assert(is_queen_run(code, i, e - i, s1));
                lemma_resolve_from_finds(
                    code,
                    e,
                    acc.insert(label_key(e - i, s1) as u128, e as usize),
                    j,
                    n,
                    s,
                );
            },
            _ => {
                lemma_resolve_from_finds(code, i + 1, acc, j, n, s);
            },
        }
    }
}

/// The label round trip, resolver side: a maximal run of `n` same-suit
/// Queens ending at index `e`, whose key no other run denotes, is bound to
/// `e` in the label table.
pub proof fn lemma_label_run_recorded(code: Seq<Token>, j: int, n: int, s: Suit)
    requires
        is_queen_run(code, j, n, s),
        code.len() <= usize::MAX,
        forall|j2: int, n2: int, s2: Suit|
            is_queen_run(code, j2, n2, s2) && label_key(n2, s2) == label_key(n, s) ==> j2 == j,
    ensures
        resolve_spec(code).dom().contains(label_key(n, s) as u128),
        resolve_spec(code)[label_key(n, s) as u128] == (j + n) as usize,
{
    assert forall|j2: int, n2: int, s2: Suit|
        is_queen_run(code, j2, n2, s2) && j2 >= 0 && label_key(n2, s2) as u128 == label_key(
            n,
            s,
        ) as u128 implies j2 == j by {
        assert(0 <= label_key(n2, s2) <= code.len() * 0x2666) by (nonlinear_arith)
            requires
                0 < n2 <= code.len(),
                0 < suit_weight(s2) <= 0x2666,
                label_key(n2, s2) == n2 * suit_weight(s2),
        ;
        assert(0 <= label_key(n, s) <= code.len() * 0x2666) by (nonlinear_arith)
            requires
                0 < n <= code.len(),
                0 < suit_weight(s) <= 0x2666,
                label_key(n, s) == n * suit_weight(s),
        ;
        assert(code.len() * 0x2666 < 0x1_0000_0000_0000_0000_0000_0000_0000_0000) by (
        nonlinear_arith)
            requires
                code.len() <= 0xffff_ffff_ffff_ffff,
        ;
        assert(label_key(n2, s2) == label_key(n, s));
    }
    lemma_resolve_from_finds(code, 0, Map::empty(), j, n, s);
}

} // verus!
