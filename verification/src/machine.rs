//! The execution engine: a program counter walks the instruction stream and
//! dispatches each token.  Line markers set the current line, Queens are
//! skipped, Kings jump by label key, a `10` dumps a register in decimal, a
//! Jack dumps a register as one byte of a character under assembly, and any
//! other card starts an assignment whose operand run it leads.
//!
//! The machine is deterministic; [`step_spec`] gives its small-step
//! semantics over the mathematical view [`MachineV`], and every executable
//! operation is proved to follow it.

use vstd::prelude::*;

use crate::bignum::{
    big_add, big_clone, big_div, big_from_u64, big_is_zero, big_mul, big_sub, big_to_decimal,
    big_to_u8, big_value, dec_bytes, div_trunc,
};
use crate::encoding::check_utf8;
use crate::labels::{is_queen_run, label_key, lemma_label_run_recorded, resolve, resolve_spec, LabelMap};
use crate::token::{is_boundary, is_boundary_token, suit_weight, suit_weight_u32, Rank, Suit, Token};
use crate::tokenize::{chars_of, tokenize, tokenize_spec};
use vstd::utf8::valid_utf8;

verus! {

/// The values of the four registers.
pub struct RegsV {
    pub diamonds: int,
    pub hearts: int,
    pub spades: int,
    pub clubs: int,
}

/// The value of the register a suit selects.
pub open spec fn reg_of(r: RegsV, s: Suit) -> int {
    match s {
        Suit::Diamonds => r.diamonds,
        Suit::Hearts => r.hearts,
        Suit::Spades => r.spades,
        Suit::Clubs => r.clubs,
    }
}

/// The registers with the selected one overwritten.
pub open spec fn reg_set(r: RegsV, s: Suit, v: int) -> RegsV {
    match s {
        Suit::Diamonds => RegsV { diamonds: v, ..r },
        Suit::Hearts => RegsV { hearts: v, ..r },
        Suit::Spades => RegsV { spades: v, ..r },
        Suit::Clubs => RegsV { clubs: v, ..r },
    }
}

/// The four registers, one arbitrary-precision integer per suit, all
/// starting at zero.
pub struct Registers {
    pub diamonds: num::BigInt,
    pub hearts: num::BigInt,
    pub spades: num::BigInt,
    pub clubs: num::BigInt,
}

impl View for Registers {
    type V = RegsV;

    open spec fn view(&self) -> RegsV {
        RegsV {
            diamonds: big_value(self.diamonds),
            hearts: big_value(self.hearts),
            spades: big_value(self.spades),
            clubs: big_value(self.clubs),
        }
    }
}

impl Registers {
    /// Four registers holding zero.
    pub fn new() -> (r: Registers)
        ensures
            r@ == (RegsV { diamonds: 0, hearts: 0, spades: 0, clubs: 0 }),
    {
        Registers {
            diamonds: big_from_u64(0),
            hearts: big_from_u64(0),
            spades: big_from_u64(0),
            clubs: big_from_u64(0),
        }
    }

    /// The register a suit selects.
    pub fn get(&self, s: Suit) -> (r: &num::BigInt)
        ensures
            big_value(*r) == reg_of(self@, s),
    {
        match s {
            Suit::Diamonds => &self.diamonds,
            Suit::Hearts => &self.hearts,
            Suit::Spades => &self.spades,
            Suit::Clubs => &self.clubs,
        }
    }

    /// Overwrites the register a suit selects.
    pub fn set(&mut self, s: Suit, v: num::BigInt)
        ensures
            final(self)@ == reg_set(old(self)@, s, big_value(v)),
    {
        match s {
            Suit::Diamonds => {
                self.diamonds = v;
            },
            Suit::Hearts => {
                self.hearts = v;
            },
            Suit::Spades => {
                self.spades = v;
            },
            Suit::Clubs => {
                self.clubs = v;
            },
        }
    }
}

/// A fatal condition of the interpreted program.  Every one aborts the run.
pub enum RunError {
    /// A jump's accumulated key matches no label: the suit and the repeat
    /// count that produced the key.
    LabelNotFound { suit: Suit, count: usize },
    /// A divide operand resolved to zero.
    DivisionByZero,
    /// A character dump found the register outside `0..=255`.
    CharOutOfRange { value: num::BigInt },
}

/// The mathematical view of a [`RunError`].
pub enum RunErrorV {
    LabelNotFound { suit: Suit, count: int },
    DivisionByZero,
    CharOutOfRange { value: int },
}

impl View for RunError {
    type V = RunErrorV;

    open spec fn view(&self) -> RunErrorV {
        match self {
            RunError::LabelNotFound { suit, count } => RunErrorV::LabelNotFound {
                suit: *suit,
                count: *count as int,
            },
            RunError::DivisionByZero => RunErrorV::DivisionByZero,
            RunError::CharOutOfRange { value } => RunErrorV::CharOutOfRange {
                value: big_value(*value),
            },
        }
    }
}

/// The mathematical view of the whole machine.
pub struct MachineV {
    pub code: Seq<Token>,
    pub labels: Map<u128, usize>,
    pub pc: int,
    pub line: int,
    pub regs: RegsV,
    pub buffer: Seq<u8>,
    pub output: Seq<u8>,
}

/// What one dispatch does: run on, halt, or abort.
pub enum StepV {
    Halt,
    Next(MachineV),
    Fail(RunErrorV, MachineV),
}

/// The index just past the run of Kings of suit `s` that starts at `i`.
pub open spec fn king_run_end(code: Seq<Token>, i: int, s: Suit) -> int
    decreases code.len() - i when i <= code.len()
{
    if i < code.len() && code[i] == Token::Card(Rank::King, s) {
        king_run_end(code, i + 1, s)
    } else {
        i
    }
}

/// A fully delimited King run determines `king_run_end`.
pub proof fn lemma_king_run_end_exact(code: Seq<Token>, i: int, e: int, s: Suit)
    requires
        0 <= i <= e <= code.len(),
        forall|m: int| i <= m < e ==> code[m] == Token::Card(Rank::King, s),
        e == code.len() || code[e] != Token::Card(Rank::King, s),
    ensures
        king_run_end(code, i, s) == e,
    decreases e - i,
{
    if i < e {
        lemma_king_run_end_exact(code, i + 1, e, s);
    }
}

/// The index just past the operand run that starts at `i`: operands stop,
/// without being consumed, at the first line marker, King, Queen or Jack,
/// or at the end of the stream.
pub open spec fn run_end(code: Seq<Token>, i: int) -> int
    decreases code.len() - i when i <= code.len()
{
    if i < code.len() && !is_boundary(code[i]) {
        run_end(code, i + 1)
    } else {
        i
    }
}

/// An operand run never crosses a boundary token: everything strictly
/// inside it is an ordinary card, and it is delimited by a boundary or by
/// the end of the stream.
pub proof fn lemma_run_end(code: Seq<Token>, i: int)
    requires
        0 <= i <= code.len(),
    ensures
        i <= run_end(code, i) <= code.len(),
        forall|m: int| i <= m < run_end(code, i) ==> !is_boundary(code[m]),
        run_end(code, i) == code.len() || is_boundary(code[run_end(code, i)]),
    decreases code.len() - i,
{
    if i < code.len() && !is_boundary(code[i]) {
        lemma_run_end(code, i + 1);
    }
}

/// A fully delimited operand run determines `run_end`.
pub proof fn lemma_run_end_exact(code: Seq<Token>, i: int, e: int)
    requires
        0 <= i <= e <= code.len(),
        forall|m: int| i <= m < e ==> !is_boundary(code[m]),
        e == code.len() || is_boundary(code[e]),
    ensures
        run_end(code, i) == e,
    decreases e - i,
{
    if i < e {
        lemma_run_end_exact(code, i + 1, e);
    }
}

/// The literal value a rank denotes.
pub open spec fn rank_value(r: Rank) -> int {
    match r {
        Rank::Num(n) => n as int,
        _ => 0,
    }
}

/// The value an operand resolves to: an Ace reads the register its suit
/// selects, any other card is its literal rank value.
pub open spec fn op_value(regs: RegsV, t: Token) -> int {
    match t {
        Token::Card(Rank::Ace, s) => reg_of(regs, s),
        Token::Card(r, _) => rank_value(r),
        Token::Line(_) => 0,
    }
}

/// Folds an operand run left to right into the running total: each
/// operand's suit is the operator (Diamonds adds, Hearts multiplies, Spades
/// subtracts, Clubs divides), and a divide by a zero operand aborts.
pub open spec fn fold_ops(regs: RegsV, ops: Seq<Token>, acc: int) -> Option<int>
    decreases ops.len(),
{
    if ops.len() == 0 {
        Some(acc)
    } else {
        let v = op_value(regs, ops[0]);
        match ops[0] {
            Token::Card(_, s) => match s {
                Suit::Diamonds => fold_ops(regs, ops.drop_first(), acc + v),
                Suit::Hearts => fold_ops(regs, ops.drop_first(), acc * v),
                Suit::Spades => fold_ops(regs, ops.drop_first(), acc - v),
                Suit::Clubs => if v == 0 {
                    None
                } else {
                    fold_ops(regs, ops.drop_first(), div_trunc(acc, v))
                },
            },
            Token::Line(_) => fold_ops(regs, ops.drop_first(), acc),
        }
    }
}

/// The jump instruction, dispatched on a King of suit `s`; `m` is the state
/// just past that King.  Further same-suit Kings are consumed while the key
/// accumulates; then, if the suit's register is nonzero, the key's label is
/// the new program counter, and a missing label aborts.  A zero register
/// falls through.
pub open spec fn jump_step(m: MachineV, s: Suit) -> StepV {
    let e = king_run_end(m.code, m.pc, s);
    let count = e - m.pc + 1;
    let key = label_key(count, s) as u128;
    if reg_of(m.regs, s) == 0 {
        StepV::Next(MachineV { pc: e, ..m })
    } else if m.labels.dom().contains(key) {
        StepV::Next(MachineV { pc: m.labels[key] as int, ..m })
    } else {
        StepV::Fail(RunErrorV::LabelNotFound { suit: s, count }, MachineV { pc: e, ..m })
    }
}

/// The assignment instruction: `m` is the state just past the leading card,
/// whose suit `s` names the target register and whose resolved value `acc0`
/// starts the total.  The remaining operand run is folded and the total is
/// stored; a divide by zero aborts with every register unchanged.
pub open spec fn assign_step(m: MachineV, acc0: int, s: Suit) -> StepV {
    let e = run_end(m.code, m.pc);
    match fold_ops(m.regs, m.code.subrange(m.pc, e), acc0) {
        Some(v) => StepV::Next(MachineV { pc: e, regs: reg_set(m.regs, s, v), ..m }),
        None => StepV::Fail(RunErrorV::DivisionByZero, MachineV { pc: e, ..m }),
    }
}

/// The number dump: the register's canonical decimal rendering is appended
/// to the output.
pub open spec fn dump_num_step(m: MachineV, s: Suit) -> StepV {
    StepV::Next(MachineV { output: m.output + dec_bytes(reg_of(m.regs, s)), ..m })
}

/// The character dump: the register must fit in a byte, which joins the
/// pending buffer; a buffer that has become a complete well-formed UTF-8
/// encoding is emitted and cleared.
pub open spec fn dump_char_step(m: MachineV, s: Suit) -> StepV {
    let v = reg_of(m.regs, s);
    if v < 0 || v > 255 {
        StepV::Fail(RunErrorV::CharOutOfRange { value: v }, m)
    } else {
        let b = m.buffer.push(v as u8);
        if valid_utf8(b) {
            StepV::Next(MachineV { buffer: Seq::empty(), output: m.output + b, ..m })
        } else {
            StepV::Next(MachineV { buffer: b, ..m })
        }
    }
}

/// One dispatch of the machine: read the token under the program counter,
/// advance past it, then act on its rank.
pub open spec fn step_spec(m: MachineV) -> StepV {
    if !(0 <= m.pc < m.code.len()) {
        StepV::Halt
    } else {
        let m1 = MachineV { pc: m.pc + 1, ..m };
        match m.code[m.pc] {
            Token::Line(no) => StepV::Next(MachineV { line: no as int, ..m1 }),
            Token::Card(r, s) => match r {
                Rank::Queen => StepV::Next(m1),
                Rank::King => jump_step(m1, s),
                Rank::Jack => dump_char_step(m1, s),
                Rank::Ace => assign_step(m1, reg_of(m1.regs, s), s),
                Rank::Num(n) => if n == 10 {
                    dump_num_step(m1, s)
                } else {
                    assign_step(m1, n as int, s)
                },
            },
        }
    }
}

/// The machine after `n` dispatches, if it neither halted nor aborted on
/// the way.
pub open spec fn iterate(m: MachineV, n: nat) -> Option<MachineV>
    decreases n,
{
    if n == 0 {
        Some(m)
    } else {
        match iterate(m, (n - 1) as nat) {
            Some(m1) => match step_spec(m1) {
                StepV::Next(m2) => Some(m2),
                _ => None,
            },
            None => None,
        }
    }
}

/// The machine a freshly loaded instruction stream starts in.
pub open spec fn initial_spec(code: Seq<Token>) -> MachineV {
    MachineV {
        code,
        labels: resolve_spec(code),
        pc: 0,
        line: 0,
        regs: RegsV { diamonds: 0, hearts: 0, spades: 0, clubs: 0 },
        buffer: Seq::empty(),
        output: Seq::empty(),
    }
}

/// The interpreter: the instruction stream, its label table, the program
/// counter, the current source line, the registers, the pending character
/// bytes, and everything emitted so far.
pub struct Machine {
    pub code: Vec<Token>,
    pub labels: LabelMap,
    pub pc: usize,
    pub line: usize,
    pub regs: Registers,
    pub buffer: Vec<u8>,
    pub output: Vec<u8>,
}

impl View for Machine {
    type V = MachineV;

    open spec fn view(&self) -> MachineV {
        MachineV {
            code: self.code@,
            labels: self.labels@,
            pc: self.pc as int,
            line: self.line as int,
            regs: self.regs@,
            buffer: self.buffer@,
            output: self.output@,
        }
    }
}

/// What one executed dispatch reported.
pub enum StepOutcome {
    /// The machine ran one instruction and goes on.
    Progress,
    /// The program counter had left the stream: the run is over.
    Halted,
    /// The dispatch hit a fatal condition.
    Failed(RunError),
}

impl Machine {
    /// Loads an already tokenized instruction stream: labels resolved,
    /// registers zero, program counter at the start.
    pub fn from_code(code: Vec<Token>) -> (m: Machine)
        ensures
            m@ == initial_spec(code@),
    {
        let labels = resolve(&code);
        Machine {
            code,
            labels,
            pc: 0,
            line: 0,
            regs: Registers::new(),
            buffer: Vec::new(),
            output: Vec::new(),
        }
    }

    /// Loads a program from its source text.
    pub fn new(src: &str) -> (m: Machine)
        requires
            src@.len() + 1 <= usize::MAX,
        ensures
            m@ == initial_spec(tokenize_spec(src@)),
    {
        let chars = chars_of(src);
        let code = tokenize(&chars);
        Machine::from_code(code)
    }

    /// The jump instruction; the leading King of suit `s` has just been
    /// consumed.
    fn do_jump(&mut self, s: Suit) -> (r: StepOutcome)
        requires
            1 <= old(self).pc <= old(self).code.len(),
        ensures
            (match jump_step(old(self)@, s) {
                StepV::Next(m2) => r is Progress && final(self)@ == m2,
                StepV::Fail(e, m2) => (r matches StepOutcome::Failed(err) && err@ == e) && final(self)@ == m2,
                StepV::Halt => false,
            }),
    {
        let n = self.code.len();
        let start = self.pc;
        let mut e = start;
        let mut count: usize = 1;
        while e < n && self.code[e] == Token::Card(Rank::King, s)
            invariant
                start <= e <= n == self.code@.len(),
                start >= 1,
                count == e - start + 1,
                forall|m: int| start <= m < e ==> self.code@[m] == Token::Card(Rank::King, s),
            decreases n - e,
        {
            e = e + 1;
            count = count + 1;
        }
        proof {
            lemma_king_run_end_exact(self.code@, start as int, e as int, s);
        }
        let w = suit_weight_u32(s);
        let key: u128 = (count as u128) * (w as u128);
        proof {
            assert(key == label_key(count as int, s)) by (nonlinear_arith)
                requires
                    key == (count as u128) * (w as u128),
                    count <= 0xffff_ffff_ffff_ffffu128,
                    w as int == suit_weight(s),
                    0 < w <= 0x2666,
                    label_key(count as int, s) == count * suit_weight(s),
            ;
        }
        if big_is_zero(self.regs.get(s)) {
            self.pc = e;
            StepOutcome::Progress
        } else {
            match self.labels.get(key) {
                Some(target) => {
                    self.pc = target;
                    StepOutcome::Progress
                },
                None => {
                    self.pc = e;
                    StepOutcome::Failed(RunError::LabelNotFound { suit: s, count })
                },
            }
        }
    }

    /// The assignment instruction; the leading card has just been consumed,
    /// `s` names the target register, and `acc0` is the leading operand's
    /// resolved value.
    #[verifier::loop_isolation(false)]
    fn do_assign(&mut self, acc0: num::BigInt, s: Suit) -> (r: StepOutcome)
        requires
            old(self).pc <= old(self).code.len(),
        ensures
            (match assign_step(old(self)@, big_value(acc0), s) {
                StepV::Next(m2) => r is Progress && final(self)@ == m2,
                StepV::Fail(e2, m2) => (r matches StepOutcome::Failed(err) && err@ == e2) && final(self)@ == m2,
                StepV::Halt => false,
            }),
    {
        let ghost m1 = self@;
        let n = self.code.len();
        let start = self.pc;
        let mut e = start;
        while e < n && !is_boundary_token(&self.code[e])
            invariant
                start <= e <= n == self.code@.len(),
                forall|m: int| start <= m < e ==> !is_boundary(self.code@[m]),
            decreases n - e,
        {
            e = e + 1;
        }
        proof {
            lemma_run_end_exact(self.code@, start as int, e as int);
        }
        let ghost ops = m1.code.subrange(start as int, e as int);
        let ghost a0 = big_value(acc0);
        let mut acc = acc0;
        let mut j = start;
        while j < e
            invariant
                start <= j <= e <= self.code@.len(),
                self == old(self),
                e == run_end(m1.code, start as int),
                m1 == self@,
                ops == m1.code.subrange(start as int, e as int),
                fold_ops(m1.regs, m1.code.subrange(j as int, e as int), big_value(acc)) == fold_ops(
                    m1.regs,
                    ops,
                    a0,
                ),
            decreases e - j,
        {
            let ghost w = m1.code.subrange(j as int, e as int);
            assert(w[0] == m1.code[j as int]);
            assert(w.drop_first() =~= m1.code.subrange(j as int + 1, e as int));
            let t = self.code[j];
            match t {
                Token::Card(r2, s2) => {
                    let v: num::BigInt = match r2 {
                        Rank::Ace => big_clone(self.regs.get(s2)),
                        Rank::Num(nv) => big_from_u64(nv as u64),
                        _ => big_from_u64(0),
                    };
                    assert(big_value(v) == op_value(m1.regs, t));
                    match s2 {
                        Suit::Diamonds => {
                            acc = big_add(&acc, &v);
                        },
                        Suit::Hearts => {
                            acc = big_mul(&acc, &v);
                        },
                        Suit::Spades => {
                            acc = big_sub(&acc, &v);
                        },
                        Suit::Clubs => {
                            if big_is_zero(&v) {
                                proof {
                                    assert(fold_ops(m1.regs, w, big_value(acc))
                                        == Option::<int>::None);
                                    assert(fold_ops(m1.regs, ops, a0) == Option::<int>::None);
                                }
                                self.pc = e;
                                assert(self@ == (MachineV { pc: e as int, ..m1 }));
                                return StepOutcome::Failed(RunError::DivisionByZero);
                            }
                            acc = big_div(&acc, &v);
                        },
                    }
                },
                Token::Line(_) => {},
            }
            j = j + 1;
        }
        assert(m1.code.subrange(e as int, e as int) =~= Seq::<Token>::empty());
        self.pc = e;
        self.regs.set(s, acc);
        StepOutcome::Progress
    }

    /// The number dump; the `10` of suit `s` has just been consumed.
    fn do_dump_num(&mut self, s: Suit) -> (r: StepOutcome)
        ensures
            (match dump_num_step(old(self)@, s) {
                StepV::Next(m2) => r is Progress && final(self)@ == m2,
                _ => false,
            }),
    {
        let mut d = big_to_decimal(self.regs.get(s));
        self.output.append(&mut d);
        StepOutcome::Progress
    }

    /// The character dump; the Jack of suit `s` has just been consumed.
    fn do_dump_char(&mut self, s: Suit) -> (r: StepOutcome)
        ensures
            (match dump_char_step(old(self)@, s) {
                StepV::Next(m2) => r is Progress && final(self)@ == m2,
                StepV::Fail(e2, m2) => (r matches StepOutcome::Failed(err) && err@ == e2) && final(self)@ == m2,
                StepV::Halt => false,
            }),
    {
        match big_to_u8(self.regs.get(s)) {
            None => {
                let value = big_clone(self.regs.get(s));
                StepOutcome::Failed(RunError::CharOutOfRange { value })
            },
            Some(b) => {
                self.buffer.push(b);
                if check_utf8(&self.buffer) {
                    self.output.append(&mut self.buffer);
                }
                StepOutcome::Progress
            },
        }
    }

    /// One dispatch: reads the token under the program counter, advances
    /// past it, and acts on it, exactly as [`step_spec`] says.
    pub fn step(&mut self) -> (r: StepOutcome)
        ensures
            (match step_spec(old(self)@) {
                StepV::Halt => r is Halted && final(self)@ == old(self)@,
                StepV::Next(m2) => r is Progress && final(self)@ == m2,
                StepV::Fail(e2, m2) => (r matches StepOutcome::Failed(err) && err@ == e2) && final(self)@ == m2,
            }),
    {
        if self.pc >= self.code.len() {
            return StepOutcome::Halted;
        }
        let t = self.code[self.pc];
        self.pc = self.pc + 1;
        match t {
            Token::Line(no) => {
                self.line = no;
                StepOutcome::Progress
            },
            Token::Card(r, s) => match r {
                Rank::Queen => StepOutcome::Progress,
                Rank::King => self.do_jump(s),
                Rank::Jack => self.do_dump_char(s),
                Rank::Ace => {
                    let first = big_clone(self.regs.get(s));
                    self.do_assign(first, s)
                },
                Rank::Num(nv) => {
                    if nv == 10 {
                        self.do_dump_num(s)
                    } else {
                        let first = big_from_u64(nv as u64);
                        self.do_assign(first, s)
                    }
                },
            },
        }
    }

    /// Runs at most `fuel` dispatches: to completion, to an abort, or until
    /// the budget is spent.  The result and the final state are exactly
    /// those of iterating [`step_spec`] from the starting state.
    pub fn run(&mut self, fuel: usize) -> (r: RunOutcome)
        ensures
            (match r {
                RunOutcome::Done => exists|k: nat|
                    k <= fuel && #[trigger] iterate(old(self)@, k) == Some(final(self)@)
                        && step_spec(final(self)@) is Halt,
                RunOutcome::Failed(err) => exists|k: nat|
                    k < fuel && (match #[trigger] iterate(old(self)@, k) {
                        Some(m1) => step_spec(m1) == StepV::Fail(err@, final(self)@),
                        None => false,
                    }),
                RunOutcome::OutOfSteps => iterate(old(self)@, fuel as nat) == Some(final(self)@),
            }),
    {
        let mut used: usize = 0;
        while used < fuel
            invariant
                used <= fuel,
                iterate(old(self)@, used as nat) == Some(self@),
            decreases fuel - used,
        {
            let ghost prev = self@;
            let ghost k = used as nat;
            match self.step() {
                StepOutcome::Progress => {
                    used = used + 1;
                    proof {
                        assert(iterate(old(self)@, k + 1) == Some(self@));
                    }
                },
                StepOutcome::Halted => {
                    proof {
                        assert(iterate(old(self)@, k) == Some(self@));
                    }
                    return RunOutcome::Done;
                },
                StepOutcome::Failed(err) => {
                    proof {
                        assert(iterate(old(self)@, k) == Some(prev));
                        assert(step_spec(prev) == StepV::Fail(err@, self@));
                    }
                    return RunOutcome::Failed(err);
                },
            }
        }
        RunOutcome::OutOfSteps
    }

    /// Hands over everything emitted so far and leaves the output empty, so
    /// a caller can forward output while the machine keeps running.
    pub fn take_output(&mut self) -> (out: Vec<u8>)
        ensures
            out@ == old(self)@.output,
            final(self)@ == (MachineV { output: Seq::empty(), ..old(self)@ }),
    {
        let mut out: Vec<u8> = Vec::new();
        core::mem::swap(&mut out, &mut self.output);
        out
    }
}

/// What a bounded run reported.
pub enum RunOutcome {
    /// The program counter left the stream: the run completed.
    Done,
    /// A fatal condition aborted the run.
    Failed(RunError),
    /// The step budget ran out first.
    OutOfSteps,
}

/// The label round trip: in a machine whose label table came from its own
/// instruction stream, a maximal run of `n` same-suit Queens (its key
/// denoted by no other run) is jumped to exactly by a
/// King run of the same suit and repeat count `n`, whenever the suit's
/// register is nonzero.
pub proof fn lemma_label_round_trip(m: MachineV, j: int, n: int, s: Suit)
    requires
        m.labels == resolve_spec(m.code),
        m.code.len() <= usize::MAX,
        is_queen_run(m.code, j, n, s),
        forall|j2: int, n2: int, s2: Suit|
            is_queen_run(m.code, j2, n2, s2) && label_key(n2, s2) == label_key(n, s) ==> j2 == j,
        0 <= m.pc,
        m.pc + n <= m.code.len(),
        forall|i: int| m.pc <= i < m.pc + n ==> m.code[i] == Token::Card(Rank::King, s),
        m.pc + n == m.code.len() || m.code[m.pc + n] != Token::Card(Rank::King, s),
        n >= 1,
        reg_of(m.regs, s) != 0,
    ensures
        step_spec(m) == StepV::Next(MachineV { pc: j + n, ..m }),
{
    let m1 = MachineV { pc: m.pc + 1, ..m };
    lemma_king_run_end_exact(m.code, m.pc + 1, m.pc + n, s);
    lemma_label_run_recorded(m.code, j, n, s);
    let key = label_key(n, s) as u128;
    assert(m.labels.dom().contains(key));
    assert(m.labels[key] == (j + n) as usize);
    assert(step_spec(m) == jump_step(m1, s));
    assert(MachineV { pc: m.labels[key] as int, ..m1 } == MachineV { pc: j + n, ..m });
}

/// Arithmetic fold correctness: an assignment dispatched on the card under
/// the program counter starts from that card's resolved value (the target
/// register for an Ace, the literal rank otherwise) and folds the operand
/// run after it left to right, each operand combined by its suit's
/// operator; the total lands in the target register, and a divide by zero
/// aborts with every register unchanged.
pub proof fn lemma_arithmetic_fold(m: MachineV, r: Rank, s: Suit)
    requires
        0 <= m.pc < m.code.len(),
        m.code[m.pc] == Token::Card(r, s),
        r == Rank::Ace || (r matches Rank::Num(v) && v != 10),
    ensures
        ({
            let first = if r == Rank::Ace {
                reg_of(m.regs, s)
            } else {
                rank_value(r)
            };
            let e = run_end(m.code, m.pc + 1);
            step_spec(m) == (match fold_ops(m.regs, m.code.subrange(m.pc + 1, e), first) {
                Some(v) => StepV::Next(MachineV { pc: e, regs: reg_set(m.regs, s, v), ..m }),
                None => StepV::Fail(RunErrorV::DivisionByZero, MachineV { pc: e, ..m }),
            })
        }),
{
    let m1 = MachineV { pc: m.pc + 1, ..m };
    let first = if r == Rank::Ace {
        reg_of(m.regs, s)
    } else {
        rank_value(r)
    };
    assert(step_spec(m) == assign_step(m1, first, s));
    let e = run_end(m.code, m.pc + 1);
    match fold_ops(m.regs, m.code.subrange(m.pc + 1, e), first) {
        Some(v) => {
            assert(MachineV { pc: e, regs: reg_set(m.regs, s, v), ..m1 } == MachineV {
                pc: e,
                regs: reg_set(m.regs, s, v),
                ..m
            });
        },
        None => {
            assert(MachineV { pc: e, ..m1 } == MachineV { pc: e, ..m });
        },
    }
}

} // verus!

