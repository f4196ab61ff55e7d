//! Macro machines: a program run on blocks of cells, or with a window of
//! cells carried behind the head, seen as a program of its own whose
//! instructions are computed on demand by simulating the base program.
use vstd::prelude::*;

use core::num::TryFromIntError;

use num_integer::Integer;

use vstd::arithmetic::div_mod::{lemma_fundamental_div_mod_converse, lemma_mod_breakdown};
use vstd::arithmetic::power::{lemma_pow_positive, pow};

use crate::instrs::{Color, Instr, Shift, Slot, State};
use crate::prog::Prog;
use std::collections::BTreeMap;

verus! {

pub type MacroColor = u64;

pub type MacroState = u64;

pub type MacroSlot = (MacroState, MacroColor);

pub type MacroInstr = (MacroColor, Shift, MacroState);

/// A block of base cells, leftmost first.
pub type Cells = Vec<Color>;

/// A base state with a block, and whether the head stands at its right
/// end (or else its left end).
pub type MacroConfig = (State, (bool, Cells));

/// Why a macro instruction could not be computed.
#[derive(Debug, PartialEq, Eq)]
pub enum MacroExc {
    /// The base program did not leave the block within the step limit.
    InfLoop,
    /// A new macro state or color did not fit in the base types.
    Conversion(TryFromIntError),
}

pub type GetInstrResult = Result<Option<Instr>, MacroExc>;

/// A table of instructions that may be computed when first asked for.
pub trait GetInstr {
    /// The table is in the shape that its methods keep.
    spec fn ready(&self) -> bool;

    /// Whether the table can be asked for the instruction of a slot.
    spec fn knows(&self, slot: Slot) -> bool;

    fn get_instr(&mut self, slot: &Slot) -> (r: GetInstrResult)
        requires
            old(self).ready(),
            old(self).knows(*slot),
        ensures
            final(self).ready(),
            forall|x: Slot| old(self).knows(x) ==> #[trigger] final(self).knows(x),
    ;
}

/// The value of a block read as a number in base `base`, leftmost digit
/// most significant.
pub open spec fn cells_value(t: Seq<Color>, base: int) -> int
    decreases t.len(),
{
    if t.len() == 0 {
        0
    } else {
        cells_value(t.drop_last(), base) * base + t.last()
    }
}

/// The last `n` digits of `c` in base `base`, most significant first.
pub open spec fn digits(c: int, base: int, n: nat) -> Seq<Color>
    decreases n,
{
    if n == 0 {
        Seq::empty()
    } else {
        digits(c / base, base, (n - 1) as nat).push((c % base) as u8)
    }
}

/// Every cell of a block is a digit of the base.
pub open spec fn digits_below(t: Seq<Color>, base: int) -> bool {
    forall|i: int| 0 <= i < t.len() ==> (#[trigger] t[i] as int) < base
}

/// Reading the digits of a number gives it back, modulo the base to the
/// number of digits.
pub proof fn lemma_digits_value(c: int, base: int, n: nat)
    requires
        0 <= c,
        2 <= base <= 256,
    ensures
        digits(c, base, n).len() == n,
        digits_below(digits(c, base, n), base),
        cells_value(digits(c, base, n), base) == c % pow(base, n),
    decreases n,
{
    if n == 0 {
        reveal(pow);
        assert(c % 1 == 0);
    } else {
        let m = (n - 1) as nat;
        assert(0 <= c / base) by (nonlinear_arith)
            requires
                0 <= c,
                base > 0,
        ;
        lemma_digits_value(c / base, base, m);
        let d = digits(c, base, n);
        assert(d.drop_last() =~= digits(c / base, base, m));
        lemma_pow_positive(base, m);
        assert(pow(base, n) == base * pow(base, m)) by {
            reveal(pow);
        }
        lemma_mod_breakdown(c, base, pow(base, m));
        assert(0 <= c % base < base);
        assert forall|i: int| 0 <= i < d.len() implies (#[trigger] d[i] as int) < base by {
            if i < d.len() - 1 {
                assert(d[i] == digits(c / base, base, m)[i]);
            }
        }
        assert(cells_value(d, base) == ((c / base) % pow(base, m)) * base + c % base) by (nonlinear_arith)
            requires
                cells_value(d, base) == cells_value(d.drop_last(), base) * base + d.last(),
                cells_value(d.drop_last(), base) == (c / base) % pow(base, m),
                d.last() == (c % base) as u8,
                0 <= c % base < base,
                base <= 256,
        ;
        assert(base * ((c / base) % pow(base, m)) == ((c / base) % pow(base, m)) * base) by (nonlinear_arith);
    }
}

/// The digits of a block's value give back the block.
pub proof fn lemma_value_digits(t: Seq<Color>, base: int)
    requires
        2 <= base <= 256,
        digits_below(t, base),
    ensures
        0 <= cells_value(t, base),
        digits(cells_value(t, base), base, t.len()) == t,
    decreases t.len(),
{
    if t.len() > 0 {
        let p = t.drop_last();
        assert(digits_below(p, base)) by {
            assert forall|i: int| 0 <= i < p.len() implies (#[trigger] p[i] as int) < base by {
                assert(p[i] == t[i]);
            }
        }
        lemma_value_digits(p, base);
        let v = cells_value(t, base);
        let pv = cells_value(p, base);
        assert((t.last() as int) < base) by {
            assert(t[t.len() - 1] == t.last());
        }
        assert(0 <= pv * base) by (nonlinear_arith)
            requires
                0 <= pv,
                base > 0,
        ;
        lemma_fundamental_div_mod_converse(v, base, pv, t.last() as int);
        assert(digits(v, base, t.len()) =~= t);
    }
}

/// A prefix of a block is worth no more than the block.
proof fn lemma_value_prefix(t: Seq<Color>, base: int, k: int)
    requires
        1 <= base,
        0 <= k <= t.len(),
    ensures
        0 <= cells_value(t.subrange(0, k), base) <= cells_value(t, base),
    decreases t.len(),
{
    if k == t.len() {
        assert(t.subrange(0, k) =~= t);
        lemma_value_nonneg(t, base);
    } else {
        let p = t.drop_last();
        assert(p.subrange(0, k) =~= t.subrange(0, k));
        lemma_value_prefix(p, base, k);
        let pv = cells_value(p, base);
        assert(pv <= pv * base) by (nonlinear_arith)
            requires
                0 <= pv,
                1 <= base,
        ;
    }
}

proof fn lemma_value_nonneg(t: Seq<Color>, base: int)
    requires
        1 <= base,
    ensures
        0 <= cells_value(t, base),
    decreases t.len(),
{
    if t.len() > 0 {
        lemma_value_nonneg(t.drop_last(), base);
        let pv = cells_value(t.drop_last(), base);
        assert(0 <= pv * base) by (nonlinear_arith)
            requires
                0 <= pv,
                1 <= base,
        ;
    }
}

/// Whether `i` is where the first `x` stands in `s`, or the length of
/// `s` where it has none.
pub open spec fn first_ok<T>(s: Seq<T>, x: T, i: int) -> bool {
    &&& 0 <= i <= s.len()
    &&& forall|j: int| 0 <= j < i ==> s[j] != x
    &&& i == s.len() || s[i] == x
}

/// The position of the first `x` in `s`, or the length of `s` where it
/// has none.
pub open spec fn first_at<T>(s: Seq<T>, x: T) -> int {
    choose|i: int| #[trigger] first_ok(s, x, i)
}

proof fn lemma_first_at<T>(s: Seq<T>, x: T, i: int)
    requires
        first_ok(s, x, i),
    ensures
        first_at(s, x) == i,
{
    let k = first_at(s, x);
    assert(first_ok(s, x, k));
    if k < i {
        assert(s[k] != x);
    }
    if k > i {
        assert(s[i] != x);
    }
}

/// The position that `first_at` gives is the first of `x`, or the length.
proof fn lemma_first_at_ok<T>(s: Seq<T>, x: T)
    ensures
        first_ok(s, x, first_at(s, x)),
    decreases s.len(),
{
    if s.len() == 0 {
        assert(first_ok(s, x, 0));
    } else {
        let t = s.drop_last();
        lemma_first_at_ok(t, x);
        let i = first_at(t, x);
        assert(first_ok(t, x, i));
        assert forall|j: int| 0 <= j < i implies s[j] != x by {
            assert(s[j] == t[j]);
        }
        if i < t.len() {
            assert(s[i] == t[i]);
            assert(first_ok(s, x, i));
            lemma_first_at(s, x, i);
        } else if s.last() == x {
            assert(first_ok(s, x, i));
            lemma_first_at(s, x, i);
        } else {
            assert(first_ok(s, x, s.len() as int));
            lemma_first_at(s, x, s.len() as int);
        }
    }
}

/// A numbering after `x` is looked up in it: unchanged where `x` is in
/// it, else with `x` added at the end.
pub open spec fn grown<T>(s: Seq<T>, x: T) -> Seq<T> {
    if first_at(s, x) < s.len() { s } else { s.push(x) }
}

/// Quotient and remainder.
///
/// Wraps `Integer::div_rem` of `num-integer`, which for unsigned integers
/// is `(x / y, x % y)` and panics where `y` is zero.
#[verifier::external_body]
fn div_rem(x: u64, y: u64) -> (r: (u64, u64))
    requires
        y != 0,
    ensures
        r == (x / y, x % y),
{
    x.div_rem(&y)
}

/// A run of same-state steps to the right over cells of color `scan`,
/// each written `color`, from `pos`: the cells after, and where the head
/// stops (the length where it left the span).
pub open spec fn sweep_right(tape: Seq<Color>, pos: int, scan: Color, color: Color) -> (Seq<Color>, int)
    decreases tape.len() - pos,
{
    if pos < 0 || pos >= tape.len() || tape[pos] != scan {
        (tape, pos)
    } else {
        sweep_right(tape.update(pos, color), pos + 1, scan, color)
    }
}

/// The same to the left: the head stops at -1 where it left the span.
pub open spec fn sweep_left(tape: Seq<Color>, pos: int, scan: Color, color: Color) -> (Seq<Color>, int)
    decreases pos + 1,
{
    if pos < 0 || pos >= tape.len() || tape[pos] != scan {
        (tape, pos)
    } else {
        sweep_left(tape.update(pos, color), pos - 1, scan, color)
    }
}

/// The base program run on a span from cell `pos` for at most `fuel`
/// moves, a move being one step to another state or one run of
/// same-state steps over one color: the state, the side it left by
/// (true for the right) and the cells, where it leaves the span; `Some(None)`
/// where it reaches an undefined slot first; `None` where the moves run
/// out first.
pub open spec fn sim_run<const S: usize, const C: usize>(
    prog: Prog<S, C>,
    state: State,
    tape: Seq<Color>,
    pos: int,
    fuel: nat,
) -> Option<Option<(State, bool, Seq<Color>)>>
    decreases fuel,
{
    if pos < 0 {
        Some(Some((state, false, tape)))
    } else if pos >= tape.len() {
        Some(Some((state, true, tape)))
    } else if fuel == 0 {
        None
    } else {
        let scan = tape[pos];
        match prog.instr_at(state as int, scan as int) {
            None => Some(None),
            Some(i) => {
                let (color, shift, next) = i;
                if next != state {
                    sim_run(prog, next, tape.update(pos, color), if shift { pos + 1 } else { pos - 1 }, (fuel - 1) as nat)
                } else if shift {
                    let (t, p) = sweep_right(tape, pos, scan, color);
                    sim_run(prog, state, t, p, (fuel - 1) as nat)
                } else {
                    let (t, p) = sweep_left(tape, pos, scan, color);
                    sim_run(prog, state, t, p, (fuel - 1) as nat)
                }
            },
        }
    }
}

/// The head position that a simulator run stands at: -1 or the length
/// once it has left the span.
pub open spec fn sim_pos(side: Option<bool>, pos: int, cells: int) -> int {
    match side {
        None => pos,
        Some(true) => cells,
        Some(false) => -1,
    }
}

/// Converts between blocks of `cells` cells and macro colors: a block is
/// the number it spells in base `C`.
pub struct TapeColorConverter<const C: usize> {
    pub cells: usize,
}

impl<const C: usize> TapeColorConverter<C> {
    pub fn new(cells: usize) -> (r: Self)
        ensures
            r.cells == cells,
    {
        TapeColorConverter { cells }
    }

    /// The block that a macro color stands for.
    pub fn color_to_tape(&self, color: &MacroColor) -> (r: Cells)
        requires
            2 <= C <= 256,
        ensures
            r@ == digits(*color as int, C as int, self.cells as nat),
    {
        let mut r: Vec<Color> = Vec::new();
        let mut x: u64 = *color;
        let mut k: usize = 0;
        let ghost n = self.cells as nat;
        while k < self.cells
            invariant
                2 <= C <= 256,
                k <= self.cells,
                n == self.cells,
                digits(*color as int, C as int, n) == digits(x as int, C as int, (n - k) as nat) + r@,
            decreases self.cells - k,
        {
            let d = (x % C as u64) as u8;
            let ghost before = r@;
            proof {
                let m = (n - k) as nat;
                assert(digits(x as int, C as int, m) == digits(x as int / C as int, C as int, (m - 1) as nat).push(d));
                assert(digits(x as int / C as int, C as int, (m - 1) as nat).push(d) + before
                    =~= digits(x as int / C as int, C as int, (m - 1) as nat) + seq![d].add(before));
            }
            r.insert(0, d);
            assert(r@ =~= seq![d].add(before));
            x = x / C as u64;
            k += 1;
        }
        assert(digits(x as int, C as int, 0) =~= Seq::<Color>::empty());
        assert(digits(x as int, C as int, 0) + r@ =~= r@);
        r
    }
}

impl<const C: usize> TapeColorConverter<C> {
    /// The macro color of a block.
    pub fn tape_to_color(&self, tape: Cells) -> (r: MacroColor)
        requires
            1 <= C <= 256,
            cells_value(tape@, C as int) <= u64::MAX,
        ensures
            r == cells_value(tape@, C as int),
    {
        let mut acc: u64 = 0;
        let mut i: usize = 0;
        while i < tape.len()
            invariant
                1 <= C <= 256,
                i <= tape@.len(),
                cells_value(tape@, C as int) <= u64::MAX,
                acc == cells_value(tape@.subrange(0, i as int), C as int),
            decreases tape@.len() - i,
        {
            proof {
                lemma_value_prefix(tape@, C as int, i + 1);
                assert(tape@.subrange(0, i + 1).drop_last() =~= tape@.subrange(0, i as int));
            }
            acc = acc * C as u64 + tape[i] as u64;
            i += 1;
        }
        assert(tape@.subrange(0, tape@.len() as int) =~= tape@);
        acc
    }
}

/// `base` to the power `exp`, where it fits.
fn pow_u64(base: u64, exp: usize) -> (r: u64)
    requires
        base >= 1,
        pow(base as int, exp as nat) <= u64::MAX,
    ensures
        r == pow(base as int, exp as nat),
{
    let mut r: u64 = 1;
    let mut k: usize = 0;
    proof {
        reveal(pow);
    }
    while k < exp
        invariant
            base >= 1,
            k <= exp,
            pow(base as int, exp as nat) <= u64::MAX,
            r == pow(base as int, k as nat),
        decreases exp - k,
    {
        proof {
            reveal(pow);
            vstd::arithmetic::power::lemma_pow_increases(base as nat, (k + 1) as nat, exp as nat);
            assert(pow(base as int, (k + 1) as nat) == base * pow(base as int, k as nat));
        }
        r = r * base;
        k += 1;
    }
    r
}

/// A block of digits is worth less than the base to its length.
pub proof fn lemma_value_bound(t: Seq<Color>, base: int)
    requires
        1 <= base,
        digits_below(t, base),
    ensures
        0 <= cells_value(t, base) < pow(base, t.len()),
    decreases t.len(),
{
    reveal(pow);
    if t.len() > 0 {
        let p = t.drop_last();
        assert(digits_below(p, base)) by {
            assert forall|i: int| 0 <= i < p.len() implies (#[trigger] p[i] as int) < base by {
                assert(p[i] == t[i]);
            }
        }
        lemma_value_bound(p, base);
        assert((t.last() as int) < base) by {
            assert(t[t.len() - 1] == t.last());
        }
        let pv = cells_value(p, base);
        let pp = pow(base, p.len());
        assert(pow(base, t.len()) == base * pp);
        assert(pv * base + t.last() < base * pp) by (nonlinear_arith)
            requires
                0 <= pv < pp,
                0 <= t.last() < base,
        ;
        assert(0 <= pv * base) by (nonlinear_arith)
            requires
                0 <= pv,
                1 <= base,
        ;
    }
}

/// How a macro machine reads its states and colors as base
/// configurations, and writes base configurations back.
pub trait Logic<const S: usize, const C: usize>: Sized {
    /// The number of base cells in a block.
    spec fn cells_spec(&self) -> nat;

    /// The number of base cells simulated at once.
    spec fn span_len(&self) -> nat;

    /// The sizes of the macro machine fit the number types.
    spec fn fits(&self) -> bool;

    /// A macro state that reads as a base state and block position.
    spec fn state_ok(&self, ms: MacroState) -> bool;

    /// A macro color that reads as (part of) a block.
    spec fn color_ok(&self, mc: MacroColor) -> bool;

    fn new(cells: usize) -> (r: Self)
        ensures
            r.cells_spec() == cells,
    ;

    fn cells(&self) -> (r: usize)
        ensures
            r == self.cells_spec(),
    ;

    /// The number of macro states.
    spec fn macro_states_spec(&self) -> int;

    /// The number of macro colors.
    spec fn macro_colors_spec(&self) -> int;

    /// The most base steps simulated for one macro step.
    spec fn sim_lim_spec(&self) -> int;

    fn macro_states(&self) -> (r: MacroState)
        requires
            self.fits(),
        ensures
            r == self.macro_states_spec(),
    ;

    fn macro_colors(&self) -> (r: MacroColor)
        requires
            self.fits(),
        ensures
            r == self.macro_colors_spec(),
    ;

    /// The most base steps simulated for one macro step.
    fn sim_lim(&self) -> (r: usize)
        requires
            self.fits(),
        ensures
            r == self.sim_lim_spec(),
    ;

    /// The base state, the end of the span that the head starts at (true
    /// for the right end), and the span's cells, of a macro slot.
    spec fn deconstruct_spec(&self, slot: MacroSlot) -> (State, bool, Seq<Color>);

    /// The macro instruction of a base state, the side by which the head
    /// left the span (true for the right) and the span's cells.
    spec fn reconstruct_spec(&self, state: State, side: bool, tape: Seq<Color>) -> MacroInstr;

    /// The base configuration of a macro slot.
    fn deconstruct_inputs(&self, slot: MacroSlot) -> (r: MacroConfig)
        requires
            self.fits(),
            self.state_ok(slot.0),
            self.color_ok(slot.1),
        ensures
            (r.0, r.1.0, r.1.1@) == self.deconstruct_spec(slot),
            (r.0 as int) < S,
            r.1.1@.len() == self.span_len(),
            digits_below(r.1.1@, C as int),
    ;

    /// The macro instruction of the base configuration where the run left
    /// the span.
    fn reconstruct_outputs(&self, config: MacroConfig) -> (r: MacroInstr)
        requires
            self.fits(),
            (config.0 as int) < S,
            config.1.1@.len() == self.span_len(),
            digits_below(config.1.1@, C as int),
        ensures
            r == self.reconstruct_spec(config.0, config.1.0, config.1.1@),
            self.state_ok(r.2),
            self.color_ok(r.0),
    ;

    /// The start state and the blank color read, and spans are not empty.
    proof fn lemma_zero_ok(&self)
        requires
            self.fits(),
        ensures
            self.state_ok(0),
            self.color_ok(0),
            self.span_len() >= 1,
    ;
}

/// A macro machine whose colors are blocks of `cells` base cells and
/// whose states are a base state with a side of the block.
pub struct BlockLogic<const S: usize, const C: usize> {
    pub cells: usize,
    pub converter: TapeColorConverter<C>,
}

impl<const S: usize, const C: usize> Logic<S, C> for BlockLogic<S, C> {
    open spec fn cells_spec(&self) -> nat {
        self.cells as nat
    }

    open spec fn span_len(&self) -> nat {
        self.cells as nat
    }

    open spec fn fits(&self) -> bool {
        &&& 2 <= C <= 256
        &&& 1 <= S <= 128
        &&& self.cells >= 1
        &&& self.converter.cells == self.cells
        &&& pow(C as int, self.cells as nat) <= u64::MAX
        &&& self.cells * S * pow(C as int, self.cells as nat) <= usize::MAX
    }

    open spec fn state_ok(&self, ms: MacroState) -> bool {
        ms / 2 < S
    }

    open spec fn color_ok(&self, mc: MacroColor) -> bool {
        mc < pow(C as int, self.cells as nat)
    }

    /// A base state with a side of the block.
    open spec fn macro_states_spec(&self) -> int {
        2 * S
    }

    /// Every block of `cells` base colors.
    open spec fn macro_colors_spec(&self) -> int {
        pow(C as int, self.cells as nat)
    }

    /// The number of base configurations on a block.
    open spec fn sim_lim_spec(&self) -> int {
        self.cells * S * pow(C as int, self.cells as nat)
    }

    /// The state is half the macro state, the head at the right end where
    /// the macro state is odd, and the block spells the macro color.
    open spec fn deconstruct_spec(&self, slot: MacroSlot) -> (State, bool, Seq<Color>) {
        ((slot.0 / 2) as u8, slot.0 % 2 == 1, digits(slot.1 as int, C as int, self.cells as nat))
    }

    /// The macro color is the number the block spells; the macro state is
    /// twice the state, plus one where the head left by the left.
    open spec fn reconstruct_spec(&self, state: State, side: bool, tape: Seq<Color>) -> MacroInstr {
        (cells_value(tape, C as int) as u64, side, (2 * state + if side { 0int } else { 1int }) as u64)
    }

    fn new(cells: usize) -> (r: Self)
        ensures
            r.cells == cells,
            r.converter.cells == cells,
    {
        BlockLogic { cells, converter: TapeColorConverter::new(cells) }
    }

    fn cells(&self) -> (r: usize) {
        self.cells
    }

    fn macro_states(&self) -> MacroState {
        2 * S as MacroState
    }

    fn macro_colors(&self) -> MacroColor {
        pow_u64(C as u64, self.cells)
    }

    fn sim_lim(&self) -> usize {
        let colors = pow_u64(C as u64, self.cells);
        proof {
            lemma_pow_positive(C as int, self.cells as nat);
            assert(self.cells * S <= self.cells * S * pow(C as int, self.cells as nat)) by (nonlinear_arith)
                requires
                    self.cells >= 1,
                    S >= 1,
                    pow(C as int, self.cells as nat) >= 1,
            ;
            assert(pow(C as int, self.cells as nat) <= self.cells * S * pow(C as int, self.cells as nat)) by (nonlinear_arith)
                requires
                    self.cells >= 1,
                    S >= 1,
                    pow(C as int, self.cells as nat) >= 1,
            ;
        }
        let c = colors as usize;
        let n = self.cells * S;
        n * c
    }

    fn deconstruct_inputs(&self, slot: MacroSlot) -> (r: MacroConfig) {
        let (state, right_edge) = div_rem(slot.0, 2);
        let tape = self.converter.color_to_tape(&slot.1);
        proof {
            lemma_digits_value(slot.1 as int, C as int, self.cells as nat);
        }
        (state as State, (right_edge == 1, tape))
    }

    fn reconstruct_outputs(&self, config: MacroConfig) -> (r: MacroInstr) {
        let (state, (right_edge, tape)) = config;
        proof {
            lemma_value_bound(tape@, C as int);
        }
        let color = self.converter.tape_to_color(tape);
        let back: u64 = if right_edge { 0 } else { 1 };
        (color, right_edge, 2 * state as u64 + back)
    }

    proof fn lemma_zero_ok(&self) {
        lemma_pow_positive(C as int, self.cells as nat);
    }
}

/// The cells `a..b` of a block.
fn cells_range(v: &Cells, a: usize, b: usize) -> (r: Cells)
    requires
        a <= b <= v@.len(),
    ensures
        r@ == v@.subrange(a as int, b as int),
{
    let mut r: Vec<Color> = Vec::new();
    let mut i: usize = a;
    while i < b
        invariant
            a <= i <= b,
            b <= v@.len(),
            r@ == v@.subrange(a as int, i as int),
        decreases b - i,
    {
        r.push(v[i]);
        i += 1;
    }
    r
}

/// `C` to the power `cells`, or the largest `usize` where it does not fit.
fn backsymbol_count<const C: usize>(cells: usize) -> (r: usize)
    ensures
        pow(C as int, cells as nat) <= usize::MAX ==> r == pow(C as int, cells as nat),
{
    proof {
        reveal(pow);
    }
    if C == 0 {
        proof {
            if cells > 0 {
                assert(pow(0, cells as nat) == 0 * pow(0, (cells - 1) as nat));
            }
        }
        return if cells == 0 { 1 } else { 0 };
    }
    let mut r: usize = 1;
    let mut k: usize = 0;
    while k < cells
        invariant
            C >= 1,
            k <= cells,
            r == pow(C as int, k as nat) || (r == usize::MAX && pow(C as int, k as nat) > usize::MAX),
        decreases cells - k,
    {
        proof {
            reveal(pow);
            assert(pow(C as int, (k + 1) as nat) == C * pow(C as int, k as nat));
            lemma_pow_positive(C as int, k as nat);
            assert(pow(C as int, k as nat) <= C * pow(C as int, k as nat)) by (nonlinear_arith)
                requires
                    C >= 1,
                    pow(C as int, k as nat) > 0,
            ;
        }
        if r == usize::MAX {
            proof {
                if C > 1 {
                    assert(pow(C as int, k as nat) < C * pow(C as int, k as nat)) by (nonlinear_arith)
                        requires
                            C > 1,
                            pow(C as int, k as nat) > 0,
                    ;
                }
            }
        } else if r > usize::MAX / C {
            proof {
                assert(r * C > usize::MAX) by (nonlinear_arith)
                    requires
                        C > 0,
                        r > usize::MAX / C,
                ;
                assert(r * C == C * pow(C as int, k as nat)) by (nonlinear_arith)
                    requires
                        r == pow(C as int, k as nat),
                ;
            }
            r = usize::MAX;
        } else {
            proof {
                assert(r * C <= usize::MAX) by (nonlinear_arith)
                    requires
                        C > 0,
                        r <= usize::MAX / C,
                ;
                assert(r * C == C * pow(C as int, k as nat)) by (nonlinear_arith)
                    requires
                        r == pow(C as int, k as nat),
                ;
            }
            r = r * C;
        }
        k += 1;
    }
    r
}

/// A macro machine that carries a block of `cells` base cells behind the
/// head in its state; its colors are the base colors.
pub struct BacksymbolLogic<const S: usize, const C: usize> {
    pub cells: usize,
    pub backsymbols: usize,
    pub converter: TapeColorConverter<C>,
}

impl<const S: usize, const C: usize> Logic<S, C> for BacksymbolLogic<S, C> {
    open spec fn cells_spec(&self) -> nat {
        self.cells as nat
    }

    open spec fn span_len(&self) -> nat {
        self.cells as nat + 1
    }

    open spec fn fits(&self) -> bool {
        &&& 2 <= C <= 256
        &&& S >= 1
        &&& self.cells >= 1
        &&& self.converter.cells == self.cells
        &&& self.backsymbols == pow(C as int, self.cells as nat)
        &&& self.backsymbols < 256
        &&& S * self.backsymbols <= 256
    }

    open spec fn state_ok(&self, ms: MacroState) -> bool {
        ms / 2 < S * self.backsymbols
    }

    open spec fn color_ok(&self, mc: MacroColor) -> bool {
        mc < C
    }

    /// A base state and a back block, with a side.
    open spec fn macro_states_spec(&self) -> int {
        2 * (S * self.backsymbols)
    }

    /// The base colors.
    open spec fn macro_colors_spec(&self) -> int {
        C as int
    }

    /// The number of macro slots.
    open spec fn sim_lim_spec(&self) -> int {
        2 * (S * self.backsymbols) * C
    }

    /// Half the macro state is a base state times the number of back
    /// blocks plus the back block; the head is at the right end where the
    /// macro state is even, with the macro color left of the back block,
    /// and else right of it at the right end.
    open spec fn deconstruct_spec(&self, slot: MacroSlot) -> (State, bool, Seq<Color>) {
        let st_co = slot.0 / 2;
        let back = digits((st_co % self.backsymbols as u64) as int, C as int, self.cells as nat);
        let at_right = slot.0 % 2 == 1;
        (
            (st_co / self.backsymbols as u64) as u8,
            !at_right,
            if at_right { seq![slot.1 as u8] + back } else { back.push(slot.1 as u8) },
        )
    }

    /// The macro color is the cell at the end the head left by; the back
    /// block is the rest; the macro state is twice the base state times
    /// the number of back blocks plus the back block, plus one where the
    /// head left by the right.
    open spec fn reconstruct_spec(&self, state: State, side: bool, tape: Seq<Color>) -> MacroInstr {
        let n = tape.len() as int;
        let back = if !side { tape.subrange(0, n - 1) } else { tape.subrange(1, n) };
        let mc = if !side { tape[n - 1] } else { tape[0] };
        (
            mc as u64,
            !side,
            ((if !side { 1int } else { 0int }) + 2 * (state * self.backsymbols + cells_value(back, C as int))) as u64,
        )
    }

    fn new(cells: usize) -> (r: Self)
        ensures
            r.cells == cells,
            r.converter.cells == cells,
            pow(C as int, cells as nat) <= usize::MAX ==> r.backsymbols == pow(C as int, cells as nat),
    {
        BacksymbolLogic { cells, backsymbols: backsymbol_count::<C>(cells), converter: TapeColorConverter::new(cells) }
    }

    fn cells(&self) -> (r: usize) {
        self.cells
    }

    fn macro_states(&self) -> MacroState {
        (2 * (S * self.backsymbols)) as MacroState
    }

    fn macro_colors(&self) -> MacroColor {
        C as MacroColor
    }

    fn sim_lim(&self) -> usize {
        let states = 2 * (S * self.backsymbols);
        proof {
            assert(states * C <= 512 * 256) by (nonlinear_arith)
                requires
                    states <= 512,
                    C <= 256,
            ;
        }
        states * C
    }

    fn deconstruct_inputs(&self, slot: MacroSlot) -> (r: MacroConfig) {
        let (ms, mc) = slot;
        let macro_color = mc as u8;
        let (st_co, at_right) = div_rem(ms, 2);
        proof {
            lemma_pow_positive(C as int, self.cells as nat);
        }
        let (state, color) = div_rem(st_co, self.backsymbols as u64);
        proof {
            assert(state < S) by (nonlinear_arith)
                requires
                    st_co < S * self.backsymbols,
                    self.backsymbols > 0,
                    state == st_co / (self.backsymbols as u64),
            ;
            lemma_digits_value(color as int, C as int, self.cells as nat);
        }
        let backspan = self.converter.color_to_tape(&color);
        let mut tape: Vec<Color> = Vec::new();
        if at_right == 1 {
            tape.push(macro_color);
            let mut i: usize = 0;
            while i < backspan.len()
                invariant
                    i <= backspan@.len(),
                    tape@ == seq![macro_color] + backspan@.subrange(0, i as int),
                decreases backspan@.len() - i,
            {
                tape.push(backspan[i]);
                i += 1;
            }
        } else {
            let mut i: usize = 0;
            while i < backspan.len()
                invariant
                    i <= backspan@.len(),
                    tape@ == backspan@.subrange(0, i as int),
                decreases backspan@.len() - i,
            {
                tape.push(backspan[i]);
                i += 1;
            }
            tape.push(macro_color);
        }
        proof {
            assert(backspan@.subrange(0, backspan@.len() as int) =~= backspan@);
            assert forall|i: int| 0 <= i < tape@.len() implies (#[trigger] tape@[i] as int) < C by {
                if at_right == 1 {
                    if i > 0 {
                        assert(tape@[i] == backspan@[i - 1]);
                    }
                } else if i < backspan@.len() {
                    assert(tape@[i] == backspan@[i]);
                }
            }
        }
        (state as State, (at_right != 1, tape))
    }

    fn reconstruct_outputs(&self, config: MacroConfig) -> (r: MacroInstr) {
        let (state, (right_edge, tape)) = config;
        let shift = !right_edge;
        let n = tape.len();
        let (backspan, macro_color) = if shift {
            (cells_range(&tape, 0, n - 1), tape[n - 1])
        } else {
            (cells_range(&tape, 1, n), tape[0])
        };
        proof {
            assert(digits_below(backspan@, C as int)) by {
                assert forall|i: int| 0 <= i < backspan@.len() implies (#[trigger] backspan@[i] as int) < C by {
                    if shift {
                        assert(backspan@[i] == tape@[i]);
                    } else {
                        assert(backspan@ == tape@.subrange(1, n as int));
                        assert(backspan@[i] == tape@.subrange(1, n as int)[i]);
                    }
                }
            }
            lemma_value_bound(backspan@, C as int);
            assert(state * self.backsymbols < 256) by (nonlinear_arith)
                requires
                    state < S,
                    S * self.backsymbols <= 256,
                    self.backsymbols >= 1,
            ;
        }
        let value = self.converter.tape_to_color(backspan);
        let st_co = state * (self.backsymbols as u8);
        let out = (if shift { 1u64 } else { 0u64 }) + 2 * (st_co as u64 + value);
        proof {
            let bs = self.backsymbols as int;
            assert(st_co as int + value < S * bs) by (nonlinear_arith)
                requires
                    st_co as int == state * bs,
                    (state as int) < S,
                    0 <= value < bs,
            ;
        }
        (macro_color as MacroColor, shift, out)
    }

    proof fn lemma_zero_ok(&self) {
        lemma_pow_positive(C as int, self.cells as nat);
        assert(S * self.backsymbols >= 1) by (nonlinear_arith)
            requires
                S >= 1,
                self.backsymbols >= 1,
        ;
    }
}

impl<const S: usize, const C: usize> GetInstr for Prog<S, C> {
    open spec fn ready(&self) -> bool {
        true
    }

    open spec fn knows(&self, slot: Slot) -> bool {
        Self::in_range(slot.0 as int, slot.1 as int)
    }

    fn get_instr(&mut self, slot: &Slot) -> (r: GetInstrResult)
        ensures
            *final(self) == *old(self),
            r == Ok::<Option<Instr>, MacroExc>(old(self).instr_at(slot.0 as int, slot.1 as int)),
    {
        match self.get(slot) {
            Some(i) => Ok(Some(*i)),
            None => Ok(None),
        }
    }
}

/// A program seen as a macro machine: its instructions are computed by
/// running the base program on the block that a macro slot stands for,
/// and kept once computed. Macro states and colors are numbered in the
/// order they are met.
pub struct MacroProg<'p, const S: usize, const C: usize, L: Logic<S, C>> {
    prog: &'p Prog<S, C>,
    logic: L,
    instrs: BTreeMap<Slot, Instr>,
    states: Vec<MacroState>,
    colors: Vec<MacroColor>,
}

pub type BlockMacro<'p, const S: usize, const C: usize> = MacroProg<'p, S, C, BlockLogic<S, C>>;

pub type BacksymbolMacro<'p, const S: usize, const C: usize> = MacroProg<'p, S, C, BacksymbolLogic<S, C>>;

impl<'p, const S: usize, const C: usize, L: Logic<S, C>> MacroProg<'p, S, C, L> {
    /// The base program can be run, the logic's sizes fit, and every
    /// numbered macro state and color can be read.
    pub closed spec fn wf(&self) -> bool {
        &&& crate::bkw::prints_below(self.prog.instr_list(), C as int)
        &&& crate::bkw::targets_below(self.prog.instr_list(), S as int)
        &&& self.logic.fits()
        &&& self.states@.len() >= 1
        &&& self.colors@.len() >= 1
        &&& forall|i: int| 0 <= i < self.states@.len() ==> self.logic.state_ok(#[trigger] self.states@[i])
        &&& forall|i: int| 0 <= i < self.colors@.len() ==> self.logic.color_ok(#[trigger] self.colors@[i])
        &&& forall|s: Slot| #[trigger] self.instrs@.contains_key(s) ==> self.cached_ok(s, self.instrs@[s])
    }

    /// A stored instruction of a slot is the macro instruction of its
    /// macro slot, with the macro color and state numbered as first met.
    pub closed spec fn cached_ok(&self, s: Slot, i: Instr) -> bool {
        &&& (s.0 as int) < self.states@.len()
        &&& (s.1 as int) < self.colors@.len()
        &&& (self.slot_instr_spec(s) matches Some(Some(mi)) && i.1 == mi.1
            && (i.0 as int) < self.colors@.len() && first_ok(self.colors@, mi.0, i.0 as int)
            && (i.2 as int) < self.states@.len() && first_ok(self.states@, mi.2, i.2 as int))
    }

    /// The macro instruction of the macro slot that a numbered slot stands
    /// for.
    pub closed spec fn slot_instr_spec(&self, s: Slot) -> Option<Option<MacroInstr>> {
        self.macro_instr_spec((self.states@[s.0 as int], self.colors@[s.1 as int]))
    }

    /// The macro states and macro colors met so far, in the order they
    /// were numbered.
    pub closed spec fn numbered(&self) -> (Seq<MacroState>, Seq<MacroColor>) {
        (self.states@, self.colors@)
    }

    /// Stored instructions stay right where the numbered states and
    /// colors only grow at the end.
    proof fn lemma_cache_grows(&self, other: &Self)
        requires
            forall|s: Slot| #[trigger] self.instrs@.contains_key(s) ==> self.cached_ok(s, self.instrs@[s]),
            other.prog == self.prog,
            other.logic == self.logic,
            other.instrs == self.instrs,
            other.states@.len() >= self.states@.len(),
            other.colors@.len() >= self.colors@.len(),
            forall|j: int| 0 <= j < self.states@.len() ==> other.states@[j] == #[trigger] self.states@[j],
            forall|j: int| 0 <= j < self.colors@.len() ==> other.colors@[j] == #[trigger] self.colors@[j],
        ensures
            forall|s: Slot| #[trigger] other.instrs@.contains_key(s) ==> other.cached_ok(s, other.instrs@[s]),
    {
        assert forall|s: Slot| #[trigger] other.instrs@.contains_key(s) implies other.cached_ok(s, other.instrs@[s]) by {
            assert(self.cached_ok(s, self.instrs@[s]));
            let i = self.instrs@[s];
            let mi = self.slot_instr_spec(s)->0->0;
            assert(other.states@[s.0 as int] == self.states@[s.0 as int]);
            assert(other.colors@[s.1 as int] == self.colors@[s.1 as int]);
            assert(other.slot_instr_spec(s) == self.slot_instr_spec(s));
            assert(other.colors@[i.0 as int] == self.colors@[i.0 as int]);
            assert(other.states@[i.2 as int] == self.states@[i.2 as int]);
            assert forall|j: int| 0 <= j < i.0 as int implies other.colors@[j] != mi.0 by {
                assert(other.colors@[j] == self.colors@[j]);
            }
            assert forall|j: int| 0 <= j < i.2 as int implies other.states@[j] != mi.2 by {
                assert(other.states@[j] == self.states@[j]);
            }
        }
    }

    /// The numbers of macro states and colors met so far.
    pub closed spec fn known(&self) -> (nat, nat) {
        (self.states@.len(), self.colors@.len())
    }

    pub fn new(prog: &'p Prog<S, C>, logic: L) -> (r: Self)
        requires
            crate::bkw::prints_below(prog.instr_list(), C as int),
            crate::bkw::targets_below(prog.instr_list(), S as int),
            logic.fits(),
        ensures
            r.wf(),
            r.known() == (1nat, 1nat),
            r.logic_of() == logic,
    {
        proof {
            logic.lemma_zero_ok();
        }
        MacroProg { prog, logic, instrs: BTreeMap::new(), states: vec![0], colors: vec![0] }
    }

    /// The logic of the macro machine.
    pub closed spec fn logic_of(&self) -> L {
        self.logic
    }

    /// The numbers of macro states and colors of the macro machine.
    pub fn params(&self) -> (r: (MacroState, MacroColor))
        requires
            self.wf(),
        ensures
            r.0 == self.logic_of().macro_states_spec(),
            r.1 == self.logic_of().macro_colors_spec(),
    {
        (self.logic.macro_states(), self.logic.macro_colors())
    }

    /// The numbers of macro states and colors met so far.
    pub fn rep_params(&self) -> (r: (usize, usize))
        ensures
            (r.0 as nat, r.1 as nat) == self.known(),
    {
        (self.states.len(), self.colors.len())
    }

    fn convert_slot(&self, slot: &Slot) -> (r: MacroSlot)
        requires
            (slot.0 as int) < self.states@.len(),
            (slot.1 as int) < self.colors@.len(),
        ensures
            r == (self.states@[slot.0 as int], self.colors@[slot.1 as int]),
    {
        (self.states[slot.0 as usize], self.colors[slot.1 as usize])
    }

    /// The number of a macro state, numbering it where it is new.
    fn convert_state(&mut self, state: MacroState) -> (r: Result<State, MacroExc>)
        requires
            old(self).wf(),
            old(self).logic.state_ok(state),
        ensures
            final(self).wf(),
            final(self).prog == old(self).prog,
            final(self).logic == old(self).logic,
            final(self).colors == old(self).colors,
            final(self).instrs == old(self).instrs,
            final(self).states@.len() >= old(self).states@.len(),
            final(self).states@ == if first_at(old(self).states@, state) < old(self).states@.len() {
                old(self).states@
            } else {
                old(self).states@.push(state)
            },
            r is Ok <==> first_at(old(self).states@, state) < 256,
            r matches Ok(st) ==> st as int == first_at(old(self).states@, state),
            r matches Ok(st) ==> (st as int) < final(self).states@.len() && final(self).states@[st as int] == state,
    {
        let mut i: usize = 0;
        while i < self.states.len() && self.states[i] != state
            invariant
                i <= self.states@.len(),
                forall|j: int| 0 <= j < i ==> self.states@[j] != state,
            decreases self.states@.len() - i,
        {
            i += 1;
        }
        proof {
            lemma_first_at(self.states@, state, i as int);
        }
        if i == self.states.len() {
            self.states.push(state);
        }
        match State::try_from(i) {
            Ok(st) => Ok(st),
            Err(e) => Err(MacroExc::Conversion(e)),
        }
    }

    /// The number of a macro color, numbering it where it is new.
    fn convert_color(&mut self, color: MacroColor) -> (r: Result<Color, MacroExc>)
        requires
            old(self).wf(),
            old(self).logic.color_ok(color),
        ensures
            final(self).wf(),
            final(self).prog == old(self).prog,
            final(self).logic == old(self).logic,
            final(self).states == old(self).states,
            final(self).instrs == old(self).instrs,
            final(self).colors@.len() >= old(self).colors@.len(),
            final(self).colors@ == if first_at(old(self).colors@, color) < old(self).colors@.len() {
                old(self).colors@
            } else {
                old(self).colors@.push(color)
            },
            r is Ok <==> first_at(old(self).colors@, color) < 256,
            r matches Ok(co) ==> co as int == first_at(old(self).colors@, color),
            r matches Ok(co) ==> (co as int) < final(self).colors@.len() && final(self).colors@[co as int] == color,
    {
        let mut i: usize = 0;
        while i < self.colors.len() && self.colors[i] != color
            invariant
                i <= self.colors@.len(),
                forall|j: int| 0 <= j < i ==> self.colors@[j] != color,
            decreases self.colors@.len() - i,
        {
            i += 1;
        }
        proof {
            lemma_first_at(self.colors@, color, i as int);
        }
        if i == self.colors.len() {
            self.colors.push(color);
        }
        match Color::try_from(i) {
            Ok(co) => Ok(co),
            Err(e) => Err(MacroExc::Conversion(e)),
        }
    }

    /// Runs the base program on a block from one of its ends until the
    /// head leaves the block (the block and the side it left by), the run
    /// reaches an undefined slot (`None`), or the step limit passes
    /// (`InfLoop`). A run of same-state steps over one color is taken at
    /// once.
    fn run_simulator(&self, config: MacroConfig) -> (r: Result<Option<MacroConfig>, MacroExc>)
        requires
            self.wf(),
            (config.0 as int) < S,
            config.1.1@.len() >= 1,
            digits_below(config.1.1@, C as int),
        ensures
            r matches Ok(Some(c)) ==> (c.0 as int) < S && c.1.1@.len() == config.1.1@.len() && digits_below(c.1.1@, C as int),
            r matches Err(e) ==> e is InfLoop,
            ({
                let start = if config.1.0 { config.1.1@.len() - 1 } else { 0int };
                match sim_run(*self.prog, config.0, config.1.1@, start, self.logic.sim_lim_spec() as nat) {
                    None => r is Err,
                    Some(None) => r matches Ok(None),
                    Some(Some(c)) => r matches Ok(Some(d)) && c == (d.0, d.1.0, d.1.1@),
                }
            }),
    {
        let (mut state, (right_edge, mut tape)) = config;
        let cells = tape.len();
        let mut pos: usize = if right_edge { cells - 1 } else { 0 };
        let mut side: Option<bool> = None;
        let lim = self.logic.sim_lim();
        let ghost target = sim_run(*self.prog, state, tape@, pos as int, lim as nat);
        let mut n: usize = 0;
        while n < lim && side.is_none()
            invariant
                self.wf(),
                tape@.len() == cells,
                cells >= 1,
                (state as int) < S,
                digits_below(tape@, C as int),
                side is None ==> pos < cells,
                n <= lim,
                sim_run(*self.prog, state, tape@, sim_pos(side, pos as int, cells as int), (lim - n) as nat) == target,
                target == sim_run(*self.prog, config.0, config.1.1@, if config.1.0 { config.1.1@.len() - 1 } else { 0int },
                    self.logic.sim_lim_spec() as nat),
            decreases lim - n,
        {
            let ghost fuel = (lim - n) as nat;
            let scan = tape[pos];
            let instr = match self.prog.get(&(state, scan)) {
                None => {
                    assert(sim_run(*self.prog, state, tape@, pos as int, fuel) == Some(None::<(State, bool, Seq<Color>)>));
                    return Ok(None);
                },
                Some(i) => *i,
            };
            let (color, shift, next_state) = instr;
            proof {
                use_type_invariant(self.prog);
                self.prog.lemma_instr_at_listed(state as int, scan as int);
                let j = choose|j: int| 0 <= j < self.prog.instr_list().len() && #[trigger] self.prog.instr_list()[j]
                    == self.prog.instr_at(state as int, scan as int)->0;
                assert(self.prog.instr_list()[j] == instr);
            }
            let ghost t0 = tape@;
            let ghost p0 = pos as int;
            assert(side is None);
            if next_state != state {
                state = next_state;
                tape.set(pos, color);
                if shift {
                    pos += 1;
                    if cells <= pos {
                        side = Some(true);
                    }
                } else if pos == 0 {
                    side = Some(false);
                } else {
                    pos -= 1;
                }
            } else if shift {
                let ghost sw = sweep_right(t0, p0, scan, color);
                let mut go = true;
                while go
                    invariant
                        tape@.len() == cells,
                        (color as int) < C,
                        digits_below(tape@, C as int),
                        go ==> pos < cells,
                        !go ==> pos < cells || side == Some(true),
                        go ==> side is None && sweep_right(tape@, pos as int, scan, color) == sw,
                        !go ==> sw == (tape@, sim_pos(side, pos as int, cells as int)) && (side is None || side == Some(true)),
                    decreases cells - pos + if go { 1int } else { 0int },
                {
                    if tape[pos] == scan {
                        tape.set(pos, color);
                        pos += 1;
                        if cells <= pos {
                            side = Some(true);
                            go = false;
                        }
                    } else {
                        go = false;
                    }
                }
            } else {
                let ghost sw = sweep_left(t0, p0, scan, color);
                let mut go = true;
                while go
                    invariant
                        tape@.len() == cells,
                        (color as int) < C,
                        digits_below(tape@, C as int),
                        pos < cells,
                        go ==> side is None && sweep_left(tape@, pos as int, scan, color) == sw,
                        !go ==> sw == (tape@, sim_pos(side, pos as int, cells as int)) && (side is None || side == Some(false)),
                    decreases pos + if go { 1int } else { 0int },
                {
                    if tape[pos] == scan {
                        let ghost tb = tape@;
                        tape.set(pos, color);
                        if pos == 0 {
                            assert(sweep_left(tb, 0, scan, color) == sweep_left(tape@, -1, scan, color));
                            side = Some(false);
                            go = false;
                        } else {
                            pos -= 1;
                        }
                    } else {
                        go = false;
                    }
                }
            }
            n += 1;
        }
        match side {
            None => Err(MacroExc::InfLoop),
            Some(sd) => Ok(Some((state, (sd, tape)))),
        }
    }

    /// The macro instruction of a macro slot: the base program run on its
    /// configuration, read back; `Some(None)` where the run reaches an
    /// undefined slot, `None` where it does not leave the span within the
    /// step limit.
    pub closed spec fn macro_instr_spec(&self, slot: MacroSlot) -> Option<Option<MacroInstr>> {
        let (st, right, tape) = self.logic.deconstruct_spec(slot);
        match sim_run(*self.prog, st, tape, if right { tape.len() - 1 } else { 0int }, self.logic.sim_lim_spec() as nat) {
            None => None,
            Some(None) => Some(None),
            Some(Some(c)) => Some(Some(self.logic.reconstruct_spec(c.0, c.1, c.2))),
        }
    }

    fn calculate_instr(&self, slot: MacroSlot) -> (r: Result<Option<MacroInstr>, MacroExc>)
        requires
            self.wf(),
            self.logic.state_ok(slot.0),
            self.logic.color_ok(slot.1),
        ensures
            r matches Ok(Some(i)) ==> self.logic.state_ok(i.2) && self.logic.color_ok(i.0),
            match self.macro_instr_spec(slot) {
                None => r matches Err(e) && e is InfLoop,
                Some(None) => r matches Ok(None),
                Some(Some(i)) => r matches Ok(Some(j)) && j == i,
            },
    {
        let config = self.logic.deconstruct_inputs(slot);
        proof {
            self.logic.lemma_zero_ok();
        }
        match self.run_simulator(config) {
            Err(e) => Err(e),
            Ok(None) => Ok(None),
            Ok(Some(c)) => Ok(Some(self.logic.reconstruct_outputs(c))),
        }
    }
}

impl<'p, const S: usize, const C: usize, L: Logic<S, C>> GetInstr for MacroProg<'p, S, C, L> {
    open spec fn ready(&self) -> bool {
        self.wf()
    }

    closed spec fn knows(&self, slot: Slot) -> bool {
        (slot.0 as int) < self.states@.len() && (slot.1 as int) < self.colors@.len()
    }

    /// The instruction is the macro instruction of the macro slot, its
    /// macro color and state numbered as first met; numbering a new one
    /// fails past the last base number.
    fn get_instr(&mut self, slot: &Slot) -> (r: GetInstrResult)
        ensures
            match old(self).slot_instr_spec(*slot) {
                None => (r matches Err(e) && e is InfLoop) && final(self).numbered() == old(self).numbered(),
                Some(None) => r matches Ok(None) && final(self).numbered() == old(self).numbered(),
                Some(Some(mi)) => {
                    let (sts, cos) = old(self).numbered();
                    let kc = first_at(cos, mi.0);
                    let ks = first_at(sts, mi.2);
                    &&& final(self).numbered().1 == grown(cos, mi.0)
                    &&& final(self).numbered().0 == if kc < 256 { grown(sts, mi.2) } else { sts }
                    &&& kc < 256 && ks < 256 ==> (r matches Ok(Some(i)) && i == (kc as u8, mi.1, ks as u8))
                    &&& kc >= 256 || ks >= 256 ==> r is Err
                },
            },
    {
        if let Some(instr) = self.instrs.get(slot) {
            proof {
                assert(self.instrs@.contains_key(*slot));
                assert(self.cached_ok(*slot, *instr));
                let mi = self.slot_instr_spec(*slot)->0->0;
                lemma_first_at(self.colors@, mi.0, instr.0 as int);
                lemma_first_at(self.states@, mi.2, instr.2 as int);
            }
            return Ok(Some(*instr));
        }
        let ghost old_self = *self;
        let macro_slot = self.convert_slot(slot);
        let (macro_color, shift, macro_state) = match self.calculate_instr(macro_slot) {
            Err(e) => {
                return Err(e);
            },
            Ok(None) => {
                return Ok(None);
            },
            Ok(Some(i)) => i,
        };
        let color = match self.convert_color(macro_color) {
            Err(e) => {
                return Err(e);
            },
            Ok(c) => c,
        };
        let state = match self.convert_state(macro_state) {
            Err(e) => {
                return Err(e);
            },
            Ok(st) => st,
        };
        let instr = (color, shift, state);
        proof {
            assert forall|j: int| 0 <= j < old_self.states@.len() implies self.states@[j] == #[trigger] old_self.states@[j] by {}
            assert forall|j: int| 0 <= j < old_self.colors@.len() implies self.colors@[j] == #[trigger] old_self.colors@[j] by {}
            old_self.lemma_cache_grows(self);
            assert(self.slot_instr_spec(*slot) == old_self.slot_instr_spec(*slot));
            lemma_first_at_ok(old_self.colors@, macro_color);
            lemma_first_at_ok(old_self.states@, macro_state);
            assert(first_ok(self.colors@, macro_color, color as int));
            assert(first_ok(self.states@, macro_state, state as int));
            assert(self.cached_ok(*slot, instr));
        }
        self.instrs.insert(*slot, instr);
        Ok(Some(instr))
    }
}

impl<const S: usize, const C: usize> Prog<S, C> {
    /// The macro machine on blocks of `blocks` cells.
    pub fn make_block_macro(&self, blocks: usize) -> (r: BlockMacro<'_, S, C>)
        requires
            crate::bkw::prints_below(self.instr_list(), C as int),
            crate::bkw::targets_below(self.instr_list(), S as int),
            2 <= C <= 256,
            1 <= S <= 128,
            blocks >= 1,
            pow(C as int, blocks as nat) <= u64::MAX,
            blocks * S * pow(C as int, blocks as nat) <= usize::MAX,
        ensures
            r.wf(),
            r.logic_of().cells == blocks,
    {
        MacroProg::new(self, BlockLogic::new(blocks))
    }

    /// The macro machine that carries `backsymbols` cells behind the head.
    pub fn make_backsymbol_macro(&self, backsymbols: usize) -> (r: BacksymbolMacro<'_, S, C>)
        requires
            crate::bkw::prints_below(self.instr_list(), C as int),
            crate::bkw::targets_below(self.instr_list(), S as int),
            2 <= C <= 256,
            S >= 1,
            backsymbols >= 1,
            pow(C as int, backsymbols as nat) < 256,
            S * pow(C as int, backsymbols as nat) <= 256,
        ensures
            r.wf(),
            r.logic_of().cells == backsymbols,
            r.logic_of().backsymbols == pow(C as int, backsymbols as nat),
    {
        MacroProg::new(self, BacksymbolLogic::new(backsymbols))
    }
}

/// The slots a history macro machine remembers, most recent first.
pub type History = Vec<Slot>;

/// How a history macro machine updates its history at a step.
#[derive(Clone, Copy, PartialEq, Eq, Structural)]
pub enum Updater {
    /// Keep each slot once, the most recently used first.
    Lru,
    /// Keep the last `n` slots, most recent first.
    Transcript(usize),
}

/// The history without `slot`.
pub open spec fn drop_slot(past: Seq<Slot>, slot: Slot) -> Seq<Slot> {
    past.filter(|s: Slot| s != slot)
}

/// The history after `slot` is used: it moves to the front.
pub open spec fn lru_spec(slot: Slot, past: Seq<Slot>) -> Seq<Slot> {
    if past.len() > 0 && past[0] == slot {
        past
    } else {
        seq![slot] + drop_slot(past, slot)
    }
}

/// A copy of a history.
fn copy_history(past: &History) -> (r: History)
    ensures
        r@ == past@,
{
    let mut r: History = Vec::new();
    let mut i: usize = 0;
    while i < past.len()
        invariant
            i <= past@.len(),
            r@ == past@.subrange(0, i as int),
        decreases past@.len() - i,
    {
        r.push(past[i]);
        i += 1;
    }
    assert(past@.subrange(0, past@.len() as int) =~= past@);
    r
}

/// The history after `slot` is used, keeping at most `steps` entries
/// where it already had that many.
pub open spec fn transcript_spec(steps: usize, slot: Slot, past: Seq<Slot>) -> Seq<Slot> {
    seq![slot] + if steps <= past.len() && past.len() > 0 { past.drop_last() } else { past }
}

/// Whether two slots are the same.
fn same_slot(a: Slot, b: Slot) -> (r: bool)
    ensures
        r == (a == b),
{
    a.0 == b.0 && a.1 == b.1
}

/// Moves `slot` to the front of the history.
pub fn update_lru(slot: Slot, past: &History) -> (r: History)
    ensures
        r@ == lru_spec(slot, past@),
{
    if past.len() > 0 && same_slot(past[0], slot) {
        return copy_history(past);
    }
    let mut r: History = Vec::new();
    r.push(slot);
    let mut i: usize = 0;
    while i < past.len()
        invariant
            i <= past@.len(),
            r@ == seq![slot] + drop_slot(past@.subrange(0, i as int), slot),
        decreases past@.len() - i,
    {
        proof {
            reveal_with_fuel(Seq::filter, 1);
            assert(past@.subrange(0, i + 1).drop_last() =~= past@.subrange(0, i as int));
        }
        if !same_slot(past[i], slot) {
            r.push(past[i]);
        }
        proof {
            assert(r@ =~= seq![slot] + drop_slot(past@.subrange(0, i + 1), slot));
        }
        i += 1;
    }
    assert(past@.subrange(0, past@.len() as int) =~= past@);
    r
}

/// Puts `slot` at the front of the history, dropping its last entry where
/// it already had `steps` of them.
pub fn update_transcript(steps: usize, slot: Slot, past: &History) -> (r: History)
    ensures
        r@ == transcript_spec(steps, slot, past@),
{
    let mut history = copy_history(past);
    if steps <= history.len() {
        history.pop();
    }
    history.insert(0, slot);
    assert(history@ =~= transcript_spec(steps, slot, past@));
    history
}

/// The history that an updater gives after `slot` is used.
pub open spec fn updated(u: Updater, slot: Slot, past: Seq<Slot>) -> Seq<Slot> {
    match u {
        Updater::Lru => lru_spec(slot, past),
        Updater::Transcript(n) => transcript_spec(n, slot, past),
    }
}

impl Updater {
    /// The history after `slot` is used.
    pub fn update(&self, slot: Slot, past: &History) -> (r: History)
        ensures
            r@ == match *self {
                Updater::Lru => lru_spec(slot, past@),
                Updater::Transcript(n) => transcript_spec(n, slot, past@),
            },
    {
        match self {
            Updater::Lru => update_lru(slot, past),
            Updater::Transcript(n) => update_transcript(*n, slot, past),
        }
    }
}

/// Whether two histories are the same.
fn same_history(a: &History, b: &History) -> (r: bool)
    ensures
        r == (a@ == b@),
{
    if a.len() != b.len() {
        return false;
    }
    let mut i: usize = 0;
    while i < a.len()
        invariant
            a@.len() == b@.len(),
            i <= a@.len(),
            forall|j: int| 0 <= j < i ==> a@[j] == b@[j],
        decreases a@.len() - i,
    {
        if !same_slot(a[i], b[i]) {
            return false;
        }
        i += 1;
    }
    assert(a@ =~= b@);
    true
}

/// A program seen as a macro machine whose colors are a base color with a
/// history of the slots used; the histories are numbered in the order they
/// are met.
pub struct HistoryMacro<'p, const S: usize, const C: usize> {
    prog: &'p Prog<S, C>,
    instrs: BTreeMap<Slot, Instr>,
    colors: Vec<(Color, History)>,
    updater: Updater,
}

impl<'p, const S: usize, const C: usize> HistoryMacro<'p, S, C> {
    /// The base program can be run and every numbered color is a base
    /// color.
    pub closed spec fn wf(&self) -> bool {
        &&& crate::bkw::prints_below(self.prog.instr_list(), C as int)
        &&& self.colors@.len() >= 1
        &&& forall|i: int| 0 <= i < self.colors@.len() ==> ((#[trigger] self.colors@[i]).0 as int) < C
        &&& forall|s: Slot| #[trigger] self.instrs@.contains_key(s) ==> self.cached_ok(s, self.instrs@[s])
    }

    /// A stored instruction of a macro slot is the one that the base step
    /// under it gives, its print numbered as first met.
    pub closed spec fn cached_ok(&self, s: Slot, i: Instr) -> bool {
        &&& (s.0 as int) < S
        &&& (s.1 as int) < self.colors@.len()
        &&& (self.base_step(s) matches Some((ph, sh, tr)) && i.1 == sh && i.2 == tr
            && (i.0 as int) < self.colors@.len() && first_ok(self.known_colors(), ph, i.0 as int))
    }

    /// What the base program does on the base slot under a macro slot: its
    /// print with the history that the new color carries, its shift and
    /// its next state; `None` where that base slot is undefined.
    pub closed spec fn base_step(&self, slot: Slot) -> Option<((Color, Seq<Slot>), Shift, State)> {
        let (c, h) = self.known_colors()[slot.1 as int];
        match self.prog.instr_at(slot.0 as int, c as int) {
            None => None,
            Some(i) => Some(((i.0, updated(self.updater, (slot.0, c), h)), i.1, i.2)),
        }
    }

    /// The colors met so far, with their histories.
    pub closed spec fn known_colors(&self) -> Seq<(Color, Seq<Slot>)> {
        self.colors@.map_values(|e: (Color, History)| (e.0, e.1@))
    }

    pub fn new(prog: &'p Prog<S, C>, updater: Updater) -> (r: Self)
        requires
            crate::bkw::prints_below(prog.instr_list(), C as int),
            C >= 1,
        ensures
            r.wf(),
            r.known_colors() == seq![(0u8, Seq::<Slot>::empty())],
    {
        let mut colors: Vec<(Color, History)> = Vec::new();
        colors.push((0, Vec::new()));
        let r = HistoryMacro { prog, instrs: BTreeMap::new(), colors, updater };
        assert(r.known_colors() =~= seq![(0u8, Seq::<Slot>::empty())]);
        r
    }

    /// The number of a macro color, numbering it where it is new.
    fn encode(&mut self, print: Color, history: History) -> (r: Result<Color, MacroExc>)
        requires
            old(self).wf(),
            (print as int) < C,
        ensures
            final(self).wf(),
            final(self).prog == old(self).prog,
            final(self).instrs == old(self).instrs,
            final(self).updater == old(self).updater,
            final(self).colors@.len() >= old(self).colors@.len(),
            final(self).known_colors() == if first_at(old(self).known_colors(), (print, history@)) < old(self).known_colors().len() {
                old(self).known_colors()
            } else {
                old(self).known_colors().push((print, history@))
            },
            r is Ok <==> first_at(old(self).known_colors(), (print, history@)) < 256,
            r matches Ok(co) ==> co as int == first_at(old(self).known_colors(), (print, history@)),
            r matches Ok(co) ==> (co as int) < final(self).colors@.len() && final(self).colors@[co as int].0 == print
                && final(self).colors@[co as int].1@ == history@,
    {
        let ghost k0 = self.known_colors();
        let mut i: usize = 0;
        while i < self.colors.len() && !(self.colors[i].0 == print && same_history(&self.colors[i].1, &history))
            invariant
                i <= self.colors@.len(),
                k0 == self.known_colors(),
                k0.len() == self.colors@.len(),
                forall|j: int| 0 <= j < i ==> k0[j] != (print, history@),
            decreases self.colors@.len() - i,
        {
            assert(k0[i as int] == (self.colors@[i as int].0, self.colors@[i as int].1@));
            i += 1;
        }
        proof {
            if i < self.colors@.len() {
                assert(k0[i as int] == (self.colors@[i as int].0, self.colors@[i as int].1@));
            }
            lemma_first_at(k0, (print, history@), i as int);
        }
        if i == self.colors.len() {
            let ghost h = history@;
            self.colors.push((print, history));
            proof {
                assert(self.known_colors() =~= k0.push((print, h)));
            }
        }
        match Color::try_from(i) {
            Ok(co) => Ok(co),
            Err(e) => Err(MacroExc::Conversion(e)),
        }
    }
}

impl<'p, const S: usize, const C: usize> GetInstr for HistoryMacro<'p, S, C> {
    open spec fn ready(&self) -> bool {
        self.wf()
    }

    closed spec fn knows(&self, slot: Slot) -> bool {
        (slot.0 as int) < S && (slot.1 as int) < self.colors@.len()
    }

    /// The macro print is the number of the base print with its new
    /// history, numbered where it is new; the shift and state are the base
    /// ones.
    fn get_instr(&mut self, macro_slot: &Slot) -> (r: GetInstrResult)
        ensures
            match old(self).base_step(*macro_slot) {
                None => r matches Ok(None) && final(self).known_colors() == old(self).known_colors(),
                Some((ph, sh, tr)) => {
                    let k = first_at(old(self).known_colors(), ph);
                    &&& final(self).known_colors() == if k < old(self).known_colors().len() {
                        old(self).known_colors()
                    } else {
                        old(self).known_colors().push(ph)
                    }
                    &&& k < 256 ==> (r matches Ok(Some(i)) && i == (k as u8, sh, tr))
                    &&& k >= 256 ==> r is Err
                },
            },
    {
        if let Some(instr) = self.instrs.get(macro_slot) {
            proof {
                assert(self.instrs@.contains_key(*macro_slot));
                assert(self.cached_ok(*macro_slot, *instr));
                let (ph, sh, tr) = self.base_step(*macro_slot)->0;
                lemma_first_at(self.known_colors(), ph, instr.0 as int);
            }
            return Ok(Some(*instr));
        }
        let ghost old_self = *self;
        let (state, macro_color) = *macro_slot;
        let color = self.colors[macro_color as usize].0;
        let slot = (state, color);
        let updated = self.updater.update(slot, &self.colors[macro_color as usize].1);
        assert(self.known_colors()[macro_color as int] == (color, self.colors@[macro_color as int].1@));
        let instr = match self.prog.get(&slot) {
            None => {
                return Ok(None);
            },
            Some(i) => *i,
        };
        let (print, shift, trans) = instr;
        proof {
            use_type_invariant(self.prog);
            self.prog.lemma_instr_at_listed(state as int, color as int);
            let j = choose|j: int| 0 <= j < self.prog.instr_list().len() && #[trigger] self.prog.instr_list()[j]
                == self.prog.instr_at(state as int, color as int)->0;
            assert(self.prog.instr_list()[j] == instr);
        }
        let macro_print = match self.encode(print, updated) {
            Err(e) => {
                return Err(e);
            },
            Ok(c) => c,
        };
        let macro_instr = (macro_print, shift, trans);
        proof {
            let k0 = old_self.known_colors();
            let ph = (print, updated@);
            lemma_first_at_ok(k0, ph);
            assert(self.known_colors().len() >= k0.len());
            assert forall|j: int| 0 <= j < k0.len() implies self.known_colors()[j] == #[trigger] k0[j] by {}
            assert(self.base_step(*macro_slot) == old_self.base_step(*macro_slot));
            assert(first_ok(self.known_colors(), ph, macro_print as int));
            assert forall|s2: Slot| #[trigger] old_self.instrs@.contains_key(s2) implies self.cached_ok(s2, old_self.instrs@[s2]) by {
                assert(old_self.cached_ok(s2, old_self.instrs@[s2]));
                assert(self.base_step(s2) == old_self.base_step(s2));
                let (ph2, sh2, tr2) = old_self.base_step(s2)->0;
                let i2 = old_self.instrs@[s2].0 as int;
                assert(first_ok(self.known_colors(), ph2, i2));
            }
        }
        self.instrs.insert(*macro_slot, macro_instr);
        Ok(Some(macro_instr))
    }
}

impl<const S: usize, const C: usize> Prog<S, C> {
    /// The macro machine whose colors remember the slots used, most recent
    /// first, each once.
    pub fn make_lru_macro(&self) -> (r: HistoryMacro<'_, S, C>)
        requires
            crate::bkw::prints_below(self.instr_list(), C as int),
            C >= 1,
        ensures
            r.wf(),
    {
        HistoryMacro::new(self, Updater::Lru)
    }

    /// The macro machine whose colors remember the last `steps` slots
    /// used.
    pub fn make_transcript_macro(&self, steps: usize) -> (r: HistoryMacro<'_, S, C>)
        requires
            crate::bkw::prints_below(self.instr_list(), C as int),
            C >= 1,
        ensures
            r.wf(),
    {
        HistoryMacro::new(self, Updater::Transcript(steps))
    }
}

/// The base configuration that a block macro slot starts from, as the
/// simulator starts it: its state, its block, and the head at the end
/// the macro state names.
pub open spec fn block_start<const S: usize, const C: usize>(logic: BlockLogic<S, C>, ms: MacroSlot) -> crate::simloop::SimCfg {
    let (st, right, tape) = logic.deconstruct_spec(ms);
    (st, tape, if right { tape.len() - 1 } else { 0int })
}

/// A block macro machine gives up on a slot (its simulation has not left
/// the block within the step limit, so `get_instr` answers `InfLoop`) only
/// where the base run from that slot's configuration never leaves the
/// block nor reaches an undefined slot, however many moves it is given:
/// the limit is at least the number of base configurations on a block.
pub proof fn lemma_block_gives_up_forever<const S: usize, const C: usize>(prog: Prog<S, C>, logic: BlockLogic<S, C>, ms: MacroSlot)
    requires
        prog.inv(),
        crate::bkw::prints_below(prog.instr_list(), C as int),
        crate::bkw::targets_below(prog.instr_list(), S as int),
        logic.fits(),
        logic.state_ok(ms.0),
        logic.color_ok(ms.1),
        crate::simloop::run_from(prog, block_start(logic, ms), logic.sim_lim_spec() as nat) is None,
    ensures
        forall|fuel: nat| #[trigger] crate::simloop::run_from(prog, block_start(logic, ms), fuel) is None,
{
    let c = block_start(logic, ms);
    lemma_digits_value(ms.1 as int, C as int, logic.cells as nat);
    assert(crate::simloop::cfg_ok::<S, C>(c, logic.cells as nat));
    crate::simloop::lemma_never_leaves(prog, c, logic.cells as nat, logic.sim_lim_spec() as nat);
}

/// The base configuration that a back-symbol macro slot starts from, as
/// the simulator starts it.
pub open spec fn backsymbol_start<const S: usize, const C: usize>(logic: BacksymbolLogic<S, C>, ms: MacroSlot) -> crate::simloop::SimCfg {
    let (st, right, tape) = logic.deconstruct_spec(ms);
    (st, tape, if right { tape.len() - 1 } else { 0int })
}

/// A back-symbol macro machine that carries one cell behind the head gives
/// up on a slot only where the base run from that slot's configuration
/// never leaves its two cells nor reaches an undefined slot: its step
/// limit is then the number of base configurations on two cells.
pub proof fn lemma_backsymbol_gives_up_forever<const S: usize, const C: usize>(
    prog: Prog<S, C>,
    logic: BacksymbolLogic<S, C>,
    ms: MacroSlot,
)
    requires
        prog.inv(),
        crate::bkw::prints_below(prog.instr_list(), C as int),
        crate::bkw::targets_below(prog.instr_list(), S as int),
        logic.fits(),
        logic.cells == 1,
        logic.state_ok(ms.0),
        logic.color_ok(ms.1),
        crate::simloop::run_from(prog, backsymbol_start(logic, ms), logic.sim_lim_spec() as nat) is None,
    ensures
        forall|fuel: nat| #[trigger] crate::simloop::run_from(prog, backsymbol_start(logic, ms), fuel) is None,
{
    let c = backsymbol_start(logic, ms);
    let bs = logic.backsymbols as int;
    let bsu = logic.backsymbols as u64;
    let st_co: u64 = ms.0 / 2;
    lemma_pow_positive(C as int, 1);
    assert(pow(C as int, 1) == C) by {
        vstd::arithmetic::power::lemma_pow1(C as int);
    }
    assert(bs == C);
    assert(bsu as int == bs);
    assert((st_co as int) / bs < S) by (nonlinear_arith)
        requires
            (st_co as int) < S * bs,
            bs > 0,
    ;
    lemma_digits_value((st_co % bsu) as int, C as int, 1);
    let back = digits((st_co % bsu) as int, C as int, 1);
    assert(digits_below(c.1, C as int)) by {
        assert forall|i: int| 0 <= i < c.1.len() implies (#[trigger] c.1[i] as int) < C by {
            if ms.0 % 2 == 1 {
                if i > 0 {
                    assert(c.1[i] == back[i - 1]);
                }
            } else if i < 1 {
                assert(c.1[i] == back[i]);
            }
        }
    }
    assert(c.1.len() == 2);
    assert(crate::simloop::cfg_ok::<S, C>(c, 2));
    assert(pow(C as int, 2) == C * C) by {
        vstd::arithmetic::power::lemma_pow1(C as int);
        vstd::arithmetic::power::lemma_pow_adds(C as int, 1, 1);
    }
    assert(2 * S * (C * C) == 2 * (S * bs) * C) by (nonlinear_arith)
        requires
            bs == C,
    ;
    crate::simloop::lemma_never_leaves(prog, c, 2, logic.sim_lim_spec() as nat);
}

} // verus!
