//! Which three-cell windows around the head can occur on runs from the
//! blank tape, with tallies of the nonblank cells on each side.
//!
//! An abstract window is the state, the scanned color, the two neighbors,
//! and for each side whether everything beyond the neighbor is known to be
//! blank. A step moves the window; where the cell brought in is beyond a
//! known blank tail it is blank, and otherwise it may be any color that can
//! stand on that side. Each window carries a tally of the nonblank cells on
//! the two sides: their parities, their counts modulo 3, or the parities of
//! the number of cells of each nonblank color. The windows that can occur
//! are the least set that holds the start and is closed under steps.
use vstd::prelude::*;

use vstd::arithmetic::div_mod::lemma_fundamental_div_mod_converse;
use vstd::arithmetic::div_mod::lemma_fundamental_div_mod;

use crate::bkw::tape::{Block, BlockCount, Span, Tape, TapeEnd};
use crate::instrs::{Color, Instr, Shift, State};
use crate::prog::Prog;

verus! {

/// An abstract window around the head.
#[derive(Clone, Copy, PartialEq, Eq, Structural)]
pub struct Window {
    pub state: State,
    /// Everything left of the left neighbor is blank.
    pub left_blank: bool,
    pub left: Color,
    pub scan: Color,
    pub right: Color,
    /// Everything right of the right neighbor is blank.
    pub right_blank: bool,
}

/// What a window's tally counts.
#[derive(Clone, Copy, PartialEq, Eq, Structural)]
pub enum Tally {
    /// The parities of the nonblank cells left and right of the window:
    /// `left + 2 * right`.
    SideParity,
    /// The numbers of nonblank cells left and right of the window modulo
    /// 3: `left + 3 * right`.
    SideMod3,
    /// For each nonblank color `k`, the parity of the number of its cells
    /// on the whole tape, as bit `k - 1`.
    ColorParity,
}

pub open spec fn b2i(b: bool) -> int {
    if b { 1 } else { 0 }
}

/// The position of a window in a table of all windows.
pub open spec fn wid(w: Window, colors: int) -> int {
    ((((w.state * 2 + b2i(w.left_blank)) * colors + w.left) * colors + w.scan) * colors + w.right) * 2
        + b2i(w.right_blank)
}

/// A window of states below `states` and colors below `colors`.
pub open spec fn win_in(w: Window, states: int, colors: int) -> bool {
    w.state < states && w.left < colors && w.scan < colors && w.right < colors
}

/// The number of windows of `states` states and `colors` colors.
pub open spec fn win_total(states: int, colors: int) -> int {
    states * 2 * colors * colors * colors * 2
}

proof fn lemma_digit(a: int, d: int, x: int, big: int)
    requires
        0 <= a < big,
        0 <= x < d,
    ensures
        0 <= a * d + x < big * d,
{
    assert(0 <= a * d + x < big * d) by (nonlinear_arith)
        requires
            0 <= a < big,
            0 <= x < d,
    ;
}

/// A window's position lies in the table.
pub proof fn lemma_wid_bound(w: Window, states: int, colors: int)
    requires
        win_in(w, states, colors),
    ensures
        0 <= wid(w, colors) < win_total(states, colors),
{
    let a = w.state * 2 + b2i(w.left_blank);
    lemma_digit(w.state as int, 2, b2i(w.left_blank), states);
    let b = a * colors + w.left;
    lemma_digit(a, colors, w.left as int, states * 2);
    let c = b * colors + w.scan;
    lemma_digit(b, colors, w.scan as int, states * 2 * colors);
    let d = c * colors + w.right;
    lemma_digit(c, colors, w.right as int, states * 2 * colors * colors);
    lemma_digit(d, 2, b2i(w.right_blank), states * 2 * colors * colors * colors);
}

/// Different windows have different positions.
pub proof fn lemma_wid_inj(v: Window, w: Window, states: int, colors: int)
    requires
        win_in(v, states, colors),
        win_in(w, states, colors),
        wid(v, colors) == wid(w, colors),
    ensures
        v == w,
{
    let x = wid(v, colors);
    let va = v.state * 2 + b2i(v.left_blank);
    let wa = w.state * 2 + b2i(w.left_blank);
    let vb = va * colors + v.left;
    let wb = wa * colors + w.left;
    let vc = vb * colors + v.scan;
    let wc = wb * colors + w.scan;
    let vd = vc * colors + v.right;
    let wd = wc * colors + w.right;
    lemma_fundamental_div_mod_converse(x, 2, vd, b2i(v.right_blank));
    lemma_fundamental_div_mod_converse(x, 2, wd, b2i(w.right_blank));
    lemma_fundamental_div_mod_converse(vd, colors, vc, v.right as int);
    lemma_fundamental_div_mod_converse(wd, colors, wc, w.right as int);
    lemma_fundamental_div_mod_converse(vc, colors, vb, v.scan as int);
    lemma_fundamental_div_mod_converse(wc, colors, wb, w.scan as int);
    lemma_fundamental_div_mod_converse(vb, colors, va, v.left as int);
    lemma_fundamental_div_mod_converse(wb, colors, wa, w.left as int);
    lemma_fundamental_div_mod_converse(va, 2, v.state as int, b2i(v.left_blank));
    lemma_fundamental_div_mod_converse(wa, 2, w.state as int, b2i(w.left_blank));
}

proof fn lemma_grow(x: int, y: int)
    requires
        x >= 0,
        y >= 1,
    ensures
        x <= x * y,
{
    assert(x <= x * y) by (nonlinear_arith)
        requires
            x >= 0,
            y >= 1,
    ;
}

/// The position of a window in the table.
fn window_index(w: Window, Ghost(states): Ghost<int>, colors: usize) -> (r: usize)
    requires
        win_in(w, states, colors as int),
        win_total(states, colors as int) <= usize::MAX,
    ensures
        r == wid(w, colors as int),
        r < win_total(states, colors as int),
{
    let ghost c = colors as int;
    proof {
        lemma_wid_bound(w, states, c);
        lemma_digit(w.state as int, 2, b2i(w.left_blank), states);
        lemma_grow(states * 2, c);
        lemma_grow(states * 2 * c, c);
        lemma_grow(states * 2 * c * c, c);
        lemma_grow(states * 2 * c * c * c, 2);
    }
    let lb: usize = if w.left_blank { 1 } else { 0 };
    let rb: usize = if w.right_blank { 1 } else { 0 };
    let a = w.state as usize * 2 + lb;
    proof {
        lemma_digit(a as int, c, w.left as int, states * 2);
    }
    let b = a * colors + w.left as usize;
    proof {
        lemma_digit(b as int, c, w.scan as int, states * 2 * c);
    }
    let d = b * colors + w.scan as usize;
    proof {
        lemma_digit(d as int, c, w.right as int, states * 2 * c * c);
    }
    let e = d * colors + w.right as usize;
    proof {
        lemma_digit(e as int, 2, b2i(w.right_blank), states * 2 * c * c * c);
    }
    e * 2 + rb
}

/// 1 for a nonblank color, 0 for blank.
pub open spec fn nz(c: Color) -> int {
    if c != 0 { 1 } else { 0 }
}

/// The number of values that a tally takes.
pub open spec fn tally_size(k: Tally, colors: int) -> int {
    match k {
        Tally::SideParity => 4,
        Tally::SideMod3 => 9,
        Tally::ColorParity => (1u8 << ((colors - 1) as u8)) as int,
    }
}

/// A color-parity tally with the parity of color `c` swapped.
pub open spec fn toggle(t: u8, c: Color) -> u8 {
    if c == 0 { t } else { t ^ (1u8 << ((c - 1) as u8)) }
}

/// The tally after the instruction printing `print` and moving by `shift`
/// is taken in window `w`: the cell left behind joins one side, and the
/// cell brought in leaves the other.
pub open spec fn next_tally(k: Tally, t: u8, w: Window, print: Color, shift: Shift) -> u8 {
    match k {
        Tally::SideParity => {
            let lp = t % 2;
            let rp = t / 2;
            if shift {
                (((lp + nz(print)) % 2) + 2 * ((rp + nz(w.right)) % 2)) as u8
            } else {
                (((lp + nz(w.left)) % 2) + 2 * ((rp + nz(print)) % 2)) as u8
            }
        },
        Tally::SideMod3 => {
            let lr = t % 3;
            let rr = t / 3;
            if shift {
                (((lr + nz(print)) % 3) + 3 * ((rr + 3 - nz(w.right)) % 3)) as u8
            } else {
                (((lr + 3 - nz(w.left)) % 3) + 3 * ((rr + nz(print)) % 3)) as u8
            }
        },
        Tally::ColorParity => toggle(toggle(t, w.scan), print),
    }
}

/// Whether window `v` can follow window `w` by `instr`: the printed color
/// stays behind as a neighbor, and the new neighbor on the far side is
/// blank beyond a known blank tail or else any color not forbidden there.
pub open spec fn win_next(
    w: Window,
    instr: Instr,
    forbid_left: Seq<bool>,
    forbid_right: Seq<bool>,
    colors: int,
    v: Window,
) -> bool {
    let (print, shift, next) = instr;
    if shift {
        &&& v.state == next
        &&& v.left_blank == (w.left_blank && w.left == 0)
        &&& v.left == print
        &&& v.scan == w.right
        &&& if w.right_blank {
            v.right == 0 && v.right_blank
        } else {
            !v.right_blank && v.right < colors && !forbid_right[v.right as int]
        }
    } else {
        &&& v.state == next
        &&& v.right_blank == (w.right_blank && w.right == 0)
        &&& v.right == print
        &&& v.scan == w.left
        &&& if w.left_blank {
            v.left == 0 && v.left_blank
        } else {
            !v.left_blank && v.left < colors && !forbid_left[v.left as int]
        }
    }
}

/// The window of the blank tape in the start state.
pub open spec fn win_start() -> (Window, u8) {
    (Window { state: 0, left_blank: true, left: 0, scan: 0, right: 0, right_blank: true }, 0)
}

/// The position of a tallied window in a table of them.
pub open spec fn node_code(n: (Window, u8), colors: int, size: int) -> int {
    wid(n.0, colors) * size + n.1
}

/// Whether a tallied window is marked in a table.
pub open spec fn seen(v: Seq<bool>, n: (Window, u8), colors: int, size: int) -> bool {
    v[node_code(n, colors, size)]
}

/// The number of unmarked entries.
pub open spec fn count_false(s: Seq<bool>) -> nat
    decreases s.len(),
{
    if s.len() == 0 {
        0
    } else {
        count_false(s.drop_last()) + if s.last() { 0nat } else { 1nat }
    }
}

pub proof fn lemma_count_update(s: Seq<bool>, i: int)
    requires
        0 <= i < s.len(),
        !s[i],
    ensures
        count_false(s.update(i, true)) + 1 == count_false(s),
    decreases s.len(),
{
    let t = s.update(i, true);
    if i == s.len() - 1 {
        assert(t.drop_last() =~= s.drop_last());
    } else {
        assert(t.drop_last() =~= s.drop_last().update(i, true));
        lemma_count_update(s.drop_last(), i);
    }
}

/// Tallied windows in range have positions in the table, and different
/// ones have different positions.
proof fn lemma_code(n: (Window, u8), m: (Window, u8), states: int, colors: int, size: int)
    requires
        win_in(n.0, states, colors),
        win_in(m.0, states, colors),
        n.1 < size,
        m.1 < size,
    ensures
        0 <= node_code(n, colors, size) < win_total(states, colors) * size,
        node_code(n, colors, size) == node_code(m, colors, size) ==> n == m,
{
    lemma_wid_bound(n.0, states, colors);
    lemma_wid_bound(m.0, states, colors);
    lemma_digit(wid(n.0, colors), size, n.1 as int, win_total(states, colors));
    if node_code(n, colors, size) == node_code(m, colors, size) {
        lemma_fundamental_div_mod_converse(node_code(n, colors, size), size, wid(n.0, colors), n.1 as int);
        lemma_fundamental_div_mod_converse(node_code(m, colors, size), size, wid(m.0, colors), m.1 as int);
        lemma_wid_inj(n.0, m.0, states, colors);
    }
}

/// One digit off a position: the quotient is below the bound of the rest.
proof fn lemma_split(x: int, d: int, big: int)
    requires
        0 <= x < big * d,
        d > 0,
    ensures
        x == d * (x / d) + x % d,
        0 <= x % d < d,
        0 <= x / d < big,
{
    lemma_fundamental_div_mod(x, d);
    assert(0 <= x % d < d) by {
        vstd::arithmetic::div_mod::lemma_mod_pos_bound(x, d);
    }
    let q = x / d;
    let r = x % d;
    assert(0 <= q < big) by (nonlinear_arith)
        requires
            x == d * q + r,
            0 <= r < d,
            0 <= x < big * d,
            d > 0,
    ;
}

/// Every position of a table is the position of some tallied window.
pub proof fn lemma_code_onto(i: int, states: int, colors: int, size: int) -> (n: (Window, u8))
    requires
        0 <= i < win_total(states, colors) * size,
        1 <= states <= 256,
        1 <= colors <= 256,
        1 <= size <= 256,
    ensures
        win_in(n.0, states, colors),
        n.1 < size,
        node_code(n, colors, size) == i,
{
    lemma_split(i, size, win_total(states, colors));
    let w = i / size;
    lemma_split(w, 2, states * 2 * colors * colors * colors);
    let d = w / 2;
    lemma_split(d, colors, states * 2 * colors * colors);
    let c = d / colors;
    lemma_split(c, colors, states * 2 * colors);
    let b = c / colors;
    lemma_split(b, colors, states * 2);
    let a = b / colors;
    lemma_split(a, 2, states);
    let win = Window {
        state: (a / 2) as u8,
        left_blank: a % 2 == 1,
        left: (b % colors) as u8,
        scan: (c % colors) as u8,
        right: (d % colors) as u8,
        right_blank: w % 2 == 1,
    };
    let n = (win, (i % size) as u8);
    assert(win.state as int == a / 2);
    assert(win.left as int == b % colors);
    assert(win.scan as int == c % colors);
    assert(win.right as int == d % colors);
    assert(b2i(win.left_blank) == a % 2);
    assert(b2i(win.right_blank) == w % 2);
    let a2 = win.state * 2 + b2i(win.left_blank);
    assert(a2 == a);
    let b2 = a2 * colors + win.left;
    assert(b2 == b) by (nonlinear_arith)
        requires
            a2 == a,
            b == colors * a + b % colors,
            win.left as int == b % colors,
            b2 == a2 * colors + win.left,
    ;
    let c2 = b2 * colors + win.scan;
    assert(c2 == c) by (nonlinear_arith)
        requires
            b2 == b,
            c == colors * b + c % colors,
            win.scan as int == c % colors,
            c2 == b2 * colors + win.scan,
    ;
    let d2 = c2 * colors + win.right;
    assert(d2 == d) by (nonlinear_arith)
        requires
            c2 == c,
            d == colors * c + d % colors,
            win.right as int == d % colors,
            d2 == c2 * colors + win.right,
    ;
    assert(wid(win, colors) == d2 * 2 + b2i(win.right_blank));
    assert(wid(win, colors) == w);
    assert(node_code(n, colors, size) == w * size + i % size);
    assert(node_code(n, colors, size) == i) by (nonlinear_arith)
        requires
            node_code(n, colors, size) == w * size + i % size,
            i == size * w + i % size,
    ;
    n
}

/// The tally after a step stays in range.
proof fn lemma_next_tally(k: Tally, t: u8, w: Window, print: Color, shift: Shift, colors: int)
    requires
        1 <= colors <= 64,
        k == Tally::ColorParity ==> colors <= 7,
        t < tally_size(k, colors),
        w.scan < colors,
        print < colors,
    ensures
        next_tally(k, t, w, print, shift) < tally_size(k, colors),
{
    if k == Tally::ColorParity {
        let n = (colors - 1) as u8;
        let sc = w.scan;
        let t1 = toggle(t, sc);
        assert(t1 < (1u8 << n)) by {
            if sc != 0 {
                let j = (sc - 1) as u8;
                assert(t ^ (1u8 << j) < (1u8 << n)) by (bit_vector)
                    requires
                        t < (1u8 << n),
                        j < n,
                        n <= 6,
                ;
            }
        }
        if print != 0 {
            let j = (print - 1) as u8;
            assert(t1 ^ (1u8 << j) < (1u8 << n)) by (bit_vector)
                requires
                    t1 < (1u8 << n),
                    j < n,
                    n <= 6,
            ;
        }
    }
}

impl<const S: usize, const C: usize> Prog<S, C> {
    /// Whether tallied window `m` can follow `n` by the instruction of the
    /// slot that `n` reads.
    pub open spec fn win_step(&self, k: Tally, fl: Seq<bool>, fr: Seq<bool>, n: (Window, u8), m: (Window, u8)) -> bool {
        match self.instr_at(n.0.state as int, n.0.scan as int) {
            None => false,
            Some(i) => win_next(n.0, i, fl, fr, C as int, m.0) && m.1 == next_tally(k, n.1, n.0, i.0, i.1),
        }
    }

    /// A tallied window of the program's states and colors.
    pub open spec fn node_in(k: Tally, n: (Window, u8)) -> bool {
        win_in(n.0, S as int, C as int) && n.1 < tally_size(k, C as int)
    }

    /// Whether a set of tallied windows holds the start and is closed
    /// under steps.
    pub open spec fn win_closed(&self, k: Tally, fl: Seq<bool>, fr: Seq<bool>, set: spec_fn((Window, u8)) -> bool) -> bool {
        &&& set(win_start())
        &&& forall|n: (Window, u8), m: (Window, u8)| #![trigger set(n), self.win_step(k, fl, fr, n, m)]
            Self::node_in(k, n) && set(n) && self.win_step(k, fl, fr, n, m) ==> set(m)
    }

    /// Whether a tallied window can occur: it is in every closed set.
    pub open spec fn win_reach(&self, k: Tally, fl: Seq<bool>, fr: Seq<bool>, n: (Window, u8)) -> bool {
        forall|set: spec_fn((Window, u8)) -> bool| #[trigger] self.win_closed(k, fl, fr, set) ==> set(n)
    }
}

/// What marking and queueing did to a table and a stack: marks are only
/// added, the stack only grows, by one entry for each new mark, and every
/// newly marked window is on the stack.
pub open spec fn grew(
    v0: Seq<bool>,
    s0: Seq<(Window, u8)>,
    v1: Seq<bool>,
    s1: Seq<(Window, u8)>,
    colors: int,
    size: int,
    states: int,
) -> bool {
    &&& v1.len() == v0.len()
    &&& forall|i: int| 0 <= i < v0.len() && v0[i] ==> #[trigger] v1[i]
    &&& s1.len() >= s0.len()
    &&& forall|i: int| 0 <= i < s0.len() ==> #[trigger] s1[i] == s0[i]
    &&& count_false(v1) + (s1.len() - s0.len()) == count_false(v0)
    &&& forall|x: (Window, u8)| win_in(x.0, states, colors) && x.1 < size && #[trigger] seen(v1, x, colors, size)
        && !seen(v0, x, colors, size) ==> s1.contains(x)
}

/// Whether every entry of a stack is a marked tallied window in range.
pub open spec fn stack_ok(v: Seq<bool>, s: Seq<(Window, u8)>, colors: int, size: int, states: int) -> bool {
    forall|i: int| 0 <= i < s.len() ==> win_in((#[trigger] s[i]).0, states, colors) && s[i].1 < size
        && seen(v, s[i], colors, size)
}

/// Marks a tallied window and queues it, where it was not marked.
fn visit(
    v: &mut Vec<bool>,
    stack: &mut Vec<(Window, u8)>,
    n: (Window, u8),
    colors: usize,
    size: usize,
    Ghost(states): Ghost<int>,
)
    requires
        win_in(n.0, states, colors as int),
        (n.1 as int) < size,
        old(v)@.len() == win_total(states, colors as int) * size,
        win_total(states, colors as int) * size <= usize::MAX,
        stack_ok(old(v)@, old(stack)@, colors as int, size as int, states),
    ensures
        grew(old(v)@, old(stack)@, final(v)@, final(stack)@, colors as int, size as int, states),
        seen(final(v)@, n, colors as int, size as int),
        stack_ok(final(v)@, final(stack)@, colors as int, size as int, states),
        forall|x: (Window, u8)| win_in(x.0, states, colors as int) && x.1 < size && #[trigger] seen(final(v)@, x, colors as int, size as int)
            ==> seen(old(v)@, x, colors as int, size as int) || x == n,
{
    proof {
        lemma_code(n, n, states, colors as int, size as int);
        lemma_grow(win_total(states, colors as int), size as int);
    }
    let w = window_index(n.0, Ghost(states), colors);
    proof {
        lemma_digit(w as int, size as int, n.1 as int, win_total(states, colors as int));
    }
    let i = w * size + n.1 as usize;
    assert(i == node_code(n, colors as int, size as int));
    if !v[i] {
        let ghost v0 = v@;
        let ghost s0 = stack@;
        v.set(i, true);
        stack.push(n);
        proof {
            lemma_count_update(v0, i as int);
            assert forall|x: (Window, u8)| win_in(x.0, states, colors as int) && x.1 < size && #[trigger] seen(v@, x, colors as int, size as int)
                && !seen(v0, x, colors as int, size as int) implies stack@.contains(x) by {
                lemma_code(x, n, states, colors as int, size as int);
                assert(stack@[s0.len() as int] == n);
            }
            assert forall|x: (Window, u8)| win_in(x.0, states, colors as int) && x.1 < size && #[trigger] seen(v@, x, colors as int, size as int)
                implies seen(v0, x, colors as int, size as int) || x == n by {
                lemma_code(x, n, states, colors as int, size as int);
            }
            assert forall|j: int| 0 <= j < stack@.len() implies win_in((#[trigger] stack@[j]).0, states, colors as int) && stack@[j].1 < size
                && seen(v@, stack@[j], colors as int, size as int) by {
                if j < s0.len() {
                    assert(stack@[j] == s0[j]);
                    lemma_code(s0[j], s0[j], states, colors as int, size as int);
                }
            }
        }
    } else {
        proof {
            assert(stack@ =~= old(stack)@);
        }
    }
}

proof fn lemma_grew_trans(
    v0: Seq<bool>,
    s0: Seq<(Window, u8)>,
    v1: Seq<bool>,
    s1: Seq<(Window, u8)>,
    v2: Seq<bool>,
    s2: Seq<(Window, u8)>,
    colors: int,
    size: int,
    states: int,
)
    requires
        grew(v0, s0, v1, s1, colors, size, states),
        grew(v1, s1, v2, s2, colors, size, states),
    ensures
        grew(v0, s0, v2, s2, colors, size, states),
{
    assert forall|i: int| 0 <= i < s0.len() implies #[trigger] s2[i] == s0[i] by {
        assert(s1[i] == s0[i]);
    }
    assert forall|x: (Window, u8)| win_in(x.0, states, colors) && x.1 < size && #[trigger] seen(v2, x, colors, size)
        && !seen(v0, x, colors, size) implies s2.contains(x) by {
        if seen(v1, x, colors, size) {
            assert(s1.contains(x));
            let j = choose|j: int| 0 <= j < s1.len() && s1[j] == x;
            assert(s2[j] == s1[j]);
        }
    }
}

/// The window `base` with its neighbor on one side (`right` or left) set
/// to `c`, the tail beyond it not known to be blank.
pub open spec fn far(base: Window, right: bool, c: Color) -> Window {
    if right {
        Window { right: c, right_blank: false, ..base }
    } else {
        Window { left: c, left_blank: false, ..base }
    }
}

/// Visits `base` with each color not forbidden as its new neighbor on one
/// side.
fn visit_far(
    v: &mut Vec<bool>,
    stack: &mut Vec<(Window, u8)>,
    base: Window,
    t: u8,
    right: bool,
    forbid: &Vec<bool>,
    colors: usize,
    size: usize,
    Ghost(states): Ghost<int>,
)
    requires
        forbid@.len() == colors,
        colors <= 64,
        win_in(base, states, colors as int),
        (t as int) < size,
        old(v)@.len() == win_total(states, colors as int) * size,
        win_total(states, colors as int) * size <= usize::MAX,
        stack_ok(old(v)@, old(stack)@, colors as int, size as int, states),
    ensures
        grew(old(v)@, old(stack)@, final(v)@, final(stack)@, colors as int, size as int, states),
        stack_ok(final(v)@, final(stack)@, colors as int, size as int, states),
        forall|c: int| 0 <= c < colors && !forbid@[c] ==> #[trigger] seen(final(v)@, (far(base, right, c as u8), t), colors as int, size as int),
        forall|x: (Window, u8)| win_in(x.0, states, colors as int) && x.1 < size && #[trigger] seen(final(v)@, x, colors as int, size as int)
            ==> seen(old(v)@, x, colors as int, size as int) || (x.1 == t && exists|c: int| 0 <= c < colors && !forbid@[c] && x.0 == far(base, right, c as u8)),
{
    let mut c: usize = 0;
    while c < colors
        invariant
            forbid@.len() == colors,
            colors <= 64,
            c <= colors,
            win_in(base, states, colors as int),
            (t as int) < size,
            v@.len() == win_total(states, colors as int) * size,
            win_total(states, colors as int) * size <= usize::MAX,
            stack_ok(v@, stack@, colors as int, size as int, states),
            grew(old(v)@, old(stack)@, v@, stack@, colors as int, size as int, states),
            forall|d: int| 0 <= d < c && !forbid@[d] ==> #[trigger] seen(v@, (far(base, right, d as u8), t), colors as int, size as int),
            forall|x: (Window, u8)| win_in(x.0, states, colors as int) && x.1 < size && #[trigger] seen(v@, x, colors as int, size as int)
                ==> seen(old(v)@, x, colors as int, size as int) || (x.1 == t && exists|d: int| 0 <= d < c && !forbid@[d] && x.0 == far(base, right, d as u8)),
        decreases colors - c,
    {
        if !forbid[c] {
            let w = if right {
                Window { right: c as u8, right_blank: false, ..base }
            } else {
                Window { left: c as u8, left_blank: false, ..base }
            };
            let ghost v1 = v@;
            let ghost s1 = stack@;
            visit(v, stack, (w, t), colors, size, Ghost(states));
            proof {
                lemma_grew_trans(old(v)@, old(stack)@, v1, s1, v@, stack@, colors as int, size as int, states);
                assert forall|d: int| 0 <= d < c + 1 && !forbid@[d] implies #[trigger] seen(v@, (far(base, right, d as u8), t), colors as int, size as int) by {
                    if d < c {
                        lemma_code((far(base, right, d as u8), t), (far(base, right, d as u8), t), states, colors as int, size as int);
                        assert(seen(v1, (far(base, right, d as u8), t), colors as int, size as int));
                    } else {
                        assert(far(base, right, d as u8) == w);
                    }
                }
                assert forall|x: (Window, u8)| win_in(x.0, states, colors as int) && x.1 < size && #[trigger] seen(v@, x, colors as int, size as int)
                    implies seen(old(v)@, x, colors as int, size as int) || (x.1 == t && exists|d: int| 0 <= d < c + 1 && !forbid@[d] && x.0 == far(base, right, d as u8)) by {
                    if x == (w, t) {
                        assert(x.0 == far(base, right, c as u8));
                    } else {
                        assert(seen(v1, x, colors as int, size as int));
                    }
                }
            }
        }
        c += 1;
    }
}

/// The number of values a tally takes.
fn tally_len(k: Tally, colors: usize) -> (r: usize)
    requires
        1 <= colors <= 64,
        k == Tally::ColorParity ==> colors <= 7,
    ensures
        r == tally_size(k, colors as int),
        1 <= r <= 64,
{
    match k {
        Tally::SideParity => 4,
        Tally::SideMod3 => 9,
        Tally::ColorParity => {
            let n = (colors - 1) as u8;
            assert(1 <= (1u8 << n) <= 64) by (bit_vector)
                requires
                    n <= 6,
            ;
            (1u8 << n) as usize
        },
    }
}

/// The tally after a step (see `next_tally`).
fn tally_after(k: Tally, t: u8, w: Window, print: Color, shift: Shift, Ghost(colors): Ghost<int>) -> (r: u8)
    requires
        1 <= colors <= 64,
        k == Tally::ColorParity ==> colors <= 7,
        (t as int) < tally_size(k, colors),
        w.scan < colors,
        print < colors,
    ensures
        r == next_tally(k, t, w, print, shift),
{
    match k {
        Tally::SideParity => {
            let lp = t % 2;
            let rp = t / 2;
            if shift {
                let pb: u8 = if print != 0 { 1 } else { 0 };
                let rb: u8 = if w.right != 0 { 1 } else { 0 };
                (lp + pb) % 2 + 2 * ((rp + rb) % 2)
            } else {
                let lb: u8 = if w.left != 0 { 1 } else { 0 };
                let pb: u8 = if print != 0 { 1 } else { 0 };
                (lp + lb) % 2 + 2 * ((rp + pb) % 2)
            }
        },
        Tally::SideMod3 => {
            let lr = t % 3;
            let rr = t / 3;
            if shift {
                let pb: u8 = if print != 0 { 1 } else { 0 };
                let rb: u8 = if w.right != 0 { 1 } else { 0 };
                (lr + pb) % 3 + 3 * ((rr + 3 - rb) % 3)
            } else {
                let lb: u8 = if w.left != 0 { 1 } else { 0 };
                let pb: u8 = if print != 0 { 1 } else { 0 };
                (lr + 3 - lb) % 3 + 3 * ((rr + pb) % 3)
            }
        },
        Tally::ColorParity => {
            let t1 = if w.scan == 0 { t } else { t ^ (1u8 << (w.scan - 1)) };
            if print == 0 { t1 } else { t1 ^ (1u8 << (print - 1)) }
        },
    }
}

proof fn lemma_mul_le(x: int, xm: int, y: int, ym: int)
    requires
        0 <= x <= xm,
        0 <= y <= ym,
    ensures
        x * y <= xm * ym,
{
    assert(x * y <= xm * ym) by (nonlinear_arith)
        requires
            0 <= x <= xm,
            0 <= y <= ym,
    ;
}

/// The tables fit in memory addresses.
proof fn lemma_table_fits(states: int, colors: int, size: int)
    requires
        1 <= states <= 256,
        1 <= colors <= 64,
        1 <= size <= 64,
        size > 9 ==> colors <= 7,
    ensures
        win_total(states, colors) * size <= 0xffff_ffff,
{
    lemma_mul_le(states, 256, 2, 2);
    if size <= 9 {
        lemma_mul_le(states * 2, 512, colors, 64);
        lemma_mul_le(states * 2 * colors, (512 * 64) as int, colors, 64);
        lemma_mul_le(states * 2 * colors * colors, (512 * 64 * 64) as int, colors, 64);
        lemma_mul_le(states * 2 * colors * colors * colors, (512 * 64 * 64 * 64) as int, 2, 2);
        lemma_mul_le(win_total(states, colors), (512 * 64 * 64 * 64 * 2) as int, size, 9);
    } else {
        lemma_mul_le(states * 2, 512, colors, 7);
        lemma_mul_le(states * 2 * colors, (512 * 7) as int, colors, 7);
        lemma_mul_le(states * 2 * colors * colors, (512 * 7 * 7) as int, colors, 7);
        lemma_mul_le(states * 2 * colors * colors * colors, (512 * 7 * 7 * 7) as int, 2, 2);
        lemma_mul_le(win_total(states, colors), (512 * 7 * 7 * 7 * 2) as int, size, 64);
    }
}

impl<const S: usize, const C: usize> Prog<S, C> {
    /// Whether a window occurs with some tally of kind `k`.
    pub open spec fn win_occurs(&self, k: Tally, fl: Seq<bool>, fr: Seq<bool>, w: Window) -> bool {
        exists|t: u8| #[trigger] Self::node_in(k, (w, t)) && self.win_reach(k, fl, fr, (w, t))
    }

    /// Every window that occurs with a side tally of kind `k1` occurs with
    /// one of kind `k2`: how a window moves does not depend on its tally.
    pub proof fn lemma_occurs_across(&self, k1: Tally, k2: Tally, fl: Seq<bool>, fr: Seq<bool>, n: (Window, u8))
        requires
            self.inv(),
            S >= 1,
            1 <= C <= 64,
            k1 != Tally::ColorParity,
            k2 != Tally::ColorParity,
            crate::bkw::prints_below(self.instr_list(), C as int),
            crate::bkw::targets_below(self.instr_list(), S as int),
            Self::node_in(k1, n),
            self.win_reach(k1, fl, fr, n),
        ensures
            self.win_occurs(k2, fl, fr, n.0),
    {
        let x = |m: (Window, u8)| Self::node_in(k1, m) ==> self.win_occurs(k2, fl, fr, m.0);
        assert(Self::node_in(k2, win_start()));
        assert(self.win_reach(k2, fl, fr, win_start())) by {
            assert forall|set: spec_fn((Window, u8)) -> bool| #[trigger] self.win_closed(k2, fl, fr, set) implies set(win_start()) by {}
        }
        assert(x(win_start()));
        assert(self.win_closed(k1, fl, fr, x)) by {
            assert forall|a: (Window, u8), b: (Window, u8)| #![trigger x(a), self.win_step(k1, fl, fr, a, b)]
                Self::node_in(k1, a) && x(a) && self.win_step(k1, fl, fr, a, b) implies x(b) by {
                let t = choose|t: u8| #[trigger] Self::node_in(k2, (a.0, t)) && self.win_reach(k2, fl, fr, (a.0, t));
                let i = self.instr_at(a.0.state as int, a.0.scan as int)->0;
                let b2 = (b.0, next_tally(k2, t, a.0, i.0, i.1));
                assert(self.win_step(k2, fl, fr, (a.0, t), b2));
                self.lemma_step_in(k2, fl, fr, (a.0, t), b2);
                assert(self.win_reach(k2, fl, fr, b2)) by {
                    assert forall|set: spec_fn((Window, u8)) -> bool| #[trigger] self.win_closed(k2, fl, fr, set) implies set(b2) by {
                        assert(set((a.0, t)));
                    }
                }
                assert(Self::node_in(k2, b2));
            }
        }
        assert(x(n));
    }

    /// The side-parity and side modulo 3 tables of `win_possible_from_blank`
    /// mark the same windows, each with some tally.
    pub proof fn lemma_tables_agree(&self, wp: WinPossible, fl: Seq<bool>, fr: Seq<bool>, w: Window)
        requires
            self.inv(),
            S >= 1,
            1 <= C <= 64,
            crate::bkw::prints_below(self.instr_list(), C as int),
            crate::bkw::targets_below(self.instr_list(), S as int),
            self.win_exact(wp, fl, fr),
            win_in(w, S as int, C as int),
        ensures
            (exists|t: u8| t < 4 && #[trigger] seen(wp.side_parity@, (w, t), C as int, 4))
                == (exists|t: u8| t < 9 && #[trigger] seen(wp.side_mod3@, (w, t), C as int, 9)),
    {
        if exists|t: u8| t < 4 && #[trigger] seen(wp.side_parity@, (w, t), C as int, 4) {
            let t = choose|t: u8| t < 4 && #[trigger] seen(wp.side_parity@, (w, t), C as int, 4);
            assert(Self::node_in(Tally::SideParity, (w, t)));
            self.lemma_occurs_across(Tally::SideParity, Tally::SideMod3, fl, fr, (w, t));
            let t2 = choose|t2: u8| #[trigger] Self::node_in(Tally::SideMod3, (w, t2)) && self.win_reach(Tally::SideMod3, fl, fr, (w, t2));
            assert(seen(wp.side_mod3@, (w, t2), C as int, 9));
        }
        if exists|t: u8| t < 9 && #[trigger] seen(wp.side_mod3@, (w, t), C as int, 9) {
            let t = choose|t: u8| t < 9 && #[trigger] seen(wp.side_mod3@, (w, t), C as int, 9);
            assert(Self::node_in(Tally::SideMod3, (w, t)));
            self.lemma_occurs_across(Tally::SideMod3, Tally::SideParity, fl, fr, (w, t));
            let t2 = choose|t2: u8| #[trigger] Self::node_in(Tally::SideParity, (w, t2)) && self.win_reach(Tally::SideParity, fl, fr, (w, t2));
            assert(seen(wp.side_parity@, (w, t2), C as int, 4));
        }
    }

    /// A step from a tallied window in range stays in range.
    pub proof fn lemma_step_in(&self, k: Tally, fl: Seq<bool>, fr: Seq<bool>, n: (Window, u8), m: (Window, u8))
        requires
            self.inv(),
            1 <= C <= 64,
            k == Tally::ColorParity ==> C <= 7,
            crate::bkw::prints_below(self.instr_list(), C as int),
            crate::bkw::targets_below(self.instr_list(), S as int),
            Self::node_in(k, n),
            self.win_step(k, fl, fr, n, m),
        ensures
            Self::node_in(k, m),
    {
        self.lemma_instr_at_listed(n.0.state as int, n.0.scan as int);
        let i = self.instr_at(n.0.state as int, n.0.scan as int)->0;
        let j = choose|j: int| 0 <= j < self.instr_list().len() && #[trigger] self.instr_list()[j] == i;
        assert(self.instr_list()[j] == i);
        lemma_next_tally(k, n.1, n.0, i.0, i.1, C as int);
    }

    /// The tallied windows that can occur on runs from the blank tape: the
    /// least set that holds the start and is closed under steps, found by
    /// a worklist. Colors in `forbid_left` (`forbid_right`) are never taken
    /// as a new neighbor on that side.
    pub fn reach_windows(&self, k: Tally, forbid_left: &Vec<bool>, forbid_right: &Vec<bool>) -> (v: Vec<bool>)
        requires
            S >= 1,
            1 <= C <= 64,
            k == Tally::ColorParity ==> C <= 7,
            crate::bkw::prints_below(self.instr_list(), C as int),
            crate::bkw::targets_below(self.instr_list(), S as int),
            forbid_left@.len() == C,
            forbid_right@.len() == C,
        ensures
            v@.len() == win_total(S as int, C as int) * tally_size(k, C as int),
            forall|n: (Window, u8)| Self::node_in(k, n) ==> #[trigger] seen(v@, n, C as int, tally_size(k, C as int))
                == self.win_reach(k, forbid_left@, forbid_right@, n),
    {
        proof {
            use_type_invariant(self);
        }
        let size = tally_len(k, C);
        let ghost sz = size as int;
        let ghost fl = forbid_left@;
        let ghost fr = forbid_right@;
        proof {
            lemma_table_fits(S as int, C as int, sz);
            lemma_grow(S as int * 2, C as int);
            lemma_grow(S as int * 2 * C, C as int);
            lemma_grow(S as int * 2 * C * C, C as int);
            lemma_grow(S as int * 2 * C * C * C, 2);
            lemma_grow(win_total(S as int, C as int), sz);
        }
        let total = S * 2 * C * C * C * 2 * size;
        let mut v: Vec<bool> = Vec::new();
        while v.len() < total
            invariant
                v@.len() <= total,
                forall|i: int| 0 <= i < v@.len() ==> !v@[i],
            decreases total - v@.len(),
        {
            v.push(false);
        }
        let mut stack: Vec<(Window, u8)> = Vec::new();
        let start = (Window { state: 0, left_blank: true, left: 0, scan: 0, right: 0, right_blank: true }, 0u8);
        visit(&mut v, &mut stack, start, C, size, Ghost(S as int));
        proof {
            assert forall|set: spec_fn((Window, u8)) -> bool| #[trigger] self.win_closed(k, fl, fr, set) implies
                forall|x: (Window, u8)| Self::node_in(k, x) && #[trigger] seen(v@, x, C as int, sz) ==> set(x) by {
                assert forall|x: (Window, u8)| Self::node_in(k, x) && #[trigger] seen(v@, x, C as int, sz) implies set(x) by {
                    lemma_code(x, x, S as int, C as int, sz);
                    assert(x == start);
                }
            }
            assert forall|x: (Window, u8), m: (Window, u8)| #![trigger seen(v@, x, C as int, sz), self.win_step(k, fl, fr, x, m)]
                Self::node_in(k, x) && seen(v@, x, C as int, sz) && !stack@.contains(x) && self.win_step(k, fl, fr, x, m)
                implies seen(v@, m, C as int, sz) by {
                lemma_code(x, x, S as int, C as int, sz);
                assert(x == start);
                assert(stack@[0] == start);
            }
        }
        while stack.len() > 0
            invariant
                self.inv(),
                S >= 1,
                1 <= C <= 64,
                k == Tally::ColorParity ==> C <= 7,
                crate::bkw::prints_below(self.instr_list(), C as int),
                crate::bkw::targets_below(self.instr_list(), S as int),
                fl == forbid_left@,
                fr == forbid_right@,
                fl.len() == C,
                fr.len() == C,
                sz == size,
                size == tally_size(k, C as int),
                1 <= size <= 64,
                v@.len() == win_total(S as int, C as int) * sz,
                win_total(S as int, C as int) * sz <= usize::MAX,
                stack_ok(v@, stack@, C as int, sz, S as int),
                seen(v@, win_start(), C as int, sz),
                forall|set: spec_fn((Window, u8)) -> bool| #[trigger] self.win_closed(k, fl, fr, set) ==>
                    forall|x: (Window, u8)| Self::node_in(k, x) && #[trigger] seen(v@, x, C as int, sz) ==> set(x),
                forall|x: (Window, u8), m: (Window, u8)| #![trigger seen(v@, x, C as int, sz), self.win_step(k, fl, fr, x, m)]
                    Self::node_in(k, x) && seen(v@, x, C as int, sz) && !stack@.contains(x) && self.win_step(k, fl, fr, x, m)
                    ==> seen(v@, m, C as int, sz),
            decreases count_false(v@), stack@.len(),
        {
            let ghost s_before = stack@;
            let n = stack.pop().unwrap();
            let ghost v0 = v@;
            let ghost s0 = stack@;
            assert(s_before =~= s0.push(n));
            assert(s_before[s0.len() as int] == n);
            assert(Self::node_in(k, n) && seen(v0, n, C as int, sz));
            assert forall|j: int| 0 <= j < s0.len() implies win_in((#[trigger] s0[j]).0, S as int, C as int) && s0[j].1 < sz
                && seen(v0, s0[j], C as int, sz) by {
                assert(s0[j] == s_before[j]);
            }
            match self.get(&(n.0.state, n.0.scan)) {
                None => {
                    proof {
                        assert(stack@ =~= s0);
                    }
                },
                Some(instr) => {
                    let (print, shift, next) = *instr;
                    proof {
                        self.lemma_instr_at_listed(n.0.state as int, n.0.scan as int);
                        let j = choose|j: int| 0 <= j < self.instr_list().len() && #[trigger] self.instr_list()[j]
                            == self.instr_at(n.0.state as int, n.0.scan as int)->0;
                        assert(self.instr_list()[j] == (print, shift, next));
                        lemma_next_tally(k, n.1, n.0, print, shift, C as int);
                    }
                    let t2 = tally_after(k, n.1, n.0, print, shift, Ghost(C as int));
                    let base = if shift {
                        Window {
                            state: next,
                            left_blank: n.0.left_blank && n.0.left == 0,
                            left: print,
                            scan: n.0.right,
                            right: 0,
                            right_blank: true,
                        }
                    } else {
                        Window {
                            state: next,
                            left_blank: true,
                            left: 0,
                            scan: n.0.left,
                            right: print,
                            right_blank: n.0.right_blank && n.0.right == 0,
                        }
                    };
                    if shift {
                        if n.0.right_blank {
                            visit(&mut v, &mut stack, (base, t2), C, size, Ghost(S as int));
                        } else {
                            visit_far(&mut v, &mut stack, base, t2, true, forbid_right, C, size, Ghost(S as int));
                        }
                    } else {
                        if n.0.left_blank {
                            visit(&mut v, &mut stack, (base, t2), C, size, Ghost(S as int));
                        } else {
                            visit_far(&mut v, &mut stack, base, t2, false, forbid_left, C, size, Ghost(S as int));
                        }
                    }
                    proof {
                        assert forall|m: (Window, u8)| #[trigger] self.win_step(k, fl, fr, n, m) implies seen(v@, m, C as int, sz) by {
                            if shift {
                                if !n.0.right_blank {
                                    assert(m == (far(base, true, (m.0.right as int) as u8), t2));
                                    assert(seen(v@, (far(base, true, (m.0.right as int) as u8), t2), C as int, sz));
                                } else {
                                    assert(m == (base, t2));
                                }
                            } else {
                                if !n.0.left_blank {
                                    assert(m == (far(base, false, (m.0.left as int) as u8), t2));
                                    assert(seen(v@, (far(base, false, (m.0.left as int) as u8), t2), C as int, sz));
                                } else {
                                    assert(m == (base, t2));
                                }
                            }
                        }
                    }
                },
            }
            proof {
                let v1 = v@;
                let s1 = stack@;
                assert(grew(v0, s0, v1, s1, C as int, sz, S as int));
                // Every newly marked window follows `n`.
                assert forall|x: (Window, u8)| Self::node_in(k, x) && #[trigger] seen(v1, x, C as int, sz) && !seen(v0, x, C as int, sz)
                    implies self.win_step(k, fl, fr, n, x) by {
                    let (print, shift, next) = self.instr_at(n.0.state as int, n.0.scan as int)->0;
                    if shift && !n.0.right_blank {
                        let c = choose|c: int| 0 <= c < C && !fr[c] && x.0 == far(Window {
                            state: next,
                            left_blank: n.0.left_blank && n.0.left == 0,
                            left: print,
                            scan: n.0.right,
                            right: 0,
                            right_blank: true,
                        }, true, c as u8);
                    } else if !shift && !n.0.left_blank {
                        let c = choose|c: int| 0 <= c < C && !fl[c] && x.0 == far(Window {
                            state: next,
                            left_blank: true,
                            left: 0,
                            scan: n.0.left,
                            right: print,
                            right_blank: n.0.right_blank && n.0.right == 0,
                        }, false, c as u8);
                    }
                }
                assert forall|set: spec_fn((Window, u8)) -> bool| #[trigger] self.win_closed(k, fl, fr, set) implies
                    forall|x: (Window, u8)| Self::node_in(k, x) && #[trigger] seen(v1, x, C as int, sz) ==> set(x) by {
                    assert(set(n));
                    assert forall|x: (Window, u8)| Self::node_in(k, x) && #[trigger] seen(v1, x, C as int, sz) implies set(x) by {
                        if !seen(v0, x, C as int, sz) {
                            assert(self.win_step(k, fl, fr, n, x));
                        }
                    }
                }
                assert forall|x: (Window, u8), m: (Window, u8)| #![trigger seen(v1, x, C as int, sz), self.win_step(k, fl, fr, x, m)]
                    Self::node_in(k, x) && seen(v1, x, C as int, sz) && !s1.contains(x) && self.win_step(k, fl, fr, x, m)
                    implies seen(v1, m, C as int, sz) by {
                    self.lemma_step_in(k, fl, fr, x, m);
                    lemma_code(m, m, S as int, C as int, sz);
                    if x == n {
                    } else if seen(v0, x, C as int, sz) {
                        assert(!s0.contains(x)) by {
                            if s0.contains(x) {
                                let j = choose|j: int| 0 <= j < s0.len() && s0[j] == x;
                                assert(s1[j] == s0[j]);
                            }
                        }
                        assert(!s_before.contains(x)) by {
                            if s_before.contains(x) {
                                let j = choose|j: int| 0 <= j < s_before.len() && s_before[j] == x;
                                if j < s0.len() {
                                    assert(s0[j] == s_before[j]);
                                }
                            }
                        }
                        assert(seen(v0, m, C as int, sz));
                    }
                }
                lemma_code(win_start(), win_start(), S as int, C as int, sz);
            }
        }
        proof {
            let v1 = v@;
            let set0 = |x: (Window, u8)| Self::node_in(k, x) && seen(v1, x, C as int, sz);
            assert(self.win_closed(k, fl, fr, set0)) by {
                assert forall|x: (Window, u8), m: (Window, u8)| #![trigger set0(x), self.win_step(k, fl, fr, x, m)]
                    Self::node_in(k, x) && set0(x) && self.win_step(k, fl, fr, x, m) implies set0(m) by {
                    self.lemma_step_in(k, fl, fr, x, m);
                }
            }
            assert forall|n: (Window, u8)| Self::node_in(k, n) implies #[trigger] seen(v1, n, C as int, sz)
                == self.win_reach(k, fl, fr, n) by {
                if seen(v1, n, C as int, sz) {
                    assert forall|set: spec_fn((Window, u8)) -> bool| #[trigger] self.win_closed(k, fl, fr, set) implies set(n) by {
                    }
                } else {
                    assert(!set0(n));
                }
            }
        }
        v
    }
}

/// Some tally accepted by `want` is marked for window `w`.
pub open spec fn label_hit(v: Seq<bool>, w: Window, want: Seq<bool>, colors: int, size: int) -> bool {
    exists|t: int| 0 <= t < size && want[t] && #[trigger] seen(v, (w, t as u8), colors, size)
}

/// `w` with the right neighbor set to `r`.
pub open spec fn with_right(w: Window, r: Color) -> Window {
    Window { right: r, ..w }
}

/// `w` with the left neighbor set to `l`.
pub open spec fn with_left(w: Window, l: Color) -> Window {
    Window { left: l, ..w }
}

/// A hit for `w` with the right neighbor `right`, or any where unknown.
pub open spec fn right_hit(v: Seq<bool>, w: Window, right: Option<Color>, want: Seq<bool>, colors: int, size: int) -> bool {
    match right {
        Some(r) => r < colors && label_hit(v, with_right(w, r), want, colors, size),
        None => exists|r: int| 0 <= r < colors && #[trigger] label_hit(v, with_right(w, r as u8), want, colors, size),
    }
}

/// A hit for `w` with the left neighbor `left`, or any where unknown.
pub open spec fn left_hit(
    v: Seq<bool>,
    w: Window,
    left: Option<Color>,
    right: Option<Color>,
    want: Seq<bool>,
    colors: int,
    size: int,
) -> bool {
    match left {
        Some(l) => l < colors && right_hit(v, with_left(w, l), right, want, colors, size),
        None => exists|l: int| 0 <= l < colors && #[trigger] right_hit(v, with_left(w, l as u8), right, want, colors, size),
    }
}

/// The window in `state` scanning `scan` with the given tail flags; its
/// neighbors are filled in by the search.
pub open spec fn frame(state: State, scan: Color, lb: bool, rb: bool) -> Window {
    Window { state, left_blank: lb, left: 0, scan, right: 0, right_blank: rb }
}

/// Some marked tallied window has the state, the scanned color and the
/// known neighbors, and a tally accepted by `want`.
pub open spec fn window_hit(
    v: Seq<bool>,
    state: State,
    scan: Color,
    left: Option<Color>,
    right: Option<Color>,
    want: Seq<bool>,
    colors: int,
    size: int,
) -> bool {
    exists|lb: bool, rb: bool| #[trigger] left_hit(v, frame(state, scan, lb, rb), left, right, want, colors, size)
}

fn search_labels(
    v: &Vec<bool>,
    w: Window,
    want: &Vec<bool>,
    colors: usize,
    Ghost(states): Ghost<int>,
) -> (r: bool)
    requires
        win_in(w, states, colors as int),
        v@.len() == win_total(states, colors as int) * want@.len(),
        win_total(states, colors as int) * want@.len() <= usize::MAX,
        want@.len() <= 256,
    ensures
        r == label_hit(v@, w, want@, colors as int, want@.len() as int),
{
    let size = want.len();
    let mut t: usize = 0;
    while t < size
        invariant
            t <= size,
            size == want@.len(),
            size <= 256,
            win_in(w, states, colors as int),
            v@.len() == win_total(states, colors as int) * size,
            win_total(states, colors as int) * size <= usize::MAX,
            forall|u: int| 0 <= u < t ==> !(want@[u] && #[trigger] seen(v@, (w, u as u8), colors as int, size as int)),
        decreases size - t,
    {
        proof {
            lemma_code((w, t as u8), (w, t as u8), states, colors as int, size as int);
            lemma_grow(win_total(states, colors as int), size as int);
        }
        let wi = window_index(w, Ghost(states), colors);
        proof {
            lemma_digit(wi as int, size as int, t as int, win_total(states, colors as int));
        }
        let i = wi * size + t;
        if want[t] && v[i] {
            assert(seen(v@, (w, t as u8), colors as int, size as int));
            return true;
        }
        t += 1;
    }
    false
}

fn search_right(
    v: &Vec<bool>,
    w: Window,
    right: Option<Color>,
    want: &Vec<bool>,
    colors: usize,
    Ghost(states): Ghost<int>,
) -> (r: bool)
    requires
        w.state < states,
        w.left < colors,
        w.scan < colors,
        v@.len() == win_total(states, colors as int) * want@.len(),
        win_total(states, colors as int) * want@.len() <= usize::MAX,
        want@.len() <= 256,
        colors <= 256,
    ensures
        r == right_hit(v@, w, right, want@, colors as int, want@.len() as int),
{
    match right {
        Some(c) => {
            if (c as usize) < colors {
                search_labels(v, Window { right: c, ..w }, want, colors, Ghost(states))
            } else {
                false
            }
        },
        None => {
            let mut c: usize = 0;
            while c < colors
                invariant
                    c <= colors,
                    colors <= 256,
                    w.state < states,
                    w.left < colors,
                    w.scan < colors,
                    v@.len() == win_total(states, colors as int) * want@.len(),
                    win_total(states, colors as int) * want@.len() <= usize::MAX,
                    want@.len() <= 256,
                    right is None,
                    forall|d: int| 0 <= d < c ==> !#[trigger] label_hit(v@, with_right(w, d as u8), want@, colors as int, want@.len() as int),
                decreases colors - c,
            {
                if search_labels(v, Window { right: c as u8, ..w }, want, colors, Ghost(states)) {
                    assert(label_hit(v@, with_right(w, (c as int) as u8), want@, colors as int, want@.len() as int));
                    return true;
                }
                c += 1;
            }
            false
        },
    }
}

fn search_left(
    v: &Vec<bool>,
    w: Window,
    left: Option<Color>,
    right: Option<Color>,
    want: &Vec<bool>,
    colors: usize,
    Ghost(states): Ghost<int>,
) -> (r: bool)
    requires
        w.state < states,
        w.scan < colors,
        v@.len() == win_total(states, colors as int) * want@.len(),
        win_total(states, colors as int) * want@.len() <= usize::MAX,
        want@.len() <= 256,
        colors <= 256,
    ensures
        r == left_hit(v@, w, left, right, want@, colors as int, want@.len() as int),
{
    match left {
        Some(c) => {
            if (c as usize) < colors {
                search_right(v, Window { left: c, ..w }, right, want, colors, Ghost(states))
            } else {
                false
            }
        },
        None => {
            let mut c: usize = 0;
            while c < colors
                invariant
                    c <= colors,
                    colors <= 256,
                    w.state < states,
                    w.scan < colors,
                    v@.len() == win_total(states, colors as int) * want@.len(),
                    win_total(states, colors as int) * want@.len() <= usize::MAX,
                    want@.len() <= 256,
                    left is None,
                    forall|d: int| 0 <= d < c ==> !#[trigger] right_hit(v@, with_left(w, d as u8), right, want@, colors as int, want@.len() as int),
                decreases colors - c,
            {
                if search_right(v, Window { left: c as u8, ..w }, right, want, colors, Ghost(states)) {
                    assert(right_hit(v@, with_left(w, (c as int) as u8), right, want@, colors as int, want@.len() as int));
                    return true;
                }
                c += 1;
            }
            false
        },
    }
}

/// Whether some marked tallied window has the state, the scanned color and
/// the known neighbors, and a tally accepted by `want`.
pub fn search_window(
    v: &Vec<bool>,
    state: State,
    scan: Color,
    left: Option<Color>,
    right: Option<Color>,
    want: &Vec<bool>,
    states: usize,
    colors: usize,
) -> (r: bool)
    requires
        v@.len() == win_total(states as int, colors as int) * want@.len(),
        win_total(states as int, colors as int) * want@.len() <= usize::MAX,
        want@.len() <= 256,
        colors <= 256,
    ensures
        r == ((state as int) < states && (scan as int) < colors
            && window_hit(v@, state, scan, left, right, want@, colors as int, want@.len() as int)),
{
    if (state as usize) >= states || (scan as usize) >= colors {
        return false;
    }
    let g = Ghost(states as int);
    let a = search_left(v, Window { state, left_blank: false, left: 0, scan, right: 0, right_blank: false }, left, right, want, colors, g);
    let b = search_left(v, Window { state, left_blank: false, left: 0, scan, right: 0, right_blank: true }, left, right, want, colors, g);
    let c = search_left(v, Window { state, left_blank: true, left: 0, scan, right: 0, right_blank: false }, left, right, want, colors, g);
    let d = search_left(v, Window { state, left_blank: true, left: 0, scan, right: 0, right_blank: true }, left, right, want, colors, g);
    proof {
        let sz = want@.len() as int;
        assert(a == left_hit(v@, frame(state, scan, false, false), left, right, want@, colors as int, sz));
        assert(b == left_hit(v@, frame(state, scan, false, true), left, right, want@, colors as int, sz));
        assert(c == left_hit(v@, frame(state, scan, true, false), left, right, want@, colors as int, sz));
        assert(d == left_hit(v@, frame(state, scan, true, true), left, right, want@, colors as int, sz));
        if window_hit(v@, state, scan, left, right, want@, colors as int, sz) {
            let (lb, rb) = choose|lb: bool, rb: bool| #[trigger] left_hit(v@, frame(state, scan, lb, rb), left, right, want@, colors as int, sz);
            assert(left_hit(v@, frame(state, scan, lb, rb), left, right, want@, colors as int, sz));
        }
    }
    a || b || c || d
}

/// Whether bit `i` of a mask is set.
pub open spec fn bit(m: u8, i: int) -> bool {
    (m >> (i as u8)) & 1u8 == 1u8
}

/// The windows that can occur on runs from the blank tape, under each
/// tally; the color parities are kept only for alphabets of at most seven
/// colors.
pub struct WinPossible {
    pub side_parity: Vec<bool>,
    pub side_mod3: Vec<bool>,
    pub color_parity: Option<Vec<bool>>,
}

impl WinPossible {
    /// The tables have their sizes for `states` states and `colors`
    /// colors.
    pub open spec fn sized(&self, states: int, colors: int) -> bool {
        &&& self.side_parity@.len() == win_total(states, colors) * 4
        &&& self.side_mod3@.len() == win_total(states, colors) * 9
        &&& win_total(states, colors) * 9 <= usize::MAX
        &&& (colors <= 7) == (self.color_parity is Some)
        &&& self.color_parity matches Some(v) ==> {
            &&& v@.len() == win_total(states, colors) * tally_size(Tally::ColorParity, colors)
            &&& win_total(states, colors) * tally_size(Tally::ColorParity, colors) <= usize::MAX
            &&& tally_size(Tally::ColorParity, colors) <= 64
        }
    }
}

impl<const S: usize, const C: usize> Prog<S, C> {
    /// Two tables that mark exactly the windows that can occur, for the
    /// same forbidden colors, have the same side-parity table.
    pub proof fn lemma_win_exact_unique(&self, a: WinPossible, b: WinPossible, fl: Seq<bool>, fr: Seq<bool>)
        requires
            1 <= S <= 256,
            1 <= C <= 64,
            self.win_exact(a, fl, fr),
            self.win_exact(b, fl, fr),
        ensures
            a.side_parity@ == b.side_parity@,
    {
        assert forall|i: int| 0 <= i < a.side_parity@.len() implies a.side_parity@[i] == b.side_parity@[i] by {
            let n = lemma_code_onto(i, S as int, C as int, 4);
            assert(Self::node_in(Tally::SideParity, n));
            assert(seen(a.side_parity@, n, C as int, 4) == seen(b.side_parity@, n, C as int, 4));
        }
        assert(a.side_parity@ =~= b.side_parity@);
    }
}

impl<const S: usize, const C: usize> Prog<S, C> {
    /// Whether the tables mark exactly the tallied windows that can occur.
    pub open spec fn win_exact(&self, wp: WinPossible, fl: Seq<bool>, fr: Seq<bool>) -> bool {
        &&& wp.sized(S as int, C as int)
        &&& forall|n: (Window, u8)| Self::node_in(Tally::SideParity, n) ==> #[trigger] seen(wp.side_parity@, n, C as int, 4)
            == self.win_reach(Tally::SideParity, fl, fr, n)
        &&& forall|n: (Window, u8)| Self::node_in(Tally::SideMod3, n) ==> #[trigger] seen(wp.side_mod3@, n, C as int, 9)
            == self.win_reach(Tally::SideMod3, fl, fr, n)
        &&& wp.color_parity matches Some(v) ==> forall|n: (Window, u8)| Self::node_in(Tally::ColorParity, n)
            ==> #[trigger] seen(v@, n, C as int, tally_size(Tally::ColorParity, C as int))
            == self.win_reach(Tally::ColorParity, fl, fr, n)
    }

    /// The windows, with their tallies, that can occur on runs from the
    /// blank tape, where no color in `forbid_left` (`forbid_right`) stands
    /// left (right) of the head.
    pub fn win_possible_from_blank(&self, forbid_left: &Vec<bool>, forbid_right: &Vec<bool>) -> (r: WinPossible)
        requires
            S >= 1,
            1 <= C <= 64,
            crate::bkw::prints_below(self.instr_list(), C as int),
            crate::bkw::targets_below(self.instr_list(), S as int),
            forbid_left@.len() == C,
            forbid_right@.len() == C,
        ensures
            self.win_exact(r, forbid_left@, forbid_right@),
    {
        proof {
            use_type_invariant(self);
            lemma_table_fits(S as int, C as int, 9);
        }
        let side_parity = self.reach_windows(Tally::SideParity, forbid_left, forbid_right);
        let side_mod3 = self.reach_windows(Tally::SideMod3, forbid_left, forbid_right);
        let color_parity = if C <= 7 {
            proof {
                let n = (C - 1) as u8;
                assert(1 <= (1u8 << n) <= 64) by (bit_vector)
                    requires
                        n <= 6,
                ;
                lemma_table_fits(S as int, C as int, tally_size(Tally::ColorParity, C as int));
            }
            Some(self.reach_windows(Tally::ColorParity, forbid_left, forbid_right))
        } else {
            None
        };
        WinPossible { side_parity, side_mod3, color_parity }
    }
}

/// A mask accepting every tally.
pub fn want_all(size: usize) -> (r: Vec<bool>)
    ensures
        r@.len() == size,
        forall|t: int| 0 <= t < size ==> r@[t],
{
    let mut r: Vec<bool> = Vec::new();
    while r.len() < size
        invariant
            r@.len() <= size,
            forall|t: int| 0 <= t < r@.len() ==> r@[t],
        decreases size - r@.len(),
    {
        r.push(true);
    }
    r
}

/// Whether some window with the tape's state, scanned color and known
/// neighbors can occur.
pub open spec fn window_possible_ok<const S: usize, const C: usize>(state: State, tape: Tape, wp: WinPossible) -> bool {
    ((state as int) < S && (tape.scan as int) < C && window_hit(
        wp.side_parity@,
        state,
        tape.scan,
        crate::bkw::tape::neighbor_color(tape.lspan.bs(), tape.lspan.end),
        crate::bkw::tape::neighbor_color(tape.rspan.bs(), tape.rspan.end),
        seq![true, true, true, true],
        C as int,
        4,
    ))
}

/// Whether, where both ends of the tape are exact, some window with the
/// tape's state, scanned color and known neighbors can occur with a tally
/// of the nonblank cells of the same parity as the tape's.
pub open spec fn nonblank_parity_ok<const S: usize, const C: usize>(state: State, tape: Tape, wp: WinPossible) -> bool {
    ({
        let required = if crate::bkw::tape::side_exact(tape.lspan.bs(), tape.lspan.end)
            && crate::bkw::tape::side_exact(tape.rspan.bs(), tape.rspan.end) {
            if ((if tape.scan != 0 { 1nat } else { 0nat }) + crate::bkw::tape::nonblank_parity_of(tape.lspan.bs())
                + crate::bkw::tape::nonblank_parity_of(tape.rspan.bs())) % 2 == 0 { 1u8 } else { 2u8 }
        } else {
            3u8
        };
        (required == 3 || ((state as int) < S && (tape.scan as int) < C && window_hit(
            wp.side_parity@,
            state,
            tape.scan,
            crate::bkw::tape::neighbor_color(tape.lspan.bs(), tape.lspan.end),
            crate::bkw::tape::neighbor_color(tape.rspan.bs(), tape.rspan.end),
            total_parity_want(required, tape.scan),
            C as int,
            4,
        )))
    })
}

/// Whether some window with the tape's state, scanned color and known
/// neighbors can occur with side parities that the tape's sides allow (or
/// the sides allow any).
pub open spec fn side_parity_ok<const S: usize, const C: usize>(state: State, tape: Tape, wp: WinPossible) -> bool {
    ({
        let lm = crate::bkw::tape::side_parity_mask_spec(tape.lspan.bs(), tape.lspan.end);
        let rm = crate::bkw::tape::side_parity_mask_spec(tape.rspan.bs(), tape.rspan.end);
        ((lm == 3 && rm == 3) || ((state as int) < S && (tape.scan as int) < C && window_hit(
            wp.side_parity@,
            state,
            tape.scan,
            crate::bkw::tape::neighbor_color(tape.lspan.bs(), tape.lspan.end),
            crate::bkw::tape::neighbor_color(tape.rspan.bs(), tape.rspan.end),
            side_want(lm, rm, 2),
            C as int,
            4,
        )))
    })
}

/// Whether some window with the tape's state, scanned color and known
/// neighbors can occur with side counts modulo 3 that the tape's sides
/// allow (or the sides allow any).
pub open spec fn side_mod3_ok<const S: usize, const C: usize>(state: State, tape: Tape, wp: WinPossible) -> bool {
    ({
        let lm = crate::bkw::tape::side_mod3_mask_spec(tape.lspan.bs(), tape.lspan.end);
        let rm = crate::bkw::tape::side_mod3_mask_spec(tape.rspan.bs(), tape.rspan.end);
        ((lm == 7 && rm == 7) || ((state as int) < S && (tape.scan as int) < C && window_hit(
            wp.side_mod3@,
            state,
            tape.scan,
            crate::bkw::tape::neighbor_color(tape.lspan.bs(), tape.lspan.end),
            crate::bkw::tape::neighbor_color(tape.rspan.bs(), tape.rspan.end),
            side_want(lm, rm, 3),
            C as int,
            9,
        )))
    })
}

/// Whether, where both ends of the tape are blank and the colors are few,
/// some window with the tape's state, scanned color and known neighbors can
/// occur with color parities that the tape allows.
pub open spec fn color_parity_ok<const S: usize, const C: usize>(state: State, tape: Tape, wp: WinPossible) -> bool {
    ({
        let size = tally_size(Tally::ColorParity, C as int);
        let want = color_want(tape, size);
        (C > 7 || tape.lspan.end == TapeEnd::Unknown || tape.rspan.end == TapeEnd::Unknown
            || (forall|t: int| 0 <= t < size ==> #[trigger] want[t])
            || ((state as int) < S && (tape.scan as int) < C && window_hit(
                wp.color_parity->0@,
                state,
                tape.scan,
                crate::bkw::tape::neighbor_color(tape.lspan.bs(), tape.lspan.end),
                crate::bkw::tape::neighbor_color(tape.rspan.bs(), tape.rspan.end),
                want,
                C as int,
                size,
            )))
    })
}

/// Whether some window in `state` scanning the tape's color, with the
/// tape's known neighbors, can occur.
pub fn window_possible<const S: usize, const C: usize>(state: State, tape: &Tape, wp: &WinPossible) -> (r: bool)
    requires
        wp.sized(S as int, C as int),
        C <= 64,
    ensures
        r == window_possible_ok::<S, C>(state, *tape, *wp),
{
    let want = want_all(4);
    assert(want@ =~= seq![true, true, true, true]);
    search_window(&wp.side_parity, state, tape.scan, tape.left_neighbor_color(), tape.right_neighbor_color(), &want, S, C)
}

/// The side-parity tallies whose total parity, with the scanned cell, a
/// mask allows: bit 0 even, bit 1 odd.
pub open spec fn total_parity_want(mask: u8, scan: Color) -> Seq<bool> {
    Seq::new(4, |t: int| bit(mask, (t % 2 + t / 2 + nz(scan)) % 2))
}

/// Whether the tape's possible total parities of nonblank cells meet
/// those of some window that can occur with the tape's state, scanned
/// color and known neighbors.
pub fn window_nonblank_parity_possible<const S: usize, const C: usize>(state: State, tape: &Tape, wp: &WinPossible) -> (r: bool)
    requires
        wp.sized(S as int, C as int),
        C <= 64,
    ensures
        r == nonblank_parity_ok::<S, C>(state, *tape, *wp),
{
    let required = tape.nonblank_parity_mask();
    if required == 3 {
        return true;
    }
    let sc: usize = if tape.scan != 0 { 1 } else { 0 };
    let mut want: Vec<bool> = Vec::new();
    let mut t: usize = 0;
    while t < 4
        invariant
            t <= 4,
            sc == nz(tape.scan),
            want@.len() == t,
            forall|u: int| 0 <= u < t ==> want@[u] == bit(required, (u % 2 + u / 2 + nz(tape.scan)) % 2),
        decreases 4 - t,
    {
        let p = ((t % 2 + t / 2 + sc) % 2) as u8;
        want.push((required >> p) & 1 == 1);
        t += 1;
    }
    assert(want@ =~= total_parity_want(required, tape.scan));
    search_window(&wp.side_parity, state, tape.scan, tape.left_neighbor_color(), tape.right_neighbor_color(), &want, S, C)
}

/// The side tallies that two per-side masks allow: `radix` 2 for side
/// parities, 3 for residues modulo 3.
pub open spec fn side_want(lmask: u8, rmask: u8, radix: int) -> Seq<bool> {
    Seq::new((radix * radix) as nat, |t: int| bit(lmask, t % radix) && bit(rmask, t / radix))
}

fn side_want_vec(lmask: u8, rmask: u8, radix: usize) -> (r: Vec<bool>)
    requires
        2 <= radix <= 3,
    ensures
        r@ == side_want(lmask, rmask, radix as int),
{
    let n: usize = if radix == 2 { 4 } else { 9 };
    let mut want: Vec<bool> = Vec::new();
    let mut t: usize = 0;
    while t < n
        invariant
            2 <= radix <= 3,
            n == radix * radix,
            t <= n,
            want@.len() == t,
            forall|u: int| 0 <= u < t ==> want@[u] == (bit(lmask, u % radix as int) && bit(rmask, u / radix as int)),
        decreases n - t,
    {
        let a = (if radix == 2 { t % 2 } else { t % 3 }) as u8;
        let b = (if radix == 2 { t / 2 } else { t / 3 }) as u8;
        want.push((lmask >> a) & 1 == 1 && (rmask >> b) & 1 == 1);
        t += 1;
    }
    assert(want@ =~= side_want(lmask, rmask, radix as int));
    want
}

/// Whether the tape's possible side parities of nonblank cells meet those
/// of some window that can occur with its state, scanned color and known
/// neighbors.
pub fn window_side_nonblank_parity_possible<const S: usize, const C: usize>(state: State, tape: &Tape, wp: &WinPossible) -> (r: bool)
    requires
        wp.sized(S as int, C as int),
        C <= 64,
    ensures
        r == side_parity_ok::<S, C>(state, *tape, *wp),
{
    let (lm, rm) = tape.side_nonblank_parity_masks();
    if lm == 3 && rm == 3 {
        return true;
    }
    let want = side_want_vec(lm, rm, 2);
    search_window(&wp.side_parity, state, tape.scan, tape.left_neighbor_color(), tape.right_neighbor_color(), &want, S, C)
}

/// Whether the tape's possible side residues modulo 3 of nonblank cells
/// meet those of some window that can occur with its state, scanned color
/// and known neighbors.
pub fn window_side_nonblank_mod3_possible<const S: usize, const C: usize>(state: State, tape: &Tape, wp: &WinPossible) -> (r: bool)
    requires
        wp.sized(S as int, C as int),
        C <= 64,
    ensures
        r == side_mod3_ok::<S, C>(state, *tape, *wp),
{
    let (lm, rm) = tape.side_nonblank_mod3_masks();
    if lm == 7 && rm == 7 {
        return true;
    }
    let want = side_want_vec(lm, rm, 3);
    search_window(&wp.side_mod3, state, tape.scan, tape.left_neighbor_color(), tape.right_neighbor_color(), &want, S, C)
}

/// The bit of a nonblank color in a color-parity vector.
pub open spec fn color_bit(c: Color) -> u8 {
    if 1 <= c <= 8 { 1u8 << ((c - 1) as u8) } else { 0 }
}

fn color_bit_of(c: Color) -> (r: u8)
    ensures
        r == color_bit(c),
{
    if 1 <= c && c <= 8 { 1u8 << (c - 1) } else { 0 }
}

/// The color parities of a side's runs (bit `k - 1` for color `k`), and
/// the colors whose parity is open because their run has no upper bound.
pub open spec fn parity_vector(bs: Seq<Block>) -> (u8, u8)
    decreases bs.len(),
{
    if bs.len() == 0 {
        (0, 0)
    } else {
        let (v, u) = parity_vector(bs.drop_last());
        let b = bs.last();
        if b.color == 0 {
            (v, u)
        } else {
            match b.count {
                BlockCount::AtLeast(_) => (v, u | color_bit(b.color)),
                BlockCount::Exact(n) => if n % 2 == 1 { (v ^ color_bit(b.color), u) } else { (v, u) },
            }
        }
    }
}

fn span_parity_vector(span: &Span) -> (r: (u8, u8))
    ensures
        r == parity_vector(span.bs()),
{
    let mut v: u8 = 0;
    let mut u: u8 = 0;
    let mut i: usize = 0;
    while i < span.span.blocks.len()
        invariant
            i <= span.bs().len(),
            (v, u) == parity_vector(span.bs().subrange(0, i as int)),
        decreases span.bs().len() - i,
    {
        proof {
            assert(span.bs().subrange(0, i + 1).drop_last() =~= span.bs().subrange(0, i as int));
        }
        let b = span.span.blocks[i];
        if b.color != 0 {
            match b.count {
                BlockCount::AtLeast(_) => {
                    u = u | color_bit_of(b.color);
                },
                BlockCount::Exact(n) => {
                    if n % 2 == 1 {
                        v = v ^ color_bit_of(b.color);
                    }
                },
            }
        }
        i += 1;
    }
    assert(span.bs().subrange(0, span.bs().len() as int) =~= span.bs());
    (v, u)
}

/// The color-parity vectors a tape with two blank ends allows: those that
/// agree with its exact parities outside the open colors.
pub open spec fn color_want(tape: Tape, size: int) -> Seq<bool> {
    let (lv, lu) = parity_vector(tape.lspan.bs());
    let (rv, ru) = parity_vector(tape.rspan.bs());
    let v = color_bit(tape.scan) ^ lv ^ rv;
    let u = lu | ru;
    Seq::new(size as nat, |t: int| ((t as u8) ^ v) & !u == 0)
}

/// Whether the tape's possible color-parity vectors meet those of some
/// window that can occur with its state, scanned color and known
/// neighbors. Where the alphabet has more than seven colors, or an end of
/// the tape is unknown, or every vector is allowed, nothing is ruled out.
pub fn window_color_parity_possible<const S: usize, const C: usize>(state: State, tape: &Tape, wp: &WinPossible) -> (r: bool)
    requires
        wp.sized(S as int, C as int),
        1 <= C <= 64,
    ensures
        r == color_parity_ok::<S, C>(state, *tape, *wp),
{
    let table = match &wp.color_parity {
        None => {
            return true;
        },
        Some(t) => t,
    };
    if tape.lspan.end == TapeEnd::Unknown || tape.rspan.end == TapeEnd::Unknown {
        return true;
    }
    let size = tally_len(Tally::ColorParity, C);
    let (lv, lu) = span_parity_vector(&tape.lspan);
    let (rv, ru) = span_parity_vector(&tape.rspan);
    let v = color_bit_of(tape.scan) ^ lv ^ rv;
    let u = lu | ru;
    let ghost want_spec = color_want(*tape, size as int);
    let mut want: Vec<bool> = Vec::new();
    let mut all = true;
    let mut t: usize = 0;
    while t < size
        invariant
            size <= 64,
            t <= size,
            want@.len() == t,
            want_spec == color_want(*tape, size as int),
            v == color_bit(tape.scan) ^ parity_vector(tape.lspan.bs()).0 ^ parity_vector(tape.rspan.bs()).0,
            u == parity_vector(tape.lspan.bs()).1 | parity_vector(tape.rspan.bs()).1,
            forall|x: int| 0 <= x < t ==> want@[x] == want_spec[x],
            all == forall|x: int| 0 <= x < t ==> #[trigger] want_spec[x],
        decreases size - t,
    {
        let ok = ((t as u8) ^ v) & !u == 0;
        assert(want_spec[t as int] == ok);
        want.push(ok);
        let ghost before = all;
        all = all && ok;
        proof {
            if all {
                assert forall|x: int| 0 <= x < t + 1 implies #[trigger] want_spec[x] by {
                    if x < t {
                        assert(before);
                    }
                }
            } else if before {
                assert(!want_spec[t as int]);
            } else {
                let x = choose|x: int| 0 <= x < t && !#[trigger] want_spec[x];
                assert(!want_spec[x]);
            }
        }
        t += 1;
    }
    assert(want@ =~= want_spec);
    if all {
        return true;
    }
    search_window(table, state, tape.scan, tape.left_neighbor_color(), tape.right_neighbor_color(), &want, S, C)
}

proof fn lemma_set_bit(x: u64, t: u64, j: u64)
    requires
        t < 64,
        j < 64,
    ensures
        ((x | (1u64 << t)) >> j) & 1 == (if j == t { 1 } else { (x >> j) & 1 }),
{
    assert(((x | (1u64 << t)) >> j) & 1 == (if j == t { 1 } else { (x >> j) & 1 })) by (bit_vector)
        requires
            t < 64,
            j < 64,
    ;
}

impl Tape {
    /// The color-parity vectors that the tape allows, as a set of bits (bit
    /// `v` for vector `v`): all of them where an end is unknown, otherwise
    /// those that agree with its exact parities outside the colors of its
    /// unbounded runs. Where the alphabet has more than seven colors, every
    /// bit is set.
    pub fn color_parity_mask<const C: usize>(&self) -> (r: u64)
        requires
            1 <= C,
        ensures
            C > 7 ==> r == u64::MAX,
            C <= 7 ==> forall|j: u64| j < 64 ==> (#[trigger] ((r >> j) & 1) == 1) == ((j as int) < tally_size(Tally::ColorParity, C as int)
                && (self.lspan.end == TapeEnd::Unknown || self.rspan.end == TapeEnd::Unknown
                    || color_want(*self, tally_size(Tally::ColorParity, C as int))[j as int])),
    {
        if C > 7 {
            return u64::MAX;
        }
        let size = tally_len(Tally::ColorParity, C);
        let open = self.lspan.end == TapeEnd::Unknown || self.rspan.end == TapeEnd::Unknown;
        let (lv, lu) = span_parity_vector(&self.lspan);
        let (rv, ru) = span_parity_vector(&self.rspan);
        let v = color_bit_of(self.scan) ^ lv ^ rv;
        let u = lu | ru;
        let ghost want = color_want(*self, size as int);
        let mut r: u64 = 0;
        let mut t: usize = 0;
        assert forall|j: u64| j < 64 implies (#[trigger] ((r >> j) & 1) == 1) == false by {
            assert((0u64 >> j) & 1 == 0) by (bit_vector);
        }
        while t < size
            invariant
                size <= 64,
                t <= size,
                want == color_want(*self, size as int),
                v == color_bit(self.scan) ^ parity_vector(self.lspan.bs()).0 ^ parity_vector(self.rspan.bs()).0,
                u == parity_vector(self.lspan.bs()).1 | parity_vector(self.rspan.bs()).1,
                open == (self.lspan.end == TapeEnd::Unknown || self.rspan.end == TapeEnd::Unknown),
                forall|j: u64| j < 64 ==> (#[trigger] ((r >> j) & 1) == 1) == ((j as int) < t && (open || want[j as int])),
            decreases size - t,
        {
            let ok = open || ((t as u8) ^ v) & !u == 0;
            if ok {
                let ghost r0 = r;
                r = r | (1u64 << (t as u64));
                assert forall|j: u64| j < 64 implies (#[trigger] ((r >> j) & 1) == 1) == ((j as int) < t + 1 && (open || want[j as int])) by {
                    lemma_set_bit(r0, t as u64, j);
                }
            } else {
                assert(!want[t as int]);
            }
            t += 1;
        }
        r
    }
}

impl WinPossible {
    /// Tables in which no window is marked.
    pub fn empty(states: usize, colors: usize) -> (r: Self)
        requires
            1 <= states <= 256,
            1 <= colors <= 64,
        ensures
            r.sized(states as int, colors as int),
            forall|i: int| 0 <= i < r.side_parity@.len() ==> !r.side_parity@[i],
            forall|i: int| 0 <= i < r.side_mod3@.len() ==> !r.side_mod3@[i],
            r.color_parity matches Some(v) ==> forall|i: int| 0 <= i < v@.len() ==> !v@[i],
    {
        proof {
            lemma_table_fits(states as int, colors as int, 9);
            lemma_grow(states as int * 2, colors as int);
            lemma_grow(states as int * 2 * colors, colors as int);
            lemma_grow(states as int * 2 * colors * colors, colors as int);
            lemma_grow(states as int * 2 * colors * colors * colors, 2);
        }
        let total = states * 2 * colors * colors * colors * 2;
        let side_parity = false_table(total * 4);
        let side_mod3 = false_table(total * 9);
        let color_parity = if colors <= 7 {
            let size = tally_len(Tally::ColorParity, colors);
            proof {
                lemma_table_fits(states as int, colors as int, size as int);
            }
            Some(false_table(total * size))
        } else {
            None
        };
        WinPossible { side_parity, side_mod3, color_parity }
    }

    /// Whether a tallied window is marked in the table of one tally.
    pub fn marked(&self, k: Tally, w: Window, t: u8, states: usize, colors: usize) -> (r: bool)
        requires
            self.sized(states as int, colors as int),
            1 <= colors <= 64,
            k == Tally::ColorParity ==> colors <= 7,
        ensures
            r == (win_in(w, states as int, colors as int) && (t as int) < tally_size(k, colors as int) && match k {
                Tally::SideParity => seen(self.side_parity@, (w, t), colors as int, 4),
                Tally::SideMod3 => seen(self.side_mod3@, (w, t), colors as int, 9),
                Tally::ColorParity => seen(self.color_parity->0@, (w, t), colors as int, tally_size(k, colors as int)),
            }),
    {
        let size = tally_len(k, colors);
        if (w.state as usize) >= states || (w.left as usize) >= colors || (w.scan as usize) >= colors
            || (w.right as usize) >= colors || (t as usize) >= size {
            return false;
        }
        proof {
            lemma_code((w, t), (w, t), states as int, colors as int, size as int);
            lemma_grow(win_total(states as int, colors as int), size as int);
        }
        let wi = window_index(w, Ghost(states as int), colors);
        proof {
            lemma_digit(wi as int, size as int, t as int, win_total(states as int, colors as int));
        }
        let i = wi * size + t as usize;
        match k {
            Tally::SideParity => self.side_parity[i],
            Tally::SideMod3 => self.side_mod3[i],
            Tally::ColorParity => match &self.color_parity {
                Some(table) => table[i],
                None => false,
            },
        }
    }

    /// Marks a tallied window in the table of one tally.
    pub fn mark(&mut self, k: Tally, w: Window, t: u8, states: usize, colors: usize)
        requires
            old(self).sized(states as int, colors as int),
            1 <= colors <= 64,
            win_in(w, states as int, colors as int),
            (t as int) < tally_size(k, colors as int),
            k == Tally::ColorParity ==> colors <= 7,
        ensures
            final(self).sized(states as int, colors as int),
            k == Tally::SideParity ==> final(self).side_parity@ == old(self).side_parity@.update(node_code((w, t), colors as int, 4), true),
            k != Tally::SideParity ==> final(self).side_parity@ == old(self).side_parity@,
            k == Tally::SideMod3 ==> final(self).side_mod3@ == old(self).side_mod3@.update(node_code((w, t), colors as int, 9), true),
            k != Tally::SideMod3 ==> final(self).side_mod3@ == old(self).side_mod3@,
            k == Tally::ColorParity ==> final(self).color_parity->0@ == old(self).color_parity->0@.update(
                node_code((w, t), colors as int, tally_size(k, colors as int)), true),
            k != Tally::ColorParity ==> final(self).color_parity == old(self).color_parity,
    {
        let size = tally_len(k, colors);
        proof {
            lemma_code((w, t), (w, t), states as int, colors as int, size as int);
            lemma_grow(win_total(states as int, colors as int), size as int);
        }
        let wi = window_index(w, Ghost(states as int), colors);
        proof {
            lemma_digit(wi as int, size as int, t as int, win_total(states as int, colors as int));
        }
        let i = wi * size + t as usize;
        match k {
            Tally::SideParity => {
                self.side_parity.set(i, true);
            },
            Tally::SideMod3 => {
                self.side_mod3.set(i, true);
            },
            Tally::ColorParity => {
                let mut table = self.color_parity.take().unwrap();
                table.set(i, true);
                self.color_parity = Some(table);
            },
        }
    }
}

/// A table of `n` unmarked entries.
fn false_table(n: usize) -> (r: Vec<bool>)
    ensures
        r@.len() == n,
        forall|i: int| 0 <= i < n ==> !r@[i],
{
    let mut r: Vec<bool> = Vec::new();
    while r.len() < n
        invariant
            r@.len() <= n,
            forall|i: int| 0 <= i < r@.len() ==> !r@[i],
        decreases n - r@.len(),
    {
        r.push(false);
    }
    r
}

} // verus!
