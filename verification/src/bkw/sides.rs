//! Whole-side colors and adjacent pairs of the windows that occur on runs
//! from the blank tape.
//!
//! For each exact window (state, scanned color, left and right neighbor)
//! that can occur, the colors that may stand on each side and the pairs of
//! adjacent colors there, oriented from the head outward (the blank cells
//! beyond the last written one count: every side holds blank, and a blank
//! is followed by blank). A step moving right takes the new right neighbor
//! among the colors that may follow the old one, keeps the summaries, and
//! adds the printed color next to the old left neighbor on the left; a
//! step moving left is the mirror image. The summaries are the least that
//! hold the blank start and are closed under these steps.
use vstd::prelude::*;

use vstd::arithmetic::div_mod::lemma_fundamental_div_mod_converse;

use crate::bkw::windows::{WinPossible, count_false, lemma_count_update, search_window, want_all, win_total, window_hit};
use crate::bkw::tape::{Block, Span, Tape, TapeEnd, neighbor_color};
use crate::bkw::{prints_below, targets_below};
use crate::instrs::{Color, State};
use crate::prog::Prog;

verus! {

/// An exact window: state, scanned color, left and right neighbor.
pub type Quad = (State, Color, Color, Color);

/// A fact of the summaries; a side is `false` for left, `true` for right.
pub enum Fact {
    /// The window can occur.
    Reach(Quad),
    /// The color may stand on the side.
    Col(Quad, bool, Color),
    /// The second color may stand just beyond the first on the side.
    Pair(Quad, bool, Color, Color),
}

/// The window of the blank start.
pub open spec fn side_init() -> Quad {
    (0, 0, 0, 0)
}

/// A window of states below `states` and colors below `colors`.
pub open spec fn quad_in(q: Quad, states: int, colors: int) -> bool {
    q.0 < states && q.1 < colors && q.2 < colors && q.3 < colors
}

/// A fact about a window in range, with colors in range.
pub open spec fn fact_in(f: Fact, states: int, colors: int) -> bool {
    match f {
        Fact::Reach(q) => quad_in(q, states, colors),
        Fact::Col(q, _, k) => quad_in(q, states, colors) && k < colors,
        Fact::Pair(q, _, a, b) => quad_in(q, states, colors) && a < colors && b < colors,
    }
}

/// Whether the three-cell window can occur, as the window tables say.
pub open spec fn window_ok(v: Seq<bool>, q: Quad, colors: int) -> bool {
    window_hit(v, q.0, q.1, Some(q.2), Some(q.3), seq![true, true, true, true], colors, 4)
}

impl<const S: usize, const C: usize> Prog<S, C> {
    /// The window a step from `w` leads to when the neighbor brought in
    /// is `nn`, with the side that the printed cell joins, the printed
    /// color, and the old neighbor on that side.
    pub open spec fn side_target(&self, w: Quad, nn: Color) -> Option<(Quad, bool, Color, Color)> {
        if Self::in_range(w.0 as int, w.1 as int) {
            match self.instr_at(w.0 as int, w.1 as int) {
                Some(i) => if i.1 {
                    Some(((i.2, w.3, i.0, nn), false, i.0, w.2))
                } else {
                    Some(((i.2, w.2, nn, i.0), true, i.0, w.3))
                },
                None => None,
            }
        } else {
            None
        }
    }

    /// Whether the step from `w` bringing in `nn` is taken: `w` occurs,
    /// `nn` may follow the neighbor on the side moved toward, and the
    /// window stepped to can occur.
    pub open spec fn side_enabled(&self, v: Seq<bool>, set: spec_fn(Fact) -> bool, w: Quad, nn: Color) -> bool {
        &&& set(Fact::Reach(w))
        &&& (nn as int) < C
        &&& self.side_target(w, nn) matches Some(x) && {
            let (t, ps, pr, o) = x;
            &&& set(Fact::Pair(w, !ps, if ps { w.2 } else { w.3 }, nn))
            &&& window_ok(v, t, C as int)
        }
    }

    /// Whether a set of facts holds everything that the step from `w`
    /// bringing in `nn` gives, if it is taken.
    pub open spec fn side_step_closed(&self, v: Seq<bool>, set: spec_fn(Fact) -> bool, w: Quad, nn: Color) -> bool {
        self.side_enabled(v, set, w, nn) ==> {
            let (t, ps, pr, o) = self.side_target(w, nn)->0;
            &&& set(Fact::Reach(t))
            &&& set(Fact::Col(t, false, t.2))
            &&& set(Fact::Col(t, true, t.3))
            &&& set(Fact::Col(t, ps, pr))
            &&& set(Fact::Pair(t, ps, pr, o))
            &&& forall|s: bool, k: Color| #[trigger] set(Fact::Col(w, s, k)) ==> set(Fact::Col(t, s, k))
            &&& forall|s: bool, a: Color, b: Color| #[trigger] set(Fact::Pair(w, s, a, b)) ==> set(Fact::Pair(t, s, a, b))
        }
    }

    /// Whether a set of facts holds the blank start and is closed under
    /// steps.
    pub open spec fn side_closed(&self, v: Seq<bool>, set: spec_fn(Fact) -> bool) -> bool {
        &&& set(Fact::Reach(side_init()))
        &&& set(Fact::Col(side_init(), false, 0))
        &&& set(Fact::Col(side_init(), true, 0))
        &&& set(Fact::Pair(side_init(), false, 0, 0))
        &&& set(Fact::Pair(side_init(), true, 0, 0))
        &&& forall|w: Quad, nn: Color| #[trigger] self.side_step_closed(v, set, w, nn)
    }

    /// Whether a fact holds on runs from the blank tape: it is in every
    /// closed set.
    pub open spec fn side_reach(&self, v: Seq<bool>, f: Fact) -> bool {
        forall|set: spec_fn(Fact) -> bool| #[trigger] self.side_closed(v, set) ==> set(f)
    }
}

/// The position of `(a, b)` in a table of rows of `m`.
pub open spec fn idx2(a: int, b: int, m: int) -> int {
    a * m + b
}

/// The position of a window in a table of windows.
pub open spec fn qid(q: Quad, colors: int) -> int {
    idx2(idx2(idx2(q.0 as int, q.1 as int, colors), q.2 as int, colors), q.3 as int, colors)
}

pub open spec fn side_bit(s: bool) -> int {
    if s { 1 } else { 0 }
}

/// The position of a side color fact in its table.
pub open spec fn cid(q: Quad, s: bool, k: Color, colors: int) -> int {
    idx2(idx2(qid(q, colors), side_bit(s), 2), k as int, colors)
}

/// The position of a side pair fact in its table.
pub open spec fn pid(q: Quad, s: bool, a: Color, b: Color, colors: int) -> int {
    idx2(idx2(idx2(qid(q, colors), side_bit(s), 2), a as int, colors), b as int, colors)
}

/// The number of windows.
pub open spec fn quad_total(states: int, colors: int) -> int {
    states * colors * colors * colors
}

pub(crate) proof fn lemma_idx2(a: int, b: int, n: int, m: int)
    requires
        0 <= a < n,
        0 <= b < m,
    ensures
        0 <= idx2(a, b, m) < n * m,
{
    assert(0 <= a * m + b < n * m) by (nonlinear_arith)
        requires
            0 <= a < n,
            0 <= b < m,
    ;
}

pub(crate) proof fn lemma_idx2_inj(a: int, b: int, c: int, d: int, m: int)
    requires
        0 <= b < m,
        0 <= d < m,
        idx2(a, b, m) == idx2(c, d, m),
    ensures
        a == c,
        b == d,
{
    lemma_fundamental_div_mod_converse(idx2(a, b, m), m, a, b);
    lemma_fundamental_div_mod_converse(idx2(c, d, m), m, c, d);
}

/// Windows in range have positions in the table, and different ones have
/// different positions.
pub(crate) proof fn lemma_qid(q: Quad, r: Quad, states: int, colors: int)
    requires
        quad_in(q, states, colors),
        quad_in(r, states, colors),
    ensures
        0 <= qid(q, colors) < quad_total(states, colors),
        qid(q, colors) == qid(r, colors) ==> q == r,
{
    lemma_idx2(q.0 as int, q.1 as int, states, colors);
    lemma_idx2(idx2(q.0 as int, q.1 as int, colors), q.2 as int, states * colors, colors);
    lemma_idx2(idx2(idx2(q.0 as int, q.1 as int, colors), q.2 as int, colors), q.3 as int, states * colors * colors, colors);
    if qid(q, colors) == qid(r, colors) {
        lemma_idx2_inj(idx2(idx2(q.0 as int, q.1 as int, colors), q.2 as int, colors), q.3 as int,
            idx2(idx2(r.0 as int, r.1 as int, colors), r.2 as int, colors), r.3 as int, colors);
        lemma_idx2_inj(idx2(q.0 as int, q.1 as int, colors), q.2 as int, idx2(r.0 as int, r.1 as int, colors), r.2 as int, colors);
        lemma_idx2_inj(q.0 as int, q.1 as int, r.0 as int, r.1 as int, colors);
    }
}

/// The summaries, one entry per fact: whether each window can occur, each
/// side color per window, each side pair per window.
pub struct SidePossible<const S: usize, const C: usize> {
    pub reach: Vec<bool>,
    pub col: Vec<bool>,
    pub pair: Vec<bool>,
}

impl<const S: usize, const C: usize> SidePossible<S, C> {
    /// The tables have one entry per fact.
    pub open spec fn sized(&self) -> bool {
        &&& self.reach@.len() == quad_total(S as int, C as int)
        &&& self.col@.len() == quad_total(S as int, C as int) * 2 * C
        &&& self.pair@.len() == quad_total(S as int, C as int) * 2 * C * C
        &&& quad_total(S as int, C as int) * 2 * C * C <= usize::MAX
    }

    /// Whether the tables hold a fact (in range).
    pub open spec fn holds(&self, f: Fact) -> bool {
        &&& fact_in(f, S as int, C as int)
        &&& match f {
            Fact::Reach(q) => self.reach@[qid(q, C as int)],
            Fact::Col(q, s, k) => self.col@[cid(q, s, k, C as int)],
            Fact::Pair(q, s, a, b) => self.pair@[pid(q, s, a, b, C as int)],
        }
    }

    /// The facts that the tables hold.
    pub open spec fn facts(&self) -> spec_fn(Fact) -> bool {
        |f: Fact| self.holds(f)
    }

    /// The number of facts missing from the tables.
    pub open spec fn absent(&self) -> nat {
        count_false(self.reach@) + count_false(self.col@) + count_false(self.pair@)
    }
}

/// Color facts in range have positions in their table, and different ones
/// have different positions; likewise pair facts.
proof fn lemma_fact_pos(f: Fact, g: Fact, states: int, colors: int)
    requires
        fact_in(f, states, colors),
        fact_in(g, states, colors),
    ensures
        f matches Fact::Reach(q) ==> 0 <= qid(q, colors) < quad_total(states, colors),
        f matches Fact::Col(q, s, k) ==> 0 <= cid(q, s, k, colors) < quad_total(states, colors) * 2 * colors,
        f matches Fact::Pair(q, s, a, b) ==> 0 <= pid(q, s, a, b, colors) < quad_total(states, colors) * 2 * colors
            * colors,
        (f matches Fact::Reach(q) && g matches Fact::Reach(r) && qid(q, colors) == qid(r, colors)) ==> f == g,
        (f matches Fact::Col(q, s, k) && g matches Fact::Col(r, t, l) && cid(q, s, k, colors) == cid(r, t, l, colors))
            ==> f == g,
        (f matches Fact::Pair(q, s, a, b) && g matches Fact::Pair(r, t, c, d) && pid(q, s, a, b, colors) == pid(
            r,
            t,
            c,
            d,
            colors,
        )) ==> f == g,
{
    let total = quad_total(states, colors);
    match f {
        Fact::Reach(q) => {
            if let Fact::Reach(r) = g {
                lemma_qid(q, r, states, colors);
            } else {
                lemma_qid(q, q, states, colors);
            }
        },
        Fact::Col(q, s, k) => {
            lemma_qid(q, q, states, colors);
            lemma_idx2(qid(q, colors), side_bit(s), total, 2);
            lemma_idx2(idx2(qid(q, colors), side_bit(s), 2), k as int, total * 2, colors);
            if let Fact::Col(r, t, l) = g {
                if cid(q, s, k, colors) == cid(r, t, l, colors) {
                    lemma_qid(q, r, states, colors);
                    lemma_idx2_inj(idx2(qid(q, colors), side_bit(s), 2), k as int, idx2(qid(r, colors), side_bit(t), 2), l as int, colors);
                    lemma_idx2_inj(qid(q, colors), side_bit(s), qid(r, colors), side_bit(t), 2);
                }
            }
        },
        Fact::Pair(q, s, a, b) => {
            lemma_qid(q, q, states, colors);
            lemma_idx2(qid(q, colors), side_bit(s), total, 2);
            lemma_idx2(idx2(qid(q, colors), side_bit(s), 2), a as int, total * 2, colors);
            lemma_idx2(idx2(idx2(qid(q, colors), side_bit(s), 2), a as int, colors), b as int, total * 2 * colors, colors);
            if let Fact::Pair(r, t, c, d) = g {
                if pid(q, s, a, b, colors) == pid(r, t, c, d, colors) {
                    lemma_qid(q, r, states, colors);
                    lemma_idx2_inj(idx2(idx2(qid(q, colors), side_bit(s), 2), a as int, colors), b as int,
                        idx2(idx2(qid(r, colors), side_bit(t), 2), c as int, colors), d as int, colors);
                    lemma_idx2_inj(idx2(qid(q, colors), side_bit(s), 2), a as int, idx2(qid(r, colors), side_bit(t), 2), c as int, colors);
                    lemma_idx2_inj(qid(q, colors), side_bit(s), qid(r, colors), side_bit(t), 2);
                }
            }
        },
    }
}

fn falses(n: usize) -> (v: Vec<bool>)
    ensures
        v@.len() == n,
        forall|i: int| 0 <= i < n ==> !v@[i],
{
    let mut v: Vec<bool> = Vec::new();
    while v.len() < n
        invariant
            v@.len() <= n,
            forall|i: int| 0 <= i < v@.len() ==> !v@[i],
        decreases n - v@.len(),
    {
        v.push(false);
    }
    v
}

impl<const S: usize, const C: usize> SidePossible<S, C> {
    /// Tables that hold no fact.
    fn new_empty() -> (r: Self)
        requires
            quad_total(S as int, C as int) * 2 * C * C <= usize::MAX,
            S >= 1,
            C >= 1,
        ensures
            r.sized(),
            forall|f: Fact| !r.holds(f),
    {
        let ghost total = quad_total(S as int, C as int);
        proof {
            assert(S * C * C * C * 2 * C * C == total * 2 * C * C);
            assert(total <= total * 2 * C * C) by (nonlinear_arith)
                requires
                    total >= 0,
                    C >= 1,
            ;
            assert(total * 2 * C <= total * 2 * C * C) by (nonlinear_arith)
                requires
                    total >= 0,
                    C >= 1,
            ;
            assert(S * C <= S * C * C <= S * C * C * C) by (nonlinear_arith)
                requires
                    S >= 1,
                    C >= 1,
            ;
            assert(total * 2 <= total * 2 * C) by (nonlinear_arith)
                requires
                    total >= 0,
                    C >= 1,
            ;
        }
        let total = S * C * C * C;
        let r = SidePossible { reach: falses(total), col: falses(total * 2 * C), pair: falses(total * 2 * C * C) };
        proof {
            assert forall|f: Fact| !r.holds(f) by {
                if fact_in(f, S as int, C as int) {
                    lemma_fact_pos(f, f, S as int, C as int);
                }
            }
        }
        r
    }
}

/// The table sizes grow with each factor.
pub(crate) proof fn lemma_sizes(states: int, colors: int)
    requires
        states >= 1,
        colors >= 1,
    ensures
        states * colors <= states * colors * colors <= quad_total(states, colors),
        quad_total(states, colors) * 2 <= quad_total(states, colors) * 2 * colors
            <= quad_total(states, colors) * 2 * colors * colors,
{
    let total = quad_total(states, colors);
    assert(states * colors <= states * colors * colors <= states * colors * colors * colors) by (nonlinear_arith)
        requires
            states >= 1,
            colors >= 1,
    ;
    assert(total >= 0) by (nonlinear_arith)
        requires
            states >= 1,
            colors >= 1,
            total == states * colors * colors * colors,
    ;
    assert(total * 2 <= total * 2 * colors <= total * 2 * colors * colors) by (nonlinear_arith)
        requires
            total >= 0,
            colors >= 1,
    ;
}

fn mark(v: &mut Vec<bool>, i: usize) -> (changed: bool)
    requires
        i < old(v)@.len(),
    ensures
        final(v)@ == old(v)@.update(i as int, true),
        changed == !old(v)@[i as int],
        changed ==> count_false(final(v)@) + 1 == count_false(old(v)@),
        !changed ==> final(v)@ == old(v)@,
{
    if v[i] {
        proof {
            assert(v@.update(i as int, true) =~= v@);
        }
        false
    } else {
        proof {
            lemma_count_update(v@, i as int);
        }
        v.set(i, true);
        true
    }
}

/// The position of a window in the table of windows.
pub(crate) fn qid_of<const S: usize, const C: usize>(q: Quad) -> (r: usize)
    requires
        quad_in(q, S as int, C as int),
        quad_total(S as int, C as int) * 2 * C * C <= usize::MAX,
        C >= 1,
    ensures
        r == qid(q, C as int),
        r < quad_total(S as int, C as int),
{
    proof {
        let total = quad_total(S as int, C as int);
        lemma_sizes(S as int, C as int);
        lemma_idx2(q.0 as int, q.1 as int, S as int, C as int);
        lemma_idx2(idx2(q.0 as int, q.1 as int, C as int), q.2 as int, S * C, C as int);
        lemma_idx2(idx2(idx2(q.0 as int, q.1 as int, C as int), q.2 as int, C as int), q.3 as int, S * C * C, C as int);
        assert(total <= total * 2 * C * C) by (nonlinear_arith)
            requires
                total >= 0,
                C >= 1,
        ;
    }
    ((q.0 as usize * C + q.1 as usize) * C + q.2 as usize) * C + q.3 as usize
}

/// What merging the step from `w` to `t` adds: the basic facts of `t`,
/// and `w`'s side colors and pairs copied to `t`.
pub open spec fn merged<const S: usize, const C: usize>(
    old: SidePossible<S, C>,
    w: Quad,
    t: Quad,
    ps: bool,
    pr: Color,
    o: Color,
    f: Fact,
) -> bool {
    ||| f == Fact::Reach(t)
    ||| f == Fact::Col(t, false, t.2)
    ||| f == Fact::Col(t, true, t.3)
    ||| f == Fact::Col(t, ps, pr)
    ||| f == Fact::Pair(t, ps, pr, o)
    ||| f matches Fact::Col(q, s, k) && q == t && old.holds(Fact::Col(w, s, k))
    ||| f matches Fact::Pair(q, s, a, b) && q == t && old.holds(Fact::Pair(w, s, a, b))
}

impl<const S: usize, const C: usize> SidePossible<S, C> {
    pub open spec fn same(&self, other: Self) -> bool {
        self.reach@ == other.reach@ && self.col@ == other.col@ && self.pair@ == other.pair@
    }

    fn add_reach(&mut self, q: Quad) -> (changed: bool)
        requires
            old(self).sized(),
            quad_in(q, S as int, C as int),
            C >= 1,
        ensures
            final(self).sized(),
            forall|f: Fact| #[trigger] final(self).holds(f) == (old(self).holds(f) || f == Fact::Reach(q)),
            changed ==> final(self).absent() < old(self).absent(),
            !changed ==> final(self).same(*old(self)),
    {
        let i = qid_of::<S, C>(q);
        let changed = mark(&mut self.reach, i);
        proof {
            assert forall|f: Fact| #[trigger] self.holds(f) == (old(self).holds(f) || f == Fact::Reach(q)) by {
                if fact_in(f, S as int, C as int) {
                    lemma_fact_pos(f, Fact::Reach(q), S as int, C as int);
                }
            }
        }
        changed
    }

    fn add_col(&mut self, q: Quad, s: bool, k: Color) -> (changed: bool)
        requires
            old(self).sized(),
            quad_in(q, S as int, C as int),
            (k as int) < C,
        ensures
            final(self).sized(),
            forall|f: Fact| #[trigger] final(self).holds(f) == (old(self).holds(f) || f == Fact::Col(q, s, k)),
            changed ==> final(self).absent() < old(self).absent(),
            !changed ==> final(self).same(*old(self)),
    {
        let base = qid_of::<S, C>(q);
        proof {
            lemma_fact_pos(Fact::Col(q, s, k), Fact::Col(q, s, k), S as int, C as int);
            lemma_sizes(S as int, C as int);
        }
        let i = (base * 2 + if s { 1 } else { 0 }) * C + k as usize;
        let changed = mark(&mut self.col, i);
        proof {
            assert forall|f: Fact| #[trigger] self.holds(f) == (old(self).holds(f) || f == Fact::Col(q, s, k)) by {
                if fact_in(f, S as int, C as int) {
                    lemma_fact_pos(f, Fact::Col(q, s, k), S as int, C as int);
                }
            }
        }
        changed
    }

    fn add_pair(&mut self, q: Quad, s: bool, a: Color, b: Color) -> (changed: bool)
        requires
            old(self).sized(),
            quad_in(q, S as int, C as int),
            (a as int) < C,
            (b as int) < C,
        ensures
            final(self).sized(),
            forall|f: Fact| #[trigger] final(self).holds(f) == (old(self).holds(f) || f == Fact::Pair(q, s, a, b)),
            changed ==> final(self).absent() < old(self).absent(),
            !changed ==> final(self).same(*old(self)),
    {
        let base = qid_of::<S, C>(q);
        proof {
            lemma_fact_pos(Fact::Pair(q, s, a, b), Fact::Pair(q, s, a, b), S as int, C as int);
            lemma_sizes(S as int, C as int);
            let total = quad_total(S as int, C as int);
            lemma_idx2(qid(q, C as int), side_bit(s), total, 2);
            lemma_idx2(idx2(qid(q, C as int), side_bit(s), 2), a as int, total * 2, C as int);
        }
        let i = ((base * 2 + if s { 1 } else { 0 }) * C + a as usize) * C + b as usize;
        let changed = mark(&mut self.pair, i);
        proof {
            assert forall|f: Fact| #[trigger] self.holds(f) == (old(self).holds(f) || f == Fact::Pair(q, s, a, b)) by {
                if fact_in(f, S as int, C as int) {
                    lemma_fact_pos(f, Fact::Pair(q, s, a, b), S as int, C as int);
                }
            }
        }
        changed
    }

    fn has_col(&self, q: Quad, s: bool, k: Color) -> (r: bool)
        requires
            self.sized(),
            quad_in(q, S as int, C as int),
            (k as int) < C,
        ensures
            r == self.holds(Fact::Col(q, s, k)),
    {
        let base = qid_of::<S, C>(q);
        proof {
            lemma_fact_pos(Fact::Col(q, s, k), Fact::Col(q, s, k), S as int, C as int);
            lemma_sizes(S as int, C as int);
        }
        self.col[(base * 2 + if s { 1 } else { 0 }) * C + k as usize]
    }

    pub fn has_pair(&self, q: Quad, s: bool, a: Color, b: Color) -> (r: bool)
        requires
            self.sized(),
            quad_in(q, S as int, C as int),
            (a as int) < C,
            (b as int) < C,
        ensures
            r == self.holds(Fact::Pair(q, s, a, b)),
    {
        let base = qid_of::<S, C>(q);
        proof {
            lemma_fact_pos(Fact::Pair(q, s, a, b), Fact::Pair(q, s, a, b), S as int, C as int);
            lemma_sizes(S as int, C as int);
            let total = quad_total(S as int, C as int);
            lemma_idx2(qid(q, C as int), side_bit(s), total, 2);
            lemma_idx2(idx2(qid(q, C as int), side_bit(s), 2), a as int, total * 2, C as int);
        }
        self.pair[((base * 2 + if s { 1 } else { 0 }) * C + a as usize) * C + b as usize]
    }

    fn has_reach(&self, q: Quad) -> (r: bool)
        requires
            self.sized(),
            quad_in(q, S as int, C as int),
            C >= 1,
        ensures
            r == self.holds(Fact::Reach(q)),
    {
        self.reach[qid_of::<S, C>(q)]
    }
}

impl<const S: usize, const C: usize> SidePossible<S, C> {
    /// Copies `w`'s colors on side `s` to `t`.
    fn copy_cols(&mut self, w: Quad, t: Quad, s: bool) -> (changed: bool)
        requires
            old(self).sized(),
            quad_in(w, S as int, C as int),
            quad_in(t, S as int, C as int),
            1 <= C <= 256,
        ensures
            final(self).sized(),
            forall|f: Fact| #[trigger] final(self).holds(f) == (old(self).holds(f) || (f matches Fact::Col(q, s2, k) && q == t
                && s2 == s && old(self).holds(Fact::Col(w, s, k)))),
            changed ==> final(self).absent() < old(self).absent(),
            !changed ==> final(self).same(*old(self)),
    {
        let ghost start = *self;
        let mut changed = false;
        let mut k: usize = 0;
        while k < C
            invariant
                self.sized(),
                quad_in(w, S as int, C as int),
                quad_in(t, S as int, C as int),
                1 <= C <= 256,
                k <= C,
                start == *old(self),
                forall|f: Fact| #[trigger] self.holds(f) == (start.holds(f) || (f matches Fact::Col(q, s2, k2) && q == t
                    && s2 == s && k2 < k && start.holds(Fact::Col(w, s, k2)))),
                changed ==> self.absent() < start.absent(),
                !changed ==> self.same(start),
            decreases C - k,
        {
            let kk = k as Color;
            let ghost before = *self;
            assert(self.holds(Fact::Col(w, s, kk)) == start.holds(Fact::Col(w, s, kk)));
            if self.has_col(w, s, kk) {
                if self.add_col(t, s, kk) {
                    changed = true;
                }
            }
            proof {
                assert forall|f: Fact| #[trigger] self.holds(f) == (start.holds(f) || (f matches Fact::Col(q, s2, k2) && q == t
                    && s2 == s && k2 < k + 1 && start.holds(Fact::Col(w, s, k2)))) by {
                    assert(before.holds(f) == (start.holds(f) || (f matches Fact::Col(q, s2, k2) && q == t && s2 == s && k2 < k
                        && start.holds(Fact::Col(w, s, k2)))));
                }
            }
            k += 1;
        }
        changed
    }

    /// Copies `w`'s pairs on side `s` to `t`.
    fn copy_pairs(&mut self, w: Quad, t: Quad, s: bool) -> (changed: bool)
        requires
            old(self).sized(),
            quad_in(w, S as int, C as int),
            quad_in(t, S as int, C as int),
            1 <= C <= 256,
        ensures
            final(self).sized(),
            forall|f: Fact| #[trigger] final(self).holds(f) == (old(self).holds(f) || (f matches Fact::Pair(q, s2, a, b) && q
                == t && s2 == s && old(self).holds(Fact::Pair(w, s, a, b)))),
            changed ==> final(self).absent() < old(self).absent(),
            !changed ==> final(self).same(*old(self)),
    {
        let ghost start = *self;
        let mut changed = false;
        let mut a: usize = 0;
        while a < C
            invariant
                self.sized(),
                quad_in(w, S as int, C as int),
                quad_in(t, S as int, C as int),
                1 <= C <= 256,
                a <= C,
                start == *old(self),
                forall|f: Fact| #[trigger] self.holds(f) == (start.holds(f) || (f matches Fact::Pair(q, s2, a2, b2) && q == t
                    && s2 == s && a2 < a && start.holds(Fact::Pair(w, s, a2, b2)))),
                changed ==> self.absent() < start.absent(),
                !changed ==> self.same(start),
            decreases C - a,
        {
            let mut b: usize = 0;
            while b < C
                invariant
                    self.sized(),
                    quad_in(w, S as int, C as int),
                    quad_in(t, S as int, C as int),
                    1 <= C <= 256,
                    a < C,
                    b <= C,
                    start == *old(self),
                    forall|f: Fact| #[trigger] self.holds(f) == (start.holds(f) || (f matches Fact::Pair(q, s2, a2, b2) && q == t
                        && s2 == s && (a2 < a || (a2 == a && b2 < b)) && start.holds(Fact::Pair(w, s, a2, b2)))),
                    changed ==> self.absent() < start.absent(),
                    !changed ==> self.same(start),
                decreases C - b,
            {
                let aa = a as Color;
                let bb = b as Color;
                let ghost before = *self;
                assert(self.holds(Fact::Pair(w, s, aa, bb)) == start.holds(Fact::Pair(w, s, aa, bb)));
                if self.has_pair(w, s, aa, bb) {
                    if self.add_pair(t, s, aa, bb) {
                        changed = true;
                    }
                }
                proof {
                    assert forall|f: Fact| #[trigger] self.holds(f) == (start.holds(f) || (f matches Fact::Pair(q, s2, a2, b2) && q
                        == t && s2 == s && (a2 < a || (a2 == a && b2 < b + 1)) && start.holds(Fact::Pair(w, s, a2, b2)))) by {
                        assert(before.holds(f) == (start.holds(f) || (f matches Fact::Pair(q, s2, a2, b2) && q == t && s2 == s && (a2
                            < a || (a2 == a && b2 < b)) && start.holds(Fact::Pair(w, s, a2, b2)))));
                    }
                }
                b += 1;
            }
            a += 1;
        }
        changed
    }

    /// Adds what the step from `w` to `t` gives: `w`'s side colors and
    /// pairs, `t` itself, its neighbors, and the printed cell next to the
    /// old neighbor on side `ps`.
    fn merge(&mut self, w: Quad, t: Quad, ps: bool, pr: Color, o: Color) -> (changed: bool)
        requires
            old(self).sized(),
            quad_in(w, S as int, C as int),
            quad_in(t, S as int, C as int),
            1 <= C <= 256,
            (pr as int) < C,
            (o as int) < C,
        ensures
            final(self).sized(),
            forall|f: Fact| #[trigger] final(self).holds(f) == (old(self).holds(f) || merged(*old(self), w, t, ps, pr, o, f)),
            changed ==> final(self).absent() < old(self).absent(),
            !changed ==> final(self).same(*old(self)),
    {
        let ghost start = *self;
        let c1 = self.copy_cols(w, t, false);
        let ghost s1 = *self;
        let c2 = self.copy_cols(w, t, true);
        let ghost s2 = *self;
        let c3 = self.copy_pairs(w, t, false);
        let ghost s3 = *self;
        let c4 = self.copy_pairs(w, t, true);
        let ghost s4 = *self;
        proof {
            assert forall|f: Fact| #[trigger] s4.holds(f) == (start.holds(f) || (f matches Fact::Col(q, s, k) && q == t
                && start.holds(Fact::Col(w, s, k))) || (f matches Fact::Pair(q, s, a, b) && q == t && start.holds(
                Fact::Pair(w, s, a, b)))) by {
                match f {
                    Fact::Col(q, s, k) => {
                        assert(s1.holds(Fact::Col(w, true, k)) == start.holds(Fact::Col(w, true, k)));
                    },
                    Fact::Pair(q, s, a, b) => {
                        assert(s2.holds(Fact::Pair(w, s, a, b)) == start.holds(Fact::Pair(w, s, a, b)));
                        assert(s3.holds(Fact::Pair(w, true, a, b)) == start.holds(Fact::Pair(w, true, a, b)));
                    },
                    _ => {},
                }
            }
        }
        let c5 = self.add_reach(t);
        let c6 = self.add_col(t, false, t.2);
        let c7 = self.add_col(t, true, t.3);
        let c8 = self.add_col(t, ps, pr);
        let c9 = self.add_pair(t, ps, pr, o);
        proof {
            assert forall|f: Fact| #[trigger] self.holds(f) == (start.holds(f) || merged(start, w, t, ps, pr, o, f)) by {
                assert(s4.holds(f) == (start.holds(f) || (f matches Fact::Col(q, s, k) && q == t && start.holds(
                    Fact::Col(w, s, k))) || (f matches Fact::Pair(q, s, a, b) && q == t && start.holds(Fact::Pair(w, s, a, b)))));
            }
        }
        c1 || c2 || c3 || c4 || c5 || c6 || c7 || c8 || c9
    }
}

/// Whether a fact is about window `u`.
pub open spec fn about(f: Fact, u: Quad) -> bool {
    match f {
        Fact::Reach(q) => q == u,
        Fact::Col(q, _, _) => q == u,
        Fact::Pair(q, _, _, _) => q == u,
    }
}

impl<const S: usize, const C: usize> Prog<S, C> {
    /// A step that a set closes stays closed in a larger set that knows
    /// nothing more about the step's source.
    proof fn lemma_step_closed_mono(&self, v: Seq<bool>, a: spec_fn(Fact) -> bool, b: spec_fn(Fact) -> bool, u: Quad, nn: Color)
        requires
            self.side_step_closed(v, a, u, nn),
            forall|f: Fact| #[trigger] a(f) ==> b(f),
            forall|f: Fact| about(f, u) && #[trigger] b(f) ==> a(f),
        ensures
            self.side_step_closed(v, b, u, nn),
    {
        if self.side_enabled(v, b, u, nn) {
            let (t, ps, pr, o) = self.side_target(u, nn)->0;
            assert(b(Fact::Reach(u)) ==> a(Fact::Reach(u)));
            assert(a(Fact::Pair(u, !ps, if ps { u.2 } else { u.3 }, nn)));
            assert(self.side_enabled(v, a, u, nn));
            assert forall|s: bool, k: Color| #[trigger] b(Fact::Col(u, s, k)) implies b(Fact::Col(t, s, k)) by {
                assert(about(Fact::Col(u, s, k), u));
                assert(a(Fact::Col(u, s, k)));
            }
            assert forall|s: bool, x: Color, y: Color| #[trigger] b(Fact::Pair(u, s, x, y)) implies b(Fact::Pair(t, s, x, y)) by {
                assert(about(Fact::Pair(u, s, x, y), u));
                assert(a(Fact::Pair(u, s, x, y)));
            }
        }
    }

    /// The facts that a taken step adds to facts that hold on runs from
    /// the blank tape hold there too.
    proof fn lemma_merge_sound(&self, v: Seq<bool>, sp: SidePossible<S, C>, w: Quad, nn: Color, f: Fact)
        requires
            forall|g: Fact| #[trigger] sp.holds(g) ==> self.side_reach(v, g),
            self.side_enabled(v, sp.facts(), w, nn),
            ({
                let (t, ps, pr, o) = self.side_target(w, nn)->0;
                merged(sp, w, t, ps, pr, o, f)
            }),
        ensures
            self.side_reach(v, f),
    {
        let (t, ps, pr, o) = self.side_target(w, nn)->0;
        assert forall|set: spec_fn(Fact) -> bool| #[trigger] self.side_closed(v, set) implies set(f) by {
            assert forall|g: Fact| #[trigger] sp.facts()(g) implies set(g) by {
                assert(sp.holds(g));
                assert(self.side_reach(v, g));
            }
            assert(self.side_enabled(v, set, w, nn));
            assert(self.side_step_closed(v, set, w, nn));
            match f {
                Fact::Col(q, s, k) => {
                    if q == t && sp.holds(Fact::Col(w, s, k)) {
                        assert(sp.facts()(Fact::Col(w, s, k)));
                        assert(set(Fact::Col(w, s, k)));
                    }
                },
                Fact::Pair(q, s, a, b) => {
                    if q == t && sp.holds(Fact::Pair(w, s, a, b)) {
                        assert(sp.facts()(Fact::Pair(w, s, a, b)));
                        assert(set(Fact::Pair(w, s, a, b)));
                    }
                },
                _ => {},
            }
        }
    }
}

impl<const S: usize, const C: usize> Prog<S, C> {
    /// Whether the whole-side summaries have one entry per fact and the
    /// tables fit in memory, for the sizes of the program.
    pub open spec fn sides_fit() -> bool {
        quad_total(S as int, C as int) * 2 * C * C <= usize::MAX
    }

    /// The whole-side colors and adjacent pairs of the windows that occur
    /// on runs from the blank tape: the least facts that hold the blank
    /// start and are closed under steps, found by a worklist. A step is
    /// taken only to windows that the window tables allow.
    pub fn side_possible_from_blank(&self, wp: &WinPossible) -> (r: SidePossible<S, C>)
        requires
            S >= 1,
            1 <= C <= 64,
            Self::sides_fit(),
            wp.sized(S as int, C as int),
            prints_below(self.instr_list(), C as int),
            targets_below(self.instr_list(), S as int),
        ensures
            r.sized(),
            forall|f: Fact| #[trigger] r.holds(f) == self.side_reach(wp.side_parity@, f),
    {
        proof {
            use_type_invariant(self);
            lemma_sizes(S as int, C as int);
        }
        let ghost v = wp.side_parity@;
        let want = want_all(4);
        assert(want@ =~= seq![true, true, true, true]);
        let total = S * C * C * C;
        let mut sp = SidePossible::<S, C>::new_empty();
        let init: Quad = (0, 0, 0, 0);
        sp.add_reach(init);
        sp.add_col(init, false, 0);
        sp.add_col(init, true, 0);
        sp.add_pair(init, false, 0, 0);
        sp.add_pair(init, true, 0, 0);
        let mut queued = falses(total);
        let mut stack: Vec<Quad> = Vec::new();
        stack.push(init);
        proof {
            lemma_qid(init, init, S as int, C as int);
            assert(stack@.no_duplicates());
        }
        queued.set(0, true);
        proof {
            assert forall|f: Fact| #[trigger] sp.holds(f) implies self.side_reach(v, f) by {
                assert forall|set: spec_fn(Fact) -> bool| #[trigger] self.side_closed(v, set) implies set(f) by {}
            }
            assert forall|q: Quad| quad_in(q, S as int, C as int) implies queued@[qid(q, C as int)] == stack@.contains(q) by {
                lemma_qid(q, init, S as int, C as int);
                if q == init {
                    assert(stack@[0] == init);
                }
            }
        }
        while stack.len() > 0
            invariant
                self.inv(),
                S >= 1,
                1 <= C <= 64,
                Self::sides_fit(),
                wp.sized(S as int, C as int),
                v == wp.side_parity@,
                want@ == seq![true, true, true, true],
                prints_below(self.instr_list(), C as int),
                targets_below(self.instr_list(), S as int),
                total == quad_total(S as int, C as int),
                sp.sized(),
                queued@.len() == total,
                sp.holds(Fact::Reach(side_init())),
                sp.holds(Fact::Col(side_init(), false, 0)),
                sp.holds(Fact::Col(side_init(), true, 0)),
                sp.holds(Fact::Pair(side_init(), false, 0, 0)),
                sp.holds(Fact::Pair(side_init(), true, 0, 0)),
                forall|f: Fact| #[trigger] sp.holds(f) ==> self.side_reach(v, f),
                forall|i: int| 0 <= i < stack@.len() ==> quad_in(#[trigger] stack@[i], S as int, C as int)
                    && sp.holds(Fact::Reach(stack@[i])),
                forall|q: Quad| quad_in(q, S as int, C as int) ==> queued@[qid(q, C as int)] == #[trigger] stack@.contains(q),
                stack@.no_duplicates(),
                forall|u: Quad, nn: Color| sp.holds(Fact::Reach(u)) && !stack@.contains(u) ==> #[trigger] self.side_step_closed(
                    v,
                    sp.facts(),
                    u,
                    nn,
                ),
            decreases sp.absent(), stack@.len(),
        {
            let ghost stack0 = stack@;
            let w = stack.pop().unwrap();
            proof {
                assert(stack0 =~= stack@.push(w));
                assert(stack0[stack@.len() as int] == w);
                lemma_qid(w, w, S as int, C as int);
            }
            let wi = qid_of::<S, C>(w);
            queued.set(wi, false);
            let ghost absent0 = sp.absent();
            let ghost popped = stack@;
            proof {
                assert forall|q: Quad| quad_in(q, S as int, C as int) implies queued@[qid(q, C as int)] == #[trigger] stack@.contains(q) by {
                    lemma_qid(q, w, S as int, C as int);
                    if q != w {
                        assert(stack0.contains(q) ==> stack@.contains(q)) by {
                            if stack0.contains(q) {
                                let j = choose|j: int| 0 <= j < stack0.len() && stack0[j] == q;
                                assert(j != stack@.len());
                                assert(stack@[j] == q);
                            }
                        }
                        assert(stack@.contains(q) ==> stack0.contains(q)) by {
                            if stack@.contains(q) {
                                let j = choose|j: int| 0 <= j < stack@.len() && stack@[j] == q;
                                assert(stack0[j] == q);
                            }
                        }
                    } else {
                        if stack@.contains(q) {
                            let j = choose|j: int| 0 <= j < stack@.len() && stack@[j] == q;
                            assert(stack0[j] == q);
                            assert(stack0[stack@.len() as int] == q);
                        }
                        assert(queued@[qid(q, C as int)] == false);
                    }
                }
                assert forall|i: int| 0 <= i < stack@.len() implies quad_in(#[trigger] stack@[i], S as int, C as int)
                    && sp.holds(Fact::Reach(stack@[i])) by {
                    assert(stack@[i] == stack0[i]);
                }
                assert forall|u: Quad, nn: Color| sp.holds(Fact::Reach(u)) && !stack@.contains(u) && u != w
                    implies #[trigger] self.side_step_closed(v, sp.facts(), u, nn) by {
                    if stack0.contains(u) {
                        let j = choose|j: int| 0 <= j < stack0.len() && stack0[j] == u;
                        assert(j != stack@.len());
                        assert(stack@[j] == u);
                    }
                }
            }
            if let Some(ins) = self.get(&(w.0, w.1)) {
                let (pr, sh, ns) = *ins;
                proof {
                    self.lemma_instr_at_listed(w.0 as int, w.1 as int);
                    let j = choose|j: int| 0 <= j < self.instr_list().len() && #[trigger] self.instr_list()[j]
                        == self.instr_at(w.0 as int, w.1 as int)->0;
                    assert(self.instr_list()[j] == (pr, sh, ns));
                }
                let mut nn: usize = 0;
                while nn < C
                    invariant
                        self.inv(),
                        S >= 1,
                        1 <= C <= 64,
                        Self::sides_fit(),
                        wp.sized(S as int, C as int),
                        v == wp.side_parity@,
                        want@ == seq![true, true, true, true],
                        total == quad_total(S as int, C as int),
                        sp.sized(),
                        queued@.len() == total,
                        quad_in(w, S as int, C as int),
                        (pr as int) < C,
                        (ns as int) < S,
                        self.instr_at(w.0 as int, w.1 as int) == Some((pr, sh, ns)),
                        nn <= C,
                        sp.holds(Fact::Reach(w)),
                        sp.holds(Fact::Reach(side_init())),
                        sp.holds(Fact::Col(side_init(), false, 0)),
                        sp.holds(Fact::Col(side_init(), true, 0)),
                        sp.holds(Fact::Pair(side_init(), false, 0, 0)),
                        sp.holds(Fact::Pair(side_init(), true, 0, 0)),
                        forall|f: Fact| #[trigger] sp.holds(f) ==> self.side_reach(v, f),
                        forall|i: int| 0 <= i < stack@.len() ==> quad_in(#[trigger] stack@[i], S as int, C as int)
                            && sp.holds(Fact::Reach(stack@[i])),
                        forall|q: Quad| quad_in(q, S as int, C as int) ==> queued@[qid(q, C as int)] == #[trigger] stack@.contains(q),
                        stack@.no_duplicates(),
                        forall|u: Quad, m: Color| sp.holds(Fact::Reach(u)) && !stack@.contains(u) && u != w
                            ==> #[trigger] self.side_step_closed(v, sp.facts(), u, m),
                        stack@.contains(w) || forall|m: Color| (m as int) < nn ==> #[trigger] self.side_step_closed(
                            v,
                            sp.facts(),
                            w,
                            m,
                        ),
                        sp.absent() <= absent0,
                        sp.absent() == absent0 ==> stack@ == popped,
                    decreases C - nn,
                {
                    let nc = nn as Color;
                    let (t, ps, near, o) = if sh {
                        ((ns, w.3, pr, nc), false, w.3, w.2)
                    } else {
                        ((ns, w.2, nc, pr), true, w.2, w.3)
                    };
                    assert(self.side_target(w, nc) == Some((t, ps, pr, o)));
                    let ghost before = sp;
                    let ghost stack_before = stack@;
                    let ok = sp.has_pair(w, !ps, near, nc) && search_window(&wp.side_parity, t.0, t.1, Some(t.2), Some(t.3), &want, S, C);
                    if ok {
                        assert(self.side_enabled(v, before.facts(), w, nc));
                        let changed = sp.merge(w, t, ps, pr, o);
                        proof {
                            assert forall|f: Fact| #[trigger] sp.holds(f) implies self.side_reach(v, f) by {
                                if !before.holds(f) {
                                    self.lemma_merge_sound(v, before, w, nc, f);
                                }
                            }
                        }
                        if changed {
                            proof {
                                lemma_qid(t, t, S as int, C as int);
                            }
                            let ti = qid_of::<S, C>(t);
                            if !queued[ti] {
                                queued.set(ti, true);
                                stack.push(t);
                                proof {
                                    assert(!stack_before.contains(t));
                                    assert(stack@ =~= stack_before.push(t));
                                    assert forall|a: int, b: int| 0 <= a < stack@.len() && 0 <= b < stack@.len() && a != b
                                        implies stack@[a] != stack@[b] by {
                                        if a < stack_before.len() && b < stack_before.len() {
                                            assert(stack@[a] == stack_before[a]);
                                            assert(stack@[b] == stack_before[b]);
                                        } else if a < stack_before.len() {
                                            assert(stack@[a] == stack_before[a]);
                                        } else if b < stack_before.len() {
                                            assert(stack@[b] == stack_before[b]);
                                        }
                                    }
                                    assert forall|q: Quad| quad_in(q, S as int, C as int) implies queued@[qid(q, C as int)]
                                        == #[trigger] stack@.contains(q) by {
                                        lemma_qid(q, t, S as int, C as int);
                                        if q == t {
                                            assert(stack@[stack@.len() - 1] == t);
                                        } else {
                                            if stack@.contains(q) {
                                                let j = choose|j: int| 0 <= j < stack@.len() && stack@[j] == q;
                                                assert(j < stack_before.len());
                                                assert(stack_before[j] == q);
                                            }
                                            if stack_before.contains(q) {
                                                let j = choose|j: int| 0 <= j < stack_before.len() && stack_before[j] == q;
                                                assert(stack@[j] == q);
                                            }
                                        }
                                    }
                                }
                            }
                        }
                        proof {
                            assert(stack@.contains(t) || !changed);
                            assert forall|i: int| 0 <= i < stack@.len() implies quad_in(#[trigger] stack@[i], S as int, C as int)
                                && sp.holds(Fact::Reach(stack@[i])) by {
                                if i < stack_before.len() {
                                    assert(stack@[i] == stack_before[i]);
                                }
                            }
                            assert forall|g: Fact| #[trigger] before.facts()(g) implies sp.facts()(g) by {}
                            assert forall|u: Quad, m: Color| sp.holds(Fact::Reach(u)) && !stack@.contains(u) && u != w
                                implies #[trigger] self.side_step_closed(v, sp.facts(), u, m) by {
                                assert(stack_before.contains(u) ==> stack@.contains(u)) by {
                                    if stack_before.contains(u) {
                                        let j = choose|j: int| 0 <= j < stack_before.len() && stack_before[j] == u;
                                        assert(stack@[j] == u);
                                    }
                                }
                                if u == t {
                                    assert(!changed);
                                    assert(sp.same(before));
                                    assert forall|g: Fact| #[trigger] sp.facts()(g) implies before.facts()(g) by {}
                                    assert(before.holds(Fact::Reach(u)));
                                    self.lemma_step_closed_mono(v, before.facts(), sp.facts(), u, m);
                                } else {
                                    assert forall|g: Fact| about(g, u) && #[trigger] sp.facts()(g) implies before.facts()(g) by {
                                        assert(!merged(before, w, t, ps, pr, o, g));
                                    }
                                    assert(before.holds(Fact::Reach(u))) by {
                                        assert(about(Fact::Reach(u), u));
                                    }
                                    self.lemma_step_closed_mono(v, before.facts(), sp.facts(), u, m);
                                }
                            }
                            if !stack@.contains(w) {
                                assert(!stack_before.contains(w)) by {
                                    if stack_before.contains(w) {
                                        let j = choose|j: int| 0 <= j < stack_before.len() && stack_before[j] == w;
                                        assert(stack@[j] == w);
                                    }
                                }
                                assert forall|m: Color| (m as int) < nn + 1 implies #[trigger] self.side_step_closed(v, sp.facts(), w, m) by {
                                    if t == w {
                                        assert(!changed);
                                        assert forall|g: Fact| #[trigger] sp.facts()(g) implies before.facts()(g) by {}
                                    } else {
                                        assert forall|g: Fact| about(g, w) && #[trigger] sp.facts()(g) implies before.facts()(g) by {
                                            assert(!merged(before, w, t, ps, pr, o, g));
                                        }
                                    }
                                    if (m as int) < nn {
                                        self.lemma_step_closed_mono(v, before.facts(), sp.facts(), w, m);
                                    } else {
                                        assert(m == nc);
                                        if self.side_enabled(v, sp.facts(), w, m) {
                                            assert forall|s: bool, k: Color| #[trigger] sp.facts()(Fact::Col(w, s, k))
                                                implies sp.facts()(Fact::Col(t, s, k)) by {
                                                assert(about(Fact::Col(w, s, k), w));
                                                assert(before.holds(Fact::Col(w, s, k)));
                                                assert(merged(before, w, t, ps, pr, o, Fact::Col(t, s, k)));
                                                lemma_fact_pos(Fact::Col(w, s, k), Fact::Col(w, s, k), S as int, C as int);
                                            }
                                            assert forall|s: bool, x: Color, y: Color| #[trigger] sp.facts()(Fact::Pair(w, s, x, y))
                                                implies sp.facts()(Fact::Pair(t, s, x, y)) by {
                                                assert(about(Fact::Pair(w, s, x, y), w));
                                                assert(before.holds(Fact::Pair(w, s, x, y)));
                                                assert(merged(before, w, t, ps, pr, o, Fact::Pair(t, s, x, y)));
                                            }
                                            assert(merged(before, w, t, ps, pr, o, Fact::Col(t, false, t.2)));
                                            assert(merged(before, w, t, ps, pr, o, Fact::Col(t, true, t.3)));
                                            assert(merged(before, w, t, ps, pr, o, Fact::Col(t, ps, pr)));
                                            assert(merged(before, w, t, ps, pr, o, Fact::Pair(t, ps, pr, o)));
                                            assert(merged(before, w, t, ps, pr, o, Fact::Reach(t)));
                                        }
                                    }
                                }
                            }
                        }
                    } else {
                        proof {
                            assert(!self.side_enabled(v, sp.facts(), w, nc));
                        }
                    }
                    nn += 1;
                }
            } else {
                proof {
                    assert forall|m: Color| #[trigger] self.side_step_closed(v, sp.facts(), w, m) by {
                        assert(self.side_target(w, m) is None);
                    }
                }
            }
            proof {
                assert forall|u: Quad, m: Color| sp.holds(Fact::Reach(u)) && !stack@.contains(u)
                    implies #[trigger] self.side_step_closed(v, sp.facts(), u, m) by {
                    if u == w && !stack@.contains(w) {
                        assert((m as int) < C || !self.side_enabled(v, sp.facts(), w, m));
                    }
                }
            }
        }
        proof {
            assert(self.side_closed(v, sp.facts())) by {
                assert forall|w: Quad, nn: Color| #[trigger] self.side_step_closed(v, sp.facts(), w, nn) by {
                    if sp.holds(Fact::Reach(w)) {
                        assert(!stack@.contains(w));
                    }
                }
            }
            assert forall|f: Fact| #[trigger] sp.holds(f) == self.side_reach(v, f) by {
                if self.side_reach(v, f) {
                    assert(sp.facts()(f));
                }
            }
        }
        sp
    }
}

impl<const S: usize, const C: usize> SidePossible<S, C> {
    /// Whether the summaries of window `q` on `side` admit run `i` of a
    /// span (farthest first): its color, its color next to itself if it
    /// has two cells or more, and its color next to the farther run's.
    pub open spec fn block_ok(&self, q: Quad, side: bool, bs: Seq<Block>, i: int) -> bool {
        &&& self.holds(Fact::Col(q, side, bs[i].color))
        &&& bs[i].count.min_spec() > 1 ==> self.holds(Fact::Pair(q, side, bs[i].color, bs[i].color))
        &&& i > 0 ==> self.holds(Fact::Pair(q, side, bs[i].color, bs[i - 1].color))
    }

    /// Whether the summaries of window `q` on `side` admit what lies beyond
    /// the farthest run: blank where the span ends in blanks, some color
    /// where the end is unknown.
    pub open spec fn end_ok(&self, q: Quad, side: bool, bs: Seq<Block>, end: TapeEnd) -> bool {
        &&& end == TapeEnd::Blanks ==> self.holds(Fact::Pair(q, side, if bs.len() > 0 { bs[0].color } else { 0 }, 0))
        &&& (end == TapeEnd::Unknown && bs.len() > 0) ==> exists|k: Color| #[trigger] self.holds(
            Fact::Pair(q, side, bs[0].color, k),
        )
    }

    /// Whether the summaries of window `q` on `side` admit the runs of a
    /// span and what lies beyond them.
    pub open spec fn span_ok(&self, q: Quad, side: bool, bs: Seq<Block>, end: TapeEnd) -> bool {
        &&& forall|i: int| 0 <= i < bs.len() ==> #[trigger] self.block_ok(q, side, bs, i)
        &&& self.end_ok(q, side, bs, end)
    }

    /// Whether the window with the tape's state and scanned color and the
    /// neighbors `l` and `r` fits the tape's known neighbors, can occur,
    /// and admits both of the tape's sides.
    pub open spec fn admits(&self, state: State, tape: Tape, l: Color, r: Color) -> bool {
        &&& (neighbor_color(tape.lspan.bs(), tape.lspan.end) matches Some(x) ==> l == x)
        &&& (neighbor_color(tape.rspan.bs(), tape.rspan.end) matches Some(x) ==> r == x)
        &&& self.holds(Fact::Reach((state, tape.scan, l, r)))
        &&& self.span_ok((state, tape.scan, l, r), false, tape.lspan.bs(), tape.lspan.end)
        &&& self.span_ok((state, tape.scan, l, r), true, tape.rspan.bs(), tape.rspan.end)
    }

    /// Whether some exact window with the tape's state, scanned color and
    /// known neighbors can occur and admits both of the tape's sides.
    pub open spec fn state_side_ok(&self, state: State, tape: Tape) -> bool {
        exists|l: Color, r: Color| #[trigger] self.admits(state, tape, l, r)
    }

    fn check_block(&self, q: Quad, side: bool, bs: &Vec<Block>, i: usize) -> (ok: bool)
        requires
            self.sized(),
            quad_in(q, S as int, C as int),
            1 <= C <= 256,
            i < bs.len(),
        ensures
            ok == self.block_ok(q, side, bs@, i as int),
    {
        let color = bs[i].color;
        if color as usize >= C {
            return false;
        }
        if !self.has_col(q, side, color) {
            return false;
        }
        if bs[i].count.minimum() > 1 && !self.has_pair(q, side, color, color) {
            return false;
        }
        if i > 0 {
            let far = bs[i - 1].color;
            if far as usize >= C {
                return false;
            }
            if !self.has_pair(q, side, color, far) {
                return false;
            }
        }
        true
    }

    fn check_end(&self, q: Quad, side: bool, bs: &Vec<Block>, end: TapeEnd) -> (ok: bool)
        requires
            self.sized(),
            quad_in(q, S as int, C as int),
            1 <= C <= 256,
        ensures
            ok == self.end_ok(q, side, bs@, end),
    {
        match end {
            TapeEnd::Blanks => {
                let far = if bs.len() > 0 { bs[0].color } else { 0 };
                if far as usize >= C {
                    return false;
                }
                self.has_pair(q, side, far, 0)
            },
            TapeEnd::Unknown => {
                if bs.len() == 0 {
                    return true;
                }
                let far = bs[0].color;
                if far as usize >= C {
                    proof {
                        assert forall|k: Color| !#[trigger] self.holds(Fact::Pair(q, side, far, k)) by {}
                    }
                    return false;
                }
                let mut k: usize = 0;
                while k < C
                    invariant
                        self.sized(),
                        quad_in(q, S as int, C as int),
                        1 <= C <= 256,
                        (far as int) < C,
                        bs@.len() > 0,
                        far == bs@[0].color,
                        end == TapeEnd::Unknown,
                        k <= C,
                        forall|x: Color| (x as int) < k ==> !#[trigger] self.holds(Fact::Pair(q, side, far, x)),
                    decreases C - k,
                {
                    if self.has_pair(q, side, far, k as Color) {
                        assert(self.holds(Fact::Pair(q, side, bs@[0].color, k as Color)));
                        return true;
                    }
                    k += 1;
                }
                proof {
                    assert forall|x: Color| !#[trigger] self.holds(Fact::Pair(q, side, far, x)) by {
                        if (x as int) >= C {
                            assert(!fact_in(Fact::Pair(q, side, far, x), S as int, C as int));
                        }
                    }
                }
                false
            },
        }
    }

    fn check_span(&self, q: Quad, side: bool, span: &Span) -> (ok: bool)
        requires
            self.sized(),
            quad_in(q, S as int, C as int),
            1 <= C <= 256,
        ensures
            ok == self.span_ok(q, side, span.bs(), span.end),
    {
        let bs = &span.span.blocks;
        let mut i: usize = 0;
        while i < bs.len()
            invariant
                self.sized(),
                quad_in(q, S as int, C as int),
                1 <= C <= 256,
                span.bs() == bs@,
                i <= bs.len(),
                forall|j: int| 0 <= j < i ==> #[trigger] self.block_ok(q, side, bs@, j),
            decreases bs.len() - i,
        {
            if !self.check_block(q, side, bs, i) {
                return false;
            }
            i += 1;
        }
        self.check_end(q, side, bs, span.end)
    }

    fn window_admits(&self, state: State, tape: &Tape, l: Color, r: Color) -> (ok: bool)
        requires
            self.sized(),
            quad_in((state, tape.scan, l, r), S as int, C as int),
            1 <= C <= 256,
        ensures
            ok == self.admits(state, *tape, l, r),
    {
        let fits_left = match tape.left_neighbor_color() {
            Some(x) => x == l,
            None => true,
        };
        let fits_right = match tape.right_neighbor_color() {
            Some(x) => x == r,
            None => true,
        };
        let q = (state, tape.scan, l, r);
        fits_left && fits_right && self.has_reach(q) && self.check_span(q, false, &tape.lspan) && self.check_span(
            q,
            true,
            &tape.rspan,
        )
    }
}

    /// Whether some exact window with the tape's state, scanned color and
/// known neighbors can occur with whole-side summaries that admit every
/// color and adjacent pair of the tape's two sides.
impl Tape {
    pub fn obeys_state_side<const S: usize, const C: usize>(&self, state: State, sp: &SidePossible<S, C>) -> (r: bool)
    requires
        sp.sized(),
        1 <= C <= 256,
    ensures
        r == sp.state_side_ok(state, *self),
{
    if state as usize >= S || self.scan as usize >= C {
        proof {
            assert forall|l: Color, rr: Color| !#[trigger] sp.admits(state, *self, l, rr) by {}
        }
        return false;
    }
    let mut l: usize = 0;
    while l < C
        invariant
            sp.sized(),
            1 <= C <= 256,
            (state as int) < S,
            (self.scan as int) < C,
            l <= C,
            forall|x: Color, y: Color| (x as int) < l ==> !#[trigger] sp.admits(state, *self, x, y),
        decreases C - l,
    {
        let lc = l as Color;
        let mut rr: usize = 0;
        while rr < C
            invariant
                sp.sized(),
                1 <= C <= 256,
                (state as int) < S,
                (self.scan as int) < C,
                l < C,
                lc == l as Color,
                rr <= C,
                forall|y: Color| (y as int) < rr ==> !#[trigger] sp.admits(state, *self, lc, y),
            decreases C - rr,
        {
            if sp.window_admits(state, self, lc, rr as Color) {
                assert(sp.admits(state, *self, lc, rr as Color));
                return true;
            }
            rr += 1;
        }
        proof {
            assert forall|y: Color| !#[trigger] sp.admits(state, *self, lc, y) by {
                if (y as int) >= C {
                    assert(!fact_in(Fact::Reach((state, self.scan, lc, y)), S as int, C as int));
                }
            }
        }
        l += 1;
    }
    proof {
        assert forall|x: Color, y: Color| !#[trigger] sp.admits(state, *self, x, y) by {
            if (x as int) >= C {
                assert(!fact_in(Fact::Reach((state, self.scan, x, y)), S as int, C as int));
            }
        }
    }
    false
}
}

/// Whether the whole-side summaries of the program's sizes fit in memory.
pub fn sides_fit_check<const S: usize, const C: usize>() -> (r: bool)
    ensures
        r == Prog::<S, C>::sides_fit(),
{
    let ghost p1 = S * C;
    let ghost p2 = p1 * C;
    let ghost p3 = p2 * C;
    let ghost p4 = p3 * 2;
    let ghost p5 = p4 * C;
    let ghost p6 = p5 * C;
    proof {
        assert(quad_total(S as int, C as int) * 2 * C * C == p6);
        if C >= 1 {
            assert(p1 <= p2 <= p3 <= p4 <= p5 <= p6) by (nonlinear_arith)
                requires
                    C >= 1,
                    p1 == S * C,
                    p2 == p1 * C,
                    p3 == p2 * C,
                    p4 == p3 * 2,
                    p5 == p4 * C,
                    p6 == p5 * C,
                    S >= 0,
            ;
        }
    }
    if C == 0 {
        assert(p6 == 0);
        return true;
    }
    let a = match S.checked_mul(C) {
        Some(x) => x,
        None => return false,
    };
    let b = match a.checked_mul(C) {
        Some(x) => x,
        None => return false,
    };
    let c = match b.checked_mul(C) {
        Some(x) => x,
        None => return false,
    };
    let d = match c.checked_mul(2) {
        Some(x) => x,
        None => return false,
    };
    let e = match d.checked_mul(C) {
        Some(x) => x,
        None => return false,
    };
    match e.checked_mul(C) {
        Some(_) => true,
        None => false,
    }
}

/// The left side, as an index into the side masks.
pub const LEFT_SIDE: usize = 0;

/// The right side, as an index into the side masks.
pub const RIGHT_SIDE: usize = 1;

/// Whether bit `k` of a mask is set.
pub open spec fn mask_bit(m: u64, k: int) -> bool {
    (m >> (k as u64)) & 1u64 == 1u64
}

pub(crate) proof fn lemma_or_bit(m: u64, k: u64, j: u64)
    requires
        k < 64,
        j < 64,
    ensures
        mask_bit(m | (1u64 << k), j as int) == (mask_bit(m, j as int) || j == k),
        !mask_bit(0u64, j as int),
{
    assert(((m | (1u64 << k)) >> j) & 1u64 == 1u64 <==> (((m >> j) & 1u64 == 1u64) || j == k)) by (bit_vector)
        requires
            k < 64,
            j < 64,
    ;
    assert((0u64 >> j) & 1u64 != 1u64) by (bit_vector);
}

/// One window's summaries as masks: whether it can occur, the colors on
/// each side (bit `k` for color `k`), and for each side and color the
/// colors that may stand just beyond it.
pub struct WindowSideSummary {
    pub reachable: bool,
    pub colors: [u64; 2],
    pub pairs: [Vec<u64>; 2],
}

impl WindowSideSummary {
    /// The summaries of window `q` are those of the tables.
    pub open spec fn shows<const S: usize, const C: usize>(&self, sp: SidePossible<S, C>, q: Quad) -> bool {
        &&& self.reachable == sp.holds(Fact::Reach(q))
        &&& self.pairs[0]@.len() == C
        &&& self.pairs[1]@.len() == C
        &&& forall|s: bool, k: int| 0 <= k < C ==> (#[trigger] mask_bit(self.colors[side_bit(s)], k)) == sp.holds(
            Fact::Col(q, s, k as u8),
        )
        &&& forall|s: bool, a: int, b: int| 0 <= a < C && 0 <= b < C ==> (#[trigger] mask_bit(self.pairs[side_bit(s)]@[a], b))
            == sp.holds(Fact::Pair(q, s, a as u8, b as u8))
    }
}

impl<const S: usize, const C: usize> SidePossible<S, C> {
    /// Tables that hold no fact.
    pub fn new() -> (r: Self)
        requires
            Prog::<S, C>::sides_fit(),
            S >= 1,
            C >= 1,
        ensures
            r.sized(),
            forall|f: Fact| !r.holds(f),
    {
        Self::new_empty()
    }

    fn col_mask(&self, q: Quad, s: bool) -> (m: u64)
        requires
            self.sized(),
            quad_in(q, S as int, C as int),
            1 <= C <= 64,
        ensures
            forall|k: int| 0 <= k < C ==> (#[trigger] mask_bit(m, k)) == self.holds(Fact::Col(q, s, k as u8)),
    {
        let mut m: u64 = 0;
        let mut k: usize = 0;
        proof {
            assert forall|j: int| 0 <= j < 64 implies !#[trigger] mask_bit(m, j) by {
                lemma_or_bit(0u64, 0u64, j as u64);
            }
        }
        while k < C
            invariant
                self.sized(),
                quad_in(q, S as int, C as int),
                1 <= C <= 64,
                k <= C,
                forall|j: int| 0 <= j < 64 ==> (#[trigger] mask_bit(m, j)) == (j < k && self.holds(Fact::Col(q, s, j as u8))),
            decreases C - k,
        {
            let ghost m0 = m;
            if self.has_col(q, s, k as u8) {
                m = m | (1u64 << (k as u64));
                proof {
                    assert forall|j: int| 0 <= j < 64 implies (#[trigger] mask_bit(m, j)) == (j < k + 1 && self.holds(
                        Fact::Col(q, s, j as u8),
                    )) by {
                        lemma_or_bit(m0, k as u64, j as u64);
                    }
                }
            }
            k += 1;
        }
        m
    }

    fn pair_mask(&self, q: Quad, s: bool, a: u8) -> (m: u64)
        requires
            self.sized(),
            quad_in(q, S as int, C as int),
            1 <= C <= 64,
            (a as int) < C,
        ensures
            forall|b: int| 0 <= b < C ==> (#[trigger] mask_bit(m, b)) == self.holds(Fact::Pair(q, s, a, b as u8)),
    {
        let mut m: u64 = 0;
        let mut k: usize = 0;
        proof {
            assert forall|j: int| 0 <= j < 64 implies !#[trigger] mask_bit(m, j) by {
                lemma_or_bit(0u64, 0u64, j as u64);
            }
        }
        while k < C
            invariant
                self.sized(),
                quad_in(q, S as int, C as int),
                1 <= C <= 64,
                (a as int) < C,
                k <= C,
                forall|j: int| 0 <= j < 64 ==> (#[trigger] mask_bit(m, j)) == (j < k && self.holds(Fact::Pair(q, s, a, j as u8))),
            decreases C - k,
        {
            let ghost m0 = m;
            if self.has_pair(q, s, a, k as u8) {
                m = m | (1u64 << (k as u64));
                proof {
                    assert forall|j: int| 0 <= j < 64 implies (#[trigger] mask_bit(m, j)) == (j < k + 1 && self.holds(
                        Fact::Pair(q, s, a, j as u8),
                    )) by {
                        lemma_or_bit(m0, k as u64, j as u64);
                    }
                }
            }
            k += 1;
        }
        m
    }

    fn pair_masks(&self, q: Quad, s: bool) -> (v: Vec<u64>)
        requires
            self.sized(),
            quad_in(q, S as int, C as int),
            1 <= C <= 64,
        ensures
            v@.len() == C,
            forall|a: int, b: int| 0 <= a < C && 0 <= b < C ==> (#[trigger] mask_bit(v@[a], b)) == self.holds(
                Fact::Pair(q, s, a as u8, b as u8),
            ),
    {
        let mut v: Vec<u64> = Vec::new();
        let mut a: usize = 0;
        while a < C
            invariant
                self.sized(),
                quad_in(q, S as int, C as int),
                1 <= C <= 64,
                a <= C,
                v@.len() == a,
                forall|x: int, b: int| 0 <= x < a && 0 <= b < C ==> (#[trigger] mask_bit(v@[x], b)) == self.holds(
                    Fact::Pair(q, s, x as u8, b as u8),
                ),
            decreases C - a,
        {
            let m = self.pair_mask(q, s, a as u8);
            v.push(m);
            a += 1;
        }
        v
    }

    /// The summaries of one window as masks.
    pub fn window(&self, st: usize, scan: usize, left: usize, right: usize) -> (r: WindowSideSummary)
        requires
            self.sized(),
            1 <= C <= 64,
            st < S,
            scan < C,
            left < C,
            right < C,
        ensures
            r.shows(*self, (st as u8, scan as u8, left as u8, right as u8)),
    {
        let q = (st as u8, scan as u8, left as u8, right as u8);
        WindowSideSummary {
            reachable: self.has_reach(q),
            colors: [self.col_mask(q, false), self.col_mask(q, true)],
            pairs: [self.pair_masks(q, false), self.pair_masks(q, true)],
        }
    }

    /// Adds the facts that one window's masks set.
    pub fn set_window(&mut self, st: usize, scan: usize, left: usize, right: usize, w: &WindowSideSummary)
        requires
            old(self).sized(),
            1 <= C <= 64,
            st < S,
            scan < C,
            left < C,
            right < C,
            w.pairs[0]@.len() == C,
            w.pairs[1]@.len() == C,
        ensures
            final(self).sized(),
            forall|f: Fact| #[trigger] final(self).holds(f) == (old(self).holds(f) || match f {
                Fact::Reach(q) => q == (st as u8, scan as u8, left as u8, right as u8) && w.reachable,
                Fact::Col(q, s, k) => q == (st as u8, scan as u8, left as u8, right as u8) && (k as int) < C && mask_bit(
                    w.colors[side_bit(s)],
                    k as int,
                ),
                Fact::Pair(q, s, a, b) => q == (st as u8, scan as u8, left as u8, right as u8) && (a as int) < C && (b as int)
                    < C && mask_bit(w.pairs[side_bit(s)]@[a as int], b as int),
            }),
    {
        let q = (st as u8, scan as u8, left as u8, right as u8);
        let ghost start = *self;
        if w.reachable {
            self.add_reach(q);
        }
        let mut i: usize = 0;
        while i < 2 * C
            invariant
                self.sized(),
                1 <= C <= 64,
                quad_in(q, S as int, C as int),
                q == (st as u8, scan as u8, left as u8, right as u8),
                w.pairs[0]@.len() == C,
                w.pairs[1]@.len() == C,
                i <= 2 * C,
                forall|f: Fact| #[trigger] self.holds(f) == (start.holds(f) || match f {
                    Fact::Reach(x) => x == q && w.reachable,
                    Fact::Col(x, s, k) => x == q && (k as int) < C && side_bit(s) * C + k < i && mask_bit(
                        w.colors[side_bit(s)],
                        k as int,
                    ),
                    Fact::Pair(x, s, a, b) => false,
                }),
            decreases 2 * C - i,
        {
            let s = i >= C;
            let k = if s { i - C } else { i };
            let m = w.colors[if s { 1 } else { 0 }];
            let ghost before = *self;
            if (m >> (k as u64)) & 1 == 1 {
                self.add_col(q, s, k as u8);
            }
            proof {
                assert forall|f: Fact| #[trigger] self.holds(f) == (start.holds(f) || match f {
                    Fact::Reach(x) => x == q && w.reachable,
                    Fact::Col(x, s2, k2) => x == q && (k2 as int) < C && side_bit(s2) * C + k2 < i + 1 && mask_bit(
                        w.colors[side_bit(s2)],
                        k2 as int,
                    ),
                    Fact::Pair(x, s2, a, b) => false,
                }) by {
                    if let Fact::Col(x, s2, k2) = f {
                        if (k2 as int) < C && side_bit(s2) * C + k2 == i {
                            assert(s2 == s && k2 as int == k as int) by (nonlinear_arith)
                                requires
                                    side_bit(s2) * C + k2 == i,
                                    (k2 as int) < C,
                                    0 <= k2,
                                    s == (i >= C),
                                    k == (if s { i - C } else { i as int }),
                                    side_bit(s2) == (if s2 { 1int } else { 0int }),
                            ;
                        }
                    }
                }
            }
            i += 1;
        }
        let ghost mid = *self;
        let mut j: usize = 0;
        proof {
            assert(C * C <= 4096 && 2 * C * C <= 8192) by (nonlinear_arith)
                requires
                    1 <= C <= 64,
            ;
        }
        while j < 2 * C * C
            invariant
                self.sized(),
                1 <= C <= 64,
                C * C <= 4096,
                2 * C * C <= 8192,
                quad_in(q, S as int, C as int),
                q == (st as u8, scan as u8, left as u8, right as u8),
                w.pairs[0]@.len() == C,
                w.pairs[1]@.len() == C,
                j <= 2 * C * C,
                forall|f: Fact| #[trigger] self.holds(f) == (mid.holds(f) || match f {
                    Fact::Pair(x, s, a, b) => x == q && (a as int) < C && (b as int) < C && (side_bit(s) * C + a) * C + b < j
                        && mask_bit(w.pairs[side_bit(s)]@[a as int], b as int),
                    _ => false,
                }),
            decreases 2 * C * C - j,
        {
            let s = j >= C * C;
            let rest = if s { j - C * C } else { j };
            let a = rest / C;
            let b = rest % C;
            proof {
                assert(rest < C * C) by (nonlinear_arith)
                    requires
                        j < 2 * C * C,
                        s == (j >= C * C),
                        rest == (if s { j - C * C } else { j as int }),
                ;
                assert(a < C) by (nonlinear_arith)
                    requires
                        rest < C * C,
                        a == rest / C,
                        C >= 1,
                        rest >= 0,
                ;
            }
            let row = if s { &w.pairs[1] } else { &w.pairs[0] };
            let m = row[a];
            assert(m == w.pairs[side_bit(s)]@[a as int]);
            let ghost before = *self;
            let hit = (m >> (b as u64)) & 1 == 1;
            assert(hit == mask_bit(w.pairs[side_bit(s)]@[(a as u8) as int], (b as u8) as int));
            if hit {
                self.add_pair(q, s, a as u8, b as u8);
            }
            proof {
                assert forall|f: Fact| #[trigger] self.holds(f) == (mid.holds(f) || match f {
                    Fact::Pair(x, s2, a2, b2) => x == q && (a2 as int) < C && (b2 as int) < C && (side_bit(s2) * C + a2) * C
                        + b2 < j + 1 && mask_bit(w.pairs[side_bit(s2)]@[a2 as int], b2 as int),
                    _ => false,
                }) by {
                    assert(before.holds(f) == (mid.holds(f) || match f {
                        Fact::Pair(x, s3, a3, b3) => x == q && (a3 as int) < C && (b3 as int) < C && (side_bit(s3) * C + a3) * C
                            + b3 < j && mask_bit(w.pairs[side_bit(s3)]@[a3 as int], b3 as int),
                        _ => false,
                    }));
                    assert(self.holds(f) == (before.holds(f) || (hit && f == Fact::Pair(q, s, a as u8, b as u8))));
                    if let Fact::Pair(x, s2, a2, b2) = f {
                        if x == q && (a2 as int) < C && (b2 as int) < C {
                            if (side_bit(s2) * C + a2) * C + b2 == j {
                                vstd::arithmetic::div_mod::lemma_fundamental_div_mod(rest as int, C as int);
                                assert(s2 == s && a2 as int == a as int && b2 as int == b as int) by (nonlinear_arith)
                                    requires
                                        (side_bit(s2) * C + a2) * C + b2 == j,
                                        0 <= a2 < C,
                                        0 <= b2 < C,
                                        s == (j >= C * C),
                                        rest == (if s { j - C * C } else { j as int }),
                                        rest == C * a + b,
                                        0 <= b < C,
                                        side_bit(s2) == (if s2 { 1int } else { 0int }),
                                ;
                                assert(f == Fact::Pair(q, s, a as u8, b as u8));
                            } else {
                                vstd::arithmetic::div_mod::lemma_fundamental_div_mod(rest as int, C as int);
                                assert((side_bit(s) * C + a) * C + b == j) by (nonlinear_arith)
                                    requires
                                        s == (j >= C * C),
                                        rest == (if s { j - C * C } else { j as int }),
                                        rest == C * a + b,
                                        side_bit(s) == (if s { 1int } else { 0int }),
                                ;
                                assert(f != Fact::Pair(q, s, a as u8, b as u8));
                            }
                        } else {
                            assert(f != Fact::Pair(q, s, a as u8, b as u8));
                        }
                    }
                }
            }
            j += 1;
        }
        proof {
            assert forall|f: Fact| #[trigger] self.holds(f) == (start.holds(f) || match f {
                Fact::Reach(x) => x == q && w.reachable,
                Fact::Col(x, s, k) => x == q && (k as int) < C && mask_bit(w.colors[side_bit(s)], k as int),
                Fact::Pair(x, s, a, b) => x == q && (a as int) < C && (b as int) < C && mask_bit(
                    w.pairs[side_bit(s)]@[a as int],
                    b as int,
                ),
            }) by {
                match f {
                    Fact::Col(x, s, k) => {
                        if (k as int) < C {
                            assert(side_bit(s) * C + k < 2 * C) by (nonlinear_arith)
                                requires
                                    (k as int) < C,
                                    side_bit(s) <= 1,
                                    0 <= k,
                            ;
                        }
                    },
                    Fact::Pair(x, s, a, b) => {
                        if (a as int) < C && (b as int) < C {
                            assert((side_bit(s) * C + a) * C + b < 2 * C * C) by (nonlinear_arith)
                                requires
                                    (a as int) < C,
                                    (b as int) < C,
                                    side_bit(s) <= 1,
                                    0 <= a,
                                    0 <= b,
                            ;
                        }
                    },
                    _ => {},
                }
            }
        }
    }
}

} // verus!
