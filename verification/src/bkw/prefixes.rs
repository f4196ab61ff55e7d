//! Ordered near tails of each side of the windows that occur on runs from
//! the blank tape.
//!
//! For each exact window (state, scanned color, left and right neighbor)
//! and each side, the prefixes (see `prefix`) that the cells beyond the
//! neighbor may have. A step moving away from a side sets the old
//! neighbor before that side's cells; a step moving toward it takes the
//! nearest of those cells in as the new neighbor. The neighbor brought in
//! on the other side is one that the whole-side summaries allow after the
//! old neighbor there, and every window stepped to must be one that the
//! window tables allow. The facts kept are the least that hold the blank
//! start and are closed under these steps.
use vstd::prelude::*;

use crate::bkw::prefix::{
    SIDE_PREFIX_MANY, SIDE_PREFIX_SPILL_MANY, SidePrefix, SidePrefixRun, SidePrefixSpill, lemma_prepends_nf, lemma_pulls_nf,
    prefix_nf, prepends, pulls,
};
use crate::bkw::tape::{Block, BlockCount, Span, Tape, TapeEnd, neighbor_color};
use crate::bkw::sides::{Fact, Quad, SidePossible, idx2, sides_fit_check, lemma_idx2, lemma_idx2_inj, lemma_qid, lemma_sizes, qid, qid_of, quad_in, quad_total, side_bit, side_init, window_ok};
use crate::bkw::windows::{WinPossible, count_false, lemma_count_update, search_window, want_all};
use crate::bkw::{prints_below, targets_below};
use crate::instrs::{Color, Instr, State};
use crate::prog::Prog;

verus! {

/// A fact of the propagation: on the side (`false` left, `true` right) of
/// the window, the cells beyond the neighbor may have the prefix.
pub type PFact = (bool, Quad, SidePrefix);

/// The number of a kept run among runs of colors below some bound.
pub open spec fn run_code(r: SidePrefixRun) -> int {
    idx2(r.color as int, r.count - 1, 4)
}

/// The number of ways to keep up to two runs.
pub open spec fn runs_total(colors: int) -> int {
    1 + 4 * colors + (4 * colors) * (4 * colors)
}

/// The number of a prefix's kept runs.
pub open spec fn runs_code(p: SidePrefix, colors: int) -> int {
    if p.len == 0 {
        0
    } else if p.len == 1 {
        1 + run_code(p.runs[0])
    } else {
        1 + 4 * colors + idx2(run_code(p.runs[0]), run_code(p.runs[1]), 4 * colors)
    }
}

/// The number of spills.
pub open spec fn spill_total(colors: int) -> int {
    2 + 4 * colors
}

/// The number of a spill.
pub open spec fn spill_code(s: SidePrefixSpill) -> int {
    match s {
        SidePrefixSpill::Blank => 0,
        SidePrefixSpill::DirtyUnknown => 1,
        SidePrefixSpill::Run { color, count, farther_dirty } => 2 + idx2(
            idx2(color as int, count - 1, 2),
            if farther_dirty { 1 } else { 0 },
            2,
        ),
    }
}

/// The number of prefixes among `colors` colors.
pub open spec fn prefix_total(colors: int) -> int {
    runs_total(colors) * spill_total(colors)
}

/// The number of a prefix.
pub open spec fn prefix_code(p: SidePrefix, colors: int) -> int {
    idx2(runs_code(p, colors), spill_code(p.spill), spill_total(colors))
}

/// The position of a window's side among the sides of all windows.
pub open spec fn side_slot(s: bool, q: Quad, colors: int) -> int {
    idx2(qid(q, colors), side_bit(s), 2)
}

/// The position of a fact in the table.
pub open spec fn pfact_pos(f: PFact, colors: int) -> int {
    idx2(side_slot(f.0, f.1, colors), prefix_code(f.2, colors), prefix_total(colors))
}

proof fn lemma_run_code(r: SidePrefixRun, colors: int)
    requires
        1 <= r.count <= 4,
        r.color < colors,
    ensures
        0 <= run_code(r) < 4 * colors,
{
    lemma_idx2(r.color as int, r.count - 1, colors, 4);
}

/// Prefixes in form have numbers below the number of prefixes.
pub proof fn lemma_code_range(p: SidePrefix, colors: int)
    requires
        prefix_nf(p, colors),
        colors >= 1,
    ensures
        0 <= runs_code(p, colors) < runs_total(colors),
        0 <= spill_code(p.spill) < spill_total(colors),
        0 <= prefix_code(p, colors) < prefix_total(colors),
{
    let c4 = 4 * colors;
    assert(c4 * c4 >= 0) by (nonlinear_arith)
        requires
            c4 >= 0,
    ;
    if p.len == 1 {
        lemma_run_code(p.runs[0], colors);
    } else if p.len == 2 {
        lemma_run_code(p.runs[0], colors);
        lemma_run_code(p.runs[1], colors);
        lemma_idx2(run_code(p.runs[0]), run_code(p.runs[1]), c4, c4);
    }
    if let SidePrefixSpill::Run { color, count, farther_dirty } = p.spill {
        lemma_idx2(color as int, count - 1, colors, 2);
        lemma_idx2(idx2(color as int, count - 1, 2), if farther_dirty { 1 } else { 0 }, 2 * colors, 2);
    }
    lemma_idx2(runs_code(p, colors), spill_code(p.spill), runs_total(colors), spill_total(colors));
}

proof fn lemma_run_code_inj(a: SidePrefixRun, b: SidePrefixRun)
    requires
        1 <= a.count <= 4,
        1 <= b.count <= 4,
        run_code(a) == run_code(b),
    ensures
        a == b,
{
    lemma_idx2_inj(a.color as int, a.count - 1, b.color as int, b.count - 1, 4);
}

/// Different prefixes in form have different numbers.
pub proof fn lemma_code_inj(p: SidePrefix, q: SidePrefix, colors: int)
    requires
        prefix_nf(p, colors),
        prefix_nf(q, colors),
        colors >= 1,
        prefix_code(p, colors) == prefix_code(q, colors),
    ensures
        p == q,
{
    lemma_code_range(p, colors);
    lemma_code_range(q, colors);
    lemma_idx2_inj(runs_code(p, colors), spill_code(p.spill), runs_code(q, colors), spill_code(q.spill), spill_total(colors));
    let c4 = 4 * colors;
    if p.len == 1 {
        lemma_run_code(p.runs[0], colors);
    }
    if q.len == 1 {
        lemma_run_code(q.runs[0], colors);
    }
    if p.len == 2 {
        lemma_run_code(p.runs[0], colors);
        lemma_run_code(p.runs[1], colors);
        lemma_idx2(run_code(p.runs[0]), run_code(p.runs[1]), c4, c4);
    }
    if q.len == 2 {
        lemma_run_code(q.runs[0], colors);
        lemma_run_code(q.runs[1], colors);
        lemma_idx2(run_code(q.runs[0]), run_code(q.runs[1]), c4, c4);
    }
    assert(p.len == q.len);
    if p.len == 1 {
        lemma_run_code_inj(p.runs[0], q.runs[0]);
    } else if p.len == 2 {
        lemma_idx2_inj(run_code(p.runs[0]), run_code(p.runs[1]), run_code(q.runs[0]), run_code(q.runs[1]), c4);
        lemma_run_code_inj(p.runs[0], q.runs[0]);
        lemma_run_code_inj(p.runs[1], q.runs[1]);
    }
    assert(p.runs =~= q.runs);
    match (p.spill, q.spill) {
        (
            SidePrefixSpill::Run { color: a, count: x, farther_dirty: da },
            SidePrefixSpill::Run { color: b, count: y, farther_dirty: db },
        ) => {
            lemma_idx2_inj(idx2(a as int, x - 1, 2), if da { 1 } else { 0 }, idx2(b as int, y - 1, 2), if db { 1 } else { 0 }, 2);
            lemma_idx2_inj(a as int, x - 1, b as int, y - 1, 2);
        },
        _ => {},
    }
}

/// The number of a prefix in form.
fn code_of<const C: usize>(p: &SidePrefix) -> (r: usize)
    requires
        prefix_nf(*p, C as int),
        1 <= C <= 64,
    ensures
        r == prefix_code(*p, C as int),
        r < prefix_total(C as int),
{
    proof {
        lemma_code_range(*p, C as int);
        assert(prefix_total(C as int) <= prefix_total(64)) by (nonlinear_arith)
            requires
                1 <= C <= 64,
        ;
    }
    let c4 = 4 * C;
    let runs = if p.len == 0 {
        0
    } else if p.len == 1 {
        1 + p.runs[0].color as usize * 4 + (p.runs[0].count as usize - 1)
    } else {
        let r0 = p.runs[0].color as usize * 4 + (p.runs[0].count as usize - 1);
        let r1 = p.runs[1].color as usize * 4 + (p.runs[1].count as usize - 1);
        proof {
            lemma_run_code(p.runs[0], C as int);
            lemma_run_code(p.runs[1], C as int);
            assert(r0 * c4 <= 256 * 256) by (nonlinear_arith)
                requires
                    r0 < c4,
                    c4 <= 256,
            ;
        }
        1 + c4 + r0 * c4 + r1
    };
    let spill = match p.spill {
        SidePrefixSpill::Blank => 0,
        SidePrefixSpill::DirtyUnknown => 1,
        SidePrefixSpill::Run { color, count, farther_dirty } => 2 + (color as usize * 2 + (count as usize - 1)) * 2 + if farther_dirty {
            1
        } else {
            0
        },
    };
    proof {
        assert(runs == runs_code(*p, C as int));
        assert(spill == spill_code(p.spill));
        let rt = runs_total(C as int);
        let st = spill_total(C as int);
        let c4i = 4 * C as int;
        assert(c4i * c4i <= 256 * 256) by (nonlinear_arith)
            requires
                0 <= c4i <= 256,
        ;
        assert(runs * st + spill < rt * st) by (nonlinear_arith)
            requires
                0 <= runs < rt,
                0 <= spill < st,
        ;
        assert(rt * st <= 65793 * 258) by (nonlinear_arith)
            requires
                rt <= 65793,
                0 <= st <= 258,
                rt >= 0,
        ;
    }
    runs * (2 + c4) + spill
}

proof fn lemma_totals(states: int, colors: int)
    requires
        states >= 1,
        colors >= 1,
    ensures
        prefix_total(colors) >= 2,
        quad_total(states, colors) >= 1,
        quad_total(states, colors) * 2 <= quad_total(states, colors) * 2 * prefix_total(colors),
{
    lemma_sizes(states, colors);
    let np = prefix_total(colors);
    let rt = runs_total(colors);
    let st = spill_total(colors);
    assert(4 * colors * (4 * colors) >= 0) by (nonlinear_arith)
        requires
            colors >= 1,
    ;
    assert(rt * st >= 2) by (nonlinear_arith)
        requires
            rt >= 1,
            st >= 2,
    ;
    let total = quad_total(states, colors);
    assert(total >= 1) by (nonlinear_arith)
        requires
            states >= 1,
            colors >= 1,
            total == states * colors * colors * colors,
    ;
    assert(total * 2 <= total * 2 * np) by (nonlinear_arith)
        requires
            total >= 0,
            np >= 1,
    ;
}

/// The number of prefixes among `C` colors.
fn prefix_total_of<const C: usize>() -> (r: usize)
    requires
        1 <= C <= 64,
    ensures
        r == prefix_total(C as int),
{
    let c4 = 4 * C;
    proof {
        assert(c4 * c4 <= 256 * 256) by (nonlinear_arith)
            requires
                c4 <= 256,
        ;
        let rt = runs_total(C as int);
        assert(rt * (2 + c4) <= 65793 * 258) by (nonlinear_arith)
            requires
                0 <= rt <= 65793,
                c4 <= 256,
        ;
    }
    (1 + c4 + c4 * c4) * (2 + c4)
}

/// For each side of each window, the prefixes found there, and a table
/// with an entry per fact.
pub struct SidePrefixPossible<const S: usize, const C: usize> {
    windows: Vec<Vec<SidePrefix>>,
    table: Vec<bool>,
}

impl<const S: usize, const C: usize> Prog<S, C> {
    /// Whether the tables of prefixes fit in memory, for the sizes of the
    /// program.
    pub open spec fn prefixes_fit() -> bool {
        &&& Self::sides_fit()
        &&& quad_total(S as int, C as int) * 2 * prefix_total(C as int) <= usize::MAX
    }
}

/// Facts in range have positions in the table, and different ones have
/// different positions.
proof fn lemma_pos(f: PFact, g: PFact, states: int, colors: int)
    requires
        quad_in(f.1, states, colors),
        quad_in(g.1, states, colors),
        prefix_nf(f.2, colors),
        prefix_nf(g.2, colors),
        colors >= 1,
    ensures
        0 <= side_slot(f.0, f.1, colors) < quad_total(states, colors) * 2,
        0 <= pfact_pos(f, colors) < quad_total(states, colors) * 2 * prefix_total(colors),
        pfact_pos(f, colors) == pfact_pos(g, colors) ==> f == g,
{
    let total = quad_total(states, colors);
    lemma_qid(f.1, g.1, states, colors);
    lemma_qid(g.1, g.1, states, colors);
    lemma_idx2(qid(f.1, colors), side_bit(f.0), total, 2);
    lemma_idx2(qid(g.1, colors), side_bit(g.0), total, 2);
    lemma_code_range(f.2, colors);
    lemma_code_range(g.2, colors);
    lemma_idx2(side_slot(f.0, f.1, colors), prefix_code(f.2, colors), total * 2, prefix_total(colors));
    if pfact_pos(f, colors) == pfact_pos(g, colors) {
        lemma_idx2_inj(side_slot(f.0, f.1, colors), prefix_code(f.2, colors), side_slot(g.0, g.1, colors), prefix_code(g.2, colors), prefix_total(colors));
        lemma_idx2_inj(qid(f.1, colors), side_bit(f.0), qid(g.1, colors), side_bit(g.0), 2);
        lemma_code_inj(f.2, g.2, colors);
    }
}

fn falses(n: usize) -> (v: Vec<bool>)
    ensures
        v@.len() == n,
        forall|i: int| 0 <= i < n ==> !v@[i],
{
    let mut v: Vec<bool> = Vec::new();
    while v.len() < n
        invariant
            v@.len() <= n,
            forall|i: int| 0 <= i < v@.len() ==> !v@[i],
        decreases n - v@.len(),
    {
        v.push(false);
    }
    v
}

impl<const S: usize, const C: usize> SidePrefixPossible<S, C> {
    /// The listing and the table agree, and have one entry per side of a
    /// window and per fact.
    pub closed spec fn wf(&self) -> bool {
        let n = quad_total(S as int, C as int) * 2;
        let np = prefix_total(C as int);
        &&& 1 <= C <= 64
        &&& S >= 1
        &&& Prog::<S, C>::prefixes_fit()
        &&& self.windows@.len() == n
        &&& self.table@.len() == n * np
        &&& forall|i: int, k: int| 0 <= i < n && 0 <= k < self.windows@[i]@.len() ==> prefix_nf(
            #[trigger] self.windows@[i]@[k],
            C as int,
        ) && self.table@[idx2(i, prefix_code(self.windows@[i]@[k], C as int), np)]
        &&& forall|i: int, p: SidePrefix| 0 <= i < n && prefix_nf(p, C as int) && #[trigger] self.table@[idx2(
            i,
            prefix_code(p, C as int),
            np,
        )] ==> self.windows@[i]@.contains(p)
    }

    /// Whether the tables hold a fact (in range and in form).
    pub closed spec fn holds(&self, f: PFact) -> bool {
        &&& quad_in(f.1, S as int, C as int)
        &&& prefix_nf(f.2, C as int)
        &&& self.table@[pfact_pos(f, C as int)]
    }

    /// The number of facts missing from the table.
    pub closed spec fn absent(&self) -> nat {
        count_false(self.table@)
    }

    /// Well formed tables are for at least one state and one to 64 colors.
    pub proof fn lemma_wf_sizes(&self)
        requires
            self.wf(),
        ensures
            S >= 1,
            1 <= C <= 64,
            Prog::<S, C>::prefixes_fit(),
    {
    }

    /// Facts that the tables hold are in range and in form.
    pub proof fn lemma_holds_in(&self, f: PFact)
        requires
            self.holds(f),
        ensures
            quad_in(f.1, S as int, C as int),
            prefix_nf(f.2, C as int),
    {
    }

    /// Tables that hold no fact.
    pub fn new() -> (r: Self)
        requires
            Prog::<S, C>::prefixes_fit(),
            S >= 1,
            1 <= C <= 64,
        ensures
            r.wf(),
            forall|f: PFact| !r.holds(f),
    {
        let np = prefix_total_of::<C>();
        proof {
            lemma_sizes(S as int, C as int);
            lemma_totals(S as int, C as int);
        }
        let n = S * C * C * C * 2;
        let mut windows: Vec<Vec<SidePrefix>> = Vec::new();
        while windows.len() < n
            invariant
                windows@.len() <= n,
                forall|i: int| 0 <= i < windows@.len() ==> (#[trigger] windows@[i])@.len() == 0,
            decreases n - windows@.len(),
        {
            windows.push(Vec::new());
        }
        let table = falses(n * np);
        let r = SidePrefixPossible { windows, table };
        proof {
            assert forall|f: PFact| !r.holds(f) by {
                if quad_in(f.1, S as int, C as int) && prefix_nf(f.2, C as int) {
                    lemma_pos(f, f, S as int, C as int);
                }
            }
            assert forall|i: int, p: SidePrefix| 0 <= i < n && prefix_nf(p, C as int) && #[trigger] r.table@[idx2(
                i,
                prefix_code(p, C as int),
                np as int,
            )] implies r.windows@[i]@.contains(p) by {
                lemma_code_range(p, C as int);
                lemma_idx2(i, prefix_code(p, C as int), n as int, np as int);
            }
        }
        r
    }

    /// The position of a fact in the table and of its side in the listing.
    fn pos_of(&self, f: PFact) -> (r: (usize, usize))
        requires
            self.wf(),
            quad_in(f.1, S as int, C as int),
            prefix_nf(f.2, C as int),
        ensures
            r.0 == side_slot(f.0, f.1, C as int),
            r.1 == pfact_pos(f, C as int),
            r.0 < quad_total(S as int, C as int) * 2,
            r.1 < self.table@.len(),
    {
        proof {
            lemma_pos(f, f, S as int, C as int);
            lemma_totals(S as int, C as int);
        }
        let q = qid_of::<S, C>(f.1);
        let slot = q * 2 + if f.0 { 1 } else { 0 };
        let np = prefix_total_of::<C>();
        let code = code_of::<C>(&f.2);
        (slot, slot * np + code)
    }

    /// Whether the tables hold a fact in range and in form.
    pub fn has(&self, f: PFact) -> (r: bool)
        requires
            self.wf(),
            quad_in(f.1, S as int, C as int),
            prefix_nf(f.2, C as int),
        ensures
            r == self.holds(f),
    {
        let (_, pos) = self.pos_of(f);
        self.table[pos]
    }

    /// Adds a fact; whether it was new.
    pub fn add(&mut self, f: PFact) -> (new: bool)
        requires
            old(self).wf(),
            quad_in(f.1, S as int, C as int),
            prefix_nf(f.2, C as int),
        ensures
            final(self).wf(),
            new == !old(self).holds(f),
            forall|g: PFact| #[trigger] final(self).holds(g) == (old(self).holds(g) || g == f),
            new ==> final(self).absent() + 1 == old(self).absent(),
            !new ==> final(self).absent() == old(self).absent(),
    {
        let (slot, pos) = self.pos_of(f);
        if self.table[pos] {
            return false;
        }
        let ghost t0 = self.table@;
        let ghost w0 = self.windows@;
        proof {
            lemma_count_update(t0, pos as int);
            lemma_code_range(f.2, C as int);
        }
        self.table.set(pos, true);
        self.windows[slot].push(f.2);
        proof {
            let n = quad_total(S as int, C as int) * 2;
            let np = prefix_total(C as int);
            assert(pfact_pos(f, C as int) == idx2(slot as int, prefix_code(f.2, C as int), np));
            assert forall|g: PFact| #[trigger] self.holds(g) == (old(self).holds(g) || g == f) by {
                if quad_in(g.1, S as int, C as int) && prefix_nf(g.2, C as int) {
                    lemma_pos(g, f, S as int, C as int);
                }
            }
            assert forall|i: int, k: int| 0 <= i < n && 0 <= k < self.windows@[i]@.len() implies prefix_nf(
                #[trigger] self.windows@[i]@[k],
                C as int,
            ) && self.table@[idx2(i, prefix_code(self.windows@[i]@[k], C as int), np)] by {
                if i == slot {
                    if k < w0[i]@.len() {
                        assert(self.windows@[i]@[k] == w0[i]@[k]);
                    }
                } else {
                    assert(self.windows@[i] == w0[i]);
                }
                let p = self.windows@[i]@[k];
                lemma_code_range(p, C as int);
                lemma_idx2(i, prefix_code(p, C as int), n, np);
            }
            assert forall|i: int, p: SidePrefix| 0 <= i < n && prefix_nf(p, C as int) && #[trigger] self.table@[idx2(
                i,
                prefix_code(p, C as int),
                np,
            )] implies self.windows@[i]@.contains(p) by {
                lemma_code_range(p, C as int);
                lemma_idx2(i, prefix_code(p, C as int), n, np);
                if idx2(i, prefix_code(p, C as int), np) == pos as int {
                    lemma_idx2_inj(i, prefix_code(p, C as int), slot as int, prefix_code(f.2, C as int), np);
                    lemma_code_inj(p, f.2, C as int);
                    assert(self.windows@[i]@[self.windows@[i]@.len() - 1] == p);
                } else {
                    assert(t0[idx2(i, prefix_code(p, C as int), np)]);
                    assert(w0[i]@.contains(p));
                    let k = choose|k: int| 0 <= k < w0[i]@.len() && w0[i]@[k] == p;
                    if i == slot {
                        assert(self.windows@[i]@[k] == p);
                    } else {
                        assert(self.windows@[i] == w0[i]);
                    }
                }
            }
        }
        true
    }
}

/// The window a step by `i` from `w` leads to, when the neighbor brought
/// in is `nc`.
pub open spec fn pfx_target(w: Quad, i: Instr, nc: Color) -> Quad {
    if i.1 {
        (i.2, w.3, i.0, nc)
    } else {
        (i.2, w.2, nc, i.0)
    }
}

impl<const S: usize, const C: usize> Prog<S, C> {
    /// Whether the step from `f` gives `g`: `g` is about the same side of
    /// the window stepped to, which the window tables allow. Moving away
    /// from the side sets the old neighbor before its cells, and the
    /// neighbor brought in on the other side may follow the old one there;
    /// moving toward the side takes its nearest cell in as the neighbor.
    pub open spec fn pfx_next(&self, v: Seq<bool>, sp: SidePossible<S, C>, f: PFact, g: PFact) -> bool {
        let (side, w, p) = f;
        let (gs, t, q) = g;
        &&& gs == side
        &&& Self::in_range(w.0 as int, w.1 as int)
        &&& self.instr_at(w.0 as int, w.1 as int) matches Some(i) && {
            let nc = if i.1 { t.3 } else { t.2 };
            &&& t == pfx_target(w, i, nc)
            &&& quad_in(t, S as int, C as int)
            &&& window_ok(v, t, C as int)
            &&& if side != i.1 {
                &&& sp.holds(Fact::Pair(w, i.1, if i.1 { w.3 } else { w.2 }, nc))
                &&& prepends(p, if side { w.3 } else { w.2 }).contains(q)
            } else {
                pulls(p, C as nat).contains((nc, q))
            }
        }
    }

    /// Whether a set of facts holds the blank start (where the window
    /// tables allow it) and is closed under steps.
    pub open spec fn pfx_closed(&self, v: Seq<bool>, sp: SidePossible<S, C>, set: spec_fn(PFact) -> bool) -> bool {
        &&& window_ok(v, side_init(), C as int) ==> set((false, side_init(), SidePrefix::spec_blank())) && set(
            (true, side_init(), SidePrefix::spec_blank()),
        )
        &&& forall|f: PFact, g: PFact| #[trigger] self.pfx_next(v, sp, f, g) ==> (set(f) ==> set(g))
    }

    /// Whether a fact holds on runs from the blank tape: it is in every
    /// closed set.
    pub open spec fn pfx_reach(&self, v: Seq<bool>, sp: SidePossible<S, C>, f: PFact) -> bool {
        forall|set: spec_fn(PFact) -> bool| #[trigger] self.pfx_closed(v, sp, set) ==> set(f)
    }
}

impl<const S: usize, const C: usize> SidePrefixPossible<S, C> {
    /// The facts that the tables hold.
    pub open spec fn facts(&self) -> spec_fn(PFact) -> bool {
        |f: PFact| self.holds(f)
    }
}

/// `b` holds what `a` held, and the facts it adds are the ones pushed
/// onto the stack after `s0`.
pub open spec fn extends<const S: usize, const C: usize>(
    a: SidePrefixPossible<S, C>,
    b: SidePrefixPossible<S, C>,
    s0: Seq<PFact>,
    s1: Seq<PFact>,
) -> bool {
    &&& forall|g: PFact| #[trigger] a.holds(g) ==> b.holds(g)
    &&& forall|g: PFact| #[trigger] b.holds(g) && !a.holds(g) ==> s1.contains(g)
    &&& s1.len() >= s0.len()
    &&& s1.subrange(0, s0.len() as int) == s0
    &&& forall|i: int| s0.len() <= i < s1.len() ==> b.holds(#[trigger] s1[i])
    &&& b.absent() + (s1.len() - s0.len()) == a.absent()
}

proof fn lemma_extends_refl<const S: usize, const C: usize>(a: SidePrefixPossible<S, C>, s: Seq<PFact>)
    ensures
        extends(a, a, s, s),
{
    assert(s.subrange(0, s.len() as int) =~= s);
}

proof fn lemma_extends_trans<const S: usize, const C: usize>(
    a: SidePrefixPossible<S, C>,
    b: SidePrefixPossible<S, C>,
    c: SidePrefixPossible<S, C>,
    s0: Seq<PFact>,
    s1: Seq<PFact>,
    s2: Seq<PFact>,
)
    requires
        extends(a, b, s0, s1),
        extends(b, c, s1, s2),
    ensures
        extends(a, c, s0, s2),
{
    assert forall|g: PFact| #[trigger] c.holds(g) && !a.holds(g) implies s2.contains(g) by {
        if b.holds(g) {
            assert(s1.contains(g));
            let j = choose|j: int| 0 <= j < s1.len() && s1[j] == g;
            assert(s2.subrange(0, s1.len() as int)[j] == g);
        }
    }
    assert(s2.subrange(0, s0.len() as int) =~= s0) by {
        assert forall|j: int| 0 <= j < s0.len() implies s2.subrange(0, s0.len() as int)[j] == s0[j] by {
            assert(s2.subrange(0, s1.len() as int)[j] == s1[j]);
            assert(s1.subrange(0, s0.len() as int)[j] == s0[j]);
        }
    }
    assert forall|i: int| s0.len() <= i < s2.len() implies c.holds(#[trigger] s2[i]) by {
        if i < s1.len() {
            assert(s2.subrange(0, s1.len() as int)[i] == s1[i]);
            assert(b.holds(s1[i]));
        }
    }
}

impl<const S: usize, const C: usize> SidePrefixPossible<S, C> {
    /// Adds a fact, and pushes it onto the stack if it is new.
    fn add_push(&mut self, stack: &mut Vec<PFact>, g: PFact)
        requires
            old(self).wf(),
            quad_in(g.1, S as int, C as int),
            prefix_nf(g.2, C as int),
        ensures
            final(self).wf(),
            final(self).holds(g),
            forall|h: PFact| #[trigger] final(self).holds(h) ==> old(self).holds(h) || h == g,
            extends(*old(self), *final(self), old(stack)@, final(stack)@),
    {
        let ghost s0 = stack@;
        if self.add(g) {
            stack.push(g);
            proof {
                assert(stack@[s0.len() as int] == g);
                assert(stack@.subrange(0, s0.len() as int) =~= s0);
            }
        } else {
            proof {
                lemma_extends_refl(*self, s0);
            }
        }
    }
}

impl<const S: usize, const C: usize> Prog<S, C> {
    /// Whether the window tables allow a window, by a search.
    pub(crate) fn window_allowed(&self, wp: &WinPossible, want: &Vec<bool>, t: Quad) -> (r: bool)
        requires
            wp.sized(S as int, C as int),
            want@ == seq![true, true, true, true],
            1 <= C <= 64,
            quad_in(t, S as int, C as int),
        ensures
            r == window_ok(wp.side_parity@, t, C as int),
    {
        search_window(&wp.side_parity, t.0, t.1, Some(t.2), Some(t.3), want, S, C)
    }

    /// Adds the facts on `side` of `t` with each of the prefixes.
    fn pfx_add_all(
        &self,
        pp: &mut SidePrefixPossible<S, C>,
        stack: &mut Vec<PFact>,
        side: bool,
        t: Quad,
        qs: &Vec<SidePrefix>,
    )
        requires
            old(pp).wf(),
            quad_in(t, S as int, C as int),
            forall|k: int| 0 <= k < qs@.len() ==> prefix_nf(#[trigger] qs@[k], C as int),
        ensures
            final(pp).wf(),
            forall|k: int| 0 <= k < qs@.len() ==> final(pp).holds((side, t, #[trigger] qs@[k])),
            forall|h: PFact| #[trigger] final(pp).holds(h) ==> old(pp).holds(h) || (h.0 == side && h.1 == t
                && qs@.contains(h.2)),
            extends(*old(pp), *final(pp), old(stack)@, final(stack)@),
    {
        let ghost pp0 = *pp;
        let ghost s0 = stack@;
        proof {
            lemma_extends_refl(pp0, s0);
        }
        let mut k: usize = 0;
        while k < qs.len()
            invariant
                pp.wf(),
                quad_in(t, S as int, C as int),
                k <= qs@.len(),
                forall|j: int| 0 <= j < qs@.len() ==> prefix_nf(#[trigger] qs@[j], C as int),
                forall|j: int| 0 <= j < k ==> pp.holds((side, t, #[trigger] qs@[j])),
                forall|h: PFact| #[trigger] pp.holds(h) ==> pp0.holds(h) || (h.0 == side && h.1 == t && qs@.contains(h.2)),
                extends(pp0, *pp, s0, stack@),
            decreases qs@.len() - k,
        {
            let ghost pp1 = *pp;
            let ghost s1 = stack@;
            let g = (side, t, qs[k]);
            pp.add_push(stack, g);
            proof {
                lemma_extends_trans(pp0, pp1, *pp, s0, s1, stack@);
                assert forall|h: PFact| #[trigger] pp.holds(h) implies pp0.holds(h) || (h.0 == side && h.1 == t
                    && qs@.contains(h.2)) by {
                    if h == g {
                        assert(qs@[k as int] == h.2);
                    } else {
                        assert(pp1.holds(h));
                    }
                }
                assert forall|j: int| 0 <= j < k + 1 implies pp.holds((side, t, #[trigger] qs@[j])) by {
                    if j < k {
                        assert(pp1.holds((side, t, qs@[j])));
                    }
                }
            }
            k += 1;
        }
    }
}

impl<const S: usize, const C: usize> Prog<S, C> {
    /// Adds every fact that the step from `f` gives.
    fn pfx_step(
        &self,
        wp: &WinPossible,
        want: &Vec<bool>,
        sp: &SidePossible<S, C>,
        pp: &mut SidePrefixPossible<S, C>,
        stack: &mut Vec<PFact>,
        f: PFact,
    )
        requires
            S >= 1,
            1 <= C <= 64,
            wp.sized(S as int, C as int),
            want@ == seq![true, true, true, true],
            sp.sized(),
            prints_below(self.instr_list(), C as int),
            targets_below(self.instr_list(), S as int),
            old(pp).wf(),
            old(pp).holds(f),
        ensures
            final(pp).wf(),
            forall|g: PFact| #[trigger] self.pfx_next(wp.side_parity@, *sp, f, g) ==> final(pp).holds(g),
            forall|h: PFact| #[trigger] final(pp).holds(h) ==> old(pp).holds(h) || self.pfx_next(wp.side_parity@, *sp, f, h),
            extends(*old(pp), *final(pp), old(stack)@, final(stack)@),
    {
        proof {
            use_type_invariant(self);
            pp.lemma_holds_in(f);
        }
        let ghost v = wp.side_parity@;
        let ghost pp0 = *pp;
        let ghost s0 = stack@;
        proof {
            lemma_extends_refl(pp0, s0);
        }
        let (side, w, p) = f;
        if let Some(ins) = self.get(&(w.0, w.1)) {
            let (pr, sh, ns) = *ins;
            let ghost i = (pr, sh, ns);
            proof {
                self.lemma_instr_at_listed(w.0 as int, w.1 as int);
                let j = choose|j: int| 0 <= j < self.instr_list().len() && #[trigger] self.instr_list()[j]
                    == self.instr_at(w.0 as int, w.1 as int)->0;
                assert(self.instr_list()[j] == i);
            }
            if side != sh {
                let near = if side { w.3 } else { w.2 };
                let toward = if sh { w.3 } else { w.2 };
                let qs = p.for_each_prepend(near);
                proof {
                    lemma_prepends_nf(p, near, C as int);
                }
                let mut nn: usize = 0;
                while nn < C
                    invariant
                        pp.wf(),
                        1 <= C <= 64,
                        S >= 1,
                        wp.sized(S as int, C as int),
                        want@ == seq![true, true, true, true],
                        sp.sized(),
                        v == wp.side_parity@,
                        f == (side, w, p),
                        side != sh,
                        quad_in(w, S as int, C as int),
                        (pr as int) < C,
                        (ns as int) < S,
                        Self::in_range(w.0 as int, w.1 as int),
                        self.instr_at(w.0 as int, w.1 as int) == Some(i),
                        i == (pr, sh, ns),
                        near == if side { w.3 } else { w.2 },
                        toward == if sh { w.3 } else { w.2 },
                        qs@ == prepends(p, near),
                        forall|k: int| 0 <= k < qs@.len() ==> prefix_nf(#[trigger] qs@[k], C as int),
                        nn <= C,
                        forall|g: PFact| #[trigger] self.pfx_next(v, *sp, f, g) && (if sh { g.1.3 } else { g.1.2 }) < nn
                            ==> pp.holds(g),
                        forall|h: PFact| #[trigger] pp.holds(h) ==> pp0.holds(h) || self.pfx_next(v, *sp, f, h),
                        extends(pp0, *pp, s0, stack@),
                    decreases C - nn,
                {
                    let nc = nn as Color;
                    let t = if sh { (ns, w.3, pr, nc) } else { (ns, w.2, nc, pr) };
                    assert(t == pfx_target(w, i, nc));
                    if sp.has_pair(w, sh, toward, nc) && self.window_allowed(wp, want, t) {
                        let ghost pp1 = *pp;
                        let ghost s1 = stack@;
                        self.pfx_add_all(pp, stack, side, t, &qs);
                        proof {
                            lemma_extends_trans(pp0, pp1, *pp, s0, s1, stack@);
                            assert forall|h: PFact| #[trigger] pp.holds(h) implies pp0.holds(h) || self.pfx_next(v, *sp, f, h) by {
                                if !pp1.holds(h) {
                                    assert(h.0 == side && h.1 == t && qs@.contains(h.2));
                                    assert(if sh { h.1.3 } else { h.1.2 } == nc);
                                }
                            }
                            assert forall|g: PFact| #[trigger] self.pfx_next(v, *sp, f, g) && (if sh { g.1.3 } else { g.1.2 })
                                < nn + 1 implies pp.holds(g) by {
                                if (if sh { g.1.3 } else { g.1.2 }) < nn {
                                    assert(pp1.holds(g));
                                } else {
                                    assert(g.1 == t);
                                    let k = choose|k: int| 0 <= k < qs@.len() && qs@[k] == g.2;
                                    assert(pp.holds((side, t, qs@[k])));
                                }
                            }
                        }
                    } else {
                        proof {
                            assert forall|g: PFact| #[trigger] self.pfx_next(v, *sp, f, g) && (if sh { g.1.3 } else { g.1.2 })
                                < nn + 1 implies pp.holds(g) by {
                                if (if sh { g.1.3 } else { g.1.2 }) == nn {
                                    assert(g.1 == t);
                                }
                            }
                        }
                    }
                    nn += 1;
                }
                proof {
                    assert forall|g: PFact| #[trigger] self.pfx_next(v, *sp, f, g) implies pp.holds(g) by {
                        assert((if sh { g.1.3 } else { g.1.2 }) < C);
                    }
                }
            } else {
                let ps = p.for_each_pull::<C>();
                proof {
                    lemma_pulls_nf(p, C as nat);
                }
                let mut k: usize = 0;
                while k < ps.len()
                    invariant
                        pp.wf(),
                        1 <= C <= 64,
                        S >= 1,
                        wp.sized(S as int, C as int),
                        want@ == seq![true, true, true, true],
                        v == wp.side_parity@,
                        f == (side, w, p),
                        side == sh,
                        quad_in(w, S as int, C as int),
                        (pr as int) < C,
                        (ns as int) < S,
                        Self::in_range(w.0 as int, w.1 as int),
                        self.instr_at(w.0 as int, w.1 as int) == Some(i),
                        i == (pr, sh, ns),
                        ps@ == pulls(p, C as nat),
                        forall|j: int| #![trigger ps@[j]] 0 <= j < ps@.len() ==> prefix_nf(ps@[j].1, C as int) && ps@[j].0 < C,
                        k <= ps@.len(),
                        forall|j: int| #![trigger ps@[j]] 0 <= j < k && window_ok(v, pfx_target(w, i, ps@[j].0), C as int)
                            ==> pp.holds((side, pfx_target(w, i, ps@[j].0), ps@[j].1)),
                        forall|h: PFact| #[trigger] pp.holds(h) ==> pp0.holds(h) || self.pfx_next(v, *sp, f, h),
                        extends(pp0, *pp, s0, stack@),
                    decreases ps@.len() - k,
                {
                    let (nc, q) = ps[k];
                    let t = if sh { (ns, w.3, pr, nc) } else { (ns, w.2, nc, pr) };
                    assert(t == pfx_target(w, i, nc));
                    let ghost pp1 = *pp;
                    let ghost s1 = stack@;
                    if self.window_allowed(wp, want, t) {
                        pp.add_push(stack, (side, t, q));
                        proof {
                            lemma_extends_trans(pp0, pp1, *pp, s0, s1, stack@);
                            assert(ps@.contains((nc, q))) by {
                                assert(ps@[k as int] == (nc, q));
                            }
                            assert forall|h: PFact| #[trigger] pp.holds(h) implies pp0.holds(h) || self.pfx_next(v, *sp, f, h) by {
                                if !pp1.holds(h) {
                                    assert(h == (side, t, q));
                                    assert(self.pfx_next(v, *sp, f, h));
                                }
                            }
                            assert forall|j: int| #![trigger ps@[j]] 0 <= j < k + 1 && window_ok(v, pfx_target(w, i, ps@[j].0), C as int)
                                implies pp.holds((side, pfx_target(w, i, ps@[j].0), ps@[j].1)) by {
                                if j < k {
                                    assert(pp1.holds((side, pfx_target(w, i, ps@[j].0), ps@[j].1)));
                                }
                            }
                        }
                    }
                    k += 1;
                }
                proof {
                    assert forall|g: PFact| #[trigger] self.pfx_next(v, *sp, f, g) implies pp.holds(g) by {
                        let nc = if sh { g.1.3 } else { g.1.2 };
                        assert(ps@.contains((nc, g.2)));
                        let j = choose|j: int| 0 <= j < ps@.len() && ps@[j] == (nc, g.2);
                        assert(window_ok(v, pfx_target(w, i, ps@[j].0), C as int));
                    }
                }
            }
        } else {
            proof {
                assert forall|g: PFact| #[trigger] self.pfx_next(v, *sp, f, g) implies pp.holds(g) by {}
            }
        }
    }
}

impl<const S: usize, const C: usize> Prog<S, C> {
    /// Whether a set holds every fact that the step from `f` gives.
    pub open spec fn pfx_done(&self, v: Seq<bool>, sp: SidePossible<S, C>, set: spec_fn(PFact) -> bool, f: PFact) -> bool {
        forall|g: PFact| #[trigger] self.pfx_next(v, sp, f, g) ==> set(g)
    }

    /// The prefixes of each side of the windows that occur on runs from
    /// the blank tape: the least facts that hold the blank start and are
    /// closed under steps, found by a worklist.
    pub fn side_prefix_possible_from_blank(&self, wp: &WinPossible, sp: &SidePossible<S, C>) -> (r: SidePrefixPossible<S, C>)
        requires
            S >= 1,
            1 <= C <= 64,
            Self::prefixes_fit(),
            wp.sized(S as int, C as int),
            sp.sized(),
            prints_below(self.instr_list(), C as int),
            targets_below(self.instr_list(), S as int),
        ensures
            r.wf(),
            forall|f: PFact| #[trigger] r.holds(f) == self.pfx_reach(wp.side_parity@, *sp, f),
    {
        let ghost v = wp.side_parity@;
        let want = want_all(4);
        assert(want@ =~= seq![true, true, true, true]);
        let mut pp = SidePrefixPossible::<S, C>::new();
        let mut stack: Vec<PFact> = Vec::new();
        let init: Quad = (0, 0, 0, 0);
        let blank = SidePrefix::blank();
        proof {
            assert(prefix_nf(blank, C as int));
        }
        if self.window_allowed(wp, &want, init) {
            let ghost a = pp;
            pp.add_push(&mut stack, (false, init, blank));
            let ghost b = pp;
            let ghost s1 = stack@;
            pp.add_push(&mut stack, (true, init, blank));
            proof {
                lemma_extends_trans(a, b, pp, Seq::<PFact>::empty(), s1, stack@);
            }
        }
        proof {
            assert forall|f: PFact| #[trigger] pp.holds(f) implies self.pfx_reach(v, *sp, f) by {
                assert forall|set: spec_fn(PFact) -> bool| #[trigger] self.pfx_closed(v, *sp, set) implies set(f) by {}
            }
            assert forall|i: int| 0 <= i < stack@.len() implies pp.holds(#[trigger] stack@[i]) by {}
            assert forall|f: PFact| #[trigger] pp.holds(f) && !stack@.contains(f) implies self.pfx_done(v, *sp, pp.facts(), f) by {
                if f == (false, init, blank) {
                    assert(stack@[0] == f || stack@[1] == f);
                } else {
                    assert(stack@[0] == f || stack@[1] == f);
                }
            }
        }
        while stack.len() > 0
            invariant
                pp.wf(),
                S >= 1,
                1 <= C <= 64,
                wp.sized(S as int, C as int),
                want@ == seq![true, true, true, true],
                sp.sized(),
                prints_below(self.instr_list(), C as int),
                targets_below(self.instr_list(), S as int),
                v == wp.side_parity@,
                init == side_init(),
                blank == SidePrefix::spec_blank(),
                window_ok(v, init, C as int) ==> pp.holds((false, init, blank)) && pp.holds((true, init, blank)),
                forall|f: PFact| #[trigger] pp.holds(f) ==> self.pfx_reach(v, *sp, f),
                forall|i: int| 0 <= i < stack@.len() ==> pp.holds(#[trigger] stack@[i]),
                forall|f: PFact| #[trigger] pp.holds(f) && !stack@.contains(f) ==> self.pfx_done(v, *sp, pp.facts(), f),
            decreases pp.absent(), stack@.len(),
        {
            let ghost stack0 = stack@;
            let ghost pp0 = pp;
            let f = stack.pop().unwrap();
            let ghost popped = stack@;
            proof {
                assert(stack0 =~= popped.push(f));
                assert(stack0[popped.len() as int] == f);
            }
            self.pfx_step(wp, &want, sp, &mut pp, &mut stack, f);
            proof {
                assert forall|h: PFact| #[trigger] pp.holds(h) implies self.pfx_reach(v, *sp, h) by {
                    if !pp0.holds(h) {
                        assert(self.pfx_next(v, *sp, f, h));
                        assert(self.pfx_reach(v, *sp, f));
                        assert forall|set: spec_fn(PFact) -> bool| #[trigger] self.pfx_closed(v, *sp, set) implies set(h) by {
                            assert(set(f));
                        }
                    }
                }
                assert forall|i: int| 0 <= i < stack@.len() implies pp.holds(#[trigger] stack@[i]) by {
                    if i < popped.len() {
                        assert(stack@.subrange(0, popped.len() as int)[i] == popped[i]);
                        assert(popped[i] == stack0[i]);
                        assert(pp0.holds(stack0[i]));
                    }
                }
                assert forall|h: PFact| #[trigger] pp.holds(h) && !stack@.contains(h) implies self.pfx_done(v, *sp, pp.facts(), h) by {
                    if h == f {
                        assert forall|g: PFact| #[trigger] self.pfx_next(v, *sp, h, g) implies pp.facts()(g) by {}
                    } else {
                        if !pp0.holds(h) {
                            assert(stack@.contains(h));
                        }
                        assert(!stack0.contains(h)) by {
                            if stack0.contains(h) {
                                let j = choose|j: int| 0 <= j < stack0.len() && stack0[j] == h;
                                assert(j < popped.len());
                                assert(stack@.subrange(0, popped.len() as int)[j] == popped[j]);
                                assert(stack@[j] == h);
                            }
                        }
                        assert(self.pfx_done(v, *sp, pp0.facts(), h));
                        assert forall|g: PFact| #[trigger] self.pfx_next(v, *sp, h, g) implies pp.facts()(g) by {
                            assert(pp0.facts()(g));
                        }
                    }
                }
            }
        }
        proof {
            assert(self.pfx_closed(v, *sp, pp.facts())) by {
                assert forall|f: PFact, g: PFact| #[trigger] self.pfx_next(v, *sp, f, g) && pp.facts()(f) implies pp.facts()(g) by {
                    assert(self.pfx_done(v, *sp, pp.facts(), f));
                }
            }
        }
        pp
    }
}

/// The runs of a side beyond the head, near to far, without a blank
/// farthest run before blank cells.
pub open spec fn near_runs(bs: Seq<Block>, end: TapeEnd) -> Seq<(Color, BlockCount)> {
    let n = bs.len() as int;
    let m = if end == TapeEnd::Blanks && n > 0 && bs[0].color == 0 { n - 1 } else { n };
    Seq::new(m as nat, |k: int| (bs[n - 1 - k].color, bs[n - 1 - k].count))
}

/// The runs beyond the neighbor, near to far: those of `near_runs` with
/// the nearest one left with the count `first` once the neighbor's cell is
/// taken out of it, or dropped for `None`.
pub open spec fn residual(bs: Seq<Block>, end: TapeEnd, first: Option<BlockCount>) -> Seq<(Color, BlockCount)> {
    let near = near_runs(bs, end);
    if near.len() == 0 {
        near
    } else {
        match first {
            None => near.drop_first(),
            Some(c) => near.update(0, (near[0].0, c)),
        }
    }
}

/// The ways the cells beyond a side's neighbor can look, as the side's
/// description says: a run of one cell leaves the rest, a longer run one
/// cell fewer, and a run of one or more cells either.
pub open spec fn side_residuals(bs: Seq<Block>, end: TapeEnd) -> Seq<Seq<(Color, BlockCount)>> {
    if bs.len() == 0 {
        seq![residual(bs, end, None)]
    } else {
        match bs.last().count {
            BlockCount::Exact(n) => if n <= 1 {
                seq![residual(bs, end, None)]
            } else {
                seq![residual(bs, end, Some(BlockCount::Exact((n - 1) as u8)))]
            },
            BlockCount::AtLeast(n) => if n <= 1 {
                seq![residual(bs, end, None), residual(bs, end, Some(BlockCount::AtLeast(1)))]
            } else {
                seq![residual(bs, end, Some(BlockCount::AtLeast((n - 1) as u8)))]
            },
        }
    }
}

/// The color and the fewest and (where bounded) most cells of the run at
/// position `k`; the farthest run of a side that ends unknown may go on
/// into the unknown cells.
pub open spec fn req_run(res: Seq<(Color, BlockCount)>, k: int, end_unknown: bool) -> (Color, u8, Option<u8>) {
    let (c, n) = res[k];
    (
        c,
        n.min_spec(),
        match n {
            BlockCount::Exact(x) => if end_unknown && k == res.len() - 1 { None } else { Some(x) },
            BlockCount::AtLeast(_) => None,
        },
    )
}

/// Whether some nonblank run stands at position `i` or farther.
pub open spec fn suffix_nonblank(res: Seq<(Color, BlockCount)>, i: int) -> bool {
    exists|j: int| i <= j < res.len() && #[trigger] res[j].0 != 0
}

/// The fewest and (where bounded) most cells of a kept run.
pub open spec fn count_bounds(count: u8) -> (u8, Option<u8>) {
    if count == SIDE_PREFIX_MANY {
        (SIDE_PREFIX_MANY, None)
    } else {
        (count, Some(count))
    }
}

/// The fewest and (where bounded) most cells of a spilled run.
pub open spec fn spill_bounds(count: u8) -> (u8, Option<u8>) {
    if count == 1 {
        (1, Some(1))
    } else {
        (SIDE_PREFIX_SPILL_MANY, None)
    }
}

/// Whether two ranges of counts meet.
pub open spec fn overlap(amin: u8, amax: Option<u8>, bmin: u8, bmax: Option<u8>) -> bool {
    &&& !(amax matches Some(x) && x < bmin)
    &&& !(bmax matches Some(y) && y < amin)
}

/// Whether a run of `color` with the counts `b` fits the run at position
/// `k`.
pub open spec fn run_fits(color: Color, b: (u8, Option<u8>), res: Seq<(Color, BlockCount)>, k: int, end_unknown: bool) -> bool {
    let (c, mn, mx) = req_run(res, k, end_unknown);
    color == c && overlap(b.0, b.1, mn, mx)
}

/// Whether a prefix fits the runs beyond a neighbor: its kept runs fit the
/// runs at their positions (as far as three are compared), its spilled run
/// the next one, and what it says of the cells after them agrees with
/// whether a nonblank run follows (an unknown end agrees with anything
/// beyond the runs named).
pub open spec fn prefix_matches(p: SidePrefix, res: Seq<(Color, BlockCount)>, end_unknown: bool) -> bool {
    let pl = p.len as int;
    let rl = if res.len() < 3 { res.len() as int } else { 3 };
    &&& forall|k: int| 0 <= k < pl && k < rl ==> run_fits(p.runs[k].color, count_bounds(p.runs[k].count), res, k, end_unknown)
    &&& if pl > rl {
        end_unknown
    } else {
        match p.spill {
            SidePrefixSpill::Blank => !suffix_nonblank(res, pl),
            SidePrefixSpill::DirtyUnknown => end_unknown || suffix_nonblank(res, pl),
            SidePrefixSpill::Run { color, count, farther_dirty } => if rl <= pl {
                end_unknown
            } else {
                &&& run_fits(color, spill_bounds(count), res, pl, end_unknown)
                &&& if farther_dirty {
                    end_unknown || suffix_nonblank(res, pl + 1)
                } else {
                    !suffix_nonblank(res, pl + 1)
                }
            },
        }
    }
}

/// Whether some way that a side's description allows names no run beyond
/// the neighbor, before unknown cells.
pub open spec fn says_nothing(bs: Seq<Block>, end: TapeEnd) -> bool {
    exists|k: int| 0 <= k < side_residuals(bs, end).len() && (#[trigger] side_residuals(bs, end)[k]).len() == 0 && end
        == TapeEnd::Unknown
}

impl<const S: usize, const C: usize> SidePrefixPossible<S, C> {
    /// Whether some prefix was found on a side of a window.
    pub open spec fn side_found(&self, side: bool, w: Quad) -> bool {
        exists|p: SidePrefix| #[trigger] self.holds((side, w, p))
    }

    /// Whether some prefix found on a side of a window fits some way that
    /// the description `bs`, `end` of that side allows.
    pub open spec fn side_matched(&self, side: bool, w: Quad, bs: Seq<Block>, end: TapeEnd) -> bool {
        exists|p: SidePrefix, k: int|
            0 <= k < side_residuals(bs, end).len() && #[trigger] self.holds((side, w, p)) && prefix_matches(
                p,
                #[trigger] side_residuals(bs, end)[k],
                end == TapeEnd::Unknown,
            )
    }

    /// Whether a side of window `w` fits the description `bs`, `end` of
    /// that side: some prefix was found there, and the description says
    /// nothing beyond the neighbor, or the side holds both the blank and
    /// the unknown nonblank prefix, or some prefix found fits some way the
    /// description allows.
    pub open spec fn side_fits(&self, side: bool, w: Quad, bs: Seq<Block>, end: TapeEnd) -> bool {
        &&& self.side_found(side, w)
        &&& {
            ||| says_nothing(bs, end)
            ||| self.holds((side, w, SidePrefix::spec_blank())) && self.holds((side, w, SidePrefix::spec_dirty_unknown()))
            ||| self.side_matched(side, w, bs, end)
        }
    }

    /// Whether the tape fits the prefixes found in the window with
    /// neighbors `l` and `r`: those are its known neighbors, and both
    /// sides fit.
    pub open spec fn prefix_admits(&self, state: State, tape: Tape, l: Color, r: Color) -> bool {
        let w = (state, tape.scan, l, r);
        &&& neighbor_color(tape.lspan.bs(), tape.lspan.end) matches Some(x) ==> x == l
        &&& neighbor_color(tape.rspan.bs(), tape.rspan.end) matches Some(x) ==> x == r
        &&& self.side_fits(false, w, tape.lspan.bs(), tape.lspan.end)
        &&& self.side_fits(true, w, tape.rspan.bs(), tape.rspan.end)
    }

    /// Whether some window with the tape's state, scanned color and known
    /// neighbors admits the tape.
    pub open spec fn prefix_ok(&self, state: State, tape: Tape) -> bool {
        exists|l: Color, r: Color| #[trigger] self.prefix_admits(state, tape, l, r)
    }
}

/// The runs of `near_runs`.
fn near_runs_of(span: &Span) -> (r: Vec<(Color, BlockCount)>)
    ensures
        r@ == near_runs(span.bs(), span.end),
{
    let bs = &span.span.blocks;
    let n = bs.len();
    let m = if span.end == TapeEnd::Blanks && n > 0 && bs[0].color == 0 { n - 1 } else { n };
    let mut out: Vec<(Color, BlockCount)> = Vec::new();
    let mut k: usize = 0;
    while k < m
        invariant
            bs@ == span.bs(),
            n == bs@.len(),
            m <= n,
            m as int == (if span.end == TapeEnd::Blanks && n > 0 && bs@[0].color == 0 { n - 1 } else { n as int }),
            k <= m,
            out@ =~= near_runs(span.bs(), span.end).subrange(0, k as int),
        decreases m - k,
    {
        let b = bs[n - 1 - k];
        out.push((b.color, b.count));
        k += 1;
    }
    assert(out@ =~= near_runs(span.bs(), span.end));
    out
}

/// The runs of `residual`.
fn residual_of(span: &Span, first: Option<BlockCount>) -> (r: Vec<(Color, BlockCount)>)
    ensures
        r@ == residual(span.bs(), span.end, first),
{
    let mut near = near_runs_of(span);
    if near.len() == 0 {
        return near;
    }
    match first {
        None => {
            near.remove(0);
            assert(near@ =~= near_runs(span.bs(), span.end).drop_first());
        },
        Some(c) => {
            let color = near[0].0;
            near.set(0, (color, c));
        },
    }
    near
}

/// The ways of `side_residuals`.
fn side_residuals_of(span: &Span) -> (r: Vec<Vec<(Color, BlockCount)>>)
    ensures
        r@.len() == side_residuals(span.bs(), span.end).len(),
        forall|k: int| 0 <= k < r@.len() ==> (#[trigger] r@[k])@ == side_residuals(span.bs(), span.end)[k],
{
    let mut out: Vec<Vec<(Color, BlockCount)>> = Vec::new();
    let n = span.span.blocks.len();
    if n == 0 {
        out.push(residual_of(span, None));
    } else {
        match span.span.blocks[n - 1].count {
            BlockCount::Exact(x) => {
                if x <= 1 {
                    out.push(residual_of(span, None));
                } else {
                    out.push(residual_of(span, Some(BlockCount::Exact(x - 1))));
                }
            },
            BlockCount::AtLeast(x) => {
                if x <= 1 {
                    out.push(residual_of(span, None));
                    out.push(residual_of(span, Some(BlockCount::AtLeast(1))));
                } else {
                    out.push(residual_of(span, Some(BlockCount::AtLeast(x - 1))));
                }
            },
        }
    }
    out
}

/// The run of `req_run`.
fn req_run_of(res: &Vec<(Color, BlockCount)>, k: usize, end_unknown: bool) -> (r: (Color, u8, Option<u8>))
    requires
        k < res@.len(),
    ensures
        r == req_run(res@, k as int, end_unknown),
{
    let (c, n) = res[k];
    let max = match n {
        BlockCount::Exact(x) => if end_unknown && k == res.len() - 1 { None } else { Some(x) },
        BlockCount::AtLeast(_) => None,
    };
    (c, n.minimum(), max)
}

/// Whether some nonblank run stands at position `i` or farther.
fn suffix_nonblank_of(res: &Vec<(Color, BlockCount)>, i: usize) -> (r: bool)
    ensures
        r == suffix_nonblank(res@, i as int),
{
    let mut j = i;
    while j < res.len()
        invariant
            i <= j,
            forall|x: int| i <= x < j && x < res@.len() ==> res@[x].0 == 0,
        decreases res@.len() - j,
    {
        if res[j].0 != 0 {
            assert(res@[j as int].0 != 0);
            return true;
        }
        j += 1;
    }
    false
}

/// Whether two ranges of counts meet.
fn overlap_of(amin: u8, amax: Option<u8>, bmin: u8, bmax: Option<u8>) -> (r: bool)
    ensures
        r == overlap(amin, amax, bmin, bmax),
{
    let a_before_b = match amax {
        Some(x) => x < bmin,
        None => false,
    };
    let b_before_a = match bmax {
        Some(y) => y < amin,
        None => false,
    };
    !a_before_b && !b_before_a
}

/// Whether a run fits the run at position `k`.
fn run_fits_of(color: Color, b: (u8, Option<u8>), res: &Vec<(Color, BlockCount)>, k: usize, end_unknown: bool) -> (r: bool)
    requires
        k < res@.len(),
    ensures
        r == run_fits(color, b, res@, k as int, end_unknown),
{
    let (c, mn, mx) = req_run_of(res, k, end_unknown);
    color == c && overlap_of(b.0, b.1, mn, mx)
}

fn count_bounds_of(count: u8) -> (r: (u8, Option<u8>))
    ensures
        r == count_bounds(count),
{
    if count == SIDE_PREFIX_MANY {
        (SIDE_PREFIX_MANY, None)
    } else {
        (count, Some(count))
    }
}

fn spill_bounds_of(count: u8) -> (r: (u8, Option<u8>))
    ensures
        r == spill_bounds(count),
{
    if count == 1 {
        (1, Some(1))
    } else {
        (SIDE_PREFIX_SPILL_MANY, None)
    }
}

/// Whether a prefix fits the runs beyond a neighbor.
fn prefix_matches_of(p: &SidePrefix, res: &Vec<(Color, BlockCount)>, end_unknown: bool) -> (r: bool)
    requires
        p.len <= 2,
    ensures
        r == prefix_matches(*p, res@, end_unknown),
{
    let pl = p.len as usize;
    let rl = if res.len() < 3 { res.len() } else { 3 };
    let mut k: usize = 0;
    while k < pl && k < rl
        invariant
            pl == p.len,
            pl <= 2,
            rl == (if res@.len() < 3 { res@.len() as int } else { 3 }),
            k <= pl,
            forall|j: int| 0 <= j < k && j < rl ==> run_fits(p.runs[j].color, count_bounds(p.runs[j].count), res@, j, end_unknown),
        decreases pl - k,
    {
        if !run_fits_of(p.runs[k].color, count_bounds_of(p.runs[k].count), res, k, end_unknown) {
            return false;
        }
        k += 1;
    }
    if pl > rl {
        return end_unknown;
    }
    match p.spill {
        SidePrefixSpill::Blank => !suffix_nonblank_of(res, pl),
        SidePrefixSpill::DirtyUnknown => end_unknown || suffix_nonblank_of(res, pl),
        SidePrefixSpill::Run { color, count, farther_dirty } => {
            if rl <= pl {
                end_unknown
            } else if !run_fits_of(color, spill_bounds_of(count), res, pl, end_unknown) {
                false
            } else if farther_dirty {
                end_unknown || suffix_nonblank_of(res, pl + 1)
            } else {
                !suffix_nonblank_of(res, pl + 1)
            }
        },
    }
}

impl<const S: usize, const C: usize> SidePrefixPossible<S, C> {
    /// The prefixes listed for a side of a window are the ones held there.
    proof fn lemma_listed(&self, side: bool, w: Quad)
        requires
            self.wf(),
            quad_in(w, S as int, C as int),
        ensures
            0 <= side_slot(side, w, C as int) < self.windows@.len(),
            forall|p: SidePrefix| #[trigger] self.holds((side, w, p)) <==> self.windows@[side_slot(side, w, C as int)]@.contains(p),
            forall|k: int| 0 <= k < self.windows@[side_slot(side, w, C as int)]@.len() ==> prefix_nf(
                #[trigger] self.windows@[side_slot(side, w, C as int)]@[k],
                C as int,
            ),
    {
        let i = side_slot(side, w, C as int);
        lemma_pos((side, w, SidePrefix::spec_blank()), (side, w, SidePrefix::spec_blank()), S as int, C as int);
        assert forall|p: SidePrefix| #[trigger] self.holds((side, w, p)) <==> self.windows@[i]@.contains(p) by {
            if self.windows@[i]@.contains(p) {
                let k = choose|k: int| 0 <= k < self.windows@[i]@.len() && self.windows@[i]@[k] == p;
                assert(prefix_nf(self.windows@[i]@[k], C as int));
            }
        }
    }

    /// Whether a side of a window fits the ways `reqs` of its description.
    fn side_fits_of(&self, side: bool, w: Quad, reqs: &Vec<Vec<(Color, BlockCount)>>, end_unknown: bool, Ghost(bs): Ghost<Seq<Block>>, Ghost(end): Ghost<TapeEnd>) -> (r: bool)
        requires
            self.wf(),
            quad_in(w, S as int, C as int),
            reqs@.len() == side_residuals(bs, end).len(),
            forall|k: int| 0 <= k < reqs@.len() ==> (#[trigger] reqs@[k])@ == side_residuals(bs, end)[k],
            end_unknown == (end == TapeEnd::Unknown),
        ensures
            r == self.side_fits(side, w, bs, end),
    {
        let ghost rs = side_residuals(bs, end);
        proof {
            self.lemma_listed(side, w);
            lemma_sizes(S as int, C as int);
            lemma_qid(w, w, S as int, C as int);
        }
        let slot = qid_of::<S, C>(w) * 2 + if side { 1 } else { 0 };
        let list = &self.windows[slot];
        if list.len() == 0 {
            proof {
                assert forall|p: SidePrefix| !#[trigger] self.holds((side, w, p)) by {}
            }
            return false;
        }
        let ghost p0 = list@[0];
        proof {
            assert(list@.contains(p0));
            assert(self.holds((side, w, p0)));
        }
        let mut k: usize = 0;
        while k < reqs.len()
            invariant
                self.holds((side, w, p0)),
                end_unknown == (end == TapeEnd::Unknown),
                rs == side_residuals(bs, end),
                k <= reqs@.len(),
                reqs@.len() == rs.len(),
                forall|j: int| 0 <= j < reqs@.len() ==> (#[trigger] reqs@[j])@ == rs[j],
                forall|j: int| 0 <= j < k ==> !((#[trigger] rs[j]).len() == 0 && end_unknown),
            decreases reqs@.len() - k,
        {
            if reqs[k].len() == 0 && end_unknown {
                proof {
                    assert(rs[k as int].len() == 0);
                    assert(self.side_found(side, w));
                    assert(says_nothing(bs, end));
                }
                return true;
            }
            k += 1;
        }
        let blank = SidePrefix::blank();
        let dirty = SidePrefix::dirty_unknown();
        if self.has((side, w, blank)) && self.has((side, w, dirty)) {
            return true;
        }
        let mut i: usize = 0;
        while i < list.len()
            invariant
                self.wf(),
                quad_in(w, S as int, C as int),
                i <= list@.len(),
                end_unknown == (end == TapeEnd::Unknown),
                rs == side_residuals(bs, end),
                0 <= side_slot(side, w, C as int) < self.windows@.len(),
                list@ == self.windows@[side_slot(side, w, C as int)]@,
                forall|p: SidePrefix| #[trigger] self.holds((side, w, p)) <==> list@.contains(p),
                forall|x: int| 0 <= x < list@.len() ==> prefix_nf(#[trigger] list@[x], C as int),
                reqs@.len() == rs.len(),
                forall|j: int| 0 <= j < reqs@.len() ==> (#[trigger] reqs@[j])@ == rs[j],
                forall|x: int, j: int| 0 <= x < i && 0 <= j < rs.len() ==> !prefix_matches(#[trigger] list@[x], #[trigger] rs[j], end_unknown),
            decreases list@.len() - i,
        {
            let p = list[i];
            proof {
                assert(list@.contains(p));
            }
            let mut j: usize = 0;
            while j < reqs.len()
                invariant
                    self.holds((side, w, p)),
                    end_unknown == (end == TapeEnd::Unknown),
                    rs == side_residuals(bs, end),
                    i < list@.len(),
                    p == list@[i as int],
                    prefix_nf(p, C as int),
                    j <= reqs@.len(),
                    reqs@.len() == rs.len(),
                    forall|y: int| 0 <= y < reqs@.len() ==> (#[trigger] reqs@[y])@ == rs[y],
                    forall|y: int| 0 <= y < j ==> !prefix_matches(p, #[trigger] rs[y], end_unknown),
                decreases reqs@.len() - j,
            {
                if prefix_matches_of(&p, &reqs[j], end_unknown) {
                    proof {
                        assert(self.holds((side, w, p)));
                        assert(prefix_matches(p, rs[j as int], end_unknown));
                        assert(self.side_found(side, w));
                        assert(self.side_matched(side, w, bs, end));
                    }
                    return true;
                }
                j += 1;
            }
            i += 1;
        }
        proof {
            assert forall|p: SidePrefix, y: int| 0 <= y < rs.len() && #[trigger] self.holds((side, w, p)) implies !prefix_matches(
                p,
                #[trigger] rs[y],
                end_unknown,
            ) by {
                let x = choose|x: int| 0 <= x < list@.len() && list@[x] == p;
                assert(!prefix_matches(list@[x], rs[y], end_unknown));
            }
        }
        false
    }
}

impl Tape {
    /// Whether some exact window with the tape's state, scanned color and
    /// known neighbors has, on both sides, a prefix found there that fits
    /// the tape's description of the cells beyond the neighbor.
    pub fn obeys_side_prefix_possible<const S: usize, const C: usize>(&self, state: State, pp: &SidePrefixPossible<S, C>) -> (r: bool)
        requires
            pp.wf(),
        ensures
            r == pp.prefix_ok(state, *self),
    {
        proof {
            pp.lemma_wf_sizes();
        }
        if state as usize >= S || self.scan as usize >= C {
            proof {
                assert forall|l: Color, rr: Color| !#[trigger] pp.prefix_admits(state, *self, l, rr) by {
                    if pp.prefix_admits(state, *self, l, rr) {
                        let p = choose|p: SidePrefix| #[trigger] pp.holds((false, (state, self.scan, l, rr), p));
                        pp.lemma_holds_in((false, (state, self.scan, l, rr), p));
                    }
                }
            }
            return false;
        }
        let left_reqs = side_residuals_of(&self.lspan);
        let right_reqs = side_residuals_of(&self.rspan);
        let left_unknown = self.lspan.end == TapeEnd::Unknown;
        let right_unknown = self.rspan.end == TapeEnd::Unknown;
        let known_left = self.left_neighbor_color();
        let known_right = self.right_neighbor_color();
        let mut l: usize = 0;
        while l < C
            invariant
                pp.wf(),
                1 <= C <= 64,
                (state as int) < S,
                (self.scan as int) < C,
                l <= C,
                left_reqs@.len() == side_residuals(self.lspan.bs(), self.lspan.end).len(),
                forall|k: int| 0 <= k < left_reqs@.len() ==> (#[trigger] left_reqs@[k])@ == side_residuals(self.lspan.bs(), self.lspan.end)[k],
                right_reqs@.len() == side_residuals(self.rspan.bs(), self.rspan.end).len(),
                forall|k: int| 0 <= k < right_reqs@.len() ==> (#[trigger] right_reqs@[k])@ == side_residuals(self.rspan.bs(), self.rspan.end)[k],
                left_unknown == (self.lspan.end == TapeEnd::Unknown),
                right_unknown == (self.rspan.end == TapeEnd::Unknown),
                known_left == neighbor_color(self.lspan.bs(), self.lspan.end),
                known_right == neighbor_color(self.rspan.bs(), self.rspan.end),
                forall|x: Color, y: Color| (x as int) < l ==> !#[trigger] pp.prefix_admits(state, *self, x, y),
            decreases C - l,
        {
            let lc = l as Color;
            let mut rr: usize = 0;
            while rr < C
                invariant
                    pp.wf(),
                    1 <= C <= 64,
                    (state as int) < S,
                    (self.scan as int) < C,
                    l < C,
                    lc == l as Color,
                    rr <= C,
                    left_reqs@.len() == side_residuals(self.lspan.bs(), self.lspan.end).len(),
                    forall|k: int| 0 <= k < left_reqs@.len() ==> (#[trigger] left_reqs@[k])@ == side_residuals(self.lspan.bs(), self.lspan.end)[k],
                    right_reqs@.len() == side_residuals(self.rspan.bs(), self.rspan.end).len(),
                    forall|k: int| 0 <= k < right_reqs@.len() ==> (#[trigger] right_reqs@[k])@ == side_residuals(self.rspan.bs(), self.rspan.end)[k],
                    left_unknown == (self.lspan.end == TapeEnd::Unknown),
                    right_unknown == (self.rspan.end == TapeEnd::Unknown),
                    known_left == neighbor_color(self.lspan.bs(), self.lspan.end),
                    known_right == neighbor_color(self.rspan.bs(), self.rspan.end),
                    forall|y: Color| (y as int) < rr ==> !#[trigger] pp.prefix_admits(state, *self, lc, y),
                decreases C - rr,
            {
                let rc = rr as Color;
                let fits_left = match known_left {
                    Some(x) => x == lc,
                    None => true,
                };
                let fits_right = match known_right {
                    Some(x) => x == rc,
                    None => true,
                };
                let w = (state, self.scan, lc, rc);
                if fits_left && fits_right && pp.side_fits_of(false, w, &left_reqs, left_unknown, Ghost(self.lspan.bs()), Ghost(self.lspan.end))
                    && pp.side_fits_of(true, w, &right_reqs, right_unknown, Ghost(self.rspan.bs()), Ghost(self.rspan.end)) {
                    assert(pp.prefix_admits(state, *self, lc, rc));
                    return true;
                }
                rr += 1;
            }
            proof {
                assert forall|x: Color, y: Color| (x as int) < l + 1 implies !#[trigger] pp.prefix_admits(state, *self, x, y) by {
                    if x as int == l {
                        assert(x == lc);
                        if pp.prefix_admits(state, *self, x, y) {
                            let p = choose|p: SidePrefix| #[trigger] pp.holds((false, (state, self.scan, x, y), p));
                            pp.lemma_holds_in((false, (state, self.scan, x, y), p));
                        }
                    }
                }
            }
            l += 1;
        }
        proof {
            assert forall|x: Color, y: Color| !#[trigger] pp.prefix_admits(state, *self, x, y) by {
                if pp.prefix_admits(state, *self, x, y) {
                    let p = choose|p: SidePrefix| #[trigger] pp.holds((false, (state, self.scan, x, y), p));
                    pp.lemma_holds_in((false, (state, self.scan, x, y), p));
                }
            }
        }
        false
    }
}

/// Whether the tables of prefixes can be made for these sizes: at least
/// one state, one to 64 colors, and tables that fit in memory.
pub fn prefixes_fit_check<const S: usize, const C: usize>() -> (r: bool)
    ensures
        r == (S >= 1 && 1 <= C <= 64 && Prog::<S, C>::prefixes_fit()),
{
    if S == 0 || C == 0 || C > 64 {
        return false;
    }
    if !sides_fit_check::<S, C>() {
        return false;
    }
    let np = prefix_total_of::<C>();
    proof {
        lemma_sizes(S as int, C as int);
        lemma_totals(S as int, C as int);
    }
    let total = S * C * C * C * 2;
    match total.checked_mul(np) {
        Some(_) => true,
        None => false,
    }
}

impl<const S: usize, const C: usize> Prog<S, C> {
    /// What holds on runs is closed under steps.
    pub proof fn lemma_pfx_reach_step(&self, v: Seq<bool>, sp: SidePossible<S, C>, f: PFact, g: PFact)
        requires
            self.pfx_reach(v, sp, f),
            self.pfx_next(v, sp, f, g),
        ensures
            self.pfx_reach(v, sp, g),
    {
        assert forall|set: spec_fn(PFact) -> bool| #[trigger] self.pfx_closed(v, sp, set) implies set(g) by {
            assert(set(f));
        }
    }

    /// The blank start holds on runs, where the window tables allow it.
    pub proof fn lemma_pfx_reach_init(&self, v: Seq<bool>, sp: SidePossible<S, C>, side: bool)
        requires
            window_ok(v, side_init(), C as int),
        ensures
            self.pfx_reach(v, sp, (side, side_init(), SidePrefix::spec_blank())),
    {
        assert forall|set: spec_fn(PFact) -> bool| #[trigger] self.pfx_closed(v, sp, set) implies set(
            (side, side_init(), SidePrefix::spec_blank()),
        ) by {}
    }
}

} // verus!
