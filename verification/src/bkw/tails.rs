//! How often each color occurs in the cells beyond each neighbor of the
//! head, for the windows that occur on runs from the blank tape.
//!
//! For each exact window and each nonblank color, the counts (none, one,
//! or two or more) of that color beyond the left and beyond the right
//! neighbor; and for each pair of nonblank colors, which of the two occur
//! beyond which neighbor, kept together so that what one run shows of the
//! two colors is not mixed with what another shows. A step moving right
//! sets the old left neighbor before the left cells and takes the nearest
//! right cell in as the new right neighbor: a cell of the color taken in
//! may have been the only one, or one of several. Steps go only to windows
//! that the window tables allow, and the facts kept are the least that hold
//! the blank start and are closed under steps.
use vstd::prelude::*;

use crate::bkw::prefixes::pfx_target;
use crate::bkw::sides::{
    Quad, idx2, lemma_idx2, lemma_idx2_inj, lemma_or_bit, lemma_qid, lemma_sizes, mask_bit, qid, qid_of, quad_in, quad_total,
    side_init, sides_fit_check, window_ok,
};
use crate::bkw::tape::{Block, BlockCount, Span, Tape, TapeEnd, neighbor_color};
use crate::bkw::windows::{WinPossible, count_false, lemma_count_update, want_all};
use crate::bkw::{prints_below, targets_below};
use crate::instrs::{Color, State};
use crate::prog::Prog;

verus! {

/// `b` holds what `a` held, and the facts it adds are the ones pushed onto
/// the stack after `s0`, one for each fact that went missing no more.
pub open spec fn grows<F>(
    a: spec_fn(F) -> bool,
    b: spec_fn(F) -> bool,
    absent_a: nat,
    absent_b: nat,
    s0: Seq<F>,
    s1: Seq<F>,
) -> bool {
    &&& forall|g: F| #[trigger] a(g) ==> b(g)
    &&& forall|g: F| #[trigger] b(g) && !a(g) ==> s1.contains(g)
    &&& s1.len() >= s0.len()
    &&& s1.subrange(0, s0.len() as int) == s0
    &&& forall|i: int| s0.len() <= i < s1.len() ==> b(#[trigger] s1[i])
    &&& absent_b + (s1.len() - s0.len()) == absent_a
}

pub(crate) proof fn lemma_grows_refl<F>(a: spec_fn(F) -> bool, n: nat, s: Seq<F>)
    ensures
        grows(a, a, n, n, s, s),
{
    assert(s.subrange(0, s.len() as int) =~= s);
}

pub(crate) proof fn lemma_grows_trans<F>(
    a: spec_fn(F) -> bool,
    b: spec_fn(F) -> bool,
    c: spec_fn(F) -> bool,
    na: nat,
    nb: nat,
    nc: nat,
    s0: Seq<F>,
    s1: Seq<F>,
    s2: Seq<F>,
)
    requires
        grows(a, b, na, nb, s0, s1),
        grows(b, c, nb, nc, s1, s2),
    ensures
        grows(a, c, na, nc, s0, s2),
{
    assert forall|g: F| #[trigger] c(g) && !a(g) implies s2.contains(g) by {
        if b(g) {
            assert(s1.contains(g));
            let j = choose|j: int| 0 <= j < s1.len() && s1[j] == g;
            assert(s2.subrange(0, s1.len() as int)[j] == g);
        }
    }
    assert(s2.subrange(0, s0.len() as int) =~= s0) by {
        assert forall|j: int| 0 <= j < s0.len() implies s2.subrange(0, s0.len() as int)[j] == s0[j] by {
            assert(s2.subrange(0, s1.len() as int)[j] == s1[j]);
            assert(s1.subrange(0, s0.len() as int)[j] == s0[j]);
        }
    }
    assert forall|i: int| s0.len() <= i < s2.len() implies c(#[trigger] s2[i]) by {
        if i < s1.len() {
            assert(s2.subrange(0, s1.len() as int)[i] == s1[i]);
            assert(b(s1[i]));
        }
    }
}

pub(crate) fn falses(n: usize) -> (v: Vec<bool>)
    ensures
        v@.len() == n,
        forall|i: int| 0 <= i < n ==> !v@[i],
{
    let mut v: Vec<bool> = Vec::new();
    while v.len() < n
        invariant
            v@.len() <= n,
            forall|i: int| 0 <= i < v@.len() ==> !v@[i],
        decreases n - v@.len(),
    {
        v.push(false);
    }
    v
}

impl<const S: usize, const C: usize> Prog<S, C> {
    /// Whether the tables of counts and of pairs fit in memory, for the
    /// sizes of the program.
    pub open spec fn tails_fit() -> bool {
        &&& Self::sides_fit()
        &&& quad_total(S as int, C as int) * C * C * 16 <= usize::MAX
    }
}

proof fn lemma_tail_sizes(states: int, colors: int)
    requires
        states >= 1,
        colors >= 1,
    ensures
        quad_total(states, colors) >= 1,
        quad_total(states, colors) * colors * 9 <= quad_total(states, colors) * colors * colors * 16,
        quad_total(states, colors) * colors <= quad_total(states, colors) * colors * 9,
        quad_total(states, colors) * colors * colors <= quad_total(states, colors) * colors * colors * 16,
        quad_total(states, colors) * colors <= quad_total(states, colors) * colors * colors,
{
    lemma_sizes(states, colors);
    let total = quad_total(states, colors);
    assert(total >= 1) by (nonlinear_arith)
        requires
            states >= 1,
            colors >= 1,
            total == states * colors * colors * colors,
    ;
    assert(total * colors * 9 <= total * colors * colors * 16) by (nonlinear_arith)
        requires
            total >= 1,
            colors >= 1,
    ;
    assert(total * colors <= total * colors * 9) by (nonlinear_arith)
        requires
            total >= 1,
            colors >= 1,
    ;
    assert(total * colors * colors <= total * colors * colors * 16) by (nonlinear_arith)
        requires
            total >= 1,
            colors >= 1,
    ;
    assert(total * colors <= total * colors * colors) by (nonlinear_arith)
        requires
            total >= 1,
            colors >= 1,
    ;
}

/// Whether the tables of counts and of pairs can be made for these sizes.
pub fn tails_fit_check<const S: usize, const C: usize>() -> (r: bool)
    ensures
        r == (S >= 1 && 1 <= C <= 64 && Prog::<S, C>::tails_fit()),
{
    if S == 0 || C == 0 || C > 64 {
        return false;
    }
    if !sides_fit_check::<S, C>() {
        return false;
    }
    proof {
        lemma_sizes(S as int, C as int);
        lemma_tail_sizes(S as int, C as int);
    }
    let total = S * C * C * C;
    let a = match total.checked_mul(C) {
        Some(x) => x,
        None => return false,
    };
    let b = match a.checked_mul(C) {
        Some(x) => x,
        None => return false,
    };
    match b.checked_mul(16) {
        Some(_) => true,
        None => false,
    }
}

/// A fact of the counts: in the window, color `.1` occurs beyond the left
/// neighbor `.2 % 3` times and beyond the right neighbor `.2 / 3` times,
/// 2 standing for two or more.
pub type CFact = (Quad, Color, u8);

/// A count fact about a window in range, a nonblank color in range, and a
/// status below 9.
pub open spec fn cfact_in(f: CFact, states: int, colors: int) -> bool {
    &&& quad_in(f.0, states, colors)
    &&& 1 <= f.1 < colors
    &&& f.2 < 9
}

/// The position of a count fact in its table.
pub open spec fn cfact_pos(f: CFact, colors: int) -> int {
    idx2(idx2(qid(f.0, colors), f.1 as int, colors), f.2 as int, 9)
}

proof fn lemma_cpos(f: CFact, g: CFact, states: int, colors: int)
    requires
        cfact_in(f, states, colors),
        cfact_in(g, states, colors),
    ensures
        0 <= cfact_pos(f, colors) < quad_total(states, colors) * colors * 9,
        cfact_pos(f, colors) == cfact_pos(g, colors) ==> f == g,
{
    let total = quad_total(states, colors);
    lemma_qid(f.0, g.0, states, colors);
    lemma_idx2(qid(f.0, colors), f.1 as int, total, colors);
    lemma_idx2(idx2(qid(f.0, colors), f.1 as int, colors), f.2 as int, total * colors, 9);
    if cfact_pos(f, colors) == cfact_pos(g, colors) {
        lemma_qid(g.0, g.0, states, colors);
        lemma_idx2_inj(idx2(qid(f.0, colors), f.1 as int, colors), f.2 as int, idx2(qid(g.0, colors), g.1 as int, colors), g.2 as int, 9);
        lemma_idx2_inj(qid(f.0, colors), f.1 as int, qid(g.0, colors), g.1 as int, colors);
    }
}

/// For each window and nonblank color, the counts of that color beyond
/// the two neighbors that can occur: one entry per fact.
pub struct ColorTailCountPossible<const S: usize, const C: usize> {
    table: Vec<bool>,
}

impl<const S: usize, const C: usize> ColorTailCountPossible<S, C> {
    /// The table has one entry per fact.
    pub closed spec fn wf(&self) -> bool {
        &&& 1 <= C <= 64
        &&& S >= 1
        &&& Prog::<S, C>::tails_fit()
        &&& self.table@.len() == quad_total(S as int, C as int) * C * 9
    }

    /// Whether the table holds a fact (in range).
    pub closed spec fn holds(&self, f: CFact) -> bool {
        &&& cfact_in(f, S as int, C as int)
        &&& self.table@[cfact_pos(f, C as int)]
    }

    /// The number of facts missing from the table.
    pub closed spec fn absent(&self) -> nat {
        count_false(self.table@)
    }

    /// The facts that the table holds.
    pub open spec fn facts(&self) -> spec_fn(CFact) -> bool {
        |f: CFact| self.holds(f)
    }

    /// Facts that the table holds are in range.
    pub proof fn lemma_holds_in(&self, f: CFact)
        requires
            self.holds(f),
        ensures
            cfact_in(f, S as int, C as int),
    {
    }

    /// A well formed table is for at least one state and one to 64 colors.
    pub proof fn lemma_wf_sizes(&self)
        requires
            self.wf(),
        ensures
            S >= 1,
            1 <= C <= 64,
            Prog::<S, C>::tails_fit(),
    {
    }

    /// A table that holds no fact.
    pub fn new() -> (r: Self)
        requires
            Prog::<S, C>::tails_fit(),
            S >= 1,
            1 <= C <= 64,
        ensures
            r.wf(),
            forall|f: CFact| !r.holds(f),
    {
        proof {
            lemma_sizes(S as int, C as int);
            lemma_tail_sizes(S as int, C as int);
        }
        let n = S * C * C * C * C * 9;
        let r = ColorTailCountPossible { table: falses(n) };
        proof {
            assert forall|f: CFact| !r.holds(f) by {
                if cfact_in(f, S as int, C as int) {
                    lemma_cpos(f, f, S as int, C as int);
                }
            }
        }
        r
    }

    fn pos_of(&self, f: CFact) -> (r: usize)
        requires
            self.wf(),
            cfact_in(f, S as int, C as int),
        ensures
            r == cfact_pos(f, C as int),
            r < self.table@.len(),
    {
        proof {
            lemma_cpos(f, f, S as int, C as int);
            lemma_sizes(S as int, C as int);
            lemma_tail_sizes(S as int, C as int);
        }
        (qid_of::<S, C>(f.0) * C + f.1 as usize) * 9 + f.2 as usize
    }

    /// Whether the table holds a fact in range.
    pub fn has(&self, f: CFact) -> (r: bool)
        requires
            self.wf(),
            cfact_in(f, S as int, C as int),
        ensures
            r == self.holds(f),
    {
        self.table[self.pos_of(f)]
    }

    /// Adds a fact; whether it was new.
    fn insert(&mut self, f: CFact) -> (new: bool)
        requires
            old(self).wf(),
            cfact_in(f, S as int, C as int),
        ensures
            final(self).wf(),
            new == !old(self).holds(f),
            forall|g: CFact| #[trigger] final(self).holds(g) == (old(self).holds(g) || g == f),
            new ==> final(self).absent() + 1 == old(self).absent(),
            !new ==> final(self).absent() == old(self).absent(),
    {
        let pos = self.pos_of(f);
        if self.table[pos] {
            return false;
        }
        proof {
            lemma_count_update(self.table@, pos as int);
        }
        self.table.set(pos, true);
        proof {
            assert forall|g: CFact| #[trigger] self.holds(g) == (old(self).holds(g) || g == f) by {
                if cfact_in(g, S as int, C as int) {
                    lemma_cpos(g, f, S as int, C as int);
                }
            }
        }
        true
    }

    /// Adds the fact that color `color` has the counts `status` in the
    /// window.
    pub fn add(&mut self, st: usize, scan: usize, left: usize, right: usize, color: usize, status: u8)
        requires
            old(self).wf(),
            st < S,
            scan < C,
            left < C,
            right < C,
            1 <= color < C,
            status < 9,
        ensures
            final(self).wf(),
            forall|g: CFact| #[trigger] final(self).holds(g) == (old(self).holds(g) || g == (
                (st as u8, scan as u8, left as u8, right as u8),
                color as u8,
                status,
            )),
    {
        proof {
            self.lemma_wf_sizes();
        }
        self.insert(((st as u8, scan as u8, left as u8, right as u8), color as u8, status));
    }

    /// Adds a fact, and pushes it onto the stack if it is new.
    fn insert_push(&mut self, stack: &mut Vec<CFact>, f: CFact)
        requires
            old(self).wf(),
            cfact_in(f, S as int, C as int),
        ensures
            final(self).wf(),
            final(self).holds(f),
            forall|h: CFact| #[trigger] final(self).holds(h) ==> old(self).holds(h) || h == f,
            grows(old(self).facts(), final(self).facts(), old(self).absent(), final(self).absent(), old(stack)@, final(stack)@),
    {
        let ghost s0 = stack@;
        if self.insert(f) {
            stack.push(f);
            proof {
                assert(stack@[s0.len() as int] == f);
                assert(stack@.subrange(0, s0.len() as int) =~= s0);
            }
        } else {
            proof {
                lemma_grows_refl(self.facts(), self.absent(), s0);
                assert(old(self).facts() == self.facts()) by {
                    assert(old(self).facts() =~= self.facts());
                }
            }
        }
    }
}

/// A count after the neighbor, of color or not, joins the tail.
pub open spec fn add_neighbor(c: int, matches: bool) -> int {
    if matches {
        if c + 1 < 2 { c + 1 } else { 2 }
    } else {
        c
    }
}

/// Whether `n` can be the count of a tail once its nearest cell, of the
/// color or not, is taken out of a tail of count `c`.
pub open spec fn residual_ok(c: int, matches: bool, n: int) -> bool {
    if c == 0 {
        !matches && n == 0
    } else if c == 1 {
        if matches { n == 0 } else { n == 1 }
    } else {
        if matches { n == 1 || n == 2 } else { n == 2 }
    }
}

impl<const S: usize, const C: usize> Prog<S, C> {
    /// Whether the step from `f` gives `g`, to a window that the window
    /// tables allow.
    pub open spec fn count_next(&self, v: Seq<bool>, f: CFact, g: CFact) -> bool {
        let (w, k, s) = f;
        let (t, k2, s2) = g;
        &&& k2 == k
        &&& Self::in_range(w.0 as int, w.1 as int)
        &&& self.instr_at(w.0 as int, w.1 as int) matches Some(i) && {
            let nc = if i.1 { t.3 } else { t.2 };
            let l = s as int % 3;
            let r = s as int / 3;
            let l2 = s2 as int % 3;
            let r2 = s2 as int / 3;
            &&& s2 < 9
            &&& t == pfx_target(w, i, nc)
            &&& quad_in(t, S as int, C as int)
            &&& window_ok(v, t, C as int)
            &&& if i.1 {
                l2 == add_neighbor(l, w.2 == k) && residual_ok(r, nc == k, r2)
            } else {
                r2 == add_neighbor(r, w.3 == k) && residual_ok(l, nc == k, l2)
            }
        }
    }

    /// Whether a set of count facts holds the blank start (where the window
    /// tables allow it) and is closed under steps.
    pub open spec fn count_closed(&self, v: Seq<bool>, set: spec_fn(CFact) -> bool) -> bool {
        &&& window_ok(v, side_init(), C as int) ==> forall|k: Color| 1 <= k < C ==> #[trigger] set((side_init(), k, 0u8))
        &&& forall|f: CFact, g: CFact| #[trigger] self.count_next(v, f, g) ==> (set(f) ==> set(g))
    }

    /// Whether a count fact holds on runs from the blank tape: it is in
    /// every closed set.
    pub open spec fn count_reach(&self, v: Seq<bool>, f: CFact) -> bool {
        forall|set: spec_fn(CFact) -> bool| #[trigger] self.count_closed(v, set) ==> set(f)
    }

    /// Whether a set holds every fact that the step from `f` gives.
    pub open spec fn count_done(&self, v: Seq<bool>, set: spec_fn(CFact) -> bool, f: CFact) -> bool {
        forall|g: CFact| #[trigger] self.count_next(v, f, g) ==> set(g)
    }
}

fn add_neighbor_of(c: u8, matches: bool) -> (r: u8)
    requires
        c <= 2,
    ensures
        r as int == add_neighbor(c as int, matches),
        r <= 2,
{
    if matches {
        if c + 1 < 2 { c + 1 } else { 2 }
    } else {
        c
    }
}

fn residual_ok_of(c: u8, matches: bool, n: u8) -> (r: bool)
    ensures
        r == residual_ok(c as int, matches, n as int),
{
    if c == 0 {
        !matches && n == 0
    } else if c == 1 {
        if matches { n == 0 } else { n == 1 }
    } else {
        if matches { n == 1 || n == 2 } else { n == 2 }
    }
}

impl<const S: usize, const C: usize> Prog<S, C> {
    /// Adds every count fact that the step from `f` gives.
    fn count_step(
        &self,
        wp: &WinPossible,
        want: &Vec<bool>,
        ct: &mut ColorTailCountPossible<S, C>,
        stack: &mut Vec<CFact>,
        f: CFact,
    )
        requires
            S >= 1,
            1 <= C <= 64,
            wp.sized(S as int, C as int),
            want@ == seq![true, true, true, true],
            prints_below(self.instr_list(), C as int),
            targets_below(self.instr_list(), S as int),
            old(ct).wf(),
            old(ct).holds(f),
        ensures
            final(ct).wf(),
            forall|g: CFact| #[trigger] self.count_next(wp.side_parity@, f, g) ==> final(ct).holds(g),
            forall|h: CFact| #[trigger] final(ct).holds(h) ==> old(ct).holds(h) || self.count_next(wp.side_parity@, f, h),
            grows(old(ct).facts(), final(ct).facts(), old(ct).absent(), final(ct).absent(), old(stack)@, final(stack)@),
    {
        proof {
            use_type_invariant(self);
            ct.lemma_holds_in(f);
        }
        let ghost v = wp.side_parity@;
        let ghost ct0 = *ct;
        let ghost s0 = stack@;
        proof {
            lemma_grows_refl(ct0.facts(), ct0.absent(), s0);
        }
        let (w, k, s) = f;
        if let Some(ins) = self.get(&(w.0, w.1)) {
            let (pr, sh, ns) = *ins;
            let ghost i = (pr, sh, ns);
            proof {
                self.lemma_instr_at_listed(w.0 as int, w.1 as int);
                let j = choose|j: int| 0 <= j < self.instr_list().len() && #[trigger] self.instr_list()[j]
                    == self.instr_at(w.0 as int, w.1 as int)->0;
                assert(self.instr_list()[j] == i);
            }
            let l = s % 3;
            let r = s / 3;
            let kept = if sh { add_neighbor_of(l, w.2 == k) } else { add_neighbor_of(r, w.3 == k) };
            let taken = if sh { r } else { l };
            let mut nn: usize = 0;
            while nn < C
                invariant
                    ct.wf(),
                    1 <= C <= 64,
                    S >= 1,
                    wp.sized(S as int, C as int),
                    want@ == seq![true, true, true, true],
                    v == wp.side_parity@,
                    f == (w, k, s),
                    cfact_in(f, S as int, C as int),
                    (pr as int) < C,
                    (ns as int) < S,
                    Self::in_range(w.0 as int, w.1 as int),
                    self.instr_at(w.0 as int, w.1 as int) == Some(i),
                    i == (pr, sh, ns),
                    l == s % 3,
                    r == s / 3,
                    kept as int == (if sh { add_neighbor(l as int, w.2 == k) } else { add_neighbor(r as int, w.3 == k) }),
                    kept <= 2,
                    taken == (if sh { r } else { l }),
                    nn <= C,
                    forall|g: CFact| #[trigger] self.count_next(v, f, g) && (if sh { g.0.3 } else { g.0.2 }) < nn ==> ct.holds(g),
                    forall|h: CFact| #[trigger] ct.holds(h) ==> ct0.holds(h) || self.count_next(v, f, h),
                    grows(ct0.facts(), ct.facts(), ct0.absent(), ct.absent(), s0, stack@),
                decreases C - nn,
            {
                let nc = nn as Color;
                let t = if sh { (ns, w.3, pr, nc) } else { (ns, w.2, nc, pr) };
                assert(t == pfx_target(w, i, nc));
                if self.window_allowed(wp, want, t) {
                    let mut n2: u8 = 0;
                    while n2 < 3
                        invariant
                            ct.wf(),
                            1 <= C <= 64,
                            S >= 1,
                            v == wp.side_parity@,
                            f == (w, k, s),
                            cfact_in(f, S as int, C as int),
                            Self::in_range(w.0 as int, w.1 as int),
                            self.instr_at(w.0 as int, w.1 as int) == Some(i),
                            i == (pr, sh, ns),
                            l == s % 3,
                            r == s / 3,
                            kept as int == (if sh { add_neighbor(l as int, w.2 == k) } else { add_neighbor(r as int, w.3 == k) }),
                            kept <= 2,
                            taken == (if sh { r } else { l }),
                            nn < C,
                            nc == nn as Color,
                            t == pfx_target(w, i, nc),
                            quad_in(t, S as int, C as int),
                            window_ok(v, t, C as int),
                            n2 <= 3,
                            forall|g: CFact| #[trigger] self.count_next(v, f, g) && (if sh { g.0.3 } else { g.0.2 }) < nn ==> ct.holds(g),
                            forall|g: CFact| #[trigger] self.count_next(v, f, g) && (if sh { g.0.3 } else { g.0.2 }) == nn
                                && (if sh { g.2 as int / 3 } else { g.2 as int % 3 }) < n2 ==> ct.holds(g),
                            forall|h: CFact| #[trigger] ct.holds(h) ==> ct0.holds(h) || self.count_next(v, f, h),
                            grows(ct0.facts(), ct.facts(), ct0.absent(), ct.absent(), s0, stack@),
                        decreases 3 - n2,
                    {
                        if residual_ok_of(taken, nc == k, n2) {
                            let s2 = if sh { kept + 3 * n2 } else { n2 + 3 * kept };
                            let g = (t, k, s2);
                            let ghost ct1 = *ct;
                            let ghost s1 = stack@;
                            ct.insert_push(stack, g);
                            proof {
                                lemma_grows_trans(ct0.facts(), ct1.facts(), ct.facts(), ct0.absent(), ct1.absent(), ct.absent(), s0, s1, stack@);
                                assert(self.count_next(v, f, g));
                                assert forall|h: CFact| #[trigger] ct.holds(h) implies ct0.holds(h) || self.count_next(v, f, h) by {
                                    if !ct1.holds(h) {
                                        assert(h == g);
                                    }
                                }
                                assert forall|x: CFact| #[trigger] self.count_next(v, f, x) && (if sh { x.0.3 } else { x.0.2 }) == nn
                                    && (if sh { x.2 as int / 3 } else { x.2 as int % 3 }) < n2 + 1 implies ct.holds(x) by {
                                    if (if sh { x.2 as int / 3 } else { x.2 as int % 3 }) < n2 {
                                        assert(ct1.holds(x));
                                        assert(ct1.facts()(x));
                                        assert(ct.facts()(x));
                                    } else {
                                        assert(x.0 == t);
                                        assert(x == g);
                                    }
                                }
                                assert forall|x: CFact| #[trigger] self.count_next(v, f, x) && (if sh { x.0.3 } else { x.0.2 }) < nn implies ct.holds(x) by {
                                    assert(ct1.holds(x));
                                    assert(ct1.facts()(x));
                                    assert(ct.facts()(x));
                                }
                            }
                        } else {
                            proof {
                                assert forall|x: CFact| #[trigger] self.count_next(v, f, x) && (if sh { x.0.3 } else { x.0.2 }) == nn
                                    && (if sh { x.2 as int / 3 } else { x.2 as int % 3 }) < n2 + 1 implies ct.holds(x) by {
                                    if (if sh { x.2 as int / 3 } else { x.2 as int % 3 }) == n2 {
                                        assert(x.0 == t);
                                    }
                                }
                            }
                        }
                        n2 += 1;
                    }
                } else {
                    proof {
                        assert forall|x: CFact| #[trigger] self.count_next(v, f, x) && (if sh { x.0.3 } else { x.0.2 }) < nn + 1 implies ct.holds(x) by {
                            if (if sh { x.0.3 } else { x.0.2 }) == nn {
                                assert(x.0 == t);
                            }
                        }
                    }
                }
                proof {
                    assert forall|x: CFact| #[trigger] self.count_next(v, f, x) && (if sh { x.0.3 } else { x.0.2 }) < nn + 1 implies ct.holds(x) by {
                        if (if sh { x.0.3 } else { x.0.2 }) == nn {
                            assert(x.2 < 9);
                        }
                    }
                }
                nn += 1;
            }
            proof {
                assert forall|g: CFact| #[trigger] self.count_next(v, f, g) implies ct.holds(g) by {
                    assert((if sh { g.0.3 } else { g.0.2 }) < C);
                }
            }
        } else {
            proof {
                assert forall|g: CFact| #[trigger] self.count_next(v, f, g) implies ct.holds(g) by {}
            }
        }
    }
}

/// The counts of each nonblank color beyond the two neighbors of the
/// windows that occur on runs from the blank tape: the least count facts
/// that hold the blank start and are closed under steps, found by a
/// worklist.
pub fn color_tail_count_from_blank<const S: usize, const C: usize>(prog: &Prog<S, C>, windows: &WinPossible) -> (r: ColorTailCountPossible<S, C>)
    requires
        S >= 1,
        1 <= C <= 64,
        Prog::<S, C>::tails_fit(),
        windows.sized(S as int, C as int),
        prints_below(prog.instr_list(), C as int),
        targets_below(prog.instr_list(), S as int),
    ensures
        r.wf(),
        forall|f: CFact| #[trigger] r.holds(f) == prog.count_reach(windows.side_parity@, f),
{
    let ghost v = windows.side_parity@;
    let want = want_all(4);
    assert(want@ =~= seq![true, true, true, true]);
    let mut ct = ColorTailCountPossible::<S, C>::new();
    let mut stack: Vec<CFact> = Vec::new();
    let init: (State, Color, Color, Color) = (0, 0, 0, 0);
    if prog.window_allowed(windows, &want, init) {
        let mut k: usize = 1;
        while k < C
            invariant
                ct.wf(),
                1 <= k <= C,
                C <= 64,
                S >= 1,
                init == side_init(),
                forall|j: Color| 1 <= j < k ==> #[trigger] ct.holds((init, j, 0u8)),
                forall|i: int| 0 <= i < stack@.len() ==> ct.holds(#[trigger] stack@[i]),
                forall|f: CFact| #[trigger] ct.holds(f) ==> f.0 == init && f.2 == 0 && 1 <= f.1 < k,
                forall|f: CFact| #[trigger] ct.holds(f) ==> stack@.contains(f),
            decreases C - k,
        {
            let ghost ct1 = ct;
            let ghost s1 = stack@;
            let g = (init, k as Color, 0u8);
            ct.insert_push(&mut stack, g);
            proof {
                assert forall|i: int| 0 <= i < stack@.len() implies ct.holds(#[trigger] stack@[i]) by {
                    if i < s1.len() {
                        assert(stack@.subrange(0, s1.len() as int)[i] == s1[i]);
                        assert(ct1.facts()(s1[i]));
                        assert(ct.facts()(s1[i]));
                    }
                }
                assert forall|f: CFact| #[trigger] ct.holds(f) implies stack@.contains(f) by {
                    if ct1.holds(f) {
                        assert(s1.contains(f));
                        let j = choose|j: int| 0 <= j < s1.len() && s1[j] == f;
                        assert(stack@.subrange(0, s1.len() as int)[j] == f);
                    } else {
                        assert(ct.facts()(f) && !ct1.facts()(f));
                    }
                }
                assert forall|j: Color| 1 <= j < k + 1 implies #[trigger] ct.holds((init, j, 0u8)) by {
                    if j < k {
                        assert(ct1.facts()((init, j, 0u8)));
                        assert(ct.facts()((init, j, 0u8)));
                    }
                }
            }
            k += 1;
        }
    }
    proof {
        assert forall|f: CFact| #[trigger] ct.holds(f) implies prog.count_reach(v, f) by {
            assert forall|set: spec_fn(CFact) -> bool| #[trigger] prog.count_closed(v, set) implies set(f) by {
                assert(window_ok(v, side_init(), C as int));
            }
        }
        assert forall|f: CFact| #[trigger] ct.holds(f) && !stack@.contains(f) implies prog.count_done(v, ct.facts(), f) by {}
    }
    while stack.len() > 0
        invariant
            ct.wf(),
            S >= 1,
            1 <= C <= 64,
            windows.sized(S as int, C as int),
            want@ == seq![true, true, true, true],
            prints_below(prog.instr_list(), C as int),
            targets_below(prog.instr_list(), S as int),
            v == windows.side_parity@,
            init == side_init(),
            window_ok(v, init, C as int) ==> forall|k: Color| 1 <= k < C ==> #[trigger] ct.holds((init, k, 0u8)),
            forall|f: CFact| #[trigger] ct.holds(f) ==> prog.count_reach(v, f),
            forall|i: int| 0 <= i < stack@.len() ==> ct.holds(#[trigger] stack@[i]),
            forall|f: CFact| #[trigger] ct.holds(f) && !stack@.contains(f) ==> prog.count_done(v, ct.facts(), f),
        decreases ct.absent(), stack@.len(),
    {
        let ghost stack0 = stack@;
        let ghost ct0 = ct;
        let f = stack.pop().unwrap();
        let ghost popped = stack@;
        proof {
            assert(stack0 =~= popped.push(f));
            assert(stack0[popped.len() as int] == f);
        }
        prog.count_step(windows, &want, &mut ct, &mut stack, f);
        proof {
            assert forall|h: CFact| #[trigger] ct.holds(h) implies prog.count_reach(v, h) by {
                if !ct0.holds(h) {
                    assert(prog.count_next(v, f, h));
                    assert(prog.count_reach(v, f));
                    assert forall|set: spec_fn(CFact) -> bool| #[trigger] prog.count_closed(v, set) implies set(h) by {
                        assert(set(f));
                    }
                }
            }
            assert forall|i: int| 0 <= i < stack@.len() implies ct.holds(#[trigger] stack@[i]) by {
                if i < popped.len() {
                    assert(stack@.subrange(0, popped.len() as int)[i] == popped[i]);
                    assert(popped[i] == stack0[i]);
                    assert(ct0.holds(stack0[i]));
                    assert(ct0.facts()(stack0[i]));
                    assert(ct.facts()(stack0[i]));
                }
            }
            assert forall|h: CFact| #[trigger] ct.holds(h) && !stack@.contains(h) implies prog.count_done(v, ct.facts(), h) by {
                if h == f {
                    assert forall|g: CFact| #[trigger] prog.count_next(v, h, g) implies ct.facts()(g) by {}
                } else {
                    if !ct0.holds(h) {
                        assert(ct.facts()(h) && !ct0.facts()(h));
                        assert(stack@.contains(h));
                    }
                    assert(!stack0.contains(h)) by {
                        if stack0.contains(h) {
                            let j = choose|j: int| 0 <= j < stack0.len() && stack0[j] == h;
                            assert(j < popped.len());
                            assert(stack@.subrange(0, popped.len() as int)[j] == popped[j]);
                            assert(stack@[j] == h);
                        }
                    }
                    assert(prog.count_done(v, ct0.facts(), h));
                    assert forall|g: CFact| #[trigger] prog.count_next(v, h, g) implies ct.facts()(g) by {
                        assert(ct0.facts()(g));
                    }
                }
            }
            if window_ok(v, init, C as int) {
                assert forall|k: Color| 1 <= k < C implies #[trigger] ct.holds((init, k, 0u8)) by {
                    assert(ct0.holds((init, k, 0u8)));
                    assert(ct0.facts()((init, k, 0u8)));
                    assert(ct.facts()((init, k, 0u8)));
                }
            }
        }
    }
    proof {
        assert(prog.count_closed(v, ct.facts())) by {
            assert forall|f: CFact, g: CFact| #[trigger] prog.count_next(v, f, g) && ct.facts()(f) implies ct.facts()(g) by {
                assert(prog.count_done(v, ct.facts(), f));
            }
            if window_ok(v, side_init(), C as int) {
                assert forall|k: Color| 1 <= k < C implies #[trigger] ct.facts()((side_init(), k, 0u8)) by {
                    assert(ct.holds((init, k, 0u8)));
                }
            }
        }
    }
    ct
}

/// A fact of the pairs: in the window, of the colors `.1 < .2`, status
/// `.3` says which occur where: bit 0 for the first beyond the left
/// neighbor, bit 1 for the first beyond the right one, bits 2 and 3 the
/// same for the second.
pub type PrFact = (Quad, Color, Color, u8);

/// A pair fact about a window in range, two nonblank colors in range in
/// order, and a status below 16.
pub open spec fn prfact_in(f: PrFact, states: int, colors: int) -> bool {
    &&& quad_in(f.0, states, colors)
    &&& 1 <= f.1 < f.2 < colors
    &&& f.3 < 16
}

/// The position of a pair fact in its table.
pub open spec fn prfact_pos(f: PrFact, colors: int) -> int {
    idx2(idx2(idx2(qid(f.0, colors), f.1 as int, colors), f.2 as int, colors), f.3 as int, 16)
}

proof fn lemma_prpos(f: PrFact, g: PrFact, states: int, colors: int)
    requires
        prfact_in(f, states, colors),
        prfact_in(g, states, colors),
    ensures
        0 <= prfact_pos(f, colors) < quad_total(states, colors) * colors * colors * 16,
        prfact_pos(f, colors) == prfact_pos(g, colors) ==> f == g,
{
    let total = quad_total(states, colors);
    lemma_qid(f.0, g.0, states, colors);
    lemma_idx2(qid(f.0, colors), f.1 as int, total, colors);
    lemma_idx2(idx2(qid(f.0, colors), f.1 as int, colors), f.2 as int, total * colors, colors);
    lemma_idx2(idx2(idx2(qid(f.0, colors), f.1 as int, colors), f.2 as int, colors), f.3 as int, total * colors * colors, 16);
    if prfact_pos(f, colors) == prfact_pos(g, colors) {
        lemma_qid(g.0, g.0, states, colors);
        lemma_idx2_inj(
            idx2(idx2(qid(f.0, colors), f.1 as int, colors), f.2 as int, colors),
            f.3 as int,
            idx2(idx2(qid(g.0, colors), g.1 as int, colors), g.2 as int, colors),
            g.3 as int,
            16,
        );
        lemma_idx2_inj(idx2(qid(f.0, colors), f.1 as int, colors), f.2 as int, idx2(qid(g.0, colors), g.1 as int, colors), g.2 as int, colors);
        lemma_idx2_inj(qid(f.0, colors), f.1 as int, qid(g.0, colors), g.1 as int, colors);
    }
}

/// For each window and pair of nonblank colors, which of the two occur
/// beyond which neighbor together: one entry per fact.
pub struct PairTailPresencePossible<const S: usize, const C: usize> {
    table: Vec<bool>,
}

impl<const S: usize, const C: usize> PairTailPresencePossible<S, C> {
    /// The table has one entry per fact.
    pub closed spec fn wf(&self) -> bool {
        &&& 1 <= C <= 64
        &&& S >= 1
        &&& Prog::<S, C>::tails_fit()
        &&& self.table@.len() == quad_total(S as int, C as int) * C * C * 16
    }

    /// Whether the table holds a fact (in range).
    pub closed spec fn holds(&self, f: PrFact) -> bool {
        &&& prfact_in(f, S as int, C as int)
        &&& self.table@[prfact_pos(f, C as int)]
    }

    /// The number of facts missing from the table.
    pub closed spec fn absent(&self) -> nat {
        count_false(self.table@)
    }

    /// The facts that the table holds.
    pub open spec fn facts(&self) -> spec_fn(PrFact) -> bool {
        |f: PrFact| self.holds(f)
    }

    /// Facts that the table holds are in range.
    pub proof fn lemma_holds_in(&self, f: PrFact)
        requires
            self.holds(f),
        ensures
            prfact_in(f, S as int, C as int),
    {
    }

    /// A well formed table is for at least one state and one to 64 colors.
    pub proof fn lemma_wf_sizes(&self)
        requires
            self.wf(),
        ensures
            S >= 1,
            1 <= C <= 64,
            Prog::<S, C>::tails_fit(),
    {
    }

    /// A table that holds no fact.
    pub fn new() -> (r: Self)
        requires
            Prog::<S, C>::tails_fit(),
            S >= 1,
            1 <= C <= 64,
        ensures
            r.wf(),
            forall|f: PrFact| !r.holds(f),
    {
        proof {
            lemma_sizes(S as int, C as int);
            lemma_tail_sizes(S as int, C as int);
        }
        let n = S * C * C * C * C * C * 16;
        let r = PairTailPresencePossible { table: falses(n) };
        proof {
            assert forall|f: PrFact| !r.holds(f) by {
                if prfact_in(f, S as int, C as int) {
                    lemma_prpos(f, f, S as int, C as int);
                }
            }
        }
        r
    }

    fn pos_of(&self, f: PrFact) -> (r: usize)
        requires
            self.wf(),
            prfact_in(f, S as int, C as int),
        ensures
            r == prfact_pos(f, C as int),
            r < self.table@.len(),
    {
        proof {
            lemma_prpos(f, f, S as int, C as int);
            lemma_sizes(S as int, C as int);
            lemma_tail_sizes(S as int, C as int);
        }
        let q = qid_of::<S, C>(f.0);
        proof {
            let total = quad_total(S as int, C as int);
            lemma_idx2(q as int, f.1 as int, total, C as int);
            lemma_idx2(idx2(q as int, f.1 as int, C as int), f.2 as int, total * C, C as int);
        }
        ((q * C + f.1 as usize) * C + f.2 as usize) * 16 + f.3 as usize
    }

    /// Whether the table holds a fact in range.
    pub fn has(&self, f: PrFact) -> (r: bool)
        requires
            self.wf(),
            prfact_in(f, S as int, C as int),
        ensures
            r == self.holds(f),
    {
        self.table[self.pos_of(f)]
    }

    /// Adds a fact; whether it was new.
    fn insert(&mut self, f: PrFact) -> (new: bool)
        requires
            old(self).wf(),
            prfact_in(f, S as int, C as int),
        ensures
            final(self).wf(),
            new == !old(self).holds(f),
            forall|g: PrFact| #[trigger] final(self).holds(g) == (old(self).holds(g) || g == f),
            new ==> final(self).absent() + 1 == old(self).absent(),
            !new ==> final(self).absent() == old(self).absent(),
    {
        let pos = self.pos_of(f);
        if self.table[pos] {
            return false;
        }
        proof {
            lemma_count_update(self.table@, pos as int);
        }
        self.table.set(pos, true);
        proof {
            assert forall|g: PrFact| #[trigger] self.holds(g) == (old(self).holds(g) || g == f) by {
                if prfact_in(g, S as int, C as int) {
                    lemma_prpos(g, f, S as int, C as int);
                }
            }
        }
        true
    }

    /// Adds the fact that the colors `a < b` occur as `status` says in the
    /// window.
    pub fn add(&mut self, st: usize, scan: usize, left: usize, right: usize, a: usize, b: usize, status: u8)
        requires
            old(self).wf(),
            st < S,
            scan < C,
            left < C,
            right < C,
            1 <= a < b < C,
            status < 16,
        ensures
            final(self).wf(),
            forall|g: PrFact| #[trigger] final(self).holds(g) == (old(self).holds(g) || g == (
                (st as u8, scan as u8, left as u8, right as u8),
                a as u8,
                b as u8,
                status,
            )),
    {
        proof {
            self.lemma_wf_sizes();
        }
        self.insert(((st as u8, scan as u8, left as u8, right as u8), a as u8, b as u8, status));
    }

    /// Adds a fact, and pushes it onto the stack if it is new.
    fn insert_push(&mut self, stack: &mut Vec<PrFact>, f: PrFact)
        requires
            old(self).wf(),
            prfact_in(f, S as int, C as int),
        ensures
            final(self).wf(),
            final(self).holds(f),
            forall|h: PrFact| #[trigger] final(self).holds(h) ==> old(self).holds(h) || h == f,
            grows(old(self).facts(), final(self).facts(), old(self).absent(), final(self).absent(), old(stack)@, final(stack)@),
    {
        let ghost s0 = stack@;
        if self.insert(f) {
            stack.push(f);
            proof {
                assert(stack@[s0.len() as int] == f);
                assert(stack@.subrange(0, s0.len() as int) =~= s0);
            }
        } else {
            proof {
                lemma_grows_refl(self.facts(), self.absent(), s0);
                assert(old(self).facts() =~= self.facts());
            }
        }
    }
}

/// Bit `j` (below 4) of a status.
pub open spec fn sbit(s: u8, j: int) -> bool {
    if j == 0 {
        s as int % 2 == 1
    } else if j == 1 {
        (s as int / 2) % 2 == 1
    } else if j == 2 {
        (s as int / 4) % 2 == 1
    } else {
        (s as int / 8) % 2 == 1
    }
}

/// Whether a color's presence beyond a neighbor can be `now` once the
/// nearest cell there, of color `exposed`, is taken in, from `present`.
pub open spec fn presence_after(present: bool, exposed: Color, color: Color, now: bool) -> bool {
    if !present {
        exposed != color && !now
    } else if exposed == color {
        true
    } else {
        now
    }
}

/// Whether a step moving right (`sh`) or left from a window with
/// neighbors `l`, `r` can take status `s` of the pair `a`, `b` to `s2`,
/// when the cell taken in has color `nc`.
pub open spec fn pair_move(sh: bool, l: Color, r: Color, a: Color, b: Color, s: u8, nc: Color, s2: u8) -> bool {
    if sh {
        &&& sbit(s2, 0) == (sbit(s, 0) || l == a)
        &&& sbit(s2, 2) == (sbit(s, 2) || l == b)
        &&& presence_after(sbit(s, 1), nc, a, sbit(s2, 1))
        &&& presence_after(sbit(s, 3), nc, b, sbit(s2, 3))
    } else {
        &&& sbit(s2, 1) == (sbit(s, 1) || r == a)
        &&& sbit(s2, 3) == (sbit(s, 3) || r == b)
        &&& presence_after(sbit(s, 0), nc, a, sbit(s2, 0))
        &&& presence_after(sbit(s, 2), nc, b, sbit(s2, 2))
    }
}

fn sbit_of(s: u8, j: u8) -> (r: bool)
    requires
        j < 4,
    ensures
        r == sbit(s, j as int),
{
    if j == 0 {
        s % 2 == 1
    } else if j == 1 {
        (s / 2) % 2 == 1
    } else if j == 2 {
        (s / 4) % 2 == 1
    } else {
        (s / 8) % 2 == 1
    }
}

fn presence_after_of(present: bool, exposed: Color, color: Color, now: bool) -> (r: bool)
    ensures
        r == presence_after(present, exposed, color, now),
{
    if !present {
        exposed != color && !now
    } else if exposed == color {
        true
    } else {
        now
    }
}

fn pair_move_of(sh: bool, l: Color, r: Color, a: Color, b: Color, s: u8, nc: Color, s2: u8) -> (ok: bool)
    ensures
        ok == pair_move(sh, l, r, a, b, s, nc, s2),
{
    if sh {
        sbit_of(s2, 0) == (sbit_of(s, 0) || l == a) && sbit_of(s2, 2) == (sbit_of(s, 2) || l == b)
            && presence_after_of(sbit_of(s, 1), nc, a, sbit_of(s2, 1)) && presence_after_of(sbit_of(s, 3), nc, b, sbit_of(s2, 3))
    } else {
        sbit_of(s2, 1) == (sbit_of(s, 1) || r == a) && sbit_of(s2, 3) == (sbit_of(s, 3) || r == b)
            && presence_after_of(sbit_of(s, 0), nc, a, sbit_of(s2, 0)) && presence_after_of(sbit_of(s, 2), nc, b, sbit_of(s2, 2))
    }
}

impl<const S: usize, const C: usize> Prog<S, C> {
    /// Whether the step from `f` gives `g`, to a window that the window
    /// tables allow.
    pub open spec fn pair_next(&self, v: Seq<bool>, f: PrFact, g: PrFact) -> bool {
        let (w, a, b, s) = f;
        let (t, a2, b2, s2) = g;
        &&& a2 == a
        &&& b2 == b
        &&& s2 < 16
        &&& Self::in_range(w.0 as int, w.1 as int)
        &&& self.instr_at(w.0 as int, w.1 as int) matches Some(i) && {
            let nc = if i.1 { t.3 } else { t.2 };
            &&& t == pfx_target(w, i, nc)
            &&& quad_in(t, S as int, C as int)
            &&& window_ok(v, t, C as int)
            &&& pair_move(i.1, w.2, w.3, a, b, s, nc, s2)
        }
    }

    /// Whether a set of pair facts holds the blank start (where the window
    /// tables allow it) and is closed under steps.
    pub open spec fn pair_closed(&self, v: Seq<bool>, set: spec_fn(PrFact) -> bool) -> bool {
        &&& window_ok(v, side_init(), C as int) ==> forall|a: Color, b: Color|
            1 <= a < b < C ==> #[trigger] set((side_init(), a, b, 0u8))
        &&& forall|f: PrFact, g: PrFact| #[trigger] self.pair_next(v, f, g) ==> (set(f) ==> set(g))
    }

    /// Whether a pair fact holds on runs from the blank tape: it is in
    /// every closed set.
    pub open spec fn pair_reach(&self, v: Seq<bool>, f: PrFact) -> bool {
        forall|set: spec_fn(PrFact) -> bool| #[trigger] self.pair_closed(v, set) ==> set(f)
    }

    /// Whether a set holds every fact that the step from `f` gives.
    pub open spec fn pair_done(&self, v: Seq<bool>, set: spec_fn(PrFact) -> bool, f: PrFact) -> bool {
        forall|g: PrFact| #[trigger] self.pair_next(v, f, g) ==> set(g)
    }

    /// Adds every pair fact that the step from `f` gives.
    fn pair_step(
        &self,
        wp: &WinPossible,
        want: &Vec<bool>,
        pt: &mut PairTailPresencePossible<S, C>,
        stack: &mut Vec<PrFact>,
        f: PrFact,
    )
        requires
            S >= 1,
            1 <= C <= 64,
            wp.sized(S as int, C as int),
            want@ == seq![true, true, true, true],
            prints_below(self.instr_list(), C as int),
            targets_below(self.instr_list(), S as int),
            old(pt).wf(),
            old(pt).holds(f),
        ensures
            final(pt).wf(),
            forall|g: PrFact| #[trigger] self.pair_next(wp.side_parity@, f, g) ==> final(pt).holds(g),
            forall|h: PrFact| #[trigger] final(pt).holds(h) ==> old(pt).holds(h) || self.pair_next(wp.side_parity@, f, h),
            grows(old(pt).facts(), final(pt).facts(), old(pt).absent(), final(pt).absent(), old(stack)@, final(stack)@),
    {
        proof {
            use_type_invariant(self);
            pt.lemma_holds_in(f);
        }
        let ghost v = wp.side_parity@;
        let ghost pt0 = *pt;
        let ghost s0 = stack@;
        proof {
            lemma_grows_refl(pt0.facts(), pt0.absent(), s0);
        }
        let (w, a, b, s) = f;
        if let Some(ins) = self.get(&(w.0, w.1)) {
            let (pr, sh, ns) = *ins;
            let ghost i = (pr, sh, ns);
            proof {
                self.lemma_instr_at_listed(w.0 as int, w.1 as int);
                let j = choose|j: int| 0 <= j < self.instr_list().len() && #[trigger] self.instr_list()[j]
                    == self.instr_at(w.0 as int, w.1 as int)->0;
                assert(self.instr_list()[j] == i);
            }
            let mut nn: usize = 0;
            while nn < C
                invariant
                    pt.wf(),
                    1 <= C <= 64,
                    S >= 1,
                    wp.sized(S as int, C as int),
                    want@ == seq![true, true, true, true],
                    v == wp.side_parity@,
                    f == (w, a, b, s),
                    prfact_in(f, S as int, C as int),
                    (pr as int) < C,
                    (ns as int) < S,
                    Self::in_range(w.0 as int, w.1 as int),
                    self.instr_at(w.0 as int, w.1 as int) == Some(i),
                    i == (pr, sh, ns),
                    nn <= C,
                    forall|g: PrFact| #[trigger] self.pair_next(v, f, g) && (if sh { g.0.3 } else { g.0.2 }) < nn ==> pt.holds(g),
                    forall|h: PrFact| #[trigger] pt.holds(h) ==> pt0.holds(h) || self.pair_next(v, f, h),
                    grows(pt0.facts(), pt.facts(), pt0.absent(), pt.absent(), s0, stack@),
                decreases C - nn,
            {
                let nc = nn as Color;
                let t = if sh { (ns, w.3, pr, nc) } else { (ns, w.2, nc, pr) };
                assert(t == pfx_target(w, i, nc));
                if self.window_allowed(wp, want, t) {
                    let mut s2: u8 = 0;
                    while s2 < 16
                        invariant
                            pt.wf(),
                            1 <= C <= 64,
                            S >= 1,
                            v == wp.side_parity@,
                            f == (w, a, b, s),
                            prfact_in(f, S as int, C as int),
                            Self::in_range(w.0 as int, w.1 as int),
                            self.instr_at(w.0 as int, w.1 as int) == Some(i),
                            i == (pr, sh, ns),
                            nn < C,
                            nc == nn as Color,
                            t == pfx_target(w, i, nc),
                            quad_in(t, S as int, C as int),
                            window_ok(v, t, C as int),
                            s2 <= 16,
                            forall|g: PrFact| #[trigger] self.pair_next(v, f, g) && (if sh { g.0.3 } else { g.0.2 }) < nn ==> pt.holds(g),
                            forall|g: PrFact| #[trigger] self.pair_next(v, f, g) && (if sh { g.0.3 } else { g.0.2 }) == nn
                                && g.3 < s2 ==> pt.holds(g),
                            forall|h: PrFact| #[trigger] pt.holds(h) ==> pt0.holds(h) || self.pair_next(v, f, h),
                            grows(pt0.facts(), pt.facts(), pt0.absent(), pt.absent(), s0, stack@),
                        decreases 16 - s2,
                    {
                        if pair_move_of(sh, w.2, w.3, a, b, s, nc, s2) {
                            let g = (t, a, b, s2);
                            let ghost pt1 = *pt;
                            let ghost s1 = stack@;
                            pt.insert_push(stack, g);
                            proof {
                                lemma_grows_trans(pt0.facts(), pt1.facts(), pt.facts(), pt0.absent(), pt1.absent(), pt.absent(), s0, s1, stack@);
                                assert(self.pair_next(v, f, g));
                                assert forall|h: PrFact| #[trigger] pt.holds(h) implies pt0.holds(h) || self.pair_next(v, f, h) by {
                                    if !pt1.holds(h) {
                                        assert(h == g);
                                    }
                                }
                                assert forall|x: PrFact| #[trigger] self.pair_next(v, f, x) && (if sh { x.0.3 } else { x.0.2 }) == nn
                                    && x.3 < s2 + 1 implies pt.holds(x) by {
                                    if x.3 < s2 {
                                        assert(pt1.facts()(x));
                                        assert(pt.facts()(x));
                                    } else {
                                        assert(x.0 == t);
                                        assert(x == g);
                                    }
                                }
                                assert forall|x: PrFact| #[trigger] self.pair_next(v, f, x) && (if sh { x.0.3 } else { x.0.2 }) < nn implies pt.holds(x) by {
                                    assert(pt1.facts()(x));
                                    assert(pt.facts()(x));
                                }
                            }
                        } else {
                            proof {
                                assert forall|x: PrFact| #[trigger] self.pair_next(v, f, x) && (if sh { x.0.3 } else { x.0.2 }) == nn
                                    && x.3 < s2 + 1 implies pt.holds(x) by {
                                    if x.3 == s2 {
                                        assert(x.0 == t);
                                    }
                                }
                            }
                        }
                        s2 += 1;
                    }
                } else {
                    proof {
                        assert forall|x: PrFact| #[trigger] self.pair_next(v, f, x) && (if sh { x.0.3 } else { x.0.2 }) < nn + 1 implies pt.holds(x) by {
                            if (if sh { x.0.3 } else { x.0.2 }) == nn {
                                assert(x.0 == t);
                            }
                        }
                    }
                }
                nn += 1;
            }
            proof {
                assert forall|g: PrFact| #[trigger] self.pair_next(v, f, g) implies pt.holds(g) by {
                    assert((if sh { g.0.3 } else { g.0.2 }) < C);
                }
            }
        } else {
            proof {
                assert forall|g: PrFact| #[trigger] self.pair_next(v, f, g) implies pt.holds(g) by {}
            }
        }
    }
}

/// Which of each pair of nonblank colors occur beyond which neighbor, in
/// the windows that occur on runs from the blank tape: the least pair
/// facts that hold the blank start and are closed under steps, found by a
/// worklist.
pub fn pair_tail_presence_from_blank<const S: usize, const C: usize>(prog: &Prog<S, C>, windows: &WinPossible) -> (r: PairTailPresencePossible<S, C>)
    requires
        S >= 1,
        1 <= C <= 64,
        Prog::<S, C>::tails_fit(),
        windows.sized(S as int, C as int),
        prints_below(prog.instr_list(), C as int),
        targets_below(prog.instr_list(), S as int),
    ensures
        r.wf(),
        forall|f: PrFact| #[trigger] r.holds(f) == prog.pair_reach(windows.side_parity@, f),
{
    let ghost v = windows.side_parity@;
    let want = want_all(4);
    assert(want@ =~= seq![true, true, true, true]);
    let mut pt = PairTailPresencePossible::<S, C>::new();
    let mut stack: Vec<PrFact> = Vec::new();
    let init: (State, Color, Color, Color) = (0, 0, 0, 0);
    if prog.window_allowed(windows, &want, init) {
        let mut a: usize = 1;
        while a < C
            invariant
                pt.wf(),
                1 <= a <= C,
                C <= 64,
                S >= 1,
                init == side_init(),
                forall|x: Color, y: Color| 1 <= x < y < C && x < a ==> #[trigger] pt.holds((init, x, y, 0u8)),
                forall|i: int| 0 <= i < stack@.len() ==> pt.holds(#[trigger] stack@[i]),
                forall|f: PrFact| #[trigger] pt.holds(f) ==> f.0 == init && f.3 == 0,
                forall|f: PrFact| #[trigger] pt.holds(f) ==> stack@.contains(f),
            decreases C - a,
        {
            let mut b: usize = a + 1;
            while b < C
                invariant
                    pt.wf(),
                    1 <= a < C,
                    a + 1 <= b <= C,
                    C <= 64,
                    S >= 1,
                    init == side_init(),
                    forall|x: Color, y: Color| 1 <= x < y < C && x < a ==> #[trigger] pt.holds((init, x, y, 0u8)),
                    forall|y: Color| a < y < b ==> #[trigger] pt.holds((init, a as u8, y, 0u8)),
                    forall|i: int| 0 <= i < stack@.len() ==> pt.holds(#[trigger] stack@[i]),
                    forall|f: PrFact| #[trigger] pt.holds(f) ==> f.0 == init && f.3 == 0,
                    forall|f: PrFact| #[trigger] pt.holds(f) ==> stack@.contains(f),
                decreases C - b,
            {
                let ghost pt1 = pt;
                let ghost s1 = stack@;
                let g = (init, a as Color, b as Color, 0u8);
                pt.insert_push(&mut stack, g);
                proof {
                    assert forall|i: int| 0 <= i < stack@.len() implies pt.holds(#[trigger] stack@[i]) by {
                        if i < s1.len() {
                            assert(stack@.subrange(0, s1.len() as int)[i] == s1[i]);
                            assert(pt1.facts()(s1[i]));
                            assert(pt.facts()(s1[i]));
                        }
                    }
                    assert forall|f: PrFact| #[trigger] pt.holds(f) implies stack@.contains(f) by {
                        if pt1.holds(f) {
                            assert(s1.contains(f));
                            let j = choose|j: int| 0 <= j < s1.len() && s1[j] == f;
                            assert(stack@.subrange(0, s1.len() as int)[j] == f);
                        } else {
                            assert(pt.facts()(f) && !pt1.facts()(f));
                        }
                    }
                    assert forall|x: Color, y: Color| 1 <= x < y < C && x < a implies #[trigger] pt.holds((init, x, y, 0u8)) by {
                        assert(pt1.facts()((init, x, y, 0u8)));
                        assert(pt.facts()((init, x, y, 0u8)));
                    }
                    assert forall|y: Color| a < y < b + 1 implies #[trigger] pt.holds((init, a as u8, y, 0u8)) by {
                        if y < b {
                            assert(pt1.facts()((init, a as u8, y, 0u8)));
                            assert(pt.facts()((init, a as u8, y, 0u8)));
                        }
                    }
                }
                b += 1;
            }
            proof {
                assert forall|x: Color, y: Color| 1 <= x < y < C && x < a + 1 implies #[trigger] pt.holds((init, x, y, 0u8)) by {
                    if x == a {
                        assert(pt.holds((init, a as u8, y, 0u8)));
                    }
                }
            }
            a += 1;
        }
    }
    proof {
        assert forall|f: PrFact| #[trigger] pt.holds(f) implies prog.pair_reach(v, f) by {
            pt.lemma_holds_in(f);
            assert forall|set: spec_fn(PrFact) -> bool| #[trigger] prog.pair_closed(v, set) implies set(f) by {
                assert(window_ok(v, side_init(), C as int));
            }
        }
        assert forall|f: PrFact| #[trigger] pt.holds(f) && !stack@.contains(f) implies prog.pair_done(v, pt.facts(), f) by {}
    }
    while stack.len() > 0
        invariant
            pt.wf(),
            S >= 1,
            1 <= C <= 64,
            windows.sized(S as int, C as int),
            want@ == seq![true, true, true, true],
            prints_below(prog.instr_list(), C as int),
            targets_below(prog.instr_list(), S as int),
            v == windows.side_parity@,
            init == side_init(),
            window_ok(v, init, C as int) ==> forall|a: Color, b: Color| 1 <= a < b < C ==> #[trigger] pt.holds((init, a, b, 0u8)),
            forall|f: PrFact| #[trigger] pt.holds(f) ==> prog.pair_reach(v, f),
            forall|i: int| 0 <= i < stack@.len() ==> pt.holds(#[trigger] stack@[i]),
            forall|f: PrFact| #[trigger] pt.holds(f) && !stack@.contains(f) ==> prog.pair_done(v, pt.facts(), f),
        decreases pt.absent(), stack@.len(),
    {
        let ghost stack0 = stack@;
        let ghost pt0 = pt;
        let f = stack.pop().unwrap();
        let ghost popped = stack@;
        proof {
            assert(stack0 =~= popped.push(f));
            assert(stack0[popped.len() as int] == f);
        }
        prog.pair_step(windows, &want, &mut pt, &mut stack, f);
        proof {
            assert forall|h: PrFact| #[trigger] pt.holds(h) implies prog.pair_reach(v, h) by {
                if !pt0.holds(h) {
                    assert(prog.pair_next(v, f, h));
                    assert(prog.pair_reach(v, f));
                    assert forall|set: spec_fn(PrFact) -> bool| #[trigger] prog.pair_closed(v, set) implies set(h) by {
                        assert(set(f));
                    }
                }
            }
            assert forall|i: int| 0 <= i < stack@.len() implies pt.holds(#[trigger] stack@[i]) by {
                if i < popped.len() {
                    assert(stack@.subrange(0, popped.len() as int)[i] == popped[i]);
                    assert(popped[i] == stack0[i]);
                    assert(pt0.holds(stack0[i]));
                    assert(pt0.facts()(stack0[i]));
                    assert(pt.facts()(stack0[i]));
                }
            }
            assert forall|h: PrFact| #[trigger] pt.holds(h) && !stack@.contains(h) implies prog.pair_done(v, pt.facts(), h) by {
                if h == f {
                    assert forall|g: PrFact| #[trigger] prog.pair_next(v, h, g) implies pt.facts()(g) by {}
                } else {
                    if !pt0.holds(h) {
                        assert(pt.facts()(h) && !pt0.facts()(h));
                        assert(stack@.contains(h));
                    }
                    assert(!stack0.contains(h)) by {
                        if stack0.contains(h) {
                            let j = choose|j: int| 0 <= j < stack0.len() && stack0[j] == h;
                            assert(j < popped.len());
                            assert(stack@.subrange(0, popped.len() as int)[j] == popped[j]);
                            assert(stack@[j] == h);
                        }
                    }
                    assert(prog.pair_done(v, pt0.facts(), h));
                    assert forall|g: PrFact| #[trigger] prog.pair_next(v, h, g) implies pt.facts()(g) by {
                        assert(pt0.facts()(g));
                    }
                }
            }
            if window_ok(v, init, C as int) {
                assert forall|a: Color, b: Color| 1 <= a < b < C implies #[trigger] pt.holds((init, a, b, 0u8)) by {
                    assert(pt0.holds((init, a, b, 0u8)));
                    assert(pt0.facts()((init, a, b, 0u8)));
                    assert(pt.facts()((init, a, b, 0u8)));
                }
            }
        }
    }
    proof {
        assert(prog.pair_closed(v, pt.facts())) by {
            assert forall|f: PrFact, g: PrFact| #[trigger] prog.pair_next(v, f, g) && pt.facts()(f) implies pt.facts()(g) by {
                assert(prog.pair_done(v, pt.facts(), f));
            }
            if window_ok(v, side_init(), C as int) {
                assert forall|a: Color, b: Color| 1 <= a < b < C implies #[trigger] pt.facts()((side_init(), a, b, 0u8)) by {
                    assert(pt.holds((init, a, b, 0u8)));
                }
            }
        }
    }
    pt
}

/// Whether a color agrees with a known neighbor (any does with an
/// unknown one).
pub open spec fn fits(known: Option<Color>, x: Color) -> bool {
    known matches Some(k) ==> k == x
}

impl<const S: usize, const C: usize> ColorTailCountPossible<S, C> {
    /// Whether some window with the state, the scanned color and the known
    /// neighbors has counts `s` of color `k`.
    pub open spec fn seen(&self, st: State, scan: Color, kl: Option<Color>, kr: Option<Color>, k: Color, s: u8) -> bool {
        exists|l: Color, r: Color| #[trigger] self.holds(((st, scan, l, r), k, s)) && fits(kl, l) && fits(kr, r)
    }

    /// Whether some window with the state, the scanned color and the known
    /// neighbors has counts `s` of color `k`, by a search.
    pub fn seen_of(&self, st: State, scan: Color, kl: Option<Color>, kr: Option<Color>, k: Color, s: u8) -> (r: bool)
        requires
            self.wf(),
        ensures
            r == self.seen(st, scan, kl, kr, k, s),
    {
        proof {
            self.lemma_wf_sizes();
        }
        if st as usize >= S || scan as usize >= C || k == 0 || k as usize >= C || s >= 9 {
            proof {
                assert forall|l: Color, r: Color| !#[trigger] self.holds(((st, scan, l, r), k, s)) by {}
            }
            return false;
        }
        let mut l: usize = 0;
        while l < C
            invariant
                self.wf(),
                1 <= C <= 64,
                (st as int) < S,
                (scan as int) < C,
                1 <= k < C,
                s < 9,
                l <= C,
                forall|x: Color, y: Color| (x as int) < l ==> !(#[trigger] self.holds(((st, scan, x, y), k, s)) && fits(kl, x) && fits(kr, y)),
            decreases C - l,
        {
            let mut r: usize = 0;
            while r < C
                invariant
                    self.wf(),
                    1 <= C <= 64,
                    (st as int) < S,
                    (scan as int) < C,
                    1 <= k < C,
                    s < 9,
                    l < C,
                    r <= C,
                    forall|x: Color, y: Color| (x as int) < l ==> !(#[trigger] self.holds(((st, scan, x, y), k, s)) && fits(kl, x) && fits(kr, y)),
                    forall|y: Color| (y as int) < r ==> !(#[trigger] self.holds(((st, scan, l as u8, y), k, s)) && fits(kl, l as u8) && fits(kr, y)),
                decreases C - r,
            {
                let fl = match kl {
                    Some(x) => x == l as u8,
                    None => true,
                };
                let fr = match kr {
                    Some(x) => x == r as u8,
                    None => true,
                };
                if fl && fr && self.has(((st, scan, l as u8, r as u8), k, s)) {
                    return true;
                }
                r += 1;
            }
            proof {
                assert forall|x: Color, y: Color| (x as int) < l + 1 implies !(#[trigger] self.holds(((st, scan, x, y), k, s)) && fits(kl, x) && fits(kr, y)) by {
                    if x as int == l {
                        if self.holds(((st, scan, x, y), k, s)) {
                            self.lemma_holds_in(((st, scan, x, y), k, s));
                        }
                    }
                }
            }
            l += 1;
        }
        proof {
            assert forall|x: Color, y: Color| !(#[trigger] self.holds(((st, scan, x, y), k, s)) && fits(kl, x) && fits(kr, y)) by {
                if self.holds(((st, scan, x, y), k, s)) {
                    self.lemma_holds_in(((st, scan, x, y), k, s));
                }
            }
        }
        false
    }

    /// The counts of color `k` seen in the windows with the state, the
    /// scanned color and the known neighbors, as a mask: bit `s` for counts
    /// `s`.
    pub fn mask(&self, st: State, scan: Color, kl: Option<Color>, kr: Option<Color>, k: Color) -> (m: u64)
        requires
            self.wf(),
        ensures
            forall|j: int| 0 <= j < 9 ==> #[trigger] mask_bit(m, j) == self.seen(st, scan, kl, kr, k, j as u8),
            forall|j: int| 9 <= j < 64 ==> !#[trigger] mask_bit(m, j),
    {
        let mut m: u64 = 0;
        let mut s: u8 = 0;
        proof {
            assert forall|j: int| 0 <= j < 64 implies !#[trigger] mask_bit(m, j) by {
                lemma_or_bit(0, 0, j as u64);
            }
        }
        while s < 9
            invariant
                self.wf(),
                s <= 9,
                forall|j: int| 0 <= j < s ==> #[trigger] mask_bit(m, j) == self.seen(st, scan, kl, kr, k, j as u8),
                forall|j: int| s <= j < 64 ==> !#[trigger] mask_bit(m, j),
            decreases 9 - s,
        {
            let ghost m0 = m;
            if self.seen_of(st, scan, kl, kr, k, s) {
                m = m | (1u64 << s);
                proof {
                    assert forall|j: int| 0 <= j < 64 implies #[trigger] mask_bit(m, j) == (mask_bit(m0, j) || j == s) by {
                        lemma_or_bit(m0, s as u64, j as u64);
                    }
                }
            }
            s += 1;
        }
        m
    }
}

impl<const S: usize, const C: usize> PairTailPresencePossible<S, C> {
    /// Whether some window with the state, the scanned color and the known
    /// neighbors has status `s` for the pair `a`, `b`.
    pub open spec fn seen(&self, st: State, scan: Color, kl: Option<Color>, kr: Option<Color>, a: Color, b: Color, s: u8) -> bool {
        exists|l: Color, r: Color| #[trigger] self.holds(((st, scan, l, r), a, b, s)) && fits(kl, l) && fits(kr, r)
    }

    /// Whether some window with the state, the scanned color and the known
    /// neighbors has status `s` for the pair `a`, `b`, by a search.
    pub fn seen_of(&self, st: State, scan: Color, kl: Option<Color>, kr: Option<Color>, a: Color, b: Color, s: u8) -> (r: bool)
        requires
            self.wf(),
        ensures
            r == self.seen(st, scan, kl, kr, a, b, s),
    {
        proof {
            self.lemma_wf_sizes();
        }
        if st as usize >= S || scan as usize >= C || a == 0 || a >= b || b as usize >= C || s >= 16 {
            proof {
                assert forall|l: Color, r: Color| !#[trigger] self.holds(((st, scan, l, r), a, b, s)) by {}
            }
            return false;
        }
        let mut l: usize = 0;
        while l < C
            invariant
                self.wf(),
                1 <= C <= 64,
                (st as int) < S,
                (scan as int) < C,
                1 <= a < b < C,
                s < 16,
                l <= C,
                forall|x: Color, y: Color| (x as int) < l ==> !(#[trigger] self.holds(((st, scan, x, y), a, b, s)) && fits(kl, x) && fits(kr, y)),
            decreases C - l,
        {
            let mut r: usize = 0;
            while r < C
                invariant
                    self.wf(),
                    1 <= C <= 64,
                    (st as int) < S,
                    (scan as int) < C,
                    1 <= a < b < C,
                    s < 16,
                    l < C,
                    r <= C,
                    forall|x: Color, y: Color| (x as int) < l ==> !(#[trigger] self.holds(((st, scan, x, y), a, b, s)) && fits(kl, x) && fits(kr, y)),
                    forall|y: Color| (y as int) < r ==> !(#[trigger] self.holds(((st, scan, l as u8, y), a, b, s)) && fits(kl, l as u8) && fits(kr, y)),
                decreases C - r,
            {
                let fl = match kl {
                    Some(x) => x == l as u8,
                    None => true,
                };
                let fr = match kr {
                    Some(x) => x == r as u8,
                    None => true,
                };
                if fl && fr && self.has(((st, scan, l as u8, r as u8), a, b, s)) {
                    return true;
                }
                r += 1;
            }
            proof {
                assert forall|x: Color, y: Color| (x as int) < l + 1 implies !(#[trigger] self.holds(((st, scan, x, y), a, b, s)) && fits(kl, x) && fits(kr, y)) by {
                    if x as int == l {
                        if self.holds(((st, scan, x, y), a, b, s)) {
                            self.lemma_holds_in(((st, scan, x, y), a, b, s));
                        }
                    }
                }
            }
            l += 1;
        }
        proof {
            assert forall|x: Color, y: Color| !(#[trigger] self.holds(((st, scan, x, y), a, b, s)) && fits(kl, x) && fits(kr, y)) by {
                if self.holds(((st, scan, x, y), a, b, s)) {
                    self.lemma_holds_in(((st, scan, x, y), a, b, s));
                }
            }
        }
        false
    }

    /// The statuses of the pair `a`, `b` seen in the windows with the
    /// state, the scanned color and the known neighbors, as a mask.
    pub fn mask(&self, st: State, scan: Color, kl: Option<Color>, kr: Option<Color>, a: Color, b: Color) -> (m: u64)
        requires
            self.wf(),
        ensures
            forall|j: int| 0 <= j < 16 ==> #[trigger] mask_bit(m, j) == self.seen(st, scan, kl, kr, a, b, j as u8),
            forall|j: int| 16 <= j < 64 ==> !#[trigger] mask_bit(m, j),
    {
        let mut m: u64 = 0;
        let mut s: u8 = 0;
        proof {
            assert forall|j: int| 0 <= j < 64 implies !#[trigger] mask_bit(m, j) by {
                lemma_or_bit(0, 0, j as u64);
            }
        }
        while s < 16
            invariant
                self.wf(),
                s <= 16,
                forall|j: int| 0 <= j < s ==> #[trigger] mask_bit(m, j) == self.seen(st, scan, kl, kr, a, b, j as u8),
                forall|j: int| s <= j < 64 ==> !#[trigger] mask_bit(m, j),
            decreases 16 - s,
        {
            let ghost m0 = m;
            if self.seen_of(st, scan, kl, kr, a, b, s) {
                m = m | (1u64 << s);
                proof {
                    assert forall|j: int| 0 <= j < 64 implies #[trigger] mask_bit(m, j) == (mask_bit(m0, j) || j == s) by {
                        lemma_or_bit(m0, s as u64, j as u64);
                    }
                }
            }
            s += 1;
        }
        m
    }
}

/// The cells of color `k` that run `j` of a side (farthest first) surely
/// puts beyond the neighbor: its fewest cells, one fewer for the nearest
/// run, which holds the neighbor.
pub open spec fn run_share(bs: Seq<Block>, k: Color, j: int) -> int {
    if bs[j].color == k {
        let m = bs[j].count.min_spec() as int;
        if j == bs.len() - 1 {
            if m >= 1 { m - 1 } else { 0 }
        } else {
            m
        }
    } else {
        0
    }
}

/// The cells of color `k` that the runs from `lo` on surely put beyond
/// the neighbor.
pub open spec fn tail_sum(bs: Seq<Block>, k: Color, lo: int) -> int
    decreases bs.len() - lo,
{
    if lo < 0 || lo >= bs.len() {
        0
    } else {
        run_share(bs, k, lo) + tail_sum(bs, k, lo + 1)
    }
}

/// The cells of color `k` surely beyond the neighbor, capped at two.
pub open spec fn known_count(bs: Seq<Block>, k: Color) -> int {
    let t = tail_sum(bs, k, 0);
    if t < 2 { t } else { 2 }
}

/// Whether there may be more cells of color `k` beyond the neighbor than
/// surely are: the side ends unknown, or a run of `k` may be longer.
pub open spec fn count_varies(bs: Seq<Block>, end: TapeEnd, k: Color) -> bool {
    ||| end == TapeEnd::Unknown
    ||| exists|j: int| 0 <= j < bs.len() && (#[trigger] bs[j]).color == k && bs[j].count is AtLeast
}

/// Whether the side's description allows `n` (0, 1, or 2 for two or
/// more) cells of color `k` beyond the neighbor.
pub open spec fn count_may(bs: Seq<Block>, end: TapeEnd, k: Color, n: int) -> bool {
    let m = known_count(bs, k);
    if m == 2 {
        n == 2
    } else if count_varies(bs, end, k) {
        m <= n <= 2
    } else {
        n == m
    }
}

/// Whether the side's description allows every count of color `k`.
pub open spec fn count_open(bs: Seq<Block>, end: TapeEnd, k: Color) -> bool {
    known_count(bs, k) == 0 && count_varies(bs, end, k)
}

/// Whether the description allows presence `p` of color `k` beyond the
/// neighbor on a side (by the counts it allows).
pub open spec fn present_may(bs: Seq<Block>, end: TapeEnd, k: Color, p: bool) -> bool {
    if p {
        count_may(bs, end, k, 1) || count_may(bs, end, k, 2)
    } else {
        count_may(bs, end, k, 0)
    }
}

/// Whether the tape allows the presence status `st2` of color `k`: bit 0
/// for presence beyond the left neighbor, bit 1 beyond the right one.
pub open spec fn presence_fits(tape: Tape, k: Color, st2: int) -> bool {
    &&& present_may(tape.lspan.bs(), tape.lspan.end, k, st2 % 2 == 1)
    &&& present_may(tape.rspan.bs(), tape.rspan.end, k, st2 / 2 == 1)
}

/// Whether the tape says something of where color `k` occurs: it does not
/// allow all four presence statuses.
pub open spec fn presence_constrained(tape: Tape, k: Color) -> bool {
    !(presence_fits(tape, k, 0) && presence_fits(tape, k, 1) && presence_fits(tape, k, 2) && presence_fits(tape, k, 3))
}

impl<const S: usize, const C: usize> ColorTailCountPossible<S, C> {
    /// Whether color `k` passes: the tape allows every count of it on both
    /// sides, or some window with the tape's state, scanned color and known
    /// neighbors has counts of it that the tape allows.
    pub open spec fn color_count_ok(&self, state: State, tape: Tape, k: Color) -> bool {
        let kl = neighbor_color(tape.lspan.bs(), tape.lspan.end);
        let kr = neighbor_color(tape.rspan.bs(), tape.rspan.end);
        ||| count_open(tape.lspan.bs(), tape.lspan.end, k) && count_open(tape.rspan.bs(), tape.rspan.end, k)
        ||| exists|s: u8| s < 9 && count_may(tape.lspan.bs(), tape.lspan.end, k, s as int % 3) && count_may(
            tape.rspan.bs(),
            tape.rspan.end,
            k,
            s as int / 3,
        ) && #[trigger] self.seen(state, tape.scan, kl, kr, k, s)
    }

    /// Whether every nonblank color passes.
    pub open spec fn counts_ok(&self, state: State, tape: Tape) -> bool {
        forall|k: Color| 1 <= k < C ==> #[trigger] self.color_count_ok(state, tape, k)
    }
}

impl<const S: usize, const C: usize> PairTailPresencePossible<S, C> {
    /// Whether the pair `a`, `b` passes: some window with the tape's state,
    /// scanned color and known neighbors has a status of the pair that the
    /// tape's counts allow.
    pub open spec fn pair_fits(&self, state: State, tape: Tape, a: Color, b: Color) -> bool {
        let kl = neighbor_color(tape.lspan.bs(), tape.lspan.end);
        let kr = neighbor_color(tape.rspan.bs(), tape.rspan.end);
        exists|s: u8| s < 16 && presence_fits(tape, a, s as int % 4) && presence_fits(tape, b, s as int / 4) && #[trigger] self.seen(
            state,
            tape.scan,
            kl,
            kr,
            a,
            b,
            s,
        )
    }

    /// Whether every pair of nonblank colors that the tape says something
    /// of passes.
    pub open spec fn pairs_ok(&self, state: State, tape: Tape) -> bool {
        forall|a: Color, b: Color| 1 <= a < b < C && presence_constrained(tape, a) && presence_constrained(tape, b)
            ==> #[trigger] self.pair_fits(state, tape, a, b)
    }
}

/// The capped count of color `k` surely beyond the neighbor, and whether
/// there may be more.
fn side_counts(span: &Span, k: Color) -> (r: (u8, bool))
    ensures
        r.0 as int == known_count(span.bs(), k),
        r.1 == count_varies(span.bs(), span.end, k),
{
    let bs = &span.span.blocks;
    let n = bs.len();
    let mut acc: u8 = 0;
    let mut varies = false;
    let mut j: usize = n;
    while j > 0
        invariant
            bs@ == span.bs(),
            n == bs@.len(),
            j <= n,
            acc as int == (if tail_sum(bs@, k, j as int) < 2 { tail_sum(bs@, k, j as int) } else { 2 }),
            tail_sum(bs@, k, j as int) >= 0,
            varies == exists|x: int| j <= x < n && (#[trigger] bs@[x]).color == k && bs@[x].count is AtLeast,
        decreases j,
    {
        let i = j - 1;
        let b = bs[i];
        let share: u8 = if b.color == k {
            let m = b.count.minimum();
            if i == n - 1 {
                if m >= 1 { m - 1 } else { 0 }
            } else {
                m
            }
        } else {
            0
        };
        assert(share as int == run_share(bs@, k, i as int));
        let sum: u16 = acc as u16 + share as u16;
        acc = if sum < 2 { sum as u8 } else { 2 };
        if b.color == k && b.count.is_indef() {
            varies = true;
        }
        proof {
            assert(tail_sum(bs@, k, i as int) == run_share(bs@, k, i as int) + tail_sum(bs@, k, j as int));
            if varies {
                if b.color == k && b.count is AtLeast {
                    assert(bs@[i as int].color == k && bs@[i as int].count is AtLeast);
                }
            } else {
                assert(!(bs@[i as int].color == k && bs@[i as int].count is AtLeast));
            }
        }
        j = i;
    }
    (acc, varies || span.end == TapeEnd::Unknown)
}

/// Whether a side with capped known count `m`, which may have more where
/// `varies`, allows count `n`.
fn count_may_of(m: u8, varies: bool, n: u8) -> (r: bool)
    ensures
        r == (if m == 2 {
            n == 2
        } else if varies {
            m <= n <= 2
        } else {
            n == m
        }),
{
    if m == 2 {
        n == 2
    } else if varies {
        m <= n && n <= 2
    } else {
        n == m
    }
}

/// The counts of every color on both sides of a tape: for each color,
/// the capped known count and whether there may be more, left then right.
fn tape_counts<const C: usize>(tape: &Tape) -> (r: Vec<(u8, bool, u8, bool)>)
    requires
        C <= 256,
    ensures
        r@.len() == C,
        forall|k: int| #![trigger r@[k]] 0 <= k < C ==> {
            &&& r@[k].0 as int == known_count(tape.lspan.bs(), k as u8)
            &&& r@[k].1 == count_varies(tape.lspan.bs(), tape.lspan.end, k as u8)
            &&& r@[k].2 as int == known_count(tape.rspan.bs(), k as u8)
            &&& r@[k].3 == count_varies(tape.rspan.bs(), tape.rspan.end, k as u8)
        },
{
    let mut r: Vec<(u8, bool, u8, bool)> = Vec::new();
    let mut k: usize = 0;
    while k < C
        invariant
            C <= 256,
            k <= C,
            r@.len() == k,
            forall|x: int| #![trigger r@[x]] 0 <= x < k ==> {
                &&& r@[x].0 as int == known_count(tape.lspan.bs(), x as u8)
                &&& r@[x].1 == count_varies(tape.lspan.bs(), tape.lspan.end, x as u8)
                &&& r@[x].2 as int == known_count(tape.rspan.bs(), x as u8)
                &&& r@[x].3 == count_varies(tape.rspan.bs(), tape.rspan.end, x as u8)
            },
        decreases C - k,
    {
        let (ml, vl) = side_counts(&tape.lspan, k as u8);
        let (mr, vr) = side_counts(&tape.rspan, k as u8);
        r.push((ml, vl, mr, vr));
        k += 1;
    }
    r
}

impl Tape {
    /// Whether every nonblank color passes the count tables: the tape
    /// allows every count of it, or some window with the tape's state,
    /// scanned color and known neighbors has counts of it that the tape
    /// allows.
    pub fn obeys_color_tail_count<const S: usize, const C: usize>(&self, state: State, ct: &ColorTailCountPossible<S, C>) -> (r: bool)
        requires
            ct.wf(),
        ensures
            r == ct.counts_ok(state, *self),
    {
        proof {
            ct.lemma_wf_sizes();
        }
        let counts = tape_counts::<C>(self);
        let kl = self.left_neighbor_color();
        let kr = self.right_neighbor_color();
        let mut k: usize = 1;
        while k < C
            invariant
                ct.wf(),
                1 <= C <= 64,
                1 <= k <= C,
                counts@.len() == C,
                forall|x: int| #![trigger counts@[x]] 0 <= x < C ==> {
                    &&& counts@[x].0 as int == known_count(self.lspan.bs(), x as u8)
                    &&& counts@[x].1 == count_varies(self.lspan.bs(), self.lspan.end, x as u8)
                    &&& counts@[x].2 as int == known_count(self.rspan.bs(), x as u8)
                    &&& counts@[x].3 == count_varies(self.rspan.bs(), self.rspan.end, x as u8)
                },
                kl == neighbor_color(self.lspan.bs(), self.lspan.end),
                kr == neighbor_color(self.rspan.bs(), self.rspan.end),
                forall|x: Color| 1 <= x < k ==> #[trigger] ct.color_count_ok(state, *self, x),
            decreases C - k,
        {
            let (ml, vl, mr, vr) = counts[k];
            let kc = k as Color;
            assert(counts@[k as int] == (ml, vl, mr, vr));
            if !(ml == 0 && vl && mr == 0 && vr) {
                let mut s: u8 = 0;
                let mut found = false;
                while s < 9 && !found
                    invariant
                        ct.wf(),
                        s <= 9,
                        ml as int == known_count(self.lspan.bs(), kc),
                        vl == count_varies(self.lspan.bs(), self.lspan.end, kc),
                        mr as int == known_count(self.rspan.bs(), kc),
                        vr == count_varies(self.rspan.bs(), self.rspan.end, kc),
                        kl == neighbor_color(self.lspan.bs(), self.lspan.end),
                        kr == neighbor_color(self.rspan.bs(), self.rspan.end),
                        found ==> ct.color_count_ok(state, *self, kc),
                        !found ==> forall|x: u8| x < s ==> !(count_may(self.lspan.bs(), self.lspan.end, kc, x as int % 3) && count_may(
                            self.rspan.bs(),
                            self.rspan.end,
                            kc,
                            x as int / 3,
                        ) && #[trigger] ct.seen(state, self.scan, kl, kr, kc, x)),
                    decreases (9 - s) as int + (if found { 0int } else { 1int }),
                {
                    if count_may_of(ml, vl, s % 3) && count_may_of(mr, vr, s / 3) && ct.seen_of(state, self.scan, kl, kr, kc, s) {
                        found = true;
                    } else {
                        s += 1;
                    }
                }
                if !found {
                    proof {
                        assert(!(count_open(self.lspan.bs(), self.lspan.end, kc) && count_open(self.rspan.bs(), self.rspan.end, kc)));
                        assert(!ct.color_count_ok(state, *self, kc));
                    }
                    return false;
                }
            }
            k += 1;
        }
        true
    }
}

/// Whether a side with capped known count `m`, which may have more where
/// `varies`, allows presence `p`.
fn present_may_of(m: u8, varies: bool, p: bool) -> (r: bool)
    ensures
        r == (if p {
            (if m == 2 { 1u8 == 2 } else if varies { m <= 1 <= 2 } else { 1u8 == m }) || (if m == 2 {
                2u8 == 2
            } else if varies {
                m <= 2 <= 2
            } else {
                2u8 == m
            })
        } else {
            if m == 2 { 0u8 == 2 } else if varies { m <= 0 } else { 0u8 == m }
        }),
{
    if p {
        count_may_of(m, varies, 1) || count_may_of(m, varies, 2)
    } else {
        count_may_of(m, varies, 0)
    }
}

/// Whether the counts `c` of a color (left then right) allow presence
/// status `st2`.
fn presence_fits_of(c: (u8, bool, u8, bool), st2: u8) -> (r: bool)
    ensures
        forall|tape: Tape, k: Color| #![trigger presence_fits(tape, k, st2 as int)] c.0 as int == known_count(tape.lspan.bs(), k)
            && c.1 == count_varies(tape.lspan.bs(), tape.lspan.end, k) && c.2 as int == known_count(tape.rspan.bs(), k)
            && c.3 == count_varies(tape.rspan.bs(), tape.rspan.end, k) ==> r == presence_fits(tape, k, st2 as int),
{
    present_may_of(c.0, c.1, st2 % 2 == 1) && present_may_of(c.2, c.3, st2 / 2 == 1)
}

/// Whether the counts `c` of a color leave some presence status out.
fn presence_constrained_of(c: (u8, bool, u8, bool)) -> (r: bool)
    ensures
        forall|tape: Tape, k: Color| #![trigger presence_constrained(tape, k)] c.0 as int == known_count(tape.lspan.bs(), k)
            && c.1 == count_varies(tape.lspan.bs(), tape.lspan.end, k) && c.2 as int == known_count(tape.rspan.bs(), k)
            && c.3 == count_varies(tape.rspan.bs(), tape.rspan.end, k) ==> r == presence_constrained(tape, k),
{
    let a = presence_fits_of(c, 0);
    let b = presence_fits_of(c, 1);
    let d = presence_fits_of(c, 2);
    let e = presence_fits_of(c, 3);
    proof {
        assert forall|tape: Tape, k: Color| #![trigger presence_constrained(tape, k)] c.0 as int == known_count(tape.lspan.bs(), k)
            && c.1 == count_varies(tape.lspan.bs(), tape.lspan.end, k) && c.2 as int == known_count(tape.rspan.bs(), k)
            && c.3 == count_varies(tape.rspan.bs(), tape.rspan.end, k) implies !(a && b && d && e) == presence_constrained(tape, k) by {
            assert(a == presence_fits(tape, k, 0));
            assert(b == presence_fits(tape, k, 1));
            assert(d == presence_fits(tape, k, 2));
            assert(e == presence_fits(tape, k, 3));
        }
    }
    !(a && b && d && e)
}

impl Tape {
    /// Whether the tape passes the count tables (see
    /// `obeys_color_tail_count`) and, for every pair of nonblank colors
    /// whose presence the tape's counts constrain, some window with the
    /// tape's state, scanned color and known neighbors has a status of the
    /// pair that they allow.
    pub fn obeys_tail_presence<const S: usize, const C: usize>(
        &self,
        state: State,
        ct: &ColorTailCountPossible<S, C>,
        pt: &PairTailPresencePossible<S, C>,
    ) -> (r: bool)
        requires
            ct.wf(),
            pt.wf(),
        ensures
            r == (ct.counts_ok(state, *self) && pt.pairs_ok(state, *self)),
    {
        proof {
            pt.lemma_wf_sizes();
        }
        if !self.obeys_color_tail_count(state, ct) {
            return false;
        }
        let counts = tape_counts::<C>(self);
        let kl = self.left_neighbor_color();
        let kr = self.right_neighbor_color();
        let mut a: usize = 1;
        while a < C
            invariant
                pt.wf(),
                1 <= C <= 64,
                1 <= a <= C,
                counts@.len() == C,
                forall|x: int| #![trigger counts@[x]] 0 <= x < C ==> {
                    &&& counts@[x].0 as int == known_count(self.lspan.bs(), x as u8)
                    &&& counts@[x].1 == count_varies(self.lspan.bs(), self.lspan.end, x as u8)
                    &&& counts@[x].2 as int == known_count(self.rspan.bs(), x as u8)
                    &&& counts@[x].3 == count_varies(self.rspan.bs(), self.rspan.end, x as u8)
                },
                kl == neighbor_color(self.lspan.bs(), self.lspan.end),
                kr == neighbor_color(self.rspan.bs(), self.rspan.end),
                ct.counts_ok(state, *self),
                forall|x: Color, y: Color| 1 <= x < y < C && x < a && presence_constrained(*self, x) && presence_constrained(*self, y)
                    ==> #[trigger] pt.pair_fits(state, *self, x, y),
            decreases C - a,
        {
            let ca = counts[a];
            let ac = a as Color;
            assert(counts@[a as int] == ca);
            let ka = presence_constrained_of(ca);
            assert(ka == presence_constrained(*self, ac));
            if ka {
                let mut b: usize = a + 1;
                while b < C
                    invariant
                        pt.wf(),
                        1 <= C <= 64,
                        1 <= a < C,
                        a + 1 <= b <= C,
                        ac == a as Color,
                        counts@.len() == C,
                        forall|x: int| #![trigger counts@[x]] 0 <= x < C ==> {
                            &&& counts@[x].0 as int == known_count(self.lspan.bs(), x as u8)
                            &&& counts@[x].1 == count_varies(self.lspan.bs(), self.lspan.end, x as u8)
                            &&& counts@[x].2 as int == known_count(self.rspan.bs(), x as u8)
                            &&& counts@[x].3 == count_varies(self.rspan.bs(), self.rspan.end, x as u8)
                        },
                        ca == counts@[a as int],
                        presence_constrained(*self, ac),
                        kl == neighbor_color(self.lspan.bs(), self.lspan.end),
                        kr == neighbor_color(self.rspan.bs(), self.rspan.end),
                        forall|y: Color| a < y < b && presence_constrained(*self, y) ==> #[trigger] pt.pair_fits(state, *self, ac, y),
                    decreases C - b,
                {
                    let cb = counts[b];
                    let bc = b as Color;
                    assert(counts@[b as int] == cb);
                    let kb = presence_constrained_of(cb);
                    assert(kb == presence_constrained(*self, bc));
                    if kb {
                        let mut s: u8 = 0;
                        let mut found = false;
                        while s < 16 && !found
                            invariant
                                pt.wf(),
                                s <= 16,
                                ac == a as Color,
                                bc == b as Color,
                                1 <= a < b < C,
                                ca.0 as int == known_count(self.lspan.bs(), ac),
                                ca.1 == count_varies(self.lspan.bs(), self.lspan.end, ac),
                                ca.2 as int == known_count(self.rspan.bs(), ac),
                                ca.3 == count_varies(self.rspan.bs(), self.rspan.end, ac),
                                cb.0 as int == known_count(self.lspan.bs(), bc),
                                cb.1 == count_varies(self.lspan.bs(), self.lspan.end, bc),
                                cb.2 as int == known_count(self.rspan.bs(), bc),
                                cb.3 == count_varies(self.rspan.bs(), self.rspan.end, bc),
                                kl == neighbor_color(self.lspan.bs(), self.lspan.end),
                                kr == neighbor_color(self.rspan.bs(), self.rspan.end),
                                presence_constrained(*self, ac),
                                presence_constrained(*self, bc),
                                found ==> pt.pair_fits(state, *self, ac, bc),
                                !found ==> forall|x: u8| x < s ==> !(presence_fits(*self, ac, x as int % 4) && presence_fits(*self, bc, x as int / 4)
                                    && #[trigger] pt.seen(state, self.scan, kl, kr, ac, bc, x)),
                            decreases (16 - s) as int + (if found { 0int } else { 1int }),
                        {
                            let fa = presence_fits_of(ca, s % 4);
                            let fb = presence_fits_of(cb, s / 4);
                            assert(fa == presence_fits(*self, ac, (s % 4) as int));
                            assert(fb == presence_fits(*self, bc, (s / 4) as int));
                            if fa && fb && pt.seen_of(state, self.scan, kl, kr, ac, bc, s) {
                                found = true;
                            } else {
                                s += 1;
                            }
                        }
                        if !found {
                            proof {
                                assert(presence_constrained(*self, ac));
                                assert(presence_constrained(*self, bc));
                                assert(!pt.pair_fits(state, *self, ac, bc));
                                assert(!pt.pairs_ok(state, *self));
                            }
                            return false;
                        }
                    }
                    b += 1;
                }
            }
            a += 1;
        }
        true
    }
}

/// What a side's description says of whether a color occurs beyond the
/// neighbor.
#[derive(Clone, Copy, Debug, PartialEq, Eq, Structural)]
pub enum RequiredPresence {
    Absent,
    Present,
    Unknown,
}

/// Whether color `k` occurs beyond the neighbor, as the side's runs say:
/// surely where a farther run has it or the nearest run has it more than
/// once; possibly where the side ends unknown or the nearest run of it may
/// be longer; else not.
pub open spec fn required_presence(bs: Seq<Block>, end: TapeEnd, k: Color) -> RequiredPresence {
    let near_k = bs.len() > 0 && bs.last().color == k;
    if (near_k && bs.last().count.min_spec() > 1) || (exists|j: int| 0 <= j < bs.len() - 1 && (#[trigger] bs[j]).color == k) {
        RequiredPresence::Present
    } else if end == TapeEnd::Unknown || (near_k && bs.last().count is AtLeast) {
        RequiredPresence::Unknown
    } else {
        RequiredPresence::Absent
    }
}

/// Whether a requirement allows presence `present`.
pub open spec fn presence_allows(p: RequiredPresence, present: bool) -> bool {
    match p {
        RequiredPresence::Absent => !present,
        RequiredPresence::Present => present,
        RequiredPresence::Unknown => true,
    }
}

/// Whether the tape's requirements allow the presence status `st2` of
/// color `k` (bit 0 left, bit 1 right).
pub open spec fn required_fits(tape: Tape, k: Color, st2: int) -> bool {
    &&& presence_allows(required_presence(tape.lspan.bs(), tape.lspan.end, k), st2 % 2 == 1)
    &&& presence_allows(required_presence(tape.rspan.bs(), tape.rspan.end, k), st2 / 2 == 1)
}

/// Whether the tape requires something of where color `k` occurs.
pub open spec fn required_constrained(tape: Tape, k: Color) -> bool {
    !(required_presence(tape.lspan.bs(), tape.lspan.end, k) == RequiredPresence::Unknown && required_presence(
        tape.rspan.bs(),
        tape.rspan.end,
        k,
    ) == RequiredPresence::Unknown)
}

impl<const S: usize, const C: usize> PairTailPresencePossible<S, C> {
    /// Whether some window with the tape's state, scanned color and known
    /// neighbors has a status of the pair `a`, `b` that the tape's
    /// requirements allow.
    pub open spec fn pair_required_fits(&self, state: State, tape: Tape, a: Color, b: Color) -> bool {
        let kl = neighbor_color(tape.lspan.bs(), tape.lspan.end);
        let kr = neighbor_color(tape.rspan.bs(), tape.rspan.end);
        exists|s: u8| s < 16 && required_fits(tape, a, s as int % 4) && required_fits(tape, b, s as int / 4) && #[trigger] self.seen(
            state,
            tape.scan,
            kl,
            kr,
            a,
            b,
            s,
        )
    }

    /// Whether every pair of nonblank colors that the tape requires
    /// something of passes.
    pub open spec fn required_pairs_ok(&self, state: State, tape: Tape) -> bool {
        forall|a: Color, b: Color| 1 <= a < b < C && required_constrained(tape, a) && required_constrained(tape, b)
            ==> #[trigger] self.pair_required_fits(state, tape, a, b)
    }
}

/// The requirement of `required_presence`.
fn required_presence_of(span: &Span, k: Color) -> (r: RequiredPresence)
    ensures
        r == required_presence(span.bs(), span.end, k),
{
    let bs = &span.span.blocks;
    let n = bs.len();
    let near_k = n > 0 && bs[n - 1].color == k;
    if near_k && bs[n - 1].count.minimum() > 1 {
        return RequiredPresence::Present;
    }
    let mut j: usize = 0;
    while j < n && j + 1 < n
        invariant
            bs@ == span.bs(),
            n == bs@.len(),
            j <= n,
            forall|x: int| 0 <= x < j && x < n - 1 ==> (#[trigger] bs@[x]).color != k,
        decreases n - j,
    {
        if bs[j].color == k {
            assert(0 <= j < n - 1 && bs@[j as int].color == k);
            return RequiredPresence::Present;
        }
        j += 1;
    }
    if span.end == TapeEnd::Unknown || (near_k && bs[n - 1].count.is_indef()) {
        RequiredPresence::Unknown
    } else {
        RequiredPresence::Absent
    }
}

fn presence_allows_of(p: RequiredPresence, present: bool) -> (r: bool)
    ensures
        r == presence_allows(p, present),
{
    match p {
        RequiredPresence::Absent => !present,
        RequiredPresence::Present => present,
        RequiredPresence::Unknown => true,
    }
}

impl Tape {
    /// Whether, for every pair of nonblank colors that the tape requires
    /// something of (where it surely has or surely lacks one beyond a
    /// neighbor), some window with the tape's state, scanned color and
    /// known neighbors has a status of the pair that the requirements allow.
    pub fn obeys_pair_tail_presence<const S: usize, const C: usize>(&self, state: State, pt: &PairTailPresencePossible<S, C>) -> (r: bool)
        requires
            pt.wf(),
        ensures
            r == pt.required_pairs_ok(state, *self),
    {
        proof {
            pt.lemma_wf_sizes();
        }
        let mut reqs: Vec<(RequiredPresence, RequiredPresence)> = Vec::new();
        let mut k: usize = 0;
        while k < C
            invariant
                1 <= C <= 64,
                k <= C,
                reqs@.len() == k,
                forall|x: int| #![trigger reqs@[x]] 0 <= x < k ==> reqs@[x] == (
                    required_presence(self.lspan.bs(), self.lspan.end, x as u8),
                    required_presence(self.rspan.bs(), self.rspan.end, x as u8),
                ),
            decreases C - k,
        {
            reqs.push((required_presence_of(&self.lspan, k as u8), required_presence_of(&self.rspan, k as u8)));
            k += 1;
        }
        let kl = self.left_neighbor_color();
        let kr = self.right_neighbor_color();
        let mut a: usize = 1;
        while a < C
            invariant
                pt.wf(),
                1 <= C <= 64,
                1 <= a <= C,
                reqs@.len() == C,
                forall|x: int| #![trigger reqs@[x]] 0 <= x < C ==> reqs@[x] == (
                    required_presence(self.lspan.bs(), self.lspan.end, x as u8),
                    required_presence(self.rspan.bs(), self.rspan.end, x as u8),
                ),
                kl == neighbor_color(self.lspan.bs(), self.lspan.end),
                kr == neighbor_color(self.rspan.bs(), self.rspan.end),
                forall|x: Color, y: Color| 1 <= x < y < C && x < a && required_constrained(*self, x) && required_constrained(*self, y)
                    ==> #[trigger] pt.pair_required_fits(state, *self, x, y),
            decreases C - a,
        {
            let ra = reqs[a];
            let ac = a as Color;
            assert(reqs@[a as int] == ra);
            let ka = !(ra.0 == RequiredPresence::Unknown && ra.1 == RequiredPresence::Unknown);
            if ka {
                let mut b: usize = a + 1;
                while b < C
                    invariant
                        pt.wf(),
                        1 <= C <= 64,
                        1 <= a < C,
                        a + 1 <= b <= C,
                        ac == a as Color,
                        reqs@.len() == C,
                        forall|x: int| #![trigger reqs@[x]] 0 <= x < C ==> reqs@[x] == (
                            required_presence(self.lspan.bs(), self.lspan.end, x as u8),
                            required_presence(self.rspan.bs(), self.rspan.end, x as u8),
                        ),
                        ra == reqs@[a as int],
                        required_constrained(*self, ac),
                        kl == neighbor_color(self.lspan.bs(), self.lspan.end),
                        kr == neighbor_color(self.rspan.bs(), self.rspan.end),
                        forall|y: Color| a < y < b && required_constrained(*self, y) ==> #[trigger] pt.pair_required_fits(state, *self, ac, y),
                    decreases C - b,
                {
                    let rb = reqs[b];
                    let bc = b as Color;
                    assert(reqs@[b as int] == rb);
                    if !(rb.0 == RequiredPresence::Unknown && rb.1 == RequiredPresence::Unknown) {
                        let mut s: u8 = 0;
                        let mut found = false;
                        while s < 16 && !found
                            invariant
                                pt.wf(),
                                s <= 16,
                                ac == a as Color,
                                bc == b as Color,
                                1 <= a < b < C,
                                ra == (required_presence(self.lspan.bs(), self.lspan.end, ac), required_presence(self.rspan.bs(), self.rspan.end, ac)),
                                rb == (required_presence(self.lspan.bs(), self.lspan.end, bc), required_presence(self.rspan.bs(), self.rspan.end, bc)),
                                required_constrained(*self, ac),
                                required_constrained(*self, bc),
                                kl == neighbor_color(self.lspan.bs(), self.lspan.end),
                                kr == neighbor_color(self.rspan.bs(), self.rspan.end),
                                found ==> pt.pair_required_fits(state, *self, ac, bc),
                                !found ==> forall|x: u8| x < s ==> !(required_fits(*self, ac, x as int % 4) && required_fits(*self, bc, x as int / 4)
                                    && #[trigger] pt.seen(state, self.scan, kl, kr, ac, bc, x)),
                            decreases (16 - s) as int + (if found { 0int } else { 1int }),
                        {
                            let sa = s % 4;
                            let sb = s / 4;
                            let fa = presence_allows_of(ra.0, sa % 2 == 1) && presence_allows_of(ra.1, sa / 2 == 1);
                            let fb = presence_allows_of(rb.0, sb % 2 == 1) && presence_allows_of(rb.1, sb / 2 == 1);
                            assert(fa == required_fits(*self, ac, (s % 4) as int));
                            assert(fb == required_fits(*self, bc, (s / 4) as int));
                            if fa && fb && pt.seen_of(state, self.scan, kl, kr, ac, bc, s) {
                                found = true;
                            } else {
                                s += 1;
                            }
                        }
                        if !found {
                            proof {
                                assert(!pt.pair_required_fits(state, *self, ac, bc));
                            }
                            return false;
                        }
                    }
                    b += 1;
                }
            }
            a += 1;
        }
        true
    }
}

} // verus!
