//! Whether each whole side of the tape is blank or dirty, carried through
//! the windows that occur on runs from the blank tape.
//!
//! A fact is a window (state, left neighbor, scanned color, right
//! neighbor) with, for each side, whether everything on that side beyond
//! the head is blank; a side that is not blank is dirty: it holds some
//! nonblank cell. A step brings in a new neighbor on the side it moves to.
//! Moving into a blank side leaves it blank and brings in a blank; moving
//! into a dirty side whose near cell is blank leaves it dirty; moving into
//! a dirty side whose near cell is nonblank leaves it dirty, or blank where
//! the new neighbor is blank. The side moved away from stays blank only if
//! it was and the printed color is blank. Only windows that the window
//! tables allow are kept, and a blank side must have a blank neighbor.
use vstd::prelude::*;

use crate::bkw::sides::{idx2, lemma_idx2, lemma_idx2_inj, lemma_qid, mask_bit, qid, quad_total, window_ok};
use crate::bkw::tape::{Block, Span, Tape, TapeEnd, neighbor_color};
use crate::bkw::tails::{falses, fits, grows, lemma_grows_refl, lemma_grows_trans};
use crate::bkw::windows::{WinPossible, count_false, lemma_count_update, want_all};
use crate::instrs::{Color, Instr, Shift, State};
use crate::prog::Prog;

verus! {

/// A fact: state, left neighbor, scanned color, right neighbor, whether
/// the left side is blank, whether the right side is blank.
pub type JFact = (State, Color, Color, Color, bool, bool);

/// A fact whose window is in range.
pub open spec fn jfact_in(f: JFact, states: int, colors: int) -> bool {
    f.0 < states && f.1 < colors && f.2 < colors && f.3 < colors
}

/// The code of two side statuses: 1 for a blank left side plus 2 for a
/// blank right side.
pub open spec fn flags_code(lb: bool, rb: bool) -> int {
    (if lb { 1int } else { 0int }) + (if rb { 2int } else { 0int })
}

/// The position of a fact in its table.
pub open spec fn jpos(f: JFact, colors: int) -> int {
    idx2(qid((f.0, f.2, f.1, f.3), colors), flags_code(f.4, f.5), 4)
}

proof fn lemma_jpos(f: JFact, g: JFact, states: int, colors: int)
    requires
        jfact_in(f, states, colors),
        jfact_in(g, states, colors),
    ensures
        0 <= jpos(f, colors) < quad_total(states, colors) * 4,
        jpos(f, colors) == jpos(g, colors) ==> f == g,
{
    let qf = (f.0, f.2, f.1, f.3);
    let qg = (g.0, g.2, g.1, g.3);
    lemma_qid(qf, qg, states, colors);
    lemma_idx2(qid(qf, colors), flags_code(f.4, f.5), quad_total(states, colors), 4);
    if jpos(f, colors) == jpos(g, colors) {
        lemma_idx2_inj(qid(qf, colors), flags_code(f.4, f.5), qid(qg, colors), flags_code(g.4, g.5), 4);
    }
}

/// The fact a step by `i` from `f` gives, where `c` is the neighbor brought
/// in on the side moved into and `nb` whether that side is blank beyond it.
pub open spec fn jtarget(f: JFact, i: Instr, c: Color, nb: bool) -> JFact {
    if i.1 {
        (i.2, i.0, f.3, c, f.4 && i.0 == 0, nb)
    } else {
        (i.2, c, f.1, i.0, nb, f.5 && i.0 == 0)
    }
}

/// Whether the side moved into (right when `push`) may be left with status
/// `nb` and new neighbor `c`.
pub open spec fn jflag_ok(f: JFact, push: Shift, c: Color, nb: bool) -> bool {
    let blank = if push { f.5 } else { f.4 };
    let near = if push { f.3 } else { f.1 };
    if blank {
        c == 0 && nb
    } else if near == 0 {
        !nb
    } else {
        !nb || c == 0
    }
}

/// The start: state 0 on an all-blank tape.
pub open spec fn joint_init() -> JFact {
    (0, 0, 0, 0, true, true)
}

impl<const S: usize, const C: usize> Prog<S, C> {
    /// Whether a fact may be kept: a blank side has a blank neighbor, and
    /// the window tables allow the window.
    pub open spec fn jadmit(&self, v: Seq<bool>, g: JFact) -> bool {
        &&& jfact_in(g, S as int, C as int)
        &&& (g.4 ==> g.1 == 0)
        &&& (g.5 ==> g.3 == 0)
        &&& window_ok(v, (g.0, g.2, g.1, g.3), C as int)
    }

    /// Whether a step from `f` gives `g`.
    pub open spec fn joint_next(&self, v: Seq<bool>, f: JFact, g: JFact) -> bool {
        &&& jfact_in(f, S as int, C as int)
        &&& match self.instr_at(f.0 as int, f.2 as int) {
            Some(i) => {
                let c = if i.1 { g.3 } else { g.1 };
                let nb = if i.1 { g.5 } else { g.4 };
                g == jtarget(f, i, c, nb) && jflag_ok(f, i.1, c, nb)
            },
            None => false,
        }
        &&& self.jadmit(v, g)
    }

    /// Whether a set of facts holds the start (where it may be kept) and
    /// is closed under steps.
    pub open spec fn joint_closed(&self, v: Seq<bool>, set: spec_fn(JFact) -> bool) -> bool {
        &&& self.jadmit(v, joint_init()) ==> set(joint_init())
        &&& forall|f: JFact, g: JFact| #[trigger] self.joint_next(v, f, g) ==> (set(f) ==> set(g))
    }

    /// Whether a fact holds on runs from the blank tape: it is in every
    /// closed set.
    pub open spec fn joint_reach(&self, v: Seq<bool>, f: JFact) -> bool {
        forall|set: spec_fn(JFact) -> bool| #[trigger] self.joint_closed(v, set) ==> set(f)
    }

    /// Whether a set holds every fact that a step from `f` gives.
    pub open spec fn joint_done(&self, v: Seq<bool>, set: spec_fn(JFact) -> bool, f: JFact) -> bool {
        forall|g: JFact| #[trigger] self.joint_next(v, f, g) ==> set(g)
    }
}

proof fn lemma_joint_size(states: int, colors: int)
    requires
        states >= 1,
        colors >= 1,
    ensures
        states * colors <= states * colors * colors <= states * colors * colors * colors,
        quad_total(states, colors) * 4 <= quad_total(states, colors) * colors * colors * 16,
        quad_total(states, colors) <= quad_total(states, colors) * 4,
{
    assert(states * colors <= states * colors * colors <= states * colors * colors * colors) by (nonlinear_arith)
        requires
            states >= 1,
            colors >= 1,
    ;
    let t = quad_total(states, colors);
    assert(t >= 1) by (nonlinear_arith)
        requires
            states >= 1,
            colors >= 1,
            t == states * colors * colors * colors,
    ;
    assert(t * 4 <= t * colors * colors * 16) by (nonlinear_arith)
        requires
            t >= 1,
            colors >= 1,
    ;
}

/// The blank and dirty side statuses of the windows that occur: one entry
/// per fact.
pub struct JointBlankPossible<const S: usize, const C: usize> {
    table: Vec<bool>,
}

impl<const S: usize, const C: usize> JointBlankPossible<S, C> {
    /// The table has one entry per fact.
    pub closed spec fn wf(&self) -> bool {
        &&& S >= 1
        &&& 1 <= C <= 64
        &&& Prog::<S, C>::tails_fit()
        &&& self.table@.len() == quad_total(S as int, C as int) * 4
    }

    /// Whether the table holds a fact (in range).
    pub closed spec fn holds(&self, f: JFact) -> bool {
        &&& jfact_in(f, S as int, C as int)
        &&& self.table@[jpos(f, C as int)]
    }

    /// The facts that the table holds.
    pub open spec fn facts(&self) -> spec_fn(JFact) -> bool {
        |f: JFact| self.holds(f)
    }

    /// The number of facts missing from the table.
    pub closed spec fn absent(&self) -> nat {
        count_false(self.table@)
    }

    pub proof fn lemma_holds_in(&self, f: JFact)
        requires
            self.holds(f),
        ensures
            jfact_in(f, S as int, C as int),
    {
    }

    fn new() -> (r: Self)
        requires
            S >= 1,
            1 <= C <= 64,
            Prog::<S, C>::tails_fit(),
        ensures
            r.wf(),
            forall|f: JFact| !r.holds(f),
    {
        proof {
            lemma_joint_size(S as int, C as int);
        }
        let r = JointBlankPossible { table: falses(S * C * C * C * 4) };
        proof {
            assert forall|f: JFact| !r.holds(f) by {
                if jfact_in(f, S as int, C as int) {
                    lemma_jpos(f, f, S as int, C as int);
                }
            }
        }
        r
    }

    fn pos_of(&self, f: JFact) -> (r: usize)
        requires
            self.wf(),
            jfact_in(f, S as int, C as int),
        ensures
            r == jpos(f, C as int),
            r < self.table@.len(),
    {
        proof {
            lemma_jpos(f, f, S as int, C as int);
            lemma_joint_size(S as int, C as int);
            lemma_idx2(f.0 as int, f.2 as int, S as int, C as int);
            lemma_idx2(idx2(f.0 as int, f.2 as int, C as int), f.1 as int, S * C, C as int);
            lemma_idx2(idx2(idx2(f.0 as int, f.2 as int, C as int), f.1 as int, C as int), f.3 as int, S * C * C, C as int);
        }
        let code: usize = (if f.4 { 1usize } else { 0usize }) + (if f.5 { 2usize } else { 0usize });
        (((f.0 as usize * C + f.2 as usize) * C + f.1 as usize) * C + f.3 as usize) * 4 + code
    }

    /// Whether the table holds a fact in range.
    pub fn has(&self, f: JFact) -> (r: bool)
        requires
            self.wf(),
            jfact_in(f, S as int, C as int),
        ensures
            r == self.holds(f),
    {
        self.table[self.pos_of(f)]
    }

    /// Adds a fact, and pushes it onto the stack if it is new.
    fn insert_push(&mut self, stack: &mut Vec<JFact>, f: JFact)
        requires
            old(self).wf(),
            jfact_in(f, S as int, C as int),
        ensures
            final(self).wf(),
            final(self).holds(f),
            forall|h: JFact| #[trigger] final(self).holds(h) ==> old(self).holds(h) || h == f,
            grows(old(self).facts(), final(self).facts(), old(self).absent(), final(self).absent(), old(stack)@, final(stack)@),
    {
        let ghost s0 = stack@;
        let pos = self.pos_of(f);
        if self.table[pos] {
            proof {
                lemma_grows_refl(self.facts(), self.absent(), s0);
            }
            return;
        }
        proof {
            lemma_count_update(self.table@, pos as int);
        }
        self.table.set(pos, true);
        stack.push(f);
        proof {
            assert forall|g: JFact| #[trigger] self.holds(g) == (old(self).holds(g) || g == f) by {
                if jfact_in(g, S as int, C as int) {
                    lemma_jpos(g, f, S as int, C as int);
                }
            }
            assert(stack@[s0.len() as int] == f);
            assert(stack@.subrange(0, s0.len() as int) =~= s0);
            assert forall|g: JFact| #[trigger] self.facts()(g) && !old(self).facts()(g) implies stack@.contains(g) by {
                assert(g == f);
            }
        }
    }

    /// The statuses held for one window, as a mask: bit `flags_code` for
    /// each held pair of side statuses.
    pub open spec fn status_mask(&self, st: State, left: Color, scan: Color, right: Color) -> int {
        (if self.holds((st, left, scan, right, false, false)) { 1int } else { 0int })
            + (if self.holds((st, left, scan, right, true, false)) { 2int } else { 0int })
            + (if self.holds((st, left, scan, right, false, true)) { 4int } else { 0int })
            + (if self.holds((st, left, scan, right, true, true)) { 8int } else { 0int })
    }

    /// Whether some window with the state and scanned color has the side
    /// statuses.
    pub open spec fn seen(&self, st: State, scan: Color, lb: bool, rb: bool) -> bool {
        exists|l: Color, r: Color| #[trigger] self.holds((st, l, scan, r, lb, rb))
    }

    /// The statuses held for the state and scanned color over all windows,
    /// as a mask: bit `flags_code` for each pair of side statuses seen.
    pub open spec fn any_mask(&self, st: State, scan: Color) -> int {
        (if self.seen(st, scan, false, false) { 1int } else { 0int })
            + (if self.seen(st, scan, true, false) { 2int } else { 0int })
            + (if self.seen(st, scan, false, true) { 4int } else { 0int })
            + (if self.seen(st, scan, true, true) { 8int } else { 0int })
    }

    /// The statuses held for one window, as a mask.
    pub fn window_mask(&self, st: usize, scan: usize, left: usize, right: usize) -> (m: u8)
        requires
            self.wf(),
            st < S,
            scan < C,
            left < C,
            right < C,
        ensures
            m == self.status_mask(st as State, left as Color, scan as Color, right as Color),
    {
        let (s, l, c, r) = (st as State, left as Color, scan as Color, right as Color);
        let a: u8 = if self.has((s, l, c, r, false, false)) { 1 } else { 0 };
        let b: u8 = if self.has((s, l, c, r, true, false)) { 2 } else { 0 };
        let d: u8 = if self.has((s, l, c, r, false, true)) { 4 } else { 0 };
        let e: u8 = if self.has((s, l, c, r, true, true)) { 8 } else { 0 };
        a + b + d + e
    }

    /// Whether some window with the state and scanned color has the side
    /// statuses, by a search.
    fn seen_of(&self, st: State, scan: Color, lb: bool, rb: bool) -> (r: bool)
        requires
            self.wf(),
            (st as int) < S,
            (scan as int) < C,
        ensures
            r == self.seen(st, scan, lb, rb),
    {
        let mut l: usize = 0;
        while l < C
            invariant
                self.wf(),
                (st as int) < S,
                (scan as int) < C,
                l <= C,
                forall|x: Color, y: Color| (x as int) < l ==> !#[trigger] self.holds((st, x, scan, y, lb, rb)),
            decreases C - l,
        {
            let mut r: usize = 0;
            while r < C
                invariant
                    self.wf(),
                    (st as int) < S,
                    (scan as int) < C,
                    l < C,
                    r <= C,
                    forall|x: Color, y: Color| (x as int) < l ==> !#[trigger] self.holds((st, x, scan, y, lb, rb)),
                    forall|y: Color| (y as int) < r ==> !#[trigger] self.holds((st, l as Color, scan, y, lb, rb)),
                decreases C - r,
            {
                if self.has((st, l as Color, scan, r as Color, lb, rb)) {
                    return true;
                }
                r += 1;
            }
            proof {
                assert forall|x: Color, y: Color| (x as int) < l + 1 implies !#[trigger] self.holds((st, x, scan, y, lb, rb)) by {
                    if x as int == l && self.holds((st, x, scan, y, lb, rb)) {
                        self.lemma_holds_in((st, x, scan, y, lb, rb));
                    }
                }
            }
            l += 1;
        }
        proof {
            assert forall|x: Color, y: Color| !#[trigger] self.holds((st, x, scan, y, lb, rb)) by {
                if self.holds((st, x, scan, y, lb, rb)) {
                    self.lemma_holds_in((st, x, scan, y, lb, rb));
                }
            }
        }
        false
    }

    /// The statuses held for the state and scanned color over all windows,
    /// as a mask.
    pub fn any(&self, st: usize, scan: usize) -> (m: u8)
        requires
            self.wf(),
            st < S,
            scan < C,
        ensures
            m == self.any_mask(st as State, scan as Color),
    {
        let (s, c) = (st as State, scan as Color);
        let a: u8 = if self.seen_of(s, c, false, false) { 1 } else { 0 };
        let b: u8 = if self.seen_of(s, c, true, false) { 2 } else { 0 };
        let d: u8 = if self.seen_of(s, c, false, true) { 4 } else { 0 };
        let e: u8 = if self.seen_of(s, c, true, true) { 8 } else { 0 };
        a + b + d + e
    }
}

fn jtarget_of(f: JFact, i: Instr, c: Color, nb: bool) -> (g: JFact)
    ensures
        g == jtarget(f, i, c, nb),
{
    if i.1 {
        (i.2, i.0, f.3, c, f.4 && i.0 == 0, nb)
    } else {
        (i.2, c, f.1, i.0, nb, f.5 && i.0 == 0)
    }
}

fn jflag_check(f: JFact, push: Shift, c: Color, nb: bool) -> (r: bool)
    ensures
        r == jflag_ok(f, push, c, nb),
{
    let blank = if push { f.5 } else { f.4 };
    let near = if push { f.3 } else { f.1 };
    if blank {
        c == 0 && nb
    } else if near == 0 {
        !nb
    } else {
        !nb || c == 0
    }
}

impl<const S: usize, const C: usize> Prog<S, C> {
    /// Whether a fact may be kept, by a search of the window tables.
    fn jadmit_check(&self, wp: &WinPossible, want: &Vec<bool>, g: JFact) -> (r: bool)
        requires
            wp.sized(S as int, C as int),
            want@ == seq![true, true, true, true],
            1 <= C <= 64,
        ensures
            r == self.jadmit(wp.side_parity@, g),
    {
        if !((g.0 as usize) < S && (g.1 as usize) < C && (g.2 as usize) < C && (g.3 as usize) < C) {
            return false;
        }
        if g.4 && g.1 != 0 {
            return false;
        }
        if g.5 && g.3 != 0 {
            return false;
        }
        self.window_allowed(wp, want, (g.0, g.2, g.1, g.3))
    }

    /// Adds every fact a step from `f` gives.
    fn joint_step(&self, wp: &WinPossible, want: &Vec<bool>, jt: &mut JointBlankPossible<S, C>, stack: &mut Vec<JFact>, f: JFact)
        requires
            wp.sized(S as int, C as int),
            want@ == seq![true, true, true, true],
            old(jt).wf(),
            old(jt).holds(f),
        ensures
            final(jt).wf(),
            grows(old(jt).facts(), final(jt).facts(), old(jt).absent(), final(jt).absent(), old(stack)@, final(stack)@),
            forall|h: JFact| #[trigger] final(jt).holds(h) && !old(jt).holds(h) ==> self.joint_next(wp.side_parity@, f, h),
            self.joint_done(wp.side_parity@, final(jt).facts(), f),
    {
        let ghost v = wp.side_parity@;
        let ghost jt0 = *jt;
        let ghost s0 = stack@;
        proof {
            jt.lemma_holds_in(f);
            lemma_grows_refl(jt0.facts(), jt0.absent(), s0);
        }
        let ins = match self.get(&(f.0, f.2)) {
            Some(ins) => *ins,
            None => {
                return;
            },
        };
        let mut c: usize = 0;
        while c < C
            invariant
                jt.wf(),
                wp.sized(S as int, C as int),
                want@ == seq![true, true, true, true],
                v == wp.side_parity@,
                jfact_in(f, S as int, C as int),
                self.instr_at(f.0 as int, f.2 as int) == Some(ins),
                c <= C,
                grows(jt0.facts(), jt.facts(), jt0.absent(), jt.absent(), s0, stack@),
                forall|h: JFact| #[trigger] jt.holds(h) && !jt0.holds(h) ==> self.joint_next(v, f, h),
                forall|x: Color, nb: bool| (x as int) < c && jflag_ok(f, ins.1, x, nb) && #[trigger] self.jadmit(v, jtarget(f, ins, x, nb))
                    ==> jt.holds(jtarget(f, ins, x, nb)),
            decreases C - c,
        {
            let mut k: usize = 0;
            while k < 2
                invariant
                    jt.wf(),
                    wp.sized(S as int, C as int),
                    want@ == seq![true, true, true, true],
                    v == wp.side_parity@,
                    jfact_in(f, S as int, C as int),
                    self.instr_at(f.0 as int, f.2 as int) == Some(ins),
                    c < C,
                    k <= 2,
                    grows(jt0.facts(), jt.facts(), jt0.absent(), jt.absent(), s0, stack@),
                    forall|h: JFact| #[trigger] jt.holds(h) && !jt0.holds(h) ==> self.joint_next(v, f, h),
                    forall|x: Color, nb: bool| (x as int) < c && jflag_ok(f, ins.1, x, nb) && #[trigger] self.jadmit(v, jtarget(f, ins, x, nb))
                        ==> jt.holds(jtarget(f, ins, x, nb)),
                    forall|nb: bool| (if nb { 1int } else { 0int }) < k && jflag_ok(f, ins.1, c as Color, nb)
                        && #[trigger] self.jadmit(v, jtarget(f, ins, c as Color, nb)) ==> jt.holds(jtarget(f, ins, c as Color, nb)),
                decreases 2 - k,
            {
                let nb = k == 1;
                let g = jtarget_of(f, ins, c as Color, nb);
                if jflag_check(f, ins.1, c as Color, nb) && self.jadmit_check(wp, want, g) {
                    let ghost jt1 = *jt;
                    let ghost s1 = stack@;
                    jt.insert_push(stack, g);
                    proof {
                        lemma_grows_trans(jt0.facts(), jt1.facts(), jt.facts(), jt0.absent(), jt1.absent(), jt.absent(), s0, s1, stack@);
                        assert(self.joint_next(v, f, g));
                        assert forall|h: JFact| #[trigger] jt.holds(h) && !jt0.holds(h) implies self.joint_next(v, f, h) by {
                            if h != g {
                                assert(jt1.holds(h));
                            }
                        }
                        assert forall|x: Color, b: bool| (x as int) < c && jflag_ok(f, ins.1, x, b) && #[trigger] self.jadmit(v, jtarget(f, ins, x, b))
                            implies jt.holds(jtarget(f, ins, x, b)) by {
                            assert(jt1.facts()(jtarget(f, ins, x, b)));
                            assert(jt.facts()(jtarget(f, ins, x, b)));
                        }
                        assert forall|b: bool| (if b { 1int } else { 0int }) < k + 1 && jflag_ok(f, ins.1, c as Color, b)
                            && #[trigger] self.jadmit(v, jtarget(f, ins, c as Color, b)) implies jt.holds(jtarget(f, ins, c as Color, b)) by {
                            if b != nb {
                                assert(jt1.facts()(jtarget(f, ins, c as Color, b)));
                                assert(jt.facts()(jtarget(f, ins, c as Color, b)));
                            }
                        }
                    }
                }
                k += 1;
            }
            proof {
                assert forall|x: Color, nb: bool| (x as int) < c + 1 && jflag_ok(f, ins.1, x, nb) && #[trigger] self.jadmit(v, jtarget(f, ins, x, nb))
                    implies jt.holds(jtarget(f, ins, x, nb)) by {
                    if x as int == c {
                        assert(x == c as Color);
                        assert((if nb { 1int } else { 0int }) < 2);
                    }
                }
            }
            c += 1;
        }
        proof {
            assert forall|g: JFact| #[trigger] self.joint_next(v, f, g) implies jt.facts()(g) by {
                let x = if ins.1 { g.3 } else { g.1 };
                let b = if ins.1 { g.5 } else { g.4 };
                assert(g == jtarget(f, ins, x, b));
                assert(self.jadmit(v, jtarget(f, ins, x, b)));
            }
        }
    }
}

/// The blank and dirty side statuses of the windows that occur on runs
/// from the blank tape: the least facts that hold the start and are closed
/// under steps, found by a worklist.
pub fn joint_blank_status_from_blank<const S: usize, const C: usize>(prog: &Prog<S, C>, windows: &WinPossible) -> (r: JointBlankPossible<S, C>)
    requires
        S >= 1,
        1 <= C <= 64,
        Prog::<S, C>::tails_fit(),
        windows.sized(S as int, C as int),
    ensures
        r.wf(),
        forall|f: JFact| #[trigger] r.holds(f) == prog.joint_reach(windows.side_parity@, f),
{
    let ghost v = windows.side_parity@;
    let want = want_all(4);
    assert(want@ =~= seq![true, true, true, true]);
    let mut jt = JointBlankPossible::<S, C>::new();
    let mut stack: Vec<JFact> = Vec::new();
    let init: JFact = (0, 0, 0, 0, true, true);
    let ghost s0 = stack@;
    if prog.jadmit_check(windows, &want, init) {
        let ghost jtb = jt;
        jt.insert_push(&mut stack, init);
        proof {
            assert forall|f: JFact| #[trigger] jt.holds(f) implies f == init by {}
            assert(jt.facts()(init) && !jtb.facts()(init));
            assert(stack@.contains(init));
            assert forall|i: int| 0 <= i < stack@.len() implies stack@[i] == init by {
                assert(jt.facts()(stack@[i]));
            }
        }
    }
    proof {
        assert forall|f: JFact| #[trigger] jt.holds(f) implies prog.joint_reach(v, f) by {
            assert(f == init);
            assert forall|set: spec_fn(JFact) -> bool| #[trigger] prog.joint_closed(v, set) implies set(f) by {}
        }
        assert forall|i: int| 0 <= i < stack@.len() implies jt.holds(#[trigger] stack@[i]) by {
            assert(stack@[i] == init);
        }
        assert forall|f: JFact| #[trigger] jt.holds(f) && !stack@.contains(f) implies prog.joint_done(v, jt.facts(), f) by {
            assert(f == init);
        }
    }
    while stack.len() > 0
        invariant
            jt.wf(),
            windows.sized(S as int, C as int),
            want@ == seq![true, true, true, true],
            v == windows.side_parity@,
            init == joint_init(),
            prog.jadmit(v, init) ==> jt.holds(init),
            forall|f: JFact| #[trigger] jt.holds(f) ==> prog.joint_reach(v, f),
            forall|i: int| 0 <= i < stack@.len() ==> jt.holds(#[trigger] stack@[i]),
            forall|f: JFact| #[trigger] jt.holds(f) && !stack@.contains(f) ==> prog.joint_done(v, jt.facts(), f),
        decreases jt.absent(), stack@.len(),
    {
        let ghost stack0 = stack@;
        let ghost jt0 = jt;
        let f = stack.pop().unwrap();
        let ghost popped = stack@;
        proof {
            assert(stack0 =~= popped.push(f));
            assert(stack0[popped.len() as int] == f);
        }
        prog.joint_step(windows, &want, &mut jt, &mut stack, f);
        proof {
            assert forall|h: JFact| #[trigger] jt.holds(h) implies prog.joint_reach(v, h) by {
                if !jt0.holds(h) {
                    assert(prog.joint_next(v, f, h));
                    assert(prog.joint_reach(v, f));
                    assert forall|set: spec_fn(JFact) -> bool| #[trigger] prog.joint_closed(v, set) implies set(h) by {
                        assert(set(f));
                    }
                }
            }
            assert forall|i: int| 0 <= i < stack@.len() implies jt.holds(#[trigger] stack@[i]) by {
                if i < popped.len() {
                    assert(stack@.subrange(0, popped.len() as int)[i] == popped[i]);
                    assert(popped[i] == stack0[i]);
                    assert(jt0.holds(stack0[i]));
                    assert(jt0.facts()(stack0[i]));
                    assert(jt.facts()(stack0[i]));
                }
            }
            assert forall|h: JFact| #[trigger] jt.holds(h) && !stack@.contains(h) implies prog.joint_done(v, jt.facts(), h) by {
                if h == f {
                    assert forall|g: JFact| #[trigger] prog.joint_next(v, h, g) implies jt.facts()(g) by {}
                } else {
                    if !jt0.holds(h) {
                        assert(jt.facts()(h) && !jt0.facts()(h));
                        assert(stack@.contains(h));
                    }
                    assert(!stack0.contains(h)) by {
                        if stack0.contains(h) {
                            let j = choose|j: int| 0 <= j < stack0.len() && stack0[j] == h;
                            assert(j < popped.len());
                            assert(stack@.subrange(0, popped.len() as int)[j] == popped[j]);
                            assert(stack@[j] == h);
                        }
                    }
                    assert(prog.joint_done(v, jt0.facts(), h));
                    assert forall|g: JFact| #[trigger] prog.joint_next(v, h, g) implies jt.facts()(g) by {
                        assert(jt0.facts()(g));
                    }
                }
            }
            if prog.jadmit(v, init) {
                assert(jt0.facts()(init));
                assert(jt.facts()(init));
            }
        }
    }
    proof {
        assert(prog.joint_closed(v, jt.facts())) by {
            assert forall|f: JFact, g: JFact| #[trigger] prog.joint_next(v, f, g) && jt.facts()(f) implies jt.facts()(g) by {
                assert(prog.joint_done(v, jt.facts(), f));
            }
            if prog.jadmit(v, joint_init()) {
                assert(jt.holds(init));
            }
        }
    }
    jt
}

impl<const S: usize, const C: usize> JointBlankPossible<S, C> {
    /// Empty tables.
    pub fn empty() -> (r: Self)
        requires
            S >= 1,
            1 <= C <= 64,
            Prog::<S, C>::tails_fit(),
        ensures
            r.wf(),
            forall|f: JFact| !r.holds(f),
    {
        Self::new()
    }

    /// Adds a fact.
    pub fn add(&mut self, f: JFact)
        requires
            old(self).wf(),
            jfact_in(f, S as int, C as int),
        ensures
            final(self).wf(),
            forall|h: JFact| #[trigger] final(self).holds(h) == (old(self).holds(h) || h == f),
    {
        let mut stack: Vec<JFact> = Vec::new();
        let ghost before = *self;
        self.insert_push(&mut stack, f);
        proof {
            assert forall|h: JFact| #[trigger] self.holds(h) == (before.holds(h) || h == f) by {
                if before.holds(h) {
                    assert(before.facts()(h));
                    assert(self.facts()(h));
                }
            }
        }
    }
}

/// What a span says of its whole side.
#[derive(Clone, Copy, PartialEq, Eq, Structural)]
pub enum RequiredStatus {
    /// All blank: blank beyond, and no nonblank run.
    Blank,
    /// Some nonblank run.
    Dirty,
    Unknown,
}

/// What the runs and the end of a span say of its whole side.
pub open spec fn required_status(bs: Seq<Block>, end: TapeEnd) -> RequiredStatus {
    if exists|i: int| 0 <= i < bs.len() && (#[trigger] bs[i]).color != 0 {
        RequiredStatus::Dirty
    } else if end == TapeEnd::Blanks {
        RequiredStatus::Blank
    } else {
        RequiredStatus::Unknown
    }
}

/// Whether a side with the required status may be blank (or dirty).
pub open spec fn status_allows(p: RequiredStatus, blank: bool) -> bool {
    match p {
        RequiredStatus::Blank => blank,
        RequiredStatus::Dirty => !blank,
        RequiredStatus::Unknown => true,
    }
}

/// Whether the mask of inward neighbors allows the known one (any, where
/// it is not known).
pub open spec fn half_ok(m: u64, known: Option<Color>) -> bool {
    match known {
        Some(c) => c < 64 && mask_bit(m, c as int),
        None => m != 0,
    }
}

/// What the forward analysis allows of whole sides: for a blank left side
/// (right side), the inward neighbors allowed with each state and scanned
/// color, as masks; and the joint side statuses of the windows.
pub struct BlankSidePossible<const S: usize, const C: usize> {
    pub left_half: Vec<Vec<u64>>,
    pub right_half: Vec<Vec<u64>>,
    pub joint: JointBlankPossible<S, C>,
}

impl<const S: usize, const C: usize> BlankSidePossible<S, C> {
    /// The mask tables have a row per state and a mask per color, and the
    /// joint table is well formed.
    pub open spec fn sized(&self) -> bool {
        &&& self.joint.wf()
        &&& self.left_half@.len() == S
        &&& self.right_half@.len() == S
        &&& forall|st: int| 0 <= st < S ==> (#[trigger] self.left_half@[st])@.len() == C
        &&& forall|st: int| 0 <= st < S ==> (#[trigger] self.right_half@[st])@.len() == C
    }
}

/// Whether the joint table allows what the tape's spans say of the two
/// whole sides: some window with the tape's state and scanned color has
/// side statuses that the spans allow, and so does some window that also
/// has the tape's known neighbors.
pub open spec fn joint_allows<const S: usize, const C: usize>(tape: Tape, state: State, j: JointBlankPossible<S, C>) -> bool {
    let ls = required_status(tape.lspan.bs(), tape.lspan.end);
    let rs = required_status(tape.rspan.bs(), tape.rspan.end);
    let kl = neighbor_color(tape.lspan.bs(), tape.lspan.end);
    let kr = neighbor_color(tape.rspan.bs(), tape.rspan.end);
    &&& exists|lb: bool, rb: bool| status_allows(ls, lb) && status_allows(rs, rb) && #[trigger] j.seen(state, tape.scan, lb, rb)
    &&& exists|l: Color, r: Color, lb: bool, rb: bool| fits(kl, l) && fits(kr, r) && status_allows(ls, lb) && status_allows(rs, rb)
        && #[trigger] j.holds((state, l, tape.scan, r, lb, rb))
}

/// Whether a tape passes the whole-side checks: where a span says
/// nothing of its side there is nothing to check; otherwise a blank side
/// needs its inward neighbor allowed by the half-blank masks, and some
/// window with the tape's state, scanned color and known neighbors must
/// have side statuses that the spans allow.
pub open spec fn blank_side_ok<const S: usize, const C: usize>(tape: Tape, state: State, p: BlankSidePossible<S, C>) -> bool {
    let ls = required_status(tape.lspan.bs(), tape.lspan.end);
    let rs = required_status(tape.rspan.bs(), tape.rspan.end);
    let kl = neighbor_color(tape.lspan.bs(), tape.lspan.end);
    let kr = neighbor_color(tape.rspan.bs(), tape.rspan.end);
    ||| ls == RequiredStatus::Unknown && rs == RequiredStatus::Unknown
    ||| {
        &&& ls == RequiredStatus::Blank ==> half_ok(p.left_half@[state as int]@[tape.scan as int], kr)
        &&& rs == RequiredStatus::Blank ==> half_ok(p.right_half@[state as int]@[tape.scan as int], kl)
        &&& joint_allows(tape, state, p.joint)
    }
}

fn span_status(span: &Span) -> (r: RequiredStatus)
    ensures
        r == required_status(span.bs(), span.end),
{
    let mut i: usize = 0;
    while i < span.span.blocks.len()
        invariant
            i <= span.bs().len(),
            forall|j: int| 0 <= j < i ==> (#[trigger] span.bs()[j]).color == 0,
        decreases span.bs().len() - i,
    {
        if span.span.blocks[i].color != 0 {
            assert(span.bs()[i as int].color != 0);
            return RequiredStatus::Dirty;
        }
        i += 1;
    }
    if span.end == TapeEnd::Blanks {
        RequiredStatus::Blank
    } else {
        RequiredStatus::Unknown
    }
}

fn allows(p: RequiredStatus, blank: bool) -> (r: bool)
    ensures
        r == status_allows(p, blank),
{
    match p {
        RequiredStatus::Blank => blank,
        RequiredStatus::Dirty => !blank,
        RequiredStatus::Unknown => true,
    }
}

fn half_check(m: u64, known: Option<Color>) -> (r: bool)
    ensures
        r == half_ok(m, known),
{
    match known {
        Some(c) => c < 64 && (m >> (c as u64)) & 1u64 == 1u64,
        None => m != 0,
    }
}

impl<const S: usize, const C: usize> JointBlankPossible<S, C> {
    /// Whether the window has side statuses that the required statuses
    /// allow.
    fn window_allows(&self, st: State, l: Color, sc: Color, r: Color, ls: RequiredStatus, rs: RequiredStatus) -> (b: bool)
        requires
            self.wf(),
            (st as int) < S,
            (l as int) < C,
            (sc as int) < C,
            (r as int) < C,
        ensures
            b == exists|lb: bool, rb: bool| status_allows(ls, lb) && status_allows(rs, rb) && #[trigger] self.holds((st, l, sc, r, lb, rb)),
    {
        let b = (allows(ls, false) && allows(rs, false) && self.has((st, l, sc, r, false, false)))
            || (allows(ls, true) && allows(rs, false) && self.has((st, l, sc, r, true, false)))
            || (allows(ls, false) && allows(rs, true) && self.has((st, l, sc, r, false, true)))
            || (allows(ls, true) && allows(rs, true) && self.has((st, l, sc, r, true, true)));
        proof {
            if !b {
                assert forall|lb: bool, rb: bool| !(status_allows(ls, lb) && status_allows(rs, rb) && #[trigger] self.holds((st, l, sc, r, lb, rb))) by {
                    if lb {
                        if rb {
                        } else {
                        }
                    } else {
                        if rb {
                        } else {
                        }
                    }
                }
            }
        }
        b
    }

    /// Whether some window with the state and scanned color has side
    /// statuses that the required statuses allow.
    fn seen_allows(&self, st: State, sc: Color, ls: RequiredStatus, rs: RequiredStatus) -> (b: bool)
        requires
            self.wf(),
            (st as int) < S,
            (sc as int) < C,
        ensures
            b == exists|lb: bool, rb: bool| status_allows(ls, lb) && status_allows(rs, rb) && #[trigger] self.seen(st, sc, lb, rb),
    {
        let b = (allows(ls, false) && allows(rs, false) && self.seen_of(st, sc, false, false))
            || (allows(ls, true) && allows(rs, false) && self.seen_of(st, sc, true, false))
            || (allows(ls, false) && allows(rs, true) && self.seen_of(st, sc, false, true))
            || (allows(ls, true) && allows(rs, true) && self.seen_of(st, sc, true, true));
        proof {
            if !b {
                assert forall|lb: bool, rb: bool| !(status_allows(ls, lb) && status_allows(rs, rb) && #[trigger] self.seen(st, sc, lb, rb)) by {
                    if lb {
                        if rb {
                        } else {
                        }
                    } else {
                        if rb {
                        } else {
                        }
                    }
                }
            }
        }
        b
    }

    /// Whether some window with the state, scanned color and known
    /// neighbors has side statuses that the required statuses allow, by a
    /// search.
    fn match_allows(&self, st: State, sc: Color, kl: Option<Color>, kr: Option<Color>, ls: RequiredStatus, rs: RequiredStatus) -> (b: bool)
        requires
            self.wf(),
            (st as int) < S,
            (sc as int) < C,
        ensures
            b == exists|l: Color, r: Color, lb: bool, rb: bool| fits(kl, l) && fits(kr, r) && status_allows(ls, lb) && status_allows(rs, rb)
                && #[trigger] self.holds((st, l, sc, r, lb, rb)),
    {
        let mut l: usize = 0;
        while l < C
            invariant
                self.wf(),
                (st as int) < S,
                (sc as int) < C,
                l <= C,
                forall|x: Color, y: Color, lb: bool, rb: bool| (x as int) < l && fits(kl, x) && fits(kr, y) && status_allows(ls, lb) && status_allows(rs, rb)
                    ==> !#[trigger] self.holds((st, x, sc, y, lb, rb)),
            decreases C - l,
        {
            let mut r: usize = 0;
            while r < C
                invariant
                    self.wf(),
                    (st as int) < S,
                    (sc as int) < C,
                    l < C,
                    r <= C,
                    forall|x: Color, y: Color, lb: bool, rb: bool| (x as int) < l && fits(kl, x) && fits(kr, y) && status_allows(ls, lb) && status_allows(rs, rb)
                        ==> !#[trigger] self.holds((st, x, sc, y, lb, rb)),
                    forall|y: Color, lb: bool, rb: bool| (y as int) < r && fits(kl, l as Color) && fits(kr, y) && status_allows(ls, lb) && status_allows(rs, rb)
                        ==> !#[trigger] self.holds((st, l as Color, sc, y, lb, rb)),
                decreases C - r,
            {
                let lf = match kl {
                    Some(k) => k == l as Color,
                    None => true,
                };
                let rf = match kr {
                    Some(k) => k == r as Color,
                    None => true,
                };
                if lf && rf && self.window_allows(st, l as Color, sc, r as Color, ls, rs) {
                    return true;
                }
                r += 1;
            }
            proof {
                assert forall|x: Color, y: Color, lb: bool, rb: bool| (x as int) < l + 1 && fits(kl, x) && fits(kr, y) && status_allows(ls, lb)
                    && status_allows(rs, rb) implies !#[trigger] self.holds((st, x, sc, y, lb, rb)) by {
                    if x as int == l && self.holds((st, x, sc, y, lb, rb)) {
                        self.lemma_holds_in((st, x, sc, y, lb, rb));
                    }
                }
            }
            l += 1;
        }
        proof {
            assert forall|x: Color, y: Color, lb: bool, rb: bool| fits(kl, x) && fits(kr, y) && status_allows(ls, lb) && status_allows(rs, rb)
                implies !#[trigger] self.holds((st, x, sc, y, lb, rb)) by {
                if self.holds((st, x, sc, y, lb, rb)) {
                    self.lemma_holds_in((st, x, sc, y, lb, rb));
                }
            }
        }
        false
    }
}

impl Tape {
    /// Whether the tape passes the whole-side checks (`blank_side_ok`).
    pub fn obeys_blank_side_possible<const S: usize, const C: usize>(&self, state: State, possible: &BlankSidePossible<S, C>) -> (r: bool)
        requires
            possible.sized(),
            (state as int) < S,
            (self.scan as int) < C,
        ensures
            r == blank_side_ok(*self, state, *possible),
    {
        let ls = span_status(&self.lspan);
        let rs = span_status(&self.rspan);
        if ls == RequiredStatus::Unknown && rs == RequiredStatus::Unknown {
            return true;
        }
        let kl = self.left_neighbor_color();
        let kr = self.right_neighbor_color();
        let st = state as usize;
        let sc = self.scan as usize;
        if ls == RequiredStatus::Blank && !half_check(possible.left_half[st][sc], kr) {
            return false;
        }
        if rs == RequiredStatus::Blank && !half_check(possible.right_half[st][sc], kl) {
            return false;
        }
        if !possible.joint.seen_allows(state, self.scan, ls, rs) {
            return false;
        }
        possible.joint.match_allows(state, self.scan, kl, kr, ls, rs)
    }
}

} // verus!
