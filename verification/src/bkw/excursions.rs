//! One-sided excursions: from a cell, work on one side of it only and come
//! back across the boundary.
//!
//! A return `(back, st, co, tr)` says that starting in state `st` on a
//! cell of color `co`, whose neighbor across the boundary (back toward the
//! parent) has color `back`, the machine can work only on the far side and
//! then step back across the boundary into state `tr`. A step away from
//! the boundary (a push) must itself return before the work goes on from
//! the same cell, now holding the printed color; a step toward it (a pop)
//! returns at once. Only windows that the window tables allow are used:
//! the cell beyond, in the direction of a push, must be a color that they
//! allow next to the source window. With `clean`, every pop prints blank,
//! so the far side is left blank.
use vstd::prelude::*;

use crate::bkw::sides::{idx2, lemma_idx2, lemma_idx2_inj, lemma_or_bit, mask_bit, window_ok};
use crate::bkw::tails::{falses, grows, lemma_grows_refl, lemma_grows_trans};
use crate::bkw::windows::{WinPossible, count_false, lemma_count_update, want_all};
use crate::bkw::{prints_below, targets_below};
use crate::instrs::{Color, State};
use crate::prog::Prog;

verus! {

/// A return: parent color, start state, start color, state returned into.
pub type RFact = (Color, State, Color, State);

/// Whether `child` may stand next to the cell in state `st` reading `co`,
/// on the far side, when the parent side neighbor is `back`.
pub open spec fn child_ok(v: Seq<bool>, push: bool, st: State, co: Color, back: Color, child: Color, colors: int) -> bool {
    if push {
        window_ok(v, (st, co, back, child), colors)
    } else {
        window_ok(v, (st, co, child, back), colors)
    }
}

/// The position of a return in its table.
pub open spec fn rpos(f: RFact, states: int, colors: int) -> int {
    idx2(idx2(idx2(f.0 as int, f.1 as int, states), f.2 as int, colors), f.3 as int, states)
}

/// A return in range.
pub open spec fn rfact_in(f: RFact, states: int, colors: int) -> bool {
    f.0 < colors && f.1 < states && f.2 < colors && f.3 < states
}

pub(crate) proof fn lemma_rpos(f: RFact, g: RFact, states: int, colors: int)
    requires
        rfact_in(f, states, colors),
        rfact_in(g, states, colors),
    ensures
        0 <= rpos(f, states, colors) < colors * states * colors * states,
        rpos(f, states, colors) == rpos(g, states, colors) ==> f == g,
{
    lemma_idx2(f.0 as int, f.1 as int, colors, states);
    lemma_idx2(idx2(f.0 as int, f.1 as int, states), f.2 as int, colors * states, colors);
    lemma_idx2(idx2(idx2(f.0 as int, f.1 as int, states), f.2 as int, colors), f.3 as int, colors * states * colors, states);
    if rpos(f, states, colors) == rpos(g, states, colors) {
        lemma_idx2_inj(idx2(idx2(f.0 as int, f.1 as int, states), f.2 as int, colors), f.3 as int, idx2(idx2(g.0 as int, g.1 as int, states), g.2 as int, colors), g.3 as int, states);
        lemma_idx2_inj(idx2(f.0 as int, f.1 as int, states), f.2 as int, idx2(g.0 as int, g.1 as int, states), g.2 as int, colors);
        lemma_idx2_inj(f.0 as int, f.1 as int, g.0 as int, g.1 as int, states);
    }
}

impl<const S: usize, const C: usize> Prog<S, C> {
    /// Whether some color may stand on the far side next to the cell.
    pub open spec fn src_ok(&self, v: Seq<bool>, push: bool, back: Color, st: State, co: Color) -> bool {
        exists|child: Color| (child as int) < C && #[trigger] child_ok(v, push, st, co, back, child, C as int)
    }

    /// Whether the first step from the cell pops and so returns at once.
    pub open spec fn ret_seed(&self, v: Seq<bool>, push: bool, clean: bool, f: RFact) -> bool {
        let (back, st, co, tr) = f;
        &&& rfact_in(f, S as int, C as int)
        &&& self.src_ok(v, push, back, st, co)
        &&& self.instr_at(st as int, co as int) matches Some(i) && i.1 == !push && i.2 == tr && (!clean || i.0 == 0)
    }

    /// Whether the first step from the cell pushes, with `child` the color
    /// next to it on the far side and `r` a state the child returns in.
    pub open spec fn ret_rule(&self, v: Seq<bool>, push: bool, f: RFact, child: Color, r: State) -> bool {
        let (back, st, co, tr) = f;
        &&& rfact_in(f, S as int, C as int)
        &&& (child as int) < C
        &&& (r as int) < S
        &&& self.instr_at(st as int, co as int) matches Some(i) && i.1 == push
        &&& child_ok(v, push, st, co, back, child, C as int)
    }

    /// The child's return that a pushing rule needs.
    pub open spec fn child_fact(&self, f: RFact, child: Color, r: State) -> RFact {
        let i = self.instr_at(f.1 as int, f.2 as int)->0;
        (i.0, i.2, child, r)
    }

    /// The return from the cell again, after the child's, that a pushing
    /// rule needs.
    pub open spec fn cont_fact(&self, f: RFact, r: State) -> RFact {
        let i = self.instr_at(f.1 as int, f.2 as int)->0;
        (f.0, r, i.0, f.3)
    }

    /// Whether a set of returns holds every return that pops at once and
    /// every return that the pushing rule gives from returns in the set.
    pub open spec fn ret_closed(&self, v: Seq<bool>, push: bool, clean: bool, set: spec_fn(RFact) -> bool) -> bool {
        &&& forall|f: RFact| #[trigger] self.ret_seed(v, push, clean, f) ==> set(f)
        &&& forall|f: RFact, child: Color, r: State| #[trigger] self.ret_rule(v, push, f, child, r) && set(self.child_fact(f, child, r))
            && set(self.cont_fact(f, r)) ==> set(f)
    }

    /// Whether a return is possible: it is in every closed set.
    pub open spec fn ret_reach(&self, v: Seq<bool>, push: bool, clean: bool, f: RFact) -> bool {
        forall|set: spec_fn(RFact) -> bool| #[trigger] self.ret_closed(v, push, clean, set) ==> set(f)
    }

    /// Every clean return (one that leaves the far side blank) is a
    /// return.
    pub proof fn lemma_clean_returns(&self, v: Seq<bool>, push: bool, f: RFact)
        requires
            self.ret_reach(v, push, true, f),
        ensures
            self.ret_reach(v, push, false, f),
    {
        let any = |g: RFact| self.ret_reach(v, push, false, g);
        assert(self.ret_closed(v, push, true, any)) by {
            assert forall|g: RFact| #[trigger] self.ret_seed(v, push, true, g) implies any(g) by {
                assert(self.ret_seed(v, push, false, g));
                assert forall|set: spec_fn(RFact) -> bool| #[trigger] self.ret_closed(v, push, false, set) implies set(g) by {}
            }
            assert forall|g: RFact, child: Color, r: State| #[trigger] self.ret_rule(v, push, g, child, r) && any(self.child_fact(g, child, r))
                && any(self.cont_fact(g, r)) implies any(g) by {
                self.lemma_ret_rule_reach(v, push, false, g, child, r);
            }
        }
    }

    /// A pushing rule gives a possible return from possible ones.
    pub proof fn lemma_ret_rule_reach(&self, v: Seq<bool>, push: bool, clean: bool, f: RFact, child: Color, r: State)
        requires
            self.ret_rule(v, push, f, child, r),
            self.ret_reach(v, push, clean, self.child_fact(f, child, r)),
            self.ret_reach(v, push, clean, self.cont_fact(f, r)),
        ensures
            self.ret_reach(v, push, clean, f),
    {
        assert forall|set: spec_fn(RFact) -> bool| #[trigger] self.ret_closed(v, push, clean, set) implies set(f) by {
            assert(set(self.child_fact(f, child, r)));
            assert(set(self.cont_fact(f, r)));
        }
    }
}

proof fn lemma_table_size(states: int, colors: int)
    requires
        1 <= states <= 256,
        1 <= colors <= 64,
    ensures
        colors * states <= 64 * 256,
        colors * states * colors <= 64 * 256 * 64,
        colors * states * colors * states <= 64 * 256 * 64 * 256,
        colors * states * colors * states * states <= 64 * 256 * 64 * 256 * 256,
{
    assert(colors * states <= 64 * 256) by (nonlinear_arith)
        requires
            1 <= states <= 256,
            1 <= colors <= 64,
    ;
    assert(colors * states * colors <= 64 * 256 * 64) by (nonlinear_arith)
        requires
            1 <= colors <= 64,
            colors * states <= 64 * 256,
            colors * states >= 0,
    ;
    assert(colors * states * colors * states <= 64 * 256 * 64 * 256) by (nonlinear_arith)
        requires
            1 <= states <= 256,
            colors * states * colors <= 64 * 256 * 64,
            colors * states * colors >= 0,
    ;
    assert(colors * states * colors * states * states <= 64 * 256 * 64 * 256 * 256) by (nonlinear_arith)
        requires
            1 <= states <= 256,
            colors * states * colors * states <= 64 * 256 * 64 * 256,
            colors * states * colors * states >= 0,
    ;
}

/// A table of returns, one entry per return.
pub struct Returns<const S: usize, const C: usize> {
    table: Vec<bool>,
}

impl<const S: usize, const C: usize> Returns<S, C> {
    /// The table has one entry per return.
    pub closed spec fn wf(&self) -> bool {
        &&& 1 <= S <= 64
        &&& 1 <= C <= 64
        &&& self.table@.len() == C * S * C * S
    }

    /// Whether the table holds a return (in range).
    pub closed spec fn holds(&self, f: RFact) -> bool {
        &&& rfact_in(f, S as int, C as int)
        &&& self.table@[rpos(f, S as int, C as int)]
    }

    /// The returns that the table holds.
    pub open spec fn facts(&self) -> spec_fn(RFact) -> bool {
        |f: RFact| self.holds(f)
    }

    /// The number of returns missing from the table.
    pub closed spec fn absent(&self) -> nat {
        count_false(self.table@)
    }

    pub proof fn lemma_holds_in(&self, f: RFact)
        requires
            self.holds(f),
        ensures
            rfact_in(f, S as int, C as int),
    {
    }

    pub proof fn lemma_wf_sizes(&self)
        requires
            self.wf(),
        ensures
            1 <= S <= 64,
            1 <= C <= 64,
    {
    }

    fn new() -> (r: Self)
        requires
            1 <= S <= 64,
            1 <= C <= 64,
        ensures
            r.wf(),
            forall|f: RFact| !r.holds(f),
    {
        proof {
            lemma_table_size(S as int, C as int);
        }
        let r = Returns { table: falses(C * S * C * S) };
        proof {
            assert forall|f: RFact| !r.holds(f) by {
                if rfact_in(f, S as int, C as int) {
                    lemma_rpos(f, f, S as int, C as int);
                }
            }
        }
        r
    }

    fn pos_of(&self, f: RFact) -> (r: usize)
        requires
            self.wf(),
            rfact_in(f, S as int, C as int),
        ensures
            r == rpos(f, S as int, C as int),
            r < self.table@.len(),
    {
        proof {
            lemma_rpos(f, f, S as int, C as int);
            lemma_idx2(f.0 as int, f.1 as int, C as int, S as int);
            lemma_idx2(idx2(f.0 as int, f.1 as int, S as int), f.2 as int, C * S, C as int);
            lemma_table_size(S as int, C as int);
        }
        ((f.0 as usize * S + f.1 as usize) * C + f.2 as usize) * S + f.3 as usize
    }

    /// Whether the table holds a return in range.
    pub fn has(&self, f: RFact) -> (r: bool)
        requires
            self.wf(),
            rfact_in(f, S as int, C as int),
        ensures
            r == self.holds(f),
    {
        self.table[self.pos_of(f)]
    }

    /// Adds a return, and pushes it onto the stack if it is new.
    fn insert_push(&mut self, stack: &mut Vec<RFact>, f: RFact)
        requires
            old(self).wf(),
            rfact_in(f, S as int, C as int),
        ensures
            final(self).wf(),
            final(self).holds(f),
            forall|h: RFact| #[trigger] final(self).holds(h) ==> old(self).holds(h) || h == f,
            grows(old(self).facts(), final(self).facts(), old(self).absent(), final(self).absent(), old(stack)@, final(stack)@),
    {
        let ghost s0 = stack@;
        let pos = self.pos_of(f);
        if self.table[pos] {
            proof {
                lemma_grows_refl(self.facts(), self.absent(), s0);
            }
            return;
        }
        proof {
            lemma_count_update(self.table@, pos as int);
        }
        self.table.set(pos, true);
        stack.push(f);
        proof {
            assert forall|g: RFact| #[trigger] self.holds(g) == (old(self).holds(g) || g == f) by {
                if rfact_in(g, S as int, C as int) {
                    lemma_rpos(g, f, S as int, C as int);
                }
            }
            assert(stack@[s0.len() as int] == f);
            assert(stack@.subrange(0, s0.len() as int) =~= s0);
            assert forall|g: RFact| #[trigger] self.facts()(g) && !old(self).facts()(g) implies stack@.contains(g) by {
                assert(g == f);
            }
        }
    }
}

/// Whether `f` comes before `(b, st, co, tr)`, in the order of the loops
/// that go through returns.
pub open spec fn lex_before(f: RFact, b: int, st: int, co: int, tr: int) -> bool {
    ||| f.0 < b
    ||| f.0 == b && f.1 < st
    ||| f.0 == b && f.1 == st && f.2 < co
    ||| f.0 == b && f.1 == st && f.2 == co && f.3 < tr
}

impl<const S: usize, const C: usize> Prog<S, C> {
    /// Whether a pushing rule with `g` as the child's return gives its
    /// return, where the other return needed is held and off the stack.
    pub open spec fn done_as_child(&self, v: Seq<bool>, push: bool, rt: Returns<S, C>, stack: Seq<RFact>, g: RFact, f: RFact) -> bool {
        self.ret_rule(v, push, f, g.2, g.3) && self.child_fact(f, g.2, g.3) == g && rt.holds(self.cont_fact(f, g.3))
            && !stack.contains(self.cont_fact(f, g.3)) ==> rt.holds(f)
    }

    /// Whether a pushing rule with `g` as the return after the child's
    /// gives its return, where the child's return is held and off the stack.
    pub open spec fn done_as_cont(&self, v: Seq<bool>, push: bool, rt: Returns<S, C>, stack: Seq<RFact>, g: RFact, f: RFact, child: Color) -> bool {
        self.ret_rule(v, push, f, child, g.1) && self.cont_fact(f, g.1) == g && rt.holds(self.child_fact(f, child, g.1))
            && !stack.contains(self.child_fact(f, child, g.1)) ==> rt.holds(f)
    }

    /// Whether `f` may stand next to the cell on the far side, by a search.
    pub(crate) fn child_allowed(&self, wp: &WinPossible, want: &Vec<bool>, push: bool, st: State, co: Color, back: Color, child: Color) -> (r: bool)
        requires
            wp.sized(S as int, C as int),
            want@ == seq![true, true, true, true],
            1 <= C <= 64,
            (st as int) < S,
            (co as int) < C,
            (back as int) < C,
            (child as int) < C,
        ensures
            r == child_ok(wp.side_parity@, push, st, co, back, child, C as int),
    {
        if push {
            self.window_allowed(wp, want, (st, co, back, child))
        } else {
            self.window_allowed(wp, want, (st, co, child, back))
        }
    }

    /// Adds the returns that pushing rules give with `g` as the child's
    /// return.
    fn ret_as_child(
        &self,
        wp: &WinPossible,
        want: &Vec<bool>,
        push: bool,
        rt: &mut Returns<S, C>,
        stack: &mut Vec<RFact>,
        g: RFact,
        Ghost(clean): Ghost<bool>,
    )
        requires
            wp.sized(S as int, C as int),
            want@ == seq![true, true, true, true],
            old(rt).wf(),
            old(rt).holds(g),
            forall|q: RFact| #[trigger] old(rt).holds(q) ==> self.ret_reach(wp.side_parity@, push, clean, q),
        ensures
            forall|q: RFact| #[trigger] final(rt).holds(q) ==> self.ret_reach(wp.side_parity@, push, clean, q),
            final(rt).wf(),
            grows(old(rt).facts(), final(rt).facts(), old(rt).absent(), final(rt).absent(), old(stack)@, final(stack)@),
            forall|f: RFact| #[trigger] final(rt).holds(f) && !old(rt).holds(f) ==> exists|child: Color, r: State| #[trigger] self.ret_rule(
                wp.side_parity@,
                push,
                f,
                child,
                r,
            ) && old(rt).holds(self.child_fact(f, child, r)) && final(rt).holds(self.cont_fact(f, r)),
            forall|f: RFact| #[trigger] self.done_as_child(wp.side_parity@, push, *final(rt), final(stack)@, g, f),
    {
        proof {
            use_type_invariant(self);
            rt.lemma_wf_sizes();
            rt.lemma_holds_in(g);
        }
        let ghost v = wp.side_parity@;
        let ghost rt0 = *rt;
        let ghost s0 = stack@;
        proof {
            lemma_grows_refl(rt0.facts(), rt0.absent(), s0);
        }
        let (p, cs, child, r) = g;
        let mut b: usize = 0;
        while b < C
            invariant
                rt.wf(),
                wp.sized(S as int, C as int),
                want@ == seq![true, true, true, true],
                v == wp.side_parity@,
                g == (p, cs, child, r),
                rfact_in(g, S as int, C as int),
                rt0.holds(g),
                forall|q: RFact| #[trigger] rt.holds(q) ==> self.ret_reach(v, push, clean, q),
                b <= C,
                grows(rt0.facts(), rt.facts(), rt0.absent(), rt.absent(), s0, stack@),
                forall|f: RFact| #[trigger] rt.holds(f) && !rt0.holds(f) ==> exists|c2: Color, r2: State| #[trigger] self.ret_rule(v, push, f, c2, r2)
                    && rt0.holds(self.child_fact(f, c2, r2)) && rt.holds(self.cont_fact(f, r2)),
                forall|f: RFact| lex_before(f, b as int, 0, 0, 0) ==> #[trigger] self.done_as_child(v, push, *rt, stack@, g, f),
            decreases C - b,
        {
            let mut st: usize = 0;
            while st < S
                invariant
                    rt.wf(),
                    wp.sized(S as int, C as int),
                    want@ == seq![true, true, true, true],
                    v == wp.side_parity@,
                    g == (p, cs, child, r),
                    rfact_in(g, S as int, C as int),
                    rt0.holds(g),
                    forall|q: RFact| #[trigger] rt.holds(q) ==> self.ret_reach(v, push, clean, q),
                    b < C,
                    st <= S,
                    grows(rt0.facts(), rt.facts(), rt0.absent(), rt.absent(), s0, stack@),
                    forall|f: RFact| #[trigger] rt.holds(f) && !rt0.holds(f) ==> exists|c2: Color, r2: State| #[trigger] self.ret_rule(v, push, f, c2, r2)
                        && rt0.holds(self.child_fact(f, c2, r2)) && rt.holds(self.cont_fact(f, r2)),
                    forall|f: RFact| lex_before(f, b as int, st as int, 0, 0) ==> #[trigger] self.done_as_child(v, push, *rt, stack@, g, f),
                decreases S - st,
            {
                let mut co: usize = 0;
                while co < C
                    invariant
                        rt.wf(),
                        wp.sized(S as int, C as int),
                        want@ == seq![true, true, true, true],
                        v == wp.side_parity@,
                        g == (p, cs, child, r),
                        rfact_in(g, S as int, C as int),
                        rt0.holds(g),
                        forall|q: RFact| #[trigger] rt.holds(q) ==> self.ret_reach(v, push, clean, q),
                        b < C,
                        st < S,
                        co <= C,
                        grows(rt0.facts(), rt.facts(), rt0.absent(), rt.absent(), s0, stack@),
                        forall|f: RFact| #[trigger] rt.holds(f) && !rt0.holds(f) ==> exists|c2: Color, r2: State| #[trigger] self.ret_rule(v, push, f, c2, r2)
                            && rt0.holds(self.child_fact(f, c2, r2)) && rt.holds(self.cont_fact(f, r2)),
                        forall|f: RFact| lex_before(f, b as int, st as int, co as int, 0) ==> #[trigger] self.done_as_child(v, push, *rt, stack@, g, f),
                    decreases C - co,
                {
                    let applies = match self.get(&(st as State, co as Color)) {
                        Some(ins) => ins.0 == p && ins.1 == push && ins.2 == cs,
                        None => false,
                    };
                    if applies && self.child_allowed(wp, want, push, st as State, co as Color, b as Color, child) {
                        let mut tr: usize = 0;
                        while tr < S
                            invariant
                                rt.wf(),
                                wp.sized(S as int, C as int),
                                v == wp.side_parity@,
                                g == (p, cs, child, r),
                                rfact_in(g, S as int, C as int),
                                rt0.holds(g),
                                forall|q: RFact| #[trigger] rt.holds(q) ==> self.ret_reach(v, push, clean, q),
                                b < C,
                                st < S,
                                co < C,
                                tr <= S,
                                self.instr_at(st as int, co as int) matches Some(i) && i == (p, push, cs),
                                child_ok(v, push, st as State, co as Color, b as Color, child, C as int),
                                grows(rt0.facts(), rt.facts(), rt0.absent(), rt.absent(), s0, stack@),
                                forall|f: RFact| #[trigger] rt.holds(f) && !rt0.holds(f) ==> exists|c2: Color, r2: State| #[trigger] self.ret_rule(v, push, f, c2, r2)
                                    && rt0.holds(self.child_fact(f, c2, r2)) && rt.holds(self.cont_fact(f, r2)),
                                forall|f: RFact| lex_before(f, b as int, st as int, co as int, tr as int) ==> #[trigger] self.done_as_child(v, push, *rt, stack@, g, f),
                            decreases S - tr,
                        {
                            let f = (b as Color, st as State, co as Color, tr as State);
                            let cont = (b as Color, r, p, tr as State);
                            let ghost rt1 = *rt;
                            let ghost s1 = stack@;
                            assert(self.cont_fact(f, r) == cont);
                            assert(self.child_fact(f, child, r) == g);
                            if rt.has(cont) {
                                rt.insert_push(stack, f);
                                proof {
                                    assert(rt0.facts()(g));
                                    assert(rt1.facts()(g));
                                    assert(rt1.holds(g) && rt1.holds(cont));
                                    self.lemma_ret_rule_reach(v, push, clean, f, child, r);
                                    assert forall|q: RFact| #[trigger] rt.holds(q) implies self.ret_reach(v, push, clean, q) by {
                                        if q != f {
                                            assert(rt1.holds(q));
                                        }
                                    }
                                    lemma_grows_trans(rt0.facts(), rt1.facts(), rt.facts(), rt0.absent(), rt1.absent(), rt.absent(), s0, s1, stack@);
                                    assert(self.ret_rule(v, push, f, child, r));
                                    assert forall|h: RFact| #[trigger] rt.holds(h) && !rt0.holds(h) implies exists|c2: Color, r2: State| #[trigger] self.ret_rule(v, push, h, c2, r2)
                                        && rt0.holds(self.child_fact(h, c2, r2)) && rt.holds(self.cont_fact(h, r2)) by {
                                        if rt1.holds(h) {
                                            let (c2, r2) = choose|c2: Color, r2: State| #[trigger] self.ret_rule(v, push, h, c2, r2)
                                                && rt0.holds(self.child_fact(h, c2, r2)) && rt1.holds(self.cont_fact(h, r2));
                                            assert(rt1.facts()(self.cont_fact(h, r2)));
                                            assert(rt.facts()(self.cont_fact(h, r2)));
                                        } else {
                                            assert(h == f);
                                            assert(rt1.facts()(cont));
                                            assert(rt.facts()(cont));
                                        }
                                    }
                                    assert forall|x: RFact| lex_before(x, b as int, st as int, co as int, tr + 1) implies #[trigger] self.done_as_child(v, push, *rt, stack@, g, x) by {
                                        if lex_before(x, b as int, st as int, co as int, tr as int) {
                                            assert(self.done_as_child(v, push, rt1, s1, g, x));
                                            if rt.holds(self.cont_fact(x, g.3)) && !stack@.contains(self.cont_fact(x, g.3)) {
                                                if !rt1.holds(self.cont_fact(x, g.3)) {
                                                    assert(rt.facts()(self.cont_fact(x, g.3)) && !rt1.facts()(self.cont_fact(x, g.3)));
                                                }
                                                assert(!s1.contains(self.cont_fact(x, g.3))) by {
                                                    if s1.contains(self.cont_fact(x, g.3)) {
                                                        let j = choose|j: int| 0 <= j < s1.len() && s1[j] == self.cont_fact(x, g.3);
                                                        assert(stack@.subrange(0, s1.len() as int)[j] == s1[j]);
                                                    }
                                                }
                                                if self.ret_rule(v, push, x, g.2, g.3) && self.child_fact(x, g.2, g.3) == g {
                                                    assert(rt1.facts()(x));
                                                }
                                            }
                                        }
                                    }
                                }
                            } else {
                                proof {
                                    assert forall|x: RFact| lex_before(x, b as int, st as int, co as int, tr + 1) implies #[trigger] self.done_as_child(v, push, *rt, stack@, g, x) by {
                                        if !lex_before(x, b as int, st as int, co as int, tr as int) {
                                            assert(x == f);
                                        }
                                    }
                                }
                            }
                            tr += 1;
                        }
                    } else {
                        proof {
                            assert forall|x: RFact| lex_before(x, b as int, st as int, co as int + 1, 0) implies #[trigger] self.done_as_child(v, push, *rt, stack@, g, x) by {
                                if !lex_before(x, b as int, st as int, co as int, 0) {
                                    if self.ret_rule(v, push, x, g.2, g.3) && self.child_fact(x, g.2, g.3) == g {
                                        assert(x.0 == b && x.1 == st && x.2 == co);
                                        assert(false);
                                    }
                                }
                            }
                        }
                    }
                    proof {
                        assert forall|x: RFact| lex_before(x, b as int, st as int, co as int + 1, 0) implies #[trigger] self.done_as_child(v, push, *rt, stack@, g, x) by {
                            if !lex_before(x, b as int, st as int, co as int, S as int) {
                                assert(x.3 < S || !rfact_in(x, S as int, C as int));
                            }
                        }
                    }
                    co += 1;
                }
                proof {
                    assert forall|x: RFact| lex_before(x, b as int, st as int + 1, 0, 0) implies #[trigger] self.done_as_child(v, push, *rt, stack@, g, x) by {
                        if !lex_before(x, b as int, st as int, C as int, 0) {
                            assert(!rfact_in(x, S as int, C as int));
                        }
                    }
                }
                st += 1;
            }
            proof {
                assert forall|x: RFact| lex_before(x, b as int + 1, 0, 0, 0) implies #[trigger] self.done_as_child(v, push, *rt, stack@, g, x) by {
                    if !lex_before(x, b as int, S as int, 0, 0) {
                        assert(!rfact_in(x, S as int, C as int));
                    }
                }
            }
            b += 1;
        }
        proof {
            assert forall|x: RFact| #[trigger] self.done_as_child(v, push, *rt, stack@, g, x) by {
                if !lex_before(x, C as int, 0, 0, 0) {
                    assert(!rfact_in(x, S as int, C as int));
                }
            }
        }
    }
}

/// Whether `(f.1, f.2, child)` comes before `(st, co, c)`.
pub open spec fn lex3_before(f: RFact, child: Color, st: int, co: int, c: int) -> bool {
    ||| f.1 < st
    ||| f.1 == st && f.2 < co
    ||| f.1 == st && f.2 == co && child < c
}

impl<const S: usize, const C: usize> Prog<S, C> {
    /// Adds the returns that pushing rules give with `g` as the return
    /// after the child's.
    fn ret_as_cont(
        &self,
        wp: &WinPossible,
        want: &Vec<bool>,
        push: bool,
        rt: &mut Returns<S, C>,
        stack: &mut Vec<RFact>,
        g: RFact,
        Ghost(clean): Ghost<bool>,
    )
        requires
            wp.sized(S as int, C as int),
            want@ == seq![true, true, true, true],
            old(rt).wf(),
            old(rt).holds(g),
            forall|q: RFact| #[trigger] old(rt).holds(q) ==> self.ret_reach(wp.side_parity@, push, clean, q),
        ensures
            forall|q: RFact| #[trigger] final(rt).holds(q) ==> self.ret_reach(wp.side_parity@, push, clean, q),
            final(rt).wf(),
            grows(old(rt).facts(), final(rt).facts(), old(rt).absent(), final(rt).absent(), old(stack)@, final(stack)@),
            forall|f: RFact| #[trigger] final(rt).holds(f) && !old(rt).holds(f) ==> exists|child: Color, r: State| #[trigger] self.ret_rule(
                wp.side_parity@,
                push,
                f,
                child,
                r,
            ) && final(rt).holds(self.child_fact(f, child, r)) && old(rt).holds(self.cont_fact(f, r)),
            forall|f: RFact, child: Color| #[trigger] self.done_as_cont(wp.side_parity@, push, *final(rt), final(stack)@, g, f, child),
    {
        proof {
            use_type_invariant(self);
            rt.lemma_wf_sizes();
            rt.lemma_holds_in(g);
        }
        let ghost v = wp.side_parity@;
        let ghost rt0 = *rt;
        let ghost s0 = stack@;
        proof {
            lemma_grows_refl(rt0.facts(), rt0.absent(), s0);
        }
        let (b, r, p, tr) = g;
        let mut st: usize = 0;
        while st < S
            invariant
                rt.wf(),
                wp.sized(S as int, C as int),
                want@ == seq![true, true, true, true],
                v == wp.side_parity@,
                g == (b, r, p, tr),
                rfact_in(g, S as int, C as int),
                rt0.holds(g),
                forall|q: RFact| #[trigger] rt.holds(q) ==> self.ret_reach(v, push, clean, q),
                st <= S,
                grows(rt0.facts(), rt.facts(), rt0.absent(), rt.absent(), s0, stack@),
                forall|f: RFact| #[trigger] rt.holds(f) && !rt0.holds(f) ==> exists|c2: Color, r2: State| #[trigger] self.ret_rule(v, push, f, c2, r2)
                    && rt.holds(self.child_fact(f, c2, r2)) && rt0.holds(self.cont_fact(f, r2)),
                forall|f: RFact, c: Color| lex3_before(f, c, st as int, 0, 0) ==> #[trigger] self.done_as_cont(v, push, *rt, stack@, g, f, c),
            decreases S - st,
        {
            let mut co: usize = 0;
            while co < C
                invariant
                    rt.wf(),
                    wp.sized(S as int, C as int),
                    want@ == seq![true, true, true, true],
                    v == wp.side_parity@,
                    g == (b, r, p, tr),
                    rfact_in(g, S as int, C as int),
                    rt0.holds(g),
                    forall|q: RFact| #[trigger] rt.holds(q) ==> self.ret_reach(v, push, clean, q),
                    st < S,
                    co <= C,
                    grows(rt0.facts(), rt.facts(), rt0.absent(), rt.absent(), s0, stack@),
                    forall|f: RFact| #[trigger] rt.holds(f) && !rt0.holds(f) ==> exists|c2: Color, r2: State| #[trigger] self.ret_rule(v, push, f, c2, r2)
                        && rt.holds(self.child_fact(f, c2, r2)) && rt0.holds(self.cont_fact(f, r2)),
                    forall|f: RFact, c: Color| lex3_before(f, c, st as int, co as int, 0) ==> #[trigger] self.done_as_cont(v, push, *rt, stack@, g, f, c),
                decreases C - co,
            {
                let target = match self.get(&(st as State, co as Color)) {
                    Some(ins) => if ins.0 == p && ins.1 == push { Some(ins.2) } else { None },
                    None => None,
                };
                if let Some(cs) = target {
                    let f = (b, st as State, co as Color, tr);
                    let mut c: usize = 0;
                    while c < C
                        invariant
                            rt.wf(),
                            wp.sized(S as int, C as int),
                            want@ == seq![true, true, true, true],
                            v == wp.side_parity@,
                            g == (b, r, p, tr),
                            rfact_in(g, S as int, C as int),
                            rt0.holds(g),
                            forall|q: RFact| #[trigger] rt.holds(q) ==> self.ret_reach(v, push, clean, q),
                            st < S,
                            co < C,
                            c <= C,
                            f == (b, st as State, co as Color, tr),
                            self.instr_at(st as int, co as int) matches Some(i) && i == (p, push, cs),
                            grows(rt0.facts(), rt.facts(), rt0.absent(), rt.absent(), s0, stack@),
                            forall|x: RFact| #[trigger] rt.holds(x) && !rt0.holds(x) ==> exists|c2: Color, r2: State| #[trigger] self.ret_rule(v, push, x, c2, r2)
                                && rt.holds(self.child_fact(x, c2, r2)) && rt0.holds(self.cont_fact(x, r2)),
                            forall|x: RFact, y: Color| lex3_before(x, y, st as int, co as int, c as int) ==> #[trigger] self.done_as_cont(v, push, *rt, stack@, g, x, y),
                        decreases C - c,
                    {
                        let cc = c as Color;
                        let chf = (p, cs, cc, r);
                        let ghost rt1 = *rt;
                        let ghost s1 = stack@;
                        assert(self.cont_fact(f, r) == g);
                        assert(self.child_fact(f, cc, r) == chf);
                        proof {
                            use_type_invariant(self);
                            self.lemma_instr_at_listed(st as int, co as int);
                            let j = choose|j: int| 0 <= j < self.instr_list().len() && #[trigger] self.instr_list()[j]
                                == self.instr_at(st as int, co as int)->0;
                            assert(self.instr_list()[j] == (p, push, cs));
                        }
                        if self.child_allowed(wp, want, push, st as State, co as Color, b, cc) && rfact_ok::<S, C>(chf) && rt.has(chf) {
                            rt.insert_push(stack, f);
                            proof {
                                assert(rt0.facts()(g));
                                assert(rt1.facts()(g));
                                assert(rt1.holds(g) && rt1.holds(chf));
                                self.lemma_ret_rule_reach(v, push, clean, f, cc, r);
                                assert forall|q: RFact| #[trigger] rt.holds(q) implies self.ret_reach(v, push, clean, q) by {
                                    if q != f {
                                        assert(rt1.holds(q));
                                    }
                                }
                                lemma_grows_trans(rt0.facts(), rt1.facts(), rt.facts(), rt0.absent(), rt1.absent(), rt.absent(), s0, s1, stack@);
                                assert(self.ret_rule(v, push, f, cc, r));
                                assert forall|h: RFact| #[trigger] rt.holds(h) && !rt0.holds(h) implies exists|c2: Color, r2: State| #[trigger] self.ret_rule(v, push, h, c2, r2)
                                    && rt.holds(self.child_fact(h, c2, r2)) && rt0.holds(self.cont_fact(h, r2)) by {
                                    if rt1.holds(h) {
                                        let (c2, r2) = choose|c2: Color, r2: State| #[trigger] self.ret_rule(v, push, h, c2, r2)
                                            && rt1.holds(self.child_fact(h, c2, r2)) && rt0.holds(self.cont_fact(h, r2));
                                        assert(rt1.facts()(self.child_fact(h, c2, r2)));
                                        assert(rt.facts()(self.child_fact(h, c2, r2)));
                                    } else {
                                        assert(h == f);
                                        assert(rt1.facts()(chf));
                                        assert(rt.facts()(chf));
                                    }
                                }
                                assert forall|x: RFact, y: Color| lex3_before(x, y, st as int, co as int, c + 1) implies #[trigger] self.done_as_cont(v, push, *rt, stack@, g, x, y) by {
                                    if lex3_before(x, y, st as int, co as int, c as int) {
                                        assert(self.done_as_cont(v, push, rt1, s1, g, x, y));
                                        if rt.holds(self.child_fact(x, y, g.1)) && !stack@.contains(self.child_fact(x, y, g.1)) {
                                            if !rt1.holds(self.child_fact(x, y, g.1)) {
                                                assert(rt.facts()(self.child_fact(x, y, g.1)) && !rt1.facts()(self.child_fact(x, y, g.1)));
                                            }
                                            assert(!s1.contains(self.child_fact(x, y, g.1))) by {
                                                if s1.contains(self.child_fact(x, y, g.1)) {
                                                    let j = choose|j: int| 0 <= j < s1.len() && s1[j] == self.child_fact(x, y, g.1);
                                                    assert(stack@.subrange(0, s1.len() as int)[j] == s1[j]);
                                                }
                                            }
                                            if self.ret_rule(v, push, x, y, g.1) && self.cont_fact(x, g.1) == g {
                                                assert(rt1.facts()(x));
                                            }
                                        }
                                    } else {
                                        if self.ret_rule(v, push, x, y, g.1) && self.cont_fact(x, g.1) == g {
                                            assert(x == f);
                                        }
                                    }
                                }
                            }
                        } else {
                            proof {
                                assert forall|x: RFact, y: Color| lex3_before(x, y, st as int, co as int, c + 1) implies #[trigger] self.done_as_cont(v, push, *rt, stack@, g, x, y) by {
                                    if !lex3_before(x, y, st as int, co as int, c as int) {
                                        if self.ret_rule(v, push, x, y, g.1) && self.cont_fact(x, g.1) == g && rt.holds(self.child_fact(x, y, g.1)) {
                                            assert(x == f);
                                            assert(y == cc);
                                            rt.lemma_holds_in(chf);
                                            assert(false);
                                        }
                                    }
                                }
                            }
                        }
                        c += 1;
                    }
                    proof {
                        assert forall|x: RFact, y: Color| lex3_before(x, y, st as int, co as int + 1, 0) implies #[trigger] self.done_as_cont(v, push, *rt, stack@, g, x, y) by {
                            if !lex3_before(x, y, st as int, co as int, C as int) {
                                if self.ret_rule(v, push, x, y, g.1) {
                                    assert(false);
                                }
                            }
                        }
                    }
                } else {
                    proof {
                        assert forall|x: RFact, y: Color| lex3_before(x, y, st as int, co as int + 1, 0) implies #[trigger] self.done_as_cont(v, push, *rt, stack@, g, x, y) by {
                            if !lex3_before(x, y, st as int, co as int, 0) {
                                if self.ret_rule(v, push, x, y, g.1) && self.cont_fact(x, g.1) == g {
                                    assert(x.1 == st && x.2 == co);
                                    assert(false);
                                }
                            }
                        }
                    }
                }
                co += 1;
            }
            proof {
                assert forall|x: RFact, y: Color| lex3_before(x, y, st as int + 1, 0, 0) implies #[trigger] self.done_as_cont(v, push, *rt, stack@, g, x, y) by {
                    if !lex3_before(x, y, st as int, C as int, 0) {
                        if self.ret_rule(v, push, x, y, g.1) {
                            assert(false);
                        }
                    }
                }
            }
            st += 1;
        }
        proof {
            assert forall|x: RFact, y: Color| #[trigger] self.done_as_cont(v, push, *rt, stack@, g, x, y) by {
                if !lex3_before(x, y, S as int, 0, 0) {
                    if self.ret_rule(v, push, x, y, g.1) {
                        assert(false);
                    }
                }
            }
        }
    }
}

/// Whether the cell of `f` comes before `(b, st, co)`, in the order of the
/// loops that seed the returns.
pub open spec fn cell_before(f: RFact, b: int, st: int, co: int) -> bool {
    ||| f.0 < b
    ||| f.0 == b && f.1 < st
    ||| f.0 == b && f.1 == st && f.2 < co
}

impl<const S: usize, const C: usize> Prog<S, C> {
    /// Whether some color may stand on the far side next to the cell, by a
    /// search.
    pub(crate) fn src_allowed(&self, wp: &WinPossible, want: &Vec<bool>, push: bool, back: Color, st: State, co: Color) -> (r: bool)
        requires
            wp.sized(S as int, C as int),
            want@ == seq![true, true, true, true],
            1 <= C <= 64,
            (st as int) < S,
            (co as int) < C,
            (back as int) < C,
        ensures
            r == self.src_ok(wp.side_parity@, push, back, st, co),
    {
        let mut c: usize = 0;
        while c < C
            invariant
                wp.sized(S as int, C as int),
                want@ == seq![true, true, true, true],
                1 <= C <= 64,
                (st as int) < S,
                (co as int) < C,
                (back as int) < C,
                c <= C,
                forall|x: Color| (x as int) < c ==> !#[trigger] child_ok(wp.side_parity@, push, st, co, back, x, C as int),
            decreases C - c,
        {
            if self.child_allowed(wp, want, push, st, co, back, c as Color) {
                assert(child_ok(wp.side_parity@, push, st, co, back, c as Color, C as int));
                return true;
            }
            c += 1;
        }
        false
    }

    /// Holds every return whose first step pops.
    fn seed_returns(&self, wp: &WinPossible, want: &Vec<bool>, push: bool, clean: bool, rt: &mut Returns<S, C>, stack: &mut Vec<RFact>)
        requires
            wp.sized(S as int, C as int),
            want@ == seq![true, true, true, true],
            old(rt).wf(),
            forall|q: RFact| !#[trigger] old(rt).holds(q),
            old(stack)@.len() == 0,
        ensures
            final(rt).wf(),
            forall|i: int| 0 <= i < final(stack)@.len() ==> final(rt).holds(#[trigger] final(stack)@[i]),
            forall|q: RFact| #[trigger] final(rt).holds(q) ==> final(stack)@.contains(q),
            forall|q: RFact| #[trigger] final(rt).holds(q) ==> self.ret_reach(wp.side_parity@, push, clean, q),
            forall|q: RFact| #[trigger] self.ret_seed(wp.side_parity@, push, clean, q) ==> final(rt).holds(q),
    {
        proof {
            rt.lemma_wf_sizes();
        }
        let ghost v = wp.side_parity@;
        let mut b: usize = 0;
        while b < C
            invariant
                rt.wf(),
                wp.sized(S as int, C as int),
                want@ == seq![true, true, true, true],
                1 <= S <= 64,
                1 <= C <= 64,
                v == wp.side_parity@,
                b <= C,
                forall|i: int| 0 <= i < stack@.len() ==> rt.holds(#[trigger] stack@[i]),
                forall|q: RFact| #[trigger] rt.holds(q) ==> stack@.contains(q),
                forall|q: RFact| #[trigger] rt.holds(q) ==> self.ret_reach(v, push, clean, q),
                forall|q: RFact| #[trigger] self.ret_seed(v, push, clean, q) && cell_before(q, b as int, 0, 0) ==> rt.holds(q),
            decreases C - b,
        {
            let mut st: usize = 0;
            while st < S
                invariant
                    rt.wf(),
                    wp.sized(S as int, C as int),
                    want@ == seq![true, true, true, true],
                    1 <= S <= 64,
                    1 <= C <= 64,
                    v == wp.side_parity@,
                    b < C,
                    st <= S,
                    forall|i: int| 0 <= i < stack@.len() ==> rt.holds(#[trigger] stack@[i]),
                    forall|q: RFact| #[trigger] rt.holds(q) ==> stack@.contains(q),
                    forall|q: RFact| #[trigger] rt.holds(q) ==> self.ret_reach(v, push, clean, q),
                    forall|q: RFact| #[trigger] self.ret_seed(v, push, clean, q) && cell_before(q, b as int, st as int, 0) ==> rt.holds(q),
                decreases S - st,
            {
                let mut co: usize = 0;
                while co < C
                    invariant
                        rt.wf(),
                        wp.sized(S as int, C as int),
                        want@ == seq![true, true, true, true],
                        1 <= S <= 64,
                        1 <= C <= 64,
                        v == wp.side_parity@,
                        b < C,
                        st < S,
                        co <= C,
                        forall|i: int| 0 <= i < stack@.len() ==> rt.holds(#[trigger] stack@[i]),
                        forall|q: RFact| #[trigger] rt.holds(q) ==> stack@.contains(q),
                        forall|q: RFact| #[trigger] rt.holds(q) ==> self.ret_reach(v, push, clean, q),
                        forall|q: RFact| #[trigger] self.ret_seed(v, push, clean, q) && cell_before(q, b as int, st as int, co as int) ==> rt.holds(q),
                    decreases C - co,
                {
                    let found = match self.get(&(st as State, co as Color)) {
                        Some(ins) => if ins.1 == !push && (!clean || ins.0 == 0) { Some(ins.2) } else { None },
                        None => None,
                    };
                    let f = match found {
                        Some(tr) => (b as Color, st as State, co as Color, tr),
                        None => (b as Color, st as State, co as Color, 0),
                    };
                    if found.is_some() && rfact_ok::<S, C>(f) && self.src_allowed(wp, want, push, b as Color, st as State, co as Color) {
                        let ghost rt1 = *rt;
                        let ghost s1 = stack@;
                        assert(self.ret_seed(v, push, clean, f));
                        assert(self.ret_reach(v, push, clean, f)) by {
                            assert forall|set: spec_fn(RFact) -> bool| #[trigger] self.ret_closed(v, push, clean, set) implies set(f) by {}
                        }
                        rt.insert_push(stack, f);
                        proof {
                            assert forall|i: int| 0 <= i < stack@.len() implies rt.holds(#[trigger] stack@[i]) by {
                                if i < s1.len() {
                                    assert(stack@.subrange(0, s1.len() as int)[i] == s1[i]);
                                    assert(rt1.facts()(s1[i]));
                                    assert(rt.facts()(s1[i]));
                                }
                            }
                            assert forall|q: RFact| #[trigger] rt.holds(q) implies stack@.contains(q) by {
                                if rt1.holds(q) {
                                    assert(s1.contains(q));
                                    let j = choose|j: int| 0 <= j < s1.len() && s1[j] == q;
                                    assert(stack@.subrange(0, s1.len() as int)[j] == q);
                                } else {
                                    assert(rt.facts()(q) && !rt1.facts()(q));
                                }
                            }
                            assert forall|q: RFact| #[trigger] rt.holds(q) implies self.ret_reach(v, push, clean, q) by {
                                if q != f {
                                    assert(rt1.holds(q));
                                }
                            }
                            assert forall|q: RFact| #[trigger] self.ret_seed(v, push, clean, q) && cell_before(q, b as int, st as int, co + 1) implies rt.holds(q) by {
                                if cell_before(q, b as int, st as int, co as int) {
                                    assert(rt1.facts()(q));
                                    assert(rt.facts()(q));
                                } else {
                                    assert(q == f);
                                }
                            }
                        }
                    } else {
                        proof {
                            assert forall|q: RFact| #[trigger] self.ret_seed(v, push, clean, q) && cell_before(q, b as int, st as int, co + 1) implies rt.holds(q) by {
                                if !cell_before(q, b as int, st as int, co as int) {
                                    assert(q.0 == b && q.1 == st && q.2 == co);
                                    assert(q == f);
                                    assert(false);
                                }
                            }
                        }
                    }
                    co += 1;
                }
                proof {
                    assert forall|q: RFact| #[trigger] self.ret_seed(v, push, clean, q) && cell_before(q, b as int, st + 1, 0) implies rt.holds(q) by {
                        if !cell_before(q, b as int, st as int, C as int) {
                            assert(!rfact_in(q, S as int, C as int));
                        }
                    }
                }
                st += 1;
            }
            proof {
                assert forall|q: RFact| #[trigger] self.ret_seed(v, push, clean, q) && cell_before(q, b + 1, 0, 0) implies rt.holds(q) by {
                    if !cell_before(q, b as int, S as int, 0) {
                        assert(!rfact_in(q, S as int, C as int));
                    }
                }
            }
            b += 1;
        }
        proof {
            assert forall|q: RFact| #[trigger] self.ret_seed(v, push, clean, q) implies rt.holds(q) by {
                if !cell_before(q, C as int, 0, 0) {
                    assert(!rfact_in(q, S as int, C as int));
                }
            }
        }
    }
}

/// The one-sided returns of a machine, toward one side.
pub struct SideExcursions<const S: usize, const C: usize> {
    returns: Returns<S, C>,
}

impl<const S: usize, const C: usize> SideExcursions<S, C> {
    /// The table has one entry per return.
    pub closed spec fn wf(&self) -> bool {
        self.returns.wf()
    }

    /// Whether the return is possible.
    pub closed spec fn holds(&self, f: RFact) -> bool {
        self.returns.holds(f)
    }

    /// Whether a return in range is possible.
    pub fn has(&self, f: RFact) -> (r: bool)
        requires
            self.wf(),
            rfact_in(f, S as int, C as int),
        ensures
            r == self.holds(f),
    {
        self.returns.has(f)
    }

    pub proof fn lemma_wf_sizes(&self)
        requires
            self.wf(),
        ensures
            1 <= S <= 64,
            1 <= C <= 64,
    {
        self.returns.lemma_wf_sizes();
    }

    /// The states that a return from the cell in state `st` reading `co`,
    /// with `back` across the boundary, may go into, as a mask: bit `tr`
    /// for state `tr`.
    pub fn ret_states(&self, back: usize, st: usize, co: usize) -> (m: u64)
        requires
            self.wf(),
            back < C,
            st < S,
            co < C,
        ensures
            forall|j: int| 0 <= j < S ==> #[trigger] mask_bit(m, j) == self.holds((back as Color, st as State, co as Color, j as State)),
            forall|j: int| S <= j < 64 ==> !#[trigger] mask_bit(m, j),
    {
        proof {
            self.returns.lemma_wf_sizes();
        }
        let mut m: u64 = 0;
        let mut tr: usize = 0;
        proof {
            assert forall|j: int| 0 <= j < 64 implies !#[trigger] mask_bit(m, j) by {
                lemma_or_bit(0, 0, j as u64);
            }
        }
        while tr < S
            invariant
                self.wf(),
                1 <= S <= 64,
                back < C,
                st < S,
                co < C,
                tr <= S,
                forall|j: int| 0 <= j < tr ==> #[trigger] mask_bit(m, j) == self.holds((back as Color, st as State, co as Color, j as State)),
                forall|j: int| tr <= j < 64 ==> !#[trigger] mask_bit(m, j),
            decreases S - tr,
        {
            let ghost m0 = m;
            if self.returns.has((back as Color, st as State, co as Color, tr as State)) {
                m = m | (1u64 << tr as u64);
                proof {
                    assert forall|j: int| 0 <= j < 64 implies #[trigger] mask_bit(m, j) == (mask_bit(m0, j) || j == tr) by {
                        lemma_or_bit(m0, tr as u64, j as u64);
                    }
                }
            }
            tr += 1;
        }
        m
    }
}

/// The one-sided returns toward the side that `push` steps to (right when
/// true): the least set of returns that holds every return whose first
/// step pops and is closed under the pushing rule, found by a worklist.
pub fn side_excursions<const S: usize, const C: usize>(prog: &Prog<S, C>, windows: &WinPossible, push: bool, clean: bool) -> (r: SideExcursions<S, C>)
    requires
        1 <= S <= 64,
        1 <= C <= 64,
        windows.sized(S as int, C as int),
    ensures
        r.wf(),
        forall|f: RFact| #[trigger] r.holds(f) == prog.ret_reach(windows.side_parity@, push, clean, f),
{
    let ghost v = windows.side_parity@;
    let want = want_all(4);
    assert(want@ =~= seq![true, true, true, true]);
    let mut rt = Returns::<S, C>::new();
    let mut stack: Vec<RFact> = Vec::new();
    prog.seed_returns(windows, &want, push, clean, &mut rt, &mut stack);
    proof {
        assert forall|f: RFact, child: Color, r: State| #[trigger] prog.ret_rule(v, push, f, child, r) && rt.holds(prog.child_fact(f, child, r))
            && rt.holds(prog.cont_fact(f, r)) && !stack@.contains(prog.child_fact(f, child, r)) && !stack@.contains(prog.cont_fact(f, r)) implies rt.holds(f) by {}
    }
    while stack.len() > 0
        invariant
            rt.wf(),
            windows.sized(S as int, C as int),
            want@ == seq![true, true, true, true],
            v == windows.side_parity@,
            forall|q: RFact| #[trigger] prog.ret_seed(v, push, clean, q) ==> rt.holds(q),
            forall|q: RFact| #[trigger] rt.holds(q) ==> prog.ret_reach(v, push, clean, q),
            forall|i: int| 0 <= i < stack@.len() ==> rt.holds(#[trigger] stack@[i]),
            forall|f: RFact, child: Color, r: State| #[trigger] prog.ret_rule(v, push, f, child, r) && rt.holds(prog.child_fact(f, child, r))
                && rt.holds(prog.cont_fact(f, r)) && !stack@.contains(prog.child_fact(f, child, r)) && !stack@.contains(prog.cont_fact(f, r))
                ==> rt.holds(f),
        decreases rt.absent(), stack@.len(),
    {
        let ghost stack0 = stack@;
        let ghost rt0 = rt;
        let g = stack.pop().unwrap();
        let ghost popped = stack@;
        proof {
            assert(stack0 =~= popped.push(g));
            assert(stack0[popped.len() as int] == g);
        }
        prog.ret_as_child(windows, &want, push, &mut rt, &mut stack, g, Ghost(clean));
        let ghost rt1 = rt;
        let ghost s1 = stack@;
        proof {
            rt0.lemma_holds_in(g);
            assert(rt0.facts()(g));
            assert(rt1.facts()(g));
        }
        prog.ret_as_cont(windows, &want, push, &mut rt, &mut stack, g, Ghost(clean));
        proof {
            lemma_grows_trans(rt0.facts(), rt1.facts(), rt.facts(), rt0.absent(), rt1.absent(), rt.absent(), popped, s1, stack@);
            assert forall|q: RFact| #[trigger] prog.ret_seed(v, push, clean, q) implies rt.holds(q) by {
                assert(rt0.facts()(q));
                assert(rt.facts()(q));
            }
            assert forall|i: int| 0 <= i < stack@.len() implies rt.holds(#[trigger] stack@[i]) by {
                if i < popped.len() {
                    assert(stack@.subrange(0, popped.len() as int)[i] == popped[i]);
                    assert(popped[i] == stack0[i]);
                    assert(rt0.holds(stack0[i]));
                    assert(rt0.facts()(stack0[i]));
                    assert(rt.facts()(stack0[i]));
                }
            }
            assert forall|f: RFact, child: Color, r: State| #[trigger] prog.ret_rule(v, push, f, child, r) && rt.holds(prog.child_fact(f, child, r))
                && rt.holds(prog.cont_fact(f, r)) && !stack@.contains(prog.child_fact(f, child, r)) && !stack@.contains(prog.cont_fact(f, r))
                implies rt.holds(f) by {
                let chf = prog.child_fact(f, child, r);
                let cnf = prog.cont_fact(f, r);
                if cnf == g {
                    assert(r == g.1);
                    assert(prog.done_as_cont(v, push, rt, stack@, g, f, child));
                } else if chf == g {
                    assert(r == g.3 && child == g.2);
                    assert(prog.done_as_child(v, push, rt1, s1, g, f));
                    if !rt1.holds(cnf) {
                        assert(rt.facts()(cnf) && !rt1.facts()(cnf));
                    }
                    assert(!s1.contains(cnf)) by {
                        if s1.contains(cnf) {
                            let j = choose|j: int| 0 <= j < s1.len() && s1[j] == cnf;
                            assert(stack@.subrange(0, s1.len() as int)[j] == s1[j]);
                        }
                    }
                    assert(rt1.facts()(f));
                } else {
                    if !rt0.holds(chf) {
                        assert(rt.facts()(chf) && !rt0.facts()(chf));
                    }
                    if !rt0.holds(cnf) {
                        assert(rt.facts()(cnf) && !rt0.facts()(cnf));
                    }
                    assert(!stack0.contains(chf)) by {
                        if stack0.contains(chf) {
                            let j = choose|j: int| 0 <= j < stack0.len() && stack0[j] == chf;
                            assert(j < popped.len());
                            assert(stack@.subrange(0, popped.len() as int)[j] == popped[j]);
                            assert(stack@[j] == chf);
                        }
                    }
                    assert(!stack0.contains(cnf)) by {
                        if stack0.contains(cnf) {
                            let j = choose|j: int| 0 <= j < stack0.len() && stack0[j] == cnf;
                            assert(j < popped.len());
                            assert(stack@.subrange(0, popped.len() as int)[j] == popped[j]);
                            assert(stack@[j] == cnf);
                        }
                    }
                    assert(rt0.facts()(f));
                }
            }
        }
    }
    proof {
        assert(prog.ret_closed(v, push, clean, rt.facts())) by {
            assert forall|f: RFact, child: Color, r: State| #[trigger] prog.ret_rule(v, push, f, child, r) && rt.facts()(prog.child_fact(f, child, r))
                && rt.facts()(prog.cont_fact(f, r)) implies rt.facts()(f) by {}
        }
        assert forall|f: RFact| #[trigger] rt.holds(f) == prog.ret_reach(v, push, clean, f) by {
            if prog.ret_reach(v, push, clean, f) {
                assert(rt.facts()(f));
            }
        }
    }
    SideExcursions { returns: rt }
}

/// Whether a return is in range.
pub(crate) fn rfact_ok<const S: usize, const C: usize>(f: RFact) -> (r: bool)
    ensures
        r == rfact_in(f, S as int, C as int),
{
    (f.0 as usize) < C && (f.1 as usize) < S && (f.2 as usize) < C && (f.3 as usize) < S
}

} // verus!
