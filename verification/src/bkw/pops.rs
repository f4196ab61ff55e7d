//! The color left behind by the last step of a one-sided excursion.
//!
//! A return pops back across the boundary in its last step; that step
//! prints a color on the cell it leaves, which becomes the neighbor on the
//! far side once the excursion is over. A return whose first step pops
//! leaves what that step prints. A return whose first step pushes leaves
//! whatever the return from the cell again, after the child's, leaves.
use vstd::prelude::*;

use crate::bkw::excursions::{RFact, SideExcursions, cell_before, child_ok, lemma_rpos, lex3_before, rfact_in, rfact_ok, rpos};
use crate::bkw::sides::{lemma_idx2, lemma_idx2_inj, lemma_or_bit, mask_bit, idx2};
use crate::bkw::tails::{falses, grows, lemma_grows_refl, lemma_grows_trans};
use crate::bkw::windows::{WinPossible, count_false, lemma_count_update, want_all};
use crate::bkw::{prints_below, targets_below};
use crate::instrs::{Color, State};
use crate::prog::Prog;

verus! {

/// A return and a color its last step may leave.
pub type PopFact = (RFact, Color);

/// The position of a pop fact in its table.
pub open spec fn ppos(f: PopFact, states: int, colors: int) -> int {
    idx2(rpos(f.0, states, colors), f.1 as int, colors)
}

proof fn lemma_pop_size(states: int, colors: int)
    requires
        1 <= states <= 64,
        1 <= colors <= 64,
    ensures
        colors * states <= 4096,
        colors * states * colors <= 262144,
        colors * states * colors * states <= 16777216,
        colors * states * colors * states * colors <= 1073741824,
{
    assert(colors * states <= 64 * 64) by (nonlinear_arith)
        requires
            1 <= states <= 64,
            1 <= colors <= 64,
    ;
    assert(colors * states * colors <= 64 * 64 * 64) by (nonlinear_arith)
        requires
            1 <= colors <= 64,
            0 <= colors * states <= 64 * 64,
    ;
    assert(colors * states * colors * states <= 64 * 64 * 64 * 64) by (nonlinear_arith)
        requires
            1 <= states <= 64,
            0 <= colors * states * colors <= 64 * 64 * 64,
    ;
    assert(colors * states * colors * states * colors <= 64 * 64 * 64 * 64 * 64) by (nonlinear_arith)
        requires
            1 <= colors <= 64,
            0 <= colors * states * colors * states <= 64 * 64 * 64 * 64,
    ;
}

proof fn lemma_ppos(f: PopFact, g: PopFact, states: int, colors: int)
    requires
        1 <= states,
        1 <= colors,
        rfact_in(f.0, states, colors),
        rfact_in(g.0, states, colors),
        f.1 < colors,
        g.1 < colors,
    ensures
        0 <= ppos(f, states, colors) < colors * states * colors * states * colors,
        ppos(f, states, colors) == ppos(g, states, colors) ==> f == g,
{
    lemma_rpos(f.0, g.0, states, colors);
    lemma_idx2(rpos(f.0, states, colors), f.1 as int, colors * states * colors * states, colors);
    if ppos(f, states, colors) == ppos(g, states, colors) {
        lemma_idx2_inj(rpos(f.0, states, colors), f.1 as int, rpos(g.0, states, colors), g.1 as int, colors);
    }
}

impl<const S: usize, const C: usize> Prog<S, C> {
    /// Whether a set of pop facts holds what each return that pops at once
    /// prints, and is closed under the pushing rule: a return from the cell
    /// again, after a possible child's return, leaves its color to the
    /// return that pushed.
    pub open spec fn pop_closed(&self, v: Seq<bool>, push: bool, set: spec_fn(PopFact) -> bool) -> bool {
        &&& forall|f: RFact| #[trigger] self.ret_seed(v, push, false, f) ==> set((f, (self.instr_at(f.1 as int, f.2 as int)->0).0))
        &&& forall|f: RFact, child: Color, r: State, k: Color| #[trigger] self.ret_rule(v, push, f, child, r) && self.ret_reach(
            v,
            push,
            false,
            self.child_fact(f, child, r),
        ) && #[trigger] set((self.cont_fact(f, r), k)) ==> set((f, k))
    }

    /// Whether a return may leave a color: it is in every closed set.
    pub open spec fn pop_reach(&self, v: Seq<bool>, push: bool, f: PopFact) -> bool {
        forall|set: spec_fn(PopFact) -> bool| #[trigger] self.pop_closed(v, push, set) ==> set(f)
    }

    /// A color is left only by a possible return.
    pub proof fn lemma_pops_return(&self, v: Seq<bool>, push: bool, f: PopFact)
        requires
            self.pop_reach(v, push, f),
        ensures
            self.ret_reach(v, push, false, f.0),
    {
        let rets = |g: PopFact| self.ret_reach(v, push, false, g.0);
        assert(self.pop_closed(v, push, rets)) by {
            assert forall|x: RFact| #[trigger] self.ret_seed(v, push, false, x) implies rets((x, (self.instr_at(x.1 as int, x.2 as int)->0).0)) by {
                assert forall|set: spec_fn(RFact) -> bool| #[trigger] self.ret_closed(v, push, false, set) implies set(x) by {}
            }
            assert forall|x: RFact, child: Color, r: State, k: Color| #[trigger] self.ret_rule(v, push, x, child, r) && self.ret_reach(
                v,
                push,
                false,
                self.child_fact(x, child, r),
            ) && #[trigger] rets((self.cont_fact(x, r), k)) implies rets((x, k)) by {
                self.lemma_ret_rule_reach(v, push, false, x, child, r);
            }
        }
    }

    /// Whether a set holds every pop fact that the pushing rule gives from
    /// `g` as the return after the child's.
    pub open spec fn pop_done(&self, v: Seq<bool>, push: bool, set: spec_fn(PopFact) -> bool, g: PopFact) -> bool {
        forall|f: RFact, child: Color| #[trigger] self.ret_rule(v, push, f, child, g.0.1) && self.cont_fact(f, g.0.1) == g.0
            && self.ret_reach(v, push, false, self.child_fact(f, child, g.0.1)) ==> set((f, g.1))
    }
}

/// The colors the last steps of returns may leave: one entry per return
/// and color.
pub struct ExcursionPops<const S: usize, const C: usize> {
    table: Vec<bool>,
}

impl<const S: usize, const C: usize> ExcursionPops<S, C> {
    /// The table has one entry per pop fact.
    pub closed spec fn wf(&self) -> bool {
        &&& 1 <= S <= 64
        &&& 1 <= C <= 64
        &&& self.table@.len() == C * S * C * S * C
    }

    /// Whether the table holds a pop fact (in range).
    pub closed spec fn holds(&self, f: PopFact) -> bool {
        &&& rfact_in(f.0, S as int, C as int)
        &&& f.1 < C
        &&& self.table@[ppos(f, S as int, C as int)]
    }

    pub open spec fn facts(&self) -> spec_fn(PopFact) -> bool {
        |f: PopFact| self.holds(f)
    }

    pub closed spec fn absent(&self) -> nat {
        count_false(self.table@)
    }

    pub proof fn lemma_holds_in(&self, f: PopFact)
        requires
            self.holds(f),
        ensures
            rfact_in(f.0, S as int, C as int),
            f.1 < C,
    {
    }

    fn new() -> (r: Self)
        requires
            1 <= S <= 64,
            1 <= C <= 64,
        ensures
            r.wf(),
            forall|f: PopFact| !r.holds(f),
    {
        proof {
            lemma_pop_size(S as int, C as int);
        }
        assert(usize::MAX >= 1073741824);
        let r = ExcursionPops { table: falses(C * S * C * S * C) };
        proof {
            assert forall|f: PopFact| !r.holds(f) by {
                if rfact_in(f.0, S as int, C as int) && f.1 < C {
                    lemma_ppos(f, f, S as int, C as int);
                }
            }
        }
        r
    }

    fn pos_of(&self, f: PopFact) -> (r: usize)
        requires
            self.wf(),
            rfact_in(f.0, S as int, C as int),
            f.1 < C,
        ensures
            r == ppos(f, S as int, C as int),
            r < self.table@.len(),
    {
        proof {
            lemma_ppos(f, f, S as int, C as int);
            lemma_pop_size(S as int, C as int);
            let g = f.0;
            lemma_idx2(g.0 as int, g.1 as int, C as int, S as int);
            lemma_idx2(idx2(g.0 as int, g.1 as int, S as int), g.2 as int, C * S, C as int);
            lemma_idx2(idx2(idx2(g.0 as int, g.1 as int, S as int), g.2 as int, C as int), g.3 as int, C * S * C, S as int);
        }
        let g = f.0;
        assert(usize::MAX >= 1073741824);
        (((g.0 as usize * S + g.1 as usize) * C + g.2 as usize) * S + g.3 as usize) * C + f.1 as usize
    }

    /// Whether the table holds a pop fact in range.
    pub fn has(&self, f: PopFact) -> (r: bool)
        requires
            self.wf(),
            rfact_in(f.0, S as int, C as int),
            f.1 < C,
        ensures
            r == self.holds(f),
    {
        self.table[self.pos_of(f)]
    }

    fn insert_push(&mut self, stack: &mut Vec<PopFact>, f: PopFact)
        requires
            old(self).wf(),
            rfact_in(f.0, S as int, C as int),
            f.1 < C,
        ensures
            final(self).wf(),
            final(self).holds(f),
            forall|h: PopFact| #[trigger] final(self).holds(h) ==> old(self).holds(h) || h == f,
            grows(old(self).facts(), final(self).facts(), old(self).absent(), final(self).absent(), old(stack)@, final(stack)@),
    {
        let ghost s0 = stack@;
        let pos = self.pos_of(f);
        if self.table[pos] {
            proof {
                lemma_grows_refl(self.facts(), self.absent(), s0);
            }
            return;
        }
        proof {
            lemma_count_update(self.table@, pos as int);
        }
        self.table.set(pos, true);
        stack.push(f);
        proof {
            assert forall|g: PopFact| #[trigger] self.holds(g) == (old(self).holds(g) || g == f) by {
                if rfact_in(g.0, S as int, C as int) && g.1 < C {
                    lemma_ppos(g, f, S as int, C as int);
                }
            }
            assert(stack@[s0.len() as int] == f);
            assert(stack@.subrange(0, s0.len() as int) =~= s0);
            assert forall|g: PopFact| #[trigger] self.facts()(g) && !old(self).facts()(g) implies stack@.contains(g) by {
                assert(g == f);
            }
        }
    }

    /// The colors the return may leave, as a mask: bit `k` for color `k`.
    pub fn pop_colors(&self, f: RFact) -> (m: u64)
        requires
            self.wf(),
            rfact_in(f, S as int, C as int),
        ensures
            forall|j: int| 0 <= j < C ==> #[trigger] mask_bit(m, j) == self.holds((f, j as Color)),
            forall|j: int| C <= j < 64 ==> !#[trigger] mask_bit(m, j),
    {
        let mut m: u64 = 0;
        let mut k: usize = 0;
        proof {
            assert forall|j: int| 0 <= j < 64 implies !#[trigger] mask_bit(m, j) by {
                lemma_or_bit(0, 0, j as u64);
            }
        }
        while k < C
            invariant
                self.wf(),
                rfact_in(f, S as int, C as int),
                k <= C,
                forall|j: int| 0 <= j < k ==> #[trigger] mask_bit(m, j) == self.holds((f, j as Color)),
                forall|j: int| k <= j < 64 ==> !#[trigger] mask_bit(m, j),
            decreases C - k,
        {
            let ghost m0 = m;
            if self.has((f, k as Color)) {
                m = m | (1u64 << k as u64);
                proof {
                    assert forall|j: int| 0 <= j < 64 implies #[trigger] mask_bit(m, j) == (mask_bit(m0, j) || j == k) by {
                        lemma_or_bit(m0, k as u64, j as u64);
                    }
                }
            }
            k += 1;
        }
        m
    }
}

impl<const S: usize, const C: usize> Prog<S, C> {
    /// Holds what each return that pops at once prints.
    fn seed_pops(&self, wp: &WinPossible, want: &Vec<bool>, push: bool, pt: &mut ExcursionPops<S, C>, stack: &mut Vec<PopFact>)
        requires
            wp.sized(S as int, C as int),
            want@ == seq![true, true, true, true],
            old(pt).wf(),
            forall|q: PopFact| !#[trigger] old(pt).holds(q),
            old(stack)@.len() == 0,
            prints_below(self.instr_list(), C as int),
        ensures
            final(pt).wf(),
            forall|i: int| 0 <= i < final(stack)@.len() ==> final(pt).holds(#[trigger] final(stack)@[i]),
            forall|q: PopFact| #[trigger] final(pt).holds(q) ==> final(stack)@.contains(q),
            forall|q: PopFact| #[trigger] final(pt).holds(q) ==> self.pop_reach(wp.side_parity@, push, q),
            forall|f: RFact| #[trigger] self.ret_seed(wp.side_parity@, push, false, f) ==> final(pt).holds(
                (f, (self.instr_at(f.1 as int, f.2 as int)->0).0),
            ),
    {
        let ghost v = wp.side_parity@;
        proof {
            use_type_invariant(self);
        }
        let mut b: usize = 0;
        while b < C
            invariant
                self.shape(),
                prints_below(self.instr_list(), C as int),
                pt.wf(),
                wp.sized(S as int, C as int),
                want@ == seq![true, true, true, true],
                v == wp.side_parity@,
                b <= C,
                forall|i: int| 0 <= i < stack@.len() ==> pt.holds(#[trigger] stack@[i]),
                forall|q: PopFact| #[trigger] pt.holds(q) ==> stack@.contains(q),
                forall|q: PopFact| #[trigger] pt.holds(q) ==> self.pop_reach(v, push, q),
                forall|f: RFact| #[trigger] self.ret_seed(v, push, false, f) && cell_before(f, b as int, 0, 0) ==> pt.holds(
                    (f, (self.instr_at(f.1 as int, f.2 as int)->0).0),
                ),
            decreases C - b,
        {
            let mut st: usize = 0;
            while st < S
                invariant
                    self.shape(),
                    prints_below(self.instr_list(), C as int),
                    pt.wf(),
                    wp.sized(S as int, C as int),
                    want@ == seq![true, true, true, true],
                    v == wp.side_parity@,
                    b < C,
                    st <= S,
                    forall|i: int| 0 <= i < stack@.len() ==> pt.holds(#[trigger] stack@[i]),
                    forall|q: PopFact| #[trigger] pt.holds(q) ==> stack@.contains(q),
                    forall|q: PopFact| #[trigger] pt.holds(q) ==> self.pop_reach(v, push, q),
                    forall|f: RFact| #[trigger] self.ret_seed(v, push, false, f) && cell_before(f, b as int, st as int, 0) ==> pt.holds(
                        (f, (self.instr_at(f.1 as int, f.2 as int)->0).0),
                    ),
                decreases S - st,
            {
                let mut co: usize = 0;
                while co < C
                    invariant
                        self.shape(),
                        prints_below(self.instr_list(), C as int),
                        pt.wf(),
                        wp.sized(S as int, C as int),
                        want@ == seq![true, true, true, true],
                        v == wp.side_parity@,
                        b < C,
                        st < S,
                        co <= C,
                        forall|i: int| 0 <= i < stack@.len() ==> pt.holds(#[trigger] stack@[i]),
                        forall|q: PopFact| #[trigger] pt.holds(q) ==> stack@.contains(q),
                        forall|q: PopFact| #[trigger] pt.holds(q) ==> self.pop_reach(v, push, q),
                        forall|f: RFact| #[trigger] self.ret_seed(v, push, false, f) && cell_before(f, b as int, st as int, co as int) ==> pt.holds(
                            (f, (self.instr_at(f.1 as int, f.2 as int)->0).0),
                        ),
                    decreases C - co,
                {
                    let found = match self.get(&(st as State, co as Color)) {
                        Some(ins) => if ins.1 == !push { Some((ins.0, ins.2)) } else { None },
                        None => None,
                    };
                    let (print, tr) = match found {
                        Some(x) => x,
                        None => (0, 0),
                    };
                    let f = (b as Color, st as State, co as Color, tr);
                    if found.is_some() && print < C as Color && rfact_ok::<S, C>(f) && self.src_allowed(wp, want, push, b as Color, st as State, co as Color) {
                        let ghost pt1 = *pt;
                        let ghost s1 = stack@;
                        let g = (f, print);
                        assert(self.ret_seed(v, push, false, f));
                        assert(self.pop_reach(v, push, g)) by {
                            assert forall|set: spec_fn(PopFact) -> bool| #[trigger] self.pop_closed(v, push, set) implies set(g) by {}
                        }
                        pt.insert_push(stack, g);
                        proof {
                            assert forall|i: int| 0 <= i < stack@.len() implies pt.holds(#[trigger] stack@[i]) by {
                                if i < s1.len() {
                                    assert(stack@.subrange(0, s1.len() as int)[i] == s1[i]);
                                    assert(pt1.facts()(s1[i]));
                                    assert(pt.facts()(s1[i]));
                                }
                            }
                            assert forall|q: PopFact| #[trigger] pt.holds(q) implies stack@.contains(q) by {
                                if pt1.holds(q) {
                                    assert(s1.contains(q));
                                    let j = choose|j: int| 0 <= j < s1.len() && s1[j] == q;
                                    assert(stack@.subrange(0, s1.len() as int)[j] == q);
                                } else {
                                    assert(pt.facts()(q) && !pt1.facts()(q));
                                }
                            }
                            assert forall|q: PopFact| #[trigger] pt.holds(q) implies self.pop_reach(v, push, q) by {
                                if q != g {
                                    assert(pt1.holds(q));
                                }
                            }
                            assert forall|x: RFact| #[trigger] self.ret_seed(v, push, false, x) && cell_before(x, b as int, st as int, co + 1)
                                implies pt.holds((x, (self.instr_at(x.1 as int, x.2 as int)->0).0)) by {
                                if cell_before(x, b as int, st as int, co as int) {
                                    assert(pt1.facts()((x, (self.instr_at(x.1 as int, x.2 as int)->0).0)));
                                    assert(pt.facts()((x, (self.instr_at(x.1 as int, x.2 as int)->0).0)));
                                } else {
                                    assert(x == f);
                                }
                            }
                        }
                    } else {
                        proof {
                            assert forall|x: RFact| #[trigger] self.ret_seed(v, push, false, x) && cell_before(x, b as int, st as int, co + 1)
                                implies pt.holds((x, (self.instr_at(x.1 as int, x.2 as int)->0).0)) by {
                                if !cell_before(x, b as int, st as int, co as int) {
                                    assert(x.0 == b && x.1 == st && x.2 == co);
                                    self.lemma_instr_at_listed(st as int, co as int);
                                    assert(x == f);
                                    assert(false);
                                }
                            }
                        }
                    }
                    co += 1;
                }
                proof {
                    assert forall|x: RFact| #[trigger] self.ret_seed(v, push, false, x) && cell_before(x, b as int, st + 1, 0)
                        implies pt.holds((x, (self.instr_at(x.1 as int, x.2 as int)->0).0)) by {
                        if !cell_before(x, b as int, st as int, C as int) {
                            assert(!rfact_in(x, S as int, C as int));
                        }
                    }
                }
                st += 1;
            }
            proof {
                assert forall|x: RFact| #[trigger] self.ret_seed(v, push, false, x) && cell_before(x, b + 1, 0, 0)
                    implies pt.holds((x, (self.instr_at(x.1 as int, x.2 as int)->0).0)) by {
                    if !cell_before(x, b as int, S as int, 0) {
                        assert(!rfact_in(x, S as int, C as int));
                    }
                }
            }
            b += 1;
        }
        proof {
            assert forall|x: RFact| #[trigger] self.ret_seed(v, push, false, x)
                implies pt.holds((x, (self.instr_at(x.1 as int, x.2 as int)->0).0)) by {
                if !cell_before(x, C as int, 0, 0) {
                    assert(!rfact_in(x, S as int, C as int));
                }
            }
        }
    }
}

impl<const S: usize, const C: usize> Prog<S, C> {
    /// Whether the pushing rule from `x` with child color `y`, where its
    /// return after the child's is `g`'s, gives `x` `g`'s color.
    pub open spec fn pop_done_at(&self, v: Seq<bool>, push: bool, pt: ExcursionPops<S, C>, g: PopFact, x: RFact, y: Color) -> bool {
        self.ret_rule(v, push, x, y, g.0.1) && self.cont_fact(x, g.0.1) == g.0 && self.ret_reach(v, push, false, self.child_fact(x, y, g.0.1))
            ==> pt.holds((x, g.1))
    }

    /// Adds the pop facts that the pushing rule gives from `g`.
    fn pop_step(
        &self,
        wp: &WinPossible,
        want: &Vec<bool>,
        push: bool,
        ex: &SideExcursions<S, C>,
        pt: &mut ExcursionPops<S, C>,
        stack: &mut Vec<PopFact>,
        g: PopFact,
    )
        requires
            wp.sized(S as int, C as int),
            want@ == seq![true, true, true, true],
            old(pt).wf(),
            old(pt).holds(g),
            ex.wf(),
            forall|f: RFact| #[trigger] ex.holds(f) == self.ret_reach(wp.side_parity@, push, false, f),
            self.pop_reach(wp.side_parity@, push, g),
            prints_below(self.instr_list(), C as int),
            targets_below(self.instr_list(), S as int),
        ensures
            final(pt).wf(),
            grows(old(pt).facts(), final(pt).facts(), old(pt).absent(), final(pt).absent(), old(stack)@, final(stack)@),
            forall|h: PopFact| #[trigger] final(pt).holds(h) && !old(pt).holds(h) ==> self.pop_reach(wp.side_parity@, push, h),
            self.pop_done(wp.side_parity@, push, final(pt).facts(), g),
    {
        let ghost v = wp.side_parity@;
        let ghost pt0 = *pt;
        let ghost s0 = stack@;
        proof {
            use_type_invariant(self);
            pt.lemma_holds_in(g);
            ex.lemma_wf_sizes();
            lemma_grows_refl(pt0.facts(), pt0.absent(), s0);
        }
        let ((b, r, p, tr), k) = g;
        let mut st: usize = 0;
        while st < S
            invariant
                self.shape(),
                prints_below(self.instr_list(), C as int),
                targets_below(self.instr_list(), S as int),
                pt.wf(),
                ex.wf(),
                wp.sized(S as int, C as int),
                want@ == seq![true, true, true, true],
                v == wp.side_parity@,
                forall|f: RFact| #[trigger] ex.holds(f) == self.ret_reach(v, push, false, f),
                self.pop_reach(v, push, g),
                g == ((b, r, p, tr), k),
                rfact_in(g.0, S as int, C as int),
                k < C,
                1 <= C <= 64,
                st <= S,
                grows(pt0.facts(), pt.facts(), pt0.absent(), pt.absent(), s0, stack@),
                forall|h: PopFact| #[trigger] pt.holds(h) && !pt0.holds(h) ==> self.pop_reach(v, push, h),
                forall|x: RFact, y: Color| lex3_before(x, y, st as int, 0, 0) ==> #[trigger] self.pop_done_at(v, push, *pt, g, x, y),
            decreases S - st,
        {
            let mut co: usize = 0;
            while co < C
                invariant
                    self.shape(),
                    prints_below(self.instr_list(), C as int),
                    targets_below(self.instr_list(), S as int),
                    pt.wf(),
                    ex.wf(),
                    wp.sized(S as int, C as int),
                    want@ == seq![true, true, true, true],
                    v == wp.side_parity@,
                    forall|f: RFact| #[trigger] ex.holds(f) == self.ret_reach(v, push, false, f),
                    self.pop_reach(v, push, g),
                    g == ((b, r, p, tr), k),
                    rfact_in(g.0, S as int, C as int),
                    k < C,
                    1 <= C <= 64,
                    st < S,
                    co <= C,
                    grows(pt0.facts(), pt.facts(), pt0.absent(), pt.absent(), s0, stack@),
                    forall|h: PopFact| #[trigger] pt.holds(h) && !pt0.holds(h) ==> self.pop_reach(v, push, h),
                    forall|x: RFact, y: Color| lex3_before(x, y, st as int, co as int, 0) ==> #[trigger] self.pop_done_at(v, push, *pt, g, x, y),
                decreases C - co,
            {
                let target = match self.get(&(st as State, co as Color)) {
                    Some(ins) => if ins.0 == p && ins.1 == push { Some(ins.2) } else { None },
                    None => None,
                };
                if let Some(cs) = target {
                    let f = (b, st as State, co as Color, tr);
                    let mut c: usize = 0;
                    while c < C
                        invariant
                            self.shape(),
                            prints_below(self.instr_list(), C as int),
                            targets_below(self.instr_list(), S as int),
                            pt.wf(),
                            ex.wf(),
                            wp.sized(S as int, C as int),
                            want@ == seq![true, true, true, true],
                            v == wp.side_parity@,
                            forall|f: RFact| #[trigger] ex.holds(f) == self.ret_reach(v, push, false, f),
                            self.pop_reach(v, push, g),
                            g == ((b, r, p, tr), k),
                            rfact_in(g.0, S as int, C as int),
                            k < C,
                            1 <= C <= 64,
                            st < S,
                            co < C,
                            c <= C,
                            f == (b, st as State, co as Color, tr),
                            self.instr_at(st as int, co as int) matches Some(i) && i == (p, push, cs),
                            grows(pt0.facts(), pt.facts(), pt0.absent(), pt.absent(), s0, stack@),
                            forall|h: PopFact| #[trigger] pt.holds(h) && !pt0.holds(h) ==> self.pop_reach(v, push, h),
                            forall|x: RFact, y: Color| lex3_before(x, y, st as int, co as int, c as int) ==> #[trigger] self.pop_done_at(v, push, *pt, g, x, y),
                        decreases C - c,
                    {
                        let cc = c as Color;
                        let chf = (p, cs, cc, r);
                        assert(self.cont_fact(f, r) == g.0);
                        assert(self.child_fact(f, cc, r) == chf);
                        if self.child_allowed(wp, want, push, st as State, co as Color, b, cc) && rfact_ok::<S, C>(chf) && ex.has(chf) {
                            let ghost pt1 = *pt;
                            let ghost s1 = stack@;
                            let h = (f, k);
                            assert(self.ret_rule(v, push, f, cc, r));
                            assert(self.pop_reach(v, push, h)) by {
                                assert forall|set: spec_fn(PopFact) -> bool| #[trigger] self.pop_closed(v, push, set) implies set(h) by {
                                    assert(set(g));
                                    assert(set((self.cont_fact(f, r), k)));
                                }
                            }
                            pt.insert_push(stack, h);
                            proof {
                                lemma_grows_trans(pt0.facts(), pt1.facts(), pt.facts(), pt0.absent(), pt1.absent(), pt.absent(), s0, s1, stack@);
                                assert forall|q: PopFact| #[trigger] pt.holds(q) && !pt0.holds(q) implies self.pop_reach(v, push, q) by {
                                    if q != h {
                                        assert(pt1.holds(q));
                                    }
                                }
                                assert forall|x: RFact, y: Color| lex3_before(x, y, st as int, co as int, c + 1) implies #[trigger] self.pop_done_at(v, push, *pt, g, x, y) by {
                                    if lex3_before(x, y, st as int, co as int, c as int) {
                                        assert(self.pop_done_at(v, push, pt1, g, x, y));
                                        if pt1.holds((x, k)) {
                                            assert(pt1.facts()((x, k)));
                                            assert(pt.facts()((x, k)));
                                        }
                                    } else {
                                        if self.ret_rule(v, push, x, y, g.0.1) && self.cont_fact(x, g.0.1) == g.0 {
                                            assert(x == f);
                                        }
                                    }
                                }
                            }
                        } else {
                            proof {
                                assert forall|x: RFact, y: Color| lex3_before(x, y, st as int, co as int, c + 1) implies #[trigger] self.pop_done_at(v, push, *pt, g, x, y) by {
                                    if !lex3_before(x, y, st as int, co as int, c as int) {
                                        if self.ret_rule(v, push, x, y, g.0.1) && self.cont_fact(x, g.0.1) == g.0 && self.ret_reach(v, push, false, self.child_fact(x, y, g.0.1)) {
                                            assert(x == f);
                                            assert(y == cc);
                                            self.lemma_instr_at_listed(st as int, co as int);
                                            assert(ex.holds(chf));
                                            assert(false);
                                        }
                                    }
                                }
                            }
                        }
                        c += 1;
                    }
                    proof {
                        assert forall|x: RFact, y: Color| lex3_before(x, y, st as int, co as int + 1, 0) implies #[trigger] self.pop_done_at(v, push, *pt, g, x, y) by {
                            if !lex3_before(x, y, st as int, co as int, C as int) {
                                if self.ret_rule(v, push, x, y, g.0.1) {
                                    assert(false);
                                }
                            }
                        }
                    }
                } else {
                    proof {
                        assert forall|x: RFact, y: Color| lex3_before(x, y, st as int, co as int + 1, 0) implies #[trigger] self.pop_done_at(v, push, *pt, g, x, y) by {
                            if !lex3_before(x, y, st as int, co as int, 0) {
                                if self.ret_rule(v, push, x, y, g.0.1) && self.cont_fact(x, g.0.1) == g.0 {
                                    assert(x.1 == st && x.2 == co);
                                    assert(false);
                                }
                            }
                        }
                    }
                }
                co += 1;
            }
            proof {
                assert forall|x: RFact, y: Color| lex3_before(x, y, st as int + 1, 0, 0) implies #[trigger] self.pop_done_at(v, push, *pt, g, x, y) by {
                    if !lex3_before(x, y, st as int, C as int, 0) {
                        if self.ret_rule(v, push, x, y, g.0.1) {
                            assert(false);
                        }
                    }
                }
            }
            st += 1;
        }
        proof {
            assert forall|x: RFact, y: Color| #[trigger] self.ret_rule(v, push, x, y, g.0.1) && self.cont_fact(x, g.0.1) == g.0
                && self.ret_reach(v, push, false, self.child_fact(x, y, g.0.1)) implies pt.facts()((x, g.1)) by {
                assert(self.pop_done_at(v, push, *pt, g, x, y));
                assert(lex3_before(x, y, S as int, 0, 0));
            }
        }
    }
}

/// The colors the last steps of the one-sided returns toward the side
/// that `push` steps to may leave: the least pop facts that hold what each
/// return that pops at once prints and are closed under the pushing rule,
/// found by a worklist over the returns `ex` (those of
/// `side_excursions` without `clean`).
pub fn excursion_pops<const S: usize, const C: usize>(prog: &Prog<S, C>, windows: &WinPossible, push: bool, ex: &SideExcursions<S, C>) -> (r: ExcursionPops<S, C>)
    requires
        1 <= S <= 64,
        1 <= C <= 64,
        windows.sized(S as int, C as int),
        prints_below(prog.instr_list(), C as int),
        targets_below(prog.instr_list(), S as int),
        ex.wf(),
        forall|f: RFact| #[trigger] ex.holds(f) == prog.ret_reach(windows.side_parity@, push, false, f),
    ensures
        r.wf(),
        forall|f: PopFact| #[trigger] r.holds(f) == prog.pop_reach(windows.side_parity@, push, f),
{
    let ghost v = windows.side_parity@;
    let want = want_all(4);
    assert(want@ =~= seq![true, true, true, true]);
    let mut pt = ExcursionPops::<S, C>::new();
    let mut stack: Vec<PopFact> = Vec::new();
    prog.seed_pops(windows, &want, push, &mut pt, &mut stack);
    while stack.len() > 0
        invariant
            pt.wf(),
            ex.wf(),
            prints_below(prog.instr_list(), C as int),
            targets_below(prog.instr_list(), S as int),
            windows.sized(S as int, C as int),
            want@ == seq![true, true, true, true],
            v == windows.side_parity@,
            forall|f: RFact| #[trigger] ex.holds(f) == prog.ret_reach(v, push, false, f),
            forall|f: RFact| #[trigger] prog.ret_seed(v, push, false, f) ==> pt.holds((f, (prog.instr_at(f.1 as int, f.2 as int)->0).0)),
            forall|q: PopFact| #[trigger] pt.holds(q) ==> prog.pop_reach(v, push, q),
            forall|i: int| 0 <= i < stack@.len() ==> pt.holds(#[trigger] stack@[i]),
            forall|q: PopFact| #[trigger] pt.holds(q) && !stack@.contains(q) ==> prog.pop_done(v, push, pt.facts(), q),
        decreases pt.absent(), stack@.len(),
    {
        let ghost stack0 = stack@;
        let ghost pt0 = pt;
        let g = stack.pop().unwrap();
        let ghost popped = stack@;
        proof {
            assert(stack0 =~= popped.push(g));
            assert(stack0[popped.len() as int] == g);
        }
        prog.pop_step(windows, &want, push, ex, &mut pt, &mut stack, g);
        proof {
            assert forall|q: PopFact| #[trigger] pt.holds(q) implies prog.pop_reach(v, push, q) by {}
            assert forall|f: RFact| #[trigger] prog.ret_seed(v, push, false, f) implies pt.holds((f, (prog.instr_at(f.1 as int, f.2 as int)->0).0)) by {
                assert(pt0.facts()((f, (prog.instr_at(f.1 as int, f.2 as int)->0).0)));
                assert(pt.facts()((f, (prog.instr_at(f.1 as int, f.2 as int)->0).0)));
            }
            assert forall|i: int| 0 <= i < stack@.len() implies pt.holds(#[trigger] stack@[i]) by {
                if i < popped.len() {
                    assert(stack@.subrange(0, popped.len() as int)[i] == popped[i]);
                    assert(popped[i] == stack0[i]);
                    assert(pt0.holds(stack0[i]));
                    assert(pt0.facts()(stack0[i]));
                    assert(pt.facts()(stack0[i]));
                }
            }
            assert forall|h: PopFact| #[trigger] pt.holds(h) && !stack@.contains(h) implies prog.pop_done(v, push, pt.facts(), h) by {
                if h != g {
                    if !pt0.holds(h) {
                        assert(pt.facts()(h) && !pt0.facts()(h));
                        assert(stack@.contains(h));
                    }
                    assert(!stack0.contains(h)) by {
                        if stack0.contains(h) {
                            let j = choose|j: int| 0 <= j < stack0.len() && stack0[j] == h;
                            assert(j < popped.len());
                            assert(stack@.subrange(0, popped.len() as int)[j] == popped[j]);
                            assert(stack@[j] == h);
                        }
                    }
                    assert(prog.pop_done(v, push, pt0.facts(), h));
                    assert forall|x: RFact, y: Color| #[trigger] prog.ret_rule(v, push, x, y, h.0.1) && prog.cont_fact(x, h.0.1) == h.0
                        && prog.ret_reach(v, push, false, prog.child_fact(x, y, h.0.1)) implies pt.facts()((x, h.1)) by {
                        assert(pt0.facts()((x, h.1)));
                    }
                }
            }
        }
    }
    proof {
        assert(prog.pop_closed(v, push, pt.facts())) by {
            assert forall|f: RFact, child: Color, r: State, k: Color| #[trigger] prog.ret_rule(v, push, f, child, r) && prog.ret_reach(
                v,
                push,
                false,
                prog.child_fact(f, child, r),
            ) && #[trigger] pt.facts()((prog.cont_fact(f, r), k)) implies pt.facts()((f, k)) by {
                assert(prog.pop_done(v, push, pt.facts(), (prog.cont_fact(f, r), k)));
            }
        }
        assert forall|f: PopFact| #[trigger] pt.holds(f) == prog.pop_reach(v, push, f) by {
            if prog.pop_reach(v, push, f) {
                assert(pt.facts()(f));
            }
        }
    }
    pt
}

} // verus!
