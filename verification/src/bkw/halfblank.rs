//! Checkpoints at which one whole side of the tape is blank.
//!
//! A checkpoint is a state, the scanned color, and the exact inward
//! neighbor on the other (away) side; everything on the blank side is
//! blank. From a checkpoint the machine may make a whole excursion into
//! the away side and return, leaving the color its last step printed as the
//! new inward neighbor; or, printing blank, move away directly onto the
//! inward neighbor; or move into the blank side, its printed color the new
//! inward neighbor; or make a whole excursion into the blank side that
//! leaves it blank (a clean one) and return, the inward neighbor unchanged.
//! Only checkpoints whose window the window tables allow are kept.
use vstd::prelude::*;

use crate::bkw::excursions::{RFact, SideExcursions, child_ok, rfact_in, side_excursions};
use crate::bkw::joint::{BlankSidePossible, JFact, joint_blank_status_from_blank};
use crate::bkw::pops::{ExcursionPops, PopFact, excursion_pops};
use crate::bkw::sides::{idx2, lemma_idx2, lemma_idx2_inj, lemma_or_bit, mask_bit};
use crate::bkw::tails::{falses, grows, lemma_grows_refl, lemma_grows_trans};
use crate::bkw::windows::{WinPossible, count_false, lemma_count_update, want_all};
use crate::bkw::{prints_below, targets_below};
use crate::instrs::{Color, Instr, State};
use crate::prog::Prog;

verus! {

/// A checkpoint: state, scanned color, inward neighbor on the away side.
pub type HFact = (State, Color, Color);

pub open spec fn hfact_in(h: HFact, states: int, colors: int) -> bool {
    h.0 < states && h.1 < colors && h.2 < colors
}

pub open spec fn hpos(h: HFact, colors: int) -> int {
    idx2(idx2(h.0 as int, h.1 as int, colors), h.2 as int, colors)
}

proof fn lemma_hpos(h: HFact, g: HFact, states: int, colors: int)
    requires
        hfact_in(h, states, colors),
        hfact_in(g, states, colors),
    ensures
        0 <= hpos(h, colors) < states * colors * colors,
        hpos(h, colors) == hpos(g, colors) ==> h == g,
{
    lemma_idx2(h.0 as int, h.1 as int, states, colors);
    lemma_idx2(idx2(h.0 as int, h.1 as int, colors), h.2 as int, states * colors, colors);
    if hpos(h, colors) == hpos(g, colors) {
        lemma_idx2_inj(idx2(h.0 as int, h.1 as int, colors), h.2 as int, idx2(g.0 as int, g.1 as int, colors), g.2 as int, colors);
        lemma_idx2_inj(h.0 as int, h.1 as int, g.0 as int, g.1 as int, colors);
    }
}

/// A whole excursion into the away side from the cell after step `i`,
/// returning into `h2`'s state and leaving `h2`'s inward neighbor.
pub open spec fn half_ret_step<const S: usize, const C: usize>(prog: Prog<S, C>, v: Seq<bool>, blank: bool, h: HFact, i: Instr, h2: HFact) -> bool {
    &&& i.1 == !blank
    &&& h2.1 == i.0
    &&& prog.ret_reach(v, !blank, false, (i.0, i.2, h.2, h2.0))
    &&& prog.pop_reach(v, !blank, ((i.0, i.2, h.2, h2.0), h2.2))
}

/// A blank printed while moving away onto the inward neighbor.
pub open spec fn half_direct_step(blank: bool, h: HFact, i: Instr, h2: HFact) -> bool {
    i.1 == !blank && i.0 == 0 && h2.0 == i.2 && h2.1 == h.2
}

/// A move into the blank side.
pub open spec fn half_enter_step(blank: bool, h: HFact, i: Instr, h2: HFact) -> bool {
    i.1 == blank && h2 == (i.2, 0u8, i.0)
}

/// A clean excursion into the blank side, returning into `h2`'s state.
pub open spec fn half_clean_step<const S: usize, const C: usize>(prog: Prog<S, C>, v: Seq<bool>, blank: bool, h: HFact, i: Instr, h2: HFact) -> bool {
    &&& i.1 == blank
    &&& h2.1 == i.0
    &&& h2.2 == h.2
    &&& prog.ret_reach(v, blank, true, (i.0, i.2, 0, h2.0))
}

impl<const S: usize, const C: usize> Prog<S, C> {
    /// Whether a checkpoint may be kept: the window tables allow its
    /// window with a blank neighbor on the blank side.
    pub open spec fn half_admit(&self, v: Seq<bool>, blank: bool, h: HFact) -> bool {
        hfact_in(h, S as int, C as int) && child_ok(v, !blank, h.0, h.1, 0, h.2, C as int)
    }

    /// Whether checkpoint `h2` follows `h`; `blank` is the blank side
    /// (right when true). With `frontier`, the blank side is the unvisited
    /// side beyond the head, and only returns from the other side and moves
    /// onto the blank side step from checkpoint to checkpoint.
    pub open spec fn half_next(&self, v: Seq<bool>, blank: bool, frontier: bool, h: HFact, h2: HFact) -> bool {
        &&& hfact_in(h, S as int, C as int)
        &&& match self.instr_at(h.0 as int, h.1 as int) {
            Some(i) => half_ret_step(*self, v, blank, h, i, h2) || half_enter_step(blank, h, i, h2) || !frontier && (half_direct_step(
                blank,
                h,
                i,
                h2,
            ) || half_clean_step(*self, v, blank, h, i, h2)),
            None => false,
        }
        &&& self.half_admit(v, blank, h2)
    }

    /// Whether a set of checkpoints holds the blank start (where it may be
    /// kept) and is closed under steps.
    pub open spec fn half_closed(&self, v: Seq<bool>, blank: bool, frontier: bool, set: spec_fn(HFact) -> bool) -> bool {
        &&& self.half_admit(v, blank, (0, 0, 0)) ==> set((0, 0, 0))
        &&& forall|h: HFact, h2: HFact| #[trigger] self.half_next(v, blank, frontier, h, h2) ==> (set(h) ==> set(h2))
    }

    /// Whether a checkpoint holds on runs: it is in every closed set.
    pub open spec fn half_reach(&self, v: Seq<bool>, blank: bool, frontier: bool, h: HFact) -> bool {
        forall|set: spec_fn(HFact) -> bool| #[trigger] self.half_closed(v, blank, frontier, set) ==> set(h)
    }

    pub open spec fn half_done(&self, v: Seq<bool>, blank: bool, frontier: bool, set: spec_fn(HFact) -> bool, h: HFact) -> bool {
        forall|h2: HFact| #[trigger] self.half_next(v, blank, frontier, h, h2) ==> set(h2)
    }
}

/// The checkpoints found: one entry per checkpoint.
pub struct HalfBlank<const S: usize, const C: usize> {
    table: Vec<bool>,
}

impl<const S: usize, const C: usize> HalfBlank<S, C> {
    pub closed spec fn wf(&self) -> bool {
        &&& 1 <= S <= 64
        &&& 1 <= C <= 64
        &&& self.table@.len() == S * C * C
    }

    pub closed spec fn holds(&self, h: HFact) -> bool {
        &&& hfact_in(h, S as int, C as int)
        &&& self.table@[hpos(h, C as int)]
    }

    pub open spec fn facts(&self) -> spec_fn(HFact) -> bool {
        |h: HFact| self.holds(h)
    }

    pub closed spec fn absent(&self) -> nat {
        count_false(self.table@)
    }

    pub proof fn lemma_holds_in(&self, h: HFact)
        requires
            self.holds(h),
        ensures
            hfact_in(h, S as int, C as int),
    {
    }

    fn new() -> (r: Self)
        requires
            1 <= S <= 64,
            1 <= C <= 64,
        ensures
            r.wf(),
            forall|h: HFact| !r.holds(h),
    {
        assert(S * C <= 4096) by (nonlinear_arith)
            requires
                1 <= S <= 64,
                1 <= C <= 64,
        ;
        assert(S * C * C <= 262144) by (nonlinear_arith)
            requires
                1 <= C <= 64,
                S * C <= 4096,
        ;
        let r = HalfBlank { table: falses(S * C * C) };
        proof {
            assert forall|h: HFact| !r.holds(h) by {
                if hfact_in(h, S as int, C as int) {
                    lemma_hpos(h, h, S as int, C as int);
                }
            }
        }
        r
    }

    fn pos_of(&self, h: HFact) -> (r: usize)
        requires
            self.wf(),
            hfact_in(h, S as int, C as int),
        ensures
            r == hpos(h, C as int),
            r < self.table@.len(),
    {
        proof {
            lemma_hpos(h, h, S as int, C as int);
            lemma_idx2(h.0 as int, h.1 as int, S as int, C as int);
            lemma_idx2(idx2(h.0 as int, h.1 as int, C as int), h.2 as int, S * C, C as int);
        }
        assert(S * C * C <= 262144) by (nonlinear_arith)
            requires
                1 <= S <= 64,
                1 <= C <= 64,
        ;
        assert((h.0 as int) * (C as int) < 4096 && ((h.0 as int) * (C as int) + (h.1 as int)) * (C as int) + (h.2 as int) < 262144) by (nonlinear_arith)
            requires
                h.0 < S,
                h.1 < C,
                h.2 < C,
                1 <= S <= 64,
                1 <= C <= 64,
        ;
        assert(usize::MAX >= 262144);
        (h.0 as usize * C + h.1 as usize) * C + h.2 as usize
    }

    pub fn has(&self, h: HFact) -> (r: bool)
        requires
            self.wf(),
            hfact_in(h, S as int, C as int),
        ensures
            r == self.holds(h),
    {
        self.table[self.pos_of(h)]
    }

    fn insert_push(&mut self, stack: &mut Vec<HFact>, h: HFact)
        requires
            old(self).wf(),
            hfact_in(h, S as int, C as int),
        ensures
            final(self).wf(),
            final(self).holds(h),
            forall|g: HFact| #[trigger] final(self).holds(g) ==> old(self).holds(g) || g == h,
            grows(old(self).facts(), final(self).facts(), old(self).absent(), final(self).absent(), old(stack)@, final(stack)@),
    {
        let ghost s0 = stack@;
        let pos = self.pos_of(h);
        if self.table[pos] {
            proof {
                lemma_grows_refl(self.facts(), self.absent(), s0);
            }
            return;
        }
        proof {
            lemma_count_update(self.table@, pos as int);
        }
        self.table.set(pos, true);
        stack.push(h);
        proof {
            assert forall|g: HFact| #[trigger] self.holds(g) == (old(self).holds(g) || g == h) by {
                if hfact_in(g, S as int, C as int) {
                    lemma_hpos(g, h, S as int, C as int);
                }
            }
            assert(stack@[s0.len() as int] == h);
            assert(stack@.subrange(0, s0.len() as int) =~= s0);
            assert forall|g: HFact| #[trigger] self.facts()(g) && !old(self).facts()(g) implies stack@.contains(g) by {
                assert(g == h);
            }
        }
    }

    /// The inward neighbors held with the state and scanned color, as a
    /// mask: bit `k` for neighbor `k`.
    pub fn near_mask(&self, st: usize, co: usize) -> (m: u64)
        requires
            self.wf(),
            st < S,
            co < C,
        ensures
            forall|j: int| 0 <= j < C ==> #[trigger] mask_bit(m, j) == self.holds((st as State, co as Color, j as Color)),
            forall|j: int| C <= j < 64 ==> !#[trigger] mask_bit(m, j),
    {
        let mut m: u64 = 0;
        let mut k: usize = 0;
        proof {
            assert forall|j: int| 0 <= j < 64 implies !#[trigger] mask_bit(m, j) by {
                lemma_or_bit(0, 0, j as u64);
            }
        }
        while k < C
            invariant
                self.wf(),
                st < S,
                co < C,
                k <= C,
                forall|j: int| 0 <= j < k ==> #[trigger] mask_bit(m, j) == self.holds((st as State, co as Color, j as Color)),
                forall|j: int| k <= j < 64 ==> !#[trigger] mask_bit(m, j),
            decreases C - k,
        {
            let ghost m0 = m;
            if self.has((st as State, co as Color, k as Color)) {
                m = m | (1u64 << k as u64);
                proof {
                    assert forall|j: int| 0 <= j < 64 implies #[trigger] mask_bit(m, j) == (mask_bit(m0, j) || j == k) by {
                        lemma_or_bit(m0, k as u64, j as u64);
                    }
                }
            }
            k += 1;
        }
        m
    }
}

/// Whether `h2` comes before `(a, b, c)`, in the order of the loops that
/// go through checkpoints.
pub open spec fn h_before(h2: HFact, a: int, b: int, c: int) -> bool {
    ||| h2.0 < a
    ||| h2.0 == a && h2.1 < b
    ||| h2.0 == a && h2.1 == b && h2.2 < c
}

impl<const S: usize, const C: usize> Prog<S, C> {
    fn half_admit_check(&self, wp: &WinPossible, want: &Vec<bool>, blank: bool, h: HFact) -> (r: bool)
        requires
            wp.sized(S as int, C as int),
            want@ == seq![true, true, true, true],
            1 <= C <= 64,
        ensures
            r == self.half_admit(wp.side_parity@, blank, h),
    {
        if !((h.0 as usize) < S && (h.1 as usize) < C && (h.2 as usize) < C) {
            return false;
        }
        self.child_allowed(wp, want, !blank, h.0, h.1, 0, h.2)
    }

    /// Whether checkpoint `h2` follows `h`, by the tables.
    fn half_next_check(
        &self,
        wp: &WinPossible,
        want: &Vec<bool>,
        blank: bool,
        frontier: bool,
        clean: Option<&SideExcursions<S, C>>,
        away: &SideExcursions<S, C>,
        pops: &ExcursionPops<S, C>,
        h: HFact,
        h2: HFact,
    ) -> (r: bool)
        requires
            1 <= S <= 64,
            1 <= C <= 64,
            wp.sized(S as int, C as int),
            want@ == seq![true, true, true, true],
            prints_below(self.instr_list(), C as int),
            targets_below(self.instr_list(), S as int),
            frontier == clean.is_none(),
            clean matches Some(cl) ==> cl.wf() && forall|f: RFact| #[trigger] cl.holds(f) == self.ret_reach(wp.side_parity@, blank, true, f),
            away.wf(),
            forall|f: RFact| #[trigger] away.holds(f) == self.ret_reach(wp.side_parity@, !blank, false, f),
            pops.wf(),
            forall|f: PopFact| #[trigger] pops.holds(f) == self.pop_reach(wp.side_parity@, !blank, f),
            hfact_in(h, S as int, C as int),
        ensures
            r == self.half_next(wp.side_parity@, blank, frontier, h, h2),
    {
        let ghost v = wp.side_parity@;
        if !((h2.0 as usize) < S && (h2.1 as usize) < C && (h2.2 as usize) < C) {
            return false;
        }
        let i = match self.get(&(h.0, h.1)) {
            Some(ins) => *ins,
            None => {
                return false;
            },
        };
        proof {
            use_type_invariant(self);
            self.lemma_instr_at_listed(h.0 as int, h.1 as int);
            let j = choose|j: int| 0 <= j < self.instr_list().len() && #[trigger] self.instr_list()[j] == self.instr_at(h.0 as int, h.1 as int)->0;
            assert(self.instr_list()[j] == i);
        }
        let f = (i.0, i.2, h.2, h2.0);
        let c1 = i.1 == !blank && h2.1 == i.0 && away.has(f) && pops.has((f, h2.2));
        let c2 = !frontier && i.1 == !blank && i.0 == 0 && h2.0 == i.2 && h2.1 == h.2;
        let c3 = i.1 == blank && h2.0 == i.2 && h2.1 == 0 && h2.2 == i.0;
        let c4 = match clean {
            Some(cl) => i.1 == blank && h2.1 == i.0 && h2.2 == h.2 && cl.has((i.0, i.2, 0, h2.0)),
            None => false,
        };
        assert(c1 == half_ret_step(*self, v, blank, h, i, h2));
        assert(c3 == half_enter_step(blank, h, i, h2));
        (c1 || c2 || c3 || c4) && self.half_admit_check(wp, want, blank, h2)
    }

    /// Adds every checkpoint that follows `h`.
    fn half_step(
        &self,
        wp: &WinPossible,
        want: &Vec<bool>,
        blank: bool,
        frontier: bool,
        clean: Option<&SideExcursions<S, C>>,
        away: &SideExcursions<S, C>,
        pops: &ExcursionPops<S, C>,
        ht: &mut HalfBlank<S, C>,
        stack: &mut Vec<HFact>,
        h: HFact,
    )
        requires
            1 <= S <= 64,
            1 <= C <= 64,
            wp.sized(S as int, C as int),
            want@ == seq![true, true, true, true],
            prints_below(self.instr_list(), C as int),
            targets_below(self.instr_list(), S as int),
            frontier == clean.is_none(),
            clean matches Some(cl) ==> cl.wf() && forall|f: RFact| #[trigger] cl.holds(f) == self.ret_reach(wp.side_parity@, blank, true, f),
            away.wf(),
            forall|f: RFact| #[trigger] away.holds(f) == self.ret_reach(wp.side_parity@, !blank, false, f),
            pops.wf(),
            forall|f: PopFact| #[trigger] pops.holds(f) == self.pop_reach(wp.side_parity@, !blank, f),
            old(ht).wf(),
            old(ht).holds(h),
        ensures
            final(ht).wf(),
            grows(old(ht).facts(), final(ht).facts(), old(ht).absent(), final(ht).absent(), old(stack)@, final(stack)@),
            forall|g: HFact| #[trigger] final(ht).holds(g) && !old(ht).holds(g) ==> self.half_next(wp.side_parity@, blank, frontier, h, g),
            self.half_done(wp.side_parity@, blank, frontier, final(ht).facts(), h),
    {
        let ghost v = wp.side_parity@;
        let ghost ht0 = *ht;
        let ghost s0 = stack@;
        proof {
            ht.lemma_holds_in(h);
            lemma_grows_refl(ht0.facts(), ht0.absent(), s0);
        }
        let mut a: usize = 0;
        while a < S
            invariant
                1 <= S <= 64,
                1 <= C <= 64,
                wp.sized(S as int, C as int),
                want@ == seq![true, true, true, true],
                v == wp.side_parity@,
                prints_below(self.instr_list(), C as int),
                targets_below(self.instr_list(), S as int),
                frontier == clean.is_none(),
                clean matches Some(cl) ==> cl.wf() && forall|f: RFact| #[trigger] cl.holds(f) == self.ret_reach(v, blank, true, f),
                away.wf(),
                forall|f: RFact| #[trigger] away.holds(f) == self.ret_reach(v, !blank, false, f),
                pops.wf(),
                forall|f: PopFact| #[trigger] pops.holds(f) == self.pop_reach(v, !blank, f),
                hfact_in(h, S as int, C as int),
                ht.wf(),
                a <= S,
                grows(ht0.facts(), ht.facts(), ht0.absent(), ht.absent(), s0, stack@),
                forall|g: HFact| #[trigger] ht.holds(g) && !ht0.holds(g) ==> self.half_next(v, blank, frontier, h, g),
                forall|g: HFact| #[trigger] self.half_next(v, blank, frontier, h, g) && h_before(g, a as int, 0, 0) ==> ht.holds(g),
            decreases S - a,
        {
            let mut b: usize = 0;
            while b < C
                invariant
                    1 <= S <= 64,
                    1 <= C <= 64,
                    wp.sized(S as int, C as int),
                    want@ == seq![true, true, true, true],
                    v == wp.side_parity@,
                    prints_below(self.instr_list(), C as int),
                    targets_below(self.instr_list(), S as int),
                    frontier == clean.is_none(),
                    clean matches Some(cl) ==> cl.wf() && forall|f: RFact| #[trigger] cl.holds(f) == self.ret_reach(v, blank, true, f),
                    away.wf(),
                    forall|f: RFact| #[trigger] away.holds(f) == self.ret_reach(v, !blank, false, f),
                    pops.wf(),
                    forall|f: PopFact| #[trigger] pops.holds(f) == self.pop_reach(v, !blank, f),
                    hfact_in(h, S as int, C as int),
                    ht.wf(),
                    a < S,
                    b <= C,
                    grows(ht0.facts(), ht.facts(), ht0.absent(), ht.absent(), s0, stack@),
                    forall|g: HFact| #[trigger] ht.holds(g) && !ht0.holds(g) ==> self.half_next(v, blank, frontier, h, g),
                    forall|g: HFact| #[trigger] self.half_next(v, blank, frontier, h, g) && h_before(g, a as int, b as int, 0) ==> ht.holds(g),
                decreases C - b,
            {
                let mut c: usize = 0;
                while c < C
                    invariant
                        1 <= S <= 64,
                        1 <= C <= 64,
                        wp.sized(S as int, C as int),
                        want@ == seq![true, true, true, true],
                        v == wp.side_parity@,
                        prints_below(self.instr_list(), C as int),
                        targets_below(self.instr_list(), S as int),
                        frontier == clean.is_none(),
                        clean matches Some(cl) ==> cl.wf() && forall|f: RFact| #[trigger] cl.holds(f) == self.ret_reach(v, blank, true, f),
                        away.wf(),
                        forall|f: RFact| #[trigger] away.holds(f) == self.ret_reach(v, !blank, false, f),
                        pops.wf(),
                        forall|f: PopFact| #[trigger] pops.holds(f) == self.pop_reach(v, !blank, f),
                        hfact_in(h, S as int, C as int),
                        ht.wf(),
                        a < S,
                        b < C,
                        c <= C,
                        grows(ht0.facts(), ht.facts(), ht0.absent(), ht.absent(), s0, stack@),
                        forall|g: HFact| #[trigger] ht.holds(g) && !ht0.holds(g) ==> self.half_next(v, blank, frontier, h, g),
                        forall|g: HFact| #[trigger] self.half_next(v, blank, frontier, h, g) && h_before(g, a as int, b as int, c as int) ==> ht.holds(g),
                    decreases C - c,
                {
                    let h2 = (a as State, b as Color, c as Color);
                    if self.half_next_check(wp, want, blank, frontier, clean, away, pops, h, h2) {
                        let ghost ht1 = *ht;
                        let ghost s1 = stack@;
                        ht.insert_push(stack, h2);
                        proof {
                            lemma_grows_trans(ht0.facts(), ht1.facts(), ht.facts(), ht0.absent(), ht1.absent(), ht.absent(), s0, s1, stack@);
                            assert forall|g: HFact| #[trigger] ht.holds(g) && !ht0.holds(g) implies self.half_next(v, blank, frontier, h, g) by {
                                if g != h2 {
                                    assert(ht1.holds(g));
                                }
                            }
                            assert forall|g: HFact| #[trigger] self.half_next(v, blank, frontier, h, g) && h_before(g, a as int, b as int, c + 1) implies ht.holds(g) by {
                                if g != h2 {
                                    assert(ht1.facts()(g));
                                    assert(ht.facts()(g));
                                }
                            }
                        }
                    }
                    c += 1;
                }
                proof {
                    assert forall|g: HFact| #[trigger] self.half_next(v, blank, frontier, h, g) && h_before(g, a as int, b + 1, 0) implies ht.holds(g) by {
                        assert(h_before(g, a as int, b as int, C as int));
                    }
                }
                b += 1;
            }
            proof {
                assert forall|g: HFact| #[trigger] self.half_next(v, blank, frontier, h, g) && h_before(g, a + 1, 0, 0) implies ht.holds(g) by {
                    assert(h_before(g, a as int, C as int, 0));
                }
            }
            a += 1;
        }
        proof {
            assert forall|g: HFact| #[trigger] self.half_next(v, blank, frontier, h, g) implies ht.facts()(g) by {
                assert(h_before(g, S as int, 0, 0));
            }
        }
    }
}

/// The checkpoints on runs from the blank tape: the least set that holds
/// the start and is closed under steps, found by a worklist over the
/// returns into the other side (`away`) with the colors they leave
/// (`pops`), and, unless `frontier`, the clean returns into the blank side
/// (`clean`).
fn checkpoints<const S: usize, const C: usize>(
    prog: &Prog<S, C>,
    windows: &WinPossible,
    blank: bool,
    frontier: bool,
    clean: Option<&SideExcursions<S, C>>,
    away: &SideExcursions<S, C>,
    pops: &ExcursionPops<S, C>,
) -> (r: HalfBlank<S, C>)
    requires
        1 <= S <= 64,
        1 <= C <= 64,
        windows.sized(S as int, C as int),
        prints_below(prog.instr_list(), C as int),
        targets_below(prog.instr_list(), S as int),
        frontier == clean.is_none(),
        clean matches Some(cl) ==> cl.wf() && forall|f: RFact| #[trigger] cl.holds(f) == prog.ret_reach(windows.side_parity@, blank, true, f),
        away.wf(),
        forall|f: RFact| #[trigger] away.holds(f) == prog.ret_reach(windows.side_parity@, !blank, false, f),
        pops.wf(),
        forall|f: PopFact| #[trigger] pops.holds(f) == prog.pop_reach(windows.side_parity@, !blank, f),
    ensures
        r.wf(),
        forall|h: HFact| #[trigger] r.holds(h) == prog.half_reach(windows.side_parity@, blank, frontier, h),
{
    let ghost v = windows.side_parity@;
    let want = want_all(4);
    assert(want@ =~= seq![true, true, true, true]);
    let mut ht = HalfBlank::<S, C>::new();
    let mut stack: Vec<HFact> = Vec::new();
    let init: HFact = (0, 0, 0);
    if prog.half_admit_check(windows, &want, blank, init) {
        let ghost htb = ht;
        ht.insert_push(&mut stack, init);
        proof {
            assert forall|g: HFact| #[trigger] ht.holds(g) implies g == init by {}
            assert(ht.facts()(init) && !htb.facts()(init));
            assert(stack@.contains(init));
            assert forall|i: int| 0 <= i < stack@.len() implies stack@[i] == init by {
                assert(ht.facts()(stack@[i]));
            }
        }
    }
    proof {
        assert forall|g: HFact| #[trigger] ht.holds(g) implies prog.half_reach(v, blank, frontier, g) by {
            assert(g == init);
            assert forall|set: spec_fn(HFact) -> bool| #[trigger] prog.half_closed(v, blank, frontier, set) implies set(g) by {}
        }
        assert forall|i: int| 0 <= i < stack@.len() implies ht.holds(#[trigger] stack@[i]) by {
            assert(stack@[i] == init);
        }
        assert forall|g: HFact| #[trigger] ht.holds(g) && !stack@.contains(g) implies prog.half_done(v, blank, frontier, ht.facts(), g) by {
            assert(g == init);
        }
    }
    while stack.len() > 0
        invariant
            1 <= S <= 64,
            1 <= C <= 64,
            windows.sized(S as int, C as int),
            want@ == seq![true, true, true, true],
            v == windows.side_parity@,
            prints_below(prog.instr_list(), C as int),
            targets_below(prog.instr_list(), S as int),
            frontier == clean.is_none(),
            clean matches Some(cl) ==> cl.wf() && forall|f: RFact| #[trigger] cl.holds(f) == prog.ret_reach(v, blank, true, f),
            away.wf(),
            forall|f: RFact| #[trigger] away.holds(f) == prog.ret_reach(v, !blank, false, f),
            pops.wf(),
            forall|f: PopFact| #[trigger] pops.holds(f) == prog.pop_reach(v, !blank, f),
            ht.wf(),
            init == (0u8, 0u8, 0u8),
            prog.half_admit(v, blank, init) ==> ht.holds(init),
            forall|g: HFact| #[trigger] ht.holds(g) ==> prog.half_reach(v, blank, frontier, g),
            forall|i: int| 0 <= i < stack@.len() ==> ht.holds(#[trigger] stack@[i]),
            forall|g: HFact| #[trigger] ht.holds(g) && !stack@.contains(g) ==> prog.half_done(v, blank, frontier, ht.facts(), g),
        decreases ht.absent(), stack@.len(),
    {
        let ghost stack0 = stack@;
        let ghost ht0 = ht;
        let h = stack.pop().unwrap();
        let ghost popped = stack@;
        proof {
            assert(stack0 =~= popped.push(h));
            assert(stack0[popped.len() as int] == h);
        }
        prog.half_step(windows, &want, blank, frontier, clean, away, pops, &mut ht, &mut stack, h);
        proof {
            assert forall|g: HFact| #[trigger] ht.holds(g) implies prog.half_reach(v, blank, frontier, g) by {
                if !ht0.holds(g) {
                    assert(prog.half_next(v, blank, frontier, h, g));
                    assert(prog.half_reach(v, blank, frontier, h));
                    assert forall|set: spec_fn(HFact) -> bool| #[trigger] prog.half_closed(v, blank, frontier, set) implies set(g) by {
                        assert(set(h));
                    }
                }
            }
            assert forall|i: int| 0 <= i < stack@.len() implies ht.holds(#[trigger] stack@[i]) by {
                if i < popped.len() {
                    assert(stack@.subrange(0, popped.len() as int)[i] == popped[i]);
                    assert(popped[i] == stack0[i]);
                    assert(ht0.holds(stack0[i]));
                    assert(ht0.facts()(stack0[i]));
                    assert(ht.facts()(stack0[i]));
                }
            }
            assert forall|g: HFact| #[trigger] ht.holds(g) && !stack@.contains(g) implies prog.half_done(v, blank, frontier, ht.facts(), g) by {
                if g == h {
                } else {
                    if !ht0.holds(g) {
                        assert(ht.facts()(g) && !ht0.facts()(g));
                        assert(stack@.contains(g));
                    }
                    assert(!stack0.contains(g)) by {
                        if stack0.contains(g) {
                            let j = choose|j: int| 0 <= j < stack0.len() && stack0[j] == g;
                            assert(j < popped.len());
                            assert(stack@.subrange(0, popped.len() as int)[j] == popped[j]);
                            assert(stack@[j] == g);
                        }
                    }
                    assert(prog.half_done(v, blank, frontier, ht0.facts(), g));
                    assert forall|g2: HFact| #[trigger] prog.half_next(v, blank, frontier, g, g2) implies ht.facts()(g2) by {
                        assert(ht0.facts()(g2));
                    }
                }
            }
            if prog.half_admit(v, blank, init) {
                assert(ht0.facts()(init));
                assert(ht.facts()(init));
            }
        }
    }
    proof {
        assert(prog.half_closed(v, blank, frontier, ht.facts())) by {
            assert forall|g: HFact, g2: HFact| #[trigger] prog.half_next(v, blank, frontier, g, g2) && ht.facts()(g) implies ht.facts()(g2) by {
                assert(prog.half_done(v, blank, frontier, ht.facts(), g));
            }
            if prog.half_admit(v, blank, (0, 0, 0)) {
                assert(ht.holds(init));
            }
        }
    }
    ht
}

/// The checkpoints at which the side `blank` (right when true) is wholly
/// blank, on runs from the blank tape: from a checkpoint, whole returns
/// into the other side (`away`, leaving the colors in `pops`), blank
/// printed while moving away, moves into the blank side, and clean
/// returns into it (`clean`) lead to the next.
pub fn halfblank_slots<const S: usize, const C: usize>(
    prog: &Prog<S, C>,
    windows: &WinPossible,
    blank: bool,
    clean: &SideExcursions<S, C>,
    away: &SideExcursions<S, C>,
    pops: &ExcursionPops<S, C>,
) -> (r: HalfBlank<S, C>)
    requires
        1 <= S <= 64,
        1 <= C <= 64,
        windows.sized(S as int, C as int),
        prints_below(prog.instr_list(), C as int),
        targets_below(prog.instr_list(), S as int),
        clean.wf(),
        forall|f: RFact| #[trigger] clean.holds(f) == prog.ret_reach(windows.side_parity@, blank, true, f),
        away.wf(),
        forall|f: RFact| #[trigger] away.holds(f) == prog.ret_reach(windows.side_parity@, !blank, false, f),
        pops.wf(),
        forall|f: PopFact| #[trigger] pops.holds(f) == prog.pop_reach(windows.side_parity@, !blank, f),
    ensures
        r.wf(),
        forall|h: HFact| #[trigger] r.holds(h) == prog.half_reach(windows.side_parity@, blank, false, h),
{
    checkpoints(prog, windows, blank, false, Some(clean), away, pops)
}

/// The checkpoints at which the head stands at the edge of the visited
/// cells, the unvisited (blank) side being `frontier_side` (right when
/// true), on runs from the blank tape: from a checkpoint, whole returns
/// into the visited side (`inward`, leaving the colors in `pops`) and
/// moves onto the next unvisited cell lead to the next.
pub fn frontier_slots<const S: usize, const C: usize>(
    prog: &Prog<S, C>,
    windows: &WinPossible,
    frontier_side: bool,
    inward: &SideExcursions<S, C>,
    pops: &ExcursionPops<S, C>,
) -> (r: HalfBlank<S, C>)
    requires
        1 <= S <= 64,
        1 <= C <= 64,
        windows.sized(S as int, C as int),
        prints_below(prog.instr_list(), C as int),
        targets_below(prog.instr_list(), S as int),
        inward.wf(),
        forall|f: RFact| #[trigger] inward.holds(f) == prog.ret_reach(windows.side_parity@, !frontier_side, false, f),
        pops.wf(),
        forall|f: PopFact| #[trigger] pops.holds(f) == prog.pop_reach(windows.side_parity@, !frontier_side, f),
    ensures
        r.wf(),
        forall|h: HFact| #[trigger] r.holds(h) == prog.half_reach(windows.side_parity@, frontier_side, true, h),
{
    checkpoints(prog, windows, frontier_side, true, None, inward, pops)
}

/// The inward neighbors held with each state and scanned color, as masks.
fn half_masks<const S: usize, const C: usize>(ht: &HalfBlank<S, C>) -> (m: Vec<Vec<u64>>)
    requires
        ht.wf(),
    ensures
        m@.len() == S,
        forall|st: int| 0 <= st < S ==> (#[trigger] m@[st])@.len() == C,
        forall|st: int, co: int, j: int| 0 <= st < S && 0 <= co < C && 0 <= j < C ==> #[trigger] mask_bit(m@[st]@[co], j) == ht.holds(
            (st as State, co as Color, j as Color),
        ),
{
    let mut m: Vec<Vec<u64>> = Vec::new();
    let mut st: usize = 0;
    while st < S
        invariant
            ht.wf(),
            st <= S,
            m@.len() == st,
            forall|x: int| 0 <= x < st ==> (#[trigger] m@[x])@.len() == C,
            forall|x: int, co: int, j: int| 0 <= x < st && 0 <= co < C && 0 <= j < C ==> #[trigger] mask_bit(m@[x]@[co], j) == ht.holds(
                (x as State, co as Color, j as Color),
            ),
        decreases S - st,
    {
        let mut row: Vec<u64> = Vec::new();
        let mut co: usize = 0;
        while co < C
            invariant
                ht.wf(),
                st < S,
                co <= C,
                row@.len() == co,
                forall|y: int, j: int| 0 <= y < co && 0 <= j < C ==> #[trigger] mask_bit(row@[y], j) == ht.holds((st as State, y as Color, j as Color)),
            decreases C - co,
        {
            let mk = ht.near_mask(st, co);
            row.push(mk);
            proof {
                assert forall|y: int, j: int| 0 <= y < co + 1 && 0 <= j < C implies #[trigger] mask_bit(row@[y], j) == ht.holds(
                    (st as State, y as Color, j as Color),
                ) by {
                    if y == co {
                        assert(row@[y] == mk);
                    }
                }
            }
            co += 1;
        }
        let ghost m0 = m@;
        m.push(row);
        proof {
            assert forall|x: int| 0 <= x < st + 1 implies (#[trigger] m@[x])@.len() == C by {
                if x < st {
                    assert(m@[x] == m0[x]);
                }
            }
            assert forall|x: int, co: int, j: int| 0 <= x < st + 1 && 0 <= co < C && 0 <= j < C implies #[trigger] mask_bit(m@[x]@[co], j) == ht.holds(
                (x as State, co as Color, j as Color),
            ) by {
                if x < st {
                    assert(m@[x] == m0[x]);
                } else {
                    assert(m@[x] == row);
                }
            }
        }
        st += 1;
    }
    m
}

/// What the forward analysis allows of whole sides, on runs from the blank
/// tape: the checkpoints at which each side is blank, as inward-neighbor
/// masks, and the joint side statuses of the windows.
pub fn blank_side_possible_from_blank<const S: usize, const C: usize>(prog: &Prog<S, C>, windows: &WinPossible) -> (r: BlankSidePossible<S, C>)
    requires
        1 <= S <= 64,
        1 <= C <= 64,
        Prog::<S, C>::tails_fit(),
        windows.sized(S as int, C as int),
        prints_below(prog.instr_list(), C as int),
        targets_below(prog.instr_list(), S as int),
    ensures
        r.sized(),
        forall|f: JFact| #[trigger] r.joint.holds(f) == prog.joint_reach(windows.side_parity@, f),
        forall|st: int, co: int, j: int| 0 <= st < S && 0 <= co < C && 0 <= j < C ==> #[trigger] mask_bit(r.left_half@[st]@[co], j)
            == prog.half_reach(windows.side_parity@, false, false, (st as State, co as Color, j as Color)),
        forall|st: int, co: int, j: int| 0 <= st < S && 0 <= co < C && 0 <= j < C ==> #[trigger] mask_bit(r.right_half@[st]@[co], j)
            == prog.half_reach(windows.side_parity@, true, false, (st as State, co as Color, j as Color)),
{
    let left_clean = side_excursions(prog, windows, false, true);
    let right_clean = side_excursions(prog, windows, true, true);
    let left_any = side_excursions(prog, windows, false, false);
    let right_any = side_excursions(prog, windows, true, false);
    let left_pops = excursion_pops(prog, windows, false, &left_any);
    let right_pops = excursion_pops(prog, windows, true, &right_any);
    let left = halfblank_slots(prog, windows, false, &left_clean, &right_any, &right_pops);
    let right = halfblank_slots(prog, windows, true, &right_clean, &left_any, &left_pops);
    let joint = joint_blank_status_from_blank(prog, windows);
    let left_half = half_masks(&left);
    let right_half = half_masks(&right);
    BlankSidePossible { left_half, right_half, joint }
}

impl<const S: usize, const C: usize> HalfBlank<S, C> {
    /// Whether some checkpoint has the state and scanned color, by a
    /// search.
    pub fn any_near(&self, st: State, co: Color) -> (r: bool)
        requires
            self.wf(),
            (st as int) < S,
            (co as int) < C,
        ensures
            r == exists|near: Color| #[trigger] self.holds((st, co, near)),
    {
        let mut k: usize = 0;
        while k < C
            invariant
                self.wf(),
                (st as int) < S,
                (co as int) < C,
                k <= C,
                forall|near: Color| (near as int) < k ==> !#[trigger] self.holds((st, co, near)),
            decreases C - k,
        {
            if self.has((st, co, k as Color)) {
                return true;
            }
            k += 1;
        }
        proof {
            assert forall|near: Color| !#[trigger] self.holds((st, co, near)) by {
                if self.holds((st, co, near)) {
                    self.lemma_holds_in((st, co, near));
                }
            }
        }
        false
    }
}

} // verus!
