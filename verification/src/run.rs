//! Runs of a program from the blank tape, and what the static analyses
//! of the backward reasoner promise of them.
//!
//! A configuration is a state, the cells left of the head (farthest
//! first), the scanned color, and the cells right of the head (farthest
//! first); beyond the listed cells the tape is blank.
use vstd::prelude::*;

use crate::bkw::tape::{Block, BlockCount, Tape, TapeEnd, blocks_valid, neighbor_color, span_wf};
use crate::bkw::sides::{Fact, Quad, SidePossible, side_init, window_ok};
use crate::bkw::prefix::{
    SidePrefix, holds, holds_with, lemma_holds_cells, lemma_prepend_sound, lemma_prepends_nf, lemma_pull_sound, lemma_pulls_nf,
    prefix_nf, prepends, pulls, tail_cell, tail_rest,
};
use crate::bkw::prefixes::pfx_target;
use crate::bkw::joint::{JFact, JointBlankPossible, RequiredStatus, joint_allows, jtarget, joint_init, required_status};
use crate::bkw::tails::{CFact, PrFact, sbit};
use crate::bkw::windows::{Tally, WinPossible, Window, nz, seen, win_in, window_hit};
use crate::bkw::{flips_parity, has_even, has_odd, parity_closed, prints_below, targets_below, writes_with};
use crate::instrs::{Color, State};
use crate::prog::Prog;

verus! {

/// A configuration of a run.
pub type Conf = (State, Seq<Color>, Color, Seq<Color>);

/// The blank tape in the start state.
pub open spec fn blank_conf() -> Conf {
    (0, Seq::empty(), 0, Seq::empty())
}

/// The cell next to the head on a side: the nearest listed cell, or blank.
pub open spec fn nb(s: Seq<Color>) -> Color {
    if s.len() == 0 { 0 } else { s.last() }
}

/// A side without the cell next to the head.
pub open spec fn rest(s: Seq<Color>) -> Seq<Color> {
    if s.len() == 0 { s } else { s.drop_last() }
}

/// The number of nonblank cells of a side.
pub open spec fn nonblank(s: Seq<Color>) -> nat
    decreases s.len(),
{
    if s.len() == 0 {
        0
    } else {
        nonblank(s.drop_last()) + nz(s.last()) as nat
    }
}

/// The number of nonblank cells of a configuration's tape.
pub open spec fn conf_nonblank(c: Conf) -> nat {
    nonblank(c.1) + nz(c.2) as nat + nonblank(c.3)
}

pub proof fn lemma_nonblank_rest(s: Seq<Color>)
    ensures
        nonblank(s) == nonblank(rest(s)) + nz(nb(s)),
{
}

impl<const S: usize, const C: usize> Prog<S, C> {
    /// Whether `d` follows `c` by one step of the program.
    pub open spec fn conf_step(&self, c: Conf, d: Conf) -> bool {
        &&& Self::in_range(c.0 as int, c.2 as int)
        &&& match self.instr_at(c.0 as int, c.2 as int) {
            None => false,
            Some(i) => {
                let (print, shift, next) = i;
                if shift {
                    d == (next, c.1.push(print), nb(c.3), rest(c.3))
                } else {
                    d == (next, rest(c.1), nb(c.1), c.3.push(print))
                }
            },
        }
    }

    /// Whether a set of configurations holds the blank tape in the start
    /// state and is closed under steps.
    pub open spec fn conf_closed(&self, set: spec_fn(Conf) -> bool) -> bool {
        &&& set(blank_conf())
        &&& forall|c: Conf, d: Conf| #![trigger set(c), self.conf_step(c, d)] set(c) && self.conf_step(c, d) ==> set(d)
    }

    /// Whether a configuration occurs on the run from the blank tape (it is
    /// in every closed set).
    pub open spec fn conf_reach(&self, c: Conf) -> bool {
        forall|set: spec_fn(Conf) -> bool| #[trigger] self.conf_closed(set) ==> set(c)
    }

    /// What a step does to the number of nonblank cells, by the entry of
    /// the table that it takes.
    pub proof fn lemma_step_entry(&self, c: Conf, d: Conf) -> (j: int)
        requires
            self.inv(),
            self.conf_step(c, d),
        ensures
            0 <= j < self.entries().len(),
            self.entries()[j].0 == (c.0, c.2),
            self.entries()[j].1 == self.instr_at(c.0 as int, c.2 as int)->0,
    {
        self.lemma_entry_at(c.0 as int, c.2 as int);
        choose|j: int| 0 <= j < self.entries().len() && #[trigger] self.entries()[j]
            == ((c.0 as u8, c.2 as u8), self.instr_at(c.0 as int, c.2 as int)->0)
    }

    /// The parity of the number of nonblank cells on the run from the
    /// blank tape is one that every closed per-state assignment of
    /// parities (such as the one `nonblank_parity_from_blank` computes)
    /// allows in the current state.
    pub proof fn lemma_run_parity(&self, v: Seq<u8>, c: Conf)
        requires
            self.inv(),
            v.len() == S,
            parity_closed(self.entries(), v),
            targets_below(self.instr_list(), S as int),
            self.conf_reach(c),
        ensures
            (c.0 as int) < S,
            conf_nonblank(c) % 2 == 0 ==> has_even(v[c.0 as int]),
            conf_nonblank(c) % 2 == 1 ==> has_odd(v[c.0 as int]),
    {
        let es = self.entries();
        let ok = |x: Conf| (x.0 as int) < S && (conf_nonblank(x) % 2 == 0 ==> has_even(v[x.0 as int]))
            && (conf_nonblank(x) % 2 == 1 ==> has_odd(v[x.0 as int]));
        assert(self.conf_closed(ok)) by {
            assert forall|x: Conf, d: Conf| #![trigger ok(x), self.conf_step(x, d)] ok(x) && self.conf_step(x, d) implies ok(d) by {
                let j = self.lemma_step_entry(x, d);
                crate::bkw::lemma_entries_instrs(*self);
                assert(es[j].1 == self.instr_list()[j]);
                let (print, shift, next) = es[j].1;
                assert(parity_moved_at(v, es, j));
                lemma_nonblank_rest(x.1);
                lemma_nonblank_rest(x.3);
                assert(nonblank(x.1.push(print)) == nonblank(x.1) + nz(print)) by {
                    assert(x.1.push(print).drop_last() =~= x.1);
                }
                assert(nonblank(x.3.push(print)) == nonblank(x.3) + nz(print)) by {
                    assert(x.3.push(print).drop_last() =~= x.3);
                }
                assert(conf_nonblank(d) == conf_nonblank(x) - nz(x.2) + nz(print));
                assert(flips_parity(es[j]) == ((x.2 == 0) != (print == 0)));
            }
        }
    }
}

/// The parity condition of one entry, named to keep the quantifier of
/// `parity_closed` in reach.
pub open spec fn parity_moved_at(v: Seq<u8>, es: Seq<(crate::instrs::Slot, crate::instrs::Instr)>, j: int) -> bool {
    crate::bkw::parity_moved(v[es[j].0.0 as int], v[es[j].1.2 as int], flips_parity(es[j]))
}

/// Every cell of a side is a color below `colors`, and is blank or a
/// color that some instruction prints moving towards that side (`shift`
/// is the move that leaves the cell behind on it).
pub open spec fn side_written(es: Seq<(crate::instrs::Slot, crate::instrs::Instr)>, s: Seq<Color>, shift: bool, colors: int) -> bool {
    forall|i: int| 0 <= i < s.len() ==> (#[trigger] s[i] as int) < colors && (s[i] == 0 || writes_with(es, s[i], shift))
}

/// The state and colors of a configuration are in the table, and each side
/// holds only colors printed moving towards it.
pub open spec fn conf_sides_ok(es: Seq<(crate::instrs::Slot, crate::instrs::Instr)>, c: Conf, states: int, colors: int) -> bool {
    &&& (c.0 as int) < states
    &&& (c.2 as int) < colors
    &&& side_written(es, c.1, true, colors)
    &&& side_written(es, c.3, false, colors)
}

proof fn lemma_side_rest(es: Seq<(crate::instrs::Slot, crate::instrs::Instr)>, s: Seq<Color>, shift: bool, colors: int)
    requires
        side_written(es, s, shift, colors),
        colors >= 1,
    ensures
        side_written(es, rest(s), shift, colors),
        (nb(s) as int) < colors,
        nb(s) == 0 || writes_with(es, nb(s), shift),
{
    if s.len() > 0 {
        assert(s[s.len() - 1] == s.last());
        assert forall|i: int| 0 <= i < rest(s).len() implies (#[trigger] rest(s)[i] as int) < colors
            && (rest(s)[i] == 0 || writes_with(es, rest(s)[i], shift)) by {
            assert(rest(s)[i] == s[i]);
        }
    }
}

proof fn lemma_side_push(es: Seq<(crate::instrs::Slot, crate::instrs::Instr)>, s: Seq<Color>, shift: bool, colors: int, x: Color)
    requires
        side_written(es, s, shift, colors),
        (x as int) < colors,
        writes_with(es, x, shift),
    ensures
        side_written(es, s.push(x), shift, colors),
{
    assert forall|i: int| 0 <= i < s.push(x).len() implies (#[trigger] s.push(x)[i] as int) < colors
        && (s.push(x)[i] == 0 || writes_with(es, s.push(x)[i], shift)) by {
        if i < s.len() {
            assert(s.push(x)[i] == s[i]);
        }
    }
}

impl<const S: usize, const C: usize> Prog<S, C> {
    /// On the run from the blank tape, every color left of the head is
    /// blank or printed by some instruction moving right, and every color
    /// right of the head is blank or printed by some instruction moving
    /// left (what `shift_side_forbidden` relies on); states and colors stay
    /// in the table.
    pub proof fn lemma_run_sides(&self, c: Conf)
        requires
            self.inv(),
            S >= 1,
            C >= 1,
            prints_below(self.instr_list(), C as int),
            targets_below(self.instr_list(), S as int),
            self.conf_reach(c),
        ensures
            conf_sides_ok(self.entries(), c, S as int, C as int),
    {
        let es = self.entries();
        let ok = |x: Conf| conf_sides_ok(es, x, S as int, C as int);
        assert(ok(blank_conf()));
        assert(self.conf_closed(ok)) by {
            assert forall|x: Conf, d: Conf| #![trigger ok(x), self.conf_step(x, d)] ok(x) && self.conf_step(x, d) implies ok(d) by {
                let j = self.lemma_step_entry(x, d);
                crate::bkw::lemma_entries_instrs(*self);
                assert(es[j].1 == self.instr_list()[j]);
                let (print, shift, next) = es[j].1;
                assert(writes_with(es, print, shift));
                lemma_side_rest(es, x.1, true, C as int);
                lemma_side_rest(es, x.3, false, C as int);
                if shift {
                    lemma_side_push(es, x.1, true, C as int, print);
                } else {
                    lemma_side_push(es, x.3, false, C as int, print);
                }
            }
        }
    }
}

/// The tally of a configuration: the nonblank cells on each side of the
/// head, by parity or modulo 3; or the parity of each nonblank color over
/// the whole tape (bit `k - 1` for color `k`).
pub open spec fn conf_tally(k: Tally, c: Conf) -> u8 {
    match k {
        Tally::SideParity => ((nonblank(c.1) % 2) + 2 * (nonblank(c.3) % 2)) as u8,
        Tally::SideMod3 => ((nonblank(c.1) % 3) + 3 * (nonblank(c.3) % 3)) as u8,
        Tally::ColorParity => (xor_side(c.1) ^ crate::bkw::windows::color_bit(c.2)) ^ xor_side(c.3),
    }
}

/// The parity of each nonblank color among a side's cells.
pub open spec fn xor_side(s: Seq<Color>) -> u8
    decreases s.len(),
{
    if s.len() == 0 {
        0
    } else {
        xor_side(s.drop_last()) ^ crate::bkw::windows::color_bit(s.last())
    }
}

/// The rules of exclusive or that the color-parity tally uses.
proof fn lemma_xor5(x1: u8, sc: u8, r: u8, nn: u8, p: u8)
    ensures
        ((x1 ^ sc) ^ (r ^ nn)) ^ sc ^ p == ((x1 ^ p) ^ nn) ^ r,
        ((x1 ^ nn) ^ sc) ^ r ^ sc ^ p == (x1 ^ nn) ^ (r ^ p),
        x1 ^ 0 == x1,
        (0u8 ^ 0u8) ^ 0u8 == 0,
{
    assert(((x1 ^ sc) ^ (r ^ nn)) ^ sc ^ p == ((x1 ^ p) ^ nn) ^ r && ((x1 ^ nn) ^ sc) ^ r ^ sc ^ p == (x1 ^ nn) ^ (r ^ p)
        && x1 ^ 0 == x1 && (0u8 ^ 0u8) ^ 0u8 == 0) by (bit_vector);
}

/// A side's color parities: its cell next to the head, then the rest.
proof fn lemma_xor_rest(s: Seq<Color>)
    ensures
        xor_side(s) == xor_side(rest(s)) ^ crate::bkw::windows::color_bit(nb(s)),
{
    lemma_xor5(xor_side(s), 0, 0, 0, 0);
    if s.len() == 0 {
        assert(crate::bkw::windows::color_bit(0) == 0);
    }
}

/// Swapping the parity of a color is an exclusive or with its bit.
proof fn lemma_toggle_bit(t: u8, c: Color)
    requires
        c <= 8,
    ensures
        crate::bkw::windows::toggle(t, c) == t ^ crate::bkw::windows::color_bit(c),
{
    lemma_xor5(t, 0, 0, 0, 0);
}

/// The color-parity tally of the next configuration is the window's next
/// tally.
proof fn lemma_cp_step(n: (Window, u8), x: Conf, d: Conf, print: Color, shift: bool)
    requires
        describes(Tally::ColorParity, n, x),
        x.2 <= 8,
        print <= 8,
        shift ==> d.1 == x.1.push(print) && d.3 == rest(x.3) && d.2 == nb(x.3),
        !shift ==> d.1 == rest(x.1) && d.3 == x.3.push(print) && d.2 == nb(x.1),
    ensures
        conf_tally(Tally::ColorParity, d) == crate::bkw::windows::next_tally(Tally::ColorParity, n.1, n.0, print, shift),
{
    let cb = |c: Color| crate::bkw::windows::color_bit(c);
    lemma_toggle_bit(n.1, x.2);
    lemma_toggle_bit(crate::bkw::windows::toggle(n.1, x.2), print);
    if shift {
        assert(x.1.push(print).drop_last() =~= x.1);
        lemma_xor_rest(x.3);
        lemma_xor5(xor_side(x.1), cb(x.2), xor_side(rest(x.3)), cb(nb(x.3)), cb(print));
    } else {
        assert(x.3.push(print).drop_last() =~= x.3);
        lemma_xor_rest(x.1);
        lemma_xor5(xor_side(rest(x.1)), cb(x.2), xor_side(x.3), cb(nb(x.1)), cb(print));
    }
}

/// Whether a tallied window describes a configuration: same state,
/// scanned color, neighbors and tally, and a side that the window says is
/// blank beyond the neighbor is.
pub open spec fn describes(k: Tally, n: (Window, u8), c: Conf) -> bool {
    &&& n.0.state == c.0
    &&& n.0.scan == c.2
    &&& n.0.left == nb(c.1)
    &&& n.0.right == nb(c.3)
    &&& n.0.left_blank ==> nonblank(rest(c.1)) == 0
    &&& n.0.right_blank ==> nonblank(rest(c.3)) == 0
    &&& n.1 == conf_tally(k, c)
}

/// Forbidding only colors that are nonblank and never printed moving
/// towards the side.
pub open spec fn forbid_sound(es: Seq<(crate::instrs::Slot, crate::instrs::Instr)>, f: Seq<bool>, shift: bool, colors: int) -> bool {
    &&& f.len() == colors
    &&& forall|i: int| 0 <= i < colors && #[trigger] f[i] ==> i != 0 && !writes_with(es, i as u8, shift)
}

proof fn lemma_blank_side(s: Seq<Color>)
    requires
        nonblank(s) == 0,
    ensures
        nb(s) == 0,
        nonblank(rest(s)) == 0,
{
    lemma_nonblank_rest(s);
}

proof fn lemma_res_add(a: int, p: int, m: int)
    requires
        0 <= a,
        0 <= p <= 1,
        m == 2 || m == 3,
    ensures
        (a + p) % m == (a % m + p) % m,
{
    if m == 2 {
        assert((a + p) % 2 == (a % 2 + p) % 2);
    } else {
        assert((a + p) % 3 == (a % 3 + p) % 3);
    }
}

proof fn lemma_res_sub(a: int, q: int, m: int)
    requires
        0 <= q <= 1,
        q <= a,
        m == 2 || m == 3,
    ensures
        (a - q) % m == (a % m + m - q) % m,
{
    if m == 2 {
        assert((a - q) % 2 == (a % 2 + 2 - q) % 2);
    } else {
        assert((a - q) % 3 == (a % 3 + 3 - q) % 3);
    }
}

/// The residues of the two sides, as a tally.
proof fn lemma_tally_parts(t: u8, l: int, r: int, m: int)
    requires
        0 <= l,
        0 <= r,
        m == 2 || m == 3,
        t as int == l % m + m * (r % m),
    ensures
        t % (m as u8) == l % m,
        t / (m as u8) == r % m,
{
    if m == 2 {
        assert(t % 2 == l % 2 && t / 2 == r % 2);
    } else {
        assert(t % 3 == l % 3 && t / 3 == r % 3);
    }
}

/// The tally of the next configuration is the window's next tally.
#[verifier::rlimit(40)]
proof fn lemma_tally_step(k: Tally, n: (Window, u8), x: Conf, d: Conf, print: Color, shift: bool)
    requires
        k != Tally::ColorParity,
        describes(k, n, x),
        shift ==> d.1 == x.1.push(print) && d.3 == rest(x.3),
        !shift ==> d.1 == rest(x.1) && d.3 == x.3.push(print),
    ensures
        conf_tally(k, d) == crate::bkw::windows::next_tally(k, n.1, n.0, print, shift),
{
    lemma_nonblank_rest(x.1);
    lemma_nonblank_rest(x.3);
    assert(nonblank(x.1.push(print)) == nonblank(x.1) + nz(print)) by {
        assert(x.1.push(print).drop_last() =~= x.1);
    }
    assert(nonblank(x.3.push(print)) == nonblank(x.3) + nz(print)) by {
        assert(x.3.push(print).drop_last() =~= x.3);
    }
    let l = nonblank(x.1) as int;
    let r = nonblank(x.3) as int;
    let p = nz(print);
    let ql = nz(nb(x.1));
    let qr = nz(nb(x.3));
    let m: int = if k == Tally::SideParity { 2 } else { 3 };
    assert(0 <= l % m + m * (r % m) < 256) by {
        if m == 2 {
            assert(0 <= l % 2 + 2 * (r % 2) < 256);
        } else {
            assert(0 <= l % 3 + 3 * (r % 3) < 256);
        }
    }
    lemma_tally_parts(n.1, l, r, m);
    lemma_res_add(l, p, m);
    lemma_res_add(r, p, m);
    lemma_res_sub(l, ql, m);
    lemma_res_sub(r, qr, m);
    if m == 2 {
        assert((r % 2 + qr) % 2 == (r % 2 + 2 - qr) % 2);
        assert((l % 2 + ql) % 2 == (l % 2 + 2 - ql) % 2);
    }
}

impl<const S: usize, const C: usize> Prog<S, C> {
    /// A step of the run is followed by a step of the windows.
    proof fn lemma_window_step(&self, k: Tally, fl: Seq<bool>, fr: Seq<bool>, x: Conf, d: Conf, n: (Window, u8)) -> (n2: (Window, u8))
        requires
            self.inv(),
            1 <= C <= 64,
            k == Tally::ColorParity ==> C <= 7,
            prints_below(self.instr_list(), C as int),
            forbid_sound(self.entries(), fl, true, C as int),
            forbid_sound(self.entries(), fr, false, C as int),
            conf_sides_ok(self.entries(), x, S as int, C as int),
            self.conf_step(x, d),
            describes(k, n, x),
        ensures
            self.win_step(k, fl, fr, n, n2),
            describes(k, n2, d),
    {
        let es = self.entries();
        let j = self.lemma_step_entry(x, d);
        crate::bkw::lemma_entries_instrs(*self);
        assert(es[j].1 == self.instr_list()[j]);
        let (print, shift, next) = es[j].1;
        lemma_nonblank_rest(x.1);
        lemma_nonblank_rest(x.3);
        lemma_side_rest(es, x.1, true, C as int);
        lemma_side_rest(es, x.3, false, C as int);
        lemma_side_rest(es, rest(x.1), true, C as int);
        lemma_side_rest(es, rest(x.3), false, C as int);
        if k == Tally::ColorParity {
            lemma_cp_step(n, x, d, print, shift);
        } else {
            lemma_tally_step(k, n, x, d, print, shift);
        }
        let t2 = crate::bkw::windows::next_tally(k, n.1, n.0, print, shift);
        if shift {
            let w2 = Window {
                state: next,
                left_blank: n.0.left_blank && n.0.left == 0,
                left: print,
                scan: n.0.right,
                right: nb(d.3),
                right_blank: n.0.right_blank,
            };
            if n.0.right_blank {
                lemma_blank_side(rest(x.3));
            } else {
                assert(!fr[nb(d.3) as int]);
            }
            if n.0.left_blank && n.0.left == 0 {
                assert(nonblank(rest(d.1)) == 0) by {
                    assert(x.1.push(print).drop_last() =~= x.1);
                }
            }
            (w2, t2)
        } else {
            let w2 = Window {
                state: next,
                left_blank: n.0.left_blank,
                left: nb(d.1),
                scan: n.0.left,
                right: print,
                right_blank: n.0.right_blank && n.0.right == 0,
            };
            if n.0.left_blank {
                lemma_blank_side(rest(x.1));
            } else {
                assert(!fl[nb(d.1) as int]);
            }
            if n.0.right_blank && n.0.right == 0 {
                assert(nonblank(rest(d.3)) == 0) by {
                    assert(x.3.push(print).drop_last() =~= x.3);
                }
            }
            (w2, t2)
        }
    }
}

impl<const S: usize, const C: usize> Prog<S, C> {
    /// A configuration that follows one on the run is on the run.
    pub proof fn lemma_reach_step(&self, c: Conf, d: Conf)
        requires
            self.conf_reach(c),
            self.conf_step(c, d),
        ensures
            self.conf_reach(d),
    {
        assert forall|set: spec_fn(Conf) -> bool| #[trigger] self.conf_closed(set) implies set(d) by {
            assert(set(c));
        }
    }

    /// Every configuration on the run from the blank tape but the start
    /// follows some configuration on the run by one step.
    pub proof fn lemma_reach_pred(&self, d: Conf)
        requires
            self.conf_reach(d),
            d != blank_conf(),
        ensures
            exists|c: Conf| #[trigger] self.conf_reach(c) && self.conf_step(c, d),
    {
        let ok = |x: Conf| x == blank_conf() || exists|c: Conf| #[trigger] self.conf_reach(c) && self.conf_step(c, x);
        assert(self.conf_closed(ok)) by {
            assert forall|x: Conf, y: Conf| #![trigger ok(x), self.conf_step(x, y)] ok(x) && self.conf_step(x, y) implies ok(y) by {
                if x == blank_conf() {
                    assert(self.conf_reach(x)) by {
                        assert forall|set: spec_fn(Conf) -> bool| #[trigger] self.conf_closed(set) implies set(x) by {}
                    }
                } else {
                    let c = choose|c: Conf| #[trigger] self.conf_reach(c) && self.conf_step(c, x);
                    self.lemma_reach_step(c, x);
                }
                assert(self.conf_reach(x) && self.conf_step(x, y));
            }
        }
        assert(ok(d));
    }

    /// Every configuration on the run from the blank tape is described by
    /// a tallied window that `reach_windows` (and so
    /// `win_possible_from_blank`) marks, for the side-parity and side
    /// modulo 3 tallies, as long as the forbidden colors are forbidden
    /// soundly (as `shift_side_forbidden` does).
    pub proof fn lemma_run_windows(&self, k: Tally, fl: Seq<bool>, fr: Seq<bool>, c: Conf)
        requires
            self.inv(),
            S >= 1,
            1 <= C <= 64,
            k == Tally::ColorParity ==> C <= 7,
            prints_below(self.instr_list(), C as int),
            targets_below(self.instr_list(), S as int),
            forbid_sound(self.entries(), fl, true, C as int),
            forbid_sound(self.entries(), fr, false, C as int),
            self.conf_reach(c),
        ensures
            exists|n: (Window, u8)| Self::node_in(k, n) && #[trigger] self.win_reach(k, fl, fr, n) && describes(k, n, c),
    {
        let es = self.entries();
        let ok = |x: Conf| self.conf_reach(x) && exists|n: (Window, u8)| Self::node_in(k, n)
            && #[trigger] self.win_reach(k, fl, fr, n) && describes(k, n, x);
        assert(ok(blank_conf())) by {
            let n = crate::bkw::windows::win_start();
            lemma_xor5(0, 0, 0, 0, 0);
            assert(crate::bkw::windows::color_bit(0) == 0);
            if k == Tally::ColorParity {
                let e = (C - 1) as u8;
                assert(e < 7 ==> (1u8 << e) >= 1) by (bit_vector);
            }
            assert(Self::node_in(k, n));
            assert(self.conf_reach(blank_conf())) by {
                assert forall|set: spec_fn(Conf) -> bool| #[trigger] self.conf_closed(set) implies set(blank_conf()) by {}
            }
            assert(self.win_reach(k, fl, fr, n));
            assert(describes(k, n, blank_conf()));
        }
        assert(self.conf_closed(ok)) by {
            assert forall|x: Conf, d: Conf| #![trigger ok(x), self.conf_step(x, d)] ok(x) && self.conf_step(x, d) implies ok(d) by {
                self.lemma_reach_step(x, d);
                self.lemma_run_sides(x);
                let n = choose|n: (Window, u8)| Self::node_in(k, n) && #[trigger] self.win_reach(k, fl, fr, n) && describes(k, n, x);
                let n2 = self.lemma_window_step(k, fl, fr, x, d, n);
                self.lemma_step_in(k, fl, fr, n, n2);
                assert(self.win_reach(k, fl, fr, n2)) by {
                    assert forall|set: spec_fn((Window, u8)) -> bool| #[trigger] self.win_closed(k, fl, fr, set) implies set(n2) by {
                        assert(set(n));
                    }
                }
            }
        }
    }
}

/// Whether `k` cells can be a run of a count.
pub open spec fn count_ok(c: BlockCount, k: int) -> bool {
    match c {
        BlockCount::Exact(n) => k == n,
        BlockCount::AtLeast(n) => k >= n,
    }
}

/// Whether cells `a..b` of `s` all have color `color`.
pub open spec fn run_of(s: Seq<Color>, a: int, b: int, color: Color) -> bool {
    forall|i: int| a <= i < b ==> #[trigger] s[i] == color
}

/// Whether a side of cells (farthest first) fits the runs of a span
/// (farthest first): its nearest cells are the runs, and what lies beyond
/// them is blank where the span ends in blanks.
pub open spec fn side_match(bs: Seq<Block>, end: TapeEnd, s: Seq<Color>) -> bool
    decreases bs.len(),
{
    if bs.len() == 0 {
        end == TapeEnd::Blanks ==> nonblank(s) == 0
    } else {
        exists|k: int| #![trigger count_ok(bs.last().count, k)]
            count_ok(bs.last().count, k) && 0 <= k <= s.len() && run_of(s, s.len() - k, s.len() as int, bs.last().color)
            && side_match(bs.drop_last(), end, s.subrange(0, s.len() - k))
    }
}

/// `n` blank cells.
pub open spec fn blanks(n: nat) -> Seq<Color> {
    Seq::new(n, |i: int| 0u8)
}

/// Whether a configuration fits a tape description in a state: same state
/// and scanned color, and each side, with any number of blank cells added
/// far out, fits the description's side.
pub open spec fn conf_matches(state: State, tape: Tape, c: Conf) -> bool {
    &&& c.0 == state
    &&& c.2 == tape.scan
    &&& exists|p: nat| #[trigger] side_match(tape.lspan.bs(), tape.lspan.end, blanks(p) + c.1)
    &&& exists|p: nat| #[trigger] side_match(tape.rspan.bs(), tape.rspan.end, blanks(p) + c.3)
}

pub proof fn lemma_nonblank_blanks(n: nat)
    ensures
        nonblank(blanks(n)) == 0,
    decreases n,
{
    if n > 0 {
        assert(blanks(n).drop_last() =~= blanks((n - 1) as nat));
        lemma_nonblank_blanks((n - 1) as nat);
    }
}

/// Blank cells added far out change neither the neighbor nor the count.
pub proof fn lemma_padded(p: nat, s: Seq<Color>)
    ensures
        nb(blanks(p) + s) == nb(s),
        nonblank(blanks(p) + s) == nonblank(s),
    decreases s.len(),
{
    if s.len() == 0 {
        assert(blanks(p) + s =~= blanks(p));
        lemma_nonblank_blanks(p);
        if p > 0 {
            assert(blanks(p).last() == 0);
        }
    } else {
        assert((blanks(p) + s).drop_last() =~= blanks(p) + s.drop_last());
        lemma_padded(p, s.drop_last());
    }
}

/// A side that fits a span has the span's neighbor next to the head,
/// where the span determines one.
proof fn lemma_match_neighbor(bs: Seq<Block>, end: TapeEnd, s: Seq<Color>)
    requires
        span_wf(bs),
        side_match(bs, end, s),
    ensures
        neighbor_color(bs, end) matches Some(x) ==> nb(s) == x,
{
    if bs.len() == 0 {
        if end == TapeEnd::Blanks {
            lemma_nonblank_rest(s);
        }
    } else {
        let k = choose|k: int| #![trigger count_ok(bs.last().count, k)]
            count_ok(bs.last().count, k) && 0 <= k <= s.len() && run_of(s, s.len() - k, s.len() as int, bs.last().color)
            && side_match(bs.drop_last(), end, s.subrange(0, s.len() - k));
        assert(bs[bs.len() - 1] == bs.last());
        assert(bs.last().count.min_spec() > 0);
        assert(k >= 1);
        assert(s[s.len() - 1] == bs.last().color);
    }
}

/// A marked tallied window with the state, scanned color and known
/// neighbors, and an accepted tally, is a hit.
proof fn lemma_hit(
    v: Seq<bool>,
    n: (Window, u8),
    state: State,
    scan: Color,
    l: Option<Color>,
    r: Option<Color>,
    want: Seq<bool>,
    colors: int,
    size: int,
)
    requires
        n.0.state == state,
        n.0.scan == scan,
        (n.0.left as int) < colors,
        (n.0.right as int) < colors,
        (n.1 as int) < size,
        want[n.1 as int],
        seen(v, n, colors, size),
        l matches Some(x) ==> n.0.left == x,
        r matches Some(x) ==> n.0.right == x,
    ensures
        window_hit(v, state, scan, l, r, want, colors, size),
{
    let lh = crate::bkw::windows::frame(state, scan, n.0.left_blank, n.0.right_blank);
    let wl = crate::bkw::windows::with_left(lh, n.0.left);
    assert(crate::bkw::windows::with_right(wl, n.0.right) == n.0);
    assert(seen(v, (n.0, (n.1 as int) as u8), colors, size));
    assert(crate::bkw::windows::label_hit(v, n.0, want, colors, size));
    assert(crate::bkw::windows::label_hit(v, crate::bkw::windows::with_right(wl, (n.0.right as int) as u8), want, colors, size));
    assert(crate::bkw::windows::right_hit(v, wl, r, want, colors, size));
    assert(crate::bkw::windows::with_left(lh, (n.0.left as int) as u8) == wl);
    assert(crate::bkw::windows::right_hit(v, crate::bkw::windows::with_left(lh, (n.0.left as int) as u8), r, want, colors, size));
    assert(crate::bkw::windows::left_hit(v, lh, l, r, want, colors, size));
}

/// A configuration that fits a description, and a tallied window that
/// describes it: the window's neighbors are the description's known ones.
proof fn lemma_fit_neighbors(k: Tally, n: (Window, u8), state: State, tape: Tape, c: Conf)
    requires
        tape.wf(),
        conf_matches(state, tape, c),
        describes(k, n, c),
    ensures
        n.0.state == state,
        n.0.scan == tape.scan,
        neighbor_color(tape.lspan.bs(), tape.lspan.end) matches Some(x) ==> n.0.left == x,
        neighbor_color(tape.rspan.bs(), tape.rspan.end) matches Some(x) ==> n.0.right == x,
{
    let pl = choose|p: nat| #[trigger] side_match(tape.lspan.bs(), tape.lspan.end, blanks(p) + c.1);
    let pr = choose|p: nat| #[trigger] side_match(tape.rspan.bs(), tape.rspan.end, blanks(p) + c.3);
    lemma_match_neighbor(tape.lspan.bs(), tape.lspan.end, blanks(pl) + c.1);
    lemma_match_neighbor(tape.rspan.bs(), tape.rspan.end, blanks(pr) + c.3);
    lemma_padded(pl, c.1);
    lemma_padded(pr, c.3);
}

impl<const S: usize, const C: usize> Prog<S, C> {
    /// A tape description that fits some configuration of the run from the
    /// blank tape passes the window filter (`window_possible`), given the
    /// exact window tables and sound forbidden colors.
    pub proof fn lemma_window_filter_sound(
        &self,
        wp: WinPossible,
        fl: Seq<bool>,
        fr: Seq<bool>,
        state: State,
        tape: Tape,
        c: Conf,
    )
        requires
            self.inv(),
            S >= 1,
            1 <= C <= 64,
            prints_below(self.instr_list(), C as int),
            targets_below(self.instr_list(), S as int),
            forbid_sound(self.entries(), fl, true, C as int),
            forbid_sound(self.entries(), fr, false, C as int),
            self.win_exact(wp, fl, fr),
            tape.wf(),
            self.conf_reach(c),
            conf_matches(state, tape, c),
        ensures
            (state as int) < S,
            (tape.scan as int) < C,
            window_hit(
                wp.side_parity@,
                state,
                tape.scan,
                neighbor_color(tape.lspan.bs(), tape.lspan.end),
                neighbor_color(tape.rspan.bs(), tape.rspan.end),
                seq![true, true, true, true],
                C as int,
                4,
            ),
    {
        self.lemma_run_windows(Tally::SideParity, fl, fr, c);
        let n = choose|n: (Window, u8)| Self::node_in(Tally::SideParity, n) && #[trigger] self.win_reach(Tally::SideParity, fl, fr, n)
            && describes(Tally::SideParity, n, c);
        assert(seen(wp.side_parity@, n, C as int, 4));
        lemma_fit_neighbors(Tally::SideParity, n, state, tape, c);
        lemma_hit(
            wp.side_parity@,
            n,
            state,
            tape.scan,
            neighbor_color(tape.lspan.bs(), tape.lspan.end),
            neighbor_color(tape.rspan.bs(), tape.rspan.end),
            seq![true, true, true, true],
            C as int,
            4,
        );
    }
}

/// The bits of the small masks that the side filters use.
proof fn lemma_small_bits()
    ensures
        crate::bkw::windows::bit(1, 0),
        crate::bkw::windows::bit(2, 1),
        crate::bkw::windows::bit(3, 0),
        crate::bkw::windows::bit(3, 1),
        crate::bkw::windows::bit(4, 2),
        crate::bkw::windows::bit(7, 0),
        crate::bkw::windows::bit(7, 1),
        crate::bkw::windows::bit(7, 2),
{
    assert((1u8 >> 0u8) & 1u8 == 1u8 && (2u8 >> 1u8) & 1u8 == 1u8 && (3u8 >> 0u8) & 1u8 == 1u8 && (3u8 >> 1u8) & 1u8 == 1u8
        && (4u8 >> 2u8) & 1u8 == 1u8 && (7u8 >> 0u8) & 1u8 == 1u8 && (7u8 >> 1u8) & 1u8 == 1u8 && (7u8 >> 2u8) & 1u8 == 1u8)
        by (bit_vector);
}

/// The possible parities that a side's mask allows include that of a
/// padded side that fits the span.
proof fn lemma_parity_mask_bit(bs: Seq<Block>, end: TapeEnd, p: nat, s: Seq<Color>)
    requires
        side_match(bs, end, blanks(p) + s),
    ensures
        crate::bkw::windows::bit(crate::bkw::tape::side_parity_mask_spec(bs, end), (nonblank(s) % 2) as int),
{
    lemma_padded(p, s);
    let m = crate::bkw::tape::side_parity_mask_spec(bs, end);
    if crate::bkw::tape::side_exact(bs, end) {
        crate::bkw::sound::lemma_match_parity(bs, blanks(p) + s);
    }
    lemma_small_bits();
}

/// The possible residues modulo 3 that a side's mask allows include that
/// of a padded side that fits the span.
proof fn lemma_mod3_mask_bit(bs: Seq<Block>, end: TapeEnd, p: nat, s: Seq<Color>)
    requires
        side_match(bs, end, blanks(p) + s),
    ensures
        crate::bkw::windows::bit(crate::bkw::tape::side_mod3_mask_spec(bs, end), (nonblank(s) % 3) as int),
{
    lemma_padded(p, s);
    if crate::bkw::tape::side_exact(bs, end) {
        crate::bkw::sound::lemma_match_mod3(bs, blanks(p) + s);
    }
    lemma_small_bits();
}

impl<const S: usize, const C: usize> Prog<S, C> {
    /// A tape description that fits some configuration of the run from the
    /// blank tape passes the side nonblank-parity window filter
    /// (`window_side_nonblank_parity_possible`), given the exact window
    /// tables and sound forbidden colors.
    pub proof fn lemma_side_parity_filter_sound(
        &self,
        wp: WinPossible,
        fl: Seq<bool>,
        fr: Seq<bool>,
        state: State,
        tape: Tape,
        c: Conf,
    )
        requires
            self.inv(),
            S >= 1,
            1 <= C <= 64,
            prints_below(self.instr_list(), C as int),
            targets_below(self.instr_list(), S as int),
            forbid_sound(self.entries(), fl, true, C as int),
            forbid_sound(self.entries(), fr, false, C as int),
            self.win_exact(wp, fl, fr),
            tape.wf(),
            self.conf_reach(c),
            conf_matches(state, tape, c),
        ensures
            crate::bkw::windows::side_parity_ok::<S, C>(state, tape, wp),
    {
        self.lemma_run_windows(Tally::SideParity, fl, fr, c);
        let n = choose|n: (Window, u8)| Self::node_in(Tally::SideParity, n) && #[trigger] self.win_reach(Tally::SideParity, fl, fr, n)
            && describes(Tally::SideParity, n, c);
        assert(seen(wp.side_parity@, n, C as int, 4));
        lemma_fit_neighbors(Tally::SideParity, n, state, tape, c);
        let pl = choose|p: nat| #[trigger] side_match(tape.lspan.bs(), tape.lspan.end, blanks(p) + c.1);
        let pr = choose|p: nat| #[trigger] side_match(tape.rspan.bs(), tape.rspan.end, blanks(p) + c.3);
        lemma_parity_mask_bit(tape.lspan.bs(), tape.lspan.end, pl, c.1);
        lemma_parity_mask_bit(tape.rspan.bs(), tape.rspan.end, pr, c.3);
        let lm = crate::bkw::tape::side_parity_mask_spec(tape.lspan.bs(), tape.lspan.end);
        let rm = crate::bkw::tape::side_parity_mask_spec(tape.rspan.bs(), tape.rspan.end);
        let want = crate::bkw::windows::side_want(lm, rm, 2);
        assert(n.1 as int % 2 == nonblank(c.1) % 2 && n.1 as int / 2 == nonblank(c.3) % 2);
        assert(want[n.1 as int]);
        lemma_hit(
            wp.side_parity@,
            n,
            state,
            tape.scan,
            neighbor_color(tape.lspan.bs(), tape.lspan.end),
            neighbor_color(tape.rspan.bs(), tape.rspan.end),
            want,
            C as int,
            4,
        );
    }

    /// A tape description that fits some configuration of the run from the
    /// blank tape passes the total nonblank-parity window filter
    /// (`window_nonblank_parity_possible`), given the exact window tables
    /// and sound forbidden colors.
    pub proof fn lemma_total_parity_filter_sound(
        &self,
        wp: WinPossible,
        fl: Seq<bool>,
        fr: Seq<bool>,
        state: State,
        tape: Tape,
        c: Conf,
    )
        requires
            self.inv(),
            S >= 1,
            1 <= C <= 64,
            prints_below(self.instr_list(), C as int),
            targets_below(self.instr_list(), S as int),
            forbid_sound(self.entries(), fl, true, C as int),
            forbid_sound(self.entries(), fr, false, C as int),
            self.win_exact(wp, fl, fr),
            tape.wf(),
            self.conf_reach(c),
            conf_matches(state, tape, c),
        ensures
            crate::bkw::windows::nonblank_parity_ok::<S, C>(state, tape, wp),
    {
        let lb = tape.lspan.bs();
        let rb = tape.rspan.bs();
        if crate::bkw::tape::side_exact(lb, tape.lspan.end) && crate::bkw::tape::side_exact(rb, tape.rspan.end) {
            self.lemma_run_windows(Tally::SideParity, fl, fr, c);
            let n = choose|n: (Window, u8)| Self::node_in(Tally::SideParity, n) && #[trigger] self.win_reach(Tally::SideParity, fl, fr, n)
                && describes(Tally::SideParity, n, c);
            assert(seen(wp.side_parity@, n, C as int, 4));
            lemma_fit_neighbors(Tally::SideParity, n, state, tape, c);
            let pl = choose|p: nat| #[trigger] side_match(lb, tape.lspan.end, blanks(p) + c.1);
            let pr = choose|p: nat| #[trigger] side_match(rb, tape.rspan.end, blanks(p) + c.3);
            crate::bkw::sound::lemma_match_parity(lb, blanks(pl) + c.1);
            crate::bkw::sound::lemma_match_parity(rb, blanks(pr) + c.3);
            lemma_padded(pl, c.1);
            lemma_padded(pr, c.3);
            crate::bkw::tape::lemma_parity_bound(lb);
            crate::bkw::tape::lemma_parity_bound(rb);
            lemma_small_bits();
            let required: u8 = if ((if tape.scan != 0 { 1nat } else { 0nat }) + crate::bkw::tape::nonblank_parity_of(lb)
                + crate::bkw::tape::nonblank_parity_of(rb)) % 2 == 0 { 1u8 } else { 2u8 };
            let want = crate::bkw::windows::total_parity_want(required, tape.scan);
            assert(n.1 as int % 2 == nonblank(c.1) % 2 && n.1 as int / 2 == nonblank(c.3) % 2);
            assert(want[n.1 as int]);
            lemma_hit(
                wp.side_parity@,
                n,
                state,
                tape.scan,
                neighbor_color(lb, tape.lspan.end),
                neighbor_color(rb, tape.rspan.end),
                want,
                C as int,
                4,
            );
        }
    }

    /// A tape description that fits some configuration of the run from the
    /// blank tape passes the side nonblank-count modulo 3 window filter
    /// (`window_side_nonblank_mod3_possible`), given the exact window
    /// tables and sound forbidden colors.
    pub proof fn lemma_side_mod3_filter_sound(
        &self,
        wp: WinPossible,
        fl: Seq<bool>,
        fr: Seq<bool>,
        state: State,
        tape: Tape,
        c: Conf,
    )
        requires
            self.inv(),
            S >= 1,
            1 <= C <= 64,
            prints_below(self.instr_list(), C as int),
            targets_below(self.instr_list(), S as int),
            forbid_sound(self.entries(), fl, true, C as int),
            forbid_sound(self.entries(), fr, false, C as int),
            self.win_exact(wp, fl, fr),
            tape.wf(),
            self.conf_reach(c),
            conf_matches(state, tape, c),
        ensures
            crate::bkw::windows::side_mod3_ok::<S, C>(state, tape, wp),
    {
        self.lemma_run_windows(Tally::SideMod3, fl, fr, c);
        let n = choose|n: (Window, u8)| Self::node_in(Tally::SideMod3, n) && #[trigger] self.win_reach(Tally::SideMod3, fl, fr, n)
            && describes(Tally::SideMod3, n, c);
        assert(seen(wp.side_mod3@, n, C as int, 9));
        lemma_fit_neighbors(Tally::SideMod3, n, state, tape, c);
        let pl = choose|p: nat| #[trigger] side_match(tape.lspan.bs(), tape.lspan.end, blanks(p) + c.1);
        let pr = choose|p: nat| #[trigger] side_match(tape.rspan.bs(), tape.rspan.end, blanks(p) + c.3);
        lemma_mod3_mask_bit(tape.lspan.bs(), tape.lspan.end, pl, c.1);
        lemma_mod3_mask_bit(tape.rspan.bs(), tape.rspan.end, pr, c.3);
        let lm = crate::bkw::tape::side_mod3_mask_spec(tape.lspan.bs(), tape.lspan.end);
        let rm = crate::bkw::tape::side_mod3_mask_spec(tape.rspan.bs(), tape.rspan.end);
        let want = crate::bkw::windows::side_want(lm, rm, 3);
        assert(n.1 as int % 3 == nonblank(c.1) % 3 && n.1 as int / 3 == nonblank(c.3) % 3);
        assert(want[n.1 as int]);
        lemma_hit(
            wp.side_mod3@,
            n,
            state,
            tape.scan,
            neighbor_color(tape.lspan.bs(), tape.lspan.end),
            neighbor_color(tape.rspan.bs(), tape.rspan.end),
            want,
            C as int,
            9,
        );
    }
}

/// A padded side holds as many cells of a nonblank color beyond its
/// neighbor as the side itself.
proof fn lemma_occ_padded_rest(p: nat, s: Seq<Color>, k: Color)
    requires
        k != 0,
    ensures
        occ(rest(blanks(p) + s), k) == occ(rest(s), k),
{
    let u = blanks(p) + s;
    let ru = rest(u);
    let rs = rest(s);
    if s.len() > 0 {
        assert(ru =~= blanks(p) + rs);
        crate::bkw::sound::lemma_occ_split(ru, k, p as int);
        assert(ru.subrange(0, p as int) =~= blanks(p));
        assert(ru.subrange(p as int, ru.len() as int) =~= rs);
    } else {
        assert(u =~= blanks(p));
        crate::bkw::sound::lemma_occ_split(ru, k, 0);
    }
    lemma_occ_blanks(if s.len() > 0 { p } else { if p > 0 { (p - 1) as nat } else { 0 } }, k);
    if s.len() == 0 {
        if p > 0 {
            assert(ru =~= blanks((p - 1) as nat));
        } else {
            assert(ru =~= blanks(0));
        }
    }
}

/// Blank cells hold no nonblank color.
proof fn lemma_occ_blanks(n: nat, k: Color)
    requires
        k != 0,
    ensures
        occ(blanks(n), k) == 0,
    decreases n,
{
    if n > 0 {
        assert(blanks(n).drop_last() =~= blanks((n - 1) as nat));
        lemma_occ_blanks((n - 1) as nat, k);
    }
}

impl<const S: usize, const C: usize> Prog<S, C> {
    /// A tape description that fits some configuration of the run from the
    /// blank tape passes the color-count filter (`counts_ok` of
    /// `obeys_tail_presence`), given the table that
    /// `color_tail_count_from_blank` computes from the exact window tables
    /// and sound forbidden colors.
    pub proof fn lemma_tail_counts_filter_sound(
        &self,
        wp: WinPossible,
        fl: Seq<bool>,
        fr: Seq<bool>,
        ct: crate::bkw::tails::ColorTailCountPossible<S, C>,
        state: State,
        tape: Tape,
        c: Conf,
    )
        requires
            self.inv(),
            S >= 1,
            1 <= C <= 64,
            prints_below(self.instr_list(), C as int),
            targets_below(self.instr_list(), S as int),
            forbid_sound(self.entries(), fl, true, C as int),
            forbid_sound(self.entries(), fr, false, C as int),
            self.win_exact(wp, fl, fr),
            forall|x: CFact| #[trigger] ct.holds(x) == self.count_reach(wp.side_parity@, x),
            tape.wf(),
            self.conf_reach(c),
            conf_matches(state, tape, c),
        ensures
            ct.counts_ok(state, tape),
    {
        self.lemma_run_tail_counts(wp, fl, fr, c);
        let pl = choose|p: nat| #[trigger] side_match(tape.lspan.bs(), tape.lspan.end, blanks(p) + c.1);
        let pr = choose|p: nat| #[trigger] side_match(tape.rspan.bs(), tape.rspan.end, blanks(p) + c.3);
        lemma_match_neighbor(tape.lspan.bs(), tape.lspan.end, blanks(pl) + c.1);
        lemma_match_neighbor(tape.rspan.bs(), tape.rspan.end, blanks(pr) + c.3);
        lemma_padded(pl, c.1);
        lemma_padded(pr, c.3);
        let kl = neighbor_color(tape.lspan.bs(), tape.lspan.end);
        let kr = neighbor_color(tape.rspan.bs(), tape.rspan.end);
        assert forall|k: Color| 1 <= k < C implies #[trigger] ct.color_count_ok(state, tape, k) by {
            crate::bkw::sound::lemma_count_may(tape.lspan.bs(), tape.lspan.end, blanks(pl) + c.1, k);
            crate::bkw::sound::lemma_count_may(tape.rspan.bs(), tape.rspan.end, blanks(pr) + c.3, k);
            lemma_occ_padded_rest(pl, c.1, k);
            lemma_occ_padded_rest(pr, c.3, k);
            let s = conf_count_status(c, k);
            let a = capped(occ(rest(c.1), k));
            let b = capped(occ(rest(c.3), k));
            assert(s as int % 3 == a && s as int / 3 == b);
            assert(self.count_reach(wp.side_parity@, (conf_quad(c), k, s)));
            assert(ct.holds(((state, tape.scan, nb(c.1), nb(c.3)), k, s)));
            assert(ct.seen(state, tape.scan, kl, kr, k, s));
        }
    }
}

impl<const S: usize, const C: usize> Prog<S, C> {
    /// A tape description that fits some configuration of the run from the
    /// blank tape passes the color-pair presence filter (`pairs_ok` of
    /// `obeys_tail_presence`), given the table that
    /// `pair_tail_presence_from_blank` computes from the exact window tables
    /// and sound forbidden colors.
    pub proof fn lemma_tail_pairs_filter_sound(
        &self,
        wp: WinPossible,
        fl: Seq<bool>,
        fr: Seq<bool>,
        pt: crate::bkw::tails::PairTailPresencePossible<S, C>,
        state: State,
        tape: Tape,
        c: Conf,
    )
        requires
            self.inv(),
            S >= 1,
            1 <= C <= 64,
            prints_below(self.instr_list(), C as int),
            targets_below(self.instr_list(), S as int),
            forbid_sound(self.entries(), fl, true, C as int),
            forbid_sound(self.entries(), fr, false, C as int),
            self.win_exact(wp, fl, fr),
            forall|x: PrFact| #[trigger] pt.holds(x) == self.pair_reach(wp.side_parity@, x),
            tape.wf(),
            self.conf_reach(c),
            conf_matches(state, tape, c),
        ensures
            pt.pairs_ok(state, tape),
    {
        self.lemma_run_tail_pairs(wp, fl, fr, c);
        let pl = choose|p: nat| #[trigger] side_match(tape.lspan.bs(), tape.lspan.end, blanks(p) + c.1);
        let pr = choose|p: nat| #[trigger] side_match(tape.rspan.bs(), tape.rspan.end, blanks(p) + c.3);
        lemma_match_neighbor(tape.lspan.bs(), tape.lspan.end, blanks(pl) + c.1);
        lemma_match_neighbor(tape.rspan.bs(), tape.rspan.end, blanks(pr) + c.3);
        lemma_padded(pl, c.1);
        lemma_padded(pr, c.3);
        let kl = neighbor_color(tape.lspan.bs(), tape.lspan.end);
        let kr = neighbor_color(tape.rspan.bs(), tape.rspan.end);
        assert forall|a: Color, b: Color| 1 <= a < b < C && crate::bkw::tails::presence_constrained(tape, a)
            && crate::bkw::tails::presence_constrained(tape, b) implies #[trigger] pt.pair_fits(state, tape, a, b) by {
            crate::bkw::sound::lemma_count_may(tape.lspan.bs(), tape.lspan.end, blanks(pl) + c.1, a);
            crate::bkw::sound::lemma_count_may(tape.rspan.bs(), tape.rspan.end, blanks(pr) + c.3, a);
            crate::bkw::sound::lemma_count_may(tape.lspan.bs(), tape.lspan.end, blanks(pl) + c.1, b);
            crate::bkw::sound::lemma_count_may(tape.rspan.bs(), tape.rspan.end, blanks(pr) + c.3, b);
            lemma_occ_padded_rest(pl, c.1, a);
            lemma_occ_padded_rest(pr, c.3, a);
            lemma_occ_padded_rest(pl, c.1, b);
            lemma_occ_padded_rest(pr, c.3, b);
            let s = conf_pair_status(c, a, b);
            let xa = (if occ(rest(c.1), a) > 0 { 1int } else { 0 }) + (if occ(rest(c.3), a) > 0 { 2int } else { 0 });
            let xb = (if occ(rest(c.1), b) > 0 { 1int } else { 0 }) + (if occ(rest(c.3), b) > 0 { 2int } else { 0 });
            assert(s as int % 4 == xa && s as int / 4 == xb);
            assert(crate::bkw::tails::presence_fits(tape, a, xa));
            assert(crate::bkw::tails::presence_fits(tape, b, xb));
            assert(self.pair_reach(wp.side_parity@, (conf_quad(c), a, b, s)));
            assert(pt.holds(((state, tape.scan, nb(c.1), nb(c.3)), a, b, s)));
            assert(pt.seen(state, tape.scan, kl, kr, a, b, s));
        }
    }
}

/// The rules of exclusive or, and of masks, that matching color
/// parities uses.
proof fn lemma_xor_mask(xt: u8, xu: u8, lv: u8, lu: u8, cb: u8)
    ensures
        (xt ^ lv) & !lu == 0 && (xu == 0 || xu == cb) ==> ((xt ^ xu) ^ lv) & !(lu | cb) == 0,
        (xt ^ lv) & !lu == 0 && xu == cb ==> ((xt ^ xu) ^ (lv ^ cb)) & !lu == 0,
        (xt ^ lv) & !lu == 0 && xu == 0 ==> ((xt ^ xu) ^ lv) & !lu == 0,
        (0u8 ^ 0u8) & !0u8 == 0,
{
    assert(((xt ^ lv) & !lu == 0 && (xu == 0 || xu == cb) ==> ((xt ^ xu) ^ lv) & !(lu | cb) == 0)
        && ((xt ^ lv) & !lu == 0 && xu == cb ==> ((xt ^ xu) ^ (lv ^ cb)) & !lu == 0)
        && ((xt ^ lv) & !lu == 0 && xu == 0 ==> ((xt ^ xu) ^ lv) & !lu == 0)
        && (0u8 ^ 0u8) & !0u8 == 0) by (bit_vector);
}

/// The color parities of a side split at any cell.
proof fn lemma_xor_split(s: Seq<Color>, m: int)
    requires
        0 <= m <= s.len(),
    ensures
        xor_side(s) == xor_side(s.subrange(0, m)) ^ xor_side(s.subrange(m, s.len() as int)),
    decreases s.len() - m,
{
    let a = xor_side(s.subrange(0, m));
    if m == s.len() {
        assert(s.subrange(0, m) =~= s);
        assert(s.subrange(m, s.len() as int) =~= Seq::<Color>::empty());
        lemma_xor5(a, 0, 0, 0, 0);
    } else {
        lemma_xor_split(s, m + 1);
        assert(s.subrange(0, m + 1).drop_last() =~= s.subrange(0, m));
        let b = s.subrange(m, s.len() as int);
        lemma_xor_first(b);
        assert(b.subrange(1, b.len() as int) =~= s.subrange(m + 1, s.len() as int));
        let x = crate::bkw::windows::color_bit(s[m]);
        let y = xor_side(s.subrange(m + 1, s.len() as int));
        assert(s.subrange(0, m + 1).last() == s[m]);
        assert((a ^ x) ^ y == a ^ (x ^ y)) by (bit_vector);
    }
}

/// A side's color parities: its farthest cell, then the rest.
proof fn lemma_xor_first(s: Seq<Color>)
    requires
        s.len() > 0,
    ensures
        xor_side(s) == crate::bkw::windows::color_bit(s[0]) ^ xor_side(s.subrange(1, s.len() as int)),
    decreases s.len(),
{
    let x = crate::bkw::windows::color_bit(s[0]);
    if s.len() == 1 {
        assert(s.drop_last() =~= Seq::<Color>::empty());
        assert(s.subrange(1, 1) =~= Seq::<Color>::empty());
        assert((0u8 ^ x) == (x ^ 0u8)) by (bit_vector);
        lemma_xor5(x, 0, 0, 0, 0);
    } else {
        lemma_xor_first(s.drop_last());
        assert(s.drop_last().subrange(1, s.len() - 1) =~= s.subrange(1, s.len() as int).drop_last());
        assert(s.drop_last()[0] == s[0]);
        assert(s.subrange(1, s.len() as int).last() == s.last());
        let y = xor_side(s.subrange(1, s.len() as int).drop_last());
        let z = crate::bkw::windows::color_bit(s.last());
        assert((x ^ y) ^ z == x ^ (y ^ z)) by (bit_vector);
    }
}

/// A run of `k` cells of one color has that color's bit where `k` is odd,
/// and no bit where it is even.
proof fn lemma_xor_run(s: Seq<Color>, color: Color)
    requires
        run_of(s, 0, s.len() as int, color),
    ensures
        xor_side(s) == if s.len() % 2 == 1 { crate::bkw::windows::color_bit(color) } else { 0 },
    decreases s.len(),
{
    if s.len() > 0 {
        assert(run_of(s.drop_last(), 0, s.len() - 1, color)) by {
            assert forall|i: int| 0 <= i < s.len() - 1 implies #[trigger] s.drop_last()[i] == color by {
                assert(s[i] == color);
            }
        }
        lemma_xor_run(s.drop_last(), color);
        assert(s[s.len() - 1] == color);
        let x = crate::bkw::windows::color_bit(color);
        assert((0u8 ^ x) == x && (x ^ x) == 0u8) by (bit_vector);
    }
}

/// A side with no nonblank cell has no color parity.
proof fn lemma_xor_blank(s: Seq<Color>)
    requires
        nonblank(s) == 0,
    ensures
        xor_side(s) == 0,
    decreases s.len(),
{
    if s.len() > 0 {
        lemma_xor_blank(s.drop_last());
        assert(s.last() == 0);
        assert(crate::bkw::windows::color_bit(0) == 0);
        lemma_xor5(0, 0, 0, 0, 0);
    }
}

/// A side that fits a span ending in blanks has the color parities that
/// the span's runs give, but for the colors whose parity they leave open.
proof fn lemma_match_xor(bs: Seq<Block>, s: Seq<Color>)
    requires
        side_match(bs, TapeEnd::Blanks, s),
    ensures
        (xor_side(s) ^ crate::bkw::windows::parity_vector(bs).0) & !crate::bkw::windows::parity_vector(bs).1 == 0,
    decreases bs.len(),
{
    if bs.len() == 0 {
        lemma_xor_blank(s);
        lemma_xor_mask(0, 0, 0, 0, 0);
    } else {
        let b = bs.last();
        let n = s.len() as int;
        let kk = choose|kk: int| #![trigger count_ok(bs.last().count, kk)]
            count_ok(bs.last().count, kk) && 0 <= kk <= s.len() && run_of(s, s.len() - kk, s.len() as int, bs.last().color)
            && side_match(bs.drop_last(), TapeEnd::Blanks, s.subrange(0, s.len() - kk));
        let t = s.subrange(0, n - kk);
        let u = s.subrange(n - kk, n);
        lemma_match_xor(bs.drop_last(), t);
        lemma_xor_split(s, n - kk);
        assert(run_of(u, 0, u.len() as int, b.color)) by {
            assert forall|i: int| 0 <= i < u.len() implies #[trigger] u[i] == b.color by {
                assert(u[i] == s[n - kk + i]);
            }
        }
        lemma_xor_run(u, b.color);
        let (lv, lu) = crate::bkw::windows::parity_vector(bs.drop_last());
        let cb = crate::bkw::windows::color_bit(b.color);
        lemma_xor_mask(xor_side(t), xor_side(u), lv, lu, cb);
        if b.color == 0 {
            assert(cb == 0);
        }
    }
}

impl<const S: usize, const C: usize> Prog<S, C> {
    /// A tape description that fits some configuration of the run from the
    /// blank tape passes the color-parity window filter
    /// (`window_color_parity_possible`), given the exact window tables and
    /// sound forbidden colors.
    pub proof fn lemma_color_parity_filter_sound(
        &self,
        wp: WinPossible,
        fl: Seq<bool>,
        fr: Seq<bool>,
        state: State,
        tape: Tape,
        c: Conf,
    )
        requires
            self.inv(),
            S >= 1,
            1 <= C <= 64,
            prints_below(self.instr_list(), C as int),
            targets_below(self.instr_list(), S as int),
            forbid_sound(self.entries(), fl, true, C as int),
            forbid_sound(self.entries(), fr, false, C as int),
            self.win_exact(wp, fl, fr),
            tape.wf(),
            self.conf_reach(c),
            conf_matches(state, tape, c),
        ensures
            crate::bkw::windows::color_parity_ok::<S, C>(state, tape, wp),
    {
        if C <= 7 && tape.lspan.end == TapeEnd::Blanks && tape.rspan.end == TapeEnd::Blanks {
            let k = Tally::ColorParity;
            let size = crate::bkw::windows::tally_size(k, C as int);
            self.lemma_run_windows(k, fl, fr, c);
            let n = choose|n: (Window, u8)| Self::node_in(k, n) && #[trigger] self.win_reach(k, fl, fr, n) && describes(k, n, c);
            let v = wp.color_parity->0@;
            assert(seen(v, n, C as int, size));
            lemma_fit_neighbors(k, n, state, tape, c);
            let pl = choose|p: nat| #[trigger] side_match(tape.lspan.bs(), tape.lspan.end, blanks(p) + c.1);
            let pr = choose|p: nat| #[trigger] side_match(tape.rspan.bs(), tape.rspan.end, blanks(p) + c.3);
            lemma_match_xor(tape.lspan.bs(), blanks(pl) + c.1);
            lemma_match_xor(tape.rspan.bs(), blanks(pr) + c.3);
            lemma_xor_split(blanks(pl) + c.1, pl as int);
            lemma_xor_split(blanks(pr) + c.3, pr as int);
            assert((blanks(pl) + c.1).subrange(0, pl as int) =~= blanks(pl));
            assert((blanks(pl) + c.1).subrange(pl as int, (pl + c.1.len()) as int) =~= c.1);
            assert((blanks(pr) + c.3).subrange(0, pr as int) =~= blanks(pr));
            assert((blanks(pr) + c.3).subrange(pr as int, (pr + c.3.len()) as int) =~= c.3);
            lemma_nonblank_blanks(pl);
            lemma_nonblank_blanks(pr);
            lemma_xor_blank(blanks(pl));
            lemma_xor_blank(blanks(pr));
            let xl = xor_side(c.1);
            let xr = xor_side(c.3);
            assert(xor_side(blanks(pl) + c.1) == xl) by {
                assert((0u8 ^ xl) == xl) by (bit_vector);
            }
            assert(xor_side(blanks(pr) + c.3) == xr) by {
                assert((0u8 ^ xr) == xr) by (bit_vector);
            }
            let (lv, lu) = crate::bkw::windows::parity_vector(tape.lspan.bs());
            let (rv, ru) = crate::bkw::windows::parity_vector(tape.rspan.bs());
            let sc = crate::bkw::windows::color_bit(tape.scan);
            let t = n.1;
            assert(t == (xl ^ sc) ^ xr);
            assert((xl ^ lv) & !lu == 0 && (xr ^ rv) & !ru == 0 ==> ((((xl ^ sc) ^ xr) ^ ((sc ^ lv) ^ rv)) & !(lu | ru)) == 0)
                by (bit_vector);
            let want = crate::bkw::windows::color_want(tape, size);
            assert(want[t as int]);
            lemma_hit(
                v,
                n,
                state,
                tape.scan,
                neighbor_color(tape.lspan.bs(), tape.lspan.end),
                neighbor_color(tape.rspan.bs(), tape.rspan.end),
                want,
                C as int,
                size,
            );
        }
    }
}

/// Whether color `k` stands on a side (blank always does, beyond the
/// listed cells).
pub open spec fn side_col(s: Seq<Color>, k: Color) -> bool {
    k == 0 || s.contains(k)
}

/// Whether `b` stands just beyond `a` on a side, from the head outward
/// (blank stands beyond the farthest listed cell, and beyond blank).
pub open spec fn side_pair(s: Seq<Color>, a: Color, b: Color) -> bool {
    ||| a == 0 && b == 0
    ||| s.len() > 0 && s[0] == a && b == 0
    ||| exists|i: int| 0 < i < s.len() && #[trigger] s[i] == a && s[i - 1] == b
}

/// The exact window of a configuration.
pub open spec fn conf_quad(c: Conf) -> Quad {
    (c.0, c.2, nb(c.1), nb(c.3))
}

/// Whether a set of facts holds a configuration's window and all the
/// colors and adjacent pairs on its two sides.
pub open spec fn conf_facts(set: spec_fn(Fact) -> bool, c: Conf) -> bool {
    &&& set(Fact::Reach(conf_quad(c)))
    &&& forall|k: Color| side_col(c.1, k) ==> #[trigger] set(Fact::Col(conf_quad(c), false, k))
    &&& forall|k: Color| side_col(c.3, k) ==> #[trigger] set(Fact::Col(conf_quad(c), true, k))
    &&& forall|a: Color, b: Color| side_pair(c.1, a, b) ==> #[trigger] set(Fact::Pair(conf_quad(c), false, a, b))
    &&& forall|a: Color, b: Color| side_pair(c.3, a, b) ==> #[trigger] set(Fact::Pair(conf_quad(c), true, a, b))
}

/// The pair of the two cells nearest the head on a side is a side pair.
proof fn lemma_near_pair(s: Seq<Color>)
    ensures
        side_pair(s, nb(s), nb(rest(s))),
{
    if s.len() >= 2 {
        assert(s[s.len() - 1] == nb(s));
        assert(rest(s)[s.len() - 2] == s[s.len() - 2]);
    }
}

/// The colors and pairs of a side without its nearest cell are the side's.
proof fn lemma_rest_facts(s: Seq<Color>)
    ensures
        forall|k: Color| side_col(rest(s), k) ==> side_col(s, k),
        forall|a: Color, b: Color| side_pair(rest(s), a, b) ==> side_pair(s, a, b),
{
    if s.len() > 0 {
        assert forall|k: Color| side_col(rest(s), k) implies side_col(s, k) by {
            if rest(s).contains(k) {
                let i = choose|i: int| 0 <= i < rest(s).len() && rest(s)[i] == k;
                assert(s[i] == k);
            }
        }
        assert forall|a: Color, b: Color| side_pair(rest(s), a, b) implies side_pair(s, a, b) by {
            if rest(s).len() > 0 && rest(s)[0] == a && b == 0 {
                assert(s[0] == a);
            }
            if exists|i: int| 0 < i < rest(s).len() && #[trigger] rest(s)[i] == a && rest(s)[i - 1] == b {
                let i = choose|i: int| 0 < i < rest(s).len() && #[trigger] rest(s)[i] == a && rest(s)[i - 1] == b;
                assert(s[i] == a && s[i - 1] == b);
            }
        }
    }
}

/// The colors and pairs of a side with a cell `x` set next to the head:
/// the side's, `x`, and `x` before the old nearest cell.
proof fn lemma_push_facts(s: Seq<Color>, x: Color)
    ensures
        forall|k: Color| side_col(s.push(x), k) ==> side_col(s, k) || k == x,
        forall|a: Color, b: Color| side_pair(s.push(x), a, b) ==> side_pair(s, a, b) || (a == x && b == nb(s)),
{
    let t = s.push(x);
    assert forall|k: Color| side_col(t, k) implies side_col(s, k) || k == x by {
        if t.contains(k) && k != x {
            let i = choose|i: int| 0 <= i < t.len() && t[i] == k;
            assert(i < s.len());
            assert(s[i] == k);
        }
    }
    assert forall|a: Color, b: Color| side_pair(t, a, b) implies side_pair(s, a, b) || (a == x && b == nb(s)) by {
        if t.len() > 0 && t[0] == a && b == 0 {
            if s.len() > 0 {
                assert(s[0] == a);
            }
        }
        if exists|i: int| 0 < i < t.len() && #[trigger] t[i] == a && t[i - 1] == b {
            let i = choose|i: int| 0 < i < t.len() && #[trigger] t[i] == a && t[i - 1] == b;
            if i < s.len() {
                assert(s[i] == a && s[i - 1] == b);
            } else {
                assert(s[s.len() - 1] == nb(s));
            }
        }
    }
}

impl<const S: usize, const C: usize> Prog<S, C> {
    /// The window of every configuration of the run from the blank tape is
    /// one that the exact window tables allow.
    proof fn lemma_conf_window_ok(&self, wp: WinPossible, fl: Seq<bool>, fr: Seq<bool>, c: Conf)
        requires
            self.inv(),
            S >= 1,
            1 <= C <= 64,
            prints_below(self.instr_list(), C as int),
            targets_below(self.instr_list(), S as int),
            forbid_sound(self.entries(), fl, true, C as int),
            forbid_sound(self.entries(), fr, false, C as int),
            self.win_exact(wp, fl, fr),
            self.conf_reach(c),
        ensures
            window_ok(wp.side_parity@, conf_quad(c), C as int),
    {
        self.lemma_run_windows(Tally::SideParity, fl, fr, c);
        let n = choose|n: (Window, u8)| Self::node_in(Tally::SideParity, n) && #[trigger] self.win_reach(Tally::SideParity, fl, fr, n)
            && describes(Tally::SideParity, n, c);
        assert(seen(wp.side_parity@, n, C as int, 4));
        lemma_hit(wp.side_parity@, n, c.0, c.2, Some(nb(c.1)), Some(nb(c.3)), seq![true, true, true, true], C as int, 4);
    }

    /// Every closed set of side facts holds the facts of every
    /// configuration of the run from the blank tape.
    proof fn lemma_run_facts_in(&self, wp: WinPossible, fl: Seq<bool>, fr: Seq<bool>, set: spec_fn(Fact) -> bool, c: Conf)
        requires
            self.inv(),
            S >= 1,
            1 <= C <= 64,
            prints_below(self.instr_list(), C as int),
            targets_below(self.instr_list(), S as int),
            forbid_sound(self.entries(), fl, true, C as int),
            forbid_sound(self.entries(), fr, false, C as int),
            self.win_exact(wp, fl, fr),
            self.side_closed(wp.side_parity@, set),
            self.conf_reach(c),
        ensures
            conf_facts(set, c),
    {
        let v = wp.side_parity@;
        let es = self.entries();
        let ok = |x: Conf| self.conf_reach(x) && conf_facts(set, x);
        assert(ok(blank_conf())) by {
            assert(conf_quad(blank_conf()) == side_init());
            assert forall|a: Color, b: Color| side_pair(blank_conf().1, a, b) implies a == 0 && b == 0 by {}
            assert forall|a: Color, b: Color| side_pair(blank_conf().3, a, b) implies a == 0 && b == 0 by {}
            assert forall|k: Color| side_col(blank_conf().1, k) implies k == 0 by {}
            assert forall|k: Color| side_col(blank_conf().3, k) implies k == 0 by {}
        }
        assert(self.conf_closed(ok)) by {
            assert forall|x: Conf, d: Conf| #![trigger ok(x), self.conf_step(x, d)] ok(x) && self.conf_step(x, d) implies ok(d) by {
                self.lemma_reach_step(x, d);
                self.lemma_run_sides(x);
                self.lemma_conf_window_ok(wp, fl, fr, d);
                let i = self.instr_at(x.0 as int, x.2 as int)->0;
                let (pr, sh, ns) = i;
                let w = conf_quad(x);
                lemma_side_rest(es, x.1, true, C as int);
                lemma_side_rest(es, x.3, false, C as int);
                lemma_side_rest(es, rest(x.1), true, C as int);
                lemma_side_rest(es, rest(x.3), false, C as int);
                if sh {
                    let nn = nb(rest(x.3));
                    lemma_near_pair(x.3);
                    assert(set(Fact::Pair(w, true, nb(x.3), nn)));
                    assert(self.side_target(w, nn) == Some((conf_quad(d), false, pr, nb(x.1))));
                    assert(self.side_enabled(v, set, w, nn));
                    assert(self.side_step_closed(v, set, w, nn));
                    lemma_push_facts(x.1, pr);
                    lemma_rest_facts(x.3);
                    assert forall|k: Color| side_col(d.1, k) implies #[trigger] set(Fact::Col(conf_quad(d), false, k)) by {
                        if k != pr {
                            assert(set(Fact::Col(w, false, k)));
                        }
                    }
                    assert forall|k: Color| side_col(d.3, k) implies #[trigger] set(Fact::Col(conf_quad(d), true, k)) by {
                        assert(set(Fact::Col(w, true, k)));
                    }
                    assert forall|a: Color, b: Color| side_pair(d.1, a, b) implies #[trigger] set(Fact::Pair(conf_quad(d), false, a, b)) by {
                        if !(a == pr && b == nb(x.1)) {
                            assert(set(Fact::Pair(w, false, a, b)));
                        }
                    }
                    assert forall|a: Color, b: Color| side_pair(d.3, a, b) implies #[trigger] set(Fact::Pair(conf_quad(d), true, a, b)) by {
                        assert(set(Fact::Pair(w, true, a, b)));
                    }
                } else {
                    let nn = nb(rest(x.1));
                    lemma_near_pair(x.1);
                    assert(set(Fact::Pair(w, false, nb(x.1), nn)));
                    assert(self.side_target(w, nn) == Some((conf_quad(d), true, pr, nb(x.3))));
                    assert(self.side_enabled(v, set, w, nn));
                    assert(self.side_step_closed(v, set, w, nn));
                    lemma_push_facts(x.3, pr);
                    lemma_rest_facts(x.1);
                    assert forall|k: Color| side_col(d.3, k) implies #[trigger] set(Fact::Col(conf_quad(d), true, k)) by {
                        if k != pr {
                            assert(set(Fact::Col(w, true, k)));
                        }
                    }
                    assert forall|k: Color| side_col(d.1, k) implies #[trigger] set(Fact::Col(conf_quad(d), false, k)) by {
                        assert(set(Fact::Col(w, false, k)));
                    }
                    assert forall|a: Color, b: Color| side_pair(d.3, a, b) implies #[trigger] set(Fact::Pair(conf_quad(d), true, a, b)) by {
                        if !(a == pr && b == nb(x.3)) {
                            assert(set(Fact::Pair(w, true, a, b)));
                        }
                    }
                    assert forall|a: Color, b: Color| side_pair(d.1, a, b) implies #[trigger] set(Fact::Pair(conf_quad(d), false, a, b)) by {
                        assert(set(Fact::Pair(w, false, a, b)));
                    }
                }
            }
        }
        assert(ok(c));
    }

    /// On the run from the blank tape, the window of every configuration
    /// holds on runs (`side_reach`, which `side_possible_from_blank`
    /// computes exactly), with every color on each side and every pair of
    /// adjacent colors there.
    pub proof fn lemma_run_side_summary(&self, wp: WinPossible, fl: Seq<bool>, fr: Seq<bool>, c: Conf)
        requires
            self.inv(),
            S >= 1,
            1 <= C <= 64,
            prints_below(self.instr_list(), C as int),
            targets_below(self.instr_list(), S as int),
            forbid_sound(self.entries(), fl, true, C as int),
            forbid_sound(self.entries(), fr, false, C as int),
            self.win_exact(wp, fl, fr),
            self.conf_reach(c),
        ensures
            conf_facts(|f: Fact| self.side_reach(wp.side_parity@, f), c),
    {
        let v = wp.side_parity@;
        let q = conf_quad(c);
        assert forall|set: spec_fn(Fact) -> bool| #[trigger] self.side_closed(v, set) implies conf_facts(set, c) by {
            self.lemma_run_facts_in(wp, fl, fr, set, c);
        }
        assert(self.side_reach(v, Fact::Reach(q)));
        assert forall|k: Color| side_col(c.1, k) implies #[trigger] self.side_reach(v, Fact::Col(q, false, k)) by {
            assert forall|set: spec_fn(Fact) -> bool| #[trigger] self.side_closed(v, set) implies set(Fact::Col(q, false, k)) by {
                assert(conf_facts(set, c));
            }
        }
        assert forall|k: Color| side_col(c.3, k) implies #[trigger] self.side_reach(v, Fact::Col(q, true, k)) by {
            assert forall|set: spec_fn(Fact) -> bool| #[trigger] self.side_closed(v, set) implies set(Fact::Col(q, true, k)) by {
                assert(conf_facts(set, c));
            }
        }
        assert forall|a: Color, b: Color| side_pair(c.1, a, b) implies #[trigger] self.side_reach(v, Fact::Pair(q, false, a, b)) by {
            assert forall|set: spec_fn(Fact) -> bool| #[trigger] self.side_closed(v, set) implies set(Fact::Pair(q, false, a, b)) by {
                assert(conf_facts(set, c));
            }
        }
        assert forall|a: Color, b: Color| side_pair(c.3, a, b) implies #[trigger] self.side_reach(v, Fact::Pair(q, true, a, b)) by {
            assert forall|set: spec_fn(Fact) -> bool| #[trigger] self.side_closed(v, set) implies set(Fact::Pair(q, true, a, b)) by {
                assert(conf_facts(set, c));
            }
        }
    }
}

/// What the runs of a span (farthest first) say of a side that fits them:
/// each run's color stands there, next to itself in a run of two or more
/// cells and next to the farther run's color, and blank (where the span
/// ends in blanks) or some color stands beyond the farthest run.
pub open spec fn span_facts(bs: Seq<Block>, end: TapeEnd, t: Seq<Color>) -> bool {
    &&& forall|i: int| 0 <= i < bs.len() ==> side_col(t, (#[trigger] bs[i]).color)
    &&& forall|i: int| 0 <= i < bs.len() && (#[trigger] bs[i]).count.min_spec() > 1 ==> side_pair(t, bs[i].color, bs[i].color)
    &&& forall|i: int| 0 < i < bs.len() ==> side_pair(t, (#[trigger] bs[i]).color, bs[i - 1].color)
    &&& end == TapeEnd::Blanks ==> side_pair(t, if bs.len() > 0 { bs[0].color } else { 0 }, 0)
    &&& (end == TapeEnd::Unknown && bs.len() > 0) ==> exists|k: Color| #[trigger] side_pair(t, bs[0].color, k)
}

/// The colors and pairs of the far part of a side are the side's.
proof fn lemma_prefix_facts(t: Seq<Color>, m: int)
    requires
        0 <= m <= t.len(),
    ensures
        forall|k: Color| side_col(t.subrange(0, m), k) ==> side_col(t, k),
        forall|a: Color, b: Color| side_pair(t.subrange(0, m), a, b) ==> side_pair(t, a, b),
{
    let u = t.subrange(0, m);
    assert forall|k: Color| side_col(u, k) implies side_col(t, k) by {
        if u.contains(k) {
            let i = choose|i: int| 0 <= i < u.len() && u[i] == k;
            assert(t[i] == k);
        }
    }
    assert forall|a: Color, b: Color| side_pair(u, a, b) implies side_pair(t, a, b) by {
        if u.len() > 0 && u[0] == a && b == 0 {
            assert(t[0] == a);
        }
        if exists|i: int| 0 < i < u.len() && #[trigger] u[i] == a && u[i - 1] == b {
            let i = choose|i: int| 0 < i < u.len() && #[trigger] u[i] == a && u[i - 1] == b;
            assert(t[i] == a && t[i - 1] == b);
        }
    }
}

/// A side with no nonblank cell holds only blank cells.
proof fn lemma_zero_cells(s: Seq<Color>)
    requires
        nonblank(s) == 0,
    ensures
        forall|i: int| 0 <= i < s.len() ==> #[trigger] s[i] == 0,
    decreases s.len(),
{
    if s.len() > 0 {
        lemma_zero_cells(s.drop_last());
        assert forall|i: int| 0 <= i < s.len() implies #[trigger] s[i] == 0 by {
            if i < s.len() - 1 {
                assert(s.drop_last()[i] == s[i]);
            }
        }
    }
}

/// A side that fits the runs of a span has what they say of it.
proof fn lemma_span_facts(bs: Seq<Block>, end: TapeEnd, t: Seq<Color>)
    requires
        blocks_valid(bs),
        side_match(bs, end, t),
    ensures
        span_facts(bs, end, t),
    decreases bs.len(),
{
    if bs.len() > 0 {
        let n = t.len() as int;
        let k = choose|k: int| #![trigger count_ok(bs.last().count, k)]
            count_ok(bs.last().count, k) && 0 <= k <= t.len() && run_of(t, t.len() - k, t.len() as int, bs.last().color)
            && side_match(bs.drop_last(), end, t.subrange(0, t.len() - k));
        let x = bs.last().color;
        let bs1 = bs.drop_last();
        let t1 = t.subrange(0, n - k);
        assert(bs[bs.len() - 1] == bs.last());
        assert(bs.last().count.min_spec() > 0);
        assert(k >= 1);
        assert(t[n - 1] == x);
        assert(blocks_valid(bs1)) by {
            assert forall|i: int| 0 <= i < bs1.len() implies (#[trigger] bs1[i]).count.min_spec() > 0 by {
                assert(bs1[i] == bs[i]);
            }
        }
        lemma_span_facts(bs1, end, t1);
        lemma_prefix_facts(t, n - k);
        // What lies just beyond the nearest run.
        if bs1.len() > 0 {
            let k1 = choose|k1: int| #![trigger count_ok(bs1.last().count, k1)]
                count_ok(bs1.last().count, k1) && 0 <= k1 <= t1.len() && run_of(t1, t1.len() - k1, t1.len() as int, bs1.last().color)
                && side_match(bs1.drop_last(), end, t1.subrange(0, t1.len() - k1));
            assert(bs1[bs1.len() - 1] == bs1.last());
            assert(bs1.last().count.min_spec() > 0);
            assert(t1[t1.len() - 1] == bs1.last().color);
            assert(t[n - k] == x);
            assert(t[n - k - 1] == bs[bs.len() - 2].color);
            assert(side_pair(t, x, bs[bs.len() - 2].color));
        }
        assert forall|i: int| 0 <= i < bs.len() implies side_col(t, (#[trigger] bs[i]).color) by {
            if i < bs.len() - 1 {
                assert(bs1[i] == bs[i]);
                assert(side_col(t1, bs1[i].color));
            } else {
                assert(t.contains(x));
            }
        }
        assert forall|i: int| 0 <= i < bs.len() && (#[trigger] bs[i]).count.min_spec() > 1 implies side_pair(
            t,
            bs[i].color,
            bs[i].color,
        ) by {
            if i < bs.len() - 1 {
                assert(bs1[i] == bs[i]);
                assert(side_pair(t1, bs1[i].color, bs1[i].color));
            } else {
                assert(k >= 2);
                assert(t[n - 1] == x && t[n - 2] == x);
            }
        }
        assert forall|i: int| 0 < i < bs.len() implies side_pair(t, (#[trigger] bs[i]).color, bs[i - 1].color) by {
            if i < bs.len() - 1 {
                assert(bs1[i] == bs[i]);
                assert(bs1[i - 1] == bs[i - 1]);
                assert(side_pair(t1, bs1[i].color, bs1[i - 1].color));
            }
        }
        if bs1.len() > 0 {
            assert(bs1[0] == bs[0]);
            if end == TapeEnd::Unknown {
                let kk = choose|kk: Color| #[trigger] side_pair(t1, bs1[0].color, kk);
                assert(side_pair(t, bs[0].color, kk));
            }
        } else {
            let beyond: Color = if n - k >= 1 { t[n - k - 1] } else { 0 };
            if n - k >= 1 {
                assert(t[n - k] == x);
            } else {
                assert(t[0] == x);
            }
            assert(side_pair(t, x, beyond));
            if end == TapeEnd::Blanks {
                lemma_zero_cells(t1);
                if n - k >= 1 {
                    assert(t1[n - k - 1] == t[n - k - 1]);
                }
            }
        }
    }
}

/// The colors and pairs of a side with blank cells added far out are the
/// side's.
proof fn lemma_padded_facts(p: nat, s: Seq<Color>)
    ensures
        forall|k: Color| side_col(blanks(p) + s, k) ==> side_col(s, k),
        forall|a: Color, b: Color| side_pair(blanks(p) + s, a, b) ==> side_pair(s, a, b),
{
    let t = blanks(p) + s;
    assert forall|k: Color| side_col(t, k) implies side_col(s, k) by {
        if t.contains(k) && k != 0 {
            let i = choose|i: int| 0 <= i < t.len() && t[i] == k;
            assert(i >= p);
            assert(s[i - p] == k);
        }
    }
    assert forall|a: Color, b: Color| side_pair(t, a, b) implies side_pair(s, a, b) by {
        if t.len() > 0 && t[0] == a && b == 0 {
            if p == 0 {
                assert(s[0] == a);
            }
        }
        if exists|i: int| 0 < i < t.len() && #[trigger] t[i] == a && t[i - 1] == b {
            let i = choose|i: int| 0 < i < t.len() && #[trigger] t[i] == a && t[i - 1] == b;
            if i > p {
                assert(s[i - p] == a && s[i - p - 1] == b);
            } else if i == p {
                assert(s[0] == a);
            }
        }
    }
}

/// What the runs of a span say of a side with blank cells added far out
/// they say of the side.
proof fn lemma_span_facts_unpad(bs: Seq<Block>, end: TapeEnd, p: nat, s: Seq<Color>)
    requires
        span_facts(bs, end, blanks(p) + s),
    ensures
        span_facts(bs, end, s),
{
    lemma_padded_facts(p, s);
    if end == TapeEnd::Unknown && bs.len() > 0 {
        let kk = choose|kk: Color| #[trigger] side_pair(blanks(p) + s, bs[0].color, kk);
        assert(side_pair(s, bs[0].color, kk));
    }
}

/// Summaries that hold every color and pair of a side admit a span whose
/// runs that side fits.
proof fn lemma_side_span_ok<const S: usize, const C: usize>(
    sp: SidePossible<S, C>,
    q: Quad,
    side: bool,
    bs: Seq<Block>,
    end: TapeEnd,
    s: Seq<Color>,
)
    requires
        span_facts(bs, end, s),
        forall|k: Color| side_col(s, k) ==> #[trigger] sp.holds(Fact::Col(q, side, k)),
        forall|a: Color, b: Color| side_pair(s, a, b) ==> #[trigger] sp.holds(Fact::Pair(q, side, a, b)),
    ensures
        sp.span_ok(q, side, bs, end),
{
    assert forall|i: int| 0 <= i < bs.len() implies #[trigger] sp.block_ok(q, side, bs, i) by {
        assert(side_col(s, bs[i].color));
        if i > 0 {
            assert(side_pair(s, bs[i].color, bs[i - 1].color));
        }
    }
    if end == TapeEnd::Unknown && bs.len() > 0 {
        let kk = choose|kk: Color| #[trigger] side_pair(s, bs[0].color, kk);
        assert(sp.holds(Fact::Pair(q, side, bs[0].color, kk)));
    }
}

impl<const S: usize, const C: usize> Prog<S, C> {
    /// A tape description that fits some configuration of the run from the
    /// blank tape passes the whole-side filter (`obeys_state_side`), given
    /// the summaries that `side_possible_from_blank` computes from the
    /// exact window tables and sound forbidden colors.
    pub proof fn lemma_state_side_filter_sound(
        &self,
        wp: WinPossible,
        fl: Seq<bool>,
        fr: Seq<bool>,
        sp: SidePossible<S, C>,
        state: State,
        tape: Tape,
        c: Conf,
    )
        requires
            self.inv(),
            S >= 1,
            1 <= C <= 64,
            prints_below(self.instr_list(), C as int),
            targets_below(self.instr_list(), S as int),
            forbid_sound(self.entries(), fl, true, C as int),
            forbid_sound(self.entries(), fr, false, C as int),
            self.win_exact(wp, fl, fr),
            forall|f: Fact| #[trigger] sp.holds(f) == self.side_reach(wp.side_parity@, f),
            tape.wf(),
            self.conf_reach(c),
            conf_matches(state, tape, c),
        ensures
            sp.state_side_ok(state, tape),
    {
        let v = wp.side_parity@;
        let q = conf_quad(c);
        self.lemma_run_side_summary(wp, fl, fr, c);
        let facts = |f: Fact| self.side_reach(v, f);
        assert(conf_facts(facts, c));
        let pl = choose|p: nat| #[trigger] side_match(tape.lspan.bs(), tape.lspan.end, blanks(p) + c.1);
        let pr = choose|p: nat| #[trigger] side_match(tape.rspan.bs(), tape.rspan.end, blanks(p) + c.3);
        lemma_match_neighbor(tape.lspan.bs(), tape.lspan.end, blanks(pl) + c.1);
        lemma_match_neighbor(tape.rspan.bs(), tape.rspan.end, blanks(pr) + c.3);
        lemma_padded(pl, c.1);
        lemma_padded(pr, c.3);
        lemma_span_facts(tape.lspan.bs(), tape.lspan.end, blanks(pl) + c.1);
        lemma_span_facts(tape.rspan.bs(), tape.rspan.end, blanks(pr) + c.3);
        lemma_span_facts_unpad(tape.lspan.bs(), tape.lspan.end, pl, c.1);
        lemma_span_facts_unpad(tape.rspan.bs(), tape.rspan.end, pr, c.3);
        assert forall|k: Color| side_col(c.1, k) implies #[trigger] sp.holds(Fact::Col(q, false, k)) by {
            assert(facts(Fact::Col(q, false, k)));
        }
        assert forall|k: Color| side_col(c.3, k) implies #[trigger] sp.holds(Fact::Col(q, true, k)) by {
            assert(facts(Fact::Col(q, true, k)));
        }
        assert forall|a: Color, b: Color| side_pair(c.1, a, b) implies #[trigger] sp.holds(Fact::Pair(q, false, a, b)) by {
            assert(facts(Fact::Pair(q, false, a, b)));
        }
        assert forall|a: Color, b: Color| side_pair(c.3, a, b) implies #[trigger] sp.holds(Fact::Pair(q, true, a, b)) by {
            assert(facts(Fact::Pair(q, true, a, b)));
        }
        lemma_side_span_ok(sp, q, false, tape.lspan.bs(), tape.lspan.end, c.1);
        lemma_side_span_ok(sp, q, true, tape.rspan.bs(), tape.rspan.end, c.3);
        assert(sp.holds(Fact::Reach(q)));
        assert(sp.admits(state, tape, nb(c.1), nb(c.3)));
    }
}

/// The cells beyond the neighbor on a side, near to far.
pub open spec fn beyond(s: Seq<Color>) -> Seq<Color> {
    Seq::new(rest(s).len(), |i: int| rest(s)[rest(s).len() - 1 - i])
}

/// Setting `x` next to the head puts the old neighbor before the cells
/// beyond it.
proof fn lemma_beyond_push(s: Seq<Color>, x: Color)
    ensures
        forall|i: int| #[trigger] tail_cell(beyond(s.push(x)), i) == tail_cell(seq![nb(s)] + beyond(s), i),
{
    let a = beyond(s.push(x));
    let b = seq![nb(s)] + beyond(s);
    assert(rest(s.push(x)) =~= s);
    assert forall|i: int| #[trigger] tail_cell(a, i) == tail_cell(b, i) by {
        if 0 <= i < a.len() {
            if i == 0 {
                assert(a[0] == s[s.len() - 1]);
            } else {
                assert(b[i] == beyond(s)[i - 1]);
                assert(rest(s)[s.len() - 1 - i] == s[s.len() - 1 - i]);
            }
        } else if 0 <= i && s.len() == 0 && i == 0 {
            assert(b[0] == 0);
        }
    }
}

/// Taking the neighbor in brings the nearest cell beyond it next to the
/// head, and leaves the cells after that beyond.
proof fn lemma_beyond_rest(s: Seq<Color>)
    ensures
        tail_cell(beyond(s), 0) == nb(rest(s)),
        forall|i: int| #[trigger] tail_cell(beyond(rest(s)), i) == tail_cell(tail_rest(beyond(s)), i),
{
    let r = rest(s);
    if r.len() > 0 {
        assert(beyond(s)[0] == r[r.len() - 1]);
        assert(tail_rest(beyond(s)) =~= beyond(rest(s))) by {
            assert forall|i: int| 0 <= i < beyond(rest(s)).len() implies tail_rest(beyond(s))[i] == beyond(rest(s))[i] by {
                assert(rest(r)[r.len() - 2 - i] == r[r.len() - 2 - i]);
            }
        }
    } else {
        assert(tail_rest(beyond(s)) =~= beyond(rest(s)));
    }
}

/// The cells beyond the neighbor are cells of the side.
proof fn lemma_beyond_colors(es: Seq<(crate::instrs::Slot, crate::instrs::Instr)>, s: Seq<Color>, shift: bool, colors: int)
    requires
        side_written(es, s, shift, colors),
    ensures
        forall|i: int| 0 <= i < beyond(s).len() ==> (#[trigger] beyond(s)[i] as int) < colors,
{
    assert forall|i: int| 0 <= i < beyond(s).len() implies (#[trigger] beyond(s)[i] as int) < colors by {
        let r = rest(s);
        assert(r[r.len() - 1 - i] == s[r.len() - 1 - i]);
    }
}

/// Whether the cells beyond each neighbor of a configuration are as some
/// prefix (in form) that holds on runs for that side of its window says.
pub open spec fn prefixes_hold<const S: usize, const C: usize>(
    p: Prog<S, C>,
    v: Seq<bool>,
    sp: SidePossible<S, C>,
    c: Conf,
) -> bool {
    &&& exists|q: SidePrefix| prefix_nf(q, C as int) && #[trigger] p.pfx_reach(v, sp, (false, conf_quad(c), q)) && holds(q, beyond(c.1))
    &&& exists|q: SidePrefix| prefix_nf(q, C as int) && #[trigger] p.pfx_reach(v, sp, (true, conf_quad(c), q)) && holds(q, beyond(c.3))
}

impl<const S: usize, const C: usize> Prog<S, C> {
    /// On the run from the blank tape, the cells beyond each neighbor of
    /// the head are as some prefix says that holds on runs
    /// (`pfx_reach`, which `side_prefix_possible_from_blank` computes
    /// exactly) for that side of the configuration's window, given
    /// whole-side summaries that hold every fact that holds on runs.
    pub proof fn lemma_run_side_prefixes(&self, wp: WinPossible, fl: Seq<bool>, fr: Seq<bool>, sp: SidePossible<S, C>, c: Conf)
        requires
            self.inv(),
            S >= 1,
            1 <= C <= 64,
            prints_below(self.instr_list(), C as int),
            targets_below(self.instr_list(), S as int),
            forbid_sound(self.entries(), fl, true, C as int),
            forbid_sound(self.entries(), fr, false, C as int),
            self.win_exact(wp, fl, fr),
            forall|f: Fact| #[trigger] self.side_reach(wp.side_parity@, f) ==> sp.holds(f),
            self.conf_reach(c),
        ensures
            prefixes_hold(*self, wp.side_parity@, sp, c),
    {
        let v = wp.side_parity@;
        let es = self.entries();
        let ok = |x: Conf| self.conf_reach(x) && prefixes_hold(*self, v, sp, x);
        assert(ok(blank_conf())) by {
            self.lemma_conf_window_ok(wp, fl, fr, blank_conf());
            assert(conf_quad(blank_conf()) == side_init());
            self.lemma_pfx_reach_init(v, sp, false);
            self.lemma_pfx_reach_init(v, sp, true);
            let b = SidePrefix::spec_blank();
            assert(holds_with(b, beyond(blank_conf().1), 0, 0));
            assert(holds_with(b, beyond(blank_conf().3), 0, 0));
            assert(prefix_nf(b, C as int));
            assert(self.pfx_reach(v, sp, (false, conf_quad(blank_conf()), b)));
            assert(self.pfx_reach(v, sp, (true, conf_quad(blank_conf()), b)));
        }
        assert(self.conf_closed(ok)) by {
            assert forall|x: Conf, d: Conf| #![trigger ok(x), self.conf_step(x, d)] ok(x) && self.conf_step(x, d) implies ok(d) by {
                self.lemma_prefix_step(wp, fl, fr, sp, x, d);
            }
        }
        assert(ok(c));
    }

    proof fn lemma_prefix_step(&self, wp: WinPossible, fl: Seq<bool>, fr: Seq<bool>, sp: SidePossible<S, C>, x: Conf, d: Conf)
        requires
            self.inv(),
            S >= 1,
            1 <= C <= 64,
            prints_below(self.instr_list(), C as int),
            targets_below(self.instr_list(), S as int),
            forbid_sound(self.entries(), fl, true, C as int),
            forbid_sound(self.entries(), fr, false, C as int),
            self.win_exact(wp, fl, fr),
            forall|f: Fact| #[trigger] self.side_reach(wp.side_parity@, f) ==> sp.holds(f),
            self.conf_reach(x),
            prefixes_hold(*self, wp.side_parity@, sp, x),
            self.conf_step(x, d),
        ensures
            self.conf_reach(d),
            prefixes_hold(*self, wp.side_parity@, sp, d),
    {
        let v = wp.side_parity@;
        let es = self.entries();
        self.lemma_reach_step(x, d);
        self.lemma_run_sides(x);
        self.lemma_run_sides(d);
        self.lemma_conf_window_ok(wp, fl, fr, d);
        self.lemma_run_side_summary(wp, fl, fr, x);
        let i = self.instr_at(x.0 as int, x.2 as int)->0;
        let (pr, sh, ns) = i;
        let w = conf_quad(x);
        let t = conf_quad(d);
        lemma_side_rest(es, x.1, true, C as int);
        lemma_side_rest(es, x.3, false, C as int);
        lemma_side_rest(es, rest(x.1), true, C as int);
        lemma_side_rest(es, rest(x.3), false, C as int);
        lemma_side_rest(es, d.1, true, C as int);
        lemma_side_rest(es, d.3, false, C as int);
        lemma_beyond_colors(es, x.1, true, C as int);
        lemma_beyond_colors(es, x.3, false, C as int);
        let pl = choose|q: SidePrefix| prefix_nf(q, C as int) && #[trigger] self.pfx_reach(v, sp, (false, w, q)) && holds(q, beyond(x.1));
        let pr_ = choose|q: SidePrefix| prefix_nf(q, C as int) && #[trigger] self.pfx_reach(v, sp, (true, w, q)) && holds(q, beyond(x.3));
        if sh {
            let nc = nb(rest(x.3));
            assert(t == pfx_target(w, i, nc));
            lemma_near_pair(x.3);
            assert(side_pair(x.3, nb(x.3), nc));
            let set = |f: Fact| self.side_reach(v, f);
            assert(conf_facts(set, x));
            assert(set(Fact::Pair(w, true, nb(x.3), nc)));
            // the left side: the old neighbor is set before its cells
            lemma_prepend_sound(pl, nb(x.1), beyond(x.1));
            lemma_prepends_nf(pl, nb(x.1), C as int);
            let ps = prepends(pl, nb(x.1));
            let k = choose|k: int| 0 <= k < ps.len() && holds(#[trigger] ps[k], seq![nb(x.1)] + beyond(x.1));
            let ql = ps[k];
            lemma_beyond_push(x.1, pr);
            lemma_holds_cells(ql, beyond(d.1), seq![nb(x.1)] + beyond(x.1));
            assert(ps.contains(ql));
            assert(self.pfx_next(v, sp, (false, w, pl), (false, t, ql)));
            self.lemma_pfx_reach_step(v, sp, (false, w, pl), (false, t, ql));
            assert(prefix_nf(ql, C as int));
            // the right side: its nearest cell comes in
            lemma_pull_sound(pr_, beyond(x.3), C as nat);
            lemma_pulls_nf(pr_, C as nat);
            let us = pulls(pr_, C as nat);
            let j = choose|j: int| 0 <= j < us.len() && (#[trigger] us[j]).0 == tail_cell(beyond(x.3), 0) && holds(us[j].1, tail_rest(beyond(x.3)));
            let qr = us[j].1;
            lemma_beyond_rest(x.3);
            lemma_holds_cells(qr, beyond(d.3), tail_rest(beyond(x.3)));
            assert(us.contains((nc, qr))) by {
                assert(us[j] == (nc, qr));
            }
            assert(self.pfx_next(v, sp, (true, w, pr_), (true, t, qr)));
            self.lemma_pfx_reach_step(v, sp, (true, w, pr_), (true, t, qr));
            assert(prefix_nf(qr, C as int)) by {
                assert(prefix_nf(us[j].1, C as int));
            }
        } else {
            let nc = nb(rest(x.1));
            assert(t == pfx_target(w, i, nc));
            lemma_near_pair(x.1);
            assert(side_pair(x.1, nb(x.1), nc));
            let set = |f: Fact| self.side_reach(v, f);
            assert(conf_facts(set, x));
            assert(set(Fact::Pair(w, false, nb(x.1), nc)));
            // the right side: the old neighbor is set before its cells
            lemma_prepend_sound(pr_, nb(x.3), beyond(x.3));
            lemma_prepends_nf(pr_, nb(x.3), C as int);
            let ps = prepends(pr_, nb(x.3));
            let k = choose|k: int| 0 <= k < ps.len() && holds(#[trigger] ps[k], seq![nb(x.3)] + beyond(x.3));
            let qr = ps[k];
            lemma_beyond_push(x.3, pr);
            lemma_holds_cells(qr, beyond(d.3), seq![nb(x.3)] + beyond(x.3));
            assert(ps.contains(qr));
            assert(self.pfx_next(v, sp, (true, w, pr_), (true, t, qr)));
            self.lemma_pfx_reach_step(v, sp, (true, w, pr_), (true, t, qr));
            assert(prefix_nf(qr, C as int));
            // the left side: its nearest cell comes in
            lemma_pull_sound(pl, beyond(x.1), C as nat);
            lemma_pulls_nf(pl, C as nat);
            let us = pulls(pl, C as nat);
            let j = choose|j: int| 0 <= j < us.len() && (#[trigger] us[j]).0 == tail_cell(beyond(x.1), 0) && holds(us[j].1, tail_rest(beyond(x.1)));
            let ql = us[j].1;
            lemma_beyond_rest(x.1);
            lemma_holds_cells(ql, beyond(d.1), tail_rest(beyond(x.1)));
            assert(us.contains((nc, ql))) by {
                assert(us[j] == (nc, ql));
            }
            assert(self.pfx_next(v, sp, (false, w, pl), (false, t, ql)));
            self.lemma_pfx_reach_step(v, sp, (false, w, pl), (false, t, ql));
            assert(prefix_nf(ql, C as int)) by {
                assert(prefix_nf(us[j].1, C as int));
            }
        }
    }
}

/// The number of cells of color `k` on a side.
pub open spec fn occ(s: Seq<Color>, k: Color) -> nat
    decreases s.len(),
{
    if s.len() == 0 {
        0
    } else {
        occ(s.drop_last(), k) + if s.last() == k { 1nat } else { 0nat }
    }
}

/// A count capped at two.
pub open spec fn capped(n: nat) -> int {
    if n < 2 { n as int } else { 2 }
}

/// The count status of color `k` in a configuration: its capped count
/// beyond the left neighbor plus three times that beyond the right one.
pub open spec fn conf_count_status(c: Conf, k: Color) -> u8 {
    (capped(occ(rest(c.1), k)) + 3 * capped(occ(rest(c.3), k))) as u8
}

/// The presence status of the colors `a`, `b` in a configuration: bit 0
/// for `a` beyond the left neighbor, bit 1 for `a` beyond the right one,
/// bits 2 and 3 the same for `b`.
pub open spec fn conf_pair_status(c: Conf, a: Color, b: Color) -> u8 {
    ((if occ(rest(c.1), a) > 0 { 1int } else { 0 }) + (if occ(rest(c.3), a) > 0 { 2int } else { 0 }) + (if occ(rest(c.1), b) > 0 {
        4int
    } else {
        0
    }) + (if occ(rest(c.3), b) > 0 { 8int } else { 0 })) as u8
}

proof fn lemma_status_bits(b0: bool, b1: bool, b2: bool, b3: bool)
    ensures
        ({
            let s = ((if b0 { 1int } else { 0 }) + (if b1 { 2int } else { 0 }) + (if b2 { 4int } else { 0 }) + (if b3 { 8int } else { 0 })) as u8;
            &&& s < 16
            &&& sbit(s, 0) == b0
            &&& sbit(s, 1) == b1
            &&& sbit(s, 2) == b2
            &&& sbit(s, 3) == b3
        }),
{
}

/// Taking the nearest cell off a side leaves one fewer of its color.
proof fn lemma_occ_rest(s: Seq<Color>, k: Color)
    requires
        k != 0,
    ensures
        occ(s, k) == occ(rest(s), k) + if nb(s) == k { 1nat } else { 0nat },
{
}

impl<const S: usize, const C: usize> Prog<S, C> {
    /// What holds on runs is closed under steps (counts).
    proof fn lemma_count_reach_step(&self, v: Seq<bool>, f: CFact, g: CFact)
        requires
            self.count_reach(v, f),
            self.count_next(v, f, g),
        ensures
            self.count_reach(v, g),
    {
        assert forall|set: spec_fn(CFact) -> bool| #[trigger] self.count_closed(v, set) implies set(g) by {
            assert(set(f));
        }
    }

    /// What holds on runs is closed under steps (pairs).
    proof fn lemma_pair_reach_step(&self, v: Seq<bool>, f: PrFact, g: PrFact)
        requires
            self.pair_reach(v, f),
            self.pair_next(v, f, g),
        ensures
            self.pair_reach(v, g),
    {
        assert forall|set: spec_fn(PrFact) -> bool| #[trigger] self.pair_closed(v, set) implies set(g) by {
            assert(set(f));
        }
    }

    proof fn lemma_count_step(&self, wp: WinPossible, fl: Seq<bool>, fr: Seq<bool>, x: Conf, d: Conf, k: Color)
        requires
            self.inv(),
            S >= 1,
            1 <= C <= 64,
            prints_below(self.instr_list(), C as int),
            targets_below(self.instr_list(), S as int),
            forbid_sound(self.entries(), fl, true, C as int),
            forbid_sound(self.entries(), fr, false, C as int),
            self.win_exact(wp, fl, fr),
            self.conf_reach(x),
            self.conf_step(x, d),
            1 <= k < C,
            self.count_reach(wp.side_parity@, (conf_quad(x), k, conf_count_status(x, k))),
        ensures
            self.count_reach(wp.side_parity@, (conf_quad(d), k, conf_count_status(d, k))),
    {
        let v = wp.side_parity@;
        self.lemma_reach_step(x, d);
        self.lemma_run_sides(d);
        self.lemma_conf_window_ok(wp, fl, fr, d);
        let es = self.entries();
        lemma_side_rest(es, d.1, true, C as int);
        lemma_side_rest(es, d.3, false, C as int);
        let i = self.instr_at(x.0 as int, x.2 as int)->0;
        let w = conf_quad(x);
        let t = conf_quad(d);
        let f = (w, k, conf_count_status(x, k));
        let g = (t, k, conf_count_status(d, k));
        lemma_occ_rest(x.1, k);
        lemma_occ_rest(x.3, k);
        lemma_occ_rest(rest(x.1), k);
        lemma_occ_rest(rest(x.3), k);
        if i.1 {
            assert(t == pfx_target(w, i, nb(rest(x.3))));
            assert(rest(d.1) =~= x.1);
        } else {
            assert(t == pfx_target(w, i, nb(rest(x.1))));
            assert(rest(d.3) =~= x.3);
        }
        assert(self.count_next(v, f, g));
        self.lemma_count_reach_step(v, f, g);
    }

    /// On the run from the blank tape, for every nonblank color, the
    /// capped counts of it beyond the two neighbors of the head are ones
    /// that hold on runs (`count_reach`, which
    /// `color_tail_count_from_blank` computes exactly) for the
    /// configuration's window.
    pub proof fn lemma_run_tail_counts(&self, wp: WinPossible, fl: Seq<bool>, fr: Seq<bool>, c: Conf)
        requires
            self.inv(),
            S >= 1,
            1 <= C <= 64,
            prints_below(self.instr_list(), C as int),
            targets_below(self.instr_list(), S as int),
            forbid_sound(self.entries(), fl, true, C as int),
            forbid_sound(self.entries(), fr, false, C as int),
            self.win_exact(wp, fl, fr),
            self.conf_reach(c),
        ensures
            forall|k: Color| 1 <= k < C ==> #[trigger] self.count_reach(wp.side_parity@, (conf_quad(c), k, conf_count_status(c, k))),
    {
        let v = wp.side_parity@;
        let ok = |x: Conf| self.conf_reach(x) && forall|k: Color| 1 <= k < C ==> #[trigger] self.count_reach(v, (conf_quad(x), k, conf_count_status(x, k)));
        assert(ok(blank_conf())) by {
            self.lemma_conf_window_ok(wp, fl, fr, blank_conf());
            assert(conf_quad(blank_conf()) == side_init());
            assert forall|k: Color| 1 <= k < C implies #[trigger] self.count_reach(v, (conf_quad(blank_conf()), k, conf_count_status(blank_conf(), k))) by {
                assert(conf_count_status(blank_conf(), k) == 0);
                assert forall|set: spec_fn(CFact) -> bool| #[trigger] self.count_closed(v, set) implies set((side_init(), k, 0u8)) by {}
            }
        }
        assert(self.conf_closed(ok)) by {
            assert forall|x: Conf, d: Conf| #![trigger ok(x), self.conf_step(x, d)] ok(x) && self.conf_step(x, d) implies ok(d) by {
                self.lemma_reach_step(x, d);
                assert forall|k: Color| 1 <= k < C implies #[trigger] self.count_reach(v, (conf_quad(d), k, conf_count_status(d, k))) by {
                    assert(self.count_reach(v, (conf_quad(x), k, conf_count_status(x, k))));
                    self.lemma_count_step(wp, fl, fr, x, d, k);
                }
            }
        }
        assert(ok(c));
    }

    proof fn lemma_pair_step(&self, wp: WinPossible, fl: Seq<bool>, fr: Seq<bool>, x: Conf, d: Conf, a: Color, b: Color)
        requires
            self.inv(),
            S >= 1,
            1 <= C <= 64,
            prints_below(self.instr_list(), C as int),
            targets_below(self.instr_list(), S as int),
            forbid_sound(self.entries(), fl, true, C as int),
            forbid_sound(self.entries(), fr, false, C as int),
            self.win_exact(wp, fl, fr),
            self.conf_reach(x),
            self.conf_step(x, d),
            1 <= a < b < C,
            self.pair_reach(wp.side_parity@, (conf_quad(x), a, b, conf_pair_status(x, a, b))),
        ensures
            self.pair_reach(wp.side_parity@, (conf_quad(d), a, b, conf_pair_status(d, a, b))),
    {
        let v = wp.side_parity@;
        self.lemma_reach_step(x, d);
        self.lemma_run_sides(d);
        self.lemma_conf_window_ok(wp, fl, fr, d);
        let es = self.entries();
        lemma_side_rest(es, d.1, true, C as int);
        lemma_side_rest(es, d.3, false, C as int);
        let i = self.instr_at(x.0 as int, x.2 as int)->0;
        let w = conf_quad(x);
        let t = conf_quad(d);
        let f = (w, a, b, conf_pair_status(x, a, b));
        let g = (t, a, b, conf_pair_status(d, a, b));
        lemma_occ_rest(x.1, a);
        lemma_occ_rest(x.3, a);
        lemma_occ_rest(rest(x.1), a);
        lemma_occ_rest(rest(x.3), a);
        lemma_occ_rest(x.1, b);
        lemma_occ_rest(x.3, b);
        lemma_occ_rest(rest(x.1), b);
        lemma_occ_rest(rest(x.3), b);
        lemma_status_bits(occ(rest(x.1), a) > 0, occ(rest(x.3), a) > 0, occ(rest(x.1), b) > 0, occ(rest(x.3), b) > 0);
        lemma_status_bits(occ(rest(d.1), a) > 0, occ(rest(d.3), a) > 0, occ(rest(d.1), b) > 0, occ(rest(d.3), b) > 0);
        if i.1 {
            assert(t == pfx_target(w, i, nb(rest(x.3))));
            assert(rest(d.1) =~= x.1);
        } else {
            assert(t == pfx_target(w, i, nb(rest(x.1))));
            assert(rest(d.3) =~= x.3);
        }
        assert(self.pair_next(v, f, g));
        self.lemma_pair_reach_step(v, f, g);
    }

    /// On the run from the blank tape, for every pair of nonblank colors,
    /// which of the two occur beyond which neighbor of the head is a status
    /// that holds on runs (`pair_reach`, which
    /// `pair_tail_presence_from_blank` computes exactly) for the
    /// configuration's window.
    pub proof fn lemma_run_tail_pairs(&self, wp: WinPossible, fl: Seq<bool>, fr: Seq<bool>, c: Conf)
        requires
            self.inv(),
            S >= 1,
            1 <= C <= 64,
            prints_below(self.instr_list(), C as int),
            targets_below(self.instr_list(), S as int),
            forbid_sound(self.entries(), fl, true, C as int),
            forbid_sound(self.entries(), fr, false, C as int),
            self.win_exact(wp, fl, fr),
            self.conf_reach(c),
        ensures
            forall|a: Color, b: Color| 1 <= a < b < C ==> #[trigger] self.pair_reach(wp.side_parity@, (conf_quad(c), a, b, conf_pair_status(c, a, b))),
    {
        let v = wp.side_parity@;
        let ok = |x: Conf| self.conf_reach(x) && forall|a: Color, b: Color| 1 <= a < b < C ==> #[trigger] self.pair_reach(v, (conf_quad(x), a, b, conf_pair_status(x, a, b)));
        assert(ok(blank_conf())) by {
            self.lemma_conf_window_ok(wp, fl, fr, blank_conf());
            assert(conf_quad(blank_conf()) == side_init());
            assert forall|a: Color, b: Color| 1 <= a < b < C implies #[trigger] self.pair_reach(v, (conf_quad(blank_conf()), a, b, conf_pair_status(blank_conf(), a, b))) by {
                assert(conf_pair_status(blank_conf(), a, b) == 0);
                assert forall|set: spec_fn(PrFact) -> bool| #[trigger] self.pair_closed(v, set) implies set((side_init(), a, b, 0u8)) by {}
            }
        }
        assert(self.conf_closed(ok)) by {
            assert forall|x: Conf, d: Conf| #![trigger ok(x), self.conf_step(x, d)] ok(x) && self.conf_step(x, d) implies ok(d) by {
                self.lemma_reach_step(x, d);
                assert forall|a: Color, b: Color| 1 <= a < b < C implies #[trigger] self.pair_reach(v, (conf_quad(d), a, b, conf_pair_status(d, a, b))) by {
                    assert(self.pair_reach(v, (conf_quad(x), a, b, conf_pair_status(x, a, b))));
                    self.lemma_pair_step(wp, fl, fr, x, d, a, b);
                }
            }
        }
        assert(ok(c));
    }
}

/// A configuration's window with whether each whole side is blank.
pub open spec fn conf_joint(c: Conf) -> JFact {
    (c.0, nb(c.1), c.2, nb(c.3), nonblank(c.1) == 0, nonblank(c.3) == 0)
}

proof fn lemma_blank_near(s: Seq<Color>)
    ensures
        nonblank(s) == 0 ==> nb(s) == 0 && nonblank(rest(s)) == 0,
        nonblank(s) > 0 && nb(s) == 0 ==> nonblank(rest(s)) > 0,
        nonblank(rest(s)) == 0 ==> nb(rest(s)) == 0,
{
    lemma_nonblank_rest(s);
    lemma_nonblank_rest(rest(s));
}

proof fn lemma_nonblank_push(s: Seq<Color>, x: Color)
    ensures
        nonblank(s.push(x)) == nonblank(s) + nz(x),
        nb(s.push(x)) == x,
{
    assert(s.push(x).drop_last() =~= s);
}

impl<const S: usize, const C: usize> Prog<S, C> {
    proof fn lemma_joint_step(&self, wp: WinPossible, fl: Seq<bool>, fr: Seq<bool>, x: Conf, d: Conf)
        requires
            self.inv(),
            S >= 1,
            1 <= C <= 64,
            prints_below(self.instr_list(), C as int),
            targets_below(self.instr_list(), S as int),
            forbid_sound(self.entries(), fl, true, C as int),
            forbid_sound(self.entries(), fr, false, C as int),
            self.win_exact(wp, fl, fr),
            self.conf_reach(x),
            self.conf_step(x, d),
            self.joint_reach(wp.side_parity@, conf_joint(x)),
        ensures
            self.joint_reach(wp.side_parity@, conf_joint(d)),
    {
        let v = wp.side_parity@;
        self.lemma_reach_step(x, d);
        self.lemma_run_sides(x);
        self.lemma_run_sides(d);
        self.lemma_conf_window_ok(wp, fl, fr, d);
        let es = self.entries();
        lemma_side_rest(es, x.1, true, C as int);
        lemma_side_rest(es, x.3, false, C as int);
        lemma_side_rest(es, d.1, true, C as int);
        lemma_side_rest(es, d.3, false, C as int);
        lemma_blank_near(x.1);
        lemma_blank_near(x.3);
        lemma_blank_near(d.1);
        lemma_blank_near(d.3);
        let i = self.instr_at(x.0 as int, x.2 as int)->0;
        let f = conf_joint(x);
        let g = conf_joint(d);
        if i.1 {
            lemma_nonblank_push(x.1, i.0);
            assert(g == jtarget(f, i, nb(rest(x.3)), nonblank(rest(x.3)) == 0));
        } else {
            lemma_nonblank_push(x.3, i.0);
            assert(g == jtarget(f, i, nb(rest(x.1)), nonblank(rest(x.1)) == 0));
        }
        assert(self.joint_next(v, f, g));
        assert forall|set: spec_fn(JFact) -> bool| #[trigger] self.joint_closed(v, set) implies set(g) by {
            assert(set(f));
        }
    }

    /// On the run from the blank tape, the window of the head together
    /// with whether each whole side of the tape is blank is a fact that
    /// holds on runs (`joint_reach`, which `joint_blank_status_from_blank`
    /// computes exactly).
    pub proof fn lemma_run_joint_blank(&self, wp: WinPossible, fl: Seq<bool>, fr: Seq<bool>, c: Conf)
        requires
            self.inv(),
            S >= 1,
            1 <= C <= 64,
            prints_below(self.instr_list(), C as int),
            targets_below(self.instr_list(), S as int),
            forbid_sound(self.entries(), fl, true, C as int),
            forbid_sound(self.entries(), fr, false, C as int),
            self.win_exact(wp, fl, fr),
            self.conf_reach(c),
        ensures
            self.joint_reach(wp.side_parity@, conf_joint(c)),
    {
        let v = wp.side_parity@;
        let ok = |x: Conf| self.conf_reach(x) && self.joint_reach(v, conf_joint(x));
        assert(ok(blank_conf())) by {
            self.lemma_conf_window_ok(wp, fl, fr, blank_conf());
            assert(conf_joint(blank_conf()) == joint_init());
            assert(self.jadmit(v, joint_init()));
            assert forall|set: spec_fn(JFact) -> bool| #[trigger] self.joint_closed(v, set) implies set(joint_init()) by {}
        }
        assert(self.conf_closed(ok)) by {
            assert forall|x: Conf, d: Conf| #![trigger ok(x), self.conf_step(x, d)] ok(x) && self.conf_step(x, d) implies ok(d) by {
                self.lemma_reach_step(x, d);
                self.lemma_joint_step(wp, fl, fr, x, d);
            }
        }
        assert(ok(c));
    }
}

proof fn lemma_nonblank_split(s: Seq<Color>, m: int)
    requires
        0 <= m <= s.len(),
    ensures
        nonblank(s) == nonblank(s.subrange(0, m)) + nonblank(s.subrange(m, s.len() as int)),
    decreases s.len(),
{
    if s.len() == m {
        assert(s.subrange(0, m) =~= s);
        assert(s.subrange(m, s.len() as int) =~= Seq::<Color>::empty());
    } else {
        lemma_nonblank_split(s.drop_last(), m);
        assert(s.drop_last().subrange(0, m) =~= s.subrange(0, m));
        assert(s.subrange(m, s.len() as int).drop_last() =~= s.drop_last().subrange(m, s.len() - 1));
        assert(s.subrange(m, s.len() as int).last() == s.last());
    }
}

proof fn lemma_run_cells(s: Seq<Color>, a: int, color: Color)
    requires
        0 <= a <= s.len(),
        run_of(s, a, s.len() as int, color),
    ensures
        color == 0 ==> nonblank(s.subrange(a, s.len() as int)) == 0,
        color != 0 && a < s.len() ==> nonblank(s.subrange(a, s.len() as int)) > 0,
    decreases s.len() - a,
{
    let t = s.subrange(a, s.len() as int);
    if a < s.len() {
        assert(t.last() == s[s.len() - 1]);
        lemma_run_cells(s.drop_last(), a, color);
        assert(t.drop_last() =~= s.drop_last().subrange(a, s.len() - 1));
    } else {
        assert(t =~= Seq::<Color>::empty());
    }
}

/// What a span says of its whole side holds of every side that fits it.
proof fn lemma_status_sound(bs: Seq<Block>, end: TapeEnd, s: Seq<Color>)
    requires
        blocks_valid(bs),
        side_match(bs, end, s),
    ensures
        required_status(bs, end) == RequiredStatus::Blank ==> nonblank(s) == 0,
        required_status(bs, end) == RequiredStatus::Dirty ==> nonblank(s) > 0,
    decreases bs.len(),
{
    if bs.len() > 0 {
        let k = choose|k: int| #![trigger count_ok(bs.last().count, k)]
            count_ok(bs.last().count, k) && 0 <= k <= s.len() && run_of(s, s.len() - k, s.len() as int, bs.last().color)
            && side_match(bs.drop_last(), end, s.subrange(0, s.len() - k));
        let m = s.len() - k;
        assert(bs[bs.len() - 1] == bs.last());
        assert(bs.last().count.min_spec() > 0);
        assert(k >= 1);
        assert(blocks_valid(bs.drop_last())) by {
            assert forall|i: int| 0 <= i < bs.drop_last().len() implies (#[trigger] bs.drop_last()[i]).count.min_spec() > 0 by {
                assert(bs.drop_last()[i] == bs[i]);
            }
        }
        lemma_nonblank_split(s, m);
        lemma_status_sound(bs.drop_last(), end, s.subrange(0, m));
        lemma_run_cells(s, m, bs.last().color);
        if required_status(bs, end) == RequiredStatus::Blank {
            assert(bs.last().color == 0);
            assert(required_status(bs.drop_last(), end) == RequiredStatus::Blank) by {
                assert forall|i: int| 0 <= i < bs.drop_last().len() implies (#[trigger] bs.drop_last()[i]).color == 0 by {
                    assert(bs.drop_last()[i] == bs[i]);
                }
            }
        }
        if required_status(bs, end) == RequiredStatus::Dirty && bs.last().color == 0 {
            let i = choose|i: int| 0 <= i < bs.len() && (#[trigger] bs[i]).color != 0;
            assert(i < bs.len() - 1);
            assert(bs.drop_last()[i] == bs[i]);
            assert(required_status(bs.drop_last(), end) == RequiredStatus::Dirty);
        }
    }
}

impl<const S: usize, const C: usize> Prog<S, C> {
    /// A tape description that fits some configuration of the run from the
    /// blank tape passes the joint whole-side check (`joint_allows`), given
    /// the table that `joint_blank_status_from_blank` computes from the
    /// exact window tables and sound forbidden colors.
    pub proof fn lemma_joint_filter_sound(
        &self,
        wp: WinPossible,
        fl: Seq<bool>,
        fr: Seq<bool>,
        j: JointBlankPossible<S, C>,
        state: State,
        tape: Tape,
        c: Conf,
    )
        requires
            self.inv(),
            S >= 1,
            1 <= C <= 64,
            prints_below(self.instr_list(), C as int),
            targets_below(self.instr_list(), S as int),
            forbid_sound(self.entries(), fl, true, C as int),
            forbid_sound(self.entries(), fr, false, C as int),
            self.win_exact(wp, fl, fr),
            forall|f: JFact| #[trigger] j.holds(f) == self.joint_reach(wp.side_parity@, f),
            tape.wf(),
            self.conf_reach(c),
            conf_matches(state, tape, c),
        ensures
            joint_allows(tape, state, j),
    {
        self.lemma_run_joint_blank(wp, fl, fr, c);
        let pl = choose|p: nat| #[trigger] side_match(tape.lspan.bs(), tape.lspan.end, blanks(p) + c.1);
        let pr = choose|p: nat| #[trigger] side_match(tape.rspan.bs(), tape.rspan.end, blanks(p) + c.3);
        lemma_match_neighbor(tape.lspan.bs(), tape.lspan.end, blanks(pl) + c.1);
        lemma_match_neighbor(tape.rspan.bs(), tape.rspan.end, blanks(pr) + c.3);
        lemma_padded(pl, c.1);
        lemma_padded(pr, c.3);
        lemma_status_sound(tape.lspan.bs(), tape.lspan.end, blanks(pl) + c.1);
        lemma_status_sound(tape.rspan.bs(), tape.rspan.end, blanks(pr) + c.3);
        let f = conf_joint(c);
        assert(j.holds(f));
        assert(j.seen(state, tape.scan, f.4, f.5));
    }
}

} // verus!
