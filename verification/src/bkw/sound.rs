//! What the side filters of the backward search keep of a configuration
//! of the run from the blank tape: a tape description that fits one
//! passes them, and the tightened description still fits it.
use vstd::prelude::*;

use crate::bkw::tape::{
    Block, BlockCount, Tape, TapeEnd, all_blank, any_blank, any_nonblank, blocks_valid, canonical, fresh_zero_side, has_indef_nonblank,
    nonblank_beyond_blank, nonblank_mod3_of, nonblank_parity_of, pull_spec, push_single_spec, side_allowed, side_exact, span_wf, strip_far_blanks,
};
use crate::bkw::tails::tail_sum;
use crate::bkw::windows::nz;
use crate::bkw::{
    Filters, NonblankParity, TapeV, backstep_v, blank_v, step_fits, fresh_zero_v, set_one_v, has_even, has_odd, nonblank_parity_v, parity_closed, prints_below, side_filter_v,
    targets_below, tape_v, tighten_v, writes_with,
};
use crate::instrs::{Color, State};
use crate::prog::Prog;
use crate::run::{
    Conf, blanks, conf_matches, nb, occ, rest, conf_nonblank, count_ok, forbid_sound, lemma_nonblank_blanks, lemma_padded, nonblank, run_of,
    side_match,
};

verus! {

/// The nonblank cells of a side split at any cell.
pub proof fn lemma_nonblank_split(s: Seq<Color>, m: int)
    requires
        0 <= m <= s.len(),
    ensures
        nonblank(s) == nonblank(s.subrange(0, m)) + nonblank(s.subrange(m, s.len() as int)),
    decreases s.len() - m,
{
    if m == s.len() {
        assert(s.subrange(0, m) =~= s);
        assert(s.subrange(m, s.len() as int) =~= Seq::<Color>::empty());
    } else {
        lemma_nonblank_split(s, m + 1);
        let a = s.subrange(0, m + 1);
        assert(a.drop_last() =~= s.subrange(0, m));
        let b = s.subrange(m, s.len() as int);
        let b1 = s.subrange(m + 1, s.len() as int);
        lemma_nonblank_first(b);
        assert(b.subrange(1, b.len() as int) =~= b1);
    }
}

/// The nonblank cells of a side: its farthest cell, then the rest.
pub proof fn lemma_nonblank_first(s: Seq<Color>)
    requires
        s.len() > 0,
    ensures
        nonblank(s) == nz(s[0]) as nat + nonblank(s.subrange(1, s.len() as int)),
    decreases s.len(),
{
    if s.len() == 1 {
        assert(s.drop_last() =~= Seq::<Color>::empty());
        assert(s.subrange(1, 1) =~= Seq::<Color>::empty());
    } else {
        lemma_nonblank_first(s.drop_last());
        assert(s.drop_last().subrange(1, s.len() - 1) =~= s.subrange(1, s.len() as int).drop_last());
        assert(s.drop_last()[0] == s[0]);
        assert(s.subrange(1, s.len() as int).last() == s.last());
    }
}

/// A run of `k` cells of one color has `k` nonblank cells, or none.
pub proof fn lemma_nonblank_run(s: Seq<Color>, color: Color)
    requires
        run_of(s, 0, s.len() as int, color),
    ensures
        nonblank(s) == if color != 0 { s.len() } else { 0 },
    decreases s.len(),
{
    if s.len() > 0 {
        assert(run_of(s.drop_last(), 0, s.len() - 1, color)) by {
            assert forall|i: int| 0 <= i < s.len() - 1 implies #[trigger] s.drop_last()[i] == color by {
                assert(s[i] == color);
            }
        }
        lemma_nonblank_run(s.drop_last(), color);
        assert(s[s.len() - 1] == color);
    }
}

/// Every run of a span that a side fits has a cell of the side with its
/// color.
pub proof fn lemma_match_colors(bs: Seq<Block>, end: TapeEnd, s: Seq<Color>)
    requires
        side_match(bs, end, s),
        blocks_valid(bs),
    ensures
        forall|i: int| 0 <= i < bs.len() ==> s.contains(#[trigger] bs[i].color),
    decreases bs.len(),
{
    if bs.len() > 0 {
        let k = choose|k: int| #![trigger count_ok(bs.last().count, k)]
            count_ok(bs.last().count, k) && 0 <= k <= s.len() && run_of(s, s.len() - k, s.len() as int, bs.last().color)
            && side_match(bs.drop_last(), end, s.subrange(0, s.len() - k));
        let t = s.subrange(0, s.len() - k);
        assert(blocks_valid(bs.drop_last())) by {
            assert forall|i: int| 0 <= i < bs.drop_last().len() implies (#[trigger] bs.drop_last()[i]).count.min_spec() > 0 by {
                assert(bs.drop_last()[i] == bs[i]);
            }
        }
        lemma_match_colors(bs.drop_last(), end, t);
        assert(bs[bs.len() - 1] == bs.last());
        assert(bs.last().count.min_spec() > 0);
        assert(k >= 1);
        assert forall|i: int| 0 <= i < bs.len() implies s.contains(#[trigger] bs[i].color) by {
            if i < bs.len() - 1 {
                assert(bs[i] == bs.drop_last()[i]);
                assert(t.contains(bs.drop_last()[i].color));
                let j = choose|j: int| 0 <= j < t.len() && t[j] == bs.drop_last()[i].color;
                assert(s[j] == t[j]);
            } else {
                assert(s[s.len() - 1] == bs.last().color);
            }
        }
    }
}

/// A side that fits a span ending in blanks whose nonblank runs are all
/// definite has as many nonblank cells, modulo 2, as the span says.
pub proof fn lemma_match_parity(bs: Seq<Block>, s: Seq<Color>)
    requires
        side_match(bs, TapeEnd::Blanks, s),
        !has_indef_nonblank(bs),
    ensures
        nonblank(s) % 2 == nonblank_parity_of(bs),
    decreases bs.len(),
{
    if bs.len() == 0 {
    } else {
        let b = bs.last();
        let k = choose|k: int| #![trigger count_ok(bs.last().count, k)]
            count_ok(bs.last().count, k) && 0 <= k <= s.len() && run_of(s, s.len() - k, s.len() as int, bs.last().color)
            && side_match(bs.drop_last(), TapeEnd::Blanks, s.subrange(0, s.len() - k));
        let t = s.subrange(0, s.len() - k);
        let u = s.subrange(s.len() - k, s.len() as int);
        assert(!has_indef_nonblank(bs.drop_last())) by {
            if has_indef_nonblank(bs.drop_last()) {
                let i = choose|i: int| 0 <= i < bs.drop_last().len() && (#[trigger] bs.drop_last()[i]).color != 0
                    && bs.drop_last()[i].count is AtLeast;
                assert(bs[i] == bs.drop_last()[i]);
            }
        }
        lemma_match_parity(bs.drop_last(), t);
        lemma_nonblank_split(s, s.len() - k);
        assert(run_of(u, 0, u.len() as int, b.color)) by {
            assert forall|i: int| 0 <= i < u.len() implies #[trigger] u[i] == b.color by {
                assert(u[i] == s[s.len() - k + i]);
            }
        }
        lemma_nonblank_run(u, b.color);
        assert(bs[bs.len() - 1] == b);
        if b.color != 0 {
            assert(b.count is Exact);
            assert(k == b.count.min_spec());
        }
    }
}

/// A side that fits a span ending in blanks whose nonblank runs are all
/// definite has as many nonblank cells, modulo 3, as the span says.
pub proof fn lemma_match_mod3(bs: Seq<Block>, s: Seq<Color>)
    requires
        side_match(bs, TapeEnd::Blanks, s),
        !has_indef_nonblank(bs),
    ensures
        nonblank(s) % 3 == nonblank_mod3_of(bs),
    decreases bs.len(),
{
    if bs.len() > 0 {
        let b = bs.last();
        let k = choose|k: int| #![trigger count_ok(bs.last().count, k)]
            count_ok(bs.last().count, k) && 0 <= k <= s.len() && run_of(s, s.len() - k, s.len() as int, bs.last().color)
            && side_match(bs.drop_last(), TapeEnd::Blanks, s.subrange(0, s.len() - k));
        let t = s.subrange(0, s.len() - k);
        let u = s.subrange(s.len() - k, s.len() as int);
        assert(!has_indef_nonblank(bs.drop_last())) by {
            if has_indef_nonblank(bs.drop_last()) {
                let i = choose|i: int| 0 <= i < bs.drop_last().len() && (#[trigger] bs.drop_last()[i]).color != 0
                    && bs.drop_last()[i].count is AtLeast;
                assert(bs[i] == bs.drop_last()[i]);
            }
        }
        lemma_match_mod3(bs.drop_last(), t);
        lemma_nonblank_split(s, s.len() - k);
        assert(run_of(u, 0, u.len() as int, b.color)) by {
            assert forall|i: int| 0 <= i < u.len() implies #[trigger] u[i] == b.color by {
                assert(u[i] == s[s.len() - k + i]);
            }
        }
        lemma_nonblank_run(u, b.color);
        assert(bs[bs.len() - 1] == b);
        if b.color != 0 {
            assert(b.count is Exact);
            assert(k == b.count.min_spec());
        }
    }
}

/// A side that fits a span still fits it, with one more cell pushed
/// next to the head, after `push_single_spec` pushes that cell's color.
pub proof fn lemma_push_sound(bs: Seq<Block>, end: TapeEnd, s: Seq<Color>, x: Color)
    requires
        side_match(bs, end, s),
        push_single_spec(bs, end, x) is Some,
    ensures
        side_match(push_single_spec(bs, end, x)->0, end, s.push(x)),
{
    let t = s.push(x);
    if bs.len() == 0 && x == 0 && end == TapeEnd::Blanks {
        assert(t.drop_last() =~= s);
    } else if bs.len() > 0 && bs.last().color == x {
        let k = choose|k: int| #![trigger count_ok(bs.last().count, k)]
            count_ok(bs.last().count, k) && 0 <= k <= s.len() && run_of(s, s.len() - k, s.len() as int, bs.last().color)
            && side_match(bs.drop_last(), end, s.subrange(0, s.len() - k));
        let nb2 = push_single_spec(bs, end, x)->0;
        assert(nb2.drop_last() =~= bs.drop_last());
        assert(t.subrange(0, t.len() - (k + 1)) =~= s.subrange(0, s.len() - k));
        assert(count_ok(nb2.last().count, k + 1));
        assert(run_of(t, t.len() - (k + 1), t.len() as int, nb2.last().color)) by {
            assert forall|i: int| t.len() - (k + 1) <= i < t.len() implies #[trigger] t[i] == nb2.last().color by {
                if i < s.len() {
                    assert(t[i] == s[i]);
                }
            }
        }
    } else {
        let nb2 = push_single_spec(bs, end, x)->0;
        assert(nb2.drop_last() =~= bs);
        assert(t.subrange(0, t.len() - 1) =~= s);
        assert(count_ok(nb2.last().count, 1));
        assert(run_of(t, t.len() - 1, t.len() as int, nb2.last().color));
    }
}

/// A side that fits a span, less its cell next to the head, fits the span
/// that `pull_spec` leaves, but where the nearest run is `c..` and that
/// run is one cell long.
pub proof fn lemma_pull_sound(bs: Seq<Block>, end: TapeEnd, s: Seq<Color>)
    requires
        side_match(bs, end, s),
        blocks_valid(bs),
        s.len() > 0,
    ensures
        side_match(pull_spec(bs), end, s.drop_last()) || (bs.len() > 0 && bs.last().count == BlockCount::AtLeast(1)
            && side_match(bs.drop_last(), end, s.drop_last())),
{
    if bs.len() == 0 {
        if end == TapeEnd::Blanks {
            assert(nonblank(s) == nonblank(s.drop_last()) + crate::bkw::windows::nz(s.last()));
        }
    } else {
        let b = bs.last();
        let k = choose|k: int| #![trigger count_ok(bs.last().count, k)]
            count_ok(bs.last().count, k) && 0 <= k <= s.len() && run_of(s, s.len() - k, s.len() as int, bs.last().color)
            && side_match(bs.drop_last(), end, s.subrange(0, s.len() - k));
        assert(bs[bs.len() - 1] == b);
        assert(b.count.min_spec() > 0);
        let t = s.drop_last();
        if b.count == BlockCount::Exact(1) {
            assert(k == 1);
            assert(s.subrange(0, s.len() - 1) =~= t);
        } else if b.count == BlockCount::AtLeast(1) && k == 1 {
            assert(s.subrange(0, s.len() - 1) =~= t);
        } else {
            let nb2 = pull_spec(bs);
            assert(nb2.drop_last() =~= bs.drop_last());
            assert(t.subrange(0, t.len() - (k - 1)) =~= s.subrange(0, s.len() - k));
            assert(count_ok(nb2.last().count, k - 1));
            assert(run_of(t, t.len() - (k - 1), t.len() as int, nb2.last().color)) by {
                assert forall|i: int| t.len() - (k - 1) <= i < t.len() implies #[trigger] t[i] == nb2.last().color by {
                    assert(t[i] == s[i]);
                }
            }
        }
    }
}

/// The fewest cells of color `k` that the runs of a span from `lo` on
/// hold.
pub open spec fn kmins_from(bs: Seq<Block>, k: Color, lo: int) -> int
    decreases bs.len() - lo,
{
    if lo < 0 || lo >= bs.len() {
        0
    } else {
        (if bs[lo].color == k { bs[lo].count.min_spec() as int } else { 0 }) + kmins_from(bs, k, lo + 1)
    }
}

/// The cells of `k` surely beyond the neighbor are the fewest the runs
/// hold, less the neighbor where the nearest run has color `k`.
proof fn lemma_tail_kmins(bs: Seq<Block>, k: Color, lo: int)
    requires
        blocks_valid(bs),
        0 <= lo <= bs.len(),
    ensures
        tail_sum(bs, k, lo) == kmins_from(bs, k, lo) - (if lo < bs.len() && bs.last().color == k { 1int } else { 0 }),
    decreases bs.len() - lo,
{
    if lo < bs.len() {
        lemma_tail_kmins(bs, k, lo + 1);
        assert(bs[bs.len() - 1] == bs.last());
        assert(bs[lo].count.min_spec() > 0);
    }
}

/// The fewest cells of `k` of a span split into those of its farther runs
/// and those of its nearest run.
proof fn lemma_kmins_last(bs: Seq<Block>, k: Color, lo: int)
    requires
        0 <= lo < bs.len(),
    ensures
        kmins_from(bs, k, lo) == kmins_from(bs.drop_last(), k, lo)
            + (if bs.last().color == k { bs.last().count.min_spec() as int } else { 0 }),
    decreases bs.len() - lo,
{
    if lo < bs.len() - 1 {
        lemma_kmins_last(bs, k, lo + 1);
        assert(bs.drop_last()[lo] == bs[lo]);
    } else {
        assert(bs[lo] == bs.last());
        assert(kmins_from(bs, k, lo + 1) == 0);
        assert(kmins_from(bs.drop_last(), k, lo) == 0);
    }
}

/// The cells of color `k` of a side split at any cell.
pub proof fn lemma_occ_split(s: Seq<Color>, k: Color, m: int)
    requires
        0 <= m <= s.len(),
    ensures
        occ(s, k) == occ(s.subrange(0, m), k) + occ(s.subrange(m, s.len() as int), k),
    decreases s.len() - m,
{
    if m == s.len() {
        assert(s.subrange(0, m) =~= s);
        assert(s.subrange(m, s.len() as int) =~= Seq::<Color>::empty());
    } else {
        lemma_occ_split(s, k, m + 1);
        assert(s.subrange(0, m + 1).drop_last() =~= s.subrange(0, m));
        lemma_occ_first(s.subrange(m, s.len() as int), k);
        assert(s.subrange(m, s.len() as int).subrange(1, s.len() - m) =~= s.subrange(m + 1, s.len() as int));
    }
}

/// The cells of color `k` of a side: its farthest cell, then the rest.
proof fn lemma_occ_first(s: Seq<Color>, k: Color)
    requires
        s.len() > 0,
    ensures
        occ(s, k) == (if s[0] == k { 1int } else { 0 }) + occ(s.subrange(1, s.len() as int), k),
    decreases s.len(),
{
    if s.len() == 1 {
        assert(s.drop_last() =~= Seq::<Color>::empty());
        assert(s.subrange(1, 1) =~= Seq::<Color>::empty());
    } else {
        lemma_occ_first(s.drop_last(), k);
        assert(s.drop_last().subrange(1, s.len() - 1) =~= s.subrange(1, s.len() as int).drop_last());
        assert(s.drop_last()[0] == s[0]);
        assert(s.subrange(1, s.len() as int).last() == s.last());
    }
}

/// A run of one color has all its cells of color `k`, or none.
proof fn lemma_occ_run(s: Seq<Color>, color: Color, k: Color)
    requires
        run_of(s, 0, s.len() as int, color),
    ensures
        occ(s, k) == if color == k { s.len() as int } else { 0 },
    decreases s.len(),
{
    if s.len() > 0 {
        assert(run_of(s.drop_last(), 0, s.len() - 1, color)) by {
            assert forall|i: int| 0 <= i < s.len() - 1 implies #[trigger] s.drop_last()[i] == color by {
                assert(s[i] == color);
            }
        }
        lemma_occ_run(s.drop_last(), color, k);
        assert(s[s.len() - 1] == color);
    }
}

/// A nonblank color occurs no more often than the nonblank cells.
proof fn lemma_occ_nonblank(s: Seq<Color>, k: Color)
    requires
        k != 0,
    ensures
        occ(s, k) <= nonblank(s),
    decreases s.len(),
{
    if s.len() > 0 {
        lemma_occ_nonblank(s.drop_last(), k);
    }
}

/// A side that fits a span holds at least the fewest cells of a nonblank
/// color `k` that the runs hold, and exactly that many where the span
/// ends in blanks and every run of `k` is definite.
proof fn lemma_match_occ(bs: Seq<Block>, end: TapeEnd, s: Seq<Color>, k: Color)
    requires
        side_match(bs, end, s),
        blocks_valid(bs),
        k != 0,
    ensures
        occ(s, k) >= kmins_from(bs, k, 0),
        !crate::bkw::tails::count_varies(bs, end, k) ==> occ(s, k) == kmins_from(bs, k, 0),
    decreases bs.len(),
{
    if bs.len() == 0 {
        if end == TapeEnd::Blanks {
            lemma_occ_nonblank(s, k);
        }
    } else {
        let b = bs.last();
        let n = s.len() as int;
        let kk = choose|kk: int| #![trigger count_ok(bs.last().count, kk)]
            count_ok(bs.last().count, kk) && 0 <= kk <= s.len() && run_of(s, s.len() - kk, s.len() as int, bs.last().color)
            && side_match(bs.drop_last(), end, s.subrange(0, s.len() - kk));
        let t = s.subrange(0, n - kk);
        let u = s.subrange(n - kk, n);
        assert(blocks_valid(bs.drop_last())) by {
            assert forall|q: int| 0 <= q < bs.drop_last().len() implies (#[trigger] bs.drop_last()[q]).count.min_spec() > 0 by {
                assert(bs.drop_last()[q] == bs[q]);
            }
        }
        lemma_match_occ(bs.drop_last(), end, t, k);
        lemma_occ_split(s, k, n - kk);
        assert(run_of(u, 0, u.len() as int, b.color)) by {
            assert forall|i: int| 0 <= i < u.len() implies #[trigger] u[i] == b.color by {
                assert(u[i] == s[n - kk + i]);
            }
        }
        lemma_occ_run(u, b.color, k);
        lemma_kmins_last(bs, k, 0);
        assert(bs[bs.len() - 1] == b);
        if !crate::bkw::tails::count_varies(bs, end, k) {
            assert(!crate::bkw::tails::count_varies(bs.drop_last(), end, k)) by {
                if crate::bkw::tails::count_varies(bs.drop_last(), end, k) && end != TapeEnd::Unknown {
                    let j = choose|j: int| 0 <= j < bs.drop_last().len() && (#[trigger] bs.drop_last()[j]).color == k
                        && bs.drop_last()[j].count is AtLeast;
                    assert(bs[j] == bs.drop_last()[j]);
                }
            }
            if b.color == k {
                assert(b.count is Exact);
            }
        }
    }
}

/// The capped count of a nonblank color `k` beyond the neighbor on a side
/// that fits a span is one the span allows.
pub proof fn lemma_count_may(bs: Seq<Block>, end: TapeEnd, s: Seq<Color>, k: Color)
    requires
        side_match(bs, end, s),
        blocks_valid(bs),
        k != 0,
    ensures
        crate::bkw::tails::count_may(bs, end, k, crate::run::capped(occ(rest(s), k))),
{
    lemma_match_occ(bs, end, s, k);
    lemma_tail_kmins(bs, k, 0);
    if s.len() > 0 {
        assert(occ(s, k) == occ(rest(s), k) + (if nb(s) == k { 1int } else { 0 }));
    }
    if bs.len() > 0 {
        let kk = choose|kk: int| #![trigger count_ok(bs.last().count, kk)]
            count_ok(bs.last().count, kk) && 0 <= kk <= s.len() && run_of(s, s.len() - kk, s.len() as int, bs.last().color)
            && side_match(bs.drop_last(), end, s.subrange(0, s.len() - kk));
        assert(bs[bs.len() - 1] == bs.last());
        assert(bs.last().count.min_spec() > 0);
        assert(s[s.len() - 1] == bs.last().color);
        assert(nb(s) == bs.last().color);
    } else if s.len() > 0 && end == TapeEnd::Blanks {
        lemma_occ_nonblank(s, k);
    }
}

/// Whether a configuration fits a tape description given by its plain
/// values (as `conf_matches` says of a tape).
pub open spec fn conf_matches_v(state: State, tv: TapeV, c: Conf) -> bool {
    &&& c.0 == state
    &&& c.2 == tv.0
    &&& exists|p: nat| #[trigger] side_match(tv.1, tv.2, blanks(p) + c.1)
    &&& exists|p: nat| #[trigger] side_match(tv.3, tv.4, blanks(p) + c.3)
}

/// The cells of a padded side are blank or cells of the side.
proof fn lemma_padded_cell(p: nat, s: Seq<Color>, j: int)
    requires
        0 <= j < p + s.len(),
    ensures
        (blanks(p) + s)[j] == 0 || (j >= p && (blanks(p) + s)[j] == s[j - p]),
{
}

impl<const S: usize, const C: usize> Prog<S, C> {
    /// A tape description that fits a configuration of the run from the
    /// blank tape has no run of a color forbidden on its side, given
    /// colors forbidden soundly (as `shift_side_forbidden` does):
    /// `obeys_shift_side` keeps it.
    pub proof fn lemma_shift_side_sound(&self, fl: Seq<bool>, fr: Seq<bool>, state: State, tape: Tape, c: Conf)
        requires
            self.inv(),
            S >= 1,
            C >= 1,
            prints_below(self.instr_list(), C as int),
            targets_below(self.instr_list(), S as int),
            forbid_sound(self.entries(), fl, true, C as int),
            forbid_sound(self.entries(), fr, false, C as int),
            tape.wf(),
            self.conf_reach(c),
            conf_matches(state, tape, c),
        ensures
            side_allowed(tape.lspan.bs(), fl),
            side_allowed(tape.rspan.bs(), fr),
    {
        let es = self.entries();
        self.lemma_run_sides(c);
        let pl = choose|p: nat| #[trigger] side_match(tape.lspan.bs(), tape.lspan.end, blanks(p) + c.1);
        let pr = choose|p: nat| #[trigger] side_match(tape.rspan.bs(), tape.rspan.end, blanks(p) + c.3);
        lemma_match_colors(tape.lspan.bs(), tape.lspan.end, blanks(pl) + c.1);
        lemma_match_colors(tape.rspan.bs(), tape.rspan.end, blanks(pr) + c.3);
        assert forall|i: int| 0 <= i < tape.lspan.bs().len() implies (#[trigger] tape.lspan.bs()[i]).color < fl.len()
            && !fl[tape.lspan.bs()[i].color as int] by {
            let s = blanks(pl) + c.1;
            let j = choose|j: int| 0 <= j < s.len() && s[j] == tape.lspan.bs()[i].color;
            lemma_padded_cell(pl, c.1, j);
            if s[j] != 0 {
                assert(c.1[j - pl] == s[j]);
            }
        }
        assert forall|i: int| 0 <= i < tape.rspan.bs().len() implies (#[trigger] tape.rspan.bs()[i]).color < fr.len()
            && !fr[tape.rspan.bs()[i].color as int] by {
            let s = blanks(pr) + c.3;
            let j = choose|j: int| 0 <= j < s.len() && s[j] == tape.rspan.bs()[i].color;
            lemma_padded_cell(pr, c.3, j);
            if s[j] != 0 {
                assert(c.3[j - pr] == s[j]);
            }
        }
    }

    /// Where every nonblank color is forbidden on the left side (soundly),
    /// a tape description that fits a configuration of the run has only
    /// blank runs on the left, and the configuration fits it with that
    /// side made `0+`; likewise on the right: `tighten_forced_blank_ends`
    /// keeps it.
    pub proof fn lemma_forced_blank_sound(&self, fl: Seq<bool>, fr: Seq<bool>, state: State, tape: Tape, c: Conf)
        requires
            self.inv(),
            S >= 1,
            C >= 1,
            prints_below(self.instr_list(), C as int),
            targets_below(self.instr_list(), S as int),
            forbid_sound(self.entries(), fl, true, C as int),
            forbid_sound(self.entries(), fr, false, C as int),
            tape.wf(),
            self.conf_reach(c),
            conf_matches(state, tape, c),
        ensures
            (forall|k: int| 1 <= k < C ==> #[trigger] fl[k]) ==> all_blank(tape.lspan.bs())
                && side_match(Seq::empty(), TapeEnd::Blanks, blanks(0) + c.1),
            (forall|k: int| 1 <= k < C ==> #[trigger] fr[k]) ==> all_blank(tape.rspan.bs())
                && side_match(Seq::empty(), TapeEnd::Blanks, blanks(0) + c.3),
    {
        self.lemma_shift_side_sound(fl, fr, state, tape, c);
        self.lemma_run_sides(c);
        if forall|k: int| 1 <= k < C ==> #[trigger] fl[k] {
            assert forall|i: int| 0 <= i < c.1.len() implies #[trigger] c.1[i] == 0 by {
                if c.1[i] != 0 {
                    assert(fl[c.1[i] as int]);
                }
            }
            assert forall|i: int| 0 <= i < tape.lspan.bs().len() implies (#[trigger] tape.lspan.bs()[i]).color == 0 by {
                if tape.lspan.bs()[i].color != 0 {
                    assert(fl[tape.lspan.bs()[i].color as int]);
                }
            }
            lemma_all_zero(c.1);
            assert(blanks(0) + c.1 =~= c.1);
        }
        if forall|k: int| 1 <= k < C ==> #[trigger] fr[k] {
            assert forall|i: int| 0 <= i < c.3.len() implies #[trigger] c.3[i] == 0 by {
                if c.3[i] != 0 {
                    assert(fr[c.3[i] as int]);
                }
            }
            assert forall|i: int| 0 <= i < tape.rspan.bs().len() implies (#[trigger] tape.rspan.bs()[i]).color == 0 by {
                if tape.rspan.bs()[i].color != 0 {
                    assert(fr[tape.rspan.bs()[i].color as int]);
                }
            }
            lemma_all_zero(c.3);
            assert(blanks(0) + c.3 =~= c.3);
        }
    }

    /// A tape description that fits a configuration of the run from the
    /// blank tape has a nonblank parity that its state allows, in every
    /// closed per-state assignment of parities (as
    /// `nonblank_parity_from_blank` computes): `nonblank_parity_possible`
    /// keeps it.
    pub proof fn lemma_nonblank_parity_sound(&self, np: NonblankParity, state: State, tape: Tape, c: Conf)
        requires
            self.inv(),
            np.possible@.len() == S,
            parity_closed(self.entries(), np.possible@),
            targets_below(self.instr_list(), S as int),
            self.conf_reach(c),
            conf_matches(state, tape, c),
        ensures
            nonblank_parity_v(state, crate::bkw::tape_v(tape), np),
    {
        self.lemma_nonblank_parity_sound_v(np, state, crate::bkw::tape_v(tape), c);
    }

    /// The same, of a tape description given by its plain values.
    pub proof fn lemma_nonblank_parity_sound_v(&self, np: NonblankParity, state: State, tv: TapeV, c: Conf)
        requires
            self.inv(),
            np.possible@.len() == S,
            parity_closed(self.entries(), np.possible@),
            targets_below(self.instr_list(), S as int),
            self.conf_reach(c),
            conf_matches_v(state, tv, c),
        ensures
            nonblank_parity_v(state, tv, np),
    {
        self.lemma_run_parity(np.possible@, c);
        if side_exact(tv.1, tv.2) && side_exact(tv.3, tv.4) {
            let pl = choose|p: nat| #[trigger] side_match(tv.1, tv.2, blanks(p) + c.1);
            let pr = choose|p: nat| #[trigger] side_match(tv.3, tv.4, blanks(p) + c.3);
            lemma_match_parity(tv.1, blanks(pl) + c.1);
            lemma_match_parity(tv.3, blanks(pr) + c.3);
            lemma_padded(pl, c.1);
            lemma_padded(pr, c.3);
            crate::bkw::tape::lemma_parity_bound(tv.1);
            crate::bkw::tape::lemma_parity_bound(tv.3);
        }
    }
}

impl<const S: usize, const C: usize> Prog<S, C> {
    /// Where the program never prints blank moving right, no cell left of
    /// the head that the run has visited is blank; likewise on the right.
    /// Where neither way prints blank, a blank scanned cell has no visited
    /// cell on one side.
    pub proof fn lemma_run_fresh(&self, c: Conf)
        requires
            self.inv(),
            S >= 1,
            C >= 1,
            prints_below(self.instr_list(), C as int),
            targets_below(self.instr_list(), S as int),
            self.conf_reach(c),
        ensures
            !writes_with(self.entries(), 0, true) ==> forall|i: int| 0 <= i < c.1.len() ==> #[trigger] c.1[i] != 0,
            !writes_with(self.entries(), 0, false) ==> forall|i: int| 0 <= i < c.3.len() ==> #[trigger] c.3[i] != 0,
            !writes_with(self.entries(), 0, true) && !writes_with(self.entries(), 0, false) && c.2 == 0
                ==> c.1.len() == 0 || c.3.len() == 0,
    {
        let es = self.entries();
        let lz = !writes_with(es, 0, true);
        let rz = !writes_with(es, 0, false);
        let ok = |x: Conf| {
            &&& self.conf_reach(x)
            &&& lz ==> forall|i: int| 0 <= i < x.1.len() ==> #[trigger] x.1[i] != 0
            &&& rz ==> forall|i: int| 0 <= i < x.3.len() ==> #[trigger] x.3[i] != 0
            &&& lz && rz && x.2 == 0 ==> x.1.len() == 0 || x.3.len() == 0
        };
        assert(self.conf_closed(ok)) by {
            assert(self.conf_reach(crate::run::blank_conf())) by {
                assert forall|set: spec_fn(Conf) -> bool| #[trigger] self.conf_closed(set) implies set(crate::run::blank_conf()) by {}
            }
            assert forall|x: Conf, d: Conf| #![trigger ok(x), self.conf_step(x, d)] ok(x) && self.conf_step(x, d) implies ok(d) by {
                self.lemma_reach_step(x, d);
                let j = self.lemma_step_entry(x, d);
                let (print, shift, next) = es[j].1;
                assert(writes_with(es, print, shift));
                if shift {
                    assert(d.1 == x.1.push(print));
                    assert(d.3 == crate::run::rest(x.3));
                    if lz {
                        assert(print != 0);
                        assert forall|i: int| 0 <= i < d.1.len() implies #[trigger] d.1[i] != 0 by {
                            if i < x.1.len() {
                                assert(d.1[i] == x.1[i]);
                            }
                        }
                    }
                    if rz {
                        assert forall|i: int| 0 <= i < d.3.len() implies #[trigger] d.3[i] != 0 by {
                            assert(d.3[i] == x.3[i]);
                        }
                        if x.3.len() > 0 {
                            assert(d.2 == x.3[x.3.len() - 1]);
                        }
                    }
                } else {
                    assert(d.3 == x.3.push(print));
                    assert(d.1 == crate::run::rest(x.1));
                    if rz {
                        assert(print != 0);
                        assert forall|i: int| 0 <= i < d.3.len() implies #[trigger] d.3[i] != 0 by {
                            if i < x.3.len() {
                                assert(d.3[i] == x.3[i]);
                            }
                        }
                    }
                    if lz {
                        assert forall|i: int| 0 <= i < d.1.len() implies #[trigger] d.1[i] != 0 by {
                            assert(d.1[i] == x.1[i]);
                        }
                        if x.1.len() > 0 {
                            assert(d.2 == x.1[x.1.len() - 1]);
                        }
                    }
                }
            }
        }
        assert(ok(c));
    }

    /// A tape description that fits a configuration of the run from the
    /// blank tape passes the side filters of the backward search, built as
    /// the search builds them, and the configuration fits the tightened
    /// description they give: `passes_side_filters` keeps it.
    #[verifier::rlimit(50)]
    pub proof fn lemma_side_filters_sound(&self, f: Filters<S, C>, state: State, tape: Tape, c: Conf)
        requires
            self.inv(),
            S >= 1,
            C >= 1,
            prints_below(self.instr_list(), C as int),
            targets_below(self.instr_list(), S as int),
            forbid_sound(self.entries(), f.forbid_left@, true, C as int),
            forbid_sound(self.entries(), f.forbid_right@, false, C as int),
            f.left_forced_blank == (forall|k: int| 1 <= k < C ==> #[trigger] f.forbid_left@[k]),
            f.right_forced_blank == (forall|k: int| 1 <= k < C ==> #[trigger] f.forbid_right@[k]),
            f.left_fresh_zero ==> !writes_with(self.entries(), 0, true),
            f.right_fresh_zero ==> !writes_with(self.entries(), 0, false),
            f.nonblank_parity.possible@.len() == S,
            parity_closed(self.entries(), f.nonblank_parity.possible@),
            tape.wf(),
            self.conf_reach(c),
            conf_matches(state, tape, c),
        ensures
            side_filter_v::<S, C>(state, tape_v(tape), f) matches Some(t) && conf_matches_v(state, t, c),
    {
        reveal(side_filter_v);
        let tv = tape_v(tape);
        let fl = f.forbid_left@;
        let fr = f.forbid_right@;
        self.lemma_shift_side_sound(fl, fr, state, tape, c);
        self.lemma_forced_blank_sound(fl, fr, state, tape, c);
        let pl = choose|p: nat| #[trigger] side_match(tape.lspan.bs(), tape.lspan.end, blanks(p) + c.1);
        let pr = choose|p: nat| #[trigger] side_match(tape.rspan.bs(), tape.rspan.end, blanks(p) + c.3);
        let tv1 = tighten_v(tv, f.left_forced_blank, f.right_forced_blank);
        let ql: nat = if f.left_forced_blank { 0 } else { pl };
        let qr: nat = if f.right_forced_blank { 0 } else { pr };
        assert(side_match(tv1.1, tv1.2, blanks(ql) + c.1));
        assert(side_match(tv1.3, tv1.4, blanks(qr) + c.3));
        assert(span_wf(tv1.1) && span_wf(tv1.3));
        let lz = f.left_fresh_zero;
        let rz = f.right_fresh_zero;
        let tv2 = if lz || rz { fresh_zero_v(tv1, lz, rz) } else { Some(tv1) };
        self.lemma_run_fresh(c);
        if lz || rz {
            lemma_fresh_zero_sound(tv1, lz, rz, c, ql, qr);
        }
        assert(tv2 is Some && conf_matches_v(state, tv2->0, c));
        self.lemma_nonblank_parity_sound_v(f.nonblank_parity, state, tv2->0, c);
    }
}

/// The fresh-zero rules keep a tape description that a configuration
/// fits, where each marked side holds only nonblank visited cells and,
/// where both are marked and the head reads blank, one side has no
/// visited cell; the configuration fits what they give.
proof fn lemma_fresh_zero_sound(tv1: TapeV, lz: bool, rz: bool, c: Conf, ql: nat, qr: nat)
    requires
        side_match(tv1.1, tv1.2, blanks(ql) + c.1),
        side_match(tv1.3, tv1.4, blanks(qr) + c.3),
        span_wf(tv1.1),
        span_wf(tv1.3),
        c.2 == tv1.0,
        lz ==> forall|i: int| 0 <= i < c.1.len() ==> #[trigger] c.1[i] != 0,
        rz ==> forall|i: int| 0 <= i < c.3.len() ==> #[trigger] c.3[i] != 0,
        lz && rz && c.2 == 0 ==> c.1.len() == 0 || c.3.len() == 0,
        lz || rz,
    ensures
        fresh_zero_v(tv1, lz, rz) matches Some(t) && t.0 == tv1.0
            && (exists|p: nat| #[trigger] side_match(t.1, t.2, blanks(p) + c.1))
            && (exists|p: nat| #[trigger] side_match(t.3, t.4, blanks(p) + c.3)),
{
    if lz {
        lemma_zeros_far_padded(ql, c.1);
        lemma_fresh_side(tv1.1, tv1.2, blanks(ql) + c.1);
    }
    if rz {
        lemma_zeros_far_padded(qr, c.3);
        lemma_fresh_side(tv1.3, tv1.4, blanks(qr) + c.3);
    }
    {
        let l1 = if lz { fresh_zero_side(tv1.1, tv1.2) } else { Some((tv1.1, tv1.2)) };
        let r1 = if rz { fresh_zero_side(tv1.3, tv1.4) } else { Some((tv1.3, tv1.4)) };
        let (lb2, le2) = l1->0;
        let (rb2, re2) = r1->0;
        assert(side_match(lb2, le2, blanks(ql) + c.1));
        assert(side_match(rb2, re2, blanks(qr) + c.3));
        assert(span_wf(lb2) && span_wf(rb2));
        let both = tv1.0 == 0 && lz && rz;
        if both {
            if c.1.len() == 0 {
                assert(blanks(ql) + c.1 =~= blanks(ql));
                lemma_match_colors(lb2, le2, blanks(ql));
                assert(!any_nonblank(lb2)) by {
                    if any_nonblank(lb2) {
                        let i = choose|i: int| 0 <= i < lb2.len() && (#[trigger] lb2[i]).color != 0;
                        assert(blanks(ql).contains(lb2[i].color));
                    }
                }
                lemma_nonblank_blanks(0);
                assert(blanks(0) + c.1 =~= blanks(0));
                assert(side_match(Seq::<Block>::empty(), TapeEnd::Blanks, blanks(0) + c.1));
            } else {
                assert(c.3.len() == 0);
                assert(blanks(qr) + c.3 =~= blanks(qr));
                lemma_match_colors(rb2, re2, blanks(qr));
                assert(!any_nonblank(rb2)) by {
                    if any_nonblank(rb2) {
                        let i = choose|i: int| 0 <= i < rb2.len() && (#[trigger] rb2[i]).color != 0;
                        assert(blanks(qr).contains(rb2[i].color));
                    }
                }
                lemma_nonblank_blanks(0);
                assert(blanks(0) + c.3 =~= blanks(0));
                assert(side_match(Seq::<Block>::empty(), TapeEnd::Blanks, blanks(0) + c.3));
            }
        }
        let t = fresh_zero_v(tv1, lz, rz)->0;
        let lempty = both && any_nonblank(rb2);
        let rempty = both && any_nonblank(lb2);
        let pl2: nat = if lempty { 0 } else { ql };
        let pr2: nat = if rempty { 0 } else { qr };
        assert(side_match(t.1, t.2, blanks(pl2) + c.1));
        assert(side_match(t.3, t.4, blanks(pr2) + c.3));
    }
}

/// Whether the blank cells of a side all lie farther out than its
/// nonblank ones.
pub open spec fn zeros_far(s: Seq<Color>) -> bool {
    forall|a: int, b: int| 0 <= a < b < s.len() && #[trigger] s[a] != 0 ==> #[trigger] s[b] != 0
}

/// Of two runs of a span that a side fits, the farther has a cell
/// farther out than a cell of the nearer.
proof fn lemma_match_order(bs: Seq<Block>, end: TapeEnd, s: Seq<Color>, i: int, j: int) -> (ab: (int, int))
    requires
        side_match(bs, end, s),
        blocks_valid(bs),
        0 <= i < j < bs.len(),
    ensures
        0 <= ab.0 < ab.1 < s.len(),
        s[ab.0] == bs[i].color,
        s[ab.1] == bs[j].color,
    decreases bs.len(),
{
    let k = choose|k: int| #![trigger count_ok(bs.last().count, k)]
        count_ok(bs.last().count, k) && 0 <= k <= s.len() && run_of(s, s.len() - k, s.len() as int, bs.last().color)
        && side_match(bs.drop_last(), end, s.subrange(0, s.len() - k));
    let t = s.subrange(0, s.len() - k);
    assert(blocks_valid(bs.drop_last())) by {
        assert forall|q: int| 0 <= q < bs.drop_last().len() implies (#[trigger] bs.drop_last()[q]).count.min_spec() > 0 by {
            assert(bs.drop_last()[q] == bs[q]);
        }
    }
    assert(bs[bs.len() - 1] == bs.last());
    assert(bs.last().count.min_spec() > 0);
    assert(bs[i] == bs.drop_last()[i]);
    if j == bs.len() - 1 {
        lemma_match_colors(bs.drop_last(), end, t);
        assert(t.contains(bs.drop_last()[i].color));
        let a = choose|a: int| 0 <= a < t.len() && t[a] == bs.drop_last()[i].color;
        assert(s[a] == t[a]);
        assert(s[s.len() - 1] == bs.last().color);
        (a, s.len() - 1)
    } else {
        assert(bs[j] == bs.drop_last()[j]);
        let (a, b) = lemma_match_order(bs.drop_last(), end, t, i, j);
        assert(s[a] == t[a] && s[b] == t[b]);
        (a, b)
    }
}

/// A span whose farthest run is blank, fitting a side with its blanks
/// farthest out, still fits it without that run and ending in blanks.
proof fn lemma_strip_first(bs: Seq<Block>, end: TapeEnd, s: Seq<Color>)
    requires
        side_match(bs, end, s),
        blocks_valid(bs),
        bs.len() >= 1,
        bs[0].color == 0,
        zeros_far(s),
    ensures
        side_match(bs.subrange(1, bs.len() as int), TapeEnd::Blanks, s),
    decreases bs.len(),
{
    let k = choose|k: int| #![trigger count_ok(bs.last().count, k)]
        count_ok(bs.last().count, k) && 0 <= k <= s.len() && run_of(s, s.len() - k, s.len() as int, bs.last().color)
        && side_match(bs.drop_last(), end, s.subrange(0, s.len() - k));
    let t = s.subrange(0, s.len() - k);
    assert(bs[bs.len() - 1] == bs.last());
    assert(bs.last().count.min_spec() > 0);
    if bs.len() == 1 {
        assert(bs.subrange(1, 1) =~= Seq::<Block>::empty());
        assert(s[s.len() - 1] == 0);
        assert forall|a: int| 0 <= a < s.len() implies #[trigger] s[a] == 0 by {
            if a < s.len() - 1 && s[a] != 0 {
                assert(s[s.len() - 1] != 0);
            }
        }
        lemma_all_zero(s);
    } else {
        assert(blocks_valid(bs.drop_last())) by {
            assert forall|q: int| 0 <= q < bs.drop_last().len() implies (#[trigger] bs.drop_last()[q]).count.min_spec() > 0 by {
                assert(bs.drop_last()[q] == bs[q]);
            }
        }
        assert(zeros_far(t)) by {
            assert forall|a: int, b: int| 0 <= a < b < t.len() && #[trigger] t[a] != 0 implies #[trigger] t[b] != 0 by {
                assert(t[a] == s[a] && t[b] == s[b]);
            }
        }
        assert(bs.drop_last()[0] == bs[0]);
        lemma_strip_first(bs.drop_last(), end, t);
        let r = bs.subrange(1, bs.len() as int);
        assert(r.drop_last() =~= bs.drop_last().subrange(1, bs.drop_last().len() as int));
        assert(r.last() == bs.last());
        assert(count_ok(r.last().count, k));
    }
}

/// A padded side of visited nonblank cells has its blanks farthest out.
proof fn lemma_zeros_far_padded(p: nat, s: Seq<Color>)
    requires
        forall|i: int| 0 <= i < s.len() ==> #[trigger] s[i] != 0,
    ensures
        zeros_far(blanks(p) + s),
{
    let u = blanks(p) + s;
    assert forall|a: int, b: int| 0 <= a < b < u.len() && #[trigger] u[a] != 0 implies #[trigger] u[b] != 0 by {
        lemma_padded_cell(p, s, a);
        lemma_padded_cell(p, s, b);
        assert(u[b] == s[b - p]);
    }
}

/// The fresh-zero rule keeps a side whose blanks lie farthest out, and
/// the side still fits what it gives.
proof fn lemma_fresh_side(bs: Seq<Block>, end: TapeEnd, s: Seq<Color>)
    requires
        side_match(bs, end, s),
        span_wf(bs),
        zeros_far(s),
    ensures
        fresh_zero_side(bs, end) is Some,
        side_match((fresh_zero_side(bs, end)->0).0, (fresh_zero_side(bs, end)->0).1, s),
        span_wf((fresh_zero_side(bs, end)->0).0),
{
    if nonblank_beyond_blank(bs) {
        let (i, j) = choose|i: int, j: int| 0 <= i < j < bs.len() && (#[trigger] bs[i]).color != 0 && (#[trigger] bs[j]).color == 0;
        let (a, b) = lemma_match_order(bs, end, s, i, j);
        assert(s[b] != 0);
    }
    if any_blank(bs) {
        let j = choose|j: int| 0 <= j < bs.len() && (#[trigger] bs[j]).color == 0;
        if j > 0 {
            assert(bs[j - 1].color != bs[j].color);
            assert(!(bs[j - 1].color != 0 && bs[j].color == 0));
        }
        assert(bs[0].color == 0);
        lemma_strip_first(bs, end, s);
        let r = bs.subrange(1, bs.len() as int);
        assert(strip_far_blanks(bs) == strip_far_blanks(r));
        if r.len() > 0 {
            assert(r[0] == bs[1]);
            assert(bs[0].color != bs[1].color);
        }
        assert(strip_far_blanks(r) == r);
        assert forall|q: int| 0 <= q < r.len() implies (#[trigger] r[q]).count.min_spec() > 0 by {
            assert(r[q] == bs[q + 1]);
        }
        assert forall|q: int| 0 <= q < r.len() - 1 implies (#[trigger] r[q]).color != r[q + 1].color by {
            assert(r[q] == bs[q + 1]);
            assert(r[q + 1] == bs[q + 2]);
        }
    }
}

/// A padded side with the cell next to the head put back: the cells it
/// had before a step away from it.
proof fn lemma_put_back(q: nat, s: Seq<Color>) -> (q2: nat)
    ensures
        (blanks(q) + rest(s)).push(nb(s)) =~= blanks(q2) + s,
{
    if s.len() == 0 {
        assert((blanks(q) + rest(s)).push(nb(s)) =~= blanks(q + 1) + s);
        q + 1
    } else {
        assert(rest(s).push(nb(s)) =~= s);
        assert((blanks(q) + rest(s)).push(nb(s)) =~= blanks(q) + s);
        q
    }
}

impl<const S: usize, const C: usize> Prog<S, C> {
    /// A step to a configuration that fits a tape description left a cell
    /// that the description's side can hold: `is_valid_step` keeps the
    /// step's instruction.
    pub proof fn lemma_step_fits_sound(&self, c: Conf, d: Conf, tv: TapeV)
        requires
            self.conf_step(c, d),
            conf_matches_v(d.0, tv, d),
            blocks_valid(tv.1),
            blocks_valid(tv.3),
        ensures
            step_fits((tv.1, tv.2, tv.3, tv.4), (self.instr_at(c.0 as int, c.2 as int)->0).1, (self.instr_at(c.0 as int, c.2 as int)->0).0),
    {
        let (print, shift, next) = self.instr_at(c.0 as int, c.2 as int)->0;
        let pl = choose|p: nat| #[trigger] side_match(tv.1, tv.2, blanks(p) + d.1);
        let pr = choose|p: nat| #[trigger] side_match(tv.3, tv.4, blanks(p) + d.3);
        let (bs, end, sd) = if shift { (tv.1, tv.2, blanks(pl) + d.1) } else { (tv.3, tv.4, blanks(pr) + d.3) };
        assert(sd.len() > 0 && sd.last() == print);
        if bs.len() > 0 {
            let k = choose|k: int| #![trigger count_ok(bs.last().count, k)]
                count_ok(bs.last().count, k) && 0 <= k <= sd.len() && run_of(sd, sd.len() - k, sd.len() as int, bs.last().color)
                && side_match(bs.drop_last(), end, sd.subrange(0, sd.len() - k));
            assert(bs[bs.len() - 1] == bs.last());
            assert(bs.last().count.min_spec() > 0);
            assert(sd[sd.len() - 1] == bs.last().color);
        } else if end == TapeEnd::Blanks {
            assert(nonblank(sd) == nonblank(sd.drop_last()) + crate::bkw::windows::nz(sd.last()));
        }
    }

    /// A configuration that steps to one that fits a tape description
    /// fits that description stepped back by the step's instruction (as
    /// `backstep` gives it, where a count still fits), or, where the run it
    /// pulls is `c..` and one cell long, the description with that run cut
    /// to one cell, stepped back.
    pub proof fn lemma_backstep_sound(&self, c: Conf, d: Conf, tv: TapeV)
        requires
            self.conf_step(c, d),
            conf_matches_v(d.0, tv, d),
            blocks_valid(tv.1),
            blocks_valid(tv.3),
            backstep_v(tv, (self.instr_at(c.0 as int, c.2 as int)->0).1, c.2) is Some,
        ensures
            ({
                let shift = (self.instr_at(c.0 as int, c.2 as int)->0).1;
                ||| conf_matches_v(c.0, backstep_v(tv, shift, c.2)->0, c)
                ||| (if shift { tv.1.len() > 0 && tv.1.last().count == BlockCount::AtLeast(1) } else {
                    tv.3.len() > 0 && tv.3.last().count == BlockCount::AtLeast(1) })
                    && backstep_v(set_one_v(tv, shift), shift, c.2) is Some
                    && conf_matches_v(c.0, backstep_v(set_one_v(tv, shift), shift, c.2)->0, c)
            }),
    {
        reveal(backstep_v);
        let (print, shift, next) = self.instr_at(c.0 as int, c.2 as int)->0;
        let pl = choose|p: nat| #[trigger] side_match(tv.1, tv.2, blanks(p) + d.1);
        let pr = choose|p: nat| #[trigger] side_match(tv.3, tv.4, blanks(p) + d.3);
        if shift {
            let sl = blanks(pl) + d.1;
            assert(d.1 == c.1.push(print));
            assert(sl.drop_last() =~= blanks(pl) + c.1);
            lemma_pull_sound(tv.1, tv.2, sl);
            lemma_push_sound(tv.3, tv.4, blanks(pr) + d.3, tv.0);
            assert(d.3 == rest(c.3) && d.2 == nb(c.3));
            let q2 = lemma_put_back(pr, c.3);
            assert(side_match(push_single_spec(tv.3, tv.4, tv.0)->0, tv.4, blanks(q2) + c.3));
            let r = backstep_v(tv, shift, c.2)->0;
            assert(side_match(r.3, r.4, blanks(q2) + c.3));
            if side_match(pull_spec(tv.1), tv.2, blanks(pl) + c.1) {
                assert(side_match(r.1, r.2, blanks(pl) + c.1));
                assert(conf_matches_v(c.0, r, c));
            } else {
                let t1 = set_one_v(tv, shift);
                assert(pull_spec(t1.1) =~= tv.1.drop_last());
                let r1 = backstep_v(t1, shift, c.2)->0;
                assert(side_match(r1.1, r1.2, blanks(pl) + c.1));
                assert(side_match(r1.3, r1.4, blanks(q2) + c.3));
                assert(conf_matches_v(c.0, r1, c));
            }
        } else {
            let sr = blanks(pr) + d.3;
            assert(d.3 == c.3.push(print));
            assert(sr.drop_last() =~= blanks(pr) + c.3);
            lemma_pull_sound(tv.3, tv.4, sr);
            lemma_push_sound(tv.1, tv.2, blanks(pl) + d.1, tv.0);
            assert(d.1 == rest(c.1) && d.2 == nb(c.1));
            let q2 = lemma_put_back(pl, c.1);
            assert(side_match(push_single_spec(tv.1, tv.2, tv.0)->0, tv.2, blanks(q2) + c.1));
            let r = backstep_v(tv, shift, c.2)->0;
            assert(side_match(r.1, r.2, blanks(q2) + c.1));
            if side_match(pull_spec(tv.3), tv.4, blanks(pr) + c.3) {
                assert(side_match(r.3, r.4, blanks(pr) + c.3));
                assert(conf_matches_v(c.0, r, c));
            } else {
                let t1 = set_one_v(tv, shift);
                assert(pull_spec(t1.3) =~= tv.3.drop_last());
                let r1 = backstep_v(t1, shift, c.2)->0;
                assert(side_match(r1.3, r1.4, blanks(pr) + c.3));
                assert(side_match(r1.1, r1.2, blanks(q2) + c.1));
                assert(conf_matches_v(c.0, r1, c));
            }
        }
    }
}

/// A tape description that the start configuration (the blank tape)
/// fits is blank throughout: the backward search meets the start there.
pub proof fn lemma_blank_conf_blank(state: State, tv: TapeV)
    requires
        conf_matches_v(state, tv, crate::run::blank_conf()),
        blocks_valid(tv.1),
        blocks_valid(tv.3),
    ensures
        blank_v(tv),
{
    let c = crate::run::blank_conf();
    let pl = choose|p: nat| #[trigger] side_match(tv.1, tv.2, blanks(p) + c.1);
    let pr = choose|p: nat| #[trigger] side_match(tv.3, tv.4, blanks(p) + c.3);
    lemma_match_colors(tv.1, tv.2, blanks(pl) + c.1);
    lemma_match_colors(tv.3, tv.4, blanks(pr) + c.3);
    assert(blanks(pl) + c.1 =~= blanks(pl));
    assert(blanks(pr) + c.3 =~= blanks(pr));
    assert forall|i: int| 0 <= i < tv.1.len() implies (#[trigger] tv.1[i]).color == 0 by {
        assert(blanks(pl).contains(tv.1[i].color));
    }
    assert forall|i: int| 0 <= i < tv.3.len() implies (#[trigger] tv.3[i]).color == 0 by {
        assert(blanks(pr).contains(tv.3[i].color));
    }
}

/// A side whose cells are all blank has no nonblank cell.
proof fn lemma_all_zero(s: Seq<Color>)
    requires
        forall|i: int| 0 <= i < s.len() ==> #[trigger] s[i] == 0,
    ensures
        nonblank(s) == 0,
    decreases s.len(),
{
    if s.len() > 0 {
        assert forall|i: int| 0 <= i < s.drop_last().len() implies #[trigger] s.drop_last()[i] == 0 by {
            assert(s[i] == 0);
        }
        lemma_all_zero(s.drop_last());
        assert(s[s.len() - 1] == 0);
    }
}

} // verus!
