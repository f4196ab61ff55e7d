//! Why a simulated run on a block that has not left it after as many
//! moves as the block has configurations never leaves it.
use vstd::prelude::*;

use crate::instrs::{Color, State};
use crate::macros::{cells_value, digits_below, sim_run, sweep_left, sweep_right};
use crate::prog::Prog;
use crate::bkw::{prints_below, targets_below};
use vstd::arithmetic::power::{lemma_pow_positive, pow};
use vstd::arithmetic::div_mod::lemma_fundamental_div_mod_converse;

verus! {

/// A configuration of a simulated block run: state, cells, head position.
pub type SimCfg = (State, Seq<Color>, int);

/// One move of a simulated run from a configuration whose head is on the
/// block: `None` where the slot read is undefined.
pub open spec fn sim_move<const S: usize, const C: usize>(prog: Prog<S, C>, c: SimCfg) -> Option<SimCfg> {
    let (state, tape, pos) = c;
    let scan = tape[pos];
    match prog.instr_at(state as int, scan as int) {
        None => None,
        Some(i) => {
            let (color, shift, next) = i;
            if next != state {
                Some((next, tape.update(pos, color), if shift { pos + 1 } else { pos - 1 }))
            } else if shift {
                let (t, p) = sweep_right(tape, pos, scan, color);
                Some((state, t, p))
            } else {
                let (t, p) = sweep_left(tape, pos, scan, color);
                Some((state, t, p))
            }
        },
    }
}

/// Whether the head of a configuration is on the block.
pub open spec fn on_block(c: SimCfg) -> bool {
    0 <= c.2 < c.1.len()
}

/// The configuration after `k` moves.
pub open spec fn after<const S: usize, const C: usize>(prog: Prog<S, C>, c: SimCfg, k: nat) -> SimCfg
    decreases k,
{
    if k == 0 {
        c
    } else {
        after(prog, sim_move(prog, c)->0, (k - 1) as nat)
    }
}

/// A run with `fuel` moves from a configuration.
pub open spec fn run_from<const S: usize, const C: usize>(prog: Prog<S, C>, c: SimCfg, fuel: nat) -> Option<Option<(State, bool, Seq<Color>)>> {
    sim_run(prog, c.0, c.1, c.2, fuel)
}

/// A run that is still on the block after `i` moves: every configuration
/// up to then is on the block and moves on, and the rest of a longer run
/// is the run from where it stands.
proof fn lemma_run_prefix<const S: usize, const C: usize>(prog: Prog<S, C>, c: SimCfg, i: nat, g: nat)
    requires
        run_from(prog, c, i) is None,
    ensures
        on_block(after(prog, c, i)),
        run_from(prog, c, i + g) == run_from(prog, after(prog, c, i), g),
    decreases i,
{
    if i > 0 {
        let n = sim_move(prog, c)->0;
        assert(sim_move(prog, c) is Some);
        assert(run_from(prog, c, i) == run_from(prog, n, (i - 1) as nat));
        assert(run_from(prog, c, i + g) == run_from(prog, n, (i - 1 + g) as nat));
        lemma_run_prefix(prog, n, (i - 1) as nat, g);
    }
}

/// A run that is still on the block after `i + g` moves is after `i`.
proof fn lemma_run_shorter<const S: usize, const C: usize>(prog: Prog<S, C>, c: SimCfg, i: nat, g: nat)
    requires
        run_from(prog, c, i + g) is None,
    ensures
        run_from(prog, c, i) is None,
    decreases i,
{
    if i > 0 {
        let n = sim_move(prog, c)->0;
        assert(sim_move(prog, c) is Some);
        assert(run_from(prog, c, i + g) == run_from(prog, n, (i - 1 + g) as nat));
        lemma_run_shorter(prog, n, (i - 1) as nat, g);
    }
}

/// Whether a configuration has a state of the table and `cells` cells of
/// the table's colors.
pub open spec fn cfg_ok<const S: usize, const C: usize>(c: SimCfg, cells: nat) -> bool {
    &&& (c.0 as int) < S
    &&& c.1.len() == cells
    &&& digits_below(c.1, C as int)
}

proof fn lemma_sweep_right_ok(tape: Seq<Color>, pos: int, scan: Color, color: Color, base: int)
    requires
        digits_below(tape, base),
        (color as int) < base,
    ensures
        sweep_right(tape, pos, scan, color).0.len() == tape.len(),
        digits_below(sweep_right(tape, pos, scan, color).0, base),
    decreases tape.len() - pos,
{
    if !(pos < 0 || pos >= tape.len() || tape[pos] != scan) {
        let t = tape.update(pos, color);
        assert(digits_below(t, base));
        lemma_sweep_right_ok(t, pos + 1, scan, color, base);
    }
}

proof fn lemma_sweep_left_ok(tape: Seq<Color>, pos: int, scan: Color, color: Color, base: int)
    requires
        digits_below(tape, base),
        (color as int) < base,
    ensures
        sweep_left(tape, pos, scan, color).0.len() == tape.len(),
        digits_below(sweep_left(tape, pos, scan, color).0, base),
    decreases pos + 1,
{
    if !(pos < 0 || pos >= tape.len() || tape[pos] != scan) {
        let t = tape.update(pos, color);
        assert(digits_below(t, base));
        lemma_sweep_left_ok(t, pos - 1, scan, color, base);
    }
}

/// A move keeps the state among the table's and the cells among its
/// colors.
proof fn lemma_move_ok<const S: usize, const C: usize>(prog: Prog<S, C>, c: SimCfg, cells: nat)
    requires
        prog.inv(),
        prints_below(prog.instr_list(), C as int),
        targets_below(prog.instr_list(), S as int),
        cfg_ok::<S, C>(c, cells),
        on_block(c),
        sim_move(prog, c) is Some,
    ensures
        cfg_ok::<S, C>(sim_move(prog, c)->0, cells),
{
    let scan = c.1[c.2];
    assert((scan as int) < C);
    prog.lemma_instr_at_listed(c.0 as int, scan as int);
    let i = prog.instr_at(c.0 as int, scan as int)->0;
    let j = choose|j: int| 0 <= j < prog.instr_list().len() && #[trigger] prog.instr_list()[j] == i;
    assert(prog.instr_list()[j] == i);
    lemma_sweep_right_ok(c.1, c.2, scan, i.0, C as int);
    lemma_sweep_left_ok(c.1, c.2, scan, i.0, C as int);
    if i.2 != c.0 {
        assert(digits_below(c.1.update(c.2, i.0), C as int));
    }
}

/// Cells of the same length and value in a base are the same cells.
proof fn lemma_value_inj(t1: Seq<Color>, t2: Seq<Color>, base: int)
    requires
        2 <= base,
        t1.len() == t2.len(),
        digits_below(t1, base),
        digits_below(t2, base),
        cells_value(t1, base) == cells_value(t2, base),
    ensures
        t1 == t2,
    decreases t1.len(),
{
    if t1.len() > 0 {
        let p1 = t1.drop_last();
        let p2 = t2.drop_last();
        assert(digits_below(p1, base)) by {
            assert forall|i: int| 0 <= i < p1.len() implies (#[trigger] p1[i] as int) < base by {
                assert(p1[i] == t1[i]);
            }
        }
        assert(digits_below(p2, base)) by {
            assert forall|i: int| 0 <= i < p2.len() implies (#[trigger] p2[i] as int) < base by {
                assert(p2[i] == t2[i]);
            }
        }
        crate::macros::lemma_value_bound(p1, base);
        crate::macros::lemma_value_bound(p2, base);
        assert(t1[t1.len() - 1] == t1.last() && t2[t2.len() - 1] == t2.last());
        let v1 = cells_value(p1, base);
        let v2 = cells_value(p2, base);
        let d1 = t1.last() as int;
        let d2 = t2.last() as int;
        assert(v1 * base + d1 == v2 * base + d2);
        lemma_fundamental_div_mod_converse(v1 * base + d1, base, v1, d1);
        lemma_fundamental_div_mod_converse(v2 * base + d2, base, v2, d2);
        lemma_value_inj(p1, p2, base);
        assert(t1 =~= p1.push(t1.last()));
        assert(t2 =~= p2.push(t2.last()));
    }
}

/// The number of a configuration on a block of `cells` cells.
pub open spec fn cfg_code<const S: usize, const C: usize>(c: SimCfg, cells: nat) -> int {
    (c.2 * S + c.0) * pow(C as int, cells) + cells_value(c.1, C as int)
}

/// The configurations on a block of `cells` cells are numbered one to one
/// below `cells * S * C^cells`.
proof fn lemma_code<const S: usize, const C: usize>(c: SimCfg, d: SimCfg, cells: nat)
    requires
        2 <= C,
        cfg_ok::<S, C>(c, cells),
        cfg_ok::<S, C>(d, cells),
        on_block(c),
        on_block(d),
    ensures
        0 <= cfg_code::<S, C>(c, cells) < cells * S * pow(C as int, cells),
        cfg_code::<S, C>(c, cells) == cfg_code::<S, C>(d, cells) ==> c == d,
{
    let pw = pow(C as int, cells);
    lemma_pow_positive(C as int, cells);
    crate::macros::lemma_value_bound(c.1, C as int);
    crate::macros::lemma_value_bound(d.1, C as int);
    let a = c.2 * S + c.0;
    let b = d.2 * S + d.0;
    assert(0 <= a < cells * S) by (nonlinear_arith)
        requires
            0 <= c.2 < cells,
            0 <= c.0 < S,
            a == c.2 * S + c.0,
    ;
    assert(0 <= b < cells * S) by (nonlinear_arith)
        requires
            0 <= d.2 < cells,
            0 <= d.0 < S,
            b == d.2 * S + d.0,
    ;
    let v = cells_value(c.1, C as int);
    let w = cells_value(d.1, C as int);
    assert(0 <= a * pw + v < cells * S * pw) by (nonlinear_arith)
        requires
            0 <= a < cells * S,
            0 <= v < pw,
    ;
    if a * pw + v == b * pw + w {
        lemma_fundamental_div_mod_converse(a * pw + v, pw, a, v);
        lemma_fundamental_div_mod_converse(b * pw + w, pw, b, w);
        assert(a == b && v == w);
        lemma_fundamental_div_mod_converse(a, S as int, c.2, c.0 as int);
        lemma_fundamental_div_mod_converse(b, S as int, d.2, d.0 as int);
        lemma_value_inj(c.1, d.1, C as int);
    }
}

/// Among `n + 1` values below `n`, two are equal.
proof fn lemma_pigeon(f: spec_fn(int) -> int, n: nat) -> (ij: (int, int))
    requires
        forall|k: int| 0 <= k <= n ==> 0 <= #[trigger] f(k) < n,
    ensures
        0 <= ij.0 < ij.1 <= n,
        f(ij.0) == f(ij.1),
    decreases n,
{
    if n == 0 {
        let z: int = 0;
        assert(0 <= f(z) < n);
        (0, 0)
    } else {
        let v = f(n as int);
        if exists|k: int| 0 <= k < n && #[trigger] f(k) == v {
            let k = choose|k: int| 0 <= k < n && #[trigger] f(k) == v;
            (k, n as int)
        } else {
            let g = |k: int| if f(k) > v { f(k) - 1 } else { f(k) };
            assert forall|k: int| 0 <= k <= n - 1 implies 0 <= #[trigger] g(k) < n - 1 by {
                assert(f(k) != v);
                assert(0 <= f(k) < n);
            }
            let (i, j) = lemma_pigeon(g, (n - 1) as nat);
            assert(f(i) != v && f(j) != v);
            (i, j)
        }
    }
}

/// Every configuration a run reaches while still on the block has a
/// state of the table and cells of its colors.
proof fn lemma_after_ok<const S: usize, const C: usize>(prog: Prog<S, C>, c: SimCfg, cells: nat, k: nat)
    requires
        prog.inv(),
        prints_below(prog.instr_list(), C as int),
        targets_below(prog.instr_list(), S as int),
        cfg_ok::<S, C>(c, cells),
        run_from(prog, c, k) is None,
    ensures
        cfg_ok::<S, C>(after(prog, c, k), cells),
    decreases k,
{
    if k > 0 {
        lemma_run_prefix(prog, c, 0, k);
        let n = sim_move(prog, c)->0;
        assert(sim_move(prog, c) is Some);
        lemma_move_ok(prog, c, cells);
        assert(run_from(prog, c, k) == run_from(prog, n, (k - 1) as nat));
        lemma_after_ok(prog, n, cells, (k - 1) as nat);
    }
}

/// A run that comes back to a configuration it met never leaves the block.
proof fn lemma_cycle_forever<const S: usize, const C: usize>(prog: Prog<S, C>, c: SimCfg, n: nat, i: nat, j: nat, fuel: nat)
    requires
        i < j <= n,
        run_from(prog, c, n) is None,
        after(prog, c, i) == after(prog, c, j),
    ensures
        run_from(prog, c, fuel) is None,
    decreases fuel,
{
    if fuel <= n {
        lemma_run_shorter(prog, c, fuel, (n - fuel) as nat);
    } else {
        lemma_run_shorter(prog, c, j, (n - j) as nat);
        lemma_run_shorter(prog, c, i, (n - i) as nat);
        lemma_run_prefix(prog, c, j, (fuel - j) as nat);
        lemma_run_prefix(prog, c, i, (fuel - j) as nat);
        assert(run_from(prog, c, fuel) == run_from(prog, c, (i + (fuel - j)) as nat));
        lemma_cycle_forever(prog, c, n, i, j, (i + (fuel - j)) as nat);
    }
}

/// A simulated run on a block of `cells` cells that is still on the block
/// after `cells * S * C^cells` moves (as many as there are configurations
/// on the block) or more never leaves it, nor reaches an undefined slot,
/// however many moves it is given.
pub proof fn lemma_never_leaves<const S: usize, const C: usize>(prog: Prog<S, C>, c: SimCfg, cells: nat, lim: nat)
    requires
        prog.inv(),
        2 <= C,
        prints_below(prog.instr_list(), C as int),
        targets_below(prog.instr_list(), S as int),
        cfg_ok::<S, C>(c, cells),
        cells * S * pow(C as int, cells) <= lim,
        run_from(prog, c, lim) is None,
    ensures
        forall|fuel: nat| #[trigger] run_from(prog, c, fuel) is None,
{
    let n = (cells * S * pow(C as int, cells)) as nat;
    lemma_pow_positive(C as int, cells);
    lemma_run_shorter(prog, c, n, (lim - n) as nat);
    let f = |k: int| cfg_code::<S, C>(after(prog, c, k as nat), cells);
    assert forall|k: int| 0 <= k <= n implies 0 <= #[trigger] f(k) < n by {
        lemma_run_shorter(prog, c, k as nat, (n - k) as nat);
        lemma_run_prefix(prog, c, k as nat, 0);
        lemma_after_ok(prog, c, cells, k as nat);
        lemma_code::<S, C>(after(prog, c, k as nat), after(prog, c, k as nat), cells);
    }
    let (i, j) = lemma_pigeon(f, n);
    lemma_run_shorter(prog, c, i as nat, (n - i) as nat);
    lemma_run_prefix(prog, c, i as nat, 0);
    lemma_after_ok(prog, c, cells, i as nat);
    lemma_run_shorter(prog, c, j as nat, (n - j) as nat);
    lemma_run_prefix(prog, c, j as nat, 0);
    lemma_after_ok(prog, c, cells, j as nat);
    lemma_code::<S, C>(after(prog, c, i as nat), after(prog, c, j as nat), cells);
    assert forall|fuel: nat| #[trigger] run_from(prog, c, fuel) is None by {
        lemma_cycle_forever(prog, c, n, i as nat, j as nat, fuel);
    }
}

} // verus!
