//! Backward reasoning: from the configurations that a goal needs, search
//! for predecessors, and refute the goal where every branch dies out.
pub mod colors;
pub mod cycle;
pub mod excursions;
pub mod halfblank;
pub mod joint;
pub mod pops;
pub mod prefix;
pub mod prefixes;
pub mod sides;
pub mod sound;
pub mod tails;
pub mod tape;
pub mod windows;

use vstd::prelude::*;

use ahash::AHashSet;

use crate::hashed::{
    Entries, Entry, Entrypoints, entrypoint_contents, entrypoints_get, entrypoints_insert,
    entrypoints_new, entrypoints_remove, hasher_finish, hasher_new, hasher_write_u8,
    seen_set_contents, seen_set_insert, seen_set_new, state_set_contents, state_set_insert, state_set_new,
};
use crate::instrs::{Color, Instr, Shift, Slot, State};
use crate::prog::Prog;
use joint::BlankSidePossible;
use prefixes::SidePrefixPossible;
use tails::{ColorTailCountPossible, PairTailPresencePossible};
use sides::SidePossible;
use windows::WinPossible;
use cycle::CycleMode;
use tape::{
    BackwardResult, Block, BlockCount, Steps, Tape, TapeEnd, all_blank, any_nonblank, fresh_zero_side, nonblank_parity_of,
    pull_spec, push_single_spec, side_allowed, side_exact,
};

verus! {

/// The most predecessor branches kept at one step.
pub const MAX_STACK_DEPTH: usize = 64;

/// A backward configuration: a state and a tape description.
#[derive(Debug)]
pub struct Config {
    pub state: State,
    pub tape: Tape,
}

impl Clone for Config {
    fn clone(&self) -> (r: Self)
        ensures
            r.state == self.state,
            r.tape.same(self.tape),
    {
        Config { state: self.state, tape: self.tape.clone() }
    }
}

impl Config {
    pub fn new(state: State, tape: Tape) -> (r: Self)
        ensures
            r.state == state,
            r.tape == tape,
    {
        Config { state, tape }
    }

    /// A halt in `state` scanning `color`, all else unknown.
    pub fn init_halt(state: State, color: Color) -> (r: Self)
        ensures
            r.state == state,
            r.tape.scan == color,
            r.tape.lspan.bs().len() == 0 && r.tape.lspan.end == TapeEnd::Unknown,
            r.tape.rspan.bs().len() == 0 && r.tape.rspan.end == TapeEnd::Unknown,
            r.tape.wf(),
    {
        Self::new(state, Tape::init_halt(color))
    }

    /// A blank tape but for the scanned `color`, in `state`.
    pub fn init_blank(state: State, color: Color) -> (r: Self)
        ensures
            r.state == state,
            r.tape.scan == color,
            r.tape.lspan.bs().len() == 0 && r.tape.lspan.end == TapeEnd::Blanks,
            r.tape.rspan.bs().len() == 0 && r.tape.rspan.end == TapeEnd::Blanks,
            r.tape.wf(),
    {
        Self::new(state, Tape::init_blank(color))
    }

    /// At the blank edge of the written tape on side `shift`, in `state`.
    pub fn init_spinout(state: State, shift: Shift) -> (r: Self)
        ensures
            r.state == state,
            r.tape.scan == 0,
            r.tape.lspan.bs().len() == 0 && r.tape.rspan.bs().len() == 0,
            r.tape.lspan.end == (if shift { TapeEnd::Unknown } else { TapeEnd::Blanks }),
            r.tape.rspan.end == (if shift { TapeEnd::Blanks } else { TapeEnd::Unknown }),
            r.tape.wf(),
    {
        Self::new(state, Tape::init_spinout(shift))
    }

    /// Two known adjacent cells, in `state`.
    pub fn init_twostep(state: State, l_co: Color, r_co: Color) -> (r: Self)
        ensures
            r.state == state,
            r.tape.scan == l_co,
            r.tape.wf(),
    {
        Self::new(state, Tape::init_twostep(l_co, r_co))
    }
}

/// All tapes of a list of configurations are well formed.
pub open spec fn configs_wf(cs: Seq<Config>) -> bool {
    forall|i: int| 0 <= i < cs.len() ==> (#[trigger] cs[i]).tape.wf()
}

/// The halt configurations of a set of slots, in the set's order.
pub fn halt_configs(halt_slots: &Vec<Slot>) -> (r: Vec<Config>)
    ensures
        r@.len() == halt_slots@.len(),
        configs_wf(r@),
        forall|i: int| 0 <= i < r@.len() ==> (#[trigger] r@[i]).state == halt_slots@[i].0
            && r@[i].tape.scan == halt_slots@[i].1
            && r@[i].tape.lspan.bs().len() == 0 && r@[i].tape.lspan.end == TapeEnd::Unknown
            && r@[i].tape.rspan.bs().len() == 0 && r@[i].tape.rspan.end == TapeEnd::Unknown,
{
    let mut r: Vec<Config> = Vec::new();
    let mut i: usize = 0;
    while i < halt_slots.len()
        invariant
            i <= halt_slots@.len(),
            r@.len() == i,
            configs_wf(r@),
            forall|j: int| 0 <= j < i ==> (#[trigger] r@[j]).state == halt_slots@[j].0
                && r@[j].tape.scan == halt_slots@[j].1
                && r@[j].tape.lspan.bs().len() == 0 && r@[j].tape.lspan.end == TapeEnd::Unknown
                && r@[j].tape.rspan.bs().len() == 0 && r@[j].tape.rspan.end == TapeEnd::Unknown,
        decreases halt_slots@.len() - i,
    {
        let (state, color) = halt_slots[i];
        r.push(Config::init_halt(state, color));
        i += 1;
    }
    r
}

/// The erased-tape configurations of a set of slots.
pub fn erase_configs(erase_slots: &Vec<Slot>) -> (r: Vec<Config>)
    ensures
        r@.len() == erase_slots@.len(),
        configs_wf(r@),
        forall|i: int| 0 <= i < r@.len() ==> (#[trigger] r@[i]).state == erase_slots@[i].0
            && r@[i].tape.scan == erase_slots@[i].1
            && r@[i].tape.lspan.bs().len() == 0 && r@[i].tape.lspan.end == TapeEnd::Blanks
            && r@[i].tape.rspan.bs().len() == 0 && r@[i].tape.rspan.end == TapeEnd::Blanks,
{
    let mut r: Vec<Config> = Vec::new();
    let mut i: usize = 0;
    while i < erase_slots.len()
        invariant
            i <= erase_slots@.len(),
            r@.len() == i,
            configs_wf(r@),
            forall|j: int| 0 <= j < i ==> (#[trigger] r@[j]).state == erase_slots@[j].0
                && r@[j].tape.scan == erase_slots@[j].1
                && r@[j].tape.lspan.bs().len() == 0 && r@[j].tape.lspan.end == TapeEnd::Blanks
                && r@[j].tape.rspan.bs().len() == 0 && r@[j].tape.rspan.end == TapeEnd::Blanks,
        decreases erase_slots@.len() - i,
    {
        let (state, color) = erase_slots[i];
        r.push(Config::init_blank(state, color));
        i += 1;
    }
    r
}

/// The spinout configurations of a set of (state, side) pairs.
pub fn zr_configs(zr_shifts: &Vec<(State, Shift)>) -> (r: Vec<Config>)
    ensures
        r@.len() == zr_shifts@.len(),
        configs_wf(r@),
        forall|i: int| 0 <= i < r@.len() ==> (#[trigger] r@[i]).state == zr_shifts@[i].0
            && r@[i].tape.scan == 0
            && r@[i].tape.lspan.bs().len() == 0 && r@[i].tape.rspan.bs().len() == 0
            && r@[i].tape.lspan.end == (if zr_shifts@[i].1 { TapeEnd::Unknown } else { TapeEnd::Blanks })
            && r@[i].tape.rspan.end == (if zr_shifts@[i].1 { TapeEnd::Blanks } else { TapeEnd::Unknown }),
{
    let mut r: Vec<Config> = Vec::new();
    let mut i: usize = 0;
    while i < zr_shifts.len()
        invariant
            i <= zr_shifts@.len(),
            r@.len() == i,
            configs_wf(r@),
            forall|j: int| 0 <= j < i ==> (#[trigger] r@[j]).state == zr_shifts@[j].0
                && r@[j].tape.scan == 0
                && r@[j].tape.lspan.bs().len() == 0 && r@[j].tape.rspan.bs().len() == 0
                && r@[j].tape.lspan.end == (if zr_shifts@[j].1 { TapeEnd::Unknown } else { TapeEnd::Blanks })
                && r@[j].tape.rspan.end == (if zr_shifts@[j].1 { TapeEnd::Blanks } else { TapeEnd::Unknown }),
        decreases zr_shifts@.len() - i,
    {
        let (state, shift) = zr_shifts[i];
        r.push(Config::init_spinout(state, shift));
        i += 1;
    }
    r
}

/// The two-cell configurations of a set of (state, (left, right)) pairs.
pub fn twostep_configs(twosteps: &Vec<(State, (Color, Color))>) -> (r: Vec<Config>)
    ensures
        r@.len() == twosteps@.len(),
        configs_wf(r@),
        forall|i: int| 0 <= i < r@.len() ==> (#[trigger] r@[i]).state == twosteps@[i].0
            && r@[i].tape.scan == twosteps@[i].1.0,
{
    let mut r: Vec<Config> = Vec::new();
    let mut i: usize = 0;
    while i < twosteps.len()
        invariant
            i <= twosteps@.len(),
            r@.len() == i,
            configs_wf(r@),
            forall|j: int| 0 <= j < i ==> (#[trigger] r@[j]).state == twosteps@[j].0
                && r@[j].tape.scan == twosteps@[j].1.0,
        decreases twosteps@.len() - i,
    {
        let (state, (l_co, r_co)) = twosteps[i];
        r.push(Config::init_twostep(state, l_co, r_co));
        i += 1;
    }
    r
}

/// Whether a configuration's tape is all blank.
pub open spec fn config_blank(c: Config) -> bool {
    c.tape.scan == 0 && all_blank(c.tape.lspan.bs()) && all_blank(c.tape.rspan.bs())
}

/// The states of the configurations whose tapes are all blank.
pub fn get_blanks(configs: &Vec<Config>) -> (r: AHashSet<State>)
    ensures
        state_set_contents(&r) == Set::new(|st: State| exists|i: int| 0 <= i < configs@.len()
            && #[trigger] configs@[i].state == st && config_blank(configs@[i])),
{
    let mut r = state_set_new();
    let mut i: usize = 0;
    while i < configs.len()
        invariant
            i <= configs@.len(),
            state_set_contents(&r) == Set::new(|st: State| exists|j: int| 0 <= j < i
                && #[trigger] configs@[j].state == st && config_blank(configs@[j])),
        decreases configs@.len() - i,
    {
        if configs[i].tape.blank() {
            state_set_insert(&mut r, configs[i].state);
        }
        i += 1;
        assert(state_set_contents(&r) =~= Set::new(|st: State| exists|j: int| 0 <= j < i
            && #[trigger] configs@[j].state == st && config_blank(configs@[j])));
    }
    r
}

/// The entries for the instructions entering `t` from `t` itself
/// (`same`) or from another state, in table order.
pub open spec fn entry_list(es: Seq<(Slot, Instr)>, t: State, same: bool) -> Seq<Entry>
    decreases es.len(),
{
    if es.len() == 0 {
        Seq::empty()
    } else {
        let prev = entry_list(es.drop_last(), t, same);
        let (slot, instr) = es.last();
        if instr.2 == t && ((slot.0 == t) == same) {
            prev.push((slot, (instr.0, instr.1)))
        } else {
            prev
        }
    }
}

/// Whether some instruction enters `t`.
pub open spec fn targets(es: Seq<(Slot, Instr)>, t: State) -> bool {
    exists|i: int| 0 <= i < es.len() && (#[trigger] es[i]).1.2 == t
}

/// For each entered state, its same-state and other-state entries.
pub open spec fn entrypoint_spec(es: Seq<(Slot, Instr)>) -> Map<State, (Seq<Entry>, Seq<Entry>)> {
    Map::new(|t: State| targets(es, t), |t: State| (entry_list(es, t, true), entry_list(es, t, false)))
}

/// Every entry of an entry list comes from an instruction of the table.
pub proof fn lemma_entry_list_from(es: Seq<(Slot, Instr)>, t: State, same: bool, k: int)
    requires
        0 <= k < entry_list(es, t, same).len(),
    ensures
        exists|i: int| 0 <= i < es.len() && (#[trigger] es[i]).0 == entry_list(es, t, same)[k].0
            && es[i].1.2 == t && es[i].1.0 == entry_list(es, t, same)[k].1.0
            && es[i].1.1 == entry_list(es, t, same)[k].1.1
            && ((es[i].0.0 == t) == same),
    decreases es.len(),
{
    let prev = entry_list(es.drop_last(), t, same);
    if k < prev.len() {
        lemma_entry_list_from(es.drop_last(), t, same, k);
        let i = choose|i: int| 0 <= i < es.drop_last().len() && (#[trigger] es.drop_last()[i]).0 == entry_list(es.drop_last(), t, same)[k].0
            && es.drop_last()[i].1.2 == t && es.drop_last()[i].1.0 == entry_list(es.drop_last(), t, same)[k].1.0
            && es.drop_last()[i].1.1 == entry_list(es.drop_last(), t, same)[k].1.1
            && ((es.drop_last()[i].0.0 == t) == same);
        assert(es[i] == es.drop_last()[i]);
    } else {
        assert(es[es.len() - 1] == es.last());
    }
}

/// Whether every color printed is a color of the table.
pub open spec fn prints_below(is: Seq<Instr>, colors: int) -> bool {
    forall|i: int| 0 <= i < is.len() ==> ((#[trigger] is[i]).0 as int) < colors
}

/// Whether every state entered is a state of the table.
pub open spec fn targets_below(is: Seq<Instr>, states: int) -> bool {
    forall|i: int| 0 <= i < is.len() ==> ((#[trigger] is[i]).2 as int) < states
}

/// Whether some instruction prints `print` moving by `shift`.
pub open spec fn writes_with(es: Seq<(Slot, Instr)>, print: Color, shift: Shift) -> bool {
    exists|i: int| 0 <= i < es.len() && (#[trigger] es[i]).1.0 == print && es[i].1.1 == shift
}

/// The possible-parity masks: bit 0 even, bit 1 odd.
pub open spec fn has_even(x: u8) -> bool {
    x % 2 == 1
}

pub open spec fn has_odd(x: u8) -> bool {
    (x / 2) % 2 == 1
}

/// Every parity in mask `a` is in mask `b`.
pub open spec fn parity_sub(a: u8, b: u8) -> bool {
    (has_even(a) ==> has_even(b)) && (has_odd(a) ==> has_odd(b))
}

/// Whether a transition carries the parities of `src` into `dst`: a
/// transition that trades blank for nonblank or back swaps them.
pub open spec fn parity_moved(src: u8, dst: u8, flips: bool) -> bool {
    if flips {
        (has_even(src) ==> has_odd(dst)) && (has_odd(src) ==> has_even(dst))
    } else {
        parity_sub(src, dst)
    }
}

/// Whether a transition flips the parity of the nonblank count.
pub open spec fn flips_parity(e: (Slot, Instr)) -> bool {
    (e.0.1 == 0) != (e.1.0 == 0)
}

/// A per-state assignment of parity masks that holds the start (state 0,
/// even) and is carried along every transition.
pub open spec fn parity_closed(es: Seq<(Slot, Instr)>, v: Seq<u8>) -> bool {
    &&& v.len() > 0
    &&& has_even(v[0])
    &&& forall|i: int| 0 <= i < es.len() ==> parity_moved(
        v[(#[trigger] es[i]).0.0 as int],
        v[es[i].1.2 as int],
        flips_parity(es[i]),
    )
}

/// The nonblank-parity abstraction of runs from the blank tape: for each
/// state, which parities of the number of nonblank cells can occur.
pub struct NonblankParity {
    pub possible: Vec<u8>,
}

/// The union of two parity masks.
fn parity_union(a: u8, b: u8) -> (r: u8)
    requires
        a <= 3,
        b <= 3,
    ensures
        r <= 3,
        has_even(r) == (has_even(a) || has_even(b)),
        has_odd(r) == (has_odd(a) || has_odd(b)),
{
    let even = a % 2 == 1 || b % 2 == 1;
    let odd = (a / 2) % 2 == 1 || (b / 2) % 2 == 1;
    (if even { 1u8 } else { 0u8 }) + (if odd { 2u8 } else { 0u8 })
}

/// A parity mask with even and odd swapped.
fn parity_flip(a: u8) -> (r: u8)
    requires
        a <= 3,
    ensures
        r <= 3,
        has_even(r) == has_odd(a),
        has_odd(r) == has_even(a),
{
    (if (a / 2) % 2 == 1 { 1u8 } else { 0u8 }) + (if a % 2 == 1 { 2u8 } else { 0u8 })
}

/// Whether two parity masks share a parity.
pub fn masks_meet(a: u8, b: u8) -> (r: bool)
    ensures
        r == ((has_even(a) && has_even(b)) || (has_odd(a) && has_odd(b))),
{
    (a % 2 == 1 && b % 2 == 1) || ((a / 2) % 2 == 1 && (b / 2) % 2 == 1)
}

/// The number of parities not yet possible, over all states.
pub open spec fn parity_slack(v: Seq<u8>) -> nat
    decreases v.len(),
{
    if v.len() == 0 {
        0
    } else {
        parity_slack(v.drop_last()) + (if has_even(v.last()) { 0nat } else { 1nat }) + (if has_odd(v.last()) { 0nat } else { 1nat })
    }
}

proof fn lemma_slack_update(v: Seq<u8>, i: int, x: u8)
    requires
        0 <= i < v.len(),
        parity_sub(v[i], x),
    ensures
        parity_slack(v.update(i, x)) <= parity_slack(v),
        !parity_sub(x, v[i]) ==> parity_slack(v.update(i, x)) < parity_slack(v),
    decreases v.len(),
{
    if i < v.len() - 1 {
        lemma_slack_update(v.drop_last(), i, x);
        assert(v.update(i, x).drop_last() =~= v.drop_last().update(i, x));
    } else {
        assert(v.update(i, x).drop_last() =~= v.drop_last());
    }
}

/// Whether the parities a state can have are allowed by a tape.
pub fn nonblank_parity_possible(state: State, tape: &Tape, parity: &NonblankParity) -> (r: bool)
    requires
        (state as int) < parity.possible@.len(),
    ensures
        r == ({
            let m = parity.possible@[state as int];
            let t = if side_exact(tape.lspan.bs(), tape.lspan.end) && side_exact(tape.rspan.bs(), tape.rspan.end) {
                if ((if tape.scan != 0 { 1nat } else { 0nat }) + nonblank_parity_of(tape.lspan.bs()) + nonblank_parity_of(tape.rspan.bs())) % 2 == 0 { 1u8 } else { 2u8 }
            } else {
                3u8
            };
            (has_even(m) && has_even(t)) || (has_odd(m) && has_odd(t))
        }),
{
    masks_meet(parity.possible[state as usize], tape.nonblank_parity_mask())
}

impl<const S: usize, const C: usize> Prog<S, C> {
    /// For each entered state, the instructions entering it from itself
    /// and from other states.
    pub fn get_entrypoints(&self) -> (r: Entrypoints)
        ensures
            entrypoint_contents(&r) == entrypoint_spec(self.entries()),
    {
        let es = self.iter();
        let mut r = entrypoints_new();
        let mut k: usize = 0;
        assert(entrypoint_spec(es@.subrange(0, 0)) =~= Map::<State, (Seq<Entry>, Seq<Entry>)>::empty());
        while k < es.len()
            invariant
                k <= es@.len(),
                entrypoint_contents(&r) == entrypoint_spec(es@.subrange(0, k as int)),
            decreases es@.len() - k,
        {
            let (slot, instr) = es[k];
            let (color, shift, state) = instr;
            let (mut same, mut diff) = match entrypoints_remove(&mut r, state) {
                Some(v) => v,
                None => (Vec::new(), Vec::new()),
            };
            if slot.0 == state {
                same.push((slot, (color, shift)));
            } else {
                diff.push((slot, (color, shift)));
            }
            entrypoints_insert(&mut r, state, (same, diff));
            proof {
                let pre = es@.subrange(0, k as int);
                let post = es@.subrange(0, k + 1);
                assert(post.drop_last() =~= pre);
                assert(post.last() == es@[k as int]);
                assert forall|t: State| #![auto] t != state implies entry_list(post, t, true) == entry_list(pre, t, true)
                    && entry_list(post, t, false) == entry_list(pre, t, false) && targets(post, t) == targets(pre, t) by {
                    if targets(post, t) {
                        let i = choose|i: int| 0 <= i < post.len() && (#[trigger] post[i]).1.2 == t;
                        assert(pre[i] == post[i]);
                    }
                    if targets(pre, t) {
                        let i = choose|i: int| 0 <= i < pre.len() && (#[trigger] pre[i]).1.2 == t;
                        assert(pre[i] == post[i]);
                    }
                }
                assert(targets(post, state)) by {
                    assert(post[k as int].1.2 == state);
                }
                if !targets(pre, state) {
                    assert(entry_list(pre, state, true) =~= Seq::<Entry>::empty()) by {
                        lemma_no_target_empty(pre, state, true);
                    }
                    assert(entry_list(pre, state, false) =~= Seq::<Entry>::empty()) by {
                        lemma_no_target_empty(pre, state, false);
                    }
                }
                assert(entrypoint_contents(&r) =~= entrypoint_spec(post));
            }
            k += 1;
        }
        assert(es@.subrange(0, es@.len() as int) =~= es@);
        r
    }

    /// Whether blank is ever printed moving right, and moving left.
    pub fn blank_writes_by_shift(&self) -> (r: (bool, bool))
        ensures
            r == (writes_with(self.entries(), 0, true), writes_with(self.entries(), 0, false)),
    {
        let es = self.iter();
        let mut on_r = false;
        let mut on_l = false;
        let mut k: usize = 0;
        while k < es.len()
            invariant
                k <= es@.len(),
                es@ == self.entries(),
                on_r == writes_with(es@.subrange(0, k as int), 0, true),
                on_l == writes_with(es@.subrange(0, k as int), 0, false),
            decreases es@.len() - k,
        {
            let (_, (print, shift, _)) = es[k];
            proof {
                let pre = es@.subrange(0, k as int);
                let post = es@.subrange(0, k + 1);
                assert forall|p: Color, sh: Shift| #![auto] writes_with(post, p, sh) == (writes_with(pre, p, sh) || (es@[k as int].1.0 == p && es@[k as int].1.1 == sh)) by {
                    if writes_with(post, p, sh) {
                        let i = choose|i: int| 0 <= i < post.len() && (#[trigger] post[i]).1.0 == p && post[i].1.1 == sh;
                        if i < k {
                            assert(pre[i] == post[i]);
                        }
                    }
                    if writes_with(pre, p, sh) {
                        let i = choose|i: int| 0 <= i < pre.len() && (#[trigger] pre[i]).1.0 == p && pre[i].1.1 == sh;
                        assert(pre[i] == post[i]);
                    }
                    if es@[k as int].1.0 == p && es@[k as int].1.1 == sh {
                        assert(post[k as int] == es@[k as int]);
                    }
                }
            }
            if print == 0 {
                if shift {
                    on_r = true;
                } else {
                    on_l = true;
                }
            }
            k += 1;
        }
        assert(es@.subrange(0, es@.len() as int) =~= es@);
        (on_r, on_l)
    }

    /// The colors that shift-side analysis keeps off each side of the head:
    /// a nonblank color never printed moving right cannot be left of the
    /// head, and one never printed moving left cannot be right of it.
    pub fn shift_side_forbidden(&self) -> (r: (Vec<bool>, Vec<bool>))
        requires
            prints_below(self.instr_list(), C as int),
        ensures
            r.0@.len() == C,
            r.1@.len() == C,
            forall|k: int| 0 <= k < C ==> r.0@[k] == (k != 0 && !writes_with(self.entries(), k as u8, true)),
            forall|k: int| 0 <= k < C ==> r.1@[k] == (k != 0 && !writes_with(self.entries(), k as u8, false)),
    {
        let es = self.iter();
        proof {
            lemma_entries_instrs(*self);
            use_type_invariant(self);
        }
        let mut left_writes: Vec<bool> = Vec::new();
        let mut right_writes: Vec<bool> = Vec::new();
        let mut k: usize = 0;
        while k < C
            invariant
                k <= C,
                left_writes@.len() == k,
                right_writes@.len() == k,
                forall|j: int| 0 <= j < k ==> !left_writes@[j] && !right_writes@[j],
            decreases C - k,
        {
            left_writes.push(false);
            right_writes.push(false);
            k += 1;
        }
        let mut i: usize = 0;
        while i < es.len()
            invariant
                i <= es@.len(),
                es@ == self.entries(),
                C <= 256,
                forall|j: int| 0 <= j < es@.len() ==> ((#[trigger] es@[j]).1.0 as int) < C,
                left_writes@.len() == C,
                right_writes@.len() == C,
                forall|c: int| 0 <= c < C ==> left_writes@[c] == writes_with(es@.subrange(0, i as int), c as u8, false),
                forall|c: int| 0 <= c < C ==> right_writes@[c] == writes_with(es@.subrange(0, i as int), c as u8, true),
            decreases es@.len() - i,
        {
            let (_, (print, shift, _)) = es[i];
            proof {
                let pre = es@.subrange(0, i as int);
                let post = es@.subrange(0, i + 1);
                assert forall|p: Color, sh: Shift| #![auto] writes_with(post, p, sh) == (writes_with(pre, p, sh) || (es@[i as int].1.0 == p && es@[i as int].1.1 == sh)) by {
                    if writes_with(post, p, sh) {
                        let j = choose|j: int| 0 <= j < post.len() && (#[trigger] post[j]).1.0 == p && post[j].1.1 == sh;
                        if j < i {
                            assert(pre[j] == post[j]);
                        }
                    }
                    if writes_with(pre, p, sh) {
                        let j = choose|j: int| 0 <= j < pre.len() && (#[trigger] pre[j]).1.0 == p && pre[j].1.1 == sh;
                        assert(pre[j] == post[j]);
                    }
                    if es@[i as int].1.0 == p && es@[i as int].1.1 == sh {
                        assert(post[i as int] == es@[i as int]);
                    }
                }
            }
            if shift {
                right_writes.set(print as usize, true);
            } else {
                left_writes.set(print as usize, true);
            }
            i += 1;
        }
        assert(es@.subrange(0, es@.len() as int) =~= es@);
        let mut forbid_left: Vec<bool> = Vec::new();
        let mut forbid_right: Vec<bool> = Vec::new();
        let mut c: usize = 0;
        while c < C
            invariant
                c <= C,
                C <= 256,
                es@ == self.entries(),
                left_writes@.len() == C,
                right_writes@.len() == C,
                forall|j: int| 0 <= j < C ==> left_writes@[j] == writes_with(es@, j as u8, false),
                forall|j: int| 0 <= j < C ==> right_writes@[j] == writes_with(es@, j as u8, true),
                forbid_left@.len() == c,
                forbid_right@.len() == c,
                forall|k: int| 0 <= k < c ==> forbid_left@[k] == (k != 0 && !writes_with(es@, k as u8, true)),
                forall|k: int| 0 <= k < c ==> forbid_right@[k] == (k != 0 && !writes_with(es@, k as u8, false)),
            decreases C - c,
        {
            forbid_left.push(c != 0 && !right_writes[c]);
            forbid_right.push(c != 0 && !left_writes[c]);
            c += 1;
        }
        (forbid_left, forbid_right)
    }
}

/// With no entry entering `t`, its entry lists are empty.
proof fn lemma_no_target_empty(es: Seq<(Slot, Instr)>, t: State, same: bool)
    requires
        !targets(es, t),
    ensures
        entry_list(es, t, same).len() == 0,
    decreases es.len(),
{
    if es.len() > 0 {
        assert(!targets(es.drop_last(), t)) by {
            if targets(es.drop_last(), t) {
                let i = choose|i: int| 0 <= i < es.drop_last().len() && (#[trigger] es.drop_last()[i]).1.2 == t;
                assert(es[i] == es.drop_last()[i]);
            }
        }
        lemma_no_target_empty(es.drop_last(), t, same);
        assert(es[es.len() - 1].1.2 != t);
    }
}

/// The instructions of the entries are the instruction list.
pub proof fn lemma_entries_instrs<const S: usize, const C: usize>(p: Prog<S, C>)
    ensures
        p.entries().len() == p.instr_list().len(),
        forall|i: int| 0 <= i < p.entries().len() ==> (#[trigger] p.entries()[i]).1 == p.instr_list()[i],
{
    lemma_entries_instrs_upto(p@, C as int, p@.len() as int);
}

proof fn lemma_entries_instrs_upto(t: Seq<Option<Instr>>, colors: int, n: int)
    ensures
        crate::prog::entries_upto(t, colors, n).len() == crate::prog::instrs_upto(t, n).len(),
        forall|i: int| 0 <= i < crate::prog::entries_upto(t, colors, n).len() ==> (#[trigger] crate::prog::entries_upto(t, colors, n)[i]).1 == crate::prog::instrs_upto(t, n)[i],
    decreases n,
{
    if n > 0 {
        lemma_entries_instrs_upto(t, colors, n - 1);
    }
}

/// The slots of the entries lie inside the table.
pub proof fn lemma_entry_slots<const S: usize, const C: usize>(p: Prog<S, C>)
    requires
        p.inv(),
    ensures
        forall|i: int| 0 <= i < p.entries().len() ==> ((#[trigger] p.entries()[i]).0.0 as int) < S
            && (p.entries()[i].0.1 as int) < C,
{
    lemma_entry_slots_upto(p@, S as int, C as int, p@.len() as int);
}

proof fn lemma_entry_slots_upto(t: Seq<Option<Instr>>, states: int, colors: int, n: int)
    requires
        0 <= states <= 256,
        0 <= colors <= 256,
        n <= states * colors,
    ensures
        forall|i: int| 0 <= i < crate::prog::entries_upto(t, colors, n).len() ==> ((#[trigger] crate::prog::entries_upto(t, colors, n)[i]).0.0 as int) < states
            && (crate::prog::entries_upto(t, colors, n)[i].0.1 as int) < colors,
    decreases n,
{
    if n > 0 {
        lemma_entry_slots_upto(t, states, colors, n - 1);
        let k = n - 1;
        assert(colors > 0) by (nonlinear_arith)
            requires n <= states * colors, n > 0, 0 <= states, 0 <= colors;
        assert(k / colors < states) by (nonlinear_arith)
            requires 0 <= k < states * colors, colors > 0;
        assert(0 <= k / colors) by (nonlinear_arith)
            requires 0 <= k, colors > 0;
        assert(0 <= k % colors < colors) by (nonlinear_arith)
            requires colors > 0;
        let prev = crate::prog::entries_upto(t, colors, n - 1);
        let cur = crate::prog::entries_upto(t, colors, n);
        assert forall|i: int| 0 <= i < cur.len() implies ((#[trigger] cur[i]).0.0 as int) < states && (cur[i].0.1 as int) < colors by {
            if i < prev.len() {
                assert(cur[i] == prev[i]);
            }
        }
    }
}

impl<const S: usize, const C: usize> Prog<S, C> {
    /// For each state, the parities of the number of nonblank cells that
    /// can occur in it on runs from the blank tape (bit 0 even, bit 1 odd):
    /// the least assignment that holds the start and is carried along every
    /// transition, a transition that trades blank for nonblank or back
    /// swapping the parities.
    pub fn nonblank_parity_from_blank(&self) -> (r: NonblankParity)
        requires
            S >= 1,
            targets_below(self.instr_list(), S as int),
        ensures
            r.possible@.len() == S,
            forall|i: int| 0 <= i < S ==> r.possible@[i] <= 3,
            parity_closed(self.entries(), r.possible@),
            forall|w: Seq<u8>| w.len() == S && #[trigger] parity_closed(self.entries(), w) ==> forall|i: int|
                0 <= i < S ==> parity_sub(r.possible@[i], w[i]),
    {
        let es = self.iter();
        proof {
            use_type_invariant(self);
            lemma_entries_instrs(*self);
            lemma_entry_slots(*self);
        }
        let mut possible: Vec<u8> = Vec::new();
        let mut i: usize = 0;
        while i < S
            invariant
                i <= S,
                possible@.len() == i,
                forall|j: int| 0 <= j < i ==> possible@[j] == 0,
            decreases S - i,
        {
            possible.push(0);
            i += 1;
        }
        possible.set(0, 1);
        let mut done = false;
        while !done
            invariant
                S >= 1,
                es@ == self.entries(),
                forall|j: int| 0 <= j < es@.len() ==> ((#[trigger] es@[j]).0.0 as int) < S && (es@[j].1.2 as int) < S,
                possible@.len() == S,
                forall|j: int| 0 <= j < S ==> possible@[j] <= 3,
                has_even(possible@[0]),
                forall|w: Seq<u8>| w.len() == S && #[trigger] parity_closed(es@, w) ==> forall|j: int|
                    0 <= j < S ==> parity_sub(possible@[j], w[j]),
                done ==> parity_closed(es@, possible@),
            decreases parity_slack(possible@) + (if done { 0nat } else { 1nat }),
        {
            let ghost start = possible@;
            let mut changed = false;
            let mut k: usize = 0;
            while k < es.len()
                invariant
                    S >= 1,
                    es@ == self.entries(),
                    forall|j: int| 0 <= j < es@.len() ==> ((#[trigger] es@[j]).0.0 as int) < S && (es@[j].1.2 as int) < S,
                    k <= es@.len(),
                    possible@.len() == S,
                    forall|j: int| 0 <= j < S ==> possible@[j] <= 3,
                    has_even(possible@[0]),
                    forall|w: Seq<u8>| w.len() == S && #[trigger] parity_closed(es@, w) ==> forall|j: int|
                        0 <= j < S ==> parity_sub(possible@[j], w[j]),
                    parity_slack(possible@) <= parity_slack(start),
                    changed ==> parity_slack(possible@) < parity_slack(start),
                    !changed ==> possible@ == start,
                    !changed ==> forall|j: int| 0 <= j < k ==> parity_moved(
                        possible@[(#[trigger] es@[j]).0.0 as int], possible@[es@[j].1.2 as int], flips_parity(es@[j])),
                decreases es@.len() - k,
            {
                let ((state, read), (print, _, next_state)) = es[k];
                let st = state as usize;
                let nx = next_state as usize;
                let source = possible[st];
                let flips = (read == 0) != (print == 0);
                let reached = if flips { parity_flip(source) } else { source };
                let old = possible[nx];
                let new = parity_union(old, reached);
                let ghost before = possible@;
                possible.set(nx, new);
                proof {
                    lemma_slack_update(before, nx as int, new);
                    assert forall|w: Seq<u8>| w.len() == S && #[trigger] parity_closed(es@, w) implies forall|j: int|
                        0 <= j < S ==> parity_sub(possible@[j], w[j]) by {
                        assert(parity_moved(w[es@[k as int].0.0 as int], w[es@[k as int].1.2 as int], flips_parity(es@[k as int])));
                        assert(parity_sub(before[st as int], w[st as int]));
                        assert(parity_sub(before[nx as int], w[nx as int]));
                    }
                }
                if new != old {
                    changed = true;
                    proof {
                        assert(!parity_sub(new, old));
                    }
                } else {
                    assert(possible@ =~= before);
                }
                k += 1;
            }
            if !changed {
                done = true;
            }
        }
        NonblankParity { possible }
    }

    /// Whether the machine is reversible: for every entered state, all
    /// instructions entering it move the same way and print different
    /// colors.
    pub fn is_reversible(&self) -> (r: bool)
        requires
            prints_below(self.instr_list(), C as int),
        ensures
            r == forall|t: State| #[trigger] entrypoint_spec(self.entries()).dom().contains(t) ==> reversible_list(
                entrypoint_spec(self.entries())[t].0 + entrypoint_spec(self.entries())[t].1,
            ),
    {
        proof {
            lemma_entries_instrs(*self);
            use_type_invariant(self);
        }
        let eps = self.get_entrypoints();
        let ghost m = entrypoint_spec(self.entries());
        let mut t: u16 = 0;
        while t < 256
            invariant
                t <= 256,
                C <= 256,
                m == entrypoint_spec(self.entries()),
                entrypoint_contents(&eps) == m,
                prints_below(self.instr_list(), C as int),
                self.entries().len() == self.instr_list().len(),
                forall|i: int| 0 <= i < self.entries().len() ==> (#[trigger] self.entries()[i]).1 == self.instr_list()[i],
                forall|u: State| (u as int) < t && #[trigger] m.dom().contains(u) ==> reversible_list(m[u].0 + m[u].1),
            decreases 256 - t,
        {
            if let Some(v) = entrypoints_get(&eps, t as u8) {
                let mut l: Vec<Entry> = Vec::new();
                append_entries(&mut l, &v.0);
                append_entries(&mut l, &v.1);
                proof {
                    assert(l@ =~= m[t as u8].0 + m[t as u8].1);
                    let es = self.entries();
                    assert forall|k: int| 0 <= k < l@.len() implies ((#[trigger] l@[k]).1.0 as int) < C by {
                        if k < m[t as u8].0.len() {
                            lemma_entry_list_from(es, t as u8, true, k);
                        } else {
                            lemma_entry_list_from(es, t as u8, false, k - m[t as u8].0.len());
                        }
                    }
                }
                if !list_reversible::<C>(&l) {
                    return false;
                }
            }
            t += 1;
        }
        true
    }
}

/// Whether a list of entries moves one way and prints distinct colors.
pub open spec fn reversible_list(l: Seq<Entry>) -> bool {
    &&& forall|i: int, j: int| 0 <= i < l.len() && 0 <= j < l.len() ==> (#[trigger] l[i]).1.1 == (#[trigger] l[j]).1.1
    &&& forall|i: int, j: int| 0 <= i < j < l.len() ==> (#[trigger] l[i]).1.0 != (#[trigger] l[j]).1.0
}

/// Appends entries to a list.
fn append_entries(l: &mut Vec<Entry>, more: &Vec<Entry>)
    ensures
        final(l)@ == old(l)@ + more@,
{
    let mut i: usize = 0;
    while i < more.len()
        invariant
            i <= more@.len(),
            l@ == old(l)@ + more@.subrange(0, i as int),
        decreases more@.len() - i,
    {
        l.push(more[i]);
        i += 1;
        assert(l@ =~= old(l)@ + more@.subrange(0, i as int));
    }
    assert(more@.subrange(0, more@.len() as int) =~= more@);
}

/// Whether a list of entries moves one way and prints distinct colors.
fn list_reversible<const C: usize>(l: &Vec<Entry>) -> (r: bool)
    requires
        C <= 256,
        forall|k: int| 0 <= k < l@.len() ==> ((#[trigger] l@[k]).1.0 as int) < C,
    ensures
        r == reversible_list(l@),
{
    let mut seen_print: Vec<bool> = Vec::new();
    let mut c: usize = 0;
    while c < C
        invariant
            c <= C,
            seen_print@.len() == c,
            forall|j: int| 0 <= j < c ==> !seen_print@[j],
        decreases C - c,
    {
        seen_print.push(false);
        c += 1;
    }
    let mut shift: Option<Shift> = None;
    let mut i: usize = 0;
    while i < l.len()
        invariant
            i <= l@.len(),
            seen_print@.len() == C,
            forall|k: int| 0 <= k < l@.len() ==> ((#[trigger] l@[k]).1.0 as int) < C,
            shift is None <==> i == 0,
            shift matches Some(sh) ==> forall|k: int| 0 <= k < i ==> (#[trigger] l@[k]).1.1 == sh,
            forall|a: int, b: int| 0 <= a < b < i ==> (#[trigger] l@[a]).1.0 != (#[trigger] l@[b]).1.0,
            forall|p: int| 0 <= p < C ==> seen_print@[p] == exists|k: int| 0 <= k < i && (#[trigger] l@[k]).1.0 as int == p,
        decreases l@.len() - i,
    {
        let (_, (print, sh)) = l[i];
        match shift {
            Some(prev) => {
                if prev != sh {
                    assert(l@[0].1.1 != l@[i as int].1.1);
                    return false;
                }
            },
            None => {
                shift = Some(sh);
            },
        }
        let p = print as usize;
        if seen_print[p] {
            let ghost k = choose|k: int| 0 <= k < i && (#[trigger] l@[k]).1.0 as int == p;
            assert(l@[k].1.0 == l@[i as int].1.0);
            return false;
        }
        seen_print.set(p, true);
        i += 1;
        proof {
            assert forall|q: int| 0 <= q < C implies seen_print@[q] == exists|k: int| 0 <= k < i && (#[trigger] l@[k]).1.0 as int == q by {
                if q == p {
                    assert(l@[i - 1].1.0 as int == q);
                } else {
                    if exists|k: int| 0 <= k < i && (#[trigger] l@[k]).1.0 as int == q {
                        let k = choose|k: int| 0 <= k < i && (#[trigger] l@[k]).1.0 as int == q;
                        assert(k < i - 1);
                    }
                }
            }
        }
    }
    true
}

/// Whether every entry of an entrypoint map comes from a state of the
/// table that is the start state or is itself entered.
pub open spec fn entries_ok(m: Map<State, (Seq<Entry>, Seq<Entry>)>, states: int) -> bool {
    forall|t: State, k: int, same: bool| #![trigger m[t], choose_list(m[t], same)[k]]
        m.dom().contains(t) && 0 <= k < choose_list(m[t], same).len() ==> {
            let e = choose_list(m[t], same)[k];
            (e.0.0 as int) < states
        }
}

/// One of the two lists of an entrypoint pair.
pub open spec fn choose_list(v: (Seq<Entry>, Seq<Entry>), same: bool) -> Seq<Entry> {
    if same { v.0 } else { v.1 }
}

/// Whether a configuration's state is a state of the table. A state that
/// no instruction of the entry map `m` enters has no predecessor, and the
/// search passes over it.
pub open spec fn state_ok(m: Map<State, (Seq<Entry>, Seq<Entry>)>, states: int, st: State) -> bool {
    (st as int) < states
}

/// The bytes fed to the hasher for a tape description.
fn hash_tape(tape: &Tape) -> u64 {
    let mut h = hasher_new();
    hasher_write_u8(&mut h, tape.scan);
    hash_span(&mut h, &tape.lspan);
    hash_span(&mut h, &tape.rspan);
    hasher_finish(&h)
}

/// Feeds a span to the hasher: its end, then each run.
fn hash_span(h: &mut ahash::AHasher, span: &tape::Span) {
    hasher_write_u8(h, if span.end == TapeEnd::Blanks { 0 } else { 1 });
    let mut i: usize = 0;
    while i < span.span.blocks.len()
        decreases span.span.blocks@.len() - i,
    {
        let b = span.span.blocks[i];
        hasher_write_u8(h, b.color);
        match b.count {
            BlockCount::Exact(n) => {
                hasher_write_u8(h, 0);
                hasher_write_u8(h, n);
            },
            BlockCount::AtLeast(n) => {
                hasher_write_u8(h, 1);
                hasher_write_u8(h, n);
            },
        }
        i += 1;
    }
}

/// A configuration with the instructions by which it can have been
/// reached.
pub type ValidatedStep = (Vec<Instr>, Config);

/// Whether a predecessor instruction is justified by an entry of `t`: it
/// comes from the entry's slot, moved by its shift, and the tape can hold
/// the color it printed.
pub open spec fn justified(m: Map<State, (Seq<Entry>, Seq<Entry>)>, t: State, instr: Instr) -> bool {
    exists|same: bool, k: int| 0 <= k < choose_list(m[t], same).len()
        && (#[trigger] choose_list(m[t], same)[k]).0 == (instr.2, instr.0)
        && choose_list(m[t], same)[k].1.1 == instr.1
}

/// The facts a validated step carries.
pub open spec fn step_ok(m: Map<State, (Seq<Entry>, Seq<Entry>)>, states: int, v: (Vec<Instr>, Config)) -> bool {
    &&& v.1.tape.wf()
    &&& m.dom().contains(v.1.state)
    &&& (v.1.state as int) < states
    &&& v.0@.len() > 0
    &&& forall|j: int| 0 <= j < v.0@.len() ==> justified(m, v.1.state, #[trigger] v.0@[j]) && state_ok(m, states, v.0@[j].2)
}

/// The two sides of a tape description: left runs and end, right runs and
/// end.
pub type SidesV = (Seq<Block>, TapeEnd, Seq<Block>, TapeEnd);

/// A step back as values: its instructions, and the state, scanned color
/// and sides of the configuration.
pub type StepV = (Seq<Instr>, State, Color, SidesV);

pub open spec fn sides_of(tape: Tape) -> SidesV {
    (tape.lspan.bs(), tape.lspan.end, tape.rspan.bs(), tape.rspan.end)
}

pub open spec fn step_view(v: ValidatedStep) -> StepV {
    (v.0@, v.1.state, v.1.tape.scan, sides_of(v.1.tape))
}

/// Whether a step printing `print` and moving by `shift` can have entered
/// a tape with these sides: the cell it left holds `print`.
pub open spec fn step_fits(sd: SidesV, shift: Shift, print: Color) -> bool {
    if shift {
        if sd.0.len() > 0 { sd.0.last().color == print } else { sd.1 == TapeEnd::Unknown || print == 0 }
    } else {
        if sd.2.len() > 0 { sd.2.last().color == print } else { sd.3 == TapeEnd::Unknown || print == 0 }
    }
}

/// Whether an entry is the one to skip.
pub open spec fn skipped(skip: Option<(Shift, Color)>, shift: Shift, color: Color) -> bool {
    match skip {
        Some((sh, co)) => sh == shift && co == color,
        None => false,
    }
}

/// The instructions, in the order of the entries, by which a tape with
/// these sides can be entered, leaving out the entry `skip`.
pub open spec fn valid_list(sd: SidesV, es: Seq<Entry>, skip: Option<(Shift, Color)>) -> Seq<Instr>
    decreases es.len(),
{
    if es.len() == 0 {
        Seq::empty()
    } else {
        let prev = valid_list(sd, es.drop_last(), skip);
        let e = es.last();
        if !skipped(skip, e.1.1, e.0.1) && step_fits(sd, e.1.1, e.1.0) {
            prev.push((e.0.1, e.1.1, e.0.0))
        } else {
            prev
        }
    }
}

/// The sides after an indefinite run is pushed on side `push` (right when
/// true), its runs then being `bs`.
pub open spec fn widened(sd: SidesV, push: Shift, bs: Seq<Block>) -> SidesV {
    if push { (sd.0, sd.1, bs, sd.3) } else { (bs, sd.1, sd.2, sd.3) }
}

/// The indefinite-run branch of a configuration: `None` where the run
/// does not fit a count, `Some(None)` where it changes nothing or no entry
/// enters the widened tape.
pub open spec fn indef_spec(state: State, scan: Color, sd: SidesV, push: Shift, same: Seq<Entry>, diff: Seq<Entry>) -> Option<Option<StepV>> {
    let (bs0, end0) = if push { (sd.2, sd.3) } else { (sd.0, sd.1) };
    match tape::push_indef_spec(bs0, end0, scan) {
        None => None,
        Some(bs) => {
            let w = widened(sd, push, bs);
            let steps = valid_list(w, diff, None) + valid_list(w, same, Some((push, scan)));
            if w == sd || steps.len() == 0 {
                Some(None)
            } else {
                Some(Some((steps, state, scan, w)))
            }
        },
    }
}

/// Whether a same-state step by `shift` out of a tape is a spinout: the
/// tape reads `color` and has no runs on the side moved away from.
pub open spec fn spins(scan: Color, sd: SidesV, shift: Shift, color: Color) -> bool {
    scan == color && if shift { sd.0.len() == 0 } else { sd.2.len() == 0 }
}

/// The first `k` same-state entries of a configuration: the instructions
/// that enter it directly, and the indefinite-run branches; `None` where a
/// branch does not fit a count.
pub open spec fn same_pass(state: State, scan: Color, sd: SidesV, same: Seq<Entry>, diff: Seq<Entry>, k: nat) -> Option<(Seq<Instr>, Seq<StepV>)>
    decreases k,
{
    if k == 0 {
        Some((Seq::empty(), Seq::empty()))
    } else {
        match same_pass(state, scan, sd, same, diff, (k - 1) as nat) {
            None => None,
            Some((is, ins)) => {
                let e = same[k - 1];
                let (color, print, shift, st) = (e.0.1, e.1.0, e.1.1, e.0.0);
                if !step_fits(sd, shift, print) {
                    Some((is, ins))
                } else if !spins(scan, sd, shift, color) {
                    Some((is.push((color, shift, st)), ins))
                } else {
                    match indef_spec(state, scan, sd, shift, same, diff) {
                        None => None,
                        Some(None) => Some((is, ins)),
                        Some(Some(v)) => Some((is, ins.push(v))),
                    }
                }
            },
        }
    }
}

/// The steps back from one configuration (state, scanned color, sides),
/// given the entry lists of the states: its indefinite-run branches, then
/// itself with the instructions that enter it, where there are any.
pub open spec fn config_steps(m: Map<State, (Seq<Entry>, Seq<Entry>)>, state: State, scan: Color, sd: SidesV) -> Option<Seq<StepV>> {
    if !m.dom().contains(state) {
        Some(Seq::empty())
    } else {
        let (same, diff) = m[state];
        match same_pass(state, scan, sd, same, diff, same.len()) {
            None => None,
            Some((is, ins)) => {
                let steps = valid_list(sd, diff, None) + is;
                Some(if steps.len() > 0 { ins.push((steps, state, scan, sd)) } else { ins })
            },
        }
    }
}

/// The steps back from the first `n` configurations, in order; `None`
/// where some branch does not fit a count.
pub open spec fn all_steps(m: Map<State, (Seq<Entry>, Seq<Entry>)>, cs: Seq<Config>, n: nat) -> Option<Seq<StepV>>
    decreases n,
{
    if n == 0 {
        Some(Seq::empty())
    } else {
        match all_steps(m, cs, (n - 1) as nat) {
            None => None,
            Some(acc) => {
                let c = cs[n - 1];
                match config_steps(m, c.state, c.tape.scan, sides_of(c.tape)) {
                    None => None,
                    Some(x) => Some(acc + x),
                }
            },
        }
    }
}

/// The instructions by which a tape can be entered from the entries of a
/// state, skipping the entry `skip` when given (a same-state spinout
/// replaced by an indefinite run).
fn valid_instrs(
    tape: &Tape,
    t: State,
    entries: &Entries,
    skip: Option<(Shift, Color)>,
    out: &mut Vec<Instr>,
    same: bool,
    Ghost(m): Ghost<Map<State, (Seq<Entry>, Seq<Entry>)>>,
    Ghost(states): Ghost<int>,
)
    requires
        m.dom().contains(t),
        entries@ == choose_list(m[t], same),
        entries_ok(m, states),
        forall|j: int| 0 <= j < old(out)@.len() ==> justified(m, t, #[trigger] old(out)@[j]) && state_ok(m, states, old(out)@[j].2),
    ensures
        final(out)@.len() >= old(out)@.len(),
        final(out)@ == old(out)@ + valid_list(sides_of(*tape), entries@, skip),
        forall|j: int| 0 <= j < final(out)@.len() ==> justified(m, t, #[trigger] final(out)@[j]) && state_ok(m, states, final(out)@[j].2),
{
    let mut i: usize = 0;
    while i < entries.len()
        invariant
            i <= entries@.len(),
            m.dom().contains(t),
            entries@ == choose_list(m[t], same),
            entries_ok(m, states),
            out@.len() >= old(out)@.len(),
            out@ == old(out)@ + valid_list(sides_of(*tape), entries@.subrange(0, i as int), skip),
            forall|j: int| 0 <= j < out@.len() ==> justified(m, t, #[trigger] out@[j]) && state_ok(m, states, out@[j].2),
        decreases entries@.len() - i,
    {
        let ((st, color), (print, shift)) = entries[i];
        let skipped = match skip {
            Some((sh, co)) => sh == shift && co == color,
            None => false,
        };
        proof {
            assert(entries@.subrange(0, i + 1).drop_last() =~= entries@.subrange(0, i as int));
            assert(entries@.subrange(0, i + 1).last() == entries@[i as int]);
        }
        let ghost out0 = out@;
        if !skipped && tape.is_valid_step(shift, print) {
            proof {
                assert(choose_list(m[t], same)[i as int] == entries@[i as int]);
                assert(justified(m, t, (color, shift, st)));
            }
            out.push((color, shift, st));
        }
        assert(out@ =~= old(out)@ + valid_list(sides_of(*tape), entries@.subrange(0, i + 1), skip));
        i += 1;
    }
    assert(entries@.subrange(0, entries@.len() as int) =~= entries@);
}

/// Whether the entry lists of a state, same-state then other-state, hold
/// an entry by which the state can be entered with `instr`.
pub open spec fn entered_by(lists: (Seq<Entry>, Seq<Entry>), instr: Instr) -> bool {
    exists|same: bool, k: int| 0 <= k < choose_list(lists, same).len()
        && (#[trigger] choose_list(lists, same)[k]).0 == (instr.2, instr.0)
        && choose_list(lists, same)[k].1.1 == instr.1
}

/// The branch where a same-state step came out of an indefinite run: the
/// scanned color extends on side `push` as a run of unknown length. The
/// instructions of the branch are those of `same` and `diff` (the state's
/// same-state and other-state entries) that can have entered the widened
/// tape.
pub fn get_indef(
    push: Shift,
    config: &Config,
    diff: &Entries,
    same: &Entries,
) -> (r: Result<Option<ValidatedStep>, BackwardResult>)
    requires
        config.tape.wf(),
    ensures
        r matches Err(e) ==> e == BackwardResult::CountLimit,
        r matches Ok(Some(v)) ==> {
            &&& v.1.tape.wf()
            &&& v.1.state == config.state
            &&& v.0@.len() > 0
            &&& forall|j: int| 0 <= j < v.0@.len() ==> entered_by((same@, diff@), #[trigger] v.0@[j])
        },
        match indef_spec(config.state, config.tape.scan, sides_of(config.tape), push, same@, diff@) {
            None => r == Err::<Option<ValidatedStep>, BackwardResult>(BackwardResult::CountLimit),
            Some(None) => r == Ok::<Option<ValidatedStep>, BackwardResult>(None),
            Some(Some(sv)) => r matches Ok(Some(v)) && step_view(v) == sv,
        },
{
    let ghost lists = (same@, diff@);
    let ghost m = Map::new(|t: State| true, |t: State| if t == config.state { lists } else { (Seq::<Entry>::empty(), Seq::<Entry>::empty()) });
    proof {
        assert(m.dom().contains(config.state));
        assert(m[config.state] == lists);
        assert forall|t: State, k: int, sm: bool| #![trigger m[t], choose_list(m[t], sm)[k]]
            m.dom().contains(t) && 0 <= k < choose_list(m[t], sm).len() implies {
                let e = choose_list(m[t], sm)[k];
                &&& (e.0.0 as int) < 256
                &&& (e.0.0 == 0 || m.dom().contains(e.0.0))
            } by {
            let e = choose_list(m[t], sm)[k];
            assert(m.dom().contains(e.0.0));
        }
        assert(entries_ok(m, 256));
    }
    let mut tape = config.tape.clone();
    let pushed = tape.push_indef(push);
    let ghost sd = sides_of(config.tape);
    if pushed.is_err() {
        return Err(BackwardResult::CountLimit);
    }
    let ghost w = sides_of(tape);
    proof {
        let (bs0, end0) = if push { (sd.2, sd.3) } else { (sd.0, sd.1) };
        let bs = tape::push_indef_spec(bs0, end0, config.tape.scan)->0;
        assert(w == widened(sd, push, bs));
    }
    if tape.equals(&config.tape) {
        return Ok(None);
    }
    let mut steps: Vec<Instr> = Vec::new();
    valid_instrs(&tape, config.state, diff, None, &mut steps, false, Ghost(m), Ghost(256));
    valid_instrs(&tape, config.state, same, Some((push, config.tape.scan)), &mut steps, true, Ghost(m), Ghost(256));
    assert(steps@ =~= valid_list(w, diff@, None) + valid_list(w, same@, Some((push, config.tape.scan))));
    if steps.len() == 0 {
        return Ok(None);
    }
    proof {
        assert forall|j: int| 0 <= j < steps@.len() implies entered_by(lists, #[trigger] steps@[j]) by {
            assert(justified(m, config.state, steps@[j]));
        }
    }
    Ok(Some((steps, Config::new(config.state, tape))))
}

proof fn lemma_same_pass_none(state: State, scan: Color, sd: SidesV, same: Seq<Entry>, diff: Seq<Entry>, k: nat, n: nat)
    requires
        k <= n,
        same_pass(state, scan, sd, same, diff, k) is None,
    ensures
        same_pass(state, scan, sd, same, diff, n) is None,
    decreases n - k,
{
    if k < n {
        lemma_same_pass_none(state, scan, sd, same, diff, k, (n - 1) as nat);
    }
}

proof fn lemma_all_steps_none(m: Map<State, (Seq<Entry>, Seq<Entry>)>, cs: Seq<Config>, k: nat, n: nat)
    requires
        k <= n,
        all_steps(m, cs, k) is None,
    ensures
        all_steps(m, cs, n) is None,
    decreases n - k,
{
    if k < n {
        lemma_all_steps_none(m, cs, k, (n - 1) as nat);
    }
}

/// The configurations that can be stepped back from, each with the
/// instructions by which it can have been entered; same-state steps out
/// of a spinout become an indefinite-run branch of their own.
#[verifier::rlimit(100)]
pub fn get_valid_steps(
    configs: Vec<Config>,
    entrypoints: &Entrypoints,
    Ghost(states): Ghost<int>,
) -> (r: Result<Vec<ValidatedStep>, BackwardResult>)
    requires
        configs_wf(configs@),
        entries_ok(entrypoint_contents(entrypoints), states),
        forall|i: int| 0 <= i < configs@.len() ==> state_ok(entrypoint_contents(entrypoints), states, #[trigger] configs@[i].state),
    ensures
        r matches Err(e) ==> e == BackwardResult::CountLimit,
        r matches Ok(v) ==> forall|i: int| 0 <= i < v@.len() ==> step_ok(entrypoint_contents(entrypoints), states, #[trigger] v@[i]),
        match all_steps(entrypoint_contents(entrypoints), configs@, configs@.len()) {
            None => r == Err::<Vec<ValidatedStep>, BackwardResult>(BackwardResult::CountLimit),
            Some(vs) => r matches Ok(v) && v@.map_values(|x: ValidatedStep| step_view(x)) == vs,
        },
{
    let ghost m = entrypoint_contents(entrypoints);
    let mut checked: Vec<ValidatedStep> = Vec::new();
    let mut i: usize = 0;
    while i < configs.len()
        invariant
            i <= configs@.len(),
            m == entrypoint_contents(entrypoints),
            configs_wf(configs@),
            entries_ok(m, states),
            forall|k: int| 0 <= k < configs@.len() ==> state_ok(m, states, #[trigger] configs@[k].state),
            forall|k: int| 0 <= k < checked@.len() ==> step_ok(m, states, #[trigger] checked@[k]),
            all_steps(m, configs@, i as nat) == Some(checked@.map_values(|x: ValidatedStep| step_view(x))),
        decreases configs@.len() - i,
    {
        let config = &configs[i];
        assert(config.tape.wf());
        assert(state_ok(m, states, configs@[i as int].state));
        let state = config.state;
        let ghost acc = checked@.map_values(|x: ValidatedStep| step_view(x));
        let ghost sd = sides_of(config.tape);
        let ghost scan = config.tape.scan;
        assert(configs@[i as int] == *config);
        match entrypoints_get(entrypoints, state) {
            None => {
                assert(all_steps(m, configs@, (i + 1) as nat) == Some(acc + Seq::<StepV>::empty()));
                assert(acc + Seq::<StepV>::empty() =~= acc);
            },
            Some(lists) => {
                let same = &lists.0;
                let diff = &lists.1;
                let mut steps: Vec<Instr> = Vec::new();
                valid_instrs(&config.tape, state, diff, None, &mut steps, false, Ghost(m), Ghost(states));
                let mut j: usize = 0;
                while j < same.len()
                    invariant
                        j <= same@.len(),
                        m.dom().contains(state),
                        same@ == m[state].0,
                        diff@ == m[state].1,
                        (state as int) < states,
                        config.tape.wf(),
                        config.state == state,
                        entries_ok(m, states),
                        forall|k: int| 0 <= k < steps@.len() ==> justified(m, state, #[trigger] steps@[k]) && state_ok(m, states, steps@[k].2),
                        forall|k: int| 0 <= k < checked@.len() ==> step_ok(m, states, #[trigger] checked@[k]),
                        sd == sides_of(config.tape),
                        scan == config.tape.scan,
                        i < configs@.len(),
                        m == entrypoint_contents(entrypoints),
                        configs@[i as int] == *config,
                        all_steps(m, configs@, i as nat) == Some(acc),
                        same_pass(state, scan, sd, same@, diff@, j as nat) matches Some(p) && steps@ == valid_list(sd, diff@, None) + p.0
                            && checked@.map_values(|x: ValidatedStep| step_view(x)) == acc + p.1,
                    decreases same@.len() - j,
                {
                    let ((st, color), (print, shift)) = same[j];
                    let ghost p = same_pass(state, scan, sd, same@, diff@, j as nat)->0;
                    assert(same@[j as int] == ((st, color), (print, shift)));
                    if config.tape.is_valid_step(shift, print) {
                        if !config.tape.is_spinout(shift, color) {
                            proof {
                                assert(choose_list(m[state], true)[j as int] == same@[j as int]);
                                assert(justified(m, state, (color, shift, st)));
                            }
                            steps.push((color, shift, st));
                            assert(steps@ =~= valid_list(sd, diff@, None) + p.0.push((color, shift, st)));
                        } else {
                            match get_indef(shift, config, diff, same) {
                                Err(e) => {
                                    proof {
                                        assert(same_pass(state, scan, sd, same@, diff@, (j + 1) as nat) is None);
                                        lemma_same_pass_none(state, scan, sd, same@, diff@, (j + 1) as nat, same@.len());
                                        assert(config_steps(m, state, scan, sd) is None);
                                        assert(all_steps(m, configs@, (i + 1) as nat) is None);
                                        lemma_all_steps_none(m, configs@, (i + 1) as nat, configs@.len());
                                    }
                                    assert(e == BackwardResult::CountLimit);
                                    return Err(e);
                                },
                                Ok(None) => {},
                                Ok(Some(indef)) => {
                                    proof {
                                        assert forall|k: int| 0 <= k < indef.0@.len() implies justified(m, state, #[trigger] indef.0@[k])
                                            && state_ok(m, states, indef.0@[k].2) by {
                                            assert(entered_by((same@, diff@), indef.0@[k]));
                                            assert(m[state] == (same@, diff@));
                                            let (sm, q) = choose|sm: bool, q: int| 0 <= q < choose_list((same@, diff@), sm).len()
                                                && (#[trigger] choose_list((same@, diff@), sm)[q]).0 == (indef.0@[k].2, indef.0@[k].0)
                                                && choose_list((same@, diff@), sm)[q].1.1 == indef.0@[k].1;
                                            assert(choose_list(m[state], sm)[q] == choose_list((same@, diff@), sm)[q]);
                                        }
                                    }
                                    let ghost c0 = checked@;
                                    checked.push(indef);
                                    proof {
                                        assert(checked@.map_values(|x: ValidatedStep| step_view(x)) =~= c0.map_values(
                                            |x: ValidatedStep| step_view(x),
                                        ).push(step_view(indef)));
                                    }
                                },
                            }
                        }
                    }
                    j += 1;
                }
                assert(same@.len() == m[state].0.len());
                let ghost p = same_pass(state, scan, sd, same@, diff@, same@.len())->0;
                if steps.len() > 0 {
                    let ghost c0 = checked@;
                    let cl = config.clone();
                    checked.push((steps, cl));
                    proof {
                        assert(step_view((steps, cl)) == (steps@, state, scan, sd));
                        assert(checked@.map_values(|x: ValidatedStep| step_view(x)) =~= c0.map_values(
                            |x: ValidatedStep| step_view(x),
                        ).push((steps@, state, scan, sd)));
                        assert(acc + p.1.push((steps@, state, scan, sd)) =~= (acc + p.1).push((steps@, state, scan, sd)));
                    }
                }
            },
        }
        i += 1;
    }
    assert(configs@.len() == i);
    Ok(checked)
}

/// The static facts about a program that prune backward configurations.
pub struct Filters<const S: usize, const C: usize> {
    pub forbid_left: Vec<bool>,
    pub forbid_right: Vec<bool>,
    pub left_forced_blank: bool,
    pub right_forced_blank: bool,
    pub left_fresh_zero: bool,
    pub right_fresh_zero: bool,
    pub nonblank_parity: NonblankParity,
    pub windows: WinPossible,
    pub sides: Option<SidePossible<S, C>>,
    pub counts: Option<ColorTailCountPossible<S, C>>,
    pub pairs: Option<PairTailPresencePossible<S, C>>,
    pub prefixes: Option<SidePrefixPossible<S, C>>,
    pub blank_sides: Option<BlankSidePossible<S, C>>,
}

impl<const S: usize, const C: usize> Filters<S, C> {
    /// The whole-side summaries, the tail counts and pairs, the side
    /// prefixes and the blank-side tables, where there are any, are well
    /// formed.
    pub open spec fn summaries_ok(&self) -> bool {
        &&& self.sides matches Some(sp) ==> sp.sized()
        &&& self.counts matches Some(ct) ==> ct.wf()
        &&& self.pairs matches Some(pt) ==> pt.wf()
        &&& self.prefixes matches Some(pp) ==> pp.wf()
        &&& self.blank_sides matches Some(b) ==> b.sized()
    }
}

/// A tape description as plain values: the scanned color, then the left
/// side's runs and end, then the right side's.
pub type TapeV = (Color, Seq<Block>, TapeEnd, Seq<Block>, TapeEnd);

/// The plain values of a tape description.
pub open spec fn tape_v(t: Tape) -> TapeV {
    (t.scan, t.lspan.bs(), t.lspan.end, t.rspan.bs(), t.rspan.end)
}

/// A tape stepped back by an instruction that moved by `shift` after
/// reading `read`: the scanned cell goes back to the side it was left
/// on, and the head takes a cell from the other side; `None` where a run
/// count no longer fits.
#[verifier::opaque]
pub open spec fn backstep_v(tv: TapeV, shift: bool, read: Color) -> Option<TapeV> {
    let (sc, lb, le, rb, re) = tv;
    if shift {
        match push_single_spec(rb, re, sc) {
            None => None,
            Some(bs) => Some((read, pull_spec(lb), le, bs, re)),
        }
    } else {
        match push_single_spec(lb, le, sc) {
            None => None,
            Some(bs) => Some((read, bs, le, pull_spec(rb), re)),
        }
    }
}

/// Whether a tape is blank throughout.
pub open spec fn blank_v(tv: TapeV) -> bool {
    tv.0 == 0 && all_blank(tv.1) && all_blank(tv.3)
}

/// A tape after the fresh-zero side rules: each side so marked is
/// tightened as `fresh_zero_side` says, and where both are and the head
/// reads blank, a side is emptied where the other has a nonblank run.
pub open spec fn fresh_zero_v(tv: TapeV, lfz: bool, rfz: bool) -> Option<TapeV> {
    let (sc, lb, le, rb, re) = tv;
    let l1 = if lfz { fresh_zero_side(lb, le) } else { Some((lb, le)) };
    let r1 = if rfz { fresh_zero_side(rb, re) } else { Some((rb, re)) };
    let both = sc == 0 && lfz && rfz;
    if l1 is Some && r1 is Some && !(both && any_nonblank((l1->0).0) && any_nonblank((r1->0).0)) {
        let (lb2, le2) = l1->0;
        let (rb2, re2) = r1->0;
        let lempty = both && any_nonblank(rb2);
        let rempty = both && any_nonblank(lb2);
        Some((
            sc,
            if lempty { Seq::empty() } else { lb2 },
            if lempty { TapeEnd::Blanks } else { le2 },
            if rempty { Seq::empty() } else { rb2 },
            if rempty { TapeEnd::Blanks } else { re2 },
        ))
    } else {
        None
    }
}

/// Whether the parity of the nonblank cells of a tape can occur in its
/// state.
pub open spec fn nonblank_parity_v(state: State, tv: TapeV, parity: NonblankParity) -> bool {
    let m = parity.possible@[state as int];
    let t = if side_exact(tv.1, tv.2) && side_exact(tv.3, tv.4) {
        if ((if tv.0 != 0 { 1nat } else { 0nat }) + nonblank_parity_of(tv.1) + nonblank_parity_of(tv.3)) % 2 == 0 { 1u8 } else { 2u8 }
    } else {
        3u8
    };
    (has_even(m) && has_even(t)) || (has_odd(m) && has_odd(t))
}

/// A tape after the side filters, in order: the forbidden colors of each
/// side, the sides forced blank (which become `0+`), the fresh-zero side
/// rules, and the nonblank parity of the state; `None` where one fails.
#[verifier::opaque]
pub open spec fn side_filter_v<const S: usize, const C: usize>(state: State, tv: TapeV, f: Filters<S, C>) -> Option<TapeV> {
    if !(side_allowed(tv.1, f.forbid_left@) && side_allowed(tv.3, f.forbid_right@)) {
        None
    } else if !((!f.left_forced_blank || all_blank(tv.1)) && (!f.right_forced_blank || all_blank(tv.3))) {
        None
    } else {
        let tv1 = tighten_v(tv, f.left_forced_blank, f.right_forced_blank);
        let tv2 = if f.left_fresh_zero || f.right_fresh_zero {
            fresh_zero_v(tv1, f.left_fresh_zero, f.right_fresh_zero)
        } else {
            Some(tv1)
        };
        match tv2 {
            None => None,
            Some(t) => if nonblank_parity_v(state, t, f.nonblank_parity) { Some(t) } else { None },
        }
    }
}

/// A tape with each side forced blank made `0+`.
pub open spec fn tighten_v(tv: TapeV, lfb: bool, rfb: bool) -> TapeV {
    (
        tv.0,
        if lfb { Seq::empty() } else { tv.1 },
        if lfb { TapeEnd::Blanks } else { tv.2 },
        if rfb { Seq::empty() } else { tv.3 },
        if rfb { TapeEnd::Blanks } else { tv.4 },
    )
}

/// Whether a tape description survives the filters that need no window
/// tables; they may tighten it on the way.
#[verifier::rlimit(50)]
pub fn passes_side_filters<const S: usize, const C: usize>(state: State, tape: &mut Tape, f: &Filters<S, C>) -> (r: bool)
    requires
        old(tape).wf(),
        (state as int) < f.nonblank_parity.possible@.len(),
    ensures
        final(tape).wf(),
        r == side_filter_v::<S, C>(state, tape_v(*old(tape)), *f) is Some,
        r ==> tape_v(*final(tape)) == side_filter_v::<S, C>(state, tape_v(*old(tape)), *f)->0,
{
    reveal(side_filter_v);
    if !tape.obeys_shift_side(&f.forbid_left, &f.forbid_right) {
        return false;
    }
    let ghost t0 = *tape;
    if !tape.tighten_forced_blank_ends(f.left_forced_blank, f.right_forced_blank) {
        return false;
    }
    proof {
        if f.left_forced_blank {
            assert(tape.lspan.bs() =~= Seq::<Block>::empty());
        }
        if f.right_forced_blank {
            assert(tape.rspan.bs() =~= Seq::<Block>::empty());
        }
        assert(tape_v(*tape) == tighten_v(tape_v(t0), f.left_forced_blank, f.right_forced_blank));
    }
    let ghost t1 = *tape;
    if (f.left_fresh_zero || f.right_fresh_zero) && !tape.enforce_fresh_zero_side_invariants(f.left_fresh_zero, f.right_fresh_zero) {
        return false;
    }
    proof {
        if f.left_fresh_zero || f.right_fresh_zero {
            let l1 = if f.left_fresh_zero { fresh_zero_side(t1.lspan.bs(), t1.lspan.end) } else { Some((t1.lspan.bs(), t1.lspan.end)) };
            let r1 = if f.right_fresh_zero { fresh_zero_side(t1.rspan.bs(), t1.rspan.end) } else { Some((t1.rspan.bs(), t1.rspan.end)) };
            let both = t1.scan == 0 && f.left_fresh_zero && f.right_fresh_zero;
            if both && any_nonblank((r1->0).0) {
                assert(tape.lspan.bs() =~= Seq::<Block>::empty());
            }
            if both && any_nonblank((l1->0).0) {
                assert(tape.rspan.bs() =~= Seq::<Block>::empty());
            }
            assert(tape_v(*tape) == fresh_zero_v(tape_v(t1), f.left_fresh_zero, f.right_fresh_zero)->0);
        }
    }
    nonblank_parity_possible(state, tape, &f.nonblank_parity)
}

/// Whether a tape description is consistent with the windows, and their
/// tallies, that can occur in its state, and with each table of the
/// filters that is there.
#[verifier::opaque]
pub open spec fn window_conj<const S: usize, const C: usize>(state: State, tape: Tape, f: Filters<S, C>) -> bool {
    &&& windows::nonblank_parity_ok::<S, C>(state, tape, f.windows)
    &&& windows::side_parity_ok::<S, C>(state, tape, f.windows)
    &&& windows::side_mod3_ok::<S, C>(state, tape, f.windows)
    &&& windows::color_parity_ok::<S, C>(state, tape, f.windows)
    &&& windows::window_possible_ok::<S, C>(state, tape, f.windows)
    &&& f.sides matches Some(sp) ==> sp.state_side_ok(state, tape)
    &&& (f.counts is Some && f.pairs is Some) ==> f.counts->0.counts_ok(state, tape) && f.pairs->0.pairs_ok(state, tape)
    &&& f.blank_sides matches Some(b) ==> (state as int) >= S || (tape.scan as int) >= C || joint::blank_side_ok(tape, state, b)
    &&& f.prefixes matches Some(pp) ==> pp.prefix_ok(state, tape)
}

/// Whether a tape description is consistent with the windows, and their
/// tallies, that can occur in its state.
fn passes_window_filters<const S: usize, const C: usize>(state: State, tape: &Tape, f: &Filters<S, C>) -> (r: bool)
    requires
        f.windows.sized(S as int, C as int),
        f.summaries_ok(),
        1 <= C <= 64,
    ensures
        r == window_conj::<S, C>(state, *tape, *f),
{
    reveal(window_conj);
    windows::window_nonblank_parity_possible::<S, C>(state, tape, &f.windows)
        && windows::window_side_nonblank_parity_possible::<S, C>(state, tape, &f.windows)
        && windows::window_side_nonblank_mod3_possible::<S, C>(state, tape, &f.windows)
        && windows::window_color_parity_possible::<S, C>(state, tape, &f.windows)
        && windows::window_possible::<S, C>(state, tape, &f.windows)
        && match &f.sides {
            Some(sp) => tape.obeys_state_side(state, sp),
            None => true,
        }
        && match (&f.counts, &f.pairs) {
            (Some(ct), Some(pt)) => tape.obeys_tail_presence(state, ct, pt),
            _ => true,
        }
        && match &f.blank_sides {
            Some(b) => (state as usize) >= S || (tape.scan as usize) >= C || tape.obeys_blank_side_possible(state, b),
            None => true,
        }
        && match &f.prefixes {
            Some(pp) => tape.obeys_side_prefix_possible(state, pp),
            None => true,
        }
}

/// Whether a tape description survives every filter; the filters may
/// tighten it on the way.
fn passes_filters<const S: usize, const C: usize>(state: State, tape: &mut Tape, f: &Filters<S, C>) -> (r: bool)
    requires
        old(tape).wf(),
        (state as int) < f.nonblank_parity.possible@.len(),
        f.windows.sized(S as int, C as int),
        f.summaries_ok(),
        1 <= C <= 64,
    ensures
        final(tape).wf(),
        r == (side_filter_v::<S, C>(state, tape_v(*old(tape)), *f) is Some && window_conj::<S, C>(state, *final(tape), *f)),
        side_filter_v::<S, C>(state, tape_v(*old(tape)), *f) is Some ==> tape_v(*final(tape)) == side_filter_v::<S, C>(
            state,
            tape_v(*old(tape)),
            *f,
        )->0,
{
    passes_side_filters(state, tape, f) && passes_window_filters::<S, C>(state, tape, f)
}

/// Whether a tape fails the window filters in a state: some tape with
/// its plain values does.
pub open spec fn window_fails<const S: usize, const C: usize>(state: State, tv: TapeV, f: Filters<S, C>) -> bool {
    exists|t: Tape| tape_v(t) == tv && !#[trigger] window_conj::<S, C>(state, t, f)
}

/// Whether `outs` are the candidate predecessors `cands` (a state with
/// the plain values of a tape) that pass the window filters, in order.
#[verifier::opaque]
pub open spec fn window_kept<const S: usize, const C: usize>(cands: Seq<(State, TapeV)>, outs: Seq<Config>, f: Filters<S, C>) -> bool
    decreases cands.len(),
{
    if cands.len() == 0 {
        outs.len() == 0
    } else {
        let (st, tv) = cands.last();
        ||| outs.len() > 0 && outs.last().state == st && tape_v(outs.last().tape) == tv
            && window_conj::<S, C>(st, outs.last().tape, f) && window_kept::<S, C>(cands.drop_last(), outs.drop_last(), f)
        ||| window_fails::<S, C>(st, tv, f) && window_kept::<S, C>(cands.drop_last(), outs, f)
    }
}

/// Kept candidates of two lists, in order, are those of the two together.
proof fn lemma_window_kept_concat<const S: usize, const C: usize>(
    c1: Seq<(State, TapeV)>,
    o1: Seq<Config>,
    c2: Seq<(State, TapeV)>,
    o2: Seq<Config>,
    f: Filters<S, C>,
)
    requires
        window_kept::<S, C>(c1, o1, f),
        window_kept::<S, C>(c2, o2, f),
    ensures
        window_kept::<S, C>(c1 + c2, o1 + o2, f),
    decreases c2.len(),
{
    reveal(window_kept);
    if c2.len() == 0 {
        assert(c1 + c2 =~= c1);
        assert(o1 + o2 =~= o1);
    } else {
        assert((c1 + c2).drop_last() =~= c1 + c2.drop_last());
        assert((c1 + c2).last() == c2.last());
        let (st, tv) = c2.last();
        if o2.len() > 0 && o2.last().state == st && tape_v(o2.last().tape) == tv && window_conj::<S, C>(st, o2.last().tape, f)
            && window_kept::<S, C>(c2.drop_last(), o2.drop_last(), f) {
            lemma_window_kept_concat::<S, C>(c1, o1, c2.drop_last(), o2.drop_last(), f);
            assert((o1 + o2).drop_last() =~= o1 + o2.drop_last());
            assert((o1 + o2).last() == o2.last());
        } else {
            lemma_window_kept_concat::<S, C>(c1, o1, c2.drop_last(), o2, f);
        }
    }
}

/// The candidate predecessors of a tape by the first `n` instructions of
/// a list, in order, with the set of states whose blank predecessor was
/// met: an instruction whose step back no longer fits gives
/// `CountLimit`; a blank predecessor gives `Init` in the start state, is
/// passed over in a state met before, and else marks its state; a
/// predecessor is a candidate where it passes the side filters, with the
/// tape they give.
#[verifier::opaque]
pub open spec fn step_instrs_spec<const S: usize, const C: usize>(
    instrs: Seq<Instr>,
    tv: TapeV,
    blanks: Set<State>,
    f: Filters<S, C>,
    n: nat,
) -> Result<(Seq<(State, TapeV)>, Set<State>), BackwardResult>
    decreases n,
{
    if n == 0 {
        Ok((Seq::empty(), blanks))
    } else {
        match step_instrs_spec::<S, C>(instrs, tv, blanks, f, (n - 1) as nat) {
            Err(e) => Err(e),
            Ok(p) => step_one::<S, C>(p, instrs[n - 1], tv, f),
        }
    }
}

/// One instruction's step of `step_instrs_spec`, after the candidates and
/// blank states `p` of those before it.
#[verifier::opaque]
pub open spec fn step_one<const S: usize, const C: usize>(
    p: (Seq<(State, TapeV)>, Set<State>),
    instr: Instr,
    tv: TapeV,
    f: Filters<S, C>,
) -> Result<(Seq<(State, TapeV)>, Set<State>), BackwardResult> {
    let (cands, bl) = p;
    let (color, shift, state) = instr;
    match backstep_v(tv, shift, color) {
        None => Err(BackwardResult::CountLimit),
        Some(mid) => if blank_v(mid) && state == 0 {
            Err(BackwardResult::Init)
        } else if blank_v(mid) && bl.contains(state) {
            Ok((cands, bl))
        } else {
            let bl2 = if blank_v(mid) { bl.insert(state) } else { bl };
            match side_filter_v::<S, C>(state, mid, f) {
                None => Ok((cands, bl2)),
                Some(t) => Ok((cands.push((state, t)), bl2)),
            }
        },
    }
}

/// A candidate that passes the window filters is kept at the end.
proof fn lemma_kept_push<const S: usize, const C: usize>(c: Seq<(State, TapeV)>, o: Seq<Config>, cfg: Config, f: Filters<S, C>)
    requires
        window_kept::<S, C>(c, o, f),
        window_conj::<S, C>(cfg.state, cfg.tape, f),
    ensures
        window_kept::<S, C>(c.push((cfg.state, tape_v(cfg.tape))), o.push(cfg), f),
{
    reveal(window_kept);
    assert(c.push((cfg.state, tape_v(cfg.tape))).drop_last() =~= c);
    assert(o.push(cfg).drop_last() =~= o);
}

/// A candidate that fails the window filters is passed over.
proof fn lemma_kept_skip<const S: usize, const C: usize>(c: Seq<(State, TapeV)>, o: Seq<Config>, st: State, tv: TapeV, f: Filters<S, C>)
    requires
        window_kept::<S, C>(c, o, f),
        window_fails::<S, C>(st, tv, f),
    ensures
        window_kept::<S, C>(c.push((st, tv)), o, f),
{
    reveal(window_kept);
    assert(c.push((st, tv)).drop_last() =~= c);
}

/// Steps a configuration back by each of the given instructions, keeping
/// the predecessors that survive the filters. A blank predecessor in the
/// start state is the initial configuration; other blank predecessors are
/// kept once per state.
#[verifier::rlimit(100)]
pub fn step_instrs<const S: usize, const C: usize>(
    instrs: &Vec<Instr>,
    config: &Config,
    blanks: &mut AHashSet<State>,
    f: &Filters<S, C>,
    stepped: &mut Vec<Config>,
    cyc: &mut CycleMode,
    Ghost(m): Ghost<Map<State, (Seq<Entry>, Seq<Entry>)>>,
    Ghost(states): Ghost<int>,
) -> (r: Result<(), BackwardResult>)
    requires
        old(cyc).history.wf(),
        config.tape.wf(),
        f.nonblank_parity.possible@.len() == states,
        f.windows.sized(S as int, C as int),
        f.summaries_ok(),
        1 <= C <= 64,
        configs_wf(old(stepped)@),
        forall|k: int| 0 <= k < old(stepped)@.len() ==> state_ok(m, states, #[trigger] old(stepped)@[k].state),
        forall|j: int| 0 <= j < instrs@.len() ==> state_ok(m, states, #[trigger] instrs@[j].2),
    ensures
        final(cyc).history.wf(),
        final(cyc).on == old(cyc).on,
        final(cyc).step == old(cyc).step,
        !old(cyc).on ==> *final(cyc) == *old(cyc),
        r matches Err(e) ==> e == BackwardResult::CountLimit || e == BackwardResult::Init,
        configs_wf(final(stepped)@),
        forall|k: int| 0 <= k < final(stepped)@.len() ==> state_ok(m, states, #[trigger] final(stepped)@[k].state),
        !old(cyc).on ==> (match step_instrs_spec::<S, C>(instrs@, tape_v(config.tape), state_set_contents(old(blanks)), *f, instrs@.len()) {
            Err(e) => r == Err::<(), BackwardResult>(e),
            Ok(p) => {
                &&& r is Ok
                &&& state_set_contents(final(blanks)) == p.1
                &&& final(stepped)@.len() >= old(stepped)@.len()
                &&& final(stepped)@.subrange(0, old(stepped)@.len() as int) == old(stepped)@
                &&& window_kept::<S, C>(p.0, final(stepped)@.subrange(old(stepped)@.len() as int, final(stepped)@.len() as int), *f)
            },
        }),
{
    let ghost tv = tape_v(config.tape);
    let ghost b0 = state_set_contents(blanks);
    let ghost s0 = stepped@;
    let mut i: usize = 0;
    assert(stepped@.subrange(0, s0.len() as int) =~= s0);
    assert(stepped@.subrange(s0.len() as int, stepped@.len() as int) =~= Seq::<Config>::empty());
    assert(window_kept::<S, C>(Seq::empty(), Seq::empty(), *f)) by {
        reveal(window_kept);
    }
    assert(step_instrs_spec::<S, C>(instrs@, tv, b0, *f, 0) == Ok::<(Seq<(State, TapeV)>, Set<State>), BackwardResult>((Seq::empty(), b0))) by {
        reveal(step_instrs_spec);
    }
    while i < instrs.len()
        invariant
            i <= instrs@.len(),
            tv == tape_v(config.tape),
            b0 == state_set_contents(old(blanks)),
            s0 == old(stepped)@,
            cyc.history.wf(),
            cyc.on == old(cyc).on,
            cyc.step == old(cyc).step,
            !cyc.on ==> *cyc == *old(cyc),
            !cyc.on ==> (step_instrs_spec::<S, C>(instrs@, tv, b0, *f, i as nat) matches Ok(p) && {
                &&& state_set_contents(blanks) == p.1
                &&& stepped@.len() >= s0.len()
                &&& stepped@.subrange(0, s0.len() as int) == s0
                &&& window_kept::<S, C>(p.0, stepped@.subrange(s0.len() as int, stepped@.len() as int), *f)
            }),
            config.tape.wf(),
            f.nonblank_parity.possible@.len() == states,
            f.windows.sized(S as int, C as int),
            f.summaries_ok(),
            1 <= C <= 64,
            configs_wf(stepped@),
            forall|k: int| 0 <= k < stepped@.len() ==> state_ok(m, states, #[trigger] stepped@[k].state),
            forall|j: int| 0 <= j < instrs@.len() ==> state_ok(m, states, #[trigger] instrs@[j].2),
        decreases instrs@.len() - i,
    {
        assert(state_ok(m, states, instrs@[i as int].2));
        let ghost p = step_instrs_spec::<S, C>(instrs@, tv, b0, *f, i as nat)->Ok_0;
        let ghost outs0 = stepped@.subrange(s0.len() as int, stepped@.len() as int);
        let ghost s1 = stepped@;
        let r = step_instr::<S, C>(instrs[i], config, blanks, f, stepped, cyc, Ghost(m), Ghost(states), Ghost(p));
        proof {
            if !cyc.on {
                assert(step_instrs_spec::<S, C>(instrs@, tv, b0, *f, (i + 1) as nat) == step_one::<S, C>(p, instrs@[i as int], tv, *f)) by {
                    reveal(step_instrs_spec);
                }
                lemma_step_instrs_err::<S, C>(instrs@, tv, b0, *f, (i + 1) as nat, instrs@.len());
            }
        }
        if r.is_err() {
            return r;
        }
        proof {
            if !cyc.on {
                let q = step_one::<S, C>(p, instrs@[i as int], tv, *f)->Ok_0;
                let d = stepped@.subrange(s1.len() as int, stepped@.len() as int);
                let dq = q.0.subrange(p.0.len() as int, q.0.len() as int);
                lemma_window_kept_concat::<S, C>(p.0, outs0, dq, d, *f);
                assert(p.0 + dq =~= q.0);
                assert(outs0 + d =~= stepped@.subrange(s0.len() as int, stepped@.len() as int));
                assert(stepped@.subrange(0, s0.len() as int) =~= s0);
            }
        }
        i += 1;
    }
    Ok(())
}

/// Once the steps back of a list give an error, later instructions keep it.
proof fn lemma_step_instrs_err<const S: usize, const C: usize>(
    instrs: Seq<Instr>,
    tv: TapeV,
    blanks: Set<State>,
    f: Filters<S, C>,
    n: nat,
    k: nat,
)
    requires
        n <= k,
    ensures
        step_instrs_spec::<S, C>(instrs, tv, blanks, f, n) is Err ==> step_instrs_spec::<S, C>(instrs, tv, blanks, f, k)
            == step_instrs_spec::<S, C>(instrs, tv, blanks, f, n),
    decreases k - n,
{
    reveal(step_instrs_spec);
    if n < k {
        lemma_step_instrs_err::<S, C>(instrs, tv, blanks, f, n, (k - 1) as nat);
    }
}

/// Steps a configuration back by one instruction, after the candidates
/// and blank states `p` of the instructions before it.
#[verifier::rlimit(100)]
fn step_instr<const S: usize, const C: usize>(
    instr: Instr,
    config: &Config,
    blanks: &mut AHashSet<State>,
    f: &Filters<S, C>,
    stepped: &mut Vec<Config>,
    cyc: &mut CycleMode,
    Ghost(m): Ghost<Map<State, (Seq<Entry>, Seq<Entry>)>>,
    Ghost(states): Ghost<int>,
    Ghost(p): Ghost<(Seq<(State, TapeV)>, Set<State>)>,
) -> (r: Result<(), BackwardResult>)
    requires
        old(cyc).history.wf(),
        config.tape.wf(),
        f.nonblank_parity.possible@.len() == states,
        f.windows.sized(S as int, C as int),
        f.summaries_ok(),
        1 <= C <= 64,
        configs_wf(old(stepped)@),
        forall|k: int| 0 <= k < old(stepped)@.len() ==> state_ok(m, states, #[trigger] old(stepped)@[k].state),
        state_ok(m, states, instr.2),
        !old(cyc).on ==> state_set_contents(old(blanks)) == p.1,
    ensures
        final(cyc).history.wf(),
        final(cyc).on == old(cyc).on,
        final(cyc).step == old(cyc).step,
        !old(cyc).on ==> *final(cyc) == *old(cyc),
        r matches Err(e) ==> e == BackwardResult::CountLimit || e == BackwardResult::Init,
        configs_wf(final(stepped)@),
        forall|k: int| 0 <= k < final(stepped)@.len() ==> state_ok(m, states, #[trigger] final(stepped)@[k].state),
        !old(cyc).on ==> (match step_one::<S, C>(p, instr, tape_v(config.tape), *f) {
            Err(e) => r == Err::<(), BackwardResult>(e),
            Ok(q) => {
                &&& r is Ok
                &&& state_set_contents(final(blanks)) == q.1
                &&& final(stepped)@.len() >= old(stepped)@.len()
                &&& final(stepped)@.subrange(0, old(stepped)@.len() as int) == old(stepped)@
                &&& q.0.len() >= p.0.len()
                &&& q.0.subrange(0, p.0.len() as int) == p.0
                &&& window_kept::<S, C>(
                    q.0.subrange(p.0.len() as int, q.0.len() as int),
                    final(stepped)@.subrange(old(stepped)@.len() as int, final(stepped)@.len() as int),
                    *f,
                )
            },
        }),
{
    reveal(step_one);
    let ghost tv = tape_v(config.tape);
    let ghost s0 = stepped@;
    if cyc.on {
        if let Some((key, count)) = cycle::growth_edge_observation(config, instr) {
            if count == 255 {
                if cyc.history.certifies(&key, cyc.step, count) {
                    assert(stepped@.subrange(0, s0.len() as int) =~= s0);
                    return Ok(());
                }
                return Err(BackwardResult::CountLimit);
            }
            cyc.history.observe(key, cyc.step, count);
        }
    }
    let (color, shift, state) = instr;
    let mut tape = config.tape.clone();
    let stepped_back = tape.backstep(shift, color);
    if stepped_back.is_err() {
        assert(backstep_v(tv, shift, color) is None) by {
            reveal(backstep_v);
        }
        return Err(BackwardResult::CountLimit);
    }
    let ghost mid = tape_v(tape);
    assert(backstep_v(tv, shift, color) == Some(mid)) by {
        reveal(backstep_v);
    }
    assert(p.0.subrange(0, p.0.len() as int) =~= p.0);
    assert(stepped@.subrange(0, s0.len() as int) =~= s0);
    assert(window_kept::<S, C>(Seq::empty(), Seq::empty(), *f)) by {
        reveal(window_kept);
    }
    if tape.blank() {
        if state == 0 {
            return Err(BackwardResult::Init);
        }
        if !state_set_insert(blanks, state) {
            assert(p.0.subrange(p.0.len() as int, p.0.len() as int) =~= Seq::<(State, TapeV)>::empty());
            assert(stepped@.subrange(s0.len() as int, s0.len() as int) =~= Seq::<Config>::empty());
            return Ok(());
        }
    }
    let ghost tm = tape;
    if passes_filters::<S, C>(state, &mut tape, f) {
        let cfg = Config::new(state, tape);
        proof {
            lemma_kept_push::<S, C>(Seq::empty(), Seq::empty(), cfg, *f);
        }
        stepped.push(cfg);
        proof {
            let q0 = p.0.push((state, tape_v(tape)));
            assert(q0.subrange(0, p.0.len() as int) =~= p.0);
            assert(q0.subrange(p.0.len() as int, q0.len() as int) =~= Seq::<(State, TapeV)>::empty().push((state, tape_v(tape))));
            assert(stepped@.subrange(0, s0.len() as int) =~= s0);
            assert(stepped@.subrange(s0.len() as int, stepped@.len() as int) =~= Seq::<Config>::empty().push(cfg));
        }
    } else {
        proof {
            assert(stepped@.subrange(s0.len() as int, s0.len() as int) =~= Seq::<Config>::empty());
            assert(p.0.subrange(p.0.len() as int, p.0.len() as int) =~= Seq::<(State, TapeV)>::empty());
            if side_filter_v::<S, C>(state, tape_v(tm), *f) is Some {
                assert(!window_conj::<S, C>(state, tape, *f));
                assert(window_fails::<S, C>(state, tape_v(tape), *f));
                lemma_kept_skip::<S, C>(Seq::empty(), Seq::empty(), state, tape_v(tape), *f);
                let q0 = p.0.push((state, tape_v(tape)));
                assert(q0.subrange(0, p.0.len() as int) =~= p.0);
                assert(q0.subrange(p.0.len() as int, q0.len() as int) =~= Seq::<(State, TapeV)>::empty().push((state, tape_v(tape))));
            }
        }
    }
    Ok(())
}

/// The instructions of a list that move by `shift`, in order.
fn instrs_with_shift(instrs: &Vec<Instr>, shift: Shift) -> (r: Vec<Instr>)
    ensures
        r@ == with_shift(instrs@, shift),
        forall|j: int| 0 <= j < r@.len() ==> instrs@.contains(#[trigger] r@[j]),
{
    let mut r: Vec<Instr> = Vec::new();
    let mut n: usize = 0;
    while n < instrs.len()
        invariant
            n <= instrs@.len(),
            r@ == with_shift(instrs@.subrange(0, n as int), shift),
            forall|j: int| 0 <= j < r@.len() ==> exists|q: int| 0 <= q < n && instrs@[q] == #[trigger] r@[j],
        decreases instrs@.len() - n,
    {
        proof {
            reveal_with_fuel(Seq::filter, 1);
            assert(instrs@.subrange(0, n + 1).drop_last() =~= instrs@.subrange(0, n as int));
        }
        let ghost before = r@;
        if instrs[n].1 == shift {
            r.push(instrs[n]);
        }
        proof {
            assert forall|j: int| 0 <= j < r@.len() implies exists|q: int| 0 <= q < n + 1 && instrs@[q] == #[trigger] r@[j] by {
                if j < before.len() {
                    let q = choose|q: int| 0 <= q < n && instrs@[q] == #[trigger] before[j];
                    assert(instrs@[q] == r@[j]);
                } else {
                    assert(instrs@[n as int] == r@[j]);
                }
            }
        }
        n += 1;
    }
    assert(instrs@.subrange(0, instrs@.len() as int) =~= instrs@);
    assert forall|j: int| 0 <= j < r@.len() implies instrs@.contains(#[trigger] r@[j]) by {
        let q = choose|q: int| 0 <= q < n && instrs@[q] == #[trigger] r@[j];
        assert(instrs@[q] == r@[j]);
    }
    r
}

/// The instructions of a list that move by `shift`, in order.
pub open spec fn with_shift(is: Seq<Instr>, shift: Shift) -> Seq<Instr> {
    is.filter(|i: Instr| i.1 == shift)
}

/// Runs with the one nearest the head cut to one cell.
pub open spec fn head_one(bs: Seq<Block>) -> Seq<Block> {
    bs.update(bs.len() - 1, Block { color: bs.last().color, count: BlockCount::Exact(1) })
}

/// A tape with the run nearest the head on the left side (or the right)
/// cut to one cell.
pub open spec fn set_one_v(tv: TapeV, left: bool) -> TapeV {
    if left { (tv.0, head_one(tv.1), tv.2, tv.3, tv.4) } else { (tv.0, tv.1, tv.2, head_one(tv.3), tv.4) }
}

/// Whether the run that a step back would pull from the left side (or
/// the right) is a `c..` run, which may be one cell.
pub open spec fn pull_needs_v(tv: TapeV, left: bool) -> bool {
    if left {
        tv.1.len() > 0 && tv.1.last().count == BlockCount::AtLeast(1)
    } else {
        tv.3.len() > 0 && tv.3.last().count == BlockCount::AtLeast(1)
    }
}

/// The candidates of the one-cell case of the run pulled on the left
/// side (or the right): the instructions that move that way, on the tape
/// with that run cut to one cell.
pub open spec fn one_split_spec<const S: usize, const C: usize>(
    is: Seq<Instr>,
    tv: TapeV,
    left: bool,
    b: Set<State>,
    f: Filters<S, C>,
) -> Result<(Seq<(State, TapeV)>, Set<State>), BackwardResult> {
    let side = with_shift(is, left);
    step_instrs_spec::<S, C>(side, set_one_v(tv, left), b, f, side.len())
}

/// The candidates of one validated configuration: the one-cell case of a
/// `c..` run pulled on the left, then on the right, then every
/// instruction on the tape as it is.
pub open spec fn config_step_spec<const S: usize, const C: usize>(
    is: Seq<Instr>,
    tv: TapeV,
    b: Set<State>,
    f: Filters<S, C>,
) -> Result<(Seq<(State, TapeV)>, Set<State>), BackwardResult> {
    let r1 = if pull_needs_v(tv, true) { one_split_spec::<S, C>(is, tv, true, b, f) } else { Ok((Seq::empty(), b)) };
    match r1 {
        Err(e) => Err(e),
        Ok(p1) => {
            let r2 = if pull_needs_v(tv, false) { one_split_spec::<S, C>(is, tv, false, p1.1, f) } else { Ok((Seq::empty(), p1.1)) };
            match r2 {
                Err(e) => Err(e),
                Ok(p2) => match step_instrs_spec::<S, C>(is, tv, p2.1, f, is.len()) {
                    Err(e) => Err(e),
                    Ok(p3) => Ok((p1.0 + p2.0 + p3.0, p3.1)),
                },
            }
        },
    }
}

/// The candidates of the first `n` validated configurations, in order,
/// with the blank states met.
pub open spec fn step_configs_spec<const S: usize, const C: usize>(
    cs: Seq<ValidatedStep>,
    b: Set<State>,
    f: Filters<S, C>,
    n: nat,
) -> Result<(Seq<(State, TapeV)>, Set<State>), BackwardResult>
    decreases n,
{
    if n == 0 {
        Ok((Seq::empty(), b))
    } else {
        match step_configs_spec::<S, C>(cs, b, f, (n - 1) as nat) {
            Err(e) => Err(e),
            Ok(p) => match config_step_spec::<S, C>(cs[n - 1].0@, tape_v(cs[n - 1].1.tape), p.1, f) {
                Err(e) => Err(e),
                Ok(q) => Ok((p.0 + q.0, q.1)),
            },
        }
    }
}

/// Once the steps back of a frontier give an error, later configurations
/// keep it.
proof fn lemma_step_configs_err<const S: usize, const C: usize>(
    cs: Seq<ValidatedStep>,
    b: Set<State>,
    f: Filters<S, C>,
    n: nat,
    k: nat,
)
    requires
        n <= k,
    ensures
        step_configs_spec::<S, C>(cs, b, f, n) is Err ==> step_configs_spec::<S, C>(cs, b, f, k) == step_configs_spec::<S, C>(cs, b, f, n),
    decreases k - n,
{
    if n < k {
        lemma_step_configs_err::<S, C>(cs, b, f, n, (k - 1) as nat);
    }
}

/// Two extensions of a list of configurations in turn, each holding the
/// kept candidates of its own list, hold together those of both lists.
proof fn lemma_kept_extend<const S: usize, const C: usize>(
    sa: Seq<Config>,
    sb: Seq<Config>,
    sc: Seq<Config>,
    c1: Seq<(State, TapeV)>,
    c2: Seq<(State, TapeV)>,
    f: Filters<S, C>,
)
    requires
        sb.len() >= sa.len(),
        sb.subrange(0, sa.len() as int) == sa,
        sc.len() >= sb.len(),
        sc.subrange(0, sb.len() as int) == sb,
        window_kept::<S, C>(c1, sb.subrange(sa.len() as int, sb.len() as int), f),
        window_kept::<S, C>(c2, sc.subrange(sb.len() as int, sc.len() as int), f),
    ensures
        sc.subrange(0, sa.len() as int) == sa,
        window_kept::<S, C>(c1 + c2, sc.subrange(sa.len() as int, sc.len() as int), f),
{
    lemma_window_kept_concat::<S, C>(c1, sb.subrange(sa.len() as int, sb.len() as int), c2, sc.subrange(sb.len() as int, sc.len() as int), f);
    assert(sc.subrange(0, sa.len() as int) =~= sa);
    assert(sb.subrange(sa.len() as int, sb.len() as int) + sc.subrange(sb.len() as int, sc.len() as int)
        =~= sc.subrange(sa.len() as int, sc.len() as int));
}

/// Steps back the one-cell case of a `c..` run to be pulled on side
/// `left` (true) or right, by the instructions that move that way.
#[verifier::rlimit(100)]
fn step_count_one_split<const S: usize, const C: usize>(
    instrs: &Vec<Instr>,
    config: &Config,
    left: bool,
    blanks: &mut AHashSet<State>,
    f: &Filters<S, C>,
    stepped: &mut Vec<Config>,
    cyc: &mut CycleMode,
    Ghost(m): Ghost<Map<State, (Seq<Entry>, Seq<Entry>)>>,
    Ghost(states): Ghost<int>,
) -> (r: Result<(), BackwardResult>)
    requires
        old(cyc).history.wf(),
        config.tape.wf(),
        (if left { config.tape.lspan.bs().len() } else { config.tape.rspan.bs().len() }) > 0,
        f.nonblank_parity.possible@.len() == states,
        f.windows.sized(S as int, C as int),
        f.summaries_ok(),
        1 <= C <= 64,
        configs_wf(old(stepped)@),
        forall|k: int| 0 <= k < old(stepped)@.len() ==> state_ok(m, states, #[trigger] old(stepped)@[k].state),
        forall|j: int| 0 <= j < instrs@.len() ==> state_ok(m, states, #[trigger] instrs@[j].2),
    ensures
        final(cyc).history.wf(),
        final(cyc).on == old(cyc).on,
        final(cyc).step == old(cyc).step,
        !old(cyc).on ==> *final(cyc) == *old(cyc),
        r matches Err(e) ==> e == BackwardResult::CountLimit || e == BackwardResult::Init,
        configs_wf(final(stepped)@),
        forall|k: int| 0 <= k < final(stepped)@.len() ==> state_ok(m, states, #[trigger] final(stepped)@[k].state),
        !old(cyc).on ==> (match one_split_spec::<S, C>(instrs@, tape_v(config.tape), left, state_set_contents(old(blanks)), *f) {
            Err(e) => r == Err::<(), BackwardResult>(e),
            Ok(p) => {
                &&& r is Ok
                &&& state_set_contents(final(blanks)) == p.1
                &&& final(stepped)@.len() >= old(stepped)@.len()
                &&& final(stepped)@.subrange(0, old(stepped)@.len() as int) == old(stepped)@
                &&& window_kept::<S, C>(p.0, final(stepped)@.subrange(old(stepped)@.len() as int, final(stepped)@.len() as int), *f)
            },
        }),
{
    let side = instrs_with_shift(instrs, left);
    if side.len() == 0 {
        assert(stepped@.subrange(0, stepped@.len() as int) =~= stepped@);
        assert(stepped@.subrange(stepped@.len() as int, stepped@.len() as int) =~= Seq::<Config>::empty());
        assert(window_kept::<S, C>(Seq::empty(), Seq::empty(), *f)) by {
            reveal(window_kept);
        }
        assert(one_split_spec::<S, C>(instrs@, tape_v(config.tape), left, state_set_contents(blanks), *f)
            == Ok::<(Seq<(State, TapeV)>, Set<State>), BackwardResult>((Seq::empty(), state_set_contents(blanks)))) by {
            reveal(step_instrs_spec);
        }
        return Ok(());
    }
    let mut count_1 = config.clone();
    if left {
        count_1.tape.lspan.set_head_to_one();
    } else {
        count_1.tape.rspan.set_head_to_one();
    }
    assert(tape_v(count_1.tape) == set_one_v(tape_v(config.tape), left));
    assert forall|j: int| 0 <= j < side@.len() implies state_ok(m, states, #[trigger] side@[j].2) by {
        assert(instrs@.contains(side@[j]));
        let k = choose|k: int| 0 <= k < instrs@.len() && instrs@[k] == side@[j];
        assert(state_ok(m, states, instrs@[k].2));
    }
    step_instrs::<S, C>(&side, &count_1, blanks, f, stepped, cyc, Ghost(m), Ghost(states))
}

/// Steps every validated configuration back. Where the run to be pulled
/// is `c..`, its one-cell case is stepped first as a branch of its own.
#[verifier::rlimit(100)]
pub fn step_configs<const S: usize, const C: usize>(
    configs: &Vec<ValidatedStep>,
    blanks: &mut AHashSet<State>,
    f: &Filters<S, C>,
    cyc: &mut CycleMode,
    Ghost(m): Ghost<Map<State, (Seq<Entry>, Seq<Entry>)>>,
    Ghost(states): Ghost<int>,
) -> (r: Result<Vec<Config>, BackwardResult>)
    requires
        old(cyc).history.wf(),
        f.nonblank_parity.possible@.len() == states,
        f.windows.sized(S as int, C as int),
        f.summaries_ok(),
        1 <= C <= 64,
        forall|i: int| 0 <= i < configs@.len() ==> step_ok(m, states, #[trigger] configs@[i]),
    ensures
        final(cyc).history.wf(),
        final(cyc).on == old(cyc).on,
        final(cyc).step == old(cyc).step,
        !old(cyc).on ==> *final(cyc) == *old(cyc),
        r matches Err(e) ==> e == BackwardResult::CountLimit || e == BackwardResult::Init,
        r matches Ok(v) ==> configs_wf(v@) && forall|k: int| 0 <= k < v@.len() ==> state_ok(m, states, #[trigger] v@[k].state),
        !old(cyc).on ==> (match step_configs_spec::<S, C>(configs@, state_set_contents(old(blanks)), *f, configs@.len()) {
            Err(e) => r == Err::<Vec<Config>, BackwardResult>(e),
            Ok(p) => (r matches Ok(v) && window_kept::<S, C>(p.0, v@, *f)) && state_set_contents(final(blanks)) == p.1,
        }),
{
    let ghost b0 = state_set_contents(blanks);
    let mut stepped: Vec<Config> = Vec::new();
    let mut i: usize = 0;
    assert(window_kept::<S, C>(Seq::empty(), stepped@, *f)) by {
        reveal(window_kept);
    }
    while i < configs.len()
        invariant
            i <= configs@.len(),
            b0 == state_set_contents(old(blanks)),
            cyc.history.wf(),
            cyc.on == old(cyc).on,
            cyc.step == old(cyc).step,
            !cyc.on ==> *cyc == *old(cyc),
            !cyc.on ==> (step_configs_spec::<S, C>(configs@, b0, *f, i as nat) matches Ok(p) && state_set_contents(blanks) == p.1
                && window_kept::<S, C>(p.0, stepped@, *f)),
            f.nonblank_parity.possible@.len() == states,
            f.windows.sized(S as int, C as int),
            f.summaries_ok(),
            1 <= C <= 64,
            forall|k: int| 0 <= k < configs@.len() ==> step_ok(m, states, #[trigger] configs@[k]),
            configs_wf(stepped@),
            forall|k: int| 0 <= k < stepped@.len() ==> state_ok(m, states, #[trigger] stepped@[k].state),
        decreases configs@.len() - i,
    {
        let (instrs, config) = &configs[i];
        assert(step_ok(m, states, configs@[i as int]));
        let ghost p = step_configs_spec::<S, C>(configs@, b0, *f, i as nat)->Ok_0;
        let ghost s1 = stepped@;
        let r = step_config::<S, C>(instrs, config, blanks, f, &mut stepped, cyc, Ghost(m), Ghost(states));
        proof {
            lemma_step_configs_err::<S, C>(configs@, b0, *f, (i + 1) as nat, configs@.len());
        }
        if let Err(e) = r {
            return Err(e);
        }
        proof {
            if !cyc.on {
                let q = config_step_spec::<S, C>(instrs@, tape_v(config.tape), p.1, *f)->Ok_0;
                let d = stepped@.subrange(s1.len() as int, stepped@.len() as int);
                lemma_window_kept_concat::<S, C>(p.0, s1, q.0, d, *f);
                assert(s1 + d =~= stepped@);
            }
        }
        i += 1;
    }
    Ok(stepped)
}

/// Steps one validated configuration back: the one-cell case of a `c..`
/// run to be pulled on the left, then on the right, then the
/// configuration as it is.
#[verifier::rlimit(100)]
fn step_config<const S: usize, const C: usize>(
    instrs: &Vec<Instr>,
    config: &Config,
    blanks: &mut AHashSet<State>,
    f: &Filters<S, C>,
    stepped: &mut Vec<Config>,
    cyc: &mut CycleMode,
    Ghost(m): Ghost<Map<State, (Seq<Entry>, Seq<Entry>)>>,
    Ghost(states): Ghost<int>,
) -> (r: Result<(), BackwardResult>)
    requires
        old(cyc).history.wf(),
        step_ok(m, states, (*instrs, *config)),
        f.nonblank_parity.possible@.len() == states,
        f.windows.sized(S as int, C as int),
        f.summaries_ok(),
        1 <= C <= 64,
        configs_wf(old(stepped)@),
        forall|k: int| 0 <= k < old(stepped)@.len() ==> state_ok(m, states, #[trigger] old(stepped)@[k].state),
    ensures
        final(cyc).history.wf(),
        final(cyc).on == old(cyc).on,
        final(cyc).step == old(cyc).step,
        !old(cyc).on ==> *final(cyc) == *old(cyc),
        r matches Err(e) ==> e == BackwardResult::CountLimit || e == BackwardResult::Init,
        configs_wf(final(stepped)@),
        forall|k: int| 0 <= k < final(stepped)@.len() ==> state_ok(m, states, #[trigger] final(stepped)@[k].state),
        !old(cyc).on ==> (match config_step_spec::<S, C>(instrs@, tape_v(config.tape), state_set_contents(old(blanks)), *f) {
            Err(e) => r == Err::<(), BackwardResult>(e),
            Ok(q) => {
                &&& r is Ok
                &&& state_set_contents(final(blanks)) == q.1
                &&& final(stepped)@.len() >= old(stepped)@.len()
                &&& final(stepped)@.subrange(0, old(stepped)@.len() as int) == old(stepped)@
                &&& window_kept::<S, C>(q.0, final(stepped)@.subrange(old(stepped)@.len() as int, final(stepped)@.len() as int), *f)
            },
        }),
{
    let ghost tv = tape_v(config.tape);
    let ghost sa = stepped@;
    let ghost ba = state_set_contents(blanks);
    assert(window_kept::<S, C>(Seq::empty(), Seq::empty(), *f)) by {
        reveal(window_kept);
    }
    assert(sa.subrange(0, sa.len() as int) =~= sa);
    assert(sa.subrange(sa.len() as int, sa.len() as int) =~= Seq::<Config>::empty());
    if config.tape.pull_needs_count_one_split(true) {
        let r = step_count_one_split::<S, C>(instrs, config, true, blanks, f, stepped, cyc, Ghost(m), Ghost(states));
        if let Err(e) = r {
            return Err(e);
        }
    }
    let ghost sb = stepped@;
    let ghost p1 = (if pull_needs_v(tv, true) {
        one_split_spec::<S, C>(instrs@, tv, true, ba, *f)
    } else {
        Ok((Seq::empty(), ba))
    })->Ok_0;
    assert(sb.subrange(0, sb.len() as int) =~= sb);
    assert(sb.subrange(sb.len() as int, sb.len() as int) =~= Seq::<Config>::empty());
    if config.tape.pull_needs_count_one_split(false) {
        let r = step_count_one_split::<S, C>(instrs, config, false, blanks, f, stepped, cyc, Ghost(m), Ghost(states));
        if let Err(e) = r {
            return Err(e);
        }
    }
    let ghost sc = stepped@;
    let ghost p2 = (if pull_needs_v(tv, false) {
        one_split_spec::<S, C>(instrs@, tv, false, p1.1, *f)
    } else {
        Ok((Seq::empty(), p1.1))
    })->Ok_0;
    let r = step_instrs::<S, C>(instrs, config, blanks, f, stepped, cyc, Ghost(m), Ghost(states));
    if let Err(e) = r {
        return Err(e);
    }
    proof {
        if !cyc.on {
            let p3 = step_instrs_spec::<S, C>(instrs@, tv, p2.1, *f, instrs@.len())->Ok_0;
            lemma_kept_extend::<S, C>(sa, sb, sc, p1.0, p2.0, *f);
            lemma_kept_extend::<S, C>(sa, sc, stepped@, p1.0 + p2.0, p3.0, *f);
        }
    }
    Ok(())
}

/// Whether every nonblank color is forbidden on a side.
fn all_nonblank_forbidden(forbid: &Vec<bool>) -> (r: bool)
    ensures
        r == forall|k: int| 1 <= k < forbid@.len() ==> #[trigger] forbid@[k],
{
    let mut k: usize = 1;
    while k < forbid.len()
        invariant
            1 <= k,
            forall|j: int| 1 <= j < k && j < forbid@.len() ==> #[trigger] forbid@[j],
        decreases forbid@.len() - k,
    {
        if !forbid[k] {
            return false;
        }
        k += 1;
    }
    true
}

/// Whether a tape is blank beyond its runs on both sides.
pub open spec fn blank_ends(t: Tape) -> bool {
    t.lspan.end == TapeEnd::Blanks && t.rspan.end == TapeEnd::Blanks
}

/// Of the first `n` configurations of a frontier, given the tape hash of
/// each, the positions kept and the seen set after them: a configuration
/// with blank ends on both sides is kept only where its state and hash are
/// not yet in the set, and then go into it; every other one is kept.
pub open spec fn drop_seen_spec(cs: Seq<Config>, hs: Seq<u64>, seen: Set<(State, u64)>, n: nat) -> (Seq<int>, Set<(State, u64)>)
    decreases n,
{
    if n == 0 {
        (Seq::empty(), seen)
    } else {
        let (kept, s) = drop_seen_spec(cs, hs, seen, (n - 1) as nat);
        let c = cs[n - 1];
        if blank_ends(c.tape) {
            let key = (c.state, hs[n - 1]);
            if s.contains(key) { (kept, s) } else { (kept.push(n - 1), s.insert(key)) }
        } else {
            (kept.push(n - 1), s)
        }
    }
}

/// Whether `r` holds, in order, copies of the configurations that
/// `drop_seen_spec` keeps of `cs` under the hashes `hs`, and `s1` is the
/// seen set after them, starting from `s0`.
pub open spec fn drop_seen_fits(cs: Seq<Config>, hs: Seq<u64>, s0: Set<(State, u64)>, s1: Set<(State, u64)>, r: Seq<Config>) -> bool {
    let (kept, s) = drop_seen_spec(cs, hs, s0, cs.len());
    &&& hs.len() == cs.len()
    &&& s == s1
    &&& r.len() == kept.len()
    &&& forall|k: int| 0 <= k < r.len() ==> {
        &&& 0 <= #[trigger] kept[k] < cs.len()
        &&& r[k].state == cs[kept[k]].state
        &&& r[k].tape.same(cs[kept[k]].tape)
    }
}

/// Keeps the configurations of a frontier in order, but for those with
/// blank ends on both sides whose state and tape hash were met before.
/// The hashes come from a hasher that each process seeds, so the contract
/// holds for some hash of each tape, not a given one.
fn drop_seen(
    configs: &Vec<Config>,
    seen: &mut AHashSet<(State, u64)>,
    Ghost(m): Ghost<Map<State, (Seq<Entry>, Seq<Entry>)>>,
    Ghost(states): Ghost<int>,
) -> (r: Vec<Config>)
    requires
        configs_wf(configs@),
        forall|k: int| 0 <= k < configs@.len() ==> state_ok(m, states, #[trigger] configs@[k].state),
    ensures
        r@.len() <= configs@.len(),
        configs_wf(r@),
        forall|k: int| 0 <= k < r@.len() ==> state_ok(m, states, #[trigger] r@[k].state),
        exists|hs: Seq<u64>| #[trigger] drop_seen_fits(configs@, hs, seen_set_contents(old(seen)), seen_set_contents(final(seen)), r@),
{
    let ghost s0 = seen_set_contents(seen);
    let ghost mut hs: Seq<u64> = Seq::empty();
    let mut r: Vec<Config> = Vec::new();
    let mut i: usize = 0;
    while i < configs.len()
        invariant
            i <= configs@.len(),
            r@.len() <= i,
            configs_wf(configs@),
            forall|k: int| 0 <= k < configs@.len() ==> state_ok(m, states, #[trigger] configs@[k].state),
            configs_wf(r@),
            forall|k: int| 0 <= k < r@.len() ==> state_ok(m, states, #[trigger] r@[k].state),
            hs.len() == i,
            ({
                let (kept, s) = drop_seen_spec(configs@, hs, s0, i as nat);
                &&& s == seen_set_contents(seen)
                &&& r@.len() == kept.len()
                &&& forall|k: int| 0 <= k < r@.len() ==> {
                    &&& 0 <= #[trigger] kept[k] < i
                    &&& r@[k].state == configs@[kept[k]].state
                    &&& r@[k].tape.same(configs@[kept[k]].tape)
                }
            }),
        decreases configs@.len() - i,
    {
        let config = &configs[i];
        assert(config.tape.wf());
        assert(state_ok(m, states, configs@[i as int].state));
        let ghost prev = drop_seen_spec(configs@, hs, s0, i as nat);
        let ghost hs0 = hs;
        let ghost r0 = r@;
        let ends = config.tape.lspan.end == TapeEnd::Blanks && config.tape.rspan.end == TapeEnd::Blanks;
        let keep = if ends {
            let h = hash_tape(&config.tape);
            proof { hs = hs.push(h); }
            let key = (config.state, h);
            seen_set_insert(seen, key)
        } else {
            proof { hs = hs.push(0u64); }
            true
        };
        if keep {
            r.push(config.clone());
        }
        proof {
            assert(drop_seen_spec(configs@, hs, s0, i as nat) == prev) by {
                lemma_drop_seen_prefix(configs@, hs, hs0, s0, i as nat);
            }
            let (kept, s) = drop_seen_spec(configs@, hs, s0, (i + 1) as nat);
            assert forall|k: int| 0 <= k < r@.len() implies {
                &&& 0 <= #[trigger] kept[k] < i + 1
                &&& r@[k].state == configs@[kept[k]].state
                &&& r@[k].tape.same(configs@[kept[k]].tape)
            } by {
                if k < r0.len() {
                    assert(kept[k] == prev.0[k]);
                }
            }
        }
        i += 1;
    }
    proof {
        assert(drop_seen_fits(configs@, hs, s0, seen_set_contents(seen), r@));
    }
    r
}

/// `drop_seen_spec` of a prefix reads the hashes of that prefix alone.
proof fn lemma_drop_seen_prefix(cs: Seq<Config>, hs: Seq<u64>, gs: Seq<u64>, seen: Set<(State, u64)>, n: nat)
    requires
        n <= hs.len(),
        n <= gs.len(),
        forall|k: int| 0 <= k < n ==> hs[k] == gs[k],
    ensures
        drop_seen_spec(cs, hs, seen, n) == drop_seen_spec(cs, gs, seen, n),
    decreases n,
{
    if n > 0 {
        lemma_drop_seen_prefix(cs, hs, gs, seen, (n - 1) as nat);
    }
}

/// Of the first `n` configurations of a frontier, given the tape hash of
/// each, the positions kept and the tapes met after them: a configuration
/// whose exact tape was met before under its state and hash is dropped,
/// and every other one is kept and met.
pub open spec fn drop_repeats_spec(cs: Seq<Config>, hs: Seq<u64>, seen: Map<Seq<u64>, Seq<TapeV>>, n: nat) -> (Seq<int>, Map<Seq<u64>, Seq<TapeV>>)
    decreases n,
{
    if n == 0 {
        (Seq::empty(), seen)
    } else {
        let (kept, s) = drop_repeats_spec(cs, hs, seen, (n - 1) as nat);
        let c = cs[n - 1];
        let k = cycle::seen_code(c.state, hs[n - 1]);
        let b = if s.dom().contains(k) { s[k] } else { Seq::empty() };
        if b.contains(tape_v(c.tape)) { (kept, s) } else { (kept.push(n - 1), s.insert(k, b.push(tape_v(c.tape)))) }
    }
}

/// Whether `r` holds, in order, copies of the configurations that
/// `drop_repeats_spec` keeps of `cs` under the hashes `hs`, and `s1` is
/// what is met after them, starting from `s0`.
pub open spec fn drop_repeats_fits(
    cs: Seq<Config>,
    hs: Seq<u64>,
    s0: Map<Seq<u64>, Seq<TapeV>>,
    s1: Map<Seq<u64>, Seq<TapeV>>,
    r: Seq<Config>,
) -> bool {
    let (kept, s) = drop_repeats_spec(cs, hs, s0, cs.len());
    &&& hs.len() == cs.len()
    &&& s == s1
    &&& r.len() == kept.len()
    &&& forall|k: int| 0 <= k < r.len() ==> {
        &&& 0 <= #[trigger] kept[k] < cs.len()
        &&& r[k].state == cs[kept[k]].state
        &&& r[k].tape.same(cs[kept[k]].tape)
    }
}

proof fn lemma_drop_repeats_prefix(cs: Seq<Config>, hs: Seq<u64>, gs: Seq<u64>, seen: Map<Seq<u64>, Seq<TapeV>>, n: nat)
    requires
        n <= hs.len(),
        n <= gs.len(),
        forall|k: int| 0 <= k < n ==> hs[k] == gs[k],
    ensures
        drop_repeats_spec(cs, hs, seen, n) == drop_repeats_spec(cs, gs, seen, n),
    decreases n,
{
    if n > 0 {
        lemma_drop_repeats_prefix(cs, hs, gs, seen, (n - 1) as nat);
    }
}

/// Keeps the configurations of a frontier in order, but for those whose
/// exact tape was met before in their state with the same tape hash. The
/// hashes come from a hasher that each process seeds, so the contract holds
/// for some hash of each tape, not a given one.
fn drop_repeats(
    configs: &Vec<Config>,
    seen: &mut cycle::ExactSeen,
    Ghost(m): Ghost<Map<State, (Seq<Entry>, Seq<Entry>)>>,
    Ghost(states): Ghost<int>,
) -> (r: Vec<Config>)
    requires
        old(seen).wf(),
        configs_wf(configs@),
        forall|k: int| 0 <= k < configs@.len() ==> state_ok(m, states, #[trigger] configs@[k].state),
    ensures
        final(seen).wf(),
        r@.len() <= configs@.len(),
        configs_wf(r@),
        forall|k: int| 0 <= k < r@.len() ==> state_ok(m, states, #[trigger] r@[k].state),
        exists|hs: Seq<u64>| #[trigger] drop_repeats_fits(configs@, hs, old(seen)@, final(seen)@, r@),
{
    let ghost s0 = seen@;
    let ghost mut hs: Seq<u64> = Seq::empty();
    let mut r: Vec<Config> = Vec::new();
    let mut i: usize = 0;
    while i < configs.len()
        invariant
            i <= configs@.len(),
            r@.len() <= i,
            seen.wf(),
            configs_wf(configs@),
            forall|k: int| 0 <= k < configs@.len() ==> state_ok(m, states, #[trigger] configs@[k].state),
            configs_wf(r@),
            forall|k: int| 0 <= k < r@.len() ==> state_ok(m, states, #[trigger] r@[k].state),
            hs.len() == i,
            ({
                let (kept, s) = drop_repeats_spec(configs@, hs, s0, i as nat);
                &&& s == seen@
                &&& r@.len() == kept.len()
                &&& forall|k: int| 0 <= k < r@.len() ==> {
                    &&& 0 <= #[trigger] kept[k] < i
                    &&& r@[k].state == configs@[kept[k]].state
                    &&& r@[k].tape.same(configs@[kept[k]].tape)
                }
            }),
        decreases configs@.len() - i,
    {
        let config = &configs[i];
        assert(config.tape.wf());
        assert(state_ok(m, states, configs@[i as int].state));
        let ghost prev = drop_repeats_spec(configs@, hs, s0, i as nat);
        let ghost hs0 = hs;
        let ghost r0 = r@;
        let h = hash_tape(&config.tape);
        proof {
            hs = hs.push(h);
        }
        let keep = seen.insert(config.state, h, &config.tape);
        if keep {
            r.push(config.clone());
        }
        proof {
            assert(drop_repeats_spec(configs@, hs, s0, i as nat) == prev) by {
                lemma_drop_repeats_prefix(configs@, hs, hs0, s0, i as nat);
            }
            let (kept, s) = drop_repeats_spec(configs@, hs, s0, (i + 1) as nat);
            assert forall|k: int| 0 <= k < r@.len() implies {
                &&& 0 <= #[trigger] kept[k] < i + 1
                &&& r@[k].state == configs@[kept[k]].state
                &&& r@[k].tape.same(configs@[kept[k]].tape)
            } by {
                if k < r0.len() {
                    assert(kept[k] == prev.0[k]);
                }
            }
        }
        i += 1;
    }
    proof {
        assert(drop_repeats_fits(configs@, hs, s0, seen@, r@));
    }
    r
}

/// The steps that the second backward pass, which cuts steadily growing
/// edges, may take: at least 4096.
pub open spec fn cycle_budget(steps: Steps) -> int {
    if steps < 4096 { 4096 } else { steps as int }
}

/// Whether `f` holds the filters that the backward search builds for a
/// program: the colors forbidden on each side, the sides forced blank, the
/// fresh-zero rules, the least closed nonblank parities, and each table
/// exactly as its analysis from the blank tape finds it, where the sizes
/// let it be built.
pub open spec fn filters_of<const S: usize, const C: usize>(p: Prog<S, C>, f: Filters<S, C>) -> bool {
    &&& filters_base(p, f)
    &&& (f.prefixes is Some) == (f.sides is Some && Prog::<S, C>::prefixes_fit())
    &&& f.prefixes matches Some(pp) ==> pp.wf() && forall|x: prefixes::PFact| #[trigger] pp.holds(x) == p.pfx_reach(f.windows.side_parity@, f.sides->0, x)
}

/// The filters of `filters_of` but the side prefixes.
#[verifier::opaque]
pub open spec fn filters_base<const S: usize, const C: usize>(p: Prog<S, C>, f: Filters<S, C>) -> bool {
    let es = p.entries();
    let v = f.windows.side_parity@;
    &&& f.forbid_left@.len() == C
    &&& f.forbid_right@.len() == C
    &&& forall|k: int| 0 <= k < C ==> #[trigger] f.forbid_left@[k] == (k != 0 && !writes_with(es, k as u8, true))
    &&& forall|k: int| 0 <= k < C ==> #[trigger] f.forbid_right@[k] == (k != 0 && !writes_with(es, k as u8, false))
    &&& f.left_forced_blank == (forall|k: int| 1 <= k < C ==> #[trigger] f.forbid_left@[k])
    &&& f.right_forced_blank == (forall|k: int| 1 <= k < C ==> #[trigger] f.forbid_right@[k])
    &&& f.left_fresh_zero == !writes_with(es, 0, true)
    &&& f.right_fresh_zero == !writes_with(es, 0, false)
    &&& f.nonblank_parity.possible@.len() == S
    &&& parity_closed(es, f.nonblank_parity.possible@)
    &&& forall|w: Seq<u8>| w.len() == S && #[trigger] parity_closed(es, w) ==> forall|i: int|
        0 <= i < S ==> parity_sub(f.nonblank_parity.possible@[i], w[i])
    &&& p.win_exact(f.windows, f.forbid_left@, f.forbid_right@)
    &&& (f.sides is Some) == Prog::<S, C>::sides_fit()
    &&& f.sides matches Some(sp) ==> sp.sized() && forall|x: sides::Fact| #[trigger] sp.holds(x) == p.side_reach(v, x)
    &&& (f.counts is Some) == (S >= 1 && 1 <= C <= 64 && Prog::<S, C>::tails_fit())
    &&& (f.pairs is Some) == (f.counts is Some)
    &&& f.counts matches Some(ct) ==> ct.wf() && forall|x: tails::CFact| #[trigger] ct.holds(x) == p.count_reach(v, x)
    &&& f.pairs matches Some(pt) ==> pt.wf() && forall|x: tails::PrFact| #[trigger] pt.holds(x) == p.pair_reach(v, x)
    &&& (f.blank_sides is Some) == (S <= 64 && f.counts is Some)
    &&& f.blank_sides matches Some(b) ==> {
        &&& b.sized()
        &&& forall|x: joint::JFact| #[trigger] b.joint.holds(x) == p.joint_reach(v, x)
        &&& forall|st: int, co: int, j: int| 0 <= st < S && 0 <= co < C && 0 <= j < C ==> #[trigger] sides::mask_bit(b.left_half@[st]@[co], j)
            == p.half_reach(v, false, false, (st as State, co as Color, j as Color))
        &&& forall|st: int, co: int, j: int| 0 <= st < S && 0 <= co < C && 0 <= j < C ==> #[trigger] sides::mask_bit(b.right_half@[st]@[co], j)
            == p.half_reach(v, true, false, (st as State, co as Color, j as Color))
    }
}

/// Whether the static filters drop a target under filters `f`: the side
/// filters reject it, or every tape with the plain values they leave fails
/// the window, table and prefix filters.
pub open spec fn statically_dropped<const S: usize, const C: usize>(state: State, tape: Tape, f: Filters<S, C>) -> bool {
    match side_filter_v::<S, C>(state, tape_v(tape), f) {
        None => true,
        Some(tv) => forall|t: Tape| tape_v(t) == tv ==> !#[trigger] window_conj::<S, C>(state, t, f),
    }
}

/// Whether a tape fails the window and table filters of `f`, or the
/// side-prefix filter where `f` has one.
pub open spec fn stage_fails<const S: usize, const C: usize>(state: State, t: Tape, f: Filters<S, C>) -> bool {
    ||| !window_conj::<S, C>(state, t, Filters { prefixes: None, ..f })
    ||| (f.prefixes matches Some(pp) && !pp.prefix_ok(state, t))
}

/// Whether the static filters `f` reject a target given by its plain
/// values: the side filters reject it, or a tape with the values they
/// leave fails the later filters.
pub open spec fn stage_rejects<const S: usize, const C: usize>(state: State, tv: TapeV, f: Filters<S, C>) -> bool {
    match side_filter_v::<S, C>(state, tv, f) {
        None => true,
        Some(t1) => exists|t: Tape| tape_v(t) == t1 && #[trigger] stage_fails::<S, C>(state, t, f),
    }
}

/// Whether the static filters that the backward search builds for a
/// program reject a target given by its plain values.
pub open spec fn rejected<const S: usize, const C: usize>(p: Prog<S, C>, state: State, tv: TapeV) -> bool {
    exists|f: Filters<S, C>| #[trigger] filters_base(p, f) && stage_rejects::<S, C>(state, tv, f)
}

/// Whether the static filters that the search builds for a program drop a
/// target given by its plain values (as `statically_dropped` says of a
/// tape).
pub open spec fn dropped<const S: usize, const C: usize>(p: Prog<S, C>, state: State, tv: TapeV) -> bool {
    forall|f: Filters<S, C>| #[trigger] filters_of(p, f) ==> match side_filter_v::<S, C>(state, tv, f) {
        None => true,
        Some(t1) => forall|t: Tape| tape_v(t) == t1 ==> !#[trigger] window_conj::<S, C>(state, t, f),
    }
}

/// Every configuration on the run from the blank tape but the start is in
/// a state that some instruction enters.
pub proof fn lemma_reached_entered<const S: usize, const C: usize>(p: Prog<S, C>, c: crate::run::Conf)
    requires
        p.inv(),
        p.conf_reach(c),
        c != crate::run::blank_conf(),
    ensures
        entrypoint_spec(p.entries()).dom().contains(c.0),
{
    p.lemma_reach_pred(c);
    let x = choose|x: crate::run::Conf| #[trigger] p.conf_reach(x) && p.conf_step(x, c);
    let j = p.lemma_step_entry(x, c);
    assert(p.entries()[j].1.2 == c.0);
}

/// The description searched back from for a halt slot: its state and
/// color, with nothing known on either side.
pub open spec fn halt_tv(sl: Slot) -> TapeV {
    (sl.1, Seq::empty(), TapeEnd::Unknown, Seq::empty(), TapeEnd::Unknown)
}

/// The description searched back from for an erasing slot: its color on
/// an otherwise blank tape.
pub open spec fn erase_tv(sl: Slot) -> TapeV {
    (sl.1, Seq::empty(), TapeEnd::Blanks, Seq::empty(), TapeEnd::Blanks)
}

/// The description searched back from for a state that stays in itself
/// on blank moving by `x.1`: blank scanned, blank beyond on that side.
pub open spec fn zr_tv(x: (State, Shift)) -> TapeV {
    (
        0,
        Seq::empty(),
        if x.1 { TapeEnd::Unknown } else { TapeEnd::Blanks },
        Seq::empty(),
        if x.1 { TapeEnd::Blanks } else { TapeEnd::Unknown },
    )
}

/// Whether the static filters that the search builds for a program drop
/// every target.
#[verifier::opaque]
pub open spec fn all_dropped<const S: usize, const C: usize>(p: Prog<S, C>, targets: Seq<Config>) -> bool {
    forall|f: Filters<S, C>| #[trigger] filters_of(p, f) ==> forall|i: int| 0 <= i < targets.len()
        ==> statically_dropped::<S, C>(targets[i].state, targets[i].tape, f)
}

/// A list in the reverse order.
fn reversed(v: Vec<Config>) -> (r: Vec<Config>)
    ensures
        r@.len() == v@.len(),
        forall|k: int| 0 <= k < r@.len() ==> #[trigger] r@[k] == v@[v@.len() - 1 - k],
{
    let ghost v0 = v@;
    let mut v = v;
    let mut r: Vec<Config> = Vec::new();
    while v.len() > 0
        invariant
            v@.len() + r@.len() == v0.len(),
            v@ == v0.subrange(0, v@.len() as int),
            forall|k: int| 0 <= k < r@.len() ==> #[trigger] r@[k] == v0[v0.len() - 1 - k],
        decreases v@.len(),
    {
        let c = v.pop().unwrap();
        r.push(c);
    }
    r
}

/// The configurations that pass the window and table filters, in order.
fn keep_window<const S: usize, const C: usize>(v: Vec<Config>, f: &Filters<S, C>) -> (r: Vec<Config>)
    requires
        f.windows.sized(S as int, C as int),
        f.summaries_ok(),
        1 <= C <= 64,
        configs_wf(v@),
    ensures
        forall|k: int| 0 <= k < r@.len() ==> v@.contains(#[trigger] r@[k]) && window_conj::<S, C>(r@[k].state, r@[k].tape, *f),
        forall|j: int| 0 <= j < v@.len() && window_conj::<S, C>(v@[j].state, v@[j].tape, *f) ==> r@.contains(#[trigger] v@[j]),
{
    let ghost v0 = v@;
    let mut rev = reversed(v);
    let mut r: Vec<Config> = Vec::new();
    while rev.len() > 0
        invariant
            f.windows.sized(S as int, C as int),
            f.summaries_ok(),
            1 <= C <= 64,
            configs_wf(v0),
            rev@.len() <= v0.len(),
            forall|k: int| 0 <= k < rev@.len() ==> #[trigger] rev@[k] == v0[v0.len() - 1 - k],
            forall|k: int| 0 <= k < r@.len() ==> v0.contains(#[trigger] r@[k]) && window_conj::<S, C>(r@[k].state, r@[k].tape, *f),
            forall|j: int| 0 <= j < v0.len() - rev@.len() && window_conj::<S, C>(v0[j].state, v0[j].tape, *f) ==> r@.contains(#[trigger] v0[j]),
        decreases rev@.len(),
    {
        let ghost n = rev@.len();
        let ghost r0 = r@;
        let c = rev.pop().unwrap();
        assert(c == v0[v0.len() - n]);
        assert(c.tape.wf());
        if passes_window_filters::<S, C>(c.state, &c.tape, f) {
            r.push(c);
        }
        proof {
            assert forall|j: int| 0 <= j < v0.len() - rev@.len() && window_conj::<S, C>(v0[j].state, v0[j].tape, *f)
                implies r@.contains(#[trigger] v0[j]) by {
                if j < v0.len() - n {
                    let q = choose|q: int| 0 <= q < r0.len() && r0[q] == v0[j];
                    assert(r@[q] == r0[q]);
                } else {
                    assert(r@[r@.len() - 1] == v0[j]);
                }
            }
        }
    }
    r
}

/// The configurations that pass the side-prefix filter, in order.
fn keep_prefix<const S: usize, const C: usize>(v: Vec<Config>, pp: &SidePrefixPossible<S, C>) -> (r: Vec<Config>)
    requires
        pp.wf(),
    ensures
        forall|k: int| 0 <= k < r@.len() ==> v@.contains(#[trigger] r@[k]) && pp.prefix_ok(r@[k].state, r@[k].tape),
        forall|j: int| 0 <= j < v@.len() && pp.prefix_ok(v@[j].state, v@[j].tape) ==> r@.contains(#[trigger] v@[j]),
{
    let ghost v0 = v@;
    let mut rev = reversed(v);
    let mut r: Vec<Config> = Vec::new();
    while rev.len() > 0
        invariant
            pp.wf(),
            rev@.len() <= v0.len(),
            forall|k: int| 0 <= k < rev@.len() ==> #[trigger] rev@[k] == v0[v0.len() - 1 - k],
            forall|k: int| 0 <= k < r@.len() ==> v0.contains(#[trigger] r@[k]) && pp.prefix_ok(r@[k].state, r@[k].tape),
            forall|j: int| 0 <= j < v0.len() - rev@.len() && pp.prefix_ok(v0[j].state, v0[j].tape) ==> r@.contains(#[trigger] v0[j]),
        decreases rev@.len(),
    {
        let ghost n = rev@.len();
        let ghost r0 = r@;
        let c = rev.pop().unwrap();
        assert(c == v0[v0.len() - n]);
        if c.tape.obeys_side_prefix_possible(c.state, pp) {
            r.push(c);
        }
        proof {
            assert forall|j: int| 0 <= j < v0.len() - rev@.len() && pp.prefix_ok(v0[j].state, v0[j].tape)
                implies r@.contains(#[trigger] v0[j]) by {
                if j < v0.len() - n {
                    let q = choose|q: int| 0 <= q < r0.len() && r0[q] == v0[j];
                    assert(r@[q] == r0[q]);
                } else {
                    assert(r@[r@.len() - 1] == v0[j]);
                }
            }
        }
    }
    r
}

/// The filters that the backward search builds for a program, before the
/// side prefixes.
fn build_filters<const S: usize, const C: usize>(prog: &Prog<S, C>) -> (f: Filters<S, C>)
    requires
        S >= 1,
        1 <= C <= 64,
        prints_below(prog.instr_list(), C as int),
        targets_below(prog.instr_list(), S as int),
    ensures
        filters_base(*prog, f),
        f.prefixes is None,
        f.nonblank_parity.possible@.len() == S,
        f.windows.sized(S as int, C as int),
        f.summaries_ok(),
{
    reveal(filters_base);
    let (forbid_left, forbid_right) = prog.shift_side_forbidden();
    let left_forced_blank = all_nonblank_forbidden(&forbid_left);
    let right_forced_blank = all_nonblank_forbidden(&forbid_right);
    let (writes_blank_on_r, writes_blank_on_l) = prog.blank_writes_by_shift();
    let nonblank_parity = prog.nonblank_parity_from_blank();
    let windows = prog.win_possible_from_blank(&forbid_left, &forbid_right);
    let sides = if sides::sides_fit_check::<S, C>() {
        Some(prog.side_possible_from_blank(&windows))
    } else {
        None
    };
    let (counts, pairs) = if tails::tails_fit_check::<S, C>() {
        (Some(tails::color_tail_count_from_blank(prog, &windows)), Some(tails::pair_tail_presence_from_blank(prog, &windows)))
    } else {
        (None, None)
    };
    let blank_sides = if S <= 64 && tails::tails_fit_check::<S, C>() {
        Some(halfblank::blank_side_possible_from_blank(prog, &windows))
    } else {
        None
    };
    let f = Filters {
        forbid_left,
        forbid_right,
        left_forced_blank,
        right_forced_blank,
        left_fresh_zero: !writes_blank_on_r,
        right_fresh_zero: !writes_blank_on_l,
        nonblank_parity,
        windows,
        sides,
        counts,
        pairs,
        prefixes: None,
        blank_sides,
    };
    proof {
        let p = *prog;
        let es = p.entries();
        let v = f.windows.side_parity@;
        assert(f.forbid_left@.len() == C);
        assert(forall|k: int| 0 <= k < C ==> #[trigger] f.forbid_left@[k] == (k != 0 && !writes_with(es, k as u8, true)));
        assert(f.left_forced_blank == (forall|k: int| 1 <= k < C ==> #[trigger] f.forbid_left@[k]));
        assert(f.left_fresh_zero == !writes_with(es, 0, true));
        assert(parity_closed(es, f.nonblank_parity.possible@));
        assert(forall|w: Seq<u8>| w.len() == S && #[trigger] parity_closed(es, w) ==> forall|i: int|
            0 <= i < S ==> parity_sub(f.nonblank_parity.possible@[i], w[i]));
        assert(p.win_exact(f.windows, f.forbid_left@, f.forbid_right@));
        assert((f.sides is Some) == Prog::<S, C>::sides_fit());
        assert(f.sides matches Some(sp) ==> sp.sized() && forall|x: sides::Fact| #[trigger] sp.holds(x) == p.side_reach(v, x));
        assert((f.counts is Some) == (S >= 1 && 1 <= C <= 64 && Prog::<S, C>::tails_fit()));
        assert(f.counts matches Some(ct) ==> ct.wf() && forall|x: tails::CFact| #[trigger] ct.holds(x) == p.count_reach(v, x));
        assert((f.blank_sides is Some) == (S <= 64 && f.counts is Some));
    }
    f
}

/// The side filters applied to the targets: the configurations they
/// leave, in order, each with the position of its target.
fn side_stage<const S: usize, const C: usize>(targets: &Vec<Config>, f: &Filters<S, C>) -> (r: (Vec<Config>, Ghost<Seq<int>>))
    requires
        f.nonblank_parity.possible@.len() == S,
        configs_wf(targets@),
        forall|i: int| 0 <= i < targets@.len() ==> ((#[trigger] targets@[i]).state as int) < S,
    ensures
        configs_wf(r.0@),
        r.1@.len() == r.0@.len(),
        forall|k: int| 0 <= k < r.0@.len() ==> 0 <= #[trigger] r.1@[k] < targets@.len()
            && r.0@[k].state == targets@[r.1@[k]].state
            && side_filter_v::<S, C>(targets@[r.1@[k]].state, tape_v(targets@[r.1@[k]].tape), *f) == Some(tape_v(r.0@[k].tape)),
        forall|j: int| 0 <= j < targets@.len() ==> side_filter_v::<S, C>(targets@[j].state, tape_v(targets@[j].tape), *f) is None
            || exists|k: int| 0 <= k < r.0@.len() && #[trigger] r.1@[k] == j,
{
    let mut cheap: Vec<Config> = Vec::new();
    let ghost mut src: Seq<int> = Seq::empty();
    let mut i: usize = 0;
    while i < targets.len()
        invariant
            i <= targets@.len(),
            f.nonblank_parity.possible@.len() == S,
            configs_wf(targets@),
            forall|k: int| 0 <= k < targets@.len() ==> ((#[trigger] targets@[k]).state as int) < S,
            configs_wf(cheap@),
            src.len() == cheap@.len(),
            forall|k: int| 0 <= k < cheap@.len() ==> 0 <= #[trigger] src[k] < targets@.len()
                && cheap@[k].state == targets@[src[k]].state
                && side_filter_v::<S, C>(targets@[src[k]].state, tape_v(targets@[src[k]].tape), *f) == Some(tape_v(cheap@[k].tape)),
            forall|j: int| 0 <= j < i ==> side_filter_v::<S, C>(targets@[j].state, tape_v(targets@[j].tape), *f) is None
                || exists|k: int| 0 <= k < cheap@.len() && #[trigger] src[k] == j,
        decreases targets@.len() - i,
    {
        let mut tape = targets[i].tape.clone();
        let state = targets[i].state;
        assert(((targets@[i as int]).state as int) < S);
        let ghost c0 = cheap@;
        let ghost s0 = src;
        if passes_side_filters(state, &mut tape, f) {
            proof {
                src = src.push(i as int);
            }
            cheap.push(Config::new(state, tape));
            proof {
                assert(src[cheap@.len() - 1] == i);
            }
        }
        proof {
            assert forall|j: int| 0 <= j < i + 1 implies side_filter_v::<S, C>(targets@[j].state, tape_v(targets@[j].tape), *f) is None
                || exists|k: int| 0 <= k < cheap@.len() && #[trigger] src[k] == j by {
                if j < i && side_filter_v::<S, C>(targets@[j].state, tape_v(targets@[j].tape), *f) is Some {
                    let k = choose|k: int| 0 <= k < c0.len() && #[trigger] s0[k] == j;
                    assert(src[k] == s0[k]);
                }
            }
        }
        i += 1;
    }
    (cheap, Ghost(src))
}

/// A target that the side filters keep and the later filters do not
/// reject has its configuration among those the window filters keep.
proof fn lemma_window_stage<const S: usize, const C: usize>(
    targets: Seq<Config>,
    src: Seq<int>,
    cheap: Seq<Config>,
    windowed: Seq<Config>,
    f: Filters<S, C>,
)
    requires
        f.prefixes is None,
        src.len() == cheap.len(),
        forall|k: int| 0 <= k < cheap.len() ==> 0 <= #[trigger] src[k] < targets.len()
            && cheap[k].state == targets[src[k]].state
            && side_filter_v::<S, C>(targets[src[k]].state, tape_v(targets[src[k]].tape), f) == Some(tape_v(cheap[k].tape)),
        forall|j: int| 0 <= j < targets.len() ==> side_filter_v::<S, C>(targets[j].state, tape_v(targets[j].tape), f) is None
            || exists|k: int| 0 <= k < cheap.len() && #[trigger] src[k] == j,
        forall|j: int| 0 <= j < cheap.len() && window_conj::<S, C>(cheap[j].state, cheap[j].tape, f) ==> windowed.contains(#[trigger] cheap[j]),
    ensures
        forall|i: int| 0 <= i < targets.len() && side_filter_v::<S, C>(targets[i].state, tape_v(targets[i].tape), f) is Some
            && !stage_rejects::<S, C>(targets[i].state, tape_v(targets[i].tape), f) ==>
            exists|k: int| 0 <= k < cheap.len() && src[k] == i && #[trigger] windowed.contains(cheap[k]),
{
    assert(f == (Filters { prefixes: None, ..f }));
    assert forall|i: int| 0 <= i < targets.len() && side_filter_v::<S, C>(targets[i].state, tape_v(targets[i].tape), f) is Some
        && !stage_rejects::<S, C>(targets[i].state, tape_v(targets[i].tape), f) implies
        exists|k: int| 0 <= k < cheap.len() && src[k] == i && #[trigger] windowed.contains(cheap[k]) by {
        let k = choose|k: int| 0 <= k < cheap.len() && #[trigger] src[k] == i;
        if !window_conj::<S, C>(cheap[k].state, cheap[k].tape, f) {
            assert(stage_fails::<S, C>(targets[i].state, cheap[k].tape, f));
        }
    }
}

/// Where the side-prefix filter keeps nothing, every target is rejected.
proof fn lemma_prefix_stage<const S: usize, const C: usize>(
    targets: Seq<Config>,
    src: Seq<int>,
    cheap: Seq<Config>,
    windowed: Seq<Config>,
    f2: Filters<S, C>,
    f: Filters<S, C>,
)
    requires
        f2.prefixes is None,
        f2 == (Filters { prefixes: None, ..f }),
        f.prefixes is Some,
        forall|i: int| 0 <= i < targets.len() && side_filter_v::<S, C>(targets[i].state, tape_v(targets[i].tape), f2) is Some
            && !stage_rejects::<S, C>(targets[i].state, tape_v(targets[i].tape), f2) ==>
            exists|k: int| 0 <= k < cheap.len() && src[k] == i && #[trigger] windowed.contains(cheap[k]),
        forall|k: int| 0 <= k < cheap.len() ==> 0 <= #[trigger] src[k] < targets.len()
            && cheap[k].state == targets[src[k]].state
            && side_filter_v::<S, C>(targets[src[k]].state, tape_v(targets[src[k]].tape), f2) == Some(tape_v(cheap[k].tape)),
        forall|j: int| 0 <= j < windowed.len() ==> !(f.prefixes->0).prefix_ok(#[trigger] windowed[j].state, windowed[j].tape),
    ensures
        forall|i: int| 0 <= i < targets.len() ==> #[trigger] stage_rejects::<S, C>(targets[i].state, tape_v(targets[i].tape), f),
{
    reveal(side_filter_v);
    assert forall|i: int| 0 <= i < targets.len() implies #[trigger] stage_rejects::<S, C>(targets[i].state, tape_v(targets[i].tape), f) by {
        assert(side_filter_v::<S, C>(targets[i].state, tape_v(targets[i].tape), f2)
            == side_filter_v::<S, C>(targets[i].state, tape_v(targets[i].tape), f));
        if side_filter_v::<S, C>(targets[i].state, tape_v(targets[i].tape), f) is Some
            && !stage_rejects::<S, C>(targets[i].state, tape_v(targets[i].tape), f) {
            if !stage_rejects::<S, C>(targets[i].state, tape_v(targets[i].tape), f2) {
                let k = choose|k: int| 0 <= k < cheap.len() && src[k] == i && #[trigger] windowed.contains(cheap[k]);
                let j = choose|j: int| 0 <= j < windowed.len() && windowed[j] == cheap[k];
                assert(!(f.prefixes->0).prefix_ok(windowed[j].state, windowed[j].tape));
                assert(stage_fails::<S, C>(targets[i].state, cheap[k].tape, f));
            } else {
                let t1 = side_filter_v::<S, C>(targets[i].state, tape_v(targets[i].tape), f2)->0;
                let t = choose|t: Tape| tape_v(t) == t1 && #[trigger] stage_fails::<S, C>(targets[i].state, t, f2);
                assert(stage_fails::<S, C>(targets[i].state, t, f));
            }
        }
    }
}

/// The filters but the side prefixes are found alike for filters that
/// agree on all but those.
proof fn lemma_base_same<const S: usize, const C: usize>(p: Prog<S, C>, f: Filters<S, C>, g: Filters<S, C>)
    requires
        filters_base(p, f),
        g.forbid_left == f.forbid_left,
        g.forbid_right == f.forbid_right,
        g.left_forced_blank == f.left_forced_blank,
        g.right_forced_blank == f.right_forced_blank,
        g.left_fresh_zero == f.left_fresh_zero,
        g.right_fresh_zero == f.right_fresh_zero,
        g.nonblank_parity == f.nonblank_parity,
        g.windows == f.windows,
        g.sides == f.sides,
        g.counts == f.counts,
        g.pairs == f.pairs,
        g.blank_sides == f.blank_sides,
    ensures
        filters_base(p, g),
{
    reveal(filters_base);
}

/// The static filters of the backward search applied to its targets: the
/// configurations left, in order, and the filters, with the side prefixes
/// where they were found. Where the filters drop every target, none is
/// left.
#[verifier::rlimit(100)]
fn static_stage<const S: usize, const C: usize>(prog: &Prog<S, C>, targets: &Vec<Config>) -> (r: (Vec<Config>, Filters<S, C>))
    requires
        S >= 1,
        1 <= C <= 64,
        prints_below(prog.instr_list(), C as int),
        targets_below(prog.instr_list(), S as int),
        configs_wf(targets@),
        forall|i: int| 0 <= i < targets@.len() ==> ((#[trigger] targets@[i]).state as int) < S,
    ensures
        r.0@.len() > 0 ==> filters_of(*prog, r.1),
        r.1.nonblank_parity.possible@.len() == S,
        r.1.windows.sized(S as int, C as int),
        r.1.summaries_ok(),
        configs_wf(r.0@),
        forall|k: int| 0 <= k < r.0@.len() ==> ((#[trigger] r.0@[k]).state as int) < S,
        all_dropped(*prog, targets@) ==> r.0@.len() == 0,
        filters_base(*prog, r.1),
        r.0@.len() == 0 ==> forall|i: int| 0 <= i < targets@.len() ==> #[trigger] stage_rejects::<S, C>(
            targets@[i].state,
            tape_v(targets@[i].tape),
            r.1,
        ),
{
    let mut f = build_filters(prog);
    let ghost f2 = f;
    let (cheap, Ghost(src)) = side_stage::<S, C>(targets, &f);
    if cheap.len() == 0 {
        proof {
            assert forall|i: int| 0 <= i < targets@.len() implies #[trigger] stage_rejects::<S, C>(
                targets@[i].state,
                tape_v(targets@[i].tape),
                f,
            ) by {
                if side_filter_v::<S, C>(targets@[i].state, tape_v(targets@[i].tape), f) is Some {
                    let k = choose|k: int| 0 <= k < cheap@.len() && #[trigger] src[k] == i;
                }
            }
        }
        return (cheap, f);
    }
    let ghost cheap0 = cheap@;
    let mut configs = keep_window::<S, C>(cheap, &f);
    proof {
        lemma_window_stage(targets@, src, cheap0, configs@, f);
    }
    if configs.len() == 0 {
        proof {
            assert forall|i: int| 0 <= i < targets@.len() implies #[trigger] stage_rejects::<S, C>(
                targets@[i].state,
                tape_v(targets@[i].tape),
                f,
            ) by {
                if side_filter_v::<S, C>(targets@[i].state, tape_v(targets@[i].tape), f) is Some
                    && !stage_rejects::<S, C>(targets@[i].state, tape_v(targets@[i].tape), f) {
                    let k = choose|k: int| 0 <= k < cheap0.len() && src[k] == i && #[trigger] configs@.contains(cheap0[k]);
                }
            }
        }
        return (configs, f);
    }
    let ghost configs2 = configs@;
    let ghost cfgs = configs@;
    // The side prefixes cost the most to find: they are found only where
    // the other filters leave some configuration.
    if let Some(sp) = &f.sides {
        if prefixes::prefixes_fit_check::<S, C>() {
            let pp = prog.side_prefix_possible_from_blank(&f.windows, sp);
            let kept = keep_prefix::<S, C>(configs, &pp);
            configs = kept;
            f.prefixes = Some(pp);
        }
    }
    proof {
        lemma_base_same(*prog, f2, f);
        if configs@.len() == 0 {
            lemma_prefix_stage(targets@, src, cheap0, configs2, f2, f);
        }
        assert forall|k: int| 0 <= k < configs@.len() implies configs2.contains(#[trigger] configs@[k])
            && (f.prefixes matches Some(pp) ==> pp.prefix_ok(configs@[k].state, configs@[k].tape)) by {
            if f.prefixes is None {
                assert(configs@[k] == configs2[k]);
            }
        }
        lemma_static_left(*prog, targets@, src, cheap0, configs2, configs@, f2, f);
    }
    (configs, f)
}

/// What the static stage leaves: copies of targets that pass every
/// static filter; none where the filters drop every target.
proof fn lemma_static_left<const S: usize, const C: usize>(
    p: Prog<S, C>,
    targets: Seq<Config>,
    src: Seq<int>,
    cheap: Seq<Config>,
    windowed: Seq<Config>,
    left: Seq<Config>,
    f2: Filters<S, C>,
    f: Filters<S, C>,
)
    requires
        filters_of(p, f),
        f2 == (Filters { prefixes: None, ..f }),
        configs_wf(targets),
        forall|i: int| 0 <= i < targets.len() ==> ((#[trigger] targets[i]).state as int) < S,
        src.len() == cheap.len(),
        configs_wf(cheap),
        forall|k: int| 0 <= k < cheap.len() ==> 0 <= #[trigger] src[k] < targets.len()
            && cheap[k].state == targets[src[k]].state
            && side_filter_v::<S, C>(targets[src[k]].state, tape_v(targets[src[k]].tape), f2) == Some(tape_v(cheap[k].tape)),
        forall|k: int| 0 <= k < windowed.len() ==> cheap.contains(#[trigger] windowed[k])
            && window_conj::<S, C>(windowed[k].state, windowed[k].tape, f2),
        forall|k: int| 0 <= k < left.len() ==> windowed.contains(#[trigger] left[k])
            && (f.prefixes matches Some(pp) ==> pp.prefix_ok(left[k].state, left[k].tape)),
    ensures
        configs_wf(left),
        forall|k: int| 0 <= k < left.len() ==> ((#[trigger] left[k]).state as int) < S,
        all_dropped(p, targets) ==> left.len() == 0,
{
    assert forall|k: int| 0 <= k < left.len() implies (#[trigger] left[k]).tape.wf() && (left[k].state as int) < S by {
        assert(windowed.contains(left[k]));
        let j = choose|j: int| 0 <= j < windowed.len() && windowed[j] == left[k];
        assert(cheap.contains(windowed[j]));
        let q = choose|q: int| 0 <= q < cheap.len() && cheap[q] == windowed[j];
        assert(cheap[q].tape.wf());
        assert(targets[src[q]].state == cheap[q].state);
    }
    if left.len() > 0 && all_dropped(p, targets) {
        let x = left[0];
        assert(windowed.contains(x));
        let j = choose|j: int| 0 <= j < windowed.len() && windowed[j] == x;
        assert(cheap.contains(windowed[j]));
        let q = choose|q: int| 0 <= q < cheap.len() && cheap[q] == windowed[j];
        let ti = src[q];
        reveal(all_dropped);
        assert(statically_dropped::<S, C>(targets[ti].state, targets[ti].tape, f));
        reveal(side_filter_v);
        assert(side_filter_v::<S, C>(targets[ti].state, tape_v(targets[ti].tape), f2)
            == side_filter_v::<S, C>(targets[ti].state, tape_v(targets[ti].tape), f));
        assert(window_conj::<S, C>(x.state, x.tape, f2));
        reveal(window_conj);
        assert(window_conj::<S, C>(x.state, x.tape, f));
    }
}

/// The backward search from a set of target configurations, after the
/// static filters: at each step the frontier is replaced by the
/// predecessors of its configurations. It is refuted at the step where no
/// configuration can be stepped back from, and gives up on reaching the
/// initial configuration, on a run count that no longer fits, on more than
/// `MAX_STACK_DEPTH` branches, or after `steps` steps.
pub fn cant_reach_once<const S: usize, const C: usize>(
    prog: &Prog<S, C>,
    steps: Steps,
    targets: Vec<Config>,
    entrypoints: &Entrypoints,
    cycle: bool,
) -> (r: BackwardResult)
    requires
        S >= 1,
        1 <= C <= 64,
        prints_below(prog.instr_list(), C as int),
        targets_below(prog.instr_list(), S as int),
        entries_ok(entrypoint_contents(entrypoints), S as int),
        configs_wf(targets@),
        forall|i: int| 0 <= i < targets@.len() ==> state_ok(entrypoint_contents(entrypoints), S as int, #[trigger] targets@[i].state),
    ensures
        r matches BackwardResult::Refuted(n) ==> n <= steps,
        targets@.len() == 0 ==> r == BackwardResult::Refuted(0),
        all_dropped(*prog, targets@) ==> r == BackwardResult::Refuted(0),
        r == BackwardResult::Refuted(0) ==> forall|i: int| 0 <= i < targets@.len() ==> #[trigger] rejected(
            *prog,
            targets@[i].state,
            tape_v(targets@[i].tape),
        ),
        r matches BackwardResult::Refuted(n) && n > 0 ==> !all_dropped(*prog, targets@),
{
    let ghost m = entrypoint_contents(entrypoints);
    assert forall|i: int| 0 <= i < targets@.len() implies ((#[trigger] targets@[i]).state as int) < S by {
        assert(state_ok(m, S as int, targets@[i].state));
    }
    let (mut configs, f) = static_stage(prog, &targets);
    if configs.len() == 0 {
        proof {
            assert forall|i: int| 0 <= i < targets@.len() implies #[trigger] rejected(*prog, targets@[i].state, tape_v(targets@[i].tape)) by {
                assert(stage_rejects::<S, C>(targets@[i].state, tape_v(targets@[i].tape), f));
                assert(filters_base(*prog, f));
            }
        }
        return BackwardResult::Refuted(0);
    }
    assert(!all_dropped(*prog, targets@));
    assert(targets@.len() > 0) by {
        reveal(all_dropped);
    }
    assert forall|k: int| 0 <= k < configs@.len() implies state_ok(m, S as int, #[trigger] configs@[k].state) by {}
    let mut blanks = get_blanks(&configs);
    let mut seen = seen_set_new();
    let mut exact = cycle::ExactSeen::new();
    let mut cyc = CycleMode { on: cycle, step: 0, history: cycle::OverflowCycleHistory::new() };
    let mut n: usize = 0;
    while n < steps
        invariant
            n <= steps,
            !all_dropped(*prog, targets@),
            exact.wf(),
            cyc.history.wf(),
            targets@.len() > 0,
            f.nonblank_parity.possible@.len() == S,
            f.windows.sized(S as int, C as int),
            f.summaries_ok(),
            1 <= C <= 64,
            m == entrypoint_contents(entrypoints),
            entries_ok(m, S as int),
            configs_wf(configs@),
            forall|k: int| 0 <= k < configs@.len() ==> state_ok(m, S as int, #[trigger] configs@[k].state),
        decreases steps - n,
    {
        let step = n + 1;
        cyc.step = step;
        let kept = if cycle {
            drop_repeats(&configs, &mut exact, Ghost(m), Ghost(S as int))
        } else {
            drop_seen(&configs, &mut seen, Ghost(m), Ghost(S as int))
        };
        let valid = match get_valid_steps(kept, entrypoints, Ghost(S as int)) {
            Err(e) => return e,
            Ok(v) => v,
        };
        if valid.len() == 0 {
            return BackwardResult::Refuted(step);
        }
        if MAX_STACK_DEPTH < valid.len() {
            return BackwardResult::DepthLimit;
        }
        configs = match step_configs::<S, C>(&valid, &mut blanks, &f, &mut cyc, Ghost(m), Ghost(S as int)) {
            Err(e) => return e,
            Ok(v) => v,
        };
        n += 1;
    }
    BackwardResult::StepLimit
}

/// Entry lists drawn from a table name only states of the table.
pub proof fn lemma_entries_ok<const S: usize, const C: usize>(p: Prog<S, C>)
    requires
        p.inv(),
    ensures
        entries_ok(entrypoint_spec(p.entries()), S as int),
{
    let es = p.entries();
    let m = entrypoint_spec(es);
    lemma_entry_slots(p);
    assert forall|t: State, k: int, same: bool| #![trigger m[t], choose_list(m[t], same)[k]] m.dom().contains(t) && 0 <= k < choose_list(m[t], same).len() implies {
        let e = choose_list(m[t], same)[k];
        (e.0.0 as int) < S
    } by {
        assert(choose_list(m[t], same) == entry_list(es, t, same));
        lemma_entry_list_from(es, t, same, k);
        let i = choose|i: int| 0 <= i < es.len() && (#[trigger] es[i]).0 == entry_list(es, t, same)[k].0
            && es[i].1.2 == t && es[i].1.0 == entry_list(es, t, same)[k].1.0
            && es[i].1.1 == entry_list(es, t, same)[k].1.1
            && ((es[i].0.0 == t) == same);
        assert((es[i].0.0 as int) < S);
    }
}


/// Whether some target is in a state that an instruction enters.
pub open spec fn some_entered(targets: Seq<Config>, m: Map<State, (Seq<Entry>, Seq<Entry>)>) -> bool {
    exists|i: int| 0 <= i < targets.len() && m.dom().contains(#[trigger] targets[i].state)
}

/// Where the static filters do not drop every target of a search from
/// copies of entered targets, some entered target survives them.
proof fn lemma_surviving_target<const S: usize, const C: usize>(
    p: Prog<S, C>,
    targets: Seq<Config>,
    src: Seq<int>,
    kept: Seq<Config>,
    m: Map<State, (Seq<Entry>, Seq<Entry>)>,
)
    requires
        !all_dropped(p, kept),
        src.len() == kept.len(),
        forall|k: int| 0 <= k < kept.len() ==> 0 <= #[trigger] src[k] < targets.len()
            && kept[k].state == targets[src[k]].state && tape_v(kept[k].tape) == tape_v(targets[src[k]].tape),
        forall|k: int| 0 <= k < kept.len() ==> m.dom().contains(#[trigger] kept[k].state),
    ensures
        exists|i: int| 0 <= i < targets.len() && m.dom().contains(targets[i].state)
            && !#[trigger] dropped(p, targets[i].state, tape_v(targets[i].tape)),
{
    reveal(all_dropped);
    let f = choose|f: Filters<S, C>| #[trigger] filters_of(p, f) && !(forall|i: int| 0 <= i < kept.len()
        ==> statically_dropped::<S, C>(kept[i].state, kept[i].tape, f));
    let k = choose|k: int| 0 <= k < kept.len() && !statically_dropped::<S, C>(kept[k].state, kept[k].tape, f);
    let i = src[k];
    assert(m.dom().contains(kept[k].state));
    assert(!dropped(p, targets[i].state, tape_v(targets[i].tape))) by {
        if dropped(p, targets[i].state, tape_v(targets[i].tape)) {
            assert(filters_of(p, f));
        }
    }
}

/// The backward search for a set of targets, with those in states that
/// no instruction enters dropped first: refuted at once where none is
/// left.
fn cant_reach<const S: usize, const C: usize>(
    prog: &Prog<S, C>,
    steps: Steps,
    targets: Vec<Config>,
    entrypoints: &Entrypoints,
) -> (r: BackwardResult)
    requires
        S >= 1,
        1 <= C <= 64,
        prints_below(prog.instr_list(), C as int),
        targets_below(prog.instr_list(), S as int),
        entries_ok(entrypoint_contents(entrypoints), S as int),
        configs_wf(targets@),
        forall|i: int| 0 <= i < targets@.len() ==> ((#[trigger] targets@[i]).state as int) < S,
    ensures
        r matches BackwardResult::Refuted(n) ==> n <= cycle_budget(steps),
        !some_entered(targets@, entrypoint_contents(entrypoints)) ==> r == BackwardResult::Refuted(0),
        all_dropped(*prog, targets@) ==> r == BackwardResult::Refuted(0),
        r == BackwardResult::Refuted(0) ==> forall|i: int| 0 <= i < targets@.len() ==> !entrypoint_contents(entrypoints).dom().contains(
            (#[trigger] targets@[i]).state,
        ) || rejected(*prog, targets@[i].state, tape_v(targets@[i].tape)),
        r matches BackwardResult::Refuted(n) && n > 0 ==> exists|i: int| 0 <= i < targets@.len()
            && entrypoint_contents(entrypoints).dom().contains(targets@[i].state)
            && !#[trigger] dropped(*prog, targets@[i].state, tape_v(targets@[i].tape)),
{
    let ghost m = entrypoint_contents(entrypoints);
    let mut kept: Vec<Config> = Vec::new();
    let ghost mut src: Seq<int> = Seq::empty();
    let mut i: usize = 0;
    while i < targets.len()
        invariant
            i <= targets@.len(),
            m == entrypoint_contents(entrypoints),
            configs_wf(targets@),
            forall|k: int| 0 <= k < targets@.len() ==> ((#[trigger] targets@[k]).state as int) < S,
            configs_wf(kept@),
            forall|k: int| 0 <= k < kept@.len() ==> state_ok(m, S as int, #[trigger] kept@[k].state),
            kept@.len() > 0 ==> some_entered(targets@, m),
            src.len() == kept@.len(),
            forall|k: int| 0 <= k < kept@.len() ==> 0 <= #[trigger] src[k] < targets@.len()
                && kept@[k].state == targets@[src[k]].state && tape_v(kept@[k].tape) == tape_v(targets@[src[k]].tape),
            forall|j: int| 0 <= j < i && m.dom().contains((#[trigger] targets@[j]).state) ==> exists|k: int| 0 <= k < kept@.len() && src[k] == j,
            forall|k: int| 0 <= k < kept@.len() ==> m.dom().contains(#[trigger] kept@[k].state),
        decreases targets@.len() - i,
    {
        let ghost s0 = src;
        let ghost k0 = kept@;
        let state = targets[i].state;
        if entrypoints_get(entrypoints, state).is_some() {
            assert(targets@[i as int].tape.wf());
            assert(m.dom().contains(targets@[i as int].state));
            proof {
                src = src.push(i as int);
            }
            kept.push(targets[i].clone());
        }
        proof {
            assert forall|j: int| 0 <= j < i + 1 && m.dom().contains((#[trigger] targets@[j]).state) implies exists|k: int| 0 <= k < kept@.len() && src[k] == j by {
                if j < i {
                    let k = choose|k: int| 0 <= k < k0.len() && s0[k] == j;
                    assert(src[k] == s0[k]);
                } else {
                    assert(src[kept@.len() - 1] == i);
                }
            }
        }
        i += 1;
    }
    if kept.len() == 0 {
        return BackwardResult::Refuted(0);
    }
    let again = copy_configs(&kept);
    proof {
        assert forall|i: int| 0 <= i < again@.len() implies (#[trigger] again@[i]).tape.wf() && state_ok(m, S as int, again@[i].state) by {
            assert(kept@[i].tape.wf());
            assert(state_ok(m, S as int, kept@[i].state));
        }
    }
    proof {
        if all_dropped(*prog, targets@) {
            reveal(all_dropped);
            assert forall|g: Filters<S, C>| #[trigger] filters_of(*prog, g) implies forall|i: int| 0 <= i < kept@.len()
                ==> statically_dropped::<S, C>(kept@[i].state, kept@[i].tape, g) by {
                assert forall|i: int| 0 <= i < kept@.len() implies statically_dropped::<S, C>(kept@[i].state, kept@[i].tape, g) by {
                    assert(statically_dropped::<S, C>(targets@[src[i]].state, targets@[src[i]].tape, g));
                }
            }
        }
    }
    let ghost kv = kept@;
    let ghost av = again@;
    let first = cant_reach_once(prog, steps, kept, entrypoints, false);
    proof {
        if first == BackwardResult::Refuted(0) {
            assert forall|i: int| 0 <= i < targets@.len() && m.dom().contains((#[trigger] targets@[i]).state)
                implies rejected(*prog, targets@[i].state, tape_v(targets@[i].tape)) by {
                let k = choose|k: int| 0 <= k < kv.len() && src[k] == i;
                assert(rejected(*prog, kv[k].state, tape_v(kv[k].tape)));
            }
        }
        if first matches BackwardResult::Refuted(n) && n > 0 {
            lemma_surviving_target(*prog, targets@, src, kv, m);
        }
    }
    match first {
        BackwardResult::CountLimit => {},
        _ => {
            return first;
        },
    }
    // Only a run count that no longer fits brings the second pass, which
    // cuts an edge that would overflow after a steady recurrence, and has
    // a budget of its own.
    let cycle_steps = if steps < 4096 { 4096 } else { steps };
    let second = cant_reach_once(prog, cycle_steps, again, entrypoints, true);
    proof {
        if second matches BackwardResult::Refuted(n) && n > 0 {
            assert(!all_dropped(*prog, kv)) by {
                reveal(all_dropped);
                if all_dropped(*prog, kv) {
                    assert forall|g: Filters<S, C>| #[trigger] filters_of(*prog, g) implies forall|i: int| 0 <= i < av.len()
                        ==> statically_dropped::<S, C>(av[i].state, av[i].tape, g) by {
                        assert forall|i: int| 0 <= i < av.len() implies statically_dropped::<S, C>(av[i].state, av[i].tape, g) by {
                            assert(statically_dropped::<S, C>(kv[i].state, kv[i].tape, g));
                            assert(tape_v(av[i].tape) == tape_v(kv[i].tape));
                        }
                    }
                    assert(all_dropped(*prog, av));
                }
            }
            lemma_surviving_target(*prog, targets@, src, kv, m);
        }
        if second == BackwardResult::Refuted(0) {
            assert forall|i: int| 0 <= i < targets@.len() && m.dom().contains((#[trigger] targets@[i]).state)
                implies rejected(*prog, targets@[i].state, tape_v(targets@[i].tape)) by {
                let k = choose|k: int| 0 <= k < kv.len() && src[k] == i;
                assert(rejected(*prog, av[k].state, tape_v(av[k].tape)));
                assert(tape_v(av[k].tape) == tape_v(kv[k].tape));
            }
        }
    }
    match second {
        BackwardResult::Refuted(n) => BackwardResult::Refuted(n),
        _ => BackwardResult::CountLimit,
    }
}

/// A copy of a list of configurations.
fn copy_configs(cs: &Vec<Config>) -> (r: Vec<Config>)
    ensures
        r@.len() == cs@.len(),
        forall|i: int| 0 <= i < r@.len() ==> (#[trigger] r@[i]).state == cs@[i].state && r@[i].tape.same(cs@[i].tape),
{
    let mut r: Vec<Config> = Vec::new();
    let mut i: usize = 0;
    while i < cs.len()
        invariant
            i <= cs@.len(),
            r@.len() == i,
            forall|q: int| 0 <= q < i ==> (#[trigger] r@[q]).state == cs@[q].state && r@[q].tape.same(cs@[q].tape),
        decreases cs@.len() - i,
    {
        r.push(cs[i].clone());
        i += 1;
    }
    r
}

impl<const S: usize, const C: usize> Prog<S, C> {
    /// Backward search from the configurations that erase the last
    /// nonblank cell, after the recoloring-graph test.
    pub fn bkw_cant_blank(&self, steps: Steps) -> (r: BackwardResult)
        requires
            S >= 1,
            1 <= C <= 64,
            prints_below(self.instr_list(), C as int),
            targets_below(self.instr_list(), S as int),
        ensures
            r matches BackwardResult::Refuted(n) ==> n <= cycle_budget(steps),
            (exists|a: int| 1 <= a < C && #[trigger] colors::printed(self.entries(), a)
                && !colors::recolor_reach(self.entries(), C as int, a, 0)) ==> r == BackwardResult::Refuted(0),
            (forall|sl: Slot| #[trigger] self.is_erase_slot(sl) ==> !entrypoint_spec(self.entries()).dom().contains(sl.0))
                ==> r == BackwardResult::Refuted(0),
            r == BackwardResult::Refuted(0) ==> (exists|a: int| 1 <= a < C && #[trigger] colors::printed(self.entries(), a)
                && !colors::recolor_reach(self.entries(), C as int, a, 0)) || forall|sl: Slot| #[trigger] self.erase_target(sl)
                ==> !entrypoint_spec(self.entries()).dom().contains(sl.0) || rejected(*self, sl.0, erase_tv(sl)),
            r == BackwardResult::Refuted(0) ==> (exists|a: int| 1 <= a < C && #[trigger] colors::printed(self.entries(), a)
                && !colors::recolor_reach(self.entries(), C as int, a, 0)) || forall|sl: Slot| #[trigger] self.erase_target(sl)
                ==> rejected(*self, sl.0, erase_tv(sl))
                || forall|c: crate::run::Conf| #[trigger] self.conf_reach(c) && c != crate::run::blank_conf() ==> c.0 != sl.0,
            r matches BackwardResult::Refuted(n) && n > 0 ==> exists|sl: Slot| #[trigger] self.erase_target(sl)
                && entrypoint_spec(self.entries()).dom().contains(sl.0) && !dropped(*self, sl.0, erase_tv(sl)),
    {
        if self.cant_blank_by_color_graph() {
            return BackwardResult::Refuted(0);
        }
        let slots = self.blank_slots_side_clean();
        let configs = erase_configs(&slots);
        let entrypoints = self.get_entrypoints();
        proof {
            use_type_invariant(self);
            lemma_entries_ok(*self);
            assert forall|i: int| 0 <= i < configs@.len() implies ((#[trigger] configs@[i]).state as int) < S by {
                assert(slots@.contains(slots@[i]));
                assert(self.is_erase_slot(slots@[i]));
            }
            if some_entered(configs@, entrypoint_contents(&entrypoints)) {
                let i = choose|i: int| 0 <= i < configs@.len() && entrypoint_contents(&entrypoints).dom().contains(#[trigger] configs@[i].state);
                assert(slots@.contains(slots@[i]));
                assert(self.is_erase_slot(slots@[i]));
            }
        }
        let r = cant_reach(self, steps, configs, &entrypoints);
        proof {
            if r matches BackwardResult::Refuted(n) && n > 0 {
                let i = choose|i: int| 0 <= i < configs@.len() && entrypoint_contents(&entrypoints).dom().contains(configs@[i].state)
                    && !#[trigger] dropped(*self, configs@[i].state, tape_v(configs@[i].tape));
                let sl = slots@[i];
                assert(slots@.contains(sl));
                assert(configs@[i].tape.lspan.bs() =~= Seq::<Block>::empty());
                assert(configs@[i].tape.rspan.bs() =~= Seq::<Block>::empty());
                assert(tape_v(configs@[i].tape) == erase_tv(sl));
                assert(self.erase_target(sl));
            }
            if r == BackwardResult::Refuted(0) {
                assert forall|sl: Slot| #[trigger] self.erase_target(sl) implies !entrypoint_spec(self.entries()).dom().contains(sl.0)
                    || rejected(*self, sl.0, erase_tv(sl)) by {
                    assert(slots@.contains(sl));
                    let i = choose|i: int| 0 <= i < slots@.len() && slots@[i] == sl;
                    assert(configs@[i].tape.lspan.bs() =~= Seq::<Block>::empty());
                    assert(configs@[i].tape.rspan.bs() =~= Seq::<Block>::empty());
                    assert(tape_v(configs@[i].tape) == erase_tv(sl));
                }
            }
            if r == BackwardResult::Refuted(0) {
                assert forall|sl: Slot| #[trigger] self.erase_target(sl) implies rejected(*self, sl.0, erase_tv(sl))
                    || forall|c: crate::run::Conf| #[trigger] self.conf_reach(c) && c != crate::run::blank_conf() ==> c.0 != sl.0 by {
                    if !rejected(*self, sl.0, erase_tv(sl)) {
                        assert forall|c: crate::run::Conf| #[trigger] self.conf_reach(c) && c != crate::run::blank_conf() implies c.0 != sl.0 by {
                            lemma_reached_entered(*self, c);
                        }
                    }
                }
            }
        }
        r
    }

    /// Whether the blanking search starts from an erasing slot: it is one,
    /// and the side analysis keeps it.
    pub open spec fn erase_target(&self, sl: Slot) -> bool {
        &&& self.is_erase_slot(sl)
        &&& S <= 64 ==> forall|wp: WinPossible| #[trigger] self.win_exact(
            wp,
            self.forbidden_spec(true),
            self.forbidden_spec(false),
        ) ==> self.blank_slot_open(wp.side_parity@, sl)
    }

    /// The colors that shift-side analysis keeps off the left side (with
    /// `left`) or the right side of the head.
    pub open spec fn forbidden_spec(&self, left: bool) -> Seq<bool> {
        Seq::new(C as nat, |k: int| k != 0 && !writes_with(self.entries(), k as u8, left))
    }

    /// Whether the state of a spinout shift can scan blank at a fresh
    /// frontier on the shift's side: some frontier checkpoint (of the exact
    /// window tables) has the state scanning blank.
    pub open spec fn frontier_open(&self, x: (State, Shift)) -> bool {
        forall|wp: WinPossible| #[trigger] self.win_exact(wp, self.forbidden_spec(true), self.forbidden_spec(false))
            ==> exists|near: Color| #[trigger] self.half_reach(wp.side_parity@, x.1, true, (x.0, 0u8, near))
    }

    /// The spinout shifts (`zr_shifts`) whose state can scan blank at a
    /// fresh frontier on the shift's side; a spinout moves onto fresh blank
    /// forever, so only those can start one.
    pub fn spinout_shifts_side_clean(&self) -> (r: Vec<(State, Shift)>)
        requires
            S >= 1,
            1 <= C <= 64,
            prints_below(self.instr_list(), C as int),
            targets_below(self.instr_list(), S as int),
        ensures
            forall|x: (State, Shift)| r@.contains(x) <==> Self::in_range(x.0 as int, 0) && crate::prog::enters_with(
                self.instr_at(x.0 as int, 0),
                x.0,
                x.1,
            ) && (S <= 64 ==> self.frontier_open(x)),
    {
        let shifts = self.zr_shifts();
        if S > 64 {
            return shifts;
        }
        let (forbid_left, forbid_right) = self.shift_side_forbidden();
        assert(forbid_left@ =~= self.forbidden_spec(true));
        assert(forbid_right@ =~= self.forbidden_spec(false));
        let windows = self.win_possible_from_blank(&forbid_left, &forbid_right);
        let ghost v = windows.side_parity@;
        let left_any = excursions::side_excursions(self, &windows, false, false);
        let right_any = excursions::side_excursions(self, &windows, true, false);
        let left_pops = pops::excursion_pops(self, &windows, false, &left_any);
        let right_pops = pops::excursion_pops(self, &windows, true, &right_any);
        let left = halfblank::frontier_slots(self, &windows, false, &right_any, &right_pops);
        let right = halfblank::frontier_slots(self, &windows, true, &left_any, &left_pops);
        proof {
            assert forall|x: (State, Shift)| #[trigger] self.frontier_open(x) == exists|near: Color| #[trigger] self.half_reach(v, x.1, true, (x.0, 0u8, near)) by {
                assert forall|wp: WinPossible| #[trigger] self.win_exact(wp, self.forbidden_spec(true), self.forbidden_spec(false))
                    implies wp.side_parity@ == v by {
                    self.lemma_win_exact_unique(wp, windows, self.forbidden_spec(true), self.forbidden_spec(false));
                }
            }
        }
        let mut r: Vec<(State, Shift)> = Vec::new();
        let mut i: usize = 0;
        while i < shifts.len()
            invariant
                i <= shifts@.len(),
                S <= 64,
                left.wf(),
                right.wf(),
                forall|x: (State, Shift)| shifts@.contains(x) <==> Self::in_range(x.0 as int, 0) && crate::prog::enters_with(
                    self.instr_at(x.0 as int, 0),
                    x.0,
                    x.1,
                ),
                forall|h: halfblank::HFact| #[trigger] left.holds(h) == self.half_reach(v, false, true, h),
                forall|h: halfblank::HFact| #[trigger] right.holds(h) == self.half_reach(v, true, true, h),
                forall|x: (State, Shift)| #[trigger] self.frontier_open(x) == exists|near: Color| #[trigger] self.half_reach(v, x.1, true, (x.0, 0u8, near)),
                forall|x: (State, Shift)| r@.contains(x) <==> (exists|j: int| 0 <= j < i && shifts@[j] == x) && self.frontier_open(x),
            decreases shifts@.len() - i,
        {
            let x = shifts[i];
            assert(shifts@.contains(x));
            let open = if x.1 {
                right.any_near(x.0, 0)
            } else {
                left.any_near(x.0, 0)
            };
            proof {
                if x.1 {
                    assert(open == exists|near: Color| #[trigger] self.half_reach(v, x.1, true, (x.0, 0u8, near))) by {
                        if open {
                            let near = choose|near: Color| #[trigger] right.holds((x.0, 0u8, near));
                            assert(self.half_reach(v, x.1, true, (x.0, 0u8, near)));
                        }
                        if exists|near: Color| #[trigger] self.half_reach(v, x.1, true, (x.0, 0u8, near)) {
                            let near = choose|near: Color| #[trigger] self.half_reach(v, x.1, true, (x.0, 0u8, near));
                            assert(right.holds((x.0, 0u8, near)));
                        }
                    }
                } else {
                    assert(open == exists|near: Color| #[trigger] self.half_reach(v, x.1, true, (x.0, 0u8, near))) by {
                        if open {
                            let near = choose|near: Color| #[trigger] left.holds((x.0, 0u8, near));
                            assert(self.half_reach(v, x.1, true, (x.0, 0u8, near)));
                        }
                        if exists|near: Color| #[trigger] self.half_reach(v, x.1, true, (x.0, 0u8, near)) {
                            let near = choose|near: Color| #[trigger] self.half_reach(v, x.1, true, (x.0, 0u8, near));
                            assert(left.holds((x.0, 0u8, near)));
                        }
                    }
                }
            }
            let ghost r0 = r@;
            if open {
                r.push(x);
            }
            proof {
                assert forall|y: (State, Shift)| r@.contains(y) <==> (exists|j: int| 0 <= j < i + 1 && shifts@[j] == y) && self.frontier_open(y) by {
                    if r@.contains(y) {
                        let k = choose|k: int| 0 <= k < r@.len() && r@[k] == y;
                        if k < r0.len() {
                            assert(r0[k] == y);
                            assert(r0.contains(y));
                        }
                    }
                    if (exists|j: int| 0 <= j < i + 1 && shifts@[j] == y) && self.frontier_open(y) {
                        let j = choose|j: int| 0 <= j < i + 1 && shifts@[j] == y;
                        if j < i {
                            assert(r0.contains(y));
                            let k = choose|k: int| 0 <= k < r0.len() && r0[k] == y;
                            assert(r@[k] == y);
                        } else {
                            assert(y == x);
                            assert(r@[r@.len() - 1] == x);
                        }
                    }
                }
            }
            i += 1;
        }
        proof {
            assert forall|x: (State, Shift)| r@.contains(x) <==> Self::in_range(x.0 as int, 0) && crate::prog::enters_with(
                self.instr_at(x.0 as int, 0),
                x.0,
                x.1,
            ) && (S <= 64 ==> self.frontier_open(x)) by {
                if shifts@.contains(x) {
                    let j = choose|j: int| 0 <= j < shifts@.len() && shifts@[j] == x;
                }
            }
        }
        r
    }

    /// Whether the cell of an erase slot can have been left last by the
    /// instruction of `(st, read)`, moving away with child color `cc`: the
    /// instruction prints the slot's color, the side it does not move to is
    /// blank at some checkpoint in `(st, read)`, and a clean return from
    /// the child into the slot's state is possible.
    pub open spec fn departs_clean(&self, v: Seq<bool>, sl: Slot, st: State, read: Color, cc: Color) -> bool {
        &&& Self::in_range(st as int, read as int)
        &&& self.instr_at(st as int, read as int) matches Some(i) && {
            &&& i.0 == sl.1
            &&& self.half_open(v, !i.1, st, read)
            &&& (cc as int) < C
            &&& excursions::child_ok(v, i.1, st, read, 0, cc, C as int)
            &&& self.ret_reach(v, i.1, true, (sl.1, i.2, cc, sl.0))
        }
    }

    /// Whether the side `blank` (right when true) can be blank at some
    /// checkpoint in `(st, read)`.
    pub open spec fn half_open(&self, v: Seq<bool>, blank: bool, st: State, read: Color) -> bool {
        exists|near: Color| #[trigger] self.half_reach(v, blank, false, (st, read, near))
    }

    /// Whether an erase slot can be where the tape goes blank: both sides
    /// can be blank at a checkpoint in the slot with blank inward
    /// neighbors, and, where it reads a nonblank color, its cell can have
    /// been left last cleanly.
    pub open spec fn blank_slot_open(&self, v: Seq<bool>, sl: Slot) -> bool {
        &&& self.half_reach(v, false, false, (sl.0, sl.1, 0u8))
        &&& self.half_reach(v, true, false, (sl.0, sl.1, 0u8))
        &&& (sl.1 == 0 || exists|st: State, read: Color, cc: Color| #[trigger] self.departs_clean(v, sl, st, read, cc))
    }

    /// Whether some instruction can have left the slot's cell last, by a
    /// search.
    fn departs_clean_any(
        &self,
        wp: &WinPossible,
        want: &Vec<bool>,
        sl: Slot,
        left_half: &halfblank::HalfBlank<S, C>,
        right_half: &halfblank::HalfBlank<S, C>,
        left_clean: &excursions::SideExcursions<S, C>,
        right_clean: &excursions::SideExcursions<S, C>,
    ) -> (r: bool)
        requires
            1 <= S <= 64,
            1 <= C <= 64,
            wp.sized(S as int, C as int),
            want@ == seq![true, true, true, true],
            targets_below(self.instr_list(), S as int),
            (sl.0 as int) < S,
            (sl.1 as int) < C,
            left_half.wf(),
            right_half.wf(),
            forall|h: halfblank::HFact| #[trigger] left_half.holds(h) == self.half_reach(wp.side_parity@, false, false, h),
            forall|h: halfblank::HFact| #[trigger] right_half.holds(h) == self.half_reach(wp.side_parity@, true, false, h),
            left_clean.wf(),
            right_clean.wf(),
            forall|f: excursions::RFact| #[trigger] left_clean.holds(f) == self.ret_reach(wp.side_parity@, false, true, f),
            forall|f: excursions::RFact| #[trigger] right_clean.holds(f) == self.ret_reach(wp.side_parity@, true, true, f),
        ensures
            r == exists|st: State, read: Color, cc: Color| #[trigger] self.departs_clean(wp.side_parity@, sl, st, read, cc),
    {
        let ghost v = wp.side_parity@;
        proof {
            use_type_invariant(self);
        }
        let mut st: usize = 0;
        while st < S
            invariant
                self.shape(),
                1 <= S <= 64,
                1 <= C <= 64,
                wp.sized(S as int, C as int),
                want@ == seq![true, true, true, true],
                v == wp.side_parity@,
                targets_below(self.instr_list(), S as int),
                (sl.0 as int) < S,
                (sl.1 as int) < C,
                left_half.wf(),
                right_half.wf(),
                forall|h: halfblank::HFact| #[trigger] left_half.holds(h) == self.half_reach(v, false, false, h),
                forall|h: halfblank::HFact| #[trigger] right_half.holds(h) == self.half_reach(v, true, false, h),
                left_clean.wf(),
                right_clean.wf(),
                forall|f: excursions::RFact| #[trigger] left_clean.holds(f) == self.ret_reach(v, false, true, f),
                forall|f: excursions::RFact| #[trigger] right_clean.holds(f) == self.ret_reach(v, true, true, f),
                st <= S,
                forall|x: State, y: Color, z: Color| (x as int) < st ==> !#[trigger] self.departs_clean(v, sl, x, y, z),
            decreases S - st,
        {
            let mut read: usize = 0;
            while read < C
                invariant
                    self.shape(),
                    1 <= S <= 64,
                    1 <= C <= 64,
                    wp.sized(S as int, C as int),
                    want@ == seq![true, true, true, true],
                    v == wp.side_parity@,
                    targets_below(self.instr_list(), S as int),
                    (sl.0 as int) < S,
                    (sl.1 as int) < C,
                    left_half.wf(),
                    right_half.wf(),
                    forall|h: halfblank::HFact| #[trigger] left_half.holds(h) == self.half_reach(v, false, false, h),
                    forall|h: halfblank::HFact| #[trigger] right_half.holds(h) == self.half_reach(v, true, false, h),
                    left_clean.wf(),
                    right_clean.wf(),
                    forall|f: excursions::RFact| #[trigger] left_clean.holds(f) == self.ret_reach(v, false, true, f),
                    forall|f: excursions::RFact| #[trigger] right_clean.holds(f) == self.ret_reach(v, true, true, f),
                    st < S,
                    read <= C,
                    forall|x: State, y: Color, z: Color| (x as int) < st ==> !#[trigger] self.departs_clean(v, sl, x, y, z),
                    forall|y: Color, z: Color| (y as int) < read ==> !#[trigger] self.departs_clean(v, sl, st as State, y, z),
                decreases C - read,
            {
                let (s8, r8) = (st as State, read as Color);
                if let Some(ins) = self.get(&(s8, r8)) {
                    let i = *ins;
                    proof {
                        self.lemma_instr_at_listed(st as int, read as int);
                        let j = choose|j: int| 0 <= j < self.instr_list().len() && #[trigger] self.instr_list()[j] == self.instr_at(st as int, read as int)->0;
                        assert(self.instr_list()[j] == i);
                    }
                    if i.0 == sl.1 {
                        let opposite = if i.1 {
                            left_half.any_near(s8, r8)
                        } else {
                            right_half.any_near(s8, r8)
                        };
                        proof {
                            let side = !i.1;
                            assert(opposite == self.half_open(v, side, s8, r8)) by {
                                if opposite {
                                    if i.1 {
                                        let near = choose|near: Color| #[trigger] left_half.holds((s8, r8, near));
                                        assert(self.half_reach(v, side, false, (s8, r8, near)));
                                    } else {
                                        let near = choose|near: Color| #[trigger] right_half.holds((s8, r8, near));
                                        assert(self.half_reach(v, side, false, (s8, r8, near)));
                                    }
                                }
                                if self.half_open(v, side, s8, r8) {
                                    let near = choose|near: Color| #[trigger] self.half_reach(v, side, false, (s8, r8, near));
                                    if i.1 {
                                        assert(left_half.holds((s8, r8, near)));
                                    } else {
                                        assert(right_half.holds((s8, r8, near)));
                                    }
                                }
                            }
                        }
                        if opposite {
                            let mut cc: usize = 0;
                            while cc < C
                                invariant
                                    self.shape(),
                                    1 <= S <= 64,
                                    1 <= C <= 64,
                                    wp.sized(S as int, C as int),
                                    want@ == seq![true, true, true, true],
                                    v == wp.side_parity@,
                                    (sl.0 as int) < S,
                                    (sl.1 as int) < C,
                                    left_clean.wf(),
                                    right_clean.wf(),
                                    forall|f: excursions::RFact| #[trigger] left_clean.holds(f) == self.ret_reach(v, false, true, f),
                                    forall|f: excursions::RFact| #[trigger] right_clean.holds(f) == self.ret_reach(v, true, true, f),
                                    st < S,
                                    read < C,
                                    (i.2 as int) < S,
                                    self.instr_at(st as int, read as int) == Some(i),
                                    s8 == st as State,
                                    r8 == read as Color,
                                    i.0 == sl.1,
                                    self.half_open(v, !i.1, s8, r8),
                                    cc <= C,
                                    forall|z: Color| (z as int) < cc ==> !#[trigger] self.departs_clean(v, sl, st as State, read as Color, z),
                                decreases C - cc,
                            {
                                let f = (sl.1, i.2, cc as Color, sl.0);
                                let ok = self.child_allowed(wp, want, i.1, s8, r8, 0, cc as Color) && if i.1 {
                                    right_clean.has(f)
                                } else {
                                    left_clean.has(f)
                                };
                                if ok {
                                    assert(self.departs_clean(v, sl, s8, r8, cc as Color));
                                    return true;
                                }
                                cc += 1;
                            }
                            proof {
                                assert forall|z: Color| !#[trigger] self.departs_clean(v, sl, st as State, read as Color, z) by {
                                    if (z as int) >= C {
                                    }
                                }
                            }
                        }
                    }
                }
                proof {
                    assert forall|y: Color, z: Color| (y as int) < read + 1 implies !#[trigger] self.departs_clean(v, sl, st as State, y, z) by {
                        if y as int == read {
                            assert(y == r8);
                        }
                    }
                }
                read += 1;
            }
            proof {
                assert forall|x: State, y: Color, z: Color| (x as int) < st + 1 implies !#[trigger] self.departs_clean(v, sl, x, y, z) by {
                    if x as int == st {
                        assert(x == st as State);
                        if (y as int) >= C {
                            assert(!Self::in_range(x as int, y as int));
                        } else {
                            assert(!self.departs_clean(v, sl, st as State, y, z));
                        }
                    }
                }
            }
            st += 1;
        }
        proof {
            assert forall|x: State, y: Color, z: Color| !#[trigger] self.departs_clean(v, sl, x, y, z) by {
                if (x as int) >= S {
                    assert(!Self::in_range(x as int, y as int));
                }
            }
        }
        false
    }

    /// The erase slots (`erase_slots`) where the tape can go blank, by the
    /// half-blank checkpoints and clean returns of the exact window tables
    /// (`blank_slot_open`).
    pub fn blank_slots_side_clean(&self) -> (r: Vec<Slot>)
        requires
            S >= 1,
            1 <= C <= 64,
            prints_below(self.instr_list(), C as int),
            targets_below(self.instr_list(), S as int),
        ensures
            forall|sl: Slot| r@.contains(sl) <==> self.is_erase_slot(sl) && (S <= 64 ==> forall|wp: WinPossible| #[trigger] self.win_exact(
                wp,
                self.forbidden_spec(true),
                self.forbidden_spec(false),
            ) ==> self.blank_slot_open(wp.side_parity@, sl)),
    {
        let set = self.erase_slots();
        let slots = crate::prog::slot_vec(&set);
        proof {
            assert forall|sl: Slot| slots@.contains(sl) <==> self.is_erase_slot(sl) by {
                assert(slots@.to_set().contains(sl) == slots@.contains(sl));
            }
        }
        if S > 64 {
            return slots;
        }
        let (forbid_left, forbid_right) = self.shift_side_forbidden();
        assert(forbid_left@ =~= self.forbidden_spec(true));
        assert(forbid_right@ =~= self.forbidden_spec(false));
        let windows = self.win_possible_from_blank(&forbid_left, &forbid_right);
        let ghost v = windows.side_parity@;
        let want = windows::want_all(4);
        assert(want@ =~= seq![true, true, true, true]);
        let left_clean = excursions::side_excursions(self, &windows, false, true);
        let right_clean = excursions::side_excursions(self, &windows, true, true);
        let left_any = excursions::side_excursions(self, &windows, false, false);
        let right_any = excursions::side_excursions(self, &windows, true, false);
        let left_pops = pops::excursion_pops(self, &windows, false, &left_any);
        let right_pops = pops::excursion_pops(self, &windows, true, &right_any);
        let left_half = halfblank::halfblank_slots(self, &windows, false, &left_clean, &right_any, &right_pops);
        let right_half = halfblank::halfblank_slots(self, &windows, true, &right_clean, &left_any, &left_pops);
        proof {
            assert forall|wp: WinPossible| #[trigger] self.win_exact(wp, self.forbidden_spec(true), self.forbidden_spec(false))
                implies wp.side_parity@ == v by {
                self.lemma_win_exact_unique(wp, windows, self.forbidden_spec(true), self.forbidden_spec(false));
            }
        }
        let mut r: Vec<Slot> = Vec::new();
        let mut i: usize = 0;
        while i < slots.len()
            invariant
                1 <= S <= 64,
                1 <= C <= 64,
                i <= slots@.len(),
                windows.sized(S as int, C as int),
                want@ == seq![true, true, true, true],
                v == windows.side_parity@,
                targets_below(self.instr_list(), S as int),
                forall|sl: Slot| slots@.contains(sl) <==> self.is_erase_slot(sl),
                left_half.wf(),
                right_half.wf(),
                forall|h: halfblank::HFact| #[trigger] left_half.holds(h) == self.half_reach(v, false, false, h),
                forall|h: halfblank::HFact| #[trigger] right_half.holds(h) == self.half_reach(v, true, false, h),
                left_clean.wf(),
                right_clean.wf(),
                forall|f: excursions::RFact| #[trigger] left_clean.holds(f) == self.ret_reach(v, false, true, f),
                forall|f: excursions::RFact| #[trigger] right_clean.holds(f) == self.ret_reach(v, true, true, f),
                forall|sl: Slot| r@.contains(sl) <==> (exists|j: int| 0 <= j < i && slots@[j] == sl) && self.blank_slot_open(v, sl),
            decreases slots@.len() - i,
        {
            let sl = slots[i];
            assert(slots@.contains(sl));
            let (h, co) = sl;
            let keep = left_half.has((h, co, 0)) && right_half.has((h, co, 0)) && (co == 0 || self.departs_clean_any(
                &windows,
                &want,
                sl,
                &left_half,
                &right_half,
                &left_clean,
                &right_clean,
            ));
            assert(keep == self.blank_slot_open(v, sl));
            let ghost r0 = r@;
            if keep {
                r.push(sl);
            }
            proof {
                assert forall|y: Slot| r@.contains(y) <==> (exists|j: int| 0 <= j < i + 1 && slots@[j] == y) && self.blank_slot_open(v, y) by {
                    if r@.contains(y) {
                        let k = choose|k: int| 0 <= k < r@.len() && r@[k] == y;
                        if k < r0.len() {
                            assert(r0[k] == y);
                            assert(r0.contains(y));
                        }
                    }
                    if (exists|j: int| 0 <= j < i + 1 && slots@[j] == y) && self.blank_slot_open(v, y) {
                        let j = choose|j: int| 0 <= j < i + 1 && slots@[j] == y;
                        if j < i {
                            assert(r0.contains(y));
                            let k = choose|k: int| 0 <= k < r0.len() && r0[k] == y;
                            assert(r@[k] == y);
                        } else {
                            assert(y == sl);
                            assert(r@[r@.len() - 1] == sl);
                        }
                    }
                }
            }
            i += 1;
        }
        proof {
            assert forall|sl: Slot| r@.contains(sl) <==> self.is_erase_slot(sl) && (S <= 64 ==> forall|wp: WinPossible| #[trigger] self.win_exact(
                wp,
                self.forbidden_spec(true),
                self.forbidden_spec(false),
            ) ==> self.blank_slot_open(wp.side_parity@, sl)) by {
                if slots@.contains(sl) {
                    let j = choose|j: int| 0 <= j < slots@.len() && slots@[j] == sl;
                }
                if self.is_erase_slot(sl) && forall|wp: WinPossible| #[trigger] self.win_exact(
                    wp,
                    self.forbidden_spec(true),
                    self.forbidden_spec(false),
                ) ==> self.blank_slot_open(wp.side_parity@, sl) {
                    assert(self.win_exact(windows, self.forbidden_spec(true), self.forbidden_spec(false)));
                }
            }
        }
        r
    }

    /// Whether some window with the slot's state and scanned color can
    /// occur.
    pub open spec fn win_any(&self, v: Seq<bool>, sl: Slot) -> bool {
        exists|l: Color, r: Color| (l as int) < C && (r as int) < C && #[trigger] sides::window_ok(v, (sl.0, sl.1, l, r), C as int)
    }

    /// Whether the slot's cell can have been left by the instruction of
    /// `(st, read)`, which prints the slot's color, with child color `cc`
    /// beside some window, and be come back to, in the slot's state, by a
    /// one-sided return.
    pub open spec fn departs_any(&self, v: Seq<bool>, sl: Slot, st: State, read: Color, cc: Color) -> bool {
        &&& Self::in_range(st as int, read as int)
        &&& self.instr_at(st as int, read as int) matches Some(i) && {
            &&& i.0 == sl.1
            &&& (cc as int) < C
            &&& exists|back: Color| (back as int) < C && #[trigger] excursions::child_ok(v, i.1, st, read, back, cc, C as int)
            &&& self.ret_reach(v, i.1, false, (sl.1, i.2, cc, sl.0))
        }
    }

    /// Whether a halt slot can be reached: some window with it can occur,
    /// and either it reads blank at a fresh frontier, or its cell can have
    /// been left and come back to (`departs_any`).
    pub open spec fn halt_slot_open(&self, v: Seq<bool>, sl: Slot) -> bool {
        &&& self.win_any(v, sl)
        &&& (sl.1 == 0 && (self.frontier_at(v, false, sl.0) || self.frontier_at(v, true, sl.0))
            || exists|st: State, read: Color, cc: Color| #[trigger] self.departs_any(v, sl, st, read, cc))
    }

    /// Whether some frontier checkpoint on side `side` has the state
    /// scanning blank.
    pub open spec fn frontier_at(&self, v: Seq<bool>, side: bool, st: State) -> bool {
        exists|near: Color| #[trigger] self.half_reach(v, side, true, (st, 0u8, near))
    }

    /// Whether some window with the slot's state and scanned color can
    /// occur, by a search.
    fn win_any_check(&self, wp: &WinPossible, want: &Vec<bool>, sl: Slot) -> (r: bool)
        requires
            wp.sized(S as int, C as int),
            want@ == seq![true, true, true, true],
            1 <= C <= 64,
            (sl.0 as int) < S,
            (sl.1 as int) < C,
        ensures
            r == self.win_any(wp.side_parity@, sl),
    {
        let mut l: usize = 0;
        while l < C
            invariant
                wp.sized(S as int, C as int),
                want@ == seq![true, true, true, true],
                1 <= C <= 64,
                (sl.0 as int) < S,
                (sl.1 as int) < C,
                l <= C,
                forall|x: Color, y: Color| (x as int) < l && (y as int) < C ==> !#[trigger] sides::window_ok(wp.side_parity@, (sl.0, sl.1, x, y), C as int),
            decreases C - l,
        {
            let mut r: usize = 0;
            while r < C
                invariant
                    wp.sized(S as int, C as int),
                    want@ == seq![true, true, true, true],
                    1 <= C <= 64,
                    (sl.0 as int) < S,
                    (sl.1 as int) < C,
                    l < C,
                    r <= C,
                    forall|x: Color, y: Color| (x as int) < l && (y as int) < C ==> !#[trigger] sides::window_ok(wp.side_parity@, (sl.0, sl.1, x, y), C as int),
                    forall|y: Color| (y as int) < r ==> !#[trigger] sides::window_ok(wp.side_parity@, (sl.0, sl.1, l as Color, y), C as int),
                decreases C - r,
            {
                if self.window_allowed(wp, want, (sl.0, sl.1, l as Color, r as Color)) {
                    return true;
                }
                r += 1;
            }
            proof {
                assert forall|x: Color, y: Color| (x as int) < l + 1 && (y as int) < C implies !#[trigger] sides::window_ok(
                    wp.side_parity@,
                    (sl.0, sl.1, x, y),
                    C as int,
                ) by {
                    if x as int == l {
                        assert(x == l as Color);
                    }
                }
            }
            l += 1;
        }
        false
    }

    /// Whether some back color lets the child color stand beside the
    /// window, by a search.
    fn child_any(&self, wp: &WinPossible, want: &Vec<bool>, push: bool, st: State, read: Color, cc: Color) -> (r: bool)
        requires
            wp.sized(S as int, C as int),
            want@ == seq![true, true, true, true],
            1 <= C <= 64,
            (st as int) < S,
            (read as int) < C,
            (cc as int) < C,
        ensures
            r == exists|back: Color| (back as int) < C && #[trigger] excursions::child_ok(wp.side_parity@, push, st, read, back, cc, C as int),
    {
        let mut b: usize = 0;
        while b < C
            invariant
                wp.sized(S as int, C as int),
                want@ == seq![true, true, true, true],
                1 <= C <= 64,
                (st as int) < S,
                (read as int) < C,
                (cc as int) < C,
                b <= C,
                forall|x: Color| (x as int) < b ==> !#[trigger] excursions::child_ok(wp.side_parity@, push, st, read, x, cc, C as int),
            decreases C - b,
        {
            if self.child_allowed(wp, want, push, st, read, b as Color, cc) {
                return true;
            }
            b += 1;
        }
        false
    }

    /// Whether the slot's cell can have been left and come back to, by a
    /// search.
    fn departs_any_check(
        &self,
        wp: &WinPossible,
        want: &Vec<bool>,
        sl: Slot,
        left_any: &excursions::SideExcursions<S, C>,
        right_any: &excursions::SideExcursions<S, C>,
    ) -> (r: bool)
        requires
            1 <= S <= 64,
            1 <= C <= 64,
            wp.sized(S as int, C as int),
            want@ == seq![true, true, true, true],
            targets_below(self.instr_list(), S as int),
            (sl.0 as int) < S,
            (sl.1 as int) < C,
            left_any.wf(),
            right_any.wf(),
            forall|f: excursions::RFact| #[trigger] left_any.holds(f) == self.ret_reach(wp.side_parity@, false, false, f),
            forall|f: excursions::RFact| #[trigger] right_any.holds(f) == self.ret_reach(wp.side_parity@, true, false, f),
        ensures
            r == exists|st: State, read: Color, cc: Color| #[trigger] self.departs_any(wp.side_parity@, sl, st, read, cc),
    {
        let ghost v = wp.side_parity@;
        proof {
            use_type_invariant(self);
        }
        let mut st: usize = 0;
        while st < S
            invariant
                self.shape(),
                1 <= S <= 64,
                1 <= C <= 64,
                wp.sized(S as int, C as int),
                want@ == seq![true, true, true, true],
                v == wp.side_parity@,
                targets_below(self.instr_list(), S as int),
                (sl.0 as int) < S,
                (sl.1 as int) < C,
                left_any.wf(),
                right_any.wf(),
                forall|f: excursions::RFact| #[trigger] left_any.holds(f) == self.ret_reach(v, false, false, f),
                forall|f: excursions::RFact| #[trigger] right_any.holds(f) == self.ret_reach(v, true, false, f),
                st <= S,
                forall|x: State, y: Color, z: Color| (x as int) < st ==> !#[trigger] self.departs_any(v, sl, x, y, z),
            decreases S - st,
        {
            let mut read: usize = 0;
            while read < C
                invariant
                    self.shape(),
                    1 <= S <= 64,
                    1 <= C <= 64,
                    wp.sized(S as int, C as int),
                    want@ == seq![true, true, true, true],
                    v == wp.side_parity@,
                    targets_below(self.instr_list(), S as int),
                    (sl.0 as int) < S,
                    (sl.1 as int) < C,
                    left_any.wf(),
                    right_any.wf(),
                    forall|f: excursions::RFact| #[trigger] left_any.holds(f) == self.ret_reach(v, false, false, f),
                    forall|f: excursions::RFact| #[trigger] right_any.holds(f) == self.ret_reach(v, true, false, f),
                    st < S,
                    read <= C,
                    forall|x: State, y: Color, z: Color| (x as int) < st ==> !#[trigger] self.departs_any(v, sl, x, y, z),
                    forall|y: Color, z: Color| (y as int) < read ==> !#[trigger] self.departs_any(v, sl, st as State, y, z),
                decreases C - read,
            {
                let (s8, r8) = (st as State, read as Color);
                if let Some(ins) = self.get(&(s8, r8)) {
                    let i = *ins;
                    proof {
                        self.lemma_instr_at_listed(st as int, read as int);
                        let j = choose|j: int| 0 <= j < self.instr_list().len() && #[trigger] self.instr_list()[j] == self.instr_at(st as int, read as int)->0;
                        assert(self.instr_list()[j] == i);
                    }
                    if i.0 == sl.1 {
                        let mut cc: usize = 0;
                        while cc < C
                            invariant
                                self.shape(),
                                1 <= S <= 64,
                                1 <= C <= 64,
                                wp.sized(S as int, C as int),
                                want@ == seq![true, true, true, true],
                                v == wp.side_parity@,
                                (sl.0 as int) < S,
                                (sl.1 as int) < C,
                                left_any.wf(),
                                right_any.wf(),
                                forall|f: excursions::RFact| #[trigger] left_any.holds(f) == self.ret_reach(v, false, false, f),
                                forall|f: excursions::RFact| #[trigger] right_any.holds(f) == self.ret_reach(v, true, false, f),
                                st < S,
                                read < C,
                                (i.2 as int) < S,
                                self.instr_at(st as int, read as int) == Some(i),
                                s8 == st as State,
                                r8 == read as Color,
                                i.0 == sl.1,
                                cc <= C,
                                forall|z: Color| (z as int) < cc ==> !#[trigger] self.departs_any(v, sl, st as State, read as Color, z),
                            decreases C - cc,
                        {
                            let f = (sl.1, i.2, cc as Color, sl.0);
                            let ok = self.child_any(wp, want, i.1, s8, r8, cc as Color) && if i.1 {
                                right_any.has(f)
                            } else {
                                left_any.has(f)
                            };
                            if ok {
                                assert(self.departs_any(v, sl, s8, r8, cc as Color));
                                return true;
                            }
                            cc += 1;
                        }
                    }
                }
                proof {
                    assert forall|y: Color, z: Color| (y as int) < read + 1 implies !#[trigger] self.departs_any(v, sl, st as State, y, z) by {
                        if y as int == read {
                            assert(y == r8);
                        }
                    }
                }
                read += 1;
            }
            proof {
                assert forall|x: State, y: Color, z: Color| (x as int) < st + 1 implies !#[trigger] self.departs_any(v, sl, x, y, z) by {
                    if x as int == st {
                        assert(x == st as State);
                        if (y as int) >= C {
                            assert(!Self::in_range(x as int, y as int));
                        } else {
                            assert(!self.departs_any(v, sl, st as State, y, z));
                        }
                    }
                }
            }
            st += 1;
        }
        proof {
            assert forall|x: State, y: Color, z: Color| !#[trigger] self.departs_any(v, sl, x, y, z) by {
                if (x as int) >= S {
                    assert(!Self::in_range(x as int, y as int));
                }
            }
        }
        false
    }

    /// The halt slots that can be reached, by the windows, frontier
    /// checkpoints and one-sided returns of the exact window tables
    /// (`halt_slot_open`).
    pub fn halt_slots_side_excursion(&self, slots: Vec<Slot>) -> (r: Vec<Slot>)
        requires
            S >= 1,
            1 <= C <= 64,
            prints_below(self.instr_list(), C as int),
            targets_below(self.instr_list(), S as int),
        ensures
            forall|sl: Slot| r@.contains(sl) <==> slots@.contains(sl) && (S <= 64 ==> Self::in_range(sl.0 as int, sl.1 as int) && forall|
                wp: WinPossible,
            | #[trigger] self.win_exact(wp, self.forbidden_spec(true), self.forbidden_spec(false)) ==> self.halt_slot_open(wp.side_parity@, sl)),
    {
        if S > 64 || slots.len() == 0 {
            return slots;
        }
        let (forbid_left, forbid_right) = self.shift_side_forbidden();
        assert(forbid_left@ =~= self.forbidden_spec(true));
        assert(forbid_right@ =~= self.forbidden_spec(false));
        let windows = self.win_possible_from_blank(&forbid_left, &forbid_right);
        let ghost v = windows.side_parity@;
        let want = windows::want_all(4);
        assert(want@ =~= seq![true, true, true, true]);
        let left_any = excursions::side_excursions(self, &windows, false, false);
        let right_any = excursions::side_excursions(self, &windows, true, false);
        let left_pops = pops::excursion_pops(self, &windows, false, &left_any);
        let right_pops = pops::excursion_pops(self, &windows, true, &right_any);
        let left = halfblank::frontier_slots(self, &windows, false, &right_any, &right_pops);
        let right = halfblank::frontier_slots(self, &windows, true, &left_any, &left_pops);
        proof {
            assert forall|wp: WinPossible| #[trigger] self.win_exact(wp, self.forbidden_spec(true), self.forbidden_spec(false))
                implies wp.side_parity@ == v by {
                self.lemma_win_exact_unique(wp, windows, self.forbidden_spec(true), self.forbidden_spec(false));
            }
        }
        let mut r: Vec<Slot> = Vec::new();
        let mut i: usize = 0;
        while i < slots.len()
            invariant
                1 <= S <= 64,
                1 <= C <= 64,
                i <= slots@.len(),
                windows.sized(S as int, C as int),
                want@ == seq![true, true, true, true],
                v == windows.side_parity@,
                targets_below(self.instr_list(), S as int),
                left.wf(),
                right.wf(),
                forall|h: halfblank::HFact| #[trigger] left.holds(h) == self.half_reach(v, false, true, h),
                forall|h: halfblank::HFact| #[trigger] right.holds(h) == self.half_reach(v, true, true, h),
                left_any.wf(),
                right_any.wf(),
                forall|f: excursions::RFact| #[trigger] left_any.holds(f) == self.ret_reach(v, false, false, f),
                forall|f: excursions::RFact| #[trigger] right_any.holds(f) == self.ret_reach(v, true, false, f),
                forall|sl: Slot| r@.contains(sl) <==> (exists|j: int| 0 <= j < i && slots@[j] == sl) && Self::in_range(sl.0 as int, sl.1 as int)
                    && self.halt_slot_open(v, sl),
            decreases slots@.len() - i,
        {
            let sl = slots[i];
            let (h, co) = sl;
            let keep = if (h as usize) < S && (co as usize) < C {
                let la = left.any_near(h, 0);
                let ra = right.any_near(h, 0);
                let fr = co == 0 && (la || ra);
                proof {
                    if co == 0 {
                        assert(la == self.frontier_at(v, false, h)) by {
                            if exists|near: Color| #[trigger] left.holds((h, 0u8, near)) {
                                let near = choose|near: Color| #[trigger] left.holds((h, 0u8, near));
                                assert(self.half_reach(v, false, true, (h, 0u8, near)));
                            }
                            if self.frontier_at(v, false, h) {
                                let near = choose|near: Color| #[trigger] self.half_reach(v, false, true, (h, 0u8, near));
                                assert(left.holds((h, 0u8, near)));
                            }
                        }
                        assert(ra == self.frontier_at(v, true, h)) by {
                            if exists|near: Color| #[trigger] right.holds((h, 0u8, near)) {
                                let near = choose|near: Color| #[trigger] right.holds((h, 0u8, near));
                                assert(self.half_reach(v, true, true, (h, 0u8, near)));
                            }
                            if self.frontier_at(v, true, h) {
                                let near = choose|near: Color| #[trigger] self.half_reach(v, true, true, (h, 0u8, near));
                                assert(right.holds((h, 0u8, near)));
                            }
                        }
                    }
                }
                self.win_any_check(&windows, &want, sl) && (fr || self.departs_any_check(&windows, &want, sl, &left_any, &right_any))
            } else {
                false
            };
            assert(keep == (Self::in_range(sl.0 as int, sl.1 as int) && self.halt_slot_open(v, sl)));
            let ghost r0 = r@;
            if keep {
                r.push(sl);
            }
            proof {
                assert forall|y: Slot| r@.contains(y) <==> (exists|j: int| 0 <= j < i + 1 && slots@[j] == y) && Self::in_range(y.0 as int, y.1 as int)
                    && self.halt_slot_open(v, y) by {
                    if r@.contains(y) {
                        let k = choose|k: int| 0 <= k < r@.len() && r@[k] == y;
                        if k < r0.len() {
                            assert(r0[k] == y);
                            assert(r0.contains(y));
                        }
                    }
                    if (exists|j: int| 0 <= j < i + 1 && slots@[j] == y) && Self::in_range(y.0 as int, y.1 as int) && self.halt_slot_open(v, y) {
                        let j = choose|j: int| 0 <= j < i + 1 && slots@[j] == y;
                        if j < i {
                            assert(r0.contains(y));
                            let k = choose|k: int| 0 <= k < r0.len() && r0[k] == y;
                            assert(r@[k] == y);
                        } else {
                            assert(y == sl);
                            assert(r@[r@.len() - 1] == sl);
                        }
                    }
                }
            }
            i += 1;
        }
        proof {
            assert forall|sl: Slot| r@.contains(sl) <==> slots@.contains(sl) && (S <= 64 ==> Self::in_range(sl.0 as int, sl.1 as int) && forall|
                wp: WinPossible,
            | #[trigger] self.win_exact(wp, self.forbidden_spec(true), self.forbidden_spec(false)) ==> self.halt_slot_open(wp.side_parity@, sl)) by {
                if slots@.contains(sl) {
                    let j = choose|j: int| 0 <= j < slots@.len() && slots@[j] == sl;
                }
                if r@.contains(sl) {
                    let j = choose|j: int| 0 <= j < slots@.len() && slots@[j] == sl;
                    assert(slots@.contains(sl));
                }
                if slots@.contains(sl) && Self::in_range(sl.0 as int, sl.1 as int) && forall|wp: WinPossible| #[trigger] self.win_exact(
                    wp,
                    self.forbidden_spec(true),
                    self.forbidden_spec(false),
                ) ==> self.halt_slot_open(wp.side_parity@, sl) {
                    assert(self.win_exact(windows, self.forbidden_spec(true), self.forbidden_spec(false)));
                }
            }
        }
        r
    }

    /// Backward search from the configurations at the blank edge of the
    /// tape that a blank-reading instruction moves into again.
    pub fn bkw_cant_spinout(&self, steps: Steps) -> (r: BackwardResult)
        requires
            S >= 1,
            1 <= C <= 64,
            prints_below(self.instr_list(), C as int),
            targets_below(self.instr_list(), S as int),
        ensures
            r matches BackwardResult::Refuted(n) ==> n <= cycle_budget(steps),
            (forall|x: (State, Shift)| Self::in_range(x.0 as int, 0) && #[trigger] crate::prog::enters_with(self.instr_at(x.0 as int, 0), x.0, x.1)
                ==> !entrypoint_spec(self.entries()).dom().contains(x.0)) ==> r == BackwardResult::Refuted(0),
            r == BackwardResult::Refuted(0) ==> forall|x: (State, Shift)| #[trigger] self.spinout_target(x)
                ==> !entrypoint_spec(self.entries()).dom().contains(x.0) || rejected(*self, x.0, zr_tv(x)),
            r == BackwardResult::Refuted(0) ==> forall|x: (State, Shift)| #[trigger] self.spinout_target(x) ==> rejected(*self, x.0, zr_tv(x))
                || forall|c: crate::run::Conf| #[trigger] self.conf_reach(c) && c != crate::run::blank_conf() ==> c.0 != x.0,
            r matches BackwardResult::Refuted(n) && n > 0 ==> exists|x: (State, Shift)| #[trigger] self.spinout_target(x)
                && entrypoint_spec(self.entries()).dom().contains(x.0) && !dropped(*self, x.0, zr_tv(x)),
    {
        let shifts = self.spinout_shifts_side_clean();
        let configs = zr_configs(&shifts);
        let entrypoints = self.get_entrypoints();
        proof {
            use_type_invariant(self);
            lemma_entries_ok(*self);
            assert forall|i: int| 0 <= i < configs@.len() implies ((#[trigger] configs@[i]).state as int) < S by {
                assert(shifts@.contains(shifts@[i]));
            }
            if some_entered(configs@, entrypoint_contents(&entrypoints)) {
                let i = choose|i: int| 0 <= i < configs@.len() && entrypoint_contents(&entrypoints).dom().contains(#[trigger] configs@[i].state);
                assert(shifts@.contains(shifts@[i]));
            }
        }
        let r = cant_reach(self, steps, configs, &entrypoints);
        proof {
            if r matches BackwardResult::Refuted(n) && n > 0 {
                let i = choose|i: int| 0 <= i < configs@.len() && entrypoint_contents(&entrypoints).dom().contains(configs@[i].state)
                    && !#[trigger] dropped(*self, configs@[i].state, tape_v(configs@[i].tape));
                let x = shifts@[i];
                assert(shifts@.contains(x));
                assert(configs@[i].tape.lspan.bs() =~= Seq::<Block>::empty());
                assert(configs@[i].tape.rspan.bs() =~= Seq::<Block>::empty());
                assert(tape_v(configs@[i].tape) == zr_tv(x));
                assert(self.spinout_target(x));
            }
            if r == BackwardResult::Refuted(0) {
                assert forall|x: (State, Shift)| #[trigger] self.spinout_target(x) implies !entrypoint_spec(self.entries()).dom().contains(x.0)
                    || rejected(*self, x.0, zr_tv(x)) by {
                    assert(shifts@.contains(x));
                    let i = choose|i: int| 0 <= i < shifts@.len() && shifts@[i] == x;
                    assert(configs@[i].tape.lspan.bs() =~= Seq::<Block>::empty());
                    assert(configs@[i].tape.rspan.bs() =~= Seq::<Block>::empty());
                    assert(tape_v(configs@[i].tape) == zr_tv(x));
                }
            }
            if r == BackwardResult::Refuted(0) {
                assert forall|x: (State, Shift)| #[trigger] self.spinout_target(x) implies rejected(*self, x.0, zr_tv(x))
                    || forall|c: crate::run::Conf| #[trigger] self.conf_reach(c) && c != crate::run::blank_conf() ==> c.0 != x.0 by {
                    if !rejected(*self, x.0, zr_tv(x)) {
                        assert forall|c: crate::run::Conf| #[trigger] self.conf_reach(c) && c != crate::run::blank_conf() implies c.0 != x.0 by {
                            lemma_reached_entered(*self, c);
                        }
                    }
                }
            }
        }
        r
    }

    /// Whether the spinning-out search starts from a state and shift: the
    /// state's blank-reading instruction stays in it moving that way, and
    /// the frontier analysis keeps it.
    pub open spec fn spinout_target(&self, x: (State, Shift)) -> bool {
        &&& Self::in_range(x.0 as int, 0)
        &&& crate::prog::enters_with(self.instr_at(x.0 as int, 0), x.0, x.1)
        &&& S <= 64 ==> self.frontier_open(x)
    }

    /// Backward search from the configurations that halt: an undefined
    /// slot read with unknown tape on both sides.
    pub fn bkw_cant_halt(&self, steps: Steps) -> (r: BackwardResult)
        requires
            S >= 1,
            1 <= C <= 64,
            prints_below(self.instr_list(), C as int),
            targets_below(self.instr_list(), S as int),
            Self::in_range(crate::prog::max_reached_of(self.instr_list()).0 as int, crate::prog::max_reached_of(self.instr_list()).1 as int),
        ensures
            r matches BackwardResult::Refuted(n) ==> n <= cycle_budget(steps),
            (forall|sl: Slot| #[trigger] self.is_halt_slot(sl) ==> !entrypoint_spec(self.entries()).dom().contains(sl.0))
                ==> r == BackwardResult::Refuted(0),
            r == BackwardResult::Refuted(0) ==> forall|sl: Slot| #[trigger] self.halt_target(sl)
                ==> !entrypoint_spec(self.entries()).dom().contains(sl.0) || rejected(*self, sl.0, halt_tv(sl)),
            r == BackwardResult::Refuted(0) ==> forall|sl: Slot| #[trigger] self.halt_target(sl) ==> rejected(*self, sl.0, halt_tv(sl))
                || forall|c: crate::run::Conf| #[trigger] self.conf_reach(c) && c != crate::run::blank_conf() ==> c.0 != sl.0,
            r matches BackwardResult::Refuted(n) && n > 0 ==> exists|sl: Slot| #[trigger] self.halt_target(sl)
                && entrypoint_spec(self.entries()).dom().contains(sl.0) && !dropped(*self, sl.0, halt_tv(sl)),
    {
        let set = self.halt_slots();
        let all = crate::prog::slot_vec(&set);
        let slots = self.halt_slots_side_excursion(all);
        let configs = halt_configs(&slots);
        let entrypoints = self.get_entrypoints();
        proof {
            use_type_invariant(self);
            lemma_entries_ok(*self);
            assert forall|i: int| 0 <= i < configs@.len() implies ((#[trigger] configs@[i]).state as int) < S by {
                assert(slots@.contains(slots@[i]));
                assert(all@.to_set().contains(slots@[i]));
                assert(self.is_halt_slot(slots@[i]));
            }
            if some_entered(configs@, entrypoint_contents(&entrypoints)) {
                let i = choose|i: int| 0 <= i < configs@.len() && entrypoint_contents(&entrypoints).dom().contains(#[trigger] configs@[i].state);
                assert(slots@.contains(slots@[i]));
                assert(all@.to_set().contains(slots@[i]));
                assert(self.is_halt_slot(slots@[i]));
            }
        }
        let r = cant_reach(self, steps, configs, &entrypoints);
        proof {
            if r matches BackwardResult::Refuted(n) && n > 0 {
                let i = choose|i: int| 0 <= i < configs@.len() && entrypoint_contents(&entrypoints).dom().contains(configs@[i].state)
                    && !#[trigger] dropped(*self, configs@[i].state, tape_v(configs@[i].tape));
                let sl = slots@[i];
                assert(slots@.contains(sl));
                assert(all@.to_set().contains(sl));
                assert(self.is_halt_slot(sl));
                assert(configs@[i].tape.lspan.bs() =~= Seq::<Block>::empty());
                assert(configs@[i].tape.rspan.bs() =~= Seq::<Block>::empty());
                assert(tape_v(configs@[i].tape) == halt_tv(sl));
                assert(self.halt_target(sl));
            }
            if r == BackwardResult::Refuted(0) {
                assert forall|sl: Slot| #[trigger] self.halt_target(sl) implies !entrypoint_spec(self.entries()).dom().contains(sl.0)
                    || rejected(*self, sl.0, halt_tv(sl)) by {
                    assert(set@.contains(sl));
                    assert(all@.to_set().contains(sl));
                    assert(all@.contains(sl));
                    assert(slots@.contains(sl));
                    let i = choose|i: int| 0 <= i < slots@.len() && slots@[i] == sl;
                    assert(configs@[i].tape.lspan.bs() =~= Seq::<Block>::empty());
                    assert(configs@[i].tape.rspan.bs() =~= Seq::<Block>::empty());
                    assert(tape_v(configs@[i].tape) == halt_tv(sl));
                }
            }
            if r == BackwardResult::Refuted(0) {
                assert forall|sl: Slot| #[trigger] self.halt_target(sl) implies rejected(*self, sl.0, halt_tv(sl))
                    || forall|c: crate::run::Conf| #[trigger] self.conf_reach(c) && c != crate::run::blank_conf() ==> c.0 != sl.0 by {
                    if !rejected(*self, sl.0, halt_tv(sl)) {
                        assert forall|c: crate::run::Conf| #[trigger] self.conf_reach(c) && c != crate::run::blank_conf() implies c.0 != sl.0 by {
                            lemma_reached_entered(*self, c);
                        }
                    }
                }
            }
        }
        r
    }

    /// Whether the halting search starts from a halt slot: it is one, and
    /// the side-excursion filter keeps it.
    pub open spec fn halt_target(&self, sl: Slot) -> bool {
        &&& self.is_halt_slot(sl)
        &&& S <= 64 ==> Self::in_range(sl.0 as int, sl.1 as int) && forall|wp: WinPossible| #[trigger] self.win_exact(
            wp,
            self.forbidden_spec(true),
            self.forbidden_spec(false),
        ) ==> self.halt_slot_open(wp.side_parity@, sl)
    }
}

} // verus!
