//! The history of growing predecessor edges that the second backward pass
//! keeps: where one edge would push a run past the largest count after
//! recurring at a steady spacing, that edge alone is cut.
use vstd::prelude::*;

use crate::bkw::{Config, TapeV, tape_v};
use crate::bkw::tape::{Block, BlockCount, Count, Steps, Tape, TapeEnd};
use crate::hashed::{CodeMap, code_map_contents, code_map_get, code_map_insert, code_map_new};
use crate::instrs::{Color, Instr, State};

verus! {

/// Observations kept per edge.
pub const OVERFLOW_CYCLE_KEEP: usize = 96;

/// Earlier occurrences at the same spacing that a cut needs.
pub const OVERFLOW_CYCLE_MIN_PRIOR: usize = 6;

/// A run as a key reads it: color, fewest cells, and whether it may be
/// longer.
#[derive(Clone, Copy)]
pub struct RunSig {
    pub color: Color,
    pub count: usize,
    pub indef: bool,
}

/// The key of a predecessor edge that grows the run nearest the head on
/// the side it pushes to: the configuration with that run's count left
/// out, and the instruction.
pub struct GrowthEdgeKey {
    pub state: State,
    pub scan: Color,
    pub read: Color,
    pub shift: bool,
    pub prev_state: State,
    pub grow_right: bool,
    pub l_end: TapeEnd,
    pub r_end: TapeEnd,
    pub left: Vec<RunSig>,
    pub right: Vec<RunSig>,
}

/// The key of a run.
pub open spec fn sig(b: Block) -> RunSig {
    RunSig { color: b.color, count: b.count.min_spec() as usize, indef: b.count is AtLeast }
}

/// The keys of a side's runs, nearest the head first.
pub open spec fn runs_spec(bs: Seq<Block>) -> Seq<RunSig> {
    Seq::new(bs.len(), |i: int| sig(bs[bs.len() - 1 - i]))
}

/// Run keys with the count of the first one set to 0.
pub open spec fn zero_first(rs: Seq<RunSig>) -> Seq<RunSig> {
    rs.update(0, RunSig { color: rs[0].color, count: 0, indef: rs[0].indef })
}

/// The number of a side's end.
pub open spec fn end_code(e: TapeEnd) -> u64 {
    if e == TapeEnd::Blanks { 0 } else { 1 }
}

/// The numbers that spell a list of run keys, three per run.
pub open spec fn runs_code(rs: Seq<RunSig>) -> Seq<u64>
    decreases rs.len(),
{
    if rs.len() == 0 {
        Seq::empty()
    } else {
        let r = rs.last();
        runs_code(rs.drop_last()) + seq![r.color as u64, r.count as u64, if r.indef { 1u64 } else { 0u64 }]
    }
}

/// The numbers that spell an edge key: its scalar fields, the number of
/// left runs, then the left runs and the right runs.
pub open spec fn key_code_spec(k: GrowthEdgeKey) -> Seq<u64> {
    seq![
        k.state as u64,
        k.scan as u64,
        k.read as u64,
        if k.shift { 1u64 } else { 0u64 },
        k.prev_state as u64,
        if k.grow_right { 1u64 } else { 0u64 },
        end_code(k.l_end),
        end_code(k.r_end),
        k.left@.len() as u64,
    ] + runs_code(k.left@) + runs_code(k.right@)
}

/// The keys of a span's runs, nearest the head first.
pub fn span_runs(blocks: &Vec<Block>) -> (r: Vec<RunSig>)
    ensures
        r@ == runs_spec(blocks@),
{
    let mut r: Vec<RunSig> = Vec::new();
    let n = blocks.len();
    let mut i: usize = 0;
    while i < n
        invariant
            n == blocks@.len(),
            i <= n,
            r@ =~= runs_spec(blocks@).subrange(0, i as int),
        decreases n - i,
    {
        let b = blocks[n - 1 - i];
        let count = match b.count {
            BlockCount::Exact(k) => k,
            BlockCount::AtLeast(k) => k,
        };
        r.push(RunSig { color: b.color, count: count as usize, indef: b.count.is_indef() });
        i += 1;
    }
    r
}

/// Appends the numbers of a list of run keys.
fn push_runs(out: &mut Vec<u64>, rs: &Vec<RunSig>)
    ensures
        final(out)@ == old(out)@ + runs_code(rs@),
{
    let mut i: usize = 0;
    while i < rs.len()
        invariant
            i <= rs@.len(),
            out@ == old(out)@ + runs_code(rs@.subrange(0, i as int)),
        decreases rs@.len() - i,
    {
        let r = rs[i];
        proof {
            assert(rs@.subrange(0, i + 1).drop_last() =~= rs@.subrange(0, i as int));
        }
        out.push(r.color as u64);
        out.push(r.count as u64);
        out.push(if r.indef { 1u64 } else { 0u64 });
        proof {
            assert(out@ =~= old(out)@ + runs_code(rs@.subrange(0, i + 1)));
        }
        i += 1;
    }
    assert(rs@.subrange(0, rs@.len() as int) =~= rs@);
}

impl GrowthEdgeKey {
    /// The numbers that spell the key.
    pub fn code(&self) -> (r: Vec<u64>)
        ensures
            r@ == key_code_spec(*self),
    {
        let mut r: Vec<u64> = Vec::new();
        r.push(self.state as u64);
        r.push(self.scan as u64);
        r.push(self.read as u64);
        r.push(if self.shift { 1u64 } else { 0u64 });
        r.push(self.prev_state as u64);
        r.push(if self.grow_right { 1u64 } else { 0u64 });
        r.push(if self.l_end == TapeEnd::Blanks { 0u64 } else { 1u64 });
        r.push(if self.r_end == TapeEnd::Blanks { 0u64 } else { 1u64 });
        r.push(self.left.len() as u64);
        push_runs(&mut r, &self.left);
        push_runs(&mut r, &self.right);
        assert(r@ =~= key_code_spec(*self));
        r
    }
}

/// The growth edge of stepping a configuration back by an instruction:
/// where the run nearest the head on the side the step pushes to (the
/// right for a right shift) has the scanned color, the step grows it; the
/// key leaves that run's count out, and the count is its fewest cells.
pub fn growth_edge_observation(config: &Config, instr: Instr) -> (r: Option<(GrowthEdgeKey, Count)>)
    ensures
        ({
            let tape = config.tape;
            let push = if instr.1 { tape.rspan.bs() } else { tape.lspan.bs() };
            if push.len() == 0 || push.last().color != tape.scan {
                r is None
            } else {
                r matches Some(p) && {
                    let (key, count) = p;
                    &&& count == push.last().count.min_spec()
                    &&& key.state == config.state
                    &&& key.scan == tape.scan
                    &&& key.read == instr.0
                    &&& key.shift == instr.1
                    &&& key.prev_state == instr.2
                    &&& key.grow_right == instr.1
                    &&& key.l_end == tape.lspan.end
                    &&& key.r_end == tape.rspan.end
                    &&& key.left@ == if instr.1 { runs_spec(tape.lspan.bs()) } else { zero_first(runs_spec(tape.lspan.bs())) }
                    &&& key.right@ == if instr.1 { zero_first(runs_spec(tape.rspan.bs())) } else { runs_spec(tape.rspan.bs()) }
                }
            }
        }),
{
    let (read, shift, prev_state) = instr;
    let tape = &config.tape;
    let push = if shift { &tape.rspan.span.blocks } else { &tape.lspan.span.blocks };
    let n = push.len();
    if n == 0 {
        return None;
    }
    let block = push[n - 1];
    if block.color != tape.scan {
        return None;
    }
    let count = block.count.minimum();
    let mut left = span_runs(&tape.lspan.span.blocks);
    let mut right = span_runs(&tape.rspan.span.blocks);
    if shift {
        let first = right[0];
        right.set(0, RunSig { color: first.color, count: 0, indef: first.indef });
    } else {
        let first = left[0];
        left.set(0, RunSig { color: first.color, count: 0, indef: first.indef });
    }
    let l_end = if tape.lspan.end == TapeEnd::Blanks { TapeEnd::Blanks } else { TapeEnd::Unknown };
    let r_end = if tape.rspan.end == TapeEnd::Blanks { TapeEnd::Blanks } else { TapeEnd::Unknown };
    Some((
        GrowthEdgeKey { state: config.state, scan: tape.scan, read, shift, prev_state, grow_right: shift, l_end, r_end, left, right },
        count,
    ))
}

/// A list of observations after one more: unchanged where it already
/// holds it, else with it added at the end and the oldest dropped past
/// `OVERFLOW_CYCLE_KEEP`.
pub open spec fn observe_spec(obs: Seq<(Steps, Count)>, p: (Steps, Count)) -> Seq<(Steps, Count)> {
    if obs.contains(p) {
        obs
    } else if obs.len() + 1 > OVERFLOW_CYCLE_KEEP {
        obs.push(p).subrange(1, obs.len() + 1int)
    } else {
        obs.push(p)
    }
}

/// Whether the point `j` spacings before `(ps, pc)`, at the spacing from
/// `(ps, pc)` to `(step, count)`, is not below zero and was observed.
pub open spec fn point_ok(obs: Seq<(Steps, Count)>, step: Steps, count: Count, ps: Steps, pc: Count, j: int) -> bool {
    &&& j * (step - ps) <= ps
    &&& j * (count - pc) <= pc
    &&& obs.contains(((ps - j * (step - ps)) as Steps, (pc - j * (count - pc)) as Count))
}

/// Whether an earlier observation `(ps, pc)` of an edge, with the edge now
/// at `count` on step `step`, starts a steady recurrence: it is earlier
/// and smaller, and the `OVERFLOW_CYCLE_MIN_PRIOR - 1` points before it at
/// the same step and count spacing were all observed.
pub open spec fn steady_from(obs: Seq<(Steps, Count)>, step: Steps, count: Count, ps: Steps, pc: Count) -> bool {
    &&& ps < step
    &&& pc < count
    &&& forall|j: int| 1 <= j < OVERFLOW_CYCLE_MIN_PRIOR ==> #[trigger] point_ok(obs, step, count, ps, pc, j)
}

/// Whether one of the last 32 observations starts a steady recurrence.
pub open spec fn certifies_spec(obs: Seq<(Steps, Count)>, step: Steps, count: Count) -> bool {
    exists|i: int| #![trigger obs[i]]
        0 <= i < obs.len() && obs.len() - 32 <= i && steady_from(obs, step, count, obs[i].0, obs[i].1)
}

/// The observations of growing edges, by the numbers of their keys.
pub struct OverflowCycleHistory {
    pub edges: CodeMap,
    pub obs: Vec<Vec<(Steps, Count)>>,
}

impl OverflowCycleHistory {
    /// Each key number names its own list.
    pub open spec fn wf(&self) -> bool {
        let m = code_map_contents(&self.edges);
        &&& forall|k: Seq<u64>| #[trigger] m.dom().contains(k) ==> m[k] < self.obs@.len()
        &&& forall|k1: Seq<u64>, k2: Seq<u64>| #[trigger] m.dom().contains(k1) && #[trigger] m.dom().contains(k2) && k1 != k2 ==> m[k1] != m[k2]
    }

    /// The observations of each edge, by the numbers of its key.
    pub open spec fn view(&self) -> Map<Seq<u64>, Seq<(Steps, Count)>> {
        let m = code_map_contents(&self.edges);
        Map::new(|k: Seq<u64>| m.dom().contains(k), |k: Seq<u64>| self.obs@[m[k] as int]@)
    }

    /// No observation yet.
    pub fn new() -> (r: Self)
        ensures
            r.wf(),
            r@ == Map::<Seq<u64>, Seq<(Steps, Count)>>::empty(),
    {
        let r = OverflowCycleHistory { edges: code_map_new(), obs: Vec::new() };
        assert(r@ =~= Map::<Seq<u64>, Seq<(Steps, Count)>>::empty());
        r
    }

    /// Records that an edge grew its run to `count` on step `step`.
    pub fn observe(&mut self, key: GrowthEdgeKey, step: Steps, count: Count)
        requires
            old(self).wf(),
        ensures
            final(self).wf(),
            final(self)@ == old(self)@.insert(
                key_code_spec(key),
                observe_spec(if old(self)@.dom().contains(key_code_spec(key)) { old(self)@[key_code_spec(key)] } else { Seq::empty() }, (step, count)),
            ),
    {
        let code = key.code();
        let ghost k = code@;
        let ghost v0 = self@;
        let ghost m0 = code_map_contents(&self.edges);
        let idx = match code_map_get(&self.edges, &code) {
            Some(i) => i,
            None => {
                let i = self.obs.len();
                self.obs.push(Vec::new());
                code_map_insert(&mut self.edges, code, i);
                proof {
                    let m = code_map_contents(&self.edges);
                    assert forall|k1: Seq<u64>| #[trigger] m.dom().contains(k1) && k1 != k implies m[k1] < i && self.obs@[m[k1] as int] == old(self).obs@[m0[k1] as int] by {
                        assert(m0.dom().contains(k1));
                    }
                }
                i
            },
        };
        let ghost m1 = code_map_contents(&self.edges);
        let ghost o1 = self.obs@;
        assert(m1.dom().contains(k) && m1[k] == idx && idx < self.obs@.len());
        assert(self.obs@[idx as int]@ == if v0.dom().contains(k) { v0[k] } else { Seq::empty() });
        let mut list = copy_obs(&self.obs[idx]);
        let p = (step, count);
        if !holds_obs(&list, p) {
            list.push(p);
            if list.len() > OVERFLOW_CYCLE_KEEP {
                list.remove(0);
            }
        }
        proof {
            let l0 = o1[idx as int]@;
            if !l0.contains(p) && l0.len() + 1 > OVERFLOW_CYCLE_KEEP {
                assert(list@ =~= l0.push(p).subrange(1, l0.len() + 1int));
            }
        }
        self.obs.set(idx, list);
        proof {
            let m = code_map_contents(&self.edges);
            assert forall|k1: Seq<u64>| #[trigger] m.dom().contains(k1) && k1 != k implies self.obs@[m[k1] as int]@ == v0[k1] by {
                assert(m[k1] != m[k]);
                if m0.dom().contains(k1) {
                    assert(v0.dom().contains(k1));
                }
            }
            assert(self@ =~= v0.insert(k, observe_spec(if v0.dom().contains(k) { v0[k] } else { Seq::empty() }, p)));
        }
    }

    /// Whether an edge at `count` on step `step` has recurred steadily, so
    /// that it may be cut.
    pub fn certifies(&self, key: &GrowthEdgeKey, step: Steps, count: Count) -> (r: bool)
        requires
            self.wf(),
        ensures
            r == (self@.dom().contains(key_code_spec(*key)) && certifies_spec(self@[key_code_spec(*key)], step, count)),
    {
        let code = key.code();
        let idx = match code_map_get(&self.edges, &code) {
            None => {
                return false;
            },
            Some(i) => i,
        };
        let obs = &self.obs[idx];
        assert(self@.dom().contains(code@));
        assert(obs@ == self@[code@]);
        let n = obs.len();
        let mut t: usize = 0;
        while t < 32 && t < n
            invariant
                n == obs@.len(),
                t <= n,
                self@.dom().contains(key_code_spec(*key)),
                obs@ == self@[key_code_spec(*key)],
                forall|i: int| #![trigger obs@[i]] n - t <= i < n ==> !steady_from(obs@, step, count, obs@[i].0, obs@[i].1),
            decreases n - t,
        {
            let (prev_step, prev_count) = obs[n - 1 - t];
            if steady(obs, step, count, prev_step, prev_count) {
                assert(obs@[n - 1 - t] == (prev_step, prev_count));
                assert(certifies_spec(obs@, step, count));
                return true;
            }
            t += 1;
        }
        proof {
            if certifies_spec(obs@, step, count) {
                let i = choose|i: int| #![trigger obs@[i]]
                    0 <= i < obs@.len() && obs@.len() - 32 <= i && steady_from(obs@, step, count, obs@[i].0, obs@[i].1);
                assert(n - t <= i);
            }
        }
        false
    }
}

/// Whether a list of observations holds one.
fn holds_obs(list: &Vec<(Steps, Count)>, p: (Steps, Count)) -> (r: bool)
    ensures
        r == list@.contains(p),
{
    let mut i: usize = 0;
    while i < list.len()
        invariant
            i <= list@.len(),
            forall|j: int| 0 <= j < i ==> list@[j] != p,
        decreases list@.len() - i,
    {
        if list[i].0 == p.0 && list[i].1 == p.1 {
            assert(list@[i as int] == p);
            return true;
        }
        i += 1;
    }
    false
}

/// A copy of a list of observations.
fn copy_obs(list: &Vec<(Steps, Count)>) -> (r: Vec<(Steps, Count)>)
    ensures
        r@ == list@,
{
    let mut r: Vec<(Steps, Count)> = Vec::new();
    let mut i: usize = 0;
    while i < list.len()
        invariant
            i <= list@.len(),
            r@ == list@.subrange(0, i as int),
        decreases list@.len() - i,
    {
        r.push(list[i]);
        i += 1;
    }
    assert(list@.subrange(0, list@.len() as int) =~= list@);
    r
}

/// Whether `(prev_step, prev_count)` starts a steady recurrence up to
/// `(step, count)`.
fn steady(obs: &Vec<(Steps, Count)>, step: Steps, count: Count, prev_step: Steps, prev_count: Count) -> (r: bool)
    ensures
        r == steady_from(obs@, step, count, prev_step, prev_count),
{
    if prev_step >= step || prev_count >= count {
        return false;
    }
    let period = step - prev_step;
    let delta = count - prev_count;
    let mut want_step = prev_step;
    let mut want_count = prev_count;
    let mut prior: usize = 1;
    assert(want_step as int == prev_step as int - (prior as int - 1) * period as int);
    assert(want_count as int == prev_count as int - (prior as int - 1) * delta as int);
    while prior < OVERFLOW_CYCLE_MIN_PRIOR
        invariant
            1 <= prior <= OVERFLOW_CYCLE_MIN_PRIOR,
            period == step - prev_step,
            delta == count - prev_count,
            prev_step < step,
            prev_count < count,
            want_step as int == prev_step as int - (prior as int - 1) * period as int,
            want_count as int == prev_count as int - (prior as int - 1) * delta as int,
            forall|j: int| 1 <= j < prior ==> #[trigger] point_ok(obs@, step, count, prev_step, prev_count, j),
        decreases OVERFLOW_CYCLE_MIN_PRIOR - prior,
    {
        let ghost pj = prior as int;
        proof {
            assert(pj * period as int == (pj - 1) * period as int + period as int) by (nonlinear_arith);
            assert(pj * delta as int == (pj - 1) * delta as int + delta as int) by (nonlinear_arith);
        }
        if want_step < period || want_count < delta {
            assert(!point_ok(obs@, step, count, prev_step, prev_count, pj));
            return false;
        }
        let next_step = want_step - period;
        let next_count = want_count - delta;
        if !holds_obs(obs, (next_step, next_count)) {
            assert(!point_ok(obs@, step, count, prev_step, prev_count, pj));
            return false;
        }
        assert(point_ok(obs@, step, count, prev_step, prev_count, pj));
        want_step = next_step;
        want_count = next_count;
        prior += 1;
    }
    true
}

/// Whether a backward pass cuts steadily growing edges, the step it is
/// on, and the history of growing edges it keeps.
pub struct CycleMode {
    pub on: bool,
    pub step: Steps,
    pub history: OverflowCycleHistory,
}

/// The tapes met in a state with a tape hash, in the second backward
/// pass: a repeat of an exact tape is a cycle of the search.
pub struct ExactSeen {
    pub index: CodeMap,
    pub buckets: Vec<Vec<Tape>>,
}

/// The key numbers of a state with a tape hash.
pub open spec fn seen_code(state: State, hash: u64) -> Seq<u64> {
    seq![state as u64, hash]
}

impl ExactSeen {
    /// Each key number names its own bucket.
    pub open spec fn wf(&self) -> bool {
        let m = code_map_contents(&self.index);
        &&& forall|k: Seq<u64>| #[trigger] m.dom().contains(k) ==> m[k] < self.buckets@.len()
        &&& forall|k1: Seq<u64>, k2: Seq<u64>| #[trigger] m.dom().contains(k1) && #[trigger] m.dom().contains(k2) && k1 != k2 ==> m[k1] != m[k2]
    }

    /// The tapes met under each key, as plain values.
    pub open spec fn view(&self) -> Map<Seq<u64>, Seq<TapeV>> {
        let m = code_map_contents(&self.index);
        Map::new(|k: Seq<u64>| m.dom().contains(k), |k: Seq<u64>| self.buckets@[m[k] as int]@.map_values(|t: Tape| tape_v(t)))
    }

    /// Nothing met yet.
    pub fn new() -> (r: Self)
        ensures
            r.wf(),
            r@ == Map::<Seq<u64>, Seq<TapeV>>::empty(),
    {
        let r = ExactSeen { index: code_map_new(), buckets: Vec::new() };
        assert(r@ =~= Map::<Seq<u64>, Seq<TapeV>>::empty());
        r
    }

    /// Adds a tape met in a state with a hash; true where that exact tape
    /// was not met under the key before.
    pub fn insert(&mut self, state: State, hash: u64, tape: &Tape) -> (r: bool)
        requires
            old(self).wf(),
        ensures
            final(self).wf(),
            ({
                let k = seen_code(state, hash);
                let b = if old(self)@.dom().contains(k) { old(self)@[k] } else { Seq::empty() };
                &&& r == !b.contains(tape_v(*tape))
                &&& final(self)@ == old(self)@.insert(k, if r { b.push(tape_v(*tape)) } else { b })
            }),
    {
        let mut code: Vec<u64> = Vec::new();
        code.push(state as u64);
        code.push(hash);
        let ghost k = code@;
        assert(k =~= seen_code(state, hash));
        let ghost v0 = self@;
        let ghost m0 = code_map_contents(&self.index);
        let idx = match code_map_get(&self.index, &code) {
            Some(i) => i,
            None => {
                let i = self.buckets.len();
                self.buckets.push(Vec::new());
                code_map_insert(&mut self.index, code, i);
                proof {
                    let m = code_map_contents(&self.index);
                    assert forall|k1: Seq<u64>| #[trigger] m.dom().contains(k1) && k1 != k implies m[k1] < i && self.buckets@[m[k1] as int] == old(self).buckets@[m0[k1] as int] by {
                        assert(m0.dom().contains(k1));
                    }
                    assert(self.buckets@[i as int]@.map_values(|t: Tape| tape_v(t)) =~= Seq::<TapeV>::empty());
                }
                i
            },
        };
        let ghost b = if v0.dom().contains(k) { v0[k] } else { Seq::empty() };
        assert(self.buckets@[idx as int]@.map_values(|t: Tape| tape_v(t)) == b);
        assert(self@ =~= v0.insert(k, b));
        let mut j: usize = 0;
        let nb = self.buckets[idx].len();
        while j < nb
            invariant
                idx < self.buckets@.len(),
                nb == self.buckets@[idx as int]@.len(),
                self.buckets@[idx as int]@.map_values(|t: Tape| tape_v(t)) == b,
                j <= nb,
                self.wf(),
                self@ == v0.insert(k, b),
                v0 == old(self)@,
                k == seen_code(state, hash),
                b == (if v0.dom().contains(k) { v0[k] } else { Seq::<TapeV>::empty() }),
                forall|q: int| 0 <= q < j ==> b[q] != tape_v(*tape),
            decreases nb - j,
        {
            if self.buckets[idx][j].equals(tape) {
                assert(b[j as int] == tape_v(*tape));
                return false;
            }
            j += 1;
        }
        assert(!b.contains(tape_v(*tape)));
        let mut bucket = copy_tapes(&self.buckets[idx]);
        bucket.push(tape.clone());
        assert(bucket@.map_values(|t: Tape| tape_v(t)) =~= b.push(tape_v(*tape)));
        self.buckets.set(idx, bucket);
        proof {
            let m = code_map_contents(&self.index);
            assert forall|k1: Seq<u64>| #[trigger] m.dom().contains(k1) && k1 != k implies
                self.buckets@[m[k1] as int]@.map_values(|t: Tape| tape_v(t)) == v0[k1] by {
                assert(m[k1] != m[k]);
                if m0.dom().contains(k1) {
                    assert(v0.dom().contains(k1));
                }
            }
            assert(self@ =~= v0.insert(k, b.push(tape_v(*tape))));
        }
        true
    }
}

/// A copy of a list of tapes.
fn copy_tapes(list: &Vec<Tape>) -> (r: Vec<Tape>)
    ensures
        r@.map_values(|t: Tape| tape_v(t)) == list@.map_values(|t: Tape| tape_v(t)),
{
    let mut r: Vec<Tape> = Vec::new();
    let mut i: usize = 0;
    while i < list.len()
        invariant
            i <= list@.len(),
            r@.len() == i,
            forall|q: int| 0 <= q < i ==> tape_v(#[trigger] r@[q]) == tape_v(list@[q]),
        decreases list@.len() - i,
    {
        r.push(list[i].clone());
        i += 1;
    }
    assert(r@.map_values(|t: Tape| tape_v(t)) =~= list@.map_values(|t: Tape| tape_v(t)));
    r
}

} // verus!
