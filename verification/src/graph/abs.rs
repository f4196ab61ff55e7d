//! A bounded abstraction of the runs from the blank tape.
//!
//! An abstract configuration keeps a state, a window of at most
//! `MAX_TAPE` cells around the head (the color count standing for a cell
//! whose color is unknown), and for each end of the window whether the
//! cells beyond it may have been written.  The abstract configurations
//! reached from the blank one are explored, up to `MAX_NODES` of them.
//! Whatever no reached abstract configuration allows, no run reaches.
use vstd::prelude::*;

use crate::bkw::{prints_below, targets_below};
use crate::bkw::windows::nz;
use crate::instrs::{Color, Slot, State};
use crate::run::{Conf, blank_conf, conf_nonblank, conf_sides_ok, nb, nonblank, rest};
use crate::prog::{enters_with, max_reached_of, slot_vec, Prog};

verus! {

/// The widest window kept around the head.
pub const MAX_TAPE: usize = 15;

/// The most abstract configurations explored.
pub const MAX_NODES: usize = 1000;

/// An abstract configuration: state, head position in the window, the
/// window, and whether the cells left and right of the window may have
/// been written.
pub type AbsView = (State, u8, Seq<u8>, bool, bool);

/// The blank tape in the start state.
pub open spec fn abs_start() -> AbsView {
    (0, 0, seq![0u8], false, false)
}

/// Cuts a window wider than `MAX_TAPE` down to `MAX_TAPE` cells around
/// the head, marking the ends that were cut off as unknown.
pub open spec fn crop(a: AbsView) -> AbsView {
    let (st, h0, t, lu, ru) = a;
    let len = t.len() as int;
    if len == 0 {
        (st, 0, seq![0u8], lu, ru)
    } else {
        let h: int = if h0 as int >= len { len - 1 } else { h0 as int };
        if len <= MAX_TAPE as int {
            (st, h as u8, t, lu, ru)
        } else {
            let half = (MAX_TAPE / 2) as int;
            let s0 = if h >= half { h - half } else { 0 };
            let start = if s0 + MAX_TAPE as int > len { len - MAX_TAPE as int } else { s0 };
            let end = start + MAX_TAPE as int;
            (st, (h - start) as u8, t.subrange(start, end), lu || start > 0, ru || end < len)
        }
    }
}

struct AbsCfg {
    state: u8,
    head: u8,
    tape: Vec<u8>,
    left_unknown: bool,
    right_unknown: bool,
}

impl View for AbsCfg {
    type V = AbsView;

    closed spec fn view(&self) -> AbsView {
        (self.state, self.head, self.tape@, self.left_unknown, self.right_unknown)
    }
}

/// Every instruction enters a state and prints a color within the
/// largest of each that the table reaches, which are at least 1.
proof fn lemma_max_reached_bounds(is: Seq<crate::instrs::Instr>)
    ensures
        max_reached_of(is).0 >= 1,
        max_reached_of(is).1 >= 1,
        forall|i: int| 0 <= i < is.len() ==> (#[trigger] is[i]).2 <= max_reached_of(is).0 && is[i].0 <= max_reached_of(is).1,
    decreases is.len(),
{
    if is.len() > 0 {
        lemma_max_reached_bounds(is.drop_last());
        assert forall|i: int| 0 <= i < is.len() implies (#[trigger] is[i]).2 <= max_reached_of(is).0 && is[i].0 <= max_reached_of(is).1 by {
            if i < is.len() - 1 {
                assert(is[i] == is.drop_last()[i]);
            }
        }
    }
}

impl<const STATES: usize, const COLORS: usize> Prog<STATES, COLORS> {
    /// The abstract configuration that follows `a` when the scanned cell
    /// holds `read` (if the window allows that color there and the slot is
    /// defined), before cropping.
    pub open spec fn abs_next(&self, a: AbsView, read: int) -> Option<AbsView> {
        let (st, h, t, lu, ru) = a;
        let wild = COLORS as u8;
        if (h as int) < t.len() && 0 <= read < COLORS && (t[h as int] == wild || t[h as int] as int == read)
            && Self::in_range(st as int, read) {
            match self.instr_at(st as int, read) {
                None => None,
                Some(i) => {
                    let t2 = t.update(h as int, i.0);
                    if i.1 {
                        let t3 = if h as int + 1 >= t2.len() {
                            t2.push(if ru { wild } else { 0u8 })
                        } else {
                            t2
                        };
                        Some((i.2, (h + 1) as u8, t3, lu, ru))
                    } else if h == 0 {
                        Some((i.2, 0u8, seq![if lu { wild } else { 0u8 }] + t2, lu, ru))
                    } else {
                        Some((i.2, (h - 1) as u8, t2, lu, ru))
                    }
                },
            }
        } else {
            None
        }
    }

    /// Whether `b` follows `a` by one step (before cropping).
    pub open spec fn abs_succ(&self, a: AbsView, b: AbsView) -> bool {
        exists|rd: int| #[trigger] self.abs_next(a, rd) == Some(b)
    }

    /// Whether a set of abstract configurations holds the start and is
    /// closed under cropped steps.
    pub open spec fn abs_closed(&self, set: spec_fn(AbsView) -> bool) -> bool {
        &&& set(abs_start())
        &&& forall|a: AbsView, read: int| #![trigger set(a), self.abs_next(a, read)]
            set(a) && self.abs_next(a, read) is Some ==> set(crop(self.abs_next(a, read)->0))
    }

    /// Whether an abstract configuration is reached from the start (it is
    /// in every closed set).
    pub open spec fn abs_reach(&self, a: AbsView) -> bool {
        forall|set: spec_fn(AbsView) -> bool| #[trigger] self.abs_closed(set) ==> set(a)
    }

    /// The reached abstract configurations.
    pub open spec fn abs_reach_set(&self) -> Set<AbsView> {
        Set::new(|a: AbsView| self.abs_reach(a))
    }

    /// Whether fewer than `MAX_NODES` abstract configurations are reached.
    pub open spec fn abs_small(&self) -> bool {
        self.abs_reach_set().finite() && self.abs_reach_set().len() < MAX_NODES
    }

    /// Whether `ns` lists distinct reached abstract configurations, starting
    /// with the start, and, if there are fewer than `MAX_NODES`, all that
    /// any of them steps to.
    pub open spec fn abs_explored(&self, ns: Seq<AbsView>) -> bool {
        &&& ns.len() >= 1
        &&& ns[0] == abs_start()
        &&& ns.no_duplicates()
        &&& forall|k: int| 0 <= k < ns.len() ==> self.abs_reach(#[trigger] ns[k])
        &&& forall|k: int| 0 <= k < ns.len() ==> Self::abs_wf(#[trigger] ns[k], MAX_TAPE as int)
        &&& ns.len() < MAX_NODES ==> forall|k: int, rd: int| 0 <= k < ns.len() && #[trigger] self.abs_next(ns[k], rd) is Some
            ==> ns.contains(crop(self.abs_next(ns[k], rd)->0))
    }

    /// A state of the table, a head inside a window of at most `width`
    /// cells, and cells that are colors or unknown.
    pub open spec fn abs_wf(a: AbsView, width: int) -> bool {
        &&& (a.0 as int) < STATES
        &&& (a.1 as int) < a.2.len() <= width
        &&& forall|i: int| 0 <= i < a.2.len() ==> (#[trigger] a.2[i] as int) <= COLORS
    }
}

fn copy_tape(t: &Vec<u8>) -> (r: Vec<u8>)
    ensures
        r@ == t@,
{
    let mut r: Vec<u8> = Vec::new();
    let mut i: usize = 0;
    while i < t.len()
        invariant
            i <= t.len(),
            r@ == t@.subrange(0, i as int),
        decreases t.len() - i,
    {
        r.push(t[i]);
        i += 1;
    }
    assert(r@ =~= t@);
    r
}

fn same_cfg(a: &AbsCfg, b: &AbsCfg) -> (r: bool)
    ensures
        r == (a@ == b@),
{
    if a.state != b.state || a.head != b.head || a.left_unknown != b.left_unknown
        || a.right_unknown != b.right_unknown || a.tape.len() != b.tape.len() {
        return false;
    }
    let mut i: usize = 0;
    while i < a.tape.len()
        invariant
            i <= a.tape.len(),
            a.tape.len() == b.tape.len(),
            forall|j: int| 0 <= j < i ==> a.tape@[j] == b.tape@[j],
        decreases a.tape.len() - i,
    {
        if a.tape[i] != b.tape[i] {
            return false;
        }
        i += 1;
    }
    assert(a.tape@ =~= b.tape@);
    true
}

impl AbsCfg {
    fn new_blank() -> (r: Self)
        ensures
            r@ == abs_start(),
    {
        let mut cfg = AbsCfg { state: 0, head: 0, tape: vec![0u8], left_unknown: false, right_unknown: false };
        cfg.normalize();
        assert(cfg.tape@ =~= seq![0u8]);
        cfg
    }

    fn normalize(&mut self)
        requires
            old(self).tape.len() < 256,
        ensures
            final(self)@ == crop(old(self)@),
    {
        let len = self.tape.len();
        if len == 0 {
            self.tape.push(0);
            self.head = 0;
            assert(self.tape@ =~= seq![0u8]);
            return;
        }
        if self.head as usize >= len {
            self.head = (len - 1) as u8;
        }
        if len <= MAX_TAPE {
            return;
        }
        let head = self.head as usize;
        let half = MAX_TAPE / 2;
        let mut start = if head >= half { head - half } else { 0 };
        if start + MAX_TAPE > len {
            start = len - MAX_TAPE;
        }
        let end = start + MAX_TAPE;
        if start > 0 {
            self.left_unknown = true;
        }
        if end < len {
            self.right_unknown = true;
        }
        let mut cut: Vec<u8> = Vec::new();
        let mut i: usize = start;
        while i < end
            invariant
                start <= i <= end <= len,
                len == self.tape.len(),
                cut@ == self.tape@.subrange(start as int, i as int),
            decreases end - i,
        {
            cut.push(self.tape[i]);
            i += 1;
        }
        self.tape = cut;
        self.head = (head - start) as u8;
    }
}

impl<const STATES: usize, const COLORS: usize> Prog<STATES, COLORS> {
    /// The instruction of a defined slot prints a color and enters a state
    /// of the table.
    proof fn lemma_instr_bounds(&self, st: int, co: int)
        requires
            Self::in_range(st, co),
            self.inv(),
            self.instr_at(st, co) is Some,
            targets_below(self.instr_list(), STATES as int),
            prints_below(self.instr_list(), COLORS as int),
        ensures
            ((self.instr_at(st, co)->0).0 as int) < COLORS,
            ((self.instr_at(st, co)->0).2 as int) < STATES,
    {
        self.lemma_instr_at_listed(st, co);
        let j = choose|j: int| 0 <= j < self.instr_list().len() && #[trigger] self.instr_list()[j] == self.instr_at(st, co)->0;
        assert(self.instr_list()[j] == self.instr_at(st, co)->0);
    }

    /// The abstract configuration that follows `cfg` when its scanned
    /// cell holds `read`, if the slot is defined.
    fn step_read(&self, cfg: &AbsCfg, read: u8, wild: u8) -> (r: Option<AbsCfg>)
        requires
            wild as int == COLORS,
            COLORS < 256,
            (read as int) < COLORS,
            cfg@.2[cfg@.1 as int] == wild || cfg@.2[cfg@.1 as int] == read,
            Self::abs_wf(cfg@, MAX_TAPE as int),
            targets_below(self.instr_list(), STATES as int),
            prints_below(self.instr_list(), COLORS as int),
        ensures
            r is Some <==> self.abs_next(cfg@, read as int) is Some,
            r matches Some(n) ==> self.abs_next(cfg@, read as int) == Some(n@)
                && Self::abs_wf(n@, MAX_TAPE as int + 1),
    {
        proof {
            use_type_invariant(self);
        }
        let head = cfg.head as usize;
        match self.get(&(cfg.state, read)) {
            None => None,
            Some(ins) => {
                let (write, sh, dst) = *ins;
                proof {
                    self.lemma_instr_bounds(cfg.state as int, read as int);
                }
                let mut tape = copy_tape(&cfg.tape);
                tape.set(head, write);
                let ghost t2 = tape@;
                let next = if sh {
                    if head + 1 >= tape.len() {
                        let nc: u8 = if cfg.right_unknown { wild } else { 0 };
                        tape.push(nc);
                    }
                    AbsCfg {
                        state: dst,
                        head: (head + 1) as u8,
                        tape,
                        left_unknown: cfg.left_unknown,
                        right_unknown: cfg.right_unknown,
                    }
                } else if head == 0 {
                    let nc: u8 = if cfg.left_unknown { wild } else { 0 };
                    tape.insert(0, nc);
                    proof {
                        assert(tape@ =~= seq![nc] + t2);
                    }
                    AbsCfg { state: dst, head: 0, tape, left_unknown: cfg.left_unknown, right_unknown: cfg.right_unknown }
                } else {
                    AbsCfg {
                        state: dst,
                        head: (head - 1) as u8,
                        tape,
                        left_unknown: cfg.left_unknown,
                        right_unknown: cfg.right_unknown,
                    }
                };
                proof {
                    assert forall|i: int| 0 <= i < next@.2.len() implies (#[trigger] next@.2[i] as int) <= COLORS by {
                        if sh {
                            if i < t2.len() {
                                assert(next@.2[i] == t2[i]);
                            }
                        } else if head == 0 {
                            if i > 0 {
                                assert(next@.2[i] == t2[i - 1]);
                            }
                        }
                    }
                }
                Some(next)
            },
        }
    }

    /// The abstract configurations that follow `cfg`, one for each color
    /// that the scanned cell may hold and whose slot is defined.
    fn step_abs(&self, cfg: &AbsCfg, wild: u8) -> (out: Vec<AbsCfg>)
        requires
            wild as int == COLORS,
            COLORS < 256,
            Self::abs_wf(cfg@, MAX_TAPE as int),
            targets_below(self.instr_list(), STATES as int),
            prints_below(self.instr_list(), COLORS as int),
        ensures
            forall|k: int| 0 <= k < out.len() ==> self.abs_succ(cfg@, #[trigger] out@[k]@),
            forall|rd: int| #[trigger] self.abs_next(cfg@, rd) is Some
                ==> exists|k: int| 0 <= k < out.len() && out@[k]@ == self.abs_next(cfg@, rd)->0,
            forall|k: int| 0 <= k < out.len() ==> Self::abs_wf(#[trigger] out@[k]@, MAX_TAPE as int + 1),
            out.len() <= COLORS,
    {
        let head = cfg.head as usize;
        let cur = cfg.tape[head];
        let lo: usize = if cur == wild { 0 } else { cur as usize };
        let hi: usize = if cur == wild { wild as usize } else { cur as usize + 1 };
        let mut out: Vec<AbsCfg> = Vec::new();
        let mut r: usize = lo;
        while r < hi
            invariant
                wild as int == COLORS,
                COLORS < 256,
                Self::abs_wf(cfg@, MAX_TAPE as int),
                targets_below(self.instr_list(), STATES as int),
                prints_below(self.instr_list(), COLORS as int),
                head == cfg.head,
                cur == cfg.tape@[head as int],
                lo == (if cur == wild { 0 } else { cur as int }),
                hi == (if cur == wild { wild as int } else { cur as int + 1 }),
                lo <= r <= hi,
                hi - lo <= COLORS,
                out.len() <= r - lo,
                forall|k: int| 0 <= k < out.len() ==> self.abs_succ(cfg@, #[trigger] out@[k]@),
                forall|rd: int| rd < r && #[trigger] self.abs_next(cfg@, rd) is Some
                    ==> exists|k: int| 0 <= k < out.len() && out@[k]@ == self.abs_next(cfg@, rd)->0,
                forall|k: int| 0 <= k < out.len() ==> Self::abs_wf(#[trigger] out@[k]@, MAX_TAPE as int + 1),
            decreases hi - r,
        {
            let read = r as u8;
            if let Some(next) = self.step_read(cfg, read, wild) {
                let ghost before = out@;
                out.push(next);
                proof {
                    assert forall|k: int| 0 <= k < out.len() implies self.abs_succ(cfg@, #[trigger] out@[k]@) by {
                        if k < before.len() {
                            assert(out@[k] == before[k]);
                        } else {
                            assert(self.abs_next(cfg@, read as int) == Some(out@[k]@));
                        }
                    }
                    assert forall|rd: int| rd < r + 1 && #[trigger] self.abs_next(cfg@, rd) is Some
                        implies exists|k: int| 0 <= k < out.len() && out@[k]@ == self.abs_next(cfg@, rd)->0 by {
                        if rd < r {
                            let k = choose|k: int| 0 <= k < before.len() && before[k]@ == self.abs_next(cfg@, rd)->0;
                            assert(out@[k] == before[k]);
                        } else {
                            assert(out@[out.len() - 1]@ == self.abs_next(cfg@, rd)->0);
                        }
                    }
                    assert forall|k: int| 0 <= k < out.len() implies Self::abs_wf(#[trigger] out@[k]@, MAX_TAPE as int + 1) by {
                        if k < before.len() {
                            assert(out@[k] == before[k]);
                        }
                    }
                }
            }
            r += 1;
        }
        proof {
            assert forall|rd: int| #[trigger] self.abs_next(cfg@, rd) is Some
                implies exists|k: int| 0 <= k < out.len() && out@[k]@ == self.abs_next(cfg@, rd)->0 by {
                assert(rd < r);
            }
        }
        out
    }
}

fn copy_cfg(a: &AbsCfg) -> (r: AbsCfg)
    ensures
        r@ == a@,
{
    AbsCfg {
        state: a.state,
        head: a.head,
        tape: copy_tape(&a.tape),
        left_unknown: a.left_unknown,
        right_unknown: a.right_unknown,
    }
}

/// The position of an abstract configuration among `nodes`, if it is
/// there.
fn find_node(nodes: &Vec<AbsCfg>, cfg: &AbsCfg) -> (r: Option<usize>)
    ensures
        r matches Some(i) ==> i < nodes.len() && nodes@[i as int]@ == cfg@,
        r is None ==> forall|j: int| 0 <= j < nodes.len() ==> (#[trigger] nodes@[j])@ != cfg@,
{
    let mut i: usize = 0;
    while i < nodes.len()
        invariant
            i <= nodes.len(),
            forall|j: int| 0 <= j < i ==> (#[trigger] nodes@[j])@ != cfg@,
        decreases nodes.len() - i,
    {
        if same_cfg(&nodes[i], cfg) {
            return Some(i);
        }
        i += 1;
    }
    None
}

/// The views of a list of abstract configurations.
spec fn views(ns: Seq<AbsCfg>) -> Seq<AbsView> {
    ns.map_values(|n: AbsCfg| n@)
}

/// Cropping a window of at most one cell more than `MAX_TAPE` keeps it
/// well formed.
proof fn lemma_crop_wf<const STATES: usize, const COLORS: usize>(a: AbsView)
    requires
        Prog::<STATES, COLORS>::abs_wf(a, MAX_TAPE as int + 1),
    ensures
        Prog::<STATES, COLORS>::abs_wf(crop(a), MAX_TAPE as int),
{
    let b = crop(a);
    if a.2.len() > MAX_TAPE {
        let len = a.2.len() as int;
        let h = a.1 as int;
        let s0 = if h >= 7 { h - 7 } else { 0 };
        let start = if s0 + 15 > len { len - 15 } else { s0 };
        assert(b.2 == a.2.subrange(start, start + 15));
        assert forall|i: int| 0 <= i < b.2.len() implies (#[trigger] b.2[i] as int) <= COLORS by {
            assert(b.2[i] == a.2[start + i]);
        }
    }
}

impl<const STATES: usize, const COLORS: usize> Prog<STATES, COLORS> {
    /// A cropped step from a reached abstract configuration reaches one.
    proof fn lemma_abs_reach_step(&self, a: AbsView, rd: int)
        requires
            self.abs_reach(a),
            self.abs_next(a, rd) is Some,
        ensures
            self.abs_reach(crop(self.abs_next(a, rd)->0)),
    {
        assert forall|set: spec_fn(AbsView) -> bool| #[trigger] self.abs_closed(set) implies set(crop(self.abs_next(a, rd)->0)) by {
            assert(set(a));
        }
    }

    /// The start is reached.
    proof fn lemma_abs_reach_start(&self)
        ensures
            self.abs_reach(abs_start()),
    {
    }

    /// Explores the abstract configurations reached from the blank tape,
    /// breadth first, stopping once `MAX_NODES` are known.
    fn build_abs_graph(&self) -> (nodes: Vec<AbsCfg>)
        requires
            1 <= STATES,
            1 <= COLORS < 256,
            targets_below(self.instr_list(), STATES as int),
            prints_below(self.instr_list(), COLORS as int),
        ensures
            self.abs_explored(views(nodes@)),
    {
        let wild = COLORS as u8;
        let mut nodes: Vec<AbsCfg> = Vec::new();
        nodes.push(AbsCfg::new_blank());
        proof {
            self.lemma_abs_reach_start();
            assert(views(nodes@) =~= seq![abs_start()]);
        }
        let mut u: usize = 0;
        while u < nodes.len() && nodes.len() < MAX_NODES
            invariant
                1 <= STATES,
                1 <= COLORS < 256,
                wild as int == COLORS,
                targets_below(self.instr_list(), STATES as int),
                prints_below(self.instr_list(), COLORS as int),
                1 <= nodes.len() < MAX_NODES + 256,
                u <= nodes.len(),
                u <= MAX_NODES,
                views(nodes@)[0] == abs_start(),
                views(nodes@).no_duplicates(),
                forall|k: int| 0 <= k < nodes.len() ==> self.abs_reach(#[trigger] views(nodes@)[k]),
                forall|k: int| 0 <= k < nodes.len() ==> Self::abs_wf(#[trigger] views(nodes@)[k], MAX_TAPE as int),
                forall|k: int, rd: int| 0 <= k < u && #[trigger] self.abs_next(views(nodes@)[k], rd) is Some
                    ==> views(nodes@).contains(crop(self.abs_next(views(nodes@)[k], rd)->0)),
            decreases MAX_NODES - u,
        {
            let ghost a = views(nodes@)[u as int];
            assert(a == nodes@[u as int]@);
            let succs = self.step_abs(&nodes[u], wild);
            let mut i: usize = 0;
            while i < succs.len()
                invariant
                    1 <= STATES,
                    1 <= COLORS < 256,
                    u < nodes.len(),
                    u < MAX_NODES,
                    nodes.len() < MAX_NODES + i,
                    i <= succs.len() <= 256,
                    a == views(nodes@)[u as int],
                    views(nodes@)[0] == abs_start(),
                    views(nodes@).no_duplicates(),
                    forall|k: int| 0 <= k < nodes.len() ==> self.abs_reach(#[trigger] views(nodes@)[k]),
                    forall|k: int| 0 <= k < nodes.len() ==> Self::abs_wf(#[trigger] views(nodes@)[k], MAX_TAPE as int),
                    forall|k: int, rd: int| 0 <= k < u && #[trigger] self.abs_next(views(nodes@)[k], rd) is Some
                        ==> views(nodes@).contains(crop(self.abs_next(views(nodes@)[k], rd)->0)),
                    forall|j: int| 0 <= j < i ==> views(nodes@).contains(crop(#[trigger] succs@[j]@)),
                    forall|k: int| 0 <= k < succs.len() ==> self.abs_succ(a, #[trigger] succs@[k]@),
                    forall|k: int| 0 <= k < succs.len() ==> Self::abs_wf(#[trigger] succs@[k]@, MAX_TAPE as int + 1),
                decreases succs.len() - i,
            {
                let mut v = copy_cfg(&succs[i]);
                v.normalize();
                let ghost before = views(nodes@);
                proof {
                    lemma_crop_wf::<STATES, COLORS>(succs@[i as int]@);
                }
                match find_node(&nodes, &v) {
                    Some(j) => {
                        assert(before[j as int] == v@);
                    },
                    None => {
                        nodes.push(v);
                        proof {
                            let now = views(nodes@);
                            assert(now =~= before.push(v@));
                            let rd = choose|rd: int| #[trigger] self.abs_next(a, rd) == Some(succs@[i as int]@);
                            self.lemma_abs_reach_step(a, rd);
                            assert forall|x: AbsView| before.contains(x) implies now.contains(x) by {
                                let j = choose|j: int| 0 <= j < before.len() && before[j] == x;
                                assert(now[j] == x);
                            }
                            assert(now[now.len() - 1] == v@);
                            assert forall|p: int, q: int| 0 <= p < now.len() && 0 <= q < now.len() && p != q
                                implies now[p] != now[q] by {
                                if p < before.len() && q < before.len() {
                                } else if p < before.len() {
                                    assert(before[p] != v@);
                                } else if q < before.len() {
                                    assert(before[q] != v@);
                                }
                            }
                            assert forall|k: int| 0 <= k < nodes.len() implies self.abs_reach(#[trigger] now[k]) by {
                                if k < before.len() {
                                    assert(now[k] == before[k]);
                                }
                            }
                            assert forall|k: int| 0 <= k < nodes.len() implies Self::abs_wf(#[trigger] now[k], MAX_TAPE as int) by {
                                if k < before.len() {
                                    assert(now[k] == before[k]);
                                }
                            }
                            assert forall|k: int, rd: int| 0 <= k < u && #[trigger] self.abs_next(now[k], rd) is Some
                                implies now.contains(crop(self.abs_next(now[k], rd)->0)) by {
                                assert(now[k] == before[k]);
                            }
                            assert forall|j: int| 0 <= j <= i implies now.contains(crop(#[trigger] succs@[j]@)) by {
                                if j == i {
                                    assert(now[now.len() - 1] == v@);
                                }
                            }
                        }
                    },
                }
                i += 1;
            }
            proof {
                let ns = views(nodes@);
                assert forall|rd: int| #[trigger] self.abs_next(ns[u as int], rd) is Some
                    implies ns.contains(crop(self.abs_next(ns[u as int], rd)->0)) by {
                    let k = choose|k: int| 0 <= k < succs.len() && succs@[k]@ == self.abs_next(a, rd)->0;
                    assert(ns.contains(crop(succs@[k]@)));
                }
            }
            u += 1;
        }
        nodes
    }
}

impl<const STATES: usize, const COLORS: usize> Prog<STATES, COLORS> {
    /// An exploration that stopped short of `MAX_NODES` found exactly the
    /// reached abstract configurations; one that did not shows that there
    /// are at least that many.
    proof fn lemma_explored_exact(&self, ns: Seq<AbsView>)
        requires
            self.abs_explored(ns),
        ensures
            self.abs_small() <==> ns.len() < MAX_NODES,
            ns.len() < MAX_NODES ==> forall|a: AbsView| self.abs_reach(a) <==> ns.contains(a),
    {
        let all = self.abs_reach_set();
        assert(ns.to_set().subset_of(all)) by {
            assert forall|a: AbsView| ns.to_set().contains(a) implies all.contains(a) by {
                let k = choose|k: int| 0 <= k < ns.len() && ns[k] == a;
                assert(self.abs_reach(ns[k]));
            }
        }
        ns.unique_seq_to_set();
        if ns.len() < MAX_NODES {
            let inn = |a: AbsView| ns.contains(a);
            assert(self.abs_closed(inn)) by {
                assert(ns[0] == abs_start());
            }
            assert forall|a: AbsView| self.abs_reach(a) <==> ns.contains(a) by {
                if self.abs_reach(a) {
                    assert(inn(a));
                }
                if ns.contains(a) {
                    let k = choose|k: int| 0 <= k < ns.len() && ns[k] == a;
                    assert(self.abs_reach(ns[k]));
                }
            }
            assert(all =~= ns.to_set());
            vstd::seq_lib::seq_to_set_is_finite(ns);
        } else if all.finite() {
            vstd::set_lib::lemma_len_subset(ns.to_set(), all);
        }
    }
}

impl<const STATES: usize, const COLORS: usize> Prog<STATES, COLORS> {
    /// Whether the scanned cell of `a` may hold color `co`.
    pub open spec fn abs_scans(a: AbsView, co: int) -> bool {
        &&& (a.1 as int) < a.2.len()
        &&& (a.2[a.1 as int] as int == COLORS || a.2[a.1 as int] as int == co)
    }

    /// Whether some cell of `a`'s window is known to be nonblank.
    pub open spec fn abs_marked(a: AbsView) -> bool {
        exists|i: int| 0 <= i < a.2.len() && (#[trigger] a.2[i]) != 0 && a.2[i] as int != COLORS
    }

    /// Whether state `st` stays in itself on a blank cell.
    pub open spec fn zr_state(&self, st: State) -> bool {
        exists|sh: bool| Self::in_range(st as int, 0) && #[trigger] enters_with(self.instr_at(st as int, 0), st, sh)
    }

    /// There are no halt slots, or the abstraction reaches none of them.
    pub open spec fn graph_halt_free(&self) -> bool {
        ||| forall|sl: Slot| !self.is_halt_slot(sl)
        ||| self.abs_small() && forall|a: AbsView, sl: Slot| #![trigger self.abs_reach(a), self.is_halt_slot(sl)]
                self.abs_reach(a) && self.is_halt_slot(sl) ==> !(a.0 == sl.0 && Self::abs_scans(a, sl.1 as int))
    }

    /// No instruction erases a nonblank cell and the first step prints a
    /// nonblank color.
    pub open spec fn graph_blank_free_fast(&self) -> bool {
        &&& forall|sl: Slot| !self.is_erase_slot(sl)
        &&& self.instr_at(0, 0) matches Some(i) && i.0 != 0
    }

    /// The abstraction reaches no configuration but the start that may be
    /// all blank.
    pub open spec fn graph_blank_free_abs(&self) -> bool {
        self.abs_small() && forall|a: AbsView| #[trigger] self.abs_reach(a) && a != abs_start() ==> Self::abs_marked(a)
    }

    /// No state stays in itself on a blank cell, or the abstraction never
    /// scans a cell that may be blank in such a state.
    pub open spec fn graph_spin_free(&self) -> bool {
        ||| forall|st: State| !self.zr_state(st)
        ||| self.abs_small() && forall|a: AbsView, st: State| #![trigger self.abs_reach(a), self.zr_state(st)]
                self.abs_reach(a) && self.zr_state(st) ==> !(a.0 == st && Self::abs_scans(a, 0))
    }
}

impl<const STATES: usize, const COLORS: usize> Prog<STATES, COLORS> {
    /// Whether some abstract configuration among `nodes` is in state `st`
    /// with a scanned cell that may hold `co`.
    fn scans_somewhere(nodes: &Vec<AbsCfg>, st: State, co: u8, wild: u8) -> (r: bool)
        requires
            wild as int == COLORS,
            forall|k: int| 0 <= k < nodes.len() ==> Self::abs_wf(#[trigger] views(nodes@)[k], MAX_TAPE as int),
        ensures
            r == exists|k: int| 0 <= k < nodes.len() && (#[trigger] views(nodes@)[k]).0 == st
                && Self::abs_scans(views(nodes@)[k], co as int),
    {
        let mut k: usize = 0;
        while k < nodes.len()
            invariant
                k <= nodes.len(),
                wild as int == COLORS,
                forall|j: int| 0 <= j < nodes.len() ==> Self::abs_wf(#[trigger] views(nodes@)[j], MAX_TAPE as int),
                forall|j: int| 0 <= j < k ==> !((#[trigger] views(nodes@)[j]).0 == st
                    && Self::abs_scans(views(nodes@)[j], co as int)),
            decreases nodes.len() - k,
        {
            let cfg = &nodes[k];
            assert(views(nodes@)[k as int] == cfg@);
            if cfg.state == st {
                let cell = cfg.tape[cfg.head as usize];
                if cell == co || cell == wild {
                    return true;
                }
            }
            k += 1;
        }
        false
    }

    /// Whether the machine provably never halts: there are no halt slots,
    /// or the abstraction of its runs from the blank tape completes and
    /// reaches none of them.
    pub fn graph_cant_halt(&self) -> (r: bool)
        requires
            1 <= STATES,
            1 <= COLORS < 256,
            targets_below(self.instr_list(), STATES as int),
            prints_below(self.instr_list(), COLORS as int),
            Self::in_range(max_reached_of(self.instr_list()).0 as int, max_reached_of(self.instr_list()).1 as int),
        ensures
            r == self.graph_halt_free(),
    {
        let halt_set = self.halt_slots();
        let halts = slot_vec(&halt_set);
        if halts.len() == 0 {
            proof {
                assert forall|sl: Slot| !self.is_halt_slot(sl) by {
                    if self.is_halt_slot(sl) {
                        assert(halt_set@.contains(sl));
                        assert(halts@.to_set().contains(sl));
                    }
                }
            }
            return true;
        }
        proof {
            assert(halts@.to_set().contains(halts@[0]));
            assert(self.is_halt_slot(halts@[0]));
        }
        let nodes = self.build_abs_graph();
        proof {
            self.lemma_explored_exact(views(nodes@));
        }
        if nodes.len() >= MAX_NODES {
            return false;
        }
        let wild = COLORS as u8;
        let mut i: usize = 0;
        while i < halts.len()
            invariant
                i <= halts.len(),
                wild as int == COLORS,
                nodes.len() < MAX_NODES,
                self.abs_explored(views(nodes@)),
                forall|a: AbsView| self.abs_reach(a) <==> views(nodes@).contains(a),
                halts@.to_set() == halt_set@,
                halt_set@ == Set::new(|sl: Slot| self.is_halt_slot(sl)),
                forall|j: int, a: AbsView| 0 <= j < i && #[trigger] self.abs_reach(a)
                    ==> !(a.0 == (#[trigger] halts@[j]).0 && Self::abs_scans(a, halts@[j].1 as int)),
            decreases halts.len() - i,
        {
            let (st, co) = halts[i];
            if Self::scans_somewhere(&nodes, st, co, wild) {
                proof {
                    assert(halts@.to_set().contains(halts@[i as int]));
                    assert(self.is_halt_slot(halts@[i as int]));
                    let k = choose|k: int| 0 <= k < nodes.len() && (#[trigger] views(nodes@)[k]).0 == st
                        && Self::abs_scans(views(nodes@)[k], co as int);
                    assert(self.abs_reach(views(nodes@)[k]));
                }
                return false;
            }
            proof {
                assert forall|j: int, a: AbsView| 0 <= j < i + 1 && #[trigger] self.abs_reach(a)
                    implies !(a.0 == (#[trigger] halts@[j]).0 && Self::abs_scans(a, halts@[j].1 as int)) by {
                    if j == i {
                        if a.0 == st && Self::abs_scans(a, co as int) {
                            let k = choose|k: int| 0 <= k < views(nodes@).len() && views(nodes@)[k] == a;
                            assert(views(nodes@)[k].0 == st);
                        }
                    }
                }
            }
            i += 1;
        }
        proof {
            assert forall|a: AbsView, sl: Slot| #![trigger self.abs_reach(a), self.is_halt_slot(sl)]
                self.abs_reach(a) && self.is_halt_slot(sl) implies !(a.0 == sl.0 && Self::abs_scans(a, sl.1 as int)) by {
                assert(halt_set@.contains(sl));
                assert(halts@.to_set().contains(sl));
                let j = choose|j: int| 0 <= j < halts.len() && halts@[j] == sl;
                assert(halts@[j] == sl);
            }
        }
        true
    }
}

impl<const STATES: usize, const COLORS: usize> Prog<STATES, COLORS> {
    /// Whether some cell of the window is neither blank nor unknown.
    fn marked(cfg: &AbsCfg, wild: u8) -> (r: bool)
        requires
            wild as int == COLORS,
        ensures
            r == Self::abs_marked(cfg@),
    {
        let mut i: usize = 0;
        while i < cfg.tape.len()
            invariant
                i <= cfg.tape.len(),
                wild as int == COLORS,
                forall|j: int| 0 <= j < i ==> !((#[trigger] cfg@.2[j]) != 0 && cfg@.2[j] as int != COLORS),
            decreases cfg.tape.len() - i,
        {
            let x = cfg.tape[i];
            if x != 0 && x != wild {
                assert(cfg@.2[i as int] == x);
                return true;
            }
            i += 1;
        }
        false
    }

    /// Whether the machine provably never erases its tape: no instruction
    /// erases and the first step prints, or the abstraction of its runs
    /// from the blank tape completes and reaches no window, past the start,
    /// that may be all blank.
    pub fn graph_cant_blank(&self) -> (r: bool)
        requires
            1 <= STATES,
            1 <= COLORS < 256,
            targets_below(self.instr_list(), STATES as int),
            prints_below(self.instr_list(), COLORS as int),
        ensures
            r == (self.graph_blank_free_fast() || self.graph_blank_free_abs()),
    {
        self.graph_cant_blank_fast() || self.graph_cant_blank_abs()
    }

    fn graph_cant_blank_fast(&self) -> (r: bool)
        requires
            1 <= STATES,
            1 <= COLORS,
        ensures
            r == self.graph_blank_free_fast(),
    {
        let erase = self.erase_slots();
        if !erase.is_empty() {
            proof {
                let sl = erase@.choose();
                assert(erase@.contains(sl));
            }
            return false;
        }
        proof {
            assert forall|sl: Slot| !self.is_erase_slot(sl) by {
                if self.is_erase_slot(sl) {
                    assert(erase@.contains(sl));
                }
            }
        }
        match self.get(&(0, 0)) {
            None => false,
            Some(ins) => ins.0 != 0,
        }
    }

    fn graph_cant_blank_abs(&self) -> (r: bool)
        requires
            1 <= STATES,
            1 <= COLORS < 256,
            targets_below(self.instr_list(), STATES as int),
            prints_below(self.instr_list(), COLORS as int),
        ensures
            r == self.graph_blank_free_abs(),
    {
        let wild = COLORS as u8;
        let nodes = self.build_abs_graph();
        proof {
            self.lemma_explored_exact(views(nodes@));
        }
        if nodes.len() >= MAX_NODES {
            return false;
        }
        let ghost ns = views(nodes@);
        let mut k: usize = 1;
        while k < nodes.len()
            invariant
                1 <= k <= nodes.len() < MAX_NODES,
                wild as int == COLORS,
                ns == views(nodes@),
                self.abs_explored(ns),
                forall|a: AbsView| self.abs_reach(a) <==> ns.contains(a),
                forall|j: int| 1 <= j < k ==> Self::abs_marked(#[trigger] ns[j]),
            decreases nodes.len() - k,
        {
            assert(ns[k as int] == nodes@[k as int]@);
            if !Self::marked(&nodes[k], wild) {
                proof {
                    assert(self.abs_reach(ns[k as int]));
                    assert(ns[k as int] != ns[0]);
                }
                return false;
            }
            k += 1;
        }
        proof {
            assert forall|a: AbsView| #[trigger] self.abs_reach(a) && a != abs_start() implies Self::abs_marked(a) by {
                assert(ns.contains(a));
                let j = choose|j: int| 0 <= j < ns.len() && ns[j] == a;
                assert(ns[0] == abs_start());
                assert(j != 0);
                assert(Self::abs_marked(ns[j]));
            }
        }
        true
    }

    /// Whether the machine provably never spins out: no state stays in
    /// itself on a blank cell, or the abstraction of its runs from the
    /// blank tape completes and never scans a cell that may be blank in
    /// such a state.
    pub fn graph_cant_spinout(&self) -> (r: bool)
        requires
            1 <= STATES,
            1 <= COLORS < 256,
            targets_below(self.instr_list(), STATES as int),
            prints_below(self.instr_list(), COLORS as int),
        ensures
            r == self.graph_spin_free(),
    {
        let spin_triggers = self.zr_shifts();
        if spin_triggers.len() == 0 {
            proof {
                assert forall|st: State| !self.zr_state(st) by {
                    if self.zr_state(st) {
                        let sh = choose|sh: bool| Self::in_range(st as int, 0) && #[trigger] enters_with(self.instr_at(st as int, 0), st, sh);
                        assert(spin_triggers@.contains((st, sh)));
                    }
                }
            }
            return true;
        }
        proof {
            let x = spin_triggers@[0];
            assert(spin_triggers@.contains(x));
            assert(self.zr_state(x.0));
        }
        let wild = COLORS as u8;
        let nodes = self.build_abs_graph();
        proof {
            self.lemma_explored_exact(views(nodes@));
        }
        if nodes.len() >= MAX_NODES {
            return false;
        }
        let mut i: usize = 0;
        while i < spin_triggers.len()
            invariant
                i <= spin_triggers.len(),
                wild as int == COLORS,
                nodes.len() < MAX_NODES,
                self.abs_explored(views(nodes@)),
                forall|a: AbsView| self.abs_reach(a) <==> views(nodes@).contains(a),
                forall|x: (State, bool)| spin_triggers@.contains(x) <==> Self::in_range(x.0 as int, 0)
                    && enters_with(self.instr_at(x.0 as int, 0), x.0, x.1),
                forall|j: int, a: AbsView| 0 <= j < i && #[trigger] self.abs_reach(a)
                    ==> !(a.0 == (#[trigger] spin_triggers@[j]).0 && Self::abs_scans(a, 0)),
            decreases spin_triggers.len() - i,
        {
            let (st, _dir) = spin_triggers[i];
            if Self::scans_somewhere(&nodes, st, 0, wild) {
                proof {
                    let x = spin_triggers@[i as int];
                    assert(spin_triggers@.contains(x));
                    assert(self.zr_state(x.0));
                    let k = choose|k: int| 0 <= k < nodes.len() && (#[trigger] views(nodes@)[k]).0 == st
                        && Self::abs_scans(views(nodes@)[k], 0);
                    assert(self.abs_reach(views(nodes@)[k]));
                }
                return false;
            }
            proof {
                assert forall|j: int, a: AbsView| 0 <= j < i + 1 && #[trigger] self.abs_reach(a)
                    implies !(a.0 == (#[trigger] spin_triggers@[j]).0 && Self::abs_scans(a, 0)) by {
                    if j == i {
                        if a.0 == st && Self::abs_scans(a, 0) {
                            let k = choose|k: int| 0 <= k < views(nodes@).len() && views(nodes@)[k] == a;
                            assert(views(nodes@)[k].0 == st);
                        }
                    }
                }
            }
            i += 1;
        }
        proof {
            assert forall|a: AbsView, st: State| #![trigger self.abs_reach(a), self.zr_state(st)]
                self.abs_reach(a) && self.zr_state(st) implies !(a.0 == st && Self::abs_scans(a, 0)) by {
                let sh = choose|sh: bool| Self::in_range(st as int, 0) && #[trigger] enters_with(self.instr_at(st as int, 0), st, sh);
                assert(spin_triggers@.contains((st, sh)));
                let j = choose|j: int| 0 <= j < spin_triggers.len() && spin_triggers@[j] == (st, sh);
                assert(spin_triggers@[j] == (st, sh));
            }
        }
        true
    }
}

/// The color of the cell `p` places right of the head (left for negative
/// `p`) in a configuration.
pub open spec fn cell_at(c: Conf, p: int) -> Color {
    if p == 0 {
        c.2
    } else if p < 0 {
        if -p <= c.1.len() { c.1[c.1.len() + p] } else { 0 }
    } else {
        if p <= c.3.len() { c.3[c.3.len() - p] } else { 0 }
    }
}

/// The cells of a configuration once its scanned cell holds `w`.
pub open spec fn written(c: Conf, w: Color, q: int) -> Color {
    if q == 0 { w } else { cell_at(c, q) }
}

impl<const STATES: usize, const COLORS: usize> Prog<STATES, COLORS> {
    /// Whether abstract configuration `a` describes configuration `c`: same
    /// state, each known window cell holds the color of the cell at that
    /// place, and beyond an end of the window not marked unknown all cells
    /// are blank.
    pub open spec fn describes(a: AbsView, c: Conf) -> bool {
        &&& a.0 == c.0
        &&& (a.1 as int) < a.2.len()
        &&& forall|i: int| 0 <= i < a.2.len() ==> (#[trigger] a.2[i] as int == COLORS || a.2[i] == cell_at(c, i - a.1))
        &&& !a.3 ==> forall|p: int| p < -(a.1 as int) ==> #[trigger] cell_at(c, p) == 0
        &&& !a.4 ==> forall|p: int| p >= a.2.len() - a.1 ==> #[trigger] cell_at(c, p) == 0
    }
}

/// A step writes the scanned cell and moves the head: the cells after it
/// are those before it, shifted by one place.
proof fn lemma_step_cells<const STATES: usize, const COLORS: usize>(prog: Prog<STATES, COLORS>, c: Conf, d: Conf)
    requires
        prog.conf_step(c, d),
    ensures
        ({
            let i = prog.instr_at(c.0 as int, c.2 as int)->0;
            &&& d.0 == i.2
            &&& forall|q: int| #[trigger] cell_at(d, q) == written(c, i.0, if i.1 { q + 1 } else { q - 1 })
        }),
{
    let i = prog.instr_at(c.0 as int, c.2 as int)->0;
    let (print, shift, next) = i;
    assert forall|q: int| #[trigger] cell_at(d, q) == written(c, print, if shift { q + 1 } else { q - 1 }) by {
        if shift {
            assert(d == (next, c.1.push(print), nb(c.3), rest(c.3)));
            if q < -1 && -q <= c.1.len() + 1 {
                assert(d.1[d.1.len() + q] == c.1[c.1.len() + q + 1]);
            }
            if q > 0 && c.3.len() > 0 && q <= c.3.len() - 1 {
                assert(d.3[d.3.len() - q] == c.3[c.3.len() - (q + 1)]);
            }
        } else {
            assert(d == (next, rest(c.1), nb(c.1), c.3.push(print)));
            if q > 1 && q <= c.3.len() + 1 {
                assert(d.3[d.3.len() - q] == c.3[c.3.len() - (q - 1)]);
            }
            if q < 0 && c.1.len() > 0 && -q <= c.1.len() - 1 {
                assert(d.1[d.1.len() + q] == c.1[c.1.len() + (q - 1)]);
            }
        }
    }
}

impl<const STATES: usize, const COLORS: usize> Prog<STATES, COLORS> {
    /// An abstract step from a described configuration is defined and
    /// describes the configuration that the program steps to.
    proof fn lemma_describes_next(&self, a: AbsView, c: Conf, d: Conf)
        requires
            Self::describes(a, c),
            a.2.len() < 256,
            COLORS < 256,
            self.conf_step(c, d),
        ensures
            self.abs_next(a, c.2 as int) is Some,
            Self::describes(self.abs_next(a, c.2 as int)->0, d),
    {
        let (st, h, t, lu, ru) = a;
        let i = self.instr_at(c.0 as int, c.2 as int)->0;
        let (print, shift, next) = i;
        lemma_step_cells(*self, c, d);
        assert(t[h as int] as int == COLORS || t[h as int] == cell_at(c, 0));
        let n = self.abs_next(a, c.2 as int)->0;
        let t2 = t.update(h as int, print);
        let hh = h as int;
        if shift {
            assert forall|k: int| 0 <= k < n.2.len() implies (#[trigger] n.2[k] as int == COLORS || n.2[k] == cell_at(d, k - n.1)) by {
                assert(cell_at(d, k - n.1) == written(c, print, k - n.1 + 1));
                if k < t.len() {
                    assert(n.2[k] == t2[k]);
                    if k != hh {
                        assert(t[k] as int == COLORS || t[k] == cell_at(c, k - hh));
                    }
                } else {
                    assert(!ru ==> cell_at(c, k - hh) == 0);
                }
            }
            assert(!n.3 ==> forall|p: int| p < -(n.1 as int) ==> #[trigger] cell_at(d, p) == 0) by {
                assert forall|p: int| !n.3 && p < -(n.1 as int) implies #[trigger] cell_at(d, p) == 0 by {
                    assert(cell_at(d, p) == written(c, print, p + 1));
                    assert(cell_at(c, p + 1) == 0);
                }
            }
            assert(!n.4 ==> forall|p: int| p >= n.2.len() - n.1 ==> #[trigger] cell_at(d, p) == 0) by {
                assert forall|p: int| !n.4 && p >= n.2.len() - n.1 implies #[trigger] cell_at(d, p) == 0 by {
                    assert(cell_at(d, p) == written(c, print, p + 1));
                    assert(cell_at(c, p + 1) == 0);
                }
            }
        } else if h == 0 {
            assert forall|k: int| 0 <= k < n.2.len() implies (#[trigger] n.2[k] as int == COLORS || n.2[k] == cell_at(d, k - n.1)) by {
                assert(cell_at(d, k) == written(c, print, k - 1));
                if k == 0 {
                    assert(!lu ==> cell_at(c, -1) == 0);
                } else {
                    assert(n.2[k] == t2[k - 1]);
                    if k - 1 != hh {
                        assert(t[k - 1] as int == COLORS || t[k - 1] == cell_at(c, k - 1 - hh));
                    }
                }
            }
            assert(!n.3 ==> forall|p: int| p < -(n.1 as int) ==> #[trigger] cell_at(d, p) == 0) by {
                assert forall|p: int| !n.3 && p < -(n.1 as int) implies #[trigger] cell_at(d, p) == 0 by {
                    assert(cell_at(d, p) == written(c, print, p - 1));
                    assert(cell_at(c, p - 1) == 0);
                }
            }
            assert(!n.4 ==> forall|p: int| p >= n.2.len() - n.1 ==> #[trigger] cell_at(d, p) == 0) by {
                assert forall|p: int| !n.4 && p >= n.2.len() - n.1 implies #[trigger] cell_at(d, p) == 0 by {
                    assert(cell_at(d, p) == written(c, print, p - 1));
                    assert(cell_at(c, p - 1) == 0);
                }
            }
        } else {
            assert forall|k: int| 0 <= k < n.2.len() implies (#[trigger] n.2[k] as int == COLORS || n.2[k] == cell_at(d, k - n.1)) by {
                assert(cell_at(d, k - n.1) == written(c, print, k - n.1 - 1));
                assert(n.2[k] == t2[k]);
                if k != hh {
                    assert(t[k] as int == COLORS || t[k] == cell_at(c, k - hh));
                }
            }
            assert(!n.3 ==> forall|p: int| p < -(n.1 as int) ==> #[trigger] cell_at(d, p) == 0) by {
                assert forall|p: int| !n.3 && p < -(n.1 as int) implies #[trigger] cell_at(d, p) == 0 by {
                    assert(cell_at(d, p) == written(c, print, p - 1));
                    assert(cell_at(c, p - 1) == 0);
                }
            }
            assert(!n.4 ==> forall|p: int| p >= n.2.len() - n.1 ==> #[trigger] cell_at(d, p) == 0) by {
                assert forall|p: int| !n.4 && p >= n.2.len() - n.1 implies #[trigger] cell_at(d, p) == 0 by {
                    assert(cell_at(d, p) == written(c, print, p - 1));
                    assert(cell_at(c, p - 1) == 0);
                }
            }
        }
    }

    /// Cropping keeps a description.
    proof fn lemma_describes_crop(a: AbsView, c: Conf)
        requires
            Self::describes(a, c),
            (a.1 as int) < 256,
        ensures
            Self::describes(crop(a), c),
    {
        let (st, h, t, lu, ru) = a;
        let len = t.len() as int;
        if len > MAX_TAPE as int {
            let hh = h as int;
            let s0 = if hh >= 7 { hh - 7 } else { 0 };
            let start = if s0 + 15 > len { len - 15 } else { s0 };
            let b = crop(a);
            assert(b.2 == t.subrange(start, start + 15));
            assert(b.1 as int == hh - start);
            assert forall|k: int| 0 <= k < b.2.len() implies (#[trigger] b.2[k] as int == COLORS || b.2[k] == cell_at(c, k - b.1)) by {
                assert(b.2[k] == t[start + k]);
                assert(t[start + k] as int == COLORS || t[start + k] == cell_at(c, start + k - hh));
            }
        }
    }
}

/// A side with a nonblank cell has a nonblank count above zero.
proof fn lemma_nonblank_pos(s: Seq<Color>, j: int)
    requires
        0 <= j < s.len(),
        s[j] != 0,
    ensures
        nonblank(s) > 0,
    decreases s.len(),
{
    if j < s.len() - 1 {
        assert(s.drop_last()[j] == s[j]);
        lemma_nonblank_pos(s.drop_last(), j);
    }
}

/// A configuration with a nonblank cell has a nonblank count above zero.
proof fn lemma_cell_nonblank(c: Conf, p: int)
    requires
        cell_at(c, p) != 0,
    ensures
        conf_nonblank(c) > 0,
{
    if p < 0 {
        lemma_nonblank_pos(c.1, c.1.len() + p);
    } else if p > 0 {
        lemma_nonblank_pos(c.3, c.3.len() - p);
    }
}

/// The nonblank count of a side with a cell pushed next to the head, and
/// with the cell next to the head taken off.
proof fn lemma_nonblank_sides(s: Seq<Color>, x: Color)
    ensures
        nonblank(s.push(x)) == nonblank(s) + nz(x),
        nonblank(s) == nonblank(rest(s)) + nz(nb(s)),
{
    assert(s.push(x).drop_last() =~= s);
}

impl<const STATES: usize, const COLORS: usize> Prog<STATES, COLORS> {
    /// A step changes the nonblank count by what it prints over what it
    /// scanned.
    proof fn lemma_step_nonblank(&self, c: Conf, d: Conf)
        requires
            self.conf_step(c, d),
        ensures
            conf_nonblank(d) == conf_nonblank(c) - nz(c.2) + nz((self.instr_at(c.0 as int, c.2 as int)->0).0),
    {
        let print = (self.instr_at(c.0 as int, c.2 as int)->0).0;
        lemma_nonblank_sides(c.1, print);
        lemma_nonblank_sides(c.3, print);
    }

    /// A defined abstract step from a well-formed abstract configuration
    /// stays in the table and widens the window by at most one cell, to at
    /// least two cells.
    proof fn lemma_abs_next_wf(&self, a: AbsView, rd: int)
        requires
            self.inv(),
            COLORS < 256,
            targets_below(self.instr_list(), STATES as int),
            prints_below(self.instr_list(), COLORS as int),
            Self::abs_wf(a, MAX_TAPE as int),
            self.abs_next(a, rd) is Some,
        ensures
            Self::abs_wf(self.abs_next(a, rd)->0, MAX_TAPE as int + 1),
            (self.abs_next(a, rd)->0).2.len() >= 2,
    {
        self.lemma_instr_bounds(a.0 as int, rd);
        let i = self.instr_at(a.0 as int, rd)->0;
        let n = self.abs_next(a, rd)->0;
        let t2 = a.2.update(a.1 as int, i.0);
        assert forall|k: int| 0 <= k < n.2.len() implies (#[trigger] n.2[k] as int) <= COLORS by {
            if i.1 {
                if k < t2.len() {
                    assert(n.2[k] == t2[k]);
                }
            } else if a.1 == 0 {
                if k > 0 {
                    assert(n.2[k] == t2[k - 1]);
                }
            } else {
                assert(n.2[k] == t2[k]);
            }
        }
    }

    /// Every reached abstract configuration is well formed, and all but the
    /// start have windows of at least two cells.
    proof fn lemma_abs_reach_wf(&self, a: AbsView)
        requires
            self.inv(),
            1 <= STATES,
            COLORS < 256,
            targets_below(self.instr_list(), STATES as int),
            prints_below(self.instr_list(), COLORS as int),
            self.abs_reach(a),
        ensures
            Self::abs_wf(a, MAX_TAPE as int),
            a == abs_start() || a.2.len() >= 2,
    {
        let ok = |x: AbsView| Self::abs_wf(x, MAX_TAPE as int) && (x == abs_start() || x.2.len() >= 2);
        assert(self.abs_closed(ok)) by {
            assert forall|x: AbsView, rd: int| #![trigger ok(x), self.abs_next(x, rd)]
                ok(x) && self.abs_next(x, rd) is Some implies ok(crop(self.abs_next(x, rd)->0)) by {
                self.lemma_abs_next_wf(x, rd);
                lemma_crop_wf::<STATES, COLORS>(self.abs_next(x, rd)->0);
            }
        }
        assert(ok(a));
    }

    /// Every configuration on the run from the blank tape is described by
    /// a reached abstract configuration, one with a window of at least two
    /// cells unless the configuration is the blank start.
    proof fn lemma_run_described(&self, c: Conf)
        requires
            self.inv(),
            1 <= STATES,
            COLORS < 256,
            targets_below(self.instr_list(), STATES as int),
            prints_below(self.instr_list(), COLORS as int),
            self.conf_reach(c),
        ensures
            exists|a: AbsView| #[trigger] self.abs_reach(a) && Self::describes(a, c)
                && (c == blank_conf() || a.2.len() >= 2),
    {
        let ok = |x: Conf| exists|a: AbsView| #[trigger] self.abs_reach(a) && Self::describes(a, x)
            && (x == blank_conf() || a.2.len() >= 2);
        assert(self.conf_closed(ok)) by {
            self.lemma_abs_reach_start();
            assert(Self::describes(abs_start(), blank_conf()));
            assert forall|x: Conf, d: Conf| #![trigger ok(x), self.conf_step(x, d)]
                ok(x) && self.conf_step(x, d) implies ok(d) by {
                let a = choose|a: AbsView| #[trigger] self.abs_reach(a) && Self::describes(a, x)
                    && (x == blank_conf() || a.2.len() >= 2);
                self.lemma_abs_reach_wf(a);
                self.lemma_describes_next(a, x, d);
                let n = self.abs_next(a, x.2 as int)->0;
                self.lemma_abs_next_wf(a, x.2 as int);
                Self::lemma_describes_crop(n, d);
                self.lemma_abs_reach_step(a, x.2 as int);
                let b = crop(n);
                assert(self.abs_reach(b) && Self::describes(b, d) && b.2.len() >= 2);
            }
        }
        assert(ok(c));
    }

    /// A machine whose halt slots the abstraction of its runs never reaches
    /// (as `graph_cant_halt` reports) never scans a halt slot on its run
    /// from the blank tape.
    pub proof fn lemma_graph_cant_halt_sound(&self, c: Conf)
        requires
            self.inv(),
            1 <= STATES,
            1 <= COLORS < 256,
            targets_below(self.instr_list(), STATES as int),
            prints_below(self.instr_list(), COLORS as int),
            self.graph_halt_free(),
            self.conf_reach(c),
        ensures
            !self.is_halt_slot((c.0, c.2)),
    {
        if !(forall|sl: Slot| !self.is_halt_slot(sl)) {
            self.lemma_run_described(c);
            let a = choose|a: AbsView| #[trigger] self.abs_reach(a) && Self::describes(a, c)
                && (c == blank_conf() || a.2.len() >= 2);
            assert(a.2[a.1 as int] as int == COLORS || a.2[a.1 as int] == cell_at(c, 0));
            assert(Self::abs_scans(a, c.2 as int));
        }
    }

    /// A configuration on the run from the blank tape that reads a nonblank
    /// color was entered by one move and reads a cell last left by the
    /// other: two instructions that enter its state or print its color
    /// move different ways. Its state and color are within those that the
    /// table reaches.
    proof fn lemma_run_halt_shape(&self, c: Conf)
        requires
            self.inv(),
            1 <= STATES,
            1 <= COLORS,
            targets_below(self.instr_list(), STATES as int),
            prints_below(self.instr_list(), COLORS as int),
            self.conf_reach(c),
        ensures
            c.2 == 0 || crate::prog::both_sides(self.instr_list(), c.0, c.2),
            c.0 <= max_reached_of(self.instr_list()).0,
            c.2 <= max_reached_of(self.instr_list()).1,
    {
        let es = self.entries();
        let is = self.instr_list();
        let mx = max_reached_of(is);
        crate::bkw::lemma_entries_instrs(*self);
        lemma_max_reached_bounds(is);
        let ok = |x: Conf| self.conf_reach(x) && (x.2 == 0 || crate::prog::both_sides(is, x.0, x.2))
            && x.0 <= mx.0 && x.2 <= mx.1;
        assert(self.conf_closed(ok)) by {
            assert(self.conf_reach(blank_conf())) by {
                assert forall|set: spec_fn(Conf) -> bool| #[trigger] self.conf_closed(set) implies set(blank_conf()) by {}
            }
            assert forall|x: Conf, d: Conf| #![trigger ok(x), self.conf_step(x, d)] ok(x) && self.conf_step(x, d) implies ok(d) by {
                self.lemma_reach_step(x, d);
                self.lemma_run_sides(x);
                let j = self.lemma_step_entry(x, d);
                assert(es[j].1 == is[j]);
                let (print, shift, next) = is[j];
                assert(d.0 == next);
                if d.2 != 0 {
                    let side = if shift { x.3 } else { x.1 };
                    assert(d.2 == nb(side));
                    assert(side.len() > 0);
                    assert(side[side.len() - 1] == nb(side));
                    let k = choose|k: int| 0 <= k < es.len() && (#[trigger] es[k]).1.0 == d.2 && es[k].1.1 == !shift;
                    assert(es[k].1 == is[k]);
                    assert(crate::prog::side_relevant(is[j], d.0, d.2));
                    assert(crate::prog::side_relevant(is[k], d.0, d.2));
                    assert(is[k].0 <= mx.1);
                }
            }
        }
        assert(ok(c));
    }

    /// A machine for which `graph_cant_halt` holds never halts: every
    /// configuration on its run from the blank tape reads a slot whose
    /// instruction is defined.
    pub proof fn lemma_graph_cant_halt_never_halts(&self, c: Conf)
        requires
            self.inv(),
            1 <= STATES,
            1 <= COLORS < 256,
            targets_below(self.instr_list(), STATES as int),
            prints_below(self.instr_list(), COLORS as int),
            self.graph_halt_free(),
            self.conf_reach(c),
        ensures
            self.instr_at(c.0 as int, c.2 as int) is Some,
    {
        self.lemma_graph_cant_halt_sound(c);
        if self.instr_at(c.0 as int, c.2 as int) is None {
            self.lemma_run_halt_shape(c);
            assert(self.is_halt_slot((c.0, c.2)));
        }
    }

    /// A machine for which `graph_cant_spinout` holds never scans a blank
    /// cell in a state that stays in itself on a blank cell, on its run
    /// from the blank tape.
    pub proof fn lemma_graph_cant_spinout_sound(&self, c: Conf)
        requires
            self.inv(),
            1 <= STATES,
            1 <= COLORS < 256,
            targets_below(self.instr_list(), STATES as int),
            prints_below(self.instr_list(), COLORS as int),
            self.graph_spin_free(),
            self.conf_reach(c),
        ensures
            !(c.2 == 0 && self.zr_state(c.0)),
    {
        if !(forall|st: State| !self.zr_state(st)) {
            self.lemma_run_described(c);
            let a = choose|a: AbsView| #[trigger] self.abs_reach(a) && Self::describes(a, c)
                && (c == blank_conf() || a.2.len() >= 2);
            assert(a.2[a.1 as int] as int == COLORS || a.2[a.1 as int] == cell_at(c, 0));
            if c.2 == 0 && self.zr_state(c.0) {
                assert(Self::abs_scans(a, 0));
            }
        }
    }

    /// A machine for which `graph_cant_blank` holds has a nonblank cell at
    /// every configuration of its run from the blank tape but the start.
    pub proof fn lemma_graph_cant_blank_sound(&self, c: Conf)
        requires
            self.inv(),
            1 <= STATES,
            1 <= COLORS < 256,
            targets_below(self.instr_list(), STATES as int),
            prints_below(self.instr_list(), COLORS as int),
            self.graph_blank_free_fast() || self.graph_blank_free_abs(),
            self.conf_reach(c),
            c != blank_conf(),
        ensures
            conf_nonblank(c) > 0,
    {
        if self.graph_blank_free_fast() {
            let ok = |x: Conf| x == blank_conf() || conf_nonblank(x) >= 1;
            assert(self.conf_closed(ok)) by {
                assert forall|x: Conf, d: Conf| #![trigger ok(x), self.conf_step(x, d)]
                    ok(x) && self.conf_step(x, d) implies ok(d) by {
                    self.lemma_step_nonblank(x, d);
                    let i = self.instr_at(x.0 as int, x.2 as int)->0;
                    if x == blank_conf() {
                        assert(conf_nonblank(x) == 0);
                    } else if x.2 != 0 {
                        assert(!self.is_erase_slot((x.0, x.2)));
                    }
                }
            }
            assert(ok(c));
        } else {
            self.lemma_run_described(c);
            let a = choose|a: AbsView| #[trigger] self.abs_reach(a) && Self::describes(a, c)
                && (c == blank_conf() || a.2.len() >= 2);
            assert(a != abs_start());
            let i = choose|i: int| 0 <= i < a.2.len() && (#[trigger] a.2[i]) != 0 && a.2[i] as int != COLORS;
            assert(a.2[i] == cell_at(c, i - a.1));
            lemma_cell_nonblank(c, i - a.1);
        }
    }
}

} // verus!
