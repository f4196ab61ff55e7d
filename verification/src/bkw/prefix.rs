//! What lies beyond a neighbor of the head, near to far, as runs of
//! colors: two runs with their lengths (1, 2, 3 or many), then a spill
//! that is blank, one more run (of length 1 or more than one), or known
//! to hold a nonblank cell somewhere.
use vstd::prelude::*;

use crate::instrs::Color;

verus! {

/// The length that stands for four or more cells in a run.
pub const SIDE_PREFIX_MANY: u8 = 4;

/// The length that stands for two or more cells in a spilled run.
pub const SIDE_PREFIX_SPILL_MANY: u8 = 2;

/// A run of cells of one color.
#[derive(Clone, Copy, Debug, PartialEq, Eq, Structural)]
pub struct SidePrefixRun {
    pub color: Color,
    pub count: u8,
}

impl SidePrefixRun {
    /// The unused run.
    pub open spec fn spec_empty() -> Self {
        Self { color: 0, count: 0 }
    }

    /// The unused run.
    #[verifier::when_used_as_spec(spec_empty)]
    pub fn empty() -> (r: Self)
        ensures
            r == Self::spec_empty(),
    {
        Self { color: 0, count: 0 }
    }
}

/// What follows the kept runs.
#[derive(Clone, Copy, Debug, PartialEq, Eq, Structural)]
pub enum SidePrefixSpill {
    /// Only blank cells.
    Blank,
    /// One more run (`count` 1 is exact, 2 means two or more), then blank
    /// cells, or a nonblank cell farther out if `farther_dirty`.
    Run { color: Color, count: u8, farther_dirty: bool },
    /// Some nonblank cell, where is not known.
    DirtyUnknown,
}

/// Up to two runs, near to far, and what follows them.
#[derive(Clone, Copy, Debug, PartialEq, Eq)]
pub struct SidePrefix {
    pub runs: [SidePrefixRun; 2],
    pub len: u8,
    pub spill: SidePrefixSpill,
}

/// A run of `count` cells of `color`.
pub open spec fn run(color: Color, count: u8) -> SidePrefixRun {
    SidePrefixRun { color, count }
}

/// The prefix with the given runs, number of kept runs and spill.
pub open spec fn mk(r0: SidePrefixRun, r1: SidePrefixRun, len: u8, spill: SidePrefixSpill) -> SidePrefix {
    SidePrefix { runs: [r0, r1], len, spill }
}

/// The counts are those of a prefix built from the blank one: one to
/// four for each kept run, one or two for a spilled run.
pub open spec fn prefix_wf(p: SidePrefix) -> bool {
    &&& p.len <= 2
    &&& p.len >= 1 ==> 1 <= p.runs[0].count <= SIDE_PREFIX_MANY
    &&& p.len >= 2 ==> 1 <= p.runs[1].count <= SIDE_PREFIX_MANY
    &&& p.spill matches SidePrefixSpill::Run { count, .. } ==> 1 <= count <= SIDE_PREFIX_SPILL_MANY
}

/// Whether a spill surely holds a nonblank cell.
pub open spec fn spill_dirty(s: SidePrefixSpill) -> bool {
    match s {
        SidePrefixSpill::Blank => false,
        SidePrefixSpill::Run { color, farther_dirty, .. } => color != 0 || farther_dirty,
        SidePrefixSpill::DirtyUnknown => true,
    }
}

/// Whether a prefix surely holds a nonblank cell.
pub open spec fn prefix_dirty(p: SidePrefix) -> bool {
    ||| p.len >= 1 && p.runs[0].color != 0
    ||| p.len >= 2 && p.runs[1].color != 0
    ||| spill_dirty(p.spill)
}

/// What follows a spilled run once it is taken in.
pub open spec fn suffix_after(farther_dirty: bool) -> SidePrefixSpill {
    if farther_dirty { SidePrefixSpill::DirtyUnknown } else { SidePrefixSpill::Blank }
}

/// The spill once the far kept run is pushed out of the kept runs.
pub open spec fn spill_after(dropped: SidePrefixRun, old: SidePrefixSpill) -> SidePrefixSpill {
    SidePrefixSpill::Run {
        color: dropped.color,
        count: if dropped.count == 1 { 1 } else { SIDE_PREFIX_SPILL_MANY },
        farther_dirty: spill_dirty(old),
    }
}

/// A blank spilled run before blank cells is just blank cells.
pub open spec fn canon_spill(p: SidePrefix) -> SidePrefix {
    match p.spill {
        SidePrefixSpill::Run { color, farther_dirty, .. } => if color == 0 && !farther_dirty {
            mk(p.runs[0], p.runs[1], p.len, SidePrefixSpill::Blank)
        } else {
            p
        },
        _ => p,
    }
}

/// Drops blank kept runs at the far end before blank cells.
pub open spec fn trim_blank(p: SidePrefix, fuel: nat) -> SidePrefix
    decreases fuel,
{
    if fuel == 0 || p.len == 0 || p.len > 2 || !(p.spill is Blank) {
        p
    } else if p.runs[p.len - 1].color != 0 {
        p
    } else if p.len == 1 {
        trim_blank(mk(SidePrefixRun::spec_empty(), p.runs[1], 0, p.spill), (fuel - 1) as nat)
    } else {
        trim_blank(mk(p.runs[0], SidePrefixRun::spec_empty(), 1, p.spill), (fuel - 1) as nat)
    }
}

/// The canonical form of a prefix: the same cells, with no blank run
/// standing before blank cells.
pub open spec fn canon(p: SidePrefix) -> SidePrefix {
    trim_blank(canon_spill(p), 2)
}

/// The canonical prefixes for a cell of `color` set before cells known
/// only to hold a nonblank one: runs of one to `k` cells, followed by a
/// nonblank cell or (for a nonblank color, which may have been the last
/// one) by blank cells.
pub open spec fn dirty_prepends(color: Color, k: nat) -> Seq<SidePrefix>
    decreases k,
{
    if k == 0 {
        Seq::empty()
    } else {
        let prev = dirty_prepends(color, (k - 1) as nat);
        let e = SidePrefixRun::spec_empty();
        let with_dirty = prev.push(canon(mk(run(color, k as u8), e, 1, SidePrefixSpill::DirtyUnknown)));
        if color != 0 {
            with_dirty.push(canon(mk(run(color, k as u8), e, 1, SidePrefixSpill::Blank)))
        } else {
            with_dirty
        }
    }
}

/// The prefixes that a cell of `color` set before the cells of `p` has.
pub open spec fn prepends(p: SidePrefix, color: Color) -> Seq<SidePrefix> {
    let e = SidePrefixRun::spec_empty();
    if p.len == 0 {
        match p.spill {
            SidePrefixSpill::Blank => if color == 0 {
                seq![p]
            } else {
                seq![mk(run(color, 1), e, 1, SidePrefixSpill::Blank)]
            },
            SidePrefixSpill::Run { color: sc, count, farther_dirty } => if color == sc {
                let suffix = suffix_after(farther_dirty);
                if count == 1 {
                    seq![mk(run(color, 2), e, 1, suffix)]
                } else {
                    seq![mk(run(color, 3), e, 1, suffix), mk(run(color, SIDE_PREFIX_MANY), e, 1, suffix)]
                }
            } else {
                seq![mk(run(color, 1), e, 1, p.spill)]
            },
            SidePrefixSpill::DirtyUnknown => dirty_prepends(color, SIDE_PREFIX_MANY as nat),
        }
    } else if p.runs[0].color == color {
        let count = if p.runs[0].count + 1 < SIDE_PREFIX_MANY { (p.runs[0].count + 1) as u8 } else { SIDE_PREFIX_MANY };
        seq![mk(run(color, count), p.runs[1], p.len, p.spill)]
    } else if p.len == 1 {
        seq![canon(mk(run(color, 1), p.runs[0], 2, p.spill))]
    } else {
        seq![canon(mk(run(color, 1), p.runs[0], 2, spill_after(p.runs[1], p.spill)))]
    }
}

/// What taking a cell out of cells known only to hold a nonblank one
/// leaves, for each color below `k`: a blank cell leaves the nonblank one
/// farther out; a nonblank cell may have been the last one.
pub open spec fn dirty_pulls(k: nat) -> Seq<(Color, SidePrefix)>
    decreases k,
{
    if k == 0 {
        Seq::empty()
    } else {
        let prev = dirty_pulls((k - 1) as nat);
        let c = (k - 1) as u8;
        if c == 0 {
            prev.push((0u8, SidePrefix::spec_dirty_unknown()))
        } else {
            prev.push((c, SidePrefix::spec_blank())).push((c, SidePrefix::spec_dirty_unknown()))
        }
    }
}

/// The prefix left when the near run keeps `k` cells (or, for `None`, is
/// used up).
pub open spec fn residual(p: SidePrefix, k: Option<u8>) -> SidePrefix {
    match k {
        Some(k) => canon(mk(run(p.runs[0].color, k), p.runs[1], p.len, p.spill)),
        None => canon(mk(p.runs[1], SidePrefixRun::spec_empty(), (p.len - 1) as u8, p.spill)),
    }
}

/// The nearest cell of `p`'s cells and the prefix of the cells after it,
/// for each way that `p` allows (colors below `colors`).
pub open spec fn pulls(p: SidePrefix, colors: nat) -> Seq<(Color, SidePrefix)> {
    let e = SidePrefixRun::spec_empty();
    if p.len == 0 {
        match p.spill {
            SidePrefixSpill::Blank => seq![(0u8, p)],
            SidePrefixSpill::Run { color, count, farther_dirty } => if count == 1 {
                seq![(color, mk(e, e, 0, suffix_after(farther_dirty)))]
            } else {
                seq![
                    (color, canon(mk(e, e, 0, SidePrefixSpill::Run { color, count: 1, farther_dirty }))),
                    (color, canon(mk(e, e, 0, SidePrefixSpill::Run { color, count: SIDE_PREFIX_SPILL_MANY, farther_dirty }))),
                ]
            },
            SidePrefixSpill::DirtyUnknown => dirty_pulls(colors),
        }
    } else {
        let color = p.runs[0].color;
        let count = p.runs[0].count;
        if count == 1 {
            seq![(color, residual(p, None))]
        } else if count == 2 || count == 3 {
            seq![(color, residual(p, Some((count - 1) as u8)))]
        } else {
            seq![(color, residual(p, Some(3))), (color, residual(p, Some(SIDE_PREFIX_MANY)))]
        }
    }
}

impl SidePrefix {
    /// Only blank cells.
    pub open spec fn spec_blank() -> SidePrefix {
        mk(SidePrefixRun::spec_empty(), SidePrefixRun::spec_empty(), 0, SidePrefixSpill::Blank)
    }

    /// Some nonblank cell, where is not known.
    pub open spec fn spec_dirty_unknown() -> SidePrefix {
        mk(SidePrefixRun::spec_empty(), SidePrefixRun::spec_empty(), 0, SidePrefixSpill::DirtyUnknown)
    }

    /// Only blank cells.
    #[verifier::when_used_as_spec(spec_blank)]
    pub fn blank() -> (r: Self)
        ensures
            r == Self::spec_blank(),
    {
        Self { runs: [SidePrefixRun::empty(), SidePrefixRun::empty()], len: 0, spill: SidePrefixSpill::Blank }
    }

    /// Some nonblank cell, where is not known.
    #[verifier::when_used_as_spec(spec_dirty_unknown)]
    pub fn dirty_unknown() -> (r: Self)
        ensures
            r == Self::spec_dirty_unknown(),
    {
        Self { runs: [SidePrefixRun::empty(), SidePrefixRun::empty()], len: 0, spill: SidePrefixSpill::DirtyUnknown }
    }

    /// Whether the cells surely hold a nonblank one.
    pub fn definitely_dirty(self) -> (r: bool)
        requires
            self.len <= 2,
        ensures
            r == prefix_dirty(self),
    {
        let mut index: usize = 0;
        while index < self.len as usize
            invariant
                self.len <= 2,
                index <= self.len,
                forall|j: int| 0 <= j < index ==> self.runs[j].color == 0,
            decreases self.len - index,
        {
            if self.runs[index].color != 0 {
                return true;
            }
            index += 1;
        }
        match self.spill {
            SidePrefixSpill::Blank => false,
            SidePrefixSpill::Run { color, farther_dirty, .. } => color != 0 || farther_dirty,
            SidePrefixSpill::DirtyUnknown => true,
        }
    }

    /// Whether `self` stands for every tail that `other` stands for, by
    /// being the same prefix or by knowing only that some cell is
    /// nonblank while `other` surely holds one.
    pub fn subsumes(self, other: Self) -> (r: bool)
        requires
            other.len <= 2,
        ensures
            r == (self == other || (self.spill is DirtyUnknown && self.len == 0 && prefix_dirty(other))),
    {
        let same = self.runs[0] == other.runs[0] && self.runs[1] == other.runs[1] && self.len == other.len
            && self.spill == other.spill;
        proof {
            if self.runs[0] == other.runs[0] && self.runs[1] == other.runs[1] && self.len == other.len
                && self.spill == other.spill {
                assert(self.runs =~= other.runs);
            }
        }
        same || (matches!(self.spill, SidePrefixSpill::DirtyUnknown) && self.len == 0 && other.definitely_dirty())
    }

    /// The same cells, with no blank run standing before blank cells.
    pub fn canonicalize(&mut self)
        requires
            old(self).len <= 2,
        ensures
            *final(self) == canon(*old(self)),
    {
        if let SidePrefixSpill::Run { color, farther_dirty, .. } = self.spill {
            if color == 0 && !farther_dirty {
                self.spill = SidePrefixSpill::Blank;
            }
        }
        proof {
            assert(*self == canon_spill(*old(self))) by {
                assert(self.runs =~= canon_spill(*old(self)).runs);
            }
        }
        let ghost fuel: nat = 2;
        while matches!(self.spill, SidePrefixSpill::Blank) && self.len != 0
            invariant
                self.len <= fuel <= 2,
                trim_blank(*self, fuel) == canon(*old(self)),
            ensures
                trim_blank(*self, fuel) == *self,
                trim_blank(*self, fuel) == canon(*old(self)),
            decreases self.len,
        {
            let far = self.len as usize - 1;
            if self.runs[far].color != 0 {
                break;
            }
            let ghost before = *self;
            self.runs[far] = SidePrefixRun::empty();
            self.len = self.len - 1;
            proof {
                if far == 0 {
                    assert(self.runs =~= mk(SidePrefixRun::spec_empty(), before.runs[1], 0, before.spill).runs);
                } else {
                    assert(self.runs =~= mk(before.runs[0], SidePrefixRun::spec_empty(), 1, before.spill).runs);
                }
                fuel = (fuel - 1) as nat;
            }
        }
    }

    fn with_spill(self, spill: SidePrefixSpill) -> (r: Self)
        ensures
            r == mk(self.runs[0], self.runs[1], self.len, spill),
    {
        let r = Self { runs: [self.runs[0], self.runs[1]], len: self.len, spill };
        proof {
            assert(r.runs =~= mk(self.runs[0], self.runs[1], self.len, spill).runs);
        }
        r
    }

    /// The prefixes that a cell of `color` set before these cells has.
    pub fn for_each_prepend(self, color: Color) -> (r: Vec<Self>)
        requires
            prefix_wf(self),
        ensures
            r@ == prepends(self, color),
            forall|k: int| 0 <= k < r.len() ==> prefix_wf(#[trigger] r@[k]),
    {
        proof {
            lemma_prepends_wf(self, color);
        }
        let e = SidePrefixRun::empty();
        let mut out: Vec<Self> = Vec::new();
        if self.len == 0 {
            match self.spill {
                SidePrefixSpill::Blank => {
                    if color == 0 {
                        out.push(self);
                    } else {
                        out.push(Self { runs: [SidePrefixRun { color, count: 1 }, e], len: 1, spill: SidePrefixSpill::Blank });
                    }
                },
                SidePrefixSpill::Run { color: spill_color, count, farther_dirty } => {
                    if color == spill_color {
                        let suffix = if farther_dirty { SidePrefixSpill::DirtyUnknown } else { SidePrefixSpill::Blank };
                        if count == 1 {
                            out.push(Self { runs: [SidePrefixRun { color, count: 2 }, e], len: 1, spill: suffix });
                        } else {
                            out.push(Self { runs: [SidePrefixRun { color, count: 3 }, e], len: 1, spill: suffix });
                            out.push(Self { runs: [SidePrefixRun { color, count: SIDE_PREFIX_MANY }, e], len: 1, spill: suffix });
                        }
                    } else {
                        out.push(Self { runs: [SidePrefixRun { color, count: 1 }, e], len: 1, spill: self.spill });
                    }
                },
                SidePrefixSpill::DirtyUnknown => {
                    let mut count: u8 = 1;
                    while count <= SIDE_PREFIX_MANY
                        invariant
                            1 <= count <= SIDE_PREFIX_MANY + 1,
                            e == SidePrefixRun::spec_empty(),
                            out@ == dirty_prepends(color, (count - 1) as nat),
                        decreases SIDE_PREFIX_MANY + 1 - count,
                    {
                        let mut dirty = Self { runs: [SidePrefixRun { color, count }, e], len: 1, spill: SidePrefixSpill::DirtyUnknown };
                        dirty.canonicalize();
                        out.push(dirty);
                        if color != 0 {
                            let mut blank = dirty.with_spill(SidePrefixSpill::Blank);
                            blank.canonicalize();
                            out.push(blank);
                        }
                        proof {
                            assert(dirty_prepends(color, count as nat) == out@);
                        }
                        count += 1;
                    }
                },
            }
        } else if self.runs[0].color == color {
            let bumped = self.runs[0].count + 1;
            let count = if bumped < SIDE_PREFIX_MANY { bumped } else { SIDE_PREFIX_MANY };
            out.push(Self { runs: [SidePrefixRun { color, count }, self.runs[1]], len: self.len, spill: self.spill });
        } else if self.len == 1 {
            let mut next = Self { runs: [SidePrefixRun { color, count: 1 }, self.runs[0]], len: 2, spill: self.spill };
            next.canonicalize();
            out.push(next);
        } else {
            let dropped = self.runs[1];
            let spill = SidePrefixSpill::Run {
                color: dropped.color,
                count: if dropped.count == 1 { 1 } else { SIDE_PREFIX_SPILL_MANY },
                farther_dirty: match self.spill {
                    SidePrefixSpill::Blank => false,
                    SidePrefixSpill::Run { color, farther_dirty, .. } => color != 0 || farther_dirty,
                    SidePrefixSpill::DirtyUnknown => true,
                },
            };
            let mut next = Self { runs: [SidePrefixRun { color, count: 1 }, self.runs[0]], len: 2, spill };
            next.canonicalize();
            out.push(next);
        }
        proof {
            assert(out@ =~= prepends(self, color));
        }
        out
    }

    /// The nearest of these cells and the prefix of the cells after it, for
    /// each way that this prefix allows, among `C` colors.
    pub fn for_each_pull<const C: usize>(self) -> (r: Vec<(Color, Self)>)
        requires
            prefix_wf(self),
            C <= 256,
        ensures
            r@ == pulls(self, C as nat),
            forall|k: int| 0 <= k < r.len() ==> prefix_wf(#[trigger] r@[k].1),
    {
        proof {
            lemma_pulls_wf(self, C as nat);
        }
        let e = SidePrefixRun::empty();
        let mut out: Vec<(Color, Self)> = Vec::new();
        if self.len == 0 {
            match self.spill {
                SidePrefixSpill::Blank => {
                    out.push((0, self));
                },
                SidePrefixSpill::Run { color, count, farther_dirty } => {
                    if count == 1 {
                        let suffix = if farther_dirty { SidePrefixSpill::DirtyUnknown } else { SidePrefixSpill::Blank };
                        out.push((color, Self { runs: [e, e], len: 0, spill: suffix }));
                    } else {
                        let mut one = Self { runs: [e, e], len: 0, spill: SidePrefixSpill::Run { color, count: 1, farther_dirty } };
                        one.canonicalize();
                        out.push((color, one));
                        let mut many = Self {
                            runs: [e, e],
                            len: 0,
                            spill: SidePrefixSpill::Run { color, count: SIDE_PREFIX_SPILL_MANY, farther_dirty },
                        };
                        many.canonicalize();
                        out.push((color, many));
                    }
                },
                SidePrefixSpill::DirtyUnknown => {
                    let mut c: usize = 0;
                    while c < C
                        invariant
                            c <= C <= 256,
                            out@ == dirty_pulls(c as nat),
                        decreases C - c,
                    {
                        let color = c as Color;
                        if color == 0 {
                            out.push((color, Self::dirty_unknown()));
                        } else {
                            out.push((color, Self::blank()));
                            out.push((color, Self::dirty_unknown()));
                        }
                        proof {
                            assert(out@ == dirty_pulls((c + 1) as nat));
                        }
                        c += 1;
                    }
                },
            }
        } else {
            let color = self.runs[0].color;
            let count = self.runs[0].count;
            if count == 1 {
                let mut next = Self { runs: [self.runs[1], e], len: self.len - 1, spill: self.spill };
                next.canonicalize();
                out.push((color, next));
            } else if count == 2 || count == 3 {
                let mut next = Self { runs: [SidePrefixRun { color, count: count - 1 }, self.runs[1]], len: self.len, spill: self.spill };
                next.canonicalize();
                out.push((color, next));
            } else {
                let mut three = Self { runs: [SidePrefixRun { color, count: 3 }, self.runs[1]], len: self.len, spill: self.spill };
                three.canonicalize();
                out.push((color, three));
                let mut many = Self {
                    runs: [SidePrefixRun { color, count: SIDE_PREFIX_MANY }, self.runs[1]],
                    len: self.len,
                    spill: self.spill,
                };
                many.canonicalize();
                out.push((color, many));
            }
        }
        proof {
            assert(out@ =~= pulls(self, C as nat));
        }
        out
    }
}

/// Cell `i` of a tail, near to far (blank past its end).
pub open spec fn tail_cell(t: Seq<Color>, i: int) -> Color {
    if 0 <= i < t.len() { t[i] } else { 0 }
}

/// Whether cells `o` up to `o + n` of a tail hold `c`.
pub open spec fn block(t: Seq<Color>, o: int, c: Color, n: int) -> bool {
    forall|i: int| o <= i < o + n ==> #[trigger] tail_cell(t, i) == c
}

/// Whether every cell of a tail from `o` on is blank.
pub open spec fn blank_from(t: Seq<Color>, o: int) -> bool {
    forall|i: int| o <= i ==> #[trigger] tail_cell(t, i) == 0
}

/// Whether some cell of a tail from `o` on is nonblank.
pub open spec fn dirty_from(t: Seq<Color>, o: int) -> bool {
    exists|i: int| o <= i && #[trigger] tail_cell(t, i) != 0
}

/// Whether a kept run of count `k` may have `n` cells.
pub open spec fn run_len_ok(k: u8, n: int) -> bool {
    if k == SIDE_PREFIX_MANY { n >= SIDE_PREFIX_MANY } else { 1 <= k && n == k }
}

/// Whether a spilled run of count `k` may have `n` cells.
pub open spec fn spill_len_ok(k: u8, n: int) -> bool {
    if k == SIDE_PREFIX_SPILL_MANY { n >= SIDE_PREFIX_SPILL_MANY } else { k == 1 && n == 1 }
}

/// Whether the cells of a tail from `o` on are as a spill says.
pub open spec fn spill_holds(s: SidePrefixSpill, t: Seq<Color>, o: int) -> bool {
    match s {
        SidePrefixSpill::Blank => blank_from(t, o),
        SidePrefixSpill::DirtyUnknown => dirty_from(t, o),
        SidePrefixSpill::Run { color, count, farther_dirty } => exists|m: int|
            spill_len_ok(count, m) && #[trigger] block(t, o, color, m) && (if farther_dirty {
                dirty_from(t, o + m)
            } else {
                blank_from(t, o + m)
            }),
    }
}

/// Whether a tail is as a prefix says, its kept runs having `n0` and `n1`
/// cells.
pub open spec fn holds_with(p: SidePrefix, t: Seq<Color>, n0: int, n1: int) -> bool {
    &&& p.len <= 2
    &&& p.len >= 1 ==> run_len_ok(p.runs[0].count, n0) && block(t, 0, p.runs[0].color, n0)
    &&& p.len >= 2 ==> run_len_ok(p.runs[1].count, n1) && block(t, n0, p.runs[1].color, n1)
    &&& spill_holds(p.spill, t, if p.len == 0 { 0 } else if p.len == 1 { n0 } else { n0 + n1 })
}

/// Whether a tail is one that a prefix stands for.
pub open spec fn holds(p: SidePrefix, t: Seq<Color>) -> bool {
    exists|n0: int, n1: int| #[trigger] holds_with(p, t, n0, n1)
}

/// Whether `u` is `t` with one cell set before it.
pub open spec fn shifted(u: Seq<Color>, t: Seq<Color>) -> bool {
    forall|i: int| 0 <= i ==> #[trigger] tail_cell(u, i + 1) == tail_cell(t, i)
}

/// A tail after its nearest cell.
pub open spec fn tail_rest(t: Seq<Color>) -> Seq<Color> {
    if t.len() == 0 { t } else { t.drop_first() }
}

proof fn lemma_shifted_cons(color: Color, t: Seq<Color>)
    ensures
        shifted(seq![color] + t, t),
        tail_cell(seq![color] + t, 0) == color,
{
    assert forall|i: int| 0 <= i implies #[trigger] tail_cell(seq![color] + t, i + 1) == tail_cell(t, i) by {
        if i < t.len() {
            assert((seq![color] + t)[i + 1] == t[i]);
        }
    }
}

proof fn lemma_shifted_rest(t: Seq<Color>)
    ensures
        shifted(t, tail_rest(t)),
{
    assert forall|i: int| 0 <= i implies #[trigger] tail_cell(t, i + 1) == tail_cell(tail_rest(t), i) by {
        if t.len() > 0 && i < t.len() - 1 {
            assert(t.drop_first()[i] == t[i + 1]);
        }
    }
}

/// Blocks, blank and nonblank stretches and spills move with a shift.
proof fn lemma_shift_transfer(u: Seq<Color>, t: Seq<Color>, o: int)
    requires
        shifted(u, t),
        0 <= o,
    ensures
        forall|c: Color, n: int| #[trigger] block(t, o, c, n) <==> block(u, o + 1, c, n),
        blank_from(t, o) <==> blank_from(u, o + 1),
        dirty_from(t, o) <==> dirty_from(u, o + 1),
        forall|s: SidePrefixSpill| #[trigger] spill_holds(s, t, o) <==> spill_holds(s, u, o + 1),
{
    assert forall|c: Color, n: int| #[trigger] block(t, o, c, n) <==> block(u, o + 1, c, n) by {
        if block(t, o, c, n) {
            assert forall|i: int| o + 1 <= i < o + 1 + n implies #[trigger] tail_cell(u, i) == c by {
                assert(tail_cell(u, (i - 1) + 1) == tail_cell(t, i - 1));
            }
        }
        if block(u, o + 1, c, n) {
            assert forall|i: int| o <= i < o + n implies #[trigger] tail_cell(t, i) == c by {
                assert(tail_cell(u, i + 1) == tail_cell(t, i));
            }
        }
    }
    assert(blank_from(t, o) <==> blank_from(u, o + 1)) by {
        if blank_from(t, o) {
            assert forall|i: int| o + 1 <= i implies #[trigger] tail_cell(u, i) == 0 by {
                assert(tail_cell(u, (i - 1) + 1) == tail_cell(t, i - 1));
            }
        }
        if blank_from(u, o + 1) {
            assert forall|i: int| o <= i implies #[trigger] tail_cell(t, i) == 0 by {
                assert(tail_cell(u, i + 1) == tail_cell(t, i));
            }
        }
    }
    assert(dirty_from(t, o) <==> dirty_from(u, o + 1)) by {
        if dirty_from(t, o) {
            let i = choose|i: int| o <= i && #[trigger] tail_cell(t, i) != 0;
            assert(tail_cell(u, i + 1) == tail_cell(t, i));
        }
        if dirty_from(u, o + 1) {
            let i = choose|i: int| o + 1 <= i && #[trigger] tail_cell(u, i) != 0;
            assert(tail_cell(u, (i - 1) + 1) == tail_cell(t, i - 1));
        }
    }
    assert forall|s: SidePrefixSpill| #[trigger] spill_holds(s, t, o) <==> spill_holds(s, u, o + 1) by {
        if let SidePrefixSpill::Run { color, count, farther_dirty } = s {
            if spill_holds(s, t, o) {
                let m = choose|m: int| spill_len_ok(count, m) && #[trigger] block(t, o, color, m) && (if farther_dirty {
                    dirty_from(t, o + m)
                } else {
                    blank_from(t, o + m)
                });
                lemma_shift_transfer_plain(u, t, o + m);
                assert(block(u, o + 1, color, m));
            }
            if spill_holds(s, u, o + 1) {
                let m = choose|m: int| spill_len_ok(count, m) && #[trigger] block(u, o + 1, color, m) && (if farther_dirty {
                    dirty_from(u, o + 1 + m)
                } else {
                    blank_from(u, o + 1 + m)
                });
                lemma_shift_transfer_plain(u, t, o + m);
                assert(block(t, o, color, m));
            }
        }
    }
}

/// Blank and nonblank stretches move with a shift.
proof fn lemma_shift_transfer_plain(u: Seq<Color>, t: Seq<Color>, o: int)
    requires
        shifted(u, t),
        0 <= o,
    ensures
        blank_from(t, o) <==> blank_from(u, o + 1),
        dirty_from(t, o) <==> dirty_from(u, o + 1),
{
    if blank_from(t, o) {
        assert forall|i: int| o + 1 <= i implies #[trigger] tail_cell(u, i) == 0 by {
            assert(tail_cell(u, (i - 1) + 1) == tail_cell(t, i - 1));
        }
    }
    if blank_from(u, o + 1) {
        assert forall|i: int| o <= i implies #[trigger] tail_cell(t, i) == 0 by {
            assert(tail_cell(u, i + 1) == tail_cell(t, i));
        }
    }
    if dirty_from(t, o) {
        let i = choose|i: int| o <= i && #[trigger] tail_cell(t, i) != 0;
        assert(tail_cell(u, i + 1) == tail_cell(t, i));
    }
    if dirty_from(u, o + 1) {
        let i = choose|i: int| o + 1 <= i && #[trigger] tail_cell(u, i) != 0;
        assert(tail_cell(u, (i - 1) + 1) == tail_cell(t, i - 1));
    }
}

proof fn lemma_blank_extend(t: Seq<Color>, o: int, n: int)
    requires
        block(t, o, 0, n),
        blank_from(t, o + n),
        0 <= n,
    ensures
        blank_from(t, o),
{
    assert forall|i: int| o <= i implies #[trigger] tail_cell(t, i) == 0 by {
        if i < o + n {
            assert(tail_cell(t, i) == 0);
        }
    }
}

/// What a spill says of the cells from its start: some nonblank cell if it
/// surely holds one, else only blank cells.
proof fn lemma_spill_dirty(s: SidePrefixSpill, t: Seq<Color>, o: int)
    requires
        spill_holds(s, t, o),
    ensures
        spill_dirty(s) ==> dirty_from(t, o),
        !spill_dirty(s) ==> blank_from(t, o),
{
    if let SidePrefixSpill::Run { color, count, farther_dirty } = s {
        let m = choose|m: int| spill_len_ok(count, m) && #[trigger] block(t, o, color, m) && (if farther_dirty {
            dirty_from(t, o + m)
        } else {
            blank_from(t, o + m)
        });
        if color != 0 {
            assert(tail_cell(t, o) == color);
        } else if farther_dirty {
            let i = choose|i: int| o + m <= i && #[trigger] tail_cell(t, i) != 0;
        } else {
            lemma_blank_extend(t, o, m);
        }
    }
}

/// Trimming blank runs before blank cells keeps the tails.
proof fn lemma_trim_holds(p: SidePrefix, t: Seq<Color>, fuel: nat, n0: int, n1: int)
    requires
        holds_with(p, t, n0, n1),
    ensures
        holds(trim_blank(p, fuel), t),
    decreases fuel,
{
    if fuel == 0 || p.len == 0 || p.len > 2 || !(p.spill is Blank) {
    } else if p.runs[p.len - 1].color != 0 {
    } else if p.len == 1 {
        let q = mk(SidePrefixRun::spec_empty(), p.runs[1], 0, p.spill);
        lemma_blank_extend(t, 0, n0);
        assert(holds_with(q, t, n0, n1));
        lemma_trim_holds(q, t, (fuel - 1) as nat, n0, n1);
    } else {
        let q = mk(p.runs[0], SidePrefixRun::spec_empty(), 1, p.spill);
        lemma_blank_extend(t, n0, n1);
        assert(holds_with(q, t, n0, n1));
        lemma_trim_holds(q, t, (fuel - 1) as nat, n0, n1);
    }
}

/// The canonical form of a prefix stands for every tail that the prefix
/// stands for.
pub proof fn lemma_canon_holds(p: SidePrefix, t: Seq<Color>)
    requires
        holds(p, t),
    ensures
        holds(canon(p), t),
{
    let (n0, n1) = choose|n0: int, n1: int| #[trigger] holds_with(p, t, n0, n1);
    let q = canon_spill(p);
    let o = if p.len == 0 { 0 } else if p.len == 1 { n0 } else { n0 + n1 };
    if let SidePrefixSpill::Run { color, count, farther_dirty } = p.spill {
        if color == 0 && !farther_dirty {
            lemma_spill_dirty(p.spill, t, o);
        }
    }
    assert(holds_with(q, t, n0, n1));
    lemma_trim_holds(q, t, 2, n0, n1);
}

proof fn lemma_dirty_prepends_first(color: Color, k: nat)
    requires
        k >= 1,
    ensures
        dirty_prepends(color, k).len() >= 1,
        dirty_prepends(color, k)[0] == canon(mk(run(color, 1), SidePrefixRun::spec_empty(), 1, SidePrefixSpill::DirtyUnknown)),
    decreases k,
{
    let e = SidePrefixRun::spec_empty();
    if k > 1 {
        lemma_dirty_prepends_first(color, (k - 1) as nat);
        let prev = dirty_prepends(color, (k - 1) as nat);
        let with_dirty = prev.push(canon(mk(run(color, k as u8), e, 1, SidePrefixSpill::DirtyUnknown)));
        assert(with_dirty[0] == prev[0]);
    } else {
        assert(dirty_prepends(color, 0) =~= Seq::<SidePrefix>::empty());
        let with_dirty = Seq::<SidePrefix>::empty().push(canon(mk(run(color, 1), e, 1, SidePrefixSpill::DirtyUnknown)));
        assert(with_dirty[0] == canon(mk(run(color, 1), e, 1, SidePrefixSpill::DirtyUnknown)));
    }
}

/// A tail with a cell of `color` set before it is one that some prefix
/// that `prepends` gives stands for.
pub proof fn lemma_prepend_sound(p: SidePrefix, color: Color, t: Seq<Color>)
    requires
        prefix_wf(p),
        holds(p, t),
    ensures
        exists|k: int| 0 <= k < prepends(p, color).len() && holds(#[trigger] prepends(p, color)[k], seq![color] + t),
{
    let u = seq![color] + t;
    lemma_shifted_cons(color, t);
    let (n0, n1) = choose|n0: int, n1: int| #[trigger] holds_with(p, t, n0, n1);
    let e = SidePrefixRun::spec_empty();
    let ps = prepends(p, color);
    if p.len == 0 {
        lemma_shift_transfer(u, t, 0);
        match p.spill {
            SidePrefixSpill::Blank => {
                if color == 0 {
                    assert(blank_from(u, 0)) by {
                        lemma_blank_extend(u, 0, 1);
                    }
                    assert(holds_with(ps[0], u, n0, n1));
                } else {
                    assert(holds_with(ps[0], u, 1, n1));
                }
                assert(holds(ps[0], u));
            },
            SidePrefixSpill::Run { color: sc, count, farther_dirty } => {
                let m = choose|m: int| spill_len_ok(count, m) && #[trigger] block(t, 0, sc, m) && (if farther_dirty {
                    dirty_from(t, m)
                } else {
                    blank_from(t, m)
                });
                lemma_shift_transfer_plain(u, t, m);
                if color == sc {
                    assert(block(u, 1, sc, m));
                    assert(block(u, 0, color, m + 1));
                    if count == 1 {
                        assert(holds_with(ps[0], u, m + 1, n1));
                        assert(holds(ps[0], u));
                    } else if m == 2 {
                        assert(holds_with(ps[0], u, m + 1, n1));
                        assert(holds(ps[0], u));
                    } else {
                        assert(holds_with(ps[1], u, m + 1, n1));
                        assert(holds(ps[1], u));
                    }
                } else {
                    assert(spill_holds(p.spill, u, 1));
                    assert(holds_with(ps[0], u, 1, n1));
                    assert(holds(ps[0], u));
                }
            },
            SidePrefixSpill::DirtyUnknown => {
                lemma_dirty_prepends_first(color, SIDE_PREFIX_MANY as nat);
                let q = mk(run(color, 1), e, 1, SidePrefixSpill::DirtyUnknown);
                assert(canon(q) == q);
                assert(holds_with(q, u, 1, n1));
                assert(holds(ps[0], u));
            },
        }
    } else if p.runs[0].color == color {
        let o = if p.len == 1 { n0 } else { n0 + n1 };
        lemma_shift_transfer(u, t, 0);
        lemma_shift_transfer(u, t, n0);
        lemma_shift_transfer(u, t, o);
        assert(block(u, 1, color, n0));
        assert(block(u, 0, color, n0 + 1));
        assert(holds_with(ps[0], u, n0 + 1, n1));
        assert(holds(ps[0], u));
    } else if p.len == 1 {
        lemma_shift_transfer(u, t, 0);
        lemma_shift_transfer(u, t, n0);
        let q = mk(run(color, 1), p.runs[0], 2, p.spill);
        assert(holds_with(q, u, 1, n0));
        lemma_canon_holds(q, u);
        assert(holds(ps[0], u));
    } else {
        lemma_shift_transfer(u, t, 0);
        lemma_shift_transfer(u, t, n0);
        lemma_shift_transfer(u, t, n0 + n1);
        lemma_spill_dirty(p.spill, t, n0 + n1);
        lemma_shift_transfer_plain(u, t, n0 + n1);
        let sp = spill_after(p.runs[1], p.spill);
        assert(block(u, 1 + n0, p.runs[1].color, n1));
        assert(spill_len_ok(if p.runs[1].count == 1 { 1 } else { SIDE_PREFIX_SPILL_MANY }, n1));
        if spill_dirty(p.spill) {
            assert(dirty_from(u, (1 + n0) + n1));
        } else {
            assert(blank_from(u, (1 + n0) + n1));
        }
        assert(spill_holds(sp, u, 1 + n0));
        let q = mk(run(color, 1), p.runs[0], 2, sp);
        assert(holds_with(q, u, 1, n0));
        lemma_canon_holds(q, u);
        assert(holds(ps[0], u));
    }
}

proof fn lemma_dirty_pulls_has(k: nat, c: Color)
    requires
        (c as int) < k <= 256,
    ensures
        dirty_pulls(k).contains((c, SidePrefix::spec_dirty_unknown())),
        c != 0 ==> dirty_pulls(k).contains((c, SidePrefix::spec_blank())),
    decreases k,
{
    let prev = dirty_pulls((k - 1) as nat);
    let cur = dirty_pulls(k);
    assert forall|x: (Color, SidePrefix)| prev.contains(x) implies cur.contains(x) by {
        let j = choose|j: int| 0 <= j < prev.len() && prev[j] == x;
        assert(cur[j] == x);
    }
    if (c as int) < k - 1 {
        lemma_dirty_pulls_has((k - 1) as nat, c);
    } else if c == 0 {
        assert(cur[prev.len() as int] == (c, SidePrefix::spec_dirty_unknown()));
    } else {
        assert(cur[prev.len() as int] == (c, SidePrefix::spec_blank()));
        assert(cur[prev.len() as int + 1] == (c, SidePrefix::spec_dirty_unknown()));
    }
}

proof fn lemma_spill_run_holds(r: Seq<Color>, color: Color, count: u8, farther_dirty: bool, m: int)
    requires
        spill_len_ok(count, m),
        block(r, 0, color, m),
        farther_dirty ==> dirty_from(r, m),
        !farther_dirty ==> blank_from(r, m),
    ensures
        spill_holds(SidePrefixSpill::Run { color, count, farther_dirty }, r, 0),
{
    assert(block(r, 0, color, m));
    assert(spill_len_ok(count, m) && block(r, 0, color, m) && (if farther_dirty {
        dirty_from(r, 0 + m)
    } else {
        blank_from(r, 0 + m)
    }));
    let sp = SidePrefixSpill::Run { color, count, farther_dirty };
    assert(sp matches SidePrefixSpill::Run { color: c2, count: k2, farther_dirty: f2 } && c2 == color && k2 == count && f2 == farther_dirty);
    assert(spill_holds(sp, r, 0) == (exists|k: int| spill_len_ok(count, k) && #[trigger] block(r, 0, color, k) && (if farther_dirty {
        dirty_from(r, 0 + k)
    } else {
        blank_from(r, 0 + k)
    })));
}

/// The nearest cell of a tail and the tail after it are, for some pair
/// that `pulls` gives, its color and a tail that the prefix stands for.
pub proof fn lemma_pull_sound(p: SidePrefix, t: Seq<Color>, colors: nat)
    requires
        prefix_wf(p),
        holds(p, t),
        colors <= 256,
        forall|i: int| 0 <= i < t.len() ==> (#[trigger] t[i] as int) < colors,
    ensures
        exists|k: int| 0 <= k < pulls(p, colors).len() && (#[trigger] pulls(p, colors)[k]).0 == tail_cell(t, 0)
            && holds(pulls(p, colors)[k].1, tail_rest(t)),
{
    let r = tail_rest(t);
    lemma_shifted_rest(t);
    let (n0, n1) = choose|n0: int, n1: int| #[trigger] holds_with(p, t, n0, n1);
    let e = SidePrefixRun::spec_empty();
    let ps = pulls(p, colors);
    lemma_shift_transfer(t, r, 0);
    if p.len == 0 {
        match p.spill {
            SidePrefixSpill::Blank => {
                assert(tail_cell(t, 0) == 0);
                assert(blank_from(t, 1));
                assert(holds_with(ps[0].1, r, n0, n1));
                assert(ps[0].0 == tail_cell(t, 0) && holds(ps[0].1, r));
            },
            SidePrefixSpill::Run { color, count, farther_dirty } => {
                let m = choose|m: int| spill_len_ok(count, m) && #[trigger] block(t, 0, color, m) && (if farther_dirty {
                    dirty_from(t, m)
                } else {
                    blank_from(t, m)
                });
                assert(tail_cell(t, 0) == color);
                lemma_shift_transfer(t, r, m - 1);
                assert(block(t, 1, color, m - 1));
                assert(block(r, 0, color, m - 1));
                if count == 1 {
                    assert(holds_with(ps[0].1, r, n0, n1));
                    assert(ps[0].0 == tail_cell(t, 0) && holds(ps[0].1, r));
                } else if m == 2 {
                    let q = mk(e, e, 0, SidePrefixSpill::Run { color, count: 1, farther_dirty });
                    lemma_spill_run_holds(r, color, 1, farther_dirty, 1);
                    assert(spill_holds(q.spill, r, 0));
                    assert(holds_with(q, r, n0, n1));
                    lemma_canon_holds(q, r);
                    assert(ps[0].0 == tail_cell(t, 0) && holds(ps[0].1, r));
                } else {
                    let q = mk(e, e, 0, SidePrefixSpill::Run { color, count: SIDE_PREFIX_SPILL_MANY, farther_dirty });
                    lemma_spill_run_holds(r, color, SIDE_PREFIX_SPILL_MANY, farther_dirty, m - 1);
                    assert(spill_holds(q.spill, r, 0));
                    assert(holds_with(q, r, n0, n1));
                    lemma_canon_holds(q, r);
                    assert(ps[1].0 == tail_cell(t, 0) && holds(ps[1].1, r));
                }
            },
            SidePrefixSpill::DirtyUnknown => {
                let i = choose|i: int| 0 <= i && #[trigger] tail_cell(t, i) != 0;
                assert(t.len() > 0);
                let c0 = t[0];
                assert(tail_cell(t, 0) == c0);
                lemma_dirty_pulls_has(colors, c0);
                let du = SidePrefix::spec_dirty_unknown();
                let bl = SidePrefix::spec_blank();
                if dirty_from(t, 1) {
                    assert(holds_with(du, r, 0, 0));
                    let j = choose|j: int| 0 <= j < ps.len() && ps[j] == (c0, du);
                    assert(ps[j].0 == tail_cell(t, 0) && holds(ps[j].1, r));
                } else {
                    assert(c0 != 0) by {
                        if c0 == 0 {
                            assert(i != 0);
                        }
                    }
                    assert(blank_from(t, 1));
                    assert(holds_with(bl, r, 0, 0));
                    let j = choose|j: int| 0 <= j < ps.len() && ps[j] == (c0, bl);
                    assert(ps[j].0 == tail_cell(t, 0) && holds(ps[j].1, r));
                }
            },
        }
    } else {
        let color = p.runs[0].color;
        let count = p.runs[0].count;
        let o = if p.len == 1 { n0 } else { n0 + n1 };
        assert(tail_cell(t, 0) == color);
        lemma_shift_transfer(t, r, n0 - 1);
        lemma_shift_transfer(t, r, o - 1);
        assert(block(t, 1, color, n0 - 1));
        assert(block(r, 0, color, n0 - 1));
        if count == 1 {
            let q = mk(p.runs[1], e, (p.len - 1) as u8, p.spill);
            assert(holds_with(q, r, n1, n1));
            lemma_canon_holds(q, r);
            assert(ps[0].0 == tail_cell(t, 0) && holds(ps[0].1, r));
        } else if count == 2 || count == 3 || n0 == 4 {
            let k: u8 = if count == 2 || count == 3 { (count - 1) as u8 } else { 3 };
            let q = mk(run(color, k), p.runs[1], p.len, p.spill);
            assert(holds_with(q, r, n0 - 1, n1));
            lemma_canon_holds(q, r);
            assert(ps[0].0 == tail_cell(t, 0) && holds(ps[0].1, r));
        } else {
            let q = mk(run(color, SIDE_PREFIX_MANY), p.runs[1], p.len, p.spill);
            assert(holds_with(q, r, n0 - 1, n1));
            lemma_canon_holds(q, r);
            assert(ps[1].0 == tail_cell(t, 0) && holds(ps[1].1, r));
        }
    }
}

/// A prefix that `subsumes` another stands for every tail that the other
/// stands for.
pub proof fn lemma_subsumes_sound(a: SidePrefix, b: SidePrefix, t: Seq<Color>)
    requires
        a == b || (a.spill is DirtyUnknown && a.len == 0 && prefix_dirty(b)),
        prefix_wf(b),
        holds(b, t),
    ensures
        holds(a, t),
{
    if a != b {
        let (n0, n1) = choose|n0: int, n1: int| #[trigger] holds_with(b, t, n0, n1);
        let o = if b.len == 0 { 0 } else if b.len == 1 { n0 } else { n0 + n1 };
        if b.len >= 1 && b.runs[0].color != 0 {
            assert(tail_cell(t, 0) != 0);
        } else if b.len >= 2 && b.runs[1].color != 0 {
            assert(tail_cell(t, n0) != 0);
        } else {
            lemma_spill_dirty(b.spill, t, o);
            let i = choose|i: int| o <= i && #[trigger] tail_cell(t, i) != 0;
            assert(0 <= i);
        }
        assert(holds_with(a, t, 0, 0));
    }
}

/// Canonical forms keep the counts of a prefix built from the blank one.
proof fn lemma_canon_wf(p: SidePrefix)
    requires
        prefix_wf(p),
    ensures
        prefix_wf(canon(p)),
{
    let q = canon_spill(p);
    assert(prefix_wf(q));
    lemma_trim_wf(q, 2);
}

proof fn lemma_trim_wf(p: SidePrefix, fuel: nat)
    requires
        prefix_wf(p),
    ensures
        prefix_wf(trim_blank(p, fuel)),
    decreases fuel,
{
    if fuel == 0 || p.len == 0 || p.len > 2 || !(p.spill is Blank) {
    } else if p.runs[p.len - 1].color != 0 {
    } else if p.len == 1 {
        lemma_trim_wf(mk(SidePrefixRun::spec_empty(), p.runs[1], 0, p.spill), (fuel - 1) as nat);
    } else {
        lemma_trim_wf(mk(p.runs[0], SidePrefixRun::spec_empty(), 1, p.spill), (fuel - 1) as nat);
    }
}

proof fn lemma_dirty_prepends_wf(color: Color, k: nat)
    requires
        k <= SIDE_PREFIX_MANY,
    ensures
        forall|j: int| 0 <= j < dirty_prepends(color, k).len() ==> prefix_wf(#[trigger] dirty_prepends(color, k)[j]),
    decreases k,
{
    if k > 0 {
        lemma_dirty_prepends_wf(color, (k - 1) as nat);
        let e = SidePrefixRun::spec_empty();
        lemma_canon_wf(mk(run(color, k as u8), e, 1, SidePrefixSpill::DirtyUnknown));
        lemma_canon_wf(mk(run(color, k as u8), e, 1, SidePrefixSpill::Blank));
        let prev = dirty_prepends(color, (k - 1) as nat);
        let cur = dirty_prepends(color, k);
        assert forall|j: int| 0 <= j < cur.len() implies prefix_wf(#[trigger] cur[j]) by {
            if j < prev.len() {
                assert(cur[j] == prev[j]);
            }
        }
    }
}

/// The prefixes that `prepends` gives keep the counts of a prefix built
/// from the blank one.
pub proof fn lemma_prepends_wf(p: SidePrefix, color: Color)
    requires
        prefix_wf(p),
    ensures
        forall|k: int| 0 <= k < prepends(p, color).len() ==> prefix_wf(#[trigger] prepends(p, color)[k]),
{
    let e = SidePrefixRun::spec_empty();
    if p.len == 0 {
        if p.spill is DirtyUnknown {
            lemma_dirty_prepends_wf(color, SIDE_PREFIX_MANY as nat);
        }
    } else if p.runs[0].color == color {
    } else if p.len == 1 {
        lemma_canon_wf(mk(run(color, 1), p.runs[0], 2, p.spill));
    } else {
        lemma_canon_wf(mk(run(color, 1), p.runs[0], 2, spill_after(p.runs[1], p.spill)));
    }
}

proof fn lemma_dirty_pulls_wf(k: nat)
    ensures
        forall|j: int| 0 <= j < dirty_pulls(k).len() ==> prefix_wf(#[trigger] dirty_pulls(k)[j].1),
    decreases k,
{
    if k > 0 {
        lemma_dirty_pulls_wf((k - 1) as nat);
        let prev = dirty_pulls((k - 1) as nat);
        let cur = dirty_pulls(k);
        assert forall|j: int| 0 <= j < cur.len() implies prefix_wf(#[trigger] cur[j].1) by {
            if j < prev.len() {
                assert(cur[j] == prev[j]);
            }
        }
    }
}

/// The prefixes that `pulls` gives keep the counts of a prefix built from
/// the blank one.
pub proof fn lemma_pulls_wf(p: SidePrefix, colors: nat)
    requires
        prefix_wf(p),
    ensures
        forall|k: int| 0 <= k < pulls(p, colors).len() ==> prefix_wf(#[trigger] pulls(p, colors)[k].1),
{
    let e = SidePrefixRun::spec_empty();
    if p.len == 0 {
        match p.spill {
            SidePrefixSpill::Run { color, count, farther_dirty } => {
                lemma_canon_wf(mk(e, e, 0, SidePrefixSpill::Run { color, count: 1, farther_dirty }));
                lemma_canon_wf(mk(e, e, 0, SidePrefixSpill::Run { color, count: SIDE_PREFIX_SPILL_MANY, farther_dirty }));
            },
            SidePrefixSpill::DirtyUnknown => {
                lemma_dirty_pulls_wf(colors);
            },
            _ => {},
        }
    } else {
        let color = p.runs[0].color;
        let count = p.runs[0].count;
        lemma_canon_wf(mk(p.runs[1], e, (p.len - 1) as u8, p.spill));
        if count == 2 || count == 3 {
            lemma_canon_wf(mk(run(color, (count - 1) as u8), p.runs[1], p.len, p.spill));
        }
        lemma_canon_wf(mk(run(color, 3), p.runs[1], p.len, p.spill));
        lemma_canon_wf(mk(run(color, SIDE_PREFIX_MANY), p.runs[1], p.len, p.spill));
    }
}

/// A prefix as the propagation builds it among `colors` colors: counts as
/// for `prefix_wf`, colors below `colors`, and unused runs empty.
pub open spec fn prefix_nf(p: SidePrefix, colors: int) -> bool {
    &&& prefix_wf(p)
    &&& p.len >= 1 ==> p.runs[0].color < colors
    &&& p.len >= 2 ==> p.runs[1].color < colors
    &&& p.len < 1 ==> p.runs[0] == SidePrefixRun::spec_empty()
    &&& p.len < 2 ==> p.runs[1] == SidePrefixRun::spec_empty()
    &&& p.spill matches SidePrefixSpill::Run { color, .. } ==> color < colors
}

proof fn lemma_trim_nf(p: SidePrefix, fuel: nat, colors: int)
    requires
        prefix_nf(p, colors),
    ensures
        prefix_nf(trim_blank(p, fuel), colors),
    decreases fuel,
{
    if fuel == 0 || p.len == 0 || p.len > 2 || !(p.spill is Blank) {
    } else if p.runs[p.len - 1].color != 0 {
    } else if p.len == 1 {
        lemma_trim_nf(mk(SidePrefixRun::spec_empty(), p.runs[1], 0, p.spill), (fuel - 1) as nat, colors);
    } else {
        lemma_trim_nf(mk(p.runs[0], SidePrefixRun::spec_empty(), 1, p.spill), (fuel - 1) as nat, colors);
    }
}

proof fn lemma_canon_nf(p: SidePrefix, colors: int)
    requires
        prefix_nf(p, colors),
    ensures
        prefix_nf(canon(p), colors),
{
    let q = canon_spill(p);
    assert(prefix_nf(q, colors));
    lemma_trim_nf(q, 2, colors);
}

proof fn lemma_dirty_prepends_nf(color: Color, k: nat, colors: int)
    requires
        k <= SIDE_PREFIX_MANY,
        color < colors,
    ensures
        forall|j: int| 0 <= j < dirty_prepends(color, k).len() ==> prefix_nf(#[trigger] dirty_prepends(color, k)[j], colors),
    decreases k,
{
    if k > 0 {
        lemma_dirty_prepends_nf(color, (k - 1) as nat, colors);
        let e = SidePrefixRun::spec_empty();
        lemma_canon_nf(mk(run(color, k as u8), e, 1, SidePrefixSpill::DirtyUnknown), colors);
        lemma_canon_nf(mk(run(color, k as u8), e, 1, SidePrefixSpill::Blank), colors);
        let prev = dirty_prepends(color, (k - 1) as nat);
        let cur = dirty_prepends(color, k);
        assert forall|j: int| 0 <= j < cur.len() implies prefix_nf(#[trigger] cur[j], colors) by {
            if j < prev.len() {
                assert(cur[j] == prev[j]);
            }
        }
    }
}

/// The prefixes that `prepends` gives keep the form of prefixes built by
/// the propagation.
pub proof fn lemma_prepends_nf(p: SidePrefix, color: Color, colors: int)
    requires
        prefix_nf(p, colors),
        color < colors,
    ensures
        forall|k: int| 0 <= k < prepends(p, color).len() ==> prefix_nf(#[trigger] prepends(p, color)[k], colors),
{
    let e = SidePrefixRun::spec_empty();
    if p.len == 0 {
        if p.spill is DirtyUnknown {
            lemma_dirty_prepends_nf(color, SIDE_PREFIX_MANY as nat, colors);
        }
    } else if p.runs[0].color == color {
    } else if p.len == 1 {
        lemma_canon_nf(mk(run(color, 1), p.runs[0], 2, p.spill), colors);
    } else {
        lemma_canon_nf(mk(run(color, 1), p.runs[0], 2, spill_after(p.runs[1], p.spill)), colors);
    }
}

proof fn lemma_dirty_pulls_nf(k: nat, colors: int)
    requires
        k <= colors <= 256,
    ensures
        forall|j: int| #![trigger dirty_pulls(k)[j]] 0 <= j < dirty_pulls(k).len() ==> prefix_nf(dirty_pulls(k)[j].1, colors)
            && dirty_pulls(k)[j].0 < colors,
    decreases k,
{
    if k > 0 {
        lemma_dirty_pulls_nf((k - 1) as nat, colors);
        let prev = dirty_pulls((k - 1) as nat);
        let cur = dirty_pulls(k);
        let c = (k - 1) as u8;
        assert(c as int == k - 1);
        assert(prefix_nf(SidePrefix::spec_blank(), colors));
        assert(prefix_nf(SidePrefix::spec_dirty_unknown(), colors));
        assert forall|j: int| #![trigger cur[j]] 0 <= j < cur.len() implies prefix_nf(cur[j].1, colors) && cur[j].0 < colors by {
            if j < prev.len() {
                assert(cur[j] == prev[j]);
            }
        }
    } else {
        assert(dirty_pulls(k).len() == 0);
    }
}

/// The prefixes that `pulls` gives keep the form of prefixes built by the
/// propagation, and the colors taken out are below `colors`.
pub proof fn lemma_pulls_nf(p: SidePrefix, colors: nat)
    requires
        prefix_nf(p, colors as int),
        1 <= colors <= 256,
    ensures
        forall|k: int| #![trigger pulls(p, colors)[k]] 0 <= k < pulls(p, colors).len() ==> prefix_nf(pulls(p, colors)[k].1, colors as int)
            && pulls(p, colors)[k].0 < colors,
{
    let e = SidePrefixRun::spec_empty();
    let c = colors as int;
    if p.len == 0 {
        match p.spill {
            SidePrefixSpill::Run { color, count, farther_dirty } => {
                lemma_canon_nf(mk(e, e, 0, SidePrefixSpill::Run { color, count: 1, farther_dirty }), c);
                lemma_canon_nf(mk(e, e, 0, SidePrefixSpill::Run { color, count: SIDE_PREFIX_SPILL_MANY, farther_dirty }), c);
            },
            SidePrefixSpill::DirtyUnknown => {
                lemma_dirty_pulls_nf(colors, c);
            },
            _ => {},
        }
    } else {
        let color = p.runs[0].color;
        let count = p.runs[0].count;
        lemma_canon_nf(mk(p.runs[1], e, (p.len - 1) as u8, p.spill), c);
        if count == 2 || count == 3 {
            lemma_canon_nf(mk(run(color, (count - 1) as u8), p.runs[1], p.len, p.spill), c);
        }
        lemma_canon_nf(mk(run(color, 3), p.runs[1], p.len, p.spill), c);
        lemma_canon_nf(mk(run(color, SIDE_PREFIX_MANY), p.runs[1], p.len, p.spill), c);
    }
}

/// Whether a prefix stands for a tail depends only on the tail's cells.
pub proof fn lemma_holds_cells(p: SidePrefix, t: Seq<Color>, u: Seq<Color>)
    requires
        forall|i: int| #[trigger] tail_cell(t, i) == tail_cell(u, i),
    ensures
        holds(p, t) == holds(p, u),
{
    assert forall|o: int, c: Color, n: int| block(t, o, c, n) == #[trigger] block(u, o, c, n) by {
        if block(t, o, c, n) {
            assert forall|i: int| o <= i < o + n implies #[trigger] tail_cell(u, i) == c by {
                assert(tail_cell(t, i) == c);
            }
        }
        if block(u, o, c, n) {
            assert forall|i: int| o <= i < o + n implies #[trigger] tail_cell(t, i) == c by {
                assert(tail_cell(u, i) == c);
            }
        }
    }
    assert forall|o: int| blank_from(t, o) == #[trigger] blank_from(u, o) by {
        if blank_from(t, o) {
            assert forall|i: int| o <= i implies #[trigger] tail_cell(u, i) == 0 by {
                assert(tail_cell(t, i) == 0);
            }
        }
        if blank_from(u, o) {
            assert forall|i: int| o <= i implies #[trigger] tail_cell(t, i) == 0 by {
                assert(tail_cell(u, i) == 0);
            }
        }
    }
    assert forall|o: int| dirty_from(t, o) == #[trigger] dirty_from(u, o) by {
        if dirty_from(t, o) {
            let i = choose|i: int| o <= i && #[trigger] tail_cell(t, i) != 0;
            assert(tail_cell(u, i) != 0);
        }
        if dirty_from(u, o) {
            let i = choose|i: int| o <= i && #[trigger] tail_cell(u, i) != 0;
            assert(tail_cell(t, i) != 0);
        }
    }
    assert forall|sp: SidePrefixSpill, o: int| spill_holds(sp, t, o) == #[trigger] spill_holds(sp, u, o) by {
        if let SidePrefixSpill::Run { color, count, farther_dirty } = sp {
            if spill_holds(sp, t, o) {
                let m = choose|m: int| spill_len_ok(count, m) && #[trigger] block(t, o, color, m) && (if farther_dirty {
                    dirty_from(t, o + m)
                } else {
                    blank_from(t, o + m)
                });
                assert(block(u, o, color, m));
                assert(blank_from(t, o + m) == blank_from(u, o + m));
                assert(dirty_from(t, o + m) == dirty_from(u, o + m));
            }
            if spill_holds(sp, u, o) {
                let m = choose|m: int| spill_len_ok(count, m) && #[trigger] block(u, o, color, m) && (if farther_dirty {
                    dirty_from(u, o + m)
                } else {
                    blank_from(u, o + m)
                });
                assert(block(t, o, color, m));
                assert(blank_from(t, o + m) == blank_from(u, o + m));
                assert(dirty_from(t, o + m) == dirty_from(u, o + m));
            }
        }
    }
    assert forall|n0: int, n1: int| holds_with(p, t, n0, n1) == #[trigger] holds_with(p, u, n0, n1) by {
        assert(block(t, 0, p.runs[0].color, n0) == block(u, 0, p.runs[0].color, n0));
        assert(block(t, n0, p.runs[1].color, n1) == block(u, n0, p.runs[1].color, n1));
        let o = if p.len == 0 { 0 } else if p.len == 1 { n0 } else { n0 + n1 };
        assert(spill_holds(p.spill, t, o) == spill_holds(p.spill, u, o));
    }
    if holds(p, t) {
        let (n0, n1) = choose|n0: int, n1: int| #[trigger] holds_with(p, t, n0, n1);
        assert(holds_with(p, u, n0, n1));
    }
    if holds(p, u) {
        let (n0, n1) = choose|n0: int, n1: int| #[trigger] holds_with(p, u, n0, n1);
        assert(holds_with(p, t, n0, n1));
    }
}

} // verus!
