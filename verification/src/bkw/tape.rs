//! The backward reasoner's tape descriptions.
//!
//! A description stands for a set of concrete tapes. Each side of the head
//! is a list of runs of one color, stored farthest first and nearest last,
//! followed by an end that is either all blanks (`0+`) or unknown (`?`).
//! A run holds either exactly `n` cells or some number of at least `n`.
use vstd::prelude::*;

use crate::config::Scan;
use crate::instrs::{Color, Shift};
use crate::text::{decimal, push_char, push_decimal};

verus! {

/// The number of backward steps taken.
pub type Steps = usize;

/// How a backward search ended.
#[derive(Debug, Clone, Copy, PartialEq, Eq, Structural)]
pub enum BackwardResult {
    /// A predecessor is the initial configuration.
    Init,
    StepLimit,
    DepthLimit,
    /// A run count would no longer fit.
    CountLimit,
    /// Every branch died out after this many steps.
    Refuted(Steps),
}

impl BackwardResult {
    pub fn is_refuted(&self) -> (r: bool)
        ensures
            r == (self is Refuted),
    {
        matches!(self, BackwardResult::Refuted(_))
    }
}

/// What lies beyond a span's explicit runs.
#[derive(Debug, Clone, Copy, PartialEq, Eq, Structural)]
pub enum TapeEnd {
    Blanks,
    Unknown,
}

pub type Count = u8;

/// The length of a run: exactly `n` cells, or any number of at least `n`.
#[derive(Debug, Clone, Copy, PartialEq, Eq, Structural)]
pub enum BlockCount {
    Exact(Count),
    AtLeast(Count),
}

/// The result of adding `add` definite cells to a count, or `None` where it
/// would no longer fit.
pub open spec fn add_exact_spec(c: BlockCount, add: Count) -> Option<BlockCount> {
    match c {
        BlockCount::Exact(n) => if n + add <= 255 { Some(BlockCount::Exact((n + add) as u8)) } else { None },
        BlockCount::AtLeast(n) => if n + add <= 255 { Some(BlockCount::AtLeast((n + add) as u8)) } else { None },
    }
}

/// The result of adding at least `add` cells to a count.
pub open spec fn add_at_least_spec(c: BlockCount, add: Count) -> Option<BlockCount> {
    if c.min_spec() + add <= 255 {
        Some(BlockCount::AtLeast((c.min_spec() + add) as u8))
    } else {
        None
    }
}

/// The count after one definite cell is taken away.
pub open spec fn decrement_spec(c: BlockCount) -> BlockCount {
    match c {
        BlockCount::Exact(n) => BlockCount::Exact((n - 1) as u8),
        BlockCount::AtLeast(n) => if n == 1 { BlockCount::AtLeast(1) } else { BlockCount::AtLeast((n - 1) as u8) },
    }
}

impl BlockCount {
    pub open spec fn min_spec(self) -> Count {
        match self {
            BlockCount::Exact(n) => n,
            BlockCount::AtLeast(n) => n,
        }
    }

    pub fn exact(count: Count) -> (r: Self)
        requires
            count > 0,
        ensures
            r == BlockCount::Exact(count),
    {
        BlockCount::Exact(count)
    }

    pub fn at_least(count: Count) -> (r: Self)
        requires
            count > 0,
        ensures
            r == BlockCount::AtLeast(count),
    {
        BlockCount::AtLeast(count)
    }

    /// The fewest cells the run can have.
    pub fn minimum(self) -> (r: Count)
        ensures
            r == self.min_spec(),
    {
        match self {
            BlockCount::Exact(count) => count,
            BlockCount::AtLeast(count) => count,
        }
    }

    pub fn is_single(self) -> (r: bool)
        ensures
            r == (self == BlockCount::Exact(1)),
    {
        matches!(self, BlockCount::Exact(1))
    }

    pub fn is_indef(self) -> (r: bool)
        ensures
            r == (self is AtLeast),
    {
        matches!(self, BlockCount::AtLeast(_))
    }

    pub fn can_be_one(self) -> (r: bool)
        ensures
            r == (self == BlockCount::AtLeast(1)),
    {
        matches!(self, BlockCount::AtLeast(1))
    }

    /// Adds `add` definite cells; fails with `CountLimit` where the count
    /// would no longer fit, leaving it unchanged.
    pub fn add_exact(&mut self, add: Count) -> (r: Result<(), BackwardResult>)
        ensures
            match add_exact_spec(*old(self), add) {
                Some(c) => r is Ok && *final(self) == c,
                None => r == Err::<(), BackwardResult>(BackwardResult::CountLimit) && *final(self) == *old(self),
            },
    {
        match *self {
            BlockCount::Exact(count) => match count.checked_add(add) {
                Some(n) => {
                    *self = BlockCount::Exact(n);
                    Ok(())
                },
                None => Err(BackwardResult::CountLimit),
            },
            BlockCount::AtLeast(count) => match count.checked_add(add) {
                Some(n) => {
                    *self = BlockCount::AtLeast(n);
                    Ok(())
                },
                None => Err(BackwardResult::CountLimit),
            },
        }
    }

    /// Adds at least `add` cells: the run becomes indefinite.
    pub fn add_at_least(&mut self, add: Count) -> (r: Result<(), BackwardResult>)
        ensures
            match add_at_least_spec(*old(self), add) {
                Some(c) => r is Ok && *final(self) == c,
                None => r == Err::<(), BackwardResult>(BackwardResult::CountLimit) && *final(self) == *old(self),
            },
    {
        match self.minimum().checked_add(add) {
            Some(n) => {
                *self = BlockCount::AtLeast(n);
                Ok(())
            },
            None => Err(BackwardResult::CountLimit),
        }
    }

    /// Removes one definitely present cell. `AtLeast(1)` stays `AtLeast(1)`:
    /// it is only used where the concrete run had at least two cells.
    pub fn decrement_after_pull(&mut self)
        requires
            *old(self) is Exact ==> old(self).min_spec() > 1,
            old(self).min_spec() > 0,
        ensures
            *final(self) == decrement_spec(*old(self)),
    {
        *self = match *self {
            BlockCount::Exact(count) => BlockCount::Exact(count - 1),
            BlockCount::AtLeast(count) => if count == 1 { BlockCount::AtLeast(1) } else { BlockCount::AtLeast(count - 1) },
        };
    }
}

/// A run of cells of one color.
#[derive(Debug, Clone, Copy, PartialEq, Eq, Structural)]
pub struct Block {
    pub color: Color,
    pub count: BlockCount,
}

impl Block {
    pub fn exact(color: Color, count: Count) -> (r: Self)
        requires
            count > 0,
        ensures
            r == (Block { color, count: BlockCount::Exact(count) }),
    {
        Block { color, count: BlockCount::exact(count) }
    }

    pub fn at_least(color: Color, count: Count) -> (r: Self)
        requires
            count > 0,
        ensures
            r == (Block { color, count: BlockCount::AtLeast(count) }),
    {
        Block { color, count: BlockCount::at_least(count) }
    }

    pub fn blank(&self) -> (r: bool)
        ensures
            r == (self.color == 0),
    {
        self.color == 0
    }

    /// The text of a run: `c`, `c^n`, `c..` or `c^n..`.
    pub open spec fn text(self) -> Seq<char> {
        match self.count {
            BlockCount::Exact(n) => if n == 1 { decimal(self.color as nat) } else {
                decimal(self.color as nat) + seq!['^'] + decimal(n as nat)
            },
            BlockCount::AtLeast(n) => if n == 1 { decimal(self.color as nat) + seq!['.', '.'] } else {
                decimal(self.color as nat) + seq!['^'] + decimal(n as nat) + seq!['.', '.']
            },
        }
    }

    /// Appends the text of the run.
    pub fn push_text(&self, s: &mut String)
        ensures
            final(s)@ == old(s)@ + self.text(),
    {
        push_decimal(s, self.color);
        match self.count {
            BlockCount::Exact(n) => {
                if n != 1 {
                    push_char(s, '^');
                    push_decimal(s, n);
                }
            },
            BlockCount::AtLeast(n) => {
                if n != 1 {
                    push_char(s, '^');
                    push_decimal(s, n);
                }
                push_char(s, '.');
                push_char(s, '.');
            },
        }
        assert(s@ =~= old(s)@ + self.text());
    }
}

/// Every run of a span has at least one cell.
pub open spec fn blocks_valid(bs: Seq<Block>) -> bool {
    forall|i: int| 0 <= i < bs.len() ==> (#[trigger] bs[i]).count.min_spec() > 0
}

/// Pushing `count` definite cells of `color` next to the head: they join
/// the nearest run where it has that color. `None` where its count would
/// no longer fit.
pub open spec fn push_exact_spec(bs: Seq<Block>, color: Color, count: Count) -> Option<Seq<Block>> {
    if bs.len() > 0 && bs.last().color == color {
        match add_exact_spec(bs.last().count, count) {
            Some(c) => Some(bs.update(bs.len() - 1, Block { color, count: c })),
            None => None,
        }
    } else {
        Some(bs.push(Block { color, count: BlockCount::Exact(count) }))
    }
}

/// Pushing at least `count` cells of `color` next to the head.
pub open spec fn push_at_least_spec(bs: Seq<Block>, color: Color, count: Count) -> Option<Seq<Block>> {
    if bs.len() > 0 && bs.last().color == color {
        match add_at_least_spec(bs.last().count, count) {
            Some(c) => Some(bs.update(bs.len() - 1, Block { color, count: c })),
            None => None,
        }
    } else {
        Some(bs.push(Block { color, count: BlockCount::AtLeast(count) }))
    }
}

/// Pushing a whole run next to the head.
pub open spec fn push_block_spec(bs: Seq<Block>, b: Block) -> Option<Seq<Block>> {
    match b.count {
        BlockCount::Exact(n) => push_exact_spec(bs, b.color, n),
        BlockCount::AtLeast(n) => push_at_least_spec(bs, b.color, n),
    }
}

/// The explicit runs of one side of the head, farthest first.
#[derive(Debug)]
pub struct SpanT {
    pub blocks: Vec<Block>,
}

impl Clone for SpanT {
    fn clone(&self) -> (r: Self)
        ensures
            r.blocks@ == self.blocks@,
    {
        let blocks = self.blocks.clone();
        assert(blocks@ =~= self.blocks@);
        SpanT { blocks }
    }
}

impl SpanT {
    pub fn init_blank() -> (r: Self)
        ensures
            r.blocks@ == Seq::<Block>::empty(),
    {
        SpanT { blocks: Vec::new() }
    }

    pub fn len(&self) -> (r: usize)
        ensures
            r == self.blocks@.len(),
    {
        self.blocks.len()
    }

    /// No explicit runs.
    pub fn blank(&self) -> (r: bool)
        ensures
            r == (self.blocks@.len() == 0),
    {
        self.blocks.len() == 0
    }

    /// The run nearest the head.
    pub fn first(&self) -> (r: Option<Block>)
        ensures
            r == (if self.blocks@.len() > 0 { Some(self.blocks@.last()) } else { None::<Block> }),
    {
        let n = self.blocks.len();
        if n == 0 {
            None
        } else {
            Some(self.blocks[n - 1])
        }
    }

    /// Removes and returns the run nearest the head.
    pub fn pop_block(&mut self) -> (r: Block)
        requires
            old(self).blocks@.len() > 0,
        ensures
            r == old(self).blocks@.last(),
            final(self).blocks@ == old(self).blocks@.drop_last(),
    {
        self.blocks.pop().unwrap()
    }

    /// Pushes `count` definite cells of `color` next to the head.
    pub fn push_exact(&mut self, color: Color, count: Count) -> (r: Result<(), BackwardResult>)
        requires
            count > 0,
        ensures
            match push_exact_spec(old(self).blocks@, color, count) {
                Some(bs) => r is Ok && final(self).blocks@ == bs,
                None => r == Err::<(), BackwardResult>(BackwardResult::CountLimit) && final(self).blocks@ == old(self).blocks@,
            },
    {
        let n = self.blocks.len();
        if n > 0 && self.blocks[n - 1].color == color {
            let mut block = self.blocks[n - 1];
            let r = block.count.add_exact(count);
            if r.is_ok() {
                self.blocks.set(n - 1, block);
            }
            return r;
        }
        self.blocks.push(Block::exact(color, count));
        Ok(())
    }

    /// Pushes at least `count` cells of `color` next to the head.
    pub fn push_at_least(&mut self, color: Color, count: Count) -> (r: Result<(), BackwardResult>)
        requires
            count > 0,
        ensures
            match push_at_least_spec(old(self).blocks@, color, count) {
                Some(bs) => r is Ok && final(self).blocks@ == bs,
                None => r == Err::<(), BackwardResult>(BackwardResult::CountLimit) && final(self).blocks@ == old(self).blocks@,
            },
    {
        let n = self.blocks.len();
        if n > 0 && self.blocks[n - 1].color == color {
            let mut block = self.blocks[n - 1];
            let r = block.count.add_at_least(count);
            if r.is_ok() {
                self.blocks.set(n - 1, block);
            }
            return r;
        }
        self.blocks.push(Block::at_least(color, count));
        Ok(())
    }

    /// Pushes a whole run next to the head.
    pub fn push_block(&mut self, block: &Block) -> (r: Result<(), BackwardResult>)
        requires
            block.count.min_spec() > 0,
        ensures
            match push_block_spec(old(self).blocks@, *block) {
                Some(bs) => r is Ok && final(self).blocks@ == bs,
                None => r == Err::<(), BackwardResult>(BackwardResult::CountLimit) && final(self).blocks@ == old(self).blocks@,
            },
    {
        match block.count {
            BlockCount::Exact(count) => self.push_exact(block.color, count),
            BlockCount::AtLeast(count) => self.push_at_least(block.color, count),
        }
    }
}

/// Adjacent runs have different colors.
pub open spec fn canonical(bs: Seq<Block>) -> bool {
    forall|i: int| 0 <= i < bs.len() - 1 ==> (#[trigger] bs[i]).color != bs[i + 1].color
}

/// A span's runs are all nonempty and adjacent runs differ in color.
pub open spec fn span_wf(bs: Seq<Block>) -> bool {
    blocks_valid(bs) && canonical(bs)
}

/// The runs after the head cell's neighbor is taken away: a single cell
/// run disappears, any other loses one cell.
pub open spec fn pull_spec(bs: Seq<Block>) -> Seq<Block> {
    if bs.len() == 0 {
        bs
    } else if bs.last().count == BlockCount::Exact(1) {
        bs.drop_last()
    } else {
        bs.update(bs.len() - 1, Block { color: bs.last().color, count: decrement_spec(bs.last().count) })
    }
}

/// The runs after one cell of `color` is pushed next to the head; a blank
/// pushed onto an empty all-blank side disappears into it.
pub open spec fn push_single_spec(bs: Seq<Block>, end: TapeEnd, color: Color) -> Option<Seq<Block>> {
    if bs.len() == 0 && color == 0 && end == TapeEnd::Blanks {
        Some(bs)
    } else {
        push_exact_spec(bs, color, 1)
    }
}

/// The runs after an indefinite run of `color` is pushed next to the head.
pub open spec fn push_indef_spec(bs: Seq<Block>, end: TapeEnd, color: Color) -> Option<Seq<Block>> {
    if color == 0 && bs.len() == 0 && end == TapeEnd::Blanks {
        Some(bs)
    } else {
        push_at_least_spec(bs, color, 1)
    }
}

/// Whether every explicit run is blank.
pub open spec fn all_blank(bs: Seq<Block>) -> bool {
    forall|i: int| 0 <= i < bs.len() ==> (#[trigger] bs[i]).color == 0
}

/// The runs without the blank runs at the far end.
pub open spec fn strip_far_blanks(bs: Seq<Block>) -> Seq<Block>
    decreases bs.len(),
{
    if bs.len() > 0 && bs[0].color == 0 {
        strip_far_blanks(bs.subrange(1, bs.len() as int))
    } else {
        bs
    }
}

/// The text of a span's end.
pub open spec fn end_text(end: TapeEnd) -> Seq<char> {
    match end {
        TapeEnd::Blanks => seq!['0', '+'],
        TapeEnd::Unknown => seq!['?'],
    }
}

pub proof fn lemma_push_exact_wf(bs: Seq<Block>, color: Color, count: Count)
    requires
        span_wf(bs),
        count > 0,
    ensures
        push_exact_spec(bs, color, count) matches Some(r) ==> span_wf(r),
{
}

pub proof fn lemma_push_at_least_wf(bs: Seq<Block>, color: Color, count: Count)
    requires
        span_wf(bs),
        count > 0,
    ensures
        push_at_least_spec(bs, color, count) matches Some(r) ==> span_wf(r),
{
}

/// One side of the head: explicit runs and what lies beyond them.
#[derive(Debug)]
pub struct Span {
    pub span: SpanT,
    pub end: TapeEnd,
}

impl Clone for Span {
    fn clone(&self) -> (r: Self)
        ensures
            r.span.blocks@ == self.span.blocks@,
            r.end == self.end,
    {
        Span { span: self.span.clone(), end: self.end }
    }
}

impl Span {
    pub open spec fn bs(&self) -> Seq<Block> {
        self.span.blocks@
    }

    pub open spec fn wf(&self) -> bool {
        span_wf(self.bs())
    }

    /// No explicit runs, blank beyond: `0+`.
    pub fn init_blank() -> (r: Self)
        ensures
            r.bs() == Seq::<Block>::empty(),
            r.end == TapeEnd::Blanks,
    {
        Span { span: SpanT::init_blank(), end: TapeEnd::Blanks }
    }

    /// No explicit runs, unknown beyond: `?`.
    pub fn init_unknown() -> (r: Self)
        ensures
            r.bs() == Seq::<Block>::empty(),
            r.end == TapeEnd::Unknown,
    {
        Span { span: SpanT::init_blank(), end: TapeEnd::Unknown }
    }

    /// One cell of `color` next to the head, unknown beyond.
    pub fn init_unknown_with(color: Color) -> (r: Self)
        ensures
            r.bs() == seq![Block { color, count: BlockCount::Exact(1) }],
            r.end == TapeEnd::Unknown,
    {
        let mut span = Span { span: SpanT::init_blank(), end: TapeEnd::Unknown };
        let _ = span.span.push_exact(color, 1);
        span
    }

    /// The text of the end: `0+` or `?`.
    pub fn end_str(&self) -> (r: &'static str)
        ensures
            r@ == end_text(self.end),
    {
        match self.end {
            TapeEnd::Blanks => {
                proof {
                    reveal_strlit("0+");
                }
                "0+"
            },
            TapeEnd::Unknown => {
                proof {
                    reveal_strlit("?");
                }
                "?"
            },
        }
    }

    /// Every explicit run is blank.
    pub fn blank(&self) -> (r: bool)
        ensures
            r == all_blank(self.bs()),
    {
        let mut i: usize = 0;
        while i < self.span.blocks.len()
            invariant
                i <= self.bs().len(),
                forall|j: int| 0 <= j < i ==> (#[trigger] self.bs()[j]).color == 0,
            decreases self.bs().len() - i,
        {
            if self.span.blocks[i].color != 0 {
                return false;
            }
            i += 1;
        }
        true
    }

    /// Whether the cell next to the head can have color `print`.
    pub fn matches_color(&self, print: Color) -> (r: bool)
        ensures
            r == (if self.bs().len() > 0 {
                self.bs().last().color == print
            } else {
                self.end == TapeEnd::Unknown || print == 0
            }),
    {
        match self.span.first() {
            Some(block) => block.color == print,
            None => match self.end {
                TapeEnd::Blanks => print == 0,
                TapeEnd::Unknown => true,
            },
        }
    }

    /// Takes away the cell next to the head.
    pub fn pull(&mut self)
        requires
            old(self).wf(),
        ensures
            final(self).bs() == pull_spec(old(self).bs()),
            final(self).end == old(self).end,
            final(self).wf(),
    {
        let n = self.span.blocks.len();
        if n == 0 {
            return;
        }
        let mut block = self.span.blocks[n - 1];
        if block.count.is_single() {
            self.span.pop_block();
        } else {
            assert(old(self).bs()[n - 1].count.min_spec() > 0);
            block.count.decrement_after_pull();
            self.span.blocks.set(n - 1, block);
        }
        assert(self.bs() =~= pull_spec(old(self).bs()));
    }

    /// Pushes one cell of `color` next to the head.
    pub fn push_single(&mut self, color: Color) -> (r: Result<(), BackwardResult>)
        requires
            old(self).wf(),
        ensures
            final(self).end == old(self).end,
            final(self).wf(),
            match push_single_spec(old(self).bs(), old(self).end, color) {
                Some(bs) => r is Ok && final(self).bs() == bs,
                None => r == Err::<(), BackwardResult>(BackwardResult::CountLimit) && final(self).bs() == old(self).bs(),
            },
    {
        proof {
            lemma_push_exact_wf(self.bs(), color, 1);
        }
        if self.span.blocks.len() == 0 && color == 0 && self.end == TapeEnd::Blanks {
            return Ok(());
        }
        self.span.push_exact(color, 1)
    }

    /// Pushes an indefinite run of `color` next to the head.
    pub fn push_indef(&mut self, color: Color) -> (r: Result<(), BackwardResult>)
        requires
            old(self).wf(),
        ensures
            final(self).end == old(self).end,
            final(self).wf(),
            match push_indef_spec(old(self).bs(), old(self).end, color) {
                Some(bs) => r is Ok && final(self).bs() == bs,
                None => r == Err::<(), BackwardResult>(BackwardResult::CountLimit) && final(self).bs() == old(self).bs(),
            },
    {
        proof {
            lemma_push_at_least_wf(self.bs(), color, 1);
        }
        if color == 0 && self.span.blank() && self.end == TapeEnd::Blanks {
            return Ok(());
        }
        self.span.push_at_least(color, 1)
    }

    /// Fixes the run next to the head, `c..`, at exactly one cell.
    pub fn set_head_to_one(&mut self)
        requires
            old(self).wf(),
            old(self).bs().len() > 0,
        ensures
            final(self).end == old(self).end,
            final(self).wf(),
            final(self).bs() == old(self).bs().update(
                old(self).bs().len() - 1,
                Block { color: old(self).bs().last().color, count: BlockCount::Exact(1) },
            ),
    {
        let n = self.span.blocks.len();
        let block = self.span.blocks[n - 1];
        self.span.blocks.set(n - 1, Block { color: block.color, count: BlockCount::Exact(1) });
    }

    /// Where the far end is all blank, drops explicit blank runs at the far
    /// end: `0+ 0 [x] ?` becomes `0+ [x] ?`.
    pub fn absorb_trailing_blanks(&mut self)
        requires
            old(self).wf(),
        ensures
            final(self).end == old(self).end,
            final(self).wf(),
            final(self).bs() == (if old(self).end == TapeEnd::Blanks {
                strip_far_blanks(old(self).bs())
            } else {
                old(self).bs()
            }),
    {
        if self.end != TapeEnd::Blanks {
            return;
        }
        let n = self.span.blocks.len();
        let mut k: usize = 0;
        assert(self.bs().subrange(0, n as int) =~= self.bs());
        while k < n && self.span.blocks[k].color == 0
            invariant
                n == self.bs().len(),
                k <= n,
                strip_far_blanks(self.bs().subrange(k as int, n as int)) == strip_far_blanks(self.bs()),
            decreases n - k,
        {
            assert(self.bs().subrange(k as int, n as int).subrange(1, n - k) =~= self.bs().subrange(k + 1, n as int));
            k += 1;
        }
        assert(strip_far_blanks(self.bs().subrange(k as int, n as int)) == self.bs().subrange(k as int, n as int));
        if k == 0 {
            assert(self.bs().subrange(0, n as int) =~= self.bs());
            return;
        }
        let mut rebuilt = SpanT::init_blank();
        let mut i = k;
        while i < n
            invariant
                n == self.bs().len(),
                k <= i <= n,
                span_wf(self.bs()),
                rebuilt.blocks@ == self.bs().subrange(k as int, i as int),
            decreases n - i,
        {
            let b = self.span.blocks[i];
            assert(b.count.min_spec() > 0);
            let _ = rebuilt.push_block(&b);
            assert(rebuilt.blocks@ =~= self.bs().subrange(k as int, i + 1));
            i += 1;
        }
        self.span = rebuilt;
    }
}

/// The nearest color of a side, where the description determines it: the
/// nearest run's color, or blank beyond an empty all-blank side.
pub open spec fn neighbor_color(bs: Seq<Block>, end: TapeEnd) -> Option<Color> {
    if bs.len() > 0 {
        Some(bs.last().color)
    } else if end == TapeEnd::Blanks {
        Some(0)
    } else {
        None
    }
}

/// The text of a left side's runs, farthest first, each followed by a space.
pub open spec fn left_text(bs: Seq<Block>) -> Seq<char>
    decreases bs.len(),
{
    if bs.len() == 0 {
        Seq::empty()
    } else {
        left_text(bs.drop_last()) + bs.last().text() + seq![' ']
    }
}

/// The text of a right side's runs, nearest first, each after a space.
pub open spec fn right_text(bs: Seq<Block>) -> Seq<char>
    decreases bs.len(),
{
    if bs.len() == 0 {
        Seq::empty()
    } else {
        seq![' '] + bs.last().text() + right_text(bs.drop_last())
    }
}

/// Whether no explicit run of a side has a forbidden color.
pub open spec fn side_allowed(bs: Seq<Block>, forbid: Seq<bool>) -> bool {
    forall|i: int| 0 <= i < bs.len() ==> (#[trigger] bs[i]).color < forbid.len() && !forbid[bs[i].color as int]
}

/// The parity (0 or 1) of the number of nonblank cells among a side's runs,
/// all of which are definite.
pub open spec fn nonblank_parity_of(bs: Seq<Block>) -> nat
    decreases bs.len(),
{
    if bs.len() == 0 {
        0
    } else {
        let p = nonblank_parity_of(bs.drop_last());
        let b = bs.last();
        if b.color != 0 && b.count.min_spec() % 2 == 1 { (1 - p) as nat } else { p }
    }
}

pub proof fn lemma_parity_bound(bs: Seq<Block>)
    ensures
        nonblank_parity_of(bs) <= 1,
    decreases bs.len(),
{
    if bs.len() > 0 {
        lemma_parity_bound(bs.drop_last());
    }
}

/// The residue modulo 3 of the number of nonblank cells among a side's
/// runs, all of which are definite.
pub open spec fn nonblank_mod3_of(bs: Seq<Block>) -> nat
    decreases bs.len(),
{
    if bs.len() == 0 {
        0
    } else {
        let p = nonblank_mod3_of(bs.drop_last());
        let b = bs.last();
        if b.color != 0 { ((p + b.count.min_spec() % 3) % 3) as nat } else { p }
    }
}

/// Whether a side has an indefinite nonblank run.
pub open spec fn has_indef_nonblank(bs: Seq<Block>) -> bool {
    exists|i: int| 0 <= i < bs.len() && (#[trigger] bs[i]).color != 0 && bs[i].count is AtLeast
}

/// Whether a side's nonblank count is fixed: its end is blank and every
/// nonblank run is definite.
pub open spec fn side_exact(bs: Seq<Block>, end: TapeEnd) -> bool {
    end == TapeEnd::Blanks && !has_indef_nonblank(bs)
}

/// The possible parities of a side's nonblank cells as a bit mask: bit 0
/// for even, bit 1 for odd.
pub open spec fn side_parity_mask_spec(bs: Seq<Block>, end: TapeEnd) -> u8 {
    if side_exact(bs, end) {
        if nonblank_parity_of(bs) == 0 { 1 } else { 2 }
    } else {
        3
    }
}

/// The possible residues modulo 3 of a side's nonblank cells as a mask.
pub open spec fn side_mod3_mask_spec(bs: Seq<Block>, end: TapeEnd) -> u8 {
    if side_exact(bs, end) {
        if nonblank_mod3_of(bs) == 0 { 1 } else if nonblank_mod3_of(bs) == 1 { 2 } else { 4 }
    } else {
        7
    }
}

/// Whether any explicit run of a side is nonblank.
pub open spec fn any_nonblank(bs: Seq<Block>) -> bool {
    exists|i: int| 0 <= i < bs.len() && (#[trigger] bs[i]).color != 0
}

/// Whether any explicit run of a side is blank.
pub open spec fn any_blank(bs: Seq<Block>) -> bool {
    exists|i: int| 0 <= i < bs.len() && (#[trigger] bs[i]).color == 0
}

/// Whether a nonblank run lies farther out than some blank run.
pub open spec fn nonblank_beyond_blank(bs: Seq<Block>) -> bool {
    exists|i: int, j: int| 0 <= i < j < bs.len() && (#[trigger] bs[i]).color != 0 && (#[trigger] bs[j]).color == 0
}

/// The "fresh zero" rule for one side: reject a nonblank run beyond an
/// explicit blank one; otherwise, where an explicit blank run exists, the
/// side ends in blanks and its far blank runs are absorbed.
pub open spec fn fresh_zero_side(bs: Seq<Block>, end: TapeEnd) -> Option<(Seq<Block>, TapeEnd)> {
    if nonblank_beyond_blank(bs) {
        None
    } else if any_blank(bs) {
        Some((strip_far_blanks(bs), TapeEnd::Blanks))
    } else {
        Some((bs, end))
    }
}

/// A backward tape description: the scanned color and both sides.
#[derive(Debug)]
pub struct Tape {
    pub scan: Color,
    pub lspan: Span,
    pub rspan: Span,
}

impl Clone for Tape {
    fn clone(&self) -> (r: Self)
        ensures
            r.same(*self),
    {
        Tape { scan: self.scan, lspan: self.lspan.clone(), rspan: self.rspan.clone() }
    }
}

impl Scan for Tape {
    open spec fn scan_spec(&self) -> Color {
        self.scan
    }

    fn scan(&self) -> (c: Color) {
        self.scan
    }
}

impl Tape {
    /// Both sides are well formed.
    pub open spec fn wf(&self) -> bool {
        self.lspan.wf() && self.rspan.wf()
    }

    /// The two descriptions are the same.
    pub open spec fn same(&self, other: Tape) -> bool {
        &&& self.scan == other.scan
        &&& self.lspan.bs() == other.lspan.bs()
        &&& self.lspan.end == other.lspan.end
        &&& self.rspan.bs() == other.rspan.bs()
        &&& self.rspan.end == other.rspan.end
    }

    /// The text of the description, as in `0+ 1^2 [0] 2.. ?`.
    pub open spec fn text(&self) -> Seq<char> {
        end_text(self.lspan.end) + seq![' '] + left_text(self.lspan.bs()) + seq!['['] + decimal(
            self.scan as nat,
        ) + seq![']'] + right_text(self.rspan.bs()) + seq![' '] + end_text(self.rspan.end)
    }

    /// A tape from its parts.
    pub fn new(scan: Color, lspan: Span, rspan: Span) -> (r: Self)
        ensures
            r.scan == scan,
            r.lspan == lspan,
            r.rspan == rspan,
    {
        Tape { scan, lspan, rspan }
    }

    /// `? [scan] ?`: the tape at a halt, with everything else unknown.
    pub fn init_halt(scan: Color) -> (r: Self)
        ensures
            r.scan == scan,
            r.lspan.bs().len() == 0 && r.lspan.end == TapeEnd::Unknown,
            r.rspan.bs().len() == 0 && r.rspan.end == TapeEnd::Unknown,
            r.wf(),
    {
        Tape { scan, lspan: Span::init_unknown(), rspan: Span::init_unknown() }
    }

    /// `0+ [scan] 0+`: all blank but the scanned cell.
    pub fn init_blank(scan: Color) -> (r: Self)
        ensures
            r.scan == scan,
            r.lspan.bs().len() == 0 && r.lspan.end == TapeEnd::Blanks,
            r.rspan.bs().len() == 0 && r.rspan.end == TapeEnd::Blanks,
            r.wf(),
    {
        Tape { scan, lspan: Span::init_blank(), rspan: Span::init_blank() }
    }

    /// A blank cell at the edge of the written tape on side `dir`.
    pub fn init_spinout(dir: Shift) -> (r: Self)
        ensures
            r.scan == 0,
            r.lspan.bs().len() == 0 && r.rspan.bs().len() == 0,
            r.lspan.end == (if dir { TapeEnd::Unknown } else { TapeEnd::Blanks }),
            r.rspan.end == (if dir { TapeEnd::Blanks } else { TapeEnd::Unknown }),
            r.wf(),
    {
        if dir {
            Self::init_r_spinout()
        } else {
            Self::init_l_spinout()
        }
    }

    /// `? [0] 0+`
    pub fn init_r_spinout() -> (r: Self)
        ensures
            r.scan == 0,
            r.lspan.bs().len() == 0 && r.lspan.end == TapeEnd::Unknown,
            r.rspan.bs().len() == 0 && r.rspan.end == TapeEnd::Blanks,
            r.wf(),
    {
        Tape { scan: 0, lspan: Span::init_unknown(), rspan: Span::init_blank() }
    }

    /// `0+ [0] ?`
    pub fn init_l_spinout() -> (r: Self)
        ensures
            r.scan == 0,
            r.lspan.bs().len() == 0 && r.lspan.end == TapeEnd::Blanks,
            r.rspan.bs().len() == 0 && r.rspan.end == TapeEnd::Unknown,
            r.wf(),
    {
        Tape { scan: 0, lspan: Span::init_blank(), rspan: Span::init_unknown() }
    }

    /// `? [l_co] r_co ?`: two known adjacent cells.
    pub fn init_twostep(l_co: Color, r_co: Color) -> (r: Self)
        ensures
            r.scan == l_co,
            r.lspan.bs().len() == 0 && r.lspan.end == TapeEnd::Unknown,
            r.rspan.bs() == seq![Block { color: r_co, count: BlockCount::Exact(1) }],
            r.rspan.end == TapeEnd::Unknown,
            r.wf(),
    {
        Tape { scan: l_co, lspan: Span::init_unknown(), rspan: Span::init_unknown_with(r_co) }
    }

    /// Whether the scanned cell and every explicit run are blank.
    pub fn blank(&self) -> (r: bool)
        ensures
            r == (self.scan == 0 && all_blank(self.lspan.bs()) && all_blank(self.rspan.bs())),
    {
        self.scan == 0 && self.lspan.blank() && self.rspan.blank()
    }

    /// The color left of the head, where determined.
    pub fn left_neighbor_color(&self) -> (r: Option<Color>)
        ensures
            r == neighbor_color(self.lspan.bs(), self.lspan.end),
    {
        match self.lspan.span.first() {
            Some(b) => Some(b.color),
            None => if self.lspan.end == TapeEnd::Blanks { Some(0) } else { None },
        }
    }

    /// The color right of the head, where determined.
    pub fn right_neighbor_color(&self) -> (r: Option<Color>)
        ensures
            r == neighbor_color(self.rspan.bs(), self.rspan.end),
    {
        match self.rspan.span.first() {
            Some(b) => Some(b.color),
            None => if self.rspan.end == TapeEnd::Blanks { Some(0) } else { None },
        }
    }

    /// Whether this description can follow a step that printed `print` and
    /// moved by `shift`: the cell left behind must be able to hold `print`.
    pub fn is_valid_step(&self, shift: Shift, print: Color) -> (r: bool)
        ensures
            r == (if shift {
                if self.lspan.bs().len() > 0 { self.lspan.bs().last().color == print } else { self.lspan.end == TapeEnd::Unknown || print == 0 }
            } else {
                if self.rspan.bs().len() > 0 { self.rspan.bs().last().color == print } else { self.rspan.end == TapeEnd::Unknown || print == 0 }
            }),
    {
        if shift {
            self.lspan.matches_color(print)
        } else {
            self.rspan.matches_color(print)
        }
    }

    /// Whether a same-state step reading `read` could have come from a run
    /// of `read` cells: the scanned color is `read` and the side that the
    /// head came from has no explicit runs.
    pub fn is_spinout(&self, shift: Shift, read: Color) -> (r: bool)
        ensures
            r == (self.scan == read && (if shift { self.lspan.bs().len() == 0 } else { self.rspan.bs().len() == 0 })),
    {
        if self.scan != read {
            return false;
        }
        if shift {
            self.lspan.span.blank()
        } else {
            self.rspan.span.blank()
        }
    }

    /// Whether the run to be pulled on side `shift` is `c..`, which needs a
    /// separate branch for a concrete run of one cell.
    pub fn pull_needs_count_one_split(&self, shift: Shift) -> (r: bool)
        ensures
            r == (if shift {
                self.lspan.bs().len() > 0 && self.lspan.bs().last().count == BlockCount::AtLeast(1)
            } else {
                self.rspan.bs().len() > 0 && self.rspan.bs().last().count == BlockCount::AtLeast(1)
            }),
    {
        let block = if shift { self.lspan.span.first() } else { self.rspan.span.first() };
        match block {
            None => false,
            Some(b) => b.count.can_be_one(),
        }
    }

    /// Undoes a step that moved by `shift` from a cell that read `read`:
    /// the neighbor on the side moved to is pulled back under the head and
    /// the scanned cell is pushed onto the other side.
    pub fn backstep(&mut self, shift: Shift, read: Color) -> (r: Result<(), BackwardResult>)
        requires
            old(self).wf(),
        ensures
            final(self).wf(),
            ({
                let (pull0, push0) = if shift { (old(self).lspan, old(self).rspan) } else { (old(self).rspan, old(self).lspan) };
                let (pull1, push1) = if shift { (final(self).lspan, final(self).rspan) } else { (final(self).rspan, final(self).lspan) };
                &&& pull1.bs() == pull_spec(pull0.bs())
                &&& pull1.end == pull0.end
                &&& push1.end == push0.end
                &&& match push_single_spec(push0.bs(), push0.end, old(self).scan) {
                    Some(bs) => r is Ok && push1.bs() == bs && final(self).scan == read,
                    None => r == Err::<(), BackwardResult>(BackwardResult::CountLimit) && push1.bs() == push0.bs()
                        && final(self).scan == old(self).scan,
                }
            }),
    {
        let scan = self.scan;
        if shift {
            self.lspan.pull();
            let r = self.rspan.push_single(scan);
            if r.is_err() {
                return r;
            }
        } else {
            self.rspan.pull();
            let r = self.lspan.push_single(scan);
            if r.is_err() {
                return r;
            }
        }
        self.scan = read;
        Ok(())
    }

    /// Pushes an indefinite run of the scanned color on side `shift`.
    pub fn push_indef(&mut self, shift: Shift) -> (r: Result<(), BackwardResult>)
        requires
            old(self).wf(),
        ensures
            final(self).wf(),
            final(self).scan == old(self).scan,
            ({
                let (other0, push0) = if shift { (old(self).lspan, old(self).rspan) } else { (old(self).rspan, old(self).lspan) };
                let (other1, push1) = if shift { (final(self).lspan, final(self).rspan) } else { (final(self).rspan, final(self).lspan) };
                &&& other1.bs() == other0.bs()
                &&& other1.end == other0.end
                &&& push1.end == push0.end
                &&& match push_indef_spec(push0.bs(), push0.end, old(self).scan) {
                    Some(bs) => r is Ok && push1.bs() == bs,
                    None => r == Err::<(), BackwardResult>(BackwardResult::CountLimit) && push1.bs() == push0.bs(),
                }
            }),
    {
        let scan = self.scan;
        if shift {
            self.rspan.push_indef(scan)
        } else {
            self.lspan.push_indef(scan)
        }
    }

    /// Whether no explicit run has a color forbidden on its side.
    pub fn obeys_shift_side(&self, forbid_left: &Vec<bool>, forbid_right: &Vec<bool>) -> (r: bool)
        ensures
            r == (side_allowed(self.lspan.bs(), forbid_left@) && side_allowed(self.rspan.bs(), forbid_right@)),
    {
        side_obeys(&self.lspan, forbid_left) && side_obeys(&self.rspan, forbid_right)
    }

    /// Where a side is forced to be blank, requires it to have no nonblank
    /// run and makes it `0+`; fails otherwise.
    pub fn tighten_forced_blank_ends(&mut self, left_forced_blank: bool, right_forced_blank: bool) -> (r: bool)
        requires
            old(self).wf(),
        ensures
            final(self).wf(),
            final(self).scan == old(self).scan,
            r == ((!left_forced_blank || all_blank(old(self).lspan.bs())) && (!right_forced_blank || all_blank(old(self).rspan.bs()))),
            r ==> (if left_forced_blank { final(self).lspan.bs().len() == 0 && final(self).lspan.end == TapeEnd::Blanks } else {
                final(self).lspan.bs() == old(self).lspan.bs() && final(self).lspan.end == old(self).lspan.end }),
            r ==> (if right_forced_blank { final(self).rspan.bs().len() == 0 && final(self).rspan.end == TapeEnd::Blanks } else {
                final(self).rspan.bs() == old(self).rspan.bs() && final(self).rspan.end == old(self).rspan.end }),
    {
        if left_forced_blank {
            if !self.lspan.blank() {
                return false;
            }
            self.lspan = Span::init_blank();
        }
        if right_forced_blank {
            if !self.rspan.blank() {
                return false;
            }
            self.rspan = Span::init_blank();
        }
        true
    }

    /// The possible parities of the number of nonblank cells on the whole
    /// tape: bit 0 even, bit 1 odd; both where a side is unknown or has an
    /// indefinite nonblank run.
    pub fn nonblank_parity_mask(&self) -> (r: u8)
        ensures
            r == (if side_exact(self.lspan.bs(), self.lspan.end) && side_exact(self.rspan.bs(), self.rspan.end) {
                if ((if self.scan != 0 { 1nat } else { 0nat }) + nonblank_parity_of(self.lspan.bs()) + nonblank_parity_of(self.rspan.bs())) % 2 == 0 { 1u8 } else { 2u8 }
            } else {
                3u8
            }),
    {
        proof {
            lemma_parity_bound(self.lspan.bs());
            lemma_parity_bound(self.rspan.bs());
        }
        let l = side_parity(&self.lspan);
        let r = side_parity(&self.rspan);
        match (l, r) {
            (Some(lp), Some(rp)) => {
                let p = ((if self.scan != 0 { 1u8 } else { 0u8 }) + lp + rp) % 2;
                if p == 0 { 1 } else { 2 }
            },
            _ => 3,
        }
    }

    /// The possible parities of each side's nonblank cells, as masks.
    pub fn side_nonblank_parity_masks(&self) -> (r: (u8, u8))
        ensures
            r == (side_parity_mask_spec(self.lspan.bs(), self.lspan.end), side_parity_mask_spec(self.rspan.bs(), self.rspan.end)),
    {
        proof {
            lemma_parity_bound(self.lspan.bs());
            lemma_parity_bound(self.rspan.bs());
        }
        let l = match side_parity(&self.lspan) {
            Some(p) => if p == 0 { 1u8 } else { 2u8 },
            None => 3,
        };
        let r = match side_parity(&self.rspan) {
            Some(p) => if p == 0 { 1u8 } else { 2u8 },
            None => 3,
        };
        (l, r)
    }

    /// The possible residues modulo 3 of each side's nonblank cells.
    pub fn side_nonblank_mod3_masks(&self) -> (r: (u8, u8))
        ensures
            r == (side_mod3_mask_spec(self.lspan.bs(), self.lspan.end), side_mod3_mask_spec(self.rspan.bs(), self.rspan.end)),
    {
        (side_mod3_mask(&self.lspan), side_mod3_mask(&self.rspan))
    }

    /// The one-sided "fresh blank" rules. Where blank is never printed
    /// moving right, a blank left of the head was never visited, so nothing
    /// nonblank lies beyond it and the side ends in blanks (and likewise on
    /// the right for moves left). Where both hold and the scanned cell is
    /// blank, the visited cells lie on one side, so a side opposite an
    /// explicit nonblank cell is all blank. Fails where these rules exclude
    /// the description.
    pub fn enforce_fresh_zero_side_invariants(&mut self, left_fresh_zero: bool, right_fresh_zero: bool) -> (r: bool)
        requires
            old(self).wf(),
        ensures
            final(self).wf(),
            final(self).scan == old(self).scan,
            ({
                let l1 = if left_fresh_zero { fresh_zero_side(old(self).lspan.bs(), old(self).lspan.end) } else { Some((old(self).lspan.bs(), old(self).lspan.end)) };
                let r1 = if right_fresh_zero { fresh_zero_side(old(self).rspan.bs(), old(self).rspan.end) } else { Some((old(self).rspan.bs(), old(self).rspan.end)) };
                let both = old(self).scan == 0 && left_fresh_zero && right_fresh_zero;
                &&& r == (l1 is Some && r1 is Some && !(both && any_nonblank((l1->0).0) && any_nonblank((r1->0).0)))
                &&& r ==> {
                    let (lb, le) = l1->0;
                    let (rb, re) = r1->0;
                    &&& (if both && any_nonblank(rb) {
                        final(self).lspan.bs().len() == 0 && final(self).lspan.end == TapeEnd::Blanks
                    } else {
                        final(self).lspan.bs() == lb && final(self).lspan.end == le
                    })
                    &&& (if both && any_nonblank(lb) {
                        final(self).rspan.bs().len() == 0 && final(self).rspan.end == TapeEnd::Blanks
                    } else {
                        final(self).rspan.bs() == rb && final(self).rspan.end == re
                    })
                }
            }),
    {
        if left_fresh_zero {
            if !check_fresh_zero_side(&mut self.lspan) {
                return false;
            }
        }
        if right_fresh_zero {
            if !check_fresh_zero_side(&mut self.rspan) {
                return false;
            }
        }
        if self.scan == 0 && left_fresh_zero && right_fresh_zero {
            let left_nonblank = has_nonblank(&self.lspan);
            let right_nonblank = has_nonblank(&self.rspan);
            if left_nonblank && right_nonblank {
                return false;
            } else if left_nonblank {
                self.rspan = Span::init_blank();
            } else if right_nonblank {
                self.lspan = Span::init_blank();
            }
        }
        true
    }

    /// Whether two descriptions are the same.
    pub fn equals(&self, other: &Tape) -> (r: bool)
        ensures
            r == self.same(*other),
    {
        self.scan == other.scan && self.lspan.end == other.lspan.end && self.rspan.end == other.rspan.end
            && blocks_equal(&self.lspan.span.blocks, &other.lspan.span.blocks)
            && blocks_equal(&self.rspan.span.blocks, &other.rspan.span.blocks)
    }

    /// The text of the description.
    pub fn to_string(&self) -> (s: String)
        ensures
            s@ == self.text(),
    {
        let mut s = String::new();
        let lend = self.lspan.end_str();
        s.append(lend);
        push_char(&mut s, ' ');
        let lb = &self.lspan.span.blocks;
        let ghost base = s@;
        let mut i: usize = 0;
        while i < lb.len()
            invariant
                i <= lb@.len(),
                s@ == base + left_text(lb@.subrange(0, i as int)),
            decreases lb@.len() - i,
        {
            lb[i].push_text(&mut s);
            push_char(&mut s, ' ');
            assert(lb@.subrange(0, i + 1).drop_last() =~= lb@.subrange(0, i as int));
            i += 1;
            assert(s@ =~= base + left_text(lb@.subrange(0, i as int)));
        }
        assert(lb@.subrange(0, lb@.len() as int) =~= lb@);
        push_char(&mut s, '[');
        push_decimal(&mut s, self.scan);
        push_char(&mut s, ']');
        let rb = &self.rspan.span.blocks;
        let ghost base2 = s@;
        let mut j: usize = rb.len();
        assert(rb@.subrange(0, j as int) =~= rb@);
        while j > 0
            invariant
                j <= rb@.len(),
                s@ + right_text(rb@.subrange(0, j as int)) == base2 + right_text(rb@),
            decreases j,
        {
            let ghost before = s@;
            push_char(&mut s, ' ');
            rb[j - 1].push_text(&mut s);
            assert(rb@.subrange(0, j as int).drop_last() =~= rb@.subrange(0, j - 1));
            assert(s@ + right_text(rb@.subrange(0, j - 1)) =~= before + right_text(rb@.subrange(0, j as int)));
            j -= 1;
        }
        assert(s@ =~= base2 + right_text(rb@));
        push_char(&mut s, ' ');
        let rend = self.rspan.end_str();
        s.append(rend);
        assert(s@ =~= self.text());
        s
    }
}

/// Whether a side has an explicit nonblank run.
fn has_nonblank(span: &Span) -> (r: bool)
    ensures
        r == any_nonblank(span.bs()),
{
    let bs = &span.span.blocks;
    let mut i: usize = 0;
    while i < bs.len()
        invariant
            i <= bs@.len(),
            bs@ == span.bs(),
            forall|j: int| 0 <= j < i ==> (#[trigger] bs@[j]).color == 0,
        decreases bs@.len() - i,
    {
        if bs[i].color != 0 {
            assert(bs@[i as int].color != 0);
            return true;
        }
        i += 1;
    }
    false
}

/// The fresh-blank rule on one side (see `fresh_zero_side`).
fn check_fresh_zero_side(span: &mut Span) -> (r: bool)
    requires
        old(span).wf(),
    ensures
        final(span).wf(),
        r == fresh_zero_side(old(span).bs(), old(span).end) is Some,
        r ==> (final(span).bs(), final(span).end) == fresh_zero_side(old(span).bs(), old(span).end)->0,
{
    let n = span.span.blocks.len();
    let mut seen_zero = false;
    let mut i: usize = n;
    while i > 0
        invariant
            i <= n,
            n == span.bs().len(),
            span.wf(),
            seen_zero == exists|j: int| i <= j < n && (#[trigger] span.bs()[j]).color == 0,
            !(exists|a: int, b: int| i <= a < b < n && (#[trigger] span.bs()[a]).color != 0 && (#[trigger] span.bs()[b]).color == 0),
        decreases i,
    {
        let c = span.span.blocks[i - 1].color;
        if seen_zero && c != 0 {
            let ghost b = choose|j: int| i <= j < n && (#[trigger] span.bs()[j]).color == 0;
            assert(span.bs()[i - 1].color != 0 && span.bs()[b].color == 0);
            assert(nonblank_beyond_blank(span.bs()));
            return false;
        }
        if c == 0 {
            seen_zero = true;
        }
        i -= 1;
    }
    assert(seen_zero == any_blank(span.bs()));
    if seen_zero {
        span.end = TapeEnd::Blanks;
        span.absorb_trailing_blanks();
    }
    true
}

/// Whether two lists of runs are equal.
fn blocks_equal(a: &Vec<Block>, b: &Vec<Block>) -> (r: bool)
    ensures
        r == (a@ == b@),
{
    if a.len() != b.len() {
        return false;
    }
    let mut i: usize = 0;
    while i < a.len()
        invariant
            a@.len() == b@.len(),
            i <= a@.len(),
            forall|j: int| 0 <= j < i ==> a@[j] == b@[j],
        decreases a@.len() - i,
    {
        if a[i] != b[i] {
            return false;
        }
        i += 1;
    }
    assert(a@ =~= b@);
    true
}

/// Whether no explicit run of a side has a forbidden color.
fn side_obeys(span: &Span, forbid: &Vec<bool>) -> (r: bool)
    ensures
        r == side_allowed(span.bs(), forbid@),
{
    let bs = &span.span.blocks;
    let mut i: usize = 0;
    while i < bs.len()
        invariant
            i <= bs@.len(),
            bs@ == span.bs(),
            forall|j: int| 0 <= j < i ==> (#[trigger] bs@[j]).color < forbid@.len() && !forbid@[bs@[j].color as int],
        decreases bs@.len() - i,
    {
        let c = bs[i].color as usize;
        if c >= forbid.len() || forbid[c] {
            return false;
        }
        i += 1;
    }
    true
}

/// The parity of a side's nonblank cells, where it is fixed.
fn side_parity(span: &Span) -> (r: Option<u8>)
    ensures
        r == (if side_exact(span.bs(), span.end) { Some(nonblank_parity_of(span.bs()) as u8) } else { None::<u8> }),
        r matches Some(p) ==> p <= 1,
{
    proof {
        lemma_parity_bound(span.bs());
    }
    if span.end == TapeEnd::Unknown {
        return None;
    }
    let bs = &span.span.blocks;
    let mut parity: u8 = 0;
    let mut i: usize = 0;
    while i < bs.len()
        invariant
            i <= bs@.len(),
            bs@ == span.bs(),
            !has_indef_nonblank(bs@.subrange(0, i as int)),
            parity as nat == nonblank_parity_of(bs@.subrange(0, i as int)),
            parity <= 1,
        decreases bs@.len() - i,
    {
        let b = bs[i];
        assert(bs@.subrange(0, i + 1).drop_last() =~= bs@.subrange(0, i as int));
        if b.color != 0 {
            if b.count.is_indef() {
                assert(bs@[i as int].color != 0 && bs@[i as int].count is AtLeast);
                return None;
            }
            if b.count.minimum() % 2 == 1 {
                parity = 1 - parity;
            }
        }
        i += 1;
        assert(!has_indef_nonblank(bs@.subrange(0, i as int))) by {
            if has_indef_nonblank(bs@.subrange(0, i as int)) {
                let k = choose|k: int| 0 <= k < i && (#[trigger] bs@.subrange(0, i as int)[k]).color != 0
                    && bs@.subrange(0, i as int)[k].count is AtLeast;
                if k < i - 1 {
                    assert(bs@.subrange(0, i - 1)[k] == bs@[k]);
                }
            }
        }
    }
    assert(bs@.subrange(0, bs@.len() as int) =~= bs@);
    Some(parity)
}

/// The mask of possible residues modulo 3 of a side's nonblank cells.
fn side_mod3_mask(span: &Span) -> (r: u8)
    ensures
        r == side_mod3_mask_spec(span.bs(), span.end),
{
    if span.end == TapeEnd::Unknown {
        return 7;
    }
    let bs = &span.span.blocks;
    let mut residue: u8 = 0;
    let mut i: usize = 0;
    while i < bs.len()
        invariant
            i <= bs@.len(),
            bs@ == span.bs(),
            span.end == TapeEnd::Blanks,
            !has_indef_nonblank(bs@.subrange(0, i as int)),
            residue as nat == nonblank_mod3_of(bs@.subrange(0, i as int)),
            residue < 3,
        decreases bs@.len() - i,
    {
        let b = bs[i];
        assert(bs@.subrange(0, i + 1).drop_last() =~= bs@.subrange(0, i as int));
        if b.color != 0 {
            if b.count.is_indef() {
                assert(bs@[i as int].color != 0 && bs@[i as int].count is AtLeast);
                return 7;
            }
            residue = (residue + b.count.minimum() % 3) % 3;
        }
        i += 1;
        assert(!has_indef_nonblank(bs@.subrange(0, i as int))) by {
            if has_indef_nonblank(bs@.subrange(0, i as int)) {
                let k = choose|k: int| 0 <= k < i && (#[trigger] bs@.subrange(0, i as int)[k]).color != 0
                    && bs@.subrange(0, i as int)[k].count is AtLeast;
                if k < i - 1 {
                    assert(bs@.subrange(0, i - 1)[k] == bs@[k]);
                }
            }
        }
    }
    assert(bs@.subrange(0, bs@.len() as int) =~= bs@);
    if residue == 0 { 1 } else if residue == 1 { 2 } else { 4 }
}

} // verus!
