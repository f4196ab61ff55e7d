//! A Turing machine program: a table from slots (state, scanned color) to
//! optional instructions.
use vstd::prelude::*;

use crate::instrs::{
    Color, Instr, Shift, Slot, State, instr_showable, opt_instr_readable, push_opt_instr,
    read_opt_instr_chars, read_opt_instr_spec, show_opt_instr_spec,
};
use crate::text::{chars_of, push_char};
use std::collections::BTreeSet;
use vstd::std_specs::btree::spec_btree_keys_iter;
use vstd::std_specs::iter::IteratorSpec;

verus! {

broadcast use vstd::std_specs::btree::group_btree_axioms, vstd::laws_cmp::group_laws_cmp;

/// Whitespace that surrounds a program's text.
pub open spec fn is_space(c: char) -> bool {
    c == ' ' || c == '\t' || c == '\n' || c == '\r'
}

/// Index of the first non-whitespace character at or after `i`.
pub open spec fn lead_from(s: Seq<char>, i: int) -> int
    decreases s.len() - i,
{
    if 0 <= i < s.len() && is_space(s[i]) {
        lead_from(s, i + 1)
    } else {
        i
    }
}

/// One past the last non-whitespace character at or before `j`, not going
/// below `lo`.
pub open spec fn trail_from(s: Seq<char>, j: int, lo: int) -> int
    decreases j - lo,
{
    if lo < j <= s.len() && is_space(s[j - 1]) {
        trail_from(s, j - 1, lo)
    } else {
        j
    }
}

/// The text without leading and trailing whitespace.
pub open spec fn trim(s: Seq<char>) -> Seq<char> {
    let lo = lead_from(s, 0);
    s.subrange(lo, trail_from(s, s.len() as int, lo))
}

/// Where a program's text is in its reading: the cell being read, whether
/// one separating space has just been seen, the text of the current cell,
/// the table so far, and whether every cell read so far was readable.
pub struct ReadState {
    pub row: int,
    pub col: int,
    pub pending: bool,
    pub tok: Seq<char>,
    pub table: Seq<Option<Instr>>,
    pub ok: bool,
}

/// Stores the current cell's instruction when the cell is in the table.
pub open spec fn place_cell(r: ReadState, states: int, colors: int) -> ReadState {
    if 0 <= r.row < states && 0 <= r.col < colors {
        if opt_instr_readable(r.tok) {
            match read_opt_instr_spec(r.tok) {
                Some(i) => ReadState {
                    table: r.table.update(cell_index(r.row, r.col, colors), Some(i)),
                    ..r
                },
                None => r,
            }
        } else {
            ReadState { ok: false, ..r }
        }
    } else {
        r
    }
}

/// One character of a program's text: a single space ends a cell, two end a
/// row, anything else belongs to the current cell.
pub open spec fn read_step(r: ReadState, ch: char, states: int, colors: int) -> ReadState {
    if ch == ' ' {
        if r.pending {
            ReadState { row: r.row + 1, col: 0, pending: false, ..r }
        } else {
            ReadState { tok: Seq::empty(), pending: true, ..place_cell(r, states, colors) }
        }
    } else if r.pending {
        ReadState { col: r.col + 1, pending: false, tok: seq![ch], ..r }
    } else {
        ReadState { tok: r.tok.push(ch), ..r }
    }
}

/// The empty table of a program of the given size.
pub open spec fn empty_table(n: int) -> Seq<Option<Instr>> {
    Seq::new(n as nat, |i: int| None)
}

/// The reading after the first `n` characters.
pub open spec fn read_prefix(cs: Seq<char>, n: int, states: int, colors: int) -> ReadState
    decreases n,
{
    if n <= 0 {
        ReadState {
            row: 0,
            col: 0,
            pending: false,
            tok: Seq::empty(),
            table: empty_table(states * colors),
            ok: true,
        }
    } else {
        read_step(read_prefix(cs, n - 1, states, colors), cs[n - 1], states, colors)
    }
}

/// The reading of a whole (trimmed) program text, last cell included.
pub open spec fn read_prog_text(cs: Seq<char>, states: int, colors: int) -> ReadState {
    place_cell(read_prefix(cs, cs.len() as int, states, colors), states, colors)
}

/// Position of a slot in the flat, row-major table.
pub open spec fn cell_index(st: int, co: int, colors: int) -> int {
    st * colors + co
}

pub proof fn lemma_cell_index_bounds(st: int, co: int, states: int, colors: int)
    requires
        0 <= st < states,
        0 <= co < colors,
    ensures
        0 <= cell_index(st, co, colors) < states * colors,
        cell_index(st, co, colors) + 1 <= (st + 1) * colors,
        (st + 1) * colors == cell_index(st, co, colors) - co + colors,
{
    assert(0 <= st * colors) by (nonlinear_arith)
        requires 0 <= st, 0 <= colors;
    assert(st * colors + co < states * colors) by (nonlinear_arith)
        requires 0 <= st < states, 0 <= co < colors;
    assert((st + 1) * colors == st * colors + colors) by (nonlinear_arith);
}

/// A copy of a table.
fn copy_table<T: Copy>(v: &Vec<T>) -> (r: Vec<T>)
    ensures
        r@ == v@,
{
    let mut r: Vec<T> = Vec::new();
    let mut i: usize = 0;
    while i < v.len()
        invariant
            i <= v@.len(),
            r@ == v@.subrange(0, i as int),
        decreases v@.len() - i,
    {
        r.push(v[i]);
        i += 1;
    }
    assert(v@.subrange(0, v@.len() as int) =~= v@);
    r
}

/// The characters of `cs` without its leading and trailing whitespace.
fn trimmed(cs: &Vec<char>) -> (r: Vec<char>)
    ensures
        r@ == trim(cs@),
{
    let mut lo: usize = 0;
    while lo < cs.len() && (cs[lo] == ' ' || cs[lo] == '\t' || cs[lo] == '\n' || cs[lo] == '\r')
        invariant
            lo <= cs.len(),
            lead_from(cs@, lo as int) == lead_from(cs@, 0),
        decreases cs.len() - lo,
    {
        lo += 1;
    }
    let mut hi: usize = cs.len();
    while hi > lo && (cs[hi - 1] == ' ' || cs[hi - 1] == '\t' || cs[hi - 1] == '\n' || cs[hi - 1] == '\r')
        invariant
            lo <= hi <= cs.len(),
            lo == lead_from(cs@, 0),
            trail_from(cs@, hi as int, lo as int) == trail_from(cs@, cs.len() as int, lo as int),
        decreases hi,
    {
        hi -= 1;
    }
    sub_chars(cs, lo, hi)
}

/// A copy of `cs[lo..hi]`.
pub fn sub_chars(cs: &Vec<char>, lo: usize, hi: usize) -> (r: Vec<char>)
    requires
        lo <= hi <= cs.len(),
    ensures
        r@ == cs@.subrange(lo as int, hi as int),
{
    let mut r: Vec<char> = Vec::new();
    let mut i = lo;
    while i < hi
        invariant
            lo <= i <= hi <= cs.len(),
            r@ == cs@.subrange(lo as int, i as int),
        decreases hi - i,
    {
        r.push(cs[i]);
        i += 1;
        assert(r@ =~= cs@.subrange(lo as int, i as int));
    }
    r
}

/// A prefix of a text whose whole reading is fine reads fine too.
pub proof fn lemma_read_ok_prefix(cs: Seq<char>, states: int, colors: int)
    ensures
        read_prog_text(cs, states, colors).ok ==> forall|n: int| 0 <= n <= cs.len() ==> #[trigger] read_prefix(cs, n, states, colors).ok,
{
    assert forall|n: int| 0 <= n <= cs.len() && read_prog_text(cs, states, colors).ok implies #[trigger] read_prefix(cs, n, states, colors).ok by {
        lemma_read_ok_back(cs, n, cs.len() as int, states, colors);
    }
}

proof fn lemma_read_ok_back(cs: Seq<char>, n: int, m: int, states: int, colors: int)
    requires
        0 <= n <= m,
        read_prefix(cs, m, states, colors).ok,
    ensures
        read_prefix(cs, n, states, colors).ok,
    decreases m - n,
{
    if n < m {
        lemma_read_ok_back(cs, n, m - 1, states, colors);
    }
}

/// The defined instructions of a flat table, in table order.
pub open spec fn instrs_upto(t: Seq<Option<Instr>>, n: int) -> Seq<Instr>
    decreases n,
{
    if n <= 0 {
        Seq::empty()
    } else {
        let prev = instrs_upto(t, n - 1);
        match t[n - 1] {
            Some(i) => prev.push(i),
            None => prev,
        }
    }
}

/// The defined cells of a flat table, with their slots, in table order.
pub open spec fn entries_upto(t: Seq<Option<Instr>>, colors: int, n: int) -> Seq<(Slot, Instr)>
    decreases n,
{
    if n <= 0 {
        Seq::empty()
    } else {
        let prev = entries_upto(t, colors, n - 1);
        match t[n - 1] {
            Some(i) => prev.push(((((n - 1) / colors) as u8, ((n - 1) % colors) as u8), i)),
            None => prev,
        }
    }
}

/// The largest state and color that a list of instructions reaches,
/// starting from (1, 1).
pub open spec fn max_reached_of(is: Seq<Instr>) -> (State, Color)
    decreases is.len(),
{
    if is.len() == 0 {
        (1, 1)
    } else {
        let (st, co) = max_reached_of(is.drop_last());
        let (pr, _, tr) = is.last();
        (if st < tr { tr } else { st }, if co < pr { pr } else { co })
    }
}

/// Whether an instruction concerns the slot (`st`, `co`) for the side test:
/// it prints `co` or enters `st`.
pub open spec fn side_relevant(i: Instr, st: State, co: Color) -> bool {
    i.0 == co || i.2 == st
}

/// Whether two instructions that print `co` or enter `st` move in
/// different directions.
pub open spec fn both_sides(is: Seq<Instr>, st: State, co: Color) -> bool {
    exists|a: int, b: int|
        0 <= a < is.len() && 0 <= b < is.len() && side_relevant(#[trigger] is[a], st, co)
            && side_relevant(#[trigger] is[b], st, co) && is[a].1 != is[b].1
}

/// The text of one row's first `k` cells, separated by single spaces.
pub open spec fn row_text<const STATES: usize, const COLORS: usize>(p: Prog<STATES, COLORS>, st: int, k: int) -> Seq<char>
    decreases k,
{
    if k <= 0 {
        Seq::empty()
    } else if k == 1 {
        show_opt_instr_spec(p.instr_at(st, 0))
    } else {
        row_text(p, st, k - 1) + seq![' '] + show_opt_instr_spec(p.instr_at(st, k - 1))
    }
}

/// The text of the first `r` rows of `k` cells, separated by two spaces.
pub open spec fn prog_text<const STATES: usize, const COLORS: usize>(p: Prog<STATES, COLORS>, r: int, k: int) -> Seq<char>
    decreases r,
{
    if r <= 0 {
        Seq::empty()
    } else if r == 1 {
        row_text(p, 0, k)
    } else {
        prog_text(p, r - 1, k) + seq![' ', ' '] + row_text(p, r - 1, k)
    }
}

/// Whether a cell holds an instruction that prints blank.
pub open spec fn prints_blank(o: Option<Instr>) -> bool {
    match o {
        Some(i) => i.0 == 0,
        None => false,
    }
}

/// Whether a cell holds an instruction that enters `st` moving by `sh`.
pub open spec fn enters_with(o: Option<Instr>, st: State, sh: Shift) -> bool {
    match o {
        Some(i) => i.2 == st && i.1 == sh,
        None => false,
    }
}

/// Whether a cell's instruction (if any) enters a state that has a letter.
pub open spec fn target_lettered(o: Option<Instr>) -> bool {
    match o {
        Some(i) => i.2 <= 190,
        None => true,
    }
}

pub struct Prog<const STATES: usize, const COLORS: usize> {
    table: Vec<Option<Instr>>,
}

impl<const STATES: usize, const COLORS: usize> View for Prog<STATES, COLORS> {
    type V = Seq<Option<Instr>>;

    closed spec fn view(&self) -> Seq<Option<Instr>> {
        self.table@
    }
}

impl<const STATES: usize, const COLORS: usize> Prog<STATES, COLORS> {
    #[verifier::type_invariant]
    pub open spec fn inv(self) -> bool {
        &&& STATES <= 256
        &&& COLORS <= 256
        &&& self@.len() == STATES * COLORS
    }

    /// The instruction of a slot (which must be in range).
    pub open spec fn instr_at(&self, st: int, co: int) -> Option<Instr> {
        self@[cell_index(st, co, COLORS as int)]
    }

    /// Whether a slot lies inside the table.
    pub open spec fn in_range(st: int, co: int) -> bool {
        0 <= st < STATES && 0 <= co < COLORS
    }

    /// The well-formedness that every program has.
    pub open spec fn shape(&self) -> bool {
        &&& STATES <= 256
        &&& COLORS <= 256
        &&& self@.len() == STATES * COLORS
    }

    /// Position of an in-range slot in the table.
    fn cell(&self, st: u8, co: u8) -> (k: usize)
        requires
            Self::in_range(st as int, co as int),
        ensures
            k == cell_index(st as int, co as int, COLORS as int),
            k < self@.len(),
        no_unwind
    {
        proof {
            use_type_invariant(self);
            lemma_cell_index_bounds(st as int, co as int, STATES as int, COLORS as int);
        }
        let _n = self.table.len();
        let st = st as usize;
        let co = co as usize;
        assert(st * COLORS <= st * COLORS + co);
        st * COLORS + co
    }

    /// Reads a program from its text: rows separated by two spaces, cells
    /// by one, `...` (or any cell holding a `.`) for an undefined slot.
    /// Rows and cells beyond the table are ignored.
    pub fn from(prog: &str) -> (p: Self)
        requires
            STATES <= 256,
            COLORS <= 256,
            read_prog_text(trim(prog@), STATES as int, COLORS as int).ok,
        ensures
            p@ == read_prog_text(trim(prog@), STATES as int, COLORS as int).table,
    {
        let all = chars_of(prog);
        let cs = trimmed(&all);
        let ghost states = STATES as int;
        let ghost colors = COLORS as int;
        let mut out = Self::new();
        proof {
            use_type_invariant(&out);
            assert(out@ =~= empty_table(states * colors));
        }
        let mut row: usize = 0;
        let mut col: usize = 0;
        let mut pending = false;
        let mut start: usize = 0;
        let mut i: usize = 0;
        while i < cs.len()
            invariant
                STATES <= 256,
                COLORS <= 256,
                i <= cs.len(),
                start <= i,
                row <= i,
                col <= i,
                read_prefix(cs@, i as int, states, colors).ok,
                ({
                    let r = read_prefix(cs@, i as int, states, colors);
                    &&& r.row == row
                    &&& r.col == col
                    &&& r.pending == pending
                    &&& r.tok == cs@.subrange(start as int, i as int)
                    &&& r.table == out@
                }),
                read_prog_text(cs@, states, colors).ok,
                states == STATES,
                colors == COLORS,
            decreases cs.len() - i,
        {
            proof {
                lemma_read_ok_prefix(cs@, states, colors);
                assert(read_prefix(cs@, i + 1, states, colors).ok);
            }
            let ch = cs[i];
            if ch == ' ' {
                if pending {
                    row += 1;
                    col = 0;
                    pending = false;
                } else {
                    self_place(&mut out, &cs, row, col, start, i);
                    pending = true;
                }
                start = i + 1;
            } else if pending {
                col += 1;
                pending = false;
                start = i;
            }
            proof {
                assert(cs@.subrange(start as int, i + 1) =~= read_prefix(cs@, i + 1, states, colors).tok);
            }
            i += 1;
        }
        self_place(&mut out, &cs, row, col, start, i);
        out
    }

    /// The defined instructions, in table order.
    pub open spec fn instr_list(&self) -> Seq<Instr> {
        instrs_upto(self@, self@.len() as int)
    }

    /// The defined cells with their slots, in table order.
    pub open spec fn entries(&self) -> Seq<(Slot, Instr)> {
        entries_upto(self@, COLORS as int, self@.len() as int)
    }

    /// The defined cells with their slots, in table order.
    pub fn iter(&self) -> (r: Vec<(Slot, Instr)>)
        ensures
            r@ == self.entries(),
    {
        proof {
            use_type_invariant(self);
        }
        let n = self.table.len();
        let mut r: Vec<(Slot, Instr)> = Vec::new();
        let mut k: usize = 0;
        let mut st: usize = 0;
        let mut co: usize = 0;
        while k < n
            invariant
                n == self@.len(),
                n == STATES * COLORS,
                STATES <= 256,
                COLORS <= 256,
                k <= n,
                k < n ==> co < COLORS && st < STATES,
                k == st * COLORS + co,
                r@ == entries_upto(self@, COLORS as int, k as int),
            decreases n - k,
        {
            proof {
                vstd::arithmetic::div_mod::lemma_fundamental_div_mod_converse(
                    k as int, COLORS as int, st as int, co as int);
            }
            if let Some(i) = self.table[k] {
                r.push(((st as u8, co as u8), i));
            }
            let ghost (st0, co0) = (st, co);
            k += 1;
            co += 1;
            if co == COLORS {
                co = 0;
                st += 1;
            }
            proof {
                assert(st * COLORS + co == k) by (nonlinear_arith)
                    requires
                        k == st0 * COLORS + co0 + 1,
                        (co == co0 + 1 && st == st0) || (co == 0 && st == st0 + 1 && co0 + 1 == COLORS);
                if k < n {
                    if st >= STATES {
                        assert(st * COLORS >= STATES * COLORS) by (nonlinear_arith)
                            requires st >= STATES;
                    }
                }
            }
        }
        r
    }

    /// The defined instructions, in table order.
    pub fn instrs(&self) -> (r: Vec<Instr>)
        ensures
            r@ == self.instr_list(),
    {
        let n = self.table.len();
        let mut r: Vec<Instr> = Vec::new();
        let mut k: usize = 0;
        while k < n
            invariant
                n == self@.len(),
                k <= n,
                r@ == instrs_upto(self@, k as int),
            decreases n - k,
        {
            if let Some(i) = self.table[k] {
                r.push(i);
            }
            k += 1;
        }
        r
    }

    /// The largest state entered and color printed, each at least 1.
    pub fn max_reached(&self) -> (r: (State, Color))
        ensures
            r == max_reached_of(self.instr_list()),
    {
        let list = self.instrs();
        let mut st: State = 1;
        let mut co: Color = 1;
        let mut k: usize = 0;
        while k < list.len()
            invariant
                k <= list.len(),
                (st, co) == max_reached_of(list@.subrange(0, k as int)),
            decreases list.len() - k,
        {
            let (pr, _, tr) = list[k];
            assert(list@.subrange(0, k + 1).drop_last() =~= list@.subrange(0, k as int));
            if co < pr {
                co = pr;
            }
            if st < tr {
                st = tr;
            }
            k += 1;
        }
        assert(list@.subrange(0, list.len() as int) =~= list@);
        (st, co)
    }

    /// Whether instructions that print `co` or enter `st` move both ways.
    pub fn reaches_both_sides(&self, st: State, co: Color) -> (r: bool)
        ensures
            r == both_sides(self.instr_list(), st, co),
    {
        let list = self.instrs();
        let mut side: Option<Shift> = None;
        let mut k: usize = 0;
        while k < list.len()
            invariant
                k <= list.len(),
                list@ == self.instr_list(),
                side is None ==> forall|a: int| 0 <= a < k ==> !side_relevant(#[trigger] list@[a], st, co),
                side matches Some(sd) ==> (forall|a: int| 0 <= a < k && side_relevant(#[trigger] list@[a], st, co) ==> list@[a].1 == sd)
                    && exists|a: int| 0 <= a < k && side_relevant(#[trigger] list@[a], st, co) && list@[a].1 == sd,
            decreases list.len() - k,
        {
            let (pr, sh, tr) = list[k];
            if pr != co && tr != st {
                k += 1;
                continue;
            }
            match side {
                None => {
                    side = Some(sh);
                },
                Some(sd) => {
                    if sd != sh {
                        let ghost a = choose|a: int| 0 <= a < k && side_relevant(#[trigger] list@[a], st, co) && list@[a].1 == sd;
                        assert(side_relevant(list@[k as int], st, co));
                        assert(side_relevant(list@[a], st, co));
                        assert(list@[a].1 != list@[k as int].1);
                        assert(both_sides(list@, st, co));
                        return true;
                    }
                },
            }
            k += 1;
        }
        assert forall|a: int, b: int|
            0 <= a < list@.len() && 0 <= b < list@.len() && side_relevant(#[trigger] list@[a], st, co)
                && side_relevant(#[trigger] list@[b], st, co) implies list@[a].1 == list@[b].1 by {}
        false
    }

    /// Whether a slot is one of the halt slots (see `halt_slots`).
    pub open spec fn is_halt_slot(&self, sl: Slot) -> bool {
        let (ms, mc) = max_reached_of(self.instr_list());
        &&& sl.0 <= ms
        &&& sl.1 <= mc
        &&& self.instr_at(sl.0 as int, sl.1 as int) is None
        &&& (sl.1 == 0 || both_sides(self.instr_list(), sl.0, sl.1))
    }

    /// Whether a slot's instruction erases (see `erase_slots`).
    pub open spec fn is_erase_slot(&self, sl: Slot) -> bool {
        Self::in_range(sl.0 as int, sl.1 as int) && sl.1 != 0 && prints_blank(self.instr_at(sl.0 as int, sl.1 as int))
    }

    /// The slots up to the largest reached state and color that are
    /// undefined and where a halt can happen: the scanned color is blank or
    /// the slot can be reached moving both ways.
    pub fn halt_slots(&self) -> (r: BTreeSet<Slot>)
        requires
            Self::in_range(max_reached_of(self.instr_list()).0 as int, max_reached_of(self.instr_list()).1 as int),
        ensures
            r@ == Set::new(|sl: Slot| self.is_halt_slot(sl)),
    {
        let (ms, mc) = self.max_reached();
        let mut r: BTreeSet<Slot> = BTreeSet::new();
        let mut st: usize = 0;
        while st <= ms as usize
            invariant
                st <= ms as usize + 1,
                (ms, mc) == max_reached_of(self.instr_list()),
                Self::in_range(ms as int, mc as int),
                r@ == Set::new(|sl: Slot| self.is_halt_slot(sl) && (sl.0 as int) < st),
            decreases ms as usize + 1 - st,
        {
            let mut co: usize = 0;
            while co <= mc as usize
                invariant
                    st <= ms as usize,
                    co <= mc as usize + 1,
                    (ms, mc) == max_reached_of(self.instr_list()),
                    Self::in_range(ms as int, mc as int),
                    r@ == Set::new(|sl: Slot| self.is_halt_slot(sl)
                        && ((sl.0 as int) < st || (sl.0 as int == st && (sl.1 as int) < co))),
                decreases mc as usize + 1 - co,
            {
                let slot = (st as u8, co as u8);
                if self.get(&slot).is_none() && (co == 0 || self.reaches_both_sides(st as u8, co as u8)) {
                    r.insert(slot);
                }
                co += 1;
                assert(r@ =~= Set::new(|sl: Slot| self.is_halt_slot(sl)
                    && ((sl.0 as int) < st || (sl.0 as int == st && (sl.1 as int) < co))));
            }
            st += 1;
            assert(r@ =~= Set::new(|sl: Slot| self.is_halt_slot(sl) && (sl.0 as int) < st));
        }
        assert(r@ =~= Set::new(|sl: Slot| self.is_halt_slot(sl)));
        r
    }

    /// The slots whose instruction erases: a nonblank scanned color
    /// overwritten with blank.
    pub fn erase_slots(&self) -> (r: BTreeSet<Slot>)
        ensures
            r@ == Set::new(|sl: Slot| self.is_erase_slot(sl)),
    {
        proof {
            use_type_invariant(self);
        }
        let mut r: BTreeSet<Slot> = BTreeSet::new();
        let mut st: usize = 0;
        while st < STATES
            invariant
                STATES <= 256,
                COLORS <= 256,
                st <= STATES,
                r@ == Set::new(|sl: Slot| self.is_erase_slot(sl) && (sl.0 as int) < st),
            decreases STATES - st,
        {
            let mut co: usize = 0;
            while co < COLORS
                invariant
                    STATES <= 256,
                    COLORS <= 256,
                    st < STATES,
                    co <= COLORS,
                    r@ == Set::new(|sl: Slot| self.is_erase_slot(sl)
                        && ((sl.0 as int) < st || (sl.0 as int == st && (sl.1 as int) < co))),
                decreases COLORS - co,
            {
                let slot = (st as u8, co as u8);
                if co != 0 {
                    if let Some(i) = self.get(&slot) {
                        if i.0 == 0 {
                            r.insert(slot);
                        }
                    }
                }
                co += 1;
                assert(r@ =~= Set::new(|sl: Slot| self.is_erase_slot(sl)
                    && ((sl.0 as int) < st || (sl.0 as int == st && (sl.1 as int) < co))));
            }
            st += 1;
            assert(r@ =~= Set::new(|sl: Slot| self.is_erase_slot(sl) && (sl.0 as int) < st));
        }
        assert(r@ =~= Set::new(|sl: Slot| self.is_erase_slot(sl)));
        r
    }

    /// The states whose blank-scanning instruction stays in the same state,
    /// with that instruction's shift, in increasing order of state.
    pub fn zr_shifts(&self) -> (r: Vec<(State, Shift)>)
        ensures
            forall|x: (State, Shift)| r@.contains(x) <==> Self::in_range(x.0 as int, 0)
                && enters_with(self.instr_at(x.0 as int, 0), x.0, x.1),
            forall|a: int, b: int| 0 <= a < b < r@.len() ==> r@[a].0 < r@[b].0,
    {
        proof {
            use_type_invariant(self);
        }
        let mut r: Vec<(State, Shift)> = Vec::new();
        if COLORS == 0 {
            return r;
        }
        let mut st: usize = 0;
        while st < STATES
            invariant
                STATES <= 256,
                0 < COLORS <= 256,
                st <= STATES,
                forall|x: (State, Shift)| r@.contains(x) <==> (x.0 as int) < st && Self::in_range(x.0 as int, 0)
                    && enters_with(self.instr_at(x.0 as int, 0), x.0, x.1),
                forall|a: int, b: int| 0 <= a < b < r@.len() ==> r@[a].0 < r@[b].0,
                forall|a: int| 0 <= a < r@.len() ==> (r@[a].0 as int) < st,
            decreases STATES - st,
        {
            let ghost before = r@;
            let cell = self.get(&(st as u8, 0));
            if let Some(i) = cell {
                if i.2 == st as u8 {
                    r.push((st as u8, i.1));
                }
            }
            assert forall|x: (State, Shift)| r@.contains(x) <==> (x.0 as int) < st + 1 && Self::in_range(x.0 as int, 0)
                && enters_with(self.instr_at(x.0 as int, 0), x.0, x.1) by {
                if r@.len() > before.len() {
                    if before.contains(x) {
                        let j = choose|j: int| 0 <= j < before.len() && before[j] == x;
                        assert(r@[j] == x);
                    }
                    if x.0 as int == st && enters_with(self.instr_at(x.0 as int, 0), x.0, x.1) {
                        assert(r@[r@.len() - 1] == x);
                    }
                    if r@.contains(x) {
                        let j = choose|j: int| 0 <= j < r@.len() && r@[j] == x;
                        if j < before.len() {
                            assert(before[j] == x);
                        }
                    }
                }
            }
            st += 1;
        }
        r
    }

    /// The table as text: the rows and colors up to the largest reached
    /// state and color, undefined slots as `...`.
    pub fn to_string(&self) -> (s: String)
        requires
            Self::in_range(max_reached_of(self.instr_list()).0 as int, max_reached_of(self.instr_list()).1 as int),
            forall|st: int, co: int| Self::in_range(st, co) ==> target_lettered(self.instr_at(st, co)),
        ensures
            s@ == prog_text(*self, max_reached_of(self.instr_list()).0 + 1, max_reached_of(self.instr_list()).1 + 1),
    {
        let (ms, mc) = self.max_reached();
        let mut s = String::new();
        let mut st: usize = 0;
        while st <= ms as usize
            invariant
                st <= ms as usize + 1,
                (ms, mc) == max_reached_of(self.instr_list()),
                Self::in_range(ms as int, mc as int),
                forall|st: int, co: int| Self::in_range(st, co) ==> target_lettered(self.instr_at(st, co)),
                s@ == prog_text(*self, st as int, mc + 1),
            decreases ms as usize + 1 - st,
        {
            if 0 < st {
                push_char(&mut s, ' ');
                push_char(&mut s, ' ');
            }
            let ghost base = s@;
            let mut co: usize = 0;
            while co <= mc as usize
                invariant
                    st <= ms as usize,
                    co <= mc as usize + 1,
                    (ms, mc) == max_reached_of(self.instr_list()),
                    Self::in_range(ms as int, mc as int),
                    forall|st: int, co: int| Self::in_range(st, co) ==> target_lettered(self.instr_at(st, co)),
                    s@ == base + row_text(*self, st as int, co as int),
                decreases mc as usize + 1 - co,
            {
                if 0 < co {
                    push_char(&mut s, ' ');
                }
                let cell = match self.get(&(st as u8, co as u8)) {
                    Some(i) => Some(*i),
                    None => None,
                };
                assert(Self::in_range(st as int, co as int));
                assert(target_lettered(self.instr_at(st as int, co as int)));
                push_opt_instr(&mut s, cell);
                co += 1;
                assert(s@ =~= base + row_text(*self, st as int, co as int));
            }
            st += 1;
            assert(s@ =~= prog_text(*self, st as int, mc + 1));
        }
        s
    }

    /// The empty table.
    fn new() -> (p: Self)
        requires
            STATES <= 256,
            COLORS <= 256,
        ensures
            forall|i: int| 0 <= i < p@.len() ==> p@[i] is None,
    {
        assert(STATES * COLORS <= 256 * 256) by (nonlinear_arith)
            requires STATES <= 256, COLORS <= 256;
        let n = STATES * COLORS;
        let mut table: Vec<Option<Instr>> = Vec::new();
        let mut i: usize = 0;
        while i < n
            invariant
                i <= n,
                table@.len() == i,
                forall|j: int| 0 <= j < i ==> table@[j] is None,
            decreases n - i,
        {
            table.push(None);
            i += 1;
        }
        Prog { table }
    }

    /// The program with only `A0: 1RB` defined.
    pub fn init_norm() -> (p: Self)
        requires
            STATES <= 256,
            COLORS <= 256,
            STATES >= 1,
            COLORS >= 1,
        ensures
            p.instr_at(0, 0) == Some((1u8, true, 1u8)),
            forall|st: int, co: int|
                Self::in_range(st, co) && (st, co) != (0int, 0int) ==> p.instr_at(st, co) is None,
    {
        let mut prog = Self::new();
        let ghost p0 = prog@;
        proof { use_type_invariant(&prog); }
        prog.insert(&(0, 0), &(1, true, 1));
        proof {
            assert(prog@ == p0.update(0, Some((1u8, true, 1u8))));
            use_type_invariant(&prog);
            assert(cell_index(0, 0, COLORS as int) == 0) by (nonlinear_arith);
            lemma_cell_index_bounds(0, 0, STATES as int, COLORS as int);
            assert forall|st: int, co: int|
                Self::in_range(st, co) && (st, co) != (0int, 0int) implies prog.instr_at(st, co) is None by {
                lemma_cell_index_bounds(st, co, STATES as int, COLORS as int);
                if st > 0 {
                    assert(st * COLORS >= COLORS) by (nonlinear_arith) requires st >= 1, COLORS >= 1;
                } else {
                    assert(st * COLORS == 0) by (nonlinear_arith) requires st == 0;
                }
                assert(cell_index(st, co, COLORS as int) != 0);
            }
        }
        prog
    }

    /// The instruction of a slot, if defined.
    pub fn get(&self, slot: &Slot) -> (r: Option<&Instr>)
        requires
            Self::in_range(slot.0 as int, slot.1 as int),
        ensures
            r is Some <==> self.instr_at(slot.0 as int, slot.1 as int) is Some,
            r matches Some(i) ==> self.instr_at(slot.0 as int, slot.1 as int) == Some(*i),
    {
        let k = self.cell(slot.0, slot.1);
        match &self.table[k] {
            Some(i) => Some(i),
            None => None,
        }
    }

    /// Defines the instruction of a slot.
    pub fn insert(&mut self, slot: &Slot, instr: &Instr)
        requires
            Self::in_range(slot.0 as int, slot.1 as int),
        ensures
            final(self)@ == old(self)@.update(
                cell_index(slot.0 as int, slot.1 as int, COLORS as int),
                Some(*instr),
            ),
    {
        proof {
            use_type_invariant(&*self);
        }
        let k = self.cell(slot.0, slot.1);
        let mut table = copy_table(&self.table);
        table.set(k, Some(*instr));
        core::mem::swap(&mut self.table, &mut table);
    }

    /// Makes the instruction of a slot undefined.
    pub fn remove(&mut self, slot: &Slot)
        requires
            Self::in_range(slot.0 as int, slot.1 as int),
        ensures
            final(self)@ == old(self)@.update(
                cell_index(slot.0 as int, slot.1 as int, COLORS as int),
                None,
            ),
    {
        proof {
            use_type_invariant(&*self);
        }
        let k = self.cell(slot.0, slot.1);
        let mut table = copy_table(&self.table);
        table.set(k, None);
        core::mem::swap(&mut self.table, &mut table);
    }
}

/// Stores the cell `cs[start..end]` read at (`row`, `col`), as the reading
/// of a program text does.
fn self_place<const STATES: usize, const COLORS: usize>(
    out: &mut Prog<STATES, COLORS>,
    cs: &Vec<char>,
    row: usize,
    col: usize,
    start: usize,
    end: usize,
)
    requires
        start <= end <= cs.len(),
        place_cell(
            ReadState { row: row as int, col: col as int, pending: false, tok: cs@.subrange(start as int, end as int), table: old(out)@, ok: true },
            STATES as int,
            COLORS as int,
        ).ok,
    ensures
        final(out)@ == place_cell(
            ReadState { row: row as int, col: col as int, pending: false, tok: cs@.subrange(start as int, end as int), table: old(out)@, ok: true },
            STATES as int,
            COLORS as int,
        ).table,
{
    proof {
        use_type_invariant(&*out);
    }
    if row < STATES && col < COLORS {
        let tok = sub_chars(cs, start, end);
        if let Some(instr) = read_opt_instr_chars(&tok) {
            out.insert(&(row as u8, col as u8), &instr);
        }
    }
}


/// The slots of a set, in increasing order.
pub fn slot_vec(set: &BTreeSet<Slot>) -> (r: Vec<Slot>)
    ensures
        r@.to_set() == set@,
        r@.no_duplicates(),
{
    let mut r: Vec<Slot> = Vec::new();
    let ghost all = spec_btree_keys_iter(set).remaining();
    for x in it: set.iter()
        invariant
            it.seq() == all,
            r@ == all.unref().take(it.index() as int),
    {
        r.push(*x);
    }
    proof {
        assert(r@ == all.unref());
        assert(all.unref().to_set() == set@);
    }
    r
}


/// A defined cell's instruction is in the instruction list.
pub proof fn lemma_instr_listed(t: Seq<Option<Instr>>, n: int, c: int)
    requires
        0 <= c < n <= t.len(),
        t[c] is Some,
    ensures
        exists|j: int| 0 <= j < instrs_upto(t, n).len() && #[trigger] instrs_upto(t, n)[j] == t[c]->0,
    decreases n,
{
    if c < n - 1 {
        lemma_instr_listed(t, n - 1, c);
        let j = choose|j: int| 0 <= j < instrs_upto(t, n - 1).len() && #[trigger] instrs_upto(t, n - 1)[j] == t[c]->0;
        assert(instrs_upto(t, n)[j] == instrs_upto(t, n - 1)[j]);
    } else {
        let j = instrs_upto(t, n - 1).len() as int;
        assert(instrs_upto(t, n)[j] == t[c]->0);
    }
}

impl<const STATES: usize, const COLORS: usize> Prog<STATES, COLORS> {
    /// The instruction of a slot in range, where defined, is listed.
    pub proof fn lemma_instr_at_listed(&self, st: int, co: int)
        requires
            Self::in_range(st, co),
            self.shape(),
            self.instr_at(st, co) is Some,
        ensures
            exists|j: int| 0 <= j < self.instr_list().len() && #[trigger] self.instr_list()[j] == self.instr_at(st, co)->0,
    {
        lemma_cell_index_bounds(st, co, STATES as int, COLORS as int);
        let c = cell_index(st, co, COLORS as int);
        lemma_instr_listed(self@, self@.len() as int, c);
        let j = choose|j: int| 0 <= j < instrs_upto(self@, self@.len() as int).len()
            && #[trigger] instrs_upto(self@, self@.len() as int)[j] == self@[c]->0;
        assert(self.instr_list()[j] == self.instr_at(st, co)->0);
    }
}


/// A defined cell's slot and instruction are among the entries.
pub proof fn lemma_entry_listed(t: Seq<Option<Instr>>, colors: int, n: int, c: int)
    requires
        0 <= c < n <= t.len(),
        t[c] is Some,
    ensures
        exists|j: int| 0 <= j < entries_upto(t, colors, n).len() && #[trigger] entries_upto(t, colors, n)[j]
            == (((c / colors) as u8, (c % colors) as u8), t[c]->0),
    decreases n,
{
    if c < n - 1 {
        lemma_entry_listed(t, colors, n - 1, c);
        let j = choose|j: int| 0 <= j < entries_upto(t, colors, n - 1).len() && #[trigger] entries_upto(t, colors, n - 1)[j]
            == (((c / colors) as u8, (c % colors) as u8), t[c]->0);
        assert(entries_upto(t, colors, n)[j] == entries_upto(t, colors, n - 1)[j]);
    } else {
        let j = entries_upto(t, colors, n - 1).len() as int;
        assert(entries_upto(t, colors, n)[j] == (((c / colors) as u8, (c % colors) as u8), t[c]->0));
    }
}

impl<const STATES: usize, const COLORS: usize> Prog<STATES, COLORS> {
    /// The instruction of a slot in range, where defined, is an entry with
    /// that slot.
    pub proof fn lemma_entry_at(&self, st: int, co: int)
        requires
            Self::in_range(st, co),
            self.shape(),
            self.instr_at(st, co) is Some,
        ensures
            exists|j: int| 0 <= j < self.entries().len() && #[trigger] self.entries()[j] == ((st as u8, co as u8), self.instr_at(st, co)->0),
    {
        lemma_cell_index_bounds(st, co, STATES as int, COLORS as int);
        let c = cell_index(st, co, COLORS as int);
        vstd::arithmetic::div_mod::lemma_fundamental_div_mod_converse(c, COLORS as int, st, co);
        lemma_entry_listed(self@, COLORS as int, self@.len() as int, c);
        let j = choose|j: int| 0 <= j < entries_upto(self@, COLORS as int, self@.len() as int).len()
            && #[trigger] entries_upto(self@, COLORS as int, self@.len() as int)[j] == (((c / COLORS as int) as u8, (c % COLORS as int) as u8), self@[c]->0);
        assert(self.entries()[j] == ((st as u8, co as u8), self.instr_at(st, co)->0));
    }
}

} // verus!
