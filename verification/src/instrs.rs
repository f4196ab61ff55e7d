//! Colors, states, shifts, slots and instructions, and how they are read
//! from and printed as text (`1RB`, `A0`, `...`).
use vstd::prelude::*;

use crate::text::{decimal, digit_char, is_digit, push_char, push_decimal, chars_of};

verus! {

pub type Color = u8;

pub type State = u8;

/// `true` is a move to the right.
pub type Shift = bool;

pub type Slot = (State, Color);

pub type Instr = (Color, Shift, State);

pub type Params = (State, Color);

/// The character that marks an undefined instruction.
pub const UNDF: char = '.';

pub const LEFT: char = 'L';

pub const RIGHT: char = 'R';

/// The letter that names a state: `A` for state 0, `B` for state 1, ...
pub open spec fn state_char(s: nat) -> char {
    (s + 65) as char
}

/// The state that a letter names.
pub open spec fn state_of_char(c: char) -> int {
    c as int - 65
}

/// Whether `c` names a state that fits in a `State`.
pub open spec fn is_state_char(c: char) -> bool {
    65 <= c as int <= 255
}

/// The state shown for an optional state: its letter, or `.` for none.
pub open spec fn show_state_spec(state: Option<State>) -> char {
    match state {
        None => UNDF,
        Some(s) => state_char(s as nat),
    }
}

/// Text of a slot: state letter then scanned color, e.g. `B1`.
pub open spec fn show_slot_spec(slot: Slot) -> Seq<char> {
    seq![state_char(slot.0 as nat)] + decimal(slot.1 as nat)
}

/// Text of an instruction: printed color, `R` or `L`, next state's letter.
pub open spec fn show_instr_spec(instr: Instr) -> Seq<char> {
    decimal(instr.0 as nat) + seq![if instr.1 { RIGHT } else { LEFT }] + seq![state_char(instr.2 as nat)]
}

/// Text of an optional instruction: the instruction, or `...`.
pub open spec fn show_opt_instr_spec(instr: Option<Instr>) -> Seq<char> {
    match instr {
        None => seq![UNDF, UNDF, UNDF],
        Some(i) => show_instr_spec(i),
    }
}

/// Whether an instruction can be printed (its state has a letter).
pub open spec fn instr_showable(instr: Instr) -> bool {
    instr.2 <= 190
}

/// Whether a three-character instruction text can be read.
pub open spec fn instr_readable(s: Seq<char>) -> bool {
    s.len() >= 3 && is_digit(s[0]) && is_state_char(s[2])
}

/// The instruction that a readable text denotes.
pub open spec fn read_instr_spec(s: Seq<char>) -> Instr {
    ((s[0] as int - 48) as u8, s[1] == RIGHT, state_of_char(s[2]) as u8)
}

/// Whether an optional-instruction text can be read: it holds a `.` or is
/// a readable instruction.
pub open spec fn opt_instr_readable(s: Seq<char>) -> bool {
    s.contains(UNDF) || instr_readable(s)
}

/// The optional instruction that a text denotes.
pub open spec fn read_opt_instr_spec(s: Seq<char>) -> Option<Instr> {
    if s.contains(UNDF) {
        None
    } else {
        Some(read_instr_spec(s))
    }
}

/// Things that have a textual form.
pub trait Parse: Sized {
    /// Whether a text can be read as a value of this type.
    spec fn readable(input: Seq<char>) -> bool;

    /// The value that a readable text denotes.
    spec fn read_spec(input: Seq<char>) -> Self;

    /// Whether this value can be printed.
    spec fn showable(&self) -> bool;

    /// The text of a value.
    spec fn show_spec(&self) -> Seq<char>;

    fn read(input: &str) -> (r: Self)
        requires
            Self::readable(input@),
        ensures
            r == Self::read_spec(input@),
    ;

    fn show(&self) -> (s: String)
        requires
            self.showable(),
        ensures
            s@ == self.show_spec(),
    ;
}

/// Reads a decimal digit as a color.
pub fn read_color(color: char) -> (r: Color)
    requires
        is_digit(color),
    ensures
        r as int == color as int - 48,
{
    ((color as u32) - 48) as u8
}

/// Reads a shift: `R` is right, anything else is left.
pub fn read_shift(shift: char) -> (r: Shift)
    ensures
        r == (shift == RIGHT),
{
    shift == RIGHT
}

/// The letter of a state, or `.` for no state.
pub fn show_state(state: Option<State>) -> (r: char)
    requires
        state matches Some(s) ==> s <= 190,
    ensures
        r == show_state_spec(state),
{
    match state {
        None => UNDF,
        Some(s) => (s + 65) as char,
    }
}

/// Reads a state letter.
pub fn read_state(state: char) -> (r: State)
    requires
        is_state_char(state),
    ensures
        r as int == state_of_char(state),
{
    ((state as u32) - 65) as u8
}

impl Parse for (State, Color) {
    open spec fn readable(input: Seq<char>) -> bool {
        input.len() >= 2 && is_state_char(input[0]) && is_digit(input[1])
    }

    open spec fn read_spec(input: Seq<char>) -> Self {
        (state_of_char(input[0]) as u8, (input[1] as int - 48) as u8)
    }

    open spec fn showable(&self) -> bool {
        self.0 <= 190
    }

    open spec fn show_spec(&self) -> Seq<char> {
        show_slot_spec(*self)
    }

    fn read(slot: &str) -> (r: Self) {
        let cs = chars_of(slot);
        (read_state(cs[0]), read_color(cs[1]))
    }

    fn show(&self) -> (s: String) {
        let mut s = String::new();
        push_char(&mut s, show_state(Some(self.0)));
        push_decimal(&mut s, self.1);
        assert(s@ =~= show_slot_spec(*self));
        s
    }
}

/// Appends the text of an instruction.
fn push_instr(s: &mut String, instr: Instr)
    requires
        instr_showable(instr),
    ensures
        final(s)@ == old(s)@ + show_instr_spec(instr),
{
    let (color, shift, state) = instr;
    push_decimal(s, color);
    push_char(s, if shift { RIGHT } else { LEFT });
    push_char(s, show_state(Some(state)));
    assert(s@ =~= old(s)@ + show_instr_spec(instr));
}

/// Reads an instruction from its first three characters.
fn read_instr_chars(cs: &Vec<char>) -> (r: Instr)
    requires
        instr_readable(cs@),
    ensures
        r == read_instr_spec(cs@),
{
    (read_color(cs[0]), read_shift(cs[1]), read_state(cs[2]))
}

impl Parse for (Color, Shift, State) {
    open spec fn readable(input: Seq<char>) -> bool {
        instr_readable(input)
    }

    open spec fn read_spec(input: Seq<char>) -> Self {
        read_instr_spec(input)
    }

    open spec fn showable(&self) -> bool {
        instr_showable(*self)
    }

    open spec fn show_spec(&self) -> Seq<char> {
        show_instr_spec(*self)
    }

    fn read(instr: &str) -> (r: Self) {
        let cs = chars_of(instr);
        read_instr_chars(&cs)
    }

    fn show(&self) -> (s: String) {
        let mut s = String::new();
        push_instr(&mut s, *self);
        assert(s@ =~= show_instr_spec(*self));
        s
    }
}

/// Whether `c` occurs in `cs`.
pub fn contains_char(cs: &Vec<char>, c: char) -> (r: bool)
    ensures
        r == cs@.contains(c),
{
    let mut i: usize = 0;
    while i < cs.len()
        invariant
            i <= cs.len(),
            forall|j: int| 0 <= j < i ==> cs@[j] != c,
        decreases cs.len() - i,
    {
        if cs[i] == c {
            assert(cs@[i as int] == c);
            return true;
        }
        i += 1;
    }
    false
}

/// Reads an optional instruction from its characters.
pub fn read_opt_instr_chars(cs: &Vec<char>) -> (r: Option<Instr>)
    requires
        opt_instr_readable(cs@),
    ensures
        r == read_opt_instr_spec(cs@),
{
    if contains_char(cs, UNDF) {
        return None;
    }
    Some(read_instr_chars(cs))
}

/// Appends the text of an optional instruction.
pub fn push_opt_instr(s: &mut String, instr: Option<Instr>)
    requires
        instr matches Some(i) ==> instr_showable(i),
    ensures
        final(s)@ == old(s)@ + show_opt_instr_spec(instr),
{
    match instr {
        None => {
            push_char(s, UNDF);
            push_char(s, UNDF);
            push_char(s, UNDF);
            assert(s@ =~= old(s)@ + show_opt_instr_spec(instr));
        },
        Some(i) => push_instr(s, i),
    }
}

impl Parse for Option<(Color, Shift, State)> {
    open spec fn readable(input: Seq<char>) -> bool {
        opt_instr_readable(input)
    }

    open spec fn read_spec(input: Seq<char>) -> Self {
        read_opt_instr_spec(input)
    }

    open spec fn showable(&self) -> bool {
        *self matches Some(i) ==> instr_showable(i)
    }

    open spec fn show_spec(&self) -> Seq<char> {
        show_opt_instr_spec(*self)
    }

    fn read(instr: &str) -> (r: Self) {
        let cs = chars_of(instr);
        read_opt_instr_chars(&cs)
    }

    fn show(&self) -> (s: String) {
        let mut s = String::new();
        push_opt_instr(&mut s, *self);
        assert(s@ =~= show_opt_instr_spec(*self));
        s
    }
}

/// Reading the text of a state letter gives the state back.
pub proof fn lemma_state_round_trip(s: State)
    requires
        s <= 190,
    ensures
        is_state_char(state_char(s as nat)),
        state_of_char(state_char(s as nat)) == s,
{
}

/// Reading the text of a slot whose color is one digit gives the slot back.
pub proof fn lemma_slot_round_trip(slot: Slot)
    requires
        slot.0 <= 190,
        slot.1 < 10,
    ensures
        <(State, Color) as Parse>::readable(show_slot_spec(slot)),
        <(State, Color) as Parse>::read_spec(show_slot_spec(slot)) == slot,
{
    assert(decimal(slot.1 as nat) == seq![digit_char(slot.1 as nat)]);
}

/// Reading the text of an instruction whose color is one digit gives the
/// instruction back.
pub proof fn lemma_instr_round_trip(instr: Instr)
    requires
        instr.0 < 10,
        instr.2 <= 190,
    ensures
        instr_readable(show_instr_spec(instr)),
        read_instr_spec(show_instr_spec(instr)) == instr,
{
    assert(decimal(instr.0 as nat) == seq![digit_char(instr.0 as nat)]);
    let t = show_instr_spec(instr);
    assert(t[0] == digit_char(instr.0 as nat));
    assert(t[1] == if instr.1 { RIGHT } else { LEFT });
    assert(t[2] == state_char(instr.2 as nat));
}

} // verus!
