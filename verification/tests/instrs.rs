use tm::instrs::{Instr, Parse, Slot, read_state, show_state};

#[test]
fn test_state() {
    let states = ['A', 'B', 'C'];

    for state in states {
        assert_eq!(state, show_state(Some(read_state(state))));
    }
}

#[test]
fn test_slot() {
    let slots = ["A0", "A1", "A2", "B0", "B1", "B2", "C0", "C1", "C2"];

    for slot in slots {
        assert_eq!(slot, Slot::read(slot).show());
    }
}

#[test]
fn test_instr() {
    let instrs = ["1RB", "2LC"];

    for instr in instrs {
        assert_eq!(instr, Instr::read(instr).show());
    }

    let undfnd = "...";

    assert_eq!(undfnd, Option::<Instr>::read(undfnd).show());
}

#[test]
fn show_state_of_none_is_dot() {
    assert_eq!(show_state(None), '.');
    assert_eq!(show_state(Some(25)), 'Z');
}

#[test]
fn multi_digit_color_is_shown_in_full() {
    let instr: Instr = (12, false, 3);
    assert_eq!(instr.show(), "12LD");
    assert_eq!(Instr::read("0LA"), (0, false, 0));
    assert_eq!(Instr::read("3XB"), (3, false, 1));
}
