use tm::macros::{
    BacksymbolLogic, GetInstr, Logic, TapeColorConverter, Updater, update_lru, update_transcript,
};
use tm::prog::Prog;
use tm::{Instr, Slot};

#[test]
fn test_params() {
    let prog = Prog::<5, 2>::from("1RB 1LC  1RC 1RB  1RD 0LE  1LA 1LD  ... 0LA");

    let block = prog.make_block_macro(3);

    assert_eq!(block.params(), (10, 8));

    let backs = prog.make_backsymbol_macro(3);

    assert_eq!(backs.params(), (80, 2));
}

const MACROS: &[(Slot, Instr)] = &[
    ((0, 0), (1, true, 1)),
    ((1, 0), (2, false, 2)),
    ((2, 1), (2, false, 3)),
    ((3, 0), (1, true, 4)),
    ((4, 2), (2, false, 2)),
];

#[test]
fn test_macro() {
    let prog = Prog::<5, 2>::from("0RB 0LC  1LA 1RB  1RD 0RE  1LC 1LA  ... 0LD");

    let mut block = prog.make_block_macro(2);

    assert_eq!(block.params(), (10, 4));

    for &(slot, instr) in MACROS {
        assert_eq!(Ok(Some(instr)), block.get_instr(&slot));
    }
}

#[test]
fn test_backsym_reconstruct() {
    let logic = BacksymbolLogic::<2, 3>::new(2);

    let config = (0, (false, vec![1, 2, 0]));

    let instr = logic.reconstruct_outputs(config);

    assert_eq!(instr, (0, true, 11), "{instr:?}");
}

#[test]
fn block_colors_round_trip() {
    let converter = TapeColorConverter::<3>::new(2);

    assert_eq!(converter.tape_to_color(vec![1, 2]), 5);
    assert_eq!(converter.color_to_tape(&5), vec![1, 2]);

    for color in 0..9 {
        let tape = converter.color_to_tape(&color);
        assert_eq!(tape.len(), 2);
        assert_eq!(converter.tape_to_color(tape), color);
    }
}

#[test]
fn macro_numbers_states_and_colors_as_met() {
    let prog = Prog::<5, 2>::from("0RB 0LC  1LA 1RB  1RD 0RE  1LC 1LA  ... 0LD");

    let mut block = prog.make_block_macro(2);
    assert_eq!(block.rep_params(), (1, 1));

    assert_eq!(block.get_instr(&(0, 0)), Ok(Some((1, true, 1))));
    assert_eq!(block.rep_params(), (2, 2));

    // A second request is answered from what was kept.
    assert_eq!(block.get_instr(&(0, 0)), Ok(Some((1, true, 1))));
    assert_eq!(block.rep_params(), (2, 2));
}

#[test]
fn history_updates() {
    assert_eq!(update_lru((1, 0), &vec![(0, 0), (1, 0), (2, 1)]), vec![(1, 0), (0, 0), (2, 1)]);
    assert_eq!(update_lru((0, 0), &vec![(0, 0), (1, 0)]), vec![(0, 0), (1, 0)]);
    assert_eq!(update_lru((3, 1), &vec![]), vec![(3, 1)]);

    assert_eq!(update_transcript(2, (1, 1), &vec![(0, 0), (1, 0)]), vec![(1, 1), (0, 0)]);
    assert_eq!(update_transcript(3, (1, 1), &vec![(0, 0), (1, 0)]), vec![(1, 1), (0, 0), (1, 0)]);

    assert_eq!(Updater::Lru.update((1, 0), &vec![(0, 0), (1, 0)]), vec![(1, 0), (0, 0)]);
}

#[test]
fn lru_macro_colors_remember_slots() {
    let prog = Prog::<2, 2>::from("1RB 1LB  1LA ...");

    let mut lru = prog.make_lru_macro();

    // A0 prints 1 and remembers that slot A0 was used.
    assert_eq!(lru.get_instr(&(0, 0)), Ok(Some((1, true, 1))));
    // B0 prints 1 too, but with another history: a new macro color.
    assert_eq!(lru.get_instr(&(1, 0)), Ok(Some((2, false, 0))));
    // B1 reads color 1, whose base color is 1: undefined.
    assert_eq!(lru.get_instr(&(1, 1)), Ok(None));
}

#[test]
fn block_logic_reads_and_writes_slots() {
    let logic = tm::macros::BlockLogic::<2, 2>::new(2);

    // Macro state 3 is base state 1 at the right end; color 2 spells 1 0.
    assert_eq!(logic.deconstruct_inputs((3, 2)), (1, (true, vec![1, 0])));

    // Leaving by the left in state 1 with cells 1 1 gives color 3, state 3.
    assert_eq!(logic.reconstruct_outputs((1, (false, vec![1, 1]))), (3, false, 3));
}
