use std::collections::BTreeSet;

use tm::prog::Prog;

#[test]
fn test_sparse_show() {
    assert_eq!(
        Prog::<2, 4>::from("1RB 2LB 2LB ...  1LA 2RB 2LA ...").to_string(),
        "1RB 2LB 2LB  1LA 2RB 2LA"
    );

    assert_eq!(
        Prog::<4, 2>::from("1RB 0LB  0LC 0RA  1LA 1LC  ... ...").to_string(),
        "1RB 0LB  0LC 0RA  1LA 1LC"
    );

    assert_eq!(
        Prog::<8, 8>::from("1RB 1LD ... ... ... ... ... ...  0RC 0LA ... ... ... ... ... ...  0LC 1LA ... ... ... ... ... ...  0LA 0LA ... ... ... ... ... ...  ... ... ... ... ... ... ... ...  ... ... ... ... ... ... ... ...  ... ... ... ... ... ... ... ...  ... ... ... ... ... ... ... ...").to_string(),
        "1RB 1LD  0RC 0LA  0LC 1LA  0LA 0LA"
    );

    assert_eq!(
        Prog::<8, 8>::from("1RB ... ... ... ... ... ... ...  2LB 0LC ... ... ... ... ... ...  0LD ... ... ... ... ... ... ...  0LE ... ... ... ... ... ... ...  0LF ... ... ... ... ... ... ...  1LG ... ... ... ... ... ... ...  3RC ... ... ... ... ... ... ...  ... ... ... ... ... ... ... ...").to_string(),
        "1RB ... ... ...  2LB 0LC ... ...  0LD ... ... ...  0LE ... ... ...  0LF ... ... ...  1LG ... ... ...  3RC ... ... ..."
    );
}

#[test]
fn test_halt_slots() {
    assert_eq!(
        Prog::<3, 2>::from("1RB ...  0RC ...  0LA ...").halt_slots(),
        BTreeSet::from([(0, 1)]),
    );

    assert_eq!(
        Prog::<2, 3>::from("1RB 0LA ...  2LA ... ...").halt_slots(),
        BTreeSet::from([(1, 2)]),
    );

    assert_eq!(
        Prog::<8, 8>::from("1RB 1LD ... ... ... ... ... ...  0RC 0LA ... ... ... ... ... ...  0LC 1LA ... ... ... ... ... ...  0LA 0LA ... ... ... ... ... ...  ... ... ... ... ... ... ... ...  ... ... ... ... ... ... ... ...  ... ... ... ... ... ... ... ...  ... ... ... ... ... ... ... ...").halt_slots(),
        BTreeSet::from([]),
    );

    assert_eq!(
        Prog::<8, 8>::from("1RB ... ... ... ... ... ... ...  2LB 0LC ... ... ... ... ... ...  0LD ... ... ... ... ... ... ...  0LE ... ... ... ... ... ... ...  0LF ... ... ... ... ... ... ...  1LG ... ... ... ... ... ... ...  3RC ... ... ... ... ... ... ...  ... ... ... ... ... ... ... ...").halt_slots(),
        BTreeSet::from([(0, 1), (1, 2), (1, 3), (2, 1), (2, 2), (2, 3), (3, 1), (3, 3), (4, 1), (4, 3), (5, 1), (5, 3), (6, 1), (6, 3)]),
    );
}

#[test]
fn prog_get_insert_remove() {
    let mut prog = Prog::<2, 2>::init_norm();
    assert_eq!(prog.get(&(0, 0)), Some(&(1, true, 1)));
    assert_eq!(prog.get(&(1, 1)), None);
    prog.insert(&(1, 1), &(0, false, 0));
    assert_eq!(prog.get(&(1, 1)), Some(&(0, false, 0)));
    prog.remove(&(0, 0));
    assert_eq!(prog.get(&(0, 0)), None);
    assert_eq!(prog.iter(), vec![((1, 1), (0, false, 0))]);
}

#[test]
fn prog_max_reached_and_sides() {
    let prog = Prog::<3, 3>::from("1RB 2LC ...  0LA ... ...  ... ... ...");
    assert_eq!(prog.max_reached(), (2, 2));
    assert_eq!(prog.instrs(), vec![(1, true, 1), (2, false, 2), (0, false, 0)]);
    assert!(prog.reaches_both_sides(1, 2));
    assert!(!prog.reaches_both_sides(1, 1));
    assert!(!prog.reaches_both_sides(2, 0));
}

#[test]
fn prog_erase_and_zr() {
    let prog = Prog::<2, 2>::from("1RB 0LA  1RB 0RA");
    assert_eq!(prog.erase_slots(), BTreeSet::from([(0, 1), (1, 1)]));
    assert_eq!(prog.zr_shifts(), vec![(1, true)]);
}

#[test]
fn prog_from_ignores_extra_rows_and_cells() {
    let prog = Prog::<2, 2>::from("  1RB 1LA 1RA  0LA 0RB  1LB 1LB  ");
    assert_eq!(prog.to_string(), "1RB 1LA  0LA 0RB");
}
