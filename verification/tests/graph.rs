use std::collections::BTreeMap;

use tm::prog::Prog;

#[test]
fn test_connected() {
    assert!(!Prog::<3, 2>::from("1RB 1LB  1LA 1LC  1RC 0LC").is_connected());
    assert!(!Prog::<5, 2>::from("1RB 0LC  1LA 0LD  1LA ...  1LE 0RE  1RD 0LD").is_connected());

    assert!(Prog::<4, 2>::from("1RB 1LC  1RD 1RB  0RD 0RC  1LD 1LA").is_connected());
    assert!(Prog::<5, 2>::from("1RB 0LB  0LC 0RD  1RD 1LB  1LE 0RA  ... 1LA").is_connected());
    assert!(Prog::<5, 2>::from("1RB ...  0RC 0RE  0LD 1RC  1LB 0RA  1RD 1LC").is_connected());
}

#[test]
fn test_strict_direction_cycle() {
    assert!(Prog::<4, 2>::from("1RB 1LB  1RC 1LC  0LD 0RD  1RA 0LA").is_strict_cycle());
    assert!(!Prog::<4, 2>::from("1RB 1LB  0LC 0RD  0LC 1LA  1RA 0LA").is_strict_cycle());
}

#[test]
fn test_exitpoints() {
    assert_eq!(
        Prog::<3, 2>::from("1RB 1LB  1LA 1LC  1RC 0LC").get_exitpoints(),
        BTreeMap::from([(0, vec![1]), (1, vec![0, 2])]),
    );

    assert_eq!(
        Prog::<4, 2>::from("1RB 1LC  1RD 1RB  0RD 0RC  1LD 1LA").get_exitpoints(),
        BTreeMap::from([(0, vec![1, 2]), (1, vec![3]), (2, vec![3]), (3, vec![0])]),
    );

    assert_eq!(
        Prog::<5, 2>::from("1RB ...  0RC 0RE  0LD 1RC  1LB 0RA  1RD 1LC").get_exitpoints(),
        BTreeMap::from([(0, vec![1]), (1, vec![2, 4]), (2, vec![3]), (3, vec![0, 1]), (4, vec![2, 3])]),
    );
}

#[test]
fn strict_cycle_backward_and_partial() {
    // Every state moves to the previous one, round the states.
    assert!(Prog::<3, 2>::from("1LC 0RC  1LA 1RA  0LB 1LB").is_strict_cycle());
    // An undefined cell breaks it.
    assert!(!Prog::<3, 2>::from("1LC ...  1LA 1RA  0LB 1LB").is_strict_cycle());
    // A state that stays in place breaks it.
    assert!(!Prog::<2, 2>::from("1RA 1LA  1RA 1LA").is_strict_cycle());
}

#[test]
fn abstract_graph_refutes_unreached_halt() {
    // State B is never entered, so its blank slot never halts.
    assert!(Prog::<2, 2>::from("1RA 1RA  ... ...").graph_cant_halt());
    // The two-state champion halts, so no sound check clears it.
    assert!(!Prog::<2, 2>::from("1RB 1LB  1LA ...").graph_cant_halt());
    // Without halt slots there is nothing to refute.
    assert!(Prog::<2, 2>::from("1RB 1LB  1LA 1RA").graph_cant_halt());
}

#[test]
fn abstract_graph_blank() {
    // No instruction erases and the first one prints.
    assert!(Prog::<2, 2>::from("1RB 1LB  1LA ...").graph_cant_blank());
    // Blank again after three steps.
    assert!(!Prog::<2, 2>::from("1RB ...  0LB 0LA").graph_cant_blank());
}

#[test]
fn abstract_graph_spinout() {
    // No state stays in itself on a blank cell.
    assert!(Prog::<2, 2>::from("1RB 1LB  1LA ...").graph_cant_spinout());
    // Runs right over blank cells forever.
    assert!(!Prog::<1, 2>::from("1RA ...").graph_cant_spinout());
}
