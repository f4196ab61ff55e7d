use ahash::AHashMap;

use tm::bkw::colors::color_closure;
use tm::bkw::tape::BackwardResult;
use tm::hashed::{Entries, Entry};
use tm::instrs::{Parse, read_color, read_shift, read_state};
use tm::prog::Prog;
use tm::{Slot, State};

fn read_entry(entry: &str) -> Entry {
    let (slot, instr) = entry.split_once(':').unwrap();

    let mut chars = instr.chars();
    let color = chars.next().unwrap();
    let shift = chars.next().unwrap();

    (Slot::read(slot), (read_color(color), read_shift(shift)))
}

fn entries(list: &[&str]) -> Entries {
    list.iter().map(|e| read_entry(e)).collect()
}

fn expected(items: &[(char, &[&str], &[&str])]) -> AHashMap<State, (Entries, Entries)> {
    let mut map = AHashMap::new();

    for (state, same, diff) in items {
        map.insert(read_state(*state), (entries(same), entries(diff)));
    }

    map
}

#[test]
fn test_entrypoints() {
    assert_eq!(
        expected(&[('B', &["B0:1L", "B1:0R"], &["A0:1RB"])]),
        Prog::<2, 2>::from("1RB ...  1LB 0RB").get_entrypoints(),
    );

    assert_eq!(
        expected(&[('B', &["B0:0L", "B1:2R", "B2:0R"], &["A0:1RB"])]),
        Prog::<2, 3>::from("1RB ... ...  0LB 2RB 0RB").get_entrypoints(),
    );

    assert_eq!(
        expected(&[
            ('A', &[], &["B1:2R", "B2:0R"]),
            ('B', &["B0:2L"], &["A0:1R", "A2:2L"]),
        ]),
        Prog::<2, 3>::from("1RB ... 2LB  2LB 2RA 0RA").get_entrypoints(),
    );

    assert_eq!(
        expected(&[
            ('A', &["A2:1R"], &["B2:0L"]),
            ('B', &["B0:1L", "B1:2R"], &["A0:1R", "A1:0R"]),
        ]),
        Prog::<2, 3>::from("1RB 0RB 1RA  1LB 2RB 0LA").get_entrypoints(),
    );

    assert_eq!(
        expected(&[
            ('A', &[], &["B0:0L", "B1:1R"]),
            ('B', &[], &["A0:1R", "C0:0L"]),
            ('C', &[], &["A1:1R"]),
        ]),
        Prog::<3, 2>::from("1RB 1RC  0LA 1RA  0LB ...").get_entrypoints(),
    );

    assert_eq!(
        expected(&[
            ('A', &[], &["C1:1R"]),
            ('B', &["B0:0L"], &["A0:1R"]),
            ('C', &["C0:0L"], &["B1:1R"]),
        ]),
        Prog::<3, 2>::from("1RB ...  0LB 1RC  0LC 1RA").get_entrypoints(),
    );

    assert_eq!(
        expected(&[
            ('A', &[], &["B0:1L"]),
            ('B', &[], &["A0:1R", "A1:1L"]),
            ('C', &["C0:1R", "C1:0L"], &["B1:1L"]),
        ]),
        Prog::<3, 2>::from("1RB 1LB  1LA 1LC  1RC 0LC").get_entrypoints(),
    );

    assert_eq!(
        expected(&[
            ('A', &[], &["B1:1L"]),
            ('B', &["B0:1L"], &["A0:1R"]),
            ('C', &["C0:1R", "C1:0L"], &["A1:0L"]),
        ]),
        Prog::<3, 2>::from("1RB 0LC  1LB 1LA  1RC 0LC").get_entrypoints(),
    );

    assert_eq!(
        expected(&[
            ('A', &["A1:2R"], &["B2:3L", "B3:0L"]),
            ('B', &["B0:1L", "B1:3R"], &["A0:1R", "A2:0R", "A3:2R"]),
        ]),
        Prog::<2, 4>::from("1RB 2RA 0RB 2RB  1LB 3RB 3LA 0LA").get_entrypoints(),
    );

    assert_eq!(
        expected(&[
            ('B', &[], &["A0:1RB"]),
            ('C', &["C0:1R"], &["B0:0L", "D0:0L"]),
            ('D', &["D1:0L"], &["C1:1L"]),
        ]),
        Prog::<4, 2>::from("1RB ...  0LC ...  1RC 1LD  0LC 0LD").get_entrypoints(),
    );

    assert_eq!(
        expected(&[
            ('B', &[], &["A0:1RB", "D1:0L"]),
            ('C', &["C0:1R"], &["B0:0L", "D0:0L"]),
            ('D', &[], &["C1:1L"]),
        ]),
        Prog::<4, 2>::from("1RB ...  0LC ...  1RC 1LD  0LC 0LB").get_entrypoints(),
    );

    assert_eq!(
        expected(&[
            ('A', &[], &["D1:1L"]),
            ('B', &["B1:1R"], &["A0:1R"]),
            ('C', &["C1:0R"], &["A1:1L"]),
            ('D', &["D0:1L"], &["B0:1R", "C0:0R"]),
        ]),
        Prog::<4, 2>::from("1RB 1LC  1RD 1RB  0RD 0RC  1LD 1LA").get_entrypoints(),
    );

    assert_eq!(
        expected(&[
            ('A', &[], &["D1:1L", "E0:1L"]),
            ('B', &[], &["A0:1R", "E1:0L"]),
            ('C', &[], &["A1:1L", "B0:0L"]),
            ('D', &[], &["B1:0R", "C0:1R"]),
            ('E', &[], &["C1:1L", "D0:1R"]),
        ]),
        Prog::<5, 2>::from("1RB 1LC  0LC 0RD  1RD 1LE  1RE 1LA  1LA 0LB").get_entrypoints(),
    );
}

#[test]
fn test_is_reversible() {
    assert!(Prog::<2, 2>::from("0RB ...  1LA 1RB").is_reversible());
    assert!(Prog::<2, 2>::from("0RB 0LA  1LA 1RB").is_reversible());
    assert!(!Prog::<2, 2>::from("0RB 1LA  1LA 1RB").is_reversible());

    assert!(Prog::<3, 2>::from("0RB ...  0LC 1RA  1RB 1LC").is_reversible());
    assert!(Prog::<3, 2>::from("0RB 0RA  0LC 1RA  1RB 1LC").is_reversible());
    assert!(!Prog::<3, 2>::from("0RB 0RB  0LC 1RA  1RB 1LC").is_reversible());

    assert!(Prog::<4, 2>::from("1RB 0LD  0LC 0RB  1LA 1LD  1LC ...").is_reversible());
    assert!(Prog::<4, 2>::from("1RB 0LD  0LC 0RB  1LA 1LD  1LC 0LA").is_reversible());
    assert!(!Prog::<4, 2>::from("1RB 0LD  0LC 0RB  1LA 1LD  1LC 1LA").is_reversible());

    assert!(Prog::<5, 2>::from("1RB 0RD  1RC 0RB  1RD ...  1LE 1LA  0LE 0LA").is_reversible());
    assert!(Prog::<5, 2>::from("1RB 0RD  1RC 0RB  1RD 0RC  1LE 1LA  0LE 0LA").is_reversible());
    assert!(!Prog::<5, 2>::from("1RB 0RD  1RC 0RB  1RD 1RC  1LE 1LA  0LE 0LA").is_reversible());

    assert!(Prog::<6, 2>::from("1RB 1LD  1LC 1RE  0LD 0LC  0RE 0RF  0RA ...  1RF 1RA").is_reversible());
    assert!(Prog::<6, 2>::from("1RB 1LD  1LC 1RE  0LD 0LC  0RE 0RF  0RA 0RB  1RF 1RA").is_reversible());
    assert!(!Prog::<6, 2>::from("1RB 1LD  1LC 1RE  0LD 0LC  0RE 0RF  0RA 1RB  1RF 1RA").is_reversible());

    assert!(Prog::<7, 2>::from("1RB 1LD  0LC 0LD  1LC 1LA  0LA 1RE  0RF 0RE  0RG 1RF  0RB ...").is_reversible());
    assert!(Prog::<7, 2>::from("1RB 1LD  0LC 0LD  1LC 1LA  0LA 1RE  0RF 0RE  0RG 1RF  0RB 1RG").is_reversible());
    assert!(!Prog::<7, 2>::from("1RB 1LD  0LC 0LD  1LC 1LA  0LA 1RE  0RF 0RE  0RG 1RF  0RB 1LG").is_reversible());
}

#[test]
fn recoloring_closure() {
    // Edges: 0 -> 1 (A0), 1 -> 2 (A1), 0 -> 0 (B0).
    let clo = color_closure(&Prog::<2, 3>::from("1RB 2LB ...  0LA ... ..."));

    assert_eq!(
        clo,
        vec![
            vec![true, true, true],
            vec![false, true, true],
            vec![false, false, true],
        ],
    );
}

#[test]
fn recoloring_graph_refutes_blank() {
    // Color 1 is printed and never turned back into blank.
    let prog = Prog::<2, 2>::from("1RB 1LB  1LA 1RB");
    assert!(prog.cant_blank_by_color_graph());
    assert_eq!(prog.bkw_cant_blank(10), BackwardResult::Refuted(0));

    // Here 1 is erased again.
    let prog = Prog::<2, 2>::from("1RB 0LB  1LA 0RB");
    assert!(!prog.cant_blank_by_color_graph());

    // A printed 2 can only become 1, which never becomes blank.
    assert!(Prog::<2, 3>::from("1RB 2LB ...  0LA ... ...").cant_blank_by_color_graph());
}

#[test]
fn no_targets_is_refuted_at_once() {
    // No blank-reading instruction stays in its state.
    let prog = Prog::<2, 2>::from("1RB ...  1LA ...");
    assert!(prog.zr_shifts().is_empty());
    assert_eq!(prog.bkw_cant_spinout(10), BackwardResult::Refuted(0));
}
