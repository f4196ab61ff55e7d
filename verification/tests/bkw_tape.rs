use tm::bkw::cycle::{OverflowCycleHistory, growth_edge_observation};
use tm::bkw::{get_indef, nonblank_parity_possible, Config};
use tm::hashed::Entries;
use tm::bkw::windows::{
    Tally, WinPossible, Window, window_color_parity_possible, window_nonblank_parity_possible,
    window_possible, window_side_nonblank_mod3_possible, window_side_nonblank_parity_possible,
};
use tm::bkw::prefix::{SidePrefix, SidePrefixRun, SidePrefixSpill};
use tm::bkw::prefixes::SidePrefixPossible;
use tm::bkw::sides::{SidePossible, WindowSideSummary, LEFT_SIDE, RIGHT_SIDE};
use tm::bkw::excursions::side_excursions;
use tm::bkw::halfblank::{blank_side_possible_from_blank, frontier_slots, halfblank_slots};
use tm::bkw::pops::excursion_pops;
use tm::bkw::joint::{BlankSidePossible, JointBlankPossible, joint_blank_status_from_blank};
use tm::bkw::tails::{ColorTailCountPossible, PairTailPresencePossible, color_tail_count_from_blank, pair_tail_presence_from_blank};
use tm::bkw::tape::{Block, BackwardResult, Span, SpanT, Tape, TapeEnd};
use tm::prog::Prog;
use tm::Color;

fn block(s: &str) -> Block {
    if let Some(body) = s.strip_suffix("..") {
        if let Some((color, count)) = body.split_once('^') {
            return Block::at_least(color.parse().unwrap(), count.parse().unwrap());
        }

        return Block::at_least(body.parse().unwrap(), 1);
    }

    if let Some((color, count)) = s.split_once('^') {
        return Block::exact(color.parse().unwrap(), count.parse().unwrap());
    }

    Block::exact(s.parse().unwrap(), 1)
}

fn span(end: &str, blocks: Vec<Block>) -> Span {
    let mut span = match end {
        "0+" => Span::init_blank(),
        "?" => Span::init_unknown(),
        _ => unreachable!(),
    };

    for block in blocks {
        span.span.push_block(&block).unwrap();
    }

    span
}

fn tape(s: &str) -> Tape {
    let parts: Vec<&str> = s.split_whitespace().collect();

    let l_end = parts[0];

    assert!(matches!(l_end, "?" | "0+"));

    let l_blocks: Vec<Block> = parts[1..]
        .iter()
        .take_while(|p| !p.starts_with('['))
        .map(|&p| block(p))
        .collect();

    let scan = parts
        .iter()
        .find(|p| p.starts_with('['))
        .and_then(|p| p.trim_matches(|c| c == '[' || c == ']').parse().ok())
        .unwrap();

    let rspan_start = parts
        .iter()
        .position(|&p| p.starts_with('['))
        .map_or(parts.len(), |pos| pos + 1);

    let r_end = *parts.last().unwrap();

    let r_blocks: Vec<Block> = parts[rspan_start..parts.len() - 1]
        .iter()
        .map(|&p| block(p))
        .rev()
        .collect();

    Tape::new(scan, span(l_end, l_blocks), span(r_end, r_blocks))
}

fn assert_tape(tape: &Tape, exp: &str) {
    assert_eq!(tape.to_string(), exp);
}

fn tbackstep(tape: &mut Tape, shift: u8, print: Color, read: Color, success: bool) {
    assert!(matches!(shift, 0 | 1));

    let shift = shift != 0;

    let step = tape.is_valid_step(shift, print);

    assert_eq!(step, success);

    if !step {
        return;
    }

    tape.backstep(shift, read).unwrap();
}

#[test]
fn test_backstep_halt() {
    let mut tape = Tape::init_halt(2);

    assert_tape(&tape, "? [2] ?");

    tbackstep(&mut tape, 0, 2, 1, true);

    assert_tape(&tape, "? 2 [1] ?");

    tbackstep(&mut tape, 1, 1, 2, false);

    assert_tape(&tape, "? 2 [1] ?");

    tbackstep(&mut tape, 1, 2, 0, true);

    assert_tape(&tape, "? [0] 1 ?");

    tbackstep(&mut tape, 1, 0, 2, true);

    assert_tape(&tape, "? [2] 0 1 ?");
}

#[test]
fn test_backstep_blank() {
    let mut tape = Tape::init_blank(2);

    assert_tape(&tape, "0+ [2] 0+");

    tbackstep(&mut tape, 0, 1, 1, false);
    tbackstep(&mut tape, 0, 2, 1, false);
    tbackstep(&mut tape, 0, 0, 1, true);

    assert_tape(&tape, "0+ 2 [1] 0+");

    tbackstep(&mut tape, 1, 0, 0, false);
    tbackstep(&mut tape, 1, 1, 0, false);
    tbackstep(&mut tape, 1, 2, 0, true);

    assert_tape(&tape, "0+ [0] 1 0+");

    tbackstep(&mut tape, 1, 1, 0, false);
    tbackstep(&mut tape, 1, 2, 0, false);
    tbackstep(&mut tape, 1, 0, 0, true);

    assert_tape(&tape, "0+ [0] 0 1 0+");
}

#[test]
fn test_backstep_spinout() {
    let mut tape = Tape::init_spinout(true);

    assert_tape(&tape, "? [0] 0+");

    tbackstep(&mut tape, 0, 1, 1, false);
    tbackstep(&mut tape, 0, 2, 1, false);
    tbackstep(&mut tape, 0, 0, 1, true);

    assert_tape(&tape, "? 0 [1] 0+");

    tbackstep(&mut tape, 0, 1, 2, false);
    tbackstep(&mut tape, 0, 2, 2, false);
    tbackstep(&mut tape, 0, 0, 2, true);

    assert_tape(&tape, "? 0 1 [2] 0+");

    tbackstep(&mut tape, 1, 1, 2, true);
    tbackstep(&mut tape, 1, 0, 1, true);
    tbackstep(&mut tape, 1, 0, 0, true);
    tbackstep(&mut tape, 1, 0, 0, true);

    assert_tape(&tape, "? [0] 0 1 2^2 0+");
}

#[test]
fn test_backstep_required() {
    let mut tape = tape("0+ [1] 1 0 ?");

    assert_tape(&tape, "0+ [1] 1 0 ?");

    tbackstep(&mut tape, 0, 1, 0, true);

    assert_tape(&tape, "0+ 1 [0] 0 ?");
}

#[test]
fn test_spinout() {
    let mut tape = tape("0+ [1] 0^2 ?");

    assert_tape(&tape, "0+ [1] 0^2 ?");

    assert!(!tape.is_valid_step(false, 1));
    assert!(tape.is_spinout(true, 1));

    tape.push_indef(true).unwrap();

    assert_tape(&tape, "0+ [1] 1.. 0^2 ?");

    assert!(!tape.is_spinout(false, 1));
    assert!(tape.is_spinout(true, 1));
}

#[test]
fn test_parse() {
    let tapes = [
        "? 2 1^2 [5] 3^3 0+",
        "0+ 2 1^2 [5] 3^3 ?",
        "0+ 2 1^2 [5] 3^3 0+",
        "? 2 3^11 4 1^11 [0] ?",
        "? 2 3^11 4 1^11 [0] 0+",
        "0+ 2 3^11 4 1^11 [0] ?",
        "? 4^118 [4] 5^2 2 4 5^7 1 0+",
        "? 4^118 [4] 5^2 2 4 5^7 1 0+",
        "0+ 4^118 [4] 5^2 2 4 5^7 1 0+",
    ];

    for text in tapes {
        assert_tape(&tape(text), text);
    }
}

#[test]
fn test_backstep_indef() {
    let mut tape = tape("0+ [1] 1.. 0^2 ?");

    tape.backstep(false, 1).unwrap();

    assert_tape(&tape, "0+ 1 [1] 1.. 0^2 ?");
}

#[test]
fn test_push_indef() {
    let mut tape = tape("0+ 1 [0] ?");

    tape.push_indef(false).unwrap();

    assert_tape(&tape, "0+ 1 0.. [0] ?");

    assert_tape(&tape, "0+ 1 0.. [0] ?");

    tape.scan = 1;
    tape.push_indef(false).unwrap();

    assert_tape(&tape, "0+ 1 0.. 1.. [1] ?");

    tape.scan = 0;
    tape.push_indef(false).unwrap();

    assert_tape(&tape, "0+ 1 0.. 1.. 0.. [0] ?");

    tape.backstep(false, 0).unwrap();

    assert_tape(&tape, "0+ 1 0.. 1.. 0^2.. [0] ?");
}

#[test]
fn test_count_limit() {
    let mut exact = tape("? 1^255 [1] 0 ?");
    assert!(matches!(exact.backstep(false, 0), Err(BackwardResult::CountLimit)));

    let config = Config::new(0, tape("? 1^255.. [1] ?"));
    let diff = Entries::new();
    let same = Entries::new();
    assert!(matches!(get_indef(false, &config, &diff, &same), Err(BackwardResult::CountLimit)));
}

#[test]
fn test_get_indef_skips_noop_blank_extension() {
    let config = Config::new(1, Tape::init_l_spinout());
    let diff = Entries::new();
    let same = Entries::new();

    // `init_l_spinout` is `0+ [0] ?`. Pushing an indefinite 0 run onto the
    // left `0+` tail changes nothing, so there is no distinct indefinite
    // branch to add.
    assert!(get_indef(false, &config, &diff, &same).unwrap().is_none());
}

#[test]
fn get_indef_keeps_entries_that_fit_the_widened_tape() {
    // `? [1] ?` widened left by an indefinite run of 1s; of the entries
    // that move right, the one that prints 1 fits the cell left of the head
    // and the one that prints 0 does not.
    let config = Config::new(1, tape("? [1] ?"));
    let diff: Entries = vec![((0, 2), (1, true)), ((0, 3), (0, true))];
    let same = Entries::new();
    let (instrs, widened) = get_indef(false, &config, &diff, &same).unwrap().unwrap();
    assert_eq!(instrs, vec![(2, true, 0)]);
    assert_eq!(widened.state, 1);
    assert_tape(&widened.tape, "? 1.. [1] ?");
}

#[test]
fn fresh_zero_rules() {
    let mut t = tape("? 1 0 [0] ?");
    assert!(!t.enforce_fresh_zero_side_invariants(true, false));

    let mut t = tape("? 0 1 [2] ?");
    assert!(t.enforce_fresh_zero_side_invariants(true, false));
    assert_tape(&t, "0+ 1 [2] ?");

    let mut t = tape("? 1 [0] ?");
    assert!(t.enforce_fresh_zero_side_invariants(true, true));
    assert_tape(&t, "? 1 [0] 0+");
    assert_eq!(t.lspan.end, TapeEnd::Unknown);
}

#[test]
fn parity_masks() {
    assert_eq!(tape("0+ 1 [1] 2^3 0+").nonblank_parity_mask(), 0b10);
    assert_eq!(tape("0+ 1 [0] 2^3 0+").nonblank_parity_mask(), 0b01);
    assert_eq!(tape("0+ 1 [0] 2^2 0+").nonblank_parity_mask(), 0b10);
    assert_eq!(tape("0+ 1.. [0] 0+").nonblank_parity_mask(), 0b11);
    assert_eq!(tape("? 1 [0] 0+").nonblank_parity_mask(), 0b11);
    assert_eq!(tape("0+ 1 [0] 2^2 0+").side_nonblank_parity_masks(), (0b10, 0b01));
    assert_eq!(tape("0+ 1^4 [0] 2^2 ?").side_nonblank_mod3_masks(), (0b010, 0b111));
}

#[test]
fn span_shape() {
    let s = SpanT::init_blank();
    assert!(s.blank());
    assert_eq!(s.len(), 0);
}

#[test]
fn test_lower_bounded_indefinite_runs() {
    let mut t = tape("0+ [0] 1^3.. ?");

    assert!(!t.pull_needs_count_one_split(false));
    t.backstep(false, 0).unwrap();
    assert_tape(&t, "0+ [0] 1^2.. ?");

    // Definite and indefinite same-color pushes both raise the lower bound.
    let mut pushed = tape("0+ 1^2.. [1] ?");
    pushed.backstep(false, 0).unwrap();
    assert_tape(&pushed, "0+ 1^3.. [0] ?");
    pushed.scan = 1;
    pushed.push_indef(false).unwrap();
    assert_tape(&pushed, "0+ 1^4.. [1] ?");

    let merged = tape("0+ [0] 1 1^2.. ?");
    assert_tape(&merged, "0+ [0] 1^3.. ?");
    assert!(!merged.pull_needs_count_one_split(false));

    let mut split = tape("0+ [0] 1.. ?");
    assert!(split.pull_needs_count_one_split(false));
    split.rspan.set_head_to_one();
    assert_tape(&split, "0+ [0] 1 ?");
}

#[test]
fn test_nonblank_parity_pruning() {
    let prog = Prog::<3, 3>::from("1RB 2RA 1LC  2LC 1RB 2RB  ... 2LA 1LA");
    let parity = prog.nonblank_parity_from_blank();

    // For this machine, A and C always have even support while B always has
    // odd support.
    assert_eq!(parity.possible, vec![0b01, 0b10, 0b01]);

    let even = tape("0+ 2 1 [0] 0+");
    assert_eq!(even.nonblank_parity_mask(), 0b01);
    assert!(nonblank_parity_possible(0, &even, &parity));
    assert!(!nonblank_parity_possible(1, &even, &parity));
    assert!(nonblank_parity_possible(2, &even, &parity));

    let odd = tape("0+ 2 [0] 0+");
    assert_eq!(odd.nonblank_parity_mask(), 0b10);
    assert!(!nonblank_parity_possible(0, &odd, &parity));
    assert!(nonblank_parity_possible(1, &odd, &parity));

    // An unresolved tail or an indefinite nonblank run remains conservative.
    let unknown = tape("0+ 2 1 [0] ?");
    assert_eq!(unknown.nonblank_parity_mask(), 0b11);
    assert!(nonblank_parity_possible(1, &unknown, &parity));

    let indefinite = tape("0+ 1.. [0] 0+");
    assert_eq!(indefinite.nonblank_parity_mask(), 0b11);
}

#[test]
fn test_scanned_fresh_zero_closes_opposite_tail() {
    let prog = Prog::<3, 3>::from("1RB 2RA 1LC  2LC 1RB 2RB  ... 2LA 1LA");
    let parity = prog.nonblank_parity_from_blank();

    // The program never writes blank, so the scanned 0 is fresh and the
    // unknown tail to its right is all blank; the even support then rules
    // out state B.
    let mut branch = tape("0+ 2 1 [0] ?");
    assert!(branch.enforce_fresh_zero_side_invariants(true, true));
    assert_tape(&branch, "0+ 2 1 [0] 0+");
    assert!(!nonblank_parity_possible(1, &branch, &parity));

    // A fresh scanned blank cannot have nonblank cells on both sides.
    let mut impossible = tape("? 1 [0] 2 ?");
    assert!(!impossible.enforce_fresh_zero_side_invariants(true, true));
}

fn win(state: u8, left: u8, scan: u8, right: u8) -> Window {
    Window { state, left_blank: false, left, scan, right, right_blank: false }
}

/// Whether a tally is marked for a window under any tail flags.
fn marked_any(wp: &WinPossible, k: Tally, state: u8, left: u8, scan: u8, right: u8, t: u8, states: usize, colors: usize) -> bool {
    [false, true].iter().any(|&lb| {
        [false, true].iter().any(|&rb| {
            let w = Window { state, left_blank: lb, left, scan, right, right_blank: rb };
            wp.marked(k, w, t, states, colors)
        })
    })
}

#[test]
fn test_window_nonblank_parity_pruning() {
    let prog = Prog::<2, 2>::from("1RB 1RB  1LA ...");
    let state_parity = prog.nonblank_parity_from_blank();
    assert_eq!(state_parity.possible[1], 0b11);

    let (forbid_left, forbid_right) = prog.shift_side_forbidden();
    let windows = prog.win_possible_from_blank(&forbid_left, &forbid_right);

    // State B admits both support parities overall, but an exact local
    // window can retain a single parity.
    let mut found_exact = false;
    for scan in 0..2u8 {
        for left in 0..2u8 {
            for right in 0..2u8 {
                let mut mask = 0u8;
                for t in 0..4u8 {
                    if marked_any(&windows, Tally::SideParity, 1, left, scan, right, t, 2, 2) {
                        let total = (t % 2 + t / 2 + u8::from(scan != 0)) % 2;
                        mask |= 1 << total;
                    }
                }
                if matches!(mask, 0b01 | 0b10) {
                    found_exact = true;
                }
            }
        }
    }
    assert!(found_exact);

    // With both neighbors fixed, an incompatible exact support parity is
    // rejected. Side tally 1 (left odd, right even) gives odd support.
    let mut synthetic = WinPossible::empty(1, 2);
    synthetic.mark(Tally::SideParity, win(0, 1, 0, 0), 1, 1, 2);

    let odd = tape("0+ 1 [0] 0+");
    assert_eq!(odd.nonblank_parity_mask(), 0b10);
    assert!(window_nonblank_parity_possible::<1, 2>(0, &odd, &synthetic));

    let even = tape("0+ 1^2 [0] 0+");
    assert_eq!(even.nonblank_parity_mask(), 0b01);
    assert!(!window_nonblank_parity_possible::<1, 2>(0, &even, &synthetic));
}

#[test]
fn test_window_side_nonblank_parity_pruning() {
    // Same exact local window and same total odd parity, but only the
    // (left odd, right even) distribution is forward-reachable.
    let mut synthetic = WinPossible::empty(1, 2);
    synthetic.mark(Tally::SideParity, win(0, 1, 0, 1), 1, 1, 2);

    let matching = tape("0+ 1 [0] 1^2 0+");
    assert_eq!(matching.side_nonblank_parity_masks(), (0b10, 0b01));
    assert!(window_side_nonblank_parity_possible::<1, 2>(0, &matching, &synthetic));

    // Move the odd support to the right. Total parity is still odd, so the
    // total-parity filter accepts it, while the joint side-parity filter
    // does not.
    let wrong_distribution = tape("0+ 1^2 [0] 1 0+");
    assert_eq!(wrong_distribution.nonblank_parity_mask(), 0b10);
    assert!(window_nonblank_parity_possible::<1, 2>(0, &wrong_distribution, &synthetic));
    assert!(!window_side_nonblank_parity_possible::<1, 2>(0, &wrong_distribution, &synthetic));
}

#[test]
fn test_window_side_nonblank_mod3_pruning() {
    // Same exact local window and same side parities, but different
    // left-side nonblank count modulo 3.
    let mut synthetic = WinPossible::empty(1, 2);
    synthetic.mark(Tally::SideParity, win(0, 1, 0, 0), 1, 1, 2);
    // Mod-3 code 1 = left residue 1, right residue 0.
    synthetic.mark(Tally::SideMod3, win(0, 1, 0, 0), 1, 1, 2);

    let one = tape("0+ 1 [0] 0+");
    assert_eq!(one.side_nonblank_mod3_masks(), (0b010, 0b001));
    assert!(window_side_nonblank_mod3_possible::<1, 2>(0, &one, &synthetic));

    let three = tape("0+ 1^3 [0] 0+");
    assert_eq!(three.side_nonblank_parity_masks(), (0b10, 0b01));
    assert!(window_side_nonblank_parity_possible::<1, 2>(0, &three, &synthetic));
    assert_eq!(three.side_nonblank_mod3_masks(), (0b001, 0b001));
    assert!(!window_side_nonblank_mod3_possible::<1, 2>(0, &three, &synthetic));
}

#[test]
fn test_window_per_color_parity_pruning() {
    // Three colors: vector bit 0 is the parity of color 1, bit 1 of color
    // 2. The exact window admits only vector 01 (odd 1s, even 2s).
    let mut synthetic = WinPossible::empty(1, 3);
    synthetic.mark(Tally::ColorParity, win(0, 1, 0, 0), 0b01, 1, 3);

    let color_1 = tape("0+ 1 [0] 0+");
    assert_eq!(color_1.color_parity_mask::<3>(), 1 << 0b01);
    assert!(window_color_parity_possible::<1, 3>(0, &color_1, &synthetic));

    let color_2 = tape("0+ 2 [0] 0+");
    assert_eq!(color_2.nonblank_parity_mask(), 0b10);
    assert_eq!(color_2.color_parity_mask::<3>(), 1 << 0b10);
    assert!(!window_color_parity_possible::<1, 3>(0, &color_2, &synthetic));

    // An indefinite run of color 1 makes only the color-1 parity unknown.
    let indefinite = tape("0+ 1.. [0] 0+");
    assert_eq!(indefinite.color_parity_mask::<3>(), (1 << 0b00) | (1 << 0b01));
}

#[test]
fn test_forward_per_color_parity_propagation() {
    let prog = Prog::<2, 3>::from("1RB ... ...  ... ... ...");
    let (forbid_left, forbid_right) = prog.shift_side_forbidden();
    let windows = prog.win_possible_from_blank(&forbid_left, &forbid_right);

    // A0 writes one 1 and moves right onto blank, so B0 has vector 01.
    assert!(marked_any(&windows, Tally::ColorParity, 1, 1, 0, 0, 0b01, 2, 3));
    assert!(!marked_any(&windows, Tally::ColorParity, 1, 1, 0, 0, 0b10, 2, 3));
}

#[test]
fn start_window_is_possible() {
    let prog = Prog::<2, 2>::from("1RB 1LB  1LA ...");
    let (forbid_left, forbid_right) = prog.shift_side_forbidden();
    let windows = prog.win_possible_from_blank(&forbid_left, &forbid_right);

    // The blank tape in the start state, with its even tallies.
    assert!(window_possible::<2, 2>(0, &tape("0+ [0] 0+"), &windows));
    assert!(marked_any(&windows, Tally::SideParity, 0, 0, 0, 0, 0, 2, 2));
    assert!(marked_any(&windows, Tally::SideMod3, 0, 0, 0, 0, 0, 2, 2));
    // After A0 (print 1, move right) the machine is in B with a 1 on its left.
    assert!(marked_any(&windows, Tally::SideParity, 1, 1, 0, 0, 1, 2, 2));
    assert!(!marked_any(&windows, Tally::SideParity, 1, 1, 0, 0, 0, 2, 2));
    // A state beyond the table has no window.
    assert!(!window_possible::<2, 2>(2, &tape("0+ [0] 0+"), &windows));
}

#[test]
fn test_state_side_colors_and_pairs() {
    let prog = Prog::<2, 2>::from("1RB ...  ... ...");
    let (forbid_left, forbid_right) = prog.shift_side_forbidden();
    let windows = prog.win_possible_from_blank(&forbid_left, &forbid_right);
    let sides = prog.side_possible_from_blank(&windows);

    // After the only step the exact local window is `1 [0] 0` in state B.
    let b = sides.window(1, 0, 1, 0);
    assert!(b.reachable);
    assert_eq!(b.colors[LEFT_SIDE], 0b11);
    assert_eq!(b.colors[RIGHT_SIDE], 0b01);
    assert_ne!(b.pairs[LEFT_SIDE][1] & 0b01, 0);
    assert_eq!(b.pairs[LEFT_SIDE][1] & 0b10, 0);

    // No state-B window scanning 1 is reachable.
    assert!((0..2).all(|left| {
        (0..2).all(|right| !sides.window(1, 1, left, right).reachable)
    }));

    let valid = tape("0+ 1 [0] 0+");
    assert!(valid.obeys_state_side(1, &sides));

    let impossible_right = tape("0+ [0] 1 0+");
    assert!(!impossible_right.obeys_state_side(1, &sides));

    // A fixed run of length two requires (1,1), which never occurs here.
    let impossible_pair = tape("0+ 1^2 [0] 0+");
    assert!(!impossible_pair.obeys_state_side(1, &sides));

    // An indefinite run may have length one.
    let indefinite = tape("0+ 1.. [0] 0+");
    assert!(indefinite.obeys_state_side(1, &sides));

    // A lower bound of two guarantees an internal (1,1) adjacency.
    let at_least_two = tape("0+ 1^2.. [0] 0+");
    assert!(!at_least_two.obeys_state_side(1, &sides));
}

#[test]
fn test_state_side_window_conditioning() {
    // Only the right=1 window admits left pair (1,1).
    let mut sides = SidePossible::<1, 2>::new();

    sides.set_window(0, 0, 1, 0, &WindowSideSummary {
        reachable: true,
        colors: [0b11, 0b01],
        pairs: [vec![0b01, 0b01], vec![0b01, 0]],
    });

    sides.set_window(0, 0, 1, 1, &WindowSideSummary {
        reachable: true,
        colors: [0b11, 0b11],
        pairs: [vec![0b01, 0b11], vec![0b01, 0b01]],
    });

    let valid = tape("0+ 1 [0] 0+");
    assert!(valid.obeys_state_side(0, &sides));

    let cross_window_union_only = tape("0+ 1^2 [0] 0+");
    assert!(!cross_window_union_only.obeys_state_side(0, &sides));
}

#[test]
fn test_side_prefix_spill_matches_third_run() {
    // Left side beyond the immediate 4 is exactly 3, 2, 1, blank; the spill
    // keeps the third color 1.
    let mut possible = SidePrefixPossible::<1, 5>::new();
    possible.add((
        false,
        (0, 0, 4, 0),
        SidePrefix {
            runs: [
                SidePrefixRun { color: 3, count: 1 },
                SidePrefixRun { color: 2, count: 1 },
            ],
            len: 2,
            spill: SidePrefixSpill::Run { color: 1, count: 1, farther_dirty: false },
        },
    ));
    possible.add((true, (0, 0, 4, 0), SidePrefix::blank()));

    let actual = tape("0+ 1 2 3 4 [0] 0+");
    assert!(actual.obeys_side_prefix_possible(0, &possible));

    let wrong_third = tape("0+ 4 2 3 4 [0] 0+");
    assert!(!wrong_third.obeys_side_prefix_possible(0, &possible));
}

#[test]
fn test_ordered_side_prefix_pruning() {
    // Walk right writing 1, 2, 3: at D0 the window is `3 [0] 0` and the
    // runs beyond the left neighbor are exactly 2, 1, then blank.
    let prog = Prog::<4, 4>::from("1RB ... ... ...  2RC ... ... ...  3RD ... ... ...  ... ... ... ...");
    let (forbid_left, forbid_right) = prog.shift_side_forbidden();
    let windows = prog.win_possible_from_blank(&forbid_left, &forbid_right);
    let sides = prog.side_possible_from_blank(&windows);
    let prefixes = prog.side_prefix_possible_from_blank(&windows, &sides);

    let actual = tape("0+ 1 2 3 [0] 0+");
    assert!(actual.obeys_side_prefix_possible(3, &prefixes));

    // Same colors and window, farther runs in the wrong order.
    let wrong_order = tape("0+ 2 1 3 [0] 0+");
    assert!(!wrong_order.obeys_side_prefix_possible(3, &prefixes));

    // One more nonblank farther out is impossible too.
    let hidden_nonblank = tape("0+ 2 1 2 3 [0] 0+");
    assert!(!hidden_nonblank.obeys_side_prefix_possible(3, &prefixes));
}

#[test]
fn side_prefix_table_starts_blank_on_both_sides() {
    let prog = Prog::<2, 2>::from("1RB ...  ... ...");
    let (forbid_left, forbid_right) = prog.shift_side_forbidden();
    let windows = prog.win_possible_from_blank(&forbid_left, &forbid_right);
    let sides = prog.side_possible_from_blank(&windows);
    let prefixes = prog.side_prefix_possible_from_blank(&windows, &sides);

    assert!(prefixes.has((false, (0, 0, 0, 0), SidePrefix::blank())));
    assert!(prefixes.has((true, (0, 0, 0, 0), SidePrefix::blank())));
    // After the step the left side holds only the written 1: nothing lies
    // beyond it.
    assert!(prefixes.has((false, (1, 0, 1, 0), SidePrefix::blank())));
    assert!(!prefixes.has((false, (1, 0, 1, 0), SidePrefix::dirty_unknown())));

    assert!(tape("0+ 1 [0] 0+").obeys_side_prefix_possible(1, &prefixes));
    assert!(!tape("0+ 1 1 [0] 0+").obeys_side_prefix_possible(1, &prefixes));
}

#[test]
fn test_per_color_tail_count_filter() {
    let prog = Prog::<2, 3>::from("1RB ... ...  ... ... ...");
    let (forbid_left, forbid_right) = prog.shift_side_forbidden();
    let windows = prog.win_possible_from_blank(&forbid_left, &forbid_right);
    let count = color_tail_count_from_blank(&prog, &windows);

    // After the only move, B0 has left neighbor 1 and nothing farther left.
    assert_eq!(count.mask(1, 0, Some(1), Some(0), 1), 1_u64 << 0);

    let actual = tape("? 1 [0] 0+");
    assert!(actual.obeys_color_tail_count(1, &count));

    // Another 1 farther left is rejected.
    let hidden_one = tape("? 1^2 [0] 0+");
    assert!(!hidden_one.obeys_color_tail_count(1, &count));

    // So is a different hidden color.
    let hidden_two = tape("? 2 1 [0] 0+");
    assert!(!hidden_two.obeys_color_tail_count(1, &count));
}

#[test]
fn test_per_color_tail_count_distinguishes_one_from_two_plus() {
    let mut possible = ColorTailCountPossible::<1, 2>::new();

    // Window `0 [0] 0`: one color-1 cell in the left tail, none in the
    // right one (status 1).
    possible.add(0, 0, 0, 0, 1, 1);

    let one = tape("0+ 1 0 [0] 0+");
    assert!(one.obeys_color_tail_count(0, &possible));

    let two = tape("0+ 1^2 0 [0] 0+");
    assert!(!two.obeys_color_tail_count(0, &possible));

    // A lower bound of two is the `2+` count too.
    let at_least_two = tape("0+ 1^2.. 0 [0] 0+");
    assert!(!at_least_two.obeys_color_tail_count(0, &possible));
}

#[test]
fn test_pair_tail_presence_same_run_filter() {
    let mut possible = PairTailPresencePossible::<1, 3>::new();

    // One run has only color 1 in the left tail, another only color 2 in
    // the right tail; no single run has both.
    possible.add(0, 0, 0, 0, 1, 2, 0b0001);
    possible.add(0, 0, 0, 0, 1, 2, 0b1000);

    let requires_both = tape("0+ 1 0 [0] 0 2 0+");
    assert!(!requires_both.obeys_pair_tail_presence(0, &possible));

    // The correlated status: color 1 left and color 2 right.
    possible.add(0, 0, 0, 0, 1, 2, 0b1001);
    assert!(requires_both.obeys_pair_tail_presence(0, &possible));
}

#[test]
fn test_forward_pair_tail_presence_propagation() {
    // A0 writes 1 moving right; B0 writes 2 moving right. At C0 the left
    // neighbor is 2 and the older 1 is in the left tail.
    let prog = Prog::<3, 3>::from("1RB ... ...  2RC ... ...  ... ... ...");
    let (forbid_left, forbid_right) = prog.shift_side_forbidden();
    let windows = prog.win_possible_from_blank(&forbid_left, &forbid_right);
    let possible = pair_tail_presence_from_blank(&prog, &windows);

    let mask = possible.mask(2, 0, Some(2), Some(0), 1, 2);
    assert_ne!(mask & (1_u64 << 0b0001), 0);
}

#[test]
fn tail_presence_combines_counts_and_pairs() {
    let prog = Prog::<3, 3>::from("1RB ... ...  2RC ... ...  ... ... ...");
    let (forbid_left, forbid_right) = prog.shift_side_forbidden();
    let windows = prog.win_possible_from_blank(&forbid_left, &forbid_right);
    let count = color_tail_count_from_blank(&prog, &windows);
    let pairs = pair_tail_presence_from_blank(&prog, &windows);

    // At C0 the tape is `1 2 [0]`: one 1 beyond the left neighbor 2.
    assert!(tape("0+ 1 2 [0] 0+").obeys_tail_presence(2, &count, &pairs));
    // No 2 can lie beyond the neighbor 2.
    assert!(!tape("0+ 2 2 [0] 0+").obeys_tail_presence(2, &count, &pairs));
    // Nor a second 1.
    assert!(!tape("0+ 1 1 2 [0] 0+").obeys_tail_presence(2, &count, &pairs));
}

#[test]
fn test_parent_color_aware_excursions() {
    // A0 pushes right, writing 0 on the parent. B1 pops left into C, then C0
    // pops left across A's outer boundary into D. The window tables permit
    // child color 1 at A0 only when A0's own back/left neighbor is 1, not
    // when it is 0, so only back color 1 gives an outer return into D.
    let prog = Prog::<4, 2>::from("0RB ...  ... 0LC  0LD ...  ... ...");
    let mut windows = WinPossible::empty(4, 2);

    // A0: with left/back 0, right child must be 0; with left/back 1, child 1.
    windows.mark(Tally::SideParity, win(0, 0, 0, 0), 0, 4, 2);
    windows.mark(Tally::SideParity, win(0, 1, 0, 1), 0, 4, 2);

    // B1 with parent/back 0 can pop back to A's cell in state C.
    windows.mark(Tally::SideParity, win(1, 0, 1, 0), 0, 4, 2);

    // C0 can then pop across the outer boundary for either outer back color.
    windows.mark(Tally::SideParity, win(2, 0, 0, 0), 0, 4, 2);
    windows.mark(Tally::SideParity, win(2, 1, 0, 0), 0, 4, 2);

    let ex = side_excursions(&prog, &windows, true, false);

    assert_eq!(ex.ret_states(0, 0, 0) & (1 << 3), 0);
    assert_ne!(ex.ret_states(1, 0, 0) & (1 << 3), 0);
}

#[test]
fn side_excursions_pop_returns_at_once() {
    // B1 pops left into C whatever lies beyond it on the right, so it
    // returns into C; with `clean` the pop must print blank, and 0LC does.
    let prog = Prog::<4, 2>::from("0RB ...  ... 0LC  0LD ...  ... ...");
    let mut windows = WinPossible::empty(4, 2);
    windows.mark(Tally::SideParity, win(1, 0, 1, 0), 0, 4, 2);

    let ex = side_excursions(&prog, &windows, true, true);
    assert_eq!(ex.ret_states(0, 1, 1), 1 << 2);
    // No window has B1 next to a parent of color 1.
    assert_eq!(ex.ret_states(1, 1, 1), 0);
    // A0 pushes, and no window lets it, so it has no return.
    assert_eq!(ex.ret_states(0, 0, 0), 0);

    // Toward the left, B1's pop moves away from the boundary.
    let left = side_excursions(&prog, &windows, false, false);
    assert_eq!(left.ret_states(0, 1, 1), 0);
}

#[test]
fn test_same_run_joint_blank_dirty_flags() {
    // Writing a nonblank while moving onto fresh blank reaches B0 with a dirty
    // left side and blank right side, but not with both sides blank.
    let prog = Prog::<2, 2>::from("1RB ...  ... ...");
    let (forbid_left, forbid_right) = prog.shift_side_forbidden();
    let windows = prog.win_possible_from_blank(&forbid_left, &forbid_right);
    let joint = joint_blank_status_from_blank(&prog, &windows);
    // Bit `1 << flags`, with flags 1 for a blank left side plus 2 for a
    // blank right side.
    let both_bit = 1_u8 << 3;
    let dirty_left_blank_right = 1_u8 << 2;
    assert_ne!(joint.any(0, 0) & both_bit, 0);
    assert_eq!(joint.any(1, 0) & both_bit, 0);
    assert_ne!(joint.any(1, 0) & dirty_left_blank_right, 0);

    // Leaving zero behind preserves an exact blank tape as the head moves.
    let prog = Prog::<2, 2>::from("0RB ...  ... ...");
    let (forbid_left, forbid_right) = prog.shift_side_forbidden();
    let windows = prog.win_possible_from_blank(&forbid_left, &forbid_right);
    let joint = joint_blank_status_from_blank(&prog, &windows);
    assert_ne!(joint.any(1, 0) & both_bit, 0);
}

#[test]
fn joint_blank_status_is_window_conditioned() {
    // After 1RB the B0 window has left neighbor 1, right neighbor 0; its
    // left side is dirty and its right side blank, and no other window
    // with B scanning 0 occurs.
    let prog = Prog::<2, 2>::from("1RB ...  ... ...");
    let (forbid_left, forbid_right) = prog.shift_side_forbidden();
    let windows = prog.win_possible_from_blank(&forbid_left, &forbid_right);
    let joint = joint_blank_status_from_blank(&prog, &windows);
    assert_eq!(joint.window_mask(1, 0, 1, 0), 1 << 2);
    assert_eq!(joint.window_mask(1, 0, 0, 0), 0);
    assert_eq!(joint.window_mask(0, 0, 0, 0), 1 << 3);
    assert_eq!(joint.any(1, 0), 1 << 2);
    // A1 never occurs.
    assert_eq!(joint.any(0, 1), 0);
}

#[test]
fn test_blank_dirty_status_is_window_conditioned() {
    // Synthetic same-state/scan join: left-blank is possible only with right
    // neighbor 0, while right neighbor 1 is possible only with a dirty left.
    // A state/scan-only status table would incorrectly accept `0+ [0] 1 ?`.
    let mut joint = JointBlankPossible::<1, 2>::empty();
    // (state, left, scan, right, left blank, right blank)
    joint.add((0, 0, 0, 0, true, false));
    joint.add((0, 0, 0, 1, false, false));

    let possible = BlankSidePossible { left_half: vec![vec![0b11; 2]; 1], right_half: vec![vec![0b11; 2]; 1], joint };

    let impossible = tape("0+ [0] 1 ?");
    assert!(!impossible.obeys_blank_side_possible(0, &possible));

    let valid_blank = tape("0+ [0] 0 ?");
    assert!(valid_blank.obeys_blank_side_possible(0, &possible));

    let valid_dirty = tape("? [0] 1 ?");
    assert!(valid_dirty.obeys_blank_side_possible(0, &possible));
}

#[test]
fn test_halfblank_inward_neighbor_is_enforced_dynamically() {
    // The joint blank/dirty table allows either local right neighbor, but
    // the half-blank table allows a blank left side only when the inward
    // (right) neighbor is 0.
    let mut joint = JointBlankPossible::<1, 2>::empty();
    for right in 0..2 {
        joint.add((0, 0, 0, right, true, false));
    }

    let possible = BlankSidePossible {
        left_half: vec![vec![1; 2]; 1], // only inward neighbor 0
        right_half: vec![vec![0b11; 2]; 1],
        joint,
    };

    let valid = tape("0+ [0] 0 ?");
    assert!(valid.obeys_blank_side_possible(0, &possible));

    let wrong_near = tape("0+ [0] 1 ?");
    assert!(!wrong_near.obeys_blank_side_possible(0, &possible));
}

#[test]
fn blank_side_checks_need_a_known_side() {
    // With no whole-side fact there is nothing to check, even with empty
    // tables; a dirty side needs a window with a dirty side.
    let joint = JointBlankPossible::<1, 2>::empty();
    let possible = BlankSidePossible { left_half: vec![vec![0; 2]; 1], right_half: vec![vec![0; 2]; 1], joint };
    assert!(tape("? [0] ?").obeys_blank_side_possible(0, &possible));
    assert!(!tape("? 1 [0] ?").obeys_blank_side_possible(0, &possible));
    // A blank right side needs the half-blank table to allow the inward
    // neighbor, here unknown, so any bit will do; the table has none.
    assert!(!tape("? [0] 0+").obeys_blank_side_possible(0, &possible));
}

/// The half-blank masks of a program: left blank, then right blank.
fn halfblanks(prog: &Prog<2, 2>) -> (Vec<Vec<u64>>, Vec<Vec<u64>>) {
    let (forbid_left, forbid_right) = prog.shift_side_forbidden();
    let windows = prog.win_possible_from_blank(&forbid_left, &forbid_right);
    let left_clean = side_excursions(prog, &windows, false, true);
    let right_clean = side_excursions(prog, &windows, true, true);
    let left_any = side_excursions(prog, &windows, false, false);
    let right_any = side_excursions(prog, &windows, true, false);
    let left_pops = excursion_pops(prog, &windows, false, &left_any);
    let right_pops = excursion_pops(prog, &windows, true, &right_any);
    let left = halfblank_slots(prog, &windows, false, &left_clean, &right_any, &right_pops);
    let right = halfblank_slots(prog, &windows, true, &right_clean, &left_any, &left_pops);
    let masks = |h: &tm::bkw::halfblank::HalfBlank<2, 2>| -> Vec<Vec<u64>> {
        (0..2).map(|st| (0..2).map(|co| h.near_mask(st, co)).collect()).collect()
    };
    (masks(&left), masks(&right))
}

#[test]
fn test_halfblank_direction() {
    // A0 writes 1 and moves right. At B0 the right side is still all blank,
    // but the left side contains the written 1.
    let prog = Prog::<2, 2>::from("1RB ...  ... ...");
    let (left, right) = halfblanks(&prog);
    assert_eq!(left[1][0], 0);
    assert_eq!(right[1][0], 1 << 1);

    // Leaving 0 behind preserves both one-sided-blank abstractions.
    let prog = Prog::<2, 2>::from("0RB ...  ... ...");
    let (left, right) = halfblanks(&prog);
    assert_ne!(left[1][0] & 1, 0);
    assert_ne!(right[1][0] & 1, 0);
}

#[test]
fn test_dynamic_blank_side_filter() {
    let prog = Prog::<2, 2>::from("1RB ...  ... ...");
    let (forbid_left, forbid_right) = prog.shift_side_forbidden();
    let windows = prog.win_possible_from_blank(&forbid_left, &forbid_right);
    let possible = blank_side_possible_from_blank(&prog, &windows);

    // The actual B0 shape has a blank right side and a dirty left side.
    let reachable = tape("? 1 [0] 0+");
    assert!(reachable.obeys_blank_side_possible(1, &possible));

    // Requiring both sides blank adds the same-run correlation and rejects B0.
    let impossible = tape("0+ [0] 0+");
    assert!(!impossible.obeys_blank_side_possible(1, &possible));
}

#[test]
fn excursion_pops_leave_the_last_print() {
    // Toward the right, B1 pops back left at once printing 0 (0LC), so its
    // return into C leaves 0 behind. A0 pushes right and, with back color 1
    // and child 1, returns into D after C0 pops, which also prints 0.
    let prog = Prog::<4, 2>::from("0RB ...  ... 0LC  0LD ...  ... ...");
    let mut windows = WinPossible::empty(4, 2);
    windows.mark(Tally::SideParity, win(0, 1, 0, 1), 0, 4, 2);
    windows.mark(Tally::SideParity, win(1, 0, 1, 0), 0, 4, 2);
    windows.mark(Tally::SideParity, win(2, 1, 0, 0), 0, 4, 2);
    let ex = side_excursions(&prog, &windows, true, false);
    let pops = excursion_pops(&prog, &windows, true, &ex);
    assert_eq!(pops.pop_colors((0, 1, 1, 2)), 1);
    assert_eq!(pops.pop_colors((1, 0, 0, 3)), 1);
    assert_eq!(pops.pop_colors((0, 0, 0, 3)), 0);
}

#[test]
fn test_fresh_frontier_direction() {
    // A0 moves right onto a fresh blank. B0 is therefore a right frontier,
    // but not a left frontier: the A cell has already been visited.
    let prog = Prog::<2, 2>::from("1RB ...  ... ...");
    let (forbid_left, forbid_right) = prog.shift_side_forbidden();
    let windows = prog.win_possible_from_blank(&forbid_left, &forbid_right);
    let left_any = side_excursions(&prog, &windows, false, false);
    let right_any = side_excursions(&prog, &windows, true, false);
    let left_pops = excursion_pops(&prog, &windows, false, &left_any);
    let right_pops = excursion_pops(&prog, &windows, true, &right_any);
    let left = frontier_slots(&prog, &windows, false, &right_any, &right_pops);
    let right = frontier_slots(&prog, &windows, true, &left_any, &left_pops);

    assert_eq!(left.near_mask(1, 0), 0);
    assert_eq!(right.near_mask(1, 0), 1 << 1);
}

#[test]
fn test_spinout_fresh_frontier_filter() {
    // These trigger states can occur scanning erased blank territory, but not
    // at the fresh frontier required for the self-looping zero transition to
    // spin out forever.
    let left = Prog::<3, 2>::from("1RB 0LB  1LA 0RC  1LC 1RB");
    assert!(!left.spinout_shifts_side_clean().contains(&(2, false)));

    let right = Prog::<3, 2>::from("1RB 0LC  1LA 0RA  1RC 1LA");
    assert!(!right.spinout_shifts_side_clean().contains(&(2, true)));
}

#[test]
fn spinout_shifts_keep_fresh_frontier_states() {
    // A0 moves right onto fresh blank in A again: a spinout that happens.
    let prog = Prog::<2, 2>::from("1RA ...  ... ...");
    assert_eq!(prog.zr_shifts(), vec![(0, true)]);
    assert_eq!(prog.spinout_shifts_side_clean(), vec![(0, true)]);
}

#[test]
fn test_halfblank_neighbor_blank_target_regression() {
    // This machine really blanks. Its final erase is A2, whose actual last
    // departure is A3 -> 2RA with inward neighbor 1. The static
    // last-departure check must not narrow the clean-return child colors to
    // the neighbor-aware half-blank masks.
    let prog = Prog::<2, 4>::from("1RB 3RB 0LA 2RA  2LB 0RB 3LA 1LA");

    assert!(prog.blank_slots_side_clean().contains(&(0, 2)));
}

#[test]
fn blank_slots_are_erase_slots() {
    // The filter only drops erase slots.
    let prog = Prog::<2, 4>::from("1RB 3RB 0LA 2RA  2LB 0RB 3LA 1LA");
    let erase = prog.erase_slots();
    let slots = prog.blank_slots_side_clean();
    assert!(!slots.is_empty());
    assert!(slots.iter().all(|sl| erase.contains(sl)));
}

#[test]
fn test_halt_side_excursion_filter() {
    // Fresh zero at a right frontier: after A0 moves right, B0 is a valid
    // halting shape because the newly scanned cell is blank and the right
    // side is still globally blank.
    let prog = Prog::<2, 2>::from("1RB ...  ... ...");
    let slots = vec![(1, 0)];
    assert!(prog.halt_slots_side_excursion(slots).contains(&(1, 0)));

    // Nonzero halt after a genuine one-sided return. A0 writes 1 and moves
    // right; B0 returns left into C, so C1 is a realizable halt slot.
    let prog = Prog::<3, 2>::from("1RB ...  0LC ...  ... ...");
    let slots = vec![(2, 1)];
    assert!(prog.halt_slots_side_excursion(slots).contains(&(2, 1)));

    // If the child side has no way to return across the parent boundary, the
    // same nonzero halt slot has no last-departure witness.
    let prog = Prog::<3, 2>::from("1RB ...  0RB ...  ... ...");
    let slots = vec![(2, 1)];
    assert!(prog.halt_slots_side_excursion(slots).is_empty());
}


#[test]
fn clean_returns_are_returns() {
    let prog = Prog::<2, 4>::from("1RB 3RB 0LA 2RA  2LB 0RB 3LA 1LA");
    let (forbid_left, forbid_right) = prog.shift_side_forbidden();
    let windows = prog.win_possible_from_blank(&forbid_left, &forbid_right);
    let mut some_clean = false;
    for push in [false, true] {
        let clean = side_excursions(&prog, &windows, push, true);
        let any = side_excursions(&prog, &windows, push, false);
        for back in 0..4 {
            for st in 0..2 {
                for co in 0..4 {
                    let c = clean.ret_states(back, st, co);
                    let a = any.ret_states(back, st, co);
                    assert_eq!(c & !a, 0);
                    some_clean |= c != 0;
                }
            }
        }
    }
    assert!(some_clean);
}

#[test]
fn test_count_limit_triggers_overflow_edge_cycle_cut() {
    // The first pass reaches the count limit on a growing ladder; the
    // second pass cuts only the recurring overflowing edge.
    let prog = Prog::<3, 2>::from("1RB 1LC  1LC 1RB  ... 1LA");
    assert!(prog.bkw_cant_halt(300).is_refuted());
}

#[test]
fn test_overflow_edge_history_requires_stable_recurrence() {
    let instr: tm::Instr = (2, true, 2);
    let mut history = OverflowCycleHistory::new();

    for (step, count) in (20..=25).zip(249_u8..=254) {
        let tape_text = format!("0+ 3.. [2] 2^{count} 0 ?");
        let config = Config::new(2, tape(&tape_text));
        let (key, observed) = growth_edge_observation(&config, instr).unwrap();
        assert_eq!(observed, count);
        history.observe(key, step, count);
    }

    let overflow = Config::new(2, tape("0+ 3.. [2] 2^255 0 ?"));
    let (key, count) = growth_edge_observation(&overflow, instr).unwrap();
    assert!(history.certifies(&key, 26, count));

    // Same tape family but irregular step spacing is not a certificate.
    let mut irregular = OverflowCycleHistory::new();
    for (step, count) in [(10, 249_u8), (11, 250), (13, 251), (14, 252), (17, 253), (18, 254)] {
        let tape_text = format!("0+ 3.. [2] 2^{count} 0 ?");
        let config = Config::new(2, tape(&tape_text));
        let (key, _) = growth_edge_observation(&config, instr).unwrap();
        irregular.observe(key, step, count);
    }
    assert!(!irregular.certifies(&key, 26, count));
}
