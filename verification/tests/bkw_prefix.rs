use tm::bkw::prefix::{SidePrefix, SidePrefixRun, SidePrefixSpill};

#[test]
fn test_side_prefix_dirty_unknown_subsumption() {
    let dirty = SidePrefix::dirty_unknown();
    let blank = SidePrefix::blank();
    let one = SidePrefix {
        runs: [SidePrefixRun { color: 1, count: 1 }, SidePrefixRun::empty()],
        len: 1,
        spill: SidePrefixSpill::Blank,
    };
    let dirty_zero = SidePrefix {
        runs: [SidePrefixRun { color: 0, count: 1 }, SidePrefixRun::empty()],
        len: 1,
        spill: SidePrefixSpill::DirtyUnknown,
    };

    assert!(dirty.subsumes(dirty));
    assert!(dirty.subsumes(one));
    assert!(dirty.subsumes(dirty_zero));
    assert!(!dirty.subsumes(blank));
    assert!(!blank.subsumes(one));
}

#[test]
fn test_side_prefix_spill_survives_pulls() {
    // Near-to-far retained runs are 2,3. Prepending a new run 1 must keep the
    // dropped 3 as the spill rather than immediately degrading it to dirty.
    let base = SidePrefix {
        runs: [SidePrefixRun { color: 2, count: 1 }, SidePrefixRun { color: 3, count: 1 }],
        len: 2,
        spill: SidePrefixSpill::Blank,
    };

    let prepended = base.for_each_prepend(1);
    assert_eq!(prepended.len(), 1);
    let prefix = prepended[0];
    assert_eq!(prefix.runs[0], SidePrefixRun { color: 1, count: 1 });
    assert_eq!(prefix.runs[1], SidePrefixRun { color: 2, count: 1 });
    assert_eq!(prefix.spill, SidePrefixSpill::Run { color: 3, count: 1, farther_dirty: false });

    let first = prefix.for_each_pull::<4>();
    assert_eq!(first.len(), 1);
    assert_eq!(first[0].0, 1);

    let second = first[0].1.for_each_pull::<4>();
    assert_eq!(second.len(), 1);
    assert_eq!(second[0].0, 2);
    assert_eq!(second[0].1.len, 0);
    assert_eq!(second[0].1.spill, SidePrefixSpill::Run { color: 3, count: 1, farther_dirty: false });

    let third = second[0].1.for_each_pull::<4>();
    assert_eq!(third.len(), 1);
    assert_eq!(third[0].0, 3);
    assert_eq!(third[0].1, SidePrefix::blank());
}

#[test]
fn prefix_runs_grow_and_cap() {
    // A third cell of one color makes a run of three, a fourth a run of many.
    let mut p = SidePrefix::blank();
    for expected in [1u8, 2, 3, 4, 4] {
        let next = p.for_each_prepend(1);
        assert_eq!(next.len(), 1);
        p = next[0];
        assert_eq!(p.runs[0], SidePrefixRun { color: 1, count: expected });
    }
    // Pulling from a run of many leaves three or still many.
    let pulled = p.for_each_pull::<2>();
    assert_eq!(pulled.len(), 2);
    assert_eq!(pulled[0].1.runs[0].count, 3);
    assert_eq!(pulled[1].1.runs[0].count, 4);
}

#[test]
fn prefix_blank_before_blank_stays_blank() {
    // A blank cell set before blank cells changes nothing.
    let p = SidePrefix::blank().for_each_prepend(0);
    assert_eq!(p, vec![SidePrefix::blank()]);
    // Pulling from blank cells gives a blank cell and blank cells.
    assert_eq!(SidePrefix::blank().for_each_pull::<3>(), vec![(0, SidePrefix::blank())]);
}

#[test]
fn prefix_dirty_unknown_enumerates() {
    // Before unknown dirt, a nonblank cell may start a run of any capped
    // length, followed by dirt or by blank cells.
    let d = SidePrefix::dirty_unknown().for_each_prepend(2);
    assert_eq!(d.len(), 8);
    // Pulling from unknown dirt: a blank cell keeps the dirt; a nonblank
    // one may have been the last.
    let pulls = SidePrefix::dirty_unknown().for_each_pull::<3>();
    assert_eq!(
        pulls,
        vec![
            (0, SidePrefix::dirty_unknown()),
            (1, SidePrefix::blank()),
            (1, SidePrefix::dirty_unknown()),
            (2, SidePrefix::blank()),
            (2, SidePrefix::dirty_unknown()),
        ]
    );
}

#[test]
fn prefix_canonical_drops_blank_far_runs() {
    // A blank run before blank cells is dropped.
    let mut p = SidePrefix {
        runs: [SidePrefixRun { color: 1, count: 1 }, SidePrefixRun { color: 0, count: 2 }],
        len: 2,
        spill: SidePrefixSpill::Blank,
    };
    p.canonicalize();
    assert_eq!(p.len, 1);
    assert_eq!(p.runs[1], SidePrefixRun::empty());
    assert!(p.definitely_dirty());
}
