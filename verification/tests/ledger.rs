use fdrive::cache::{aside_name, prune_entry, Pruning};
use fdrive::ledger::{Ledger, Write};
use fdrive::model::{Conflict, Moment, Observation, Operation, Plan};
use fdrive::path::RelPath;
use fdrive::rows::{
    conflict_row, conflicts_load, fallback_seqs, journal_load, plan_row, read_conflict,
    JournalRow, FALLBACK_SEQ,
};
use fdrive::table::PathSet;

fn p(s: &str) -> RelPath {
    RelPath::new(s)
}

fn names(paths: Vec<RelPath>) -> Vec<String> {
    paths.iter().map(|p| p.as_str().to_string()).collect()
}

fn mark_row(seq: i64, path: &str) -> JournalRow {
    JournalRow {
        seq,
        op: "w".to_string(),
        path: path.to_string(),
        dest: None,
        base: None,
        size: None,
        time: None,
    }
}

fn stored(ledger: &mut Ledger) -> Vec<JournalRow> {
    let mut rows = Vec::new();
    for (i, write) in ledger.take_writes().into_iter().enumerate() {
        match write {
            Write::Mark(path) => rows.push(mark_row(i as i64, path.as_str())),
            Write::Unmark(path) => rows.retain(|r: &JournalRow| r.path != path.as_str()),
            other => panic!("not a mark: {other:?}"),
        }
    }
    rows
}

#[test]
fn forget_drops_the_subtree_and_nothing_else() {
    let mut ledger = Ledger::default();
    for path in ["a", "a/b", "ab", "c"] {
        ledger
            .observations
            .insert(RelPath::new(path), Observation::new(0, None));
        ledger.dirty.insert(RelPath::new(path));
    }
    ledger.forget(&RelPath::new("a"));
    assert_eq!(names(ledger.observations.keys()), ["ab", "c"]);
    assert_eq!(names(ledger.dirty.keys()), ["ab", "c"]);
}

#[test]
fn remap_moves_the_subtree_bookkeeping() {
    let mut ledger = Ledger::default();
    ledger
        .observations
        .insert(RelPath::new("a"), Observation::new(1, None));
    ledger
        .observations
        .insert(RelPath::new("a/x"), Observation::new(2, None));
    ledger
        .observations
        .insert(RelPath::new("b"), Observation::new(3, None));
    ledger.dirty.insert(RelPath::new("a/x"));
    ledger.dirty.insert(RelPath::new("b"));
    ledger.remap(&RelPath::new("a"), &RelPath::new("z"));
    assert_eq!(names(ledger.observations.keys()), ["b", "z", "z/x"]);
    assert_eq!(
        ledger.observations.get(&RelPath::new("z/x")),
        Some(&Observation::new(2, None))
    );
    assert_eq!(names(ledger.dirty.keys()), ["b", "z/x"]);
}

#[test]
fn journal_marks_survive_a_reopen_as_window_writes() {
    let mut before = Ledger::default();
    before.mark(&p("a/x"));
    before.mark(&p("b"));
    let mut rows = stored(&mut before);
    assert_eq!(rows.len(), 2);
    let swapped = [p("b")];
    rows.retain(|r| !swapped.iter().any(|s| s.as_str() == r.path));

    let ledger = Ledger::load(&[], &rows, &[]);
    let (window, pending) = journal_load(&rows);
    assert_eq!(window, vec![Operation::Write(RelPath::new("a/x"))]);
    assert!(pending.is_empty());
    assert_eq!(names(ledger.dirty.keys()), ["a/x"]);
}

#[test]
fn journal_intents_survive_a_reopen() {
    let plans = vec![
        Plan::Save {
            path: RelPath::new("b"),
            replaces: Some(Observation { size: 1, time: 2 }),
            reuses: Some(RelPath::new("a")),
        },
        Plan::Move {
            from: RelPath::new("x"),
            to: RelPath::new("y"),
            moves: Observation { size: 3, time: 4 },
        },
        Plan::Remove {
            path: RelPath::new("z"),
            removes: Observation { size: 5, time: 6 },
        },
    ];
    let rows: Vec<JournalRow> = plans
        .iter()
        .enumerate()
        .map(|(i, plan)| plan_row(i as i64 + 1, plan))
        .collect();
    assert_eq!(rows.len(), 3);

    let ledger = Ledger::load(&[], &rows, &[]);
    let loaded: Vec<Plan> = journal_load(&rows).1.into_iter().map(|(_, i)| i).collect();
    assert_eq!(loaded, plans);
    assert!(
        ledger.dirty.contains(&RelPath::new("b")),
        "a pending save is a dirty path"
    );
}

#[test]
fn local_only_means_dirty_with_no_record() {
    let mut ledger = Ledger::default();
    let path = RelPath::new("f");
    assert!(!ledger.local_only(&path));
    ledger.dirty.insert(path.clone());
    assert!(ledger.local_only(&path));
    ledger
        .observations
        .insert(path.clone(), Observation::new(0, None));
    assert!(!ledger.local_only(&path));
}

#[test]
fn pins_survive_a_reopen() {
    let mut before = Ledger::default();
    before.pin_set(&p("keep"));
    before.pin_set(&p("gone"));
    before.pin_clear(&p("gone"));
    let mut pins: Vec<String> = Vec::new();
    for write in before.take_writes() {
        match write {
            Write::Pin(path) => pins.push(path.as_str().to_string()),
            Write::Unpin(path) => pins.retain(|x| x != path.as_str()),
            other => panic!("not a pin: {other:?}"),
        }
    }
    let ledger = Ledger::load(&[], &[], &pins);
    assert_eq!(names(ledger.pins.keys()), ["keep"]);
}

#[test]
fn a_mark_is_written_once() {
    let mut ledger = Ledger::default();
    assert!(ledger.dirty_set(&p("f")));
    assert!(!ledger.dirty_set(&p("f")));
    assert_eq!(ledger.take_writes(), vec![Write::Mark(p("f"))]);
    ledger.dirty_clear(&p("f"));
    ledger.dirty_clear(&p("f"));
    assert_eq!(ledger.take_writes(), vec![Write::Unmark(p("f"))]);
    assert!(ledger.take_writes().is_empty());
}

#[test]
fn versions_are_loaded_from_their_rows() {
    let ledger = Ledger::load(&[("a//b".to_string(), 3, 4)], &[], &[]);
    assert_eq!(
        ledger.observations.get(&p("a/b")),
        Some(&Observation { size: 3, time: 4 })
    );
}

#[test]
fn a_move_without_a_target_is_passed_over() {
    let rows = [
        JournalRow {
            op: "m".to_string(),
            ..mark_row(1, "a")
        },
        JournalRow {
            op: "?".to_string(),
            ..mark_row(2, "b")
        },
    ];
    let (window, pending) = journal_load(&rows);
    assert!(window.is_empty());
    assert!(pending.is_empty());
}

#[test]
fn plans_that_cannot_be_stored_get_high_numbers() {
    let plans = [Plan::Remove {
        path: p("z"),
        removes: Observation { size: 5, time: 6 },
    }];
    let numbered = fallback_seqs(FALLBACK_SEQ, &plans);
    assert_eq!(numbered.len(), 1);
    assert_eq!(numbered[0].0, 1 << 40);
    assert_eq!(numbered[0].1, plans[0]);
}

#[test]
fn a_conflict_survives_a_reopen() {
    let conflict = Conflict {
        seq: 7,
        op: Operation::Rename(p("a"), p("b")),
        expected: Some(Observation { size: 1, time: 2 }),
        found: None,
        ours: Some(p("b (conflicted copy)")),
        at: Moment { secs: 9, nanos: 0 },
    };
    let row = conflict_row(&conflict);
    let back = conflicts_load(&[row]);
    assert_eq!(back.len(), 1);
    assert_eq!(back[0].seq, 7);
    assert_eq!(back[0].op, conflict.op);
    assert_eq!(back[0].expected, conflict.expected);
    assert_eq!(back[0].found, None);
    assert_eq!(back[0].ours, conflict.ours);
    assert_eq!(back[0].at, conflict.at);
    let mut lost = conflict_row(&conflict);
    lost.dest = None;
    assert!(read_conflict(&lost).is_none());
}

#[test]
fn pruning_spares_edits_debts_and_pins() {
    let mut ledger = Ledger::default();
    for path in ["clean", "edited", "owed", "pinned/f"] {
        ledger
            .observations
            .insert(p(path), Observation { size: 1, time: 1 });
    }
    ledger.dirty.insert(p("edited"));
    ledger.pins.insert(p("pinned"));
    let mut owed = PathSet::new();
    owed.insert(p("owed"));
    let keep = ledger.prune(&owed);
    assert_eq!(names(keep.clone()), ["edited", "owed", "pinned"]);
    assert_eq!(
        names(ledger.observations.keys()),
        ["edited", "owed", "pinned/f"]
    );
    assert_eq!(prune_entry(&p("pinned/f"), false, &keep), Pruning::Keep);
    assert_eq!(prune_entry(&p("pinned"), true, &keep), Pruning::Keep);
    assert_eq!(prune_entry(&p("clean"), false, &keep), Pruning::Remove);
    assert_eq!(prune_entry(&p("d"), true, &[p("d/f")]), Pruning::Descend);
    assert_eq!(prune_entry(&p("d"), false, &[p("d/f")]), Pruning::Remove);
    assert_eq!(prune_entry(&p("any"), false, &[p("")]), Pruning::Keep);
}

#[test]
fn a_reset_keeps_the_edits_that_are_here() {
    let mut ledger = Ledger::default();
    for path in ["a", "b", "c"] {
        ledger
            .observations
            .insert(p(path), Observation { size: 1, time: 1 });
    }
    ledger.dirty.insert(p("a"));
    ledger.dirty.insert(p("b"));
    let mut here = PathSet::new();
    here.insert(p("b"));
    assert_eq!(names(ledger.keep_edits(&here)), ["b"]);
    assert_eq!(names(ledger.dirty.keys()), ["b"]);
    assert_eq!(names(ledger.observations.keys()), ["b"]);
}

#[test]
fn an_unreadable_ledger_is_told_of_once() {
    let mut ledger = Ledger::default();
    ledger.unreadable = true;
    assert!(ledger.take_unreadable());
    assert!(!ledger.take_unreadable());
    assert_eq!(aside_name("fdrive.db", 17), "fdrive.db.unreadable-17");
}
