use fdrive::ledger::{Ledger, Write};
use fdrive::model::{render, Fate, Meta, Moment, Observation, Operation, Plan, Shown};
use fdrive::path::RelPath;
use fdrive::play::Outcome;
use fdrive::replay::{ancestors, copy_of, step, Action, Event, Job, Step, Task};
use fdrive::rows::{plan_row, read_row, Found, JournalRow};
use fdrive::sdk::{FileInfo, FileType};
use fdrive::settle::delay;
use fdrive::state::State;
use fdrive::table::{PathMap, PathSet};
use fdrive::text::{decimal, order, parse_number, pieces, trimmed, without_end, Order};
use fdrive::upload::{proceed, Act, Answer, Errand, Guard, Leg, Trip};
use fdrive::view;

fn p(s: &str) -> RelPath {
    RelPath::new(s)
}

fn obs(n: u64) -> Observation {
    Observation { size: n, time: n }
}

fn file(name: &str) -> FileInfo {
    FileInfo {
        name: name.to_string(),
        kind: FileType::File,
        size: Some(1),
        mtime: None,
    }
}

#[test]
fn a_path_never_leaves_its_directory() {
    let dir = p("docs");
    for name in ["..", "../../etc", "a/../../b", "/root", "."] {
        let child = dir.join(name);
        assert!(child.is_within(&dir), "{}", child.as_str());
        assert_eq!(RelPath::new(child.as_str()), child);
    }
}

#[test]
fn a_path_is_its_parent_and_its_name() {
    for text in ["a", "a/b", "a/b/c.txt"] {
        let path = p(text);
        assert_eq!(path.parent_or_root().join(path.name()), path);
    }
    assert_ne!(p("a").join("x"), p("b").join("x"));
}

#[test]
fn a_rebased_path_keeps_its_place_below() {
    assert_eq!(p("a/b/c").rebase(&p("a"), &p("z/y")), p("z/y/b/c"));
    assert_eq!(p("a").rebase(&p("a"), &p("z")), p("z"));
    let back = p("z/y/b/c").rebase(&p("z/y"), &p("a"));
    assert_eq!(back, p("a/b/c"));
}

#[test]
fn what_lies_below_a_path_stands_together() {
    let mut map = PathMap::new();
    for path in ["a.txt", "a0", "a/x", "a", "a/b/c", "b"] {
        map.insert(p(path), ());
    }
    let keys: Vec<String> = map.keys().iter().map(|k| k.as_str().to_string()).collect();
    assert_eq!(keys, ["a", "a.txt", "a/b/c", "a/x", "a0", "b"]);
    map.remove_within(&p("a"));
    assert_eq!(map.len(), 3);
    assert_eq!(order("a", "b"), Order::Before);
    assert_eq!(order("b", "a"), Order::After);
    assert_eq!(order("ab", "ab"), Order::Same);
}

#[test]
fn texts_are_taken_apart_and_put_together() {
    assert_eq!(pieces("a//b", '/'), ["a", "", "b"]);
    assert_eq!(trimmed(" \t x y \n"), "x y");
    assert_eq!(without_end("x//", '/'), "x");
    assert_eq!(decimal(0), "0");
    assert_eq!(decimal(u64::MAX), u64::MAX.to_string());
    assert_eq!(parse_number("+7", 10), Some(7));
    assert_eq!(parse_number("11", 10), None);
    assert_eq!(parse_number("", 10), None);
    assert_eq!(parse_number("-1", 10), None);
}

#[test]
fn numbers_of_any_size_survive_the_disk() {
    let plan = Plan::Remove {
        path: p("f"),
        removes: obs(u64::MAX),
    };
    let row = plan_row(7, &plan);
    assert_eq!(row.size, Some(-1));
    assert!(matches!(read_row(&row), Found::Plan(back) if back == plan));
}

#[test]
fn the_disk_follows_the_ledger() {
    let mut ledger = Ledger::default();
    ledger.observe(&p("a/x"), obs(1));
    ledger.observe(&p("a/y"), obs(2));
    ledger.observe(&p("b"), obs(3));
    ledger.mark(&p("a/x"));
    ledger.dirty_set(&p("a/y"));
    ledger.unobserve(&p("b"));
    ledger.remap(&p("a"), &p("z"));
    ledger.forget(&p("z/x"));
    let mut versions: Vec<(String, i64, i64)> = Vec::new();
    let mut journal: Vec<JournalRow> = Vec::new();
    for (i, write) in ledger.take_writes().into_iter().enumerate() {
        match write {
            Write::Observe(path, o) => {
                versions.retain(|v| v.0 != path.as_str());
                versions.push((path.as_str().to_string(), o.size as i64, o.time as i64));
            }
            Write::Unobserve(path) => versions.retain(|v| v.0 != path.as_str()),
            Write::UnobserveWithin(dir) => versions.retain(|v| !p(&v.0).is_within(&dir)),
            Write::Mark(path) => journal.push(JournalRow {
                seq: i as i64,
                op: "w".to_string(),
                path: path.as_str().to_string(),
                dest: None,
                base: None,
                size: None,
                time: None,
            }),
            Write::Unmark(path) => journal.retain(|r| r.path != path.as_str()),
            Write::UnmarkWithin(dir) => journal.retain(|r| !p(&r.path).is_within(&dir)),
            _ => {}
        }
    }
    let again = Ledger::load(&versions, &journal, &[]);
    let names = |keys: Vec<RelPath>| -> Vec<String> {
        keys.iter().map(|k| k.as_str().to_string()).collect()
    };
    assert_eq!(names(again.observations.keys()), ["z/y"]);
    assert_eq!(
        names(again.observations.keys()),
        names(ledger.observations.keys())
    );
    assert!(again.dirty.contains(&p("z/y")));
    assert!(ledger.dirty.contains(&p("z/y")));
}

#[test]
fn overlapping_is_mutual() {
    let a = Plan::Move {
        from: p("a"),
        to: p("d/b"),
        moves: obs(1),
    };
    let b = Plan::Remove {
        path: p("d"),
        removes: obs(2),
    };
    let c = Plan::Remove {
        path: p("dd"),
        removes: obs(3),
    };
    assert!(a.overlaps(&b) && b.overlaps(&a));
    assert!(!a.overlaps(&c) && !c.overlaps(&a));
    assert!(a.overlaps(&a));
}

#[test]
fn no_name_is_shown_twice() {
    let mut fates = PathMap::new();
    let arrived = |from: &str| Fate::Arrived {
        from: p(from),
        was: obs(4),
    };
    fates.insert(p("d/here"), arrived("x"));
    fates.insert(p("d/new"), arrived("y"));
    fates.insert(p("d/gone"), Fate::Gone);
    fates.insert(p("e/else"), arrived("z"));
    let mut ledger = Ledger::default();
    ledger.dirty.insert(p("d/new"));
    ledger.dirty.insert(p("d/draft"));
    ledger.dirty.insert(p("d/lost"));
    let mut metas = PathMap::new();
    metas.insert(
        p("d/draft"),
        Meta {
            size: 9,
            mtime: None,
        },
    );
    let listing = vec![file("here"), file("gone"), file("other")];
    let shown = view::overlay(&ledger, &fates, &p("d"), listing, &metas);
    let names: Vec<&str> = shown.iter().map(|e| e.name.as_str()).collect();
    assert_eq!(names, ["here", "other", "new", "draft"]);
    assert_eq!(shown[0].size, Some(1), "the server's word comes first");
    assert_eq!(shown[2].size, Some(4));
    assert_eq!(shown[2].mtime, Some(Moment { secs: 4, nanos: 0 }));
    assert_eq!(shown[3].size, Some(9));
}

#[test]
fn a_copy_stands_beside_the_file() {
    assert_eq!(
        copy_of(&p("d/a.tar.gz"), 0),
        p("d/a.tar (conflicted copy).gz")
    );
    assert_eq!(
        copy_of(&p("d/.bashrc"), 1),
        p("d/.bashrc (conflicted copy 2)")
    );
    assert_eq!(copy_of(&p("plain"), 9), p("plain (conflicted copy 10)"));
    assert_eq!(ancestors(&p("a/b/c")), [p("a"), p("a/b")]);
    assert!(ancestors(&p("top")).is_empty());
}

#[test]
fn each_retry_waits_longer_up_to_a_limit() {
    let secs = |n| delay(n) / 1_000_000_000;
    assert_eq!((secs(1), secs(2), secs(3)), (10, 20, 40));
    assert_eq!(secs(6), 300);
    assert_eq!(secs(u32::MAX), 300);
}

#[test]
fn operations_and_plans_are_written_out() {
    let ops = [
        Operation::Create(p("a")),
        Operation::Write(p("a")),
        Operation::Rename(p("a"), p("b")),
        Operation::Delete(p("b")),
    ];
    assert_eq!(render(&ops), "c a, w a, mv a->b, rm b");
    let plans = [
        Plan::Save {
            path: p("a"),
            replaces: None,
            reuses: Some(p("b")),
        },
        Plan::Move {
            from: p("a"),
            to: p("b"),
            moves: obs(1),
        },
        Plan::Remove {
            path: p("c"),
            removes: obs(1),
        },
    ];
    assert_eq!(render(&plans), "save a (new) <b, move a->b, remove c");
    assert_eq!(Shown::to_string(&ops[0]), "c a");
    let none: [Plan; 0] = [];
    assert_eq!(render(&none), "");
}

#[test]
fn a_set_knows_what_is_in_it() {
    let mut set = PathSet::new();
    assert!(set.insert(p("b")));
    assert!(set.insert(p("a")));
    assert!(!set.insert(p("a")));
    assert_eq!(set.len(), 2);
    assert_eq!(set.key(0), &p("a"));
    assert!(set.remove(&p("a")));
    assert!(!set.remove(&p("a")));
    assert!(!set.contains(&p("a")));
}

const NOW: Moment = Moment { secs: 9, nanos: 0 };

fn diverted(n: u64) -> Task {
    let job = Job {
        path: p("docs/doc.txt"),
        replaces: Some(obs(1)),
        reuses: None,
        found: Meta { size: 3, mtime: None },
    };
    Task::CopyNamed { job, theirs: Some(obs(2)), n }
}

#[test]
fn a_copy_is_sent_to_the_name_that_was_found_free() {
    for (n, name) in [
        (0, "docs/doc (conflicted copy).txt"),
        (1, "docs/doc (conflicted copy 2).txt"),
        (9, "docs/doc (conflicted copy 10).txt"),
    ] {
        match step(diverted(n), Event::IsVacant(true), NOW) {
            Step::Do(_, Action::Send { source, target, since }) => {
                assert_eq!(source, p("docs/doc.txt"));
                assert_eq!(target, p(name));
                assert_eq!(since, None);
            }
            other => panic!("{other:?}"),
        }
    }
}

#[test]
fn a_copy_never_overwrites_another_one() {
    let mut task = diverted(0);
    for n in 2..=10 {
        match step(task, Event::IsVacant(false), NOW) {
            Step::Do(next, Action::IsVacant(asked)) => {
                assert_eq!(asked, p(&format!("docs/doc (conflicted copy {n}).txt")));
                task = next;
            }
            other => panic!("{other:?}"),
        }
    }
    assert!(matches!(
        step(task, Event::IsVacant(false), NOW),
        Step::Done(Outcome::Failed)
    ));
}

#[test]
fn an_upload_never_overwrites_another_copy() {
    for guard in [Guard::Compare, Guard::Lease] {
        let named = |n: u64| Errand::Named {
            trip: Trip {
                guard,
                path: p("doc.txt"),
                found: Meta { size: 3, mtime: None },
            },
            n,
        };
        let mut ledger = Ledger::default();
        ledger.dirty_set(&p("doc.txt"));
        match proceed(&mut ledger, named(8), Answer::IsVacant(false)) {
            Leg::Do(Errand::Named { n: 9, .. }, Act::IsVacant(asked)) => {
                assert_eq!(asked, p("doc (conflicted copy 10).txt"));
            }
            other => panic!("{other:?}"),
        }
        match proceed(&mut ledger, named(9), Answer::IsVacant(true)) {
            Leg::Do(_, Act::Send { target, .. }) => {
                assert_eq!(target, p("doc (conflicted copy 10).txt"));
            }
            other => panic!("{other:?}"),
        }
        assert!(matches!(
            proceed(&mut ledger, named(9), Answer::IsVacant(false)),
            Leg::Failed
        ));
        assert!(ledger.dirty.contains(&p("doc.txt")));
    }
}

fn marks_after(state: &mut State) -> Vec<String> {
    let mut marks: Vec<String> = Vec::new();
    for write in state.ledger.take_writes() {
        match write {
            Write::Mark(path) => marks.push(path.as_str().to_string()),
            Write::Unmark(path) => marks.retain(|m| m != path.as_str()),
            Write::UnmarkWithin(dir) => marks.retain(|m| !p(m).is_within(&dir)),
            _ => {}
        }
    }
    marks
}

#[test]
fn an_edit_outlives_the_removal_of_its_file() {
    let plan = Plan::Remove { path: p("f"), removes: obs(1) };
    let mut ledger = Ledger::default();
    ledger.observe(&p("f"), obs(1));
    let mut state = State::open(ledger, &[plan_row(1, &plan)], 0);
    assert!(matches!(state.next(0), Some((1, _))));
    state.record(Operation::Write(p("f")), 1);
    state.settle(1, Outcome::Removed, 2);
    assert!(state.journal.pending.is_empty());
    assert!(!state.ledger.observations.contains_key(&p("f")));
    assert!(state.ledger.dirty.contains(&p("f")));
    assert_eq!(marks_after(&mut state), ["f"]);
}

#[test]
fn an_edit_outlives_the_move_of_its_file() {
    let plan = Plan::Move { from: p("f"), to: p("g"), moves: obs(1) };
    let mut ledger = Ledger::default();
    ledger.observe(&p("f"), obs(1));
    let mut state = State::open(ledger, &[plan_row(1, &plan)], 0);
    assert!(matches!(state.next(0), Some((1, _))));
    state.record(Operation::Create(p("f")), 1);
    state.settle(1, Outcome::Moved, 2);
    assert_eq!(state.ledger.observations.get(&p("g")), Some(&obs(1)));
    assert!(!state.ledger.observations.contains_key(&p("f")));
    assert!(state.ledger.dirty.contains(&p("f")));
    assert_eq!(marks_after(&mut state), ["f"]);
}

#[test]
fn an_edit_is_marked_under_its_new_name() {
    let mut state = State::open(Ledger::default(), &[], 0);
    state.record(Operation::Write(p("f")), 1);
    state.record(Operation::Rename(p("f"), p("g")), 2);
    state.record(Operation::Write(p("g")), 3);
    state.record(Operation::Rename(p("x"), p("y")), 4);
    assert_eq!(marks_after(&mut state), ["f", "g"]);
    assert!(state.ledger.dirty.contains(&p("g")));
    assert!(!state.ledger.dirty.contains(&p("f")));
    assert!(!state.ledger.dirty.contains(&p("y")));
}

#[test]
fn an_edit_of_a_file_that_becomes_a_copy_is_kept() {
    let found = Some(Moment { secs: 3, nanos: 0 });
    let copied = |after: Option<Moment>| {
        let job = Job {
            path: p("doc.txt"),
            replaces: Some(obs(1)),
            reuses: None,
            found: Meta { size: 3, mtime: found },
        };
        let task = Task::CopyDone {
            job,
            theirs: Some(obs(2)),
            copy: p("doc (conflicted copy).txt"),
            mtime: None,
        };
        match step(task, Event::Reviewed { data: None, after }, NOW) {
            Step::Done(outcome) => outcome,
            other => panic!("{other:?}"),
        }
    };
    for (after, edited) in [(found, false), (Some(NOW), true)] {
        let plan = Plan::Save { path: p("doc.txt"), replaces: Some(obs(1)), reuses: None };
        let mut state = State::open(Ledger::default(), &[plan_row(1, &plan)], 0);
        assert!(matches!(state.next(0), Some((1, _))));
        let (_, conflict) = state.settle(1, copied(after), 2);
        assert!(conflict.is_some());
        let copy = p("doc (conflicted copy).txt");
        assert_eq!(state.ledger.dirty.contains(&copy), edited);
        assert_eq!(state.journal.window.len(), edited as usize);
        assert_eq!(state.ledger.observations.get(&p("doc.txt")), Some(&obs(2)));
    }
}
