use fdrive::ico::icon_from_ico;
use fdrive::ledger::{Ledger, Write};
use fdrive::model::{Meta, Moment, Observation};
use fdrive::path::RelPath;
use fdrive::pipe::{size_fits, Pipe};
use fdrive::placeholder::{
    classify, file_is_clean, inherits_pin, is_cleared, is_listed_here, is_populated,
    is_unmodified, mark_in_sync, may_delete, on_change, on_dir_change, pin_after, pin_of,
    pin_subtree, pin_walk, place, placeholder_state, populate_error, reconcile_entry, reconcile_local, tree_is_clean, vacuum_dir, vacuum_file,
    Adoption, Change, Deed, FileState, Marking, Meeting, Node, Patrol, Pin, PinStep, PlaceholderState,
    Refreshes, Stale, Suppressed, Tending, Vacuum, STUCK,
};
use fdrive::sdk::{Error, FileInfo, FileType};
use fdrive::state::State;
use fdrive::table::PathSet;
use fdrive::volume::{
    abs_of, filetime, is_recycle_bin, percent_bytes, percent_decode, rel_from_full, renaming,
    strip_volume, Renaming,
};

fn p(s: &str) -> RelPath {
    RelPath::new(s)
}

fn file(name: &str, size: u64) -> FileInfo {
    FileInfo {
        name: name.to_string(),
        kind: FileType::File,
        size: Some(size),
        mtime: Some(Moment { secs: 5, nanos: 0 }),
    }
}

fn meta(size: u64, secs: i64) -> Meta {
    Meta {
        size,
        mtime: Some(Moment { secs, nanos: 0 }),
    }
}

const HERE: PlaceholderState = PlaceholderState {
    placeholder: true,
    in_sync: true,
    partial: false,
};

const UNLISTED: PlaceholderState = PlaceholderState {
    partial: true,
    ..HERE
};

const FOREIGN: PlaceholderState = PlaceholderState {
    placeholder: false,
    ..HERE
};

#[test]
fn percent_decoding() {
    assert_eq!(percent_decode("My%20Docs"), "My Docs");
    assert_eq!(percent_decode("plain"), "plain");
    assert_eq!(percent_decode("bad%2"), "bad%2");
    assert_eq!(percent_decode("caf%C3%A9"), "café");
}

#[test]
fn rel_path_from_callback_paths() {
    let root = r"\Users\micka\Filestash";
    assert_eq!(
        rel_from_full(root, r"\Users\micka\Filestash")
            .unwrap()
            .as_str(),
        ""
    );
    assert_eq!(
        rel_from_full(root, r"\users\MICKA\Filestash\a\b.txt")
            .unwrap()
            .as_str(),
        "a/b.txt"
    );
    assert_eq!(
        rel_from_full(root, r"C:\Users\micka\Filestash\a")
            .unwrap()
            .as_str(),
        "a"
    );
    assert!(rel_from_full(root, r"\Users\micka\FilestashOther\x").is_none());
    assert!(rel_from_full(root, r"\Users\micka\Elsewhere").is_none());
}

#[test]
fn bytes_that_are_no_text_are_marked() {
    assert_eq!(percent_decode("%FF"), "\u{fffd}");
    assert_eq!(percent_bytes("%zz%41%"), b"%zzA%");
}

#[test]
fn the_way_to_disk_leads_back() {
    let root = r"C:\Users\micka\Filestash";
    let full = abs_of(root, &p("a/b.txt"));
    assert_eq!(full, r"C:\Users\micka\Filestash\a\b.txt");
    let novol = strip_volume(root);
    assert_eq!(novol, r"\Users\micka\Filestash");
    assert_eq!(rel_from_full(&novol, &full).unwrap(), p("a/b.txt"));
    assert_eq!(strip_volume(r"\\?\C:\x"), r"\x");
}

#[test]
fn file_times_count_from_another_epoch() {
    let at = |secs, nanos| Moment { secs, nanos };
    assert_eq!(filetime(at(0, 0)), 116_444_736_000_000_000);
    assert_eq!(filetime(at(1, 250)), 116_444_736_010_000_002);
    assert_eq!(filetime(at(-5, 0)), 116_444_736_000_000_000);
}

#[test]
fn the_recycle_bin_is_known_in_any_case() {
    assert!(is_recycle_bin(Some(r"\$RECYCLE.BIN\S-1-5\$R1.txt")));
    assert!(is_recycle_bin(Some(r"C:\$Recycle.Bin\x")));
    assert!(!is_recycle_bin(Some(r"\Users\recycle.bin\x")));
    assert!(!is_recycle_bin(None));
}

#[test]
fn a_rename_out_of_the_root_is_a_removal_or_denied() {
    let a = || Some(p("a"));
    assert!(matches!(
        renaming(a(), true, Some(p("b")), false),
        Renaming::Rename(x, y) if x == p("a") && y == p("b")
    ));
    assert!(matches!(
        renaming(a(), false, None, true),
        Renaming::Delete(x) if x == p("a")
    ));
    assert!(matches!(renaming(a(), false, None, false), Renaming::Deny));
    assert!(matches!(renaming(None, true, a(), false), Renaming::Accept));
}

#[test]
fn files_are_classified() {
    let mut ledger = Ledger::default();
    let f = p("f");
    let none = Pin::Unspecified;
    assert_eq!(classify(&ledger, &f, FOREIGN, false, none), FileState::New);
    ledger.observe(&f, Observation { size: 1, time: 5 });
    assert_eq!(
        classify(&ledger, &f, FOREIGN, false, none),
        FileState::Foreign
    );
    let edited = PlaceholderState {
        in_sync: false,
        ..HERE
    };
    assert_eq!(
        classify(&ledger, &f, edited, false, none),
        FileState::Edited
    );
    assert_eq!(
        classify(&ledger, &f, HERE, true, none),
        FileState::Dehydrated(none)
    );
    assert_eq!(
        classify(&ledger, &f, UNLISTED, false, none),
        FileState::Dehydrated(none)
    );
    assert_eq!(
        classify(&ledger, &f, HERE, false, Pin::Pinned),
        FileState::Cached(Pin::Pinned)
    );
    assert_eq!(pin_of(true, true), Pin::Pinned);
    assert_eq!(pin_of(false, true), Pin::Unpinned);
    assert_eq!(pin_of(false, false), none);
}

#[test]
fn a_tree_with_an_edit_is_not_clean() {
    let mut ledger = Ledger::default();
    let tree = |path: &str, state| Node::Dir {
        found: Some(HERE),
        readable: true,
        children: vec![
            Node::Dir {
                found: Some(UNLISTED),
                readable: false,
                children: Vec::new(),
            },
            Node::File {
                path: p(path),
                state,
            },
        ],
    };
    let cached = Some(FileState::Cached(Pin::Unspecified));
    assert!(tree_is_clean(&ledger, &tree("d/f", cached)));
    assert!(!tree_is_clean(
        &ledger,
        &tree("d/f", Some(FileState::Edited))
    ));
    assert!(!tree_is_clean(&ledger, &tree("d/f", None)));
    assert!(!tree_is_clean(&ledger, &Node::Unknown));
    ledger.dirty.insert(p("d/f"));
    assert!(!tree_is_clean(&ledger, &tree("d/f", cached)));
    assert!(!file_is_clean(&ledger, &p("d/f"), cached));
}

#[test]
fn changes_come_to_what_they_mean() {
    assert_eq!(
        on_dir_change(Some(FOREIGN), Pin::Unspecified),
        Change::Mkdir
    );
    assert_eq!(
        on_dir_change(Some(HERE), Pin::Pinned),
        Change::PinSubtree
    );
    assert_eq!(
        on_dir_change(Some(HERE), Pin::Unspecified),
        Change::Nothing
    );
    assert_eq!(on_dir_change(None, Pin::Pinned), Change::Nothing);
    assert_eq!(on_change(Some(FileState::New)), Change::Modified);
    assert_eq!(on_change(Some(FileState::Edited)), Change::Modified);
    assert_eq!(
        on_change(Some(FileState::Dehydrated(Pin::Pinned))),
        Change::Hydrate
    );
    assert_eq!(
        on_change(Some(FileState::Cached(Pin::Unpinned))),
        Change::Dehydrate
    );
    assert_eq!(on_change(Some(FileState::Foreign)), Change::Nothing);
    assert_eq!(on_change(None), Change::Nothing);
}

#[test]
fn a_refresh_that_is_stuck_does_not_last() {
    let mut r = Refreshes::new();
    assert!(r.begin(&p("d"), 10));
    assert!(!r.begin(&p("d"), 11));
    assert!(r.begin(&p("e"), 11));
    assert!(r.begin(&p("d"), 10 + STUCK));
    r.end(&p("d"));
    assert!(r.begin(&p("d"), 12 + STUCK));
    assert!(is_listed_here(true, None));
    assert!(!is_listed_here(false, Some(UNLISTED)));
    assert!(!is_listed_here(false, None));
    assert!(is_populated(None));
    assert!(!is_populated(Some(UNLISTED)));
}

#[test]
fn a_directory_is_compared_with_the_server() {
    let listing = [file("both", 1), file("theirs", 2), file("../evil", 3)];
    let local = vec![("both".to_string(), false), ("ours".to_string(), true)];
    let deeds = reconcile_local(&p("d"), &listing, local);
    assert_eq!(deeds.len(), 4);
    assert!(matches!(
        &deeds[0],
        Deed::Compare { path, i: 0, is_dir: false } if *path == p("d/both")
    ));
    assert!(matches!(&deeds[1], Deed::Place { path, i: 1 } if *path == p("d/theirs")));
    assert!(matches!(&deeds[2], Deed::Place { path, i: 2 } if *path == p("d/evil")));
    assert!(matches!(
        &deeds[3],
        Deed::DropStale { path, is_dir: true } if *path == p("d/ours")
    ));
}

#[test]
fn what_is_placed_is_what_is_listed() {
    let placed = place(&p("d"), &file("f", 7)).unwrap();
    assert_eq!(placed.path, p("d/f"));
    assert_eq!(placed.size, 7);
    assert!(!placed.is_dir);
    let mut dir = file("sub", 7);
    dir.kind = FileType::Directory;
    let placed = place(&p("d"), &dir).unwrap();
    assert!(placed.is_dir);
    assert_eq!(placed.size, 0);
    assert!(place(&p("d"), &file("a/b", 1)).is_none());
}

#[test]
fn what_meets_the_server_is_adopted_or_freshened() {
    let (f, d) = (FileType::File, FileType::Directory);
    assert_eq!(
        reconcile_entry(d, true, Some(FOREIGN), None),
        Meeting::AdoptDir
    );
    assert_eq!(reconcile_entry(d, true, Some(HERE), None), Meeting::Nothing);
    assert_eq!(reconcile_entry(d, false, None, None), Meeting::Nothing);
    let cached = Some(FileState::Cached(Pin::Pinned));
    assert_eq!(reconcile_entry(f, false, None, cached), Meeting::Freshen);
    assert_eq!(
        reconcile_entry(f, false, None, Some(FileState::New)),
        Meeting::Adopt
    );
    assert_eq!(
        reconcile_entry(f, false, None, Some(FileState::Edited)),
        Meeting::Nothing
    );
    let mut ledger = Ledger::default();
    assert_eq!(ledger.adopt(&p("f"), &meta(1, 5)), Adoption::Modified);
    ledger.observe(&p("f"), Observation { size: 1, time: 5 });
    assert_eq!(ledger.adopt(&p("f"), &meta(1, 5)), Adoption::MarkInSync);
    assert_eq!(ledger.adopt(&p("f"), &meta(2, 5)), Adoption::Nothing);
    assert!(!ledger.freshen(&p("f"), &file("f", 1), &meta(9, 9)));
    assert!(ledger.freshen(&p("f"), &file("f", 2), &meta(1, 5)));
    ledger.dirty.insert(p("f"));
    assert!(!ledger.freshen(&p("f"), &file("f", 2), &meta(1, 5)));
    assert_eq!(ledger.adopt(&p("f"), &meta(1, 5)), Adoption::Nothing);
    assert!(ledger.replaced(&p("f"), cached));
    assert!(!ledger.observations.contains_key(&p("f")));
}

#[test]
fn edits_are_never_dropped() {
    let mut ledger = Ledger::default();
    let f = p("f");
    let cached = Some(FileState::Cached(Pin::Unspecified));
    assert_eq!(ledger.drop_stale(&f, cached), Stale::Remove);
    assert_eq!(
        ledger.drop_stale(&f, Some(FileState::New)),
        Stale::Modified
    );
    assert_eq!(ledger.drop_stale(&f, Some(FileState::Edited)), Stale::Keep);
    assert_eq!(vacuum_file(&ledger, &f, cached), Vacuum::Delete);
    ledger.dirty.insert(f.clone());
    assert_eq!(ledger.drop_stale(&f, cached), Stale::Keep);
    assert_eq!(ledger.drop_stale(&f, Some(FileState::New)), Stale::Keep);
    assert_eq!(vacuum_file(&ledger, &f, cached), Vacuum::Keep);
    ledger.dropped(&f, false);
    assert!(ledger.dirty.contains(&f));
    ledger.dropped(&f, true);
    assert!(!ledger.dirty.contains(&f));
}

#[test]
fn a_sweep_finds_what_was_edited_meanwhile() {
    let mut engine = State::open(Ledger::default(), &[], 0);
    let mut patrol = Patrol::new();
    assert_eq!(patrol.next(), Some((p(""), false)));
    patrol.pass_dir(p("a"), Pin::Unspecified, Some(UNLISTED));
    patrol.pass_dir(p("b"), Pin::Pinned, Some(UNLISTED));
    patrol.pass_dir(p("c"), Pin::Unspecified, None);
    assert_eq!(patrol.next(), Some((p("c"), false)));
    assert_eq!(patrol.next(), Some((p("b"), true)));
    assert_eq!(patrol.next(), None);
    let edited = Some(FileState::Edited);
    assert_eq!(
        patrol.pass_file(&mut engine, &p("f"), edited, 5),
        Tending::Arm
    );
    assert_eq!(
        patrol.pass_file(&mut engine, &p("f"), edited, 5),
        Tending::Nothing
    );
    assert_eq!(patrol.armed, [p("f")]);
    assert!(engine.ledger.dirty.contains(&p("f")));
    assert!(engine.journal.marks.contains(&p("f")));
    assert_eq!(engine.journal.window.len(), 1);
    let writes = engine.ledger.take_writes();
    assert_eq!(writes.len(), 1);
    assert!(matches!(&writes[0], Write::Mark(q) if *q == p("f")));
    assert_eq!(
        patrol.pass_file(
            &mut engine,
            &p("g"),
            Some(FileState::Dehydrated(Pin::Pinned)),
            5
        ),
        Tending::Hydrate
    );
    assert_eq!(
        patrol.pass_file(
            &mut engine,
            &p("g"),
            Some(FileState::Cached(Pin::Unpinned)),
            5
        ),
        Tending::Dehydrate
    );
}

#[test]
fn a_pin_is_handed_down() {
    assert!(inherits_pin(Pin::Unspecified, true));
    assert!(!inherits_pin(Pin::Unpinned, true));
    assert_eq!(pin_after(Pin::Unspecified, true, true), Pin::Pinned);
    assert_eq!(
        pin_after(Pin::Unspecified, true, false),
        Pin::Unspecified
    );
    let dehydrated = Some(FileState::Dehydrated(Pin::Pinned));
    assert_eq!(
        pin_walk(Pin::Pinned, false, false, dehydrated),
        PinStep::Hydrate
    );
    assert_eq!(
        pin_walk(Pin::Unspecified, false, false, dehydrated),
        PinStep::Skip
    );
    assert_eq!(pin_walk(Pin::Unpinned, true, true, None), PinStep::Skip);
    assert_eq!(
        pin_walk(Pin::Unspecified, true, true, None),
        PinStep::Descend
    );
    assert_eq!(pin_walk(Pin::Pinned, false, false, None), PinStep::Nothing);
    let mut pinning = PathSet::new();
    assert!(pin_subtree(&mut pinning, &p("a")));
    assert!(!pin_subtree(&mut pinning, &p("a")));
    assert!(!pin_subtree(&mut pinning, &p("a/b")));
    assert!(pin_subtree(&mut pinning, &p("ab")));
}

#[test]
fn clearing_away_leaves_what_is_not_ours() {
    assert_eq!(vacuum_dir(Some(UNLISTED)), Vacuum::RemoveTree);
    assert_eq!(vacuum_dir(Some(HERE)), Vacuum::ClearAndRemove);
    assert_eq!(vacuum_dir(Some(FOREIGN)), Vacuum::Clear);
    assert_eq!(vacuum_dir(None), Vacuum::Clear);
    assert!(is_cleared(Vacuum::ClearAndRemove, true, true));
    assert!(!is_cleared(Vacuum::ClearAndRemove, false, true));
    assert!(!is_cleared(Vacuum::Clear, true, true));
    assert!(is_cleared(Vacuum::Delete, false, true));
    assert!(!is_cleared(Vacuum::Keep, true, true));
}

#[test]
fn our_own_work_is_not_mistaken_for_the_users() {
    let mut s = Suppressed::new();
    s.enter(&p("d"));
    s.enter(&p("d"));
    assert!(s.is_suppressed(&p("d/f")));
    assert!(s.is_suppressed(&p("d")));
    assert!(!s.is_suppressed(&p("e")));
    s.leave(&p("d"));
    assert!(s.is_suppressed(&p("d")));
    s.leave(&p("d"));
    assert!(!s.is_suppressed(&p("d")));
    let at = |secs| Some(Moment { secs, nanos: 0 });
    assert!(is_unmodified(None, at(1)));
    assert!(is_unmodified(at(1), at(1)));
    assert!(!is_unmodified(at(1), at(2)));
    assert!(!is_unmodified(at(1), None));
    assert!(populate_error(Error::NotFound).is_none());
    assert!(matches!(
        populate_error(Error::PermissionDenied),
        Some(Error::PermissionDenied)
    ));
}

#[test]
fn content_is_handed_on_in_even_pieces() {
    let mut pipe = Pipe::new();
    let chunk = vec![7u8; 1_000_000];
    assert!(pipe.push(&chunk).is_none());
    let (at, bytes) = pipe.push(&chunk).unwrap();
    assert_eq!(at, 0);
    assert_eq!(bytes.len(), 488 * 4096);
    let (at, rest) = pipe.finish().unwrap();
    assert_eq!(at, 488 * 4096);
    assert_eq!(rest.len(), 2_000_000 - 488 * 4096);
    assert!(pipe.finish().is_none());
    assert!(size_fits(5, 5));
    assert!(!size_fits(5, -1));
    assert!(size_fits(u64::MAX, -1));
}

fn icon(widths: &[u8]) -> Vec<u8> {
    let mut b = vec![0, 0, 1, 0, widths.len() as u8, 0];
    for (i, w) in widths.iter().enumerate() {
        b.extend([*w, *w, 0, 0, 1, 0, 32, 0]);
        b.extend([4, 0, 0, 0]);
        b.extend([(6 + widths.len() * 16 + i * 4) as u8, 0, 0, 0]);
    }
    b.extend(vec![9; widths.len() * 4]);
    b
}

#[test]
fn the_frame_that_fits_best_is_chosen() {
    assert_eq!(icon_from_ico(&icon(&[16, 48, 0])), Some((54, 4)));
    assert_eq!(icon_from_ico(&icon(&[0, 33, 31])), Some((58, 4)));
    assert_eq!(icon_from_ico(&icon(&[])), None);
    assert_eq!(icon_from_ico(&[0, 0, 1]), None);
    let mut short = icon(&[32]);
    short.pop();
    assert_eq!(icon_from_ico(&short), None);
}

#[test]
fn only_a_clean_placeholder_is_deleted() {
    let clean = placeholder_state(true, true, false, true);
    assert!(clean.partial);
    assert!(may_delete(clean));
    assert!(!may_delete(placeholder_state(true, false, false, false)));
    assert!(!may_delete(placeholder_state(false, true, false, false)));
    assert_eq!(mark_in_sync(clean), Marking::Mark);
    assert_eq!(
        mark_in_sync(placeholder_state(false, false, false, false)),
        Marking::Convert
    );
}
