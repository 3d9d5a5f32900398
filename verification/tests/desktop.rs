use fdrive::client;
use fdrive::config::ignore;
use fdrive::inodes::{attr as inode_attr, xattr_reply, Attr, InodeTable, XattrReply, ROOT};
use fdrive::ledger::Ledger;
use fdrive::listing::{
    attr, entry, hint, rmdir, xattr_get, xattr_remove, xattr_set, CacheTree, Rmdir, XattrSet,
    BRIEF_TTL, META_TTL, PIN_XATTR,
};
use fdrive::model::{Meta, Moment, Observation, Plan};
use fdrive::path::RelPath;
use fdrive::platform::{at_least_zero, errno, mtime_secs};
use fdrive::play::Outcome;
use fdrive::replay::{self, Action, Event, Step};
use fdrive::rows::fallback_seqs;
use fdrive::scheduler::Driver;
use fdrive::sdk::{Error, ErrorKind, FileInfo, FileType};
use fdrive::state::State;
use fdrive::table::{PathMap, PathSet};
use fdrive::view;

fn p(s: &str) -> RelPath {
    RelPath::new(s)
}

fn file(name: &str, size: u64) -> FileInfo {
    FileInfo {
        name: name.to_string(),
        kind: FileType::File,
        size: Some(size),
        mtime: None,
    }
}

struct Adapter {
    state: State,
    tree: CacheTree,
    server: Vec<(String, Vec<FileInfo>)>,
    ls_hits: usize,
    rm_hits: Vec<String>,
    now: u64,
}

impl Adapter {
    fn new(server: Vec<(String, Vec<FileInfo>)>) -> Adapter {
        Adapter {
            state: State::open(Ledger::default(), &[], 0),
            tree: CacheTree::new(),
            server,
            ls_hits: 0,
            rm_hits: Vec::new(),
            now: 1_000_000_000,
        }
    }

    fn ls(&mut self, dir: &RelPath) -> Result<Vec<FileInfo>, Error> {
        let listing = match self.tree.cached_listing(dir, self.now, META_TTL) {
            Some(listing) => listing,
            None => {
                self.ls_hits += 1;
                let found = self.server.iter().find(|d| d.0 == dir.as_dir());
                let answer = found.map(|d| d.1.clone()).ok_or(Error::NotFound);
                if let Ok(entries) = &answer {
                    self.state.listed(dir, entries, &PathMap::new());
                }
                self.tree.ls(dir, answer, self.now, true)?
            }
        };
        let fates = self.state.outlook().fates;
        Ok(view::overlay(
            &self.state.ledger,
            &fates,
            dir,
            listing,
            &PathMap::new(),
        ))
    }

    fn replay(&mut self, plan: &Plan) -> Outcome {
        let mut step = replay::begin(&PathSet::new(), plan);
        loop {
            match step {
                Step::Do(task, action) => {
                    let event = match action {
                        Action::Stat(path) => Event::Stat(Ok(file(path.name(), 1))),
                        Action::Rm(path) => {
                            self.rm_hits.push(path.as_file());
                            Event::Reply(Ok(()))
                        }
                        other => panic!("not needed for a removal: {other:?}"),
                    };
                    step = replay::step(task, event, Moment { secs: 9, nanos: 0 });
                }
                Step::Done(outcome) => return outcome,
            }
        }
    }

    fn drain(&mut self) {
        let none = PathSet::new();
        let swap = self.state.compact(true, &ignore(None), &none, self.now);
        if let Some(swap) = swap {
            let rows = fallback_seqs(1, &swap.made);
            self.state.admitted(rows, self.now);
        }
        let mut driver = Driver::default();
        driver.flush(&mut self.state, 7, self.now);
        loop {
            let turn = driver.turn(&mut self.state, self.now);
            if !turn.replies.is_empty() {
                return;
            }
            for (seq, plan) in turn.starts {
                let outcome = self.replay(&plan);
                driver.joined(&mut self.state, seq, Some(outcome), self.now);
            }
        }
    }

    fn delete(&mut self, path: &RelPath, is_dir: bool) {
        match client::delete(path, is_dir) {
            Ok(op) => self.state.record(op, self.now),
            Err(api) => {
                self.drain();
                self.rm_hits.push(api);
                self.state.ledger.dir_removed(path, Ok(())).unwrap();
            }
        }
        self.tree.invalidate(path);
        self.tree.drop(&path.parent_or_root(), path.name());
    }

    fn rmdir(&mut self, path: &RelPath) -> Result<(), Rmdir> {
        let listing = self.ls(path);
        match rmdir(listing) {
            Rmdir::Delete => {
                self.delete(path, true);
                Ok(())
            }
            other => Err(other),
        }
    }
}

#[test]
fn an_inode_is_freed_once_the_kernel_forgets_every_lookup() {
    let mut t = InodeTable::new();
    let path = RelPath::new("a/b");
    let ino = t.ino(&path);
    t.bump(ino);
    t.bump(ino);
    assert_eq!(t.paths.get(&ino), Some(&path));

    t.forget(ino, 1);
    assert_eq!(t.paths.get(&ino), Some(&path), "still referenced once");

    t.forget(ino, 1);
    assert!(!t.paths.contains_key(&ino), "dropped after the last forget");
    assert!(!t.inos.contains_key(&path));
    assert!(!t.lookups.contains_key(&ino));
}

#[test]
fn forgetting_an_unlooked_or_root_inode_is_a_noop() {
    let mut t = InodeTable::new();
    let ino = t.ino(&RelPath::new("listed-only"));
    t.forget(ino, 1);
    assert!(
        t.paths.contains_key(&ino),
        "no lookup count, nothing to forget"
    );
    t.bump(ROOT);
    t.forget(ROOT, 1);
    assert_eq!(
        t.paths.get(&ROOT),
        Some(&RelPath::root()),
        "root is never freed"
    );
}

#[test]
fn a_number_survives_a_rename() {
    let mut t = InodeTable::new();
    let ino = t.ino(&p("a/b"));
    let dir = t.ino(&p("a"));
    t.remap(&p("a"), &p("z"));
    assert_eq!(t.path(ino), Some(p("z/b")));
    assert_eq!(t.ino(&p("z")), dir);
    assert_eq!(t.child(dir, "b"), Some(p("z/b")));
    assert_eq!(t.child(999, "b"), None);
    assert_ne!(t.ino(&p("a")), dir, "the old name is another file");
}

#[test]
fn a_directory_is_read_out_with_its_dots() {
    let mut t = InodeTable::new();
    let mut sub = file("sub", 0);
    sub.kind = FileType::Directory;
    let lines = t.readdir(ROOT, &p(""), &[file("f", 1), sub, file("a/b", 1)]);
    let shown: Vec<(u64, bool, &str)> = lines
        .iter()
        .map(|l| (l.ino, l.is_dir, l.name.as_str()))
        .collect();
    assert_eq!(
        shown,
        [
            (1, true, "."),
            (1, true, ".."),
            (2, false, "f"),
            (3, true, "sub"),
        ]
    );
}

#[test]
fn the_kernel_is_told_of_blocks() {
    assert_eq!(
        inode_attr(false, 513),
        Attr {
            is_dir: false,
            size: 513,
            blocks: 2,
            perm: 0o644
        }
    );
    assert_eq!(inode_attr(true, 0).perm, 0o755);
    assert_eq!(inode_attr(false, u64::MAX).blocks, 1 << 55);
    assert_eq!(xattr_reply(6, 0), XattrReply::Size(6));
    assert_eq!(xattr_reply(6, 6), XattrReply::Data);
    assert_eq!(xattr_reply(6, 5), XattrReply::TooSmall);
}

#[test]
fn rmdir_vetoes_a_directory_that_is_not_empty_on_the_server() {
    let mut adapter = Adapter::new(vec![("/d/".to_string(), vec![file("precious.txt", 3)])]);
    let err = adapter.rmdir(&RelPath::new("d")).unwrap_err();
    assert!(matches!(err, Rmdir::NotEmpty));
    assert_eq!(adapter.rm_hits.len(), 0);
}

#[test]
fn rmdir_of_an_empty_directory_deletes_it() {
    let mut adapter = Adapter::new(vec![("/d/".to_string(), Vec::new())]);
    adapter.rmdir(&RelPath::new("d")).unwrap();
    assert_eq!(adapter.rm_hits, ["/d/"]);
}

#[test]
fn a_delete_storm_lists_each_directory_once() {
    let listing = vec![file("a.txt", 1), file("b.txt", 1), file("c.txt", 1)];
    let mut adapter = Adapter::new(vec![("/d/".to_string(), listing)]);
    adapter.ls(&RelPath::new("d")).unwrap();
    for name in ["d/a.txt", "d/b.txt", "d/c.txt"] {
        adapter.delete(&RelPath::new(name), false);
    }
    adapter.rmdir(&RelPath::new("d")).unwrap();
    assert_eq!(adapter.ls_hits, 1);
    assert_eq!(
        adapter.rm_hits,
        ["/d/a.txt", "/d/b.txt", "/d/c.txt", "/d/"]
    );
}

#[test]
fn rmdir_of_a_directory_gone_from_the_server_succeeds() {
    let mut adapter = Adapter::new(Vec::new());
    adapter.rmdir(&RelPath::new("d")).unwrap();
    assert_eq!(adapter.rm_hits, ["/d/"]);
    assert!(matches!(
        rmdir(Err(Error::PermissionDenied)),
        Rmdir::Failed(Error::PermissionDenied)
    ));
}

fn serves_the_stale_listing() {
    let mut tree = CacheTree::new();
    let dir = RelPath::new("d");
    tree.keep(&dir, vec![file("a.txt", 1)], 0);
    let now = 600_000_000_000;
    assert!(tree.cached_listing(&dir, now, META_TTL).is_none());
    let refused = || Err(Error::Http("connection refused".to_string()));
    let listing = tree.ls(&dir, refused(), now, true).unwrap();
    assert_eq!(listing.len(), 1);
    assert_eq!(listing[0].name, "a.txt");
    assert!(tree
        .ls(&RelPath::new("never-seen"), refused(), now, true)
        .is_err());
    assert!(tree.ls(&dir, Err(Error::NotFound), now, true).is_err());
    assert!(tree.ls(&dir, refused(), now, false).is_err());
}

#[test]
fn adapter_ls_serves_the_stale_listing_when_the_server_is_unreachable() {
    serves_the_stale_listing();
}

#[test]
fn adapter_test_ls_serves_the_stale_listing_when_the_server_is_unreachable() {
    serves_the_stale_listing();
}

#[test]
fn a_listing_is_good_for_a_while() {
    let mut tree = CacheTree::new();
    let dir = p("d");
    let fetched = tree.ls(&dir, Ok(vec![file("f", 1)]), 100, true).unwrap();
    assert_eq!(fetched.len(), 1);
    assert!(tree
        .cached_listing(&dir, 99 + META_TTL, META_TTL)
        .is_some());
    assert!(tree
        .cached_listing(&dir, 100 + META_TTL, META_TTL)
        .is_none());
    assert!(tree
        .cached_listing(&dir, 100 + BRIEF_TTL, BRIEF_TTL)
        .is_none());
    tree.invalidate(&dir);
    assert!(tree.cached_listing(&dir, 100, META_TTL).is_none());
    tree.keep(&dir, vec![file("f", 1)], 100);
    tree.clear();
    assert!(tree.cached_listing(&dir, 100, META_TTL).is_none());
}

#[test]
fn a_path_is_told_of_by_its_edits_first() {
    let listing = [file("f", 3), file("f", 4)];
    let found = entry(&listing, "f");
    assert_eq!(found.unwrap().size, Some(3));
    assert!(entry(&listing, "g").is_none());
    let epoch = Moment { secs: 0, nanos: 0 };
    assert_eq!(attr(&p(""), None, None), Some((true, 0, epoch)));
    let at = Moment { secs: 8, nanos: 0 };
    let edits = Meta {
        size: 9,
        mtime: Some(at),
    };
    assert_eq!(attr(&p("f"), Some(edits), found), Some((false, 9, at)));
    assert_eq!(attr(&p("f"), None, found), Some((false, 3, epoch)));
    assert_eq!(attr(&p("g"), None, None), None);
    assert_eq!(hint(found), Some(Observation { size: 3, time: 0 }));
    assert_eq!(hint(None), None);
}

#[test]
fn a_pin_is_an_attribute() {
    assert_eq!(xattr_set(PIN_XATTR, b"always"), XattrSet::Pin);
    assert_eq!(xattr_set(PIN_XATTR, b"auto"), XattrSet::Unpin);
    assert_eq!(xattr_set(PIN_XATTR, b"never"), XattrSet::Invalid);
    assert_eq!(xattr_set("user.other", b"always"), XattrSet::Ordinary);
    assert_eq!(xattr_get(PIN_XATTR, true), Some(Some(b"always".to_vec())));
    assert_eq!(xattr_get(PIN_XATTR, false), Some(None));
    assert_eq!(xattr_get("user.other", true), None);
    assert!(xattr_remove(PIN_XATTR));
    assert!(!xattr_remove("user.other"));
}

#[test]
fn a_c_program_gets_a_number() {
    assert_eq!(errno(Some(39), ErrorKind::Other), -39);
    assert_eq!(errno(None, ErrorKind::NotFound), -2);
    assert_eq!(errno(None, ErrorKind::PermissionDenied), -13);
    assert_eq!(errno(None, ErrorKind::Other), -5);
    let at = |secs| Moment { secs, nanos: 7 };
    assert_eq!(mtime_secs(at(5)), 5);
    assert_eq!(mtime_secs(at(-5)), 0);
    assert_eq!(at_least_zero(-1), 0);
    assert_eq!(at_least_zero(i64::MAX), i64::MAX as u64);
}
