use std::collections::BTreeMap;

use fdrive::agenda::{Agenda, Upload, QUIET};
use fdrive::client::Msg;
use fdrive::config::{ignore, Ignore};
use fdrive::fetch::{self, part_suffix, Ask, Catch, Chase, Landing, Sweep, Told};
use fdrive::ledger::Ledger;
use fdrive::model::{Meta, Moment, Observation};
use fdrive::path::RelPath;
use fdrive::platform::{is_dir_id, millis, Entry, EntryKind, FsError};
use fdrive::replay::Sent;
use fdrive::scheduler::{DownloadStatus, UploadStatus};
use fdrive::sdk::{check_status, login_reply, Error, ErrorKind, FileInfo, FileType};
use fdrive::table::{PathMap, PathSet};
use fdrive::upload::{proceed, upload, Act, Answer, Guard, Leg, Sight};
use fdrive::view;

fn p(s: &str) -> RelPath {
    RelPath::new(s)
}

fn at(secs: i64) -> Option<Moment> {
    Some(Moment { secs, nanos: 0 })
}

fn file(name: &str, size: u64, mtime: Option<Moment>) -> FileInfo {
    FileInfo {
        name: name.to_string(),
        kind: FileType::File,
        size: Some(size),
        mtime,
    }
}

struct Phone {
    guard: Guard,
    ledger: Ledger,
    agenda: Agenda,
    ignore: Ignore,
    frozen: PathSet,
    local: BTreeMap<String, Meta>,
    remote: BTreeMap<String, (u64, i64)>,
    save_status: u16,
    edit_while_sending: bool,
    sent: Vec<(String, Option<u64>)>,
    stats: usize,
    settled: Vec<String>,
    now: u64,
}

impl Phone {
    fn new(guard: Guard) -> Phone {
        Phone {
            guard,
            ledger: Ledger::default(),
            agenda: Agenda::default(),
            ignore: ignore(None),
            frozen: PathSet::new(),
            local: BTreeMap::new(),
            remote: BTreeMap::new(),
            save_status: 200,
            edit_while_sending: false,
            sent: Vec::new(),
            stats: 0,
            settled: Vec::new(),
            now: 0,
        }
    }

    fn write(&mut self, path: &str, size: u64, secs: i64) {
        let meta = Meta {
            size,
            mtime: at(secs),
        };
        self.local.insert(path.to_string(), meta);
    }

    fn modified(&mut self, path: &str) {
        self.ledger.modified(&p(path));
        self.agenda.arm(p(path), self.now);
    }

    fn stat(&mut self, path: &RelPath) -> Result<FileInfo, Error> {
        self.stats += 1;
        match self.remote.get(path.as_str()) {
            Some((size, secs)) => Ok(file(path.name(), *size, at(*secs))),
            None => Err(Error::NotFound),
        }
    }

    fn perform(&mut self, act: Act) -> Answer {
        match act {
            Act::Look(path) => Answer::Looked(match self.local.get(path.as_str()) {
                Some(meta) => Sight::Here(*meta),
                None => Sight::Missing,
            }),
            Act::Stat(path) => Answer::Stat(self.stat(&path)),
            Act::IsVacant(path) => Answer::IsVacant(
                self.stat(&path).is_err() && !self.local.contains_key(path.as_str()),
            ),
            Act::Send {
                source,
                target,
                since,
            } => {
                self.sent.push((target.as_file(), since));
                let size = self.local[source.as_str()].size;
                if self.edit_while_sending {
                    self.write(source.as_str(), size + 1, 99);
                }
                let held = self.remote.get(target.as_str()).map(|r| r.1 as u64);
                let stale = since.is_some() && held.is_some() && held != since;
                let status = if stale { 412 } else { self.save_status };
                match check_status(status, "status") {
                    Ok(()) => {
                        self.remote
                            .insert(target.as_str().to_string(), (size, 50));
                        Answer::Sent(Sent::Done(at(50)))
                    }
                    Err(e) => Answer::Sent(Sent::Refused(e)),
                }
            }
            Act::Mkdirs(_) => Answer::Done,
            Act::Relocate { from, to } => {
                if let Some(meta) = self.local.remove(from.as_str()) {
                    self.local.insert(to.as_str().to_string(), meta);
                }
                Answer::Done
            }
            Act::Settle { target, .. } => {
                self.settled.push(target.as_str().to_string());
                Answer::Done
            }
        }
    }

    fn upload(&mut self, path: &str) -> Result<Upload, ()> {
        let mut leg = upload(
            &self.ledger,
            self.guard,
            &self.frozen,
            &self.ignore,
            &p(path),
        );
        loop {
            match leg {
                Leg::Do(errand, act) => {
                    let answer = self.perform(act);
                    leg = proceed(&mut self.ledger, errand, answer);
                }
                Leg::End(done) => return Ok(done),
                Leg::Failed => return Err(()),
            }
        }
    }

    fn flush(&mut self, turns: usize) -> bool {
        if let Some(waiter) = self.agenda.flush(7, &self.ledger.dirty, self.now) {
            assert_eq!(waiter, 7);
            return true;
        }
        for _ in 0..turns {
            for path in self.agenda.due(self.now) {
                self.agenda.begin(&path);
                let outcome = self.upload(path.as_str());
                self.agenda.conclude(&path, outcome, self.now);
            }
            let (replies, _) = self.agenda.finish();
            if !replies.is_empty() {
                return true;
            }
            self.now = self.agenda.next().unwrap();
        }
        false
    }

    fn entries(&self, listing: Vec<FileInfo>) -> Vec<Entry> {
        let mut metas = PathMap::new();
        for (path, meta) in &self.local {
            metas.insert(p(path), *meta);
        }
        let fates = PathMap::new();
        let shown = view::overlay(&self.ledger, &fates, &p(""), listing, &metas);
        shown.iter().map(Entry::of).collect()
    }
}

#[test]
fn login_returns_reassembled_token() {
    let cookies = [
        "auth=part1; Path=/; HttpOnly".to_string(),
        "auth1=part2; Path=/; HttpOnly".to_string(),
    ];
    let token = login_reply(302, &cookies).map_err(FsError::of).unwrap();
    assert_eq!(token, "part1part2");
}

#[test]
fn login_rejects_bad_credentials() {
    let err = login_reply(403, &[]).map_err(FsError::of).unwrap_err();
    assert!(matches!(err, FsError::InvalidCredentials));
}

#[test]
fn ls_maps_entries() {
    let entries = Phone::new(Guard::Compare).entries(vec![
        FileInfo::entry("report.pdf".to_string(), "file", 1024, 1700000000000),
        FileInfo::entry("archive".to_string(), "directory", 0, 0),
    ]);
    assert_eq!(entries.len(), 2);
    assert_eq!(entries[0].name, "report.pdf");
    assert_eq!(entries[0].kind, EntryKind::File);
    assert_eq!(entries[0].size, Some(1024));
    assert_eq!(entries[0].mtime_ms, Some(1700000000000));
    assert_eq!(entries[1].kind, EntryKind::Directory);
    assert_eq!(entries[1].mtime_ms, None, "time=0 means unknown");
}

#[test]
fn ls_overlays_local_only_files() {
    let mut phone = Phone::new(Guard::Compare);
    phone.ledger.created(&p("draft.txt"));
    phone.write("draft.txt", 0, 1);
    let entries = phone.entries(Vec::new());
    assert_eq!(entries.len(), 1);
    assert_eq!(entries[0].name, "draft.txt");
}

#[test]
fn open_caches_the_download() {
    let mut phone = Phone::new(Guard::Compare);
    phone.remote.insert("hello.txt".to_string(), (11, 5));
    let mut downloads = 0;
    for _ in 0..2 {
        let path = p("hello.txt");
        let fates = PathMap::new();
        let mut chase = fetch::fetch_start(&phone.ledger, &fates, false, &path, None);
        loop {
            match chase {
                Chase::Do(quest, Ask::Stat(from)) => {
                    let told = Told::Stat(phone.stat(&from));
                    chase = fetch::fetch_next(quest, told, false);
                }
                Chase::Do(quest, Ask::IsFile(path)) => {
                    let told = Told::IsFile(phone.local.contains_key(path.as_str()));
                    chase = fetch::fetch_next(quest, told, false);
                }
                Chase::Ready => break,
                Chase::Begin(path) => {
                    downloads += 1;
                    assert_eq!(phone.ledger.landing(&path, true), Landing::Rename);
                    phone.write(path.as_str(), 11, 5);
                    assert!(phone
                        .ledger
                        .fetched(&path, Some(Observation { size: 11, time: 5 })));
                    break;
                }
                Chase::Failed(err) => panic!("{err:?}"),
            }
        }
    }
    assert_eq!(downloads, 1);
    assert!(phone.local.contains_key("hello.txt"));
}

#[test]
fn saved_uploads_the_edit() {
    let mut phone = Phone::new(Guard::Compare);
    phone.ledger.created(&p("note.txt"));
    phone.write("note.txt", 6, 1);
    phone.modified("note.txt");
    assert!(phone.flush(5));
    assert_eq!(phone.sent, [("/note.txt".to_string(), None)]);
    assert!(phone.ledger.dirty.is_empty());
    assert_eq!(phone.settled, ["note.txt"]);
    assert_eq!(
        phone.ledger.observations.get(&p("note.txt")),
        Some(&Observation { size: 6, time: 50 })
    );
}

#[test]
fn delete_is_a_verdict() {
    let mut ledger = Ledger::default();
    assert!(is_dir_id("/docs/"));
    assert!(!is_dir_id("/locked.txt"));
    let docs = p("/docs/");
    assert_eq!(ledger.to_remove(&docs, true).unwrap(), "/docs/");
    let word = ledger.removed(&docs, check_status(200, "200 OK")).unwrap();
    assert!(matches!(word, Msg::Cancel(x) if x == docs));
    let locked = p("/locked.txt");
    assert_eq!(ledger.to_remove(&locked, false).unwrap(), "/locked.txt");
    let refused = check_status(500, "500 Internal Server Error");
    assert!(ledger.removed(&locked, refused).is_err());
}

#[test]
fn errors_are_mapped() {
    let err = |status| FsError::of(check_status(status, "status").unwrap_err());
    assert!(matches!(err(404), FsError::NotFound));
    assert!(matches!(err(403), FsError::PermissionDenied));
    assert_eq!(err(500).to_string(), "api error: unexpected status status");
    let network = FsError::of(Error::Http("reset".to_string()));
    assert_eq!(network.to_string(), "network error: reset");
    assert_eq!(
        FsError::of(Error::NotAuthenticated).to_string(),
        "not authenticated"
    );
    let local = FsError::of_local(ErrorKind::Other, "disk full".to_string());
    assert_eq!(local.to_string(), "disk full");
    assert!(matches!(
        FsError::of_local(ErrorKind::NotFound, String::new()),
        FsError::NotFound
    ));
}

#[test]
fn times_before_the_epoch_are_unknown() {
    assert_eq!(millis(at(-1)), None);
    assert_eq!(
        millis(Some(Moment {
            secs: 1,
            nanos: 234_567_890
        })),
        Some(1234)
    );
    let edited = Entry::of_local(
        &p("d/f"),
        &Meta {
            size: 4,
            mtime: at(2),
        },
    );
    assert_eq!(edited.name, "f");
    assert_eq!(edited.mtime_ms, Some(2000));
}

#[test]
fn another_version_is_never_overwritten() {
    for guard in [Guard::Compare, Guard::Lease] {
        let mut phone = Phone::new(guard);
        phone
            .ledger
            .observe(&p("note.txt"), Observation { size: 5, time: 40 });
        phone.remote.insert("note.txt".to_string(), (9, 45));
        phone.write("note.txt", 6, 1);
        phone.modified("note.txt");
        assert!(phone.flush(5));
        assert_eq!(phone.remote["note.txt"], (9, 45), "theirs is untouched");
        assert_eq!(phone.remote["note (conflicted copy).txt"], (6, 50));
        assert!(phone.local.contains_key("note (conflicted copy).txt"));
        assert!(!phone.local.contains_key("note.txt"));
        assert!(phone.ledger.dirty.is_empty());
    }
}

#[test]
fn a_leased_upload_names_what_it_replaces() {
    let mut phone = Phone::new(Guard::Lease);
    phone
        .ledger
        .observe(&p("f"), Observation { size: 5, time: 40 });
    phone.remote.insert("f".to_string(), (5, 40));
    phone.write("f", 6, 1);
    phone.modified("f");
    assert!(phone.flush(5));
    assert_eq!(phone.sent, [("/f".to_string(), Some(40))]);
    assert_eq!(phone.stats, 0, "the server is not asked first");
}

#[test]
fn an_edit_during_an_upload_is_kept() {
    let mut phone = Phone::new(Guard::Lease);
    phone.edit_while_sending = true;
    phone.write("f", 6, 1);
    phone.modified("f");
    assert_eq!(phone.upload("f"), Ok(Upload::Retry));
    assert!(phone.ledger.dirty.contains(&p("f")));
    assert!(phone.settled.is_empty());
}

#[test]
fn frozen_ignored_and_vanished_files_are_not_sent() {
    let mut phone = Phone::new(Guard::Lease);
    phone.frozen.insert(p("d"));
    phone.write("d/f", 1, 1);
    phone.modified("d/f");
    assert_eq!(phone.upload("d/f"), Ok(Upload::Retry));
    phone.write("node_modules/x", 1, 1);
    phone.modified("node_modules/x");
    assert_eq!(phone.upload("node_modules/x"), Ok(Upload::Done));
    assert!(phone.ledger.dirty.contains(&p("node_modules/x")));
    phone.modified("gone");
    assert_eq!(phone.upload("gone"), Ok(Upload::Done));
    assert!(!phone.ledger.dirty.contains(&p("gone")));
    assert!(phone.sent.is_empty());
}

#[test]
fn a_refused_upload_makes_the_directories_once() {
    let mut phone = Phone::new(Guard::Compare);
    phone.save_status = 404;
    phone.write("a/b/f", 1, 1);
    phone.modified("a/b/f");
    assert_eq!(phone.upload("a/b/f"), Err(()));
    assert_eq!(phone.sent.len(), 2);
    assert!(phone.ledger.dirty.contains(&p("a/b/f")));
}

#[test]
fn retries_back_off() {
    let mut agenda = Agenda::default();
    let f = p("f");
    agenda.arm(f.clone(), 0);
    assert_eq!(agenda.next(), Some(QUIET));
    assert!(agenda.due(QUIET - 1).is_empty());
    assert_eq!(agenda.due(QUIET), [f.clone()]);
    let mut waits = Vec::new();
    for _ in 0..3 {
        agenda.begin(&f);
        agenda.conclude(&f, Err(()), 0);
        waits.push(agenda.next().unwrap());
    }
    assert!(waits[0] < waits[1] && waits[1] < waits[2]);
    assert_eq!(agenda.tries(&f), 3);
    assert_eq!(agenda.finish().1, UploadStatus::Error);
    agenda.begin(&f);
    agenda.conclude(&f, Ok(Upload::Done), 0);
    assert_eq!(agenda.tries(&f), 0);
    assert_eq!(agenda.finish().1, UploadStatus::Idle);
    agenda.at_once(f.clone(), 3);
    agenda.cancel(&p(""));
    assert_eq!(agenda.next(), Some(3), "only what lies below is cancelled");
    agenda.cancel(&f);
    assert_eq!(agenda.next(), None);
}

#[test]
fn a_rename_keeps_the_edits() {
    let mut ledger = Ledger::default();
    ledger.modified(&p("a"));
    assert!(ledger.to_move(&p("a"), &p("b"), false).is_none());
    let words = ledger.moved(&p("a"), &p("b"), Err(Error::NotFound)).unwrap();
    assert!(ledger.dirty.contains(&p("b")));
    assert!(!ledger.dirty.contains(&p("a")));
    assert!(words
        .iter()
        .any(|w| matches!(w, Msg::Arm(x) | Msg::Now(x) if *x == p("b"))));
    let known = ledger.to_move(&p("c"), &p("d"), true).unwrap();
    assert_eq!(known, ("/c/".to_string(), "/d/".to_string()));
    assert!(ledger
        .moved(&p("c"), &p("d"), Err(Error::PermissionDenied))
        .is_err());
}

#[test]
fn a_restart_takes_up_the_edits() {
    let mut ledger = Ledger::default();
    ledger.modified(&p("f"));
    ledger.modified(&p("node_modules/x"));
    let words = ledger.recovered(&ignore(None));
    assert_eq!(words.len(), 1);
}

#[test]
fn a_walk_brings_all_that_lies_below() {
    let mut sweep = Sweep::new(p("d"));
    assert_eq!(sweep.next(), Some(p("d")));
    let mut sub = file("sub", 0, None);
    sub.kind = FileType::Directory;
    let listing = [file("f", 3, at(4)), sub];
    match sweep.listed(&p("d"), Some(&listing)) {
        Catch::Files(files) => {
            assert_eq!(files, [(p("d/f"), Observation { size: 3, time: 4 })])
        }
        other => panic!("{other:?}"),
    }
    assert_eq!(sweep.next(), Some(p("d/sub")));
    assert!(matches!(sweep.listed(&p("d/sub"), None), Catch::Nothing));
    assert_eq!(sweep.next(), None);
    let mut single = Sweep::new(p("f"));
    single.next();
    assert!(matches!(single.listed(&p("f"), None), Catch::Root));
    assert_eq!(part_suffix(12), ".12.part");
}

#[test]
fn an_edit_during_a_download_is_kept() {
    let path = p("hello.txt");
    let seen = Observation { size: 9, time: 2 };
    let mut ledger = Ledger::default();
    ledger.observe(&path, seen);
    assert!(ledger.serves(true, &path));
    assert!(!ledger.serves(false, &path));
    assert_eq!(ledger.landing(&path, false), Landing::Failed);
    ledger.modified(&path);
    assert!(!ledger.serves(true, &path));
    assert_eq!(ledger.landing(&path, true), Landing::Superseded);
    assert_eq!(ledger.landing(&path, false), Landing::Failed);
    ledger.take_writes();
    assert!(!ledger.cached(&path, 11, at(5), Some(&b"hello world"[..])));
    assert!(!ledger.fetched(&path, None));
    assert!(!ledger.fetched(&path, Some(Observation { size: 11, time: 5 })));
    assert!(ledger.dirty.contains(&path));
    assert_eq!(ledger.observations.get(&path), Some(&seen));
    assert!(ledger.take_writes().is_empty());
}

#[test]
fn a_download_that_ends_well_is_known() {
    let path = p("hello.txt");
    let mut ledger = Ledger::default();
    assert!(ledger.cached(&path, 11, at(5), Some(&b"hello world"[..])));
    assert_eq!(
        ledger.observations.get(&path),
        Some(&Observation { size: 11, time: 5 })
    );
    assert_eq!(ledger.take_writes().len(), 2);
    assert!(ledger.fetched(&path, None));
    assert!(ledger.observations.get(&path).is_none());
    assert_eq!(Landing::Rename.status(true), DownloadStatus::Done);
    assert_eq!(Landing::Rename.status(false), DownloadStatus::Failed);
    assert_eq!(Landing::Superseded.status(true), DownloadStatus::Failed);
    assert!(Landing::Superseded.usable(false));
    assert!(Landing::Rename.usable(true));
    assert!(!Landing::Rename.usable(false));
    assert!(!Landing::Failed.usable(true));
}
