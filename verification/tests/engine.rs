use std::collections::{BTreeMap, BTreeSet};

use fdrive::client;
use fdrive::config::{ignore, Ignore};
use fdrive::conflict::{Conflicts, Verdict};
use fdrive::fetch::{self, Ask, Chase, Download, Landing, Readiness, Told};
use fdrive::ledger::{Ledger, Write};
use fdrive::model::{Conflict, Meta, Moment, Observation, Operation, Plan, Resolution};
use fdrive::path::RelPath;
use fdrive::play::Outcome;
use fdrive::replay::{self, Action, Event, Look, Sent, Step};
use fdrive::rows::{conflict_row, plan_row, JournalRow};
use fdrive::scheduler::{DownloadStatus, Driver, UploadStatus};
use fdrive::sdk::{check_status, read_date, Error, FileInfo, FileType};
use fdrive::state::State;
use fdrive::table::{PathMap, PathSet};
use fdrive::view;

const MTIME: &str = "Wed, 21 Oct 2015 07:28:00 GMT";
const MS: u64 = 1_000_000;

fn p(s: &str) -> RelPath {
    RelPath::new(s)
}

fn mtime() -> Option<Moment> {
    read_date(Some(MTIME))
}

fn observed(size: u64) -> Observation {
    Observation::new(size, mtime())
}

fn file(name: &str, size: u64) -> FileInfo {
    FileInfo {
        name: name.to_string(),
        kind: FileType::File,
        size: Some(size),
        mtime: None,
    }
}

#[derive(Default)]
struct Server {
    heads: BTreeMap<String, (u64, Option<Moment>)>,
    head_status: Option<u16>,
    saves: BTreeMap<String, (u16, Option<Moment>)>,
    save_status: Option<(u16, Option<Moment>)>,
    mv_status: Option<u16>,
    rm_status: Option<u16>,
    unreachable: bool,
    takes_deltas: bool,
    head_hits: Vec<String>,
    save_hits: Vec<(String, Option<u64>)>,
    delta_hits: Vec<(String, u64)>,
    mv_hits: Vec<(String, String)>,
    rm_hits: Vec<String>,
    mkdir_hits: Vec<String>,
}

impl Server {
    fn reply(&self, status: u16) -> Result<(), Error> {
        if self.unreachable {
            return Err(Error::Http("no route to host".to_string()));
        }
        check_status(status, "status")
    }

    fn stat(&mut self, path: &RelPath) -> Result<FileInfo, Error> {
        self.head_hits.push(path.as_file());
        let status = match (self.head_status, self.heads.get(path.as_str())) {
            (Some(status), _) => status,
            (None, Some(_)) => 200,
            (None, None) => 404,
        };
        self.reply(status)?;
        let (size, mtime) = self.heads[path.as_str()];
        Ok(FileInfo {
            name: path.name().to_string(),
            kind: FileType::File,
            size: Some(size),
            mtime,
        })
    }

    fn save(&mut self, path: &RelPath, since: Option<u64>) -> Sent {
        self.save_hits.push((path.as_file(), since));
        let (status, mtime) = match (self.saves.get(path.as_str()), self.save_status) {
            (Some(rule), _) => *rule,
            (None, Some(rule)) => rule,
            (None, None) => (404, None),
        };
        match self.reply(status) {
            Ok(()) => Sent::Done(mtime),
            Err(err) => Sent::Refused(err),
        }
    }
}

#[derive(Default)]
struct Disk {
    versions: BTreeMap<String, Observation>,
    journal: Vec<JournalRow>,
    pins: BTreeSet<String>,
    signs: BTreeMap<String, Vec<u8>>,
    conflicts: Vec<i64>,
    next: i64,
}

impl Disk {
    fn number(&mut self) -> i64 {
        self.next += 1;
        self.next
    }

    fn apply(&mut self, write: Write) {
        match write {
            Write::Observe(path, o) => {
                self.versions.insert(path.as_str().to_string(), o);
            }
            Write::Unobserve(path) => {
                self.versions.remove(path.as_str());
            }
            Write::UnobserveWithin(dir) => self.versions.retain(|k, _| !p(k).is_within(&dir)),
            Write::Mark(path) => {
                let seq = self.number();
                self.journal.push(JournalRow {
                    seq,
                    op: "w".to_string(),
                    path: path.as_str().to_string(),
                    dest: None,
                    base: None,
                    size: None,
                    time: None,
                });
            }
            Write::Unmark(path) => self
                .journal
                .retain(|r| r.op != "w" || r.path != path.as_str()),
            Write::UnmarkWithin(dir) => self
                .journal
                .retain(|r| r.op != "w" || !p(&r.path).is_within(&dir)),
            Write::Retire(seq) => self.journal.retain(|r| r.seq != seq),
            Write::Sign(path, sig) => {
                self.signs.insert(path.as_str().to_string(), sig);
            }
            Write::Unsign(path) => {
                self.signs.remove(path.as_str());
            }
            Write::UnsignWithin(dir) => self.signs.retain(|k, _| !p(k).is_within(&dir)),
            Write::MoveSigns(_, _) => {}
            Write::Pin(path) => {
                self.pins.insert(path.as_str().to_string());
            }
            Write::Unpin(path) => {
                self.pins.remove(path.as_str());
            }
            Write::ForgetConflict(seq) => self.conflicts.retain(|c| *c != seq),
        }
    }

    fn open(&self, now: u64) -> State {
        let versions: Vec<(String, i64, i64)> = self
            .versions
            .iter()
            .map(|(path, o)| (path.clone(), o.size as i64, o.time as i64))
            .collect();
        let pins: Vec<String> = self.pins.iter().cloned().collect();
        let ledger = Ledger::load(&versions, &self.journal, &pins);
        State::open(ledger, &self.journal, now)
    }
}

struct World {
    state: State,
    driver: Driver,
    conflicts: Conflicts,
    server: Server,
    disk: Disk,
    local: BTreeMap<String, (Vec<u8>, i64)>,
    dirs: BTreeSet<String>,
    frozen: PathSet,
    ignore: Ignore,
    settled: Vec<String>,
    now: u64,
    stamp: i64,
    busiest: usize,
    status: UploadStatus,
}

impl World {
    fn new() -> World {
        World::reopen(Disk::default(), BTreeMap::new())
    }

    fn reopen(disk: Disk, local: BTreeMap<String, (Vec<u8>, i64)>) -> World {
        World {
            state: disk.open(0),
            driver: Driver::default(),
            conflicts: Conflicts::load(Vec::new()),
            server: Server::default(),
            disk,
            local,
            dirs: BTreeSet::new(),
            frozen: PathSet::new(),
            ignore: ignore(None),
            settled: Vec::new(),
            now: 1_000 * MS,
            stamp: 1_700_000_000,
            busiest: 0,
            status: UploadStatus::Idle,
        }
    }

    fn write(&mut self, path: &str, data: &[u8]) {
        self.stamp += 1;
        self.local.insert(path.to_string(), (data.to_vec(), self.stamp));
    }

    fn meta(&self, path: &str) -> Option<Meta> {
        self.local.get(path).map(|(data, stamp)| Meta {
            size: data.len() as u64,
            mtime: Some(Moment {
                secs: *stamp,
                nanos: 0,
            }),
        })
    }

    fn metas(&self) -> PathMap<Meta> {
        let mut metas = PathMap::new();
        for path in self.local.keys() {
            metas.insert(p(path), self.meta(path).unwrap());
        }
        metas
    }

    fn created(&mut self, path: &str) {
        self.state.record(Operation::Create(p(path)), self.now);
    }

    fn modified(&mut self, path: &str) {
        self.state.record(Operation::Write(p(path)), self.now);
    }

    fn delete(&mut self, path: &str) {
        let op = client::delete(&p(path), false).unwrap();
        self.state.record(op, self.now);
        self.local.remove(path);
    }

    fn rename(&mut self, from: &str, to: &str) {
        let op = client::rename(&p(from), &p(to), false).unwrap();
        self.state.record(op, self.now);
    }

    fn overlay(&self, dir: &str, listing: Vec<FileInfo>) -> Vec<FileInfo> {
        let outlook = self.state.outlook();
        assert!(view::fates_fit(&outlook.fates));
        view::overlay(
            &self.state.ledger,
            &outlook.fates,
            &p(dir),
            listing,
            &self.metas(),
        )
    }

    fn store(&mut self) {
        for write in self.state.ledger.take_writes() {
            self.disk.apply(write);
        }
    }

    fn compact(&mut self, force: bool) {
        let mut empty = PathSet::new();
        for (path, (data, _)) in &self.local {
            if data.is_empty() {
                empty.insert(p(path));
            }
        }
        let swap = self
            .state
            .compact(force, &self.ignore, &empty, self.now);
        self.store();
        if let Some(swap) = swap {
            for path in &swap.unmark {
                self.disk.apply(Write::Unmark(path.clone()));
            }
            for seq in &swap.retired {
                self.disk.apply(Write::Retire(*seq));
            }
            let mut rows = Vec::new();
            for plan in swap.made {
                let seq = self.disk.number();
                self.disk.journal.push(plan_row(seq, &plan));
                rows.push((seq, plan));
            }
            self.state.admitted(rows, self.now);
        }
        self.store();
    }

    fn perform(&mut self, action: Action) -> Event {
        match action {
            Action::Stat(path) => Event::Stat(self.server.stat(&path)),
            Action::Mv { from, to } => {
                self.server.mv_hits.push((from.as_file(), to.as_file()));
                Event::Reply(self.server.reply(self.server.mv_status.unwrap_or(404)))
            }
            Action::Rm(path) => {
                self.server.rm_hits.push(path.as_file());
                Event::Reply(self.server.reply(self.server.rm_status.unwrap_or(404)))
            }
            Action::IsFile(path) => Event::IsFile(self.local.contains_key(path.as_str())),
            Action::Look(path) => Event::Looked(if self.dirs.contains(path.as_str()) {
                Look::NotAFile
            } else {
                match self.meta(path.as_str()) {
                    Some(meta) => Look::File(meta),
                    None => Look::Missing,
                }
            }),
            Action::Signature(path) => Event::Signature {
                sig: self.disk.signs.get(path.as_str()).cloned(),
                base_time: self.state.observed(&path).map(|o| o.time),
            },
            Action::ReadForDelta(path) => Event::Data(if self.server.takes_deltas {
                self.local.get(path.as_str()).map(|(data, _)| data.clone())
            } else {
                None
            }),
            Action::SendDelta { target, since, .. } => {
                self.server.delta_hits.push((target.as_file(), since));
                Event::Sent(Sent::Done(mtime()))
            }
            Action::Send { target, since, .. } => Event::Sent(self.server.save(&target, since)),
            Action::Mkdirs(dirs) => {
                for dir in dirs {
                    self.server.mkdir_hits.push(dir.as_dir());
                }
                Event::Dirs
            }
            Action::IsVacant(path) => {
                let taken = self.server.stat(&path).is_ok();
                Event::IsVacant(!taken && !self.local.contains_key(path.as_str()))
            }
            Action::Review(path) => {
                self.settled.push(path.as_str().to_string());
                Event::Reviewed {
                    data: self.local.get(path.as_str()).map(|(data, _)| data.clone()),
                    after: self.meta(path.as_str()).and_then(|md| md.mtime),
                }
            }
            Action::Rename { from, to } => {
                if let Some(data) = self.local.remove(from.as_str()) {
                    self.local.insert(to.as_str().to_string(), data);
                }
                self.settled.push(to.as_str().to_string());
                Event::Reviewed {
                    data: self.local.get(to.as_str()).map(|(data, _)| data.clone()),
                    after: self.meta(to.as_str()).and_then(|md| md.mtime),
                }
            }
        }
    }

    fn replay(&mut self, plan: &Plan) -> Outcome {
        let mut step = replay::begin(&self.frozen, plan);
        loop {
            match step {
                Step::Do(task, action) => {
                    let event = self.perform(action);
                    step = replay::step(task, event, Moment { secs: 9, nanos: 0 });
                }
                Step::Done(outcome) => return outcome,
            }
        }
    }

    fn run(&mut self, until: u64) -> bool {
        loop {
            self.compact(false);
            let turn = self.driver.turn(&mut self.state, self.now);
            self.busiest = self.busiest.max(self.driver.running.len());
            self.status = turn.status;
            if !turn.replies.is_empty() {
                return true;
            }
            if turn.starts.is_empty() {
                match turn.deadline {
                    Some(at) if at <= until && self.now < until => {
                        self.now = at.max(self.now + 10 * MS).min(until);
                    }
                    _ => {
                        self.now = until;
                        return false;
                    }
                }
            }
            for (seq, plan) in turn.starts {
                let outcome = self.replay(&plan);
                let conflict = self
                    .driver
                    .joined(&mut self.state, seq, Some(outcome), self.now);
                if let Some(c) = conflict {
                    let seq = self.disk.number();
                    assert_eq!(conflict_row(&c).seq, 0);
                    self.disk.conflicts.push(seq);
                    self.conflicts.add(c, seq);
                }
                self.store();
            }
        }
    }

    fn run_for(&mut self, ms: u64) {
        let until = self.now + ms * MS;
        self.run(until);
    }

    fn flush(&mut self, ms: u64) -> bool {
        self.compact(true);
        self.driver.flush(&mut self.state, 7, self.now);
        let until = self.now + ms * MS;
        self.run(until)
    }

    fn settle(&mut self) {
        self.flush(10_000);
    }

    fn know(&mut self, path: &str, o: Observation) {
        self.state.ledger.observe(&p(path), o);
        self.store();
    }

    fn is_dirty(&self, path: &str) -> bool {
        self.state.is_dirty(&p(path))
    }

    fn known(&self) -> Vec<String> {
        let keys = self.state.ledger.observations.keys();
        keys.iter().map(|k| k.as_str().to_string()).collect()
    }

    fn saved(&self, path: &str) -> usize {
        let path = p(path).as_file();
        self.server.save_hits.iter().filter(|h| h.0 == path).count()
    }

    fn hydrate(&mut self, path: &str, current: Option<Observation>) -> Result<bool, Error> {
        let path = p(path);
        let fates = self.state.outlook().fates;
        let mut chase = fetch::fetch_start(&self.state.ledger, &fates, false, &path, current);
        loop {
            match chase {
                Chase::Do(quest, Ask::Stat(from)) => {
                    let told = Told::Stat(self.server.stat(&from));
                    chase = fetch::fetch_next(quest, told, true);
                }
                Chase::Do(quest, Ask::IsFile(path)) => {
                    let told = Told::IsFile(self.local.contains_key(path.as_str()));
                    chase = fetch::fetch_next(quest, told, true);
                }
                Chase::Ready => return Ok(false),
                Chase::Begin(path) => {
                    let from = fetch::download_from(&fates, &path);
                    self.server.head_hits.push(format!("GET {}", from.as_file()));
                    assert_eq!(self.state.ledger.landing(&path, true), Landing::Rename);
                    self.write(path.as_str(), b"hello");
                    assert!(self
                        .state
                        .ledger
                        .cached(&path, 5, mtime(), Some(&b"hello"[..])));
                    self.store();
                    return Ok(true);
                }
                Chase::Failed(err) => return Err(err),
            }
        }
    }

    fn downloads(&self) -> Vec<&str> {
        self.server
            .head_hits
            .iter()
            .filter_map(|h| h.strip_prefix("GET "))
            .collect()
    }
}

#[test]
fn a_file_open_for_writing_holds_its_save() {
    let mut w = World::new();
    w.server.save_status = Some((200, None));
    w.state.write_opened(&p("f"));
    w.write("f", b"half-written");
    w.created("f");
    w.modified("f");

    w.run_for(600);
    assert_eq!(w.server.save_hits.len(), 0);

    w.state.write_closed(&p("f"));
    w.settle();
    assert_eq!(w.server.save_hits.len(), 1);
}

#[test]
fn an_emptied_file_waits_for_its_rewrite() {
    let mut w = World::new();
    w.server.saves.insert("f".to_string(), (200, mtime()));
    w.know("f", observed(5));

    w.write("f", b"");
    w.modified("f");
    w.run_for(600);
    assert_eq!(w.saved("f"), 0);

    w.write("f", b"the real bytes");
    w.modified("f");
    w.settle();
    assert_eq!(w.saved("f"), 1);
}

#[test]
fn a_local_only_delete_is_vacuous() {
    let mut w = World::new();
    w.server.rm_status = Some(200);
    w.state.ledger.dirty_set(&p("f"));
    w.delete("f");
    w.settle();
    assert_eq!(w.server.rm_hits.len(), 0);
    assert!(w.state.ledger.dirty.is_empty());
}

#[test]
fn a_failed_remove_stays_owed() {
    let mut w = World::new();
    w.server.head_status = Some(500);
    w.know("f", observed(5));
    w.delete("f");
    w.flush(1200);
    assert!(w.state.ledger.observations.contains_key(&p("f")));
    assert_eq!(w.state.journal.pending.len(), 1);
}

#[test]
fn a_new_file_saves_on_flush() {
    let mut w = World::new();
    w.server.saves.insert("f".to_string(), (200, None));
    w.write("f", b"hello");
    w.created("f");
    w.modified("f");

    w.settle();
    assert_eq!(w.saved("f"), 1);
    assert!(w.state.ledger.dirty.is_empty());
    assert_eq!(w.settled, ["f"]);
}

#[test]
fn a_save_carries_its_lease() {
    let mut w = World::new();
    w.server.saves.insert("f".to_string(), (200, mtime()));
    w.write("f", b"hello");
    w.know("f", observed(5));
    w.modified("f");

    w.settle();
    assert_eq!(
        w.server.save_hits,
        [("/f".to_string(), Some(observed(5).time))]
    );
    assert_eq!(w.state.observed(&p("f")), Some(observed(5)));
    assert!(w.state.ledger.dirty.is_empty());
}

#[test]
fn a_vanished_file_settles_without_the_server() {
    let mut w = World::new();
    w.modified("gone");
    w.settle();
    assert!(w.state.ledger.dirty.is_empty());
    assert!(w.server.head_hits.is_empty());
}

#[test]
fn a_failed_save_keeps_the_debt() {
    let mut w = World::new();
    w.server.save_status = Some((403, None));
    w.write("a/b/f", b"deep");
    w.modified("a/b/f");

    w.flush(1200);
    assert_eq!(w.server.mkdir_hits, ["/a/", "/a/b/"]);
    assert_eq!(w.server.save_hits.len(), 2);
    assert!(w.is_dirty("a/b/f"));
    assert_eq!(w.status, UploadStatus::Error);
}

#[test]
fn a_remove_carries_its_lease() {
    let mut w = World::new();
    w.server.heads.insert("f".to_string(), (5, mtime()));
    w.server.rm_status = Some(200);
    w.know("f", observed(5));

    w.delete("f");
    w.settle();
    assert_eq!(w.server.rm_hits, ["/f"]);
    assert!(w.state.ledger.observations.is_empty());
}

#[test]
fn a_remove_never_deletes_an_unseen_version() {
    let mut w = World::new();
    w.server.heads.insert("f".to_string(), (9, mtime()));
    w.server.rm_status = Some(200);
    w.know("f", observed(5));

    w.delete("f");
    w.settle();
    assert_eq!(w.server.rm_hits.len(), 0);
    let conflicts = w.conflicts.all();
    assert_eq!(conflicts.len(), 1);
    assert_eq!(conflicts[0].found, Some(observed(9)));
    assert_eq!(
        w.state.observed(&p("f")),
        Some(observed(9)),
        "their version is now the one we know"
    );
}

#[test]
fn a_move_follows_a_vanished_source_with_a_save() {
    let mut w = World::new();
    w.server.saves.insert("b".to_string(), (200, None));
    w.know("a", observed(5));
    w.write("b", b"moved");

    w.rename("a", "b");
    w.settle();
    assert_eq!(w.saved("b"), 1);
    assert!(
        w.conflicts.all().is_empty(),
        "we held the bytes, nothing was lost"
    );
}

#[test]
fn a_wiped_db_with_a_leftover_cache_mutates_nothing() {
    let mut w = World::new();
    w.server.rm_status = Some(200);
    w.server.mv_status = Some(200);
    w.server.save_status = Some((200, None));
    w.write("was-dirty-before-the-wipe.txt", b"leftover");

    w.settle();

    assert_eq!(w.server.rm_hits.len(), 0);
    assert_eq!(w.server.mv_hits.len(), 0);
    assert_eq!(w.server.save_hits.len(), 0);
}

#[test]
fn a_cache_deleted_under_pending_edits_mutates_nothing() {
    let mut w = World::new();
    w.server.rm_status = Some(200);
    w.server.mv_status = Some(200);
    w.server.save_status = Some((200, None));
    w.created("doc.txt");
    w.modified("doc.txt");

    w.settle();

    assert_eq!(w.server.rm_hits.len(), 0);
    assert_eq!(w.server.mv_hits.len(), 0);
    assert_eq!(w.server.save_hits.len(), 0);
    assert!(w.state.ledger.dirty.is_empty(), "the debt is written off");
}

#[test]
fn garbage_plans_in_the_db_never_reach_the_server() {
    let mut disk = Disk::default();
    disk.journal.push(JournalRow {
        seq: 1,
        op: "r".to_string(),
        path: "ghost/../../../etc/passwd".to_string(),
        dest: None,
        base: None,
        size: Some(5),
        time: Some(5),
    });
    disk.journal.push(JournalRow {
        seq: 2,
        op: "m".to_string(),
        path: "no/where".to_string(),
        dest: Some("else/where".to_string()),
        base: None,
        size: Some(1),
        time: Some(1),
    });
    disk.next = 2;
    let mut w = World::reopen(disk, BTreeMap::new());
    w.server.rm_status = Some(200);
    w.server.mv_status = Some(200);
    w.server.save_status = Some((200, None));

    w.settle();

    assert_eq!(w.server.rm_hits.len(), 0);
    assert_eq!(w.server.mv_hits.len(), 0);
    assert_eq!(w.server.save_hits.len(), 0);
    assert!(w.state.idle(), "the garbage is retired, not retried");
}

#[test]
fn a_stale_save_landing_on_a_file_turned_directory_uploads_nothing() {
    let mut crashed = World::new();
    crashed.server.save_status = Some((500, None));
    crashed.created("doc.txt");
    crashed.modified("doc.txt");
    crashed.write("doc.txt", b"unsent edit");
    crashed.flush(1000);

    let mut w = World::reopen(crashed.disk, BTreeMap::new());
    w.dirs.insert("doc.txt".to_string());
    w.write("doc.txt/nested", b"the name is a folder now");
    w.server.rm_status = Some(200);
    w.server.mv_status = Some(200);
    w.server.save_status = Some((200, None));
    w.settle();

    assert_eq!(w.server.rm_hits.len(), 0);
    assert_eq!(w.server.mv_hits.len(), 0);
    assert_eq!(w.server.save_hits.len(), 0);
    assert!(w.state.idle(), "the stale save is retired, not retried");
}

#[test]
fn a_crash_with_a_pending_remove_replays_it_exactly_once() {
    let mut crashed = World::new();
    crashed.server.head_status = Some(500);
    crashed.know("doomed.txt", observed(5));
    crashed.delete("doomed.txt");
    crashed.flush(1000);

    let mut w = World::reopen(crashed.disk, BTreeMap::new());
    w.server.heads.insert("doomed.txt".to_string(), (5, mtime()));
    w.server.rm_status = Some(200);
    w.server.mv_status = Some(200);
    w.server.save_status = Some((200, None));
    w.settle();

    assert_eq!(w.server.rm_hits.len(), 1);
    assert_eq!(w.server.mv_hits.len(), 0);
    assert_eq!(w.server.save_hits.len(), 0);
}

#[test]
fn a_dead_server_leaves_no_mark_anywhere() {
    let mut w = World::new();
    w.server.unreachable = true;
    w.know("doc.txt", Observation::new(1, None));
    w.created("doc.txt");
    w.modified("doc.txt");
    w.delete("doc.txt");

    w.flush(1000);

    assert!(
        !w.state.idle(),
        "the debt is still owed, nothing was dropped"
    );
}

#[test]
fn the_scheduler_replays_concurrently() {
    let mut w = World::new();
    w.server.save_status = Some((200, None));
    for name in ["a", "b", "c", "d"] {
        w.write(name, b"x");
        w.created(name);
        w.modified(name);
    }
    w.settle();
    assert_eq!(w.server.save_hits.len(), 4);
    assert_eq!(w.busiest, 4, "the saves overlapped");
}

#[test]
fn five_saves_are_never_sent_at_once() {
    let mut w = World::new();
    w.server.save_status = Some((200, None));
    for name in ["a", "b", "c", "d", "e"] {
        w.write(name, b"x");
        w.modified(name);
    }
    w.compact(true);
    let turn = w.driver.turn(&mut w.state, w.now);
    assert_eq!(turn.starts.len(), 4);
    assert_eq!(turn.status, UploadStatus::Busy);
    let none = w.driver.joined(&mut w.state, 999, None, w.now);
    assert!(none.is_none(), "nobody knows that replay");
    let first = turn.starts[0].0;
    let none = w.driver.joined(&mut w.state, first, None, w.now);
    assert!(none.is_none());
    assert_eq!(w.driver.running.len(), 3);
    let turn = w.driver.turn(&mut w.state, w.now);
    assert_eq!(turn.status, UploadStatus::Error, "it broke off");
    assert_eq!(turn.starts.len(), 1, "the fifth takes the place");
}

#[test]
fn overlay_masks_the_pending_world() {
    let mut w = World::new();
    w.know("a", observed(5));
    w.know("doomed", observed(3));

    w.rename("a", "b");
    w.delete("doomed");

    let listing = w.overlay("", vec![file("a", 5), file("doomed", 3)]);
    let names: Vec<&str> = listing.iter().map(|e| e.name.as_str()).collect();
    assert_eq!(names, ["b"], "a moved to b, doomed is gone");
    assert_eq!(listing[0].size, Some(5), "b borrows a's metadata");
    assert_eq!(listing[0].mtime, mtime());
}

#[test]
fn overlay_keeps_local_only_files_visible() {
    let mut w = World::new();
    let path = "web/node_modules/left-pad/index.js";
    w.write(path, b"junk");
    w.modified(path);

    w.settle();
    assert!(
        w.is_dirty(path),
        "ignored paths stay dirty so the overlay keeps showing them"
    );
    let listing = w.overlay("web/node_modules/left-pad", vec![]);
    assert_eq!(listing.len(), 1);
    assert_eq!(listing[0].name, "index.js");
}

#[test]
fn content_current_is_the_freshness_rule() {
    let mut w = World::new();
    let path = p("f");
    let version = Observation::new(5, None);

    assert!(
        !w.state.content_current(&path, version, false),
        "nothing local yet"
    );
    w.state.ledger.observations.insert(path.clone(), version);
    assert!(
        !w.state.content_current(&path, version, false),
        "observed but no bytes"
    );
    w.write("f", b"bytes");
    assert!(w.state.content_current(&path, version, true));
    assert!(
        !w.state
            .content_current(&path, Observation::new(9, None), true),
        "server moved"
    );
    w.state.ledger.dirty.insert(path.clone());
    assert!(
        w.state
            .content_current(&path, Observation::new(9, None), true),
        "dirty always wins"
    );
}

#[test]
fn overwriting_observes_the_replaced_version() {
    let mut w = World::new();
    w.server.heads.insert("f".to_string(), (7, None));
    let path = p("f");
    assert!(w.state.needs_baseline(&path));
    let info = w.server.stat(&path).unwrap();
    w.state.overwriting(&path, Some(&info));
    assert_eq!(w.state.observed(&path), Some(Observation::new(7, None)));

    let dirty = p("g");
    w.state.ledger.dirty.insert(dirty.clone());
    assert!(!w.state.needs_baseline(&dirty));
    w.state.overwriting(&dirty, None);
    assert!(!w.state.ledger.observations.contains_key(&dirty));
}

#[test]
fn a_listing_is_taken_in_where_no_local_file_is_another_version() {
    let mut w = World::new();
    w.write("d/f", b"12345");
    w.write("d/h", b"old");
    let info = FileInfo {
        name: "f".to_string(),
        kind: FileType::File,
        size: Some(5),
        mtime: w.meta("d/f").unwrap().mtime,
    };
    let entries = [info, file("g", 3), file("h", 9)];
    let news = w.state.to_compare(&p("d"), &entries);
    let news: Vec<&str> = news.iter().map(|n| n.as_str()).collect();
    assert_eq!(news, ["d/f", "d/g", "d/h"]);
    let metas = w.metas();
    w.state.listed(&p("d"), &entries, &metas);
    assert_eq!(w.known(), ["d/f", "d/g"]);
    assert_eq!(
        w.state.observed(&p("d/g")),
        Some(Observation { size: 3, time: 0 })
    );
    assert_eq!(w.state.to_compare(&p("d"), &entries).len(), 1);
}

#[test]
fn a_file_that_was_only_listed_is_removed_under_its_lease() {
    let mut w = World::new();
    w.server.rm_status = Some(200);
    w.server.heads.insert("d/g".to_string(), (3, None));
    w.server.heads.insert("d/h".to_string(), (4, None));
    let entries = [file("g", 3), file("h", 3)];
    let metas = w.metas();
    w.state.listed(&p("d"), &entries, &metas);
    w.delete("d/g");
    w.delete("d/h");
    w.settle();
    assert_eq!(w.server.rm_hits, ["/d/g"], "h is another version by now");
    assert_eq!(w.conflicts.all().len(), 1);
}

#[test]
fn concurrent_hydrates_download_once() {
    let mut w = World::new();
    w.server.heads.insert("f".to_string(), (5, mtime()));
    assert!(w.hydrate("f", None).unwrap());
    let running = fetch::fetch_start(&w.state.ledger, &PathMap::new(), true, &p("f"), None);
    assert!(matches!(running, Chase::Ready));
    assert!(!w.hydrate("f", None).unwrap(), "it is current");
    assert_eq!(w.downloads(), ["/f"]);
    assert_eq!(w.local["f"].0, b"hello");
}

#[test]
fn reads_are_served_while_the_download_is_in_flight() {
    let mut download = Download::new();
    assert_eq!(download.read(0, 5), Readiness::Wait);
    download.grow(4);
    assert_eq!(download.read(0, 5), Readiness::Wait);
    download.grow(4);
    assert_eq!(download.read(0, 5), Readiness::Ready);
    assert_eq!(download.read(4, 5), Readiness::Wait);
    assert_eq!(download.done(), Readiness::Wait);
    download.end(DownloadStatus::Done);
    assert_eq!(download.read(4, 5), Readiness::Ready);
    assert_eq!(download.done(), Readiness::Ready);
    download.end(DownloadStatus::Failed);
    assert_eq!(download.read(0, 1), Readiness::Failed);
    assert_eq!(download.done(), Readiness::Failed);
}

#[test]
fn a_renamed_file_hydrates_from_its_old_name() {
    let mut w = World::new();
    w.know("a", observed(5));

    w.rename("a", "b");
    assert_eq!(w.state.upstream_of(&p("b")), Some(p("a")));
    assert!(w.hydrate("b", Some(observed(5))).unwrap());
    assert_eq!(w.downloads(), ["/a"]);
    assert_eq!(w.local["b"].0, b"hello");
}

#[test]
fn a_deleted_file_stops_hydrating() {
    let mut w = World::new();
    w.know("f", observed(5));
    w.delete("f");
    assert!(matches!(w.hydrate("f", None), Err(Error::NotFound)));
}

#[test]
fn a_cached_file_opens_when_the_server_is_unreachable() {
    let mut w = World::new();
    w.server.unreachable = true;
    w.write("f", b"cached");
    w.know("f", Observation::new(6, None));

    assert!(!w.hydrate("f", None).unwrap());
    assert_eq!(w.local["f"].0, b"cached");
    assert!(
        matches!(w.hydrate("never-cached", None), Err(Error::Http(_))),
        "a file we never saw still fails honestly"
    );
}

#[test]
fn a_fresh_listing_hint_makes_a_cold_open_one_request() {
    let mut w = World::new();
    let hint = observed(5);

    assert!(w.hydrate("f", Some(hint)).unwrap());
    assert_eq!(w.server.head_hits, ["GET /f"]);
    assert_eq!(w.local["f"].0, b"hello");
    assert_eq!(
        w.state.observed(&p("f")),
        Some(hint),
        "the observation comes from the cat response headers"
    );
    assert!(w.disk.signs.contains_key("f"), "the content is signed");
}

#[test]
fn modified_marks_the_debt_once() {
    let mut w = World::new();
    w.modified("f");
    w.modified("f");
    assert!(w.is_dirty("f"));
    w.store();
    let marks = w.disk.journal.iter().filter(|r| r.op == "w").count();
    assert_eq!(marks, 1);
}

#[test]
fn created_keeps_the_lease() {
    let mut w = World::new();
    w.know("f", Observation::new(1, None));
    w.created("f");
    assert!(w.is_dirty("f"));
    assert!(
        w.state.ledger.observations.contains_key(&p("f")),
        "the observation is the lease the save will carry"
    );
}

#[test]
fn the_vim_dance_is_one_save() {
    let mut w = World::new();
    w.server.saves.insert("a".to_string(), (200, mtime()));
    w.server.mv_status = Some(200);
    w.server.rm_status = Some(200);
    w.know("a", observed(2));
    w.write("a", b"v2");

    w.rename("a", "a~");
    w.created("a");
    w.modified("a");
    w.delete("a~");
    w.settle();

    assert_eq!(w.saved("a"), 1);
    assert_eq!(w.server.mv_hits.len(), 0);
    assert_eq!(w.server.rm_hits.len(), 0);
    assert!(w.state.ledger.dirty.is_empty());
    assert!(w.conflicts.all().is_empty());
}

#[test]
fn the_backup_dance_moves_then_saves() {
    let mut w = World::new();
    w.server.heads.insert("x".to_string(), (5, mtime()));
    w.server.mv_status = Some(200);
    w.server.saves.insert("x".to_string(), (200, mtime()));
    w.know("x", observed(5));
    w.write("x", b"newer");

    w.created("x_tmp");
    w.modified("x_tmp");
    w.rename("x", "x_original");
    w.rename("x_tmp", "x");
    w.settle();

    assert_eq!(w.server.head_hits, ["/x"]);
    assert_eq!(
        w.server.mv_hits,
        [("/x".to_string(), "/x_original".to_string())]
    );
    assert_eq!(w.saved("x"), 1);
    assert_eq!(w.known(), ["x", "x_original"]);
    assert!(w.conflicts.all().is_empty());
}

#[test]
fn a_file_deleted_in_the_window_never_touches_the_server() {
    let mut w = World::new();
    w.server.save_status = Some((200, None));
    w.server.rm_status = Some(200);
    w.write("db-journal", b"tmp");
    w.created("db-journal");
    w.modified("db-journal");
    w.delete("db-journal");

    w.run_for(500);
    assert_eq!(w.server.save_hits.len(), 0);
    assert_eq!(w.server.rm_hits.len(), 0);
    assert!(w.state.ledger.dirty.is_empty());
}

#[test]
fn dir_delete_drains_the_journal_first() {
    let mut w = World::new();
    w.server.saves.insert("d/f".to_string(), (200, None));
    w.write("d/f", b"x");
    w.created("d/f");
    w.modified("d/f");

    assert!(w.flush(60_000));
    let api = client::delete(&p("d"), true).unwrap_err();
    assert_eq!(api, "/d/");
    w.state.ledger.dir_removed(&p("d"), Ok(())).unwrap();
    assert_eq!(w.saved("d/f"), 1);
    assert!(w.state.ledger.observations.is_empty());
    assert!(w.state.ledger.dirty.is_empty());
}

#[test]
fn dir_rename_propagates_and_remaps() {
    let mut w = World::new();
    w.know("a/x", Observation::new(1, None));

    let (from, to) = client::rename(&p("a"), &p("z"), true).unwrap_err();
    assert_eq!((from.as_str(), to.as_str()), ("/a/", "/z/"));
    w.state.ledger.dir_moved(&p("a"), &p("z"), Ok(())).unwrap();
    assert_eq!(w.known(), ["z/x"]);
}

#[test]
fn rename_of_an_unuploaded_file_stays_local() {
    let mut w = World::new();
    w.write("f", b"bytes");
    w.modified("f");
    w.rename("f", "g");
    assert!(w.is_dirty("g"));
    assert!(!w.is_dirty("f"));
}

#[test]
fn an_offline_dir_rename_is_refused_before_touching_anything() {
    let mut w = World::new();
    w.know("a/x", Observation::new(1, None));

    let refused = w.state.ledger.dir_moved(
        &p("a"),
        &p("z"),
        Err(Error::Http("connection refused".to_string())),
    );
    assert!(refused.is_err(), "the plane rename fails loudly");
    assert!(
        w.state.ledger.observations.contains_key(&p("a/x")),
        "nothing was remapped"
    );
    assert!(w.state.outlook().fates.is_empty(), "nothing is pending");
    assert!(w.state.idle(), "nothing was queued to replay later");
}

#[test]
fn a_failed_save_lands_when_the_server_recovers() {
    let mut w = World::new();
    w.server.save_status = Some((500, None));
    w.write("f", b"precious");
    w.created("f");
    w.modified("f");
    w.flush(1200);
    assert!(w.is_dirty("f"), "the debt survives the outage");

    w.server.save_hits.clear();
    w.server.save_status = Some((200, None));
    w.settle();
    assert_eq!(w.server.save_hits.len(), 1);
    assert!(w.state.ledger.dirty.is_empty());
}

#[test]
fn both_versions_survive_a_conflict() {
    let mut w = World::new();
    w.know("note.txt", observed(5));
    w.server.saves.insert("note.txt".to_string(), (412, None));
    w.server
        .saves
        .insert("note (conflicted copy).txt".to_string(), (200, mtime()));
    w.server.heads.insert("note.txt".to_string(), (9, mtime()));
    w.write("note.txt", b"ours!");
    w.modified("note.txt");
    w.settle();

    assert_eq!(
        w.server.save_hits,
        [
            ("/note.txt".to_string(), Some(observed(5).time)),
            ("/note (conflicted copy).txt".to_string(), None),
        ]
    );
    assert_eq!(w.known(), ["note (conflicted copy).txt", "note.txt"]);
    assert_eq!(w.state.observed(&p("note.txt")), Some(observed(9)));
    assert!(w.local.contains_key("note (conflicted copy).txt"));
    let conflicts = w.conflicts.all();
    assert_eq!(conflicts.len(), 1);
    assert_eq!(conflicts[0].expected, Some(observed(5)));
    assert_eq!(conflicts[0].ours, Some(p("note (conflicted copy).txt")));
    assert!(w.state.idle());
}

#[test]
fn a_conflict_is_decided_once() {
    let mut w = World::new();
    let conflict = Conflict {
        seq: 0,
        op: Operation::Write(p("f")),
        expected: Some(observed(1)),
        found: Some(observed(2)),
        ours: Some(p("f (conflicted copy)")),
        at: Moment { secs: 1, nanos: 0 },
    };
    for seq in 1..=3 {
        w.conflicts.add(conflict.clone(), seq);
        w.disk.conflicts.push(seq);
    }

    let both = w
        .state
        .resolve(&mut w.conflicts, 1, Resolution::Both, w.now);
    assert!(matches!(both, Verdict::Settled));
    assert!(w.state.idle());

    let theirs = w
        .state
        .resolve(&mut w.conflicts, 2, Resolution::Theirs, w.now);
    assert!(matches!(theirs, Verdict::Discard(x) if x == p("f (conflicted copy)")));
    assert_eq!(
        w.state.journal.window.last().unwrap().1,
        Operation::Delete(p("f (conflicted copy)"))
    );

    let ours = w
        .state
        .resolve(&mut w.conflicts, 3, Resolution::Ours, w.now);
    assert!(matches!(ours, Verdict::Restore { path, .. } if path == p("f")));
    assert_eq!(w.state.observed(&p("f")), Some(observed(2)));

    let again = w
        .state
        .resolve(&mut w.conflicts, 3, Resolution::Ours, w.now);
    assert!(matches!(again, Verdict::Unknown));
    assert!(w.conflicts.all().is_empty());
    w.store();
    assert!(w.disk.conflicts.is_empty());
}

#[test]
fn a_lost_removal_can_be_repeated() {
    let mut w = World::new();
    let conflict = Conflict {
        seq: 0,
        op: Operation::Delete(p("f")),
        expected: Some(observed(1)),
        found: Some(observed(2)),
        ours: None,
        at: Moment { secs: 1, nanos: 0 },
    };
    w.conflicts.add(conflict, 4);
    let verdict = w
        .state
        .resolve(&mut w.conflicts, 4, Resolution::Ours, w.now);
    assert!(matches!(verdict, Verdict::Settled));
    w.server.heads.insert("f".to_string(), (2, mtime()));
    w.server.rm_status = Some(200);
    w.settle();
    assert_eq!(w.server.rm_hits, ["/f"], "the version that was found");
}

#[test]
fn a_delta_is_sent_where_the_server_takes_it() {
    let mut w = World::new();
    w.server.takes_deltas = true;
    let data: Vec<u8> = (0..100_000u32).map(|i| (i % 251) as u8).collect();
    w.write("f", &data);
    w.know("f", observed(100_000));
    w.state
        .ledger
        .sign_set(&p("f"), fdrive::delta::signature(&data));
    w.store();
    let mut edited = data.clone();
    edited[50_000] ^= 1;
    w.write("f", &edited);
    w.modified("f");
    w.settle();
    assert_eq!(
        w.server.delta_hits,
        [("/f".to_string(), observed(100_000).time)]
    );
    assert!(w.server.save_hits.is_empty());
}

#[test]
fn a_frozen_path_is_left_alone_for_a_while() {
    let mut w = World::new();
    w.server.save_status = Some((200, None));
    client::freeze(&mut w.frozen, &[p("d")]);
    w.write("d/f", b"x");
    w.modified("d/f");
    w.flush(500);
    assert!(w.server.save_hits.is_empty());
    client::thaw(&mut w.frozen, &[p("d")]);
    w.settle();
    assert_eq!(w.saved("d/f"), 1);
}

#[test]
fn a_crash_before_anything_is_folded_loses_no_edit() {
    let mut crashed = World::new();
    crashed.write("f", b"unsent");
    crashed.modified("f");
    crashed.rename("f", "g");
    crashed.store();

    let mut w = World::reopen(crashed.disk, BTreeMap::new());
    assert!(w.is_dirty("f"), "the edit is taken up under its old name");
    w.write("f", b"unsent");
    w.server.save_status = Some((200, None));
    w.settle();
    assert_eq!(w.saved("f"), 1);
}

#[test]
fn a_crash_with_a_pending_save_sends_it_after_the_restart() {
    let mut crashed = World::new();
    crashed.server.unreachable = true;
    crashed.know("f", observed(5));
    crashed.write("f", b"unsent");
    crashed.modified("f");
    crashed.flush(500);
    assert_eq!(crashed.disk.journal.len(), 1);
    assert_eq!(crashed.disk.journal[0].op, "s");

    let mut w = World::reopen(crashed.disk, crashed.local);
    w.server.saves.insert("f".to_string(), (200, mtime()));
    w.settle();
    assert_eq!(
        w.server.save_hits,
        [("/f".to_string(), Some(observed(5).time))]
    );
    assert!(w.disk.journal.is_empty());
}

#[test]
fn an_edit_during_a_replay_waits_for_its_end() {
    let mut w = World::new();
    w.write("f", b"one");
    w.modified("f");
    w.compact(true);
    let turn = w.driver.turn(&mut w.state, w.now);
    assert_eq!(turn.starts.len(), 1);

    w.write("f", b"two");
    w.modified("f");
    w.compact(true);
    assert_eq!(w.state.journal.pending.len(), 1, "the replay is spared");
    assert_eq!(w.state.journal.window.len(), 1, "the edit is held back");

    w.server.save_status = Some((200, mtime()));
    let (seq, plan) = &turn.starts[0];
    let outcome = w.replay(plan);
    assert!(matches!(outcome, Outcome::Saved { .. }));
    w.driver.joined(&mut w.state, *seq, Some(outcome), w.now);
    w.settle();
    assert_eq!(w.saved("f"), 2);
    assert!(w.state.ledger.dirty.is_empty());
}

#[test]
fn an_edit_while_its_save_is_sent_is_saved_again() {
    let mut w = World::new();
    w.write("f", b"one");
    w.modified("f");
    w.compact(true);
    let turn = w.driver.turn(&mut w.state, w.now);
    let seq = turn.starts[0].0;
    let outcome = Outcome::Saved {
        obs: Some(observed(3)),
        sig: None,
        reedited: true,
    };
    w.driver.joined(&mut w.state, seq, Some(outcome), w.now);
    assert!(w.is_dirty("f"), "the newer edit is still owed");
    assert_eq!(w.state.observed(&p("f")), Some(observed(3)));
    w.server.save_status = Some((200, mtime()));
    w.settle();
    assert_eq!(
        w.server.save_hits,
        [("/f".to_string(), Some(observed(3).time))]
    );
}
