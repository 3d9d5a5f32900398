//! How a plan is replayed: what is asked of the server and of the local files,
//! step by step, and what follows from the answers.
use crate::delta::{bytes_view, delta_body, delta_of, is_signature, rsync_signature, signature};
use crate::model::{
    opt_clone, opt_view, paths_view, seen_in, whole_secs, Conflict, Meta, Moment, Observation,
    Operation, Plan,
};
use crate::path::{base_name, child_of, dir_of, within, RelPath};
use crate::play::Outcome;
use crate::sdk::{Error, FileInfo};
use crate::table::PathSet;
use crate::text::{chars_of, decimal, decimal_of, string_of};
use vstd::prelude::*;

verus! {

/// How many names are tried for a conflicted copy.
pub const COPY_TRIES: u64 = 10;

/// Where the extension of a name begins: at its last dot, unless that is its
/// first character; at its end if it has none.
pub open spec fn stem_len(name: Seq<char>) -> int {
    let d = last_dot(name);
    if d <= 0 {
        name.len() as int
    } else {
        d
    }
}

/// Where the last dot of `s` is, or -1.
pub open spec fn last_dot(s: Seq<char>) -> int
    decreases s.len(),
{
    if s.len() == 0 {
        -1
    } else if s.last() == '.' {
        s.len() - 1
    } else {
        last_dot(s.drop_last())
    }
}

/// What is put between the stem and the extension of a conflicted copy.
pub open spec fn copy_mark(n: nat) -> Seq<char> {
    if n == 0 {
        " (conflicted copy)"@
    } else {
        " (conflicted copy "@ + decimal_of(n + 1) + ")"@
    }
}

/// The name of the `n`-th conflicted copy of a file.
pub open spec fn copy_name(name: Seq<char>, n: nat) -> Seq<char> {
    name.take(stem_len(name)) + copy_mark(n) + name.skip(stem_len(name))
}

/// The path of the `n`-th conflicted copy of a file.
pub open spec fn copy_path(path: Seq<char>, n: nat) -> Seq<char> {
    child_of(dir_of(path), copy_name(base_name(path), n))
}

pub proof fn lemma_last_dot(s: Seq<char>)
    ensures
        -1 <= last_dot(s) < s.len(),
    decreases s.len(),
{
    if s.len() > 0 && s.last() != '.' {
        lemma_last_dot(s.drop_last());
    }
}

/// The path of the `n`-th conflicted copy of a file.
pub fn copy_of(path: &RelPath, n: u64) -> (r: RelPath)
    requires
        n < COPY_TRIES,
    ensures
        r@ == copy_path(path@, n as nat),
{
    let name = path.name();
    let cs = chars_of(name);
    let mut k: usize = cs.len();
    proof {
        assert(cs@.take(k as int) =~= name@);
    }
    while k > 0 && cs[k - 1] != '.'
        invariant
            cs@ == name@,
            k <= cs@.len(),
            last_dot(name@) == last_dot(cs@.take(k as int)),
        decreases k,
    {
        proof {
            assert(cs@.take(k as int).drop_last() =~= cs@.take(k - 1));
        }
        k -= 1;
    }
    proof {
        if k > 0 {
            assert(cs@.take(k as int).last() == cs@[k - 1]);
        }
        assert(last_dot(name@) == k - 1);
    }
    let cut: usize = if k <= 1 {
        cs.len()
    } else {
        k - 1
    };
    let stem = string_of(&cs, 0, cut);
    let ext = string_of(&cs, cut, cs.len());
    let mut out = stem;
    if n == 0 {
        out.append(" (conflicted copy)");
    } else {
        out.append(" (conflicted copy ");
        let digits = decimal(n + 1);
        out.append(digits.as_str());
        out.append(")");
    }
    out.append(ext.as_str());
    proof {
        assert(stem@ =~= name@.take(stem_len(name@)));
        assert(ext@ =~= name@.skip(stem_len(name@)));
        assert(out@ =~= copy_name(name@, n as nat));
    }
    path.parent_or_root().join(out.as_str())
}

/// A conflicted copy never has the name of the file itself, so that both
/// versions survive.
pub proof fn law_a_copy_has_another_name(name: Seq<char>, n: nat)
    ensures
        copy_name(name, n) != name,
        copy_name(name, n).len() > name.len(),
{
    reveal_strlit(" (conflicted copy)");
    reveal_strlit(" (conflicted copy ");
    lemma_last_dot(name);
    assert(copy_mark(n).len() > 0);
}

/// The directories above a path, from the top down, without the root.
pub open spec fn ancestors_of(path: Seq<char>) -> Seq<Seq<char>>
    decreases path.len(),
{
    let dir = dir_of(path);
    if dir.len() == 0 || dir.len() >= path.len() {
        Seq::empty()
    } else {
        ancestors_of(dir).push(dir)
    }
}

proof fn lemma_dir_is_shorter(path: Seq<char>)
    ensures
        dir_of(path).len() > 0 ==> dir_of(path).len() < path.len(),
{
    crate::path::lemma_last_slash(path);
}

/// The directories above a path, from the top down, without the root.
pub fn ancestors(path: &RelPath) -> (r: Vec<RelPath>)
    ensures
        paths_view(r@) == ancestors_of(path@),
    decreases path@.len(),
{
    proof {
        lemma_dir_is_shorter(path@);
    }
    let dir = path.parent_or_root();
    if dir.is_root() {
        let out: Vec<RelPath> = Vec::new();
        proof {
            assert(paths_view(out@) =~= Seq::empty());
        }
        return out;
    }
    let mut out = ancestors(&dir);
    let ghost before = paths_view(out@);
    out.push(dir);
    proof {
        assert(paths_view(out@) =~= before.push(dir@));
    }
    out
}

/// A path is frozen: it, or a directory above it, is being renamed or removed.
pub open spec fn is_frozen(frozen: Set<Seq<char>>, p: Seq<char>) -> bool {
    exists|q: Seq<char>| #[trigger] frozen.contains(q) && within(p, q)
}

/// Whether a path, or a directory above it, is in the set.
pub fn is_covered(set: &PathSet, p: &RelPath) -> (r: bool)
    ensures
        r == is_frozen(set@, p@),
{
    let keys = set.keys();
    let ghost kv = paths_view(keys@);
    proof {
        crate::table::lemma_set_finite(*set);
        crate::table::lemma_walk_of_finite(set@);
        assert(kv =~= crate::table::in_order(set@));
    }
    let mut i: usize = 0;
    while i < keys.len()
        invariant
            i <= keys@.len(),
            kv == paths_view(keys@),
            kv.to_set() == set@,
            forall|j: int| #![trigger kv[j]] 0 <= j < i ==> !within(p@, kv[j]),
        decreases keys@.len() - i,
    {
        proof {
            assert(kv[i as int] == keys@[i as int]@);
            assert(kv.to_set().contains(kv[i as int]));
        }
        if p.is_within(&keys[i]) {
            return true;
        }
        i += 1;
    }
    proof {
        if is_frozen(set@, p@) {
            let q = choose|q: Seq<char>| #[trigger] set@.contains(q) && within(p@, q);
            assert(kv.to_set().contains(q));
            let j = choose|j: int| 0 <= j < kv.len() && kv[j] == q;
            assert(!within(p@, kv[j]));
        }
    }
    false
}

/// A plan has to wait for a path that is being renamed or removed.
pub open spec fn is_plan_frozen(frozen: Set<Seq<char>>, plan: Plan<Seq<char>>) -> bool {
    match plan {
        Plan::Save { path, replaces, reuses } => is_frozen(frozen, path),
        Plan::Move { from, to, moves } => is_frozen(frozen, from) || is_frozen(frozen, to),
        Plan::Remove { path, removes } => is_frozen(frozen, path),
    }
}

/// A save that has found its file: what it is for, and how the file was found.
#[derive(Debug)]
pub struct Job<P = RelPath> {
    pub path: P,
    pub replaces: Option<Observation>,
    pub reuses: Option<P>,
    pub found: Meta,
}

impl View for Job {
    type V = Job<Seq<char>>;

    open spec fn view(&self) -> Job<Seq<char>> {
        Job {
            path: self.path@,
            replaces: self.replaces,
            reuses: opt_view(self.reuses),
            found: self.found,
        }
    }
}

/// How far a replay has come.
#[derive(Debug)]
#[allow(inconsistent_fields)]
pub enum Task<P = RelPath, B = Vec<u8>> {
    /// The file that is to be moved is being looked at.
    MoveSeen { from: P, to: P, moves: Observation },
    /// The server is moving the file.
    MoveSent { from: P, to: P, moves: Observation },
    /// The move is lost: it is being seen whether we have the file.
    MoveLost { from: P, to: P, moves: Observation, theirs: Option<Observation> },
    /// The file that is to be removed is being looked at.
    RemoveSeen { path: P, removes: Observation },
    /// The server is removing the file.
    RemoveSent { path: P, removes: Observation },
    /// The local file is being looked at.
    SaveFound { path: P, replaces: Option<Observation>, reuses: Option<P> },
    /// The signature of what the server has is being looked up.
    SaveSigned { job: Job<P> },
    /// The local file is being read to make a delta.
    SaveRead { job: Job<P>, sig: B, time: u64 },
    /// A delta is being sent.
    SaveDelta { job: Job<P> },
    /// The file is being sent.
    SaveSent { job: Job<P> },
    /// The directories above the file are being made.
    SaveDirs { job: Job<P> },
    /// The file is being sent again.
    SaveAgain { job: Job<P> },
    /// The file has been sent, and is being looked at once more.
    SaveDone { job: Job<P>, mtime: Option<Moment> },
    /// The server has another version, which is being looked at.
    CopySeen { job: Job<P> },
    /// A name for the copy is being tried.
    CopyNamed { job: Job<P>, theirs: Option<Observation>, n: u64 },
    /// The copy is being sent.
    CopySent { job: Job<P>, theirs: Option<Observation>, copy: P },
    /// The directories above the copy are being made.
    CopyDirs { job: Job<P>, theirs: Option<Observation>, copy: P },
    /// The copy is being sent again.
    CopyAgain { job: Job<P>, theirs: Option<Observation>, copy: P },
    /// The copy has been sent, and the local file is taking its name.
    CopyDone { job: Job<P>, theirs: Option<Observation>, copy: P, mtime: Option<Moment> },
}

impl View for Task {
    type V = Task<Seq<char>, Seq<u8>>;

    open spec fn view(&self) -> Task<Seq<char>, Seq<u8>> {
        match self {
            Task::MoveSeen { from, to, moves } => Task::MoveSeen {
                from: from@,
                to: to@,
                moves: *moves,
            },
            Task::MoveSent { from, to, moves } => Task::MoveSent {
                from: from@,
                to: to@,
                moves: *moves,
            },
            Task::MoveLost { from, to, moves, theirs } => Task::MoveLost {
                from: from@,
                to: to@,
                moves: *moves,
                theirs: *theirs,
            },
            Task::RemoveSeen { path, removes } => Task::RemoveSeen {
                path: path@,
                removes: *removes,
            },
            Task::RemoveSent { path, removes } => Task::RemoveSent {
                path: path@,
                removes: *removes,
            },
            Task::SaveFound { path, replaces, reuses } => Task::SaveFound {
                path: path@,
                replaces: *replaces,
                reuses: opt_view(*reuses),
            },
            Task::SaveSigned { job } => Task::SaveSigned { job: job@ },
            Task::SaveRead { job, sig, time } => Task::SaveRead {
                job: job@,
                sig: sig@,
                time: *time,
            },
            Task::SaveDelta { job } => Task::SaveDelta { job: job@ },
            Task::SaveSent { job } => Task::SaveSent { job: job@ },
            Task::SaveDirs { job } => Task::SaveDirs { job: job@ },
            Task::SaveAgain { job } => Task::SaveAgain { job: job@ },
            Task::SaveDone { job, mtime } => Task::SaveDone { job: job@, mtime: *mtime },
            Task::CopySeen { job } => Task::CopySeen { job: job@ },
            Task::CopyNamed { job, theirs, n } => Task::CopyNamed {
                job: job@,
                theirs: *theirs,
                n: *n,
            },
            Task::CopySent { job, theirs, copy } => Task::CopySent {
                job: job@,
                theirs: *theirs,
                copy: copy@,
            },
            Task::CopyDirs { job, theirs, copy } => Task::CopyDirs {
                job: job@,
                theirs: *theirs,
                copy: copy@,
            },
            Task::CopyAgain { job, theirs, copy } => Task::CopyAgain {
                job: job@,
                theirs: *theirs,
                copy: copy@,
            },
            Task::CopyDone { job, theirs, copy, mtime } => Task::CopyDone {
                job: job@,
                theirs: *theirs,
                copy: copy@,
                mtime: *mtime,
            },
        }
    }
}

/// What is to be done next.
#[derive(Debug)]
#[allow(inconsistent_fields)]
pub enum Action<P = RelPath, B = Vec<u8>, L = Vec<RelPath>> {
    /// Ask the server what it has at a path.
    Stat(P),
    /// Have the server move a file.
    Mv { from: P, to: P },
    /// Have the server remove a file.
    Rm(P),
    /// See whether there is a local file.
    IsFile(P),
    /// Look at a local file.
    Look(P),
    /// Look up the signature that is kept of a file, and the time of the version
    /// that the server has of it.
    Signature(P),
    /// Read a local file, if the server takes deltas.
    ReadForDelta(P),
    /// Send a delta, if the server still has the version of `since`.
    SendDelta { target: P, body: B, since: u64, base: Option<P> },
    /// Send the local file at `source`, if the server still has the version of
    /// `since`.
    Send { source: P, target: P, since: Option<u64> },
    /// Have the server make directories, and go on whatever comes of it.
    Mkdirs(L),
    /// See that nothing has a name, here or on the server.
    IsVacant(P),
    /// Look at a file that has been sent once more, read it, and tell the platform
    /// that it is as it is on the server.
    Review(P),
    /// Give the local file another name, read it there, and tell the platform that
    /// it is as it is on the server.
    Rename { from: P, to: P },
}

impl View for Action {
    type V = Action<Seq<char>, Seq<u8>, Seq<Seq<char>>>;

    open spec fn view(&self) -> Action<Seq<char>, Seq<u8>, Seq<Seq<char>>> {
        match self {
            Action::Stat(p) => Action::Stat(p@),
            Action::Mv { from, to } => Action::Mv { from: from@, to: to@ },
            Action::Rm(p) => Action::Rm(p@),
            Action::IsFile(p) => Action::IsFile(p@),
            Action::Look(p) => Action::Look(p@),
            Action::Signature(p) => Action::Signature(p@),
            Action::ReadForDelta(p) => Action::ReadForDelta(p@),
            Action::SendDelta { target, body, since, base } => Action::SendDelta {
                target: target@,
                body: body@,
                since: *since,
                base: opt_view(*base),
            },
            Action::Send { source, target, since } => Action::Send {
                source: source@,
                target: target@,
                since: *since,
            },
            Action::Mkdirs(l) => Action::Mkdirs(paths_view(l@)),
            Action::IsVacant(p) => Action::IsVacant(p@),
            Action::Review(p) => Action::Review(p@),
            Action::Rename { from, to } => Action::Rename { from: from@, to: to@ },
        }
    }
}

/// How a local file was found.
#[derive(Clone, Copy, Debug, PartialEq, Eq, Structural)]
pub enum Look {
    File(Meta),
    NotAFile,
    Missing,
    Unreadable,
}

/// What came of sending a file: the time that the server gave the new version,
/// an error of the server, or a file that cannot be read.
#[derive(Debug)]
pub enum Sent {
    Done(Option<Moment>),
    Refused(Error),
    Unreadable,
}

/// What came of an action.
#[derive(Debug)]
#[allow(inconsistent_fields)]
pub enum Event {
    Stat(Result<FileInfo, Error>),
    Reply(Result<(), Error>),
    IsFile(bool),
    Looked(Look),
    Signature { sig: Option<Vec<u8>>, base_time: Option<u64> },
    Data(Option<Vec<u8>>),
    Sent(Sent),
    Dirs,
    IsVacant(bool),
    Reviewed { data: Option<Vec<u8>>, after: Option<Moment> },
}

/// What follows: another action, or the end.
#[derive(Debug)]
pub enum Step {
    Do(Task, Action),
    Done(Outcome),
}

/// The same by the characters of the paths.
pub enum StepView {
    Do(Task<Seq<char>, Seq<u8>>, Action<Seq<char>, Seq<u8>, Seq<Seq<char>>>),
    Done(Outcome<Seq<char>, Seq<u8>>),
}

impl View for Step {
    type V = StepView;

    open spec fn view(&self) -> StepView {
        match self {
            Step::Do(t, a) => StepView::Do(t@, a@),
            Step::Done(o) => StepView::Done(o@),
        }
    }
}

/// The event can come of the action that the task waits for.
pub open spec fn fits(task: Task<Seq<char>, Seq<u8>>, event: Event) -> bool {
    match task {
        Task::MoveSeen { .. } => event is Stat,
        Task::MoveSent { .. } => event is Reply,
        Task::MoveLost { .. } => event is IsFile,
        Task::RemoveSeen { .. } => event is Stat,
        Task::RemoveSent { .. } => event is Reply,
        Task::SaveFound { .. } => event is Looked,
        Task::SaveSigned { .. } => event matches Event::Signature { sig, base_time } && (sig matches Some(
            b,
        ) ==> is_signature(b@)),
        Task::SaveRead { sig, .. } => event is Data && is_signature(sig),
        Task::SaveDelta { .. } => event is Sent,
        Task::SaveSent { .. } => event is Sent,
        Task::SaveDirs { .. } => event is Dirs,
        Task::SaveAgain { .. } => event is Sent,
        Task::SaveDone { .. } => event is Reviewed,
        Task::CopySeen { .. } => event is Stat,
        Task::CopyNamed { n, .. } => event is IsVacant && n < COPY_TRIES,
        Task::CopySent { .. } => event is Sent,
        Task::CopyDirs { .. } => event is Dirs,
        Task::CopyAgain { .. } => event is Sent,
        Task::CopyDone { .. } => event is Reviewed,
    }
}

/// The first step of a replay.
pub open spec fn first_step(frozen: Set<Seq<char>>, plan: Plan<Seq<char>>) -> StepView {
    if is_plan_frozen(frozen, plan) {
        StepView::Done(Outcome::Busy)
    } else {
        match plan {
            Plan::Save { path, replaces, reuses } => StepView::Do(
                Task::SaveFound { path, replaces, reuses },
                Action::Look(path),
            ),
            Plan::Move { from, to, moves } => StepView::Do(
                Task::MoveSeen { from, to, moves },
                Action::Stat(from),
            ),
            Plan::Remove { path, removes } => StepView::Do(
                Task::RemoveSeen { path, removes },
                Action::Stat(path),
            ),
        }
    }
}

/// The time of the version that a save may replace: that of the lease, or the
/// epoch for a file that must not be there.
pub open spec fn lease_time(replaces: Option<Observation>) -> u64 {
    match replaces {
        Some(o) => o.time,
        None => 0,
    }
}

/// The whole file is sent, if the server still has the version of the lease.
pub open spec fn send_whole(job: Job<Seq<char>>) -> StepView {
    StepView::Do(
        Task::SaveSent { job },
        Action::Send {
            source: job.path,
            target: job.path,
            since: Some(lease_time(job.replaces)),
        },
    )
}

/// The file that a delta is made against: the base of the save, or the file
/// itself.
pub open spec fn delta_source(job: Job<Seq<char>>) -> Seq<char> {
    match job.reuses {
        Some(x) => x,
        None => job.path,
    }
}

/// The time of the version that a delta is made against.
pub open spec fn delta_time(job: Job<Seq<char>>, base_time: Option<u64>) -> Option<u64> {
    match job.reuses {
        Some(x) => base_time,
        None => match job.replaces {
            Some(o) => Some(o.time),
            None => None,
        },
    }
}

/// The file has been sent.
pub open spec fn review(job: Job<Seq<char>>, mtime: Option<Moment>) -> StepView {
    StepView::Do(Task::SaveDone { job, mtime }, Action::Review(job.path))
}

/// The server has another version: ours becomes a copy.
pub open spec fn divert(job: Job<Seq<char>>) -> StepView {
    StepView::Do(Task::CopySeen { job }, Action::Stat(job.path))
}

/// The copy is sent under its name.
pub open spec fn send_copy(
    job: Job<Seq<char>>,
    theirs: Option<Observation>,
    copy: Seq<char>,
) -> StepView {
    StepView::Do(
        Task::CopySent { job, theirs, copy },
        Action::Send { source: job.path, target: copy, since: None },
    )
}

/// The version that was sent, as the server shows it from now on.
pub open spec fn sent_version(job: Job<Seq<char>>, mtime: Option<Moment>) -> Option<Observation> {
    match mtime {
        Some(m) => Some(Observation { size: job.found.size, time: whole_secs(Some(m)) }),
        None => None,
    }
}

/// The signature of what was read.
pub open spec fn signed(data: Option<Vec<u8>>) -> Option<Seq<u8>> {
    match data {
        Some(d) => Some(
            rsync_signature(d@, crate::delta::BLOCK_SIZE, crate::delta::HASH_SIZE),
        ),
        None => None,
    }
}

/// What a lost move comes to: if we have the file, it is saved under its new
/// name; it is a conflict if the server has another version, or if nobody has
/// the file.
pub open spec fn lost_move(
    from: Seq<char>,
    to: Seq<char>,
    moves: Observation,
    theirs: Option<Observation>,
    ours: bool,
    now: Moment,
) -> Outcome<Seq<char>, Seq<u8>> {
    Outcome::MoveLost {
        theirs,
        resurrect: if ours {
            Some(to)
        } else {
            None
        },
        conflict: if theirs is Some || !ours {
            Some(
                Conflict {
                    seq: 0,
                    op: Operation::Rename(from, to),
                    expected: if theirs is Some {
                        Some(moves)
                    } else {
                        None
                    },
                    found: theirs,
                    ours: None,
                    at: now,
                },
            )
        } else {
            None
        },
    }
}

/// The step that follows an event.
pub open spec fn next_step(task: Task<Seq<char>, Seq<u8>>, event: Event, now: Moment) -> StepView {
    match task {
        Task::MoveSeen { from, to, moves } => match event->Stat_0 {
            Ok(info) => if seen_in(info) == moves {
                StepView::Do(Task::MoveSent { from, to, moves }, Action::Mv { from, to })
            } else {
                StepView::Do(
                    Task::MoveLost { from, to, moves, theirs: Some(seen_in(info)) },
                    Action::IsFile(to),
                )
            },
            Err(Error::NotFound) => StepView::Do(
                Task::MoveLost { from, to, moves, theirs: None },
                Action::IsFile(to),
            ),
            Err(_) => StepView::Done(Outcome::Failed),
        },
        Task::MoveSent { from, to, moves } => match event->Reply_0 {
            Ok(()) => StepView::Done(Outcome::Moved),
            Err(Error::NotFound) => StepView::Do(
                Task::MoveLost { from, to, moves, theirs: None },
                Action::IsFile(to),
            ),
            Err(_) => StepView::Done(Outcome::Failed),
        },
        Task::MoveLost { from, to, moves, theirs } => StepView::Done(
            lost_move(from, to, moves, theirs, event->IsFile_0, now),
        ),
        Task::RemoveSeen { path, removes } => match event->Stat_0 {
            Err(Error::NotFound) => StepView::Done(Outcome::Removed),
            Ok(info) => if seen_in(info) == removes {
                StepView::Do(Task::RemoveSent { path, removes }, Action::Rm(path))
            } else {
                StepView::Done(
                    Outcome::RemoveLost {
                        theirs: seen_in(info),
                        conflict: Conflict {
                            seq: 0,
                            op: Operation::Delete(path),
                            expected: Some(removes),
                            found: Some(seen_in(info)),
                            ours: None,
                            at: now,
                        },
                    },
                )
            },
            Err(_) => StepView::Done(Outcome::Failed),
        },
        Task::RemoveSent { path, removes } => match event->Reply_0 {
            Ok(()) => StepView::Done(Outcome::Removed),
            Err(Error::NotFound) => StepView::Done(Outcome::Removed),
            Err(_) => StepView::Done(Outcome::Failed),
        },
        Task::SaveFound { path, replaces, reuses } => match event->Looked_0 {
            Look::File(found) => {
                let job = Job { path, replaces, reuses, found };
                StepView::Do(Task::SaveSigned { job }, Action::Signature(delta_source(job)))
            },
            Look::NotAFile => StepView::Done(
                Outcome::Saved { obs: None, sig: None, reedited: false },
            ),
            Look::Missing => StepView::Done(
                Outcome::Saved { obs: None, sig: None, reedited: false },
            ),
            Look::Unreadable => StepView::Done(Outcome::Failed),
        },
        Task::SaveSigned { job } => match (event->sig, delta_time(job, event->base_time)) {
            (Some(sig), Some(time)) => StepView::Do(
                Task::SaveRead { job, sig: sig@, time },
                Action::ReadForDelta(job.path),
            ),
            _ => send_whole(job),
        },
        Task::SaveRead { job, sig, time } => match event->Data_0 {
            Some(data) => match delta_of(sig, data@) {
                Some(body) => StepView::Do(
                    Task::SaveDelta { job },
                    Action::SendDelta { target: job.path, body, since: time, base: job.reuses },
                ),
                None => send_whole(job),
            },
            None => send_whole(job),
        },
        Task::SaveDelta { job } => match event->Sent_0 {
            Sent::Done(mtime) => review(job, mtime),
            Sent::Refused(Error::PreconditionFailed) => divert(job),
            _ => send_whole(job),
        },
        Task::SaveSent { job } => match event->Sent_0 {
            Sent::Done(mtime) => review(job, mtime),
            Sent::Refused(Error::PreconditionFailed) => divert(job),
            Sent::Refused(Error::NotFound) => StepView::Do(
                Task::SaveDirs { job },
                Action::Mkdirs(ancestors_of(job.path)),
            ),
            Sent::Refused(Error::PermissionDenied) => StepView::Do(
                Task::SaveDirs { job },
                Action::Mkdirs(ancestors_of(job.path)),
            ),
            _ => StepView::Done(Outcome::Failed),
        },
        Task::SaveDirs { job } => StepView::Do(
            Task::SaveAgain { job },
            Action::Send {
                source: job.path,
                target: job.path,
                since: Some(lease_time(job.replaces)),
            },
        ),
        Task::SaveAgain { job } => match event->Sent_0 {
            Sent::Done(mtime) => review(job, mtime),
            Sent::Refused(Error::PreconditionFailed) => divert(job),
            _ => StepView::Done(Outcome::Failed),
        },
        Task::SaveDone { job, mtime } => StepView::Done(
            Outcome::Saved {
                obs: sent_version(job, mtime),
                sig: signed(event->data),
                reedited: event->after != job.found.mtime,
            },
        ),
        Task::CopySeen { job } => StepView::Do(
            Task::CopyNamed {
                job,
                theirs: match event->Stat_0 {
                    Ok(info) => Some(seen_in(info)),
                    Err(_) => None,
                },
                n: 0,
            },
            Action::IsVacant(copy_path(job.path, 0)),
        ),
        Task::CopyNamed { job, theirs, n } => if event->IsVacant_0 {
            send_copy(job, theirs, copy_path(job.path, n as nat))
        } else if n + 1 < COPY_TRIES {
            StepView::Do(
                Task::CopyNamed { job, theirs, n: (n + 1) as u64 },
                Action::IsVacant(copy_path(job.path, (n + 1) as nat)),
            )
        } else {
            StepView::Done(Outcome::Failed)
        },
        Task::CopySent { job, theirs, copy } => match event->Sent_0 {
            Sent::Done(mtime) => StepView::Do(
                Task::CopyDone { job, theirs, copy, mtime },
                Action::Rename { from: job.path, to: copy },
            ),
            Sent::Refused(Error::NotFound) => StepView::Do(
                Task::CopyDirs { job, theirs, copy },
                Action::Mkdirs(ancestors_of(copy)),
            ),
            Sent::Refused(Error::PermissionDenied) => StepView::Do(
                Task::CopyDirs { job, theirs, copy },
                Action::Mkdirs(ancestors_of(copy)),
            ),
            _ => StepView::Done(Outcome::Failed),
        },
        Task::CopyDirs { job, theirs, copy } => StepView::Do(
            Task::CopyAgain { job, theirs, copy },
            Action::Send { source: job.path, target: copy, since: None },
        ),
        Task::CopyAgain { job, theirs, copy } => match event->Sent_0 {
            Sent::Done(mtime) => StepView::Do(
                Task::CopyDone { job, theirs, copy, mtime },
                Action::Rename { from: job.path, to: copy },
            ),
            _ => StepView::Done(Outcome::Failed),
        },
        Task::CopyDone { job, theirs, copy, mtime } => StepView::Done(
            Outcome::Diverted {
                theirs,
                copy,
                obs: sent_version(job, mtime),
                sig: signed(event->data),
                reedited: event->after != job.found.mtime,
                conflict: Conflict {
                    seq: 0,
                    op: Operation::Write(job.path),
                    expected: job.replaces,
                    found: theirs,
                    ours: Some(copy),
                    at: now,
                },
            },
        ),
    }
}

/// Begins to replay a plan, unless it has to wait for a frozen path.
pub fn begin(frozen: &PathSet, plan: &Plan) -> (r: Step)
    ensures
        r@ == first_step(frozen@, plan@),
{
    match plan {
        Plan::Save { path, replaces, reuses } => {
            if is_covered(frozen, path) {
                return Step::Done(Outcome::Busy);
            }
            Step::Do(
                Task::SaveFound {
                    path: path.clone(),
                    replaces: *replaces,
                    reuses: opt_clone(reuses),
                },
                Action::Look(path.clone()),
            )
        },
        Plan::Move { from, to, moves } => {
            if is_covered(frozen, from) || is_covered(frozen, to) {
                return Step::Done(Outcome::Busy);
            }
            Step::Do(
                Task::MoveSeen { from: from.clone(), to: to.clone(), moves: *moves },
                Action::Stat(from.clone()),
            )
        },
        Plan::Remove { path, removes } => {
            if is_covered(frozen, path) {
                return Step::Done(Outcome::Busy);
            }
            Step::Do(
                Task::RemoveSeen { path: path.clone(), removes: *removes },
                Action::Stat(path.clone()),
            )
        },
    }
}

fn whole(job: Job) -> (r: Step)
    ensures
        r@ == send_whole(job@),
{
    let since: u64 = match job.replaces {
        Some(o) => o.time,
        None => 0,
    };
    let source = job.path.clone();
    let target = job.path.clone();
    Step::Do(Task::SaveSent { job }, Action::Send { source, target, since: Some(since) })
}

fn reviewing(job: Job, mtime: Option<Moment>) -> (r: Step)
    ensures
        r@ == review(job@, mtime),
{
    let path = job.path.clone();
    Step::Do(Task::SaveDone { job, mtime }, Action::Review(path))
}

fn diverting(job: Job) -> (r: Step)
    ensures
        r@ == divert(job@),
{
    let path = job.path.clone();
    Step::Do(Task::CopySeen { job }, Action::Stat(path))
}

fn copying(job: Job, theirs: Option<Observation>, copy: RelPath) -> (r: Step)
    ensures
        r@ == send_copy(job@, theirs, copy@),
{
    let source = job.path.clone();
    let target = copy.clone();
    Step::Do(Task::CopySent { job, theirs, copy }, Action::Send { source, target, since: None })
}

fn version(job: &Job, mtime: Option<Moment>) -> (r: Option<Observation>)
    ensures
        r == sent_version(job@, mtime),
{
    match mtime {
        Some(m) => Some(Observation::new(job.found.size, Some(m))),
        None => None,
    }
}

fn sign(data: Option<Vec<u8>>) -> (r: Option<Vec<u8>>)
    ensures
        bytes_view(r) == signed(data),
{
    match data {
        Some(d) => Some(signature(d.as_slice())),
        None => None,
    }
}

fn lost(
    from: RelPath,
    to: RelPath,
    moves: Observation,
    theirs: Option<Observation>,
    ours: bool,
    now: Moment,
) -> (r: Outcome)
    ensures
        r@ == lost_move(from@, to@, moves, theirs, ours, now),
{
    let resurrect = if ours {
        Some(to.clone())
    } else {
        None
    };
    let conflict = if theirs.is_some() || !ours {
        let expected = if theirs.is_some() {
            Some(moves)
        } else {
            None
        };
        Some(Conflict::new(Operation::Rename(from, to), expected, theirs, None, now))
    } else {
        None
    };
    Outcome::MoveLost { theirs, resurrect, conflict }
}

/// Goes on with a replay after an event.
pub fn step(task: Task, event: Event, now: Moment) -> (r: Step)
    requires
        fits(task@, event),
    ensures
        r@ == next_step(task@, event, now),
{
    match task {
        Task::MoveSeen { from, to, moves } => match event {
            Event::Stat(Ok(info)) => {
                let theirs = Observation::of(&info);
                if theirs == moves {
                    let a = from.clone();
                    let b = to.clone();
                    Step::Do(Task::MoveSent { from, to, moves }, Action::Mv { from: a, to: b })
                } else {
                    let b = to.clone();
                    Step::Do(
                        Task::MoveLost { from, to, moves, theirs: Some(theirs) },
                        Action::IsFile(b),
                    )
                }
            },
            Event::Stat(Err(Error::NotFound)) => {
                let b = to.clone();
                Step::Do(Task::MoveLost { from, to, moves, theirs: None }, Action::IsFile(b))
            },
            _ => Step::Done(Outcome::Failed),
        },
        Task::MoveSent { from, to, moves } => match event {
            Event::Reply(Ok(())) => Step::Done(Outcome::Moved),
            Event::Reply(Err(Error::NotFound)) => {
                let b = to.clone();
                Step::Do(Task::MoveLost { from, to, moves, theirs: None }, Action::IsFile(b))
            },
            _ => Step::Done(Outcome::Failed),
        },
        Task::MoveLost { from, to, moves, theirs } => {
            let ours = match event {
                Event::IsFile(b) => b,
                _ => false,
            };
            Step::Done(lost(from, to, moves, theirs, ours, now))
        },
        Task::RemoveSeen { path, removes } => match event {
            Event::Stat(Err(Error::NotFound)) => Step::Done(Outcome::Removed),
            Event::Stat(Ok(info)) => {
                let theirs = Observation::of(&info);
                if theirs == removes {
                    let p = path.clone();
                    Step::Do(Task::RemoveSent { path, removes }, Action::Rm(p))
                } else {
                    let conflict = Conflict::new(
                        Operation::Delete(path),
                        Some(removes),
                        Some(theirs),
                        None,
                        now,
                    );
                    Step::Done(Outcome::RemoveLost { theirs, conflict })
                }
            },
            _ => Step::Done(Outcome::Failed),
        },
        Task::RemoveSent { .. } => match event {
            Event::Reply(Ok(())) => Step::Done(Outcome::Removed),
            Event::Reply(Err(Error::NotFound)) => Step::Done(Outcome::Removed),
            _ => Step::Done(Outcome::Failed),
        },
        Task::SaveFound { path, replaces, reuses } => match event {
            Event::Looked(Look::File(found)) => {
                let source = match &reuses {
                    Some(x) => x.clone(),
                    None => path.clone(),
                };
                let job = Job { path, replaces, reuses, found };
                Step::Do(Task::SaveSigned { job }, Action::Signature(source))
            },
            Event::Looked(Look::Unreadable) => Step::Done(Outcome::Failed),
            _ => Step::Done(Outcome::Saved { obs: None, sig: None, reedited: false }),
        },
        Task::SaveSigned { job } => match event {
            Event::Signature { sig: Some(sig), base_time } => {
                let time: Option<u64> = match &job.reuses {
                    Some(_) => base_time,
                    None => match job.replaces {
                        Some(o) => Some(o.time),
                        None => None,
                    },
                };
                match time {
                    Some(time) => {
                        let p = job.path.clone();
                        Step::Do(Task::SaveRead { job, sig, time }, Action::ReadForDelta(p))
                    },
                    None => whole(job),
                }
            },
            _ => whole(job),
        },
        Task::SaveRead { job, sig, time } => match event {
            Event::Data(Some(data)) => match delta_body(sig, &data) {
                Some(body) => {
                    let target = job.path.clone();
                    let base = opt_clone(&job.reuses);
                    Step::Do(
                        Task::SaveDelta { job },
                        Action::SendDelta { target, body, since: time, base },
                    )
                },
                None => whole(job),
            },
            _ => whole(job),
        },
        Task::SaveDelta { job } => match event {
            Event::Sent(Sent::Done(mtime)) => reviewing(job, mtime),
            Event::Sent(Sent::Refused(Error::PreconditionFailed)) => diverting(job),
            _ => whole(job),
        },
        Task::SaveSent { job } => match event {
            Event::Sent(Sent::Done(mtime)) => reviewing(job, mtime),
            Event::Sent(Sent::Refused(Error::PreconditionFailed)) => diverting(job),
            Event::Sent(Sent::Refused(Error::NotFound)) => {
                let dirs = ancestors(&job.path);
                Step::Do(Task::SaveDirs { job }, Action::Mkdirs(dirs))
            },
            Event::Sent(Sent::Refused(Error::PermissionDenied)) => {
                let dirs = ancestors(&job.path);
                Step::Do(Task::SaveDirs { job }, Action::Mkdirs(dirs))
            },
            _ => Step::Done(Outcome::Failed),
        },
        Task::SaveDirs { job } => {
            let since: u64 = match job.replaces {
                Some(o) => o.time,
                None => 0,
            };
            let source = job.path.clone();
            let target = job.path.clone();
            Step::Do(Task::SaveAgain { job }, Action::Send { source, target, since: Some(since) })
        },
        Task::SaveAgain { job } => match event {
            Event::Sent(Sent::Done(mtime)) => reviewing(job, mtime),
            Event::Sent(Sent::Refused(Error::PreconditionFailed)) => diverting(job),
            _ => Step::Done(Outcome::Failed),
        },
        Task::SaveDone { job, mtime } => match event {
            Event::Reviewed { data, after } => Step::Done(
                Outcome::Saved {
                    obs: version(&job, mtime),
                    sig: sign(data),
                    reedited: after != job.found.mtime,
                },
            ),
            _ => Step::Done(Outcome::Failed),
        },
        Task::CopySeen { job } => {
            let theirs = match event {
                Event::Stat(Ok(info)) => Some(Observation::of(&info)),
                _ => None,
            };
            let first = copy_of(&job.path, 0);
            Step::Do(Task::CopyNamed { job, theirs, n: 0 }, Action::IsVacant(first))
        },
        Task::CopyNamed { job, theirs, n } => {
            let vacant = match event {
                Event::IsVacant(b) => b,
                _ => false,
            };
            if vacant {
                let copy = copy_of(&job.path, n);
                copying(job, theirs, copy)
            } else if n + 1 < COPY_TRIES {
                let other = copy_of(&job.path, n + 1);
                Step::Do(Task::CopyNamed { job, theirs, n: n + 1 }, Action::IsVacant(other))
            } else {
                Step::Done(Outcome::Failed)
            }
        },
        Task::CopySent { job, theirs, copy } => match event {
            Event::Sent(Sent::Done(mtime)) => {
                let from = job.path.clone();
                let to = copy.clone();
                Step::Do(Task::CopyDone { job, theirs, copy, mtime }, Action::Rename { from, to })
            },
            Event::Sent(Sent::Refused(Error::NotFound)) => {
                let dirs = ancestors(&copy);
                Step::Do(Task::CopyDirs { job, theirs, copy }, Action::Mkdirs(dirs))
            },
            Event::Sent(Sent::Refused(Error::PermissionDenied)) => {
                let dirs = ancestors(&copy);
                Step::Do(Task::CopyDirs { job, theirs, copy }, Action::Mkdirs(dirs))
            },
            _ => Step::Done(Outcome::Failed),
        },
        Task::CopyDirs { job, theirs, copy } => {
            let source = job.path.clone();
            let target = copy.clone();
            Step::Do(
                Task::CopyAgain { job, theirs, copy },
                Action::Send { source, target, since: None },
            )
        },
        Task::CopyAgain { job, theirs, copy } => match event {
            Event::Sent(Sent::Done(mtime)) => {
                let from = job.path.clone();
                let to = copy.clone();
                Step::Do(Task::CopyDone { job, theirs, copy, mtime }, Action::Rename { from, to })
            },
            _ => Step::Done(Outcome::Failed),
        },
        Task::CopyDone { job, theirs, copy, mtime } => {
            let obs = version(&job, mtime);
            let (sig, reedited) = match event {
                Event::Reviewed { data, after } => (sign(data), after != job.found.mtime),
                _ => (None, false),
            };
            let ours = copy.clone();
            let conflict = Conflict::new(
                Operation::Write(job.path),
                job.replaces,
                theirs,
                Some(ours),
                now,
            );
            Step::Done(Outcome::Diverted { theirs, copy, obs, sig, reedited, conflict })
        },
    }
}

} // verus!
