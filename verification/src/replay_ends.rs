//! What it takes for a replay to end the way it does, and what it takes for the
//! server to be asked for a change.
use crate::delta::delta_of;
use crate::model::{seen_in, Moment, Observation, Operation, Plan};
use crate::path::{base_name, below, dir_of, within};
use crate::play::Outcome;
use crate::replay::{
    ancestors_of, copy_name, copy_path, first_step, fits, next_step, stem_len, Action,
    Event, Job, Look, Sent, StepView, Task, COPY_TRIES,
};
use crate::sdk::Error;
use crate::text::decimal_of;
use vstd::prelude::*;

verus! {

/// The outcome of a replay that is over.
pub open spec fn ended(s: StepView) -> Option<Outcome<Seq<char>, Seq<u8>>> {
    match s {
        StepView::Done(o) => Some(o),
        StepView::Do(_, _) => None,
    }
}

/// What a replay asks for that is not over.
pub open spec fn asked(s: StepView) -> Option<Action<Seq<char>, Seq<u8>, Seq<Seq<char>>>> {
    match s {
        StepView::Do(_, a) => Some(a),
        StepView::Done(_) => None,
    }
}

/// The server has answered a question with an error other than that there is no
/// such file.
pub open spec fn is_trouble<T>(r: Result<T, Error>) -> bool {
    r matches Err(e) && e !is NotFound
}

/// A replay ends with `Moved` exactly if the server was asked to move the file and
/// has said that it did.
pub proof fn law_moved_means_the_server_moved_it(
    task: Task<Seq<char>, Seq<u8>>,
    event: Event,
    now: Moment,
)
    requires
        fits(task, event),
    ensures
        (ended(next_step(task, event, now)) matches Some(o) && o is Moved) <==> (task is MoveSent
            && (event matches Event::Reply(r) && r is Ok)),
{
}

/// A replay ends with `Removed` exactly if the server has said that it removed the
/// file, or that it does not have it.
pub proof fn law_removed_means_the_server_has_it_no_more(
    task: Task<Seq<char>, Seq<u8>>,
    event: Event,
    now: Moment,
)
    requires
        fits(task, event),
    ensures
        (ended(next_step(task, event, now)) matches Some(o) && o is Removed) <==> {
            ||| task is RemoveSent && (event matches Event::Reply(r) && (r is Ok || r == Err::<
                (),
                Error,
            >(Error::NotFound)))
            ||| task is RemoveSeen && event == Event::Stat(Err(Error::NotFound))
        },
{
}

/// Whatever goes wrong while a file is moved or removed, other than that the
/// server does not have it, is a failure: the plan stays owed. There is no other
/// failure there.
pub proof fn law_trouble_keeps_a_move_or_removal_owed(
    task: Task<Seq<char>, Seq<u8>>,
    event: Event,
    now: Moment,
)
    requires
        fits(task, event),
        task is MoveSeen || task is MoveSent || task is MoveLost || task is RemoveSeen
            || task is RemoveSent,
    ensures
        (ended(next_step(task, event, now)) matches Some(o) && o is Failed) <==> {
            ||| event matches Event::Stat(r) && is_trouble(r)
            ||| event matches Event::Reply(r) && is_trouble(r)
        },
{
}

/// A move is lost exactly if the server does not have the file any more or has
/// another version of it, and then it is seen whether the file is here. It ends
/// with what the server has; with a file that is here being sent again under its
/// new name; and with a conflict unless the file is here and the server has none.
pub proof fn law_a_lost_move_is_told(
    from: Seq<char>,
    to: Seq<char>,
    moves: Observation,
    event: Event,
    now: Moment,
)
    ensures
        event matches Event::Stat(r) ==> {
            let lost = asked(next_step(Task::MoveSeen { from, to, moves }, event, now))
                == Some(Action::<Seq<char>, Seq<u8>, Seq<Seq<char>>>::IsFile(to));
            lost <==> (r is Ok && seen_in(r->Ok_0) != moves) || r == Err::<
                crate::sdk::FileInfo,
                Error,
            >(Error::NotFound)
        },
        event matches Event::Reply(r) ==> {
            let lost = asked(next_step(Task::MoveSent { from, to, moves }, event, now))
                == Some(Action::<Seq<char>, Seq<u8>, Seq<Seq<char>>>::IsFile(to));
            lost <==> r == Err::<(), Error>(Error::NotFound)
        },
        forall|theirs: Option<Observation>, ours: bool|
            (#[trigger] ended(
                next_step(
                    Task::MoveLost { from, to, moves, theirs },
                    Event::IsFile(ours),
                    now,
                ),
            )) matches Some(Outcome::MoveLost { theirs: t, resurrect, conflict }) && {
                &&& t == theirs
                &&& resurrect == if ours {
                    Some(to)
                } else {
                    None
                }
                &&& conflict is None <==> ours && theirs is None
                &&& conflict matches Some(c) ==> {
                    &&& c.op == Operation::Rename(from, to)
                    &&& c.found == theirs
                    &&& c.expected is Some <==> theirs is Some
                    &&& c.expected matches Some(o) ==> o == moves
                    &&& c.ours is None
                    &&& c.at == now
                }
            },
{
}

/// What the server is seen to have, once a move is lost: its version if it has
/// one, nothing if it has none.
pub proof fn law_a_lost_move_knows_what_the_server_has(
    task: Task<Seq<char>, Seq<u8>>,
    event: Event,
    now: Moment,
)
    requires
        fits(task, event),
    ensures
        next_step(task, event, now) matches StepView::Do(t, a) && (t matches Task::MoveLost {
            from,
            to,
            moves,
            theirs,
        } ==> {
            &&& theirs == (match event {
                Event::Stat(Ok(info)) => Some(seen_in(info)),
                _ => None,
            })
            &&& task matches Task::MoveSeen { from: f, to: g, moves: m } ==> f == from && g == to
                && m == moves
            &&& task matches Task::MoveSent { from: f, to: g, moves: m } ==> f == from && g == to
                && m == moves
        }) || next_step(task, event, now) is Done,
{
}

/// A removal is lost exactly if the server has another version than the one that
/// was to be removed; what it has is told, and a conflict is met.
pub proof fn law_a_lost_removal_is_told(
    task: Task<Seq<char>, Seq<u8>>,
    event: Event,
    now: Moment,
)
    requires
        fits(task, event),
    ensures
        (ended(next_step(task, event, now)) matches Some(o) && o is RemoveLost) <==> (
        task matches Task::RemoveSeen { path, removes } && event matches Event::Stat(Ok(info))
            && seen_in(info) != removes),
        ended(next_step(task, event, now)) matches Some(Outcome::RemoveLost { theirs, conflict })
            ==> (task matches Task::RemoveSeen { path, removes } && event matches Event::Stat(
            Ok(info),
        ) && {
            &&& theirs == seen_in(info)
            &&& conflict.op == Operation::Delete(path)
            &&& conflict.expected == Some(removes)
            &&& conflict.found == Some(theirs)
            &&& conflict.ours is None
            &&& conflict.at == now
        }),
{
}

/// The server is asked to remove or to move a file exactly if it has just shown
/// the file in the version that the plan is for.
pub proof fn law_the_server_is_asked_for_what_was_planned(
    task: Task<Seq<char>, Seq<u8>>,
    event: Event,
    now: Moment,
    p: Seq<char>,
    q: Seq<char>,
)
    requires
        fits(task, event),
    ensures
        asked(next_step(task, event, now)) == Some(
            Action::<Seq<char>, Seq<u8>, Seq<Seq<char>>>::Rm(p),
        ) <==> (task matches Task::RemoveSeen { path, removes } && event matches Event::Stat(
            Ok(info),
        ) && path == p && seen_in(info) == removes),
        asked(next_step(task, event, now)) == Some(
            Action::<Seq<char>, Seq<u8>, Seq<Seq<char>>>::Mv { from: p, to: q },
        ) <==> (task matches Task::MoveSeen { from, to, moves } && event matches Event::Stat(
            Ok(info),
        ) && from == p && to == q && seen_in(info) == moves),
{
}

/// A save ends with `Saved` exactly if the server has taken the file, or if there
/// is no file here to be sent. It tells the version that the server gave the file,
/// as long as it was, and whether it was written meanwhile.
pub proof fn law_saved_means_the_server_took_it(
    task: Task<Seq<char>, Seq<u8>>,
    event: Event,
    now: Moment,
)
    requires
        fits(task, event),
    ensures
        (ended(next_step(task, event, now)) matches Some(o) && o is Saved) <==> {
            ||| task is SaveDone
            ||| task is SaveFound && event == Event::Looked(Look::Missing)
            ||| task is SaveFound && event == Event::Looked(Look::NotAFile)
        },
        ended(next_step(task, event, now)) matches Some(Outcome::Saved { obs, sig, reedited })
            ==> match task {
            Task::SaveDone { job, mtime } => {
                &&& obs is Some <==> mtime is Some
                &&& obs matches Some(o) ==> o.size == job.found.size && (mtime->0.secs >= 0 ==> o.time
                    == mtime->0.secs)
                &&& event matches Event::Reviewed { data, after } && {
                    &&& reedited <==> after != job.found.mtime
                    &&& sig is Some <==> data is Some
                    &&& sig matches Some(b) ==> b == crate::delta::rsync_signature(
                        data->0@,
                        2048,
                        16,
                    )
                }
            },
            _ => obs is None && sig is None && !reedited,
        },
        next_step(task, event, now) matches StepView::Do(t, a) ==> (t matches Task::SaveDone {
            job,
            mtime,
        } ==> event == Event::Sent(Sent::Done(mtime)) && a == Action::<
            Seq<char>,
            Seq<u8>,
            Seq<Seq<char>>,
        >::Review(job.path)),
{
}

/// What came of sending a file.
pub open spec fn sent(event: Event) -> Option<Sent> {
    match event {
        Event::Sent(s) => Some(s),
        _ => None,
    }
}

/// The server has refused a file because its directory is not there, or seems not
/// to be.
pub open spec fn lacks_directory(s: Sent) -> bool {
    s == Sent::Refused(Error::NotFound) || s == Sent::Refused(Error::PermissionDenied)
}

/// A save goes on until the server has taken the file or cannot: it fails if the
/// file cannot be read, if the server refuses it for another reason than another
/// version or a missing directory, if it refuses it again once the directories
/// have been made, or if no name is left for a copy. Nothing else is a failure.
pub proof fn law_when_a_save_fails(
    task: Task<Seq<char>, Seq<u8>>,
    event: Event,
    now: Moment,
)
    requires
        fits(task, event),
        !(task is MoveSeen || task is MoveSent || task is MoveLost || task is RemoveSeen
            || task is RemoveSent),
    ensures
        (ended(next_step(task, event, now)) matches Some(o) && o is Failed) <==> match task {
            Task::SaveFound { .. } => event == Event::Looked(Look::Unreadable),
            Task::SaveSent { .. } => sent(event) matches Some(s) && s !is Done && !lacks_directory(s)
                && s != Sent::Refused(Error::PreconditionFailed),
            Task::SaveAgain { .. } => sent(event) matches Some(s) && s !is Done && s
                != Sent::Refused(Error::PreconditionFailed),
            Task::CopyNamed { n, .. } => event == Event::IsVacant(false) && n + 1 == COPY_TRIES,
            Task::CopySent { .. } => sent(event) matches Some(s) && s !is Done && !lacks_directory(
                s,
            ),
            Task::CopyAgain { .. } => sent(event) matches Some(s) && s !is Done,
            _ => false,
        },
{
}

/// The path that a task is for, if it sends a file.
pub open spec fn job_of(task: Task<Seq<char>, Seq<u8>>) -> Option<Job<Seq<char>>> {
    match task {
        Task::SaveSigned { job } => Some(job),
        Task::SaveRead { job, sig, time } => Some(job),
        Task::SaveDelta { job } => Some(job),
        Task::SaveSent { job } => Some(job),
        Task::SaveDirs { job } => Some(job),
        Task::SaveAgain { job } => Some(job),
        Task::SaveDone { job, mtime } => Some(job),
        Task::CopySeen { job } => Some(job),
        Task::CopyNamed { job, theirs, n } => Some(job),
        Task::CopySent { job, theirs, copy } => Some(job),
        Task::CopyDirs { job, theirs, copy } => Some(job),
        Task::CopyAgain { job, theirs, copy } => Some(job),
        Task::CopyDone { job, theirs, copy, mtime } => Some(job),
        _ => None,
    }
}

/// A save never forgets what it is for: the plan, and the file as it was found.
pub proof fn law_a_save_keeps_its_job(
    task: Task<Seq<char>, Seq<u8>>,
    event: Event,
    now: Moment,
)
    requires
        fits(task, event),
    ensures
        next_step(task, event, now) matches StepView::Do(t, a) ==> {
            &&& job_of(task) is Some ==> job_of(t) == job_of(task)
            &&& task matches Task::SaveFound { path, replaces, reuses } ==> (
            event matches Event::Looked(Look::File(found)) && job_of(t) == Some(
                Job { path, replaces, reuses, found },
            ))
        },
{
}

/// Ours goes beside theirs exactly if the server has refused the file because it
/// has another version; the version that it has then is asked for, and told.
pub proof fn law_ours_goes_beside_theirs_on_a_conflict(
    task: Task<Seq<char>, Seq<u8>>,
    event: Event,
    now: Moment,
)
    requires
        fits(task, event),
    ensures
        (next_step(task, event, now) matches StepView::Do(t, a) && t is CopySeen) <==> (
        sent(event) == Some(Sent::Refused(Error::PreconditionFailed)) && (task is SaveDelta
            || task is SaveSent || task is SaveAgain)),
        next_step(task, event, now) matches StepView::Do(Task::CopySeen { job }, a) ==> a == Action::<
            Seq<char>,
            Seq<u8>,
            Seq<Seq<char>>,
        >::Stat(job.path),
        task is CopySeen ==> (next_step(task, event, now) matches StepView::Do(
            Task::CopyNamed { job, theirs, n },
            a,
        ) && n == 0 && theirs == (match event {
            Event::Stat(Ok(info)) => Some(seen_in(info)),
            _ => None,
        })),
        (ended(next_step(task, event, now)) matches Some(o) && o is Diverted) <==> task is CopyDone,
        task matches Task::CopyDone { job, theirs, copy, mtime } ==> (ended(
            next_step(task, event, now),
        ) matches Some(Outcome::Diverted { theirs: t, copy: c, obs, sig, reedited, conflict }) && {
            &&& t == theirs
            &&& c == copy
            &&& obs is Some <==> mtime is Some
            &&& obs matches Some(o) ==> o.size == job.found.size && (mtime->0.secs >= 0 ==> o.time
                == mtime->0.secs)
            &&& event matches Event::Reviewed { data, after } && {
                &&& reedited <==> after != job.found.mtime
                &&& sig is Some <==> data is Some
                &&& sig matches Some(b) ==> b == crate::delta::rsync_signature(data->0@, 2048, 16)
            }
            &&& conflict.op == Operation::Write(job.path)
            &&& conflict.expected == job.replaces
            &&& conflict.found == theirs
            &&& conflict.ours == Some(copy)
            &&& conflict.at == now
        }),
{
}

/// What the server was seen to have stays known until the copy is done.
pub proof fn law_theirs_is_remembered(
    task: Task<Seq<char>, Seq<u8>>,
    event: Event,
    now: Moment,
)
    requires
        fits(task, event),
    ensures
        next_step(task, event, now) matches StepView::Do(t, a) ==> match task {
            Task::CopyNamed { job, theirs, n } => match t {
                Task::CopyNamed { job: j, theirs: o, n: m } => o == theirs,
                Task::CopySent { job: j, theirs: o, copy } => o == theirs,
                _ => false,
            },
            Task::CopySent { job, theirs, copy } => match t {
                Task::CopyDirs { job: j, theirs: o, copy: c } => o == theirs && c == copy && a
                    == Action::<Seq<char>, Seq<u8>, Seq<Seq<char>>>::Mkdirs(ancestors_of(copy)),
                Task::CopyDone { job: j, theirs: o, copy: c, mtime } => o == theirs && c == copy
                    && event == Event::Sent(Sent::Done(mtime)) && a == Action::<
                    Seq<char>,
                    Seq<u8>,
                    Seq<Seq<char>>,
                >::Rename { from: job.path, to: copy },
                _ => false,
            },
            Task::CopyDirs { job, theirs, copy } => t == Task::<Seq<char>, Seq<u8>>::CopyAgain {
                job,
                theirs,
                copy,
            } && a == Action::<Seq<char>, Seq<u8>, Seq<Seq<char>>>::Send {
                source: job.path,
                target: copy,
                since: None,
            },
            Task::CopyAgain { job, theirs, copy } => match t {
                Task::CopyDone { job: j, theirs: o, copy: c, mtime } => o == theirs && c == copy
                    && event == Event::Sent(Sent::Done(mtime)) && a == Action::<
                    Seq<char>,
                    Seq<u8>,
                    Seq<Seq<char>>,
                >::Rename { from: job.path, to: copy },
                _ => false,
            },
            _ => true,
        },
{
}

/// The time of the version that a file may replace on the server: that of the
/// lease, or the epoch where there must be none.
pub open spec fn may_replace(replaces: Option<Observation>, since: Option<u64>) -> bool {
    match replaces {
        Some(o) => since == Some(o.time),
        None => since == Some(0u64),
    }
}

/// A file is sent as a delta exactly if a signature of what the server has is kept,
/// the time of that version is known, the file can be read and a delta is worth
/// it; else it is sent whole. The delta is made of what the file holds against
/// that signature, and goes to the file itself.
pub proof fn law_when_a_delta_is_sent(
    job: Job<Seq<char>>,
    sig: Seq<u8>,
    time: u64,
    data: Option<Vec<u8>>,
    kept: Option<Vec<u8>>,
    base_time: Option<u64>,
    s: Sent,
    now: Moment,
)
    ensures
        ({
            let read = next_step(Task::SaveRead { job, sig, time }, Event::Data(data), now);
            let body = match data {
                Some(d) => delta_of(sig, d@),
                None => None,
            };
            match body {
                Some(b) => asked(read) == Some(
                    Action::<Seq<char>, Seq<u8>, Seq<Seq<char>>>::SendDelta {
                        target: job.path,
                        body: b,
                        since: time,
                        base: job.reuses,
                    },
                ),
                None => is_whole(read, job),
            }
        }),
        ({
            let signed = next_step(
                Task::SaveSigned { job },
                Event::Signature { sig: kept, base_time },
                now,
            );
            let known = if job.reuses is Some {
                base_time
            } else if job.replaces is Some {
                Some(job.replaces->0.time)
            } else {
                None
            };
            if kept is Some && known is Some {
                signed == StepView::Do(
                    Task::SaveRead { job, sig: kept->0@, time: known->0 },
                    Action::ReadForDelta(job.path),
                )
            } else {
                is_whole(signed, job)
            }
        }),
        ({
            let after = next_step(Task::SaveDelta { job }, Event::Sent(s), now);
            s !is Done && s != Sent::Refused(Error::PreconditionFailed) ==> is_whole(after, job)
        }),
{
}

/// The step sends a whole file to its own path, on its lease.
pub open spec fn is_whole(s: StepView, job: Job<Seq<char>>) -> bool {
    &&& s matches StepView::Do(t, _) && t == Task::<Seq<char>, Seq<u8>>::SaveSent { job }
    &&& asked(s) matches Some(Action::Send { source, target, since }) && source == job.path
        && target == job.path && may_replace(job.replaces, since)
}

/// A file whose directory is not there is sent once more when the directories
/// above it have been made.
pub proof fn law_a_missing_directory_is_made(
    job: Job<Seq<char>>,
    s: Sent,
    now: Moment,
)
    ensures
        ({
            let first = next_step(Task::SaveSent { job }, Event::Sent(s), now);
            lacks_directory(s) <==> asked(first) == Some(
                Action::<Seq<char>, Seq<u8>, Seq<Seq<char>>>::Mkdirs(ancestors_of(job.path)),
            )
        }),
        lacks_directory(s) ==> (next_step(Task::SaveSent { job }, Event::Sent(s), now)
            matches StepView::Do(t, _) && t == Task::<Seq<char>, Seq<u8>>::SaveDirs { job }),
        ({
            let again = next_step(Task::SaveDirs { job }, Event::Dirs, now);
            &&& again matches StepView::Do(t, _) && t == Task::<Seq<char>, Seq<u8>>::SaveAgain { job }
            &&& asked(again) matches Some(Action::Send { source, target, since }) && source
                == job.path && target == job.path && may_replace(job.replaces, since)
        }),
{
}

/// The signature that a delta is made against is that of the file which the save
/// builds on: another one, or the file itself.
pub proof fn law_a_delta_builds_on_the_right_file(
    path: Seq<char>,
    replaces: Option<Observation>,
    reuses: Option<Seq<char>>,
    found: crate::model::Meta,
    now: Moment,
)
    ensures
        asked(
            next_step(
                Task::SaveFound { path, replaces, reuses },
                Event::Looked(Look::File(found)),
                now,
            ),
        ) == Some(
            Action::<Seq<char>, Seq<u8>, Seq<Seq<char>>>::Signature(
                if reuses is Some {
                    reuses->0
                } else {
                    path
                },
            ),
        ),
{
}

/// A replay has to wait exactly while one of its paths, or a directory above one,
/// is being renamed or removed.
pub proof fn law_a_replay_waits_for_frozen_paths(frozen: Set<Seq<char>>, plan: Plan<Seq<char>>)
    ensures
        (ended(first_step(frozen, plan)) matches Some(o) && o is Busy) <==> exists|q: Seq<char>|
            #[trigger] frozen.contains(q) && match plan {
                Plan::Save { path, replaces, reuses } => path == q || below(path, q),
                Plan::Move { from, to, moves } => from == q || below(from, q) || to == q || below(
                    to,
                    q,
                ),
                Plan::Remove { path, removes } => path == q || below(path, q),
            },
        ended(first_step(frozen, plan)) is None ==> asked(first_step(frozen, plan)) == Some(
            match plan {
                Plan::Save { path, replaces, reuses } => Action::<
                    Seq<char>,
                    Seq<u8>,
                    Seq<Seq<char>>,
                >::Look(path),
                Plan::Move { from, to, moves } => Action::Stat(from),
                Plan::Remove { path, removes } => Action::Stat(path),
            },
        ),
{
    let busy = ended(first_step(frozen, plan)) matches Some(o) && o is Busy;
    if busy {
        match plan {
            Plan::Save { path, replaces, reuses } => {
                let q = choose|q: Seq<char>| #[trigger] frozen.contains(q) && within(path, q);
                assert(frozen.contains(q));
            },
            Plan::Move { from, to, moves } => {
                if crate::replay::is_frozen(frozen, from) {
                    let q = choose|q: Seq<char>| #[trigger] frozen.contains(q) && within(from, q);
                    assert(frozen.contains(q));
                } else {
                    let q = choose|q: Seq<char>| #[trigger] frozen.contains(q) && within(to, q);
                    assert(frozen.contains(q));
                }
            },
            Plan::Remove { path, removes } => {
                let q = choose|q: Seq<char>| #[trigger] frozen.contains(q) && within(path, q);
                assert(frozen.contains(q));
            },
        }
    }
}

proof fn lemma_above(path: Seq<char>, q: Seq<char>)
    requires
        q.len() > 0,
    ensures
        below(path, q) <==> q == dir_of(path) || below(dir_of(path), q),
{
    crate::path::lemma_last_slash(path);
    let k = crate::path::last_slash(path);
    let dir = dir_of(path);
    if below(path, q) {
        assert(path[q.len() as int] == '/');
        assert(q.len() <= k);
        assert(dir =~= path.take(k));
        if q.len() == k {
            assert(q =~= dir);
        } else {
            assert(dir.take(q.len() as int) =~= path.take(q.len() as int));
            assert(dir[q.len() as int] == path[q.len() as int]);
        }
    }
    if q == dir {
        assert(path.take(q.len() as int) =~= q);
    }
    if below(dir, q) {
        assert(path.take(q.len() as int) =~= dir.take(q.len() as int));
        assert(path[q.len() as int] == dir[q.len() as int]);
    }
}

/// The directories that are made for a file are all those above it, each once and
/// the upper ones first.
pub proof fn law_the_directories_above_a_file(path: Seq<char>)
    ensures
        forall|q: Seq<char>| #[trigger]
            ancestors_of(path).contains(q) <==> q.len() > 0 && below(path, q),
        forall|i: int, j: int|
            0 <= i < j < ancestors_of(path).len() ==> #[trigger] below(
                ancestors_of(path)[j],
                ancestors_of(path)[i],
            ),
    decreases path.len(),
{
    let dir = dir_of(path);
    let all = ancestors_of(path);
    crate::path::lemma_last_slash(path);
    if dir.len() == 0 || dir.len() >= path.len() {
        assert forall|q: Seq<char>| #[trigger] all.contains(q) <==> q.len() > 0 && below(path, q) by {
            if q.len() > 0 {
                lemma_above(path, q);
            }
        }
    } else {
        law_the_directories_above_a_file(dir);
        let before = ancestors_of(dir);
        assert(all == before.push(dir));
        assert forall|q: Seq<char>| #[trigger] all.contains(q) <==> q.len() > 0 && below(path, q) by {
            if q.len() > 0 {
                lemma_above(path, q);
            }
            if all.contains(q) {
                let i = choose|i: int| 0 <= i < all.len() && all[i] == q;
                if i < before.len() {
                    assert(before.contains(q)) by {
                        assert(before[i] == q);
                    }
                }
            }
            if before.contains(q) {
                let i = choose|i: int| 0 <= i < before.len() && before[i] == q;
                assert(all[i] == q);
            }
            assert(all[before.len() as int] == dir);
        }
        assert forall|i: int, j: int| 0 <= i < j < all.len() implies #[trigger] below(all[j], all[i]) by {
            if j < before.len() {
                assert(below(before[j], before[i]));
            } else {
                assert(before.contains(before[i]));
            }
        }
    }
}

/// A conflicted copy stands beside the file. Its name is that of the file with
/// the mark of a copy before the extension: before the last dot, unless the name
/// begins with it, or at the end where there is none.
pub proof fn law_the_name_of_a_copy(path: Seq<char>, n: nat)
    ensures
        copy_path(path, n) == crate::path::child_of(dir_of(path), copy_name(base_name(path), n)),
        ({
            let name = base_name(path);
            let k = stem_len(name);
            let mark = if n == 0 {
                " (conflicted copy)"@
            } else {
                " (conflicted copy "@ + decimal_of(n + 1) + ")"@
            };
            &&& 0 <= k <= name.len()
            &&& copy_name(name, n) == name.take(k) + mark + name.skip(k)
            &&& k < name.len() ==> 0 < k && name[k] == '.'
            &&& forall|i: int| k < i < name.len() ==> #[trigger] name[i] != '.'
            &&& k == name.len() ==> forall|i: int| 0 < i < name.len() ==> #[trigger] name[i] != '.'
        }),
{
    lemma_dots(base_name(path));
}

proof fn lemma_dots(s: Seq<char>)
    ensures
        -1 <= crate::replay::last_dot(s) < s.len(),
        crate::replay::last_dot(s) >= 0 ==> s[crate::replay::last_dot(s)] == '.',
        forall|i: int| crate::replay::last_dot(s) < i < s.len() ==> #[trigger] s[i] != '.',
    decreases s.len(),
{
    if s.len() > 0 && s.last() != '.' {
        let t = s.drop_last();
        lemma_dots(t);
        assert forall|i: int| crate::replay::last_dot(s) < i < s.len() implies #[trigger] s[i] != '.' by {
            if i < t.len() {
                assert(t[i] == s[i]);
            }
        }
    }
}

} // verus!
