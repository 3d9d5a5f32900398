//! What holds of every replay.
use crate::model::{seen_in, Moment, Observation, Plan};
use crate::path::{base_name, dir_of, is_path, is_step, last_slash};
use crate::play::Outcome;
use crate::replay::{
    copy_mark, copy_name, copy_path, first_step, fits, lease_time, next_step, send_copy, stem_len,
    Action, Event, Job, Look, StepView, Task, COPY_TRIES,
};
use crate::text::decimal_of;
use vstd::prelude::*;

verus! {

/// The step has the server do the action.
pub open spec fn does(s: StepView, a: Action<Seq<char>, Seq<u8>, Seq<Seq<char>>>) -> bool {
    s matches StepView::Do(_, b) && b == a
}

/// A file is removed from the server only right after the server has shown it in
/// the version that is to be removed.
pub proof fn law_a_remove_carries_its_lease(
    task: Task<Seq<char>, Seq<u8>>,
    event: Event,
    now: Moment,
    p: Seq<char>,
)
    requires
        fits(task, event),
        does(next_step(task, event, now), Action::Rm(p)),
    ensures
        task matches Task::RemoveSeen { path, removes } && path == p && event->Stat_0 is Ok && seen_in(
            event->Stat_0->Ok_0,
        ) == removes,
{
}

/// A file is moved on the server only right after the server has shown it in the
/// version that is to be moved.
pub proof fn law_a_move_carries_its_lease(
    task: Task<Seq<char>, Seq<u8>>,
    event: Event,
    now: Moment,
    p: Seq<char>,
    q: Seq<char>,
)
    requires
        fits(task, event),
        does(next_step(task, event, now), Action::Mv { from: p, to: q }),
    ensures
        task matches Task::MoveSeen { from, to, moves } && from == p && to == q
            && event->Stat_0 is Ok && seen_in(event->Stat_0->Ok_0) == moves,
{
}

/// The plan that a task replays is a save of `path` on the lease `replaces`.
pub open spec fn saves_path(
    task: Task<Seq<char>, Seq<u8>>,
    path: Seq<char>,
    replaces: Option<Observation>,
) -> bool {
    match task {
        Task::SaveFound { path: p, replaces: r, reuses } => p == path && r == replaces,
        Task::SaveSigned { job } => job.path == path && job.replaces == replaces,
        Task::SaveRead { job, sig, time } => job.path == path && job.replaces == replaces,
        Task::SaveDelta { job } => job.path == path && job.replaces == replaces,
        Task::SaveSent { job } => job.path == path && job.replaces == replaces,
        Task::SaveDirs { job } => job.path == path && job.replaces == replaces,
        Task::SaveAgain { job } => job.path == path && job.replaces == replaces,
        Task::SaveDone { job, mtime } => job.path == path && job.replaces == replaces,
        _ => false,
    }
}

/// The task sends our version as a copy of `path`.
pub open spec fn copies_path(task: Task<Seq<char>, Seq<u8>>, path: Seq<char>) -> bool {
    match task {
        Task::CopySeen { job } => job.path == path,
        Task::CopyNamed { job, theirs, n } => job.path == path,
        Task::CopySent { job, theirs, copy } => job.path == path && copy != path,
        Task::CopyDirs { job, theirs, copy } => job.path == path && copy != path,
        Task::CopyAgain { job, theirs, copy } => job.path == path && copy != path,
        Task::CopyDone { job, theirs, copy, mtime } => job.path == path && copy != path,
        _ => false,
    }
}

/// A save is always conditional on the version that it replaces: whatever is
/// sent to the path of the plan carries the time of the lease, or of the base
/// that it builds on. Once the server has refused it, nothing is sent to that
/// path any more: ours goes elsewhere, and both versions survive.
pub proof fn law_a_save_carries_its_lease(
    task: Task<Seq<char>, Seq<u8>>,
    event: Event,
    now: Moment,
    path: Seq<char>,
    replaces: Option<Observation>,
)
    requires
        fits(task, event),
        is_path(path),
        path.len() > 0,
        saves_path(task, path, replaces) || copies_path(task, path),
    ensures
        match next_step(task, event, now) {
            StepView::Do(t, a) => {
                &&& saves_path(task, path, replaces) ==> saves_path(t, path, replaces)
                    || copies_path(t, path)
                &&& copies_path(task, path) ==> copies_path(t, path)
                &&& a matches Action::Send { source, target, since } ==> source == path && if target
                    == path {
                    saves_path(task, path, replaces) && since == Some(lease_time(replaces))
                } else {
                    copies_path(task, path) && since is None
                }
                &&& a matches Action::SendDelta { target, body, since, base } ==> target == path
                    && task is SaveRead && since == task->time
                &&& a !is Rm && a !is Mv
            },
            StepView::Done(o) => {
                &&& copies_path(task, path) ==> o is Diverted || o is Failed
                &&& saves_path(task, path, replaces) ==> o is Saved || o is Failed
            },
        },
{
    law_a_copy_has_another_path(path, 0);
    match task {
        Task::CopyNamed { job, theirs, n } => {
            law_a_copy_has_another_path(path, n as nat);
        },
        _ => {},
    }
}

/// A delta against the file itself carries the lease of the save.
pub proof fn law_a_delta_carries_its_lease(
    task: Task<Seq<char>, Seq<u8>>,
    event: Event,
    now: Moment,
)
    requires
        fits(task, event),
        task is SaveSigned,
        task->SaveSigned_job.reuses is None,
        next_step(task, event, now) matches StepView::Do(t, a) && t is SaveRead,
    ensures
        next_step(task, event, now) matches StepView::Do(t, a) && task->SaveSigned_job.replaces is Some
            && t->time == lease_time(task->SaveSigned_job.replaces),
{
}

/// The replay of a plan never begins with a change on the server.
pub proof fn law_a_replay_looks_first(frozen: Set<Seq<char>>, plan: Plan<Seq<char>>)
    ensures
        first_step(frozen, plan) matches StepView::Do(t, a) ==> {
            &&& a is Stat || a is Look
            &&& match plan {
                Plan::Save { path, replaces, reuses } => saves_path(t, path, replaces),
                Plan::Move { from, to, moves } => t == Task::<Seq<char>, Seq<u8>>::MoveSeen {
                    from,
                    to,
                    moves,
                },
                Plan::Remove { path, removes } => t == Task::<Seq<char>, Seq<u8>>::RemoveSeen {
                    path,
                    removes,
                },
            }
        },
        first_step(frozen, plan) matches StepView::Done(o) ==> o is Busy,
{
}

/// How many steps a replay can still take.
pub open spec fn rank(task: Task<Seq<char>, Seq<u8>>) -> int {
    match task {
        Task::MoveSeen { .. } => 3,
        Task::MoveSent { .. } => 2,
        Task::MoveLost { .. } => 1,
        Task::RemoveSeen { .. } => 2,
        Task::RemoveSent { .. } => 1,
        Task::SaveFound { .. } => 30,
        Task::SaveSigned { .. } => 29,
        Task::SaveRead { .. } => 28,
        Task::SaveDelta { .. } => 27,
        Task::SaveSent { .. } => 26,
        Task::SaveDirs { .. } => 25,
        Task::SaveAgain { .. } => 24,
        Task::SaveDone { .. } => 1,
        Task::CopySeen { .. } => 20,
        Task::CopyNamed { n, .. } => 15 - n,
        Task::CopySent { .. } => 4,
        Task::CopyDirs { .. } => 3,
        Task::CopyAgain { .. } => 2,
        Task::CopyDone { .. } => 1,
    }
}

/// Every replay comes to an end, whatever the answers are.
pub proof fn law_a_replay_ends(task: Task<Seq<char>, Seq<u8>>, event: Event, now: Moment)
    requires
        fits(task, event),
    ensures
        rank(task) > 0,
        next_step(task, event, now) matches StepView::Do(t, a) ==> rank(t) < rank(task),
{
}

proof fn lemma_copy_name_is_step(path: Seq<char>, n: nat)
    requires
        is_path(path),
        path.len() > 0,
    ensures
        is_step(copy_name(base_name(path), n)),
        !copy_name(base_name(path), n).contains('/'),
{
    let name = base_name(path);
    let copy = copy_name(name, n);
    crate::path::lemma_last_slash(path);
    crate::path::law_parent_and_name(path);
    crate::replay::law_a_copy_has_another_name(name, n);
    crate::replay::lemma_last_dot(name);
    assert forall|i: int| 0 <= i < name.len() implies name[i] != '/' by {
        assert(name[i] == path[last_slash(path) + 1 + i]);
    }
    lemma_mark(n);
    let a = name.take(stem_len(name));
    let m = copy_mark(n);
    let b = name.skip(stem_len(name));
    assert forall|i: int| 0 <= i < copy.len() implies copy[i] != '/' by {
        if i < a.len() {
            assert(copy[i] == name[i]);
        } else if i < a.len() + m.len() {
            assert(copy[i] == m[i - a.len()]);
        } else {
            assert(copy[i] == name[i - m.len()]);
        }
    }
    assert(copy.len() >= 18);
}

proof fn lemma_mark(n: nat)
    ensures
        copy_mark(n).len() >= 18,
        forall|i: int| 0 <= i < copy_mark(n).len() ==> #[trigger] copy_mark(n)[i] != '/',
{
    reveal_strlit(" (conflicted copy)");
    reveal_strlit(" (conflicted copy ");
    reveal_strlit(")");
    lemma_decimal(n + 1);
    let m = copy_mark(n);
    if n > 0 {
        let a = " (conflicted copy "@;
        let d = decimal_of(n + 1);
        assert forall|i: int| 0 <= i < m.len() implies #[trigger] m[i] != '/' by {
            if i < a.len() {
                assert(m[i] == a[i]);
            } else if i < a.len() + d.len() {
                assert(m[i] == d[i - a.len()]);
            } else {
                assert(m[i] == ")"@[i - a.len() - d.len()]);
            }
        }
    }
}

proof fn lemma_decimal(n: nat)
    ensures
        decimal_of(n).len() > 0,
        forall|i: int| 0 <= i < decimal_of(n).len() ==> #[trigger] decimal_of(n)[i] != '/',
    decreases n,
{
    let last = ('0' as u32 + n % 10) as char;
    assert(last as u32 == 48 + n % 10);
    if n >= 10 {
        lemma_decimal(n / 10);
        let d = decimal_of(n);
        assert forall|i: int| 0 <= i < d.len() implies #[trigger] d[i] != '/' by {
            if i < d.len() - 1 {
                assert(d[i] == decimal_of(n / 10)[i]);
            }
        }
    }
}

/// A conflicted copy stands beside the file, under another name.
pub proof fn law_a_copy_has_another_path(path: Seq<char>, n: nat)
    requires
        is_path(path),
        path.len() > 0,
    ensures
        copy_path(path, n) != path,
        dir_of(copy_path(path, n)) == dir_of(path),
{
    lemma_copy_name_is_step(path, n);
    crate::replay::law_a_copy_has_another_name(base_name(path), n);
    assert(is_path(dir_of(path))) by {
        if last_slash(path) >= 0 {
            crate::path::lemma_parent_is_path(path);
        }
    }
    crate::path::law_child_of_a_step(dir_of(path), copy_name(base_name(path), n));
}

/// The name for a copy that a task has asked about.
pub open spec fn asked_name(task: Task<Seq<char>, Seq<u8>>) -> Option<Seq<char>> {
    match task {
        Task::CopyNamed { job, theirs, n } => Some(copy_path(job.path, n as nat)),
        _ => None,
    }
}

/// The name that a task has settled on for a copy.
pub open spec fn chosen_name(task: Task<Seq<char>, Seq<u8>>) -> Option<Seq<char>> {
    match task {
        Task::CopySent { job, theirs, copy } => Some(copy),
        Task::CopyDirs { job, theirs, copy } => Some(copy),
        Task::CopyAgain { job, theirs, copy } => Some(copy),
        Task::CopyDone { job, theirs, copy, mtime } => Some(copy),
        _ => None,
    }
}

/// A copy is sent only to a name that was asked about and found free, and is
/// given no other name here: it never overwrites another file.
pub proof fn law_a_copy_goes_to_a_free_name(
    task: Task<Seq<char>, Seq<u8>>,
    event: Event,
    now: Moment,
)
    requires
        fits(task, event),
    ensures
        next_step(task, event, now) matches StepView::Do(t, a) ==> {
            &&& asked_name(t) matches Some(c) ==> a == Action::<
                Seq<char>,
                Seq<u8>,
                Seq<Seq<char>>,
            >::IsVacant(c)
            &&& chosen_name(t) matches Some(c) ==> chosen_name(task) == Some(c) || (asked_name(task)
                == Some(c) && event == Event::IsVacant(true))
            &&& a matches Action::Send { source, target, since } ==> since is Some || chosen_name(t)
                == Some(target)
            &&& a matches Action::Rename { from, to } ==> chosen_name(t) == Some(to)
        },
{
}

/// While the names that are tried are taken, the next one is asked about; once
/// all are taken, the replay fails, and what is here stays here to be tried
/// again. Nothing is sent then.
pub proof fn law_a_taken_name_is_never_sent_to(
    job: Job<Seq<char>>,
    theirs: Option<Observation>,
    n: u64,
    now: Moment,
)
    requires
        n < COPY_TRIES,
    ensures
        ({
            let task = Task::<Seq<char>, Seq<u8>>::CopyNamed { job, theirs, n };
            &&& next_step(task, Event::IsVacant(true), now) == send_copy(
                job,
                theirs,
                copy_path(job.path, n as nat),
            )
            &&& match next_step(task, Event::IsVacant(false), now) {
                StepView::Do(t, a) => {
                    &&& t == Task::<Seq<char>, Seq<u8>>::CopyNamed {
                        job,
                        theirs,
                        n: (n + 1) as u64,
                    }
                    &&& a is IsVacant
                },
                StepView::Done(o) => n + 1 == COPY_TRIES && o is Failed,
            }
        }),
{
}

/// An edit that comes while a file is being sent, to its own path or as a copy, is
/// noticed.
pub proof fn law_an_edit_during_a_replay_is_noticed(
    task: Task<Seq<char>, Seq<u8>>,
    event: Event,
    now: Moment,
)
    requires
        fits(task, event),
    ensures
        next_step(task, event, now) matches StepView::Done(o) ==> match task {
            Task::SaveDone { job, mtime } => o matches Outcome::Saved { obs, sig, reedited }
                && reedited == (event->after != job.found.mtime),
            Task::CopyDone { job, theirs, copy, mtime } => o matches Outcome::Diverted {
                theirs: t,
                copy: c,
                obs,
                sig,
                reedited,
                conflict,
            } && c == copy && reedited == (event->after != job.found.mtime),
            _ => true,
        },
{
}

/// A save whose file is not there any more, or is none, ends at once: nothing is
/// asked of the server, whatever became of the local files.
pub proof fn law_a_missing_file_asks_nothing_of_the_server(
    path: Seq<char>,
    replaces: Option<Observation>,
    reuses: Option<Seq<char>>,
    look: Look,
    now: Moment,
)
    requires
        look == Look::Missing || look == Look::NotAFile,
    ensures
        next_step(Task::SaveFound { path, replaces, reuses }, Event::Looked(look), now)
            == StepView::Done(Outcome::Saved { obs: None, sig: None, reedited: false }),
{
}

} // verus!
