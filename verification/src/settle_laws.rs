//! What is promised of plans that have been tried, of when to look again, and of
//! what is to become of each file.
use crate::compact::taken_in;
use crate::fold_laws::{
    agree, all_can_happen, all_can_wait, all_happened, all_meant, remote, Stuff,
};
use crate::ledger::{transferred, Write};
use crate::model::{plan_paths, Fate, Observation, Operation, Plan};
use crate::path::below;
use crate::play::Outcome;
use crate::settle::{delay_after, doubled, met, settled};
use crate::state::{
    closed_once, fresh, hurried, is_numbered, least_due, next_wake, one_more, owed_by, place,
    plans_seen, put_all, refreshed, seen, times_open, window_seen, Entry, OutlookView, StateView,
    Tick, BUSY_WAIT, HORIZON, OPEN_QUIET, RETRY, RETRY_CAP, WINDOW_MAX, WINDOW_QUIET,
};
use crate::upkeep_laws::speaks_of;
use vstd::prelude::*;

verus! {

/// A plan waits twice as long after each failure, up to the longest wait.
pub proof fn law_the_wait_doubles(n: nat)
    requires
        n >= 1,
    ensures
        delay_after(n + 1) == if 2 * delay_after(n) <= RETRY_CAP {
            2 * delay_after(n)
        } else {
            RETRY_CAP as nat
        },
{
    reveal_with_fuel(doubled, 6);
    assert(doubled(0) == 1 && doubled(1) == 2 && doubled(2) == 4 && doubled(3) == 8 && doubled(4) == 16
        && doubled(5) == 32);
}

proof fn lemma_place(pending: Seq<Entry<Seq<char>>>, seq: i64)
    ensures
        ({
            let i = place(pending, seq);
            &&& -1 <= i < pending.len()
            &&& i >= 0 ==> pending[i].seq == seq
            &&& i < 0 ==> forall|k: int| 0 <= k < pending.len() ==> (#[trigger] pending[k]).seq != seq
        }),
    decreases pending.len(),
{
    if pending.len() > 0 && pending.last().seq != seq {
        let front = pending.drop_last();
        lemma_place(front, seq);
        if place(front, seq) < 0 {
            assert forall|k: int| 0 <= k < pending.len() implies (#[trigger] pending[k]).seq != seq by {
                if k < front.len() {
                    assert(front[k] == pending[k]);
                }
            }
        }
    }
}

/// A plan that could not be replayed is not given up: it is tried again, a short
/// while later if its path was busy, and else the later the more often it failed.
/// Nothing else changes.
pub proof fn law_a_plan_that_failed_is_tried_again(
    s: StateView,
    i: int,
    outcome: Outcome<Seq<char>, Seq<u8>>,
    now: Tick,
)
    requires
        is_numbered(s.journal.pending),
        0 <= i < s.journal.pending.len(),
        s.journal.pending[i].attempts < u32::MAX,
        now <= HORIZON,
        outcome is Busy || outcome is Failed,
    ensures
        ({
            let before = s.journal.pending;
            let t = settled(s, before[i].seq, outcome, now);
            let after = t.journal.pending;
            &&& after.len() == before.len()
            &&& forall|k: int| 0 <= k < before.len() && k != i ==> #[trigger] after[k] == before[k]
            &&& after[i].plan == before[i].plan
            &&& after[i].seq == before[i].seq
            &&& !after[i].running
            &&& outcome is Busy ==> after[i].attempts == before[i].attempts && after[i].due == now
                + BUSY_WAIT
            &&& outcome is Failed ==> after[i].attempts == before[i].attempts + 1 && after[i].due
                == now + delay_after((before[i].attempts + 1) as nat)
            &&& t.journal.window == s.journal.window
            &&& t.journal.marks == s.journal.marks
            &&& t.journal.writing == s.journal.writing
            &&& t.ledger == s.ledger
        }),
{
    let seq = s.journal.pending[i].seq;
    lemma_place(s.journal.pending, seq);
    let k = place(s.journal.pending, seq);
    assert(s.journal.pending[k].seq == s.journal.pending[i].seq);
    assert(k == i);
    crate::settle::law_retries_back_off(
        (s.journal.pending[i].attempts + 1) as nat,
        (s.journal.pending[i].attempts + 1) as nat,
    );
}

/// What is known of the server's version of `p` after `t` is `o`.
pub open spec fn knows(t: StateView, p: Seq<char>, o: Observation) -> bool {
    t.ledger.observations.dom().contains(p) && t.ledger.observations[p] == o
}

/// Of a file that was saved the version is known that the server then had. If it
/// was written meanwhile, that is noted as something that happened just now.
pub proof fn law_what_a_save_teaches(
    s: StateView,
    i: int,
    outcome: Outcome<Seq<char>, Seq<u8>>,
    now: Tick,
    q: Seq<char>,
)
    requires
        is_numbered(s.journal.pending),
        0 <= i < s.journal.pending.len(),
        s.journal.pending[i].plan is Save,
    ensures
        ({
            let path = s.journal.pending[i].plan->Save_path;
            let t = settled(s, s.journal.pending[i].seq, outcome, now);
            let before = s.ledger.observations;
            let after = t.ledger.observations;
            &&& outcome matches Outcome::Saved { obs, sig, reedited } ==> {
                &&& obs matches Some(o) ==> knows(t, path, o)
                &&& obs is None ==> after == before
                &&& q != path ==> after.dom().contains(q) == before.dom().contains(q) && after[q]
                    == before[q]
                &&& reedited ==> t.journal.window.last() == (now, Operation::Write(path))
                &&& !reedited ==> t.journal.window == s.journal.window
            }
            &&& outcome matches Outcome::Diverted { theirs, copy, obs, sig, reedited, conflict } ==> {
                &&& obs matches Some(o) ==> knows(t, copy, o)
                &&& theirs is Some && copy != path ==> knows(t, path, theirs->0)
                &&& q != path && q != copy ==> after.dom().contains(q) == before.dom().contains(q)
                    && after[q] == before[q]
                &&& reedited ==> t.journal.window.last() == (now, Operation::Write(copy))
                &&& !reedited ==> t.journal.window == s.journal.window
            }
        }),
{
    lemma_settled_at(s, i);
}

/// Of a move that the server refused it is known what the server has instead: the
/// other version, or nothing. What is here is saved under its new name where it is
/// to be. A move that the server made has moved what was seen.
pub proof fn law_what_a_move_teaches(
    s: StateView,
    i: int,
    outcome: Outcome<Seq<char>, Seq<u8>>,
    now: Tick,
    q: Seq<char>,
)
    requires
        is_numbered(s.journal.pending),
        0 <= i < s.journal.pending.len(),
        s.journal.pending[i].plan is Move,
    ensures
        ({
            let from = s.journal.pending[i].plan->from;
            let to = s.journal.pending[i].plan->to;
            let t = settled(s, s.journal.pending[i].seq, outcome, now);
            let before = s.ledger.observations;
            let after = t.ledger.observations;
            &&& outcome matches Outcome::MoveLost { theirs, resurrect, conflict } ==> {
                &&& theirs matches Some(o) ==> knows(t, from, o)
                &&& theirs is None ==> !after.dom().contains(from)
                &&& q != from ==> after.dom().contains(q) == before.dom().contains(q) && (
                before.dom().contains(q) ==> after[q] == before[q])
                &&& resurrect matches Some(p) ==> t.journal.window.last() == (
                    now,
                    Operation::<Seq<char>>::Write(p),
                )
                &&& resurrect is None ==> t.journal.window == s.journal.window
            }
            &&& outcome is Moved ==> after == transferred(s.ledger, from, to).observations
                && t.journal.window == s.journal.window
        }),
{
    lemma_settled_at(s, i);
}

/// Of a removal that the server refused the version is known that it has instead; of
/// one that it made nothing is known any more. Nothing is to be done here.
pub proof fn law_what_a_removal_teaches(
    s: StateView,
    i: int,
    outcome: Outcome<Seq<char>, Seq<u8>>,
    now: Tick,
    q: Seq<char>,
)
    requires
        is_numbered(s.journal.pending),
        0 <= i < s.journal.pending.len(),
        s.journal.pending[i].plan is Remove,
    ensures
        ({
            let path = s.journal.pending[i].plan->Remove_path;
            let t = settled(s, s.journal.pending[i].seq, outcome, now);
            let before = s.ledger.observations;
            let after = t.ledger.observations;
            &&& outcome matches Outcome::RemoveLost { theirs, conflict } ==> {
                &&& knows(t, path, theirs)
                &&& q != path ==> after.dom().contains(q) == before.dom().contains(q) && after[q]
                    == before[q]
                &&& t.journal.window == s.journal.window
            }
            &&& outcome is Removed ==> {
                &&& !after.dom().contains(path)
                &&& q != path && !below(q, path) ==> after.dom().contains(q) == before.dom().contains(q)
                &&& t.journal.window == s.journal.window
            }
        }),
{
    lemma_settled_at(s, i);
}

proof fn lemma_settled_at(s: StateView, i: int)
    requires
        is_numbered(s.journal.pending),
        0 <= i < s.journal.pending.len(),
    ensures
        place(s.journal.pending, s.journal.pending[i].seq) == i,
{
    let seq = s.journal.pending[i].seq;
    lemma_place(s.journal.pending, seq);
    let k = place(s.journal.pending, seq);
    assert(s.journal.pending[k].seq == s.journal.pending[i].seq);
}

/// A conflict is told of where ours and theirs met, and nowhere else.
pub proof fn law_a_conflict_is_told_where_versions_met(outcome: Outcome<Seq<char>, Seq<u8>>)
    ensures
        outcome matches Outcome::Diverted { theirs, copy, obs, sig, reedited, conflict } ==> met(
            outcome,
        ) == Some(conflict),
        outcome matches Outcome::RemoveLost { theirs, conflict } ==> met(outcome) == Some(conflict),
        outcome matches Outcome::MoveLost { theirs, resurrect, conflict } ==> met(outcome) == conflict,
        outcome is Saved || outcome is Moved || outcome is Removed || outcome is Busy || outcome is Failed
            ==> met(outcome) is None,
{
}

proof fn lemma_least(pending: Seq<Entry<Seq<char>>>)
    ensures
        match least_due(pending) {
            Some(t) => {
                &&& exists|k: int|
                    0 <= k < pending.len() && !(#[trigger] pending[k]).running && pending[k].due == t
                &&& forall|k: int|
                    0 <= k < pending.len() && !(#[trigger] pending[k]).running ==> t <= pending[k].due
            },
            None => forall|k: int| 0 <= k < pending.len() ==> (#[trigger] pending[k]).running,
        },
    decreases pending.len(),
{
    if pending.len() > 0 {
        let front = pending.drop_last();
        lemma_least(front);
        let n = pending.len() - 1;
        assert(forall|k: int| 0 <= k < n ==> #[trigger] pending[k] == front[k]);
        assert(pending[n] == pending.last());
        if let Some(t) = least_due(front) {
            let k = choose|k: int| 0 <= k < front.len() && !(#[trigger] front[k]).running && front[k].due == t;
            assert(pending[k].due == t && !pending[k].running);
        }
        assert forall|k: int| 0 <= k < pending.len() && k != n implies #[trigger] pending[k] == front[k] by {}
    }
}

/// The next look is at the first time at which there is something to do: when it
/// has been quiet for long enough, or when a plan is due that is not being replayed.
/// Where there is nothing to wait for there is no next look.
pub proof fn law_the_next_look_is_when_something_is_due(s: StateView, k: int)
    requires
        s.journal.window.len() > 0 ==> s.journal.window.last().0 <= HORIZON,
    ensures
        ({
            let w = s.journal.window;
            let p = s.journal.pending;
            match next_wake(s) {
                Some(t) => {
                    &&& w.len() > 0 ==> t <= w.last().0 + WINDOW_QUIET
                    &&& 0 <= k < p.len() && !p[k].running ==> t <= p[k].due
                    &&& {
                        ||| w.len() > 0 && t == w.last().0 + WINDOW_QUIET
                        ||| exists|j: int|
                            0 <= j < p.len() && !(#[trigger] p[j]).running && p[j].due == t
                    }
                },
                None => w.len() == 0 && (0 <= k < p.len() ==> p[k].running),
            }
        }),
{
    lemma_least(s.journal.pending);
}

/// Whoever asks for it need not wait: every plan is due at once, and is the same.
pub proof fn law_a_hurried_plan_is_due(pending: Seq<Entry<Seq<char>>>, k: int, now: Tick)
    requires
        0 <= k < pending.len(),
    ensures
        hurried(pending, now).len() == pending.len(),
        ({
            let before = pending[k];
            let after = hurried(pending, now)[k];
            &&& after.due == now
            &&& after.plan == before.plan
            &&& after.seq == before.seq
            &&& after.attempts == before.attempts
            &&& after.running == before.running
        }),
{
}

/// A path is owed to the server as long as a plan speaks of it.
pub proof fn law_a_path_is_owed_while_a_plan_speaks_of_it(
    pending: Seq<Entry<Seq<char>>>,
    p: Seq<char>,
)
    ensures
        owed_by(pending).contains(p) <==> exists|k: int|
            0 <= k < pending.len() && speaks_of((#[trigger] pending[k]).plan, p),
    decreases pending.len(),
{
    if pending.len() > 0 {
        let front = pending.drop_last();
        let n = pending.len() - 1;
        law_a_path_is_owed_while_a_plan_speaks_of_it(front, p);
        let v = plan_paths(pending.last().plan);
        assert(pending[n] == pending.last());
        assert(v.to_set().contains(p) <==> speaks_of(pending.last().plan, p)) by {
            match pending.last().plan {
                Plan::Save { path, replaces, reuses } => {
                    assert(v[0] == path);
                    if let Some(x) = reuses {
                        assert(v[1] == x);
                    }
                },
                Plan::Move { from, to, moves } => {
                    assert(v[0] == from);
                    assert(v[1] == to);
                },
                Plan::Remove { path, removes } => assert(v[0] == path),
            }
        }
        if owed_by(front).contains(p) {
            let k = choose|k: int| 0 <= k < front.len() && speaks_of((#[trigger] front[k]).plan, p);
            assert(speaks_of(pending[k].plan, p));
        }
        if exists|k: int| 0 <= k < pending.len() && speaks_of((#[trigger] pending[k]).plan, p) {
            let k = choose|k: int| 0 <= k < pending.len() && speaks_of((#[trigger] pending[k]).plan, p);
            if k < n {
                assert(speaks_of(front[k].plan, p));
            }
        }
    }
}

/// A file is open for writing until it has been closed as often as it was opened.
pub proof fn law_a_file_is_open_until_it_is_closed(s: StateView, p: Seq<char>)
    requires
        times_open(s, p) < usize::MAX,
        s.journal.writing.dom().contains(p) ==> s.journal.writing[p] > 0,
    ensures
        ({
            let open = s.journal.writing.insert(p, one_more(times_open(s, p)));
            &&& open[p] == times_open(s, p) + 1
            &&& closed_once(open, p) == s.journal.writing
        }),
        !s.journal.writing.dom().contains(p) ==> closed_once(s.journal.writing, p)
            == s.journal.writing,
{
    let open = s.journal.writing.insert(p, one_more(times_open(s, p)));
    assert(closed_once(open, p) =~= s.journal.writing);
}

/// The outlook tells what a file is: where a file of the server has come from and in
/// which version, that a file holds edits, or that there is none.
pub open spec fn tells(
    v: OutlookView,
    files: Map<Seq<char>, Stuff>,
    know: Map<Seq<char>, Observation>,
    p: Seq<char>,
) -> bool {
    if !files.dom().contains(p) {
        ||| v.dirty.contains(p)
        ||| v.fates.dom().contains(p) && v.fates[p] is Gone
        ||| !v.fates.dom().contains(p) && !know.dom().contains(p)
    } else {
        match files[p] {
            Stuff::Local(x) => v.dirty.contains(p),
            Stuff::Server(x) => know.dom().contains(x) && {
                ||| x == p && !v.fates.dom().contains(p)
                ||| v.fates.dom().contains(p) && v.fates[p] == (Fate::Arrived { from: x, was: know[x] })
            },
        }
    }
}

/// The outlook tells what every file is.
pub open spec fn tells_all(
    v: OutlookView,
    files: Map<Seq<char>, Stuff>,
    know: Map<Seq<char>, Observation>,
) -> bool {
    forall|p: Seq<char>| #[trigger] tells(v, files, know, p)
}

proof fn lemma_plans_tell(
    v: OutlookView,
    files: Map<Seq<char>, Stuff>,
    pending: Seq<Entry<Seq<char>>>,
    know: Map<Seq<char>, Observation>,
)
    requires
        tells_all(v, files, know),
        all_can_wait(files, plans_of(pending), know),
    ensures
        tells_all(plans_seen(v, pending), all_meant(files, plans_of(pending)), know),
    decreases pending.len(),
{
    if pending.len() > 0 {
        let front = pending.drop_last();
        let plan = pending.last().plan;
        assert(plans_of(pending).drop_last() =~= plans_of(front));
        lemma_plans_tell(v, files, front, know);
        let before = plans_seen(v, front);
        let here = all_meant(files, plans_of(front));
        let after = plans_seen(v, pending);
        let later = all_meant(files, plans_of(pending));
        assert forall|p: Seq<char>| #[trigger] tells(after, later, know, p) by {
            assert(tells(before, here, know, p));
            if let Plan::Move { from, to, moves } = plan {
                assert(tells(before, here, know, from));
            }
        }
    } else {
        assert(plans_of(pending) =~= Seq::empty());
    }
}

proof fn lemma_window_tells(
    v: OutlookView,
    files: Map<Seq<char>, Stuff>,
    window: Seq<(Tick, Operation<Seq<char>>)>,
    know: Map<Seq<char>, Observation>,
)
    requires
        tells_all(v, files, know),
        all_can_happen(files, ops_of(window)),
    ensures
        tells_all(window_seen(v, window, know), all_happened(files, ops_of(window)), know),
    decreases window.len(),
{
    if window.len() > 0 {
        let front = window.drop_last();
        let op = window.last().1;
        assert(ops_of(window).drop_last() =~= ops_of(front));
        lemma_window_tells(v, files, front, know);
        let before = window_seen(v, front, know);
        let here = all_happened(files, ops_of(front));
        let after = window_seen(v, window, know);
        let later = all_happened(files, ops_of(window));
        assert forall|p: Seq<char>| #[trigger] tells(after, later, know, p) by {
            assert(tells(before, here, know, p));
            if let Operation::Rename(from, to) = op {
                assert(tells(before, here, know, from));
            }
        }
    } else {
        assert(ops_of(window) =~= Seq::empty());
    }
}

/// The plans of the entries.
pub open spec fn plans_of(pending: Seq<Entry<Seq<char>>>) -> Seq<Plan<Seq<char>>> {
    Seq::new(pending.len(), |i: int| pending[i].plan)
}

/// What happened, without the times.
pub open spec fn ops_of(window: Seq<(Tick, Operation<Seq<char>>)>) -> Seq<Operation<Seq<char>>> {
    Seq::new(window.len(), |i: int| window[i].1)
}

/// The outlook is what is here. Let there be the server's files, and edits in files
/// that are marked, and let all happen that the waiting plans are for, and all that
/// is noted. A file that holds something of ours is among those with edits. Any other
/// is the server's, from where it is said to have come and in the version that it had
/// there, or in its own place if nothing is said of it. A file that is said to be
/// gone is not here.
pub proof fn law_the_outlook_is_what_is_here(
    s: StateView,
    start: Map<Seq<char>, Stuff>,
    p: Seq<char>,
)
    requires
        forall|q: Seq<char>|
            #![trigger start.dom().contains(q)]
            #![trigger remote(s.ledger.observations).dom().contains(q)]
            agree(start, remote(s.ledger.observations), q) || (s.journal.marks.contains(q) && (
            start.dom().contains(q) ==> start[q] is Local)),
        all_can_wait(start, plans_of(s.journal.pending), s.ledger.observations),
        all_can_happen(all_meant(start, plans_of(s.journal.pending)), ops_of(s.journal.window)),
    ensures
        ({
            let know = s.ledger.observations;
            let here = all_happened(
                all_meant(start, plans_of(s.journal.pending)),
                ops_of(s.journal.window),
            );
            let v = seen(s);
            &&& here.dom().contains(p) && here[p] is Local ==> v.dirty.contains(p)
            &&& !v.dirty.contains(p) ==> if v.fates.dom().contains(p) {
                match v.fates[p] {
                    Fate::Gone => !here.dom().contains(p),
                    Fate::Arrived { from, was } => here.dom().contains(p) && here[p]
                        == Stuff::Server(from) && know.dom().contains(from) && know[from] == was,
                }
            } else {
                agree(here, remote(know), p)
            }
            &&& refreshed(s).ledger.dirty == v.dirty
        }),
{
    let know = s.ledger.observations;
    let first = OutlookView { fates: Map::empty(), dirty: s.journal.marks };
    assert forall|q: Seq<char>| #[trigger] tells(first, start, know, q) by {
        assert(start.dom().contains(q) || !start.dom().contains(q));
    }
    lemma_plans_tell(first, start, s.journal.pending, know);
    let second = all_meant(start, plans_of(s.journal.pending));
    lemma_window_tells(plans_seen(first, s.journal.pending), second, s.journal.window, know);
    let here = all_happened(second, ops_of(s.journal.window));
    assert(tells(seen(s), here, know, p));
}

proof fn lemma_new_plans(
    pending: Seq<Entry<Seq<char>>>,
    rows: Seq<(i64, Plan<Seq<char>>)>,
    now: Tick,
)
    requires
        is_numbered(pending),
        forall|i: int, j: int|
            #![trigger rows[i], rows[j]]
            0 <= i < j < rows.len() ==> rows[i].0 != rows[j].0,
    ensures
        is_numbered(put_all(pending, rows, now)),
        forall|k: int|
            #![trigger rows[k]]
            0 <= k < rows.len() ==> put_all(pending, rows, now).contains(
                (Entry { seq: rows[k].0, plan: rows[k].1, attempts: 0, due: now, running: false }),
            ),
        forall|k: int|
            #![trigger pending[k]]
            0 <= k < pending.len() && (forall|j: int|
                0 <= j < rows.len() ==> (#[trigger] rows[j]).0 != pending[k].seq) ==> put_all(
                pending,
                rows,
                now,
            ).contains(pending[k]),
    decreases rows.len(),
{
    if rows.len() > 0 {
        let front = rows.drop_last();
        let last = rows.last();
        let e = fresh(last.0, last.1, now);
        assert forall|i: int, j: int|
            #![trigger front[i], front[j]]
            0 <= i < j < front.len() implies front[i].0 != front[j].0 by {
            assert(rows[i].0 != rows[j].0);
        }
        lemma_new_plans(pending, front, now);
        let before = put_all(pending, front, now);
        crate::state::lemma_put(before, e);
        let after = put_all(pending, rows, now);
        assert(rows[rows.len() - 1] == last);
        assert forall|k: int| #![trigger rows[k]] 0 <= k < rows.len() implies after.contains(
            (Entry { seq: rows[k].0, plan: rows[k].1, attempts: 0, due: now, running: false }),
        ) by {
            if k < front.len() {
                assert(front[k] == rows[k]);
                assert(rows[k].0 != rows[rows.len() - 1].0);
                let x = Entry {
                    seq: rows[k].0,
                    plan: rows[k].1,
                    attempts: 0,
                    due: now,
                    running: false,
                };
                let i = choose|i: int| 0 <= i < before.len() && before[i] == x;
                assert(before[i].seq != e.seq);
            }
        }
        assert forall|k: int|
            #![trigger pending[k]]
            0 <= k < pending.len() && (forall|j: int|
                0 <= j < rows.len() ==> (#[trigger] rows[j]).0 != pending[k].seq) implies after.contains(
            pending[k],
        ) by {
            assert forall|j: int| 0 <= j < front.len() implies (#[trigger] front[j]).0
                != pending[k].seq by {
                assert(rows[j] == front[j]);
            }
            assert(before.contains(pending[k]));
            let i = choose|i: int| 0 <= i < before.len() && before[i] == pending[k];
            assert(rows[rows.len() - 1].0 != pending[k].seq);
            assert(before[i].seq != e.seq);
        }
    } else {
        assert forall|k: int| #![trigger pending[k]] 0 <= k < pending.len() implies put_all(
            pending,
            rows,
            now,
        ).contains(pending[k]) by {}
    }
}

/// Every new plan waits, under the number that it got: it is due at once, has not
/// failed yet and is not being replayed. The plans that waited still do, and what
/// happened is as it was.
pub proof fn law_new_plans_wait_with_the_others(
    s: StateView,
    rows: Seq<(i64, Plan<Seq<char>>)>,
    now: Tick,
    k: int,
)
    requires
        is_numbered(s.journal.pending),
        forall|i: int, j: int|
            #![trigger rows[i], rows[j]]
            0 <= i < j < rows.len() ==> rows[i].0 != rows[j].0,
    ensures
        ({
            let t = taken_in(s, rows, now);
            &&& 0 <= k < rows.len() ==> t.journal.pending.contains(
                (Entry { seq: rows[k].0, plan: rows[k].1, attempts: 0, due: now, running: false }),
            )
            &&& 0 <= k < s.journal.pending.len() && (forall|j: int|
                0 <= j < rows.len() ==> (#[trigger] rows[j]).0 != s.journal.pending[k].seq)
                ==> t.journal.pending.contains(s.journal.pending[k])
            &&& t.journal.window == s.journal.window
            &&& t.journal.marks == s.journal.marks
            &&& t.ledger.observations == s.ledger.observations
            &&& t.ledger.dirty == seen(t).dirty
        }),
{
    lemma_new_plans(s.journal.pending, rows, now);
}

/// Of all that is stored of the signature of a file, this is the last.
pub open spec fn is_signed(
    writes: Seq<Write<Seq<char>, Seq<u8>>>,
    p: Seq<char>,
    sig: Seq<u8>,
) -> bool {
    exists|i: int|
        0 <= i < writes.len() && #[trigger] writes[i] == Write::Sign(p, sig) && forall|j: int|
            i < j < writes.len() ==> !((#[trigger] writes[j]) is Sign) && !(writes[j] is MoveSigns)
                && !(writes[j] is Unsign) && !(writes[j] is UnsignWithin)
}

/// Of a file that was sent the signature is stored, under the name that it went to, so
/// that the next save can be a delta.
pub proof fn law_a_sent_file_is_signed(
    s: StateView,
    i: int,
    outcome: Outcome<Seq<char>, Seq<u8>>,
    now: Tick,
)
    requires
        is_numbered(s.journal.pending),
        0 <= i < s.journal.pending.len(),
        s.journal.pending[i].plan is Save,
    ensures
        ({
            let path = s.journal.pending[i].plan->Save_path;
            let writes = settled(s, s.journal.pending[i].seq, outcome, now).ledger.writes;
            &&& outcome matches Outcome::Saved { obs, sig, reedited } ==> (sig matches Some(b)
                ==> is_signed(writes, path, b))
            &&& outcome matches Outcome::Diverted { theirs, copy, obs, sig, reedited, conflict } ==> (
            sig matches Some(b) ==> is_signed(writes, copy, b))
        }),
{
    lemma_settled_at(s, i);
    let path = s.journal.pending[i].plan->Save_path;
    let writes = settled(s, s.journal.pending[i].seq, outcome, now).ledger.writes;
    let n = writes.len() as int;
    let (sig, name) = match outcome {
        Outcome::Saved { obs, sig, reedited } => (sig, path),
        Outcome::Diverted { theirs, copy, obs, sig, reedited, conflict } => (sig, copy),
        _ => (None, path),
    };
    if let Some(b) = sig {
        let w = Write::Sign(name, b);
        assert(writes[n - 2] == w || (writes[n - 3] == w && writes[n - 2] is Mark));
        assert(writes[n - 1] is Retire);
        if writes[n - 2] == w {
            assert(is_signed(writes, name, b));
        } else {
            assert(is_signed(writes, name, b));
        }
    }
}

/// How long things wait, in seconds: a quarter of one for quiet before folding, but
/// two at most, and five for a file that is still open; ten after the first failure of
/// a replay and five minutes at most; one for a busy path; five before an edit is
/// uploaded without a journal. A listing is good for five, or for two where it is to
/// be brief, and a refresh may take two minutes.
pub proof fn law_how_long_things_wait(second: Tick)
    requires
        second == 1_000_000_000,
    ensures
        4 * WINDOW_QUIET == second,
        WINDOW_MAX == 2 * second,
        OPEN_QUIET == 5 * second,
        RETRY == 10 * second,
        RETRY_CAP == 300 * second,
        BUSY_WAIT == second,
        crate::agenda::QUIET == 5 * second,
        crate::listing::META_TTL == 5 * second,
        crate::listing::BRIEF_TTL == 2 * second,
        crate::placeholder::STUCK == 120 * second,
{
}

} // verus!
