//! What is promised of the journal as things happen, are folded, replayed and
//! settled.
use crate::compact::{
    age, allowed_in, behind_held, compacted, drained, except, first_swept, folded, ignored_in,
    in_replay, is_blocked, is_ripe, is_swept, must_wait, names_akin, plan_met, plan_named, sifted,
    swept, unnumbered,
};
use crate::config::is_ignored;
use crate::fold_laws::{
    agree, all_can_happen, all_can_wait, all_carried_out, all_happened, all_meant, is_named,
    is_orderly, is_overlooked, law_the_plans_bring_about_what_is_here, remote, Stuff,
};
use crate::journal::{coalesced, played, renames_of, seeded};
use crate::journal_laws::named;
use crate::model::{
    akin, plan_paths, plan_touches, plans_overlap, Fate, Observation, Operation, Plan,
};
use crate::path::below;
use crate::settle::{is_pick, is_runnable};
use crate::state::{
    all_paths, paths_of, plans_seen, recorded, seen, window_seen, Entry, OutlookView, StateView,
    Tick, OPEN_QUIET, WINDOW_MAX, WINDOW_QUIET,
};
use vstd::prelude::*;

verus! {

/// Everything that happens is noted, with its time, after all that happened before.
/// The same once more only moves the time of the last. Plans and open files are as
/// they were.
pub proof fn law_everything_that_happens_is_noted(
    s: StateView,
    op: Operation<Seq<char>>,
    now: Tick,
)
    ensures
        ({
            let before = s.journal.window;
            let after = recorded(s, op, now).journal.window;
            let again = before.len() > 0 && before.last().1 == op;
            &&& after.len() == before.len() + if again {
                0int
            } else {
                1int
            }
            &&& after.last() == (now, op)
            &&& forall|i: int|
                0 <= i < after.len() - 1 ==> #[trigger] after[i] == before[i]
        }),
        recorded(s, op, now).journal.pending == s.journal.pending,
        recorded(s, op, now).journal.writing == s.journal.writing,
        recorded(s, op, now).ledger.observations == s.ledger.observations,
        recorded(s, op, now).ledger.pins == s.ledger.pins,
{
}

/// The files that hold edits follow what happens: what is made or written holds
/// edits, edits move with their file and go with it, and nothing else changes.
pub proof fn law_edits_follow_what_happens(
    s: StateView,
    op: Operation<Seq<char>>,
    now: Tick,
    x: Seq<char>,
)
    requires
        s.journal.window.len() > 0 ==> s.journal.window.last().1 != op,
    ensures
        ({
            let before = s.ledger.dirty;
            let after = recorded(s, op, now).ledger.dirty;
            match op {
                Operation::Create(p) => after.contains(x) <==> before.contains(x) || x == p,
                Operation::Write(p) => after.contains(x) <==> before.contains(x) || x == p,
                Operation::Rename(a, b) => if before.contains(a) {
                    after.contains(x) <==> x == b || (before.contains(x) && x != a)
                } else {
                    after.contains(x) <==> before.contains(x)
                },
                Operation::Delete(p) => after.contains(x) <==> before.contains(x) && x != p,
            }
        }),
{
}

/// What happened is folded only once it is quiet: as long as something happens
/// time and again it waits, but not for ever; and whoever asks for it need not
/// wait.
pub proof fn law_folding_waits_until_it_is_quiet(
    s: StateView,
    op: Operation<Seq<char>>,
    at: Tick,
    now: Tick,
)
    requires
        at <= now,
    ensures
        ({
            let t = recorded(s, op, at);
            let first = t.journal.window[0].0;
            &&& is_ripe(t, true, now)
            &&& now - at >= WINDOW_QUIET ==> is_ripe(t, false, now)
            &&& first <= now && now - first >= WINDOW_MAX ==> is_ripe(t, false, now)
            &&& now - at < WINDOW_QUIET && now - first < WINDOW_MAX ==> !is_ripe(t, false, now)
        }),
        s.journal.window.len() == 0 ==> !is_ripe(s, true, now) && !is_ripe(s, false, now),
{
}

/// The plan speaks of the path: it is to be saved, moved, removed or moved to, or
/// what it holds is used.
pub open spec fn speaks_of(plan: Plan<Seq<char>>, p: Seq<char>) -> bool {
    match plan {
        Plan::Save { path, replaces, reuses } => p == path || reuses == Some(p),
        Plan::Move { from, to, moves } => p == from || p == to,
        Plan::Remove { path, removes } => p == path,
    }
}

/// The two paths are the same, or one lies below the other.
pub open spec fn are_related(p: Seq<char>, q: Seq<char>) -> bool {
    p == q || below(p, q) || below(q, p)
}

proof fn lemma_named(op: Operation<Seq<char>>, p: Seq<char>)
    ensures
        named(op, p) <==> exists|j: int| 0 <= j < paths_of(op).len() && #[trigger] paths_of(op)[j] == p,
{
    let v = paths_of(op);
    match op {
        Operation::Create(q) => assert(v[0] == q),
        Operation::Write(q) => assert(v[0] == q),
        Operation::Delete(q) => assert(v[0] == q),
        Operation::Rename(a, b) => {
            assert(v[0] == a);
            assert(v[1] == b);
        },
    }
}

proof fn lemma_speaks(plan: Plan<Seq<char>>, p: Seq<char>)
    ensures
        speaks_of(plan, p) <==> exists|j: int|
            0 <= j < plan_paths(plan).len() && #[trigger] plan_paths(plan)[j] == p,
{
    let v = plan_paths(plan);
    match plan {
        Plan::Save { path, replaces, reuses } => {
            assert(v[0] == path);
            if let Some(x) = reuses {
                assert(v[1] == x);
            }
        },
        Plan::Move { from, to, moves } => {
            assert(v[0] == from);
            assert(v[1] == to);
        },
        Plan::Remove { path, removes } => assert(v[0] == path),
    }
}

/// Two plans are in each other's way where they speak of the same path, or of two
/// of which one lies below the other; and so are a plan and a path.
pub proof fn law_what_is_in_the_way(a: Plan<Seq<char>>, b: Plan<Seq<char>>, p: Seq<char>)
    ensures
        plan_touches(a, p) <==> exists|x: Seq<char>| #[trigger] speaks_of(a, x) && are_related(p, x),
        plans_overlap(a, b) <==> exists|x: Seq<char>, y: Seq<char>| #[trigger]
            speaks_of(a, x) && #[trigger] speaks_of(b, y) && are_related(y, x),
{
    lemma_touches(a, p);
    if plans_overlap(a, b) {
        let i = choose|i: int| 0 <= i < plan_paths(b).len() && plan_touches(a, #[trigger] plan_paths(b)[i]);
        let y = plan_paths(b)[i];
        lemma_touches(a, y);
        lemma_speaks(b, y);
        let x = choose|x: Seq<char>| #[trigger] speaks_of(a, x) && are_related(y, x);
        assert(speaks_of(a, x) && speaks_of(b, y));
    }
    if exists|x: Seq<char>, y: Seq<char>| #[trigger]
        speaks_of(a, x) && #[trigger] speaks_of(b, y) && are_related(y, x) {
        let (x, y) = choose|x: Seq<char>, y: Seq<char>| #[trigger]
            speaks_of(a, x) && #[trigger] speaks_of(b, y) && are_related(y, x);
        lemma_touches(a, y);
        lemma_speaks(b, y);
        let i = choose|j: int| 0 <= j < plan_paths(b).len() && #[trigger] plan_paths(b)[j] == y;
        assert(plan_touches(a, plan_paths(b)[i]));
    }
}

proof fn lemma_touches(a: Plan<Seq<char>>, p: Seq<char>)
    ensures
        plan_touches(a, p) <==> exists|x: Seq<char>| #[trigger] speaks_of(a, x) && are_related(p, x),
{
    if plan_touches(a, p) {
        let i = choose|i: int| 0 <= i < plan_paths(a).len() && akin(p, #[trigger] plan_paths(a)[i]);
        let x = plan_paths(a)[i];
        lemma_speaks(a, x);
        assert(speaks_of(a, x) && are_related(p, x));
    }
    if exists|x: Seq<char>| #[trigger] speaks_of(a, x) && are_related(p, x) {
        let x = choose|x: Seq<char>| #[trigger] speaks_of(a, x) && are_related(p, x);
        lemma_speaks(a, x);
        let i = choose|j: int| 0 <= j < plan_paths(a).len() && #[trigger] plan_paths(a)[j] == x;
        assert(akin(p, plan_paths(a)[i]));
    }
}

/// Why something that happened to a path so long ago has to wait.
pub open spec fn has_reason(
    s: StateView,
    held: Seq<(Tick, Operation<Seq<char>>)>,
    force: bool,
    empty: Set<Seq<char>>,
    old: int,
    p: Seq<char>,
) -> bool {
    // A plan that is being replayed is in the way.
    ||| exists|i: int, q: Seq<char>|
        0 <= i < s.journal.pending.len() && s.journal.pending[i].running && #[trigger] speaks_of(
            s.journal.pending[i].plan,
            q,
        ) && are_related(p, q)
    // Something that waits itself is in the way.
    ||| exists|i: int, q: Seq<char>|
        0 <= i < held.len() && #[trigger] named(held[i].1, q) && are_related(p, q)
    // A program is still writing the file.
    ||| !force && old < OPEN_QUIET && s.journal.writing.dom().contains(p)
    // The file has just been emptied, to be written anew.
    ||| !force && old < WINDOW_MAX && empty.contains(p) && s.ledger.observations.dom().contains(p)
        && s.ledger.observations[p].size > 0
}

proof fn lemma_reason(
    s: StateView,
    held: Seq<(Tick, Operation<Seq<char>>)>,
    force: bool,
    empty: Set<Seq<char>>,
    old: int,
    p: Seq<char>,
)
    ensures
        has_reason(s, held, force, empty, old, p) <==> must_wait(s, held, force, empty, old, p),
{
    let pending = s.journal.pending;
    if in_replay(pending, p) {
        let i = choose|i: int|
            0 <= i < pending.len() && (#[trigger] pending[i]).running && plan_touches(pending[i].plan, p);
        lemma_touches(pending[i].plan, p);
        let q = choose|x: Seq<char>| #[trigger] speaks_of(pending[i].plan, x) && are_related(p, x);
        assert(speaks_of(pending[i].plan, q));
    }
    if exists|i: int, q: Seq<char>|
        0 <= i < pending.len() && pending[i].running && #[trigger] speaks_of(pending[i].plan, q)
            && are_related(p, q) {
        let (i, q) = choose|i: int, q: Seq<char>|
            0 <= i < pending.len() && pending[i].running && #[trigger] speaks_of(pending[i].plan, q)
                && are_related(p, q);
        lemma_touches(pending[i].plan, p);
        assert(in_replay(pending, p));
    }
    if behind_held(held, p) {
        let i = choose|i: int| 0 <= i < held.len() && names_akin((#[trigger] held[i]).1, p);
        let op = held[i].1;
        let j = choose|j: int| 0 <= j < paths_of(op).len() && akin(p, #[trigger] paths_of(op)[j]);
        let q = paths_of(op)[j];
        lemma_named(op, q);
        assert(named(held[i].1, q));
    }
    if exists|i: int, q: Seq<char>|
        0 <= i < held.len() && #[trigger] named(held[i].1, q) && are_related(p, q) {
        let (i, q) = choose|i: int, q: Seq<char>|
            0 <= i < held.len() && #[trigger] named(held[i].1, q) && are_related(p, q);
        let op = held[i].1;
        lemma_named(op, q);
        let j = choose|j: int| 0 <= j < paths_of(op).len() && #[trigger] paths_of(op)[j] == q;
        assert(akin(p, paths_of(op)[j]));
        assert(names_akin(held[i].1, p));
        assert(behind_held(held, p));
    }
}

/// Whatever happened last either waits, behind all that waits already, or is folded,
/// after all that is folded; it waits where one of its paths has a reason to. So
/// nothing is lost, nothing changes its order, and nothing overtakes what happened
/// to the same path before it.
pub proof fn law_what_waits_and_what_is_folded(
    s: StateView,
    window: Seq<(Tick, Operation<Seq<char>>)>,
    item: (Tick, Operation<Seq<char>>),
    force: bool,
    empty: Set<Seq<char>>,
    now: Tick,
)
    ensures
        ({
            let (held, folded) = sifted(s, window, force, empty, now);
            let (now_held, now_folded) = sifted(s, window.push(item), force, empty, now);
            let old = if item.0 <= now {
                now - item.0
            } else {
                0
            };
            if exists|p: Seq<char>| #[trigger]
                named(item.1, p) && has_reason(s, held, force, empty, old, p) {
                now_held == held.push(item) && now_folded == folded
            } else {
                now_held == held && now_folded == folded.push(item.1)
            }
        }),
        sifted(s, Seq::empty(), force, empty, now).0.len() == 0,
        sifted(s, Seq::empty(), force, empty, now).1.len() == 0,
{
    let all = window.push(item);
    assert(all.drop_last() =~= window);
    let held = sifted(s, window, force, empty, now).0;
    let old = age(now, item.0);
    if is_blocked(s, held, force, empty, now, item) {
        let k = choose|k: int|
            0 <= k < paths_of(item.1).len() && must_wait(
                s,
                held,
                force,
                empty,
                old,
                #[trigger] paths_of(item.1)[k],
            );
        let p = paths_of(item.1)[k];
        lemma_named(item.1, p);
        lemma_reason(s, held, force, empty, old, p);
        assert(named(item.1, p) && has_reason(s, held, force, empty, old, p));
    } else if exists|p: Seq<char>| #[trigger]
        named(item.1, p) && has_reason(s, held, force, empty, old, p) {
        let p = choose|p: Seq<char>| #[trigger]
            named(item.1, p) && has_reason(s, held, force, empty, old, p);
        lemma_named(item.1, p);
        lemma_reason(s, held, force, empty, old, p);
        let k = choose|j: int| 0 <= j < paths_of(item.1).len() && #[trigger] paths_of(item.1)[j] == p;
        assert(must_wait(s, held, force, empty, old, paths_of(item.1)[k]));
    }
}

/// A plan may be replayed once it is due, is not being replayed, and no plan that
/// was made before it is in its way.
pub proof fn law_when_a_plan_may_be_replayed(pending: Seq<Entry<Seq<char>>>, i: int, now: Tick)
    requires
        0 <= i < pending.len(),
    ensures
        is_runnable(pending, i, now) <==> !pending[i].running && now >= pending[i].due && !exists|
            j: int,
            x: Seq<char>,
            y: Seq<char>,
        |
            0 <= j < i && #[trigger] speaks_of(pending[j].plan, x) && #[trigger] speaks_of(
                pending[i].plan,
                y,
            ) && are_related(y, x),
{
    let e = pending[i];
    if exists|j: int, x: Seq<char>, y: Seq<char>|
        0 <= j < i && #[trigger] speaks_of(pending[j].plan, x) && #[trigger] speaks_of(
            pending[i].plan,
            y,
        ) && are_related(y, x) {
        let (j, x, y) = choose|j: int, x: Seq<char>, y: Seq<char>|
            0 <= j < i && #[trigger] speaks_of(pending[j].plan, x) && #[trigger] speaks_of(
                pending[i].plan,
                y,
            ) && are_related(y, x);
        law_what_is_in_the_way(pending[j].plan, e.plan, y);
        assert(plans_overlap(pending[j].plan, e.plan));
    } else {
        assert forall|j: int| 0 <= j < i implies !plans_overlap((#[trigger] pending[j]).plan, e.plan) by {
            law_what_is_in_the_way(pending[j].plan, e.plan, Seq::empty());
        }
    }
}

/// Of the plans that may be replayed the oldest is taken.
pub proof fn law_the_oldest_plan_is_taken(
    pending: Seq<Entry<Seq<char>>>,
    i: int,
    j: int,
    now: Tick,
)
    requires
        is_pick(pending, i, now),
        0 <= j < pending.len(),
        is_runnable(pending, j, now),
    ensures
        i <= j,
        is_runnable(pending, i, now),
{
}

/// A plan is made anew with the others where one of the paths, or one of the plans
/// that are made anew, is in its way; a plan that is being replayed is not.
pub open spec fn is_due_anew(
    e: Entry<Seq<char>>,
    seeds: Seq<(i64, Plan<Seq<char>>)>,
    paths: Seq<Seq<char>>,
) -> bool {
    !e.running && {
        ||| exists|k: int, x: Seq<char>|
            0 <= k < paths.len() && #[trigger] speaks_of(e.plan, x) && are_related(
                #[trigger] paths[k],
                x,
            )
        ||| exists|k: int, x: Seq<char>, y: Seq<char>|
            0 <= k < seeds.len() && #[trigger] speaks_of(seeds[k].1, x) && #[trigger] speaks_of(
                e.plan,
                y,
            ) && are_related(y, x)
    }
}

proof fn lemma_due_anew(
    e: Entry<Seq<char>>,
    seeds: Seq<(i64, Plan<Seq<char>>)>,
    paths: Seq<Seq<char>>,
)
    ensures
        is_due_anew(e, seeds, paths) <==> is_swept(e, seeds, paths),
{
    if plan_named(e.plan, paths) {
        let k = choose|k: int| 0 <= k < paths.len() && plan_touches(e.plan, #[trigger] paths[k]);
        lemma_touches(e.plan, paths[k]);
        let x = choose|x: Seq<char>| #[trigger] speaks_of(e.plan, x) && are_related(paths[k], x);
        assert(speaks_of(e.plan, x) && are_related(paths[k], x));
    }
    if plan_met(e.plan, seeds) {
        let k = choose|k: int| 0 <= k < seeds.len() && plans_overlap((#[trigger] seeds[k]).1, e.plan);
        law_what_is_in_the_way(seeds[k].1, e.plan, Seq::empty());
        let (x, y) = choose|x: Seq<char>, y: Seq<char>| #[trigger]
            speaks_of(seeds[k].1, x) && #[trigger] speaks_of(e.plan, y) && are_related(y, x);
        assert(speaks_of(seeds[k].1, x) && speaks_of(e.plan, y));
    }
    if exists|k: int, x: Seq<char>|
        0 <= k < paths.len() && #[trigger] speaks_of(e.plan, x) && are_related(#[trigger] paths[k], x) {
        let (k, x) = choose|k: int, x: Seq<char>|
            0 <= k < paths.len() && #[trigger] speaks_of(e.plan, x) && are_related(
                #[trigger] paths[k],
                x,
            );
        lemma_touches(e.plan, paths[k]);
        assert(plan_named(e.plan, paths));
    }
    if exists|k: int, x: Seq<char>, y: Seq<char>|
        0 <= k < seeds.len() && #[trigger] speaks_of(seeds[k].1, x) && #[trigger] speaks_of(e.plan, y)
            && are_related(y, x) {
        let (k, x, y) = choose|k: int, x: Seq<char>, y: Seq<char>|
            0 <= k < seeds.len() && #[trigger] speaks_of(seeds[k].1, x) && #[trigger] speaks_of(
                e.plan,
                y,
            ) && are_related(y, x);
        law_what_is_in_the_way(seeds[k].1, e.plan, y);
        assert(plan_met(e.plan, seeds));
    }
}

proof fn lemma_first(
    pending: Seq<Entry<Seq<char>>>,
    seeds: Seq<(i64, Plan<Seq<char>>)>,
    paths: Seq<Seq<char>>,
)
    ensures
        ({
            let i = first_swept(pending, seeds, paths);
            &&& -1 <= i < pending.len()
            &&& i >= 0 ==> is_swept(pending[i], seeds, paths)
            &&& i < 0 ==> forall|k: int|
                0 <= k < pending.len() ==> !is_swept(#[trigger] pending[k], seeds, paths)
        }),
    decreases pending.len(),
{
    if pending.len() > 0 {
        let front = pending.drop_last();
        lemma_first(front, seeds, paths);
        if first_swept(pending, seeds, paths) < 0 {
            assert forall|k: int| 0 <= k < pending.len() implies !is_swept(
                #[trigger] pending[k],
                seeds,
                paths,
            ) by {
                if k < front.len() {
                    assert(front[k] == pending[k]);
                }
            }
        }
    }
}

/// Of the plans that wait, those go together that are in the way of the paths or of
/// each other. Every plan either stays or goes; of those that stay none is in the
/// way unless it is being replayed; and each that goes is in the way of the paths,
/// or of one that goes before it.
pub proof fn law_which_plans_are_made_anew(
    pending: Seq<Entry<Seq<char>>>,
    seeds: Seq<(i64, Plan<Seq<char>>)>,
    paths: Seq<Seq<char>>,
)
    ensures
        ({
            let (stay, go) = swept(pending, seeds, paths);
            &&& seeds.len() <= go.len()
            &&& go.take(seeds.len() as int) == seeds
            &&& stay.len() + go.len() == pending.len() + seeds.len()
            &&& forall|k: int|
                0 <= k < pending.len() ==> stay.contains(#[trigger] pending[k]) || go.contains(
                    (pending[k].seq, pending[k].plan),
                )
            &&& forall|k: int|
                #![trigger stay[k]]
                0 <= k < stay.len() ==> pending.contains(stay[k]) && !is_due_anew(
                    stay[k],
                    go,
                    paths,
                )
            &&& forall|k: int|
                #![trigger go[k]]
                seeds.len() <= k < go.len() ==> exists|e: Entry<Seq<char>>|
                    #![trigger pending.contains(e)]
                    pending.contains(e) && go[k] == (e.seq, e.plan) && is_due_anew(
                        e,
                        go.take(k),
                        paths,
                    )
        }),
    decreases pending.len(),
{
    let i = first_swept(pending, seeds, paths);
    lemma_first(pending, seeds, paths);
    let (stay, go) = swept(pending, seeds, paths);
    if 0 <= i < pending.len() {
        let e = pending[i];
        let rest = pending.remove(i);
        let more = seeds.push((e.seq, e.plan));
        law_which_plans_are_made_anew(rest, more, paths);
        assert(go.take(seeds.len() as int) =~= go.take(more.len() as int).take(seeds.len() as int));
        assert(more.take(seeds.len() as int) =~= seeds);
        assert(go.take(more.len() as int)[seeds.len() as int] == go[seeds.len() as int]);
        assert(go[seeds.len() as int] == (e.seq, e.plan));
        assert forall|k: int| 0 <= k < pending.len() implies stay.contains(#[trigger] pending[k])
            || go.contains((pending[k].seq, pending[k].plan)) by {
            if k < i {
                assert(rest[k] == pending[k]);
            } else if k > i {
                assert(rest[k - 1] == pending[k]);
            }
        }
        assert forall|x: Entry<Seq<char>>| #[trigger] rest.contains(x) implies pending.contains(x) by {
            let k = choose|k: int| 0 <= k < rest.len() && rest[k] == x;
            assert(pending[if k < i {
                k
            } else {
                k + 1
            }] == x);
        }
        assert forall|k: int|
            #![trigger go[k]]
            seeds.len() <= k < go.len() implies exists|e: Entry<Seq<char>>|
            #![trigger pending.contains(e)]
            pending.contains(e) && go[k] == (e.seq, e.plan) && is_due_anew(e, go.take(k), paths) by {
            if k == seeds.len() {
                lemma_due_anew(e, seeds, paths);
                assert(pending.contains(e));
            } else {
                let d = choose|d: Entry<Seq<char>>|
                    #![trigger rest.contains(d)]
                    rest.contains(d) && go[k] == (d.seq, d.plan) && is_due_anew(d, go.take(k), paths);
                assert(pending.contains(d));
            }
        }
    } else {
        assert(go.take(seeds.len() as int) =~= seeds);
        assert forall|k: int|
            #![trigger stay[k]]
            0 <= k < stay.len() implies pending.contains(stay[k]) && !is_due_anew(stay[k], go, paths) by {
            lemma_due_anew(pending[k], seeds, paths);
        }
    }
}

/// Plans are left out only where they save a file that is ignored; the others are
/// made, in their order.
pub proof fn law_only_saves_of_ignored_files_are_left_out(
    plans: Seq<Plan<Seq<char>>>,
    plan: Plan<Seq<char>>,
    names: Set<Seq<char>>,
)
    ensures
        ({
            let left_out = plan is Save && is_ignored(names, plan->Save_path);
            &&& allowed_in(plans.push(plan), names) == if left_out {
                allowed_in(plans, names)
            } else {
                allowed_in(plans, names).push(plan)
            }
            &&& ignored_in(plans.push(plan), names) == if left_out {
                ignored_in(plans, names).push(plan->Save_path)
            } else {
                ignored_in(plans, names)
            }
        }),
        allowed_in(Seq::empty(), names).len() == 0,
        ignored_in(Seq::empty(), names).len() == 0,
{
    assert(plans.push(plan).drop_last() =~= plans);
}

/// The marks on disk that are taken away are those of the paths that are not kept.
pub proof fn law_which_marks_are_taken_away(paths: Seq<Seq<char>>, kept: Seq<Seq<char>>, p: Seq<char>)
    ensures
        except(paths, kept).contains(p) <==> paths.contains(p) && !kept.contains(p),
    decreases paths.len(),
{
    if paths.len() > 0 {
        let front = paths.drop_last();
        law_which_marks_are_taken_away(front, kept, p);
        if paths.contains(p) {
            let i = choose|i: int| 0 <= i < paths.len() && paths[i] == p;
            if i < front.len() {
                assert(front[i] == p);
            }
        }
        if front.contains(p) {
            let i = choose|i: int| 0 <= i < front.len() && front[i] == p;
            assert(paths[i] == p);
        }
        let before = except(front, kept);
        let after = before.push(paths.last());
        if before.contains(p) {
            let i = choose|i: int| 0 <= i < before.len() && before[i] == p;
            assert(after[i] == p);
        }
        assert(after[before.len() as int] == paths.last());
        assert(paths[paths.len() - 1] == paths.last());
        if after.contains(p) {
            let i = choose|i: int| 0 <= i < after.len() && after[i] == p;
            if i < before.len() {
                assert(before[i] == p);
            }
        }
    }
}

/// Folding takes from the window what need not wait, and from the plans those that it
/// is in the way of; both are made into new plans, and nothing else is touched. Where
/// nothing is ripe, or all has to wait, nothing changes.
pub proof fn law_what_folding_changes(
    s: StateView,
    force: bool,
    names: Set<Seq<char>>,
    empty: Set<Seq<char>>,
    now: Tick,
    k: int,
)
    ensures
        ({
            let (held, ops) = sifted(s, s.journal.window, force, empty, now);
            let (stay, go) = swept(s.journal.pending, Seq::empty(), all_paths(ops));
            let t = compacted(s, force, names, empty, now);
            let swap = folded(s, force, names, empty, now);
            let fold = is_ripe(s, force, now) && ops.len() > 0;
            &&& !fold ==> t == s && drained(s, force, empty, now).len() == 0
            &&& fold ==> {
                &&& drained(s, force, empty, now) == ops
                &&& t.journal.window == held
                &&& t.journal.pending == stay
                &&& swap.retired.len() == go.len()
                &&& 0 <= k < go.len() ==> swap.retired[k] == go[k].0
                &&& swap.made == allowed_in(
                    coalesced(
                        seeded(Seq::new(go.len(), |i: int| go[i].1)),
                        ops,
                        s.ledger.observations,
                    ),
                    names,
                )
            }
            &&& t.journal.writing == s.journal.writing
            &&& t.ledger == s.ledger
        }),
{
    let ops = sifted(s, s.journal.window, force, empty, now).1;
    let go = swept(s.journal.pending, Seq::empty(), all_paths(ops)).1;
    assert(unnumbered(go) =~= Seq::new(go.len(), |i: int| go[i].1));
}

proof fn lemma_nothing_left_out(plans: Seq<Plan<Seq<char>>>)
    ensures
        allowed_in(plans, Set::empty()) == plans,
    decreases plans.len(),
{
    if plans.len() > 0 {
        lemma_nothing_left_out(plans.drop_last());
        assert(plans.drop_last().push(plans.last()) =~= plans);
    } else {
        assert(plans =~= Seq::empty());
    }
}

/// What folding is for: where no name is ignored, the plans that are made bring about
/// on the server what has come of the plans that they replace and of what was folded.
pub proof fn law_folding_brings_about_what_happened(
    s: StateView,
    force: bool,
    empty: Set<Seq<char>>,
    now: Tick,
    files: Map<Seq<char>, Stuff>,
    p: Seq<char>,
)
    requires
        is_ripe(s, force, now),
        ({
            let ops = sifted(s, s.journal.window, force, empty, now).1;
            let go = swept(s.journal.pending, Seq::empty(), all_paths(ops)).1;
            let plans = Seq::new(go.len(), |i: int| go[i].1);
            let know = s.ledger.observations;
            let slate = played(seeded(plans), ops, know);
            &&& ops.len() > 0
            &&& forall|q: Seq<char>|
                #![trigger files.dom().contains(q)]
                if know.dom().contains(q) {
                    files.dom().contains(q) && files[q] == Stuff::Server(q)
                } else {
                    files.dom().contains(q) ==> files[q] == Stuff::Local(None)
                }
            &&& all_can_wait(files, plans, know)
            &&& all_can_happen(all_meant(files, plans), ops)
            &&& is_orderly(renames_of(slate.origs, slate.content), know)
            &&& !is_overlooked(slate, know, p)
        }),
    ensures
        ({
            let ops = sifted(s, s.journal.window, force, empty, now).1;
            let go = swept(s.journal.pending, Seq::empty(), all_paths(ops)).1;
            let plans = Seq::new(go.len(), |i: int| go[i].1);
            let know = s.ledger.observations;
            let here = all_happened(all_meant(files, plans), ops);
            let there = all_carried_out(
                remote(know),
                here,
                folded(s, force, Set::empty(), empty, now).made,
            );
            if is_named(plans, ops, p) {
                agree(there, here, p)
            } else {
                agree(there, remote(know), p)
            }
        }),
{
    let ops = sifted(s, s.journal.window, force, empty, now).1;
    let go = swept(s.journal.pending, Seq::empty(), all_paths(ops)).1;
    let plans = Seq::new(go.len(), |i: int| go[i].1);
    let know = s.ledger.observations;
    law_what_folding_changes(s, force, Set::empty(), empty, now, 0);
    lemma_nothing_left_out(coalesced(seeded(plans), ops, know));
    law_the_plans_bring_about_what_is_here(plans, ops, know, files, p);
}

/// What is to become of a file follows what happens to it. What is made or written is
/// here with its edits, and no longer gone or from elsewhere. What is removed is gone.
/// What is renamed is gone from its place, and is at its new one what it was, with its
/// edits. Other files stay what they were.
pub proof fn law_what_happened_last_counts(
    s: StateView,
    op: Operation<Seq<char>>,
    now: Tick,
    q: Seq<char>,
)
    requires
        s.journal.window.len() > 0 ==> s.journal.window.last().1 != op,
    ensures
        ({
            let before = seen(s);
            let after = seen(recorded(s, op, now));
            &&& op is Create || op is Write ==> {
                let p = if op is Create {
                    op->Create_0
                } else {
                    op->Write_0
                };
                &&& !after.fates.dom().contains(p)
                &&& after.dirty.contains(p)
            }
            &&& op matches Operation::Delete(p) ==> {
                &&& after.fates.dom().contains(p) && after.fates[p] is Gone
                &&& !after.dirty.contains(p)
            }
            &&& op matches Operation::Rename(a, b) ==> a != b ==> {
                &&& after.fates.dom().contains(a) && after.fates[a] is Gone
                &&& before.fates.dom().contains(a) && before.fates[a] is Arrived ==> after.fates.dom().contains(
                    b,
                ) && after.fates[b] == before.fates[a]
                &&& !before.fates.dom().contains(a) && s.ledger.observations.dom().contains(a)
                    ==> after.fates.dom().contains(b) && after.fates[b] == (Fate::Arrived {
                    from: a,
                    was: s.ledger.observations[a],
                })
            }
            &&& !named(op, q) ==> {
                &&& after.fates.dom().contains(q) == before.fates.dom().contains(q)
                &&& before.fates.dom().contains(q) ==> after.fates[q] == before.fates[q]
            }
        }),
{
    let t = recorded(s, op, now);
    assert(t.journal.window.drop_last() =~= s.journal.window);
    let know = s.ledger.observations;
    let first = OutlookView { fates: Map::empty(), dirty: s.journal.marks };
    let second = OutlookView { fates: Map::empty(), dirty: t.journal.marks };
    lemma_fates_of_plans(first, second, s.journal.pending);
    lemma_fates_of_window(
        plans_seen(first, s.journal.pending),
        plans_seen(second, s.journal.pending),
        s.journal.window,
        know,
    );
}

proof fn lemma_fates_of_plans(a: OutlookView, b: OutlookView, pending: Seq<Entry<Seq<char>>>)
    requires
        a.fates == b.fates,
    ensures
        plans_seen(a, pending).fates == plans_seen(b, pending).fates,
    decreases pending.len(),
{
    if pending.len() > 0 {
        lemma_fates_of_plans(a, b, pending.drop_last());
    }
}

proof fn lemma_fates_of_window(
    a: OutlookView,
    b: OutlookView,
    window: Seq<(Tick, Operation<Seq<char>>)>,
    know: Map<Seq<char>, Observation>,
)
    requires
        a.fates == b.fates,
    ensures
        window_seen(a, window, know).fates == window_seen(b, window, know).fates,
    decreases window.len(),
{
    if window.len() > 0 {
        lemma_fates_of_window(a, b, window.drop_last(), know);
    }
}

} // verus!
