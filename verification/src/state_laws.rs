//! What holds of the journal in every state.
use crate::compact::{
    age, allowed_in, behind_held, compacted, drained, except, first_swept, folded, ignored_in,
    in_replay, is_blocked, must_wait, sifted, swept,
};
use crate::config::is_ignored;
use crate::journal::{coalesced, seeded};
use crate::model::{plans_overlap, Operation, Plan};
use crate::play::Outcome;
use crate::settle::{flagged, is_pick, learned, settled, with_pending};
use crate::state::{
    all_paths, fresh, is_marked, is_numbered, paths_of, place, plans_seen, put, recorded, refreshed,
    seen, without, Entry, OutlookView, StateView, Tick, OPEN_QUIET,
};
use vstd::prelude::*;

verus! {

/// No plan that is being replayed touches a plan before it.
pub open spec fn is_exclusive(pending: Seq<Entry<Seq<char>>>) -> bool {
    forall|j: int, k: int|
        #![trigger pending[j], pending[k]]
        0 <= j < k < pending.len() && pending[k].running ==> !plans_overlap(
            pending[j].plan,
            pending[k].plan,
        )
}

/// No two plans that are replayed at the same time touch.
pub proof fn law_replays_never_overlap(pending: Seq<Entry<Seq<char>>>, i: int, j: int)
    requires
        is_exclusive(pending),
        0 <= i < pending.len(),
        0 <= j < pending.len(),
        i != j,
        pending[i].running,
        pending[j].running,
    ensures
        !plans_overlap(pending[i].plan, pending[j].plan),
{
    crate::model::law_overlap_is_symmetric(pending[i].plan, pending[j].plan);
    if i < j {
        assert(!plans_overlap(pending[i].plan, pending[j].plan));
    } else {
        assert(!plans_overlap(pending[j].plan, pending[i].plan));
    }
}

/// Picking a plan keeps the replays apart.
pub proof fn law_a_pick_keeps_replays_apart(pending: Seq<Entry<Seq<char>>>, i: int, now: Tick)
    requires
        is_exclusive(pending),
        is_pick(pending, i, now),
    ensures
        is_exclusive(flagged(pending, i, true)),
{
    let after = flagged(pending, i, true);
    assert forall|j: int, k: int|
        #![trigger after[j], after[k]]
        0 <= j < k < after.len() && after[k].running implies !plans_overlap(
        after[j].plan,
        after[k].plan,
    ) by {
        assert(after[j].plan == pending[j].plan);
        assert(after[k].plan == pending[k].plan);
        if k == i {
            assert(!plans_overlap(pending[j].plan, pending[i].plan));
        } else {
            assert(!plans_overlap(pending[j].plan, pending[k].plan));
        }
    }
}

proof fn lemma_update_keeps_apart(
    pending: Seq<Entry<Seq<char>>>,
    i: int,
    e: Entry<Seq<char>>,
)
    requires
        is_exclusive(pending),
        0 <= i < pending.len(),
        e.plan == pending[i].plan,
        !e.running,
    ensures
        is_exclusive(pending.update(i, e)),
{
    let after = pending.update(i, e);
    assert forall|j: int, k: int|
        #![trigger after[j], after[k]]
        0 <= j < k < after.len() && after[k].running implies !plans_overlap(
        after[j].plan,
        after[k].plan,
    ) by {
        assert(after[j].plan == pending[j].plan);
        assert(!plans_overlap(pending[j].plan, pending[k].plan));
    }
}

proof fn lemma_remove_keeps_apart(pending: Seq<Entry<Seq<char>>>, i: int)
    requires
        is_exclusive(pending),
        0 <= i < pending.len(),
    ensures
        is_exclusive(pending.remove(i)),
{
    let after = pending.remove(i);
    assert forall|j: int, k: int|
        #![trigger after[j], after[k]]
        0 <= j < k < after.len() && after[k].running implies !plans_overlap(
        after[j].plan,
        after[k].plan,
    ) by {
        let a = if j < i {
            j
        } else {
            j + 1
        };
        let b = if k < i {
            k
        } else {
            k + 1
        };
        assert(!plans_overlap(pending[a].plan, pending[b].plan));
    }
}

proof fn lemma_learned_keeps_plans(
    s: StateView,
    plan: Plan<Seq<char>>,
    outcome: Outcome<Seq<char>, Seq<u8>>,
    now: Tick,
)
    ensures
        learned(s, plan, outcome, now).journal.pending == s.journal.pending,
{
}

/// What came of a replay keeps the other replays apart.
pub proof fn law_settling_keeps_replays_apart(
    s: StateView,
    seq: i64,
    outcome: Outcome<Seq<char>, Seq<u8>>,
    now: Tick,
)
    requires
        is_numbered(s.journal.pending),
        is_exclusive(s.journal.pending),
    ensures
        is_exclusive(settled(s, seq, outcome, now).journal.pending),
{
    let pending = s.journal.pending;
    let i = place(pending, seq);
    crate::state::lemma_place(pending, seq);
    if i >= 0 {
        let off = Entry { running: false, ..pending[i] };
        lemma_update_keeps_apart(pending, i, off);
        let t = with_pending(s, flagged(pending, i, false));
        let flag = t.journal.pending;
        assert(flag == pending.update(i, off));
        match outcome {
            Outcome::Busy => {
                let e = settled(s, seq, outcome, now).journal.pending[i];
                lemma_update_keeps_apart(flag, i, e);
            },
            Outcome::Failed => {
                let e = settled(s, seq, outcome, now).journal.pending[i];
                lemma_update_keeps_apart(flag, i, e);
            },
            _ => {
                lemma_learned_keeps_plans(t, flag[i].plan, outcome, now);
                crate::settle::lemma_flagged(pending, i, off);
                crate::state::lemma_without(flag, seq);
                crate::state::lemma_place(flag, seq);
                crate::state::lemma_place_is(flag, i);
                lemma_remove_keeps_apart(flag, i);
            },
        }
    }
}

/// Folding keeps the replays apart.
pub proof fn law_folding_keeps_replays_apart(
    pending: Seq<Entry<Seq<char>>>,
    seeds: Seq<(i64, Plan<Seq<char>>)>,
    paths: Seq<Seq<char>>,
)
    requires
        is_exclusive(pending),
    ensures
        is_exclusive(swept(pending, seeds, paths).0),
    decreases pending.len(),
{
    let i = first_swept(pending, seeds, paths);
    if 0 <= i < pending.len() {
        lemma_remove_keeps_apart(pending, i);
        law_folding_keeps_replays_apart(
            pending.remove(i),
            seeds.push((pending[i].seq, pending[i].plan)),
            paths,
        );
    }
}

/// Folding never touches a plan that is being replayed: it stays as it is.
pub proof fn law_folding_spares_replays(
    pending: Seq<Entry<Seq<char>>>,
    seeds: Seq<(i64, Plan<Seq<char>>)>,
    paths: Seq<Seq<char>>,
    e: Entry<Seq<char>>,
)
    requires
        pending.contains(e),
        e.running,
    ensures
        swept(pending, seeds, paths).0.contains(e),
    decreases pending.len(),
{
    let i = first_swept(pending, seeds, paths);
    if 0 <= i < pending.len() {
        crate::compact::lemma_first_swept(pending, seeds, paths);
        let k = choose|k: int| 0 <= k < pending.len() && pending[k] == e;
        let rest = pending.remove(i);
        if k < i {
            assert(rest[k] == e);
        } else {
            assert(k != i);
            assert(rest[k - 1] == e);
        }
        law_folding_spares_replays(
            rest,
            seeds.push((pending[i].seq, pending[i].plan)),
            paths,
            e,
        );
    }
}

/// New plans keep the replays apart, as long as their numbers follow all others.
pub proof fn law_new_plans_keep_replays_apart(
    pending: Seq<Entry<Seq<char>>>,
    seq: i64,
    plan: Plan<Seq<char>>,
    now: Tick,
)
    requires
        is_exclusive(pending),
        forall|i: int| #![trigger pending[i]] 0 <= i < pending.len() ==> pending[i].seq < seq,
    ensures
        is_exclusive(put(pending, fresh(seq, plan, now))),
        put(pending, fresh(seq, plan, now)) == pending.push(fresh(seq, plan, now)),
{
    let e = fresh(seq, plan, now);
    if pending.len() > 0 {
        assert(pending[pending.len() - 1].seq < seq);
    }
    let after = put(pending, e);
    assert(after =~= pending.push(e));
    assert forall|j: int, k: int|
        #![trigger after[j], after[k]]
        0 <= j < k < after.len() && after[k].running implies !plans_overlap(
        after[j].plan,
        after[k].plan,
    ) by {
        assert(!plans_overlap(pending[j].plan, pending[k].plan));
    }
}

/// A plan that failed, or that met a busy path, is still owed: the same plans
/// are there under the same numbers, and the ledger is as it was.
pub proof fn law_a_failure_keeps_the_debt(s: StateView, seq: i64, now: Tick, failed: bool)
    ensures
        ({
            let outcome = if failed {
                Outcome::<Seq<char>, Seq<u8>>::Failed
            } else {
                Outcome::<Seq<char>, Seq<u8>>::Busy
            };
            let after = settled(s, seq, outcome, now);
            &&& after.ledger == s.ledger
            &&& after.journal.window == s.journal.window
            &&& after.journal.marks == s.journal.marks
            &&& after.journal.pending.len() == s.journal.pending.len()
            &&& forall|i: int|
                #![trigger after.journal.pending[i]]
                0 <= i < s.journal.pending.len() ==> after.journal.pending[i].plan
                    == s.journal.pending[i].plan && after.journal.pending[i].seq
                    == s.journal.pending[i].seq
        }),
{
    crate::state::lemma_place(s.journal.pending, seq);
}

/// Whatever else came of a plan, it is struck off, here and on disk, and no
/// other plan is touched.
pub proof fn law_a_settled_plan_is_struck_off(
    s: StateView,
    seq: i64,
    outcome: Outcome<Seq<char>, Seq<u8>>,
    now: Tick,
)
    requires
        is_numbered(s.journal.pending),
        place(s.journal.pending, seq) >= 0,
        outcome !is Busy,
        outcome !is Failed,
    ensures
        settled(s, seq, outcome, now).journal.pending == without(s.journal.pending, seq),
        place(settled(s, seq, outcome, now).journal.pending, seq) < 0,
        settled(s, seq, outcome, now).ledger.writes.last() == crate::ledger::Write::<
            Seq<char>,
            Seq<u8>,
        >::Retire(seq),
{
    let pending = s.journal.pending;
    let i = place(pending, seq);
    crate::state::lemma_place(pending, seq);
    let off = Entry { running: false, ..pending[i] };
    let t = with_pending(s, flagged(pending, i, false));
    let flag = t.journal.pending;
    crate::settle::lemma_flagged(pending, i, off);
    lemma_learned_keeps_plans(t, flag[i].plan, outcome, now);
    crate::state::lemma_without(flag, seq);
    crate::state::lemma_without(pending, seq);
    crate::state::lemma_place_is(flag, i);
    assert(flag.remove(i) =~= pending.remove(i));
    let rest = pending.remove(i);
    crate::state::lemma_place(rest, seq);
    if place(rest, seq) >= 0 {
        let k = place(rest, seq);
        if k < i {
            assert(pending[k].seq < pending[i].seq);
        } else {
            assert(pending[i].seq < pending[k + 1].seq);
        }
    }
}

proof fn lemma_nothing_waits(
    s: StateView,
    window: Seq<(Tick, Operation<Seq<char>>)>,
    empty: Set<Seq<char>>,
    now: Tick,
)
    requires
        forall|i: int|
            #![trigger s.journal.pending[i]]
            0 <= i < s.journal.pending.len() ==> !s.journal.pending[i].running,
    ensures
        sifted(s, window, true, empty, now).0.len() == 0,
        sifted(s, window, true, empty, now).1.len() == window.len(),
    decreases window.len(),
{
    if window.len() > 0 {
        lemma_nothing_waits(s, window.drop_last(), empty, now);
        let held = sifted(s, window.drop_last(), true, empty, now).0;
        let item = window.last();
        assert(!is_blocked(s, held, true, empty, now, item)) by {
            assert forall|k: int| 0 <= k < paths_of(item.1).len() implies !must_wait(
                s,
                held,
                true,
                empty,
                age(now, item.0),
                #[trigger] paths_of(item.1)[k],
            ) by {
                let p = paths_of(item.1)[k];
                assert(!in_replay(s.journal.pending, p));
                assert(!behind_held(held, p));
            }
        }
    }
}

/// Asked to fold while nothing is being replayed, the journal folds all that
/// happened: nothing is left in the window.
pub proof fn law_a_flush_folds_everything(
    s: StateView,
    names: Set<Seq<char>>,
    empty: Set<Seq<char>>,
    now: Tick,
)
    requires
        forall|i: int|
            #![trigger s.journal.pending[i]]
            0 <= i < s.journal.pending.len() ==> !s.journal.pending[i].running,
    ensures
        compacted(s, true, names, empty, now).journal.window.len() == 0,
{
    lemma_nothing_waits(s, s.journal.window, empty, now);
}

/// The operation names `p`.
pub open spec fn names(op: Operation<Seq<char>>, p: Seq<char>) -> bool {
    paths_of(op).contains(p)
}

proof fn lemma_open_file_is_held(
    s: StateView,
    window: Seq<(Tick, Operation<Seq<char>>)>,
    empty: Set<Seq<char>>,
    now: Tick,
    p: Seq<char>,
)
    requires
        s.journal.writing.dom().contains(p),
        forall|i: int|
            #![trigger window[i]]
            0 <= i < window.len() && names(window[i].1, p) ==> age(now, window[i].0) < OPEN_QUIET,
    ensures
        forall|i: int|
            #![trigger sifted(s, window, false, empty, now).1[i]]
            0 <= i < sifted(s, window, false, empty, now).1.len() ==> !names(
                sifted(s, window, false, empty, now).1[i],
                p,
            ),
    decreases window.len(),
{
    if window.len() > 0 {
        let front = window.drop_last();
        assert forall|i: int|
            #![trigger front[i]]
            0 <= i < front.len() && names(front[i].1, p) implies age(now, front[i].0) < OPEN_QUIET by {
            assert(front[i] == window[i]);
        }
        lemma_open_file_is_held(s, front, empty, now, p);
        let (held, before) = sifted(s, front, false, empty, now);
        let item = window.last();
        let after = sifted(s, window, false, empty, now).1;
        assert(item == window[window.len() - 1]);
        if names(item.1, p) {
            let k = choose|k: int| 0 <= k < paths_of(item.1).len() && paths_of(item.1)[k] == p;
            assert(must_wait(s, held, false, empty, age(now, item.0), paths_of(item.1)[k]));
            assert(is_blocked(s, held, false, empty, now, item));
        }
        assert forall|i: int| #![trigger after[i]] 0 <= i < after.len() implies !names(after[i], p) by {
            if i < before.len() {
                assert(after[i] == before[i]);
            }
        }
    }
}

/// Nothing of a file that is open for writing is folded while its operations
/// are recent.
pub proof fn law_a_file_open_for_writing_is_held(
    s: StateView,
    empty: Set<Seq<char>>,
    now: Tick,
    p: Seq<char>,
)
    requires
        s.journal.writing.dom().contains(p),
        forall|i: int|
            #![trigger s.journal.window[i]]
            0 <= i < s.journal.window.len() && names(s.journal.window[i].1, p) ==> age(
                now,
                s.journal.window[i].0,
            ) < OPEN_QUIET,
    ensures
        forall|i: int|
            #![trigger drained(s, false, empty, now)[i]]
            0 <= i < drained(s, false, empty, now).len() ==> !names(
                drained(s, false, empty, now)[i],
                p,
            ),
{
    lemma_open_file_is_held(s, s.journal.window, empty, now, p);
}

proof fn lemma_except(paths: Seq<Seq<char>>, kept: Seq<Seq<char>>, p: Seq<char>)
    requires
        kept.contains(p),
    ensures
        !except(paths, kept).contains(p),
    decreases paths.len(),
{
    if paths.len() > 0 {
        lemma_except(paths.drop_last(), kept, p);
        let before = except(paths.drop_last(), kept);
        let after = except(paths, kept);
        if after.contains(p) {
            let i = choose|i: int| 0 <= i < after.len() && after[i] == p;
            if i < before.len() {
                assert(before[i] == p);
            }
        }
    }
}

/// An ignored file stays local: folding makes no save of it.
pub proof fn law_ignored_files_are_never_saved(
    plans: Seq<Plan<Seq<char>>>,
    names: Set<Seq<char>>,
)
    ensures
        forall|i: int|
            #![trigger allowed_in(plans, names)[i]]
            0 <= i < allowed_in(plans, names).len() ==> (allowed_in(plans, names)[i] matches Plan::Save {
                path,
                replaces,
                reuses,
            } ==> !is_ignored(names, path)),
    decreases plans.len(),
{
    if plans.len() > 0 {
        law_ignored_files_are_never_saved(plans.drop_last(), names);
        let before = allowed_in(plans.drop_last(), names);
        let after = allowed_in(plans, names);
        assert forall|i: int| #![trigger after[i]] 0 <= i < after.len() implies (after[i] matches Plan::Save {
            path,
            replaces,
            reuses,
        } ==> !is_ignored(names, path)) by {
            if i < before.len() {
                assert(after[i] == before[i]);
            }
        }
    }
}

/// An ignored file whose save is left out keeps its mark, so that it is still
/// known to hold edits.
pub proof fn law_ignored_files_keep_their_mark(
    s: StateView,
    force: bool,
    names: Set<Seq<char>>,
    empty: Set<Seq<char>>,
    now: Tick,
    p: Seq<char>,
)
    requires
        s.journal.marks.contains(p),
        ({
            let ops = drained(s, force, empty, now);
            let seeds = swept(s.journal.pending, Seq::empty(), all_paths(ops)).1;
            ignored_in(
                coalesced(
                    seeded(crate::compact::unnumbered(seeds)),
                    ops,
                    s.ledger.observations,
                ),
                names,
            ).contains(p)
        }),
    ensures
        compacted(s, force, names, empty, now).journal.marks.contains(p),
{
    let ops = drained(s, force, empty, now);
    let seeds = swept(s.journal.pending, Seq::empty(), all_paths(ops)).1;
    let kept = ignored_in(
        coalesced(seeded(crate::compact::unnumbered(seeds)), ops, s.ledger.observations),
        names,
    );
    lemma_except(all_paths(ops), kept, p);
}

proof fn lemma_plans_seen_dirty(v: OutlookView, pending: Seq<Entry<Seq<char>>>, p: Seq<char>)
    ensures
        plans_seen(v, pending).dirty.contains(p) <==> v.dirty.contains(p) || is_saved(pending, p),
    decreases pending.len(),
{
    if pending.len() > 0 {
        let front = pending.drop_last();
        lemma_plans_seen_dirty(v, front, p);
        let last = pending.last();
        if is_saved(pending, p) {
            let i = choose|i: int|
                0 <= i < pending.len() && saves((#[trigger] pending[i]).plan, p);
            if i < front.len() {
                assert(saves(front[i].plan, p));
            }
        }
        if is_saved(front, p) {
            let i = choose|i: int| 0 <= i < front.len() && saves((#[trigger] front[i]).plan, p);
            assert(saves(pending[i].plan, p));
        }
        assert(pending[pending.len() - 1] == last);
    }
}

/// The plan is a save of `p`.
pub open spec fn saves(plan: Plan<Seq<char>>, p: Seq<char>) -> bool {
    plan matches Plan::Save { path, replaces, reuses } && path == p
}

/// One of the plans is a save of `p`.
pub open spec fn is_saved(pending: Seq<Entry<Seq<char>>>, p: Seq<char>) -> bool {
    exists|i: int| 0 <= i < pending.len() && saves((#[trigger] pending[i]).plan, p)
}

/// Once everything is folded, exactly the files that are marked or that are
/// still to be saved are known to hold edits: a save that is owed is never
/// forgotten.
pub proof fn law_an_owed_save_is_dirty(s: StateView, p: Seq<char>)
    requires
        s.journal.window.len() == 0,
    ensures
        refreshed(s).ledger.dirty.contains(p) <==> s.journal.marks.contains(p) || is_saved(
            s.journal.pending,
            p,
        ),
{
    let start = OutlookView { fates: Map::empty(), dirty: s.journal.marks };
    lemma_plans_seen_dirty(start, s.journal.pending, p);
}

/// Whatever is written is known to hold edits from that moment on, and is
/// marked on disk.
pub proof fn law_a_write_is_dirty_at_once(s: StateView, p: Seq<char>, now: Tick)
    requires
        s.journal.window.len() > 0 ==> s.journal.window.last().1 != Operation::Write(p),
    ensures
        recorded(s, Operation::Write(p), now).ledger.dirty.contains(p),
        recorded(s, Operation::Write(p), now).journal.marks.contains(p),
        !is_marked(s.journal, p) ==> recorded(s, Operation::Write(p), now).ledger.writes
            == s.ledger.writes.push(crate::ledger::Write::<Seq<char>, Seq<u8>>::Mark(p)),
        seen(recorded(s, Operation::Write(p), now)).dirty.contains(p),
{
    let t = recorded(s, Operation::Write(p), now);
    assert(t.journal.window.drop_last() =~= s.journal.window);
}

/// An edit that was noticed while its file was being sent is not lost: the file,
/// or its copy if it became one, is known to hold edits, and is sent again.
pub proof fn law_an_edit_during_a_replay_is_kept(
    s: StateView,
    seq: i64,
    outcome: Outcome<Seq<char>, Seq<u8>>,
    now: Tick,
)
    requires
        place(s.journal.pending, seq) >= 0,
    ensures
        ({
            let plan = s.journal.pending[place(s.journal.pending, seq)].plan;
            let after = settled(s, seq, outcome, now);
            &&& outcome matches Outcome::Saved { obs, sig, reedited } ==> reedited ==> (
            plan matches Plan::Save { path, .. } ==> after.ledger.dirty.contains(path)
                && after.journal.window.last().1 == Operation::Write(path))
            &&& outcome matches Outcome::Diverted { theirs, copy, obs, sig, reedited, conflict }
                ==> reedited ==> after.ledger.dirty.contains(copy)
                && after.journal.window.last().1 == Operation::Write(copy)
        }),
{
    let i = place(s.journal.pending, seq);
    crate::state::lemma_place(s.journal.pending, seq);
    let t = with_pending(s, flagged(s.journal.pending, i, false));
    let u = learned(t, t.journal.pending[i].plan, outcome, now);
}

} // verus!
