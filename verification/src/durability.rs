//! What is still there after a crash.
use crate::compact::{compacted, drained, first_swept, folded, numbers, swept, taken_in};
use crate::ledger::{
    carry_observations, observed, select, transferred, unobserved, with_write, LedgerView, Write,
};
use crate::ledger_laws::{lemma_one_more, stored, stored_all, StoreView};
use crate::model::{Observation, Operation, Plan};
use crate::path::normal;
use crate::play::Outcome;
use crate::rows::{edits_in, entry_of, marks_in, plans_in, Found, JournalRow};
use crate::settle::{
    flagged, learned, maybe_observed, maybe_signed, retired, settled, with_ledger, with_pending,
};
use crate::state::{
    all_paths, fresh, is_numbered, is_marked, opened, place, put, put_all, recorded, with_mark, without, Entry, StateView,
    Tick,
};
use vstd::prelude::*;

verus! {

/// The plans by their numbers.
pub open spec fn plan_map(pending: Seq<Entry<Seq<char>>>) -> Map<i64, Plan<Seq<char>>> {
    Map::new(|n: i64| place(pending, n) >= 0, |n: i64| pending[place(pending, n)].plan)
}

/// What is on disk, once the changes are stored, is what is in memory: every
/// mark and every plan.
pub open spec fn is_durable(base: StoreView, s: StateView) -> bool {
    &&& stored_all(base, s.ledger.writes).marks == s.journal.marks.union(s.journal.trail)
    &&& stored_all(base, s.ledger.writes).plans == plan_map(s.journal.pending)
}

proof fn lemma_plan_map_of_put(pending: Seq<Entry<Seq<char>>>, e: Entry<Seq<char>>)
    requires
        is_numbered(pending),
    ensures
        plan_map(put(pending, e)) == plan_map(pending).insert(e.seq, e.plan),
{
    let after = put(pending, e);
    crate::state::lemma_put(pending, e);
    let want = plan_map(pending).insert(e.seq, e.plan);
    assert forall|n: i64| plan_map(after).dom().contains(n) == want.dom().contains(n) by {
        crate::state::lemma_place(after, n);
        crate::state::lemma_place(pending, n);
        if place(after, n) >= 0 && n != e.seq {
            let k = place(after, n);
            assert(after[k] == e || pending.contains(after[k]));
            let j = choose|j: int| 0 <= j < pending.len() && pending[j] == after[k];
            assert(pending[j].seq == n);
        }
        if place(pending, n) >= 0 && n != e.seq {
            let j = place(pending, n);
            assert(after.contains(pending[j]));
            let k = choose|k: int| 0 <= k < after.len() && after[k] == pending[j];
            assert(after[k].seq == n);
        }
        if n == e.seq {
            let k = choose|k: int| 0 <= k < after.len() && after[k] == e;
            assert(after[k].seq == n);
        }
    }
    assert forall|n: i64| plan_map(after).dom().contains(n) implies plan_map(after)[n] == want[n] by {
        crate::state::lemma_place(after, n);
        let k = place(after, n);
        if n == e.seq {
            let m = choose|m: int| 0 <= m < after.len() && after[m] == e;
            crate::state::lemma_place_is(after, m);
        } else {
            assert(after[k] == e || pending.contains(after[k]));
            let j = choose|j: int| 0 <= j < pending.len() && pending[j] == after[k];
            crate::state::lemma_place_is(pending, j);
        }
    }
    assert(plan_map(after) =~= want);
}

proof fn lemma_plan_map_of_remove(pending: Seq<Entry<Seq<char>>>, i: int)
    requires
        is_numbered(pending),
        0 <= i < pending.len(),
    ensures
        plan_map(pending.remove(i)) == plan_map(pending).remove(pending[i].seq),
        is_numbered(pending.remove(i)),
{
    let after = pending.remove(i);
    crate::state::lemma_place_is(pending, i);
    crate::state::lemma_without(pending, pending[i].seq);
    let want = plan_map(pending).remove(pending[i].seq);
    assert forall|n: i64| plan_map(after).dom().contains(n) == want.dom().contains(n) by {
        crate::state::lemma_place(after, n);
        crate::state::lemma_place(pending, n);
        if place(after, n) >= 0 {
            let k = place(after, n);
            let j = if k < i {
                k
            } else {
                k + 1
            };
            assert(pending[j].seq == n);
            crate::state::lemma_place_is(pending, j);
        }
        if place(pending, n) >= 0 && n != pending[i].seq {
            let j = place(pending, n);
            let k = if j < i {
                j
            } else {
                j - 1
            };
            assert(after[k].seq == n);
        }
    }
    assert forall|n: i64| plan_map(after).dom().contains(n) implies plan_map(after)[n] == want[n] by {
        crate::state::lemma_place(after, n);
        let k = place(after, n);
        let j = if k < i {
            k
        } else {
            k + 1
        };
        assert(pending[j] == after[k]);
        crate::state::lemma_place_is(pending, j);
    }
    assert(plan_map(after) =~= want);
}

proof fn lemma_plan_map_of_without(pending: Seq<Entry<Seq<char>>>, seq: i64)
    requires
        is_numbered(pending),
    ensures
        plan_map(without(pending, seq)) == plan_map(pending).remove(seq),
{
    crate::state::lemma_without(pending, seq);
    crate::state::lemma_place(pending, seq);
    if place(pending, seq) >= 0 {
        lemma_plan_map_of_remove(pending, place(pending, seq));
    } else {
        assert(plan_map(pending).remove(seq) =~= plan_map(pending));
    }
}

proof fn lemma_plan_map_of_update(pending: Seq<Entry<Seq<char>>>, i: int, e: Entry<Seq<char>>)
    requires
        is_numbered(pending),
        0 <= i < pending.len(),
        e.seq == pending[i].seq,
        e.plan == pending[i].plan,
    ensures
        plan_map(pending.update(i, e)) == plan_map(pending),
{
    let after = pending.update(i, e);
    crate::settle::lemma_flagged(pending, i, e);
    assert forall|n: i64| place(after, n) == place(pending, n) by {
        crate::state::lemma_place(after, n);
        crate::state::lemma_place(pending, n);
        if place(after, n) >= 0 {
            let k = place(after, n);
            assert(pending[k].seq == n);
            crate::state::lemma_place_is(pending, k);
        } else if place(pending, n) >= 0 {
            let k = place(pending, n);
            assert(after[k].seq == n);
        }
    }
    assert forall|n: i64| plan_map(after).dom().contains(n) implies plan_map(after)[n] == plan_map(
        pending,
    )[n] by {
        crate::state::lemma_place(pending, n);
    }
    assert(plan_map(after) =~= plan_map(pending));
}

/// Every edit is on disk as soon as it is recorded.
pub proof fn law_recording_is_durable(
    base: StoreView,
    s: StateView,
    op: Operation<Seq<char>>,
    now: Tick,
)
    requires
        is_durable(base, s),
    ensures
        is_durable(base, recorded(s, op, now)),
{
    match op {
        Operation::Create(p) => {
            lemma_marked(base, s, p);
        },
        Operation::Write(p) => {
            lemma_marked(base, s, p);
        },
        Operation::Rename(a, b) => {
            lemma_marked(base, s, b);
        },
        Operation::Delete(p) => {},
    }
}

proof fn lemma_marked(base: StoreView, s: StateView, p: Seq<char>)
    requires
        is_durable(base, s),
    ensures
        stored_all(base, with_mark(s, p).writes).marks == s.journal.marks.insert(p).union(
            s.journal.trail,
        ),
        stored_all(base, with_mark(s, p).writes).marks == s.journal.marks.union(
            s.journal.trail.insert(p),
        ),
        stored_all(base, with_mark(s, p).writes).plans == stored_all(base, s.ledger.writes).plans,
{
    lemma_one_more(base, s.ledger, Write::Mark(p));
    let all = s.journal.marks.union(s.journal.trail);
    assert(s.journal.marks.insert(p).union(s.journal.trail) =~= all.insert(p));
    assert(s.journal.marks.union(s.journal.trail.insert(p)) =~= all.insert(p));
    assert(is_marked(s.journal, p) ==> all.insert(p) =~= all);
}

/// An edit is on disk under the name that its file has got: from the moment that
/// a file with edits is renamed, its new name is marked.
pub proof fn law_a_renamed_edit_is_marked(
    base: StoreView,
    s: StateView,
    from: Seq<char>,
    to: Seq<char>,
    now: Tick,
)
    requires
        is_durable(base, s),
        s.ledger.dirty.contains(from),
        s.journal.window.len() > 0 ==> s.journal.window.last().1 != Operation::Rename(from, to),
    ensures
        ({
            let after = recorded(s, Operation::Rename(from, to), now);
            &&& after.ledger.dirty.contains(to)
            &&& is_marked(after.journal, to)
            &&& stored_all(base, after.ledger.writes).marks.contains(to)
        }),
{
    law_recording_is_durable(base, s, Operation::Rename(from, to), now);
}

/// What is on disk after a swap: marks go, plans go, and plans come under their
/// numbers, all at once.
pub open spec fn swapped(
    d: StoreView,
    unmark: Seq<Seq<char>>,
    gone: Seq<i64>,
    rows: Seq<(i64, Plan<Seq<char>>)>,
) -> StoreView {
    StoreView {
        marks: d.marks.difference(unmark.to_set()),
        plans: all_inserted(all_removed(d.plans, gone), rows),
        ..d
    }
}

/// The plans without those of the given numbers.
pub open spec fn all_removed(
    plans: Map<i64, Plan<Seq<char>>>,
    gone: Seq<i64>,
) -> Map<i64, Plan<Seq<char>>>
    decreases gone.len(),
{
    if gone.len() == 0 {
        plans
    } else {
        all_removed(plans, gone.drop_last()).remove(gone.last())
    }
}

/// The plans with more of them.
pub open spec fn all_inserted(
    plans: Map<i64, Plan<Seq<char>>>,
    rows: Seq<(i64, Plan<Seq<char>>)>,
) -> Map<i64, Plan<Seq<char>>>
    decreases rows.len(),
{
    if rows.len() == 0 {
        plans
    } else {
        all_inserted(plans, rows.drop_last()).insert(rows.last().0, rows.last().1)
    }
}

proof fn lemma_swept_plans(
    base: Map<i64, Plan<Seq<char>>>,
    pending: Seq<Entry<Seq<char>>>,
    seeds: Seq<(i64, Plan<Seq<char>>)>,
    paths: Seq<Seq<char>>,
)
    requires
        is_numbered(pending),
        plan_map(pending) == all_removed(base, numbers(seeds)),
    ensures
        plan_map(swept(pending, seeds, paths).0) == all_removed(
            base,
            numbers(swept(pending, seeds, paths).1),
        ),
        is_numbered(swept(pending, seeds, paths).0),
    decreases pending.len(),
{
    let i = first_swept(pending, seeds, paths);
    if 0 <= i < pending.len() {
        lemma_plan_map_of_remove(pending, i);
        let more = seeds.push((pending[i].seq, pending[i].plan));
        assert(numbers(more).drop_last() =~= numbers(seeds));
        assert(numbers(more).last() == pending[i].seq);
        lemma_swept_plans(base, pending.remove(i), more, paths);
    }
}

proof fn lemma_put_all_plans(
    pending: Seq<Entry<Seq<char>>>,
    rows: Seq<(i64, Plan<Seq<char>>)>,
    now: Tick,
)
    requires
        is_numbered(pending),
    ensures
        plan_map(put_all(pending, rows, now)) == all_inserted(plan_map(pending), rows),
        is_numbered(put_all(pending, rows, now)),
    decreases rows.len(),
{
    if rows.len() > 0 {
        lemma_put_all_plans(pending, rows.drop_last(), now);
        let e = fresh(rows.last().0, rows.last().1, now);
        lemma_plan_map_of_put(put_all(pending, rows.drop_last(), now), e);
        crate::state::lemma_put(put_all(pending, rows.drop_last(), now), e);
    }
}

/// Folding is durable: once the changes are stored and the swap is made, what
/// is on disk is again what is in memory. Nothing is lost between the two, as
/// the swap happens all at once.
pub proof fn law_folding_is_durable(
    base: StoreView,
    s: StateView,
    force: bool,
    names: Set<Seq<char>>,
    empty: Set<Seq<char>>,
    now: Tick,
    rows: Seq<(i64, Plan<Seq<char>>)>,
)
    requires
        is_numbered(s.journal.pending),
        is_durable(base, s),
        drained(s, force, empty, now).len() > 0,
    ensures
        ({
            let swap = folded(s, force, names, empty, now);
            let disk = swapped(
                stored_all(base, s.ledger.writes),
                swap.unmark,
                swap.retired,
                rows,
            );
            let c = compacted(s, force, names, empty, now);
            let emptied = StateView {
                ledger: LedgerView { writes: Seq::empty(), ..c.ledger },
                ..c
            };
            is_durable(disk, taken_in(emptied, rows, now))
        }),
{
    let ops = drained(s, force, empty, now);
    let none = Seq::<(i64, Plan<Seq<char>>)>::empty();
    assert(numbers(none) =~= Seq::<i64>::empty());
    lemma_swept_plans(plan_map(s.journal.pending), s.journal.pending, none, all_paths(ops));
    let left = swept(s.journal.pending, none, all_paths(ops)).0;
    lemma_put_all_plans(left, rows, now);
    let gone = folded(s, force, names, empty, now).unmark.to_set();
    assert(s.journal.marks.union(s.journal.trail).difference(gone) =~= s.journal.marks.difference(
        gone,
    ).union(s.journal.trail.difference(gone)));
}

proof fn lemma_store_of_observed(base: StoreView, l: LedgerView, p: Seq<char>, o: Observation)
    ensures
        stored_all(base, observed(l, p, o).writes).marks == stored_all(base, l.writes).marks,
        stored_all(base, observed(l, p, o).writes).plans == stored_all(base, l.writes).plans,
{
    lemma_one_more(base, l, Write::Observe(p, o));
}

proof fn lemma_store_of_signed(base: StoreView, l: LedgerView, p: Seq<char>, sig: Seq<u8>)
    ensures
        stored_all(base, with_write(l, Write::Sign(p, sig)).writes) == stored_all(base, l.writes),
{
    lemma_one_more(base, l, Write::Sign(p, sig));
}

proof fn lemma_retired_is_durable(base: StoreView, s: StateView, seq: i64)
    requires
        is_numbered(s.journal.pending),
        is_durable(base, s),
    ensures
        is_durable(base, retired(s, seq)),
{
    lemma_one_more(base, s.ledger, Write::Retire(seq));
    lemma_plan_map_of_without(s.journal.pending, seq);
}

proof fn lemma_store_of_transferred(
    base: StoreView,
    l: LedgerView,
    from: Seq<char>,
    to: Seq<char>,
)
    ensures
        stored_all(base, transferred(l, from, to).writes).marks == stored_all(base, l.writes).marks,
        stored_all(base, transferred(l, from, to).writes).plans == stored_all(base, l.writes).plans,
{
    lemma_one_more(base, l, Write::UnsignWithin(to));
    let a1 = with_write(l, Write::UnsignWithin(to));
    lemma_one_more(base, a1, Write::MoveSigns(from, to));
    let a = with_write(a1, Write::MoveSigns(from, to));
    lemma_carried_store(base, a, select(crate::table::walk(a.observations), from), from, to);
}

proof fn lemma_carried_store(
    base: StoreView,
    l: LedgerView,
    paths: Seq<Seq<char>>,
    from: Seq<char>,
    to: Seq<char>,
)
    ensures
        stored_all(base, carry_observations(l, paths, from, to).writes).marks == stored_all(
            base,
            l.writes,
        ).marks,
        stored_all(base, carry_observations(l, paths, from, to).writes).plans == stored_all(
            base,
            l.writes,
        ).plans,
    decreases paths.len(),
{
    if paths.len() > 0 {
        lemma_carried_store(base, l, paths.drop_last(), from, to);
        let before = carry_observations(l, paths.drop_last(), from, to);
        let p = paths.last();
        lemma_one_more(base, before, Write::Unobserve(p));
        let mid = with_write(before, Write::Unobserve(p));
        lemma_one_more(
            base,
            mid,
            Write::Observe(crate::path::rebased(p, from, to), before.observations[p]),
        );
    }
}

/// What comes of a replay is durable. In particular, an edit that is made while
/// its file is being removed or moved on the server keeps its mark.
pub proof fn law_settling_is_durable(
    base: StoreView,
    s: StateView,
    seq: i64,
    outcome: Outcome<Seq<char>, Seq<u8>>,
    now: Tick,
)
    requires
        is_numbered(s.journal.pending),
        is_durable(base, s),
    ensures
        is_durable(base, settled(s, seq, outcome, now)),
{
    let pending = s.journal.pending;
    let i = place(pending, seq);
    crate::state::lemma_place(pending, seq);
    if i >= 0 {
        let off = Entry { running: false, ..pending[i] };
        lemma_plan_map_of_update(pending, i, off);
        crate::settle::lemma_flagged(pending, i, off);
        let t = with_pending(s, flagged(pending, i, false));
        let flag = t.journal.pending;
        let plan = flag[i].plan;
        assert(is_durable(base, t));
        match outcome {
            Outcome::Busy => {
                lemma_plan_map_of_update(
                    flag,
                    i,
                    settled(s, seq, outcome, now).journal.pending[i],
                );
            },
            Outcome::Failed => {
                lemma_plan_map_of_update(
                    flag,
                    i,
                    settled(s, seq, outcome, now).journal.pending[i],
                );
            },
            _ => {
                lemma_learned_is_durable(base, t, plan, outcome, now);
                lemma_retired_is_durable(base, learned(t, plan, outcome, now), seq);
            },
        }
    }
}

proof fn lemma_saved_is_durable(
    base: StoreView,
    t: StateView,
    path: Seq<char>,
    obs: Option<Observation>,
    sig: Option<Seq<u8>>,
)
    requires
        is_durable(base, t),
    ensures
        is_durable(
            base,
            with_ledger(t, maybe_signed(maybe_observed(t.ledger, path, obs), path, sig)),
        ),
{
    match obs {
        Some(o) => {
            lemma_store_of_observed(base, t.ledger, path, o);
        },
        None => {},
    }
    match sig {
        Some(b) => {
            lemma_store_of_signed(base, maybe_observed(t.ledger, path, obs), path, b);
        },
        None => {},
    }
}

proof fn lemma_learned_is_durable(
    base: StoreView,
    t: StateView,
    plan: Plan<Seq<char>>,
    outcome: Outcome<Seq<char>, Seq<u8>>,
    now: Tick,
)
    requires
        is_numbered(t.journal.pending),
        is_durable(base, t),
    ensures
        is_durable(base, learned(t, plan, outcome, now)),
        learned(t, plan, outcome, now).journal.pending == t.journal.pending,
{
    match outcome {
        Outcome::Saved { obs, sig, reedited } => {
            match plan {
                Plan::Save { path, replaces, reuses } => {
                    lemma_saved_is_durable(base, t, path, obs, sig);
                    let u = with_ledger(
                        t,
                        maybe_signed(maybe_observed(t.ledger, path, obs), path, sig),
                    );
                    law_recording_is_durable(base, u, Operation::Write(path), now);
                },
                _ => {},
            }
        },
        Outcome::Diverted { theirs, copy, obs, sig, reedited, conflict } => {
            let l = match plan {
                Plan::Save { path, replaces, reuses } => {
                    lemma_saved_is_durable(base, t, path, theirs, None);
                    maybe_observed(t.ledger, path, theirs)
                },
                _ => t.ledger,
            };
            let u = with_ledger(t, l);
            lemma_saved_is_durable(base, u, copy, obs, sig);
            let w = with_ledger(t, maybe_signed(maybe_observed(l, copy, obs), copy, sig));
            law_recording_is_durable(base, w, Operation::Write(copy), now);
        },
        Outcome::Moved => {
            match plan {
                Plan::Move { from, to, moves } => {
                    lemma_store_of_transferred(base, t.ledger, from, to);
                },
                _ => {},
            }
        },
        Outcome::MoveLost { theirs, resurrect, conflict } => {
            let u = match plan {
                Plan::Move { from, to, moves } => {
                    match theirs {
                        Some(o) => {
                            lemma_store_of_observed(base, t.ledger, from, o);
                        },
                        None => {
                            lemma_one_more(base, t.ledger, Write::Unobserve(from));
                            lemma_one_more(base, t.ledger, Write::Unsign(from));
                            let l = with_write(
                                LedgerView {
                                    observations: t.ledger.observations.remove(from),
                                    ..t.ledger
                                },
                                Write::Unobserve(from),
                            );
                            lemma_one_more(base, l, Write::Unsign(from));
                        },
                    }
                    with_ledger(
                        t,
                        match theirs {
                            Some(o) => observed(t.ledger, from, o),
                            None => unobserved(t.ledger, from),
                        },
                    )
                },
                _ => t,
            };
            assert(is_durable(base, u));
            match resurrect {
                Some(to) => {
                    law_recording_is_durable(base, u, Operation::Write(to), now);
                },
                None => {},
            }
        },
        Outcome::Removed => {
            match plan {
                Plan::Remove { path, removes } => {
                    lemma_one_more(base, t.ledger, Write::UnobserveWithin(path));
                    let f = with_write(t.ledger, Write::UnobserveWithin(path));
                    lemma_one_more(base, f, Write::UnsignWithin(path));
                },
                _ => {},
            }
        },
        Outcome::RemoveLost { theirs, conflict } => {
            match plan {
                Plan::Remove { path, removes } => {
                    lemma_store_of_observed(base, t.ledger, path, theirs);
                },
                _ => {},
            }
        },
        Outcome::Busy => {},
        Outcome::Failed => {},
    }
}

/// The rows of the journal are in the order of their numbers, each number once.
pub open spec fn is_table(rows: Seq<JournalRow<Seq<char>>>) -> bool {
    forall|i: int, j: int|
        #![trigger rows[i], rows[j]]
        0 <= i < j < rows.len() ==> rows[i].seq < rows[j].seq
}

proof fn lemma_numbers_of_plans(rows: Seq<JournalRow<Seq<char>>>, n: int)
    requires
        is_table(rows),
        0 <= n < plans_in(rows).len(),
    ensures
        exists|i: int|
            0 <= i < rows.len() && (#[trigger] rows[i]).seq == plans_in(rows)[n].0 && entry_of(rows[i])
                == Found::Plan(plans_in(rows)[n].1),
    decreases rows.len(),
{
    let front = rows.drop_last();
    let before = plans_in(front);
    assert(is_table(front)) by {
        assert forall|i: int, j: int| #![trigger front[i], front[j]] 0 <= i < j < front.len() implies front[i].seq
            < front[j].seq by {
            assert(rows[i].seq < rows[j].seq);
        }
    }
    if n < before.len() {
        lemma_numbers_of_plans(front, n);
        let i = choose|i: int|
            0 <= i < front.len() && (#[trigger] front[i]).seq == before[n].0 && entry_of(front[i])
                == Found::Plan(before[n].1);
        assert(rows[i] == front[i]);
    } else {
        let i = rows.len() - 1;
        assert(rows[i] == rows.last());
    }
}

/// A restart takes up every plan that is on disk, under its number and in the
/// same order, due at once; and every file with a mark on disk is known to hold
/// edits, as if it had just been written.
pub proof fn law_a_restart_takes_up_everything(
    ledger: LedgerView,
    rows: Seq<JournalRow<Seq<char>>>,
    now: Tick,
)
    requires
        is_table(rows),
    ensures
        opened(ledger, rows, now).journal.pending == Seq::new(
            plans_in(rows).len(),
            |i: int| fresh(plans_in(rows)[i].0, plans_in(rows)[i].1, now),
        ),
        forall|i: int|
            #![trigger rows[i]]
            0 <= i < rows.len() ==> match entry_of(rows[i]) {
                Found::Mark(p) => opened(ledger, rows, now).journal.marks.contains(p),
                Found::Plan(plan) => plans_in(rows).contains((rows[i].seq, plan)),
                Found::Garbage => true,
            },
    decreases rows.len(),
{
    let all = plans_in(rows);
    let want = Seq::new(all.len(), |i: int| fresh(all[i].0, all[i].1, now));
    if rows.len() == 0 {
        assert(opened(ledger, rows, now).journal.pending =~= want);
    } else {
        let front = rows.drop_last();
        let last = rows.last();
        let before = plans_in(front);
        assert(is_table(front)) by {
            assert forall|i: int, j: int| #![trigger front[i], front[j]] 0 <= i < j < front.len() implies front[i].seq
                < front[j].seq by {
                assert(rows[i].seq < rows[j].seq);
            }
        }
        law_a_restart_takes_up_everything(ledger, front, now);
        let old_pending = opened(ledger, front, now).journal.pending;
        match entry_of(last) {
            Found::Plan(plan) => {
                assert(all.drop_last() =~= before);
                let e = fresh(last.seq, plan, now);
                assert forall|i: int| #![trigger old_pending[i]] 0 <= i < old_pending.len() implies old_pending[i].seq
                    < last.seq by {
                    lemma_numbers_of_plans(front, i);
                    let k = choose|k: int|
                        0 <= k < front.len() && (#[trigger] front[k]).seq == before[i].0 && entry_of(
                            front[k],
                        ) == Found::Plan(before[i].1);
                    assert(rows[k].seq < rows[rows.len() - 1].seq);
                }
                if old_pending.len() > 0 {
                    assert(old_pending[old_pending.len() - 1].seq < last.seq);
                }
                assert(put(old_pending, e) =~= old_pending.push(e));
                assert(opened(ledger, rows, now).journal.pending =~= want);
            },
            _ => {
                assert(opened(ledger, rows, now).journal.pending =~= want);
            },
        }
        lemma_marks_grow(front, last);
        assert(front.push(last) =~= rows);
        assert forall|i: int| #![trigger rows[i]] 0 <= i < rows.len() implies match entry_of(rows[i]) {
            Found::Mark(p) => opened(ledger, rows, now).journal.marks.contains(p),
            Found::Plan(plan) => plans_in(rows).contains((rows[i].seq, plan)),
            Found::Garbage => true,
        } by {
            if i < front.len() {
                assert(front[i] == rows[i]);
                match entry_of(rows[i]) {
                    Found::Mark(p) => {
                        assert(opened(ledger, front, now).journal.marks.contains(p));
                    },
                    Found::Plan(plan) => {
                        assert(before.contains((rows[i].seq, plan)));
                        let k = choose|k: int| 0 <= k < before.len() && before[k] == (rows[i].seq, plan);
                        assert(all[k] == (rows[i].seq, plan));
                    },
                    Found::Garbage => {},
                }
            } else {
                match entry_of(rows[i]) {
                    Found::Mark(p) => {},
                    Found::Plan(plan) => {
                        assert(all[all.len() - 1] == (rows[i].seq, plan));
                    },
                    Found::Garbage => {},
                }
            }
        }
    }
}

proof fn lemma_marks_grow(front: Seq<JournalRow<Seq<char>>>, last: JournalRow<Seq<char>>)
    ensures
        ({
            let rows = front.push(last);
            &&& forall|p: Seq<char>|
                #![trigger all_paths(marks_in(rows)).to_set().contains(p)]
                all_paths(marks_in(front)).to_set().contains(p) ==> all_paths(
                    marks_in(rows),
                ).to_set().contains(p)
            &&& entry_of(last) matches Found::Mark(p) ==> all_paths(marks_in(rows)).to_set().contains(
                p,
            )
        }),
{
    let rows = front.push(last);
    assert(rows.drop_last() =~= front);
    match entry_of(last) {
        Found::Mark(p) => {
            let ops = marks_in(rows);
            assert(ops.drop_last() =~= marks_in(front));
            let a = all_paths(marks_in(front));
            let b = all_paths(ops);
            assert(b =~= a + seq![p]);
            assert(b[a.len() as int] == p);
            assert forall|q: Seq<char>| #![trigger b.to_set().contains(q)] a.to_set().contains(q) implies b.to_set().contains(
            q) by {
                let i = choose|i: int| 0 <= i < a.len() && a[i] == q;
                assert(b[i] == q);
            }
        },
        _ => {},
    }
}

/// The rows of the journal hold what is on disk: every mark, and every plan under
/// its number.
pub open spec fn holds(rows: Seq<JournalRow<Seq<char>>>, d: StoreView) -> bool {
    &&& forall|p: Seq<char>| #[trigger]
        d.marks.contains(p) ==> exists|i: int|
            0 <= i < rows.len() && entry_of(#[trigger] rows[i]) == Found::Mark(p)
    &&& forall|n: i64| #[trigger]
        d.plans.dom().contains(n) ==> exists|i: int|
            0 <= i < rows.len() && (#[trigger] rows[i]).seq == n && entry_of(rows[i])
                == Found::Plan(d.plans[n])
}

proof fn lemma_edits_in(rows: Seq<JournalRow<Seq<char>>>, i: int)
    requires
        0 <= i < rows.len(),
        rows[i].op == "w"@ || rows[i].op == "s"@,
    ensures
        edits_in(rows).contains(normal(rows[i].path)),
    decreases rows.len(),
{
    if i < rows.len() - 1 {
        assert(rows.drop_last()[i] == rows[i]);
        lemma_edits_in(rows.drop_last(), i);
    }
}

/// Edits that have not been uploaded survive a crash: every file that was written
/// or renamed with edits in it since what happened was last folded, and every file
/// that a plan is to save, is known to hold edits after the restart.
pub proof fn law_unpushed_edits_survive_a_crash(
    base: StoreView,
    s: StateView,
    rows: Seq<JournalRow<Seq<char>>>,
    p: Seq<char>,
)
    requires
        is_numbered(s.journal.pending),
        is_durable(base, s),
        holds(rows, stored_all(base, s.ledger.writes)),
        is_marked(s.journal, p) || exists|k: int|
            0 <= k < s.journal.pending.len() && ((#[trigger] s.journal.pending[k]).plan matches Plan::Save {
                path,
                ..
            } && path == p),
    ensures
        edits_in(rows).contains(p),
{
    let d = stored_all(base, s.ledger.writes);
    let pending = s.journal.pending;
    if is_marked(s.journal, p) {
        assert(d.marks.contains(p));
        let i = choose|i: int|
            0 <= i < rows.len() && entry_of(#[trigger] rows[i]) == Found::Mark(p);
        lemma_edits_in(rows, i);
    } else {
        let k = choose|k: int|
            0 <= k < pending.len() && ((#[trigger] pending[k]).plan matches Plan::Save { path, .. }
                && path == p);
        let n = pending[k].seq;
        crate::state::lemma_place_is(pending, k);
        assert(d.plans.dom().contains(n));
        let i = choose|i: int|
            0 <= i < rows.len() && (#[trigger] rows[i]).seq == n && entry_of(rows[i])
                == Found::Plan(d.plans[n]);
        assert(d.plans[n] == pending[k].plan);
        lemma_edits_in(rows, i);
    }
}

} // verus!
