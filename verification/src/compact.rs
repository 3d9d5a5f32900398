//! Folding what happened into plans.
use crate::config::{is_ignored, Ignore};
use crate::journal::{coalesced, seeded};
use crate::model::{
    akin, coalesce, ops_view, paths_view, plan_touches, plans_overlap, plans_view, Operation, Plan,
};
use crate::path::RelPath;
use crate::rows::numbered_view;
use crate::state::{
    all_paths, entries_view, flat_paths, is_numbered, is_sound, op_paths, paths_of, put_all,
    refreshed, window_view, Entry, JournalView, State, StateView, Tick, HORIZON, OPEN_QUIET,
    WINDOW_MAX, WINDOW_QUIET,
};
use crate::table::PathSet;
use vstd::prelude::*;

verus! {

/// How long ago `at` was; not at all, if it lies ahead.
pub open spec fn age(now: Tick, at: Tick) -> int {
    if now >= at {
        now - at
    } else {
        0
    }
}

/// What happened is to be folded: nothing has happened for a while, the first of
/// it is old, or it is asked for.
pub open spec fn is_ripe(s: StateView, force: bool, now: Tick) -> bool {
    let w = s.journal.window;
    w.len() > 0 && (force || age(now, w.last().0) >= WINDOW_QUIET || age(now, w.first().0)
        >= WINDOW_MAX)
}

/// A file that the server has with content is empty here: somebody is about to
/// write it anew.
pub open spec fn is_stalled(s: StateView, empty: Set<Seq<char>>, p: Seq<char>) -> bool {
    &&& s.ledger.observations.dom().contains(p)
    &&& s.ledger.observations[p].size > 0
    &&& empty.contains(p)
}

/// The operation names a path that is, or lies above or below, `p`.
pub open spec fn names_akin(op: Operation<Seq<char>>, p: Seq<char>) -> bool {
    exists|j: int| 0 <= j < paths_of(op).len() && akin(p, #[trigger] paths_of(op)[j])
}

/// A plan that is being replayed touches `p`.
pub open spec fn in_replay(pending: Seq<Entry<Seq<char>>>, p: Seq<char>) -> bool {
    exists|i: int|
        0 <= i < pending.len() && (#[trigger] pending[i]).running && plan_touches(
            pending[i].plan,
            p,
        )
}

/// One of the operations that are held back names a path akin to `p`.
pub open spec fn behind_held(held: Seq<(Tick, Operation<Seq<char>>)>, p: Seq<char>) -> bool {
    exists|i: int| 0 <= i < held.len() && names_akin((#[trigger] held[i]).1, p)
}

/// An operation on `p` that is `old` has to wait: for a plan that is being
/// replayed, for an operation that waits itself, for the file to be closed, or
/// for it to be written anew.
pub open spec fn must_wait(
    s: StateView,
    held: Seq<(Tick, Operation<Seq<char>>)>,
    force: bool,
    empty: Set<Seq<char>>,
    old: int,
    p: Seq<char>,
) -> bool {
    ||| in_replay(s.journal.pending, p)
    ||| behind_held(held, p)
    ||| !force && old < OPEN_QUIET && s.journal.writing.dom().contains(p)
    ||| !force && old < WINDOW_MAX && is_stalled(s, empty, p)
}

/// An operation has to wait: one of its paths has to.
pub open spec fn is_blocked(
    s: StateView,
    held: Seq<(Tick, Operation<Seq<char>>)>,
    force: bool,
    empty: Set<Seq<char>>,
    now: Tick,
    item: (Tick, Operation<Seq<char>>),
) -> bool {
    exists|k: int|
        0 <= k < paths_of(item.1).len() && must_wait(
            s,
            held,
            force,
            empty,
            age(now, item.0),
            #[trigger] paths_of(item.1)[k],
        )
}

/// What happened, parted into what has to wait and what is folded.
pub open spec fn sifted(
    s: StateView,
    window: Seq<(Tick, Operation<Seq<char>>)>,
    force: bool,
    empty: Set<Seq<char>>,
    now: Tick,
) -> (Seq<(Tick, Operation<Seq<char>>)>, Seq<Operation<Seq<char>>>)
    decreases window.len(),
{
    if window.len() == 0 {
        (Seq::empty(), Seq::empty())
    } else {
        let (held, drained) = sifted(s, window.drop_last(), force, empty, now);
        let item = window.last();
        if is_blocked(s, held, force, empty, now, item) {
            (held.push(item), drained)
        } else {
            (held, drained.push(item.1))
        }
    }
}

/// A plan has to be made anew together with the others: it is not being
/// replayed, and one of the paths or one of the plans touches it.
pub open spec fn is_swept(
    e: Entry<Seq<char>>,
    seeds: Seq<(i64, Plan<Seq<char>>)>,
    paths: Seq<Seq<char>>,
) -> bool {
    !e.running && (plan_named(e.plan, paths) || plan_met(e.plan, seeds))
}

/// One of the paths touches the plan.
pub open spec fn plan_named(plan: Plan<Seq<char>>, paths: Seq<Seq<char>>) -> bool {
    exists|i: int| 0 <= i < paths.len() && plan_touches(plan, #[trigger] paths[i])
}

/// One of the plans overlaps the plan.
pub open spec fn plan_met(plan: Plan<Seq<char>>, seeds: Seq<(i64, Plan<Seq<char>>)>) -> bool {
    exists|i: int| 0 <= i < seeds.len() && plans_overlap((#[trigger] seeds[i]).1, plan)
}

/// The first plan that has to be made anew, or -1.
pub open spec fn first_swept(
    pending: Seq<Entry<Seq<char>>>,
    seeds: Seq<(i64, Plan<Seq<char>>)>,
    paths: Seq<Seq<char>>,
) -> int
    decreases pending.len(),
{
    if pending.len() == 0 {
        -1
    } else {
        let before = first_swept(pending.drop_last(), seeds, paths);
        if before >= 0 {
            before
        } else if is_swept(pending.last(), seeds, paths) {
            pending.len() - 1
        } else {
            -1
        }
    }
}

pub proof fn lemma_first_swept(
    pending: Seq<Entry<Seq<char>>>,
    seeds: Seq<(i64, Plan<Seq<char>>)>,
    paths: Seq<Seq<char>>,
)
    ensures
        -1 <= first_swept(pending, seeds, paths) < pending.len(),
        first_swept(pending, seeds, paths) >= 0 ==> is_swept(
            pending[first_swept(pending, seeds, paths)],
            seeds,
            paths,
        ),
        forall|i: int|
            #![trigger pending[i]]
            0 <= i < pending.len() && is_swept(pending[i], seeds, paths) ==> 0 <= first_swept(
                pending,
                seeds,
                paths,
            ) <= i,
    decreases pending.len(),
{
    if pending.len() > 0 {
        let front = pending.drop_last();
        lemma_first_swept(front, seeds, paths);
        let f = first_swept(pending, seeds, paths);
        if first_swept(front, seeds, paths) >= 0 {
            assert(front[f] == pending[f]);
        }
        assert forall|i: int|
            #![trigger pending[i]]
            0 <= i < pending.len() && is_swept(pending[i], seeds, paths) implies 0 <= f <= i by {
            if i < front.len() {
                assert(front[i] == pending[i]);
            }
        }
    }
}

/// The plans that stay, and those that are made anew: each that touches the
/// paths or one of those taken before it, the first of them each time.
pub open spec fn swept(
    pending: Seq<Entry<Seq<char>>>,
    seeds: Seq<(i64, Plan<Seq<char>>)>,
    paths: Seq<Seq<char>>,
) -> (Seq<Entry<Seq<char>>>, Seq<(i64, Plan<Seq<char>>)>)
    decreases pending.len(),
{
    let i = first_swept(pending, seeds, paths);
    if 0 <= i < pending.len() {
        swept(
            pending.remove(i),
            seeds.push((pending[i].seq, pending[i].plan)),
            paths,
        )
    } else {
        (pending, seeds)
    }
}

/// The saves of ignored files among the plans, by their paths.
pub open spec fn ignored_in(plans: Seq<Plan<Seq<char>>>, names: Set<Seq<char>>) -> Seq<Seq<char>>
    decreases plans.len(),
{
    if plans.len() == 0 {
        Seq::empty()
    } else {
        let before = ignored_in(plans.drop_last(), names);
        match plans.last() {
            Plan::Save { path, replaces, reuses } => if is_ignored(names, path) {
                before.push(path)
            } else {
                before
            },
            _ => before,
        }
    }
}

/// The plans without the saves of ignored files.
pub open spec fn allowed_in(
    plans: Seq<Plan<Seq<char>>>,
    names: Set<Seq<char>>,
) -> Seq<Plan<Seq<char>>>
    decreases plans.len(),
{
    if plans.len() == 0 {
        Seq::empty()
    } else {
        let before = allowed_in(plans.drop_last(), names);
        match plans.last() {
            Plan::Save { path, replaces, reuses } => if is_ignored(names, path) {
                before
            } else {
                before.push(plans.last())
            },
            _ => before.push(plans.last()),
        }
    }
}

/// The paths that are not among `kept`.
pub open spec fn except(paths: Seq<Seq<char>>, kept: Seq<Seq<char>>) -> Seq<Seq<char>>
    decreases paths.len(),
{
    if paths.len() == 0 {
        Seq::empty()
    } else if kept.contains(paths.last()) {
        except(paths.drop_last(), kept)
    } else {
        except(paths.drop_last(), kept).push(paths.last())
    }
}

/// What folding changes on disk, all at once: the marks that go, the plans that
/// go, and the plans that come.
#[derive(Debug)]
pub struct Swap {
    pub unmark: Vec<RelPath>,
    pub retired: Vec<i64>,
    pub made: Vec<Plan>,
}

/// The same by the characters of the paths.
#[verifier::ext_equal]
pub struct SwapView {
    pub unmark: Seq<Seq<char>>,
    pub retired: Seq<i64>,
    pub made: Seq<Plan<Seq<char>>>,
}

impl View for Swap {
    type V = SwapView;

    open spec fn view(&self) -> SwapView {
        SwapView {
            unmark: paths_view(self.unmark@),
            retired: self.retired@,
            made: plans_view(self.made@),
        }
    }
}

/// The numbers of numbered plans.
pub open spec fn numbers(seeds: Seq<(i64, Plan<Seq<char>>)>) -> Seq<i64> {
    Seq::new(seeds.len(), |i: int| seeds[i].0)
}

/// Numbered plans without the numbers.
pub open spec fn unnumbered(seeds: Seq<(i64, Plan<Seq<char>>)>) -> Seq<Plan<Seq<char>>> {
    Seq::new(seeds.len(), |i: int| seeds[i].1)
}

/// What is folded of what happened, if it is ripe.
pub open spec fn drained(
    s: StateView,
    force: bool,
    empty: Set<Seq<char>>,
    now: Tick,
) -> Seq<Operation<Seq<char>>> {
    if is_ripe(s, force, now) {
        sifted(s, s.journal.window, force, empty, now).1
    } else {
        Seq::empty()
    }
}

/// What folding makes of what happened and of the plans that it touches.
pub open spec fn folded(
    s: StateView,
    force: bool,
    names: Set<Seq<char>>,
    empty: Set<Seq<char>>,
    now: Tick,
) -> SwapView {
    let ops = drained(s, force, empty, now);
    let seeds = swept(s.journal.pending, Seq::empty(), all_paths(ops)).1;
    let all = coalesced(seeded(unnumbered(seeds)), ops, s.ledger.observations);
    SwapView {
        unmark: except(all_paths(ops), ignored_in(all, names)),
        retired: numbers(seeds),
        made: allowed_in(all, names),
    }
}

/// The state once what happened has been folded, before the new plans have got
/// their numbers.
pub open spec fn compacted(
    s: StateView,
    force: bool,
    names: Set<Seq<char>>,
    empty: Set<Seq<char>>,
    now: Tick,
) -> StateView {
    let ops = drained(s, force, empty, now);
    if ops.len() == 0 {
        s
    } else {
        StateView {
            journal: JournalView {
                window: sifted(s, s.journal.window, force, empty, now).0,
                marks: s.journal.marks.difference(folded(s, force, names, empty, now).unmark.to_set()),
                trail: s.journal.trail.difference(folded(s, force, names, empty, now).unmark.to_set()),
                pending: swept(s.journal.pending, Seq::empty(), all_paths(ops)).0,
                ..s.journal
            },
            ..s
        }
    }
}

/// Whether one of the paths of the operation is akin to `p`.
fn op_akin(op: &Operation, p: &RelPath) -> (r: bool)
    ensures
        r == names_akin(op@, p@),
{
    let paths = op_paths(op);
    let mut i: usize = 0;
    while i < paths.len()
        invariant
            i <= paths@.len(),
            paths@.len() == paths_of(op@).len(),
            forall|j: int| #![trigger paths@[j]] 0 <= j < paths@.len() ==> paths@[j]@ == paths_of(op@)[j],
            forall|j: int| #![trigger paths_of(op@)[j]] 0 <= j < i ==> !akin(p@, paths_of(op@)[j]),
        decreases paths@.len() - i,
    {
        let q = paths[i];
        if q == p || p.is_descendant_of(q) || q.is_descendant_of(p) {
            proof {
                assert(akin(p@, paths_of(op@)[i as int]));
            }
            return true;
        }
        i += 1;
    }
    false
}

impl State {
    fn is_in_replay(&self, p: &RelPath) -> (r: bool)
        ensures
            r == in_replay(self@.journal.pending, p@),
    {
        let ghost view = self@.journal.pending;
        let mut i: usize = 0;
        while i < self.journal.pending.len()
            invariant
                i <= self.journal.pending@.len(),
                view == entries_view(self.journal.pending@),
                forall|j: int| #![trigger view[j]]
                    0 <= j < i ==> !(view[j].running && plan_touches(view[j].plan, p@)),
            decreases self.journal.pending@.len() - i,
        {
            let e = &self.journal.pending[i];
            proof {
                assert(view[i as int] == e@);
            }
            if e.running && e.plan.touches(p) {
                return true;
            }
            i += 1;
        }
        false
    }

    fn has_to_wait(
        &self,
        held: &Vec<(Tick, Operation)>,
        force: bool,
        empty: &PathSet,
        old: Tick,
        p: &RelPath,
    ) -> (r: bool)
        ensures
            r == must_wait(self@, window_view(held@), force, empty@, old as int, p@),
    {
        if self.is_in_replay(p) {
            return true;
        }
        let ghost hv = window_view(held@);
        let mut i: usize = 0;
        while i < held.len()
            invariant
                i <= held@.len(),
                hv == window_view(held@),
                forall|j: int| #![trigger hv[j]] 0 <= j < i ==> !names_akin(hv[j].1, p@),
            decreases held@.len() - i,
        {
            proof {
                assert(hv[i as int].1 == held@[i as int].1@);
            }
            if op_akin(&held[i].1, p) {
                return true;
            }
            i += 1;
        }
        if force {
            return false;
        }
        if old < OPEN_QUIET && self.journal.writing.contains_key(p) {
            return true;
        }
        if old < WINDOW_MAX {
            match self.ledger.observations.get(p) {
                Some(o) => o.size > 0 && empty.contains(p),
                None => false,
            }
        } else {
            false
        }
    }

    fn blocks(
        &self,
        held: &Vec<(Tick, Operation)>,
        force: bool,
        empty: &PathSet,
        now: Tick,
        at: Tick,
        op: &Operation,
    ) -> (r: bool)
        ensures
            r == is_blocked(self@, window_view(held@), force, empty@, now, (at, op@)),
    {
        let old: Tick = now.saturating_sub(at);
        let paths = op_paths(op);
        let mut i: usize = 0;
        proof {
            assert(old == age(now, at));
        }
        while i < paths.len()
            invariant
                i <= paths@.len(),
                old == age(now, at),
                paths@.len() == paths_of(op@).len(),
                forall|j: int| #![trigger paths@[j]]
                    0 <= j < paths@.len() ==> paths@[j]@ == paths_of(op@)[j],
                forall|j: int| #![trigger paths_of(op@)[j]]
                    0 <= j < i ==> !must_wait(
                        self@,
                        window_view(held@),
                        force,
                        empty@,
                        age(now, at),
                        paths_of(op@)[j],
                    ),
            decreases paths@.len() - i,
        {
            if self.has_to_wait(held, force, empty, old, paths[i]) {
                proof {
                    let item = (at, op@);
                    assert(must_wait(
                        self@,
                        window_view(held@),
                        force,
                        empty@,
                        age(now, item.0),
                        paths_of(item.1)[i as int],
                    ));
                }
                return true;
            }
            i += 1;
        }
        false
    }

    fn drain(&mut self, force: bool, empty: &PathSet, now: Tick) -> (r: Vec<Operation>)
        requires
            is_sound(old(self)@),
        ensures
            ops_view(r@) == drained(old(self)@, force, empty@, now),
            final(self)@ == if is_ripe(old(self)@, force, now) {
                StateView {
                    journal: JournalView {
                        window: sifted(
                            old(self)@,
                            old(self)@.journal.window,
                            force,
                            empty@,
                            now,
                        ).0,
                        ..old(self)@.journal
                    },
                    ..old(self)@
                }
            } else {
                old(self)@
            },
            is_sound(final(self)@),
    {
        let ghost before = self@;
        let ghost window = self@.journal.window;
        let n: usize = self.journal.window.len();
        let ripe = n > 0 && (force || now.saturating_sub(self.journal.window[n - 1].0) >= WINDOW_QUIET
            || now.saturating_sub(self.journal.window[0].0) >= WINDOW_MAX);
        proof {
            assert(ripe == is_ripe(before, force, now));
        }
        let mut out: Vec<Operation> = Vec::new();
        proof {
            assert(ops_view(out@) =~= Seq::empty());
        }
        if !ripe {
            return out;
        }
        let mut held: Vec<(Tick, Operation)> = Vec::new();
        let mut i: usize = 0;
        proof {
            assert(window_view(held@) =~= Seq::empty());
        }
        while i < self.journal.window.len()
            invariant
                i <= self.journal.window@.len(),
                self@ == before,
                is_sound(before),
                window == window_view(self.journal.window@),
                window == before.journal.window,
                (window_view(held@), ops_view(out@)) == sifted(
                    before,
                    window.take(i as int),
                    force,
                    empty@,
                    now,
                ),
                forall|j: int| #![trigger window_view(held@)[j]]
                    0 <= j < held@.len() ==> window_view(held@)[j].0 <= HORIZON,
            decreases self.journal.window@.len() - i,
        {
            let ghost hv = window_view(held@);
            let ghost ov = ops_view(out@);
            proof {
                let w = window.take(i + 1);
                assert(w.drop_last() =~= window.take(i as int));
                assert(w.last() == window[i as int]);
                assert(window[i as int].0 <= HORIZON);
            }
            let at: Tick = self.journal.window[i].0;
            let op = self.journal.window[i].1.clone();
            if self.blocks(&held, force, empty, now, at, &op) {
                held.push((at, op));
                proof {
                    assert(window_view(held@) =~= hv.push((at, op@)));
                }
            } else {
                out.push(op);
                proof {
                    assert(ops_view(out@) =~= ov.push(op@));
                }
            }
            i += 1;
        }
        proof {
            assert(window.take(i as int) =~= window);
        }
        self.journal.window = held;
        out
    }

    fn find_swept(
        &self,
        seeds: &Vec<(i64, Plan)>,
        paths: &Vec<RelPath>,
    ) -> (r: Option<usize>)
        ensures
            match r {
                Some(i) => i == first_swept(
                    self@.journal.pending,
                    numbered_view(seeds@),
                    paths_view(paths@),
                ) && i < self@.journal.pending.len(),
                None => first_swept(
                    self@.journal.pending,
                    numbered_view(seeds@),
                    paths_view(paths@),
                ) < 0,
            },
    {
        let ghost view = self@.journal.pending;
        let ghost sv = numbered_view(seeds@);
        let ghost pv = paths_view(paths@);
        let mut i: usize = 0;
        while i < self.journal.pending.len()
            invariant
                i <= self.journal.pending@.len(),
                view == entries_view(self.journal.pending@),
                sv == numbered_view(seeds@),
                pv == paths_view(paths@),
                forall|j: int| #![trigger view[j]] 0 <= j < i ==> !is_swept(view[j], sv, pv),
            decreases self.journal.pending@.len() - i,
        {
            let e = &self.journal.pending[i];
            proof {
                assert(view[i as int] == e@);
            }
            if !e.running && (is_named(&e.plan, paths) || is_met(&e.plan, seeds)) {
                proof {
                    lemma_first_swept(view, sv, pv);
                    let f = first_swept(view, sv, pv);
                    assert(is_swept(view[i as int], sv, pv));
                    if f < i {
                        assert(!is_swept(view[f], sv, pv));
                    }
                }
                return Some(i);
            }
            i += 1;
        }
        proof {
            lemma_first_swept(view, sv, pv);
            let f = first_swept(view, sv, pv);
            if f >= 0 {
                assert(!is_swept(view[f], sv, pv));
            }
        }
        None
    }

    fn fold(&mut self, paths: &Vec<RelPath>) -> (r: Vec<(i64, Plan)>)
        requires
            is_sound(old(self)@),
        ensures
            (final(self)@.journal.pending, numbered_view(r@)) == swept(
                old(self)@.journal.pending,
                Seq::empty(),
                paths_view(paths@),
            ),
            final(self)@ == (StateView {
                journal: JournalView {
                    pending: final(self)@.journal.pending,
                    ..old(self)@.journal
                },
                ..old(self)@
            }),
            is_sound(final(self)@),
    {
        let ghost before = self@;
        let ghost pv = paths_view(paths@);
        let ghost goal = swept(before.journal.pending, Seq::empty(), pv);
        let mut seeds: Vec<(i64, Plan)> = Vec::new();
        proof {
            assert(numbered_view(seeds@) =~= Seq::empty());
        }
        loop
            invariant
                before == old(self)@,
                pv == paths_view(paths@),
                goal == swept(self@.journal.pending, numbered_view(seeds@), pv),
                goal == swept(before.journal.pending, Seq::empty(), pv),
                is_sound(self@),
                self@ == (StateView {
                    journal: JournalView { pending: self@.journal.pending, ..before.journal },
                    ..before
                }),
            decreases self.journal.pending@.len(),
        {
            match self.find_swept(&seeds, paths) {
                Some(i) => {
                    let ghost was = self@.journal.pending;
                    let ghost window = self@.journal.window;
                    let ghost sv = numbered_view(seeds@);
                    let e = self.journal.pending.remove(i);
                    seeds.push((e.seq, e.plan));
                    proof {
                        assert(was[i as int] == e@);
                        assert(self@.journal.pending =~= was.remove(i as int));
                        assert(numbered_view(seeds@) =~= sv.push((e.seq, e.plan@)));
                        let now = self@.journal.pending;
                        assert forall|a: int, b: int|
                            #![trigger now[a], now[b]]
                            0 <= a < b < now.len() implies now[a].seq < now[b].seq by {
                            let c = if a < i {
                                a
                            } else {
                                a + 1
                            };
                            let d = if b < i {
                                b
                            } else {
                                b + 1
                            };
                            assert(was[c].seq < was[d].seq);
                        }
                        assert(is_numbered(now));
                        assert(self@.journal.window =~= window);
                    }
                },
                None => {
                    return seeds;
                },
            }
        }
    }

    /// Folds what happened into plans, if it is ripe: says what changes on disk.
    /// The new plans are handed back with their numbers, to `admitted`.
    pub fn compact(&mut self, force: bool, ignore: &Ignore, empty: &PathSet, now: Tick) -> (r: Option<
        Swap,
    >)
        requires
            is_sound(old(self)@),
        ensures
            final(self)@ == compacted(old(self)@, force, ignore@, empty@, now),
            is_sound(final(self)@),
            match r {
                Some(swap) => drained(old(self)@, force, empty@, now).len() > 0 && swap@ == folded(
                    old(self)@,
                    force,
                    ignore@,
                    empty@,
                    now,
                ),
                None => drained(old(self)@, force, empty@, now).len() == 0,
            },
    {
        let ghost before = self@;
        let ops = self.drain(force, empty, now);
        if ops.len() == 0 {
            proof {
                let s = sifted(before, before.journal.window, force, empty@, now);
                lemma_all_held(before, before.journal.window, force, empty@, now);
                assert(self@ =~= before);
            }
            return None;
        }
        let paths = flat_paths(&ops);
        let seeds = self.fold(&paths);
        let ghost sv = numbered_view(seeds@);
        let mut old_plans: Vec<Plan> = Vec::new();
        let mut retired: Vec<i64> = Vec::new();
        let mut i: usize = 0;
        while i < seeds.len()
            invariant
                i <= seeds@.len(),
                sv == numbered_view(seeds@),
                old_plans@.len() == i,
                retired@.len() == i,
                forall|j: int| #![trigger old_plans@[j]] 0 <= j < i ==> old_plans@[j]@ == sv[j].1,
                forall|j: int| #![trigger retired@[j]] 0 <= j < i ==> retired@[j] == sv[j].0,
            decreases seeds@.len() - i,
        {
            old_plans.push(seeds[i].1.clone());
            retired.push(seeds[i].0);
            i += 1;
        }
        proof {
            assert(plans_view(old_plans@) =~= unnumbered(sv));
            assert(retired@ =~= numbers(sv));
        }
        let all = coalesce(&old_plans, &ops, &self.ledger.observations);
        let (made, kept) = part_ignored(all, ignore);
        let unmark = leave_out(&paths, &kept);
        self.clear_marks(&unmark);
        let swap = Swap { unmark, retired, made };
        proof {
            assert(swap@ =~= folded(before, force, ignore@, empty@, now));
            assert(self@ =~= compacted(before, force, ignore@, empty@, now));
        }
        Some(swap)
    }

    fn clear_marks(&mut self, unmark: &Vec<RelPath>)
        ensures
            final(self)@ == (StateView {
                journal: JournalView {
                    marks: old(self)@.journal.marks.difference(paths_view(unmark@).to_set()),
                    trail: old(self)@.journal.trail.difference(paths_view(unmark@).to_set()),
                    ..old(self)@.journal
                },
                ..old(self)@
            }),
    {
        let ghost before = self@;
        let ghost uv = paths_view(unmark@);
        let mut i: usize = 0;
        proof {
            assert(before.journal.marks =~= before.journal.marks.difference(uv.take(0).to_set()));
            assert(before.journal.trail =~= before.journal.trail.difference(uv.take(0).to_set()));
        }
        while i < unmark.len()
            invariant
                i <= unmark@.len(),
                uv == paths_view(unmark@),
                self@ == (StateView {
                    journal: JournalView {
                        marks: before.journal.marks.difference(uv.take(i as int).to_set()),
                        trail: before.journal.trail.difference(uv.take(i as int).to_set()),
                        ..before.journal
                    },
                    ..before
                }),
            decreases unmark@.len() - i,
        {
            let ghost was = self@.journal.marks;
            let ghost went = self@.journal.trail;
            let _ = self.journal.marks.remove(&unmark[i]);
            let _ = self.journal.trail.remove(&unmark[i]);
            proof {
                assert(uv.take(i + 1) =~= uv.take(i as int).push(uv[i as int]));
                crate::state::lemma_push_set(uv.take(i as int), uv[i as int]);
                assert(was.remove(uv[i as int]) =~= before.journal.marks.difference(
                    uv.take(i + 1).to_set(),
                ));
                assert(went.remove(uv[i as int]) =~= before.journal.trail.difference(
                    uv.take(i + 1).to_set(),
                ));
            }
            i += 1;
        }
        proof {
            assert(uv.take(i as int) =~= uv);
        }
    }

    /// Takes in the plans that folding made, with the numbers that they got.
    pub fn admitted(&mut self, rows: Vec<(i64, Plan)>, now: Tick)
        requires
            is_sound(old(self)@),
        ensures
            final(self)@ == taken_in(old(self)@, numbered_view(rows@), now),
            is_sound(final(self)@),
    {
        let ghost before = self@;
        self.journal.take_in(rows, now);
        self.refresh();
        proof {
            assert(self@ =~= taken_in(before, numbered_view(rows@), now));
        }
    }
}

/// The state with new plans, and with the list of files that hold edits up to
/// date.
pub open spec fn taken_in(
    s: StateView,
    rows: Seq<(i64, Plan<Seq<char>>)>,
    now: Tick,
) -> StateView {
    refreshed(
        StateView {
            journal: JournalView {
                pending: put_all(s.journal.pending, rows, now),
                ..s.journal
            },
            ..s
        },
    )
}

proof fn lemma_all_held(
    s: StateView,
    window: Seq<(Tick, Operation<Seq<char>>)>,
    force: bool,
    empty: Set<Seq<char>>,
    now: Tick,
)
    ensures
        sifted(s, window, force, empty, now).1.len() == 0 ==> sifted(s, window, force, empty, now).0
            == window,
    decreases window.len(),
{
    if window.len() > 0 {
        lemma_all_held(s, window.drop_last(), force, empty, now);
        if sifted(s, window, force, empty, now).1.len() == 0 {
            assert(window.drop_last().push(window.last()) =~= window);
        }
    } else {
        assert(window =~= Seq::empty());
    }
}

fn is_named(plan: &Plan, paths: &Vec<RelPath>) -> (r: bool)
    ensures
        r == plan_named(plan@, paths_view(paths@)),
{
    let ghost pv = paths_view(paths@);
    let mut i: usize = 0;
    while i < paths.len()
        invariant
            i <= paths@.len(),
            pv == paths_view(paths@),
            forall|j: int| #![trigger pv[j]] 0 <= j < i ==> !plan_touches(plan@, pv[j]),
        decreases paths@.len() - i,
    {
        proof {
            assert(pv[i as int] == paths@[i as int]@);
        }
        if plan.touches(&paths[i]) {
            return true;
        }
        i += 1;
    }
    false
}

fn is_met(plan: &Plan, seeds: &Vec<(i64, Plan)>) -> (r: bool)
    ensures
        r == plan_met(plan@, numbered_view(seeds@)),
{
    let ghost sv = numbered_view(seeds@);
    let mut i: usize = 0;
    while i < seeds.len()
        invariant
            i <= seeds@.len(),
            sv == numbered_view(seeds@),
            forall|j: int| #![trigger sv[j]] 0 <= j < i ==> !plans_overlap(sv[j].1, plan@),
        decreases seeds@.len() - i,
    {
        proof {
            assert(sv[i as int].1 == seeds@[i as int].1@);
        }
        if seeds[i].1.overlaps(plan) {
            return true;
        }
        i += 1;
    }
    false
}

fn part_ignored(plans: Vec<Plan>, ignore: &Ignore) -> (r: (Vec<Plan>, Vec<RelPath>))
    ensures
        plans_view(r.0@) == allowed_in(plans_view(plans@), ignore@),
        paths_view(r.1@) == ignored_in(plans_view(plans@), ignore@),
{
    let ghost pv = plans_view(plans@);
    let mut made: Vec<Plan> = Vec::new();
    let mut kept: Vec<RelPath> = Vec::new();
    let mut i: usize = 0;
    proof {
        assert(plans_view(made@) =~= Seq::empty());
        assert(paths_view(kept@) =~= Seq::empty());
    }
    while i < plans.len()
        invariant
            i <= plans@.len(),
            pv == plans_view(plans@),
            plans_view(made@) == allowed_in(pv.take(i as int), ignore@),
            paths_view(kept@) == ignored_in(pv.take(i as int), ignore@),
        decreases plans@.len() - i,
    {
        let ghost mv = plans_view(made@);
        let ghost kv = paths_view(kept@);
        proof {
            let now = pv.take(i + 1);
            assert(now.drop_last() =~= pv.take(i as int));
            assert(now.last() == plans@[i as int]@);
        }
        let dropped = match &plans[i] {
            Plan::Save { path, .. } => if ignore.matches(path) {
                kept.push(path.clone());
                proof {
                    assert(paths_view(kept@) =~= kv.push(path@));
                }
                true
            } else {
                false
            },
            _ => false,
        };
        if !dropped {
            made.push(plans[i].clone());
            proof {
                assert(plans_view(made@) =~= mv.push(plans@[i as int]@));
            }
        }
        i += 1;
    }
    proof {
        assert(pv.take(i as int) =~= pv);
    }
    (made, kept)
}

fn leave_out(paths: &Vec<RelPath>, kept: &Vec<RelPath>) -> (r: Vec<RelPath>)
    ensures
        paths_view(r@) == except(paths_view(paths@), paths_view(kept@)),
{
    let ghost pv = paths_view(paths@);
    let mut out: Vec<RelPath> = Vec::new();
    let mut i: usize = 0;
    proof {
        assert(paths_view(out@) =~= Seq::empty());
    }
    while i < paths.len()
        invariant
            i <= paths@.len(),
            pv == paths_view(paths@),
            paths_view(out@) == except(pv.take(i as int), paths_view(kept@)),
        decreases paths@.len() - i,
    {
        let ghost ov = paths_view(out@);
        proof {
            let now = pv.take(i + 1);
            assert(now.drop_last() =~= pv.take(i as int));
            assert(now.last() == paths@[i as int]@);
        }
        if !crate::journal::lists(kept, &paths[i]) {
            out.push(paths[i].clone());
            proof {
                assert(paths_view(out@) =~= ov.push(paths@[i as int]@));
            }
        }
        i += 1;
    }
    proof {
        assert(pv.take(i as int) =~= pv);
    }
    out
}

} // verus!
