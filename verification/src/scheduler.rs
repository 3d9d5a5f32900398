//! When plans are replayed, and what is told of it.
use crate::model::{Conflict, Plan};
use crate::play::{conflict_view, Outcome};
use crate::rows::numbered_view;
use crate::settle::{flagged, is_pick, is_runnable, met, settled, with_pending};
use crate::state::{
    hurried, is_sound, next_wake, place, JournalView, State, StateView, Tick, HORIZON,
};
use crate::state_laws::{is_exclusive, law_a_pick_keeps_replays_apart};
use vstd::prelude::*;

verus! {

/// How many plans are replayed at a time.
pub const CONCURRENCY: usize = 4;

/// How the uploads stand: nothing is left to do, something is, or the last
/// attempt failed.
#[derive(Clone, Copy, Debug, PartialEq, Eq, Structural)]
pub enum UploadStatus {
    Idle,
    Busy,
    Error,
}

/// How a download stands.
#[derive(Clone, Copy, Debug, PartialEq, Eq, Structural)]
pub enum DownloadStatus {
    Running,
    Done,
    Failed,
}

/// What is told of the uploads.
pub open spec fn status_of(failing: bool, idle: bool) -> UploadStatus {
    if failing {
        UploadStatus::Error
    } else if idle {
        UploadStatus::Idle
    } else {
        UploadStatus::Busy
    }
}

/// See `status_of`.
pub fn status(failing: bool, idle: bool) -> (r: UploadStatus)
    ensures
        r == status_of(failing, idle),
{
    match (failing, idle) {
        (true, _) => UploadStatus::Error,
        (false, true) => UploadStatus::Idle,
        (false, false) => UploadStatus::Busy,
    }
}

/// What drives the replays: the numbers of the plans that are being replayed,
/// those who wait until all is uploaded, and whether the last replay failed.
pub struct Driver {
    pub running: Vec<i64>,
    pub flushes: Vec<u64>,
    pub failing: bool,
}

/// A driver by its contents.
#[verifier::ext_equal]
pub struct DriverView {
    pub running: Seq<i64>,
    pub flushes: Seq<u64>,
    pub failing: bool,
}

impl View for Driver {
    type V = DriverView;

    open spec fn view(&self) -> DriverView {
        DriverView { running: self.running@, flushes: self.flushes@, failing: self.failing }
    }
}

/// What is to be done now: the plans to replay, those who have waited long
/// enough, what is told, and when to look again.
pub struct Turn {
    pub starts: Vec<(i64, Plan)>,
    pub replies: Vec<u64>,
    pub status: UploadStatus,
    pub deadline: Option<Tick>,
}

/// There is a plan that may be replayed.
pub open spec fn is_ready(s: StateView, now: Tick) -> bool {
    exists|i: int| is_pick(s.journal.pending, i, now)
}

/// The place of the plan that is replayed next.
pub open spec fn pick(s: StateView, now: Tick) -> int {
    choose|i: int| is_pick(s.journal.pending, i, now)
}

/// The state after the next plan has been picked.
pub open spec fn picked(s: StateView, now: Tick) -> StateView {
    with_pending(s, flagged(s.journal.pending, pick(s, now), true))
}

/// The state after as many plans have been picked as there is room for.
pub open spec fn all_picked(s: StateView, room: nat, now: Tick) -> StateView
    decreases room,
{
    if room == 0 || !is_ready(s, now) {
        s
    } else {
        all_picked(picked(s, now), (room - 1) as nat, now)
    }
}

/// The plans that are picked when there is room for so many.
pub open spec fn picks(s: StateView, room: nat, now: Tick) -> Seq<(i64, Plan<Seq<char>>)>
    decreases room,
{
    if room == 0 || !is_ready(s, now) {
        Seq::empty()
    } else {
        let e = s.journal.pending[pick(s, now)];
        seq![(e.seq, e.plan)] + picks(picked(s, now), (room - 1) as nat, now)
    }
}

/// How many more plans can be replayed.
pub open spec fn room(running: nat) -> nat {
    if running < CONCURRENCY {
        (CONCURRENCY - running) as nat
    } else {
        0
    }
}

/// The numbers of plans.
pub open spec fn numbers(plans: Seq<(i64, Plan<Seq<char>>)>) -> Seq<i64> {
    plans.map_values(|p: (i64, Plan<Seq<char>>)| p.0)
}

/// Nothing is left to do.
pub open spec fn is_done(s: StateView, running: Seq<i64>) -> bool {
    s.journal.window.len() == 0 && s.journal.pending.len() == 0 && running.len() == 0
}

/// Those who are answered of those who wait until all is done.
pub open spec fn answered(flushes: Seq<u64>, done: bool) -> Seq<u64> {
    if done {
        flushes
    } else {
        Seq::empty()
    }
}

/// Those who still wait after that.
pub open spec fn still_waiting(flushes: Seq<u64>, done: bool) -> Seq<u64> {
    if done {
        Seq::empty()
    } else {
        flushes
    }
}

/// The numbers without the first that equals `seq`.
pub open spec fn struck(running: Seq<i64>, seq: i64) -> Seq<i64> {
    if running.contains(seq) {
        running.remove(running.index_of_first(seq)->0)
    } else {
        running
    }
}

proof fn lemma_pick(s: StateView, i: int, now: Tick)
    requires
        is_pick(s.journal.pending, i, now),
    ensures
        is_ready(s, now),
        pick(s, now) == i,
{
    let k = pick(s, now);
    assert(is_pick(s.journal.pending, k, now));
    if k < i {
        assert(!is_runnable(s.journal.pending, k, now));
    }
    if i < k {
        assert(!is_runnable(s.journal.pending, i, now));
    }
}

impl Default for Driver {
    fn default() -> (r: Driver)
        ensures
            r@.running == Seq::<i64>::empty(),
            r@.flushes == Seq::<u64>::empty(),
            !r@.failing,
    {
        Driver { running: Vec::new(), flushes: Vec::new(), failing: false }
    }
}

impl Driver {
    /// Picks the plans to replay, as many as there is room for, and says what
    /// else is to be done now.
    pub fn turn(&mut self, state: &mut State, now: Tick) -> (r: Turn)
        requires
            is_sound(old(state)@),
        ensures
            is_sound(final(state)@),
            final(state)@ == all_picked(old(state)@, room(old(self)@.running.len()), now),
            numbered_view(r.starts@) == picks(old(state)@, room(old(self)@.running.len()), now),
            final(self)@.running == old(self)@.running + numbers(numbered_view(r.starts@)),
            final(self)@.running.len() <= CONCURRENCY || final(self)@.running == old(
                self,
            )@.running,
            ({
                let done = is_done(final(state)@, final(self)@.running);
                &&& r.status == status_of(old(self)@.failing, done)
                &&& r.replies@ == answered(old(self)@.flushes, done)
                &&& final(self)@.flushes == still_waiting(old(self)@.flushes, done)
            }),
            final(self)@.failing == old(self)@.failing,
            r.deadline == next_wake(final(state)@),
    {
        let ghost before = state@;
        let ghost busy = self.running@;
        let ghost all = room(busy.len());
        let mut starts: Vec<(i64, Plan)> = Vec::new();
        proof {
            assert(numbered_view(starts@) =~= Seq::empty());
            assert(Seq::<(i64, Plan<Seq<char>>)>::empty() + picks(before, all, now) =~= picks(
                before,
                all,
                now,
            ));
            assert(busy + numbers(numbered_view(starts@)) =~= busy);
        }
        let mut more = true;
        while more && self.running.len() < CONCURRENCY
            invariant
                is_sound(state@),
                all == room(busy.len()),
                self.running@ == busy + numbers(numbered_view(starts@)),
                starts@.len() <= all,
                self.running@.len() == busy.len() + starts@.len(),
                self.flushes@ == old(self)@.flushes,
                self.failing == old(self)@.failing,
                numbered_view(starts@) + picks(state@, (all - starts@.len()) as nat, now) == picks(
                    before,
                    all,
                    now,
                ),
                all_picked(state@, (all - starts@.len()) as nat, now) == all_picked(
                    before,
                    all,
                    now,
                ),
                !more ==> !is_ready(state@, now),
            decreases
                    CONCURRENCY - self.running@.len(),
                    if more {
                        1int
                    } else {
                        0int
                    },
        {
            let ghost s = state@;
            let ghost so_far = numbered_view(starts@);
            let ghost left = (all - starts@.len()) as nat;
            match state.next(now) {
                Some((seq, plan)) => {
                    proof {
                        let i = place(s.journal.pending, seq);
                        lemma_pick(s, i, now);
                        crate::state::lemma_place(s.journal.pending, seq);
                        assert(left > 0);
                        assert(picks(s, left, now) == seq![(seq, plan@)] + picks(
                            state@,
                            (left - 1) as nat,
                            now,
                        ));
                    }
                    self.running.push(seq);
                    starts.push((seq, plan));
                    proof {
                        assert(numbered_view(starts@) =~= so_far.push((seq, plan@)));
                        assert(so_far.push((seq, plan@)) + picks(state@, (left - 1) as nat, now)
                            =~= so_far + (seq![(seq, plan@)] + picks(
                            state@,
                            (left - 1) as nat,
                            now,
                        )));
                        assert(self.running@ =~= busy + numbers(numbered_view(starts@)));
                    }
                },
                None => {
                    proof {
                        if is_ready(s, now) {
                            let i = pick(s, now);
                            assert(is_pick(s.journal.pending, i, now));
                            assert(is_runnable(s.journal.pending, i, now));
                        }
                    }
                    more = false;
                },
            }
        }
        proof {
            assert(numbered_view(starts@) + Seq::<(i64, Plan<Seq<char>>)>::empty()
                =~= numbered_view(starts@));
        }
        let idle = state.idle() && self.running.len() == 0;
        let mut replies: Vec<u64> = Vec::new();
        if idle {
            std::mem::swap(&mut replies, &mut self.flushes);
        }
        Turn { starts, replies, status: status(self.failing, idle), deadline: state.wait() }
    }

    /// Somebody waits until all is uploaded: what is pending is due now. What
    /// was done lately has been folded into plans before.
    pub fn flush(&mut self, state: &mut State, waiter: u64, now: Tick)
        requires
            is_sound(old(state)@),
        ensures
            is_sound(final(state)@),
            final(state)@ == (StateView {
                journal: JournalView {
                    pending: hurried(old(state)@.journal.pending, now),
                    ..old(state)@.journal
                },
                ..old(state)@
            }),
            final(self)@ == (DriverView {
                flushes: old(self)@.flushes.push(waiter),
                ..old(self)@
            }),
    {
        state.rush(now);
        self.flushes.push(waiter);
    }

    /// A replay has ended: with an outcome, or without one if it broke off,
    /// which counts as a failure. The conflict that came of it, if any.
    pub fn joined(
        &mut self,
        state: &mut State,
        seq: i64,
        outcome: Option<Outcome>,
        now: Tick,
    ) -> (r: Option<Conflict>)
        requires
            is_sound(old(state)@),
            now <= HORIZON,
        ensures
            is_sound(final(state)@),
            ({
                let what = match outcome {
                    Some(o) => o@,
                    None => Outcome::Failed,
                };
                let known = place(old(state)@.journal.pending, seq) >= 0;
                if old(self)@.running.contains(seq) {
                    &&& final(state)@ == settled(old(state)@, seq, what, now)
                    &&& final(self)@ == (DriverView {
                        running: struck(old(self)@.running, seq),
                        failing: what is Failed && known,
                        ..old(self)@
                    })
                    &&& conflict_view(r) == if known {
                        met(what)
                    } else {
                        None
                    }
                } else {
                    final(state)@ == old(state)@ && final(self)@ == old(self)@ && r is None
                }
            }),
    {
        let ghost before = self@;
        let mut i: usize = 0;
        while i < self.running.len() && self.running[i] != seq
            invariant
                i <= self.running@.len(),
                self@ == before,
                forall|j: int| #![trigger self.running@[j]] 0 <= j < i ==> self.running@[j] != seq,
            decreases self.running@.len() - i,
        {
            i += 1;
        }
        if i >= self.running.len() {
            return None;
        }
        proof {
            assert(self.running@[i as int] == seq);
            lemma_first(self.running@, seq, i as int);
        }
        let _ = self.running.remove(i);
        let what = match outcome {
            Some(o) => o,
            None => Outcome::Failed,
        };
        let (failing, conflict) = state.settle(seq, what, now);
        self.failing = failing;
        conflict
    }
}

proof fn lemma_first(s: Seq<i64>, x: i64, i: int)
    requires
        0 <= i < s.len(),
        s[i] == x,
        forall|j: int| #![trigger s[j]] 0 <= j < i ==> s[j] != x,
    ensures
        s.contains(x),
        s.index_of_first(x) == Some(i),
{
    s.index_of_first_ensures(x);
    let k = s.index_of_first(x)->0;
    assert(s[k] == x);
    if k < i {
        assert(s[k] != x);
    }
}

/// However many plans are picked at a time, no two that touch are replayed at
/// the same time.
pub proof fn law_a_turn_keeps_replays_apart(s: StateView, room: nat, now: Tick)
    requires
        is_exclusive(s.journal.pending),
    ensures
        is_exclusive(all_picked(s, room, now).journal.pending),
    decreases room,
{
    if room > 0 && is_ready(s, now) {
        let i = pick(s, now);
        assert(is_pick(s.journal.pending, i, now));
        law_a_pick_keeps_replays_apart(s.journal.pending, i, now);
        law_a_turn_keeps_replays_apart(picked(s, now), (room - 1) as nat, now);
    }
}

/// No room is wasted: a turn ends with all places taken, or with no plan that may
/// be replayed.
pub proof fn law_no_room_is_wasted(s: StateView, room: nat, now: Tick)
    ensures
        picks(s, room, now).len() == room || !is_ready(all_picked(s, room, now), now),
        picks(s, room, now).len() <= room,
    decreases room,
{
    if room > 0 && is_ready(s, now) {
        law_no_room_is_wasted(picked(s, now), (room - 1) as nat, now);
    }
}

/// The uploads are told to be idle only when nothing is left to do and the last
/// attempt did not fail, and in trouble whenever it did.
pub proof fn law_what_is_told_of_the_uploads(failing: bool, idle: bool)
    ensures
        status_of(failing, idle) == UploadStatus::Error <==> failing,
        status_of(failing, idle) == UploadStatus::Idle <==> idle && !failing,
        status_of(failing, idle) == UploadStatus::Busy <==> !idle && !failing,
{
}

/// As many plans are replayed at a time as may be: those that run and those that
/// there is room for make up the number.
pub proof fn law_the_room_is_what_is_left(running: nat)
    ensures
        running <= CONCURRENCY ==> running + room(running) == CONCURRENCY,
        running > CONCURRENCY ==> room(running) == 0,
        room(0) == 4,
{
}

/// All is done exactly where nothing waits to be folded, no plan waits, and none is
/// being replayed.
pub proof fn law_when_all_is_done(s: StateView, running: Seq<i64>, i: int)
    ensures
        is_done(s, running) ==> !(0 <= i < s.journal.window.len()) && !(0 <= i < s.journal.pending.len())
            && !(0 <= i < running.len()),
        s.journal.window.len() + s.journal.pending.len() + running.len() == 0 ==> is_done(s, running),
{
}

/// A replay that has ended is struck off, once, and no other is.
pub proof fn law_a_replay_that_ended_is_struck_off(running: Seq<i64>, seq: i64)
    ensures
        struck(running, seq).to_multiset() == running.to_multiset().remove(seq),
        running.contains(seq) ==> struck(running, seq).len() == running.len() - 1,
        !running.contains(seq) ==> struck(running, seq) == running,
{
    running.to_multiset_ensures();
    if running.contains(seq) {
        running.index_of_first_ensures(seq);
        let i = running.index_of_first(seq)->0;
        assert(running[i] == seq);
    } else {
        assert(running.to_multiset().count(seq) == 0);
        assert(running.to_multiset().remove(seq) =~= running.to_multiset());
    }
}

/// A plan that is picked is marked as being replayed, and nothing else changes.
pub proof fn law_a_picked_plan_is_being_replayed(s: StateView, now: Tick, k: int)
    requires
        is_ready(s, now),
        0 <= k < s.journal.pending.len(),
    ensures
        ({
            let i = pick(s, now);
            let t = picked(s, now);
            let before = s.journal.pending;
            let after = t.journal.pending;
            &&& 0 <= i < before.len() && !before[i].running && before[i].due <= now
            &&& after.len() == before.len()
            &&& after[k].running == (before[k].running || k == i)
            &&& after[k].plan == before[k].plan
            &&& after[k].seq == before[k].seq
            &&& after[k].attempts == before[k].attempts
            &&& after[k].due == before[k].due
            &&& t.journal.window == s.journal.window
            &&& t.ledger == s.ledger
        }),
{
    let i = pick(s, now);
    assert(is_pick(s.journal.pending, i, now));
}

/// Whoever waits is answered once all is done and not before: nobody is answered
/// twice, and nobody is forgotten.
pub proof fn law_whoever_waits_is_answered(flushes: Seq<u64>, done: bool)
    ensures
        answered(flushes, done) + still_waiting(flushes, done) == flushes,
        done ==> still_waiting(flushes, done).len() == 0,
        !done ==> answered(flushes, done).len() == 0,
{
    assert(answered(flushes, done) + still_waiting(flushes, done) =~= flushes);
}

proof fn lemma_picked_plans(s: StateView, room: nat, now: Tick, k: int)
    ensures
        ({
            let before = s.journal.pending;
            let after = all_picked(s, room, now).journal.pending;
            &&& after.len() == before.len()
            &&& 0 <= k < before.len() ==> after[k].seq == before[k].seq && after[k].plan
                == before[k].plan && (before[k].running ==> after[k].running)
        }),
    decreases room,
{
    if room > 0 && is_ready(s, now) {
        let i = pick(s, now);
        assert(is_pick(s.journal.pending, i, now));
        lemma_picked_plans(picked(s, now), (room - 1) as nat, now, k);
    }
}

/// What is started is what is being replayed from now on: each plan that is started
/// was not being replayed before, is under its own number, and is marked as running.
/// No more are started than there is room for.
pub proof fn law_what_is_started_is_being_replayed(s: StateView, room: nat, now: Tick, j: int)
    requires
        0 <= j < picks(s, room, now).len(),
    ensures
        picks(s, room, now).len() <= room,
        exists|k: int|
            0 <= k < s.journal.pending.len() && picks(s, room, now)[j] == (
                (#[trigger] s.journal.pending[k]).seq,
                s.journal.pending[k].plan,
            ) && !s.journal.pending[k].running && all_picked(s, room, now).journal.pending[k].running,
    decreases room,
{
    if room > 0 && is_ready(s, now) {
        let i = pick(s, now);
        let t = picked(s, now);
        assert(is_pick(s.journal.pending, i, now));
        let rest = picks(t, (room - 1) as nat, now);
        if rest.len() > 0 {
            law_what_is_started_is_being_replayed(t, (room - 1) as nat, now, 0);
        }
        if j == 0 {
            lemma_picked_plans(t, (room - 1) as nat, now, i);
            assert(s.journal.pending[i].seq == picks(s, room, now)[0].0);
        } else {
            law_what_is_started_is_being_replayed(t, (room - 1) as nat, now, j - 1);
            let k = choose|k: int|
                0 <= k < t.journal.pending.len() && rest[j - 1] == (
                    (#[trigger] t.journal.pending[k]).seq,
                    t.journal.pending[k].plan,
                ) && !t.journal.pending[k].running && all_picked(
                    t,
                    (room - 1) as nat,
                    now,
                ).journal.pending[k].running;
            assert(k != i);
            assert(s.journal.pending[k] == t.journal.pending[k]);
        }
    }
}

} // verus!
