//! Picking plans to replay, and what follows from what came of it.
use crate::ledger::{
    disowned, observed, transferred, unobserved, with_write, LedgerView, Write,
};
use crate::model::{plans_overlap, Conflict, Observation, Operation, Plan};
use crate::path::RelPath;
use crate::play::{conflict_view, Outcome};
use crate::state::{
    entries_view, is_numbered, is_sound, place, recorded, refreshed, without, Entry, JournalView,
    State, StateView, Tick, BUSY_WAIT, HORIZON, RETRY, RETRY_CAP,
};
use vstd::prelude::*;

verus! {

/// Two to the power of `k`.
pub open spec fn doubled(k: nat) -> nat
    decreases k,
{
    if k == 0 {
        1
    } else {
        2 * doubled((k - 1) as nat)
    }
}

/// How long a plan waits after it has failed `n` times: twice as long each time,
/// up to the longest wait.
pub open spec fn delay_after(n: nat) -> nat {
    let k = if n >= 6 {
        5nat
    } else if n >= 1 {
        (n - 1) as nat
    } else {
        0nat
    };
    let d = RETRY as nat * doubled(k);
    if d <= RETRY_CAP {
        d
    } else {
        RETRY_CAP as nat
    }
}

/// How long a plan waits after it has failed `n` times.
pub fn delay(n: u32) -> (r: Tick)
    ensures
        r == delay_after(n as nat),
{
    let k: u32 = if n >= 6 {
        5
    } else if n >= 1 {
        n - 1
    } else {
        0
    };
    let mut d: Tick = RETRY;
    let mut i: u32 = 0;
    while i < k
        invariant
            i <= k <= 5,
            d == RETRY * doubled(i as nat),
            doubled(i as nat) <= 32,
            i == 0 ==> doubled(i as nat) == 1,
            i == 1 ==> doubled(i as nat) == 2,
            i == 2 ==> doubled(i as nat) == 4,
            i == 3 ==> doubled(i as nat) == 8,
            i == 4 ==> doubled(i as nat) == 16,
        decreases k - i,
    {
        d = d * 2;
        i += 1;
    }
    if d <= RETRY_CAP {
        d
    } else {
        RETRY_CAP
    }
}

/// Retries back off: the wait never gets shorter, is never shorter than the
/// first one, and never longer than the longest.
pub proof fn law_retries_back_off(n: nat, m: nat)
    requires
        1 <= n <= m,
    ensures
        RETRY <= delay_after(n) <= delay_after(m) <= RETRY_CAP,
        n >= 6 ==> delay_after(n) == RETRY_CAP,
        delay_after(1) == RETRY,
{
    reveal_with_fuel(doubled, 6);
    assert(doubled(0) == 1 && doubled(1) == 2 && doubled(2) == 4 && doubled(3) == 8 && doubled(4) == 16
        && doubled(5) == 32);
}

/// The plan may be replayed: it is not being replayed, it is due, and no plan
/// before it touches it.
pub open spec fn is_runnable(pending: Seq<Entry<Seq<char>>>, i: int, now: Tick) -> bool {
    &&& !pending[i].running
    &&& pending[i].due <= now
    &&& forall|j: int|
        0 <= j < i ==> !plans_overlap((#[trigger] pending[j]).plan, pending[i].plan)
}

/// The plan is the first that may be replayed.
pub open spec fn is_pick(pending: Seq<Entry<Seq<char>>>, i: int, now: Tick) -> bool {
    &&& 0 <= i < pending.len()
    &&& is_runnable(pending, i, now)
    &&& forall|k: int| 0 <= k < i ==> !#[trigger] is_runnable(pending, k, now)
}

/// The plans with the one at `i` being replayed, or not any more.
pub open spec fn flagged(
    pending: Seq<Entry<Seq<char>>>,
    i: int,
    running: bool,
) -> Seq<Entry<Seq<char>>> {
    pending.update(i, Entry { running, ..pending[i] })
}

/// The state with other plans.
pub open spec fn with_pending(s: StateView, pending: Seq<Entry<Seq<char>>>) -> StateView {
    StateView { journal: JournalView { pending, ..s.journal }, ..s }
}

/// The state with another ledger.
pub open spec fn with_ledger(s: StateView, ledger: LedgerView) -> StateView {
    StateView { ledger, ..s }
}

/// The state after a plan is done with.
pub open spec fn retired(s: StateView, seq: i64) -> StateView {
    refreshed(
        with_ledger(
            with_pending(s, without(s.journal.pending, seq)),
            with_write(s.ledger, Write::Retire(seq)),
        ),
    )
}

/// The ledger after a version may have been seen.
pub open spec fn maybe_observed(
    l: LedgerView,
    p: Seq<char>,
    o: Option<Observation>,
) -> LedgerView {
    match o {
        Some(o) => observed(l, p, o),
        None => l,
    }
}

/// The ledger after a signature may have been made.
pub open spec fn maybe_signed(l: LedgerView, p: Seq<char>, sig: Option<Seq<u8>>) -> LedgerView {
    match sig {
        Some(sig) => with_write(l, Write::Sign(p, sig)),
        None => l,
    }
}

/// The state after what came of replaying `plan` has been taken in, before the
/// plan is struck off. What was removed or moved on the server is known to be so
/// from now on; edits that came here meanwhile keep their marks.
pub open spec fn learned(
    s: StateView,
    plan: Plan<Seq<char>>,
    outcome: Outcome<Seq<char>, Seq<u8>>,
    now: Tick,
) -> StateView {
    match outcome {
        Outcome::Saved { obs, sig, reedited } => match plan {
            Plan::Save { path, replaces, reuses } => {
                let t = with_ledger(
                    s,
                    maybe_signed(maybe_observed(s.ledger, path, obs), path, sig),
                );
                if reedited {
                    recorded(t, Operation::Write(path), now)
                } else {
                    t
                }
            },
            _ => s,
        },
        Outcome::Diverted { theirs, copy, obs, sig, reedited, conflict } => {
            let l = match plan {
                Plan::Save { path, replaces, reuses } => maybe_observed(s.ledger, path, theirs),
                _ => s.ledger,
            };
            let t = with_ledger(s, maybe_signed(maybe_observed(l, copy, obs), copy, sig));
            if reedited {
                recorded(t, Operation::Write(copy), now)
            } else {
                t
            }
        },
        Outcome::Moved => match plan {
            Plan::Move { from, to, moves } => with_ledger(s, transferred(s.ledger, from, to)),
            _ => s,
        },
        Outcome::MoveLost { theirs, resurrect, conflict } => {
            let t = match plan {
                Plan::Move { from, to, moves } => with_ledger(
                    s,
                    match theirs {
                        Some(o) => observed(s.ledger, from, o),
                        None => unobserved(s.ledger, from),
                    },
                ),
                _ => s,
            };
            match resurrect {
                Some(to) => recorded(t, Operation::Write(to), now),
                None => t,
            }
        },
        Outcome::Removed => match plan {
            Plan::Remove { path, removes } => with_ledger(s, disowned(s.ledger, path)),
            _ => s,
        },
        Outcome::RemoveLost { theirs, conflict } => match plan {
            Plan::Remove { path, removes } => with_ledger(s, observed(s.ledger, path, theirs)),
            _ => s,
        },
        Outcome::Busy => s,
        Outcome::Failed => s,
    }
}

/// The conflict that came of replaying a plan.
pub open spec fn met(outcome: Outcome<Seq<char>, Seq<u8>>) -> Option<Conflict<Seq<char>>> {
    match outcome {
        Outcome::Diverted { theirs, copy, obs, sig, reedited, conflict } => Some(conflict),
        Outcome::MoveLost { theirs, resurrect, conflict } => conflict,
        Outcome::RemoveLost { theirs, conflict } => Some(conflict),
        _ => None,
    }
}

/// One more failure, as far as one can count.
pub open spec fn failed_again(n: u32) -> u32 {
    if n < u32::MAX {
        (n + 1) as u32
    } else {
        n
    }
}

/// The state after the plan with the number has been replayed: it waits and is
/// tried again if the path was busy or if it failed, else what came of it is
/// taken in and it is struck off.
pub open spec fn settled(
    s: StateView,
    seq: i64,
    outcome: Outcome<Seq<char>, Seq<u8>>,
    now: Tick,
) -> StateView {
    let i = place(s.journal.pending, seq);
    if i < 0 {
        s
    } else {
        let t = with_pending(s, flagged(s.journal.pending, i, false));
        let e = t.journal.pending[i];
        match outcome {
            Outcome::Busy => with_pending(
                t,
                t.journal.pending.update(i, Entry { due: (now + BUSY_WAIT) as Tick, ..e }),
            ),
            Outcome::Failed => {
                let n = failed_again(e.attempts);
                with_pending(
                    t,
                    t.journal.pending.update(
                        i,
                        Entry {
                            attempts: n,
                            due: (now + delay_after(n as nat)) as Tick,
                            ..e
                        },
                    ),
                )
            },
            _ => retired(learned(t, e.plan, outcome, now), seq),
        }
    }
}

pub proof fn lemma_flagged(pending: Seq<Entry<Seq<char>>>, i: int, e: Entry<Seq<char>>)
    requires
        is_numbered(pending),
        0 <= i < pending.len(),
        e.seq == pending[i].seq,
    ensures
        is_numbered(pending.update(i, e)),
{
    let now = pending.update(i, e);
    assert forall|a: int, b: int| #![trigger now[a], now[b]] 0 <= a < b < now.len() implies now[a].seq
        < now[b].seq by {
        assert(pending[a].seq < pending[b].seq);
    }
}

impl State {
    /// Picks the first plan that may be replayed. It is being replayed from now
    /// on, until `settle` is told what came of it.
    pub fn next(&mut self, now: Tick) -> (r: Option<(i64, Plan)>)
        requires
            is_sound(old(self)@),
        ensures
            is_sound(final(self)@),
            match r {
                Some((seq, plan)) => {
                    let i = place(old(self)@.journal.pending, seq);
                    &&& is_pick(old(self)@.journal.pending, i, now)
                    &&& plan@ == old(self)@.journal.pending[i].plan
                    &&& final(self)@ == with_pending(
                        old(self)@,
                        flagged(old(self)@.journal.pending, i, true),
                    )
                },
                None => {
                    &&& forall|i: int|
                        0 <= i < old(self)@.journal.pending.len() ==> !#[trigger] is_runnable(
                            old(self)@.journal.pending,
                            i,
                            now,
                        )
                    &&& final(self)@ == old(self)@
                },
            },
    {
        let ghost before = self@;
        let ghost view = self@.journal.pending;
        let n: usize = self.journal.pending.len();
        let mut i: usize = 0;
        while i < n
            invariant
                i <= n,
                n == self.journal.pending@.len(),
                self@ == before,
                before == old(self)@,
                is_sound(before),
                view == before.journal.pending,
                view == entries_view(self.journal.pending@),
                forall|k: int| 0 <= k < i ==> !#[trigger] is_runnable(view, k, now),
            decreases n - i,
        {
            if self.may_run(i, now) {
                let seq: i64 = self.journal.pending[i].seq;
                let plan = self.journal.pending[i].plan.clone();
                self.journal.pending[i].running = true;
                proof {
                    assert(view[i as int].seq == seq);
                    crate::state::lemma_place_is(view, i as int);
                    assert(is_pick(view, i as int, now));
                    assert(self@.journal.pending =~= flagged(view, i as int, true));
                    lemma_flagged(view, i as int, Entry { running: true, ..view[i as int] });
                    assert(self@ =~= with_pending(before, flagged(view, i as int, true)));
                }
                return Some((seq, plan));
            }
            i += 1;
        }
        None
    }

    fn may_run(&self, i: usize, now: Tick) -> (r: bool)
        requires
            i < self@.journal.pending.len(),
        ensures
            r == is_runnable(self@.journal.pending, i as int, now),
    {
        let ghost view = self@.journal.pending;
        let e = &self.journal.pending[i];
        proof {
            assert(view[i as int] == e@);
        }
        if e.running || e.due > now {
            return false;
        }
        let mut j: usize = 0;
        while j < i
            invariant
                j <= i < self.journal.pending@.len(),
                view == entries_view(self.journal.pending@),
                e@ == view[i as int],
                forall|k: int| 0 <= k < j ==> !plans_overlap((#[trigger] view[k]).plan, view[i as int].plan),
            decreases i - j,
        {
            proof {
                assert(view[j as int] == self.journal.pending@[j as int]@);
            }
            if self.journal.pending[j].plan.overlaps(&e.plan) {
                return false;
            }
            j += 1;
        }
        true
    }

    fn retire(&mut self, seq: i64)
        requires
            is_sound(old(self)@),
        ensures
            final(self)@ == retired(old(self)@, seq),
            is_sound(final(self)@),
    {
        let ghost before = self@;
        proof {
            crate::state::lemma_without(before.journal.pending, seq);
        }
        match crate::state::locate(&self.journal.pending, seq) {
            Some(i) => {
                let _ = self.journal.pending.remove(i);
                proof {
                    assert(self@.journal.pending =~= before.journal.pending.remove(i as int));
                }
            },
            None => {},
        }
        self.ledger.journal_retire(seq);
        proof {
            assert(self@ =~= with_ledger(
                with_pending(before, without(before.journal.pending, seq)),
                with_write(before.ledger, Write::Retire(seq)),
            ));
        }
        self.refresh();
    }

    fn learn_saved(
        &mut self,
        path: &RelPath,
        obs: Option<Observation>,
        sig: Option<Vec<u8>>,
    )
        ensures
            final(self)@ == with_ledger(
                old(self)@,
                maybe_signed(
                    maybe_observed(old(self)@.ledger, path@, obs),
                    path@,
                    crate::play::sig_view(sig),
                ),
            ),
    {
        match obs {
            Some(obs) => {
                self.ledger.observe(path, obs);
            },
            None => {},
        }
        match sig {
            Some(sig) => {
                self.ledger.sign_set(path, sig);
            },
            None => {},
        }
    }

    /// Takes in what came of replaying a plan: whether it failed, and the
    /// conflict that was met.
    pub fn settle(&mut self, seq: i64, outcome: Outcome, now: Tick) -> (r: (bool, Option<Conflict>))
        requires
            is_sound(old(self)@),
            now <= HORIZON,
        ensures
            final(self)@ == settled(old(self)@, seq, outcome@, now),
            is_sound(final(self)@),
            r.0 == (outcome@ is Failed && place(old(self)@.journal.pending, seq) >= 0),
            conflict_view(r.1) == if place(old(self)@.journal.pending, seq) >= 0 {
                met(outcome@)
            } else {
                None
            },
    {
        let ghost before = self@;
        let i: usize = match crate::state::locate(&self.journal.pending, seq) {
            Some(i) => i,
            None => {
                return (false, None);
            },
        };
        self.journal.pending[i].running = false;
        let ghost t = with_pending(before, flagged(before.journal.pending, i as int, false));
        proof {
            assert(self@.journal.pending =~= flagged(before.journal.pending, i as int, false));
            lemma_flagged(
                before.journal.pending,
                i as int,
                Entry { running: false, ..before.journal.pending[i as int] },
            );
            assert(self@ =~= t);
        }
        let plan = self.journal.pending[i].plan.clone();
        let ghost pv = plan@;
        let ghost ov = outcome@;
        proof {
            assert(pv == t.journal.pending[i as int].plan);
        }
        match outcome {
            Outcome::Saved { obs, sig, reedited } => {
                match &plan {
                    Plan::Save { path, .. } => {
                        self.learn_saved(path, obs, sig);
                        if reedited {
                            self.record(Operation::Write(path.clone()), now);
                        }
                    },
                    _ => {},
                }
                proof {
                    assert(self@ == learned(t, pv, ov, now));
                }
                self.retire(seq);
                (false, None)
            },
            Outcome::Diverted { theirs, copy, obs, sig, reedited, conflict } => {
                match &plan {
                    Plan::Save { path, .. } => {
                        match theirs {
                            Some(theirs) => {
                                self.ledger.observe(path, theirs);
                            },
                            None => {},
                        }
                    },
                    _ => {},
                }
                self.learn_saved(&copy, obs, sig);
                if reedited {
                    self.record(Operation::Write(copy), now);
                }
                proof {
                    assert(self@ == learned(t, pv, ov, now));
                }
                self.retire(seq);
                (false, Some(conflict))
            },
            Outcome::Moved => {
                match &plan {
                    Plan::Move { from, to, .. } => {
                        self.ledger.transfer(from, to);
                    },
                    _ => {},
                }
                proof {
                    assert(self@ == learned(t, pv, ov, now));
                }
                self.retire(seq);
                (false, None)
            },
            Outcome::MoveLost { theirs, resurrect, conflict } => {
                match &plan {
                    Plan::Move { from, .. } => {
                        match theirs {
                            Some(theirs) => {
                                self.ledger.observe(from, theirs);
                            },
                            None => {
                                self.ledger.unobserve(from);
                            },
                        }
                    },
                    _ => {},
                }
                match resurrect {
                    Some(to) => {
                        self.record(Operation::Write(to), now);
                    },
                    None => {},
                }
                proof {
                    assert(self@ == learned(t, pv, ov, now));
                }
                self.retire(seq);
                (false, conflict)
            },
            Outcome::Removed => {
                match &plan {
                    Plan::Remove { path, .. } => {
                        self.ledger.disown(path);
                    },
                    _ => {},
                }
                proof {
                    assert(self@ == learned(t, pv, ov, now));
                }
                self.retire(seq);
                (false, None)
            },
            Outcome::RemoveLost { theirs, conflict } => {
                match &plan {
                    Plan::Remove { path, .. } => {
                        self.ledger.observe(path, theirs);
                    },
                    _ => {},
                }
                proof {
                    assert(self@ == learned(t, pv, ov, now));
                }
                self.retire(seq);
                (false, Some(conflict))
            },
            Outcome::Busy => {
                self.journal.pending[i].due = now + BUSY_WAIT;
                proof {
                    let e = Entry {
                        due: (now + BUSY_WAIT) as Tick,
                        ..t.journal.pending[i as int]
                    };
                    assert(self@.journal.pending =~= t.journal.pending.update(i as int, e));
                    lemma_flagged(t.journal.pending, i as int, e);
                    assert(self@ =~= settled(before, seq, ov, now));
                }
                (false, None)
            },
            Outcome::Failed => {
                let n: u32 = self.journal.pending[i].attempts.saturating_add(1);
                let d: Tick = delay(n);
                proof {
                    law_retries_back_off(n as nat, n as nat);
                }
                self.journal.pending[i].attempts = n;
                self.journal.pending[i].due = now + d;
                proof {
                    let e = Entry {
                        attempts: n,
                        due: (now + delay_after(n as nat)) as Tick,
                        ..t.journal.pending[i as int]
                    };
                    assert(self@.journal.pending =~= t.journal.pending.update(i as int, e));
                    lemma_flagged(t.journal.pending, i as int, e);
                    assert(self@ =~= settled(before, seq, ov, now));
                }
                (true, None)
            },
        }
    }
}

} // verus!
