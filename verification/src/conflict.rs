//! The conflicts that nobody has decided yet, and what follows when somebody
//! does.
use crate::ledger::{observed, with_write, Write};
use crate::model::{Conflict, Observation, Operation, Resolution};
use crate::path::RelPath;
use crate::rows::conflicts_view;
use crate::settle::with_ledger;
use crate::state::{is_sound, recorded, State, StateView, Tick, HORIZON};
use vstd::prelude::*;

verus! {

/// The conflicts that nobody has decided yet, oldest first.
pub struct Conflicts {
    pub list: Vec<Conflict>,
}

impl View for Conflicts {
    type V = Seq<Conflict<Seq<char>>>;

    open spec fn view(&self) -> Seq<Conflict<Seq<char>>> {
        conflicts_view(self.list@)
    }
}

/// The place of the first conflict with a number, or -1.
pub open spec fn spot(list: Seq<Conflict<Seq<char>>>, seq: i64) -> int
    decreases list.len(),
{
    if list.len() == 0 {
        -1
    } else {
        let before = spot(list.drop_last(), seq);
        if before >= 0 {
            before
        } else if list.last().seq == seq {
            list.len() - 1
        } else {
            -1
        }
    }
}

proof fn lemma_spot(list: Seq<Conflict<Seq<char>>>, seq: i64)
    ensures
        -1 <= spot(list, seq) < list.len(),
        spot(list, seq) >= 0 ==> list[spot(list, seq)].seq == seq,
        forall|j: int|
            #![trigger list[j]]
            0 <= j < list.len() && (j < spot(list, seq) || spot(list, seq) < 0) ==> list[j].seq
                != seq,
    decreases list.len(),
{
    if list.len() > 0 {
        let init = list.drop_last();
        lemma_spot(init, seq);
        let k = spot(list, seq);
        assert forall|j: int|
            #![trigger list[j]]
            0 <= j < list.len() && (j < k || k < 0) implies list[j].seq != seq by {
            if j < init.len() {
                assert(init[j] == list[j]);
            }
        }
        if spot(init, seq) >= 0 {
            assert(init[spot(init, seq)] == list[spot(init, seq)]);
        }
    }
}

impl Conflicts {
    /// The conflicts that were left from the last run.
    pub fn load(list: Vec<Conflict>) -> (r: Conflicts)
        ensures
            r@ == conflicts_view(list@),
    {
        Conflicts { list }
    }

    /// One more conflict, under the number that it was stored with.
    pub fn add(&mut self, conflict: Conflict, seq: i64)
        ensures
            final(self)@ == old(self)@.push(Conflict { seq, ..conflict@ }),
    {
        let ghost before = self@;
        let mut c = conflict;
        c.seq = seq;
        self.list.push(c);
        proof {
            assert(self@ =~= before.push(Conflict { seq, ..conflict@ }));
        }
    }

    /// Takes a conflict off the list.
    pub fn take(&mut self, seq: i64) -> (r: Option<Conflict>)
        ensures
            match r {
                Some(c) => {
                    let i = spot(old(self)@, seq);
                    &&& i >= 0
                    &&& c@ == old(self)@[i]
                    &&& c@.seq == seq
                    &&& final(self)@ == old(self)@.remove(i)
                },
                None => spot(old(self)@, seq) < 0 && final(self)@ == old(self)@,
            },
    {
        let ghost before = self@;
        proof {
            lemma_spot(before, seq);
        }
        let mut i: usize = 0;
        while i < self.list.len() && self.list[i].seq != seq
            invariant
                i <= self.list@.len(),
                self@ == before,
                forall|j: int| #![trigger before[j]] 0 <= j < i ==> before[j].seq != seq,
            decreases self.list@.len() - i,
        {
            proof {
                assert(before[i as int] == self.list@[i as int]@);
            }
            i += 1;
        }
        if i >= self.list.len() {
            proof {
                if spot(before, seq) >= 0 {
                    assert(before[spot(before, seq)].seq != seq);
                }
            }
            return None;
        }
        proof {
            let k = spot(before, seq);
            assert(before[i as int] == self.list@[i as int]@);
            assert(before[i as int].seq == seq);
            if k >= 0 && k < i {
                assert(before[k].seq != seq);
            }
        }
        let c = self.list.remove(i);
        proof {
            assert(self@ =~= before.remove(i as int));
        }
        Some(c)
    }

    /// All conflicts.
    pub fn all(&self) -> (r: Vec<Conflict>)
        ensures
            conflicts_view(r@) == self@,
    {
        let mut out: Vec<Conflict> = Vec::new();
        let mut i: usize = 0;
        while i < self.list.len()
            invariant
                i <= self.list@.len(),
                out@.len() == i,
                forall|j: int| #![trigger out@[j]] 0 <= j < i ==> out@[j] == self.list@[j],
            decreases self.list@.len() - i,
        {
            out.push(self.list[i].clone());
            i += 1;
        }
        proof {
            assert(conflicts_view(out@) =~= self@);
        }
        out
    }
}

/// What is still to be done after a conflict has been decided.
#[derive(Debug)]
#[allow(inconsistent_fields)]
pub enum Verdict<P = RelPath> {
    /// There is no such conflict.
    Unknown,
    /// Nothing.
    Settled,
    /// Our copy is removed here; the server will remove it too.
    Discard(P),
    /// Our copy takes the place of the file here. If that succeeds, the rename is
    /// recorded.
    Restore { ours: P, path: P },
}

impl View for Verdict {
    type V = Verdict<Seq<char>>;

    open spec fn view(&self) -> Verdict<Seq<char>> {
        match self {
            Verdict::Unknown => Verdict::Unknown,
            Verdict::Settled => Verdict::Settled,
            Verdict::Discard(p) => Verdict::Discard(p@),
            Verdict::Restore { ours, path } => Verdict::Restore { ours: ours@, path: path@ },
        }
    }
}

/// The state after the version that was found has become the one that may be
/// replaced: that of a written or a removed file.
pub open spec fn conceded(s: StateView, c: Conflict<Seq<char>>) -> StateView {
    match (c.found, c.op) {
        (Some(found), Operation::Write(path)) => with_ledger(s, observed(s.ledger, path, found)),
        (Some(found), Operation::Delete(path)) => with_ledger(s, observed(s.ledger, path, found)),
        _ => s,
    }
}

/// The state and what is still to be done after a conflict has been decided.
pub open spec fn resolved(
    s: StateView,
    c: Conflict<Seq<char>>,
    resolution: Resolution,
    now: Tick,
) -> (StateView, Verdict<Seq<char>>) {
    let t = with_ledger(s, with_write(s.ledger, Write::ForgetConflict(c.seq)));
    match resolution {
        Resolution::Both => (t, Verdict::Settled),
        Resolution::Theirs => match c.ours {
            Some(ours) => (recorded(t, Operation::Delete(ours), now), Verdict::Discard(ours)),
            None => (t, Verdict::Settled),
        },
        Resolution::Ours => {
            let u = conceded(t, c);
            match (c.ours, c.op) {
                (Some(ours), Operation::Write(path)) => (u, Verdict::Restore { ours, path }),
                _ => (recorded(u, c.op, now), Verdict::Settled),
            }
        },
    }
}

impl State {
    /// Decides a conflict: it is off the list, and what follows from the decision
    /// is recorded.
    pub fn resolve(
        &mut self,
        conflicts: &mut Conflicts,
        seq: i64,
        resolution: Resolution,
        now: Tick,
    ) -> (r: Verdict)
        requires
            is_sound(old(self)@),
            now <= HORIZON,
        ensures
            is_sound(final(self)@),
            ({
                let i = spot(old(conflicts)@, seq);
                if i < 0 {
                    &&& r is Unknown
                    &&& final(self)@ == old(self)@
                    &&& final(conflicts)@ == old(conflicts)@
                } else {
                    &&& (final(self)@, r@) == resolved(
                        old(self)@,
                        old(conflicts)@[i],
                        resolution,
                        now,
                    )
                    &&& final(conflicts)@ == old(conflicts)@.remove(i)
                }
            }),
    {
        let conflict = match conflicts.take(seq) {
            Some(c) => c,
            None => {
                return Verdict::Unknown;
            },
        };
        self.ledger.conflict_retire(seq);
        match resolution {
            Resolution::Both => Verdict::Settled,
            Resolution::Theirs => match conflict.ours {
                Some(ours) => {
                    self.record(Operation::Delete(ours.clone()), now);
                    Verdict::Discard(ours)
                },
                None => Verdict::Settled,
            },
            Resolution::Ours => {
                match (conflict.found, &conflict.op) {
                    (Some(found), Operation::Write(path)) => {
                        self.ledger.observe(path, found);
                    },
                    (Some(found), Operation::Delete(path)) => {
                        self.ledger.observe(path, found);
                    },
                    _ => {},
                }
                match (conflict.ours, conflict.op) {
                    (Some(ours), Operation::Write(path)) => Verdict::Restore { ours, path },
                    (_, op) => {
                        self.record(op, now);
                        Verdict::Settled
                    },
                }
            },
        }
    }
}

/// Whoever keeps both versions changes nothing but the list on disk.
pub proof fn law_keeping_both_changes_nothing(
    s: StateView,
    c: Conflict<Seq<char>>,
    now: Tick,
)
    ensures
        resolved(s, c, Resolution::Both, now).0 == with_ledger(
            s,
            with_write(s.ledger, Write::ForgetConflict(c.seq)),
        ),
{
}

/// Ours wins over exactly the version that was found: that is the version which
/// may be replaced from now on.
pub proof fn law_ours_replaces_what_was_found(
    s: StateView,
    c: Conflict<Seq<char>>,
    path: Seq<char>,
    found: Observation,
    now: Tick,
)
    requires
        c.op == Operation::Write(path),
        c.found == Some(found),
        c.ours is Some,
    ensures
        crate::journal::lease(
            resolved(s, c, Resolution::Ours, now).0.ledger.observations,
            path,
        ) == Some(found),
        resolved(s, c, Resolution::Ours, now).1 == (Verdict::Restore {
            ours: c.ours->0,
            path,
        }),
{
}

/// Whoever decides for ours has their operation repeated, except where our version
/// waits in a copy: that takes the place of the file instead, and the rename that
/// this is follows.
pub proof fn law_ours_is_done_again(s: StateView, c: Conflict<Seq<char>>, now: Tick)
    ensures
        ({
            let (after, verdict) = resolved(s, c, Resolution::Ours, now);
            let copied = c.ours is Some && c.op is Write;
            &&& !copied ==> verdict is Settled && after.journal.window.len() > 0
                && after.journal.window.last() == (now, c.op)
            &&& copied ==> verdict == (Verdict::Restore { ours: c.ours->0, path: c.op->Write_0 })
                && after.journal == s.journal
        }),
{
}

/// Whoever decides for theirs has our copy removed, here and on the server, and
/// nothing else done.
pub proof fn law_theirs_discards_our_copy(s: StateView, c: Conflict<Seq<char>>, now: Tick)
    ensures
        ({
            let (after, verdict) = resolved(s, c, Resolution::Theirs, now);
            &&& c.ours matches Some(ours) ==> verdict == Verdict::Discard(ours)
                && after.journal.window.len() > 0 && after.journal.window.last() == (
                now,
                Operation::Delete(ours),
            )
            &&& c.ours is None ==> verdict is Settled && after.journal == s.journal
            &&& after.ledger.observations == s.ledger.observations
            &&& after.journal.pending == s.journal.pending
        }),
{
}

/// A decision is for one version: the version that was found is the one that may be
/// replaced from now on if ours wins over a file that was written or removed, and
/// of everything else it is known what was known.
pub proof fn law_a_decision_concedes_what_was_found(
    s: StateView,
    c: Conflict<Seq<char>>,
    resolution: Resolution,
    now: Tick,
    p: Seq<char>,
)
    ensures
        ({
            let after = resolved(s, c, resolution, now).0.ledger.observations;
            let wins = resolution is Ours && c.found is Some && (c.op == Operation::Write(p) || c.op
                == Operation::Delete(p));
            crate::journal::lease(after, p) == if wins {
                c.found
            } else {
                crate::journal::lease(s.ledger.observations, p)
            }
        }),
{
}

/// A conflict that has been decided is off the list on disk, whatever was decided.
pub proof fn law_a_decided_conflict_is_forgotten(
    s: StateView,
    c: Conflict<Seq<char>>,
    resolution: Resolution,
    now: Tick,
)
    ensures
        ({
            let writes = resolved(s, c, resolution, now).0.ledger.writes;
            &&& writes.len() > s.ledger.writes.len()
            &&& writes.take(s.ledger.writes.len() as int) == s.ledger.writes
            &&& writes[s.ledger.writes.len() as int] == Write::<Seq<char>, Seq<u8>>::ForgetConflict(
                c.seq,
            )
        }),
        resolved(s, c, resolution, now).0.journal.pending == s.journal.pending,
        resolution is Both ==> resolved(s, c, resolution, now).1 is Settled,
{
    let writes = resolved(s, c, resolution, now).0.ledger.writes;
    assert(writes.take(s.ledger.writes.len() as int) =~= s.ledger.writes);
}

/// The conflict that is decided is the first with the number, and it is found if
/// there is any.
pub proof fn law_a_conflict_is_found_by_its_number(list: Seq<Conflict<Seq<char>>>, seq: i64)
    ensures
        -1 <= spot(list, seq) < list.len(),
        spot(list, seq) >= 0 <==> exists|i: int| 0 <= i < list.len() && (#[trigger] list[i]).seq == seq,
        spot(list, seq) >= 0 ==> list[spot(list, seq)].seq == seq,
        forall|i: int| 0 <= i < spot(list, seq) ==> (#[trigger] list[i]).seq != seq,
{
    lemma_spot(list, seq);
    if spot(list, seq) >= 0 {
        assert(list[spot(list, seq)].seq == seq);
    }
}

} // verus!
