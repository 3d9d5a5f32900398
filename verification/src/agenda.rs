//! The agenda of a client without a journal: each edited file is uploaded once it
//! has been quiet for a while, and tried again if that fails.
use crate::model::paths_view;
use crate::path::{within, RelPath};
use crate::scheduler::{answered, status, status_of, still_waiting, UploadStatus};
use crate::settle::{delay, delay_after};
use crate::state::{Tick, HORIZON};
use crate::table::{in_order, lemma_set_finite, lemma_walk_of_finite, walk, PathMap, PathSet};
use vstd::prelude::*;

verus! {

/// How long a file has to be left alone before it is uploaded.
pub const QUIET: Tick = 5_000_000_000;

/// What came of an upload: it is done, or the file changed meanwhile.
#[derive(Clone, Copy, Debug, PartialEq, Eq, Structural)]
pub enum Upload {
    Done,
    Retry,
}

/// When each file is to be uploaded, how often that has failed, those who wait
/// until all is uploaded, and whether the last upload failed.
pub struct Agenda {
    pub pending: PathMap<Tick>,
    pub attempts: PathMap<u32>,
    pub flushes: Vec<u64>,
    pub failing: bool,
}

/// An agenda by its contents.
#[verifier::ext_equal]
pub struct AgendaView {
    pub pending: Map<Seq<char>, Tick>,
    pub attempts: Map<Seq<char>, u32>,
    pub flushes: Seq<u64>,
    pub failing: bool,
}

impl View for Agenda {
    type V = AgendaView;

    open spec fn view(&self) -> AgendaView {
        AgendaView {
            pending: self.pending@,
            attempts: self.attempts@,
            flushes: self.flushes@,
            failing: self.failing,
        }
    }
}

/// The agenda with a file that is to be uploaded at a given time.
pub open spec fn scheduled(a: AgendaView, p: Seq<char>, at: Tick) -> AgendaView {
    AgendaView { pending: a.pending.insert(p, at), ..a }
}

/// A map without a path and all that lies below it.
pub open spec fn cleared<V>(m: Map<Seq<char>, V>, dir: Seq<char>) -> Map<Seq<char>, V> {
    m.restrict(m.dom().filter(|k: Seq<char>| !within(k, dir)))
}

/// The agenda with some files that are to be uploaded at once.
pub open spec fn all_scheduled(
    pending: Map<Seq<char>, Tick>,
    dirty: Set<Seq<char>>,
    now: Tick,
) -> Map<Seq<char>, Tick> {
    pending.union_prefer_right(Map::new(|p: Seq<char>| dirty.contains(p), |p: Seq<char>| now))
}

/// How often the upload of a file has failed.
pub open spec fn failures(a: AgendaView, p: Seq<char>) -> u32 {
    if a.attempts.dom().contains(p) {
        a.attempts[p]
    } else {
        0
    }
}

/// The agenda after the upload of a file has ended.
pub open spec fn concluded(
    a: AgendaView,
    p: Seq<char>,
    outcome: Result<Upload, ()>,
    now: Tick,
) -> AgendaView {
    match outcome {
        Ok(Upload::Done) => AgendaView { attempts: a.attempts.remove(p), failing: false, ..a },
        Ok(Upload::Retry) => scheduled(a, p, (now + QUIET) as Tick),
        Err(_) => {
            let n = (failures(a, p) + 1) as u32;
            AgendaView {
                attempts: a.attempts.insert(p, n),
                failing: true,
                pending: a.pending.insert(p, (now + delay_after(n as nat)) as Tick),
                ..a
            }
        },
    }
}

/// The files that are due, in order.
pub open spec fn due_in(
    paths: Seq<Seq<char>>,
    pending: Map<Seq<char>, Tick>,
    now: Tick,
) -> Seq<Seq<char>>
    decreases paths.len(),
{
    if paths.len() == 0 {
        Seq::empty()
    } else {
        let before = due_in(paths.drop_last(), pending, now);
        if pending[paths.last()] <= now {
            before.push(paths.last())
        } else {
            before
        }
    }
}

/// A time is the earliest at which something is to be uploaded.
pub open spec fn is_earliest(pending: Map<Seq<char>, Tick>, at: Tick) -> bool {
    &&& exists|p: Seq<char>| #[trigger] pending.dom().contains(p) && pending[p] == at
    &&& forall|p: Seq<char>| #[trigger] pending.dom().contains(p) ==> at <= pending[p]
}

impl Default for Agenda {
    fn default() -> (r: Agenda)
        ensures
            r@ == (AgendaView {
                pending: Map::empty(),
                attempts: Map::empty(),
                flushes: Seq::empty(),
                failing: false,
            }),
    {
        Agenda {
            pending: PathMap::new(),
            attempts: PathMap::new(),
            flushes: Vec::new(),
            failing: false,
        }
    }
}

impl Agenda {
    /// When to look again.
    pub fn next(&self) -> (r: Option<Tick>)
        ensures
            match r {
                Some(at) => is_earliest(self@.pending, at),
                None => self@.pending == Map::<Seq<char>, Tick>::empty(),
            },
    {
        let n: usize = self.pending.len();
        if n == 0 {
            proof {
                assert(self@.pending =~= Map::<Seq<char>, Tick>::empty());
            }
            return None;
        }
        let ghost keys = walk(self@.pending);
        proof {
            lemma_walk_of_finite(self@.pending.dom());
        }
        let mut least: Tick = *self.pending.value(0);
        proof {
            assert(self@.pending[keys[0]] == least);
        }
        let mut i: usize = 1;
        while i < n
            invariant
                1 <= i <= n,
                n == keys.len(),
                keys == walk(self@.pending),
                exists|j: int|
                    0 <= j < i && self@.pending.dom().contains(#[trigger] keys[j])
                        && self@.pending[keys[j]] == least,
                forall|j: int|
                    #![trigger keys[j]]
                    0 <= j < i ==> least <= self@.pending[keys[j]],
            decreases n - i,
        {
            let at: Tick = *self.pending.value(i);
            if at < least {
                least = at;
                proof {
                    assert(self@.pending[keys[i as int]] == least);
                }
            }
            i += 1;
        }
        proof {
            assert forall|p: Seq<char>| #[trigger] self@.pending.dom().contains(p) implies least
                <= self@.pending[p] by {
                assert(keys.to_set().contains(p));
                let j = choose|j: int| 0 <= j < keys.len() && keys[j] == p;
                assert(least <= self@.pending[keys[j]]);
            }
        }
        Some(least)
    }

    /// A file was edited.
    pub fn arm(&mut self, path: RelPath, now: Tick)
        requires
            now <= HORIZON,
        ensures
            final(self)@ == scheduled(old(self)@, path@, (now + QUIET) as Tick),
    {
        self.pending.insert(path, now + QUIET);
    }

    /// A file is to be uploaded at once.
    pub fn at_once(&mut self, path: RelPath, now: Tick)
        ensures
            final(self)@ == scheduled(old(self)@, path@, now),
    {
        self.pending.insert(path, now);
    }

    /// A file or a directory is not to be uploaded any more.
    pub fn cancel(&mut self, path: &RelPath)
        ensures
            final(self)@ == (AgendaView {
                pending: cleared(old(self)@.pending, path@),
                attempts: cleared(old(self)@.attempts, path@),
                ..old(self)@
            }),
    {
        self.pending.remove_within(path);
        self.attempts.remove_within(path);
    }

    /// Somebody waits until all is uploaded: all that holds edits is due now. The
    /// one who waits is answered at once if there is nothing to do.
    pub fn flush(&mut self, waiter: u64, dirty: &PathSet, now: Tick) -> (r: Option<u64>)
        ensures
            ({
                let pending = all_scheduled(old(self)@.pending, dirty@, now);
                let idle = pending == Map::<Seq<char>, Tick>::empty();
                &&& r == if idle {
                    Some(waiter)
                } else {
                    None
                }
                &&& final(self)@ == (AgendaView {
                    pending,
                    flushes: if idle {
                        old(self)@.flushes
                    } else {
                        old(self)@.flushes.push(waiter)
                    },
                    ..old(self)@
                })
            }),
    {
        let ghost before = self@;
        let n: usize = dirty.len();
        let ghost keys = in_order(dirty@);
        proof {
            lemma_set_finite(*dirty);
            lemma_walk_of_finite(dirty@);
            assert(self@.pending =~= all_scheduled(
                before.pending,
                keys.take(0).to_set(),
                now,
            ));
        }
        let mut i: usize = 0;
        while i < n
            invariant
                i <= n,
                n == in_order(dirty@).len(),
                keys == in_order(dirty@),
                self@ == (AgendaView {
                    pending: all_scheduled(before.pending, keys.take(i as int).to_set(), now),
                    ..before
                }),
            decreases n - i,
        {
            let ghost so_far = keys.take(i as int).to_set();
            self.pending.insert(dirty.key(i).clone(), now);
            proof {
                let long = keys.take(i + 1);
                let short = keys.take(i as int);
                let next = long.to_set();
                assert forall|p: Seq<char>| next.contains(p) <==> so_far.insert(
                    keys[i as int],
                ).contains(p) by {
                    if so_far.contains(p) {
                        let j = choose|j: int| 0 <= j < short.len() && short[j] == p;
                        assert(long[j] == p);
                    }
                    assert(long[i as int] == keys[i as int]);
                    if next.contains(p) {
                        let j = choose|j: int| 0 <= j < long.len() && long[j] == p;
                        if j < i {
                            assert(short[j] == p);
                        }
                    }
                }
                assert(self@.pending =~= all_scheduled(before.pending, next, now));
            }
            i += 1;
        }
        proof {
            assert(keys.take(i as int) =~= keys);
        }
        if self.pending.is_empty() {
            Some(waiter)
        } else {
            self.flushes.push(waiter);
            None
        }
    }

    /// The files that are due, in order.
    pub fn due(&self, now: Tick) -> (r: Vec<RelPath>)
        ensures
            paths_view(r@) == due_in(walk(self@.pending), self@.pending, now),
    {
        let n: usize = self.pending.len();
        let ghost keys = walk(self@.pending);
        let mut out: Vec<RelPath> = Vec::new();
        let mut i: usize = 0;
        proof {
            assert(paths_view(out@) =~= Seq::empty());
        }
        while i < n
            invariant
                i <= n,
                n == keys.len(),
                keys == walk(self@.pending),
                paths_view(out@) == due_in(keys.take(i as int), self@.pending, now),
            decreases n - i,
        {
            let ghost before = paths_view(out@);
            proof {
                let so_far = keys.take(i + 1);
                assert(so_far.drop_last() =~= keys.take(i as int));
                assert(so_far.last() == keys[i as int]);
            }
            if *self.pending.value(i) <= now {
                out.push(self.pending.key(i).clone());
                proof {
                    assert(paths_view(out@) =~= before.push(keys[i as int]));
                }
            }
            i += 1;
        }
        proof {
            assert(keys.take(i as int) =~= keys);
        }
        out
    }

    /// The upload of a file begins.
    pub fn begin(&mut self, path: &RelPath)
        ensures
            final(self)@ == (AgendaView {
                pending: old(self)@.pending.remove(path@),
                ..old(self)@
            }),
    {
        let _ = self.pending.remove(path);
    }

    /// How often the upload of a file has failed.
    pub fn tries(&self, path: &RelPath) -> (r: u32)
        ensures
            r == failures(self@, path@),
    {
        match self.attempts.get(path) {
            Some(n) => *n,
            None => 0,
        }
    }

    /// The upload of a file has ended.
    pub fn conclude(&mut self, path: &RelPath, outcome: Result<Upload, ()>, now: Tick)
        requires
            now <= HORIZON,
            failures(old(self)@, path@) < u32::MAX,
        ensures
            final(self)@ == concluded(old(self)@, path@, outcome, now),
    {
        match outcome {
            Ok(Upload::Done) => {
                let _ = self.attempts.remove(path);
                self.failing = false;
            },
            Ok(Upload::Retry) => {
                self.pending.insert(path.clone(), now + QUIET);
            },
            Err(_) => {
                let n: u32 = self.tries(path) + 1;
                proof {
                    crate::settle::law_retries_back_off(n as nat, n as nat);
                }
                self.attempts.insert(path.clone(), n);
                self.failing = true;
                self.pending.insert(path.clone(), now + delay(n));
            },
        }
    }

    /// All that was due has been uploaded or tried: who waits is answered if
    /// nothing is left, and this is told.
    pub fn finish(&mut self) -> (r: (Vec<u64>, UploadStatus))
        ensures
            ({
                let idle = old(self)@.pending == Map::<Seq<char>, Tick>::empty();
                &&& r.0@ == answered(old(self)@.flushes, idle)
                &&& r.1 == status_of(old(self)@.failing, idle)
                &&& final(self)@ == (AgendaView {
                    flushes: still_waiting(old(self)@.flushes, idle),
                    ..old(self)@
                })
            }),
    {
        let idle = self.pending.is_empty();
        let mut replies: Vec<u64> = Vec::new();
        if idle {
            std::mem::swap(&mut replies, &mut self.flushes);
        }
        (replies, status(self.failing, idle))
    }
}

proof fn lemma_due_in(
    paths: Seq<Seq<char>>,
    pending: Map<Seq<char>, Tick>,
    now: Tick,
    p: Seq<char>,
)
    ensures
        due_in(paths, pending, now).contains(p) <==> paths.contains(p) && pending[p] <= now,
    decreases paths.len(),
{
    if paths.len() > 0 {
        let init = paths.drop_last();
        let before = due_in(init, pending, now);
        let r = due_in(paths, pending, now);
        lemma_due_in(init, pending, now, p);
        if paths.contains(p) {
            let j = choose|j: int| 0 <= j < paths.len() && paths[j] == p;
            if j < init.len() {
                assert(init[j] == p);
            }
        }
        if init.contains(p) {
            let j = choose|j: int| 0 <= j < init.len() && init[j] == p;
            assert(paths[j] == p);
        }
        if before.contains(p) {
            let j = choose|j: int| 0 <= j < before.len() && before[j] == p;
            assert(r[j] == p);
        }
        if r.contains(p) && !before.contains(p) {
            let j = choose|j: int| 0 <= j < r.len() && r[j] == p;
            if j < before.len() {
                assert(before[j] == p);
            }
            assert(paths[paths.len() - 1] == paths.last());
        }
        if paths.last() == p && pending[p] <= now {
            assert(r[r.len() - 1] == p);
        }
    }
}

/// A file is due exactly when its time has come, and what is due soonest is due
/// at the time that `next` tells.
pub proof fn law_a_file_is_due_when_its_time_has_come(
    pending: Map<Seq<char>, Tick>,
    p: Seq<char>,
    now: Tick,
)
    requires
        pending.dom().finite(),
    ensures
        due_in(walk(pending), pending, now).contains(p) <==> pending.dom().contains(p)
            && pending[p] <= now,
        forall|at: Tick| #[trigger]
            is_earliest(pending, at) && now < at ==> due_in(walk(pending), pending, now).len() == 0,
{
    let keys = walk(pending);
    lemma_walk_of_finite(pending.dom());
    lemma_due_in(keys, pending, now, p);
    assert(keys.contains(p) <==> keys.to_set().contains(p));
    assert forall|at: Tick| #[trigger] is_earliest(pending, at) && now < at implies due_in(
        keys,
        pending,
        now,
    ).len() == 0 by {
        let due = due_in(keys, pending, now);
        if due.len() > 0 {
            let q = due[0];
            assert(due.contains(q));
            lemma_due_in(keys, pending, now, q);
            assert(keys.to_set().contains(q));
            assert(pending.dom().contains(q));
        }
    }
}

/// No edit is lost: a file whose upload has begun is on the agenda again, later,
/// unless the upload is done.
pub proof fn law_a_file_stays_on_the_agenda_until_it_is_uploaded(
    a: AgendaView,
    p: Seq<char>,
    outcome: Result<Upload, ()>,
    now: Tick,
)
    requires
        now <= HORIZON,
        failures(a, p) < u32::MAX,
        !a.pending.dom().contains(p),
    ensures
        concluded(a, p, outcome, now).pending.dom().contains(p) <==> outcome
            != Ok::<Upload, ()>(Upload::Done),
        outcome != Ok::<Upload, ()>(Upload::Done) ==> concluded(a, p, outcome, now).pending[p]
            > now,
        outcome is Err ==> failures(concluded(a, p, outcome, now), p) == failures(a, p) + 1,
{
    crate::settle::law_retries_back_off(
        (failures(a, p) + 1) as nat,
        (failures(a, p) + 1) as nat,
    );
}

/// What becomes of a file whose upload has ended. Done: its failures are forgotten
/// and there is no trouble. To be tried again: a short while later. Failed: there is
/// trouble, and it waits the longer the more often it failed. Other files are left
/// alone, and so is whoever waits.
pub proof fn law_how_an_upload_is_concluded(
    a: AgendaView,
    p: Seq<char>,
    outcome: Result<Upload, ()>,
    now: Tick,
    q: Seq<char>,
)
    requires
        now <= HORIZON,
        failures(a, p) < u32::MAX,
        q != p,
    ensures
        ({
            let b = concluded(a, p, outcome, now);
            &&& outcome matches Ok(Upload::Done) ==> failures(b, p) == 0 && !b.failing && b.pending
                == a.pending
            &&& outcome matches Ok(Upload::Retry) ==> failures(b, p) == failures(a, p) && b.failing
                == a.failing && b.pending[p] == now + QUIET
            &&& outcome is Err ==> failures(b, p) == failures(a, p) + 1 && b.failing && b.pending[p]
                == now + delay_after((failures(a, p) + 1) as nat)
            &&& failures(b, q) == failures(a, q)
            &&& b.pending.dom().contains(q) == a.pending.dom().contains(q)
            &&& a.pending.dom().contains(q) ==> b.pending[q] == a.pending[q]
            &&& b.flushes == a.flushes
        }),
{
    crate::settle::law_retries_back_off(
        (failures(a, p) + 1) as nat,
        (failures(a, p) + 1) as nat,
    );
}

/// A file that is put on the agenda is due at its time. Where all edits are to go at
/// once, each edited file is due now, and the others stay as they were.
pub proof fn law_what_is_on_the_agenda(
    a: AgendaView,
    dirty: Set<Seq<char>>,
    p: Seq<char>,
    at: Tick,
    q: Seq<char>,
)
    ensures
        scheduled(a, p, at).pending.dom().contains(p) && scheduled(a, p, at).pending[p] == at,
        q != p ==> scheduled(a, p, at).pending.dom().contains(q) == a.pending.dom().contains(q)
            && scheduled(a, p, at).pending[q] == a.pending[q],
        scheduled(a, p, at).attempts == a.attempts,
        ({
            let all = all_scheduled(a.pending, dirty, at);
            &&& dirty.contains(p) ==> all.dom().contains(p) && all[p] == at
            &&& !dirty.contains(p) ==> all.dom().contains(p) == a.pending.dom().contains(p)
            &&& !dirty.contains(p) && a.pending.dom().contains(p) ==> all[p] == a.pending[p]
        }),
{
}

/// What is removed leaves the agenda, with all that lies below it, and nothing else
/// does.
pub proof fn law_what_is_removed_leaves_the_agenda(
    m: Map<Seq<char>, Tick>,
    dir: Seq<char>,
    p: Seq<char>,
)
    ensures
        cleared(m, dir).dom().contains(p) <==> m.dom().contains(p) && p != dir && !crate::path::below(
            p,
            dir,
        ),
        cleared(m, dir).dom().contains(p) ==> cleared(m, dir)[p] == m[p],
{
}

} // verus!
