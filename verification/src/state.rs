//! The journal: what happened and is not folded yet, what is planned, and how
//! both change as operations come in and plans are replayed.
use crate::ledger::{with_write, Ledger, LedgerView, Write};
use crate::model::{ops_view, paths_view, plan_paths, Fate, Observation, Operation, Plan};
use crate::path::RelPath;
use crate::rows::{
    journal_load, marks_in, numbered_view, plans_in, rows_view, JournalRow,
};
use crate::table::{PathMap, PathSet};
use vstd::prelude::*;

verus! {

/// A time on a clock that never goes back, in nanoseconds.
pub type Tick = u64;

/// How long nothing must happen before what happened is folded.
pub const WINDOW_QUIET: Tick = 250_000_000;

/// How long folding may be put off at most.
pub const WINDOW_MAX: Tick = 2_000_000_000;

/// How long the edits of a file that is open for writing are held back.
pub const OPEN_QUIET: Tick = 5_000_000_000;

/// How long a plan waits after its first failure.
pub const RETRY: Tick = 10_000_000_000;

/// How long a plan waits at most after a failure.
pub const RETRY_CAP: Tick = 300_000_000_000;

/// How long a plan waits for a path that is being renamed or removed.
pub const BUSY_WAIT: Tick = 1_000_000_000;

/// The last time at which a wait can still be put on the clock.
pub const HORIZON: Tick = 18_446_743_773_709_551_615;

/// A plan that is not done: its number, how often it failed, when it may be
/// replayed next, and whether it is being replayed.
#[derive(Debug)]
pub struct Entry<P = RelPath> {
    pub seq: i64,
    pub plan: Plan<P>,
    pub attempts: u32,
    pub due: Tick,
    pub running: bool,
}

impl View for Entry {
    type V = Entry<Seq<char>>;

    open spec fn view(&self) -> Entry<Seq<char>> {
        Entry {
            seq: self.seq,
            plan: self.plan@,
            attempts: self.attempts,
            due: self.due,
            running: self.running,
        }
    }
}

/// The entries by the characters of their paths.
pub open spec fn entries_view(v: Seq<Entry>) -> Seq<Entry<Seq<char>>> {
    Seq::new(v.len(), |i: int| v[i]@)
}

/// What happened, by the characters of the paths.
pub open spec fn window_view(v: Seq<(Tick, Operation)>) -> Seq<(Tick, Operation<Seq<char>>)> {
    Seq::new(v.len(), |i: int| (v[i].0, v[i].1@))
}

/// The journal: what happened and when; which files were written; where files
/// that hold edits have been renamed to; the plans by their numbers; how often
/// each file is open for writing. The files of both lists are marked on disk.
#[verifier::ext_equal]
pub struct JournalView {
    pub window: Seq<(Tick, Operation<Seq<char>>)>,
    pub marks: Set<Seq<char>>,
    pub trail: Set<Seq<char>>,
    pub pending: Seq<Entry<Seq<char>>>,
    pub writing: Map<Seq<char>, usize>,
}

/// The journal and the ledger.
#[verifier::ext_equal]
pub struct StateView {
    pub journal: JournalView,
    pub ledger: LedgerView,
}

/// The journal in memory.
pub struct Journal {
    pub window: Vec<(Tick, Operation)>,
    pub marks: PathSet,
    pub trail: PathSet,
    pub pending: Vec<Entry>,
    pub writing: PathMap<usize>,
}

impl View for Journal {
    type V = JournalView;

    open spec fn view(&self) -> JournalView {
        JournalView {
            window: window_view(self.window@),
            marks: self.marks@,
            trail: self.trail@,
            pending: entries_view(self.pending@),
            writing: self.writing@,
        }
    }
}

/// The journal and the ledger in memory.
pub struct State {
    pub journal: Journal,
    pub ledger: Ledger,
}

impl View for State {
    type V = StateView;

    open spec fn view(&self) -> StateView {
        StateView { journal: self.journal@, ledger: self.ledger@ }
    }
}

/// The entries are in the order of their numbers, each number once.
pub open spec fn is_numbered(pending: Seq<Entry<Seq<char>>>) -> bool {
    forall|i: int, j: int|
        #![trigger pending[i], pending[j]]
        0 <= i < j < pending.len() ==> pending[i].seq < pending[j].seq
}

/// The journal is in order: the plans are numbered, and nothing happened after
/// the last time that the clock can wait from.
pub open spec fn is_sound(s: StateView) -> bool {
    &&& is_numbered(s.journal.pending)
    &&& forall|i: int|
        #![trigger s.journal.window[i]]
        0 <= i < s.journal.window.len() ==> s.journal.window[i].0 <= HORIZON
}

/// The paths that an operation names.
pub open spec fn paths_of(op: Operation<Seq<char>>) -> Seq<Seq<char>> {
    match op {
        Operation::Create(p) => seq![p],
        Operation::Write(p) => seq![p],
        Operation::Rename(a, b) => seq![a, b],
        Operation::Delete(p) => seq![p],
    }
}

/// The paths that an operation names.
pub fn op_paths(op: &Operation) -> (r: Vec<&RelPath>)
    ensures
        r@.len() == paths_of(op@).len(),
        forall|i: int| #![trigger r@[i]] 0 <= i < r@.len() ==> r@[i]@ == paths_of(op@)[i],
{
    let mut out: Vec<&RelPath> = Vec::new();
    match op {
        Operation::Create(p) => {
            out.push(p);
        },
        Operation::Write(p) => {
            out.push(p);
        },
        Operation::Delete(p) => {
            out.push(p);
        },
        Operation::Rename(a, b) => {
            out.push(a);
            out.push(b);
        },
    }
    out
}

fn same_op(a: &Operation, b: &Operation) -> (r: bool)
    ensures
        r == (a@ == b@),
{
    match (a, b) {
        (Operation::Create(p), Operation::Create(q)) => p == q,
        (Operation::Write(p), Operation::Write(q)) => p == q,
        (Operation::Rename(p, x), Operation::Rename(q, y)) => p == q && x == y,
        (Operation::Delete(p), Operation::Delete(q)) => p == q,
        _ => false,
    }
}

/// A file is marked on disk.
pub open spec fn is_marked(j: JournalView, p: Seq<char>) -> bool {
    j.marks.contains(p) || j.trail.contains(p)
}

/// The ledger with the mark of a file to be stored, unless it is on disk already.
pub open spec fn with_mark(s: StateView, p: Seq<char>) -> LedgerView {
    if is_marked(s.journal, p) {
        s.ledger
    } else {
        with_write(s.ledger, Write::Mark(p))
    }
}

/// What follows from an operation: a write leaves edits, which are marked on disk
/// the first time; edits move with their file, which is marked under its new name
/// too, and go with it.
pub open spec fn noticed(s: StateView, op: Operation<Seq<char>>) -> StateView {
    match op {
        Operation::Create(p) => noticed_edit(s, p),
        Operation::Write(p) => noticed_edit(s, p),
        Operation::Rename(a, b) => if s.ledger.dirty.contains(a) {
            StateView {
                journal: JournalView { trail: s.journal.trail.insert(b), ..s.journal },
                ledger: LedgerView {
                    dirty: s.ledger.dirty.remove(a).insert(b),
                    ..with_mark(s, b)
                },
            }
        } else {
            s
        },
        Operation::Delete(p) => StateView {
            ledger: LedgerView { dirty: s.ledger.dirty.remove(p), ..s.ledger },
            ..s
        },
    }
}

/// What follows from an edit.
pub open spec fn noticed_edit(s: StateView, p: Seq<char>) -> StateView {
    StateView {
        journal: JournalView { marks: s.journal.marks.insert(p), ..s.journal },
        ledger: LedgerView { dirty: s.ledger.dirty.insert(p), ..with_mark(s, p) },
    }
}

/// The state after an operation at `now`. The same operation again only moves
/// the time of the last one.
pub open spec fn recorded(s: StateView, op: Operation<Seq<char>>, now: Tick) -> StateView {
    let n = s.journal.window.len();
    if n > 0 && s.journal.window.last().1 == op {
        StateView {
            journal: JournalView {
                window: s.journal.window.update(n - 1, (now, op)),
                ..s.journal
            },
            ..s
        }
    } else {
        let t = noticed(s, op);
        StateView {
            journal: JournalView { window: t.journal.window.push((now, op)), ..t.journal },
            ..t
        }
    }
}

/// The plans with `e` among them, in place of the one that had its number.
pub open spec fn put(
    pending: Seq<Entry<Seq<char>>>,
    e: Entry<Seq<char>>,
) -> Seq<Entry<Seq<char>>>
    decreases pending.len(),
{
    if pending.len() == 0 {
        seq![e]
    } else if pending.last().seq > e.seq {
        put(pending.drop_last(), e).push(pending.last())
    } else if pending.last().seq == e.seq {
        pending.drop_last().push(e)
    } else {
        pending.push(e)
    }
}

/// The plans without the one that has the number.
pub open spec fn without(pending: Seq<Entry<Seq<char>>>, seq: i64) -> Seq<Entry<Seq<char>>>
    decreases pending.len(),
{
    if pending.len() == 0 {
        pending
    } else if pending.last().seq == seq {
        without(pending.drop_last(), seq)
    } else {
        without(pending.drop_last(), seq).push(pending.last())
    }
}

/// Which place in the list has the number, or -1.
pub open spec fn place(pending: Seq<Entry<Seq<char>>>, seq: i64) -> int
    decreases pending.len(),
{
    if pending.len() == 0 {
        -1
    } else if pending.last().seq == seq {
        pending.len() - 1
    } else {
        place(pending.drop_last(), seq)
    }
}

/// A plan that has just been made.
pub open spec fn fresh(seq: i64, plan: Plan<Seq<char>>, now: Tick) -> Entry<Seq<char>> {
    Entry { seq, plan, attempts: 0, due: now, running: false }
}

/// The plans with new ones among them, each due at once.
pub open spec fn put_all(
    pending: Seq<Entry<Seq<char>>>,
    rows: Seq<(i64, Plan<Seq<char>>)>,
    now: Tick,
) -> Seq<Entry<Seq<char>>>
    decreases rows.len(),
{
    if rows.len() == 0 {
        pending
    } else {
        put(
            put_all(pending, rows.drop_last(), now),
            fresh(rows.last().0, rows.last().1, now),
        )
    }
}

pub proof fn lemma_put(pending: Seq<Entry<Seq<char>>>, e: Entry<Seq<char>>)
    requires
        is_numbered(pending),
    ensures
        is_numbered(put(pending, e)),
        put(pending, e).contains(e),
        forall|i: int|
            #![trigger put(pending, e)[i]]
            0 <= i < put(pending, e).len() ==> put(pending, e)[i] == e || pending.contains(
                put(pending, e)[i],
            ),
        forall|i: int|
            #![trigger pending[i]]
            0 <= i < pending.len() && pending[i].seq != e.seq ==> put(pending, e).contains(
                pending[i],
            ),
    decreases pending.len(),
{
    let now = put(pending, e);
    if pending.len() == 0 {
        assert(now[0] == e);
    } else {
        let front = pending.drop_last();
        let last = pending.last();
        assert(is_numbered(front)) by {
            assert forall|i: int, j: int|
                #![trigger front[i], front[j]]
                0 <= i < j < front.len() implies front[i].seq < front[j].seq by {
                assert(pending[i].seq < pending[j].seq);
            }
        }
        if last.seq > e.seq {
            let before = put(front, e);
            lemma_put(front, e);
            assert forall|i: int| #![trigger before[i]] 0 <= i < before.len() implies before[i].seq
                < last.seq by {
                if before[i] != e {
                    let j = choose|j: int| 0 <= j < front.len() && front[j] == before[i];
                    assert(pending[j].seq < pending[pending.len() - 1].seq);
                }
            }
            assert forall|i: int, j: int| #![trigger now[i], now[j]] 0 <= i < j < now.len() implies now[i].seq
                < now[j].seq by {
                if j < before.len() {
                    assert(before[i].seq < before[j].seq);
                } else {
                    assert(now[i] == before[i]);
                }
            }
            let k = choose|k: int| 0 <= k < before.len() && before[k] == e;
            assert(now[k] == e);
            assert forall|i: int| #![trigger now[i]] 0 <= i < now.len() implies now[i] == e
                || pending.contains(now[i]) by {
                if i < before.len() {
                    assert(now[i] == before[i]);
                    if before[i] != e {
                        let j = choose|j: int| 0 <= j < front.len() && front[j] == before[i];
                        assert(pending[j] == now[i]);
                    }
                } else {
                    assert(pending[pending.len() - 1] == now[i]);
                }
            }
            assert forall|i: int| #![trigger pending[i]] 0 <= i < pending.len() && pending[i].seq != e.seq implies now.contains(
            pending[i]) by {
                if i < front.len() {
                    assert(front[i] == pending[i]);
                    assert(before.contains(front[i]));
                    let j = choose|j: int| 0 <= j < before.len() && before[j] == front[i];
                    assert(now[j] == pending[i]);
                } else {
                    assert(now[now.len() - 1] == pending[i]);
                }
            }
        } else {
            let kept = if last.seq == e.seq {
                front
            } else {
                pending
            };
            assert(now == kept.push(e));
            assert(now[kept.len() as int] == e);
            assert forall|i: int| #![trigger kept[i]] 0 <= i < kept.len() implies kept[i].seq < e.seq
                && pending[i] == kept[i] by {
                if i < pending.len() - 1 {
                    assert(pending[i].seq < pending[pending.len() - 1].seq);
                }
            }
            assert forall|i: int, j: int| #![trigger now[i], now[j]] 0 <= i < j < now.len() implies now[i].seq
                < now[j].seq by {
                assert(kept[i].seq < e.seq);
                if j < kept.len() {
                    assert(pending[i].seq < pending[j].seq);
                    assert(kept[j] == pending[j]);
                }
            }
            assert forall|i: int| #![trigger now[i]] 0 <= i < now.len() implies now[i] == e
                || pending.contains(now[i]) by {
                if i < kept.len() {
                    assert(kept[i].seq < e.seq);
                    assert(pending[i] == now[i]);
                }
            }
            assert forall|i: int| #![trigger pending[i]] 0 <= i < pending.len() && pending[i].seq != e.seq implies now.contains(
            pending[i]) by {
                assert(i < kept.len());
                assert(now[i] == pending[i]);
            }
        }
    }
}

proof fn lemma_put_all(
    pending: Seq<Entry<Seq<char>>>,
    rows: Seq<(i64, Plan<Seq<char>>)>,
    now: Tick,
)
    requires
        is_numbered(pending),
    ensures
        is_numbered(put_all(pending, rows, now)),
    decreases rows.len(),
{
    if rows.len() > 0 {
        lemma_put_all(pending, rows.drop_last(), now);
        lemma_put(
            put_all(pending, rows.drop_last(), now),
            fresh(rows.last().0, rows.last().1, now),
        );
    }
}

pub proof fn lemma_place(pending: Seq<Entry<Seq<char>>>, seq: i64)
    ensures
        -1 <= place(pending, seq) < pending.len(),
        place(pending, seq) >= 0 ==> pending[place(pending, seq)].seq == seq,
        place(pending, seq) < 0 ==> forall|i: int|
            #![trigger pending[i]]
            0 <= i < pending.len() ==> pending[i].seq != seq,
    decreases pending.len(),
{
    if pending.len() > 0 && pending.last().seq != seq {
        let front = pending.drop_last();
        lemma_place(front, seq);
        if place(pending, seq) < 0 {
            assert forall|i: int| #![trigger pending[i]] 0 <= i < pending.len() implies pending[i].seq
                != seq by {
                if i < front.len() {
                    assert(front[i] == pending[i]);
                }
            }
        }
    }
}

pub proof fn lemma_place_is(pending: Seq<Entry<Seq<char>>>, i: int)
    requires
        is_numbered(pending),
        0 <= i < pending.len(),
    ensures
        place(pending, pending[i].seq) == i,
{
    let k = place(pending, pending[i].seq);
    lemma_place(pending, pending[i].seq);
    if k < 0 {
        assert(pending[i].seq != pending[i].seq);
    } else if k < i {
        assert(pending[k].seq < pending[i].seq);
    } else if k > i {
        assert(pending[i].seq < pending[k].seq);
    }
}

pub proof fn lemma_without(pending: Seq<Entry<Seq<char>>>, seq: i64)
    requires
        is_numbered(pending),
    ensures
        is_numbered(without(pending, seq)),
        place(pending, seq) < 0 ==> without(pending, seq) == pending,
        place(pending, seq) >= 0 ==> without(pending, seq) == pending.remove(place(pending, seq)),
    decreases pending.len(),
{
    if pending.len() > 0 {
        let front = pending.drop_last();
        assert(is_numbered(front)) by {
            assert forall|i: int, j: int|
                #![trigger front[i], front[j]]
                0 <= i < j < front.len() implies front[i].seq < front[j].seq by {
                assert(pending[i].seq < pending[j].seq);
            }
        }
        lemma_without(front, seq);
        lemma_place(pending, seq);
        lemma_place(front, seq);
        let now = without(pending, seq);
        if pending.last().seq == seq {
            if place(front, seq) >= 0 {
                assert(pending[place(front, seq)].seq < pending[pending.len() - 1].seq);
            }
            assert(now =~= pending.remove(pending.len() - 1));
        } else {
            if place(front, seq) >= 0 {
                assert(now =~= pending.remove(place(pending, seq)));
            } else {
                assert(now =~= pending);
            }
        }
        if place(pending, seq) >= 0 {
            let k = place(pending, seq);
            assert forall|i: int, j: int| #![trigger now[i], now[j]] 0 <= i < j < now.len() implies now[i].seq
                < now[j].seq by {
                let a = if i < k {
                    i
                } else {
                    i + 1
                };
                let b = if j < k {
                    j
                } else {
                    j + 1
                };
                assert(pending[a].seq < pending[b].seq);
            }
        }
    }
}

/// Where the entry with the number is.
pub fn locate(pending: &Vec<Entry>, seq: i64) -> (r: Option<usize>)
    requires
        is_numbered(entries_view(pending@)),
    ensures
        match r {
            Some(i) => i < pending@.len() && place(entries_view(pending@), seq) == i
                && pending@[i as int].seq == seq,
            None => place(entries_view(pending@), seq) < 0,
        },
{
    let ghost view = entries_view(pending@);
    let mut i: usize = 0;
    while i < pending.len()
        invariant
            i <= pending@.len(),
            view == entries_view(pending@),
            is_numbered(view),
            forall|j: int| #![trigger view[j]] 0 <= j < i ==> view[j].seq != seq,
        decreases pending@.len() - i,
    {
        if pending[i].seq == seq {
            proof {
                assert(view[i as int].seq == seq);
                lemma_place_is(view, i as int);
            }
            return Some(i);
        }
        i += 1;
    }
    proof {
        lemma_place(view, seq);
        if place(view, seq) >= 0 {
            assert(view[place(view, seq)].seq != seq);
        }
    }
    None
}

/// Puts an entry among the others, in place of the one that had its number.
fn put_entry(pending: &mut Vec<Entry>, e: Entry)
    requires
        is_numbered(entries_view(old(pending)@)),
    ensures
        entries_view(final(pending)@) == put(entries_view(old(pending)@), e@),
        is_numbered(entries_view(final(pending)@)),
{
    let ghost view = entries_view(pending@);
    let ghost ev = e@;
    proof {
        assert(is_numbered(put(view, ev))) by {
            lemma_put(view, ev);
        }
    }
    let mut n: usize = pending.len();
    proof {
        assert(view.take(n as int) =~= view);
        assert(put(view, ev) =~= put(view, ev) + view.skip(n as int));
    }
    while n > 0 && pending[n - 1].seq > e.seq
        invariant
            n <= pending@.len(),
            view == entries_view(pending@),
            ev == e@,
            put(view, ev) == put(view.take(n as int), ev) + view.skip(n as int),
        decreases n,
    {
        proof {
            let now = view.take(n as int);
            assert(now.drop_last() =~= view.take(n - 1));
            assert(now.last() == view[n - 1]);
            assert(put(now, ev) =~= put(view.take(n - 1), ev).push(view[n - 1]));
            assert(view.skip(n - 1) =~= seq![view[n - 1]] + view.skip(n as int));
            assert(put(view, ev) =~= put(view.take(n - 1), ev) + view.skip(n - 1));
        }
        n -= 1;
    }
    let ghost now = view.take(n as int);
    if n > 0 && pending[n - 1].seq == e.seq {
        let _ = pending.remove(n - 1);
        pending.insert(n - 1, e);
        proof {
            assert(now.last() == view[n - 1]);
            assert(put(now, ev) =~= now.drop_last().push(ev));
            assert(entries_view(pending@) =~= now.drop_last().push(ev) + view.skip(n as int));
        }
    } else {
        pending.insert(n, e);
        proof {
            if n > 0 {
                assert(now.last() == view[n - 1]);
                assert(put(now, ev) =~= now.push(ev));
            } else {
                assert(put(now, ev) =~= now.push(ev));
            }
            assert(entries_view(pending@) =~= now.push(ev) + view.skip(n as int));
        }
    }
}

/// The state in which a run begins: what was marked happened now, and every plan
/// that was left is due.
pub open spec fn opened(
    ledger: LedgerView,
    rows: Seq<JournalRow<Seq<char>>>,
    now: Tick,
) -> StateView {
    let ops = marks_in(rows);
    StateView {
        journal: JournalView {
            window: Seq::new(ops.len(), |i: int| (now, ops[i])),
            marks: all_paths(ops).to_set(),
            trail: Set::empty(),
            pending: put_all(Seq::empty(), plans_in(rows), now),
            writing: Map::empty(),
        },
        ledger,
    }
}

/// All the paths that the operations name, in order.
pub open spec fn all_paths(ops: Seq<Operation<Seq<char>>>) -> Seq<Seq<char>>
    decreases ops.len(),
{
    if ops.len() == 0 {
        Seq::empty()
    } else {
        all_paths(ops.drop_last()) + paths_of(ops.last())
    }
}

pub fn flat_paths(ops: &Vec<Operation>) -> (r: Vec<RelPath>)
    ensures
        paths_view(r@) == all_paths(ops_view(ops@)),
{
    let mut out: Vec<RelPath> = Vec::new();
    let mut i: usize = 0;
    proof {
        assert(paths_view(out@) =~= Seq::empty());
    }
    while i < ops.len()
        invariant
            i <= ops@.len(),
            paths_view(out@) == all_paths(ops_view(ops@).take(i as int)),
        decreases ops@.len() - i,
    {
        let ghost before = paths_view(out@);
        proof {
            let now = ops_view(ops@).take(i + 1);
            assert(now.drop_last() =~= ops_view(ops@).take(i as int));
            assert(now.last() == ops@[i as int]@);
        }
        match &ops[i] {
            Operation::Create(p) => {
                out.push(p.clone());
                proof {
                    assert(paths_view(out@) =~= before + seq![p@]);
                }
            },
            Operation::Write(p) => {
                out.push(p.clone());
                proof {
                    assert(paths_view(out@) =~= before + seq![p@]);
                }
            },
            Operation::Rename(a, b) => {
                out.push(a.clone());
                out.push(b.clone());
                proof {
                    assert(paths_view(out@) =~= before + seq![a@, b@]);
                }
            },
            Operation::Delete(p) => {
                out.push(p.clone());
                proof {
                    assert(paths_view(out@) =~= before + seq![p@]);
                }
            },
        }
        i += 1;
    }
    proof {
        assert(ops_view(ops@).take(i as int) =~= ops_view(ops@));
    }
    out
}

impl State {
    /// The state in which a run begins.
    pub fn open(ledger: Ledger, rows: &[JournalRow], now: Tick) -> (r: State)
        requires
            now <= HORIZON,
        ensures
            r@ == opened(ledger@, rows_view(rows@), now),
            is_sound(r@),
    {
        let (ops, plans) = journal_load(rows);
        let ghost oview = ops_view(ops@);
        let named = flat_paths(&ops);
        let ghost nview = paths_view(named@);
        let mut marks = PathSet::new();
        let mut i: usize = 0;
        while i < named.len()
            invariant
                i <= named@.len(),
                nview == paths_view(named@),
                marks@ == nview.take(i as int).to_set(),
            decreases named@.len() - i,
        {
            let ghost before = marks@;
            let _ = marks.insert(named[i].clone());
            proof {
                assert(nview.take(i + 1) =~= nview.take(i as int).push(nview[i as int]));
                lemma_push_set(nview.take(i as int), nview[i as int]);
            }
            i += 1;
        }
        proof {
            assert(nview.take(i as int) =~= nview);
        }
        let mut window: Vec<(Tick, Operation)> = Vec::new();
        let mut i: usize = 0;
        while i < ops.len()
            invariant
                i <= ops@.len(),
                oview == ops_view(ops@),
                window@.len() == i,
                forall|j: int| #![trigger window@[j]]
                    0 <= j < i ==> window@[j].0 == now && window@[j].1@ == oview[j],
            decreases ops@.len() - i,
        {
            window.push((now, ops[i].clone()));
            i += 1;
        }
        let mut journal = Journal {
            window,
            marks,
            trail: PathSet::new(),
            pending: Vec::new(),
            writing: PathMap::new(),
        };
        proof {
            assert(entries_view(journal.pending@) =~= Seq::empty());
        }
        journal.take_in(plans, now);
        let r = State { journal, ledger };
        proof {
            assert(r@.journal.window =~= opened(ledger@, rows_view(rows@), now).journal.window);
            assert(r@ =~= opened(ledger@, rows_view(rows@), now));
        }
        r
    }
}

pub proof fn lemma_push_set(s: Seq<Seq<char>>, k: Seq<char>)
    ensures
        s.push(k).to_set() == s.to_set().insert(k),
{
    assert forall|x: Seq<char>| s.push(k).to_set().contains(x) == s.to_set().insert(k).contains(x) by {
        if s.push(k).contains(x) && x != k {
            let i = choose|i: int| 0 <= i < s.push(k).len() && s.push(k)[i] == x;
            assert(s[i] == x);
        }
        if s.contains(x) {
            let i = choose|i: int| 0 <= i < s.len() && s[i] == x;
            assert(s.push(k)[i] == x);
        }
        assert(s.push(k)[s.len() as int] == k);
    }
    assert(s.push(k).to_set() =~= s.to_set().insert(k));
}

impl Journal {
    /// Takes new plans in, each due at once.
    pub fn take_in(&mut self, rows: Vec<(i64, Plan)>, now: Tick)
        requires
            is_numbered(old(self)@.pending),
        ensures
            final(self)@ == (JournalView {
                pending: put_all(old(self)@.pending, numbered_view(rows@), now),
                ..old(self)@
            }),
            is_numbered(final(self)@.pending),
    {
        let ghost before = self@;
        let ghost view = numbered_view(rows@);
        let mut i: usize = 0;
        while i < rows.len()
            invariant
                i <= rows@.len(),
                view == numbered_view(rows@),
                is_numbered(self@.pending),
                self@ == (JournalView {
                    pending: put_all(before.pending, view.take(i as int), now),
                    ..before
                }),
            decreases rows@.len() - i,
        {
            proof {
                let now_rows = view.take(i + 1);
                assert(now_rows.drop_last() =~= view.take(i as int));
                assert(now_rows.last() == (rows@[i as int].0, rows@[i as int].1@));
            }
            let e = Entry {
                seq: rows[i].0,
                plan: rows[i].1.clone(),
                attempts: 0,
                due: now,
                running: false,
            };
            put_entry(&mut self.pending, e);
            i += 1;
        }
        proof {
            assert(view.take(i as int) =~= view);
        }
    }
}

/// When the first of the plans that are not being replayed is due.
pub open spec fn least_due(pending: Seq<Entry<Seq<char>>>) -> Option<Tick>
    decreases pending.len(),
{
    if pending.len() == 0 {
        None
    } else {
        let before = least_due(pending.drop_last());
        let e = pending.last();
        if e.running {
            before
        } else {
            match before {
                Some(t) => if t <= e.due {
                    Some(t)
                } else {
                    Some(e.due)
                },
                None => Some(e.due),
            }
        }
    }
}

/// When there is something to do next: once nothing has happened for a while,
/// or once a plan is due.
pub open spec fn next_wake(s: StateView) -> Option<Tick> {
    let quiet = if s.journal.window.len() > 0 {
        Some((s.journal.window.last().0 + WINDOW_QUIET) as Tick)
    } else {
        None
    };
    match (quiet, least_due(s.journal.pending)) {
        (Some(a), Some(b)) => if a <= b {
            Some(a)
        } else {
            Some(b)
        },
        (Some(a), None) => Some(a),
        (None, b) => b,
    }
}

/// All plans are due now.
pub open spec fn hurried(pending: Seq<Entry<Seq<char>>>, now: Tick) -> Seq<Entry<Seq<char>>> {
    Seq::new(pending.len(), |i: int| Entry { due: now, ..pending[i] })
}

/// All the paths that the plans speak of.
pub open spec fn owed_by(pending: Seq<Entry<Seq<char>>>) -> Set<Seq<char>>
    decreases pending.len(),
{
    if pending.len() == 0 {
        Set::empty()
    } else {
        owed_by(pending.drop_last()).union(plan_paths(pending.last().plan).to_set())
    }
}

impl State {
    /// Takes note of an operation.
    pub fn record(&mut self, op: Operation, now: Tick)
        requires
            is_sound(old(self)@),
            now <= HORIZON,
        ensures
            final(self)@ == recorded(old(self)@, op@, now),
            is_sound(final(self)@),
    {
        let ghost before = self@;
        let n: usize = self.journal.window.len();
        if n > 0 && same_op(&self.journal.window[n - 1].1, &op) {
            let _ = self.journal.window.pop();
            self.journal.window.push((now, op));
            proof {
                assert(self@.journal.window =~= before.journal.window.update(n - 1, (now, op@)));
                assert(self@ =~= recorded(before, op@, now));
            }
            return ;
        }
        match &op {
            Operation::Create(p) => {
                self.notice_edit(p);
            },
            Operation::Write(p) => {
                self.notice_edit(p);
            },
            Operation::Rename(a, b) => {
                if self.ledger.dirty.remove(a) {
                    let _ = self.ledger.dirty.insert(b.clone());
                    self.store_mark(b);
                    let _ = self.journal.trail.insert(b.clone());
                } else {
                    proof {
                        assert(before.ledger.dirty.remove(a@) =~= before.ledger.dirty);
                    }
                }
            },
            Operation::Delete(p) => {
                let _ = self.ledger.dirty.remove(p);
            },
        }
        proof {
            assert(self@ =~= noticed(before, op@));
        }
        self.journal.window.push((now, op));
        proof {
            assert(self@.journal.window =~= before.journal.window.push((now, op@)));
            assert(self@ =~= recorded(before, op@, now));
        }
    }

    fn store_mark(&mut self, p: &RelPath)
        ensures
            final(self)@ == (StateView { ledger: with_mark(old(self)@, p@), ..old(self)@ }),
    {
        if !self.journal.marks.contains(p) && !self.journal.trail.contains(p) {
            self.ledger.mark(p);
        }
    }

    fn notice_edit(&mut self, p: &RelPath)
        ensures
            final(self)@ == noticed_edit(old(self)@, p@),
    {
        let ghost before = self@;
        self.store_mark(p);
        let _ = self.journal.marks.insert(p.clone());
        let _ = self.ledger.dirty.insert(p.clone());
        proof {
            assert(self@ =~= noticed_edit(before, p@));
        }
    }

    /// How many plans are not done.
    pub fn pending(&self) -> (r: usize)
        ensures
            r == self@.journal.pending.len(),
    {
        self.journal.pending.len()
    }

    /// Whether there is nothing to fold and nothing to replay.
    pub fn idle(&self) -> (r: bool)
        ensures
            r == (self@.journal.window.len() == 0 && self@.journal.pending.len() == 0),
    {
        self.journal.window.len() == 0 && self.journal.pending.len() == 0
    }

    /// When there is something to do next.
    pub fn wait(&self) -> (r: Option<Tick>)
        requires
            is_sound(self@),
        ensures
            r == next_wake(self@),
    {
        let n: usize = self.journal.window.len();
        let quiet: Option<Tick> = if n > 0 {
            proof {
                assert(self@.journal.window[n - 1].0 <= HORIZON);
            }
            Some(self.journal.window[n - 1].0 + WINDOW_QUIET)
        } else {
            None
        };
        let ghost view = self@.journal.pending;
        let mut due: Option<Tick> = None;
        let mut i: usize = 0;
        while i < self.journal.pending.len()
            invariant
                i <= self.journal.pending@.len(),
                view == entries_view(self.journal.pending@),
                due == least_due(view.take(i as int)),
            decreases self.journal.pending@.len() - i,
        {
            proof {
                let now = view.take(i + 1);
                assert(now.drop_last() =~= view.take(i as int));
                assert(now.last() == self.journal.pending@[i as int]@);
            }
            let e = &self.journal.pending[i];
            if !e.running {
                due = match due {
                    Some(t) => if t <= e.due {
                        Some(t)
                    } else {
                        Some(e.due)
                    },
                    None => Some(e.due),
                };
            }
            i += 1;
        }
        proof {
            assert(view.take(i as int) =~= view);
        }
        match (quiet, due) {
            (Some(a), Some(b)) => if a <= b {
                Some(a)
            } else {
                Some(b)
            },
            (Some(a), None) => Some(a),
            (None, b) => b,
        }
    }

    /// Makes every plan due at once.
    pub fn rush(&mut self, now: Tick)
        requires
            is_sound(old(self)@),
        ensures
            final(self)@ == (StateView {
                journal: JournalView {
                    pending: hurried(old(self)@.journal.pending, now),
                    ..old(self)@.journal
                },
                ..old(self)@
            }),
            is_sound(final(self)@),
    {
        let ghost before = self@;
        let ghost view = self@.journal.pending;
        let n: usize = self.journal.pending.len();
        let mut i: usize = 0;
        while i < n
            invariant
                i <= n,
                n == self.journal.pending@.len(),
                view == before.journal.pending,
                view.len() == n,
                forall|j: int| #![trigger self.journal.pending@[j]]
                    0 <= j < i ==> self.journal.pending@[j]@ == (Entry { due: now, ..view[j] }),
                forall|j: int| #![trigger self.journal.pending@[j]]
                    i <= j < n ==> self.journal.pending@[j]@ == view[j],
                self@ == (StateView {
                    journal: JournalView {
                        pending: entries_view(self.journal.pending@),
                        ..before.journal
                    },
                    ..before
                }),
            decreases n - i,
        {
            self.journal.pending[i].due = now;
            i += 1;
        }
        proof {
            assert(entries_view(self.journal.pending@) =~= hurried(view, now));
            assert(is_numbered(hurried(view, now))) by {
                assert forall|a: int, b: int|
                    #![trigger hurried(view, now)[a], hurried(view, now)[b]]
                    0 <= a < b < view.len() implies hurried(view, now)[a].seq < hurried(view, now)[b].seq by {
                    assert(view[a].seq < view[b].seq);
                }
            }
        }
    }

    /// Takes note that a file has been opened for writing.
    pub fn write_opened(&mut self, path: &RelPath)
        ensures
            final(self)@ == (StateView {
                journal: JournalView {
                    writing: old(self)@.journal.writing.insert(
                        path@,
                        one_more(times_open(old(self)@, path@)),
                    ),
                    ..old(self)@.journal
                },
                ..old(self)@
            }),
    {
        let n: usize = match self.journal.writing.get(path) {
            Some(n) => *n,
            None => 0,
        };
        self.journal.writing.insert(path.clone(), n.saturating_add(1));
    }

    /// Takes note that a file that was open for writing has been closed.
    pub fn write_closed(&mut self, path: &RelPath)
        ensures
            final(self)@ == (StateView {
                journal: JournalView {
                    writing: closed_once(old(self)@.journal.writing, path@),
                    ..old(self)@.journal
                },
                ..old(self)@
            }),
    {
        let n: Option<usize> = match self.journal.writing.get(path) {
            Some(n) => Some(*n),
            None => None,
        };
        match n {
            Some(n) => {
                if n <= 1 {
                    let _ = self.journal.writing.remove(path);
                } else {
                    self.journal.writing.insert(path.clone(), n - 1);
                }
            },
            None => {},
        }
    }

    /// All the paths that the plans speak of.
    pub fn owed(&self) -> (r: PathSet)
        ensures
            r@ == owed_by(self@.journal.pending),
    {
        let ghost view = self@.journal.pending;
        let mut out = PathSet::new();
        let mut i: usize = 0;
        while i < self.journal.pending.len()
            invariant
                i <= self.journal.pending@.len(),
                view == entries_view(self.journal.pending@),
                out@ == owed_by(view.take(i as int)),
            decreases self.journal.pending@.len() - i,
        {
            proof {
                let now = view.take(i + 1);
                assert(now.drop_last() =~= view.take(i as int));
                assert(now.last() == self.journal.pending@[i as int]@);
            }
            let ghost before = out@;
            let plan = &self.journal.pending[i].plan;
            let paths = plan.paths();
            let ghost pv = plan_paths(plan@);
            let mut k: usize = 0;
            while k < paths.len()
                invariant
                    k <= paths@.len(),
                    paths@.len() == pv.len(),
                    forall|j: int| #![trigger paths@[j]] 0 <= j < paths@.len() ==> paths@[j]@ == pv[j],
                    out@ == before.union(pv.take(k as int).to_set()),
                decreases paths@.len() - k,
            {
                let _ = out.insert(paths[k].clone());
                proof {
                    assert(pv.take(k + 1) =~= pv.take(k as int).push(pv[k as int]));
                    lemma_push_set(pv.take(k as int), pv[k as int]);
                    assert(before.union(pv.take(k + 1).to_set()) =~= before.union(
                        pv.take(k as int).to_set(),
                    ).insert(pv[k as int]));
                }
                k += 1;
            }
            proof {
                assert(pv.take(k as int) =~= pv);
            }
            i += 1;
        }
        proof {
            assert(view.take(i as int) =~= view);
        }
        out
    }
}

/// How often a file is open for writing.
pub open spec fn times_open(s: StateView, p: Seq<char>) -> usize {
    if s.journal.writing.dom().contains(p) {
        s.journal.writing[p]
    } else {
        0
    }
}

/// One more, as far as one can count.
pub open spec fn one_more(n: usize) -> usize {
    if n < usize::MAX {
        (n + 1) as usize
    } else {
        n
    }
}

/// The open files after one has been closed.
pub open spec fn closed_once(writing: Map<Seq<char>, usize>, p: Seq<char>) -> Map<Seq<char>, usize> {
    if !writing.dom().contains(p) {
        writing
    } else if writing[p] <= 1 {
        writing.remove(p)
    } else {
        writing.insert(p, (writing[p] - 1) as usize)
    }
}

/// What is to become of the files of the server, and which files hold edits.
#[verifier::ext_equal]
pub struct OutlookView {
    pub fates: Map<Seq<char>, Fate<Seq<char>>>,
    pub dirty: Set<Seq<char>>,
}

/// The fates after the file at `from` has moved to `to`: it comes from where it
/// was on the server, in the version that it had there. A file that the server
/// does not have arrives nowhere.
pub open spec fn arrived(
    fates: Map<Seq<char>, Fate<Seq<char>>>,
    from: Seq<char>,
    to: Seq<char>,
    was: Option<Observation>,
) -> Map<Seq<char>, Fate<Seq<char>>> {
    let (root, version) = if fates.dom().contains(from) && fates[from] is Arrived {
        (fates[from]->from, Some(fates[from]->was))
    } else {
        (from, was)
    };
    let left = fates.insert(from, Fate::Gone);
    match version {
        Some(was) => left.insert(to, Fate::Arrived { from: root, was }),
        None => left,
    }
}

/// The outlook after one more plan.
pub open spec fn plan_seen(v: OutlookView, plan: Plan<Seq<char>>) -> OutlookView {
    match plan {
        Plan::Save { path, replaces, reuses } => OutlookView { dirty: v.dirty.insert(path), ..v },
        Plan::Move { from, to, moves } => OutlookView {
            fates: arrived(v.fates, from, to, Some(moves)),
            ..v
        },
        Plan::Remove { path, removes } => OutlookView { fates: v.fates.insert(path, Fate::Gone), ..v },
    }
}

/// The outlook after one more operation.
pub open spec fn op_seen(
    v: OutlookView,
    op: Operation<Seq<char>>,
    know: Map<Seq<char>, Observation>,
) -> OutlookView {
    match op {
        Operation::Create(p) => OutlookView { fates: v.fates.remove(p), dirty: v.dirty.insert(p) },
        Operation::Write(p) => OutlookView { fates: v.fates.remove(p), dirty: v.dirty.insert(p) },
        Operation::Rename(from, to) => OutlookView {
            fates: arrived(v.fates, from, to, crate::journal::lease(know, from)),
            dirty: if v.dirty.contains(from) {
                v.dirty.remove(from).insert(to)
            } else {
                v.dirty
            },
        },
        Operation::Delete(p) => OutlookView {
            fates: v.fates.insert(p, Fate::Gone),
            dirty: v.dirty.remove(p),
        },
    }
}

/// The outlook after the plans.
pub open spec fn plans_seen(v: OutlookView, pending: Seq<Entry<Seq<char>>>) -> OutlookView
    decreases pending.len(),
{
    if pending.len() == 0 {
        v
    } else {
        plan_seen(plans_seen(v, pending.drop_last()), pending.last().plan)
    }
}

/// The outlook after what happened.
pub open spec fn window_seen(
    v: OutlookView,
    window: Seq<(Tick, Operation<Seq<char>>)>,
    know: Map<Seq<char>, Observation>,
) -> OutlookView
    decreases window.len(),
{
    if window.len() == 0 {
        v
    } else {
        op_seen(window_seen(v, window.drop_last(), know), window.last().1, know)
    }
}

/// What is to become of the files of the server, and which files hold edits:
/// the plans come first, then what happened since.
pub open spec fn seen(s: StateView) -> OutlookView {
    let start = OutlookView { fates: Map::empty(), dirty: s.journal.marks };
    window_seen(plans_seen(start, s.journal.pending), s.journal.window, s.ledger.observations)
}

/// The fates by the characters of their paths.
pub open spec fn fates_view(m: Map<Seq<char>, Fate>) -> Map<Seq<char>, Fate<Seq<char>>> {
    m.map_values(|f: Fate| f@)
}

/// What is to become of the files of the server, and which files hold edits.
pub struct Outlook {
    pub fates: PathMap<Fate>,
    pub dirty: PathSet,
}

impl View for Outlook {
    type V = OutlookView;

    open spec fn view(&self) -> OutlookView {
        OutlookView { fates: fates_view(self.fates@), dirty: self.dirty@ }
    }
}

fn set_fate(fates: &mut PathMap<Fate>, p: &RelPath, f: Fate)
    ensures
        fates_view(final(fates)@) == fates_view(old(fates)@).insert(p@, f@),
{
    let ghost before = fates@;
    fates.insert(p.clone(), f);
    proof {
        assert(fates_view(fates@) =~= fates_view(before).insert(p@, f@));
    }
}

fn arrive(fates: &mut PathMap<Fate>, from: &RelPath, to: &RelPath, was: Option<Observation>)
    ensures
        fates_view(final(fates)@) == arrived(fates_view(old(fates)@), from@, to@, was),
{
    let (root, version) = match fates.get(from) {
        Some(Fate::Arrived { from: root, was }) => (root.clone(), Some(*was)),
        _ => (from.clone(), was),
    };
    set_fate(fates, from, Fate::Gone);
    match version {
        Some(was) => {
            set_fate(fates, to, Fate::Arrived { from: root, was });
        },
        None => {},
    }
}

fn copy_set(s: &PathSet) -> (r: PathSet)
    ensures
        r@ == s@,
{
    let keys = s.keys();
    let ghost kv = paths_view(keys@);
    let mut out = PathSet::new();
    let mut i: usize = 0;
    proof {
        crate::table::lemma_set_finite(*s);
        crate::table::lemma_walk_of_finite(s@);
        assert(kv =~= crate::table::in_order(s@));
    }
    while i < keys.len()
        invariant
            i <= keys@.len(),
            kv == paths_view(keys@),
            out@ == kv.take(i as int).to_set(),
        decreases keys@.len() - i,
    {
        let _ = out.insert(keys[i].clone());
        proof {
            assert(kv.take(i + 1) =~= kv.take(i as int).push(kv[i as int]));
            lemma_push_set(kv.take(i as int), kv[i as int]);
        }
        i += 1;
    }
    proof {
        assert(kv.take(i as int) =~= kv);
    }
    out
}

impl State {
    /// What is to become of the files of the server, and which files hold edits.
    pub fn outlook(&self) -> (r: Outlook)
        ensures
            r@ == seen(self@),
    {
        let ghost start = OutlookView { fates: Map::empty(), dirty: self@.journal.marks };
        let ghost plans = self@.journal.pending;
        let ghost window = self@.journal.window;
        let ghost know = self@.ledger.observations;
        let mut v = Outlook { fates: PathMap::new(), dirty: copy_set(&self.journal.marks) };
        proof {
            assert(v@.fates =~= start.fates);
        }
        let mut i: usize = 0;
        while i < self.journal.pending.len()
            invariant
                i <= self.journal.pending@.len(),
                plans == entries_view(self.journal.pending@),
                v@ == plans_seen(start, plans.take(i as int)),
            decreases self.journal.pending@.len() - i,
        {
            proof {
                let now = plans.take(i + 1);
                assert(now.drop_last() =~= plans.take(i as int));
                assert(now.last() == self.journal.pending@[i as int]@);
            }
            match &self.journal.pending[i].plan {
                Plan::Save { path, .. } => {
                    let _ = v.dirty.insert(path.clone());
                },
                Plan::Move { from, to, moves } => {
                    arrive(&mut v.fates, from, to, Some(*moves));
                },
                Plan::Remove { path, .. } => {
                    set_fate(&mut v.fates, path, Fate::Gone);
                },
            }
            i += 1;
        }
        proof {
            assert(plans.take(i as int) =~= plans);
        }
        let ghost mid = plans_seen(start, plans);
        let mut i: usize = 0;
        while i < self.journal.window.len()
            invariant
                i <= self.journal.window@.len(),
                window == window_view(self.journal.window@),
                know == self.ledger.observations@,
                v@ == window_seen(mid, window.take(i as int), know),
            decreases self.journal.window@.len() - i,
        {
            proof {
                let now = window.take(i + 1);
                assert(now.drop_last() =~= window.take(i as int));
                assert(now.last() == window[i as int]);
            }
            self.see(&mut v, &self.journal.window[i].1);
            i += 1;
        }
        proof {
            assert(window.take(i as int) =~= window);
        }
        v
    }

    fn see(&self, v: &mut Outlook, op: &Operation)
        ensures
            final(v)@ == op_seen(old(v)@, op@, self@.ledger.observations),
    {
        let ghost before = v@;
        match op {
            Operation::Create(p) => {
                self.see_edit(v, p);
            },
            Operation::Write(p) => {
                self.see_edit(v, p);
            },
            Operation::Rename(from, to) => {
                let was = match self.ledger.observations.get(from) {
                    Some(o) => Some(*o),
                    None => None,
                };
                arrive(&mut v.fates, from, to, was);
                if v.dirty.remove(from) {
                    let _ = v.dirty.insert(to.clone());
                } else {
                    proof {
                        assert(before.dirty.remove(from@) =~= before.dirty);
                    }
                }
            },
            Operation::Delete(p) => {
                set_fate(&mut v.fates, p, Fate::Gone);
                let _ = v.dirty.remove(p);
            },
        }
    }

    fn see_edit(&self, v: &mut Outlook, p: &RelPath)
        ensures
            final(v)@ == (OutlookView {
                fates: old(v)@.fates.remove(p@),
                dirty: old(v)@.dirty.insert(p@),
            }),
    {
        let ghost before = v.fates@;
        let _ = v.fates.remove(p);
        let _ = v.dirty.insert(p.clone());
        proof {
            assert(fates_view(v.fates@) =~= fates_view(before).remove(p@));
        }
    }

    /// Brings the list of files that hold edits up to date.
    pub fn refresh(&mut self)
        ensures
            final(self)@ == refreshed(old(self)@),
    {
        let v = self.outlook();
        self.ledger.dirty = v.dirty;
    }
}

/// The state with the list of files that hold edits up to date.
pub open spec fn refreshed(s: StateView) -> StateView {
    StateView { ledger: LedgerView { dirty: seen(s).dirty, ..s.ledger }, ..s }
}

} // verus!
