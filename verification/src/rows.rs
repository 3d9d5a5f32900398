//! The rows in which the ledger is stored.
use crate::ledger::Ledger;
use crate::model::{opt_view, ops_view, whole_secs, Conflict, Moment, Observation, Operation, Plan};
use crate::path::{is_path, normal, RelPath};
use crate::text::same;
use vstd::prelude::*;

verus! {

/// A row of the journal.
#[derive(Debug, PartialEq)]
pub struct JournalRow<S = String> {
    pub seq: i64,
    pub op: S,
    pub path: S,
    pub dest: Option<S>,
    pub base: Option<S>,
    pub size: Option<i64>,
    pub time: Option<i64>,
}

/// An optional string by its characters.
pub open spec fn opt_chars(s: Option<String>) -> Option<Seq<char>> {
    match s {
        Some(s) => Some(s@),
        None => None,
    }
}

impl View for JournalRow {
    type V = JournalRow<Seq<char>>;

    open spec fn view(&self) -> JournalRow<Seq<char>> {
        JournalRow {
            seq: self.seq,
            op: self.op@,
            path: self.path@,
            dest: opt_chars(self.dest),
            base: opt_chars(self.base),
            size: self.size,
            time: self.time,
        }
    }
}

/// The rows by their characters.
pub open spec fn rows_view(rows: Seq<JournalRow>) -> Seq<JournalRow<Seq<char>>> {
    Seq::new(rows.len(), |i: int| rows[i]@)
}

/// How a size or a time is stored.
pub open spec fn as_stored(n: u64) -> i64 {
    n as i64
}

/// The size or time that is stored.
pub open spec fn as_loaded(n: i64) -> u64 {
    n as u64
}

/// Storing a number and loading it again changes nothing.
pub proof fn law_numbers_survive_the_disk(n: u64)
    ensures
        as_loaded(as_stored(n)) == n,
{
    assert((n as i64) as u64 == n) by (bit_vector);
}

/// A version from its stored size and time; none if one of them is missing.
pub open spec fn stored_version(size: Option<i64>, time: Option<i64>) -> Option<Observation> {
    match (size, time) {
        (Some(size), Some(time)) => Some(
            Observation { size: as_loaded(size), time: as_loaded(time) },
        ),
        _ => None,
    }
}

fn row_obs(size: Option<i64>, time: Option<i64>) -> (r: Option<Observation>)
    ensures
        r == stored_version(size, time),
{
    match (size, time) {
        (Some(size), Some(time)) => Some(Observation { size: size as u64, time: time as u64 }),
        _ => None,
    }
}

/// The stored size of an optional version.
pub open spec fn stored_size(o: Option<Observation>) -> Option<i64> {
    match o {
        Some(o) => Some(as_stored(o.size)),
        None => None,
    }
}

/// The stored time of an optional version.
pub open spec fn stored_time(o: Option<Observation>) -> Option<i64> {
    match o {
        Some(o) => Some(as_stored(o.time)),
        None => None,
    }
}

fn size_of(o: &Option<Observation>) -> (r: Option<i64>)
    ensures
        r == stored_size(*o),
{
    match o {
        Some(o) => Some(o.size as i64),
        None => None,
    }
}

fn time_of(o: &Option<Observation>) -> (r: Option<i64>)
    ensures
        r == stored_time(*o),
{
    match o {
        Some(o) => Some(o.time as i64),
        None => None,
    }
}

/// The row in which a plan is stored.
pub open spec fn row_of(seq: i64, plan: Plan<Seq<char>>) -> JournalRow<Seq<char>> {
    match plan {
        Plan::Save { path, replaces, reuses } => JournalRow {
            seq,
            op: "s"@,
            path,
            dest: None,
            base: reuses,
            size: stored_size(replaces),
            time: stored_time(replaces),
        },
        Plan::Move { from, to, moves } => JournalRow {
            seq,
            op: "m"@,
            path: from,
            dest: Some(to),
            base: None,
            size: Some(as_stored(moves.size)),
            time: Some(as_stored(moves.time)),
        },
        Plan::Remove { path, removes } => JournalRow {
            seq,
            op: "r"@,
            path,
            dest: None,
            base: None,
            size: Some(as_stored(removes.size)),
            time: Some(as_stored(removes.time)),
        },
    }
}

/// The row in which a mark is stored.
pub open spec fn mark_row(seq: i64, path: Seq<char>) -> JournalRow<Seq<char>> {
    JournalRow { seq, op: "w"@, path, dest: None, base: None, size: None, time: None }
}

/// What is read from a row.
#[derive(Debug)]
pub enum Found<P = RelPath> {
    Mark(P),
    Plan(Plan<P>),
    Garbage,
}

impl View for Found {
    type V = Found<Seq<char>>;

    open spec fn view(&self) -> Found<Seq<char>> {
        match self {
            Found::Mark(p) => Found::Mark(p@),
            Found::Plan(p) => Found::Plan(p@),
            Found::Garbage => Found::Garbage,
        }
    }
}

/// What a row of the journal stands for. A row that stands for nothing, a move
/// or a removal without a version among them, is garbage.
pub open spec fn entry_of(row: JournalRow<Seq<char>>) -> Found<Seq<char>> {
    let path = normal(row.path);
    let version = stored_version(row.size, row.time);
    if row.op == "w"@ {
        Found::Mark(path)
    } else if row.op == "s"@ {
        Found::Plan(
            Plan::Save {
                path,
                replaces: version,
                reuses: match row.base {
                    Some(b) => Some(normal(b)),
                    None => None,
                },
            },
        )
    } else if row.op == "m"@ {
        match (row.dest, version) {
            (Some(dest), Some(moves)) => Found::Plan(
                Plan::Move { from: path, to: normal(dest), moves },
            ),
            _ => Found::Garbage,
        }
    } else if row.op == "r"@ {
        match version {
            Some(removes) => Found::Plan(Plan::Remove { path, removes }),
            None => Found::Garbage,
        }
    } else {
        Found::Garbage
    }
}

fn owned(p: &RelPath) -> (r: String)
    ensures
        r@ == p@,
{
    p.as_str().to_owned()
}

/// The row in which a plan is stored.
pub fn plan_row(seq: i64, plan: &Plan) -> (r: JournalRow)
    ensures
        r@ == row_of(seq, plan@),
{
    match plan {
        Plan::Save { path, replaces, reuses } => JournalRow {
            seq,
            op: "s".to_owned(),
            path: owned(path),
            dest: None,
            base: match reuses {
                Some(x) => Some(owned(x)),
                None => None,
            },
            size: size_of(replaces),
            time: time_of(replaces),
        },
        Plan::Move { from, to, moves } => JournalRow {
            seq,
            op: "m".to_owned(),
            path: owned(from),
            dest: Some(owned(to)),
            base: None,
            size: Some(moves.size as i64),
            time: Some(moves.time as i64),
        },
        Plan::Remove { path, removes } => JournalRow {
            seq,
            op: "r".to_owned(),
            path: owned(path),
            dest: None,
            base: None,
            size: Some(removes.size as i64),
            time: Some(removes.time as i64),
        },
    }
}

/// What a row of the journal stands for.
pub fn read_row(row: &JournalRow) -> (r: Found)
    ensures
        r@ == entry_of(row@),
{
    let path = RelPath::new(row.path.as_str());
    let version = row_obs(row.size, row.time);
    let op = row.op.as_str();
    if same(op, "w") {
        Found::Mark(path)
    } else if same(op, "s") {
        let reuses = match &row.base {
            Some(b) => Some(RelPath::new(b.as_str())),
            None => None,
        };
        Found::Plan(Plan::Save { path, replaces: version, reuses })
    } else if same(op, "m") {
        match (&row.dest, version) {
            (Some(dest), Some(moves)) => Found::Plan(
                Plan::Move { from: path, to: RelPath::new(dest.as_str()), moves },
            ),
            _ => Found::Garbage,
        }
    } else if same(op, "r") {
        match version {
            Some(removes) => Found::Plan(Plan::Remove { path, removes }),
            None => Found::Garbage,
        }
    } else {
        Found::Garbage
    }
}

/// The writes that marks stand for: edits of which nothing more is known than
/// that they were made.
pub open spec fn marks_in(rows: Seq<JournalRow<Seq<char>>>) -> Seq<Operation<Seq<char>>>
    decreases rows.len(),
{
    if rows.len() == 0 {
        Seq::empty()
    } else {
        let before = marks_in(rows.drop_last());
        match entry_of(rows.last()) {
            Found::Mark(p) => before.push(Operation::Write(p)),
            _ => before,
        }
    }
}

/// The plans in the rows, each with its number.
pub open spec fn plans_in(rows: Seq<JournalRow<Seq<char>>>) -> Seq<(i64, Plan<Seq<char>>)>
    decreases rows.len(),
{
    if rows.len() == 0 {
        Seq::empty()
    } else {
        let before = plans_in(rows.drop_last());
        match entry_of(rows.last()) {
            Found::Plan(p) => before.push((rows.last().seq, p)),
            _ => before,
        }
    }
}

/// Numbered plans by the characters of their paths.
pub open spec fn numbered_view(v: Seq<(i64, Plan)>) -> Seq<(i64, Plan<Seq<char>>)> {
    Seq::new(v.len(), |i: int| (v[i].0, v[i].1@))
}

/// The first number of a plan that could not be stored.
pub const FALLBACK_SEQ: i64 = 1_099_511_627_776;

/// Numbers plans that could not be stored, from `next` on.
pub fn fallback_seqs(next: i64, plans: &[Plan]) -> (r: Vec<(i64, Plan)>)
    requires
        next + plans@.len() <= i64::MAX,
    ensures
        r@.len() == plans@.len(),
        forall|i: int|
            #![trigger r@[i]]
            0 <= i < r@.len() ==> r@[i].0 == next + i && r@[i].1@ == plans@[i]@,
{
    let mut out: Vec<(i64, Plan)> = Vec::new();
    let mut i: usize = 0;
    let mut seq: i64 = next;
    while i < plans.len()
        invariant
            i <= plans@.len(),
            next + plans@.len() <= i64::MAX,
            seq == next + i,
            out@.len() == i,
            forall|j: int|
                #![trigger out@[j]]
                0 <= j < i ==> out@[j].0 == next + j && out@[j].1@ == plans@[j]@,
        decreases plans@.len() - i,
    {
        out.push((seq, plans[i].clone()));
        seq = seq + 1;
        i += 1;
    }
    out
}

/// What was left undone when the last run ended: the edits that were only
/// marked, and the plans.
pub fn journal_load(rows: &[JournalRow]) -> (r: (Vec<Operation>, Vec<(i64, Plan)>))
    ensures
        ops_view(r.0@) == marks_in(rows_view(rows@)),
        numbered_view(r.1@) == plans_in(rows_view(rows@)),
{
    let mut ops: Vec<Operation> = Vec::new();
    let mut plans: Vec<(i64, Plan)> = Vec::new();
    let mut i: usize = 0;
    proof {
        assert(ops_view(ops@) =~= Seq::empty());
        assert(numbered_view(plans@) =~= Seq::empty());
    }
    while i < rows.len()
        invariant
            i <= rows@.len(),
            ops_view(ops@) == marks_in(rows_view(rows@).take(i as int)),
            numbered_view(plans@) == plans_in(rows_view(rows@).take(i as int)),
        decreases rows@.len() - i,
    {
        let ghost o = ops_view(ops@);
        let ghost n = numbered_view(plans@);
        proof {
            let now = rows_view(rows@).take(i + 1);
            assert(now.drop_last() =~= rows_view(rows@).take(i as int));
            assert(now.last() == rows@[i as int]@);
        }
        match read_row(&rows[i]) {
            Found::Mark(p) => {
                ops.push(Operation::Write(p));
                proof {
                    assert(ops_view(ops@) =~= o.push(Operation::Write(p@)));
                }
            },
            Found::Plan(p) => {
                plans.push((rows[i].seq, p));
                proof {
                    assert(numbered_view(plans@) =~= n.push((rows@[i as int].seq, p@)));
                }
            },
            Found::Garbage => {},
        }
        i += 1;
    }
    proof {
        assert(rows_view(rows@).take(i as int) =~= rows_view(rows@));
    }
    (ops, plans)
}

/// All paths of the plan are paths.
pub open spec fn is_plan(plan: Plan<Seq<char>>) -> bool {
    match plan {
        Plan::Save { path, replaces, reuses } => is_path(path) && (reuses matches Some(x) ==> is_path(
            x,
        )),
        Plan::Move { from, to, moves } => is_path(from) && is_path(to),
        Plan::Remove { path, removes } => is_path(path),
    }
}

proof fn lemma_letters()
    ensures
        "w"@ != "s"@,
        "w"@ != "m"@,
        "w"@ != "r"@,
        "s"@ != "m"@,
        "s"@ != "r"@,
        "m"@ != "r"@,
{
    reveal_strlit("w");
    reveal_strlit("s");
    reveal_strlit("m");
    reveal_strlit("r");
    assert("w"@[0] == 'w');
    assert("s"@[0] == 's');
    assert("m"@[0] == 'm');
    assert("r"@[0] == 'r');
}

/// What is stored of a plan or a mark is what is read back.
pub proof fn law_plans_survive_the_disk(seq: i64, plan: Plan<Seq<char>>, path: Seq<char>)
    requires
        is_plan(plan),
        is_path(path),
    ensures
        entry_of(row_of(seq, plan)) == Found::Plan(plan),
        entry_of(mark_row(seq, path)) == Found::Mark(path),
{
    lemma_letters();
    crate::path::lemma_normal_of_path(path);
    match plan {
        Plan::Save { path, replaces, reuses } => {
            crate::path::lemma_normal_of_path(path);
            match reuses {
                Some(x) => {
                    crate::path::lemma_normal_of_path(x);
                },
                None => {},
            }
            match replaces {
                Some(o) => {
                    law_numbers_survive_the_disk(o.size);
                    law_numbers_survive_the_disk(o.time);
                },
                None => {},
            }
        },
        Plan::Move { from, to, moves } => {
            crate::path::lemma_normal_of_path(from);
            crate::path::lemma_normal_of_path(to);
            law_numbers_survive_the_disk(moves.size);
            law_numbers_survive_the_disk(moves.time);
        },
        Plan::Remove { path, removes } => {
            crate::path::lemma_normal_of_path(path);
            law_numbers_survive_the_disk(removes.size);
            law_numbers_survive_the_disk(removes.time);
        },
    }
}

/// The rows of numbered plans.
pub open spec fn rows_of(plans: Seq<(i64, Plan<Seq<char>>)>) -> Seq<JournalRow<Seq<char>>> {
    Seq::new(plans.len(), |i: int| row_of(plans[i].0, plans[i].1))
}

/// Whatever was planned when a run ended, the next one finds it: every plan,
/// with its number and in the same order, and no others.
pub proof fn law_a_restart_finds_every_plan(plans: Seq<(i64, Plan<Seq<char>>)>)
    requires
        forall|i: int| #![trigger plans[i]] 0 <= i < plans.len() ==> is_plan(plans[i].1),
    ensures
        plans_in(rows_of(plans)) == plans,
        marks_in(rows_of(plans)) == Seq::<Operation<Seq<char>>>::empty(),
    decreases plans.len(),
{
    if plans.len() > 0 {
        let front = plans.drop_last();
        assert forall|i: int| #![trigger front[i]] 0 <= i < front.len() implies is_plan(front[i].1) by {
            assert(front[i] == plans[i]);
        }
        law_a_restart_finds_every_plan(front);
        assert(rows_of(plans).drop_last() =~= rows_of(front));
        let last = plans.last();
        assert(is_plan(plans[plans.len() - 1].1));
        law_plans_survive_the_disk(last.0, last.1, Seq::<char>::empty());
        assert(front.push(last) =~= plans);
    } else {
        assert(plans =~= Seq::empty());
    }
}

/// The versions in the rows of observations.
pub open spec fn versions_in(
    rows: Seq<(Seq<char>, i64, i64)>,
) -> Map<Seq<char>, Observation>
    decreases rows.len(),
{
    if rows.len() == 0 {
        Map::empty()
    } else {
        let (path, size, time) = rows.last();
        versions_in(rows.drop_last()).insert(
            normal(path),
            Observation { size: as_loaded(size), time: as_loaded(time) },
        )
    }
}

/// The files that hold edits, by the rows of the journal: those that are marked
/// and those that are to be saved.
pub open spec fn edits_in(rows: Seq<JournalRow<Seq<char>>>) -> Set<Seq<char>>
    decreases rows.len(),
{
    if rows.len() == 0 {
        Set::empty()
    } else {
        let before = edits_in(rows.drop_last());
        let row = rows.last();
        if row.op == "w"@ || row.op == "s"@ {
            before.insert(normal(row.path))
        } else {
            before
        }
    }
}

/// The paths in rows of paths.
pub open spec fn paths_in(rows: Seq<Seq<char>>) -> Set<Seq<char>>
    decreases rows.len(),
{
    if rows.len() == 0 {
        Set::empty()
    } else {
        paths_in(rows.drop_last()).insert(normal(rows.last()))
    }
}

/// Rows of observations by their characters.
pub open spec fn versions_view(rows: Seq<(String, i64, i64)>) -> Seq<(Seq<char>, i64, i64)> {
    Seq::new(rows.len(), |i: int| (rows[i].0@, rows[i].1, rows[i].2))
}

impl Ledger {
    /// The ledger that is stored in the rows.
    pub fn load(
        observations: &[(String, i64, i64)],
        journal: &[JournalRow],
        pins: &[String],
    ) -> (r: Ledger)
        ensures
            r@.observations == versions_in(versions_view(observations@)),
            r@.dirty == edits_in(rows_view(journal@)),
            r@.pins == paths_in(crate::text::strings_view(pins@)),
            !r@.unreadable,
            r@.writes == Seq::<crate::ledger::Write<Seq<char>, Seq<u8>>>::empty(),
    {
        let mut ledger = Ledger::default();
        let mut i: usize = 0;
        while i < observations.len()
            invariant
                i <= observations@.len(),
                ledger@.observations == versions_in(versions_view(observations@).take(i as int)),
                ledger@.dirty == Set::<Seq<char>>::empty(),
                ledger@.pins == Set::<Seq<char>>::empty(),
                !ledger@.unreadable,
                ledger@.writes == Seq::<crate::ledger::Write<Seq<char>, Seq<u8>>>::empty(),
            decreases observations@.len() - i,
        {
            proof {
                let now = versions_view(observations@).take(i + 1);
                assert(now.drop_last() =~= versions_view(observations@).take(i as int));
            }
            let path = RelPath::new(observations[i].0.as_str());
            let obs = Observation { size: observations[i].1 as u64, time: observations[i].2 as u64 };
            ledger.observations.insert(path, obs);
            i += 1;
        }
        proof {
            assert(versions_view(observations@).take(i as int) =~= versions_view(observations@));
        }
        let mut i: usize = 0;
        while i < journal.len()
            invariant
                i <= journal@.len(),
                ledger@.observations == versions_in(versions_view(observations@)),
                ledger@.dirty == edits_in(rows_view(journal@).take(i as int)),
                ledger@.pins == Set::<Seq<char>>::empty(),
                !ledger@.unreadable,
                ledger@.writes == Seq::<crate::ledger::Write<Seq<char>, Seq<u8>>>::empty(),
            decreases journal@.len() - i,
        {
            proof {
                let now = rows_view(journal@).take(i + 1);
                assert(now.drop_last() =~= rows_view(journal@).take(i as int));
                assert(now.last() == journal@[i as int]@);
            }
            let op = journal[i].op.as_str();
            if same(op, "w") || same(op, "s") {
                let _ = ledger.dirty.insert(RelPath::new(journal[i].path.as_str()));
            }
            i += 1;
        }
        proof {
            assert(rows_view(journal@).take(i as int) =~= rows_view(journal@));
        }
        let mut i: usize = 0;
        let ghost names = crate::text::strings_view(pins@);
        while i < pins.len()
            invariant
                i <= pins@.len(),
                names == crate::text::strings_view(pins@),
                ledger@.observations == versions_in(versions_view(observations@)),
                ledger@.dirty == edits_in(rows_view(journal@)),
                ledger@.pins == paths_in(names.take(i as int)),
                !ledger@.unreadable,
                ledger@.writes == Seq::<crate::ledger::Write<Seq<char>, Seq<u8>>>::empty(),
            decreases pins@.len() - i,
        {
            proof {
                let now = names.take(i + 1);
                assert(now.drop_last() =~= names.take(i as int));
                assert(now.last() == pins@[i as int]@);
            }
            let _ = ledger.pins.insert(RelPath::new(pins[i].as_str()));
            i += 1;
        }
        proof {
            assert(names.take(i as int) =~= names);
        }
        ledger
    }
}

/// A row of the list of conflicts.
#[derive(Debug, PartialEq)]
pub struct ConflictRow<S = String> {
    pub seq: i64,
    pub op: S,
    pub path: S,
    pub dest: Option<S>,
    pub expected: (Option<i64>, Option<i64>),
    pub found: (Option<i64>, Option<i64>),
    pub ours: Option<S>,
    pub at: i64,
}

impl View for ConflictRow {
    type V = ConflictRow<Seq<char>>;

    open spec fn view(&self) -> ConflictRow<Seq<char>> {
        ConflictRow {
            seq: self.seq,
            op: self.op@,
            path: self.path@,
            dest: opt_chars(self.dest),
            expected: self.expected,
            found: self.found,
            ours: opt_chars(self.ours),
            at: self.at,
        }
    }
}

/// What a conflict is about: the letters for the kind of operation, the path
/// and the destination.
pub open spec fn conflict_what(
    op: Operation<Seq<char>>,
) -> (Seq<char>, Seq<char>, Option<Seq<char>>) {
    match op {
        Operation::Create(p) => ("w"@, p, None),
        Operation::Write(p) => ("w"@, p, None),
        Operation::Rename(a, b) => ("mv"@, a, Some(b)),
        Operation::Delete(p) => ("rm"@, p, None),
    }
}

/// The operation that a stored conflict is about.
pub open spec fn conflict_op(
    op: Seq<char>,
    path: Seq<char>,
    dest: Option<Seq<char>>,
) -> Option<Operation<Seq<char>>> {
    if op == "w"@ {
        Some(Operation::Write(path))
    } else if op == "mv"@ && dest is Some {
        Some(Operation::Rename(path, dest->0))
    } else if op == "rm"@ {
        Some(Operation::Delete(path))
    } else {
        None
    }
}

/// The row in which a conflict is stored.
pub open spec fn conflict_row_of(c: Conflict<Seq<char>>) -> ConflictRow<Seq<char>> {
    let (op, path, dest) = conflict_what(c.op);
    ConflictRow {
        seq: c.seq,
        op,
        path,
        dest,
        expected: (stored_size(c.expected), stored_time(c.expected)),
        found: (stored_size(c.found), stored_time(c.found)),
        ours: c.ours,
        at: as_stored(whole_secs(Some(c.at))),
    }
}

/// The conflict that is stored in a row.
pub open spec fn conflict_of(row: ConflictRow<Seq<char>>) -> Option<Conflict<Seq<char>>> {
    let path = normal(row.path);
    let dest = match row.dest {
        Some(d) => Some(normal(d)),
        None => None,
    };
    match conflict_op(row.op, path, dest) {
        Some(op) => Some(
            Conflict {
                seq: row.seq,
                op,
                expected: stored_version(row.expected.0, row.expected.1),
                found: stored_version(row.found.0, row.found.1),
                ours: match row.ours {
                    Some(p) => Some(normal(p)),
                    None => None,
                },
                at: Moment { secs: row.at, nanos: 0 },
            },
        ),
        None => None,
    }
}

impl Conflict {
    /// What the conflict is about.
    pub fn what(&self) -> (r: (&'static str, &RelPath, Option<&RelPath>))
        ensures
            (r.0@, r.1@, match r.2 {
                Some(p) => Some(p@),
                None => None,
            }) == conflict_what(self.op@),
    {
        match &self.op {
            Operation::Create(p) => ("w", p, None),
            Operation::Write(p) => ("w", p, None),
            Operation::Rename(a, b) => ("mv", a, Some(b)),
            Operation::Delete(p) => ("rm", p, None),
        }
    }

    /// The conflict with the given parts; none if the kind of operation is not
    /// known, or is a move without a destination.
    pub fn from_row(
        seq: i64,
        op: &str,
        path: RelPath,
        dest: Option<RelPath>,
        expected: Option<Observation>,
        found: Option<Observation>,
        ours: Option<RelPath>,
        at: u64,
    ) -> (r: Option<Conflict>)
        requires
            at <= i64::MAX,
        ensures
            match r {
                Some(c) => conflict_op(op@, path@, opt_view(dest)) == Some(c@.op) && c@ == (Conflict {
                    seq,
                    op: c@.op,
                    expected,
                    found,
                    ours: opt_view(ours),
                    at: Moment { secs: at as i64, nanos: 0 },
                }),
                None => conflict_op(op@, path@, opt_view(dest)) is None,
            },
    {
        proof {
            lemma_conflict_letters();
        }
        let op = if same(op, "w") {
            Operation::Write(path)
        } else if same(op, "rm") {
            Operation::Delete(path)
        } else if same(op, "mv") {
            match dest {
                Some(dest) => Operation::Rename(path, dest),
                None => {
                    return None;
                },
            }
        } else {
            return None;
        };
        Some(Conflict { seq, op, expected, found, ours, at: Moment::from_secs(at) })
    }
}

proof fn lemma_conflict_letters()
    ensures
        "w"@ != "mv"@,
        "w"@ != "rm"@,
        "mv"@ != "rm"@,
{
    reveal_strlit("w");
    reveal_strlit("mv");
    reveal_strlit("rm");
    assert("w"@.len() == 1);
    assert("mv"@.len() == 2 && "mv"@[0] == 'm');
    assert("rm"@.len() == 2 && "rm"@[0] == 'r');
}

/// The row in which a conflict is stored.
pub fn conflict_row(c: &Conflict) -> (r: ConflictRow)
    ensures
        r@ == conflict_row_of(c@),
{
    let (op, path, dest) = c.what();
    ConflictRow {
        seq: c.seq,
        op: op.to_owned(),
        path: owned(path),
        dest: match dest {
            Some(d) => Some(owned(d)),
            None => None,
        },
        expected: (size_of(&c.expected), time_of(&c.expected)),
        found: (size_of(&c.found), time_of(&c.found)),
        ours: match &c.ours {
            Some(p) => Some(owned(p)),
            None => None,
        },
        at: crate::model::secs(Some(c.at)) as i64,
    }
}

/// The conflict that is stored in a row.
pub fn read_conflict(row: &ConflictRow) -> (r: Option<Conflict>)
    requires
        row.at >= 0,
    ensures
        match r {
            Some(c) => conflict_of(row@) == Some(c@),
            None => conflict_of(row@) is None,
        },
{
    let path = RelPath::new(row.path.as_str());
    let dest = match &row.dest {
        Some(d) => Some(RelPath::new(d.as_str())),
        None => None,
    };
    let ours = match &row.ours {
        Some(d) => Some(RelPath::new(d.as_str())),
        None => None,
    };
    Conflict::from_row(
        row.seq,
        row.op.as_str(),
        path,
        dest,
        row_obs(row.expected.0, row.expected.1),
        row_obs(row.found.0, row.found.1),
        ours,
        row.at as u64,
    )
}

/// The conflicts in the rows, in order.
pub open spec fn conflicts_in(rows: Seq<ConflictRow<Seq<char>>>) -> Seq<Conflict<Seq<char>>>
    decreases rows.len(),
{
    if rows.len() == 0 {
        Seq::empty()
    } else {
        let before = conflicts_in(rows.drop_last());
        match conflict_of(rows.last()) {
            Some(c) => before.push(c),
            None => before,
        }
    }
}

/// Rows of conflicts by their characters.
pub open spec fn conflict_rows_view(rows: Seq<ConflictRow>) -> Seq<ConflictRow<Seq<char>>> {
    Seq::new(rows.len(), |i: int| rows[i]@)
}

/// Conflicts by the characters of their paths.
pub open spec fn conflicts_view(v: Seq<Conflict>) -> Seq<Conflict<Seq<char>>> {
    Seq::new(v.len(), |i: int| v[i]@)
}

/// The conflicts that were open when the last run ended.
pub fn conflicts_load(rows: &[ConflictRow]) -> (r: Vec<Conflict>)
    requires
        forall|i: int| #![trigger rows@[i]] 0 <= i < rows@.len() ==> rows@[i].at >= 0,
    ensures
        conflicts_view(r@) == conflicts_in(conflict_rows_view(rows@)),
{
    let mut out: Vec<Conflict> = Vec::new();
    let mut i: usize = 0;
    proof {
        assert(conflicts_view(out@) =~= Seq::empty());
    }
    while i < rows.len()
        invariant
            i <= rows@.len(),
            forall|j: int| #![trigger rows@[j]] 0 <= j < rows@.len() ==> rows@[j].at >= 0,
            conflicts_view(out@) == conflicts_in(conflict_rows_view(rows@).take(i as int)),
        decreases rows@.len() - i,
    {
        let ghost before = conflicts_view(out@);
        proof {
            let now = conflict_rows_view(rows@).take(i + 1);
            assert(now.drop_last() =~= conflict_rows_view(rows@).take(i as int));
            assert(now.last() == rows@[i as int]@);
        }
        match read_conflict(&rows[i]) {
            Some(c) => {
                out.push(c);
                proof {
                    assert(conflicts_view(out@) =~= before.push(c@));
                }
            },
            None => {},
        }
        i += 1;
    }
    proof {
        assert(conflict_rows_view(rows@).take(i as int) =~= conflict_rows_view(rows@));
    }
    out
}

/// A conflict about a write, a move or a removal is read back as it was stored,
/// but for the fraction of a second at which it was met.
pub proof fn law_conflicts_survive_the_disk(c: Conflict<Seq<char>>)
    requires
        c.op !is Create,
        match c.op {
            Operation::Create(p) => is_path(p),
            Operation::Write(p) => is_path(p),
            Operation::Rename(a, b) => is_path(a) && is_path(b),
            Operation::Delete(p) => is_path(p),
        },
        c.ours matches Some(p) ==> is_path(p),
        c.at.secs >= 0,
    ensures
        conflict_of(conflict_row_of(c)) == Some(
            Conflict { at: Moment { secs: c.at.secs, nanos: 0 }, ..c },
        ),
{
    lemma_conflict_letters();
    match c.op {
        Operation::Create(p) => {},
        Operation::Write(p) => {
            crate::path::lemma_normal_of_path(p);
        },
        Operation::Rename(a, b) => {
            crate::path::lemma_normal_of_path(a);
            crate::path::lemma_normal_of_path(b);
        },
        Operation::Delete(p) => {
            crate::path::lemma_normal_of_path(p);
        },
    }
    match c.ours {
        Some(p) => {
            crate::path::lemma_normal_of_path(p);
        },
        None => {},
    }
    match c.expected {
        Some(o) => {
            law_numbers_survive_the_disk(o.size);
            law_numbers_survive_the_disk(o.time);
        },
        None => {},
    }
    match c.found {
        Some(o) => {
            law_numbers_survive_the_disk(o.size);
            law_numbers_survive_the_disk(o.time);
        },
        None => {},
    }
}

} // verus!
