//! What the drive knows of files, what happens to them, and what is to be done
//! on the server about it.
use crate::path::{below, RelPath};
use crate::sdk::FileInfo;
use crate::table::PathMap;
use crate::text::{concat, join};
use vstd::prelude::*;

verus! {

/// A point in time: whole seconds since the Unix epoch, rounded down, and the
/// nanoseconds past them.
#[derive(Clone, Copy, Debug, PartialEq, Eq, Structural)]
pub struct Moment {
    pub secs: i64,
    pub nanos: u32,
}

impl Moment {
    /// The moment `millis` milliseconds after the epoch.
    pub fn from_millis(millis: u64) -> (r: Moment)
        ensures
            r.secs == millis / 1000,
            r.nanos == (millis % 1000) * 1_000_000,
    {
        Moment { secs: (millis / 1000) as i64, nanos: ((millis % 1000) * 1_000_000) as u32 }
    }

    /// The moment `secs` seconds after the epoch.
    pub fn from_secs(secs: u64) -> (r: Moment)
        requires
            secs <= i64::MAX,
        ensures
            r.secs == secs,
            r.nanos == 0,
    {
        Moment { secs: secs as i64, nanos: 0 }
    }
}

/// The whole seconds of a time since the epoch; 0 where there is no time, and
/// for a time before the epoch.
pub open spec fn whole_secs(t: Option<Moment>) -> u64 {
    match t {
        Some(m) => if m.secs >= 0 {
            m.secs as u64
        } else {
            0
        },
        None => 0,
    }
}

/// See `whole_secs`.
pub fn secs(t: Option<Moment>) -> (r: u64)
    ensures
        r == whole_secs(t),
{
    match t {
        Some(m) => if m.secs >= 0 {
            m.secs as u64
        } else {
            0
        },
        None => 0,
    }
}

/// What the local file system says of a file.
#[derive(Clone, Copy, Debug, PartialEq, Eq, Structural)]
pub struct Meta {
    pub size: u64,
    pub mtime: Option<Moment>,
}

/// A version of a file as it was last seen: its size, and its time of
/// modification in whole seconds.
#[derive(Clone, Copy, Debug, PartialEq, Eq, Structural)]
pub struct Observation {
    pub size: u64,
    pub time: u64,
}

/// What is seen of a file that the server describes.
pub open spec fn seen_in(info: FileInfo) -> Observation {
    Observation {
        size: match info.size {
            Some(n) => n,
            None => 0,
        },
        time: whole_secs(info.mtime),
    }
}

/// What is seen of a local file.
pub open spec fn seen_at(md: Meta) -> Observation {
    Observation { size: md.size, time: whole_secs(md.mtime) }
}

impl Observation {
    pub fn new(size: u64, mtime: Option<Moment>) -> (r: Observation)
        ensures
            r == (Observation { size, time: whole_secs(mtime) }),
    {
        Observation { size, time: secs(mtime) }
    }

    pub fn of(info: &FileInfo) -> (r: Observation)
        ensures
            r == seen_in(*info),
    {
        let size: u64 = match info.size {
            Some(n) => n,
            None => 0,
        };
        Observation::new(size, info.mtime)
    }

    pub fn of_local(md: &Meta) -> (r: Observation)
        ensures
            r == seen_at(*md),
    {
        Observation::new(md.size, md.mtime)
    }
}

/// What is to become of a path on the server once all that is pending is done:
/// it goes, or another file arrives there under this name.
#[derive(Debug, PartialEq)]
pub enum Fate<P = RelPath> {
    Gone,
    Arrived { from: P, was: Observation },
}

impl View for Fate {
    type V = Fate<Seq<char>>;

    open spec fn view(&self) -> Fate<Seq<char>> {
        match self {
            Fate::Gone => Fate::Gone,
            Fate::Arrived { from, was } => Fate::Arrived { from: from@, was: *was },
        }
    }
}

impl Clone for Fate {
    fn clone(&self) -> (r: Fate)
        ensures
            r == *self,
    {
        match self {
            Fate::Gone => Fate::Gone,
            Fate::Arrived { from, was } => Fate::Arrived { from: from.clone(), was: *was },
        }
    }
}

/// How a conflict is settled.
#[derive(Clone, Copy, Debug, PartialEq, Eq, Structural)]
pub enum Resolution {
    Ours,
    Theirs,
    Both,
}

/// What a program did to a file of the drive.
#[derive(Debug, PartialEq)]
pub enum Operation<P = RelPath> {
    Create(P),
    Write(P),
    Rename(P, P),
    Delete(P),
}

impl View for Operation {
    type V = Operation<Seq<char>>;

    open spec fn view(&self) -> Operation<Seq<char>> {
        match self {
            Operation::Create(p) => Operation::Create(p@),
            Operation::Write(p) => Operation::Write(p@),
            Operation::Rename(a, b) => Operation::Rename(a@, b@),
            Operation::Delete(p) => Operation::Delete(p@),
        }
    }
}

impl Clone for Operation {
    fn clone(&self) -> (r: Operation)
        ensures
            r == *self,
    {
        match self {
            Operation::Create(p) => Operation::Create(p.clone()),
            Operation::Write(p) => Operation::Write(p.clone()),
            Operation::Rename(a, b) => Operation::Rename(a.clone(), b.clone()),
            Operation::Delete(p) => Operation::Delete(p.clone()),
        }
    }
}

/// What the server holds is not what was expected when a plan was replayed.
#[derive(Debug)]
pub struct Conflict<P = RelPath> {
    pub seq: i64,
    pub op: Operation<P>,
    pub expected: Option<Observation>,
    pub found: Option<Observation>,
    pub ours: Option<P>,
    pub at: Moment,
}

/// An optional path by its characters.
pub open spec fn opt_view(p: Option<RelPath>) -> Option<Seq<char>> {
    match p {
        Some(p) => Some(p@),
        None => None,
    }
}

/// A copy of an optional path.
pub fn opt_clone(p: &Option<RelPath>) -> (r: Option<RelPath>)
    ensures
        r == *p,
{
    match p {
        Some(p) => Some(p.clone()),
        None => None,
    }
}

impl View for Conflict {
    type V = Conflict<Seq<char>>;

    open spec fn view(&self) -> Conflict<Seq<char>> {
        Conflict {
            seq: self.seq,
            op: self.op@,
            expected: self.expected,
            found: self.found,
            ours: opt_view(self.ours),
            at: self.at,
        }
    }
}

impl Clone for Conflict {
    fn clone(&self) -> (r: Conflict)
        ensures
            r == *self,
    {
        Conflict {
            seq: self.seq,
            op: self.op.clone(),
            expected: self.expected,
            found: self.found,
            ours: opt_clone(&self.ours),
            at: self.at,
        }
    }
}

impl Conflict {
    /// A conflict that has no place in the ledger yet, met at `now`.
    pub fn new(
        op: Operation,
        expected: Option<Observation>,
        found: Option<Observation>,
        ours: Option<RelPath>,
        now: Moment,
    ) -> (r: Conflict)
        ensures
            r == (Conflict { seq: 0, op, expected, found, ours, at: now }),
    {
        Conflict { seq: 0, op, expected, found, ours, at: now }
    }
}

/// What is to be done on the server, and on which version of the file it may be
/// done.
#[derive(Debug, PartialEq)]
pub enum Plan<P = RelPath> {
    Save { path: P, replaces: Option<Observation>, reuses: Option<P> },
    Move { from: P, to: P, moves: Observation },
    Remove { path: P, removes: Observation },
}

impl View for Plan {
    type V = Plan<Seq<char>>;

    open spec fn view(&self) -> Plan<Seq<char>> {
        match self {
            Plan::Save { path, replaces, reuses } => Plan::Save {
                path: path@,
                replaces: *replaces,
                reuses: opt_view(*reuses),
            },
            Plan::Move { from, to, moves } => Plan::Move { from: from@, to: to@, moves: *moves },
            Plan::Remove { path, removes } => Plan::Remove { path: path@, removes: *removes },
        }
    }
}

impl Clone for Plan {
    fn clone(&self) -> (r: Plan)
        ensures
            r == *self,
    {
        match self {
            Plan::Save { path, replaces, reuses } => Plan::Save {
                path: path.clone(),
                replaces: *replaces,
                reuses: opt_clone(reuses),
            },
            Plan::Move { from, to, moves } => Plan::Move {
                from: from.clone(),
                to: to.clone(),
                moves: *moves,
            },
            Plan::Remove { path, removes } => Plan::Remove { path: path.clone(), removes: *removes },
        }
    }
}

/// The plans by the characters of their paths.
pub open spec fn plans_view(plans: Seq<Plan>) -> Seq<Plan<Seq<char>>> {
    Seq::new(plans.len(), |i: int| plans[i]@)
}

/// The operations by the characters of their paths.
pub open spec fn ops_view(ops: Seq<Operation>) -> Seq<Operation<Seq<char>>> {
    Seq::new(ops.len(), |i: int| ops[i]@)
}

/// The paths by their characters.
pub open spec fn paths_view(paths: Seq<RelPath>) -> Seq<Seq<char>> {
    Seq::new(paths.len(), |i: int| paths[i]@)
}

/// The paths that a plan speaks of.
pub open spec fn plan_paths(plan: Plan<Seq<char>>) -> Seq<Seq<char>> {
    match plan {
        Plan::Save { path, replaces, reuses } => match reuses {
            Some(x) => seq![path, x],
            None => seq![path],
        },
        Plan::Move { from, to, moves } => seq![from, to],
        Plan::Remove { path, removes } => seq![path],
    }
}

/// One of the two paths is, or lies below, the other.
pub open spec fn akin(p: Seq<char>, q: Seq<char>) -> bool {
    p == q || below(p, q) || below(q, p)
}

/// The plan speaks of `p`, of something below it or of something above it.
pub open spec fn plan_touches(plan: Plan<Seq<char>>, p: Seq<char>) -> bool {
    exists|i: int| 0 <= i < plan_paths(plan).len() && akin(p, #[trigger] plan_paths(plan)[i])
}

/// The two plans cannot be replayed side by side: they touch.
pub open spec fn plans_overlap(a: Plan<Seq<char>>, b: Plan<Seq<char>>) -> bool {
    exists|i: int| 0 <= i < plan_paths(b).len() && plan_touches(a, #[trigger] plan_paths(b)[i])
}

impl Plan {
    /// The paths that the plan speaks of.
    pub fn paths(&self) -> (r: Vec<&RelPath>)
        ensures
            r@.len() == plan_paths(self@).len(),
            forall|i: int| #![trigger r@[i]] 0 <= i < r@.len() ==> r@[i]@ == plan_paths(self@)[i],
    {
        let mut out: Vec<&RelPath> = Vec::new();
        match self {
            Plan::Save { path, reuses, .. } => {
                out.push(path);
                match reuses {
                    Some(x) => {
                        out.push(x);
                    },
                    None => {},
                }
            },
            Plan::Move { from, to, .. } => {
                out.push(from);
                out.push(to);
            },
            Plan::Remove { path, .. } => {
                out.push(path);
            },
        }
        out
    }

    /// Whether the plan speaks of `p`, of something below it or above it.
    pub fn touches(&self, p: &RelPath) -> (r: bool)
        ensures
            r == plan_touches(self@, p@),
    {
        let paths = self.paths();
        let mut i: usize = 0;
        while i < paths.len()
            invariant
                i <= paths@.len(),
                paths@.len() == plan_paths(self@).len(),
                forall|j: int| #![trigger paths@[j]]
                    0 <= j < paths@.len() ==> paths@[j]@ == plan_paths(self@)[j],
                forall|j: int| #![trigger plan_paths(self@)[j]]
                    0 <= j < i ==> !akin(p@, plan_paths(self@)[j]),
            decreases paths@.len() - i,
        {
            let q = paths[i];
            if p == q || p.is_descendant_of(q) || q.is_descendant_of(p) {
                proof {
                    assert(akin(p@, plan_paths(self@)[i as int]));
                }
                return true;
            }
            i += 1;
        }
        false
    }

    /// Whether the two plans touch, so that they cannot be replayed side by side.
    pub fn overlaps(&self, other: &Plan) -> (r: bool)
        ensures
            r == plans_overlap(self@, other@),
    {
        let paths = other.paths();
        let mut i: usize = 0;
        while i < paths.len()
            invariant
                i <= paths@.len(),
                paths@.len() == plan_paths(other@).len(),
                forall|j: int| #![trigger paths@[j]]
                    0 <= j < paths@.len() ==> paths@[j]@ == plan_paths(other@)[j],
                forall|j: int| #![trigger plan_paths(other@)[j]]
                    0 <= j < i ==> !plan_touches(self@, plan_paths(other@)[j]),
            decreases paths@.len() - i,
        {
            if self.touches(paths[i]) {
                proof {
                    assert(plan_touches(self@, plan_paths(other@)[i as int]));
                }
                return true;
            }
            i += 1;
        }
        false
    }
}

/// Overlapping is symmetric, and every plan overlaps itself.
pub proof fn law_overlap_is_symmetric(a: Plan<Seq<char>>, b: Plan<Seq<char>>)
    ensures
        plans_overlap(a, b) == plans_overlap(b, a),
        plans_overlap(a, a),
{
    assert(akin(plan_paths(a)[0], plan_paths(a)[0]));
    assert(plan_touches(a, plan_paths(a)[0]));
    if plans_overlap(a, b) {
        lemma_overlap_back(a, b);
    }
    if plans_overlap(b, a) {
        lemma_overlap_back(b, a);
    }
}

proof fn lemma_overlap_back(a: Plan<Seq<char>>, b: Plan<Seq<char>>)
    requires
        plans_overlap(a, b),
    ensures
        plans_overlap(b, a),
{
    let i = choose|i: int| 0 <= i < plan_paths(b).len() && plan_touches(a, #[trigger] plan_paths(b)[i]);
    let p = plan_paths(b)[i];
    let j = choose|j: int| 0 <= j < plan_paths(a).len() && akin(p, #[trigger] plan_paths(a)[j]);
    assert(akin(plan_paths(a)[j], plan_paths(b)[i]));
    assert(plan_touches(b, plan_paths(a)[j]));
}

/// Something that can be written out for the log.
pub trait Shown {
    /// Its text.
    spec fn text(&self) -> Seq<char>;

    /// Its text as a string.
    fn to_string(&self) -> (r: String)
        ensures
            r@ == self.text(),
    ;
}

/// How an operation is written out.
pub open spec fn op_text(op: Operation<Seq<char>>) -> Seq<char> {
    match op {
        Operation::Create(p) => "c "@ + p,
        Operation::Write(p) => "w "@ + p,
        Operation::Rename(a, b) => "mv "@ + a + "->"@ + b,
        Operation::Delete(p) => "rm "@ + p,
    }
}

/// How a plan is written out.
pub open spec fn plan_text(plan: Plan<Seq<char>>) -> Seq<char> {
    match plan {
        Plan::Save { path, replaces, reuses } => {
            let fresh = if replaces is None {
                " (new)"@
            } else {
                Seq::<char>::empty()
            };
            let source = match reuses {
                Some(x) => " <"@ + x,
                None => Seq::<char>::empty(),
            };
            "save "@ + path + fresh + source
        },
        Plan::Move { from, to, moves } => "move "@ + from + "->"@ + to,
        Plan::Remove { path, removes } => "remove "@ + path,
    }
}

impl Shown for Operation {
    open spec fn text(&self) -> Seq<char> {
        op_text(self@)
    }

    fn to_string(&self) -> (r: String) {
        match self {
            Operation::Create(p) => concat("c ", p.as_str()),
            Operation::Write(p) => concat("w ", p.as_str()),
            Operation::Rename(a, b) => {
                let mut s = concat("mv ", a.as_str());
                s.append("->");
                s.append(b.as_str());
                s
            },
            Operation::Delete(p) => concat("rm ", p.as_str()),
        }
    }
}

impl Shown for Plan {
    open spec fn text(&self) -> Seq<char> {
        plan_text(self@)
    }

    fn to_string(&self) -> (r: String) {
        match self {
            Plan::Save { path, replaces, reuses } => {
                let mut s = concat("save ", path.as_str());
                if replaces.is_none() {
                    s.append(" (new)");
                }
                match reuses {
                    Some(x) => {
                        s.append(" <");
                        s.append(x.as_str());
                    },
                    None => {},
                }
                proof {
                    assert(s@ =~= plan_text(self@));
                }
                s
            },
            Plan::Move { from, to, .. } => {
                let mut s = concat("move ", from.as_str());
                s.append("->");
                s.append(to.as_str());
                s
            },
            Plan::Remove { path, .. } => concat("remove ", path.as_str()),
        }
    }
}

/// The texts of some items.
pub open spec fn texts<D: Shown>(items: Seq<D>) -> Seq<Seq<char>> {
    Seq::new(items.len(), |i: int| items[i].text())
}

/// The items written out, with a comma between each two.
pub fn render<D: Shown>(items: &[D]) -> (r: String)
    ensures
        r@ == join(texts(items@), ", "@),
{
    let mut out = String::new();
    let mut i: usize = 0;
    while i < items.len()
        invariant
            i <= items@.len(),
            out@ == join(texts(items@).take(i as int), ", "@),
        decreases items@.len() - i,
    {
        if i > 0 {
            out.append(", ");
        }
        let t = items[i].to_string();
        out.append(t.as_str());
        proof {
            let now = texts(items@).take(i + 1);
            assert(now.drop_last() =~= texts(items@).take(i as int));
            assert(now.last() == t@);
        }
        i += 1;
    }
    proof {
        assert(texts(items@).take(i as int) =~= texts(items@));
    }
    out
}

/// All that is to be done on the server after the operations, on top of the
/// plans that are still waiting.
pub fn coalesce(
    pending: &[Plan],
    ops: &[Operation],
    know: &PathMap<Observation>,
) -> (r: Vec<Plan>)
    ensures
        plans_view(r@) == crate::journal::coalesced(
            crate::journal::seeded(plans_view(pending@)),
            ops_view(ops@),
            know@,
        ),
{
    crate::journal::coalesce(crate::journal::seed(pending), ops, know)
}

/// What is seen of a file is its size, none being 0, and the whole seconds of its
/// time, those before the epoch and no time at all being 0; here and on the server
/// alike.
pub proof fn law_what_is_seen_of_a_file(info: FileInfo, md: Meta)
    ensures
        info.size matches Some(n) ==> seen_in(info).size == n,
        info.size is None ==> seen_in(info).size == 0,
        info.mtime matches Some(t) ==> seen_in(info).time == if t.secs < 0 {
            0
        } else {
            t.secs as int
        },
        info.mtime is None ==> seen_in(info).time == 0,
        info.size == Some(md.size) && info.mtime == md.mtime ==> seen_in(info) == seen_at(md),
{
}

} // verus!
