//! What the drive remembers from one run to the next.
use crate::model::{paths_view, Observation};
use crate::path::{rebased, within, RelPath};
use crate::table::{in_order, walk, PathMap, PathSet};
use crate::text::same;
use vstd::prelude::*;

verus! {

/// A change to what is stored on disk.
#[derive(Debug, PartialEq)]
pub enum Write<P = RelPath, B = Vec<u8>> {
    Observe(P, Observation),
    Unobserve(P),
    UnobserveWithin(P),
    Mark(P),
    Unmark(P),
    UnmarkWithin(P),
    Retire(i64),
    Sign(P, B),
    Unsign(P),
    UnsignWithin(P),
    MoveSigns(P, P),
    Pin(P),
    Unpin(P),
    ForgetConflict(i64),
}

impl View for Write {
    type V = Write<Seq<char>, Seq<u8>>;

    open spec fn view(&self) -> Write<Seq<char>, Seq<u8>> {
        match self {
            Write::Observe(p, o) => Write::Observe(p@, *o),
            Write::Unobserve(p) => Write::Unobserve(p@),
            Write::UnobserveWithin(p) => Write::UnobserveWithin(p@),
            Write::Mark(p) => Write::Mark(p@),
            Write::Unmark(p) => Write::Unmark(p@),
            Write::UnmarkWithin(p) => Write::UnmarkWithin(p@),
            Write::Retire(n) => Write::Retire(*n),
            Write::Sign(p, s) => Write::Sign(p@, s@),
            Write::Unsign(p) => Write::Unsign(p@),
            Write::UnsignWithin(p) => Write::UnsignWithin(p@),
            Write::MoveSigns(a, b) => Write::MoveSigns(a@, b@),
            Write::Pin(p) => Write::Pin(p@),
            Write::Unpin(p) => Write::Unpin(p@),
            Write::ForgetConflict(n) => Write::ForgetConflict(*n),
        }
    }
}

/// The ledger: what the server was last seen to have, which files hold edits
/// that it does not have, what is pinned, and the changes that have still to be
/// stored on disk.
#[verifier::ext_equal]
pub struct LedgerView {
    pub observations: Map<Seq<char>, Observation>,
    pub dirty: Set<Seq<char>>,
    pub pins: Set<Seq<char>>,
    pub unreadable: bool,
    pub writes: Seq<Write<Seq<char>, Seq<u8>>>,
}

/// The changes by the characters of their paths.
pub open spec fn writes_view(w: Seq<Write>) -> Seq<Write<Seq<char>, Seq<u8>>> {
    Seq::new(w.len(), |i: int| w[i]@)
}

/// The ledger in memory.
pub struct Ledger {
    pub observations: PathMap<Observation>,
    pub dirty: PathSet,
    pub pins: PathSet,
    pub unreadable: bool,
    pub writes: Vec<Write>,
}

impl View for Ledger {
    type V = LedgerView;

    open spec fn view(&self) -> LedgerView {
        LedgerView {
            observations: self.observations@,
            dirty: self.dirty@,
            pins: self.pins@,
            unreadable: self.unreadable,
            writes: writes_view(self.writes@),
        }
    }
}

/// An empty ledger.
pub open spec fn empty_ledger() -> LedgerView {
    LedgerView {
        observations: Map::empty(),
        dirty: Set::empty(),
        pins: Set::empty(),
        unreadable: false,
        writes: Seq::empty(),
    }
}

/// The ledger with one more change to be stored.
pub open spec fn with_write(l: LedgerView, w: Write<Seq<char>, Seq<u8>>) -> LedgerView {
    LedgerView { writes: l.writes.push(w), ..l }
}

/// The ledger after a version of a file has been seen on the server.
pub open spec fn observed(l: LedgerView, p: Seq<char>, o: Observation) -> LedgerView {
    with_write(
        LedgerView { observations: l.observations.insert(p, o), ..l },
        Write::Observe(p, o),
    )
}

/// The ledger after a file has been found to be gone from the server.
pub open spec fn unobserved(l: LedgerView, p: Seq<char>) -> LedgerView {
    let m = if l.observations.dom().contains(p) {
        with_write(
            LedgerView { observations: l.observations.remove(p), ..l },
            Write::Unobserve(p),
        )
    } else {
        l
    };
    with_write(m, Write::Unsign(p))
}

/// What of a map does not lie within `dir`.
pub open spec fn outside_map(
    m: Map<Seq<char>, Observation>,
    dir: Seq<char>,
) -> Map<Seq<char>, Observation> {
    m.restrict(m.dom().filter(|k: Seq<char>| !within(k, dir)))
}

/// What of a set does not lie within `dir`.
pub open spec fn outside(s: Set<Seq<char>>, dir: Seq<char>) -> Set<Seq<char>> {
    s.filter(|k: Seq<char>| !within(k, dir))
}

/// The ledger after `dir` and all below it is gone.
pub open spec fn forgotten(l: LedgerView, dir: Seq<char>) -> LedgerView {
    LedgerView {
        observations: outside_map(l.observations, dir),
        dirty: outside(l.dirty, dir),
        writes: l.writes.push(Write::UnobserveWithin(dir)).push(Write::UnmarkWithin(dir)).push(
            Write::UnsignWithin(dir),
        ),
        ..l
    }
}

/// The ledger after the observation of one path has been carried from below
/// `from` to below `to`.
pub open spec fn carry_observation(
    l: LedgerView,
    p: Seq<char>,
    from: Seq<char>,
    to: Seq<char>,
) -> LedgerView {
    let o = l.observations[p];
    let dest = rebased(p, from, to);
    LedgerView {
        observations: l.observations.remove(p).insert(dest, o),
        writes: l.writes.push(Write::Unobserve(p)).push(Write::Observe(dest, o)),
        ..l
    }
}

/// The ledger after the mark of one path has been carried from below `from` to
/// below `to`.
pub open spec fn carry_mark(
    l: LedgerView,
    p: Seq<char>,
    from: Seq<char>,
    to: Seq<char>,
) -> LedgerView {
    let dest = rebased(p, from, to);
    let left = l.dirty.remove(p);
    LedgerView {
        dirty: left.insert(dest),
        writes: if left.contains(dest) {
            l.writes.push(Write::Unmark(p))
        } else {
            l.writes.push(Write::Unmark(p)).push(Write::Mark(dest))
        },
        ..l
    }
}

/// The paths that are `dir` or lie below it, in order.
pub open spec fn select(paths: Seq<Seq<char>>, dir: Seq<char>) -> Seq<Seq<char>>
    decreases paths.len(),
{
    if paths.len() == 0 {
        paths
    } else if within(paths.last(), dir) {
        select(paths.drop_last(), dir).push(paths.last())
    } else {
        select(paths.drop_last(), dir)
    }
}

/// The ledger after the observations of some paths have been carried, first to
/// last.
pub open spec fn carry_observations(
    l: LedgerView,
    paths: Seq<Seq<char>>,
    from: Seq<char>,
    to: Seq<char>,
) -> LedgerView
    decreases paths.len(),
{
    if paths.len() == 0 {
        l
    } else {
        carry_observation(carry_observations(l, paths.drop_last(), from, to), paths.last(), from, to)
    }
}

/// The ledger after the marks of some paths have been carried, first to last.
pub open spec fn carry_marks(
    l: LedgerView,
    paths: Seq<Seq<char>>,
    from: Seq<char>,
    to: Seq<char>,
) -> LedgerView
    decreases paths.len(),
{
    if paths.len() == 0 {
        l
    } else {
        carry_mark(carry_marks(l, paths.drop_last(), from, to), paths.last(), from, to)
    }
}

/// The ledger after `dir` and all below it is gone from the server, whatever is
/// here.
pub open spec fn disowned(l: LedgerView, dir: Seq<char>) -> LedgerView {
    LedgerView {
        observations: outside_map(l.observations, dir),
        writes: l.writes.push(Write::UnobserveWithin(dir)).push(Write::UnsignWithin(dir)),
        ..l
    }
}

/// The ledger after `from` has become `to` on the server, whatever is here: what
/// was seen there of `from` and of what lies below was seen of `to`, path by path
/// in order.
pub open spec fn transferred(l: LedgerView, from: Seq<char>, to: Seq<char>) -> LedgerView {
    let a = with_write(with_write(l, Write::UnsignWithin(to)), Write::MoveSigns(from, to));
    carry_observations(a, select(walk(a.observations), from), from, to)
}

/// The ledger after `from` has become `to` on the server and here: all that it
/// says of `from` and of what lies below is said of `to`, path by path in order.
pub open spec fn remapped(l: LedgerView, from: Seq<char>, to: Seq<char>) -> LedgerView {
    let b = transferred(l, from, to);
    carry_marks(b, select(in_order(b.dirty), from), from, to)
}

impl Default for Ledger {
    fn default() -> (r: Ledger)
        ensures
            r@ == empty_ledger(),
    {
        let r = Ledger {
            observations: PathMap::new(),
            dirty: PathSet::new(),
            pins: PathSet::new(),
            unreadable: false,
            writes: Vec::new(),
        };
        proof {
            assert(r@.writes =~= Seq::empty());
        }
        r
    }
}

impl Ledger {
    fn write(&mut self, w: Write)
        ensures
            final(self)@ == with_write(old(self)@, w@),
    {
        let ghost before = self@;
        self.writes.push(w);
        proof {
            assert(self@ =~= with_write(before, w@));
        }
    }

    /// Hands out the changes that have still to be stored, oldest first.
    pub fn take_writes(&mut self) -> (r: Vec<Write>)
        ensures
            writes_view(r@) == old(self)@.writes,
            final(self)@ == (LedgerView { writes: Seq::empty(), ..old(self)@ }),
    {
        let mut out: Vec<Write> = Vec::new();
        std::mem::swap(&mut out, &mut self.writes);
        proof {
            assert(self@.writes =~= Seq::empty());
        }
        out
    }

    /// Notes on disk that a file holds edits.
    pub fn mark(&mut self, path: &RelPath)
        ensures
            final(self)@ == with_write(old(self)@, Write::Mark(path@)),
    {
        self.write(Write::Mark(path.clone()));
    }

    /// Notes that a file holds edits; whether that is news.
    pub fn dirty_set(&mut self, path: &RelPath) -> (r: bool)
        ensures
            r == !old(self)@.dirty.contains(path@),
            final(self)@ == if r {
                with_write(
                    LedgerView { dirty: old(self)@.dirty.insert(path@), ..old(self)@ },
                    Write::Mark(path@),
                )
            } else {
                old(self)@
            },
    {
        let fresh = self.dirty.insert(path.clone());
        if fresh {
            self.write(Write::Mark(path.clone()));
        } else {
            proof {
                assert(self@ =~= old(self)@);
            }
        }
        fresh
    }

    /// Notes that a file no longer holds edits.
    pub fn dirty_clear(&mut self, path: &RelPath)
        ensures
            final(self)@ == if old(self)@.dirty.contains(path@) {
                with_write(
                    LedgerView { dirty: old(self)@.dirty.remove(path@), ..old(self)@ },
                    Write::Unmark(path@),
                )
            } else {
                old(self)@
            },
    {
        if self.dirty.remove(path) {
            self.write(Write::Unmark(path.clone()));
        } else {
            proof {
                assert(self@ =~= old(self)@);
            }
        }
    }

    /// Notes which version of a file the server has.
    pub fn observe(&mut self, path: &RelPath, obs: Observation)
        ensures
            final(self)@ == observed(old(self)@, path@, obs),
    {
        self.observations.insert(path.clone(), obs);
        self.write(Write::Observe(path.clone(), obs));
    }

    /// Notes that the server does not have a file.
    pub fn unobserve(&mut self, path: &RelPath)
        ensures
            final(self)@ == unobserved(old(self)@, path@),
    {
        let ghost before = self@;
        match self.observations.remove(path) {
            Some(_) => {
                self.write(Write::Unobserve(path.clone()));
            },
            None => {
                proof {
                    assert(before.observations.remove(path@) =~= before.observations);
                    assert(self@ =~= before);
                }
            },
        }
        self.write(Write::Unsign(path.clone()));
    }

    /// Keeps the signature of what was last sent of a file.
    pub fn sign_set(&mut self, path: &RelPath, sig: Vec<u8>)
        ensures
            final(self)@ == with_write(old(self)@, Write::Sign(path@, sig@)),
    {
        self.write(Write::Sign(path.clone(), sig));
    }

    /// Pins a path.
    pub fn pin_set(&mut self, path: &RelPath)
        ensures
            final(self)@ == with_write(
                LedgerView { pins: old(self)@.pins.insert(path@), ..old(self)@ },
                Write::Pin(path@),
            ),
    {
        let _ = self.pins.insert(path.clone());
        self.write(Write::Pin(path.clone()));
    }

    /// Unpins a path.
    pub fn pin_clear(&mut self, path: &RelPath)
        ensures
            final(self)@ == with_write(
                LedgerView { pins: old(self)@.pins.remove(path@), ..old(self)@ },
                Write::Unpin(path@),
            ),
    {
        let _ = self.pins.remove(path);
        self.write(Write::Unpin(path.clone()));
    }

    /// Strikes a plan off the journal on disk.
    pub fn journal_retire(&mut self, seq: i64)
        ensures
            final(self)@ == with_write(old(self)@, Write::Retire(seq)),
    {
        self.write(Write::Retire(seq));
    }

    /// Strikes a conflict off the list on disk.
    pub fn conflict_retire(&mut self, seq: i64)
        ensures
            final(self)@ == with_write(old(self)@, Write::ForgetConflict(seq)),
    {
        self.write(Write::ForgetConflict(seq));
    }

    /// Forgets a path and all that lies below it.
    pub fn forget(&mut self, path: &RelPath)
        ensures
            final(self)@ == forgotten(old(self)@, path@),
    {
        let ghost before = self@;
        self.observations.remove_within(path);
        self.dirty.remove_within(path);
        self.write(Write::UnobserveWithin(path.clone()));
        self.write(Write::UnmarkWithin(path.clone()));
        self.write(Write::UnsignWithin(path.clone()));
        proof {
            assert(self@ =~= forgotten(before, path@));
        }
    }

    /// Forgets what the server had at a path and below it. Edits that are here
    /// stay.
    pub fn disown(&mut self, path: &RelPath)
        ensures
            final(self)@ == disowned(old(self)@, path@),
    {
        let ghost before = self@;
        self.observations.remove_within(path);
        self.write(Write::UnobserveWithin(path.clone()));
        self.write(Write::UnsignWithin(path.clone()));
        proof {
            assert(self@ =~= disowned(before, path@));
        }
    }

    /// Whether a file exists here only.
    pub fn local_only(&self, path: &RelPath) -> (r: bool)
        ensures
            r == is_local_only(self@, path@),
    {
        !self.observations.contains_key(path) && self.dirty.contains(path)
    }

    /// Says of `to` what was seen of `from`, and the same for what lies below.
    /// Edits that are here stay where they are.
    pub fn transfer(&mut self, from: &RelPath, to: &RelPath)
        ensures
            final(self)@ == transferred(old(self)@, from@, to@),
    {
        self.write(Write::UnsignWithin(to.clone()));
        self.write(Write::MoveSigns(from.clone(), to.clone()));
        let ghost a = self@;
        let keys = self.observations.keys();
        let moved = picked(&keys, from);
        let ghost paths = paths_view(moved@);
        proof {
            assert(paths_view(keys@) =~= walk(a.observations));
            crate::table::lemma_finite(self.observations);
            crate::table::lemma_walk_of_finite(a.observations.dom());
            lemma_select(walk(a.observations), from@);
        }
        let mut i: usize = 0;
        while i < moved.len()
            invariant
                i <= moved@.len(),
                paths == paths_view(moved@),
                forall|j: int| #![trigger paths[j]] 0 <= j < paths.len() ==> within(paths[j], from@),
                self@ == carry_observations(a, paths.take(i as int), from@, to@),
                forall|j: int| #![trigger paths[j]]
                    i <= j < paths.len() ==> self@.observations.dom().contains(paths[j]),
                forall|j: int, k: int| #![trigger paths[j], paths[k]]
                    0 <= j < k < paths.len() ==> paths[j] != paths[k],
            decreases moved@.len() - i,
        {
            let p = &moved[i];
            let ghost before = self@;
            proof {
                assert(paths[i as int] == p@);
                let now = paths.take(i + 1);
                assert(now.drop_last() =~= paths.take(i as int));
                assert(now.last() == p@);
            }
            match self.observations.remove(p) {
                Some(record) => {
                    let dest = p.rebase(from, to);
                    self.write(Write::Unobserve(p.clone()));
                    self.write(Write::Observe(dest.clone(), record));
                    self.observations.insert(dest, record);
                    proof {
                        assert(self@ =~= carry_observation(before, p@, from@, to@));
                        assert forall|j: int| #![trigger paths[j]]
                            i + 1 <= j < paths.len() implies self@.observations.dom().contains(paths[j]) by {
                            assert(paths[i as int] != paths[j]);
                        }
                    }
                },
                None => {},
            }
            i += 1;
        }
        proof {
            assert(paths.take(i as int) =~= paths);
        }
    }

    /// Says of `to` what was said of `from`, and the same for what lies below.
    pub fn remap(&mut self, from: &RelPath, to: &RelPath)
        ensures
            final(self)@ == remapped(old(self)@, from@, to@),
    {
        self.transfer(from, to);
        let ghost b = self@;
        let keys = self.dirty.keys();
        let moved = picked(&keys, from);
        let ghost paths = paths_view(moved@);
        proof {
            assert(paths_view(keys@) =~= in_order(b.dirty));
            crate::table::lemma_set_finite(self.dirty);
            crate::table::lemma_walk_of_finite(b.dirty);
            lemma_select(in_order(b.dirty), from@);
        }
        let mut i: usize = 0;
        while i < moved.len()
            invariant
                i <= moved@.len(),
                paths == paths_view(moved@),
                forall|j: int| #![trigger paths[j]] 0 <= j < paths.len() ==> within(paths[j], from@),
                self@ == carry_marks(b, paths.take(i as int), from@, to@),
            decreases moved@.len() - i,
        {
            let p = &moved[i];
            let ghost before = self@;
            proof {
                assert(paths[i as int] == p@);
                let now = paths.take(i + 1);
                assert(now.drop_last() =~= paths.take(i as int));
                assert(now.last() == p@);
            }
            let _ = self.dirty.remove(p);
            self.write(Write::Unmark(p.clone()));
            let dest = p.rebase(from, to);
            let ghost left = before.dirty.remove(p@);
            if self.dirty.insert(dest.clone()) {
                self.write(Write::Mark(dest));
            }
            proof {
                assert(self@ =~= carry_mark(before, p@, from@, to@));
            }
            i += 1;
        }
        proof {
            assert(paths.take(i as int) =~= paths);
        }
    }
}

/// A file exists here only: it holds edits, and the server was never seen to
/// have it.
pub open spec fn is_local_only(l: LedgerView, p: Seq<char>) -> bool {
    !l.observations.dom().contains(p) && l.dirty.contains(p)
}

fn picked(paths: &Vec<RelPath>, dir: &RelPath) -> (r: Vec<RelPath>)
    ensures
        paths_view(r@) == select(paths_view(paths@), dir@),
{
    let mut out: Vec<RelPath> = Vec::new();
    let mut i: usize = 0;
    proof {
        assert(paths_view(out@) =~= select(paths_view(paths@).take(0), dir@));
    }
    while i < paths.len()
        invariant
            i <= paths@.len(),
            paths_view(out@) == select(paths_view(paths@).take(i as int), dir@),
        decreases paths@.len() - i,
    {
        let ghost before = out@;
        proof {
            let now = paths_view(paths@).take(i + 1);
            assert(now.drop_last() =~= paths_view(paths@).take(i as int));
            assert(now.last() == paths@[i as int]@);
        }
        if paths[i].is_within(dir) {
            out.push(paths[i].clone());
            proof {
                assert(paths_view(out@) =~= paths_view(before).push(paths@[i as int]@));
            }
        }
        i += 1;
    }
    proof {
        assert(paths_view(paths@).take(i as int) =~= paths_view(paths@));
    }
    out
}

/// What is selected lies within the directory, comes from the paths, and keeps
/// their order.
pub proof fn lemma_select(paths: Seq<Seq<char>>, dir: Seq<char>)
    ensures
        forall|i: int|
            #![trigger select(paths, dir)[i]]
            0 <= i < select(paths, dir).len() ==> within(select(paths, dir)[i], dir)
                && paths.to_set().contains(select(paths, dir)[i]),
        forall|x: Seq<char>|
            #![trigger select(paths, dir).contains(x)]
            select(paths, dir).contains(x) <==> paths.contains(x) && within(x, dir),
        crate::table::ascending(paths) ==> crate::table::ascending(select(paths, dir)),
        crate::table::ascending(paths) ==> forall|i: int, j: int|
            #![trigger select(paths, dir)[i], select(paths, dir)[j]]
            0 <= i < j < select(paths, dir).len() ==> select(paths, dir)[i] != select(
                paths,
                dir,
            )[j],
    decreases paths.len(),
{
    let now = select(paths, dir);
    if paths.len() > 0 {
        let front = paths.drop_last();
        let before = select(front, dir);
        lemma_select(front, dir);
        assert forall|i: int| #![trigger now[i]] 0 <= i < now.len() implies within(now[i], dir)
            && paths.to_set().contains(now[i]) by {
            if i < before.len() {
                assert(now[i] == before[i]);
                assert(front.to_set().contains(before[i]));
                let j = choose|j: int| 0 <= j < front.len() && front[j] == before[i];
                assert(paths[j] == now[i]);
            } else {
                assert(paths[paths.len() - 1] == now[i]);
            }
        }
        assert forall|x: Seq<char>| #![trigger now.contains(x)] now.contains(x) <==> paths.contains(x)
            && within(x, dir) by {
            if now.contains(x) {
                let i = choose|i: int| 0 <= i < now.len() && now[i] == x;
                assert(paths.to_set().contains(now[i]));
            }
            if paths.contains(x) && within(x, dir) {
                let j = choose|j: int| 0 <= j < paths.len() && paths[j] == x;
                if j < front.len() {
                    assert(front[j] == x);
                    assert(before.contains(x));
                    let i = choose|i: int| 0 <= i < before.len() && before[i] == x;
                    assert(now[i] == x);
                } else {
                    assert(now[now.len() - 1] == x);
                }
            }
        }
        if crate::table::ascending(paths) {
            assert(crate::table::ascending(front)) by {
                assert forall|i: int, j: int| #![trigger front[i], front[j]] 0 <= i < j < front.len() implies crate::text::precedes(
                front[i], front[j]) by {
                    assert(crate::text::precedes(paths[i], paths[j]));
                }
            }
            assert forall|i: int, j: int| #![trigger now[i], now[j]] 0 <= i < j < now.len() implies crate::text::precedes(
            now[i], now[j]) by {
                if j < before.len() {
                    assert(crate::text::precedes(before[i], before[j]));
                } else {
                    assert(front.to_set().contains(before[i]));
                    let k = choose|k: int| 0 <= k < front.len() && front[k] == before[i];
                    assert(crate::text::precedes(paths[k], paths[paths.len() - 1]));
                }
            }
            crate::table::lemma_ascending_no_duplicates(now);
            assert forall|i: int, j: int| #![trigger now[i], now[j]] 0 <= i < j < now.len() implies now[i]
                != now[j] by {
            }
        }
    } else {
        assert(now =~= paths);
        assert forall|x: Seq<char>| #![trigger now.contains(x)] now.contains(x) <==> paths.contains(x)
            && within(x, dir) by {
        }
    }
}

} // verus!
