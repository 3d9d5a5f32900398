//! What stays in the cache: what holds edits, what is still to be uploaded and
//! what is pinned.
use crate::ledger::{unobserved, Ledger, LedgerView};
use crate::model::paths_view;
use crate::path::{within, RelPath};
use crate::replay::{is_covered, is_frozen};
use crate::table::{in_order, lemma_walk_of_finite, walk, PathSet};
use crate::text::{decimal, decimal_of};
use crate::upload::unmarked;
use vstd::prelude::*;

verus! {

/// Nobody needs the local copy of a file: it holds no edits, it is not to be
/// uploaded, and it is not pinned.
pub open spec fn is_spare(l: LedgerView, owed: Set<Seq<char>>, p: Seq<char>) -> bool {
    !l.dirty.contains(p) && !owed.contains(p) && !is_frozen(l.pins, p)
}

/// The files that nobody needs, in order.
pub open spec fn spares(
    l: LedgerView,
    owed: Set<Seq<char>>,
    paths: Seq<Seq<char>>,
) -> Seq<Seq<char>>
    decreases paths.len(),
{
    if paths.len() == 0 {
        Seq::empty()
    } else {
        let before = spares(l, owed, paths.drop_last());
        if is_spare(l, owed, paths.last()) {
            before.push(paths.last())
        } else {
            before
        }
    }
}

/// The ledger after some files were found to be gone.
pub open spec fn all_unobserved(l: LedgerView, paths: Seq<Seq<char>>) -> LedgerView
    decreases paths.len(),
{
    if paths.len() == 0 {
        l
    } else {
        unobserved(all_unobserved(l, paths.drop_last()), paths.last())
    }
}

/// The ledger after some files were found to hold no edits.
pub open spec fn all_unmarked(l: LedgerView, paths: Seq<Seq<char>>) -> LedgerView
    decreases paths.len(),
{
    if paths.len() == 0 {
        l
    } else {
        unmarked(all_unmarked(l, paths.drop_last()), paths.last())
    }
}

/// The paths that are not in the set, in order.
pub open spec fn missing_from(paths: Seq<Seq<char>>, here: Set<Seq<char>>) -> Seq<Seq<char>>
    decreases paths.len(),
{
    if paths.len() == 0 {
        Seq::empty()
    } else {
        let before = missing_from(paths.drop_last(), here);
        if here.contains(paths.last()) {
            before
        } else {
            before.push(paths.last())
        }
    }
}

/// The ledger of a client that keeps nothing but edits, after the edits that are
/// not here any more have been written off.
pub open spec fn only_edits(l: LedgerView, here: Set<Seq<char>>) -> LedgerView {
    let left = all_unmarked(l, missing_from(in_order(l.dirty), here));
    all_unobserved(left, missing_from(walk(left.observations), left.dirty))
}

fn absent(paths: &Vec<RelPath>, here: &PathSet) -> (r: Vec<RelPath>)
    ensures
        paths_view(r@) == missing_from(paths_view(paths@), here@),
{
    let ghost pv = paths_view(paths@);
    let mut out: Vec<RelPath> = Vec::new();
    let mut i: usize = 0;
    proof {
        assert(paths_view(out@) =~= Seq::empty());
    }
    while i < paths.len()
        invariant
            i <= paths@.len(),
            pv == paths_view(paths@),
            paths_view(out@) == missing_from(pv.take(i as int), here@),
        decreases paths@.len() - i,
    {
        let ghost before = paths_view(out@);
        proof {
            let now = pv.take(i + 1);
            assert(now.drop_last() =~= pv.take(i as int));
            assert(now.last() == paths@[i as int]@);
        }
        if !here.contains(&paths[i]) {
            out.push(paths[i].clone());
            proof {
                assert(paths_view(out@) =~= before.push(paths@[i as int]@));
            }
        }
        i += 1;
    }
    proof {
        assert(pv.take(i as int) =~= pv);
    }
    out
}

fn gather(out: &mut Vec<RelPath>, set: &PathSet)
    ensures
        paths_view(final(out)@) == paths_view(old(out)@) + in_order(set@),
{
    let ghost before = paths_view(out@);
    let keys = set.keys();
    let ghost kv = in_order(set@);
    let mut i: usize = 0;
    proof {
        assert(before + kv.take(0) =~= before);
    }
    while i < keys.len()
        invariant
            i <= keys@.len(),
            keys@.len() == kv.len(),
            forall|j: int| #![trigger keys@[j]] 0 <= j < keys@.len() ==> keys@[j]@ == kv[j],
            paths_view(out@) == before + kv.take(i as int),
        decreases keys@.len() - i,
    {
        let ghost so_far = paths_view(out@);
        out.push(keys[i].clone());
        proof {
            assert(paths_view(out@) =~= so_far.push(kv[i as int]));
            assert(so_far.push(kv[i as int]) =~= before + kv.take(i + 1));
        }
        i += 1;
    }
    proof {
        assert(kv.take(i as int) =~= kv);
    }
}

impl Ledger {
    /// Whether a path, or a directory above it, is pinned.
    pub fn pinned(&self, path: &RelPath) -> (r: bool)
        ensures
            r == is_frozen(self@.pins, path@),
    {
        is_covered(&self.pins, path)
    }

    /// Whether the ledger could not be read, which is told once.
    pub fn take_unreadable(&mut self) -> (r: bool)
        ensures
            r == old(self)@.unreadable,
            final(self)@ == (LedgerView { unreadable: false, ..old(self)@ }),
    {
        let r = self.unreadable;
        self.unreadable = false;
        r
    }

    /// Forgets the versions of the files that nobody needs here, and says what is
    /// to be kept: what holds edits, what is owed to the server, what is pinned.
    pub fn prune(&mut self, owed: &PathSet) -> (r: Vec<RelPath>)
        ensures
            final(self)@ == all_unobserved(
                old(self)@,
                spares(old(self)@, owed@, walk(old(self)@.observations)),
            ),
            paths_view(r@) == in_order(old(self)@.dirty) + in_order(owed@) + in_order(
                old(self)@.pins,
            ),
    {
        let ghost before = self@;
        let keys = self.observations.keys();
        let ghost kv = walk(before.observations);
        let mut gone: Vec<RelPath> = Vec::new();
        let mut i: usize = 0;
        proof {
            assert(paths_view(gone@) =~= Seq::empty());
        }
        while i < keys.len()
            invariant
                i <= keys@.len(),
                self@ == before,
                keys@.len() == kv.len(),
                forall|j: int| #![trigger keys@[j]] 0 <= j < keys@.len() ==> keys@[j]@ == kv[j],
                paths_view(gone@) == spares(before, owed@, kv.take(i as int)),
            decreases keys@.len() - i,
        {
            let ghost so_far = paths_view(gone@);
            proof {
                let now = kv.take(i + 1);
                assert(now.drop_last() =~= kv.take(i as int));
                assert(now.last() == keys@[i as int]@);
            }
            if !self.dirty.contains(&keys[i]) && !owed.contains(&keys[i]) && !self.pinned(&keys[i]) {
                gone.push(keys[i].clone());
                proof {
                    assert(paths_view(gone@) =~= so_far.push(kv[i as int]));
                }
            }
            i += 1;
        }
        proof {
            assert(kv.take(i as int) =~= kv);
        }
        self.unobserve_all(&gone);
        proof {
            lemma_all_unobserved(before, paths_view(gone@));
        }
        let mut keep: Vec<RelPath> = Vec::new();
        proof {
            assert(paths_view(keep@) =~= Seq::empty());
        }
        gather(&mut keep, &self.dirty);
        gather(&mut keep, owed);
        gather(&mut keep, &self.pins);
        proof {
            assert(Seq::<Seq<char>>::empty() + in_order(before.dirty) =~= in_order(before.dirty));
        }
        keep
    }

    fn unobserve_all(&mut self, paths: &Vec<RelPath>)
        ensures
            final(self)@ == all_unobserved(old(self)@, paths_view(paths@)),
    {
        let ghost before = self@;
        let ghost pv = paths_view(paths@);
        let mut i: usize = 0;
        while i < paths.len()
            invariant
                i <= paths@.len(),
                pv == paths_view(paths@),
                self@ == all_unobserved(before, pv.take(i as int)),
            decreases paths@.len() - i,
        {
            proof {
                let now = pv.take(i + 1);
                assert(now.drop_last() =~= pv.take(i as int));
                assert(now.last() == paths@[i as int]@);
            }
            self.unobserve(&paths[i]);
            i += 1;
        }
        proof {
            assert(pv.take(i as int) =~= pv);
        }
    }

    /// Writes off the edits that are not here any more, forgets the versions of
    /// all other files, and says what is to be kept: the edits. `here` holds
    /// the edited files that are here.
    pub fn keep_edits(&mut self, here: &PathSet) -> (r: Vec<RelPath>)
        ensures
            final(self)@ == only_edits(old(self)@, here@),
            paths_view(r@) == in_order(final(self)@.dirty),
    {
        let ghost before = self@;
        let marks = self.dirty.keys();
        proof {
            assert(paths_view(marks@) =~= in_order(before.dirty));
        }
        let lost = absent(&marks, here);
        let ghost lv = paths_view(lost@);
        let mut i: usize = 0;
        while i < lost.len()
            invariant
                i <= lost@.len(),
                lv == paths_view(lost@),
                self@ == all_unmarked(before, lv.take(i as int)),
            decreases lost@.len() - i,
        {
            proof {
                let now = lv.take(i + 1);
                assert(now.drop_last() =~= lv.take(i as int));
                assert(now.last() == lost@[i as int]@);
            }
            self.dirty_clear(&lost[i]);
            i += 1;
        }
        proof {
            assert(lv.take(i as int) =~= lv);
        }
        let ghost left = self@;
        let keys = self.observations.keys();
        proof {
            assert(paths_view(keys@) =~= walk(left.observations));
        }
        let gone = absent(&keys, &self.dirty);
        self.unobserve_all(&gone);
        proof {
            lemma_all_unobserved(left, paths_view(gone@));
        }
        let mut keep: Vec<RelPath> = Vec::new();
        proof {
            assert(paths_view(keep@) =~= Seq::empty());
        }
        gather(&mut keep, &self.dirty);
        proof {
            assert(Seq::<Seq<char>>::empty() + in_order(left.dirty) =~= in_order(left.dirty));
        }
        keep
    }
}

proof fn lemma_all_unobserved(l: LedgerView, paths: Seq<Seq<char>>)
    ensures
        all_unobserved(l, paths).dirty == l.dirty,
        all_unobserved(l, paths).pins == l.pins,
        forall|p: Seq<char>| #[trigger]
            all_unobserved(l, paths).observations.dom().contains(p) <==> l.observations.dom().contains(
                p,
            ) && !paths.contains(p),
        forall|p: Seq<char>|
            !paths.contains(p) ==> #[trigger] all_unobserved(l, paths).observations[p]
                == l.observations[p],
    decreases paths.len(),
{
    if paths.len() > 0 {
        let init = paths.drop_last();
        lemma_all_unobserved(l, init);
        let r = all_unobserved(l, paths);
        assert forall|p: Seq<char>| #[trigger] paths.contains(p) <==> init.contains(p) || p
            == paths.last() by {
            if init.contains(p) {
                let j = choose|j: int| 0 <= j < init.len() && init[j] == p;
                assert(paths[j] == p);
            }
            assert(paths[paths.len() - 1] == paths.last());
            if paths.contains(p) {
                let j = choose|j: int| 0 <= j < paths.len() && paths[j] == p;
                if j < init.len() {
                    assert(init[j] == p);
                }
            }
        }
    }
}

proof fn lemma_spares(l: LedgerView, owed: Set<Seq<char>>, paths: Seq<Seq<char>>, p: Seq<char>)
    ensures
        spares(l, owed, paths).contains(p) <==> paths.contains(p) && is_spare(l, owed, p),
    decreases paths.len(),
{
    let r = spares(l, owed, paths);
    if paths.len() > 0 {
        let init = paths.drop_last();
        let before = spares(l, owed, init);
        lemma_spares(l, owed, init, p);
        if init.contains(p) {
            let j = choose|j: int| 0 <= j < init.len() && init[j] == p;
            assert(paths[j] == p);
        }
        if paths.contains(p) {
            let j = choose|j: int| 0 <= j < paths.len() && paths[j] == p;
            if j < init.len() {
                assert(init[j] == p);
            } else if is_spare(l, owed, p) {
                assert(r[r.len() - 1] == p);
            }
        }
        if before.contains(p) {
            let j = choose|j: int| 0 <= j < before.len() && before[j] == p;
            assert(r[j] == p);
        }
        if r.contains(p) && !before.contains(p) {
            let j = choose|j: int| 0 <= j < r.len() && r[j] == p;
            if j < before.len() {
                assert(before[j] == p);
            }
            assert(paths[paths.len() - 1] == paths.last());
        }
    }
}

/// Pruning forgets the versions of exactly those files that nobody needs, and
/// never a mark or a pin.
pub proof fn law_pruning_forgets_only_what_nobody_needs(
    l: LedgerView,
    owed: Set<Seq<char>>,
    p: Seq<char>,
)
    requires
        l.observations.dom().finite(),
    ensures
        ({
            let after = all_unobserved(l, spares(l, owed, walk(l.observations)));
            &&& after.dirty == l.dirty
            &&& after.pins == l.pins
            &&& after.observations.dom().contains(p) <==> l.observations.dom().contains(p)
                && !is_spare(l, owed, p)
            &&& after.observations.dom().contains(p) ==> after.observations[p] == l.observations[p]
        }),
{
    let keys = walk(l.observations);
    let gone = spares(l, owed, keys);
    lemma_walk_of_finite(l.observations.dom());
    lemma_all_unobserved(l, gone);
    lemma_spares(l, owed, keys, p);
    assert(keys.contains(p) <==> keys.to_set().contains(p));
}

/// What becomes of an entry of the cache.
#[derive(Clone, Copy, Debug, PartialEq, Eq, Structural)]
pub enum Pruning {
    Keep,
    Descend,
    Remove,
}

/// An entry of the cache is `k` or lies below it. All lies below the root.
pub open spec fn is_kept_by(path: Seq<char>, k: Seq<char>) -> bool {
    k.len() == 0 || within(path, k)
}

/// What becomes of an entry of the cache: what is to be kept stays, with all that
/// lies below it; a directory that leads to it is looked into; all else goes.
pub open spec fn pruned(path: Seq<char>, is_dir: bool, keep: Seq<Seq<char>>) -> Pruning {
    if exists|i: int| 0 <= i < keep.len() && is_kept_by(path, #[trigger] keep[i]) {
        Pruning::Keep
    } else if is_dir && exists|i: int| 0 <= i < keep.len() && within(#[trigger] keep[i], path) {
        Pruning::Descend
    } else {
        Pruning::Remove
    }
}

/// What becomes of an entry of the cache. See `pruned`.
pub fn prune_entry(path: &RelPath, is_dir: bool, keep: &[RelPath]) -> (r: Pruning)
    ensures
        r == pruned(path@, is_dir, paths_view(keep@)),
{
    let ghost kv = paths_view(keep@);
    let mut leads = false;
    let mut i: usize = 0;
    while i < keep.len()
        invariant
            i <= keep@.len(),
            kv == paths_view(keep@),
            forall|j: int| #![trigger kv[j]] 0 <= j < i ==> !is_kept_by(path@, kv[j]),
            leads == exists|j: int| 0 <= j < i && within(#[trigger] kv[j], path@),
        decreases keep@.len() - i,
    {
        proof {
            assert(kv[i as int] == keep@[i as int]@);
        }
        if keep[i].is_root() || path.is_within(&keep[i]) {
            return Pruning::Keep;
        }
        if keep[i].is_within(path) {
            leads = true;
        }
        i += 1;
    }
    if is_dir && leads {
        Pruning::Descend
    } else {
        Pruning::Remove
    }
}

/// Pruning never removes a file that is to be kept, nor a directory above it, nor
/// what lies below it.
pub proof fn law_pruning_spares_what_is_kept(
    path: Seq<char>,
    is_dir: bool,
    keep: Seq<Seq<char>>,
    k: Seq<char>,
)
    requires
        keep.contains(k),
        within(path, k) || k.len() == 0 || (is_dir && within(k, path)),
    ensures
        pruned(path, is_dir, keep) != Pruning::Remove,
        within(path, k) ==> pruned(path, is_dir, keep) == Pruning::Keep,
{
    let i = choose|i: int| 0 <= i < keep.len() && keep[i] == k;
    if within(path, k) || k.len() == 0 {
        assert(is_kept_by(path, keep[i]));
    } else {
        assert(within(keep[i], path));
    }
}

/// The name under which a cache is put aside whose ledger cannot be read.
pub fn aside_name(name: &str, stamp: u64) -> (r: String)
    ensures
        r@ == name@ + ".unreadable-"@ + decimal_of(stamp as nat),
{
    let mut out = name.to_owned();
    out.append(".unreadable-");
    let digits = decimal(stamp);
    out.append(digits.as_str());
    out
}

/// The local copy of a file is needed where it holds edits, where it is to be
/// uploaded, and where it or a directory above it is pinned; else nobody needs it.
pub proof fn law_what_a_copy_is_needed_for(
    l: LedgerView,
    owed: Set<Seq<char>>,
    p: Seq<char>,
    pin: Seq<char>,
)
    ensures
        l.dirty.contains(p) || owed.contains(p) ==> !is_spare(l, owed, p),
        l.pins.contains(pin) && (p == pin || crate::path::below(p, pin)) ==> !is_spare(l, owed, p),
        !is_spare(l, owed, p) ==> l.dirty.contains(p) || owed.contains(p) || exists|d: Seq<char>| #[trigger]
            l.pins.contains(d) && (p == d || crate::path::below(p, d)),
{
}

/// What is neither to be kept, nor lies below what is, nor leads to it, is removed
/// from the cache; and a directory that only leads to it is looked into.
pub proof fn law_pruning_removes_the_rest(path: Seq<char>, is_dir: bool, keep: Seq<Seq<char>>)
    ensures
        pruned(path, is_dir, keep) == Pruning::Keep <==> exists|i: int|
            0 <= i < keep.len() && ((#[trigger] keep[i]).len() == 0 || path == keep[i]
                || crate::path::below(path, keep[i])),
        pruned(path, is_dir, keep) == Pruning::Descend ==> is_dir && exists|i: int|
            0 <= i < keep.len() && crate::path::below(#[trigger] keep[i], path),
        pruned(path, is_dir, keep) == Pruning::Remove ==> forall|i: int|
            0 <= i < keep.len() ==> path != (#[trigger] keep[i]) && !crate::path::below(path, keep[i])
                && (is_dir ==> !crate::path::below(keep[i], path)),
{
    if exists|i: int|
        0 <= i < keep.len() && ((#[trigger] keep[i]).len() == 0 || path == keep[i] || crate::path::below(
            path,
            keep[i],
        )) {
        let i = choose|i: int|
            0 <= i < keep.len() && ((#[trigger] keep[i]).len() == 0 || path == keep[i]
                || crate::path::below(path, keep[i]));
        assert(is_kept_by(path, keep[i]));
    }
    if pruned(path, is_dir, keep) == Pruning::Descend {
        let i = choose|i: int| 0 <= i < keep.len() && within(#[trigger] keep[i], path);
        assert(!is_kept_by(path, keep[i]));
        assert(crate::path::below(keep[i], path));
    }
    if pruned(path, is_dir, keep) == Pruning::Remove {
        assert forall|i: int| 0 <= i < keep.len() implies path != (#[trigger] keep[i])
            && !crate::path::below(path, keep[i]) && (is_dir ==> !crate::path::below(keep[i], path)) by {
            assert(!is_kept_by(path, keep[i]));
            if is_dir {
                assert(!within(keep[i], path));
            }
        }
    }
}

proof fn lemma_missing(paths: Seq<Seq<char>>, here: Set<Seq<char>>, p: Seq<char>)
    ensures
        missing_from(paths, here).contains(p) <==> paths.contains(p) && !here.contains(p),
    decreases paths.len(),
{
    if paths.len() > 0 {
        let init = paths.drop_last();
        let before = missing_from(init, here);
        let after = before.push(paths.last());
        lemma_missing(init, here, p);
        assert(paths[paths.len() - 1] == paths.last());
        assert(after[before.len() as int] == paths.last());
        if init.contains(p) {
            let j = choose|j: int| 0 <= j < init.len() && init[j] == p;
            assert(paths[j] == p);
        }
        if paths.contains(p) {
            let j = choose|j: int| 0 <= j < paths.len() && paths[j] == p;
            if j < init.len() {
                assert(init[j] == p);
            }
        }
        if before.contains(p) {
            let j = choose|j: int| 0 <= j < before.len() && before[j] == p;
            assert(after[j] == p);
        }
        if after.contains(p) {
            let j = choose|j: int| 0 <= j < after.len() && after[j] == p;
            if j < before.len() {
                assert(before[j] == p);
            }
        }
    }
}

proof fn lemma_all_unmarked(l: LedgerView, paths: Seq<Seq<char>>, p: Seq<char>)
    ensures
        all_unmarked(l, paths).dirty.contains(p) <==> l.dirty.contains(p) && !paths.contains(p),
        all_unmarked(l, paths).observations == l.observations,
        all_unmarked(l, paths).pins == l.pins,
    decreases paths.len(),
{
    if paths.len() > 0 {
        let init = paths.drop_last();
        lemma_all_unmarked(l, init, p);
        assert(paths[paths.len() - 1] == paths.last());
        if init.contains(p) {
            let j = choose|j: int| 0 <= j < init.len() && init[j] == p;
            assert(paths[j] == p);
        }
        if paths.contains(p) {
            let j = choose|j: int| 0 <= j < paths.len() && paths[j] == p;
            if j < init.len() {
                assert(init[j] == p);
            }
        }
    }
}

/// A client that keeps nothing but edits keeps those whose file is here, with what is
/// known of that file, and forgets what is known of all others; pins stay.
pub proof fn law_only_edits_that_are_here_are_kept(l: LedgerView, here: Set<Seq<char>>, p: Seq<char>)
    requires
        l.dirty.finite(),
        l.observations.dom().finite(),
    ensures
        ({
            let after = only_edits(l, here);
            &&& after.dirty.contains(p) <==> l.dirty.contains(p) && here.contains(p)
            &&& after.observations.dom().contains(p) <==> l.observations.dom().contains(p)
                && l.dirty.contains(p) && here.contains(p)
            &&& after.observations.dom().contains(p) ==> after.observations[p] == l.observations[p]
            &&& after.pins == l.pins
        }),
{
    let lost = missing_from(in_order(l.dirty), here);
    let left = all_unmarked(l, lost);
    lemma_walk_of_finite(l.dirty);
    lemma_walk_of_finite(l.observations.dom());
    lemma_missing(in_order(l.dirty), here, p);
    lemma_all_unmarked(l, lost, p);
    let keys = walk(left.observations);
    let gone = missing_from(keys, left.dirty);
    lemma_missing(keys, left.dirty, p);
    lemma_all_unobserved(left, gone);
    assert(in_order(l.dirty).contains(p) <==> in_order(l.dirty).to_set().contains(p));
    assert(keys.contains(p) <==> keys.to_set().contains(p));
}

} // verus!
