//! What the user sees: the server's listing with all that is pending laid over
//! it.
use crate::journal::lease;
use crate::ledger::{is_local_only, observed, Ledger, LedgerView};
use crate::model::{seen_at, seen_in, Fate, Meta, Moment, Observation};
use crate::path::{base_name, child_of, dir_of, RelPath};
use crate::sdk::{FileInfo, FileType};
use crate::state::{fates_view, seen, State, StateView};
use crate::table::{in_order, walk, PathMap};
use crate::text::same;
use vstd::prelude::*;

verus! {

/// What is said of a file or a directory, by its characters.
#[verifier::ext_equal]
pub struct InfoView {
    pub name: Seq<char>,
    pub kind: FileType,
    pub size: Option<u64>,
    pub mtime: Option<Moment>,
}

impl View for FileInfo {
    type V = InfoView;

    open spec fn view(&self) -> InfoView {
        InfoView { name: self.name@, kind: self.kind, size: self.size, mtime: self.mtime }
    }
}

/// A listing by its characters.
pub open spec fn listing_view(v: Seq<FileInfo>) -> Seq<InfoView> {
    Seq::new(v.len(), |i: int| v[i]@)
}

/// The version that a listing shows.
pub open spec fn shown(e: InfoView) -> Observation {
    Observation {
        size: match e.size {
            Some(n) => n,
            None => 0,
        },
        time: crate::model::whole_secs(e.mtime),
    }
}

/// The listing shows a version of a file of which nothing is pending, and which
/// is not the one last seen: it has to be compared with the local file.
pub open spec fn is_news(
    l: LedgerView,
    fates: Map<Seq<char>, Fate<Seq<char>>>,
    dir: Seq<char>,
    e: InfoView,
) -> bool {
    let p = child_of(dir, e.name);
    &&& e.kind == FileType::File
    &&& !l.dirty.contains(p)
    &&& !fates.dom().contains(p)
    &&& lease(l.observations, p) != Some(shown(e))
}

/// No local file contradicts what the listing shows: there is none, or it is the
/// version that is listed.
pub open spec fn mirrors(metas: Map<Seq<char>, Meta>, p: Seq<char>, e: InfoView) -> bool {
    metas.dom().contains(p) ==> seen_at(metas[p]) == shown(e)
}

/// The ledger after one entry of a listing: unless a local file is another
/// version than the one that the listing shows, that version has been seen.
pub open spec fn listed_one(
    l: LedgerView,
    fates: Map<Seq<char>, Fate<Seq<char>>>,
    dir: Seq<char>,
    e: InfoView,
    metas: Map<Seq<char>, Meta>,
) -> LedgerView {
    let p = child_of(dir, e.name);
    if is_news(l, fates, dir, e) && mirrors(metas, p, e) {
        observed(l, p, shown(e))
    } else {
        l
    }
}

/// The ledger after a listing.
pub open spec fn listed_all(
    l: LedgerView,
    fates: Map<Seq<char>, Fate<Seq<char>>>,
    dir: Seq<char>,
    entries: Seq<InfoView>,
    metas: Map<Seq<char>, Meta>,
) -> LedgerView
    decreases entries.len(),
{
    if entries.len() == 0 {
        l
    } else {
        listed_one(
            listed_all(l, fates, dir, entries.drop_last(), metas),
            fates,
            dir,
            entries.last(),
            metas,
        )
    }
}

/// The listing without what is gone.
pub open spec fn still_there(
    fates: Map<Seq<char>, Fate<Seq<char>>>,
    dir: Seq<char>,
    listing: Seq<InfoView>,
) -> Seq<InfoView>
    decreases listing.len(),
{
    if listing.len() == 0 {
        Seq::empty()
    } else {
        let before = still_there(fates, dir, listing.drop_last());
        let p = child_of(dir, listing.last().name);
        if fates.dom().contains(p) && fates[p] is Gone {
            before
        } else {
            before.push(listing.last())
        }
    }
}

/// A name stands in the listing.
pub open spec fn is_listed(listing: Seq<InfoView>, name: Seq<char>) -> bool {
    exists|i: int| 0 <= i < listing.len() && (#[trigger] listing[i]).name == name
}

/// The listing with a file, unless its name is there already.
pub open spec fn with_file(
    listing: Seq<InfoView>,
    name: Seq<char>,
    size: u64,
    mtime: Option<Moment>,
) -> Seq<InfoView> {
    if is_listed(listing, name) {
        listing
    } else {
        listing.push(InfoView { name, kind: FileType::File, size: Some(size), mtime })
    }
}

/// The listing with the files that arrive in the directory: each as it is here,
/// else as it was where it comes from.
pub open spec fn with_arrivals(
    listing: Seq<InfoView>,
    paths: Seq<Seq<char>>,
    fates: Map<Seq<char>, Fate<Seq<char>>>,
    dir: Seq<char>,
    metas: Map<Seq<char>, Meta>,
) -> Seq<InfoView>
    decreases paths.len(),
{
    if paths.len() == 0 {
        listing
    } else {
        let before = with_arrivals(listing, paths.drop_last(), fates, dir, metas);
        let p = paths.last();
        match fates[p] {
            Fate::Arrived { from, was } => if dir_of(p) != dir {
                before
            } else if metas.dom().contains(p) {
                with_file(before, base_name(p), metas[p].size, metas[p].mtime)
            } else {
                with_file(
                    before,
                    base_name(p),
                    was.size,
                    Some(Moment { secs: was.time as i64, nanos: 0 }),
                )
            },
            Fate::Gone => before,
        }
    }
}

/// The listing with the files that are here only.
pub open spec fn with_local_files(
    listing: Seq<InfoView>,
    paths: Seq<Seq<char>>,
    l: LedgerView,
    dir: Seq<char>,
    metas: Map<Seq<char>, Meta>,
) -> Seq<InfoView>
    decreases paths.len(),
{
    if paths.len() == 0 {
        listing
    } else {
        let before = with_local_files(listing, paths.drop_last(), l, dir, metas);
        let p = paths.last();
        if is_local_only(l, p) && dir_of(p) == dir && metas.dom().contains(p) {
            with_file(before, base_name(p), metas[p].size, metas[p].mtime)
        } else {
            before
        }
    }
}

/// The listing of a directory as the user sees it: without what is gone, with
/// what arrives and with what is here only.
pub open spec fn overlaid(
    l: LedgerView,
    fates: Map<Seq<char>, Fate<Seq<char>>>,
    dir: Seq<char>,
    listing: Seq<InfoView>,
    metas: Map<Seq<char>, Meta>,
) -> Seq<InfoView> {
    with_local_files(
        with_arrivals(still_there(fates, dir, listing), walk(fates), fates, dir, metas),
        in_order(l.dirty),
        l,
        dir,
        metas,
    )
}

/// The times of all versions that arrive can be put on the clock.
pub open spec fn times_fit(fates: Map<Seq<char>, Fate<Seq<char>>>) -> bool {
    forall|p: Seq<char>| #[trigger]
        fates.dom().contains(p) ==> (fates[p] matches Fate::Arrived { from, was } ==> was.time
            <= i64::MAX)
}

/// Whether the times of all versions that arrive can be put on the clock.
pub fn fates_fit(fates: &PathMap<Fate>) -> (r: bool)
    ensures
        r == times_fit(fates_view(fates@)),
{
    let n: usize = fates.len();
    let ghost view = fates_view(fates@);
    proof {
        crate::table::lemma_finite(*fates);
        crate::table::lemma_walk_of_finite(fates@.dom());
    }
    let ghost keys = walk(fates@);
    let mut i: usize = 0;
    while i < n
        invariant
            i <= n,
            n == walk(fates@).len(),
            keys == walk(fates@),
            keys.to_set() == fates@.dom(),
            view == fates_view(fates@),
            forall|j: int| #![trigger keys[j]]
                0 <= j < i ==> (view[keys[j]] matches Fate::Arrived { from, was } ==> was.time
                    <= i64::MAX),
        decreases n - i,
    {
        match fates.value(i) {
            Fate::Arrived { was, .. } => {
                if was.time > i64::MAX as u64 {
                    proof {
                        let p = keys[i as int];
                        assert(view.dom().contains(p));
                        assert(view[p] is Arrived);
                    }
                    return false;
                }
            },
            Fate::Gone => {},
        }
        i += 1;
    }
    proof {
        assert forall|p: Seq<char>| #[trigger] view.dom().contains(p) implies (view[p] matches Fate::Arrived {
            from,
            was,
        } ==> was.time <= i64::MAX) by {
            assert(keys.to_set().contains(p));
            let j = choose|j: int| 0 <= j < keys.len() && keys[j] == p;
            assert(view[keys[j]] == view[p]);
        }
    }
    true
}

fn has_name(listing: &Vec<FileInfo>, name: &str) -> (r: bool)
    ensures
        r == is_listed(listing_view(listing@), name@),
{
    let ghost view = listing_view(listing@);
    let mut i: usize = 0;
    while i < listing.len()
        invariant
            i <= listing@.len(),
            view == listing_view(listing@),
            forall|j: int| #![trigger view[j]] 0 <= j < i ==> view[j].name != name@,
        decreases listing@.len() - i,
    {
        proof {
            assert(view[i as int].name == listing@[i as int].name@);
        }
        if same(listing[i].name.as_str(), name) {
            return true;
        }
        i += 1;
    }
    false
}

fn add_file(listing: &mut Vec<FileInfo>, name: &str, size: u64, mtime: Option<Moment>)
    ensures
        listing_view(final(listing)@) == with_file(
            listing_view(old(listing)@),
            name@,
            size,
            mtime,
        ),
{
    if !has_name(listing, name) {
        let ghost before = listing_view(listing@);
        listing.push(
            FileInfo { name: name.to_owned(), kind: FileType::File, size: Some(size), mtime },
        );
        proof {
            assert(listing_view(listing@) =~= before.push(
                InfoView { name: name@, kind: FileType::File, size: Some(size), mtime },
            ));
        }
    }
}

/// The listing of a directory as the user sees it. `metas` says how the local
/// files are.
pub fn overlay(
    ledger: &Ledger,
    fates: &PathMap<Fate>,
    dir: &RelPath,
    listing: Vec<FileInfo>,
    metas: &PathMap<Meta>,
) -> (r: Vec<FileInfo>)
    requires
        times_fit(fates_view(fates@)),
    ensures
        listing_view(r@) == overlaid(
            ledger@,
            fates_view(fates@),
            dir@,
            listing_view(listing@),
            metas@,
        ),
{
    let ghost fv = fates_view(fates@);
    let mut out = keep_there(fates, dir, listing);
    let ghost kept = listing_view(out@);
    let n: usize = fates.len();
    let ghost keys = walk(fates@);
    let mut i: usize = 0;
    proof {
        assert(fv.dom() =~= fates@.dom());
    }
    while i < n
        invariant
            i <= n,
            n == walk(fates@).len(),
            keys == walk(fates@),
            fv == fates_view(fates@),
            times_fit(fv),
            listing_view(out@) == with_arrivals(kept, keys.take(i as int), fv, dir@, metas@),
        decreases n - i,
    {
        proof {
            let now = keys.take(i + 1);
            assert(now.drop_last() =~= keys.take(i as int));
            assert(now.last() == keys[i as int]);
        }
        match fates.value(i) {
            Fate::Arrived { was, .. } => {
                let path = fates.key(i);
                proof {
                    assert(fv.dom().contains(path@));
                    assert(fv[path@] is Arrived);
                }
                if path.parent_or_root() == *dir {
                    match metas.get(path) {
                        Some(md) => {
                            add_file(&mut out, path.name(), md.size, md.mtime);
                        },
                        None => {
                            add_file(
                                &mut out,
                                path.name(),
                                was.size,
                                Some(Moment::from_secs(was.time)),
                            );
                        },
                    }
                }
            },
            Fate::Gone => {},
        }
        i += 1;
    }
    proof {
        assert(keys.take(i as int) =~= keys);
    }
    let ghost mid = listing_view(out@);
    let n: usize = ledger.dirty.len();
    let ghost keys = in_order(ledger.dirty@);
    let mut i: usize = 0;
    while i < n
        invariant
            i <= n,
            n == in_order(ledger.dirty@).len(),
            keys == in_order(ledger.dirty@),
            listing_view(out@) == with_local_files(mid, keys.take(i as int), ledger@, dir@, metas@),
        decreases n - i,
    {
        let path = ledger.dirty.key(i);
        proof {
            let now = keys.take(i + 1);
            assert(now.drop_last() =~= keys.take(i as int));
            assert(now.last() == path@);
        }
        if ledger.local_only(path) && path.parent_or_root() == *dir {
            match metas.get(path) {
                Some(md) => {
                    add_file(&mut out, path.name(), md.size, md.mtime);
                },
                None => {},
            }
        }
        i += 1;
    }
    proof {
        assert(keys.take(i as int) =~= keys);
    }
    out
}

fn keep_there(fates: &PathMap<Fate>, dir: &RelPath, listing: Vec<FileInfo>) -> (r: Vec<FileInfo>)
    ensures
        listing_view(r@) == still_there(fates_view(fates@), dir@, listing_view(listing@)),
{
    let ghost lv = listing_view(listing@);
    let ghost fv = fates_view(fates@);
    let mut out: Vec<FileInfo> = Vec::new();
    let mut i: usize = 0;
    proof {
        assert(listing_view(out@) =~= Seq::empty());
    }
    while i < listing.len()
        invariant
            i <= listing@.len(),
            lv == listing_view(listing@),
            fv == fates_view(fates@),
            listing_view(out@) == still_there(fv, dir@, lv.take(i as int)),
        decreases listing@.len() - i,
    {
        let ghost before = listing_view(out@);
        proof {
            let now = lv.take(i + 1);
            assert(now.drop_last() =~= lv.take(i as int));
            assert(now.last() == listing@[i as int]@);
        }
        let path = dir.join(listing[i].name.as_str());
        let gone = match fates.get(&path) {
            Some(Fate::Gone) => true,
            _ => false,
        };
        if !gone {
            out.push(listing[i].clone());
            proof {
                assert(listing_view(out@) =~= before.push(listing@[i as int]@));
            }
        }
        i += 1;
    }
    proof {
        assert(lv.take(i as int) =~= lv);
    }
    out
}

impl State {
    fn is_to_compare(&self, fates: &PathMap<Fate>, dir: &RelPath, e: &FileInfo) -> (r: bool)
        ensures
            r == is_news(self@.ledger, fates_view(fates@), dir@, e@),
    {
        let path = dir.join(e.name.as_str());
        let obs = Observation::of(e);
        let known = match self.ledger.observations.get(&path) {
            Some(o) => *o == obs,
            None => false,
        };
        e.kind == FileType::File && !self.ledger.dirty.contains(&path) && !fates.contains_key(&path)
            && !known
    }

    /// The files of a listing that have to be compared with the local ones.
    pub fn to_compare(&self, dir: &RelPath, entries: &[FileInfo]) -> (r: Vec<RelPath>)
        ensures
            crate::model::paths_view(r@) == news_in(
                self@.ledger,
                seen(self@).fates,
                dir@,
                listing_view(entries@),
            ),
    {
        let outlook = self.outlook();
        let ghost ev = listing_view(entries@);
        let mut out: Vec<RelPath> = Vec::new();
        let mut i: usize = 0;
        proof {
            assert(crate::model::paths_view(out@) =~= Seq::empty());
        }
        while i < entries.len()
            invariant
                i <= entries@.len(),
                ev == listing_view(entries@),
                outlook@ == seen(self@),
                crate::model::paths_view(out@) == news_in(
                    self@.ledger,
                    seen(self@).fates,
                    dir@,
                    ev.take(i as int),
                ),
            decreases entries@.len() - i,
        {
            let ghost before = crate::model::paths_view(out@);
            proof {
                let now = ev.take(i + 1);
                assert(now.drop_last() =~= ev.take(i as int));
                assert(now.last() == entries@[i as int]@);
            }
            if self.is_to_compare(&outlook.fates, dir, &entries[i]) {
                let path = dir.join(entries[i].name.as_str());
                out.push(path);
                proof {
                    assert(crate::model::paths_view(out@) =~= before.push(path@));
                }
            }
            i += 1;
        }
        proof {
            assert(ev.take(i as int) =~= ev);
        }
        out
    }

    /// Takes in a listing of the server. `metas` says how the local files are;
    /// what it does not hold is not here.
    pub fn listed(&mut self, dir: &RelPath, entries: &[FileInfo], metas: &PathMap<Meta>)
        ensures
            final(self)@ == (StateView {
                ledger: listed_all(
                    old(self)@.ledger,
                    seen(old(self)@).fates,
                    dir@,
                    listing_view(entries@),
                    metas@,
                ),
                ..old(self)@
            }),
    {
        let ghost before = self@;
        let outlook = self.outlook();
        let ghost ev = listing_view(entries@);
        let mut i: usize = 0;
        while i < entries.len()
            invariant
                i <= entries@.len(),
                ev == listing_view(entries@),
                outlook@ == seen(before),
                self@ == (StateView {
                    ledger: listed_all(
                        before.ledger,
                        seen(before).fates,
                        dir@,
                        ev.take(i as int),
                        metas@,
                    ),
                    ..before
                }),
            decreases entries@.len() - i,
        {
            proof {
                let now = ev.take(i + 1);
                assert(now.drop_last() =~= ev.take(i as int));
                assert(now.last() == entries@[i as int]@);
            }
            if self.is_to_compare(&outlook.fates, dir, &entries[i]) {
                let path = dir.join(entries[i].name.as_str());
                let obs = Observation::of(&entries[i]);
                let mirrored = match metas.get(&path) {
                    Some(md) => Observation::of_local(md) == obs,
                    None => true,
                };
                if mirrored {
                    self.ledger.observe(&path, obs);
                }
            }
            i += 1;
        }
        proof {
            assert(ev.take(i as int) =~= ev);
        }
    }

    /// Where the server has the file that is to be at a path, if it is to come
    /// from elsewhere.
    pub fn upstream_of(&self, path: &RelPath) -> (r: Option<RelPath>)
        ensures
            crate::model::opt_view(r) == upstream(seen(self@).fates, path@),
    {
        let outlook = self.outlook();
        match outlook.fates.get(path) {
            Some(Fate::Arrived { from, .. }) => Some(from.clone()),
            _ => None,
        }
    }

    /// The version of a file that the server was last seen to have.
    pub fn observed(&self, path: &RelPath) -> (r: Option<Observation>)
        ensures
            r == lease(self@.ledger.observations, path@),
    {
        match self.ledger.observations.get(path) {
            Some(o) => Some(*o),
            None => None,
        }
    }

    /// Whether a file holds edits.
    pub fn is_dirty(&self, path: &RelPath) -> (r: bool)
        ensures
            r == self@.ledger.dirty.contains(path@),
    {
        self.ledger.dirty.contains(path)
    }

    /// Whether nothing is known of a file, neither from the server nor from here.
    pub fn needs_baseline(&self, path: &RelPath) -> (r: bool)
        ensures
            r == is_unknown(self@.ledger, path@),
    {
        !self.ledger.observations.contains_key(path) && !self.ledger.dirty.contains(path)
    }

    /// Takes note of what the server has at a path that is about to be
    /// overwritten, if nothing is known of it.
    pub fn overwriting(&mut self, path: &RelPath, info: Option<&FileInfo>)
        ensures
            final(self)@ == overwritten(
                old(self)@,
                path@,
                match info {
                    Some(info) => Some(seen_in(*info)),
                    None => None,
                },
            ),
    {
        if self.needs_baseline(path) {
            match info {
                Some(info) => {
                    self.ledger.observe(path, Observation::of(info));
                },
                None => {},
            }
        }
    }

    /// Whether the local content of a file can be used: it holds edits, or it is
    /// there and the server still has the version that was last seen.
    pub fn content_current(&self, path: &RelPath, current: Observation, is_file: bool) -> (r: bool)
        ensures
            r == is_current(self@.ledger, path@, current, is_file),
    {
        let known = match self.ledger.observations.get(path) {
            Some(o) => *o == current,
            None => false,
        };
        self.ledger.dirty.contains(path) || (known && is_file)
    }
}

/// The files of a listing that have to be compared with the local ones.
pub open spec fn news_in(
    l: LedgerView,
    fates: Map<Seq<char>, Fate<Seq<char>>>,
    dir: Seq<char>,
    entries: Seq<InfoView>,
) -> Seq<Seq<char>>
    decreases entries.len(),
{
    if entries.len() == 0 {
        Seq::empty()
    } else {
        let before = news_in(l, fates, dir, entries.drop_last());
        if is_news(l, fates, dir, entries.last()) {
            before.push(child_of(dir, entries.last().name))
        } else {
            before
        }
    }
}

/// Where the server has the file that is to be at a path.
pub open spec fn upstream(
    fates: Map<Seq<char>, Fate<Seq<char>>>,
    p: Seq<char>,
) -> Option<Seq<char>> {
    if fates.dom().contains(p) && fates[p] is Arrived {
        Some(fates[p]->from)
    } else {
        None
    }
}

/// Nothing is known of a file.
pub open spec fn is_unknown(l: LedgerView, p: Seq<char>) -> bool {
    !l.observations.dom().contains(p) && !l.dirty.contains(p)
}

/// The state before a path is overwritten of which the server may have a version.
pub open spec fn overwritten(s: StateView, p: Seq<char>, there: Option<Observation>) -> StateView {
    if is_unknown(s.ledger, p) && there is Some {
        StateView { ledger: observed(s.ledger, p, there->0), ..s }
    } else {
        s
    }
}

/// The local content of a file can be used.
pub open spec fn is_current(
    l: LedgerView,
    p: Seq<char>,
    current: Observation,
    is_file: bool,
) -> bool {
    l.dirty.contains(p) || (lease(l.observations, p) == Some(current) && is_file)
}

} // verus!
