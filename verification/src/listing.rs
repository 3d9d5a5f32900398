//! The listings of directories that are kept for a while, and what is told of
//! single files on the strength of them.
use crate::model::{Meta, Moment, Observation};
use crate::path::RelPath;
use crate::sdk::{Error, FileInfo, FileType};
use crate::state::Tick;
use crate::table::PathMap;
use crate::text::same;
use crate::view::{listing_view, shown, InfoView};
use vstd::prelude::*;

verus! {

/// How long a listing is good.
pub const META_TTL: Tick = 5_000_000_000;

/// How long a listing is good where a program asks for it all the time.
pub const BRIEF_TTL: Tick = 2_000_000_000;

/// The listings that are kept, each with the time when it was made.
pub struct CacheTree {
    pub meta: PathMap<(Tick, Vec<FileInfo>)>,
}

/// A listing that is kept, by its characters.
pub open spec fn kept_view(k: (Tick, Vec<FileInfo>)) -> (Tick, Seq<InfoView>) {
    (k.0, listing_view(k.1@))
}

impl View for CacheTree {
    type V = Map<Seq<char>, (Tick, Seq<InfoView>)>;

    open spec fn view(&self) -> Map<Seq<char>, (Tick, Seq<InfoView>)> {
        self.meta@.map_values(|k: (Tick, Vec<FileInfo>)| kept_view(k))
    }
}

/// The listing without the entries of a name.
pub open spec fn without_name(listing: Seq<InfoView>, name: Seq<char>) -> Seq<InfoView>
    decreases listing.len(),
{
    if listing.len() == 0 {
        Seq::empty()
    } else {
        let before = without_name(listing.drop_last(), name);
        if listing.last().name == name {
            before
        } else {
            before.push(listing.last())
        }
    }
}

/// How long ago something was.
pub open spec fn elapsed(at: Tick, now: Tick) -> Tick {
    if at <= now {
        (now - at) as Tick
    } else {
        0
    }
}

/// The listing of a directory that is still good.
pub open spec fn fresh_listing(
    meta: Map<Seq<char>, (Tick, Seq<InfoView>)>,
    dir: Seq<char>,
    now: Tick,
    ttl: Tick,
) -> Option<Seq<InfoView>> {
    if meta.dom().contains(dir) && elapsed(meta[dir].0, now) < ttl {
        Some(meta[dir].1)
    } else {
        None
    }
}

/// A listing by its characters, or an error.
pub open spec fn answer_view(r: Result<Vec<FileInfo>, Error>) -> Result<Seq<InfoView>, Error> {
    match r {
        Ok(l) => Ok(listing_view(l@)),
        Err(e) => Err(e),
    }
}

/// The server has said no, and not merely nothing.
pub open spec fn is_refusal(e: Error) -> bool {
    e is NotFound || e is PermissionDenied
}

/// The listings that are kept after the server has answered.
pub open spec fn kept_after(
    meta: Map<Seq<char>, (Tick, Seq<InfoView>)>,
    dir: Seq<char>,
    answer: Result<Seq<InfoView>, Error>,
    now: Tick,
) -> Map<Seq<char>, (Tick, Seq<InfoView>)> {
    match answer {
        Ok(l) => meta.insert(dir, (now, l)),
        Err(_) => meta,
    }
}

/// The listing after the server has answered. With `lenient`, an old one is as
/// good as none where the server cannot be reached.
pub open spec fn listing_after(
    meta: Map<Seq<char>, (Tick, Seq<InfoView>)>,
    dir: Seq<char>,
    answer: Result<Seq<InfoView>, Error>,
    lenient: bool,
) -> Result<Seq<InfoView>, Error> {
    match answer {
        Ok(l) => Ok(l),
        Err(e) => if lenient && !is_refusal(e) && meta.dom().contains(dir) {
            Ok(meta[dir].1)
        } else {
            Err(e)
        },
    }
}

fn copy_listing(v: &Vec<FileInfo>) -> (r: Vec<FileInfo>)
    ensures
        listing_view(r@) == listing_view(v@),
{
    let mut out: Vec<FileInfo> = Vec::new();
    let mut i: usize = 0;
    while i < v.len()
        invariant
            i <= v@.len(),
            out@.len() == i,
            forall|j: int| #![trigger out@[j]] 0 <= j < i ==> out@[j]@ == v@[j]@,
        decreases v@.len() - i,
    {
        out.push(v[i].clone());
        i += 1;
    }
    proof {
        assert(listing_view(out@) =~= listing_view(v@));
    }
    out
}

impl CacheTree {
    /// No listing.
    pub fn new() -> (r: CacheTree)
        ensures
            r@ == Map::<Seq<char>, (Tick, Seq<InfoView>)>::empty(),
    {
        let r = CacheTree { meta: PathMap::new() };
        proof {
            assert(r@ =~= Map::empty());
        }
        r
    }

    /// Keeps a listing.
    pub fn keep(&mut self, dir: &RelPath, listing: Vec<FileInfo>, now: Tick)
        ensures
            final(self)@ == old(self)@.insert(dir@, (now, listing_view(listing@))),
    {
        let ghost before = self@;
        self.meta.insert(dir.clone(), (now, listing));
        proof {
            assert(self@ =~= before.insert(dir@, (now, listing_view(listing@))));
        }
    }

    /// Throws the listing of a directory away.
    pub fn invalidate(&mut self, dir: &RelPath)
        ensures
            final(self)@ == old(self)@.remove(dir@),
    {
        let ghost before = self@;
        let _ = self.meta.remove(dir);
        proof {
            assert(self@ =~= before.remove(dir@));
        }
    }

    /// Throws all listings away.
    pub fn clear(&mut self)
        ensures
            final(self)@ == Map::<Seq<char>, (Tick, Seq<InfoView>)>::empty(),
    {
        self.meta = PathMap::new();
        proof {
            assert(self@ =~= Map::empty());
        }
    }

    /// Takes a name out of the listing of a directory.
    pub fn drop(&mut self, dir: &RelPath, name: &str)
        ensures
            final(self)@ == if old(self)@.dom().contains(dir@) {
                old(self)@.insert(
                    dir@,
                    (old(self)@[dir@].0, without_name(old(self)@[dir@].1, name@)),
                )
            } else {
                old(self)@
            },
    {
        let ghost before = self@;
        match self.meta.remove(dir) {
            Some((at, listing)) => {
                let ghost lv = listing_view(listing@);
                let mut out: Vec<FileInfo> = Vec::new();
                let mut i: usize = 0;
                proof {
                    assert(listing_view(out@) =~= Seq::empty());
                }
                while i < listing.len()
                    invariant
                        i <= listing@.len(),
                        lv == listing_view(listing@),
                        listing_view(out@) == without_name(lv.take(i as int), name@),
                    decreases listing@.len() - i,
                {
                    let ghost so_far = listing_view(out@);
                    proof {
                        let now = lv.take(i + 1);
                        assert(now.drop_last() =~= lv.take(i as int));
                        assert(now.last() == listing@[i as int]@);
                    }
                    if !same(listing[i].name.as_str(), name) {
                        out.push(listing[i].clone());
                        proof {
                            assert(listing_view(out@) =~= so_far.push(listing@[i as int]@));
                        }
                    }
                    i += 1;
                }
                proof {
                    assert(lv.take(i as int) =~= lv);
                }
                self.meta.insert(dir.clone(), (at, out));
                proof {
                    assert(self@ =~= before.insert(
                        dir@,
                        (before[dir@].0, without_name(before[dir@].1, name@)),
                    ));
                }
            },
            None => {
                proof {
                    assert(self@ =~= before);
                }
            },
        }
    }

    /// The listing of a directory that is still good.
    pub fn cached_listing(&self, dir: &RelPath, now: Tick, ttl: Tick) -> (r: Option<Vec<FileInfo>>)
        ensures
            match r {
                Some(l) => fresh_listing(self@, dir@, now, ttl) == Some(listing_view(l@)),
                None => fresh_listing(self@, dir@, now, ttl) is None,
            },
    {
        match self.meta.get(dir) {
            Some(k) => {
                let age: Tick = if k.0 <= now {
                    now - k.0
                } else {
                    0
                };
                if age < ttl {
                    Some(copy_listing(&k.1))
                } else {
                    None
                }
            },
            None => None,
        }
    }

    /// Takes in what the server has answered, and says what is listed. See
    /// `listing_after`.
    pub fn ls(
        &mut self,
        dir: &RelPath,
        answer: Result<Vec<FileInfo>, Error>,
        now: Tick,
        lenient: bool,
    ) -> (r: Result<Vec<FileInfo>, Error>)
        ensures
            final(self)@ == kept_after(old(self)@, dir@, answer_view(answer), now),
            answer_view(r) == listing_after(old(self)@, dir@, answer_view(answer), lenient),
    {
        match answer {
            Ok(fetched) => {
                let shown = copy_listing(&fetched);
                self.keep(dir, fetched, now);
                Ok(shown)
            },
            Err(e) => {
                let refused = match e {
                    Error::NotFound => true,
                    Error::PermissionDenied => true,
                    _ => false,
                };
                if lenient && !refused {
                    match self.meta.get(dir) {
                        Some(k) => {
                            return Ok(copy_listing(&k.1));
                        },
                        None => {},
                    }
                }
                Err(e)
            },
        }
    }
}

/// The first entry of a name.
pub open spec fn entry_of(listing: Seq<InfoView>, name: Seq<char>) -> Option<InfoView>
    decreases listing.len(),
{
    if listing.len() == 0 {
        None
    } else if listing[0].name == name {
        Some(listing[0])
    } else {
        entry_of(listing.skip(1), name)
    }
}

/// The first entry of a name.
pub fn entry<'a>(listing: &'a [FileInfo], name: &str) -> (r: Option<&'a FileInfo>)
    ensures
        match r {
            Some(e) => entry_of(listing_view(listing@), name@) == Some(e@),
            None => entry_of(listing_view(listing@), name@) is None,
        },
{
    let ghost lv = listing_view(listing@);
    let mut i: usize = 0;
    proof {
        assert(lv.skip(0) =~= lv);
    }
    while i < listing.len()
        invariant
            i <= listing@.len(),
            lv == listing_view(listing@),
            entry_of(lv, name@) == entry_of(lv.skip(i as int), name@),
        decreases listing@.len() - i,
    {
        proof {
            assert(lv.skip(i as int)[0] == listing@[i as int]@);
            assert(lv.skip(i as int).skip(1) =~= lv.skip(i + 1));
        }
        if same(listing[i].name.as_str(), name) {
            return Some(&listing[i]);
        }
        i += 1;
    }
    None
}

/// What is told of a path: whether it is a directory, its size and its time.
pub open spec fn attr_of(
    path: Seq<char>,
    dirty: Option<Meta>,
    entry: Option<InfoView>,
) -> Option<(bool, u64, Moment)> {
    let epoch = Moment { secs: 0, nanos: 0 };
    if path.len() == 0 {
        Some((true, 0, epoch))
    } else {
        match (dirty, entry) {
            (Some(md), _) => Some(
                (
                    false,
                    md.size,
                    match md.mtime {
                        Some(t) => t,
                        None => epoch,
                    },
                ),
            ),
            (None, Some(e)) => Some(
                (
                    e.kind == FileType::Directory,
                    match e.size {
                        Some(n) => n,
                        None => 0,
                    },
                    match e.mtime {
                        Some(t) => t,
                        None => epoch,
                    },
                ),
            ),
            (None, None) => None,
        }
    }
}

/// What is told of a path. `dirty` says how the local file is if it holds edits,
/// `entry` what is listed.
pub fn attr(path: &RelPath, dirty: Option<Meta>, entry: Option<&FileInfo>) -> (r: Option<
    (bool, u64, Moment),
>)
    ensures
        r == attr_of(
            path@,
            dirty,
            match entry {
                Some(e) => Some(e@),
                None => None,
            },
        ),
{
    let epoch = Moment { secs: 0, nanos: 0 };
    if path.is_root() {
        return Some((true, 0, epoch));
    }
    match dirty {
        Some(md) => Some(
            (
                false,
                md.size,
                match md.mtime {
                    Some(t) => t,
                    None => epoch,
                },
            ),
        ),
        None => match entry {
            Some(e) => Some(
                (
                    e.kind == FileType::Directory,
                    match e.size {
                        Some(n) => n,
                        None => 0,
                    },
                    match e.mtime {
                        Some(t) => t,
                        None => epoch,
                    },
                ),
            ),
            None => None,
        },
    }
}

/// The version that is listed, if the path is listed.
pub fn hint(entry: Option<&FileInfo>) -> (r: Option<Observation>)
    ensures
        r == match entry {
            Some(e) => Some(shown(e@)),
            None => None,
        },
{
    match entry {
        Some(e) => Some(Observation::of(e)),
        None => None,
    }
}

/// What becomes of a directory that is to be removed.
#[derive(Debug)]
pub enum Rmdir {
    Delete,
    NotEmpty,
    Failed(Error),
}

/// What removing a directory comes to, where it was listed so.
pub open spec fn rmdir_of(listing: Result<Vec<FileInfo>, Error>) -> Rmdir {
    match listing {
        Ok(l) => if l@.len() == 0 {
            Rmdir::Delete
        } else {
            Rmdir::NotEmpty
        },
        Err(Error::NotFound) => Rmdir::Delete,
        Err(e) => Rmdir::Failed(e),
    }
}

/// A directory is removed if it is empty, or if the server does not have it; one
/// that is not empty stays.
pub fn rmdir(listing: Result<Vec<FileInfo>, Error>) -> (r: Rmdir)
    ensures
        r == rmdir_of(listing),
{
    match listing {
        Ok(l) => {
            if l.len() == 0 {
                Rmdir::Delete
            } else {
                Rmdir::NotEmpty
            }
        },
        Err(Error::NotFound) => Rmdir::Delete,
        Err(e) => Rmdir::Failed(e),
    }
}

/// The attribute by which a path is pinned.
pub const PIN_XATTR: &'static str = "user.fdrive.pin";

/// What setting an attribute comes to.
#[derive(Clone, Copy, Debug, PartialEq, Eq, Structural)]
pub enum XattrSet {
    Pin,
    Unpin,
    Invalid,
    Ordinary,
}

/// The bytes of `always`.
pub open spec fn always_bytes() -> Seq<u8> {
    seq![97u8, 108u8, 119u8, 97u8, 121u8, 115u8]
}

/// The bytes of `auto`.
pub open spec fn auto_bytes() -> Seq<u8> {
    seq![97u8, 117u8, 116u8, 111u8]
}

/// What setting the attribute `name` to `value` comes to.
pub open spec fn set_of(name: Seq<char>, value: Seq<u8>) -> XattrSet {
    if name != PIN_XATTR@ {
        XattrSet::Ordinary
    } else if value == always_bytes() {
        XattrSet::Pin
    } else if value == auto_bytes() {
        XattrSet::Unpin
    } else {
        XattrSet::Invalid
    }
}

/// What setting an attribute comes to: `always` pins, `auto` unpins, and nothing
/// else can be said of a pin.
pub fn xattr_set(name: &str, value: &[u8]) -> (r: XattrSet)
    ensures
        r == set_of(name@, value@),
{
    if !same(name, PIN_XATTR) {
        return XattrSet::Ordinary;
    }
    if value.len() == 6 && value[0] == 97 && value[1] == 108 && value[2] == 119 && value[3] == 97
        && value[4] == 121 && value[5] == 115 {
        proof {
            assert(value@ =~= always_bytes());
        }
        return XattrSet::Pin;
    }
    proof {
        assert(always_bytes()[0] == 97 && always_bytes()[1] == 108 && always_bytes()[2] == 119
            && always_bytes()[3] == 97 && always_bytes()[4] == 121 && always_bytes()[5] == 115);
        assert(auto_bytes()[0] == 97 && auto_bytes()[1] == 117 && auto_bytes()[2] == 116
            && auto_bytes()[3] == 111);
    }
    if value.len() == 4 && value[0] == 97 && value[1] == 117 && value[2] == 116 && value[3] == 111 {
        proof {
            assert(value@ =~= auto_bytes());
        }
        return XattrSet::Unpin;
    }
    XattrSet::Invalid
}

/// What reading the attribute `name` comes to, where the file is pinned or not.
pub open spec fn got_of(name: Seq<char>, pinned: bool) -> Option<Option<Seq<u8>>> {
    if name != PIN_XATTR@ {
        None
    } else if pinned {
        Some(Some(always_bytes()))
    } else {
        Some(None)
    }
}

/// What reading an attribute comes to: that of a pin is `always` or nothing, any
/// other is looked up.
pub fn xattr_get(name: &str, pinned: bool) -> (r: Option<Option<Vec<u8>>>)
    ensures
        match r {
            Some(Some(b)) => got_of(name@, pinned) == Some(Some(b@)),
            Some(None) => got_of(name@, pinned) == Some(None::<Seq<u8>>),
            None => got_of(name@, pinned) is None,
        },
{
    if !same(name, PIN_XATTR) {
        return None;
    }
    if !pinned {
        return Some(None);
    }
    let mut v: Vec<u8> = Vec::new();
    v.push(97);
    v.push(108);
    v.push(119);
    v.push(97);
    v.push(121);
    v.push(115);
    proof {
        assert(v@ =~= always_bytes());
    }
    Some(Some(v))
}

/// Whether removing an attribute unpins.
pub fn xattr_remove(name: &str) -> (r: bool)
    ensures
        r == (name@ == PIN_XATTR@),
{
    same(name, PIN_XATTR)
}

/// A listing that was just fetched is served without asking again for as long as
/// it is good, and not one moment longer.
pub proof fn law_a_listing_is_served_while_it_is_good(
    meta: Map<Seq<char>, (Tick, Seq<InfoView>)>,
    dir: Seq<char>,
    listing: Seq<InfoView>,
    at: Tick,
    now: Tick,
    ttl: Tick,
)
    requires
        at <= now,
    ensures
        fresh_listing(kept_after(meta, dir, Ok(listing), at), dir, now, ttl) == if now - at < ttl {
            Some(listing)
        } else {
            None
        },
{
}

/// Where the server cannot be reached, the last listing is still shown; where it
/// says no, it is not.
pub proof fn law_an_old_listing_bridges_an_outage(
    meta: Map<Seq<char>, (Tick, Seq<InfoView>)>,
    dir: Seq<char>,
    e: Error,
)
    requires
        meta.dom().contains(dir),
    ensures
        !is_refusal(e) ==> listing_after(meta, dir, Err(e), true) == Ok::<Seq<InfoView>, Error>(
            meta[dir].1,
        ),
        is_refusal(e) ==> listing_after(meta, dir, Err(e), true) == Err::<Seq<InfoView>, Error>(e),
        kept_after(meta, dir, Err(e), 0) == meta,
{
}

/// What is told of a path is what is here if it holds edits, else what is listed:
/// the same kind, size and time. The root is a directory that is always there, and
/// a path of which nothing is known is not.
pub proof fn law_attributes_are_those_of_the_entry(
    path: Seq<char>,
    dirty: Option<Meta>,
    entry: Option<InfoView>,
)
    ensures
        attr_of(path, dirty, entry) is None <==> path.len() > 0 && dirty is None && entry is None,
        attr_of(path, dirty, entry) matches Some((is_dir, size, mtime)) ==> {
            &&& is_dir <==> path.len() == 0 || (dirty is None && entry is Some && entry->0.kind
                == FileType::Directory)
            &&& path.len() > 0 && dirty is Some ==> size == dirty->0.size
            &&& path.len() > 0 && dirty is Some && dirty->0.mtime is Some ==> mtime
                == dirty->0.mtime->0
            &&& path.len() > 0 && dirty is None && entry->0.size is Some ==> size
                == entry->0.size->0
            &&& path.len() > 0 && dirty is None && entry->0.mtime is Some ==> mtime
                == entry->0.mtime->0
            &&& path.len() == 0 || (dirty is None && entry->0.size is None) ==> size == 0
            &&& path.len() == 0 || (dirty is Some && dirty->0.mtime is None) || (dirty is None
                && entry->0.mtime is None) ==> mtime.secs == 0 && mtime.nanos == 0
        },
{
}

/// The entry of a name is the first one with that name, and there is none exactly
/// if the name is not listed.
pub proof fn law_an_entry_has_the_name(listing: Seq<InfoView>, name: Seq<char>)
    ensures
        match entry_of(listing, name) {
            Some(e) => exists|i: int|
                0 <= i < listing.len() && #[trigger] listing[i] == e && e.name == name && forall|j: int|
                    0 <= j < i ==> (#[trigger] listing[j]).name != name,
            None => forall|i: int| 0 <= i < listing.len() ==> (#[trigger] listing[i]).name != name,
        },
    decreases listing.len(),
{
    if listing.len() > 0 && listing[0].name != name {
        let rest = listing.skip(1);
        law_an_entry_has_the_name(rest, name);
        match entry_of(listing, name) {
            Some(e) => {
                let i = choose|i: int|
                    0 <= i < rest.len() && #[trigger] rest[i] == e && e.name == name && forall|j: int|
                        0 <= j < i ==> (#[trigger] rest[j]).name != name;
                assert(listing[i + 1] == e);
                assert forall|j: int| 0 <= j < i + 1 implies (#[trigger] listing[j]).name != name by {
                    if j > 0 {
                        assert(rest[j - 1] == listing[j]);
                    }
                }
            },
            None => {
                assert forall|i: int| 0 <= i < listing.len() implies (#[trigger] listing[i]).name
                    != name by {
                    if i > 0 {
                        assert(rest[i - 1] == listing[i]);
                    }
                }
            },
        }
    } else if listing.len() > 0 {
        assert(listing[0] == entry_of(listing, name)->0);
    }
}

/// A name that has been taken out of a listing is not in it, and everything else
/// still is.
pub proof fn law_only_the_name_is_taken_out(listing: Seq<InfoView>, name: Seq<char>, e: InfoView)
    ensures
        without_name(listing, name).contains(e) <==> listing.contains(e) && e.name != name,
        without_name(listing, name).len() <= listing.len(),
    decreases listing.len(),
{
    if listing.len() > 0 {
        let front = listing.drop_last();
        let before = without_name(front, name);
        let now = without_name(listing, name);
        law_only_the_name_is_taken_out(front, name, e);
        if now.contains(e) {
            let k = choose|k: int| 0 <= k < now.len() && now[k] == e;
            if k < before.len() {
                assert(before[k] == e);
                let i = choose|i: int| 0 <= i < front.len() && front[i] == e;
                assert(listing[i] == e);
            } else {
                assert(listing[listing.len() - 1] == e);
            }
        }
        if listing.contains(e) && e.name != name {
            let i = choose|i: int| 0 <= i < listing.len() && listing[i] == e;
            if i < front.len() {
                assert(front[i] == e);
                let k = choose|k: int| 0 <= k < before.len() && before[k] == e;
                assert(now[k] == e);
            } else {
                assert(now[before.len() as int] == e);
            }
        }
    }
}

/// An answer of the server is shown and kept from then on; an error changes
/// nothing that is kept, and is told unless an old listing may stand in for it. The
/// listings of other directories stay as they are.
pub proof fn law_the_servers_listing_is_kept(
    meta: Map<Seq<char>, (Tick, Seq<InfoView>)>,
    dir: Seq<char>,
    answer: Result<Seq<InfoView>, Error>,
    now: Tick,
    lenient: bool,
    other: Seq<char>,
)
    requires
        other != dir,
    ensures
        answer matches Ok(l) ==> listing_after(meta, dir, answer, lenient) == answer && kept_after(
            meta,
            dir,
            answer,
            now,
        ).dom().contains(dir) && kept_after(meta, dir, answer, now)[dir] == (now, l),
        answer is Err ==> kept_after(meta, dir, answer, now) == meta,
        answer is Err && !lenient ==> listing_after(meta, dir, answer, lenient) == answer,
        answer is Err && !meta.dom().contains(dir) ==> listing_after(meta, dir, answer, lenient)
            == answer,
        kept_after(meta, dir, answer, now).dom().contains(other) == meta.dom().contains(other),
        meta.dom().contains(other) ==> kept_after(meta, dir, answer, now)[other] == meta[other],
{
}

/// A listing from the future, as the clock sees it, is as good as new, and a
/// directory that was never listed has none.
pub proof fn law_a_listing_has_an_age(
    meta: Map<Seq<char>, (Tick, Seq<InfoView>)>,
    dir: Seq<char>,
    now: Tick,
    ttl: Tick,
)
    ensures
        !meta.dom().contains(dir) ==> fresh_listing(meta, dir, now, ttl) is None,
        meta.dom().contains(dir) ==> {
            &&& fresh_listing(meta, dir, now, ttl) is Some <==> ttl > 0 && now < meta[dir].0
                + ttl
            &&& fresh_listing(meta, dir, now, ttl) matches Some(l) ==> l == meta[dir].1
        },
{
}

/// A directory is removed only where the server lists nothing in it or does not have
/// it; what cannot be listed is not removed, and it is told why.
pub proof fn law_only_an_empty_directory_is_removed(listing: Result<Vec<FileInfo>, Error>)
    ensures
        rmdir_of(listing) is Delete <==> match listing {
            Ok(l) => l@ == Seq::<FileInfo>::empty(),
            Err(e) => e is NotFound,
        },
        rmdir_of(listing) is NotEmpty <==> listing is Ok && listing->Ok_0@.len() > 0,
        rmdir_of(listing) matches Rmdir::Failed(e) ==> listing == Err::<Vec<FileInfo>, Error>(e),
{
    if let Ok(l) = listing {
        if l@.len() == 0 {
            assert(l@ =~= Seq::<FileInfo>::empty());
        }
    }
}

/// What is set as a pin is what is read back: `always` pins, `auto` unpins, and
/// nothing else is taken; other attributes are none of our business.
pub proof fn law_a_pin_reads_back(name: Seq<char>, value: Seq<u8>, pinned: bool)
    ensures
        name != PIN_XATTR@ ==> set_of(name, value) == XattrSet::Ordinary && got_of(name, pinned) is None,
        set_of(PIN_XATTR@, value) != XattrSet::Ordinary,
        got_of(PIN_XATTR@, true) == Some(Some(value)) <==> set_of(PIN_XATTR@, value) == XattrSet::Pin,
        got_of(PIN_XATTR@, false) == Some(None::<Seq<u8>>),
        set_of(PIN_XATTR@, value) == XattrSet::Pin <==> value == seq![97u8, 108, 119, 97, 121, 115],
        set_of(PIN_XATTR@, value) == XattrSet::Unpin <==> value == seq![97u8, 117, 116, 111],
{
    assert(seq![97u8, 108, 119, 97, 121, 115].len() == 6 && seq![97u8, 117, 116, 111].len() == 4);
}

/// Where the server says that there is no such directory, or that it may not be seen,
/// that is what is told, whatever was listed before. Only where the server says
/// nothing to the point is an old listing used, if it may be and there is one.
pub proof fn law_a_refusal_is_told(
    meta: Map<Seq<char>, (Tick, Seq<InfoView>)>,
    dir: Seq<char>,
    e: Error,
    lenient: bool,
)
    ensures
        ({
            let r = listing_after(meta, dir, Err(e), lenient);
            &&& e is NotFound || e is PermissionDenied || !lenient || !meta.dom().contains(dir) ==> r
                == Err::<Seq<InfoView>, Error>(e)
            &&& !(e is NotFound) && !(e is PermissionDenied) && lenient && meta.dom().contains(dir)
                ==> r == Ok::<Seq<InfoView>, Error>(meta[dir].1)
        }),
{
}

} // verus!
