//! Files that may be here in name only: what each of them is, and what becomes of
//! it when the server, the user or somebody else does something.
use crate::journal::lease;
use crate::ledger::{forgotten, unobserved, Ledger, LedgerView};
use crate::model::{seen_at, seen_in, Meta, Moment, Observation, Operation};
use crate::path::{child_of, dir_of, RelPath};
use crate::replay::{is_covered, is_frozen};
use crate::sdk::{Error, FileInfo, FileType};
use crate::state::{is_sound, recorded, State, Tick, HORIZON};
use crate::table::{PathMap, PathSet};
use crate::text::same;
use crate::view::{listing_view, InfoView};
use vstd::prelude::*;

verus! {

/// What the user wants of a file: it is always here, it is never here, or nothing
/// is said.
#[derive(Clone, Copy, Debug, PartialEq, Eq, Structural)]
pub enum Pin {
    Pinned,
    Unpinned,
    Unspecified,
}

/// What a file is: here in name only, here and as on the server, here with edits,
/// new, or put here by somebody else although the server has it.
#[derive(Clone, Copy, Debug, PartialEq, Eq, Structural)]
pub enum FileState {
    Dehydrated(Pin),
    Cached(Pin),
    Edited,
    New,
    Foreign,
}

/// What the system says of a file: it stands for one of the server, it is as it
/// was there, and not all of it is here.
#[derive(Clone, Copy, Debug, PartialEq, Eq, Structural)]
pub struct PlaceholderState {
    pub placeholder: bool,
    pub in_sync: bool,
    pub partial: bool,
}

/// What the system says of a file, by its four marks.
pub fn placeholder_state(placeholder: bool, in_sync: bool, partial: bool, on_disk_in_part: bool) -> (r:
    PlaceholderState)
    ensures
        r == (PlaceholderState { placeholder, in_sync, partial: partial || on_disk_in_part }),
{
    PlaceholderState { placeholder, in_sync, partial: partial || on_disk_in_part }
}

/// A file may be deleted because it went on the server only while it still
/// stands for one there and is as it was there.
pub open spec fn deletable(ps: PlaceholderState) -> bool {
    ps.placeholder && ps.in_sync
}

/// Whether a file that went on the server may still be deleted here.
pub fn may_delete(state: PlaceholderState) -> (r: bool)
    ensures
        r == deletable(state),
{
    state.placeholder && state.in_sync
}

/// What puts a file in sync.
#[derive(Clone, Copy, Debug, PartialEq, Eq, Structural)]
pub enum Marking {
    /// It is marked so.
    Mark,
    /// It becomes a placeholder that is so.
    Convert,
}

/// What puts a file in sync.
pub open spec fn marking_of(state: PlaceholderState) -> Marking {
    if state.placeholder {
        Marking::Mark
    } else {
        Marking::Convert
    }
}

/// What puts a file in sync that may not be a placeholder yet.
pub fn mark_in_sync(state: PlaceholderState) -> (r: Marking)
    ensures
        r == marking_of(state),
{
    if state.placeholder {
        Marking::Mark
    } else {
        Marking::Convert
    }
}

/// What is wanted of a file with the two marks.
pub open spec fn wanted(pinned: bool, unpinned: bool) -> Pin {
    if pinned {
        Pin::Pinned
    } else if unpinned {
        Pin::Unpinned
    } else {
        Pin::Unspecified
    }
}

/// What the user wants of a file, by two marks of the system.
pub fn pin_of(pinned: bool, unpinned: bool) -> (r: Pin)
    ensures
        r == wanted(pinned, unpinned),
{
    if pinned {
        Pin::Pinned
    } else if unpinned {
        Pin::Unpinned
    } else {
        Pin::Unspecified
    }
}

/// What a file is.
pub open spec fn classified(
    observed: bool,
    ps: PlaceholderState,
    recall: bool,
    pin: Pin,
) -> FileState {
    if !ps.placeholder {
        if observed {
            FileState::Foreign
        } else {
            FileState::New
        }
    } else if !ps.in_sync {
        FileState::Edited
    } else if recall || ps.partial {
        FileState::Dehydrated(pin)
    } else {
        FileState::Cached(pin)
    }
}

/// What a file is. `recall` says that its content is fetched when it is read.
pub fn classify(
    ledger: &Ledger,
    path: &RelPath,
    ps: PlaceholderState,
    recall: bool,
    pin: Pin,
) -> (r: FileState)
    ensures
        r == classified(ledger@.observations.dom().contains(path@), ps, recall, pin),
{
    if !ps.placeholder {
        if ledger.observations.contains_key(path) {
            FileState::Foreign
        } else {
            FileState::New
        }
    } else if !ps.in_sync {
        FileState::Edited
    } else if recall || ps.partial {
        FileState::Dehydrated(pin)
    } else {
        FileState::Cached(pin)
    }
}

/// A file is as it is on the server.
pub open spec fn is_clean(l: LedgerView, p: Seq<char>, state: Option<FileState>) -> bool {
    !l.dirty.contains(p) && (state matches Some(s) && (s is Cached || s is Dehydrated))
}

/// Whether a file is as it is on the server. `state` is what it is, if that can be
/// told.
pub fn file_is_clean(ledger: &Ledger, path: &RelPath, state: Option<FileState>) -> (r: bool)
    ensures
        r == is_clean(ledger@, path@, state),
{
    !ledger.dirty.contains(path) && match state {
        Some(FileState::Cached(_)) => true,
        Some(FileState::Dehydrated(_)) => true,
        _ => false,
    }
}

/// A directory tree as it is found on disk: its own state, if it can be told,
/// whether it can be read, and what is in it.
pub enum Node {
    File { path: RelPath, state: Option<FileState> },
    Dir { found: Option<PlaceholderState>, readable: bool, children: Vec<Node> },
    Unknown,
}

/// All of a tree is as it is on the server. What is not here yet holds no edits.
pub open spec fn is_clean_tree(l: LedgerView, node: Node) -> bool
    decreases node,
{
    match node {
        Node::File { path, state } => is_clean(l, path@, state),
        Node::Dir { found, readable, children } => match found {
            Some(st) => st.placeholder && (st.partial || (readable && forall|i: int|
                #![trigger children@[i]]
                0 <= i < children@.len() ==> is_clean_tree(l, children@[i]))),
            None => false,
        },
        Node::Unknown => false,
    }
}

/// Whether all of a tree is as it is on the server. See `is_clean_tree`.
pub fn tree_is_clean(ledger: &Ledger, node: &Node) -> (r: bool)
    ensures
        r == is_clean_tree(ledger@, *node),
    decreases node,
{
    match node {
        Node::File { path, state } => file_is_clean(ledger, path, *state),
        Node::Dir { found, readable, children } => match found {
            Some(st) => {
                if !st.placeholder {
                    return false;
                }
                if st.partial {
                    return true;
                }
                *readable && trees_are_clean(ledger, children)
            },
            None => false,
        },
        Node::Unknown => false,
    }
}

fn trees_are_clean(ledger: &Ledger, nodes: &Vec<Node>) -> (r: bool)
    ensures
        r == forall|i: int|
            #![trigger nodes@[i]]
            0 <= i < nodes@.len() ==> is_clean_tree(ledger@, nodes@[i]),
    decreases nodes,
{
    let mut i: usize = 0;
    while i < nodes.len()
        invariant
            i <= nodes@.len(),
            forall|j: int|
                #![trigger nodes@[j]]
                0 <= j < i ==> is_clean_tree(ledger@, nodes@[j]),
        decreases nodes@.len() - i,
    {
        proof {
            assert(decreases_to!(nodes => nodes@));
            assert(decreases_to!(nodes@ => nodes@[i as int]));
        }
        if !tree_is_clean(ledger, &nodes[i]) {
            return false;
        }
        i += 1;
    }
    true
}

/// What a change on disk comes to.
#[derive(Clone, Copy, Debug, PartialEq, Eq, Structural)]
pub enum Change {
    Nothing,
    /// A directory is made on the server, and stands for that one from now on.
    Mkdir,
    /// All that lies below a directory is brought here.
    PinSubtree,
    /// A file was edited.
    Modified,
    /// A file is brought here.
    Hydrate,
    /// The content of a file is thrown away.
    Dehydrate,
}

/// What a change of a directory comes to.
pub open spec fn dir_change(state: Option<PlaceholderState>, pin: Pin) -> Change {
    match state {
        Some(st) => if !st.placeholder {
            Change::Mkdir
        } else if pin == Pin::Pinned {
            Change::PinSubtree
        } else {
            Change::Nothing
        },
        None => Change::Nothing,
    }
}

/// What a change of a directory comes to. `state` is its state, if it can be
/// told.
pub fn on_dir_change(state: Option<PlaceholderState>, pin: Pin) -> (r: Change)
    ensures
        r == dir_change(state, pin),
{
    match state {
        Some(st) => {
            if !st.placeholder {
                Change::Mkdir
            } else if pin == Pin::Pinned {
                Change::PinSubtree
            } else {
                Change::Nothing
            }
        },
        None => Change::Nothing,
    }
}

/// What a change of a file comes to.
pub open spec fn file_change(state: Option<FileState>) -> Change {
    match state {
        Some(FileState::Edited) => Change::Modified,
        Some(FileState::New) => Change::Modified,
        Some(FileState::Dehydrated(Pin::Pinned)) => Change::Hydrate,
        Some(FileState::Cached(Pin::Unpinned)) => Change::Dehydrate,
        _ => Change::Nothing,
    }
}

/// What a change of a file comes to. `state` is what it is, if that can be told.
pub fn on_change(state: Option<FileState>) -> (r: Change)
    ensures
        r == file_change(state),
{
    match state {
        Some(FileState::Edited) => Change::Modified,
        Some(FileState::New) => Change::Modified,
        Some(FileState::Dehydrated(Pin::Pinned)) => Change::Hydrate,
        Some(FileState::Cached(Pin::Unpinned)) => Change::Dehydrate,
        _ => Change::Nothing,
    }
}

/// How long a refresh of a directory keeps others from beginning.
pub const STUCK: Tick = 120_000_000_000;

/// The directories that are being refreshed, each since when.
pub struct Refreshes {
    pub since: PathMap<Tick>,
}

impl View for Refreshes {
    type V = Map<Seq<char>, Tick>;

    open spec fn view(&self) -> Map<Seq<char>, Tick> {
        self.since@
    }
}

/// A directory is being refreshed, and has not been for too long.
pub open spec fn is_refreshing(since: Map<Seq<char>, Tick>, dir: Seq<char>, now: Tick) -> bool {
    since.dom().contains(dir) && crate::listing::elapsed(since[dir], now) < STUCK
}

impl Refreshes {
    /// Nothing is being refreshed.
    pub fn new() -> (r: Refreshes)
        ensures
            r@ == Map::<Seq<char>, Tick>::empty(),
    {
        Refreshes { since: PathMap::new() }
    }

    /// Whether a refresh of a directory may begin; if so it has begun.
    pub fn begin(&mut self, dir: &RelPath, now: Tick) -> (r: bool)
        ensures
            r == !is_refreshing(old(self)@, dir@, now),
            final(self)@ == if r {
                old(self)@.insert(dir@, now)
            } else {
                old(self)@
            },
    {
        match self.since.get(dir) {
            Some(at) => {
                let age: Tick = if *at <= now {
                    now - *at
                } else {
                    0
                };
                if age < STUCK {
                    return false;
                }
            },
            None => {},
        }
        self.since.insert(dir.clone(), now);
        true
    }

    /// The refresh of a directory has ended.
    pub fn end(&mut self, dir: &RelPath)
        ensures
            final(self)@ == old(self)@.remove(dir@),
    {
        let _ = self.since.remove(dir);
    }
}

/// A directory has been listed here.
pub open spec fn was_listed(is_root: bool, state: Option<PlaceholderState>) -> bool {
    is_root || (state matches Some(st) && !(st.placeholder && st.partial))
}

/// Whether a directory has been listed here, so that it can be refreshed. The root
/// always has.
pub fn is_listed_here(is_root: bool, state: Option<PlaceholderState>) -> (r: bool)
    ensures
        r == was_listed(is_root, state),
{
    is_root || match state {
        Some(st) => !(st.placeholder && st.partial),
        None => false,
    }
}

/// A directory may have been listed here.
pub open spec fn may_be_listed(state: Option<PlaceholderState>) -> bool {
    !(state matches Some(st) && st.placeholder && st.partial)
}

/// Whether a directory is to be refreshed with the one above it: unless it is
/// known not to have been listed here.
pub fn is_populated(state: Option<PlaceholderState>) -> (r: bool)
    ensures
        r == may_be_listed(state),
{
    match state {
        Some(st) => !(st.placeholder && st.partial),
        None => true,
    }
}

/// What becomes of an entry of a directory when it is compared with the server.
#[derive(Debug)]
#[allow(inconsistent_fields)]
pub enum Deed<P = RelPath> {
    /// It is put here in name only: entry `i` of the listing.
    Place { path: P, i: usize },
    /// It is compared with entry `i` of the listing.
    Compare { path: P, i: usize, is_dir: bool },
    /// The server does not have it.
    DropStale { path: P, is_dir: bool },
}

impl View for Deed {
    type V = Deed<Seq<char>>;

    open spec fn view(&self) -> Deed<Seq<char>> {
        match self {
            Deed::Place { path, i } => Deed::Place { path: path@, i: *i },
            Deed::Compare { path, i, is_dir } => Deed::Compare {
                path: path@,
                i: *i,
                is_dir: *is_dir,
            },
            Deed::DropStale { path, is_dir } => Deed::DropStale { path: path@, is_dir: *is_dir },
        }
    }
}

/// Deeds by the characters of their paths.
pub open spec fn deeds_view(v: Seq<Deed>) -> Seq<Deed<Seq<char>>> {
    Seq::new(v.len(), |i: int| v[i]@)
}

/// Names that are found in a directory, with whether they are directories.
pub open spec fn names_view(v: Seq<(String, bool)>) -> Seq<(Seq<char>, bool)> {
    Seq::new(v.len(), |i: int| (v[i].0@, v[i].1))
}

/// The place of the first entry of a name, or -1.
pub open spec fn name_at(local: Seq<(Seq<char>, bool)>, name: Seq<char>) -> int
    decreases local.len(),
{
    if local.len() == 0 {
        -1
    } else {
        let before = name_at(local.drop_last(), name);
        if before >= 0 {
            before
        } else if local.last().0 == name {
            local.len() - 1
        } else {
            -1
        }
    }
}

proof fn lemma_name_at(local: Seq<(Seq<char>, bool)>, name: Seq<char>)
    ensures
        -1 <= name_at(local, name) < local.len(),
        name_at(local, name) >= 0 ==> local[name_at(local, name)].0 == name,
        forall|j: int|
            #![trigger local[j]]
            0 <= j < local.len() && (j < name_at(local, name) || name_at(local, name) < 0)
                ==> local[j].0 != name,
    decreases local.len(),
{
    if local.len() > 0 {
        let init = local.drop_last();
        lemma_name_at(init, name);
        let k = name_at(local, name);
        assert forall|j: int|
            #![trigger local[j]]
            0 <= j < local.len() && (j < k || k < 0) implies local[j].0 != name by {
            if j < init.len() {
                assert(init[j] == local[j]);
            }
        }
        if name_at(init, name) >= 0 {
            assert(init[name_at(init, name)] == local[name_at(init, name)]);
        }
    }
}

/// The names that are left after the entries of a listing have been compared.
pub open spec fn left_over(
    dir: Seq<char>,
    listing: Seq<InfoView>,
    local: Seq<(Seq<char>, bool)>,
) -> Seq<(Seq<char>, bool)>
    decreases listing.len(),
{
    if listing.len() == 0 {
        local
    } else {
        let before = left_over(dir, listing.drop_last(), local);
        let name = listing.last().name;
        if dir_of(child_of(dir, name)) == dir && name_at(before, name) >= 0 {
            before.remove(name_at(before, name))
        } else {
            before
        }
    }
}

/// The deeds that the entries of a listing ask for, in order. Names that lead
/// elsewhere are passed over.
pub open spec fn listing_deeds(
    dir: Seq<char>,
    listing: Seq<InfoView>,
    local: Seq<(Seq<char>, bool)>,
) -> Seq<Deed<Seq<char>>>
    decreases listing.len(),
{
    if listing.len() == 0 {
        Seq::empty()
    } else {
        let before = listing_deeds(dir, listing.drop_last(), local);
        let left = left_over(dir, listing.drop_last(), local);
        let name = listing.last().name;
        let path = child_of(dir, name);
        let i = (listing.len() - 1) as usize;
        let at = name_at(left, name);
        if dir_of(path) != dir {
            before
        } else if at < 0 {
            before.push(Deed::Place { path, i })
        } else {
            before.push(Deed::Compare { path, i, is_dir: left[at].1 })
        }
    }
}

/// The deeds that names ask for which the server does not have, in order.
pub open spec fn stale_deeds(
    dir: Seq<char>,
    local: Seq<(Seq<char>, bool)>,
) -> Seq<Deed<Seq<char>>>
    decreases local.len(),
{
    if local.len() == 0 {
        Seq::empty()
    } else {
        let before = stale_deeds(dir, local.drop_last());
        let path = child_of(dir, local.last().0);
        if dir_of(path) == dir {
            before.push(Deed::DropStale { path, is_dir: local.last().1 })
        } else {
            before
        }
    }
}

/// What becomes of a directory when it is compared with the server: what the
/// server has is put here or compared, what it does not have is looked at.
pub open spec fn reconciled(
    dir: Seq<char>,
    listing: Seq<InfoView>,
    local: Seq<(Seq<char>, bool)>,
) -> Seq<Deed<Seq<char>>> {
    listing_deeds(dir, listing, local) + stale_deeds(dir, left_over(dir, listing, local))
}

/// What becomes of a directory when it is compared with the server. `local` holds
/// what is found in it, in order. See `reconciled`.
pub fn reconcile_local(dir: &RelPath, listing: &[FileInfo], local: Vec<(String, bool)>) -> (r: Vec<
    Deed,
>)
    ensures
        deeds_view(r@) == reconciled(dir@, listing_view(listing@), names_view(local@)),
{
    let ghost lv = listing_view(listing@);
    let ghost start = names_view(local@);
    let mut local = local;
    let mut deeds: Vec<Deed> = Vec::new();
    let mut i: usize = 0;
    proof {
        assert(deeds_view(deeds@) =~= Seq::empty());
    }
    while i < listing.len()
        invariant
            i <= listing@.len(),
            lv == listing_view(listing@),
            names_view(local@) == left_over(dir@, lv.take(i as int), start),
            deeds_view(deeds@) == listing_deeds(dir@, lv.take(i as int), start),
        decreases listing@.len() - i,
    {
        let ghost so_far = deeds_view(deeds@);
        let ghost left = names_view(local@);
        proof {
            let now = lv.take(i + 1);
            assert(now.drop_last() =~= lv.take(i as int));
            assert(now.last() == listing@[i as int]@);
        }
        let path = dir.join(listing[i].name.as_str());
        if path.parent_or_root() == *dir {
            let ghost pv = path@;
            match find_name(&local, listing[i].name.as_str()) {
                Some(k) => {
                    let (_, is_dir) = local.remove(k);
                    proof {
                        assert(names_view(local@) =~= left.remove(k as int));
                    }
                    deeds.push(Deed::Compare { path, i, is_dir });
                    proof {
                        assert(deeds_view(deeds@) =~= so_far.push(
                            Deed::Compare { path: pv, i, is_dir },
                        ));
                    }
                },
                None => {
                    deeds.push(Deed::Place { path, i });
                    proof {
                        assert(deeds_view(deeds@) =~= so_far.push(Deed::Place { path: pv, i }));
                    }
                },
            }
        }
        i += 1;
    }
    let ghost first = deeds_view(deeds@);
    let ghost left = names_view(local@);
    proof {
        assert(lv.take(i as int) =~= lv);
        assert(first + stale_deeds(dir@, left.take(0)) =~= first);
    }
    let mut k: usize = 0;
    while k < local.len()
        invariant
            k <= local@.len(),
            left == names_view(local@),
            deeds_view(deeds@) == first + stale_deeds(dir@, left.take(k as int)),
        decreases local@.len() - k,
    {
        let ghost so_far = deeds_view(deeds@);
        proof {
            let now = left.take(k + 1);
            assert(now.drop_last() =~= left.take(k as int));
            assert(now.last() == left[k as int]);
        }
        let path = dir.join(local[k].0.as_str());
        if path.parent_or_root() == *dir {
            let ghost pv = path@;
            let is_dir = local[k].1;
            deeds.push(Deed::DropStale { path, is_dir });
            proof {
                assert(deeds_view(deeds@) =~= so_far.push(Deed::DropStale { path: pv, is_dir }));
                assert(deeds_view(deeds@) =~= first + stale_deeds(dir@, left.take(k + 1)));
            }
        }
        k += 1;
    }
    proof {
        assert(left.take(k as int) =~= left);
    }
    deeds
}

fn find_name(local: &Vec<(String, bool)>, name: &str) -> (r: Option<usize>)
    ensures
        match r {
            Some(k) => k == name_at(names_view(local@), name@) && k < local@.len(),
            None => name_at(names_view(local@), name@) < 0,
        },
{
    let ghost nv = names_view(local@);
    proof {
        lemma_name_at(nv, name@);
    }
    let mut i: usize = 0;
    while i < local.len()
        invariant
            i <= local@.len(),
            nv == names_view(local@),
            -1 <= name_at(nv, name@) < nv.len(),
            name_at(nv, name@) >= 0 ==> nv[name_at(nv, name@)].0 == name@,
            forall|j: int|
                #![trigger nv[j]]
                0 <= j < nv.len() && (j < name_at(nv, name@) || name_at(nv, name@) < 0) ==> nv[j].0
                    != name@,
            forall|j: int| #![trigger nv[j]] 0 <= j < i ==> nv[j].0 != name@,
        decreases local@.len() - i,
    {
        proof {
            assert(nv[i as int].0 == local@[i as int].0@);
        }
        if same(local[i].0.as_str(), name) {
            proof {
                let k = name_at(nv, name@);
                if k >= 0 && k < i {
                    assert(nv[k].0 != name@);
                }
            }
            return Some(i);
        }
        i += 1;
    }
    proof {
        let k = name_at(nv, name@);
        if k >= 0 {
            assert(nv[k].0 != name@);
        }
    }
    None
}

/// What is put here in name only.
#[derive(Debug)]
pub struct Placing {
    pub path: RelPath,
    pub is_dir: bool,
    pub size: u64,
    pub mtime: Option<Moment>,
}

/// What is put here in name only for an entry of a listing: nothing for a name
/// that leads elsewhere.
pub fn place(dir: &RelPath, entry: &FileInfo) -> (r: Option<Placing>)
    ensures
        r is Some <==> dir_of(child_of(dir@, entry.name@)) == dir@,
        r matches Some(p) ==> {
            &&& p.path@ == child_of(dir@, entry.name@)
            &&& p.is_dir == (entry.kind == FileType::Directory)
            &&& p.size == match (entry.kind, entry.size) {
                (FileType::File, Some(n)) => n,
                _ => 0,
            }
            &&& p.mtime == entry.mtime
        },
{
    let path = dir.join(entry.name.as_str());
    if path.parent_or_root() != *dir {
        return None;
    }
    let is_dir = entry.kind == FileType::Directory;
    let size: u64 = if is_dir {
        0
    } else {
        match entry.size {
            Some(n) => n,
            None => 0,
        }
    };
    Some(Placing { path, is_dir, size, mtime: entry.mtime })
}

/// What becomes of a local file that the server has too.
#[derive(Clone, Copy, Debug, PartialEq, Eq, Structural)]
pub enum Meeting {
    Nothing,
    /// A directory stands for that of the server from now on.
    AdoptDir,
    /// It is seen whether the server has a newer version.
    Freshen,
    /// It is seen whether the file is that of the server.
    Adopt,
}

/// What becomes of an entry that is both here and on the server.
pub open spec fn meeting_of(
    kind: FileType,
    is_dir: bool,
    state: Option<PlaceholderState>,
    file: Option<FileState>,
) -> Meeting {
    match (kind, is_dir) {
        (FileType::Directory, true) => if state matches Some(st) && !st.placeholder {
            Meeting::AdoptDir
        } else {
            Meeting::Nothing
        },
        (FileType::File, false) => match file {
            Some(FileState::Cached(_)) => Meeting::Freshen,
            Some(FileState::Dehydrated(_)) => Meeting::Freshen,
            Some(FileState::Foreign) => Meeting::Adopt,
            Some(FileState::New) => Meeting::Adopt,
            _ => Meeting::Nothing,
        },
        _ => Meeting::Nothing,
    }
}

/// What becomes of a local file or directory that the server has too. `state` is
/// that of a directory and `file` that of a file, if they can be told.
pub fn reconcile_entry(
    kind: FileType,
    is_dir: bool,
    state: Option<PlaceholderState>,
    file: Option<FileState>,
) -> (r: Meeting)
    ensures
        r == meeting_of(kind, is_dir, state, file),
{
    match (kind, is_dir) {
        (FileType::Directory, true) => match state {
            Some(st) => {
                if !st.placeholder {
                    Meeting::AdoptDir
                } else {
                    Meeting::Nothing
                }
            },
            None => Meeting::Nothing,
        },
        (FileType::File, false) => match file {
            Some(FileState::Cached(_)) => Meeting::Freshen,
            Some(FileState::Dehydrated(_)) => Meeting::Freshen,
            Some(FileState::Foreign) => Meeting::Adopt,
            Some(FileState::New) => Meeting::Adopt,
            _ => Meeting::Nothing,
        },
        _ => Meeting::Nothing,
    }
}

/// What becomes of a file that somebody put here and the server has too.
#[derive(Clone, Copy, Debug, PartialEq, Eq, Structural)]
pub enum Adoption {
    Nothing,
    /// It is the version last seen, and stands for it from now on.
    MarkInSync,
    /// It is an edit.
    Modified,
}

/// What becomes of a file that somebody put here and the server has too: the
/// version last seen is taken for what it is, a file of which nothing was seen
/// is an edit, and all else is left alone.
pub open spec fn adopted(l: LedgerView, p: Seq<char>, md: Meta) -> Adoption {
    if l.dirty.contains(p) {
        Adoption::Nothing
    } else {
        match lease(l.observations, p) {
            Some(rec) => if seen_at(md) == rec {
                Adoption::MarkInSync
            } else {
                Adoption::Nothing
            },
            None => Adoption::Modified,
        }
    }
}

/// A file here is still the version that the server has.
pub open spec fn is_unchanged(l: LedgerView, p: Seq<char>, remote: Observation, md: Meta) -> bool {
    match lease(l.observations, p) {
        Some(rec) => rec == remote,
        None => seen_at(md) == remote,
    }
}

/// What becomes of a file that the server does not have.
#[derive(Clone, Copy, Debug, PartialEq, Eq, Structural)]
pub enum Stale {
    /// It stays.
    Keep,
    /// It is new, and an edit.
    Modified,
    /// It is removed here.
    Remove,
}

/// What becomes of a file that the server does not have: it is removed if it is as
/// it was on the server, a new one is an edit, and all else stays.
pub open spec fn stale_file(l: LedgerView, p: Seq<char>, state: Option<FileState>) -> Stale {
    if is_clean(l, p, state) {
        Stale::Remove
    } else if state == Some(FileState::New) && !l.dirty.contains(p) {
        Stale::Modified
    } else {
        Stale::Keep
    }
}

impl Ledger {
    /// See `adopted`.
    pub fn adopt(&self, path: &RelPath, md: &Meta) -> (r: Adoption)
        ensures
            r == adopted(self@, path@, *md),
    {
        if self.dirty.contains(path) {
            return Adoption::Nothing;
        }
        match self.observations.get(path) {
            Some(rec) => {
                if Observation::of_local(md) == *rec {
                    Adoption::MarkInSync
                } else {
                    Adoption::Nothing
                }
            },
            None => Adoption::Modified,
        }
    }

    /// Whether a file that stands for one of the server has to be put here anew,
    /// because the server has another version. A file that holds edits never is.
    pub fn freshen(&self, path: &RelPath, remote: &FileInfo, md: &Meta) -> (r: bool)
        ensures
            r == (!self@.dirty.contains(path@) && !is_unchanged(
                self@,
                path@,
                seen_in(*remote),
                *md,
            )),
    {
        if self.dirty.contains(path) {
            return false;
        }
        let now = Observation::of(remote);
        match self.observations.get(path) {
            Some(rec) => *rec != now,
            None => Observation::of_local(md) != now,
        }
    }

    /// A file has been put here anew in name only. Whether it has to be pinned
    /// again.
    pub fn replaced(&mut self, path: &RelPath, state: Option<FileState>) -> (r: bool)
        ensures
            final(self)@ == unobserved(old(self)@, path@),
            r == (state == Some(FileState::Cached(Pin::Pinned)) || state == Some(
                FileState::Dehydrated(Pin::Pinned),
            )),
    {
        self.unobserve(path);
        match state {
            Some(FileState::Cached(Pin::Pinned)) => true,
            Some(FileState::Dehydrated(Pin::Pinned)) => true,
            _ => false,
        }
    }

    /// See `stale_file`.
    pub fn drop_stale(&self, path: &RelPath, state: Option<FileState>) -> (r: Stale)
        ensures
            r == stale_file(self@, path@, state),
    {
        if file_is_clean(self, path, state) {
            return Stale::Remove;
        }
        match state {
            Some(FileState::New) => {
                if self.dirty.contains(path) {
                    Stale::Keep
                } else {
                    Stale::Modified
                }
            },
            _ => Stale::Keep,
        }
    }

    /// A file or a directory has been removed here that the server does not have,
    /// or it has not.
    pub fn dropped(&mut self, path: &RelPath, gone: bool)
        ensures
            final(self)@ == if gone {
                forgotten(old(self)@, path@)
            } else {
                old(self)@
            },
    {
        if gone {
            self.forget(path);
        }
    }
}

/// What becomes of a file in a sweep after a restart.
#[derive(Clone, Copy, Debug, PartialEq, Eq, Structural)]
pub enum Tending {
    Nothing,
    /// It was edited while nobody looked.
    Arm,
    Hydrate,
    Dehydrate,
}

/// What becomes of a file in a sweep.
pub open spec fn tended(l: LedgerView, p: Seq<char>, state: Option<FileState>) -> Tending {
    match state {
        Some(FileState::Edited) => if l.dirty.contains(p) {
            Tending::Nothing
        } else {
            Tending::Arm
        },
        Some(FileState::Dehydrated(Pin::Pinned)) => Tending::Hydrate,
        Some(FileState::Cached(Pin::Unpinned)) => Tending::Dehydrate,
        _ => Tending::Nothing,
    }
}

/// A sweep through all that is here: the directories that have still to be read,
/// the next one last, each with whether it is pinned, and the files that were
/// edited while nobody looked.
pub struct Patrol {
    pub pending: Vec<(RelPath, bool)>,
    pub armed: Vec<RelPath>,
}

/// The same by the characters of the paths.
#[verifier::ext_equal]
pub struct PatrolView {
    pub pending: Seq<(Seq<char>, bool)>,
    pub armed: Seq<Seq<char>>,
}

/// Paths with a mark, by the characters of the paths.
pub open spec fn flagged_view(v: Seq<(RelPath, bool)>) -> Seq<(Seq<char>, bool)> {
    Seq::new(v.len(), |i: int| (v[i].0@, v[i].1))
}

impl View for Patrol {
    type V = PatrolView;

    open spec fn view(&self) -> PatrolView {
        PatrolView {
            pending: flagged_view(self.pending@),
            armed: crate::model::paths_view(self.armed@),
        }
    }
}

/// Whether an entry has to be pinned because the directory is: nothing is said of
/// it yet.
pub fn inherits_pin(pin: Pin, inherited: bool) -> (r: bool)
    ensures
        r == (pin == Pin::Unspecified && inherited),
{
    pin == Pin::Unspecified && inherited
}

/// What is wanted of an entry of a directory.
pub open spec fn wanted_after(pin: Pin, inherited: bool, pinned: bool) -> Pin {
    if pin == Pin::Unspecified && inherited && pinned {
        Pin::Pinned
    } else {
        pin
    }
}

/// What is wanted of an entry once it has been pinned because the directory is, or
/// could not be.
pub fn pin_after(pin: Pin, inherited: bool, pinned: bool) -> (r: Pin)
    ensures
        r == wanted_after(pin, inherited, pinned),
{
    if pin == Pin::Unspecified && inherited && pinned {
        Pin::Pinned
    } else {
        pin
    }
}

impl Patrol {
    /// A sweep from the root.
    pub fn new() -> (r: Patrol)
        ensures
            r@ == (PatrolView {
                pending: seq![(Seq::<char>::empty(), false)],
                armed: Seq::empty(),
            }),
    {
        let mut pending: Vec<(RelPath, bool)> = Vec::new();
        pending.push((RelPath::root(), false));
        let r = Patrol { pending, armed: Vec::new() };
        proof {
            assert(r@.pending =~= seq![(Seq::<char>::empty(), false)]);
            assert(r@.armed =~= Seq::empty());
        }
        r
    }

    /// The directory to be read next, and whether it is pinned.
    pub fn next(&mut self) -> (r: Option<(RelPath, bool)>)
        ensures
            old(self)@.pending.len() == 0 ==> r is None && final(self)@ == old(self)@,
            old(self)@.pending.len() > 0 ==> {
                &&& r matches Some((p, pinned)) && (p@, pinned) == old(self)@.pending.last()
                &&& final(self)@ == (PatrolView {
                    pending: old(self)@.pending.drop_last(),
                    ..old(self)@
                })
            },
    {
        let ghost before = self@;
        let r = self.pending.pop();
        proof {
            if before.pending.len() > 0 {
                assert(self@.pending =~= before.pending.drop_last());
            } else {
                assert(self@ =~= before);
            }
        }
        r
    }

    /// Comes by a directory: one that was listed here is read, one that was not
    /// only if it is pinned.
    pub fn pass_dir(&mut self, path: RelPath, pin: Pin, state: Option<PlaceholderState>)
        ensures
            ({
                let unlisted = state matches Some(st) && st.placeholder && st.partial;
                final(self)@ == if unlisted && pin != Pin::Pinned {
                    old(self)@
                } else {
                    PatrolView {
                        pending: old(self)@.pending.push((path@, pin == Pin::Pinned)),
                        ..old(self)@
                    }
                }
            }),
    {
        let ghost before = self@;
        let unlisted = match state {
            Some(st) => st.placeholder && st.partial,
            None => false,
        };
        let pinned = pin == Pin::Pinned;
        if unlisted && !pinned {
            return;
        }
        self.pending.push((path, pinned));
        proof {
            assert(self@.pending =~= before.pending.push((path@, pinned)));
        }
    }

    /// Comes by a file. One that was edited while nobody looked counts as written
    /// just now.
    pub fn pass_file(
        &mut self,
        engine: &mut State,
        path: &RelPath,
        state: Option<FileState>,
        now: Tick,
    ) -> (r: Tending)
        requires
            is_sound(old(engine)@),
            now <= HORIZON,
        ensures
            r == tended(old(engine)@.ledger, path@, state),
            final(engine)@ == if r == Tending::Arm {
                recorded(old(engine)@, Operation::Write(path@), now)
            } else {
                old(engine)@
            },
            is_sound(final(engine)@),
            final(self)@ == if r == Tending::Arm {
                PatrolView { armed: old(self)@.armed.push(path@), ..old(self)@ }
            } else {
                old(self)@
            },
    {
        let ghost before = self@;
        match state {
            Some(FileState::Edited) => {
                if engine.ledger.dirty.contains(path) {
                    return Tending::Nothing;
                }
                engine.record(Operation::Write(path.clone()), now);
                self.armed.push(path.clone());
                proof {
                    assert(self@.armed =~= before.armed.push(path@));
                }
                Tending::Arm
            },
            Some(FileState::Dehydrated(Pin::Pinned)) => Tending::Hydrate,
            Some(FileState::Cached(Pin::Unpinned)) => Tending::Dehydrate,
            _ => Tending::Nothing,
        }
    }
}

/// What becomes of an entry of a directory that is pinned with all that lies below
/// it.
#[derive(Clone, Copy, Debug, PartialEq, Eq, Structural)]
pub enum PinStep {
    /// It is passed over: the user does not want it here, or it cannot be pinned.
    Skip,
    /// It is a directory, and is looked into.
    Descend,
    /// It is brought here.
    Hydrate,
    /// It is here.
    Nothing,
}

/// What becomes of an entry of a directory that is pinned.
pub open spec fn pin_step(pin: Pin, pinned: bool, is_dir: bool, state: Option<FileState>) -> PinStep {
    if pin == Pin::Unpinned || (pin == Pin::Unspecified && !pinned) {
        PinStep::Skip
    } else if is_dir {
        PinStep::Descend
    } else if state matches Some(s) && s is Dehydrated {
        PinStep::Hydrate
    } else {
        PinStep::Nothing
    }
}

/// What becomes of an entry of a directory that is pinned with all that lies below
/// it. `pinned` says that the entry could be pinned, where nothing was said of it.
pub fn pin_walk(pin: Pin, pinned: bool, is_dir: bool, state: Option<FileState>) -> (r: PinStep)
    ensures
        r == pin_step(pin, pinned, is_dir, state),
{
    match pin {
        Pin::Unpinned => {
            return PinStep::Skip;
        },
        Pin::Unspecified => {
            if !pinned {
                return PinStep::Skip;
            }
        },
        Pin::Pinned => {},
    }
    if is_dir {
        return PinStep::Descend;
    }
    match state {
        Some(FileState::Dehydrated(_)) => PinStep::Hydrate,
        _ => PinStep::Nothing,
    }
}

/// Whether a directory may be pinned with all that lies below it: not while that,
/// or a directory above it, is being pinned. If so it is being pinned.
pub fn pin_subtree(pinning: &mut PathSet, dir: &RelPath) -> (r: bool)
    ensures
        r == !is_frozen(old(pinning)@, dir@),
        final(pinning)@ == if r {
            old(pinning)@.insert(dir@)
        } else {
            old(pinning)@
        },
{
    if is_covered(pinning, dir) {
        return false;
    }
    let _ = pinning.insert(dir.clone());
    true
}

/// What becomes of an entry when everything here is cleared away.
#[derive(Clone, Copy, Debug, PartialEq, Eq, Structural)]
pub enum Vacuum {
    /// A directory that was never listed here goes with all that is in it.
    RemoveTree,
    /// A directory is cleared, and goes if nothing is left in it.
    ClearAndRemove,
    /// A directory is cleared, and stays.
    Clear,
    /// A file goes.
    Delete,
    /// A file stays.
    Keep,
}

/// How a directory is cleared away.
pub open spec fn cleared_dir(state: Option<PlaceholderState>) -> Vacuum {
    match state {
        Some(st) => if st.placeholder && st.partial {
            Vacuum::RemoveTree
        } else if st.placeholder {
            Vacuum::ClearAndRemove
        } else {
            Vacuum::Clear
        },
        None => Vacuum::Clear,
    }
}

/// What becomes of a directory when everything here is cleared away.
pub fn vacuum_dir(state: Option<PlaceholderState>) -> (r: Vacuum)
    ensures
        r == cleared_dir(state),
{
    match state {
        Some(st) => {
            if st.placeholder && st.partial {
                Vacuum::RemoveTree
            } else if st.placeholder {
                Vacuum::ClearAndRemove
            } else {
                Vacuum::Clear
            }
        },
        None => Vacuum::Clear,
    }
}

/// How a file is cleared away.
pub open spec fn cleared_file(l: LedgerView, p: Seq<char>, state: Option<FileState>) -> Vacuum {
    if is_clean(l, p, state) {
        Vacuum::Delete
    } else {
        Vacuum::Keep
    }
}

/// What becomes of a file when everything here is cleared away.
pub fn vacuum_file(ledger: &Ledger, path: &RelPath, state: Option<FileState>) -> (r: Vacuum)
    ensures
        r == cleared_file(ledger@, path@, state),
{
    if file_is_clean(ledger, path, state) {
        Vacuum::Delete
    } else {
        Vacuum::Keep
    }
}

/// An entry is gone after it has been cleared away.
pub open spec fn gone_after(what: Vacuum, emptied: bool, removed: bool) -> bool {
    match what {
        Vacuum::RemoveTree => removed,
        Vacuum::ClearAndRemove => emptied && removed,
        Vacuum::Clear => false,
        Vacuum::Delete => removed,
        Vacuum::Keep => false,
    }
}

/// Whether an entry is gone after it has been cleared away: `emptied` says that
/// nothing is left in a directory, `removed` that the removal succeeded.
pub fn is_cleared(what: Vacuum, emptied: bool, removed: bool) -> (r: bool)
    ensures
        r == gone_after(what, emptied, removed),
{
    match what {
        Vacuum::RemoveTree => removed,
        Vacuum::ClearAndRemove => emptied && removed,
        Vacuum::Clear => false,
        Vacuum::Delete => removed,
        Vacuum::Keep => false,
    }
}

/// A file was not written since.
pub open spec fn is_as_expected(expected: Option<Moment>, now: Option<Moment>) -> bool {
    expected is None || now == expected
}

/// Whether a file may be marked as it is on the server: not if it was written
/// since.
pub fn is_unmodified(expected: Option<Moment>, now: Option<Moment>) -> (r: bool)
    ensures
        r == is_as_expected(expected, now),
{
    match expected {
        Some(t) => match now {
            Some(u) => t == u,
            None => false,
        },
        None => true,
    }
}

/// The paths on which we work ourselves, so that nobody mistakes it for the user's
/// doing: how often at a time.
pub struct Suppressed {
    pub counts: PathMap<usize>,
}

impl View for Suppressed {
    type V = Map<Seq<char>, usize>;

    open spec fn view(&self) -> Map<Seq<char>, usize> {
        self.counts@
    }
}

/// How often at a time we work on a path.
pub open spec fn count_of(m: Map<Seq<char>, usize>, p: Seq<char>) -> usize {
    if m.dom().contains(p) {
        m[p]
    } else {
        0
    }
}

impl Suppressed {
    /// We work on nothing.
    pub fn new() -> (r: Suppressed)
        ensures
            r@ == Map::<Seq<char>, usize>::empty(),
    {
        Suppressed { counts: PathMap::new() }
    }

    /// Whether we work on a path, or on a directory above it.
    pub fn is_suppressed(&self, path: &RelPath) -> (r: bool)
        ensures
            r == is_frozen(self@.dom(), path@),
    {
        let n: usize = self.counts.len();
        let ghost keys = crate::table::walk(self@);
        proof {
            crate::table::lemma_walk_of_finite(self@.dom());
        }
        let mut i: usize = 0;
        while i < n
            invariant
                i <= n,
                n == keys.len(),
                keys == crate::table::walk(self@),
                forall|j: int|
                    #![trigger keys[j]]
                    0 <= j < i ==> !crate::path::within(path@, keys[j]),
            decreases n - i,
        {
            if path.is_within(self.counts.key(i)) {
                return true;
            }
            i += 1;
        }
        proof {
            if is_frozen(self@.dom(), path@) {
                let q = choose|q: Seq<char>| #[trigger]
                    self@.dom().contains(q) && crate::path::within(path@, q);
                assert(keys.to_set().contains(q));
                let j = choose|j: int| 0 <= j < keys.len() && keys[j] == q;
                assert(!crate::path::within(path@, keys[j]));
            }
        }
        false
    }

    /// Work on a path begins.
    pub fn enter(&mut self, path: &RelPath)
        requires
            count_of(old(self)@, path@) < usize::MAX,
        ensures
            final(self)@ == old(self)@.insert(path@, (count_of(old(self)@, path@) + 1) as usize),
    {
        let n: usize = match self.counts.get(path) {
            Some(n) => *n,
            None => 0,
        };
        self.counts.insert(path.clone(), n + 1);
    }

    /// Work on a path ends.
    pub fn leave(&mut self, path: &RelPath)
        ensures
            final(self)@ == if count_of(old(self)@, path@) <= 1 {
                old(self)@.remove(path@)
            } else {
                old(self)@.insert(path@, (count_of(old(self)@, path@) - 1) as usize)
            },
    {
        let ghost before = self@;
        let n: usize = match self.counts.get(path) {
            Some(n) => *n,
            None => 0,
        };
        if n <= 1 {
            let _ = self.counts.remove(path);
        } else {
            self.counts.insert(path.clone(), n - 1);
        }
    }
}

/// Work that begins and ends leaves no trace.
pub proof fn law_work_that_ends_is_not_suppressed(m: Map<Seq<char>, usize>, p: Seq<char>)
    requires
        count_of(m, p) < usize::MAX,
        m.dom().contains(p) ==> m[p] >= 1,
    ensures
        ({
            let during = m.insert(p, (count_of(m, p) + 1) as usize);
            let after = if count_of(during, p) <= 1 {
                during.remove(p)
            } else {
                during.insert(p, (count_of(during, p) - 1) as usize)
            };
            is_frozen(during.dom(), p) && after == m
        }),
{
    let during = m.insert(p, (count_of(m, p) + 1) as usize);
    assert(during.dom().contains(p));
    if m.dom().contains(p) {
        assert(during.insert(p, m[p]) =~= m);
    } else {
        assert(during.remove(p) =~= m);
    }
}

/// A file that holds edits is never removed, replaced or emptied, whatever the
/// server has.
pub proof fn law_edits_are_never_lost(
    l: LedgerView,
    p: Seq<char>,
    state: Option<FileState>,
    md: Meta,
)
    requires
        l.dirty.contains(p) || state == Some(FileState::Edited),
    ensures
        !is_clean(l, p, state),
        stale_file(l, p, state) != Stale::Remove,
        l.dirty.contains(p) ==> adopted(l, p, md) == Adoption::Nothing,
        state == Some(FileState::Edited) ==> file_change(state) == Change::Modified,
        state == Some(FileState::Edited) ==> tended(l, p, state) != Tending::Dehydrate,
{
}

/// What may be deleted at the last moment holds no edits, and everything that
/// was found clean before may be.
pub proof fn law_only_clean_files_are_deleted(
    observed: bool,
    ps: PlaceholderState,
    recall: bool,
    pin: Pin,
)
    ensures
        deletable(ps) <==> !(classified(observed, ps, recall, pin) is Edited || classified(
            observed,
            ps,
            recall,
            pin,
        ) is New || classified(observed, ps, recall, pin) is Foreign),
{
}

/// A new file that nobody told us of is found and uploaded, never removed.
pub proof fn law_a_new_file_is_an_edit(l: LedgerView, p: Seq<char>, recall: bool, pin: Pin)
    requires
        !l.dirty.contains(p),
        !l.observations.dom().contains(p),
    ensures
        ({
            let state = classified(
                false,
                PlaceholderState { placeholder: false, in_sync: false, partial: false },
                recall,
                pin,
            );
            &&& state == FileState::New
            &&& stale_file(l, p, Some(state)) == Stale::Modified
            &&& file_change(Some(state)) == Change::Modified
        }),
{
}

/// What a listing that fails comes to when a directory is filled: nothing if the
/// server does not have it.
pub fn populate_error(e: Error) -> (r: Option<Error>)
    ensures
        r == match e {
            Error::NotFound => None,
            e => Some(e),
        },
{
    match e {
        Error::NotFound => None,
        e => Some(e),
    }
}

} // verus!
