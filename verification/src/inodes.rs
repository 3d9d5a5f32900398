//! The numbers by which a kernel knows the files of the drive.
use crate::ledger::select;
use crate::path::{child_of, dir_of, rebased, within, RelPath};
use crate::sdk::{FileInfo, FileType};
use crate::table::{walk, PathMap};
use crate::view::{listing_view, InfoView};
use std::collections::HashMap;
use vstd::prelude::*;

verus! {

broadcast use vstd::std_specs::hash::group_hash_axioms;

/// The number of the root.
pub const ROOT: u64 = 1;

/// Which path a number stands for, which number a path has, how often the kernel
/// has looked a number up, and the next number to give away.
pub struct InodeTable {
    pub paths: HashMap<u64, RelPath>,
    pub inos: PathMap<u64>,
    pub lookups: HashMap<u64, u64>,
    pub next_ino: u64,
}

/// The same by the characters of the paths.
#[verifier::ext_equal]
pub struct TableView {
    pub paths: Map<u64, Seq<char>>,
    pub inos: Map<Seq<char>, u64>,
    pub lookups: Map<u64, u64>,
    pub next_ino: u64,
}

impl View for InodeTable {
    type V = TableView;

    open spec fn view(&self) -> TableView {
        TableView {
            paths: self.paths@.map_values(|p: RelPath| p@),
            inos: self.inos@,
            lookups: self.lookups@,
            next_ino: self.next_ino,
        }
    }
}

/// The number that a path has stands for that path, and only numbers that were
/// given away are in use.
pub open spec fn is_table(t: TableView) -> bool {
    &&& forall|p: Seq<char>| #[trigger]
        t.inos.dom().contains(p) ==> t.paths.dom().contains(t.inos[p]) && t.paths[t.inos[p]] == p
    &&& forall|i: u64| #[trigger] t.paths.dom().contains(i) ==> i < t.next_ino
}

/// The table with a number for a path.
pub open spec fn numbered(t: TableView, p: Seq<char>) -> TableView {
    if t.inos.dom().contains(p) {
        t
    } else {
        TableView {
            paths: t.paths.insert(t.next_ino, p),
            inos: t.inos.insert(p, t.next_ino),
            next_ino: (t.next_ino + 1) as u64,
            ..t
        }
    }
}

/// The path that a number stands for.
pub open spec fn path_of(t: TableView, ino: u64) -> Option<Seq<char>> {
    if t.paths.dom().contains(ino) {
        Some(t.paths[ino])
    } else {
        None
    }
}

/// How often the kernel has looked a number up.
pub open spec fn lookups_of(t: TableView, ino: u64) -> u64 {
    if t.lookups.dom().contains(ino) {
        t.lookups[ino]
    } else {
        0
    }
}

/// The table without a number.
pub open spec fn freed(t: TableView, ino: u64) -> TableView {
    TableView {
        paths: t.paths.remove(ino),
        inos: match path_of(t, ino) {
            Some(p) => if t.inos.dom().contains(p) && t.inos[p] == ino {
                t.inos.remove(p)
            } else {
                t.inos
            },
            None => t.inos,
        },
        lookups: t.lookups.remove(ino),
        ..t
    }
}

/// The table after the kernel has forgotten a number so many times: once it has
/// forgotten it as often as it has looked it up, the number is free. The root is
/// never free.
pub open spec fn forgotten(t: TableView, ino: u64, n: u64) -> TableView {
    if ino == ROOT || !t.lookups.dom().contains(ino) {
        t
    } else if t.lookups[ino] <= n {
        freed(t, ino)
    } else {
        TableView { lookups: t.lookups.insert(ino, (t.lookups[ino] - n) as u64), ..t }
    }
}

/// The table after one path has been carried from below `from` to below `to`.
pub open spec fn carried(
    t: TableView,
    p: Seq<char>,
    ino: u64,
    from: Seq<char>,
    to: Seq<char>,
) -> TableView {
    let dest = rebased(p, from, to);
    TableView { inos: t.inos.remove(p).insert(dest, ino), paths: t.paths.insert(ino, dest), ..t }
}

/// The table after some paths have been carried, first to last, each with the
/// number that it has in `inos`.
pub open spec fn all_carried(
    t: TableView,
    paths: Seq<Seq<char>>,
    inos: Map<Seq<char>, u64>,
    from: Seq<char>,
    to: Seq<char>,
) -> TableView
    decreases paths.len(),
{
    if paths.len() == 0 {
        t
    } else {
        carried(
            all_carried(t, paths.drop_last(), inos, from, to),
            paths.last(),
            inos[paths.last()],
            from,
            to,
        )
    }
}

/// The table after `from` has become `to`.
pub open spec fn remapped(t: TableView, from: Seq<char>, to: Seq<char>) -> TableView {
    all_carried(t, select(walk(t.inos), from), t.inos, from, to)
}

/// The path of a name in the directory with a number; a name that leads elsewhere
/// has none.
pub open spec fn child_path(t: TableView, parent: u64, name: Seq<char>) -> Option<Seq<char>> {
    match path_of(t, parent) {
        Some(dir) => if dir_of(child_of(dir, name)) == dir {
            Some(child_of(dir, name))
        } else {
            None
        },
        None => None,
    }
}

impl InodeTable {
    /// A table that knows the root.
    pub fn new() -> (r: InodeTable)
        ensures
            r@ == (TableView {
                paths: map![ROOT => Seq::<char>::empty()],
                inos: map![Seq::<char>::empty() => ROOT],
                lookups: Map::empty(),
                next_ino: 2,
            }),
            is_table(r@),
    {
        let mut paths: HashMap<u64, RelPath> = HashMap::new();
        let mut inos: PathMap<u64> = PathMap::new();
        paths.insert(ROOT, RelPath::root());
        inos.insert(RelPath::root(), ROOT);
        let r = InodeTable { paths, inos, lookups: HashMap::new(), next_ino: 2 };
        proof {
            assert(r@.paths =~= map![ROOT => Seq::<char>::empty()]);
            assert(r@.inos =~= map![Seq::<char>::empty() => ROOT]);
            assert(r@.lookups =~= Map::empty());
        }
        r
    }

    /// The number of a path, a new one if it has none.
    pub fn ino(&mut self, path: &RelPath) -> (r: u64)
        requires
            is_table(old(self)@),
            old(self)@.next_ino < u64::MAX,
        ensures
            final(self)@ == numbered(old(self)@, path@),
            r == final(self)@.inos[path@],
            is_table(final(self)@),
    {
        match self.inos.get(path) {
            Some(ino) => {
                return *ino;
            },
            None => {},
        }
        let ghost before = self@;
        let ino: u64 = self.next_ino;
        self.next_ino = ino + 1;
        self.inos.insert(path.clone(), ino);
        self.paths.insert(ino, path.clone());
        proof {
            assert(self@.paths =~= before.paths.insert(ino, path@));
            assert(self@ =~= numbered(before, path@));
        }
        ino
    }

    /// The path that a number stands for.
    pub fn path(&self, ino: u64) -> (r: Option<RelPath>)
        ensures
            crate::model::opt_view(r) == path_of(self@, ino),
    {
        match self.paths.get(&ino) {
            Some(p) => Some(p.clone()),
            None => None,
        }
    }

    /// The path of a name in the directory with a number. See `child_path`.
    pub fn child(&self, parent: u64, name: &str) -> (r: Option<RelPath>)
        ensures
            crate::model::opt_view(r) == child_path(self@, parent, name@),
    {
        match self.paths.get(&parent) {
            Some(dir) => {
                let path = dir.join(name);
                if path.parent_or_root() == *dir {
                    Some(path)
                } else {
                    None
                }
            },
            None => None,
        }
    }

    /// The kernel has looked a number up.
    pub fn bump(&mut self, ino: u64)
        requires
            lookups_of(old(self)@, ino) < u64::MAX,
        ensures
            final(self)@ == (TableView {
                lookups: old(self)@.lookups.insert(ino, (lookups_of(old(self)@, ino) + 1) as u64),
                ..old(self)@
            }),
    {
        let ghost before = self@;
        let n: u64 = match self.lookups.get(&ino) {
            Some(n) => *n,
            None => 0,
        };
        self.lookups.insert(ino, n + 1);
        proof {
            assert(self@.lookups =~= before.lookups.insert(
                ino,
                (lookups_of(before, ino) + 1) as u64,
            ));
        }
    }

    /// The kernel has forgotten a number so many times. See `forgotten`.
    pub fn forget(&mut self, ino: u64, n: u64)
        requires
            is_table(old(self)@),
        ensures
            final(self)@ == forgotten(old(self)@, ino, n),
            is_table(final(self)@),
    {
        if ino == ROOT {
            return;
        }
        let ghost before = self@;
        let count: u64 = match self.lookups.get(&ino) {
            Some(c) => *c,
            None => {
                return;
            },
        };
        if count > n {
            self.lookups.insert(ino, count - n);
            proof {
                assert(self@ =~= forgotten(before, ino, n));
            }
            return;
        }
        self.lookups.remove(&ino);
        let path = self.paths.remove(&ino);
        proof {
            assert(self@.paths =~= before.paths.remove(ino));
        }
        match path {
            Some(p) => {
                let own = match self.inos.get(&p) {
                    Some(i) => *i == ino,
                    None => false,
                };
                if own {
                    let _ = self.inos.remove(&p);
                }
            },
            None => {},
        }
        proof {
            assert(self@ =~= freed(before, ino));
            lemma_freed(before, ino);
        }
    }

    /// `from` has become `to`: what lies within keeps its numbers.
    pub fn remap(&mut self, from: &RelPath, to: &RelPath)
        requires
            is_table(old(self)@),
        ensures
            final(self)@ == remapped(old(self)@, from@, to@),
            is_table(final(self)@),
    {
        let ghost before = self@;
        let n: usize = self.inos.len();
        let ghost keys = walk(before.inos);
        let mut moved: Vec<(RelPath, u64)> = Vec::new();
        let mut i: usize = 0;
        proof {
            crate::table::lemma_walk_of_finite(before.inos.dom());
        }
        while i < n
            invariant
                i <= n,
                n == keys.len(),
                self@ == before,
                keys == walk(before.inos),
                moved@.len() == select(keys.take(i as int), from@).len(),
                forall|j: int|
                    #![trigger moved@[j]]
                    0 <= j < moved@.len() ==> moved@[j].0@ == select(keys.take(i as int), from@)[j]
                        && moved@[j].1 == before.inos[moved@[j].0@],
            decreases n - i,
        {
            proof {
                let now = keys.take(i + 1);
                assert(now.drop_last() =~= keys.take(i as int));
                assert(now.last() == keys[i as int]);
            }
            let p = self.inos.key(i);
            if p.is_within(from) {
                let ino: u64 = *self.inos.value(i);
                moved.push((p.clone(), ino));
            }
            i += 1;
        }
        let ghost paths = select(keys, from@);
        proof {
            assert(keys.take(i as int) =~= keys);
            lemma_moved(before, from@);
        }
        let mut k: usize = 0;
        while k < moved.len()
            invariant
                k <= moved@.len(),
                moved@.len() == paths.len(),
                forall|j: int|
                    #![trigger moved@[j]]
                    0 <= j < moved@.len() ==> moved@[j].0@ == paths[j] && moved@[j].1
                        == before.inos[moved@[j].0@] && within(paths[j], from@),
                self@ == all_carried(before, paths.take(k as int), before.inos, from@, to@),
            decreases moved@.len() - k,
        {
            let ghost t = self@;
            proof {
                let now = paths.take(k + 1);
                assert(now.drop_last() =~= paths.take(k as int));
                assert(now.last() == moved@[k as int].0@);
            }
            let dest = moved[k].0.rebase(from, to);
            let ino: u64 = moved[k].1;
            let _ = self.inos.remove(&moved[k].0);
            self.inos.insert(dest.clone(), ino);
            self.paths.insert(ino, dest);
            proof {
                assert(self@.paths =~= t.paths.insert(ino, rebased(paths[k as int], from@, to@)));
                assert(self@ =~= carried(t, paths[k as int], ino, from@, to@));
            }
            k += 1;
        }
        proof {
            assert(paths.take(k as int) =~= paths);
            lemma_all_carried(before, paths, from@, to@);
        }
    }
}

proof fn lemma_freed(t: TableView, ino: u64)
    requires
        is_table(t),
    ensures
        is_table(freed(t, ino)),
{
    let r = freed(t, ino);
    assert forall|p: Seq<char>| #[trigger] r.inos.dom().contains(p) implies r.paths.dom().contains(
        r.inos[p],
    ) && r.paths[r.inos[p]] == p by {
        assert(t.inos.dom().contains(p));
        if t.inos[p] == ino {
            assert(path_of(t, ino) == Some(p));
        }
    }
}

proof fn lemma_moved(t: TableView, from: Seq<char>)
    requires
        t.inos.dom().finite(),
    ensures
        ({
            let paths = select(walk(t.inos), from);
            &&& forall|j: int|
                #![trigger paths[j]]
                0 <= j < paths.len() ==> t.inos.dom().contains(paths[j]) && within(paths[j], from)
            &&& paths.no_duplicates()
        }),
{
    let keys = walk(t.inos);
    let paths = select(keys, from);
    crate::table::lemma_walk_of_finite(t.inos.dom());
    crate::ledger::lemma_select(keys, from);
    crate::table::lemma_ascending_no_duplicates(paths);
    assert forall|j: int| #![trigger paths[j]] 0 <= j < paths.len() implies t.inos.dom().contains(
        paths[j],
    ) && within(paths[j], from) by {
        assert(keys.to_set().contains(paths[j]));
    }
}

proof fn lemma_all_carried(t: TableView, paths: Seq<Seq<char>>, from: Seq<char>, to: Seq<char>)
    requires
        is_table(t),
        paths.no_duplicates(),
        forall|j: int| #![trigger paths[j]] 0 <= j < paths.len() ==> t.inos.dom().contains(paths[j]),
    ensures
        is_table(all_carried(t, paths, t.inos, from, to)),
        all_carried(t, paths, t.inos, from, to).lookups == t.lookups,
        all_carried(t, paths, t.inos, from, to).next_ino == t.next_ino,
        forall|i: u64| #[trigger]
            all_carried(t, paths, t.inos, from, to).paths.dom().contains(i)
                <==> t.paths.dom().contains(i),
        forall|i: u64|
            #![trigger all_carried(t, paths, t.inos, from, to).paths[i]]
            (t.paths.dom().contains(i) && !(paths.contains(t.paths[i]) && t.inos[t.paths[i]] == i))
                ==> all_carried(t, paths, t.inos, from, to).paths[i] == t.paths[i],
        forall|j: int|
            #![trigger paths[j]]
            0 <= j < paths.len() ==> all_carried(t, paths, t.inos, from, to).paths[t.inos[paths[j]]]
                == rebased(paths[j], from, to),
    decreases paths.len(),
{
    if paths.len() > 0 {
        let init = paths.drop_last();
        assert forall|j: int| #![trigger init[j]] 0 <= j < init.len() implies t.inos.dom().contains(
            init[j],
        ) by {
            assert(init[j] == paths[j]);
        }
        assert(init.no_duplicates()) by {
            assert forall|a: int, b: int|
                0 <= a < init.len() && 0 <= b < init.len() && a != b implies init[a] != init[b] by {
                assert(paths[a] != paths[b]);
            }
        }
        lemma_all_carried(t, init, from, to);
        let s = all_carried(t, init, t.inos, from, to);
        let r = all_carried(t, paths, t.inos, from, to);
        let p = paths.last();
        let ino = t.inos[p];
        let dest = rebased(p, from, to);
        assert(!init.contains(p)) by {
            if init.contains(p) {
                let j = choose|j: int| 0 <= j < init.len() && init[j] == p;
                assert(paths[j] == paths[paths.len() - 1]);
            }
        }
        assert(paths[paths.len() - 1] == p);
        assert(t.paths[ino] == p);
        assert(s.paths[ino] == p);
        assert forall|q: Seq<char>| #[trigger] r.inos.dom().contains(q) implies r.paths.dom().contains(
            r.inos[q],
        ) && r.paths[r.inos[q]] == q by {
            if q != dest {
                assert(s.inos.dom().contains(q));
                assert(q != p);
            }
        }
        assert forall|i: u64|
            #![trigger r.paths[i]]
            (t.paths.dom().contains(i) && !(paths.contains(t.paths[i]) && t.inos[t.paths[i]] == i))
                implies r.paths[i] == t.paths[i] by {
            if i == ino {
                assert(paths.contains(p));
            }
            if init.contains(t.paths[i]) {
                let j = choose|j: int| 0 <= j < init.len() && init[j] == t.paths[i];
                assert(paths[j] == t.paths[i]);
            }
            assert(s.paths[i] == t.paths[i]);
        }
        assert forall|j: int| #![trigger paths[j]] 0 <= j < paths.len() implies r.paths[t.inos[paths[j]]]
            == rebased(paths[j], from, to) by {
            if j < init.len() {
                assert(init[j] == paths[j]);
                assert(t.paths[t.inos[paths[j]]] == paths[j]);
                assert(paths[j] != p);
            }
        }
    }
}

/// A number survives a rename: it stands for the file under its new name, and the
/// numbers of other files still stand for what they stood for.
pub proof fn law_a_number_survives_a_rename(
    t: TableView,
    from: Seq<char>,
    to: Seq<char>,
    p: Seq<char>,
)
    requires
        is_table(t),
        t.inos.dom().finite(),
        t.inos.dom().contains(p),
    ensures
        within(p, from) ==> path_of(remapped(t, from, to), t.inos[p]) == Some(
            rebased(p, from, to),
        ),
        !within(p, from) ==> path_of(remapped(t, from, to), t.inos[p]) == Some(p),
{
    let keys = walk(t.inos);
    let paths = select(keys, from);
    crate::table::lemma_walk_of_finite(t.inos.dom());
    crate::ledger::lemma_select(keys, from);
    lemma_moved(t, from);
    lemma_all_carried(t, paths, from, to);
    let r = remapped(t, from, to);
    let i = t.inos[p];
    assert(t.paths[i] == p);
    if within(p, from) {
        assert(keys.to_set().contains(p));
        assert(paths.contains(p));
        let j = choose|j: int| 0 <= j < paths.len() && paths[j] == p;
        assert(r.paths[t.inos[paths[j]]] == rebased(paths[j], from, to));
    } else {
        assert(!paths.contains(p)) by {
            if paths.contains(p) {
                let j = choose|j: int| 0 <= j < paths.len() && paths[j] == p;
                assert(within(paths[j], from));
            }
        }
        assert(r.paths[i] == t.paths[i]);
    }
}

/// A number is free exactly when the kernel has forgotten it as often as it has
/// looked it up; it is never given to another file.
pub proof fn law_a_number_is_freed_by_the_last_forget(t: TableView, ino: u64, n: u64)
    requires
        is_table(t),
        t.paths.dom().contains(ino),
    ensures
        forgotten(t, ino, n).paths.dom().contains(ino) <==> ino == ROOT
            || !t.lookups.dom().contains(ino) || n < t.lookups[ino],
        forall|p: Seq<char>|
            !forgotten(t, ino, n).inos.dom().contains(p) ==> #[trigger] numbered(
                forgotten(t, ino, n),
                p,
            ).inos[p] != ino,
{
}

/// What the kernel is told of a file.
#[derive(Clone, Copy, Debug, PartialEq, Eq, Structural)]
pub struct Attr {
    pub is_dir: bool,
    pub size: u64,
    pub blocks: u64,
    pub perm: u16,
}

/// How many blocks of 512 bytes a size takes.
pub open spec fn blocks_of(size: u64) -> nat {
    (size as nat + 511) / 512
}

/// What the kernel is told of a file of a size, or of a directory.
pub open spec fn attr_of(is_dir: bool, size: u64) -> Attr {
    Attr {
        is_dir,
        size,
        blocks: blocks_of(size) as u64,
        perm: if is_dir {
            0o755
        } else {
            0o644
        },
    }
}

/// What the kernel is told of a file.
pub fn attr(is_dir: bool, size: u64) -> (r: Attr)
    ensures
        r == attr_of(is_dir, size),
        r.blocks == blocks_of(size),
{
    let whole: u64 = size / 512;
    let blocks: u64 = if size % 512 == 0 {
        whole
    } else {
        whole + 1
    };
    Attr {
        is_dir,
        size,
        blocks,
        perm: if is_dir {
            0o755
        } else {
            0o644
        },
    }
}

/// What a request for bytes of unknown length is answered: their number if that
/// was asked for, the bytes if they fit, an error if not.
#[derive(Clone, Copy, Debug, PartialEq, Eq, Structural)]
pub enum XattrReply {
    Size(u32),
    Data,
    TooSmall,
}

/// What is answered where there are `len` bytes and room for `size`.
pub open spec fn reply_of(len: u32, size: u32) -> XattrReply {
    if size == 0 {
        XattrReply::Size(len)
    } else if len <= size {
        XattrReply::Data
    } else {
        XattrReply::TooSmall
    }
}

/// See `XattrReply`.
pub fn xattr_reply(len: u32, size: u32) -> (r: XattrReply)
    ensures
        r == reply_of(len, size),
{
    if size == 0 {
        XattrReply::Size(len)
    } else if len <= size {
        XattrReply::Data
    } else {
        XattrReply::TooSmall
    }
}

/// A line of a directory as the kernel gets it.
#[derive(Debug)]
pub struct Line<S = String> {
    pub ino: u64,
    pub is_dir: bool,
    pub name: S,
}

impl View for Line {
    type V = Line<Seq<char>>;

    open spec fn view(&self) -> Line<Seq<char>> {
        Line { ino: self.ino, is_dir: self.is_dir, name: self.name@ }
    }
}

/// Lines by their characters.
pub open spec fn lines_view(v: Seq<Line>) -> Seq<Line<Seq<char>>> {
    Seq::new(v.len(), |i: int| v[i]@)
}

/// The table after all files of a listing that are really in `dir` have a number.
pub open spec fn all_numbered(
    t: TableView,
    dir: Seq<char>,
    listing: Seq<InfoView>,
) -> TableView
    decreases listing.len(),
{
    if listing.len() == 0 {
        t
    } else {
        let before = all_numbered(t, dir, listing.drop_last());
        let child = child_of(dir, listing.last().name);
        if dir_of(child) == dir {
            numbered(before, child)
        } else {
            before
        }
    }
}

/// The lines of a directory: itself, the one above, and the files of the listing
/// that are really in it.
pub open spec fn dir_lines(
    t: TableView,
    ino: u64,
    dir: Seq<char>,
    listing: Seq<InfoView>,
) -> Seq<Line<Seq<char>>>
    decreases listing.len(),
{
    if listing.len() == 0 {
        seq![
            Line { ino, is_dir: true, name: "."@ },
            Line { ino: ROOT, is_dir: true, name: ".."@ },
        ]
    } else {
        let before = dir_lines(t, ino, dir, listing.drop_last());
        let child = child_of(dir, listing.last().name);
        if dir_of(child) == dir {
            let now = all_numbered(t, dir, listing);
            before.push(
                Line {
                    ino: now.inos[child],
                    is_dir: listing.last().kind == FileType::Directory,
                    name: listing.last().name,
                },
            )
        } else {
            before
        }
    }
}

proof fn lemma_all_numbered(t: TableView, dir: Seq<char>, listing: Seq<InfoView>)
    ensures
        t.next_ino + listing.len() <= u64::MAX ==> t.next_ino <= all_numbered(
            t,
            dir,
            listing,
        ).next_ino <= t.next_ino + listing.len(),
    decreases listing.len(),
{
    if listing.len() > 0 {
        lemma_all_numbered(t, dir, listing.drop_last());
    }
}

impl InodeTable {
    /// The lines of a directory. See `dir_lines`.
    pub fn readdir(&mut self, ino: u64, dir: &RelPath, listing: &[FileInfo]) -> (r: Vec<Line>)
        requires
            is_table(old(self)@),
            old(self)@.next_ino + listing@.len() <= u64::MAX,
        ensures
            final(self)@ == all_numbered(old(self)@, dir@, listing_view(listing@)),
            is_table(final(self)@),
            lines_view(r@) == dir_lines(old(self)@, ino, dir@, listing_view(listing@)),
    {
        let ghost before = self@;
        let ghost lv = listing_view(listing@);
        let mut lines: Vec<Line> = Vec::new();
        lines.push(Line { ino, is_dir: true, name: ".".to_owned() });
        lines.push(Line { ino: ROOT, is_dir: true, name: "..".to_owned() });
        let mut i: usize = 0;
        proof {
            assert(lines_view(lines@) =~= dir_lines(before, ino, dir@, lv.take(0)));
        }
        while i < listing.len()
            invariant
                i <= listing@.len(),
                lv == listing_view(listing@),
                is_table(self@),
                before.next_ino + listing@.len() <= u64::MAX,
                self@ == all_numbered(before, dir@, lv.take(i as int)),
                lines_view(lines@) == dir_lines(before, ino, dir@, lv.take(i as int)),
            decreases listing@.len() - i,
        {
            let ghost so_far = lines_view(lines@);
            proof {
                let now = lv.take(i + 1);
                assert(now.drop_last() =~= lv.take(i as int));
                assert(now.last() == listing@[i as int]@);
                lemma_all_numbered(before, dir@, lv.take(i as int));
            }
            let child = dir.join(listing[i].name.as_str());
            if child.parent_or_root() == *dir {
                let number: u64 = self.ino(&child);
                let is_dir = listing[i].kind == FileType::Directory;
                lines.push(Line { ino: number, is_dir, name: listing[i].name.clone() });
                proof {
                    assert(lines_view(lines@) =~= so_far.push(
                        Line { ino: number, is_dir, name: listing@[i as int].name@ },
                    ));
                }
            }
            i += 1;
        }
        proof {
            assert(lv.take(i as int) =~= lv);
        }
        lines
    }
}

/// Every file that is asked for gets a number that no other has, and keeps it.
pub proof fn law_every_file_has_its_own_number(t: TableView, p: Seq<char>, q: Seq<char>)
    requires
        is_table(t),
        t.next_ino < u64::MAX,
    ensures
        ({
            let n = numbered(t, p);
            &&& is_table(n)
            &&& n.inos.dom().contains(p)
            &&& path_of(n, n.inos[p]) == Some(p)
            &&& t.inos.dom().contains(q) ==> n.inos.dom().contains(q) && n.inos[q] == t.inos[q]
            &&& n.inos.dom().contains(q) && q != p ==> t.inos.dom().contains(q) && n.inos[q]
                != n.inos[p]
            &&& !t.inos.dom().contains(p) ==> !t.paths.dom().contains(n.inos[p])
            &&& forall|i: u64|
                #![trigger t.paths.dom().contains(i)]
                t.paths.dom().contains(i) ==> path_of(n, i) == path_of(t, i)
        }),
{
}

/// Each time that the kernel forgets a number, so much less is it looked up; what is
/// known of other numbers stays as it was.
pub proof fn law_forgetting_a_number(t: TableView, ino: u64, n: u64, other: u64)
    requires
        is_table(t),
        other != ino,
    ensures
        ino != ROOT && n < lookups_of(t, ino) ==> lookups_of(forgotten(t, ino, n), ino) == lookups_of(
            t,
            ino,
        ) - n && path_of(forgotten(t, ino, n), ino) == path_of(t, ino),
        ino != ROOT && t.lookups.dom().contains(ino) && lookups_of(t, ino) <= n ==> path_of(
            forgotten(t, ino, n),
            ino,
        ) is None && lookups_of(forgotten(t, ino, n), ino) == 0,
        ino == ROOT ==> forgotten(t, ino, n) == t,
        path_of(forgotten(t, ino, n), other) == path_of(t, other),
        lookups_of(forgotten(t, ino, n), other) == lookups_of(t, other),
        is_table(forgotten(t, ino, n)),
{
}

/// A name in a directory leads to a file of that directory, or nowhere.
pub proof fn law_a_name_leads_into_its_directory(t: TableView, parent: u64, name: Seq<char>)
    ensures
        child_path(t, parent, name) matches Some(p) ==> path_of(t, parent) == Some(dir_of(p)) && p
            == child_of(dir_of(p), name),
        path_of(t, parent) matches Some(dir) ==> crate::path::is_path(dir) && crate::path::is_step(name)
            && !name.contains('/') ==> child_path(t, parent, name) == Some(child_of(dir, name)),
        path_of(t, parent) is None ==> child_path(t, parent, name) is None,
{
    if let Some(dir) = path_of(t, parent) {
        if crate::path::is_path(dir) && crate::path::is_step(name) && !name.contains('/') {
            crate::path::law_child_of_a_step(dir, name);
        }
    }
}

/// A file takes the fewest blocks that hold it.
pub proof fn law_the_blocks_hold_the_file(size: u64)
    ensures
        512 * blocks_of(size) >= size,
        size > 0 ==> 512 * (blocks_of(size) - 1) < size,
        size == 0 ==> blocks_of(size) == 0,
{
}

proof fn lemma_numbers_stay(t: TableView, dir: Seq<char>, listing: Seq<InfoView>)
    requires
        is_table(t),
        t.next_ino + listing.len() <= u64::MAX,
    ensures
        is_table(all_numbered(t, dir, listing)),
        t.next_ino <= all_numbered(t, dir, listing).next_ino <= t.next_ino + listing.len(),
        forall|q: Seq<char>|
            #![trigger t.inos.dom().contains(q)]
            t.inos.dom().contains(q) ==> all_numbered(t, dir, listing).inos.dom().contains(q)
                && all_numbered(t, dir, listing).inos[q] == t.inos[q],
    decreases listing.len(),
{
    if listing.len() > 0 {
        lemma_numbers_stay(t, dir, listing.drop_last());
    }
}

/// A directory begins with itself and the one above. Then comes a line for each
/// file of the listing that is really in it, in order: under its name, as a directory
/// if it is one, and with the number that stands for the file.
pub proof fn law_the_lines_of_a_directory(
    t: TableView,
    ino: u64,
    dir: Seq<char>,
    listing: Seq<InfoView>,
    e: InfoView,
)
    requires
        is_table(t),
        t.next_ino + listing.len() < u64::MAX,
    ensures
        ({
            let before = dir_lines(t, ino, dir, listing);
            let after = dir_lines(t, ino, dir, listing.push(e));
            let end = all_numbered(t, dir, listing.push(e));
            if dir_of(child_of(dir, e.name)) == dir {
                &&& after.len() == before.len() + 1
                &&& after.drop_last() == before
                &&& after.last().name == e.name
                &&& after.last().is_dir == (e.kind == FileType::Directory)
                &&& path_of(end, after.last().ino) == Some(child_of(dir, e.name))
            } else {
                after == before
            }
        }),
        ({
            let first = dir_lines(t, ino, dir, Seq::empty());
            &&& first.len() == 2
            &&& first[0].name == "."@ && first[0].ino == ino && first[0].is_dir
            &&& first[1].name == ".."@ && first[1].is_dir
        }),
{
    assert(listing.push(e).drop_last() =~= listing);
    lemma_numbers_stay(t, dir, listing);
    let before = all_numbered(t, dir, listing);
    law_every_file_has_its_own_number(before, child_of(dir, e.name), child_of(dir, e.name));
    assert(dir_lines(t, ino, dir, listing.push(e)).drop_last() =~= dir_lines(t, ino, dir, listing)
        || dir_of(child_of(dir, e.name)) != dir);
}

/// The kernel is told of a directory that it is one, and of both how large they are;
/// whoever owns them may write, the others may read.
pub proof fn law_what_the_kernel_is_told(is_dir: bool, size: u64)
    ensures
        attr_of(is_dir, size).is_dir == is_dir,
        attr_of(is_dir, size).size == size,
        512 * attr_of(is_dir, size).blocks >= size,
        size > 0 ==> 512 * (attr_of(is_dir, size).blocks - 1) < size,
        attr_of(is_dir, size).perm == if is_dir {
            0o755u16
        } else {
            0o644u16
        },
{
}

/// Bytes are handed out only where there is room for all of them; who asks with no
/// room is told how many there are.
pub proof fn law_bytes_are_handed_out_where_there_is_room(len: u32, size: u32)
    ensures
        reply_of(len, size) matches XattrReply::Size(n) ==> size == 0 && n == len,
        size == 0 ==> reply_of(len, size) is Size,
        size > 0 ==> (reply_of(len, size) is Data <==> len <= size),
        size > 0 ==> (reply_of(len, size) is TooSmall <==> len > size),
{
}

} // verus!
