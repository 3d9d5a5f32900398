//! How a file is brought here from the server: whether there is something to
//! fetch, where from, and what the ledger says after it has come.
use crate::delta::{rsync_signature, signature, BLOCK_SIZE, HASH_SIZE};
use crate::journal::lease;
use crate::ledger::{observed, unobserved, with_write, Ledger, LedgerView, Write};
use crate::model::{seen_in, whole_secs, Fate, Moment, Observation};
use crate::path::{child_of, dir_of, RelPath};
use crate::scheduler::DownloadStatus;
use crate::sdk::{Error, FileInfo, FileType};
use crate::state::fates_view;
use crate::table::PathMap;
use crate::text::{decimal, decimal_of};
use crate::view::{listing_view, shown, InfoView};
use vstd::prelude::*;

verus! {

/// How far the question has come whether a file has to be fetched.
#[derive(Debug)]
#[allow(inconsistent_fields)]
pub enum Quest<P = RelPath> {
    /// The server is being asked what it has.
    Seen { path: P, observed: Option<Observation> },
    /// The server cannot be reached: it is being seen whether there is a local
    /// file.
    Unreachable { error: Error },
    /// The local file is current, if there is one.
    Current { path: P },
}

impl View for Quest {
    type V = Quest<Seq<char>>;

    open spec fn view(&self) -> Quest<Seq<char>> {
        match self {
            Quest::Seen { path, observed } => Quest::Seen { path: path@, observed: *observed },
            Quest::Unreachable { error } => Quest::Unreachable { error: *error },
            Quest::Current { path } => Quest::Current { path: path@ },
        }
    }
}

/// What has to be asked.
#[derive(Debug)]
pub enum Ask<P = RelPath> {
    /// Ask the server what it has at a path.
    Stat(P),
    /// See whether there is a local file.
    IsFile(P),
}

impl View for Ask {
    type V = Ask<Seq<char>>;

    open spec fn view(&self) -> Ask<Seq<char>> {
        match self {
            Ask::Stat(p) => Ask::Stat(p@),
            Ask::IsFile(p) => Ask::IsFile(p@),
        }
    }
}

/// What the answer is.
#[derive(Debug)]
pub enum Told {
    Stat(Result<FileInfo, Error>),
    IsFile(bool),
}

/// What follows: a question, nothing because the local file can be used, a
/// download, or an error.
#[derive(Debug)]
pub enum Chase {
    Do(Quest, Ask),
    Ready,
    Begin(RelPath),
    Failed(Error),
}

/// The same by the characters of the paths.
pub enum ChaseView {
    Do(Quest<Seq<char>>, Ask<Seq<char>>),
    Ready,
    Begin(Seq<char>),
    Failed(Error),
}

impl View for Chase {
    type V = ChaseView;

    open spec fn view(&self) -> ChaseView {
        match self {
            Chase::Do(q, a) => ChaseView::Do(q@, a@),
            Chase::Ready => ChaseView::Ready,
            Chase::Begin(p) => ChaseView::Begin(p@),
            Chase::Failed(e) => ChaseView::Failed(*e),
        }
    }
}

/// The answer is one to the question.
pub open spec fn is_told(quest: Quest<Seq<char>>, told: Told) -> bool {
    match quest {
        Quest::Seen { .. } => told is Stat,
        Quest::Unreachable { .. } => told is IsFile,
        Quest::Current { .. } => told is IsFile,
    }
}

/// The version of the server is known: if it is the one last seen, the local
/// file can be used, if there is one.
pub open spec fn weighed(
    path: Seq<char>,
    seen: Option<Observation>,
    current: Observation,
) -> ChaseView {
    if seen == Some(current) {
        ChaseView::Do(Quest::Current { path }, Ask::IsFile(path))
    } else {
        ChaseView::Begin(path)
    }
}

/// Where the server has the file that is to be at a path: where it comes from if
/// it is to arrive there, else at the path itself.
pub open spec fn source_of(
    fates: Map<Seq<char>, Fate<Seq<char>>>,
    path: Seq<char>,
) -> Seq<char> {
    if fates.dom().contains(path) && fates[path] is Arrived {
        fates[path]->from
    } else {
        path
    }
}

/// The first step to a file. A file that holds edits, or that is being fetched,
/// can be used; one that is removed here is not there.
pub open spec fn first_chase(
    l: LedgerView,
    fates: Map<Seq<char>, Fate<Seq<char>>>,
    running: bool,
    path: Seq<char>,
    current: Option<Observation>,
) -> ChaseView {
    let seen = lease(l.observations, path);
    if running || l.dirty.contains(path) {
        ChaseView::Ready
    } else if fates.dom().contains(path) && fates[path] is Gone {
        ChaseView::Failed(Error::NotFound)
    } else {
        match current {
            Some(c) => weighed(path, seen, c),
            None => ChaseView::Do(
                Quest::Seen { path, observed: seen },
                Ask::Stat(source_of(fates, path)),
            ),
        }
    }
}

/// What follows an answer. With `lenient`, a local file is used where the server
/// cannot be reached.
pub open spec fn next_chase(quest: Quest<Seq<char>>, told: Told, lenient: bool) -> ChaseView
    recommends
        is_told(quest, told),
{
    match quest {
        Quest::Seen { path, observed } => match told->Stat_0 {
            Ok(info) => weighed(path, observed, seen_in(info)),
            Err(Error::NotFound) => ChaseView::Failed(Error::NotFound),
            Err(Error::PermissionDenied) => ChaseView::Failed(Error::PermissionDenied),
            Err(error) => if lenient {
                ChaseView::Do(Quest::Unreachable { error }, Ask::IsFile(path))
            } else {
                ChaseView::Failed(error)
            },
        },
        Quest::Unreachable { error } => if told->IsFile_0 {
            ChaseView::Ready
        } else {
            ChaseView::Failed(error)
        },
        Quest::Current { path } => if told->IsFile_0 {
            ChaseView::Ready
        } else {
            ChaseView::Begin(path)
        },
    }
}

fn weigh_version(path: &RelPath, seen: Option<Observation>, current: Observation) -> (r: Chase)
    ensures
        r@ == weighed(path@, seen, current),
{
    let known = match seen {
        Some(o) => o == current,
        None => false,
    };
    if known {
        Chase::Do(Quest::Current { path: path.clone() }, Ask::IsFile(path.clone()))
    } else {
        Chase::Begin(path.clone())
    }
}

/// See `source_of`.
pub fn download_from(fates: &PathMap<Fate>, path: &RelPath) -> (r: RelPath)
    ensures
        r@ == source_of(fates_view(fates@), path@),
{
    match fates.get(path) {
        Some(Fate::Arrived { from, .. }) => from.clone(),
        _ => path.clone(),
    }
}

/// Sets out for a file. `current` is the version that the server is known to
/// have, if a listing has just shown it.
pub fn fetch_start(
    ledger: &Ledger,
    fates: &PathMap<Fate>,
    running: bool,
    path: &RelPath,
    current: Option<Observation>,
) -> (r: Chase)
    ensures
        r@ == first_chase(ledger@, fates_view(fates@), running, path@, current),
{
    if running || ledger.dirty.contains(path) {
        return Chase::Ready;
    }
    let seen = match ledger.observations.get(path) {
        Some(o) => Some(*o),
        None => None,
    };
    let gone = match fates.get(path) {
        Some(Fate::Gone) => true,
        _ => false,
    };
    if gone {
        return Chase::Failed(Error::NotFound);
    }
    match current {
        Some(c) => weigh_version(path, seen, c),
        None => Chase::Do(
            Quest::Seen { path: path.clone(), observed: seen },
            Ask::Stat(download_from(fates, path)),
        ),
    }
}

/// Goes on after an answer. See `next_chase`.
pub fn fetch_next(quest: Quest, told: Told, lenient: bool) -> (r: Chase)
    requires
        is_told(quest@, told),
    ensures
        r@ == next_chase(quest@, told, lenient),
{
    match quest {
        Quest::Seen { path, observed } => match told {
            Told::Stat(Ok(info)) => weigh_version(&path, observed, Observation::of(&info)),
            Told::Stat(Err(Error::NotFound)) => Chase::Failed(Error::NotFound),
            Told::Stat(Err(Error::PermissionDenied)) => Chase::Failed(Error::PermissionDenied),
            Told::Stat(Err(error)) => {
                if lenient {
                    Chase::Do(Quest::Unreachable { error }, Ask::IsFile(path))
                } else {
                    Chase::Failed(error)
                }
            },
            Told::IsFile(_) => Chase::Ready,
        },
        Quest::Unreachable { error } => match told {
            Told::IsFile(true) => Chase::Ready,
            _ => Chase::Failed(error),
        },
        Quest::Current { path } => match told {
            Told::IsFile(true) => Chase::Ready,
            _ => Chase::Begin(path),
        },
    }
}

/// A download: how many bytes have come, and how it stands.
#[derive(Clone, Copy, Debug, PartialEq, Eq, Structural)]
pub struct Download {
    pub written: u64,
    pub status: DownloadStatus,
}

/// Whether bytes can be read from a download.
#[derive(Clone, Copy, Debug, PartialEq, Eq, Structural)]
pub enum Readiness {
    /// They have come, or will not come because the file ends before.
    Ready,
    /// They have not come yet.
    Wait,
    /// They will never come.
    Failed,
}

/// Whether the bytes up to `end` can be read from a download of which so many have
/// come.
pub open spec fn readable(status: DownloadStatus, written: u64, end: int) -> Readiness {
    match status {
        DownloadStatus::Failed => Readiness::Failed,
        DownloadStatus::Done => Readiness::Ready,
        DownloadStatus::Running => if written >= end {
            Readiness::Ready
        } else {
            Readiness::Wait
        },
    }
}

/// Whether all of a download can be read.
pub open spec fn whole(status: DownloadStatus) -> Readiness {
    match status {
        DownloadStatus::Failed => Readiness::Failed,
        DownloadStatus::Done => Readiness::Ready,
        DownloadStatus::Running => Readiness::Wait,
    }
}

impl Download {
    /// A download that begins.
    pub fn new() -> (r: Download)
        ensures
            r == (Download { written: 0, status: DownloadStatus::Running }),
    {
        Download { written: 0, status: DownloadStatus::Running }
    }

    /// Some more bytes have come.
    pub fn grow(&mut self, n: u64)
        requires
            old(self).written + n <= u64::MAX,
        ensures
            *final(self) == (Download { written: (old(self).written + n) as u64, ..*old(self) }),
    {
        self.written = self.written + n;
    }

    /// The download has ended.
    pub fn end(&mut self, status: DownloadStatus)
        ensures
            *final(self) == (Download { status, ..*old(self) }),
    {
        self.status = status;
    }

    /// Whether `size` bytes from `offset` on can be read.
    pub fn read(&self, offset: u64, size: u32) -> (r: Readiness)
        requires
            offset + size <= u64::MAX,
        ensures
            r == readable(self.status, self.written, offset + size),
    {
        let end: u64 = offset + size as u64;
        match self.status {
            DownloadStatus::Failed => Readiness::Failed,
            DownloadStatus::Done => Readiness::Ready,
            DownloadStatus::Running => {
                if self.written >= end {
                    Readiness::Ready
                } else {
                    Readiness::Wait
                }
            },
        }
    }

    /// Whether the whole file has come.
    pub fn done(&self) -> (r: Readiness)
        ensures
            r == whole(self.status),
    {
        match self.status {
            DownloadStatus::Failed => Readiness::Failed,
            DownloadStatus::Done => Readiness::Ready,
            DownloadStatus::Running => Readiness::Wait,
        }
    }
}

/// Reads of a file are served from its download while that runs, unless the file
/// has been edited: an edited file is read as it is here.
pub open spec fn is_served(l: LedgerView, running: bool, p: Seq<char>) -> bool {
    running && !l.dirty.contains(p)
}

/// What becomes of a download that has ended.
#[derive(Clone, Copy, Debug, PartialEq, Eq, Structural)]
pub enum Landing {
    /// It gets the name of the file.
    Rename,
    /// It is dropped: the file has been edited meanwhile.
    Superseded,
    /// It is dropped: not all of it has come.
    Failed,
}

/// How a download has ended once it got the name of the file, or could not get it.
pub open spec fn landed(landing: Landing, renamed: bool) -> DownloadStatus {
    if landing == Landing::Rename && renamed {
        DownloadStatus::Done
    } else {
        DownloadStatus::Failed
    }
}

/// The file can be used after that.
pub open spec fn is_usable_after(landing: Landing, renamed: bool) -> bool {
    landing == Landing::Superseded || (landing == Landing::Rename && renamed)
}

/// What becomes of a download, of which everything has come or not.
pub open spec fn landing_of(l: LedgerView, p: Seq<char>, came: bool) -> Landing {
    if !came {
        Landing::Failed
    } else if l.dirty.contains(p) {
        Landing::Superseded
    } else {
        Landing::Rename
    }
}

impl Landing {
    /// How the download has ended once it got the name of the file, or could not
    /// get it. One that was dropped has failed.
    pub fn status(self, renamed: bool) -> (r: DownloadStatus)
        ensures
            r == landed(self, renamed),
    {
        if self == Landing::Rename && renamed {
            DownloadStatus::Done
        } else {
            DownloadStatus::Failed
        }
    }

    /// Whether the file can be used then: it has come, or it has been edited here.
    pub fn usable(self, renamed: bool) -> (r: bool)
        ensures
            r == is_usable_after(self, renamed),
    {
        match self {
            Landing::Rename => renamed,
            Landing::Superseded => true,
            Landing::Failed => false,
        }
    }
}

/// The ledger after a file has been brought here and has got its name. If it has
/// been edited meanwhile, nothing changes.
pub open spec fn cached(
    l: LedgerView,
    p: Seq<char>,
    size: u64,
    mtime: Option<Moment>,
    data: Option<Seq<u8>>,
) -> LedgerView {
    if l.dirty.contains(p) {
        l
    } else {
        let seen = observed(l, p, Observation { size, time: whole_secs(mtime) });
        match data {
            Some(d) => with_write(seen, Write::Sign(p, rsync_signature(d, BLOCK_SIZE, HASH_SIZE))),
            None => seen,
        }
    }
}

/// The ledger after a file has been brought here and has got its name, by a client
/// that asks the server once more what it has. If the file has been edited
/// meanwhile, nothing changes.
pub open spec fn fetched(l: LedgerView, p: Seq<char>, seen: Option<Observation>) -> LedgerView {
    if l.dirty.contains(p) {
        l
    } else {
        match seen {
            Some(o) => observed(l, p, o),
            None => unobserved(l, p),
        }
    }
}

impl Ledger {
    /// Whether reads of a file are served from its download, which is running or
    /// not.
    pub fn serves(&self, running: bool, path: &RelPath) -> (r: bool)
        ensures
            r == is_served(self@, running, path@),
    {
        running && !self.dirty.contains(path)
    }

    /// Looks at a file once more when its download has ended: what becomes of what
    /// has come.
    pub fn landing(&self, path: &RelPath, came: bool) -> (r: Landing)
        ensures
            r == landing_of(self@, path@, came),
    {
        if !came {
            Landing::Failed
        } else if self.dirty.contains(path) {
            Landing::Superseded
        } else {
            Landing::Rename
        }
    }

    /// A file has come whole and has got its name. `data` is what the file holds,
    /// if it can be read. Whether that is so still: a file that has been edited
    /// meanwhile holds the edits.
    pub fn cached(&mut self, path: &RelPath, size: u64, mtime: Option<Moment>, data: Option<&[u8]>) -> (r:
        bool)
        ensures
            r == !old(self)@.dirty.contains(path@),
            final(self)@ == cached(
                old(self)@,
                path@,
                size,
                mtime,
                match data {
                    Some(d) => Some(d@),
                    None => None,
                },
            ),
    {
        if self.dirty.contains(path) {
            return false;
        }
        self.observe(path, Observation::new(size, mtime));
        match data {
            Some(d) => {
                self.sign_set(path, signature(d));
            },
            None => {},
        }
        true
    }

    /// A file has come whole and has got its name. `seen` is what the server has
    /// now, if it can be told. Whether that is so still: a file that has been
    /// edited meanwhile holds the edits.
    pub fn fetched(&mut self, path: &RelPath, seen: Option<Observation>) -> (r: bool)
        ensures
            r == !old(self)@.dirty.contains(path@),
            final(self)@ == fetched(old(self)@, path@, seen),
    {
        if self.dirty.contains(path) {
            return false;
        }
        match seen {
            Some(o) => {
                self.observe(path, o);
            },
            None => {
                self.unobserve(path);
            },
        }
        true
    }
}

/// What is put behind the name of a file while it is being fetched.
pub fn part_suffix(n: u64) -> (r: String)
    ensures
        r@ == "."@ + decimal_of(n as nat) + ".part"@,
{
    let mut out = ".".to_owned();
    let digits = decimal(n);
    out.append(digits.as_str());
    out.append(".part");
    out
}

/// The directories of a listing, in order: those that are really in `dir`.
pub open spec fn dirs_of(dir: Seq<char>, listing: Seq<InfoView>) -> Seq<Seq<char>>
    decreases listing.len(),
{
    if listing.len() == 0 {
        Seq::empty()
    } else {
        let before = dirs_of(dir, listing.drop_last());
        let child = child_of(dir, listing.last().name);
        if dir_of(child) == dir && listing.last().kind == FileType::Directory {
            before.push(child)
        } else {
            before
        }
    }
}

/// The files of a listing with the versions that it shows, in order: those that
/// are really in `dir`.
pub open spec fn files_of(
    dir: Seq<char>,
    listing: Seq<InfoView>,
) -> Seq<(Seq<char>, Observation)>
    decreases listing.len(),
{
    if listing.len() == 0 {
        Seq::empty()
    } else {
        let before = files_of(dir, listing.drop_last());
        let child = child_of(dir, listing.last().name);
        if dir_of(child) == dir && listing.last().kind == FileType::File {
            before.push((child, shown(listing.last())))
        } else {
            before
        }
    }
}

/// Paths with versions, by the characters of the paths.
pub open spec fn hints_view(v: Seq<(RelPath, Observation)>) -> Seq<(Seq<char>, Observation)> {
    Seq::new(v.len(), |i: int| (v[i].0@, v[i].1))
}

/// A walk through all that lies below a path, to bring it here: the directories
/// that have still to be listed, the next one last.
pub struct Sweep {
    pub root: RelPath,
    pub dirs: Vec<RelPath>,
}

/// The same by the characters of the paths.
#[verifier::ext_equal]
pub struct SweepView {
    pub root: Seq<char>,
    pub dirs: Seq<Seq<char>>,
}

impl View for Sweep {
    type V = SweepView;

    open spec fn view(&self) -> SweepView {
        SweepView { root: self.root@, dirs: crate::model::paths_view(self.dirs@) }
    }
}

/// What a listing brings: files to fetch unless they are current, the root itself
/// if it cannot be listed, for then it is a file, or nothing.
#[derive(Debug)]
pub enum Catch {
    Files(Vec<(RelPath, Observation)>),
    Root,
    Nothing,
}

impl Sweep {
    /// A walk through all that lies below `root`.
    pub fn new(root: RelPath) -> (r: Sweep)
        ensures
            r@ == (SweepView { root: root@, dirs: seq![root@] }),
    {
        let mut dirs: Vec<RelPath> = Vec::new();
        dirs.push(root.clone());
        let r = Sweep { root, dirs };
        proof {
            assert(r@.dirs =~= seq![root@]);
        }
        r
    }

    /// The directory to be listed next.
    pub fn next(&mut self) -> (r: Option<RelPath>)
        ensures
            old(self)@.dirs.len() == 0 ==> r is None && final(self)@ == old(self)@,
            old(self)@.dirs.len() > 0 ==> {
                &&& r is Some
                &&& r->0@ == old(self)@.dirs.last()
                &&& final(self)@ == (SweepView {
                    dirs: old(self)@.dirs.drop_last(),
                    ..old(self)@
                })
            },
    {
        let ghost before = self@;
        let r = self.dirs.pop();
        proof {
            if before.dirs.len() > 0 {
                assert(self@.dirs =~= before.dirs.drop_last());
            } else {
                assert(self@ =~= before);
            }
        }
        r
    }

    /// Takes in the listing of a directory, if it could be listed.
    pub fn listed(&mut self, dir: &RelPath, listing: Option<&[FileInfo]>) -> (r: Catch)
        ensures
            match listing {
                Some(entries) => {
                    &&& r matches Catch::Files(files) && hints_view(files@) == files_of(
                        dir@,
                        listing_view(entries@),
                    )
                    &&& final(self)@ == (SweepView {
                        dirs: old(self)@.dirs + dirs_of(dir@, listing_view(entries@)),
                        ..old(self)@
                    })
                },
                None => if dir@ == old(self)@.root {
                    r is Root && final(self)@ == (SweepView { dirs: Seq::empty(), ..old(self)@ })
                } else {
                    r is Nothing && final(self)@ == old(self)@
                },
            },
    {
        let entries = match listing {
            Some(entries) => entries,
            None => {
                if *dir == self.root {
                    self.dirs = Vec::new();
                    proof {
                        assert(self@.dirs =~= Seq::empty());
                    }
                    return Catch::Root;
                }
                return Catch::Nothing;
            },
        };
        let ghost before = self@;
        let ghost lv = listing_view(entries@);
        let mut files: Vec<(RelPath, Observation)> = Vec::new();
        let mut i: usize = 0;
        proof {
            assert(hints_view(files@) =~= Seq::empty());
            assert(before.dirs + dirs_of(dir@, lv.take(0)) =~= before.dirs);
        }
        while i < entries.len()
            invariant
                i <= entries@.len(),
                lv == listing_view(entries@),
                self@.root == before.root,
                self@.dirs == before.dirs + dirs_of(dir@, lv.take(i as int)),
                hints_view(files@) == files_of(dir@, lv.take(i as int)),
            decreases entries@.len() - i,
        {
            let ghost dirs_then = self@.dirs;
            let ghost files_then = hints_view(files@);
            proof {
                let now = lv.take(i + 1);
                assert(now.drop_last() =~= lv.take(i as int));
                assert(now.last() == entries@[i as int]@);
            }
            let child = dir.join(entries[i].name.as_str());
            if child.parent_or_root() == *dir {
                let ghost cv = child@;
                match entries[i].kind {
                    FileType::Directory => {
                        self.dirs.push(child);
                        proof {
                            assert(self@.dirs =~= dirs_then.push(cv));
                            assert(self@.dirs =~= before.dirs + dirs_of(dir@, lv.take(i + 1)));
                        }
                    },
                    FileType::File => {
                        let hint = Observation::of(&entries[i]);
                        files.push((child, hint));
                        proof {
                            assert(hints_view(files@) =~= files_then.push((cv, hint)));
                        }
                    },
                }
            }
            i += 1;
        }
        proof {
            assert(lv.take(i as int) =~= lv);
        }
        Catch::Files(files)
    }
}

/// A file that holds edits is never fetched over: it can always be used as it is.
pub proof fn law_an_edited_file_is_never_fetched(
    l: LedgerView,
    fates: Map<Seq<char>, Fate<Seq<char>>>,
    running: bool,
    path: Seq<char>,
    current: Option<Observation>,
)
    requires
        l.dirty.contains(path),
    ensures
        first_chase(l, fates, running, path, current) == ChaseView::Ready,
{
}

/// An edit that is made while its file is being fetched is not lost: what has come
/// is dropped, and if it has its name already, the edit keeps its mark, and all
/// that is known of the file stays as it was. Reads see the edit at once.
pub proof fn law_an_edit_during_a_download_is_kept(
    l: LedgerView,
    path: Seq<char>,
    came: bool,
    size: u64,
    mtime: Option<Moment>,
    data: Option<Seq<u8>>,
    seen: Option<Observation>,
)
    requires
        l.dirty.contains(path),
    ensures
        landing_of(l, path, came) != Landing::Rename,
        cached(l, path, size, mtime, data) == l,
        fetched(l, path, seen) == l,
        !is_served(l, true, path),
{
}

/// Bringing a file here never marks a file as edited, nor takes a mark away.
pub proof fn law_a_download_touches_no_mark(
    l: LedgerView,
    path: Seq<char>,
    size: u64,
    mtime: Option<Moment>,
    data: Option<Seq<u8>>,
    seen: Option<Observation>,
)
    ensures
        cached(l, path, size, mtime, data).dirty == l.dirty,
        fetched(l, path, seen).dirty == l.dirty,
{
}

/// A file that is being fetched is not fetched a second time at the same time.
pub proof fn law_a_file_is_fetched_once_at_a_time(
    l: LedgerView,
    fates: Map<Seq<char>, Fate<Seq<char>>>,
    path: Seq<char>,
    current: Option<Observation>,
)
    ensures
        first_chase(l, fates, true, path, current) == ChaseView::Ready,
{
}

/// A file that has been removed here stops being fetched, and one that has been
/// renamed comes from where the server still has it.
pub proof fn law_fates_decide_what_is_fetched(
    l: LedgerView,
    fates: Map<Seq<char>, Fate<Seq<char>>>,
    path: Seq<char>,
)
    requires
        !l.dirty.contains(path),
        fates.dom().contains(path),
    ensures
        fates[path] is Gone ==> first_chase(l, fates, false, path, None) == ChaseView::Failed(
            Error::NotFound,
        ),
        fates[path] matches Fate::Arrived { from, was } ==> first_chase(
            l,
            fates,
            false,
            path,
            None,
        ) == ChaseView::Do(
            Quest::Seen { path, observed: lease(l.observations, path) },
            Ask::Stat(from),
        ),
{
}

/// Once a file has been fetched, it is current as long as the server has the
/// version that came, so that it is not fetched again.
pub proof fn law_a_fetched_file_is_current(
    l: LedgerView,
    fates: Map<Seq<char>, Fate<Seq<char>>>,
    path: Seq<char>,
    size: u64,
    mtime: Option<Moment>,
    data: Option<Seq<u8>>,
)
    requires
        !fates.dom().contains(path),
        !l.dirty.contains(path),
    ensures
        landing_of(l, path, true) == Landing::Rename,
        ({
            let after = cached(l, path, size, mtime, data);
            let now = Observation { size, time: whole_secs(mtime) };
            &&& !after.dirty.contains(path)
            &&& crate::view::is_current(after, path, now, true)
            &&& first_chase(after, fates, false, path, Some(now)) == ChaseView::Do(
                Quest::Current { path },
                Ask::IsFile(path),
            )
            &&& next_chase(Quest::Current { path }, Told::IsFile(true), true) == ChaseView::Ready
        }),
{
}

/// Where the server cannot be reached, a file that is here can be used, and one
/// that is not fails with what the server's absence was told by. What the server
/// refuses is not made up for by a file that is here.
pub proof fn law_a_cached_file_opens_offline(
    path: Seq<char>,
    observed: Option<Observation>,
    error: Error,
)
    ensures
        ({
            let asked = next_chase(
                Quest::Seen { path, observed },
                Told::Stat(Err(error)),
                true,
            );
            if error is NotFound || error is PermissionDenied {
                asked == ChaseView::Failed(error)
            } else {
                &&& asked == ChaseView::Do(Quest::Unreachable { error }, Ask::IsFile(path))
                &&& next_chase(Quest::Unreachable { error }, Told::IsFile(true), true)
                    == ChaseView::Ready
                &&& next_chase(Quest::Unreachable { error }, Told::IsFile(false), true)
                    == ChaseView::Failed(error)
            }
        }),
{
}

/// A file can be used without asking anybody exactly if it holds edits or is being
/// fetched, and it is refused exactly if it has been removed here.
pub proof fn law_what_is_known_without_asking(
    l: LedgerView,
    fates: Map<Seq<char>, Fate<Seq<char>>>,
    running: bool,
    path: Seq<char>,
    current: Option<Observation>,
)
    ensures
        first_chase(l, fates, running, path, current) is Ready <==> running || l.dirty.contains(
            path,
        ),
        first_chase(l, fates, running, path, current) is Failed <==> !running && !l.dirty.contains(
            path,
        ) && fates.dom().contains(path) && fates[path] == Fate::<Seq<char>>::Gone,
        first_chase(l, fates, running, path, current) matches ChaseView::Failed(e) ==> e
            == Error::NotFound,
{
}

/// A copy that is here is used only in the version that the server has: where a
/// listing has just shown another version than the one that the copy was seen in,
/// or where none was seen, the file is fetched.
pub proof fn law_a_stale_copy_is_fetched_again(
    l: LedgerView,
    fates: Map<Seq<char>, Fate<Seq<char>>>,
    path: Seq<char>,
    current: Observation,
)
    requires
        !l.dirty.contains(path),
        !(fates.dom().contains(path) && fates[path] == Fate::<Seq<char>>::Gone),
    ensures
        !(l.observations.dom().contains(path) && l.observations[path] == current) ==> first_chase(
            l,
            fates,
            false,
            path,
            Some(current),
        ) == ChaseView::Begin(path),
        l.observations.dom().contains(path) && l.observations[path] == current ==> first_chase(
            l,
            fates,
            false,
            path,
            Some(current),
        ) == ChaseView::Do(Quest::Current { path }, Ask::IsFile(path)),
{
}

/// Where no listing has shown the file, the server is asked for it, under the name
/// that it has there.
pub proof fn law_the_server_is_asked_where_nothing_is_known(
    l: LedgerView,
    fates: Map<Seq<char>, Fate<Seq<char>>>,
    path: Seq<char>,
)
    requires
        !l.dirty.contains(path),
        !(fates.dom().contains(path) && fates[path] == Fate::<Seq<char>>::Gone),
    ensures
        first_chase(l, fates, false, path, None) matches ChaseView::Do(
            Quest::Seen { path: p, observed },
            Ask::Stat(from),
        ) && {
            &&& p == path
            &&& observed is Some <==> l.observations.dom().contains(path)
            &&& observed matches Some(o) ==> o == l.observations[path]
            &&& fates.dom().contains(path) ==> from == fates[path]->from
            &&& !fates.dom().contains(path) ==> from == path
        },
{
}

/// The server's answer decides: another version is fetched, the version that was
/// seen is fetched only if its copy is gone, and what the server refuses fails
/// with its word. Only where the server cannot be reached may a copy of unknown
/// age do, and only if the caller is content with it.
pub proof fn law_the_servers_answer_decides(
    path: Seq<char>,
    observed: Option<Observation>,
    answer: Result<FileInfo, Error>,
    lenient: bool,
)
    ensures
        ({
            let then = next_chase(Quest::Seen { path, observed }, Told::Stat(answer), lenient);
            &&& then == ChaseView::Begin(path) <==> (answer is Ok && observed != Some(
                seen_in(answer->Ok_0),
            ))
            &&& then == ChaseView::Do(Quest::Current { path }, Ask::IsFile(path)) <==> (answer is Ok
                && observed == Some(seen_in(answer->Ok_0)))
            &&& then matches ChaseView::Failed(e) ==> answer == Err::<FileInfo, Error>(e)
            &&& then is Failed <==> (answer matches Err(e) && (!lenient || e is NotFound
                || e is PermissionDenied))
            &&& then matches ChaseView::Do(Quest::Unreachable { error }, a) ==> answer == Err::<
                FileInfo,
                Error,
            >(error) && a == Ask::IsFile(path)
            &&& then !is Ready
        }),
{
}

/// A copy is used exactly if it is here: one in the current version is fetched
/// otherwise, and where the server cannot be reached its absence is told.
pub proof fn law_only_a_copy_that_is_here_is_used(
    path: Seq<char>,
    error: Error,
    here: bool,
    lenient: bool,
)
    ensures
        next_chase(Quest::Current { path }, Told::IsFile(here), lenient) == if here {
            ChaseView::Ready
        } else {
            ChaseView::Begin(path)
        },
        next_chase(Quest::Unreachable { error }, Told::IsFile(here), lenient) == if here {
            ChaseView::Ready
        } else {
            ChaseView::Failed(error)
        },
{
}

/// What has come takes the place of the file exactly if all of it has come and
/// nobody has edited the file meanwhile.
pub proof fn law_what_becomes_of_a_download(l: LedgerView, path: Seq<char>, came: bool)
    ensures
        landing_of(l, path, came) == Landing::Rename <==> came && !l.dirty.contains(path),
        landing_of(l, path, came) == Landing::Failed <==> !came,
        is_served(l, came, path) <==> came && !l.dirty.contains(path),
{
}

/// Once a file has come, the ledger knows the version that came and keeps a
/// signature of what it holds; of other files it says what it said.
pub proof fn law_what_is_known_of_a_file_that_came(
    l: LedgerView,
    path: Seq<char>,
    size: u64,
    mtime: Option<Moment>,
    data: Option<Seq<u8>>,
    seen: Option<Observation>,
    q: Seq<char>,
)
    requires
        !l.dirty.contains(path),
        q != path,
    ensures
        ({
            let after = cached(l, path, size, mtime, data);
            &&& after.observations.dom().contains(path) && after.observations[path].size == size
            &&& mtime is Some && mtime->0.secs >= 0 ==> after.observations[path].time
                == mtime->0.secs
            &&& lease(after.observations, q) == lease(l.observations, q)
            &&& after.pins == l.pins
            &&& data matches Some(d) ==> after.writes.last() == Write::<Seq<char>, Seq<u8>>::Sign(
                path,
                rsync_signature(d, 2048, 16),
            )
            &&& data is None ==> after.writes.last() is Observe
        }),
        ({
            let after = fetched(l, path, seen);
            &&& lease(after.observations, path) == seen
            &&& lease(after.observations, q) == lease(l.observations, q)
            &&& after.pins == l.pins
        }),
{
}

proof fn lemma_dirs_of(dir: Seq<char>, listing: Seq<InfoView>, p: Seq<char>)
    ensures
        dirs_of(dir, listing).contains(p) <==> exists|i: int|
            0 <= i < listing.len() && (#[trigger] listing[i]).kind == FileType::Directory && child_of(
                dir,
                listing[i].name,
            ) == p && dir_of(p) == dir,
    decreases listing.len(),
{
    if listing.len() > 0 {
        let front = listing.drop_last();
        let before = dirs_of(dir, front);
        let now = dirs_of(dir, listing);
        lemma_dirs_of(dir, front, p);
        let last = listing[listing.len() - 1];
        if now.contains(p) {
            let k = choose|k: int| 0 <= k < now.len() && now[k] == p;
            if k < before.len() {
                assert(before[k] == p);
                let i = choose|i: int|
                    0 <= i < front.len() && (#[trigger] front[i]).kind == FileType::Directory && child_of(
                        dir,
                        front[i].name,
                    ) == p && dir_of(p) == dir;
                assert(listing[i] == front[i]);
            } else {
                assert(last.kind == FileType::Directory);
            }
        }
        if exists|i: int|
            0 <= i < listing.len() && (#[trigger] listing[i]).kind == FileType::Directory && child_of(
                dir,
                listing[i].name,
            ) == p && dir_of(p) == dir {
            let i = choose|i: int|
                0 <= i < listing.len() && (#[trigger] listing[i]).kind == FileType::Directory && child_of(
                    dir,
                    listing[i].name,
                ) == p && dir_of(p) == dir;
            if i < front.len() {
                assert(front[i] == listing[i]);
                let k = choose|k: int| 0 <= k < before.len() && before[k] == p;
                assert(now[k] == p);
            } else {
                assert(now[before.len() as int] == p);
            }
        }
    }
}

proof fn lemma_files_of(dir: Seq<char>, listing: Seq<InfoView>, p: Seq<char>, o: Observation)
    ensures
        files_of(dir, listing).contains((p, o)) <==> exists|i: int|
            0 <= i < listing.len() && (#[trigger] listing[i]).kind == FileType::File && child_of(
                dir,
                listing[i].name,
            ) == p && dir_of(p) == dir && shown(listing[i]) == o,
    decreases listing.len(),
{
    if listing.len() > 0 {
        let front = listing.drop_last();
        let before = files_of(dir, front);
        let now = files_of(dir, listing);
        lemma_files_of(dir, front, p, o);
        let last = listing[listing.len() - 1];
        if now.contains((p, o)) {
            let k = choose|k: int| 0 <= k < now.len() && now[k] == (p, o);
            if k < before.len() {
                assert(before[k] == (p, o));
                let i = choose|i: int|
                    0 <= i < front.len() && (#[trigger] front[i]).kind == FileType::File && child_of(
                        dir,
                        front[i].name,
                    ) == p && dir_of(p) == dir && shown(front[i]) == o;
                assert(listing[i] == front[i]);
            } else {
                assert(last.kind == FileType::File);
            }
        }
        if exists|i: int|
            0 <= i < listing.len() && (#[trigger] listing[i]).kind == FileType::File && child_of(
                dir,
                listing[i].name,
            ) == p && dir_of(p) == dir && shown(listing[i]) == o {
            let i = choose|i: int|
                0 <= i < listing.len() && (#[trigger] listing[i]).kind == FileType::File && child_of(
                    dir,
                    listing[i].name,
                ) == p && dir_of(p) == dir && shown(listing[i]) == o;
            if i < front.len() {
                assert(front[i] == listing[i]);
                let k = choose|k: int| 0 <= k < before.len() && before[k] == (p, o);
                assert(now[k] == (p, o));
            } else {
                assert(now[before.len() as int] == (p, o));
            }
        }
    }
}

/// A walk through a pinned directory reaches everything that is listed in it: each
/// of its directories is listed in turn, and each of its files is brought here in
/// the version that is shown; nothing that is not in it is touched.
pub proof fn law_a_pinned_directory_comes_whole(
    dir: Seq<char>,
    listing: Seq<InfoView>,
    p: Seq<char>,
    o: Observation,
)
    ensures
        dirs_of(dir, listing).contains(p) <==> exists|i: int|
            0 <= i < listing.len() && (#[trigger] listing[i]).kind == FileType::Directory && child_of(
                dir,
                listing[i].name,
            ) == p && dir_of(p) == dir,
        files_of(dir, listing).contains((p, o)) <==> exists|i: int|
            0 <= i < listing.len() && (#[trigger] listing[i]).kind == FileType::File && child_of(
                dir,
                listing[i].name,
            ) == p && dir_of(p) == dir && shown(listing[i]) == o,
{
    lemma_dirs_of(dir, listing, p);
    lemma_files_of(dir, listing, p, o);
}

/// Bytes are read only once they have come, or once the whole file has; and those of
/// a download that failed never are.
pub proof fn law_bytes_are_read_once_they_have_come(
    status: DownloadStatus,
    written: u64,
    end: int,
)
    ensures
        readable(status, written, end) == Readiness::Failed <==> status == DownloadStatus::Failed,
        status == DownloadStatus::Running ==> (readable(status, written, end) == Readiness::Ready
            <==> end <= written),
        status == DownloadStatus::Done ==> readable(status, written, end) == Readiness::Ready,
        whole(status) == Readiness::Ready <==> status == DownloadStatus::Done,
        whole(status) == Readiness::Failed <==> status == DownloadStatus::Failed,
{
}

/// A download is done only where it got the name of the file. The file can be used
/// where it did, and where it has been edited here meanwhile.
pub proof fn law_when_a_download_is_done(landing: Landing, renamed: bool)
    ensures
        landed(landing, renamed) != DownloadStatus::Running,
        landed(landing, renamed) == DownloadStatus::Done <==> renamed && landing == Landing::Rename,
        landed(landing, renamed) == DownloadStatus::Done ==> is_usable_after(landing, renamed),
        landing == Landing::Failed ==> !is_usable_after(landing, renamed),
        landing == Landing::Superseded ==> is_usable_after(landing, renamed),
        landing == Landing::Rename ==> is_usable_after(landing, renamed) == renamed,
{
}

} // verus!
