//! What the user's deeds come to: edits, removals and renames, of files and of
//! whole directories.
use crate::config::{is_ignored, Ignore};
use crate::ledger::{
    forgotten, is_local_only, lemma_select, remapped, select, unobserved, Ledger, LedgerView,
};
use crate::ledger_laws::{
    is_image, law_remap_moves_the_subtree, law_separate_directories_never_collide,
};
use crate::model::{paths_view, Operation};
use crate::path::{
    below, dir_text, file_text, is_path, law_rebase, rebased, within, RelPath,
};
use crate::sdk::Error;
use crate::table::{in_order, lemma_walk_of_finite, walk, PathSet};
use crate::upload::{marked, unmarked};
use vstd::prelude::*;

verus! {

/// A word to the agenda.
#[derive(Debug)]
pub enum Msg<P = RelPath> {
    Arm(P),
    Now(P),
    Cancel(P),
}

impl View for Msg {
    type V = Msg<Seq<char>>;

    open spec fn view(&self) -> Msg<Seq<char>> {
        match self {
            Msg::Arm(p) => Msg::Arm(p@),
            Msg::Now(p) => Msg::Now(p@),
            Msg::Cancel(p) => Msg::Cancel(p@),
        }
    }
}

/// Words by the characters of their paths.
pub open spec fn words_view(v: Seq<Msg>) -> Seq<Msg<Seq<char>>> {
    Seq::new(v.len(), |i: int| v[i]@)
}

/// The server has done what it was asked, or there was nothing to do.
pub open spec fn is_done(answer: Result<(), Error>) -> bool {
    answer matches Ok(_) || answer == Err::<(), Error>(Error::NotFound)
}

fn done(answer: &Result<(), Error>) -> (r: bool)
    ensures
        r == is_done(*answer),
{
    match answer {
        Ok(_) => true,
        Err(Error::NotFound) => true,
        Err(_) => false,
    }
}

/// A file or a directory is to be renamed here: the server has renamed it, or does not
/// have it while it holds edits here.
pub open spec fn is_moved(l: LedgerView, from: Seq<char>, answer: Result<(), Error>) -> bool {
    answer is Ok || (answer == Err::<(), Error>(Error::NotFound) && l.dirty.contains(from))
}

/// How the server is told of what it has to remove.
pub open spec fn removal_text(l: LedgerView, path: Seq<char>, is_dir: bool) -> Option<Seq<char>> {
    if !is_dir && is_local_only(l, path) {
        None
    } else if is_dir {
        Some(dir_text(path))
    } else {
        Some(file_text(path))
    }
}

/// How the server is told of what it has to rename.
pub open spec fn move_texts(
    l: LedgerView,
    from: Seq<char>,
    to: Seq<char>,
    is_dir: bool,
) -> Option<(Seq<char>, Seq<char>)> {
    if is_local_only(l, from) {
        None
    } else if is_dir {
        Some((dir_text(from), dir_text(to)))
    } else {
        Some((file_text(from), file_text(to)))
    }
}

/// The words that arm each of the paths.
pub open spec fn armed(paths: Seq<Seq<char>>) -> Seq<Msg<Seq<char>>> {
    paths.map_values(|p: Seq<char>| Msg::Arm(p))
}

/// The words that hurry each of the paths that is not ignored.
pub open spec fn hurried_words(paths: Seq<Seq<char>>, ignored: Set<Seq<char>>) -> Seq<
    Msg<Seq<char>>,
>
    decreases paths.len(),
{
    if paths.len() == 0 {
        Seq::empty()
    } else {
        let before = hurried_words(paths.drop_last(), ignored);
        if is_ignored(ignored, paths.last()) {
            before
        } else {
            before.push(Msg::Now(paths.last()))
        }
    }
}

/// The ledger after a file has been renamed by a client without a journal: what
/// was said of the target is forgotten, what was said of the file is said of the
/// target.
pub open spec fn renamed(l: LedgerView, from: Seq<char>, to: Seq<char>) -> LedgerView {
    remapped(unmarked(unobserved(l, to), to), from, to)
}

impl Ledger {
    /// A directory has been removed on the server, or it has not: what came of
    /// it.
    pub fn dir_removed(&mut self, path: &RelPath, answer: Result<(), Error>) -> (r: Result<
        (),
        Error,
    >)
        ensures
            is_done(answer) ==> r is Ok && final(self)@ == forgotten(old(self)@, path@),
            !is_done(answer) ==> r == answer && final(self)@ == old(self)@,
    {
        if done(&answer) {
            self.forget(path);
            Ok(())
        } else {
            answer
        }
    }

    /// A directory has been renamed on the server, or it has not: what came of
    /// it.
    pub fn dir_moved(&mut self, from: &RelPath, to: &RelPath, answer: Result<(), Error>) -> (r:
        Result<(), Error>)
        ensures
            is_done(answer) ==> r is Ok && final(self)@ == remapped(old(self)@, from@, to@),
            !is_done(answer) ==> r == answer && final(self)@ == old(self)@,
    {
        if done(&answer) {
            self.remap(from, to);
            Ok(())
        } else {
            answer
        }
    }

    /// A file has been edited; whether that is news.
    pub fn modified(&mut self, path: &RelPath) -> (r: bool)
        ensures
            r == !old(self)@.dirty.contains(path@),
            final(self)@ == marked(old(self)@, path@),
    {
        self.dirty_set(path)
    }

    /// A file has been made. The server is not known to have a version of it.
    pub fn created(&mut self, path: &RelPath)
        ensures
            final(self)@ == marked(unobserved(old(self)@, path@), path@),
    {
        self.unobserve(path);
        let _ = self.dirty_set(path);
    }

    /// What the server has to remove for a file or a directory to be gone: nothing
    /// if the file is here only.
    pub fn to_remove(&self, path: &RelPath, is_dir: bool) -> (r: Option<String>)
        ensures
            match r {
                Some(api) => removal_text(self@, path@, is_dir) == Some(api@),
                None => removal_text(self@, path@, is_dir) is None,
            },
    {
        if !is_dir && self.local_only(path) {
            None
        } else if is_dir {
            Some(path.as_dir())
        } else {
            Some(path.as_file())
        }
    }

    /// A file or a directory has been removed on the server, or it has not: what
    /// came of it, and what the agenda has to be told.
    pub fn removed(&mut self, path: &RelPath, answer: Result<(), Error>) -> (r: Result<Msg, Error>)
        ensures
            is_done(answer) ==> {
                &&& r matches Ok(word) && word@ == Msg::Cancel(path@)
                &&& final(self)@ == forgotten(old(self)@, path@)
            },
            !is_done(answer) ==> {
                &&& r matches Err(e) && answer == Err::<(), Error>(e)
                &&& final(self)@ == old(self)@
            },
    {
        match answer {
            Ok(_) | Err(Error::NotFound) => {
                self.forget(path);
                Ok(Msg::Cancel(path.clone()))
            },
            Err(e) => Err(e),
        }
    }

    /// What the server has to rename for a file or a directory to be renamed:
    /// nothing if it is a file that is here only.
    pub fn to_move(&self, from: &RelPath, to: &RelPath, is_dir: bool) -> (r: Option<
        (String, String),
    >)
        ensures
            match r {
                Some((a, b)) => move_texts(self@, from@, to@, is_dir) == Some((a@, b@)),
                None => move_texts(self@, from@, to@, is_dir) is None,
            },
    {
        if self.local_only(from) {
            None
        } else if is_dir {
            Some((from.as_dir(), to.as_dir()))
        } else {
            Some((from.as_file(), to.as_file()))
        }
    }

    /// A file or a directory has been renamed on the server, or it has not: what
    /// came of it, and what the agenda has to be told. That the server does not
    /// have it is no harm if it holds edits.
    pub fn moved(&mut self, from: &RelPath, to: &RelPath, answer: Result<(), Error>) -> (r: Result<
        Vec<Msg>,
        Error,
    >)
        ensures
            ({
                if is_moved(old(self)@, from@, answer) {
                    &&& final(self)@ == renamed(old(self)@, from@, to@)
                    &&& r matches Ok(words) && words_view(words@) == seq![
                        Msg::Cancel(from@),
                    ] + armed(select(in_order(final(self)@.dirty), to@))
                } else {
                    &&& final(self)@ == old(self)@
                    &&& r matches Err(e) && answer == Err::<(), Error>(e)
                }
            }),
    {
        match answer {
            Ok(_) => {},
            Err(e) => {
                let harmless = match e {
                    Error::NotFound => self.dirty.contains(from),
                    _ => false,
                };
                if !harmless {
                    return Err(e);
                }
            },
        }
        self.unobserve(to);
        self.dirty_clear(to);
        self.remap(from, to);
        let keys = self.dirty.keys();
        let ghost kv = in_order(self@.dirty);
        let ghost end = self@;
        let mut words: Vec<Msg> = Vec::new();
        words.push(Msg::Cancel(from.clone()));
        let mut i: usize = 0;
        proof {
            assert(words_view(words@) =~= seq![Msg::Cancel(from@)] + armed(select(kv.take(0), to@)));
        }
        while i < keys.len()
            invariant
                i <= keys@.len(),
                self@ == end,
                keys@.len() == kv.len(),
                forall|j: int| #![trigger keys@[j]] 0 <= j < keys@.len() ==> keys@[j]@ == kv[j],
                words_view(words@) == seq![Msg::Cancel(from@)] + armed(
                    select(kv.take(i as int), to@),
                ),
            decreases keys@.len() - i,
        {
            let ghost so_far = words_view(words@);
            let ghost selected = select(kv.take(i as int), to@);
            proof {
                let now = kv.take(i + 1);
                assert(now.drop_last() =~= kv.take(i as int));
                assert(now.last() == keys@[i as int]@);
            }
            if keys[i].is_within(to) {
                words.push(Msg::Arm(keys[i].clone()));
                proof {
                    assert(words_view(words@) =~= so_far.push(Msg::Arm(kv[i as int])));
                    assert(armed(selected.push(kv[i as int])) =~= armed(selected).push(
                        Msg::Arm(kv[i as int]),
                    ));
                    assert(words_view(words@) =~= seq![Msg::Cancel(from@)] + armed(
                        select(kv.take(i + 1), to@),
                    ));
                }
            }
            i += 1;
        }
        proof {
            assert(kv.take(i as int) =~= kv);
        }
        Ok(words)
    }

    /// What is to be uploaded at once after a restart: all edits that are not
    /// ignored.
    pub fn recovered(&self, ignore: &Ignore) -> (r: Vec<Msg>)
        ensures
            words_view(r@) == hurried_words(in_order(self@.dirty), ignore@),
    {
        let keys = self.dirty.keys();
        let ghost kv = in_order(self@.dirty);
        let mut words: Vec<Msg> = Vec::new();
        let mut i: usize = 0;
        proof {
            assert(words_view(words@) =~= Seq::empty());
        }
        while i < keys.len()
            invariant
                i <= keys@.len(),
                keys@.len() == kv.len(),
                forall|j: int| #![trigger keys@[j]] 0 <= j < keys@.len() ==> keys@[j]@ == kv[j],
                words_view(words@) == hurried_words(kv.take(i as int), ignore@),
            decreases keys@.len() - i,
        {
            let ghost so_far = words_view(words@);
            proof {
                let now = kv.take(i + 1);
                assert(now.drop_last() =~= kv.take(i as int));
                assert(now.last() == keys@[i as int]@);
            }
            if !ignore.matches(&keys[i]) {
                words.push(Msg::Now(keys[i].clone()));
                proof {
                    assert(words_view(words@) =~= so_far.push(Msg::Now(kv[i as int])));
                }
            }
            i += 1;
        }
        proof {
            assert(kv.take(i as int) =~= kv);
        }
        words
    }
}

/// What has to be done to remove something: a file is removed by and by, a
/// directory at once on the server.
pub fn delete(path: &RelPath, is_dir: bool) -> (r: Result<Operation, String>)
    ensures
        is_dir ==> (r matches Err(api) && api@ == dir_text(path@)),
        !is_dir ==> (r matches Ok(op) && op@ == Operation::Delete(path@)),
{
    if is_dir {
        Err(path.as_dir())
    } else {
        Ok(Operation::Delete(path.clone()))
    }
}

/// What has to be done to rename something: a file is renamed by and by, a
/// directory at once on the server.
pub fn rename(from: &RelPath, to: &RelPath, is_dir: bool) -> (r: Result<
    Operation,
    (String, String),
>)
    ensures
        is_dir ==> (r matches Err((a, b)) && a@ == dir_text(from@) && b@
            == dir_text(to@)),
        !is_dir ==> (r matches Ok(op) && op@ == Operation::Rename(from@, to@)),
{
    if is_dir {
        Err((from.as_dir(), to.as_dir()))
    } else {
        Ok(Operation::Rename(from.clone(), to.clone()))
    }
}

/// The set with some more paths.
pub open spec fn with_paths(set: Set<Seq<char>>, paths: Seq<Seq<char>>) -> Set<Seq<char>> {
    set.union(paths.to_set())
}

/// Freezes some paths: what lies within is not uploaded meanwhile.
pub fn freeze(frozen: &mut PathSet, paths: &[RelPath])
    ensures
        final(frozen)@ == with_paths(old(frozen)@, paths_view(paths@)),
{
    let ghost before = frozen@;
    let ghost pv = paths_view(paths@);
    let mut i: usize = 0;
    proof {
        assert(frozen@ =~= with_paths(before, pv.take(0)));
    }
    while i < paths.len()
        invariant
            i <= paths@.len(),
            pv == paths_view(paths@),
            frozen@ == with_paths(before, pv.take(i as int)),
        decreases paths@.len() - i,
    {
        let ghost so_far = frozen@;
        let _ = frozen.insert(paths[i].clone());
        proof {
            lemma_one_more(pv, i as int);
            assert(frozen@ =~= with_paths(before, pv.take(i + 1)));
        }
        i += 1;
    }
    proof {
        assert(pv.take(i as int) =~= pv);
    }
}

/// Thaws some paths again.
pub fn thaw(frozen: &mut PathSet, paths: &[RelPath])
    ensures
        final(frozen)@ == old(frozen)@.difference(paths_view(paths@).to_set()),
{
    let ghost before = frozen@;
    let ghost pv = paths_view(paths@);
    let mut i: usize = 0;
    proof {
        assert(frozen@ =~= before.difference(pv.take(0).to_set()));
    }
    while i < paths.len()
        invariant
            i <= paths@.len(),
            pv == paths_view(paths@),
            frozen@ == before.difference(pv.take(i as int).to_set()),
        decreases paths@.len() - i,
    {
        let ghost so_far = frozen@;
        let _ = frozen.remove(&paths[i]);
        proof {
            lemma_one_more(pv, i as int);
            assert(frozen@ =~= before.difference(pv.take(i + 1).to_set()));
        }
        i += 1;
    }
    proof {
        assert(pv.take(i as int) =~= pv);
    }
}

proof fn lemma_one_more(pv: Seq<Seq<char>>, i: int)
    requires
        0 <= i < pv.len(),
    ensures
        pv.take(i + 1).to_set() == pv.take(i).to_set().insert(pv[i]),
{
    let long = pv.take(i + 1);
    let short = pv.take(i);
    assert forall|p: Seq<char>| long.to_set().contains(p) <==> short.to_set().insert(
        pv[i],
    ).contains(p) by {
        if short.contains(p) {
            let j = choose|j: int| 0 <= j < short.len() && short[j] == p;
            assert(long[j] == p);
        }
        assert(long[i] == pv[i]);
        if long.contains(p) {
            let j = choose|j: int| 0 <= j < long.len() && long[j] == p;
            if j < i {
                assert(short[j] == p);
            }
        }
    }
    assert(long.to_set() =~= short.to_set().insert(pv[i]));
}

/// Freezing and thawing leaves what was frozen before, if none of the paths was.
pub proof fn law_thawing_undoes_freezing(frozen: Set<Seq<char>>, paths: Seq<Seq<char>>)
    requires
        frozen.disjoint(paths.to_set()),
    ensures
        with_paths(frozen, paths).difference(paths.to_set()) == frozen,
{
    assert(with_paths(frozen, paths).difference(paths.to_set()) =~= frozen);
}

/// An upload has to end before a path can be renamed or removed: that of the path
/// itself and, with `subtree`, of what lies below it.
pub open spec fn is_awaited(p: Seq<char>, path: Seq<char>, subtree: bool) -> bool {
    p == path || (subtree && below(p, path))
}

/// See `is_awaited`.
pub fn awaits(p: &RelPath, path: &RelPath, subtree: bool) -> (r: bool)
    ensures
        r == is_awaited(p@, path@, subtree),
{
    *p == *path || (subtree && p.is_descendant_of(path))
}

/// Renaming a file keeps its edits: what was edited at `from` is edited at `to`.
pub proof fn law_a_rename_keeps_the_edits(l: LedgerView, from: Seq<char>, to: Seq<char>)
    requires
        l.dirty.contains(from),
        l.dirty.finite(),
        l.observations.dom().finite(),
        is_path(from),
        is_path(to),
        from.len() > 0,
        to.len() > 0,
        !within(to, from),
        !within(from, to),
        forall|p: Seq<char>| #[trigger] l.dirty.contains(p) ==> is_path(p),
        forall|p: Seq<char>| #[trigger] l.observations.dom().contains(p) ==> is_path(p),
    ensures
        renamed(l, from, to).dirty.contains(to),
        !renamed(l, from, to).dirty.contains(from),
{
    let a = unmarked(unobserved(l, to), to);
    let moved = select(walk(a.observations), from);
    let marks = select(in_order(a.dirty), from);
    lemma_walk_of_finite(a.observations.dom());
    lemma_walk_of_finite(a.dirty);
    lemma_select(walk(a.observations), from);
    lemma_select(in_order(a.dirty), from);
    assert forall|i: int| #![trigger moved[i]] 0 <= i < moved.len() implies within(moved[i], from)
        && is_path(moved[i]) by {
        assert(walk(a.observations).to_set().contains(moved[i]));
        assert(a.observations.dom().contains(moved[i]));
        assert(l.observations.dom().contains(moved[i]));
    }
    assert forall|i: int| #![trigger marks[i]] 0 <= i < marks.len() implies within(marks[i], from)
        && is_path(marks[i]) by {
        assert(in_order(a.dirty).to_set().contains(marks[i]));
        assert(l.dirty.contains(marks[i]));
    }
    law_separate_directories_never_collide(moved, from, to);
    law_separate_directories_never_collide(marks, from, to);
    law_remap_moves_the_subtree(a, from, to);
    assert(in_order(a.dirty).to_set().contains(from));
    assert(marks.contains(from));
    let i = choose|i: int| 0 <= i < marks.len() && marks[i] == from;
    law_rebase(from, from, to);
    assert(to + from.skip(from.len() as int) =~= to);
    assert(is_image(marks, from, to, to)) by {
        assert(rebased(marks[i], from, to) == to);
    }
    assert(!is_image(marks, from, to, from)) by {
        if is_image(marks, from, to, from) {
            let j = choose|j: int| 0 <= j < marks.len() && rebased(#[trigger] marks[j], from, to) == from;
            law_rebase(marks[j], from, to);
        }
    }
}

/// The server has done what it was asked where it says so, and where there was
/// nothing to do; any other error means that it has not.
pub proof fn law_when_the_server_has_done_it(answer: Result<(), Error>)
    ensures
        answer is Ok ==> is_done(answer),
        answer matches Err(e) ==> (is_done(answer) <==> e is NotFound),
{
}

/// Each path that is not ignored is told to go now, in order, and no other.
pub proof fn law_which_paths_are_hurried(
    paths: Seq<Seq<char>>,
    p: Seq<char>,
    ignored: Set<Seq<char>>,
)
    ensures
        hurried_words(paths.push(p), ignored) == if is_ignored(ignored, p) {
            hurried_words(paths, ignored)
        } else {
            hurried_words(paths, ignored).push(Msg::Now(p))
        },
        hurried_words(Seq::empty(), ignored).len() == 0,
        armed(paths).len() == paths.len(),
        forall|i: int|
            0 <= i < paths.len() ==> #[trigger] armed(paths)[i] == Msg::<Seq<char>>::Arm(paths[i]),
{
    assert(paths.push(p).drop_last() =~= paths);
}

/// A rename goes through here where the server has made it, and where the server does
/// not have the file while it holds edits; after any other error nothing is renamed.
pub proof fn law_when_a_rename_goes_through(
    l: LedgerView,
    from: Seq<char>,
    answer: Result<(), Error>,
)
    ensures
        answer is Ok ==> is_moved(l, from, answer),
        answer matches Err(e) ==> (is_moved(l, from, answer) <==> e is NotFound && l.dirty.contains(
            from,
        )),
{
}

/// The server is told of a file by its path behind a slash, and of a directory by one
/// more slash at the end. It is told nothing of a file that is only here.
pub proof fn law_how_the_server_is_told_of_a_path(
    l: LedgerView,
    from: Seq<char>,
    to: Seq<char>,
    is_dir: bool,
)
    ensures
        removal_text(l, from, is_dir) is None <==> !is_dir && l.dirty.contains(from)
            && !l.observations.dom().contains(from),
        removal_text(l, from, is_dir) matches Some(t) ==> if is_dir && from.len() > 0 {
            t == seq!['/'] + from + seq!['/']
        } else {
            t == seq!['/'] + from
        },
        move_texts(l, from, to, is_dir) is None <==> l.dirty.contains(from)
            && !l.observations.dom().contains(from),
        move_texts(l, from, to, is_dir) matches Some((a, b)) ==> {
            &&& removal_text(l, from, is_dir) == Some(a)
            &&& b == if is_dir && to.len() > 0 {
                seq!['/'] + to + seq!['/']
            } else {
                seq!['/'] + to
            }
        },
{
    assert(from.len() == 0 ==> seq!['/'] + from =~= seq!['/']);
    assert(to.len() == 0 ==> seq!['/'] + to =~= seq!['/']);
}

/// An upload is waited for where it is of the path itself, or of what lies below where
/// all of that is meant.
pub proof fn law_which_uploads_are_waited_for(p: Seq<char>, path: Seq<char>, subtree: bool)
    ensures
        is_awaited(path, path, subtree),
        p != path ==> (is_awaited(p, path, subtree) <==> subtree && below(p, path)),
{
}

/// After a rename the file at the new name is the one that was renamed: it holds edits
/// where that one did, and what is known of it is what was known of that one. Nothing
/// is left of what was there before.
pub proof fn law_a_rename_takes_the_place_of_the_target(
    l: LedgerView,
    from: Seq<char>,
    to: Seq<char>,
)
    requires
        l.dirty.finite(),
        l.observations.dom().finite(),
        is_path(from),
        is_path(to),
        from.len() > 0,
        to.len() > 0,
        !within(to, from),
        !within(from, to),
        forall|p: Seq<char>| #[trigger] l.dirty.contains(p) ==> is_path(p),
        forall|p: Seq<char>| #[trigger] l.observations.dom().contains(p) ==> is_path(p),
    ensures
        ({
            let m = renamed(l, from, to);
            &&& m.dirty.contains(to) <==> l.dirty.contains(from)
            &&& m.observations.dom().contains(to) <==> l.observations.dom().contains(from)
            &&& l.observations.dom().contains(from) ==> m.observations[to] == l.observations[from]
            &&& !m.dirty.contains(from)
            &&& !m.observations.dom().contains(from)
        }),
{
    let a = unmarked(unobserved(l, to), to);
    let moved = select(walk(a.observations), from);
    let marks = select(in_order(a.dirty), from);
    lemma_walk_of_finite(a.observations.dom());
    lemma_walk_of_finite(a.dirty);
    lemma_select(walk(a.observations), from);
    lemma_select(in_order(a.dirty), from);
    assert forall|i: int| #![trigger moved[i]] 0 <= i < moved.len() implies within(moved[i], from)
        && is_path(moved[i]) by {
        assert(walk(a.observations).to_set().contains(moved[i]));
        assert(l.observations.dom().contains(moved[i]));
    }
    assert forall|i: int| #![trigger marks[i]] 0 <= i < marks.len() implies within(marks[i], from)
        && is_path(marks[i]) by {
        assert(in_order(a.dirty).to_set().contains(marks[i]));
        assert(l.dirty.contains(marks[i]));
    }
    law_separate_directories_never_collide(moved, from, to);
    law_separate_directories_never_collide(marks, from, to);
    law_remap_moves_the_subtree(a, from, to);
    law_rebase(from, from, to);
    law_rebase(to, to, from);
    assert(from.skip(from.len() as int) =~= Seq::<char>::empty());
    assert(to + Seq::<char>::empty() =~= to);
    assert(to.skip(to.len() as int) =~= Seq::<char>::empty());
    assert(from + Seq::<char>::empty() =~= from);
    assert(rebased(from, from, to) == to && rebased(to, to, from) == from);
    lemma_only_image(marks, from, to, to);
    lemma_only_image(moved, from, to, to);
    lemma_no_image(marks, from, to);
    lemma_no_image(moved, from, to);
    if l.dirty.contains(from) {
        assert(a.dirty.contains(from));
        assert(in_order(a.dirty).to_set().contains(from));
        assert(marks.contains(from));
        let i = choose|i: int| 0 <= i < marks.len() && marks[i] == from;
        assert(is_image(marks, from, to, to)) by {
            assert(rebased(marks[i], from, to) == to);
        }
    }
    if is_image(marks, from, to, to) {
        assert(marks.contains(from));
        assert(in_order(a.dirty).to_set().contains(from));
    }
    if is_image(moved, from, to, to) {
        assert(moved.contains(from));
        assert(walk(a.observations).to_set().contains(from));
    }
}

proof fn lemma_only_image(paths: Seq<Seq<char>>, from: Seq<char>, to: Seq<char>, q: Seq<char>)
    requires
        is_path(from),
        is_path(to),
        from.len() > 0,
        to.len() > 0,
        q == to,
        rebased(to, to, from) == from,
        forall|i: int| #![trigger paths[i]] 0 <= i < paths.len() ==> within(paths[i], from) && is_path(
            paths[i],
        ),
    ensures
        is_image(paths, from, to, q) ==> paths.contains(from),
{
    if is_image(paths, from, to, q) {
        let i = choose|i: int| 0 <= i < paths.len() && rebased(#[trigger] paths[i], from, to) == q;
        law_rebase(paths[i], from, to);
        assert(paths[i] == from);
    }
}

proof fn lemma_no_image(paths: Seq<Seq<char>>, from: Seq<char>, to: Seq<char>)
    requires
        is_path(from),
        is_path(to),
        from.len() > 0,
        to.len() > 0,
        !within(from, to),
        forall|i: int| #![trigger paths[i]] 0 <= i < paths.len() ==> within(paths[i], from) && is_path(
            paths[i],
        ),
    ensures
        !is_image(paths, from, to, from),
{
    if is_image(paths, from, to, from) {
        let i = choose|i: int| 0 <= i < paths.len() && rebased(#[trigger] paths[i], from, to) == from;
        law_rebase(paths[i], from, to);
    }
}

} // verus!
