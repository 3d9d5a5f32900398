//! Folding what happened to the files of the drive into what is to be done on
//! the server.
use crate::model::{
    opt_clone, opt_view, ops_view, paths_view, plans_view, Observation, Operation, Plan,
};
use crate::path::RelPath;
use crate::table::{in_order, walk, PathMap, PathSet};
use crate::text::precedes;
use vstd::prelude::*;

verus! {

/// What a plan is called while it waits in the journal.
pub type Intent = Plan;

/// Where the content of a path comes from: written since, possibly on the base
/// of another file; moved here untouched; or nowhere, as nothing is left.
#[derive(Debug, PartialEq)]
pub enum Content<P = RelPath> {
    New(Option<P>),
    Orig(P),
    Gone,
}

impl View for Content {
    type V = Content<Seq<char>>;

    open spec fn view(&self) -> Content<Seq<char>> {
        match self {
            Content::New(x) => Content::New(opt_view(*x)),
            Content::Orig(x) => Content::Orig(x@),
            Content::Gone => Content::Gone,
        }
    }
}

impl Clone for Content {
    fn clone(&self) -> (r: Content)
        ensures
            r == *self,
    {
        match self {
            Content::New(x) => Content::New(opt_clone(x)),
            Content::Orig(x) => Content::Orig(x.clone()),
            Content::Gone => Content::Gone,
        }
    }
}

/// The files touched so far: which of them the server had, in the order in
/// which they were first touched, and what each path holds now.
#[verifier::ext_equal]
pub struct SlateView {
    pub origs: Seq<Seq<char>>,
    pub content: Map<Seq<char>, Content<Seq<char>>>,
}

/// A slate on which nothing is written.
pub open spec fn blank() -> SlateView {
    SlateView { origs: Seq::empty(), content: Map::empty() }
}

/// `p` is among the paths, at the end if it was not there yet.
pub open spec fn noted(origs: Seq<Seq<char>>, p: Seq<char>) -> Seq<Seq<char>> {
    if origs.contains(p) {
        origs
    } else {
        origs.push(p)
    }
}

/// The slate after a plan that is still waiting has been written on it.
pub open spec fn seed_step(s: SlateView, plan: Plan<Seq<char>>) -> SlateView {
    match plan {
        Plan::Save { path, replaces, reuses } => SlateView {
            origs: if replaces is Some {
                noted(s.origs, path)
            } else {
                s.origs
            },
            content: s.content.insert(path, Content::New(reuses)),
        },
        Plan::Move { from, to, moves } => SlateView {
            origs: noted(s.origs, from),
            content: s.content.insert(to, Content::Orig(from)).insert(from, Content::Gone),
        },
        Plan::Remove { path, removes } => SlateView {
            origs: noted(s.origs, path),
            content: s.content.insert(path, Content::Gone),
        },
    }
}

/// The slate with all the plans on it, first to last.
pub open spec fn seeded(plans: Seq<Plan<Seq<char>>>) -> SlateView
    decreases plans.len(),
{
    if plans.len() == 0 {
        blank()
    } else {
        seed_step(seeded(plans.drop_last()), plans.last())
    }
}

/// The touched files of the server once `p` has been touched.
pub open spec fn touched(
    s: SlateView,
    p: Seq<char>,
    know: Map<Seq<char>, Observation>,
) -> Seq<Seq<char>> {
    if know.dom().contains(p) && !s.content.dom().contains(p) {
        noted(s.origs, p)
    } else {
        s.origs
    }
}

/// What is at `p` now: what the slate says, else what the server had there.
pub open spec fn content_at(
    content: Map<Seq<char>, Content<Seq<char>>>,
    p: Seq<char>,
    know: Map<Seq<char>, Observation>,
) -> Content<Seq<char>> {
    if content.dom().contains(p) {
        content[p]
    } else if know.dom().contains(p) {
        Content::Orig(p)
    } else {
        Content::New(None)
    }
}

/// The file that the next write to content `c` builds on.
pub open spec fn base_of(c: Content<Seq<char>>) -> Option<Seq<char>> {
    match c {
        Content::New(x) => x,
        Content::Orig(x) => Some(x),
        Content::Gone => None,
    }
}

/// The slate after one operation.
pub open spec fn op_step(
    s: SlateView,
    op: Operation<Seq<char>>,
    know: Map<Seq<char>, Observation>,
) -> SlateView {
    match op {
        Operation::Create(p) => SlateView {
            origs: touched(s, p, know),
            content: s.content.insert(p, Content::New(None)),
        },
        Operation::Write(p) => SlateView {
            origs: touched(s, p, know),
            content: s.content.insert(p, Content::New(base_of(content_at(s.content, p, know)))),
        },
        Operation::Rename(a, b) => {
            let t = SlateView { origs: touched(s, a, know), content: s.content };
            SlateView {
                origs: touched(t, b, know),
                content: s.content.insert(b, content_at(s.content, a, know)).insert(a, Content::Gone),
            }
        },
        Operation::Delete(p) => SlateView {
            origs: touched(s, p, know),
            content: s.content.insert(p, Content::Gone),
        },
    }
}

/// The slate after all the operations, first to last.
pub open spec fn played(
    s: SlateView,
    ops: Seq<Operation<Seq<char>>>,
    know: Map<Seq<char>, Observation>,
) -> SlateView
    decreases ops.len(),
{
    if ops.len() == 0 {
        s
    } else {
        op_step(played(s, ops.drop_last(), know), ops.last(), know)
    }
}

/// `p` holds what was at `orig`.
pub open spec fn holds(
    content: Map<Seq<char>, Content<Seq<char>>>,
    orig: Seq<char>,
    p: Seq<char>,
) -> bool {
    content.dom().contains(p) && content[p] == Content::Orig(orig)
}

/// `p` is the first path that holds what was at `orig`.
pub open spec fn is_target(
    content: Map<Seq<char>, Content<Seq<char>>>,
    orig: Seq<char>,
    p: Seq<char>,
) -> bool {
    &&& holds(content, orig, p)
    &&& forall|q: Seq<char>| #[trigger] holds(content, orig, q) ==> q == p || precedes(p, q)
}

/// The first path that holds what was at `orig`.
pub open spec fn target(
    content: Map<Seq<char>, Content<Seq<char>>>,
    orig: Seq<char>,
) -> Option<Seq<char>> {
    if exists|p: Seq<char>| is_target(content, orig, p) {
        Some(choose|p: Seq<char>| is_target(content, orig, p))
    } else {
        None
    }
}

/// Which of the files have moved, and where to.
pub open spec fn renames_of(
    origs: Seq<Seq<char>>,
    content: Map<Seq<char>, Content<Seq<char>>>,
) -> Seq<(Seq<char>, Seq<char>)>
    decreases origs.len(),
{
    if origs.len() == 0 {
        Seq::empty()
    } else {
        let before = renames_of(origs.drop_last(), content);
        let orig = origs.last();
        match target(content, orig) {
            Some(to) => if to != orig {
                before.push((orig, to))
            } else {
                before
            },
            None => before,
        }
    }
}

/// Where the file at `p` moves, if it moves.
pub open spec fn next(renames: Seq<(Seq<char>, Seq<char>)>, p: Seq<char>) -> Option<Seq<char>> {
    if exists|i: int| 0 <= i < renames.len() && (#[trigger] renames[i]).0 == p {
        Some(renames[choose|i: int| 0 <= i < renames.len() && (#[trigger] renames[i]).0 == p].1)
    } else {
        None
    }
}

/// Where one gets from `p` by following `n` renames.
pub open spec fn follow(
    renames: Seq<(Seq<char>, Seq<char>)>,
    p: Seq<char>,
    n: nat,
) -> Option<Seq<char>>
    decreases n,
{
    if n == 0 {
        Some(p)
    } else {
        match follow(renames, p, (n - 1) as nat) {
            Some(q) => next(renames, q),
            None => None,
        }
    }
}

/// Following the renames from the rename `r` leads back to where it starts.
pub open spec fn on_cycle(renames: Seq<(Seq<char>, Seq<char>)>, r: (Seq<char>, Seq<char>)) -> bool {
    exists|n: nat| n < renames.len() && #[trigger] follow(renames, r.1, n) == Some(r.0)
}

/// What is done about a rename: a move, if the server is known to have the file
/// and no other file takes its place in turn, else a save under the new name.
pub open spec fn rename_plan(
    renames: Seq<(Seq<char>, Seq<char>)>,
    r: (Seq<char>, Seq<char>),
    know: Map<Seq<char>, Observation>,
) -> Plan<Seq<char>> {
    if know.dom().contains(r.0) && !on_cycle(renames, r) {
        Plan::Move { from: r.0, to: r.1, moves: know[r.0] }
    } else {
        Plan::Save {
            path: r.1,
            replaces: lease(know, r.1),
            reuses: if know.dom().contains(r.0) {
                Some(r.0)
            } else {
                None
            },
        }
    }
}

/// The version of a file that the server was last seen to have.
pub open spec fn lease(know: Map<Seq<char>, Observation>, p: Seq<char>) -> Option<Observation> {
    if know.dom().contains(p) {
        Some(know[p])
    } else {
        None
    }
}

/// One plan for each rename.
pub open spec fn rename_plans(
    renames: Seq<(Seq<char>, Seq<char>)>,
    know: Map<Seq<char>, Observation>,
) -> Seq<Plan<Seq<char>>> {
    Seq::new(renames.len(), |i: int| rename_plan(renames, renames[i], know))
}

/// A save for each of the paths that holds something new.
pub open spec fn save_plans(
    paths: Seq<Seq<char>>,
    content: Map<Seq<char>, Content<Seq<char>>>,
    know: Map<Seq<char>, Observation>,
) -> Seq<Plan<Seq<char>>>
    decreases paths.len(),
{
    if paths.len() == 0 {
        Seq::empty()
    } else {
        let before = save_plans(paths.drop_last(), content, know);
        let p = paths.last();
        match content[p] {
            Content::New(from) => before.push(
                Plan::Save { path: p, replaces: lease(know, p), reuses: reusable(from, p, know) },
            ),
            _ => before,
        }
    }
}

/// The base of a save, if it is another file that the server is known to have.
pub open spec fn reusable(
    from: Option<Seq<char>>,
    p: Seq<char>,
    know: Map<Seq<char>, Observation>,
) -> Option<Seq<char>> {
    match from {
        Some(x) => if x != p && know.dom().contains(x) {
            Some(x)
        } else {
            None
        },
        None => None,
    }
}

/// What was at `orig` is nowhere, and nothing is at `orig`.
pub open spec fn is_lost(content: Map<Seq<char>, Content<Seq<char>>>, orig: Seq<char>) -> bool {
    &&& forall|q: Seq<char>| !#[trigger] holds(content, orig, q)
    &&& content.dom().contains(orig)
    &&& content[orig] == Content::<Seq<char>>::Gone
}

/// A removal for each of the files that is lost and that the server is known to
/// have.
pub open spec fn remove_plans(
    origs: Seq<Seq<char>>,
    content: Map<Seq<char>, Content<Seq<char>>>,
    know: Map<Seq<char>, Observation>,
) -> Seq<Plan<Seq<char>>>
    decreases origs.len(),
{
    if origs.len() == 0 {
        Seq::empty()
    } else {
        let before = remove_plans(origs.drop_last(), content, know);
        let orig = origs.last();
        if is_lost(content, orig) && know.dom().contains(orig) {
            before.push(Plan::Remove { path: orig, removes: know[orig] })
        } else {
            before
        }
    }
}

/// All that is to be done on the server for the state of the files that the
/// slate shows: first the moved files, then the written ones, then the lost.
pub open spec fn plans_for(s: SlateView, know: Map<Seq<char>, Observation>) -> Seq<Plan<Seq<char>>> {
    rename_plans(renames_of(s.origs, s.content), know) + save_plans(
        in_order(s.content.dom()),
        s.content,
        know,
    ) + remove_plans(s.origs, s.content, know)
}

/// What is to be done on the server after the operations.
pub open spec fn coalesced(
    s: SlateView,
    ops: Seq<Operation<Seq<char>>>,
    know: Map<Seq<char>, Observation>,
) -> Seq<Plan<Seq<char>>> {
    plans_for(played(s, ops, know), know)
}

/// The contents by the characters of their paths.
pub open spec fn contents_view(m: Map<Seq<char>, Content>) -> Map<Seq<char>, Content<Seq<char>>> {
    m.map_values(|c: Content| c@)
}

/// The files touched so far.
pub struct Slate {
    origs: Vec<RelPath>,
    content: PathMap<Content>,
}

impl View for Slate {
    type V = SlateView;

    closed spec fn view(&self) -> SlateView {
        SlateView { origs: paths_view(self.origs@), content: contents_view(self.content@) }
    }
}

impl Slate {
    #[verifier::type_invariant]
    spec fn inv(self) -> bool {
        paths_view(self.origs@).no_duplicates()
    }
}

impl Default for Slate {
    fn default() -> (r: Slate)
        ensures
            r@ == blank(),
    {
        let r = Slate { origs: Vec::new(), content: PathMap::new() };
        proof {
            assert(r@.origs =~= blank().origs);
            assert(r@.content =~= blank().content);
        }
        r
    }
}

/// Whether `p` is among the paths.
pub fn lists(paths: &Vec<RelPath>, p: &RelPath) -> (r: bool)
    ensures
        r == paths_view(paths@).contains(p@),
{
    let mut i: usize = 0;
    while i < paths.len()
        invariant
            i <= paths@.len(),
            forall|j: int| #![trigger paths@[j]] 0 <= j < i ==> paths@[j]@ != p@,
        decreases paths@.len() - i,
    {
        if paths[i] == *p {
            proof {
                assert(paths_view(paths@)[i as int] == p@);
            }
            return true;
        }
        i += 1;
    }
    proof {
        if paths_view(paths@).contains(p@) {
            let j = choose|j: int| 0 <= j < paths@.len() && paths_view(paths@)[j] == p@;
            assert(paths@[j]@ == p@);
        }
    }
    false
}

fn note(origs: &mut Vec<RelPath>, p: &RelPath)
    requires
        paths_view(old(origs)@).no_duplicates(),
    ensures
        paths_view(final(origs)@) == noted(paths_view(old(origs)@), p@),
        paths_view(final(origs)@).no_duplicates(),
{
    if !lists(origs, p) {
        let ghost before = paths_view(origs@);
        origs.push(p.clone());
        proof {
            assert(paths_view(origs@) =~= before.push(p@));
            let now = paths_view(origs@);
            assert forall|i: int, j: int| 0 <= i < now.len() && 0 <= j < now.len() && i != j implies now[i]
                != now[j] by {
                if i < before.len() && j < before.len() {
                    assert(before[i] != before[j]);
                } else if i < before.len() {
                    assert(before.contains(before[i]));
                } else {
                    assert(before.contains(before[j]));
                }
            }
        }
    }
}

fn put(content: &mut PathMap<Content>, p: &RelPath, c: Content)
    ensures
        contents_view(final(content)@) == contents_view(old(content)@).insert(p@, c@),
{
    let ghost before = content@;
    content.insert(p.clone(), c);
    proof {
        assert(contents_view(content@) =~= contents_view(before).insert(p@, c@));
    }
}

/// The slate with the waiting plans on it.
pub fn seed(pending: &[Plan]) -> (r: Slate)
    ensures
        r@ == seeded(plans_view(pending@)),
{
    let mut origs: Vec<RelPath> = Vec::new();
    let mut content: PathMap<Content> = PathMap::new();
    let mut i: usize = 0;
    proof {
        assert(paths_view(origs@) =~= Seq::empty());
        assert(contents_view(content@) =~= Map::empty());
    }
    while i < pending.len()
        invariant
            i <= pending@.len(),
            paths_view(origs@).no_duplicates(),
            paths_view(origs@) == seeded(plans_view(pending@).take(i as int)).origs,
            contents_view(content@) == seeded(plans_view(pending@).take(i as int)).content,
        decreases pending@.len() - i,
    {
        proof {
            let now = plans_view(pending@).take(i + 1);
            assert(now.drop_last() =~= plans_view(pending@).take(i as int));
            assert(now.last() == pending@[i as int]@);
        }
        match &pending[i] {
            Plan::Save { path, replaces, reuses } => {
                if replaces.is_some() {
                    note(&mut origs, path);
                }
                put(&mut content, path, Content::New(opt_clone(reuses)));
            },
            Plan::Move { from, to, .. } => {
                note(&mut origs, from);
                put(&mut content, to, Content::Orig(from.clone()));
                put(&mut content, from, Content::Gone);
            },
            Plan::Remove { path, .. } => {
                note(&mut origs, path);
                put(&mut content, path, Content::Gone);
            },
        }
        i += 1;
    }
    proof {
        assert(plans_view(pending@).take(i as int) =~= plans_view(pending@));
    }
    Slate { origs, content }
}

fn touch(
    origs: &mut Vec<RelPath>,
    content: &PathMap<Content>,
    p: &RelPath,
    know: &PathMap<Observation>,
)
    requires
        paths_view(old(origs)@).no_duplicates(),
    ensures
        paths_view(final(origs)@).no_duplicates(),
        paths_view(final(origs)@) == touched(
            SlateView { origs: paths_view(old(origs)@), content: contents_view(content@) },
            p@,
            know@,
        ),
{
    if know.contains_key(p) && !content.contains_key(p) {
        note(origs, p);
    }
}

fn content_now(content: &PathMap<Content>, p: &RelPath, know: &PathMap<Observation>) -> (r: Content)
    ensures
        r@ == content_at(contents_view(content@), p@, know@),
{
    match content.get(p) {
        Some(c) => c.clone(),
        None => if know.contains_key(p) {
            Content::Orig(p.clone())
        } else {
            Content::New(None)
        },
    }
}

fn play(
    origs: &mut Vec<RelPath>,
    content: &mut PathMap<Content>,
    op: &Operation,
    know: &PathMap<Observation>,
)
    requires
        paths_view(old(origs)@).no_duplicates(),
    ensures
        paths_view(final(origs)@).no_duplicates(),
        (SlateView {
            origs: paths_view(final(origs)@),
            content: contents_view(final(content)@),
        }) == op_step(
            SlateView { origs: paths_view(old(origs)@), content: contents_view(old(content)@) },
            op@,
            know@,
        ),
{
    match op {
        Operation::Create(p) => {
            touch(origs, content, p, know);
            put(content, p, Content::New(None));
        },
        Operation::Write(p) => {
            touch(origs, content, p, know);
            let from = match content_now(content, p, know) {
                Content::New(x) => x,
                Content::Orig(x) => Some(x),
                Content::Gone => None,
            };
            put(content, p, Content::New(from));
        },
        Operation::Rename(a, b) => {
            touch(origs, content, a, know);
            touch(origs, content, b, know);
            let src = content_now(content, a, know);
            put(content, b, src);
            put(content, a, Content::Gone);
        },
        Operation::Delete(p) => {
            touch(origs, content, p, know);
            put(content, p, Content::Gone);
        },
    }
}

/// Whether the content is what was at `orig`.
fn is_orig(c: &Content, orig: &RelPath) -> (r: bool)
    ensures
        r == (c@ == Content::Orig(orig@)),
{
    match c {
        Content::Orig(x) => x == orig,
        _ => false,
    }
}

pub proof fn lemma_target_is(
    content: Map<Seq<char>, Content<Seq<char>>>,
    orig: Seq<char>,
    p: Seq<char>,
)
    requires
        is_target(content, orig, p),
    ensures
        target(content, orig) == Some(p),
{
    let q = choose|q: Seq<char>| is_target(content, orig, q);
    assert(holds(content, orig, q));
    assert(holds(content, orig, p));
    if p != q {
        crate::text::precedes_transitive(p, q, p);
        crate::text::precedes_irreflexive(p);
    }
}

/// The first path that holds what was at `orig`.
fn find_target(content: &PathMap<Content>, orig: &RelPath) -> (r: Option<RelPath>)
    ensures
        opt_view(r) == target(contents_view(content@), orig@),
        r is None ==> forall|q: Seq<char>| !#[trigger] holds(contents_view(content@), orig@, q),
{
    let n: usize = content.len();
    let ghost keys = walk(content@);
    let ghost view = contents_view(content@);
    proof {
        crate::table::lemma_finite(*content);
        crate::table::lemma_walk_of_finite(content@.dom());
    }
    let mut i: usize = 0;
    while i < n
        invariant
            n == walk(content@).len(),
            keys == walk(content@),
            crate::table::ascending(keys),
            keys.to_set() == content@.dom(),
            view == contents_view(content@),
            i <= n,
            forall|j: int| #![trigger keys[j]] 0 <= j < i ==> !holds(view, orig@, keys[j]),
        decreases n - i,
    {
        if is_orig(content.value(i), orig) {
            let p = content.key(i);
            proof {
                assert(holds(view, orig@, p@));
                assert forall|q: Seq<char>| #[trigger] holds(view, orig@, q) implies q == p@ || precedes(
                    p@,
                    q,
                ) by {
                    assert(keys.to_set().contains(q));
                    let j = choose|j: int| 0 <= j < keys.len() && keys[j] == q;
                    assert(j >= i);
                    if j > i {
                        assert(precedes(keys[i as int], keys[j]));
                    }
                }
                lemma_target_is(view, orig@, p@);
            }
            return Some(p.clone());
        }
        i += 1;
    }
    proof {
        assert forall|q: Seq<char>| !#[trigger] holds(view, orig@, q) by {
            if holds(view, orig@, q) {
                assert(keys.to_set().contains(q));
                let j = choose|j: int| 0 <= j < keys.len() && keys[j] == q;
                assert(!holds(view, orig@, keys[j]));
            }
        }
    }
    None
}

/// The renames by the characters of their paths.
pub open spec fn renames_view(r: Seq<(RelPath, RelPath)>) -> Seq<(Seq<char>, Seq<char>)> {
    Seq::new(r.len(), |i: int| (r[i].0@, r[i].1@))
}

fn find_renames(origs: &Vec<RelPath>, content: &PathMap<Content>) -> (r: Vec<(RelPath, RelPath)>)
    ensures
        renames_view(r@) == renames_of(paths_view(origs@), contents_view(content@)),
{
    let mut out: Vec<(RelPath, RelPath)> = Vec::new();
    let mut i: usize = 0;
    proof {
        assert(renames_view(out@) =~= Seq::empty());
    }
    while i < origs.len()
        invariant
            i <= origs@.len(),
            renames_view(out@) == renames_of(
                paths_view(origs@).take(i as int),
                contents_view(content@),
            ),
        decreases origs@.len() - i,
    {
        let orig = &origs[i];
        let ghost before = out@;
        proof {
            let now = paths_view(origs@).take(i + 1);
            assert(now.drop_last() =~= paths_view(origs@).take(i as int));
            assert(now.last() == orig@);
        }
        match find_target(content, orig) {
            Some(to) => {
                if to != *orig {
                    out.push((orig.clone(), to));
                    proof {
                        assert(renames_view(out@) =~= renames_view(before).push((orig@, to@)));
                    }
                }
            },
            None => {},
        }
        i += 1;
    }
    proof {
        assert(paths_view(origs@).take(i as int) =~= paths_view(origs@));
    }
    out
}

/// Each file moves to one place only.
pub open spec fn distinct_sources(renames: Seq<(Seq<char>, Seq<char>)>) -> bool {
    forall|i: int, j: int|
        #![trigger renames[i], renames[j]]
        0 <= i < renames.len() && 0 <= j < renames.len() && i != j ==> renames[i].0 != renames[j].0
}

pub proof fn lemma_renames(origs: Seq<Seq<char>>, content: Map<Seq<char>, Content<Seq<char>>>)
    ensures
        forall|i: int|
            #![trigger renames_of(origs, content)[i]]
            0 <= i < renames_of(origs, content).len() ==> {
                let r = renames_of(origs, content)[i];
                &&& origs.contains(r.0)
                &&& target(content, r.0) == Some(r.1)
                &&& r.0 != r.1
            },
        origs.no_duplicates() ==> distinct_sources(renames_of(origs, content)),
    decreases origs.len(),
{
    if origs.len() > 0 {
        let front = origs.drop_last();
        lemma_renames(front, content);
        let before = renames_of(front, content);
        let now = renames_of(origs, content);
        assert forall|i: int| #![trigger now[i]] 0 <= i < now.len() implies origs.contains(now[i].0)
            && target(content, now[i].0) == Some(now[i].1) && now[i].0 != now[i].1 by {
            if i < before.len() {
                assert(now[i] == before[i]);
                let j = choose|j: int| 0 <= j < front.len() && front[j] == now[i].0;
                assert(origs[j] == now[i].0);
            } else {
                assert(origs[origs.len() - 1] == now[i].0);
            }
        }
        if origs.no_duplicates() {
            assert(front.no_duplicates()) by {
                assert forall|i: int, j: int| 0 <= i < front.len() && 0 <= j < front.len() && i != j implies front[i]
                    != front[j] by {
                    assert(origs[i] != origs[j]);
                }
            }
            assert forall|i: int, j: int|
                #![trigger now[i], now[j]]
                0 <= i < now.len() && 0 <= j < now.len() && i != j implies now[i].0 != now[j].0 by {
                if i < before.len() && j < before.len() {
                    assert(before[i].0 != before[j].0);
                } else if i < before.len() {
                    assert(front.contains(before[i].0));
                    let k = choose|k: int| 0 <= k < front.len() && front[k] == before[i].0;
                    assert(origs[k] != origs[origs.len() - 1]);
                } else {
                    assert(front.contains(before[j].0));
                    let k = choose|k: int| 0 <= k < front.len() && front[k] == before[j].0;
                    assert(origs[k] != origs[origs.len() - 1]);
                }
            }
        }
    }
}

/// Where the file at `p` moves, if it moves.
fn find_next(renames: &Vec<(RelPath, RelPath)>, p: &RelPath) -> (r: Option<RelPath>)
    requires
        distinct_sources(renames_view(renames@)),
    ensures
        opt_view(r) == next(renames_view(renames@), p@),
{
    let ghost view = renames_view(renames@);
    let mut i: usize = 0;
    while i < renames.len()
        invariant
            i <= renames@.len(),
            view == renames_view(renames@),
            distinct_sources(view),
            forall|j: int| #![trigger view[j]] 0 <= j < i ==> view[j].0 != p@,
        decreases renames@.len() - i,
    {
        if renames[i].0 == *p {
            proof {
                assert(view[i as int].0 == p@);
                let k = choose|k: int| 0 <= k < view.len() && (#[trigger] view[k]).0 == p@;
                assert(k == i) by {
                    if k != i {
                        assert(view[k].0 != view[i as int].0);
                    }
                }
            }
            return Some(renames[i].1.clone());
        }
        i += 1;
    }
    None
}

/// The files whose renames lead back to themselves.
fn cycle_members(renames: &Vec<(RelPath, RelPath)>) -> (r: PathSet)
    requires
        distinct_sources(renames_view(renames@)),
    ensures
        forall|i: int|
            #![trigger renames_view(renames@)[i]]
            0 <= i < renames@.len() ==> (r@.contains(renames@[i].0@) <==> on_cycle(
                renames_view(renames@),
                renames_view(renames@)[i],
            )),
        forall|x: Seq<char>| #[trigger]
            r@.contains(x) ==> exists|i: int|
                0 <= i < renames@.len() && (#[trigger] renames_view(renames@)[i]).0 == x,
{
    let ghost view = renames_view(renames@);
    let mut members = PathSet::new();
    let mut i: usize = 0;
    while i < renames.len()
        invariant
            i <= renames@.len(),
            view == renames_view(renames@),
            distinct_sources(view),
            forall|j: int|
                #![trigger view[j]]
                0 <= j < view.len() ==> (members@.contains(view[j].0) <==> j < i && on_cycle(
                    view,
                    view[j],
                )),
            forall|x: Seq<char>| #[trigger]
                members@.contains(x) ==> exists|j: int|
                    0 <= j < view.len() && (#[trigger] view[j]).0 == x,
        decreases renames@.len() - i,
    {
        let from = &renames[i].0;
        let mut cur = renames[i].1.clone();
        let mut n: usize = 0;
        let mut found = false;
        while n < renames.len() && !found
            invariant
                n <= renames@.len(),
                i < renames@.len(),
                view == renames_view(renames@),
                distinct_sources(view),
                from@ == view[i as int].0,
                !found ==> n == renames@.len() || follow(view, view[i as int].1, n as nat) == Some(cur@),
                !found ==> forall|m: nat| #![trigger follow(view, view[i as int].1, m)]
                    m < n ==> follow(view, view[i as int].1, m) != Some(from@),
                found ==> on_cycle(view, view[i as int]),
            decreases renames@.len() - n, if found { 0int } else { 1int },
        {
            if cur == *from {
                proof {
                    assert(follow(view, view[i as int].1, n as nat) == Some(from@));
                }
                found = true;
            } else {
                match find_next(renames, &cur) {
                    Some(q) => {
                        cur = q;
                        n += 1;
                    },
                    None => {
                        proof {
                            lemma_follow_stops(view, view[i as int].1, n as nat);
                        }
                        n = renames.len();
                    },
                }
            }
        }
        proof {
            if !found && on_cycle(view, view[i as int]) {
                let m = choose|m: nat| m < view.len() && #[trigger] follow(view, view[i as int].1, m)
                    == Some(view[i as int].0);
                assert(m < n);
            }
            assert(found == on_cycle(view, view[i as int]));
        }
        let ghost before = members@;
        if found {
            let _ = members.insert(from.clone());
        }
        proof {
            assert forall|j: int|
                #![trigger view[j]]
                0 <= j < view.len() implies (members@.contains(view[j].0) <==> j < i + 1 && on_cycle(
                view,
                view[j],
            )) by {
                if j != i {
                    assert(view[j].0 != view[i as int].0);
                }
            }
            assert forall|x: Seq<char>| #[trigger] members@.contains(x) implies exists|j: int|
                0 <= j < view.len() && (#[trigger] view[j]).0 == x by {
                if !before.contains(x) {
                    assert(view[i as int].0 == x);
                }
            }
        }
        i += 1;
    }
    members
}

proof fn lemma_follow_stops(renames: Seq<(Seq<char>, Seq<char>)>, p: Seq<char>, n: nat)
    requires
        follow(renames, p, n + 1) is None,
    ensures
        forall|m: nat| m > n ==> #[trigger] follow(renames, p, m) is None,
{
    assert forall|m: nat| m > n implies #[trigger] follow(renames, p, m) is None by {
        lemma_follow_none(renames, p, n + 1, m);
    }
}

proof fn lemma_follow_none(renames: Seq<(Seq<char>, Seq<char>)>, p: Seq<char>, n: nat, m: nat)
    requires
        follow(renames, p, n) is None,
        n <= m,
    ensures
        follow(renames, p, m) is None,
    decreases m,
{
    if m > n {
        lemma_follow_none(renames, p, n, (m - 1) as nat);
    }
}

fn known(know: &PathMap<Observation>, p: &RelPath) -> (r: Option<Observation>)
    ensures
        r == lease(know@, p@),
{
    match know.get(p) {
        Some(o) => Some(*o),
        None => None,
    }
}

/// All that is to be done on the server after the operations, given what the
/// server is known to have.
pub fn coalesce(slate: Slate, ops: &[Operation], know: &PathMap<Observation>) -> (r: Vec<Plan>)
    ensures
        plans_view(r@) == coalesced(slate@, ops_view(ops@), know@),
{
    proof {
        use_type_invariant(&slate);
    }
    let ghost start = slate@;
    let Slate { mut origs, mut content } = slate;
    let mut i: usize = 0;
    while i < ops.len()
        invariant
            i <= ops@.len(),
            paths_view(origs@).no_duplicates(),
            (SlateView { origs: paths_view(origs@), content: contents_view(content@) }) == played(
                start,
                ops_view(ops@).take(i as int),
                know@,
            ),
        decreases ops@.len() - i,
    {
        proof {
            let now = ops_view(ops@).take(i + 1);
            assert(now.drop_last() =~= ops_view(ops@).take(i as int));
            assert(now.last() == ops@[i as int]@);
        }
        play(&mut origs, &mut content, &ops[i], know);
        i += 1;
    }
    proof {
        assert(ops_view(ops@).take(i as int) =~= ops_view(ops@));
    }
    let ghost end = played(start, ops_view(ops@), know@);
    let renames = find_renames(&origs, &content);
    let ghost rview = renames_view(renames@);
    proof {
        lemma_renames(end.origs, end.content);
    }
    let cyclic = cycle_members(&renames);
    let mut out: Vec<Plan> = Vec::new();
    push_renames(&mut out, &renames, &cyclic, know);
    push_saves(&mut out, &content, know);
    push_removes(&mut out, &origs, &content, know);
    proof {
        assert(plans_view(out@) =~= plans_for(end, know@));
    }
    out
}

fn push_renames(
    out: &mut Vec<Plan>,
    renames: &Vec<(RelPath, RelPath)>,
    cyclic: &PathSet,
    know: &PathMap<Observation>,
)
    requires
        forall|i: int|
            #![trigger renames_view(renames@)[i]]
            0 <= i < renames@.len() ==> (cyclic@.contains(renames@[i].0@) <==> on_cycle(
                renames_view(renames@),
                renames_view(renames@)[i],
            )),
    ensures
        plans_view(final(out)@) == plans_view(old(out)@) + rename_plans(
            renames_view(renames@),
            know@,
        ),
{
    let ghost view = renames_view(renames@);
    let ghost start = plans_view(out@);
    let mut i: usize = 0;
    while i < renames.len()
        invariant
            i <= renames@.len(),
            view == renames_view(renames@),
            forall|j: int|
                #![trigger view[j]]
                0 <= j < renames@.len() ==> (cyclic@.contains(renames@[j].0@) <==> on_cycle(
                    view,
                    view[j],
                )),
            plans_view(out@) == start + rename_plans(view, know@).take(i as int),
        decreases renames@.len() - i,
    {
        let from = &renames[i].0;
        let to = &renames[i].1;
        let ghost before = plans_view(out@);
        proof {
            assert(view[i as int] == (from@, to@));
        }
        let plan = match known(know, from) {
            Some(moves) => if !cyclic.contains(from) {
                Plan::Move { from: from.clone(), to: to.clone(), moves }
            } else {
                Plan::Save { path: to.clone(), replaces: known(know, to), reuses: Some(from.clone()) }
            },
            None => Plan::Save { path: to.clone(), replaces: known(know, to), reuses: None },
        };
        out.push(plan);
        proof {
            assert(plan@ == rename_plan(view, view[i as int], know@));
            assert(plans_view(out@) =~= before.push(plan@));
            assert(rename_plans(view, know@).take(i + 1) =~= rename_plans(view, know@).take(
                i as int,
            ).push(plan@));
        }
        i += 1;
    }
    proof {
        assert(rename_plans(view, know@).take(i as int) =~= rename_plans(view, know@));
    }
}

fn push_saves(out: &mut Vec<Plan>, content: &PathMap<Content>, know: &PathMap<Observation>)
    ensures
        plans_view(final(out)@) == plans_view(old(out)@) + save_plans(
            in_order(contents_view(content@).dom()),
            contents_view(content@),
            know@,
        ),
{
    let ghost start = plans_view(out@);
    let ghost view = contents_view(content@);
    let n: usize = content.len();
    let mut i: usize = 0;
    proof {
        assert(view.dom() =~= content@.dom());
        assert(plans_view(out@) =~= start + Seq::<Plan<Seq<char>>>::empty());
    }
    while i < n
        invariant
            n == walk(content@).len(),
            i <= n,
            view == contents_view(content@),
            plans_view(out@) == start + save_plans(walk(content@).take(i as int), view, know@),
        decreases n - i,
    {
        let p = content.key(i);
        let ghost before = plans_view(out@);
        proof {
            let now = walk(content@).take(i + 1);
            assert(now.drop_last() =~= walk(content@).take(i as int));
            assert(now.last() == p@);
        }
        match content.value(i) {
            Content::New(from) => {
                let reuses = match from {
                    Some(x) => if x != p && know.contains_key(x) {
                        Some(x.clone())
                    } else {
                        None
                    },
                    None => None,
                };
                let plan = Plan::Save { path: p.clone(), replaces: known(know, p), reuses };
                out.push(plan);
                proof {
                    assert(plans_view(out@) =~= before.push(plan@));
                }
            },
            _ => {},
        }
        i += 1;
    }
    proof {
        assert(walk(content@).take(i as int) =~= walk(content@));
    }
}

fn push_removes(
    out: &mut Vec<Plan>,
    origs: &Vec<RelPath>,
    content: &PathMap<Content>,
    know: &PathMap<Observation>,
)
    ensures
        plans_view(final(out)@) == plans_view(old(out)@) + remove_plans(
            paths_view(origs@),
            contents_view(content@),
            know@,
        ),
{
    let ghost start = plans_view(out@);
    let ghost view = contents_view(content@);
    let mut i: usize = 0;
    proof {
        assert(plans_view(out@) =~= start + Seq::<Plan<Seq<char>>>::empty());
    }
    while i < origs.len()
        invariant
            i <= origs@.len(),
            view == contents_view(content@),
            plans_view(out@) == start + remove_plans(paths_view(origs@).take(i as int), view, know@),
        decreases origs@.len() - i,
    {
        let orig = &origs[i];
        let ghost before = plans_view(out@);
        proof {
            let now = paths_view(origs@).take(i + 1);
            assert(now.drop_last() =~= paths_view(origs@).take(i as int));
            assert(now.last() == orig@);
        }
        let survives = find_target(content, orig);
        proof {
            if survives is Some {
                let p = survives->0@;
                assert(is_target(view, orig@, p));
                assert(holds(view, orig@, p));
            }
        }
        let gone = match content.get(orig) {
            Some(Content::Gone) => true,
            _ => false,
        };
        if survives.is_none() && gone {
            match known(know, orig) {
                Some(removes) => {
                    let plan = Plan::Remove { path: orig.clone(), removes };
                    out.push(plan);
                    proof {
                        assert(plans_view(out@) =~= before.push(plan@));
                    }
                },
                None => {},
            }
        }
        i += 1;
    }
    proof {
        assert(paths_view(origs@).take(i as int) =~= paths_view(origs@));
    }
}

} // verus!
