//! What holds of every file that stands for one of the server.
use crate::ledger::LedgerView;
use crate::model::{seen_at, Meta, Moment, Observation};
use crate::path::{child_of, dir_of};
use crate::placeholder::{
    adopted, classified, cleared_dir, cleared_file, dir_change, file_change, gone_after,
    is_as_expected, is_clean, is_clean_tree, is_refreshing, is_unchanged, left_over, listing_deeds,
    marking_of, may_be_listed, meeting_of, name_at, pin_step, reconciled, stale_deeds, stale_file,
    tended, wanted, wanted_after, was_listed, Adoption, Change, Deed, FileState, Marking, Meeting,
    Node, Pin, PinStep, PlaceholderState, Stale, Tending, Vacuum, STUCK,
};
use crate::sdk::FileType;
use crate::state::Tick;
use crate::view::{is_listed, InfoView};
use vstd::prelude::*;

verus! {

/// A file that does not stand for one of the server is new if the server was never
/// seen to have it, and else was put here by somebody. One that does has been edited
/// unless it is as it was there, and is here in name only where it has to be called
/// or a part is missing.
pub proof fn law_what_a_file_is(observed: bool, ps: PlaceholderState, recall: bool, pin: Pin)
    ensures
        ({
            let state = classified(observed, ps, recall, pin);
            &&& state is New <==> !ps.placeholder && !observed
            &&& state is Foreign <==> !ps.placeholder && observed
            &&& state is Edited <==> ps.placeholder && !ps.in_sync
            &&& state is Dehydrated <==> ps.placeholder && ps.in_sync && (recall || ps.partial)
            &&& state is Cached <==> ps.placeholder && ps.in_sync && !recall && !ps.partial
            &&& state matches FileState::Dehydrated(p) ==> p == pin
            &&& state matches FileState::Cached(p) ==> p == pin
        }),
{
}

/// A change is an edit where the file was edited or is new. A pinned file that is
/// here in name only is fetched, and one that is not wanted any more is emptied.
pub proof fn law_what_a_change_of_a_file_comes_to(state: Option<FileState>)
    ensures
        file_change(state) == Change::Modified <==> state is Some && (state->0 is Edited
            || state->0 is New),
        file_change(state) == Change::Hydrate <==> state == Some(FileState::Dehydrated(Pin::Pinned)),
        file_change(state) == Change::Dehydrate <==> state == Some(FileState::Cached(Pin::Unpinned)),
        file_change(state) != Change::Mkdir && file_change(state) != Change::PinSubtree,
{
}

/// A sweep finds edits that nobody told us of, fetches what is pinned, and empties
/// what is not wanted any more.
pub proof fn law_what_a_sweep_does(l: LedgerView, p: Seq<char>, state: Option<FileState>)
    ensures
        tended(l, p, state) == Tending::Arm <==> state == Some(FileState::Edited)
            && !l.dirty.contains(p),
        tended(l, p, state) == Tending::Hydrate <==> state == Some(FileState::Dehydrated(Pin::Pinned)),
        tended(l, p, state) == Tending::Dehydrate <==> state == Some(FileState::Cached(Pin::Unpinned)),
{
}

/// A file is as it is on the server where it holds no edits and stands for one there,
/// here or in name only.
pub proof fn law_when_a_file_is_clean(l: LedgerView, p: Seq<char>, state: Option<FileState>)
    ensures
        is_clean(l, p, state) <==> !l.dirty.contains(p) && state is Some && !(state->0 is Edited)
            && !(state->0 is New) && !(state->0 is Foreign),
{
}

/// A tree is as it is on the server only if all that is in it is; what cannot be read
/// or told may hold edits.
pub proof fn law_when_a_tree_is_clean(l: LedgerView, node: Node, i: int)
    requires
        is_clean_tree(l, node),
    ensures
        !(node is Unknown),
        node matches Node::File { path, state } ==> is_clean(l, path@, state),
        node matches Node::Dir { found, readable, children } ==> {
            &&& found is Some && found->0.placeholder
            &&& !found->0.partial ==> readable
            &&& !found->0.partial && 0 <= i < children@.len() ==> is_clean_tree(l, children@[i])
        },
{
}

/// A directory that was never listed here holds nothing, so that it is clean; one that
/// was is clean if all that is in it is.
pub proof fn law_a_clean_directory(
    l: LedgerView,
    st: PlaceholderState,
    readable: bool,
    children: Vec<Node>,
)
    requires
        st.placeholder,
        st.partial || (readable && forall|i: int|
            0 <= i < children@.len() ==> is_clean_tree(l, #[trigger] children@[i])),
    ensures
        is_clean_tree(l, Node::Dir { found: Some(st), readable, children }),
{
}

/// A file that the server does not have is removed only where it is as it was there;
/// a new one of which nobody told us is an edit, and all else stays.
pub proof fn law_what_becomes_of_a_file_the_server_lacks(
    l: LedgerView,
    p: Seq<char>,
    state: Option<FileState>,
)
    ensures
        stale_file(l, p, state) == Stale::Remove <==> !l.dirty.contains(p) && state is Some && (
        state->0 is Cached || state->0 is Dehydrated),
        stale_file(l, p, state) == Stale::Modified <==> !l.dirty.contains(p) && state
            == Some(FileState::New),
{
}

/// A file that somebody put here is taken for that of the server only where it is the
/// version that was last seen; where none was seen it is an edit; where it is another
/// one, or is known to hold edits, it is left alone.
pub proof fn law_what_becomes_of_a_file_put_here(l: LedgerView, p: Seq<char>, md: Meta)
    ensures
        adopted(l, p, md) == Adoption::MarkInSync <==> !l.dirty.contains(p)
            && l.observations.dom().contains(p) && l.observations[p] == seen_at(md),
        adopted(l, p, md) == Adoption::Modified <==> !l.dirty.contains(p)
            && !l.observations.dom().contains(p),
{
}

/// A file is still that of the server where the version last seen is the one that the
/// server has now; where none was seen, where the file itself is.
pub proof fn law_when_a_file_is_still_the_servers(
    l: LedgerView,
    p: Seq<char>,
    remote: Observation,
    md: Meta,
)
    ensures
        l.observations.dom().contains(p) ==> (is_unchanged(l, p, remote, md) <==> l.observations[p]
            == remote),
        !l.observations.dom().contains(p) ==> (is_unchanged(l, p, remote, md) <==> md.size
            == remote.size && crate::model::whole_secs(md.mtime) == remote.time),
{
}

/// A directory is not refreshed twice at a time, unless the first refresh has hung
/// for long.
pub proof fn law_a_directory_is_refreshed_once_at_a_time(
    since: Map<Seq<char>, Tick>,
    dir: Seq<char>,
    now: Tick,
)
    ensures
        !since.dom().contains(dir) ==> !is_refreshing(since, dir, now),
        since.dom().contains(dir) ==> (is_refreshing(since, dir, now) <==> now < since[dir] + STUCK),
{
}

/// No name is found twice in the directory.
pub open spec fn are_distinct(local: Seq<(Seq<char>, bool)>) -> bool {
    forall|i: int, j: int|
        #![trigger local[i], local[j]]
        0 <= i < j < local.len() ==> local[i].0 != local[j].0
}

proof fn lemma_name_at(local: Seq<(Seq<char>, bool)>, name: Seq<char>)
    ensures
        ({
            let i = name_at(local, name);
            &&& -1 <= i < local.len()
            &&& i >= 0 ==> local[i].0 == name
            &&& i < 0 ==> forall|k: int| 0 <= k < local.len() ==> (#[trigger] local[k]).0 != name
        }),
    decreases local.len(),
{
    if local.len() > 0 {
        let front = local.drop_last();
        lemma_name_at(front, name);
        if name_at(local, name) < 0 {
            assert forall|k: int| 0 <= k < local.len() implies (#[trigger] local[k]).0 != name by {
                if k < front.len() {
                    assert(front[k] == local[k]);
                }
            }
        }
    }
}

proof fn lemma_left_over(
    dir: Seq<char>,
    listing: Seq<InfoView>,
    local: Seq<(Seq<char>, bool)>,
    item: (Seq<char>, bool),
)
    requires
        are_distinct(local),
    ensures
        are_distinct(left_over(dir, listing, local)),
        left_over(dir, listing, local).contains(item) <==> local.contains(item) && !(is_listed(
            listing,
            item.0,
        ) && dir_of(child_of(dir, item.0)) == dir),
    decreases listing.len(),
{
    if listing.len() > 0 {
        let front = listing.drop_last();
        let e = listing.last();
        let before = left_over(dir, front, local);
        let after = left_over(dir, listing, local);
        lemma_left_over(dir, front, local, item);
        lemma_name_at(before, e.name);
        let at = name_at(before, e.name);
        assert(is_listed(listing, item.0) <==> is_listed(front, item.0) || e.name == item.0) by {
            if is_listed(front, item.0) {
                let i = choose|i: int| 0 <= i < front.len() && (#[trigger] front[i]).name == item.0;
                assert(listing[i].name == item.0);
            }
            if e.name == item.0 {
                assert(listing[listing.len() - 1].name == item.0);
            }
            if is_listed(listing, item.0) {
                let i = choose|i: int| 0 <= i < listing.len() && (#[trigger] listing[i]).name == item.0;
                if i < front.len() {
                    assert(front[i].name == item.0);
                }
            }
        }
        if dir_of(child_of(dir, e.name)) == dir && at >= 0 {
            assert forall|i: int, j: int|
                #![trigger after[i], after[j]]
                0 <= i < j < after.len() implies after[i].0 != after[j].0 by {
                let a = if i < at {
                    i
                } else {
                    i + 1
                };
                let b = if j < at {
                    j
                } else {
                    j + 1
                };
                assert(before[a] == after[i] && before[b] == after[j]);
            }
            if before.contains(item) && item.0 != e.name {
                let k = choose|k: int| 0 <= k < before.len() && before[k] == item;
                assert(k != at);
                assert(after[if k < at {
                    k
                } else {
                    k - 1
                }] == item);
            }
            if after.contains(item) {
                let k = choose|k: int| 0 <= k < after.len() && after[k] == item;
                let b = if k < at {
                    k
                } else {
                    k + 1
                };
                assert(before[b] == item);
                assert(before[b].0 != before[at].0) by {
                    if b < at {
                        assert(before[b].0 != before[at].0);
                    } else {
                        assert(before[at].0 != before[b].0);
                    }
                }
            }
        } else if before.contains(item) && item.0 == e.name && at < 0 {
            let k = choose|k: int| 0 <= k < before.len() && before[k] == item;
            assert(before[k].0 == e.name);
        }
    } else {
        assert(!is_listed(listing, item.0));
    }
}

/// What the server lists in a directory is put here in name only where there is
/// nothing of that name here, and else compared with what is; names that lead
/// elsewhere are passed over.
pub proof fn law_what_the_server_lists_is_put_here_or_compared(
    dir: Seq<char>,
    listing: Seq<InfoView>,
    e: InfoView,
    local: Seq<(Seq<char>, bool)>,
    is_dir: bool,
)
    requires
        are_distinct(local),
        listing.len() < usize::MAX,
        !is_listed(listing, e.name),
    ensures
        ({
            let path = child_of(dir, e.name);
            let before = listing_deeds(dir, listing, local);
            let after = listing_deeds(dir, listing.push(e), local);
            let is_here = exists|k: int| 0 <= k < local.len() && (#[trigger] local[k]).0 == e.name;
            if dir_of(path) != dir {
                after == before
            } else {
                &&& after.len() == before.len() + 1
                &&& after.drop_last() == before
                &&& local.contains((e.name, is_dir)) ==> after.last() == (Deed::Compare {
                    path,
                    i: listing.len() as usize,
                    is_dir,
                })
                &&& !is_here ==> after.last() == (Deed::Place { path, i: listing.len() as usize })
            }
        }),
        listing_deeds(dir, Seq::empty(), local).len() == 0,
{
    let all = listing.push(e);
    assert(all.drop_last() =~= listing);
    let left = left_over(dir, listing, local);
    lemma_left_over(dir, listing, local, (e.name, is_dir));
    lemma_name_at(left, e.name);
    let at = name_at(left, e.name);
    let before = listing_deeds(dir, listing, local);
    let after = listing_deeds(dir, all, local);
    if dir_of(child_of(dir, e.name)) == dir {
        assert(after.drop_last() =~= before);
        if local.contains((e.name, is_dir)) {
            let k = choose|k: int| 0 <= k < left.len() && left[k] == (e.name, is_dir);
            assert(left[k].0 == e.name);
            assert(at >= 0);
            if at < k {
                assert(left[at].0 != left[k].0);
            }
            if k < at {
                assert(left[k].0 != left[at].0);
            }
        }
        if !(exists|k: int| 0 <= k < local.len() && (#[trigger] local[k]).0 == e.name) && at >= 0 {
            lemma_left_over(dir, listing, local, left[at]);
            assert(left.contains(left[at]));
            let k = choose|k: int| 0 <= k < local.len() && local[k] == left[at];
            assert(local[k].0 == e.name);
        }
    }
}

proof fn lemma_stale(
    dir: Seq<char>,
    local: Seq<(Seq<char>, bool)>,
    k: int,
)
    requires
        0 <= k < local.len(),
        dir_of(child_of(dir, local[k].0)) == dir,
    ensures
        stale_deeds(dir, local).contains(
            Deed::DropStale { path: child_of(dir, local[k].0), is_dir: local[k].1 },
        ),
    decreases local.len(),
{
    let front = local.drop_last();
    let before = stale_deeds(dir, front);
    let after = stale_deeds(dir, local);
    let deed = Deed::DropStale { path: child_of(dir, local[k].0), is_dir: local[k].1 };
    if k < front.len() {
        assert(front[k] == local[k]);
        lemma_stale(dir, front, k);
        let j = choose|j: int| 0 <= j < before.len() && before[j] == deed;
        assert(after[j] == deed);
    } else {
        assert(after[before.len() as int] == deed);
    }
}

proof fn lemma_only_stale(dir: Seq<char>, local: Seq<(Seq<char>, bool)>, j: int)
    requires
        0 <= j < stale_deeds(dir, local).len(),
    ensures
        exists|k: int|
            0 <= k < local.len() && stale_deeds(dir, local)[j] == (Deed::DropStale {
                path: child_of(dir, (#[trigger] local[k]).0),
                is_dir: local[k].1,
            }),
    decreases local.len(),
{
    let front = local.drop_last();
    let before = stale_deeds(dir, front);
    if j < before.len() {
        lemma_only_stale(dir, front, j);
        let k = choose|k: int|
            0 <= k < front.len() && before[j] == (Deed::DropStale {
                path: child_of(dir, (#[trigger] front[k]).0),
                is_dir: front[k].1,
            });
        assert(local[k] == front[k]);
    } else {
        assert(local[local.len() - 1] == local.last());
    }
}

/// What is here and the server does not list is looked at, and nothing else is: what
/// the server lists is never taken for gone.
pub proof fn law_what_the_server_lacks_is_looked_at(
    dir: Seq<char>,
    listing: Seq<InfoView>,
    local: Seq<(Seq<char>, bool)>,
    k: int,
    j: int,
)
    requires
        are_distinct(local),
        0 <= k < local.len(),
        dir_of(child_of(dir, local[k].0)) == dir,
    ensures
        ({
            let deeds = reconciled(dir, listing, local);
            let first = listing_deeds(dir, listing, local);
            &&& first.is_prefix_of(deeds)
            &&& !is_listed(listing, local[k].0) ==> deeds.contains(
                Deed::DropStale { path: child_of(dir, local[k].0), is_dir: local[k].1 },
            )
            &&& first.len() <= j < deeds.len() ==> exists|m: int|
                0 <= m < local.len() && deeds[j] == (Deed::DropStale {
                    path: child_of(dir, (#[trigger] local[m]).0),
                    is_dir: local[m].1,
                }) && (is_listed(listing, local[m].0) ==> dir_of(child_of(dir, local[m].0)) != dir)
        }),
{
    let first = listing_deeds(dir, listing, local);
    let left = left_over(dir, listing, local);
    let rest = stale_deeds(dir, left);
    let deeds = reconciled(dir, listing, local);
    assert(first =~= deeds.subrange(0, first.len() as int));
    lemma_left_over(dir, listing, local, local[k]);
    if !is_listed(listing, local[k].0) {
        assert(local.contains(local[k]));
        let i = choose|i: int| 0 <= i < left.len() && left[i] == local[k];
        lemma_stale(dir, left, i);
        let deed = Deed::DropStale { path: child_of(dir, local[k].0), is_dir: local[k].1 };
        let d = choose|d: int| 0 <= d < rest.len() && rest[d] == deed;
        assert(deeds[first.len() + d] == deed);
    }
    if first.len() <= j < deeds.len() {
        let d = j - first.len();
        assert(deeds[j] == rest[d]);
        lemma_only_stale(dir, left, d);
        let i = choose|i: int|
            0 <= i < left.len() && rest[d] == (Deed::DropStale {
                path: child_of(dir, (#[trigger] left[i]).0),
                is_dir: left[i].1,
            });
        lemma_left_over(dir, listing, local, left[i]);
        assert(left.contains(left[i]));
        let m = choose|m: int| 0 <= m < local.len() && local[m] == left[i];
        assert(local[m] == left[i]);
    }
}

/// What is no placeholder yet becomes one, and what is one is only marked.
pub proof fn law_how_a_file_is_put_in_sync(state: PlaceholderState)
    ensures
        marking_of(state) == Marking::Convert <==> !state.placeholder,
{
}

/// A file is wanted here where it is marked so, whatever else is marked, and is not
/// wanted where only that is marked.
pub proof fn law_what_is_wanted_of_a_file(pinned: bool, unpinned: bool)
    ensures
        wanted(pinned, unpinned) == Pin::Pinned <==> pinned,
        wanted(pinned, unpinned) == Pin::Unpinned <==> unpinned && !pinned,
{
}

/// A directory that is new here is made on the server, and one that is pinned is
/// fetched with all that lies below it.
pub proof fn law_what_a_change_of_a_directory_comes_to(state: Option<PlaceholderState>, pin: Pin)
    ensures
        dir_change(state, pin) == Change::Mkdir <==> state is Some && !state->0.placeholder,
        dir_change(state, pin) == Change::PinSubtree <==> state is Some && state->0.placeholder && pin
            == Pin::Pinned,
        dir_change(state, pin) != Change::Mkdir && dir_change(state, pin) != Change::PinSubtree
            ==> dir_change(state, pin) == Change::Nothing,
{
}

/// Where a file and a directory have the same name nothing is done. A directory of our
/// own stands for that of the server from now on, a file that stands for one is
/// looked at for a newer version, and one that does not is looked at for being the
/// same; a file that was edited is left alone.
pub proof fn law_what_becomes_of_what_is_here_and_there(
    kind: FileType,
    is_dir: bool,
    state: Option<PlaceholderState>,
    file: Option<FileState>,
)
    ensures
        ({
            let r = meeting_of(kind, is_dir, state, file);
            &&& (kind == FileType::Directory) != is_dir ==> r == Meeting::Nothing
            &&& r == Meeting::AdoptDir <==> kind == FileType::Directory && is_dir && state is Some
                && !state->0.placeholder
            &&& r == Meeting::Freshen <==> kind == FileType::File && !is_dir && file is Some && (
            file->0 is Cached || file->0 is Dehydrated)
            &&& r == Meeting::Adopt <==> kind == FileType::File && !is_dir && file is Some && (
            file->0 is Foreign || file->0 is New)
            &&& file == Some(FileState::Edited) && !is_dir ==> r == Meeting::Nothing
        }),
{
}

/// What is pinned with its directory: what is not wanted is passed over, and so is
/// what could not be pinned; a directory is looked into, and a file that is here in
/// name only is fetched.
pub proof fn law_what_is_pinned_with_its_directory(
    pin: Pin,
    pinned: bool,
    is_dir: bool,
    state: Option<FileState>,
)
    ensures
        ({
            let r = pin_step(pin, pinned, is_dir, state);
            let passed = pin == Pin::Unpinned || (pin != Pin::Pinned && !pinned);
            &&& r == PinStep::Skip <==> passed
            &&& r == PinStep::Descend <==> !passed && is_dir
            &&& r == PinStep::Hydrate <==> !passed && !is_dir && state is Some
                && state->0 is Dehydrated
        }),
        wanted_after(pin, false, pinned) == pin,
        wanted_after(pin, true, false) == pin,
        wanted_after(pin, true, true) == if pin == Pin::Unspecified {
            Pin::Pinned
        } else {
            pin
        },
{
}

/// Where everything is cleared away, nothing goes that may hold edits: a file goes only
/// if it is as it is on the server, a directory as a whole only if it was never listed
/// here, and one of our own stays.
pub proof fn law_what_is_cleared_away(
    l: LedgerView,
    p: Seq<char>,
    file: Option<FileState>,
    dir: Option<PlaceholderState>,
    emptied: bool,
    removed: bool,
)
    ensures
        cleared_file(l, p, file) == Vacuum::Delete <==> is_clean(l, p, file),
        !is_clean(l, p, file) ==> cleared_file(l, p, file) == Vacuum::Keep,
        cleared_dir(dir) == Vacuum::RemoveTree <==> dir is Some && dir->0.placeholder && dir->0.partial,
        cleared_dir(dir) == Vacuum::ClearAndRemove <==> dir is Some && dir->0.placeholder
            && !dir->0.partial,
        dir is None || !dir->0.placeholder ==> cleared_dir(dir) == Vacuum::Clear,
        gone_after(cleared_file(l, p, file), emptied, removed) ==> removed && is_clean(l, p, file),
        is_clean(l, p, file) && removed ==> gone_after(cleared_file(l, p, file), emptied, removed),
        gone_after(Vacuum::ClearAndRemove, emptied, removed) <==> emptied && removed,
        gone_after(Vacuum::RemoveTree, emptied, removed) <==> removed,
        !gone_after(Vacuum::Clear, emptied, removed),
{
}

/// A directory that stands for one of the server and of which a part is missing was
/// not listed here; the root always was, and of what cannot be told it may be so.
pub proof fn law_which_directories_were_listed(is_root: bool, state: Option<PlaceholderState>)
    ensures
        is_root ==> was_listed(is_root, state),
        state matches Some(st) ==> may_be_listed(state) == !(st.placeholder && st.partial),
        state is Some && !is_root ==> was_listed(is_root, state) == may_be_listed(state),
        state is None ==> may_be_listed(state) && was_listed(is_root, state) == is_root,
{
}

/// A file that was written since is not taken for what it was.
pub proof fn law_a_file_written_since_is_not_taken(expected: Moment, now: Option<Moment>)
    ensures
        is_as_expected(Some(expected), now) <==> now == Some(expected),
        is_as_expected(None, now),
{
}

} // verus!
