//! What holds of every listing that the user sees.
use crate::journal::lease;
use crate::ledger::{is_local_only, LedgerView};
use crate::model::{Fate, Meta, Observation};
use crate::path::{
    base_name, child_of, dir_of, is_path, is_step, law_child_of_a_step, law_parent_and_name,
};
use crate::sdk::FileType;
use crate::state::StateView;
use crate::table::{in_order, lemma_walk_of_finite, walk};
use crate::view::{
    is_current, is_listed, is_unknown, listed_all, listed_one, mirrors, news_in, overlaid,
    overwritten, shown, still_there, upstream, with_arrivals, with_file, with_local_files, InfoView,
};
use vstd::prelude::*;

verus! {

/// All keys are paths, and there are finitely many.
pub open spec fn are_fates(fates: Map<Seq<char>, Fate<Seq<char>>>) -> bool {
    &&& fates.dom().finite()
    &&& forall|p: Seq<char>| #[trigger] fates.dom().contains(p) ==> is_path(p)
}

/// All members are paths, and there are finitely many.
pub open spec fn are_marks(dirty: Set<Seq<char>>) -> bool {
    &&& dirty.finite()
    &&& forall|p: Seq<char>| #[trigger] dirty.contains(p) ==> is_path(p)
}

/// No name stands twice in the listing.
pub open spec fn has_no_double(listing: Seq<InfoView>) -> bool {
    forall|i: int, j: int|
        #![trigger listing[i], listing[j]]
        0 <= i < j < listing.len() ==> listing[i].name != listing[j].name
}

proof fn lemma_with_file(listing: Seq<InfoView>, name: Seq<char>, e: InfoView)
    requires
        e.name == name,
    ensures
        with_file(listing, name, e.size->0, e.mtime).len() >= listing.len(),
        with_file(listing, name, e.size->0, e.mtime).take(listing.len() as int) == listing,
        is_listed(with_file(listing, name, e.size->0, e.mtime), name),
        has_no_double(listing) ==> has_no_double(with_file(listing, name, e.size->0, e.mtime)),
        forall|other: Seq<char>| #[trigger]
            is_listed(with_file(listing, name, e.size->0, e.mtime), other) <==> is_listed(
                listing,
                other,
            ) || other == name,
{
    let r = with_file(listing, name, e.size->0, e.mtime);
    assert(r.take(listing.len() as int) =~= listing);
    if !is_listed(listing, name) {
        assert(r[listing.len() as int].name == name);
        assert forall|other: Seq<char>| #[trigger] is_listed(r, other) <==> is_listed(
            listing,
            other,
        ) || other == name by {
            if is_listed(listing, other) {
                let i = choose|i: int|
                    0 <= i < listing.len() && (#[trigger] listing[i]).name == other;
                assert(r[i].name == other);
            }
            if is_listed(r, other) {
                let i = choose|i: int| 0 <= i < r.len() && (#[trigger] r[i]).name == other;
                if i < listing.len() {
                    assert(listing[i].name == other);
                }
            }
        }
        if has_no_double(listing) {
            assert forall|i: int, j: int|
                #![trigger r[i], r[j]]
                0 <= i < j < r.len() implies r[i].name != r[j].name by {
                assert(r[i] == listing[i]);
                if j < listing.len() {
                    assert(r[j] == listing[j]);
                }
            }
        }
    }
}

proof fn lemma_arrivals(
    listing: Seq<InfoView>,
    paths: Seq<Seq<char>>,
    fates: Map<Seq<char>, Fate<Seq<char>>>,
    dir: Seq<char>,
    metas: Map<Seq<char>, Meta>,
)
    ensures
        with_arrivals(listing, paths, fates, dir, metas).len() >= listing.len(),
        with_arrivals(listing, paths, fates, dir, metas).take(listing.len() as int) == listing,
        has_no_double(listing) ==> has_no_double(with_arrivals(listing, paths, fates, dir, metas)),
        forall|name: Seq<char>| #[trigger]
            is_listed(with_arrivals(listing, paths, fates, dir, metas), name) <==> (is_listed(
                listing,
                name,
            ) || exists|i: int|
                0 <= i < paths.len() && fates[#[trigger] paths[i]] is Arrived && dir_of(paths[i])
                    == dir && base_name(paths[i]) == name),
    decreases paths.len(),
{
    let r = with_arrivals(listing, paths, fates, dir, metas);
    if paths.len() == 0 {
        assert(r.take(listing.len() as int) =~= listing);
    } else {
        let init = paths.drop_last();
        let before = with_arrivals(listing, init, fates, dir, metas);
        let p = paths.last();
        lemma_arrivals(listing, init, fates, dir, metas);
        if fates[p] is Arrived && dir_of(p) == dir {
            let size = if metas.dom().contains(p) {
                metas[p].size
            } else {
                fates[p]->was.size
            };
            let mtime = if metas.dom().contains(p) {
                metas[p].mtime
            } else {
                Some(crate::model::Moment { secs: fates[p]->was.time as i64, nanos: 0 })
            };
            lemma_with_file(
                before,
                base_name(p),
                InfoView {
                    name: base_name(p),
                    kind: crate::sdk::FileType::File,
                    size: Some(size),
                    mtime,
                },
            );
            assert(r.take(listing.len() as int) =~= r.take(before.len() as int).take(
                listing.len() as int,
            ));
        }
        assert forall|name: Seq<char>| #[trigger] is_listed(r, name) <==> (is_listed(listing, name)
            || exists|i: int|
            0 <= i < paths.len() && fates[#[trigger] paths[i]] is Arrived && dir_of(paths[i]) == dir
                && base_name(paths[i]) == name) by {
            if is_listed(r, name) && !is_listed(listing, name) {
                if is_listed(before, name) {
                    let i = choose|i: int|
                        0 <= i < init.len() && fates[#[trigger] init[i]] is Arrived && dir_of(
                            init[i],
                        ) == dir && base_name(init[i]) == name;
                    assert(paths[i] == init[i]);
                } else {
                    assert(paths[paths.len() - 1] == p);
                }
            }
            if exists|i: int|
                0 <= i < paths.len() && fates[#[trigger] paths[i]] is Arrived && dir_of(paths[i])
                    == dir && base_name(paths[i]) == name {
                let i = choose|i: int|
                    0 <= i < paths.len() && fates[#[trigger] paths[i]] is Arrived && dir_of(
                        paths[i],
                    ) == dir && base_name(paths[i]) == name;
                if i < init.len() {
                    assert(init[i] == paths[i]);
                    assert(is_listed(before, name));
                }
            }
        }
    }
}

proof fn lemma_local_files(
    listing: Seq<InfoView>,
    paths: Seq<Seq<char>>,
    l: LedgerView,
    dir: Seq<char>,
    metas: Map<Seq<char>, Meta>,
)
    ensures
        with_local_files(listing, paths, l, dir, metas).len() >= listing.len(),
        with_local_files(listing, paths, l, dir, metas).take(listing.len() as int) == listing,
        has_no_double(listing) ==> has_no_double(with_local_files(listing, paths, l, dir, metas)),
        forall|name: Seq<char>| #[trigger]
            is_listed(with_local_files(listing, paths, l, dir, metas), name) <==> (is_listed(
                listing,
                name,
            ) || exists|i: int|
                0 <= i < paths.len() && is_local_only(l, #[trigger] paths[i]) && dir_of(paths[i])
                    == dir && metas.dom().contains(paths[i]) && base_name(paths[i]) == name),
    decreases paths.len(),
{
    let r = with_local_files(listing, paths, l, dir, metas);
    if paths.len() == 0 {
        assert(r.take(listing.len() as int) =~= listing);
    } else {
        let init = paths.drop_last();
        let before = with_local_files(listing, init, l, dir, metas);
        let p = paths.last();
        lemma_local_files(listing, init, l, dir, metas);
        if is_local_only(l, p) && dir_of(p) == dir && metas.dom().contains(p) {
            lemma_with_file(
                before,
                base_name(p),
                InfoView {
                    name: base_name(p),
                    kind: crate::sdk::FileType::File,
                    size: Some(metas[p].size),
                    mtime: metas[p].mtime,
                },
            );
            assert(r.take(listing.len() as int) =~= r.take(before.len() as int).take(
                listing.len() as int,
            ));
        }
        assert forall|name: Seq<char>| #[trigger] is_listed(r, name) <==> (is_listed(listing, name)
            || exists|i: int|
            0 <= i < paths.len() && is_local_only(l, #[trigger] paths[i]) && dir_of(paths[i]) == dir
                && metas.dom().contains(paths[i]) && base_name(paths[i]) == name) by {
            if is_listed(r, name) && !is_listed(listing, name) {
                if is_listed(before, name) {
                    let i = choose|i: int|
                        0 <= i < init.len() && is_local_only(l, #[trigger] init[i]) && dir_of(
                            init[i],
                        ) == dir && metas.dom().contains(init[i]) && base_name(init[i]) == name;
                    assert(paths[i] == init[i]);
                } else {
                    assert(paths[paths.len() - 1] == p);
                }
            }
            if exists|i: int|
                0 <= i < paths.len() && is_local_only(l, #[trigger] paths[i]) && dir_of(paths[i])
                    == dir && metas.dom().contains(paths[i]) && base_name(paths[i]) == name {
                let i = choose|i: int|
                    0 <= i < paths.len() && is_local_only(l, #[trigger] paths[i]) && dir_of(
                        paths[i],
                    ) == dir && metas.dom().contains(paths[i]) && base_name(paths[i]) == name;
                if i < init.len() {
                    assert(init[i] == paths[i]);
                    assert(is_listed(before, name));
                }
            }
        }
    }
}

proof fn lemma_still_there(
    fates: Map<Seq<char>, Fate<Seq<char>>>,
    dir: Seq<char>,
    listing: Seq<InfoView>,
)
    ensures
        forall|name: Seq<char>| #[trigger]
            is_listed(still_there(fates, dir, listing), name) <==> is_listed(listing, name) && !(
            fates.dom().contains(child_of(dir, name)) && fates[child_of(dir, name)] is Gone),
        has_no_double(listing) ==> has_no_double(still_there(fates, dir, listing)),
    decreases listing.len(),
{
    let r = still_there(fates, dir, listing);
    if listing.len() > 0 {
        let init = listing.drop_last();
        let before = still_there(fates, dir, init);
        let last = listing.last();
        lemma_still_there(fates, dir, init);
        assert forall|name: Seq<char>| #[trigger] is_listed(r, name) <==> is_listed(listing, name)
            && !(fates.dom().contains(child_of(dir, name)) && fates[child_of(dir, name)] is Gone) by {
            if is_listed(r, name) {
                let i = choose|i: int| 0 <= i < r.len() && (#[trigger] r[i]).name == name;
                if i < before.len() {
                    assert(before[i].name == name);
                    assert(is_listed(before, name));
                    let j = choose|j: int|
                        0 <= j < init.len() && (#[trigger] init[j]).name == name;
                    assert(listing[j].name == name);
                } else {
                    assert(listing[listing.len() - 1].name == name);
                }
            }
            if is_listed(listing, name) && !(fates.dom().contains(child_of(dir, name))
                && fates[child_of(dir, name)] is Gone) {
                let j = choose|j: int|
                    0 <= j < listing.len() && (#[trigger] listing[j]).name == name;
                if j < init.len() {
                    assert(init[j].name == name);
                    assert(is_listed(before, name));
                    let i = choose|i: int|
                        0 <= i < before.len() && (#[trigger] before[i]).name == name;
                    assert(r[i].name == name);
                } else {
                    assert(r[r.len() - 1].name == name);
                }
            }
        }
        if has_no_double(listing) {
            assert(has_no_double(init)) by {
                assert forall|i: int, j: int|
                    #![trigger init[i], init[j]]
                    0 <= i < j < init.len() implies init[i].name != init[j].name by {
                    assert(listing[i].name != listing[j].name);
                }
            }
            assert forall|i: int, j: int|
                #![trigger r[i], r[j]]
                0 <= i < j < r.len() implies r[i].name != r[j].name by {
                assert(r[i] == before[i]);
                if j < before.len() {
                    assert(r[j] == before[j]);
                } else {
                    assert(r[j] == last);
                    if before[i].name == last.name {
                        assert(is_listed(before, last.name));
                        assert(is_listed(init, last.name));
                        let k = choose|k: int|
                            0 <= k < init.len() && (#[trigger] init[k]).name == last.name;
                        assert(listing[k].name == listing[listing.len() - 1].name);
                    }
                }
            }
        }
    }
}

proof fn lemma_own_name(p: Seq<char>, dir: Seq<char>, name: Seq<char>)
    requires
        is_path(p),
        is_path(dir),
        is_step(name),
        !name.contains('/'),
    ensures
        p == child_of(dir, name) <==> dir_of(p) == dir && base_name(p) == name,
{
    law_child_of_a_step(dir, name);
    if dir_of(p) == dir && base_name(p) == name {
        if p.len() == 0 {
            assert(base_name(p) =~= Seq::<char>::empty());
        } else {
            law_parent_and_name(p);
        }
    }
}

/// A name is shown in a directory exactly if
/// the server lists it and it is not gone,
/// a file of that name arrives there, or
/// a file of that name is there and nowhere else.
pub proof fn law_what_a_listing_shows(
    l: LedgerView,
    fates: Map<Seq<char>, Fate<Seq<char>>>,
    dir: Seq<char>,
    listing: Seq<InfoView>,
    metas: Map<Seq<char>, Meta>,
    name: Seq<char>,
)
    requires
        are_fates(fates),
        are_marks(l.dirty),
        is_path(dir),
        is_step(name),
        !name.contains('/'),
    ensures
        ({
            let p = child_of(dir, name);
            let gone = fates.dom().contains(p) && fates[p] is Gone;
            let arrives = fates.dom().contains(p) && fates[p] is Arrived;
            is_listed(overlaid(l, fates, dir, listing, metas), name) <==> (is_listed(listing, name)
                && !gone) || arrives || (is_local_only(l, p) && metas.dom().contains(p))
        }),
{
    let p = child_of(dir, name);
    let there = still_there(fates, dir, listing);
    let paths = walk(fates);
    let mid = with_arrivals(there, paths, fates, dir, metas);
    let marks = in_order(l.dirty);
    lemma_walk_of_finite(fates.dom());
    lemma_walk_of_finite(l.dirty);
    assert(is_listed(there, name) <==> is_listed(listing, name) && !(fates.dom().contains(p)
        && fates[p] is Gone)) by {
        lemma_still_there(fates, dir, listing);
    }
    assert(is_listed(mid, name) <==> is_listed(there, name) || (fates.dom().contains(p)
        && fates[p] is Arrived)) by {
        lemma_arrivals(there, paths, fates, dir, metas);
        if exists|i: int|
            0 <= i < paths.len() && fates[#[trigger] paths[i]] is Arrived && dir_of(paths[i]) == dir
                && base_name(paths[i]) == name {
            let i = choose|i: int|
                0 <= i < paths.len() && fates[#[trigger] paths[i]] is Arrived && dir_of(paths[i])
                    == dir && base_name(paths[i]) == name;
            assert(paths.to_set().contains(paths[i]));
            assert(fates.dom().contains(paths[i]));
            lemma_own_name(paths[i], dir, name);
        }
        if fates.dom().contains(p) && fates[p] is Arrived {
            assert(paths.to_set().contains(p));
            let i = choose|i: int| 0 <= i < paths.len() && paths[i] == p;
            lemma_own_name(p, dir, name);
            assert(fates[paths[i]] is Arrived);
        }
    }
    lemma_local_files(mid, marks, l, dir, metas);
    if exists|i: int|
        0 <= i < marks.len() && is_local_only(l, #[trigger] marks[i]) && dir_of(marks[i]) == dir
            && metas.dom().contains(marks[i]) && base_name(marks[i]) == name {
        let i = choose|i: int|
            0 <= i < marks.len() && is_local_only(l, #[trigger] marks[i]) && dir_of(marks[i]) == dir
                && metas.dom().contains(marks[i]) && base_name(marks[i]) == name;
        assert(l.dirty.contains(marks[i]));
        lemma_own_name(marks[i], dir, name);
    }
    if is_local_only(l, p) && metas.dom().contains(p) {
        assert(marks.to_set().contains(p));
        let i = choose|i: int| 0 <= i < marks.len() && marks[i] == p;
        lemma_own_name(p, dir, name);
        assert(is_local_only(l, marks[i]));
    }
}

/// Where the server lists no name twice, the user sees none twice.
pub proof fn law_no_name_is_shown_twice(
    l: LedgerView,
    fates: Map<Seq<char>, Fate<Seq<char>>>,
    dir: Seq<char>,
    listing: Seq<InfoView>,
    metas: Map<Seq<char>, Meta>,
)
    requires
        has_no_double(listing),
    ensures
        has_no_double(overlaid(l, fates, dir, listing, metas)),
{
    let there = still_there(fates, dir, listing);
    let mid = with_arrivals(there, walk(fates), fates, dir, metas);
    lemma_still_there(fates, dir, listing);
    lemma_arrivals(there, walk(fates), fates, dir, metas);
    lemma_local_files(mid, in_order(l.dirty), l, dir, metas);
}

/// What the server lists and what is not gone comes first, as the server says it
/// is and in its order.
pub proof fn law_the_servers_word_comes_first(
    l: LedgerView,
    fates: Map<Seq<char>, Fate<Seq<char>>>,
    dir: Seq<char>,
    listing: Seq<InfoView>,
    metas: Map<Seq<char>, Meta>,
)
    ensures
        still_there(fates, dir, listing).is_prefix_of(overlaid(l, fates, dir, listing, metas)),
{
    let there = still_there(fates, dir, listing);
    let mid = with_arrivals(there, walk(fates), fates, dir, metas);
    let all = overlaid(l, fates, dir, listing, metas);
    lemma_arrivals(there, walk(fates), fates, dir, metas);
    lemma_local_files(mid, in_order(l.dirty), l, dir, metas);
    assert(all.take(there.len() as int) =~= all.take(mid.len() as int).take(there.len() as int));
    assert(there =~= all.subrange(0, there.len() as int));
}

proof fn lemma_listed(
    l: LedgerView,
    fates: Map<Seq<char>, Fate<Seq<char>>>,
    dir: Seq<char>,
    entries: Seq<InfoView>,
    metas: Map<Seq<char>, Meta>,
    p: Seq<char>,
)
    ensures
        listed_all(l, fates, dir, entries, metas).dirty == l.dirty,
        (forall|i: int|
            #![trigger entries[i]]
            0 <= i < entries.len() && child_of(dir, entries[i].name) == p ==> !mirrors(
                metas,
                p,
                entries[i],
            )) ==> lease(listed_all(l, fates, dir, entries, metas).observations, p) == lease(
            l.observations,
            p,
        ),
    decreases entries.len(),
{
    if entries.len() > 0 {
        let init = entries.drop_last();
        lemma_listed(l, fates, dir, init, metas, p);
        if forall|i: int|
            #![trigger entries[i]]
            0 <= i < entries.len() && child_of(dir, entries[i].name) == p ==> !mirrors(
                metas,
                p,
                entries[i],
            ) {
            assert forall|i: int|
                #![trigger init[i]]
                0 <= i < init.len() && child_of(dir, init[i].name) == p implies !mirrors(
                metas,
                p,
                init[i],
            ) by {
                assert(init[i] == entries[i]);
            }
            assert(entries[entries.len() - 1] == entries.last());
        }
    }
}

/// A local copy of another version is never taken for the version that is listed:
/// what is known of it stays as it was.
pub proof fn law_a_stale_copy_is_not_taken_for_the_listed_version(
    l: LedgerView,
    fates: Map<Seq<char>, Fate<Seq<char>>>,
    dir: Seq<char>,
    entries: Seq<InfoView>,
    metas: Map<Seq<char>, Meta>,
    p: Seq<char>,
)
    requires
        forall|i: int|
            #![trigger entries[i]]
            0 <= i < entries.len() && child_of(dir, entries[i].name) == p ==> !mirrors(
                metas,
                p,
                entries[i],
            ),
    ensures
        lease(listed_all(l, fates, dir, entries, metas).observations, p) == lease(
            l.observations,
            p,
        ),
{
    lemma_listed(l, fates, dir, entries, metas, p);
}

/// What has been listed and is not here is known by the version that was listed,
/// so that it can be removed or renamed under that lease without ever having
/// been fetched. This is said of names that stand in the listing once.
pub proof fn law_what_was_listed_is_known(
    l: LedgerView,
    fates: Map<Seq<char>, Fate<Seq<char>>>,
    dir: Seq<char>,
    entries: Seq<InfoView>,
    metas: Map<Seq<char>, Meta>,
    i: int,
)
    requires
        0 <= i < entries.len(),
        entries[i].kind == FileType::File,
        forall|j: int|
            #![trigger entries[j]]
            0 <= j < entries.len() && j != i ==> child_of(dir, entries[j].name) != child_of(
                dir,
                entries[i].name,
            ),
        !l.dirty.contains(child_of(dir, entries[i].name)),
        !fates.dom().contains(child_of(dir, entries[i].name)),
        !metas.dom().contains(child_of(dir, entries[i].name)),
    ensures
        lease(
            listed_all(l, fates, dir, entries, metas).observations,
            child_of(dir, entries[i].name),
        ) == Some(shown(entries[i])),
    decreases entries.len(),
{
    let init = entries.drop_last();
    let p = child_of(dir, entries[i].name);
    lemma_listed(l, fates, dir, init, metas, p);
    if i < init.len() {
        assert(init[i] == entries[i]);
        assert forall|j: int|
            #![trigger init[j]]
            0 <= j < init.len() && j != i implies child_of(dir, init[j].name) != child_of(
            dir,
            init[i].name,
        ) by {
            assert(init[j] == entries[j]);
        }
        law_what_was_listed_is_known(l, fates, dir, init, metas, i);
        assert(child_of(dir, entries[entries.len() - 1].name) != p);
    }
}

/// What is shown of a file that arrives in the directory or is only here: what it is
/// here, else what the server had of it where it comes from.
pub open spec fn is_own_entry(
    l: LedgerView,
    fates: Map<Seq<char>, Fate<Seq<char>>>,
    dir: Seq<char>,
    metas: Map<Seq<char>, Meta>,
    e: InfoView,
    p: Seq<char>,
) -> bool {
    &&& dir_of(p) == dir
    &&& e.name == base_name(p)
    &&& e.kind == FileType::File
    &&& if metas.dom().contains(p) {
        &&& e.size == Some(metas[p].size)
        &&& e.mtime == metas[p].mtime
        &&& (fates.dom().contains(p) && fates[p] is Arrived) || (l.dirty.contains(p)
            && !l.observations.dom().contains(p))
    } else {
        &&& fates.dom().contains(p) && fates[p] is Arrived
        &&& e.size == Some(fates[p]->was.size)
        &&& fates[p]->was.time <= i64::MAX ==> e.mtime is Some && e.mtime->0.secs
            == fates[p]->was.time && e.mtime->0.nanos == 0
    }
}

proof fn lemma_own_arrivals(
    listing: Seq<InfoView>,
    paths: Seq<Seq<char>>,
    l: LedgerView,
    fates: Map<Seq<char>, Fate<Seq<char>>>,
    dir: Seq<char>,
    metas: Map<Seq<char>, Meta>,
    i: int,
)
    requires
        forall|k: int| #![trigger paths[k]] 0 <= k < paths.len() ==> fates.dom().contains(paths[k]),
        0 <= i < with_arrivals(listing, paths, fates, dir, metas).len(),
    ensures
        ({
            let e = with_arrivals(listing, paths, fates, dir, metas)[i];
            listing.contains(e) || exists|p: Seq<char>| #[trigger]
                is_own_entry(l, fates, dir, metas, e, p)
        }),
    decreases paths.len(),
{
    let all = with_arrivals(listing, paths, fates, dir, metas);
    if paths.len() == 0 {
        assert(listing.contains(all[i]));
    } else {
        let front = paths.drop_last();
        let p = paths.last();
        assert(paths[paths.len() - 1] == p);
        let before = with_arrivals(listing, front, fates, dir, metas);
        assert forall|k: int| #![trigger front[k]] 0 <= k < front.len() implies fates.dom().contains(
            front[k],
        ) by {
            assert(paths[k] == front[k]);
        }
        if i < before.len() {
            lemma_own_arrivals(listing, front, l, fates, dir, metas, i);
            assert(all[i] == before[i]);
        } else {
            assert(is_own_entry(l, fates, dir, metas, all[i], p));
        }
    }
}

proof fn lemma_own_files(
    listing: Seq<InfoView>,
    paths: Seq<Seq<char>>,
    l: LedgerView,
    fates: Map<Seq<char>, Fate<Seq<char>>>,
    dir: Seq<char>,
    metas: Map<Seq<char>, Meta>,
    i: int,
)
    requires
        0 <= i < with_local_files(listing, paths, l, dir, metas).len(),
    ensures
        ({
            let e = with_local_files(listing, paths, l, dir, metas)[i];
            listing.contains(e) || exists|p: Seq<char>| #[trigger]
                is_own_entry(l, fates, dir, metas, e, p)
        }),
    decreases paths.len(),
{
    let all = with_local_files(listing, paths, l, dir, metas);
    if paths.len() == 0 {
        assert(listing.contains(all[i]));
    } else {
        let front = paths.drop_last();
        let before = with_local_files(listing, front, l, dir, metas);
        if i < before.len() {
            lemma_own_files(listing, front, l, fates, dir, metas, i);
            assert(all[i] == before[i]);
        } else {
            assert(is_own_entry(l, fates, dir, metas, all[i], paths.last()));
        }
    }
}

proof fn lemma_still_listed(
    fates: Map<Seq<char>, Fate<Seq<char>>>,
    dir: Seq<char>,
    listing: Seq<InfoView>,
    i: int,
)
    requires
        0 <= i < still_there(fates, dir, listing).len(),
    ensures
        listing.contains(still_there(fates, dir, listing)[i]),
    decreases listing.len(),
{
    let there = still_there(fates, dir, listing);
    let front = listing.drop_last();
    let before = still_there(fates, dir, front);
    if i < before.len() {
        lemma_still_listed(fates, dir, front, i);
        let k = choose|k: int| 0 <= k < front.len() && front[k] == before[i];
        assert(listing[k] == there[i]);
    } else {
        assert(listing[listing.len() - 1] == there[i]);
    }
}

/// Whatever is shown in a directory is as the server lists it, or it is a file that
/// arrives or is only here, with the size and the time that it has here, or else
/// had on the server where it comes from.
pub proof fn law_what_is_shown_of_each_file(
    l: LedgerView,
    fates: Map<Seq<char>, Fate<Seq<char>>>,
    dir: Seq<char>,
    listing: Seq<InfoView>,
    metas: Map<Seq<char>, Meta>,
    i: int,
)
    requires
        are_fates(fates),
        0 <= i < overlaid(l, fates, dir, listing, metas).len(),
    ensures
        ({
            let e = overlaid(l, fates, dir, listing, metas)[i];
            listing.contains(e) || exists|p: Seq<char>| #[trigger]
                is_own_entry(l, fates, dir, metas, e, p)
        }),
{
    let there = still_there(fates, dir, listing);
    let paths = walk(fates);
    let mid = with_arrivals(there, paths, fates, dir, metas);
    let e = overlaid(l, fates, dir, listing, metas)[i];
    lemma_walk_of_finite(fates.dom());
    assert forall|k: int| #![trigger paths[k]] 0 <= k < paths.len() implies fates.dom().contains(
        paths[k],
    ) by {
        assert(paths.to_set().contains(paths[k]));
    }
    lemma_own_files(mid, in_order(l.dirty), l, fates, dir, metas, i);
    if mid.contains(e) {
        let j = choose|j: int| 0 <= j < mid.len() && mid[j] == e;
        lemma_own_arrivals(there, paths, l, fates, dir, metas, j);
        if there.contains(e) {
            let k = choose|k: int| 0 <= k < there.len() && there[k] == e;
            lemma_still_listed(fates, dir, listing, k);
        }
    }
}

/// A listing teaches the version that it shows of a file, unless the file holds
/// edits, is to become something else, or is here in another version; of other
/// files it teaches nothing.
pub proof fn law_what_a_listing_teaches(
    l: LedgerView,
    fates: Map<Seq<char>, Fate<Seq<char>>>,
    dir: Seq<char>,
    e: InfoView,
    metas: Map<Seq<char>, Meta>,
    q: Seq<char>,
)
    ensures
        ({
            let p = child_of(dir, e.name);
            let now = listed_one(l, fates, dir, e, metas).observations;
            let size = if e.size is Some {
                e.size->0
            } else {
                0
            };
            let time = if e.mtime is Some && e.mtime->0.secs >= 0 {
                e.mtime->0.secs as int
            } else {
                0
            };
            let is_same_here = metas.dom().contains(p) ==> metas[p].size == size && (if metas[p].mtime is Some
                && metas[p].mtime->0.secs >= 0 {
                metas[p].mtime->0.secs as int
            } else {
                0
            }) == time;
            &&& e.kind == FileType::File && !l.dirty.contains(p) && !fates.dom().contains(p)
                && is_same_here ==> now.dom().contains(p) && now[p].size == size && now[p].time == time
            &&& e.kind != FileType::File || l.dirty.contains(p) || fates.dom().contains(p)
                || !is_same_here ==> now == l.observations
            &&& q != p ==> now.dom().contains(q) == l.observations.dom().contains(q)
            &&& q != p && now.dom().contains(q) ==> now[q] == l.observations[q]
        }),
{
}

/// A file has to be looked at where the server lists another version of it than was
/// last seen, and nothing is to become of it here.
pub proof fn law_which_files_are_looked_at(
    l: LedgerView,
    fates: Map<Seq<char>, Fate<Seq<char>>>,
    dir: Seq<char>,
    entries: Seq<InfoView>,
    e: InfoView,
)
    ensures
        ({
            let p = child_of(dir, e.name);
            let is_known = l.observations.dom().contains(p) && l.observations[p] == shown(e);
            let before = news_in(l, fates, dir, entries);
            let after = news_in(l, fates, dir, entries.push(e));
            if e.kind == FileType::File && !l.dirty.contains(p) && !fates.dom().contains(p) && !is_known {
                after == before.push(p)
            } else {
                after == before
            }
        }),
        news_in(l, fates, dir, Seq::empty()).len() == 0,
{
    assert(entries.push(e).drop_last() =~= entries);
}

/// The content that is here is used where it holds edits, or where it is a file in
/// the version that the server has now.
pub proof fn law_when_the_local_content_is_used(
    l: LedgerView,
    p: Seq<char>,
    current: Observation,
    is_file: bool,
)
    ensures
        l.dirty.contains(p) ==> is_current(l, p, current, is_file),
        !l.dirty.contains(p) && !is_file ==> !is_current(l, p, current, is_file),
        !l.dirty.contains(p) && is_file ==> (is_current(l, p, current, is_file)
            <==> l.observations.dom().contains(p) && l.observations[p] == current),
        is_unknown(l, p) ==> !is_current(l, p, current, is_file),
        is_unknown(l, p) <==> !l.dirty.contains(p) && !l.observations.dom().contains(p),
{
}

/// A file that is to arrive is fetched from where it comes from, and any other from
/// its own place.
pub proof fn law_where_a_file_is_fetched_from(fates: Map<Seq<char>, Fate<Seq<char>>>, p: Seq<char>)
    ensures
        upstream(fates, p) is Some <==> fates.dom().contains(p) && fates[p] is Arrived,
        fates.dom().contains(p) ==> (fates[p] matches Fate::Arrived { from, was } ==> upstream(fates, p)
            == Some(from)),
{
}

/// Before a path is overwritten of which nothing is known, it is noted what the server
/// has there, so that nothing is lost unseen; what is known stays, and so do edits.
pub proof fn law_what_is_overwritten_was_seen(
    s: StateView,
    p: Seq<char>,
    there: Option<Observation>,
    q: Seq<char>,
)
    ensures
        ({
            let before = s.ledger;
            let after = overwritten(s, p, there).ledger;
            &&& there matches Some(o) ==> !before.dirty.contains(p) && !before.observations.dom().contains(
                p,
            ) ==> after.observations.dom().contains(p) && after.observations[p] == o
            &&& before.dirty.contains(p) || before.observations.dom().contains(p) || there is None
                ==> after == before
            &&& after.dirty == before.dirty
            &&& q != p ==> after.observations.dom().contains(q) == before.observations.dom().contains(q)
            &&& q != p && before.observations.dom().contains(q) ==> after.observations[q]
                == before.observations[q]
            &&& overwritten(s, p, there).journal == s.journal
        }),
{
}

} // verus!
