//! What holds of the ledger, and of what is stored of it on disk.
use crate::ledger::{
    carry_marks, carry_observations, disowned, forgotten, observed, outside, outside_map, remapped,
    select, transferred, unobserved, with_write, LedgerView, Write,
};
use crate::model::{Observation, Plan};
use crate::path::{below, is_path, rebased, within};
use crate::table::{in_order, walk};
use crate::text::precedes;
use crate::upload::{marked, unmarked};
use vstd::prelude::*;

verus! {

/// Forgetting a directory drops it and all that lies below it, and nothing else.
pub proof fn law_forget_drops_the_subtree_and_nothing_else(
    l: LedgerView,
    dir: Seq<char>,
    p: Seq<char>,
)
    ensures
        forgotten(l, dir).observations.dom().contains(p) == (l.observations.dom().contains(p)
            && !within(p, dir)),
        forgotten(l, dir).dirty.contains(p) == (l.dirty.contains(p) && !within(p, dir)),
        !within(p, dir) && l.observations.dom().contains(p) ==> forgotten(l, dir).observations[p]
            == l.observations[p],
        forgotten(l, dir).pins == l.pins,
{
}

/// No path of the list is where an earlier one is carried to.
pub open spec fn no_collision(paths: Seq<Seq<char>>, from: Seq<char>, to: Seq<char>) -> bool {
    forall|i: int, j: int|
        #![trigger paths[i], paths[j]]
        0 <= i < j < paths.len() ==> rebased(paths[i], from, to) != paths[j]
}

/// `q` is where one of the paths is carried to.
pub open spec fn is_image(
    paths: Seq<Seq<char>>,
    from: Seq<char>,
    to: Seq<char>,
    q: Seq<char>,
) -> bool {
    exists|i: int| 0 <= i < paths.len() && rebased(#[trigger] paths[i], from, to) == q
}

proof fn lemma_carry_observations(
    l: LedgerView,
    paths: Seq<Seq<char>>,
    from: Seq<char>,
    to: Seq<char>,
)
    requires
        is_path(from),
        is_path(to),
        from.len() > 0,
        to.len() > 0,
        paths.no_duplicates(),
        no_collision(paths, from, to),
        forall|i: int| #![trigger paths[i]] 0 <= i < paths.len() ==> within(paths[i], from) && is_path(
            paths[i],
        ) && l.observations.dom().contains(paths[i]),
    ensures
        ({
            let m = carry_observations(l, paths, from, to).observations;
            &&& forall|q: Seq<char>|
                #![trigger m.dom().contains(q)]
                m.dom().contains(q) <==> is_image(paths, from, to, q) || (l.observations.dom().contains(
                    q,
                ) && !paths.contains(q))
            &&& forall|i: int|
                #![trigger paths[i]]
                0 <= i < paths.len() ==> m[rebased(paths[i], from, to)] == l.observations[paths[i]]
            &&& forall|q: Seq<char>|
                #![trigger m[q]]
                !is_image(paths, from, to, q) && m.dom().contains(q) ==> m[q] == l.observations[q]
        }),
        carry_observations(l, paths, from, to).dirty == l.dirty,
        carry_observations(l, paths, from, to).pins == l.pins,
    decreases paths.len(),
{
    let m = carry_observations(l, paths, from, to).observations;
    if paths.len() == 0 {
        assert forall|q: Seq<char>| #![trigger m.dom().contains(q)] m.dom().contains(q) <==> is_image(
            paths,
            from,
            to,
            q,
        ) || (l.observations.dom().contains(q) && !paths.contains(q)) by {
        }
    } else {
        let front = paths.drop_last();
        let p = paths.last();
        let n = paths.len() - 1;
        assert(paths[n] == p);
        assert(front.no_duplicates()) by {
            assert forall|i: int, j: int| 0 <= i < front.len() && 0 <= j < front.len() && i != j implies front[i]
                != front[j] by {
                assert(paths[i] != paths[j]);
            }
        }
        assert(no_collision(front, from, to)) by {
            assert forall|i: int, j: int|
                #![trigger front[i], front[j]]
                0 <= i < j < front.len() implies rebased(front[i], from, to) != front[j] by {
                assert(rebased(paths[i], from, to) != paths[j]);
            }
        }
        assert forall|i: int| #![trigger front[i]] 0 <= i < front.len() implies within(front[i], from)
            && is_path(front[i]) && l.observations.dom().contains(front[i]) by {
            assert(within(paths[i], from));
        }
        lemma_carry_observations(l, front, from, to);
        let before = carry_observations(l, front, from, to).observations;
        let dest = rebased(p, from, to);
        assert(!is_image(front, from, to, p)) by {
            if is_image(front, from, to, p) {
                let i = choose|i: int| 0 <= i < front.len() && rebased(#[trigger] front[i], from, to) == p;
                assert(rebased(paths[i], from, to) != paths[n]);
            }
        }
        assert(!front.contains(p)) by {
            if front.contains(p) {
                let i = choose|i: int| 0 <= i < front.len() && front[i] == p;
                assert(paths[i] != paths[n]);
            }
        }
        assert(before.dom().contains(p));
        assert(before[p] == l.observations[p]);
        assert(m == before.remove(p).insert(dest, before[p]));
        assert forall|i: int| 0 <= i < n implies rebased(#[trigger] paths[i], from, to) != dest by {
            crate::path::law_rebase(paths[i], from, to);
            crate::path::law_rebase(p, from, to);
            assert(paths[i] != paths[n]);
        }
        assert forall|q: Seq<char>| #![trigger m.dom().contains(q)] m.dom().contains(q) <==> is_image(
            paths,
            from,
            to,
            q,
        ) || (l.observations.dom().contains(q) && !paths.contains(q)) by {
            lemma_image(paths, from, to, q);
            lemma_contains_last(paths, q);
            assert(before.dom().contains(q) <==> is_image(front, from, to, q) || (l.observations.dom().contains(
                q,
            ) && !front.contains(q)));
        }
        assert forall|i: int| #![trigger paths[i]] 0 <= i < paths.len() implies m[rebased(
            paths[i],
            from,
            to,
        )] == l.observations[paths[i]] by {
            if i < n {
                assert(front[i] == paths[i]);
                assert(rebased(paths[i], from, to) != paths[n]);
            }
        }
        assert forall|q: Seq<char>| #![trigger m[q]] !is_image(paths, from, to, q) && m.dom().contains(q) implies m[q]
            == l.observations[q] by {
            lemma_image(paths, from, to, q);
            assert(before.dom().contains(q));
        }
    }
}

proof fn lemma_image(paths: Seq<Seq<char>>, from: Seq<char>, to: Seq<char>, q: Seq<char>)
    requires
        paths.len() > 0,
    ensures
        is_image(paths, from, to, q) <==> is_image(paths.drop_last(), from, to, q) || rebased(
            paths.last(),
            from,
            to,
        ) == q,
{
    let front = paths.drop_last();
    if is_image(paths, from, to, q) {
        let i = choose|i: int| 0 <= i < paths.len() && rebased(#[trigger] paths[i], from, to) == q;
        if i < front.len() {
            assert(rebased(front[i], from, to) == q);
        }
    }
    if is_image(front, from, to, q) {
        let i = choose|i: int| 0 <= i < front.len() && rebased(#[trigger] front[i], from, to) == q;
        assert(rebased(paths[i], from, to) == q);
    }
    assert(paths[paths.len() - 1] == paths.last());
}

proof fn lemma_contains_last(paths: Seq<Seq<char>>, q: Seq<char>)
    requires
        paths.len() > 0,
    ensures
        paths.contains(q) <==> paths.drop_last().contains(q) || paths.last() == q,
{
    let front = paths.drop_last();
    if paths.contains(q) {
        let i = choose|i: int| 0 <= i < paths.len() && paths[i] == q;
        if i < front.len() {
            assert(front[i] == q);
        }
    }
    if front.contains(q) {
        let i = choose|i: int| 0 <= i < front.len() && front[i] == q;
        assert(paths[i] == q);
    }
    assert(paths[paths.len() - 1] == paths.last());
}

proof fn lemma_carry_marks(l: LedgerView, paths: Seq<Seq<char>>, from: Seq<char>, to: Seq<char>)
    requires
        paths.no_duplicates(),
        no_collision(paths, from, to),
    ensures
        ({
            let d = carry_marks(l, paths, from, to).dirty;
            forall|q: Seq<char>|
                #![trigger d.contains(q)]
                d.contains(q) <==> is_image(paths, from, to, q) || (l.dirty.contains(q)
                    && !paths.contains(q))
        }),
        carry_marks(l, paths, from, to).observations == l.observations,
        carry_marks(l, paths, from, to).pins == l.pins,
    decreases paths.len(),
{
    let d = carry_marks(l, paths, from, to).dirty;
    if paths.len() == 0 {
        assert forall|q: Seq<char>| #![trigger d.contains(q)] d.contains(q) <==> is_image(
            paths,
            from,
            to,
            q,
        ) || (l.dirty.contains(q) && !paths.contains(q)) by {
        }
    } else {
        let front = paths.drop_last();
        let p = paths.last();
        let n = paths.len() - 1;
        assert(paths[n] == p);
        assert(front.no_duplicates()) by {
            assert forall|i: int, j: int| 0 <= i < front.len() && 0 <= j < front.len() && i != j implies front[i]
                != front[j] by {
                assert(paths[i] != paths[j]);
            }
        }
        assert(no_collision(front, from, to)) by {
            assert forall|i: int, j: int|
                #![trigger front[i], front[j]]
                0 <= i < j < front.len() implies rebased(front[i], from, to) != front[j] by {
                assert(rebased(paths[i], from, to) != paths[j]);
            }
        }
        lemma_carry_marks(l, front, from, to);
        let before = carry_marks(l, front, from, to).dirty;
        assert(!is_image(front, from, to, p)) by {
            if is_image(front, from, to, p) {
                let i = choose|i: int| 0 <= i < front.len() && rebased(#[trigger] front[i], from, to) == p;
                assert(rebased(paths[i], from, to) != paths[n]);
            }
        }
        assert forall|q: Seq<char>| #![trigger d.contains(q)] d.contains(q) <==> is_image(
            paths,
            from,
            to,
            q,
        ) || (l.dirty.contains(q) && !paths.contains(q)) by {
            lemma_image(paths, from, to, q);
            lemma_contains_last(paths, q);
            assert(before.contains(q) <==> is_image(front, from, to, q) || (l.dirty.contains(q)
                && !front.contains(q)));
        }
    }
}

/// All that the ledger says of `from` and of what lies below it, it says of the
/// same places at and below `to` once `from` has become `to`; of the old places
/// it says nothing any more, and what it says of all others stays. It holds as
/// long as no path is carried to a place that has itself still to be carried.
pub proof fn law_remap_moves_the_subtree(l: LedgerView, from: Seq<char>, to: Seq<char>)
    requires
        is_path(from),
        is_path(to),
        from.len() > 0,
        to.len() > 0,
        l.observations.dom().finite(),
        l.dirty.finite(),
        forall|p: Seq<char>| #[trigger] l.observations.dom().contains(p) ==> is_path(p),
        no_collision(select(walk(l.observations), from), from, to),
        no_collision(select(in_order(l.dirty), from), from, to),
    ensures
        ({
            let m = remapped(l, from, to);
            let moved = select(walk(l.observations), from);
            let marked = select(in_order(l.dirty), from);
            &&& forall|p: Seq<char>|
                #![trigger l.observations.dom().contains(p)]
                l.observations.dom().contains(p) && within(p, from)
                    ==> m.observations.dom().contains(rebased(p, from, to))
                    && m.observations[rebased(p, from, to)] == l.observations[p]
            &&& forall|q: Seq<char>|
                #![trigger m.observations.dom().contains(q)]
                !is_image(moved, from, to, q) ==> (m.observations.dom().contains(q) <==> l.observations.dom().contains(
                    q,
                ) && !within(q, from))
            &&& forall|q: Seq<char>|
                #![trigger m.observations[q]]
                !is_image(moved, from, to, q) && m.observations.dom().contains(q)
                    ==> m.observations[q] == l.observations[q]
            &&& forall|q: Seq<char>|
                #![trigger m.dirty.contains(q)]
                m.dirty.contains(q) <==> is_image(marked, from, to, q) || (l.dirty.contains(q)
                    && !within(q, from))
            &&& m.pins == l.pins
        }),
{
    let a = with_write(with_write(l, Write::UnsignWithin(to)), Write::MoveSigns(from, to));
    let moved = select(walk(l.observations), from);
    crate::table::lemma_walk_of_finite(l.observations.dom());
    crate::ledger::lemma_select(walk(l.observations), from);
    crate::table::lemma_ascending_no_duplicates(moved);
    assert forall|i: int| #![trigger moved[i]] 0 <= i < moved.len() implies within(moved[i], from)
        && is_path(moved[i]) && l.observations.dom().contains(moved[i]) by {
        assert(walk(l.observations).to_set().contains(moved[i]));
    }
    lemma_carry_observations(a, moved, from, to);
    let b = carry_observations(a, moved, from, to);
    let marked = select(in_order(l.dirty), from);
    crate::table::lemma_walk_of_finite(l.dirty);
    crate::ledger::lemma_select(in_order(l.dirty), from);
    crate::table::lemma_ascending_no_duplicates(marked);
    lemma_carry_marks(b, marked, from, to);
    let m = remapped(l, from, to);
    assert(m == carry_marks(b, marked, from, to));
    assert forall|p: Seq<char>|
        #![trigger l.observations.dom().contains(p)]
        l.observations.dom().contains(p) && within(p, from) implies m.observations.dom().contains(
        rebased(p, from, to),
    ) && m.observations[rebased(p, from, to)] == l.observations[p] by {
        assert(walk(l.observations).to_set().contains(p));
        assert(moved.contains(p));
        let i = choose|i: int| 0 <= i < moved.len() && moved[i] == p;
        assert(rebased(moved[i], from, to) == rebased(p, from, to));
        assert(is_image(moved, from, to, rebased(p, from, to)));
    }
    assert forall|q: Seq<char>|
        #![trigger m.observations.dom().contains(q)]
        !is_image(moved, from, to, q) implies (m.observations.dom().contains(q) <==> l.observations.dom().contains(
        q,
    ) && !within(q, from)) by {
        assert(b.observations.dom().contains(q) <==> (l.observations.dom().contains(q)
            && !moved.contains(q)));
        if l.observations.dom().contains(q) {
            assert(walk(l.observations).to_set().contains(q));
        }
    }
    assert forall|q: Seq<char>| #![trigger m.dirty.contains(q)] m.dirty.contains(q) <==> is_image(
        marked,
        from,
        to,
        q,
    ) || (l.dirty.contains(q) && !within(q, from)) by {
        if l.dirty.contains(q) {
            assert(in_order(l.dirty).to_set().contains(q));
        }
    }
}

/// When a directory has moved on the server, what was seen of it and of what lies
/// below was seen of its new place, and is seen no more of the old one. What is here
/// stays as it is: no file loses its edits or its pin.
pub proof fn law_a_move_on_the_server_moves_what_was_seen(
    l: LedgerView,
    from: Seq<char>,
    to: Seq<char>,
    p: Seq<char>,
)
    requires
        is_path(from),
        is_path(to),
        from.len() > 0,
        to.len() > 0,
        !within(from, to),
        !within(to, from),
        l.observations.dom().finite(),
        forall|p: Seq<char>| #[trigger] l.observations.dom().contains(p) ==> is_path(p),
    ensures
        ({
            let m = transferred(l, from, to);
            &&& within(p, from) ==> !m.observations.dom().contains(p)
            &&& within(p, from) && l.observations.dom().contains(p)
                ==> m.observations.dom().contains(rebased(p, from, to))
                && m.observations[rebased(p, from, to)] == l.observations[p]
            &&& !within(p, from) && !within(p, to) ==> (m.observations.dom().contains(p)
                <==> l.observations.dom().contains(p)) && (l.observations.dom().contains(p)
                ==> m.observations[p] == l.observations[p])
            &&& m.dirty == l.dirty
            &&& m.pins == l.pins
        }),
{
    let a = with_write(with_write(l, Write::UnsignWithin(to)), Write::MoveSigns(from, to));
    let moved = select(walk(l.observations), from);
    crate::table::lemma_walk_of_finite(l.observations.dom());
    crate::ledger::lemma_select(walk(l.observations), from);
    crate::table::lemma_ascending_no_duplicates(moved);
    assert forall|i: int| #![trigger moved[i]] 0 <= i < moved.len() implies within(moved[i], from)
        && is_path(moved[i]) && l.observations.dom().contains(moved[i]) by {
        assert(walk(l.observations).to_set().contains(moved[i]));
    }
    law_separate_directories_never_collide(moved, from, to);
    lemma_carry_observations(a, moved, from, to);
    let m = transferred(l, from, to);
    assert(m.observations.dom().contains(p) <==> is_image(moved, from, to, p) || (
    l.observations.dom().contains(p) && !moved.contains(p)));
    if l.observations.dom().contains(p) && within(p, from) {
        assert(walk(l.observations).to_set().contains(p));
        assert(moved.contains(p));
        let i = choose|i: int| 0 <= i < moved.len() && moved[i] == p;
        assert(is_image(moved, from, to, rebased(moved[i], from, to)));
    }
    if is_image(moved, from, to, p) {
        let i = choose|i: int| 0 <= i < moved.len() && rebased(#[trigger] moved[i], from, to) == p;
        crate::path::law_rebase(moved[i], from, to);
        if within(p, from) {
            crate::path::lemma_below_two(p, from, to);
        }
    }
    if moved.contains(p) {
        let i = choose|i: int| 0 <= i < moved.len() && moved[i] == p;
        assert(within(moved[i], from));
    }
}

/// When a file or a directory is gone from the server, nothing is known of it or of
/// what lies below; what is here stays as it is.
pub proof fn law_what_is_gone_from_the_server_is_not_known(
    l: LedgerView,
    dir: Seq<char>,
    p: Seq<char>,
)
    ensures
        disowned(l, dir).observations.dom().contains(p) <==> l.observations.dom().contains(p) && !(p
            == dir || below(p, dir)),
        disowned(l, dir).observations.dom().contains(p) ==> disowned(l, dir).observations[p]
            == l.observations[p],
        disowned(l, dir).dirty == l.dirty,
        disowned(l, dir).pins == l.pins,
{
}

/// What was seen last of a file is what is known of it, until it is found to be
/// gone; of other files the same is known as before.
pub proof fn law_what_was_seen_last_is_known(
    l: LedgerView,
    p: Seq<char>,
    o: Observation,
    q: Seq<char>,
)
    ensures
        observed(l, p, o).observations.dom().contains(p),
        observed(l, p, o).observations[p] == o,
        !unobserved(l, p).observations.dom().contains(p),
        q != p ==> {
            &&& observed(l, p, o).observations.dom().contains(q) == l.observations.dom().contains(q)
            &&& unobserved(l, p).observations.dom().contains(q) == l.observations.dom().contains(q)
            &&& l.observations.dom().contains(q) ==> observed(l, p, o).observations[q]
                == l.observations[q] && unobserved(l, p).observations[q] == l.observations[q]
        },
        observed(l, p, o).dirty == l.dirty && unobserved(l, p).dirty == l.dirty,
        observed(l, p, o).pins == l.pins && unobserved(l, p).pins == l.pins,
{
}

/// Where neither of two directories lies within the other, carrying one to the
/// other meets no path that has still to be carried.
pub proof fn law_separate_directories_never_collide(
    paths: Seq<Seq<char>>,
    from: Seq<char>,
    to: Seq<char>,
)
    requires
        is_path(from),
        is_path(to),
        from.len() > 0,
        to.len() > 0,
        !within(from, to),
        !within(to, from),
        forall|i: int| #![trigger paths[i]] 0 <= i < paths.len() ==> within(paths[i], from) && is_path(
            paths[i],
        ),
    ensures
        no_collision(paths, from, to),
{
    assert forall|i: int, j: int| #![trigger paths[i], paths[j]] 0 <= i < j < paths.len() implies rebased(
        paths[i],
        from,
        to,
    ) != paths[j] by {
        crate::path::law_rebase(paths[i], from, to);
        if rebased(paths[i], from, to) == paths[j] {
            crate::path::lemma_below_two(paths[j], from, to);
        }
    }
}

/// What lies below a directory is what is not before the directory with a slash
/// and before the directory with the character after the slash.
pub proof fn law_subtree_is_a_range(s: Seq<char>, dir: Seq<char>)
    ensures
        below(s, dir) <==> !precedes(s, dir.push('/')) && precedes(s, dir.push('0')),
    decreases dir.len(),
{
    let lo = dir.push('/');
    let hi = dir.push('0');
    reveal_with_fuel(precedes, 2);
    if dir.len() == 0 {
        assert(lo.drop_first() =~= Seq::<char>::empty());
        assert(hi.drop_first() =~= Seq::<char>::empty());
        if s.len() > 0 {
            assert(s.take(0) =~= dir);
            assert(lo[0] == '/' && hi[0] == '0');
        }
    } else if s.len() == 0 {
    } else if s[0] != dir[0] {
        assert(lo[0] == dir[0] && hi[0] == dir[0]);
        if below(s, dir) {
            assert(s.take(dir.len() as int)[0] == dir[0]);
        }
    } else {
        let t = s.drop_first();
        let d = dir.drop_first();
        assert(lo.drop_first() =~= d.push('/'));
        assert(hi.drop_first() =~= d.push('0'));
        law_subtree_is_a_range(t, d);
        if s.len() > dir.len() {
            assert(t.take(d.len() as int) =~= s.take(dir.len() as int).drop_first());
            assert(s.take(dir.len() as int) =~= seq![s[0]] + s.take(dir.len() as int).drop_first());
            assert(dir =~= seq![dir[0]] + d);
            assert(t[d.len() as int] == s[dir.len() as int]);
        }
    }
}

/// What is stored on disk.
#[verifier::ext_equal]
pub struct StoreView {
    pub observations: Map<Seq<char>, Observation>,
    pub marks: Set<Seq<char>>,
    pub pins: Set<Seq<char>>,
    pub plans: Map<i64, Plan<Seq<char>>>,
}

/// What is stored once a change has been carried out.
pub open spec fn stored(s: StoreView, w: Write<Seq<char>, Seq<u8>>) -> StoreView {
    match w {
        Write::Observe(p, o) => StoreView { observations: s.observations.insert(p, o), ..s },
        Write::Unobserve(p) => StoreView { observations: s.observations.remove(p), ..s },
        Write::UnobserveWithin(p) => StoreView { observations: outside_map(s.observations, p), ..s },
        Write::Mark(p) => StoreView { marks: s.marks.insert(p), ..s },
        Write::Unmark(p) => StoreView { marks: s.marks.remove(p), ..s },
        Write::UnmarkWithin(p) => StoreView { marks: outside(s.marks, p), ..s },
        Write::Retire(n) => StoreView { plans: s.plans.remove(n), ..s },
        Write::Pin(p) => StoreView { pins: s.pins.insert(p), ..s },
        Write::Unpin(p) => StoreView { pins: s.pins.remove(p), ..s },
        _ => s,
    }
}

/// What is stored once all the changes have been carried out, first to last.
pub open spec fn stored_all(s: StoreView, w: Seq<Write<Seq<char>, Seq<u8>>>) -> StoreView
    decreases w.len(),
{
    if w.len() == 0 {
        s
    } else {
        stored(stored_all(s, w.drop_last()), w.last())
    }
}

/// What the ledger says of the server and of the pins is what is on disk, once
/// its changes have been stored on top of what was there before.
pub open spec fn is_mirrored(base: StoreView, l: LedgerView) -> bool {
    &&& stored_all(base, l.writes).observations == l.observations
    &&& stored_all(base, l.writes).pins == l.pins
}

pub proof fn lemma_one_more(base: StoreView, l: LedgerView, w: Write<Seq<char>, Seq<u8>>)
    ensures
        stored_all(base, l.writes.push(w)) == stored(stored_all(base, l.writes), w),
{
    assert(l.writes.push(w).drop_last() =~= l.writes);
}

/// Every change of the ledger reaches the disk: whatever is seen, forgotten,
/// moved, pinned or unpinned, the disk holds it once the changes are stored.
pub proof fn law_the_disk_follows_the_ledger(
    base: StoreView,
    l: LedgerView,
    p: Seq<char>,
    q: Seq<char>,
    o: Observation,
)
    requires
        is_mirrored(base, l),
        l.observations.dom().finite(),
    ensures
        is_mirrored(base, observed(l, p, o)),
        is_mirrored(base, unobserved(l, p)),
        is_mirrored(base, forgotten(l, p)),
        is_mirrored(base, remapped(l, p, q)),
        is_mirrored(
            base,
            with_write(LedgerView { pins: l.pins.insert(p), ..l }, Write::Pin(p)),
        ),
        is_mirrored(
            base,
            with_write(LedgerView { pins: l.pins.remove(p), ..l }, Write::Unpin(p)),
        ),
{
    lemma_one_more(base, l, Write::Observe(p, o));
    lemma_one_more(base, l, Write::Pin(p));
    lemma_one_more(base, l, Write::Unpin(p));
    lemma_one_more(base, l, Write::Unobserve(p));
    lemma_one_more(base, l, Write::Unsign(p));
    let u = with_write(
        LedgerView { observations: l.observations.remove(p), ..l },
        Write::Unobserve(p),
    );
    lemma_one_more(base, u, Write::Unsign(p));
    lemma_one_more(base, l, Write::UnobserveWithin(p));
    let f = with_write(l, Write::UnobserveWithin(p));
    lemma_one_more(base, f, Write::UnmarkWithin(p));
    let g = with_write(f, Write::UnmarkWithin(p));
    lemma_one_more(base, g, Write::UnsignWithin(p));
    lemma_one_more(base, l, Write::UnsignWithin(q));
    let r = with_write(l, Write::UnsignWithin(q));
    lemma_one_more(base, r, Write::MoveSigns(p, q));
    let a = with_write(r, Write::MoveSigns(p, q));
    lemma_carried_observations_are_stored(base, a, select(walk(a.observations), p), p, q);
    let b = carry_observations(a, select(walk(a.observations), p), p, q);
    lemma_carried_marks_are_stored(base, b, select(in_order(b.dirty), p), p, q);
}

proof fn lemma_carried_observations_are_stored(
    base: StoreView,
    l: LedgerView,
    paths: Seq<Seq<char>>,
    from: Seq<char>,
    to: Seq<char>,
)
    requires
        is_mirrored(base, l),
    ensures
        is_mirrored(base, carry_observations(l, paths, from, to)),
    decreases paths.len(),
{
    if paths.len() > 0 {
        let before = carry_observations(l, paths.drop_last(), from, to);
        lemma_carried_observations_are_stored(base, l, paths.drop_last(), from, to);
        let p = paths.last();
        lemma_one_more(base, before, Write::Unobserve(p));
        let mid = with_write(before, Write::Unobserve(p));
        lemma_one_more(
            base,
            mid,
            Write::Observe(rebased(p, from, to), before.observations[p]),
        );
    }
}

proof fn lemma_carried_marks_are_stored(
    base: StoreView,
    l: LedgerView,
    paths: Seq<Seq<char>>,
    from: Seq<char>,
    to: Seq<char>,
)
    requires
        is_mirrored(base, l),
    ensures
        is_mirrored(base, carry_marks(l, paths, from, to)),
    decreases paths.len(),
{
    if paths.len() > 0 {
        let before = carry_marks(l, paths.drop_last(), from, to);
        lemma_carried_marks_are_stored(base, l, paths.drop_last(), from, to);
        let p = paths.last();
        lemma_one_more(base, before, Write::Unmark(p));
        let mid = with_write(before, Write::Unmark(p));
        lemma_one_more(base, mid, Write::Mark(rebased(p, from, to)));
    }
}

/// The change takes the signature of a file away.
pub open spec fn unsigns(w: Write<Seq<char>, Seq<u8>>, p: Seq<char>) -> bool {
    match w {
        Write::Unsign(q) => p == q,
        Write::UnsignWithin(dir) => p == dir || below(p, dir),
        _ => false,
    }
}

/// Of all that is stored of the signature of a file, the last is that there is none.
pub open spec fn is_unsigned(writes: Seq<Write<Seq<char>, Seq<u8>>>, p: Seq<char>) -> bool {
    exists|i: int|
        0 <= i < writes.len() && #[trigger] unsigns(writes[i], p) && forall|j: int|
            i < j < writes.len() ==> !((#[trigger] writes[j]) is Sign) && !(writes[j] is MoveSigns)
}

/// A signature does not outlive what it was made of: of a file of which nothing is
/// known any more no signature is stored, so that no delta is made against it.
pub proof fn law_no_signature_outlives_its_file(l: LedgerView, dir: Seq<char>, p: Seq<char>)
    requires
        p == dir || below(p, dir),
    ensures
        is_unsigned(unobserved(l, p).writes, p),
        is_unsigned(disowned(l, dir).writes, p),
        is_unsigned(forgotten(l, dir).writes, p),
{
    let a = unobserved(l, p).writes;
    assert(unsigns(a[a.len() - 1], p));
    let b = disowned(l, dir).writes;
    assert(unsigns(b[b.len() - 1], p));
    let c = forgotten(l, dir).writes;
    assert(unsigns(c[c.len() - 1], p));
}

/// The files that hold edits are those that are marked on disk, once the changes have
/// been stored.
pub open spec fn are_marks_mirrored(base: StoreView, l: LedgerView) -> bool {
    stored_all(base, l.writes).marks == l.dirty
}

proof fn lemma_observations_leave_marks(
    base: StoreView,
    l: LedgerView,
    paths: Seq<Seq<char>>,
    from: Seq<char>,
    to: Seq<char>,
)
    ensures
        stored_all(base, carry_observations(l, paths, from, to).writes).marks == stored_all(
            base,
            l.writes,
        ).marks,
        carry_observations(l, paths, from, to).dirty == l.dirty,
    decreases paths.len(),
{
    if paths.len() > 0 {
        let m = carry_observations(l, paths.drop_last(), from, to);
        lemma_observations_leave_marks(base, l, paths.drop_last(), from, to);
        let p = paths.last();
        let dest = rebased(p, from, to);
        let o = m.observations[p];
        lemma_one_more(base, m, Write::Unobserve(p));
        lemma_one_more(base, with_write(m, Write::Unobserve(p)), Write::Observe(dest, o));
    }
}

proof fn lemma_marks_are_carried(
    base: StoreView,
    l: LedgerView,
    paths: Seq<Seq<char>>,
    from: Seq<char>,
    to: Seq<char>,
)
    requires
        are_marks_mirrored(base, l),
    ensures
        are_marks_mirrored(base, carry_marks(l, paths, from, to)),
    decreases paths.len(),
{
    if paths.len() > 0 {
        let m = carry_marks(l, paths.drop_last(), from, to);
        lemma_marks_are_carried(base, l, paths.drop_last(), from, to);
        let p = paths.last();
        let dest = rebased(p, from, to);
        lemma_one_more(base, m, Write::Unmark(p));
        lemma_one_more(base, with_write(m, Write::Unmark(p)), Write::Mark(dest));
        assert(m.dirty.remove(p).contains(dest) ==> m.dirty.remove(p).insert(dest) =~= m.dirty.remove(
            p,
        ));
    }
}

/// Where the marks on disk are kept by the ledger alone, they are always those of the
/// files that hold edits: whatever is marked, unmarked, forgotten or renamed.
pub proof fn law_the_marks_on_disk_follow_the_edits(
    base: StoreView,
    l: LedgerView,
    p: Seq<char>,
    q: Seq<char>,
    o: Observation,
)
    requires
        are_marks_mirrored(base, l),
    ensures
        are_marks_mirrored(base, marked(l, p)),
        are_marks_mirrored(base, unmarked(l, p)),
        are_marks_mirrored(base, forgotten(l, p)),
        are_marks_mirrored(base, remapped(l, p, q)),
        are_marks_mirrored(base, observed(l, p, o)),
        are_marks_mirrored(base, unobserved(l, p)),
{
    lemma_one_more(base, l, Write::Mark(p));
    lemma_one_more(base, l, Write::Unmark(p));
    lemma_one_more(base, l, Write::Observe(p, o));
    lemma_one_more(base, l, Write::Unobserve(p));
    lemma_one_more(base, l, Write::Unsign(p));
    lemma_one_more(base, with_write(l, Write::Unobserve(p)), Write::Unsign(p));
    lemma_one_more(base, l, Write::UnobserveWithin(p));
    let f = with_write(l, Write::UnobserveWithin(p));
    lemma_one_more(base, f, Write::UnmarkWithin(p));
    lemma_one_more(base, with_write(f, Write::UnmarkWithin(p)), Write::UnsignWithin(p));
    lemma_one_more(base, l, Write::UnsignWithin(q));
    let r = with_write(l, Write::UnsignWithin(q));
    lemma_one_more(base, r, Write::MoveSigns(p, q));
    let a = with_write(r, Write::MoveSigns(p, q));
    lemma_observations_leave_marks(base, a, select(walk(a.observations), p), p, q);
    let b = transferred(l, p, q);
    lemma_marks_are_carried(base, b, select(in_order(b.dirty), p), p, q);
}

proof fn lemma_carried_writes(
    l: LedgerView,
    paths: Seq<Seq<char>>,
    from: Seq<char>,
    to: Seq<char>,
)
    ensures
        l.writes.len() <= carry_observations(l, paths, from, to).writes.len(),
        forall|i: int|
            0 <= i < l.writes.len() ==> #[trigger] carry_observations(l, paths, from, to).writes[i]
                == l.writes[i],
        forall|i: int|
            l.writes.len() <= i < carry_observations(l, paths, from, to).writes.len() ==> (
            #[trigger] carry_observations(l, paths, from, to).writes[i]) is Observe
                || carry_observations(l, paths, from, to).writes[i] is Unobserve,
    decreases paths.len(),
{
    if paths.len() > 0 {
        lemma_carried_writes(l, paths.drop_last(), from, to);
    }
}

/// When a directory has moved on the server, the signatures of what was at its new
/// place are taken away before its own are moved there, and they are touched no more.
pub proof fn law_a_move_on_the_server_moves_the_signatures(
    l: LedgerView,
    from: Seq<char>,
    to: Seq<char>,
    p: Seq<char>,
)
    requires
        p == to || below(p, to),
    ensures
        ({
            let w = transferred(l, from, to).writes;
            exists|i: int, j: int|
                l.writes.len() <= i < j < w.len() && #[trigger] unsigns(w[i], p) && #[trigger] w[j]
                    == Write::<Seq<char>, Seq<u8>>::MoveSigns(from, to) && forall|k: int|
                    j < k < w.len() ==> (#[trigger] w[k]) is Observe || w[k] is Unobserve
        }),
{
    let a = with_write(with_write(l, Write::UnsignWithin(to)), Write::MoveSigns(from, to));
    lemma_carried_writes(a, select(walk(a.observations), from), from, to);
    let w = transferred(l, from, to).writes;
    let n = l.writes.len() as int;
    assert(w[n] == a.writes[n] && w[n + 1] == a.writes[n + 1]);
    assert(unsigns(w[n], p));
    assert(w[n + 1] == Write::<Seq<char>, Seq<u8>>::MoveSigns(from, to));
}

} // verus!
