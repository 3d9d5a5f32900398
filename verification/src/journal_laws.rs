//! What holds of every list of plans that operations are folded into.
use crate::journal::{
    base_of, blank, coalesced, content_at, holds, is_lost, is_target, lease, noted, op_step,
    plans_for, played, remove_plans, rename_plan, rename_plans, renames_of, reusable, save_plans,
    target, touched, Content, SlateView,
};
use crate::model::{Observation, Operation, Plan};
use crate::table::in_order;
use vstd::prelude::*;

verus! {

/// The path at which a plan leaves its mark on the server.
pub open spec fn mark(plan: Plan<Seq<char>>) -> Seq<char> {
    match plan {
        Plan::Save { path, replaces, reuses } => path,
        Plan::Move { from, to, moves } => to,
        Plan::Remove { path, removes } => path,
    }
}

/// The plan destroys nothing that was not seen: what it removes, moves away or
/// overwrites is exactly the version that the server was last seen to have, and
/// what it builds on is another file that the server is known to have.
pub open spec fn is_leased(plan: Plan<Seq<char>>, know: Map<Seq<char>, Observation>) -> bool {
    match plan {
        Plan::Save { path, replaces, reuses } => {
            &&& replaces == lease(know, path)
            &&& reuses matches Some(x) ==> x != path && know.dom().contains(x)
        },
        Plan::Move { from, to, moves } => from != to && lease(know, from) == Some(moves),
        Plan::Remove { path, removes } => lease(know, path) == Some(removes),
    }
}

proof fn lemma_rename_targets(s: SlateView, i: int)
    requires
        0 <= i < renames_of(s.origs, s.content).len(),
    ensures
        ({
            let r = renames_of(s.origs, s.content)[i];
            &&& s.origs.contains(r.0)
            &&& r.0 != r.1
            &&& is_target(s.content, r.0, r.1)
            &&& holds(s.content, r.0, r.1)
        }),
    decreases s.origs.len(),
{
    let front = SlateView { origs: s.origs.drop_last(), content: s.content };
    let before = renames_of(front.origs, s.content);
    let r = renames_of(s.origs, s.content)[i];
    if i < before.len() {
        lemma_rename_targets(front, i);
        assert(r == before[i]);
        let j = choose|j: int| 0 <= j < front.origs.len() && front.origs[j] == r.0;
        assert(s.origs[j] == r.0);
    } else {
        assert(s.origs[s.origs.len() - 1] == r.0);
        assert(target(s.content, r.0) == Some(r.1));
    }
}

pub proof fn lemma_save(
    paths: Seq<Seq<char>>,
    content: Map<Seq<char>, Content<Seq<char>>>,
    know: Map<Seq<char>, Observation>,
    i: int,
)
    requires
        0 <= i < save_plans(paths, content, know).len(),
    ensures
        ({
            let plan = save_plans(paths, content, know)[i];
            &&& plan is Save
            &&& is_leased(plan, know)
            &&& paths.contains(mark(plan))
            &&& content[mark(plan)] is New
        }),
    decreases paths.len(),
{
    let front = paths.drop_last();
    let before = save_plans(front, content, know);
    let plan = save_plans(paths, content, know)[i];
    if i < before.len() {
        lemma_save(front, content, know, i);
        assert(plan == before[i]);
        let j = choose|j: int| 0 <= j < front.len() && front[j] == mark(plan);
        assert(paths[j] == mark(plan));
    } else {
        assert(paths[paths.len() - 1] == mark(plan));
    }
}

proof fn lemma_saves_are_complete(
    paths: Seq<Seq<char>>,
    content: Map<Seq<char>, Content<Seq<char>>>,
    know: Map<Seq<char>, Observation>,
    p: Seq<char>,
) -> (i: int)
    requires
        paths.contains(p),
        content[p] is New,
    ensures
        0 <= i < save_plans(paths, content, know).len(),
        save_plans(paths, content, know)[i] == (Plan::Save {
            path: p,
            replaces: lease(know, p),
            reuses: reusable(base_of(content[p]), p, know),
        }),
    decreases paths.len(),
{
    let front = paths.drop_last();
    let before = save_plans(front, content, know);
    if paths.last() == p {
        before.len() as int
    } else {
        let j = choose|j: int| 0 <= j < paths.len() && paths[j] == p;
        assert(front[j] == p);
        lemma_saves_are_complete(front, content, know, p)
    }
}

proof fn lemma_saves_are_distinct(
    paths: Seq<Seq<char>>,
    content: Map<Seq<char>, Content<Seq<char>>>,
    know: Map<Seq<char>, Observation>,
    i: int,
    j: int,
)
    requires
        paths.no_duplicates(),
        0 <= i < j < save_plans(paths, content, know).len(),
    ensures
        mark(save_plans(paths, content, know)[i]) != mark(save_plans(paths, content, know)[j]),
    decreases paths.len(),
{
    let front = paths.drop_last();
    let before = save_plans(front, content, know);
    let now = save_plans(paths, content, know);
    assert(front.no_duplicates()) by {
        assert forall|a: int, b: int| 0 <= a < front.len() && 0 <= b < front.len() && a != b implies front[a]
            != front[b] by {
            assert(paths[a] != paths[b]);
        }
    }
    if j < before.len() {
        lemma_saves_are_distinct(front, content, know, i, j);
    } else {
        lemma_save(front, content, know, i);
        let a = choose|a: int| 0 <= a < front.len() && front[a] == mark(before[i]);
        assert(paths[a] != paths[paths.len() - 1]);
    }
}

pub proof fn lemma_remove(
    origs: Seq<Seq<char>>,
    content: Map<Seq<char>, Content<Seq<char>>>,
    know: Map<Seq<char>, Observation>,
    i: int,
)
    requires
        0 <= i < remove_plans(origs, content, know).len(),
    ensures
        ({
            let plan = remove_plans(origs, content, know)[i];
            &&& plan is Remove
            &&& is_leased(plan, know)
            &&& origs.contains(mark(plan))
            &&& is_lost(content, mark(plan))
        }),
    decreases origs.len(),
{
    let front = origs.drop_last();
    let before = remove_plans(front, content, know);
    let plan = remove_plans(origs, content, know)[i];
    if i < before.len() {
        lemma_remove(front, content, know, i);
        assert(plan == before[i]);
        let j = choose|j: int| 0 <= j < front.len() && front[j] == mark(plan);
        assert(origs[j] == mark(plan));
    } else {
        assert(origs[origs.len() - 1] == mark(plan));
    }
}

proof fn lemma_removes_are_complete(
    origs: Seq<Seq<char>>,
    content: Map<Seq<char>, Content<Seq<char>>>,
    know: Map<Seq<char>, Observation>,
    p: Seq<char>,
) -> (i: int)
    requires
        origs.contains(p),
        is_lost(content, p),
        know.dom().contains(p),
    ensures
        0 <= i < remove_plans(origs, content, know).len(),
        remove_plans(origs, content, know)[i] == (Plan::Remove { path: p, removes: know[p] }),
    decreases origs.len(),
{
    let front = origs.drop_last();
    let before = remove_plans(front, content, know);
    if origs.last() == p {
        before.len() as int
    } else {
        let j = choose|j: int| 0 <= j < origs.len() && origs[j] == p;
        assert(front[j] == p);
        lemma_removes_are_complete(front, content, know, p)
    }
}

proof fn lemma_removes_are_distinct(
    origs: Seq<Seq<char>>,
    content: Map<Seq<char>, Content<Seq<char>>>,
    know: Map<Seq<char>, Observation>,
    i: int,
    j: int,
)
    requires
        origs.no_duplicates(),
        0 <= i < j < remove_plans(origs, content, know).len(),
    ensures
        mark(remove_plans(origs, content, know)[i]) != mark(remove_plans(origs, content, know)[j]),
    decreases origs.len(),
{
    let front = origs.drop_last();
    let before = remove_plans(front, content, know);
    assert(front.no_duplicates()) by {
        assert forall|a: int, b: int| 0 <= a < front.len() && 0 <= b < front.len() && a != b implies front[a]
            != front[b] by {
            assert(origs[a] != origs[b]);
        }
    }
    if j < before.len() {
        lemma_removes_are_distinct(front, content, know, i, j);
    } else {
        lemma_remove(front, content, know, i);
        let a = choose|a: int| 0 <= a < front.len() && front[a] == mark(before[i]);
        assert(origs[a] != origs[origs.len() - 1]);
    }
}

/// Nothing that was not seen can be destroyed: every plan carries as its lease
/// the version that the server was last seen to have.
pub proof fn law_every_plan_is_leased(
    s: SlateView,
    ops: Seq<Operation<Seq<char>>>,
    know: Map<Seq<char>, Observation>,
)
    ensures
        forall|i: int|
            #![trigger coalesced(s, ops, know)[i]]
            0 <= i < coalesced(s, ops, know).len() ==> is_leased(coalesced(s, ops, know)[i], know),
{
    let t = played(s, ops, know);
    let renames = renames_of(t.origs, t.content);
    let a = rename_plans(renames, know);
    let b = save_plans(in_order(t.content.dom()), t.content, know);
    let c = remove_plans(t.origs, t.content, know);
    assert forall|i: int|
        #![trigger coalesced(s, ops, know)[i]]
        0 <= i < coalesced(s, ops, know).len() implies is_leased(coalesced(s, ops, know)[i], know) by {
        if i < a.len() {
            lemma_rename_targets(t, i);
        } else if i < a.len() + b.len() {
            lemma_save(in_order(t.content.dom()), t.content, know, i - a.len());
        } else {
            lemma_remove(t.origs, t.content, know, i - a.len() - b.len());
        }
    }
}

/// No path is written, filled or emptied by two plans.
pub proof fn law_every_path_has_one_plan(s: SlateView, know: Map<Seq<char>, Observation>)
    requires
        s.origs.no_duplicates(),
        s.content.dom().finite(),
    ensures
        forall|i: int, j: int|
            #![trigger plans_for(s, know)[i], plans_for(s, know)[j]]
            0 <= i < j < plans_for(s, know).len() ==> mark(plans_for(s, know)[i]) != mark(
                plans_for(s, know)[j],
            ),
{
    let renames = renames_of(s.origs, s.content);
    let paths = in_order(s.content.dom());
    let a = rename_plans(renames, know);
    let b = save_plans(paths, s.content, know);
    let c = remove_plans(s.origs, s.content, know);
    crate::table::lemma_walk_of_finite(s.content.dom());
    crate::table::lemma_ascending_no_duplicates(paths);
    crate::journal::lemma_renames(s.origs, s.content);
    let all = plans_for(s, know);
    assert forall|i: int, j: int| #![trigger all[i], all[j]] 0 <= i < j < all.len() implies mark(all[i])
        != mark(all[j]) by {
        if i < a.len() {
            lemma_rename_targets(s, i);
            assert(mark(all[i]) == renames[i].1);
            if j < a.len() {
                lemma_rename_targets(s, j);
                assert(renames[i].0 != renames[j].0);
            } else if j < a.len() + b.len() {
                lemma_save(paths, s.content, know, j - a.len());
            } else {
                lemma_remove(s.origs, s.content, know, j - a.len() - b.len());
            }
        } else if i < a.len() + b.len() {
            lemma_save(paths, s.content, know, i - a.len());
            if j < a.len() + b.len() {
                lemma_saves_are_distinct(paths, s.content, know, i - a.len(), j - a.len());
            } else {
                lemma_remove(s.origs, s.content, know, j - a.len() - b.len());
            }
        } else {
            lemma_removes_are_distinct(
                s.origs,
                s.content,
                know,
                i - a.len() - b.len(),
                j - a.len() - b.len(),
            );
        }
    }
}

/// No change is forgotten: whatever was written is saved, whatever has moved
/// is moved or saved under its first new name, and whatever is lost and known
/// to the server is removed there.
pub proof fn law_no_change_is_forgotten(
    s: SlateView,
    know: Map<Seq<char>, Observation>,
    p: Seq<char>,
)
    requires
        s.content.dom().finite(),
    ensures
        s.content.dom().contains(p) && s.content[p] is New ==> plans_for(s, know).contains(
            Plan::Save {
                path: p,
                replaces: lease(know, p),
                reuses: reusable(base_of(s.content[p]), p, know),
            },
        ),
        forall|orig: Seq<char>|
            s.origs.contains(orig) && orig != p && #[trigger] is_target(s.content, orig, p)
                ==> plans_for(s, know).contains(
                rename_plan(renames_of(s.origs, s.content), (orig, p), know),
            ),
        s.origs.contains(p) && know.dom().contains(p) && is_lost(s.content, p) ==> plans_for(
            s,
            know,
        ).contains(Plan::Remove { path: p, removes: know[p] }),
{
    let renames = renames_of(s.origs, s.content);
    let paths = in_order(s.content.dom());
    let a = rename_plans(renames, know);
    let b = save_plans(paths, s.content, know);
    let c = remove_plans(s.origs, s.content, know);
    let all = plans_for(s, know);
    crate::table::lemma_walk_of_finite(s.content.dom());
    if s.content.dom().contains(p) && s.content[p] is New {
        assert(paths.to_set().contains(p));
        let i = lemma_saves_are_complete(paths, s.content, know, p);
        assert(all[a.len() + i] == b[i]);
    }
    assert forall|orig: Seq<char>|
        s.origs.contains(orig) && orig != p && #[trigger] is_target(s.content, orig, p) implies all.contains(
        rename_plan(renames, (orig, p), know),
    ) by {
        let i = lemma_renames_are_complete(s.origs, s.content, orig, p);
        assert(all[i] == a[i]);
    }
    if s.origs.contains(p) && know.dom().contains(p) && is_lost(s.content, p) {
        let i = lemma_removes_are_complete(s.origs, s.content, know, p);
        assert(all[a.len() + b.len() + i] == c[i]);
    }
}

proof fn lemma_renames_are_complete(
    origs: Seq<Seq<char>>,
    content: Map<Seq<char>, Content<Seq<char>>>,
    orig: Seq<char>,
    p: Seq<char>,
) -> (i: int)
    requires
        origs.contains(orig),
        orig != p,
        is_target(content, orig, p),
    ensures
        0 <= i < renames_of(origs, content).len(),
        renames_of(origs, content)[i] == (orig, p),
    decreases origs.len(),
{
    let front = origs.drop_last();
    if origs.last() == orig {
        crate::journal::lemma_target_is(content, orig, p);
        renames_of(front, content).len() as int
    } else {
        let j = choose|j: int| 0 <= j < origs.len() && origs[j] == orig;
        assert(front[j] == orig);
        lemma_renames_are_complete(front, content, orig, p)
    }
}

/// The paths that an operation names.
pub open spec fn named(op: Operation<Seq<char>>, p: Seq<char>) -> bool {
    match op {
        Operation::Create(q) => p == q,
        Operation::Write(q) => p == q,
        Operation::Rename(a, b) => p == a || p == b,
        Operation::Delete(q) => p == q,
    }
}

proof fn lemma_only_named_paths_change(
    s: SlateView,
    ops: Seq<Operation<Seq<char>>>,
    know: Map<Seq<char>, Observation>,
    p: Seq<char>,
)
    requires
        forall|i: int| 0 <= i < ops.len() ==> !named(#[trigger] ops[i], p),
    ensures
        played(s, ops, know).content.dom().contains(p) == s.content.dom().contains(p),
    decreases ops.len(),
{
    if ops.len() > 0 {
        let front = ops.drop_last();
        assert forall|i: int| 0 <= i < front.len() implies !named(#[trigger] front[i], p) by {
            assert(front[i] == ops[i]);
        }
        lemma_only_named_paths_change(s, front, know, p);
        assert(!named(ops[ops.len() - 1], p));
    }
}

/// A path that no operation names, and that nothing is waiting for, is left
/// alone: no plan leaves its mark there.
pub proof fn law_other_paths_are_left_alone(
    s: SlateView,
    ops: Seq<Operation<Seq<char>>>,
    know: Map<Seq<char>, Observation>,
    p: Seq<char>,
)
    requires
        s.content.dom().finite(),
        !s.content.dom().contains(p),
        forall|i: int| 0 <= i < ops.len() ==> !named(#[trigger] ops[i], p),
    ensures
        forall|i: int|
            #![trigger coalesced(s, ops, know)[i]]
            0 <= i < coalesced(s, ops, know).len() ==> mark(coalesced(s, ops, know)[i]) != p,
{
    let t = played(s, ops, know);
    lemma_only_named_paths_change(s, ops, know, p);
    lemma_played_is_finite(s, ops, know);
    let paths = in_order(t.content.dom());
    crate::table::lemma_walk_of_finite(t.content.dom());
    let renames = renames_of(t.origs, t.content);
    let a = rename_plans(renames, know);
    let b = save_plans(paths, t.content, know);
    assert forall|i: int|
        #![trigger coalesced(s, ops, know)[i]]
        0 <= i < coalesced(s, ops, know).len() implies mark(coalesced(s, ops, know)[i]) != p by {
        if i < a.len() {
            lemma_rename_targets(t, i);
        } else if i < a.len() + b.len() {
            lemma_save(paths, t.content, know, i - a.len());
            assert(paths.to_set().contains(mark(b[i - a.len()])));
        } else {
            lemma_remove(t.origs, t.content, know, i - a.len() - b.len());
        }
    }
}

proof fn lemma_played_is_finite(
    s: SlateView,
    ops: Seq<Operation<Seq<char>>>,
    know: Map<Seq<char>, Observation>,
)
    requires
        s.content.dom().finite(),
    ensures
        played(s, ops, know).content.dom().finite(),
    decreases ops.len(),
{
    if ops.len() > 0 {
        lemma_played_is_finite(s, ops.drop_last(), know);
    }
}

/// What a slate made from nothing but operations keeps: each file of the server
/// that was touched is listed once, and whatever still holds an old file holds
/// one that is listed and known.
pub open spec fn is_traced(s: SlateView, know: Map<Seq<char>, Observation>) -> bool {
    &&& s.origs.no_duplicates()
    &&& s.content.dom().finite()
    &&& forall|p: Seq<char>|
        #![trigger s.content.dom().contains(p)]
        s.content.dom().contains(p) && know.dom().contains(p) ==> s.origs.contains(p)
    &&& forall|x: Seq<char>, p: Seq<char>|
        #[trigger] holds(s.content, x, p) ==> s.origs.contains(x) && know.dom().contains(x)
}

proof fn lemma_noted(origs: Seq<Seq<char>>, p: Seq<char>)
    requires
        origs.no_duplicates(),
    ensures
        noted(origs, p).no_duplicates(),
        noted(origs, p).contains(p),
        forall|x: Seq<char>| #![trigger noted(origs, p).contains(x)] origs.contains(x) ==> noted(origs, p).contains(x),
{
    let now = noted(origs, p);
    if !origs.contains(p) {
        assert(now[origs.len() as int] == p);
        assert forall|x: Seq<char>| #![trigger now.contains(x)] origs.contains(x) implies now.contains(x) by {
            let i = choose|i: int| 0 <= i < origs.len() && origs[i] == x;
            assert(now[i] == x);
        }
        assert forall|i: int, j: int| 0 <= i < now.len() && 0 <= j < now.len() && i != j implies now[i]
            != now[j] by {
            if i < origs.len() && j < origs.len() {
                assert(origs[i] != origs[j]);
            } else if i < origs.len() {
                assert(origs.contains(origs[i]));
            } else {
                assert(origs.contains(origs[j]));
            }
        }
    }
}

proof fn lemma_step_is_traced(
    s: SlateView,
    op: Operation<Seq<char>>,
    know: Map<Seq<char>, Observation>,
)
    requires
        is_traced(s, know),
    ensures
        is_traced(op_step(s, op, know), know),
{
    let t = op_step(s, op, know);
    match op {
        Operation::Create(p) => {
            lemma_noted(s.origs, p);
            lemma_put_is_traced(s, t, p, know);
        },
        Operation::Write(p) => {
            lemma_noted(s.origs, p);
            lemma_put_is_traced(s, t, p, know);
        },
        Operation::Delete(p) => {
            lemma_noted(s.origs, p);
            lemma_put_is_traced(s, t, p, know);
        },
        Operation::Rename(a, b) => {
            let u = SlateView { origs: touched(s, a, know), content: s.content };
            lemma_noted(s.origs, a);
            lemma_noted(u.origs, b);
            assert forall|p: Seq<char>|
                #![trigger t.content.dom().contains(p)]
                t.content.dom().contains(p) && know.dom().contains(p) implies t.origs.contains(p) by {
                if s.content.dom().contains(p) {
                    assert(s.origs.contains(p));
                    assert(u.origs.contains(p));
                } else if p == a {
                    assert(u.origs.contains(a));
                }
            }
            assert forall|x: Seq<char>, p: Seq<char>| #[trigger] holds(t.content, x, p) implies t.origs.contains(
                x,
            ) && know.dom().contains(x) by {
                if p == b {
                    let c = content_at(s.content, a, know);
                    if s.content.dom().contains(a) {
                        assert(holds(s.content, x, a));
                        assert(s.origs.contains(x));
                    } else {
                        assert(x == a);
                    }
                    assert(u.origs.contains(x));
                } else {
                    assert(holds(s.content, x, p));
                    assert(s.origs.contains(x));
                    assert(u.origs.contains(x));
                }
            }
        },
    }
}

proof fn lemma_put_is_traced(
    s: SlateView,
    t: SlateView,
    p: Seq<char>,
    know: Map<Seq<char>, Observation>,
)
    requires
        is_traced(s, know),
        t.origs == touched(s, p, know),
        t.origs.no_duplicates(),
        forall|x: Seq<char>| #![trigger t.origs.contains(x)] s.origs.contains(x) ==> t.origs.contains(x),
        know.dom().contains(p) && !s.content.dom().contains(p) ==> t.origs.contains(p),
        t.content.dom().contains(p),
        t.content[p] !is Orig,
        t.content == s.content.insert(p, t.content[p]),
    ensures
        is_traced(t, know),
{
    assert forall|x: Seq<char>, q: Seq<char>| #[trigger] holds(t.content, x, q) implies t.origs.contains(x)
        && know.dom().contains(x) by {
        assert(q != p);
        assert(holds(s.content, x, q));
        assert(s.origs.contains(x));
    }
    assert forall|q: Seq<char>|
        #![trigger t.content.dom().contains(q)]
        t.content.dom().contains(q) && know.dom().contains(q) implies t.origs.contains(q) by {
        if s.content.dom().contains(q) {
            assert(s.origs.contains(q));
        }
    }
}

proof fn lemma_played_is_traced(
    s: SlateView,
    ops: Seq<Operation<Seq<char>>>,
    know: Map<Seq<char>, Observation>,
)
    requires
        is_traced(s, know),
    ensures
        is_traced(played(s, ops, know), know),
    decreases ops.len(),
{
    if ops.len() > 0 {
        lemma_played_is_traced(s, ops.drop_last(), know);
        lemma_step_is_traced(played(s, ops.drop_last(), know), ops.last(), know);
    }
}

/// Whatever a burst of operations does, a file of the server that it leaves
/// nowhere is removed there, and the plans leave at most one mark on any path.
pub proof fn law_a_lost_file_is_removed(
    ops: Seq<Operation<Seq<char>>>,
    know: Map<Seq<char>, Observation>,
    p: Seq<char>,
)
    ensures
        ({
            let t = played(blank(), ops, know);
            know.dom().contains(p) && is_lost(t.content, p) ==> coalesced(
                blank(),
                ops,
                know,
            ).contains(Plan::Remove { path: p, removes: know[p] })
        }),
        forall|i: int, j: int|
            #![trigger coalesced(blank(), ops, know)[i], coalesced(blank(), ops, know)[j]]
            0 <= i < j < coalesced(blank(), ops, know).len() ==> mark(
                coalesced(blank(), ops, know)[i],
            ) != mark(coalesced(blank(), ops, know)[j]),
{
    let t = played(blank(), ops, know);
    lemma_played_is_traced(blank(), ops, know);
    law_no_change_is_forgotten(t, know, p);
    law_every_path_has_one_plan(t, know);
}

/// A file that the server does not know, and of which nothing is left, costs
/// nothing: no plan leaves its mark on it.
pub proof fn law_a_temporary_file_is_nothing(
    ops: Seq<Operation<Seq<char>>>,
    know: Map<Seq<char>, Observation>,
    p: Seq<char>,
)
    requires
        !know.dom().contains(p),
        ({
            let t = played(blank(), ops, know);
            t.content.dom().contains(p) ==> t.content[p] == Content::<Seq<char>>::Gone
        }),
    ensures
        forall|i: int|
            #![trigger coalesced(blank(), ops, know)[i]]
            0 <= i < coalesced(blank(), ops, know).len() ==> mark(coalesced(blank(), ops, know)[i]) != p,
{
    let t = played(blank(), ops, know);
    lemma_played_is_traced(blank(), ops, know);
    let paths = in_order(t.content.dom());
    crate::table::lemma_walk_of_finite(t.content.dom());
    let renames = renames_of(t.origs, t.content);
    let a = rename_plans(renames, know);
    let b = save_plans(paths, t.content, know);
    assert forall|i: int|
        #![trigger coalesced(blank(), ops, know)[i]]
        0 <= i < coalesced(blank(), ops, know).len() implies mark(coalesced(blank(), ops, know)[i]) != p by {
        if i < a.len() {
            lemma_rename_targets(t, i);
        } else if i < a.len() + b.len() {
            lemma_save(paths, t.content, know, i - a.len());
            assert(paths.to_set().contains(mark(b[i - a.len()])));
        } else {
            lemma_remove(t.origs, t.content, know, i - a.len() - b.len());
        }
    }
}

} // verus!
