//! What plans are for: once they are carried out, the server has what is here.
use crate::journal::{
    base_of, blank, coalesced, content_at, follow, holds, is_lost, is_target, lease, next, noted,
    on_cycle, op_step, plans_for, played, remove_plans, rename_plan, rename_plans, renames_of,
    save_plans, seed_step, seeded, target, touched, Content, SlateView,
};
use crate::model::{Observation, Operation, Plan};
use crate::table::in_order;
use vstd::prelude::*;

verus! {

/// What a file holds: the version that the server was seen to have of a file, or
/// something that is only here, made from a file of the server or from nothing.
pub enum Stuff {
    Server(Seq<char>),
    Local(Option<Seq<char>>),
}

/// The files that the server was seen to have, each in its own place.
pub open spec fn remote(know: Map<Seq<char>, Observation>) -> Map<Seq<char>, Stuff> {
    Map::new(|p: Seq<char>| know.dom().contains(p), |p: Seq<char>| Stuff::Server(p))
}

/// What the next version of a file is made from.
pub open spec fn made_from(files: Map<Seq<char>, Stuff>, p: Seq<char>) -> Option<Seq<char>> {
    if files.dom().contains(p) {
        match files[p] {
            Stuff::Server(x) => Some(x),
            Stuff::Local(x) => x,
        }
    } else {
        None
    }
}

/// The files here after something has happened to one of them.
pub open spec fn happened(files: Map<Seq<char>, Stuff>, op: Operation<Seq<char>>) -> Map<
    Seq<char>,
    Stuff,
> {
    match op {
        Operation::Create(p) => files.insert(p, Stuff::Local(None)),
        Operation::Write(p) => files.insert(p, Stuff::Local(made_from(files, p))),
        Operation::Rename(a, b) => files.insert(b, files[a]).remove(a),
        Operation::Delete(p) => files.remove(p),
    }
}

/// The files here after all that has happened, first to last.
pub open spec fn all_happened(
    files: Map<Seq<char>, Stuff>,
    ops: Seq<Operation<Seq<char>>>,
) -> Map<Seq<char>, Stuff>
    decreases ops.len(),
{
    if ops.len() == 0 {
        files
    } else {
        happened(all_happened(files, ops.drop_last()), ops.last())
    }
}

/// An operation can happen: a file that is renamed is there, and gets another name.
pub open spec fn can_happen(files: Map<Seq<char>, Stuff>, op: Operation<Seq<char>>) -> bool {
    op matches Operation::Rename(a, b) ==> a != b && files.dom().contains(a)
}

/// Everything can happen in its turn.
pub open spec fn all_can_happen(
    files: Map<Seq<char>, Stuff>,
    ops: Seq<Operation<Seq<char>>>,
) -> bool
    decreases ops.len(),
{
    ops.len() > 0 ==> all_can_happen(files, ops.drop_last()) && can_happen(
        all_happened(files, ops.drop_last()),
        ops.last(),
    )
}

/// The files here if what a waiting plan is for has happened.
pub open spec fn meant(files: Map<Seq<char>, Stuff>, plan: Plan<Seq<char>>) -> Map<
    Seq<char>,
    Stuff,
> {
    match plan {
        Plan::Save { path, replaces, reuses } => files.insert(path, Stuff::Local(reuses)),
        Plan::Move { from, to, moves } => files.insert(to, Stuff::Server(from)).remove(from),
        Plan::Remove { path, removes } => files.remove(path),
    }
}

/// The files here if what all the waiting plans are for has happened.
pub open spec fn all_meant(
    files: Map<Seq<char>, Stuff>,
    plans: Seq<Plan<Seq<char>>>,
) -> Map<Seq<char>, Stuff>
    decreases plans.len(),
{
    if plans.len() == 0 {
        files
    } else {
        meant(all_meant(files, plans.drop_last()), plans.last())
    }
}

/// A plan can wait: it is on the version that the server was seen to have, and what
/// it moves or removes is still the file of the server.
pub open spec fn can_wait(
    files: Map<Seq<char>, Stuff>,
    plan: Plan<Seq<char>>,
    know: Map<Seq<char>, Observation>,
) -> bool {
    match plan {
        Plan::Save { path, replaces, reuses } => replaces == lease(know, path),
        Plan::Move { from, to, moves } => from != to && lease(know, from) == Some(moves)
            && files.dom().contains(from) && files[from] == Stuff::Server(from),
        Plan::Remove { path, removes } => lease(know, path) == Some(removes)
            && files.dom().contains(path) && files[path] == Stuff::Server(path),
    }
}

/// All plans can wait, each after those before it.
pub open spec fn all_can_wait(
    files: Map<Seq<char>, Stuff>,
    plans: Seq<Plan<Seq<char>>>,
    know: Map<Seq<char>, Observation>,
) -> bool
    decreases plans.len(),
{
    plans.len() > 0 ==> all_can_wait(files, plans.drop_last(), know) && can_wait(
        all_meant(files, plans.drop_last()),
        plans.last(),
        know,
    )
}

/// The files of the server after a plan has been carried out, where `here` are the
/// files here. What is saved is what is here, if anything is; what is moved or
/// removed is the file of the server, or nothing if it is not there any more.
pub open spec fn carried_out(
    there: Map<Seq<char>, Stuff>,
    here: Map<Seq<char>, Stuff>,
    plan: Plan<Seq<char>>,
) -> Map<Seq<char>, Stuff> {
    match plan {
        Plan::Save { path, replaces, reuses } => if here.dom().contains(path) {
            there.insert(path, here[path])
        } else {
            there
        },
        Plan::Move { from, to, moves } => if there.dom().contains(from) && there[from]
            == Stuff::Server(from) {
            there.insert(to, there[from]).remove(from)
        } else {
            there
        },
        Plan::Remove { path, removes } => if there.dom().contains(path) && there[path]
            == Stuff::Server(path) {
            there.remove(path)
        } else {
            there
        },
    }
}

/// The files of the server after all plans have been carried out, first to last.
pub open spec fn all_carried_out(
    there: Map<Seq<char>, Stuff>,
    here: Map<Seq<char>, Stuff>,
    plans: Seq<Plan<Seq<char>>>,
) -> Map<Seq<char>, Stuff>
    decreases plans.len(),
{
    if plans.len() == 0 {
        there
    } else {
        carried_out(all_carried_out(there, here, plans.drop_last()), here, plans.last())
    }
}

/// Two places hold the same at `p`.
pub open spec fn agree(
    a: Map<Seq<char>, Stuff>,
    b: Map<Seq<char>, Stuff>,
    p: Seq<char>,
) -> bool {
    &&& a.dom().contains(p) == b.dom().contains(p)
    &&& a.dom().contains(p) ==> a[p] == b[p]
}

/// The slate tells what the files here are, as far as they are not the server's.
pub open spec fn is_faithful(
    s: SlateView,
    files: Map<Seq<char>, Stuff>,
    know: Map<Seq<char>, Observation>,
) -> bool {
    &&& s.content.dom().finite()
    &&& forall|p: Seq<char>|
        #![trigger s.content.dom().contains(p)]
        #![trigger files.dom().contains(p)]
        if s.content.dom().contains(p) {
            match s.content[p] {
                Content::New(x) => files.dom().contains(p) && files[p] == Stuff::Local(x),
                Content::Orig(x) => files.dom().contains(p) && files[p] == Stuff::Server(x),
                Content::Gone => !files.dom().contains(p),
            }
        } else if know.dom().contains(p) {
            files.dom().contains(p) && files[p] == Stuff::Server(p)
        } else {
            files.dom().contains(p) ==> files[p] == Stuff::Local(None)
        }
    &&& forall|x: Seq<char>, p: Seq<char>| #[trigger]
        holds(s.content, x, p) ==> s.origs.contains(x) && know.dom().contains(x)
            && s.content.dom().contains(x)
    &&& forall|x: Seq<char>, p: Seq<char>, q: Seq<char>|
        #![trigger holds(s.content, x, p), holds(s.content, x, q)]
        holds(s.content, x, p) && holds(s.content, x, q) ==> p == q
}

proof fn lemma_listed(origs: Seq<Seq<char>>, p: Seq<char>)
    ensures
        noted(origs, p).contains(p),
        forall|x: Seq<char>|
            #![trigger noted(origs, p).contains(x)]
            origs.contains(x) ==> noted(origs, p).contains(x),
{
    let now = noted(origs, p);
    if !origs.contains(p) {
        assert(now[origs.len() as int] == p);
        assert forall|x: Seq<char>| #![trigger now.contains(x)] origs.contains(x) implies now.contains(x) by {
            let i = choose|i: int| 0 <= i < origs.len() && origs[i] == x;
            assert(now[i] == x);
        }
    }
}

proof fn lemma_put(
    s: SlateView,
    t: SlateView,
    files: Map<Seq<char>, Stuff>,
    after: Map<Seq<char>, Stuff>,
    p: Seq<char>,
    know: Map<Seq<char>, Observation>,
)
    requires
        is_faithful(s, files, know),
        forall|x: Seq<char>| #![trigger t.origs.contains(x)] s.origs.contains(x) ==> t.origs.contains(x),
        t.content.dom().contains(p),
        t.content == s.content.insert(p, t.content[p]),
        match t.content[p] {
            Content::New(x) => after == files.insert(p, Stuff::Local(x)),
            Content::Orig(x) => false,
            Content::Gone => after == files.remove(p),
        },
    ensures
        is_faithful(t, after, know),
{
    assert forall|x: Seq<char>, q: Seq<char>| #[trigger] holds(t.content, x, q) implies t.origs.contains(x)
        && know.dom().contains(x) && t.content.dom().contains(x) by {
        assert(holds(s.content, x, q));
        assert(s.origs.contains(x));
    }
    assert forall|x: Seq<char>, a: Seq<char>, b: Seq<char>|
        #![trigger holds(t.content, x, a), holds(t.content, x, b)]
        holds(t.content, x, a) && holds(t.content, x, b) implies a == b by {
        assert(holds(s.content, x, a) && holds(s.content, x, b));
    }
}

proof fn lemma_op_is_faithful(
    s: SlateView,
    files: Map<Seq<char>, Stuff>,
    op: Operation<Seq<char>>,
    know: Map<Seq<char>, Observation>,
)
    requires
        is_faithful(s, files, know),
        can_happen(files, op),
    ensures
        is_faithful(op_step(s, op, know), happened(files, op), know),
{
    let t = op_step(s, op, know);
    let after = happened(files, op);
    match op {
        Operation::Create(p) => {
            lemma_listed(s.origs, p);
            lemma_put(s, t, files, after, p, know);
        },
        Operation::Write(p) => {
            lemma_listed(s.origs, p);
            assert(s.content.dom().contains(p) || !s.content.dom().contains(p));
            assert(base_of(content_at(s.content, p, know)) == made_from(files, p));
            lemma_put(s, t, files, after, p, know);
        },
        Operation::Delete(p) => {
            lemma_listed(s.origs, p);
            lemma_put(s, t, files, after, p, know);
        },
        Operation::Rename(a, b) => {
            let u = SlateView { origs: touched(s, a, know), content: s.content };
            lemma_listed(s.origs, a);
            lemma_listed(u.origs, b);
            assert(s.content.dom().contains(a) || !s.content.dom().contains(a));
            let c = content_at(s.content, a, know);
            assert(t.content.dom().finite());
            assert forall|p: Seq<char>|
                #![trigger t.content.dom().contains(p)]
                #![trigger after.dom().contains(p)]
                if t.content.dom().contains(p) {
                    match t.content[p] {
                        Content::New(x) => after.dom().contains(p) && after[p] == Stuff::Local(x),
                        Content::Orig(x) => after.dom().contains(p) && after[p] == Stuff::Server(x),
                        Content::Gone => !after.dom().contains(p),
                    }
                } else if know.dom().contains(p) {
                    after.dom().contains(p) && after[p] == Stuff::Server(p)
                } else {
                    after.dom().contains(p) ==> after[p] == Stuff::Local(None)
                } by {
                assert(s.content.dom().contains(p) || !s.content.dom().contains(p));
                if p == b {
                    assert(files.dom().contains(a));
                }
            }
            assert forall|x: Seq<char>, p: Seq<char>| #[trigger] holds(t.content, x, p) implies t.origs.contains(
                x,
            ) && know.dom().contains(x) && t.content.dom().contains(x) by {
                if p == b {
                    if s.content.dom().contains(a) {
                        assert(holds(s.content, x, a));
                        assert(s.origs.contains(x));
                    } else {
                        assert(x == a);
                    }
                    assert(u.origs.contains(x));
                } else {
                    assert(holds(s.content, x, p));
                    assert(s.origs.contains(x));
                    assert(u.origs.contains(x));
                }
            }
            assert forall|x: Seq<char>, p: Seq<char>, q: Seq<char>|
                #![trigger holds(t.content, x, p), holds(t.content, x, q)]
                holds(t.content, x, p) && holds(t.content, x, q) implies p == q by {
                if p == b && q != b {
                    assert(holds(s.content, x, q));
                    if s.content.dom().contains(a) {
                        assert(holds(s.content, x, a));
                    } else {
                        assert(x == a);
                    }
                } else if q == b && p != b {
                    assert(holds(s.content, x, p));
                    if s.content.dom().contains(a) {
                        assert(holds(s.content, x, a));
                    } else {
                        assert(x == a);
                    }
                } else if p != b {
                    assert(holds(s.content, x, p) && holds(s.content, x, q));
                }
            }
        },
    }
}

proof fn lemma_ops_are_faithful(
    s: SlateView,
    files: Map<Seq<char>, Stuff>,
    ops: Seq<Operation<Seq<char>>>,
    know: Map<Seq<char>, Observation>,
)
    requires
        is_faithful(s, files, know),
        all_can_happen(files, ops),
    ensures
        is_faithful(played(s, ops, know), all_happened(files, ops), know),
    decreases ops.len(),
{
    if ops.len() > 0 {
        lemma_ops_are_faithful(s, files, ops.drop_last(), know);
        lemma_op_is_faithful(
            played(s, ops.drop_last(), know),
            all_happened(files, ops.drop_last()),
            ops.last(),
            know,
        );
    }
}

proof fn lemma_plan_is_faithful(
    s: SlateView,
    files: Map<Seq<char>, Stuff>,
    plan: Plan<Seq<char>>,
    know: Map<Seq<char>, Observation>,
)
    requires
        is_faithful(s, files, know),
        can_wait(files, plan, know),
    ensures
        is_faithful(seed_step(s, plan), meant(files, plan), know),
{
    let t = seed_step(s, plan);
    let after = meant(files, plan);
    match plan {
        Plan::Save { path, replaces, reuses } => {
            lemma_listed(s.origs, path);
            lemma_put(s, t, files, after, path, know);
        },
        Plan::Remove { path, removes } => {
            lemma_listed(s.origs, path);
            lemma_put(s, t, files, after, path, know);
        },
        Plan::Move { from, to, moves } => {
            lemma_listed(s.origs, from);
            assert(s.content.dom().contains(from) || !s.content.dom().contains(from));
            assert forall|p: Seq<char>|
                #![trigger t.content.dom().contains(p)]
                #![trigger after.dom().contains(p)]
                if t.content.dom().contains(p) {
                    match t.content[p] {
                        Content::New(x) => after.dom().contains(p) && after[p] == Stuff::Local(x),
                        Content::Orig(x) => after.dom().contains(p) && after[p] == Stuff::Server(x),
                        Content::Gone => !after.dom().contains(p),
                    }
                } else if know.dom().contains(p) {
                    after.dom().contains(p) && after[p] == Stuff::Server(p)
                } else {
                    after.dom().contains(p) ==> after[p] == Stuff::Local(None)
                } by {
                assert(s.content.dom().contains(p) || !s.content.dom().contains(p));
            }
            assert forall|x: Seq<char>, p: Seq<char>| #[trigger] holds(t.content, x, p) implies t.origs.contains(
                x,
            ) && know.dom().contains(x) && t.content.dom().contains(x) by {
                if p != to {
                    assert(holds(s.content, x, p));
                    assert(s.origs.contains(x));
                }
            }
            assert forall|x: Seq<char>, p: Seq<char>, q: Seq<char>|
                #![trigger holds(t.content, x, p), holds(t.content, x, q)]
                holds(t.content, x, p) && holds(t.content, x, q) implies p == q by {
                if p != to && q != to {
                    assert(holds(s.content, x, p) && holds(s.content, x, q));
                } else if p != to {
                    assert(holds(s.content, from, p));
                    if s.content.dom().contains(from) {
                        assert(holds(s.content, from, from));
                    }
                } else if q != to {
                    assert(holds(s.content, from, q));
                    if s.content.dom().contains(from) {
                        assert(holds(s.content, from, from));
                    }
                }
            }
        },
    }
}

proof fn lemma_plans_are_faithful(
    plans: Seq<Plan<Seq<char>>>,
    files: Map<Seq<char>, Stuff>,
    know: Map<Seq<char>, Observation>,
)
    requires
        is_faithful(blank(), files, know),
        all_can_wait(files, plans, know),
    ensures
        is_faithful(seeded(plans), all_meant(files, plans), know),
    decreases plans.len(),
{
    if plans.len() > 0 {
        lemma_plans_are_faithful(plans.drop_last(), files, know);
        lemma_plan_is_faithful(
            seeded(plans.drop_last()),
            all_meant(files, plans.drop_last()),
            plans.last(),
            know,
        );
    }
}

proof fn lemma_more_carried_out(
    there: Map<Seq<char>, Stuff>,
    here: Map<Seq<char>, Stuff>,
    a: Seq<Plan<Seq<char>>>,
    b: Seq<Plan<Seq<char>>>,
)
    ensures
        all_carried_out(there, here, a + b) == all_carried_out(
            all_carried_out(there, here, a),
            here,
            b,
        ),
    decreases b.len(),
{
    if b.len() == 0 {
        assert(a + b =~= a);
    } else {
        lemma_more_carried_out(there, here, a, b.drop_last());
        assert((a + b).drop_last() =~= a + b.drop_last());
    }
}

/// Some rename before the `k`-th leads to `p`.
pub open spec fn is_taken(renames: Seq<(Seq<char>, Seq<char>)>, k: int, p: Seq<char>) -> bool {
    exists|i: int| 0 <= i < k && (#[trigger] renames[i]).1 == p
}

/// Some move before the `k`-th rename leads away from `p`.
pub open spec fn is_left(
    renames: Seq<(Seq<char>, Seq<char>)>,
    know: Map<Seq<char>, Observation>,
    k: int,
    p: Seq<char>,
) -> bool {
    exists|i: int|
        0 <= i < k && (#[trigger] renames[i]).0 == p && rename_plan(renames, renames[i], know) is Move
}

/// No file is moved away from where another one has been put by an earlier plan.
pub open spec fn is_orderly(
    renames: Seq<(Seq<char>, Seq<char>)>,
    know: Map<Seq<char>, Observation>,
) -> bool {
    forall|i: int, j: int|
        #![trigger renames[i], renames[j]]
        0 <= i < j < renames.len() && rename_plan(renames, renames[j], know) is Move
            ==> renames[i].1 != renames[j].0
}

/// The files of the server after the first `k` renames.
pub open spec fn after_renames(
    s: SlateView,
    files: Map<Seq<char>, Stuff>,
    know: Map<Seq<char>, Observation>,
    k: int,
) -> Map<Seq<char>, Stuff> {
    all_carried_out(
        remote(know),
        files,
        rename_plans(renames_of(s.origs, s.content), know).take(k),
    )
}

proof fn lemma_renames_carried_out(
    s: SlateView,
    files: Map<Seq<char>, Stuff>,
    know: Map<Seq<char>, Observation>,
    k: int,
    p: Seq<char>,
)
    requires
        is_faithful(s, files, know),
        s.origs.no_duplicates(),
        is_orderly(renames_of(s.origs, s.content), know),
        0 <= k <= renames_of(s.origs, s.content).len(),
    ensures
        ({
            let renames = renames_of(s.origs, s.content);
            let there = after_renames(s, files, know, k);
            if is_taken(renames, k, p) {
                agree(there, files, p)
            } else if is_left(renames, know, k, p) {
                !there.dom().contains(p)
            } else {
                agree(there, remote(know), p)
            }
        }),
    decreases k,
{
    let renames = renames_of(s.origs, s.content);
    let plans = rename_plans(renames, know);
    if k > 0 {
        let r = renames[k - 1];
        let plan = plans[k - 1];
        assert(plans.take(k).drop_last() =~= plans.take(k - 1));
        assert(plans.take(k).last() == plan);
        let before = after_renames(s, files, know, k - 1);
        let there = after_renames(s, files, know, k);
        assert(there == carried_out(before, files, plan));
        lemma_renames_carried_out(s, files, know, k - 1, p);
        crate::journal::lemma_renames(s.origs, s.content);
        lemma_target_holds(s.content, r.0, r.1);
        assert(files.dom().contains(r.1) && files[r.1] == Stuff::Server(r.0)) by {
            assert(s.content.dom().contains(r.1));
        }
        assert(r.0 != r.1);
        assert(is_taken(renames, k, r.1));
        if plan is Move {
            lemma_renames_carried_out(s, files, know, k - 1, r.0);
            assert(!is_taken(renames, k - 1, r.0)) by {
                if is_taken(renames, k - 1, r.0) {
                    let i = choose|i: int| 0 <= i < k - 1 && (#[trigger] renames[i]).1 == r.0;
                    assert(renames[i].1 != renames[k - 1].0);
                }
            }
            assert(!is_left(renames, know, k - 1, r.0)) by {
                if is_left(renames, know, k - 1, r.0) {
                    let i = choose|i: int|
                        0 <= i < k - 1 && (#[trigger] renames[i]).0 == r.0 && rename_plan(
                            renames,
                            renames[i],
                            know,
                        ) is Move;
                    assert(renames[i].0 != renames[k - 1].0);
                }
            }
            assert(before.dom().contains(r.0) && before[r.0] == Stuff::Server(r.0));
            assert(is_left(renames, know, k, r.0));
            if is_taken(renames, k, r.0) {
                let i = choose|i: int| 0 <= i < k && (#[trigger] renames[i]).1 == r.0;
                assert(i == k - 1);
            }
        }
        if is_taken(renames, k - 1, p) {
            let i = choose|i: int| 0 <= i < k - 1 && (#[trigger] renames[i]).1 == p;
            assert(renames[i].1 == p);
            assert(is_taken(renames, k, p));
        } else if is_taken(renames, k, p) {
            let i = choose|i: int| 0 <= i < k && (#[trigger] renames[i]).1 == p;
            assert(p == r.1);
        }
        if is_left(renames, know, k - 1, p) {
            let i = choose|i: int|
                0 <= i < k - 1 && (#[trigger] renames[i]).0 == p && rename_plan(
                    renames,
                    renames[i],
                    know,
                ) is Move;
            assert(renames[i].0 == p);
            assert(is_left(renames, know, k, p));
        } else if is_left(renames, know, k, p) {
            let i = choose|i: int|
                0 <= i < k && (#[trigger] renames[i]).0 == p && rename_plan(
                    renames,
                    renames[i],
                    know,
                ) is Move;
            assert(p == r.0);
        }
    }
}

proof fn lemma_target_holds(
    content: Map<Seq<char>, Content<Seq<char>>>,
    orig: Seq<char>,
    p: Seq<char>,
)
    requires
        target(content, orig) == Some(p),
    ensures
        is_target(content, orig, p),
        holds(content, orig, p),
{
}

proof fn lemma_saves_carried_out(
    there: Map<Seq<char>, Stuff>,
    s: SlateView,
    files: Map<Seq<char>, Stuff>,
    know: Map<Seq<char>, Observation>,
    paths: Seq<Seq<char>>,
    p: Seq<char>,
)
    requires
        is_faithful(s, files, know),
        forall|i: int| 0 <= i < paths.len() ==> s.content.dom().contains(#[trigger] paths[i]),
    ensures
        ({
            let after = all_carried_out(there, files, save_plans(paths, s.content, know));
            if paths.contains(p) && s.content[p] is New {
                agree(after, files, p)
            } else {
                agree(after, there, p)
            }
        }),
    decreases paths.len(),
{
    if paths.len() > 0 {
        let front = paths.drop_last();
        let last = paths.last();
        assert(last == paths[paths.len() - 1]);
        assert forall|i: int| 0 <= i < front.len() implies s.content.dom().contains(#[trigger] front[i]) by {
            assert(front[i] == paths[i]);
        }
        lemma_saves_carried_out(there, s, files, know, front, p);
        let before = save_plans(front, s.content, know);
        let all = save_plans(paths, s.content, know);
        if s.content[last] is New {
            assert(all.drop_last() =~= before);
        }
        if front.contains(p) {
            let i = choose|i: int| 0 <= i < front.len() && front[i] == p;
            assert(paths[i] == p);
        }
        if paths.contains(p) && !front.contains(p) {
            let i = choose|i: int| 0 <= i < paths.len() && paths[i] == p;
            if i < front.len() {
                assert(front[i] == p);
            }
            assert(p == last);
        }
    }
}

proof fn lemma_removes_carried_out(
    there: Map<Seq<char>, Stuff>,
    s: SlateView,
    files: Map<Seq<char>, Stuff>,
    know: Map<Seq<char>, Observation>,
    origs: Seq<Seq<char>>,
    p: Seq<char>,
)
    requires
        is_lost(s.content, p) && know.dom().contains(p) ==> agree(there, remote(know), p),
    ensures
        ({
            let after = all_carried_out(there, files, remove_plans(origs, s.content, know));
            if origs.contains(p) && is_lost(s.content, p) && know.dom().contains(p) {
                !after.dom().contains(p)
            } else {
                agree(after, there, p)
            }
        }),
    decreases origs.len(),
{
    if origs.len() > 0 {
        let front = origs.drop_last();
        let last = origs.last();
        assert(last == origs[origs.len() - 1]);
        lemma_removes_carried_out(there, s, files, know, front, p);
        let before = remove_plans(front, s.content, know);
        let all = remove_plans(origs, s.content, know);
        if is_lost(s.content, last) && know.dom().contains(last) {
            assert(all.drop_last() =~= before);
        }
        if front.contains(p) {
            let i = choose|i: int| 0 <= i < front.len() && front[i] == p;
            assert(origs[i] == p);
        }
        if origs.contains(p) && !front.contains(p) {
            let i = choose|i: int| 0 <= i < origs.len() && origs[i] == p;
            if i < front.len() {
                assert(front[i] == p);
            }
            assert(p == last);
        }
    }
}

proof fn lemma_ring_member_is_taken(
    renames: Seq<(Seq<char>, Seq<char>)>,
    r: (Seq<char>, Seq<char>),
)
    requires
        on_cycle(renames, r),
        r.0 != r.1,
    ensures
        is_taken(renames, renames.len() as int, r.0),
{
    let n = choose|n: nat| n < renames.len() && #[trigger] follow(renames, r.1, n) == Some(r.0);
    assert(n > 0);
    let q = follow(renames, r.1, (n - 1) as nat)->0;
    assert(next(renames, q) == Some(r.0));
}

/// A file of the server was lost without its place being listed: it had been
/// overwritten by a waiting move.
pub open spec fn is_overlooked(
    s: SlateView,
    know: Map<Seq<char>, Observation>,
    p: Seq<char>,
) -> bool {
    know.dom().contains(p) && is_lost(s.content, p) && !s.origs.contains(p)
}

proof fn lemma_found_rename(
    origs: Seq<Seq<char>>,
    content: Map<Seq<char>, Content<Seq<char>>>,
    orig: Seq<char>,
    p: Seq<char>,
) -> (i: int)
    requires
        origs.contains(orig),
        orig != p,
        target(content, orig) == Some(p),
    ensures
        0 <= i < renames_of(origs, content).len(),
        renames_of(origs, content)[i] == (orig, p),
    decreases origs.len(),
{
    let front = origs.drop_last();
    if origs.last() == orig {
        renames_of(front, content).len() as int
    } else {
        let j = choose|j: int| 0 <= j < origs.len() && origs[j] == orig;
        assert(front[j] == orig);
        lemma_found_rename(front, content, orig, p)
    }
}

proof fn lemma_only_holder(
    s: SlateView,
    files: Map<Seq<char>, Stuff>,
    know: Map<Seq<char>, Observation>,
    x: Seq<char>,
    p: Seq<char>,
)
    requires
        is_faithful(s, files, know),
        holds(s.content, x, p),
    ensures
        target(s.content, x) == Some(p),
{
    assert(is_target(s.content, x, p)) by {
        assert forall|q: Seq<char>| #[trigger] holds(s.content, x, q) implies q == p || crate::text::precedes(
            p,
            q,
        ) by {
        }
    }
    crate::journal::lemma_target_is(s.content, x, p);
}

proof fn lemma_carried_out(
    s: SlateView,
    files: Map<Seq<char>, Stuff>,
    know: Map<Seq<char>, Observation>,
    p: Seq<char>,
)
    requires
        is_faithful(s, files, know),
        s.origs.no_duplicates(),
        is_orderly(renames_of(s.origs, s.content), know),
        !is_overlooked(s, know, p),
    ensures
        ({
            let after = all_carried_out(remote(know), files, plans_for(s, know));
            if s.content.dom().contains(p) {
                agree(after, files, p)
            } else {
                agree(after, remote(know), p)
            }
        }),
{
    let renames = renames_of(s.origs, s.content);
    let paths = in_order(s.content.dom());
    let a = rename_plans(renames, know);
    let b = save_plans(paths, s.content, know);
    let c = remove_plans(s.origs, s.content, know);
    let n = renames.len() as int;
    lemma_more_carried_out(remote(know), files, a + b, c);
    lemma_more_carried_out(remote(know), files, a, b);
    assert(a.take(n) =~= a);
    let one = all_carried_out(remote(know), files, a);
    let two = all_carried_out(one, files, b);
    lemma_renames_carried_out(s, files, know, n, p);
    crate::table::lemma_walk_of_finite(s.content.dom());
    assert forall|i: int| 0 <= i < paths.len() implies s.content.dom().contains(#[trigger] paths[i]) by {
        assert(paths.to_set().contains(paths[i]));
    }
    lemma_saves_carried_out(one, s, files, know, paths, p);
    crate::journal::lemma_renames(s.origs, s.content);
    if s.content.dom().contains(p) {
        assert(paths.to_set().contains(p));
    } else {
        assert(!paths.contains(p)) by {
            if paths.contains(p) {
                assert(paths.to_set().contains(p));
            }
        }
    }
    // No rename leads to a path that holds something else.
    if is_taken(renames, n, p) {
        let i = choose|i: int| 0 <= i < n && (#[trigger] renames[i]).1 == p;
        lemma_target_holds(s.content, renames[i].0, p);
        assert(holds(s.content, renames[i].0, p));
    }
    // No move leads away from a path that nobody else holds.
    if is_left(renames, know, n, p) {
        let i = choose|i: int|
            0 <= i < n && (#[trigger] renames[i]).0 == p && rename_plan(renames, renames[i], know) is Move;
        lemma_target_holds(s.content, p, renames[i].1);
        assert(holds(s.content, p, renames[i].1));
        assert(s.content.dom().contains(p));
    }
    if is_lost(s.content, p) && know.dom().contains(p) {
        assert(agree(two, remote(know), p));
    }
    lemma_removes_carried_out(two, s, files, know, s.origs, p);
    if s.content.dom().contains(p) {
        match s.content[p] {
            Content::New(x) => {},
            Content::Orig(x) => {
                assert(holds(s.content, x, p));
                lemma_only_holder(s, files, know, x, p);
                if x != p {
                    let i = lemma_found_rename(s.origs, s.content, x, p);
                    assert(renames[i].1 == p);
                    assert(is_taken(renames, n, p));
                } else {
                    if is_taken(renames, n, p) {
                        let i = choose|i: int| 0 <= i < n && (#[trigger] renames[i]).1 == p;
                        assert(renames[i].0 == x);
                    }
                    if is_left(renames, know, n, p) {
                        let i = choose|i: int|
                            0 <= i < n && (#[trigger] renames[i]).0 == p && rename_plan(
                                renames,
                                renames[i],
                                know,
                            ) is Move;
                        assert(renames[i].1 == p);
                    }
                }
            },
            Content::Gone => {
                if know.dom().contains(p) && !is_lost(s.content, p) {
                    let q = choose|q: Seq<char>| #[trigger] holds(s.content, p, q);
                    lemma_only_holder(s, files, know, p, q);
                    let i = lemma_found_rename(s.origs, s.content, p, q);
                    if on_cycle(renames, renames[i]) {
                        lemma_ring_member_is_taken(renames, renames[i]);
                        let j = choose|j: int| 0 <= j < n && (#[trigger] renames[j]).1 == p;
                        lemma_target_holds(s.content, renames[j].0, p);
                    }
                    assert(rename_plan(renames, renames[i], know) is Move);
                    assert(is_left(renames, know, n, p));
                }
            },
        }
    }
}

proof fn lemma_seeds_are_listed_once(plans: Seq<Plan<Seq<char>>>)
    ensures
        seeded(plans).origs.no_duplicates(),
    decreases plans.len(),
{
    if plans.len() > 0 {
        lemma_seeds_are_listed_once(plans.drop_last());
        let origs = seeded(plans.drop_last()).origs;
        match plans.last() {
            Plan::Save { path, replaces, reuses } => lemma_noted_once(origs, path),
            Plan::Move { from, to, moves } => lemma_noted_once(origs, from),
            Plan::Remove { path, removes } => lemma_noted_once(origs, path),
        }
    }
}

proof fn lemma_noted_once(origs: Seq<Seq<char>>, p: Seq<char>)
    requires
        origs.no_duplicates(),
    ensures
        noted(origs, p).no_duplicates(),
{
    let now = noted(origs, p);
    if !origs.contains(p) {
        assert forall|i: int, j: int| 0 <= i < now.len() && 0 <= j < now.len() && i != j implies now[i]
            != now[j] by {
            if i < origs.len() && j < origs.len() {
                assert(origs[i] != origs[j]);
            } else if i < origs.len() {
                assert(origs.contains(origs[i]));
            } else {
                assert(origs.contains(origs[j]));
            }
        }
    }
}

proof fn lemma_played_is_listed_once(
    s: SlateView,
    ops: Seq<Operation<Seq<char>>>,
    know: Map<Seq<char>, Observation>,
)
    requires
        s.origs.no_duplicates(),
    ensures
        played(s, ops, know).origs.no_duplicates(),
    decreases ops.len(),
{
    if ops.len() > 0 {
        lemma_played_is_listed_once(s, ops.drop_last(), know);
        let t = played(s, ops.drop_last(), know);
        match ops.last() {
            Operation::Create(p) => lemma_noted_once(t.origs, p),
            Operation::Write(p) => lemma_noted_once(t.origs, p),
            Operation::Delete(p) => lemma_noted_once(t.origs, p),
            Operation::Rename(a, b) => {
                lemma_noted_once(t.origs, a);
                lemma_noted_once(touched(t, a, know), b);
            },
        }
    }
}

/// Something is said of a path: a waiting plan or an operation names it.
pub open spec fn is_named(
    plans: Seq<Plan<Seq<char>>>,
    ops: Seq<Operation<Seq<char>>>,
    p: Seq<char>,
) -> bool {
    ||| exists|i: int| 0 <= i < plans.len() && plan_names(#[trigger] plans[i], p)
    ||| exists|i: int| 0 <= i < ops.len() && crate::journal_laws::named(#[trigger] ops[i], p)
}

/// A plan names a path.
pub open spec fn plan_names(plan: Plan<Seq<char>>, p: Seq<char>) -> bool {
    match plan {
        Plan::Save { path, replaces, reuses } => p == path,
        Plan::Move { from, to, moves } => p == from || p == to,
        Plan::Remove { path, removes } => p == path,
    }
}

proof fn lemma_seeded_names(plans: Seq<Plan<Seq<char>>>, p: Seq<char>)
    ensures
        seeded(plans).content.dom().contains(p) <==> exists|i: int|
            0 <= i < plans.len() && plan_names(#[trigger] plans[i], p),
    decreases plans.len(),
{
    if plans.len() > 0 {
        let front = plans.drop_last();
        lemma_seeded_names(front, p);
        assert(plans[plans.len() - 1] == plans.last());
        if exists|i: int| 0 <= i < front.len() && plan_names(#[trigger] front[i], p) {
            let i = choose|i: int| 0 <= i < front.len() && plan_names(#[trigger] front[i], p);
            assert(plan_names(plans[i], p));
        }
        if exists|i: int| 0 <= i < plans.len() && plan_names(#[trigger] plans[i], p) {
            let i = choose|i: int| 0 <= i < plans.len() && plan_names(#[trigger] plans[i], p);
            if i < front.len() {
                assert(plan_names(front[i], p));
            }
        }
    }
}

proof fn lemma_played_names(
    s: SlateView,
    ops: Seq<Operation<Seq<char>>>,
    know: Map<Seq<char>, Observation>,
    p: Seq<char>,
)
    ensures
        played(s, ops, know).content.dom().contains(p) <==> s.content.dom().contains(p) || exists|
            i: int,
        |
            0 <= i < ops.len() && crate::journal_laws::named(#[trigger] ops[i], p),
    decreases ops.len(),
{
    if ops.len() > 0 {
        let front = ops.drop_last();
        lemma_played_names(s, front, know, p);
        assert(ops[ops.len() - 1] == ops.last());
        if exists|i: int| 0 <= i < front.len() && crate::journal_laws::named(#[trigger] front[i], p) {
            let i = choose|i: int|
                0 <= i < front.len() && crate::journal_laws::named(#[trigger] front[i], p);
            assert(crate::journal_laws::named(ops[i], p));
        }
        if exists|i: int| 0 <= i < ops.len() && crate::journal_laws::named(#[trigger] ops[i], p) {
            let i = choose|i: int|
                0 <= i < ops.len() && crate::journal_laws::named(#[trigger] ops[i], p);
            if i < front.len() {
                assert(crate::journal_laws::named(front[i], p));
            }
        }
    }
}

/// The plans do what they are for. However the files here have come to be what they
/// are, by waiting plans and by what has happened since, once the plans are carried
/// out the server has at every path that was touched what is here: the same file,
/// the same edits, or nothing. All other files of the server are as they were.
///
/// Left out are two kinds of folding: one in which a file would be moved away from a
/// place where an earlier plan has put another file, and a file of the server that a
/// waiting move overwrote and that is then removed.
pub proof fn law_the_plans_bring_about_what_is_here(
    plans: Seq<Plan<Seq<char>>>,
    ops: Seq<Operation<Seq<char>>>,
    know: Map<Seq<char>, Observation>,
    files: Map<Seq<char>, Stuff>,
    p: Seq<char>,
)
    requires
        forall|q: Seq<char>|
            #![trigger files.dom().contains(q)]
            if know.dom().contains(q) {
                files.dom().contains(q) && files[q] == Stuff::Server(q)
            } else {
                files.dom().contains(q) ==> files[q] == Stuff::Local(None)
            },
        all_can_wait(files, plans, know),
        all_can_happen(all_meant(files, plans), ops),
        ({
            let t = played(seeded(plans), ops, know);
            &&& is_orderly(renames_of(t.origs, t.content), know)
            &&& !is_overlooked(t, know, p)
        }),
    ensures
        ({
            let here = all_happened(all_meant(files, plans), ops);
            let there = all_carried_out(
                remote(know),
                here,
                coalesced(seeded(plans), ops, know),
            );
            if is_named(plans, ops, p) {
                agree(there, here, p)
            } else {
                agree(there, remote(know), p)
            }
        }),
{
    let t = played(seeded(plans), ops, know);
    assert(is_faithful(blank(), files, know)) by {
        assert forall|x: Seq<char>, q: Seq<char>| #[trigger] holds(blank().content, x, q) implies false by {
        }
    }
    lemma_plans_are_faithful(plans, files, know);
    lemma_ops_are_faithful(seeded(plans), all_meant(files, plans), ops, know);
    lemma_seeds_are_listed_once(plans);
    lemma_played_is_listed_once(seeded(plans), ops, know);
    lemma_carried_out(t, all_happened(all_meant(files, plans), ops), know, p);
    lemma_seeded_names(plans, p);
    lemma_played_names(seeded(plans), ops, know, p);
}

proof fn lemma_nothing_is_overlooked(
    s: SlateView,
    ops: Seq<Operation<Seq<char>>>,
    know: Map<Seq<char>, Observation>,
    p: Seq<char>,
)
    requires
        s.content.dom().contains(p) && know.dom().contains(p) ==> s.origs.contains(p),
    ensures
        ({
            let t = played(s, ops, know);
            &&& t.content.dom().contains(p) && know.dom().contains(p) ==> t.origs.contains(p)
            &&& s.origs.contains(p) ==> t.origs.contains(p)
        }),
    decreases ops.len(),
{
    if ops.len() > 0 {
        lemma_nothing_is_overlooked(s, ops.drop_last(), know, p);
        let t = played(s, ops.drop_last(), know);
        match ops.last() {
            Operation::Create(q) => lemma_listed(t.origs, q),
            Operation::Write(q) => lemma_listed(t.origs, q),
            Operation::Delete(q) => lemma_listed(t.origs, q),
            Operation::Rename(a, b) => {
                lemma_listed(t.origs, a);
                lemma_listed(touched(t, a, know), b);
                if t.origs.contains(p) {
                    assert(noted(t.origs, a).contains(p));
                    assert(touched(t, a, know).contains(p));
                }
                if p == a && know.dom().contains(a) && !t.content.dom().contains(a) {
                    assert(touched(t, a, know).contains(a));
                }
            },
        }
    }
}

/// Where nothing waits, the plans for what has happened bring about on the server
/// what is here, at every path.
pub proof fn law_what_happened_here_happens_there(
    ops: Seq<Operation<Seq<char>>>,
    know: Map<Seq<char>, Observation>,
    p: Seq<char>,
)
    requires
        all_can_happen(remote(know), ops),
        ({
            let t = played(blank(), ops, know);
            is_orderly(renames_of(t.origs, t.content), know)
        }),
    ensures
        agree(
            all_carried_out(
                remote(know),
                all_happened(remote(know), ops),
                coalesced(blank(), ops, know),
            ),
            all_happened(remote(know), ops),
            p,
        ),
{
    let none = Seq::<Plan<Seq<char>>>::empty();
    assert(seeded(none) == blank());
    assert(all_meant(remote(know), none) == remote(know));
    lemma_nothing_is_overlooked(blank(), ops, know, p);
    law_the_plans_bring_about_what_is_here(none, ops, know, remote(know), p);
    if !is_named(none, ops, p) {
        lemma_untouched(remote(know), ops, p);
    }
}

proof fn lemma_untouched(
    files: Map<Seq<char>, Stuff>,
    ops: Seq<Operation<Seq<char>>>,
    p: Seq<char>,
)
    requires
        forall|i: int| 0 <= i < ops.len() ==> !crate::journal_laws::named(#[trigger] ops[i], p),
    ensures
        agree(all_happened(files, ops), files, p),
    decreases ops.len(),
{
    if ops.len() > 0 {
        let front = ops.drop_last();
        assert forall|i: int| 0 <= i < front.len() implies !crate::journal_laws::named(
            #[trigger] front[i],
            p,
        ) by {
            assert(front[i] == ops[i]);
        }
        lemma_untouched(files, front, p);
        assert(!crate::journal_laws::named(ops[ops.len() - 1], p));
    }
}

proof fn lemma_played_on(
    s: SlateView,
    a: Seq<Operation<Seq<char>>>,
    b: Seq<Operation<Seq<char>>>,
    know: Map<Seq<char>, Observation>,
)
    ensures
        played(s, a + b, know) == played(played(s, a, know), b, know),
    decreases b.len(),
{
    if b.len() == 0 {
        assert(a + b =~= a);
    } else {
        assert((a + b).drop_last() =~= a + b.drop_last());
        lemma_played_on(s, a, b.drop_last(), know);
    }
}

/// A waiting plan means to the fold what it meant to the server: with a move that
/// waits, whatever happens next folds into the same plans as if the file had just
/// been renamed; likewise a removal and the file having just been removed, and a
/// save and the file having just been made.
pub proof fn law_a_waiting_plan_is_what_happened(
    a: Seq<char>,
    b: Seq<char>,
    o: Observation,
    ops: Seq<Operation<Seq<char>>>,
    know: Map<Seq<char>, Observation>,
)
    requires
        a != b,
    ensures
        lease(know, a) == Some(o) && !know.dom().contains(b) ==> coalesced(
            seeded(seq![Plan::Move { from: a, to: b, moves: o }]),
            ops,
            know,
        ) == coalesced(blank(), seq![Operation::Rename(a, b)] + ops, know),
        lease(know, a) == Some(o) ==> coalesced(
            seeded(seq![Plan::Remove { path: a, removes: o }]),
            ops,
            know,
        ) == coalesced(blank(), seq![Operation::Delete(a)] + ops, know),
        coalesced(
            seeded(seq![Plan::Save { path: a, replaces: lease(know, a), reuses: None }]),
            ops,
            know,
        ) == coalesced(blank(), seq![Operation::Create(a)] + ops, know),
{
    lemma_played_on(blank(), seq![Operation::Rename(a, b)], ops, know);
    lemma_played_on(blank(), seq![Operation::Delete(a)], ops, know);
    lemma_played_on(blank(), seq![Operation::Create(a)], ops, know);
    lemma_one_seed(Plan::Move { from: a, to: b, moves: o });
    lemma_one_seed(Plan::Remove { path: a, removes: o });
    lemma_one_seed(Plan::Save { path: a, replaces: lease(know, a), reuses: None });
    lemma_one_op(blank(), Operation::Rename(a, b), know);
    lemma_one_op(blank(), Operation::Delete(a), know);
    lemma_one_op(blank(), Operation::Create(a), know);
}

proof fn lemma_one_seed(plan: Plan<Seq<char>>)
    ensures
        seeded(seq![plan]) == seed_step(blank(), plan),
{
    assert(seq![plan].drop_last() =~= Seq::<Plan<Seq<char>>>::empty());
    assert(seeded(seq![plan].drop_last()) == blank());
}

proof fn lemma_one_op(
    s: SlateView,
    op: Operation<Seq<char>>,
    know: Map<Seq<char>, Observation>,
)
    ensures
        played(s, seq![op], know) == op_step(s, op, know),
{
    assert(seq![op].drop_last() =~= Seq::<Operation<Seq<char>>>::empty());
    assert(played(s, seq![op].drop_last(), know) == s);
}

/// What happens to a file that waits to be moved happens to the file: renamed once
/// more, it is moved from where the server has it to where it is now; removed, it is
/// removed where the server has it.
pub proof fn law_a_file_is_followed_through_its_renames(
    a: Seq<char>,
    b: Seq<char>,
    c: Seq<char>,
    o: Observation,
    know: Map<Seq<char>, Observation>,
)
    requires
        a != b,
        b != c,
        a != c,
        lease(know, a) == Some(o),
        !know.dom().contains(b),
        !know.dom().contains(c),
    ensures
        coalesced(
            seeded(seq![Plan::Move { from: a, to: b, moves: o }]),
            seq![Operation::Rename(b, c)],
            know,
        ) == seq![Plan::Move { from: a, to: c, moves: o }],
        coalesced(
            seeded(seq![Plan::Move { from: a, to: b, moves: o }]),
            seq![Operation::Delete(b)],
            know,
        ) == seq![Plan::Remove { path: a, removes: o }],
        coalesced(
            seeded(seq![Plan::Move { from: a, to: b, moves: o }]),
            Seq::empty(),
            know,
        ) == seq![Plan::Move { from: a, to: b, moves: o }],
{
    let plan = Plan::Move { from: a, to: b, moves: o };
    lemma_one_seed(plan);
    let s = seeded(seq![plan]);
    let e = Seq::<Seq<char>>::empty();
    assert(!e.contains(a));
    assert(s.origs =~= seq![a]);
    assert(s.content =~= Map::empty().insert(b, Content::Orig(a)).insert(a, Content::Gone));
    // Renamed once more.
    let one = seq![Operation::Rename(b, c)];
    lemma_one_op(s, Operation::Rename(b, c), know);
    let t = played(s, one, know);
    assert(t.origs =~= seq![a]);
    lemma_lone_move(t, a, c, know);
    assert(coalesced(s, one, know) =~= seq![Plan::Move { from: a, to: c, moves: o }]);
    // Removed.
    let two = seq![Operation::Delete(b)];
    lemma_one_op(s, Operation::Delete(b), know);
    let u = played(s, two, know);
    assert(u.origs =~= seq![a]);
    lemma_lone_removal(u, a, know);
    assert(coalesced(s, two, know) =~= seq![Plan::Remove { path: a, removes: o }]);
    // Left alone.
    let none = Seq::<Operation<Seq<char>>>::empty();
    assert(played(s, none, know) == s);
    lemma_lone_move(s, a, b, know);
    assert(coalesced(s, none, know) =~= seq![plan]);
}

proof fn lemma_no_saves(
    paths: Seq<Seq<char>>,
    content: Map<Seq<char>, Content<Seq<char>>>,
    know: Map<Seq<char>, Observation>,
)
    requires
        forall|i: int| 0 <= i < paths.len() ==> content[#[trigger] paths[i]] !is New,
    ensures
        save_plans(paths, content, know) == Seq::<Plan<Seq<char>>>::empty(),
    decreases paths.len(),
{
    if paths.len() > 0 {
        let front = paths.drop_last();
        assert forall|i: int| 0 <= i < front.len() implies content[#[trigger] front[i]] !is New by {
            assert(front[i] == paths[i]);
        }
        lemma_no_saves(front, content, know);
        assert(paths.last() == paths[paths.len() - 1]);
    }
}

proof fn lemma_lone_move(
    s: SlateView,
    a: Seq<char>,
    c: Seq<char>,
    know: Map<Seq<char>, Observation>,
)
    requires
        a != c,
        know.dom().contains(a),
        s.origs == seq![a],
        s.content.dom().finite(),
        forall|q: Seq<char>|
            #![trigger s.content.dom().contains(q)]
            s.content.dom().contains(q) && q != c ==> s.content[q] == Content::<Seq<char>>::Gone,
        s.content.dom().contains(c),
        s.content[c] == Content::Orig(a),
    ensures
        plans_for(s, know) == seq![Plan::Move { from: a, to: c, moves: know[a] }],
{
    assert(is_target(s.content, a, c)) by {
        assert(holds(s.content, a, c));
        assert forall|q: Seq<char>| #[trigger] holds(s.content, a, q) implies q == c || crate::text::precedes(
            c,
            q,
        ) by {
            assert(s.content.dom().contains(q));
        }
    }
    crate::journal::lemma_target_is(s.content, a, c);
    let none = Seq::<Seq<char>>::empty();
    assert(s.origs.drop_last() =~= none);
    assert(renames_of(none, s.content) =~= Seq::<(Seq<char>, Seq<char>)>::empty());
    let renames = renames_of(s.origs, s.content);
    assert(renames =~= seq![(a, c)]);
    assert(!on_cycle(renames, (a, c))) by {
        if on_cycle(renames, (a, c)) {
            let n = choose|n: nat| n < renames.len() && #[trigger] follow(renames, c, n) == Some(a);
            assert(n == 0);
        }
    }
    assert(rename_plans(renames, know) =~= seq![
        Plan::Move { from: a, to: c, moves: know[a] },
    ]);
    let paths = in_order(s.content.dom());
    crate::table::lemma_walk_of_finite(s.content.dom());
    assert forall|i: int| 0 <= i < paths.len() implies s.content[#[trigger] paths[i]] !is New by {
        assert(paths.to_set().contains(paths[i]));
        assert(s.content.dom().contains(paths[i]));
    }
    lemma_no_saves(paths, s.content, know);
    assert(remove_plans(none, s.content, know) =~= Seq::<Plan<Seq<char>>>::empty());
    assert(!is_lost(s.content, a)) by {
        assert(holds(s.content, a, c));
    }
    assert(remove_plans(s.origs, s.content, know) =~= Seq::<Plan<Seq<char>>>::empty());
    assert(plans_for(s, know) =~= seq![Plan::Move { from: a, to: c, moves: know[a] }]);
}

proof fn lemma_lone_removal(s: SlateView, a: Seq<char>, know: Map<Seq<char>, Observation>)
    requires
        know.dom().contains(a),
        s.origs == seq![a],
        s.content.dom().finite(),
        forall|q: Seq<char>|
            #![trigger s.content.dom().contains(q)]
            s.content.dom().contains(q) ==> s.content[q] == Content::<Seq<char>>::Gone,
        s.content.dom().contains(a),
    ensures
        plans_for(s, know) == seq![Plan::Remove { path: a, removes: know[a] }],
{
    let none = Seq::<Seq<char>>::empty();
    assert(s.origs.drop_last() =~= none);
    assert(renames_of(none, s.content) =~= Seq::<(Seq<char>, Seq<char>)>::empty());
    assert forall|q: Seq<char>| !#[trigger] holds(s.content, a, q) by {
        assert(s.content.dom().contains(q) || !s.content.dom().contains(q));
    }
    assert(target(s.content, a) is None);
    let renames = renames_of(s.origs, s.content);
    assert(renames =~= Seq::<(Seq<char>, Seq<char>)>::empty());
    assert(rename_plans(renames, know) =~= Seq::<Plan<Seq<char>>>::empty());
    let paths = in_order(s.content.dom());
    crate::table::lemma_walk_of_finite(s.content.dom());
    assert forall|i: int| 0 <= i < paths.len() implies s.content[#[trigger] paths[i]] !is New by {
        assert(paths.to_set().contains(paths[i]));
        assert(s.content.dom().contains(paths[i]));
    }
    lemma_no_saves(paths, s.content, know);
    assert(remove_plans(none, s.content, know) =~= Seq::<Plan<Seq<char>>>::empty());
    assert(is_lost(s.content, a));
    assert(remove_plans(s.origs, s.content, know) =~= seq![
        Plan::Remove { path: a, removes: know[a] },
    ]);
    assert(plans_for(s, know) =~= seq![Plan::Remove { path: a, removes: know[a] }]);
}

/// A file that was only renamed is moved, not uploaded, unless its old place is
/// taken by another file that was only renamed. What is saved is here, and it
/// builds on the file of the server that it was made from, if that is another one
/// that the server is known to have.
pub proof fn law_plans_cost_no_more_than_they_must(
    plans: Seq<Plan<Seq<char>>>,
    ops: Seq<Operation<Seq<char>>>,
    know: Map<Seq<char>, Observation>,
    files: Map<Seq<char>, Stuff>,
    p: Seq<char>,
)
    requires
        forall|q: Seq<char>|
            #![trigger files.dom().contains(q)]
            if know.dom().contains(q) {
                files.dom().contains(q) && files[q] == Stuff::Server(q)
            } else {
                files.dom().contains(q) ==> files[q] == Stuff::Local(None)
            },
        all_can_wait(files, plans, know),
        all_can_happen(all_meant(files, plans), ops),
        is_named(plans, ops, p),
    ensures
        ({
            let here = all_happened(all_meant(files, plans), ops);
            let all = coalesced(seeded(plans), ops, know);
            &&& here.dom().contains(p) ==> match here[p] {
                Stuff::Local(from) => all.contains(
                    Plan::Save {
                        path: p,
                        replaces: lease(know, p),
                        reuses: match from {
                            Some(x) => if x != p && know.dom().contains(x) {
                                Some(x)
                            } else {
                                None
                            },
                            None => None,
                        },
                    },
                ),
                Stuff::Server(x) => x != p ==> {
                    ||| all.contains(Plan::Move { from: x, to: p, moves: know[x] })
                    ||| here.dom().contains(x) && here[x] is Server && all.contains(
                        Plan::Save { path: p, replaces: lease(know, p), reuses: Some(x) },
                    )
                },
            }
            &&& forall|i: int|
                #![trigger all[i]]
                0 <= i < all.len() ==> (all[i] matches Plan::Save { path, replaces, reuses }
                    ==> here.dom().contains(path) && here[path] != Stuff::Server(path))
        }),
{
    let t = played(seeded(plans), ops, know);
    let here = all_happened(all_meant(files, plans), ops);
    let all = coalesced(seeded(plans), ops, know);
    assert(is_faithful(blank(), files, know)) by {
        assert forall|x: Seq<char>, q: Seq<char>| #[trigger] holds(blank().content, x, q) implies false by {
        }
    }
    lemma_plans_are_faithful(plans, files, know);
    lemma_ops_are_faithful(seeded(plans), all_meant(files, plans), ops, know);
    lemma_seeds_are_listed_once(plans);
    lemma_played_is_listed_once(seeded(plans), ops, know);
    lemma_seeded_names(plans, p);
    lemma_played_names(seeded(plans), ops, know, p);
    crate::journal_laws::law_no_change_is_forgotten(t, know, p);
    let renames = renames_of(t.origs, t.content);
    crate::journal::lemma_renames(t.origs, t.content);
    if here.dom().contains(p) {
        match here[p] {
            Stuff::Local(from) => {
                assert(t.content[p] == Content::New(from));
            },
            Stuff::Server(x) => {
                assert(t.content[p] == Content::Orig(x));
                assert(holds(t.content, x, p));
                if x != p {
                    lemma_only_holder(t, here, know, x, p);
                    assert(is_target(t.content, x, p));
                    if on_cycle(renames, (x, p)) {
                        lemma_ring_member_is_taken(renames, (x, p));
                        let j = choose|j: int|
                            0 <= j < renames.len() && (#[trigger] renames[j]).1 == x;
                        lemma_target_holds(t.content, renames[j].0, x);
                        assert(t.content.dom().contains(x));
                    }
                }
            },
        }
    }
    let paths = in_order(t.content.dom());
    let a = rename_plans(renames, know);
    let b = save_plans(paths, t.content, know);
    let c = remove_plans(t.origs, t.content, know);
    crate::table::lemma_walk_of_finite(t.content.dom());
    assert forall|i: int| #![trigger all[i]] 0 <= i < all.len() implies (
    all[i] matches Plan::Save { path, replaces, reuses } ==> here.dom().contains(path) && here[path]
        != Stuff::Server(path)) by {
        if i < a.len() {
            assert(all[i] == rename_plan(renames, renames[i], know));
            lemma_target_holds(t.content, renames[i].0, renames[i].1);
            assert(t.content.dom().contains(renames[i].1));
        } else if i < a.len() + b.len() {
            crate::journal_laws::lemma_save(paths, t.content, know, i - a.len());
            let q = crate::journal_laws::mark(b[i - a.len()]);
            assert(paths.to_set().contains(q));
            assert(t.content.dom().contains(q));
        } else {
            crate::journal_laws::lemma_remove(t.origs, t.content, know, i - a.len() - b.len());
        }
    }
}

proof fn lemma_not_listed(
    s: SlateView,
    ops: Seq<Operation<Seq<char>>>,
    know: Map<Seq<char>, Observation>,
    p: Seq<char>,
)
    requires
        s.content.dom().contains(p),
        !s.origs.contains(p),
    ensures
        played(s, ops, know).content.dom().contains(p),
        !played(s, ops, know).origs.contains(p),
    decreases ops.len(),
{
    if ops.len() > 0 {
        lemma_not_listed(s, ops.drop_last(), know, p);
    }
}

proof fn lemma_removes_listed(
    origs: Seq<Seq<char>>,
    content: Map<Seq<char>, Content<Seq<char>>>,
    know: Map<Seq<char>, Observation>,
    i: int,
)
    requires
        0 <= i < remove_plans(origs, content, know).len(),
    ensures
        ({
            let plan = remove_plans(origs, content, know)[i];
            plan is Remove && origs.contains(plan->Remove_path)
        }),
    decreases origs.len(),
{
    let front = origs.drop_last();
    let before = remove_plans(front, content, know);
    if i < before.len() {
        lemma_removes_listed(front, content, know, i);
        let p = before[i]->Remove_path;
        let k = choose|k: int| 0 <= k < front.len() && front[k] == p;
        assert(origs[k] == p);
    } else {
        assert(origs[origs.len() - 1] == origs.last());
    }
}

proof fn lemma_saves_only_save(
    paths: Seq<Seq<char>>,
    content: Map<Seq<char>, Content<Seq<char>>>,
    know: Map<Seq<char>, Observation>,
    i: int,
)
    requires
        0 <= i < save_plans(paths, content, know).len(),
    ensures
        save_plans(paths, content, know)[i] is Save,
    decreases paths.len(),
{
    let front = paths.drop_last();
    if i < save_plans(front, content, know).len() {
        lemma_saves_only_save(front, content, know, i);
    }
}

/// A file of the server that a waiting move overwrites, and that no waiting plan is
/// about, is the business of that move: it is never removed, whatever happens to the
/// file that was moved there.
pub proof fn law_what_a_waiting_move_overwrites_is_not_removed(
    plans: Seq<Plan<Seq<char>>>,
    ops: Seq<Operation<Seq<char>>>,
    know: Map<Seq<char>, Observation>,
    i: int,
    k: int,
)
    requires
        0 <= i < plans.len(),
        plans[i] is Move,
        forall|j: int|
            0 <= j < plans.len() ==> match #[trigger] plans[j] {
                Plan::Save { path, replaces, reuses } => path != plans[i]->to,
                Plan::Move { from, to, moves } => from != plans[i]->to,
                Plan::Remove { path, removes } => path != plans[i]->to,
            },
        0 <= k < coalesced(seeded(plans), ops, know).len(),
    ensures
        coalesced(seeded(plans), ops, know)[k] matches Plan::Remove { path, removes } ==> path
            != plans[i]->to,
{
    let p = plans[i]->to;
    lemma_seeded_target(plans, p, i);
    lemma_not_listed(seeded(plans), ops, know, p);
    let t = played(seeded(plans), ops, know);
    let moved = rename_plans(renames_of(t.origs, t.content), know);
    let saved = save_plans(in_order(t.content.dom()), t.content, know);
    let removed = remove_plans(t.origs, t.content, know);
    if k < moved.len() {
    } else if k < moved.len() + saved.len() {
        lemma_saves_only_save(in_order(t.content.dom()), t.content, know, k - moved.len());
    } else {
        lemma_removes_listed(t.origs, t.content, know, k - moved.len() - saved.len());
    }
}

proof fn lemma_seeded_target(plans: Seq<Plan<Seq<char>>>, p: Seq<char>, i: int)
    requires
        forall|j: int|
            0 <= j < plans.len() ==> match #[trigger] plans[j] {
                Plan::Save { path, replaces, reuses } => path != p,
                Plan::Move { from, to, moves } => from != p,
                Plan::Remove { path, removes } => path != p,
            },
    ensures
        !seeded(plans).origs.contains(p),
        0 <= i < plans.len() && (plans[i] matches Plan::Move { from, to, moves } && to == p)
            ==> seeded(plans).content.dom().contains(p),
    decreases plans.len(),
{
    if plans.len() > 0 {
        let front = plans.drop_last();
        assert forall|j: int| 0 <= j < front.len() implies match #[trigger] front[j] {
            Plan::Save { path, replaces, reuses } => path != p,
            Plan::Move { from, to, moves } => from != p,
            Plan::Remove { path, removes } => path != p,
        } by {
            assert(plans[j] == front[j]);
        }
        lemma_seeded_target(front, p, i);
        assert(plans[plans.len() - 1] == plans.last());
        if i < front.len() {
            assert(0 <= i ==> front[i] == plans[i]);
        }
    }
}

} // verus!
