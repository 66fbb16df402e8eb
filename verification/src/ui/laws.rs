//! What holds of every rearrangement and every preview.

use crate::order::{
    distinct, in_order, lemma_distinct, lemma_same_members, lemma_sorted, without_all,
};
use crate::stack::submit::{PlanView, RefUpdateView};
use crate::text::Text;
use crate::ui::history::{
    back, is_parent, is_path, lemma_reaches_self, lemma_reaches_transitive, lemma_segment_found,
    only_parent, reached, reaches, segment, walk,
};
use crate::ui::model::{CommitView, GraphView, MoveView};
use crate::ui::moves::{carried, layer_prefix, layers, other_than, planned, tip_of, tips};
use crate::ui::preview::{
    abandoned, checked_out, moved_heads, moved_remotes, previewed, published, reachable_part,
    rewritten, roots, targeted, tracking, updated, virtual_id, virtual_order, with_abandoned,
    with_branch, with_rewritten, without_branch, without_refs,
};
use vstd::prelude::*;

verus! {

/// No commit is among the ancestors of its parents.
pub open spec fn acyclic(commits: Map<Text, CommitView>) -> bool {
    forall|p: Text, q: Text| #[trigger] is_parent(commits, p, q) ==> !reaches(commits, q, p)
}

/// What a walk passes: every ancestor of where it starts is on its way, or is an
/// ancestor of where it ends.
pub proof fn lemma_walk_passes(
    commits: Map<Text, CommitView>,
    base: Text,
    tip: Text,
    at: Text,
    fuel: nat,
    x: Text,
)
    requires
        walk(commits, base, tip, at, fuel) is Ok,
        reaches(commits, at, x),
    ensures
        walk(commits, base, tip, at, fuel)->Ok_0.contains(x) || reaches(commits, base, x),
    decreases fuel,
{
    if at != base {
        let parent = commits[at].parents[0];
        let older = walk(commits, base, tip, parent, (fuel - 1) as nat)->Ok_0;
        let all = walk(commits, base, tip, at, fuel)->Ok_0;
        assert(all == older.push(at));
        let path = choose|path: Seq<Text>|
            #[trigger] is_path(commits, path) && path[0] == at && path.last() == x;
        if path.len() == 1 {
            assert(all[older.len() as int] == at);
            assert(all.contains(x));
        } else {
            let rest = path.drop_first();
            assert(is_parent(commits, path[0], path[0int + 1]));
            assert(path[1] == parent);
            assert forall|i: int| 0 <= i < rest.len() - 1 implies is_parent(
                commits,
                #[trigger] rest[i],
                rest[i + 1],
            ) by {
                assert(is_parent(commits, path[i + 1], path[i + 1 + 1]));
            }
            assert(is_path(commits, rest));
            assert(reaches(commits, parent, x));
            lemma_walk_passes(commits, base, tip, parent, (fuel - 1) as nat, x);
            if older.contains(x) {
                let i = older.index_of(x);
                assert(all[i] == x);
            }
        }
    }
}

/// A walk that ends has gone back step by step.
proof fn lemma_walk_back(
    commits: Map<Text, CommitView>,
    base: Text,
    tip: Text,
    at: Text,
    fuel: nat,
    from: Text,
    done: nat,
)
    requires
        walk(commits, base, tip, at, fuel) is Ok,
        back(commits, from, done) == Some(at),
    ensures
        exists|n: nat| #[trigger] back(commits, from, n) == Some(base),
    decreases fuel,
{
    if at != base {
        let parent = commits[at].parents[0];
        assert(back(commits, from, done + 1) == Some(parent));
        lemma_walk_back(commits, base, tip, parent, (fuel - 1) as nat, from, done + 1);
    }
}

/// A segment holds each commit once.
pub proof fn lemma_segment_distinct(commits: Map<Text, CommitView>, base: Text, tip: Text)
    requires
        commits.dom().finite(),
        segment(commits, base, tip) is Ok,
    ensures
        segment(commits, base, tip)->Ok_0.no_duplicates(),
{
    assert(back(commits, tip, 0) == Some(tip));
    lemma_walk_back(commits, base, tip, tip, commits.len(), tip, 0);
    let n = choose|n: nat| #[trigger] back(commits, tip, n) == Some(base);
    lemma_segment_found(commits, base, tip, n);
}

/// A walk to the parent of `x` that passes `x` starts with it.
proof fn lemma_walk_starts(
    commits: Map<Text, CommitView>,
    base: Text,
    tip: Text,
    at: Text,
    fuel: nat,
    x: Text,
)
    requires
        walk(commits, base, tip, at, fuel) is Ok,
        walk(commits, base, tip, at, fuel)->Ok_0.contains(x),
        only_parent(commits, x) == Ok::<Text, Text>(base),
    ensures
        walk(commits, base, tip, at, fuel)->Ok_0[0] == x,
    decreases fuel,
{
    if at != base {
        let parent = commits[at].parents[0];
        let older = walk(commits, base, tip, parent, (fuel - 1) as nat)->Ok_0;
        let all = walk(commits, base, tip, at, fuel)->Ok_0;
        assert(all == older.push(at));
        if at == x {
            assert(parent == base);
        } else {
            let i = all.index_of(x);
            assert(older[i] == x);
            lemma_walk_starts(commits, base, tip, parent, (fuel - 1) as nat, x);
        }
    }
}

/// Filtering keeps a list free of repeats.
pub proof fn lemma_filter_distinct(v: Seq<Text>, p: spec_fn(Text) -> bool)
    requires
        v.no_duplicates(),
    ensures
        v.filter(p).no_duplicates(),
        forall|x: Text| #[trigger] v.filter(p).contains(x) <==> v.contains(x) && p(x),
    decreases v.len(),
{
    reveal(Seq::filter);
    if v.len() > 0 {
        let init = v.drop_last();
        lemma_filter_distinct(init, p);
        assert(v =~= init.push(v.last()));
        assert(!init.contains(v.last()));
        assert forall|x: Text| #[trigger] v.filter(p).contains(x) == (v.contains(x) && p(x)) by {
            vstd::seq_lib::lemma_seq_contains_after_push(init, v.last(), x);
            vstd::seq_lib::lemma_seq_contains_after_push(init.filter(p), v.last(), x);
        }
        assert(!init.filter(p).contains(v.last()));
    }
}

/// The end of the checked-out stack leads back to everything in it.
pub proof fn lemma_tip_reaches(g: GraphView, selected: Text)
    requires
        tip_of(g, selected) is Ok,
    ensures
        reaches(g.commits, tip_of(g, selected)->Ok_0.1, selected),
{
    let tip = tip_of(g, selected)->Ok_0;
    let ends = tips(g.commits, g.head);
    lemma_reaches_self(g.commits, g.head);
    if tip.1 != g.head {
        assert(ends.contains(ends.choose()));
        assert(layers(g.commits, g.head).contains(tip.1));
    }
    lemma_reaches_transitive(g.commits, tip.1, g.head, selected);
}

/// Moving a single commit replays exactly the commits of the segment between the
/// base and the tip, each once and in another order, with the moved commit right
/// behind its destination.
pub proof fn law_commit_move(g: GraphView, selected: Text, destination: Text, plan: MoveView)
    requires
        g.commits.dom().finite(),
        acyclic(g.commits),
        planned(g, selected, destination, false) == Ok::<MoveView, Text>(plan),
    ensures
        segment(g.commits, plan.base, plan.tip_commit) is Ok,
        plan.commits.to_multiset() == segment(
            g.commits,
            plan.base,
            plan.tip_commit,
        )->Ok_0.to_multiset(),
        plan.commits.no_duplicates(),
        plan.commits != segment(g.commits, plan.base, plan.tip_commit)->Ok_0,
        plan.base == destination && plan.commits[0] == selected || exists|i: int|
            #![trigger plan.commits[i]]
            0 <= i < plan.commits.len() - 1 && plan.commits[i] == destination && plan.commits[i + 1]
                == selected,
{
    let tip = tip_of(g, selected)->Ok_0;
    let parent = only_parent(g.commits, selected)->Ok_0;
    let later = reaches(g.commits, destination, selected);
    let all = segment(g.commits, plan.base, plan.tip_commit)->Ok_0;
    let p = other_than(selected);
    let rest = all.filter(p);
    assert(is_parent(g.commits, selected, parent)) by {
        assert(g.commits[selected].parents[0] == parent);
    }
    lemma_tip_reaches(g, selected);
    lemma_walk_passes(g.commits, plan.base, tip.1, tip.1, g.commits.len(), selected);
    assert(all.contains(selected));
    lemma_segment_distinct(g.commits, plan.base, plan.tip_commit);
    lemma_filter_distinct(all, p);
    rest.index_of_first_ensures(destination);
    let at = if later {
        rest.index_of_first(destination)->0 + 1
    } else {
        0
    };
    let ids = plan.commits;
    assert(ids == rest.insert(at, selected));
    assert(ids[at] == selected);
    assert(!rest.contains(selected));
    assert forall|i: int, j: int| 0 <= i < j < ids.len() implies ids[i] != ids[j] by {
        let a = if i < at {
            i
        } else {
            i - 1
        };
        let b = if j < at {
            j
        } else {
            j - 1
        };
        if i == at {
            assert(ids[j] == rest[b]);
            assert(rest.contains(rest[b]));
        } else if j == at {
            assert(ids[i] == rest[a]);
            assert(rest.contains(rest[a]));
        } else {
            assert(ids[i] == rest[a] && ids[j] == rest[b]);
        }
    }
    assert forall|x: Text| #[trigger] ids.contains(x) == all.contains(x) by {
        if ids.contains(x) {
            let i = ids.index_of(x);
            if i != at {
                let a = if i < at {
                    i
                } else {
                    i - 1
                };
                assert(rest[a] == x);
                assert(rest.contains(x));
            }
        }
        if all.contains(x) && x != selected {
            assert(rest.contains(x));
            let a = rest.index_of(x);
            let i = if a < at {
                a
            } else {
                a + 1
            };
            assert(ids[i] == x);
        }
    }
    lemma_same_members(ids, all);
    if later {
        assert(ids[at - 1] == destination);
    }
}

/// Moving a substack replays first the commits that it carries, from the moved
/// commit on, then those above the destination, each once.
pub proof fn law_substack_move(g: GraphView, selected: Text, destination: Text, plan: MoveView)
    requires
        g.commits.dom().finite(),
        acyclic(g.commits),
        planned(g, selected, destination, true) == Ok::<MoveView, Text>(plan),
    ensures
        carried(g, selected) == Ok::<Seq<Text>, Text>(
            plan.commits.take(plan.carried_count as int),
        ),
        plan.carried_count > 0,
        plan.commits[0] == selected,
        plan.commits.no_duplicates(),
        !plan.commits.contains(destination),
        plan.tip_commit == plan.commits.last(),
        segment(
            g.commits,
            destination,
            if plan.commits.len() == plan.carried_count {
                destination
            } else {
                plan.tip_commit
            },
        ) == Ok::<Seq<Text>, Text>(plan.commits.skip(plan.carried_count as int)),
{
    let tip = tip_of(g, selected)->Ok_0;
    let parent = only_parent(g.commits, selected)->Ok_0;
    let low = carried(g, selected)->Ok_0;
    let end = crate::ui::moves::destination_tip(g.commits, destination)->Ok_0;
    let high = segment(g.commits, destination, end.1)->Ok_0;
    assert(is_parent(g.commits, selected, parent)) by {
        assert(g.commits[selected].parents[0] == parent);
    }
    lemma_tip_reaches(g, selected);
    lemma_walk_passes(g.commits, parent, tip.1, tip.1, g.commits.len(), selected);
    assert(low.contains(selected));
    lemma_walk_starts(g.commits, parent, tip.1, tip.1, g.commits.len(), selected);
    lemma_segment_distinct(g.commits, parent, tip.1);
    lemma_segment_distinct(g.commits, destination, end.1);
    let ids = plan.commits;
    assert(ids == low + high);
    assert(ids.take(low.len() as int) =~= low);
    assert(ids.skip(low.len() as int) =~= high);
    assert forall|i: int, j: int| 0 <= i < j < ids.len() implies ids[i] != ids[j] by {
        if i < low.len() && j >= low.len() {
            assert(low.contains(low[i]));
            assert(high[j - low.len()] == ids[j]);
            assert(high.contains(ids[j]));
        } else if i >= low.len() {
            assert(ids[i] == high[i - low.len()] && ids[j] == high[j - low.len()]);
        }
    }
    lemma_walk_avoids(g.commits, destination, end.1, end.1, g.commits.len());
    lemma_walk_members(g.commits, parent, tip.1, tip.1, g.commits.len(), selected);
    if ids.contains(destination) {
        let i = ids.index_of(destination);
        if i < low.len() {
            assert(low[i] == destination);
            assert(reaches(g.commits, destination, selected));
        } else {
            assert(high[i - low.len()] == destination);
            assert(high.contains(destination));
        }
    }
    if high.len() > 0 {
        lemma_walk_last(g.commits, destination, end.1, end.1, g.commits.len());
        assert(ids.last() == high.last());
    } else {
        lemma_walk_empty(g.commits, destination, end.1, end.1, g.commits.len());
    }
}

/// A walk does not hold where it ends.
proof fn lemma_walk_avoids(
    commits: Map<Text, CommitView>,
    base: Text,
    tip: Text,
    at: Text,
    fuel: nat,
)
    requires
        walk(commits, base, tip, at, fuel) is Ok,
    ensures
        !walk(commits, base, tip, at, fuel)->Ok_0.contains(base),
    decreases fuel,
{
    if at != base {
        let parent = commits[at].parents[0];
        lemma_walk_avoids(commits, base, tip, parent, (fuel - 1) as nat);
        let older = walk(commits, base, tip, parent, (fuel - 1) as nat)->Ok_0;
        vstd::seq_lib::lemma_seq_contains_after_push(older, at, base);
    }
}

/// A walk that holds something ends with where it started.
pub proof fn lemma_walk_last(
    commits: Map<Text, CommitView>,
    base: Text,
    tip: Text,
    at: Text,
    fuel: nat,
)
    requires
        walk(commits, base, tip, at, fuel) is Ok,
        walk(commits, base, tip, at, fuel)->Ok_0.len() > 0,
    ensures
        walk(commits, base, tip, at, fuel)->Ok_0.last() == at,
{
}

/// A walk that holds nothing starts where it ends.
proof fn lemma_walk_empty(
    commits: Map<Text, CommitView>,
    base: Text,
    tip: Text,
    at: Text,
    fuel: nat,
)
    requires
        walk(commits, base, tip, at, fuel) is Ok,
        walk(commits, base, tip, at, fuel)->Ok_0.len() == 0,
    ensures
        at == base,
{
}

/// Everything on a walk that starts with `x` leads back to `x`.
proof fn lemma_walk_members(
    commits: Map<Text, CommitView>,
    base: Text,
    tip: Text,
    at: Text,
    fuel: nat,
    x: Text,
)
    requires
        walk(commits, base, tip, at, fuel) is Ok,
        walk(commits, base, tip, at, fuel)->Ok_0.len() > 0,
        walk(commits, base, tip, at, fuel)->Ok_0[0] == x,
    ensures
        forall|i: int|
            0 <= i < walk(commits, base, tip, at, fuel)->Ok_0.len() ==> reaches(
                commits,
                #[trigger] walk(commits, base, tip, at, fuel)->Ok_0[i],
                x,
            ),
        reaches(commits, at, x),
    decreases fuel,
{
    let parent = commits[at].parents[0];
    let older = walk(commits, base, tip, parent, (fuel - 1) as nat)->Ok_0;
    let all = walk(commits, base, tip, at, fuel)->Ok_0;
    assert(all == older.push(at));
    if older.len() > 0 {
        assert(all[0] == older[0]);
        lemma_walk_members(commits, base, tip, parent, (fuel - 1) as nat, x);
        assert(is_parent(commits, at, parent));
        crate::ui::history::lemma_reaches_step(commits, at, parent, x);
        assert forall|i: int| 0 <= i < all.len() implies reaches(commits, #[trigger] all[i], x) by {
            if i < older.len() {
                assert(all[i] == older[i]);
            }
        }
    } else {
        lemma_reaches_self(commits, at);
    }
}

/// None of the ids of rewritten commits is taken.
pub open spec fn unused_ids(g: GraphView, plan: MoveView) -> bool {
    forall|id: Text| #[trigger]
        plan.commits.contains(id) ==> !g.commits.contains_key(virtual_id(id))
}

/// Different commits have different rewritten ids.
proof fn lemma_virtual_ids(a: Text, b: Text)
    ensures
        virtual_id(a) == virtual_id(b) ==> a == b,
{
    let n = "preview:"@.len() as int;
    assert(virtual_id(a).skip(n) =~= a);
    assert(virtual_id(b).skip(n) =~= b);
}

/// Rewriting adds commits and changes none.
proof fn lemma_rewritten_others(
    commits: Map<Text, CommitView>,
    ids: Seq<Text>,
    base: Text,
    k: Text,
)
    requires
        forall|id: Text| #[trigger] ids.contains(id) ==> virtual_id(id) != k,
    ensures
        with_rewritten(commits, ids, base).contains_key(k) == commits.contains_key(k),
        commits.contains_key(k) ==> with_rewritten(commits, ids, base)[k] == commits[k],
    decreases ids.len(),
{
    if ids.len() > 0 {
        let init = ids.drop_last();
        assert forall|id: Text| #[trigger] init.contains(id) implies virtual_id(id) != k by {
            let i = init.index_of(id);
            assert(ids[i] == id);
            assert(ids.contains(id));
        }
        assert(ids.contains(ids.last()));
        lemma_rewritten_others(commits, init, base, k);
    }
}

/// Each rewritten commit is on the one before it.
proof fn lemma_rewritten_chain(commits: Map<Text, CommitView>, ids: Seq<Text>, base: Text, i: int)
    requires
        ids.no_duplicates(),
        0 <= i < ids.len(),
    ensures
        with_rewritten(commits, ids, base).contains_key(virtual_id(ids[i])),
        with_rewritten(commits, ids, base)[virtual_id(ids[i])] == rewritten(
            commits[ids[i]],
            ids[i],
            if i == 0 {
                base
            } else {
                virtual_id(ids[i - 1])
            },
        ),
    decreases ids.len(),
{
    if i < ids.len() - 1 {
        let init = ids.drop_last();
        assert(init.no_duplicates());
        lemma_rewritten_chain(commits, init, base, i);
        lemma_virtual_ids(ids[i], ids.last());
        assert(init[i] == ids[i]);
    }
}

/// A preview leaves every real commit where it is, with its parents, its remote
/// refs and its tags; only those that are replayed lose their local refs.
pub proof fn law_preview_keeps(g: GraphView, plan: MoveView, h: GraphView, k: Text)
    requires
        previewed(g, plan) == Ok::<GraphView, Text>(h),
        unused_ids(g, plan),
        g.commits.contains_key(k),
    ensures
        h.commits.contains_key(k),
        h.commits[k] == if plan.commits.contains(k) {
            abandoned(g.commits[k])
        } else {
            g.commits[k]
        },
        h.commits[k].id == g.commits[k].id,
        h.commits[k].parents == g.commits[k].parents,
        h.commits[k].subject == g.commits[k].subject,
        h.commits[k].remote_refs == g.commits[k].remote_refs,
        h.commits[k].tags == g.commits[k].tags,
        h.commits[k].preview == g.commits[k].preview,
        h.commits[k].conflict == g.commits[k].conflict,
        plan.commits.contains(k) ==> h.commits[k].local_refs.len() == 0 && !h.commits[k].is_head,
        !plan.commits.contains(k) ==> h.commits[k].local_refs == g.commits[k].local_refs
            && h.commits[k].is_head == g.commits[k].is_head,
{
    let base = if plan.include_descendants {
        plan.destination
    } else {
        plan.base
    };
    assert forall|id: Text| #[trigger] plan.commits.contains(id) implies virtual_id(id) != k by {}
    lemma_rewritten_others(g.commits, plan.commits, base, k);
    assert(plan.commits.contains(plan.commits.last()));
}

/// In a preview the local refs and the head follow the rewritten commits: these
/// form a chain in the order of the plan, each has the local refs of the commit
/// that it stands for, and the chain's end is checked out. An ordinary branch
/// moves from where it was to the chain's end.
pub proof fn law_preview_follows(g: GraphView, plan: MoveView, h: GraphView, i: int)
    requires
        previewed(g, plan) == Ok::<GraphView, Text>(h),
        unused_ids(g, plan),
        plan.commits.no_duplicates(),
        0 <= i < plan.commits.len(),
    ensures
        h.head == virtual_id(plan.commits.last()),
        h.head == "preview:"@ + plan.commits.last(),
        h.branch == Some(plan.checkout_branch),
        h.commits.contains_key(virtual_id(plan.commits[i])),
        virtual_id(plan.commits[i]) == "preview:"@ + plan.commits[i],
        h.commits[virtual_id(plan.commits[i])].conflict == g.commits[plan.commits[i]].conflict,
        ({
            let id = plan.commits[i];
            let copy = h.commits[virtual_id(id)];
            &&& copy.id == virtual_id(id)
            &&& copy.subject == g.commits[id].subject
            &&& copy.parents == seq![
                if i > 0 {
                    virtual_id(plan.commits[i - 1])
                } else if plan.include_descendants {
                    plan.destination
                } else {
                    plan.base
                },
            ]
            &&& copy.preview
            &&& copy.remote_refs.len() == 0
            &&& copy.tags.len() == 0
            &&& copy.is_head == (i == plan.commits.len() - 1)
            &&& plan.detach_for_rewrite ==> copy.local_refs == g.commits[id].local_refs
            &&& !plan.detach_for_rewrite ==> forall|name: Text| #[trigger]
                copy.local_refs.contains(name) <==> {
                    ||| name == plan.tip && i == plan.commits.len() - 1
                    ||| g.commits[id].local_refs.contains(name) && !(name == plan.tip && id
                        == plan.tip_commit)
                }
        }),
{
    let base = if plan.include_descendants {
        plan.destination
    } else {
        plan.base
    };
    let ids = plan.commits;
    let id = ids[i];
    let v = virtual_id(id);
    let added = with_rewritten(g.commits, ids, base);
    let commits = with_abandoned(added, ids);
    lemma_rewritten_chain(g.commits, ids, base, i);
    assert(ids.contains(id));
    if ids.contains(v) {
        let j = ids.index_of(v);
        assert(g.commits.contains_key(ids[j]));
    }
    let source = added[v];
    assert(commits[v] == source);
    assert(source.local_refs == g.commits[id].local_refs);
    lemma_virtual_ids(id, plan.tip_commit);
    lemma_virtual_ids(id, ids.last());
    let name = plan.tip;
    if !plan.detach_for_rewrite {
        let left = if id == plan.tip_commit {
            without_branch(source, name)
        } else {
            source
        };
        assert forall|x: Text| #[trigger] left.local_refs.contains(x) == (source.local_refs.contains(
            x,
        ) && !(x == name && id == plan.tip_commit)) by {
            if id == plan.tip_commit {
                lemma_filter_members(source.local_refs, name, x);
            }
        }
        if i == ids.len() - 1 {
            lemma_sorted::<String>(left.local_refs.push(name));
            assert forall|x: Text| #[trigger] with_branch(left, name).local_refs.contains(x) == (
            left.local_refs.contains(x) || x == name) by {
                vstd::seq_lib::lemma_seq_contains_after_push(left.local_refs, name, x);
            }
            assert(h.commits[v] == checked_out(with_branch(left, name)));
        } else {
            assert(h.commits[v] == left);
        }
    }
}

/// Leaving a name out of a list leaves the others in.
proof fn lemma_filter_members(v: Seq<Text>, name: Text, x: Text)
    ensures
        v.filter(other_than(name)).contains(x) == (v.contains(x) && x != name),
    decreases v.len(),
{
    reveal(Seq::filter);
    let p = other_than(name);
    if v.len() > 0 {
        let init = v.drop_last();
        lemma_filter_members(init, name, x);
        assert(v =~= init.push(v.last()));
        vstd::seq_lib::lemma_seq_contains_after_push(init, v.last(), x);
        vstd::seq_lib::lemma_seq_contains_after_push(init.filter(p), v.last(), x);
    }
}

/// In a preview every rewritten commit is listed once and before every commit that
/// was listed already; nothing else is listed. Where none of the new ids was listed, the
/// rest of the list is as it was.
pub proof fn law_preview_order(g: GraphView, plan: MoveView, h: GraphView)
    requires
        previewed(g, plan) == Ok::<GraphView, Text>(h),
        plan.commits.no_duplicates(),
    ensures
        h.order.no_duplicates(),
        virtual_order(plan.commits).is_prefix_of(h.order),
        h.order.len() >= plan.commits.len(),
        forall|i: int|
            0 <= i < plan.commits.len() ==> (#[trigger] h.order[i]) == "preview:"@
                + plan.commits[plan.commits.len() - 1 - i],
        forall|id: Text| #[trigger]
            h.order.contains(id) <==> virtual_order(plan.commits).contains(id) || g.order.contains(
                id,
            ),
        g.order.no_duplicates() && (forall|id: Text| #[trigger]
            plan.commits.contains(id) ==> !g.order.contains(virtual_id(id))) ==> h.order
            == virtual_order(plan.commits) + g.order,
{
    let first = virtual_order(plan.commits);
    lemma_distinct(first + g.order);
    assert forall|id: Text| #[trigger] h.order.contains(id) == (first.contains(id)
        || g.order.contains(id)) by {
        vstd::seq_lib::lemma_seq_concat_contains_all_elements(first, g.order, id);
    }
    assert forall|i: int, j: int| 0 <= i < j < first.len() implies first[i] != first[j] by {
        let n = plan.commits.len();
        lemma_virtual_ids(plan.commits[n - 1 - i], plan.commits[n - 1 - j]);
    }
    lemma_distinct_prefix(first, g.order);
    assert(first.is_prefix_of(h.order));
    assert forall|i: int| 0 <= i < plan.commits.len() implies (#[trigger] h.order[i])
        == "preview:"@ + plan.commits[plan.commits.len() - 1 - i] by {
        assert(h.order.subrange(0, first.len() as int)[i] == first[i]);
    }
    if g.order.no_duplicates() && (forall|id: Text| #[trigger]
        plan.commits.contains(id) ==> !g.order.contains(virtual_id(id))) {
        let whole = first + g.order;
        assert forall|i: int, j: int| 0 <= i < j < whole.len() implies whole[i] != whole[j] by {
            if i < first.len() && j >= first.len() {
                let id = plan.commits[plan.commits.len() - 1 - i];
                assert(plan.commits.contains(id));
                assert(whole[j] == g.order[j - first.len()]);
                assert(g.order.contains(whole[j]));
            } else if i >= first.len() {
                assert(whole[i] == g.order[i - first.len()] && whole[j] == g.order[j - first.len()]);
            }
        }
        lemma_distinct_same(whole);
    }
}

/// A list without repeats stays at the front when repeats behind it are dropped.
proof fn lemma_distinct_prefix(first: Seq<Text>, rest: Seq<Text>)
    requires
        first.no_duplicates(),
    ensures
        first.is_prefix_of(distinct(first + rest)),
    decreases rest.len(),
{
    if rest.len() == 0 {
        assert(first + rest =~= first);
        lemma_distinct_same(first);
    } else {
        lemma_distinct_prefix(first, rest.drop_last());
        let whole = first + rest;
        assert(whole.drop_last() =~= first + rest.drop_last());
        let done = distinct(whole.drop_last());
        assert(done.push(whole.last()).subrange(0, first.len() as int) =~= done.subrange(
            0,
            first.len() as int,
        ));
    }
}

/// A list without repeats has none to drop.
proof fn lemma_distinct_same(v: Seq<Text>)
    requires
        v.no_duplicates(),
    ensures
        distinct(v) == v,
    decreases v.len(),
{
    if v.len() > 0 {
        let init = v.drop_last();
        assert(init.no_duplicates());
        lemma_distinct_same(init);
        assert(!init.contains(v.last()));
        assert(v =~= init.push(v.last()));
    } else {
        assert(distinct(v) =~= v);
    }
}

/// After the first `n` updates each of them has its refs at its commit and
/// nowhere else, and the refs of the others are nowhere.
spec fn settled(
    commits: Map<Text, CommitView>,
    updates: Seq<RefUpdateView>,
    remote: Text,
    n: int,
) -> bool {
    &&& forall|k: Text| #[trigger] commits.contains_key(k) ==> commits[k].id == k
    &&& forall|i: int, k: Text|
        #![trigger updates[i], commits[k]]
        0 <= i < updates.len() && commits.contains_key(k) ==> commits[k].remote_refs.contains(
            tracking(remote, updates[i].branch),
        ) == (i < n && k == updates[i].rev)
    &&& forall|i: int, k: Text|
        #![trigger updates[i], commits[k]]
        0 <= i < updates.len() && commits.contains_key(k) && layer_prefix().is_prefix_of(
            updates[i].branch,
        ) ==> commits[k].local_refs.contains(updates[i].branch) == (i < n && k == updates[i].rev)
    &&& forall|i: int|
        0 <= i < n ==> commits.contains_key((#[trigger] updates[i]).rev)
            && commits[updates[i].rev].preview
}

/// Leaving a set of names out of a list leaves none of them in.
proof fn lemma_without_members(v: Seq<Text>, gone: Set<Text>, x: Text)
    ensures
        without_all(v, gone).contains(x) == (v.contains(x) && !gone.contains(x)),
    decreases v.len(),
{
    reveal(Seq::filter);
    let p = |y: Text| !gone.contains(y);
    if v.len() > 0 {
        let init = v.drop_last();
        lemma_without_members(init, gone, x);
        assert(v =~= init.push(v.last()));
        vstd::seq_lib::lemma_seq_contains_after_push(init, v.last(), x);
        vstd::seq_lib::lemma_seq_contains_after_push(init.filter(p), v.last(), x);
    }
}

/// Different branches of a remote have different names.
proof fn lemma_tracking(remote: Text, a: Text, b: Text)
    ensures
        tracking(remote, a) == tracking(remote, b) ==> a == b,
{
    let n = (remote + "/"@).len() as int;
    assert(tracking(remote, a).skip(n) =~= a);
    assert(tracking(remote, b).skip(n) =~= b);
}

/// The names of a commit that an update points at.
proof fn lemma_targeted(commit: CommitView, update: RefUpdateView, remote: Text, x: Text)
    ensures
        targeted(commit, update, remote).remote_refs.contains(x) == (commit.remote_refs.contains(x)
            || x == tracking(remote, update.branch)),
        targeted(commit, update, remote).local_refs.contains(x) == (commit.local_refs.contains(x)
            || x == update.branch && layer_prefix().is_prefix_of(update.branch)),
{
    let there = crate::ui::preview::with_name(
        commit.remote_refs,
        tracking(remote, update.branch),
    );
    let here = crate::ui::preview::with_name(commit.local_refs, update.branch);
    lemma_sorted::<String>(there);
    lemma_sorted::<String>(here);
    lemma_sorted::<String>(commit.local_refs);
    vstd::seq_lib::lemma_seq_contains_after_push(
        commit.remote_refs,
        tracking(remote, update.branch),
        x,
    );
    vstd::seq_lib::lemma_seq_contains_after_push(commit.local_refs, update.branch, x);
    assert(in_order(there).contains(x) == there.contains(x));
    assert(in_order(here).contains(x) == here.contains(x));
    assert(in_order(commit.local_refs).contains(x) == commit.local_refs.contains(x));
}

proof fn lemma_settled(
    commits: Map<Text, CommitView>,
    updates: Seq<RefUpdateView>,
    remote: Text,
    n: int,
)
    requires
        0 <= n <= updates.len(),
        settled(commits, updates, remote, 0),
        forall|i: int, j: int|
            0 <= i < j < updates.len() ==> (#[trigger] updates[i]).branch != (
            #[trigger] updates[j]).branch,
        updated(commits, updates.take(n), remote) is Ok,
    ensures
        settled(updated(commits, updates.take(n), remote)->Ok_0, updates, remote, n),
    decreases n,
{
    if n == 0 {
    } else {
        let more = updates.take(n);
        assert(more.drop_last() =~= updates.take(n - 1));
        lemma_settled(commits, updates, remote, n - 1);
        let m = updated(commits, updates.take(n - 1), remote)->Ok_0;
        let update = updates[n - 1];
        assert(more.last() == update);
        let target = targeted(m[update.rev], update, remote);
        let r = updated(commits, more, remote)->Ok_0;
        assert(r == m.insert(update.rev, target));
        assert forall|i: int, k: Text|
            #![trigger updates[i], r[k]]
            0 <= i < updates.len() && r.contains_key(k) implies r[k].remote_refs.contains(
            tracking(remote, updates[i].branch),
        ) == (i < n && k == updates[i].rev) by {
            assert(m.contains_key(k));
            assert(m[k].remote_refs.contains(tracking(remote, updates[i].branch)) == (i < n - 1 && k
                == updates[i].rev));
            lemma_tracking(remote, updates[i].branch, update.branch);
            lemma_targeted(m[update.rev], update, remote, tracking(remote, updates[i].branch));
        }
        assert forall|i: int, k: Text|
            #![trigger updates[i], r[k]]
            0 <= i < updates.len() && r.contains_key(k) && layer_prefix().is_prefix_of(
                updates[i].branch,
            ) implies r[k].local_refs.contains(updates[i].branch) == (i < n && k
            == updates[i].rev) by {
            assert(m.contains_key(k));
            assert(m[k].local_refs.contains(updates[i].branch) == (i < n - 1 && k
                == updates[i].rev));
            lemma_targeted(m[update.rev], update, remote, updates[i].branch);
        }
    }
}

/// A publication's preview has each published branch at its commit and nowhere
/// else, as a remote ref and, for a layer, as a local one; its commits are marked.
pub proof fn law_publish_preview(g: GraphView, plan: PlanView, h: GraphView, i: int)
    requires
        published(g, plan) == Ok::<GraphView, Text>(h),
        forall|k: Text| #[trigger] g.commits.contains_key(k) ==> g.commits[k].id == k,
        forall|a: int, b: int|
            0 <= a < b < plan.updates.len() ==> (#[trigger] plan.updates[a]).branch != (
            #[trigger] plan.updates[b]).branch,
        0 <= i < plan.updates.len(),
    ensures
        h.commits.contains_key(plan.updates[i].rev),
        h.commits[plan.updates[i].rev].preview,
        forall|k: Text| #[trigger]
            h.commits.contains_key(k) ==> h.commits[k].remote_refs.contains(
                tracking(plan.options.remote, plan.updates[i].branch),
            ) == (k == plan.updates[i].rev),
        layer_prefix().is_prefix_of(plan.updates[i].branch) ==> forall|k: Text| #[trigger]
            h.commits.contains_key(k) ==> h.commits[k].local_refs.contains(plan.updates[i].branch)
                == (k == plan.updates[i].rev),
{
    let remote = plan.options.remote;
    let updates = plan.updates;
    let local_moved = moved_heads(updates);
    let remote_moved = moved_remotes(updates, remote);
    let cleared = g.commits.map_values(
        |commit: CommitView| without_refs(commit, local_moved, remote_moved),
    );
    assert forall|j: int, k: Text|
        #![trigger updates[j], cleared[k]]
        0 <= j < updates.len() && cleared.contains_key(k) implies !cleared[k].remote_refs.contains(
        tracking(remote, updates[j].branch),
    ) by {
        lemma_without_members(
            g.commits[k].remote_refs,
            remote_moved,
            tracking(remote, updates[j].branch),
        );
        assert(remote_moved.contains(tracking(remote, updates[j].branch)));
    }
    assert forall|j: int, k: Text|
        #![trigger updates[j], cleared[k]]
        0 <= j < updates.len() && cleared.contains_key(k) && layer_prefix().is_prefix_of(
            updates[j].branch,
        ) implies !cleared[k].local_refs.contains(updates[j].branch) by {
        lemma_without_members(g.commits[k].local_refs, local_moved, updates[j].branch);
        assert(local_moved.contains(updates[j].branch));
    }
    let n = updates.len() as int;
    assert(updates.take(n) =~= updates);
    lemma_settled(cleared, updates, remote, n);
    let commits = updated(cleared, updates, remote)->Ok_0;
    let rev = updates[i].rev;
    assert(commits.contains_key(rev));
    assert(commits[rev].remote_refs.contains(tracking(remote, updates[i].branch)));
    assert(commits[rev].remote_refs.len() > 0);
    let ends = roots(commits, g.head);
    assert(ends.contains(rev));
    lemma_reaches_self(commits, rev);
    assert(reached(commits, ends).contains(rev));
    assert forall|k: Text| #[trigger] h.commits.contains_key(k) implies commits.contains_key(k)
        && h.commits[k] == commits[k] by {}
}

/// What a publication's preview shows is what the head or a ref leads to, and
/// showing it again drops nothing more.
pub proof fn law_reachable_part(g: GraphView)
    requires
        forall|k: Text| #[trigger] g.commits.contains_key(k) ==> g.commits[k].id == k,
    ensures
        reachable_part(reachable_part(g)) == reachable_part(g),
{
    let kept = reached(g.commits, roots(g.commits, g.head));
    let h = reachable_part(g);
    let again = reached(h.commits, roots(h.commits, h.head));
    assert forall|id: Text| kept.contains(id) implies again.contains(id) by {
        let root = choose|root: Text|
            roots(g.commits, g.head).contains(root) && reaches(g.commits, root, id);
        lemma_reaches_self(g.commits, root);
        assert(kept.contains(root));
        if root != g.head {
            let k = choose|k: Text| #[trigger]
                g.commits.contains_key(k) && g.commits[k].id == root
                    && crate::ui::preview::has_refs(g.commits[k]);
            assert(h.commits.contains_key(k));
        }
        assert(roots(h.commits, h.head).contains(root));
        let path = choose|path: Seq<Text>|
            #[trigger] is_path(g.commits, path) && path[0] == root && path.last() == id;
        assert forall|i: int| 0 <= i < path.len() - 1 implies is_parent(
            h.commits,
            #[trigger] path[i],
            path[i + 1],
        ) by {
            assert(is_parent(g.commits, path[i], path[i + 1]));
            let part = path.take(i + 1);
            assert forall|j: int| 0 <= j < part.len() - 1 implies is_parent(
                g.commits,
                #[trigger] part[j],
                part[j + 1],
            ) by {
                assert(is_parent(g.commits, path[j], path[j + 1]));
            }
            assert(is_path(g.commits, part));
            assert(part.last() == path[i]);
            assert(reaches(g.commits, root, path[i]));
            assert(kept.contains(path[i]));
        }
        assert(is_path(h.commits, path));
        assert(reaches(h.commits, root, id));
    }
    assert(crate::ui::preview::restricted(h.commits, again) =~= h.commits);
    reveal(Seq::filter);
    lemma_only_again(g.order, kept, again);
}

/// Keeping what is kept already changes nothing.
proof fn lemma_only_again(v: Seq<Text>, kept: Set<Text>, again: Set<Text>)
    requires
        kept.subset_of(again),
    ensures
        crate::order::only(crate::order::only(v, kept), again) == crate::order::only(v, kept),
    decreases v.len(),
{
    reveal(Seq::filter);
    let once = crate::order::only(v, kept);
    if v.len() > 0 {
        let init = v.drop_last();
        let p = |x: Text| kept.contains(x);
        let q = |x: Text| again.contains(x);
        lemma_only_again(init, kept, again);
        if kept.contains(v.last()) {
            assert(once == crate::order::only(init, kept).push(v.last()));
            assert(once.drop_last() =~= crate::order::only(init, kept));
        } else {
            assert(once == crate::order::only(init, kept));
        }
    } else {
        assert(crate::order::only(once, again) =~= once);
    }
}

/// A walk passes only commits that are known.
pub proof fn lemma_walk_known(
    commits: Map<Text, CommitView>,
    base: Text,
    tip: Text,
    at: Text,
    fuel: nat,
)
    requires
        walk(commits, base, tip, at, fuel) is Ok,
    ensures
        forall|x: Text| #[trigger]
            walk(commits, base, tip, at, fuel)->Ok_0.contains(x) ==> commits.contains_key(x),
    decreases fuel,
{
    if at != base {
        let parent = commits[at].parents[0];
        lemma_walk_known(commits, base, tip, parent, (fuel - 1) as nat);
        let older = walk(commits, base, tip, parent, (fuel - 1) as nat)->Ok_0;
        assert forall|x: Text| #[trigger]
            walk(commits, base, tip, at, fuel)->Ok_0.contains(x) implies commits.contains_key(x) by {
            vstd::seq_lib::lemma_seq_contains_after_push(older, at, x);
        }
    }
}

/// What is checked out is on every walk through the selected commit from the end of the
/// stack.
proof fn lemma_head_is_passed(g: GraphView, selected: Text, base: Text)
    requires
        tip_of(g, selected) is Ok,
        segment(g.commits, base, tip_of(g, selected)->Ok_0.1) is Ok,
        !reaches(g.commits, base, selected),
    ensures
        segment(g.commits, base, tip_of(g, selected)->Ok_0.1)->Ok_0.contains(g.head),
{
    let tip = tip_of(g, selected)->Ok_0;
    let ends = tips(g.commits, g.head);
    lemma_reaches_self(g.commits, g.head);
    if tip.1 != g.head {
        assert(ends.contains(ends.choose()));
        assert(layers(g.commits, g.head).contains(tip.1));
    }
    lemma_walk_passes(g.commits, base, tip.1, tip.1, g.commits.len(), g.head);
    if reaches(g.commits, base, g.head) {
        lemma_reaches_transitive(g.commits, base, g.head, selected);
    }
}

/// A move that is planned can be previewed, and what is checked out is among the commits
/// that it replays.
pub proof fn law_planned_moves_have_previews(
    g: GraphView,
    selected: Text,
    destination: Text,
    include_descendants: bool,
    plan: MoveView,
)
    requires
        g.commits.dom().finite(),
        acyclic(g.commits),
        planned(g, selected, destination, include_descendants) == Ok::<MoveView, Text>(plan),
    ensures
        previewed(g, plan) is Ok,
        plan.commits.contains(g.head),
{
    let tip = tip_of(g, selected)->Ok_0;
    let parent = only_parent(g.commits, selected)->Ok_0;
    let ids = plan.commits;
    assert(is_parent(g.commits, selected, parent)) by {
        assert(g.commits[selected].parents[0] == parent);
    }
    if include_descendants {
        law_substack_move(g, selected, destination, plan);
        let end = crate::ui::moves::destination_tip(g.commits, destination)->Ok_0;
        let low = carried(g, selected)->Ok_0;
        let high = segment(g.commits, destination, end.1)->Ok_0;
        assert(ids == low + high);
        lemma_walk_known(g.commits, parent, tip.1, tip.1, g.commits.len());
        lemma_walk_known(g.commits, destination, end.1, end.1, g.commits.len());
        assert forall|i: int| 0 <= i < ids.len() implies g.commits.contains_key(
            #[trigger] ids[i],
        ) by {
            if i < low.len() {
                assert(low.contains(low[i]));
            } else {
                assert(high.contains(high[i - low.len()]));
            }
        }
        assert(ids[ids.len() - 1] == plan.tip_commit);
        lemma_head_is_passed(g, selected, parent);
        let i = low.index_of(g.head);
        assert(ids[i] == g.head);
    } else {
        law_commit_move(g, selected, destination, plan);
        let all = segment(g.commits, plan.base, plan.tip_commit)->Ok_0;
        lemma_walk_known(g.commits, plan.base, tip.1, tip.1, g.commits.len());
        assert forall|x: Text| #[trigger] ids.contains(x) == all.contains(x) by {
            vstd::seq_lib::to_multiset_contains(ids, x);
            vstd::seq_lib::to_multiset_contains(all, x);
        }
        assert forall|i: int| 0 <= i < ids.len() implies g.commits.contains_key(
            #[trigger] ids[i],
        ) by {
            assert(ids.contains(ids[i]));
        }
        lemma_head_is_passed(g, selected, plan.base);
        lemma_walk_last(g.commits, plan.base, tip.1, tip.1, g.commits.len());
        assert(all.contains(all.last()));
        assert(ids.contains(plan.tip_commit));
    }
}

/// The commits with rewritten ones are the old ones and the new ones.
proof fn lemma_rewritten_keys(commits: Map<Text, CommitView>, ids: Seq<Text>, base: Text, k: Text)
    ensures
        with_rewritten(commits, ids, base).contains_key(k) <==> commits.contains_key(k) || exists|
            i: int,
        |
            0 <= i < ids.len() && virtual_id(#[trigger] ids[i]) == k,
    decreases ids.len(),
{
    if ids.len() > 0 {
        let init = ids.drop_last();
        lemma_rewritten_keys(commits, init, base, k);
        if exists|i: int| 0 <= i < init.len() && virtual_id(#[trigger] init[i]) == k {
            let i = choose|i: int| 0 <= i < init.len() && virtual_id(#[trigger] init[i]) == k;
            assert(virtual_id(ids[i]) == k);
        }
        if exists|i: int| 0 <= i < ids.len() && virtual_id(#[trigger] ids[i]) == k {
            let i = choose|i: int| 0 <= i < ids.len() && virtual_id(#[trigger] ids[i]) == k;
            if i < init.len() {
                assert(virtual_id(init[i]) == k);
            }
        }
        assert(virtual_id(ids[ids.len() - 1]) == virtual_id(ids.last()));
    }
}

/// A preview holds the commits that were there and, for each that is replayed, the one that
/// it becomes.
pub proof fn law_preview_commits(g: GraphView, plan: MoveView, h: GraphView)
    requires
        previewed(g, plan) == Ok::<GraphView, Text>(h),
    ensures
        forall|k: Text| #[trigger]
            h.commits.contains_key(k) <==> g.commits.contains_key(k) || exists|i: int|
                0 <= i < plan.commits.len() && virtual_id(#[trigger] plan.commits[i]) == k,
{
    let base = if plan.include_descendants {
        plan.destination
    } else {
        plan.base
    };
    let ids = plan.commits;
    let t = ids.index_of(plan.tip_commit);
    assert(ids[t] == plan.tip_commit);
    assert(ids[ids.len() - 1] == ids.last());
    assert forall|k: Text| #[trigger]
        h.commits.contains_key(k) == (g.commits.contains_key(k) || exists|i: int|
            0 <= i < ids.len() && virtual_id(#[trigger] ids[i]) == k) by {
        lemma_rewritten_keys(g.commits, ids, base, k);
        assert(virtual_id(ids[t]) == virtual_id(plan.tip_commit));
        assert(virtual_id(ids[ids.len() - 1]) == virtual_id(ids.last()));
    }
}

/// In the preview of a move that is planned the end of the rewritten chain is checked out,
/// and nothing else.
pub proof fn law_only_the_end_is_checked_out(
    g: GraphView,
    selected: Text,
    destination: Text,
    include_descendants: bool,
    plan: MoveView,
    h: GraphView,
)
    requires
        g.commits.dom().finite(),
        acyclic(g.commits),
        forall|k: Text| #[trigger]
            g.commits.contains_key(k) && g.commits[k].is_head ==> k == g.head,
        unused_ids(g, plan),
        planned(g, selected, destination, include_descendants) == Ok::<MoveView, Text>(plan),
        previewed(g, plan) == Ok::<GraphView, Text>(h),
    ensures
        h.head == virtual_id(plan.commits.last()),
        h.commits.contains_key(h.head),
        forall|k: Text| #[trigger]
            h.commits.contains_key(k) ==> h.commits[k].is_head == (k == h.head),
{
    let ids = plan.commits;
    law_planned_moves_have_previews(g, selected, destination, include_descendants, plan);
    if include_descendants {
        law_substack_move(g, selected, destination, plan);
    } else {
        law_commit_move(g, selected, destination, plan);
    }
    law_preview_commits(g, plan, h);
    assert(virtual_id(ids[ids.len() - 1]) == h.head);
    assert forall|k: Text| #[trigger] h.commits.contains_key(k) implies h.commits[k].is_head == (k
        == h.head) by {
        if g.commits.contains_key(k) {
            law_preview_keeps(g, plan, h, k);
            assert(ids.contains(ids.last()));
            assert(k != h.head);
        } else {
            let i = choose|i: int| 0 <= i < ids.len() && virtual_id(#[trigger] ids[i]) == k;
            law_preview_follows(g, plan, h, i);
            if k == h.head {
                lemma_virtual_ids(ids[i], ids.last());
            }
        }
    }
}

} // verus!
