//! What every move does to the commits and the branches of a graph.

use crate::order::{in_order, least, lemma_least, lemma_sorted, Ordered};
use crate::text::{lemma_text_order, not_after, Text};
use crate::ui::history::{
    is_parent, is_path, lemma_reaches_self, lemma_reaches_step, lemma_reaches_transitive, only_parent,
    reaches, segment, walk,
};
use crate::ui::laws::{
    acyclic, law_commit_move, law_substack_move, lemma_walk_passes,
};
use crate::ui::model::{CommitView, GraphView, MoveView};
use crate::ui::moves::{
    carried, destination_tip, layer_refs, layers, moved_refs, other_than, planned, refs_at, tip_of,
    tips,
};
use crate::ui::rebase::rebase_args;
use vstd::prelude::*;

verus! {

/// Commits that stand one on another: each has a single parent, the first one `base` and
/// every other one the commit before it.
pub open spec fn stands_on(commits: Map<Text, CommitView>, base: Text, chain: Seq<Text>) -> bool {
    forall|i: int|
        0 <= i < chain.len() ==> commits.contains_key(#[trigger] chain[i])
            && commits[chain[i]].parents == seq![
            if i == 0 {
                base
            } else {
                chain[i - 1]
            },
        ]
}

proof fn lemma_walk_chain(
    commits: Map<Text, CommitView>,
    base: Text,
    tip: Text,
    at: Text,
    fuel: nat,
)
    requires
        walk(commits, base, tip, at, fuel) is Ok,
    ensures
        stands_on(commits, base, walk(commits, base, tip, at, fuel)->Ok_0),
        !walk(commits, base, tip, at, fuel)->Ok_0.contains(base),
        walk(commits, base, tip, at, fuel)->Ok_0.len() == 0 <==> at == base,
        at != base ==> walk(commits, base, tip, at, fuel)->Ok_0.last() == at,
    decreases fuel,
{
    if at != base {
        let parent = commits[at].parents[0];
        lemma_walk_chain(commits, base, tip, parent, (fuel - 1) as nat);
        let older = walk(commits, base, tip, parent, (fuel - 1) as nat)->Ok_0;
        let all = walk(commits, base, tip, at, fuel)->Ok_0;
        assert(all == older.push(at));
        assert(commits[at].parents =~= seq![parent]);
        assert forall|i: int| 0 <= i < all.len() implies commits.contains_key(#[trigger] all[i])
            && commits[all[i]].parents == seq![
            if i == 0 {
                base
            } else {
                all[i - 1]
            },
        ] by {
            if i < older.len() {
                assert(older[i] == all[i]);
            }
        }
        vstd::seq_lib::lemma_seq_contains_after_push(older, at, base);
    }
}

/// A segment is a chain of commits with single parents that stands on its base and ends
/// with its tip.
pub proof fn law_segments_are_chains(commits: Map<Text, CommitView>, base: Text, tip: Text)
    requires
        segment(commits, base, tip) is Ok,
    ensures
        stands_on(commits, base, segment(commits, base, tip)->Ok_0),
        segment(commits, base, tip)->Ok_0.len() == 0 <==> tip == base,
        tip != base ==> segment(commits, base, tip)->Ok_0.last() == tip,
{
    lemma_walk_chain(commits, base, tip, tip, commits.len());
}

/// In a chain every commit leads back to those before it, and to what the chain stands on.
proof fn lemma_chain_reaches(
    commits: Map<Text, CommitView>,
    base: Text,
    chain: Seq<Text>,
    i: int,
    j: int,
)
    requires
        stands_on(commits, base, chain),
        0 <= i <= j < chain.len(),
    ensures
        reaches(commits, chain[j], chain[i]),
        reaches(commits, chain[j], base),
    decreases j,
{
    let under = if j == 0 {
        base
    } else {
        chain[j - 1]
    };
    assert(commits[chain[j]].parents[0] == under);
    assert(is_parent(commits, chain[j], under));
    lemma_reaches_self(commits, chain[j]);
    lemma_reaches_self(commits, base);
    if j == 0 {
        lemma_reaches_step(commits, chain[j], under, base);
    } else if i == j {
        lemma_chain_reaches(commits, base, chain, j - 1, j - 1);
        lemma_reaches_step(commits, chain[j], under, base);
    } else {
        lemma_chain_reaches(commits, base, chain, i, j - 1);
        lemma_reaches_step(commits, chain[j], under, chain[i]);
        lemma_reaches_step(commits, chain[j], under, base);
    }
}

/// A segment holds exactly what its tip leads back to and its base does not.
pub proof fn law_segments_are_ranges(commits: Map<Text, CommitView>, base: Text, tip: Text, x: Text)
    requires
        acyclic(commits),
        segment(commits, base, tip) is Ok,
    ensures
        segment(commits, base, tip)->Ok_0.contains(x) <==> reaches(commits, tip, x) && !reaches(
            commits,
            base,
            x,
        ),
{
    let all = segment(commits, base, tip)->Ok_0;
    law_segments_are_chains(commits, base, tip);
    if all.contains(x) {
        let i = all.index_of(x);
        let n = all.len() - 1;
        lemma_chain_reaches(commits, base, all, i, n);
        let under = if i == 0 {
            base
        } else {
            all[i - 1]
        };
        assert(commits[all[i]].parents[0] == under);
        assert(is_parent(commits, x, under));
        if i == 0 {
            lemma_reaches_self(commits, base);
        } else {
            lemma_chain_reaches(commits, base, all, i - 1, i - 1);
        }
        if reaches(commits, base, x) {
            lemma_reaches_transitive(commits, under, base, x);
        }
    } else if reaches(commits, tip, x) {
        lemma_walk_passes(commits, base, tip, tip, commits.len(), x);
    }
}

proof fn lemma_refs_at(commits: Map<Text, CommitView>, ids: Seq<Text>, id: Text, name: Text)
    ensures
        refs_at(commits, ids).contains((id, name)) <==> ids.contains(id) && commits.contains_key(id)
            && commits[id].local_refs.contains(name),
    decreases ids.len(),
{
    if ids.len() > 0 {
        let last = ids.last();
        let init = ids.drop_last();
        lemma_refs_at(commits, init, id, name);
        assert(ids =~= init.push(last));
        vstd::seq_lib::lemma_seq_contains_after_push(init, last, id);
        let more: Seq<(Text, Text)> = if commits.contains_key(last) {
            commits[last].local_refs.map_values(|name: Text| (last, name))
        } else {
            Seq::empty()
        };
        vstd::seq_lib::lemma_seq_concat_contains_all_elements(
            refs_at(commits, init),
            more,
            (id, name),
        );
        if more.contains((id, name)) {
            let i = more.index_of((id, name));
            assert(commits[last].local_refs[i] == name);
            assert(id == last);
        }
        if id == last && commits.contains_key(id) && commits[id].local_refs.contains(name) {
            let i = commits[id].local_refs.index_of(name);
            assert(more[i] == (id, name));
        }
    }
}

/// A planned move knows every local branch of every commit that it replays, and none but
/// those.
pub proof fn law_branches_follow_their_commits(
    g: GraphView,
    selected: Text,
    destination: Text,
    include_descendants: bool,
    plan: MoveView,
    id: Text,
    name: Text,
)
    requires
        planned(g, selected, destination, include_descendants) == Ok::<MoveView, Text>(plan),
    ensures
        plan.ref_updates.contains((id, name)) <==> plan.commits.contains(id)
            && g.commits.contains_key(id) && g.commits[id].local_refs.contains(name),
{
    assert(plan.ref_updates == moved_refs(g.commits, plan.commits));
    lemma_sorted::<(String, String)>(refs_at(g.commits, plan.commits));
    lemma_refs_at(g.commits, plan.commits, id, name);
}

/// The rebase that moves a commit starts at what the replayed commits stand on: what is
/// above it, up to the end of the stack, is exactly what the plan replays. It is
/// interactive, and branches follow their commits.
pub proof fn law_commit_rebase_replays_the_plan(
    g: GraphView,
    selected: Text,
    destination: Text,
    plan: MoveView,
    x: Text,
)
    requires
        g.commits.dom().finite(),
        acyclic(g.commits),
        planned(g, selected, destination, false) == Ok::<MoveView, Text>(plan),
    ensures
        ({
            let args = rebase_args(plan);
            &&& args.len() == if plan.detach_for_rewrite {
                6nat
            } else {
                7
            }
            &&& args.take(5) == seq![
                "-c"@,
                "rebase.abbreviateCommands=false"@,
                "rebase"@,
                "--interactive"@,
                "--update-refs"@,
            ]
            &&& plan.commits.contains(x) <==> reaches(g.commits, plan.tip_commit, x) && !reaches(
                g.commits,
                args[5],
                x,
            )
            &&& !plan.commits.contains(args[5])
            &&& reaches(g.commits, plan.tip_commit, args[5])
            &&& !plan.detach_for_rewrite ==> g.branch == Some(args[6]) && g.head == plan.tip_commit
        }),
{
    let args = rebase_args(plan);
    let all = segment(g.commits, plan.base, plan.tip_commit)->Ok_0;
    law_commit_move(g, selected, destination, plan);
    law_segments_are_ranges(g.commits, plan.base, plan.tip_commit, x);
    lemma_walk_chain(g.commits, plan.base, plan.tip_commit, plan.tip_commit, g.commits.len());
    assert forall|y: Text| #[trigger] plan.commits.contains(y) == all.contains(y) by {
        vstd::seq_lib::to_multiset_contains(plan.commits, y);
        vstd::seq_lib::to_multiset_contains(all, y);
    }
    plan.commits.to_multiset_ensures();
    all.to_multiset_ensures();
    assert(plan.commits.len() == all.len());
    lemma_chain_reaches(g.commits, plan.base, all, 0, all.len() - 1);
    assert(args.take(5) =~= seq![
        "-c"@,
        "rebase.abbreviateCommands=false"@,
        "rebase"@,
        "--interactive"@,
        "--update-refs"@,
    ]);
}

/// What a substack move replays: the chain that it carries, which stands on the parent of
/// the moved commit, and the chain that stands on the destination.
spec fn substack_parts(
    commits: Map<Text, CommitView>,
    selected: Text,
    destination: Text,
    plan: MoveView,
) -> bool {
    let low = plan.commits.take(plan.carried_count as int);
    let high = plan.commits.skip(plan.carried_count as int);
    &&& plan.include_descendants
    &&& plan.destination == destination
    &&& plan.base == destination
    &&& 0 < plan.carried_count <= plan.commits.len()
    &&& plan.commits[0] == selected
    &&& plan.commits.no_duplicates()
    &&& !plan.commits.contains(destination)
    &&& only_parent(commits, selected) == Ok::<Text, Text>(plan.source_base)
    &&& stands_on(commits, plan.source_base, low)
    &&& stands_on(commits, destination, high)
    &&& !low.contains(plan.source_base)
    &&& !high.contains(destination)
    &&& segment(commits, plan.source_base, low.last()) == Ok::<Seq<Text>, Text>(low)
    &&& high.len() > 0 ==> segment(commits, destination, plan.commits.last()) == Ok::<
        Seq<Text>,
        Text,
    >(high)
}

proof fn lemma_substack_parts(g: GraphView, selected: Text, destination: Text, plan: MoveView)
    requires
        g.commits.dom().finite(),
        acyclic(g.commits),
        planned(g, selected, destination, true) == Ok::<MoveView, Text>(plan),
    ensures
        substack_parts(g.commits, selected, destination, plan),
{
    law_substack_move(g, selected, destination, plan);
    let tip = tip_of(g, selected)->Ok_0;
    let parent = only_parent(g.commits, selected)->Ok_0;
    let low = carried(g, selected)->Ok_0;
    let end = destination_tip(g.commits, destination)->Ok_0;
    let high = segment(g.commits, destination, end.1)->Ok_0;
    assert(plan.commits == low + high);
    lemma_walk_chain(g.commits, parent, tip.1, tip.1, g.commits.len());
    lemma_walk_chain(g.commits, destination, end.1, end.1, g.commits.len());
    assert(plan.commits.skip(plan.carried_count as int) =~= high);
}

/// The arguments of the rebase that moves a substack.
proof fn lemma_substack_args(plan: MoveView)
    requires
        plan.include_descendants,
    ensures
        rebase_args(plan).len() == 9,
        rebase_args(plan).take(7) == seq![
            "-c"@,
            "rebase.abbreviateCommands=false"@,
            "rebase"@,
            "--interactive"@,
            "--update-refs"@,
            "--onto"@,
            plan.destination,
        ],
        rebase_args(plan)[7] == if plan.commits.len() == plan.carried_count {
            plan.source_base
        } else {
            plan.destination
        },
        rebase_args(plan)[8] == plan.checkout_branch,
{
    assert(rebase_args(plan).take(7) =~= seq![
        "-c"@,
        "rebase.abbreviateCommands=false"@,
        "rebase"@,
        "--interactive"@,
        "--update-refs"@,
        "--onto"@,
        plan.destination,
    ]);
}

/// What is above the start of the rebase that moves a substack is replayed.
proof fn lemma_substack_range(
    commits: Map<Text, CommitView>,
    selected: Text,
    destination: Text,
    plan: MoveView,
    start: Text,
    x: Text,
)
    requires
        acyclic(commits),
        substack_parts(commits, selected, destination, plan),
        start == if plan.commits.len() == plan.carried_count {
            plan.source_base
        } else {
            destination
        },
    ensures
        reaches(commits, plan.commits.last(), start),
        !plan.commits.contains(start),
        reaches(commits, plan.commits.last(), x) && !reaches(commits, start, x)
            ==> plan.commits.contains(x),
{
    let low = plan.commits.take(plan.carried_count as int);
    let high = plan.commits.skip(plan.carried_count as int);
    if high.len() == 0 {
        assert(plan.commits =~= low);
        law_segments_are_ranges(commits, plan.source_base, low.last(), x);
        lemma_chain_reaches(commits, plan.source_base, low, 0, low.len() - 1);
    } else {
        assert(high.last() == plan.commits.last());
        law_segments_are_ranges(commits, destination, high.last(), x);
        lemma_chain_reaches(commits, destination, high, 0, high.len() - 1);
        if high.contains(x) {
            assert(plan.commits[high.index_of(x) + plan.carried_count] == x);
        }
    }
}

/// The rebase that moves a substack puts it onto the destination. It starts at a commit that
/// the end of the replayed ones leads back to, and what is above that is replayed.
pub proof fn law_substack_rebase_replays_the_plan(
    g: GraphView,
    selected: Text,
    destination: Text,
    plan: MoveView,
    x: Text,
)
    requires
        g.commits.dom().finite(),
        acyclic(g.commits),
        planned(g, selected, destination, true) == Ok::<MoveView, Text>(plan),
    ensures
        ({
            let args = rebase_args(plan);
            &&& args.len() == 9
            &&& args.take(7) == seq![
                "-c"@,
                "rebase.abbreviateCommands=false"@,
                "rebase"@,
                "--interactive"@,
                "--update-refs"@,
                "--onto"@,
                destination,
            ]
            &&& reaches(g.commits, plan.commits.last(), args[7])
            &&& !plan.commits.contains(args[7])
            &&& reaches(g.commits, plan.commits.last(), x) && !reaches(g.commits, args[7], x)
                ==> plan.commits.contains(x)
            &&& args[8] == plan.checkout_branch
        }),
{
    lemma_substack_parts(g, selected, destination, plan);
    lemma_substack_args(plan);
    lemma_substack_range(g.commits, selected, destination, plan, rebase_args(plan)[7], x);
}

/// Commits of which each leads back to those before it.
pub open spec fn oldest_first(commits: Map<Text, CommitView>, ids: Seq<Text>) -> bool {
    forall|i: int, j: int|
        #![trigger ids[i], ids[j]]
        0 <= i < j < ids.len() ==> reaches(commits, ids[j], ids[i])
}

proof fn lemma_chain_oldest_first(commits: Map<Text, CommitView>, base: Text, chain: Seq<Text>)
    requires
        stands_on(commits, base, chain),
    ensures
        oldest_first(commits, chain),
{
    assert forall|i: int, j: int| #![trigger chain[i], chain[j]]
        0 <= i < j < chain.len() implies reaches(commits, chain[j], chain[i]) by {
        lemma_chain_reaches(commits, base, chain, i, j);
    }
}

proof fn lemma_filter_oldest_first(
    commits: Map<Text, CommitView>,
    ids: Seq<Text>,
    keeps: spec_fn(Text) -> bool,
)
    requires
        oldest_first(commits, ids),
    ensures
        oldest_first(commits, ids.filter(keeps)),
        forall|x: Text| #[trigger] ids.filter(keeps).contains(x) ==> ids.contains(x),
    decreases ids.len(),
{
    reveal(Seq::filter);
    if ids.len() > 0 {
        let init = ids.drop_last();
        assert forall|i: int, j: int| #![trigger init[i], init[j]]
            0 <= i < j < init.len() implies reaches(commits, init[j], init[i]) by {
            assert(reaches(commits, ids[j], ids[i]));
        }
        lemma_filter_oldest_first(commits, init, keeps);
        let old = init.filter(keeps);
        let kept = ids.filter(keeps);
        assert(ids =~= init.push(ids.last()));
        assert forall|x: Text| #[trigger] kept.contains(x) implies ids.contains(x) by {
            vstd::seq_lib::lemma_seq_contains_after_push(old, ids.last(), x);
            vstd::seq_lib::lemma_seq_contains_after_push(init, ids.last(), x);
        }
        assert forall|i: int, j: int| #![trigger kept[i], kept[j]]
            0 <= i < j < kept.len() implies reaches(commits, kept[j], kept[i]) by {
            assert(kept[i] == old[i]);
            if j < old.len() {
                assert(kept[j] == old[j]);
            } else {
                assert(old.contains(old[i]));
                let k = init.index_of(old[i]);
                assert(reaches(commits, ids[ids.len() - 1], ids[k]));
            }
        }
    }
}

/// All commits but one stay in their order when that one is moved: each still leads back to
/// those that are replayed before it.
pub proof fn law_a_moved_commit_leaves_the_others_in_order(
    g: GraphView,
    selected: Text,
    destination: Text,
    plan: MoveView,
    i: int,
    j: int,
)
    requires
        g.commits.dom().finite(),
        acyclic(g.commits),
        planned(g, selected, destination, false) == Ok::<MoveView, Text>(plan),
        0 <= i < j < plan.commits.len(),
        plan.commits[i] != selected,
        plan.commits[j] != selected,
    ensures
        reaches(g.commits, plan.commits[j], plan.commits[i]),
{
    let all = segment(g.commits, plan.base, plan.tip_commit)->Ok_0;
    law_commit_move(g, selected, destination, plan);
    law_segments_are_chains(g.commits, plan.base, plan.tip_commit);
    lemma_chain_oldest_first(g.commits, plan.base, all);
    lemma_filter_oldest_first(g.commits, all, other_than(selected));
    let rest = all.filter(other_than(selected));
    let later = reaches(g.commits, destination, selected);
    rest.index_of_first_ensures(destination);
    let at = if later {
        rest.index_of_first(destination)->0 + 1
    } else {
        0
    };
    assert(plan.commits == rest.insert(at, selected));
    let a = if i < at {
        i
    } else {
        i - 1
    };
    let b = if j < at {
        j
    } else {
        j - 1
    };
    assert(plan.commits[i] == rest[a]);
    assert(plan.commits[j] == rest[b]);
}

/// A moved substack stays in its order, and so does what stands on the destination: each
/// commit stands on the one that is replayed before it, but for the first of either.
pub proof fn law_a_moved_substack_stays_in_order(
    g: GraphView,
    selected: Text,
    destination: Text,
    plan: MoveView,
    i: int,
)
    requires
        g.commits.dom().finite(),
        acyclic(g.commits),
        planned(g, selected, destination, true) == Ok::<MoveView, Text>(plan),
        0 <= i < plan.commits.len(),
    ensures
        g.commits.contains_key(plan.commits[i]),
        g.commits[plan.commits[i]].parents == seq![
            if i == 0 {
                plan.source_base
            } else if i == plan.carried_count {
                destination
            } else {
                plan.commits[i - 1]
            },
        ],
        plan.commits[0] == selected,
        reaches(g.commits, g.head, selected),
        exists|n: int| 0 <= n < plan.carried_count && #[trigger] plan.commits[n] == g.head,
{
    lemma_substack_parts(g, selected, destination, plan);
    lemma_carries_the_head(g, selected, destination, plan);
    let low = plan.commits.take(plan.carried_count as int);
    let high = plan.commits.skip(plan.carried_count as int);
    if i < plan.carried_count {
        assert(low[i] == plan.commits[i]);
    } else {
        assert(high[i - plan.carried_count] == plan.commits[i]);
    }
}

proof fn lemma_carries_the_head(g: GraphView, selected: Text, destination: Text, plan: MoveView)
    requires
        g.commits.dom().finite(),
        acyclic(g.commits),
        planned(g, selected, destination, true) == Ok::<MoveView, Text>(plan),
    ensures
        reaches(g.commits, g.head, selected),
        exists|n: int| 0 <= n < plan.carried_count && #[trigger] plan.commits[n] == g.head,
{
    let tip = tip_of(g, selected)->Ok_0;
    let parent = only_parent(g.commits, selected)->Ok_0;
    let low = carried(g, selected)->Ok_0;
    let end = destination_tip(g.commits, destination)->Ok_0;
    let high = segment(g.commits, destination, end.1)->Ok_0;
    assert(plan.commits == low + high);
    assert(plan.carried_count == low.len());
    lemma_tip(g, selected);
    law_segments_are_ranges(g.commits, parent, tip.1, g.head);
    assert(is_parent(g.commits, selected, parent)) by {
        assert(g.commits[selected].parents[0] == parent);
    }
    if reaches(g.commits, parent, g.head) {
        lemma_reaches_transitive(g.commits, parent, g.head, selected);
    }
    let n = low.index_of(g.head);
    assert(plan.commits[n] == g.head);
}

/// Where the checked-out stack ends.
proof fn lemma_tip(g: GraphView, selected: Text)
    requires
        tip_of(g, selected) is Ok,
    ensures
        reaches(g.commits, tip_of(g, selected)->Ok_0.1, g.head),
        reaches(g.commits, g.head, selected),
        g.branch is Some,
        tip_of(g, selected)->Ok_0.2 == "fs-head/"@.is_prefix_of(g.branch->0),
        !tip_of(g, selected)->Ok_0.2 ==> tip_of(g, selected)->Ok_0.0 == g.branch->0
            && tip_of(g, selected)->Ok_0.1 == g.head,
{
    let tip = tip_of(g, selected)->Ok_0;
    let ends = tips(g.commits, g.head);
    lemma_reaches_self(g.commits, g.head);
    if tip.1 != g.head {
        assert(ends.contains(ends.choose()));
        assert(layers(g.commits, g.head).contains(tip.1));
    }
}

proof fn lemma_layer_refs(commit: CommitView, name: Text)
    ensures
        layer_refs(commit).contains(name) <==> commit.local_refs.contains(name)
            && "fs-head/"@.is_prefix_of(name),
{
    lemma_filter_contains(commit.local_refs, |x: Text| "fs-head/"@.is_prefix_of(x), name);
}

proof fn lemma_filter_contains(v: Seq<Text>, keeps: spec_fn(Text) -> bool, x: Text)
    ensures
        v.filter(keeps).contains(x) <==> v.contains(x) && keeps(x),
    decreases v.len(),
{
    reveal(Seq::filter);
    if v.len() > 0 {
        let init = v.drop_last();
        lemma_filter_contains(init, keeps, x);
        assert(v =~= init.push(v.last()));
        vstd::seq_lib::lemma_seq_contains_after_push(init, v.last(), x);
        vstd::seq_lib::lemma_seq_contains_after_push(init.filter(keeps), v.last(), x);
    }
}

/// What is checked out after a move: on a branch of a stack's layers, such a branch of the
/// last commit that is replayed, the one that ends the stack if that is among them, and
/// else the first of them;
/// on any other branch that branch itself, unless what stands on the destination is
/// replayed last. Only the branches of layers are rewritten off the branch.
pub proof fn law_moves_check_out_the_end(
    g: GraphView,
    selected: Text,
    destination: Text,
    include_descendants: bool,
    plan: MoveView,
)
    requires
        g.commits.dom().finite(),
        acyclic(g.commits),
        planned(g, selected, destination, include_descendants) == Ok::<MoveView, Text>(plan),
    ensures
        g.branch matches Some(branch) && plan.detach_for_rewrite == "fs-head/"@.is_prefix_of(branch),
        plan.selected == selected,
        plan.destination == destination,
        plan.include_descendants == include_descendants,
        plan.detach_for_rewrite ==> {
            &&& g.commits.contains_key(plan.commits.last())
            &&& g.commits[plan.commits.last()].local_refs.contains(plan.checkout_branch)
            &&& "fs-head/"@.is_prefix_of(plan.checkout_branch)
            &&& g.commits[plan.commits.last()].local_refs.contains(plan.tip) && "fs-head/"@.is_prefix_of(
                plan.tip,
            ) ==> plan.checkout_branch == plan.tip
            &&& plan.checkout_branch != plan.tip ==> forall|other: Text| #[trigger]
                g.commits[plan.commits.last()].local_refs.contains(other) && "fs-head/"@.is_prefix_of(
                    other,
                ) ==> not_after(plan.checkout_branch, other)
        },
        !plan.detach_for_rewrite ==> plan.checkout_branch == plan.tip,
        !plan.detach_for_rewrite && (!include_descendants || plan.carried_count
            == plan.commits.len()) ==> g.branch == Some(plan.tip),
        reaches(g.commits, plan.tip_commit, g.head) || include_descendants && plan.carried_count
            < plan.commits.len(),
{
    let tip = tip_of(g, selected)->Ok_0;
    lemma_tip(g, selected);
    if plan.detach_for_rewrite {
        let names = layer_refs(g.commits[plan.commits.last()]);
        lemma_layer_refs(g.commits[plan.commits.last()], plan.tip);
        lemma_layer_refs(g.commits[plan.commits.last()], plan.checkout_branch);
        if !names.contains(plan.tip) {
            lemma_least_member(names);
            assert forall|other: Text| #[trigger]
                g.commits[plan.commits.last()].local_refs.contains(other) && "fs-head/"@.is_prefix_of(
                    other,
                ) implies not_after(plan.checkout_branch, other) by {
                lemma_layer_refs(g.commits[plan.commits.last()], other);
            }
        }
    }
    if include_descendants {
        lemma_substack_parts(g, selected, destination, plan);
        let low = carried(g, selected)->Ok_0;
        let end = destination_tip(g.commits, destination)->Ok_0;
        let high = segment(g.commits, destination, end.1)->Ok_0;
        assert(plan.commits == low + high);
        assert(plan.carried_count == low.len());
        if high.len() == 0 {
            let parent = only_parent(g.commits, selected)->Ok_0;
            law_segments_are_chains(g.commits, parent, tip.1);
            assert(plan.commits =~= low);
        }
    }
}

/// The least of some names is one of them.
proof fn lemma_least_member(names: Seq<Text>)
    requires
        names.len() > 0,
    ensures
        names.contains(least(names.to_set())),
        forall|other: Text| #[trigger]
            names.contains(other) ==> not_after(least(names.to_set()), other),
{
    let sorted_names = in_order(names);
    lemma_sorted::<String>(names);
    let first = sorted_names[0];
    assert(sorted_names.contains(first));
    lemma_text_order();
    let leq = |a: Text, b: Text| not_after(a, b);
    let in_turn = |a: Text, b: Text| String::leq(a, b);
    assert forall|y: Text| #[trigger] names.to_set().contains(y) implies not_after(first, y) by {
        assert(sorted_names.contains(y));
        let k = sorted_names.index_of(y);
        if k > 0 {
            assert(in_turn(sorted_names[0], sorted_names[k]));
        } else {
            assert(leq(first, first));
        }
    }
    lemma_least(names.to_set(), first);
    assert forall|other: Text| #[trigger] names.contains(other) implies not_after(
        first,
        other,
    ) by {
        assert(names.to_set().contains(other));
    }
}

/// On an ordinary branch every commit of a line of single parents can be moved behind every
/// other one of it that it does not stand on already.
pub proof fn law_ordinary_commits_can_be_moved(
    g: GraphView,
    branch: Text,
    selected: Text,
    destination: Text,
)
    requires
        g.commits.dom().finite(),
        acyclic(g.commits),
        g.branch == Some(branch),
        !"fs-head/"@.is_prefix_of(branch),
        selected != destination,
        reaches(g.commits, g.head, selected),
        reaches(g.commits, g.head, destination),
        g.commits.contains_key(selected),
        g.commits[selected].parents.len() == 1,
        g.commits[selected].parents[0] != destination,
        segment(
            g.commits,
            if reaches(g.commits, destination, selected) {
                g.commits[selected].parents[0]
            } else {
                destination
            },
            g.head,
        ) is Ok,
    ensures
        planned(g, selected, destination, false) is Ok,
{
    let parent = g.commits[selected].parents[0];
    let later = reaches(g.commits, destination, selected);
    let base = if later {
        parent
    } else {
        destination
    };
    let all = segment(g.commits, base, g.head)->Ok_0;
    let rest = all.filter(other_than(selected));
    assert(is_parent(g.commits, selected, parent));
    law_segments_are_chains(g.commits, base, g.head);
    law_segments_are_ranges(g.commits, base, g.head, selected);
    law_segments_are_ranges(g.commits, base, g.head, destination);
    lemma_reaches_self(g.commits, parent);
    lemma_reaches_step(g.commits, selected, parent, parent);
    lemma_filter_contains(all, other_than(selected), destination);
    lemma_filter_contains(all, other_than(selected), selected);
    rest.index_of_first_ensures(destination);
    if later {
        if reaches(g.commits, parent, destination) {
            lemma_reaches_transitive(g.commits, parent, destination, selected);
        }
        let at = rest.index_of_first(destination)->0;
        let ids = rest.insert(at + 1, selected);
        let k = all.index_of(selected);
        assert(g.commits[all[k]].parents == seq![if k == 0 { base } else { all[k - 1] }]);
        assert(ids[0] == rest[0]);
        assert(rest.contains(rest[0]));
        if ids == all {
            assert(all[0] != selected);
            assert(all[k - 1] == base);
            assert(all.contains(base));
            law_segments_are_ranges(g.commits, base, g.head, base);
        }
    } else {
        let ids = rest.insert(0, selected);
        if ids == all {
            assert(all[0] == selected);
            assert(g.commits[all[0]].parents == seq![base]);
            assert(g.commits[selected].parents[0] == base);
        }
    }
}

/// A commit that leads back to another one does so by one of its parents.
proof fn lemma_first_step(commits: Map<Text, CommitView>, a: Text, b: Text) -> (p: Text)
    requires
        reaches(commits, a, b),
        a != b,
    ensures
        is_parent(commits, a, p),
        reaches(commits, p, b),
{
    let path = choose|path: Seq<Text>|
        #[trigger] is_path(commits, path) && path[0] == a && path.last() == b;
    let rest = path.drop_first();
    assert(is_parent(commits, path[0], path[0int + 1]));
    assert forall|i: int| 0 <= i < rest.len() - 1 implies is_parent(
        commits,
        #[trigger] rest[i],
        rest[i + 1],
    ) by {
        assert(is_parent(commits, path[i + 1], path[i + 1 + 1]));
    }
    assert(is_path(commits, rest));
    assert(rest[0] == path[1] && rest.last() == b);
    path[1]
}

/// No two commits lead back to each other.
proof fn lemma_one_way(commits: Map<Text, CommitView>, a: Text, b: Text)
    requires
        acyclic(commits),
        reaches(commits, a, b),
        reaches(commits, b, a),
    ensures
        a == b,
{
    if a != b {
        let p = lemma_first_step(commits, a, b);
        lemma_reaches_transitive(commits, p, b, a);
    }
}

/// Commits that are known by their ids.
pub open spec fn known_by_id(commits: Map<Text, CommitView>) -> bool {
    forall|k: Text| #[trigger] commits.contains_key(k) ==> commits[k].id == k
}

/// A commit is part of a stack: it has a branch of a stack's layers.
pub open spec fn is_layer(commits: Map<Text, CommitView>, id: Text) -> bool {
    commits.contains_key(id) && exists|name: Text|
        "fs-head/"@.is_prefix_of(name) && #[trigger] commits[id].local_refs.contains(name)
}

proof fn lemma_layers(commits: Map<Text, CommitView>, from: Text)
    requires
        commits.dom().finite(),
        known_by_id(commits),
    ensures
        layers(commits, from).finite(),
        forall|id: Text| #[trigger]
            layers(commits, from).contains(id) <==> reaches(commits, id, from) && is_layer(
                commits,
                id,
            ),
{
    assert forall|id: Text| #[trigger] layers(commits, from).contains(id) <==> reaches(
        commits,
        id,
        from,
    ) && is_layer(commits, id) by {
        if layers(commits, from).contains(id) {
            let k = choose|k: Text| #[trigger]
                commits.contains_key(k) && commits[k].id == id && layer_refs(commits[k]).len() > 0;
            let name = layer_refs(commits[k])[0];
            assert(layer_refs(commits[k]).contains(name));
            lemma_layer_refs(commits[k], name);
            assert(commits[id].local_refs.contains(name));
        }
        if reaches(commits, id, from) && is_layer(commits, id) {
            let name = choose|name: Text|
                "fs-head/"@.is_prefix_of(name) && #[trigger] commits[id].local_refs.contains(name);
            lemma_layer_refs(commits[id], name);
            assert(layer_refs(commits[id]).contains(name));
            assert(commits.contains_key(id) && commits[id].id == id);
        }
    }
    assert(layers(commits, from).subset_of(commits.dom()));
    vstd::set_lib::lemma_set_subset_finite(commits.dom(), layers(commits, from));
}

/// Above every layer there is one that ends the stack.
proof fn lemma_end_above(commits: Map<Text, CommitView>, from: Text, id: Text) -> (end: Text)
    requires
        commits.dom().finite(),
        acyclic(commits),
        known_by_id(commits),
        layers(commits, from).contains(id),
    ensures
        tips(commits, from).contains(end),
        reaches(commits, end, id),
    decreases layers(commits, id).len(),
{
    lemma_layers(commits, from);
    lemma_layers(commits, id);
    lemma_reaches_self(commits, id);
    if tips(commits, from).contains(id) {
        id
    } else {
        let other = choose|other: Text| #[trigger]
            layers(commits, from).contains(other) && other != id && reaches(commits, other, id);
        lemma_layers(commits, other);
        assert forall|x: Text| #[trigger] layers(commits, other).contains(x) implies layers(
            commits,
            id,
        ).contains(x) by {
            lemma_reaches_transitive(commits, x, other, id);
        }
        assert(layers(commits, id).contains(id));
        if layers(commits, other).contains(id) {
            lemma_one_way(commits, id, other);
        }
        assert(layers(commits, other).subset_of(layers(commits, id).remove(id)));
        vstd::set_lib::lemma_len_subset(layers(commits, other), layers(commits, id).remove(id));
        let end = lemma_end_above(commits, from, other);
        lemma_reaches_transitive(commits, end, other, id);
        end
    }
}

/// No layer of a stack is left behind: all that stand on what is checked out are replayed
/// with it and, where a substack is put onto a commit, so are all that stand on that one.
pub proof fn law_no_layer_is_left_behind(
    g: GraphView,
    selected: Text,
    destination: Text,
    include_descendants: bool,
    plan: MoveView,
    id: Text,
)
    requires
        g.commits.dom().finite(),
        acyclic(g.commits),
        known_by_id(g.commits),
        planned(g, selected, destination, include_descendants) == Ok::<MoveView, Text>(plan),
        is_layer(g.commits, id),
    ensures
        plan.detach_for_rewrite && reaches(g.commits, id, g.head) ==> plan.commits.contains(id),
        include_descendants && reaches(g.commits, id, destination) && id != destination
            ==> plan.commits.contains(id),
{
    if plan.detach_for_rewrite && reaches(g.commits, id, g.head) {
        lemma_own_layers(g, selected, destination, include_descendants, plan, id);
    }
    if include_descendants && reaches(g.commits, id, destination) && id != destination {
        lemma_layers_above(g, selected, destination, plan, id);
    }
}

proof fn lemma_own_layers(
    g: GraphView,
    selected: Text,
    destination: Text,
    include_descendants: bool,
    plan: MoveView,
    id: Text,
)
    requires
        g.commits.dom().finite(),
        acyclic(g.commits),
        known_by_id(g.commits),
        planned(g, selected, destination, include_descendants) == Ok::<MoveView, Text>(plan),
        is_layer(g.commits, id),
        plan.detach_for_rewrite,
        reaches(g.commits, id, g.head),
    ensures
        plan.commits.contains(id),
{
    let tip = tip_of(g, selected)->Ok_0;
    let parent = only_parent(g.commits, selected)->Ok_0;
    let ends = tips(g.commits, g.head);
    lemma_tip(g, selected);
    lemma_layers(g.commits, g.head);
    let end = lemma_end_above(g.commits, g.head, id);
    assert(ends.contains(end));
    assert(ends.contains(ends.choose()));
    assert(tip.1 == end);
    lemma_reaches_transitive(g.commits, id, g.head, selected);
    assert(is_parent(g.commits, selected, parent)) by {
        assert(g.commits[selected].parents[0] == parent);
    }
    if include_descendants {
        let low = carried(g, selected)->Ok_0;
        let high = segment(
            g.commits,
            destination,
            destination_tip(g.commits, destination)->Ok_0.1,
        )->Ok_0;
        assert(plan.commits == low + high);
        law_segments_are_ranges(g.commits, parent, tip.1, id);
        if reaches(g.commits, parent, id) {
            lemma_reaches_transitive(g.commits, parent, id, selected);
        }
        assert(plan.commits[low.index_of(id)] == id);
    } else {
        law_commit_rebase_replays_the_plan(g, selected, destination, plan, id);
        law_commit_rebase_replays_the_plan(g, selected, destination, plan, selected);
        let start = rebase_args(plan)[5];
        assert(start == plan.base);
        if reaches(g.commits, start, id) {
            lemma_reaches_transitive(g.commits, start, id, selected);
            law_commit_move(g, selected, destination, plan);
            assert(plan.commits.contains(selected));
        }
    }
}

proof fn lemma_layers_above(
    g: GraphView,
    selected: Text,
    destination: Text,
    plan: MoveView,
    id: Text,
)
    requires
        g.commits.dom().finite(),
        acyclic(g.commits),
        known_by_id(g.commits),
        planned(g, selected, destination, true) == Ok::<MoveView, Text>(plan),
        is_layer(g.commits, id),
        reaches(g.commits, id, destination),
        id != destination,
    ensures
        plan.commits.contains(id),
{
    let ends = tips(g.commits, destination);
    lemma_layers(g.commits, destination);
    let end = lemma_end_above(g.commits, destination, id);
    assert(ends.contains(end));
    assert(ends.contains(ends.choose()));
    let low = carried(g, selected)->Ok_0;
    let high = segment(g.commits, destination, end)->Ok_0;
    assert(destination_tip(g.commits, destination)->Ok_0.1 == end);
    assert(plan.commits == low + high);
    law_segments_are_ranges(g.commits, destination, end, id);
    if reaches(g.commits, destination, id) {
        lemma_one_way(g.commits, destination, id);
    }
    assert(plan.commits[low.len() + high.index_of(id)] == id);
}

} // verus!
