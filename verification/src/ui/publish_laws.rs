//! What holds of the preview of a publication.

use crate::order::{in_order, lemma_sorted, only, without_all, Ordered};
use crate::stack::submit::{PlanView, RefUpdateView};
use crate::text::Text;
use crate::ui::history::{is_parent, is_path, lemma_reaches_self, reached, reaches};
use crate::ui::laws::law_reachable_part;
use crate::ui::model::{CommitView, GraphView};
use crate::ui::moves::layer_prefix;
use crate::ui::preview::{
    has_refs, moved_heads, moved_remotes, published, reachable_part, roots, targeted, tracking,
    updated, with_name, without_refs,
};
use vstd::prelude::*;
use vstd::relations::sorted_by;

verus! {

/// How often a list holds a name.
pub open spec fn times(names: Seq<Text>, name: Text) -> nat {
    names.to_multiset().count(name)
}

/// Whether one of the first `n` updates makes a branch point at a commit.
pub open spec fn aimed_at(updates: Seq<RefUpdateView>, n: int, k: Text) -> bool {
    exists|i: int| 0 <= i < n && (#[trigger] updates[i]).rev == k
}

/// Whether one of the first `n` updates brings a remote branch to a commit.
pub open spec fn brings_remote(
    updates: Seq<RefUpdateView>,
    n: int,
    remote: Text,
    k: Text,
    name: Text,
) -> bool {
    exists|i: int|
        0 <= i < n && (#[trigger] updates[i]).rev == k && tracking(remote, updates[i].branch)
            == name
}

/// Whether one of the first `n` updates brings a layer branch to a commit.
pub open spec fn brings_head(updates: Seq<RefUpdateView>, n: int, k: Text, name: Text) -> bool {
    layer_prefix().is_prefix_of(name) && exists|i: int|
        0 <= i < n && (#[trigger] updates[i]).rev == k && updates[i].branch == name
}

/// Names stand in their order.
pub open spec fn ordered(names: Seq<Text>) -> bool {
    in_order(names) == names
}

/// What a commit becomes by the first `n` updates of a publication: a branch that is
/// published is there once where it is brought and nowhere else, every other branch is
/// there as before, and a commit that something is brought to is marked. Nothing else of
/// the commit changes.
pub open spec fn commit_published(
    before: CommitView,
    after: CommitView,
    updates: Seq<RefUpdateView>,
    n: int,
    remote: Text,
    k: Text,
) -> bool {
    &&& after == (CommitView {
        preview: before.preview || aimed_at(updates, n, k),
        local_refs: after.local_refs,
        remote_refs: after.remote_refs,
        ..before
    })
    &&& forall|name: Text| #[trigger]
        times(after.remote_refs, name) == if moved_remotes(updates, remote).contains(name) {
            if brings_remote(updates, n, remote, k, name) {
                1
            } else {
                0
            }
        } else {
            times(before.remote_refs, name)
        }
    &&& forall|name: Text| #[trigger]
        times(after.local_refs, name) == if moved_heads(updates).contains(name) {
            if brings_head(updates, n, k, name) {
                1
            } else {
                0
            }
        } else {
            times(before.local_refs, name)
        }
    &&& if aimed_at(updates, n, k) {
        ordered(after.local_refs) && ordered(after.remote_refs)
    } else {
        after == without_refs(before, moved_heads(updates), moved_remotes(updates, remote))
    }
}

/// Every commit is known by its id.
pub open spec fn known_by_id(commits: Map<Text, CommitView>) -> bool {
    forall|k: Text| #[trigger] commits.contains_key(k) ==> commits[k].id == k
}

/// No two updates are of one branch.
pub open spec fn branches_differ(updates: Seq<RefUpdateView>) -> bool {
    forall|a: int, b: int|
        0 <= a < b < updates.len() ==> (#[trigger] updates[a]).branch != (
        #[trigger] updates[b]).branch
}

/// The preview of a publication. It succeeds exactly where every commit that a branch is to
/// point at is there. The head and the branch that is checked out stay. A commit stays,
/// in its place, exactly where the head or a commit with a ref leads to it, and becomes what
/// `commit_published` says: other refs, tags and parents are as they were. Previewing the
/// same publication again changes nothing.
pub proof fn law_published_graph(g: GraphView, plan: PlanView)
    requires
        known_by_id(g.commits),
        branches_differ(plan.updates),
    ensures
        published(g, plan) is Ok <==> forall|i: int|
            0 <= i < plan.updates.len() ==> g.commits.contains_key(
                (#[trigger] plan.updates[i]).rev,
            ),
        published(g, plan) matches Ok(h) ==> {
            let kept = reached(g.commits, roots(h.commits, h.head));
            &&& h.head == g.head
            &&& h.branch == g.branch
            &&& h.order == only(g.order, kept)
            &&& forall|k: Text| #[trigger]
                h.commits.contains_key(k) <==> g.commits.contains_key(k) && kept.contains(k)
            &&& forall|k: Text| #[trigger]
                h.commits.contains_key(k) ==> commit_published(
                    g.commits[k],
                    h.commits[k],
                    plan.updates,
                    plan.updates.len() as int,
                    plan.options.remote,
                    k,
                )
            &&& forall|i: int|
                0 <= i < plan.updates.len() ==> h.commits.contains_key(
                    (#[trigger] plan.updates[i]).rev,
                )
            &&& published(h, plan) == Ok::<GraphView, Text>(h)
        },
{
    let updates = plan.updates;
    let remote = plan.options.remote;
    let n = updates.len() as int;
    lemma_updated_ok(cleared(g, plan), updates, remote, n);
    assert(updates.take(n) =~= updates);
    if published(g, plan) is Ok {
        lemma_updates(g, plan, n);
        lemma_kept(g, plan);
        lemma_again(g, plan);
    }
}

/// The commits without the refs that a publication moves.
spec fn cleared(g: GraphView, plan: PlanView) -> Map<Text, CommitView> {
    let local = moved_heads(plan.updates);
    let there = moved_remotes(plan.updates, plan.options.remote);
    g.commits.map_values(|commit: CommitView| without_refs(commit, local, there))
}

/// The updates succeed exactly where their commits are there, and add none.
proof fn lemma_updated_ok(
    commits: Map<Text, CommitView>,
    updates: Seq<RefUpdateView>,
    remote: Text,
    n: int,
)
    requires
        0 <= n <= updates.len(),
    ensures
        updated(commits, updates.take(n), remote) is Ok <==> forall|i: int|
            0 <= i < n ==> commits.contains_key((#[trigger] updates[i]).rev),
        updated(commits, updates.take(n), remote) matches Ok(done) ==> done.dom() == commits.dom(),
    decreases n,
{
    if n > 0 {
        lemma_updated_ok(commits, updates, remote, n - 1);
        assert(updates.take(n).drop_last() =~= updates.take(n - 1));
        assert(updates.take(n).last() == updates[n - 1]);
        if updated(commits, updates.take(n - 1), remote) is Ok {
            let done = updated(commits, updates.take(n - 1), remote)->Ok_0;
            assert(done.contains_key(updates[n - 1].rev) == commits.contains_key(
                updates[n - 1].rev,
            ));
            if done.contains_key(updates[n - 1].rev) {
                assert(done.insert(
                    updates[n - 1].rev,
                    targeted(done[updates[n - 1].rev], updates[n - 1], remote),
                ).dom() =~= commits.dom());
            }
        }
    }
}

/// How often names are left when some are taken out.
proof fn lemma_times_without(names: Seq<Text>, gone: Set<Text>, name: Text)
    ensures
        times(without_all(names, gone), name) == if gone.contains(name) {
            0
        } else {
            times(names, name)
        },
    decreases names.len(),
{
    reveal(Seq::filter);
    broadcast use vstd::multiset::group_multiset_axioms;

    let p = |x: Text| !gone.contains(x);
    if names.len() > 0 {
        let init = names.drop_last();
        lemma_times_without(init, gone, name);
        vstd::seq_lib::to_multiset_build(init, names.last());
        vstd::seq_lib::to_multiset_build(init.filter(p), names.last());
        assert(names =~= init.push(names.last()));
    } else {
        vstd::seq_lib::to_multiset_contains(names, name);
        vstd::seq_lib::to_multiset_contains(names.filter(p), name);
    }
}

/// Names that are put in order are as many as before, and in order.
proof fn lemma_put_in_order(names: Seq<Text>)
    ensures
        ordered(in_order(names)),
        forall|name: Text| #[trigger] times(in_order(names), name) == times(names, name),
{
    lemma_sorted::<String>(names);
    lemma_sorted::<String>(in_order(names));
    lemma_same_in_order(in_order(in_order(names)), in_order(names));
}

/// Two lists in order that hold the same names equally often are the same.
proof fn lemma_same_in_order(a: Seq<Text>, b: Seq<Text>)
    requires
        sorted_by(a, |x: Text, y: Text| <String as Ordered>::leq(x, y)),
        sorted_by(b, |x: Text, y: Text| <String as Ordered>::leq(x, y)),
        a.to_multiset() == b.to_multiset(),
    ensures
        a == b,
{
    <String as Ordered>::lemma_total();
    vstd::seq_lib::lemma_sorted_unique(a, b, |x: Text, y: Text| <String as Ordered>::leq(x, y));
}

proof fn lemma_in_order_unique(a: Seq<Text>, b: Seq<Text>)
    ensures
        ordered(a) && ordered(b) && (forall|name: Text| #[trigger]
            times(a, name) == times(b, name)) ==> a == b,
{
    broadcast use vstd::multiset::group_multiset_axioms;

    if ordered(a) && ordered(b) && (forall|name: Text| #[trigger]
        times(a, name) == times(b, name)) {
        lemma_sorted::<String>(a);
        lemma_sorted::<String>(b);
        assert forall|name: Text| a.to_multiset().count(name) == b.to_multiset().count(name) by {
            assert(times(a, name) == times(b, name));
        }
        assert(a.to_multiset() =~= b.to_multiset());
        lemma_same_in_order(a, b);
    }
}

/// How often names are there once one more is.
proof fn lemma_times_with(names: Seq<Text>, more: Text, name: Text)
    requires
        times(names, more) == 0,
    ensures
        times(with_name(names, more), name) == times(names, name) + if name == more {
            1nat
        } else {
            0
        },
{
    broadcast use vstd::multiset::group_multiset_axioms;

    vstd::seq_lib::to_multiset_contains(names, more);
    vstd::seq_lib::to_multiset_build(names, more);
}

/// Different branches of a remote have different names.
proof fn lemma_tracking_differs(remote: Text, a: Text, b: Text)
    requires
        tracking(remote, a) == tracking(remote, b),
    ensures
        a == b,
{
    let n = (remote + "/"@).len() as int;
    assert(tracking(remote, a).skip(n) =~= a);
    assert(tracking(remote, b).skip(n) =~= b);
}

/// What the commits become by the first `n` updates.
proof fn lemma_updates(g: GraphView, plan: PlanView, n: int)
    requires
        0 <= n <= plan.updates.len(),
        branches_differ(plan.updates),
        updated(cleared(g, plan), plan.updates.take(n), plan.options.remote) is Ok,
    ensures
        ({
            let done = updated(cleared(g, plan), plan.updates.take(n), plan.options.remote)->Ok_0;
            &&& done.dom() == g.commits.dom()
            &&& forall|k: Text| #[trigger]
                done.contains_key(k) ==> commit_published(
                    g.commits[k],
                    done[k],
                    plan.updates,
                    n,
                    plan.options.remote,
                    k,
                )
        }),
    decreases n,
{
    let updates = plan.updates;
    let remote = plan.options.remote;
    let local = moved_heads(updates);
    let there = moved_remotes(updates, remote);
    lemma_updated_ok(cleared(g, plan), updates, remote, n);
    let done = updated(cleared(g, plan), updates.take(n), remote)->Ok_0;
    assert(cleared(g, plan).dom() =~= g.commits.dom());
    if n == 0 {
        assert forall|k: Text| #[trigger] done.contains_key(k) implies commit_published(
            g.commits[k],
            done[k],
            updates,
            n,
            remote,
            k,
        ) by {
            assert(done[k] == without_refs(g.commits[k], local, there));
            assert(!aimed_at(updates, 0, k));
            assert forall|name: Text| #[trigger] times(done[k].remote_refs, name)
                == if there.contains(name) {
                0
            } else {
                times(g.commits[k].remote_refs, name)
            } by {
                lemma_times_without(g.commits[k].remote_refs, there, name);
            }
            assert forall|name: Text| #[trigger] times(done[k].local_refs, name)
                == if local.contains(name) {
                0
            } else {
                times(g.commits[k].local_refs, name)
            } by {
                lemma_times_without(g.commits[k].local_refs, local, name);
            }
        }
    } else {
        let update = updates[n - 1];
        assert(updates.take(n).drop_last() =~= updates.take(n - 1));
        assert(updates.take(n).last() == update);
        lemma_updates(g, plan, n - 1);
        let m = updated(cleared(g, plan), updates.take(n - 1), remote)->Ok_0;
        assert(done == m.insert(update.rev, targeted(m[update.rev], update, remote)));
        assert forall|k: Text| #[trigger] done.contains_key(k) implies commit_published(
            g.commits[k],
            done[k],
            updates,
            n,
            remote,
            k,
        ) by {
            assert(m.contains_key(k));
            assert(commit_published(g.commits[k], m[k], updates, n - 1, remote, k));
            if k == update.rev {
                lemma_targeted_commit(g.commits[k], m[k], updates, n, remote);
            } else {
                assert(done[k] == m[k]);
                assert(aimed_at(updates, n, k) == aimed_at(updates, n - 1, k)) by {
                    lemma_aimed_step(updates, n, k);
                }
                assert forall|name: Text|
                    brings_remote(updates, n, remote, k, name) == #[trigger] brings_remote(
                        updates,
                        n - 1,
                        remote,
                        k,
                        name,
                    ) by {
                    lemma_brings_step(updates, n, remote, k, name);
                }
                assert forall|name: Text|
                    brings_head(updates, n, k, name) == #[trigger] brings_head(
                        updates,
                        n - 1,
                        k,
                        name,
                    ) by {
                    lemma_brings_step(updates, n, remote, k, name);
                }
            }
        }
    }
}

proof fn lemma_aimed_step(updates: Seq<RefUpdateView>, n: int, k: Text)
    requires
        0 < n <= updates.len(),
    ensures
        aimed_at(updates, n, k) == (aimed_at(updates, n - 1, k) || updates[n - 1].rev == k),
{
    if aimed_at(updates, n, k) {
        let i = choose|i: int| 0 <= i < n && (#[trigger] updates[i]).rev == k;
        assert(i < n - 1 || i == n - 1);
    }
}

proof fn lemma_brings_step(
    updates: Seq<RefUpdateView>,
    n: int,
    remote: Text,
    k: Text,
    name: Text,
)
    requires
        0 < n <= updates.len(),
    ensures
        brings_remote(updates, n, remote, k, name) == (brings_remote(
            updates,
            n - 1,
            remote,
            k,
            name,
        ) || updates[n - 1].rev == k && tracking(remote, updates[n - 1].branch) == name),
        brings_head(updates, n, k, name) == (brings_head(updates, n - 1, k, name)
            || layer_prefix().is_prefix_of(name) && updates[n - 1].rev == k
            && updates[n - 1].branch == name),
{
    if brings_remote(updates, n, remote, k, name) {
        let i = choose|i: int|
            0 <= i < n && (#[trigger] updates[i]).rev == k && tracking(remote, updates[i].branch)
                == name;
        assert(i < n - 1 || i == n - 1);
    }
    if brings_head(updates, n, k, name) {
        let i = choose|i: int|
            0 <= i < n && (#[trigger] updates[i]).rev == k && updates[i].branch == name;
        assert(i < n - 1 || i == n - 1);
    }
}

/// What the commit of an update becomes.
proof fn lemma_targeted_commit(
    before: CommitView,
    now: CommitView,
    updates: Seq<RefUpdateView>,
    n: int,
    remote: Text,
)
    requires
        0 < n <= updates.len(),
        branches_differ(updates),
        commit_published(before, now, updates, n - 1, remote, updates[n - 1].rev),
    ensures
        commit_published(
            before,
            targeted(now, updates[n - 1], remote),
            updates,
            n,
            remote,
            updates[n - 1].rev,
        ),
{
    let update = updates[n - 1];
    let k = update.rev;
    let there = tracking(remote, update.branch);
    let after = targeted(now, update, remote);
    lemma_aimed_step(updates, n, k);
    assert(aimed_at(updates, n, k));
    assert(moved_remotes(updates, remote).contains(there));
    assert(!brings_remote(updates, n - 1, remote, k, there)) by {
        if brings_remote(updates, n - 1, remote, k, there) {
            let i = choose|i: int|
                0 <= i < n - 1 && (#[trigger] updates[i]).rev == k && tracking(
                    remote,
                    updates[i].branch,
                ) == there;
            lemma_tracking_differs(remote, updates[i].branch, update.branch);
        }
    }
    assert(times(now.remote_refs, there) == 0);
    let more = with_name(now.remote_refs, there);
    lemma_put_in_order(more);
    assert forall|name: Text| #[trigger] times(after.remote_refs, name) == if moved_remotes(
        updates,
        remote,
    ).contains(name) {
        if brings_remote(updates, n, remote, k, name) {
            1
        } else {
            0
        }
    } else {
        times(before.remote_refs, name)
    } by {
        lemma_times_with(now.remote_refs, there, name);
        lemma_brings_step(updates, n, remote, k, name);
        assert(times(in_order(more), name) == times(more, name));
        assert(times(now.remote_refs, name) == if moved_remotes(updates, remote).contains(name) {
            if brings_remote(updates, n - 1, remote, k, name) {
                1
            } else {
                0
            }
        } else {
            times(before.remote_refs, name)
        });
    }
    let layer = layer_prefix().is_prefix_of(update.branch);
    if layer {
        assert(moved_heads(updates).contains(update.branch));
        assert(!brings_head(updates, n - 1, k, update.branch)) by {
            if brings_head(updates, n - 1, k, update.branch) {
                let i = choose|i: int|
                    0 <= i < n - 1 && (#[trigger] updates[i]).rev == k && updates[i].branch
                        == update.branch;
                assert(updates[i].branch != updates[n - 1].branch);
            }
        }
        assert(times(now.local_refs, update.branch) == 0);
    }
    let here = if layer {
        with_name(now.local_refs, update.branch)
    } else {
        now.local_refs
    };
    lemma_put_in_order(here);
    assert forall|name: Text| #[trigger] times(after.local_refs, name) == if moved_heads(
        updates,
    ).contains(name) {
        if brings_head(updates, n, k, name) {
            1
        } else {
            0
        }
    } else {
        times(before.local_refs, name)
    } by {
        if layer {
            lemma_times_with(now.local_refs, update.branch, name);
        }
        lemma_brings_step(updates, n, remote, k, name);
        assert(times(in_order(here), name) == times(here, name));
        assert(times(now.local_refs, name) == if moved_heads(updates).contains(name) {
            if brings_head(updates, n - 1, k, name) {
                1
            } else {
                0
            }
        } else {
            times(before.local_refs, name)
        });
    }
}

/// Commits with the same parents lead to the same commits.
proof fn lemma_same_parents(a: Map<Text, CommitView>, b: Map<Text, CommitView>, p: Text, q: Text)
    requires
        a.dom() == b.dom(),
        forall|k: Text| #[trigger] a.contains_key(k) ==> a[k].parents == b[k].parents,
    ensures
        reaches(a, p, q) ==> reaches(b, p, q),
{
    if reaches(a, p, q) {
        let path = choose|path: Seq<Text>|
            #[trigger] is_path(a, path) && path[0] == p && path.last() == q;
        assert forall|i: int| 0 <= i < path.len() - 1 implies is_parent(
            b,
            #[trigger] path[i],
            path[i + 1],
        ) by {
            assert(is_parent(a, path[i], path[i + 1]));
            assert(a.contains_key(path[i]));
        }
        assert(is_path(b, path));
    }
}

/// What the preview shows.
proof fn lemma_kept(g: GraphView, plan: PlanView)
    requires
        known_by_id(g.commits),
        branches_differ(plan.updates),
        published(g, plan) is Ok,
    ensures
        ({
            let h = published(g, plan)->Ok_0;
            let kept = reached(g.commits, roots(h.commits, h.head));
            &&& known_by_id(h.commits)
            &&& h == reachable_part(
                GraphView {
                    commits: updated(cleared(g, plan), plan.updates, plan.options.remote)->Ok_0,
                    ..g
                },
            )
            &&& h.order == only(g.order, kept)
            &&& forall|k: Text| #[trigger]
                h.commits.contains_key(k) <==> g.commits.contains_key(k) && kept.contains(k)
            &&& forall|i: int|
                0 <= i < plan.updates.len() ==> h.commits.contains_key(
                    (#[trigger] plan.updates[i]).rev,
                )
        }),
{
    let updates = plan.updates;
    let remote = plan.options.remote;
    let n = updates.len() as int;
    assert(updates.take(n) =~= updates);
    lemma_updates(g, plan, n);
    let commits = updated(cleared(g, plan), updates, remote)->Ok_0;
    let h = published(g, plan)->Ok_0;
    assert forall|k: Text| #[trigger] commits.contains_key(k) implies {
        &&& g.commits.contains_key(k)
        &&& commits[k].id == k
        &&& commits[k].parents == g.commits[k].parents
    } by {
        assert(commit_published(g.commits[k], commits[k], updates, n, remote, k));
    }
    let ends = roots(commits, g.head);
    let shown = roots(h.commits, h.head);
    assert forall|id: Text| ends.contains(id) == shown.contains(id) by {
        if ends.contains(id) && id != g.head {
            let k = choose|k: Text| #[trigger]
                commits.contains_key(k) && commits[k].id == id && has_refs(commits[k]);
            lemma_reaches_self(commits, k);
            assert(reached(commits, ends).contains(k));
            assert(h.commits.contains_key(k));
        }
        if shown.contains(id) && id != g.head {
            let k = choose|k: Text| #[trigger]
                h.commits.contains_key(k) && h.commits[k].id == id && has_refs(h.commits[k]);
            assert(commits.contains_key(k));
        }
    }
    assert(ends =~= shown);
    let kept = reached(g.commits, shown);
    assert forall|id: Text| reached(commits, ends).contains(id) == kept.contains(id) by {
        if reached(commits, ends).contains(id) {
            let root = choose|root: Text| ends.contains(root) && reaches(commits, root, id);
            lemma_same_parents(commits, g.commits, root, id);
        }
        if kept.contains(id) {
            let root = choose|root: Text| shown.contains(root) && reaches(g.commits, root, id);
            assert forall|k: Text| #[trigger] g.commits.contains_key(k) implies g.commits[k].parents
                == commits[k].parents by {
                assert(commits.contains_key(k));
            }
            lemma_same_parents(g.commits, commits, root, id);
        }
    }
    assert(reached(commits, ends) =~= kept);
    lemma_updated_ok(cleared(g, plan), updates, remote, n);
    assert forall|i: int| 0 <= i < n implies h.commits.contains_key((#[trigger] updates[i]).rev) by {
        let k = updates[i].rev;
        assert(cleared(g, plan).contains_key(k));
        assert(commits.contains_key(k));
        assert(commit_published(g.commits[k], commits[k], updates, n, remote, k));
        let there = tracking(remote, updates[i].branch);
        assert(moved_remotes(updates, remote).contains(there));
        assert(brings_remote(updates, n, remote, k, there));
        assert(times(commits[k].remote_refs, there) == 1);
        vstd::seq_lib::to_multiset_contains(commits[k].remote_refs, there);
        assert(has_refs(commits[k]));
        lemma_reaches_self(commits, k);
        assert(ends.contains(k));
        assert(reached(commits, ends).contains(k));
    }
}

/// A publication that is shown changes nothing where it is shown already.
proof fn lemma_again(g: GraphView, plan: PlanView)
    requires
        known_by_id(g.commits),
        branches_differ(plan.updates),
        published(g, plan) is Ok,
    ensures
        published(published(g, plan)->Ok_0, plan) == published(g, plan),
{
    let updates = plan.updates;
    let remote = plan.options.remote;
    let n = updates.len() as int;
    let local = moved_heads(updates);
    let there = moved_remotes(updates, remote);
    let h = published(g, plan)->Ok_0;
    assert(updates.take(n) =~= updates);
    lemma_kept(g, plan);
    lemma_updates(g, plan, n);
    let commits = updated(cleared(g, plan), updates, remote)->Ok_0;
    assert(cleared(h, plan).dom() =~= h.commits.dom());
    lemma_updated_ok(cleared(h, plan), updates, remote, n);
    assert forall|i: int| 0 <= i < n implies cleared(h, plan).contains_key(
        (#[trigger] updates[i]).rev,
    ) by {
        assert(h.commits.contains_key(updates[i].rev));
    }
    lemma_updates(h, plan, n);
    let again = updated(cleared(h, plan), updates, remote)->Ok_0;
    assert forall|k: Text| #[trigger] again.contains_key(k) implies again[k] == h.commits[k] by {
        assert(h.commits.contains_key(k));
        assert(h.commits[k] == commits[k]);
        let was = h.commits[k];
        assert(commit_published(g.commits[k], was, updates, n, remote, k));
        assert(commit_published(was, again[k], updates, n, remote, k));
        assert forall|name: Text| #[trigger] times(again[k].remote_refs, name) == times(
            was.remote_refs,
            name,
        ) by {}
        assert forall|name: Text| #[trigger] times(again[k].local_refs, name) == times(
            was.local_refs,
            name,
        ) by {}
        if aimed_at(updates, n, k) {
            lemma_in_order_unique(again[k].remote_refs, was.remote_refs);
            lemma_in_order_unique(again[k].local_refs, was.local_refs);
        } else {
            let first = g.commits[k];
            lemma_without_twice(first.remote_refs, there);
            lemma_without_twice(first.local_refs, local);
        }
    }
    assert(again =~= h.commits);
    law_reachable_part(GraphView { commits, ..g });
    assert(GraphView { commits: again, ..h } == h);
}

/// Names that are taken out are taken out once.
proof fn lemma_without_twice(names: Seq<Text>, gone: Set<Text>)
    ensures
        without_all(without_all(names, gone), gone) == without_all(names, gone),
    decreases names.len(),
{
    reveal(Seq::filter);
    let p = |x: Text| !gone.contains(x);
    if names.len() > 0 {
        let init = names.drop_last();
        lemma_without_twice(init, gone);
        if p(names.last()) {
            let once = init.filter(p).push(names.last());
            assert(once.drop_last() =~= init.filter(p));
        }
    } else {
        assert(without_all(names, gone) =~= Seq::<Text>::empty());
        assert(Seq::<Text>::empty().filter(p) =~= Seq::<Text>::empty());
    }
}

/// Whether a commit is shown by itself: it is checked out, or something points at it.
pub open spec fn pointed_at(g: GraphView, k: Text) -> bool {
    k == g.head || g.commits.contains_key(k) && (g.commits[k].local_refs.len() > 0
        || g.commits[k].remote_refs.len() > 0 || g.commits[k].tags.len() > 0)
}

/// The preview of a publication drops a commit only where neither the head nor a branch nor
/// a tag leads to it any more, and drops every such commit.
pub proof fn law_published_graphs_keep_what_is_pointed_at(
    g: GraphView,
    plan: PlanView,
    h: GraphView,
    k: Text,
)
    requires
        known_by_id(g.commits),
        branches_differ(plan.updates),
        published(g, plan) == Ok::<GraphView, Text>(h),
        g.commits.contains_key(k),
    ensures
        h.commits.contains_key(k) <==> exists|root: Text| #[trigger]
            pointed_at(h, root) && reaches(g.commits, root, k),
        forall|x: Text| #[trigger] h.order.contains(x) ==> g.order.contains(x),
        g.order.contains(k) && h.commits.contains_key(k) ==> h.order.contains(k),
{
    law_published_graph(g, plan);
    let tops = roots(h.commits, h.head);
    let kept = reached(g.commits, tops);
    assert forall|root: Text| #[trigger] pointed_at(h, root) <==> tops.contains(root) by {
        if tops.contains(root) && root != h.head {
            let at = choose|at: Text| #[trigger]
                h.commits.contains_key(at) && h.commits[at].id == root && has_refs(h.commits[at]);
            assert(commit_published(
                g.commits[at],
                h.commits[at],
                plan.updates,
                plan.updates.len() as int,
                plan.options.remote,
                at,
            ));
            assert(at == root);
        }
        if pointed_at(h, root) && root != h.head {
            assert(h.commits.contains_key(root));
            assert(commit_published(
                g.commits[root],
                h.commits[root],
                plan.updates,
                plan.updates.len() as int,
                plan.options.remote,
                root,
            ));
            assert(h.commits[root].id == root && has_refs(h.commits[root]));
        }
    }
    if kept.contains(k) {
        let root = choose|root: Text| tops.contains(root) && reaches(g.commits, root, k);
        assert(pointed_at(h, root));
    }
    if exists|root: Text| #[trigger] pointed_at(h, root) && reaches(g.commits, root, k) {
        let root = choose|root: Text| #[trigger]
            pointed_at(h, root) && reaches(g.commits, root, k);
        assert(tops.contains(root) && reaches(g.commits, root, k));
    }
    assert forall|x: Text| #[trigger] h.order.contains(x) implies g.order.contains(x) by {
        lemma_only_members(g.order, kept, x);
    }
    lemma_only_members(g.order, kept, k);
}

proof fn lemma_only_members(v: Seq<Text>, kept: Set<Text>, x: Text)
    ensures
        only(v, kept).contains(x) <==> v.contains(x) && kept.contains(x),
    decreases v.len(),
{
    reveal(Seq::filter);
    if v.len() > 0 {
        let init = v.drop_last();
        lemma_only_members(init, kept, x);
        assert(v =~= init.push(v.last()));
        vstd::seq_lib::lemma_seq_contains_after_push(init, v.last(), x);
        vstd::seq_lib::lemma_seq_contains_after_push(only(init, kept), v.last(), x);
    }
}

/// In the preview of a publication every branch that is not published stays where it is: a
/// local one, but for those of layers, as often as before, and so a remote one of which no
/// branch is pushed. Parents, subjects, tags, conflicts and what is checked out stay.
pub proof fn law_other_branches_stay(
    g: GraphView,
    plan: PlanView,
    h: GraphView,
    k: Text,
    name: Text,
)
    requires
        known_by_id(g.commits),
        branches_differ(plan.updates),
        published(g, plan) == Ok::<GraphView, Text>(h),
        h.commits.contains_key(k),
    ensures
        g.commits.contains_key(k),
        h.commits[k].id == k,
        h.commits[k].parents == g.commits[k].parents,
        h.commits[k].subject == g.commits[k].subject,
        h.commits[k].tags == g.commits[k].tags,
        h.commits[k].is_head == g.commits[k].is_head,
        h.commits[k].conflict == g.commits[k].conflict,
        h.commits[k].preview <==> g.commits[k].preview || exists|i: int|
            0 <= i < plan.updates.len() && (#[trigger] plan.updates[i]).rev == k,
        !"fs-head/"@.is_prefix_of(name) || (forall|i: int|
            0 <= i < plan.updates.len() ==> (#[trigger] plan.updates[i]).branch != name) ==> times(
            h.commits[k].local_refs,
            name,
        ) == times(g.commits[k].local_refs, name),
        (forall|i: int|
            0 <= i < plan.updates.len() ==> plan.options.remote + "/"@ + (
            #[trigger] plan.updates[i]).branch != name) ==> times(h.commits[k].remote_refs, name)
            == times(g.commits[k].remote_refs, name),
{
    law_published_graph(g, plan);
    assert(commit_published(
        g.commits[k],
        h.commits[k],
        plan.updates,
        plan.updates.len() as int,
        plan.options.remote,
        k,
    ));
    assert(times(h.commits[k].local_refs, name) == times(h.commits[k].local_refs, name));
    assert(times(h.commits[k].remote_refs, name) == times(h.commits[k].remote_refs, name));
}

} // verus!
