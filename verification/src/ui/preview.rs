//! Graphs as they would be after a rearrangement or a publication.

use crate::dict::Dict;
use crate::order::{
    contains, copy, distinct, in_order, keep_first, keep_only, only, remove_all, sort_strings,
    views, without_all,
};
use crate::stack::submit::{PlanView, RefUpdate, RefUpdateView, SubmitPlan};
use crate::text::{copy_option, starts_with, texts, Text};
use crate::ui::history::reached;
use crate::ui::model::{Commit, CommitView, Graph, GraphView, MovePlan, MoveView};
use crate::ui::moves::{layer_prefix, other_than};
use vstd::hash_set::StringHashSet;
use vstd::prelude::*;

verus! {

/// The id of the commit that stands for a rewritten one.
pub open spec fn virtual_id(id: Text) -> Text {
    "preview:"@ + id
}

/// A rewritten commit on its new parent. Local refs follow it, remote refs and
/// tags do not.
pub open spec fn rewritten(commit: CommitView, id: Text, parent: Text) -> CommitView {
    CommitView {
        id: virtual_id(id),
        parents: seq![parent],
        preview: true,
        remote_refs: Seq::empty(),
        tags: Seq::empty(),
        is_head: false,
        ..commit
    }
}

/// The commits with the rewritten ones added, a chain that starts at `base`.
pub open spec fn with_rewritten(
    commits: Map<Text, CommitView>,
    ids: Seq<Text>,
    base: Text,
) -> Map<Text, CommitView>
    decreases ids.len(),
{
    if ids.len() == 0 {
        commits
    } else {
        let id = ids.last();
        let parent = if ids.len() == 1 {
            base
        } else {
            virtual_id(ids[ids.len() - 2])
        };
        with_rewritten(commits, ids.drop_last(), base).insert(
            virtual_id(id),
            rewritten(commits[id], id, parent),
        )
    }
}

/// A commit that nothing local points at any more.
pub open spec fn abandoned(commit: CommitView) -> CommitView {
    CommitView { local_refs: Seq::empty(), is_head: false, ..commit }
}

/// The commits, with those in `ids` abandoned.
pub open spec fn with_abandoned(commits: Map<Text, CommitView>, ids: Seq<Text>) -> Map<
    Text,
    CommitView,
> {
    Map::new(
        |k: Text| commits.contains_key(k),
        |k: Text|
            if ids.contains(k) {
                abandoned(commits[k])
            } else {
                commits[k]
            },
    )
}

/// A commit without a branch.
pub open spec fn without_branch(commit: CommitView, name: Text) -> CommitView {
    CommitView { local_refs: commit.local_refs.filter(other_than(name)), ..commit }
}

/// A commit with a branch, which is in its place among the others.
pub open spec fn with_branch(commit: CommitView, name: Text) -> CommitView {
    if commit.local_refs.contains(name) {
        commit
    } else {
        CommitView { local_refs: in_order(commit.local_refs.push(name)), ..commit }
    }
}

/// A commit that is checked out.
pub open spec fn checked_out(commit: CommitView) -> CommitView {
    CommitView { is_head: true, ..commit }
}

/// The commits with the checked-out branch at the end of the rewritten chain. An
/// ordinary branch follows the last commit; the branches of a stack's layers stay
/// with the commits that they were at.
pub open spec fn with_head(commits: Map<Text, CommitView>, plan: MoveView) -> Map<Text, CommitView> {
    let tip = virtual_id(plan.tip_commit);
    let end = virtual_id(plan.commits.last());
    if plan.detach_for_rewrite {
        commits.insert(end, checked_out(commits[end]))
    } else {
        let left = commits.insert(tip, without_branch(commits[tip], plan.tip));
        left.insert(end, checked_out(with_branch(left[end], plan.tip)))
    }
}

/// The ids of the rewritten commits, newest first.
pub open spec fn virtual_order(ids: Seq<Text>) -> Seq<Text> {
    Seq::new(ids.len(), |i: int| virtual_id(ids[ids.len() - 1 - i]))
}

/// The graph after a rearrangement. Real commits and remote refs stay where they
/// are; local refs and the head follow the rewritten commits, which are shown
/// first.
pub open spec fn previewed(g: GraphView, plan: MoveView) -> Result<GraphView, Text> {
    if exists|i: int| 0 <= i < plan.commits.len() && !g.commits.contains_key(#[trigger] plan.commits[i])
    {
        let first = choose|i: int|
            0 <= i < plan.commits.len() && !g.commits.contains_key(#[trigger] plan.commits[i])
                && forall|j: int| 0 <= j < i ==> g.commits.contains_key(#[trigger] plan.commits[j]);
        Err("unknown commit "@ + plan.commits[first])
    } else if !plan.commits.contains(plan.tip_commit) {
        Err("tip was not rewritten"@)
    } else {
        let base = if plan.include_descendants {
            plan.destination
        } else {
            plan.base
        };
        let commits = with_abandoned(
            with_rewritten(g.commits, plan.commits, base),
            plan.commits,
        );
        Ok(
            GraphView {
                commits: with_head(commits, plan),
                order: distinct(virtual_order(plan.commits) + g.order),
                head: virtual_id(plan.commits.last()),
                branch: Some(plan.checkout_branch),
            },
        )
    }
}

/// What a graph or an error holds.
pub open spec fn graph_result(r: Result<Graph, String>) -> Result<GraphView, Text> {
    match r {
        Ok(graph) => Ok(graph@),
        Err(error) => Err(error@),
    }
}

fn virtual_name(id: &str) -> (r: String)
    ensures
        r@ == virtual_id(id@),
{
    "preview:".to_owned().concat(id)
}

/// All strings but `name`.
fn drop_name(v: &Vec<String>, name: &str) -> (r: Vec<String>)
    ensures
        texts(r@) == texts(v@).filter(other_than(name@)),
{
    let mut gone = StringHashSet::new();
    gone.insert(name.to_owned());
    let r = remove_all(v, &gone);
    proof {
        assert((|x: Text| !gone@.contains(x)) =~= other_than(name@));
    }
    r
}

/// The commits of a plan have their virtual ids among the rewritten ones.
proof fn lemma_rewritten_present(
    commits: Map<Text, CommitView>,
    ids: Seq<Text>,
    base: Text,
    id: Text,
)
    requires
        ids.contains(id),
    ensures
        with_rewritten(commits, ids, base).contains_key(virtual_id(id)),
    decreases ids.len(),
{
    if ids.last() != id {
        let i = ids.index_of(id);
        assert(ids.drop_last()[i] == id);
        lemma_rewritten_present(commits, ids.drop_last(), base, id);
    }
}

impl Graph {
    /// Adds the rewritten commits of a plan to `commits`.
    fn add_rewritten(&self, commits: &mut Dict<Commit>, ids: &Vec<String>, base: &str) -> (r: Result<
        (),
        String,
    >)
        requires
            old(commits)@ == self@.commits,
        ensures
            match r {
                Ok(()) => {
                    &&& forall|i: int|
                        0 <= i < ids.len() ==> self@.commits.contains_key((#[trigger] ids@[i])@)
                    &&& final(commits)@ == with_rewritten(self@.commits, texts(ids@), base@)
                },
                Err(error) => exists|i: int|
                    #![trigger ids@[i]]
                    0 <= i < ids.len() && !self@.commits.contains_key(ids@[i]@) && error@
                        == "unknown commit "@ + ids@[i]@ && forall|j: int|
                        0 <= j < i ==> self@.commits.contains_key((#[trigger] ids@[j])@),
            },
    {
        let ghost all = texts(ids@);
        let ghost original = self@.commits;
        let mut parent = base.to_owned();
        let mut i: usize = 0;
        assert(all.take(0) =~= Seq::<Text>::empty());
        while i < ids.len()
            invariant
                i <= ids.len(),
                all == texts(ids@),
                original == self@.commits,
                forall|j: int| 0 <= j < i ==> original.contains_key((#[trigger] ids@[j])@),
                commits@ == with_rewritten(original, all.take(i as int), base@),
                parent@ == if i == 0 {
                    base@
                } else {
                    virtual_id(all[i - 1])
                },
            decreases ids.len() - i,
        {
            let ghost id = all[i as int];
            let mut commit = match self.commits.get(ids[i].as_str()) {
                Some(commit) => commit.clone(),
                None => {
                    assert(!original.contains_key(ids@[i as int]@));
                    return Err("unknown commit ".to_owned().concat(ids[i].as_str()));
                },
            };
            let name = virtual_name(ids[i].as_str());
            let mut parents: Vec<String> = Vec::new();
            parents.push(parent);
            commit.id = name.clone();
            commit.parents = parents;
            commit.preview = true;
            commit.remote_refs = Vec::new();
            commit.tags = Vec::new();
            commit.is_head = false;
            proof {
                assert(texts(commit.parents@) =~= seq![parent@]);
                assert(texts(commit.remote_refs@) =~= Seq::<Text>::empty());
                assert(texts(commit.tags@) =~= Seq::<Text>::empty());
                assert(commit@ == rewritten(original[id], id, parent@));
                assert(all.take(i + 1).drop_last() =~= all.take(i as int));
                assert(all.take(i + 1).last() == id);
            }
            let ghost was = commits@;
            commits.insert(name.clone(), commit);
            assert(commits@ =~= was.insert(name@, commit@));
            parent = name;
            i = i + 1;
        }
        assert(all.take(all.len() as int) =~= all);
        Ok(())
    }

    /// The graph as it would be after a rearrangement. Real commits and remote
    /// refs stay put; local refs and HEAD follow the rewritten commits.
    pub fn preview(&self, plan: &MovePlan) -> (r: Result<Self, String>)
        ensures
            graph_result(r) == previewed(self@, plan@),
    {
        let ghost g = self@;
        let ghost p = plan@;
        let mut graph = self.clone();
        let base = if plan.include_descendants {
            plan.destination.clone()
        } else {
            plan.base.clone()
        };
        match self.add_rewritten(&mut graph.commits, &plan.commits, base.as_str()) {
            Ok(()) => {
                proof {
                    assert forall|i: int| 0 <= i < p.commits.len() implies g.commits.contains_key(
                        #[trigger] p.commits[i],
                    ) by {
                        assert(g.commits.contains_key(plan.commits@[i]@));
                    }
                }
            },
            Err(error) => {
                proof {
                    let i = choose|i: int|
                        #![trigger plan.commits@[i]]
                        0 <= i < plan.commits.len() && !g.commits.contains_key(plan.commits@[i]@)
                            && error@ == "unknown commit "@ + plan.commits@[i]@ && forall|j: int|
                            0 <= j < i ==> g.commits.contains_key((#[trigger] plan.commits@[j])@);
                    assert(p.commits[i] == plan.commits@[i]@);
                    assert forall|j: int| 0 <= j < i implies g.commits.contains_key(
                        #[trigger] p.commits[j],
                    ) by {
                        assert(g.commits.contains_key(plan.commits@[j]@));
                    }
                    let first = choose|i: int|
                        0 <= i < p.commits.len() && !g.commits.contains_key(
                            #[trigger] p.commits[i],
                        ) && forall|j: int|
                            0 <= j < i ==> g.commits.contains_key(#[trigger] p.commits[j]);
                    assert(first == i);
                }
                return Err(error);
            },
        }
        let ghost added = graph.commits@;
        let mut i: usize = 0;
        while i < plan.commits.len()
            invariant
                i <= plan.commits.len(),
                p == plan@,
                graph.commits@ == with_abandoned(added, p.commits.take(i as int)),
                graph@.order == g.order,
            decreases plan.commits.len() - i,
        {
            let ghost was = graph.commits@;
            let ghost raw = graph.commits.raw();
            let ghost id = p.commits[i as int];
            proof {
                assert(p.commits.take(i + 1) =~= p.commits.take(i as int).push(id));
                assert forall|x: Text| #[trigger] p.commits.take(i + 1).contains(x)
                    == (p.commits.take(i as int).contains(x) || x == id) by {
                    vstd::seq_lib::lemma_seq_contains_after_push(p.commits.take(i as int), id, x);
                }
            }
            match graph.commits.get_mut(plan.commits[i].as_str()) {
                Some(commit) => {
                    let ghost before = commit@;
                    commit.local_refs = Vec::new();
                    commit.is_head = false;
                    assert(texts(commit.local_refs@) =~= Seq::<Text>::empty());
                    assert(commit@ =~~= abandoned(before));
                },
                None => {},
            }
            proof {
                let wanted = with_abandoned(added, p.commits.take(i + 1));
                assert(was.dom() =~= added.dom());
                assert(graph.commits.raw().dom() =~= raw.dom());
                assert(graph.commits@.dom() =~= added.dom());
                assert forall|k: Text| #[trigger] added.contains_key(k) implies graph.commits@[k]
                    == wanted[k] by {
                    assert(was[k] == with_abandoned(added, p.commits.take(i as int))[k]);
                    assert(p.commits.take(i + 1).contains(k) == (p.commits.take(i as int).contains(k)
                        || k == id));
                    if k == id {
                        assert(graph.commits@[k] == abandoned(was[k]));
                        assert(abandoned(abandoned(added[k])) =~~= abandoned(added[k]));
                    } else {
                        assert(graph.commits@[k] == was[k]);
                    }
                }
                assert(graph.commits@ =~= wanted);
            }
            i = i + 1;
        }
        assert(p.commits.take(p.commits.len() as int) =~= p.commits);
        if !contains(&plan.commits, plan.tip_commit.as_str()) {
            return Err("tip was not rewritten".to_owned());
        }
        let n = plan.commits.len();
        let tip = virtual_name(plan.tip_commit.as_str());
        let end = virtual_name(plan.commits[n - 1].as_str());
        let ghost before_head = graph.commits@;
        proof {
            assert(p.commits.contains(p.commits.last()));
            lemma_rewritten_present(g.commits, p.commits, base@, p.tip_commit);
            lemma_rewritten_present(g.commits, p.commits, base@, p.commits.last());
        }
        if !plan.detach_for_rewrite {
            match graph.commits.get_mut(tip.as_str()) {
                Some(commit) => {
                    let ghost before = commit@;
                    commit.local_refs = drop_name(&commit.local_refs, plan.tip.as_str());
                    assert(commit@ =~~= without_branch(before, p.tip));
                },
                None => {},
            }
            assert(graph.commits@ =~= before_head.insert(
                tip@,
                without_branch(before_head[tip@], p.tip),
            ));
        }
        let ghost left = graph.commits@;
        match graph.commits.get_mut(end.as_str()) {
            Some(commit) => {
                let ghost before = commit@;
                if !plan.detach_for_rewrite && !contains(&commit.local_refs, plan.tip.as_str()) {
                    let mut names = copy(&commit.local_refs);
                    names.push(plan.tip.clone());
                    assert(texts(names@) =~= before.local_refs.push(p.tip));
                    commit.local_refs = sort_strings(names);
                }
                commit.is_head = true;
                assert(commit@ =~~= checked_out(
                    if p.detach_for_rewrite {
                        before
                    } else {
                        with_branch(before, p.tip)
                    },
                ));
            },
            None => {},
        }
        assert(graph.commits@ =~= with_head(before_head, p));
        let mut order: Vec<String> = Vec::new();
        let mut i: usize = n;
        while i > 0
            invariant
                i <= n == plan.commits.len(),
                p == plan@,
                texts(order@) == virtual_order(p.commits).take(n - i),
            decreases i,
        {
            i = i - 1;
            let ghost was = texts(order@);
            order.push(virtual_name(plan.commits[i].as_str()));
            assert(texts(order@) =~= was.push(virtual_id(p.commits[i as int])));
            assert(texts(order@) =~= virtual_order(p.commits).take(n - i));
        }
        assert(texts(order@) =~= virtual_order(p.commits));
        let mut rest = copy(&self.order);
        order.append(&mut rest);
        assert(texts(order@) =~= virtual_order(p.commits) + g.order);
        graph.order = keep_first(&order);
        graph.head = end;
        graph.branch = Some(plan.checkout_branch.clone());
        Ok(graph)
    }
}

/// The layer branches that a publication moves.
pub open spec fn moved_heads(updates: Seq<RefUpdateView>) -> Set<Text> {
    Set::new(
        |name: Text|
            layer_prefix().is_prefix_of(name) && exists|i: int|
                0 <= i < updates.len() && (#[trigger] updates[i]).branch == name,
    )
}

/// The remote-tracking name of a branch.
pub open spec fn tracking(remote: Text, branch: Text) -> Text {
    remote + "/"@ + branch
}

/// The remote branches that a publication moves.
pub open spec fn moved_remotes(updates: Seq<RefUpdateView>, remote: Text) -> Set<Text> {
    Set::new(
        |name: Text|
            exists|i: int|
                0 <= i < updates.len() && tracking(remote, (#[trigger] updates[i]).branch) == name,
    )
}

/// A commit without the refs that move.
pub open spec fn without_refs(commit: CommitView, local: Set<Text>, remote: Set<Text>) -> CommitView {
    CommitView {
        local_refs: without_all(commit.local_refs, local),
        remote_refs: without_all(commit.remote_refs, remote),
        ..commit
    }
}

/// A list with a name in it.
pub open spec fn with_name(names: Seq<Text>, name: Text) -> Seq<Text> {
    if names.contains(name) {
        names
    } else {
        names.push(name)
    }
}

/// A commit that an update makes a branch point at.
pub open spec fn targeted(commit: CommitView, update: RefUpdateView, remote: Text) -> CommitView {
    CommitView {
        preview: true,
        local_refs: in_order(
            if layer_prefix().is_prefix_of(update.branch) {
                with_name(commit.local_refs, update.branch)
            } else {
                commit.local_refs
            },
        ),
        remote_refs: in_order(with_name(commit.remote_refs, tracking(remote, update.branch))),
        ..commit
    }
}

/// The commits after the updates, one by one.
pub open spec fn updated(
    commits: Map<Text, CommitView>,
    updates: Seq<RefUpdateView>,
    remote: Text,
) -> Result<Map<Text, CommitView>, Text>
    decreases updates.len(),
{
    if updates.len() == 0 {
        Ok(commits)
    } else {
        match updated(commits, updates.drop_last(), remote) {
            Err(error) => Err(error),
            Ok(done) => {
                let update = updates.last();
                if done.contains_key(update.rev) {
                    Ok(done.insert(update.rev, targeted(done[update.rev], update, remote)))
                } else {
                    Err("publish target "@ + update.rev + " is not visible in the graph"@)
                }
            },
        }
    }
}

/// Whether a commit has a branch, a remote branch or a tag.
pub open spec fn has_refs(commit: CommitView) -> bool {
    commit.local_refs.len() > 0 || commit.remote_refs.len() > 0 || commit.tags.len() > 0
}

/// What points at commits: the head and every ref.
pub open spec fn roots(commits: Map<Text, CommitView>, head: Text) -> Set<Text> {
    Set::new(
        |id: Text|
            id == head || exists|k: Text| #[trigger]
                commits.contains_key(k) && commits[k].id == id && has_refs(commits[k]),
    )
}

/// The commits whose ids are in `kept`.
pub open spec fn restricted(commits: Map<Text, CommitView>, kept: Set<Text>) -> Map<
    Text,
    CommitView,
> {
    Map::new(|k: Text| commits.contains_key(k) && kept.contains(k), |k: Text| commits[k])
}

/// The part of a graph that the head or a ref leads to.
pub open spec fn reachable_part(g: GraphView) -> GraphView {
    let kept = reached(g.commits, roots(g.commits, g.head));
    GraphView { commits: restricted(g.commits, kept), order: only(g.order, kept), ..g }
}

/// The graph after a publication: each ref of the plan is at its commit and at no
/// other, and commits that nothing leads to any more are gone.
pub open spec fn published(g: GraphView, plan: PlanView) -> Result<GraphView, Text> {
    let remote = plan.options.remote;
    let local_moved = moved_heads(plan.updates);
    let remote_moved = moved_remotes(plan.updates, remote);
    let cleared = g.commits.map_values(
        |commit: CommitView| without_refs(commit, local_moved, remote_moved),
    );
    match updated(cleared, plan.updates, remote) {
        Err(error) => Err(error),
        Ok(commits) => Ok(reachable_part(GraphView { commits, ..g })),
    }
}

/// The commits without the refs that move.
fn clear_refs(commits: &Dict<Commit>, local: &StringHashSet, remote: &StringHashSet) -> (r: Dict<
    Commit,
>)
    ensures
        r@ == commits@.map_values(|commit: CommitView| without_refs(commit, local@, remote@)),
{
    let ghost f = |commit: CommitView| without_refs(commit, local@, remote@);
    let mut r: Dict<Commit> = Dict::new();
    let n = commits.len();
    let ghost names = commits.names();
    let mut i: usize = 0;
    while i < n
        invariant
            i <= n,
            n == names.len(),
            names == commits.names(),
            f == (|commit: CommitView| without_refs(commit, local@, remote@)),
            forall|k: Text| #[trigger] r.raw().contains_key(k) <==> names.take(i as int).contains(k),
            forall|k: Text| #[trigger]
                r.raw().contains_key(k) ==> commits.raw().contains_key(k) && r.raw()[k]@ == f(
                    commits.raw()[k]@,
                ),
        decreases n - i,
    {
        let ghost was = names.take(i as int);
        let mut commit = commits.value(i).clone();
        let ghost before = commit@;
        commit.local_refs = remove_all(&commit.local_refs, local);
        commit.remote_refs = remove_all(&commit.remote_refs, remote);
        assert(commit@ =~~= f(before));
        r.insert(commits.key(i).clone(), commit);
        proof {
            assert(names.take(i + 1) =~= was.push(names[i as int]));
            assert forall|k: Text| #[trigger] r.raw().contains_key(k) <==> names.take(i + 1).contains(
                k,
            ) by {
                vstd::seq_lib::lemma_seq_contains_after_push(was, names[i as int], k);
            }
        }
        i = i + 1;
    }
    proof {
        assert(names.take(n as int) =~= names);
        assert(r@ =~= commits@.map_values(f));
    }
    r
}

/// The commits whose ids are in `kept`.
fn restrict(commits: &Dict<Commit>, kept: &StringHashSet) -> (r: Dict<Commit>)
    ensures
        r@ == restricted(commits@, kept@),
{
    let mut r: Dict<Commit> = Dict::new();
    let n = commits.len();
    let ghost names = commits.names();
    let mut i: usize = 0;
    while i < n
        invariant
            i <= n,
            n == names.len(),
            names == commits.names(),
            forall|k: Text| #[trigger]
                r.raw().contains_key(k) <==> names.take(i as int).contains(k) && kept@.contains(k),
            forall|k: Text| #[trigger]
                r.raw().contains_key(k) ==> commits.raw().contains_key(k) && r.raw()[k]@
                    == commits.raw()[k]@,
        decreases n - i,
    {
        let ghost was = names.take(i as int);
        proof {
            assert(names.take(i + 1) =~= was.push(names[i as int]));
            assert forall|k: Text| #[trigger] names.take(i + 1).contains(k) == (was.contains(k) || k
                == names[i as int]) by {
                vstd::seq_lib::lemma_seq_contains_after_push(was, names[i as int], k);
            }
        }
        let key = commits.key(i);
        if kept.contains(key.as_str()) {
            r.insert(key.clone(), commits.value(i).clone());
        }
        i = i + 1;
    }
    proof {
        assert(names.take(n as int) =~= names);
        assert(r@ =~= restricted(commits@, kept@));
    }
    r
}

impl Graph {
    /// What points at commits.
    fn root_ids(&self) -> (r: Vec<String>)
        ensures
            texts(r@).to_set() == roots(self@.commits, self@.head),
    {
        let ghost commits = self@.commits;
        let ghost wanted = roots(commits, self@.head);
        let mut r: Vec<String> = Vec::new();
        r.push(self.head.clone());
        assert(texts(r@)[0] == self.head@);
        let n = self.commits.len();
        let ghost names = self.commits.names();
        let mut i: usize = 0;
        while i < n
            invariant
                i <= n,
                n == names.len(),
                names == self.commits.names(),
                commits == self@.commits,
                wanted == roots(commits, self@.head),
                forall|k: Text| #[trigger] self.commits.raw().contains_key(k) <==> names.contains(k),
                texts(r@).contains(self.head@),
                forall|id: Text| #[trigger] texts(r@).contains(id) ==> wanted.contains(id),
                forall|j: int|
                    0 <= j < i && has_refs(commits[#[trigger] names[j]]) ==> texts(r@).contains(
                        commits[names[j]].id,
                    ),
            decreases n - i,
        {
            let commit = self.commits.value(i);
            let ghost k = names[i as int];
            assert(commits.contains_key(k) && commit@ == commits[k]);
            if commit.local_refs.len() > 0 || commit.remote_refs.len() > 0 || commit.tags.len() > 0 {
                let ghost was = texts(r@);
                r.push(commit.id.clone());
                proof {
                    assert(texts(r@) =~= was.push(commit.id@));
                    assert forall|x: Text|
                        #![trigger texts(r@).contains(x)]
                        #![trigger was.contains(x)]
                        texts(r@).contains(x) == (was.contains(x) || x == commit.id@) by {
                        vstd::seq_lib::lemma_seq_contains_after_push(was, commit.id@, x);
                    }
                }
            }
            i = i + 1;
        }
        proof {
            assert forall|id: Text| wanted.contains(id) implies texts(r@).to_set().contains(id) by {
                if id != self.head@ {
                    let k = choose|k: Text| #[trigger]
                        commits.contains_key(k) && commits[k].id == id && has_refs(commits[k]);
                    assert(self.commits.raw().contains_key(k));
                    let j = names.index_of(k);
                    assert(names[j] == k);
                    assert(texts(r@).contains(id));
                }
            }
            assert(texts(r@).to_set() =~= wanted);
        }
        r
    }

    /// Drops what neither the head nor a ref leads to.
    pub fn retain_reachable(&mut self)
        ensures
            final(self)@ == reachable_part(old(self)@),
    {
        let roots = self.root_ids();
        let kept = self.reachable(roots);
        self.commits = restrict(&self.commits, &kept);
        self.order = keep_only(&self.order, &kept);
    }

    /// Makes the branch of an update point at its commit.
    fn apply_update(&mut self, update: &RefUpdate, remote: &str) -> (r: Result<(), String>)
        ensures
            match r {
                Ok(()) => {
                    &&& old(self)@.commits.contains_key(update@.rev)
                    &&& final(self)@ == (GraphView {
                        commits: old(self)@.commits.insert(
                            update@.rev,
                            targeted(old(self)@.commits[update@.rev], update@, remote@),
                        ),
                        ..old(self)@
                    })
                },
                Err(error) => {
                    &&& !old(self)@.commits.contains_key(update@.rev)
                    &&& error@ == "publish target "@ + update@.rev
                        + " is not visible in the graph"@
                },
            },
    {
        let ghost was = self@.commits;
        match self.commits.get_mut(update.rev.as_str()) {
            None => Err(
                "publish target ".to_owned().concat(update.rev.as_str()).concat(
                    " is not visible in the graph",
                ),
            ),
            Some(commit) => {
                let ghost before = commit@;
                commit.preview = true;
                let name_there = remote.to_owned().concat("/").concat(update.branch.as_str());
                let mut local = copy(&commit.local_refs);
                if starts_with(update.branch.as_str(), "fs-head/") && !contains(
                    &commit.local_refs,
                    update.branch.as_str(),
                ) {
                    local.push(update.branch.clone());
                    assert(texts(local@) =~= before.local_refs.push(update.branch@));
                }
                let mut there = copy(&commit.remote_refs);
                if !contains(&commit.remote_refs, name_there.as_str()) {
                    there.push(name_there.clone());
                    assert(texts(there@) =~= before.remote_refs.push(name_there@));
                }
                commit.local_refs = sort_strings(local);
                commit.remote_refs = sort_strings(there);
                assert(commit@ =~~= targeted(before, update@, remote@));
                assert(self@.commits =~= was.insert(
                    update@.rev,
                    targeted(was[update@.rev], update@, remote@),
                ));
                Ok(())
            },
        }
    }

    /// The graph as it would be after a publication.
    pub fn publish_preview(&self, plan: &SubmitPlan) -> (r: Result<Self, String>)
        ensures
            graph_result(r) == published(self@, plan@),
    {
        let ghost updates = views(plan.updates@);
        let ghost remote = plan.options.remote@;
        let mut local_moved = StringHashSet::new();
        let mut remote_moved = StringHashSet::new();
        let mut i: usize = 0;
        while i < plan.updates.len()
            invariant
                i <= plan.updates.len(),
                updates == views(plan.updates@),
                remote == plan.options.remote@,
                local_moved@ == moved_heads(updates.take(i as int)),
                remote_moved@ == moved_remotes(updates.take(i as int), remote),
            decreases plan.updates.len() - i,
        {
            let update = &plan.updates[i];
            let ghost done = updates.take(i as int);
            let ghost more = updates.take(i + 1);
            let ghost was = (local_moved@, remote_moved@);
            assert(more =~= done.push(update@));
            if starts_with(update.branch.as_str(), "fs-head/") {
                local_moved.insert(update.branch.clone());
            }
            remote_moved.insert(
                plan.options.remote.clone().concat("/").concat(update.branch.as_str()),
            );
            proof {
                assert forall|name: Text|
                    moved_heads(more).contains(name) == local_moved@.contains(name) by {
                    if moved_heads(done).contains(name) {
                        let j = choose|j: int|
                            0 <= j < done.len() && (#[trigger] done[j]).branch == name;
                        assert(more[j].branch == name);
                    }
                    if moved_heads(more).contains(name) {
                        let j = choose|j: int|
                            0 <= j < more.len() && (#[trigger] more[j]).branch == name;
                        if j < done.len() {
                            assert(done[j].branch == name);
                        }
                    }
                    assert(more[i as int].branch == update.branch@);
                }
                assert forall|name: Text|
                    moved_remotes(more, remote).contains(name) == remote_moved@.contains(name) by {
                    if moved_remotes(done, remote).contains(name) {
                        let j = choose|j: int|
                            0 <= j < done.len() && tracking(remote, (#[trigger] done[j]).branch)
                                == name;
                        assert(tracking(remote, more[j].branch) == name);
                    }
                    if moved_remotes(more, remote).contains(name) {
                        let j = choose|j: int|
                            0 <= j < more.len() && tracking(remote, (#[trigger] more[j]).branch)
                                == name;
                        if j < done.len() {
                            assert(tracking(remote, done[j].branch) == name);
                        }
                    }
                    assert(more[i as int].branch == update.branch@);
                }
                assert(local_moved@ =~= moved_heads(more));
                assert(remote_moved@ =~= moved_remotes(more, remote));
            }
            i = i + 1;
        }
        assert(updates.take(updates.len() as int) =~= updates);
        let ghost cleared = self@.commits.map_values(
            |commit: CommitView| without_refs(commit, local_moved@, remote_moved@),
        );
        let mut graph = Graph {
            commits: clear_refs(&self.commits, &local_moved, &remote_moved),
            order: copy(&self.order),
            head: self.head.clone(),
            branch: copy_option(&self.branch),
        };
        let mut i: usize = 0;
        assert(updates.take(0) =~= Seq::<RefUpdateView>::empty());
        while i < plan.updates.len()
            invariant
                i <= plan.updates.len(),
                updates == views(plan.updates@),
                remote == plan.options.remote@,
                local_moved@ == moved_heads(updates),
                remote_moved@ == moved_remotes(updates, remote),
                cleared == self@.commits.map_values(
                    |commit: CommitView| without_refs(commit, local_moved@, remote_moved@),
                ),
                updated(cleared, updates.take(i as int), remote) == Ok::<
                    Map<Text, CommitView>,
                    Text,
                >(graph@.commits),
                graph@ == (GraphView { commits: graph@.commits, ..self@ }),
            decreases plan.updates.len() - i,
        {
            assert(updates.take(i + 1).drop_last() =~= updates.take(i as int));
            assert(updates.take(i + 1).last() == plan.updates@[i as int]@);
            match graph.apply_update(&plan.updates[i], plan.options.remote.as_str()) {
                Ok(()) => {},
                Err(error) => {
                    proof {
                        lemma_update_fails(cleared, updates, remote, i + 1, error@);
                    }
                    return Err(error);
                },
            }
            i = i + 1;
        }
        graph.retain_reachable();
        Ok(graph)
    }
}

/// What fails after some of the updates fails after all of them.
proof fn lemma_update_fails(
    commits: Map<Text, CommitView>,
    updates: Seq<RefUpdateView>,
    remote: Text,
    n: int,
    error: Text,
)
    requires
        0 <= n <= updates.len(),
        updated(commits, updates.take(n), remote) == Err::<Map<Text, CommitView>, Text>(error),
    ensures
        updated(commits, updates, remote) == Err::<Map<Text, CommitView>, Text>(error),
    decreases updates.len() - n,
{
    if n < updates.len() {
        assert(updates.take(n + 1).drop_last() =~= updates.take(n));
        lemma_update_fails(commits, updates, remote, n + 1, error);
    } else {
        assert(updates.take(n) =~= updates);
    }
}

} // verus!
