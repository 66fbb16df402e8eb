//! The commits of a repository, as the interactive view shows and rearranges
//! them.

use crate::dict::Dict;
use crate::order::{copy, views};
use crate::text::{copy_option, maybe, texts, Text};
use vstd::prelude::*;

verus! {

/// A commit and what points at it.
#[derive(Debug, PartialEq, Eq)]
pub struct Commit {
    pub id: String,
    pub parents: Vec<String>,
    pub subject: String,
    pub local_refs: Vec<String>,
    pub remote_refs: Vec<String>,
    pub tags: Vec<String>,
    pub is_head: bool,
    /// Whether the commit is shown as it would be.
    pub preview: bool,
    /// A conflict that the commit takes part in.
    pub conflict: Option<String>,
}

/// What a `Commit` holds.
#[verifier::ext_equal]
pub struct CommitView {
    pub id: Text,
    pub parents: Seq<Text>,
    pub subject: Text,
    pub local_refs: Seq<Text>,
    pub remote_refs: Seq<Text>,
    pub tags: Seq<Text>,
    pub is_head: bool,
    pub preview: bool,
    pub conflict: Option<Text>,
}

impl View for Commit {
    type V = CommitView;

    open spec fn view(&self) -> CommitView {
        CommitView {
            id: self.id@,
            parents: texts(self.parents@),
            subject: self.subject@,
            local_refs: texts(self.local_refs@),
            remote_refs: texts(self.remote_refs@),
            tags: texts(self.tags@),
            is_head: self.is_head,
            preview: self.preview,
            conflict: maybe(self.conflict),
        }
    }
}

impl Clone for Commit {
    fn clone(&self) -> (r: Self)
        ensures
            r@ == self@,
    {
        Commit {
            id: self.id.clone(),
            parents: copy(&self.parents),
            subject: self.subject.clone(),
            local_refs: copy(&self.local_refs),
            remote_refs: copy(&self.remote_refs),
            tags: copy(&self.tags),
            is_head: self.is_head,
            preview: self.preview,
            conflict: copy_option(&self.conflict),
        }
    }
}

/// A commit of which nothing is known.
pub open spec fn blank_commit() -> CommitView {
    CommitView {
        id: Seq::empty(),
        parents: Seq::empty(),
        subject: Seq::empty(),
        local_refs: Seq::empty(),
        remote_refs: Seq::empty(),
        tags: Seq::empty(),
        is_head: false,
        preview: false,
        conflict: None,
    }
}

impl Default for Commit {
    fn default() -> (r: Self)
        ensures
            r@ == blank_commit(),
    {
        let r = Commit {
            id: String::new(),
            parents: Vec::new(),
            subject: String::new(),
            local_refs: Vec::new(),
            remote_refs: Vec::new(),
            tags: Vec::new(),
            is_head: false,
            preview: false,
            conflict: None,
        };
        assert(r@ =~~= blank_commit());
        r
    }
}

/// The commits of a repository.
pub struct Graph {
    /// The commits by their ids.
    pub commits: Dict<Commit>,
    /// The ids in Git's stable topological order, newest first.
    pub order: Vec<String>,
    pub head: String,
    pub branch: Option<String>,
}

/// What a `Graph` holds.
#[verifier::ext_equal]
pub struct GraphView {
    pub commits: Map<Text, CommitView>,
    pub order: Seq<Text>,
    pub head: Text,
    pub branch: Option<Text>,
}

impl View for Graph {
    type V = GraphView;

    open spec fn view(&self) -> GraphView {
        GraphView {
            commits: self.commits@,
            order: texts(self.order@),
            head: self.head@,
            branch: maybe(self.branch),
        }
    }
}

/// A copy of commits by id.
fn copy_commits(commits: &Dict<Commit>) -> (r: Dict<Commit>)
    ensures
        r@ == commits@,
{
    let mut r: Dict<Commit> = Dict::new();
    let n = commits.len();
    let ghost names = commits.names();
    let mut i: usize = 0;
    while i < n
        invariant
            i <= n,
            n == names.len(),
            names == commits.names(),
            forall|k: Text| #[trigger] r.raw().contains_key(k) <==> names.take(i as int).contains(k),
            forall|k: Text| #[trigger]
                r.raw().contains_key(k) ==> commits.raw().contains_key(k) && r.raw()[k]@
                    == commits.raw()[k]@,
        decreases n - i,
    {
        let ghost was = names.take(i as int);
        let key = commits.key(i).clone();
        let value = commits.value(i).clone();
        r.insert(key, value);
        proof {
            assert(names.take(i + 1) =~= was.push(names[i as int]));
            assert forall|k: Text| #[trigger] r.raw().contains_key(k) <==> names.take(i + 1).contains(
                k,
            ) by {
                vstd::seq_lib::lemma_seq_contains_after_push(was, names[i as int], k);
            }
        }
        i = i + 1;
    }
    proof {
        assert(names.take(n as int) =~= names);
        assert(r@ =~= commits@);
    }
    r
}

impl Clone for Graph {
    fn clone(&self) -> (r: Self)
        ensures
            r@ == self@,
    {
        Graph {
            commits: copy_commits(&self.commits),
            order: copy(&self.order),
            head: self.head.clone(),
            branch: copy_option(&self.branch),
        }
    }
}

impl Default for Graph {
    fn default() -> (r: Self)
        ensures
            r@ == (GraphView {
                commits: Map::empty(),
                order: Seq::empty(),
                head: Seq::empty(),
                branch: None,
            }),
    {
        let r = Graph {
            commits: Dict::new(),
            order: Vec::new(),
            head: String::new(),
            branch: None,
        };
        assert(r@.commits =~= Map::empty());
        assert(r@.order =~= Seq::empty());
        assert(r@.head =~= Seq::empty());
        r
    }
}

/// The rearrangement of a stack.
#[derive(Debug, PartialEq, Eq)]
pub struct MovePlan {
    pub selected: String,
    pub destination: String,
    pub include_descendants: bool,
    pub base: String,
    /// Original parent of the carried substack. Substack insertion first
    /// rebases the carried commits from this base onto `destination`.
    pub source_base: String,
    /// Number of commits at the start of `commits` that belong to the carried
    /// substack. Any remaining commits are destination descendants replayed
    /// above the insertion.
    pub carried_count: usize,
    /// A local branch name when possible, otherwise a commit id.
    pub tip: String,
    pub tip_commit: String,
    /// Forkstack layer branches should follow their logical commits. Rebase
    /// them from detached HEAD so Git does not exclude the checked-out ref
    /// from `--update-refs`.
    pub detach_for_rewrite: bool,
    /// Local branch to check out at the resulting stack tip.
    pub checkout_branch: String,
    /// Local refs that should follow each logical commit during an explicit
    /// substack insertion rebase. Entries are `(commit, branch)`.
    pub ref_updates: Vec<(String, String)>,
    /// Old commit ids, in the order the rebase will replay them.
    pub commits: Vec<String>,
}

/// What a `MovePlan` holds.
#[verifier::ext_equal]
pub struct MoveView {
    pub selected: Text,
    pub destination: Text,
    pub include_descendants: bool,
    pub base: Text,
    pub source_base: Text,
    pub carried_count: nat,
    pub tip: Text,
    pub tip_commit: Text,
    pub detach_for_rewrite: bool,
    pub checkout_branch: Text,
    pub ref_updates: Seq<(Text, Text)>,
    pub commits: Seq<Text>,
}

impl View for MovePlan {
    type V = MoveView;

    open spec fn view(&self) -> MoveView {
        MoveView {
            selected: self.selected@,
            destination: self.destination@,
            include_descendants: self.include_descendants,
            base: self.base@,
            source_base: self.source_base@,
            carried_count: self.carried_count as nat,
            tip: self.tip@,
            tip_commit: self.tip_commit@,
            detach_for_rewrite: self.detach_for_rewrite,
            checkout_branch: self.checkout_branch@,
            ref_updates: views(self.ref_updates@),
            commits: texts(self.commits@),
        }
    }
}

impl Clone for MovePlan {
    fn clone(&self) -> (r: Self)
        ensures
            r@ == self@,
    {
        let mut ref_updates: Vec<(String, String)> = Vec::new();
        let mut i: usize = 0;
        while i < self.ref_updates.len()
            invariant
                i <= self.ref_updates.len(),
                ref_updates.len() == i,
                forall|j: int|
                    0 <= j < i ==> (#[trigger] ref_updates@[j])@ == self.ref_updates@[j]@,
            decreases self.ref_updates.len() - i,
        {
            let (commit, branch) = &self.ref_updates[i];
            ref_updates.push((commit.clone(), branch.clone()));
            i = i + 1;
        }
        assert(views(ref_updates@) =~= views(self.ref_updates@));
        MovePlan {
            selected: self.selected.clone(),
            destination: self.destination.clone(),
            include_descendants: self.include_descendants,
            base: self.base.clone(),
            source_base: self.source_base.clone(),
            carried_count: self.carried_count,
            tip: self.tip.clone(),
            tip_commit: self.tip_commit.clone(),
            detach_for_rewrite: self.detach_for_rewrite,
            checkout_branch: self.checkout_branch.clone(),
            ref_updates,
            commits: copy(&self.commits),
        }
    }
}

} // verus!
