//! Recording identities in the messages of a stack's commits.

use crate::dict::Dict;
use crate::order::views;
use crate::split::{join, joined, lines, lines_of};
use crate::stack::identity::{
    add_identity, body_without_identity, has_space, identity, law_added_identity_is_found, tagged,
    untagged,
};
use crate::stack::object::{object_id, parse_oid};
use crate::stack::submit::{
    paired_updates, refresh_updates, PlanView, StackCommit, StackCommitView, SubmitPlan,
};
use crate::text::{maybe, same, texts, trim_end, trimmed_end, Text};
use vstd::prelude::*;

verus! {

/// What a commit of the stack becomes: its parent, its message and, where the
/// commit has to be made anew, the text that it is made with.
pub struct RewriteStep {
    pub parent: String,
    pub message: String,
    pub text: Option<String>,
}

/// What a `RewriteStep` holds.
#[verifier::ext_equal]
pub struct StepView {
    pub parent: Text,
    pub message: Text,
    pub text: Option<Text>,
}

impl View for RewriteStep {
    type V = StepView;

    open spec fn view(&self) -> StepView {
        StepView { parent: self.parent@, message: self.message@, text: maybe(self.text) }
    }
}

/// What a commit becomes on a new parent. It is made anew when its parent or its
/// message changes.
pub open spec fn step_of(commit: StackCommitView, new_parent: Option<Text>) -> Result<
    StepView,
    Text,
> {
    let parent = match new_parent {
        Some(parent) => parent,
        None => commit.parent,
    };
    match tagged(commit.message, commit.branch) {
        Err(error) => Err(error),
        Ok(message) => Ok(
            StepView {
                parent,
                message,
                text: if parent == commit.parent && message == commit.message {
                    None
                } else {
                    Some(trim_end(message) + "\n"@)
                },
            },
        ),
    }
}

/// The lines of a message but its first.
pub open spec fn later_lines(message: Text) -> Seq<Text> {
    if lines_of(message).len() == 0 {
        Seq::empty()
    } else {
        lines_of(message).drop_first()
    }
}

/// The commit after its step, with the id that it has then.
pub open spec fn stepped(commit: StackCommitView, step: StepView, rev: Text) -> StackCommitView {
    StackCommitView {
        rev,
        parent: step.parent,
        message: step.message,
        body: untagged(joined(later_lines(step.message), "\n"@)),
        ..commit
    }
}

/// A stack whose commits are being given their identities, oldest first.
pub struct Rewriting {
    pub plan: SubmitPlan,
    /// How many commits are done.
    pub index: usize,
    /// The id of the last commit that is done.
    pub parent: Option<String>,
    /// The old and the new id of each commit that is done.
    pub replaced: Vec<(String, String)>,
}

/// What a `Rewriting` holds.
#[verifier::ext_equal]
pub struct RewritingView {
    pub plan: PlanView,
    pub index: nat,
    pub parent: Option<Text>,
    pub replaced: Seq<(Text, Text)>,
}

impl View for Rewriting {
    type V = RewritingView;

    open spec fn view(&self) -> RewritingView {
        RewritingView {
            plan: self.plan@,
            index: self.index as nat,
            parent: maybe(self.parent),
            replaced: views(self.replaced@),
        }
    }
}

/// A stack none of whose commits is done.
pub open spec fn rewriting_start(plan: PlanView) -> RewritingView {
    RewritingView { plan, index: 0, parent: None, replaced: Seq::empty() }
}

/// The stack with one more commit done.
pub open spec fn rewriting_next(state: RewritingView, step: StepView, rev: Text) -> RewritingView {
    let commit = state.plan.commits[state.index as int];
    RewritingView {
        plan: PlanView {
            commits: state.plan.commits.update(state.index as int, stepped(commit, step, rev)),
            ..state.plan
        },
        index: state.index + 1,
        parent: Some(rev),
        replaced: state.replaced.push((commit.rev, rev)),
    }
}

/// A plan whose updates are those of its commits.
pub open spec fn with_updates(plan: PlanView) -> PlanView {
    PlanView { updates: paired_updates(plan.commits), ..plan }
}

/// What a step or an error holds.
pub open spec fn step_result(r: Result<RewriteStep, String>) -> Result<StepView, Text> {
    match r {
        Ok(step) => Ok(step@),
        Err(error) => Err(error@),
    }
}

/// What a commit becomes on a new parent.
fn next_step(commit: &StackCommit, new_parent: &Option<String>) -> (r: Result<RewriteStep, String>)
    ensures
        step_result(r) == step_of(commit@, maybe(*new_parent)),
{
    let parent = match new_parent {
        Some(parent) => parent.clone(),
        None => commit.parent.clone(),
    };
    let message = match add_identity(commit.message.as_str(), commit.branch.as_str()) {
        Ok(message) => message,
        Err(error) => {
            return Err(error);
        },
    };
    let text = if same(parent.as_str(), commit.parent.as_str()) && same(
        message.as_str(),
        commit.message.as_str(),
    ) {
        None
    } else {
        Some(trimmed_end(message.as_str()).concat("\n"))
    };
    Ok(RewriteStep { parent, message, text })
}

/// The body that a message has: its lines but the first, without its identity.
fn body_of(message: &str) -> (r: String)
    ensures
        r@ == untagged(joined(later_lines(message@), "\n"@)),
{
    let all = lines(message);
    let ghost ls = lines_of(message@);
    let mut rest: Vec<String> = Vec::new();
    let mut i: usize = 1;
    assert(texts(rest@) =~= Seq::<Text>::empty());
    while i < all.len()
        invariant
            1 <= i,
            texts(all@) == ls,
            i <= all.len() || i == 1,
            rest.len() == i - 1,
            forall|j: int| 0 <= j < rest.len() ==> (#[trigger] rest@[j])@ == ls[j + 1],
        decreases all.len() - i,
    {
        assert(ls[i as int] == all@[i as int]@);
        rest.push(all[i].clone());
        i = i + 1;
    }
    assert(texts(rest@) =~= later_lines(message@));
    body_without_identity(join(&rest, "\n").as_str())
}

/// Begins to rewrite the commits of a stack so that each holds its identity: none of them is
/// done.
pub fn rewrite_with_identities(plan: SubmitPlan) -> (r: Rewriting)
    ensures
        r@ == rewriting_start(plan@),
{
    let r = Rewriting { plan, index: 0, parent: None, replaced: Vec::new() };
    assert(views(r.replaced@) =~= Seq::<(Text, Text)>::empty());
    r
}

impl Rewriting {
    /// Whether all commits are done.
    pub fn is_done(&self) -> (r: bool)
        ensures
            r == (self@.index >= self@.plan.commits.len()),
    {
        self.index >= self.plan.commits.len()
    }

    /// What the next commit becomes.
    pub fn step(&self) -> (r: Result<RewriteStep, String>)
        requires
            self@.index < self@.plan.commits.len(),
        ensures
            step_result(r) == step_of(self@.plan.commits[self@.index as int], self@.parent),
    {
        next_step(&self.plan.commits[self.index], &self.parent)
    }

    /// Records the id that the next commit has after its step: its own, where the commit was
    /// not made anew.
    pub fn finish(&mut self, step: RewriteStep, rev: String)
        requires
            old(self)@.index < old(self)@.plan.commits.len(),
            step@.text is None ==> rev@ == old(self)@.plan.commits[old(self)@.index as int].rev,
        ensures
            final(self)@ == rewriting_next(old(self)@, step@, rev@),
    {
        let ghost was = self@;
        let count = self.plan.commits.len();
        assert(self.index < count);
        let old_commit = &self.plan.commits[self.index];
        let old_rev = old_commit.rev.clone();
        let commit = StackCommit {
            rev: rev.clone(),
            parent: step.parent,
            branch: old_commit.branch.clone(),
            subject: old_commit.subject.clone(),
            body: body_of(step.message.as_str()),
            message: step.message,
            identity_added: old_commit.identity_added,
        };
        assert(commit@ == stepped(old_commit@, step@, rev@));
        self.plan.commits.set(self.index, commit);
        assert(views(self.plan.commits@) =~= was.plan.commits.update(self.index as int, commit@));
        self.index = self.index + 1;
        self.parent = Some(rev.clone());
        self.replaced.push((old_rev, rev));
        assert(views(self.replaced@) =~= was.replaced.push((old_rev@, rev@)));
    }

    /// The plan with its updates made those of the rewritten commits.
    pub fn into_plan(self) -> (r: SubmitPlan)
        ensures
            r@ == with_updates(self@.plan),
    {
        let mut plan = self.plan;
        refresh_updates(&mut plan);
        plan
    }
}

/// What holds of a commit that is done: its message gives its identity, its ids are
/// recorded, and it is on the commit before it.
pub open spec fn done_well(plan: PlanView, state: RewritingView, i: int) -> bool {
    let commit = state.plan.commits[i];
    &&& identity(commit.message) == Ok::<Option<Text>, Text>(Some(commit.branch))
    &&& commit.branch == plan.commits[i].branch
    &&& state.replaced[i] == (plan.commits[i].rev, commit.rev)
    &&& commit.parent == if i == 0 {
        plan.commits[0].parent
    } else {
        state.plan.commits[i - 1].rev
    }
}

/// What holds of a stack while it is rewritten: the commits that are done form a
/// line, give their identities, and are the ones whose ids were recorded; the
/// others are as they were.
pub open spec fn rewritten_well(plan: PlanView, state: RewritingView) -> bool {
    let commits = state.plan.commits;
    &&& state.index <= commits.len()
    &&& commits.len() == plan.commits.len()
    &&& state.replaced.len() == state.index
    &&& state.parent == if state.index == 0 {
        None
    } else {
        Some(commits[state.index - 1].rev)
    }
    &&& forall|i: int| 0 <= i < state.index ==> #[trigger] done_well(plan, state, i)
    &&& forall|i: int|
        state.index <= i < commits.len() ==> (#[trigger] commits[i]) == plan.commits[i]
}

/// The branch of a commit is what its message says or, where that says nothing, can
/// be written there.
pub open spec fn identity_matches(commit: StackCommitView) -> bool {
    ||| identity(commit.message) == Ok::<Option<Text>, Text>(Some(commit.branch))
    ||| identity(commit.message) == Ok::<Option<Text>, Text>(None) && commit.branch.len() > 0
        && !has_space(commit.branch)
}

/// Nothing is done at the start.
pub proof fn law_rewriting_starts(plan: PlanView)
    ensures
        rewritten_well(plan, rewriting_start(plan)),
{
}

/// A step gives the message its identity.
proof fn lemma_step_identity(commit: StackCommitView, parent: Option<Text>)
    requires
        identity_matches(commit),
    ensures
        step_of(commit, parent) is Ok,
        identity(step_of(commit, parent)->Ok_0.message) == Ok::<Option<Text>, Text>(
            Some(commit.branch),
        ),
        step_of(commit, parent)->Ok_0.parent == match parent {
            Some(parent) => parent,
            None => commit.parent,
        },
{
    if identity(commit.message) == Ok::<Option<Text>, Text>(None) {
        law_added_identity_is_found(commit.message, commit.branch);
    }
}

/// Each step keeps the line and records an identity, whatever id the commit gets.
pub proof fn law_rewriting_goes_on(plan: PlanView, state: RewritingView, rev: Text)
    requires
        rewritten_well(plan, state),
        state.index < state.plan.commits.len(),
        identity_matches(plan.commits[state.index as int]),
    ensures
        step_of(state.plan.commits[state.index as int], state.parent) is Ok,
        rewritten_well(
            plan,
            rewriting_next(
                state,
                step_of(state.plan.commits[state.index as int], state.parent)->Ok_0,
                rev,
            ),
        ),
{
    let i = state.index as int;
    let commit = state.plan.commits[i];
    assert(commit == plan.commits[i]);
    lemma_step_identity(commit, state.parent);
    let step = step_of(commit, state.parent)->Ok_0;
    lemma_next_well(plan, state, step, rev);
}

proof fn lemma_next_well(plan: PlanView, state: RewritingView, step: StepView, rev: Text)
    requires
        rewritten_well(plan, state),
        state.index < state.plan.commits.len(),
        identity(step.message) == Ok::<Option<Text>, Text>(
            Some(plan.commits[state.index as int].branch),
        ),
        step.parent == match state.parent {
            Some(parent) => parent,
            None => plan.commits[state.index as int].parent,
        },
    ensures
        rewritten_well(plan, rewriting_next(state, step, rev)),
{
    let i = state.index as int;
    let next = rewriting_next(state, step, rev);
    let was = state.plan.commits;
    let commits = next.plan.commits;
    assert(was[i] == plan.commits[i]);
    assert(commits[i].message == step.message && commits[i].branch == was[i].branch);
    assert(commits[i].rev == rev && commits[i].parent == step.parent);
    assert forall|j: int| 0 <= j < next.index implies #[trigger] done_well(plan, next, j) by {
        if j < i {
            assert(done_well(plan, state, j));
            assert(commits[j] == was[j]);
            assert(next.replaced[j] == state.replaced[j]);
            if j > 0 {
                assert(commits[j - 1] == was[j - 1]);
            }
        } else if i > 0 {
            assert(commits[i - 1] == was[i - 1]);
        }
    }
}

/// The new ids by the old ones, for the commits that were made anew.
pub open spec fn replacements(replaced: Seq<(Text, Text)>) -> Result<Map<Text, Text>, Text>
    decreases replaced.len(),
{
    if replaced.len() == 0 {
        Ok(Map::empty())
    } else {
        match replacements(replaced.drop_last()) {
            Err(error) => Err(error),
            Ok(done) => {
                let (before, after) = replaced.last();
                if before == after {
                    Ok(done)
                } else {
                    match object_id(before) {
                        Err(error) => Err(error),
                        Ok(before) => match object_id(after) {
                            Err(error) => Err(error),
                            Ok(after) => Ok(done.insert(before, after)),
                        },
                    }
                }
            },
        }
    }
}

/// A ref and the ids that it moves between.
pub struct RefMove {
    pub name: String,
    pub before: String,
    pub after: String,
}

/// What a `RefMove` holds.
#[verifier::ext_equal]
pub struct RefMoveView {
    pub name: Text,
    pub before: Text,
    pub after: Text,
}

impl View for RefMove {
    type V = RefMoveView;

    open spec fn view(&self) -> RefMoveView {
        RefMoveView { name: self.name@, before: self.before@, after: self.after@ }
    }
}

/// A branch as it is read: its name and its target, where they can be read.
pub type HeadRef = (Option<String>, Option<String>);

/// What a `HeadRef` holds.
pub open spec fn head_ref(head: HeadRef) -> (Option<Text>, Option<Text>) {
    (maybe(head.0), maybe(head.1))
}

/// What heads hold.
pub open spec fn head_refs(heads: Seq<HeadRef>) -> Seq<(Option<Text>, Option<Text>)> {
    heads.map_values(|head: HeadRef| head_ref(head))
}

/// The moves of the branches that point at commits which were made anew.
pub open spec fn head_moves(
    heads: Seq<(Option<Text>, Option<Text>)>,
    new: Map<Text, Text>,
) -> Seq<RefMoveView>
    decreases heads.len(),
{
    if heads.len() == 0 {
        Seq::empty()
    } else {
        let before = head_moves(heads.drop_last(), new);
        match heads.last() {
            (Some(name), Some(target)) => if new.contains_key(target) {
                before.push(RefMoveView { name, before: target, after: new[target] })
            } else {
                before
            },
            _ => before,
        }
    }
}

/// The refs that move with a rewritten stack: every branch that points at a commit
/// which was made anew and, where no branch is checked out, the head.
pub open spec fn moved_refs(
    state: RewritingView,
    heads: Seq<(Option<Text>, Option<Text>)>,
    old_head: Text,
    detached: bool,
) -> Result<Seq<RefMoveView>, Text> {
    match replacements(state.replaced) {
        Err(error) => Err(error),
        Ok(new) => {
            let moves = head_moves(heads, new);
            match state.parent {
                Some(tip) => if detached && tip != old_head {
                    match object_id(tip) {
                        Err(error) => Err(error),
                        Ok(tip) => Ok(
                            moves.push(
                                RefMoveView { name: "HEAD"@, before: old_head, after: tip },
                            ),
                        ),
                    }
                } else {
                    Ok(moves)
                },
                None => Ok(moves),
            }
        },
    }
}

/// A stage of `replacements` that fails, fails the whole.
proof fn lemma_replacements_fail(all: Seq<(Text, Text)>, n: int, error: Text)
    requires
        0 <= n <= all.len(),
        replacements(all.take(n)) == Err::<Map<Text, Text>, Text>(error),
    ensures
        replacements(all) == Err::<Map<Text, Text>, Text>(error),
    decreases all.len() - n,
{
    if n < all.len() {
        assert(all.take(n + 1).drop_last() =~= all.take(n));
        lemma_replacements_fail(all, n + 1, error);
    } else {
        assert(all.take(n) =~= all);
    }
}

/// The new ids by the old ones.
fn new_ids(replaced: &Vec<(String, String)>) -> (r: Result<Dict<String>, String>)
    ensures
        match r {
            Ok(map) => replacements(views(replaced@)) == Ok::<Map<Text, Text>, Text>(map@),
            Err(error) => replacements(views(replaced@)) == Err::<Map<Text, Text>, Text>(error@),
        },
{
    let ghost all = views(replaced@);
    let mut map: Dict<String> = Dict::new();
    let mut i: usize = 0;
    assert(all.take(0) =~= Seq::<(Text, Text)>::empty());
    assert(map@ =~= Map::<Text, Text>::empty());
    while i < replaced.len()
        invariant
            i <= replaced.len(),
            all == views(replaced@),
            replacements(all.take(i as int)) == Ok::<Map<Text, Text>, Text>(map@),
        decreases replaced.len() - i,
    {
        let (before, after) = &replaced[i];
        assert(all.take(i + 1).drop_last() =~= all.take(i as int));
        assert(all.take(i + 1).last() == (before@, after@));
        if !same(before.as_str(), after.as_str()) {
            let from = match parse_oid(before.as_str()) {
                Ok(id) => id,
                Err(error) => {
                    proof {
                        lemma_replacements_fail(all, i + 1, error@);
                    }
                    return Err(error);
                },
            };
            let to = match parse_oid(after.as_str()) {
                Ok(id) => id,
                Err(error) => {
                    proof {
                        lemma_replacements_fail(all, i + 1, error@);
                    }
                    return Err(error);
                },
            };
            let ghost was = map@;
            map.insert(from, to);
            assert(map@ =~= was.insert(from@, to@));
        }
        i = i + 1;
    }
    assert(all.take(all.len() as int) =~= all);
    Ok(map)
}

/// What moves or an error hold.
pub open spec fn moves_result(r: Result<Vec<RefMove>, String>) -> Result<Seq<RefMoveView>, Text> {
    match r {
        Ok(v) => Ok(views(v@)),
        Err(error) => Err(error@),
    }
}

impl Rewriting {
    /// The refs that move with the rewritten stack.
    pub fn ref_moves(&self, heads: &Vec<HeadRef>, old_head: &str, detached: bool) -> (r: Result<
        Vec<RefMove>,
        String,
    >)
        ensures
            moves_result(r) == moved_refs(self@, head_refs(heads@), old_head@, detached),
    {
        let new = match new_ids(&self.replaced) {
            Ok(new) => new,
            Err(error) => {
                return Err(error);
            },
        };
        let ghost all = head_refs(heads@);
        let mut moves: Vec<RefMove> = Vec::new();
        let mut i: usize = 0;
        assert(all.take(0) =~= Seq::<(Option<Text>, Option<Text>)>::empty());
        assert(views(moves@) =~= Seq::<RefMoveView>::empty());
        while i < heads.len()
            invariant
                i <= heads.len(),
                all == head_refs(heads@),
                views(moves@) == head_moves(all.take(i as int), new@),
            decreases heads.len() - i,
        {
            assert(all.take(i + 1).drop_last() =~= all.take(i as int));
            assert(all.take(i + 1).last() == head_ref(heads@[i as int]));
            match &heads[i].0 {
                Some(name) => match &heads[i].1 {
                    Some(target) => match new.get(target.as_str()) {
                        Some(after) => {
                            let ghost was = views(moves@);
                            let moved = RefMove {
                                name: name.clone(),
                                before: target.clone(),
                                after: after.clone(),
                            };
                            moves.push(moved);
                            assert(views(moves@) =~= was.push(moved@));
                        },
                        None => {},
                    },
                    None => {},
                },
                None => {},
            }
            i = i + 1;
        }
        assert(all.take(all.len() as int) =~= all);
        match &self.parent {
            Some(tip) => {
                if detached && !same(tip.as_str(), old_head) {
                    let after = match parse_oid(tip.as_str()) {
                        Ok(after) => after,
                        Err(error) => {
                            return Err(error);
                        },
                    };
                    let ghost was = views(moves@);
                    let moved = RefMove {
                        name: "HEAD".to_owned(),
                        before: old_head.to_owned(),
                        after,
                    };
                    moves.push(moved);
                    assert(views(moves@) =~= was.push(moved@));
                }
            },
            None => {},
        }
        Ok(moves)
    }
}

/// Checks, once a ref is locked, that it still points where it did.
pub fn check_ref(name: &str, before: &str, current: &Option<String>) -> (r: Result<(), String>)
    ensures
        match r {
            Ok(()) => maybe(*current) == Some(before@),
            Err(error) => maybe(*current) != Some(before@) && error@ == match *current {
                None => "reference "@ + name@ + " disappeared"@,
                Some(_) => "reference "@ + name@ + " changed while rewriting commits"@,
            },
        },
{
    match current {
        None => Err("reference ".to_owned().concat(name).concat(" disappeared")),
        Some(current) => {
            if same(current.as_str(), before) {
                Ok(())
            } else {
                Err(
                    "reference ".to_owned().concat(name).concat(
                        " changed while rewriting commits",
                    ),
                )
            }
        },
    }
}

} // verus!
