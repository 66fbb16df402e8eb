//! Keeping the local branches of a stack at its commits.

use crate::dict::Dict;
use crate::order::views;
use crate::stack::assign::set_of;
use crate::stack::object::{object_id, parse_oid};
use crate::stack::submit::{head_of, StackCommitView, SubmitPlan};
use crate::text::{maybe, quoted, quoted_text, same, same_option, texts, Text};
use vstd::prelude::*;

verus! {

/// A local branch that is created or moved: where it is, if it exists, and where
/// it is to be.
pub struct HeadUpdate {
    pub name: String,
    pub before: Option<String>,
    pub wanted: String,
}

/// What a `HeadUpdate` holds.
#[verifier::ext_equal]
pub struct HeadUpdateView {
    pub name: Text,
    pub before: Option<Text>,
    pub wanted: Text,
}

impl View for HeadUpdate {
    type V = HeadUpdateView;

    open spec fn view(&self) -> HeadUpdateView {
        HeadUpdateView { name: self.name@, before: maybe(self.before), wanted: self.wanted@ }
    }
}

/// The ref of a local branch.
pub open spec fn local_ref(branch: Text) -> Text {
    "refs/heads/"@ + branch
}

/// The ref of a branch of a remote.
pub open spec fn remote_ref(remote: Text, branch: Text) -> Text {
    "refs/remotes/"@ + remote + "/"@ + branch
}

/// Where a ref points.
pub open spec fn target(refs: Map<Text, Text>, name: Text) -> Option<Text> {
    if refs.contains_key(name) {
        Some(refs[name])
    } else {
        None
    }
}

/// What becomes of the local branch of a commit: nothing where it is at the commit,
/// an update where it does not exist or is where the remote has it, and else an
/// error, for then commits could be lost.
pub open spec fn head_update(
    commit: StackCommitView,
    remote: Text,
    checked_out: Set<Text>,
    refs: Map<Text, Text>,
) -> Result<Option<HeadUpdateView>, Text> {
    let head = head_of(commit.branch);
    let local = local_ref(head);
    match object_id(commit.rev) {
        Err(error) => Err(error),
        Ok(wanted) => if target(refs, local) == Some(wanted) {
            Ok(None)
        } else if checked_out.contains(local) {
            Err(
                "cannot update "@ + quoted_text(head) + ": it is checked out in a worktree"@,
            )
        } else if target(refs, local) is Some && target(refs, remote_ref(remote, head)) != target(
            refs,
            local,
        ) {
            Err(
                "refusing to overwrite divergent local branch "@ + quoted_text(head)
                    + "; it does not match "@ + remote + "/"@ + head,
            )
        } else {
            Ok(Some(HeadUpdateView { name: local, before: target(refs, local), wanted }))
        },
    }
}

/// What becomes of the local branches of a stack's commits.
pub open spec fn head_updates(
    commits: Seq<StackCommitView>,
    remote: Text,
    checked_out: Set<Text>,
    refs: Map<Text, Text>,
) -> Result<Seq<HeadUpdateView>, Text>
    decreases commits.len(),
{
    if commits.len() == 0 {
        Ok(Seq::empty())
    } else {
        match head_updates(commits.drop_last(), remote, checked_out, refs) {
            Err(error) => Err(error),
            Ok(done) => match head_update(commits.last(), remote, checked_out, refs) {
                Err(error) => Err(error),
                Ok(None) => Ok(done),
                Ok(Some(update)) => Ok(done.push(update)),
            },
        }
    }
}

/// A stage of `head_updates` that fails, fails the whole.
proof fn lemma_updates_fail(
    all: Seq<StackCommitView>,
    remote: Text,
    checked_out: Set<Text>,
    refs: Map<Text, Text>,
    n: int,
    error: Text,
)
    requires
        0 <= n <= all.len(),
        head_updates(all.take(n), remote, checked_out, refs) == Err::<Seq<HeadUpdateView>, Text>(
            error,
        ),
    ensures
        head_updates(all, remote, checked_out, refs) == Err::<Seq<HeadUpdateView>, Text>(error),
    decreases all.len() - n,
{
    if n < all.len() {
        assert(all.take(n + 1).drop_last() =~= all.take(n));
        lemma_updates_fail(all, remote, checked_out, refs, n + 1, error);
    } else {
        assert(all.take(n) =~= all);
    }
}

/// The ref of a local branch.
pub fn local_reference(branch: &str) -> (r: String)
    ensures
        r@ == local_ref(branch@),
{
    "refs/heads/".to_owned().concat(branch)
}

/// The ref of a branch of a remote.
pub fn remote_reference(remote: &str, branch: &str) -> (r: String)
    ensures
        r@ == remote_ref(remote@, branch@),
{
    "refs/remotes/".to_owned().concat(remote).concat("/").concat(branch)
}

/// Where a ref points.
fn target_of(refs: &Dict<String>, name: &str) -> (r: Option<String>)
    ensures
        maybe(r) == target(refs@, name@),
{
    match refs.get(name) {
        Some(id) => Some(id.clone()),
        None => None,
    }
}

/// What updates or an error hold.
pub open spec fn updates_result(r: Result<Vec<HeadUpdate>, String>) -> Result<
    Seq<HeadUpdateView>,
    Text,
> {
    match r {
        Ok(v) => Ok(views(v@)),
        Err(error) => Err(error@),
    }
}

/// The updates that bring the local branches of a stack to its commits. `refs` are
/// the ids that the local and the remote branches of the stack point at, and
/// `checked_out` the refs that some working tree has checked out.
pub fn sync_local_heads(
    plan: &SubmitPlan,
    checked_out: &Vec<String>,
    refs: &Dict<String>,
) -> (r: Result<Vec<HeadUpdate>, String>)
    ensures
        updates_result(r) == head_updates(
            plan@.commits,
            plan@.options.remote,
            texts(checked_out@).to_set(),
            refs@,
        ),
{
    let there = set_of(checked_out);
    let ghost occupied = texts(checked_out@).to_set();
    let ghost all = views(plan.commits@);
    let ghost remote = plan.options.remote@;
    let mut updates: Vec<HeadUpdate> = Vec::new();
    let mut i: usize = 0;
    assert(all.take(0) =~= Seq::<StackCommitView>::empty());
    assert(views(updates@) =~= Seq::<HeadUpdateView>::empty());
    while i < plan.commits.len()
        invariant
            i <= plan.commits.len(),
            all == views(plan.commits@),
            remote == plan.options.remote@,
            there@ == occupied,
            occupied == texts(checked_out@).to_set(),
            head_updates(all.take(i as int), remote, occupied, refs@) == Ok::<
                Seq<HeadUpdateView>,
                Text,
            >(views(updates@)),
        decreases plan.commits.len() - i,
    {
        let step = &plan.commits[i];
        assert(all.take(i + 1).drop_last() =~= all.take(i as int));
        assert(all.take(i + 1).last() == step@);
        let head = step.head_branch();
        let local = local_reference(head.as_str());
        let wanted = match parse_oid(step.rev.as_str()) {
            Ok(wanted) => wanted,
            Err(error) => {
                proof {
                    lemma_updates_fail(all, remote, occupied, refs@, i + 1, error@);
                }
                return Err(error);
            },
        };
        let before = target_of(refs, local.as_str());
        let at_commit = match &before {
            Some(id) => same(id.as_str(), wanted.as_str()),
            None => false,
        };
        if !at_commit {
            if there.contains(local.as_str()) {
                let error = "cannot update ".to_owned().concat(
                    quoted(head.as_str()).as_str(),
                ).concat(": it is checked out in a worktree");
                proof {
                    lemma_updates_fail(all, remote, occupied, refs@, i + 1, error@);
                }
                return Err(error);
            }
            if before.is_some() {
                let tip = target_of(
                    refs,
                    remote_reference(plan.options.remote.as_str(), head.as_str()).as_str(),
                );
                if !same_option(&tip, &before) {
                    let error = "refusing to overwrite divergent local branch ".to_owned().concat(
                        quoted(head.as_str()).as_str(),
                    ).concat("; it does not match ").concat(plan.options.remote.as_str()).concat(
                        "/",
                    ).concat(head.as_str());
                    proof {
                        lemma_updates_fail(all, remote, occupied, refs@, i + 1, error@);
                    }
                    return Err(error);
                }
            }
            let ghost was = views(updates@);
            let update = HeadUpdate { name: local, before, wanted };
            updates.push(update);
            assert(views(updates@) =~= was.push(update@));
        }
        i = i + 1;
    }
    assert(all.take(all.len() as int) =~= all);
    Ok(updates)
}

/// Checks, once a ref is locked, that it still points where it did.
pub fn check_head(update: &HeadUpdate, current: &Option<String>) -> (r: Result<(), String>)
    ensures
        match r {
            Ok(()) => maybe(*current) == update@.before,
            Err(error) => maybe(*current) != update@.before && error@ == "reference "@
                + update@.name + " changed while preparing updates"@,
        },
{
    if same_option(current, &update.before) {
        Ok(())
    } else {
        Err(
            "reference ".to_owned().concat(update.name.as_str()).concat(
                " changed while preparing updates",
            ),
        )
    }
}

/// What the configuration says of the local branch of each commit: the remote that
/// it belongs to, and the branch there.
pub open spec fn tracking_settings(commits: Seq<StackCommitView>, remote: Text) -> Seq<
    (Text, Text),
>
    decreases commits.len(),
{
    if commits.len() == 0 {
        Seq::empty()
    } else {
        let head = head_of(commits.last().branch);
        tracking_settings(commits.drop_last(), remote).push(
            ("branch."@ + head + ".remote"@, remote),
        ).push(("branch."@ + head + ".merge"@, local_ref(head)))
    }
}

/// The settings that make the local branches of a stack track the remote's.
pub fn head_settings(plan: &SubmitPlan) -> (r: Vec<(String, String)>)
    ensures
        views(r@) == tracking_settings(plan@.commits, plan@.options.remote),
{
    let ghost all = views(plan.commits@);
    let ghost remote = plan.options.remote@;
    let mut r: Vec<(String, String)> = Vec::new();
    let mut i: usize = 0;
    assert(all.take(0) =~= Seq::<StackCommitView>::empty());
    assert(views(r@) =~= Seq::<(Text, Text)>::empty());
    while i < plan.commits.len()
        invariant
            i <= plan.commits.len(),
            all == views(plan.commits@),
            remote == plan.options.remote@,
            views(r@) == tracking_settings(all.take(i as int), remote),
        decreases plan.commits.len() - i,
    {
        let step = &plan.commits[i];
        assert(all.take(i + 1).drop_last() =~= all.take(i as int));
        assert(all.take(i + 1).last() == step@);
        let head = step.head_branch();
        let ghost was = views(r@);
        let first = (
            "branch.".to_owned().concat(head.as_str()).concat(".remote"),
            plan.options.remote.clone(),
        );
        let second = (
            "branch.".to_owned().concat(head.as_str()).concat(".merge"),
            local_reference(head.as_str()),
        );
        r.push(first);
        r.push(second);
        assert(views(r@) =~= was.push(first@).push(second@));
        i = i + 1;
    }
    assert(all.take(all.len() as int) =~= all);
    r
}

/// Whether a setting has to be written.
pub fn needs_setting(current: &Option<String>, wanted: &str) -> (r: bool)
    ensures
        r == (maybe(*current) != Some(wanted@)),
{
    match current {
        Some(current) => !same(current.as_str(), wanted),
        None => true,
    }
}

/// Every branch that is updated ends up at its commit, and one that is moved was
/// where the remote has it and is not checked out.
pub proof fn law_heads_are_safe(
    commits: Seq<StackCommitView>,
    remote: Text,
    checked_out: Set<Text>,
    refs: Map<Text, Text>,
    updates: Seq<HeadUpdateView>,
)
    requires
        head_updates(commits, remote, checked_out, refs) == Ok::<Seq<HeadUpdateView>, Text>(
            updates,
        ),
    ensures
        forall|u: int|
            0 <= u < updates.len() ==> {
                &&& !checked_out.contains((#[trigger] updates[u]).name)
                &&& updates[u].before == target(refs, updates[u].name)
                &&& exists|i: int|
                    0 <= i < commits.len() && updates[u].name == local_ref(
                        head_of((#[trigger] commits[i]).branch),
                    ) && object_id(commits[i].rev) == Ok::<Text, Text>(updates[u].wanted) && (
                    updates[u].before is Some ==> updates[u].before == target(
                        refs,
                        remote_ref(remote, head_of(commits[i].branch)),
                    ))
            },
        forall|i: int|
            0 <= i < commits.len() ==> object_id((#[trigger] commits[i]).rev) is Ok && (target(
                refs,
                local_ref(head_of(commits[i].branch)),
            ) == Some(object_id(commits[i].rev)->Ok_0) || exists|u: int|
                0 <= u < updates.len() && (#[trigger] updates[u]).name == local_ref(
                    head_of(commits[i].branch),
                ) && updates[u].wanted == object_id(commits[i].rev)->Ok_0),
    decreases commits.len(),
{
    if commits.len() > 0 {
        let init = commits.drop_last();
        let done = head_updates(init, remote, checked_out, refs)->Ok_0;
        law_heads_are_safe(init, remote, checked_out, refs, done);
        let last = commits.last();
        assert(commits[commits.len() - 1] == last);
        assert forall|u: int| 0 <= u < updates.len() implies {
            &&& !checked_out.contains((#[trigger] updates[u]).name)
            &&& updates[u].before == target(refs, updates[u].name)
            &&& exists|i: int|
                0 <= i < commits.len() && updates[u].name == local_ref(
                    head_of((#[trigger] commits[i]).branch),
                ) && object_id(commits[i].rev) == Ok::<Text, Text>(updates[u].wanted) && (
                updates[u].before is Some ==> updates[u].before == target(
                    refs,
                    remote_ref(remote, head_of(commits[i].branch)),
                ))
        } by {
            if u < done.len() {
                assert(updates[u] == done[u]);
                let i = choose|i: int|
                    0 <= i < init.len() && done[u].name == local_ref(
                        head_of((#[trigger] init[i]).branch),
                    ) && object_id(init[i].rev) == Ok::<Text, Text>(done[u].wanted) && (
                    done[u].before is Some ==> done[u].before == target(
                        refs,
                        remote_ref(remote, head_of(init[i].branch)),
                    ));
                assert(commits[i] == init[i]);
            } else {
                assert(updates[u].name == local_ref(head_of(commits[commits.len() - 1].branch)));
            }
        }
        assert forall|i: int| 0 <= i < commits.len() implies object_id(
            (#[trigger] commits[i]).rev,
        ) is Ok && (target(refs, local_ref(head_of(commits[i].branch))) == Some(
            object_id(commits[i].rev)->Ok_0,
        ) || exists|u: int|
            0 <= u < updates.len() && (#[trigger] updates[u]).name == local_ref(
                head_of(commits[i].branch),
            ) && updates[u].wanted == object_id(commits[i].rev)->Ok_0) by {
            if i < init.len() {
                assert(commits[i] == init[i]);
                let wanted = object_id(init[i].rev)->Ok_0;
                let name = local_ref(head_of(init[i].branch));
                if target(refs, name) != Some(wanted) {
                    let u = choose|u: int|
                        0 <= u < done.len() && (#[trigger] done[u]).name == name && done[u].wanted
                            == wanted;
                    assert(updates[u] == done[u]);
                }
            } else if updates.len() > done.len() {
                assert(updates[updates.len() - 1].name == local_ref(head_of(last.branch)));
            }
        }
    }
}

} // verus!
