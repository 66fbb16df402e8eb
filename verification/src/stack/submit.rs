//! What a stack of commits is published as.

use crate::number::{decimal, to_decimal};
use crate::order::views;
use crate::split::{join, joined};
use crate::stack::assign::{assign_branches, branches_of, numbers_fit, CommitRecord, RecordView};
use crate::stack::identity::message_result;
use crate::stack::names::{owner_and_name, parse_owner_repo};
use crate::text::{
    copy_option, maybe, quoted, quoted_text, same, same_option, texts, Text,
};
use vstd::prelude::*;

verus! {

/// The name of the trailer that holds a commit's identity.
pub const IDENTITY_TRAILER: &'static str = "fs-branch";

/// Where and how a stack is published.
#[derive(Debug, PartialEq, Eq)]
pub struct SubmitOptions {
    /// The repository's directory.
    pub repo: String,
    /// The remote of the fork.
    pub remote: String,
    /// The branch of the fork that the stack sits on.
    pub base: String,
    /// The prefix of the identities given to commits that have none.
    pub prefix: Option<String>,
    /// Whether pull requests are opened as drafts.
    pub draft: bool,
}

/// What `SubmitOptions` hold.
#[verifier::ext_equal]
pub struct OptionsView {
    pub repo: Text,
    pub remote: Text,
    pub base: Text,
    pub prefix: Option<Text>,
    pub draft: bool,
}

impl View for SubmitOptions {
    type V = OptionsView;

    open spec fn view(&self) -> OptionsView {
        OptionsView {
            repo: self.repo@,
            remote: self.remote@,
            base: self.base@,
            prefix: maybe(self.prefix),
            draft: self.draft,
        }
    }
}

impl Clone for SubmitOptions {
    fn clone(&self) -> (r: Self)
        ensures
            r@ == self@,
    {
        SubmitOptions {
            repo: self.repo.clone(),
            remote: self.remote.clone(),
            base: self.base.clone(),
            prefix: copy_option(&self.prefix),
            draft: self.draft,
        }
    }
}

/// What options are when nothing is said.
pub open spec fn default_options() -> OptionsView {
    OptionsView { repo: "."@, remote: "origin"@, base: "main"@, prefix: None, draft: true }
}

impl Default for SubmitOptions {
    fn default() -> (r: Self)
        ensures
            r@ == default_options(),
            r@.repo == "."@,
            r@.remote == "origin"@,
            r@.base == "main"@,
            r@.prefix is None,
            r@.draft,
    {
        SubmitOptions {
            repo: ".".to_owned(),
            remote: "origin".to_owned(),
            base: "main".to_owned(),
            prefix: None,
            draft: true,
        }
    }
}

/// A commit of the stack, with the branch it is published as.
#[derive(Debug, PartialEq, Eq)]
pub struct StackCommit {
    pub rev: String,
    pub parent: String,
    pub branch: String,
    pub subject: String,
    pub body: String,
    pub message: String,
    /// Whether the commit's message does not hold its identity yet.
    pub identity_added: bool,
}

/// What a `StackCommit` holds.
#[verifier::ext_equal]
pub struct StackCommitView {
    pub rev: Text,
    pub parent: Text,
    pub branch: Text,
    pub subject: Text,
    pub body: Text,
    pub message: Text,
    pub identity_added: bool,
}

impl View for StackCommit {
    type V = StackCommitView;

    open spec fn view(&self) -> StackCommitView {
        StackCommitView {
            rev: self.rev@,
            parent: self.parent@,
            branch: self.branch@,
            subject: self.subject@,
            body: self.body@,
            message: self.message@,
            identity_added: self.identity_added,
        }
    }
}

impl Clone for StackCommit {
    fn clone(&self) -> (r: Self)
        ensures
            r@ == self@,
    {
        StackCommit {
            rev: self.rev.clone(),
            parent: self.parent.clone(),
            branch: self.branch.clone(),
            subject: self.subject.clone(),
            body: self.body.clone(),
            message: self.message.clone(),
            identity_added: self.identity_added,
        }
    }
}

/// The branch that holds the commit of an identity.
pub open spec fn head_of(branch: Text) -> Text {
    "fs-head/"@ + branch
}

/// The branch that holds the parent of the commit of an identity.
pub open spec fn base_of(branch: Text) -> Text {
    "fs-base/"@ + branch
}

impl StackCommit {
    /// The branch that holds this commit.
    pub fn head_branch(&self) -> (r: String)
        ensures
            r@ == head_of(self.branch@),
    {
        "fs-head/".to_owned().concat(self.branch.as_str())
    }

    /// The branch that holds this commit's parent.
    pub fn base_branch(&self) -> (r: String)
        ensures
            r@ == base_of(self.branch@),
    {
        "fs-base/".to_owned().concat(self.branch.as_str())
    }

    /// Whether two commits hold the same.
    pub fn same(&self, other: &StackCommit) -> (r: bool)
        ensures
            r == (self@ == other@),
    {
        same(self.rev.as_str(), other.rev.as_str()) && same(
            self.parent.as_str(),
            other.parent.as_str(),
        ) && same(self.branch.as_str(), other.branch.as_str()) && same(
            self.subject.as_str(),
            other.subject.as_str(),
        ) && same(self.body.as_str(), other.body.as_str()) && same(
            self.message.as_str(),
            other.message.as_str(),
        ) && self.identity_added == other.identity_added
    }
}

/// A branch of the remote and the commit that it is to point at.
#[derive(Debug, PartialEq, Eq)]
pub struct RefUpdate {
    pub branch: String,
    pub rev: String,
}

/// What a `RefUpdate` holds.
#[verifier::ext_equal]
pub struct RefUpdateView {
    pub branch: Text,
    pub rev: Text,
}

impl View for RefUpdate {
    type V = RefUpdateView;

    open spec fn view(&self) -> RefUpdateView {
        RefUpdateView { branch: self.branch@, rev: self.rev@ }
    }
}

impl Clone for RefUpdate {
    fn clone(&self) -> (r: Self)
        ensures
            r@ == self@,
    {
        RefUpdate { branch: self.branch.clone(), rev: self.rev.clone() }
    }
}

/// A stack and the refs that it is published as.
#[derive(Debug, PartialEq, Eq)]
pub struct SubmitPlan {
    pub options: SubmitOptions,
    /// The fork, as owner and name.
    pub fork: String,
    /// The remote branch that the stack sits on.
    pub base_ref: String,
    /// The commits of the stack, oldest first.
    pub commits: Vec<StackCommit>,
    /// The branches to push, a base and a head for each commit.
    pub updates: Vec<RefUpdate>,
}

/// What a `SubmitPlan` holds.
#[verifier::ext_equal]
pub struct PlanView {
    pub options: OptionsView,
    pub fork: Text,
    pub base_ref: Text,
    pub commits: Seq<StackCommitView>,
    pub updates: Seq<RefUpdateView>,
}

impl View for SubmitPlan {
    type V = PlanView;

    open spec fn view(&self) -> PlanView {
        PlanView {
            options: self.options@,
            fork: self.fork@,
            base_ref: self.base_ref@,
            commits: views(self.commits@),
            updates: views(self.updates@),
        }
    }
}

/// Copies of the values of a list.
fn copy_commits(v: &Vec<StackCommit>) -> (r: Vec<StackCommit>)
    ensures
        views(r@) == views(v@),
{
    let mut r: Vec<StackCommit> = Vec::new();
    let mut i: usize = 0;
    while i < v.len()
        invariant
            i <= v.len(),
            r.len() == i,
            forall|j: int| 0 <= j < i ==> (#[trigger] r@[j])@ == v@[j]@,
        decreases v.len() - i,
    {
        r.push(v[i].clone());
        i = i + 1;
    }
    assert(views(r@) =~= views(v@));
    r
}

fn copy_updates(v: &Vec<RefUpdate>) -> (r: Vec<RefUpdate>)
    ensures
        views(r@) == views(v@),
{
    let mut r: Vec<RefUpdate> = Vec::new();
    let mut i: usize = 0;
    while i < v.len()
        invariant
            i <= v.len(),
            r.len() == i,
            forall|j: int| 0 <= j < i ==> (#[trigger] r@[j])@ == v@[j]@,
        decreases v.len() - i,
    {
        r.push(v[i].clone());
        i = i + 1;
    }
    assert(views(r@) =~= views(v@));
    r
}

impl Clone for SubmitPlan {
    fn clone(&self) -> (r: Self)
        ensures
            r@ == self@,
    {
        SubmitPlan {
            options: self.options.clone(),
            fork: self.fork.clone(),
            base_ref: self.base_ref.clone(),
            commits: copy_commits(&self.commits),
            updates: copy_updates(&self.updates),
        }
    }
}

fn same_commits(a: &Vec<StackCommit>, b: &Vec<StackCommit>) -> (r: bool)
    ensures
        r == (views(a@) == views(b@)),
{
    if a.len() != b.len() {
        assert(views(a@).len() != views(b@).len());
        return false;
    }
    let mut i: usize = 0;
    while i < a.len()
        invariant
            i <= a.len(),
            a.len() == b.len(),
            forall|j: int| 0 <= j < i ==> (#[trigger] a@[j])@ == b@[j]@,
        decreases a.len() - i,
    {
        if !a[i].same(&b[i]) {
            assert(views(a@)[i as int] != views(b@)[i as int]);
            return false;
        }
        i = i + 1;
    }
    assert(views(a@) =~= views(b@));
    true
}

fn same_updates(a: &Vec<RefUpdate>, b: &Vec<RefUpdate>) -> (r: bool)
    ensures
        r == (views(a@) == views(b@)),
{
    if a.len() != b.len() {
        assert(views(a@).len() != views(b@).len());
        return false;
    }
    let mut i: usize = 0;
    while i < a.len()
        invariant
            i <= a.len(),
            a.len() == b.len(),
            forall|j: int| 0 <= j < i ==> (#[trigger] a@[j])@ == b@[j]@,
        decreases a.len() - i,
    {
        if !same(a[i].branch.as_str(), b[i].branch.as_str()) || !same(
            a[i].rev.as_str(),
            b[i].rev.as_str(),
        ) {
            assert(views(a@)[i as int] != views(b@)[i as int]);
            return false;
        }
        i = i + 1;
    }
    assert(views(a@) =~= views(b@));
    true
}

impl SubmitOptions {
    /// Whether two sets of options hold the same.
    pub fn same(&self, other: &SubmitOptions) -> (r: bool)
        ensures
            r == (self@ == other@),
    {
        same(self.repo.as_str(), other.repo.as_str()) && same(
            self.remote.as_str(),
            other.remote.as_str(),
        ) && same(self.base.as_str(), other.base.as_str()) && same_option(
            &self.prefix,
            &other.prefix,
        ) && self.draft == other.draft
    }
}

impl SubmitPlan {
    /// Whether two plans hold the same.
    pub fn same(&self, other: &SubmitPlan) -> (r: bool)
        ensures
            r == (self@ == other@),
    {
        self.options.same(&other.options) && same(self.fork.as_str(), other.fork.as_str()) && same(
            self.base_ref.as_str(),
            other.base_ref.as_str(),
        ) && same_commits(&self.commits, &other.commits) && same_updates(
            &self.updates,
            &other.updates,
        )
    }
}

/// The branches that a stack is published as: for each commit one at its parent
/// and one at itself.
pub open spec fn paired_updates(commits: Seq<StackCommitView>) -> Seq<RefUpdateView>
    decreases commits.len(),
{
    if commits.len() == 0 {
        Seq::empty()
    } else {
        let commit = commits.last();
        paired_updates(commits.drop_last()).push(
            RefUpdateView { branch: base_of(commit.branch), rev: commit.parent },
        ).push(RefUpdateView { branch: head_of(commit.branch), rev: commit.rev })
    }
}

/// Makes the updates of a plan those of its commits.
pub fn refresh_updates(plan: &mut SubmitPlan)
    ensures
        final(plan)@ == (PlanView {
            updates: paired_updates(old(plan)@.commits),
            ..old(plan)@
        }),
{
    let ghost was = plan@;
    let ghost commits = was.commits;
    let mut updates: Vec<RefUpdate> = Vec::new();
    let mut i: usize = 0;
    assert(commits.take(0) =~= Seq::<StackCommitView>::empty());
    assert(views(updates@) =~= Seq::<RefUpdateView>::empty());
    while i < plan.commits.len()
        invariant
            i <= plan.commits.len(),
            plan@ == was,
            commits == was.commits,
            views(updates@) == paired_updates(commits.take(i as int)),
        decreases plan.commits.len() - i,
    {
        let ghost before = views(updates@);
        let step = &plan.commits[i];
        assert(commits.take(i + 1).drop_last() =~= commits.take(i as int));
        assert(commits.take(i + 1).last() == step@);
        let base = RefUpdate { branch: step.base_branch(), rev: step.parent.clone() };
        let head = RefUpdate { branch: step.head_branch(), rev: step.rev.clone() };
        updates.push(base);
        updates.push(head);
        assert(views(updates@) =~= before.push(base@).push(head@));
        i = i + 1;
    }
    assert(commits.take(commits.len() as int) =~= commits);
    plan.updates = updates;
}

/// A stack is published as a pair of branches for each of its commits, in order.
pub proof fn law_updates_are_paired(commits: Seq<StackCommitView>, i: int)
    requires
        0 <= i < commits.len(),
    ensures
        paired_updates(commits).len() == 2 * commits.len(),
        paired_updates(commits)[2 * i] == (RefUpdateView {
            branch: base_of(commits[i].branch),
            rev: commits[i].parent,
        }),
        paired_updates(commits)[2 * i + 1] == (RefUpdateView {
            branch: head_of(commits[i].branch),
            rev: commits[i].rev,
        }),
    decreases commits.len(),
{
    let init = commits.drop_last();
    if i < init.len() {
        law_updates_are_paired(init, i);
        assert(init[i] == commits[i]);
    } else if init.len() > 0 {
        law_updates_are_paired(init, 0);
    } else {
        assert(paired_updates(init).len() == 0);
    }
}

/// Where the branches of a stack differ, so do those that it is published as.
pub proof fn law_published_branches_differ(commits: Seq<StackCommitView>)
    requires
        forall|i: int, j: int|
            0 <= i < j < commits.len() ==> (#[trigger] commits[i]).branch != (
            #[trigger] commits[j]).branch,
    ensures
        forall|i: int, j: int|
            0 <= i < j < paired_updates(commits).len() ==> (
            #[trigger] paired_updates(commits)[i]).branch != (
            #[trigger] paired_updates(commits)[j]).branch,
{
    let all = paired_updates(commits);
    if commits.len() > 0 {
        law_updates_are_paired(commits, 0);
    }
    reveal_strlit("fs-head/");
    reveal_strlit("fs-base/");
    assert forall|i: int, j: int| 0 <= i < j < all.len() implies (#[trigger] all[i]).branch != (
    #[trigger] all[j]).branch by {
        let a = i / 2;
        let b = j / 2;
        law_updates_are_paired(commits, a);
        law_updates_are_paired(commits, b);
        let x = commits[a].branch;
        let y = commits[b].branch;
        assert(i == 2 * a || i == 2 * a + 1);
        assert(j == 2 * b || j == 2 * b + 1);
        assert(head_of(x)[3] == 'h' && base_of(x)[3] == 'b');
        assert(head_of(y)[3] == 'h' && base_of(y)[3] == 'b');
        assert(head_of(x).skip(8) =~= x && base_of(x).skip(8) =~= x);
        assert(head_of(y).skip(8) =~= y && base_of(y).skip(8) =~= y);
    }
}

/// The branches of a stack's commits, each as base and head.
pub open spec fn scope_branches(commits: Seq<StackCommitView>) -> Seq<Text>
    decreases commits.len(),
{
    if commits.len() == 0 {
        Seq::empty()
    } else {
        let branch = commits.last().branch;
        scope_branches(commits.drop_last()).push(base_of(branch)).push(head_of(branch))
    }
}

/// Whether some commit's message does not hold its identity yet.
pub open spec fn adds_identity(commits: Seq<StackCommitView>) -> bool {
    exists|i: int| 0 <= i < commits.len() && (#[trigger] commits[i]).identity_added
}

/// What of the remote a plan depends on: the base, the stack's own branches and,
/// where identities are added, those under the prefix.
pub open spec fn sync_scope(plan: PlanView) -> (Seq<Text>, Seq<Text>) {
    (
        seq![plan.options.base] + scope_branches(plan.commits),
        match plan.options.prefix {
            Some(prefix) => if adds_identity(plan.commits) {
                seq!["fs-head/"@ + prefix]
            } else {
                Seq::empty()
            },
            None => Seq::empty(),
        },
    )
}

/// Decides `adds_identity`.
pub fn any_identity_added(commits: &Vec<StackCommit>) -> (r: bool)
    ensures
        r == adds_identity(views(commits@)),
{
    let mut i: usize = 0;
    while i < commits.len()
        invariant
            i <= commits.len(),
            forall|j: int| 0 <= j < i ==> !(#[trigger] views(commits@)[j]).identity_added,
        decreases commits.len() - i,
    {
        if commits[i].identity_added {
            assert(views(commits@)[i as int].identity_added);
            return true;
        }
        i = i + 1;
    }
    false
}

/// What of the remote a plan depends on: branches, and prefixes of branches.
pub fn remote_sync_scope(plan: &SubmitPlan) -> (r: (Vec<String>, Vec<String>))
    ensures
        (texts(r.0@), texts(r.1@)) == sync_scope(plan@),
{
    let ghost commits = views(plan.commits@);
    let ghost base = seq![plan.options.base@];
    let mut branches: Vec<String> = Vec::new();
    branches.push(plan.options.base.clone());
    let mut i: usize = 0;
    assert(commits.take(0) =~= Seq::<StackCommitView>::empty());
    assert(texts(branches@) =~= base + scope_branches(commits.take(0)));
    while i < plan.commits.len()
        invariant
            i <= plan.commits.len(),
            commits == views(plan.commits@),
            texts(branches@) == base + scope_branches(commits.take(i as int)),
        decreases plan.commits.len() - i,
    {
        let ghost was = texts(branches@);
        let ghost done = scope_branches(commits.take(i as int));
        let step = &plan.commits[i];
        assert(commits.take(i + 1).drop_last() =~= commits.take(i as int));
        assert(commits.take(i + 1).last() == step@);
        branches.push(step.base_branch());
        branches.push(step.head_branch());
        assert(texts(branches@) =~= was.push(base_of(step.branch@)).push(head_of(step.branch@)));
        assert(texts(branches@) =~= base + done.push(base_of(step.branch@)).push(
            head_of(step.branch@),
        ));
        i = i + 1;
    }
    assert(commits.take(commits.len() as int) =~= commits);
    let mut prefixes: Vec<String> = Vec::new();
    assert(texts(prefixes@) =~= Seq::<Text>::empty());
    if any_identity_added(&plan.commits) {
        match &plan.options.prefix {
            Some(prefix) => {
                prefixes.push("fs-head/".to_owned().concat(prefix.as_str()));
                assert(texts(prefixes@) =~= seq!["fs-head/"@ + prefix@]);
            },
            None => {},
        }
    }
    (branches, prefixes)
}

/// A pull request in the table of a stack: its branch, its number if it has one,
/// and its title.
pub type StackEntry = (String, Option<u64>, String);

/// What a `StackEntry` holds.
pub type EntryView = (Text, Option<u64>, Text);

/// A row of the table of a stack.
pub open spec fn table_row(entry: EntryView, current: Text) -> Text {
    "- "@ + (if entry.0 == current {
        "->"@
    } else {
        ""@
    }) + " "@ + (match entry.1 {
        Some(n) => "#"@ + decimal(n as nat),
        None => entry.0,
    }) + " "@ + entry.2
}

/// The lines of the table of a stack, its last commit first.
pub open spec fn table_lines(entries: Seq<EntryView>, current: Text) -> Seq<Text> {
    seq![""@, "---"@, "Stack (top to bottom):"@] + entries.reverse().map_values(
        |entry: EntryView| table_row(entry, current),
    ) + seq!["---"@, ""@]
}

/// The table that shows a stack, with one of its branches marked.
pub open spec fn table(entries: Seq<EntryView>, current: Text) -> Text {
    joined(table_lines(entries, current), "\n"@)
}

/// The table that shows a stack in the description of one of its pull requests,
/// which is marked in it.
pub fn stack_table(entries: &Vec<StackEntry>, current: &str) -> (r: String)
    ensures
        r@ == table(views(entries@), current@),
{
    let ghost f = |entry: EntryView| table_row(entry, current@);
    let ghost all = views(entries@);
    let ghost rows = all.reverse().map_values(f);
    let ghost start = seq![""@, "---"@, "Stack (top to bottom):"@];
    let mut lines: Vec<String> = Vec::new();
    lines.push("".to_owned());
    lines.push("---".to_owned());
    lines.push("Stack (top to bottom):".to_owned());
    assert(texts(lines@) =~= start + rows.take(0));
    let n = entries.len();
    let mut i: usize = n;
    while i > 0
        invariant
            i <= n == entries.len(),
            all == views(entries@),
            f == (|entry: EntryView| table_row(entry, current@)),
            rows == all.reverse().map_values(f),
            texts(lines@) == start + rows.take(n - i),
        decreases i,
    {
        i = i - 1;
        let ghost was = texts(lines@);
        let (branch, number, subject) = &entries[i];
        let mark = if same(branch.as_str(), current) {
            "->"
        } else {
            ""
        };
        let reference = match number {
            Some(n) => "#".to_owned().concat(to_decimal(*n).as_str()),
            None => branch.clone(),
        };
        let row = "- ".to_owned().concat(mark).concat(" ").concat(reference.as_str()).concat(
            " ",
        ).concat(subject.as_str());
        assert(row@ == table_row(all[i as int], current@));
        assert(rows[n - 1 - i] == row@);
        lines.push(row);
        assert(texts(lines@) =~= was.push(row@));
        assert(texts(lines@) =~= start + rows.take(n - i));
    }
    assert(rows.take(n as int) =~= rows);
    let ghost was = texts(lines@);
    lines.push("---".to_owned());
    lines.push("".to_owned());
    assert(texts(lines@) =~= was + seq!["---"@, ""@]);
    join(&lines, "\n")
}

/// The fork that a remote's address names.
pub open spec fn fork_at(remote: Text, url: Option<Text>) -> Result<Text, Text> {
    match url {
        None => Err("remote "@ + quoted_text(remote) + " has a non-UTF-8 URL"@),
        Some(url) => match owner_and_name(url) {
            Some(fork) => Ok(fork),
            None => Err(
                "could not read owner/name from the "@ + quoted_text(remote) + " remote URL"@,
            ),
        },
    }
}

/// The fork that a remote's address names. The address is missing where it is no
/// text.
pub fn fork_of(remote: &str, url: &Option<String>) -> (r: Result<String, String>)
    ensures
        message_result(r) == fork_at(remote@, maybe(*url)),
{
    match url {
        None => Err(
            "remote ".to_owned().concat(quoted(remote).as_str()).concat(" has a non-UTF-8 URL"),
        ),
        Some(url) => match parse_owner_repo(url.as_str()) {
            Some(fork) => Ok(fork),
            None => Err(
                "could not read owner/name from the ".to_owned().concat(
                    quoted(remote).as_str(),
                ).concat(" remote URL"),
            ),
        },
    }
}

/// The remote branch that a stack sits on.
pub open spec fn base_name(options: OptionsView) -> Text {
    options.remote + "/"@ + options.base
}

/// The ref of the remote branch that a stack sits on.
pub fn base_reference(options: &SubmitOptions) -> (r: String)
    ensures
        r@ == "refs/remotes/"@ + options.remote@ + "/"@ + options.base@,
{
    "refs/remotes/".to_owned().concat(options.remote.as_str()).concat("/").concat(
        options.base.as_str(),
    )
}

/// The plan for a stack of commits.
pub open spec fn plan_of(
    options: OptionsView,
    fork: Text,
    records: Seq<RecordView>,
    remote: Seq<Text>,
) -> Result<PlanView, Text> {
    if records.len() == 0 {
        Err("no commits in "@ + base_name(options) + "..HEAD"@)
    } else {
        match branches_of(records, options.prefix, remote) {
            Err(error) => Err(error),
            Ok(commits) => Ok(
                PlanView {
                    options,
                    fork,
                    base_ref: base_name(options),
                    commits,
                    updates: paired_updates(commits),
                },
            ),
        }
    }
}

/// What a plan or an error holds.
pub open spec fn plan_result(r: Result<SubmitPlan, String>) -> Result<PlanView, Text> {
    match r {
        Ok(plan) => Ok(plan@),
        Err(error) => Err(error@),
    }
}

/// The plan for the commits of a stack, oldest first. `remote` are the identities
/// that the remote has under the prefix.
pub fn plan(
    options: SubmitOptions,
    fork: String,
    records: Vec<CommitRecord>,
    remote: &Vec<String>,
) -> (r: Result<SubmitPlan, String>)
    requires
        numbers_fit(views(records@), maybe(options.prefix), texts(remote@)),
    ensures
        plan_result(r) == plan_of(options@, fork@, views(records@), texts(remote@)),
{
    let base_ref = options.remote.clone().concat("/").concat(options.base.as_str());
    if records.len() == 0 {
        return Err("no commits in ".to_owned().concat(base_ref.as_str()).concat("..HEAD"));
    }
    let commits = match assign_branches(records, &options.prefix, remote) {
        Ok(commits) => commits,
        Err(error) => {
            return Err(error);
        },
    };
    let mut plan = SubmitPlan { options, fork, base_ref, commits, updates: Vec::new() };
    refresh_updates(&mut plan);
    Ok(plan)
}

} // verus!
