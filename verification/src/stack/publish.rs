//! Publishing a stack: what is done after what, and what is said meanwhile.

use crate::dict::Dict;
use crate::integrations::github::{
    CreatePullRequest, CreateView, EditPullRequest, EditView, LinkView, OpenPullRequest,
    OpenPullRequestView, PullRequestLink,
};
use crate::number::{decimal, to_decimal};
use crate::order::views;
use crate::stack::linking::{stack_link, stack_link_of, StackLink, StackLinkView};
use crate::stack::submit::{
    adds_identity, any_identity_added, base_of, head_of, stack_table, table, EntryView, PlanView,
    RefUpdateView, StackCommit, StackCommitView, StackEntry, SubmitPlan, IDENTITY_TRAILER,
};
use crate::text::{quoted, quoted_text, same, texts, Text};
use vstd::hash_set::StringHashSet;
use vstd::prelude::*;

verus! {

/// The pull requests of the commits, as far as they exist.
pub open spec fn pr_views(prs: Seq<Option<OpenPullRequest>>) -> Seq<Option<OpenPullRequestView>> {
    prs.map_values(
        |pr: Option<OpenPullRequest>|
            match pr {
                Some(pr) => Some(pr@),
                None => None,
            },
    )
}

/// The open pull request of a commit: that of its head branch. Two commits do not
/// share one.
pub open spec fn pr_of(
    commits: Seq<StackCommitView>,
    by_head: Map<Text, OpenPullRequestView>,
    i: int,
) -> Option<OpenPullRequestView> {
    let head = head_of(commits[i].branch);
    if by_head.contains_key(head) && forall|j: int|
        0 <= j < i ==> head_of((#[trigger] commits[j]).branch) != head {
        Some(by_head[head])
    } else {
        None
    }
}

/// The open pull requests of the first `n` commits. One that does not target the
/// base branch of its commit is an error.
pub open spec fn matched(
    commits: Seq<StackCommitView>,
    by_head: Map<Text, OpenPullRequestView>,
    n: nat,
) -> Result<Seq<Option<OpenPullRequestView>>, Text>
    decreases n,
{
    if n == 0 {
        Ok(Seq::empty())
    } else {
        match matched(commits, by_head, (n - 1) as nat) {
            Err(error) => Err(error),
            Ok(done) => {
                let found = pr_of(commits, by_head, n - 1);
                let base = base_of(commits[n - 1].branch);
                match found {
                    Some(pr) => if pr.base_ref_name != base {
                        Err(
                            "PR #"@ + decimal(pr.number as nat) + " targets "@ + quoted_text(
                                pr.base_ref_name,
                            ) + "; expected "@ + quoted_text(base),
                        )
                    } else {
                        Ok(done.push(found))
                    },
                    None => Ok(done.push(None)),
                }
            },
        }
    }
}

/// What pull requests or an error hold.
pub open spec fn prs_result(r: Result<Vec<Option<OpenPullRequest>>, String>) -> Result<
    Seq<Option<OpenPullRequestView>>,
    Text,
> {
    match r {
        Ok(v) => Ok(pr_views(v@)),
        Err(error) => Err(error@),
    }
}

/// A stage of `matched` that fails, fails the whole.
proof fn lemma_matched_fails(
    commits: Seq<StackCommitView>,
    by_head: Map<Text, OpenPullRequestView>,
    m: nat,
    n: nat,
    error: Text,
)
    requires
        m <= n,
        matched(commits, by_head, m) == Err::<Seq<Option<OpenPullRequestView>>, Text>(error),
    ensures
        matched(commits, by_head, n) == Err::<Seq<Option<OpenPullRequestView>>, Text>(error),
    decreases n - m,
{
    if m < n {
        lemma_matched_fails(commits, by_head, m + 1, n, error);
    }
}

/// The open pull requests of the commits.
fn match_prs(commits: &Vec<StackCommit>, by_head: &Dict<OpenPullRequest>) -> (r: Result<
    Vec<Option<OpenPullRequest>>,
    String,
>)
    ensures
        prs_result(r) == matched(views(commits@), by_head@, commits@.len()),
        match r {
            Ok(v) => v.len() == commits.len(),
            Err(_) => true,
        },
{
    let ghost all = views(commits@);
    let mut used = StringHashSet::new();
    let mut prs: Vec<Option<OpenPullRequest>> = Vec::new();
    let mut i: usize = 0;
    assert(pr_views(prs@) =~= Seq::<Option<OpenPullRequestView>>::empty());
    while i < commits.len()
        invariant
            i <= commits.len(),
            all == views(commits@),
            prs.len() == i,
            forall|h: Text| #[trigger]
                used@.contains(h) <==> exists|j: int|
                    0 <= j < i && head_of((#[trigger] all[j]).branch) == h,
            matched(all, by_head@, i as nat) == Ok::<Seq<Option<OpenPullRequestView>>, Text>(
                pr_views(prs@),
            ),
        decreases commits.len() - i,
    {
        let step = &commits[i];
        let ghost was = pr_views(prs@);
        let ghost seen = used@;
        assert(all[i as int] == step@);
        let head = step.head_branch();
        let base = step.base_branch();
        let fresh = used.insert(head.clone());
        proof {
            assert forall|h: Text| #[trigger] used@.contains(h) <==> exists|j: int|
                0 <= j < i + 1 && head_of((#[trigger] all[j]).branch) == h by {
                if seen.contains(h) {
                    let j = choose|j: int|
                        0 <= j < i && head_of((#[trigger] all[j]).branch) == h;
                    assert(head_of(all[j].branch) == h);
                }
                assert(head_of(all[i as int].branch) == head@);
            }
        }
        let pr = if fresh {
            match by_head.get(head.as_str()) {
                Some(pr) => Some(pr.clone()),
                None => None,
            }
        } else {
            None
        };
        proof {
            let found = pr_of(all, by_head@, i as int);
            if !fresh {
                let j = choose|j: int| 0 <= j < i && head_of((#[trigger] all[j]).branch) == head@;
                assert(head_of(all[j].branch) == head@);
            }
            assert(found == match pr {
                Some(pr) => Some(pr@),
                None => None,
            });
        }
        match &pr {
            Some(pr) => {
                if !same(pr.base_ref_name.as_str(), base.as_str()) {
                    let error = "PR #".to_owned().concat(to_decimal(pr.number).as_str()).concat(
                        " targets ",
                    ).concat(quoted(pr.base_ref_name.as_str()).as_str()).concat(
                        "; expected ",
                    ).concat(quoted(base.as_str()).as_str());
                    proof {
                        lemma_matched_fails(
                            all,
                            by_head@,
                            (i + 1) as nat,
                            commits@.len(),
                            error@,
                        );
                    }
                    return Err(error);
                }
            },
            None => {},
        }
        prs.push(pr);
        assert(pr_views(prs@) =~= was.push(pr_of(all, by_head@, i as int)));
        i = i + 1;
    }
    Ok(prs)
}

/// The pull requests to be opened: one for each commit that has none.
pub open spec fn requests(
    commits: Seq<StackCommitView>,
    prs: Seq<Option<OpenPullRequestView>>,
    draft: bool,
    n: nat,
) -> Seq<CreateView>
    decreases n,
{
    if n == 0 {
        Seq::empty()
    } else {
        let before = requests(commits, prs, draft, (n - 1) as nat);
        let commit = commits[n - 1];
        if prs[n - 1] is None {
            before.push(
                CreateView {
                    base: base_of(commit.branch),
                    head: head_of(commit.branch),
                    title: commit.subject,
                    body: commit.body,
                    draft,
                },
            )
        } else {
            before
        }
    }
}

/// The pull requests to be opened.
fn create_requests(plan: &SubmitPlan, prs: &Vec<Option<OpenPullRequest>>) -> (r: Vec<
    CreatePullRequest,
>)
    requires
        prs.len() == plan.commits.len(),
    ensures
        views(r@) == requests(
            plan@.commits,
            pr_views(prs@),
            plan@.options.draft,
            plan@.commits.len(),
        ),
{
    let ghost all = views(plan.commits@);
    let ghost known = pr_views(prs@);
    let mut r: Vec<CreatePullRequest> = Vec::new();
    let mut i: usize = 0;
    assert(views(r@) =~= Seq::<CreateView>::empty());
    while i < plan.commits.len()
        invariant
            i <= plan.commits.len(),
            prs.len() == plan.commits.len(),
            all == views(plan.commits@),
            known == pr_views(prs@),
            views(r@) == requests(all, known, plan.options.draft, i as nat),
        decreases plan.commits.len() - i,
    {
        let step = &plan.commits[i];
        assert(all[i as int] == step@);
        assert(known[i as int] is None == prs@[i as int] is None);
        if prs[i].is_none() {
            let ghost was = views(r@);
            let request = CreatePullRequest {
                base: step.base_branch(),
                head: step.head_branch(),
                title: step.subject.clone(),
                body: step.body.clone(),
                draft: plan.options.draft,
            };
            r.push(request);
            assert(views(r@) =~= was.push(request@));
        }
        i = i + 1;
    }
    r
}

/// How many of the first `n` commits have no pull request.
pub open spec fn lacking(prs: Seq<Option<OpenPullRequestView>>, n: nat) -> nat
    decreases n,
{
    if n == 0 {
        0
    } else {
        lacking(prs, (n - 1) as nat) + if prs[n - 1] is None {
            1nat
        } else {
            0
        }
    }
}

/// The pull requests of the commits once the lacking ones have been opened, in
/// order.
pub open spec fn filled(
    prs: Seq<Option<OpenPullRequestView>>,
    created: Seq<OpenPullRequestView>,
) -> Seq<OpenPullRequestView> {
    Seq::new(
        prs.len(),
        |i: int|
            match prs[i] {
                Some(pr) => pr,
                None => created[lacking(prs, i as nat) as int],
            },
    )
}

proof fn lemma_lacking_grows(prs: Seq<Option<OpenPullRequestView>>, m: nat, n: nat)
    requires
        m <= n,
    ensures
        lacking(prs, m) <= lacking(prs, n),
    decreases n,
{
    if m < n {
        lemma_lacking_grows(prs, m, (n - 1) as nat);
    }
}

/// As many pull requests are opened as are lacking.
proof fn lemma_requests_len(
    commits: Seq<StackCommitView>,
    prs: Seq<Option<OpenPullRequestView>>,
    draft: bool,
    n: nat,
)
    ensures
        requests(commits, prs, draft, n).len() == lacking(prs, n),
    decreases n,
{
    if n > 0 {
        lemma_requests_len(commits, prs, draft, (n - 1) as nat);
    }
}

/// Fills in the pull requests that have been opened.
pub(crate) fn fill(prs: &Vec<Option<OpenPullRequest>>, created: &Vec<OpenPullRequest>) -> (r: Vec<
    OpenPullRequest,
>)
    requires
        created.len() >= lacking(pr_views(prs@), prs@.len()),
    ensures
        views(r@) == filled(pr_views(prs@), views(created@)),
        r.len() == prs.len(),
{
    let ghost known = pr_views(prs@);
    let ghost new = views(created@);
    let mut r: Vec<OpenPullRequest> = Vec::new();
    let mut next: usize = 0;
    let mut i: usize = 0;
    while i < prs.len()
        invariant
            i <= prs.len(),
            known == pr_views(prs@),
            new == views(created@),
            created.len() >= lacking(known, prs@.len()),
            next == lacking(known, i as nat),
            r.len() == i,
            forall|j: int| 0 <= j < i ==> (#[trigger] r@[j])@ == filled(known, new)[j],
        decreases prs.len() - i,
    {
        proof {
            lemma_lacking_grows(known, (i + 1) as nat, prs@.len());
            assert(known[i as int] is None == prs@[i as int] is None);
        }
        match &prs[i] {
            Some(pr) => {
                r.push(pr.clone());
            },
            None => {
                assert(new[next as int] == created@[next as int]@);
                r.push(created[next].clone());
                next = next + 1;
            },
        }
        i = i + 1;
    }
    assert(views(r@) =~= filled(known, new));
    r
}

/// What is said of a commit's pull request.
pub open spec fn pr_report(commit: StackCommitView, existing: bool, pr: OpenPullRequestView) -> Text {
    if existing {
        commit.branch + ": reusing #"@ + decimal(pr.number as nat)
    } else {
        commit.branch + ": created "@ + pr.url
    }
}

/// What is said of the commits' pull requests.
pub open spec fn pr_reports(
    commits: Seq<StackCommitView>,
    known: Seq<Option<OpenPullRequestView>>,
    prs: Seq<OpenPullRequestView>,
) -> Seq<Text> {
    Seq::new(commits.len(), |i: int| pr_report(commits[i], known[i] is Some, prs[i]))
}

/// The rows of the table of the stack.
pub open spec fn entries(commits: Seq<StackCommitView>, prs: Seq<OpenPullRequestView>) -> Seq<
    EntryView,
> {
    Seq::new(commits.len(), |i: int| (commits[i].branch, Some(prs[i].number), commits[i].subject))
}

/// What the description of a commit's pull request is to be: the table of the stack
/// and the commit's own text.
pub open spec fn description(
    commits: Seq<StackCommitView>,
    prs: Seq<OpenPullRequestView>,
    i: int,
) -> Text {
    table(entries(commits, prs), commits[i].branch) + commits[i].body
}

/// The changes to the first `n` pull requests: to those whose title or description
/// is not what it is to be.
pub open spec fn edits(commits: Seq<StackCommitView>, prs: Seq<OpenPullRequestView>, n: nat) -> Seq<
    EditView,
>
    decreases n,
{
    if n == 0 {
        Seq::empty()
    } else {
        let before = edits(commits, prs, (n - 1) as nat);
        let commit = commits[n - 1];
        let pr = prs[n - 1];
        let body = description(commits, prs, n - 1);
        if pr.title != commit.subject || pr.body != body {
            before.push(EditView { id: pr.id, title: commit.subject, body })
        } else {
            before
        }
    }
}

/// What is said of the commits' pull requests.
fn report_prs(
    commits: &Vec<StackCommit>,
    known: &Vec<Option<OpenPullRequest>>,
    prs: &Vec<OpenPullRequest>,
) -> (r: Vec<String>)
    requires
        known.len() == commits.len(),
        prs.len() == commits.len(),
    ensures
        texts(r@) == pr_reports(views(commits@), pr_views(known@), views(prs@)),
{
    let ghost wanted = pr_reports(views(commits@), pr_views(known@), views(prs@));
    let mut r: Vec<String> = Vec::new();
    let mut i: usize = 0;
    while i < commits.len()
        invariant
            i <= commits.len(),
            known.len() == commits.len(),
            prs.len() == commits.len(),
            wanted == pr_reports(views(commits@), pr_views(known@), views(prs@)),
            r.len() == i,
            forall|j: int| 0 <= j < i ==> (#[trigger] r@[j])@ == wanted[j],
        decreases commits.len() - i,
    {
        assert(pr_views(known@)[i as int] is Some == known@[i as int] is Some);
        let step = &commits[i];
        let line = if known[i].is_some() {
            step.branch.clone().concat(": reusing #").concat(to_decimal(prs[i].number).as_str())
        } else {
            step.branch.clone().concat(": created ").concat(prs[i].url.as_str())
        };
        assert(line@ == wanted[i as int]);
        r.push(line);
        i = i + 1;
    }
    assert(texts(r@) =~= wanted);
    r
}

/// The changes to the pull requests.
fn edit_requests(commits: &Vec<StackCommit>, prs: &Vec<OpenPullRequest>) -> (r: Vec<
    EditPullRequest,
>)
    requires
        prs.len() == commits.len(),
    ensures
        views(r@) == edits(views(commits@), views(prs@), commits@.len()),
{
    let ghost all = views(commits@);
    let ghost found = views(prs@);
    let mut rows: Vec<StackEntry> = Vec::new();
    let mut i: usize = 0;
    while i < commits.len()
        invariant
            i <= commits.len(),
            prs.len() == commits.len(),
            all == views(commits@),
            found == views(prs@),
            rows.len() == i,
            forall|j: int| 0 <= j < i ==> (#[trigger] rows@[j])@ == entries(all, found)[j],
        decreases commits.len() - i,
    {
        let row: StackEntry = (
            commits[i].branch.clone(),
            Some(prs[i].number),
            commits[i].subject.clone(),
        );
        assert(row@ == entries(all, found)[i as int]);
        rows.push(row);
        i = i + 1;
    }
    assert(views(rows@) =~= entries(all, found));
    let mut r: Vec<EditPullRequest> = Vec::new();
    let mut i: usize = 0;
    assert(views(r@) =~= Seq::<EditView>::empty());
    while i < commits.len()
        invariant
            i <= commits.len(),
            prs.len() == commits.len(),
            all == views(commits@),
            found == views(prs@),
            views(rows@) == entries(all, found),
            views(r@) == edits(all, found, i as nat),
        decreases commits.len() - i,
    {
        let step = &commits[i];
        let pr = &prs[i];
        assert(all[i as int] == step@);
        assert(found[i as int] == pr@);
        let body = stack_table(&rows, step.branch.as_str()).concat(step.body.as_str());
        if !same(pr.title.as_str(), step.subject.as_str()) || !same(
            pr.body.as_str(),
            body.as_str(),
        ) {
            let ghost was = views(r@);
            let edit = EditPullRequest { id: pr.id.clone(), title: step.subject.clone(), body };
            r.push(edit);
            assert(views(r@) =~= was.push(edit@));
        }
        i = i + 1;
    }
    r
}

/// What was found on GitHub: the repository's id, and the open pull requests by
/// their head branches.
pub struct Discovery {
    pub repository_id: String,
    pub by_head: Dict<OpenPullRequest>,
}

/// What happens while a stack is published.
pub enum PublishEvent {
    Discovered(Discovery),
    Rewritten(SubmitPlan),
    HeadsSynced,
    Pushed,
    Created(Vec<OpenPullRequest>),
    Edited,
    Linked,
}

/// What a `PublishEvent` holds.
pub enum EventView {
    Discovered { repository_id: Text, by_head: Map<Text, OpenPullRequestView> },
    Rewritten(PlanView),
    HeadsSynced,
    Pushed,
    Created(Seq<OpenPullRequestView>),
    Edited,
    Linked,
}

impl View for PublishEvent {
    type V = EventView;

    open spec fn view(&self) -> EventView {
        match self {
            PublishEvent::Discovered(found) => EventView::Discovered {
                repository_id: found.repository_id@,
                by_head: found.by_head@,
            },
            PublishEvent::Rewritten(plan) => EventView::Rewritten(plan@),
            PublishEvent::HeadsSynced => EventView::HeadsSynced,
            PublishEvent::Pushed => EventView::Pushed,
            PublishEvent::Created(prs) => EventView::Created(views(prs@)),
            PublishEvent::Edited => EventView::Edited,
            PublishEvent::Linked => EventView::Linked,
        }
    }
}

/// What is to be done next while a stack is published.
pub enum PublishAction {
    /// Find the open pull requests of the head branches.
    Discover(Vec<String>),
    /// Record the identities of the commits in their messages.
    Rewrite,
    /// Bring the local branches to the commits.
    SyncHeads,
    /// Make the remote's branches point at the commits.
    Push(Vec<(String, String)>),
    /// Open the pull requests that are lacking.
    Create { repository_id: String, requests: Vec<CreatePullRequest> },
    /// Change the pull requests.
    Edit(Vec<EditPullRequest>),
    /// Make the pull requests a stack on GitHub.
    Link(StackLink),
    /// Nothing: the stack is published.
    Finish,
}

/// What a `PublishAction` holds.
pub enum ActionView {
    Discover(Seq<Text>),
    Rewrite,
    SyncHeads,
    Push(Seq<(Text, Text)>),
    Create { repository_id: Text, requests: Seq<CreateView> },
    Edit(Seq<EditView>),
    Link(StackLinkView),
    Finish,
}

impl View for PublishAction {
    type V = ActionView;

    open spec fn view(&self) -> ActionView {
        match self {
            PublishAction::Discover(heads) => ActionView::Discover(texts(heads@)),
            PublishAction::Rewrite => ActionView::Rewrite,
            PublishAction::SyncHeads => ActionView::SyncHeads,
            PublishAction::Push(updates) => ActionView::Push(views(updates@)),
            PublishAction::Create { repository_id, requests } => ActionView::Create {
                repository_id: repository_id@,
                requests: views(requests@),
            },
            PublishAction::Edit(edits) => ActionView::Edit(views(edits@)),
            PublishAction::Link(link) => ActionView::Link(link@),
            PublishAction::Finish => ActionView::Finish,
        }
    }
}

/// How far a publication has come: what it waits for.
#[derive(Clone, Copy, Debug, PartialEq, Eq, Structural)]
pub enum Stage {
    Discovery,
    Rewriting,
    Syncing,
    Pushing,
    Creating,
    Editing,
    Linking,
    Finished,
}

/// A stack that is being published.
pub struct Publication {
    pub plan: SubmitPlan,
    pub repository_id: String,
    /// The open pull requests that the commits had when it began.
    pub known: Vec<Option<OpenPullRequest>>,
    /// The pull requests that were opened for the others.
    pub created: Vec<OpenPullRequest>,
    pub stage: Stage,
}

/// What a `Publication` holds.
#[verifier::ext_equal]
pub struct PublicationView {
    pub plan: PlanView,
    pub repository_id: Text,
    pub known: Seq<Option<OpenPullRequestView>>,
    pub created: Seq<OpenPullRequestView>,
    pub stage: Stage,
}

impl View for Publication {
    type V = PublicationView;

    open spec fn view(&self) -> PublicationView {
        PublicationView {
            plan: self.plan@,
            repository_id: self.repository_id@,
            known: pr_views(self.known@),
            created: views(self.created@),
            stage: self.stage,
        }
    }
}

/// What is said, and what is done next.
pub struct PublishOutput {
    pub reports: Vec<String>,
    pub action: PublishAction,
}

/// What a `PublishOutput` holds.
pub struct OutputView {
    pub reports: Seq<Text>,
    pub action: ActionView,
}

impl View for PublishOutput {
    type V = OutputView;

    open spec fn view(&self) -> OutputView {
        OutputView { reports: texts(self.reports@), action: self.action@ }
    }
}

/// The head branches of commits.
pub open spec fn heads(commits: Seq<StackCommitView>) -> Seq<Text> {
    commits.map_values(|commit: StackCommitView| head_of(commit.branch))
}

/// What is pushed: each branch of the plan, with its commit.
pub open spec fn pushes(updates: Seq<RefUpdateView>) -> Seq<(Text, Text)> {
    updates.map_values(|update: RefUpdateView| (update.branch, update.rev))
}

/// An event is one that the stage waits for. The plan keeps its commits, and as many
/// pull requests have been opened as were lacking.
pub open spec fn event_fits(state: PublicationView, event: EventView) -> bool {
    match (state.stage, event) {
        (Stage::Discovery, EventView::Discovered { .. }) => true,
        (Stage::Rewriting, EventView::Rewritten(plan)) => plan.commits.len()
            == state.plan.commits.len(),
        (Stage::Syncing, EventView::HeadsSynced) => true,
        (Stage::Pushing, EventView::Pushed) => true,
        (Stage::Creating, EventView::Created(created)) => created.len() >= lacking(
            state.known,
            state.known.len(),
        ),
        (Stage::Editing, EventView::Edited) => true,
        (Stage::Linking, EventView::Linked) => true,
        _ => false,
    }
}

/// Whether every commit has its pull request.
pub open spec fn all_opened(stage: Stage) -> bool {
    stage == Stage::Editing || stage == Stage::Linking || stage == Stage::Finished
}

/// A publication is consistent: once discovery is done it knows of each commit
/// whether it had a pull request, and once pull requests are opened there is one for each
/// that had none.
pub open spec fn publication_well(state: PublicationView) -> bool {
    &&& state.stage != Stage::Discovery ==> state.known.len() == state.plan.commits.len()
    &&& all_opened(state.stage) ==> state.created.len() >= lacking(state.known, state.known.len())
}

/// What is next once the messages hold their identities.
pub open spec fn sync_output() -> OutputView {
    OutputView {
        reports: seq!["updating local PR head branches"@],
        action: ActionView::SyncHeads,
    }
}

/// The publication after an event, and what is next. Identities are recorded only
/// where some are added; local branches come before the remote's, and then pull requests,
/// which are made a stack last.
pub open spec fn advanced(state: PublicationView, event: EventView) -> Result<
    (PublicationView, OutputView),
    Text,
> {
    let commits = state.plan.commits;
    match event {
        EventView::Discovered { repository_id, by_head } => match matched(
            commits,
            by_head,
            commits.len(),
        ) {
            Err(error) => Err(error),
            Ok(known) => if adds_identity(commits) {
                Ok(
                    (
                        PublicationView { repository_id, known, stage: Stage::Rewriting, ..state },
                        OutputView {
                            reports: seq![
                                "recording stable "@ + IDENTITY_TRAILER@ + " trailers"@,
                            ],
                            action: ActionView::Rewrite,
                        },
                    ),
                )
            } else {
                Ok(
                    (
                        PublicationView { repository_id, known, stage: Stage::Syncing, ..state },
                        sync_output(),
                    ),
                )
            },
        },
        EventView::Rewritten(plan) => Ok(
            (PublicationView { plan, stage: Stage::Syncing, ..state }, sync_output()),
        ),
        EventView::HeadsSynced => Ok(
            (
                PublicationView { stage: Stage::Pushing, ..state },
                OutputView {
                    reports: seq!["pushing PR base and head refs"@],
                    action: ActionView::Push(pushes(state.plan.updates)),
                },
            ),
        ),
        EventView::Pushed => Ok(
            (
                PublicationView { stage: Stage::Creating, ..state },
                OutputView {
                    reports: Seq::empty(),
                    action: ActionView::Create {
                        repository_id: state.repository_id,
                        requests: requests(
                            commits,
                            state.known,
                            state.plan.options.draft,
                            commits.len(),
                        ),
                    },
                },
            ),
        ),
        EventView::Created(created) => {
            let prs = filled(state.known, created);
            Ok(
                (
                    PublicationView { created, stage: Stage::Editing, ..state },
                    OutputView {
                        reports: pr_reports(commits, state.known, prs),
                        action: ActionView::Edit(edits(commits, prs, commits.len())),
                    },
                ),
            )
        },
        EventView::Edited => Ok(
            (
                PublicationView { stage: Stage::Linking, ..state },
                OutputView {
                    reports: Seq::empty(),
                    action: ActionView::Link(stack_link_of(state)),
                },
            ),
        ),
        EventView::Linked => Ok(
            (
                PublicationView { stage: Stage::Finished, ..state },
                OutputView {
                    reports: seq![
                        "\n"@ + decimal(commits.len()) + " pull requests in "@ + state.plan.fork
                            + "."@,
                    ],
                    action: ActionView::Finish,
                },
            ),
        ),
    }
}

/// What an advance or an error holds.
pub open spec fn advance_result(r: Result<(Publication, PublishOutput), String>) -> Result<
    (PublicationView, OutputView),
    Text,
> {
    match r {
        Ok(next) => Ok((next.0@, next.1@)),
        Err(error) => Err(error@),
    }
}

/// One report.
fn report(line: String) -> (r: Vec<String>)
    ensures
        texts(r@) == seq![line@],
{
    let mut r: Vec<String> = Vec::new();
    r.push(line);
    assert(texts(r@) =~= seq![line@]);
    r
}

/// The head branches of commits.
pub(crate) fn head_branches(commits: &Vec<StackCommit>) -> (r: Vec<String>)
    ensures
        texts(r@) == heads(views(commits@)),
{
    let mut r: Vec<String> = Vec::new();
    let mut i: usize = 0;
    while i < commits.len()
        invariant
            i <= commits.len(),
            r.len() == i,
            forall|j: int| 0 <= j < i ==> (#[trigger] r@[j])@ == heads(views(commits@))[j],
        decreases commits.len() - i,
    {
        r.push(commits[i].head_branch());
        i = i + 1;
    }
    assert(texts(r@) =~= heads(views(commits@)));
    r
}

/// What is pushed.
fn push_updates(plan: &SubmitPlan) -> (r: Vec<(String, String)>)
    ensures
        views(r@) == pushes(plan@.updates),
{
    let ghost wanted = pushes(plan@.updates);
    let mut r: Vec<(String, String)> = Vec::new();
    let mut i: usize = 0;
    while i < plan.updates.len()
        invariant
            i <= plan.updates.len(),
            wanted == pushes(plan@.updates),
            r.len() == i,
            forall|j: int| 0 <= j < i ==> (#[trigger] r@[j])@ == wanted[j],
        decreases plan.updates.len() - i,
    {
        let pair = (plan.updates[i].branch.clone(), plan.updates[i].rev.clone());
        assert(pair@ == wanted[i as int]);
        r.push(pair);
        i = i + 1;
    }
    assert(views(r@) =~= wanted);
    r
}

/// What is next once the messages hold their identities.
fn sync_next() -> (r: PublishOutput)
    ensures
        r@ == sync_output(),
{
    PublishOutput {
        reports: report("updating local PR head branches".to_owned()),
        action: PublishAction::SyncHeads,
    }
}

/// A publication of which nothing is done.
pub open spec fn begin(plan: PlanView) -> PublicationView {
    PublicationView {
        plan,
        repository_id: Seq::empty(),
        known: Seq::empty(),
        created: Seq::empty(),
        stage: Stage::Discovery,
    }
}

/// What a publication begins with: finding the open pull requests.
pub open spec fn first_output(plan: PlanView) -> OutputView {
    OutputView { reports: Seq::empty(), action: ActionView::Discover(heads(plan.commits)) }
}

/// Begins to publish a plan: the open pull requests of its commits are to be
/// found first.
pub fn execute(plan: SubmitPlan) -> (r: (Publication, PublishOutput))
    ensures
        r.0@ == begin(plan@),
        r.1@ == first_output(plan@),
        publication_well(r.0@),
{
    let found = head_branches(&plan.commits);
    let state = Publication {
        plan,
        repository_id: String::new(),
        known: Vec::new(),
        created: Vec::new(),
        stage: Stage::Discovery,
    };
    let output = PublishOutput { reports: Vec::new(), action: PublishAction::Discover(found) };
    assert(state@.repository_id =~= Seq::<char>::empty());
    assert(state@.known =~= Seq::<Option<OpenPullRequestView>>::empty());
    assert(state@.created =~= Seq::<OpenPullRequestView>::empty());
    assert(texts(output.reports@) =~= Seq::<Text>::empty());
    (state, output)
}

/// Goes on with the publication after an event.
pub fn execute_with(state: Publication, event: PublishEvent) -> (r: Result<(Publication, PublishOutput), String>)
    requires
        publication_well(state@),
        event_fits(state@, event@),
    ensures
        advance_result(r) == advanced(state@, event@),
        match r {
            Ok(next) => publication_well(next.0@),
            Err(_) => true,
        },
{
    match event {
        PublishEvent::Discovered(found) => {
            let known = match match_prs(&state.plan.commits, &found.by_head) {
                Ok(known) => known,
                Err(error) => {
                    return Err(error);
                },
            };
            if any_identity_added(&state.plan.commits) {
                let next = Publication {
                    plan: state.plan,
                    repository_id: found.repository_id,
                    known,
                    created: state.created,
                    stage: Stage::Rewriting,
                };
                let line = "recording stable ".to_owned().concat(IDENTITY_TRAILER).concat(
                    " trailers",
                );
                Ok(
                    (
                        next,
                        PublishOutput {
                            reports: report(line),
                            action: PublishAction::Rewrite,
                        },
                    ),
                )
            } else {
                let next = Publication {
                    plan: state.plan,
                    repository_id: found.repository_id,
                    known,
                    created: state.created,
                    stage: Stage::Syncing,
                };
                Ok((next, sync_next()))
            }
        },
        PublishEvent::Rewritten(plan) => {
            let next = Publication {
                plan,
                repository_id: state.repository_id,
                known: state.known,
                created: state.created,
                stage: Stage::Syncing,
            };
            Ok((next, sync_next()))
        },
        PublishEvent::HeadsSynced => {
            let updates = push_updates(&state.plan);
            let next = Publication {
                plan: state.plan,
                repository_id: state.repository_id,
                known: state.known,
                created: state.created,
                stage: Stage::Pushing,
            };
            Ok(
                (
                    next,
                    PublishOutput {
                        reports: report("pushing PR base and head refs".to_owned()),
                        action: PublishAction::Push(updates),
                    },
                ),
            )
        },
        PublishEvent::Pushed => {
            let found = create_requests(&state.plan, &state.known);
            let repository_id = state.repository_id.clone();
            let next = Publication {
                plan: state.plan,
                repository_id: state.repository_id,
                known: state.known,
                created: state.created,
                stage: Stage::Creating,
            };
            let output = PublishOutput {
                reports: Vec::new(),
                action: PublishAction::Create { repository_id, requests: found },
            };
            assert(texts(output.reports@) =~= Seq::<Text>::empty());
            Ok((next, output))
        },
        PublishEvent::Created(created) => {
            let prs = fill(&state.known, &created);
            let reports = report_prs(&state.plan.commits, &state.known, &prs);
            let changes = edit_requests(&state.plan.commits, &prs);
            let next = Publication {
                plan: state.plan,
                repository_id: state.repository_id,
                known: state.known,
                created,
                stage: Stage::Editing,
            };
            Ok((next, PublishOutput { reports, action: PublishAction::Edit(changes) }))
        },
        PublishEvent::Edited => {
            let link = stack_link(&state);
            let next = Publication {
                plan: state.plan,
                repository_id: state.repository_id,
                known: state.known,
                created: state.created,
                stage: Stage::Linking,
            };
            let output = PublishOutput { reports: Vec::new(), action: PublishAction::Link(link) };
            assert(texts(output.reports@) =~= Seq::<Text>::empty());
            Ok((next, output))
        },
        PublishEvent::Linked => {
            let line = "\n".to_owned().concat(
                to_decimal(state.plan.commits.len() as u64).as_str(),
            ).concat(" pull requests in ").concat(state.plan.fork.as_str()).concat(".");
            let next = Publication {
                plan: state.plan,
                repository_id: state.repository_id,
                known: state.known,
                created: state.created,
                stage: Stage::Finished,
            };
            Ok(
                (
                    next,
                    PublishOutput { reports: report(line), action: PublishAction::Finish },
                ),
            )
        },
    }
}

/// What publishing a plan that was previewed begins with: nothing where the plan is
/// not the same any more.
pub fn execute_checked(fresh: SubmitPlan, expected: &SubmitPlan) -> (r: Result<
    (Publication, PublishOutput),
    String,
>)
    ensures
        match r {
            Ok(begun) => {
                &&& fresh@ == expected@
                &&& begun.0@ == begin(fresh@)
                &&& begun.1@ == first_output(fresh@)
                &&& publication_well(begun.0@)
            },
            Err(error) => fresh@ != expected@ && error@
                == "publish plan changed after fetch; press f to preview the fresh plan"@,
        },
{
    if fresh.same(expected) {
        Ok(execute(fresh))
    } else {
        Err("publish plan changed after fetch; press f to preview the fresh plan".to_owned())
    }
}

/// Where the pull requests of a publication are shown, by the head branches of its commits.
pub open spec fn links_of(state: PublicationView) -> Seq<LinkView> {
    let prs = filled(state.known, state.created);
    Seq::new(
        state.plan.commits.len(),
        |i: int|
            LinkView {
                number: prs[i].number,
                head_ref_name: heads(state.plan.commits)[i],
                url: prs[i].url,
            },
    )
}

/// Computes `links_of`.
pub fn published_links(state: &Publication) -> (r: Vec<PullRequestLink>)
    requires
        publication_well(state@),
        all_opened(state@.stage),
    ensures
        views(r@) == links_of(state@),
{
    let prs = fill(&state.known, &state.created);
    let found = head_branches(&state.plan.commits);
    let ghost wanted = links_of(state@);
    assert(texts(found@).len() == found@.len());
    assert(views(state.plan.commits@).len() == found.len());
    let mut r: Vec<PullRequestLink> = Vec::new();
    let mut i: usize = 0;
    while i < prs.len()
        invariant
            i <= prs.len(),
            prs.len() == found.len(),
            wanted == links_of(state@),
            wanted.len() == prs.len(),
            views(prs@) == filled(state@.known, state@.created),
            texts(found@) == heads(state@.plan.commits),
            r.len() == i,
            forall|j: int| 0 <= j < i ==> (#[trigger] r@[j])@ == wanted[j],
        decreases prs.len() - i,
    {
        let link = PullRequestLink {
            number: prs[i].number,
            head_ref_name: found[i].clone(),
            url: prs[i].url.clone(),
        };
        assert(views(prs@)[i as int] == prs@[i as int]@);
        assert(texts(found@)[i as int] == found@[i as int]@);
        assert(link@ == wanted[i as int]);
        r.push(link);
        i = i + 1;
    }
    assert(views(r@) =~= wanted);
    r
}

/// A pull request is opened for each commit that had none and for no other, so that
/// afterwards every commit has one: the one it had, or the one opened for it.
pub proof fn law_every_commit_gets_a_pull_request(
    commits: Seq<StackCommitView>,
    known: Seq<Option<OpenPullRequestView>>,
    draft: bool,
    created: Seq<OpenPullRequestView>,
    i: int,
)
    requires
        known.len() == commits.len(),
        created.len() == requests(commits, known, draft, commits.len()).len(),
        0 <= i < commits.len(),
    ensures
        filled(known, created).len() == commits.len(),
        match known[i] {
            Some(pr) => filled(known, created)[i] == pr,
            None => {
                let k = lacking(known, i as nat) as int;
                &&& 0 <= k < created.len()
                &&& filled(known, created)[i] == created[k]
                &&& requests(commits, known, draft, commits.len())[k].head == head_of(
                    commits[i].branch,
                )
                &&& requests(commits, known, draft, commits.len())[k].base == base_of(
                    commits[i].branch,
                )
            },
        },
{
    lemma_requests_len(commits, known, draft, commits.len());
    lemma_requests_len(commits, known, draft, i as nat);
    lemma_lacking_grows(known, (i + 1) as nat, commits.len());
    if known[i] is None {
        lemma_request_stays(commits, known, draft, (i + 1) as nat, commits.len());
        let all = requests(commits, known, draft, commits.len());
        let some = requests(commits, known, draft, (i + 1) as nat);
        let k = lacking(known, i as nat) as int;
        assert(some.len() == k + 1);
        assert(some[k] == some.last());
        assert(all.subrange(0, some.len() as int)[k] == all[k]);
    }
}

/// What is opened for the first commits is opened first.
proof fn lemma_request_stays(
    commits: Seq<StackCommitView>,
    known: Seq<Option<OpenPullRequestView>>,
    draft: bool,
    m: nat,
    n: nat,
)
    requires
        m <= n,
    ensures
        requests(commits, known, draft, m).is_prefix_of(requests(commits, known, draft, n)),
    decreases n,
{
    let all = requests(commits, known, draft, n);
    let some = requests(commits, known, draft, m);
    if m < n {
        lemma_request_stays(commits, known, draft, m, (n - 1) as nat);
        let most = requests(commits, known, draft, (n - 1) as nat);
        assert(all.subrange(0, some.len() as int) =~= most.subrange(0, some.len() as int));
    } else {
        assert(all.subrange(0, some.len() as int) =~= some);
    }
}

/// A pull request whose title or description is not as it is to be is changed.
pub proof fn law_stale_pull_requests_change(
    commits: Seq<StackCommitView>,
    prs: Seq<OpenPullRequestView>,
    n: nat,
    i: int,
)
    requires
        0 <= i < n,
        prs[i].title != commits[i].subject || prs[i].body != description(commits, prs, i),
    ensures
        edits(commits, prs, n).contains(
            EditView {
                id: prs[i].id,
                title: commits[i].subject,
                body: description(commits, prs, i),
            },
        ),
    decreases n,
{
    let edit = EditView {
        id: prs[i].id,
        title: commits[i].subject,
        body: description(commits, prs, i),
    };
    let before = edits(commits, prs, (n - 1) as nat);
    if i < n - 1 {
        law_stale_pull_requests_change(commits, prs, (n - 1) as nat, i);
        let e = choose|e: int| 0 <= e < before.len() && before[e] == edit;
        assert(edits(commits, prs, n)[e] == edit);
    } else {
        assert(edits(commits, prs, n) =~= before.push(edit));
        assert(edits(commits, prs, n)[before.len() as int] == edit);
    }
}

/// A pull request whose title and description are as they are to be is not changed.
pub proof fn law_only_stale_pull_requests_change(
    commits: Seq<StackCommitView>,
    prs: Seq<OpenPullRequestView>,
    n: nat,
    e: int,
)
    requires
        0 <= e < edits(commits, prs, n).len(),
    ensures
        exists|i: int|
            #![trigger commits[i]]
            0 <= i < n && edits(commits, prs, n)[e] == (EditView {
                id: prs[i].id,
                title: commits[i].subject,
                body: description(commits, prs, i),
            }) && (prs[i].title != commits[i].subject || prs[i].body != description(
                commits,
                prs,
                i,
            )),
    decreases n,
{
    let before = edits(commits, prs, (n - 1) as nat);
    if e < before.len() {
        law_only_stale_pull_requests_change(commits, prs, (n - 1) as nat, e);
        let i = choose|i: int|
            #![trigger commits[i]]
            0 <= i < n - 1 && before[e] == (EditView {
                id: prs[i].id,
                title: commits[i].subject,
                body: description(commits, prs, i),
            }) && (prs[i].title != commits[i].subject || prs[i].body != description(
                commits,
                prs,
                i,
            ));
        assert(edits(commits, prs, n)[e] == before[e]);
        assert(commits[i] == commits[i]);
    } else {
        assert(commits[n - 1] == commits[n - 1]);
    }
}

} // verus!
