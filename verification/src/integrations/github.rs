//! Pull requests on GitHub.

use crate::integrations::runner::{reply, Call, CommandRunner, Recorded};
use crate::number::{decimal, law_decimal_is_parsed, lemma_decimal, parse, parsed, to_decimal};
use crate::order::views;
use crate::split::{split, split_on};
use crate::text::{texts, Text};
use vstd::prelude::*;

verus! {

/// An open pull request, as it is found by its branch.
#[derive(Debug, PartialEq, Eq)]
pub struct PullRequest {
    pub number: u64,
    pub base_ref_name: String,
}

/// What a `PullRequest` holds.
#[verifier::ext_equal]
pub struct PullRequestView {
    pub number: u64,
    pub base_ref_name: Text,
}

impl View for PullRequest {
    type V = PullRequestView;

    open spec fn view(&self) -> PullRequestView {
        PullRequestView { number: self.number, base_ref_name: self.base_ref_name@ }
    }
}

impl Clone for PullRequest {
    fn clone(&self) -> (r: Self)
        ensures
            r@ == self@,
    {
        PullRequest { number: self.number, base_ref_name: self.base_ref_name.clone() }
    }
}

/// An open pull request with what is shown of it.
#[derive(Debug, PartialEq, Eq)]
pub struct OpenPullRequest {
    pub id: String,
    pub number: u64,
    pub base_ref_name: String,
    pub title: String,
    pub body: String,
    pub url: String,
}

/// What an `OpenPullRequest` holds.
#[verifier::ext_equal]
pub struct OpenPullRequestView {
    pub id: Text,
    pub number: u64,
    pub base_ref_name: Text,
    pub title: Text,
    pub body: Text,
    pub url: Text,
}

impl View for OpenPullRequest {
    type V = OpenPullRequestView;

    open spec fn view(&self) -> OpenPullRequestView {
        OpenPullRequestView {
            id: self.id@,
            number: self.number,
            base_ref_name: self.base_ref_name@,
            title: self.title@,
            body: self.body@,
            url: self.url@,
        }
    }
}

impl Clone for OpenPullRequest {
    fn clone(&self) -> (r: Self)
        ensures
            r@ == self@,
    {
        OpenPullRequest {
            id: self.id.clone(),
            number: self.number,
            base_ref_name: self.base_ref_name.clone(),
            title: self.title.clone(),
            body: self.body.clone(),
            url: self.url.clone(),
        }
    }
}

/// Where the pull request of a branch is shown.
#[derive(Debug, PartialEq, Eq)]
pub struct PullRequestLink {
    pub number: u64,
    pub head_ref_name: String,
    pub url: String,
}

/// What a `PullRequestLink` holds.
#[verifier::ext_equal]
pub struct LinkView {
    pub number: u64,
    pub head_ref_name: Text,
    pub url: Text,
}

impl View for PullRequestLink {
    type V = LinkView;

    open spec fn view(&self) -> LinkView {
        LinkView { number: self.number, head_ref_name: self.head_ref_name@, url: self.url@ }
    }
}

impl Clone for PullRequestLink {
    fn clone(&self) -> (r: Self)
        ensures
            r@ == self@,
    {
        PullRequestLink {
            number: self.number,
            head_ref_name: self.head_ref_name.clone(),
            url: self.url.clone(),
        }
    }
}

/// A pull request to be opened.
#[derive(Debug, PartialEq, Eq)]
pub struct CreatePullRequest {
    pub base: String,
    pub head: String,
    pub title: String,
    pub body: String,
    pub draft: bool,
}

/// What a `CreatePullRequest` holds.
#[verifier::ext_equal]
pub struct CreateView {
    pub base: Text,
    pub head: Text,
    pub title: Text,
    pub body: Text,
    pub draft: bool,
}

impl View for CreatePullRequest {
    type V = CreateView;

    open spec fn view(&self) -> CreateView {
        CreateView {
            base: self.base@,
            head: self.head@,
            title: self.title@,
            body: self.body@,
            draft: self.draft,
        }
    }
}

/// A pull request to be changed.
#[derive(Debug, PartialEq, Eq)]
pub struct EditPullRequest {
    pub id: String,
    pub title: String,
    pub body: String,
}

/// What an `EditPullRequest` holds.
#[verifier::ext_equal]
pub struct EditView {
    pub id: Text,
    pub title: Text,
    pub body: Text,
}

impl View for EditPullRequest {
    type V = EditView;

    open spec fn view(&self) -> EditView {
        EditView { id: self.id@, title: self.title@, body: self.body@ }
    }
}

/// A run of the GitHub CLI without input.
pub open spec fn gh_run(repo: Text, args: Seq<Text>, reply: Result<Text, Text>) -> Call {
    Call { program: "gh"@, args, repo, input: None, env: Seq::empty(), reply }
}

fn run<R: CommandRunner>(runner: &mut Recorded<R>, repo: &str, args: &Vec<String>) -> (r: Result<
    String,
    String,
>)
    ensures
        final(runner).history() == old(runner).history().push(
            gh_run(repo@, texts(args@), reply(r)),
        ),
{
    let env: Vec<(String, String)> = Vec::new();
    assert(views(env@) =~= Seq::<(Text, Text)>::empty());
    runner.run("gh", args, repo, &None, &env)
}

/// The arguments that list the open pull requests of a branch.
pub open spec fn list_args(fork: Text, branch: Text) -> Seq<Text> {
    seq![
        "pr"@,
        "list"@,
        "--repo"@,
        fork,
        "--head"@,
        branch,
        "--state"@,
        "open"@,
        "--json"@,
        "number,baseRefName,title,body"@,
    ]
}

/// What a pull request that may not be there holds.
pub open spec fn first_of(prs: Seq<PullRequest>) -> Option<PullRequestView> {
    if prs.len() == 0 {
        None
    } else {
        Some(prs[0]@)
    }
}

/// What a pull request, none or an error holds.
pub open spec fn found_result(r: Result<Option<PullRequest>, String>) -> Result<
    Option<PullRequestView>,
    Text,
> {
    match r {
        Ok(Some(pr)) => Ok(Some(pr@)),
        Ok(None) => Ok(None),
        Err(error) => Err(error@),
    }
}

/// The arguments that list some fields of the open pull requests of a branch.
fn list_with(fork: &str, branch: &str, fields: &str) -> (r: Vec<String>)
    ensures
        texts(r@) == list_args(fork@, branch@).update(9, fields@),
{
    let mut args: Vec<String> = Vec::new();
    args.push("pr".to_owned());
    args.push("list".to_owned());
    args.push("--repo".to_owned());
    args.push(fork.to_owned());
    args.push("--head".to_owned());
    args.push(branch.to_owned());
    args.push("--state".to_owned());
    args.push("open".to_owned());
    args.push("--json".to_owned());
    args.push(fields.to_owned());
    assert(texts(args@) =~= list_args(fork@, branch@).update(9, fields@));
    args
}

/// The open pull request of a branch, the first where there are several. `parse`
/// reads the list that the GitHub CLI prints; nothing printed is an empty list.
pub fn existing_pr<R: CommandRunner, P: Fn(&str) -> Result<Vec<PullRequest>, String>>(
    runner: &mut Recorded<R>,
    repo: &str,
    fork: &str,
    branch: &str,
    parse: P,
) -> (r: Result<Option<PullRequest>, String>)
    requires
        forall|text: &str| #[trigger] call_requires(parse, (text,)),
    ensures
        ({
            let answer = final(runner).history().last().reply;
            &&& final(runner).history() == old(runner).history().push(
                gh_run(repo@, list_args(fork@, branch@), answer),
            )
            &&& match answer {
                Err(error) => found_result(r) == Err::<Option<PullRequestView>, Text>(error),
                Ok(output) => exists|text: &str, read: Result<Vec<PullRequest>, String>|
                    {
                        &&& #[trigger] call_ensures(parse, (text,), read)
                        &&& text@ == if output.len() == 0 {
                            "[]"@
                        } else {
                            output
                        }
                        &&& found_result(r) == match read {
                            Ok(prs) => Ok::<Option<PullRequestView>, Text>(first_of(prs@)),
                            Err(error) => Err("could not parse gh output: "@ + error@),
                        }
                    },
            }
        }),
{
    let args = list_with(fork, branch, "number,baseRefName,title,body");
    assert(texts(args@) =~= list_args(fork@, branch@));
    let output = match run(runner, repo, &args) {
        Ok(output) => output,
        Err(error) => {
            return Err(error);
        },
    };
    let text = if output.as_str().is_empty() {
        "[]"
    } else {
        output.as_str()
    };
    match parse(text) {
        Err(error) => Err("could not parse gh output: ".to_owned().concat(error.as_str())),
        Ok(mut prs) => {
            if prs.len() == 0 {
                Ok(None)
            } else {
                Ok(Some(prs.remove(0)))
            }
        },
    }
}

/// The arguments that list where the open pull requests of a branch are shown.
pub open spec fn link_args(fork: Text, branch: Text) -> Seq<Text> {
    list_args(fork, branch).update(9, "number,headRefName,url"@)
}

/// What links or an error hold.
pub open spec fn links_result(r: Result<Vec<PullRequestLink>, String>) -> Result<
    Seq<LinkView>,
    Text,
> {
    match r {
        Ok(links) => Ok(views(links@)),
        Err(error) => Err(error@),
    }
}

/// Where the open pull requests of a branch are shown. `parse` reads the list that the
/// GitHub CLI prints; nothing printed is an empty list.
pub fn load_pr_links<R: CommandRunner, P: Fn(&str) -> Result<Vec<PullRequestLink>, String>>(
    runner: &mut Recorded<R>,
    repo: &str,
    fork: &str,
    branch: &str,
    parse: P,
) -> (r: Result<Vec<PullRequestLink>, String>)
    requires
        forall|text: &str| #[trigger] call_requires(parse, (text,)),
    ensures
        ({
            let answer = final(runner).history().last().reply;
            &&& final(runner).history() == old(runner).history().push(
                gh_run(repo@, link_args(fork@, branch@), answer),
            )
            &&& match answer {
                Err(error) => links_result(r) == Err::<Seq<LinkView>, Text>(error),
                Ok(output) => exists|text: &str, read: Result<Vec<PullRequestLink>, String>|
                    {
                        &&& #[trigger] call_ensures(parse, (text,), read)
                        &&& text@ == if output.len() == 0 {
                            "[]"@
                        } else {
                            output
                        }
                        &&& links_result(r) == match read {
                            Ok(links) => Ok::<Seq<LinkView>, Text>(views(links@)),
                            Err(error) => Err("could not parse gh output: "@ + error@),
                        }
                    },
            }
        }),
{
    let args = list_with(fork, branch, "number,headRefName,url");
    assert(texts(args@) =~= link_args(fork@, branch@));
    let output = match run(runner, repo, &args) {
        Ok(output) => output,
        Err(error) => {
            return Err(error);
        },
    };
    let text = if output.as_str().is_empty() {
        "[]"
    } else {
        output.as_str()
    };
    match parse(text) {
        Err(error) => Err("could not parse gh output: ".to_owned().concat(error.as_str())),
        Ok(links) => Ok(links),
    }
}

/// Where a pull request of a fork is shown.
pub open spec fn address(fork: Text, number: u64) -> Text {
    "https://github.com/"@ + fork + "/pull/"@ + decimal(number as nat)
}

/// Computes `address`.
pub fn pull_request_url(fork: &str, number: u64) -> (r: String)
    ensures
        r@ == address(fork@, number),
{
    let decimal = to_decimal(number);
    "https://github.com/".to_owned().concat(fork).concat("/pull/").concat(decimal.as_str())
}

/// The number of the pull request that is shown at an address: its last step.
pub open spec fn number_at(url: Text) -> Option<u64> {
    parsed(split_on(url, '/').last())
}

/// Computes `number_at`.
pub fn pull_request_number(url: &str) -> (r: Option<u64>)
    ensures
        r == number_at(url@),
{
    let steps = split(url, '/');
    proof {
        lemma_last_step(url@);
        assert(texts(steps@).len() == steps@.len());
    }
    parse(steps[steps.len() - 1].as_str())
}

/// There is a last step.
proof fn lemma_last_step(url: Text)
    ensures
        split_on(url, '/').len() > 0,
    decreases url.len(),
{
    if url.len() > 0 {
        lemma_last_step(url.drop_last());
    }
}

/// What stands behind a slash and holds none is the last step.
proof fn lemma_step_behind(front: Text, step: Text)
    requires
        front.len() > 0,
        front.last() == '/',
        forall|i: int| 0 <= i < step.len() ==> #[trigger] step[i] != '/',
    ensures
        split_on(front + step, '/').last() == step,
    decreases step.len(),
{
    lemma_last_step((front + step).drop_last());
    if step.len() == 0 {
        assert(front + step =~= front);
    } else {
        assert((front + step).drop_last() =~= front + step.drop_last());
        assert((front + step).last() == step.last());
        assert(step[step.len() - 1] != '/');
        lemma_step_behind(front, step.drop_last());
        assert(step.drop_last().push(step.last()) =~= step);
    }
}

/// The address of a pull request tells its number, whatever the fork.
pub proof fn law_address_tells_the_number(fork: Text, number: u64)
    ensures
        number_at(address(fork, number)) == Some(number),
{
    let front = "https://github.com/"@ + fork + "/pull/"@;
    reveal_strlit("/pull/");
    law_decimal_is_parsed(number);
    lemma_decimal(number as nat);
    lemma_step_behind(front, decimal(number as nat));
}

/// The arguments that open a pull request.
pub open spec fn create_args(fork: Text, request: CreateView) -> Seq<Text> {
    let args = seq![
        "pr"@,
        "create"@,
        "--repo"@,
        fork,
        "--base"@,
        request.base,
        "--head"@,
        request.head,
        "--title"@,
        request.title,
        "--body"@,
        request.body,
    ];
    if request.draft {
        args.push("--draft"@)
    } else {
        args
    }
}

/// Opens a pull request and gives what the GitHub CLI prints, its address.
pub fn create_pr<R: CommandRunner>(
    runner: &mut Recorded<R>,
    repo: &str,
    fork: &str,
    base: &str,
    head: &str,
    title: &str,
    body: &str,
    draft: bool,
) -> (r: Result<String, String>)
    ensures
        final(runner).history() == old(runner).history().push(
            gh_run(
                repo@,
                create_args(
                    fork@,
                    CreateView { base: base@, head: head@, title: title@, body: body@, draft },
                ),
                reply(r),
            ),
        ),
{
    let mut args: Vec<String> = Vec::new();
    args.push("pr".to_owned());
    args.push("create".to_owned());
    args.push("--repo".to_owned());
    args.push(fork.to_owned());
    args.push("--base".to_owned());
    args.push(base.to_owned());
    args.push("--head".to_owned());
    args.push(head.to_owned());
    args.push("--title".to_owned());
    args.push(title.to_owned());
    args.push("--body".to_owned());
    args.push(body.to_owned());
    if draft {
        args.push("--draft".to_owned());
    }
    assert(texts(args@) =~= create_args(
        fork@,
        CreateView { base: base@, head: head@, title: title@, body: body@, draft },
    ));
    run(runner, repo, &args)
}

/// The arguments that change a pull request.
pub open spec fn edit_args(fork: Text, number: u64, title: Text, body: Text) -> Seq<Text> {
    seq![
        "pr"@,
        "edit"@,
        decimal(number as nat),
        "--repo"@,
        fork,
        "--title"@,
        title,
        "--body"@,
        body,
    ]
}

/// Changes the title and the description of a pull request.
pub fn edit_pr<R: CommandRunner>(
    runner: &mut Recorded<R>,
    repo: &str,
    fork: &str,
    number: u64,
    title: &str,
    body: &str,
) -> (r: Result<(), String>)
    ensures
        ({
            let answer = final(runner).history().last().reply;
            &&& final(runner).history() == old(runner).history().push(
                gh_run(repo@, edit_args(fork@, number, title@, body@), answer),
            )
            &&& match r {
                Ok(()) => answer is Ok,
                Err(error) => answer == Err::<Text, Text>(error@),
            }
        }),
{
    let mut args: Vec<String> = Vec::new();
    args.push("pr".to_owned());
    args.push("edit".to_owned());
    args.push(to_decimal(number));
    args.push("--repo".to_owned());
    args.push(fork.to_owned());
    args.push("--title".to_owned());
    args.push(title.to_owned());
    args.push("--body".to_owned());
    args.push(body.to_owned());
    assert(texts(args@) =~= edit_args(fork@, number, title@, body@));
    match run(runner, repo, &args) {
        Ok(_) => Ok(()),
        Err(error) => Err(error),
    }
}

} // verus!
