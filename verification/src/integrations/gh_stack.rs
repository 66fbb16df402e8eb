//! Stacks of pull requests on GitHub.

use crate::integrations::json::{field, items, json_field, json_items, json_number, number};
use crate::integrations::runner::{reply, Call, CommandRunner, Recorded};
use crate::number::{decimal, to_decimal};
use crate::order::{copy, views};
use crate::text::{texts, Text};
use vstd::prelude::*;

verus! {

/// A stack on GitHub: its number and those of its pull requests, in order, each
/// once.
#[derive(Debug, PartialEq, Eq)]
pub struct RemoteStack {
    pub number: u64,
    pub pull_requests: Vec<u64>,
}

/// What a `RemoteStack` holds.
#[verifier::ext_equal]
pub struct RemoteStackView {
    pub number: u64,
    pub pull_requests: Set<u64>,
}

impl View for RemoteStack {
    type V = RemoteStackView;

    open spec fn view(&self) -> RemoteStackView {
        RemoteStackView { number: self.number, pull_requests: self.pull_requests@.to_set() }
    }
}

/// The stack that a lookup describes: its number and, of each of its pull requests,
/// the number, as far as they are there.
pub open spec fn stack_with(number: Option<u64>, members: Option<Seq<Option<u64>>>) -> Result<
    RemoteStackView,
    Text,
> {
    match number {
        None => Err("GitHub stack lookup omitted its number"@),
        Some(number) => match members {
            None => Err("GitHub stack lookup omitted its pull requests"@),
            Some(members) => if members.contains(None) {
                Err(
                    "GitHub stack #"@ + decimal(number as nat)
                        + " contained an invalid pull request"@,
                )
            } else {
                Ok(
                    RemoteStackView {
                        number,
                        pull_requests: members.map_values(|n: Option<u64>| n->0).to_set(),
                    },
                )
            },
        },
    }
}

/// What a stack or an error holds.
pub open spec fn stack_result(r: Result<RemoteStack, String>) -> Result<RemoteStackView, Text> {
    match r {
        Ok(stack) => Ok(stack@),
        Err(error) => Err(error@),
    }
}

/// Numbers in order, each once.
pub open spec fn ascending(v: Seq<u64>) -> bool {
    forall|i: int, j: int| 0 <= i < j < v.len() ==> #[trigger] v[i] < #[trigger] v[j]
}

/// Adds a number to those that are in order.
fn add_number(v: &mut Vec<u64>, n: u64)
    requires
        ascending(old(v)@),
    ensures
        ascending(final(v)@),
        final(v)@.to_set() == old(v)@.to_set().insert(n),
{
    let ghost was = v@;
    let mut i: usize = 0;
    while i < v.len() && v[i] < n
        invariant
            i <= v.len(),
            v@ == was,
            forall|j: int| 0 <= j < i ==> #[trigger] was[j] < n,
        decreases v.len() - i,
    {
        i = i + 1;
    }
    if i < v.len() && v[i] == n {
        assert(was.to_set().contains(was[i as int]));
        assert(v@.to_set() =~= was.to_set().insert(n));
    } else {
        v.insert(i, n);
        proof {
            let now = v@;
            assert forall|a: int, b: int| 0 <= a < b < now.len() implies #[trigger] now[a]
                < #[trigger] now[b] by {
                let p = if a < i {
                    a
                } else {
                    a - 1
                };
                let q = if b < i {
                    b
                } else {
                    b - 1
                };
                if a == i {
                    assert(now[b] == was[q]);
                    if q > i {
                        assert(was[i as int] < was[q]);
                    }
                } else if b == i {
                    assert(now[a] == was[p]);
                } else {
                    assert(was[p] < was[q]);
                }
            }
            assert forall|x: u64| now.to_set().contains(x) == was.to_set().insert(n).contains(x) by {
                if now.contains(x) {
                    let k = now.index_of(x);
                    if k != i {
                        let p = if k < i {
                            k
                        } else {
                            k - 1
                        };
                        assert(was[p] == x);
                    }
                }
                if was.contains(x) {
                    let p = was.index_of(x);
                    let k = if p < i {
                        p
                    } else {
                        p + 1
                    };
                    assert(now[k] == x);
                }
                assert(now[i as int] == n);
            }
            assert(now.to_set() =~= was.to_set().insert(n));
        }
    }
}

/// The stack that a lookup describes.
#[verifier::loop_isolation(false)]
pub fn stack_from(number: Option<u64>, members: Option<Vec<Option<u64>>>) -> (r: Result<
    RemoteStack,
    String,
>)
    ensures
        stack_result(r) == stack_with(
            number,
            match members {
                Some(v) => Some(v@),
                None => None,
            },
        ),
        match r {
            Ok(stack) => ascending(stack.pull_requests@),
            Err(_) => true,
        },
{
    let number = match number {
        Some(number) => number,
        None => {
            return Err("GitHub stack lookup omitted its number".to_owned());
        },
    };
    let members = match members {
        Some(members) => members,
        None => {
            return Err("GitHub stack lookup omitted its pull requests".to_owned());
        },
    };
    let ghost all = members@.map_values(|n: Option<u64>| n->0);
    let mut pull_requests: Vec<u64> = Vec::new();
    let mut i: usize = 0;
    assert(pull_requests@.to_set() =~= all.take(0).to_set());
    while i < members.len()
        invariant
            i <= members.len(),
            all == members@.map_values(|n: Option<u64>| n->0),
            ascending(pull_requests@),
            pull_requests@.to_set() == all.take(i as int).to_set(),
            forall|j: int| 0 <= j < i ==> (#[trigger] members@[j]) is Some,
        decreases members.len() - i,
    {
        match members[i] {
            Some(n) => {
                let ghost was = all.take(i as int);
                add_number(&mut pull_requests, n);
                proof {
                    assert(all.take(i + 1) =~= was.push(n));
                    assert forall|x: u64| all.take(i + 1).to_set().contains(x)
                        == pull_requests@.to_set().contains(x) by {
                        vstd::seq_lib::lemma_seq_contains_after_push(was, n, x);
                    }
                    assert(pull_requests@.to_set() =~= all.take(i + 1).to_set());
                }
            },
            None => {
                assert(members@[i as int] == None::<u64>);
                return Err(
                    "GitHub stack #".to_owned().concat(to_decimal(number).as_str()).concat(
                        " contained an invalid pull request",
                    ),
                );
            },
        }
        i = i + 1;
    }
    assert(all.take(all.len() as int) =~= all);
    Ok(RemoteStack { number, pull_requests })
}

/// The number of a pull request: itself, or its field of that name.
pub open spec fn pull_request_number(item: Text) -> Option<u64> {
    match json_number(item) {
        Some(n) => Some(n),
        None => number_field(item),
    }
}

/// The number in the field of that name.
pub open spec fn number_field(item: Text) -> Option<u64> {
    match json_field(item, "number"@) {
        Some(text) => json_number(text),
        None => None,
    }
}

/// The pull requests in the field of that name.
pub open spec fn members_field(item: Text) -> Option<Seq<Option<u64>>> {
    match json_field(item, "pull_requests"@) {
        Some(text) => match json_items(text) {
            Ok(items) => Some(items.map_values(|item: Text| pull_request_number(item))),
            Err(_) => None,
        },
        None => None,
    }
}

/// The stacks that the items of a lookup describe.
pub open spec fn stacks_in(items: Seq<Text>) -> Result<Seq<RemoteStackView>, Text>
    decreases items.len(),
{
    if items.len() == 0 {
        Ok(Seq::empty())
    } else {
        match stacks_in(items.drop_last()) {
            Err(error) => Err(error),
            Ok(done) => match stack_with(
                number_field(items.last()),
                members_field(items.last()),
            ) {
                Err(error) => Err(error),
                Ok(stack) => Ok(done.push(stack)),
            },
        }
    }
}

/// The stacks that a lookup describes.
pub open spec fn parsed_stacks(output: Text) -> Result<Seq<RemoteStackView>, Text> {
    match json_items(output) {
        Err(error) => Err("could not parse GitHub stack lookup: "@ + error),
        Ok(items) => stacks_in(items),
    }
}

/// What stacks or an error hold.
pub open spec fn stacks_result(r: Result<Vec<RemoteStack>, String>) -> Result<
    Seq<RemoteStackView>,
    Text,
> {
    match r {
        Ok(v) => Ok(views(v@)),
        Err(error) => Err(error@),
    }
}

/// The number in the field of that name.
fn read_number(item: &str) -> (r: Option<u64>)
    ensures
        r == number_field(item@),
{
    match field(item, "number") {
        Some(text) => number(text.as_str()),
        None => None,
    }
}

/// The pull requests in the field of that name.
fn read_members(item: &str) -> (r: Option<Vec<Option<u64>>>)
    ensures
        match r {
            Some(v) => members_field(item@) == Some(v@),
            None => members_field(item@) is None,
        },
{
    match field(item, "pull_requests") {
        None => None,
        Some(text) => match items(text.as_str()) {
            Err(_) => None,
            Ok(list) => {
                let ghost all = texts(list@);
                let ghost f = |item: Text| pull_request_number(item);
                let mut r: Vec<Option<u64>> = Vec::new();
                let mut i: usize = 0;
                while i < list.len()
                    invariant
                        i <= list.len(),
                        all == texts(list@),
                        f == (|item: Text| pull_request_number(item)),
                        r.len() == i,
                        forall|j: int| 0 <= j < i ==> #[trigger] r@[j] == f(all[j]),
                    decreases list.len() - i,
                {
                    assert(all[i as int] == list@[i as int]@);
                    let n = match number(list[i].as_str()) {
                        Some(n) => Some(n),
                        None => read_number(list[i].as_str()),
                    };
                    r.push(n);
                    i = i + 1;
                }
                assert(r@ =~= all.map_values(f));
                Some(r)
            },
        },
    }
}

/// A stage of `stacks_in` that fails, fails the whole.
proof fn lemma_stacks_fail(all: Seq<Text>, n: int, error: Text)
    requires
        0 <= n <= all.len(),
        stacks_in(all.take(n)) == Err::<Seq<RemoteStackView>, Text>(error),
    ensures
        stacks_in(all) == Err::<Seq<RemoteStackView>, Text>(error),
    decreases all.len() - n,
{
    if n < all.len() {
        assert(all.take(n + 1).drop_last() =~= all.take(n));
        lemma_stacks_fail(all, n + 1, error);
    } else {
        assert(all.take(n) =~= all);
    }
}

/// Reads the stacks that a lookup describes.
#[verifier::loop_isolation(false)]
pub fn parse_stacks(output: &str) -> (r: Result<Vec<RemoteStack>, String>)
    ensures
        stacks_result(r) == parsed_stacks(output@),
        match r {
            Ok(v) => forall|i: int|
                0 <= i < v.len() ==> ascending((#[trigger] v@[i]).pull_requests@),
            Err(_) => true,
        },
{
    let list = match items(output) {
        Ok(list) => list,
        Err(error) => {
            return Err(
                "could not parse GitHub stack lookup: ".to_owned().concat(error.as_str()),
            );
        },
    };
    let ghost all = texts(list@);
    let mut r: Vec<RemoteStack> = Vec::new();
    let mut i: usize = 0;
    assert(all.take(0) =~= Seq::<Text>::empty());
    assert(views(r@) =~= Seq::<RemoteStackView>::empty());
    while i < list.len()
        invariant
            i <= list.len(),
            all == texts(list@),
            stacks_in(all.take(i as int)) == Ok::<Seq<RemoteStackView>, Text>(views(r@)),
            forall|j: int| 0 <= j < r.len() ==> ascending((#[trigger] r@[j]).pull_requests@),
        decreases list.len() - i,
    {
        assert(all.take(i + 1).drop_last() =~= all.take(i as int));
        assert(all.take(i + 1).last() == list@[i as int]@);
        let item = list[i].as_str();
        match stack_from(read_number(item), read_members(item)) {
            Ok(stack) => {
                let ghost was = views(r@);
                r.push(stack);
                assert(views(r@) =~= was.push(stack@));
            },
            Err(error) => {
                proof {
                    lemma_stacks_fail(all, i + 1, error@);
                }
                return Err(error);
            },
        }
        i = i + 1;
    }
    assert(all.take(all.len() as int) =~= all);
    Ok(r)
}

/// A run of the GitHub CLI for a repository on GitHub.
pub open spec fn gh_call(
    repo: Text,
    github_repo: Text,
    args: Seq<Text>,
    reply: Result<Text, Text>,
) -> Call {
    Call {
        program: "gh"@,
        args,
        repo,
        input: None,
        env: seq![("GH_REPO"@, github_repo)],
        reply,
    }
}

/// Runs the GitHub CLI for a repository on GitHub.
fn run_gh<R: CommandRunner>(runner: &mut Recorded<R>, repo: &str, github_repo: &str, args: &Vec<String>) -> (r:
    Result<String, String>)
    ensures
        final(runner).history() == old(runner).history().push(
            gh_call(repo@, github_repo@, texts(args@), reply(r)),
        ),
{
    let mut env: Vec<(String, String)> = Vec::new();
    env.push(("GH_REPO".to_owned(), github_repo.to_owned()));
    assert(views(env@) =~= seq![("GH_REPO"@, github_repo@)]);
    runner.run("gh", args, repo, &None, &env)
}

/// The arguments that look up the stacks of a pull request.
pub open spec fn lookup_args(github_repo: Text, pull_request: u64) -> Seq<Text> {
    seq![
        "api"@,
        "repos/"@ + github_repo + "/stacks?pull_request="@ + decimal(pull_request as nat),
    ]
}

/// Stacks in the order of their numbers, with one put among them; it takes the
/// place of one with its number.
pub open spec fn with_stack(stacks: Seq<RemoteStackView>, stack: RemoteStackView) -> Seq<
    RemoteStackView,
>
    decreases stacks.len(),
{
    if stacks.len() == 0 {
        seq![stack]
    } else if stacks.last().number < stack.number {
        stacks.push(stack)
    } else if stacks.last().number == stack.number {
        stacks.drop_last().push(stack)
    } else {
        with_stack(stacks.drop_last(), stack).push(stacks.last())
    }
}

/// The stacks after others are put among them, one by one.
pub open spec fn with_stacks(stacks: Seq<RemoteStackView>, more: Seq<RemoteStackView>) -> Seq<
    RemoteStackView,
>
    decreases more.len(),
{
    if more.len() == 0 {
        stacks
    } else {
        with_stack(with_stacks(stacks, more.drop_last()), more.last())
    }
}

/// The stacks that lookups found, by what came of each.
pub open spec fn found_stacks(calls: Seq<Call>) -> Result<Seq<RemoteStackView>, Text>
    decreases calls.len(),
{
    if calls.len() == 0 {
        Ok(Seq::empty())
    } else {
        match found_stacks(calls.drop_last()) {
            Err(error) => Err(error),
            Ok(done) => match calls.last().reply {
                Err(error) => Err(error),
                Ok(output) => match parsed_stacks(output) {
                    Err(error) => Err(error),
                    Ok(more) => Ok(with_stacks(done, more)),
                },
            },
        }
    }
}

/// Each call looks up one of the pull requests, in order.
pub open spec fn are_lookups(
    calls: Seq<Call>,
    repo: Text,
    github_repo: Text,
    pull_requests: Seq<u64>,
) -> bool {
    &&& calls.len() <= pull_requests.len()
    &&& forall|i: int|
        0 <= i < calls.len() ==> #[trigger] calls[i] == gh_call(
            repo,
            github_repo,
            lookup_args(github_repo, pull_requests[i]),
            calls[i].reply,
        )
}

/// Where a stack is put: behind the last with a lower number, or in the place of the
/// one with its number.
proof fn lemma_with_stack(all: Seq<RemoteStackView>, stack: RemoteStackView, i: int)
    requires
        0 <= i <= all.len(),
        forall|j: int| i <= j < all.len() ==> (#[trigger] all[j]).number > stack.number,
        i > 0 ==> all[i - 1].number <= stack.number,
    ensures
        with_stack(all, stack) == if i > 0 && all[i - 1].number == stack.number {
            all.update(i - 1, stack)
        } else {
            all.insert(i, stack)
        },
    decreases all.len(),
{
    if i < all.len() {
        let init = all.drop_last();
        assert(all.last() == all[all.len() - 1]);
        lemma_with_stack(init, stack, i);
        if i > 0 && all[i - 1].number == stack.number {
            assert(init.update(i - 1, stack).push(all.last()) =~= all.update(i - 1, stack));
        } else {
            assert(init.insert(i, stack).push(all.last()) =~= all.insert(i, stack));
        }
    } else if i > 0 {
        if all.last().number == stack.number {
            assert(all.drop_last().push(stack) =~= all.update(i - 1, stack));
        } else {
            assert(all.push(stack) =~= all.insert(i, stack));
        }
    } else {
        assert(seq![stack] =~= all.insert(0, stack));
    }
}

/// Puts a stack among those that are in the order of their numbers.
fn put_stack(stacks: &mut Vec<RemoteStack>, stack: RemoteStack)
    ensures
        views(final(stacks)@) == with_stack(views(old(stacks)@), stack@),
{
    let ghost all = views(stacks@);
    let mut i: usize = stacks.len();
    while i > 0 && stacks[i - 1].number > stack.number
        invariant
            i <= stacks.len(),
            all == views(stacks@),
            forall|j: int| i <= j < all.len() ==> (#[trigger] all[j]).number > stack.number,
        decreases i,
    {
        assert(all[i - 1] == stacks@[i - 1]@);
        i = i - 1;
    }
    proof {
        if i > 0 {
            assert(all[i - 1] == stacks@[i - 1]@);
        }
        lemma_with_stack(all, stack@, i as int);
    }
    if i > 0 && stacks[i - 1].number == stack.number {
        stacks.set(i - 1, stack);
        assert(views(stacks@) =~= all.update(i - 1, stack@));
    } else {
        stacks.insert(i, stack);
        assert(views(stacks@) =~= all.insert(i as int, stack@));
    }
}

/// What lookups of pull requests find: all stacks they are in, in the order of their
/// numbers. The first lookup that fails, or that cannot be read, ends it.
#[verifier::loop_isolation(false)]
pub fn existing_stacks<R: CommandRunner>(
    runner: &mut Recorded<R>,
    repo: &str,
    github_repo: &str,
    pull_requests: &[u64],
) -> (r: Result<Vec<RemoteStack>, String>)
    ensures
        old(runner).history().is_prefix_of(final(runner).history()),
        ({
            let made = final(runner).history().skip(old(runner).history().len() as int);
            &&& are_lookups(made, repo@, github_repo@, pull_requests@)
            &&& stacks_result(r) == found_stacks(made)
            &&& match r {
                Ok(_) => made.len() == pull_requests.len(),
                Err(_) => made.len() > 0 && found_stacks(made.drop_last()) is Ok,
            }
        }),
{
    let ghost before = runner.history();
    let ghost mut made: Seq<Call> = Seq::empty();
    let mut stacks: Vec<RemoteStack> = Vec::new();
    let mut i: usize = 0;
    proof {
        assert(before + made =~= before);
        assert(views(stacks@) =~= Seq::<RemoteStackView>::empty());
    }
    while i < pull_requests.len()
        invariant
            i <= pull_requests.len(),
            runner.history() == before + made,
            made.len() == i,
            are_lookups(made, repo@, github_repo@, pull_requests@),
            found_stacks(made) == Ok::<Seq<RemoteStackView>, Text>(views(stacks@)),
        decreases pull_requests.len() - i,
    {
        let endpoint = "repos/".to_owned().concat(github_repo).concat(
            "/stacks?pull_request=",
        ).concat(to_decimal(pull_requests[i]).as_str());
        let mut args: Vec<String> = Vec::new();
        args.push("api".to_owned());
        args.push(endpoint);
        assert(texts(args@) =~= lookup_args(github_repo@, pull_requests@[i as int]));
        let answer = run_gh(runner, repo, github_repo, &args);
        let ghost call = gh_call(
            repo@,
            github_repo@,
            lookup_args(github_repo@, pull_requests@[i as int]),
            reply(answer),
        );
        let ghost was = made;
        proof {
            made = made.push(call);
            assert(runner.history() =~= before + made);
            assert(made.drop_last() =~= was);
            assert(runner.history().skip(before.len() as int) =~= made);
            assert(runner.history().subrange(0, before.len() as int) =~= before);
        }
        let output = match answer {
            Ok(output) => output,
            Err(error) => {
                return Err(error);
            },
        };
        let mut more = match parse_stacks(output.as_str()) {
            Ok(more) => more,
            Err(error) => {
                return Err(error);
            },
        };
        let ghost done = views(stacks@);
        let ghost new = views(more@);
        let ghost mut put: int = 0;
        proof {
            assert(new.take(0) =~= Seq::<RemoteStackView>::empty());
            assert(views(more@) =~= new.skip(0));
        }
        while more.len() > 0
            invariant
                0 <= put <= new.len(),
                views(more@) == new.skip(put),
                views(stacks@) == with_stacks(done, new.take(put)),
            decreases more.len(),
        {
            let ghost rest = views(more@);
            let stack = more.remove(0);
            proof {
                assert(new.skip(put).len() > 0);
                assert(stack@ == rest[0]);
                assert(views(more@) =~= rest.skip(1));
                assert(rest.skip(1) =~= new.skip(put + 1));
                assert(new.take(put + 1).drop_last() =~= new.take(put));
                assert(new.take(put + 1).last() == stack@);
            }
            put_stack(&mut stacks, stack);
            proof {
                put = put + 1;
            }
        }
        proof {
            assert(new.take(put) =~= new);
        }
        i = i + 1;
    }
    proof {
        assert(runner.history().skip(before.len() as int) =~= made);
        assert(runner.history().subrange(0, before.len() as int) =~= before);
    }
    Ok(stacks)
}

/// The arguments that take a stack apart.
pub open spec fn unstack_args(number: u64) -> Seq<Text> {
    seq!["stack"@, "unstack"@, decimal(number as nat)]
}

/// Why a stack could not be taken apart.
pub open spec fn unstack_error(number: u64, error: Text) -> Text {
    "could not unstack GitHub stack #"@ + decimal(number as nat) + ": "@ + error
}

/// Takes a stack apart.
pub fn unstack<R: CommandRunner>(
    runner: &mut Recorded<R>,
    repo: &str,
    github_repo: &str,
    stack_number: u64,
) -> (r: Result<(), String>)
    ensures
        ({
            let answer = final(runner).history().last().reply;
            &&& final(runner).history() == old(runner).history().push(
                gh_call(repo@, github_repo@, unstack_args(stack_number), answer),
            )
            &&& match r {
                Ok(()) => answer is Ok,
                Err(error) => answer is Err && error@ == unstack_error(
                    stack_number,
                    answer->Err_0,
                ),
            }
        }),
{
    let mut args: Vec<String> = Vec::new();
    args.push("stack".to_owned());
    args.push("unstack".to_owned());
    args.push(to_decimal(stack_number));
    assert(texts(args@) =~= unstack_args(stack_number));
    match run_gh(runner, repo, github_repo, &args) {
        Ok(_) => Ok(()),
        Err(error) => Err(
            "could not unstack GitHub stack #".to_owned().concat(
                to_decimal(stack_number).as_str(),
            ).concat(": ").concat(error.as_str()),
        ),
    }
}

/// The arguments that make branches a stack.
pub open spec fn link_args(remote: Text, base: Text, branches: Seq<Text>) -> Seq<Text> {
    seq!["stack"@, "link"@, "--remote"@, remote, "--base"@, base] + branches
}

/// Makes the pull requests of branches a stack.
pub fn link<R: CommandRunner>(
    runner: &mut Recorded<R>,
    repo: &str,
    github_repo: &str,
    remote: &str,
    base: &str,
    branches: &Vec<String>,
) -> (r: Result<(), String>)
    ensures
        ({
            let answer = final(runner).history().last().reply;
            &&& final(runner).history() == old(runner).history().push(
                gh_call(repo@, github_repo@, link_args(remote@, base@, texts(branches@)), answer),
            )
            &&& match r {
                Ok(()) => answer is Ok,
                Err(error) => answer == Err::<Text, Text>(error@),
            }
        }),
{
    let mut args: Vec<String> = Vec::new();
    args.push("stack".to_owned());
    args.push("link".to_owned());
    args.push("--remote".to_owned());
    args.push(remote.to_owned());
    args.push("--base".to_owned());
    args.push(base.to_owned());
    let mut names = copy(branches);
    args.append(&mut names);
    assert(texts(args@) =~= link_args(remote@, base@, texts(branches@)));
    match run_gh(runner, repo, github_repo, &args) {
        Ok(_) => Ok(()),
        Err(error) => Err(error),
    }
}

/// The pull requests that exist, and those that are to be a stack.
pub struct PullRequestMembership<'a> {
    pub existing: &'a [u64],
    pub desired: &'a [u64],
}

/// Whether a stack holds a pull request that is not wanted in it.
pub open spec fn has_stale(stacks: Seq<RemoteStackView>, desired: Set<u64>) -> bool {
    exists|i: int|
        0 <= i < stacks.len() && !(#[trigger] stacks[i]).pull_requests.subset_of(desired)
}

/// The stacks that have to be taken apart before the pull requests can be made one:
/// all where there are several or one holds a pull request that is not wanted, and
/// else none.
pub open spec fn doomed(stacks: Seq<RemoteStackView>, desired: Set<u64>) -> Seq<RemoteStackView> {
    if stacks.len() > 1 || has_stale(stacks, desired) {
        stacks
    } else {
        Seq::empty()
    }
}

/// Whether stacks hold a pull request that is not wanted.
fn any_stale(stacks: &Vec<RemoteStack>, desired: &[u64]) -> (r: bool)
    ensures
        r == has_stale(views(stacks@), desired@.to_set()),
{
    let ghost all = views(stacks@);
    let mut i: usize = 0;
    while i < stacks.len()
        invariant
            i <= stacks.len(),
            all == views(stacks@),
            forall|j: int|
                0 <= j < i ==> (#[trigger] all[j]).pull_requests.subset_of(desired@.to_set()),
        decreases stacks.len() - i,
    {
        let members = &stacks[i].pull_requests;
        assert(all[i as int].pull_requests == members@.to_set());
        let mut m: usize = 0;
        while m < members.len()
            invariant
                i < stacks.len(),
                m <= members.len(),
                all == views(stacks@),
                all[i as int].pull_requests == members@.to_set(),
                forall|j: int| 0 <= j < m ==> desired@.contains(#[trigger] members@[j]),
            decreases members.len() - m,
        {
            let n: u64 = members[m];
            let mut found = false;
            let mut d: usize = 0;
            while d < desired.len()
                invariant
                    d <= desired.len(),
                    found ==> desired@.contains(n),
                    !found ==> forall|j: int| 0 <= j < d ==> #[trigger] desired@[j] != n,
                decreases desired.len() - d,
            {
                if desired[d] == n {
                    assert(desired@[d as int] == n);
                    found = true;
                }
                d = d + 1;
            }
            if !found {
                proof {
                    assert(!desired@.contains(n));
                    assert(members@.to_set().contains(n));
                    assert(!all[i as int].pull_requests.subset_of(desired@.to_set()));
                }
                return true;
            }
            m = m + 1;
        }
        proof {
            assert forall|x: u64| members@.to_set().contains(x) implies desired@.to_set().contains(
                x,
            ) by {
                let j = members@.index_of(x);
                assert(desired@.contains(members@[j]));
            }
        }
        i = i + 1;
    }
    false
}

/// What taking stacks apart and linking does: each stack that stands in the way is
/// taken apart, then the branches are linked; what fails ends it.
pub open spec fn relinked(
    calls: Seq<Call>,
    gone: Seq<RemoteStackView>,
    repo: Text,
    github_repo: Text,
    link: Seq<Text>,
    r: Result<(), Text>,
) -> bool {
    &&& 0 < calls.len() <= gone.len() + 1
    &&& forall|i: int|
        0 <= i < calls.len() ==> #[trigger] calls[i] == gh_call(
            repo,
            github_repo,
            if i < gone.len() {
                unstack_args(gone[i].number)
            } else {
                link
            },
            calls[i].reply,
        )
    &&& forall|i: int| 0 <= i < calls.len() - 1 ==> (#[trigger] calls[i]).reply is Ok
    &&& match calls.last().reply {
        Ok(_) => calls.len() == gone.len() + 1 && r == Ok::<(), Text>(()),
        Err(error) => r == Err::<(), Text>(
            if calls.len() <= gone.len() {
                unstack_error(gone[calls.len() - 1].number, error)
            } else {
                error
            },
        ),
    }
}

/// What reconciling does: the stacks of the existing pull requests are looked up,
/// those that stand in the way are taken apart, and the branches are linked.
pub open spec fn reconciled(
    calls: Seq<Call>,
    repo: Text,
    github_repo: Text,
    link: Seq<Text>,
    existing: Seq<u64>,
    desired: Set<u64>,
    r: Result<(), Text>,
) -> bool {
    let n = existing.len() as int;
    if calls.len() <= n && found_stacks(calls) is Err {
        &&& are_lookups(calls, repo, github_repo, existing)
        &&& found_stacks(calls.drop_last()) is Ok
        &&& r == Err::<(), Text>(found_stacks(calls)->Err_0)
    } else {
        &&& calls.len() > n
        &&& are_lookups(calls.take(n), repo, github_repo, existing)
        &&& found_stacks(calls.take(n)) is Ok
        &&& relinked(
            calls.skip(n),
            doomed(found_stacks(calls.take(n))->Ok_0, desired),
            repo,
            github_repo,
            link,
            r,
        )
    }
}

/// What came of a call that gives nothing.
pub open spec fn done_result(r: Result<(), String>) -> Result<(), Text> {
    match r {
        Ok(()) => Ok(()),
        Err(error) => Err(error@),
    }
}

/// Takes stacks apart, then links branches.
#[verifier::loop_isolation(false)]
fn relink<R: CommandRunner>(
    runner: &mut Recorded<R>,
    repo: &str,
    github_repo: &str,
    remote: &str,
    base: &str,
    branches: &Vec<String>,
    gone: &Vec<RemoteStack>,
) -> (r: Result<(), String>)
    ensures
        old(runner).history().is_prefix_of(final(runner).history()),
        relinked(
            final(runner).history().skip(old(runner).history().len() as int),
            views(gone@),
            repo@,
            github_repo@,
            link_args(remote@, base@, texts(branches@)),
            done_result(r),
        ),
{
    let ghost before = runner.history();
    let ghost n = before.len() as int;
    let ghost all = views(gone@);
    let ghost last = link_args(remote@, base@, texts(branches@));
    let ghost mut made: Seq<Call> = Seq::empty();
    let mut i: usize = 0;
    assert(before + made =~= before);
    while i < gone.len()
        invariant
            i <= gone.len(),
            runner.history() == before + made,
            made.len() == i,
            forall|j: int|
                0 <= j < i ==> #[trigger] made[j] == gh_call(
                    repo@,
                    github_repo@,
                    unstack_args(all[j].number),
                    made[j].reply,
                ) && made[j].reply is Ok,
        decreases gone.len() - i,
    {
        let ghost was = made;
        assert(all[i as int] == gone@[i as int]@);
        let answer = unstack(runner, repo, github_repo, gone[i].number);
        proof {
            made = made.push(runner.history().last());
            assert(runner.history() =~= before + made);
            assert(runner.history().skip(n) =~= made);
            assert(runner.history().subrange(0, n) =~= before);
            assert forall|j: int| 0 <= j < made.len() implies #[trigger] made[j] == gh_call(
                repo@,
                github_repo@,
                unstack_args(all[j].number),
                made[j].reply,
            ) by {
                if j < i {
                    assert(made[j] == was[j]);
                }
            }
            assert forall|j: int| 0 <= j < made.len() - 1 implies (#[trigger] made[j]).reply is Ok by {
                assert(made[j] == was[j]);
            }
        }
        match answer {
            Ok(()) => {},
            Err(error) => {
                return Err(error);
            },
        }
        i = i + 1;
    }
    let ghost was = made;
    let answer = link(runner, repo, github_repo, remote, base, branches);
    proof {
        made = made.push(runner.history().last());
        assert(runner.history() =~= before + made);
        assert(runner.history().skip(n) =~= made);
        assert(runner.history().subrange(0, n) =~= before);
        assert forall|j: int| 0 <= j < made.len() implies #[trigger] made[j] == gh_call(
            repo@,
            github_repo@,
            if j < all.len() {
                unstack_args(all[j].number)
            } else {
                last
            },
            made[j].reply,
        ) by {
            if j < all.len() {
                assert(made[j] == was[j]);
            }
        }
        assert forall|j: int| 0 <= j < made.len() - 1 implies (#[trigger] made[j]).reply is Ok by {
            assert(made[j] == was[j]);
        }
    }
    answer
}

/// Makes the pull requests of branches a stack. The stacks that the existing ones are
/// in are taken apart first where there are several, or where one holds a pull
/// request that is not wanted.
pub fn reconcile_and_link<R: CommandRunner>(
    runner: &mut Recorded<R>,
    repo: &str,
    github_repo: &str,
    remote: &str,
    base: &str,
    branches: &Vec<String>,
    pull_requests: PullRequestMembership<'_>,
) -> (r: Result<(), String>)
    ensures
        old(runner).history().is_prefix_of(final(runner).history()),
        reconciled(
            final(runner).history().skip(old(runner).history().len() as int),
            repo@,
            github_repo@,
            link_args(remote@, base@, texts(branches@)),
            pull_requests.existing@,
            pull_requests.desired@.to_set(),
            done_result(r),
        ),
{
    let ghost before = runner.history();
    let mut stacks = match existing_stacks(runner, repo, github_repo, pull_requests.existing) {
        Ok(stacks) => stacks,
        Err(error) => {
            return Err(error);
        },
    };
    let ghost middle = runner.history();
    let ghost found = views(stacks@);
    if stacks.len() <= 1 && !any_stale(&stacks, pull_requests.desired) {
        stacks = Vec::new();
        assert(views(stacks@) =~= Seq::<RemoteStackView>::empty());
    }
    let r = relink(runner, repo, github_repo, remote, base, branches, &stacks);
    proof {
        let after = runner.history();
        let calls = after.skip(before.len() as int);
        let n = pull_requests.existing@.len() as int;
        assert(middle =~= before + middle.skip(before.len() as int)) by {
            assert(middle.subrange(0, before.len() as int) =~= before);
        }
        assert(middle.len() == before.len() + n);
        assert(after.subrange(0, middle.len() as int) =~= middle);
        assert(calls.take(n) =~= middle.skip(before.len() as int));
        assert(calls.skip(n) =~= after.skip(middle.len() as int));
        assert(after.subrange(0, before.len() as int) =~= before);
    }
    r
}

/// Stacks in the order of their numbers, each number once.
pub open spec fn numbered(stacks: Seq<RemoteStackView>) -> bool {
    forall|i: int, j: int|
        0 <= i < j < stacks.len() ==> (#[trigger] stacks[i]).number < (#[trigger] stacks[j]).number
}

/// A stack that is put among others keeps their order, and is behind those with smaller
/// numbers.
proof fn lemma_stays_numbered(stacks: Seq<RemoteStackView>, stack: RemoteStackView)
    requires
        numbered(stacks),
    ensures
        numbered(with_stack(stacks, stack)),
        with_stack(stacks, stack).len() > 0,
        stacks.len() == 0 || stacks.last().number < stack.number ==> with_stack(
            stacks,
            stack,
        ).last().number == stack.number,
        stacks.len() > 0 && stacks.last().number >= stack.number ==> with_stack(
            stacks,
            stack,
        ).last().number == stacks.last().number,
    decreases stacks.len(),
{
    if stacks.len() > 0 && stacks.last().number > stack.number {
        let most = stacks.drop_last();
        lemma_stays_numbered(most, stack);
        let r = with_stack(most, stack);
        assert(with_stack(stacks, stack) =~= r.push(stacks.last()));
        assert forall|i: int, j: int|
            0 <= i < j < r.push(stacks.last()).len() implies (#[trigger] r.push(
            stacks.last(),
        )[i]).number < (#[trigger] r.push(stacks.last())[j]).number by {
            if j == r.len() {
                assert(r[i].number <= r.last().number);
                if most.len() > 0 {
                    assert(stacks[most.len() - 1].number < stacks.last().number);
                }
            }
        }
    }
}

/// Stacks that are put among others one by one keep their order.
proof fn lemma_stay_numbered(stacks: Seq<RemoteStackView>, more: Seq<RemoteStackView>)
    requires
        numbered(stacks),
    ensures
        numbered(with_stacks(stacks, more)),
    decreases more.len(),
{
    if more.len() > 0 {
        lemma_stay_numbered(stacks, more.drop_last());
        lemma_stays_numbered(with_stacks(stacks, more.drop_last()), more.last());
    }
}

/// Lookups find each stack once, however many of its pull requests are looked up.
pub proof fn law_stacks_are_found_once(calls: Seq<Call>)
    ensures
        match found_stacks(calls) {
            Ok(stacks) => numbered(stacks),
            Err(_) => true,
        },
    decreases calls.len(),
{
    if calls.len() > 0 {
        law_stacks_are_found_once(calls.drop_last());
        match (found_stacks(calls.drop_last()), calls.last().reply) {
            (Ok(done), Ok(output)) => match parsed_stacks(output) {
                Ok(more) => {
                    lemma_stay_numbered(done, more);
                },
                Err(_) => {},
            },
            _ => {},
        }
    }
}

/// A stack that only gains pull requests is not taken apart: the branches are linked,
/// and nothing else is done.
pub proof fn law_additive_stack_stays(
    calls: Seq<Call>,
    stacks: Seq<RemoteStackView>,
    desired: Set<u64>,
    repo: Text,
    github_repo: Text,
    link: Seq<Text>,
    r: Result<(), Text>,
)
    requires
        stacks.len() <= 1,
        forall|i: int|
            0 <= i < stacks.len() ==> (#[trigger] stacks[i]).pull_requests.subset_of(desired),
        relinked(calls, doomed(stacks, desired), repo, github_repo, link, r),
    ensures
        calls == seq![gh_call(repo, github_repo, link, calls[0].reply)],
{
    assert(doomed(stacks, desired).len() == 0);
    assert(calls =~= seq![gh_call(repo, github_repo, link, calls[0].reply)]);
}

/// A stack that holds a pull request that is not wanted is taken apart, and branches are
/// linked only after every stack that stood in the way has been.
pub proof fn law_stale_stack_is_taken_apart_first(
    calls: Seq<Call>,
    stacks: Seq<RemoteStackView>,
    desired: Set<u64>,
    repo: Text,
    github_repo: Text,
    link: Seq<Text>,
    r: Result<(), Text>,
    i: int,
)
    requires
        0 <= i < stacks.len(),
        !stacks[i].pull_requests.subset_of(desired),
        relinked(calls, doomed(stacks, desired), repo, github_repo, link, r),
        r is Ok,
    ensures
        calls.len() == stacks.len() + 1,
        calls.last() == gh_call(repo, github_repo, link, calls.last().reply),
        forall|k: int|
            0 <= k < stacks.len() ==> #[trigger] calls[k] == gh_call(
                repo,
                github_repo,
                unstack_args(stacks[k].number),
                calls[k].reply,
            ) && calls[k].reply is Ok,
{
    assert(has_stale(stacks, desired));
}

} // verus!
