//! What linking the pull requests of a stack comes to.

use crate::integrations::gh_stack::{
    doomed, found_stacks, has_stale, link_args, members_field, number_field, parsed_stacks,
    reconciled, relinked, stack_with, stacks_in, with_stack, with_stacks, RemoteStackView,
};
use crate::integrations::json::{json_field, json_items, json_number};
use crate::integrations::runner::Call;
use crate::number::decimal;
use crate::text::Text;
use vstd::prelude::*;

verus! {

/// A run of the GitHub CLI with some arguments, for a repository on GitHub.
pub open spec fn runs_gh(call: Call, repo: Text, github_repo: Text, args: Seq<Text>) -> bool {
    &&& call.program == "gh"@
    &&& call.args == args
    &&& call.repo == repo
    &&& call.input is None
    &&& call.env == seq![("GH_REPO"@, github_repo)]
}

/// Whether pull requests can be linked as they are: they are in one stack at most, and it
/// holds none but those that are wanted.
pub open spec fn can_be_linked(stacks: Seq<RemoteStackView>, desired: Set<u64>) -> bool {
    stacks.len() <= 1 && forall|i: int, number: u64|
        0 <= i < stacks.len() && #[trigger] stacks[i].pull_requests.contains(number)
            ==> desired.contains(number)
}

proof fn lemma_doomed(stacks: Seq<RemoteStackView>, desired: Set<u64>)
    ensures
        can_be_linked(stacks, desired) ==> doomed(stacks, desired).len() == 0,
        !can_be_linked(stacks, desired) ==> doomed(stacks, desired) == stacks,
{
    if can_be_linked(stacks, desired) {
        if has_stale(stacks, desired) {
            let i = choose|i: int|
                0 <= i < stacks.len() && !(#[trigger] stacks[i]).pull_requests.subset_of(desired);
            assert(stacks[i].pull_requests.subset_of(desired)) by {
                assert forall|number: u64| stacks[i].pull_requests.contains(number) implies
                    desired.contains(number) by {}
            }
        }
    } else if stacks.len() <= 1 {
        let (i, number) = choose|i: int, number: u64|
            0 <= i < stacks.len() && #[trigger] stacks[i].pull_requests.contains(number)
                && !desired.contains(number);
        assert(!stacks[i].pull_requests.subset_of(desired));
    }
}

/// Branches are linked last, and only once it is known of every pull request that was there
/// which stacks it is in, and no more than one stack is left, which holds none but the
/// wanted ones. Where that is so from the start nothing is taken apart, and else every stack
/// is, one after another. What fails ends it.
pub proof fn law_stacks_are_taken_apart_before_linking(
    calls: Seq<Call>,
    repo: Text,
    github_repo: Text,
    link: Seq<Text>,
    existing: Seq<u64>,
    desired: Set<u64>,
    r: Result<(), Text>,
)
    requires
        reconciled(calls, repo, github_repo, link, existing, desired, r),
        r is Ok,
    ensures
        ({
            let n = existing.len() as int;
            let stacks = found_stacks(calls.take(n))->Ok_0;
            &&& found_stacks(calls.take(n)) is Ok
            &&& calls.len() == n + 1 + if can_be_linked(stacks, desired) {
                0
            } else {
                stacks.len() as int
            }
            &&& forall|i: int|
                0 <= i < n ==> runs_gh(
                    #[trigger] calls[i],
                    repo,
                    github_repo,
                    seq![
                        "api"@,
                        "repos/"@ + github_repo + "/stacks?pull_request="@ + decimal(
                            existing[i] as nat,
                        ),
                    ],
                )
            &&& forall|i: int|
                n <= i < calls.len() - 1 ==> runs_gh(
                    #[trigger] calls[i],
                    repo,
                    github_repo,
                    seq!["stack"@, "unstack"@, decimal(stacks[i - n].number as nat)],
                )
            &&& runs_gh(calls.last(), repo, github_repo, link)
            &&& forall|i: int| 0 <= i < calls.len() ==> (#[trigger] calls[i]).reply is Ok
        }),
{
    let n = existing.len() as int;
    let first = calls.take(n);
    let rest = calls.skip(n);
    let stacks = found_stacks(first)->Ok_0;
    lemma_doomed(stacks, desired);
    let gone = doomed(stacks, desired);
    assert(relinked(rest, gone, repo, github_repo, link, r));
    assert forall|i: int| 0 <= i < calls.len() implies (#[trigger] calls[i]).reply is Ok by {
        if i < n {
            lemma_lookup_replies(first, i);
            assert(first[i] == calls[i]);
        } else {
            assert(rest[i - n] == calls[i]);
        }
    }
    assert forall|i: int| 0 <= i < n implies runs_gh(
        #[trigger] calls[i],
        repo,
        github_repo,
        seq![
            "api"@,
            "repos/"@ + github_repo + "/stacks?pull_request="@ + decimal(existing[i] as nat),
        ],
    ) by {
        assert(first[i] == calls[i]);
    }
    assert forall|i: int| n <= i < calls.len() - 1 implies runs_gh(
        #[trigger] calls[i],
        repo,
        github_repo,
        seq!["stack"@, "unstack"@, decimal(stacks[i - n].number as nat)],
    ) by {
        assert(rest[i - n] == calls[i]);
    }
    assert(rest[rest.len() - 1] == calls.last());
}

proof fn lemma_lookup_replies(calls: Seq<Call>, i: int)
    requires
        found_stacks(calls) is Ok,
        0 <= i < calls.len(),
    ensures
        calls[i].reply is Ok,
        parsed_stacks(calls[i].reply->Ok_0) is Ok,
    decreases calls.len(),
{
    if i < calls.len() - 1 {
        lemma_lookup_replies(calls.drop_last(), i);
    }
}

/// Among stacks there is one with a number.
pub open spec fn has_number(stacks: Seq<RemoteStackView>, number: u64) -> bool {
    exists|k: int| 0 <= k < stacks.len() && (#[trigger] stacks[k]).number == number
}

/// A stack is one of those that a lookup described.
pub open spec fn described(calls: Seq<Call>, stack: RemoteStackView) -> bool {
    exists|i: int|
        0 <= i < calls.len() && ((#[trigger] calls[i]).reply matches Ok(output) && (parsed_stacks(
            output,
        ) matches Ok(all) && all.contains(stack)))
}

proof fn lemma_with_stack(stacks: Seq<RemoteStackView>, stack: RemoteStackView)
    ensures
        forall|number: u64| #[trigger]
            has_number(with_stack(stacks, stack), number) <==> has_number(stacks, number) || number
                == stack.number,
        forall|x: RemoteStackView| #[trigger]
            with_stack(stacks, stack).contains(x) ==> stacks.contains(x) || x == stack,
    decreases stacks.len(),
{
    let all = with_stack(stacks, stack);
    if stacks.len() == 0 {
        assert(all[0] == stack);
    } else {
        let init = stacks.drop_last();
        let last = stacks.last();
        lemma_with_stack(init, stack);
        let base = if last.number < stack.number {
            stacks
        } else if last.number == stack.number {
            init
        } else {
            with_stack(init, stack)
        };
        let end = if last.number <= stack.number {
            stack
        } else {
            last
        };
        assert(all == base.push(end));
        assert(stacks =~= init.push(last));
        lemma_push_number(base, end);
        lemma_push_number(init, last);
        assert forall|x: RemoteStackView| #[trigger] all.contains(x) implies stacks.contains(x) || x
            == stack by {
            vstd::seq_lib::lemma_seq_contains_after_push(base, end, x);
            vstd::seq_lib::lemma_seq_contains_after_push(init, last, x);
        }
    }
}

proof fn lemma_push_number(stacks: Seq<RemoteStackView>, stack: RemoteStackView)
    ensures
        forall|number: u64| #[trigger]
            has_number(stacks.push(stack), number) <==> has_number(stacks, number) || number
                == stack.number,
{
    let all = stacks.push(stack);
    assert forall|number: u64| #[trigger]
        has_number(all, number) <==> has_number(stacks, number) || number == stack.number by {
        if has_number(stacks, number) {
            let k = choose|k: int| 0 <= k < stacks.len() && (#[trigger] stacks[k]).number == number;
            assert(all[k].number == number);
        }
        if number == stack.number {
            assert(all[stacks.len() as int].number == number);
        }
        if has_number(all, number) {
            let k = choose|k: int| 0 <= k < all.len() && (#[trigger] all[k]).number == number;
            if k < stacks.len() {
                assert(stacks[k].number == number);
            }
        }
    }
}

proof fn lemma_with_stacks(stacks: Seq<RemoteStackView>, more: Seq<RemoteStackView>)
    ensures
        forall|number: u64| #[trigger]
            has_number(with_stacks(stacks, more), number) <==> has_number(stacks, number)
                || has_number(more, number),
        forall|x: RemoteStackView| #[trigger]
            with_stacks(stacks, more).contains(x) ==> stacks.contains(x) || more.contains(x),
    decreases more.len(),
{
    if more.len() == 0 {
    } else {
        let init = more.drop_last();
        lemma_with_stacks(stacks, init);
        lemma_with_stack(with_stacks(stacks, init), more.last());
        assert(more =~= init.push(more.last()));
        lemma_push_number(init, more.last());
        assert forall|x: RemoteStackView| #[trigger] with_stacks(stacks, more).contains(x) implies
            stacks.contains(x) || more.contains(x) by {
            vstd::seq_lib::lemma_seq_contains_after_push(init, more.last(), x);
        }
    }
}

/// What lookups find is all that they describe, and nothing else: no stack of any pull
/// request is passed over.
pub proof fn law_every_stack_is_found(calls: Seq<Call>, stack: RemoteStackView)
    requires
        found_stacks(calls) is Ok,
    ensures
        described(calls, stack) ==> has_number(found_stacks(calls)->Ok_0, stack.number),
        found_stacks(calls)->Ok_0.contains(stack) ==> described(calls, stack),
    decreases calls.len(),
{
    if calls.len() > 0 {
        let init = calls.drop_last();
        law_every_stack_is_found(init, stack);
        let done = found_stacks(init)->Ok_0;
        let more = parsed_stacks(calls.last().reply->Ok_0)->Ok_0;
        lemma_with_stacks(done, more);
        if described(calls, stack) {
            let i = choose|i: int|
                0 <= i < calls.len() && ((#[trigger] calls[i]).reply matches Ok(output) && (
                parsed_stacks(output) matches Ok(all) && all.contains(stack)));
            if i < init.len() {
                assert(init[i] == calls[i]);
                assert(described(init, stack));
            } else {
                let k = more.index_of(stack);
                assert(more[k].number == stack.number);
                assert(has_number(more, stack.number));
            }
        }
        if found_stacks(calls)->Ok_0.contains(stack) {
            if done.contains(stack) {
                let i = choose|i: int|
                    0 <= i < init.len() && ((#[trigger] init[i]).reply matches Ok(output) && (
                    parsed_stacks(output) matches Ok(all) && all.contains(stack)));
                assert(calls[i] == init[i]);
            } else {
                assert(calls[calls.len() - 1] == calls.last());
            }
        }
    }
}

/// A lookup describes a stack exactly where it tells the stack's number and those of all its
/// pull requests, and the stack holds just these.
pub proof fn law_described_stacks(
    number: Option<u64>,
    members: Option<Seq<Option<u64>>>,
    member: u64,
)
    ensures
        match stack_with(number, members) {
            Ok(stack) => {
                &&& number == Some(stack.number)
                &&& members matches Some(all) && !all.contains(None) && (
                stack.pull_requests.contains(member) <==> all.contains(Some(member)))
            },
            Err(_) => number is None || members is None || members->0.contains(None),
        },
{
    if stack_with(number, members) is Ok {
        let all = members->0;
        let found = all.map_values(|n: Option<u64>| n->0);
        if all.contains(Some(member)) {
            let i = all.index_of(Some(member));
            assert(found[i] == member);
        }
        if found.contains(member) {
            let i = found.index_of(member);
            assert(all.contains(all[i]));
            assert(all[i] == Some(member));
        }
    }
}

/// Every item of a lookup describes a stack, and one that does not makes it fail.
pub proof fn law_lookups_pass_over_nothing(items: Seq<Text>, i: int)
    requires
        0 <= i < items.len(),
        stacks_in(items) is Ok,
    ensures
        stacks_in(items)->Ok_0.len() == items.len(),
        stack_with(number_field(items[i]), members_field(items[i])) == Ok::<RemoteStackView, Text>(
            stacks_in(items)->Ok_0[i],
        ),
    decreases items.len(),
{
    reveal_with_fuel(stacks_in, 2);
    if items.len() > 1 {
        if i < items.len() - 1 {
            law_lookups_pass_over_nothing(items.drop_last(), i);
        } else {
            law_lookups_pass_over_nothing(items.drop_last(), 0);
        }
    }
}

/// Branches are linked in their order, on the base, by the remote.
pub proof fn law_branches_are_linked_in_order(remote: Text, base: Text, branches: Seq<Text>)
    ensures
        link_args(remote, base, branches).take(6) == seq![
            "stack"@,
            "link"@,
            "--remote"@,
            remote,
            "--base"@,
            base,
        ],
        link_args(remote, base, branches).skip(6) == branches,
{
    assert(link_args(remote, base, branches).take(6) =~= seq![
        "stack"@,
        "link"@,
        "--remote"@,
        remote,
        "--base"@,
        base,
    ]);
    assert(link_args(remote, base, branches).skip(6) =~= branches);
}

/// The pull requests of a stack are told by their numbers, or by objects that have one. All
/// are read, in their order.
pub proof fn law_members_are_read(item: Text, list: Text, items: Seq<Text>, i: int)
    ensures
        json_field(item, "pull_requests"@) == Some(list) && json_items(list) == Ok::<
            Seq<Text>,
            Text,
        >(items) && 0 <= i < items.len() ==> {
            &&& members_field(item) is Some
            &&& members_field(item)->0.len() == items.len()
            &&& json_number(items[i]) is Some ==> members_field(item)->0[i] == json_number(items[i])
            &&& json_number(items[i]) is None ==> members_field(item)->0[i] == (match json_field(
                items[i],
                "number"@,
            ) {
                Some(text) => json_number(text),
                None => None,
            })
        },
{
}

/// A stack that cannot be taken apart is told by its number, with the reason. Nothing is
/// linked then.
pub proof fn law_failed_unstacking_is_told(
    calls: Seq<Call>,
    gone: Seq<RemoteStackView>,
    repo: Text,
    github_repo: Text,
    link: Seq<Text>,
    r: Result<(), Text>,
)
    requires
        relinked(calls, gone, repo, github_repo, link, r),
        calls.len() <= gone.len(),
    ensures
        calls.last().reply is Err,
        r == Err::<(), Text>(
            "could not unstack GitHub stack #"@ + decimal(gone[calls.len() - 1].number as nat)
                + ": "@ + calls.last().reply->Err_0,
        ),
{
}

} // verus!
