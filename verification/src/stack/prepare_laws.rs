//! What planning asks for, and what is brought up to date before it.

use crate::dict::Dict;
use crate::integrations::fetch_laws::{
    law_missing_branches_are_told, law_remotes_are_asked_for_what_is_wanted,
};
use crate::integrations::gh_stack::done_result;
use crate::integrations::git::{
    advertised, fetched, listing_args, local_result, missing, ref_scope, scope_of, under_prefix,
};
use crate::integrations::runner::Call;
use crate::order::{lemma_listed_members, listed};
use crate::split::lines_of;
use crate::stack::assign::identities_at;
use crate::stack::plan_laws::law_what_a_plan_depends_on_is_fetched;
use crate::stack::planning::{logged_stack, planned_by_runs};
use crate::stack::prepare::{dropped, newly_planned, planned, replanned, synced};
use crate::stack::submit::{plan_of, sync_scope, OptionsView, PlanView};
use crate::text::{texts, Text};
use vstd::prelude::*;

verus! {

/// A run of Git.
pub open spec fn is_git(call: Call, repo: Text) -> bool {
    call.program == "git"@ && call.repo == repo && call.input is None && call.env.len() == 0
}

/// The names in a list of refs.
pub open spec fn names_in(list: Text) -> Seq<Option<Text>> {
    lines_of(list).map_values(|name: Text| Some(name))
}

/// A plan that is made is one of the commits between the remote's base branch and what is
/// checked out, oldest first, and of the identities that the remote has under the prefix,
/// where some commit is given one.
pub proof fn law_plans_are_made_of_what_git_tells(
    options: OptionsView,
    calls: Seq<Call>,
    plan: PlanView,
)
    requires
        planned_by_runs(options, calls, Ok::<PlanView, Text>(plan)),
    ensures
        2 <= calls.len() <= 3,
        forall|i: int| 0 <= i < calls.len() ==> is_git(#[trigger] calls[i], options.repo),
        forall|i: int| 0 <= i < calls.len() ==> (#[trigger] calls[i]).reply is Ok,
        calls[0].args == seq!["remote"@, "get-url"@, options.remote],
        calls[1].args == seq![
            "log"@,
            "-z"@,
            "--no-show-signature"@,
            "--topo-order"@,
            "--reverse"@,
            "--format=%H%x00%P%x00%s%x00%b%x00%B"@,
            "refs/remotes/"@ + options.remote + "/"@ + options.base + "..HEAD"@,
        ],
        logged_stack(calls[1].reply->Ok_0) is Ok,
        ({
            let records = logged_stack(calls[1].reply->Ok_0)->Ok_0;
            &&& calls.len() == 2 ==> plan_of(options, plan.fork, records, Seq::empty()) == Ok::<
                PlanView,
                Text,
            >(plan)
            &&& calls.len() == 3 ==> {
                &&& options.prefix is Some
                &&& calls[2].args == seq![
                    "for-each-ref"@,
                    "--format=%(refname)"@,
                    "refs/remotes/"@ + options.remote + "/fs-head/"@ + options.prefix->0 + "/"@,
                ]
                &&& plan_of(
                    options,
                    plan.fork,
                    records,
                    identities_at(
                        names_in(calls[2].reply->Ok_0),
                        options.remote,
                        options.prefix->0,
                    ),
                ) == Ok::<PlanView, Text>(plan)
            }
        }),
{
    assert(calls.skip(1)[0] == calls[1]);
    assert(calls[1].reply is Ok);
    let rest = calls.skip(1).skip(1);
    if rest.len() > 0 {
        assert(rest[0] == calls[2]);
    }
}

/// A run of Git that asks a remote for a branch.
pub open spec fn asks_for(call: Call, repo: Text, remote: Text, branch: Text) -> bool {
    &&& is_git(call, repo)
    &&& call.args.take(5) == seq![
        "ls-remote"@,
        "--refs"@,
        "--heads"@,
        "--end-of-options"@,
        remote,
    ]
    &&& call.args.contains("refs/heads/"@ + branch)
}

proof fn lemma_synced<
    L: Fn(&str, &Vec<String>, &Vec<String>) -> Result<Dict<String>, String>,
    D: Fn(&str, &Vec<String>) -> Result<(), String>,
>(
    local: L,
    drop_refs: D,
    repo: Text,
    remote: Text,
    branches: Seq<Text>,
    prefixes: Seq<Text>,
    before: Seq<Call>,
    after: Seq<Call>,
    r: Result<(), Text>,
)
    requires
        synced(local, drop_refs, repo, remote, branches, prefixes, before, after, r),
        branches.len() > 0,
    ensures
        before.len() < after.len(),
        before.is_prefix_of(after),
        forall|i: int|
            0 <= i < branches.len() ==> asks_for(
                after[before.len() as int],
                repo,
                remote,
                #[trigger] branches[i],
            ),
{
    let scope = scope_of(remote, branches, prefixes);
    let n = before.len() as int;
    assert(scope.branches.contains(branches[0]));
    assert(!scope.branches.is_empty());
    assert(after.len() > n && after[n].args == listing_args(scope) && is_git(after[n], repo)
        && before.is_prefix_of(after));
    vstd::seq_lib::seq_to_set_is_finite(branches);
    vstd::seq_lib::seq_to_set_is_finite(prefixes);
    assert forall|i: int| 0 <= i < branches.len() implies asks_for(
        after[n],
        repo,
        remote,
        #[trigger] branches[i],
    ) by {
        assert(scope.branches.contains(branches[i]));
        law_remotes_are_asked_for_what_is_wanted(scope, branches[i]);
    }
}

/// A plan is made of the runs of Git from some run on.
pub open spec fn made_from(
    options: OptionsView,
    calls: Seq<Call>,
    start: int,
    plan: PlanView,
) -> bool {
    &&& 0 <= start <= calls.len()
    &&& planned_by_runs(options, calls.skip(start), Ok::<PlanView, Text>(plan))
}

/// A plan is made of runs of Git behind a run.
pub open spec fn made_behind(
    options: OptionsView,
    calls: Seq<Call>,
    first: int,
    plan: PlanView,
) -> bool {
    exists|start: int| first < start && #[trigger] made_from(options, calls, start, plan)
}

/// Before a plan is made anew, the remote is asked for its base branch and for both branches
/// of every commit of the plan before. What is planned then is made of what Git tells after
/// that.
pub proof fn law_plans_are_checked_against_the_remote<
    L: Fn(&str, &Vec<String>, &Vec<String>) -> Result<Dict<String>, String>,
    D: Fn(&str, &Vec<String>) -> Result<(), String>,
>(
    plan: PlanView,
    options: OptionsView,
    local: L,
    drop_refs: D,
    before: Seq<Call>,
    after: Seq<Call>,
    r: Result<PlanView, Text>,
    i: int,
)
    requires
        replanned(plan, options, local, drop_refs, before, after, r),
        0 <= i < plan.commits.len(),
    ensures
        ({
            let repo = plan.options.repo;
            let remote = plan.options.remote;
            let n = before.len() as int;
            &&& n < after.len()
            &&& before.is_prefix_of(after)
            &&& asks_for(after[n], repo, remote, plan.options.base)
            &&& asks_for(after[n], repo, remote, "fs-base/"@ + plan.commits[i].branch)
            &&& asks_for(after[n], repo, remote, "fs-head/"@ + plan.commits[i].branch)
            &&& r is Ok ==> made_behind(options, after, n, r->Ok_0)
        }),
{
    let branches = sync_scope(plan).0;
    let prefixes = sync_scope(plan).1;
    let n = before.len() as int;
    law_what_a_plan_depends_on_is_fetched(plan, i);
    let (middle, done) = choose|middle: Seq<Call>, done: Result<(), Text>| #[trigger]
        synced(
            local,
            drop_refs,
            plan.options.repo,
            plan.options.remote,
            branches,
            prefixes,
            before,
            middle,
            done,
        ) && match done {
            Err(error) => after == middle && r == Err::<PlanView, Text>(error),
            Ok(()) => planned(options, middle, after, r),
        };
    lemma_synced(
        local,
        drop_refs,
        plan.options.repo,
        plan.options.remote,
        branches,
        prefixes,
        before,
        middle,
        done,
    );
    assert(middle.is_prefix_of(after));
    assert(after[n] == middle[n]);
    assert(asks_for(middle[n], plan.options.repo, plan.options.remote, branches[0]));
    assert(asks_for(middle[n], plan.options.repo, plan.options.remote, branches[1 + 2 * i]));
    assert(asks_for(middle[n], plan.options.repo, plan.options.remote, branches[2 + 2 * i]));
    assert(before =~= after.take(n)) by {
        assert(before =~= middle.take(n));
        assert(middle =~= after.take(middle.len() as int));
    }
    if r is Ok {
        assert(made_from(options, after, middle.len() as int, r->Ok_0));
    }
}

/// A first plan is made behind a run, and is made anew then.
pub open spec fn made_twice<
    L: Fn(&str, &Vec<String>, &Vec<String>) -> Result<Dict<String>, String>,
    D: Fn(&str, &Vec<String>) -> Result<(), String>,
>(
    options: OptionsView,
    local: L,
    drop_refs: D,
    after: Seq<Call>,
    first: int,
    r: Result<PlanView, Text>,
) -> bool {
    exists|then: Seq<Call>, plan: PlanView| #[trigger]
        replanned(plan, options, local, drop_refs, then, after, r) && made_behind(
            options,
            then,
            first,
            plan,
        )
}

/// Where no plan is expected, the remote is asked for its base branch first. A plan is made
/// then, and made anew once all that it depends on is up to date.
pub proof fn law_new_plans_start_from_the_remote<
    L: Fn(&str, &Vec<String>, &Vec<String>) -> Result<Dict<String>, String>,
    D: Fn(&str, &Vec<String>) -> Result<(), String>,
>(
    options: OptionsView,
    local: L,
    drop_refs: D,
    before: Seq<Call>,
    after: Seq<Call>,
    r: Result<PlanView, Text>,
)
    requires
        newly_planned(options, local, drop_refs, before, after, r),
    ensures
        r is Ok ==> made_twice(options, local, drop_refs, after, before.len() as int, r),
        r is Ok ==> asked_first(options, before, after),
{
    if r is Ok {
        let base = seq![options.base];
        let none: Seq<Text> = Seq::empty();
        let n = before.len() as int;
        let (middle, done) = choose|middle: Seq<Call>, done: Result<(), Text>| #[trigger]
            synced(
                local,
                drop_refs,
                options.repo,
                options.remote,
                base,
                none,
                before,
                middle,
                done,
            ) && match done {
                Err(error) => after == middle && r == Err::<PlanView, Text>(error),
                Ok(()) => exists|then: Seq<Call>, first: Result<PlanView, Text>| #[trigger]
                    planned(options, middle, then, first) && match first {
                        Err(error) => after == then && r == Err::<PlanView, Text>(error),
                        Ok(plan) => replanned(plan, options, local, drop_refs, then, after, r),
                    },
            };
        lemma_synced(
            local,
            drop_refs,
            options.repo,
            options.remote,
            base,
            none,
            before,
            middle,
            done,
        );
        assert(asks_for(middle[n], options.repo, options.remote, base[0]));
        let (then, first) = choose|then: Seq<Call>, first: Result<PlanView, Text>| #[trigger]
            planned(options, middle, then, first) && match first {
                Err(error) => after == then && r == Err::<PlanView, Text>(error),
                Ok(plan) => replanned(plan, options, local, drop_refs, then, after, r),
            };
        let plan = first->Ok_0;
        assert(made_from(options, then, middle.len() as int, plan));
        lemma_replanned_prefix(plan, options, local, drop_refs, then, after, r);
        assert(after[n] == then[n] && then[n] == middle[n]);
    }
}

/// The remote is asked for the base branch with the first run.
pub open spec fn asked_first(options: OptionsView, before: Seq<Call>, after: Seq<Call>) -> bool {
    &&& before.len() < after.len()
    &&& asks_for(after[before.len() as int], options.repo, options.remote, options.base)
}

proof fn lemma_replanned_prefix<
    L: Fn(&str, &Vec<String>, &Vec<String>) -> Result<Dict<String>, String>,
    D: Fn(&str, &Vec<String>) -> Result<(), String>,
>(
    plan: PlanView,
    options: OptionsView,
    local: L,
    drop_refs: D,
    before: Seq<Call>,
    after: Seq<Call>,
    r: Result<PlanView, Text>,
)
    requires
        replanned(plan, options, local, drop_refs, before, after, r),
    ensures
        before.is_prefix_of(after),
{
    let branches = sync_scope(plan).0;
    let prefixes = sync_scope(plan).1;
    let (middle, done) = choose|middle: Seq<Call>, done: Result<(), Text>| #[trigger]
        synced(
            local,
            drop_refs,
            plan.options.repo,
            plan.options.remote,
            branches,
            prefixes,
            before,
            middle,
            done,
        ) && match done {
            Err(error) => after == middle && r == Err::<PlanView, Text>(error),
            Ok(()) => planned(options, middle, after, r),
        };
    assert(branches.len() > 0);
    lemma_synced(
        local,
        drop_refs,
        plan.options.repo,
        plan.options.remote,
        branches,
        prefixes,
        before,
        middle,
        done,
    );
    assert(before =~= after.take(before.len() as int)) by {
        assert(before =~= middle.take(before.len() as int));
        assert(middle =~= after.take(middle.len() as int));
    }
}

/// A ref of a repository is dropped, with others it may be.
pub open spec fn drops<D: Fn(&str, &Vec<String>) -> Result<(), String>>(
    drop_refs: D,
    repo: Text,
    name: Text,
) -> bool {
    exists|at: &str, refs: &Vec<String>, done: Result<(), String>|
        at@ == repo && texts(refs@).contains(name) && done is Ok && #[trigger] call_ensures(
            drop_refs,
            (at, refs),
            done,
        )
}

/// A branch that the remote was asked for by its name and does not have leaves no ref here.
pub proof fn law_refs_of_gone_branches_are_dropped<
    L: Fn(&str, &Vec<String>, &Vec<String>) -> Result<Dict<String>, String>,
    D: Fn(&str, &Vec<String>) -> Result<(), String>,
>(
    local: L,
    drop_refs: D,
    repo: Text,
    remote: Text,
    branches: Seq<Text>,
    before: Seq<Call>,
    after: Seq<Call>,
    branch: Text,
)
    requires
        synced(
            local,
            drop_refs,
            repo,
            remote,
            branches,
            Seq::empty(),
            before,
            after,
            Ok::<(), Text>(()),
        ),
        branches.contains(branch),
    ensures
        before.len() < after.len(),
        after[before.len() as int].reply is Ok,
        !advertised(after[before.len() as int].reply->Ok_0).contains_key("refs/heads/"@ + branch)
            ==> drops(drop_refs, repo, "refs/remotes/"@ + remote + "/"@ + branch),
{
    let none: Seq<Text> = Seq::empty();
    let scope = scope_of(remote, branches, none);
    let n = before.len() as int;
    let name = "refs/remotes/"@ + remote + "/"@ + branch;
    assert(scope.branches.contains(branch));
    assert(!scope.branches.is_empty());
    let (at, exact, patterns, refs, gone) = choose|
        at: &str,
        exact: &Vec<String>,
        patterns: &Vec<String>,
        refs: Result<Dict<String>, String>,
        gone: Result<Seq<Text>, Text>,
    |
        at@ == repo && (texts(exact@), texts(patterns@)) == ref_scope(remote, branches, none)
            && #[trigger] call_ensures(local, (at, exact, patterns), refs)
            && #[trigger] fetched(scope, repo, local_result(refs), before, after, gone)
            && match gone {
            Err(error) => Ok::<(), Text>(()) == Err::<(), Text>(error),
            Ok(names) => dropped(drop_refs, repo, names, Ok::<(), Text>(())),
        };
    let there = advertised(after[n].reply->Ok_0);
    let here = local_result(refs)->Ok_0;
    assert(gone is Ok);
    let lost = missing(scope, there, here);
    assert(gone->Ok_0 == listed(lost));
    law_missing_branches_are_told(scope, there, here, branch);
    let root = "refs/remotes/"@ + remote + "/"@;
    vstd::seq_lib::seq_to_set_is_finite(branches);
    scope.branches.lemma_map_finite(|one: Text| root + one);
    let all = scope.branches.map(|one: Text| root + one);
    assert forall|x: Text| #[trigger] lost.contains(x) implies all.contains(x) by {
        let one = choose|one: Text|
            {
                &&& x == #[trigger] (root + one)
                &&& !there.contains_key("refs/heads/"@ + one)
                &&& scope.branches.contains(one) || here.contains_key(x) && under_prefix(
                    scope.prefixes,
                    one,
                )
            };
        assert(scope.branches.contains(one));
    }
    vstd::set_lib::lemma_set_subset_finite(all, lost);
    lemma_listed_members(lost);
    if !there.contains_key("refs/heads/"@ + branch) {
        assert(lost.contains(name));
        assert(listed(lost).contains(name));
        let (place, names, done) = choose|
            place: &str,
            names: &Vec<String>,
            done: Result<(), String>,
        |
            place@ == repo && texts(names@) == listed(lost) && #[trigger] call_ensures(
                drop_refs,
                (place, names),
                done,
            ) && Ok::<(), Text>(()) == done_result(done);
        assert(done is Ok);
    }
}

} // verus!
