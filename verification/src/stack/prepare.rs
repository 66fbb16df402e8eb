//! Bringing what is known of the remote up to date before a plan is made.

use crate::dict::Dict;
use crate::integrations::gh_stack::done_result;
use crate::integrations::git::{
    fetch_remote_branches, fetched, local_ref_scope, local_result, names_result, ref_scope,
    scope_of,
};
use crate::integrations::runner::{Call, CommandRunner, Recorded};
use crate::stack::planning::{plan_with_runner, planned_by_runs};
use crate::stack::submit::{
    plan_result, remote_sync_scope, sync_scope, OptionsView, PlanView, SubmitOptions, SubmitPlan,
};
use crate::text::{texts, Text};
use vstd::prelude::*;

verus! {

/// Refs have been dropped by `drop_refs`.
pub open spec fn dropped<D: Fn(&str, &Vec<String>) -> Result<(), String>>(
    drop_refs: D,
    repo: Text,
    names: Seq<Text>,
    r: Result<(), Text>,
) -> bool {
    exists|at: &str, refs: &Vec<String>, done: Result<(), String>|
        at@ == repo && texts(refs@) == names && #[trigger] call_ensures(
            drop_refs,
            (at, refs),
            done,
        ) && r == done_result(done)
}

/// The refs here are as the remote has its branches: where they point has been told by
/// `local`, what is stale fetched, and what is gone dropped. What fails ends it.
pub open spec fn synced<
    L: Fn(&str, &Vec<String>, &Vec<String>) -> Result<Dict<String>, String>,
    D: Fn(&str, &Vec<String>) -> Result<(), String>,
>(
    local: L,
    drop_refs: D,
    repo: Text,
    remote: Text,
    branches: Seq<Text>,
    prefixes: Seq<Text>,
    before: Seq<Call>,
    after: Seq<Call>,
    r: Result<(), Text>,
) -> bool {
    exists|
        at: &str,
        exact: &Vec<String>,
        patterns: &Vec<String>,
        refs: Result<Dict<String>, String>,
        gone: Result<Seq<Text>, Text>,
    |
        at@ == repo && (texts(exact@), texts(patterns@)) == ref_scope(remote, branches, prefixes)
            && #[trigger] call_ensures(local, (at, exact, patterns), refs)
            && #[trigger] fetched(
            scope_of(remote, branches, prefixes),
            repo,
            local_result(refs),
            before,
            after,
            gone,
        ) && match gone {
            Err(error) => r == Err::<(), Text>(error),
            Ok(names) => dropped(drop_refs, repo, names, r),
        }
}

/// A plan has been made.
pub open spec fn planned(
    options: OptionsView,
    before: Seq<Call>,
    after: Seq<Call>,
    r: Result<PlanView, Text>,
) -> bool {
    &&& before.is_prefix_of(after)
    &&& planned_by_runs(options, after.skip(before.len() as int), r)
}

/// What a plan depends on has been brought up to date, and a plan been made then. What
/// fails ends it.
pub open spec fn replanned<
    L: Fn(&str, &Vec<String>, &Vec<String>) -> Result<Dict<String>, String>,
    D: Fn(&str, &Vec<String>) -> Result<(), String>,
>(
    plan: PlanView,
    options: OptionsView,
    local: L,
    drop_refs: D,
    before: Seq<Call>,
    after: Seq<Call>,
    r: Result<PlanView, Text>,
) -> bool {
    exists|middle: Seq<Call>, done: Result<(), Text>| #[trigger]
        synced(
            local,
            drop_refs,
            plan.options.repo,
            plan.options.remote,
            sync_scope(plan).0,
            sync_scope(plan).1,
            before,
            middle,
            done,
        ) && match done {
            Err(error) => after == middle && r == Err::<PlanView, Text>(error),
            Ok(()) => planned(options, middle, after, r),
        }
}

/// A plan has been prepared where none is expected: the base branch has been brought up to
/// date, and then what a first plan depends on. What fails ends it.
pub open spec fn newly_planned<
    L: Fn(&str, &Vec<String>, &Vec<String>) -> Result<Dict<String>, String>,
    D: Fn(&str, &Vec<String>) -> Result<(), String>,
>(
    options: OptionsView,
    local: L,
    drop_refs: D,
    before: Seq<Call>,
    after: Seq<Call>,
    r: Result<PlanView, Text>,
) -> bool {
    exists|middle: Seq<Call>, done: Result<(), Text>| #[trigger]
        synced(
            local,
            drop_refs,
            options.repo,
            options.remote,
            seq![options.base],
            Seq::empty(),
            before,
            middle,
            done,
        ) && match done {
            Err(error) => after == middle && r == Err::<PlanView, Text>(error),
            Ok(()) => exists|then: Seq<Call>, first: Result<PlanView, Text>| #[trigger]
                planned(options, middle, then, first) && match first {
                    Err(error) => after == then && r == Err::<PlanView, Text>(error),
                    Ok(plan) => replanned(plan, options, local, drop_refs, then, after, r),
                },
        }
}

/// Brings the refs here to where the remote has its branches.
fn sync<
    R: CommandRunner,
    L: Fn(&str, &Vec<String>, &Vec<String>) -> Result<Dict<String>, String>,
    D: Fn(&str, &Vec<String>) -> Result<(), String>,
>(
    runner: &mut Recorded<R>,
    repo: &str,
    remote: &str,
    branches: &Vec<String>,
    prefixes: &Vec<String>,
    local: &L,
    drop_refs: &D,
) -> (r: Result<(), String>)
    requires
        forall|at: &str, exact: &Vec<String>, patterns: &Vec<String>| #[trigger]
            call_requires(*local, (at, exact, patterns)),
        forall|at: &str, refs: &Vec<String>| #[trigger] call_requires(*drop_refs, (at, refs)),
    ensures
        synced(
            *local,
            *drop_refs,
            repo@,
            remote@,
            texts(branches@),
            texts(prefixes@),
            old(runner).history(),
            final(runner).history(),
            done_result(r),
        ),
{
    let (exact, patterns) = local_ref_scope(remote, branches, prefixes);
    let refs = local(repo, &exact, &patterns);
    assert(call_ensures(*local, (repo, &exact, &patterns), refs));
    let gone = fetch_remote_branches(runner, &refs, repo, remote, branches, prefixes);
    assert(fetched(
        scope_of(remote@, texts(branches@), texts(prefixes@)),
        repo@,
        local_result(refs),
        old(runner).history(),
        runner.history(),
        names_result(gone),
    ));
    match gone {
        Err(error) => Err(error),
        Ok(names) => {
            let done = drop_refs(repo, &names);
            assert(call_ensures(*drop_refs, (repo, &names), done));
            done
        },
    }
}

/// Makes a plan once what another depends on is up to date.
fn replan<
    R: CommandRunner,
    L: Fn(&str, &Vec<String>, &Vec<String>) -> Result<Dict<String>, String>,
    D: Fn(&str, &Vec<String>) -> Result<(), String>,
>(
    plan: &SubmitPlan,
    options: SubmitOptions,
    runner: &mut Recorded<R>,
    local: &L,
    drop_refs: &D,
) -> (r: Result<SubmitPlan, String>)
    requires
        forall|at: &str, exact: &Vec<String>, patterns: &Vec<String>| #[trigger]
            call_requires(*local, (at, exact, patterns)),
        forall|at: &str, refs: &Vec<String>| #[trigger] call_requires(*drop_refs, (at, refs)),
    ensures
        replanned(
            plan@,
            options@,
            *local,
            *drop_refs,
            old(runner).history(),
            final(runner).history(),
            plan_result(r),
        ),
{
    let (branches, prefixes) = remote_sync_scope(plan);
    let done = sync(
        runner,
        plan.options.repo.as_str(),
        plan.options.remote.as_str(),
        &branches,
        &prefixes,
        local,
        drop_refs,
    );
    let ghost middle = runner.history();
    assert(synced(
        *local,
        *drop_refs,
        plan@.options.repo,
        plan@.options.remote,
        sync_scope(plan@).0,
        sync_scope(plan@).1,
        old(runner).history(),
        middle,
        done_result(done),
    ));
    match done {
        Err(error) => {
            return Err(error);
        },
        Ok(()) => {},
    }
    let r = plan_with_runner(options, runner);
    assert(planned(options@, middle, runner.history(), plan_result(r)));
    r
}

/// Brings what is known of the remote up to date and makes a plan: all that the expected
/// plan depends on or, where none is expected, the base branch and then what a first plan
/// depends on. `local` tells where the refs of a repository point that are given by names
/// and patterns; `drop_refs` drops refs by their names.
pub fn prepare_with_runner<
    R: CommandRunner,
    L: Fn(&str, &Vec<String>, &Vec<String>) -> Result<Dict<String>, String>,
    D: Fn(&str, &Vec<String>) -> Result<(), String>,
>(
    options: SubmitOptions,
    expected: Option<&SubmitPlan>,
    runner: &mut Recorded<R>,
    local: &L,
    drop_refs: &D,
) -> (r: Result<SubmitPlan, String>)
    requires
        forall|at: &str, exact: &Vec<String>, patterns: &Vec<String>| #[trigger]
            call_requires(*local, (at, exact, patterns)),
        forall|at: &str, refs: &Vec<String>| #[trigger] call_requires(*drop_refs, (at, refs)),
    ensures
        match expected {
            Some(plan) => replanned(
                plan@,
                options@,
                *local,
                *drop_refs,
                old(runner).history(),
                final(runner).history(),
                plan_result(r),
            ),
            None => newly_planned(
                options@,
                *local,
                *drop_refs,
                old(runner).history(),
                final(runner).history(),
                plan_result(r),
            ),
        },
{
    match expected {
        Some(plan) => replan(plan, options, runner, local, drop_refs),
        None => {
            let mut branches: Vec<String> = Vec::new();
            branches.push(options.base.clone());
            let prefixes: Vec<String> = Vec::new();
            assert(texts(branches@) =~= seq![options.base@]);
            assert(texts(prefixes@) =~= Seq::<Text>::empty());
            let done = sync(
                runner,
                options.repo.as_str(),
                options.remote.as_str(),
                &branches,
                &prefixes,
                local,
                drop_refs,
            );
            let ghost middle = runner.history();
            assert(synced(
                *local,
                *drop_refs,
                options@.repo,
                options@.remote,
                seq![options@.base],
                Seq::empty(),
                old(runner).history(),
                middle,
                done_result(done),
            ));
            match done {
                Err(error) => {
                    return Err(error);
                },
                Ok(()) => {},
            }
            let first = plan_with_runner(options.clone(), runner);
            assert(planned(options@, middle, runner.history(), plan_result(first)));
            match first {
                Err(error) => Err(error),
                Ok(plan) => replan(&plan, options, runner, local, drop_refs),
            }
        },
    }
}

} // verus!
