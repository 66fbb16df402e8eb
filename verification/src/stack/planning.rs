//! Planning a stack from what Git says of it.

use crate::integrations::git::{git_call, run_owned};
use crate::integrations::runner::{Call, CommandRunner, Recorded};
use crate::number::decimal;
use crate::order::views;
use crate::split::{lines, lines_of, split, split_on, words, words_of};
use crate::stack::assign::{
    can_number, claims, identities_at, identity_root, is_linear, maybes, messages,
    needs_remote_identities,
    numbers_fit, record_result, record_with_message, records_result, remote_identities,
    remote_identity_root, remote_matters, validate_linear_records, CommitRecord, RawCommit,
    RecordView,
};
use crate::stack::identity::identity;
use crate::stack::names::is_branch_name;
use crate::stack::submit::{
    base_reference, fork_at, fork_of, plan, plan_of, plan_result, OptionsView, PlanView,
    SubmitOptions, SubmitPlan,
};
use crate::text::{first_chars, maybe, texts, trim, Text};
use vstd::prelude::*;

verus! {

/// The arguments that ask for the address of a remote.
pub open spec fn url_args(remote: Text) -> Seq<Text> {
    seq!["remote"@, "get-url"@, remote]
}

/// How Git writes a commit: its id, its parents, its subject, its body and its whole
/// message, each with a zero character behind it.
pub const LOG_FORMAT: &'static str = "--format=%H%x00%P%x00%s%x00%b%x00%B";

/// The arguments that list the commits of a stack, oldest first.
pub open spec fn log_args(options: OptionsView) -> Seq<Text> {
    seq![
        "log"@,
        "-z"@,
        "--no-show-signature"@,
        "--topo-order"@,
        "--reverse"@,
        LOG_FORMAT@,
        "refs/remotes/"@ + options.remote + "/"@ + options.base + "..HEAD"@,
    ]
}

/// The arguments that list the remote's identities under a prefix.
pub open spec fn refs_args(remote: Text, prefix: Text) -> Seq<Text> {
    seq!["for-each-ref"@, "--format=%(refname)"@, identity_root(remote, prefix)]
}

/// The commit that five fields from `at` on tell of. A commit of a stack has a single
/// parent.
pub open spec fn logged_commit(fields: Seq<Text>, at: int) -> Result<RecordView, Text> {
    let parents = words_of(fields[at + 1]);
    if parents.len() != 1 {
        Err(
            "commit "@ + first_chars(fields[at], 12) + " has "@ + decimal(parents.len())
                + " parents; forkstack requires a linear stack"@,
        )
    } else {
        Ok(
            RecordView {
                rev: fields[at],
                parent: parents[0],
                subject: trim(fields[at + 2]),
                body: trim(fields[at + 3]),
                message: trim(fields[at + 4]),
            },
        )
    }
}

/// The first `n` commits that fields tell of.
pub open spec fn logged_commits(fields: Seq<Text>, n: nat) -> Result<Seq<RecordView>, Text>
    decreases n,
{
    if n == 0 {
        Ok(Seq::empty())
    } else {
        match logged_commits(fields, (n - 1) as nat) {
            Err(error) => Err(error),
            Ok(done) => match logged_commit(fields, 5 * (n - 1)) {
                Err(error) => Err(error),
                Ok(record) => Ok(done.push(record)),
            },
        }
    }
}

/// The commits of a stack that a log lists. They form a line.
pub open spec fn logged_stack(log: Text) -> Result<Seq<RecordView>, Text> {
    let fields = split_on(log, '\0');
    if fields.len() % 5 != 1 || fields.last().len() > 0 {
        Err("could not parse git log output"@)
    } else {
        match logged_commits(fields, (fields.len() / 5) as nat) {
            Err(error) => Err(error),
            Ok(records) => if is_linear(records) {
                Ok(records)
            } else {
                Err("forkstack requires a linear stack"@)
            },
        }
    }
}

/// The remote's identities under a prefix, from the names of its refs.
pub open spec fn listed_identities(names: Text, remote: Text, prefix: Text) -> Seq<Text> {
    identities_at(lines_of(names).map_values(|name: Text| Some(name)), remote, prefix)
}

/// The plan for commits, where there are numbers for all that are to be given identities.
pub open spec fn numbered_plan(
    options: OptionsView,
    fork: Text,
    records: Seq<RecordView>,
    remote: Seq<Text>,
) -> Result<PlanView, Text> {
    if numbers_fit(records, options.prefix, remote) {
        plan_of(options, fork, records, remote)
    } else {
        Err("the numbers of identities are used up"@)
    }
}

/// What planning does with the commits of a stack: the remote's identities are asked for
/// only where some commit is to be given one.
pub open spec fn planned_from_log(
    options: OptionsView,
    fork: Text,
    records: Seq<RecordView>,
    calls: Seq<Call>,
    r: Result<PlanView, Text>,
) -> bool {
    if remote_matters(records, options.prefix) {
        let prefix = options.prefix->0;
        &&& calls.len() == 1
        &&& calls[0] == git_call(
            options.repo,
            refs_args(options.remote, prefix),
            calls[0].reply,
        )
        &&& r == match calls[0].reply {
            Err(error) => Err(error),
            Ok(names) => numbered_plan(
                options,
                fork,
                records,
                listed_identities(names, options.remote, prefix),
            ),
        }
    } else {
        &&& calls.len() == 0
        &&& r == numbered_plan(options, fork, records, Seq::empty())
    }
}

/// What planning does once the fork is known: the commits are asked for.
pub open spec fn planned_in_fork(
    options: OptionsView,
    fork: Text,
    calls: Seq<Call>,
    r: Result<PlanView, Text>,
) -> bool {
    &&& calls.len() >= 1
    &&& calls[0] == git_call(options.repo, log_args(options), calls[0].reply)
    &&& match calls[0].reply {
        Err(error) => calls.len() == 1 && r == Err::<PlanView, Text>(error),
        Ok(log) => match logged_stack(log) {
            Err(error) => calls.len() == 1 && r == Err::<PlanView, Text>(error),
            Ok(records) => planned_from_log(options, fork, records, calls.skip(1), r),
        },
    }
}

/// What planning does: Git is asked for the address of the remote, for the commits and,
/// where some are to be given identities, for those that the remote has. However many
/// commits there are, it is asked no more often.
pub open spec fn planned_by_runs(
    options: OptionsView,
    calls: Seq<Call>,
    r: Result<PlanView, Text>,
) -> bool {
    &&& calls.len() >= 1
    &&& calls[0] == git_call(options.repo, url_args(options.remote), calls[0].reply)
    &&& match calls[0].reply {
        Err(error) => calls.len() == 1 && r == Err::<PlanView, Text>(error),
        Ok(url) => match fork_at(options.remote, Some(url)) {
            Err(error) => calls.len() == 1 && r == Err::<PlanView, Text>(error),
            Ok(fork) => planned_in_fork(options, fork, calls.skip(1), r),
        },
    }
}

/// The commit that five fields tell of.
fn read_commit(fields: &Vec<String>, at: usize) -> (r: Result<CommitRecord, String>)
    requires
        at + 4 < fields.len(),
    ensures
        record_result(r) == logged_commit(texts(fields@), at as int),
{
    let raw = RawCommit {
        id: fields[at].clone(),
        parents: words(fields[at + 1].as_str()),
        message: Vec::new(),
        summary: Some(fields[at + 2].clone()),
        body: Some(fields[at + 3].clone()),
    };
    assert(texts(raw.parents@).len() == raw.parents@.len());
    record_with_message(&raw, fields[at + 4].as_str())
}

/// Computes `logged_stack`.
pub fn parse_stack_log(log: &str) -> (r: Result<Vec<CommitRecord>, String>)
    ensures
        records_result(r) == logged_stack(log@),
{
    let fields = split(log, '\0');
    let ghost all = texts(fields@);
    assert(all.len() == fields@.len());
    if fields.len() % 5 != 1 || fields[fields.len() - 1].as_str().unicode_len() > 0 {
        return Err("could not parse git log output".to_owned());
    }
    let n = fields.len() / 5;
    let mut records: Vec<CommitRecord> = Vec::new();
    let mut i: usize = 0;
    assert(views(records@) =~= Seq::<RecordView>::empty());
    while i < n
        invariant
            i <= n,
            fields.len() == 5 * n + 1,
            all == texts(fields@),
            logged_commits(all, i as nat) == Ok::<Seq<RecordView>, Text>(views(records@)),
            logged_stack(log@) == match logged_commits(all, n as nat) {
                Err(error) => Err(error),
                Ok(records) => if is_linear(records) {
                    Ok(records)
                } else {
                    Err("forkstack requires a linear stack"@)
                },
            },
        decreases n - i,
    {
        match read_commit(&fields, 5 * i) {
            Err(error) => {
                proof {
                    lemma_stays_wrong(all, (i + 1) as nat, n as nat, error@);
                }
                return Err(error);
            },
            Ok(record) => {
                let ghost was = views(records@);
                records.push(record);
                assert(views(records@) =~= was.push(record@));
            },
        }
        i = i + 1;
    }
    match validate_linear_records(&records) {
        Err(error) => Err(error),
        Ok(()) => Ok(records),
    }
}

/// A commit that is wrong makes the list wrong, whatever follows.
proof fn lemma_stays_wrong(fields: Seq<Text>, i: nat, n: nat, error: Text)
    requires
        i <= n,
        logged_commits(fields, i) == Err::<Seq<RecordView>, Text>(error),
    ensures
        logged_commits(fields, n) == Err::<Seq<RecordView>, Text>(error),
    decreases n,
{
    if i < n {
        lemma_stays_wrong(fields, i, (n - 1) as nat, error);
    }
}

/// The remote's identities under a prefix, from the names of its refs.
fn read_identities(names: &str, remote: &str, prefix: &str) -> (r: Vec<String>)
    ensures
        texts(r@) == listed_identities(names@, remote@, prefix@),
{
    let found = lines(names);
    let ghost all = texts(found@);
    let mut known: Vec<Option<String>> = Vec::new();
    let mut i: usize = 0;
    while i < found.len()
        invariant
            i <= found.len(),
            all == texts(found@),
            known.len() == i,
            forall|j: int| 0 <= j < i ==> maybe(#[trigger] known@[j]) == Some(all[j]),
        decreases found.len() - i,
    {
        known.push(Some(found[i].clone()));
        i = i + 1;
    }
    assert(maybes(known@) =~= all.map_values(|name: Text| Some(name)));
    remote_identities(&known, remote, prefix)
}

/// Plans the publication of commits, where there are numbers left for their identities.
fn plan_numbered(
    options: SubmitOptions,
    fork: String,
    records: Vec<CommitRecord>,
    remote: &Vec<String>,
) -> (r: Result<SubmitPlan, String>)
    ensures
        plan_result(r) == numbered_plan(options@, fork@, views(records@), texts(remote@)),
{
    if can_number(&records, &options.prefix, remote) {
        plan(options, fork, records, remote)
    } else {
        Err("the numbers of identities are used up".to_owned())
    }
}

/// Plans the publication of commits.
fn plan_from_log<R: CommandRunner>(
    options: SubmitOptions,
    fork: String,
    records: Vec<CommitRecord>,
    runner: &mut Recorded<R>,
) -> (r: Result<SubmitPlan, String>)
    ensures
        old(runner).history().is_prefix_of(final(runner).history()),
        planned_from_log(
            options@,
            fork@,
            views(records@),
            final(runner).history().skip(old(runner).history().len() as int),
            plan_result(r),
        ),
{
    let ghost before = runner.history();
    let mut remote: Vec<String> = Vec::new();
    assert(texts(remote@) =~= Seq::<Text>::empty());
    assert(before.skip(before.len() as int) =~= Seq::<Call>::empty());
    if needs_remote_identities(&records, &options.prefix) {
        match &options.prefix {
            None => {},
            Some(prefix) => {
                let mut args: Vec<String> = Vec::new();
                args.push("for-each-ref".to_owned());
                args.push("--format=%(refname)".to_owned());
                args.push(remote_identity_root(options.remote.as_str(), prefix.as_str()));
                assert(texts(args@) =~= refs_args(options@.remote, prefix@));
                let answer = run_owned(runner, options.repo.as_str(), &args);
                assert(runner.history().skip(before.len() as int) =~= seq![
                    runner.history().last(),
                ]);
                match answer {
                    Err(error) => {
                        return Err(error);
                    },
                    Ok(names) => {
                        remote = read_identities(
                            names.as_str(),
                            options.remote.as_str(),
                            prefix.as_str(),
                        );
                    },
                }
            },
        }
    }
    plan_numbered(options, fork, records, &remote)
}

/// Plans the publication of the commits that Git lists.
fn plan_in_fork<R: CommandRunner>(
    options: SubmitOptions,
    fork: String,
    runner: &mut Recorded<R>,
) -> (r: Result<SubmitPlan, String>)
    ensures
        old(runner).history().is_prefix_of(final(runner).history()),
        planned_in_fork(
            options@,
            fork@,
            final(runner).history().skip(old(runner).history().len() as int),
            plan_result(r),
        ),
{
    let ghost before = runner.history();
    let mut args: Vec<String> = Vec::new();
    args.push("log".to_owned());
    args.push("-z".to_owned());
    args.push("--no-show-signature".to_owned());
    args.push("--topo-order".to_owned());
    args.push("--reverse".to_owned());
    args.push(LOG_FORMAT.to_owned());
    args.push(base_reference(&options).concat("..HEAD"));
    assert(texts(args@) =~= log_args(options@));
    let answer = run_owned(runner, options.repo.as_str(), &args);
    let ghost middle = runner.history();
    assert(middle.skip(before.len() as int) =~= seq![middle.last()]);
    let log = match answer {
        Err(error) => {
            return Err(error);
        },
        Ok(log) => log,
    };
    let records = match parse_stack_log(log.as_str()) {
        Err(error) => {
            return Err(error);
        },
        Ok(records) => records,
    };
    let r = plan_from_log(options, fork, records, runner);
    proof {
        lemma_history(before, middle, runner.history());
    }
    r
}

/// Runs that come behind one run.
proof fn lemma_history(before: Seq<Call>, middle: Seq<Call>, after: Seq<Call>)
    requires
        before.is_prefix_of(middle),
        middle.len() == before.len() + 1,
        middle.is_prefix_of(after),
    ensures
        before.is_prefix_of(after),
        after.skip(before.len() as int).len() >= 1,
        after.skip(before.len() as int)[0] == middle.last(),
        after.skip(before.len() as int).skip(1) == after.skip(middle.len() as int),
{
    assert(after.subrange(0, middle.len() as int) =~= middle);
    assert(middle.subrange(0, before.len() as int) =~= before);
    assert(after.subrange(0, before.len() as int) =~= before);
    assert(after[before.len() as int] == middle.last());
    assert(after.skip(before.len() as int).skip(1) =~= after.skip(middle.len() as int));
}

/// Plans the publication of what is checked out, from what Git says of it.
pub fn plan_with_runner<R: CommandRunner>(
    options: SubmitOptions,
    runner: &mut Recorded<R>,
) -> (r: Result<SubmitPlan, String>)
    ensures
        old(runner).history().is_prefix_of(final(runner).history()),
        planned_by_runs(
            options@,
            final(runner).history().skip(old(runner).history().len() as int),
            plan_result(r),
        ),
{
    let ghost before = runner.history();
    let mut args: Vec<String> = Vec::new();
    args.push("remote".to_owned());
    args.push("get-url".to_owned());
    args.push(options.remote.clone());
    assert(texts(args@) =~= url_args(options@.remote));
    let answer = run_owned(runner, options.repo.as_str(), &args);
    let ghost middle = runner.history();
    assert(middle.skip(before.len() as int) =~= seq![middle.last()]);
    let url = match answer {
        Err(error) => {
            return Err(error);
        },
        Ok(url) => url,
    };
    let fork = match fork_of(options.remote.as_str(), &Some(url)) {
        Err(error) => {
            return Err(error);
        },
        Ok(fork) => fork,
    };
    let r = plan_in_fork(options, fork, runner);
    proof {
        lemma_history(before, middle, runner.history());
    }
    r
}

/// Planning runs Git twice where every commit has its identity, and never more than three
/// times, however many commits there are.
pub proof fn law_planning_runs_git_few_times(
    options: OptionsView,
    calls: Seq<Call>,
    r: Result<PlanView, Text>,
)
    requires
        planned_by_runs(options, calls, r),
    ensures
        1 <= calls.len() <= 3,
        r is Ok ==> calls.len() >= 2,
        r matches Ok(plan) ==> calls.len() == if exists|i: int|
            0 <= i < plan.commits.len() && (#[trigger] plan.commits[i]).identity_added {
            3nat
        } else {
            2
        },
{
    if r is Ok {
        let plan = r->Ok_0;
        let log = calls[1].reply->Ok_0;
        let records = logged_stack(log)->Ok_0;
        assert(calls.skip(1)[0] == calls[1]);
        let remote = if remote_matters(records, options.prefix) {
            listed_identities(calls[2].reply->Ok_0, options.remote, options.prefix->0)
        } else {
            Seq::empty()
        };
        assert(remote_matters(records, options.prefix) ==> calls.skip(1).skip(1)[0] == calls[2]);
        crate::stack::assign::lemma_added(records, options.prefix, remote, plan.commits);
    }
}

/// Planning a stack whose commits all have valid and different identities succeeds, whatever
/// the prefix: no commit is given an identity, and Git is run twice.
pub proof fn law_tagged_stacks_are_planned(
    options: OptionsView,
    calls: Seq<Call>,
    r: Result<PlanView, Text>,
    fork: Text,
    records: Seq<RecordView>,
)
    requires
        planned_by_runs(options, calls, r),
        calls[0].reply is Ok,
        fork_at(options.remote, Some(calls[0].reply->Ok_0)) == Ok::<Text, Text>(fork),
        calls[1].reply is Ok,
        logged_stack(calls[1].reply->Ok_0) == Ok::<Seq<RecordView>, Text>(records),
        records.len() > 0,
        forall|i: int|
            0 <= i < records.len() ==> {
                &&& identity((#[trigger] records[i]).message) matches Ok(Some(branch))
                &&& is_branch_name(branch)
            },
        forall|i: int, j: int|
            0 <= i < j < records.len() ==> identity((#[trigger] records[i]).message) != identity(
                (#[trigger] records[j]).message,
            ),
    ensures
        calls.len() == 2,
        calls[0].args == url_args(options.remote),
        calls[1].args == log_args(options),
        r is Ok,
        r->Ok_0.commits.len() == records.len(),
        forall|i: int|
            0 <= i < records.len() ==> !(#[trigger] r->Ok_0.commits[i]).identity_added
                && identity(records[i].message) == Ok::<Option<Text>, Text>(
                Some(r->Ok_0.commits[i].branch),
            ),
{
    assert(calls.skip(1)[0] == calls[1]);
    let all = messages(records);
    assert forall|i: int| 0 <= i < all.len() implies {
        &&& identity(#[trigger] all[i]) matches Ok(Some(branch))
        &&& is_branch_name(branch)
    } by {
        assert(all[i] == records[i].message);
    }
    assert forall|i: int, j: int| 0 <= i < j < all.len() implies identity(#[trigger] all[i])
        != identity(#[trigger] all[j]) by {
        assert(all[i] == records[i].message && all[j] == records[j].message);
    }
    lemma_all_tagged(all);
    let done = claims(all)->Ok_0;
    if done.contains(None) {
        let i = done.index_of(None);
        assert(identity(all[i]) == Ok::<Option<Text>, Text>(done[i]));
    }
    assert forall|i: int| 0 <= i < records.len() implies identity(
        (#[trigger] records[i]).message,
    ) == Ok::<Option<Text>, Text>(done[i]) by {
        assert(identity(all[i]) == Ok::<Option<Text>, Text>(done[i]));
    }
    assert(is_linear(records));
}

/// Messages that all give valid and different identities claim just those.
proof fn lemma_all_tagged(all: Seq<Text>)
    requires
        forall|i: int|
            0 <= i < all.len() ==> {
                &&& identity(#[trigger] all[i]) matches Ok(Some(branch))
                &&& is_branch_name(branch)
            },
        forall|i: int, j: int|
            0 <= i < j < all.len() ==> identity(#[trigger] all[i]) != identity(#[trigger] all[j]),
    ensures
        claims(all) is Ok,
        claims(all)->Ok_0.len() == all.len(),
        forall|i: int|
            0 <= i < all.len() ==> identity(#[trigger] all[i]) == Ok::<Option<Text>, Text>(
                claims(all)->Ok_0[i],
            ),
    decreases all.len(),
{
    if all.len() > 0 {
        let init = all.drop_last();
        assert forall|i: int| 0 <= i < init.len() implies {
            &&& identity(#[trigger] init[i]) matches Ok(Some(branch))
            &&& is_branch_name(branch)
        } by {
            assert(init[i] == all[i]);
        }
        assert forall|i: int, j: int| 0 <= i < j < init.len() implies identity(#[trigger] init[i])
            != identity(#[trigger] init[j]) by {
            assert(init[i] == all[i] && init[j] == all[j]);
        }
        lemma_all_tagged(init);
        let done = claims(init)->Ok_0;
        let n = all.len() - 1;
        assert(all[n] == all.last());
        let branch = identity(all[n])->Ok_0->0;
        if done.contains(Some(branch)) {
            let i = done.index_of(Some(branch));
            assert(identity(init[i]) == Ok::<Option<Text>, Text>(done[i]));
            assert(all[i] == init[i]);
        }
        assert forall|i: int| 0 <= i < all.len() implies identity(#[trigger] all[i]) == Ok::<
            Option<Text>,
            Text,
        >(claims(all)->Ok_0[i]) by {
            if i < n {
                assert(identity(init[i]) == Ok::<Option<Text>, Text>(done[i]));
            }
        }
    }
}

} // verus!
