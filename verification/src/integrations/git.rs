//! Fetching from and pushing to a remote.

use crate::dict::Dict;
use crate::integrations::runner::{reply, Call, CommandRunner, Recorded};
use crate::order::{lemma_listed_members, list, listed, views};
use crate::split::{lines, lines_of, words, words_of};
use crate::text::{same, starts_with, strip_prefix, texts, Text};
use vstd::prelude::*;

verus! {

/// A run of Git without input.
pub open spec fn git_call(repo: Text, args: Seq<Text>, reply: Result<Text, Text>) -> Call {
    Call { program: "git"@, args, repo, input: None, env: Seq::empty(), reply }
}

/// Runs Git.
pub fn run<R: CommandRunner>(runner: &mut Recorded<R>, repo: &str, args: &Vec<&str>) -> (r: Result<
    String,
    String,
>)
    ensures
        final(runner).history() == old(runner).history().push(
            git_call(repo@, args@.map_values(|arg: &str| arg@), reply(r)),
        ),
{
    let mut owned: Vec<String> = Vec::new();
    let mut i: usize = 0;
    while i < args.len()
        invariant
            i <= args.len(),
            owned.len() == i,
            forall|j: int| 0 <= j < i ==> (#[trigger] owned@[j])@ == args@[j]@,
        decreases args.len() - i,
    {
        owned.push(args[i].to_owned());
        i = i + 1;
    }
    assert(texts(owned@) =~= args@.map_values(|arg: &str| arg@));
    run_owned(runner, repo, &owned)
}

/// Runs Git.
pub fn run_owned<R: CommandRunner>(runner: &mut Recorded<R>, repo: &str, args: &Vec<String>) -> (r: Result<
    String,
    String,
>)
    ensures
        final(runner).history() == old(runner).history().push(
            git_call(repo@, texts(args@), reply(r)),
        ),
{
    let env: Vec<(String, String)> = Vec::new();
    assert(views(env@) =~= Seq::<(Text, Text)>::empty());
    runner.run("git", args, repo, &None, &env)
}

/// The refs of a push: each branch at a commit.
pub open spec fn push_specs(updates: Seq<(Text, Text)>) -> Seq<Text> {
    updates.map_values(|update: (Text, Text)| update.1 + ":refs/heads/"@ + update.0)
}

/// The arguments of a push.
pub open spec fn push_args(remote: Text, updates: Seq<(Text, Text)>) -> Seq<Text> {
    seq!["push"@, "--atomic"@, "--force-with-lease"@, remote] + push_specs(updates)
}

/// Makes branches of the remote point at commits, all of them or none. `updates`
/// are the branches, each with its commit.
pub fn push_atomic<R: CommandRunner>(
    runner: &mut Recorded<R>,
    repo: &str,
    remote: &str,
    updates: &Vec<(String, String)>,
) -> (r: Result<(), String>)
    ensures
        ({
            let answer = final(runner).history().last().reply;
            &&& final(runner).history() == old(runner).history().push(
                git_call(repo@, push_args(remote@, views(updates@)), answer),
            )
            &&& match r {
                Ok(()) => answer is Ok,
                Err(error) => answer == Err::<Text, Text>(error@),
            }
        }),
{
    let ghost specs = push_specs(views(updates@));
    let ghost start = seq!["push"@, "--atomic"@, "--force-with-lease"@, remote@];
    let mut args: Vec<String> = Vec::new();
    args.push("push".to_owned());
    args.push("--atomic".to_owned());
    args.push("--force-with-lease".to_owned());
    args.push(remote.to_owned());
    assert(texts(args@) =~= start + specs.take(0));
    let mut i: usize = 0;
    while i < updates.len()
        invariant
            i <= updates.len(),
            specs == push_specs(views(updates@)),
            texts(args@) == start + specs.take(i as int),
        decreases updates.len() - i,
    {
        let (branch, rev) = &updates[i];
        let ghost was = texts(args@);
        let spec_text = rev.clone().concat(":refs/heads/").concat(branch.as_str());
        assert(specs[i as int] == spec_text@);
        args.push(spec_text);
        assert(texts(args@) =~= was.push(specs[i as int]));
        assert(texts(args@) =~= start + specs.take(i + 1));
        i = i + 1;
    }
    assert(specs.take(specs.len() as int) =~= specs);
    match run_owned(runner, repo, &args) {
        Ok(_) => Ok(()),
        Err(error) => Err(error),
    }
}

/// The refs of a remote's branches there.
pub open spec fn source_root() -> Text {
    "refs/heads/"@
}

/// The refs of a remote's branches here.
pub open spec fn tracking_root(remote: Text) -> Text {
    "refs/remotes/"@ + remote + "/"@
}

/// What the remote says of its branches: the commit that each points at.
pub open spec fn advertised_in(lines: Seq<Text>) -> Map<Text, Text>
    decreases lines.len(),
{
    if lines.len() == 0 {
        Map::empty()
    } else {
        let before = advertised_in(lines.drop_last());
        let fields = words_of(lines.last());
        if fields.len() >= 2 {
            before.insert(fields[1], fields[0])
        } else {
            before
        }
    }
}

/// What the remote says of its branches.
pub open spec fn advertised(listing: Text) -> Map<Text, Text> {
    advertised_in(lines_of(listing))
}

/// What is asked of a remote: branches, and all branches under prefixes.
#[verifier::ext_equal]
pub struct ScopeView {
    pub remote: Text,
    pub branches: Set<Text>,
    pub prefixes: Set<Text>,
}

/// Whether a branch is asked for.
pub open spec fn asked(scope: ScopeView, branch: Text) -> bool {
    scope.branches.contains(branch) || under_prefix(scope.prefixes, branch)
}

/// Whether a branch is under one of the prefixes.
pub open spec fn under_prefix(prefixes: Set<Text>, branch: Text) -> bool {
    exists|prefix: Text| #[trigger]
        prefixes.contains(prefix) && (prefix + "/"@).is_prefix_of(branch)
}

/// The refs here of the branches that are asked for and that are not where the
/// remote has them.
pub open spec fn stale(scope: ScopeView, remote_refs: Map<Text, Text>, local: Map<Text, Text>) -> Set<
    Text,
> {
    Set::new(
        |name: Text|
            exists|branch: Text|
                {
                    &&& name == #[trigger] (tracking_root(scope.remote) + branch)
                    &&& asked(scope, branch)
                    &&& remote_refs.contains_key(source_root() + branch)
                    &&& !(local.contains_key(name) && local[name] == remote_refs[source_root()
                        + branch])
                },
    )
}

/// The refs here of the branches that are asked for and that the remote does not
/// have: those asked for by name, and those under a prefix that exist here.
pub open spec fn missing(scope: ScopeView, remote_refs: Map<Text, Text>, local: Map<Text, Text>) -> Set<
    Text,
> {
    Set::new(
        |name: Text|
            exists|branch: Text|
                {
                    &&& name == #[trigger] (tracking_root(scope.remote) + branch)
                    &&& !remote_refs.contains_key(source_root() + branch)
                    &&& scope.branches.contains(branch) || local.contains_key(name)
                        && under_prefix(scope.prefixes, branch)
                },
    )
}

/// How a ref here is fetched.
pub open spec fn refspec(remote: Text, name: Text) -> Text {
    "+"@ + source_root() + name.skip(tracking_root(remote).len() as int) + ":"@ + name
}

/// The arguments that ask a remote for what it has of a scope.
pub open spec fn listing_args(scope: ScopeView) -> Seq<Text> {
    seq!["ls-remote"@, "--refs"@, "--heads"@, "--end-of-options"@, scope.remote] + listed(
        scope.branches,
    ).map_values(|branch: Text| source_root() + branch) + listed(scope.prefixes).map_values(
        |prefix: Text| source_root() + prefix + "/*"@,
    )
}

/// The refspecs of stale refs.
pub open spec fn refspecs(remote: Text, names: Set<Text>) -> Seq<Text> {
    listed(names).map_values(|name: Text| refspec(remote, name))
}

/// The arguments that fetch refs.
pub open spec fn fetch_args(remote: Text, specs: Seq<Text>) -> Seq<Text> {
    seq!["fetch"@, "--no-tags"@, "--no-write-fetch-head"@, "--end-of-options"@, remote] + specs
}

/// The refs here of some of a remote's branches, and the patterns of those of all its
/// branches under prefixes.
pub open spec fn ref_scope(remote: Text, branches: Seq<Text>, prefixes: Seq<Text>) -> (
    Seq<Text>,
    Seq<Text>,
) {
    (
        listed(branches.to_set()).map_values(|branch: Text| tracking_root(remote) + branch),
        listed(prefixes.to_set()).map_values(
            |prefix: Text| tracking_root(remote) + prefix + "/*"@,
        ),
    )
}

/// The refs here that are asked for: those of branches, and patterns for those
/// under prefixes.
pub fn local_ref_scope(remote: &str, branches: &Vec<String>, prefixes: &Vec<String>) -> (r: (
    Vec<String>,
    Vec<String>,
))
    ensures
        (texts(r.0@), texts(r.1@)) == ref_scope(remote@, texts(branches@), texts(prefixes@)),
{
    let root = "refs/remotes/".to_owned().concat(remote).concat("/");
    let names = list(branches);
    let starts = list(prefixes);
    let mut exact: Vec<String> = Vec::new();
    let mut i: usize = 0;
    while i < names.len()
        invariant
            i <= names.len(),
            root@ == tracking_root(remote@),
            exact.len() == i,
            forall|j: int| 0 <= j < i ==> (#[trigger] exact@[j])@ == root@ + names@[j]@,
        decreases names.len() - i,
    {
        exact.push(root.clone().concat(names[i].as_str()));
        i = i + 1;
    }
    let mut patterns: Vec<String> = Vec::new();
    let mut i: usize = 0;
    while i < starts.len()
        invariant
            i <= starts.len(),
            root@ == tracking_root(remote@),
            patterns.len() == i,
            forall|j: int| 0 <= j < i ==> (#[trigger] patterns@[j])@ == root@ + starts@[j]@ + "/*"@,
        decreases starts.len() - i,
    {
        patterns.push(root.clone().concat(starts[i].as_str()).concat("/*"));
        i = i + 1;
    }
    proof {
        assert(texts(exact@) =~= texts(names@).map_values(
            |branch: Text| tracking_root(remote@) + branch,
        ));
        assert(texts(patterns@) =~= texts(starts@).map_values(
            |prefix: Text| tracking_root(remote@) + prefix + "/*"@,
        ));
    }
    (exact, patterns)
}

/// Reads what the remote says of its branches.
fn read_listing(listing: &str) -> (r: Dict<String>)
    ensures
        r@ == advertised(listing@),
{
    let all = lines(listing);
    let ghost ls = lines_of(listing@);
    let mut r: Dict<String> = Dict::new();
    let mut i: usize = 0;
    assert(ls.take(0) =~= Seq::<Text>::empty());
    assert(r@ =~= Map::<Text, Text>::empty());
    while i < all.len()
        invariant
            i <= all.len(),
            texts(all@) == ls,
            r@ == advertised_in(ls.take(i as int)),
        decreases all.len() - i,
    {
        assert(ls.take(i + 1).drop_last() =~= ls.take(i as int));
        assert(ls[i as int] == all@[i as int]@);
        let fields = words(all[i].as_str());
        if fields.len() >= 2 {
            let ghost was = r@;
            assert(texts(fields@)[0] == fields@[0]@);
            assert(texts(fields@)[1] == fields@[1]@);
            r.insert(fields[1].clone(), fields[0].clone());
            assert(r@ =~= was.insert(fields@[1]@, fields@[0]@));
        }
        i = i + 1;
    }
    assert(ls.take(ls.len() as int) =~= ls);
    r
}

/// Whether a branch is under one of the prefixes.
fn is_under(prefixes: &Vec<String>, branch: &str) -> (r: bool)
    ensures
        r == under_prefix(texts(prefixes@).to_set(), branch@),
{
    let mut i: usize = 0;
    while i < prefixes.len()
        invariant
            i <= prefixes.len(),
            forall|j: int|
                0 <= j < i ==> !((#[trigger] prefixes@[j])@ + "/"@).is_prefix_of(branch@),
        decreases prefixes.len() - i,
    {
        let start = prefixes[i].clone().concat("/");
        if starts_with(branch, start.as_str()) {
            proof {
                let prefix = prefixes@[i as int]@;
                assert(texts(prefixes@)[i as int] == prefix);
                assert(texts(prefixes@).to_set().contains(prefix));
            }
            return true;
        }
        i = i + 1;
    }
    proof {
        assert forall|prefix: Text| #[trigger] texts(prefixes@).to_set().contains(
            prefix,
        ) implies !(prefix + "/"@).is_prefix_of(branch@) by {
            let j = texts(prefixes@).index_of(prefix);
            assert(prefixes@[j]@ == prefix);
        }
    }
    false
}

/// A ref under a root is the root and the rest.
proof fn lemma_under_root(root: Text, rest: Text, whole: Text)
    ensures
        crate::text::without_prefix(root + rest, root) == Some(rest),
        crate::text::without_prefix(whole, root) matches Some(tail) ==> whole == root + tail,
{
    assert((root + rest).subrange(0, root.len() as int) =~= root);
    assert((root + rest).skip(root.len() as int) =~= rest);
    if root.is_prefix_of(whole) {
        assert(whole =~= root + whole.skip(root.len() as int));
    }
}

/// What is to be fetched and what is gone.
pub struct FetchPlan {
    pub refspecs: Vec<String>,
    pub missing: Vec<String>,
}

/// The scope of a fetch.
pub open spec fn scope_of(remote: Text, branches: Seq<Text>, prefixes: Seq<Text>) -> ScopeView {
    ScopeView { remote, branches: branches.to_set(), prefixes: prefixes.to_set() }
}

/// The refs here that are not where the remote has them.
fn stale_refs(
    remote: &str,
    branches: &Vec<String>,
    prefixes: &Vec<String>,
    there: &Dict<String>,
    local: &Dict<String>,
) -> (r: Vec<String>)
    ensures
        texts(r@).to_set() == stale(
            scope_of(remote@, texts(branches@), texts(prefixes@)),
            there@,
            local@,
        ),
{
    let ghost scope = scope_of(remote@, texts(branches@), texts(prefixes@));
    let ghost wanted = stale(scope, there@, local@);
    let root = "refs/remotes/".to_owned().concat(remote).concat("/");
    let ghost names = there.names();
    let n = there.len();
    let mut r: Vec<String> = Vec::new();
    let mut i: usize = 0;
    while i < n
        invariant
            i <= n,
            n == names.len(),
            names == there.names(),
            forall|k: Text| #[trigger] there.raw().contains_key(k) <==> names.contains(k),
            scope == scope_of(remote@, texts(branches@), texts(prefixes@)),
            wanted == stale(scope, there@, local@),
            root@ == tracking_root(remote@),
            forall|x: Text| #[trigger] texts(r@).contains(x) ==> wanted.contains(x),
            forall|j: int, branch: Text|
                #![trigger names[j], source_root() + branch]
                0 <= j < i && names[j] == source_root() + branch && wanted.contains(
                    tracking_root(remote@) + branch,
                ) ==> texts(r@).contains(tracking_root(remote@) + branch),
        decreases n - i,
    {
        let source = there.key(i);
        let oid = there.value(i);
        let ghost was = texts(r@);
        match strip_prefix(source.as_str(), "refs/heads/") {
            None => {
                proof {
                    assert forall|branch: Text| #[trigger] (source_root() + branch)
                        != names[i as int] by {
                        lemma_under_root(source_root(), branch, names[i as int]);
                    }
                }
            },
            Some(branch) => {
                proof {
                    lemma_under_root(source_root(), branch@, source@);
                    assert(there@.contains_key(source_root() + branch@));
                }
                let name = root.clone().concat(branch.as_str());
                let current = match local.get(name.as_str()) {
                    Some(id) => same(id.as_str(), oid.as_str()),
                    None => false,
                };
                let fresh = !current && (crate::order::contains(branches, branch.as_str())
                    || is_under(prefixes, branch.as_str()));
                proof {
                    assert(scope.branches.contains(branch@) == texts(branches@).contains(branch@));
                    assert(name@ == tracking_root(scope.remote) + branch@);
                    assert(fresh ==> wanted.contains(name@));
                    assert forall|other: Text|
                        name@ == #[trigger] (tracking_root(scope.remote) + other) implies other
                        == branch@ by {
                        lemma_under_root(tracking_root(scope.remote), other, name@);
                        lemma_under_root(tracking_root(scope.remote), branch@, name@);
                    }
                    assert(wanted.contains(name@) ==> fresh);
                    assert forall|other: Text| #[trigger] (source_root() + other)
                        == names[i as int] implies other == branch@ by {
                        lemma_under_root(source_root(), other, source@);
                    }
                }
                if fresh {
                    r.push(name);
                    proof {
                        assert(texts(r@) =~= was.push(name@));
                        assert forall|x: Text|
                            #![trigger texts(r@).contains(x)]
                            #![trigger was.contains(x)]
                            texts(r@).contains(x) == (was.contains(x) || x == name@) by {
                            vstd::seq_lib::lemma_seq_contains_after_push(was, name@, x);
                        }
                    }
                }
            },
        }
        i = i + 1;
    }
    proof {
        let s = texts(r@).to_set();
        assert forall|name: Text| wanted.contains(name) implies s.contains(name) by {
            let branch = choose|branch: Text|
                {
                    &&& name == #[trigger] (tracking_root(scope.remote) + branch)
                    &&& asked(scope, branch)
                    &&& there@.contains_key(source_root() + branch)
                    &&& !(local@.contains_key(name) && local@[name] == there@[source_root()
                        + branch])
                };
            assert(there.raw().contains_key(source_root() + branch));
            let j = names.index_of(source_root() + branch);
            assert(names[j] == source_root() + branch);
            assert(texts(r@).contains(name));
        }
        assert(s =~= wanted);
    }
    r
}

/// The refs here of branches that the remote does not have.
fn missing_refs(
    remote: &str,
    branches: &Vec<String>,
    prefixes: &Vec<String>,
    there: &Dict<String>,
    local: &Dict<String>,
) -> (r: Vec<String>)
    ensures
        texts(r@).to_set() == missing(
            scope_of(remote@, texts(branches@), texts(prefixes@)),
            there@,
            local@,
        ),
{
    let ghost scope = scope_of(remote@, texts(branches@), texts(prefixes@));
    let ghost wanted = missing(scope, there@, local@);
    let root = "refs/remotes/".to_owned().concat(remote).concat("/");
    let mut r: Vec<String> = Vec::new();
    let mut i: usize = 0;
    while i < branches.len()
        invariant
            i <= branches.len(),
            scope == scope_of(remote@, texts(branches@), texts(prefixes@)),
            wanted == missing(scope, there@, local@),
            root@ == tracking_root(remote@),
            forall|x: Text| #[trigger] texts(r@).contains(x) ==> wanted.contains(x),
            forall|j: int|
                0 <= j < i && !there@.contains_key(source_root() + (#[trigger] branches@[j])@)
                    ==> texts(r@).contains(root@ + branches@[j]@),
        decreases branches.len() - i,
    {
        let source = "refs/heads/".to_owned().concat(branches[i].as_str());
        let ghost was = texts(r@);
        if !there.contains_key(source.as_str()) {
            let name = root.clone().concat(branches[i].as_str());
            proof {
                let branch = branches@[i as int]@;
                assert(texts(branches@)[i as int] == branch);
                assert(scope.branches.contains(branch));
                assert(name@ == tracking_root(scope.remote) + branch);
                assert(wanted.contains(name@));
            }
            r.push(name);
            proof {
                assert(texts(r@) =~= was.push(name@));
                assert forall|x: Text|
                    #![trigger texts(r@).contains(x)]
                    #![trigger was.contains(x)]
                    texts(r@).contains(x) == (was.contains(x) || x == name@) by {
                    vstd::seq_lib::lemma_seq_contains_after_push(was, name@, x);
                }
            }
        }
        i = i + 1;
    }
    let ghost names = local.names();
    let n = local.len();
    let mut i: usize = 0;
    while i < n
        invariant
            i <= n,
            n == names.len(),
            names == local.names(),
            forall|k: Text| #[trigger] local.raw().contains_key(k) <==> names.contains(k),
            scope == scope_of(remote@, texts(branches@), texts(prefixes@)),
            wanted == missing(scope, there@, local@),
            root@ == tracking_root(remote@),
            forall|x: Text| #[trigger] texts(r@).contains(x) ==> wanted.contains(x),
            forall|j: int|
                0 <= j < branches.len() && !there@.contains_key(
                    source_root() + (#[trigger] branches@[j])@,
                ) ==> texts(r@).contains(root@ + branches@[j]@),
            forall|j: int, branch: Text|
                #![trigger names[j], tracking_root(remote@) + branch]
                0 <= j < i && names[j] == tracking_root(remote@) + branch && under_prefix(
                    scope.prefixes,
                    branch,
                ) && !there@.contains_key(source_root() + branch) ==> texts(r@).contains(names[j]),
        decreases n - i,
    {
        let name = local.key(i);
        let ghost was = texts(r@);
        match strip_prefix(name.as_str(), root.as_str()) {
            None => {
                proof {
                    assert forall|branch: Text| #[trigger] (tracking_root(remote@) + branch)
                        != names[i as int] by {
                        lemma_under_root(tracking_root(remote@), branch, names[i as int]);
                    }
                }
            },
            Some(branch) => {
                let source = "refs/heads/".to_owned().concat(branch.as_str());
                proof {
                    lemma_under_root(tracking_root(remote@), branch@, name@);
                    assert(local@.contains_key(name@));
                    assert forall|other: Text| #[trigger] (tracking_root(remote@) + other)
                        == names[i as int] implies other == branch@ by {
                        lemma_under_root(tracking_root(remote@), other, name@);
                    }
                }
                if is_under(prefixes, branch.as_str()) && !there.contains_key(source.as_str()) {
                    proof {
                        assert(under_prefix(scope.prefixes, branch@));
                        assert(name@ == tracking_root(scope.remote) + branch@);
                        assert(wanted.contains(name@));
                    }
                    r.push(name.clone());
                    proof {
                        assert(texts(r@) =~= was.push(name@));
                        assert forall|x: Text|
                            #![trigger texts(r@).contains(x)]
                            #![trigger was.contains(x)]
                            texts(r@).contains(x) == (was.contains(x) || x == name@) by {
                            vstd::seq_lib::lemma_seq_contains_after_push(was, name@, x);
                        }
                    }
                }
            },
        }
        i = i + 1;
    }
    proof {
        let s = texts(r@).to_set();
        assert forall|name: Text| wanted.contains(name) implies s.contains(name) by {
            let branch = choose|branch: Text|
                {
                    &&& name == #[trigger] (tracking_root(scope.remote) + branch)
                    &&& !there@.contains_key(source_root() + branch)
                    &&& scope.branches.contains(branch) || local@.contains_key(name)
                        && under_prefix(scope.prefixes, branch)
                };
            if scope.branches.contains(branch) {
                let j = texts(branches@).index_of(branch);
                assert(branches@[j]@ == branch);
                assert(texts(r@).contains(root@ + branches@[j]@));
            } else {
                assert(local.raw().contains_key(name));
                let j = names.index_of(name);
                assert(names[j] == name);
                assert(texts(r@).contains(names[j]));
            }
        }
        assert(s =~= wanted);
    }
    r
}

/// What is to be fetched and what is gone, given what the remote says of its
/// branches and where the refs here point.
pub fn plan_fetch(
    remote: &str,
    branches: &Vec<String>,
    prefixes: &Vec<String>,
    listing: &str,
    local: &Dict<String>,
) -> (r: FetchPlan)
    ensures
        texts(r.refspecs@) == refspecs(
            remote@,
            stale(
                scope_of(remote@, texts(branches@), texts(prefixes@)),
                advertised(listing@),
                local@,
            ),
        ),
        texts(r.missing@) == listed(
            missing(
                scope_of(remote@, texts(branches@), texts(prefixes@)),
                advertised(listing@),
                local@,
            ),
        ),
{
    let there = read_listing(listing);
    let names = list(&stale_refs(remote, branches, prefixes, &there, local));
    let gone = list(&missing_refs(remote, branches, prefixes, &there, local));
    let ghost all = texts(names@);
    let ghost f = |name: Text| refspec(remote@, name);
    let skipped: usize = crate::text::chars_of(
        "refs/remotes/".to_owned().concat(remote).concat("/").as_str(),
    ).len();
    let mut specs: Vec<String> = Vec::new();
    let mut i: usize = 0;
    proof {
        let s = stale(
            scope_of(remote@, texts(branches@), texts(prefixes@)),
            there@,
            local@,
        );
        lemma_listed_members(s);
        assert forall|j: int| 0 <= j < all.len() implies (#[trigger] all[j]).len() >= skipped by {
            assert(all.contains(all[j]));
            assert(s.contains(all[j]));
        }
    }
    while i < names.len()
        invariant
            i <= names.len(),
            all == texts(names@),
            f == (|name: Text| refspec(remote@, name)),
            skipped == tracking_root(remote@).len(),
            specs.len() == i,
            forall|j: int| 0 <= j < all.len() ==> (#[trigger] all[j]).len() >= skipped,
            forall|j: int| 0 <= j < i ==> (#[trigger] specs@[j])@ == f(all[j]),
        decreases names.len() - i,
    {
        assert(all[i as int] == names@[i as int]@);
        let v = crate::text::chars_of(names[i].as_str());
        let branch = crate::text::string_of(&v, skipped, v.len());
        assert(branch@ =~= all[i as int].skip(skipped as int));
        specs.push(
            "+".to_owned().concat("refs/heads/").concat(branch.as_str()).concat(":").concat(
                names[i].as_str(),
            ),
        );
        i = i + 1;
    }
    assert(texts(specs@) =~= all.map_values(f));
    FetchPlan { refspecs: specs, missing: gone }
}

/// What fetching does: nothing where nothing is asked for; else the remote is asked
/// what it has, what is stale is fetched, if anything is, and what is gone is
/// reported. What fails ends it.
pub open spec fn fetched(
    scope: ScopeView,
    repo: Text,
    local: Result<Map<Text, Text>, Text>,
    before: Seq<Call>,
    after: Seq<Call>,
    r: Result<Seq<Text>, Text>,
) -> bool {
    if scope.branches.is_empty() && scope.prefixes.is_empty() {
        after == before && r == Ok::<Seq<Text>, Text>(Seq::empty())
    } else {
        let listing = after[before.len() as int].reply;
        let once = before.push(git_call(repo, listing_args(scope), listing));
        match (listing, local) {
            (Err(error), _) => after == once && r == Err::<Seq<Text>, Text>(error),
            (Ok(_), Err(error)) => after == once && r == Err::<Seq<Text>, Text>(error),
            (Ok(listing), Ok(local)) => {
                let there = advertised(listing);
                let specs = refspecs(scope.remote, stale(scope, there, local));
                let gone = listed(missing(scope, there, local));
                if specs.len() == 0 {
                    after == once && r == Ok::<Seq<Text>, Text>(gone)
                } else {
                    let answer = after[before.len() as int + 1].reply;
                    &&& after == once.push(git_call(repo, fetch_args(scope.remote, specs), answer))
                    &&& r == match answer {
                        Ok(_) => Ok::<Seq<Text>, Text>(gone),
                        Err(error) => Err(error),
                    }
                }
            },
        }
    }
}

/// The names of a result.
pub open spec fn names_result(r: Result<Vec<String>, String>) -> Result<Seq<Text>, Text> {
    match r {
        Ok(v) => Ok(texts(v@)),
        Err(error) => Err(error@),
    }
}

/// Where the refs here point, or why that could not be read.
pub open spec fn local_result(r: Result<Dict<String>, String>) -> Result<Map<Text, Text>, Text> {
    match r {
        Ok(refs) => Ok(refs@),
        Err(error) => Err(error@),
    }
}

/// Brings the refs here of some of a remote's branches to where the remote has them,
/// and gives the refs of those that the remote does not have. `local` is where the
/// refs of `local_ref_scope` point.
pub fn fetch_remote_branches<R: CommandRunner>(
    runner: &mut Recorded<R>,
    local: &Result<Dict<String>, String>,
    repo: &str,
    remote: &str,
    branches: &Vec<String>,
    prefixes: &Vec<String>,
) -> (r: Result<Vec<String>, String>)
    ensures
        fetched(
            scope_of(remote@, texts(branches@), texts(prefixes@)),
            repo@,
            local_result(*local),
            old(runner).history(),
            final(runner).history(),
            names_result(r),
        ),
{
    let ghost scope = scope_of(remote@, texts(branches@), texts(prefixes@));
    if branches.len() == 0 && prefixes.len() == 0 {
        let none: Vec<String> = Vec::new();
        proof {
            assert(scope.branches =~= Set::empty());
            assert(scope.prefixes =~= Set::empty());
            assert(texts(none@) =~= Seq::<Text>::empty());
        }
        return Ok(none);
    }
    proof {
        if branches.len() > 0 {
            assert(scope.branches.contains(texts(branches@)[0]));
        }
        if prefixes.len() > 0 {
            assert(scope.prefixes.contains(texts(prefixes@)[0]));
        }
    }
    let args = listing_arguments(remote, branches, prefixes);
    let ghost before = runner.history();
    let answer = run_owned(runner, repo, &args);
    let ghost once = runner.history();
    let listing = match answer {
        Ok(listing) => listing,
        Err(error) => {
            return Err(error);
        },
    };
    let refs = match local {
        Ok(refs) => refs,
        Err(error) => {
            return Err(error.clone());
        },
    };
    let FetchPlan { mut refspecs, missing } = plan_fetch(
        remote,
        branches,
        prefixes,
        listing.as_str(),
        refs,
    );
    if refspecs.len() == 0 {
        return Ok(missing);
    }
    let ghost specs = texts(refspecs@);
    let mut args: Vec<String> = Vec::new();
    args.push("fetch".to_owned());
    args.push("--no-tags".to_owned());
    args.push("--no-write-fetch-head".to_owned());
    args.push("--end-of-options".to_owned());
    args.push(remote.to_owned());
    args.append(&mut refspecs);
    assert(texts(args@) =~= fetch_args(remote@, specs));
    let answer = run_owned(runner, repo, &args);
    proof {
        let n = before.len() as int;
        assert(runner.history()[n] == once[n]);
    }
    match answer {
        Ok(_) => Ok(missing),
        Err(error) => Err(error),
    }
}

/// The arguments that ask a remote for what it has.
fn listing_arguments(remote: &str, branches: &Vec<String>, prefixes: &Vec<String>) -> (r: Vec<
    String,
>)
    ensures
        texts(r@) == listing_args(scope_of(remote@, texts(branches@), texts(prefixes@))),
{
    let names = list(branches);
    let starts = list(prefixes);
    let ghost first = texts(names@).map_values(|branch: Text| source_root() + branch);
    let ghost second = texts(starts@).map_values(|prefix: Text| source_root() + prefix + "/*"@);
    let ghost fixed = seq![
        "ls-remote"@,
        "--refs"@,
        "--heads"@,
        "--end-of-options"@,
        remote@,
    ];
    let mut args: Vec<String> = Vec::new();
    args.push("ls-remote".to_owned());
    args.push("--refs".to_owned());
    args.push("--heads".to_owned());
    args.push("--end-of-options".to_owned());
    args.push(remote.to_owned());
    assert(texts(args@) =~= fixed + first.take(0));
    let mut i: usize = 0;
    while i < names.len()
        invariant
            i <= names.len(),
            first == texts(names@).map_values(|branch: Text| source_root() + branch),
            texts(args@) == fixed + first.take(i as int),
        decreases names.len() - i,
    {
        let ghost was = texts(args@);
        args.push("refs/heads/".to_owned().concat(names[i].as_str()));
        assert(texts(args@) =~= was.push(first[i as int]));
        assert(texts(args@) =~= fixed + first.take(i + 1));
        i = i + 1;
    }
    assert(first.take(first.len() as int) =~= first);
    assert(texts(args@) =~= fixed + first + second.take(0));
    let mut i: usize = 0;
    while i < starts.len()
        invariant
            i <= starts.len(),
            second == texts(starts@).map_values(|prefix: Text| source_root() + prefix + "/*"@),
            texts(args@) == fixed + first + second.take(i as int),
        decreases starts.len() - i,
    {
        let ghost was = texts(args@);
        args.push("refs/heads/".to_owned().concat(starts[i].as_str()).concat("/*"));
        assert(texts(args@) =~= was.push(second[i as int]));
        assert(texts(args@) =~= fixed + first + second.take(i + 1));
        i = i + 1;
    }
    assert(second.take(second.len() as int) =~= second);
    args
}

/// The branch of a ref here.
proof fn lemma_branch_of(remote: Text, branch: Text)
    ensures
        (tracking_root(remote) + branch).skip(tracking_root(remote).len() as int) == branch,
{
    assert((tracking_root(remote) + branch).skip(tracking_root(remote).len() as int) =~= branch);
}

/// No ref is both fetched and reported as gone.
pub proof fn law_fetched_is_not_missing(
    scope: ScopeView,
    remote_refs: Map<Text, Text>,
    local: Map<Text, Text>,
)
    ensures
        stale(scope, remote_refs, local).disjoint(missing(scope, remote_refs, local)),
{
    assert forall|name: Text| #[trigger]
        stale(scope, remote_refs, local).contains(name) implies !missing(
        scope,
        remote_refs,
        local,
    ).contains(name) by {
        let root = tracking_root(scope.remote);
        let branch = choose|branch: Text|
            {
                &&& name == #[trigger] (root + branch)
                &&& asked(scope, branch)
                &&& remote_refs.contains_key(source_root() + branch)
                &&& !(local.contains_key(name) && local[name] == remote_refs[source_root()
                    + branch])
            };
        assert forall|other: Text| name == #[trigger] (root + other) implies other == branch by {
            lemma_branch_of(scope.remote, other);
            lemma_branch_of(scope.remote, branch);
        }
    }
}

/// Nothing is fetched where the refs here of all branches that are asked for are where
/// the remote has them, as they are after a fetch.
pub proof fn law_unchanged_refs_are_not_fetched(
    scope: ScopeView,
    remote_refs: Map<Text, Text>,
    local: Map<Text, Text>,
)
    requires
        forall|branch: Text|
            asked(scope, branch) && #[trigger] remote_refs.contains_key(source_root() + branch)
                ==> local.contains_key(tracking_root(scope.remote) + branch)
                && local[tracking_root(scope.remote) + branch] == remote_refs[source_root()
                + branch],
    ensures
        stale(scope, remote_refs, local) == Set::<Text>::empty(),
        refspecs(scope.remote, stale(scope, remote_refs, local)).len() == 0,
{
    assert(stale(scope, remote_refs, local) =~= Set::<Text>::empty());
    lemma_listed_members(Set::<Text>::empty());
    let none = listed(Set::<Text>::empty());
    if none.len() > 0 {
        assert(none.to_set().contains(none[0]));
    }
}

} // verus!
