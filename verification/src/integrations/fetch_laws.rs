//! What fetching from and pushing to a remote comes to.

use crate::integrations::git::{
    advertised, advertised_in, fetched, listing_args, missing, push_args, ref_scope, refspec,
    refspecs, stale, under_prefix, ScopeView,
};
use crate::integrations::runner::Call;
use crate::order::{lemma_listed_members, listed};
use crate::split::{lines_of, words_of};
use crate::text::Text;
use vstd::prelude::*;

verus! {

/// A push is of all branches or none, fails where the remote has moved on, and makes each
/// branch point at its commit.
pub proof fn law_pushes_bring_branches_to_commits(
    remote: Text,
    updates: Seq<(Text, Text)>,
    i: int,
)
    requires
        0 <= i < updates.len(),
    ensures
        push_args(remote, updates).len() == updates.len() + 4,
        push_args(remote, updates).take(4) == seq![
            "push"@,
            "--atomic"@,
            "--force-with-lease"@,
            remote,
        ],
        push_args(remote, updates)[i + 4] == updates[i].1 + ":refs/heads/"@ + updates[i].0,
{
    assert(push_args(remote, updates).take(4) =~= seq![
        "push"@,
        "--atomic"@,
        "--force-with-lease"@,
        remote,
    ]);
}

proof fn lemma_advertised_finite(lines: Seq<Text>)
    ensures
        advertised_in(lines).dom().finite(),
    decreases lines.len(),
{
    if lines.len() > 0 {
        lemma_advertised_finite(lines.drop_last());
    }
}

/// A remote has a branch where a line of what it says tells the branch behind its commit;
/// the last such line counts.
pub proof fn law_remotes_tell_their_branches(lines: Seq<Text>, i: int)
    requires
        0 <= i < lines.len(),
        words_of(lines[i]).len() >= 2,
        forall|j: int|
            i < j < lines.len() && words_of(#[trigger] lines[j]).len() >= 2 ==> words_of(
                lines[j],
            )[1] != words_of(lines[i])[1],
    ensures
        advertised_in(lines).contains_key(words_of(lines[i])[1]),
        advertised_in(lines)[words_of(lines[i])[1]] == words_of(lines[i])[0],
    decreases lines.len(),
{
    let init = lines.drop_last();
    if i < init.len() {
        assert forall|j: int|
            i < j < init.len() && words_of(#[trigger] init[j]).len() >= 2 implies words_of(
            init[j],
        )[1] != words_of(init[i])[1] by {
            assert(init[j] == lines[j]);
        }
        law_remotes_tell_their_branches(init, i);
        assert(lines[lines.len() - 1] == lines.last());
    }
}

/// A remote has no branch that no line tells of.
pub proof fn law_remotes_have_no_other_branches(lines: Seq<Text>, name: Text)
    requires
        advertised_in(lines).contains_key(name),
    ensures
        exists|i: int|
            0 <= i < lines.len() && words_of(#[trigger] lines[i]).len() >= 2 && words_of(
                lines[i],
            )[1] == name,
    decreases lines.len(),
{
    if lines.len() > 0 {
        let init = lines.drop_last();
        if advertised_in(init).contains_key(name) {
            law_remotes_have_no_other_branches(init, name);
            let i = choose|i: int|
                0 <= i < init.len() && words_of(#[trigger] init[i]).len() >= 2 && words_of(
                    init[i],
                )[1] == name;
            assert(lines[i] == init[i]);
        } else {
            assert(lines[lines.len() - 1] == lines.last());
        }
    }
}

/// Whether a branch is one that is asked for: by its name, or as one under a prefix.
pub open spec fn wanted(scope: ScopeView, branch: Text) -> bool {
    scope.branches.contains(branch) || exists|prefix: Text| #[trigger]
        scope.prefixes.contains(prefix) && (prefix + "/"@).is_prefix_of(branch)
}

proof fn lemma_concat_same(a: Text, b: Text, c: Text)
    requires
        a + b == a + c,
    ensures
        b == c,
{
    let n = a.len() as int;
    assert((a + b).skip(n) =~= b);
    assert((a + c).skip(n) =~= c);
}

proof fn lemma_stale_finite(scope: ScopeView, there: Map<Text, Text>, local: Map<Text, Text>)
    requires
        there.dom().finite(),
    ensures
        stale(scope, there, local).finite(),
{
    let n = "refs/heads/"@.len() as int;
    let root = "refs/remotes/"@ + scope.remote + "/"@;
    let here = |name: Text| root + name.skip(n);
    let all = there.dom().map(here);
    there.dom().lemma_map_finite(here);
    assert forall|name: Text| stale(scope, there, local).contains(name) implies all.contains(
        name,
    ) by {
        let branch = choose|branch: Text|
            {
                &&& name == #[trigger] (root + branch)
                &&& crate::integrations::git::asked(scope, branch)
                &&& there.contains_key("refs/heads/"@ + branch)
                &&& !(local.contains_key(name) && local[name] == there["refs/heads/"@ + branch])
            };
        let far = "refs/heads/"@ + branch;
        assert(far.skip(n) =~= branch);
        assert(there.dom().contains(far) && here(far) == name);
    }
    vstd::set_lib::lemma_set_subset_finite(all, stale(scope, there, local));
}

/// What is fetched: a wanted branch that the remote has is brought here by force, to the ref
/// of that remote, unless it is here already; nothing else is brought.
pub proof fn law_stale_branches_are_fetched(
    scope: ScopeView,
    listing: Text,
    local: Map<Text, Text>,
    branch: Text,
)
    ensures
        ({
            let there = advertised(listing);
            let far = "refs/heads/"@ + branch;
            let here = "refs/remotes/"@ + scope.remote + "/"@ + branch;
            refspecs(scope.remote, stale(scope, there, local)).contains(
                "+refs/heads/"@ + branch + ":"@ + here,
            ) <== wanted(scope, branch) && there.contains_key(far) && !(local.contains_key(here)
                && local[here] == there[far])
        }),
        forall|spec: Text| #[trigger]
            refspecs(scope.remote, stale(scope, advertised(listing), local)).contains(spec)
                ==> brings_a_branch(scope, advertised(listing), local, spec),
{
    let there = advertised(listing);
    let far = "refs/heads/"@ + branch;
    let root = "refs/remotes/"@ + scope.remote + "/"@;
    let here = root + branch;
    let names = stale(scope, there, local);
    let specs = refspecs(scope.remote, names);
    lemma_advertised_finite(lines_of(listing));
    lemma_stale_finite(scope, there, local);
    lemma_listed_members(names);
    lemma_refspec(scope.remote, branch);
    if wanted(scope, branch) && there.contains_key(far) && !(local.contains_key(here)
        && local[here] == there[far]) {
        assert(here == root + branch);
        assert(under_prefix(scope.prefixes, branch) || scope.branches.contains(branch));
        assert(names.contains(here));
        assert(listed(names).contains(here));
        let k = listed(names).index_of(here);
        assert(specs[k] == refspec(scope.remote, here));
    }
    assert forall|spec: Text| #[trigger] specs.contains(spec) implies brings_a_branch(
        scope,
        there,
        local,
        spec,
    ) by {
        let k = specs.index_of(spec);
        let name = listed(names)[k];
        assert(listed(names).contains(name));
        assert(names.contains(name));
        let one = choose|one: Text|
            {
                &&& name == #[trigger] (root + one)
                &&& crate::integrations::git::asked(scope, one)
                &&& there.contains_key("refs/heads/"@ + one)
                &&& !(local.contains_key(name) && local[name] == there["refs/heads/"@ + one])
            };
        lemma_refspec(scope.remote, one);
        assert(wanted(scope, one));
    }
}

/// A refspec brings a wanted branch that the remote has and that is not here as there.
pub open spec fn brings_a_branch(
    scope: ScopeView,
    there: Map<Text, Text>,
    local: Map<Text, Text>,
    spec: Text,
) -> bool {
    exists|branch: Text| #[trigger]
        wanted(scope, branch) && there.contains_key("refs/heads/"@ + branch) && spec
            == "+refs/heads/"@ + branch + ":"@ + ("refs/remotes/"@ + scope.remote + "/"@ + branch)
            && !(local.contains_key("refs/remotes/"@ + scope.remote + "/"@ + branch) && local[
        "refs/remotes/"@ + scope.remote + "/"@ + branch] == there["refs/heads/"@ + branch])
}

proof fn lemma_refspec(remote: Text, branch: Text)
    ensures
        refspec(remote, "refs/remotes/"@ + remote + "/"@ + branch) == "+refs/heads/"@ + branch
            + ":"@ + ("refs/remotes/"@ + remote + "/"@ + branch),
{
    let root = "refs/remotes/"@ + remote + "/"@;
    reveal_strlit("+");
    reveal_strlit("refs/heads/");
    reveal_strlit("+refs/heads/");
    assert((root + branch).skip(root.len() as int) =~= branch);
    assert("+"@ + "refs/heads/"@ =~= "+refs/heads/"@);
    assert(refspec(remote, root + branch) =~= "+refs/heads/"@ + branch + ":"@ + (root + branch));
}

/// What is gone: the ref here of a branch that the remote does not have, where it was asked
/// for by its name or, under a prefix, is here.
pub proof fn law_missing_branches_are_told(
    scope: ScopeView,
    there: Map<Text, Text>,
    local: Map<Text, Text>,
    branch: Text,
)
    ensures
        missing(scope, there, local).contains("refs/remotes/"@ + scope.remote + "/"@ + branch)
            <==> !there.contains_key("refs/heads/"@ + branch) && (scope.branches.contains(branch)
            || local.contains_key("refs/remotes/"@ + scope.remote + "/"@ + branch) && exists|
            prefix: Text,
        | #[trigger]
            scope.prefixes.contains(prefix) && (prefix + "/"@).is_prefix_of(branch)),
{
    let root = "refs/remotes/"@ + scope.remote + "/"@;
    let name = root + branch;
    if missing(scope, there, local).contains(name) {
        let one = choose|one: Text|
            {
                &&& name == #[trigger] (root + one)
                &&& !there.contains_key("refs/heads/"@ + one)
                &&& scope.branches.contains(one) || local.contains_key(name) && under_prefix(
                    scope.prefixes,
                    one,
                )
            };
        lemma_concat_same(root, one, branch);
    }
    if !there.contains_key("refs/heads/"@ + branch) && (scope.branches.contains(branch)
        || local.contains_key(name) && under_prefix(scope.prefixes, branch)) {
        assert(name == root + branch);
    }
}

/// The remote is asked for every branch that is wanted by name and for all under a prefix.
pub proof fn law_remotes_are_asked_for_what_is_wanted(scope: ScopeView, name: Text)
    requires
        scope.branches.finite(),
        scope.prefixes.finite(),
    ensures
        listing_args(scope).take(5) == seq![
            "ls-remote"@,
            "--refs"@,
            "--heads"@,
            "--end-of-options"@,
            scope.remote,
        ],
        scope.branches.contains(name) ==> listing_args(scope).contains("refs/heads/"@ + name),
        scope.prefixes.contains(name) ==> listing_args(scope).contains(
            "refs/heads/"@ + name + "/*"@,
        ),
        listing_args(scope).len() == 5 + scope.branches.len() + scope.prefixes.len(),
{
    let args = listing_args(scope);
    lemma_listed_members(scope.branches);
    lemma_listed_members(scope.prefixes);
    listed(scope.branches).unique_seq_to_set();
    listed(scope.prefixes).unique_seq_to_set();
    assert(listed(scope.branches).to_set() =~= scope.branches);
    assert(listed(scope.prefixes).to_set() =~= scope.prefixes);
    assert(args.take(5) =~= seq![
        "ls-remote"@,
        "--refs"@,
        "--heads"@,
        "--end-of-options"@,
        scope.remote,
    ]);
    if scope.branches.contains(name) {
        assert(listed(scope.branches).contains(name));
        let k = listed(scope.branches).index_of(name);
        assert(args[5 + k] == "refs/heads/"@ + name);
    }
    if scope.prefixes.contains(name) {
        assert(listed(scope.prefixes).contains(name));
        let k = listed(scope.prefixes).index_of(name);
        assert(args[5 + listed(scope.branches).len() + k] == "refs/heads/"@ + name + "/*"@);
    }
}

/// A fetch that succeeds has asked the remote what it has and then, if anything is stale,
/// fetched all of that at once; it tells all that is gone.
pub proof fn law_fetches_ask_and_bring(
    scope: ScopeView,
    repo: Text,
    local: Map<Text, Text>,
    before: Seq<Call>,
    after: Seq<Call>,
    gone: Seq<Text>,
    branch: Text,
)
    requires
        !scope.branches.is_empty() || !scope.prefixes.is_empty(),
        fetched(
            scope,
            repo,
            Ok::<Map<Text, Text>, Text>(local),
            before,
            after,
            Ok::<Seq<Text>, Text>(gone),
        ),
    ensures
        ({
            let n = before.len() as int;
            let there = advertised(after[n].reply->Ok_0);
            let far = "refs/heads/"@ + branch;
            let here = "refs/remotes/"@ + scope.remote + "/"@ + branch;
            &&& n < after.len() <= n + 2
            &&& after[n].reply is Ok
            &&& after[n].args == listing_args(scope)
            &&& after.last().reply is Ok
            &&& gone == listed(missing(scope, there, local))
            &&& wanted(scope, branch) && there.contains_key(far) && !(local.contains_key(here)
                && local[here] == there[far]) ==> {
                &&& after.len() == n + 2
                &&& after.last().args.take(5) == seq![
                    "fetch"@,
                    "--no-tags"@,
                    "--no-write-fetch-head"@,
                    "--end-of-options"@,
                    scope.remote,
                ]
                &&& after.last().args.contains("+refs/heads/"@ + branch + ":"@ + here)
            }
        }),
{
    let n = before.len() as int;
    let listing = after[n].reply->Ok_0;
    let there = advertised(listing);
    let specs = refspecs(scope.remote, stale(scope, there, local));
    law_stale_branches_are_fetched(scope, listing, local, branch);
    let spec = "+refs/heads/"@ + branch + ":"@ + ("refs/remotes/"@ + scope.remote + "/"@ + branch);
    if after.len() == n + 2 {
        assert(after.last().args.take(5) =~= seq![
            "fetch"@,
            "--no-tags"@,
            "--no-write-fetch-head"@,
            "--end-of-options"@,
            scope.remote,
        ]);
        if specs.contains(spec) {
            let k = specs.index_of(spec);
            assert(after.last().args[k + 5] == spec);
        }
    }
}

/// The refs here that are read for a fetch are those that it may change: the refs of the
/// branches, and all under the prefixes.
pub proof fn law_refs_that_may_change_are_read(
    remote: Text,
    branches: Seq<Text>,
    prefixes: Seq<Text>,
    name: Text,
)
    ensures
        branches.contains(name) ==> ref_scope(remote, branches, prefixes).0.contains(
            "refs/remotes/"@ + remote + "/"@ + name,
        ),
        prefixes.contains(name) ==> ref_scope(remote, branches, prefixes).1.contains(
            "refs/remotes/"@ + remote + "/"@ + name + "/*"@,
        ),
{
    let (exact, patterns) = ref_scope(remote, branches, prefixes);
    lemma_listed_members(branches.to_set());
    lemma_listed_members(prefixes.to_set());
    if branches.contains(name) {
        assert(listed(branches.to_set()).contains(name));
        let k = listed(branches.to_set()).index_of(name);
        assert(exact[k] == "refs/remotes/"@ + remote + "/"@ + name);
    }
    if prefixes.contains(name) {
        assert(listed(prefixes.to_set()).contains(name));
        let k = listed(prefixes.to_set()).index_of(name);
        assert(patterns[k] == "refs/remotes/"@ + remote + "/"@ + name + "/*"@);
    }
}

} // verus!
