//! What holds of a stack from when it is planned to when it is read again.

use crate::number::{decimal, lemma_decimal};
use crate::split::split_on;
use crate::stack::assign::{
    assigned, claims, is_linear, known_names, law_stack_identities, lemma_claims_distinct,
    messages, numbered, numbers_fit, stack_of, RecordView,
};
use crate::stack::identity::{
    has_space, identity, law_added_identity_is_found, lemma_appended_line,
    lemma_identities_trimmed, tagged,
};
use crate::stack::names::{is_branch_name, is_component, is_forbidden};
use crate::stack::rewrite::{
    done_well, identity_matches, law_rewriting_goes_on, law_rewriting_starts, rewriting_next,
    rewriting_start, rewritten_well, step_of, stepped, with_updates, RewritingView, StepView,
};
use crate::stack::submit::{
    paired_updates, plan_of, OptionsView, PlanView, StackCommitView, IDENTITY_TRAILER,
};
use crate::text::{is_space, occurs, stands_at, trim, trim_end, trim_start, Text};
use vstd::prelude::*;

verus! {

/// Whether a text is made of decimal digits.
pub open spec fn all_digits(s: Text) -> bool {
    forall|i: int| 0 <= i < s.len() ==> 48 <= (#[trigger] s[i]) as u32 <= 57
}

/// Digits behind a slash are a part of their own.
proof fn lemma_split_digits(prefix: Text, digits: Text)
    requires
        all_digits(digits),
    ensures
        split_on(prefix + seq!['/'] + digits, '/') == split_on(prefix, '/').push(digits),
    decreases digits.len(),
{
    let whole = prefix + seq!['/'] + digits;
    if digits.len() == 0 {
        assert(whole.drop_last() =~= prefix);
        assert(digits =~= Seq::<char>::empty());
        assert(split_on(whole, '/') =~= split_on(prefix, '/').push(digits));
    } else {
        let init = digits.drop_last();
        assert forall|i: int| 0 <= i < init.len() implies 48 <= (#[trigger] init[i]) as u32
            <= 57 by {
            assert(init[i] == digits[i]);
        }
        lemma_split_digits(prefix, init);
        assert(whole.drop_last() =~= prefix + seq!['/'] + init);
        assert(whole.last() == digits[digits.len() - 1]);
        assert(whole.last() != '/');
        let parts = split_on(prefix, '/').push(init);
        assert(parts.last().push(whole.last()) =~= digits);
        assert(split_on(whole, '/') =~= split_on(prefix, '/').push(digits));
    }
}

/// A pair of characters that does not occur in a prefix does not occur in it with a slash
/// and digits behind it either, unless it could stand across the slash.
proof fn lemma_no_pair(prefix: Text, digits: Text, a: char, b: char)
    requires
        prefix.len() > 0,
        all_digits(digits),
        !occurs(prefix, seq![a, b]),
        b != '/' || a != prefix.last(),
        !(48 <= b as u32 <= 57),
    ensures
        !occurs(prefix + seq!['/'] + digits, seq![a, b]),
{
    let whole = prefix + seq!['/'] + digits;
    let pair = seq![a, b];
    assert forall|i: int| !#[trigger] stands_at(whole, pair, i) by {
        if stands_at(whole, pair, i) {
            let part = whole.subrange(i, i + 2);
            assert(part == pair);
            assert(part[0] == a && part[1] == b);
            assert(whole[i] == a && whole[i + 1] == b);
            if i + 1 < prefix.len() {
                assert(prefix.subrange(i, i + 2) =~= pair);
                assert(stands_at(prefix, pair, i));
            } else if i + 1 == prefix.len() {
                assert(whole[i] == prefix.last());
            } else {
                assert(whole[i + 1] == digits[i + 1 - prefix.len() - 1]);
            }
        }
    }
}

/// An identity that is given under a prefix that can name a branch can name one too.
pub proof fn law_given_identities_name_branches(prefix: Text, n: nat)
    requires
        is_branch_name(prefix),
    ensures
        is_branch_name(numbered(prefix, n)),
{
    reveal_strlit("/");
    reveal_strlit("..");
    reveal_strlit("@{");
    reveal_strlit("//");
    reveal_strlit(".");
    reveal_strlit(".lock");
    let digits = decimal(n);
    lemma_decimal(n);
    let whole = numbered(prefix, n);
    assert("/"@ =~= seq!['/']);
    assert(whole == prefix + seq!['/'] + digits);
    assert(".."@ =~= seq!['.', '.']);
    assert("@{"@ =~= seq!['@', '{']);
    assert("//"@ =~= seq!['/', '/']);
    lemma_no_pair(prefix, digits, '.', '.');
    lemma_no_pair(prefix, digits, '@', '{');
    lemma_no_pair(prefix, digits, '/', '/');
    lemma_split_digits(prefix, digits);
    assert(whole[0] == prefix[0]);
    assert(whole.last() == digits[digits.len() - 1]);
    assert forall|i: int| 0 <= i < whole.len() implies !is_forbidden(#[trigger] whole[i]) by {
        if i < prefix.len() {
            assert(whole[i] == prefix[i]);
        } else if i > prefix.len() {
            assert(whole[i] == digits[i - prefix.len() - 1]);
        }
    }
    let parts = split_on(prefix, '/');
    assert forall|i: int| 0 <= i < split_on(whole, '/').len() implies is_component(
        #[trigger] split_on(whole, '/')[i],
    ) by {
        if i < parts.len() {
            assert(split_on(whole, '/')[i] == parts[i]);
        } else {
            assert(split_on(whole, '/')[i] == digits);
            if "."@.is_prefix_of(digits) {
                assert(digits.subrange(0, 1)[0] == "."@[0]);
                assert(digits[0] == '.');
            }
            if ".lock"@.is_suffix_of(digits) {
                let end = digits.len() as int;
                assert(digits.subrange(end - 5, end)[4] == ".lock"@[4]);
                assert(digits[end - 1] == 'k');
            }
        }
    }
}

/// The identities that the messages of a stack give can name branches.
proof fn lemma_claims_valid(all: Seq<Text>)
    requires
        claims(all) is Ok,
    ensures
        forall|i: int|
            0 <= i < all.len() && (#[trigger] claims(all)->Ok_0[i]) is Some ==> is_branch_name(
                claims(all)->Ok_0[i]->0,
            ),
    decreases all.len(),
{
    if all.len() > 0 {
        lemma_claims_valid(all.drop_last());
        lemma_claims_distinct(all);
        lemma_claims_distinct(all.drop_last());
        let before = claims(all.drop_last())->Ok_0;
        assert forall|i: int|
            0 <= i < all.len() && (#[trigger] claims(all)->Ok_0[i]) is Some implies is_branch_name(
            claims(all)->Ok_0[i]->0,
        ) by {
            if i < all.len() - 1 {
                assert(before[i] == claims(all)->Ok_0[i]);
            }
        }
    }
}

/// The identities that are given are numbered ones.
proof fn lemma_given(done: Seq<Option<Text>>, prefix: Text, known: Seq<Text>, n: nat)
    requires
        n <= done.len(),
    ensures
        assigned(done, prefix, known, n).branches.len() == n,
        forall|i: int|
            0 <= i < n && done[i] is None ==> exists|k: nat|
                #[trigger] assigned(done, prefix, known, n).branches[i] == #[trigger] numbered(
                    prefix,
                    k,
                ),
        forall|i: int|
            0 <= i < n && done[i] is Some ==> #[trigger] assigned(
                done,
                prefix,
                known,
                n,
            ).branches[i] == done[i]->0,
    decreases n,
{
    if n > 0 {
        lemma_given(done, prefix, known, (n - 1) as nat);
        let before = assigned(done, prefix, known, (n - 1) as nat);
        let now = assigned(done, prefix, known, n);
        assert forall|i: int| 0 <= i < n && done[i] is None implies exists|k: nat|
            #[trigger] now.branches[i] == #[trigger] numbered(prefix, k) by {
            if i < n - 1 {
                assert(now.branches[i] == before.branches[i]);
            } else {
                let place = numbered(prefix, n);
                let fresh = numbered(prefix, before.next);
                assert(now.branches[i] == place || now.branches[i] == fresh);
            }
        }
        assert forall|i: int| 0 <= i < n && done[i] is Some implies #[trigger] now.branches[i]
            == done[i]->0 by {
            if i < n - 1 {
                assert(now.branches[i] == before.branches[i]);
            }
        }
    }
}

/// Every branch of a planned stack can name a branch; it can be written into a message
/// and read from it again, as long as the prefix holds no white space.
pub proof fn law_planned_branches_can_be_recorded(
    records: Seq<RecordView>,
    prefix: Option<Text>,
    remote: Seq<Text>,
    stack: Seq<StackCommitView>,
)
    requires
        numbers_fit(records, prefix, remote),
        stack_of(records, prefix, remote) == Ok::<Seq<StackCommitView>, Text>(stack),
        prefix is Some ==> !has_space(prefix->0),
    ensures
        forall|i: int|
            0 <= i < stack.len() ==> is_branch_name((#[trigger] stack[i]).branch)
                && identity_matches(stack[i]),
{
    law_stack_identities(records, prefix, remote, stack);
    let all = messages(records);
    let done = claims(all)->Ok_0;
    lemma_claims_valid(all);
    lemma_claims_distinct(all);
    assert forall|i: int| 0 <= i < stack.len() implies is_branch_name(
        (#[trigger] stack[i]).branch,
    ) && identity_matches(stack[i]) by {
        assert(all[i] == records[i].message);
        assert(Ok::<Option<Text>, Text>(done[i]) == identity(all[i]));
        if done[i] is Some {
            assert(stack[i].branch == done[i]->0);
        } else {
            assert(done.contains(None));
            let p = prefix->0;
            let known = known_names(done, remote);
            lemma_given(done, p, known, records.len());
            let now = assigned(done, p, known, records.len());
            assert(stack[i].branch == now.branches[i]);
            let k = choose|k: nat| now.branches[i] == #[trigger] numbered(p, k);
            law_given_identities_name_branches(p, k);
            reveal_strlit("/");
            lemma_decimal(k);
            let whole = numbered(p, k);
            assert forall|j: int| 0 <= j < whole.len() implies !is_space(#[trigger] whole[j]) by {
                if j < p.len() {
                    assert(whole[j] == p[j]);
                } else if j > p.len() {
                    assert(whole[j] == decimal(k)[j - p.len() - 1]);
                }
            }
            assert(!has_space(whole));
        }
    }
}

/// The message of a commit after its step, as it is read from the repository.
pub open spec fn read_back(commit: StackCommitView, step: StepView) -> Text {
    match step.text {
        Some(text) => trim(text),
        None => commit.message,
    }
}

/// Nothing is left to trim at the end.
proof fn lemma_trim_end_twice(s: Text)
    ensures
        trim_end(trim_end(s)) == trim_end(s),
        trim_end(s).len() > 0 ==> !is_space(trim_end(s).last()),
    decreases s.len(),
{
    if s.len() > 0 && is_space(s.last()) {
        lemma_trim_end_twice(s.drop_last());
    }
}

/// A text that nothing is left to trim of starts with something.
proof fn lemma_trimmed_start(s: Text)
    ensures
        trim_start(s).len() > 0 ==> !is_space(trim_start(s)[0]),
        trim_start(s).len() <= s.len(),
    decreases s.len(),
{
    if s.len() > 0 && is_space(s[0]) {
        lemma_trimmed_start(s.drop_first());
    }
}

/// What the end of a text is trimmed of does not reach a character that is no white
/// space.
proof fn lemma_trim_end_keeps(a: Text, b: Text)
    requires
        b.len() > 0,
        !is_space(b.last()),
    ensures
        trim_end(a + b) == a + b,
        trim_end(a + b + seq!['\n']) == a + b,
{
    assert((a + b).last() == b.last());
    let whole = a + b + seq!['\n'];
    assert(whole.drop_last() =~= a + b);
}

/// A commit that has been given its identity gives it when it is read again, whatever its
/// new parent.
pub proof fn law_recorded_identity_is_read(commit: StackCommitView, new_parent: Option<Text>)
    requires
        identity_matches(commit),
        trim(commit.message) == commit.message,
    ensures
        step_of(commit, new_parent) is Ok,
        identity(read_back(commit, step_of(commit, new_parent)->Ok_0)) == Ok::<
            Option<Text>,
            Text,
        >(Some(commit.branch)),
{
    reveal_strlit("\n");
    reveal_strlit("\n\n");
    reveal_strlit(": ");
    reveal_strlit("fs-branch");
    let m = commit.message;
    let kept = trim_end(m);
    lemma_trim_end_twice(m);
    lemma_trimmed_start(kept);
    assert(m == trim_start(kept));
    assert(m.len() <= kept.len());
    lemma_shorter(m);
    assert(kept == m);
    if identity(m) == Ok::<Option<Text>, Text>(None) {
        law_added_identity_is_found(m, commit.branch);
        let line = IDENTITY_TRAILER@ + ": "@ + commit.branch;
        let message = tagged(m, commit.branch)->Ok_0;
        assert(!is_space(commit.branch[commit.branch.len() - 1]));
        assert(line.last() == commit.branch.last());
        let front = m + "\n\n"@;
        assert(message =~= front + line + seq!['\n']);
        lemma_trim_end_keeps(front, line);
        let text = front + line + "\n"@;
        assert(text =~= front + line + seq!['\n']);
        assert(trim_end(message) == front + line);
        assert(trim_end(text) == front + line);
        lemma_identities_trimmed(message);
        if m.len() > 0 {
            assert((front + line)[0] == m[0]);
            assert(trim_start(front + line) == front + line);
        } else {
            let one = (front + line).drop_first();
            assert(front + line =~= seq!['\n', '\n'] + line);
            assert(one =~= seq!['\n'] + line);
            assert(one.drop_first() =~= line);
            assert(line[0] == 'f');
            assert(trim_start(line) == line);
            assert(trim_start(one) == line);
            assert(trim_start(front + line) == line);
            lemma_appended_line(commit.branch);
            assert(line + "\n"@ =~= Seq::<char>::empty() + line + seq!['\n']);
            lemma_trim_end_keeps(Seq::<char>::empty(), line);
            assert(Seq::<char>::empty() + line =~= line);
            assert(trim_end(line + "\n"@) == line);
            lemma_identities_trimmed(line + "\n"@);
        }
    } else {
        let text = trim_end(m) + "\n"@;
        assert(text.drop_last() =~= m);
        assert(trim_end(text) == trim_end(m));
        assert(trim(text) == m);
    }
}

/// A text that is trimmed at its start only if that makes it shorter.
proof fn lemma_shorter(m: Text)
    requires
        trim_start(trim_end(m)) == m,
    ensures
        trim_end(m) == m,
{
    lemma_trimmed_start(trim_end(m));
    lemma_trim_end_len(m);
    if trim_end(m).len() == m.len() {
        lemma_trim_end_same(m);
    }
}

proof fn lemma_trim_end_len(m: Text)
    ensures
        trim_end(m).len() <= m.len(),
    decreases m.len(),
{
    if m.len() > 0 && is_space(m.last()) {
        lemma_trim_end_len(m.drop_last());
    }
}

proof fn lemma_trim_end_same(m: Text)
    requires
        trim_end(m).len() == m.len(),
    ensures
        trim_end(m) == m,
{
    if m.len() > 0 && is_space(m.last()) {
        lemma_trim_end_len(m.drop_last());
    }
}

/// Commits that have been given their identities keep their branches when they are read
/// again, in whatever order and whichever of them are left, whatever the prefix and
/// whatever the remote has. `places` tells which commit of the stack each was.
pub proof fn law_identities_are_stable(
    stack: Seq<StackCommitView>,
    again: Seq<RecordView>,
    places: Seq<int>,
    prefix: Option<Text>,
    remote: Seq<Text>,
)
    requires
        again.len() == places.len(),
        places.no_duplicates(),
        forall|k: int| 0 <= k < places.len() ==> 0 <= #[trigger] places[k] < stack.len(),
        forall|i: int, j: int|
            0 <= i < j < stack.len() ==> (#[trigger] stack[i]).branch != (
            #[trigger] stack[j]).branch,
        forall|i: int| 0 <= i < stack.len() ==> is_branch_name((#[trigger] stack[i]).branch),
        forall|k: int|
            0 <= k < again.len() ==> identity((#[trigger] again[k]).message) == Ok::<
                Option<Text>,
                Text,
            >(Some(stack[places[k]].branch)),
    ensures
        stack_of(again, prefix, remote) is Ok,
        stack_of(again, prefix, remote)->Ok_0.len() == again.len(),
        forall|k: int|
            0 <= k < again.len() ==> (#[trigger] stack_of(again, prefix, remote)->Ok_0[k]).branch
                == stack[places[k]].branch && !stack_of(
                again,
                prefix,
                remote,
            )->Ok_0[k].identity_added,
{
    lemma_claimed_again(stack, again, places, again.len());
    assert(again.take(again.len() as int) =~= again);
    let done = claims(messages(again))->Ok_0;
    if done.contains(None) {
        let k = done.index_of(None);
        assert(done[k] == Some(stack[places[k]].branch));
    }
}

proof fn lemma_claimed_again(
    stack: Seq<StackCommitView>,
    again: Seq<RecordView>,
    places: Seq<int>,
    n: nat,
)
    requires
        n <= again.len(),
        again.len() == places.len(),
        places.no_duplicates(),
        forall|k: int| 0 <= k < places.len() ==> 0 <= #[trigger] places[k] < stack.len(),
        forall|i: int, j: int|
            0 <= i < j < stack.len() ==> (#[trigger] stack[i]).branch != (
            #[trigger] stack[j]).branch,
        forall|i: int| 0 <= i < stack.len() ==> is_branch_name((#[trigger] stack[i]).branch),
        forall|k: int|
            0 <= k < again.len() ==> identity((#[trigger] again[k]).message) == Ok::<
                Option<Text>,
                Text,
            >(Some(stack[places[k]].branch)),
    ensures
        claims(messages(again.take(n as int))) == Ok::<Seq<Option<Text>>, Text>(
            Seq::new(n, |k: int| Some(stack[places[k]].branch)),
        ),
    decreases n,
{
    let all = messages(again.take(n as int));
    let wanted = Seq::new(n, |k: int| Some(stack[places[k]].branch));
    if n == 0 {
        assert(all =~= Seq::<Text>::empty());
        assert(wanted =~= Seq::<Option<Text>>::empty());
    } else {
        lemma_claimed_again(stack, again, places, (n - 1) as nat);
        assert(all.drop_last() =~= messages(again.take(n - 1)));
        let before = Seq::new((n - 1) as nat, |k: int| Some(stack[places[k]].branch));
        let last = again[n - 1];
        assert(all.last() == last.message);
        let branch = stack[places[n - 1]].branch;
        if before.contains(Some(branch)) {
            let k = before.index_of(Some(branch));
            assert(stack[places[k]].branch == branch);
            assert(places[k] != places[n - 1]);
            if places[k] < places[n - 1] {
                assert(stack[places[k]].branch != stack[places[n - 1]].branch);
            } else {
                assert(stack[places[n - 1]].branch != stack[places[k]].branch);
            }
        }
        assert(wanted =~= before.push(Some(branch)));
    }
}

/// What comes before a commit of a stack that is rewritten: the commit below it, under the
/// id that it got.
pub open spec fn new_parent(revs: Seq<Text>, i: int) -> Option<Text> {
    if i <= 0 {
        None
    } else {
        Some(revs[i - 1])
    }
}

/// What a commit of a stack becomes, where the commits get certain ids.
pub open spec fn step_at(plan: PlanView, revs: Seq<Text>, i: int) -> StepView {
    step_of(plan.commits[i], new_parent(revs, i))->Ok_0
}

/// Whether the commits of a stack may get certain ids: one that is not made anew keeps its
/// own.
pub open spec fn ids_fit(plan: PlanView, revs: Seq<Text>) -> bool {
    &&& revs.len() == plan.commits.len()
    &&& forall|i: int|
        0 <= i < revs.len() && (#[trigger] step_at(plan, revs, i)).text is None ==> revs[i]
            == plan.commits[i].rev
}

/// A stack whose first `n` commits were given their identities, one after another, and got
/// certain ids.
pub open spec fn rewritten_so_far(plan: PlanView, revs: Seq<Text>, n: nat) -> RewritingView
    decreases n,
{
    if n == 0 {
        rewriting_start(plan)
    } else {
        let before = rewritten_so_far(plan, revs, (n - 1) as nat);
        rewriting_next(
            before,
            step_of(before.plan.commits[n - 1], before.parent)->Ok_0,
            revs[n - 1],
        )
    }
}

/// A plan once all its commits were given their identities and got certain ids.
pub open spec fn rewritten_plan(plan: PlanView, revs: Seq<Text>) -> PlanView {
    with_updates(rewritten_so_far(plan, revs, plan.commits.len()).plan)
}

/// A commit of a stack that was rewritten.
proof fn lemma_rewritten(plan: PlanView, revs: Seq<Text>, n: nat)
    requires
        n <= plan.commits.len(),
        forall|i: int| 0 <= i < plan.commits.len() ==> identity_matches(#[trigger] plan.commits[i]),
    ensures
        ({
            let state = rewritten_so_far(plan, revs, n);
            &&& rewritten_well(plan, state)
            &&& state.index == n
            &&& state.parent == new_parent(revs, n as int)
            &&& state.plan == (PlanView { commits: state.plan.commits, ..plan })
            &&& forall|i: int|
                0 <= i < n ==> #[trigger] state.plan.commits[i] == stepped(
                    plan.commits[i],
                    step_at(plan, revs, i),
                    revs[i],
                )
        }),
    decreases n,
{
    if n == 0 {
        law_rewriting_starts(plan);
    } else {
        lemma_rewritten(plan, revs, (n - 1) as nat);
        let before = rewritten_so_far(plan, revs, (n - 1) as nat);
        assert(before.plan.commits[n - 1] == plan.commits[n - 1]);
        law_rewriting_goes_on(plan, before, revs[n - 1]);
    }
}

/// The commits below the first that is given an identity are as they were.
proof fn lemma_untouched(plan: PlanView, revs: Seq<Text>, i: int)
    requires
        0 <= i < plan.commits.len(),
        ids_fit(plan, revs),
        forall|k: int|
            1 <= k < plan.commits.len() ==> (#[trigger] plan.commits[k]).parent
                == plan.commits[k - 1].rev,
        forall|k: int|
            0 <= k <= i ==> identity((#[trigger] plan.commits[k]).message) == Ok::<
                Option<Text>,
                Text,
            >(Some(plan.commits[k].branch)),
    ensures
        revs[i] == plan.commits[i].rev,
        step_at(plan, revs, i).message == plan.commits[i].message,
    decreases i,
{
    if i > 0 {
        lemma_untouched(plan, revs, i - 1);
        assert(plan.commits[i].parent == plan.commits[i - 1].rev);
    }
    assert(step_at(plan, revs, i).text is None);
}

/// Records of a rewritten stack, as they are read from the repository.
pub open spec fn reread(plan: PlanView, revs: Seq<Text>, again: Seq<RecordView>) -> bool {
    &&& again.len() == plan.commits.len()
    &&& forall|i: int|
        0 <= i < again.len() ==> {
            &&& (#[trigger] again[i]).rev == revs[i]
            &&& again[i].parent == step_at(plan, revs, i).parent
            &&& again[i].message == read_back(plan.commits[i], step_at(plan, revs, i))
        }
}

/// A planned stack whose commits are all given their identities, whatever ids those get
/// that are made anew: every message gives the branch of its commit, the commits form a
/// line on what the stack was on, those below the first that was given an identity are
/// the same, and nothing else of the plan changes but what is pushed. Planned again, the
/// commits have the same branches, and none is given another. The prefix holds no white
/// space.
pub proof fn law_rewriting_ends(
    options: OptionsView,
    fork: Text,
    records: Seq<RecordView>,
    remote: Seq<Text>,
    plan: PlanView,
    revs: Seq<Text>,
)
    requires
        numbers_fit(records, options.prefix, remote),
        plan_of(options, fork, records, remote) == Ok::<PlanView, Text>(plan),
        options.prefix is Some ==> !has_space(options.prefix->0),
        forall|i: int|
            0 <= i < records.len() ==> trim((#[trigger] records[i]).message) == records[i].message,
        ids_fit(plan, revs),
    ensures
        ({
            let done = rewritten_plan(plan, revs);
            &&& done == (PlanView {
                commits: done.commits,
                updates: paired_updates(done.commits),
                ..plan
            })
            &&& done.commits.len() == plan.commits.len()
            &&& done.commits[0].parent == plan.commits[0].parent
            &&& forall|i: int|
                1 <= i < done.commits.len() ==> (#[trigger] done.commits[i]).parent
                    == done.commits[i - 1].rev
            &&& forall|i: int|
                0 <= i < done.commits.len() ==> {
                    &&& identity((#[trigger] done.commits[i]).message) == Ok::<Option<Text>, Text>(
                        Some(done.commits[i].branch),
                    )
                    &&& done.commits[i].rev == revs[i]
                    &&& done.commits[i].branch == plan.commits[i].branch
                    &&& done.commits[i].subject == plan.commits[i].subject
                }
            &&& forall|i: int|
                0 <= i < done.commits.len() && (forall|k: int|
                    0 <= k <= i ==> !(#[trigger] plan.commits[k]).identity_added) ==> {
                    &&& (#[trigger] done.commits[i]).rev == plan.commits[i].rev
                    &&& done.commits[i].message == plan.commits[i].message
                }
        }),
        forall|again: Seq<RecordView>, now: Seq<Text>|
            #![trigger reread(plan, revs, again), plan_of(options, fork, again, now)]
            reread(plan, revs, again) ==> {
                let next = plan_of(options, fork, again, now);
                &&& next is Ok
                &&& next->Ok_0.commits.len() == plan.commits.len()
                &&& forall|i: int|
                    0 <= i < plan.commits.len() ==> (#[trigger] next->Ok_0.commits[i]).branch
                        == plan.commits[i].branch && !next->Ok_0.commits[i].identity_added
            },
{
    let n = plan.commits.len();
    law_stack_identities(records, options.prefix, remote, plan.commits);
    law_planned_branches_can_be_recorded(records, options.prefix, remote, plan.commits);
    assert forall|k: int| 1 <= k < n implies (#[trigger] plan.commits[k]).parent
        == plan.commits[k - 1].rev by {
        assert(plan.commits[k - 1].rev == records[k - 1].rev);
        assert(records[k].parent == records[k - 1].rev);
    }
    lemma_rewritten(plan, revs, n);
    let state = rewritten_so_far(plan, revs, n);
    let done = rewritten_plan(plan, revs);
    assert(done.commits == state.plan.commits);
    assert forall|i: int| 0 <= i < n implies {
        &&& identity((#[trigger] done.commits[i]).message) == Ok::<Option<Text>, Text>(
            Some(done.commits[i].branch),
        )
        &&& done.commits[i].rev == revs[i]
        &&& done.commits[i].branch == plan.commits[i].branch
        &&& done.commits[i].subject == plan.commits[i].subject
        &&& done.commits[i].parent == if i == 0 {
            plan.commits[0].parent
        } else {
            done.commits[i - 1].rev
        }
    } by {
        assert(done_well(plan, state, i));
    }
    assert(done_well(plan, state, 0));
    assert forall|i: int|
        0 <= i < n && (forall|k: int| 0 <= k <= i ==> !(#[trigger] plan.commits[k]).identity_added)
            implies (#[trigger] done.commits[i]).rev == plan.commits[i].rev && done.commits[i].message
        == plan.commits[i].message by {
        assert forall|k: int| 0 <= k <= i implies identity((#[trigger] plan.commits[k]).message)
            == Ok::<Option<Text>, Text>(Some(plan.commits[k].branch)) by {
            assert(!plan.commits[k].identity_added);
        }
        lemma_untouched(plan, revs, i);
    }
    assert forall|again: Seq<RecordView>, now: Seq<Text>|
        #![trigger reread(plan, revs, again), plan_of(options, fork, again, now)]
        reread(plan, revs, again) implies {
        let next = plan_of(options, fork, again, now);
        &&& next is Ok
        &&& next->Ok_0.commits.len() == plan.commits.len()
        &&& forall|i: int|
            0 <= i < plan.commits.len() ==> (#[trigger] next->Ok_0.commits[i]).branch
                == plan.commits[i].branch && !next->Ok_0.commits[i].identity_added
    } by {
        let places = Seq::new(n, |i: int| i);
        assert forall|k: int| 0 <= k < again.len() implies identity((#[trigger] again[k]).message)
            == Ok::<Option<Text>, Text>(Some(plan.commits[places[k]].branch)) by {
            assert(plan.commits[k].message == records[k].message);
            law_recorded_identity_is_read(plan.commits[k], new_parent(revs, k));
        }
        law_identities_are_stable(plan.commits, again, places, options.prefix, now);
        assert(is_linear(again)) by {
            assert forall|k: int| 1 <= k < again.len() implies (#[trigger] again[k]).parent
                == again[k - 1].rev by {
                assert(again[k - 1].rev == revs[k - 1]);
                assert(identity_matches(plan.commits[k]));
                law_recorded_identity_is_read(plan.commits[k], new_parent(revs, k));
            }
        }
        let next = plan_of(options, fork, again, now);
        assert forall|i: int| 0 <= i < n implies (#[trigger] next->Ok_0.commits[i]).branch
            == plan.commits[i].branch && !next->Ok_0.commits[i].identity_added by {
            assert(places[i] == i);
        }
    }
}

/// The commits of every plan form a line.
pub proof fn law_planned_stacks_are_lines(
    options: OptionsView,
    fork: Text,
    records: Seq<RecordView>,
    remote: Seq<Text>,
    plan: PlanView,
)
    requires
        numbers_fit(records, options.prefix, remote),
        plan_of(options, fork, records, remote) == Ok::<PlanView, Text>(plan),
    ensures
        plan.commits.len() > 0,
        forall|i: int|
            1 <= i < plan.commits.len() ==> (#[trigger] plan.commits[i]).parent
                == plan.commits[i - 1].rev,
{
    law_stack_identities(records, options.prefix, remote, plan.commits);
    assert forall|k: int| 1 <= k < plan.commits.len() implies (#[trigger] plan.commits[k]).parent
        == plan.commits[k - 1].rev by {
        assert(plan.commits[k - 1].rev == records[k - 1].rev);
        assert(records[k].parent == records[k - 1].rev);
    }
}

} // verus!
