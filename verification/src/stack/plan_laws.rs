//! What the plan of a stack comes to.

use crate::number::{decimal, law_decimal_is_parsed};
use crate::split::{chain, split_on, words_of};
use crate::stack::assign::{
    assigned, branches_of, claimed_names, claims, highest, identities_at, is_linear, known_names,
    law_stack_identities, line_of, messages, number_of, numbered, numbers_fit, record_of,
    records_of, stack_of, RawCommit, RecordView,
};
use crate::stack::identity::identity;
use crate::stack::names::{is_branch_name, owner_and_name};
use crate::stack::planning::{logged_commit, logged_commits, logged_stack};
use crate::stack::submit::{
    fork_at, law_updates_are_paired, plan_of, scope_branches, sync_scope, OptionsView, PlanView,
    StackCommitView,
};
use crate::text::{trim, Text};
use vstd::prelude::*;

verus! {

/// A plan holds what it was made of, sits on the remote's base branch, and pushes for each
/// commit a base branch at its parent and a head branch at itself, and nothing else.
pub proof fn law_plans_push_a_pair_for_each_commit(
    options: OptionsView,
    fork: Text,
    records: Seq<RecordView>,
    remote: Seq<Text>,
    plan: PlanView,
    i: int,
)
    requires
        numbers_fit(records, options.prefix, remote),
        plan_of(options, fork, records, remote) == Ok::<PlanView, Text>(plan),
        0 <= i < records.len(),
    ensures
        plan.options == options,
        plan.fork == fork,
        plan.base_ref == options.remote + "/"@ + options.base,
        plan.commits.len() == records.len(),
        plan.commits[i].rev == records[i].rev,
        plan.commits[i].parent == records[i].parent,
        plan.commits[i].subject == records[i].subject,
        plan.commits[i].message == records[i].message,
        plan.updates.len() == 2 * records.len(),
        plan.updates[2 * i].branch == "fs-base/"@ + plan.commits[i].branch,
        plan.updates[2 * i].rev == records[i].parent,
        plan.updates[2 * i + 1].branch == "fs-head/"@ + plan.commits[i].branch,
        plan.updates[2 * i + 1].rev == records[i].rev,
{
    law_stack_identities(records, options.prefix, remote, plan.commits);
    law_updates_are_paired(plan.commits, i);
    assert(plan.commits[i].rev == records[i].rev);
}

proof fn lemma_highest(names: Seq<Text>, prefix: Text, name: Text)
    requires
        names.contains(name),
        number_of(name, prefix) is Some,
    ensures
        number_of(name, prefix)->0 <= highest(names, prefix),
    decreases names.len(),
{
    let init = names.drop_last();
    if init.contains(name) {
        lemma_highest(init, prefix, name);
    } else {
        let i = names.index_of(name);
        assert(i == names.len() - 1) by {
            if i < init.len() {
                assert(init[i] == name);
            }
        }
    }
}

proof fn lemma_highest_bound(names: Seq<Text>, prefix: Text)
    ensures
        highest(names, prefix) <= u64::MAX,
    decreases names.len(),
{
    if names.len() > 0 {
        lemma_highest_bound(names.drop_last(), prefix);
    }
}

proof fn lemma_numbered(prefix: Text, n: nat)
    requires
        n <= u64::MAX,
    ensures
        number_of(numbered(prefix, n), prefix) == Some(n as u64),
{
    let whole = numbered(prefix, n);
    let front = prefix + "/"@;
    law_decimal_is_parsed(n as u64);
    assert(whole.subrange(0, front.len() as int) =~= front);
    assert(whole.skip(front.len() as int) =~= decimal(n));
}

/// The number that a commit without an identity is given: that of its place, where an
/// identity of that number is known, or one beyond all that are known.
spec fn given(prefix: Text, known: Seq<Text>, i: int, next: nat, branch: Text) -> bool {
    ||| branch == numbered(prefix, (i + 1) as nat) && known.contains(branch)
    ||| exists|k: nat|
        highest(known, prefix) < k < next && branch == #[trigger] numbered(prefix, k)
}

proof fn lemma_assigned(done: Seq<Option<Text>>, prefix: Text, known: Seq<Text>, n: nat)
    ensures
        ({
            let now = assigned(done, prefix, known, n);
            &&& now.branches.len() == n
            &&& now.next > highest(known, prefix)
            &&& forall|i: int|
                0 <= i < n && done[i] is None ==> given(
                    prefix,
                    known,
                    i,
                    now.next,
                    #[trigger] now.branches[i],
                )
            &&& forall|b: Text| #[trigger]
                now.taken.contains(b) ==> claimed_names(done).contains(b) || exists|j: int|
                    0 <= j < n && b == #[trigger] now.branches[j] && done[j] is None
        }),
    decreases n,
{
    if n > 0 {
        lemma_assigned(done, prefix, known, (n - 1) as nat);
        let before = assigned(done, prefix, known, (n - 1) as nat);
        let now = assigned(done, prefix, known, n);
        assert forall|i: int| 0 <= i < n && done[i] is None implies given(
            prefix,
            known,
            i,
            now.next,
            #[trigger] now.branches[i],
        ) by {
            if i < n - 1 {
                assert(now.branches[i] == before.branches[i]);
                if !(now.branches[i] == numbered(prefix, (i + 1) as nat) && known.contains(
                    now.branches[i],
                )) {
                    let k = choose|k: nat|
                        highest(known, prefix) < k < before.next && before.branches[i]
                            == #[trigger] numbered(prefix, k);
                    assert(k < now.next);
                }
            } else {
                assert(now.branches[i] == numbered(prefix, n) || now.branches[i] == numbered(
                    prefix,
                    before.next,
                ));
            }
        }
        assert forall|b: Text| #[trigger] now.taken.contains(b) implies claimed_names(
            done,
        ).contains(b) || exists|j: int|
            0 <= j < n && b == #[trigger] now.branches[j] && done[j] is None by {
            if before.taken.contains(b) {
                if !claimed_names(done).contains(b) {
                    let j = choose|j: int|
                        0 <= j < n - 1 && b == #[trigger] before.branches[j] && done[j] is None;
                    assert(now.branches[j] == b);
                }
            } else {
                assert(now.branches[n - 1] == b);
            }
        }
    }
}

proof fn lemma_branch_stays(
    done: Seq<Option<Text>>,
    prefix: Text,
    known: Seq<Text>,
    n: nat,
    i: int,
)
    requires
        0 <= i < n,
    ensures
        assigned(done, prefix, known, n).branches[i] == assigned(
            done,
            prefix,
            known,
            (i + 1) as nat,
        ).branches[i],
    decreases n,
{
    lemma_assigned(done, prefix, known, n);
    lemma_assigned(done, prefix, known, (n - 1) as nat);
    if i < n - 1 {
        lemma_branch_stays(done, prefix, known, (n - 1) as nat, i);
    }
}

/// A commit that is given an identity takes that of its place in the stack, where the remote
/// has it and no commit claims it: it is the one that it was published as before it was
/// rewritten. Else it takes a number under the prefix that is beyond all that the remote
/// has, so that no branch of another stack is taken over.
pub proof fn law_given_identities_are_free(
    records: Seq<RecordView>,
    prefix: Text,
    remote: Seq<Text>,
    stack: Seq<StackCommitView>,
    i: int,
)
    requires
        records.len() <= u64::MAX,
        numbers_fit(records, Some(prefix), remote),
        stack_of(records, Some(prefix), remote) == Ok::<Seq<StackCommitView>, Text>(stack),
        0 <= i < stack.len(),
        stack[i].identity_added,
    ensures
        ({
            let place = prefix + "/"@ + decimal((i + 1) as nat);
            &&& stack[i].branch != place ==> is_beyond(prefix, remote, stack[i].branch)
            &&& remote.contains(place) && (forall|j: int|
                0 <= j < records.len() ==> identity((#[trigger] records[j]).message) != Ok::<
                    Option<Text>,
                    Text,
                >(Some(place))) ==> stack[i].branch == place
        }),
{
    let done = claims(messages(records))->Ok_0;
    let known = known_names(done, remote);
    let n = records.len();
    let place = numbered(prefix, (i + 1) as nat);
    law_stack_identities(records, Some(prefix), remote, stack);
    lemma_claims(messages(records));
    assert(messages(records)[i] == records[i].message);
    assert(done[i] is None);
    assert(done.contains(None));
    lemma_assigned(done, prefix, known, n);
    let all = assigned(done, prefix, known, n);
    assert(stack[i].branch == all.branches[i]);
    assert(given(prefix, known, i, all.next, all.branches[i]));
    lemma_highest_bound(known, prefix);
    if stack[i].branch != place {
        let k = choose|k: nat|
            highest(known, prefix) < k < all.next && all.branches[i] == #[trigger] numbered(
                prefix,
                k,
            );
        lemma_numbered(prefix, k);
        assert forall|name: Text| #[trigger] remote.contains(name) implies name != stack[i].branch
            && (number_of(name, prefix) matches Some(m) ==> m < k) by {
            vstd::seq_lib::lemma_seq_concat_contains_all_elements(
                claimed_names(done),
                remote,
                name,
            );
            if number_of(name, prefix) is Some {
                lemma_highest(known, prefix, name);
            }
        }
        assert(stack[i].branch == prefix + "/"@ + decimal(k));
    }
    if remote.contains(place) && (forall|j: int|
        0 <= j < records.len() ==> identity((#[trigger] records[j]).message) != Ok::<
            Option<Text>,
            Text,
        >(Some(place))) {
        vstd::seq_lib::lemma_seq_concat_contains_all_elements(claimed_names(done), remote, place);
        lemma_numbered(prefix, (i + 1) as nat);
        lemma_highest(known, prefix, place);
        let before = assigned(done, prefix, known, i as nat);
        lemma_assigned(done, prefix, known, i as nat);
        lemma_branch_stays(done, prefix, known, n, i);
        if before.taken.contains(place) {
            if claimed_names(done).contains(place) {
                lemma_claimed(done, place);
                let j = choose|j: int| 0 <= j < done.len() && #[trigger] done[j] == Some(place);
                assert(messages(records)[j] == records[j].message);
                assert(identity(records[j].message) == Ok::<Option<Text>, Text>(Some(place)));
            } else {
                let j = choose|j: int|
                    0 <= j < i && place == #[trigger] before.branches[j] && done[j] is None;
                assert(given(prefix, known, j, before.next, before.branches[j]));
                if place == numbered(prefix, (j + 1) as nat) {
                    lemma_numbered(prefix, (j + 1) as nat);
                } else {
                    let k = choose|k: nat|
                        highest(known, prefix) < k < before.next && before.branches[j]
                            == #[trigger] numbered(prefix, k);
                    lemma_next_grows(done, prefix, known, i as nat, n);
                    lemma_numbered(prefix, k);
                }
            }
        }
    }
}

/// An identity is a number under a prefix beyond all that some names have.
pub open spec fn is_beyond(prefix: Text, names: Seq<Text>, branch: Text) -> bool {
    exists|k: nat|
        branch == prefix + "/"@ + #[trigger] decimal(k) && forall|name: Text| #[trigger]
            names.contains(name) ==> name != branch && (number_of(name, prefix) matches Some(m)
                ==> m < k)
}

proof fn lemma_next_grows(
    done: Seq<Option<Text>>,
    prefix: Text,
    known: Seq<Text>,
    m: nat,
    n: nat,
)
    requires
        m <= n,
    ensures
        assigned(done, prefix, known, m).next <= assigned(done, prefix, known, n).next,
    decreases n,
{
    if m < n {
        lemma_next_grows(done, prefix, known, m, (n - 1) as nat);
    }
}

proof fn lemma_claimed(done: Seq<Option<Text>>, name: Text)
    requires
        claimed_names(done).contains(name),
    ensures
        exists|j: int| 0 <= j < done.len() && #[trigger] done[j] == Some(name),
    decreases done.len(),
{
    if done.len() > 0 {
        let init = done.drop_last();
        match done.last() {
            Some(branch) => {
                vstd::seq_lib::lemma_seq_contains_after_push(claimed_names(init), branch, name);
            },
            None => {},
        }
        if claimed_names(init).contains(name) {
            lemma_claimed(init, name);
            let j = choose|j: int| 0 <= j < init.len() && #[trigger] init[j] == Some(name);
            assert(done[j] == Some(name));
        } else {
            assert(done[done.len() - 1] == Some(name));
        }
    }
}

proof fn lemma_claims(all: Seq<Text>)
    requires
        claims(all) is Ok,
    ensures
        claims(all)->Ok_0.len() == all.len(),
        forall|i: int|
            0 <= i < all.len() ==> identity(#[trigger] all[i]) == Ok::<Option<Text>, Text>(
                claims(all)->Ok_0[i],
            ),
    decreases all.len(),
{
    if all.len() > 0 {
        let init = all.drop_last();
        lemma_claims(init);
        assert forall|i: int| 0 <= i < all.len() implies identity(#[trigger] all[i]) == Ok::<
            Option<Text>,
            Text,
        >(claims(all)->Ok_0[i]) by {
            if i < init.len() {
                assert(init[i] == all[i]);
            }
        }
    }
}

/// What a message gives can name a branch, where it gives an identity.
pub open spec fn gives_a_name(message: Text) -> bool {
    match identity(message) {
        Ok(Some(branch)) => is_branch_name(branch),
        Ok(None) => true,
        Err(_) => false,
    }
}

/// Two messages give one identity.
pub open spec fn give_the_same(a: Text, b: Text) -> bool {
    identity(a) is Ok && identity(a)->Ok_0 is Some && identity(a) == identity(b)
}

/// Identities that messages give are accepted exactly where each can be read, each can name
/// a branch, and no two are the same.
pub proof fn law_identities_are_checked(all: Seq<Text>)
    ensures
        claims(all) is Ok <==> (forall|i: int|
            0 <= i < all.len() ==> gives_a_name(#[trigger] all[i])) && (forall|i: int, j: int|
            0 <= i < j < all.len() ==> !give_the_same(#[trigger] all[i], #[trigger] all[j])),
    decreases all.len(),
{
    if all.len() > 0 {
        let init = all.drop_last();
        let last = all.last();
        law_identities_are_checked(init);
        let named = forall|i: int| 0 <= i < all.len() ==> gives_a_name(#[trigger] all[i]);
        let differ = forall|i: int, j: int|
            0 <= i < j < all.len() ==> !give_the_same(#[trigger] all[i], #[trigger] all[j]);
        assert(all[all.len() - 1] == last);
        if named && differ {
            assert forall|i: int| 0 <= i < init.len() implies gives_a_name(#[trigger] init[i]) by {
                assert(init[i] == all[i]);
            }
            assert forall|i: int, j: int| 0 <= i < j < init.len() implies !give_the_same(
                #[trigger] init[i],
                #[trigger] init[j],
            ) by {
                assert(init[i] == all[i] && init[j] == all[j]);
            }
            let done = claims(init)->Ok_0;
            lemma_claims(init);
            assert(gives_a_name(last));
            if identity(last)->Ok_0 is Some && done.contains(identity(last)->Ok_0) {
                let i = done.index_of(identity(last)->Ok_0);
                assert(identity(init[i]) == Ok::<Option<Text>, Text>(done[i]));
                assert(give_the_same(all[i], all[all.len() - 1]));
            }
        }
        if claims(all) is Ok {
            let done = claims(init)->Ok_0;
            lemma_claims(init);
            lemma_claims(all);
            assert forall|i: int| 0 <= i < all.len() implies gives_a_name(#[trigger] all[i]) by {
                if i < init.len() {
                    assert(gives_a_name(init[i]));
                }
            }
            assert forall|i: int, j: int| 0 <= i < j < all.len() implies !give_the_same(
                #[trigger] all[i],
                #[trigger] all[j],
            ) by {
                assert(init[i] == all[i]);
                if j < init.len() {
                    assert(!give_the_same(init[i], init[j]));
                } else if give_the_same(all[i], all[j]) {
                    assert(identity(init[i]) == Ok::<Option<Text>, Text>(done[i]));
                    assert(done.contains(identity(last)->Ok_0));
                }
            }
        }
    }
}

/// A line of commits of which some have no identity is planned under every prefix that can
/// name a branch.
pub proof fn law_untagged_lines_are_planned(
    options: OptionsView,
    fork: Text,
    records: Seq<RecordView>,
    remote: Seq<Text>,
)
    requires
        records.len() > 0,
        forall|i: int|
            1 <= i < records.len() ==> (#[trigger] records[i]).parent == records[i - 1].rev,
        claims(messages(records)) is Ok,
        options.prefix is Some,
        is_branch_name(options.prefix->0),
    ensures
        plan_of(options, fork, records, remote) is Ok,
{
    assert(is_linear(records));
    assert(branches_of(records, options.prefix, remote) is Ok);
}

/// The identities that a remote has under a prefix are those of its refs there.
pub proof fn law_remote_identities(
    names: Seq<Option<Text>>,
    remote: Text,
    prefix: Text,
    rest: Text,
)
    ensures
        identities_at(names, remote, prefix).contains(prefix + "/"@ + rest) <==> names.contains(
            Some("refs/remotes/"@ + remote + "/fs-head/"@ + prefix + "/"@ + rest),
        ),
    decreases names.len(),
{
    if names.len() > 0 {
        let init = names.drop_last();
        let root = "refs/remotes/"@ + remote + "/fs-head/"@ + prefix + "/"@;
        let wanted = prefix + "/"@ + rest;
        let full = root + rest;
        law_remote_identities(init, remote, prefix, rest);
        assert(names =~= init.push(names.last()));
        vstd::seq_lib::lemma_seq_contains_after_push(init, names.last(), Some(full));
        assert(full.subrange(0, root.len() as int) =~= root);
        assert(full.skip(root.len() as int) =~= rest);
        match names.last() {
            Some(name) => {
                if root.is_prefix_of(name) {
                    let one = name.skip(root.len() as int);
                    assert(name =~= root + one);
                    vstd::seq_lib::lemma_seq_contains_after_push(
                        identities_at(init, remote, prefix),
                        prefix + "/"@ + one,
                        wanted,
                    );
                    let n = (prefix + "/"@).len() as int;
                    assert((prefix + "/"@ + one).skip(n) =~= one);
                    assert(wanted.skip(n) =~= rest);
                }
            },
            None => {},
        }
    }
}

proof fn lemma_scope_branches(commits: Seq<StackCommitView>, i: int)
    requires
        0 <= i < commits.len(),
    ensures
        scope_branches(commits).len() == 2 * commits.len(),
        scope_branches(commits)[2 * i] == "fs-base/"@ + commits[i].branch,
        scope_branches(commits)[2 * i + 1] == "fs-head/"@ + commits[i].branch,
    decreases commits.len(),
{
    reveal_with_fuel(scope_branches, 2);
    if commits.len() > 1 {
        let init = commits.drop_last();
        if i < init.len() {
            lemma_scope_branches(init, i);
        } else {
            lemma_scope_branches(init, 0);
        }
    }
}

/// Before a plan is carried out the base and both branches of every commit are brought up to
/// date and, where an identity is given, all that the remote has under the prefix; nothing
/// else is.
pub proof fn law_what_a_plan_depends_on_is_fetched(plan: PlanView, i: int)
    requires
        0 <= i < plan.commits.len(),
    ensures
        sync_scope(plan).0.len() == 1 + 2 * plan.commits.len(),
        sync_scope(plan).0[0] == plan.options.base,
        sync_scope(plan).0[1 + 2 * i] == "fs-base/"@ + plan.commits[i].branch,
        sync_scope(plan).0[2 + 2 * i] == "fs-head/"@ + plan.commits[i].branch,
        plan.options.prefix is Some && (exists|j: int|
            0 <= j < plan.commits.len() && (#[trigger] plan.commits[j]).identity_added)
            ==> sync_scope(plan).1 == seq!["fs-head/"@ + plan.options.prefix->0],
        !(plan.options.prefix is Some && (exists|j: int|
            0 <= j < plan.commits.len() && (#[trigger] plan.commits[j]).identity_added))
            ==> sync_scope(plan).1.len() == 0,
{
    lemma_scope_branches(plan.commits, i);
}

/// Fields, each with a zero character behind it.
pub open spec fn fields_text(fields: Seq<Text>) -> Text {
    chain(fields.map_values(|field: Text| field.push('\0')))
}

/// Splitting a text with more at its end that does not hold the separator.
pub proof fn lemma_split_more(s: Text, t: Text, sep: char)
    requires
        !t.contains(sep),
    ensures
        split_on(s, sep).len() > 0,
        split_on(s + t, sep) == split_on(s, sep).drop_last().push(split_on(s, sep).last() + t),
    decreases t.len(),
{
    lemma_split_some(s, sep);
    let parts = split_on(s, sep);
    if t.len() == 0 {
        assert(s + t =~= s);
        assert(parts.last() + t =~= parts.last());
        assert(parts =~= parts.drop_last().push(parts.last()));
    } else {
        let init = t.drop_last();
        assert(!init.contains(sep)) by {
            if init.contains(sep) {
                assert(t[init.index_of(sep)] == sep);
            }
        }
        lemma_split_more(s, init, sep);
        assert((s + t).drop_last() =~= s + init);
        assert(t[t.len() - 1] != sep);
        let before = split_on(s + init, sep);
        assert(before.drop_last() =~= parts.drop_last());
        assert((parts.last() + init).push(t.last()) =~= parts.last() + t);
    }
}

/// A text has one part at least.
pub proof fn lemma_split_some(s: Text, sep: char)
    ensures
        split_on(s, sep).len() > 0,
    decreases s.len(),
{
    if s.len() > 0 {
        lemma_split_some(s.drop_last(), sep);
    }
}

proof fn lemma_fields(fields: Seq<Text>)
    requires
        forall|i: int| 0 <= i < fields.len() ==> !(#[trigger] fields[i]).contains('\0'),
    ensures
        split_on(fields_text(fields), '\0') == fields.push(Seq::empty()),
    decreases fields.len(),
{
    let all = fields.map_values(|field: Text| field.push('\0'));
    if fields.len() == 0 {
        assert(fields_text(fields) =~= Seq::empty());
        assert(split_on(fields_text(fields), '\0') =~= fields.push(Seq::empty()));
    } else {
        let init = fields.drop_last();
        let last = fields.last();
        assert forall|i: int| 0 <= i < init.len() implies !(#[trigger] init[i]).contains(
            '\0',
        ) by {
            assert(init[i] == fields[i]);
        }
        lemma_fields(init);
        assert(all.drop_last() =~= init.map_values(|field: Text| field.push('\0')));
        assert(!fields[fields.len() - 1].contains('\0'));
        let before = fields_text(init);
        lemma_split_more(before, last, '\0');
        let text = before + last;
        assert(fields_text(fields) =~= text.push('\0'));
        assert(text.push('\0').drop_last() =~= text);
        assert(split_on(before, '\0').drop_last() =~= init);
        assert(Seq::<char>::empty() + last =~= last);
        assert(split_on(text, '\0') =~= fields);
    }
}

proof fn lemma_logged(fields: Seq<Text>, n: nat)
    requires
        logged_commits(fields, n) is Ok,
    ensures
        logged_commits(fields, n)->Ok_0.len() == n,
        forall|i: int|
            0 <= i < n ==> logged_commit(fields, 5 * i) == Ok::<RecordView, Text>(
                #[trigger] logged_commits(fields, n)->Ok_0[i],
            ),
    decreases n,
{
    if n > 0 {
        lemma_logged(fields, (n - 1) as nat);
    }
}

proof fn lemma_logged_ok(fields: Seq<Text>, n: nat)
    requires
        forall|i: int|
            0 <= i < n ==> logged_commit(fields, #[trigger] (5 * i)) is Ok,
    ensures
        logged_commits(fields, n) is Ok,
    decreases n,
{
    if n > 0 {
        lemma_logged_ok(fields, (n - 1) as nat);
        assert(logged_commit(fields, 5 * (n - 1)) is Ok);
    }
}

/// A log in which Git tells of commits, each by its id, its parents, its subject, its body
/// and its message, is read as those commits, in their order, with white space taken off
/// their texts, where each has a single parent and stands on the one before it.
pub proof fn law_logs_are_read(fields: Seq<Text>, i: int)
    requires
        fields.len() % 5 == 0,
        forall|j: int| 0 <= j < fields.len() ==> !(#[trigger] fields[j]).contains('\0'),
        0 <= 5 * i < fields.len(),
    ensures
        logged_stack(fields_text(fields)) matches Ok(records) ==> {
            &&& records.len() == fields.len() / 5
            &&& records[i].rev == fields[5 * i]
            &&& words_of(fields[5 * i + 1]) == seq![records[i].parent]
            &&& records[i].subject == trim(fields[5 * i + 2])
            &&& records[i].body == trim(fields[5 * i + 3])
            &&& records[i].message == trim(fields[5 * i + 4])
            &&& i > 0 ==> records[i].parent == fields[5 * (i - 1)]
        },
        (forall|k: int|
            0 <= k < fields.len() / 5 ==> words_of(
                #[trigger] fields[5 * k + 1],
            ).len() == 1 && (k > 0 ==> words_of(fields[5 * k + 1])[0] == fields[5 * (k - 1)]))
            ==> logged_stack(fields_text(fields)) is Ok,
{
    let all = split_on(fields_text(fields), '\0');
    let n = (fields.len() / 5) as nat;
    lemma_fields(fields);
    assert(all.len() == fields.len() + 1);
    assert(all.len() / 5 == n && all.len() % 5 == 1);
    assert(all.last().len() == 0);
    if logged_commits(all, n) is Ok {
        lemma_logged(all, n);
        let records = logged_commits(all, n)->Ok_0;
        assert(logged_commit(all, 5 * i) == Ok::<RecordView, Text>(records[i]));
        assert(words_of(fields[5 * i + 1]) =~= seq![records[i].parent]);
        if i > 0 {
            assert(logged_commit(all, 5 * (i - 1)) == Ok::<RecordView, Text>(records[i - 1]));
        }
        if forall|k: int|
            0 <= k < fields.len() / 5 ==> words_of(#[trigger] fields[5 * k + 1]).len() == 1 && (k
                > 0 ==> words_of(fields[5 * k + 1])[0] == fields[5 * (k - 1)]) {
            assert forall|k: int| 1 <= k < records.len() implies (#[trigger] records[k]).parent
                == records[k - 1].rev by {
                assert(logged_commit(all, 5 * k) == Ok::<RecordView, Text>(records[k]));
                assert(logged_commit(all, 5 * (k - 1)) == Ok::<RecordView, Text>(records[k - 1]));
                assert(words_of(fields[5 * k + 1]).len() == 1);
            }
        }
    }
    if forall|k: int|
        0 <= k < fields.len() / 5 ==> words_of(#[trigger] fields[5 * k + 1]).len() == 1 && (k > 0
            ==> words_of(fields[5 * k + 1])[0] == fields[5 * (k - 1)]) {
        assert forall|k: int| 0 <= k < n implies logged_commit(all, #[trigger] (5 * k)) is Ok by {
            assert(words_of(fields[5 * k + 1]).len() == 1);
        }
        lemma_logged_ok(all, n);
    }
}

/// A text without the white space at its ends, or nothing where there is none.
pub open spec fn trimmed_or_nothing(s: Option<String>) -> Text {
    match s {
        Some(s) => trim(s@),
        None => Seq::empty(),
    }
}

proof fn lemma_records(raw: Seq<RawCommit>, messages: Seq<Text>)
    ensures
        records_of(raw, messages) is Ok <==> forall|i: int|
            0 <= i < raw.len() ==> (#[trigger] raw[i]).parents@.len() == 1,
        records_of(raw, messages) is Ok ==> records_of(raw, messages)->Ok_0.len() == raw.len(),
        records_of(raw, messages) is Ok ==> forall|i: int|
            0 <= i < raw.len() ==> record_of(#[trigger] raw[i], messages[i]) == Ok::<
                RecordView,
                Text,
            >(records_of(raw, messages)->Ok_0[i]),
    decreases raw.len(),
{
    if raw.len() > 0 {
        let init = raw.drop_last();
        lemma_records(init, messages);
        let last = raw[raw.len() - 1];
        let all = records_of(raw, messages);
        if all is Ok {
            let before = records_of(init, messages)->Ok_0;
            assert forall|i: int| 0 <= i < raw.len() implies record_of(
                #[trigger] raw[i],
                messages[i],
            ) == Ok::<RecordView, Text>(all->Ok_0[i]) by {
                if i < init.len() {
                    assert(init[i] == raw[i]);
                    assert(all->Ok_0[i] == before[i]);
                }
            }
            assert forall|i: int| 0 <= i < raw.len() implies (
            #[trigger] raw[i]).parents@.len() == 1 by {
                if i < init.len() {
                    assert(init[i] == raw[i]);
                }
            }
        }
        if forall|i: int| 0 <= i < raw.len() ==> (#[trigger] raw[i]).parents@.len() == 1 {
            assert forall|i: int| 0 <= i < init.len() implies (
            #[trigger] init[i]).parents@.len() == 1 by {
                assert(init[i] == raw[i]);
            }
            assert(last.parents@.len() == 1);
        }
    }
}

/// The commits of a line are taken as they are: each with its id, its single parent, and
/// its subject, its body and its message without the white space at their ends. They are
/// taken exactly where each has a single parent, which is the commit before it.
pub proof fn law_lines_are_taken_as_they_are(
    raw: Seq<RawCommit>,
    messages: Seq<Text>,
    i: int,
)
    requires
        0 <= i < raw.len(),
    ensures
        line_of(raw, messages) is Ok <==> (forall|k: int|
            0 <= k < raw.len() ==> (#[trigger] raw[k]).parents@.len() == 1) && (forall|k: int|
            1 <= k < raw.len() ==> (#[trigger] raw[k]).parents@[0]@ == raw[k - 1].id@),
        line_of(raw, messages) matches Ok(records) ==> {
            &&& records.len() == raw.len()
            &&& records[i].rev == raw[i].id@
            &&& records[i].parent == raw[i].parents@[0]@
            &&& records[i].subject == trimmed_or_nothing(raw[i].summary)
            &&& records[i].body == trimmed_or_nothing(raw[i].body)
            &&& records[i].message == trim(messages[i])
        },
{
    lemma_records(raw, messages);
    if records_of(raw, messages) is Ok {
        let records = records_of(raw, messages)->Ok_0;
        assert forall|k: int| 0 <= k < raw.len() implies (#[trigger] raw[k]).id@ == records[k].rev
            && raw[k].parents@[0]@ == records[k].parent by {
            assert(record_of(raw[k], messages[k]) == Ok::<RecordView, Text>(records[k]));
        }
        assert(record_of(raw[i], messages[i]) == Ok::<RecordView, Text>(records[i]));
        if is_linear(records) {
            assert forall|k: int| 1 <= k < raw.len() implies (#[trigger] raw[k]).parents@[0]@
                == raw[k - 1].id@ by {
                assert(records[k].parent == records[k - 1].rev);
                assert(raw[k - 1].id@ == records[k - 1].rev);
            }
        }
        if forall|k: int|
            1 <= k < raw.len() ==> (#[trigger] raw[k]).parents@[0]@ == raw[k - 1].id@ {
            assert forall|k: int| 1 <= k < records.len() implies (#[trigger] records[k]).parent
                == records[k - 1].rev by {
                assert(raw[k].parents@[0]@ == raw[k - 1].id@);
                assert(raw[k - 1].id@ == records[k - 1].rev);
            }
        }
    }
}

/// A commit that is to be given an identity needs a prefix, and one that can name a branch.
pub proof fn law_untagged_commits_need_a_prefix(
    records: Seq<RecordView>,
    prefix: Option<Text>,
    remote: Seq<Text>,
    i: int,
)
    requires
        claims(messages(records)) is Ok,
        0 <= i < records.len(),
        identity(records[i].message) == Ok::<Option<Text>, Text>(None),
    ensures
        prefix is None ==> stack_of(records, prefix, remote) == Err::<Seq<StackCommitView>, Text>(
            "untagged commits require --prefix"@,
        ),
        prefix is Some && !is_branch_name(prefix->0) ==> stack_of(records, prefix, remote) == Err::<
            Seq<StackCommitView>,
            Text,
        >("invalid identity prefix: "@ + prefix->0),
{
    let all = messages(records);
    let done = claims(all)->Ok_0;
    lemma_claim_at(all, i);
    assert(all[i] == records[i].message);
    assert(done[i] is None);
    assert(done.contains(None));
}

proof fn lemma_claim_at(all: Seq<Text>, i: int)
    requires
        claims(all) is Ok,
        0 <= i < all.len(),
    ensures
        claims(all)->Ok_0.len() == all.len(),
        identity(all[i]) == Ok::<Option<Text>, Text>(claims(all)->Ok_0[i]),
    decreases all.len(),
{
    reveal_with_fuel(claims, 2);
    let init = all.drop_last();
    if i < init.len() {
        lemma_claim_at(init, i);
    } else if init.len() > 0 {
        lemma_claim_at(init, 0);
    }
}

/// The fork of a stack is the one that the address of the remote names.
pub proof fn law_forks_are_those_of_the_address(remote: Text, url: Text)
    ensures
        fork_at(remote, Some(url)) is Ok <==> owner_and_name(url) is Some,
        fork_at(remote, Some(url)) is Ok ==> fork_at(remote, Some(url)) == Ok::<Text, Text>(
            owner_and_name(url)->0,
        ),
        fork_at(remote, None) is Err,
{
}

} // verus!
