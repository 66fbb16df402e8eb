//! Giving each commit of a stack the branch that it is published as.

use crate::number::{decimal, law_decimal_is_parsed, parse, parsed, to_decimal};
use crate::order::views;
use crate::stack::identity::{
    body_without_identity, identity, identity_from_message, untagged,
};
use crate::stack::names::{is_branch_name, valid_branch_name};
use crate::stack::submit::{StackCommit, StackCommitView, IDENTITY_TRAILER};
use crate::text::{
    first_chars, head_of_text, maybe, same, strip_prefix, texts, trim, trimmed, without_prefix, Text,
};
use vstd::hash_set::StringHashSet;
use vstd::prelude::*;

verus! {

/// A commit as it is read from the repository.
pub struct RawCommit {
    pub id: String,
    pub parents: Vec<String>,
    pub message: Vec<u8>,
    pub summary: Option<String>,
    pub body: Option<String>,
}

/// A commit with a single parent.
#[derive(Debug)]
pub struct CommitRecord {
    pub rev: String,
    pub parent: String,
    pub subject: String,
    pub body: String,
    pub message: String,
}

/// What a `CommitRecord` holds.
#[verifier::ext_equal]
pub struct RecordView {
    pub rev: Text,
    pub parent: Text,
    pub subject: Text,
    pub body: Text,
    pub message: Text,
}

impl View for CommitRecord {
    type V = RecordView;

    open spec fn view(&self) -> RecordView {
        RecordView {
            rev: self.rev@,
            parent: self.parent@,
            subject: self.subject@,
            body: self.body@,
            message: self.message@,
        }
    }
}

/// What `String::from_utf8_lossy` makes of bytes.
pub uninterp spec fn lossy_text(bytes: Seq<u8>) -> Seq<char>;

/// `String::from_utf8_lossy`: the text that bytes encode. Bytes that are valid
/// UTF-8 give exactly the text that they encode.
#[verifier::external_body]
pub(crate) fn lossy(bytes: &Vec<u8>) -> (r: String)
    ensures
        r@ == lossy_text(bytes@),
        forall|s: Seq<char>| #[trigger] vstd::utf8::encode_utf8(s) == bytes@ ==> r@ == s,
{
    String::from_utf8_lossy(bytes).into_owned()
}

/// An optional text without the white space at its ends.
pub open spec fn trim_maybe(s: Option<Text>) -> Text {
    match s {
        Some(s) => trim(s),
        None => Seq::empty(),
    }
}

fn trimmed_option(s: &Option<String>) -> (r: String)
    ensures
        r@ == trim_maybe(maybe(*s)),
{
    match s {
        Some(s) => trimmed(s.as_str()),
        None => {
            let r = String::new();
            assert(r@ =~= Seq::<char>::empty());
            r
        },
    }
}

/// The record of a commit with the message `message`.
pub open spec fn record_of(raw: RawCommit, message: Text) -> Result<RecordView, Text> {
    if raw.parents.len() != 1 {
        Err(
            "commit "@ + first_chars(raw.id@, 12) + " has "@ + decimal(raw.parents.len() as nat)
                + " parents; forkstack requires a linear stack"@,
        )
    } else {
        Ok(
            RecordView {
                rev: raw.id@,
                parent: raw.parents@[0]@,
                subject: trim_maybe(maybe(raw.summary)),
                body: trim_maybe(maybe(raw.body)),
                message: trim(message),
            },
        )
    }
}

/// What a record or an error holds.
pub open spec fn record_result(r: Result<CommitRecord, String>) -> Result<RecordView, Text> {
    match r {
        Ok(record) => Ok(record@),
        Err(error) => Err(error@),
    }
}

/// The record of a commit whose message is known as text. A commit of a stack has
/// a single parent.
pub fn record_with_message(raw: &RawCommit, message: &str) -> (r: Result<CommitRecord, String>)
    ensures
        record_result(r) == record_of(*raw, message@),
{
    if raw.parents.len() != 1 {
        let count = to_decimal(raw.parents.len() as u64);
        return Err(
            "commit ".to_owned().concat(head_of_text(raw.id.as_str(), 12).as_str()).concat(
                " has ",
            ).concat(count.as_str()).concat(" parents; forkstack requires a linear stack"),
        );
    }
    Ok(
        CommitRecord {
            rev: raw.id.clone(),
            parent: raw.parents[0].clone(),
            subject: trimmed_option(&raw.summary),
            body: trimmed_option(&raw.body),
            message: trimmed(message),
        },
    )
}

/// The record of a commit.
pub fn commit_record(raw: &RawCommit) -> (r: Result<CommitRecord, String>)
    ensures
        record_result(r) == record_of(*raw, lossy_text(raw.message@)),
{
    record_with_message(raw, lossy(&raw.message).as_str())
}

/// Each commit but the first has the one before it as its parent.
pub open spec fn is_linear(records: Seq<RecordView>) -> bool {
    forall|i: int| 1 <= i < records.len() ==> (#[trigger] records[i]).parent == records[i - 1].rev
}

/// Checks that the commits form a line.
pub fn validate_linear_records(records: &Vec<CommitRecord>) -> (r: Result<(), String>)
    ensures
        match r {
            Ok(()) => is_linear(views(records@)),
            Err(error) => !is_linear(views(records@)) && error@
                == "forkstack requires a linear stack"@,
        },
{
    let ghost all = views(records@);
    let mut i: usize = 1;
    while i < records.len()
        invariant
            1 <= i,
            all == views(records@),
            forall|j: int|
                1 <= j < i && j < records.len() ==> (#[trigger] all[j]).parent == all[j - 1].rev,
        decreases records.len() - i,
    {
        if !same(records[i].parent.as_str(), records[i - 1].rev.as_str()) {
            assert(all[i as int].parent != all[i - 1].rev);
            return Err("forkstack requires a linear stack".to_owned());
        }
        assert(all[i as int].parent == all[i - 1].rev);
        i = i + 1;
    }
    Ok(())
}

/// The identities that the messages of a stack give. An identity that is given
/// twice, or that cannot name a branch, is an error.
pub open spec fn claims(messages: Seq<Text>) -> Result<Seq<Option<Text>>, Text>
    decreases messages.len(),
{
    if messages.len() == 0 {
        Ok(Seq::empty())
    } else {
        match claims(messages.drop_last()) {
            Err(error) => Err(error),
            Ok(done) => match identity(messages.last()) {
                Err(error) => Err(error),
                Ok(None) => Ok(done.push(None)),
                Ok(Some(branch)) => if done.contains(Some(branch)) {
                    Err("duplicate "@ + IDENTITY_TRAILER@ + ": "@ + branch)
                } else if !is_branch_name(branch) {
                    Err("invalid "@ + IDENTITY_TRAILER@ + ": "@ + branch)
                } else {
                    Ok(done.push(Some(branch)))
                },
            },
        }
    }
}

/// The identities among `done`.
pub open spec fn claimed_names(done: Seq<Option<Text>>) -> Seq<Text>
    decreases done.len(),
{
    if done.len() == 0 {
        Seq::empty()
    } else {
        match done.last() {
            Some(branch) => claimed_names(done.drop_last()).push(branch),
            None => claimed_names(done.drop_last()),
        }
    }
}

/// The identity with a number.
pub open spec fn numbered(prefix: Text, n: nat) -> Text {
    prefix + "/"@ + decimal(n)
}

/// The number of an identity.
pub open spec fn number_of(branch: Text, prefix: Text) -> Option<u64> {
    match without_prefix(branch, prefix + "/"@) {
        Some(rest) => parsed(rest),
        None => None,
    }
}

/// The highest number among identities, or 0.
pub open spec fn highest(names: Seq<Text>, prefix: Text) -> nat
    decreases names.len(),
{
    if names.len() == 0 {
        0
    } else {
        let before = highest(names.drop_last(), prefix);
        match number_of(names.last(), prefix) {
            Some(n) => if n > before {
                n as nat
            } else {
                before
            },
            None => before,
        }
    }
}

/// How far the giving of identities has come.
#[verifier::ext_equal]
pub struct Assigned {
    /// The identities of the commits so far.
    pub branches: Seq<Text>,
    /// The identities that no other commit may take.
    pub taken: Set<Text>,
    /// The next number to give.
    pub next: nat,
}

/// The identities of the first `n` commits. A commit keeps the identity that its
/// message gives. Another takes the identity of its place in the stack if that is
/// known and no other commit has it, and else the next number.
pub open spec fn assigned(
    done: Seq<Option<Text>>,
    prefix: Text,
    known: Seq<Text>,
    n: nat,
) -> Assigned
    decreases n,
{
    if n == 0 {
        Assigned {
            branches: Seq::empty(),
            taken: claimed_names(done).to_set(),
            next: highest(known, prefix) + 1,
        }
    } else {
        let before = assigned(done, prefix, known, (n - 1) as nat);
        match done[n - 1] {
            Some(branch) => Assigned { branches: before.branches.push(branch), ..before },
            None => {
                let place = numbered(prefix, n);
                if known.contains(place) && !before.taken.contains(place) {
                    Assigned {
                        branches: before.branches.push(place),
                        taken: before.taken.insert(place),
                        next: before.next,
                    }
                } else {
                    let fresh = numbered(prefix, before.next);
                    Assigned {
                        branches: before.branches.push(fresh),
                        taken: before.taken.insert(fresh),
                        next: before.next + 1,
                    }
                }
            },
        }
    }
}

/// A record with its branch.
pub open spec fn stack_commit(record: RecordView, branch: Text, added: bool) -> StackCommitView {
    StackCommitView {
        rev: record.rev,
        parent: record.parent,
        branch,
        subject: record.subject,
        body: untagged(record.body),
        message: record.message,
        identity_added: added,
    }
}

/// The messages of records.
pub open spec fn messages(records: Seq<RecordView>) -> Seq<Text> {
    records.map_values(|record: RecordView| record.message)
}

/// The names that identities are chosen among.
pub open spec fn known_names(done: Seq<Option<Text>>, remote: Seq<Text>) -> Seq<Text> {
    claimed_names(done) + remote
}

/// The commits of a stack with their branches. `remote` are the identities that
/// the remote has under the prefix.
pub open spec fn stack_of(
    records: Seq<RecordView>,
    prefix: Option<Text>,
    remote: Seq<Text>,
) -> Result<Seq<StackCommitView>, Text> {
    match claims(messages(records)) {
        Err(error) => Err(error),
        Ok(done) => if !done.contains(None) {
            Ok(
                Seq::new(
                    records.len(),
                    |i: int| stack_commit(records[i], done[i]->0, false),
                ),
            )
        } else {
            match prefix {
                None => Err("untagged commits require --prefix"@),
                Some(prefix) => if !is_branch_name(prefix) {
                    Err("invalid identity prefix: "@ + prefix)
                } else {
                    let all = assigned(done, prefix, known_names(done, remote), records.len());
                    Ok(
                        Seq::new(
                            records.len(),
                            |i: int| stack_commit(records[i], all.branches[i], done[i] is None),
                        ),
                    )
                },
            }
        },
    }
}

/// Where identities are to be given, their numbers do not go beyond what can be
/// counted.
pub open spec fn numbers_fit(
    records: Seq<RecordView>,
    prefix: Option<Text>,
    remote: Seq<Text>,
) -> bool {
    match (claims(messages(records)), prefix) {
        (Ok(done), Some(prefix)) => done.contains(None) && is_branch_name(prefix) ==> assigned(
            done,
            prefix,
            known_names(done, remote),
            records.len(),
        ).next <= u64::MAX,
        _ => true,
    }
}

/// What optional strings hold.
pub open spec fn maybes(v: Seq<Option<String>>) -> Seq<Option<Text>> {
    v.map_values(|s: Option<String>| maybe(s))
}

/// What claims or an error hold.
pub open spec fn claims_result(r: Result<Vec<Option<String>>, String>) -> Result<
    Seq<Option<Text>>,
    Text,
> {
    match r {
        Ok(v) => Ok(maybes(v@)),
        Err(error) => Err(error@),
    }
}

/// A stage of `claims` that fails, fails the whole.
proof fn lemma_claims_fail(all: Seq<Text>, n: int, error: Text)
    requires
        0 <= n <= all.len(),
        claims(all.take(n)) == Err::<Seq<Option<Text>>, Text>(error),
    ensures
        claims(all) == Err::<Seq<Option<Text>>, Text>(error),
    decreases all.len() - n,
{
    if n < all.len() {
        assert(all.take(n + 1).drop_last() =~= all.take(n));
        lemma_claims_fail(all, n + 1, error);
    } else {
        assert(all.take(n) =~= all);
    }
}

/// An identity is among `done` when it is among its names.
proof fn lemma_claimed_names(done: Seq<Option<Text>>, branch: Text)
    ensures
        claimed_names(done).contains(branch) == done.contains(Some(branch)),
    decreases done.len(),
{
    if done.len() > 0 {
        let init = done.drop_last();
        lemma_claimed_names(init, branch);
        assert(done =~= init.push(done.last()));
        vstd::seq_lib::lemma_seq_contains_after_push(init, done.last(), Some(branch));
        match done.last() {
            Some(last) => {
                vstd::seq_lib::lemma_seq_contains_after_push(claimed_names(init), last, branch);
            },
            None => {},
        }
    }
}

/// The identities that the messages of records give.
fn record_claims(records: &Vec<CommitRecord>) -> (r: Result<Vec<Option<String>>, String>)
    ensures
        claims_result(r) == claims(messages(views(records@))),
        match r {
            Ok(v) => v.len() == records.len(),
            Err(_) => true,
        },
{
    let ghost all = messages(views(records@));
    let mut seen = StringHashSet::new();
    let mut done: Vec<Option<String>> = Vec::new();
    let mut i: usize = 0;
    proof {
        assert(all.take(0) =~= Seq::<Text>::empty());
        assert(maybes(done@) =~= Seq::<Option<Text>>::empty());
    }
    while i < records.len()
        invariant
            i <= records.len(),
            all == messages(views(records@)),
            done.len() == i,
            claims(all.take(i as int)) == Ok::<Seq<Option<Text>>, Text>(maybes(done@)),
            forall|b: Text| #[trigger] seen@.contains(b) <==> maybes(done@).contains(Some(b)),
        decreases records.len() - i,
    {
        let ghost was = maybes(done@);
        assert(all.take(i + 1).drop_last() =~= all.take(i as int));
        assert(all.take(i + 1).last() == records@[i as int].message@);
        let found = match identity_from_message(records[i].message.as_str()) {
            Ok(found) => found,
            Err(error) => {
                proof {
                    lemma_claims_fail(all, i + 1, error@);
                }
                return Err(error);
            },
        };
        match &found {
            Some(branch) => {
                if !seen.insert(branch.clone()) {
                    let error = "duplicate ".to_owned().concat(IDENTITY_TRAILER).concat(
                        ": ",
                    ).concat(branch.as_str());
                    proof {
                        lemma_claims_fail(all, i + 1, error@);
                    }
                    return Err(error);
                }
                if !valid_branch_name(branch.as_str()) {
                    let error = "invalid ".to_owned().concat(IDENTITY_TRAILER).concat(
                        ": ",
                    ).concat(branch.as_str());
                    proof {
                        lemma_claims_fail(all, i + 1, error@);
                    }
                    return Err(error);
                }
            },
            None => {},
        }
        done.push(found);
        proof {
            assert(maybes(done@) =~= was.push(maybe(found)));
            assert forall|b: Text| #[trigger] seen@.contains(b) <==> maybes(done@).contains(
                Some(b),
            ) by {
                vstd::seq_lib::lemma_seq_contains_after_push(was, maybe(found), Some(b));
            }
        }
        i = i + 1;
    }
    assert(all.take(all.len() as int) =~= all);
    Ok(done)
}

/// Whether some of the claims are missing.
fn any_unclaimed(done: &Vec<Option<String>>) -> (r: bool)
    ensures
        r == maybes(done@).contains(None),
{
    let mut i: usize = 0;
    while i < done.len()
        invariant
            i <= done.len(),
            forall|j: int| 0 <= j < i ==> (#[trigger] done@[j]) is Some,
        decreases done.len() - i,
    {
        if done[i].is_none() {
            assert(maybes(done@)[i as int] == None::<Text>);
            return true;
        }
        i = i + 1;
    }
    proof {
        if maybes(done@).contains(None) {
            let j = maybes(done@).index_of(None);
            assert(done@[j] is Some);
        }
    }
    false
}

/// Whether giving the commits of a stack their branches depends on the identities
/// that the remote has under the prefix.
pub open spec fn remote_matters(records: Seq<RecordView>, prefix: Option<Text>) -> bool {
    match (claims(messages(records)), prefix) {
        (Ok(done), Some(prefix)) => done.contains(None) && is_branch_name(prefix),
        _ => false,
    }
}

/// Whether giving the commits of a stack their branches depends on the identities
/// that the remote has under the prefix.
pub fn needs_remote_identities(records: &Vec<CommitRecord>, prefix: &Option<String>) -> (r: bool)
    ensures
        r == remote_matters(views(records@), maybe(*prefix)),
{
    match record_claims(records) {
        Err(_) => false,
        Ok(done) => match prefix {
            None => false,
            Some(prefix) => any_unclaimed(&done) && valid_branch_name(prefix.as_str()),
        },
    }
}

/// Where the remote's identities under a prefix are.
pub open spec fn identity_root(remote: Text, prefix: Text) -> Text {
    "refs/remotes/"@ + remote + "/fs-head/"@ + prefix + "/"@
}

/// Where the remote's identities under a prefix are.
pub fn remote_identity_root(remote: &str, prefix: &str) -> (r: String)
    ensures
        r@ == identity_root(remote@, prefix@),
{
    "refs/remotes/".to_owned().concat(remote).concat("/fs-head/").concat(prefix).concat("/")
}

/// The identities that the names of refs give.
pub open spec fn identities_at(names: Seq<Option<Text>>, remote: Text, prefix: Text) -> Seq<Text>
    decreases names.len(),
{
    if names.len() == 0 {
        Seq::empty()
    } else {
        let before = identities_at(names.drop_last(), remote, prefix);
        match names.last() {
            Some(name) => match without_prefix(name, identity_root(remote, prefix)) {
                Some(rest) => before.push(prefix + "/"@ + rest),
                None => before,
            },
            None => before,
        }
    }
}

/// The identities that the names of refs give.
pub fn remote_identities(names: &Vec<Option<String>>, remote: &str, prefix: &str) -> (r: Vec<String>)
    ensures
        texts(r@) == identities_at(maybes(names@), remote@, prefix@),
{
    let ghost all = maybes(names@);
    let root = remote_identity_root(remote, prefix);
    let mut r: Vec<String> = Vec::new();
    let mut i: usize = 0;
    assert(all.take(0) =~= Seq::<Option<Text>>::empty());
    assert(texts(r@) =~= Seq::<Text>::empty());
    while i < names.len()
        invariant
            i <= names.len(),
            all == maybes(names@),
            root@ == identity_root(remote@, prefix@),
            texts(r@) == identities_at(all.take(i as int), remote@, prefix@),
        decreases names.len() - i,
    {
        assert(all.take(i + 1).drop_last() =~= all.take(i as int));
        assert(all.take(i + 1).last() == maybe(names@[i as int]));
        match &names[i] {
            Some(name) => match strip_prefix(name.as_str(), root.as_str()) {
                Some(rest) => {
                    let ghost was = texts(r@);
                    let value = prefix.to_owned().concat("/").concat(rest.as_str());
                    r.push(value);
                    assert(texts(r@) =~= was.push(value@));
                },
                None => {},
            },
            None => {},
        }
        i = i + 1;
    }
    assert(all.take(all.len() as int) =~= all);
    r
}

/// The highest number among identities, or 0.
pub fn highest_number(names: &Vec<String>, prefix: &str) -> (r: u64)
    ensures
        r == highest(texts(names@), prefix@),
{
    let ghost all = texts(names@);
    let start = prefix.to_owned().concat("/");
    let mut best: u64 = 0;
    let mut i: usize = 0;
    assert(all.take(0) =~= Seq::<Text>::empty());
    while i < names.len()
        invariant
            i <= names.len(),
            all == texts(names@),
            start@ == prefix@ + "/"@,
            best == highest(all.take(i as int), prefix@),
        decreases names.len() - i,
    {
        assert(all.take(i + 1).drop_last() =~= all.take(i as int));
        assert(all.take(i + 1).last() == names@[i as int]@);
        match strip_prefix(names[i].as_str(), start.as_str()) {
            Some(rest) => match parse(rest.as_str()) {
                Some(n) => {
                    if n > best {
                        best = n;
                    }
                },
                None => {},
            },
            None => {},
        }
        i = i + 1;
    }
    assert(all.take(all.len() as int) =~= all);
    best
}

/// The identities among claims.
fn claimed_list(done: &Vec<Option<String>>) -> (r: Vec<String>)
    ensures
        texts(r@) == claimed_names(maybes(done@)),
{
    let ghost all = maybes(done@);
    let mut r: Vec<String> = Vec::new();
    let mut i: usize = 0;
    assert(all.take(0) =~= Seq::<Option<Text>>::empty());
    assert(texts(r@) =~= Seq::<Text>::empty());
    while i < done.len()
        invariant
            i <= done.len(),
            all == maybes(done@),
            texts(r@) == claimed_names(all.take(i as int)),
        decreases done.len() - i,
    {
        assert(all.take(i + 1).drop_last() =~= all.take(i as int));
        assert(all.take(i + 1).last() == maybe(done@[i as int]));
        match &done[i] {
            Some(branch) => {
                let ghost was = texts(r@);
                r.push(branch.clone());
                assert(texts(r@) =~= was.push(branch@));
            },
            None => {},
        }
        i = i + 1;
    }
    assert(all.take(all.len() as int) =~= all);
    r
}

/// The set of the strings of a list.
pub(crate) fn set_of(v: &Vec<String>) -> (r: StringHashSet)
    ensures
        r@ == texts(v@).to_set(),
{
    let mut r = StringHashSet::new();
    let ghost all = texts(v@);
    let mut i: usize = 0;
    assert(r@ =~= all.take(0).to_set());
    while i < v.len()
        invariant
            i <= v.len(),
            all == texts(v@),
            r@ == all.take(i as int).to_set(),
        decreases v.len() - i,
    {
        let ghost was = all.take(i as int);
        r.insert(v[i].clone());
        proof {
            assert(all.take(i + 1) =~= was.push(all[i as int]));
            assert forall|x: Text| all.take(i + 1).to_set().contains(x) == r@.contains(x) by {
                vstd::seq_lib::lemma_seq_contains_after_push(was, all[i as int], x);
            }
            assert(r@ =~= all.take(i + 1).to_set());
        }
        i = i + 1;
    }
    assert(all.take(all.len() as int) =~= all);
    r
}

/// The numbers given only grow.
proof fn lemma_next_grows(
    done: Seq<Option<Text>>,
    prefix: Text,
    known: Seq<Text>,
    a: nat,
    b: nat,
)
    requires
        a <= b,
    ensures
        assigned(done, prefix, known, a).next <= assigned(done, prefix, known, b).next,
    decreases b,
{
    if a < b {
        lemma_next_grows(done, prefix, known, a, (b - 1) as nat);
    }
}

/// Gives each commit its identity, if there are numbers for all that are to be given one.
fn assign(done: &Vec<Option<String>>, prefix: &str, remote: &Vec<String>) -> (r: Option<
    Vec<String>,
>)
    ensures
        ({
            let all = assigned(
                maybes(done@),
                prefix@,
                known_names(maybes(done@), texts(remote@)),
                done@.len(),
            );
            match r {
                Some(branches) => {
                    &&& all.next <= u64::MAX
                    &&& texts(branches@) == all.branches
                    &&& branches.len() == done.len()
                },
                None => all.next > u64::MAX,
            }
        }),
{
    let ghost all = maybes(done@);
    let ghost known = known_names(all, texts(remote@));
    let claimed = claimed_list(done);
    let mut taken = set_of(&claimed);
    let mut names = claimed;
    let mut more = crate::order::copy(remote);
    let ghost parts = (texts(names@), texts(more@));
    names.append(&mut more);
    assert(texts(names@) =~= parts.0 + parts.1);
    let known_set = set_of(&names);
    let highest = highest_number(&names, prefix);
    proof {
        lemma_next_grows(all, prefix@, known, 0, done@.len());
    }
    if highest == u64::MAX {
        return None;
    }
    let mut next: u64 = highest + 1;
    let mut r: Vec<String> = Vec::new();
    let mut i: usize = 0;
    assert(texts(r@) =~= Seq::<Text>::empty());
    while i < done.len()
        invariant
            i <= done.len(),
            all == maybes(done@),
            known == known_names(maybes(done@), texts(remote@)),
            r.len() == i,
            known_set@ == known.to_set(),
            ({
                let now = assigned(all, prefix@, known, i as nat);
                &&& texts(r@) == now.branches
                &&& taken@ == now.taken
                &&& next == now.next
            }),
        decreases done.len() - i,
    {
        let ghost was = texts(r@);
        proof {
            lemma_next_grows(all, prefix@, known, (i + 1) as nat, done@.len());
            assert(all[i as int] == maybe(done@[i as int]));
        }
        match &done[i] {
            Some(branch) => {
                r.push(branch.clone());
                assert(texts(r@) =~= was.push(branch@));
            },
            None => {
                let place = prefix.to_owned().concat("/").concat(
                    to_decimal(i as u64 + 1).as_str(),
                );
                let branch = if known_set.contains(place.as_str()) && !taken.contains(
                    place.as_str(),
                ) {
                    place
                } else {
                    if next == u64::MAX {
                        return None;
                    }
                    let fresh = prefix.to_owned().concat("/").concat(to_decimal(next).as_str());
                    next = next + 1;
                    fresh
                };
                taken.insert(branch.clone());
                r.push(branch);
                assert(texts(r@) =~= was.push(branch@));
            },
        }
        i = i + 1;
    }
    Some(r)
}

/// Whether there are numbers for all commits of a stack that are to be given identities.
pub fn can_number(
    records: &Vec<CommitRecord>,
    prefix: &Option<String>,
    remote: &Vec<String>,
) -> (r: bool)
    ensures
        r == numbers_fit(views(records@), maybe(*prefix), texts(remote@)),
{
    let done = match record_claims(records) {
        Ok(done) => done,
        Err(_) => {
            return true;
        },
    };
    match prefix {
        None => true,
        Some(prefix) => !any_unclaimed(&done) || !valid_branch_name(prefix.as_str()) || assign(
            &done,
            prefix.as_str(),
            remote,
        ).is_some(),
    }
}

/// What the commits of a stack or an error hold.
pub open spec fn stack_result(r: Result<Vec<StackCommit>, String>) -> Result<
    Seq<StackCommitView>,
    Text,
> {
    match r {
        Ok(v) => Ok(views(v@)),
        Err(error) => Err(error@),
    }
}

/// Gives each commit of a stack the branch that it is published as.
pub fn assign_records(
    records: Vec<CommitRecord>,
    prefix: &Option<String>,
    remote: &Vec<String>,
) -> (r: Result<Vec<StackCommit>, String>)
    requires
        numbers_fit(views(records@), maybe(*prefix), texts(remote@)),
    ensures
        stack_result(r) == stack_of(views(records@), maybe(*prefix), texts(remote@)),
{
    let ghost all = views(records@);
    let done = match record_claims(&records) {
        Ok(done) => done,
        Err(error) => {
            return Err(error);
        },
    };
    let ghost claimed = maybes(done@);
    let branches = if !any_unclaimed(&done) {
        let r = claimed_list(&done);
        proof {
            lemma_all_claimed(claimed);
        }
        r
    } else {
        match prefix {
            None => {
                return Err("untagged commits require --prefix".to_owned());
            },
            Some(prefix) => {
                if !valid_branch_name(prefix.as_str()) {
                    return Err("invalid identity prefix: ".to_owned().concat(prefix.as_str()));
                }
                match assign(&done, prefix.as_str(), remote) {
                    Some(branches) => branches,
                    None => {
                        assert(false);
                        Vec::new()
                    },
                }
            },
        }
    };
    let ghost names = texts(branches@);
    let mut r: Vec<StackCommit> = Vec::new();
    let mut i: usize = 0;
    while i < records.len()
        invariant
            i <= records.len(),
            r.len() == i,
            all == views(records@),
            names == texts(branches@),
            claimed == maybes(done@),
            branches.len() == records.len(),
            done.len() == records.len(),
            forall|j: int|
                0 <= j < i ==> (#[trigger] r@[j])@ == stack_commit(
                    all[j],
                    names[j],
                    claimed[j] is None,
                ),
        decreases records.len() - i,
    {
        let record = &records[i];
        let commit = StackCommit {
            rev: record.rev.clone(),
            parent: record.parent.clone(),
            branch: branches[i].clone(),
            subject: record.subject.clone(),
            body: body_without_identity(record.body.as_str()),
            message: record.message.clone(),
            identity_added: done[i].is_none(),
        };
        assert(all[i as int] == record@);
        assert(names[i as int] == branches@[i as int]@);
        assert(claimed[i as int] == maybe(done@[i as int]));
        assert(commit@ == stack_commit(all[i as int], names[i as int], claimed[i as int] is None));
        r.push(commit);
        i = i + 1;
    }
    proof {
        let wanted = stack_of(all, maybe(*prefix), texts(remote@))->Ok_0;
        assert forall|j: int| 0 <= j < all.len() implies views(r@)[j] == wanted[j] by {
            assert(r@[j]@ == stack_commit(all[j], names[j], claimed[j] is None));
            if !claimed.contains(None) {
                assert(claimed.contains(claimed[j]));
            }
        }
        assert(views(r@) =~= wanted);
    }
    Ok(r)
}

/// Where every commit has an identity, the identities are the claims.
proof fn lemma_all_claimed(done: Seq<Option<Text>>)
    requires
        !done.contains(None),
    ensures
        claimed_names(done).len() == done.len(),
        forall|i: int| 0 <= i < done.len() ==> Some(#[trigger] claimed_names(done)[i]) == done[i],
    decreases done.len(),
{
    if done.len() > 0 {
        let init = done.drop_last();
        assert(done.contains(done.last()));
        if init.contains(None) {
            let i = init.index_of(None);
            assert(done[i] == None::<Text>);
        }
        lemma_all_claimed(init);
        assert forall|i: int| 0 <= i < done.len() implies Some(#[trigger] claimed_names(done)[i])
            == done[i] by {
            if i < init.len() {
                assert(claimed_names(done)[i] == claimed_names(init)[i]);
            }
        }
    }
}

/// No identity is claimed twice.
pub proof fn lemma_claims_distinct(all: Seq<Text>)
    requires
        claims(all) is Ok,
    ensures
        claims(all)->Ok_0.len() == all.len(),
        forall|i: int, j: int|
            0 <= i < j < all.len() && claims(all)->Ok_0[i] is Some ==> #[trigger] claims(
                all,
            )->Ok_0[i] != #[trigger] claims(all)->Ok_0[j],
        forall|i: int|
            0 <= i < all.len() ==> Ok::<Option<Text>, Text>(#[trigger] claims(all)->Ok_0[i])
                == identity(all[i]),
    decreases all.len(),
{
    if all.len() > 0 {
        let init = all.drop_last();
        lemma_claims_distinct(init);
        let before = claims(init)->Ok_0;
        let done = claims(all)->Ok_0;
        assert(done == before.push(done.last()));
        assert forall|i: int, j: int|
            0 <= i < j < all.len() && done[i] is Some implies #[trigger] done[i]
            != #[trigger] done[j] by {
            assert(before[i] == done[i]);
            if j < before.len() {
                assert(before[j] == done[j]);
            } else if done[i] == done[j] {
                assert(before.contains(done[j]));
            }
        }
        assert forall|i: int| 0 <= i < all.len() implies Ok::<Option<Text>, Text>(
            #[trigger] done[i],
        ) == identity(all[i]) by {
            if i < before.len() {
                assert(before[i] == done[i]);
                assert(init[i] == all[i]);
            }
        }
    }
}

/// A numbered identity has its number.
proof fn lemma_numbered(prefix: Text, n: u64)
    ensures
        number_of(numbered(prefix, n as nat), prefix) == Some(n),
{
    let start = prefix + "/"@;
    let whole = numbered(prefix, n as nat);
    assert(whole.subrange(0, start.len() as int) =~= start);
    assert(whole.skip(start.len() as int) =~= decimal(n as nat));
    law_decimal_is_parsed(n);
}

/// No number among identities is above the highest.
proof fn lemma_highest(names: Seq<Text>, prefix: Text, name: Text)
    requires
        names.contains(name),
        number_of(name, prefix) is Some,
    ensures
        number_of(name, prefix)->0 <= highest(names, prefix),
    decreases names.len(),
{
    if names.last() != name {
        let i = names.index_of(name);
        assert(names.drop_last()[i] == name);
        lemma_highest(names.drop_last(), prefix, name);
    }
}

/// What holds while identities are given.
spec fn assigned_well(
    done: Seq<Option<Text>>,
    prefix: Text,
    known: Seq<Text>,
    n: nat,
) -> bool {
    let now = assigned(done, prefix, known, n);
    let claimed = claimed_names(done);
    &&& now.branches.len() == n
    &&& now.branches.no_duplicates()
    &&& now.next > highest(known, prefix)
    &&& forall|b: Text| #[trigger] claimed.contains(b) ==> now.taken.contains(b)
    &&& forall|i: int| 0 <= i < n ==> now.taken.contains(#[trigger] now.branches[i])
    &&& forall|i: int|
        0 <= i < n ==> (match done[i] {
            Some(b) => #[trigger] now.branches[i] == b,
            None => !claimed.contains(now.branches[i]),
        })
    &&& forall|b: Text| #[trigger]
        now.taken.contains(b) ==> known.contains(b) || exists|k: nat|
            highest(known, prefix) < k < now.next && b == #[trigger] numbered(prefix, k)
}

proof fn lemma_assigned(
    done: Seq<Option<Text>>,
    prefix: Text,
    known: Seq<Text>,
    n: nat,
)
    requires
        n <= done.len(),
        forall|i: int, j: int|
            0 <= i < j < done.len() && done[i] is Some ==> #[trigger] done[i] != #[trigger] done[j],
        forall|b: Text| #[trigger] claimed_names(done).contains(b) ==> known.contains(b),
        assigned(done, prefix, known, n).next <= u64::MAX,
    ensures
        assigned_well(done, prefix, known, n),
    decreases n,
{
    let now = assigned(done, prefix, known, n);
    let claimed = claimed_names(done);
    if n > 0 {
        let before = assigned(done, prefix, known, (n - 1) as nat);
        lemma_next_grows(done, prefix, known, (n - 1) as nat, n);
        lemma_assigned(done, prefix, known, (n - 1) as nat);
        let new = now.branches.last();
        assert(now.branches == before.branches.push(new));
        match done[n - 1] {
            Some(branch) => {
                lemma_claimed_names(done, branch);
                assert(done.contains(Some(branch)));
                assert forall|i: int| 0 <= i < n - 1 implies #[trigger] before.branches[i]
                    != branch by {
                    match done[i] {
                        Some(b) => {
                            assert(done[i] != done[n - 1]);
                        },
                        None => {},
                    }
                }
            },
            None => {
                let place = numbered(prefix, n);
                if known.contains(place) && !before.taken.contains(place) {
                } else {
                    lemma_numbered(prefix, before.next as u64);
                    if known.contains(new) {
                        lemma_highest(known, prefix, new);
                    }
                    if before.taken.contains(new) {
                        let k = choose|k: nat|
                            highest(known, prefix) < k < before.next && new == #[trigger] numbered(
                                prefix,
                                k,
                            );
                        lemma_numbered(prefix, k as u64);
                    }
                }
                assert(!before.taken.contains(new));
            },
        }
        assert(!before.branches.contains(new));
        assert forall|i: int| 0 <= i < n implies now.taken.contains(#[trigger] now.branches[i]) by {
            if i < n - 1 {
                assert(now.branches[i] == before.branches[i]);
            }
        }
        assert forall|i: int| 0 <= i < n implies (match done[i] {
            Some(b) => #[trigger] now.branches[i] == b,
            None => !claimed.contains(now.branches[i]),
        }) by {
            if i < n - 1 {
                assert(now.branches[i] == before.branches[i]);
            }
        }
        assert forall|b: Text| #[trigger] now.taken.contains(b) implies known.contains(b) || exists|
            k: nat,
        |
            highest(known, prefix) < k < now.next && b == #[trigger] numbered(prefix, k) by {
            if before.taken.contains(b) {
                if !known.contains(b) {
                    let k = choose|k: nat|
                        highest(known, prefix) < k < before.next && b == #[trigger] numbered(
                            prefix,
                            k,
                        );
                    assert(highest(known, prefix) < k < now.next);
                }
            } else if !known.contains(b) {
                assert(b == numbered(prefix, before.next));
            }
        }
    } else {
        assert forall|b: Text| #[trigger] now.taken.contains(b) implies known.contains(b) by {
            assert(claimed.contains(b));
        }
    }
}

/// The commits of a stack have different branches. A commit whose message gives an
/// identity keeps it, wherever it is in the stack; exactly the others are given
/// one. Nothing else of a commit changes but that its body loses its identity.
pub proof fn law_stack_identities(
    records: Seq<RecordView>,
    prefix: Option<Text>,
    remote: Seq<Text>,
    stack: Seq<StackCommitView>,
)
    requires
        numbers_fit(records, prefix, remote),
        stack_of(records, prefix, remote) == Ok::<Seq<StackCommitView>, Text>(stack),
    ensures
        stack.len() == records.len(),
        forall|i: int, j: int|
            0 <= i < j < stack.len() ==> (#[trigger] stack[i]).branch != (
            #[trigger] stack[j]).branch,
        forall|i: int|
            0 <= i < stack.len() ==> {
                &&& identity(records[i].message) == Ok::<Option<Text>, Text>(
                    if (#[trigger] stack[i]).identity_added {
                        None
                    } else {
                        Some(stack[i].branch)
                    },
                )
                &&& stack[i].rev == records[i].rev
                &&& stack[i].parent == records[i].parent
                &&& stack[i].subject == records[i].subject
                &&& stack[i].message == records[i].message
                &&& stack[i].body == untagged(records[i].body)
            },
{
    let all = messages(records);
    lemma_claims_distinct(all);
    let done = claims(all)->Ok_0;
    let known = known_names(done, remote);
    if done.contains(None) {
        let p = prefix->0;
        assert forall|b: Text| #[trigger] claimed_names(done).contains(b) implies known.contains(b) by {
            let i = claimed_names(done).index_of(b);
            assert(known[i] == b);
        }
        lemma_assigned(done, p, known, records.len());
        let now = assigned(done, p, known, records.len());
        assert forall|i: int| 0 <= i < stack.len() implies #[trigger] stack[i] == stack_commit(
            records[i],
            now.branches[i],
            done[i] is None,
        ) by {}
        assert forall|i: int, j: int| 0 <= i < j < stack.len() implies (#[trigger] stack[i]).branch
            != (#[trigger] stack[j]).branch by {
            assert(now.branches[i] != now.branches[j]);
        }
        assert forall|i: int| 0 <= i < stack.len() implies identity(records[i].message) == Ok::<
            Option<Text>,
            Text,
        >(
            if (#[trigger] stack[i]).identity_added {
                None
            } else {
                Some(stack[i].branch)
            },
        ) by {
            assert(all[i] == records[i].message);
            assert(Ok::<Option<Text>, Text>(done[i]) == identity(all[i]));
            assert(done[i] is Some ==> now.branches[i] == done[i]->0);
        }
    } else {
        assert forall|i: int| 0 <= i < stack.len() implies done[i] is Some && #[trigger] stack[i]
            == stack_commit(records[i], done[i]->0, false) && identity(records[i].message) == Ok::<
            Option<Text>,
            Text,
        >(Some(stack[i].branch)) by {
            assert(done.contains(done[i]));
            assert(all[i] == records[i].message);
            assert(Ok::<Option<Text>, Text>(done[i]) == identity(all[i]));
        }
        assert forall|i: int, j: int| 0 <= i < j < stack.len() implies (#[trigger] stack[i]).branch
            != (#[trigger] stack[j]).branch by {
            assert(done[i] != done[j]);
        }
    }
}

/// The records of commits that form a line, oldest first. `texts` are their
/// messages.
pub open spec fn records_of(raw: Seq<RawCommit>, messages: Seq<Text>) -> Result<
    Seq<RecordView>,
    Text,
>
    decreases raw.len(),
{
    if raw.len() == 0 {
        Ok(Seq::empty())
    } else {
        match records_of(raw.drop_last(), messages) {
            Err(error) => Err(error),
            Ok(done) => match record_of(raw.last(), messages[raw.len() - 1]) {
                Err(error) => Err(error),
                Ok(record) => Ok(done.push(record)),
            },
        }
    }
}

/// The records of a line of commits.
pub open spec fn line_of(raw: Seq<RawCommit>, messages: Seq<Text>) -> Result<
    Seq<RecordView>,
    Text,
> {
    match records_of(raw, messages) {
        Err(error) => Err(error),
        Ok(records) => if is_linear(records) {
            Ok(records)
        } else {
            Err("forkstack requires a linear stack"@)
        },
    }
}

/// The messages of commits, as text.
pub open spec fn message_texts(raw: Seq<RawCommit>) -> Seq<Text> {
    raw.map_values(|commit: RawCommit| lossy_text(commit.message@))
}

/// What records or an error hold.
pub open spec fn records_result(r: Result<Vec<CommitRecord>, String>) -> Result<
    Seq<RecordView>,
    Text,
> {
    match r {
        Ok(v) => Ok(views(v@)),
        Err(error) => Err(error@),
    }
}

/// A stage of `records_of` that fails, fails the whole.
proof fn lemma_records_fail(raw: Seq<RawCommit>, messages: Seq<Text>, n: int, error: Text)
    requires
        0 <= n <= raw.len(),
        records_of(raw.take(n), messages) == Err::<Seq<RecordView>, Text>(error),
    ensures
        records_of(raw, messages) == Err::<Seq<RecordView>, Text>(error),
    decreases raw.len() - n,
{
    if n < raw.len() {
        assert(raw.take(n + 1).drop_last() =~= raw.take(n));
        lemma_records_fail(raw, messages, n + 1, error);
    } else {
        assert(raw.take(n) =~= raw);
    }
}

/// The records of commits whose messages are known as text.
pub fn read_with_messages(raw: &Vec<RawCommit>, messages: &Vec<String>) -> (r: Result<
    Vec<CommitRecord>,
    String,
>)
    requires
        messages.len() == raw.len(),
    ensures
        records_result(r) == line_of(raw@, texts(messages@)),
{
    let ghost ms = texts(messages@);
    let mut records: Vec<CommitRecord> = Vec::new();
    let mut i: usize = 0;
    assert(raw@.take(0) =~= Seq::<RawCommit>::empty());
    assert(views(records@) =~= Seq::<RecordView>::empty());
    while i < raw.len()
        invariant
            i <= raw.len(),
            messages.len() == raw.len(),
            ms == texts(messages@),
            records_of(raw@.take(i as int), ms) == Ok::<Seq<RecordView>, Text>(views(records@)),
        decreases raw.len() - i,
    {
        assert(raw@.take(i + 1).drop_last() =~= raw@.take(i as int));
        assert(raw@.take(i + 1).last() == raw@[i as int]);
        assert(ms[i as int] == messages@[i as int]@);
        match record_with_message(&raw[i], messages[i].as_str()) {
            Ok(record) => {
                let ghost was = views(records@);
                records.push(record);
                assert(views(records@) =~= was.push(record@));
            },
            Err(error) => {
                proof {
                    lemma_records_fail(raw@, ms, i + 1, error@);
                }
                return Err(error);
            },
        }
        i = i + 1;
    }
    assert(raw@.take(raw@.len() as int) =~= raw@);
    match validate_linear_records(&records) {
        Ok(()) => Ok(records),
        Err(error) => Err(error),
    }
}

/// The records of the commits of a stack, oldest first.
pub fn read_commits(raw: &Vec<RawCommit>) -> (r: Result<Vec<CommitRecord>, String>)
    ensures
        records_result(r) == line_of(raw@, message_texts(raw@)),
{
    let mut messages: Vec<String> = Vec::new();
    let mut i: usize = 0;
    while i < raw.len()
        invariant
            i <= raw.len(),
            messages.len() == i,
            forall|j: int| 0 <= j < i ==> (#[trigger] messages@[j])@ == lossy_text(raw@[j].message@),
        decreases raw.len() - i,
    {
        messages.push(lossy(&raw[i].message));
        i = i + 1;
    }
    assert(texts(messages@) =~= message_texts(raw@));
    read_with_messages(raw, &messages)
}

/// The commits of a line with their branches.
pub open spec fn branches_of(
    records: Seq<RecordView>,
    prefix: Option<Text>,
    remote: Seq<Text>,
) -> Result<Seq<StackCommitView>, Text> {
    if is_linear(records) {
        stack_of(records, prefix, remote)
    } else {
        Err("forkstack requires a linear stack"@)
    }
}

/// Gives each commit of a line the branch that it is published as.
pub fn assign_branches(
    records: Vec<CommitRecord>,
    prefix: &Option<String>,
    remote: &Vec<String>,
) -> (r: Result<Vec<StackCommit>, String>)
    requires
        numbers_fit(views(records@), maybe(*prefix), texts(remote@)),
    ensures
        stack_result(r) == branches_of(views(records@), maybe(*prefix), texts(remote@)),
{
    match validate_linear_records(&records) {
        Ok(()) => assign_records(records, prefix, remote),
        Err(error) => Err(error),
    }
}

/// Some commit of a stack is given an identity exactly where the remote's identities matter.
pub proof fn lemma_added(
    records: Seq<RecordView>,
    prefix: Option<Text>,
    remote: Seq<Text>,
    stack: Seq<StackCommitView>,
)
    requires
        branches_of(records, prefix, remote) == Ok::<Seq<StackCommitView>, Text>(stack),
    ensures
        remote_matters(records, prefix) <==> exists|i: int|
            0 <= i < stack.len() && (#[trigger] stack[i]).identity_added,
{
    let done = claims(messages(records))->Ok_0;
    lemma_claims_len(messages(records));
    if done.contains(None) {
        let i = done.index_of(None);
        assert(stack[i].identity_added);
    }
}

/// There is a claim for each message.
proof fn lemma_claims_len(messages: Seq<Text>)
    ensures
        claims(messages) matches Ok(done) ==> done.len() == messages.len(),
    decreases messages.len(),
{
    if messages.len() > 0 {
        lemma_claims_len(messages.drop_last());
    }
}

} // verus!
