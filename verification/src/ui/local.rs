//! Putting the graph of a repository together from what Git itself prints of it.

use crate::dict::Dict;
use crate::integrations::git::{git_call, run, run_owned};
use crate::integrations::runner::{reply, Call, CommandRunner, Recorded};
use crate::order::{in_order, sort_strings, views};
use crate::split::{join, joined, lines, lines_of, split, split_on, words, words_of};
use crate::text::{chars_of, copy_option, maybe, same, string_of, texts, Text};
use crate::ui::load::{
    collect_walked, conflict_at, conflict_label, conflict_text, has_marker, lemma_bare, local_part,
    place_ref, remote_part, tag_part, walked_commits, walked_ids, WalkedCommit, WalkedView,
};
use crate::ui::model::{Commit, CommitView, Graph, GraphView, MovePlan, MoveView};
use crate::ui::rebase::{assert_clean, checked, done, operation_ref, removed, unit_result};
use crate::ui::todo::{shell_quote, shell_word};
use vstd::prelude::*;

verus! {

/// Whether a character ends a line.
pub open spec fn is_break(c: char) -> bool {
    c == '\n' || c == '\r'
}

/// `s` without the line ends at its end.
pub open spec fn breaks_trimmed_end(s: Text) -> Text
    decreases s.len(),
{
    if s.len() > 0 && is_break(s.last()) {
        breaks_trimmed_end(s.drop_last())
    } else {
        s
    }
}

/// `s` without the line ends at its start.
pub open spec fn breaks_trimmed_start(s: Text) -> Text
    decreases s.len(),
{
    if s.len() > 0 && is_break(s[0]) {
        breaks_trimmed_start(s.drop_first())
    } else {
        s
    }
}

/// `s` without the line ends at both ends.
pub open spec fn breaks_trimmed(s: Text) -> Text {
    breaks_trimmed_start(breaks_trimmed_end(s))
}

/// Computes `breaks_trimmed`.
fn trim_breaks(s: &str) -> (r: String)
    ensures
        r@ == breaks_trimmed(s@),
{
    let v = chars_of(s);
    let mut end: usize = v.len();
    assert(v@.take(v@.len() as int) =~= v@);
    while end > 0 && (v[end - 1] == '\n' || v[end - 1] == '\r')
        invariant
            end <= v.len(),
            breaks_trimmed_end(v@) == breaks_trimmed_end(v@.take(end as int)),
        decreases end,
    {
        assert(v@.take(end as int).drop_last() =~= v@.take(end - 1));
        end = end - 1;
    }
    let mut i: usize = 0;
    assert(v@.subrange(0, end as int) =~= v@.take(end as int));
    while i < end && (v[i] == '\n' || v[i] == '\r')
        invariant
            i <= end <= v.len(),
            breaks_trimmed_start(v@.take(end as int)) == breaks_trimmed_start(
                v@.subrange(i as int, end as int),
            ),
        decreases end - i,
    {
        assert(v@.subrange(i as int, end as int).drop_first() =~= v@.subrange(i + 1, end as int));
        i = i + 1;
    }
    string_of(&v, i, end)
}

/// What separates the records of the log.
pub const RECORD_END: char = '\x1e';

/// What separates the fields of a record.
pub const FIELD_END: char = '\x1f';

/// A commit from a record of the log: its id, its parents and its subject.
pub open spec fn record_commit(record: Text) -> Option<WalkedView> {
    let fields = split_on(record, FIELD_END);
    if fields.len() < 3 {
        None
    } else {
        Some(
            WalkedView {
                id: fields[0],
                parents: words_of(fields[1]),
                subject: joined(fields.skip(2), seq![FIELD_END]),
            },
        )
    }
}

/// The commits that records of the log tell of. Empty records tell of none.
pub open spec fn logged(records: Seq<Text>) -> Result<Seq<WalkedView>, Text>
    decreases records.len(),
{
    if records.len() == 0 {
        Ok(Seq::empty())
    } else {
        match logged(records.drop_last()) {
            Err(error) => Err(error),
            Ok(before) => {
                let record = breaks_trimmed(records.last());
                if record.len() == 0 {
                    Ok(before)
                } else {
                    match record_commit(record) {
                        Some(commit) => Ok(before.push(commit)),
                        None => Err("git log returned an unexpected record"@),
                    }
                }
            },
        }
    }
}

/// The commits that the log tells of.
pub open spec fn log_commits(log: Text) -> Result<Seq<WalkedView>, Text> {
    logged(split_on(log, RECORD_END))
}

/// Where a record fails, all of them do.
proof fn lemma_logged_fails(records: Seq<Text>, n: int, error: Text)
    requires
        0 <= n <= records.len(),
        logged(records.take(n)) == Err::<Seq<WalkedView>, Text>(error),
    ensures
        logged(records) == Err::<Seq<WalkedView>, Text>(error),
    decreases records.len() - n,
{
    if n < records.len() {
        assert(records.take(n + 1).drop_last() =~= records.take(n));
        lemma_logged_fails(records, n + 1, error);
    } else {
        assert(records.take(n) =~= records);
    }
}

/// The parts behind the first `n`.
fn parts_behind(parts: &Vec<String>, n: usize) -> (r: Vec<String>)
    requires
        n <= parts.len(),
    ensures
        texts(r@) == texts(parts@).skip(n as int),
{
    let mut r: Vec<String> = Vec::new();
    let mut i: usize = n;
    while i < parts.len()
        invariant
            n <= i <= parts.len(),
            r.len() == i - n,
            forall|j: int| 0 <= j < r.len() ==> (#[trigger] r@[j])@ == parts@[n + j]@,
        decreases parts.len() - i,
    {
        r.push(parts[i].clone());
        i = i + 1;
    }
    assert(texts(r@) =~= texts(parts@).skip(n as int));
    r
}

/// Computes `record_commit`.
fn read_record(record: &str) -> (r: Option<WalkedCommit>)
    ensures
        match r {
            Some(commit) => record_commit(record@) == Some(commit@),
            None => record_commit(record@) is None,
        },
{
    let fields = split(record, FIELD_END);
    let ghost all = split_on(record@, FIELD_END);
    assert(all.len() == fields.len());
    if fields.len() < 3 {
        return None;
    }
    assert(all[0] == fields@[0]@ && all[1] == fields@[1]@);
    let mut sep = String::new();
    sep.push(FIELD_END);
    assert(sep@ =~= seq![FIELD_END]);
    Some(
        WalkedCommit {
            id: fields[0].clone(),
            parents: words(fields[1].as_str()),
            subject: join(&parts_behind(&fields, 2), sep.as_str()),
        },
    )
}

/// The commits that the log tells of.
fn read_log(log: &str) -> (r: Result<Vec<WalkedCommit>, String>)
    ensures
        match r {
            Ok(walked) => log_commits(log@) == Ok::<Seq<WalkedView>, Text>(views(walked@)),
            Err(error) => log_commits(log@) == Err::<Seq<WalkedView>, Text>(error@),
        },
{
    let records = split(log, RECORD_END);
    let ghost all = split_on(log@, RECORD_END);
    let mut walked: Vec<WalkedCommit> = Vec::new();
    let mut i: usize = 0;
    assert(all.take(0) =~= Seq::<Text>::empty());
    assert(views(walked@) =~= Seq::<WalkedView>::empty());
    while i < records.len()
        invariant
            i <= records.len(),
            all == texts(records@),
            all == split_on(log@, RECORD_END),
            logged(all.take(i as int)) == Ok::<Seq<WalkedView>, Text>(views(walked@)),
        decreases records.len() - i,
    {
        let record = trim_breaks(records[i].as_str());
        assert(all.take(i + 1).drop_last() =~= all.take(i as int));
        assert(all.take(i + 1).last() == records@[i as int]@);
        if !record.as_str().is_empty() {
            match read_record(record.as_str()) {
                Some(commit) => {
                    let ghost was = views(walked@);
                    let ghost view = commit@;
                    walked.push(commit);
                    assert(views(walked@) =~= was.push(view));
                },
                None => {
                    let error = "git log returned an unexpected record".to_owned();
                    proof {
                        lemma_logged_fails(all, i + 1, error@);
                    }
                    return Err(error);
                },
            }
        }
        i = i + 1;
    }
    assert(all.take(all.len() as int) =~= all);
    Ok(walked)
}

/// Ids of commits, in their order.
fn ids_of(walked: &Vec<WalkedCommit>) -> (r: Vec<String>)
    ensures
        texts(r@) == walked_ids(views(walked@)),
{
    let ghost all = views(walked@);
    let mut order: Vec<String> = Vec::new();
    let mut i: usize = 0;
    while i < walked.len()
        invariant
            i <= walked.len(),
            all == views(walked@),
            order.len() == i,
            forall|j: int| 0 <= j < i ==> (#[trigger] order@[j])@ == walked_ids(all)[j],
        decreases walked.len() - i,
    {
        order.push(walked[i].id.clone());
        i = i + 1;
    }
    assert(texts(order@) =~= walked_ids(all));
    order
}

/// The commits of the log by their ids, and the ids in the order of the log.
pub fn parse_log(log: &str) -> (r: Result<(Dict<Commit>, Vec<String>), String>)
    ensures
        match r {
            Ok((commits, order)) => match log_commits(log@) {
                Ok(walked) => commits@ == walked_commits(walked) && texts(order@) == walked_ids(
                    walked,
                ),
                Err(_) => false,
            },
            Err(error) => log_commits(log@) == Err::<Seq<WalkedView>, Text>(error@),
        },
{
    match read_log(log) {
        Err(error) => Err(error),
        Ok(walked) => Ok((collect_walked(&walked), ids_of(&walked))),
    }
}

/// A ref in a line of a list: a commit and a name behind it.
pub open spec fn listed_ref(line: Text) -> Option<(Text, Text)> {
    let parts = split_on(line, '\0');
    if parts.len() < 2 {
        None
    } else {
        Some((parts[0], joined(parts.skip(1), seq!['\0'])))
    }
}

/// The refs in lines of a list. Lines of another form are passed over.
pub open spec fn listed_refs(lines: Seq<Text>) -> Seq<(Text, Text)>
    decreases lines.len(),
{
    if lines.len() == 0 {
        Seq::empty()
    } else {
        let before = listed_refs(lines.drop_last());
        match listed_ref(lines.last()) {
            Some(found) => before.push(found),
            None => before,
        }
    }
}

/// Computes `listed_ref`.
fn read_ref(line: &str) -> (r: Option<(String, String)>)
    ensures
        match r {
            Some(found) => listed_ref(line@) == Some(found@),
            None => listed_ref(line@) is None,
        },
{
    let parts = split(line, '\0');
    assert(split_on(line@, '\0').len() == parts.len());
    if parts.len() < 2 {
        return None;
    }
    let mut sep = String::new();
    sep.push('\0');
    assert(sep@ =~= seq!['\0']);
    let name = join(&parts_behind(&parts, 1), sep.as_str());
    assert(split_on(line@, '\0')[0] == parts@[0]@);
    Some((parts[0].clone(), name))
}

/// The names that refs at a commit have, as far as `part` gives one.
pub open spec fn names_of(
    refs: Seq<(Text, Text)>,
    id: Text,
    part: spec_fn(Text) -> Option<Text>,
) -> Seq<Text>
    decreases refs.len(),
{
    if refs.len() == 0 {
        Seq::empty()
    } else {
        let before = names_of(refs.drop_last(), id, part);
        if refs.last().0 == id && part(refs.last().1) is Some {
            before.push(part(refs.last().1)->0)
        } else {
            before
        }
    }
}

/// What Git prints of a repository.
pub struct LogSnapshot {
    /// The id of the commit that is checked out.
    pub head: String,
    /// The branch that is checked out.
    pub branch: Option<String>,
    /// What is in progress: kinds, and the ids of commits.
    pub markers: Vec<(String, String)>,
    /// The files in conflict, one on each line.
    pub files: String,
    /// The log.
    pub log: String,
    /// The refs, one on each line.
    pub refs: String,
}

/// What a `LogSnapshot` holds.
#[verifier::ext_equal]
pub struct LogSnapshotView {
    pub head: Text,
    pub branch: Option<Text>,
    pub markers: Seq<(Text, Text)>,
    pub files: Text,
    pub log: Text,
    pub refs: Text,
}

impl View for LogSnapshot {
    type V = LogSnapshotView;

    open spec fn view(&self) -> LogSnapshotView {
        LogSnapshotView {
            head: self.head@,
            branch: maybe(self.branch),
            markers: views(self.markers@),
            files: self.files@,
            log: self.log@,
            refs: self.refs@,
        }
    }
}

/// A commit with refs placed at it.
pub open spec fn with_refs(commit: CommitView, refs: Seq<(Text, Text)>, id: Text) -> CommitView {
    CommitView {
        local_refs: names_of(refs, id, local_part()),
        remote_refs: names_of(refs, id, remote_part()),
        tags: names_of(refs, id, tag_part()),
        ..commit
    }
}

/// A commit of the log with what points at it.
pub open spec fn log_decorated(s: LogSnapshotView, commit: CommitView, id: Text) -> CommitView {
    let refs = listed_refs(lines_of(s.refs));
    CommitView {
        local_refs: in_order(names_of(refs, id, local_part())),
        remote_refs: in_order(names_of(refs, id, remote_part())),
        tags: in_order(names_of(refs, id, tag_part())),
        is_head: id == s.head,
        conflict: conflict_at(id == s.head, s.markers, lines_of(s.files), id),
        ..commit
    }
}

/// The graph that the log and the refs make.
pub open spec fn log_graph(s: LogSnapshotView) -> Result<GraphView, Text> {
    match log_commits(s.log) {
        Err(error) => Err(error),
        Ok(walked) => {
            let commits = walked_commits(walked);
            Ok(
                GraphView {
                    commits: Map::new(
                        |id: Text| commits.contains_key(id),
                        |id: Text| log_decorated(s, commits[id], id),
                    ),
                    order: walked_ids(walked),
                    head: s.head,
                    branch: s.branch,
                },
            )
        },
    }
}

/// Places the refs of a list at their commits.
fn place_listed(commits: &mut Dict<Commit>, refs: &str)
    requires
        forall|k: Text| #[trigger]
            old(commits)@.contains_key(k) ==> with_refs(old(commits)@[k], Seq::empty(), k) == old(
                commits,
            )@[k],
    ensures
        final(commits)@.dom() == old(commits)@.dom(),
        forall|k: Text| #[trigger]
            old(commits)@.contains_key(k) ==> final(commits)@[k] == with_refs(
                old(commits)@[k],
                listed_refs(lines_of(refs@)),
                k,
            ),
{
    let ghost bare = commits@;
    let all = lines(refs);
    let ghost ls = lines_of(refs@);
    let mut i: usize = 0;
    assert(ls.take(0) =~= Seq::<Text>::empty());
    while i < all.len()
        invariant
            i <= all.len(),
            ls == texts(all@),
            commits@.dom() == bare.dom(),
            forall|k: Text| #[trigger]
                bare.contains_key(k) ==> commits@[k] == with_refs(
                    bare[k],
                    listed_refs(ls.take(i as int)),
                    k,
                ),
        decreases all.len() - i,
    {
        let ghost was = commits@;
        let ghost raw = commits.raw();
        let ghost before = listed_refs(ls.take(i as int));
        assert(ls.take(i + 1).drop_last() =~= ls.take(i as int));
        assert(ls.take(i + 1).last() == all@[i as int]@);
        match read_ref(all[i].as_str()) {
            None => {},
            Some((id, name)) => {
                let ghost found = (id@, name@);
                match commits.get_mut(id.as_str()) {
                    Some(commit) => {
                        place_ref(commit, name.as_str());
                    },
                    None => {},
                }
                proof {
                    assert(before.push(found).drop_last() =~= before);
                    assert(commits.raw().dom() =~= raw.dom());
                    assert(commits@.dom() =~= bare.dom());
                    assert forall|k: Text| #[trigger] bare.contains_key(k) implies commits@[k]
                        == with_refs(bare[k], before.push(found), k) by {
                        assert(was[k] == with_refs(bare[k], before, k));
                        if k != id@ {
                            assert(commits@[k] == was[k]);
                        }
                    }
                }
            },
        }
        i = i + 1;
    }
    assert(ls.take(ls.len() as int) =~= ls);
}

/// The graph that the log and the refs make.
pub fn graph_of_log(snapshot: &LogSnapshot) -> (r: Result<Graph, String>)
    ensures
        match r {
            Ok(graph) => log_graph(snapshot@) == Ok::<GraphView, Text>(graph@),
            Err(error) => log_graph(snapshot@) == Err::<GraphView, Text>(error@),
        },
{
    let ghost s = snapshot@;
    let walked = match read_log(snapshot.log.as_str()) {
        Err(error) => {
            return Err(error);
        },
        Ok(walked) => walked,
    };
    let mut commits = collect_walked(&walked);
    let ghost bare = commits@;
    let ghost refs = listed_refs(lines_of(s.refs));
    proof {
        lemma_bare(views(walked@));
        assert forall|k: Text| #[trigger] bare.contains_key(k) implies with_refs(
            bare[k],
            Seq::empty(),
            k,
        ) == bare[k] by {
            assert(with_refs(bare[k], Seq::empty(), k) =~= bare[k]);
        }
    }
    place_listed(&mut commits, snapshot.refs.as_str());
    let ghost all = commits@;
    let files = lines(snapshot.files.as_str());
    let incoming = conflict_label(&snapshot.markers, &files);
    let n = commits.len();
    let ghost names = commits.names();
    let mut done: Dict<Commit> = Dict::new();
    let mut i: usize = 0;
    while i < n
        invariant
            i <= n,
            n == names.len(),
            names == commits.names(),
            s == snapshot@,
            all == commits@,
            all.dom() == bare.dom(),
            refs == listed_refs(lines_of(s.refs)),
            forall|k: Text| #[trigger]
                bare.contains_key(k) ==> all[k] == with_refs(bare[k], refs, k) && !bare[k].is_head
                    && bare[k].conflict is None,
            maybe(incoming) == conflict_text(s.markers, lines_of(s.files)),
            forall|k: Text| #[trigger]
                done.raw().contains_key(k) <==> names.take(i as int).contains(k),
            forall|k: Text| #[trigger]
                done.raw().contains_key(k) ==> bare.contains_key(k) && done.raw()[k]@
                    == log_decorated(s, bare[k], k),
        decreases n - i,
    {
        let ghost was = names.take(i as int);
        let ghost k = names[i as int];
        let Commit {
            id: own,
            parents,
            subject,
            local_refs,
            remote_refs,
            tags,
            is_head: _,
            preview,
            conflict: _,
        } = commits.value(i).clone();
        proof {
            assert(all.contains_key(k));
            assert(bare.contains_key(k));
        }
        let id = commits.key(i);
        let is_head = same(id.as_str(), snapshot.head.as_str());
        let conflict = if has_marker(&snapshot.markers, id.as_str()) {
            copy_option(&incoming)
        } else if is_head && snapshot.markers.len() > 0 {
            Some("local (conflict in progress)".to_owned())
        } else {
            None
        };
        let commit = Commit {
            id: own,
            parents,
            subject,
            local_refs: sort_strings(local_refs),
            remote_refs: sort_strings(remote_refs),
            tags: sort_strings(tags),
            is_head,
            preview,
            conflict,
        };
        assert(commit@ =~= log_decorated(s, bare[k], k));
        done.insert(id.clone(), commit);
        proof {
            assert(names.take(i + 1) =~= was.push(k));
            assert forall|x: Text| #[trigger] done.raw().contains_key(x) <==> names.take(
                i + 1,
            ).contains(x) by {
                vstd::seq_lib::lemma_seq_contains_after_push(was, k, x);
            }
        }
        i = i + 1;
    }
    let order = ids_of(&walked);
    proof {
        assert(names.take(n as int) =~= names);
        let wanted = log_graph(s)->Ok_0.commits;
        assert(done@.dom() =~= wanted.dom()) by {
            assert forall|k: Text| done@.contains_key(k) == wanted.contains_key(k) by {
                assert(done.raw().contains_key(k) == names.contains(k));
                assert(commits.raw().contains_key(k) == names.contains(k));
                assert(all.contains_key(k) == bare.contains_key(k));
            }
        }
        assert(done@ =~= wanted);
    }
    Ok(
        Graph {
            commits: done,
            order,
            head: snapshot.head.clone(),
            branch: copy_option(&snapshot.branch),
        },
    )
}

/// What prints the log: all branches, and the commits that are in progress.
pub open spec fn log_args_for(markers: Seq<(Text, Text)>) -> Seq<Text> {
    seq![
        "log"@,
        "--branches"@,
        "--remotes"@,
        "HEAD"@,
        "--topo-order"@,
        "--format=%H%x1f%P%x1f%s%x1e"@,
    ] + markers.map_values(|marker: (Text, Text)| marker.1)
}

/// Computes `log_args_for`.
pub fn log_args(markers: &Vec<(String, String)>) -> (r: Vec<String>)
    ensures
        texts(r@) == log_args_for(views(markers@)),
{
    let ghost ms = views(markers@);
    let ghost ids = ms.map_values(|marker: (Text, Text)| marker.1);
    let mut args: Vec<String> = Vec::new();
    args.push("log".to_owned());
    args.push("--branches".to_owned());
    args.push("--remotes".to_owned());
    args.push("HEAD".to_owned());
    args.push("--topo-order".to_owned());
    args.push("--format=%H%x1f%P%x1f%s%x1e".to_owned());
    let ghost start = texts(args@);
    let mut i: usize = 0;
    assert(texts(args@) =~= start + ids.take(0));
    while i < markers.len()
        invariant
            i <= markers.len(),
            ms == views(markers@),
            ids == ms.map_values(|marker: (Text, Text)| marker.1),
            texts(args@) == start + ids.take(i as int),
        decreases markers.len() - i,
    {
        let ghost was = texts(args@);
        args.push(markers[i].1.clone());
        assert(ids[i as int] == markers@[i as int].1@);
        assert(texts(args@) =~= was.push(ids[i as int]));
        assert(texts(args@) =~= start + ids.take(i + 1));
        i = i + 1;
    }
    assert(ids.take(ids.len() as int) =~= ids);
    assert(texts(args@) =~= log_args_for(ms));
    args
}

/// The arguments of the runs of Git that a graph is put together from, one run after
/// another. What the log starts from depends on the replies before it.
pub open spec fn load_args(i: int, replies: Seq<Result<Text, Text>>) -> Seq<Text> {
    if i == 0 {
        seq!["rev-parse"@, "--git-dir"@]
    } else if i == 1 {
        seq!["rev-parse"@, "HEAD"@]
    } else if i == 2 {
        seq!["symbolic-ref"@, "--quiet"@, "--short"@, "HEAD"@]
    } else if i < 6 {
        seq!["rev-parse"@, "--verify"@, "-q"@, operation_ref(i - 3)]
    } else if i == 6 {
        seq!["diff"@, "--name-only"@, "--diff-filter=U"@]
    } else if i == 7 {
        log_args_for(markers_in(replies, 3))
    } else {
        seq![
            "for-each-ref"@,
            "--format=%(objectname)%00%(refname)"@,
            "refs/heads"@,
            "refs/remotes"@,
        ]
    }
}

/// The runs of Git with these replies.
pub open spec fn load_calls(repo: Text, replies: Seq<Result<Text, Text>>) -> Seq<Call> {
    Seq::new(replies.len(), |i: int| git_call(repo, load_args(i, replies), replies[i]))
}

/// The kind of an operation.
pub open spec fn operation_kind(i: int) -> Text {
    if i == 0 {
        "rebase"@
    } else if i == 1 {
        "merge"@
    } else {
        "cherry-pick"@
    }
}

/// Which of the first `n` operations are in progress, each with the commit it is at.
pub open spec fn markers_in(replies: Seq<Result<Text, Text>>, n: nat) -> Seq<(Text, Text)>
    decreases n,
{
    if n == 0 {
        Seq::empty()
    } else {
        let before = markers_in(replies, (n - 1) as nat);
        match replies[n as int + 2] {
            Ok(id) => before.push((operation_kind(n - 1), id)),
            Err(_) => before,
        }
    }
}

/// What the replies tell of a repository.
pub open spec fn snapshot_in(replies: Seq<Result<Text, Text>>) -> LogSnapshotView {
    LogSnapshotView {
        head: replies[1]->Ok_0,
        branch: match replies[2] {
            Ok(branch) => Some(branch),
            Err(_) => None,
        },
        markers: markers_in(replies, 3),
        files: match replies[6] {
            Ok(files) => files,
            Err(_) => Seq::empty(),
        },
        log: replies[7]->Ok_0,
        refs: replies[8]->Ok_0,
    }
}

/// The error of a reply.
pub open spec fn failure(reply: Result<Text, Text>) -> Option<Result<GraphView, Text>> {
    match reply {
        Err(error) => Some(Err(error)),
        Ok(_) => None,
    }
}

/// What the replies come to, where the last of them decides.
pub open spec fn load_result(replies: Seq<Result<Text, Text>>) -> Option<Result<GraphView, Text>> {
    if replies.len() == 1 {
        failure(replies[0])
    } else if replies.len() == 2 && replies[0] is Ok {
        failure(replies[1])
    } else if replies.len() == 8 && replies[0] is Ok && replies[1] is Ok {
        failure(replies[7])
    } else if replies.len() == 9 && replies[0] is Ok && replies[1] is Ok && replies[7] is Ok {
        match replies[8] {
            Err(error) => Some(Err(error)),
            Ok(_) => Some(log_graph(snapshot_in(replies))),
        }
    } else {
        None
    }
}

/// What a graph or an error holds.
pub open spec fn graph_result(r: Result<Graph, String>) -> Result<GraphView, Text> {
    match r {
        Ok(graph) => Ok(graph@),
        Err(error) => Err(error@),
    }
}

/// Runs that have been made since `start`, and their replies.
pub open spec fn replied(
    repo: Text,
    start: Seq<Call>,
    now: Seq<Call>,
    replies: Seq<Result<Text, Text>>,
) -> bool {
    now == start + load_calls(repo, replies)
}

/// One more reply.
proof fn lemma_replied(
    repo: Text,
    start: Seq<Call>,
    before: Seq<Call>,
    replies: Seq<Result<Text, Text>>,
    answer: Result<Text, Text>,
)
    requires
        replied(repo, start, before, replies),
        replies.len() < 9,
    ensures
        replied(
            repo,
            start,
            before.push(git_call(repo, load_args(replies.len() as int, replies), answer)),
            replies.push(answer),
        ),
        load_args(replies.len() as int, replies.push(answer)) == load_args(
            replies.len() as int,
            replies,
        ),
{
    let more = replies.push(answer);
    assert forall|i: int| 0 <= i <= replies.len() implies load_args(i, more) == load_args(
        i,
        replies,
    ) by {
        if i == 7 {
            lemma_markers_stay(replies, answer, 3);
        }
    }
    assert(start + load_calls(repo, more) =~= before.push(
        git_call(repo, load_args(replies.len() as int, replies), answer),
    ));
}

/// Later replies change nothing of what is in progress.
proof fn lemma_markers_stay(replies: Seq<Result<Text, Text>>, answer: Result<Text, Text>, n: nat)
    requires
        n > 0 ==> 2 + n < replies.len(),
    ensures
        markers_in(replies.push(answer), n) == markers_in(replies, n),
    decreases n,
{
    if n > 0 {
        lemma_markers_stay(replies, answer, (n - 1) as nat);
    }
}

/// Reads the graph of a repository through Git.
pub fn load_graph<R: CommandRunner>(runner: &mut Recorded<R>, repo: &str) -> (r: Result<
    Graph,
    String,
>)
    ensures
        exists|replies: Seq<Result<Text, Text>>|
            #[trigger] replied(repo@, old(runner).history(), final(runner).history(), replies)
                && load_result(replies) == Some(graph_result(r)),
{
    let ghost start = runner.history();
    let ghost mut replies = Seq::<Result<Text, Text>>::empty();
    assert(runner.history() =~= start + load_calls(repo@, replies));
    let mut args: Vec<&str> = Vec::new();
    args.push("rev-parse");
    args.push("--git-dir");
    assert(args@.map_values(|arg: &str| arg@) =~= load_args(0, replies));
    let ghost before = runner.history();
    let found = run(runner, repo, &args);
    proof {
        lemma_replied(repo@, start, before, replies, reply(found));
        replies = replies.push(reply(found));
        assert(replied(repo@, start, runner.history(), replies));
    }
    match &found {
        Err(error) => {
            return Err(error.clone());
        },
        Ok(_) => {},
    }
    let mut args: Vec<&str> = Vec::new();
    args.push("rev-parse");
    args.push("HEAD");
    assert(args@.map_values(|arg: &str| arg@) =~= load_args(1, replies));
    let ghost before = runner.history();
    let head = run(runner, repo, &args);
    proof {
        lemma_replied(repo@, start, before, replies, reply(head));
        replies = replies.push(reply(head));
        assert(replied(repo@, start, runner.history(), replies));
    }
    let head = match head {
        Err(error) => {
            return Err(error);
        },
        Ok(head) => head,
    };
    let mut args: Vec<&str> = Vec::new();
    args.push("symbolic-ref");
    args.push("--quiet");
    args.push("--short");
    args.push("HEAD");
    assert(args@.map_values(|arg: &str| arg@) =~= load_args(2, replies));
    let ghost before = runner.history();
    let branch = run(runner, repo, &args);
    proof {
        lemma_replied(repo@, start, before, replies, reply(branch));
        replies = replies.push(reply(branch));
    }
    let branch = branch.ok();
    let ghost asked = replies;
    let mut markers: Vec<(String, String)> = Vec::new();
    assert(views(markers@) =~= markers_in(replies, 0));
    let mut i: usize = 0;
    while i < 3
        invariant
            i <= 3,
            start == old(runner).history(),
            asked.len() == 3,
            replies.len() == 3 + i,
            asked.is_prefix_of(replies),
            replied(repo@, start, runner.history(), replies),
            views(markers@) == markers_in(replies, i as nat),
        decreases 3 - i,
    {
        let name = if i == 0 {
            "REBASE_HEAD"
        } else if i == 1 {
            "MERGE_HEAD"
        } else {
            "CHERRY_PICK_HEAD"
        };
        let kind = if i == 0 {
            "rebase"
        } else if i == 1 {
            "merge"
        } else {
            "cherry-pick"
        };
        let mut args: Vec<&str> = Vec::new();
        args.push("rev-parse");
        args.push("--verify");
        args.push("-q");
        args.push(name);
        assert(args@.map_values(|arg: &str| arg@) =~= load_args(3 + i, replies));
        let ghost before = runner.history();
        let found = run(runner, repo, &args);
        proof {
            lemma_replied(repo@, start, before, replies, reply(found));
            lemma_markers_stay(replies, reply(found), i as nat);
            replies = replies.push(reply(found));
        }
        match found {
            Ok(id) => {
                let ghost was = views(markers@);
                let marker = (kind.to_owned(), id);
                markers.push(marker);
                assert(views(markers@) =~= was.push(marker@));
            },
            Err(_) => {},
        }
        i = i + 1;
    }
    assert(forall|j: int| 0 <= j < 3 ==> asked[j] == replies[j]) by {
        assert(asked =~= replies.subrange(0, 3));
    }
    let mut args: Vec<&str> = Vec::new();
    args.push("diff");
    args.push("--name-only");
    args.push("--diff-filter=U");
    assert(args@.map_values(|arg: &str| arg@) =~= load_args(6, replies));
    let ghost before = runner.history();
    let files = run(runner, repo, &args);
    proof {
        lemma_replied(repo@, start, before, replies, reply(files));
        lemma_markers_stay(replies, reply(files), 3);
        replies = replies.push(reply(files));
    }
    let files = match files {
        Ok(files) => files,
        Err(_) => String::new(),
    };
    let args = log_args(&markers);
    let ghost before = runner.history();
    let log = run_owned(runner, repo, &args);
    proof {
        lemma_replied(repo@, start, before, replies, reply(log));
        lemma_markers_stay(replies, reply(log), 3);
        replies = replies.push(reply(log));
        assert(replied(repo@, start, runner.history(), replies));
    }
    let log = match log {
        Err(error) => {
            return Err(error);
        },
        Ok(log) => log,
    };
    let mut args: Vec<&str> = Vec::new();
    args.push("for-each-ref");
    args.push("--format=%(objectname)%00%(refname)");
    args.push("refs/heads");
    args.push("refs/remotes");
    assert(args@.map_values(|arg: &str| arg@) =~= load_args(8, replies));
    let ghost before = runner.history();
    let refs = run(runner, repo, &args);
    proof {
        lemma_replied(repo@, start, before, replies, reply(refs));
        lemma_markers_stay(replies, reply(refs), 3);
        replies = replies.push(reply(refs));
        assert(replied(repo@, start, runner.history(), replies));
    }
    let refs = match refs {
        Err(error) => {
            return Err(error);
        },
        Ok(refs) => refs,
    };
    let snapshot = LogSnapshot { head, branch, markers, files, log, refs };
    assert(snapshot@.files =~= snapshot_in(replies).files);
    assert(snapshot@ == snapshot_in(replies));
    graph_of_log(&snapshot)
}

/// How a plan is carried out: by a plain rebase onto the destination, or by one that is
/// handed the order of the commits.
pub open spec fn plain_call(
    repo: Text,
    plan: MoveView,
    reply: Result<Text, Text>,
) -> Call {
    git_call(
        repo,
        seq!["rebase"@, "--update-refs"@, "--onto"@, plan.destination, plan.base, plan.tip],
        reply,
    )
}

/// The run of a rebase that is handed the order of the commits in a file.
pub open spec fn ordered_call(
    repo: Text,
    plan: MoveView,
    executable: Text,
    file: Text,
    reply: Result<Text, Text>,
) -> Call {
    Call {
        program: "git"@,
        args: seq![
            "-c"@,
            "rebase.abbreviateCommands=false"@,
            "rebase"@,
            "--interactive"@,
            "--update-refs"@,
            plan.base,
            plan.tip,
        ],
        repo,
        input: None,
        env: seq![
            (
                "GIT_SEQUENCE_EDITOR"@,
                shell_word(executable) + " --sequence-editor "@ + shell_word(file),
            ),
        ],
        reply,
    }
}

/// A plan has been carried out, where nothing is in the way.
pub open spec fn rearranged<W: Fn(&str) -> Result<(String, String), String>, D: Fn(&str)>(
    write: W,
    remove: D,
    repo: Text,
    plan: MoveView,
    before: Seq<Call>,
    after: Seq<Call>,
    r: Result<(), Text>,
) -> bool {
    let answer = after.last().reply;
    if plan.include_descendants {
        after == before.push(plain_call(repo, plan, answer)) && r == done(answer)
    } else {
        exists|list: &str, place: Result<(String, String), String>|
            list@ == joined(plan.commits, "\n"@) + "\n"@ && #[trigger] call_ensures(
                write,
                (list,),
                place,
            ) && match place {
                Err(error) => after == before && r == Err::<(), Text>(error@),
                Ok((executable, file)) => after == before.push(
                    ordered_call(repo, plan, executable@, file@, answer),
                ) && r == done(answer) && removed(remove, file@),
            }
    }
}

/// Carries out a plan in a repository where nothing is changed and no operation is under
/// way. `there` tells whether there is anything at a path; `write` puts a list into a file
/// and tells the program and the file; `remove` removes the file.
pub fn apply_move<
    R: CommandRunner,
    P: Fn(&str) -> bool,
    W: Fn(&str) -> Result<(String, String), String>,
    D: Fn(&str),
>(
    runner: &mut Recorded<R>,
    repo: &str,
    plan: &MovePlan,
    there: &P,
    write: &W,
    remove: &D,
) -> (r: Result<(), String>)
    requires
        forall|path: &str| #[trigger] call_requires(*there, (path,)),
        forall|list: &str| #[trigger] call_requires(*write, (list,)),
        forall|file: &str| #[trigger] call_requires(*remove, (file,)),
    ensures
        exists|asked: Seq<Call>, clean: Result<(), Text>|
            #[trigger] checked(*there, repo@, old(runner).history(), asked, clean) && match clean {
                Err(error) => final(runner).history() == asked && unit_result(r) == Err::<
                    (),
                    Text,
                >(error),
                Ok(()) => rearranged(
                    *write,
                    *remove,
                    repo@,
                    plan@,
                    asked,
                    final(runner).history(),
                    unit_result(r),
                ),
            },
{
    let clean = assert_clean(runner, repo, there);
    let ghost asked = runner.history();
    assert(checked(*there, repo@, old(runner).history(), asked, unit_result(clean)));
    match clean {
        Err(error) => {
            return Err(error);
        },
        Ok(()) => {},
    }
    if plan.include_descendants {
        let mut args: Vec<&str> = Vec::new();
        args.push("rebase");
        args.push("--update-refs");
        args.push("--onto");
        args.push(plan.destination.as_str());
        args.push(plan.base.as_str());
        args.push(plan.tip.as_str());
        assert(args@.map_values(|arg: &str| arg@) =~= seq![
            "rebase"@,
            "--update-refs"@,
            "--onto"@,
            plan@.destination,
            plan@.base,
            plan@.tip,
        ]);
        return match run(runner, repo, &args) {
            Ok(_) => Ok(()),
            Err(error) => Err(error),
        };
    }
    let text = join(&plan.commits, "\n").concat("\n");
    let list = text.as_str();
    let place = write(list);
    assert(call_ensures(*write, (list,), place));
    match place {
        Err(error) => Err(error),
        Ok((executable, file)) => {
            let mut args: Vec<String> = Vec::new();
            args.push("-c".to_owned());
            args.push("rebase.abbreviateCommands=false".to_owned());
            args.push("rebase".to_owned());
            args.push("--interactive".to_owned());
            args.push("--update-refs".to_owned());
            args.push(plan.base.clone());
            args.push(plan.tip.clone());
            let editor = shell_quote(executable.as_str()).concat(" --sequence-editor ").concat(
                shell_quote(file.as_str()).as_str(),
            );
            let mut env: Vec<(String, String)> = Vec::new();
            env.push(("GIT_SEQUENCE_EDITOR".to_owned(), editor));
            let reply = runner.run("git", &args, repo, &None, &env);
            proof {
                let call = ordered_call(
                    repo@,
                    plan@,
                    executable@,
                    file@,
                    runner.history().last().reply,
                );
                assert(texts(args@) =~= call.args);
                assert(views(env@) =~= call.env);
                assert(runner.history() == asked.push(call));
            }
            let gone = file.as_str();
            remove(gone);
            assert(call_ensures(*remove, (gone,), ()));
            match reply {
                Ok(_) => Ok(()),
                Err(error) => Err(error),
            }
        },
    }
}

} // verus!
