//! Putting the graph of a repository together from what is read of it.

use crate::dict::Dict;
use crate::order::{copy, list, listed, views};
use crate::split::{join, joined, words, words_of};
use crate::stack::assign::{lossy, lossy_text};
use crate::stack::object::{object_id, parse_oid};
use crate::text::{
    copy_option, ends_with, maybe, same, strip_prefix, texts, without_prefix, Text,
};
use crate::ui::model::{Commit, CommitView, Graph, GraphView};
use vstd::prelude::*;

verus! {

/// The globs of the refs that the view starts from: those of stacks and of the base.
pub open spec fn root_globs(remote: Text, base: Text) -> Seq<Text> {
    seq![
        "refs/heads/fs-head/*"@,
        "refs/heads/fs-base/*"@,
        "refs/heads/"@ + base,
        "refs/remotes/"@ + remote + "/fs-head/*"@,
        "refs/remotes/"@ + remote + "/fs-base/*"@,
        "refs/remotes/"@ + remote + "/"@ + base,
    ]
}

/// The globs of the refs that the view starts from.
pub fn bounded_ref_globs(remote: &str, base: &str) -> (r: Vec<String>)
    ensures
        texts(r@) == root_globs(remote@, base@),
{
    let mut r: Vec<String> = Vec::new();
    r.push("refs/heads/fs-head/*".to_owned());
    r.push("refs/heads/fs-base/*".to_owned());
    r.push("refs/heads/".to_owned().concat(base));
    r.push("refs/remotes/".to_owned().concat(remote).concat("/fs-head/*"));
    r.push("refs/remotes/".to_owned().concat(remote).concat("/fs-base/*"));
    r.push("refs/remotes/".to_owned().concat(remote).concat("/").concat(base));
    assert(texts(r@) =~= root_globs(remote@, base@));
    r
}

/// What is said of a commit that comes into a conflict: the kinds of what is in
/// progress, and the files.
pub open spec fn conflict_text(markers: Seq<(Text, Text)>, files: Seq<Text>) -> Option<Text> {
    if markers.len() == 0 {
        None
    } else {
        let kinds = joined(markers.map_values(|marker: (Text, Text)| marker.0), "/"@);
        if files.len() == 0 {
            Some("incoming, conflict ("@ + kinds + ")"@)
        } else {
            Some("incoming, conflict ("@ + kinds + ": "@ + joined(files, ", "@) + ")"@)
        }
    }
}

/// What is said of a commit that comes into a conflict. A marker is a kind and the id
/// of the commit.
pub fn conflict_label(markers: &Vec<(String, String)>, files: &Vec<String>) -> (r: Option<String>)
    ensures
        maybe(r) == conflict_text(views(markers@), texts(files@)),
{
    if markers.len() == 0 {
        return None;
    }
    let ghost wanted = views(markers@).map_values(|marker: (Text, Text)| marker.0);
    let mut kinds: Vec<String> = Vec::new();
    let mut i: usize = 0;
    while i < markers.len()
        invariant
            i <= markers.len(),
            wanted == views(markers@).map_values(|marker: (Text, Text)| marker.0),
            kinds.len() == i,
            forall|j: int| 0 <= j < i ==> (#[trigger] kinds@[j])@ == wanted[j],
        decreases markers.len() - i,
    {
        assert(wanted[i as int] == markers@[i as int].0@);
        kinds.push(markers[i].0.clone());
        i = i + 1;
    }
    assert(texts(kinds@) =~= wanted);
    let start = "incoming, conflict (".to_owned().concat(join(&kinds, "/").as_str());
    if files.len() == 0 {
        Some(start.concat(")"))
    } else {
        Some(start.concat(": ").concat(join(files, ", ").as_str()).concat(")"))
    }
}

/// The id that a marker file holds: its first word.
pub open spec fn marked(contents: Option<Text>) -> Option<Text> {
    match contents {
        Some(contents) => if words_of(contents).len() > 0 {
            Some(words_of(contents)[0])
        } else {
            None
        },
        None => None,
    }
}

/// A marker where there is one.
pub open spec fn marker(kind: Text, contents: Option<Text>) -> Seq<(Text, Text)> {
    match marked(contents) {
        Some(id) => seq![(kind, id)],
        None => Seq::empty(),
    }
}

/// What is in progress, by the contents of the marker files.
pub open spec fn in_progress(
    rebase: Option<Text>,
    merge: Option<Text>,
    cherry_pick: Option<Text>,
) -> Seq<(Text, Text)> {
    marker("rebase"@, rebase) + marker("merge"@, merge) + marker("cherry-pick"@, cherry_pick)
}

/// Appends a marker where there is one.
fn push_marker(markers: &mut Vec<(String, String)>, kind: &str, contents: &Option<String>)
    ensures
        views(final(markers)@) == views(old(markers)@) + marker(kind@, maybe(*contents)),
{
    let ghost was = views(markers@);
    match contents {
        Some(contents) => {
            let fields = words(contents.as_str());
            if fields.len() > 0 {
                assert(texts(fields@)[0] == fields@[0]@);
                markers.push((kind.to_owned(), fields[0].clone()));
                assert(views(markers@) =~= was + seq![(kind@, fields@[0]@)]);
            } else {
                assert(was + Seq::<(Text, Text)>::empty() =~= was);
            }
        },
        None => {
            assert(was + Seq::<(Text, Text)>::empty() =~= was);
        },
    }
}

/// What is in progress, by the contents of the files `REBASE_HEAD`, `MERGE_HEAD` and
/// `CHERRY_PICK_HEAD`.
pub fn operation_markers(
    rebase: &Option<String>,
    merge: &Option<String>,
    cherry_pick: &Option<String>,
) -> (r: Vec<(String, String)>)
    ensures
        views(r@) == in_progress(maybe(*rebase), maybe(*merge), maybe(*cherry_pick)),
{
    let mut r: Vec<(String, String)> = Vec::new();
    push_marker(&mut r, "rebase", rebase);
    push_marker(&mut r, "merge", merge);
    push_marker(&mut r, "cherry-pick", cherry_pick);
    assert(views(r@) =~= in_progress(maybe(*rebase), maybe(*merge), maybe(*cherry_pick)));
    r
}

/// The names of files in conflict, by the bytes of their paths.
pub open spec fn file_names(paths: Seq<Vec<u8>>) -> Seq<Text> {
    paths.map_values(|path: Vec<u8>| lossy_text(path@))
}

/// The names of files in conflict, in order, each once.
pub fn conflict_files(paths: &Vec<Vec<u8>>) -> (r: Vec<String>)
    ensures
        texts(r@) == listed(file_names(paths@).to_set()),
{
    let mut names: Vec<String> = Vec::new();
    let mut i: usize = 0;
    while i < paths.len()
        invariant
            i <= paths.len(),
            names.len() == i,
            forall|j: int| 0 <= j < i ==> (#[trigger] names@[j])@ == lossy_text(paths@[j]@),
        decreases paths.len() - i,
    {
        names.push(lossy(&paths[i]));
        i = i + 1;
    }
    assert(texts(names@) =~= file_names(paths@));
    list(&names)
}

/// A ref of a commit: the commit's id and the ref's name.
pub type CommitRef = (String, String);

/// The commits that the view starts from: the head, where there is one, what refs point
/// at, and what is in progress where its id can be read.
pub open spec fn root_ids(
    head: Option<Text>,
    refs: Seq<(Text, Text)>,
    markers: Seq<(Text, Text)>,
) -> Set<Text> {
    Set::new(
        |id: Text|
            {
                ||| head == Some(id)
                ||| exists|i: int| 0 <= i < refs.len() && (#[trigger] refs[i]).0 == id
                ||| exists|i: int|
                    0 <= i < markers.len() && object_id((#[trigger] markers[i]).1) == Ok::<
                        Text,
                        Text,
                    >(id)
            },
    )
}

/// The commits that the view starts from, in the order of their ids.
pub fn graph_roots(head: &Option<String>, refs: &Vec<CommitRef>, markers: &Vec<(String, String)>) -> (r: Vec<
    String,
>)
    ensures
        texts(r@) == listed(root_ids(maybe(*head), views(refs@), views(markers@))),
{
    let ghost rs = views(refs@);
    let ghost ms = views(markers@);
    let ghost wanted = root_ids(maybe(*head), rs, ms);
    let mut ids: Vec<String> = Vec::new();
    match head {
        Some(head) => {
            ids.push(head.clone());
            assert(texts(ids@)[0] == head@);
        },
        None => {},
    }
    let mut i: usize = 0;
    while i < refs.len()
        invariant
            i <= refs.len(),
            rs == views(refs@),
            wanted == root_ids(maybe(*head), rs, ms),
            head is Some ==> texts(ids@).contains(head->0@),
            forall|x: Text| #[trigger] texts(ids@).contains(x) ==> wanted.contains(x),
            forall|j: int| 0 <= j < i ==> texts(ids@).contains((#[trigger] rs[j]).0),
        decreases refs.len() - i,
    {
        let ghost was = texts(ids@);
        assert(rs[i as int].0 == refs@[i as int].0@);
        ids.push(refs[i].0.clone());
        proof {
            assert(texts(ids@) =~= was.push(rs[i as int].0));
            assert forall|x: Text|
                #![trigger texts(ids@).contains(x)]
                #![trigger was.contains(x)]
                texts(ids@).contains(x) == (was.contains(x) || x == rs[i as int].0) by {
                vstd::seq_lib::lemma_seq_contains_after_push(was, rs[i as int].0, x);
            }
        }
        i = i + 1;
    }
    let mut i: usize = 0;
    while i < markers.len()
        invariant
            i <= markers.len(),
            rs == views(refs@),
            ms == views(markers@),
            wanted == root_ids(maybe(*head), rs, ms),
            head is Some ==> texts(ids@).contains(head->0@),
            forall|x: Text| #[trigger] texts(ids@).contains(x) ==> wanted.contains(x),
            forall|j: int| 0 <= j < rs.len() ==> texts(ids@).contains((#[trigger] rs[j]).0),
            forall|j: int|
                0 <= j < i && object_id((#[trigger] ms[j]).1) is Ok ==> texts(ids@).contains(
                    object_id(ms[j].1)->Ok_0,
                ),
        decreases markers.len() - i,
    {
        let ghost was = texts(ids@);
        assert(ms[i as int].1 == markers@[i as int].1@);
        match parse_oid(markers[i].1.as_str()) {
            Ok(id) => {
                ids.push(id);
                proof {
                    assert(texts(ids@) =~= was.push(id@));
                    assert forall|x: Text|
                        #![trigger texts(ids@).contains(x)]
                        #![trigger was.contains(x)]
                        texts(ids@).contains(x) == (was.contains(x) || x == id@) by {
                        vstd::seq_lib::lemma_seq_contains_after_push(was, id@, x);
                    }
                }
            },
            Err(_) => {},
        }
        i = i + 1;
    }
    proof {
        let s = texts(ids@).to_set();
        assert forall|id: Text| wanted.contains(id) implies s.contains(id) by {
            if maybe(*head) != Some(id) {
                if exists|i: int| 0 <= i < rs.len() && (#[trigger] rs[i]).0 == id {
                    let j = choose|i: int| 0 <= i < rs.len() && (#[trigger] rs[i]).0 == id;
                    assert(texts(ids@).contains(rs[j].0));
                } else {
                    let j = choose|i: int|
                        0 <= i < ms.len() && object_id((#[trigger] ms[i]).1) == Ok::<Text, Text>(
                            id,
                        );
                    assert(object_id(ms[j].1) is Ok);
                }
            }
        }
        assert(s =~= wanted);
    }
    list(&ids)
}

/// A commit as the walk through the history gives it.
pub struct WalkedCommit {
    pub id: String,
    pub parents: Vec<String>,
    pub subject: String,
}

/// What a `WalkedCommit` holds.
#[verifier::ext_equal]
pub struct WalkedView {
    pub id: Text,
    pub parents: Seq<Text>,
    pub subject: Text,
}

impl View for WalkedCommit {
    type V = WalkedView;

    open spec fn view(&self) -> WalkedView {
        WalkedView { id: self.id@, parents: texts(self.parents@), subject: self.subject@ }
    }
}

/// A commit that nothing is known to point at.
pub open spec fn bare_commit(commit: WalkedView) -> CommitView {
    CommitView {
        id: commit.id,
        parents: commit.parents,
        subject: commit.subject,
        local_refs: Seq::empty(),
        remote_refs: Seq::empty(),
        tags: Seq::empty(),
        is_head: false,
        preview: false,
        conflict: None,
    }
}

/// The walked commits by their ids.
pub open spec fn walked_commits(walked: Seq<WalkedView>) -> Map<Text, CommitView>
    decreases walked.len(),
{
    if walked.len() == 0 {
        Map::empty()
    } else {
        walked_commits(walked.drop_last()).insert(walked.last().id, bare_commit(walked.last()))
    }
}

/// A ref's name without the prefix of its kind, however often it stands there.
pub open spec fn without_prefixes(name: Text, prefix: Text) -> Text
    decreases name.len(),
{
    if prefix.len() > 0 && prefix.is_prefix_of(name) {
        without_prefixes(name.skip(prefix.len() as int), prefix)
    } else {
        name
    }
}

/// The names that refs at a commit have, as far as `part` gives one.
pub open spec fn names_at(
    refs: Seq<(Text, Text)>,
    id: Text,
    part: spec_fn(Text) -> Option<Text>,
) -> Set<Text> {
    Set::new(
        |name: Text|
            exists|i: int|
                0 <= i < refs.len() && (#[trigger] refs[i]).0 == id && part(refs[i].1) == Some(
                    name,
                ),
    )
}

/// The name of a local branch.
pub open spec fn local_part() -> spec_fn(Text) -> Option<Text> {
    |name: Text| without_prefix(name, "refs/heads/"@)
}

/// The name of a remote branch. The symbolic heads of remotes point at the same
/// commits and would only be clutter.
pub open spec fn remote_part() -> spec_fn(Text) -> Option<Text> {
    |name: Text|
        match without_prefix(name, "refs/remotes/"@) {
            Some(rest) => if "/HEAD"@.is_suffix_of(rest) {
                None
            } else {
                Some(rest)
            },
            None => None,
        }
}

/// The name of a tag.
pub open spec fn tag_part() -> spec_fn(Text) -> Option<Text> {
    |name: Text| without_prefix(name, "refs/tags/"@)
}

/// The name of a tag among the tags.
pub open spec fn tag_name() -> spec_fn(Text) -> Option<Text> {
    |name: Text| Some(without_prefixes(name, "refs/tags/"@))
}

/// Whether a marker is at a commit.
pub open spec fn is_marked(markers: Seq<(Text, Text)>, id: Text) -> bool {
    exists|i: int| 0 <= i < markers.len() && (#[trigger] markers[i]).1 == id
}

/// The conflict that a commit takes part in.
pub open spec fn conflict_at(
    is_head: bool,
    markers: Seq<(Text, Text)>,
    files: Seq<Text>,
    id: Text,
) -> Option<Text> {
    if is_marked(markers, id) {
        conflict_text(markers, files)
    } else if is_head && markers.len() > 0 {
        Some("local (conflict in progress)"@)
    } else {
        None
    }
}

/// What is read of a repository for its graph.
pub struct Snapshot {
    /// The id of the commit that is checked out, where the branch has one.
    pub head: Option<String>,
    /// The ref that is checked out, where it has a name.
    pub head_name: Option<String>,
    /// What is in progress: kinds, and the ids of commits.
    pub markers: Vec<(String, String)>,
    /// The files in conflict.
    pub files: Vec<String>,
    /// The refs that the view starts from.
    pub refs: Vec<CommitRef>,
    /// The tags.
    pub tags: Vec<CommitRef>,
    /// The history, newest first.
    pub walked: Vec<WalkedCommit>,
}

/// What a `Snapshot` holds.
#[verifier::ext_equal]
pub struct SnapshotView {
    pub head: Option<Text>,
    pub head_name: Option<Text>,
    pub markers: Seq<(Text, Text)>,
    pub files: Seq<Text>,
    pub refs: Seq<(Text, Text)>,
    pub tags: Seq<(Text, Text)>,
    pub walked: Seq<WalkedView>,
}

impl View for Snapshot {
    type V = SnapshotView;

    open spec fn view(&self) -> SnapshotView {
        SnapshotView {
            head: maybe(self.head),
            head_name: maybe(self.head_name),
            markers: views(self.markers@),
            files: texts(self.files@),
            refs: views(self.refs@),
            tags: views(self.tags@),
            walked: views(self.walked@),
        }
    }
}

/// A commit with what points at it. Tags decorate commits that are shown anyway.
pub open spec fn decorated(s: SnapshotView, commit: CommitView, id: Text) -> CommitView {
    CommitView {
        local_refs: listed(names_at(s.refs, id, local_part())),
        remote_refs: listed(names_at(s.refs, id, remote_part())),
        tags: listed(
            names_at(s.refs, id, tag_part()).union(names_at(s.tags, id, tag_name())),
        ),
        is_head: s.head == Some(id),
        conflict: conflict_at(s.head == Some(id), s.markers, s.files, id),
        ..commit
    }
}

/// The ids of the walked commits.
pub open spec fn walked_ids(walked: Seq<WalkedView>) -> Seq<Text> {
    walked.map_values(|commit: WalkedView| commit.id)
}

/// The branch that is checked out.
pub open spec fn checked_out_branch(head_name: Option<Text>) -> Option<Text> {
    match head_name {
        Some(name) => without_prefix(name, "refs/heads/"@),
        None => None,
    }
}

/// The graph of a repository. One without a commit on its branch has no head.
pub open spec fn assembled(s: SnapshotView) -> GraphView {
    let commits = walked_commits(s.walked);
    GraphView {
        commits: Map::new(
            |id: Text| commits.contains_key(id),
            |id: Text| decorated(s, commits[id], id),
        ),
        order: walked_ids(s.walked),
        head: match s.head {
            Some(id) => id,
            None => Seq::empty(),
        },
        branch: checked_out_branch(s.head_name),
    }
}

/// One more ref adds at most its own name, at its own commit.
proof fn lemma_names_step(
    refs: Seq<(Text, Text)>,
    i: int,
    id: Text,
    part: spec_fn(Text) -> Option<Text>,
)
    requires
        0 <= i < refs.len(),
    ensures
        names_at(refs.take(i + 1), id, part) == if refs[i].0 == id && part(refs[i].1) is Some {
            names_at(refs.take(i), id, part).insert(part(refs[i].1)->0)
        } else {
            names_at(refs.take(i), id, part)
        },
{
    let before = refs.take(i);
    let after = refs.take(i + 1);
    let wanted = if refs[i].0 == id && part(refs[i].1) is Some {
        names_at(before, id, part).insert(part(refs[i].1)->0)
    } else {
        names_at(before, id, part)
    };
    assert forall|name: Text| names_at(after, id, part).contains(name) == wanted.contains(name) by {
        if names_at(before, id, part).contains(name) {
            let j = choose|j: int|
                0 <= j < before.len() && (#[trigger] before[j]).0 == id && part(before[j].1)
                    == Some(name);
            assert(after[j] == before[j]);
        }
        if names_at(after, id, part).contains(name) {
            let j = choose|j: int|
                0 <= j < after.len() && (#[trigger] after[j]).0 == id && part(after[j].1) == Some(
                    name,
                );
            if j < i {
                assert(before[j] == after[j]);
            }
        }
        assert(after[i] == refs[i]);
    }
    assert(names_at(after, id, part) =~= wanted);
}

/// What commits have once some refs and tags are placed: the names, in some order and
/// maybe more than once, and nothing else.
spec fn placed(
    commit: CommitView,
    bare: CommitView,
    refs: Seq<(Text, Text)>,
    tags: Seq<(Text, Text)>,
    id: Text,
) -> bool {
    &&& commit.local_refs.to_set() == names_at(refs, id, local_part())
    &&& commit.remote_refs.to_set() == names_at(refs, id, remote_part())
    &&& commit.tags.to_set() == names_at(refs, id, tag_part()).union(
        names_at(tags, id, tag_name()),
    )
    &&& commit == (CommitView {
        local_refs: commit.local_refs,
        remote_refs: commit.remote_refs,
        tags: commit.tags,
        ..bare
    })
}

/// A list with one more name holds one more.
proof fn lemma_push_set(v: Seq<Text>, name: Text)
    ensures
        v.push(name).to_set() == v.to_set().insert(name),
{
    assert forall|x: Text| v.push(name).to_set().contains(x) == v.to_set().insert(name).contains(
        x,
    ) by {
        vstd::seq_lib::lemma_seq_contains_after_push(v, name, x);
    }
    assert(v.push(name).to_set() =~= v.to_set().insert(name));
}

/// Names of different kinds do not start alike.
proof fn lemma_kinds(name: Text)
    ensures
        without_prefix(name, "refs/heads/"@) is Some ==> without_prefix(name, "refs/remotes/"@)
            is None && without_prefix(name, "refs/tags/"@) is None,
        without_prefix(name, "refs/remotes/"@) is Some ==> without_prefix(name, "refs/tags/"@)
            is None,
{
    reveal_strlit("refs/heads/");
    reveal_strlit("refs/remotes/");
    reveal_strlit("refs/tags/");
    if "refs/heads/"@.is_prefix_of(name) {
        assert(name.subrange(0, 11)[5] == 'h');
    }
    if "refs/remotes/"@.is_prefix_of(name) {
        assert(name.subrange(0, 13)[5] == 'r');
    }
    if "refs/tags/"@.is_prefix_of(name) {
        assert(name.subrange(0, 10)[5] == 't');
    }
}

/// Places a ref at its commit.
pub(crate) fn place_ref(commit: &mut Commit, name: &str)
    ensures
        final(commit)@ == (CommitView {
            local_refs: match local_part()(name@) {
                Some(rest) => old(commit)@.local_refs.push(rest),
                None => old(commit)@.local_refs,
            },
            remote_refs: match remote_part()(name@) {
                Some(rest) => old(commit)@.remote_refs.push(rest),
                None => old(commit)@.remote_refs,
            },
            tags: match tag_part()(name@) {
                Some(rest) => old(commit)@.tags.push(rest),
                None => old(commit)@.tags,
            },
            ..old(commit)@
        }),
{
    let ghost was = commit@;
    proof {
        lemma_kinds(name@);
    }
    match strip_prefix(name, "refs/heads/") {
        Some(rest) => {
            commit.local_refs.push(rest);
            assert(texts(commit.local_refs@) =~= was.local_refs.push(rest@));
        },
        None => match strip_prefix(name, "refs/remotes/") {
            Some(rest) => {
                if !ends_with(rest.as_str(), "/HEAD") {
                    commit.remote_refs.push(rest);
                    assert(texts(commit.remote_refs@) =~= was.remote_refs.push(rest@));
                }
            },
            None => match strip_prefix(name, "refs/tags/") {
                Some(rest) => {
                    commit.tags.push(rest);
                    assert(texts(commit.tags@) =~= was.tags.push(rest@));
                },
                None => {},
            },
        },
    }
}

/// A name without a prefix, however often it stands there.
fn strip_prefixes(name: &str, prefix: &str) -> (r: String)
    ensures
        r@ == without_prefixes(name@, prefix@),
{
    let mut rest = name.to_owned();
    if prefix.is_empty() {
        return rest;
    }
    loop
        invariant
            prefix@.len() > 0,
            without_prefixes(rest@, prefix@) == without_prefixes(name@, prefix@),
        decreases rest@.len(),
    {
        match strip_prefix(rest.as_str(), prefix) {
            Some(next) => {
                rest = next;
            },
            None => {
                return rest;
            },
        }
    }
}

/// The walked commits by their ids.
pub(crate) fn collect_walked(walked: &Vec<WalkedCommit>) -> (r: Dict<Commit>)
    ensures
        r@ == walked_commits(views(walked@)),
{
    let ghost all = views(walked@);
    let mut r: Dict<Commit> = Dict::new();
    let mut i: usize = 0;
    assert(all.take(0) =~= Seq::<WalkedView>::empty());
    assert(r@ =~= Map::<Text, CommitView>::empty());
    while i < walked.len()
        invariant
            i <= walked.len(),
            all == views(walked@),
            r@ == walked_commits(all.take(i as int)),
        decreases walked.len() - i,
    {
        assert(all.take(i + 1).drop_last() =~= all.take(i as int));
        assert(all.take(i + 1).last() == walked@[i as int]@);
        let mut commit = Commit::default();
        commit.id = walked[i].id.clone();
        commit.parents = copy(&walked[i].parents);
        commit.subject = walked[i].subject.clone();
        assert(commit@ =~~= bare_commit(walked@[i as int]@));
        let ghost was = r@;
        r.insert(walked[i].id.clone(), commit);
        assert(r@ =~= was.insert(walked@[i as int].id@, commit@));
        i = i + 1;
    }
    assert(all.take(all.len() as int) =~= all);
    r
}

/// Places the refs at their commits.
fn place_refs(commits: &mut Dict<Commit>, refs: &Vec<CommitRef>, Ghost(bare): Ghost<
    Map<Text, CommitView>,
>)
    requires
        old(commits)@ == bare,
        forall|k: Text| #[trigger]
            bare.contains_key(k) ==> placed(bare[k], bare[k], Seq::empty(), Seq::empty(), k),
    ensures
        final(commits)@.dom() == bare.dom(),
        forall|k: Text| #[trigger]
            bare.contains_key(k) ==> placed(
                final(commits)@[k],
                bare[k],
                views(refs@),
                Seq::empty(),
                k,
            ),
{
    let ghost rs = views(refs@);
    let mut i: usize = 0;
    assert(rs.take(0) =~= Seq::<(Text, Text)>::empty());
    while i < refs.len()
        invariant
            i <= refs.len(),
            rs == views(refs@),
            commits@.dom() == bare.dom(),
            forall|k: Text| #[trigger]
                bare.contains_key(k) ==> placed(
                    commits@[k],
                    bare[k],
                    rs.take(i as int),
                    Seq::empty(),
                    k,
                ),
        decreases refs.len() - i,
    {
        let (id, name) = &refs[i];
        let ghost was = commits@;
        let ghost raw = commits.raw();
        assert(rs[i as int] == (id@, name@));
        match commits.get_mut(id.as_str()) {
            Some(commit) => {
                place_ref(commit, name.as_str());
            },
            None => {},
        }
        proof {
            assert(commits.raw().dom() =~= raw.dom());
            assert(commits@.dom() =~= bare.dom());
            assert forall|k: Text| #[trigger] bare.contains_key(k) implies placed(
                commits@[k],
                bare[k],
                rs.take(i + 1),
                Seq::empty(),
                k,
            ) by {
                lemma_names_step(rs, i as int, k, local_part());
                lemma_names_step(rs, i as int, k, remote_part());
                lemma_names_step(rs, i as int, k, tag_part());
                assert(placed(was[k], bare[k], rs.take(i as int), Seq::empty(), k));
                if k == id@ {
                    if local_part()(name@) is Some {
                        lemma_push_set(was[k].local_refs, local_part()(name@)->0);
                    }
                    if remote_part()(name@) is Some {
                        lemma_push_set(was[k].remote_refs, remote_part()(name@)->0);
                    }
                    if tag_part()(name@) is Some {
                        lemma_push_set(was[k].tags, tag_part()(name@)->0);
                        assert(commits@[k].tags.to_set() =~= names_at(
                            rs.take(i + 1),
                            k,
                            tag_part(),
                        ).union(names_at(Seq::empty(), k, tag_name())));
                    }
                } else {
                    assert(commits@[k] == was[k]);
                }
            }
        }
        i = i + 1;
    }
    assert(rs.take(rs.len() as int) =~= rs);
}

/// Places the tags at their commits.
fn place_tags(
    commits: &mut Dict<Commit>,
    tags: &Vec<CommitRef>,
    Ghost(bare): Ghost<Map<Text, CommitView>>,
    Ghost(rs): Ghost<Seq<(Text, Text)>>,
)
    requires
        old(commits)@.dom() == bare.dom(),
        forall|k: Text| #[trigger]
            bare.contains_key(k) ==> placed(old(commits)@[k], bare[k], rs, Seq::empty(), k),
    ensures
        final(commits)@.dom() == bare.dom(),
        forall|k: Text| #[trigger]
            bare.contains_key(k) ==> placed(final(commits)@[k], bare[k], rs, views(tags@), k),
{
    let ghost ts = views(tags@);
    let mut i: usize = 0;
    assert(ts.take(0) =~= Seq::<(Text, Text)>::empty());
    while i < tags.len()
        invariant
            i <= tags.len(),
            ts == views(tags@),
            commits@.dom() == bare.dom(),
            forall|k: Text| #[trigger]
                bare.contains_key(k) ==> placed(commits@[k], bare[k], rs, ts.take(i as int), k),
        decreases tags.len() - i,
    {
        let (id, name) = &tags[i];
        let ghost was = commits@;
        let ghost raw = commits.raw();
        assert(ts[i as int] == (id@, name@));
        match commits.get_mut(id.as_str()) {
            Some(commit) => {
                let ghost before = commit@;
                let rest = strip_prefixes(name.as_str(), "refs/tags/");
                commit.tags.push(rest);
                assert(texts(commit.tags@) =~= before.tags.push(rest@));
                assert(commit@ == (CommitView { tags: before.tags.push(rest@), ..before }));
            },
            None => {},
        }
        proof {
            assert(commits.raw().dom() =~= raw.dom());
            assert(commits@.dom() =~= bare.dom());
            assert forall|k: Text| #[trigger] bare.contains_key(k) implies placed(
                commits@[k],
                bare[k],
                rs,
                ts.take(i + 1),
                k,
            ) by {
                lemma_names_step(ts, i as int, k, tag_name());
                assert(placed(was[k], bare[k], rs, ts.take(i as int), k));
                if k == id@ {
                    let rest = tag_name()(name@)->0;
                    lemma_push_set(was[k].tags, rest);
                    assert(commits@[k].tags == was[k].tags.push(rest));
                    assert(commits@[k].tags.to_set() =~= names_at(rs, k, tag_part()).union(
                        names_at(ts.take(i + 1), k, tag_name()),
                    ));
                } else {
                    assert(commits@[k] == was[k]);
                }
            }
        }
        i = i + 1;
    }
    assert(ts.take(ts.len() as int) =~= ts);
}

/// Whether a marker is at a commit.
pub(crate) fn has_marker(markers: &Vec<(String, String)>, id: &str) -> (r: bool)
    ensures
        r == is_marked(views(markers@), id@),
{
    let ghost ms = views(markers@);
    let mut i: usize = 0;
    while i < markers.len()
        invariant
            i <= markers.len(),
            ms == views(markers@),
            forall|j: int| 0 <= j < i ==> (#[trigger] ms[j]).1 != id@,
        decreases markers.len() - i,
    {
        assert(ms[i as int].1 == markers@[i as int].1@);
        if same(markers[i].1.as_str(), id) {
            return true;
        }
        i = i + 1;
    }
    false
}

/// The graph of a repository.
pub fn load_graph_for(snapshot: &Snapshot) -> (r: Graph)
    ensures
        r@ == assembled(snapshot@),
{
    let ghost s = snapshot@;
    let mut commits = collect_walked(&snapshot.walked);
    let ghost bare = commits@;
    proof {
        lemma_bare(s.walked);
        assert forall|k: Text| #[trigger] bare.contains_key(k) implies placed(
            bare[k],
            bare[k],
            Seq::empty(),
            Seq::empty(),
            k,
        ) by {
            let none = Seq::<(Text, Text)>::empty();
            assert(names_at(none, k, local_part()) =~= Set::empty());
            assert(names_at(none, k, remote_part()) =~= Set::empty());
            assert(names_at(none, k, tag_part()) =~= Set::empty());
            assert(names_at(none, k, tag_name()) =~= Set::empty());
            assert(Seq::<Text>::empty().to_set() =~= Set::empty());
            assert(bare[k].tags.to_set() =~= names_at(none, k, tag_part()).union(
                names_at(none, k, tag_name()),
            ));
        }
    }
    place_refs(&mut commits, &snapshot.refs, Ghost(bare));
    place_tags(&mut commits, &snapshot.tags, Ghost(bare), Ghost(s.refs));
    let ghost all = commits@;
    let incoming = conflict_label(&snapshot.markers, &snapshot.files);
    let n = commits.len();
    let ghost names = commits.names();
    let mut done: Dict<Commit> = Dict::new();
    let mut i: usize = 0;
    while i < n
        invariant
            i <= n,
            n == names.len(),
            names == commits.names(),
            s == snapshot@,
            all == commits@,
            all.dom() == bare.dom(),
            forall|k: Text| #[trigger]
                bare.contains_key(k) ==> placed(all[k], bare[k], s.refs, s.tags, k)
                    && !bare[k].is_head && bare[k].conflict is None,
            maybe(incoming) == conflict_text(s.markers, s.files),
            forall|k: Text| #[trigger]
                done.raw().contains_key(k) <==> names.take(i as int).contains(k),
            forall|k: Text| #[trigger]
                done.raw().contains_key(k) ==> bare.contains_key(k) && done.raw()[k]@ == decorated(
                    s,
                    bare[k],
                    k,
                ),
        decreases n - i,
    {
        let ghost was = names.take(i as int);
        let ghost k = names[i as int];
        let mut commit = commits.value(i).clone();
        let ghost before = commit@;
        proof {
            assert(all.contains_key(k));
            assert(bare.contains_key(k));
            assert(before == all[k]);
        }
        let id = commits.key(i);
        commit.local_refs = list(&commit.local_refs);
        commit.remote_refs = list(&commit.remote_refs);
        commit.tags = list(&commit.tags);
        let is_head = match &snapshot.head {
            Some(head) => same(id.as_str(), head.as_str()),
            None => false,
        };
        if is_head {
            commit.is_head = true;
            if snapshot.markers.len() > 0 {
                commit.conflict = Some("local (conflict in progress)".to_owned());
            }
        }
        if has_marker(&snapshot.markers, id.as_str()) {
            commit.conflict = copy_option(&incoming);
        }
        assert(commit@ =~= decorated(s, bare[k], k));
        done.insert(id.clone(), commit);
        proof {
            assert(names.take(i + 1) =~= was.push(k));
            assert forall|x: Text| #[trigger] done.raw().contains_key(x) <==> names.take(
                i + 1,
            ).contains(x) by {
                vstd::seq_lib::lemma_seq_contains_after_push(was, k, x);
            }
        }
        i = i + 1;
    }
    let mut order: Vec<String> = Vec::new();
    let mut i: usize = 0;
    while i < snapshot.walked.len()
        invariant
            i <= snapshot.walked.len(),
            s == snapshot@,
            order.len() == i,
            forall|j: int| 0 <= j < i ==> (#[trigger] order@[j])@ == walked_ids(s.walked)[j],
        decreases snapshot.walked.len() - i,
    {
        order.push(snapshot.walked[i].id.clone());
        i = i + 1;
    }
    let branch = match &snapshot.head_name {
        Some(name) => strip_prefix(name.as_str(), "refs/heads/"),
        None => None,
    };
    proof {
        assert(names.take(n as int) =~= names);
        assert(texts(order@) =~= walked_ids(s.walked));
        let wanted = assembled(s).commits;
        assert(done@.dom() =~= wanted.dom()) by {
            assert forall|k: Text| done@.contains_key(k) == wanted.contains_key(k) by {
                assert(done.raw().contains_key(k) == names.contains(k));
                assert(commits.raw().contains_key(k) == names.contains(k));
                assert(all.contains_key(k) == bare.contains_key(k));
            }
        }
        assert(done@ =~= wanted);
    }
    let head = match &snapshot.head {
        Some(head) => head.clone(),
        None => String::new(),
    };
    assert(snapshot.head is None ==> head@ =~= Seq::<char>::empty());
    Graph { commits: done, order, head, branch }
}

/// The walked commits have nothing that points at them.
pub(crate) proof fn lemma_bare(walked: Seq<WalkedView>)
    ensures
        forall|k: Text| #[trigger]
            walked_commits(walked).contains_key(k) ==> {
                let commit = walked_commits(walked)[k];
                &&& commit.local_refs == Seq::<Text>::empty()
                &&& commit.remote_refs == Seq::<Text>::empty()
                &&& commit.tags == Seq::<Text>::empty()
                &&& !commit.is_head
                &&& commit.conflict is None
            },
    decreases walked.len(),
{
    if walked.len() > 0 {
        lemma_bare(walked.drop_last());
    }
}

/// The walked commits are those of their ids.
proof fn lemma_walked(walked: Seq<WalkedView>)
    ensures
        forall|k: Text| #[trigger]
            walked_commits(walked).contains_key(k) <==> walked_ids(walked).contains(k),
        forall|k: Text| #[trigger]
            walked_commits(walked).contains_key(k) ==> walked_commits(walked)[k].id == k
                && !walked_commits(walked)[k].preview,
    decreases walked.len(),
{
    if walked.len() > 0 {
        let init = walked.drop_last();
        lemma_walked(init);
        assert(walked_ids(walked) =~= walked_ids(init).push(walked.last().id));
        assert forall|k: Text| #[trigger]
            walked_commits(walked).contains_key(k) <==> walked_ids(walked).contains(k) by {
            vstd::seq_lib::lemma_seq_contains_after_push(
                walked_ids(init),
                walked.last().id,
                k,
            );
        }
    }
}

/// A graph that is read holds exactly the commits of its order, each by its id, as they
/// are; only the commit that is checked out is the head.
pub proof fn law_loaded_graph(s: SnapshotView)
    ensures
        forall|k: Text| #[trigger]
            assembled(s).commits.contains_key(k) <==> assembled(s).order.contains(k),
        forall|k: Text| #[trigger]
            assembled(s).commits.contains_key(k) ==> {
                let commit = assembled(s).commits[k];
                &&& commit.id == k
                &&& !commit.preview
                &&& commit.is_head <==> s.head == Some(k)
            },
{
    lemma_walked(s.walked);
}

} // verus!
