//! What the graph of a repository shows of what is read.

use crate::order::lemma_listed_members;
use crate::split::{joined, words_of};
use crate::stack::object::object_id;
use crate::text::{is_space, Text};
use crate::ui::load::{
    assembled, bare_commit, conflict_text, in_progress, is_marked, local_part, marked, names_at,
    remote_part, root_globs, root_ids, tag_name, tag_part, walked_commits, without_prefixes,
    SnapshotView, WalkedView,
};
use crate::ui::log_laws::{is_word, lemma_word_behind};
use vstd::prelude::*;

verus! {

/// The commits of a walk differ.
pub open spec fn walk_differs(walked: Seq<WalkedView>) -> bool {
    forall|i: int, j: int|
        0 <= i < j < walked.len() ==> (#[trigger] walked[i]).id != (#[trigger] walked[j]).id
}

/// The commit that a walk comes to.
pub proof fn lemma_walked_commit(walked: Seq<WalkedView>, i: int)
    requires
        walk_differs(walked),
        0 <= i < walked.len(),
    ensures
        walked_commits(walked).contains_key(walked[i].id),
        walked_commits(walked)[walked[i].id] == bare_commit(walked[i]),
    decreases walked.len(),
{
    let init = walked.drop_last();
    if i < init.len() {
        assert forall|a: int, b: int| 0 <= a < b < init.len() implies (#[trigger] init[a]).id != (
        #[trigger] init[b]).id by {
            assert(walked[a].id != walked[b].id);
        }
        lemma_walked_commit(init, i);
        assert(init[i] == walked[i]);
        assert(walked[i].id != walked[walked.len() - 1].id);
    }
}

/// Every commit of the walk is in the graph as the walk gives it, with its parents in their
/// order and its subject, and where the walk has it.
pub proof fn law_walked_commits_are_shown(s: SnapshotView, i: int)
    requires
        walk_differs(s.walked),
        0 <= i < s.walked.len(),
    ensures
        ({
            let g = assembled(s);
            let w = s.walked[i];
            &&& g.commits.contains_key(w.id)
            &&& g.commits[w.id].id == w.id
            &&& g.commits[w.id].parents == w.parents
            &&& g.commits[w.id].subject == w.subject
            &&& !g.commits[w.id].preview
            &&& g.order.len() == s.walked.len()
            &&& g.order[i] == w.id
        }),
{
    lemma_walked_commit(s.walked, i);
}

/// A ref points at a commit under a name.
pub open spec fn points(refs: Seq<(Text, Text)>, id: Text, name: Text) -> bool {
    refs.contains((id, name))
}

proof fn lemma_names_finite(
    refs: Seq<(Text, Text)>,
    id: Text,
    part: spec_fn(Text) -> Option<Text>,
)
    ensures
        names_at(refs, id, part).finite(),
    decreases refs.len(),
{
    if refs.len() == 0 {
        assert(names_at(refs, id, part) =~= Set::empty());
    } else {
        let init = refs.drop_last();
        lemma_names_finite(init, id, part);
        let more = match part(refs.last().1) {
            Some(name) => names_at(init, id, part).insert(name),
            None => names_at(init, id, part),
        };
        assert forall|name: Text| names_at(refs, id, part).contains(name) implies more.contains(
            name,
        ) by {
            let i = choose|i: int|
                0 <= i < refs.len() && (#[trigger] refs[i]).0 == id && part(refs[i].1) == Some(
                    name,
                );
            if i < init.len() {
                assert(init[i] == refs[i]);
            }
        }
        vstd::set_lib::lemma_set_subset_finite(more, names_at(refs, id, part));
    }
}

/// A name behind a prefix.
pub proof fn lemma_named(prefix: Text, name: Text)
    ensures
        prefix.is_prefix_of(prefix + name),
        (prefix + name).skip(prefix.len() as int) == name,
{
    assert((prefix + name).subrange(0, prefix.len() as int) =~= prefix);
    assert((prefix + name).skip(prefix.len() as int) =~= name);
}

/// What a prefix is taken off of.
pub proof fn lemma_prefixed(prefix: Text, name: Text)
    requires
        prefix.is_prefix_of(name),
    ensures
        name == prefix + name.skip(prefix.len() as int),
{
    assert(name =~= name.subrange(0, prefix.len() as int) + name.skip(prefix.len() as int));
}

/// A commit has a local branch exactly where a ref among the heads points at it.
pub proof fn law_local_branches_are_shown(s: SnapshotView, id: Text, name: Text)
    requires
        assembled(s).commits.contains_key(id),
    ensures
        assembled(s).commits[id].local_refs.contains(name) <==> points(
            s.refs,
            id,
            "refs/heads/"@ + name,
        ),
        assembled(s).commits[id].local_refs.no_duplicates(),
{
    let all = names_at(s.refs, id, local_part());
    lemma_names_finite(s.refs, id, local_part());
    lemma_listed_members(all);
    lemma_named("refs/heads/"@, name);
    if points(s.refs, id, "refs/heads/"@ + name) {
        let i = s.refs.index_of((id, "refs/heads/"@ + name));
        assert(s.refs[i].0 == id && local_part()(s.refs[i].1) == Some(name));
    }
    if all.contains(name) {
        let i = choose|i: int|
            0 <= i < s.refs.len() && (#[trigger] s.refs[i]).0 == id && local_part()(s.refs[i].1)
                == Some(name);
        lemma_prefixed("refs/heads/"@, s.refs[i].1);
        assert(s.refs[i] == (id, "refs/heads/"@ + name));
    }
}

/// A commit has a remote branch exactly where a ref among the remotes points at it that is
/// not the symbolic head of one.
pub proof fn law_remote_branches_are_shown(s: SnapshotView, id: Text, name: Text)
    requires
        assembled(s).commits.contains_key(id),
    ensures
        assembled(s).commits[id].remote_refs.contains(name) <==> points(
            s.refs,
            id,
            "refs/remotes/"@ + name,
        ) && !"/HEAD"@.is_suffix_of(name),
        assembled(s).commits[id].remote_refs.no_duplicates(),
{
    let all = names_at(s.refs, id, remote_part());
    lemma_names_finite(s.refs, id, remote_part());
    lemma_listed_members(all);
    lemma_named("refs/remotes/"@, name);
    if points(s.refs, id, "refs/remotes/"@ + name) && !"/HEAD"@.is_suffix_of(name) {
        let i = s.refs.index_of((id, "refs/remotes/"@ + name));
        assert(s.refs[i].0 == id && remote_part()(s.refs[i].1) == Some(name));
    }
    if all.contains(name) {
        let i = choose|i: int|
            0 <= i < s.refs.len() && (#[trigger] s.refs[i]).0 == id && remote_part()(s.refs[i].1)
                == Some(name);
        lemma_prefixed("refs/remotes/"@, s.refs[i].1);
        assert(s.refs[i] == (id, "refs/remotes/"@ + name));
    }
}

/// A ref points at a commit under a name that ends with another.
pub open spec fn ends_with_name(refs: Seq<(Text, Text)>, id: Text, name: Text) -> bool {
    exists|i: int|
        0 <= i < refs.len() && (#[trigger] refs[i]).0 == id && name.is_suffix_of(refs[i].1)
}

/// A commit has every tag that points at it, whether it is found among the refs or among
/// the tags, and none that points elsewhere only.
pub proof fn law_tags_are_shown(s: SnapshotView, id: Text, name: Text)
    requires
        assembled(s).commits.contains_key(id),
        !"refs/tags/"@.is_prefix_of(name),
    ensures
        points(s.refs, id, "refs/tags/"@ + name) || points(s.tags, id, "refs/tags/"@ + name)
            ==> assembled(s).commits[id].tags.contains(name),
        assembled(s).commits[id].tags.contains(name) ==> ends_with_name(s.refs, id, name)
            || ends_with_name(s.tags, id, name),
        assembled(s).commits[id].tags.no_duplicates(),
{
    let own = names_at(s.refs, id, tag_part());
    let others = names_at(s.tags, id, tag_name());
    lemma_names_finite(s.refs, id, tag_part());
    lemma_names_finite(s.tags, id, tag_name());
    lemma_listed_members(own.union(others));
    lemma_named("refs/tags/"@, name);
    if points(s.refs, id, "refs/tags/"@ + name) {
        let i = s.refs.index_of((id, "refs/tags/"@ + name));
        assert(s.refs[i].0 == id && tag_part()(s.refs[i].1) == Some(name));
    }
    if points(s.tags, id, "refs/tags/"@ + name) {
        let i = s.tags.index_of((id, "refs/tags/"@ + name));
        reveal_strlit("refs/tags/");
        reveal_with_fuel(without_prefixes, 2);
        assert(s.tags[i].0 == id && tag_name()(s.tags[i].1) == Some(name));
    }
    if own.contains(name) {
        let i = choose|i: int|
            0 <= i < s.refs.len() && (#[trigger] s.refs[i]).0 == id && tag_part()(s.refs[i].1)
                == Some(name);
        lemma_suffix(s.refs[i].1, "refs/tags/"@.len() as int);
        assert(name.is_suffix_of(s.refs[i].1));
    } else if others.contains(name) {
        let i = choose|i: int|
            0 <= i < s.tags.len() && (#[trigger] s.tags[i]).0 == id && tag_name()(s.tags[i].1)
                == Some(name);
        lemma_without_prefixes(s.tags[i].1, "refs/tags/"@);
        assert(name.is_suffix_of(s.tags[i].1));
    }
}

proof fn lemma_suffix(name: Text, n: int)
    requires
        0 <= n <= name.len(),
    ensures
        name.skip(n).is_suffix_of(name),
{
    let rest = name.skip(n);
    assert(name.subrange(name.len() - rest.len(), name.len() as int) =~= rest);
}

proof fn lemma_without_prefixes(name: Text, prefix: Text)
    ensures
        without_prefixes(name, prefix).is_suffix_of(name),
    decreases name.len(),
{
    if prefix.len() > 0 && prefix.is_prefix_of(name) {
        let rest = name.skip(prefix.len() as int);
        lemma_without_prefixes(rest, prefix);
        let left = without_prefixes(rest, prefix);
        assert(name.subrange(name.len() - left.len(), name.len() as int) =~= rest.subrange(
            rest.len() - left.len(),
            rest.len() as int,
        ));
    } else {
        lemma_suffix(name, 0);
        assert(name.skip(0) =~= name);
    }
}

/// The graph is that of what is checked out: its head is the commit and its branch the
/// branch, and of a ref that is no branch it has none. A conflict is shown at the commits
/// that come in, with the files, and at the head; where nothing is in progress it is shown
/// nowhere.
pub proof fn law_what_is_checked_out_is_shown(s: SnapshotView, id: Text, branch: Text)
    requires
        assembled(s).commits.contains_key(id),
    ensures
        assembled(s).head == match s.head {
            Some(head) => head,
            None => ""@,
        },
        assembled(s).branch == Some(branch) <==> s.head_name == Some("refs/heads/"@ + branch),
        assembled(s).commits[id].is_head <==> s.head == Some(id),
        assembled(s).commits[id].conflict is Some <==> s.markers.len() > 0 && (s.head == Some(id)
            || exists|i: int| 0 <= i < s.markers.len() && (#[trigger] s.markers[i]).1 == id),
        is_marked(s.markers, id) && s.files.len() > 0 ==> exists|front: Text|
            assembled(s).commits[id].conflict == Some(
                #[trigger] (front + joined(s.files, ", "@) + ")"@),
            ),
        !is_marked(s.markers, id) && assembled(s).commits[id].conflict is Some
            ==> assembled(s).commits[id].conflict == Some("local (conflict in progress)"@),
{
    reveal_strlit("");
    assert(Seq::<char>::empty() =~= ""@);
    lemma_named("refs/heads/"@, branch);
    match s.head_name {
        Some(name) => {
            if "refs/heads/"@.is_prefix_of(name) {
                lemma_prefixed("refs/heads/"@, name);
            }
        },
        None => {},
    }
    if is_marked(s.markers, id) && s.files.len() > 0 {
        let kinds = joined(s.markers.map_values(|marker: (Text, Text)| marker.0), "/"@);
        let front = "incoming, conflict ("@ + kinds + ": "@;
        assert(conflict_text(s.markers, s.files) == Some(front + joined(s.files, ", "@) + ")"@));
    }
}

/// A view starts from the head, from everything that a ref points at and from every commit
/// that comes into a conflict, and from nothing else.
pub proof fn law_views_start_from_every_ref(
    head: Option<Text>,
    refs: Seq<(Text, Text)>,
    markers: Seq<(Text, Text)>,
    id: Text,
)
    ensures
        root_ids(head, refs, markers).contains(id) <==> {
            ||| head == Some(id)
            ||| exists|name: Text| #[trigger] refs.contains((id, name))
            ||| exists|kind: Text, found: Text| #[trigger]
                markers.contains((kind, found)) && object_id(found) == Ok::<Text, Text>(id)
        },
{
    if exists|i: int| 0 <= i < refs.len() && (#[trigger] refs[i]).0 == id {
        let i = choose|i: int| 0 <= i < refs.len() && (#[trigger] refs[i]).0 == id;
        assert(refs.contains((id, refs[i].1)));
    }
    if exists|i: int|
        0 <= i < markers.len() && object_id((#[trigger] markers[i]).1) == Ok::<Text, Text>(id) {
        let i = choose|i: int|
            0 <= i < markers.len() && object_id((#[trigger] markers[i]).1) == Ok::<Text, Text>(id);
        assert(markers.contains((markers[i].0, markers[i].1)));
    }
    if exists|name: Text| #[trigger] refs.contains((id, name)) {
        let name = choose|name: Text| #[trigger] refs.contains((id, name));
        let i = refs.index_of((id, name));
        assert(refs[i].0 == id);
    }
    if exists|kind: Text, found: Text| #[trigger]
        markers.contains((kind, found)) && object_id(found) == Ok::<Text, Text>(id) {
        let (kind, found) = choose|kind: Text, found: Text| #[trigger]
            markers.contains((kind, found)) && object_id(found) == Ok::<Text, Text>(id);
        let i = markers.index_of((kind, found));
        assert(markers[i].1 == found);
    }
}

/// The file of an operation tells the commit that it is at by its first word. One that says
/// nothing tells of no operation.
pub proof fn law_marker_files_tell_a_commit(id: Text, rest: Text)
    requires
        is_word(id),
    ensures
        marked(Some(id)) == Some(id),
        marked(Some(id + seq!['\n'])) == Some(id),
        marked(Some(id + seq!['\n'] + rest)) == Some(id),
        marked(Some(Seq::empty())) is None,
        marked(None) is None,
{
    let none: Text = Seq::empty();
    lemma_word_behind(none, id);
    assert(none + id =~= id);
    let line = id + seq!['\n'];
    assert(line.drop_last() =~= id);
    assert(words_of(line) == seq![id]);
    lemma_first_word(line, rest);
}

proof fn lemma_first_word(line: Text, rest: Text)
    requires
        line.len() > 0,
        is_space(line.last()),
        words_of(line).len() > 0,
    ensures
        words_of(line + rest).len() >= words_of(line).len(),
        words_of(line + rest)[0] == words_of(line)[0],
        rest.len() > 0 && !is_space(rest.last()) ==> words_of(line + rest).len() > words_of(
            line,
        ).len(),
    decreases rest.len(),
{
    let all = line + rest;
    if rest.len() == 0 {
        assert(all =~= line);
    } else {
        let init = rest.drop_last();
        lemma_first_word(line, init);
        assert(all.drop_last() =~= line + init);
        if init.len() > 0 {
            assert(all[all.len() - 2] == init.last());
        } else {
            assert(all[all.len() - 2] == line.last());
        }
    }
}

/// What is said of a conflict: what is in progress, of several with a slash between, and the
/// files in conflict.
pub proof fn law_conflicts_tell_what_is_in_progress(
    kind: Text,
    id: Text,
    other: Text,
    at: Text,
    files: Seq<Text>,
)
    ensures
        conflict_text(Seq::empty(), files) is None,
        conflict_text(seq![(kind, id)], Seq::empty()) == Some(
            "incoming, conflict ("@ + kind + ")"@,
        ),
        files.len() > 0 ==> conflict_text(seq![(kind, id)], files) == Some(
            "incoming, conflict ("@ + kind + ": "@ + joined(files, ", "@) + ")"@,
        ),
        files.len() > 0 ==> conflict_text(seq![(kind, id), (other, at)], files) == Some(
            "incoming, conflict ("@ + (kind + "/"@ + other) + ": "@ + joined(files, ", "@) + ")"@,
        ),
{
    reveal_with_fuel(joined, 3);
    let one = seq![(kind, id)].map_values(|marker: (Text, Text)| marker.0);
    let two = seq![(kind, id), (other, at)].map_values(|marker: (Text, Text)| marker.0);
    assert(one =~= seq![kind]);
    assert(two =~= seq![kind, other]);
    assert(two.drop_last() =~= seq![kind]);
    assert(joined(two, "/"@) == kind + "/"@ + other);
}

/// What is in progress is known by the files that Git keeps for it, each kind by its own,
/// and where a file is missing or empty that kind is not in progress.
pub proof fn law_operations_are_known_by_their_files(
    rebase: Option<Text>,
    merge: Option<Text>,
    cherry_pick: Option<Text>,
    id: Text,
)
    ensures
        ({
            let all = in_progress(rebase, merge, cherry_pick);
            &&& all.contains(("rebase"@, id)) <==> marked(rebase) == Some(id)
            &&& all.contains(("merge"@, id)) <==> marked(merge) == Some(id)
            &&& all.contains(("cherry-pick"@, id)) <==> marked(cherry_pick) == Some(id)
            &&& all.len() <= 3
        }),
{
    reveal_strlit("rebase");
    reveal_strlit("merge");
    reveal_strlit("cherry-pick");
    let all = in_progress(rebase, merge, cherry_pick);
    assert("rebase"@.len() == 6 && "merge"@.len() == 5 && "cherry-pick"@.len() == 11);
    if marked(rebase) == Some(id) {
        assert(all[0] == ("rebase"@, id));
    }
    let a: int = if marked(rebase) is Some {
        1
    } else {
        0
    };
    let b: int = a + if marked(merge) is Some {
        1int
    } else {
        0
    };
    if marked(merge) == Some(id) {
        assert(all[a] == ("merge"@, id));
    }
    if marked(cherry_pick) == Some(id) {
        assert(all[b] == ("cherry-pick"@, id));
    }
}

/// The refs that a view starts from are those of stacks and of the base, here and at the
/// remote.
pub proof fn law_views_start_from_stacks_and_the_base(remote: Text, base: Text)
    ensures
        root_globs(remote, base).len() == 6,
        root_globs(remote, base).contains("refs/heads/fs-head/*"@),
        root_globs(remote, base).contains("refs/heads/fs-base/*"@),
        root_globs(remote, base).contains("refs/heads/"@ + base),
        root_globs(remote, base).contains("refs/remotes/"@ + remote + "/fs-head/*"@),
        root_globs(remote, base).contains("refs/remotes/"@ + remote + "/fs-base/*"@),
        root_globs(remote, base).contains("refs/remotes/"@ + remote + "/"@ + base),
{
    let all = root_globs(remote, base);
    assert(all[0] == "refs/heads/fs-head/*"@);
    assert(all[1] == "refs/heads/fs-base/*"@);
    assert(all[2] == "refs/heads/"@ + base);
    assert(all[3] == "refs/remotes/"@ + remote + "/fs-head/*"@);
    assert(all[4] == "refs/remotes/"@ + remote + "/fs-base/*"@);
    assert(all[5] == "refs/remotes/"@ + remote + "/"@ + base);
}

} // verus!
