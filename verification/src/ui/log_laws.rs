//! What holds of graphs that are put together from what Git prints.

use crate::order::{in_order, lemma_sorted};
use crate::split::{joined, lines_of, split_on, words_of};
use crate::stack::plan_laws::{lemma_split_more, lemma_split_some};
use crate::text::{is_space, Text};
use crate::ui::load::{
    is_marked, local_part, remote_part, WalkedView,
};
use crate::ui::load_laws::{
    lemma_named, lemma_prefixed, lemma_walked_commit, points, walk_differs,
};
use crate::ui::local::{
    breaks_trimmed, breaks_trimmed_end, breaks_trimmed_start, is_break, listed_ref, listed_refs,
    load_args, load_result, log_commits, log_graph, logged, markers_in, names_of,
    record_commit,
    LogSnapshotView, FIELD_END, RECORD_END,
};
use vstd::prelude::*;

verus! {

/// How Git tells of a commit: its id, its parents with a space between them and its
/// subject, with separators between these.
pub open spec fn told(commit: WalkedView) -> Text {
    commit.id + seq!['\x1f'] + joined(commit.parents, " "@) + seq!['\x1f'] + commit.subject
}

/// How Git tells of commits: one behind another, each with a separator and the end of a
/// line behind it.
pub open spec fn told_all(commits: Seq<WalkedView>) -> Text
    decreases commits.len(),
{
    if commits.len() == 0 {
        Seq::empty()
    } else {
        told_all(commits.drop_last()) + told(commits.last()) + seq!['\x1e', '\n']
    }
}

/// A word: there is something to it, and no white space or separator in it.
pub open spec fn is_word(s: Text) -> bool {
    &&& s.len() > 0
    &&& forall|i: int|
        0 <= i < s.len() ==> !is_space(#[trigger] s[i]) && s[i] != '\x1e' && s[i] != '\x1f'
}

/// What Git can tell of a commit: words for ids, and a subject of one line.
pub open spec fn tellable(commit: WalkedView) -> bool {
    &&& is_word(commit.id)
    &&& forall|i: int| 0 <= i < commit.parents.len() ==> is_word(#[trigger] commit.parents[i])
    &&& forall|i: int|
        0 <= i < commit.subject.len() ==> (#[trigger] commit.subject[i]) != '\n'
            && commit.subject[i] != '\r' && commit.subject[i] != '\x1e'
}

/// A word behind a space is one more word.
pub proof fn lemma_word_behind(s: Text, w: Text)
    requires
        is_word(w),
        s.len() == 0 || is_space(s.last()),
    ensures
        words_of(s + w) == words_of(s).push(w),
    decreases w.len(),
{
    let t = s + w;
    let init = w.drop_last();
    assert(t.drop_last() =~= s + init);
    assert(t.last() == w[w.len() - 1]);
    if w.len() == 1 {
        assert(s + init =~= s);
        assert(seq![t.last()] =~= w);
        if t.len() >= 2 {
            assert(t[t.len() - 2] == s.last());
        }
    } else {
        assert forall|i: int| 0 <= i < init.len() implies !is_space(#[trigger] init[i]) && init[i]
            != '\x1e' && init[i] != '\x1f' by {
            assert(init[i] == w[i]);
        }
        lemma_word_behind(s, init);
        assert(t[t.len() - 2] == w[w.len() - 2]);
        let done = words_of(s).push(init);
        assert(done.drop_last() =~= words_of(s));
        assert(init.push(t.last()) =~= w);
    }
}

/// Words with spaces between them are read back.
pub proof fn lemma_words_joined(words: Seq<Text>)
    requires
        forall|i: int| 0 <= i < words.len() ==> is_word(#[trigger] words[i]),
    ensures
        words_of(joined(words, " "@)) == words,
    decreases words.len(),
{
    reveal_strlit(" ");
    if words.len() == 1 {
        lemma_word_behind(Seq::empty(), words[0]);
        assert(Seq::<char>::empty() + words[0] =~= words[0]);
        assert(words_of(words[0]) =~= words);
    } else if words.len() > 1 {
        let init = words.drop_last();
        assert forall|i: int| 0 <= i < init.len() implies is_word(#[trigger] init[i]) by {
            assert(init[i] == words[i]);
        }
        lemma_words_joined(init);
        let before = joined(init, " "@);
        let spaced = before + " "@;
        assert(spaced.drop_last() =~= before);
        assert(spaced.last() == ' ');
        assert(words_of(spaced) == init);
        assert(is_word(words[words.len() - 1]));
        lemma_word_behind(spaced, words.last());
        assert(init.push(words.last()) =~= words);
    }
}

/// A text without the separator is one part.
pub proof fn lemma_split_whole(s: Text, sep: char)
    requires
        !s.contains(sep),
    ensures
        split_on(s, sep) == seq![s],
{
    lemma_split_more(Seq::empty(), s, sep);
    assert(Seq::<char>::empty() + s =~= s);
    assert(split_on(s, sep) =~= seq![s]);
}

/// The parts of a text behind a separator follow those before it.
pub proof fn lemma_split_behind(a: Text, b: Text, sep: char)
    ensures
        split_on(a + seq![sep] + b, sep) == split_on(a, sep) + split_on(b, sep),
    decreases b.len(),
{
    let t = a + seq![sep] + b;
    lemma_split_some(b, sep);
    if b.len() == 0 {
        assert(t.drop_last() =~= a);
        assert(split_on(t, sep) =~= split_on(a, sep) + split_on(b, sep));
    } else {
        let init = b.drop_last();
        lemma_split_behind(a, init, sep);
        lemma_split_some(init, sep);
        assert(t.drop_last() =~= a + seq![sep] + init);
        assert(t.last() == b.last());
        assert(split_on(t, sep) =~= split_on(a, sep) + split_on(b, sep));
    }
}

/// The parts of a text make it up again.
pub proof fn lemma_split_joined(s: Text, sep: char)
    ensures
        joined(split_on(s, sep), seq![sep]) == s,
    decreases s.len(),
{
    if s.len() > 0 {
        let init = s.drop_last();
        lemma_split_joined(init, sep);
        lemma_split_some(init, sep);
        let parts = split_on(init, sep);
        let all = split_on(s, sep);
        if s.last() == sep {
            assert(all.drop_last() =~= parts);
            assert(joined(all, seq![sep]) =~= s);
        } else {
            assert(all.drop_last() =~= parts.drop_last());
            assert(all.last() == parts.last().push(s.last()));
            if parts.len() == 1 {
                assert(all[0] == parts[0].push(s.last()));
            }
            assert(joined(all, seq![sep]) =~= joined(parts, seq![sep]).push(s.last()));
            assert(init.push(s.last()) =~= s);
        }
    }
}

proof fn lemma_record(commit: WalkedView)
    requires
        tellable(commit),
    ensures
        record_commit(told(commit)) == Some(commit),
{
    let parents = joined(commit.parents, " "@);
    let rest = parents + seq!['\x1f'] + commit.subject;
    assert(told(commit) =~= commit.id + seq!['\x1f'] + rest);
    assert(!commit.id.contains('\x1f'));
    lemma_joined_free(commit.parents, '\x1f');
    lemma_split_whole(commit.id, '\x1f');
    lemma_split_whole(parents, '\x1f');
    lemma_split_behind(commit.id, rest, '\x1f');
    lemma_split_behind(parents, commit.subject, '\x1f');
    lemma_split_some(commit.subject, '\x1f');
    lemma_split_joined(commit.subject, '\x1f');
    lemma_words_joined(commit.parents);
    let fields = split_on(told(commit), FIELD_END);
    assert(fields =~= seq![commit.id, parents] + split_on(commit.subject, '\x1f'));
    assert(fields.skip(2) =~= split_on(commit.subject, '\x1f'));
}

proof fn lemma_joined_free(words: Seq<Text>, sep: char)
    requires
        forall|i: int| 0 <= i < words.len() ==> is_word(#[trigger] words[i]),
        sep == '\x1e' || sep == '\x1f',
    ensures
        !joined(words, " "@).contains(sep),
    decreases words.len(),
{
    reveal_strlit(" ");
    let text = joined(words, " "@);
    if words.len() == 1 {
        assert(is_word(words[0]));
    } else if words.len() > 1 {
        let init = words.drop_last();
        assert forall|i: int| 0 <= i < init.len() implies is_word(#[trigger] init[i]) by {
            assert(init[i] == words[i]);
        }
        lemma_joined_free(init, sep);
        assert(is_word(words[words.len() - 1]));
        let before = joined(init, " "@);
        assert forall|i: int| 0 <= i < text.len() implies text[i] != sep by {
            if i < before.len() {
                assert(before[i] != sep);
            } else if i > before.len() {
                assert(text[i] == words.last()[i - before.len() - 1]);
            }
        }
    }
}

proof fn lemma_trimmed(front: Text, commit: WalkedView)
    requires
        tellable(commit),
        front.len() == 0 || front == seq!['\n'],
    ensures
        breaks_trimmed(front + told(commit)) == told(commit),
        told(commit).len() > 0,
        !told(commit).contains('\x1e'),
{
    let text = told(commit);
    let all = front + text;
    let parents = joined(commit.parents, " "@);
    assert(!is_break(text.last())) by {
        if commit.subject.len() > 0 {
            assert(text.last() == commit.subject[commit.subject.len() - 1]);
        } else {
            assert(text.last() == '\x1f');
        }
    }
    assert(text[0] == commit.id[0]);
    assert(!is_space(commit.id[0]));
    assert(!is_break(text[0]));
    assert(all.last() == text.last());
    assert(breaks_trimmed_end(all) == all);
    reveal_with_fuel(breaks_trimmed_start, 2);
    if front.len() > 0 {
        assert(all.drop_first() =~= text);
    } else {
        assert(all =~= text);
    }
    lemma_joined_free(commit.parents, '\x1e');
    let n = commit.id.len() as int;
    let m = n + 1 + parents.len();
    assert forall|i: int| 0 <= i < text.len() implies text[i] != '\x1e' by {
        if i < n {
            assert(text[i] == commit.id[i]);
        } else if n < i < m {
            assert(text[i] == parents[i - n - 1]);
        } else if i > m {
            assert(text[i] == commit.subject[i - m - 1]);
        }
    }
}

proof fn lemma_told_all(commits: Seq<WalkedView>)
    requires
        forall|i: int| 0 <= i < commits.len() ==> tellable(#[trigger] commits[i]),
    ensures
        ({
            let parts = split_on(told_all(commits), '\x1e');
            &&& parts.len() == commits.len() + 1
            &&& commits.len() == 0 ==> parts.last().len() == 0
            &&& commits.len() > 0 ==> parts.last() == seq!['\n']
            &&& logged(parts.drop_last()) == Ok::<Seq<WalkedView>, Text>(commits)
        }),
    decreases commits.len(),
{
    let parts = split_on(told_all(commits), '\x1e');
    if commits.len() == 0 {
        assert(logged(parts.drop_last()) == Ok::<Seq<WalkedView>, Text>(Seq::empty()));
        assert(commits =~= Seq::empty());
    } else {
        let init = commits.drop_last();
        let last = commits[commits.len() - 1];
        assert forall|i: int| 0 <= i < init.len() implies tellable(#[trigger] init[i]) by {
            assert(init[i] == commits[i]);
        }
        lemma_told_all(init);
        let before = told_all(init);
        let old_parts = split_on(before, '\x1e');
        let front = old_parts.last();
        lemma_trimmed(front, last);
        lemma_record(last);
        lemma_split_more(before, told(last), '\x1e');
        let end = seq!['\n'];
        lemma_split_whole(end, '\x1e');
        lemma_split_behind(before + told(last), end, '\x1e');
        assert(told_all(commits) =~= before + told(last) + seq!['\x1e'] + end);
        let now = old_parts.drop_last().push(front + told(last));
        assert(parts =~= now + seq![end]);
        assert(parts.drop_last() =~= now);
        assert(now.drop_last() =~= old_parts.drop_last());
        assert(init.push(last) =~= commits);
    }
}

/// The log in which Git tells of commits is read as those commits: in their order, each
/// with its id, its parents in their order and its whole subject.
pub proof fn law_told_commits_are_read(commits: Seq<WalkedView>)
    requires
        forall|i: int| 0 <= i < commits.len() ==> tellable(#[trigger] commits[i]),
    ensures
        log_commits(told_all(commits)) == Ok::<Seq<WalkedView>, Text>(commits),
{
    lemma_told_all(commits);
    let parts = split_on(told_all(commits), RECORD_END);
    reveal_with_fuel(breaks_trimmed_end, 2);
    assert(breaks_trimmed(parts.last()).len() == 0) by {
        if commits.len() > 0 {
            assert(parts.last().drop_last() =~= Seq::empty());
        }
    }
}

proof fn lemma_listed_refs(lines: Seq<Text>, id: Text, name: Text)
    requires
        !id.contains('\0'),
        !name.contains('\0'),
    ensures
        lines.contains(id + seq!['\0'] + name) ==> listed_refs(lines).contains((id, name)),
    decreases lines.len(),
{
    let line = id + seq!['\0'] + name;
    if lines.contains(line) {
        let init = lines.drop_last();
        lemma_listed_refs(init, id, name);
        let before = listed_refs(init);
        if lines.last() == line {
            lemma_split_whole(id, '\0');
            lemma_split_whole(name, '\0');
            lemma_split_behind(id, name, '\0');
            let parts = split_on(line, '\0');
            assert(parts =~= seq![id, name]);
            assert(parts.skip(1) =~= seq![name]);
            vstd::seq_lib::lemma_seq_contains_after_push(before, (id, name), (id, name));
        } else {
            let i = choose|i: int| 0 <= i < lines.len() && lines[i] == line;
            assert(init[i] == line);
            assert(before.contains((id, name)));
            if listed_ref(lines.last()) is Some {
                let more = listed_ref(lines.last())->0;
                vstd::seq_lib::lemma_seq_contains_after_push(before, more, (id, name));
            }
        }
    }
}

proof fn lemma_names_of(
    refs: Seq<(Text, Text)>,
    id: Text,
    part: spec_fn(Text) -> Option<Text>,
    name: Text,
)
    ensures
        names_of(refs, id, part).contains(name) <==> exists|i: int|
            0 <= i < refs.len() && (#[trigger] refs[i]).0 == id && part(refs[i].1) == Some(name),
    decreases refs.len(),
{
    if refs.len() > 0 {
        let init = refs.drop_last();
        let last = refs[refs.len() - 1];
        let before = names_of(init, id, part);
        lemma_names_of(init, id, part, name);
        if last.0 == id && part(last.1) is Some {
            vstd::seq_lib::lemma_seq_contains_after_push(before, part(last.1)->0, name);
        }
        if before.contains(name) {
            let i = choose|i: int|
                0 <= i < init.len() && (#[trigger] init[i]).0 == id && part(init[i].1) == Some(
                    name,
                );
            assert(refs[i] == init[i]);
        }
        if exists|i: int|
            0 <= i < refs.len() && (#[trigger] refs[i]).0 == id && part(refs[i].1) == Some(name) {
            let i = choose|i: int|
                0 <= i < refs.len() && (#[trigger] refs[i]).0 == id && part(refs[i].1) == Some(
                    name,
                );
            if i < init.len() {
                assert(init[i] == refs[i]);
            }
        }
    }
}

/// The graph that the log and the refs make holds every commit of the log as the log tells
/// it, with its parents and its subject, where the log has it. What is checked out is its
/// head.
pub proof fn law_logged_commits_are_shown(
    s: LogSnapshotView,
    commits: Seq<WalkedView>,
    i: int,
)
    requires
        forall|j: int| 0 <= j < commits.len() ==> tellable(#[trigger] commits[j]),
        walk_differs(commits),
        s.log == told_all(commits),
        0 <= i < commits.len(),
    ensures
        log_graph(s) is Ok,
        ({
            let graph = log_graph(s)->Ok_0;
            let id = commits[i].id;
            &&& graph.order.len() == commits.len()
            &&& graph.order[i] == id
            &&& graph.commits.contains_key(id)
            &&& graph.commits[id].id == id
            &&& graph.commits[id].parents == commits[i].parents
            &&& graph.commits[id].subject == commits[i].subject
            &&& !graph.commits[id].preview
            &&& graph.commits[id].is_head <==> id == s.head
            &&& graph.head == s.head
            &&& graph.branch == s.branch
            &&& graph.commits[id].conflict is Some <==> s.markers.len() > 0 && (id == s.head
                || is_marked(s.markers, id))
        }),
{
    law_told_commits_are_read(commits);
    lemma_walked_commit(commits, i);
}

/// A commit has the local and the remote branches that the list of refs has at it, but not
/// the symbolic head of a remote.
pub proof fn law_listed_branches_are_shown(s: LogSnapshotView, id: Text, name: Text)
    requires
        log_graph(s) is Ok,
        log_graph(s)->Ok_0.commits.contains_key(id),
        !id.contains('\0'),
        !name.contains('\0'),
    ensures
        ({
            let commit = log_graph(s)->Ok_0.commits[id];
            let lines = lines_of(s.refs);
            &&& lines.contains(id + seq!['\0'] + ("refs/heads/"@ + name))
                ==> commit.local_refs.contains(name)
            &&& lines.contains(id + seq!['\0'] + ("refs/remotes/"@ + name)) && !"/HEAD"@.is_suffix_of(
                name,
            ) ==> commit.remote_refs.contains(name)
            &&& commit.local_refs.contains(name) ==> points(
                listed_refs(lines),
                id,
                "refs/heads/"@ + name,
            )
            &&& commit.remote_refs.contains(name) ==> points(
                listed_refs(lines),
                id,
                "refs/remotes/"@ + name,
            ) && !"/HEAD"@.is_suffix_of(name)
        }),
{
    let lines = lines_of(s.refs);
    let refs = listed_refs(lines);
    let commit = log_graph(s)->Ok_0.commits[id];
    let local = names_of(refs, id, local_part());
    let remote = names_of(refs, id, remote_part());
    lemma_sorted::<String>(local);
    lemma_sorted::<String>(remote);
    assert(commit.local_refs == in_order(local));
    assert(commit.remote_refs == in_order(remote));
    lemma_names_of(refs, id, local_part(), name);
    lemma_names_of(refs, id, remote_part(), name);
    let head = "refs/heads/"@ + name;
    let far = "refs/remotes/"@ + name;
    lemma_named("refs/heads/"@, name);
    lemma_named("refs/remotes/"@, name);
    assert(!head.contains('\0')) by {
        reveal_strlit("refs/heads/");
        assert forall|i: int| 0 <= i < head.len() implies head[i] != '\0' by {
            if i >= "refs/heads/"@.len() {
                assert(head[i] == name[i - "refs/heads/"@.len()]);
            }
        }
    }
    assert(!far.contains('\0')) by {
        reveal_strlit("refs/remotes/");
        assert forall|i: int| 0 <= i < far.len() implies far[i] != '\0' by {
            if i >= "refs/remotes/"@.len() {
                assert(far[i] == name[i - "refs/remotes/"@.len()]);
            }
        }
    }
    lemma_listed_refs(lines, id, head);
    lemma_listed_refs(lines, id, far);
    if refs.contains((id, head)) {
        let i = refs.index_of((id, head));
        assert(refs[i].0 == id && local_part()(refs[i].1) == Some(name));
    }
    if refs.contains((id, far)) && !"/HEAD"@.is_suffix_of(name) {
        let i = refs.index_of((id, far));
        assert(refs[i].0 == id && remote_part()(refs[i].1) == Some(name));
    }
    if local.contains(name) {
        let i = choose|i: int|
            0 <= i < refs.len() && (#[trigger] refs[i]).0 == id && local_part()(refs[i].1) == Some(
                name,
            );
        lemma_prefixed("refs/heads/"@, refs[i].1);
        assert(refs[i] == (id, head));
    }
    if remote.contains(name) {
        let i = choose|i: int|
            0 <= i < refs.len() && (#[trigger] refs[i]).0 == id && remote_part()(refs[i].1)
                == Some(name);
        lemma_prefixed("refs/remotes/"@, refs[i].1);
        assert(refs[i] == (id, far));
    }
}

/// Reading a graph through Git asks for the directory, for what is checked out, for the
/// operations in progress, for the files in conflict, for the log of all branches and for
/// the refs. The graph is made of the replies. That there is no branch, operation or
/// conflict is no error.
pub proof fn law_graphs_are_made_of_the_replies(replies: Seq<Result<Text, Text>>)
    requires
        replies.len() == 9,
        replies[0] is Ok,
        replies[1] is Ok,
        replies[7] is Ok,
        replies[8] is Ok,
        log_commits(replies[7]->Ok_0) is Ok,
    ensures
        load_args(1, replies) == seq!["rev-parse"@, "HEAD"@],
        load_args(2, replies) == seq!["symbolic-ref"@, "--quiet"@, "--short"@, "HEAD"@],
        load_args(7, replies).len() >= 6,
        load_args(7, replies)[0] == "log"@,
        load_args(7, replies).contains("--branches"@),
        load_args(7, replies).contains("--remotes"@),
        load_args(7, replies).contains("HEAD"@),
        load_args(7, replies).contains("--topo-order"@),
        load_args(7, replies).contains("--format=%H%x1f%P%x1f%s%x1e"@),
        forall|i: int|
            3 <= i < 6 && (#[trigger] replies[i]) is Ok ==> load_args(7, replies).contains(
                replies[i]->Ok_0,
            ),
        load_result(replies) matches Some(Ok(graph)) && graph.head == replies[1]->Ok_0
            && graph.branch == (match replies[2] {
            Ok(branch) => Some(branch),
            Err(_) => None,
        }),
{
    let args = load_args(7, replies);
    let markers = markers_in(replies, 3);
    assert(args[0] == "log"@ && args[1] == "--branches"@ && args[2] == "--remotes"@ && args[3]
        == "HEAD"@ && args[4] == "--topo-order"@ && args[5] == "--format=%H%x1f%P%x1f%s%x1e"@);
    reveal_with_fuel(markers_in, 4);
    assert forall|i: int| 3 <= i < 6 && (#[trigger] replies[i]) is Ok implies args.contains(
        replies[i]->Ok_0,
    ) by {
        let one = markers_in(replies, 1);
        let two = markers_in(replies, 2);
        let at = if i == 3 {
            0
        } else if i == 4 {
            one.len() as int
        } else {
            two.len() as int
        };
        assert(markers[at].1 == replies[i]->Ok_0);
        assert(args[6 + at] == replies[i]->Ok_0);
    }
}

} // verus!
