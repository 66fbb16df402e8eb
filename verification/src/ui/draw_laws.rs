//! What holds of the lines of a graph and of the links in them.

use crate::bytes::{first_at, lemma_text_before, text_before};
use crate::integrations::github::LinkView;
use crate::order::lemma_listed_members;
use crate::split::{joined, lines_of};
use crate::text::{occurs, stands_at, Text};
use crate::ui::links::{displayed_heads, heads_at, links_by_branch};
use crate::ui::model::{CommitView, GraphView};
use crate::ui::render::{
    branch_link, drawn_row, label_parts, label_text, labels_of, lines_for, links_in, opened,
    own_label, parts_text, rendered, rows_of, shown, shown_id, shown_width, with_link, with_links,
    LineView, Piece, RenderedLinkView,
};
use vstd::prelude::*;

verus! {

/// The lines of one commit: those that were drawn, of which the first names the commit.
pub open spec fn shows(part: Seq<LineView>, commit: CommitView, id: Text, drawn: Text) -> bool {
    &&& part.len() == lines_of(drawn).len()
    &&& forall|i: int|
        0 <= i < part.len() ==> {
            &&& (#[trigger] part[i]).text == lines_of(drawn)[i]
            &&& part[i].commit == (if i == 0 {
                Some(id)
            } else {
                None
            })
            &&& part[i].preview == commit.preview
            &&& part[i].conflict == (commit.conflict is Some)
            &&& part[i].links.len() == 0
        }
}

/// Lines are those of commits, one commit behind another.
pub open spec fn shows_all(lines: Seq<LineView>, graph: GraphView, ids: Seq<Text>) -> bool {
    exists|parts: Seq<Seq<LineView>>| #[trigger]
        parts.flatten() == lines && parts.len() == ids.len() && forall|k: int|
            0 <= k < parts.len() ==> shows(
                #[trigger] parts[k],
                graph.commits[ids[k]],
                ids[k],
                drawn_row(1, rows_of(graph, ids.take(k + 1))),
            )
}

proof fn lemma_lines_for(graph: GraphView, ids: Seq<Text>)
    ensures
        shows_all(lines_for(graph, ids), graph, ids),
    decreases ids.len(),
{
    if ids.len() == 0 {
        let parts: Seq<Seq<LineView>> = Seq::empty();
        assert(parts.flatten() == lines_for(graph, ids));
    } else {
        let before = ids.drop_last();
        lemma_lines_for(graph, before);
        let parts = choose|parts: Seq<Seq<LineView>>| #[trigger]
            parts.flatten() == lines_for(graph, before) && parts.len() == before.len() && forall|
                k: int,
            |
                0 <= k < parts.len() ==> shows(
                    #[trigger] parts[k],
                    graph.commits[before[k]],
                    before[k],
                    drawn_row(1, rows_of(graph, before.take(k + 1))),
                );
        let last = lines_for(graph, ids).skip(lines_for(graph, before).len() as int);
        let all = parts.push(last);
        parts.lemma_flatten_push(last);
        assert(all.flatten() =~= lines_for(graph, ids));
        assert forall|k: int| 0 <= k < all.len() implies shows(
            #[trigger] all[k],
            graph.commits[ids[k]],
            ids[k],
            drawn_row(1, rows_of(graph, ids.take(k + 1))),
        ) by {
            if k < before.len() {
                assert(all[k] == parts[k]);
                assert(before.take(k + 1) =~= ids.take(k + 1));
            } else {
                assert(ids.take(k + 1) =~= ids);
            }
        }
    }
}

/// A graph is drawn commit by commit, in the order of the graph. Each commit that is known
/// takes the lines that are drawn of it behind those before it, and its first line names it.
pub proof fn law_commits_are_drawn_in_order(graph: GraphView)
    ensures
        shows_all(rendered(graph), graph, shown(graph)),
        forall|id: Text| #[trigger]
            shown(graph).contains(id) <==> graph.order.contains(id) && graph.commits.contains_key(
                id,
            ),
        (forall|id: Text| #[trigger]
            graph.order.contains(id) ==> graph.commits.contains_key(id)) ==> shown(graph)
            == graph.order,
{
    lemma_lines_for(graph, shown(graph));
    broadcast use vstd::seq_lib::group_filter_ensures;
    let known = |id: Text| graph.commits.contains_key(id);
    assert(shown(graph) == graph.order.filter(known));
    assert forall|id: Text| #[trigger] shown(graph).contains(id) implies graph.order.contains(id)
        && graph.commits.contains_key(id) by {
        let i = choose|i: int| 0 <= i < shown(graph).len() && shown(graph)[i] == id;
        graph.order.lemma_filter_pred(known, i);
        graph.order.lemma_filter_contains_rev(known, id);
    }
    assert forall|id: Text|
        graph.order.contains(id) && graph.commits.contains_key(id) implies #[trigger] shown(
        graph,
    ).contains(id) by {
        let i = choose|i: int| 0 <= i < graph.order.len() && graph.order[i] == id;
        assert(known(graph.order[i]));
    }
    if forall|id: Text| #[trigger] graph.order.contains(id) ==> graph.commits.contains_key(id) {
        assert forall|i: int| 0 <= i < graph.order.len() implies known(
            #[trigger] graph.order[i],
        ) by {
            assert(graph.order.contains(graph.order[i]));
        }
        lemma_filter_all(graph.order, known);
    }
}

/// A list of which nothing is left out.
pub proof fn lemma_filter_all(v: Seq<Text>, p: spec_fn(Text) -> bool)
    requires
        forall|i: int| 0 <= i < v.len() ==> p(#[trigger] v[i]),
    ensures
        v.filter(p) == v,
    decreases v.len(),
{
    reveal(Seq::filter);
    if v.len() > 0 {
        assert forall|i: int| 0 <= i < v.drop_last().len() implies p(
            #[trigger] v.drop_last()[i],
        ) by {
            assert(v.drop_last()[i] == v[i]);
        }
        lemma_filter_all(v.drop_last(), p);
        assert(v.drop_last().push(v.last()) =~= v);
    }
}

/// What is handed to be drawn of a commit: the commit with its parents and its label, and a
/// cross where it conflicts, a diamond where it is shown as it would be, else a circle.
pub proof fn law_rows_show_their_commits(graph: GraphView, ids: Seq<Text>, k: int)
    requires
        0 <= k < ids.len(),
    ensures
        rows_of(graph, ids).len() == ids.len(),
        rows_of(graph, ids)[k].0 == ids[k],
        rows_of(graph, ids)[k].1 == graph.commits[ids[k]].parents,
        graph.commits[ids[k]].conflict is Some ==> rows_of(graph, ids)[k].2 == "x"@,
        graph.commits[ids[k]].conflict is None && graph.commits[ids[k]].preview ==> rows_of(
            graph,
            ids,
        )[k].2 == "◆"@,
        graph.commits[ids[k]].conflict is None && !graph.commits[ids[k]].preview ==> rows_of(
            graph,
            ids,
        )[k].2 == "o"@,
        rows_of(graph, ids)[k].3 == label_text(graph.commits[ids[k]], graph.branch),
{
}

/// What stands in the brackets behind the id of a commit.
pub open spec fn names_beside(commit: CommitView, branch: Option<Text>) -> Seq<Text> {
    let head = if !commit.is_head {
        Seq::empty()
    } else if branch is None {
        seq!["HEAD"@]
    } else {
        seq!["HEAD -> "@ + branch->0]
    };
    let locals = commit.local_refs.filter(
        |name: Text| !(commit.is_head && Some(name) == branch),
    );
    let tags = commit.tags.map_values(|tag: Text| "tag: "@ + tag);
    let conflict = if commit.conflict is None {
        Seq::empty()
    } else {
        seq![commit.conflict->0]
    };
    head + locals + commit.remote_refs + tags + conflict
}

proof fn lemma_parts_text(a: Seq<Piece>, b: Seq<Piece>)
    ensures
        parts_text(a + b) == parts_text(a) + parts_text(b),
    decreases b.len(),
{
    if b.len() == 0 {
        assert(a + b =~= a);
    } else {
        lemma_parts_text(a, b.drop_last());
        assert((a + b).drop_last() =~= a + b.drop_last());
        assert((a + b).last() == b.last());
    }
}

proof fn lemma_opened(labels: Seq<Seq<Piece>>, names: Seq<Text>)
    requires
        labels.len() == names.len() > 0,
        forall|i: int| 0 <= i < labels.len() ==> parts_text(#[trigger] labels[i]) == names[i],
    ensures
        parts_text(opened(labels)) == " ("@ + joined(names, ", "@),
    decreases labels.len(),
{
    reveal_with_fuel(parts_text, 2);
    if labels.len() == 1 {
        let open = seq![opened(labels)[0]];
        assert(opened(labels) =~= open + labels.last());
        lemma_parts_text(open, labels.last());
        assert(parts_text(open) =~= " ("@);
        assert(labels.last() == labels[0]);
    } else {
        let before = opened(labels.drop_last());
        assert forall|i: int| 0 <= i < labels.drop_last().len() implies parts_text(
            #[trigger] labels.drop_last()[i],
        ) == names.drop_last()[i] by {
            assert(labels.drop_last()[i] == labels[i]);
        }
        lemma_opened(labels.drop_last(), names.drop_last());
        let comma = seq![opened(labels)[before.len() as int]];
        assert(opened(labels) =~= before + comma + labels.last());
        lemma_parts_text(before + comma, labels.last());
        lemma_parts_text(before, comma);
        assert(parts_text(comma) =~= ", "@);
        assert(labels.last() == labels[labels.len() - 1]);
        assert(parts_text(opened(labels)) =~= " ("@ + joined(names, ", "@));
    }
}

proof fn lemma_labels(commit: CommitView, branch: Option<Text>)
    ensures
        labels_of(commit, branch).len() == names_beside(commit, branch).len(),
        forall|i: int|
            0 <= i < labels_of(commit, branch).len() ==> parts_text(
                #[trigger] labels_of(commit, branch)[i],
            ) == names_beside(commit, branch)[i],
{
    reveal_with_fuel(parts_text, 4);
    reveal_strlit("HEAD");
    reveal_strlit(" -> ");
    reveal_strlit("HEAD -> ");
    assert("HEAD"@ + " -> "@ =~= "HEAD -> "@);
    let locals = |name: Text| !(commit.is_head && Some(name) == branch);
    assert(own_label(commit.is_head, branch) =~= locals);
    let labels = labels_of(commit, branch);
    let names = names_beside(commit, branch);
    assert forall|i: int| 0 <= i < labels.len() implies parts_text(#[trigger] labels[i])
        == names[i] by {
        assert(parts_text(labels[i]) =~= names[i]);
    }
}

/// The label of a commit is its short id, in brackets the head, the branches, the tags and
/// the conflict with commas between them, and its subject.
pub proof fn law_labels_read(commit: CommitView, branch: Option<Text>)
    ensures
        names_beside(commit, branch).len() == 0 ==> label_text(commit, branch) == shown_id(
            commit.id,
        ) + " "@ + commit.subject,
        names_beside(commit, branch).len() > 0 ==> label_text(commit, branch) == shown_id(
            commit.id,
        ) + " ("@ + joined(names_beside(commit, branch), ", "@) + ")"@ + " "@ + commit.subject,
{
    reveal_with_fuel(parts_text, 3);
    lemma_labels(commit, branch);
    let labels = labels_of(commit, branch);
    let names = names_beside(commit, branch);
    let parts = label_parts(commit, branch);
    let n = parts.len() as int;
    let first = parts.take(1);
    let end = parts.skip(n - 2);
    assert(parts_text(first) =~= shown_id(commit.id));
    assert(parts_text(end) =~= " "@ + commit.subject);
    if labels.len() == 0 {
        assert(parts =~= first + end);
        lemma_parts_text(first, end);
        assert(label_text(commit, branch) =~= shown_id(commit.id) + " "@ + commit.subject);
    } else {
        lemma_opened(labels, names);
        let close = seq![parts[n - 3]];
        assert(parts_text(close) =~= ")"@);
        assert(parts =~= first + opened(labels) + close + end);
        lemma_parts_text(first + opened(labels) + close, end);
        lemma_parts_text(first + opened(labels), close);
        lemma_parts_text(first, opened(labels));
        assert(label_text(commit, branch) =~= shown_id(commit.id) + " ("@ + joined(names, ", "@)
            + ")"@ + " "@ + commit.subject);
    }
}

/// A link stands where a name is first shown in a line, and leads to the pull request of
/// that name.
pub open spec fn leads(
    link: RenderedLinkView,
    text: Text,
    links: Map<Text, LinkView>,
    name: Text,
) -> bool {
    exists|before: Text, after: Text|
        {
            &&& text == #[trigger] (before + name + after)
            &&& forall|i: int|
                0 <= i < before.len() ==> !name.is_prefix_of(#[trigger] text.skip(i))
            &&& link == (RenderedLinkView {
                start: shown_width(before),
                width: shown_width(name),
                text: name,
                url: links[name].url,
            })
        }
}

proof fn lemma_first_place(text: Text, name: Text, i: int)
    requires
        stands_at(text, name, i),
    ensures
        text_before(text, name) is Some,
    decreases i,
{
    if exists|j: int| 0 <= j < i && stands_at(text, name, j) {
        let j = choose|j: int| 0 <= j < i && stands_at(text, name, j);
        lemma_first_place(text, name, j);
    } else {
        assert(first_at(text, name, i));
    }
}

proof fn lemma_branch_link(text: Text, links: Map<Text, LinkView>, name: Text)
    ensures
        branch_link(text, links, name) is Some <==> links.contains_key(name) && occurs(text, name),
        branch_link(text, links, name) is Some ==> leads(
            branch_link(text, links, name)->0,
            text,
            links,
            name,
        ),
{
    if occurs(text, name) {
        let i = choose|i: int| #[trigger] stands_at(text, name, i);
        lemma_first_place(text, name, i);
    }
    if branch_link(text, links, name) is Some {
        let at = choose|i: int| #[trigger] first_at(text, name, i);
        let before = text_before(text, name)->0;
        lemma_text_before(text, name);
        let after = text.skip((before.len() + name.len()) as int);
        assert(text == before + name + after);
        assert(before == text.take(at));
        assert forall|i: int| 0 <= i < before.len() implies !name.is_prefix_of(
            #[trigger] text.skip(i),
        ) by {
            if name.is_prefix_of(text.skip(i)) {
                assert(text.subrange(i, i + name.len()) =~= name);
                assert(stands_at(text, name, i));
            }
        }
        assert(stands_at(text, name, at));
    }
}

proof fn lemma_with_link(links: Seq<RenderedLinkView>, link: RenderedLinkView)
    ensures
        forall|x: RenderedLinkView| #[trigger]
            with_link(links, link).contains(x) <==> links.contains(x) || x == link,
        with_link(links, link).len() == links.len() + 1,
    decreases links.len(),
{
    if links.len() == 0 || links.last().start <= link.start {
        assert forall|x: RenderedLinkView| #[trigger]
            with_link(links, link).contains(x) <==> links.contains(x) || x == link by {
            vstd::seq_lib::lemma_seq_contains_after_push(links, link, x);
        }
    } else {
        lemma_with_link(links.drop_last(), link);
        let rest = with_link(links.drop_last(), link);
        assert(links =~= links.drop_last().push(links.last()));
        assert forall|x: RenderedLinkView| #[trigger]
            with_link(links, link).contains(x) <==> links.contains(x) || x == link by {
            vstd::seq_lib::lemma_seq_contains_after_push(rest, links.last(), x);
            vstd::seq_lib::lemma_seq_contains_after_push(links.drop_last(), links.last(), x);
            assert(rest.contains(x) <==> links.drop_last().contains(x) || x == link);
        }
    }
}

/// A line has a link that leads to the pull request of a name.
pub open spec fn has_link(
    found: Seq<RenderedLinkView>,
    text: Text,
    links: Map<Text, LinkView>,
    name: Text,
) -> bool {
    exists|link: RenderedLinkView| #[trigger] found.contains(link) && leads(link, text, links, name)
}

/// A link leads to the pull request of one of some names.
pub open spec fn leads_to_one(
    link: RenderedLinkView,
    text: Text,
    links: Map<Text, LinkView>,
    names: Seq<Text>,
) -> bool {
    exists|name: Text| #[trigger]
        names.contains(name) && links.contains_key(name) && leads(link, text, links, name)
}

proof fn lemma_links_in(text: Text, links: Map<Text, LinkView>, names: Seq<Text>)
    ensures
        forall|name: Text| #[trigger]
            names.contains(name) && links.contains_key(name) && occurs(text, name) ==> has_link(
                links_in(text, links, names),
                text,
                links,
                name,
            ),
        forall|link: RenderedLinkView| #[trigger]
            links_in(text, links, names).contains(link) ==> leads_to_one(link, text, links, names),
        links_in(text, links, names).len() <= names.len(),
    decreases names.len(),
{
    if names.len() > 0 {
        let rest = names.drop_last();
        let last = names.last();
        let before = links_in(text, links, rest);
        let found = links_in(text, links, names);
        lemma_links_in(text, links, rest);
        lemma_branch_link(text, links, last);
        assert(names =~= rest.push(last));
        if branch_link(text, links, last) is Some {
            lemma_with_link(before, branch_link(text, links, last)->0);
        }
        assert forall|name: Text| #[trigger]
            names.contains(name) && links.contains_key(name) && occurs(text, name) implies has_link(
            found,
            text,
            links,
            name,
        ) by {
            vstd::seq_lib::lemma_seq_contains_after_push(rest, last, name);
            if name == last {
                assert(found.contains(branch_link(text, links, last)->0));
            } else {
                assert(rest.contains(name));
                let link = choose|link: RenderedLinkView| #[trigger]
                    before.contains(link) && leads(link, text, links, name);
                assert(found.contains(link));
            }
        }
        assert forall|link: RenderedLinkView| #[trigger] found.contains(link) implies leads_to_one(
            link,
            text,
            links,
            names,
        ) by {
            if before.contains(link) {
                let name = choose|name: Text| #[trigger]
                    rest.contains(name) && links.contains_key(name) && leads(
                        link,
                        text,
                        links,
                        name,
                    );
                vstd::seq_lib::lemma_seq_contains_after_push(rest, last, name);
                assert(names.contains(name));
            } else {
                vstd::seq_lib::lemma_seq_contains_after_push(rest, last, last);
                assert(names.contains(last));
            }
        }
    }
}

/// Each remote branch of a commit that has a pull request is a link to it wherever the line
/// of the commit shows it, and a line has no other links. Nothing else of a line changes.
pub proof fn law_links_lead_to_pull_requests(
    line: LineView,
    commits: Map<Text, CommitView>,
    links: Map<Text, LinkView>,
)
    ensures
        ({
            let found = with_links(line, commits, links);
            &&& found.text == line.text
            &&& found.commit == line.commit
            &&& found.preview == line.preview
            &&& found.conflict == line.conflict
            &&& found.styles == line.styles
            &&& line.commit is None ==> found.links.len() == 0
            &&& line.commit is Some && !commits.contains_key(line.commit->0) ==> found.links.len()
                == 0
            &&& line.commit is Some && commits.contains_key(line.commit->0) ==> {
                let names = commits[line.commit->0].remote_refs;
                &&& forall|name: Text| #[trigger]
                    names.contains(name) && links.contains_key(name) && occurs(line.text, name)
                        ==> has_link(found.links, line.text, links, name)
                &&& forall|link: RenderedLinkView| #[trigger]
                    found.links.contains(link) ==> leads_to_one(link, line.text, links, names)
            }
        }),
{
    if line.commit is Some && commits.contains_key(line.commit->0) {
        lemma_links_in(line.text, links, commits[line.commit->0].remote_refs);
    }
}

/// Pull requests are known by the remote and the branch that they are opened from. Of
/// several from one branch the last counts.
pub proof fn law_pull_requests_are_known_by_branch(remote: Text, links: Seq<LinkView>)
    ensures
        forall|i: int|
            0 <= i < links.len() ==> links_by_branch(remote, links).contains_key(
                remote + "/"@ + (#[trigger] links[i]).head_ref_name,
            ),
        forall|name: Text| #[trigger]
            links_by_branch(remote, links).contains_key(name) ==> last_from(
                links,
                remote,
                name,
                links_by_branch(remote, links)[name],
            ),
    decreases links.len(),
{
    if links.len() > 0 {
        let rest = links.drop_last();
        let last = links.last();
        let all = links_by_branch(remote, links);
        law_pull_requests_are_known_by_branch(remote, rest);
        assert forall|i: int| 0 <= i < links.len() implies all.contains_key(
            remote + "/"@ + (#[trigger] links[i]).head_ref_name,
        ) by {
            if i < rest.len() {
                assert(rest[i] == links[i]);
            }
        }
        assert forall|name: Text| #[trigger] all.contains_key(name) implies last_from(
            links,
            remote,
            name,
            all[name],
        ) by {
            if name == remote + "/"@ + last.head_ref_name {
                assert(is_last_from(links, remote, name, links.len() - 1));
            } else {
                assert(links_by_branch(remote, rest).contains_key(name));
                let i = choose|i: int|
                    #[trigger] is_last_from(rest, remote, name, i) && rest[i] == all[name];
                assert forall|j: int| i < j < links.len() implies remote + "/"@ + (
                #[trigger] links[j]).head_ref_name != name by {
                    if j < rest.len() {
                        assert(rest[j] == links[j]);
                    }
                }
                assert(is_last_from(links, remote, name, i));
            }
        }
    }
}

/// The last pull request from a branch is the one at a place.
pub open spec fn is_last_from(links: Seq<LinkView>, remote: Text, name: Text, i: int) -> bool {
    &&& 0 <= i < links.len()
    &&& remote + "/"@ + links[i].head_ref_name == name
    &&& forall|j: int|
        i < j < links.len() ==> remote + "/"@ + (#[trigger] links[j]).head_ref_name != name
}

/// A pull request is the last from a branch.
pub open spec fn last_from(
    links: Seq<LinkView>,
    remote: Text,
    name: Text,
    link: LinkView,
) -> bool {
    exists|i: int| #[trigger] is_last_from(links, remote, name, i) && links[i] == link
}

/// A commit of a graph shows a branch of a remote.
pub open spec fn shown_branch(graph: GraphView, remote: Text, name: Text) -> bool {
    exists|id: Text| #[trigger]
        graph.commits.contains_key(id) && graph.commits[id].remote_refs.contains(
            remote + "/"@ + name,
        )
}

proof fn lemma_heads_finite(commits: Map<Text, CommitView>, ids: Set<Text>, remote: Text)
    requires
        ids.finite(),
    ensures
        heads_at(commits, ids, remote).finite(),
    decreases ids.len(),
{
    let heads = heads_at(commits, ids, remote);
    if ids.len() == 0 {
        assert(heads =~= Set::empty());
    } else {
        let id = ids.choose();
        let rest = ids.remove(id);
        lemma_heads_finite(commits, rest, remote);
        let refs = commits[id].remote_refs.to_set();
        let root = remote + "/"@;
        let named = |name: Text| name.skip(root.len() as int);
        vstd::seq_lib::seq_to_set_is_finite(commits[id].remote_refs);
        refs.lemma_map_finite(named);
        let all = heads_at(commits, rest, remote).union(refs.map(named));
        assert forall|name: Text| #[trigger] heads.contains(name) implies all.contains(name) by {
            let at = choose|at: Text| #[trigger]
                ids.contains(at) && commits[at].remote_refs.contains(root + name);
            if at == id {
                assert(refs.contains(root + name));
                assert(named(root + name) =~= name);
            } else {
                assert(rest.contains(at));
            }
        }
        vstd::set_lib::lemma_set_subset_finite(all, heads);
    }
}

/// The branches of a remote for which pull requests are asked are just those that the graph
/// shows, each once.
pub proof fn law_shown_branches_are_asked_for(graph: GraphView, remote: Text)
    requires
        graph.commits.dom().finite(),
    ensures
        displayed_heads(graph, remote).no_duplicates(),
        forall|name: Text| #[trigger]
            displayed_heads(graph, remote).contains(name) <==> shown_branch(graph, remote, name),
{
    let heads = heads_at(graph.commits, graph.commits.dom(), remote);
    lemma_heads_finite(graph.commits, graph.commits.dom(), remote);
    lemma_listed_members(heads);
    assert forall|name: Text| #[trigger] heads.contains(name) implies shown_branch(
        graph,
        remote,
        name,
    ) by {
        let id = choose|id: Text| #[trigger]
            graph.commits.dom().contains(id) && graph.commits[id].remote_refs.contains(
                remote + "/"@ + name,
            );
        assert(graph.commits.contains_key(id));
    }
    assert forall|name: Text| shown_branch(graph, remote, name) implies #[trigger] heads.contains(
        name,
    ) by {
        let id = choose|id: Text| #[trigger]
            graph.commits.contains_key(id) && graph.commits[id].remote_refs.contains(
                remote + "/"@ + name,
            );
        assert(graph.commits.dom().contains(id));
    }
}

/// A commit is shown by the first eight characters of its id, without the mark of a commit
/// that is shown as it would be.
pub proof fn law_ids_are_shortened(id: Text)
    requires
        vstd::utf8::is_ascii_chars(id),
        !"preview:"@.is_prefix_of(id),
    ensures
        id.len() >= 8 ==> shown_id(id) == id.take(8) && shown_id("preview:"@ + id) == id.take(8),
        id.len() < 8 ==> shown_id(id) == id && shown_id("preview:"@ + id) == id,
{
    let marked = "preview:"@ + id;
    assert("preview:"@.is_prefix_of(marked));
    assert(marked.skip("preview:"@.len() as int) =~= id);
    vstd::utf8::is_ascii_chars_encode_utf8(id);
    let bytes = vstd::utf8::encode_utf8(id);
    if id.len() > 8 {
        let short = id.take(8);
        vstd::utf8::is_ascii_chars_encode_utf8(short);
        assert(vstd::utf8::encode_utf8(short) =~= bytes.subrange(0, 8));
        vstd::utf8::encode_utf8_decode_utf8(short);
    } else if id.len() == 8 {
        assert(id.take(8) =~= id);
    }
}

} // verus!
