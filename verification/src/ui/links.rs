//! The pull requests of the remote branches that are shown.

use crate::dict::Dict;
use crate::integrations::github::{LinkView, PullRequestLink};
use crate::order::{list, listed, views};
use crate::text::{strip_prefix, texts, Text};
use crate::ui::model::{CommitView, Graph, GraphView};
use vstd::prelude::*;

verus! {

/// What the names of a remote's branches begin with.
pub open spec fn remote_root(remote: Text) -> Text {
    remote + "/"@
}

/// The branches of a remote that some commits show.
pub open spec fn heads_at(
    commits: Map<Text, CommitView>,
    ids: Set<Text>,
    remote: Text,
) -> Set<Text> {
    Set::new(
        |name: Text|
            exists|id: Text| #[trigger]
                ids.contains(id) && commits[id].remote_refs.contains(remote_root(remote) + name),
    )
}

/// The branches of a remote that a graph shows, in order.
pub open spec fn displayed_heads(graph: GraphView, remote: Text) -> Seq<Text> {
    listed(heads_at(graph.commits, graph.commits.dom(), remote))
}

/// The branches of a remote among refs.
pub open spec fn heads_in(refs: Seq<Text>, remote: Text) -> Set<Text> {
    Set::new(|name: Text| refs.contains(remote_root(remote) + name))
}

/// Adds the branches of a remote among refs to others.
fn push_heads(found: &mut Vec<String>, refs: &Vec<String>, root: &str, remote: Ghost<Text>)
    requires
        root@ == remote_root(remote@),
    ensures
        texts(final(found)@).to_set() == texts(old(found)@).to_set().union(
            heads_in(texts(refs@), remote@),
        ),
{
    let ghost all = texts(refs@);
    let ghost start = texts(found@).to_set();
    let mut i: usize = 0;
    assert(heads_in(all.take(0), remote@) =~= Set::empty());
    assert(texts(found@).to_set() =~= start.union(heads_in(all.take(0), remote@)));
    while i < refs.len()
        invariant
            i <= refs.len(),
            all == texts(refs@),
            root@ == remote_root(remote@),
            texts(found@).to_set() == start.union(heads_in(all.take(i as int), remote@)),
        decreases refs.len() - i,
    {
        let ghost before = all.take(i as int);
        let ghost one = all[i as int];
        let ghost was = texts(found@);
        assert(all.take(i + 1) =~= before.push(one));
        match strip_prefix(refs[i].as_str(), root) {
            None => {
                assert forall|name: Text| heads_in(before.push(one), remote@).contains(name)
                    == heads_in(before, remote@).contains(name) by {
                    vstd::seq_lib::lemma_seq_contains_after_push(before, one, root@ + name);
                    if root@ + name == one {
                        assert(root@.is_prefix_of(one));
                    }
                }
                assert(heads_in(before.push(one), remote@) =~= heads_in(before, remote@));
            },
            Some(rest) => {
                let ghost view = rest@;
                found.push(rest);
                assert(texts(found@) =~= was.push(view));
                assert(one =~= root@ + view);
                assert forall|name: Text| heads_in(before.push(one), remote@).contains(name)
                    == heads_in(before, remote@).insert(view).contains(name) by {
                    vstd::seq_lib::lemma_seq_contains_after_push(before, one, root@ + name);
                    if root@ + name == one {
                        assert((root@ + name).skip(root@.len() as int) =~= name);
                        assert((root@ + view).skip(root@.len() as int) =~= view);
                    }
                }
                assert(heads_in(before.push(one), remote@) =~= heads_in(before, remote@).insert(
                    view,
                ));
                assert forall|name: Text| was.push(view).to_set().contains(name)
                    == was.to_set().insert(view).contains(name) by {
                    vstd::seq_lib::lemma_seq_contains_after_push(was, view, name);
                }
                assert(was.push(view).to_set() =~= was.to_set().insert(view));
                assert(texts(found@).to_set() =~= start.union(
                    heads_in(before.push(one), remote@),
                ));
            },
        }
        i = i + 1;
    }
    assert(all.take(all.len() as int) =~= all);
}

/// The branches of a remote that a graph shows, in order.
pub fn displayed_remote_heads(graph: &Graph, remote: &str) -> (r: Vec<String>)
    ensures
        texts(r@) == displayed_heads(graph@, remote@),
{
    let ghost commits = graph@.commits;
    let root = remote.to_owned().concat("/");
    let n = graph.commits.len();
    let ghost names = graph.commits.names();
    let mut found: Vec<String> = Vec::new();
    let mut i: usize = 0;
    assert(texts(found@).to_set() =~= heads_at(commits, names.take(0).to_set(), remote@));
    while i < n
        invariant
            i <= n,
            n == names.len(),
            names == graph.commits.names(),
            commits == graph@.commits,
            root@ == remote_root(remote@),
            texts(found@).to_set() == heads_at(commits, names.take(i as int).to_set(), remote@),
        decreases n - i,
    {
        let ghost before = names.take(i as int);
        let ghost id = names[i as int];
        let commit = graph.commits.value(i);
        assert(commits[id] == commit@);
        push_heads(&mut found, &commit.remote_refs, root.as_str(), Ghost(remote@));
        assert(names.take(i + 1) =~= before.push(id));
        assert forall|name: Text| heads_at(commits, before.push(id).to_set(), remote@).contains(
            name,
        ) == heads_at(commits, before.to_set(), remote@).union(
            heads_in(commit@.remote_refs, remote@),
        ).contains(name) by {
            if heads_at(commits, before.to_set(), remote@).contains(name) {
                let k = choose|k: Text| #[trigger]
                    before.to_set().contains(k) && commits[k].remote_refs.contains(
                        remote_root(remote@) + name,
                    );
                vstd::seq_lib::lemma_seq_contains_after_push(before, id, k);
                assert(before.push(id).to_set().contains(k));
            }
            if heads_in(commit@.remote_refs, remote@).contains(name) {
                vstd::seq_lib::lemma_seq_contains_after_push(before, id, id);
                assert(before.push(id).to_set().contains(id));
            }
            if heads_at(commits, before.push(id).to_set(), remote@).contains(name) {
                let k = choose|k: Text| #[trigger]
                    before.push(id).to_set().contains(k) && commits[k].remote_refs.contains(
                        remote_root(remote@) + name,
                    );
                vstd::seq_lib::lemma_seq_contains_after_push(before, id, k);
                if k != id {
                    assert(before.to_set().contains(k));
                }
            }
        }
        assert(heads_at(commits, before.push(id).to_set(), remote@) =~= heads_at(
            commits,
            before.to_set(),
            remote@,
        ).union(heads_in(commit@.remote_refs, remote@)));
        i = i + 1;
    }
    assert(names.take(n as int) =~= names);
    assert(names.to_set() =~= commits.dom()) by {
        assert forall|k: Text| names.to_set().contains(k) == commits.dom().contains(k) by {
            assert(graph.commits.raw().contains_key(k) == names.contains(k));
        }
    }
    list(&found)
}

/// Pull requests by the remote branches that they are opened from.
pub open spec fn links_by_branch(remote: Text, links: Seq<LinkView>) -> Map<Text, LinkView>
    decreases links.len(),
{
    if links.len() == 0 {
        Map::empty()
    } else {
        links_by_branch(remote, links.drop_last()).insert(
            remote_root(remote) + links.last().head_ref_name,
            links.last(),
        )
    }
}

/// Computes `links_by_branch`.
pub fn remote_pr_links(remote: &str, links: &Vec<PullRequestLink>) -> (r: Dict<PullRequestLink>)
    ensures
        r@ == links_by_branch(remote@, views(links@)),
{
    let ghost all = views(links@);
    let mut r: Dict<PullRequestLink> = Dict::new();
    let mut i: usize = 0;
    assert(all.take(0) =~= Seq::<LinkView>::empty());
    assert(r@ =~= Map::<Text, LinkView>::empty());
    while i < links.len()
        invariant
            i <= links.len(),
            all == views(links@),
            r@ == links_by_branch(remote@, all.take(i as int)),
        decreases links.len() - i,
    {
        assert(all.take(i + 1).drop_last() =~= all.take(i as int));
        assert(all.take(i + 1).last() == links@[i as int]@);
        let name = remote.to_owned().concat("/").concat(links[i].head_ref_name.as_str());
        let link = links[i].clone();
        let ghost was = r@;
        let ghost key = name@;
        let ghost value = link@;
        r.insert(name, link);
        assert(r@ =~= was.insert(key, value));
        i = i + 1;
    }
    assert(all.take(all.len() as int) =~= all);
    r
}

} // verus!
