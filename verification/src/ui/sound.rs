//! Graphs whose ids can be shortened, which is what drawing them takes.

use crate::bytes::{lemma_boundary, len};
use crate::text::{byte_len, can_clip, strip_prefix, Text};
use crate::ui::event::{OperationResult, OperationResultView};
use crate::ui::model::{CommitView, Graph, GraphView, MoveView};
use crate::ui::preview::{previewed, virtual_id, with_abandoned, with_head, with_rewritten};
use crate::ui::render::{bare_id, drawable, id_fits};
use vstd::prelude::*;

verus! {

/// Whether a commit can be drawn, and also once it is rewritten.
pub open spec fn commit_sound(key: Text, commit: CommitView) -> bool {
    can_clip(key, 8) && id_fits(commit.id)
}

/// Whether all commits can be drawn.
pub open spec fn commits_sound(commits: Map<Text, CommitView>) -> bool {
    forall|k: Text| #[trigger] commits.contains_key(k) ==> commit_sound(k, commits[k])
}

/// Whether all commits of a graph can be drawn.
pub open spec fn sound(graph: GraphView) -> bool {
    commits_sound(graph.commits)
}

/// A sound graph can be drawn.
pub proof fn lemma_sound_drawable(graph: GraphView)
    requires
        sound(graph),
    ensures
        drawable(graph),
{
}

/// The ids that stand for rewritten commits can be shortened.
proof fn lemma_virtual_sound(id: Text)
    requires
        can_clip(id, 8),
    ensures
        can_clip(virtual_id(id), 8),
        id_fits(virtual_id(id)),
{
    reveal_strlit("preview:");
    let prefix = "preview:"@;
    assert(vstd::utf8::is_ascii_chars(prefix));
    vstd::utf8::is_ascii_chars_encode_utf8(prefix);
    assert(byte_len(prefix) == 8);
    lemma_boundary(prefix, id);
    assert(prefix.is_prefix_of(virtual_id(id)));
    assert(virtual_id(id).skip(8) =~= id);
    assert(bare_id(virtual_id(id)) == id);
}

proof fn lemma_rewritten_sound(commits: Map<Text, CommitView>, ids: Seq<Text>, base: Text)
    requires
        commits_sound(commits),
        forall|i: int| 0 <= i < ids.len() ==> commits.contains_key(#[trigger] ids[i]),
    ensures
        commits_sound(with_rewritten(commits, ids, base)),
    decreases ids.len(),
{
    if ids.len() > 0 {
        let init = ids.drop_last();
        assert forall|i: int| 0 <= i < init.len() implies commits.contains_key(
            #[trigger] init[i],
        ) by {
            assert(init[i] == ids[i]);
        }
        lemma_rewritten_sound(commits, init, base);
        assert(commits.contains_key(ids[ids.len() - 1]));
        assert(commit_sound(ids.last(), commits[ids.last()]));
        lemma_virtual_sound(ids.last());
    }
}

/// A sound graph stays sound when it is shown as it would be behind a move.
pub proof fn lemma_preview_sound(graph: GraphView, plan: MoveView)
    requires
        sound(graph),
        previewed(graph, plan) is Ok,
    ensures
        sound(previewed(graph, plan)->Ok_0),
{
    let base = if plan.include_descendants {
        plan.destination
    } else {
        plan.base
    };
    lemma_rewritten_sound(graph.commits, plan.commits, base);
    let made = with_rewritten(graph.commits, plan.commits, base);
    let commits = with_abandoned(made, plan.commits);
    assert(commits_sound(commits)) by {
        assert forall|k: Text| #[trigger] commits.contains_key(k) implies commit_sound(
            k,
            commits[k],
        ) by {
            assert(made.contains_key(k));
        }
    }
    lemma_present(graph.commits, plan.commits, base, plan.tip_commit);
    lemma_present(graph.commits, plan.commits, base, plan.commits.last());
    let tip = virtual_id(plan.tip_commit);
    let end = virtual_id(plan.commits.last());
    assert(commits.contains_key(tip) && commits.contains_key(end));
    assert(commit_sound(tip, commits[tip]) && commit_sound(end, commits[end]));
    let all = with_head(commits, plan);
    assert forall|k: Text| #[trigger] all.contains_key(k) implies commit_sound(k, all[k]) by {
        if k != tip && k != end {
            assert(commits.contains_key(k));
        }
    }
}

/// A rewritten commit is there.
proof fn lemma_present(commits: Map<Text, CommitView>, ids: Seq<Text>, base: Text, id: Text)
    requires
        ids.contains(id),
    ensures
        with_rewritten(commits, ids, base).contains_key(virtual_id(id)),
    decreases ids.len(),
{
    if ids.last() != id {
        let i = ids.index_of(id);
        assert(ids.drop_last()[i] == id);
        lemma_present(commits, ids.drop_last(), base, id);
    }
}

/// Decides `can_clip`.
fn clips(s: &str, n: usize) -> (r: bool)
    ensures
        r == can_clip(s@, n as nat),
{
    len(s) <= n || s.is_char_boundary(n)
}

/// Decides `sound`.
pub fn is_sound(graph: &Graph) -> (r: bool)
    ensures
        r == sound(graph@),
{
    let ghost commits = graph@.commits;
    let n = graph.commits.len();
    let ghost names = graph.commits.names();
    let mut i: usize = 0;
    while i < n
        invariant
            i <= n,
            n == names.len(),
            names == graph.commits.names(),
            commits == graph@.commits,
            forall|j: int| 0 <= j < i ==> commit_sound(#[trigger] names[j], commits[names[j]]),
        decreases n - i,
    {
        let key = graph.commits.key(i);
        let commit = graph.commits.value(i);
        assert(commits.contains_key(key@) && commits[key@] == commit@);
        let fits = match strip_prefix(commit.id.as_str(), "preview:") {
            Some(rest) => clips(rest.as_str(), 8),
            None => clips(commit.id.as_str(), 8),
        };
        if !fits || !clips(key.as_str(), 8) {
            assert(!commit_sound(key@, commits[key@]));
            return false;
        }
        i = i + 1;
    }
    assert forall|k: Text| #[trigger] commits.contains_key(k) implies commit_sound(
        k,
        commits[k],
    ) by {
        assert(graph.commits.raw().contains_key(k));
        assert(names.contains(k));
        let j = names.index_of(k);
        assert(commit_sound(names[j], commits[names[j]]));
    }
    true
}

/// Whether the graphs that came of an operation can be drawn.
pub open spec fn result_sound(result: OperationResultView) -> bool {
    &&& result.graph is Ok ==> sound(result.graph->Ok_0)
    &&& result.preview is Some ==> sound(result.preview->0)
}

/// Decides `result_sound`.
pub fn is_sound_result(result: &OperationResult) -> (r: bool)
    ensures
        r == result_sound(result@),
{
    (match &result.graph {
        Ok(graph) => is_sound(graph),
        Err(_) => true,
    }) && match &result.preview {
        Some(graph) => is_sound(graph),
        None => true,
    }
}

} // verus!
