//! What the lists that Git replays commits by come to.

use crate::split::{
    chain, content, joined, lemma_pieces_append, lemma_pieces_one, lines_of, pieces, words_of,
};
use crate::text::Text;
use crate::ui::model::MoveView;
use crate::ui::rebase::todo_of;
use crate::ui::todo::{
    block_at, explicit_lines, is_pick, match_index, only_match, picks_differ, read_lines,
    reordered_lines, taken, update_lines, BlockView, TodoView,
};
use vstd::prelude::*;

verus! {

/// The line that makes a branch follow the commit before it.
pub open spec fn update_line(branch: Text) -> Text {
    "update-ref refs/heads/"@ + branch + "\n"@
}

/// Lines make exactly some branches follow: those that are at a commit, but for the one that
/// is checked out in the end.
pub open spec fn follow(lines: Seq<Text>, plan: MoveView, commit: Text) -> bool {
    &&& forall|branch: Text| #[trigger]
        lines.contains(update_line(branch)) <==> plan.ref_updates.contains((commit, branch))
            && branch != plan.checkout_branch
    &&& forall|i: int|
        0 <= i < lines.len() ==> exists|branch: Text| #[trigger] lines[i] == #[trigger] update_line(
            branch,
        )
}

/// A part of a list that replays a commit, with the branches that follow it.
pub open spec fn is_section(section: Text, plan: MoveView, commit: Text) -> bool {
    exists|lines: Seq<Text>|
        section == "pick "@ + commit + "\n"@ + #[trigger] chain(lines) && follow(
            lines,
            plan,
            commit,
        )
}

proof fn lemma_update_line(a: Text, b: Text)
    requires
        update_line(a) == update_line(b),
    ensures
        a == b,
{
    let n = "update-ref refs/heads/"@.len() as int;
    let x = update_line(a);
    let y = update_line(b);
    let end = "\n"@.len();
    assert(x.len() == n + a.len() + end);
    assert(y.len() == n + b.len() + end);
    assert(a.len() == b.len());
    assert(x.subrange(n, n + a.len()) =~= a);
    assert(y.subrange(n, n + b.len()) =~= b);
}

spec fn update_list(refs: Seq<(Text, Text)>, commit: Text, checkout: Text) -> Seq<Text>
    decreases refs.len(),
{
    if refs.len() == 0 {
        Seq::empty()
    } else {
        let before = update_list(refs.drop_last(), commit, checkout);
        if refs.last().0 == commit && refs.last().1 != checkout {
            before.push(update_line(refs.last().1))
        } else {
            before
        }
    }
}

proof fn lemma_update_list(refs: Seq<(Text, Text)>, commit: Text, checkout: Text)
    ensures
        chain(update_list(refs, commit, checkout)) == update_lines(refs, commit, checkout),
        forall|branch: Text| #[trigger]
            update_list(refs, commit, checkout).contains(update_line(branch)) <==> refs.contains(
                (commit, branch),
            ) && branch != checkout,
        forall|i: int|
            0 <= i < update_list(refs, commit, checkout).len() ==> exists|branch: Text|
                (#[trigger] update_list(refs, commit, checkout)[i]) == #[trigger] update_line(
                    branch,
                ),
    decreases refs.len(),
{
    if refs.len() > 0 {
        let init = refs.drop_last();
        let last = refs.last();
        lemma_update_list(init, commit, checkout);
        let before = update_list(init, commit, checkout);
        let all = update_list(refs, commit, checkout);
        assert(refs =~= init.push(last));
        if last.0 == commit && last.1 != checkout {
            assert(all.drop_last() =~= before);
            assert(chain(all) =~= update_lines(refs, commit, checkout));
        }
        assert forall|branch: Text| #[trigger] all.contains(update_line(branch)) <==> refs.contains(
            (commit, branch),
        ) && branch != checkout by {
            vstd::seq_lib::lemma_seq_contains_after_push(init, last, (commit, branch));
            if last.0 == commit && last.1 != checkout {
                vstd::seq_lib::lemma_seq_contains_after_push(
                    before,
                    update_line(last.1),
                    update_line(branch),
                );
                if update_line(branch) == update_line(last.1) {
                    lemma_update_line(branch, last.1);
                }
            }
            assert(before.contains(update_line(branch)) <==> init.contains((commit, branch))
                && branch != checkout);
        }
        assert forall|i: int| 0 <= i < all.len() implies exists|branch: Text|
            (#[trigger] all[i]) == #[trigger] update_line(branch) by {
            if i < before.len() {
                assert(all[i] == before[i]);
            } else {
                assert(all[i] == update_line(last.1));
            }
        }
    }
}

/// A list that replays a substack has a part for each of its commits, in order: the commit
/// is picked, and every branch that is known to be at it follows, but the one that is
/// checked out in the end. There is nothing else in the list.
pub proof fn law_lists_make_branches_follow(plan: MoveView)
    requires
        plan.include_descendants,
    ensures
        exists|sections: Seq<Text>|
            todo_of(plan) == #[trigger] chain(sections) && sections.len() == plan.commits.len()
                && forall|i: int|
                0 <= i < plan.commits.len() ==> is_section(
                    #[trigger] sections[i],
                    plan,
                    plan.commits[i],
                ),
{
    let sections = lemma_sections(plan, plan.commits);
    assert(todo_of(plan) == chain(sections));
}

proof fn lemma_sections(plan: MoveView, commits: Seq<Text>) -> (sections: Seq<Text>)
    ensures
        sections.len() == commits.len(),
        chain(sections) == explicit_lines(plan, commits),
        forall|i: int|
            0 <= i < commits.len() ==> is_section(#[trigger] sections[i], plan, commits[i]),
    decreases commits.len(),
{
    if commits.len() == 0 {
        Seq::empty()
    } else {
        let before = lemma_sections(plan, commits.drop_last());
        let commit = commits.last();
        let lines = update_list(plan.ref_updates, commit, plan.checkout_branch);
        lemma_update_list(plan.ref_updates, commit, plan.checkout_branch);
        let section = "pick "@ + commit + "\n"@ + chain(lines);
        assert(follow(lines, plan, commit));
        assert(is_section(section, plan, commit));
        let sections = before.push(section);
        assert(sections.drop_last() =~= before);
        assert(chain(sections) =~= explicit_lines(plan, commits));
        assert forall|i: int| 0 <= i < commits.len() implies is_section(
            #[trigger] sections[i],
            plan,
            commits[i],
        ) by {
            if i < before.len() {
                assert(sections[i] == before[i]);
                assert(commits[i] == commits.drop_last()[i]);
            }
        }
        sections
    }
}

proof fn lemma_pieces_joined(ids: Seq<Text>)
    requires
        forall|i: int| 0 <= i < ids.len() ==> !(#[trigger] ids[i]).contains('\n'),
        ids.len() > 0,
    ensures
        pieces(joined(ids, "\n"@) + "\n"@) == ids.map_values(|id: Text| id.push('\n')),
    decreases ids.len(),
{
    reveal_strlit("\n");
    let last = ids.last();
    let line = last.push('\n');
    assert(!ids[ids.len() - 1].contains('\n'));
    assert(line.drop_last() =~= last);
    lemma_pieces_one(line);
    if ids.len() == 1 {
        assert(joined(ids, "\n"@) + "\n"@ =~= line);
        assert(ids.map_values(|id: Text| id.push('\n')) =~= seq![line]);
    } else {
        let init = ids.drop_last();
        assert forall|i: int| 0 <= i < init.len() implies !(#[trigger] init[i]).contains('\n') by {
            assert(init[i] == ids[i]);
        }
        lemma_pieces_joined(init);
        let front = joined(init, "\n"@) + "\n"@;
        assert(front.last() == '\n');
        lemma_pieces_append(front, line);
        assert(joined(ids, "\n"@) + "\n"@ =~= front + line);
        assert(ids.map_values(|id: Text| id.push('\n')) =~= init.map_values(
            |id: Text| id.push('\n'),
        ) + seq![line]);
    }
}

/// Lines that are put together, each with the end of a line behind it, are read back.
pub proof fn lemma_lines_joined(lines: Seq<Text>)
    requires
        lines.len() > 0,
        forall|i: int|
            0 <= i < lines.len() ==> !(#[trigger] lines[i]).contains('\n') && !lines[i].contains(
                '\r',
            ),
    ensures
        lines_of(joined(lines, "\n"@) + "\n"@) == lines,
{
    lemma_pieces_joined(lines);
    let all = lines.map_values(|id: Text| id.push('\n'));
    assert forall|i: int| 0 <= i < lines.len() implies content(#[trigger] all[i]) == lines[i] by {
        let id = lines[i];
        assert(all[i].drop_last() =~= id);
        if id.len() > 0 && id.last() == '\r' {
            assert(id[id.len() - 1] == '\r');
        }
    }
    assert(lines_of(joined(lines, "\n"@) + "\n"@) =~= lines);
}

/// The order that a rebase is handed when a commit is moved is read back as the commits of
/// the plan, in their order.
pub proof fn law_orders_are_read_back(plan: MoveView)
    requires
        !plan.include_descendants,
        plan.commits.len() > 0,
        forall|i: int|
            0 <= i < plan.commits.len() ==> !(#[trigger] plan.commits[i]).contains('\n')
                && !plan.commits[i].contains('\r'),
    ensures
        lines_of(todo_of(plan)) == plan.commits,
{
    lemma_lines_joined(plan.commits);
}

/// Whether a line is a comment.
pub open spec fn is_comment(line: Text) -> bool {
    "#"@.is_prefix_of(line)
}

/// Lines from `i` to `e` belong together: the first picks a commit, and what follows belongs
/// to it up to the next pick or comment.
pub open spec fn belong_together(lines: Seq<Text>, i: int, e: int) -> bool {
    &&& 0 <= i < e <= lines.len()
    &&& is_pick(lines[i])
    &&& forall|j: int| i < j < e ==> !is_pick(#[trigger] lines[j]) && !is_comment(lines[j])
    &&& e < lines.len() ==> is_pick(lines[e]) || is_comment(lines[e])
}

/// Some lines are those of a list that belong to a commit, whose id may be shortened.
pub open spec fn are_lines_of(part: Seq<Text>, lines: Seq<Text>, wanted: Text) -> bool {
    exists|i: int, e: int| #[trigger]
        belong_together(lines, i, e) && part == lines.subrange(i, e) && words_of(
            lines[i],
        )[1].is_prefix_of(wanted)
}

/// Lines one part behind another.
pub open spec fn all_lines(parts: Seq<Seq<Text>>) -> Seq<Text>
    decreases parts.len(),
{
    if parts.len() == 0 {
        Seq::empty()
    } else {
        all_lines(parts.drop_last()) + parts.last()
    }
}

spec fn block_is(lines: Seq<Text>, block: BlockView, i: int, e: int) -> bool {
    &&& belong_together(lines, i, e)
    &&& words_of(lines[i])[1] == block.id
    &&& block.lines == lines.subrange(i, e)
}

spec fn block_known(lines: Seq<Text>, todo: TodoView, block: BlockView) -> bool {
    exists|i: int, e: int| #[trigger]
        block_is(lines, block, i, e) && (e == lines.len() <==> todo.current == Some(block.id))
}

spec fn blocks_known(lines: Seq<Text>, todo: TodoView) -> bool {
    &&& forall|b: int|
        0 <= b < todo.blocks.len() ==> block_known(lines, todo, #[trigger] todo.blocks[b])
    &&& forall|c: int| 0 <= c < todo.comments.len() ==> !is_pick(#[trigger] todo.comments[c])
    &&& forall|a: int, b: int|
        0 <= a < b < todo.blocks.len() ==> (#[trigger] todo.blocks[a]).id != (
        #[trigger] todo.blocks[b]).id
    &&& todo.current matches Some(id) ==> exists|b: int|
        0 <= b < todo.blocks.len() && (#[trigger] todo.blocks[b]).id == id
}

proof fn lemma_pick_is_no_comment(line: Text)
    requires
        is_pick(line),
    ensures
        !is_comment(line),
{
    reveal_strlit("pick ");
    reveal_strlit("#");
    if is_comment(line) {
        assert("#"@[0] == line.subrange(0, 1)[0]);
        assert("pick "@[0] == line.subrange(0, 5)[0]);
    }
}

proof fn lemma_block_at(blocks: Seq<BlockView>, b: int, id: Text)
    requires
        0 <= b < blocks.len(),
        blocks[b].id == id,
        forall|a: int, b: int|
            0 <= a < b < blocks.len() ==> (#[trigger] blocks[a]).id != (#[trigger] blocks[b]).id,
    ensures
        block_at(blocks, id) == Some(b),
{
    assert(0 <= b < blocks.len() && blocks[b].id == id && forall|j: int|
        0 <= j < b ==> (#[trigger] blocks[j]).id != id);
    let i = choose|i: int|
        0 <= i < blocks.len() && (#[trigger] blocks[i]).id == id && forall|j: int|
            0 <= j < i ==> (#[trigger] blocks[j]).id != id;
    if i < b {
        assert(blocks[i].id != blocks[b].id);
    } else if b < i {
        assert(blocks[b].id != blocks[i].id);
    }
}

/// A block that is not open stays as it is when a line comes.
proof fn lemma_block_stays(lines: Seq<Text>, line: Text, block: BlockView, i: int, e: int)
    requires
        block_is(lines, block, i, e),
        e < lines.len() || is_pick(line) || is_comment(line),
    ensures
        block_is(lines.push(line), block, i, e),
{
    let all = lines.push(line);
    assert forall|j: int| i < j < e implies !is_pick(#[trigger] all[j]) && !is_comment(
        all[j],
    ) by {
        assert(all[j] == lines[j]);
    }
    assert(all.subrange(i, e) =~= lines.subrange(i, e));
}

proof fn lemma_blocks_known(lines: Seq<Text>)
    requires
        picks_differ(lines),
        read_lines(lines) is Ok,
    ensures
        blocks_known(lines, read_lines(lines)->Ok_0),
    decreases lines.len(),
{
    if lines.len() > 0 {
        let init = lines.drop_last();
        let line = lines.last();
        let before = read_lines(init)->Ok_0;
        let todo = read_lines(lines)->Ok_0;
        assert(lines =~= init.push(line));
        assert forall|i: int, j: int|
            0 <= i < j < init.len() && is_pick(#[trigger] init[i]) && is_pick(
                #[trigger] init[j],
            ) implies words_of(init[i])[1] != words_of(init[j])[1] by {
            assert(init[i] == lines[i] && init[j] == lines[j]);
        }
        lemma_blocks_known(init);
        if is_pick(line) {
            lemma_pick_is_no_comment(line);
            lemma_known_pick(init, line, before, todo);
        } else if is_comment(line) || before.current is None {
            lemma_known_comment(init, line, before, todo);
        } else {
            lemma_known_line(init, line, before, todo);
        }
    }
}

proof fn lemma_known_pick(init: Seq<Text>, line: Text, before: TodoView, todo: TodoView)
    requires
        picks_differ(init.push(line)),
        blocks_known(init, before),
        is_pick(line),
        crate::ui::todo::read_line(before, line) == Ok::<TodoView, Text>(todo),
    ensures
        blocks_known(init.push(line), todo),
{
    let lines = init.push(line);
    let id = words_of(line)[1];
    assert forall|b: int| 0 <= b < before.blocks.len() implies (#[trigger] before.blocks[b]).id
        != id by {
        assert(block_known(init, before, before.blocks[b]));
        let (i, e) = choose|i: int, e: int| #[trigger]
            block_is(init, before.blocks[b], i, e) && (e == init.len() <==> before.current == Some(
                before.blocks[b].id,
            ));
        assert(is_pick(lines[i]) && lines[i] == init[i]);
        assert(is_pick(lines[init.len() as int]));
        assert(words_of(lines[i])[1] != words_of(lines[init.len() as int])[1]);
    }
    let block = BlockView { id, lines: seq![line] };
    assert(todo.blocks == before.blocks.push(block));
    let n = init.len() as int;
    assert(lines.subrange(n, n + 1) =~= seq![line]);
    assert(block_is(lines, block, n, n + 1));
    assert forall|b: int| 0 <= b < todo.blocks.len() implies block_known(
        lines,
        todo,
        #[trigger] todo.blocks[b],
    ) by {
        if b < before.blocks.len() {
            assert(block_known(init, before, before.blocks[b]));
            let (i, e) = choose|i: int, e: int| #[trigger]
                block_is(init, before.blocks[b], i, e) && (e == init.len() <==> before.current
                    == Some(before.blocks[b].id));
            lemma_block_stays(init, line, before.blocks[b], i, e);
            assert(block_is(lines, todo.blocks[b], i, e));
        }
    }
    assert(todo.blocks[before.blocks.len() as int].id == id);
}

proof fn lemma_known_comment(init: Seq<Text>, line: Text, before: TodoView, todo: TodoView)
    requires
        blocks_known(init, before),
        !is_pick(line),
        is_comment(line) || before.current is None,
        crate::ui::todo::read_line(before, line) == Ok::<TodoView, Text>(todo),
    ensures
        blocks_known(init.push(line), todo),
{
    let lines = init.push(line);
    assert(todo.blocks == before.blocks);
    assert(todo.comments == before.comments.push(line));
    assert(todo.current is None);
    assert forall|b: int| 0 <= b < todo.blocks.len() implies block_known(
        lines,
        todo,
        #[trigger] todo.blocks[b],
    ) by {
        assert(block_known(init, before, before.blocks[b]));
        let (i, e) = choose|i: int, e: int| #[trigger]
            block_is(init, before.blocks[b], i, e) && (e == init.len() <==> before.current == Some(
                before.blocks[b].id,
            ));
        lemma_block_stays(init, line, before.blocks[b], i, e);
        assert(block_is(lines, todo.blocks[b], i, e));
    }
    assert forall|c: int| 0 <= c < todo.comments.len() implies !is_pick(
        #[trigger] todo.comments[c],
    ) by {
        if c < before.comments.len() {
            assert(todo.comments[c] == before.comments[c]);
        }
    }
}

proof fn lemma_known_line(init: Seq<Text>, line: Text, before: TodoView, todo: TodoView)
    requires
        blocks_known(init, before),
        !is_pick(line),
        !is_comment(line),
        before.current is Some,
        crate::ui::todo::read_line(before, line) == Ok::<TodoView, Text>(todo),
    ensures
        blocks_known(init.push(line), todo),
{
    let lines = init.push(line);
    let id = before.current->0;
    let at = choose|b: int| 0 <= b < before.blocks.len() && (#[trigger] before.blocks[b]).id == id;
    lemma_block_at(before.blocks, at, id);
    let grown = BlockView { id, lines: before.blocks[at].lines.push(line) };
    assert(todo.blocks == before.blocks.update(at, grown));
    assert forall|b: int| 0 <= b < todo.blocks.len() implies block_known(
        lines,
        todo,
        #[trigger] todo.blocks[b],
    ) by {
        assert(block_known(init, before, before.blocks[b]));
        let (i, e) = choose|i: int, e: int| #[trigger]
            block_is(init, before.blocks[b], i, e) && (e == init.len() <==> before.current == Some(
                before.blocks[b].id,
            ));
        if b == at {
            assert(e == init.len());
            assert forall|j: int| i < j < e + 1 implies !is_pick(#[trigger] lines[j])
                && !is_comment(lines[j]) by {
                if j < e {
                    assert(lines[j] == init[j]);
                }
            }
            assert(lines.subrange(i, e + 1) =~= init.subrange(i, e).push(line));
            assert(block_is(lines, todo.blocks[b], i, e + 1));
        } else {
            if b < at {
                assert(before.blocks[b].id != before.blocks[at].id);
            } else {
                assert(before.blocks[at].id != before.blocks[b].id);
            }
            assert(e < init.len());
            lemma_block_stays(init, line, before.blocks[b], i, e);
            assert(block_is(lines, todo.blocks[b], i, e));
        }
    }
    assert(todo.blocks[at].id == id);
    assert forall|a: int, b: int| 0 <= a < b < todo.blocks.len() implies (
    #[trigger] todo.blocks[a]).id != (#[trigger] todo.blocks[b]).id by {
        assert(before.blocks[a].id != before.blocks[b].id);
    }
}

/// Parts are taken from blocks: the k-th is that of the k-th commit.
spec fn parts_taken(parts: Seq<Seq<Text>>, blocks: Seq<BlockView>, order: Seq<Text>) -> bool {
    &&& parts.len() == order.len()
    &&& forall|k: int|
        0 <= k < parts.len() ==> exists|b: int|
            #![trigger blocks[b]]
            0 <= b < blocks.len() && blocks[b].lines == #[trigger] parts[k]
                && blocks[b].id.is_prefix_of(order[k])
}

proof fn lemma_parts_taken(blocks: Seq<BlockView>, order: Seq<Text>) -> (parts: Seq<Seq<Text>>)
    requires
        taken(blocks, order) is Ok,
    ensures
        parts_taken(parts, blocks, order),
        taken(blocks, order)->Ok_0.1 == all_lines(parts),
        forall|x: BlockView| #[trigger]
            taken(blocks, order)->Ok_0.0.contains(x) ==> blocks.contains(x),
    decreases order.len(),
{
    if order.len() == 0 {
        Seq::empty()
    } else {
        let init = order.drop_last();
        let before = lemma_parts_taken(blocks, init);
        let (left, lines) = taken(blocks, init)->Ok_0;
        let at = match_index(left, order.last())->0;
        assert(only_match(left, order.last(), at));
        let part = left[at].lines;
        let parts = before.push(part);
        assert(parts.drop_last() =~= before);
        assert(left.contains(left[at]));
        let b = blocks.index_of(left[at]);
        assert forall|k: int| 0 <= k < parts.len() implies exists|b: int|
            #![trigger blocks[b]]
            0 <= b < blocks.len() && blocks[b].lines == #[trigger] parts[k]
                && blocks[b].id.is_prefix_of(order[k]) by {
            if k < before.len() {
                assert(parts[k] == before[k]);
                assert(order[k] == init[k]);
            } else {
                assert(blocks[b].lines == parts[k] && blocks[b].id.is_prefix_of(order[k]));
            }
        }
        let rest = left.remove(at);
        assert forall|x: BlockView| #[trigger] rest.contains(x) implies blocks.contains(x) by {
            let j = rest.index_of(x);
            assert(x == if j < at {
                left[j]
            } else {
                left[j + 1]
            });
            assert(left.contains(x));
        }
        parts
    }
}

/// In a list that is put in order the commits stand in that order, each with all the lines
/// that belonged to it and in their order, and behind them no further commit is picked.
pub proof fn law_reordering_follows_the_order(lines: Seq<Text>, order: Seq<Text>)
    requires
        picks_differ(lines),
        reordered_lines(lines, order) is Ok,
    ensures
        exists|parts: Seq<Seq<Text>>, rest: Seq<Text>|
            reordered_lines(lines, order)->Ok_0 == #[trigger] (all_lines(parts) + rest)
                && parts_in_order(parts, lines, order) && no_pick(rest),
{
    let todo = read_lines(lines)->Ok_0;
    lemma_blocks_known(lines);
    let parts = lemma_parts_taken(todo.blocks, order);
    assert forall|k: int| 0 <= k < parts.len() implies are_lines_of(
        #[trigger] parts[k],
        lines,
        order[k],
    ) by {
        let b = choose|b: int|
            #![trigger todo.blocks[b]]
            0 <= b < todo.blocks.len() && todo.blocks[b].lines == parts[k]
                && todo.blocks[b].id.is_prefix_of(order[k]);
        assert(block_known(lines, todo, todo.blocks[b]));
        let (i, e) = choose|i: int, e: int| #[trigger]
            block_is(lines, todo.blocks[b], i, e) && (e == lines.len() <==> todo.current == Some(
                todo.blocks[b].id,
            ));
        assert(belong_together(lines, i, e));
    }
    assert(parts_in_order(parts, lines, order));
    assert(no_pick(todo.comments));
    assert(reordered_lines(lines, order)->Ok_0 == all_lines(parts) + todo.comments);
}

/// The k-th part holds the lines that belong to the k-th commit.
pub open spec fn parts_in_order(
    parts: Seq<Seq<Text>>,
    lines: Seq<Text>,
    order: Seq<Text>,
) -> bool {
    &&& parts.len() == order.len()
    &&& forall|k: int|
        0 <= k < parts.len() ==> are_lines_of(#[trigger] parts[k], lines, order[k])
}

/// No line picks a commit.
pub open spec fn no_pick(lines: Seq<Text>) -> bool {
    forall|c: int| 0 <= c < lines.len() ==> !is_pick(#[trigger] lines[c])
}

} // verus!
