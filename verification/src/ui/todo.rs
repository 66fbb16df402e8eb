//! The lists that tell Git in which order to replay commits.

use crate::order::{copy, views};
use crate::split::{chain, concat_all, pieces, split_inclusive, words, words_of};
use crate::text::{maybe, same, starts_with, texts, Text};
use crate::ui::model::{MovePlan, MoveView};
use vstd::multiset::Multiset;
use vstd::prelude::*;

verus! {

/// A commit of the list: its id, and the lines that belong to it.
pub struct Block {
    pub id: String,
    pub lines: Vec<String>,
}

/// What a `Block` holds.
#[verifier::ext_equal]
pub struct BlockView {
    pub id: Text,
    pub lines: Seq<Text>,
}

impl View for Block {
    type V = BlockView;

    open spec fn view(&self) -> BlockView {
        BlockView { id: self.id@, lines: texts(self.lines@) }
    }
}

/// A list that is read: its commits, the lines that belong to none, and the commit
/// that further lines belong to.
#[verifier::ext_equal]
pub struct TodoView {
    pub blocks: Seq<BlockView>,
    pub comments: Seq<Text>,
    pub current: Option<Text>,
}

/// Where the block of an id is.
pub open spec fn block_at(blocks: Seq<BlockView>, id: Text) -> Option<int> {
    if exists|i: int| 0 <= i < blocks.len() && (#[trigger] blocks[i]).id == id {
        Some(
            choose|i: int|
                0 <= i < blocks.len() && (#[trigger] blocks[i]).id == id && forall|j: int|
                    0 <= j < i ==> (#[trigger] blocks[j]).id != id,
        )
    } else {
        None
    }
}

/// The blocks with a new one, which takes the place of one with its id.
pub open spec fn with_block(blocks: Seq<BlockView>, block: BlockView) -> Seq<BlockView> {
    match block_at(blocks, block.id) {
        Some(i) => blocks.update(i, block),
        None => blocks.push(block),
    }
}

/// The blocks with one more line in the block of an id.
pub open spec fn with_line(blocks: Seq<BlockView>, id: Text, line: Text) -> Seq<BlockView> {
    match block_at(blocks, id) {
        Some(i) => blocks.update(
            i,
            BlockView { id: blocks[i].id, lines: blocks[i].lines.push(line) },
        ),
        None => blocks,
    }
}

/// The list with one more line. A line that picks a commit begins its block; lines
/// that are no comments belong to the block before them, and comments to none.
pub open spec fn read_line(todo: TodoView, line: Text) -> Result<TodoView, Text> {
    if "pick "@.is_prefix_of(line) {
        if words_of(line).len() < 2 {
            Err("invalid rebase todo"@)
        } else {
            let id = words_of(line)[1];
            Ok(
                TodoView {
                    blocks: with_block(todo.blocks, BlockView { id, lines: seq![line] }),
                    current: Some(id),
                    ..todo
                },
            )
        }
    } else if "#"@.is_prefix_of(line) {
        Ok(TodoView { comments: todo.comments.push(line), current: None, ..todo })
    } else {
        match todo.current {
            Some(id) => Ok(TodoView { blocks: with_line(todo.blocks, id, line), ..todo }),
            None => Ok(TodoView { comments: todo.comments.push(line), ..todo }),
        }
    }
}

/// The list that lines make.
pub open spec fn read_lines(lines: Seq<Text>) -> Result<TodoView, Text>
    decreases lines.len(),
{
    if lines.len() == 0 {
        Ok(TodoView { blocks: Seq::empty(), comments: Seq::empty(), current: None })
    } else {
        match read_lines(lines.drop_last()) {
            Err(error) => Err(error),
            Ok(todo) => read_line(todo, lines.last()),
        }
    }
}

/// The block at `i` is the only one whose id, which may be shortened, is `wanted`.
pub open spec fn only_match(blocks: Seq<BlockView>, wanted: Text, i: int) -> bool {
    &&& 0 <= i < blocks.len()
    &&& blocks[i].id.is_prefix_of(wanted)
    &&& forall|j: int|
        0 <= j < blocks.len() && j != i ==> !(#[trigger] blocks[j]).id.is_prefix_of(wanted)
}

/// Where the only block whose id is `wanted` is.
pub open spec fn match_index(blocks: Seq<BlockView>, wanted: Text) -> Option<int> {
    if exists|i: int| #[trigger] only_match(blocks, wanted, i) {
        Some(choose|i: int| #[trigger] only_match(blocks, wanted, i))
    } else {
        None
    }
}

/// The blocks that are left and the lines that are taken, when the blocks of commits
/// are taken in order.
pub open spec fn taken(blocks: Seq<BlockView>, order: Seq<Text>) -> Result<
    (Seq<BlockView>, Seq<Text>),
    Text,
>
    decreases order.len(),
{
    if order.len() == 0 {
        Ok((blocks, Seq::empty()))
    } else {
        match taken(blocks, order.drop_last()) {
            Err(error) => Err(error),
            Ok((left, lines)) => {
                let wanted = order.last();
                match match_index(left, wanted) {
                    Some(i) => Ok((left.remove(i), lines + left[i].lines)),
                    None => Err("could not identify "@ + wanted + " in rebase todo"@),
                }
            },
        }
    }
}

/// The lines of a list, with its commits in the given order and the rest behind them.
pub open spec fn reordered_lines(lines: Seq<Text>, order: Seq<Text>) -> Result<Seq<Text>, Text> {
    match read_lines(lines) {
        Err(error) => Err(error),
        Ok(todo) => match taken(todo.blocks, order) {
            Err(error) => Err(error),
            Ok((_, lines)) => Ok(lines + todo.comments),
        },
    }
}

/// A list with its commits in the given order.
pub open spec fn reordered(original: Text, order: Seq<Text>) -> Result<Text, Text> {
    match reordered_lines(pieces(original), order) {
        Err(error) => Err(error),
        Ok(lines) => Ok(chain(lines)),
    }
}

/// Where the block of an id is.
fn find_block(blocks: &Vec<Block>, id: &str) -> (r: Option<usize>)
    ensures
        match r {
            Some(i) => i < blocks.len() && block_at(views(blocks@), id@) == Some(i as int),
            None => block_at(views(blocks@), id@) is None,
        },
{
    let ghost all = views(blocks@);
    let mut i: usize = 0;
    while i < blocks.len()
        invariant
            i <= blocks.len(),
            all == views(blocks@),
            forall|j: int| 0 <= j < i ==> (#[trigger] all[j]).id != id@,
        decreases blocks.len() - i,
    {
        assert(all[i as int] == blocks@[i as int]@);
        if same(blocks[i].id.as_str(), id) {
            proof {
                let found = block_at(all, id@)->0;
                assert(all[i as int].id == id@);
                assert(found == i) by {
                    if found < i {
                        assert(all[found].id != id@);
                    }
                }
            }
            return Some(i);
        }
        i = i + 1;
    }
    None
}

/// A list that is read.
struct Todo {
    blocks: Vec<Block>,
    comments: Vec<String>,
    current: Option<String>,
}

impl View for Todo {
    type V = TodoView;

    closed spec fn view(&self) -> TodoView {
        TodoView {
            blocks: views(self.blocks@),
            comments: texts(self.comments@),
            current: maybe(self.current),
        }
    }
}

impl Todo {
    /// Reads one more line.
    fn read(&mut self, line: &String) -> (r: Result<(), String>)
        ensures
            match r {
                Ok(()) => read_line(old(self)@, line@) == Ok::<TodoView, Text>(final(self)@),
                Err(error) => read_line(old(self)@, line@) == Err::<TodoView, Text>(error@),
            },
    {
        let ghost was = self@;
        if starts_with(line.as_str(), "pick ") {
            let fields = words(line.as_str());
            if fields.len() < 2 {
                return Err("invalid rebase todo".to_owned());
            }
            let id = fields[1].clone();
            assert(texts(fields@)[1] == id@);
            let mut lines: Vec<String> = Vec::new();
            lines.push(line.clone());
            assert(texts(lines@) =~= seq![line@]);
            let found = find_block(&self.blocks, id.as_str());
            let block = Block { id: id.clone(), lines };
            match found {
                Some(i) => {
                    self.blocks.set(i, block);
                    assert(views(self.blocks@) =~= was.blocks.update(i as int, block@));
                },
                None => {
                    self.blocks.push(block);
                    assert(views(self.blocks@) =~= was.blocks.push(block@));
                },
            }
            self.current = Some(id);
        } else if starts_with(line.as_str(), "#") {
            self.comments.push(line.clone());
            assert(texts(self.comments@) =~= was.comments.push(line@));
            self.current = None;
        } else {
            match &self.current {
                Some(id) => {
                    match find_block(&self.blocks, id.as_str()) {
                        Some(i) => {
                            let mut lines = copy(&self.blocks[i].lines);
                            let ghost before = texts(lines@);
                            lines.push(line.clone());
                            assert(texts(lines@) =~= before.push(line@));
                            let block = Block { id: self.blocks[i].id.clone(), lines };
                            self.blocks.set(i, block);
                            assert(views(self.blocks@) =~= was.blocks.update(i as int, block@));
                        },
                        None => {},
                    }
                },
                None => {
                    self.comments.push(line.clone());
                    assert(texts(self.comments@) =~= was.comments.push(line@));
                },
            }
        }
        Ok(())
    }
}

/// A stage of `read_lines` that fails, fails the whole.
proof fn lemma_read_fails(all: Seq<Text>, n: int, error: Text)
    requires
        0 <= n <= all.len(),
        read_lines(all.take(n)) == Err::<TodoView, Text>(error),
    ensures
        read_lines(all) == Err::<TodoView, Text>(error),
    decreases all.len() - n,
{
    if n < all.len() {
        assert(all.take(n + 1).drop_last() =~= all.take(n));
        lemma_read_fails(all, n + 1, error);
    } else {
        assert(all.take(n) =~= all);
    }
}

/// A stage of `taken` that fails, fails the whole.
proof fn lemma_taken_fails(blocks: Seq<BlockView>, order: Seq<Text>, n: int, error: Text)
    requires
        0 <= n <= order.len(),
        taken(blocks, order.take(n)) == Err::<(Seq<BlockView>, Seq<Text>), Text>(error),
    ensures
        taken(blocks, order) == Err::<(Seq<BlockView>, Seq<Text>), Text>(error),
    decreases order.len() - n,
{
    if n < order.len() {
        assert(order.take(n + 1).drop_last() =~= order.take(n));
        lemma_taken_fails(blocks, order, n + 1, error);
    } else {
        assert(order.take(n) =~= order);
    }
}

/// The only block whose id is `wanted`.
fn find_match(blocks: &Vec<Block>, wanted: &str) -> (r: Option<usize>)
    ensures
        match r {
            Some(i) => i < blocks.len() && match_index(views(blocks@), wanted@) == Some(i as int),
            None => match_index(views(blocks@), wanted@) is None,
        },
{
    let ghost all = views(blocks@);
    let mut found: Option<usize> = None;
    let mut i: usize = 0;
    while i < blocks.len()
        invariant
            i <= blocks.len(),
            all == views(blocks@),
            match found {
                Some(m) => m < i && all[m as int].id.is_prefix_of(wanted@) && forall|j: int|
                    0 <= j < i && j != m ==> !(#[trigger] all[j]).id.is_prefix_of(wanted@),
                None => forall|j: int|
                    0 <= j < i ==> !(#[trigger] all[j]).id.is_prefix_of(wanted@),
            },
        decreases blocks.len() - i,
    {
        assert(all[i as int] == blocks@[i as int]@);
        if starts_with(wanted, blocks[i].id.as_str()) {
            match found {
                Some(m) => {
                    proof {
                        assert forall|k: int| !#[trigger] only_match(all, wanted@, k) by {
                            if only_match(all, wanted@, k) {
                                if k == i {
                                    assert(all[m as int].id.is_prefix_of(wanted@));
                                } else {
                                    assert(all[i as int].id.is_prefix_of(wanted@));
                                }
                            }
                        }
                    }
                    return None;
                },
                None => {
                    found = Some(i);
                },
            }
        }
        i = i + 1;
    }
    proof {
        match found {
            Some(m) => {
                assert(only_match(all, wanted@, m as int));
                let k = match_index(all, wanted@)->0;
                assert(only_match(all, wanted@, k));
                assert(k == m);
            },
            None => {},
        }
    }
    found
}

/// The text of a result.
pub open spec fn todo_result(r: Result<String, String>) -> Result<Text, Text> {
    match r {
        Ok(text) => Ok(text@),
        Err(error) => Err(error@),
    }
}

/// A list of Git's with its commits in the given order. Each commit keeps the lines
/// that belong to it, and lines that belong to none go to the end.
pub fn reorder_todo(original: &str, order: &Vec<String>) -> (r: Result<String, String>)
    ensures
        todo_result(r) == reordered(original@, texts(order@)),
{
    let parts = split_inclusive(original);
    let ghost all = texts(parts@);
    let ghost wanted = texts(order@);
    let mut todo = Todo { blocks: Vec::new(), comments: Vec::new(), current: None };
    let mut i: usize = 0;
    proof {
        assert(all.take(0) =~= Seq::<Text>::empty());
        assert(views(todo.blocks@) =~= Seq::<BlockView>::empty());
        assert(texts(todo.comments@) =~= Seq::<Text>::empty());
    }
    while i < parts.len()
        invariant
            i <= parts.len(),
            all == texts(parts@),
            all == pieces(original@),
            read_lines(all.take(i as int)) == Ok::<TodoView, Text>(todo@),
        decreases parts.len() - i,
    {
        assert(all.take(i + 1).drop_last() =~= all.take(i as int));
        assert(all.take(i + 1).last() == parts@[i as int]@);
        match todo.read(&parts[i]) {
            Ok(()) => {},
            Err(error) => {
                proof {
                    lemma_read_fails(all, i + 1, error@);
                }
                return Err(error);
            },
        }
        i = i + 1;
    }
    assert(all.take(all.len() as int) =~= all);
    let Todo { mut blocks, mut comments, current: _ } = todo;
    let ghost first = views(blocks@);
    let ghost rest = texts(comments@);
    let mut lines: Vec<String> = Vec::new();
    let mut i: usize = 0;
    assert(wanted.take(0) =~= Seq::<Text>::empty());
    assert(texts(lines@) =~= Seq::<Text>::empty());
    while i < order.len()
        invariant
            i <= order.len(),
            wanted == texts(order@),
            all == pieces(original@),
            read_lines(all) is Ok,
            read_lines(all)->Ok_0.blocks == first,
            taken(first, wanted.take(i as int)) == Ok::<(Seq<BlockView>, Seq<Text>), Text>(
                (views(blocks@), texts(lines@)),
            ),
        decreases order.len() - i,
    {
        assert(wanted.take(i + 1).drop_last() =~= wanted.take(i as int));
        assert(wanted.take(i + 1).last() == order@[i as int]@);
        let ghost left = views(blocks@);
        match find_match(&blocks, order[i].as_str()) {
            None => {
                let error = "could not identify ".to_owned().concat(order[i].as_str()).concat(
                    " in rebase todo",
                );
                proof {
                    lemma_taken_fails(first, wanted, i + 1, error@);
                }
                return Err(error);
            },
            Some(m) => {
                let block = blocks.remove(m);
                assert(views(blocks@) =~= left.remove(m as int));
                let ghost was = texts(lines@);
                let mut more = block.lines;
                let ghost new = texts(more@);
                assert(left[m as int].lines == new);
                lines.append(&mut more);
                assert(texts(lines@) =~= was + new);
            },
        }
        i = i + 1;
    }
    assert(wanted.take(wanted.len() as int) =~= wanted);
    let ghost was = texts(lines@);
    lines.append(&mut comments);
    assert(texts(lines@) =~= was + rest);
    Ok(concat_all(&lines))
}

/// The lines that blocks hold.
spec fn held(blocks: Seq<BlockView>) -> Multiset<Text>
    decreases blocks.len(),
{
    if blocks.len() == 0 {
        Multiset::empty()
    } else {
        held(blocks.drop_last()).add(blocks.last().lines.to_multiset())
    }
}

/// Changing one block changes what is held by the change.
proof fn lemma_held_update(blocks: Seq<BlockView>, i: int, block: BlockView)
    requires
        0 <= i < blocks.len(),
    ensures
        held(blocks.update(i, block)).add(blocks[i].lines.to_multiset()) == held(blocks).add(
            block.lines.to_multiset(),
        ),
    decreases blocks.len(),
{
    let init = blocks.drop_last();
    let changed = blocks.update(i, block);
    if i < init.len() {
        lemma_held_update(init, i, block);
        assert(changed.drop_last() =~= init.update(i, block));
        assert(changed.last() == blocks.last());
        let last = blocks.last().lines.to_multiset();
        let old_lines = blocks[i].lines.to_multiset();
        let new_lines = block.lines.to_multiset();
        assert(held(changed).add(old_lines) =~= held(init.update(i, block)).add(old_lines).add(
            last,
        ));
        assert(held(blocks).add(new_lines) =~= held(init).add(new_lines).add(last));
    } else {
        assert(changed.drop_last() =~= init);
        assert(held(changed).add(blocks[i].lines.to_multiset()) =~= held(blocks).add(
            block.lines.to_multiset(),
        ));
    }
}

/// Taking a block away takes away what it holds.
proof fn lemma_held_remove(blocks: Seq<BlockView>, i: int)
    requires
        0 <= i < blocks.len(),
    ensures
        held(blocks) == held(blocks.remove(i)).add(blocks[i].lines.to_multiset()),
    decreases blocks.len(),
{
    let init = blocks.drop_last();
    let rest = blocks.remove(i);
    if i < init.len() {
        lemma_held_remove(init, i);
        assert(rest.drop_last() =~= init.remove(i));
        assert(rest.last() == blocks.last());
        assert(held(blocks) =~= held(rest).add(blocks[i].lines.to_multiset()));
    } else {
        assert(rest =~= init);
    }
}

/// Whether a line picks a commit.
pub open spec fn is_pick(line: Text) -> bool {
    "pick "@.is_prefix_of(line)
}

/// No commit is picked twice.
pub open spec fn picks_differ(lines: Seq<Text>) -> bool {
    forall|i: int, j: int|
        0 <= i < j < lines.len() && is_pick(#[trigger] lines[i]) && is_pick(#[trigger] lines[j])
            ==> words_of(lines[i])[1] != words_of(lines[j])[1]
}

/// Some line picks the commit.
spec fn picked(lines: Seq<Text>, id: Text) -> bool {
    exists|i: int|
        0 <= i < lines.len() && is_pick(#[trigger] lines[i]) && words_of(lines[i])[1] == id
}

/// Every block is of a commit that some line picks.
spec fn blocks_picked(lines: Seq<Text>, blocks: Seq<BlockView>) -> bool {
    forall|b: int| 0 <= b < blocks.len() ==> picked(lines, (#[trigger] blocks[b]).id)
}

/// The block that lines are added to is there.
spec fn current_known(todo: TodoView) -> bool {
    match todo.current {
        Some(id) => block_at(todo.blocks, id) is Some,
        None => true,
    }
}

/// Where there is a block of an id, `block_at` finds the first.
proof fn lemma_block_at(blocks: Seq<BlockView>, id: Text, i: int)
    requires
        0 <= i < blocks.len(),
        blocks[i].id == id,
    ensures
        block_at(blocks, id) is Some,
        0 <= block_at(blocks, id)->0 < blocks.len(),
        blocks[block_at(blocks, id)->0].id == id,
    decreases i,
{
    if exists|j: int| 0 <= j < i && (#[trigger] blocks[j]).id == id {
        let j = choose|j: int| 0 <= j < i && (#[trigger] blocks[j]).id == id;
        lemma_block_at(blocks, id, j);
    } else {
        assert(blocks[i].id == id);
    }
}

/// The place that `block_at` gives is that of a block of the id.
proof fn lemma_block_found(blocks: Seq<BlockView>, id: Text)
    requires
        block_at(blocks, id) is Some,
    ensures
        0 <= block_at(blocks, id)->0 < blocks.len(),
        blocks[block_at(blocks, id)->0].id == id,
{
    let i = choose|i: int| 0 <= i < blocks.len() && (#[trigger] blocks[i]).id == id;
    lemma_block_at(blocks, id, i);
}

proof fn lemma_current_known(lines: Seq<Text>)
    requires
        read_lines(lines) is Ok,
    ensures
        current_known(read_lines(lines)->Ok_0),
    decreases lines.len(),
{
    if lines.len() > 0 {
        let init = lines.drop_last();
        let line = lines.last();
        lemma_current_known(init);
        let before = read_lines(init)->Ok_0;
        let todo = read_lines(lines)->Ok_0;
        if is_pick(line) {
            let id = words_of(line)[1];
            if block_at(before.blocks, id) is Some {
                lemma_block_found(before.blocks, id);
                lemma_block_at(todo.blocks, id, block_at(before.blocks, id)->0);
            } else {
                lemma_block_at(todo.blocks, id, todo.blocks.len() - 1);
            }
        } else if !"#"@.is_prefix_of(line) && before.current is Some {
            let id = before.current->0;
            lemma_block_found(before.blocks, id);
            lemma_block_at(todo.blocks, id, block_at(before.blocks, id)->0);
        }
    }
}

/// A line that is picked stays so when lines follow.
proof fn lemma_picked_stays(lines: Seq<Text>, id: Text)
    requires
        lines.len() > 0,
        picked(lines.drop_last(), id),
    ensures
        picked(lines, id),
{
    let init = lines.drop_last();
    let i = choose|i: int|
        0 <= i < init.len() && is_pick(#[trigger] init[i]) && words_of(init[i])[1] == id;
    assert(lines[i] == init[i]);
}

proof fn lemma_blocks_picked(lines: Seq<Text>)
    requires
        read_lines(lines) is Ok,
    ensures
        blocks_picked(lines, read_lines(lines)->Ok_0.blocks),
    decreases lines.len(),
{
    if lines.len() > 0 {
        let init = lines.drop_last();
        let line = lines.last();
        lemma_blocks_picked(init);
        let before = read_lines(init)->Ok_0;
        let todo = read_lines(lines)->Ok_0;
        if is_pick(line) {
            let id = words_of(line)[1];
            assert(picked(lines, id)) by {
                assert(is_pick(lines[lines.len() - 1]));
            }
            if block_at(before.blocks, id) is Some {
                lemma_block_found(before.blocks, id);
            }
        } else if before.current is Some {
            lemma_current_known(init);
            lemma_block_found(before.blocks, before.current->0);
        }
        assert forall|b: int| 0 <= b < todo.blocks.len() implies picked(
            lines,
            (#[trigger] todo.blocks[b]).id,
        ) by {
            if b < before.blocks.len() {
                assert(todo.blocks[b].id == before.blocks[b].id);
                lemma_picked_stays(lines, before.blocks[b].id);
            }
        }
    }
}

/// One more line in a block is one more line held.
proof fn lemma_held_line(blocks: Seq<BlockView>, i: int, line: Text)
    requires
        0 <= i < blocks.len(),
    ensures
        held(
            blocks.update(i, BlockView { id: blocks[i].id, lines: blocks[i].lines.push(line) }),
        ) == held(blocks).insert(line),
{
    let block = BlockView { id: blocks[i].id, lines: blocks[i].lines.push(line) };
    let changed = blocks.update(i, block);
    lemma_held_update(blocks, i, block);
    blocks[i].lines.to_multiset_ensures();
    let one = blocks[i].lines.to_multiset();
    assert(block.lines.to_multiset() =~= one.insert(line));
    assert forall|x: Text| #![auto] held(changed).count(x) == held(blocks).insert(line).count(x) by {
        assert(held(changed).add(one).count(x) == held(blocks).add(one.insert(line)).count(x));
    }
    assert(held(changed) =~= held(blocks).insert(line));
}

/// A new block of one line is one more line held.
proof fn lemma_held_block(blocks: Seq<BlockView>, id: Text, line: Text)
    ensures
        held(blocks.push(BlockView { id, lines: seq![line] })) == held(blocks).insert(line),
{
    let all = blocks.push(BlockView { id, lines: seq![line] });
    assert(all.drop_last() =~= blocks);
    Seq::<Text>::empty().to_multiset_ensures();
    assert(seq![line] =~= Seq::<Text>::empty().push(line));
    assert(seq![line].to_multiset() =~= Multiset::<Text>::empty().insert(line));
    assert(held(all) =~= held(blocks).insert(line));
}

/// What is read is in the blocks or among the comments, where no commit is picked twice.
proof fn lemma_read_kept(lines: Seq<Text>)
    requires
        picks_differ(lines),
        read_lines(lines) is Ok,
    ensures
        held(read_lines(lines)->Ok_0.blocks).add(
            read_lines(lines)->Ok_0.comments.to_multiset(),
        ) == lines.to_multiset(),
    decreases lines.len(),
{
    let todo = read_lines(lines)->Ok_0;
    if lines.len() == 0 {
        lines.to_multiset_ensures();
        todo.comments.to_multiset_ensures();
        assert(todo.comments.to_multiset() =~= Multiset::<Text>::empty());
        assert(lines.to_multiset() =~= Multiset::<Text>::empty());
        assert(held(todo.blocks).add(todo.comments.to_multiset()) =~= lines.to_multiset());
    } else {
        let init = lines.drop_last();
        let line = lines.last();
        assert forall|i: int, j: int|
            0 <= i < j < init.len() && is_pick(#[trigger] init[i]) && is_pick(
                #[trigger] init[j],
            ) implies words_of(init[i])[1] != words_of(init[j])[1] by {
            assert(init[i] == lines[i] && init[j] == lines[j]);
        }
        lemma_read_kept(init);
        let before = read_lines(init)->Ok_0;
        init.to_multiset_ensures();
        assert(lines =~= init.push(line));
        let kept = before.comments.to_multiset();
        before.comments.to_multiset_ensures();
        if is_pick(line) {
            let id = words_of(line)[1];
            if block_at(before.blocks, id) is Some {
                lemma_block_found(before.blocks, id);
                lemma_blocks_picked(init);
                assert(picked(init, before.blocks[block_at(before.blocks, id)->0].id));
                let i = choose|i: int|
                    0 <= i < init.len() && is_pick(#[trigger] init[i]) && words_of(init[i])[1]
                        == id;
                assert(lines[i] == init[i]);
                assert(is_pick(lines[lines.len() - 1]));
            }
            lemma_held_block(before.blocks, id, line);
            assert(held(before.blocks).insert(line).add(kept) =~= lines.to_multiset());
        } else if "#"@.is_prefix_of(line) || before.current is None {
            assert(held(before.blocks).add(kept.insert(line)) =~= lines.to_multiset());
        } else {
            let id = before.current->0;
            lemma_current_known(init);
            lemma_block_found(before.blocks, id);
            lemma_held_line(before.blocks, block_at(before.blocks, id)->0, line);
            assert(held(before.blocks).insert(line).add(kept) =~= lines.to_multiset());
        }
    }
}

/// Taking blocks in order takes exactly what they hold.
proof fn lemma_taken_held(blocks: Seq<BlockView>, order: Seq<Text>)
    requires
        taken(blocks, order) is Ok,
    ensures
        ({
            let (left, lines) = taken(blocks, order)->Ok_0;
            &&& held(blocks) == held(left).add(lines.to_multiset())
            &&& left.len() + order.len() == blocks.len()
        }),
    decreases order.len(),
{
    Seq::<Text>::empty().to_multiset_ensures();
    if order.len() == 0 {
        assert(Seq::<Text>::empty().to_multiset() =~= Multiset::<Text>::empty());
        assert(held(blocks) =~= held(blocks).add(Seq::<Text>::empty().to_multiset()));
    } else {
        lemma_taken_held(blocks, order.drop_last());
        let (before, some) = taken(blocks, order.drop_last())->Ok_0;
        let i = match_index(before, order.last())->0;
        assert(only_match(before, order.last(), i));
        lemma_held_remove(before, i);
        vstd::seq_lib::lemma_multiset_commutative(some, before[i].lines);
        let (left, lines) = taken(blocks, order)->Ok_0;
        assert(held(blocks) =~= held(left).add(lines.to_multiset()));
    }
}

/// Reordering neither drops a line nor adds one, where no commit is picked twice and
/// the order names as many commits as there are.
pub proof fn law_reordering_keeps_lines(lines: Seq<Text>, order: Seq<Text>)
    requires
        picks_differ(lines),
        reordered_lines(lines, order) is Ok,
        order.len() == read_lines(lines)->Ok_0.blocks.len(),
    ensures
        reordered_lines(lines, order)->Ok_0.to_multiset() == lines.to_multiset(),
{
    lemma_read_kept(lines);
    let todo = read_lines(lines)->Ok_0;
    lemma_taken_held(todo.blocks, order);
    let (left, some) = taken(todo.blocks, order)->Ok_0;
    assert(left.len() == 0);
    assert(held(left) =~= Multiset::<Text>::empty());
    assert(held(todo.blocks) =~= some.to_multiset());
    vstd::seq_lib::lemma_multiset_commutative(some, todo.comments);
    assert((some + todo.comments).to_multiset() =~= lines.to_multiset());
}

/// A text in single quotes; a single quote in it is written outside of them.
pub open spec fn quoted_chars(value: Text) -> Text
    decreases value.len(),
{
    if value.len() == 0 {
        Seq::empty()
    } else if value.last() == '\'' {
        quoted_chars(value.drop_last()) + "'\\''"@
    } else {
        quoted_chars(value.drop_last()).push(value.last())
    }
}

/// A text as a word of a shell command.
pub open spec fn shell_word(value: Text) -> Text {
    "'"@ + quoted_chars(value) + "'"@
}

/// A text as a word of a shell command.
pub fn shell_quote(value: &str) -> (r: String)
    ensures
        r@ == shell_word(value@),
{
    let mut r = "'".to_owned();
    let ghost start = r@;
    assert(value@.take(0) =~= Seq::<char>::empty());
    assert(r@ =~= start + quoted_chars(value@.take(0)));
    for c in it: value.chars()
        invariant
            it.seq() == value@,
            r@ == start + quoted_chars(value@.take(it.index() as int)),
    {
        let ghost n = it.index() as int;
        let ghost done = quoted_chars(value@.take(n));
        assert(value@.take(n + 1).drop_last() =~= value@.take(n));
        assert(value@.take(n + 1).last() == c);
        if c == '\'' {
            r.append("'\\''");
            assert(r@ =~= start + (done + "'\\''"@));
        } else {
            r.push(c);
            assert(r@ =~= start + done.push(c));
        }
    }
    assert(value@.take(value@.len() as int) =~= value@);
    r.concat("'")
}

/// How a shell reads a word, by what it has read: whether it is within single quotes,
/// whether a backslash stands before, and the word so far.
pub open spec fn shell_read(word: Text) -> (bool, bool, Text)
    decreases word.len(),
{
    if word.len() == 0 {
        (false, false, Seq::empty())
    } else {
        let c = word.last();
        match shell_read(word.drop_last()) {
            (true, _, value) => if c == '\'' {
                (false, false, value)
            } else {
                (true, false, value.push(c))
            },
            (false, true, value) => (false, false, value.push(c)),
            (false, false, value) => if c == '\'' {
                (true, false, value)
            } else if c == '\\' {
                (false, true, value)
            } else {
                (false, false, value.push(c))
            },
        }
    }
}

proof fn lemma_shell_read(value: Text)
    ensures
        shell_read("'"@ + quoted_chars(value)) == (true, false, value),
    decreases value.len(),
{
    reveal_strlit("'");
    reveal_strlit("'\\''");
    if value.len() == 0 {
        let word = "'"@ + quoted_chars(value);
        assert(word =~= seq!['\'']);
        assert(word.drop_last() =~= Seq::<char>::empty());
        assert(shell_read(Seq::<char>::empty()) == (false, false, Seq::<char>::empty()));
        assert(value =~= Seq::<char>::empty());
    } else {
        let init = value.drop_last();
        lemma_shell_read(init);
        let before = "'"@ + quoted_chars(init);
        let word = "'"@ + quoted_chars(value);
        assert(value =~= init.push(value.last()));
        if value.last() == '\'' {
            let a = before.push('\'');
            let b = a.push('\\');
            let c = b.push('\'');
            assert(word =~= c.push('\''));
            assert(a.drop_last() =~= before);
            assert(b.drop_last() =~= a);
            assert(c.drop_last() =~= b);
            assert(word.drop_last() =~= c);
            assert(shell_read(a) == (false, false, init));
            assert(shell_read(b) == (false, true, init));
            assert(shell_read(c) == (false, false, init.push('\'')));
        } else {
            assert(word =~= before.push(value.last()));
            assert(word.drop_last() =~= before);
        }
    }
}

/// A shell reads a quoted text as the text, whatever is in it.
pub proof fn law_shell_quoting(value: Text)
    ensures
        shell_read(shell_word(value)) == (false, false, value),
{
    reveal_strlit("'");
    lemma_shell_read(value);
    let word = shell_word(value);
    let before = "'"@ + quoted_chars(value);
    assert(word =~= before.push('\''));
    assert(word.drop_last() =~= before);
}

/// The lines that make the branches at a commit follow it.
pub open spec fn update_lines(refs: Seq<(Text, Text)>, commit: Text, checkout: Text) -> Text
    decreases refs.len(),
{
    if refs.len() == 0 {
        Seq::empty()
    } else {
        let before = update_lines(refs.drop_last(), commit, checkout);
        let (id, branch) = refs.last();
        if id == commit && branch != checkout {
            before + ("update-ref refs/heads/"@ + branch + "\n"@)
        } else {
            before
        }
    }
}

/// The list that replays commits one by one, each followed by its branches but the
/// one that is checked out in the end.
pub open spec fn explicit_lines(plan: MoveView, commits: Seq<Text>) -> Text
    decreases commits.len(),
{
    if commits.len() == 0 {
        Seq::empty()
    } else {
        let commit = commits.last();
        explicit_lines(plan, commits.drop_last()) + ("pick "@ + commit + "\n"@) + update_lines(
            plan.ref_updates,
            commit,
            plan.checkout_branch,
        )
    }
}

/// The list that replays a plan's commits, with their branches.
pub fn explicit_rebase_todo(plan: &MovePlan) -> (r: String)
    ensures
        r@ == explicit_lines(plan@, plan@.commits),
{
    let ghost p = plan@;
    let mut todo = String::new();
    let mut i: usize = 0;
    assert(p.commits.take(0) =~= Seq::<Text>::empty());
    assert(todo@ =~= Seq::<char>::empty());
    while i < plan.commits.len()
        invariant
            i <= plan.commits.len(),
            p == plan@,
            todo@ == explicit_lines(p, p.commits.take(i as int)),
        decreases plan.commits.len() - i,
    {
        let ghost done = todo@;
        let ghost commit = p.commits[i as int];
        assert(p.commits.take(i + 1).drop_last() =~= p.commits.take(i as int));
        let line = "pick ".to_owned().concat(plan.commits[i].as_str()).concat("\n");
        todo.append(line.as_str());
        let ghost start = todo@;
        let mut j: usize = 0;
        assert(p.ref_updates.take(0) =~= Seq::<(Text, Text)>::empty());
        assert(start + update_lines(p.ref_updates.take(0), commit, p.checkout_branch) =~= start);
        while j < plan.ref_updates.len()
            invariant
                i < plan.commits.len(),
                j <= plan.ref_updates.len(),
                p == plan@,
                commit == p.commits[i as int],
                todo@ == start + update_lines(
                    p.ref_updates.take(j as int),
                    commit,
                    p.checkout_branch,
                ),
            decreases plan.ref_updates.len() - j,
        {
            let (id, branch) = &plan.ref_updates[j];
            let ghost before = update_lines(p.ref_updates.take(j as int), commit, p.checkout_branch);
            assert(p.ref_updates.take(j + 1).drop_last() =~= p.ref_updates.take(j as int));
            assert(p.ref_updates.take(j + 1).last() == (id@, branch@));
            if same(id.as_str(), plan.commits[i].as_str()) && !same(
                branch.as_str(),
                plan.checkout_branch.as_str(),
            ) {
                let line = "update-ref refs/heads/".to_owned().concat(branch.as_str()).concat("\n");
                todo.append(line.as_str());
                assert(todo@ =~= start + (before + line@));
            }
            j = j + 1;
        }
        assert(p.ref_updates.take(p.ref_updates.len() as int) =~= p.ref_updates);
        i = i + 1;
    }
    assert(p.commits.take(p.commits.len() as int) =~= p.commits);
    todo
}

} // verus!
