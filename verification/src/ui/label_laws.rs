//! What holds of the label of a commit.

use crate::bytes::lemma_bytes_concat;
use crate::text::{byte_len, Text};
use crate::ui::model::CommitView;
use crate::ui::render::{
    conflict_labels, head_label, label_parts, label_text, labels_of, law_label_ranges, marked,
    marked_parts, name_labels, opened, own_label, parts_ranges, parts_text, plain, ranges_fit,
    ranges_hold, shown_id, tag_labels, Piece, StyledRange, TextKind,
};
use vstd::prelude::*;

verus! {

/// Names as parts of a kind.
pub open spec fn name_marks(names: Seq<Text>, kind: TextKind) -> Seq<Piece> {
    names.map_values(|name: Text| marked(name, kind))
}

/// Tags as parts.
pub open spec fn tag_marks(tags: Seq<Text>) -> Seq<Piece> {
    tags.map_values(|tag: Text| marked("tag: "@ + tag, TextKind::Tag))
}

/// The parts that show where work goes on.
pub open spec fn head_marks(commit: CommitView, branch: Option<Text>) -> Seq<Piece> {
    match (commit.is_head, branch) {
        (false, _) => Seq::empty(),
        (true, None) => seq![marked("HEAD"@, TextKind::Head)],
        (true, Some(branch)) => seq![
            marked("HEAD"@, TextKind::Head),
            marked(branch, TextKind::LocalRef),
        ],
    }
}

/// The parts of a commit's label that are coloured by themselves: its id, the head, and its
/// branches and tags.
pub open spec fn label_marks(commit: CommitView, branch: Option<Text>) -> Seq<Piece> {
    seq![marked(shown_id(commit.id), TextKind::CommitHash)] + head_marks(commit, branch)
        + name_marks(
        commit.local_refs.filter(own_label(commit.is_head, branch)),
        TextKind::LocalRef,
    ) + name_marks(commit.remote_refs, TextKind::RemoteRef) + tag_marks(commit.tags)
}

/// How many ranges are of a kind.
pub open spec fn count_kind(ranges: Seq<StyledRange>, kind: TextKind) -> nat
    decreases ranges.len(),
{
    if ranges.len() == 0 {
        0
    } else {
        count_kind(ranges.drop_last(), kind) + if ranges.last().kind == kind {
            1nat
        } else {
            0
        }
    }
}

/// What is shown of a commit, and the ranges in it: the first is that of the id; they hold
/// just the parts that are coloured by themselves, one behind another; there is one of the
/// head exactly where the commit is checked out, and one for each remote branch and each
/// tag. All end before the space in front of the subject, which the label ends with.
pub open spec fn label_well(
    commit: CommitView,
    branch: Option<Text>,
    text: Text,
    ranges: Seq<StyledRange>,
) -> bool {
    &&& (" "@ + commit.subject).is_suffix_of(text)
    &&& ranges.len() > 0
    &&& ranges[0] == (StyledRange {
        start: 0,
        end: byte_len(shown_id(commit.id)) as usize,
        kind: TextKind::CommitHash,
    })
    &&& ranges_fit(text, ranges)
    &&& ranges_hold(text, ranges, label_marks(commit, branch))
    &&& forall|i: int|
        0 <= i < ranges.len() ==> (#[trigger] ranges[i]).end + 1 + byte_len(commit.subject)
            <= byte_len(text)
    &&& count_kind(ranges, TextKind::CommitHash) == 1
    &&& count_kind(ranges, TextKind::Head) == if commit.is_head {
        1nat
    } else {
        0
    }
    &&& count_kind(ranges, TextKind::RemoteRef) == commit.remote_refs.len()
    &&& count_kind(ranges, TextKind::Tag) == commit.tags.len()
}

/// The label of a commit and its ranges are as `label_well` says.
pub proof fn law_commit_label(commit: CommitView, branch: Option<Text>)
    requires
        byte_len(label_text(commit, branch)) <= usize::MAX,
    ensures
        label_well(
            commit,
            branch,
            label_text(commit, branch),
            parts_ranges(label_parts(commit, branch)),
        ),
{
    let parts = label_parts(commit, branch);
    let text = label_text(commit, branch);
    let ranges = parts_ranges(parts);
    let front = parts.drop_last().drop_last();
    let marks = label_marks(commit, branch);
    let end = " "@ + commit.subject;
    assert(parts.last() == plain(commit.subject));
    assert(parts.drop_last().last() == plain(" "@));
    assert(text == parts_text(front) + " "@ + commit.subject);
    assert(text =~= parts_text(front) + end);
    assert(parts_ranges(parts) == parts_ranges(parts.drop_last()));
    assert(parts_ranges(parts.drop_last()) == parts_ranges(front));
    lemma_bytes_concat(parts_text(front), end);
    lemma_bytes_concat(" "@, commit.subject);
    assert(byte_len(" "@) == 1) by {
        reveal_strlit(" ");
        reveal_with_fuel(vstd::utf8::encode_utf8, 2);
    }
    law_label_ranges(parts);
    law_label_ranges(front);
    assert(end.is_suffix_of(text)) by {
        assert(text.subrange(text.len() - end.len(), text.len() as int) =~= end);
    }
    lemma_label_marks(commit, branch);
    lemma_counts(text, ranges, marks, TextKind::CommitHash);
    lemma_counts(text, ranges, marks, TextKind::Head);
    lemma_counts(text, ranges, marks, TextKind::RemoteRef);
    lemma_counts(text, ranges, marks, TextKind::Tag);
    lemma_mark_counts(commit, branch);
    lemma_first_range(parts);
    assert(parts.take(1) =~= seq![marked(shown_id(commit.id), TextKind::CommitHash)]);
    assert(parts.take(1).drop_last() =~= Seq::<Piece>::empty());
    assert(parts_text(Seq::<Piece>::empty()) =~= Seq::<char>::empty());
    assert(parts_text(parts.take(1)) =~= shown_id(commit.id));
    assert(vstd::utf8::encode_utf8(Seq::<char>::empty()).len() == 0);
}

/// The ranges of the first parts come first.
proof fn lemma_first_range(parts: Seq<Piece>)
    requires
        parts.len() > 0,
        parts[0].kind is Some,
    ensures
        parts_ranges(parts).len() > 0,
        parts_ranges(parts.take(1)).len() == 1,
        parts_ranges(parts)[0] == parts_ranges(parts.take(1))[0],
    decreases parts.len(),
{
    if parts.len() == 1 {
        assert(parts.take(1) =~= parts);
        assert(parts_ranges(parts.drop_last()).len() == 0);
    } else {
        lemma_first_range(parts.drop_last());
        assert(parts.drop_last().take(1) =~= parts.take(1));
    }
}

/// How many parts are of a kind.
spec fn count_marks(marks: Seq<Piece>, kind: TextKind) -> nat
    decreases marks.len(),
{
    if marks.len() == 0 {
        0
    } else {
        count_marks(marks.drop_last(), kind) + if marks.last().kind == Some(kind) {
            1nat
        } else {
            0
        }
    }
}

/// There are as many ranges of a kind as parts.
proof fn lemma_counts(text: Text, ranges: Seq<StyledRange>, marks: Seq<Piece>, kind: TextKind)
    requires
        ranges_hold(text, ranges, marks),
    ensures
        count_kind(ranges, kind) == count_marks(marks, kind),
    decreases ranges.len(),
{
    if ranges.len() > 0 {
        let init = ranges.drop_last();
        assert forall|i: int| 0 <= i < init.len() implies {
            &&& cut_of(text, #[trigger] init[i]) == marks.drop_last()[i].text
            &&& Some(init[i].kind) == marks.drop_last()[i].kind
        } by {
            assert(init[i] == ranges[i]);
        }
        lemma_counts(text, init, marks.drop_last(), kind);
        assert(Some(ranges[ranges.len() - 1].kind) == marks[marks.len() - 1].kind);
    }
}

/// What a range cuts out of a text.
spec fn cut_of(text: Text, range: StyledRange) -> Text {
    crate::bytes::cut_text(text, range.start as int, range.end as int)
}

proof fn lemma_count_concat(a: Seq<Piece>, b: Seq<Piece>, kind: TextKind)
    ensures
        count_marks(a + b, kind) == count_marks(a, kind) + count_marks(b, kind),
    decreases b.len(),
{
    if b.len() == 0 {
        assert(a + b =~= a);
    } else {
        lemma_count_concat(a, b.drop_last(), kind);
        assert((a + b).drop_last() =~= a + b.drop_last());
    }
}

/// Of parts of one kind all are counted or none.
proof fn lemma_count_uniform(marks: Seq<Piece>, own: TextKind, kind: TextKind)
    requires
        forall|i: int| 0 <= i < marks.len() ==> (#[trigger] marks[i]).kind == Some(own),
    ensures
        count_marks(marks, kind) == if own == kind {
            marks.len()
        } else {
            0
        },
    decreases marks.len(),
{
    if marks.len() > 0 {
        assert forall|i: int| 0 <= i < marks.drop_last().len() implies (
        #[trigger] marks.drop_last()[i]).kind == Some(own) by {
            assert(marks[i].kind == Some(own));
        }
        lemma_count_uniform(marks.drop_last(), own, kind);
        assert(marks[marks.len() - 1].kind == Some(own));
    }
}

proof fn lemma_mark_counts(commit: CommitView, branch: Option<Text>)
    ensures
        ({
            let marks = label_marks(commit, branch);
            &&& count_marks(marks, TextKind::CommitHash) == 1
            &&& count_marks(marks, TextKind::Head) == if commit.is_head {
                1nat
            } else {
                0
            }
            &&& count_marks(marks, TextKind::RemoteRef) == commit.remote_refs.len()
            &&& count_marks(marks, TextKind::Tag) == commit.tags.len()
        }),
{
    lemma_marks_of_kind(commit, branch, TextKind::CommitHash);
    lemma_marks_of_kind(commit, branch, TextKind::Head);
    lemma_marks_of_kind(commit, branch, TextKind::RemoteRef);
    lemma_marks_of_kind(commit, branch, TextKind::Tag);
}

proof fn lemma_marks_of_kind(commit: CommitView, branch: Option<Text>, kind: TextKind)
    requires
        kind != TextKind::LocalRef,
    ensures
        count_marks(label_marks(commit, branch), kind) == match kind {
            TextKind::CommitHash => 1nat,
            TextKind::Head => if commit.is_head {
                1nat
            } else {
                0
            },
            TextKind::LocalRef => 0,
            TextKind::RemoteRef => commit.remote_refs.len(),
            TextKind::Tag => commit.tags.len(),
        },
{
    let hash = seq![marked(shown_id(commit.id), TextKind::CommitHash)];
    let head = head_marks(commit, branch);
    let own = commit.local_refs.filter(own_label(commit.is_head, branch));
    let local = name_marks(own, TextKind::LocalRef);
    let remote = name_marks(commit.remote_refs, TextKind::RemoteRef);
    let tags = tag_marks(commit.tags);
    lemma_count_concat(hash + head + local + remote, tags, kind);
    lemma_count_concat(hash + head + local, remote, kind);
    lemma_count_concat(hash + head, local, kind);
    lemma_count_concat(hash, head, kind);
    lemma_count_uniform(hash, TextKind::CommitHash, kind);
    lemma_count_uniform(local, TextKind::LocalRef, kind);
    lemma_count_uniform(remote, TextKind::RemoteRef, kind);
    lemma_count_uniform(tags, TextKind::Tag, kind);
    if commit.is_head {
        let first = seq![marked("HEAD"@, TextKind::Head)];
        lemma_count_uniform(first, TextKind::Head, kind);
        match branch {
            None => {
                assert(head =~= first);
            },
            Some(b) => {
                let second = seq![marked(b, TextKind::LocalRef)];
                assert(head =~= first + second);
                lemma_count_concat(first, second, kind);
                lemma_count_uniform(second, TextKind::LocalRef, kind);
            },
        }
    } else {
        assert(head =~= Seq::<Piece>::empty());
    }
}

proof fn lemma_marked_concat(a: Seq<Piece>, b: Seq<Piece>)
    ensures
        marked_parts(a + b) == marked_parts(a) + marked_parts(b),
    decreases b.len(),
{
    if b.len() == 0 {
        assert(a + b =~= a);
        assert(marked_parts(a) + marked_parts(b) =~= marked_parts(a));
    } else {
        lemma_marked_concat(a, b.drop_last());
        assert((a + b).drop_last() =~= a + b.drop_last());
        assert(marked_parts(a + b) =~= marked_parts(a) + marked_parts(b));
    }
}

/// One part, if it is coloured by itself.
proof fn lemma_marked_one(piece: Piece)
    ensures
        marked_parts(seq![piece]) == if piece.kind is Some {
            seq![piece]
        } else {
            Seq::empty()
        },
{
    assert(seq![piece].drop_last() =~= Seq::<Piece>::empty());
    assert(marked_parts(Seq::<Piece>::empty()) =~= Seq::<Piece>::empty());
    assert(Seq::<Piece>::empty().push(piece) =~= seq![piece]);
}

/// The parts of labels that are coloured by themselves.
spec fn flat(labels: Seq<Seq<Piece>>) -> Seq<Piece>
    decreases labels.len(),
{
    if labels.len() == 0 {
        Seq::empty()
    } else {
        flat(labels.drop_last()) + marked_parts(labels.last())
    }
}

proof fn lemma_flat_concat(a: Seq<Seq<Piece>>, b: Seq<Seq<Piece>>)
    ensures
        flat(a + b) == flat(a) + flat(b),
    decreases b.len(),
{
    if b.len() == 0 {
        assert(a + b =~= a);
        assert(flat(a) + flat(b) =~= flat(a));
    } else {
        lemma_flat_concat(a, b.drop_last());
        assert((a + b).drop_last() =~= a + b.drop_last());
        assert(flat(a + b) =~= flat(a) + flat(b));
    }
}

/// Brackets and commas are not coloured by themselves.
proof fn lemma_opened(labels: Seq<Seq<Piece>>)
    ensures
        marked_parts(opened(labels)) == flat(labels),
    decreases labels.len(),
{
    if labels.len() == 0 {
    } else if labels.len() == 1 {
        lemma_marked_one(plain(" ("@));
        lemma_marked_concat(seq![plain(" ("@)], labels.last());
        assert(flat(labels.drop_last()) =~= Seq::<Piece>::empty());
        assert(marked_parts(opened(labels)) =~= flat(labels));
    } else {
        let before = opened(labels.drop_last());
        lemma_opened(labels.drop_last());
        lemma_marked_one(plain(", "@));
        lemma_marked_concat(before, seq![plain(", "@)]);
        lemma_marked_concat(before + seq![plain(", "@)], labels.last());
        assert(marked_parts(opened(labels)) =~= flat(labels));
    }
}

/// Labels of one part each, of a kind.
proof fn lemma_flat_single(labels: Seq<Seq<Piece>>, marks: Seq<Piece>)
    requires
        labels.len() == marks.len(),
        forall|i: int|
            0 <= i < labels.len() ==> (#[trigger] labels[i]) == seq![marks[i]] && marks[i].kind is Some,
    ensures
        flat(labels) == marks,
    decreases labels.len(),
{
    if labels.len() == 0 {
        assert(flat(labels) =~= marks);
    } else {
        let a = labels.drop_last();
        let b = marks.drop_last();
        assert forall|i: int| 0 <= i < a.len() implies (#[trigger] a[i]) == seq![b[i]]
            && b[i].kind is Some by {
            assert(labels[i] == seq![marks[i]]);
        }
        lemma_flat_single(a, b);
        assert(labels[labels.len() - 1] == seq![marks.last()]);
        lemma_marked_one(marks.last());
        assert(flat(labels) =~= marks);
    }
}

proof fn lemma_label_marks(commit: CommitView, branch: Option<Text>)
    ensures
        marked_parts(label_parts(commit, branch)) == label_marks(commit, branch),
{
    let hash = seq![marked(shown_id(commit.id), TextKind::CommitHash)];
    let labels = labels_of(commit, branch);
    let close: Seq<Piece> = if labels.len() == 0 {
        Seq::empty()
    } else {
        seq![plain(")"@)]
    };
    let end = seq![plain(" "@), plain(commit.subject)];
    lemma_marked_concat(hash + opened(labels) + close, end);
    lemma_marked_concat(hash + opened(labels), close);
    lemma_marked_concat(hash, opened(labels));
    lemma_marked_one(marked(shown_id(commit.id), TextKind::CommitHash));
    lemma_marked_one(plain(")"@));
    lemma_marked_one(plain(" "@));
    lemma_marked_one(plain(commit.subject));
    assert(end =~= seq![plain(" "@)] + seq![plain(commit.subject)]);
    lemma_marked_concat(seq![plain(" "@)], seq![plain(commit.subject)]);
    assert(marked_parts(close) =~= Seq::<Piece>::empty());
    assert(marked_parts(end) =~= Seq::<Piece>::empty());
    lemma_opened(labels);
    let head: Seq<Seq<Piece>> = if commit.is_head {
        seq![head_label(branch)]
    } else {
        Seq::empty()
    };
    let own = commit.local_refs.filter(own_label(commit.is_head, branch));
    let local = name_labels(own, TextKind::LocalRef);
    let remote = name_labels(commit.remote_refs, TextKind::RemoteRef);
    let tags = tag_labels(commit.tags);
    let conflict = conflict_labels(commit);
    lemma_flat_concat(head + local + remote + tags, conflict);
    lemma_flat_concat(head + local + remote, tags);
    lemma_flat_concat(head + local, remote);
    lemma_flat_concat(head, local);
    lemma_flat_single(local, name_marks(own, TextKind::LocalRef));
    lemma_flat_single(remote, name_marks(commit.remote_refs, TextKind::RemoteRef));
    lemma_flat_single(tags, tag_marks(commit.tags));
    lemma_flat_conflict(commit);
    lemma_flat_head(commit, branch);
    assert(marked_parts(label_parts(commit, branch)) =~= label_marks(commit, branch));
}

proof fn lemma_flat_conflict(commit: CommitView)
    ensures
        flat(conflict_labels(commit)) == Seq::<Piece>::empty(),
{
    let labels = conflict_labels(commit);
    if labels.len() > 0 {
        lemma_marked_one(labels[0][0]);
        assert(labels.last() =~= seq![labels[0][0]]);
        assert(labels.drop_last() =~= Seq::<Seq<Piece>>::empty());
        assert(flat(labels.drop_last()) =~= Seq::<Piece>::empty());
        assert(flat(labels) =~= Seq::<Piece>::empty());
    }
}

proof fn lemma_flat_head(commit: CommitView, branch: Option<Text>)
    ensures
        flat(
            if commit.is_head {
                seq![head_label(branch)]
            } else {
                Seq::empty()
            },
        ) == head_marks(commit, branch),
{
    if commit.is_head {
        let labels = seq![head_label(branch)];
        assert(labels.drop_last() =~= Seq::<Seq<Piece>>::empty());
        assert(flat(labels.drop_last()) =~= Seq::<Piece>::empty());
        assert(flat(labels) =~= marked_parts(head_label(branch)));
        let first = marked("HEAD"@, TextKind::Head);
        lemma_marked_one(first);
        match branch {
            None => {
                assert(head_label(branch) =~= seq![first]);
            },
            Some(b) => {
                let arrow = plain(" -> "@);
                let last = marked(b, TextKind::LocalRef);
                lemma_marked_one(arrow);
                lemma_marked_one(last);
                assert(head_label(branch) =~= seq![first] + seq![arrow] + seq![last]);
                lemma_marked_concat(seq![first] + seq![arrow], seq![last]);
                lemma_marked_concat(seq![first], seq![arrow]);
                assert(marked_parts(head_label(branch)) =~= head_marks(commit, branch));
            },
        }
    } else {
        assert(flat(Seq::<Seq<Piece>>::empty()) =~= Seq::<Piece>::empty());
    }
}

} // verus!
