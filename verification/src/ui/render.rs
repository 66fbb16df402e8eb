//! The graph of commits as lines of text, with what the colours and links of each
//! line cover.

use crate::bytes::{
    boundary, cut_text, find_before, lemma_boundary_stays, lemma_bytes_concat, lemma_cut,
    lemma_cut_joins, lemma_cut_len, lemma_ends, lemma_text_before, len, text_before,
};
use crate::dict::Dict;
use crate::integrations::github::{LinkView, PullRequestLink};
use crate::order::views;
use crate::split::{lines, lines_of};
use crate::text::{
    byte_len, can_clip, clip, clipped, copy_option, maybe, same, strip_prefix, texts,
    without_prefix, Text,
};
use crate::ui::label_laws::{label_well, law_commit_label};
use crate::ui::model::{Commit, CommitView, Graph, GraphView};
use ratatui::text::Line;
use renderdag::{Ancestor, BoxDrawingRenderer, GraphRowRenderer, Renderer};
use vstd::prelude::*;

verus! {

/// A link in a line: where it stands, in columns, what it says and where it leads.
#[derive(Debug, PartialEq, Eq)]
pub struct RenderedLink {
    pub start: usize,
    pub width: usize,
    pub text: String,
    pub url: String,
}

/// What a `RenderedLink` holds.
#[verifier::ext_equal]
pub struct RenderedLinkView {
    pub start: usize,
    pub width: usize,
    pub text: Text,
    pub url: Text,
}

impl View for RenderedLink {
    type V = RenderedLinkView;

    open spec fn view(&self) -> RenderedLinkView {
        RenderedLinkView { start: self.start, width: self.width, text: self.text@, url: self.url@ }
    }
}

impl Clone for RenderedLink {
    fn clone(&self) -> (r: Self)
        ensures
            r@ == self@,
    {
        RenderedLink {
            start: self.start,
            width: self.width,
            text: self.text.clone(),
            url: self.url.clone(),
        }
    }
}

/// What a part of a line is.
#[derive(Clone, Copy, Debug, PartialEq, Eq, Structural)]
pub enum TextKind {
    CommitHash,
    Head,
    LocalRef,
    RemoteRef,
    Tag,
}

/// A part of a line, from byte `start` to before byte `end`.
#[derive(Clone, Copy, Debug, PartialEq, Eq, Structural)]
pub struct StyledRange {
    pub start: usize,
    pub end: usize,
    pub kind: TextKind,
}

/// A line of the graph. The first line of a commit says which commit it is.
#[derive(Debug)]
pub struct RenderedLine {
    pub text: String,
    pub commit: Option<String>,
    pub preview: bool,
    pub conflict: bool,
    pub links: Vec<RenderedLink>,
    pub styles: Vec<StyledRange>,
}

/// What a `RenderedLine` holds.
#[verifier::ext_equal]
pub struct LineView {
    pub text: Text,
    pub commit: Option<Text>,
    pub preview: bool,
    pub conflict: bool,
    pub links: Seq<RenderedLinkView>,
    pub styles: Seq<StyledRange>,
}

impl View for RenderedLine {
    type V = LineView;

    open spec fn view(&self) -> LineView {
        LineView {
            text: self.text@,
            commit: maybe(self.commit),
            preview: self.preview,
            conflict: self.conflict,
            links: views(self.links@),
            styles: self.styles@,
        }
    }
}

/// A copy of links.
fn copy_links(links: &Vec<RenderedLink>) -> (r: Vec<RenderedLink>)
    ensures
        views(r@) == views(links@),
{
    let mut r: Vec<RenderedLink> = Vec::new();
    let mut i: usize = 0;
    while i < links.len()
        invariant
            i <= links.len(),
            r.len() == i,
            forall|j: int| 0 <= j < i ==> (#[trigger] r@[j])@ == links@[j]@,
        decreases links.len() - i,
    {
        r.push(links[i].clone());
        i = i + 1;
    }
    assert(views(r@) =~= views(links@));
    r
}

/// A copy of styled ranges.
fn copy_styles(styles: &Vec<StyledRange>) -> (r: Vec<StyledRange>)
    ensures
        r@ == styles@,
{
    let mut r: Vec<StyledRange> = Vec::new();
    let mut i: usize = 0;
    while i < styles.len()
        invariant
            i <= styles.len(),
            r@ == styles@.take(i as int),
        decreases styles.len() - i,
    {
        r.push(styles[i]);
        assert(styles@.take(i + 1) =~= styles@.take(i as int).push(styles@[i as int]));
        i = i + 1;
    }
    assert(styles@.take(styles@.len() as int) =~= styles@);
    r
}

impl Clone for RenderedLine {
    fn clone(&self) -> (r: Self)
        ensures
            r@ == self@,
    {
        RenderedLine {
            text: self.text.clone(),
            commit: copy_option(&self.commit),
            preview: self.preview,
            conflict: self.conflict,
            links: copy_links(&self.links),
            styles: copy_styles(&self.styles),
        }
    }
}

/// An option of a text.
pub open spec fn maybe_str(s: Option<&str>) -> Option<Text> {
    match s {
        Some(s) => Some(s@),
        None => None,
    }
}

/// An id without the mark of a commit that is shown as it would be.
pub open spec fn bare_id(id: Text) -> Text {
    match without_prefix(id, "preview:"@) {
        Some(rest) => rest,
        None => id,
    }
}

/// How an id is shown.
pub open spec fn shown_id(id: Text) -> Text {
    clipped(bare_id(id), 8)
}

/// Whether a character of the bare id begins behind the bytes that are shown.
pub open spec fn id_fits(id: Text) -> bool {
    can_clip(bare_id(id), 8)
}

/// Computes `shown_id`.
fn short_id(id: &str) -> (r: String)
    requires
        id_fits(id@),
    ensures
        r@ == shown_id(id@),
{
    match strip_prefix(id, "preview:") {
        Some(rest) => clip(rest.as_str(), 8),
        None => clip(id, 8),
    }
}

/// A part of a label, and what it is if it is coloured by itself.
#[verifier::ext_equal]
pub struct Piece {
    pub text: Text,
    pub kind: Option<TextKind>,
}

/// The text that parts make.
pub open spec fn parts_text(parts: Seq<Piece>) -> Text
    decreases parts.len(),
{
    if parts.len() == 0 {
        Seq::empty()
    } else {
        parts_text(parts.drop_last()) + parts.last().text
    }
}

/// Where the parts that are coloured by themselves stand.
pub open spec fn parts_ranges(parts: Seq<Piece>) -> Seq<StyledRange>
    decreases parts.len(),
{
    if parts.len() == 0 {
        Seq::empty()
    } else {
        let before = parts_ranges(parts.drop_last());
        match parts.last().kind {
            None => before,
            Some(kind) => before.push(
                StyledRange {
                    start: byte_len(parts_text(parts.drop_last())) as usize,
                    end: byte_len(parts_text(parts)) as usize,
                    kind,
                },
            ),
        }
    }
}

/// A part of a kind.
pub open spec fn marked(text: Text, kind: TextKind) -> Piece {
    Piece { text, kind: Some(kind) }
}

/// A part that is not coloured by itself.
pub open spec fn plain(text: Text) -> Piece {
    Piece { text, kind: None }
}

/// How the place where work goes on is shown.
pub open spec fn head_label(branch: Option<Text>) -> Seq<Piece> {
    match branch {
        Some(branch) => seq![
            marked("HEAD"@, TextKind::Head),
            plain(" -> "@),
            marked(branch, TextKind::LocalRef),
        ],
        None => seq![marked("HEAD"@, TextKind::Head)],
    }
}

/// Whether a branch is shown by itself: the one that `HEAD` points at is not.
pub open spec fn own_label(is_head: bool, branch: Option<Text>) -> spec_fn(Text) -> bool {
    |name: Text| !is_head || Some(name) != branch
}

/// Names as labels of a kind.
pub open spec fn name_labels(names: Seq<Text>, kind: TextKind) -> Seq<Seq<Piece>> {
    Seq::new(names.len(), |i: int| seq![marked(names[i], kind)])
}

/// Tags as labels.
pub open spec fn tag_labels(tags: Seq<Text>) -> Seq<Seq<Piece>> {
    Seq::new(tags.len(), |i: int| seq![marked("tag: "@ + tags[i], TextKind::Tag)])
}

/// What is shown behind the id of a commit.
pub open spec fn labels_of(commit: CommitView, branch: Option<Text>) -> Seq<Seq<Piece>> {
    (if commit.is_head {
        seq![head_label(branch)]
    } else {
        Seq::empty()
    }) + name_labels(
        commit.local_refs.filter(own_label(commit.is_head, branch)),
        TextKind::LocalRef,
    ) + name_labels(commit.remote_refs, TextKind::RemoteRef) + tag_labels(commit.tags)
        + conflict_labels(commit)
}

/// Labels behind an opening bracket, with commas between them.
pub open spec fn opened(labels: Seq<Seq<Piece>>) -> Seq<Piece>
    decreases labels.len(),
{
    if labels.len() == 0 {
        Seq::empty()
    } else if labels.len() == 1 {
        seq![plain(" ("@)] + labels.last()
    } else {
        opened(labels.drop_last()) + seq![plain(", "@)] + labels.last()
    }
}

/// The parts of what is shown of a commit.
pub open spec fn label_parts(commit: CommitView, branch: Option<Text>) -> Seq<Piece> {
    let labels = labels_of(commit, branch);
    seq![marked(shown_id(commit.id), TextKind::CommitHash)] + opened(labels) + (if labels.len()
        == 0 {
        Seq::empty()
    } else {
        seq![plain(")"@)]
    }) + seq![plain(" "@), plain(commit.subject)]
}

/// What is shown of a commit.
pub open spec fn label_text(commit: CommitView, branch: Option<Text>) -> Text {
    parts_text(label_parts(commit, branch))
}

/// A text that is put together, with the ranges of its parts.
struct Label {
    text: String,
    styles: Vec<StyledRange>,
    parts: Ghost<Seq<Piece>>,
}

impl Label {
    spec fn well(&self) -> bool {
        &&& self.text@ == parts_text(self.parts@)
        &&& self.styles@ == parts_ranges(self.parts@)
    }

    fn new() -> (r: Self)
        ensures
            r.well(),
            r.parts@ == Seq::<Piece>::empty(),
    {
        let r = Label { text: String::new(), styles: Vec::new(), parts: Ghost(Seq::empty()) };
        assert(r.text@ =~= parts_text(r.parts@));
        assert(r.styles@ =~= parts_ranges(r.parts@));
        r
    }

    /// Adds a part that is not coloured by itself.
    fn push_plain(&mut self, value: &str)
        requires
            old(self).well(),
        ensures
            final(self).well(),
            final(self).parts@ == old(self).parts@.push(plain(value@)),
    {
        self.text.append(value);
        proof {
            self.parts@ = self.parts@.push(plain(value@));
            assert(self.parts@.drop_last() =~= old(self).parts@);
        }
    }

    /// Adds a part of a kind.
    fn push_styled(&mut self, value: &str, kind: TextKind)
        requires
            old(self).well(),
        ensures
            final(self).well(),
            final(self).parts@ == old(self).parts@.push(marked(value@, kind)),
    {
        let start = len(self.text.as_str());
        self.text.append(value);
        let end = len(self.text.as_str());
        self.styles.push(StyledRange { start, end, kind });
        proof {
            self.parts@ = self.parts@.push(marked(value@, kind));
            assert(self.parts@.drop_last() =~= old(self).parts@);
        }
    }

    /// Adds what stands before a label.
    fn open(&mut self, first: bool)
        requires
            old(self).well(),
        ensures
            final(self).well(),
            final(self).parts@ == old(self).parts@.push(
                plain(if first { " ("@ } else { ", "@ }),
            ),
    {
        if first {
            self.push_plain(" (");
        } else {
            self.push_plain(", ");
        }
    }
}

/// One more label behind an opening bracket.
proof fn lemma_opened(labels: Seq<Seq<Piece>>, label: Seq<Piece>)
    ensures
        opened(labels.push(label)) == opened(labels) + seq![
            plain(if labels.len() == 0 { " ("@ } else { ", "@ }),
        ] + label,
{
    assert(labels.push(label).drop_last() =~= labels);
    if labels.len() == 0 {
        assert(opened(labels) + seq![plain(" ("@)] + label =~= seq![plain(" ("@)] + label);
    }
}

/// Adds names as labels of a kind, behind the labels that are there.
fn push_names(
    label: &mut Label,
    names: &Vec<String>,
    kind: TextKind,
    empty: bool,
    start: Ghost<Seq<Piece>>,
    done: Ghost<Seq<Seq<Piece>>>,
) -> (r: bool)
    requires
        old(label).well(),
        old(label).parts@ == start@ + opened(done@),
        empty == (done@.len() == 0),
    ensures
        final(label).well(),
        final(label).parts@ == start@ + opened(done@ + name_labels(texts(names@), kind)),
        r == ((done@ + name_labels(texts(names@), kind)).len() == 0),
{
    let ghost all = name_labels(texts(names@), kind);
    let mut i: usize = 0;
    let mut first = empty;
    assert(done@ + all.take(0) =~= done@);
    while i < names.len()
        invariant
            i <= names.len(),
            all == name_labels(texts(names@), kind),
            label.well(),
            label.parts@ == start@ + opened(done@ + all.take(i as int)),
            first == ((done@ + all.take(i as int)).len() == 0),
        decreases names.len() - i,
    {
        let ghost before = done@ + all.take(i as int);
        label.open(first);
        label.push_styled(names[i].as_str(), kind);
        proof {
            lemma_opened(before, all[i as int]);
            assert(done@ + all.take(i + 1) =~= before.push(all[i as int]));
            assert(label.parts@ =~= start@ + opened(before.push(all[i as int])));
        }
        first = false;
        i = i + 1;
    }
    assert(all.take(all.len() as int) =~= all);
    first
}

/// The branches that are shown by themselves.
fn own_names(commit: &Commit, head_branch: Option<&str>) -> (r: Vec<String>)
    ensures
        texts(r@) == commit@.local_refs.filter(own_label(commit.is_head, maybe_str(head_branch))),
{
    let ghost refs = commit@.local_refs;
    let ghost keeps = own_label(commit.is_head, maybe_str(head_branch));
    let mut own: Vec<String> = Vec::new();
    let mut i: usize = 0;
    assert(refs.take(0) =~= Seq::<Text>::empty());
    assert(texts(own@) =~= refs.take(0).filter(keeps)) by {
        reveal(Seq::filter);
    }
    while i < commit.local_refs.len()
        invariant
            i <= commit.local_refs.len(),
            refs == commit@.local_refs,
            keeps == own_label(commit.is_head, maybe_str(head_branch)),
            texts(own@) == refs.take(i as int).filter(keeps),
        decreases commit.local_refs.len() - i,
    {
        let name = commit.local_refs[i].as_str();
        let is_branch = match head_branch {
            Some(branch) => same(name, branch),
            None => false,
        };
        proof {
            crate::order::lemma_filter_step(refs, i as int, keeps);
        }
        if !commit.is_head || !is_branch {
            let ghost was = texts(own@);
            own.push(name.to_owned());
            assert(texts(own@) =~= was.push(name@));
        }
        i = i + 1;
    }
    assert(refs.take(refs.len() as int) =~= refs);
    own
}

/// Adds tags as labels, behind the labels that are there.
fn push_tags(
    label: &mut Label,
    tags: &Vec<String>,
    empty: bool,
    start: Ghost<Seq<Piece>>,
    done: Ghost<Seq<Seq<Piece>>>,
) -> (r: bool)
    requires
        old(label).well(),
        old(label).parts@ == start@ + opened(done@),
        empty == (done@.len() == 0),
    ensures
        final(label).well(),
        final(label).parts@ == start@ + opened(done@ + tag_labels(texts(tags@))),
        r == ((done@ + tag_labels(texts(tags@))).len() == 0),
{
    let ghost all = tag_labels(texts(tags@));
    let mut i: usize = 0;
    let mut first = empty;
    assert(done@ + all.take(0) =~= done@);
    while i < tags.len()
        invariant
            i <= tags.len(),
            all == tag_labels(texts(tags@)),
            label.well(),
            label.parts@ == start@ + opened(done@ + all.take(i as int)),
            first == ((done@ + all.take(i as int)).len() == 0),
        decreases tags.len() - i,
    {
        let ghost before = done@ + all.take(i as int);
        label.open(first);
        let text = "tag: ".to_owned().concat(tags[i].as_str());
        label.push_styled(text.as_str(), TextKind::Tag);
        proof {
            lemma_opened(before, all[i as int]);
            assert(done@ + all.take(i + 1) =~= before.push(all[i as int]));
            assert(label.parts@ =~= start@ + opened(before.push(all[i as int])));
        }
        first = false;
        i = i + 1;
    }
    assert(all.take(all.len() as int) =~= all);
    first
}

/// Adds the place where work goes on as the first label.
fn push_head(label: &mut Label, head_branch: Option<&str>, start: Ghost<Seq<Piece>>)
    requires
        old(label).well(),
        old(label).parts@ == start@,
    ensures
        final(label).well(),
        final(label).parts@ == start@ + opened(seq![head_label(maybe_str(head_branch))]),
{
    let ghost branch = maybe_str(head_branch);
    label.open(true);
    label.push_styled("HEAD", TextKind::Head);
    match head_branch {
        Some(name) => {
            label.push_plain(" -> ");
            label.push_styled(name, TextKind::LocalRef);
        },
        None => {},
    }
    assert(label.parts@ =~= start@ + (seq![plain(" ("@)] + head_label(branch)));
}

/// The conflict of a commit as a label.
pub open spec fn conflict_labels(commit: CommitView) -> Seq<Seq<Piece>> {
    match commit.conflict {
        Some(conflict) => seq![seq![plain(conflict)]],
        None => Seq::empty(),
    }
}

/// Adds a commit's conflict as a label, behind the labels that are there, and its subject.
fn push_end(
    label: &mut Label,
    commit: &Commit,
    empty: bool,
    start: Ghost<Seq<Piece>>,
    done: Ghost<Seq<Seq<Piece>>>,
)
    requires
        old(label).well(),
        old(label).parts@ == start@ + opened(done@),
        empty == (done@.len() == 0),
    ensures
        final(label).well(),
        final(label).parts@ == start@ + opened(done@ + conflict_labels(commit@)) + (if (done@
            + conflict_labels(commit@)).len() == 0 {
            Seq::empty()
        } else {
            seq![plain(")"@)]
        }) + seq![plain(" "@), plain(commit@.subject)],
{
    let ghost all = done@ + conflict_labels(commit@);
    let mut empty = empty;
    match &commit.conflict {
        Some(conflict) => {
            label.open(empty);
            label.push_plain(conflict.as_str());
            empty = false;
            proof {
                let last = seq![plain(conflict@)];
                lemma_opened(done@, last);
                assert(all =~= done@.push(last));
                assert(label.parts@ =~= start@ + opened(all));
            }
        },
        None => {
            assert(all =~= done@);
        },
    }
    if !empty {
        label.push_plain(")");
    }
    label.push_plain(" ");
    label.push_plain(commit.subject.as_str());
    assert(label.parts@ =~= start@ + opened(all) + (if all.len() == 0 {
        Seq::empty()
    } else {
        seq![plain(")"@)]
    }) + seq![plain(" "@), plain(commit@.subject)]);
}

/// Computes what is shown of a commit, and the ranges of its parts.
pub fn commit_label_with_styles(commit: &Commit, head_branch: Option<&str>) -> (r: (
    String,
    Vec<StyledRange>,
))
    requires
        id_fits(commit.id@),
    ensures
        r.0@ == label_text(commit@, maybe_str(head_branch)),
        r.1@ == parts_ranges(label_parts(commit@, maybe_str(head_branch))),
        label_well(commit@, maybe_str(head_branch), r.0@, r.1@),
{
    let ghost branch = maybe_str(head_branch);
    let ghost view = commit@;
    let ghost start = seq![marked(shown_id(view.id), TextKind::CommitHash)];
    let ghost heads: Seq<Seq<Piece>> = if view.is_head {
        seq![head_label(branch)]
    } else {
        Seq::empty()
    };
    let ghost locals = name_labels(
        view.local_refs.filter(own_label(view.is_head, branch)),
        TextKind::LocalRef,
    );
    let ghost remotes = name_labels(view.remote_refs, TextKind::RemoteRef);
    let ghost tags = tag_labels(view.tags);
    let mut label = Label::new();
    label.push_styled(short_id(commit.id.as_str()).as_str(), TextKind::CommitHash);
    assert(label.parts@ =~= start);
    if commit.is_head {
        push_head(&mut label, head_branch, Ghost(start));
    }
    assert(label.parts@ =~= start + opened(heads));
    let own = own_names(commit, head_branch);
    let empty = push_names(
        &mut label,
        &own,
        TextKind::LocalRef,
        !commit.is_head,
        Ghost(start),
        Ghost(heads),
    );
    let empty = push_names(
        &mut label,
        &commit.remote_refs,
        TextKind::RemoteRef,
        empty,
        Ghost(start),
        Ghost(heads + locals),
    );
    let empty = push_tags(
        &mut label,
        &commit.tags,
        empty,
        Ghost(start),
        Ghost(heads + locals + remotes),
    );
    push_end(&mut label, commit, empty, Ghost(start), Ghost(heads + locals + remotes + tags));
    assert(label.parts@ =~= label_parts(view, branch));
    let size: usize = len(label.text.as_str());
    proof {
        assert(byte_len(label.text@) == size);
        law_commit_label(view, branch);
    }
    (label.text, label.styles)
}

/// What is shown of a commit.
pub fn commit_label(commit: &Commit, head_branch: Option<&str>) -> (r: String)
    requires
        id_fits(commit.id@),
    ensures
        r@ == label_text(commit@, maybe_str(head_branch)),
{
    commit_label_with_styles(commit, head_branch).0
}

/// Ranges stand in a text one behind another, each from a character to a character.
pub open spec fn ranges_fit(text: Text, ranges: Seq<StyledRange>) -> bool {
    &&& forall|i: int|
        0 <= i < ranges.len() ==> {
            &&& (#[trigger] ranges[i]).start <= ranges[i].end <= byte_len(text)
            &&& boundary(text, ranges[i].start as int)
            &&& boundary(text, ranges[i].end as int)
        }
    &&& forall|i: int, j: int|
        0 <= i < j < ranges.len() ==> (#[trigger] ranges[i]).end <= (#[trigger] ranges[j]).start
}

/// The parts that are coloured by themselves.
pub open spec fn marked_parts(parts: Seq<Piece>) -> Seq<Piece>
    decreases parts.len(),
{
    if parts.len() == 0 {
        Seq::empty()
    } else if parts.last().kind is Some {
        marked_parts(parts.drop_last()).push(parts.last())
    } else {
        marked_parts(parts.drop_last())
    }
}

/// Ranges hold the texts of parts, and are of their kinds.
pub open spec fn ranges_hold(text: Text, ranges: Seq<StyledRange>, parts: Seq<Piece>) -> bool {
    &&& ranges.len() == parts.len()
    &&& forall|i: int|
        0 <= i < ranges.len() ==> {
            &&& cut_text(text, (#[trigger] ranges[i]).start as int, ranges[i].end as int)
                == parts[i].text
            &&& Some(ranges[i].kind) == parts[i].kind
        }
}

/// The ranges of a label stand in it one behind another and hold just the parts that
/// are coloured by themselves, each with its kind.
pub proof fn law_label_ranges(parts: Seq<Piece>)
    requires
        byte_len(parts_text(parts)) <= usize::MAX,
    ensures
        ranges_fit(parts_text(parts), parts_ranges(parts)),
        ranges_hold(parts_text(parts), parts_ranges(parts), marked_parts(parts)),
    decreases parts.len(),
{
    if parts.len() > 0 {
        let init = parts.drop_last();
        let a = parts_text(init);
        let b = parts.last().text;
        let text = parts_text(parts);
        lemma_bytes_concat(a, b);
        law_label_ranges(init);
        let before = parts_ranges(init);
        let ranges = parts_ranges(parts);
        assert forall|i: int| 0 <= i < before.len() implies {
            &&& boundary(text, (#[trigger] before[i]).start as int)
            &&& boundary(text, before[i].end as int)
            &&& cut_text(text, before[i].start as int, before[i].end as int) == marked_parts(
                init,
            )[i].text
        } by {
            lemma_boundary_stays(a, b, before[i].start as int);
            lemma_boundary_stays(a, b, before[i].end as int);
            assert(cut_text(a, before[i].start as int, before[i].end as int) == marked_parts(
                init,
            )[i].text);
        }
        lemma_cut(a, b, Seq::empty());
        assert(a + b + Seq::<char>::empty() =~= text);
        if parts.last().kind is Some {
            assert(ranges.last().start == byte_len(a));
            assert(ranges.last().end == byte_len(text));
        }
    }
}

/// Ranges, so many bytes further on.
pub open spec fn shifted(ranges: Seq<StyledRange>, offset: int) -> Seq<StyledRange> {
    Seq::new(
        ranges.len(),
        |i: int|
            StyledRange {
                start: (offset + ranges[i].start) as usize,
                end: (offset + ranges[i].end) as usize,
                kind: ranges[i].kind,
            },
    )
}

/// The ranges in a line that holds a label.
pub open spec fn found_ranges(text: Text, label: Text, ranges: Seq<StyledRange>) -> Seq<
    StyledRange,
> {
    match text_before(text, label) {
        Some(before) => shifted(ranges, byte_len(before) as int),
        None => Seq::empty(),
    }
}

/// The lines of a commit, as they are drawn.
pub open spec fn commit_lines(
    commit: CommitView,
    id: Text,
    branch: Option<Text>,
    drawn: Text,
) -> Seq<LineView> {
    Seq::new(
        lines_of(drawn).len(),
        |i: int|
            LineView {
                text: lines_of(drawn)[i],
                commit: if i == 0 {
                    Some(id)
                } else {
                    None
                },
                preview: commit.preview,
                conflict: commit.conflict is Some,
                links: Seq::empty(),
                styles: if i == 0 {
                    found_ranges(
                        lines_of(drawn)[i],
                        label_text(commit, branch),
                        parts_ranges(label_parts(commit, branch)),
                    )
                } else {
                    Seq::empty()
                },
            },
    )
}

/// What shifted ranges hold of a line is what they held of the label.
proof fn lemma_found_ranges(text: Text, parts: Seq<Piece>)
    requires
        byte_len(text) <= usize::MAX,
        text_before(text, parts_text(parts)) is Some,
    ensures
        byte_len(text_before(text, parts_text(parts))->0) + byte_len(parts_text(parts)) <= byte_len(
            text,
        ),
        ranges_fit(text, found_ranges(text, parts_text(parts), parts_ranges(parts))),
        ranges_hold(
            text,
            found_ranges(text, parts_text(parts), parts_ranges(parts)),
            marked_parts(parts),
        ),
{
    let label = parts_text(parts);
    let before = text_before(text, label)->0;
    lemma_text_before(text, label);
    let rest = text.skip((before.len() + label.len()) as int);
    lemma_bytes_concat(before, label);
    lemma_bytes_concat(before + label, rest);
    law_label_ranges(parts);
    let ranges = parts_ranges(parts);
    let moved = found_ranges(text, label, ranges);
    assert forall|i: int| 0 <= i < ranges.len() implies {
        &&& boundary(text, (#[trigger] moved[i]).start as int)
        &&& boundary(text, moved[i].end as int)
        &&& cut_text(text, moved[i].start as int, moved[i].end as int) == marked_parts(parts)[i].text
    } by {
        let from = ranges[i].start as int;
        let to = ranges[i].end as int;
        let a = cut_text(label, 0, from);
        let b = cut_text(label, from, to);
        let c = cut_text(label, to, byte_len(label) as int);
        lemma_cut_joins(label, from, to);
        lemma_ends(label);
        lemma_cut_len(label, 0, from);
        lemma_cut_len(label, from, to);
        assert(label == a + b + c);
        lemma_bytes_concat(a, b);
        lemma_bytes_concat(before, a);
        lemma_bytes_concat(before + a, b);
        lemma_cut(before + a, b, c + rest);
        assert(before + a + b + (c + rest) =~= text);
    }
}

/// Computes `commit_lines`: the lines of a commit, from what is drawn of it.
pub fn row_lines(commit: &Commit, id: &str, head_branch: Option<&str>, drawn: &str) -> (r: Vec<
    RenderedLine,
>)
    requires
        id_fits(commit.id@),
    ensures
        views(r@) == commit_lines(commit@, id@, maybe_str(head_branch), drawn@),
        forall|i: int| 0 <= i < r.len() ==> ranges_fit((#[trigger] r@[i]).text@, r@[i].styles@),
{
    let ghost branch = maybe_str(head_branch);
    let ghost view = commit@;
    let ghost all = commit_lines(view, id@, branch, drawn@);
    let (label, label_styles) = commit_label_with_styles(commit, head_branch);
    let rows = lines(drawn);
    let mut r: Vec<RenderedLine> = Vec::new();
    let mut i: usize = 0;
    while i < rows.len()
        invariant
            i <= rows.len(),
            r.len() == i,
            view == commit@,
            branch == maybe_str(head_branch),
            texts(rows@) == lines_of(drawn@),
            all == commit_lines(view, id@, branch, drawn@),
            label@ == label_text(view, branch),
            label_styles@ == parts_ranges(label_parts(view, branch)),
            forall|j: int| 0 <= j < i ==> (#[trigger] r@[j])@ == all[j],
            forall|j: int| 0 <= j < i ==> ranges_fit((#[trigger] r@[j]).text@, r@[j].styles@),
        decreases rows.len() - i,
    {
        let text = rows[i].as_str();
        assert(text@ == lines_of(drawn@)[i as int]);
        let styles = if i == 0 {
            find_styles(text, label.as_str(), &label_styles, Ghost(label_parts(view, branch)))
        } else {
            Vec::new()
        };
        let line = RenderedLine {
            text: text.to_owned(),
            commit: if i == 0 {
                Some(id.to_owned())
            } else {
                None
            },
            preview: commit.preview,
            conflict: commit.conflict.is_some(),
            links: Vec::new(),
            styles,
        };
        assert(views(line.links@) =~= Seq::<RenderedLinkView>::empty());
        assert(line@ == all[i as int]);
        r.push(line);
        i = i + 1;
    }
    assert(views(r@) =~= all);
    r
}

/// Computes `found_ranges`.
fn find_styles(
    text: &str,
    label: &str,
    styles: &Vec<StyledRange>,
    parts: Ghost<Seq<Piece>>,
) -> (r: Vec<StyledRange>)
    requires
        label@ == parts_text(parts@),
        styles@ == parts_ranges(parts@),
    ensures
        r@ == found_ranges(text@, label@, styles@),
        ranges_fit(text@, r@),
{
    let total = len(text);
    let whole = len(label);
    match find_before(text, label) {
        None => Vec::new(),
        Some(before) => {
            let offset = len(before.as_str());
            proof {
                lemma_found_ranges(text@, parts@);
                law_label_ranges(parts@);
            }
            let ghost all = found_ranges(text@, label@, styles@);
            let mut r: Vec<StyledRange> = Vec::new();
            let mut i: usize = 0;
            while i < styles.len()
                invariant
                    i <= styles.len(),
                    r.len() == i,
                    whole == byte_len(label@),
                    offset + whole <= total,
                    ranges_fit(label@, styles@),
                    all == shifted(styles@, offset as int),
                    forall|j: int| 0 <= j < i ==> #[trigger] r@[j] == all[j],
                decreases styles.len() - i,
            {
                let style = styles[i];
                r.push(
                    StyledRange {
                        start: offset + style.start,
                        end: offset + style.end,
                        kind: style.kind,
                    },
                );
                i = i + 1;
            }
            assert(r@ =~= all);
            r
        },
    }
}

/// What a row to be drawn holds: a commit, its parents, its mark and its label.
pub type RowView = (Text, Seq<Text>, Text, Text);

/// `BoxDrawingRenderer` of renderdag, which is handed one row after another and keeps the
/// columns that the graph takes below them.
#[verifier::external_body]
pub struct Drawing {
    renderer: BoxDrawingRenderer<String, GraphRowRenderer<String>>,
}

/// The rows that a renderer was handed, one after another.
pub uninterp spec fn rows_handed(drawing: Drawing) -> Seq<
    (Seq<char>, Seq<Seq<char>>, Seq<char>, Seq<char>),
>;

/// How many lines a renderer gives a row at least.
pub uninterp spec fn row_height(drawing: Drawing) -> usize;

/// What is drawn of the last of some rows, where a row takes `height` lines at least.
pub uninterp spec fn drawn_row(
    height: usize,
    rows: Seq<(Seq<char>, Seq<Seq<char>>, Seq<char>, Seq<char>)>,
) -> Seq<char>;

/// `GraphRowRenderer::new` of renderdag, with an output of box drawing characters and a
/// least height: a renderer that was handed no rows yet.
#[verifier::external_body]
fn new_drawing(height: usize) -> (r: Drawing)
    ensures
        rows_handed(r) == Seq::<RowView>::empty(),
        row_height(r) == height,
{
    let output = GraphRowRenderer::<String>::new().output();
    Drawing { renderer: output.with_min_row_height(height).build_box_drawing() }
}

/// `Renderer::next_row` of renderdag's box drawing renderer. What it returns depends on
/// the row, on those that the renderer was handed before and on the least height. Which
/// characters it draws is not stated.
#[verifier::external_body]
fn next_row(
    drawing: &mut Drawing,
    id: &str,
    parents: &Vec<String>,
    glyph: &str,
    label: &str,
) -> (r: String)
    ensures
        rows_handed(*final(drawing)) == rows_handed(*old(drawing)).push(
            (id@, texts(parents@), glyph@, label@),
        ),
        row_height(*final(drawing)) == row_height(*old(drawing)),
        r@ == drawn_row(row_height(*old(drawing)), rows_handed(*final(drawing))),
{
    let parents = parents.iter().cloned().map(Ancestor::Parent).collect();
    drawing.renderer.next_row(id.to_owned(), parents, glyph.to_owned(), label.to_owned())
}

/// How a commit is marked.
pub open spec fn glyph(commit: CommitView) -> Text {
    if commit.conflict is Some {
        "x"@
    } else if commit.preview {
        "◆"@
    } else {
        "o"@
    }
}

/// Whether a commit is known.
pub open spec fn known(commits: Map<Text, CommitView>) -> spec_fn(Text) -> bool {
    |id: Text| commits.contains_key(id)
}

/// The commits that are shown, in order.
pub open spec fn shown(graph: GraphView) -> Seq<Text> {
    graph.order.filter(known(graph.commits))
}

/// The ids of all commits that are shown can be shortened.
pub open spec fn drawable(graph: GraphView) -> bool {
    forall|i: int|
        0 <= i < graph.order.len() && graph.commits.contains_key(#[trigger] graph.order[i])
            ==> id_fits(graph.commits[graph.order[i]].id)
}

/// The row of a commit.
pub open spec fn row_of(graph: GraphView, id: Text) -> RowView {
    let commit = graph.commits[id];
    (id, commit.parents, glyph(commit), label_text(commit, graph.branch))
}

/// The rows of commits.
pub open spec fn rows_of(graph: GraphView, ids: Seq<Text>) -> Seq<RowView> {
    Seq::new(ids.len(), |i: int| row_of(graph, ids[i]))
}

/// The lines of commits, each drawn behind those before it.
pub open spec fn lines_for(graph: GraphView, ids: Seq<Text>) -> Seq<LineView>
    decreases ids.len(),
{
    if ids.len() == 0 {
        Seq::empty()
    } else {
        lines_for(graph, ids.drop_last()) + commit_lines(
            graph.commits[ids.last()],
            ids.last(),
            graph.branch,
            drawn_row(1, rows_of(graph, ids)),
        )
    }
}

/// The lines of a graph.
pub open spec fn rendered(graph: GraphView) -> Seq<LineView> {
    lines_for(graph, shown(graph))
}

/// A text in an option, if there is one.
fn as_text(s: &Option<String>) -> (r: Option<&str>)
    ensures
        maybe_str(r) == maybe(*s),
{
    match s {
        Some(s) => Some(s.as_str()),
        None => None,
    }
}

/// The lines of a graph.
pub fn render_graph(graph: &Graph) -> (r: Vec<RenderedLine>)
    requires
        drawable(graph@),
    ensures
        views(r@) == rendered(graph@),
        forall|i: int| 0 <= i < r.len() ==> ranges_fit((#[trigger] r@[i]).text@, r@[i].styles@),
{
    let ghost g = graph@;
    let ghost keeps = known(g.commits);
    let mut drawing = new_drawing(1);
    let mut r: Vec<RenderedLine> = Vec::new();
    let mut i: usize = 0;
    proof {
        reveal(Seq::filter);
        assert(g.order.take(0) =~= Seq::<Text>::empty());
        assert(g.order.take(0).filter(keeps) =~= Seq::<Text>::empty());
        assert(rows_of(g, Seq::empty()) =~= Seq::<RowView>::empty());
        assert(views(r@) =~= lines_for(g, Seq::empty()));
    }
    while i < graph.order.len()
        invariant
            i <= graph.order.len(),
            g == graph@,
            drawable(g),
            keeps == known(g.commits),
            row_height(drawing) == 1,
            rows_handed(drawing) == rows_of(g, g.order.take(i as int).filter(keeps)),
            views(r@) == lines_for(g, g.order.take(i as int).filter(keeps)),
            forall|j: int| 0 <= j < r.len() ==> ranges_fit((#[trigger] r@[j]).text@, r@[j].styles@),
        decreases graph.order.len() - i,
    {
        let id = graph.order[i].as_str();
        let ghost ids = g.order.take(i as int).filter(keeps);
        assert(g.order[i as int] == id@);
        proof {
            crate::order::lemma_filter_step(g.order, i as int, keeps);
        }
        match graph.commits.get(id) {
            None => {},
            Some(commit) => {
                assert(g.commits[id@] == commit@);
                let glyph = if commit.conflict.is_some() {
                    "x"
                } else if commit.preview {
                    "◆"
                } else {
                    "o"
                };
                let label = commit_label(commit, as_text(&graph.branch));
                let drawn = next_row(&mut drawing, id, &commit.parents, glyph, label.as_str());
                assert(rows_of(g, ids.push(id@)) =~= rows_of(g, ids).push(row_of(g, id@)));
                let mut more = row_lines(commit, id, as_text(&graph.branch), drawn.as_str());
                let ghost was = r@;
                let ghost added = more@;
                r.append(&mut more);
                assert(r@ == was + added);
                assert(views(r@) =~= views(was) + views(added));
                assert(ids.push(id@).drop_last() =~= ids);
                assert forall|j: int| 0 <= j < r.len() implies ranges_fit(
                    (#[trigger] r@[j]).text@,
                    r@[j].styles@,
                ) by {
                    if j < was.len() {
                        assert(r@[j] == was[j]);
                    } else {
                        assert(r@[j] == added[j - was.len()]);
                    }
                }
            },
        }
        i = i + 1;
    }
    assert(g.order.take(g.order.len() as int) =~= g.order);
    r
}

/// How many columns a text takes on a terminal.
pub uninterp spec fn shown_width(s: Seq<char>) -> usize;

/// `Line::width` of ratatui, for a line of one text. How wide each character is is not
/// stated.
#[verifier::external_body]
pub(crate) fn width(s: &str) -> (r: usize)
    ensures
        r == shown_width(s@),
{
    Line::raw(s).width()
}

/// Links in the order of where they start, with one more, which comes behind those that
/// start where it does.
pub open spec fn with_link(links: Seq<RenderedLinkView>, link: RenderedLinkView) -> Seq<
    RenderedLinkView,
>
    decreases links.len(),
{
    if links.len() == 0 || links.last().start <= link.start {
        links.push(link)
    } else {
        with_link(links.drop_last(), link).push(links.last())
    }
}

/// The link of a branch in a line, where the branch has one and the line shows it.
pub open spec fn branch_link(text: Text, links: Map<Text, LinkView>, name: Text) -> Option<
    RenderedLinkView,
> {
    if !links.contains_key(name) {
        None
    } else {
        match text_before(text, name) {
            None => None,
            Some(before) => Some(
                RenderedLinkView {
                    start: shown_width(before),
                    width: shown_width(name),
                    text: name,
                    url: links[name].url,
                },
            ),
        }
    }
}

/// The links of branches in a line, in the order of where they start.
pub open spec fn links_in(text: Text, links: Map<Text, LinkView>, names: Seq<Text>) -> Seq<
    RenderedLinkView,
>
    decreases names.len(),
{
    if names.len() == 0 {
        Seq::empty()
    } else {
        let before = links_in(text, links, names.drop_last());
        match branch_link(text, links, names.last()) {
            Some(link) => with_link(before, link),
            None => before,
        }
    }
}

/// A line with the links of the commit that it shows.
pub open spec fn with_links(
    line: LineView,
    commits: Map<Text, CommitView>,
    links: Map<Text, LinkView>,
) -> LineView {
    LineView {
        links: match line.commit {
            Some(id) => if commits.contains_key(id) {
                links_in(line.text, links, commits[id].remote_refs)
            } else {
                Seq::empty()
            },
            None => Seq::empty(),
        },
        ..line
    }
}

/// Lines with the links of the commits that they show.
pub open spec fn lines_with_links(
    lines: Seq<LineView>,
    commits: Map<Text, CommitView>,
    links: Map<Text, LinkView>,
) -> Seq<LineView> {
    Seq::new(lines.len(), |i: int| with_links(lines[i], commits, links))
}

/// Where a link comes in is behind those that start no later.
proof fn lemma_with_link(links: Seq<RenderedLinkView>, link: RenderedLinkView, i: int)
    requires
        0 <= i <= links.len(),
        i > 0 ==> links[i - 1].start <= link.start,
        forall|j: int| i <= j < links.len() ==> (#[trigger] links[j]).start > link.start,
    ensures
        with_link(links, link) == links.insert(i, link),
    decreases links.len(),
{
    if links.len() == 0 || links.last().start <= link.start {
        assert(i == links.len()) by {
            if i < links.len() {
                assert(links[links.len() - 1].start > link.start);
            }
        }
        assert(links.push(link) =~= links.insert(i, link));
    } else {
        assert(i < links.len());
        let init = links.drop_last();
        lemma_with_link(init, link, i);
        assert(init.insert(i, link).push(links.last()) =~= links.insert(i, link));
    }
}

/// Puts a link among others.
pub fn insert_link(links: &mut Vec<RenderedLink>, link: RenderedLink)
    ensures
        views(final(links)@) == with_link(views(old(links)@), link@),
{
    let ghost was = views(links@);
    let mut i: usize = links.len();
    while i > 0 && links[i - 1].start > link.start
        invariant
            i <= links.len(),
            was == views(links@),
            forall|j: int| i <= j < links.len() ==> (#[trigger] was[j]).start > link.start,
        decreases i,
    {
        assert(was[i - 1].start == links@[i - 1].start);
        i = i - 1;
    }
    proof {
        if i > 0 {
            assert(was[i - 1].start == links@[i - 1].start);
        }
        lemma_with_link(was, link@, i as int);
    }
    let ghost view = link@;
    links.insert(i, link);
    assert(views(links@) =~= was.insert(i as int, view));
}

/// The links of a line.
fn line_links(text: &str, names: &Vec<String>, links: &Dict<PullRequestLink>) -> (r: Vec<
    RenderedLink,
>)
    ensures
        views(r@) == links_in(text@, links@, texts(names@)),
{
    let ghost all = texts(names@);
    let mut r: Vec<RenderedLink> = Vec::new();
    let mut i: usize = 0;
    assert(all.take(0) =~= Seq::<Text>::empty());
    assert(views(r@) =~= links_in(text@, links@, all.take(0)));
    while i < names.len()
        invariant
            i <= names.len(),
            all == texts(names@),
            views(r@) == links_in(text@, links@, all.take(i as int)),
        decreases names.len() - i,
    {
        let name = names[i].as_str();
        assert(all.take(i + 1).drop_last() =~= all.take(i as int));
        match links.get(name) {
            None => {},
            Some(found) => match find_before(text, name) {
                None => {},
                Some(before) => {
                    let link = RenderedLink {
                        start: width(before.as_str()),
                        width: width(name),
                        text: name.to_owned(),
                        url: found.url.clone(),
                    };
                    assert(Some(link@) == branch_link(text@, links@, name@));
                    insert_link(&mut r, link);
                },
            },
        }
        i = i + 1;
    }
    assert(all.take(all.len() as int) =~= all);
    r
}

/// Gives each line the links of the commit that it shows.
pub fn attach_pr_links(
    lines: &mut Vec<RenderedLine>,
    graph: &Graph,
    links: &Dict<PullRequestLink>,
)
    ensures
        views(final(lines)@) == lines_with_links(views(old(lines)@), graph@.commits, links@),
{
    let ghost start = views(lines@);
    let ghost commits = graph@.commits;
    let mut i: usize = 0;
    while i < lines.len()
        invariant
            i <= lines.len(),
            commits == graph@.commits,
            lines.len() == start.len(),
            forall|j: int|
                0 <= j < i ==> (#[trigger] lines@[j])@ == with_links(start[j], commits, links@),
            forall|j: int| i <= j < lines.len() ==> (#[trigger] lines@[j])@ == start[j],
        decreases lines.len() - i,
    {
        let found = match &lines[i].commit {
            Some(id) => match graph.commits.get(id.as_str()) {
                Some(commit) => line_links(lines[i].text.as_str(), &commit.remote_refs, links),
                None => Vec::new(),
            },
            None => Vec::new(),
        };
        let ghost was = lines@[i as int]@;
        let ghost wanted = with_links(start[i as int], commits, links@);
        assert(views(found@) =~= wanted.links);
        lines[i].links = found;
        assert(lines@[i as int]@ =~= wanted);
        i = i + 1;
    }
    assert(views(lines@) =~= lines_with_links(start, commits, links@));
}

/// The links of a line stand in the order of where they start.
pub proof fn law_links_are_in_order(text: Text, links: Map<Text, LinkView>, names: Seq<Text>)
    ensures
        forall|i: int, j: int|
            0 <= i < j < links_in(text, links, names).len() ==> (#[trigger] links_in(
                text,
                links,
                names,
            )[i]).start <= (#[trigger] links_in(text, links, names)[j]).start,
    decreases names.len(),
{
    if names.len() > 0 {
        law_links_are_in_order(text, links, names.drop_last());
        match branch_link(text, links, names.last()) {
            Some(link) => {
                lemma_link_order(links_in(text, links, names.drop_last()), link);
            },
            None => {},
        }
    }
}

/// Links stay in order when one comes in.
proof fn lemma_link_order(links: Seq<RenderedLinkView>, link: RenderedLinkView)
    requires
        forall|i: int, j: int|
            0 <= i < j < links.len() ==> (#[trigger] links[i]).start <= (
            #[trigger] links[j]).start,
    ensures
        with_link(links, link).len() == links.len() + 1,
        forall|i: int, j: int|
            0 <= i < j < with_link(links, link).len() ==> (#[trigger] with_link(
                links,
                link,
            )[i]).start <= (#[trigger] with_link(links, link)[j]).start,
        forall|i: int|
            0 <= i < with_link(links, link).len() ==> (#[trigger] with_link(links, link)[i]).start
                <= link.start || links.len() > 0 && with_link(links, link)[i].start
                <= links.last().start,
    decreases links.len(),
{
    if links.len() == 0 || links.last().start <= link.start {
    } else {
        lemma_link_order(links.drop_last(), link);
        let init = with_link(links.drop_last(), link);
        assert forall|i: int| 0 <= i < init.len() implies (#[trigger] init[i]).start
            <= links.last().start by {
            if links.drop_last().len() > 0 {
                assert(links[links.len() - 2].start <= links[links.len() - 1].start);
            }
        }
    }
}

} // verus!
