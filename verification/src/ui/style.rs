//! Colours, and text in them.

use crate::bytes::{boundary, cut, cut_text, lemma_cut_joins, lemma_ends, len};
use crate::order::views;
use crate::text::{byte_len, maybe, Text};
use crate::ui::render::{
    ranges_fit, width, LineView, RenderedLine, StyledRange, TextKind, shown_width,
};
use vstd::prelude::*;

verus! {

/// A colour of the terminal.
#[derive(Clone, Copy, Debug, PartialEq, Eq, Structural)]
pub enum Color {
    Reset,
    White,
    Cyan,
    Yellow,
    Green,
    Red,
    DarkGray,
    Rgb(u8, u8, u8),
}

/// How text is shown.
#[derive(Clone, Copy, Debug, PartialEq, Eq, Structural)]
pub struct Style {
    pub fg: Option<Color>,
    pub bg: Option<Color>,
    pub bold: bool,
}

/// Text as the terminal shows it by itself.
pub open spec fn plain_style() -> Style {
    Style { fg: None, bg: None, bold: false }
}

/// Text in a colour.
pub open spec fn in_color(color: Color) -> Style {
    Style { fg: Some(color), ..plain_style() }
}

/// The colour behind what is selected.
pub open spec fn selected_color() -> Color {
    Color::Rgb(64, 64, 64)
}

impl Style {
    /// Text as the terminal shows it by itself.
    pub fn plain() -> (r: Self)
        ensures
            r == plain_style(),
    {
        Style { fg: None, bg: None, bold: false }
    }

    /// Text in a colour.
    pub fn color(color: Color) -> (r: Self)
        ensures
            r == in_color(color),
    {
        Style { fg: Some(color), bg: None, bold: false }
    }
}

/// Text in one style.
#[derive(Debug, PartialEq, Eq)]
pub struct Span {
    pub text: String,
    pub style: Style,
}

/// What a `Span` holds.
#[verifier::ext_equal]
pub struct SpanView {
    pub text: Text,
    pub style: Style,
}

impl View for Span {
    type V = SpanView;

    open spec fn view(&self) -> SpanView {
        SpanView { text: self.text@, style: self.style }
    }
}

/// A line of text, and the style of the whole line under that of its parts.
#[derive(Debug, PartialEq, Eq)]
pub struct StyledLine {
    pub spans: Vec<Span>,
    pub style: Style,
}

/// What a `StyledLine` holds.
#[verifier::ext_equal]
pub struct StyledLineView {
    pub spans: Seq<SpanView>,
    pub style: Style,
}

impl View for StyledLine {
    type V = StyledLineView;

    open spec fn view(&self) -> StyledLineView {
        StyledLineView { spans: views(self.spans@), style: self.style }
    }
}

/// The text of parts of a line.
pub open spec fn spans_text(spans: Seq<SpanView>) -> Text
    decreases spans.len(),
{
    if spans.len() == 0 {
        Seq::empty()
    } else {
        spans_text(spans.drop_last()) + spans.last().text
    }
}

/// A line of parts, in no style of its own.
pub open spec fn line_of(spans: Seq<SpanView>) -> StyledLineView {
    StyledLineView { spans, style: plain_style() }
}

/// A line of one text in one style.
pub open spec fn whole_line(text: Text, style: Style) -> StyledLineView {
    StyledLineView { spans: seq![SpanView { text, style: plain_style() }], style }
}

impl StyledLine {
    /// The text of the line.
    pub fn text(&self) -> (r: String)
        ensures
            r@ == spans_text(self@.spans),
    {
        let ghost all = self@.spans;
        let mut r = String::new();
        let mut i: usize = 0;
        assert(all.take(0) =~= Seq::<SpanView>::empty());
        assert(r@ =~= Seq::<char>::empty());
        while i < self.spans.len()
            invariant
                i <= self.spans.len(),
                all == self@.spans,
                r@ == spans_text(all.take(i as int)),
            decreases self.spans.len() - i,
        {
            assert(all.take(i + 1).drop_last() =~= all.take(i as int));
            assert(all.take(i + 1).last() == self.spans@[i as int]@);
            r.append(self.spans[i].text.as_str());
            i = i + 1;
        }
        assert(all.take(all.len() as int) =~= all);
        r
    }

    /// A line of one text in one style.
    pub fn whole(text: String, style: Style) -> (r: Self)
        ensures
            r@ == whole_line(text@, style),
    {
        let ghost view = text@;
        let mut spans: Vec<Span> = Vec::new();
        spans.push(Span { text, style: Style::plain() });
        assert(views(spans@) =~= whole_line(view, style).spans);
        StyledLine { spans, style }
    }
}

/// Adds a part to others.
fn push_span(spans: &mut Vec<Span>, text: String, style: Style)
    ensures
        views(final(spans)@) == views(old(spans)@).push(SpanView { text: text@, style }),
{
    let ghost was = views(spans@);
    let ghost view = SpanView { text: text@, style };
    spans.push(Span { text, style });
    assert(views(spans@) =~= was.push(view));
}

/// How a key is shown.
pub open spec fn key_style() -> Style {
    Style { bold: true, ..in_color(Color::Yellow) }
}

/// Keys and what they do, one behind another.
pub open spec fn key_spans(bindings: Seq<(Text, Text)>) -> Seq<SpanView>
    decreases bindings.len(),
{
    if bindings.len() == 0 {
        Seq::empty()
    } else {
        let (key, label) = bindings.last();
        key_spans(bindings.drop_last()) + (if bindings.len() == 1 {
            Seq::empty()
        } else {
            seq![SpanView { text: "  "@, style: plain_style() }]
        }) + seq![
            SpanView { text: key, style: key_style() },
            SpanView { text: " "@ + label, style: in_color(Color::White) },
        ]
    }
}

/// What keys and what they do hold.
pub open spec fn bindings_of(bindings: Seq<(&str, &str)>) -> Seq<(Text, Text)> {
    Seq::new(bindings.len(), |i: int| (bindings[i].0@, bindings[i].1@))
}

/// A line of keys and what they do.
pub fn key_line(bindings: &Vec<(&str, &str)>) -> (r: StyledLine)
    ensures
        r@ == line_of(key_spans(bindings_of(bindings@))),
{
    let ghost all = bindings_of(bindings@);
    let mut spans: Vec<Span> = Vec::new();
    let mut i: usize = 0;
    assert(all.take(0) =~= Seq::<(Text, Text)>::empty());
    assert(views(spans@) =~= Seq::<SpanView>::empty());
    while i < bindings.len()
        invariant
            i <= bindings.len(),
            all == bindings_of(bindings@),
            views(spans@) == key_spans(all.take(i as int)),
        decreases bindings.len() - i,
    {
        let ghost was = views(spans@);
        let (key, label) = bindings[i];
        assert(all.take(i + 1).drop_last() =~= all.take(i as int));
        assert(all.take(i + 1).last() == (key@, label@));
        if i != 0 {
            push_span(&mut spans, "  ".to_owned(), Style::plain());
        }
        let mut style = Style::color(Color::Yellow);
        style.bold = true;
        push_span(&mut spans, key.to_owned(), style);
        push_span(&mut spans, " ".to_owned().concat(label), Style::color(Color::White));
        assert(views(spans@) =~= key_spans(all.take(i + 1)));
        i = i + 1;
    }
    assert(all.take(all.len() as int) =~= all);
    StyledLine { spans, style: Style::plain() }
}

/// So many spaces.
pub open spec fn spaces(n: nat) -> Text {
    Seq::new(n, |i: int| ' ')
}

/// Computes `spaces`.
fn repeat_space(n: usize) -> (r: String)
    ensures
        r@ == spaces(n as nat),
{
    let mut r = String::new();
    let mut i: usize = 0;
    while i < n
        invariant
            i <= n,
            r@ == spaces(i as nat),
        decreases n - i,
    {
        r.push(' ');
        assert(r@ =~= spaces((i + 1) as nat));
        i = i + 1;
    }
    assert(r@ =~= spaces(n as nat));
    r
}

/// How many columns the keys take in the help.
pub const KEY_COLUMN_WIDTH: usize = 13;

/// A line of the help: a key, which takes so many columns, and what it does in a column of
/// its own.
pub open spec fn help_line_taking(key: Text, label: Text, taken: usize) -> StyledLineView {
    line_of(
        seq![
            SpanView { text: key, style: key_style() },
            SpanView {
                text: spaces(
                    if taken < KEY_COLUMN_WIDTH {
                        (KEY_COLUMN_WIDTH - taken) as nat
                    } else {
                        0
                    },
                ),
                style: plain_style(),
            },
            SpanView { text: label, style: in_color(Color::White) },
        ],
    )
}

/// A line of the help: a key, and what it does in a column of its own.
pub open spec fn help_line_of(key: Text, label: Text) -> StyledLineView {
    help_line_taking(key, label, shown_width(key))
}

/// Computes `help_line_taking`.
pub fn help_line_with(key: &str, label: &str, taken: usize) -> (r: StyledLine)
    ensures
        r@ == help_line_taking(key@, label@, taken),
{
    let padding = if taken < KEY_COLUMN_WIDTH {
        KEY_COLUMN_WIDTH - taken
    } else {
        0
    };
    let mut spans: Vec<Span> = Vec::new();
    assert(views(spans@) =~= Seq::<SpanView>::empty());
    let mut style = Style::color(Color::Yellow);
    style.bold = true;
    push_span(&mut spans, key.to_owned(), style);
    push_span(&mut spans, repeat_space(padding), Style::plain());
    push_span(&mut spans, label.to_owned(), Style::color(Color::White));
    assert(views(spans@) =~= help_line_taking(key@, label@, taken).spans);
    StyledLine { spans, style: Style::plain() }
}

/// A line of the help.
pub fn help_line(key: &str, label: &str) -> (r: StyledLine)
    ensures
        r@ == help_line_of(key@, label@),
{
    help_line_with(key, label, width(key))
}

/// How a line of the graph is shown: as what is not there yet, as what is in conflict, as
/// what is picked up, and as what is selected, each over the one before.
pub open spec fn line_style(line: LineView, selected: Option<Text>, carried: Seq<Text>) -> Style {
    Style {
        fg: if line.commit is Some && carried.contains(line.commit->0) {
            Some(Color::Yellow)
        } else if line.conflict {
            Some(Color::Red)
        } else if line.preview {
            Some(Color::Cyan)
        } else {
            None
        },
        bg: if line.commit == selected {
            Some(selected_color())
        } else {
            None
        },
        bold: line.conflict,
    }
}

/// Computes `line_style`.
pub fn graph_line_style(
    line: &RenderedLine,
    selected: &Option<String>,
    carried_commits: &Vec<String>,
) -> (r: Style)
    ensures
        r == line_style(line@, maybe(*selected), crate::text::texts(carried_commits@)),
{
    let mut style = Style::plain();
    if line.preview {
        style.fg = Some(Color::Cyan);
    }
    if line.conflict {
        style.fg = Some(Color::Red);
        style.bold = true;
    }
    match &line.commit {
        Some(id) => {
            if crate::order::contains(carried_commits, id.as_str()) {
                style.fg = Some(Color::Yellow);
            }
        },
        None => {},
    }
    if crate::text::same_option(&line.commit, selected) {
        style.bg = Some(Color::Rgb(64, 64, 64));
    }
    style
}

/// How a part of a line is shown, over the style of the line.
pub open spec fn kind_style(base: Style, kind: TextKind) -> Style {
    match kind {
        TextKind::CommitHash => Style { fg: Some(Color::Yellow), ..base },
        TextKind::Tag => Style { fg: Some(Color::Yellow), ..base },
        TextKind::Head => Style { fg: Some(Color::Cyan), bold: true, ..base },
        TextKind::LocalRef => Style { fg: Some(Color::Green), ..base },
        TextKind::RemoteRef => Style { fg: Some(Color::Red), ..base },
    }
}

/// Computes `kind_style`.
pub fn text_kind_style(base: Style, kind: TextKind) -> (r: Style)
    ensures
        r == kind_style(base, kind),
{
    let mut style = base;
    match kind {
        TextKind::CommitHash => {
            style.fg = Some(Color::Yellow);
        },
        TextKind::Tag => {
            style.fg = Some(Color::Yellow);
        },
        TextKind::Head => {
            style.fg = Some(Color::Cyan);
            style.bold = true;
        },
        TextKind::LocalRef => {
            style.fg = Some(Color::Green);
        },
        TextKind::RemoteRef => {
            style.fg = Some(Color::Red);
        },
    }
    style
}

/// Where the last of some ranges ends.
pub open spec fn end_of(styles: Seq<StyledRange>) -> int {
    if styles.len() == 0 {
        0
    } else {
        styles.last().end as int
    }
}

/// The parts of a text up to the end of its last range: the ranges, and what is between.
pub open spec fn range_spans(text: Text, styles: Seq<StyledRange>, base: Style) -> Seq<SpanView>
    decreases styles.len(),
{
    if styles.len() == 0 {
        Seq::empty()
    } else {
        let init = styles.drop_last();
        let range = styles.last();
        range_spans(text, init, base) + (if end_of(init) < range.start {
            seq![
                SpanView { text: cut_text(text, end_of(init), range.start as int), style: base },
            ]
        } else {
            Seq::empty()
        }) + seq![
            SpanView {
                text: cut_text(text, range.start as int, range.end as int),
                style: kind_style(base, range.kind),
            },
        ]
    }
}

/// The parts of a text: its ranges, each in its style, and the rest.
pub open spec fn line_spans(text: Text, styles: Seq<StyledRange>, base: Style) -> Seq<SpanView> {
    range_spans(text, styles, base) + (if end_of(styles) < byte_len(text) {
        seq![
            SpanView {
                text: cut_text(text, end_of(styles), byte_len(text) as int),
                style: base,
            },
        ]
    } else {
        Seq::empty()
    })
}

/// A line of the graph in its styles.
pub fn styled_graph_line(line: &RenderedLine, base: Style) -> (r: StyledLine)
    requires
        ranges_fit(line.text@, line.styles@),
    ensures
        r@ == line_of(line_spans(line.text@, line.styles@, base)),
{
    let ghost text = line.text@;
    let ghost all = line.styles@;
    let total = len(line.text.as_str());
    let mut spans: Vec<Span> = Vec::new();
    let mut position: usize = 0;
    let mut i: usize = 0;
    assert(all.take(0) =~= Seq::<StyledRange>::empty());
    assert(views(spans@) =~= Seq::<SpanView>::empty());
    proof {
        lemma_ends(text);
    }
    while i < line.styles.len()
        invariant
            i <= line.styles.len(),
            text == line.text@,
            all == line.styles@,
            total == byte_len(text),
            ranges_fit(text, all),
            position == end_of(all.take(i as int)),
            position <= total,
            boundary(text, position as int),
            views(spans@) == range_spans(text, all.take(i as int), base),
        decreases line.styles.len() - i,
    {
        let range = line.styles[i];
        let ghost was = views(spans@);
        assert(all[i as int] == range);
        assert(all.take(i + 1).drop_last() =~= all.take(i as int));
        assert(all.take(i + 1).last() == range);
        if i > 0 {
            assert(all[i - 1].end <= all[i as int].start);
            assert(all.take(i as int).last() == all[i - 1]);
        }
        if position < range.start {
            push_span(&mut spans, cut(line.text.as_str(), position, range.start), base);
        }
        push_span(
            &mut spans,
            cut(line.text.as_str(), range.start, range.end),
            text_kind_style(base, range.kind),
        );
        assert(views(spans@) =~= range_spans(text, all.take(i + 1), base));
        position = range.end;
        i = i + 1;
    }
    assert(all.take(all.len() as int) =~= all);
    if position < total {
        push_span(&mut spans, cut(line.text.as_str(), position, total), base);
    }
    assert(views(spans@) =~= line_spans(text, all, base));
    StyledLine { spans, style: Style::plain() }
}

/// The text of parts, one behind another.
proof fn lemma_spans_text(a: Seq<SpanView>, b: Seq<SpanView>)
    ensures
        spans_text(a + b) == spans_text(a) + spans_text(b),
    decreases b.len(),
{
    if b.len() == 0 {
        assert(a + b =~= a);
        assert(spans_text(a) + spans_text(b) =~= spans_text(a));
    } else {
        assert((a + b).drop_last() =~= a + b.drop_last());
        lemma_spans_text(a, b.drop_last());
        assert(spans_text(a + b) =~= spans_text(a) + spans_text(b));
    }
}

proof fn lemma_one_span(span: SpanView)
    ensures
        spans_text(seq![span]) == span.text,
{
    assert(seq![span].drop_last() =~= Seq::<SpanView>::empty());
    assert(spans_text(Seq::<SpanView>::empty()) =~= Seq::<char>::empty());
    assert(spans_text(seq![span]) =~= span.text);
}

proof fn lemma_range_spans(text: Text, styles: Seq<StyledRange>, base: Style)
    requires
        ranges_fit(text, styles),
    ensures
        spans_text(range_spans(text, styles, base)) == cut_text(text, 0, end_of(styles)),
        boundary(text, end_of(styles)),
        0 <= end_of(styles) <= byte_len(text),
    decreases styles.len(),
{
    lemma_ends(text);
    if styles.len() == 0 {
        assert(vstd::utf8::encode_utf8(text).subrange(0, 0) =~= Seq::<u8>::empty());
        assert(cut_text(text, 0, 0) =~= Seq::<char>::empty());
    } else {
        let init = styles.drop_last();
        let range = styles.last();
        assert(ranges_fit(text, init)) by {
            assert forall|i: int, j: int| 0 <= i < j < init.len() implies (#[trigger] init[i]).end
                <= (#[trigger] init[j]).start by {
                assert(styles[i].end <= styles[j].start);
            }
            assert forall|i: int| 0 <= i < init.len() implies {
                &&& (#[trigger] init[i]).start <= init[i].end <= byte_len(text)
                &&& boundary(text, init[i].start as int)
                &&& boundary(text, init[i].end as int)
            } by {
                assert(styles[i] == init[i]);
            }
        }
        lemma_range_spans(text, init, base);
        assert(styles[styles.len() - 1] == range);
        if init.len() > 0 {
            assert(styles[init.len() - 1].end <= styles[styles.len() - 1].start);
        }
        let position = end_of(init);
        let first = range_spans(text, init, base);
        let gap: Seq<SpanView> = if position < range.start {
            seq![SpanView { text: cut_text(text, position, range.start as int), style: base }]
        } else {
            Seq::empty()
        };
        let one = SpanView {
            text: cut_text(text, range.start as int, range.end as int),
            style: kind_style(base, range.kind),
        };
        lemma_spans_text(first, gap);
        lemma_spans_text(first + gap, seq![one]);
        lemma_one_span(one);
        lemma_cut_joins(text, position, range.start as int);
        lemma_cut_joins(text, range.start as int, range.end as int);
        if position < range.start {
            lemma_one_span(gap[0]);
            assert(seq![gap[0]] =~= gap);
        } else {
            assert(spans_text(first + gap) =~= spans_text(first));
        }
    }
}

/// A line in its styles has the text of the line, whole and in order.
pub proof fn law_styles_keep_the_text(text: Text, styles: Seq<StyledRange>, base: Style)
    requires
        ranges_fit(text, styles),
    ensures
        spans_text(line_spans(text, styles, base)) == text,
{
    lemma_range_spans(text, styles, base);
    lemma_ends(text);
    let first = range_spans(text, styles, base);
    let end = end_of(styles);
    lemma_cut_joins(text, end, byte_len(text) as int);
    lemma_cut_joins(text, 0, end);
    if end < byte_len(text) {
        let rest = SpanView { text: cut_text(text, end, byte_len(text) as int), style: base };
        lemma_spans_text(first, seq![rest]);
        lemma_one_span(rest);
    } else {
        assert(first + Seq::<SpanView>::empty() =~= first);
        assert(cut_text(text, end, byte_len(text) as int) =~= Seq::<char>::empty()) by {
            assert(vstd::utf8::encode_utf8(text).subrange(end, end) =~= Seq::<u8>::empty());
        }
        assert(cut_text(text, 0, end) =~= text);
    }
}

/// A link that a terminal opens, where neither what it says nor where it leads could be
/// taken for a command to the terminal.
pub open spec fn hyperlink(url: Text, text: Text) -> Option<Text> {
    if exists|i: int| 0 <= i < url.len() && crate::text::is_control(#[trigger] url[i]) {
        None
    } else if exists|i: int| 0 <= i < text.len() && crate::text::is_control(#[trigger] text[i]) {
        None
    } else {
        Some("\x1B]8;;"@ + url + "\x07"@ + text + "\x1B]8;;\x07"@)
    }
}

/// Computes `hyperlink`.
pub fn hyperlink_sequence(url: &str, text: &str) -> (r: Option<String>)
    ensures
        maybe(r) == hyperlink(url@, text@),
{
    if crate::text::has_control(url) || crate::text::has_control(text) {
        None
    } else {
        Some(
            "\x1B]8;;".to_owned().concat(url).concat("\x07").concat(text).concat(
                "\x1B]8;;\x07",
            ),
        )
    }
}

} // verus!
