//! What holds of what is drawn.

use crate::bytes::cut_text;
use crate::paths::called;
use crate::text::{is_control, Text};
use crate::ui::app::{filtered, AppView, Pane};
use crate::ui::render::{ranges_fit, LineView, RenderedLinkView, StyledRange, TextKind};
use crate::ui::screen::{
    bar_widgets, first_row, footer_bindings, frame_drawn, graph_scrolled, graph_widget,
    help_bindings, help_lines_of, help_widgets, inside, message_line, message_style, panes_drawn,
    placed_link, repository_rows, selected_row, styled_lines, visible, Area, ScreenAreas,
    ScreenView, WidgetView,
};
use crate::ui::state::StateView;
use crate::ui::style::{
    hyperlink, key_spans, law_styles_keep_the_text, line_of, line_spans, line_style, plain_style,
    range_spans, spans_text, Color, SpanView, Style,
};
use vstd::prelude::*;

verus! {

/// However far the graph was scrolled, the selected commit can be seen once it is drawn.
pub proof fn law_the_selected_commit_is_seen(a: AppView, height: int, i: int)
    requires
        0 < height <= u16::MAX,
        first_row(a.state.rendered, a.state.selected, i),
        a.state.rendered.len() <= usize::MAX,
    ensures
        visible(graph_scrolled(a, height), height).contains(a.state.rendered[i]),
        graph_scrolled(a, height).state.rendered == a.state.rendered,
        graph_scrolled(a, height).state.selected == a.state.selected,
{
    let lines = a.state.rendered;
    let at = selected_row(lines, a.state.selected);
    assert(first_row(lines, a.state.selected, at));
    assert(at == i);
    let b = graph_scrolled(a, height);
    let scroll = b.state.scroll as int;
    assert(scroll <= i);
    assert(i < scroll + height);
    let part = visible(b, height);
    assert(part[i - scroll] == lines[i]);
}

/// What is picked up is yellow; else what is in conflict is red and what is shown as it
/// would be is cyan. What is selected has a background of its own, and what is in conflict
/// is bold.
pub proof fn law_lines_are_coloured(
    line: LineView,
    selected: Option<Text>,
    carried: Seq<Text>,
)
    ensures
        ({
            let style = line_style(line, selected, carried);
            let picked = line.commit is Some && carried.contains(line.commit->0);
            &&& style.fg == Some(Color::Yellow) <==> picked
            &&& style.fg == Some(Color::Red) <==> !picked && line.conflict
            &&& style.fg == Some(Color::Cyan) <==> !picked && !line.conflict && line.preview
            &&& style.fg is None <==> !picked && !line.conflict && !line.preview
            &&& style.bg is Some <==> line.commit == selected
            &&& style.bg is Some ==> style.bg == Some(Color::Rgb(64, 64, 64))
            &&& style.bold <==> line.conflict
        }),
{
}

/// A part of a line is shown in the colour of what it is, on the background of the line.
pub open spec fn shown_as(span: SpanView, text: Text, kind: TextKind, base: Style) -> bool {
    &&& span.text == text
    &&& span.style.bg == base.bg
    &&& span.style.fg == Some(
        match kind {
            TextKind::CommitHash => Color::Yellow,
            TextKind::Tag => Color::Yellow,
            TextKind::Head => Color::Cyan,
            TextKind::LocalRef => Color::Green,
            TextKind::RemoteRef => Color::Red,
        },
    )
    &&& span.style.bold == (base.bold || kind == TextKind::Head)
}

/// A line has a part that is shown in the colour of what it is.
pub open spec fn has_part(
    spans: Seq<SpanView>,
    text: Text,
    kind: TextKind,
    base: Style,
) -> bool {
    exists|s: int| 0 <= s < spans.len() && shown_as(#[trigger] spans[s], text, kind, base)
}

proof fn lemma_range_spans(text: Text, styles: Seq<StyledRange>, base: Style, i: int)
    requires
        0 <= i < styles.len(),
    ensures
        has_part(
            range_spans(text, styles, base),
            cut_text(text, styles[i].start as int, styles[i].end as int),
            styles[i].kind,
            base,
        ),
    decreases styles.len(),
{
    let init = styles.drop_last();
    let spans = range_spans(text, styles, base);
    let wanted = cut_text(text, styles[i].start as int, styles[i].end as int);
    if i < init.len() {
        lemma_range_spans(text, init, base, i);
        let before = range_spans(text, init, base);
        let s = choose|s: int|
            0 <= s < before.len() && shown_as(#[trigger] before[s], wanted, styles[i].kind, base);
        assert(spans[s] == before[s]);
    } else {
        assert(shown_as(spans[spans.len() - 1], wanted, styles[i].kind, base));
    }
}

/// Every range of a line is shown in its colour.
pub proof fn law_ranges_are_coloured(text: Text, styles: Seq<StyledRange>, base: Style, i: int)
    requires
        0 <= i < styles.len(),
    ensures
        has_part(
            line_spans(text, styles, base),
            cut_text(text, styles[i].start as int, styles[i].end as int),
            styles[i].kind,
            base,
        ),
{
    lemma_range_spans(text, styles, base, i);
    let wanted = cut_text(text, styles[i].start as int, styles[i].end as int);
    let before = range_spans(text, styles, base);
    let spans = line_spans(text, styles, base);
    let s = choose|s: int|
        0 <= s < before.len() && shown_as(#[trigger] before[s], wanted, styles[i].kind, base);
    assert(spans[s] == before[s]);
}

/// The line of messages shows the search that is being typed or, where none is, what there
/// is to tell, which is named an error where it is one.
pub proof fn law_messages_are_shown(a: AppView)
    ensures
        ({
            let typing = if a.pane == Pane::Repositories {
                a.repository_search.editing
            } else {
                a.state.search.editing
            };
            let query = if a.pane == Pane::Repositories {
                a.repository_search.query
            } else {
                a.state.search.query
            };
            let text = spans_text(message_line(a).spans);
            &&& typing ==> text == "/"@ + query
            &&& !typing && a.state.status is Some && a.state.status_error ==> text == " Error: "@
                + a.state.status->0
            &&& !typing && a.state.status is Some && !a.state.status_error ==> text == " "@
                + a.state.status->0
            &&& !typing && a.state.status is None ==> text.len() == 0
        }),
{
    reveal_with_fuel(spans_text, 3);
    reveal_strlit(" ");
    reveal_strlit("Error: ");
    reveal_strlit(" Error: ");
    reveal_strlit("");
    assert(" "@ + "Error: "@ =~= " Error: "@);
    let spans = message_line(a).spans;
    let text = spans_text(spans);
    if spans.len() == 2 {
        assert(text =~= spans[0].text + spans[1].text);
    } else if spans.len() == 1 {
        assert(spans.drop_last() =~= Seq::empty());
        assert(text =~= spans[0].text);
        if a.state.status is Some {
            let status = a.state.status->0;
            assert(" "@ + "Error: "@ + status =~= " Error: "@ + status);
            assert(" "@ + ""@ + status =~= " "@ + status);
        }
    }
}

/// The repositories that are offered are listed in their order, each by its name, with an
/// arrow at the cursor and a dot at the active one.
pub proof fn law_repositories_are_listed(a: AppView, i: int)
    requires
        0 <= i < filtered(a).len(),
    ensures
        repository_rows(a).len() == filtered(a).len(),
        ({
            let path = filtered(a)[i];
            let at_cursor = i == a.repository_cursor && a.pane == Pane::Repositories;
            let active = a.active == Some(path);
            let row = repository_rows(a)[i];
            &&& at_cursor && active ==> spans_text(row.spans) == "> ● "@ + called(path)
            &&& at_cursor && !active ==> spans_text(row.spans) == ">   "@ + called(path)
            &&& !at_cursor && active ==> spans_text(row.spans) == "  ● "@ + called(path)
            &&& !at_cursor && !active ==> spans_text(row.spans) == "    "@ + called(path)
        }),
{
    reveal_with_fuel(spans_text, 2);
    reveal_strlit(">");
    reveal_strlit(" ");
    reveal_strlit("●");
    reveal_strlit("> ● ");
    reveal_strlit(">   ");
    reveal_strlit("  ● ");
    reveal_strlit("    ");
    let row = repository_rows(a)[i];
    let name = called(filtered(a)[i]);
    assert(row.spans.drop_last() =~= Seq::empty());
    assert(spans_text(row.spans) =~= row.spans[0].text);
    assert(">"@ + " "@ + "●"@ + " "@ + name =~= "> ● "@ + name);
    assert(">"@ + " "@ + " "@ + " "@ + name =~= ">   "@ + name);
    assert(" "@ + " "@ + "●"@ + " "@ + name =~= "  ● "@ + name);
    assert(" "@ + " "@ + " "@ + " "@ + name =~= "    "@ + name);
}

/// A link is drawn where the line shows what it is on, and leads where it is to. One that is
/// outside of the area is not drawn.
pub proof fn law_links_are_drawn_in_place(
    link: RenderedLinkView,
    area: Area,
    row: int,
    style: Style,
)
    requires
        area.x + area.width <= u16::MAX,
        area.y + area.height <= u16::MAX,
        0 <= row <= u16::MAX,
        link.start <= u16::MAX,
    ensures
        placed_link(link, area, row, style) is Some <==> link.start < area.width && row
            < area.height,
        placed_link(link, area, row, style) matches Some(placed) ==> {
            &&& placed.x == area.x + link.start
            &&& placed.y == area.y + row
            &&& placed.url == link.url
            &&& placed.text.is_prefix_of(link.text)
            &&& link.start + link.width <= area.width && link.text.len() <= link.width
                ==> placed.text == link.text
            &&& placed.text.len() <= area.width - link.start
        },
{
}

/// A link that a terminal opens holds what it says and where it leads. There is none where
/// either holds a control character.
pub proof fn law_hyperlinks_are_safe(url: Text, text: Text)
    ensures
        hyperlink(url, text) is Some <==> (forall|i: int|
            0 <= i < url.len() ==> !is_control(#[trigger] url[i])) && (forall|i: int|
            0 <= i < text.len() ==> !is_control(#[trigger] text[i])),
        hyperlink(url, text) is Some ==> hyperlink(url, text) == Some(
            "\x1B]8;;"@ + url + "\x07"@ + text + "\x1B]8;;\x07"@,
        ),
{
}

/// Something is drawn.
pub open spec fn draws(screen: ScreenView, widget: WidgetView) -> bool {
    screen.widgets.contains(widget)
}

/// A frame shows the lines of the graph that can be seen, each with its whole text, and the
/// line of messages and the keys below them. The help is drawn over all that where it is
/// open.
pub proof fn law_frames_show_the_view(a: AppView, areas: ScreenAreas)
    ensures
        ({
            let (b, screen) = frame_drawn(a, areas);
            let n = screen.widgets.len() as int;
            let inner = if areas.graph.width == 0 {
                areas.graph
            } else {
                inside(areas.graph)
            };
            let seen = visible(b, inner.height as int);
            &&& draws(
                screen,
                WidgetView::Lines {
                    area: areas.message,
                    lines: seq![message_line(b)],
                    style: message_style(b),
                },
            )
            &&& a.state.rendered.len() > 0 ==> draws(
                screen,
                WidgetView::Lines {
                    area: inner,
                    lines: styled_lines(b.state, seen),
                    style: plain_style(),
                },
            )
            &&& a.help_open ==> draws(screen, WidgetView::Clear { area: areas.help })
                && screen.widgets[n - 1] == (WidgetView::Lines {
                area: inside(areas.help),
                lines: help_lines_of(help_bindings()),
                style: plain_style(),
            })
            &&& !a.help_open ==> screen.widgets[n - 1] == (WidgetView::Lines {
                area: areas.footer,
                lines: seq![line_of(key_spans(footer_bindings(b, areas.size.width)))],
                style: plain_style(),
            })
            &&& b.state.rendered == a.state.rendered
        }),
{
    let (b, panes, area) = panes_drawn(a, areas);
    let (c, screen) = frame_drawn(a, areas);
    let all = screen.widgets;
    let n = panes.len() as int;
    assert(all[n] == graph_widget(c, area));
    assert(all[n + 1] == bar_widgets(c, areas)[0]);
    assert(all[n + 2] == bar_widgets(c, areas)[1]);
    if a.help_open {
        assert(all[n + 3] == help_widgets(areas.help)[0]);
        assert(all[n + 5] == help_widgets(areas.help)[2]);
    }
}

/// The lines of the graph are drawn with the texts that they have.
pub proof fn law_lines_are_drawn_whole(s: StateView, lines: Seq<LineView>, i: int)
    requires
        0 <= i < lines.len(),
        ranges_fit(lines[i].text, lines[i].styles),
    ensures
        styled_lines(s, lines).len() == lines.len(),
        spans_text(styled_lines(s, lines)[i].spans) == lines[i].text,
{
    law_styles_keep_the_text(
        lines[i].text,
        lines[i].styles,
        line_style(lines[i], s.selected, s.carried_commits),
    );
}

} // verus!
