//! What the interactive view draws, and where.

use crate::order::views;
use crate::paths::{called, short_name};
use crate::text::{first_chars, head_of_text, maybe, same, texts, Text};
use crate::ui::app::{filtered, has_list, App, AppView, Pane};
use crate::ui::render::{LineView, RenderedLine, RenderedLinkView, TextKind};
use crate::ui::state::{lines_fit, StateView};
use crate::ui::style::{
    bindings_of, graph_line_style, help_line, help_line_of, in_color, key_line, key_spans,
    kind_style, line_of, line_spans, line_style, plain_style, selected_color, styled_graph_line,
    text_kind_style, whole_line, Color, Span, SpanView, Style, StyledLine, StyledLineView,
};
use ratatui::layout::{Constraint, Direction, Flex, Layout, Rect};
use ratatui::widgets::Block;
use vstd::prelude::*;

verus! {

/// A part of the terminal.
#[derive(Clone, Copy, Debug, PartialEq, Eq, Structural)]
pub struct Area {
    pub x: u16,
    pub y: u16,
    pub width: u16,
    pub height: u16,
}

/// The lesser of two numbers.
pub open spec fn least_of(a: int, b: int) -> int {
    if a < b {
        a
    } else {
        b
    }
}

/// A number, or the greatest coordinate where it is greater.
pub open spec fn coordinate(n: int) -> int {
    least_of(n, u16::MAX as int)
}

/// A number, or nought where it is negative.
pub open spec fn at_least_none(n: int) -> int {
    if n < 0 {
        0
    } else {
        n
    }
}

impl Area {
    /// Nothing of the terminal.
    pub open spec fn none() -> Area {
        Area { x: 0, y: 0, width: 0, height: 0 }
    }

    /// The column behind the area.
    pub open spec fn right_of(self) -> int {
        coordinate(self.x + self.width)
    }

    /// The row below the area.
    pub open spec fn bottom_of(self) -> int {
        coordinate(self.y + self.height)
    }

    /// Computes `right_of`.
    pub fn right(self) -> (r: u16)
        ensures
            r == self.right_of(),
    {
        plus(self.x, self.width)
    }

    /// Computes `bottom_of`.
    pub fn bottom(self) -> (r: u16)
        ensures
            r == self.bottom_of(),
    {
        plus(self.y, self.height)
    }
}

/// A sum, or the greatest coordinate where it is greater.
fn plus(a: u16, b: u16) -> (r: u16)
    ensures
        r == coordinate(a + b),
{
    if a > u16::MAX - b {
        u16::MAX
    } else {
        a + b
    }
}

/// How much of an area a part of it takes.
#[derive(Clone, Copy, Debug, PartialEq, Eq, Structural)]
pub enum Part {
    Min(u16),
    Length(u16),
}

/// In which direction an area is cut.
#[derive(Clone, Copy, Debug, PartialEq, Eq, Structural)]
pub enum Axis {
    Down,
    Across,
}

/// Where parts that do not fill an area stand in it.
#[derive(Clone, Copy, Debug, PartialEq, Eq, Structural)]
pub enum Placing {
    Start,
    Center,
}

/// How far in a part begins that takes `size` of `extent` and stands in the middle: where
/// what is left cannot be halved, there is one more before the part than behind it.
pub open spec fn gap_before(extent: int, size: int) -> int {
    (extent - size + 1) / 2
}

/// The columns in the middle of an area, `n` of them or all there are.
pub open spec fn middle_columns(area: Area, n: int) -> Area {
    let extent = area.right_of() - area.x;
    let width = least_of(n, extent);
    Area { x: (area.x + gap_before(extent, width)) as u16, width: width as u16, ..area }
}

/// The rows in the middle of an area, `n` of them or all there are.
pub open spec fn middle_rows(area: Area, n: int) -> Area {
    let extent = area.bottom_of() - area.y;
    let height = least_of(n, extent);
    Area { y: (area.y + gap_before(extent, height)) as u16, height: height as u16, ..area }
}

/// How much parts want together.
pub open spec fn wanted(parts: Seq<Part>) -> int
    decreases parts.len(),
{
    if parts.len() == 0 {
        0
    } else {
        wanted(parts.drop_last()) + match parts.last() {
            Part::Min(n) => n as int,
            Part::Length(n) => n as int,
        }
    }
}

/// How many of the parts may grow.
pub open spec fn growing(parts: Seq<Part>) -> int
    decreases parts.len(),
{
    if parts.len() == 0 {
        0
    } else {
        growing(parts.drop_last()) + match parts.last() {
            Part::Min(_) => 1int,
            Part::Length(_) => 0int,
        }
    }
}

/// What a part takes of an extent that the parts fill: the one that may grow takes what the
/// others leave.
pub open spec fn taken_by(parts: Seq<Part>, i: int, extent: int) -> int {
    match parts[i] {
        Part::Min(n) => n + (extent - wanted(parts)),
        Part::Length(n) => n as int,
    }
}

/// What the first `i` parts take together.
pub open spec fn taken_before(parts: Seq<Part>, i: int, extent: int) -> int
    decreases i,
{
    if i <= 0 {
        0
    } else {
        taken_before(parts, i - 1, extent) + taken_by(parts, i - 1, extent)
    }
}

/// Where an area begins in a direction.
pub open spec fn start_along(axis: Axis, area: Area) -> int {
    match axis {
        Axis::Down => area.y as int,
        Axis::Across => area.x as int,
    }
}

/// How far an area reaches in a direction, up to the greatest coordinate.
pub open spec fn extent_along(axis: Axis, area: Area) -> int {
    match axis {
        Axis::Down => area.bottom_of() - area.y,
        Axis::Across => area.right_of() - area.x,
    }
}

/// How long an area is in a direction.
pub open spec fn length_along(axis: Axis, area: Area) -> int {
    match axis {
        Axis::Down => area.height as int,
        Axis::Across => area.width as int,
    }
}

/// Whether areas are the parts that an area is cut into. Each lies within the area and is
/// as wide as it, or as high. Parts that stand one behind another from the start fill the
/// area, where one of them may grow and there is room for what they all want. A single
/// part of a length that stands in the center takes its length, or all there is.
pub open spec fn is_split(
    area: Area,
    axis: Axis,
    placing: Placing,
    parts: Seq<Part>,
    areas: Seq<Area>,
) -> bool {
    let start = start_along(axis, area);
    let extent = extent_along(axis, area);
    &&& areas.len() == parts.len()
    &&& forall|i: int|
        0 <= i < areas.len() ==> {
            &&& start <= start_along(axis, #[trigger] areas[i])
            &&& start_along(axis, areas[i]) + length_along(axis, areas[i]) <= start + extent
            &&& match axis {
                Axis::Down => areas[i].x == area.x && areas[i].width == area.width,
                Axis::Across => areas[i].y == area.y && areas[i].height == area.height,
            }
        }
    &&& placing == Placing::Start && growing(parts) == 1 && wanted(parts) <= extent ==> forall|
        i: int,
    |
        0 <= i < areas.len() ==> {
            &&& start_along(axis, #[trigger] areas[i]) == start + taken_before(parts, i, extent)
            &&& length_along(axis, areas[i]) == taken_by(parts, i, extent)
        }
    &&& placing == Placing::Center && parts.len() == 1 ==> match parts[0] {
        Part::Length(n) => areas[0] == match axis {
            Axis::Across => middle_columns(area, n as int),
            Axis::Down => middle_rows(area, n as int),
        },
        Part::Min(_) => true,
    }
}

/// `Layout::split` of ratatui: an area cut into parts, beside or below each other. Where
/// one part may grow and the lengths of the others leave it what it wants, the solver has
/// but one best solution: each length is met and the part that may grow takes the rest. So
/// it has for a single length in the center, whose edges are rounded up. Where there is no
/// room for all that is wanted, how far each part reaches is a matter of the solver's
/// weights, and no more is stated than that it lies within the area.
#[verifier::external_body]
fn split_area(area: Area, axis: Axis, placing: Placing, parts: &Vec<Part>) -> (r: Vec<Area>)
    ensures
        is_split(area, axis, placing, parts@, r@),
{
    let direction = match axis { Axis::Down => Direction::Vertical, Axis::Across => Direction::Horizontal };
    let flex = match placing { Placing::Start => Flex::Start, Placing::Center => Flex::Center };
    let constraints = parts.iter().map(|part| match part {
        Part::Min(n) => Constraint::Min(*n),
        Part::Length(n) => Constraint::Length(*n),
    });
    let rect = Rect { x: area.x, y: area.y, width: area.width, height: area.height };
    let found = Layout::new(direction, constraints).flex(flex).split(rect);
    found.iter().map(|r| Area { x: r.x, y: r.y, width: r.width, height: r.height }).collect()
}

/// What a border leaves of an area.
pub open spec fn inside(area: Area) -> Area {
    Area {
        x: least_of(coordinate(area.x + 1), area.right_of()) as u16,
        y: least_of(coordinate(area.y + 1), area.bottom_of()) as u16,
        width: at_least_none(area.width - 2) as u16,
        height: at_least_none(area.height - 2) as u16,
    }
}

/// `Block::inner` of ratatui, for a block with borders all round: a column and a row
/// further in, and two less of each.
#[verifier::external_body]
fn inner_area(area: Area) -> (r: Area)
    ensures
        r == inside(area),
{
    let rect = Rect { x: area.x, y: area.y, width: area.width, height: area.height };
    let r = Block::bordered().inner(rect);
    Area { x: r.x, y: r.y, width: r.width, height: r.height }
}

/// What is drawn in a part of the terminal.
pub enum Widget {
    /// A border with a title.
    Border { area: Area, title: String, color: Option<Color>, background: Option<Color> },
    /// Lines of text.
    Lines { area: Area, lines: Vec<StyledLine>, style: Style },
    /// Nothing, in place of what was there.
    Clear { area: Area },
}

/// What a `Widget` holds.
#[verifier::ext_equal]
pub enum WidgetView {
    Border { area: Area, title: Text, color: Option<Color>, background: Option<Color> },
    Lines { area: Area, lines: Seq<StyledLineView>, style: Style },
    Clear { area: Area },
}

impl View for Widget {
    type V = WidgetView;

    open spec fn view(&self) -> WidgetView {
        match *self {
            Widget::Border { area, title, color, background } => WidgetView::Border {
                area,
                title: title@,
                color,
                background,
            },
            Widget::Lines { area, lines, style } => WidgetView::Lines {
                area,
                lines: views(lines@),
                style,
            },
            Widget::Clear { area } => WidgetView::Clear { area },
        }
    }
}

/// A link that is drawn over what is there.
pub struct TerminalLink {
    pub x: u16,
    pub y: u16,
    pub text: String,
    pub url: String,
    pub style: Style,
}

/// What a `TerminalLink` holds.
#[verifier::ext_equal]
pub struct TerminalLinkView {
    pub x: u16,
    pub y: u16,
    pub text: Text,
    pub url: Text,
    pub style: Style,
}

impl View for TerminalLink {
    type V = TerminalLinkView;

    open spec fn view(&self) -> TerminalLinkView {
        TerminalLinkView {
            x: self.x,
            y: self.y,
            text: self.text@,
            url: self.url@,
            style: self.style,
        }
    }
}

/// All that is drawn, in order, and the links over it.
pub struct Screen {
    pub widgets: Vec<Widget>,
    pub links: Vec<TerminalLink>,
}

/// What a `Screen` holds.
#[verifier::ext_equal]
pub struct ScreenView {
    pub widgets: Seq<WidgetView>,
    pub links: Seq<TerminalLinkView>,
}

impl View for Screen {
    type V = ScreenView;

    open spec fn view(&self) -> ScreenView {
        ScreenView { widgets: views(self.widgets@), links: views(self.links@) }
    }
}

/// The parts of the terminal.
#[derive(Clone, Copy, Debug, PartialEq, Eq, Structural)]
pub struct ScreenAreas {
    pub size: Area,
    pub content: Area,
    pub message: Area,
    pub footer: Area,
    /// The list of repositories.
    pub list: Area,
    /// The graph, with its border.
    pub graph: Area,
    pub help: Area,
}

/// How wide the terminal must be for the list and the graph side by side.
pub const WIDE: u16 = 80;

/// Whether the list and the graph stand side by side.
pub open spec fn side_by_side(a: AppView, content: Area) -> bool {
    has_list(a) && content.width >= WIDE
}

/// The rows of the terminal: the content, which may grow, the message and the footer.
pub open spec fn row_parts() -> Seq<Part> {
    seq![Part::Min(1), Part::Length(1), Part::Length(1)]
}

/// The columns of the content, where the list and the graph stand side by side.
pub open spec fn column_parts() -> Seq<Part> {
    seq![Part::Length(LIST_WIDTH), Part::Min(1)]
}

/// How wide the list is beside the graph.
pub const LIST_WIDTH: u16 = 26;

/// The areas of a view, from the rows of the terminal and the columns of its content: on
/// a narrow terminal only the pane that takes the keys is shown.
pub open spec fn arranged(
    a: AppView,
    size: Area,
    rows: Seq<Area>,
    columns: Seq<Area>,
) -> ScreenAreas {
    ScreenAreas {
        size,
        content: rows[0],
        message: rows[1],
        footer: rows[2],
        list: if side_by_side(a, rows[0]) {
            columns[0]
        } else if has_list(a) && a.pane == Pane::Repositories {
            rows[0]
        } else {
            Area::none()
        },
        graph: if side_by_side(a, rows[0]) {
            columns[1]
        } else if has_list(a) && a.pane == Pane::Repositories {
            Area::none()
        } else {
            rows[0]
        },
        help: middle_of(size, HELP_WIDTH as int, HELP_HEIGHT as int),
    }
}

/// Whether areas are those of a view that is arranged in certain rows and columns.
pub open spec fn areas_in(
    a: AppView,
    size: Area,
    rows: Seq<Area>,
    columns: Seq<Area>,
    areas: ScreenAreas,
) -> bool {
    &&& is_split(size, Axis::Down, Placing::Start, row_parts(), rows)
    &&& side_by_side(a, rows[0]) ==> is_split(
        rows[0],
        Axis::Across,
        Placing::Start,
        column_parts(),
        columns,
    )
    &&& areas == arranged(a, size, rows, columns)
}

/// Whether the areas are those of a view: the terminal is cut into rows and the content
/// into columns, and each area is the one that is its own. Where there is room, the
/// message and the footer take a row each at the bottom, the content takes the rest, and
/// the graph takes what the list leaves of it.
pub open spec fn areas_well(a: AppView, size: Area, areas: ScreenAreas) -> bool {
    let rows = size.bottom_of() - size.y;
    let columns = size.right_of() - size.x;
    &&& exists|rows: Seq<Area>, columns: Seq<Area>| #[trigger]
        areas_in(a, size, rows, columns, areas)
    &&& rows >= 3 ==> {
        &&& areas.content == (Area { height: (rows - 2) as u16, ..size })
        &&& areas.message == (Area { y: (size.y + rows - 2) as u16, height: 1, ..size })
        &&& areas.footer == (Area { y: (size.y + rows - 1) as u16, height: 1, ..size })
    }
    &&& side_by_side(a, areas.content) && columns > LIST_WIDTH ==> {
        &&& areas.list == (Area { width: LIST_WIDTH, ..areas.content })
        &&& areas.graph == (Area {
            x: (size.x + LIST_WIDTH) as u16,
            width: (columns - LIST_WIDTH) as u16,
            ..areas.content
        })
    }
}

/// How wide the help is, where there is room.
pub const HELP_WIDTH: u16 = 68;

/// How high the help is, where there is room.
pub const HELP_HEIGHT: u16 = 16;

/// An area in the middle of another, as wide and as high as it is wanted or as the other is.
pub open spec fn middle_of(area: Area, width: int, height: int) -> Area {
    middle_rows(middle_columns(area, width), height)
}

/// Computes `middle_of`.
fn centered(area: Area, width: u16, height: u16) -> (r: Area)
    ensures
        r == middle_of(area, width as int, height as int),
{
    let mut parts: Vec<Part> = Vec::new();
    parts.push(
        Part::Length(
            if width < area.width {
                width
            } else {
                area.width
            },
        ),
    );
    let column = split_area(area, Axis::Across, Placing::Center, &parts);
    let mut parts: Vec<Part> = Vec::new();
    parts.push(
        Part::Length(
            if height < column[0].height {
                height
            } else {
                column[0].height
            },
        ),
    );
    split_area(column[0], Axis::Down, Placing::Center, &parts)[0]
}

/// A scroll position from which a place can be seen.
pub open spec fn scrolled(scroll: usize, place: int, height: int) -> int {
    if place < scroll {
        place
    } else if place >= least_of(scroll + height, usize::MAX as int) {
        at_least_none(place - at_least_none(height - 1))
    } else {
        scroll as int
    }
}

/// Computes `scrolled`.
fn scroll_to(scroll: usize, place: usize, height: usize) -> (r: usize)
    ensures
        r == scrolled(scroll, place as int, height as int),
{
    let end = if scroll > usize::MAX - height {
        usize::MAX
    } else {
        scroll + height
    };
    if place < scroll {
        place
    } else if place >= end {
        let last = if height == 0 {
            0
        } else {
            height - 1
        };
        if place < last {
            0
        } else {
            place - last
        }
    } else {
        scroll
    }
}

/// The part of a list that is seen.
pub open spec fn seen_part<T>(v: Seq<T>, scroll: int, height: int) -> Seq<T> {
    if scroll >= v.len() {
        Seq::empty()
    } else {
        v.subrange(scroll, least_of(scroll + height, v.len() as int))
    }
}

/// The colour of a pane's border, which shows whether it takes the keys.
pub open spec fn border_color(focused: bool) -> Color {
    if focused {
        Color::Cyan
    } else {
        Color::DarkGray
    }
}

/// The title of the list of repositories.
pub open spec fn list_title(query: Text) -> Text {
    if query.len() == 0 {
        " Repositories "@
    } else {
        " Repositories /"@ + query + " "@
    }
}

/// A repository in the list.
pub open spec fn repository_row(root: Text, active: bool, selected: bool) -> StyledLineView {
    whole_line(
        (if selected {
            ">"@
        } else {
            " "@
        }) + " "@ + (if active {
            "●"@
        } else {
            " "@
        }) + " "@ + called(root),
        Style {
            fg: Some(
                if active {
                    Color::Cyan
                } else {
                    Color::White
                },
            ),
            bg: Some(
                if selected {
                    selected_color()
                } else {
                    Color::Reset
                },
            ),
            bold: false,
        },
    )
}

/// The repositories in the list.
pub open spec fn repository_rows(a: AppView) -> Seq<StyledLineView> {
    Seq::new(
        filtered(a).len(),
        |i: int|
            repository_row(
                filtered(a)[i],
                a.active == Some(filtered(a)[i]),
                i == a.repository_cursor && a.pane == Pane::Repositories,
            ),
    )
}

/// What stands in the list where no repository does.
pub open spec fn empty_list_text(a: AppView) -> Text {
    if a.workspace.repositories.len() == 0 {
        "No repositories. Press r to rescan."@
    } else {
        "No matching repositories"@
    }
}

/// The list of repositories, as it is drawn.
pub open spec fn list_widgets(a: AppView, area: Area) -> Seq<WidgetView> {
    let inner = inside(area);
    let rows = seen_part(repository_rows(a), a.repository_scroll as int, inner.height as int);
    seq![
        WidgetView::Border {
            area,
            title: list_title(a.repository_search.query),
            color: Some(border_color(a.pane == Pane::Repositories)),
            background: None,
        },
        WidgetView::Lines {
            area: inner,
            lines: if rows.len() == 0 {
                seq![whole_line(empty_list_text(a), plain_style())]
            } else {
                rows
            },
            style: plain_style(),
        },
    ]
}

/// With the cursor in the list to be seen.
pub open spec fn list_scrolled(a: AppView, area: Area) -> AppView {
    AppView {
        repository_scroll: scrolled(
            a.repository_scroll,
            a.repository_cursor as int,
            inside(area).height as int,
        ) as usize,
        ..a
    }
}

/// The title of the graph.
pub open spec fn graph_title(active: Option<Text>) -> Text {
    match active {
        Some(path) => " "@ + path + " "@,
        None => " Graph "@,
    }
}

/// The panes, as they are drawn, and what is left for the graph itself.
pub open spec fn panes_drawn(a: AppView, areas: ScreenAreas) -> (AppView, Seq<WidgetView>, Area) {
    let b = if areas.list.width > 0 {
        list_scrolled(a, areas.list)
    } else {
        a
    };
    let list: Seq<WidgetView> = if areas.list.width > 0 {
        list_widgets(b, areas.list)
    } else {
        Seq::empty()
    };
    if areas.graph.width == 0 {
        (b, list, areas.graph)
    } else {
        (
            b,
            list.push(
                WidgetView::Border {
                    area: areas.graph,
                    title: graph_title(a.active),
                    color: Some(border_color(a.pane == Pane::Graph)),
                    background: None,
                },
            ),
            inside(areas.graph),
        )
    }
}

/// The row is the first of the selected commit.
pub open spec fn first_row(lines: Seq<LineView>, selected: Option<Text>, i: int) -> bool {
    &&& 0 <= i < lines.len()
    &&& lines[i].commit == selected
    &&& forall|j: int| 0 <= j < i ==> (#[trigger] lines[j]).commit != selected
}

/// The row of the selected commit, or the first where it has none.
pub open spec fn selected_row(lines: Seq<LineView>, selected: Option<Text>) -> int {
    if exists|i: int| #[trigger] first_row(lines, selected, i) {
        choose|i: int| #[trigger] first_row(lines, selected, i)
    } else {
        0
    }
}

/// With the selected commit to be seen. While the graph is not shown, it stays where it is.
pub open spec fn graph_scrolled(a: AppView, height: int) -> AppView {
    if height == 0 {
        a
    } else {
        AppView {
            state: StateView {
                scroll: scrolled(
                    a.state.scroll,
                    selected_row(a.state.rendered, a.state.selected),
                    height,
                ) as usize,
                ..a.state
            },
            ..a
        }
    }
}

/// What stands in the place of a graph.
pub open spec fn placeholder(a: AppView) -> Text {
    if a.active is None {
        "Select a repository and press Enter"@
    } else if a.state.busy is Some {
        "Loading graph…"@
    } else if a.state.status_error {
        "Graph unavailable — press r to retry"@
    } else {
        "No commits"@
    }
}

/// The style of a line of the graph.
pub open spec fn state_line_style(s: StateView, line: LineView) -> Style {
    line_style(line, s.selected, s.carried_commits)
}

/// The lines of the graph that are seen.
pub open spec fn visible(a: AppView, height: int) -> Seq<LineView> {
    seen_part(a.state.rendered, a.state.scroll as int, height)
}

/// The lines of the graph, in their styles.
pub open spec fn styled_lines(s: StateView, lines: Seq<LineView>) -> Seq<StyledLineView> {
    Seq::new(
        lines.len(),
        |i: int|
            line_of(line_spans(lines[i].text, lines[i].styles, state_line_style(s, lines[i]))),
    )
}

/// The graph, as it is drawn.
pub open spec fn graph_widget(a: AppView, area: Area) -> WidgetView {
    if a.state.rendered.len() == 0 {
        WidgetView::Lines {
            area,
            lines: seq![whole_line(placeholder(a), plain_style())],
            style: in_color(Color::DarkGray),
        }
    } else {
        WidgetView::Lines {
            area,
            lines: styled_lines(a.state, visible(a, area.height as int)),
            style: plain_style(),
        }
    }
}

/// A link of a line as the terminal shows it, where it is within the area, and as much of
/// it as is.
pub open spec fn placed_link(
    link: RenderedLinkView,
    area: Area,
    row: int,
    style: Style,
) -> Option<TerminalLinkView> {
    let x = coordinate(area.x + (link.start as u16));
    let y = coordinate(area.y + (row as u16));
    if x >= area.right_of() || y >= area.bottom_of() {
        None
    } else {
        Some(
            TerminalLinkView {
                x: x as u16,
                y: y as u16,
                text: first_chars(
                    link.text,
                    least_of(link.width as int, area.right_of() - x) as nat,
                ),
                url: link.url,
                style: kind_style(style, TextKind::RemoteRef),
            },
        )
    }
}

/// The links of a line as the terminal shows them.
pub open spec fn line_links(
    links: Seq<RenderedLinkView>,
    area: Area,
    row: int,
    style: Style,
) -> Seq<TerminalLinkView>
    decreases links.len(),
{
    if links.len() == 0 {
        Seq::empty()
    } else {
        let before = line_links(links.drop_last(), area, row, style);
        match placed_link(links.last(), area, row, style) {
            Some(link) => before.push(link),
            None => before,
        }
    }
}

/// The links of the lines that are seen.
pub open spec fn all_links(s: StateView, lines: Seq<LineView>, area: Area) -> Seq<TerminalLinkView>
    decreases lines.len(),
{
    if lines.len() == 0 {
        Seq::empty()
    } else {
        all_links(s, lines.drop_last(), area) + line_links(
            lines.last().links,
            area,
            lines.len() - 1,
            state_line_style(s, lines.last()),
        )
    }
}

/// Whether the search of the pane that takes the keys is being typed, and what for.
pub open spec fn focused_search(a: AppView) -> (bool, Text) {
    if a.pane == Pane::Repositories {
        (a.repository_search.editing, a.repository_search.query)
    } else {
        (a.state.search.editing, a.state.search.query)
    }
}

/// The line of messages: what is being typed, or what there is to tell.
pub open spec fn message_line(a: AppView) -> StyledLineView {
    let (editing, query) = focused_search(a);
    if editing {
        line_of(
            seq![
                SpanView { text: "/"@, style: in_color(Color::Cyan) },
                SpanView { text: query, style: plain_style() },
            ],
        )
    } else {
        match a.state.status {
            Some(status) => whole_line(
                " "@ + (if a.state.status_error {
                    "Error: "@
                } else {
                    ""@
                }) + status,
                plain_style(),
            ),
            None => line_of(Seq::empty()),
        }
    }
}

/// The style of the line of messages.
pub open spec fn message_style(a: AppView) -> Style {
    if a.state.status_error && !focused_search(a).0 {
        Style { fg: Some(Color::White), bg: Some(Color::Red), bold: true }
    } else {
        Style { fg: Some(Color::Cyan), bg: Some(Color::Rgb(40, 40, 40)), bold: false }
    }
}

/// The keys that are always shown in the graph.
pub open spec fn compact_bindings() -> Seq<(Text, Text)> {
    seq![
        ("Tab/⇧Tab"@, "pane"@),
        ("↑/↓"@, "select"@),
        ("Enter"@, "open/confirm"@),
        ("?"@, "help"@),
        ("q"@, "quit"@),
    ]
}

/// The keys that are always shown.
pub open spec fn footer_bindings(a: AppView, width: u16) -> Seq<(Text, Text)> {
    if width < WIDE {
        seq![
            ("Tab"@, "pane"@),
            ("/"@, "search"@),
            ("Enter"@, "open"@),
            ("?"@, "help"@),
            ("q"@, "quit"@),
        ]
    } else if a.pane == Pane::Repositories {
        seq![
            ("Tab/⇧Tab"@, "pane"@),
            ("↑/↓"@, "select"@),
            ("Enter"@, "activate"@),
            ("/"@, "filter"@),
            ("?"@, "help"@),
            ("q"@, "quit"@),
        ]
    } else {
        compact_bindings()
    }
}

/// All the keys.
pub open spec fn help_bindings() -> Seq<(Text, Text)> {
    seq![
        ("Tab/⇧Tab"@, "focus next/previous pane"@),
        ("↑/↓, j/k"@, "navigate focused pane"@),
        ("Enter: repos"@, "activate highlighted repository"@),
        ("Enter"@, "checkout or confirm preview"@),
        ("m/M"@, "move commit / substack"@),
        ("Esc"@, "exit search/filter, cancel preview/close help"@),
        ("p"@, "preview publish and stack link"@),
        ("u"@, "preview upstream publish and stack link"@),
        ("/"@, "search focused pane"@),
        ("n/N"@, "next/previous match"@),
        ("r"@, "rescan; in graph also refresh graph/PRs"@),
        ("?"@, "open or close help"@),
        ("q"@, "quit"@),
    ]
}

/// The lines of the help.
pub open spec fn help_lines_of(bindings: Seq<(Text, Text)>) -> Seq<StyledLineView> {
    Seq::new(bindings.len(), |i: int| help_line_of(bindings[i].0, bindings[i].1))
}

/// The help, as it is drawn over everything else.
pub open spec fn help_widgets(area: Area) -> Seq<WidgetView> {
    seq![
        WidgetView::Clear { area },
        WidgetView::Border {
            area,
            title: " Help "@,
            color: None,
            background: Some(Color::Rgb(24, 24, 24)),
        },
        WidgetView::Lines {
            area: inside(area),
            lines: help_lines_of(help_bindings()),
            style: plain_style(),
        },
    ]
}

/// The line of messages and the keys that are always shown, as they are drawn.
pub open spec fn bar_widgets(a: AppView, areas: ScreenAreas) -> Seq<WidgetView> {
    seq![
        WidgetView::Lines {
            area: areas.message,
            lines: seq![message_line(a)],
            style: message_style(a),
        },
        WidgetView::Lines {
            area: areas.footer,
            lines: seq![line_of(key_spans(footer_bindings(a, areas.size.width)))],
            style: plain_style(),
        },
    ]
}

/// All that is drawn, and what of the view changes by it: only how far its lists are
/// scrolled.
pub open spec fn frame_drawn(a: AppView, areas: ScreenAreas) -> (AppView, ScreenView) {
    let (b, panes, area) = panes_drawn(a, areas);
    let c = graph_scrolled(b, area.height as int);
    let lines = visible(c, area.height as int);
    (
        c,
        ScreenView {
            widgets: panes.push(graph_widget(c, area)) + bar_widgets(c, areas) + (if c.help_open {
                help_widgets(areas.help)
            } else {
                Seq::empty()
            }),
            links: if c.help_open {
                Seq::empty()
            } else {
                all_links(c.state, lines, area)
            },
        },
    )
}

/// The row of the selected commit.
fn find_row(lines: &Vec<RenderedLine>, selected: &Option<String>) -> (r: usize)
    ensures
        r == selected_row(views(lines@), maybe(*selected)),
{
    let ghost all = views(lines@);
    let ghost wanted = maybe(*selected);
    let mut i: usize = 0;
    while i < lines.len()
        invariant
            i <= lines.len(),
            all == views(lines@),
            wanted == maybe(*selected),
            forall|j: int| 0 <= j < i ==> (#[trigger] all[j]).commit != wanted,
        decreases lines.len() - i,
    {
        assert(all[i as int].commit == maybe(lines@[i as int].commit));
        if crate::text::same_option(&lines[i].commit, selected) {
            proof {
                assert(first_row(all, wanted, i as int));
                let k = selected_row(all, wanted);
                assert(first_row(all, wanted, k));
                if k < i {
                    assert(all[k].commit != wanted);
                }
                if i < k {
                    assert(all[i as int].commit != wanted);
                }
            }
            return i;
        }
        i = i + 1;
    }
    assert forall|k: int| !#[trigger] first_row(all, wanted, k) by {
        if 0 <= k < all.len() {
            assert(all[k].commit != wanted);
        }
    }
    0
}

/// Where a part of a list that is seen ends.
fn seen_end(scroll: usize, height: usize, count: usize) -> (r: usize)
    requires
        scroll <= count,
    ensures
        r == least_of(scroll + height, count as int),
{
    if count - scroll < height {
        count
    } else {
        scroll + height
    }
}

/// The lines of the help.
pub fn help_lines() -> (r: Vec<StyledLine>)
    ensures
        views(r@) == help_lines_of(help_bindings()),
{
    let mut lines: Vec<StyledLine> = Vec::new();
    lines.push(help_line("Tab/⇧Tab", "focus next/previous pane"));
    lines.push(help_line("↑/↓, j/k", "navigate focused pane"));
    lines.push(help_line("Enter: repos", "activate highlighted repository"));
    lines.push(help_line("Enter", "checkout or confirm preview"));
    lines.push(help_line("m/M", "move commit / substack"));
    lines.push(help_line("Esc", "exit search/filter, cancel preview/close help"));
    lines.push(help_line("p", "preview publish and stack link"));
    lines.push(help_line("u", "preview upstream publish and stack link"));
    lines.push(help_line("/", "search focused pane"));
    lines.push(help_line("n/N", "next/previous match"));
    lines.push(help_line("r", "rescan; in graph also refresh graph/PRs"));
    lines.push(help_line("?", "open or close help"));
    lines.push(help_line("q", "quit"));
    assert(views(lines@) =~= help_lines_of(help_bindings()));
    lines
}

/// The keys that are always shown in the graph.
pub fn compact_footer() -> (r: StyledLine)
    ensures
        r@ == line_of(key_spans(compact_bindings())),
{
    let mut bindings: Vec<(&str, &str)> = Vec::new();
    bindings.push(("Tab/⇧Tab", "pane"));
    bindings.push(("↑/↓", "select"));
    bindings.push(("Enter", "open/confirm"));
    bindings.push(("?", "help"));
    bindings.push(("q", "quit"));
    assert(bindings_of(bindings@) =~= compact_bindings());
    key_line(&bindings)
}

/// Adds what is drawn to what is drawn before it.
fn push_widget(widgets: &mut Vec<Widget>, widget: Widget)
    ensures
        views(final(widgets)@) == views(old(widgets)@).push(widget@),
{
    let ghost was = views(widgets@);
    let ghost view = widget@;
    widgets.push(widget);
    assert(views(widgets@) =~= was.push(view));
}

/// A single line as lines.
fn one_line(line: StyledLine) -> (r: Vec<StyledLine>)
    ensures
        views(r@) == seq![line@],
{
    let ghost view = line@;
    let mut lines: Vec<StyledLine> = Vec::new();
    lines.push(line);
    assert(views(lines@) =~= seq![view]);
    lines
}

/// The links of a line as the terminal shows them, behind others.
fn push_links(
    found: &mut Vec<TerminalLink>,
    line: &RenderedLine,
    area: Area,
    row: usize,
    style: Style,
)
    ensures
        views(final(found)@) == views(old(found)@) + line_links(
            line@.links,
            area,
            row as int,
            style,
        ),
{
    let ghost start = views(found@);
    let ghost all = line@.links;
    let mut i: usize = 0;
    assert(all.take(0) =~= Seq::<RenderedLinkView>::empty());
    assert(start + line_links(all.take(0), area, row as int, style) =~= start);
    while i < line.links.len()
        invariant
            i <= line.links.len(),
            all == views(line.links@),
            views(found@) == start + line_links(all.take(i as int), area, row as int, style),
        decreases line.links.len() - i,
    {
        let ghost was = views(found@);
        let link = &line.links[i];
        assert(all.take(i + 1).drop_last() =~= all.take(i as int));
        assert(all.take(i + 1).last() == link@);
        let column: u16 = #[verifier::truncate] (link.start as u16);
        let offset: u16 = #[verifier::truncate] (row as u16);
        let x = plus(area.x, column);
        let y = plus(area.y, offset);
        let right = area.right();
        if x < right && y < area.bottom() {
            let room = (right - x) as usize;
            let shown = if link.width < room {
                link.width
            } else {
                room
            };
            let placed = TerminalLink {
                x,
                y,
                text: head_of_text(link.text.as_str(), shown),
                url: link.url.clone(),
                style: text_kind_style(style, TextKind::RemoteRef),
            };
            let ghost view = placed@;
            assert(placed_link(link@, area, row as int, style) == Some(view));
            found.push(placed);
            assert(views(found@) =~= was.push(view));
        }
        assert(views(found@) =~= start + line_links(
            all.take(i + 1),
            area,
            row as int,
            style,
        ));
        i = i + 1;
    }
    assert(all.take(all.len() as int) =~= all);
}

impl App {
    /// The areas of the view, from the rows of the terminal and the columns of its content.
    pub fn arrange(&self, size: Area, rows: &Vec<Area>, columns: &Vec<Area>) -> (r: ScreenAreas)
        requires
            rows.len() == 3,
            side_by_side(self@, rows@[0]) ==> columns.len() == 2,
        ensures
            r == arranged(self@, size, rows@, columns@),
    {
        let content = rows[0];
        let sidebar = self.has_sidebar();
        let in_list = match self.pane {
            Pane::Repositories => true,
            Pane::Graph => false,
        };
        let none = Area { x: 0, y: 0, width: 0, height: 0 };
        let (list, graph) = if sidebar && content.width >= WIDE {
            (columns[0], columns[1])
        } else if sidebar && in_list {
            (content, none)
        } else {
            (none, content)
        };
        ScreenAreas {
            size,
            content,
            message: rows[1],
            footer: rows[2],
            list,
            graph,
            help: centered(size, HELP_WIDTH, HELP_HEIGHT),
        }
    }

    /// The parts of the terminal.
    pub fn screen_areas(&self, size: Area) -> (r: ScreenAreas)
        ensures
            areas_well(self@, size, r),
    {
        let mut parts: Vec<Part> = Vec::new();
        parts.push(Part::Min(1));
        parts.push(Part::Length(1));
        parts.push(Part::Length(1));
        assert(parts@ =~= row_parts());
        let rows = split_area(size, Axis::Down, Placing::Start, &parts);
        let mut columns: Vec<Area> = Vec::new();
        if self.has_sidebar() && rows[0].width >= WIDE {
            let mut parts: Vec<Part> = Vec::new();
            parts.push(Part::Length(LIST_WIDTH));
            parts.push(Part::Min(1));
            assert(parts@ =~= column_parts());
            columns = split_area(rows[0], Axis::Across, Placing::Start, &parts);
        }
        let areas = self.arrange(size, &rows, &columns);
        proof {
            assert(areas_in(self@, size, rows@, columns@, areas));
            reveal_with_fuel(wanted, 4);
            reveal_with_fuel(growing, 4);
            reveal_with_fuel(taken_before, 4);
            let parts = row_parts();
            assert(parts.drop_last() =~= seq![Part::Min(1), Part::Length(1)]);
            assert(parts.drop_last().drop_last() =~= seq![Part::Min(1)]);
            assert(parts.drop_last().drop_last().drop_last() =~= Seq::<Part>::empty());
            let parts = column_parts();
            assert(parts.drop_last() =~= seq![Part::Length(LIST_WIDTH)]);
            assert(parts.drop_last().drop_last() =~= Seq::<Part>::empty());
        }
        areas
    }

    /// The repositories in the list.
    fn repository_lines(&self, height: usize) -> (r: Vec<StyledLine>)
        ensures
            views(r@) == seen_part(
                repository_rows(self@),
                self.repository_scroll as int,
                height as int,
            ),
    {
        let repositories = self.filtered_repositories();
        let ghost all = filtered(self@);
        assert(all.len() == repositories.len());
        let ghost rows = repository_rows(self@);
        let mut lines: Vec<StyledLine> = Vec::new();
        if self.repository_scroll >= repositories.len() {
            assert(views(lines@) =~= Seq::<StyledLineView>::empty());
            return lines;
        }
        let in_list = match self.pane {
            Pane::Repositories => true,
            Pane::Graph => false,
        };
        let start = self.repository_scroll;
        let end = seen_end(start, height, repositories.len());
        let mut i: usize = start;
        while i < end
            invariant
                start <= i <= end <= repositories.len(),
                start == self.repository_scroll,
                all == filtered(self@),
                all == texts(repositories@),
                rows == repository_rows(self@),
                in_list == (self@.pane == Pane::Repositories),
                lines.len() == i - start,
                forall|j: int| 0 <= j < lines.len() ==> (#[trigger] lines@[j])@ == rows[start + j],
            decreases end - i,
        {
            let root = repositories[i].as_str();
            assert(all[i as int] == root@);
            let active = match &self.active {
                Some(path) => same(path.as_str(), root),
                None => false,
            };
            let selected = i == self.repository_cursor && in_list;
            let mark = if selected {
                ">"
            } else {
                " "
            };
            let dot = if active {
                "●"
            } else {
                " "
            };
            let text = mark.to_owned().concat(" ").concat(dot).concat(" ").concat(
                short_name(root).as_str(),
            );
            let style = Style {
                fg: Some(
                    if active {
                        Color::Cyan
                    } else {
                        Color::White
                    },
                ),
                bg: Some(
                    if selected {
                        Color::Rgb(64, 64, 64)
                    } else {
                        Color::Reset
                    },
                ),
                bold: false,
            };
            let line = StyledLine::whole(text, style);
            assert(line@ == rows[i as int]);
            lines.push(line);
            i = i + 1;
        }
        assert(views(lines@) =~= seen_part(rows, start as int, height as int));
        lines
    }

    /// Draws the list of repositories.
    fn draw_list(&mut self, widgets: &mut Vec<Widget>, area: Area)
        ensures
            final(self)@ == list_scrolled(old(self)@, area),
            views(final(widgets)@) == views(old(widgets)@) + list_widgets(final(self)@, area),
            final(self).state == old(self).state,
    {
        let ghost start = views(widgets@);
        let inner = inner_area(area);
        self.repository_scroll =
        scroll_to(self.repository_scroll, self.repository_cursor, inner.height as usize);
        let in_list = match self.pane {
            Pane::Repositories => true,
            Pane::Graph => false,
        };
        let title = if self.repository_search.query.as_str().is_empty() {
            " Repositories ".to_owned()
        } else {
            " Repositories /".to_owned().concat(self.repository_search.query.as_str()).concat(" ")
        };
        let color = Some(
            if in_list {
                Color::Cyan
            } else {
                Color::DarkGray
            },
        );
        push_widget(widgets, Widget::Border { area, title, color, background: None });
        let rows = self.repository_lines(inner.height as usize);
        assert(views(rows@).len() == rows.len());
        let lines = if rows.len() == 0 {
            assert(self@.workspace.repositories.len() == self.workspace.repositories.len());
            let text = if self.workspace.repositories.len() == 0 {
                "No repositories. Press r to rescan."
            } else {
                "No matching repositories"
            };
            one_line(StyledLine::whole(text.to_owned(), Style::plain()))
        } else {
            rows
        };
        push_widget(widgets, Widget::Lines { area: inner, lines, style: Style::plain() });
        assert(views(widgets@) =~= start + list_widgets(self@, area));
    }

    /// Draws the panes, and tells what is left for the graph itself.
    fn render_panes(&mut self, widgets: &mut Vec<Widget>, areas: &ScreenAreas) -> (r: Area)
        ensures
            ({
                let (next, drawn, area) = panes_drawn(old(self)@, *areas);
                &&& final(self)@ == next
                &&& views(final(widgets)@) == views(old(widgets)@) + drawn
                &&& r == area
            }),
            final(self).state == old(self).state,
    {
        let ghost start = views(widgets@);
        if areas.list.width > 0 {
            self.draw_list(widgets, areas.list);
        }
        let ghost list = views(widgets@);
        assert(areas.list.width == 0 ==> start + Seq::<WidgetView>::empty() =~= start);
        if areas.graph.width == 0 {
            return areas.graph;
        }
        let title = match &self.active {
            Some(path) => " ".to_owned().concat(path.as_str()).concat(" "),
            None => " Graph ".to_owned(),
        };
        let color = Some(
            match self.pane {
                Pane::Graph => Color::Cyan,
                Pane::Repositories => Color::DarkGray,
            },
        );
        push_widget(
            widgets,
            Widget::Border { area: areas.graph, title, color, background: None },
        );
        proof {
            let drawn = panes_drawn(old(self)@, *areas).1;
            assert(views(widgets@) =~= start + drawn);
        }
        inner_area(areas.graph)
    }

    /// The lines of the graph that are seen, in their styles, and their links.
    fn graph_lines(&self, area: Area) -> (r: (Vec<StyledLine>, Vec<TerminalLink>))
        requires
            lines_fit(self@.state.rendered),
        ensures
            views(r.0@) == styled_lines(self@.state, visible(self@, area.height as int)),
            views(r.1@) == all_links(self@.state, visible(self@, area.height as int), area),
    {
        let ghost s = self@.state;
        let ghost all = s.rendered;
        let ghost part = visible(self@, area.height as int);
        let mut lines: Vec<StyledLine> = Vec::new();
        let mut links: Vec<TerminalLink> = Vec::new();
        assert(all.len() == self.state.rendered.len());
        assert(views(links@) =~= Seq::<TerminalLinkView>::empty());
        if self.state.scroll >= self.state.rendered.len() {
            assert(views(lines@) =~= styled_lines(s, part));
            return (lines, links);
        }
        let start = self.state.scroll;
        let end = seen_end(start, area.height as usize, self.state.rendered.len());
        let mut i: usize = start;
        assert(part.take(0) =~= Seq::<LineView>::empty());
        while i < end
            invariant
                start <= i <= end <= self.state.rendered.len(),
                s == self@.state,
                all == views(self.state.rendered@),
                lines_fit(all),
                part == all.subrange(start as int, end as int),
                lines.len() == i - start,
                forall|j: int|
                    0 <= j < lines.len() ==> (#[trigger] lines@[j])@ == styled_lines(s, part)[j],
                views(links@) == all_links(s, part.take(i - start), area),
            decreases end - i,
        {
            let line = &self.state.rendered[i];
            assert(all[i as int] == line@);
            assert(part[i - start] == line@);
            let style = graph_line_style(line, &self.state.selected, &self.state.carried_commits);
            assert(style == state_line_style(s, line@));
            let styled = styled_graph_line(line, style);
            assert(styled@ == styled_lines(s, part)[i - start]);
            lines.push(styled);
            push_links(&mut links, line, area, i - start, style);
            assert(part.take(i - start + 1).drop_last() =~= part.take(i - start));
            assert(part.take(i - start + 1).last() == line@);
            i = i + 1;
        }
        assert(part.take(part.len() as int) =~= part);
        assert(views(lines@) =~= styled_lines(s, part));
        (lines, links)
    }

    /// The line of messages.
    fn message(&self) -> (r: (StyledLine, Style))
        ensures
            r.0@ == message_line(self@),
            r.1 == message_style(self@),
    {
        let in_list = match self.pane {
            Pane::Repositories => true,
            Pane::Graph => false,
        };
        let search = if in_list {
            &self.repository_search
        } else {
            &self.state.search
        };
        let style = if self.state.status_error && !search.editing {
            Style { fg: Some(Color::White), bg: Some(Color::Red), bold: true }
        } else {
            Style { fg: Some(Color::Cyan), bg: Some(Color::Rgb(40, 40, 40)), bold: false }
        };
        let line = if search.editing {
            let mut spans: Vec<Span> = Vec::new();
            spans.push(Span { text: "/".to_owned(), style: Style::color(Color::Cyan) });
            spans.push(Span { text: search.query.clone(), style: Style::plain() });
            assert(views(spans@) =~= message_line(self@).spans);
            StyledLine { spans, style: Style::plain() }
        } else {
            match &self.state.status {
                Some(status) => {
                    let prefix = if self.state.status_error {
                        "Error: "
                    } else {
                        ""
                    };
                    let text = " ".to_owned().concat(prefix).concat(status.as_str());
                    StyledLine::whole(text, Style::plain())
                },
                None => {
                    let line = StyledLine { spans: Vec::new(), style: Style::plain() };
                    assert(views(line.spans@) =~= Seq::<SpanView>::empty());
                    line
                },
            }
        };
        (line, style)
    }

    /// The keys that are always shown.
    fn footer(&self, width: u16) -> (r: StyledLine)
        ensures
            r@ == line_of(key_spans(footer_bindings(self@, width))),
    {
        let in_list = match self.pane {
            Pane::Repositories => true,
            Pane::Graph => false,
        };
        if width < WIDE {
            let mut bindings: Vec<(&str, &str)> = Vec::new();
            bindings.push(("Tab", "pane"));
            bindings.push(("/", "search"));
            bindings.push(("Enter", "open"));
            bindings.push(("?", "help"));
            bindings.push(("q", "quit"));
            assert(bindings_of(bindings@) =~= footer_bindings(self@, width));
            key_line(&bindings)
        } else if in_list {
            let mut bindings: Vec<(&str, &str)> = Vec::new();
            bindings.push(("Tab/⇧Tab", "pane"));
            bindings.push(("↑/↓", "select"));
            bindings.push(("Enter", "activate"));
            bindings.push(("/", "filter"));
            bindings.push(("?", "help"));
            bindings.push(("q", "quit"));
            assert(bindings_of(bindings@) =~= footer_bindings(self@, width));
            key_line(&bindings)
        } else {
            compact_footer()
        }
    }

    /// What stands in the place of a graph.
    fn graph_placeholder(&self) -> (r: &'static str)
        ensures
            r@ == placeholder(self@),
    {
        if self.active.is_none() {
            "Select a repository and press Enter"
        } else if self.state.busy.is_some() {
            "Loading graph…"
        } else if self.state.status_error {
            "Graph unavailable — press r to retry"
        } else {
            "No commits"
        }
    }

    /// Draws the graph, and tells its links.
    fn draw_graph(&self, widgets: &mut Vec<Widget>, area: Area) -> (r: Vec<TerminalLink>)
        requires
            lines_fit(self@.state.rendered),
        ensures
            views(final(widgets)@) == views(old(widgets)@).push(graph_widget(self@, area)),
            views(r@) == all_links(self@.state, visible(self@, area.height as int), area),
    {
        let (lines, links) = self.graph_lines(area);
        assert(self@.state.rendered.len() == self.state.rendered.len());
        if self.state.rendered.len() == 0 {
            let text = self.graph_placeholder();
            push_widget(
                widgets,
                Widget::Lines {
                    area,
                    lines: one_line(StyledLine::whole(text.to_owned(), Style::plain())),
                    style: Style::color(Color::DarkGray),
                },
            );
        } else {
            push_widget(widgets, Widget::Lines { area, lines, style: Style::plain() });
        }
        links
    }

    /// Draws the line of messages and the keys that are always shown.
    fn draw_bars(&self, widgets: &mut Vec<Widget>, areas: &ScreenAreas)
        ensures
            views(final(widgets)@) == views(old(widgets)@) + bar_widgets(self@, *areas),
    {
        let ghost start = views(widgets@);
        let (message, style) = self.message();
        push_widget(
            widgets,
            Widget::Lines { area: areas.message, lines: one_line(message), style },
        );
        let footer = self.footer(areas.size.width);
        push_widget(
            widgets,
            Widget::Lines { area: areas.footer, lines: one_line(footer), style: Style::plain() },
        );
        assert(views(widgets@) =~= start + bar_widgets(self@, *areas));
    }

    /// Draws the view in the parts of a terminal.
    pub fn render_frame(&mut self, areas: &ScreenAreas) -> (r: Screen)
        requires
            lines_fit(old(self)@.state.rendered),
        ensures
            (final(self)@, r@) == frame_drawn(old(self)@, *areas),
    {
        let ghost a = self@;
        let mut widgets: Vec<Widget> = Vec::new();
        assert(views(widgets@) =~= Seq::<WidgetView>::empty());
        let area = self.render_panes(&mut widgets, areas);
        let ghost panes = panes_drawn(a, *areas).1;
        assert(views(widgets@) =~= panes);
        let height = area.height as usize;
        if height != 0 {
            let row = find_row(&self.state.rendered, &self.state.selected);
            self.state.scroll = scroll_to(self.state.scroll, row, height);
        }
        let links = self.draw_graph(&mut widgets, area);
        self.draw_bars(&mut widgets, areas);
        let ghost most = views(widgets@);
        if self.help_open {
            draw_help(&mut widgets, areas.help);
            let none: Vec<TerminalLink> = Vec::new();
            assert(views(none@) =~= Seq::<TerminalLinkView>::empty());
            Screen { widgets, links: none }
        } else {
            assert(most + Seq::<WidgetView>::empty() =~= most);
            Screen { widgets, links }
        }
    }
}

/// Draws the help over everything else.
fn draw_help(widgets: &mut Vec<Widget>, area: Area)
    ensures
        views(final(widgets)@) == views(old(widgets)@) + help_widgets(area),
{
    let ghost start = views(widgets@);
    push_widget(widgets, Widget::Clear { area });
    push_widget(
        widgets,
        Widget::Border {
            area,
            title: " Help ".to_owned(),
            color: None,
            background: Some(Color::Rgb(24, 24, 24)),
        },
    );
    push_widget(
        widgets,
        Widget::Lines { area: inner_area(area), lines: help_lines(), style: Style::plain() },
    );
    assert(views(widgets@) =~= start + help_widgets(area));
}

} // verus!
