//! What is printed: tones, lines of cells, and highlighted documents.

use vstd::prelude::*;
use vstd::string::*;

use crate::text;

verus! {

/// Whether output is coloured.
#[derive(Clone, Copy, Debug, PartialEq, Eq, Structural)]
pub enum ColorChoice {
    Auto,
    Always,
    Never,
}

impl Default for ColorChoice {
    fn default() -> (choice: Self)
        ensures
            choice == ColorChoice::Auto,
    {
        ColorChoice::Auto
    }
}

impl ColorChoice {
    pub open spec fn name(self) -> Seq<char> {
        match self {
            ColorChoice::Auto => "auto"@,
            ColorChoice::Always => "always"@,
            ColorChoice::Never => "never"@,
        }
    }

    pub fn label(self) -> (label: &'static str)
        ensures
            label@ == self.name(),
    {
        match self {
            ColorChoice::Auto => "auto",
            ColorChoice::Always => "always",
            ColorChoice::Never => "never",
        }
    }
}

/// What a piece of output stands for.
#[derive(Clone, Copy, Debug, PartialEq, Eq, Structural)]
pub enum Tone {
    Success,
    Warning,
    Error,
    Info,
    Id,
    Short,
    Long,
    Scope,
    Kind,
    Title,
    Path,
    Number,
    Source,
    Key,
    Value,
    Prompt,
    Muted,
    Added,
    Removed,
    DiffHeader,
}

// Styles.

/// A colour of the basic palette, or none.
#[derive(Clone, Copy, Debug, PartialEq, Eq, Structural)]
pub enum Basic {
    Unset,
    Red,
    Green,
    Yellow,
    Magenta,
    Cyan,
}

/// A colour of the bright palette.
#[derive(Clone, Copy, Debug, PartialEq, Eq, Structural)]
pub enum Bright {
    Black,
    Red,
    Green,
    Yellow,
    Blue,
    Magenta,
    Cyan,
}

#[derive(Clone, Copy, Debug, PartialEq, Eq, Structural)]
pub enum Weight {
    Normal,
    Bold,
    Dimmed,
}

#[derive(Clone, Copy, Debug, PartialEq, Eq, Structural)]
pub enum Hue {
    Basic(Basic),
    Bright(Bright),
}

/// The number that a terminal knows a colour by; nothing for no colour.
pub open spec fn hue_code(hue: Hue) -> Seq<char> {
    match hue {
        Hue::Basic(Basic::Unset) => ""@,
        Hue::Basic(Basic::Red) => "31"@,
        Hue::Basic(Basic::Green) => "32"@,
        Hue::Basic(Basic::Yellow) => "33"@,
        Hue::Basic(Basic::Magenta) => "35"@,
        Hue::Basic(Basic::Cyan) => "36"@,
        Hue::Bright(Bright::Black) => "90"@,
        Hue::Bright(Bright::Red) => "91"@,
        Hue::Bright(Bright::Green) => "92"@,
        Hue::Bright(Bright::Yellow) => "93"@,
        Hue::Bright(Bright::Blue) => "94"@,
        Hue::Bright(Bright::Magenta) => "95"@,
        Hue::Bright(Bright::Cyan) => "96"@,
    }
}

pub open spec fn weight_code(weight: Weight) -> Seq<char> {
    match weight {
        Weight::Normal => ""@,
        Weight::Bold => "1"@,
        Weight::Dimmed => "2"@,
    }
}

/// A text between the sequences that turn a style on and off. A style without
/// colour and weight leaves it alone.
pub open spec fn styled(value: Seq<char>, hue: Hue, weight: Weight) -> Seq<char> {
    let unset = hue == Hue::Basic(Basic::Unset);
    if unset && weight == Weight::Normal {
        value
    } else {
        let separator = if unset || weight == Weight::Normal {
            ""@
        } else {
            ";"@
        };
        "\u{1b}["@ + hue_code(hue) + separator + weight_code(weight) + "m"@ + value + "\u{1b}[0m"@
    }
}

/// `owo_colors::Style` with a basic colour, or none, and a weight, applied to a
/// text. The result is taken to be the text behind `ESC [`, the number of the
/// colour, the number of the weight (1 for bold, 2 for dimmed, after a
/// semicolon where there is a colour) and `m`, and before `ESC [0m`; and to be
/// the text alone where there is neither colour nor weight.
#[verifier::external_body]
fn style_basic(value: &str, color: Basic, weight: Weight) -> (result: String)
    ensures
        result@ == styled(value@, Hue::Basic(color), weight),
{
    let plain = match color {
        Basic::Unset => owo_colors::Style::new(),
        Basic::Red => owo_colors::Style::new().red(),
        Basic::Green => owo_colors::Style::new().green(),
        Basic::Yellow => owo_colors::Style::new().yellow(),
        Basic::Magenta => owo_colors::Style::new().magenta(),
        Basic::Cyan => owo_colors::Style::new().cyan(),
    };
    let style = match weight {
        Weight::Normal => plain,
        Weight::Bold => plain.bold(),
        Weight::Dimmed => plain.dimmed(),
    };
    style.style(value).to_string()
}

/// `owo_colors::Style` with a bright colour and a weight, applied to a text.
/// The result is taken to be as for the basic colours, with the numbers from 90
/// on for the bright ones.
#[verifier::external_body]
fn style_bright(value: &str, color: Bright, weight: Weight) -> (result: String)
    ensures
        result@ == styled(value@, Hue::Bright(color), weight),
{
    let plain = match color {
        Bright::Black => owo_colors::Style::new().bright_black(),
        Bright::Red => owo_colors::Style::new().bright_red(),
        Bright::Green => owo_colors::Style::new().bright_green(),
        Bright::Yellow => owo_colors::Style::new().bright_yellow(),
        Bright::Blue => owo_colors::Style::new().bright_blue(),
        Bright::Magenta => owo_colors::Style::new().bright_magenta(),
        Bright::Cyan => owo_colors::Style::new().bright_cyan(),
    };
    let style = match weight {
        Weight::Normal => plain,
        Weight::Bold => plain.bold(),
        Weight::Dimmed => plain.dimmed(),
    };
    style.style(value).to_string()
}

/// The colour and the weight of a tone.
pub open spec fn tone_style(tone: Tone) -> (Hue, Weight) {
    match tone {
        Tone::Success => (Hue::Bright(Bright::Green), Weight::Bold),
        Tone::Warning => (Hue::Bright(Bright::Yellow), Weight::Bold),
        Tone::Error => (Hue::Bright(Bright::Red), Weight::Bold),
        Tone::Info => (Hue::Bright(Bright::Blue), Weight::Bold),
        Tone::Id => (Hue::Bright(Bright::Cyan), Weight::Bold),
        Tone::Short => (Hue::Bright(Bright::Magenta), Weight::Bold),
        Tone::Long => (Hue::Bright(Bright::Blue), Weight::Bold),
        Tone::Scope => (Hue::Basic(Basic::Yellow), Weight::Normal),
        Tone::Kind => (Hue::Basic(Basic::Green), Weight::Normal),
        Tone::Title => (Hue::Basic(Basic::Unset), Weight::Bold),
        Tone::Path => (Hue::Basic(Basic::Cyan), Weight::Dimmed),
        Tone::Number => (Hue::Bright(Bright::Yellow), Weight::Normal),
        Tone::Source => (Hue::Basic(Basic::Magenta), Weight::Normal),
        Tone::Key => (Hue::Basic(Basic::Cyan), Weight::Normal),
        Tone::Value => (Hue::Basic(Basic::Unset), Weight::Normal),
        Tone::Prompt => (Hue::Bright(Bright::Cyan), Weight::Bold),
        Tone::Muted => (Hue::Bright(Bright::Black), Weight::Normal),
        Tone::Added => (Hue::Basic(Basic::Green), Weight::Normal),
        Tone::Removed => (Hue::Basic(Basic::Red), Weight::Normal),
        Tone::DiffHeader => (Hue::Basic(Basic::Cyan), Weight::Bold),
    }
}

/// A text in a tone, where colours are on.
pub open spec fn painted(value: Seq<char>, tone: Tone, enabled: bool) -> Seq<char> {
    if enabled {
        styled(value, tone_style(tone).0, tone_style(tone).1)
    } else {
        value
    }
}

fn style(tone: Tone) -> (result: (Hue, Weight))
    ensures
        result == tone_style(tone),
{
    match tone {
        Tone::Success => (Hue::Bright(Bright::Green), Weight::Bold),
        Tone::Warning => (Hue::Bright(Bright::Yellow), Weight::Bold),
        Tone::Error => (Hue::Bright(Bright::Red), Weight::Bold),
        Tone::Info => (Hue::Bright(Bright::Blue), Weight::Bold),
        Tone::Id => (Hue::Bright(Bright::Cyan), Weight::Bold),
        Tone::Short => (Hue::Bright(Bright::Magenta), Weight::Bold),
        Tone::Long => (Hue::Bright(Bright::Blue), Weight::Bold),
        Tone::Scope => (Hue::Basic(Basic::Yellow), Weight::Normal),
        Tone::Kind => (Hue::Basic(Basic::Green), Weight::Normal),
        Tone::Title => (Hue::Basic(Basic::Unset), Weight::Bold),
        Tone::Path => (Hue::Basic(Basic::Cyan), Weight::Dimmed),
        Tone::Number => (Hue::Bright(Bright::Yellow), Weight::Normal),
        Tone::Source => (Hue::Basic(Basic::Magenta), Weight::Normal),
        Tone::Key => (Hue::Basic(Basic::Cyan), Weight::Normal),
        Tone::Value => (Hue::Basic(Basic::Unset), Weight::Normal),
        Tone::Prompt => (Hue::Bright(Bright::Cyan), Weight::Bold),
        Tone::Muted => (Hue::Bright(Bright::Black), Weight::Normal),
        Tone::Added => (Hue::Basic(Basic::Green), Weight::Normal),
        Tone::Removed => (Hue::Basic(Basic::Red), Weight::Normal),
        Tone::DiffHeader => (Hue::Basic(Basic::Cyan), Weight::Bold),
    }
}

pub fn paint(value: &str, tone: Tone, enabled: bool) -> (result: String)
    ensures
        result@ == painted(value@, tone, enabled),
{
    if !enabled {
        return value.to_owned();
    }
    let (hue, weight) = style(tone);
    match hue {
        Hue::Basic(color) => style_basic(value, color, weight),
        Hue::Bright(color) => style_bright(value, color, weight),
    }
}

pub fn paint_with(value: String, tone: Tone, enabled: bool) -> (result: String)
    ensures
        result@ == painted(value@, tone, enabled),
{
    paint(value.as_str(), tone, enabled)
}

// Lines.

/// What is printed about an error.
pub fn error(value: &str, enabled: bool) -> (line: String)
    ensures
        line@ == painted("error"@, Tone::Error, enabled) + ": "@ + painted(
            value@,
            Tone::Error,
            enabled,
        ),
{
    text::concat3(
        paint("error", Tone::Error, enabled).as_str(),
        ": ",
        paint(value, Tone::Error, enabled).as_str(),
    )
}

/// What is printed about something odd.
pub fn warning(value: &str, enabled: bool) -> (line: String)
    ensures
        line@ == painted("warn"@, Tone::Warning, enabled) + "\t"@ + value@,
{
    text::concat3(paint("warn", Tone::Warning, enabled).as_str(), "\t", value)
}

/// What a question is asked with.
pub fn prompt(value: &str, enabled: bool) -> (line: String)
    ensures
        line@ == painted(value@, Tone::Prompt, enabled),
{
    paint(value, Tone::Prompt, enabled)
}

pub type Cell = (Seq<char>, Tone);

pub open spec fn cell_views(cells: Seq<(String, Tone)>) -> Seq<Cell> {
    cells.map_values(|cell: (String, Tone)| (cell.0@, cell.1))
}

pub open spec fn painted_cells(cells: Seq<Cell>, enabled: bool) -> Seq<Seq<char>> {
    cells.map_values(|cell: Cell| painted(cell.0, cell.1, enabled))
}

/// The cells, each in its tone, with tabs between them.
pub open spec fn row_of(cells: Seq<Cell>, enabled: bool) -> Seq<char> {
    text::joined(painted_cells(cells, enabled), "\t"@)
}

pub fn row(cells: &Vec<(String, Tone)>, enabled: bool) -> (line: String)
    ensures
        line@ == row_of(cell_views(cells@), enabled),
{
    let ghost wanted = painted_cells(cell_views(cells@), enabled);
    let mut parts: Vec<String> = Vec::new();
    let mut i: usize = 0;
    while i < cells.len()
        invariant
            i <= cells.len(),
            wanted == painted_cells(cell_views(cells@), enabled),
            parts.deep_view() == wanted.take(i as int),
        decreases cells.len() - i,
    {
        let part = paint(cells[i].0.as_str(), cells[i].1, enabled);
        let ghost before = parts.deep_view();
        let ghost model = part@;
        parts.push(part);
        assert(parts.deep_view() =~= before.push(model));
        assert(cell_views(cells@)[i as int] == (cells[i as int].0@, cells[i as int].1));
        assert(wanted.take(i + 1) =~= wanted.take(i as int).push(wanted[i as int]));
        i = i + 1;
    }
    assert(wanted.take(i as int) =~= wanted);
    text::join(&parts, "\t")
}

pub open spec fn spaces(count: int) -> Seq<char> {
    Seq::new(count as nat, |i: int| ' ')
}

/// A cell in its tone, filled up with spaces to a width.
pub open spec fn padded(cell: Cell, width: int, enabled: bool) -> Seq<char> {
    let missing = width - cell.0.len();
    painted(cell.0, cell.1, enabled) + spaces(if missing > 0 { missing } else { 0 })
}

pub open spec fn padded_cells(cells: Seq<Cell>, widths: Seq<usize>, enabled: bool) -> Seq<Seq<char>> {
    Seq::new(
        cells.len(),
        |i: int| padded(cells[i], if i < widths.len() { widths[i] as int } else { 0 }, enabled),
    )
}

/// The cells in columns, two spaces apart.
pub open spec fn table_row_of(cells: Seq<Cell>, widths: Seq<usize>, enabled: bool) -> Seq<char> {
    text::joined(padded_cells(cells, widths, enabled), "  "@)
}

fn pad(value: &str, tone: Tone, width: usize, enabled: bool) -> (result: String)
    ensures
        result@ == padded((value@, tone), width as int, enabled),
{
    let mut result = paint(value, tone, enabled);
    let ghost start = result@;
    let length = text::chars_of(value).len();
    let mut filled: usize = length;
    assert(spaces(0) =~= seq![]);
    assert(start + spaces(0) =~= start);
    while filled < width
        invariant
            length == value@.len(),
            length <= filled,
            filled <= width || filled == length,
            result@ == start + spaces(filled - length),
        decreases width - filled,
    {
        result.push(' ');
        filled = filled + 1;
        assert(spaces(filled - length) =~= spaces(filled - length - 1).push(' '));
        assert(start + spaces(filled - length) =~= (start + spaces(filled - length - 1)).push(' '));
    }
    result
}

pub fn table_row(cells: &Vec<(String, Tone)>, widths: &Vec<usize>, enabled: bool) -> (line: String)
    ensures
        line@ == table_row_of(cell_views(cells@), widths@, enabled),
{
    let ghost wanted = padded_cells(cell_views(cells@), widths@, enabled);
    let mut parts: Vec<String> = Vec::new();
    let mut i: usize = 0;
    while i < cells.len()
        invariant
            i <= cells.len(),
            wanted == padded_cells(cell_views(cells@), widths@, enabled),
            wanted.len() == cells.len(),
            parts.deep_view() == wanted.take(i as int),
        decreases cells.len() - i,
    {
        let width: usize = if i < widths.len() {
            widths[i]
        } else {
            0
        };
        let part = pad(cells[i].0.as_str(), cells[i].1, width, enabled);
        let ghost before = parts.deep_view();
        let ghost model = part@;
        parts.push(part);
        assert(parts.deep_view() =~= before.push(model));
        assert(cell_views(cells@)[i as int] == (cells[i as int].0@, cells[i as int].1));
        assert(wanted.take(i + 1) =~= wanted.take(i as int).push(wanted[i as int]));
        i = i + 1;
    }
    assert(wanted.take(i as int) =~= wanted);
    text::join(&parts, "  ")
}

/// The length of the longest text in a column.
pub open spec fn width_of(rows: Seq<Seq<Cell>>, column: int) -> nat
    decreases rows.len(),
{
    if rows.len() == 0 {
        0
    } else {
        let before = width_of(rows.drop_last(), column);
        let row = rows.last();
        if column < row.len() && row[column].0.len() > before {
            row[column].0.len()
        } else {
            before
        }
    }
}

pub open spec fn row_views(rows: Seq<Vec<(String, Tone)>>) -> Seq<Seq<Cell>> {
    rows.map_values(|row: Vec<(String, Tone)>| cell_views(row@))
}

/// Measures the columns of a table.
pub fn column_widths(rows: &Vec<Vec<(String, Tone)>>, columns: usize) -> (widths: Vec<usize>)
    ensures
        widths.len() == columns,
        forall|column: int|
            0 <= column < columns ==> (#[trigger] widths@[column]) == width_of(
                row_views(rows@),
                column,
            ),
{
    let mut widths: Vec<usize> = Vec::new();
    let ghost all = row_views(rows@);
    while widths.len() < columns
        invariant
            widths.len() <= columns,
            all == row_views(rows@),
            forall|column: int|
                0 <= column < widths.len() ==> (#[trigger] widths@[column]) == width_of(
                    all,
                    column,
                ),
        decreases columns - widths.len(),
    {
        let column = widths.len();
        let mut width: usize = 0;
        let mut r: usize = 0;
        while r < rows.len()
            invariant
                r <= rows.len(),
                all == row_views(rows@),
                all.len() == rows.len(),
                width == width_of(all.take(r as int), column as int),
            decreases rows.len() - r,
        {
            assert(all[r as int] == cell_views(rows[r as int]@));
            assert(all.take(r + 1).drop_last() =~= all.take(r as int));
            assert(all.take(r + 1).last() == all[r as int]);
            if column < rows[r].len() {
                let length = text::chars_of(rows[r][column].0.as_str()).len();
                assert(all[r as int][column as int].0.len() == length);
                if length > width {
                    width = length;
                }
            }
            r = r + 1;
        }
        assert(all.take(r as int) =~= all);
        widths.push(width);
    }
    widths
}

/// The columns of a table as wide as they need to be.
pub open spec fn widths_of(rows: Seq<Seq<Cell>>, columns: nat) -> Seq<nat> {
    Seq::new(columns, |column: int| width_of(rows, column))
}

/// A row in columns, two spaces apart.
pub open spec fn aligned(cells: Seq<Cell>, widths: Seq<nat>, enabled: bool) -> Seq<char> {
    text::joined(
        Seq::new(
            cells.len(),
            |i: int|
                padded(
                    cells[i],
                    if i < widths.len() {
                        widths[i] as int
                    } else {
                        0
                    },
                    enabled,
                ),
        ),
        "  "@,
    )
}

/// Rows under headers: in columns for a reader, with tabs for a program, which
/// gets no headers.
pub open spec fn listing(
    headers: Seq<Seq<char>>,
    rows: Seq<Seq<Cell>>,
    terminal: bool,
    enabled: bool,
) -> Seq<Seq<char>> {
    if terminal {
        let all = seq![headers.map_values(|header: Seq<char>| (header, Tone::Key))] + rows;
        let widths = widths_of(all, headers.len());
        all.map_values(|cells: Seq<Cell>| aligned(cells, widths, enabled))
    } else {
        rows.map_values(|cells: Seq<Cell>| row_of(cells, enabled))
    }
}

fn header_cells(headers: &Vec<&str>) -> (cells: Vec<(String, Tone)>)
    ensures
        cell_views(cells@) == headers.deep_view().map_values(
            |header: Seq<char>| (header, Tone::Key),
        ),
        cells.len() == headers.len(),
{
    let mut cells: Vec<(String, Tone)> = Vec::new();
    let mut i: usize = 0;
    while i < headers.len()
        invariant
            i <= headers.len(),
            cells.len() == i,
            forall|k: int|
                0 <= k < i ==> (#[trigger] cells@[k]).0@ == headers@[k]@ && cells@[k].1
                    == Tone::Key,
        decreases headers.len() - i,
    {
        cells.push((headers[i].to_owned(), Tone::Key));
        i = i + 1;
    }
    assert(cell_views(cells@) =~= headers.deep_view().map_values(
        |header: Seq<char>| (header, Tone::Key),
    ));
    cells
}

/// Sets out rows under headers.
pub fn list_rows(
    headers: &Vec<&str>,
    rows: Vec<Vec<(String, Tone)>>,
    terminal: bool,
    enabled: bool,
) -> (lines: Vec<String>)
    ensures
        lines.deep_view() == listing(headers.deep_view(), row_views(rows@), terminal, enabled),
{
    let ghost given = row_views(rows@);
    let mut lines: Vec<String> = Vec::new();
    if !terminal {
        let ghost wanted = given.map_values(|cells: Seq<Cell>| row_of(cells, enabled));
        let mut i: usize = 0;
        assert(lines.deep_view() =~= wanted.take(0));
        while i < rows.len()
            invariant
                i <= rows.len(),
                given == row_views(rows@),
                wanted == given.map_values(|cells: Seq<Cell>| row_of(cells, enabled)),
                lines.deep_view() == wanted.take(i as int),
            decreases rows.len() - i,
        {
            assert(given[i as int] == cell_views(rows[i as int]@));
            let line = row(&rows[i], enabled);
            let ghost before = lines.deep_view();
            let ghost model = line@;
            lines.push(line);
            assert(lines.deep_view() =~= before.push(model));
            assert(wanted.take(i + 1) =~= wanted.take(i as int).push(wanted[i as int]));
            i = i + 1;
        }
        assert(wanted.take(i as int) =~= wanted);
        return lines;
    }
    let mut all: Vec<Vec<(String, Tone)>> = Vec::new();
    all.push(header_cells(headers));
    let mut rows = rows;
    all.append(&mut rows);
    let ghost model_rows = seq![
        headers.deep_view().map_values(|header: Seq<char>| (header, Tone::Key)),
    ] + given;
    assert(row_views(all@) =~= model_rows);
    let widths = column_widths(&all, headers.len());
    let ghost model_widths = widths_of(model_rows, headers.deep_view().len());
    let ghost wanted = model_rows.map_values(
        |cells: Seq<Cell>| aligned(cells, model_widths, enabled),
    );
    let mut i: usize = 0;
    assert(lines.deep_view() =~= wanted.take(0));
    while i < all.len()
        invariant
            i <= all.len(),
            row_views(all@) == model_rows,
            widths.len() == headers.len(),
            model_widths == widths_of(model_rows, headers.deep_view().len()),
            forall|column: int|
                0 <= column < widths.len() ==> (#[trigger] widths@[column]) == width_of(
                    model_rows,
                    column,
                ),
            wanted == model_rows.map_values(
                |cells: Seq<Cell>| aligned(cells, model_widths, enabled),
            ),
            lines.deep_view() == wanted.take(i as int),
        decreases all.len() - i,
    {
        assert(model_rows[i as int] == cell_views(all[i as int]@));
        let line = table_row(&all[i], &widths, enabled);
        let ghost cells = cell_views(all[i as int]@);
        assert(headers.deep_view().len() == headers.len());
        assert(padded_cells(cells, widths@, enabled) =~= Seq::new(
            cells.len(),
            |k: int|
                padded(
                    cells[k],
                    if k < model_widths.len() {
                        model_widths[k] as int
                    } else {
                        0
                    },
                    enabled,
                ),
        ));
        assert(line@ == aligned(cells, model_widths, enabled));
        let ghost before = lines.deep_view();
        let ghost model = line@;
        lines.push(line);
        assert(lines.deep_view() =~= before.push(model));
        assert(wanted.take(i + 1) =~= wanted.take(i as int).push(wanted[i as int]));
        i = i + 1;
    }
    assert(wanted.take(i as int) =~= wanted);
    lines
}

/// A key and a value, with an equals sign between them.
pub open spec fn key_value_of(key: Seq<char>, value: Seq<char>, tone: Tone, enabled: bool) -> Seq<
    char,
> {
    painted(key, Tone::Key, enabled) + "="@ + painted(value, tone, enabled)
}

pub fn key_value(key: &str, value: &str, tone: Tone, enabled: bool) -> (result: String)
    ensures
        result@ == key_value_of(key@, value@, tone, enabled),
{
    text::concat3(
        paint(key, Tone::Key, enabled).as_str(),
        "=",
        paint(value, tone, enabled).as_str(),
    )
}

/// A key and a value, with a colon between them.
pub open spec fn colon_value_of(key: Seq<char>, value: Seq<char>, tone: Tone, enabled: bool) -> Seq<
    char,
> {
    painted(key, Tone::Key, enabled) + ": "@ + painted(value, tone, enabled)
}

pub fn colon_value(key: &str, value: &str, tone: Tone, enabled: bool) -> (result: String)
    ensures
        result@ == colon_value_of(key@, value@, tone, enabled),
{
    text::concat3(
        paint(key, Tone::Key, enabled).as_str(),
        ": ",
        paint(value, tone, enabled).as_str(),
    )
}

/// What was done, and to what.
pub open spec fn action_of(verb: Seq<char>, detail: Seq<char>, tone: Tone, enabled: bool) -> Seq<
    char,
> {
    painted(verb, tone, enabled) + " "@ + detail
}

pub fn action(verb: &str, detail: &str, tone: Tone, enabled: bool) -> (result: String)
    ensures
        result@ == action_of(verb@, detail@, tone, enabled),
{
    text::concat3(paint(verb, tone, enabled).as_str(), " ", detail)
}

// Tones of words.

/// The tone of a memory type.
pub open spec fn type_tone(memory_type: Seq<char>) -> Tone {
    if memory_type == "short"@ {
        Tone::Short
    } else if memory_type == "long"@ {
        Tone::Long
    } else {
        Tone::Info
    }
}

pub fn memory_type_tone(memory_type: &str) -> (tone: Tone)
    ensures
        tone == type_tone(memory_type@),
{
    if text::same(memory_type, "short") {
        Tone::Short
    } else if text::same(memory_type, "long") {
        Tone::Long
    } else {
        Tone::Info
    }
}

/// The tone of a kind of change.
pub open spec fn kind_of_change_tone(kind: Seq<char>) -> Tone {
    if kind == "added"@ {
        Tone::Success
    } else if kind == "deleted"@ {
        Tone::Error
    } else if kind == "modified"@ {
        Tone::Warning
    } else if kind == "renamed"@ || kind == "copied"@ {
        Tone::Info
    } else if kind == "untracked"@ {
        Tone::Short
    } else {
        Tone::Value
    }
}

pub fn change_tone(kind: &str) -> (tone: Tone)
    ensures
        tone == kind_of_change_tone(kind@),
{
    if text::same(kind, "added") {
        Tone::Success
    } else if text::same(kind, "deleted") {
        Tone::Error
    } else if text::same(kind, "modified") {
        Tone::Warning
    } else if text::same(kind, "renamed") || text::same(kind, "copied") {
        Tone::Info
    } else if text::same(kind, "untracked") {
        Tone::Short
    } else {
        Tone::Value
    }
}

/// The tone of an action.
pub open spec fn tone_of_action(action: Seq<char>) -> Tone {
    if action == "add"@ || action == "append"@ || action == "update"@ || action == "supersede"@ || action == "include"@ || action == "commit"@ {
        Tone::Success
    } else if action == "no-op"@ || action == "restore"@ {
        Tone::Warning
    } else if action == "abort"@ || action == "delete"@ {
        Tone::Error
    } else {
        Tone::Value
    }
}

pub fn action_tone(action: &str) -> (tone: Tone)
    ensures
        tone == tone_of_action(action@),
{
    if text::same(action, "add") || text::same(action, "append") || text::same(action, "update") || text::same(action, "supersede") || text::same(action, "include") || text::same(action, "commit") {
        Tone::Success
    } else if text::same(action, "no-op") || text::same(action, "restore") {
        Tone::Warning
    } else if text::same(action, "abort") || text::same(action, "delete") {
        Tone::Error
    } else {
        Tone::Value
    }
}

// Documents.

/// Whether white space occurs in a text.
pub open spec fn has_space(value: Seq<char>) -> bool {
    exists|i: int| 0 <= i < value.len() && text::is_space(#[trigger] value[i])
}

fn contains_space(value: &str) -> (found: bool)
    ensures
        found == has_space(value@),
{
    let chars = text::chars_of(value);
    let mut i: usize = 0;
    while i < chars.len()
        invariant
            i <= chars.len(),
            chars@ == value@,
            forall|k: int| 0 <= k < i ==> !text::is_space(#[trigger] value@[k]),
        decreases chars.len() - i,
    {
        if text::is_whitespace(chars[i]) {
            assert(text::is_space(value@[i as int]));
            return true;
        }
        i = i + 1;
    }
    false
}

/// A line of Markdown, coloured.
pub open spec fn markdown_line(line: Seq<char>) -> Seq<char> {
    let key = text::split_once_at(line, ':');
    if line == "---"@ {
        painted(line, Tone::Muted, true)
    } else if "#"@.is_prefix_of(line) {
        painted(line, Tone::Info, true)
    } else if "@fact "@.is_prefix_of(text::trimmed_start(line)) {
        painted(line, Tone::Short, true)
    } else if "```"@.is_prefix_of(text::trimmed_start(line)) {
        painted(line, Tone::Warning, true)
    } else if key is Some && !has_space(key->Some_0.0) {
        painted(key->Some_0.0, Tone::Key, true) + ":"@ + key->Some_0.1
    } else if "- "@.is_prefix_of(line) {
        painted("-"@, Tone::Info, true) + " "@ + line.skip("- "@.len() as int)
    } else if ">"@.is_prefix_of(line) {
        painted(line, Tone::Muted, true)
    } else {
        line
    }
}

/// A line of TOML, coloured.
pub open spec fn toml_line(line: Seq<char>) -> Seq<char> {
    let start = text::trimmed_start(line);
    let key = text::split_once_at(line, '=');
    if "#"@.is_prefix_of(start) {
        painted(line, Tone::Muted, true)
    } else if "["@.is_prefix_of(start) && "]"@.is_suffix_of(start) {
        painted(line, Tone::Short, true)
    } else if key is Some {
        painted(text::trimmed_end(key->Some_0.0), Tone::Key, true) + "="@ + key->Some_0.1
    } else {
        line
    }
}

/// A line of a diff, coloured.
pub open spec fn diff_line(line: Seq<char>) -> Seq<char> {
    if "diff "@.is_prefix_of(line) || "index "@.is_prefix_of(line) {
        painted(line, Tone::Muted, true)
    } else if "+++"@.is_prefix_of(line) || "---"@.is_prefix_of(line) || "@@"@.is_prefix_of(line) {
        painted(line, Tone::DiffHeader, true)
    } else if "+"@.is_prefix_of(line) {
        painted(line, Tone::Added, true)
    } else if "-"@.is_prefix_of(line) {
        painted(line, Tone::Removed, true)
    } else {
        line
    }
}

/// What a document is written in.
#[derive(Clone, Copy, Debug, PartialEq, Eq, Structural)]
pub enum Syntax {
    Markdown,
    Toml,
    Diff,
}

pub open spec fn highlighted_line(line: Seq<char>, syntax: Syntax) -> Seq<char> {
    match syntax {
        Syntax::Markdown => markdown_line(line),
        Syntax::Toml => toml_line(line),
        Syntax::Diff => diff_line(line),
    }
}

pub open spec fn highlighted_lines(lines: Seq<Seq<char>>, syntax: Syntax) -> Seq<Seq<char>> {
    lines.map_values(|line: Seq<char>| highlighted_line(line, syntax))
}

/// A document, line by line, where colours are on.
pub open spec fn highlighted(raw: Seq<char>, syntax: Syntax, enabled: bool) -> Seq<char> {
    if enabled {
        text::joined(highlighted_lines(text::pieces(raw, '\n'), syntax), "\n"@)
    } else {
        raw
    }
}

fn highlight_markdown_line(line: &str) -> (result: String)
    ensures
        result@ == markdown_line(line@),
{
    if text::same(line, "---") {
        return paint(line, Tone::Muted, true);
    }
    if text::starts_with(line, "#") {
        return paint(line, Tone::Info, true);
    }
    if text::starts_with(text::trim_start(line), "@fact ") {
        return paint(line, Tone::Short, true);
    }
    if text::starts_with(text::trim_start(line), "```") {
        return paint(line, Tone::Warning, true);
    }
    if let Some((key, value)) = text::split_once(line, ':') {
        if !contains_space(key) {
            return text::concat3(paint(key, Tone::Key, true).as_str(), ":", value);
        }
    }
    if let Some(rest) = text::strip_prefix(line, "- ") {
        return text::concat3(paint("-", Tone::Info, true).as_str(), " ", rest);
    }
    if text::starts_with(line, ">") {
        return paint(line, Tone::Muted, true);
    }
    line.to_owned()
}

fn highlight_toml_line(line: &str) -> (result: String)
    ensures
        result@ == toml_line(line@),
{
    let start = text::trim_start(line);
    if text::starts_with(start, "#") {
        return paint(line, Tone::Muted, true);
    }
    if text::starts_with(start, "[") && text::ends_with(start, "]") {
        return paint(line, Tone::Short, true);
    }
    if let Some((key, value)) = text::split_once(line, '=') {
        return text::concat3(paint(text::trim_end(key), Tone::Key, true).as_str(), "=", value);
    }
    line.to_owned()
}

fn highlight_diff_line(line: &str) -> (result: String)
    ensures
        result@ == diff_line(line@),
{
    if text::starts_with(line, "diff ") || text::starts_with(line, "index ") {
        paint(line, Tone::Muted, true)
    } else if text::starts_with(line, "+++") || text::starts_with(line, "---") || text::starts_with(
        line,
        "@@",
    ) {
        paint(line, Tone::DiffHeader, true)
    } else if text::starts_with(line, "+") {
        paint(line, Tone::Added, true)
    } else if text::starts_with(line, "-") {
        paint(line, Tone::Removed, true)
    } else {
        line.to_owned()
    }
}

fn document(raw: &str, syntax: Syntax, enabled: bool) -> (result: String)
    ensures
        result@ == highlighted(raw@, syntax, enabled),
{
    if !enabled {
        return raw.to_owned();
    }
    let lines = text::split(raw, '\n');
    let ghost all = lines.deep_view();
    let ghost wanted = highlighted_lines(all, syntax);
    let mut parts: Vec<String> = Vec::new();
    let mut i: usize = 0;
    while i < lines.len()
        invariant
            i <= lines.len(),
            all == lines.deep_view(),
            wanted == highlighted_lines(all, syntax),
            parts.deep_view() == wanted.take(i as int),
        decreases lines.len() - i,
    {
        assert(all[i as int] == lines[i as int]@);
        let part = match syntax {
            Syntax::Markdown => highlight_markdown_line(lines[i]),
            Syntax::Toml => highlight_toml_line(lines[i]),
            Syntax::Diff => highlight_diff_line(lines[i]),
        };
        let ghost before = parts.deep_view();
        let ghost model = part@;
        parts.push(part);
        assert(parts.deep_view() =~= before.push(model));
        assert(wanted.take(i + 1) =~= wanted.take(i as int).push(wanted[i as int]));
        i = i + 1;
    }
    assert(wanted.take(i as int) =~= wanted);
    text::join(&parts, "\n")
}

pub fn markdown(raw: &str, enabled: bool) -> (result: String)
    ensures
        result@ == highlighted(raw@, Syntax::Markdown, enabled),
{
    document(raw, Syntax::Markdown, enabled)
}

pub fn toml(raw: &str, enabled: bool) -> (result: String)
    ensures
        result@ == highlighted(raw@, Syntax::Toml, enabled),
{
    document(raw, Syntax::Toml, enabled)
}

pub fn diff(raw: &str, enabled: bool) -> (result: String)
    ensures
        result@ == highlighted(raw@, Syntax::Diff, enabled),
{
    document(raw, Syntax::Diff, enabled)
}

// Whether colours are on.

/// Whether the environment asks for no colours: `NO_COLOR` says something, or
/// `CLICOLOR` says 0.
pub fn color_disabled(no_color: Option<&str>, clicolor: Option<&str>) -> (disabled: bool)
    ensures
        disabled == ((no_color is Some && no_color->Some_0@.len() > 0) || (clicolor is Some
            && clicolor->Some_0@ == "0"@)),
{
    let no_color = match no_color {
        Some(value) => !value.is_empty(),
        None => false,
    };
    let clicolor = match clicolor {
        Some(value) => text::same(value, "0"),
        None => false,
    };
    no_color || clicolor
}

pub open spec fn is_set(value: Option<Seq<char>>) -> bool {
    value is Some && value->Some_0.len() > 0 && value->Some_0 != "0"@
}

fn is_nonzero(value: Option<&str>) -> (set: bool)
    ensures
        set == is_set(value.deep_view()),
{
    match value {
        Some(value) => !value.is_empty() && !text::same(value, "0"),
        None => false,
    }
}

/// Whether the environment asks for colours: `CLICOLOR_FORCE` or `FORCE_COLOR`
/// says something else than 0.
pub fn color_forced(clicolor_force: Option<&str>, force_color: Option<&str>) -> (forced: bool)
    ensures
        forced == (is_set(clicolor_force.deep_view()) || is_set(force_color.deep_view())),
{
    is_nonzero(clicolor_force) || is_nonzero(force_color)
}

/// Whether each of the two streams is coloured. What was chosen goes first, then
/// an environment without colours, then one that asks for them, then whether
/// the stream is a terminal.
pub fn resolve_color(
    choice: ColorChoice,
    disabled: bool,
    forced: bool,
    stdout_is_terminal: bool,
    stderr_is_terminal: bool,
) -> (enabled: (bool, bool))
    ensures
        enabled == (match choice {
            ColorChoice::Always => (true, true),
            ColorChoice::Never => (false, false),
            ColorChoice::Auto => if disabled {
                (false, false)
            } else if forced {
                (true, true)
            } else {
                (stdout_is_terminal, stderr_is_terminal)
            },
        }),
{
    match choice {
        ColorChoice::Always => (true, true),
        ColorChoice::Never => (false, false),
        ColorChoice::Auto => if disabled {
            (false, false)
        } else if forced {
            (true, true)
        } else {
            (stdout_is_terminal, stderr_is_terminal)
        },
    }
}

} // verus!
