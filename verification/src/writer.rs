//! A table as the sequence of writes that puts it on a worksheet.
//!
//! The functions here decide what is written where, how it is dressed, in
//! which order, and what cannot be written at all. The caller owns the
//! worksheet and carries the steps out one by one; `next_step` tells it
//! when to stop and what to report.

use crate::cell::RawCell;
use crate::date::{date_at_offset, epoch_offset_to_date, offset_in_range};
use crate::number::Number;
use crate::text::{decimal_digits, push_char, u64_digits};
use vstd::prelude::*;
use vstd::string::*;

verus! {

/// Which write failed.
#[derive(Clone, Copy, Debug, PartialEq, Eq, Structural)]
pub enum WriteError {
    /// Setting a column's width.
    ColumnWidth,
    /// Writing a header title.
    HeaderText,
    /// Writing a text cell.
    TextCell,
    /// Writing a whole-number cell.
    IntegerCell,
    /// Writing a date cell.
    DateCell,
    /// Writing a binary64 cell.
    NumberCell,
    /// Writing the label of the totals row.
    TotalLabel,
    /// Writing a sum formula of the totals row.
    TotalFormula,
}

impl WriteError {
    /// The words of each failure; no two failures share theirs.
    pub open spec fn message_spec(self) -> Seq<char> {
        match self {
            WriteError::ColumnWidth => "Error setting width."@,
            WriteError::HeaderText => "Error writting header."@,
            WriteError::TextCell => "Error writting string."@,
            WriteError::IntegerCell => "Error writting number."@,
            WriteError::DateCell => "Error writting date."@,
            WriteError::NumberCell => "Error writting float."@,
            WriteError::TotalLabel => "Error writting total label."@,
            WriteError::TotalFormula => "Error write formula num."@,
        }
    }

    /// Different failures are reported in different words.
    pub proof fn lemma_words_differ(self, other: WriteError)
        requires
            self != other,
        ensures
            self.message_spec() != other.message_spec(),
    {
        reveal_strlit("Error setting width.");
        reveal_strlit("Error writting header.");
        reveal_strlit("Error writting string.");
        reveal_strlit("Error writting number.");
        reveal_strlit("Error writting date.");
        reveal_strlit("Error writting float.");
        reveal_strlit("Error writting total label.");
        reveal_strlit("Error write formula num.");
        let a = self.message_spec();
        let b = other.message_spec();
        if a.len() == b.len() {
            // words of one length part at their seventh or their sixteenth letter
            assert(a[6] != b[6] || a[15] != b[15]);
        }
    }

    /// The words that report this failure.
    pub fn message(&self) -> (r: &'static str)
        ensures
            r@ == self.message_spec(),
    {
        match self {
            WriteError::ColumnWidth => "Error setting width.",
            WriteError::HeaderText => "Error writting header.",
            WriteError::TextCell => "Error writting string.",
            WriteError::IntegerCell => "Error writting number.",
            WriteError::DateCell => "Error writting date.",
            WriteError::NumberCell => "Error writting float.",
            WriteError::TotalLabel => "Error writting total label.",
            WriteError::TotalFormula => "Error write formula num.",
        }
    }
}

/// The hour of the day at which a date is written: noon, so that no shift
/// of a few hours moves it to a neighbouring day.
pub const DATE_HOUR: i8 = 12;

/// A number handed to the worksheet: a binary64 as it is, or a whole number
/// for the caller to convert.
#[derive(Clone, Copy, Debug, PartialEq, Eq, Structural)]
pub enum SinkNumber {
    Binary64(Number),
    Integer(i64),
}

/// How a write is dressed. `T` is the text: `String` in a value that runs,
/// `Seq<char>` in its model.
#[derive(Clone, Debug, PartialEq)]
pub struct Style<T> {
    /// The colour of the letters, as red, green and blue.
    pub font_color: Option<u32>,
    /// The colour behind them.
    pub background_color: Option<u32>,
    /// Whether the text is centred across the selection.
    pub center_across: bool,
    pub bold: bool,
    /// Whether a medium border runs along the top.
    pub top_border: bool,
    /// How a number or a date is shown.
    pub number_format: Option<T>,
}

/// One write on the worksheet. `T` is the text: `String` in a value that
/// runs, `Seq<char>` in its model.
#[derive(Clone, Debug, PartialEq)]
pub enum SinkWrite<T> {
    /// Set the width of one column.
    ColumnWidth { column: u16, width: Number },
    /// Write a string.
    Text { row: u32, column: u16, text: T, style: Style<T> },
    /// Write a number.
    Number { row: u32, column: u16, value: SinkNumber, style: Style<T> },
    /// Write a date with a time of day.
    Date {
        row: u32,
        column: u16,
        year: i16,
        month: i8,
        day: i8,
        hour: i8,
        minute: i8,
        second: u8,
        style: Style<T>,
    },
    /// Write a formula, with the value to show until the sheet is computed.
    Formula { row: u32, column: u16, formula: T, shown: SinkNumber, style: Style<T> },
}

/// One step of a plan: a write to carry out, with what to report if the
/// worksheet refuses it, or a failure to report in place of a write that
/// cannot be made.
#[derive(Clone, Debug, PartialEq)]
pub enum Step<T> {
    Write { write: SinkWrite<T>, failure: WriteError },
    Fail(WriteError),
}

/// A header column: its title and its width.
#[derive(Clone, Debug, PartialEq)]
pub struct HeaderColumn {
    pub title: String,
    pub width: Number,
}

/// A total to show under a column: the value to show until the sheet is
/// computed, the column's index and the column's letter.
#[derive(Clone, Debug, PartialEq)]
pub struct TotalSpec {
    pub value: RawCell,
    pub column: u16,
    pub letter: String,
}

/// The text of an optional text.
pub open spec fn text_view(text: Option<String>) -> Option<Seq<char>> {
    match text {
        Some(t) => Some(t@),
        None => None,
    }
}

impl View for Style<String> {
    type V = Style<Seq<char>>;

    open spec fn view(&self) -> Style<Seq<char>> {
        Style {
            font_color: self.font_color,
            background_color: self.background_color,
            center_across: self.center_across,
            bold: self.bold,
            top_border: self.top_border,
            number_format: text_view(self.number_format),
        }
    }
}

impl View for SinkWrite<String> {
    type V = SinkWrite<Seq<char>>;

    open spec fn view(&self) -> SinkWrite<Seq<char>> {
        match *self {
            SinkWrite::ColumnWidth { column, width } => SinkWrite::ColumnWidth { column, width },
            SinkWrite::Text { row, column, text, style } => SinkWrite::Text {
                row,
                column,
                text: text@,
                style: style@,
            },
            SinkWrite::Number { row, column, value, style } => SinkWrite::Number {
                row,
                column,
                value,
                style: style@,
            },
            SinkWrite::Date { row, column, year, month, day, hour, minute, second, style } => SinkWrite::Date {
                row,
                column,
                year,
                month,
                day,
                hour,
                minute,
                second,
                style: style@,
            },
            SinkWrite::Formula { row, column, formula, shown, style } => SinkWrite::Formula {
                row,
                column,
                formula: formula@,
                shown,
                style: style@,
            },
        }
    }
}

impl View for Step<String> {
    type V = Step<Seq<char>>;

    open spec fn view(&self) -> Step<Seq<char>> {
        match *self {
            Step::Write { write, failure } => Step::Write { write: write@, failure },
            Step::Fail(e) => Step::Fail(e),
        }
    }
}

/// No dress at all.
pub open spec fn plain_style() -> Style<Seq<char>> {
    Style {
        font_color: None,
        background_color: None,
        center_across: false,
        bold: false,
        top_border: false,
        number_format: None,
    }
}

/// The dress of a header title: the colours asked for, centred across the
/// selection.
pub open spec fn header_style(font_color: u32, background_color: u32) -> Style<Seq<char>> {
    Style {
        font_color: Some(font_color),
        background_color: Some(background_color),
        center_across: true,
        bold: false,
        top_border: false,
        number_format: None,
    }
}

/// The dress of a date: shown as year, month and day.
pub open spec fn date_style() -> Style<Seq<char>> {
    Style {
        font_color: None,
        background_color: None,
        center_across: false,
        bold: false,
        top_border: false,
        number_format: Some("yyyy-mm-dd"@),
    }
}

/// The dress of the totals row: bold, under a top border.
pub open spec fn total_style() -> Style<Seq<char>> {
    Style {
        font_color: None,
        background_color: None,
        center_across: false,
        bold: true,
        top_border: true,
        number_format: None,
    }
}

/// The models of a sequence of steps.
pub open spec fn step_views(steps: Seq<Step<String>>) -> Seq<Step<Seq<char>>> {
    steps.map_values(|s: Step<String>| s@)
}

/// Whether a worksheet can address the position at all.
pub open spec fn fits(row: int, column: int) -> bool {
    0 <= row <= u32::MAX && 0 <= column <= u16::MAX
}

/// The step for a write at a position: the write where the worksheet can
/// address the position, else the failure.
pub open spec fn at(row: int, column: int, write: SinkWrite<Seq<char>>, failure: WriteError) -> Step<
    Seq<char>,
> {
    if fits(row, column) {
        Step::Write { write, failure }
    } else {
        Step::Fail(failure)
    }
}

/// Year, month and day of the date that a serial number stands for: the
/// day as many days from the epoch as the number rounds to. `None` where no
/// `Date` holds that day, or the year does not fit sixteen bits.
pub open spec fn sink_date(serial: Number) -> Option<(i16, i8, i8)> {
    let offset = serial.saturated(i64::MIN as int, i64::MAX as int);
    let date = date_at_offset(offset);
    if offset_in_range(offset) && i16::MIN <= date.year <= i16::MAX {
        Some((date.year as i16, date.month as i8, date.day as i8))
    } else {
        None
    }
}

/// What a cell at a position contributes: nothing where there is no cell
/// or no value to write; else the write for its kind, undressed but for a
/// date, or that kind's failure where the write cannot be made. A text is
/// written as a string, a whole number and a number as numbers, a serial
/// date as the date it stands for, at noon.
pub open spec fn cell_step(row: int, column: int, cell: Option<RawCell>) -> Option<
    Step<Seq<char>>,
> {
    match cell {
        Some(RawCell::Text(text)) => Some(
            at(
                row,
                column,
                SinkWrite::Text {
                    row: row as u32,
                    column: column as u16,
                    text: text@,
                    style: plain_style(),
                },
                WriteError::TextCell,
            ),
        ),
        Some(RawCell::Integer(value)) => Some(
            at(
                row,
                column,
                SinkWrite::Number {
                    row: row as u32,
                    column: column as u16,
                    value: SinkNumber::Integer(value),
                    style: plain_style(),
                },
                WriteError::IntegerCell,
            ),
        ),
        Some(RawCell::DateTime(serial)) => Some(
            match sink_date(serial) {
                Some((year, month, day)) => at(
                    row,
                    column,
                    SinkWrite::Date {
                        row: row as u32,
                        column: column as u16,
                        year,
                        month,
                        day,
                        hour: DATE_HOUR,
                        minute: 0,
                        second: 0,
                        style: date_style(),
                    },
                    WriteError::DateCell,
                ),
                None => Step::Fail(WriteError::DateCell),
            },
        ),
        Some(RawCell::Number(number)) => Some(
            at(
                row,
                column,
                SinkWrite::Number {
                    row: row as u32,
                    column: column as u16,
                    value: SinkNumber::Binary64(number),
                    style: plain_style(),
                },
                WriteError::NumberCell,
            ),
        ),
        _ => None,
    }
}

/// The formula that sums a column from row `first` to row `last`, both
/// counted from one.
pub open spec fn sum_formula(letter: Seq<char>, first: nat, last: nat) -> Seq<char> {
    seq!['=', 'S', 'U', 'M', '('] + letter + decimal_digits(first) + seq![':'] + letter
        + decimal_digits(last) + seq![')']
}

/// The value a total shows until the sheet is computed: the number of a
/// number cell, zero for any other kind.
pub open spec fn shown_value(cell: RawCell) -> SinkNumber {
    match cell {
        RawCell::Number(n) => SinkNumber::Binary64(n),
        RawCell::Integer(v) => SinkNumber::Integer(v),
        _ => SinkNumber::Integer(0),
    }
}

/// The step that writes the sum formula of one total in row `row`.
pub open spec fn formula_step(row: u32, first: nat, last: nat, total: TotalSpec) -> Step<Seq<char>> {
    Step::Write {
        write: SinkWrite::Formula {
            row,
            column: total.column,
            formula: sum_formula(total.letter@, first, last),
            shown: shown_value(total.value),
            style: total_style(),
        },
        failure: WriteError::TotalFormula,
    }
}

/// The step that writes the label of the totals row: the word `Total` in
/// column 0.
pub open spec fn label_step(row: u32) -> Step<Seq<char>> {
    Step::Write {
        write: SinkWrite::Text { row, column: 0, text: "Total"@, style: total_style() },
        failure: WriteError::TotalLabel,
    }
}

/// The two steps of one header column: its width, then its title.
pub open spec fn column_steps(
    row: u32,
    column: u16,
    font_color: u32,
    background_color: u32,
    title: HeaderColumn,
) -> Seq<Step<Seq<char>>> {
    seq![
        Step::Write {
            write: SinkWrite::ColumnWidth { column, width: title.width },
            failure: WriteError::ColumnWidth,
        },
        Step::Write {
            write: SinkWrite::Text {
                row,
                column,
                text: title.title@,
                style: header_style(font_color, background_color),
            },
            failure: WriteError::HeaderText,
        },
    ]
}

/// The formula writes of the totals from the `k`-th on.
pub open spec fn formulas_from(
    row: u32,
    first: nat,
    last: nat,
    totals: Seq<TotalSpec>,
    k: int,
) -> Seq<Step<Seq<char>>>
    decreases totals.len() - k,
{
    if k < 0 || k >= totals.len() {
        Seq::empty()
    } else {
        seq![formula_step(row, first, last, totals[k])] + formulas_from(
            row,
            first,
            last,
            totals,
            k + 1,
        )
    }
}

/// The totals row under `count` data rows that start at row `start`: the
/// label in the row after the last data row, then one sum formula for each
/// total, over the data rows. Nothing where no totals row is asked for.
pub open spec fn total_steps(
    start: int,
    count: int,
    include_total_row: bool,
    totals: Option<Seq<TotalSpec>>,
) -> Seq<Step<Seq<char>>> {
    if !include_total_row {
        Seq::empty()
    } else if !fits(start + count, 0) {
        seq![Step::Fail(WriteError::TotalLabel)]
    } else {
        let row = (start + count) as u32;
        seq![label_step(row)] + match totals {
            Some(t) => formulas_from(row, (start + 1) as nat, (start + count) as nat, t, 0),
            None => Seq::empty(),
        }
    }
}

/// The steps for the cells from column `j` of data row `i` on, row by row,
/// followed by `then`; all of it ends with the first failure.
pub open spec fn content_from(
    start: int,
    rows: Seq<Vec<Option<RawCell>>>,
    i: int,
    j: int,
    then: Seq<Step<Seq<char>>>,
) -> Seq<Step<Seq<char>>>
    decreases rows.len() - i, rows[i]@.len() - j,
{
    if i < 0 || j < 0 || i >= rows.len() {
        then
    } else if j >= rows[i]@.len() {
        content_from(start, rows, i + 1, 0, then)
    } else {
        match cell_step(start + i, j, rows[i]@[j]) {
            None => content_from(start, rows, i, j + 1, then),
            Some(Step::Fail(e)) => seq![Step::Fail(e)],
            Some(step) => seq![step] + content_from(start, rows, i, j + 1, then),
        }
    }
}

/// The steps that write the data rows from row `start` down, and the
/// totals row under them.
pub open spec fn content_plan(
    start: int,
    rows: Seq<Vec<Option<RawCell>>>,
    include_total_row: bool,
    totals: Option<Seq<TotalSpec>>,
) -> Seq<Step<Seq<char>>> {
    content_from(start, rows, 0, 0, total_steps(start, rows.len() as int, include_total_row, totals))
}

/// The steps for the header columns from the `i`-th on, followed by `then`;
/// all of it ends with the first failure. Each column has its width set and
/// then its title written.
pub open spec fn header_from(
    row: u32,
    font_color: u32,
    background_color: u32,
    titles: Seq<HeaderColumn>,
    i: int,
    then: Seq<Step<Seq<char>>>,
) -> Seq<Step<Seq<char>>>
    decreases titles.len() - i,
{
    if i < 0 || i >= titles.len() {
        then
    } else if !fits(row as int, i) {
        seq![Step::Fail(WriteError::ColumnWidth)]
    } else {
        column_steps(row, i as u16, font_color, background_color, titles[i]) + header_from(
            row,
            font_color,
            background_color,
            titles,
            i + 1,
            then,
        )
    }
}

/// The steps that write the header row.
pub open spec fn header_plan(
    row: u32,
    font_color: u32,
    background_color: u32,
    titles: Seq<HeaderColumn>,
) -> Seq<Step<Seq<char>>> {
    header_from(row, font_color, background_color, titles, 0, Seq::empty())
}

/// The steps that write a whole table: the header in row `starting_row`,
/// then the data rows from the row below it and the totals row under them.
pub open spec fn table_plan(
    starting_row: u32,
    font_color: u32,
    background_color: u32,
    titles: Seq<HeaderColumn>,
    rows: Seq<Vec<Option<RawCell>>>,
    include_total_row: bool,
    totals: Option<Seq<TotalSpec>>,
) -> Seq<Step<Seq<char>>> {
    header_from(
        starting_row,
        font_color,
        background_color,
        titles,
        0,
        content_plan(starting_row + 1, rows, include_total_row, totals),
    )
}

/// The totals as a sequence, where there are any.
pub open spec fn totals_view(totals: Option<&Vec<TotalSpec>>) -> Option<Seq<TotalSpec>> {
    match totals {
        Some(t) => Some(t@),
        None => None,
    }
}

/// What comes next for a caller that carries out a plan.
#[derive(Clone, Copy, Debug, PartialEq, Eq, Structural)]
pub enum Next {
    /// Carry out the next write.
    Perform,
    /// Every step is done; the table is written.
    Done,
    /// Stop and report the failure; no further step is carried out.
    Failed(WriteError),
}

/// What comes next once the first `done` steps of a plan are behind: after
/// a write that the worksheet refused, its failure; at the end of the plan,
/// nothing more; at a failure laid down in the plan, that failure; else the
/// write at position `done`. `refused` tells whether the worksheet refused
/// the write just carried out, the one at position `done - 1`.
pub open spec fn next_spec(plan: Seq<Step<Seq<char>>>, done: int, refused: bool) -> Next {
    if refused && 0 < done <= plan.len() && plan[done - 1] is Write {
        Next::Failed(plan[done - 1]->failure)
    } else if done < 0 || done >= plan.len() {
        Next::Done
    } else {
        match plan[done] {
            Step::Write { .. } => Next::Perform,
            Step::Fail(e) => Next::Failed(e),
        }
    }
}

/// Decides what a caller does next while it carries out a plan: the first
/// failure, of the worksheet or of the plan, ends the work.
pub fn next_step(steps: &Vec<Step<String>>, done: usize, refused: bool) -> (r: Next)
    ensures
        r == next_spec(step_views(steps@), done as int, refused),
{
    if refused && 0 < done && done <= steps.len() {
        if let Step::Write { failure, .. } = &steps[done - 1] {
            return Next::Failed(*failure);
        }
    }
    if done >= steps.len() {
        Next::Done
    } else {
        match &steps[done] {
            Step::Write { .. } => Next::Perform,
            Step::Fail(e) => Next::Failed(*e),
        }
    }
}

/// The header row: for each column in order, its width and then its
/// title in row `starting_row`. The column of a header entry is its
/// position in `header_titles`.
pub fn write_header(
    starting_row: u32,
    fontcolor: u32,
    bgcolor: u32,
    header_titles: &Vec<HeaderColumn>,
) -> (r: Vec<Step<String>>)
    ensures
        step_views(r@) == header_plan(starting_row, fontcolor, bgcolor, header_titles@),
{
    let mut steps: Vec<Step<String>> = Vec::new();
    assert(step_views(steps@) =~= Seq::empty());
    let ghost plan = header_from(starting_row, fontcolor, bgcolor, header_titles@, 0, Seq::empty());
    push_header(&mut steps, starting_row, fontcolor, bgcolor, header_titles, Ghost(Seq::empty()));
    assert(Seq::<Step<Seq<char>>>::empty() + plan =~= plan);
    assert(step_views(steps@) + Seq::<Step<Seq<char>>>::empty() =~= step_views(steps@));
    steps
}

/// The data rows and the totals row: each cell that holds a value is
/// written at its row and column, row `i` of the table in row
/// `starting_row + i`, as a string, a number or a date by its kind; a cell
/// that is absent or holds nothing to write leaves its place untouched.
/// With `include_total_row`, the row under the last data row gets the label
/// and a sum formula for each total.
pub fn write_content_table(
    starting_row: u32,
    content_table: &Vec<Vec<Option<RawCell>>>,
    include_total_row: bool,
    totals: Option<&Vec<TotalSpec>>,
) -> (r: Vec<Step<String>>)
    ensures
        step_views(r@) == content_plan(
            starting_row as int,
            content_table@,
            include_total_row,
            totals_view(totals),
        ),
{
    let mut steps: Vec<Step<String>> = Vec::new();
    assert(step_views(steps@) =~= Seq::empty());
    let ghost plan = content_plan(
        starting_row as int,
        content_table@,
        include_total_row,
        totals_view(totals),
    );
    push_content(&mut steps, starting_row as u64, content_table, include_total_row, totals);
    assert(Seq::<Step<Seq<char>>>::empty() + plan =~= plan);
    steps
}

/// The header in row `starting_row`, then the data rows from the row
/// below it and the totals row under them.
pub fn write_table(
    starting_row: u32,
    header_fontcolor: u32,
    header_bgcolor: u32,
    header_titles: &Vec<HeaderColumn>,
    content_table: &Vec<Vec<Option<RawCell>>>,
    include_total_row: bool,
    totals: Option<&Vec<TotalSpec>>,
) -> (r: Vec<Step<String>>)
    ensures
        step_views(r@) == table_plan(
            starting_row,
            header_fontcolor,
            header_bgcolor,
            header_titles@,
            content_table@,
            include_total_row,
            totals_view(totals),
        ),
{
    let ghost content = content_plan(
        starting_row + 1,
        content_table@,
        include_total_row,
        totals_view(totals),
    );
    let ghost plan = header_from(
        starting_row,
        header_fontcolor,
        header_bgcolor,
        header_titles@,
        0,
        content,
    );
    let mut steps: Vec<Step<String>> = Vec::new();
    assert(step_views(steps@) =~= Seq::empty());
    let complete = push_header(
        &mut steps,
        starting_row,
        header_fontcolor,
        header_bgcolor,
        header_titles,
        Ghost(content),
    );
    assert(Seq::<Step<Seq<char>>>::empty() + plan =~= plan);
    if complete {
        push_content(
            &mut steps,
            starting_row as u64 + 1,
            content_table,
            include_total_row,
            totals,
        );
    }
    steps
}

/// Appends the header's steps; tells whether all of them are writes, so
/// that what follows the header is still to come.
fn push_header(
    steps: &mut Vec<Step<String>>,
    row: u32,
    font_color: u32,
    background_color: u32,
    titles: &Vec<HeaderColumn>,
    Ghost(then): Ghost<Seq<Step<Seq<char>>>>,
) -> (complete: bool)
    ensures
        complete ==> step_views(final(steps)@) + then == step_views(old(steps)@) + header_from(
            row,
            font_color,
            background_color,
            titles@,
            0,
            then,
        ),
        !complete ==> step_views(final(steps)@) == step_views(old(steps)@) + header_from(
            row,
            font_color,
            background_color,
            titles@,
            0,
            then,
        ),
{
    let ghost before = step_views(steps@);
    let ghost plan = header_from(row, font_color, background_color, titles@, 0, then);
    let mut i: usize = 0;
    while i < titles.len()
        invariant
            i <= titles.len(),
            before == step_views(old(steps)@),
            plan == header_from(row, font_color, background_color, titles@, 0, then),
            before + plan == step_views(steps@) + header_from(
                row,
                font_color,
                background_color,
                titles@,
                i as int,
                then,
            ),
        decreases titles.len() - i,
    {
        let ghost rest = header_from(row, font_color, background_color, titles@, i + 1, then);
        let ghost so_far = step_views(steps@);
        if i > 0xffff {
            steps.push(Step::Fail(WriteError::ColumnWidth));
            assert(step_views(steps@) =~= so_far + seq![Step::Fail(WriteError::ColumnWidth)]);
            assert(header_from(row, font_color, background_color, titles@, i as int, then)
                == seq![Step::<Seq<char>>::Fail(WriteError::ColumnWidth)]);
            return false;
        }
        let column = i as u16;
        let width = Step::Write {
            write: SinkWrite::ColumnWidth { column, width: titles[i].width },
            failure: WriteError::ColumnWidth,
        };
        let title = Step::Write {
            write: SinkWrite::Text {
                row,
                column,
                text: titles[i].title.clone(),
                style: header_dress(font_color, background_color),
            },
            failure: WriteError::HeaderText,
        };
        let ghost two = column_steps(row, column, font_color, background_color, titles@[i as int]);
        assert(seq![width@, title@] =~= two);
        steps.push(width);
        steps.push(title);
        assert(step_views(steps@) =~= so_far + two);
        assert(so_far + (two + rest) =~= (so_far + two) + rest);
        i = i + 1;
    }
    true
}

/// Appends the steps of the data rows and of the totals row.
fn push_content(
    steps: &mut Vec<Step<String>>,
    start: u64,
    rows: &Vec<Vec<Option<RawCell>>>,
    include_total_row: bool,
    totals: Option<&Vec<TotalSpec>>,
)
    requires
        start <= 0x1_0000_0000,
    ensures
        step_views(final(steps)@) == step_views(old(steps)@) + content_plan(
            start as int,
            rows@,
            include_total_row,
            totals_view(totals),
        ),
{
    let ghost before = step_views(steps@);
    let ghost then = total_steps(start as int, rows.len() as int, include_total_row, totals_view(totals));
    let ghost plan = content_from(start as int, rows@, 0, 0, then);
    let mut i: usize = 0;
    while i < rows.len()
        invariant
            i <= rows.len(),
            start <= 0x1_0000_0000,
            before == step_views(old(steps)@),
            then == total_steps(
                start as int,
                rows.len() as int,
                include_total_row,
                totals_view(totals),
            ),
            plan == content_from(start as int, rows@, 0, 0, then),
            before + plan == step_views(steps@) + content_from(start as int, rows@, i as int, 0, then),
        decreases rows.len() - i,
    {
        let row = &rows[i];
        let mut j: usize = 0;
        while j < row.len()
            invariant
                i < rows.len(),
                j <= row.len(),
                start <= 0x1_0000_0000,
                *row == rows@[i as int],
                before == step_views(old(steps)@),
                then == total_steps(
                    start as int,
                    rows.len() as int,
                    include_total_row,
                    totals_view(totals),
                ),
                plan == content_from(start as int, rows@, 0, 0, then),
                before + plan == step_views(steps@) + content_from(
                    start as int,
                    rows@,
                    i as int,
                    j as int,
                    then,
                ),
            decreases row.len() - j,
        {
            let ghost so_far = step_views(steps@);
            let ghost rest = content_from(start as int, rows@, i as int, j + 1, then);
            match step_of_cell(start, i, j, &row[j]) {
                None => {},
                Some(Step::Fail(e)) => {
                    steps.push(Step::Fail(e));
                    assert(step_views(steps@) =~= so_far + seq![Step::Fail(e)]);
                    assert(cell_step(start + i, j as int, rows@[i as int]@[j as int]) == Some(
                        Step::<Seq<char>>::Fail(e),
                    ));
                    assert(content_from(start as int, rows@, i as int, j as int, then)
                        == seq![Step::<Seq<char>>::Fail(e)]);
                    return ;
                },
                Some(step) => {
                    let ghost one = seq![step@];
                    steps.push(step);
                    assert(step_views(steps@) =~= so_far + one);
                    assert(so_far + (one + rest) =~= (so_far + one) + rest);
                },
            }
            j = j + 1;
        }
        i = i + 1;
    }
    push_totals(steps, start, rows.len(), include_total_row, totals);
}

/// Appends the steps of the totals row.
fn push_totals(
    steps: &mut Vec<Step<String>>,
    start: u64,
    count: usize,
    include_total_row: bool,
    totals: Option<&Vec<TotalSpec>>,
)
    requires
        start <= 0x1_0000_0000,
    ensures
        step_views(final(steps)@) == step_views(old(steps)@) + total_steps(
            start as int,
            count as int,
            include_total_row,
            totals_view(totals),
        ),
{
    let ghost before = step_views(steps@);
    if !include_total_row {
        assert(before + Seq::<Step<Seq<char>>>::empty() =~= before);
        return ;
    }
    let row: u32 = match row_at(start, count) {
        Some(row) => row,
        None => {
            steps.push(Step::Fail(WriteError::TotalLabel));
            assert(step_views(steps@) =~= before + seq![Step::Fail(WriteError::TotalLabel)]);
            return ;
        },
    };
    let ghost label = seq![label_step(row)];
    steps.push(
        Step::Write {
            write: SinkWrite::Text {
                row,
                column: 0,
                text: String::from_str("Total"),
                style: total_dress(),
            },
            failure: WriteError::TotalLabel,
        },
    );
    assert(step_views(steps@) =~= before + label);
    match totals {
        None => {
            assert(label + Seq::<Step<Seq<char>>>::empty() =~= label);
        },
        Some(totals) => {
            let first: u64 = start + 1;
            let last: u64 = start + count as u64;
            let ghost formulas = formulas_from(row, first as nat, last as nat, totals@, 0);
            let mut k: usize = 0;
            while k < totals.len()
                invariant
                    k <= totals.len(),
                    before + (label + formulas) == step_views(steps@) + formulas_from(
                        row,
                        first as nat,
                        last as nat,
                        totals@,
                        k as int,
                    ),
                decreases totals.len() - k,
            {
                let ghost so_far = step_views(steps@);
                let ghost rest = formulas_from(row, first as nat, last as nat, totals@, k + 1);
                let total = &totals[k];
                let shown = match &total.value {
                    RawCell::Number(n) => SinkNumber::Binary64(*n),
                    RawCell::Integer(v) => SinkNumber::Integer(*v),
                    _ => SinkNumber::Integer(0),
                };
                let step = Step::Write {
                    write: SinkWrite::Formula {
                        row,
                        column: total.column,
                        formula: sum_formula_text(total.letter.as_str(), first, last),
                        shown,
                        style: total_dress(),
                    },
                    failure: WriteError::TotalFormula,
                };
                let ghost one = seq![formula_step(row, first as nat, last as nat, totals@[k as int])];
                assert(step@ == one[0]);
                steps.push(step);
                assert(step_views(steps@) =~= so_far + one);
                assert(so_far + (one + rest) =~= (so_far + one) + rest);
                k = k + 1;
            }
            assert(step_views(steps@) + Seq::<Step<Seq<char>>>::empty() =~= step_views(steps@));
            assert(before + (label + formulas) =~= (before + label) + formulas);
        },
    }
}

/// Row `start + i` as the worksheet counts rows, where it can.
fn row_at(start: u64, i: usize) -> (r: Option<u32>)
    requires
        start <= 0x1_0000_0000,
    ensures
        r == if start + i <= u32::MAX {
            Some((start + i) as u32)
        } else {
            None
        },
{
    if i > 0xffff_ffff {
        None
    } else {
        let row: u64 = start + i as u64;
        if row > 0xffff_ffff {
            None
        } else {
            Some(row as u32)
        }
    }
}

/// `cell_step` for the cell in column `j` of data row `i`.
fn step_of_cell(start: u64, i: usize, j: usize, cell: &Option<RawCell>) -> (r: Option<
    Step<String>,
>)
    requires
        start <= 0x1_0000_0000,
    ensures
        r matches Some(step) ==> cell_step(start + i, j as int, *cell) == Some(step@),
        r is None ==> cell_step(start + i, j as int, *cell) is None,
{
    let place: Option<(u32, u16)> = match row_at(start, i) {
        Some(row) => if j <= 0xffff {
            Some((row, j as u16))
        } else {
            None
        },
        None => None,
    };
    match cell {
        Some(RawCell::Text(text)) => Some(
            match place {
                Some((row, column)) => Step::Write {
                    write: SinkWrite::Text { row, column, text: text.clone(), style: plain_dress() },
                    failure: WriteError::TextCell,
                },
                None => Step::Fail(WriteError::TextCell),
            },
        ),
        Some(RawCell::Integer(value)) => Some(
            match place {
                Some((row, column)) => Step::Write {
                    write: SinkWrite::Number {
                        row,
                        column,
                        value: SinkNumber::Integer(*value),
                        style: plain_dress(),
                    },
                    failure: WriteError::IntegerCell,
                },
                None => Step::Fail(WriteError::IntegerCell),
            },
        ),
        Some(RawCell::DateTime(serial)) => Some(
            match (date_of_serial(*serial), place) {
                (Some((year, month, day)), Some((row, column))) => Step::Write {
                    write: SinkWrite::Date {
                        row,
                        column,
                        year,
                        month,
                        day,
                        hour: DATE_HOUR,
                        minute: 0,
                        second: 0,
                        style: date_dress(),
                    },
                    failure: WriteError::DateCell,
                },
                _ => Step::Fail(WriteError::DateCell),
            },
        ),
        Some(RawCell::Number(number)) => Some(
            match place {
                Some((row, column)) => Step::Write {
                    write: SinkWrite::Number {
                        row,
                        column,
                        value: SinkNumber::Binary64(*number),
                        style: plain_dress(),
                    },
                    failure: WriteError::NumberCell,
                },
                None => Step::Fail(WriteError::NumberCell),
            },
        ),
        _ => None,
    }
}

/// `plain_style`.
fn plain_dress() -> (r: Style<String>)
    ensures
        r@ == plain_style(),
{
    Style {
        font_color: None,
        background_color: None,
        center_across: false,
        bold: false,
        top_border: false,
        number_format: None,
    }
}

/// `header_style`.
fn header_dress(font_color: u32, background_color: u32) -> (r: Style<String>)
    ensures
        r@ == header_style(font_color, background_color),
{
    Style {
        font_color: Some(font_color),
        background_color: Some(background_color),
        center_across: true,
        bold: false,
        top_border: false,
        number_format: None,
    }
}

/// `date_style`.
fn date_dress() -> (r: Style<String>)
    ensures
        r@ == date_style(),
{
    Style {
        font_color: None,
        background_color: None,
        center_across: false,
        bold: false,
        top_border: false,
        number_format: Some(String::from_str("yyyy-mm-dd")),
    }
}

/// `total_style`.
fn total_dress() -> (r: Style<String>)
    ensures
        r@ == total_style(),
{
    Style {
        font_color: None,
        background_color: None,
        center_across: false,
        bold: true,
        top_border: true,
        number_format: None,
    }
}

/// `sink_date`.
fn date_of_serial(serial: Number) -> (r: Option<(i16, i8, i8)>)
    ensures
        r == sink_date(serial),
{
    match epoch_offset_to_date(serial.round_to_i64()) {
        Some(date) => {
            let year = date.year();
            if -0x8000 <= year && year <= 0x7fff {
                Some((year as i16, date.month() as i8, date.day() as i8))
            } else {
                None
            }
        },
        None => None,
    }
}

/// `sum_formula` as a string.
fn sum_formula_text(letter: &str, first: u64, last: u64) -> (r: String)
    ensures
        r@ == sum_formula(letter@, first as nat, last as nat),
{
    let mut r = String::new();
    r.append("=SUM(");
    proof {
        reveal_strlit("=SUM(");
        assert(r@ =~= seq!['=', 'S', 'U', 'M', '(']);
    }
    r.append(letter);
    push_digits(&mut r, first);
    push_char(&mut r, ':');
    r.append(letter);
    push_digits(&mut r, last);
    push_char(&mut r, ')');
    assert(r@ =~= sum_formula(letter@, first as nat, last as nat));
    r
}

/// Appends the decimal digits of `n`.
fn push_digits(s: &mut String, n: u64)
    ensures
        final(s)@ == old(s)@ + decimal_digits(n as nat),
{
    let digits = u64_digits(n);
    let ghost before = s@;
    let mut i: usize = 0;
    while i < digits.len()
        invariant
            i <= digits.len(),
            s@ == before + digits@.take(i as int),
        decreases digits.len() - i,
    {
        push_char(s, digits[i]);
        i = i + 1;
        assert(s@ =~= before + digits@.take(i as int));
    }
    assert(digits@.take(digits.len() as int) =~= digits@);
}

} // verus!
