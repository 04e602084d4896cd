//! What holds of every plan that `writer` makes.

use crate::cell::RawCell;
use crate::writer::{
    cell_step, content_from, content_plan, fits, formula_step, formulas_from, header_from,
    header_plan, label_step, table_plan, total_steps, HeaderColumn, SinkWrite, Step, TotalSpec,
};
use vstd::prelude::*;

verus! {

/// Whether a cell holds something that is written.
pub open spec fn holds_value(cell: Option<RawCell>) -> bool {
    cell matches Some(c) && (c is Text || c is Integer || c is DateTime || c is Number)
}

/// Row and column of a write, where it has a place of its own.
pub open spec fn place(write: SinkWrite<Seq<char>>) -> Option<(int, int)> {
    match write {
        SinkWrite::ColumnWidth { .. } => None,
        SinkWrite::Text { row, column, .. } => Some((row as int, column as int)),
        SinkWrite::Number { row, column, .. } => Some((row as int, column as int)),
        SinkWrite::Date { row, column, .. } => Some((row as int, column as int)),
        SinkWrite::Formula { row, column, .. } => Some((row as int, column as int)),
    }
}

/// Whether a step writes at the place.
pub open spec fn writes_at(step: Step<Seq<char>>, row: int, column: int) -> bool {
    step matches Step::Write { write, .. } && place(write) == Some((row, column))
}

/// Whether no step of the plan writes at the place.
pub open spec fn untouched(plan: Seq<Step<Seq<char>>>, row: int, column: int) -> bool {
    forall|k: int| 0 <= k < plan.len() ==> !writes_at(#[trigger] plan[k], row, column)
}

/// Whether every step of the plan is a write.
pub open spec fn all_writes(plan: Seq<Step<Seq<char>>>) -> bool {
    forall|k: int| 0 <= k < plan.len() ==> (#[trigger] plan[k]) is Write
}

/// Whether `plan` ends with `tail`.
pub open spec fn ends_with(plan: Seq<Step<Seq<char>>>, tail: Seq<Step<Seq<char>>>) -> bool {
    plan.len() >= tail.len() && plan.subrange(plan.len() - tail.len(), plan.len() as int) == tail
}

/// A cell gets a step exactly when it holds a value.
pub proof fn lemma_cell_step_some(row: int, column: int, cell: Option<RawCell>)
    ensures
        cell_step(row, column, cell) is Some <==> holds_value(cell),
        cell_step(row, column, cell) matches Some(Step::Write { write, .. }) ==> place(write)
            == Some((row, column)),
{
}

/// The formulas of the totals row are one for each total, in the order of
/// the totals.
pub proof fn lemma_formulas(row: u32, first: nat, last: nat, totals: Seq<TotalSpec>, k: int)
    requires
        0 <= k <= totals.len(),
    ensures
        formulas_from(row, first, last, totals, k).len() == totals.len() - k,
        forall|n: int|
            0 <= n < totals.len() - k ==> (#[trigger] formulas_from(row, first, last, totals, k)[n])
                == formula_step(row, first, last, totals[k + n]),
    decreases totals.len() - k,
{
    if k < totals.len() {
        lemma_formulas(row, first, last, totals, k + 1);
        let rest = formulas_from(row, first, last, totals, k + 1);
        assert forall|n: int| 0 <= n < totals.len() - k implies (#[trigger] formulas_from(
            row,
            first,
            last,
            totals,
            k,
        )[n]) == formula_step(row, first, last, totals[k + n]) by {
            if n > 0 {
                assert(formulas_from(row, first, last, totals, k)[n] == rest[n - 1]);
            }
        }
    }
}

/// The totals row touches no place in the rows above it.
pub proof fn lemma_totals_below(
    start: int,
    count: int,
    include_total_row: bool,
    totals: Option<Seq<TotalSpec>>,
    row: int,
    column: int,
)
    requires
        0 <= start,
        0 <= row < start + count,
    ensures
        untouched(total_steps(start, count, include_total_row, totals), row, column),
{
    let plan = total_steps(start, count, include_total_row, totals);
    if include_total_row && fits(start + count, 0) {
        if let Some(t) = totals {
            lemma_formulas((start + count) as u32, (start + 1) as nat, (start + count) as nat, t, 0);
        }
        assert forall|k: int| 0 <= k < plan.len() implies !writes_at(
            #[trigger] plan[k],
            row,
            column,
        ) by {
            if k > 0 {
                let t = totals->0;
                assert(plan[k] == formulas_from(
                    (start + count) as u32,
                    (start + 1) as nat,
                    (start + count) as nat,
                    t,
                    0,
                )[k - 1]);
            }
        }
    }
}

/// From any cell on, the steps of the data rows leave the place of a cell
/// without a value untouched, as long as what follows them does.
pub proof fn lemma_content_from_untouched(
    start: int,
    rows: Seq<Vec<Option<RawCell>>>,
    a: int,
    b: int,
    then: Seq<Step<Seq<char>>>,
    i: int,
    j: int,
)
    requires
        0 <= a,
        0 <= b,
        0 <= i < rows.len(),
        0 <= j < rows[i]@.len(),
        !holds_value(rows[i]@[j]),
        untouched(then, start + i, j),
    ensures
        untouched(content_from(start, rows, a, b, then), start + i, j),
    decreases rows.len() - a, rows[a]@.len() - b,
{
    let plan = content_from(start, rows, a, b, then);
    if a >= rows.len() {
    } else if b >= rows[a]@.len() {
        lemma_content_from_untouched(start, rows, a + 1, 0, then, i, j);
    } else {
        lemma_content_from_untouched(start, rows, a, b + 1, then, i, j);
        lemma_cell_step_some(start + a, b, rows[a]@[b]);
        let rest = content_from(start, rows, a, b + 1, then);
        match cell_step(start + a, b, rows[a]@[b]) {
            None => {},
            Some(Step::Fail(e)) => {},
            Some(step) => {
                assert forall|k: int| 0 <= k < plan.len() implies !writes_at(
                    #[trigger] plan[k],
                    start + i,
                    j,
                ) by {
                    if k > 0 {
                        assert(plan[k] == rest[k - 1]);
                    }
                }
            },
        }
    }
}

/// A cell that is absent, or holds nothing to write, is not written:
/// no step of the data rows and the totals row touches its place.
pub proof fn lemma_absent_cell_not_written(
    start: int,
    rows: Seq<Vec<Option<RawCell>>>,
    include_total_row: bool,
    totals: Option<Seq<TotalSpec>>,
    i: int,
    j: int,
)
    requires
        0 <= start,
        0 <= i < rows.len(),
        0 <= j < rows[i]@.len(),
        !holds_value(rows[i]@[j]),
    ensures
        untouched(content_plan(start, rows, include_total_row, totals), start + i, j),
{
    lemma_totals_below(start, rows.len() as int, include_total_row, totals, start + i, j);
    lemma_content_from_untouched(
        start,
        rows,
        0,
        0,
        total_steps(start, rows.len() as int, include_total_row, totals),
        i,
        j,
    );
}

/// The header touches no place outside its own row.
pub proof fn lemma_header_from_untouched(
    header_row: u32,
    font_color: u32,
    background_color: u32,
    titles: Seq<HeaderColumn>,
    a: int,
    then: Seq<Step<Seq<char>>>,
    row: int,
    column: int,
)
    requires
        0 <= a,
        row != header_row,
        untouched(then, row, column),
    ensures
        untouched(
            header_from(header_row, font_color, background_color, titles, a, then),
            row,
            column,
        ),
    decreases titles.len() - a,
{
    let plan = header_from(header_row, font_color, background_color, titles, a, then);
    if a < titles.len() && fits(header_row as int, a) {
        lemma_header_from_untouched(
            header_row,
            font_color,
            background_color,
            titles,
            a + 1,
            then,
            row,
            column,
        );
        let rest = header_from(header_row, font_color, background_color, titles, a + 1, then);
        assert forall|k: int| 0 <= k < plan.len() implies !writes_at(
            #[trigger] plan[k],
            row,
            column,
        ) by {
            if k > 1 {
                assert(plan[k] == rest[k - 2]);
            }
        }
    }
}

/// In a whole table too, a cell that is absent, or holds nothing to write,
/// is not written: no step touches the place under the header where it
/// would stand.
pub proof fn lemma_absent_cell_of_table_not_written(
    starting_row: u32,
    font_color: u32,
    background_color: u32,
    titles: Seq<HeaderColumn>,
    rows: Seq<Vec<Option<RawCell>>>,
    include_total_row: bool,
    totals: Option<Seq<TotalSpec>>,
    i: int,
    j: int,
)
    requires
        0 <= i < rows.len(),
        0 <= j < rows[i]@.len(),
        !holds_value(rows[i]@[j]),
    ensures
        untouched(
            table_plan(
                starting_row,
                font_color,
                background_color,
                titles,
                rows,
                include_total_row,
                totals,
            ),
            starting_row + 1 + i,
            j,
        ),
{
    lemma_absent_cell_not_written(starting_row + 1, rows, include_total_row, totals, i, j);
    lemma_header_from_untouched(
        starting_row,
        font_color,
        background_color,
        titles,
        0,
        content_plan(starting_row + 1, rows, include_total_row, totals),
        starting_row + 1 + i,
        j,
    );
}

/// From any cell on, the steps of the data rows either hold a failure or
/// end with what follows them.
pub proof fn lemma_content_from_ends(
    start: int,
    rows: Seq<Vec<Option<RawCell>>>,
    a: int,
    b: int,
    then: Seq<Step<Seq<char>>>,
)
    requires
        0 <= a,
        0 <= b,
    ensures
        !all_writes(content_from(start, rows, a, b, then)) || ends_with(
            content_from(start, rows, a, b, then),
            then,
        ),
    decreases rows.len() - a, rows[a]@.len() - b,
{
    let plan = content_from(start, rows, a, b, then);
    if a >= rows.len() {
        assert(plan.subrange(0, plan.len() as int) =~= plan);
    } else if b >= rows[a]@.len() {
        lemma_content_from_ends(start, rows, a + 1, 0, then);
    } else {
        lemma_content_from_ends(start, rows, a, b + 1, then);
        let rest = content_from(start, rows, a, b + 1, then);
        match cell_step(start + a, b, rows[a]@[b]) {
            None => {},
            Some(Step::Fail(e)) => {
                assert(plan[0] is Fail);
            },
            Some(step) => {
                if all_writes(plan) {
                    assert forall|k: int| 0 <= k < rest.len() implies (#[trigger] rest[k]) is Write by {
                        assert(plan[k + 1] == rest[k]);
                    }
                    assert(plan.subrange(plan.len() - then.len(), plan.len() as int) =~= rest.subrange(
                        rest.len() - then.len(),
                        rest.len() as int,
                    ));
                }
            },
        }
    }
}

/// From any column on, the steps of the header either hold a failure or
/// end with what follows them.
pub proof fn lemma_header_from_ends(
    row: u32,
    font_color: u32,
    background_color: u32,
    titles: Seq<HeaderColumn>,
    a: int,
    then: Seq<Step<Seq<char>>>,
)
    requires
        0 <= a,
    ensures
        !all_writes(header_from(row, font_color, background_color, titles, a, then)) || ends_with(
            header_from(row, font_color, background_color, titles, a, then),
            then,
        ),
    decreases titles.len() - a,
{
    let plan = header_from(row, font_color, background_color, titles, a, then);
    if a >= titles.len() {
        assert(plan.subrange(0, plan.len() as int) =~= plan);
    } else if !fits(row as int, a) {
        assert(plan[0] is Fail);
    } else {
        lemma_header_from_ends(row, font_color, background_color, titles, a + 1, then);
        let rest = header_from(row, font_color, background_color, titles, a + 1, then);
        if all_writes(plan) {
            assert forall|k: int| 0 <= k < rest.len() implies (#[trigger] rest[k]) is Write by {
                assert(plan[k + 2] == rest[k]);
            }
            assert(plan.subrange(plan.len() - then.len(), plan.len() as int) =~= rest.subrange(
                rest.len() - then.len(),
                rest.len() as int,
            ));
        }
    }
}

/// Whether the plan holds the step.
pub open spec fn holds_step(plan: Seq<Step<Seq<char>>>, step: Step<Seq<char>>) -> bool {
    exists|k: int| 0 <= k < plan.len() && #[trigger] plan[k] == step
}

/// From any cell on, the steps of the data rows that hold no failure hold
/// the write of every later cell that has a value.
pub proof fn lemma_content_from_holds(
    start: int,
    rows: Seq<Vec<Option<RawCell>>>,
    a: int,
    b: int,
    then: Seq<Step<Seq<char>>>,
    i: int,
    j: int,
)
    requires
        0 <= a,
        0 <= b,
        0 <= i < rows.len(),
        0 <= j < rows[i]@.len(),
        a < i || (a == i && b <= j),
        holds_value(rows[i]@[j]),
        all_writes(content_from(start, rows, a, b, then)),
    ensures
        cell_step(start + i, j, rows[i]@[j]) is Some,
        holds_step(
            content_from(start, rows, a, b, then),
            cell_step(start + i, j, rows[i]@[j])->0,
        ),
    decreases rows.len() - a, rows[a]@.len() - b,
{
    let plan = content_from(start, rows, a, b, then);
    let wanted = cell_step(start + i, j, rows[i]@[j])->0;
    lemma_cell_step_some(start + i, j, rows[i]@[j]);
    if b >= rows[a]@.len() {
        lemma_content_from_holds(start, rows, a + 1, 0, then, i, j);
    } else {
        let rest = content_from(start, rows, a, b + 1, then);
        match cell_step(start + a, b, rows[a]@[b]) {
            None => {
                lemma_cell_step_some(start + a, b, rows[a]@[b]);
                lemma_content_from_holds(start, rows, a, b + 1, then, i, j);
            },
            Some(Step::Fail(e)) => {
                assert(plan[0] is Fail);
            },
            Some(step) => {
                if a == i && b == j {
                    assert(plan[0] == wanted);
                } else {
                    assert forall|k: int| 0 <= k < rest.len() implies (#[trigger] rest[k]) is Write by {
                        assert(plan[k + 1] == rest[k]);
                    }
                    lemma_content_from_holds(start, rows, a, b + 1, then, i, j);
                    let k = choose|k: int| 0 <= k < rest.len() && #[trigger] rest[k] == wanted;
                    assert(plan[k + 1] == wanted);
                }
            },
        }
    }
}

/// Where the data rows are written without a failure, every cell that
/// holds a value is written at its place: a text as a string, a whole
/// number and a number as numbers, a date cell as its date at noon.
pub proof fn lemma_cell_is_written(
    start: int,
    rows: Seq<Vec<Option<RawCell>>>,
    include_total_row: bool,
    totals: Option<Seq<TotalSpec>>,
    i: int,
    j: int,
)
    requires
        0 <= i < rows.len(),
        0 <= j < rows[i]@.len(),
        holds_value(rows[i]@[j]),
        all_writes(content_plan(start, rows, include_total_row, totals)),
    ensures
        cell_step(start + i, j, rows[i]@[j]) is Some,
        holds_step(
            content_plan(start, rows, include_total_row, totals),
            cell_step(start + i, j, rows[i]@[j])->0,
        ),
{
    lemma_content_from_holds(
        start,
        rows,
        0,
        0,
        total_steps(start, rows.len() as int, include_total_row, totals),
        i,
        j,
    );
}

/// Whether every step before the last is a write, so that a failure can
/// only stand at the end.
pub open spec fn fails_last_only(plan: Seq<Step<Seq<char>>>) -> bool {
    forall|k: int| 0 <= k < plan.len() - 1 ==> (#[trigger] plan[k]) is Write
}

/// In the totals row nothing follows a failure.
pub proof fn lemma_totals_fail_last(
    start: int,
    count: int,
    include_total_row: bool,
    totals: Option<Seq<TotalSpec>>,
)
    ensures
        fails_last_only(total_steps(start, count, include_total_row, totals)),
{
    let plan = total_steps(start, count, include_total_row, totals);
    if include_total_row && fits(start + count, 0) {
        if let Some(t) = totals {
            lemma_formulas((start + count) as u32, (start + 1) as nat, (start + count) as nat, t, 0);
            assert forall|k: int| 0 <= k < plan.len() - 1 implies (#[trigger] plan[k]) is Write by {
                if k > 0 {
                    assert(plan[k] == formulas_from(
                        (start + count) as u32,
                        (start + 1) as nat,
                        (start + count) as nat,
                        t,
                        0,
                    )[k - 1]);
                }
            }
        }
    }
}

/// In the data rows nothing follows a failure, as long as that holds of
/// what comes after them.
pub proof fn lemma_content_from_fails_last(
    start: int,
    rows: Seq<Vec<Option<RawCell>>>,
    a: int,
    b: int,
    then: Seq<Step<Seq<char>>>,
)
    requires
        0 <= a,
        0 <= b,
        fails_last_only(then),
    ensures
        fails_last_only(content_from(start, rows, a, b, then)),
    decreases rows.len() - a, rows[a]@.len() - b,
{
    let plan = content_from(start, rows, a, b, then);
    if a >= rows.len() {
    } else if b >= rows[a]@.len() {
        lemma_content_from_fails_last(start, rows, a + 1, 0, then);
    } else {
        lemma_content_from_fails_last(start, rows, a, b + 1, then);
        let rest = content_from(start, rows, a, b + 1, then);
        match cell_step(start + a, b, rows[a]@[b]) {
            None => {},
            Some(Step::Fail(e)) => {},
            Some(step) => {
                assert forall|k: int| 0 <= k < plan.len() - 1 implies (#[trigger] plan[k]) is Write by {
                    if k > 0 {
                        assert(plan[k] == rest[k - 1]);
                    }
                }
            },
        }
    }
}

/// In the header nothing follows a failure, as long as that holds of what
/// comes after it.
pub proof fn lemma_header_from_fails_last(
    row: u32,
    font_color: u32,
    background_color: u32,
    titles: Seq<HeaderColumn>,
    a: int,
    then: Seq<Step<Seq<char>>>,
)
    requires
        0 <= a,
        fails_last_only(then),
    ensures
        fails_last_only(header_from(row, font_color, background_color, titles, a, then)),
    decreases titles.len() - a,
{
    let plan = header_from(row, font_color, background_color, titles, a, then);
    if a < titles.len() && fits(row as int, a) {
        lemma_header_from_fails_last(row, font_color, background_color, titles, a + 1, then);
        let rest = header_from(row, font_color, background_color, titles, a + 1, then);
        assert forall|k: int| 0 <= k < plan.len() - 1 implies (#[trigger] plan[k]) is Write by {
            if k > 1 {
                assert(plan[k] == rest[k - 2]);
            }
        }
    }
}

/// The first failure ends a plan: in the plan of a table, of its header
/// alone or of its data rows alone, every step before the last is a write.
pub proof fn lemma_failure_ends_plan(
    starting_row: u32,
    font_color: u32,
    background_color: u32,
    titles: Seq<HeaderColumn>,
    rows: Seq<Vec<Option<RawCell>>>,
    include_total_row: bool,
    totals: Option<Seq<TotalSpec>>,
)
    ensures
        fails_last_only(header_plan(starting_row, font_color, background_color, titles)),
        fails_last_only(content_plan(starting_row as int, rows, include_total_row, totals)),
        fails_last_only(
            table_plan(
                starting_row,
                font_color,
                background_color,
                titles,
                rows,
                include_total_row,
                totals,
            ),
        ),
{
    lemma_header_from_fails_last(starting_row, font_color, background_color, titles, 0, Seq::empty());
    lemma_totals_fail_last(starting_row as int, rows.len() as int, include_total_row, totals);
    lemma_content_from_fails_last(
        starting_row as int,
        rows,
        0,
        0,
        total_steps(starting_row as int, rows.len() as int, include_total_row, totals),
    );
    lemma_totals_fail_last(starting_row + 1, rows.len() as int, include_total_row, totals);
    lemma_content_from_fails_last(
        starting_row + 1,
        rows,
        0,
        0,
        total_steps(starting_row + 1, rows.len() as int, include_total_row, totals),
    );
    lemma_header_from_fails_last(
        starting_row,
        font_color,
        background_color,
        titles,
        0,
        content_plan(starting_row + 1, rows, include_total_row, totals),
    );
}

/// Where a table with a totals row is written without a failure, its plan
/// ends with the totals row: the label in the row after the last data row,
/// that is `starting_row + 1 + rows.len()`, and then for each total, in
/// the same row and in the total's column, the formula that sums the
/// total's column letter over the data rows, `starting_row + 2` to
/// `starting_row + 1 + rows.len()` as rows are counted from one.
pub proof fn lemma_totals_row_of_table(
    starting_row: u32,
    font_color: u32,
    background_color: u32,
    titles: Seq<HeaderColumn>,
    rows: Seq<Vec<Option<RawCell>>>,
    totals: Seq<TotalSpec>,
)
    requires
        all_writes(
            table_plan(starting_row, font_color, background_color, titles, rows, true, Some(totals)),
        ),
    ensures
        ({
            let plan = table_plan(
                starting_row,
                font_color,
                background_color,
                titles,
                rows,
                true,
                Some(totals),
            );
            let row = starting_row + 1 + rows.len();
            let label = plan.len() - totals.len() - 1;
            &&& row <= u32::MAX
            &&& label >= 0
            &&& plan[label] == label_step(row as u32)
            &&& forall|k: int|
                0 <= k < totals.len() ==> #[trigger] plan[label + 1 + k] == formula_step(
                    row as u32,
                    (starting_row + 2) as nat,
                    (starting_row + 1 + rows.len()) as nat,
                    totals[k],
                )
        }),
{
    let start = starting_row + 1;
    let count = rows.len() as int;
    let tail = total_steps(start, count, true, Some(totals));
    let content = content_plan(start, rows, true, Some(totals));
    let plan = header_from(starting_row, font_color, background_color, titles, 0, content);
    lemma_header_from_ends(starting_row, font_color, background_color, titles, 0, content);
    assert(ends_with(plan, content));
    let shift = plan.len() - content.len();
    assert forall|k: int| 0 <= k < content.len() implies (#[trigger] content[k]) == plan[shift + k] by {
        assert(plan.subrange(shift, plan.len() as int)[k] == plan[shift + k]);
    }
    assert(all_writes(content));
    lemma_content_from_ends(start, rows, 0, 0, tail);
    assert(ends_with(content, tail));
    let inner = content.len() - tail.len();
    assert forall|k: int| 0 <= k < tail.len() implies (#[trigger] tail[k]) == plan[shift + inner + k] by {
        assert(content.subrange(inner, content.len() as int)[k] == content[inner + k]);
        assert(content[inner + k] == plan[shift + inner + k]);
    }
    if !fits(start + count, 0) {
        assert(tail[0] is Fail);
        assert(plan[shift + inner + 0] is Write);
    }
    let row = (start + count) as u32;
    lemma_formulas(row, (start + 1) as nat, (start + count) as nat, totals, 0);
    let formulas = formulas_from(row, (start + 1) as nat, (start + count) as nat, totals, 0);
    assert(tail.len() == 1 + totals.len());
    assert(tail[0] == label_step(row));
    let label = plan.len() - totals.len() - 1;
    assert(label == shift + inner);
    assert forall|k: int| 0 <= k < totals.len() implies #[trigger] plan[label + 1 + k] == formula_step(
        row,
        (starting_row + 2) as nat,
        (starting_row + 1 + rows.len()) as nat,
        totals[k],
    ) by {
        assert(tail[1 + k] == formulas[k]);
        assert(tail[1 + k] == plan[shift + inner + (1 + k)]);
    }
}

} // verus!
