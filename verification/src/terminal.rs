//! The comparison table printed on the terminal: one column per library, the
//! fastest cell of each row highlighted, and the winner with its speedup.

use vstd::prelude::*;

use crate::report::texts;
use crate::results::Row;
use crate::text::{pad, padded, push_repeated, repeat_char};

verus! {

/// The larger of `a` and `b`.
pub open spec fn larger(a: nat, b: nat) -> nat {
    if a < b {
        b
    } else {
        a
    }
}

/// Length in bytes of the UTF-8 encoding of `s`.
pub open spec fn byte_len(s: Seq<char>) -> nat {
    (vstd::utf8::encode_utf8(s).len() as usize) as nat
}

/// Width of the scenario column: the longest description, and at least the
/// eight characters of the word `Scenario`.
pub open spec fn scenario_width(rows: Seq<Row>) -> nat
    decreases rows.len(),
{
    if rows.len() == 0 {
        8
    } else {
        larger(scenario_width(rows.drop_last()), rows.last().description@.len())
    }
}

/// Width of the column of `library`: the longest of its cells, its name and ten characters.
pub open spec fn column_width(rows: Seq<Row>, library: Seq<char>) -> nat
    decreases rows.len(),
{
    if rows.len() == 0 {
        larger(byte_len(library), 10)
    } else {
        larger(column_width(rows.drop_last(), library), rows.last().cell_text(library).len())
    }
}

/// Width of each library column, in column order.
pub open spec fn column_widths(order: Seq<Seq<char>>, rows: Seq<Row>) -> Seq<nat> {
    order.map_values(|library: Seq<char>| column_width(rows, library))
}

/// Width of the winner column: the longest library name, and at least seven characters.
pub open spec fn fastest_width(order: Seq<Seq<char>>) -> nat
    decreases order.len(),
{
    if order.len() == 0 {
        7
    } else {
        larger(fastest_width(order.drop_last()), byte_len(order.last()))
    }
}

/// The library columns' widths, each with the two spaces before it.
pub open spec fn columns_span(widths: Seq<nat>) -> nat
    decreases widths.len(),
{
    if widths.len() == 0 {
        0
    } else {
        columns_span(widths.drop_last()) + widths.last() + 2
    }
}

/// Length of the rule under the header.
pub open spec fn table_width(order: Seq<Seq<char>>, rows: Seq<Row>) -> nat {
    scenario_width(rows) + columns_span(column_widths(order, rows)) + fastest_width(order) + 13
}

fn description_width(rows: &Vec<Row>) -> (width: usize)
    ensures
        width as nat == scenario_width(rows@),
{
    let mut width: usize = 8;
    let mut i: usize = 0;
    while i < rows.len()
        invariant
            i <= rows@.len(),
            width as nat == scenario_width(rows@.take(i as int)),
        decreases rows@.len() - i,
    {
        assert(rows@.take(i + 1).drop_last() =~= rows@.take(i as int));
        let len = rows[i].description.as_str().unicode_len();
        if width < len {
            width = len;
        }
        i = i + 1;
    }
    assert(rows@.take(rows@.len() as int) =~= rows@);
    width
}

fn width_of_column(rows: &Vec<Row>, library: &String) -> (width: usize)
    ensures
        width as nat == column_width(rows@, library@),
{
    let mut width: usize = library.as_str().len();
    if width < 10 {
        width = 10;
    }
    let mut i: usize = 0;
    while i < rows.len()
        invariant
            i <= rows@.len(),
            width as nat == column_width(rows@.take(i as int), library@),
        decreases rows@.len() - i,
    {
        assert(rows@.take(i + 1).drop_last() =~= rows@.take(i as int));
        let len = rows[i].cell(library).as_str().unicode_len();
        if width < len {
            width = len;
        }
        i = i + 1;
    }
    assert(rows@.take(rows@.len() as int) =~= rows@);
    width
}

fn widths_of_columns(order: &Vec<String>, rows: &Vec<Row>) -> (widths: Vec<usize>)
    ensures
        widths@.len() == order@.len(),
        forall|i: int|
            0 <= i < order@.len() ==> widths@[i] as nat == column_widths(texts(order@), rows@)[i],
{
    let mut widths: Vec<usize> = Vec::new();
    let mut i: usize = 0;
    while i < order.len()
        invariant
            i <= order@.len(),
            widths@.len() == i,
            forall|k: int|
                0 <= k < i ==> widths@[k] as nat == column_width(rows@, (#[trigger] order@[k])@),
        decreases order@.len() - i,
    {
        widths.push(width_of_column(rows, &order[i]));
        i = i + 1;
    }
    widths
}

fn winner_width(order: &Vec<String>) -> (width: usize)
    ensures
        width as nat == fastest_width(texts(order@)),
        7 <= width,
        forall|i: int| 0 <= i < order@.len() ==> byte_len(#[trigger] order@[i]@) <= width,
        width == 7 || exists|i: int| 0 <= i < order@.len() && width == byte_len(#[trigger] order@[i]@),
{
    let mut width: usize = 7;
    let mut i: usize = 0;
    while i < order.len()
        invariant
            i <= order@.len(),
            width as nat == fastest_width(texts(order@).take(i as int)),
        decreases order@.len() - i,
    {
        assert(texts(order@).take(i + 1).drop_last() =~= texts(order@).take(i as int));
        let len = order[i].as_str().len();
        if width < len {
            width = len;
        }
        i = i + 1;
    }
    assert(texts(order@).take(order@.len() as int) =~= texts(order@));
    proof {
        lemma_winner_width_is_longest_name(texts(order@));
        assert forall|i: int| 0 <= i < order@.len() implies byte_len(#[trigger] order@[i]@)
            <= width by {
            assert(texts(order@)[i] == order@[i]@);
        }
        if width != 7 {
            let i = choose|i: int|
                0 <= i < texts(order@).len() && width == byte_len(#[trigger] texts(order@)[i]);
            assert(texts(order@)[i] == order@[i]@);
        }
    }
    width
}

/// Terminal escape: reset all attributes.
pub open spec fn reset() -> Seq<char> {
    "\x1b[0m"@
}

/// Terminal escape: bold.
pub open spec fn bold() -> Seq<char> {
    "\x1b[1m"@
}

/// Terminal escape: dim.
pub open spec fn dim() -> Seq<char> {
    "\x1b[2m"@
}

/// Terminal escape: green text.
pub open spec fn green() -> Seq<char> {
    "\x1b[32m"@
}

/// Terminal escape: cyan text.
pub open spec fn cyan() -> Seq<char> {
    "\x1b[36m"@
}

/// The first `n` names, with `sep` between each two.
pub open spec fn joined(names: Seq<Seq<char>>, sep: Seq<char>, n: nat) -> Seq<char>
    decreases n,
{
    if n == 0 {
        Seq::empty()
    } else if n == 1 {
        names[0]
    } else {
        joined(names, sep, (n - 1) as nat) + sep + names[n - 1]
    }
}

/// The header cells of the first `n` library columns.
pub open spec fn header_cells(order: Seq<Seq<char>>, widths: Seq<nat>, n: nat) -> Seq<char>
    decreases n,
{
    if n == 0 {
        Seq::empty()
    } else {
        header_cells(order, widths, (n - 1) as nat) + "  "@ + padded(order[n - 1], widths[n - 1])
    }
}

/// The header: the column titles, each padded to its column's width.
pub open spec fn header_line(
    order: Seq<Seq<char>>,
    widths: Seq<nat>,
    scenario: nat,
    winner: nat,
) -> Seq<char> {
    "  "@ + padded("Scenario"@, scenario) + header_cells(order, widths, order.len()) + "  "@
        + padded("fastest"@, winner) + "  speedup"@
}

/// The cell of the `i`-th library column in `row`, highlighted when that library is the fastest.
pub open spec fn row_cell(order: Seq<Seq<char>>, widths: Seq<nat>, row: Row, i: int) -> Seq<char> {
    let cell = padded(row.cell_text(order[i]), widths[i]);
    if row.fastest_library() == Some(order[i]) {
        "  "@ + green() + cell + reset()
    } else {
        "  "@ + cell
    }
}

/// The cells of the first `n` library columns in `row`.
pub open spec fn row_cells(order: Seq<Seq<char>>, widths: Seq<nat>, row: Row, n: nat) -> Seq<
    char,
>
    decreases n,
{
    if n == 0 {
        Seq::empty()
    } else {
        row_cells(order, widths, row, (n - 1) as nat) + row_cell(order, widths, row, n - 1)
    }
}

/// The winner of `row` and its speedup, or dashes when nothing was measured.
pub open spec fn row_winner(row: Row, winner: nat) -> Seq<char> {
    match row.fastest_library() {
        Some(library) => match row.speedup_text {
            Some(ratio) => "  "@ + green() + padded(library, winner) + reset() + "  "@ + ratio@
                + "x"@,
            None => "  "@ + green() + padded(library, winner) + reset() + "  -"@,
        },
        None => "  "@ + padded("-"@, winner) + "  -"@,
    }
}

/// One line of the table (without its line break).
pub open spec fn row_line(
    order: Seq<Seq<char>>,
    widths: Seq<nat>,
    scenario: nat,
    winner: nat,
    row: Row,
) -> Seq<char> {
    "  "@ + padded(row.description@, scenario) + row_cells(order, widths, row, order.len())
        + row_winner(row, winner)
}

/// The lines of the first `n` rows, each followed by a line break.
pub open spec fn row_lines(
    order: Seq<Seq<char>>,
    widths: Seq<nat>,
    scenario: nat,
    winner: nat,
    rows: Seq<Row>,
    n: nat,
) -> Seq<char>
    decreases n,
{
    if n == 0 {
        Seq::empty()
    } else {
        row_lines(order, widths, scenario, winner, rows, (n - 1) as nat) + row_line(
            order,
            widths,
            scenario,
            winner,
            rows[n - 1],
        ) + "\n"@
    }
}

/// The whole table as printed: a title naming the libraries, the header, a rule,
/// one line per row and a closing blank line.
pub open spec fn terminal_table_text(order: Seq<Seq<char>>, rows: Seq<Row>) -> Seq<char> {
    let scenario = scenario_width(rows);
    let widths = column_widths(order, rows);
    let winner = fastest_width(order);
    "\n"@ + bold() + cyan() + "  "@ + joined(order, " vs "@, order.len()) + reset() + "\n"@
        + dim() + header_line(order, widths, scenario, winner) + reset() + "\n"@ + "  "@
        + repeat_char('-', table_width(order, rows)) + "\n"@ + row_lines(
        order,
        widths,
        scenario,
        winner,
        rows,
        rows.len(),
    ) + "\n"@
}

/// The winner column is as wide as the longest library name of the order, and at least
/// seven characters wide: it holds every name, and is no wider than it must be.
pub proof fn lemma_winner_width_is_longest_name(order: Seq<Seq<char>>)
    ensures
        7 <= fastest_width(order),
        forall|i: int| 0 <= i < order.len() ==> byte_len(#[trigger] order[i]) <= fastest_width(order),
        fastest_width(order) == 7 || exists|i: int|
            0 <= i < order.len() && fastest_width(order) == byte_len(#[trigger] order[i]),
    decreases order.len(),
{
    if order.len() > 0 {
        let front = order.drop_last();
        lemma_winner_width_is_longest_name(front);
        assert forall|i: int| 0 <= i < order.len() implies byte_len(#[trigger] order[i])
            <= fastest_width(order) by {
            if i < order.len() - 1 {
                assert(front[i] == order[i]);
            }
        }
        if fastest_width(order) != 7 {
            if fastest_width(order) == byte_len(order[order.len() - 1]) {
                assert(fastest_width(order) == byte_len(order[order.len() - 1]));
            } else {
                let i = choose|i: int|
                    0 <= i < front.len() && fastest_width(front) == byte_len(#[trigger] front[i]);
                assert(front[i] == order[i]);
            }
        }
    }
}

/// The scenario column is as wide as the longest description, and at least eight
/// characters wide (the word `Scenario`).
pub proof fn lemma_scenario_width_is_longest(rows: Seq<Row>)
    ensures
        8 <= scenario_width(rows),
        forall|r: int|
            0 <= r < rows.len() ==> (#[trigger] rows[r]).description@.len() <= scenario_width(rows),
        scenario_width(rows) == 8 || exists|r: int|
            0 <= r < rows.len() && scenario_width(rows) == (#[trigger] rows[r]).description@.len(),
    decreases rows.len(),
{
    if rows.len() > 0 {
        let front = rows.drop_last();
        lemma_scenario_width_is_longest(front);
        assert forall|r: int| 0 <= r < rows.len() implies (#[trigger] rows[r]).description@.len()
            <= scenario_width(rows) by {
            if r < rows.len() - 1 {
                assert(front[r] == rows[r]);
            }
        }
        if scenario_width(rows) != 8 && scenario_width(rows) != rows[rows.len()
            - 1].description@.len() {
            let r = choose|r: int|
                0 <= r < front.len() && scenario_width(front) == (#[trigger] front[r]).description@.len();
            assert(front[r] == rows[r]);
        }
    }
}

/// The column of `library` is as wide as the longest of its name (in bytes), its cells
/// and ten characters: it holds each of them, and is no wider than it must be.
pub proof fn lemma_column_width_is_widest(rows: Seq<Row>, library: Seq<char>)
    ensures
        10 <= column_width(rows, library),
        byte_len(library) <= column_width(rows, library),
        forall|r: int|
            0 <= r < rows.len() ==> (#[trigger] rows[r]).cell_text(library).len() <= column_width(
                rows,
                library,
            ),
        column_width(rows, library) == 10 || column_width(rows, library) == byte_len(library)
            || exists|r: int|
            0 <= r < rows.len() && column_width(rows, library) == (#[trigger] rows[r]).cell_text(
                library,
            ).len(),
    decreases rows.len(),
{
    lemma_column_width_fits(rows, library);
    if rows.len() > 0 {
        let front = rows.drop_last();
        lemma_column_width_is_widest(front, library);
        if column_width(rows, library) != 10 && column_width(rows, library) != byte_len(library)
            && column_width(rows, library) != rows[rows.len() - 1].cell_text(library).len() {
            let r = choose|r: int|
                0 <= r < front.len() && column_width(front, library) == (#[trigger] front[r]).cell_text(
                    library,
                ).len();
            assert(front[r] == rows[r]);
        }
    }
}

proof fn lemma_column_width_fits(rows: Seq<Row>, library: Seq<char>)
    ensures
        byte_len(library) <= column_width(rows, library),
        forall|r: int|
            0 <= r < rows.len() ==> (#[trigger] rows[r]).cell_text(library).len() <= column_width(
                rows,
                library,
            ),
    decreases rows.len(),
{
    if rows.len() > 0 {
        lemma_column_width_fits(rows.drop_last(), library);
        assert forall|r: int| 0 <= r < rows.len() implies (#[trigger] rows[r]).cell_text(
            library,
        ).len() <= column_width(rows, library) by {
            if r < rows.len() - 1 {
                assert(rows.drop_last()[r] == rows[r]);
            }
        }
    }
}

proof fn lemma_scenario_width_fits(rows: Seq<Row>)
    ensures
        forall|r: int|
            0 <= r < rows.len() ==> (#[trigger] rows[r]).description@.len() <= scenario_width(rows),
    decreases rows.len(),
{
    if rows.len() > 0 {
        lemma_scenario_width_fits(rows.drop_last());
        assert forall|r: int| 0 <= r < rows.len() implies (#[trigger] rows[r]).description@.len()
            <= scenario_width(rows) by {
            if r < rows.len() - 1 {
                assert(rows.drop_last()[r] == rows[r]);
            }
        }
    }
}

proof fn lemma_chars_within_bytes(s: Seq<char>)
    ensures
        s.len() <= vstd::utf8::encode_utf8(s).len(),
    decreases s.len(),
{
    if s.len() > 0 {
        lemma_chars_within_bytes(s.drop_first());
    }
}

/// The columns line up: in every row, the description fills exactly the scenario
/// column's width and the cell of each library exactly its column's width; so does
/// the library's name in the header, for any name whose UTF-8 encoding a `usize` can count.
pub proof fn lemma_columns_align(rows: Seq<Row>, library: Seq<char>, r: int)
    requires
        0 <= r < rows.len(),
    ensures
        padded(rows[r].description@, scenario_width(rows)).len() == scenario_width(rows),
        padded(rows[r].cell_text(library), column_width(rows, library)).len() == column_width(
            rows,
            library,
        ),
        vstd::utf8::encode_utf8(library).len() <= usize::MAX ==> padded(
            library,
            column_width(rows, library),
        ).len() == column_width(rows, library),
{
    lemma_scenario_width_fits(rows);
    lemma_column_width_fits(rows, library);
    lemma_chars_within_bytes(library);
}

/// Over distinct columns, at most one cell of a row is highlighted: the cell of the fastest library.
pub proof fn lemma_one_highlight(order: Seq<Seq<char>>, row: Row, i: int, j: int)
    requires
        order.no_duplicates(),
        0 <= i < order.len(),
        0 <= j < order.len(),
        row.fastest_library() == Some(order[i]),
        row.fastest_library() == Some(order[j]),
    ensures
        i == j,
{
}

proof fn lemma_header_cells_length(order: Seq<Seq<char>>, widths: Seq<nat>, n: nat)
    requires
        n <= order.len(),
        n <= widths.len(),
        forall|i: int| 0 <= i < n ==> (#[trigger] order[i]).len() <= widths[i],
    ensures
        header_cells(order, widths, n).len() == columns_span(widths.take(n as int)),
    decreases n,
{
    if n > 0 {
        lemma_header_cells_length(order, widths, (n - 1) as nat);
        assert(widths.take(n as int).drop_last() =~= widths.take(n - 1));
        assert(order[n - 1].len() <= widths[n - 1]);
        reveal_strlit("  ");
    }
}

/// The rule under the header has one dash for each character of the header: the
/// two spaces before each column, the scenario column, every library column, the
/// winner column and the speedup title.
pub proof fn lemma_rule_spans_header(order: Seq<Seq<char>>, rows: Seq<Row>)
    requires
        forall|i: int| 0 <= i < order.len() ==> vstd::utf8::encode_utf8(#[trigger] order[i]).len()
            <= usize::MAX,
    ensures
        header_line(order, column_widths(order, rows), scenario_width(rows), fastest_width(
            order,
        )).len() == table_width(order, rows),
{
    let widths = column_widths(order, rows);
    reveal_strlit("  ");
    reveal_strlit("Scenario");
    reveal_strlit("fastest");
    reveal_strlit("  speedup");
    lemma_scenario_width_is_longest(rows);
    lemma_winner_width_is_longest_name(order);
    assert forall|i: int| 0 <= i < order.len() implies (#[trigger] order[i]).len()
        <= widths[i] by {
        lemma_column_width_fits(rows, order[i]);
        lemma_chars_within_bytes(order[i]);
    }
    lemma_header_cells_length(order, widths, order.len());
    assert(widths.take(order.len() as int) =~= widths);
    assert(widths.len() == order.len());
    let sw = scenario_width(rows);
    let fw = fastest_width(order);
    assert(padded("Scenario"@, sw).len() == sw);
    assert(padded("fastest"@, fw).len() == fw);
    assert(header_cells(order, widths, order.len()).len() == columns_span(widths));
    assert(header_line(order, widths, sw, fw).len() == 2 + sw + columns_span(widths) + 2 + fw + 9);
}

proof fn lemma_span_prefix(widths: Seq<nat>, k: int)
    requires
        0 <= k <= widths.len(),
    ensures
        columns_span(widths.take(k)) <= columns_span(widths),
    decreases widths.len(),
{
    if k < widths.len() {
        assert(widths.drop_last().take(k) =~= widths.take(k));
        lemma_span_prefix(widths.drop_last(), k);
    } else {
        assert(widths.take(k) =~= widths);
    }
}

/// The rule's length, or `None` when it does not fit in a `usize`.
fn rule_length(order: &Vec<String>, rows: &Vec<Row>, scenario: usize, widths: &Vec<usize>, winner: usize) -> (length: Option<usize>)
    requires
        scenario as nat == scenario_width(rows@),
        winner as nat == fastest_width(texts(order@)),
        widths@.len() == order@.len(),
        forall|i: int|
            0 <= i < order@.len() ==> widths@[i] as nat == column_widths(texts(order@), rows@)[i],
    ensures
        length is None <==> table_width(texts(order@), rows@) > usize::MAX,
        length matches Some(n) ==> n as nat == table_width(texts(order@), rows@),
{
    let ghost ws = column_widths(texts(order@), rows@);
    assert(ws.len() == widths@.len());
    let mut span: usize = 0;
    let mut i: usize = 0;
    while i < widths.len()
        invariant
            i <= widths@.len(),
            ws == column_widths(texts(order@), rows@),
            ws.len() == widths@.len(),
            forall|k: int| 0 <= k < widths@.len() ==> widths@[k] as nat == ws[k],
            span as nat == columns_span(ws.take(i as int)),
        decreases widths@.len() - i,
    {
        assert(ws.take(i + 1).drop_last() =~= ws.take(i as int));
        if widths[i] > usize::MAX - 2 || span > usize::MAX - 2 - widths[i] {
            proof {
                lemma_span_prefix(ws, i + 1);
                assert(ws.take(i + 1).last() == ws[i as int]);
                assert(columns_span(ws.take(i + 1)) == span + ws[i as int] + 2);
            }
            return None;
        }
        span = span + widths[i] + 2;
        i = i + 1;
    }
    assert(ws.take(widths@.len() as int) =~= ws);
    if span > usize::MAX - scenario || scenario + span > usize::MAX - winner || scenario + span
        + winner > usize::MAX - 13 {
        return None;
    }
    Some(scenario + span + winner + 13)
}

fn push_joined(out: &mut String, order: &Vec<String>)
    ensures
        final(out)@ == old(out)@ + joined(texts(order@), " vs "@, order@.len()),
{
    let ghost start = out@;
    let ghost names = texts(order@);
    let mut i: usize = 0;
    while i < order.len()
        invariant
            i <= order@.len(),
            names == texts(order@),
            out@ == start + joined(names, " vs "@, i as nat),
        decreases order@.len() - i,
    {
        if i > 0 {
            out.append(" vs ");
        }
        out.append(order[i].as_str());
        i = i + 1;
        assert(out@ =~= start + joined(names, " vs "@, i as nat));
    }
}

fn push_header(
    out: &mut String,
    order: &Vec<String>,
    widths: &Vec<usize>,
    scenario: usize,
    winner: usize,
    Ghost(ws): Ghost<Seq<nat>>,
)
    requires
        widths@.len() == order@.len(),
        ws.len() == order@.len(),
        forall|i: int| 0 <= i < order@.len() ==> widths@[i] as nat == ws[i],
    ensures
        final(out)@ == old(out)@ + header_line(texts(order@), ws, scenario as nat, winner as nat),
{
    let ghost start = out@;
    let ghost names = texts(order@);
    out.append("  ");
    let title = pad("Scenario", scenario);
    out.append(title.as_str());
    let ghost lead = out@;
    let mut i: usize = 0;
    while i < order.len()
        invariant
            i <= order@.len(),
            names == texts(order@),
            widths@.len() == order@.len(),
            ws.len() == order@.len(),
            forall|k: int| 0 <= k < order@.len() ==> widths@[k] as nat == ws[k],
            out@ == lead + header_cells(names, ws, i as nat),
        decreases order@.len() - i,
    {
        out.append("  ");
        let cell = pad(order[i].as_str(), widths[i]);
        out.append(cell.as_str());
        i = i + 1;
        assert(out@ =~= lead + header_cells(names, ws, i as nat));
    }
    out.append("  ");
    let last = pad("fastest", winner);
    out.append(last.as_str());
    out.append("  speedup");
    assert(out@ =~= start + header_line(names, ws, scenario as nat, winner as nat));
}

fn push_row_line(
    out: &mut String,
    order: &Vec<String>,
    widths: &Vec<usize>,
    scenario: usize,
    winner: usize,
    row: &Row,
    Ghost(ws): Ghost<Seq<nat>>,
)
    requires
        widths@.len() == order@.len(),
        ws.len() == order@.len(),
        forall|i: int| 0 <= i < order@.len() ==> widths@[i] as nat == ws[i],
    ensures
        final(out)@ == old(out)@ + row_line(texts(order@), ws, scenario as nat, winner as nat, *row),
{
    let ghost start = out@;
    let ghost names = texts(order@);
    out.append("  ");
    let description = pad(row.description.as_str(), scenario);
    out.append(description.as_str());
    let ghost lead = out@;
    let fastest = row.fastest();
    let mut i: usize = 0;
    while i < order.len()
        invariant
            i <= order@.len(),
            names == texts(order@),
            widths@.len() == order@.len(),
            ws.len() == order@.len(),
            forall|k: int| 0 <= k < order@.len() ==> widths@[k] as nat == ws[k],
            out@ == lead + row_cells(names, ws, *row, i as nat),
            match fastest {
                Some(n) => row.fastest_library() == Some(n@),
                None => row.fastest_library() is None,
            },
        decreases order@.len() - i,
    {
        let cell = pad(row.cell(&order[i]).as_str(), widths[i]);
        let highlighted = match fastest {
            Some(name) => *name == order[i],
            None => false,
        };
        out.append("  ");
        if highlighted {
            out.append("\x1b[32m");
            out.append(cell.as_str());
            out.append("\x1b[0m");
        } else {
            out.append(cell.as_str());
        }
        i = i + 1;
        assert(out@ =~= lead + row_cells(names, ws, *row, i as nat));
    }
    let ghost middle = out@;
    match fastest {
        Some(name) => {
            let label = pad(name.as_str(), winner);
            out.append("  ");
            out.append("\x1b[32m");
            out.append(label.as_str());
            out.append("\x1b[0m");
            match &row.speedup_text {
                Some(ratio) => {
                    out.append("  ");
                    out.append(ratio.as_str());
                    out.append("x");
                },
                None => {
                    out.append("  -");
                },
            }
        },
        None => {
            let label = pad("-", winner);
            out.append("  ");
            out.append(label.as_str());
            out.append("  -");
        },
    }
    assert(out@ =~= middle + row_winner(*row, winner as nat));
    assert(out@ =~= start + row_line(names, ws, scenario as nat, winner as nat, *row));
}

/// The comparison table as it is printed on the terminal, or `None` when its rule
/// would be longer than a `usize` can count.
pub fn terminal_table(order: &Vec<String>, rows: &Vec<Row>) -> (table: Option<String>)
    requires
        forall|r: int| 0 <= r < rows@.len() ==> (#[trigger] rows@[r]).well_formed(),
    ensures
        table is None <==> table_width(texts(order@), rows@) > usize::MAX,
        table matches Some(t) ==> t@ == terminal_table_text(texts(order@), rows@),
{
    let ghost names = texts(order@);
    let ghost ws = column_widths(names, rows@);
    let scenario = description_width(rows);
    let widths = widths_of_columns(order, rows);
    let winner = winner_width(order);
    let total = match rule_length(order, rows, scenario, &widths, winner) {
        Some(n) => n,
        None => return None,
    };
    let mut out = String::new();
    out.append("\n");
    out.append("\x1b[1m");
    out.append("\x1b[36m");
    out.append("  ");
    push_joined(&mut out, order);
    out.append("\x1b[0m");
    out.append("\n");
    out.append("\x1b[2m");
    push_header(&mut out, order, &widths, scenario, winner, Ghost(ws));
    out.append("\x1b[0m");
    out.append("\n");
    out.append("  ");
    push_repeated(&mut out, '-', total);
    out.append("\n");
    let ghost lead = out@;
    let mut i: usize = 0;
    while i < rows.len()
        invariant
            i <= rows@.len(),
            names == texts(order@),
            ws == column_widths(names, rows@),
            widths@.len() == order@.len(),
            forall|k: int| 0 <= k < order@.len() ==> widths@[k] as nat == ws[k],
            out@ == lead + row_lines(names, ws, scenario as nat, winner as nat, rows@, i as nat),
        decreases rows@.len() - i,
    {
        push_row_line(&mut out, order, &widths, scenario, winner, &rows[i], Ghost(ws));
        out.append("\n");
        i = i + 1;
        assert(out@ =~= lead + row_lines(names, ws, scenario as nat, winner as nat, rows@, i as nat));
    }
    out.append("\n");
    assert(out@ =~= terminal_table_text(names, rows@));
    Some(out)
}

} // verus!
