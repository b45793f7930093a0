//! The Markdown report: a header, the comparison table with one row per
//! scenario, and the list of scenario definitions.

use vstd::prelude::*;

use crate::report::{scenario_list, scenarios, texts};
use crate::results::Row;

verus! {

/// The header cells of the first `n` library columns.
pub open spec fn markdown_header_cells(order: Seq<Seq<char>>, n: nat) -> Seq<char>
    decreases n,
{
    if n == 0 {
        Seq::empty()
    } else {
        markdown_header_cells(order, (n - 1) as nat) + " "@ + order[n - 1] + " |"@
    }
}

/// The alignment cells of `n` library columns (right-aligned).
pub open spec fn markdown_rule_cells(n: nat) -> Seq<char>
    decreases n,
{
    if n == 0 {
        Seq::empty()
    } else {
        markdown_rule_cells((n - 1) as nat) + " ---: |"@
    }
}

/// The cells of `row` in the first `n` library columns.
pub open spec fn markdown_row_cells(order: Seq<Seq<char>>, row: Row, n: nat) -> Seq<char>
    decreases n,
{
    if n == 0 {
        Seq::empty()
    } else {
        markdown_row_cells(order, row, (n - 1) as nat) + " "@ + row.cell_text(order[n - 1])
            + " |"@
    }
}

/// The winner of `row`, or `-` when nothing was measured.
pub open spec fn winner_text(row: Row) -> Seq<char> {
    match row.fastest_library() {
        Some(library) => library,
        None => "-"@,
    }
}

/// The speedup of `row` followed by `x`, or `-` when fewer than two libraries were measured.
pub open spec fn speedup_text(row: Row) -> Seq<char> {
    match row.speedup_text {
        Some(ratio) => ratio@ + "x"@,
        None => "-"@,
    }
}

/// The table line of `row`.
pub open spec fn markdown_row(order: Seq<Seq<char>>, row: Row) -> Seq<char> {
    "| "@ + row.description@ + " |"@ + markdown_row_cells(order, row, order.len()) + " "@
        + winner_text(row) + " | "@ + speedup_text(row) + " |\n"@
}

/// The table lines of the first `n` rows.
pub open spec fn markdown_rows(order: Seq<Seq<char>>, rows: Seq<Row>, n: nat) -> Seq<char>
    decreases n,
{
    if n == 0 {
        Seq::empty()
    } else {
        markdown_rows(order, rows, (n - 1) as nat) + markdown_row(order, rows[n - 1])
    }
}

/// The definition items of the first `n` scenarios of `list`.
pub open spec fn scenario_items(list: Seq<(Seq<char>, Seq<char>)>, n: nat) -> Seq<char>
    decreases n,
{
    if n == 0 {
        Seq::empty()
    } else {
        scenario_items(list, (n - 1) as nat) + "- **`"@ + list[n - 1].0 + "`**: "@ + list[n - 1].1
            + "\n"@
    }
}

/// The Markdown report for the columns `order` and the scenario rows `rows`,
/// generated at `timestamp`.
pub open spec fn markdown_text(order: Seq<Seq<char>>, rows: Seq<Row>, timestamp: Seq<char>) -> Seq<
    char,
> {
    "# ECS benchmark comparison\n\n"@ + "_Generated "@ + timestamp + "._\n\n"@
        + "Times are Criterion mean estimates (lower is better). Speedup is how much faster the winner is than the next-fastest implementation.\n\n"@
        + "| Scenario |"@ + markdown_header_cells(order, order.len()) + " Fastest | Speedup |\n"@
        + "| --- |"@ + markdown_rule_cells(order.len()) + " :---: | ---: |\n"@ + markdown_rows(
        order,
        rows,
        rows.len(),
    ) + "\n## Scenario definitions\n\n"@ + scenario_items(scenario_list(), scenario_list().len())
        + "\nDetailed per-benchmark plots live under `target/criterion/`.\n"@
}

fn push_markdown_row(out: &mut String, order: &Vec<String>, row: &Row)
    ensures
        final(out)@ == old(out)@ + markdown_row(texts(order@), *row),
{
    let ghost start = out@;
    let ghost names = texts(order@);
    out.append("| ");
    out.append(row.description.as_str());
    out.append(" |");
    let ghost lead = out@;
    let mut i: usize = 0;
    while i < order.len()
        invariant
            i <= order@.len(),
            names == texts(order@),
            out@ == lead + markdown_row_cells(names, *row, i as nat),
        decreases order@.len() - i,
    {
        out.append(" ");
        let cell = row.cell(&order[i]);
        out.append(cell.as_str());
        out.append(" |");
        i = i + 1;
        assert(out@ =~= lead + markdown_row_cells(names, *row, i as nat));
    }
    out.append(" ");
    match row.fastest() {
        Some(name) => out.append(name.as_str()),
        None => out.append("-"),
    }
    out.append(" | ");
    match &row.speedup_text {
        Some(ratio) => {
            out.append(ratio.as_str());
            out.append("x");
        },
        None => out.append("-"),
    }
    out.append(" |\n");
    assert(out@ =~= start + markdown_row(names, *row));
}

/// The Markdown report: title, generation time, the comparison table with one row per
/// scenario, and the scenario definitions.
pub fn markdown_report(order: &Vec<String>, rows: &Vec<Row>, timestamp: &str) -> (report: String)
    requires
        forall|r: int| 0 <= r < rows@.len() ==> (#[trigger] rows@[r]).well_formed(),
    ensures
        report@ == markdown_text(texts(order@), rows@, timestamp@),
{
    let ghost names = texts(order@);
    let mut out = String::new();
    out.append("# ECS benchmark comparison\n\n");
    out.append("_Generated ");
    out.append(timestamp);
    out.append("._\n\n");
    out.append(
        "Times are Criterion mean estimates (lower is better). Speedup is how much faster the winner is than the next-fastest implementation.\n\n",
    );
    out.append("| Scenario |");
    let ghost lead = out@;
    let mut i: usize = 0;
    while i < order.len()
        invariant
            i <= order@.len(),
            names == texts(order@),
            out@ == lead + markdown_header_cells(names, i as nat),
        decreases order@.len() - i,
    {
        out.append(" ");
        out.append(order[i].as_str());
        out.append(" |");
        i = i + 1;
        assert(out@ =~= lead + markdown_header_cells(names, i as nat));
    }
    out.append(" Fastest | Speedup |\n");
    out.append("| --- |");
    let ghost lead = out@;
    let mut i: usize = 0;
    while i < order.len()
        invariant
            i <= order@.len(),
            out@ == lead + markdown_rule_cells(i as nat),
        decreases order@.len() - i,
    {
        out.append(" ---: |");
        i = i + 1;
        assert(out@ =~= lead + markdown_rule_cells(i as nat));
    }
    out.append(" :---: | ---: |\n");
    let ghost lead = out@;
    let mut i: usize = 0;
    while i < rows.len()
        invariant
            i <= rows@.len(),
            names == texts(order@),
            out@ == lead + markdown_rows(names, rows@, i as nat),
        decreases rows@.len() - i,
    {
        push_markdown_row(&mut out, order, &rows[i]);
        i = i + 1;
        assert(out@ =~= lead + markdown_rows(names, rows@, i as nat));
    }
    out.append("\n## Scenario definitions\n\n");
    let list = scenarios();
    let ghost items = list@.map_values(|p: (&'static str, &'static str)| (p.0@, p.1@));
    let ghost lead = out@;
    let mut i: usize = 0;
    while i < list.len()
        invariant
            i <= list@.len(),
            items == list@.map_values(|p: (&'static str, &'static str)| (p.0@, p.1@)),
            out@ == lead + scenario_items(items, i as nat),
        decreases list@.len() - i,
    {
        let (id, description) = list[i];
        out.append("- **`");
        out.append(id);
        out.append("`**: ");
        out.append(description);
        out.append("\n");
        i = i + 1;
        assert(out@ =~= lead + scenario_items(items, i as nat));
    }
    out.append("\nDetailed per-benchmark plots live under `target/criterion/`.\n");
    assert(out@ =~= markdown_text(names, rows@, timestamp@));
    out
}

} // verus!
