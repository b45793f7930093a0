use std::collections::BTreeMap;

use ecs_benchmarking::markdown::markdown_report;
use ecs_benchmarking::report::scenarios;
use ecs_benchmarking::results::{Measurement, Row};
use ecs_benchmarking::terminal::terminal_table;

fn format_time(nanos: f64) -> String {
    if nanos < 1_000.0 {
        format!("{nanos:.1} ns")
    } else if nanos < 1_000_000.0 {
        format!("{:.2} us", nanos / 1_000.0)
    } else if nanos < 1_000_000_000.0 {
        format!("{:.2} ms", nanos / 1_000_000.0)
    } else {
        format!("{:.2} s", nanos / 1_000_000_000.0)
    }
}

/// A scenario's results as the report binary keeps them.
struct Expected {
    description: &'static str,
    values: BTreeMap<String, f64>,
}

impl Expected {
    fn cell(&self, library: &str) -> String {
        self.values
            .get(library)
            .map(|nanos| format_time(*nanos))
            .unwrap_or_else(|| "-".into())
    }

    fn fastest(&self) -> Option<&String> {
        self.values
            .iter()
            .min_by(|left, right| left.1.total_cmp(right.1))
            .map(|(library, _)| library)
    }

    fn speedup_over_next(&self) -> Option<f64> {
        let mut times: Vec<f64> = self.values.values().copied().collect();
        if times.len() < 2 {
            return None;
        }
        times.sort_by(|left, right| left.total_cmp(right));
        Some(times[1] / times[0])
    }

    fn to_row(&self) -> Row {
        let mut row = Row {
            description: self.description.to_string(),
            measurements: self
                .values
                .iter()
                .map(|(library, nanos)| Measurement {
                    library: library.clone(),
                    nanos_bits: nanos.to_bits(),
                    time_text: format_time(*nanos),
                })
                .collect(),
            speedup_text: None,
        };
        if let Some((fastest, next)) = row.speedup_operands() {
            let ratio = f64::from_bits(row.measurements[next].nanos_bits)
                / f64::from_bits(row.measurements[fastest].nanos_bits);
            row.speedup_text = Some(format!("{ratio:.2}"));
        }
        row
    }
}

fn pad(text: &str, width: usize) -> String {
    let mut out = text.to_string();
    while out.chars().count() < width {
        out.push(' ');
    }
    out
}

fn expected_table(order: &[String], rows: &[Expected]) -> String {
    const RESET: &str = "\x1b[0m";
    const BOLD: &str = "\x1b[1m";
    const DIM: &str = "\x1b[2m";
    const GREEN: &str = "\x1b[32m";
    const CYAN: &str = "\x1b[36m";
    let mut text = String::new();

    let scenario_width = rows
        .iter()
        .map(|row| row.description.chars().count())
        .chain(std::iter::once("Scenario".len()))
        .max()
        .unwrap_or(20);
    let mut widths: Vec<usize> = order.iter().map(|library| library.len().max(10)).collect();
    for row in rows {
        for (index, library) in order.iter().enumerate() {
            widths[index] = widths[index].max(row.cell(library).chars().count());
        }
    }
    let fastest_width = order.iter().map(|library| library.len()).max().unwrap_or(7).max(7);

    text.push_str(&format!("\n{BOLD}{CYAN}  "));
    text.push_str(&order.join(" vs "));
    text.push_str(&format!("{RESET}\n"));
    let mut header = format!("  {}", pad("Scenario", scenario_width));
    for (index, library) in order.iter().enumerate() {
        header.push_str(&format!("  {}", pad(library, widths[index])));
    }
    header.push_str(&format!("  {}  speedup", pad("fastest", fastest_width)));
    text.push_str(&format!("{DIM}{header}{RESET}\n"));
    let total: usize =
        scenario_width + widths.iter().map(|width| width + 2).sum::<usize>() + fastest_width + 13;
    text.push_str(&format!("  {}\n", "-".repeat(total)));
    for row in rows {
        let fastest = row.fastest();
        let mut line = format!("  {}", pad(row.description, scenario_width));
        for (index, library) in order.iter().enumerate() {
            let cell = pad(&row.cell(library), widths[index]);
            if Some(library) == fastest {
                line.push_str(&format!("  {GREEN}{cell}{RESET}"));
            } else {
                line.push_str(&format!("  {cell}"));
            }
        }
        match (fastest, row.speedup_over_next()) {
            (Some(library), Some(ratio)) => {
                line.push_str(&format!("  {GREEN}{}{RESET}  {ratio:.2}x", pad(library, fastest_width)));
            }
            (Some(library), None) => {
                line.push_str(&format!("  {GREEN}{}{RESET}  -", pad(library, fastest_width)));
            }
            _ => {
                line.push_str(&format!("  {}  -", pad("-", fastest_width)));
            }
        }
        text.push_str(&format!("{line}\n"));
    }
    text.push('\n');
    text
}

fn expected_markdown(order: &[String], rows: &[Expected], timestamp: &str) -> String {
    let mut out = String::new();
    out.push_str("# ECS benchmark comparison\n\n");
    out.push_str(&format!("_Generated {timestamp}._\n\n"));
    out.push_str(
        "Times are Criterion mean estimates (lower is better). Speedup is how much \
         faster the winner is than the next-fastest implementation.\n\n",
    );
    out.push_str("| Scenario |");
    for library in order {
        out.push_str(&format!(" {library} |"));
    }
    out.push_str(" Fastest | Speedup |\n");
    out.push_str("| --- |");
    for _ in order {
        out.push_str(" ---: |");
    }
    out.push_str(" :---: | ---: |\n");
    for row in rows {
        out.push_str(&format!("| {} |", row.description));
        for library in order {
            out.push_str(&format!(" {} |", row.cell(library)));
        }
        let fastest = row.fastest().map(String::as_str).unwrap_or("-");
        let speedup = row
            .speedup_over_next()
            .map(|ratio| format!("{ratio:.2}x"))
            .unwrap_or_else(|| "-".into());
        out.push_str(&format!(" {fastest} | {speedup} |\n"));
    }
    out.push_str("\n## Scenario definitions\n\n");
    for (id, description) in scenarios() {
        out.push_str(&format!("- **`{id}`**: {description}\n"));
    }
    out.push_str("\nDetailed per-benchmark plots live under `target/criterion/`.\n");
    out
}

fn sample() -> (Vec<String>, Vec<Expected>) {
    let order: Vec<String> = ["freecs", "bevy", "skyecs", "a_very_long_library_name"]
        .iter()
        .map(|s| s.to_string())
        .collect();
    let mut rows = Vec::new();
    let mut first = BTreeMap::new();
    first.insert("freecs".to_string(), 159_940.0);
    first.insert("bevy".to_string(), 248_020.0);
    first.insert("skyecs".to_string(), 81_920.0);
    rows.push(Expected { description: "Insert 10K entities, 4 components each", values: first });
    let mut second = BTreeMap::new();
    second.insert("bevy".to_string(), 7.25);
    rows.push(Expected { description: "Only one library", values: second });
    rows.push(Expected { description: "Nothing measured", values: BTreeMap::new() });
    let mut fourth = BTreeMap::new();
    fourth.insert("a_very_long_library_name".to_string(), 2_500_000_000.0);
    fourth.insert("freecs".to_string(), 3_000_000.0);
    fourth.insert("skyecs".to_string(), 3_000_000.0);
    rows.push(Expected { description: "Ties and a slow one", values: fourth });
    (order, rows)
}

#[test]
fn terminal_table_matches_report_layout() {
    let (order, expected) = sample();
    let rows: Vec<Row> = expected.iter().map(Expected::to_row).collect();
    assert_eq!(terminal_table(&order, &rows).unwrap(), expected_table(&order, &expected));
}

#[test]
fn terminal_table_without_rows() {
    let order = vec!["freecs".to_string()];
    assert_eq!(terminal_table(&order, &Vec::new()).unwrap(), expected_table(&order, &[]));
}

#[test]
fn terminal_table_header_exact() {
    let order = vec!["bevy".to_string()];
    let mut values = BTreeMap::new();
    values.insert("bevy".to_string(), 12.0);
    let rows = vec![Expected { description: "S", values }.to_row()];
    let table = terminal_table(&order, &rows).unwrap();
    let expected = format!(
        "\n\x1b[1m\x1b[36m  bevy\x1b[0m\n\x1b[2m  Scenario  bevy        fastest  speedup\x1b[0m\n  {}\n  S         \x1b[32m12.0 ns   \x1b[0m  \x1b[32mbevy   \x1b[0m  -\n\n",
        "-".repeat(8 + 12 + 7 + 13)
    );
    assert_eq!(table, expected);
}

#[test]
fn markdown_report_matches_report_text() {
    let (order, expected) = sample();
    let rows: Vec<Row> = expected.iter().map(Expected::to_row).collect();
    let timestamp = "2024-08-30 14:57:49 UTC";
    assert_eq!(
        markdown_report(&order, &rows, timestamp),
        expected_markdown(&order, &expected, timestamp)
    );
}

#[test]
fn markdown_row_exact() {
    let order = vec!["freecs".to_string(), "skyecs".to_string()];
    let mut values = BTreeMap::new();
    values.insert("freecs".to_string(), 2_000.0);
    values.insert("skyecs".to_string(), 1_000.0);
    let rows = vec![Expected { description: "Demo", values }.to_row()];
    let report = markdown_report(&order, &rows, "T");
    assert!(report.starts_with("# ECS benchmark comparison\n\n_Generated T._\n\n"));
    assert!(report.contains(
        "| Scenario | freecs | skyecs | Fastest | Speedup |\n| --- | ---: | ---: | :---: | ---: |\n| Demo | 2.00 us | 1.00 us | skyecs | 2.00x |\n"
    ));
    assert!(report.contains("- **`add_remove`**: Add then remove a component on 10K entities\n"));
    assert!(report.ends_with("\nDetailed per-benchmark plots live under `target/criterion/`.\n"));
}

fn visible(line: &str) -> String {
    let mut out = String::new();
    let mut chars = line.chars();
    while let Some(c) = chars.next() {
        if c == '\x1b' {
            for d in chars.by_ref() {
                if d == 'm' {
                    break;
                }
            }
        } else {
            out.push(c);
        }
    }
    out
}

#[test]
fn terminal_columns_line_up() {
    let (order, expected) = sample();
    let rows: Vec<Row> = expected.iter().map(Expected::to_row).collect();
    let table = terminal_table(&order, &rows).unwrap();
    let lines: Vec<String> = table.lines().map(visible).collect();
    let header = &lines[2];
    let scenario_end = header.find("freecs").unwrap();
    let fastest_start = header.find("fastest").unwrap();
    for line in &lines[4..4 + rows.len()] {
        assert!(line.chars().count() >= fastest_start);
        assert_eq!(line.chars().nth(scenario_end - 1), Some(' '));
        assert_eq!(line.chars().nth(fastest_start - 1), Some(' '));
    }
    assert_eq!(lines[3].trim_start().len(), header.chars().count());
}
