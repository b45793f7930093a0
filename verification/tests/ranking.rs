use ecs_benchmarking::report::{order_libraries, scenarios};
use ecs_benchmarking::results::{total_order_key, Measurement, Row};

fn names(list: &[&str]) -> Vec<String> {
    list.iter().map(|name| name.to_string()).collect()
}

fn row(description: &str, values: &[(&str, f64)]) -> Row {
    Row {
        description: description.to_string(),
        measurements: values
            .iter()
            .map(|(library, nanos)| Measurement {
                library: library.to_string(),
                nanos_bits: nanos.to_bits(),
                time_text: format!("{nanos}"),
            })
            .collect(),
        speedup_text: None,
    }
}

#[test]
fn preferred_libraries_come_first() {
    let all = names(&["bevy", "custom", "freecs", "skyecs"]);
    assert_eq!(order_libraries(&all), names(&["freecs", "bevy", "skyecs", "custom"]));
}

#[test]
fn all_preferred_in_preferred_order() {
    let all = names(&["bevy", "freecs", "freecs_dyn", "skyecs"]);
    assert_eq!(order_libraries(&all), names(&["freecs", "freecs_dyn", "bevy", "skyecs"]));
}

#[test]
fn other_libraries_keep_their_order() {
    let all = names(&["alpha", "hecs", "zeta"]);
    assert_eq!(order_libraries(&all), names(&["alpha", "hecs", "zeta"]));
    assert_eq!(order_libraries(&Vec::new()), Vec::<String>::new());
}

#[test]
fn scenario_list_in_report_order() {
    let ids: Vec<&str> = scenarios().iter().map(|(id, _)| *id).collect();
    assert_eq!(
        ids,
        vec!["simple_insert", "simple_iter", "fragmented_iter", "heavy_compute", "add_remove", "schedule"]
    );
    assert_eq!(scenarios()[2].1, "Iterate Data across 26 fragmented archetypes");
}

#[test]
fn key_orders_like_total_cmp() {
    let values = [
        f64::NEG_INFINITY,
        -1.0e300,
        -2.5,
        -0.0,
        0.0,
        1.0e-310,
        1.0,
        159.94,
        f64::INFINITY,
        f64::NAN,
        -f64::NAN,
    ];
    for a in values {
        for b in values {
            let by_key = total_order_key(a.to_bits()).cmp(&total_order_key(b.to_bits()));
            assert_eq!(by_key, a.total_cmp(&b), "{a} vs {b}");
        }
    }
}

#[test]
fn key_of_positive_zero_and_negative_zero() {
    assert_eq!(total_order_key(0.0f64.to_bits()), 1u64 << 63);
    assert_eq!(total_order_key((-0.0f64).to_bits()), (1u64 << 63) - 1);
}

#[test]
fn fastest_is_smallest_time() {
    let r = row("x", &[("bevy", 248.02), ("freecs", 159.94), ("skyecs", 81.92)]);
    assert_eq!(r.fastest(), Some(&"skyecs".to_string()));
    assert_eq!(r.fastest_position(), Some(2));
}

#[test]
fn fastest_tie_goes_to_first() {
    let r = row("x", &[("a", 5.0), ("b", 3.0), ("c", 3.0)]);
    assert_eq!(r.fastest(), Some(&"b".to_string()));
}

#[test]
fn fastest_of_empty_row() {
    let r = row("x", &[]);
    assert_eq!(r.fastest(), None);
    assert_eq!(r.speedup_operands(), None);
}

#[test]
fn speedup_operands_pick_two_smallest() {
    let r = row("x", &[("bevy", 248.02), ("freecs", 159.94), ("skyecs", 81.92)]);
    assert_eq!(r.speedup_operands(), Some((2, 1)));
    let one = row("x", &[("bevy", 1.0)]);
    assert_eq!(one.speedup_operands(), None);
}

#[test]
fn speedup_operands_with_tie() {
    let r = row("x", &[("a", 3.0), ("b", 7.0), ("c", 3.0)]);
    assert_eq!(r.speedup_operands(), Some((0, 2)));
}

#[test]
fn cell_shows_time_or_dash() {
    let r = row("x", &[("bevy", 2.5), ("freecs", 1.5)]);
    assert_eq!(r.cell(&"freecs".to_string()), "1.5");
    assert_eq!(r.cell(&"skyecs".to_string()), "-");
}

#[test]
fn column_order_holds_each_library_once() {
    let all = names(&["a", "bevy", "freecs_dyn", "skyecs", "z"]);
    let ordered = order_libraries(&all);
    assert_eq!(ordered.len(), all.len());
    for name in &all {
        assert_eq!(ordered.iter().filter(|other| *other == name).count(), 1);
    }
    assert_eq!(ordered, names(&["freecs_dyn", "bevy", "skyecs", "a", "z"]));
}

#[test]
fn fastest_follows_total_order_at_the_edges() {
    let with_nan = row("x", &[("a", f64::NAN), ("b", 1.0)]);
    assert_eq!(with_nan.fastest(), Some(&"b".to_string()));
    let zeros = row("x", &[("a", 0.0), ("b", -0.0)]);
    assert_eq!(zeros.fastest(), Some(&"b".to_string()));
    assert_eq!(zeros.speedup_operands(), Some((1, 0)));
}

#[test]
fn well_formed_rows() {
    let mut r = row("x", &[("a", 1.0), ("b", 2.0)]);
    assert!(!r.is_well_formed());
    r.speedup_text = Some("2.00".to_string());
    assert!(r.is_well_formed());
    let mut unsorted = row("x", &[("b", 1.0), ("a", 2.0)]);
    unsorted.speedup_text = Some("2.00".to_string());
    assert!(!unsorted.is_well_formed());
    let mut twice = row("x", &[("a", 1.0), ("a", 2.0)]);
    twice.speedup_text = Some("2.00".to_string());
    assert!(!twice.is_well_formed());
    assert!(row("x", &[]).is_well_formed());
    assert!(row("x", &[("only", 1.0)]).is_well_formed());
}

#[test]
fn adding_a_library_keeps_the_other_columns() {
    let before = order_libraries(&names(&["alpha", "bevy", "skyecs"]));
    let after = order_libraries(&names(&["alpha", "bevy", "hecs", "skyecs"]));
    assert_eq!(after, names(&["bevy", "skyecs", "alpha", "hecs"]));
    let without: Vec<String> = after.into_iter().filter(|name| name != "hecs").collect();
    assert_eq!(without, before);
    let with_preferred = order_libraries(&names(&["alpha", "bevy", "freecs", "skyecs"]));
    assert_eq!(with_preferred, names(&["freecs", "bevy", "skyecs", "alpha"]));
}

#[test]
fn other_libraries_follow_in_ascending_order() {
    let ordered = order_libraries(&names(&["alpha", "bevy", "gamma", "hecs", "skyecs", "zeta"]));
    assert_eq!(ordered, names(&["bevy", "skyecs", "alpha", "gamma", "hecs", "zeta"]));
    let others = &ordered[2..];
    assert!(others.windows(2).all(|pair| pair[0] < pair[1]));
}
