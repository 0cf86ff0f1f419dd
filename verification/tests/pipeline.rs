use mackerel_plugin::graph::any_diff;
use mackerel_plugin::name::qualified_graph_name;
use mackerel_plugin::pipeline::{emit_values, EmittedKind, EmittedValue};
use mackerel_plugin::snapshot::{decode_snapshot, encode_snapshot};
use mackerel_plugin::{Graph, Metric, ReadingSet, Unit};

fn graph(name: &str, metrics: Vec<Metric>) -> Graph {
    Graph {
        name: name.to_string(),
        label: "Test".to_string(),
        unit: Unit::from_name("integer").unwrap(),
        metrics,
    }
}

fn metric(name: &str, diff: bool) -> Metric {
    Metric::new(name.to_string(), name.to_string(), false, diff)
}

fn names(out: &[EmittedValue]) -> Vec<String> {
    out.iter().map(|e| e.name.clone()).collect()
}

#[test]
fn non_diff_metric_emits_the_raw_reading() {
    // a plugin with one non-diff metric dice.d6=3 and schema dice{d6,d20}
    let graphs = vec![graph("dice", vec![metric("d6", false), metric("d20", false)])];
    let mut current = ReadingSet::new(17);
    current.insert("dice.d6".to_string(), 3.0f64.to_bits());
    let previous = ReadingSet::new(0);
    let out = emit_values("", &graphs, &current, &previous);
    assert_eq!(out.len(), 1);
    assert_eq!(out[0].name, "dice.d6");
    assert_eq!(out[0].kind, EmittedKind::Raw { value: 3.0f64.to_bits() });
    // the line a serializer would print
    match out[0].kind {
        EmittedKind::Raw { value } => {
            let line = format!("{}\t{}\t{}", out[0].name, f64::from_bits(value), 17);
            assert_eq!(line, "dice.d6\t3\t17");
        }
        _ => unreachable!(),
    }
    // no metric asks for a rate, so no snapshot storage is touched
    assert!(!any_diff(&graphs));
}

#[test]
fn diff_metric_emits_nothing_first_and_a_rate_second() {
    let graphs = vec![graph(
        "foobar",
        vec![metric("diff", true), metric("nodiff", false)],
    )];
    assert!(any_diff(&graphs));

    // first run: no previous snapshot
    let mut current = ReadingSet::new(1000);
    current.insert("foobar.diff".to_string(), 100.0f64.to_bits());
    current.insert("foobar.nodiff".to_string(), 7.0f64.to_bits());
    let empty = ReadingSet::new(0);
    let out1 = emit_values("", &graphs, &current, &empty);
    assert_eq!(names(&out1), vec!["foobar.nodiff".to_string()]);

    // the snapshot store keeps the current readings for the next run
    let persisted = encode_snapshot(&current);
    let previous = decode_snapshot(&persisted).unwrap();

    // second run, one second later, the raw value up by one
    let mut current2 = ReadingSet::new(1001);
    current2.insert("foobar.diff".to_string(), 101.0f64.to_bits());
    current2.insert("foobar.nodiff".to_string(), 7.0f64.to_bits());
    let out2 = emit_values("", &graphs, &current2, &previous);
    assert_eq!(out2.len(), 2);
    assert_eq!(out2[0].name, "foobar.diff");
    match out2[0].kind {
        EmittedKind::Rate { sample } => {
            assert_eq!(sample.elapsed, 1);
            let rate = (f64::from_bits(sample.value) - f64::from_bits(sample.prev_value))
                / (sample.elapsed as f64 / 60.0);
            assert_eq!(rate, 60.0);
        }
        _ => unreachable!(),
    }
    assert_eq!(out2[1].name, "foobar.nodiff");
}

#[test]
fn absent_literal_names_emit_nothing() {
    let graphs = vec![graph("dice", vec![metric("d20", false)])];
    let mut current = ReadingSet::new(17);
    current.insert("dice.d6".to_string(), 3.0f64.to_bits());
    let previous = ReadingSet::new(0);
    let out = emit_values("", &graphs, &current, &previous);
    assert!(out.is_empty());
}

#[test]
fn non_finite_raw_readings_are_dropped() {
    let graphs = vec![graph("x", vec![metric("*", false)])];
    let mut current = ReadingSet::new(17);
    current.insert("x.nan".to_string(), f64::NAN.to_bits());
    current.insert("x.inf".to_string(), f64::INFINITY.to_bits());
    current.insert("x.neginf".to_string(), f64::NEG_INFINITY.to_bits());
    current.insert("x.ok".to_string(), 1.0f64.to_bits());
    let previous = ReadingSet::new(0);
    let out = emit_values("", &graphs, &current, &previous);
    assert_eq!(names(&out), vec!["x.ok".to_string()]);
}

#[test]
fn wildcard_expansion_respects_segment_rules() {
    let graphs = vec![graph(
        "inode.percentage.#",
        vec![Metric::new("used".to_string(), "used %".to_string(), false, false)],
    )];
    let mut current = ReadingSet::new(42);
    current.insert("inode.percentage.sda1.used".to_string(), 48.2f64.to_bits());
    current.insert(
        "inode.percentage.sda-2_1Z.used".to_string(),
        63.7f64.to_bits(),
    );
    current.insert(
        "inode.percentage.sda3.used.etc".to_string(),
        72.1f64.to_bits(),
    );
    current.insert("inode.percentage..used".to_string(), 36.2f64.to_bits());
    let previous = ReadingSet::new(0);
    let out = emit_values("", &graphs, &current, &previous);
    let got = names(&out);
    assert_eq!(got.len(), 2);
    assert!(got.contains(&"inode.percentage.sda1.used".to_string()));
    assert!(got.contains(&"inode.percentage.sda-2_1Z.used".to_string()));
}

#[test]
fn the_key_prefix_is_applied_to_output_names() {
    let graphs = vec![graph(
        "percentage.#",
        vec![Metric::new("used".to_string(), "used %".to_string(), false, false)],
    )];
    let mut current = ReadingSet::new(42);
    current.insert("percentage.sda1.used".to_string(), 48.2f64.to_bits());
    current.insert("count.sda1.used".to_string(), 1.0f64.to_bits());
    let previous = ReadingSet::new(0);
    let out = emit_values("inode", &graphs, &current, &previous);
    assert_eq!(names(&out), vec!["inode.percentage.sda1.used".to_string()]);
}

#[test]
fn empty_graph_names_leave_metric_names_alone() {
    let graphs = vec![graph(
        "",
        vec![Metric::new("uptime".to_string(), "uptime".to_string(), false, false)],
    )];
    let mut current = ReadingSet::new(123456);
    current.insert("uptime".to_string(), 123456.0f64.to_bits());
    current.insert("foobar".to_string(), 456789.0f64.to_bits());
    let previous = ReadingSet::new(0);
    let out = emit_values("uptime", &graphs, &current, &previous);
    assert_eq!(names(&out), vec!["uptime.uptime".to_string()]);
}

#[test]
fn qualified_graph_names_follow_the_prefix_rules() {
    assert_eq!(qualified_graph_name("", "dice"), "dice");
    assert_eq!(qualified_graph_name("inode", ""), "inode");
    assert_eq!(
        qualified_graph_name("inode", "percentage.#"),
        "inode.percentage.#"
    );
}
