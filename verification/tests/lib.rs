use mackerel_plugin::{Graph, Metric, Unit};

#[test]
fn lib_graph_has_diff() {
    let graph1 = Graph {
        name: "sample.foobar".to_string(),
        label: "Foo bar".to_string(),
        unit: Unit::from_name("integer").unwrap(),
        metrics: vec![
            Metric::new("foo".to_string(), "Foo metric".to_string(), false, false),
            Metric::new("bar".to_string(), "Bar metric".to_string(), true, false),
            Metric::new("baz".to_string(), "Baz metric".to_string(), false, true),
            Metric::new("qux".to_string(), "Qux metric".to_string(), true, true),
        ],
    };
    assert_eq!(graph1.has_diff(), true);
    let graph2 = Graph {
        name: "sample.foobar".to_string(),
        label: "Foo bar".to_string(),
        unit: Unit::from_name("integer").unwrap(),
        metrics: vec![
            Metric::new("foo".to_string(), "Foo metric".to_string(), false, false),
            Metric::new("bar".to_string(), "Bar metric".to_string(), true, false),
            Metric::new("baz".to_string(), "Baz metric".to_string(), false, false),
            Metric::new("qux".to_string(), "Qux metric".to_string(), true, false),
        ],
    };
    assert_eq!(graph2.has_diff(), false);
}
