use mackerel_plugin::Metric;

#[test]
fn metric_macro() {
    fn metric(name: &str, label: &str, stacked: bool, diff: bool) -> Metric {
        Metric {
            name: name.to_owned(),
            label: label.to_owned(),
            stacked,
            diff,
        }
    }

    assert_eq!(
        Metric::new("foo".into(), "Foo metric".into(), false, false),
        metric("foo", "Foo metric", false, false)
    );
    assert_eq!(
        Metric::new("foo".into(), "Foo metric".into(), false, false),
        metric("foo", "Foo metric", false, false)
    );
    assert_eq!(
        Metric::new("abcxyzABCXYZ012789-_".into(), "Foo metric".into(), false, false),
        metric("abcxyzABCXYZ012789-_", "Foo metric", false, false)
    );
    assert_eq!(
        Metric::new("*".into(), "Foo metric".into(), false, false),
        metric("*", "Foo metric", false, false)
    );
    assert_eq!(
        Metric::new("#".into(), "Foo metric".into(), false, false),
        metric("#", "Foo metric", false, false)
    );
    assert_eq!(
        Metric::new("foo".into(), "Foo metric".into(), true, false),
        metric("foo", "Foo metric", true, false)
    );
    assert_eq!(
        Metric::new("foo".into(), "Foo metric".into(), false, false),
        metric("foo", "Foo metric", false, false)
    );
    assert_eq!(
        Metric::new("foo".into(), "Foo metric".into(), false, true),
        metric("foo", "Foo metric", false, true)
    );
    assert_eq!(
        Metric::new("foo".into(), "Foo metric".into(), false, false),
        metric("foo", "Foo metric", false, false)
    );
    assert_eq!(
        Metric::new("foo".into(), "Foo metric".into(), false, true),
        metric("foo", "Foo metric", false, true)
    );
    assert_eq!(
        Metric::new("foo".into(), "Foo metric".into(), true, false),
        metric("foo", "Foo metric", true, false)
    );
}
