use mackerel_plugin::Unit;

#[test]
fn unit_names_round_trip() {
    let cases = [
        (Unit::Float, "float"),
        (Unit::Integer, "integer"),
        (Unit::Percentage, "percentage"),
        (Unit::Bytes, "bytes"),
        (Unit::BytesPerSecond, "bytes/sec"),
        (Unit::IOPS, "iops"),
    ];
    for (unit, name) in cases {
        assert_eq!(unit.name(), name);
        assert_eq!(Unit::from_name(name), Some(unit));
    }
}

#[test]
fn unknown_unit_names_are_rejected() {
    assert_eq!(Unit::from_name(""), None);
    assert_eq!(Unit::from_name("Float"), None);
    assert_eq!(Unit::from_name("bytes/second"), None);
    assert_eq!(Unit::from_name("petaflops"), None);
}
