use kegerator::{display_readings, format_tap, HomeBrew, ReadError, TapReadings, Volume};

fn vol(units: i128, scale: u32) -> Volume {
    Volume { units, scale, shift: 0 }
}

fn big(units: i128, shift: u32) -> Volume {
    Volume { units, scale: 0, shift }
}

fn brew(name: &str, state: &str) -> HomeBrew {
    HomeBrew::from_raw(name.to_string(), state).expect("a decimal state")
}

fn text(v: &Volume) -> String {
    v.to_text()
}

#[test]
fn percent_of_half_keg_is_fifty() {
    assert_eq!(vol(95, 1).percent(), "50");
}

#[test]
fn percent_of_full_keg_is_hundred() {
    assert_eq!(vol(19, 0).percent(), "100");
}

#[test]
fn percent_of_empty_keg_is_zero() {
    assert_eq!(vol(0, 0).percent(), "0");
}

#[test]
fn percent_rounds_to_nearest() {
    // 1 / 19 * 100 = 5.26..., 10 / 19 * 100 = 52.63...
    assert_eq!(vol(1, 0).percent(), "5");
    assert_eq!(vol(10, 0).percent(), "53");
    // 0.095 / 19 * 100 = 0.5 exactly: halves round away from zero.
    assert_eq!(vol(95, 3).percent(), "1");
    assert_eq!(vol(-95, 3).percent(), "-1");
}

#[test]
fn percent_is_not_clamped() {
    assert_eq!(vol(38, 0).percent(), "200");
    assert_eq!(vol(-1, 0).percent(), "-5");
}

#[test]
fn every_whole_state_of_a_keg_stays_in_range() {
    for units in 0..=19i128 {
        let p: i128 = vol(units, 0).percent().parse().unwrap();
        assert!((0..=100).contains(&p));
        let expected = ((units as f64 / 19.0) * 100.0).round() as i128;
        assert_eq!(p, expected);
    }
}

#[test]
fn parse_reads_whole_and_fractional_quantities() {
    assert_eq!(Volume::parse("19"), Some(vol(19, 0)));
    assert_eq!(Volume::parse("9.5"), Some(vol(95, 1)));
    assert_eq!(Volume::parse("-0.25"), Some(vol(-25, 2)));
    assert_eq!(Volume::parse("007"), Some(vol(7, 0)));
    assert_eq!(Volume::parse("19.0"), Some(vol(190, 1)));
}

#[test]
fn parse_refuses_what_is_not_a_decimal() {
    for bad in ["", "-", "abc", "1.", ".5", "1.2.3", "--1", "1e3", " 1", "nine"] {
        assert_eq!(Volume::parse(bad), None, "{bad:?}");
    }
}

#[test]
fn parse_reads_every_size_a_volume_holds() {
    assert_eq!(Volume::parse("0.30000000000000004"), Some(vol(30000000000000004, 17)));
    assert_eq!(Volume::parse("18446744073709551615"), Some(vol(18446744073709551615, 0)));
    assert_eq!(Volume::parse("-9223372036854775808"), Some(vol(-9223372036854775808, 0)));
    assert_eq!(Volume::parse("0.000012345678901234567"), Some(vol(12345678901234567, 21)));
    assert_eq!(Volume::parse("0.000000000000000001"), Some(vol(1, 18)));
    assert_eq!(
        Volume::parse("999999999999999999999999999999"),
        Some(vol(999999999999999999999999999999, 0))
    );
    assert_eq!(Volume::parse("0000000000000000000000000000000000000001"), Some(vol(1, 0)));
}

#[test]
fn parse_refuses_what_a_volume_cannot_hold() {
    assert_eq!(Volume::parse("1000000000000000000000000000000"), None);
    assert_eq!(Volume::parse("99999999999999999999.99999999999"), None);
    let tiny = format!("0.{}1", "0".repeat(340));
    assert_eq!(Volume::parse(&tiny), None);
    assert_eq!(Volume::parse("0.0000000000000000000000000000001"), Some(vol(1, 31)));
}

#[test]
fn text_of_quantities() {
    assert_eq!(text(&vol(95, 1)), "9.5");
    assert_eq!(text(&vol(-25, 2)), "-0.25");
    assert_eq!(text(&vol(5, 3)), "0.005");
    assert_eq!(text(&vol(19, 0)), "19");
    assert_eq!(text(&vol(0, 0)), "0");
}

#[test]
fn text_reads_back_as_the_same_quantity() {
    for v in [
        vol(95, 1),
        vol(-25, 2),
        vol(5, 3),
        vol(19, 0),
        vol(0, 2),
        vol(-7, 0),
        vol(1, 18),
        vol(1, 30),
        vol(-999999999999999999999999999999, 30),
        vol(999999999999999999999999999999, 0),
        vol(5, 324),
        big(17976931348623157, 292),
        big(-1, 1),
    ] {
        assert!(v.is_wf());
        assert_eq!(Volume::read(&text(&v)), Some(v));
        let h = HomeBrew::from_raw("Stout".to_string(), &text(&v)).expect("reads back");
        assert_eq!(h.state, v);
    }
}

#[test]
fn is_wf_follows_the_bounds() {
    assert!(!vol(1, 341).is_wf());
    assert!(!big(1, 309).is_wf());
    assert!(!Volume { units: 1, scale: 1, shift: 1 }.is_wf());
    assert!(!vol(1000000000000000000000000000000, 0).is_wf());
    assert!(!vol(-1000000000000000000000000000000, 0).is_wf());
    assert!(!vol(i128::MIN, 0).is_wf());
}

#[test]
fn format_tap_keeps_name_and_volume() {
    let t = format_tap(brew("Stout", "9.5"));
    assert_eq!(t.name, "Stout");
    assert_eq!(t.state, "50");
    assert_eq!(t.volume_left, vol(95, 1));
}

#[test]
fn readings_with_long_numbers_survive_the_json_schema() {
    let r = TapReadings {
        tap_one: brew("a", "0.30000000000000004"),
        tap_two: brew("b", "18446744073709551615"),
        tap_three: brew("c", "1e-31"),
    };
    let back = decode(&encode(&r)).expect("decodes");
    for (x, y) in [(&r.tap_one, &back.tap_one), (&r.tap_two, &back.tap_two), (&r.tap_three, &back.tap_three)] {
        assert_eq!(x.name, y.name);
        assert_eq!(x.state, y.state);
    }
}

fn sample() -> TapReadings {
    TapReadings {
        tap_one: brew("Pale Ale", "19"),
        tap_two: brew("Stout", "9.5"),
        tap_three: brew("Porter", "0"),
    }
}

#[test]
fn display_keeps_each_tap_in_place() {
    let d = display_readings(sample());
    assert_eq!((d.tap_one.name.as_str(), d.tap_one.state.as_str()), ("Pale Ale", "100"));
    assert_eq!((d.tap_two.name.as_str(), d.tap_two.state.as_str()), ("Stout", "50"));
    assert_eq!((d.tap_three.name.as_str(), d.tap_three.state.as_str()), ("Porter", "0"));
}

#[test]
fn display_is_repeatable() {
    let a = display_readings(sample());
    let b = display_readings(sample());
    for (x, y) in [(&a.tap_one, &b.tap_one), (&a.tap_two, &b.tap_two), (&a.tap_three, &b.tap_three)] {
        assert_eq!(x.name, y.name);
        assert_eq!(x.state, y.state);
        assert_eq!(x.volume_left, y.volume_left);
    }
}

#[test]
fn wrong_typed_state_is_a_parse_error() {
    assert!(matches!(
        HomeBrew::from_raw("Stout".to_string(), "\"nine\""),
        Err(ReadError::Parse)
    ));
}

#[test]
fn read_failures_are_server_errors() {
    assert_eq!(ReadError::Io.status(), 500);
    assert_eq!(ReadError::Parse.status(), 500);
}

fn encode(r: &TapReadings) -> String {
    let mut doc = serde_json::Map::new();
    for (key, h) in [("tap_one", &r.tap_one), ("tap_two", &r.tap_two), ("tap_three", &r.tap_three)] {
        let mut rec = serde_json::Map::new();
        rec.insert("name".to_string(), serde_json::Value::String(h.name.clone()));
        let state: serde_json::Value = serde_json::from_str(&text(&h.state)).unwrap();
        rec.insert("state".to_string(), state);
        doc.insert(key.to_string(), serde_json::Value::Object(rec));
    }
    serde_json::Value::Object(doc).to_string()
}

fn decode(json: &str) -> Result<TapReadings, ReadError> {
    let doc: serde_json::Value = serde_json::from_str(json).map_err(|_| ReadError::Parse)?;
    let one = |key: &str| -> Result<HomeBrew, ReadError> {
        let rec = doc.get(key).ok_or(ReadError::Parse)?;
        let name = rec.get("name").and_then(|n| n.as_str()).ok_or(ReadError::Parse)?;
        let state = rec.get("state").ok_or(ReadError::Parse)?;
        let state = match state {
            serde_json::Value::Number(n) => n.to_string(),
            _ => return Err(ReadError::Parse),
        };
        HomeBrew::from_raw(name.to_string(), &state)
    };
    Ok(TapReadings { tap_one: one("tap_one")?, tap_two: one("tap_two")?, tap_three: one("tap_three")? })
}

#[test]
fn readings_survive_the_json_schema() {
    let r = sample();
    let back = decode(&encode(&r)).expect("decodes");
    for (x, y) in [(&r.tap_one, &back.tap_one), (&r.tap_two, &back.tap_two), (&r.tap_three, &back.tap_three)] {
        assert_eq!(x.name, y.name);
        assert_eq!(x.state, y.state);
    }
}

#[test]
fn missing_state_field_is_a_parse_error() {
    let json = r#"{"tap_one":{"name":"a"},"tap_two":{"name":"b","state":1},"tap_three":{"name":"c","state":2}}"#;
    assert!(matches!(decode(json), Err(ReadError::Parse)));
}

#[test]
fn read_takes_exponent_notation() {
    assert_eq!(Volume::read("1e-18"), Some(vol(1, 18)));
    assert_eq!(Volume::read("1e-06"), Some(vol(1, 6)));
    assert_eq!(Volume::read("2.5E+3"), Some(big(25, 2)));
    assert_eq!(Volume::read("1.25e1"), Some(vol(125, 1)));
    assert_eq!(Volume::read("12e-1"), Some(vol(12, 1)));
    assert_eq!(Volume::read("-1.5e20"), Some(big(-15, 19)));
    assert_eq!(Volume::read("9.5"), Some(vol(95, 1)));
}

#[test]
fn read_takes_every_finite_double_as_serde_json_writes_it() {
    assert_eq!(Volume::read("1e-31"), Some(vol(1, 31)));
    assert_eq!(Volume::read("5e-324"), Some(vol(5, 324)));
    assert_eq!(Volume::read("2.2250738585072014e-308"), Some(vol(22250738585072014, 324)));
    assert_eq!(Volume::read("1e30"), Some(big(1, 30)));
    assert_eq!(Volume::read("1e308"), Some(big(1, 308)));
    assert_eq!(Volume::read("1.7976931348623157e308"), Some(big(17976931348623157, 292)));
    assert_eq!(Volume::read("-1.7976931348623157e308"), Some(big(-17976931348623157, 292)));
    assert_eq!(Volume::read("18446744073709551615"), Some(vol(18446744073709551615, 0)));
}

#[test]
fn read_refuses_what_does_not_fit_or_is_malformed() {
    for bad in ["1e309", "1e-341", "0e999999999999999999999999999999999", "1e", "e5", "1e+-3", "1.e3", "1e3.5", "1ee3", ""] {
        assert_eq!(Volume::read(bad), None, "{bad:?}");
    }
}

#[test]
fn percent_of_huge_and_tiny_volumes() {
    assert_eq!(big(1, 308).percent(), "526315789473684210526315789473684210526315789473684210526315789473684210526315789473684210526315789473684210526315789473684210526315789473684210526315789473684210526315789473684210526315789473684210526315789473684210526315789473684210526315789473684210526315789473684210526315789473684210526315789473684210526");
    assert_eq!(big(17976931348623157, 292).percent(), "946154281506481947368421052631578947368421052631578947368421052631578947368421052631578947368421052631578947368421052631578947368421052631578947368421052631578947368421052631578947368421052631578947368421052631578947368421052631578947368421052631578947368421052631578947368421052631578947368421052631578947368");
    assert_eq!(big(-15, 19).percent(), "-789473684210526315789");
    assert_eq!(big(25, 2).percent(), "13158");
    assert_eq!(vol(5, 324).percent(), "0");
    assert_eq!(vol(-5, 324).percent(), "0");
    assert_eq!(vol(1, 31).percent(), "0");
}

#[test]
fn text_of_shifted_and_tiny_volumes() {
    assert_eq!(text(&big(17976931348623157, 292)), "17976931348623157e292");
    assert_eq!(text(&vol(1, 31)), format!("0.{}1", "0".repeat(30)));
    assert_eq!(Volume::read(&text(&vol(5, 324))), Some(vol(5, 324)));
    assert_eq!(Volume::read(&text(&big(-3, 300))), Some(big(-3, 300)));
}

#[test]
fn exponent_state_reads_into_a_reading() {
    let h = HomeBrew::from_raw("Stout".to_string(), "9.5e0").unwrap();
    assert_eq!(h.state, vol(95, 1));
    assert_eq!(format_tap(h).state, "50");
    let tiny = HomeBrew::from_raw("Stout".to_string(), "1e-31").unwrap();
    assert_eq!(format_tap(tiny).state, "0");
}
