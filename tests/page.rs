use kegerator::{display_readings, render_page, HomeBrew, TapReadings};

fn readings(one: &str) -> TapReadings {
    TapReadings {
        tap_one: HomeBrew::from_raw(one.to_string(), "9.5").unwrap(),
        tap_two: HomeBrew::from_raw("Stout".to_string(), "19").unwrap(),
        tap_three: HomeBrew::from_raw("Porter".to_string(), "-0.25").unwrap(),
    }
}

#[test]
fn page_lists_the_three_taps() {
    let page = render_page(&display_readings(readings("Pale Ale")));
    let expected = "<!doctype html>\n<html>\n    <head><title>Kegerator</title></head>\n    <body>\n        <h1>Taps</h1>\n        <ul>\n            <li>Pale Ale: 50% (9.5 left)</li>\n            <li>Stout: 100% (19 left)</li>\n            <li>Porter: -1% (-0.25 left)</li>\n        </ul>\n    </body>\n</html>\n";
    assert_eq!(page, expected);
}

#[test]
fn page_escapes_tap_names() {
    let page = render_page(&display_readings(readings("A<B & 'C' \"D\">")));
    assert!(page.contains("<li>A&lt;B &amp; &#x27;C&#x27; &quot;D&quot;&gt;: 50% (9.5 left)</li>"));
}

#[test]
fn page_is_byte_identical_when_rendered_again() {
    let a = render_page(&display_readings(readings("Pale Ale")));
    let b = render_page(&display_readings(readings("Pale Ale")));
    assert_eq!(a.as_bytes(), b.as_bytes());
}
