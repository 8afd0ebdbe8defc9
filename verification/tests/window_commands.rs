use live_datadash::commands::{get_chart, set_number};

#[test]
fn set_number_adds_ten() {
    assert_eq!(set_number(5), 15);
    assert_eq!(set_number(-10), 0);
    assert_eq!(set_number(i32::MAX - 10), i32::MAX);
}

#[test]
fn sample_chart_renders_as_html() {
    let html = get_chart().unwrap();
    assert!(html.contains("testing"));
    assert!(html.contains("Mon"));
    assert!(html.contains("260"));
    assert!(html.contains("800"));
}
