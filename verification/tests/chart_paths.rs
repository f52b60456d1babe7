use dashdust::chart::{chart_slot, svg_area};

fn texts(v: &[&str]) -> Vec<String> {
    v.iter().map(|s| s.to_string()).collect()
}

#[test]
fn fewer_than_two_points_draw_nothing() {
    let (line, area) = svg_area(&texts(&[]), &texts(&[]), &"80.0".to_string());
    assert_eq!(line, "");
    assert_eq!(area, "");
    let (line, area) = svg_area(&texts(&["400.0"]), &texts(&["2.0"]), &"80.0".to_string());
    assert_eq!(line, "");
    assert_eq!(area, "");
}

#[test]
fn line_and_area_paths() {
    let xs = texts(&["386.4", "393.2", "400.0"]);
    let ys = texts(&["78.0", "40.0", "2.0"]);
    let (line, area) = svg_area(&xs, &ys, &"80.0".to_string());
    assert_eq!(line, "M386.4 78.0 L393.2 40.0 L400.0 2.0");
    assert_eq!(area, "M386.4 78.0 L393.2 40.0 L400.0 2.0 L400.0 80.0 L386.4 80.0Z");
}

#[test]
fn newest_sample_takes_the_last_slot() {
    assert_eq!(chart_slot(60, 59), 59);
    assert_eq!(chart_slot(60, 0), 0);
    assert_eq!(chart_slot(3, 0), 57);
    assert_eq!(chart_slot(3, 2), 59);
    assert_eq!(chart_slot(1, 0), 59);
}
