use trajview::viewport::fit;

#[test]
fn wider_data_grows_the_vertical_extent() {
    // Box 0..4 by 0..1 against a square display: the height grows to 4,
    // centered on the original vertical midpoint.
    let r = fit(0, 4_000_000, 0, 1_000_000, 1_000_000);
    assert_eq!(r, (0, 4_000_000, -1_500_000, 2_500_000));
}

#[test]
fn taller_data_grows_the_horizontal_extent() {
    let r = fit(0, 1_000_000, 0, 4_000_000, 1_000_000);
    assert_eq!(r, (-1_500_000, 2_500_000, 0, 4_000_000));
}

#[test]
fn matching_aspect_changes_nothing() {
    let r = fit(-2_000_000, 2_000_000, -1_000_000, 1_000_000, 2_000_000);
    assert_eq!(r, (-2_000_000, 2_000_000, -1_000_000, 1_000_000));
}

#[test]
fn wide_display_grows_the_width() {
    // Square data on a 2:1 display: width doubles around its center.
    let r = fit(0, 2_000_000, 0, 2_000_000, 2_000_000);
    assert_eq!(r, (-1_000_000, 3_000_000, 0, 2_000_000));
}

#[test]
fn fit_preserves_the_box_center() {
    let r = fit(1_000_000, 5_000_000, 2_000_000, 3_000_000, 1_500_000);
    assert_eq!(r.0 + r.1, 1_000_000 + 5_000_000);
    assert_eq!(r.2 + r.3, 2_000_000 + 3_000_000);
}
