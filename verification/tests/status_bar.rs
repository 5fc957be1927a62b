use minedesign::ui::elements::status_bar::coordinate_field_text;

#[test]
fn coordinate_field_separates_thousands() {
    assert_eq!(coordinate_field_text("X", Some("1234567.89")), "X: 1,234,567.89");
}

#[test]
fn coordinate_field_keeps_sign_and_decimals() {
    assert_eq!(coordinate_field_text("Y", Some("-12345.60")), "Y: -12,345.60");
}

#[test]
fn coordinate_field_short_value_unchanged() {
    assert_eq!(coordinate_field_text("Z", Some("512.00")), "Z: 512.00");
}

#[test]
fn coordinate_field_without_cursor() {
    assert_eq!(coordinate_field_text("Z", None), "Z: --");
}

#[test]
fn coordinate_field_text_without_digits_is_copied() {
    assert_eq!(coordinate_field_text("X", Some("NaN")), "X: NaN");
}
