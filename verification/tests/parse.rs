use gradu::parse::{error_start, location_to_line_col, report_at, ErrorPos};

#[test]
fn offset_on_second_line() {
    assert_eq!(location_to_line_col("ab\ncd", 4), (2, 2, String::from("cd")));
    assert_eq!(location_to_line_col("ab\ncd", 0), (1, 1, String::from("ab")));
    assert_eq!(location_to_line_col("ab\ncd", 3), (2, 1, String::from("cd")));
}

#[test]
fn offset_past_the_end() {
    assert_eq!(location_to_line_col("ab\n", 10), (2, 1, String::from("ab")));
    assert_eq!(location_to_line_col("", 3), (1, 1, String::new()));
}

#[test]
fn offsets_count_bytes() {
    // 'é' takes two bytes: byte 3 is the 'x'
    assert_eq!(location_to_line_col("éx\ny", 2), (1, 2, String::from("éx")));
    // byte 1 lies inside 'é': no character starts there
    assert_eq!(location_to_line_col("éx", 1), (1, 3, String::from("éx")));
}

#[test]
fn report_lines() {
    let r = report_at("let x\nfoo bar", 10);
    assert_eq!(r, vec![String::from("Error at line 2, col 5"), String::from("ERR: foo bar"), String::from("ERR:      ^")]);
}

#[test]
fn error_starts() {
    assert_eq!(error_start(&ErrorPos::InvalidToken(4)), 4);
    assert_eq!(error_start(&ErrorPos::UnrecognizedToken(2, 6)), 2);
    assert_eq!(error_start(&ErrorPos::User), 0);
}
