use y_game::positions::parse_positions;

#[test]
fn reads_one_line() {
    assert_eq!(
        parse_positions(b"1 2 3 4 1 -5"),
        Some(vec![(1, 2, 3, 4, 1, -5)])
    );
}

#[test]
fn reads_several_lines_with_extra_words() {
    assert_eq!(
        parse_positions(b"  7\t8 340282366920938463463374607431768211455 0 2 +17 extra\n0 0 5 6 255 -2147483648"),
        Some(vec![
            (7, 8, u128::MAX, 0, 2, 17),
            (0, 0, 5, 6, 255, i32::MIN),
        ])
    );
}

#[test]
fn trailing_line_feed_leaves_an_empty_line() {
    assert_eq!(parse_positions(b"1 2 3 4 1 5\n"), None);
}

#[test]
fn short_line_is_refused() {
    assert_eq!(parse_positions(b"1 2 3 4 1"), None);
    assert_eq!(parse_positions(b""), None);
}

#[test]
fn bad_numbers_are_refused() {
    assert_eq!(parse_positions(b"1 2 3 4 256 5"), None);
    assert_eq!(parse_positions(b"4294967296 2 3 4 1 5"), None);
    assert_eq!(parse_positions(b"-1 2 3 4 1 5"), None);
    assert_eq!(parse_positions(b"1 2 3 4 1 2147483648"), None);
    assert_eq!(parse_positions(b"1 2 3 4 1 -"), None);
    assert_eq!(parse_positions(b"1 + 3 4 1 5"), None);
    assert_eq!(parse_positions(b"1 2 3x 4 1 5"), None);
    assert_eq!(parse_positions(b"1 2 340282366920938463463374607431768211456 4 1 5"), None);
}

#[test]
fn agrees_with_str_parse() {
    for tok in ["0", "+0", "-0", "12", "+12", "-12", "007", "2147483647", "-2147483648", "99999999999"] {
        let line = format!("1 2 3 4 5 {tok}");
        let expected = tok.parse::<i32>().ok().map(|v| vec![(1, 2, 3, 4, 5, v)]);
        assert_eq!(parse_positions(line.as_bytes()), expected);
    }
}
