use sa_psi::points::{parse_point, PointError};

#[test]
fn point_lines_parse_as_written() {
    assert_eq!(parse_point(b"[1, 2, 3, 4]"), Ok([1, 2, 3, 4]));
    assert_eq!(parse_point(b"1,2,3,4"), Ok([1, 2, 3, 4]));
    assert_eq!(parse_point(b" [ +5 ,6,\t7,8 ] "), Ok([5, 6, 7, 8]));
    assert_eq!(
        parse_point(b"[340282366920938463463374607431768211455, 0, 007, 10]"),
        Ok([u128::MAX, 0, 7, 10])
    );
}

#[test]
fn point_lines_with_bad_numbers_are_refused() {
    assert_eq!(parse_point(b""), Err(PointError::Number));
    assert_eq!(parse_point(b"[1, x, 3, 4]"), Err(PointError::Number));
    assert_eq!(parse_point(b"[1,,3,4]"), Err(PointError::Number));
    assert_eq!(parse_point(b"[-1, 2, 3, 4]"), Err(PointError::Number));
    assert_eq!(parse_point(b"[+, 2, 3, 4]"), Err(PointError::Number));
    assert_eq!(parse_point(b"[340282366920938463463374607431768211456, 0, 0, 0]"), Err(PointError::Number));
    assert_eq!(parse_point(b"[1, 2, 3]x"), Err(PointError::Number));
}

#[test]
fn point_lines_with_other_dimensions_are_refused() {
    assert_eq!(parse_point(b"[1, 2, 3]"), Err(PointError::Dimension));
    assert_eq!(parse_point(b"[1, 2, 3, 4, 5]"), Err(PointError::Dimension));
    assert_eq!(parse_point(b"[7]"), Err(PointError::Dimension));
}

#[test]
fn point_lines_agree_with_std_parsing() {
    for line in ["[12, 7, 300, 41]", "[0,0,0,0]", "[ 9 , 8 , 7 , 6 ]"] {
        let trimmed = line.trim_matches(|c: char| c == '[' || c == ']' || c.is_whitespace());
        let nums: Vec<u128> = trimmed.split(',').map(|s| s.trim().parse().unwrap()).collect();
        assert_eq!(parse_point(line.as_bytes()).unwrap().to_vec(), nums);
    }
}

#[test]
fn unicode_white_space_is_trimmed_like_str_trim() {
    assert_eq!(parse_point("\u{a0}1,2,3,4".as_bytes()), Ok([1, 2, 3, 4]));
    assert_eq!(parse_point("[1,\u{3000}2, 3\u{85} ,4]\u{2028}".as_bytes()), Ok([1, 2, 3, 4]));
    assert_eq!(parse_point("\u{1680}[\u{2000}9,\u{200a}8,7\u{202f},6\u{205f}]\u{2029}".as_bytes()), Ok([9, 8, 7, 6]));
    // U+200B (zero width space) is not white space for `char::is_whitespace`.
    assert_eq!(parse_point("[1, \u{200b}2, 3, 4]".as_bytes()), Err(PointError::Number));
    for line in ["\u{a0}1,2,3,4", "[1,\u{3000}2, 3\u{85} ,4]\u{2028}", "[\u{2009}5 ,6,7,8 ]"] {
        let trimmed = line.trim_matches(|c: char| c == '[' || c == ']' || c.is_whitespace());
        let nums: Vec<u128> = trimmed.split(',').map(|s| s.trim().parse().unwrap()).collect();
        assert_eq!(parse_point(line.as_bytes()).unwrap().to_vec(), nums);
    }
}

#[test]
fn debug_written_points_read_back() {
    for p in [[0u128, 1, 2, 3], [u128::MAX, 10, 999_999, 42], [7, 0, 0, 100_000_000_000_000_000_000]] {
        let line = format!("{:?}", p);
        assert_eq!(parse_point(line.as_bytes()), Ok(p));
    }
}
