use triangle_mesh_filler::control_file::{parse_line, parse_number, parse_text};
use triangle_mesh_filler::control_points::{ControlPoints, LoadError};
use triangle_mesh_filler::fixed::{COORD_MAX, ONE};
use triangle_mesh_filler::vector::Vec3;

fn number(word: &str) -> Option<i64> {
    parse_number(word.as_bytes(), 0, word.len())
}

fn sixteen_lines() -> String {
    let mut text = String::new();
    for i in 0..4 {
        for j in 0..4 {
            text.push_str(&format!("{} {}.5 -{}\n", i * 100, j, i + j));
        }
    }
    text
}

#[test]
fn decimal_numbers_are_read_as_millionths() {
    assert_eq!(number("0"), Some(0));
    assert_eq!(number("1"), Some(ONE));
    assert_eq!(number("-1"), Some(-ONE));
    assert_eq!(number("+1"), Some(ONE));
    assert_eq!(number("12.5"), Some(12_500_000));
    assert_eq!(number("-0.25"), Some(-250_000));
    assert_eq!(number(".5"), Some(500_000));
    assert_eq!(number("5."), Some(5 * ONE));
    assert_eq!(number("-.000001"), Some(-1));
    assert_eq!(number("3.1415926535"), Some(3_141_592));
    assert_eq!(number("-3.1415929"), Some(-3_141_592));
    assert_eq!(number("0007.10"), Some(7_100_000));
    assert_eq!(number("-0"), Some(0));
    assert_eq!(number("10000"), Some(COORD_MAX));
    assert_eq!(number("9999.999999"), Some(COORD_MAX - 1));
}

#[test]
fn numbers_above_the_largest_coordinate_are_told_apart_only_as_too_large() {
    assert_eq!(number("10001"), Some(10_001 * ONE));
    assert_eq!(number("10000.5"), Some(10_000_500_000));
    assert_eq!(number("10002"), Some(10_001 * ONE));
    assert_eq!(number("-123456789012345678901234567890"), Some(-10_001 * ONE));
    assert_eq!(number("10001.999999"), Some(10_001 * ONE));
}

#[test]
fn words_that_are_no_decimal_numbers_are_refused() {
    let words = [
        "", "+", "-", ".", "-.", "abc", "1.2.3", "--1", "+-1", "1-", "0x10", "1,5", "inf", "NaN", "1 ", "1e", "e5",
        "1e+", "1e-", "1e5.5", "1ee5", "1e5e5", ".e5", "-e5", "1e 5", "1f5",
    ];
    for word in words {
        assert_eq!(number(word), None, "{:?}", word);
    }
}

#[test]
fn an_exponent_moves_the_decimal_point() {
    assert_eq!(number("1e2"), Some(100 * ONE));
    assert_eq!(number("1E2"), Some(100 * ONE));
    assert_eq!(number("1e+2"), Some(100 * ONE));
    assert_eq!(number("1.5E-3"), Some(1_500));
    assert_eq!(number("-25e-1"), Some(-2_500_000));
    assert_eq!(number(".5e1"), Some(5 * ONE));
    assert_eq!(number("5.e1"), Some(50 * ONE));
    assert_eq!(number("1e0"), Some(ONE));
    assert_eq!(number("1e-6"), Some(1));
    assert_eq!(number("1e-7"), Some(0));
    assert_eq!(number("-1e-7"), Some(0));
    assert_eq!(number("123456789e-9"), Some(123_456));
    assert_eq!(number("0.000123e3"), Some(123_000));
    assert_eq!(number("0.0000001234e7"), Some(1_234_000));
    assert_eq!(number("1e4"), Some(COORD_MAX));
    assert_eq!(number("1e5"), Some(10_001 * ONE));
    assert_eq!(number("-1e30"), Some(-10_001 * ONE));
    assert_eq!(number("0e999999999"), Some(0));
    assert_eq!(number("1e-999999999999"), Some(0));
    assert_eq!(number("1e99999999999999999999"), Some(10_001 * ONE));
    assert_eq!(number("00012.5e-0002"), Some(125_000));
}

#[test]
fn a_number_is_read_from_the_middle_of_a_text() {
    let text = b"x=12.5;";
    assert_eq!(parse_number(text, 2, 6), Some(12_500_000));
    assert_eq!(parse_number(text, 0, 6), None);
    assert_eq!(parse_number(text, 3, 3), None);
}

#[test]
fn a_line_gives_its_numbers_or_none_at_all() {
    let line = |s: &str| parse_line(s.as_bytes(), 0, s.len());
    assert_eq!(line("1 2 3"), vec![ONE, 2 * ONE, 3 * ONE]);
    assert_eq!(line("  1\t2.5 \r"), vec![ONE, 2_500_000]);
    assert_eq!(line(""), Vec::<i64>::new());
    assert_eq!(line("   "), Vec::<i64>::new());
    assert_eq!(line("1 2 x 3"), Vec::<i64>::new());
    assert_eq!(line("1 2 3 4"), vec![ONE, 2 * ONE, 3 * ONE, 4 * ONE]);
    assert_eq!(line("-7"), vec![-7 * ONE]);
    let text = b"1 2\n3 4";
    assert_eq!(parse_line(text, 4, 7), vec![3 * ONE, 4 * ONE]);
}

#[test]
fn a_text_is_split_at_line_feeds() {
    let rows = |s: &str| parse_text(s.as_bytes());
    assert_eq!(rows(""), Vec::<Vec<i64>>::new());
    assert_eq!(rows("1 2 3"), vec![vec![ONE, 2 * ONE, 3 * ONE]]);
    assert_eq!(rows("1 2 3\n"), vec![vec![ONE, 2 * ONE, 3 * ONE]]);
    assert_eq!(rows("1\n\n2\n"), vec![vec![ONE], vec![], vec![2 * ONE]]);
    assert_eq!(rows("\n"), vec![Vec::<i64>::new()]);
    assert_eq!(rows("1 2\r\n3 4\r\n"), vec![vec![ONE, 2 * ONE], vec![3 * ONE, 4 * ONE]]);
    assert_eq!(rows("1 a\n2"), vec![vec![], vec![2 * ONE]]);
}

#[test]
fn sixteen_lines_of_three_numbers_are_a_grid() {
    let cp = ControlPoints::load_from_file(sixteen_lines().as_bytes()).unwrap();
    assert_eq!(cp.at(0, 0), Vec3::new(0, 500_000, 0));
    assert_eq!(cp.at(2, 3), Vec3::new(200 * ONE, 3_500_000, -5 * ONE));
    assert_eq!(cp.at(3, 3), Vec3::new(300 * ONE, 3_500_000, -6 * ONE));
    assert_eq!(cp.get(7), cp.at(1, 3));
    let without_last_line_feed = sixteen_lines();
    let trimmed = without_last_line_feed.trim_end();
    assert!(ControlPoints::load_from_file(trimmed.as_bytes()).is_ok());
    let windows = sixteen_lines().replace('\n', "\r\n");
    assert_eq!(ControlPoints::load_from_file(windows.as_bytes()).unwrap().at(2, 3), cp.at(2, 3));
}

#[test]
fn a_wrong_number_of_lines_is_reported() {
    let mut text = sixteen_lines();
    text.push_str("1 2 3\n");
    assert_eq!(ControlPoints::load_from_file(text.as_bytes()).err(), Some(LoadError::InvalidCount { got: 17 }));
    let short: String = sixteen_lines().lines().take(15).map(|l| format!("{}\n", l)).collect();
    assert_eq!(ControlPoints::load_from_file(short.as_bytes()).err(), Some(LoadError::InvalidCount { got: 15 }));
    assert_eq!(ControlPoints::load_from_file(b"").err(), Some(LoadError::InvalidCount { got: 0 }));
}

#[test]
fn the_first_line_that_is_no_point_is_reported() {
    let lines: Vec<String> = sixteen_lines().lines().map(|l| l.to_string()).collect();
    let with = |at: usize, line: &str| {
        let mut copy = lines.clone();
        copy[at] = line.to_string();
        copy.join("\n")
    };
    let load = |text: String| ControlPoints::load_from_file(text.as_bytes()).err();
    assert_eq!(load(with(5, "1 2")), Some(LoadError::InvalidCoords { line: 5 }));
    assert_eq!(load(with(0, "1 2 3 4")), Some(LoadError::InvalidCoords { line: 0 }));
    assert_eq!(load(with(15, "1 2 three")), Some(LoadError::InvalidCoords { line: 15 }));
    assert_eq!(load(with(7, "")), Some(LoadError::InvalidCoords { line: 7 }));
    assert_eq!(load(with(3, "1 2 10000.000001")), Some(LoadError::CoordinateTooLarge { line: 3 }));
    assert_eq!(load(with(3, "1 2 -10001")), Some(LoadError::CoordinateTooLarge { line: 3 }));
    assert_eq!(load(with(3, "1 2 -10001 4")), Some(LoadError::InvalidCoords { line: 3 }));
    assert_eq!(load(with(3, "1 2 1e")), Some(LoadError::InvalidCoords { line: 3 }));
    assert_eq!(load(with(3, "1 2 1e5")), Some(LoadError::CoordinateTooLarge { line: 3 }));
    assert!(load(with(3, "1 2 1e2")).is_none());
    assert!(load(with(3, "1 2 -10000")).is_none());
    // a bad line is reported before a wrong number of lines
    let mut long = with(9, "x");
    long.push_str("\n1 2 3");
    assert_eq!(load(long), Some(LoadError::InvalidCoords { line: 9 }));
    let mut two_bad = lines.clone();
    two_bad[4] = "4".to_string();
    two_bad[2] = "2".to_string();
    assert_eq!(load(two_bad.join("\n")), Some(LoadError::InvalidCoords { line: 2 }));
}

#[test]
fn lines_of_numbers_are_checked_like_lines_of_text() {
    let mut lines: Vec<Vec<i64>> = (0..16).map(|k| vec![k, -k, 2 * k]).collect();
    let cp = ControlPoints::from_lines(&lines).unwrap();
    assert_eq!(cp.at(1, 1), Vec3::new(5, -5, 10));
    lines[6] = vec![1, 2, COORD_MAX + 1];
    assert_eq!(ControlPoints::from_lines(&lines).err(), Some(LoadError::CoordinateTooLarge { line: 6 }));
    lines[6] = vec![1, 2, -COORD_MAX];
    assert!(ControlPoints::from_lines(&lines).is_ok());
    lines.pop();
    assert_eq!(ControlPoints::from_lines(&lines).err(), Some(LoadError::InvalidCount { got: 15 }));
    assert_eq!(ControlPoints::from_lines(&Vec::new()).err(), Some(LoadError::InvalidCount { got: 0 }));
}
