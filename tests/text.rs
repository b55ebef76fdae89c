use cnys_game_of_life::text::{parse_cells, parse_size};

#[test]
fn reads_a_list_of_cells() {
    assert_eq!(parse_cells(b"2-3,3-3,4-3"), Some(vec![(2, 3), (3, 3), (4, 3)]));
    assert_eq!(parse_cells(b"1-1"), Some(vec![(1, 1)]));
    assert_eq!(parse_cells(b"01-002,0-0"), Some(vec![(1, 2), (0, 0)]));
    assert_eq!(parse_cells(b"3-3,3-3"), Some(vec![(3, 3), (3, 3)]));
}

#[test]
fn rejects_malformed_lists() {
    assert_eq!(parse_cells(b""), None);
    assert_eq!(parse_cells(b"2-3,"), None);
    assert_eq!(parse_cells(b",2-3"), None);
    assert_eq!(parse_cells(b"2-3,,4-3"), None);
    assert_eq!(parse_cells(b"2-3-4"), None);
    assert_eq!(parse_cells(b"2"), None);
    assert_eq!(parse_cells(b"-2"), None);
    assert_eq!(parse_cells(b"2-"), None);
    assert_eq!(parse_cells(b"a-1"), None);
    assert_eq!(parse_cells(b"1-1 "), None);
    assert_eq!(parse_cells(b"1-1;2-2"), None);
}

#[test]
fn rejects_numbers_beyond_usize() {
    let max = format!("{}-1", usize::MAX);
    assert_eq!(parse_cells(max.as_bytes()), Some(vec![(usize::MAX, 1)]));
    let over = format!("1-{}0", usize::MAX);
    assert_eq!(parse_cells(over.as_bytes()), None);
    assert_eq!(parse_cells(b"1-99999999999999999999999999"), None);
}

#[test]
fn reads_sizes() {
    assert_eq!(parse_size(b"5"), Some(5));
    assert_eq!(parse_size(b"120"), Some(120));
    assert_eq!(parse_size(b"007"), Some(7));
    assert_eq!(parse_size(b""), None);
    assert_eq!(parse_size(b"-5"), None);
    assert_eq!(parse_size(b"5x"), None);
    assert_eq!(parse_size(format!("{}", usize::MAX).as_bytes()), Some(usize::MAX));
    assert_eq!(parse_size(format!("{}1", usize::MAX).as_bytes()), None);
}
