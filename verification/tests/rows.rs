use vort::parse::get_csv_ranges;
use vort::parse::Orient;
use vort::parse::ParseError;
use vort::pipeline::get_ranges;

#[test]
fn range_row_parses() {
    let r = get_csv_ranges(b"1F00..1F02 ; U # comment").unwrap();
    assert_eq!(r, vec![((0x1F00, 0x1F02), Orient::U)]);
}

#[test]
fn single_point_row_parses() {
    let r = get_csv_ranges(b"2E80 ; R").unwrap();
    assert_eq!(r, vec![((0x2E80, 0x2E80), Orient::R)]);
}

#[test]
fn all_labels_parse() {
    let text = b"1 ; U\n2 ; R\n3 ; Tu\n4 ; Tr\n";
    let r = get_csv_ranges(text).unwrap();
    assert_eq!(
        r,
        vec![
            ((1, 1), Orient::U),
            ((2, 2), Orient::R),
            ((3, 3), Orient::Tu),
            ((4, 4), Orient::Tr),
        ]
    );
}

#[test]
fn blank_and_comment_lines_skipped() {
    let text = b"# header\n\n   \n10 ; U # tail\n# trailer";
    let r = get_csv_ranges(text).unwrap();
    assert_eq!(r, vec![((0x10, 0x10), Orient::U)]);
}

#[test]
fn crlf_lines_accepted() {
    let text = b"A ; U\r\nB ; R\r\n";
    let r = get_csv_ranges(text).unwrap();
    assert_eq!(r, vec![((0xA, 0xA), Orient::U), ((0xB, 0xB), Orient::R)]);
}

#[test]
fn lowercase_hex_accepted() {
    let r = get_csv_ranges(b"abcd..ffff ; Tu").unwrap();
    assert_eq!(r, vec![((0xABCD, 0xFFFF), Orient::Tu)]);
}

#[test]
fn empty_input_is_empty_table() {
    assert_eq!(get_csv_ranges(b"").unwrap(), vec![]);
}

#[test]
fn unknown_label_reported_with_line() {
    let text = b"1 ; U\n2 ; X\n3 ; R\n";
    assert_eq!(get_csv_ranges(text), Err(ParseError { line_index: 1 }));
}

#[test]
fn missing_separator_reported() {
    assert_eq!(get_csv_ranges(b"1F00..1F02 U"), Err(ParseError { line_index: 0 }));
}

#[test]
fn bad_hex_reported() {
    assert_eq!(get_csv_ranges(b"12G4 ; U"), Err(ParseError { line_index: 0 }));
}

#[test]
fn empty_range_side_reported() {
    assert_eq!(get_csv_ranges(b"..1F02 ; U"), Err(ParseError { line_index: 0 }));
}

#[test]
fn three_part_range_reported() {
    assert_eq!(get_csv_ranges(b"1..2..3 ; U"), Err(ParseError { line_index: 0 }));
}

#[test]
fn overlong_hex_reported() {
    assert_eq!(get_csv_ranges(b"100000000 ; U"), Err(ParseError { line_index: 0 }));
}

#[test]
fn first_bad_line_wins() {
    let text = b"ok-not-even-close\nalso bad";
    assert_eq!(get_csv_ranges(text), Err(ParseError { line_index: 0 }));
}

#[test]
fn extra_fields_ignored() {
    let r = get_csv_ranges(b"20 ; R ; junk ; more").unwrap();
    assert_eq!(r, vec![((0x20, 0x20), Orient::R)]);
}

#[test]
fn get_ranges_appends_rows_to_defaults() {
    let all = get_ranges(b"16FE0..16FE1 ; Tu\n").unwrap();
    assert_eq!(all.len(), 38);
    assert_eq!(all[0], ((0, 0x10FFFF), Orient::R));
    assert_eq!(all[37], ((0x16FE0, 0x16FE1), Orient::Tu));
}

#[test]
fn get_ranges_propagates_parse_error() {
    assert_eq!(get_ranges(b"zz ; U"), Err(ParseError { line_index: 0 }));
}
