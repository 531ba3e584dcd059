use tinyget::state::filter_admits;
use tinyget::table::{label_starts_by_widths, slice_by_widths};
use tinyget::width::{char_width, char_widths};
use tinyget::{clean_line, parse_table};

#[test]
fn cleaned_lines_hold_no_carriage_return_or_escape() {
    for l in ["a\rb\rc", "\u{1b}[1;31mred\u{1b}[0m", "x\u{1b}", "\u{1b}Mrest", "\u{1b}[12;", "plain"] {
        let c = clean_line(l);
        assert!(!c.contains('\r') && !c.contains('\u{1b}'), "{c:?}");
    }
    assert_eq!(clean_line("x\u{1b}"), "x");
    assert_eq!(clean_line("\u{1b}Mrest"), "rest");
    assert_eq!(clean_line("\u{1b}[12;"), "");
    assert_eq!(clean_line("\u{1b}[unterminated"), "nterminated");
    assert_eq!(clean_line("a\r"), "");
}

#[test]
fn crlf_output_and_no_rule() {
    let out = "Name   Id        Version Available Source\r\n----------------------------------------\r\nFoo    Foo.Bar   1       2         winget\r\n";
    let rows = parse_table(out, 5);
    assert_eq!(rows.len(), 1);
    assert_eq!(rows[0], vec!["Foo", "Foo.Bar", "1", "2", "winget"]);
    assert!(parse_table("Name Id\nFoo Foo.Bar", 2).is_empty());
}

#[test]
fn right_split_keeps_spaces_only_in_the_name() {
    // Four header labels for five columns: the rows are split from the right.
    let out = "Name   Id   Version Source\n--------------\nA long  name   Pkg.Id  1.0  winget   Pinning\n";
    let rows = parse_table(out, 5);
    assert_eq!(rows.len(), 1);
    assert_eq!(rows[0], vec!["A long  name", "Pkg.Id", "1.0", "winget", "Pinning"]);
    for f in &rows[0][1..] {
        assert!(!f.is_empty() && !f.contains(char::is_whitespace));
    }
}

#[test]
fn rows_need_a_name_and_an_identifier() {
    let out = "Name  Id\n-----\n      Pkg.Id\nName  not an id\nOk    Ok.Id\n\n   \n";
    let rows = parse_table(out, 2);
    assert_eq!(rows, vec![vec!["Ok".to_string(), "Ok.Id".to_string()]]);
}

#[test]
fn wide_glyphs_take_two_cells() {
    // The header's CJK labels are two cells wide each, so "ID" starts at cell 5.
    let out = "名称 ID\n------\n中文 A.B\n";
    let rows = parse_table(out, 2);
    assert_eq!(rows, vec![vec!["中文".to_string(), "A.B".to_string()]]);
}

#[test]
fn a_glyph_across_a_column_start_stays_where_it_begins() {
    // "ID" starts at cell 3; 中 covers cells 2 and 3, so it belongs to the name.
    let out = "名 ID\n-----\nAB中x.C\n";
    let rows = parse_table(out, 2);
    assert_eq!(rows, vec![vec!["AB中".to_string(), "x.C".to_string()]]);
}

#[test]
fn tables_without_data_lines_read_as_nothing_at_any_width() {
    assert!(parse_table("no table here", 1).is_empty());
    assert!(parse_table("Name\n----\n\n  \n", 0).is_empty());
    assert!(parse_table("Name\n----\n", 1).is_empty());
}

#[test]
fn character_widths() {
    assert_eq!(char_width('a'), 1);
    assert_eq!(char_width('~'), 1);
    assert_eq!(char_width('中'), 2);
    assert_eq!(char_width('\u{1b}'), 0);
    assert_eq!(char_width('\u{85}'), 0);
}

#[test]
fn column_starts_from_given_widths() {
    let header: Vec<char> = "名称 ID  Ver".chars().collect();
    let widths = char_widths(&header);
    assert_eq!(widths, vec![2, 2, 1, 1, 1, 1, 1, 1, 1, 1]);
    assert_eq!(label_starts_by_widths(&header, &widths), vec![0u128, 5, 9]);
    // With other widths, the same labels start elsewhere.
    let ones = vec![1usize; header.len()];
    assert_eq!(label_starts_by_widths(&header, &ones), vec![0u128, 3, 7]);
}

#[test]
fn rows_cut_by_given_widths() {
    let line: Vec<char> = "AB中x.C tail".chars().collect();
    let widths = char_widths(&line);
    let fields = slice_by_widths(&line, &widths, &[0, 3, 7]);
    assert_eq!(fields, vec!["AB中".to_string(), "x.C".to_string(), "tail".to_string()]);
    let narrow = vec![1usize; line.len()];
    let fields = slice_by_widths(&line, &narrow, &[0, 3, 7]);
    assert_eq!(fields, vec!["AB中".to_string(), "x.C".to_string(), "tail".to_string()]);
    let fields = slice_by_widths(&line, &narrow, &[0, 2]);
    assert_eq!(fields, vec!["AB".to_string(), "中x.C tail".to_string()]);
}

#[test]
fn filter_decision() {
    assert!(filter_admits("", "anything", "any.id"));
    assert!(filter_admits("rust", "rustup", "rustlang.rustup"));
    assert!(filter_admits("lang", "rustup", "rustlang.rustup"));
    assert!(!filter_admits("python", "rustup", "rustlang.rustup"));
}

#[test]
fn coloured_rows_read_without_escapes() {
    let out = "Name  Id\r\n------\r\n\u{1b}[1mFoo\u{1b}[0m   Foo.Bar\r\n";
    let rows = parse_table(out, 2);
    assert_eq!(rows, vec![vec!["Foo".to_string(), "Foo.Bar".to_string()]]);
    for f in &rows[0] {
        assert!(!f.contains('\r') && !f.contains('\u{1b}'));
    }
}

#[test]
fn right_split_needs_enough_words() {
    let out = "Name Id Version Source Pin type\n-----\nJust two\nA B.C 1 winget Pinning\n";
    let rows = parse_table(out, 5);
    assert_eq!(rows, vec![vec!["A", "B.C", "1", "winget", "Pinning"]]);
}
