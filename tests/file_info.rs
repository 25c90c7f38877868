use mylang::file_info::{underline, underline_error, FileInfo, FI};

#[test]
fn test_underline() {
    let input = r#"0123456789"#;
    assert_eq!(underline(input, &FI::new(1, 0), ""), &r#"
  1: 0123456789
     ^"#[1..]);
    assert_eq!(underline(input, &FI::new(1, 1), ""), &r#"
  1: 0123456789
     -^"#[1..]);
    assert_eq!(underline(input, &FI::new(1, 8), ""), &r#"
  1: 0123456789
     --------^"#[1..]);
}

#[test]
fn test_underline_with_previous_non_white_on_other_line() {
    let input = r#"01234

789"#;
    assert_eq!(underline(input, &FI::new(1, 7), ""), &r#"
  1: 01234
  2: 
  3: 789
     ^"#[1..]);
    assert_eq!(underline(input, &FI::new(1, 8), ""), &r#"
  3: 789
     -^"#[1..]);
}

#[test]
fn underline_error_colors_the_marker() {
    assert_eq!(underline_error("ab", &FI::new(1, 1)), "  1: ab\n\x1b[31m     -^\x1b[0m");
}

#[test]
fn underline_numbers_lines_past_ten() {
    let input = "a\n\n\n\n\n\n\n\n\n\nxyz";
    assert_eq!(underline(input, &FI::new(1, 12), ""), " 11: xyz\n     -^");
}

#[test]
fn span_arithmetic() {
    let mut fi = FileInfo::new(2, 5);
    fi.inc();
    assert_eq!(fi, FileInfo::new(3, 6));
    let start = FileInfo::new(1, 4);
    assert_eq!(fi.len_diff(&start), FileInfo::new(2, 4));
    assert_eq!(FileInfo::new(2, 3).merge(&FileInfo::new(4, 10)), FileInfo::new(11, 3));
    assert_eq!(FileInfo::zero(), FileInfo::new(0, 0));
}

#[test]
fn merge_is_the_union_of_spans() {
    assert_eq!(FileInfo::new(10, 0).merge(&FileInfo::new(1, 2)), FileInfo::new(10, 0));
}
