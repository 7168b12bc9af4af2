use mado::document::Document;
use mado::markdown::Sourcepos;
use mado::rule::md030::MD030;

#[test]
fn check_errors_ul() {
    let text = "*   Foo\n    Second paragraph\n*   Bar\n".to_owned();
    let path = "test.md".to_owned();
    let doc = Document::new(path.clone(), text);
    let rule = MD030::default();
    let actual = rule.check(&doc);
    let expected = vec![
        rule.to_violation(path.clone(), Sourcepos::from((1, 1, 2, 20))),
        rule.to_violation(path, Sourcepos::from((3, 1, 3, 7))),
    ];
    assert_eq!(actual, expected);
}

#[test]
fn check_errors_ul_with_newline() {
    let text = "*   Foo\n\n    Second paragraph\n\n*   Bar\n".to_owned();
    let path = "test.md".to_owned();
    let doc = Document::new(path.clone(), text);
    let rule = MD030::default();
    let actual = rule.check(&doc);
    let expected = vec![
        rule.to_violation(path.clone(), Sourcepos::from((1, 1, 3, 20))),
        rule.to_violation(path, Sourcepos::from((5, 1, 5, 7))),
    ];
    assert_eq!(actual, expected);
}

#[test]
fn check_errors_ul_with_ul_single() {
    let text = "*   Foo\n    Second paragraph\n*   Bar\n".to_owned();
    let path = "test.md".to_owned();
    let doc = Document::new(path.clone(), text);
    let rule = MD030::new(3, 1, 1, 1);
    let actual = rule.check(&doc);
    let expected = vec![rule.to_violation(path, Sourcepos::from((1, 1, 2, 20)))];
    assert_eq!(actual, expected);
}

#[test]
fn check_errors_ul_with_ul_multi() {
    let text = "*   Foo\n    Second paragraph\n*   Bar\n".to_owned();
    let path = "test.md".to_owned();
    let doc = Document::new(path.clone(), text);
    let rule = MD030::new(1, 1, 3, 1);
    let actual = rule.check(&doc);
    let expected = vec![rule.to_violation(path, Sourcepos::from((3, 1, 3, 7)))];
    assert_eq!(actual, expected);
}

#[test]
fn check_errors_ol() {
    let text = "1.   Foo\n     Second paragraph\n1.   Bar\n".to_owned();
    let path = "test.md".to_owned();
    let doc = Document::new(path.clone(), text);
    let rule = MD030::default();
    let actual = rule.check(&doc);
    let expected = vec![
        rule.to_violation(path.clone(), Sourcepos::from((1, 1, 2, 21))),
        rule.to_violation(path, Sourcepos::from((3, 1, 3, 8))),
    ];
    assert_eq!(actual, expected);
}

#[test]
fn check_errors_ol_with_newline() {
    let text = "1.   Foo\n\n     Second paragraph\n\n1.   Bar\n".to_owned();
    let path = "test.md".to_owned();
    let doc = Document::new(path.clone(), text);
    let rule = MD030::default();
    let actual = rule.check(&doc);
    let expected = vec![
        rule.to_violation(path.clone(), Sourcepos::from((1, 1, 3, 21))),
        rule.to_violation(path, Sourcepos::from((5, 1, 5, 8))),
    ];
    assert_eq!(actual, expected);
}

#[test]
fn check_errors_ol_with_ol_single() {
    let text = "1.   Foo\n     Second paragraph\n1.   Bar\n".to_owned();
    let path = "test.md".to_owned();
    let doc = Document::new(path.clone(), text);
    let rule = MD030::new(1, 3, 1, 1);
    let actual = rule.check(&doc);
    let expected = vec![rule.to_violation(path, Sourcepos::from((1, 1, 2, 21)))];
    assert_eq!(actual, expected);
}

#[test]
fn check_errors_ol_with_ol_multi() {
    let text = "1.   Foo\n     Second paragraph\n1.   Bar\n".to_owned();
    let path = "test.md".to_owned();
    let doc = Document::new(path.clone(), text);
    let rule = MD030::new(1, 1, 1, 3);
    let actual = rule.check(&doc);
    let expected = vec![rule.to_violation(path, Sourcepos::from((3, 1, 3, 8)))];
    assert_eq!(actual, expected);
}

#[test]
fn check_errors_ol_multi_digit_marker() {
    let text = "9.   Foo\n10.   Bar\n100.   Baz\n11.  Qux\n".to_owned();
    let path = "test.md".to_owned();
    let doc = Document::new(path.clone(), text);
    let rule = MD030::default();
    let actual = rule.check(&doc);
    let expected = vec![
        rule.to_violation(path.clone(), Sourcepos::from((1, 1, 1, 8))),
        rule.to_violation(path.clone(), Sourcepos::from((2, 1, 2, 9))),
        rule.to_violation(path.clone(), Sourcepos::from((3, 1, 3, 10))),
        rule.to_violation(path, Sourcepos::from((4, 1, 4, 8))),
    ];
    assert_eq!(actual, expected);
}

#[test]
fn check_errors_ol_leading_zero_marker() {
    let text = "007.  Foo\n01.  Bar\n".to_owned();
    let path = "test.md".to_owned();
    let doc = Document::new(path.clone(), text);
    let rule = MD030::default();
    let actual = rule.check(&doc);
    let expected = vec![
        rule.to_violation(path.clone(), Sourcepos::from((1, 1, 1, 9))),
        rule.to_violation(path, Sourcepos::from((2, 1, 2, 8))),
    ];
    assert_eq!(actual, expected);
}

#[test]
fn check_errors_nested() {
    let text = "* Parent list\n    1.  Foo\n        Second paragraph\n    2.  Bar\n".to_owned();
    let path = "test.md".to_owned();
    let doc = Document::new(path.clone(), text);
    let rule = MD030::default();
    let actual = rule.check(&doc);
    let expected = vec![
        rule.to_violation(path.clone(), Sourcepos::from((2, 5, 3, 24))),
        rule.to_violation(path, Sourcepos::from((4, 5, 4, 11))),
    ];
    assert_eq!(actual, expected);
}

#[test]
fn check_errors_in_blockquote_ul() {
    let text = "> *   Foo\n> *   Bar\n".to_owned();
    let path = "test.md".to_owned();
    let doc = Document::new(path.clone(), text);
    let rule = MD030::default();
    let actual = rule.check(&doc);
    let expected = vec![
        rule.to_violation(path.clone(), Sourcepos::from((1, 3, 1, 9))),
        rule.to_violation(path, Sourcepos::from((2, 3, 2, 9))),
    ];
    assert_eq!(actual, expected);
}

#[test]
fn check_errors_in_blockquote_ol_multi_digit_marker() {
    let text = "> 9.   Foo\n> 10.   Bar\n".to_owned();
    let path = "test.md".to_owned();
    let doc = Document::new(path.clone(), text);
    let rule = MD030::default();
    let actual = rule.check(&doc);
    let expected = vec![
        rule.to_violation(path.clone(), Sourcepos::from((1, 3, 1, 10))),
        rule.to_violation(path, Sourcepos::from((2, 3, 2, 11))),
    ];
    assert_eq!(actual, expected);
}

#[test]
fn check_no_errors_in_blockquote() {
    let text = "> * Foo\n> * Bar\n>\n> 10. Baz\n".to_owned();
    let path = "test.md".to_owned();
    let doc = Document::new(path, text);
    let rule = MD030::default();
    let actual = rule.check(&doc);
    let expected = vec![];
    assert_eq!(actual, expected);
}

#[test]
fn md030_check_no_errors() {
    let text = "* Foo\n* Bar\n* Baz\n\n1. Foo\n1. Bar\n1. Baz\n\n1. Foo\n   * Bar\n   * Baz\n1. Qux\n".to_owned();
    let path = "test.md".to_owned();
    let doc = Document::new(path, text);
    let rule = MD030::default();
    let actual = rule.check(&doc);
    let expected = vec![];
    assert_eq!(actual, expected);
}

#[test]
fn check_no_errors_ol_leading_zero_marker() {
    let text = "007. Foo\n01. Bar\n".to_owned();
    let path = "test.md".to_owned();
    let doc = Document::new(path, text);
    let rule = MD030::default();
    let actual = rule.check(&doc);
    let expected = vec![];
    assert_eq!(actual, expected);
}

#[test]
fn check_no_errors_ol_multi_digit_marker() {
    let text = "8. Foo\n9. Bar\n10. Baz\n11. Qux\n\n99. Foo\n100. Bar\n\n10. Foo\n    Second paragraph\n11. Bar\n".to_owned();
    let path = "test.md".to_owned();
    let doc = Document::new(path, text);
    let rule = MD030::default();
    let actual = rule.check(&doc);
    let expected = vec![];
    assert_eq!(actual, expected);
}

#[test]
fn ordered_marker_width_without_digits() {
    let lines = vec!["* Foo".to_owned()];
    let position = Sourcepos::from((1, 1, 1, 5));
    assert_eq!(MD030::ordered_marker_width(&lines, position), None);
}

#[test]
fn ordered_marker_width_without_delimiter() {
    let lines = vec!["1 Foo".to_owned()];
    let position = Sourcepos::from((1, 1, 1, 5));
    assert_eq!(MD030::ordered_marker_width(&lines, position), None);
}

#[test]
fn ordered_marker_width_beyond_last_line() {
    let lines = vec!["1. Foo".to_owned()];
    let position = Sourcepos::from((2, 1, 2, 6));
    assert_eq!(MD030::ordered_marker_width(&lines, position), None);
}

#[test]
fn ordered_marker_width_with_paren_delimiter() {
    let lines = vec!["10) Foo".to_owned()];
    let position = Sourcepos::from((1, 1, 1, 7));
    assert_eq!(MD030::ordered_marker_width(&lines, position), Some(3));
}

