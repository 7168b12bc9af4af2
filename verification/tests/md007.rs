use mado::document::Document;
use mado::markdown::Sourcepos;
use mado::rule::md007::MD007;

#[test]
fn md007_check_errors() {
    let text = "* List item\n   * Nested list item indented by 3 spaces\n       * More nested list item indented by 4 spaces\n* List item\n   * Nested list item indented by 3 spaces\n       * More nested list item indented by 4 spaces\n".to_owned();
    let path = "test.md".to_owned();
    let doc = Document::new(path.clone(), text);
    let rule = MD007::default();
    let actual = rule.check(&doc);
    let expected = vec![
        rule.to_violation(path.clone(), Sourcepos::from((2, 4, 3, 51))),
        rule.to_violation(path, Sourcepos::from((5, 4, 6, 51))),
    ];
    assert_eq!(actual, expected);
}

#[test]
fn check_errors_for_multiple_indentation() {
    let text = "* List item\n    * Nested list item indented by 4 spaces\n        * More nested list item indented by 4 spaces\n* List item\n    * Nested list item indented by 4 spaces\n        * More nested list item indented by 4 spaces\n".to_owned();
    let path = "test.md".to_owned();
    let doc = Document::new(path.clone(), text);
    let rule = MD007::new(2);
    let actual = rule.check(&doc);
    let expected = vec![
        rule.to_violation(path.clone(), Sourcepos::from((2, 5, 3, 52))),
        rule.to_violation(path.clone(), Sourcepos::from((3, 9, 3, 52))),
        rule.to_violation(path.clone(), Sourcepos::from((5, 5, 6, 52))),
        rule.to_violation(path, Sourcepos::from((6, 9, 6, 52))),
    ];
    assert_eq!(actual, expected);
}

#[test]
fn md007_check_no_errors() {
    let text = "* List item\n    * Nested list item indented by 4 spaces\n        * More nested list item indented by 4 spaces\n* List Item\n    * Nested list item indented by 4 spaces\n        * More nested list item indented by 4 spaces\n".to_owned();
    let path = "test.md".to_owned();
    let doc = Document::new(path, text);
    let rule = MD007::default();
    let actual = rule.check(&doc);
    let expected = vec![];
    assert_eq!(actual, expected);
}

#[test]
fn check_no_errors_ol() {
    let text = "* List item\n   1. Nested list item indented by 3 spaces\n* List Item\n   1. Nested list item indented by 3 spaces\n".to_owned();
    let path = "test.md".to_owned();
    let doc = Document::new(path, text);
    let rule = MD007::default();
    let actual = rule.check(&doc);
    let expected = vec![];
    assert_eq!(actual, expected);
}

#[test]
fn md007_check_no_errors_with_blockquote() {
    let text = "* List\n> * List in blockquote\n>* List in blockquote\n>\t* List in blockquote\n".to_owned();
    let path = "test.md".to_owned();
    let doc = Document::new(path, text);
    let rule = MD007::default();
    let actual = rule.check(&doc);
    let expected = vec![];
    assert_eq!(actual, expected);
}

#[test]
fn check_no_errors_with_nested_blockquote() {
    let text = "> > * List\n> >     * Nested list\n".to_owned();
    let path = "test.md".to_owned();
    let doc = Document::new(path, text);
    let rule = MD007::default();
    let actual = rule.check(&doc);
    let expected = vec![];
    assert_eq!(actual, expected);
}

#[test]
fn check_errors_with_blockquote() {
    let text = "> * List\n>    * Nested list indented by 3 spaces\n".to_owned();
    let path = "test.md".to_owned();
    let doc = Document::new(path.clone(), text);
    let rule = MD007::default();
    let actual = rule.check(&doc);
    let expected = vec![rule.to_violation(path, Sourcepos::from((2, 6, 2, 39)))];
    assert_eq!(actual, expected);
}

#[test]
fn blockquote_indent_measures_from_the_last_marker() {
    let lines = vec![">   * Foo".to_owned()];
    let position = Sourcepos::from((1, 5, 1, 9));
    assert_eq!(MD007::blockquote_indent(&lines, position), Some(2));
}

#[test]
fn blockquote_indent_drops_one_tab_after_the_marker() {
    let lines = vec![">\t* Foo".to_owned()];
    let position = Sourcepos::from((1, 3, 1, 7));
    assert_eq!(MD007::blockquote_indent(&lines, position), Some(0));
}

#[test]
fn blockquote_indent_without_marker() {
    let lines = vec!["  * Foo".to_owned()];
    let position = Sourcepos::from((1, 3, 1, 7));
    assert_eq!(MD007::blockquote_indent(&lines, position), None);
}

#[test]
fn blockquote_indent_beyond_last_line() {
    let lines = vec!["> * Foo".to_owned()];
    let position = Sourcepos::from((2, 3, 2, 7));
    assert_eq!(MD007::blockquote_indent(&lines, position), None);
}

#[test]
fn blockquote_indent_beyond_end_of_line() {
    let lines = vec!["> ".to_owned()];
    let position = Sourcepos::from((1, 9, 1, 9));
    assert_eq!(MD007::blockquote_indent(&lines, position), None);
}

#[test]
fn blockquote_indent_inside_a_multibyte_character() {
    let lines = vec!["\u{3042}> * Foo".to_owned()];
    let position = Sourcepos::from((1, 3, 1, 7));
    assert_eq!(MD007::blockquote_indent(&lines, position), None);
}

