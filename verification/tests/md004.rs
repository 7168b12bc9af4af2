use mado::document::Document;
use mado::markdown::Sourcepos;
use mado::rule::md004::{ListStyle, MD004};

#[test]
fn check_errors_for_consistent() {
    let text = "* Item 1\n+ Item 2\n- Item 3\n".to_owned();
    let path = "test.md".to_owned();
    let doc = Document::new(path.clone(), text);
    let rule = MD004::default();
    let actual = rule.check(&doc);
    let expected = vec![
        rule.to_violation(path.clone(), Sourcepos::from((2, 1, 2, 8))),
        rule.to_violation(path, Sourcepos::from((3, 1, 3, 8))),
    ];
    assert_eq!(actual, expected);
}

#[test]
fn check_errors_for_asterisk() {
    let text = "* Item 1\n+ Item 2\n- Item 3\n".to_owned();
    let path = "test.md".to_owned();
    let doc = Document::new(path.clone(), text);
    let rule = MD004::new(ListStyle::Asterisk);
    let actual = rule.check(&doc);
    let expected = vec![
        rule.to_violation(path.clone(), Sourcepos::from((2, 1, 2, 8))),
        rule.to_violation(path, Sourcepos::from((3, 1, 3, 8))),
    ];
    assert_eq!(actual, expected);
}

#[test]
fn check_errors_for_plus() {
    let text = "* Item 1\n+ Item 2\n- Item 3\n".to_owned();
    let path = "test.md".to_owned();
    let doc = Document::new(path.clone(), text);
    let rule = MD004::new(ListStyle::Plus);
    let actual = rule.check(&doc);
    let expected = vec![
        rule.to_violation(path.clone(), Sourcepos::from((1, 1, 1, 8))),
        rule.to_violation(path, Sourcepos::from((3, 1, 3, 8))),
    ];
    assert_eq!(actual, expected);
}

#[test]
fn check_errors_for_dash() {
    let text = "* Item 1\n+ Item 2\n- Item 3\n".to_owned();
    let path = "test.md".to_owned();
    let doc = Document::new(path.clone(), text);
    let rule = MD004::new(ListStyle::Dash);
    let actual = rule.check(&doc);
    let expected = vec![
        rule.to_violation(path.clone(), Sourcepos::from((1, 1, 1, 8))),
        rule.to_violation(path, Sourcepos::from((2, 1, 2, 8))),
    ];
    assert_eq!(actual, expected);
}

#[test]
fn check_errors_for_sublist() {
    let text = "* Item 1\n* Item 2\n  - Item 2a\n    + Item 2a1\n  - Item 2b\n* Item 3\n\nOther stuff\n\n- Item 1\n- Item 2\n".to_owned();
    let path = "test.md".to_owned();
    let doc = Document::new(path.clone(), text);
    let rule = MD004::new(ListStyle::Sublist);
    let actual = rule.check(&doc);
    let expected = vec![
        rule.to_violation(path.clone(), Sourcepos::from((10, 1, 10, 8))),
        rule.to_violation(path, Sourcepos::from((11, 1, 11, 8))),
    ];
    assert_eq!(actual, expected);
}

#[test]
fn check_errors_in_blockquote() {
    let text = "> * Item 1\n> + Item 2\n> - Item 3\n".to_owned();
    let path = "test.md".to_owned();
    let doc = Document::new(path.clone(), text);
    let rule = MD004::default();
    let actual = rule.check(&doc);
    let expected = vec![
        rule.to_violation(path.clone(), Sourcepos::from((2, 3, 2, 10))),
        rule.to_violation(path, Sourcepos::from((3, 3, 3, 10))),
    ];
    assert_eq!(actual, expected);
}

#[test]
fn check_errors_for_consistent_with_style_set_inside_blockquote() {
    let text = "> * Item 1\n\n+ Item 2\n".to_owned();
    let path = "test.md".to_owned();
    let doc = Document::new(path.clone(), text);
    let rule = MD004::default();
    let actual = rule.check(&doc);
    let expected = vec![rule.to_violation(path, Sourcepos::from((3, 1, 3, 8)))];
    assert_eq!(actual, expected);
}

#[test]
fn check_errors_for_sublist_in_blockquote() {
    let text = "* Item 1\n  + Item 1a\n\n> + Item 2\n".to_owned();
    let path = "test.md".to_owned();
    let doc = Document::new(path.clone(), text);
    let rule = MD004::new(ListStyle::Sublist);
    let actual = rule.check(&doc);
    let expected = vec![rule.to_violation(path, Sourcepos::from((4, 3, 4, 10)))];
    assert_eq!(actual, expected);
}

#[test]
fn check_no_errors_for_sublist_in_blockquote() {
    let text = "* Item 1\n  + Item 1a\n\n> * Item 2\n>   + Item 2a\n".to_owned();
    let path = "test.md".to_owned();
    let doc = Document::new(path, text);
    let rule = MD004::new(ListStyle::Sublist);
    let actual = rule.check(&doc);
    let expected = vec![];
    assert_eq!(actual, expected);
}

#[test]
fn check_no_errors_for_consistent() {
    let text = "* Item 1\n* Item 2\n* Item 3\n".to_owned();
    let path = "test.md".to_owned();
    let doc = Document::new(path, text);
    let rule = MD004::default();
    let actual = rule.check(&doc);
    let expected = vec![];
    assert_eq!(actual, expected);
}

#[test]
fn check_no_errors_for_asterisk() {
    let text = "* Item 1\n* Item 2\n* Item 3\n".to_owned();
    let path = "test.md".to_owned();
    let doc = Document::new(path, text);
    let rule = MD004::new(ListStyle::Asterisk);
    let actual = rule.check(&doc);
    let expected = vec![];
    assert_eq!(actual, expected);
}

#[test]
fn check_no_errors_for_plus() {
    let text = "+ Item 1\n+ Item 2\n+ Item 3\n".to_owned();
    let path = "test.md".to_owned();
    let doc = Document::new(path, text);
    let rule = MD004::new(ListStyle::Plus);
    let actual = rule.check(&doc);
    let expected = vec![];
    assert_eq!(actual, expected);
}

#[test]
fn check_no_errors_for_dash() {
    let text = "- Item 1\n- Item 2\n- Item 3\n".to_owned();
    let path = "test.md".to_owned();
    let doc = Document::new(path, text);
    let rule = MD004::new(ListStyle::Dash);
    let actual = rule.check(&doc);
    let expected = vec![];
    assert_eq!(actual, expected);
}

#[test]
fn check_no_errors_for_sublist() {
    let text = "* Item 1\n* Item 2\n  - Item 2a\n    + Item 2a1\n  - Item 2b\n* Item 3\n\nOther stuff\n\n* Item 1\n* Item 2\n".to_owned();
    let path = "test.md".to_owned();
    let doc = Document::new(path, text);
    let rule = MD004::new(ListStyle::Sublist);
    let actual = rule.check(&doc);
    let expected = vec![];
    assert_eq!(actual, expected);
}

#[test]
fn md004_check_no_errors_with_blockquote() {
    let text = ">- Item 1\n>- Item 2\n>- Item 3\n".to_owned();
    let path = "test.md".to_owned();
    let doc = Document::new(path, text);
    let rule = MD004::default();
    let actual = rule.check(&doc);
    let expected = vec![];
    assert_eq!(actual, expected);
}

