use mado::document::Document;
use mado::markdown::Sourcepos;
use mado::rule::md038::MD038;

#[test]
fn md038_check_errors() {
    let text = "` some text `\n\n`some text `\n\n` some text`\n".to_owned();
    let path = "test.md".to_owned();
    let doc = Document::new(path.clone(), text);
    let rule = MD038::new();
    let actual = rule.check(&doc);
    let expected = vec![
        rule.to_violation(path.clone(), Sourcepos::from((1, 1, 1, 13))),
        rule.to_violation(path.clone(), Sourcepos::from((3, 1, 3, 12))),
        rule.to_violation(path, Sourcepos::from((5, 1, 5, 12))),
    ];
    assert_eq!(actual, expected);
}

#[test]
fn check_errors_with_multiple_backticks() {
    let text = "``  some text  ``\n\n```some text ```\n".to_owned();
    let path = "test.md".to_owned();
    let doc = Document::new(path.clone(), text);
    let rule = MD038::new();
    let actual = rule.check(&doc);
    let expected = vec![
        rule.to_violation(path.clone(), Sourcepos::from((1, 1, 1, 17))),
        rule.to_violation(path, Sourcepos::from((3, 1, 3, 16))),
    ];
    assert_eq!(actual, expected);
}

#[test]
fn check_errors_with_unbalanced_backtick_content() {
    let text = "`` ` embedded``\n\n``embedded ` ``\n\n`` ` embedded ` ``\n".to_owned();
    let path = "test.md".to_owned();
    let doc = Document::new(path.clone(), text);
    let rule = MD038::new();
    let actual = rule.check(&doc);
    let expected = vec![
        rule.to_violation(path.clone(), Sourcepos::from((1, 1, 1, 15))),
        rule.to_violation(path, Sourcepos::from((3, 1, 3, 15))),
    ];
    assert_eq!(actual, expected);
}

#[test]
fn check_errors_with_padded_backtick_content() {
    let text = "``  ` ``\n\n`` `  ``\n".to_owned();
    let path = "test.md".to_owned();
    let doc = Document::new(path.clone(), text);
    let rule = MD038::new();
    let actual = rule.check(&doc);
    let expected = vec![
        rule.to_violation(path.clone(), Sourcepos::from((1, 1, 1, 8))),
        rule.to_violation(path, Sourcepos::from((3, 1, 3, 8))),
    ];
    assert_eq!(actual, expected);
}

#[test]
fn check_errors_with_only_spaces() {
    let text = "` `".to_owned();
    let path = "test.md".to_owned();
    let doc = Document::new(path.clone(), text);
    let rule = MD038::new();
    let actual = rule.check(&doc);
    let expected = vec![rule.to_violation(path, Sourcepos::from((1, 1, 1, 3)))];
    assert_eq!(actual, expected);
}

#[test]
fn md038_check_no_errors() {
    let text = "`some text`".to_owned();
    let path = "test.md".to_owned();
    let doc = Document::new(path, text);
    let rule = MD038::new();
    let actual = rule.check(&doc);
    let expected = vec![];
    assert_eq!(actual, expected);
}

#[test]
fn check_no_errors_with_multiple_backticks() {
    let text = "``some text``\n\n``some `text` here``\n\n```some text```\n".to_owned();
    let path = "test.md".to_owned();
    let doc = Document::new(path, text);
    let rule = MD038::new();
    let actual = rule.check(&doc);
    let expected = vec![];
    assert_eq!(actual, expected);
}

#[test]
fn check_no_errors_with_backtick_content() {
    let text = "`` ` ``\n\n`` `some text ``\n\n`` some text` ``\n".to_owned();
    let path = "test.md".to_owned();
    let doc = Document::new(path, text);
    let rule = MD038::new();
    let actual = rule.check(&doc);
    let expected = vec![];
    assert_eq!(actual, expected);
}

#[test]
fn check_errors_with_multibyte_prefix() {
    let text = "\u{3042}\u{3044} ` pad ` \u{3046}\u{3048}".to_owned();
    let path = "test.md".to_owned();
    let doc = Document::new(path.clone(), text);
    let rule = MD038::new();
    let actual = rule.check(&doc);
    let expected = vec![rule.to_violation(path, Sourcepos::from((1, 8, 1, 14)))];
    assert_eq!(actual, expected);
}

#[test]
fn check_no_errors_with_multibyte_prefix() {
    let text = "\u{3042}\u{3044} ``some text`` \u{3046}\u{3048}".to_owned();
    let path = "test.md".to_owned();
    let doc = Document::new(path, text);
    let rule = MD038::new();
    let actual = rule.check(&doc);
    let expected = vec![];
    assert_eq!(actual, expected);
}

#[test]
fn md038_check_errors_with_escaped_pipe_in_table() {
    let text = r"| a | b |
| --- | --- |
| x\|y\|z ``some text`` | c |
| x\|y `` some text `` | c |
".to_owned();
    let path = "test.md".to_owned();
    let doc = Document::new(path.clone(), text);
    let rule = MD038::new();
    let actual = rule.check(&doc);
    let expected = vec![rule.to_violation(path, Sourcepos::from((4, 8, 4, 22)))];
    assert_eq!(actual, expected);
}

#[test]
fn check_errors_with_escaped_pipe_inside_code_span_in_table() {
    let text = r"| a | b |
| --- | --- |
| x\|y\|z `` a\|b `` | c |
".to_owned();
    let path = "test.md".to_owned();
    let doc = Document::new(path.clone(), text);
    let rule = MD038::new();
    let actual = rule.check(&doc);
    let expected = vec![rule.to_violation(path, Sourcepos::from((3, 11, 3, 20)))];
    assert_eq!(actual, expected);
}

#[test]
fn check_no_errors_with_padded_multiline_code_span() {
    let text = "` some\ntext `\n".to_owned();
    let path = "test.md".to_owned();
    let doc = Document::new(path, text);
    let rule = MD038::new();
    let actual = rule.check(&doc);
    let expected = vec![];
    assert_eq!(actual, expected);
}

#[test]
fn check_no_errors_with_multiline_code_span_around_content() {
    let text = "``\n`x`\n``\n".to_owned();
    let path = "test.md".to_owned();
    let doc = Document::new(path, text);
    let rule = MD038::new();
    let actual = rule.check(&doc);
    let expected = vec![];
    assert_eq!(actual, expected);
}

#[test]
fn check_no_errors_with_multiline_code_span_in_blockquote() {
    let text = "> `text\n>`\n".to_owned();
    let path = "test.md".to_owned();
    let doc = Document::new(path, text);
    let rule = MD038::new();
    let actual = rule.check(&doc);
    let expected = vec![];
    assert_eq!(actual, expected);
}

#[test]
fn check_no_errors_with_multiline_code_span_after_indentation() {
    let text = "lead in\n  indented continuation with ` pad\ntext ` end\n".to_owned();
    let path = "test.md".to_owned();
    let doc = Document::new(path, text);
    let rule = MD038::new();
    let actual = rule.check(&doc);
    let expected = vec![];
    assert_eq!(actual, expected);
}

#[test]
fn check_errors_with_escaped_pipe_in_table_header_preface() {
    let text = r"text x\|y `` some text `` here
| a | b |
| --- | --- |
| c | d |
".to_owned();
    let path = "test.md".to_owned();
    let doc = Document::new(path.clone(), text);
    let rule = MD038::new();
    let actual = rule.check(&doc);
    let expected = vec![rule.to_violation(path, Sourcepos::from((1, 11, 1, 25)))];
    assert_eq!(actual, expected);
}

