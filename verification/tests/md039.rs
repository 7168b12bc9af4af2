use mado::document::Document;
use mado::markdown::Sourcepos;
use mado::rule::md039::MD039;

#[test]
fn md039_check_errors() {
    let text = "[ a link ](http://www.example.com/)\n[a link ](http://www.example.com/)\n[ a link](http://www.example.com/)\n".to_owned();
    let path = "test.md".to_owned();
    let doc = Document::new(path.clone(), text);
    let rule = MD039::new();
    let actual = rule.check(&doc);
    let expected = vec![
        rule.to_violation(path.clone(), Sourcepos::from((1, 2, 1, 9))),
        rule.to_violation(path.clone(), Sourcepos::from((2, 2, 2, 8))),
        rule.to_violation(path, Sourcepos::from((3, 2, 3, 8))),
    ];
    assert_eq!(actual, expected);
}

#[test]
fn check_errors_code() {
    let text = "[ a `link` ](http://www.example.com/)\n[ `link` ](http://www.example.com)\n[`link` ](http://www.example.com)\n[ `link`](http://www.example.com)\n".to_owned();
    let path = "test.md".to_owned();
    let doc = Document::new(path.clone(), text);
    let rule = MD039::new();
    let actual = rule.check(&doc);
    let expected = vec![
        rule.to_violation(path.clone(), Sourcepos::from((1, 2, 1, 4))),
        rule.to_violation(path.clone(), Sourcepos::from((2, 2, 2, 2))),
        rule.to_violation(path.clone(), Sourcepos::from((3, 8, 3, 8))),
        rule.to_violation(path, Sourcepos::from((4, 2, 4, 2))),
    ];
    assert_eq!(actual, expected);
}

#[test]
fn md039_check_no_errors() {
    let text = "[a link](http://www.example.com/)".to_owned();
    let path = "test.md".to_owned();
    let doc = Document::new(path, text);
    let rule = MD039::new();
    let actual = rule.check(&doc);
    let expected = vec![];
    assert_eq!(actual, expected);
}

#[test]
fn check_no_errors_url() {
    let text = "[a link]( http://www.example.com/ )".to_owned();
    let path = "test.md".to_owned();
    let doc = Document::new(path, text);
    let rule = MD039::new();
    let actual = rule.check(&doc);
    let expected = vec![];
    assert_eq!(actual, expected);
}

#[test]
fn check_no_errors_bracket() {
    let text = "< http://www.example.com/ >".to_owned();
    let path = "test.md".to_owned();
    let doc = Document::new(path, text);
    let rule = MD039::new();
    let actual = rule.check(&doc);
    let expected = vec![];
    assert_eq!(actual, expected);
}

#[test]
fn check_no_errors_code() {
    let text = "[a `link`](http://www.example.com)\n[`link`](http://www.example.com)\n".to_owned();
    let path = "test.md".to_owned();
    let doc = Document::new(path, text);
    let rule = MD039::new();
    let actual = rule.check(&doc);
    let expected = vec![];
    assert_eq!(actual, expected);
}

#[test]
fn md039_check_errors_with_escaped_pipe_in_table() {
    let text = r"| a | b |
| --- | --- |
| x\|y [ t ](http://www.example.com/) | c |
| x\|y\|z [ t ](http://www.example.com/) | c |
".to_owned();
    let path = "test.md".to_owned();
    let doc = Document::new(path.clone(), text);
    let rule = MD039::new();
    let actual = rule.check(&doc);
    let expected = vec![
        rule.to_violation(path.clone(), Sourcepos::from((3, 9, 3, 11))),
        rule.to_violation(path, Sourcepos::from((4, 12, 4, 14))),
    ];
    assert_eq!(actual, expected);
}

