use mado::document::Document;
use mado::markdown::Sourcepos;
use mado::rule::md034::MD034;

#[test]
fn md034_check_errors() {
    let text = "For more information, see http://www.example.com/.".to_owned();
    let path = "test.md".to_owned();
    let doc = Document::new(path.clone(), text);
    let rule = MD034::default();
    let actual = rule.check(&doc);
    let expected = vec![rule.to_violation(path, Sourcepos::from((1, 27, 1, 50)))];
    assert_eq!(actual, expected);
}

#[test]
fn check_no_errors_with_brackets() {
    let text = "For more information, see <http://www.example.com/>.".to_owned();
    let path = "test.md".to_owned();
    let doc = Document::new(path, text);
    let rule = MD034::default();
    let actual = rule.check(&doc);
    let expected = vec![];
    assert_eq!(actual, expected);
}

#[test]
fn check_no_errors_with_link() {
    let text = "For more information, see [http://www.example.com/](http://www.example.com/)."
        .to_owned();
    let path = "test.md".to_owned();
    let doc = Document::new(path, text);
    let rule = MD034::default();
    let actual = rule.check(&doc);
    let expected = vec![];
    assert_eq!(actual, expected);
}

#[test]
fn check_no_errors_with_code() {
    let text = "For more information, see `http://www.example.com/`.".to_owned();
    let path = "test.md".to_owned();
    let doc = Document::new(path, text);
    let rule = MD034::default();
    let actual = rule.check(&doc);
    let expected = vec![];
    assert_eq!(actual, expected);
}

#[test]
fn md034_check_errors_with_escaped_pipe_in_table() {
    let text = r"| a | b |
| --- | --- |
| x\|y http://www.example.com/ | c |
| x\|y\|z http://www.example.com/ | c |
".to_owned();
    let path = "test.md".to_owned();
    let doc = Document::new(path.clone(), text);
    let rule = MD034::default();
    let actual = rule.check(&doc);
    let expected = vec![
        rule.to_violation(path.clone(), Sourcepos::from((3, 8, 3, 31))),
        rule.to_violation(path, Sourcepos::from((4, 11, 4, 34))),
    ];
    assert_eq!(actual, expected);
}

#[test]
fn check_errors_with_escaped_pipe_at_end_of_table_cell() {
    let text = r"| a | b |
| --- | --- |
|x\|y http://www.example.com/| c |
".to_owned();
    let path = "test.md".to_owned();
    let doc = Document::new(path.clone(), text);
    let rule = MD034::default();
    let actual = rule.check(&doc);
    let expected = vec![rule.to_violation(path, Sourcepos::from((3, 7, 3, 30)))];
    assert_eq!(actual, expected);
}

#[test]
fn check_errors_with_escaped_pipe_after_url_in_table_cell() {
    let text = r"| a | b |
| --- | --- |
| x http://www.example.com/\|y |
".to_owned();
    let path = "test.md".to_owned();
    let doc = Document::new(path.clone(), text);
    let rule = MD034::default();
    let actual = rule.check(&doc);
    let expected = vec![rule.to_violation(path, Sourcepos::from((3, 5, 3, 28)))];
    assert_eq!(actual, expected);
}

#[test]
fn check_errors_with_escaped_punctuation() {
    let text = r"x \. y http://www.example.com/ z
x \. y\. z http://www.example.com/ w
".to_owned();
    let path = "test.md".to_owned();
    let doc = Document::new(path.clone(), text);
    let rule = MD034::default();
    let actual = rule.check(&doc);
    let expected = vec![
        rule.to_violation(path.clone(), Sourcepos::from((1, 8, 1, 31))),
        rule.to_violation(path, Sourcepos::from((2, 12, 2, 35))),
    ];
    assert_eq!(actual, expected);
}

#[test]
fn check_errors_with_escaped_pipe_outside_table() {
    let text = "see x\\|y http://www.example.com/".to_owned();
    let path = "test.md".to_owned();
    let doc = Document::new(path.clone(), text);
    let rule = MD034::default();
    let actual = rule.check(&doc);
    let expected = vec![rule.to_violation(path, Sourcepos::from((1, 10, 1, 33)))];
    assert_eq!(actual, expected);
}

#[test]
fn check_no_errors_with_escaped_authority() {
    let text = "see http://my\\_site.com/ now".to_owned();
    let path = "test.md".to_owned();
    let doc = Document::new(path, text);
    let rule = MD034::default();
    let actual = rule.check(&doc);
    let expected = vec![];
    assert_eq!(actual, expected);
}

#[test]
fn check_errors_with_escaped_authority_beside_a_url() {
    let text = "see http://ex\\_ample.com/ and http://ex.com now".to_owned();
    let path = "test.md".to_owned();
    let doc = Document::new(path.clone(), text);
    let rule = MD034::default();
    let actual = rule.check(&doc);
    let expected = vec![rule.to_violation(path, Sourcepos::from((1, 31, 1, 44)))];
    assert_eq!(actual, expected);
}

#[test]
fn check_errors_with_escaped_authority_that_resolves() {
    let text = "see http://ex\\-ample.com/ now".to_owned();
    let path = "test.md".to_owned();
    let doc = Document::new(path.clone(), text);
    let rule = MD034::default();
    let actual = rule.check(&doc);
    let expected = vec![rule.to_violation(path, Sourcepos::from((1, 5, 1, 26)))];
    assert_eq!(actual, expected);
}

#[test]
fn check_errors_with_escape_at_end_of_url() {
    let text = "see http://www.example.com/foo\\_ now".to_owned();
    let path = "test.md".to_owned();
    let doc = Document::new(path.clone(), text);
    let rule = MD034::default();
    let actual = rule.check(&doc);
    let expected = vec![rule.to_violation(path, Sourcepos::from((1, 5, 1, 33)))];
    assert_eq!(actual, expected);
}

#[test]
fn check_errors_with_multibyte_at_end_of_url() {
    let text = "see http://www.example.com/f\u{e9}\u{e9} now".to_owned();
    let path = "test.md".to_owned();
    let doc = Document::new(path.clone(), text);
    let rule = MD034::default();
    let actual = rule.check(&doc);
    let expected = vec![rule.to_violation(path, Sourcepos::from((1, 5, 1, 33)))];
    assert_eq!(actual, expected);
}

#[test]
fn check_errors_with_escape_at_start_of_node() {
    let text = "\\\\.x http://www.example.com/ y".to_owned();
    let path = "test.md".to_owned();
    let doc = Document::new(path.clone(), text);
    let rule = MD034::default();
    let actual = rule.check(&doc);
    let expected = vec![rule.to_violation(path, Sourcepos::from((1, 6, 1, 29)))];
    assert_eq!(actual, expected);
}

#[test]
fn check_errors_with_escaped_path() {
    let text = "see http://www.example.com/foo\\_bar now".to_owned();
    let path = "test.md".to_owned();
    let doc = Document::new(path.clone(), text);
    let rule = MD034::default();
    let actual = rule.check(&doc);
    let expected = vec![rule.to_violation(path, Sourcepos::from((1, 5, 1, 36)))];
    assert_eq!(actual, expected);
}

