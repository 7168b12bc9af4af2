use mado::document::Document;
use mado::markdown::{MdNode, NodeKind, Sourcepos};

fn doc(text: &str) -> Document {
    Document::new("test.md".to_owned(), text.to_owned())
}

#[test]
fn lines_split_at_line_endings() {
    let d = doc("a\r\nb\n\nc\r");
    assert_eq!(d.lines, vec!["a".to_owned(), "b".to_owned(), String::new(), "c\r".to_owned()]);
}

#[test]
fn lines_of_an_empty_text() {
    let d = doc("");
    assert!(d.lines.is_empty());
    assert!(d.root.children.is_empty());
}

#[test]
fn tree_of_a_bullet_list() {
    let d = doc("* a\n* b\n");
    assert_eq!(d.root.children.len(), 1);
    let list = &d.root.children[0];
    assert!(matches!(list.kind, NodeKind::List(_)));
    assert_eq!(list.children.len(), 2);
    let item = &list.children[1];
    match item.kind {
        NodeKind::Item(info) => {
            assert_eq!(info.bullet_char, b'*');
            assert_eq!(info.padding, 2);
        }
        _ => panic!("not an item"),
    }
    assert_eq!(item.sourcepos, Sourcepos::from((2, 1, 2, 3)));
}

#[test]
fn tree_of_a_code_span() {
    let d = doc("x ``  a  `` y");
    let para: &MdNode = &d.root.children[0];
    let code = para
        .children
        .iter()
        .find(|n| matches!(n.kind, NodeKind::Code(_)))
        .unwrap();
    match &code.kind {
        NodeKind::Code(c) => {
            assert_eq!(c.num_backticks, 2);
            assert_eq!(c.literal, " a ");
        }
        _ => unreachable!(),
    }
    assert_eq!(code.sourcepos, Sourcepos::from((1, 3, 1, 11)));
}

#[test]
fn written_position_outside_tables_is_as_reported() {
    let d = doc("a \\| b `c`\n");
    let p = Sourcepos::from((1, 8, 1, 10));
    assert_eq!(d.written_position(p), p);
}

#[test]
fn written_position_in_a_table_puts_back_escaped_pipes() {
    let d = doc("| a | b |\n| --- | --- |\n| x\\|y `c` | d |\n");
    assert_eq!(d.written_column(3, 7), 8);
    assert_eq!(d.written_column(3, 3), 3);
    // A later cell starts counting again.
    assert_eq!(d.written_column(3, 14), 14);
}

#[test]
fn written_column_of_counts_escapes_twice() {
    let d = doc("x \\. y z\n");
    let p = Sourcepos::from((1, 1, 1, 8));
    let literal = "x . y z";
    assert_eq!(d.written_column_of(p, literal, 0), 1);
    assert_eq!(d.written_column_of(p, literal, 2), 3);
    assert_eq!(d.written_column_of(p, literal, 3), 5);
    assert_eq!(d.written_column_of(p, literal, 7), 9);
    // Past the end of the text the columns run on one per byte.
    assert_eq!(d.written_column_of(p, literal, 9), 11);
}

#[test]
fn written_column_of_is_monotone() {
    let d = doc("see http://a.com/b\\_c now\n");
    let p = Sourcepos::from((1, 1, 1, 25));
    let literal = "see http://a.com/b_c now";
    let mut last = 0;
    for k in 0..=literal.len() {
        let c = d.written_column_of(p, literal, k);
        assert!(c >= last);
        last = c;
    }
}

#[test]
fn written_column_of_on_a_plain_line_is_one_column_per_byte() {
    let d = doc("see http://a.com/ now\n");
    let p = Sourcepos::from((1, 1, 1, 21));
    let literal = "see http://a.com/ now";
    for k in 0..=literal.len() {
        assert_eq!(d.written_column_of(p, literal, k), 1 + k);
    }
}
