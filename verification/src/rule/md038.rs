use crate::document::Document;
use crate::markdown::{
    flat_map, lemma_flat_map_visits, lemma_flat_map_visits_children, visits, visits_children,
    CodeSpan, MdNode, NodeKind, Sourcepos, Visit,
};
use crate::text::{
    bytes, bytes_of, chars_of, ends_with_white_space, is_white_space, starts_with_white_space,
    white_space,
};
use crate::violation::{reports, violations_at, Metadata, Tag, Violation};
use vstd::prelude::*;
use vstd::string::StringExecFns;

verus! {

/// MD038: spaces inside code span elements.
#[derive(Debug, Default, Clone, Copy, PartialEq, Eq)]
#[non_exhaustive]
pub struct MD038;

/// Whether `s` is nothing but space characters (the empty text included).
pub open spec fn all_spaces(s: Seq<char>) -> bool {
    forall|i: int| 0 <= i < s.len() ==> s[i] == ' '
}

/// What CommonMark leaves of a code span's content `s`: one space off each
/// end where both ends are spaces and `s` is not all spaces (`None` where it
/// leaves `s` alone).
pub open spec fn stripped(s: Seq<char>) -> Option<Seq<char>> {
    if all_spaces(s) {
        None
    } else if s.len() >= 2 && s[0] == ' ' && s.last() == ' ' {
        Some(s.subrange(1, s.len() - 1))
    } else {
        None
    }
}

/// Whether `s` starts or ends with a backtick.
pub open spec fn touches_backtick(s: Seq<char>) -> bool {
    s.len() > 0 && (s[0] == '`' || s.last() == '`')
}

/// Whether a code span whose content is `s` carries padding: white space that
/// is still there after CommonMark's removal, or a removed pair of spaces that
/// does not shield a backtick.
pub open spec fn padded(s: Seq<char>) -> bool {
    let visible = match stripped(s) {
        Some(inner) => inner,
        None => s,
    };
    ||| starts_with_white_space(visible)
    ||| ends_with_white_space(visible)
    ||| (stripped(s) matches Some(inner) && !touches_backtick(inner))
}

/// The content of a code span as written between its delimiters, from its
/// `literal` (the content after CommonMark's removal), the number of
/// backticks on each side, and its position: the span is two delimiters wider
/// than what is between them, and that is either the literal or the literal
/// with a space at each end. `None` for a span over more than one line, or
/// one whose columns leave no room for its delimiters.
pub open spec fn written_content(literal: Seq<char>, num_backticks: int, p: Sourcepos) -> Option<
    Seq<char>,
> {
    let span = p.end.column + 1 - p.start.column;
    let width = span - 2 * num_backticks;
    if p.start.line != p.end.line || span < 0 || width < 0 {
        None
    } else if width == bytes_of(literal).len() + 2 {
        Some(seq![' '] + literal + seq![' '])
    } else {
        Some(literal)
    }
}

/// The position to report for node `n` alone, if it is a padded code span.
pub open spec fn padded_span_at(doc: Document, n: MdNode) -> Seq<Sourcepos> {
    match n.kind {
        NodeKind::Code(code) => match written_content(
            code.literal@,
            code.num_backticks as int,
            n.sourcepos,
        ) {
            Some(content) => if padded(content) {
                seq![doc.spec_written_position(n.sourcepos)]
            } else {
                seq![]
            },
            None => seq![],
        },
        _ => seq![],
    }
}

/// The positions, in document order, of the padded code spans in the tree
/// under `n`, as written.
pub open spec fn padded_spans(doc: Document, n: MdNode) -> Seq<Sourcepos>
    decreases n,
{
    padded_span_at(doc, n) + padded_spans_children(doc, n.children@)
}

/// The positions of the padded code spans in the trees `cs`.
pub open spec fn padded_spans_children(doc: Document, cs: Seq<MdNode>) -> Seq<Sourcepos>
    decreases cs,
{
    if cs.len() == 0 {
        seq![]
    } else {
        padded_spans_children(doc, cs.drop_last()) + padded_spans(doc, cs.last())
    }
}

/// A code span is rebuilt with a space at each end exactly when its width
/// between the delimiters, in bytes as comrak's columns count them, is two
/// more than the UTF-8 byte length of its literal; where the width is the
/// literal's byte length, nothing was removed and the literal is the content,
/// whatever characters it holds (`あ` takes three bytes, one column each).
pub proof fn lemma_content_by_byte_width(literal: Seq<char>, num_backticks: int, p: Sourcepos)
    requires
        p.start.line == p.end.line,
        p.end.column + 1 - p.start.column - 2 * num_backticks >= 0,
        p.end.column + 1 - p.start.column >= 0,
    ensures
        p.end.column + 1 - p.start.column - 2 * num_backticks == bytes_of(literal).len()
            ==> written_content(literal, num_backticks, p) == Some(literal),
        p.end.column + 1 - p.start.column - 2 * num_backticks == bytes_of(literal).len() + 2
            ==> written_content(literal, num_backticks, p) == Some(seq![' '] + literal + seq![' ']),
        p.end.column + 1 - p.start.column - 2 * num_backticks != bytes_of(literal).len() + 2
            ==> written_content(literal, num_backticks, p) == Some(literal),
{
}

/// A code span on one line whose literal holds no white space, written with
/// no more bytes between its delimiters than the literal's own, is never
/// reported, whatever characters it holds.
pub proof fn lemma_span_without_spaces_unreported(doc: Document, n: MdNode)
    requires
        n.kind matches NodeKind::Code(code) && {
            &&& forall|i: int|
                0 <= i < code.literal@.len() ==> !is_white_space(#[trigger] code.literal@[i])
            &&& n.sourcepos.end.column + 1 - n.sourcepos.start.column - 2 * code.num_backticks
                == bytes_of(code.literal@).len()
        },
        n.sourcepos.start.line == n.sourcepos.end.line,
    ensures
        padded_span_at(doc, n) == Seq::<Sourcepos>::empty(),
{
    if let NodeKind::Code(code) = n.kind {
        let lit = code.literal@;
        assert(written_content(lit, code.num_backticks as int, n.sourcepos) == Some(lit));
        if lit.len() > 0 {
            assert(!is_white_space(lit[0]));
            assert(!is_white_space(lit[lit.len() - 1]));
            assert(lit[0] != ' ');
        }
        assert(!padded(lit));
    }
}

/// What one node of a pre-order walk gives: its own position if it is a
/// padded code span.
pub open spec fn padded_span_visit(doc: Document) -> spec_fn(Visit) -> Seq<Sourcepos> {
    |v: Visit| padded_span_at(doc, v.0)
}

/// The positions under `n` are, node by node in pre-order (`n` first, then
/// its descendants, as comrak's `descendants` walks them), those of the code
/// spans written on one line whose content carries padding.
pub proof fn lemma_padded_spans_pre_order(doc: Document, n: MdNode, anc: Seq<MdNode>)
    ensures
        padded_spans(doc, n) == flat_map(visits(n, anc), padded_span_visit(doc)),
    decreases n,
{
    lemma_flat_map_visits(n, anc, padded_span_visit(doc));
    lemma_padded_spans_children_pre_order(doc, n.children@, anc.push(n));
}

/// `lemma_padded_spans_pre_order` for the trees `cs`, one after the other.
pub proof fn lemma_padded_spans_children_pre_order(
    doc: Document,
    cs: Seq<MdNode>,
    anc: Seq<MdNode>,
)
    ensures
        padded_spans_children(doc, cs) == flat_map(visits_children(cs, anc), padded_span_visit(doc)),
    decreases cs,
{
    if cs.len() > 0 {
        lemma_flat_map_visits_children(cs, anc, padded_span_visit(doc));
        lemma_padded_spans_children_pre_order(doc, cs.drop_last(), anc);
        lemma_padded_spans_pre_order(doc, cs.last(), anc);
    }
}

/// CommonMark's removal takes exactly one space off each end: what it leaves,
/// with a space put back at each end, is the content it started from.
pub proof fn lemma_stripped_restores(s: Seq<char>)
    ensures
        stripped(s) matches Some(inner) ==> s =~= seq![' '] + inner + seq![' '],
{
}

/// A span whose content starts or ends with a backtick can only be written
/// with a space at both ends, which CommonMark removes; those spaces are not
/// padding, so such a span is not reported unless white space remains after
/// the removal.
pub proof fn lemma_shielded_backtick_not_padded(inner: Seq<char>)
    requires
        touches_backtick(inner),
        !starts_with_white_space(inner),
        !ends_with_white_space(inner),
    ensures
        !padded(seq![' '] + inner + seq![' ']),
{
    let s = seq![' '] + inner + seq![' '];
    if inner[0] == '`' {
        assert(s[1] == '`');
    } else {
        assert(s[s.len() - 2] == inner.last());
    }
    assert(!all_spaces(s));
    assert(s.subrange(1, s.len() - 1) =~= inner);
}

/// A span of nothing but spaces is left alone by CommonMark, so each of its
/// spaces is in the output and the span is reported.
pub proof fn lemma_only_spaces_padded(s: Seq<char>)
    requires
        s.len() > 0,
        all_spaces(s),
    ensures
        padded(s),
{
    assert(s[0] == ' ');
}

/// A span whose delimiters are on different lines is never judged.
pub proof fn lemma_multiline_span_unjudged(doc: Document, n: MdNode)
    requires
        n.sourcepos.start.line != n.sourcepos.end.line,
    ensures
        padded_span_at(doc, n) == Seq::<Sourcepos>::empty(),
{
}

impl MD038 {
    #[inline]
    #[must_use]
    pub fn new() -> Self {
        MD038
    }

    /// The rule's name, description, tags and aliases.
    pub fn metadata(&self) -> (m: Metadata)
        ensures
            m.name@ == "MD038"@,
            m.description@ == "Spaces inside code span elements"@,
            m.tags@ == seq![Tag::Whitespace, Tag::Code],
            m.aliases@.len() == 1 && m.aliases@[0]@ == "no-space-in-code"@,
    {
        Metadata {
            name: "MD038",
            description: "Spaces inside code span elements",
            tags: vec![Tag::Whitespace, Tag::Code],
            aliases: vec!["no-space-in-code"],
        }
    }

    /// A violation of this rule at `position` in the document at `path`.
    pub fn to_violation(&self, path: String, position: Sourcepos) -> (v: Violation)
        ensures
            v.path@ == path@,
            v.name@ == "MD038"@,
            v.position == position,
    {
        Violation { path, name: "MD038", position }
    }

    /// The text between a code span's delimiters as it was written, before
    /// CommonMark removed any padding from it (see `written_content`). Widths
    /// rather than the line are used because comrak's columns in a table are
    /// not an index into the line, while a width survives that.
    pub fn content(code: &CodeSpan, position: Sourcepos) -> (r: Option<String>)
        ensures
            match r {
                Some(s) => written_content(code.literal@, code.num_backticks as int, position)
                    == Some(s@),
                None => written_content(code.literal@, code.num_backticks as int, position)
                    is None,
            },
    {
        if position.start.line != position.end.line {
            return None;
        }
        let span: u128 = position.end.column as u128 + 1;
        if span < position.start.column as u128 {
            return None;
        }
        let span = span - position.start.column as u128;
        let delimiters: u128 = 2 * (code.num_backticks as u128);
        if span < delimiters {
            return None;
        }
        let width = span - delimiters;
        let literal_len = bytes(code.literal.as_str()).len();
        if width == literal_len as u128 + 2 {
            let mut s = String::new();
            s.append(" ");
            s.append(code.literal.as_str());
            s.append(" ");
            proof {
                reveal_strlit(" ");
                assert(s@ =~= seq![' '] + code.literal@ + seq![' ']);
            }
            return Some(s);
        }
        Some(code.literal.clone())
    }

    /// The content as a reader sees it, or `None` when CommonMark leaves it
    /// alone: one space comes off each end of a span that both begins and ends
    /// with one, unless it is nothing but spaces.
    pub fn strip_padding(content: &str) -> (r: Option<&str>)
        ensures
            match r {
                Some(inner) => stripped(content@) == Some(inner@),
                None => stripped(content@) is None,
            },
    {
        let cs = chars_of(content);
        let n = cs.len();
        let mut i: usize = 0;
        while i < n
            invariant
                n == cs@.len(),
                cs@ == content@,
                0 <= i <= n,
                forall|j: int| 0 <= j < i ==> cs@[j] == ' ',
            ensures
                0 <= i <= n,
                forall|j: int| 0 <= j < i ==> cs@[j] == ' ',
                i < n ==> cs@[i as int] != ' ',
            decreases n - i,
        {
            if cs[i] != ' ' {
                break;
            }
            i += 1;
        }
        if i == n {
            return None;
        }
        assert(content@[i as int] != ' ');
        if n >= 2 && cs[0] == ' ' && cs[n - 1] == ' ' {
            Some(content.substring_char(1, n - 1))
        } else {
            None
        }
    }

    /// Whether a code span whose content is `content` carries a space this
    /// rule reports: one still standing after CommonMark's removal, whatever
    /// it sits next to, or a removed pair, unless it shields a backtick (a span
    /// that starts or ends with a backtick cannot be written without it).
    pub fn is_padded(content: &str) -> (r: bool)
        ensures
            r == padded(content@),
    {
        let stripped = Self::strip_padding(content);
        let visible = match stripped {
            Some(inner) => inner,
            None => content,
        };
        let v = chars_of(visible);
        let n = v.len();
        if n > 0 && (white_space(v[0]) || white_space(v[n - 1])) {
            return true;
        }
        match stripped {
            Some(inner) => {
                let w = chars_of(inner);
                let m = w.len();
                !(m > 0 && (w[0] == '`' || w[m - 1] == '`'))
            },
            None => false,
        }
    }

    /// Appends the written positions of the padded code spans under `n`.
    fn check_node(doc: &Document, n: &MdNode, out: &mut Vec<Sourcepos>)
        ensures
            final(out)@ == old(out)@ + padded_spans(*doc, *n),
        decreases n,
    {
        if let NodeKind::Code(code) = &n.kind {
            if let Some(content) = Self::content(code, n.sourcepos) {
                if Self::is_padded(content.as_str()) {
                    out.push(doc.written_position(n.sourcepos));
                }
            }
        }
        let ghost start = out@;
        assert(out@ == old(out)@ + padded_span_at(*doc, *n));
        let mut i: usize = 0;
        while i < n.children.len()
            invariant
                0 <= i <= n.children@.len(),
                out@ == start + padded_spans_children(*doc, n.children@.take(i as int)),
            decreases n.children@.len() - i,
        {
            proof {
                assert(n.children@.take(i + 1).drop_last() =~= n.children@.take(i as int));
            }
            Self::check_node(doc, &n.children[i], out);
            i += 1;
        }
        proof {
            assert(n.children@.take(i as int) =~= n.children@);
        }
    }

    /// The padded code spans of `doc`, in document order, each reported where
    /// it was written.
    pub fn check(&self, doc: &Document) -> (vs: Vec<Violation>)
        ensures
            reports(vs@, doc.path@, "MD038"@, padded_spans(*doc, doc.root)),
            reports(
                vs@,
                doc.path@,
                "MD038"@,
                flat_map(visits(doc.root, seq![]), padded_span_visit(*doc)),
            ),
    {
        let mut positions: Vec<Sourcepos> = Vec::new();
        Self::check_node(doc, &doc.root, &mut positions);
        proof {
            lemma_padded_spans_pre_order(*doc, doc.root, seq![]);
        }
        violations_at(&doc.path, "MD038", &positions)
    }
}

} // verus!
