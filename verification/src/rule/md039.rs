use crate::document::Document;
use crate::markdown::{
    flat_map, lemma_flat_map_visits, lemma_flat_map_visits_children, visits, visits_children,
    MdNode, NodeKind, Sourcepos, Visit,
};
use crate::text::{chars_of, ends_with_white_space, starts_with_white_space, white_space};
use crate::violation::{reports, violations_at, Metadata, Tag, Violation};
use vstd::prelude::*;

verus! {

/// MD039: spaces inside link text.
#[derive(Debug, Default, Clone, Copy, PartialEq, Eq)]
#[non_exhaustive]
pub struct MD039;

/// Whether `n` is a text node whose text starts with white space.
pub open spec fn text_starting_with_space(n: MdNode) -> bool {
    n.kind matches NodeKind::Text(t) && starts_with_white_space(t@)
}

/// Whether `n` is a text node whose text ends with white space.
pub open spec fn text_ending_with_space(n: MdNode) -> bool {
    n.kind matches NodeKind::Text(t) && ends_with_white_space(t@)
}

/// The position to report for node `n` alone: for a link whose first child is
/// a text that starts with white space, that text; otherwise, for a link whose
/// last child is a text that ends with white space, that text; each as
/// written.
pub open spec fn spaced_link_at(doc: Document, n: MdNode) -> Seq<Sourcepos> {
    let cs = n.children@;
    if n.kind is Link && cs.len() > 0 && text_starting_with_space(cs[0]) {
        seq![doc.spec_written_position(cs[0].sourcepos)]
    } else if n.kind is Link && cs.len() > 0 && text_ending_with_space(cs.last()) {
        seq![doc.spec_written_position(cs.last().sourcepos)]
    } else {
        seq![]
    }
}

/// The positions to report in the tree under `n`, in document order.
pub open spec fn spaced_links(doc: Document, n: MdNode) -> Seq<Sourcepos>
    decreases n,
{
    spaced_link_at(doc, n) + spaced_links_children(doc, n.children@)
}

/// The positions to report in the trees `cs`, in document order.
pub open spec fn spaced_links_children(doc: Document, cs: Seq<MdNode>) -> Seq<Sourcepos>
    decreases cs,
{
    if cs.len() == 0 {
        seq![]
    } else {
        spaced_links_children(doc, cs.drop_last()) + spaced_links(doc, cs.last())
    }
}

/// What one node of a pre-order walk gives: `spaced_link_at` of it.
pub open spec fn spaced_link_visit(doc: Document) -> spec_fn(Visit) -> Seq<Sourcepos> {
    |v: Visit| spaced_link_at(doc, v.0)
}

/// The positions under `n` are, link by link in pre-order (`n` first, then
/// its descendants, as comrak's `descendants` walks them), the leading text of
/// each link whose first child is a text starting with white space, and else
/// the trailing text of one whose last child is a text ending with it.
pub proof fn lemma_spaced_links_pre_order(doc: Document, n: MdNode, anc: Seq<MdNode>)
    ensures
        spaced_links(doc, n) == flat_map(visits(n, anc), spaced_link_visit(doc)),
    decreases n,
{
    lemma_flat_map_visits(n, anc, spaced_link_visit(doc));
    lemma_spaced_links_children_pre_order(doc, n.children@, anc.push(n));
}

/// `lemma_spaced_links_pre_order` for the trees `cs`, one after the other.
pub proof fn lemma_spaced_links_children_pre_order(
    doc: Document,
    cs: Seq<MdNode>,
    anc: Seq<MdNode>,
)
    ensures
        spaced_links_children(doc, cs) == flat_map(visits_children(cs, anc), spaced_link_visit(doc)),
    decreases cs,
{
    if cs.len() > 0 {
        lemma_flat_map_visits_children(cs, anc, spaced_link_visit(doc));
        lemma_spaced_links_children_pre_order(doc, cs.drop_last(), anc);
        lemma_spaced_links_pre_order(doc, cs.last(), anc);
    }
}

/// A link is reported at most once, and only a link is: at its first text
/// where that starts with white space, and otherwise at its last text.
pub proof fn lemma_one_report_per_link(doc: Document, n: MdNode)
    ensures
        spaced_link_at(doc, n).len() <= 1,
        !(n.kind is Link) ==> spaced_link_at(doc, n).len() == 0,
        n.kind is Link && n.children@.len() > 0 && text_starting_with_space(n.children@[0])
            ==> spaced_link_at(doc, n) == seq![doc.spec_written_position(n.children@[0].sourcepos)],
{
}

/// Whether `n` is a text node whose text starts (`at_start`) or ends with
/// white space.
fn text_with_space(n: &MdNode, at_start: bool) -> (r: bool)
    ensures
        r == if at_start {
            text_starting_with_space(*n)
        } else {
            text_ending_with_space(*n)
        },
{
    match &n.kind {
        NodeKind::Text(t) => {
            let cs = chars_of(t.as_str());
            let len = cs.len();
            if len == 0 {
                false
            } else if at_start {
                white_space(cs[0])
            } else {
                white_space(cs[len - 1])
            }
        },
        _ => false,
    }
}

impl MD039 {
    #[inline]
    #[must_use]
    pub fn new() -> Self {
        MD039
    }

    /// The rule's name, description, tags and aliases.
    pub fn metadata(&self) -> (m: Metadata)
        ensures
            m.name@ == "MD039"@,
            m.description@ == "Spaces inside link text"@,
            m.tags@ == seq![Tag::Whitespace, Tag::Links],
            m.aliases@.len() == 1 && m.aliases@[0]@ == "no-space-in-links"@,
    {
        Metadata {
            name: "MD039",
            description: "Spaces inside link text",
            tags: vec![Tag::Whitespace, Tag::Links],
            aliases: vec!["no-space-in-links"],
        }
    }

    /// A violation of this rule at `position` in the document at `path`.
    pub fn to_violation(&self, path: String, position: Sourcepos) -> (v: Violation)
        ensures
            v.path@ == path@,
            v.name@ == "MD039"@,
            v.position == position,
    {
        Violation { path, name: "MD039", position }
    }

    /// Appends the positions to report under `n`.
    fn check_node(doc: &Document, n: &MdNode, out: &mut Vec<Sourcepos>)
        ensures
            final(out)@ == old(out)@ + spaced_links(*doc, *n),
        decreases n,
    {
        let len = n.children.len();
        if matches!(n.kind, NodeKind::Link) && len > 0 {
            if text_with_space(&n.children[0], true) {
                out.push(doc.written_position(n.children[0].sourcepos));
            } else if text_with_space(&n.children[len - 1], false) {
                out.push(doc.written_position(n.children[len - 1].sourcepos));
            }
        }
        let ghost start = out@;
        assert(out@ == old(out)@ + spaced_link_at(*doc, *n));
        let mut i: usize = 0;
        while i < len
            invariant
                len == n.children@.len(),
                0 <= i <= len,
                out@ == start + spaced_links_children(*doc, n.children@.take(i as int)),
            decreases len - i,
        {
            proof {
                assert(n.children@.take(i + 1).drop_last() =~= n.children@.take(i as int));
            }
            Self::check_node(doc, &n.children[i], out);
            i += 1;
        }
        proof {
            assert(n.children@.take(i as int) =~= n.children@);
        }
    }

    /// The links of `doc` whose text starts or ends with white space, in
    /// document order, each reported (once) at that text as written.
    pub fn check(&self, doc: &Document) -> (vs: Vec<Violation>)
        ensures
            reports(vs@, doc.path@, "MD039"@, spaced_links(*doc, doc.root)),
            reports(
                vs@,
                doc.path@,
                "MD039"@,
                flat_map(visits(doc.root, seq![]), spaced_link_visit(*doc)),
            ),
    {
        let mut positions: Vec<Sourcepos> = Vec::new();
        Self::check_node(doc, &doc.root, &mut positions);
        proof {
            lemma_spaced_links_pre_order(*doc, doc.root, seq![]);
        }
        violations_at(&doc.path, "MD039", &positions)
    }
}

} // verus!
