use crate::document::Document;
use crate::markdown::{
    flat_map, lemma_flat_map_visits, lemma_flat_map_visits_children, visits, visits_children,
    LineColumn, MdNode, NodeKind, Sourcepos, Visit,
};
use crate::text::bytes_of;
use crate::violation::{reports, violations_at, Metadata, Tag, Violation};
use linkify::LinkFinder;
use vstd::prelude::*;

verus! {

/// MD034: bare URL used.
#[derive(Debug, Default, Clone, Copy, PartialEq, Eq)]
#[non_exhaustive]
pub struct MD034;

/// The links (URLs and e-mail addresses) that `linkify`'s default
/// `LinkFinder` finds in a text, in order, each as the byte offsets of its
/// start and of the byte after its end.
pub uninterp spec fn found_links(text: Seq<char>) -> Seq<(usize, usize)>;

/// Runs `LinkFinder::new().links(text)` and keeps each link's `start()` and
/// `end()`. The result is named, not described: it is a function of the text
/// alone. What is stated of it is what linkify's `Link` shows: each link is a
/// byte range of the text (`as_str` slices the text by it).
#[verifier::external_body]
fn find_links(text: &str) -> (links: Vec<(usize, usize)>)
    ensures
        links@ == found_links(text@),
        forall|i: int|
            0 <= i < links@.len() ==> #[trigger] links@[i].0 <= links@[i].1 <= bytes_of(
                text@,
            ).len(),
{
    LinkFinder::new().links(text).map(|link| (link.start(), link.end())).collect()
}

/// Where a link that takes bytes `link.0 .. link.1` of the text `literal`,
/// placed by comrak at `p`, was written: on the text's first line, from the
/// column of its first byte to that of the byte after its last.
pub open spec fn link_position(doc: Document, p: Sourcepos, literal: Seq<char>, link: (
    usize,
    usize,
)) -> Sourcepos {
    Sourcepos {
        start: LineColumn {
            line: p.start.line,
            column: doc.spec_written_column_of(p, bytes_of(literal), link.0 as int) as usize,
        },
        end: LineColumn {
            line: p.start.line,
            column: doc.spec_written_column_of(p, bytes_of(literal), link.1 as int) as usize,
        },
    }
}

/// Where each of `links`, found in the text `literal` at `p`, was written.
pub open spec fn link_positions(
    doc: Document,
    p: Sourcepos,
    literal: Seq<char>,
    links: Seq<(usize, usize)>,
) -> Seq<Sourcepos> {
    links.map_values(|link: (usize, usize)| link_position(doc, p, literal, link))
}

/// The positions to report for node `n` alone: each link in its text, where
/// `n` is a text whose parent is not a link.
pub open spec fn bare_urls_at(doc: Document, n: MdNode, in_link: bool) -> Seq<Sourcepos> {
    match n.kind {
        NodeKind::Text(t) => if in_link {
            seq![]
        } else {
            link_positions(doc, n.sourcepos, t@, found_links(t@))
        },
        _ => seq![],
    }
}

/// The positions of the bare links in the tree under `n`, in document order,
/// where `in_link` says whether `n`'s parent is a link.
pub open spec fn bare_urls(doc: Document, n: MdNode, in_link: bool) -> Seq<Sourcepos>
    decreases n,
{
    bare_urls_at(doc, n, in_link) + bare_urls_children(doc, n.children@, n.kind is Link)
}

/// The positions of the bare links in the trees `cs`, whose parent is a link
/// where `in_link` says so.
pub open spec fn bare_urls_children(doc: Document, cs: Seq<MdNode>, in_link: bool) -> Seq<
    Sourcepos,
>
    decreases cs,
{
    if cs.len() == 0 {
        seq![]
    } else {
        bare_urls_children(doc, cs.drop_last(), in_link) + bare_urls(doc, cs.last(), in_link)
    }
}

/// Whether a node whose ancestors are `anc` has a link for its parent.
pub open spec fn parent_is_link(anc: Seq<MdNode>) -> bool {
    anc.len() > 0 && anc.last().kind is Link
}

/// What one node of a pre-order walk gives: `bare_urls_at` of it, told from
/// its ancestors whether its parent is a link.
pub open spec fn bare_url_visit(doc: Document) -> spec_fn(Visit) -> Seq<Sourcepos> {
    |v: Visit| bare_urls_at(doc, v.0, parent_is_link(v.1))
}

/// The positions under `n` (whose ancestors are `anc`) are, text by text in
/// pre-order (`n` first, then its descendants, as comrak's `descendants`
/// walks them), where each link that the finder finds in a text whose parent
/// is not a link was written, in the order the finder gives them.
pub proof fn lemma_bare_urls_pre_order(doc: Document, n: MdNode, anc: Seq<MdNode>)
    ensures
        bare_urls(doc, n, parent_is_link(anc)) == flat_map(visits(n, anc), bare_url_visit(doc)),
    decreases n,
{
    lemma_flat_map_visits(n, anc, bare_url_visit(doc));
    lemma_bare_urls_children_pre_order(doc, n.children@, anc.push(n));
}

/// `lemma_bare_urls_pre_order` for the trees `cs`, one after the other.
pub proof fn lemma_bare_urls_children_pre_order(doc: Document, cs: Seq<MdNode>, anc: Seq<MdNode>)
    ensures
        bare_urls_children(doc, cs, parent_is_link(anc)) == flat_map(
            visits_children(cs, anc),
            bare_url_visit(doc),
        ),
    decreases cs,
{
    if cs.len() > 0 {
        lemma_flat_map_visits_children(cs, anc, bare_url_visit(doc));
        lemma_bare_urls_children_pre_order(doc, cs.drop_last(), anc);
        lemma_bare_urls_pre_order(doc, cs.last(), anc);
    }
}

/// Each link is reported from a column no later than the one it is reported
/// to, on one line.
pub proof fn lemma_link_position_ordered(
    doc: Document,
    p: Sourcepos,
    literal: Seq<char>,
    link: (usize, usize),
)
    requires
        link.0 <= link.1,
    ensures
        link_position(doc, p, literal, link).start.line == link_position(
            doc,
            p,
            literal,
            link,
        ).end.line,
        link_position(doc, p, literal, link).start.column <= link_position(
            doc,
            p,
            literal,
            link,
        ).end.column,
{
    let lit = bytes_of(literal);
    doc.lemma_written_column_of_monotone(p, lit, link.0 as int, link.1 as int);
    doc.lemma_written_column_of_in_range(p, lit, link.0 as int);
    doc.lemma_written_column_of_in_range(p, lit, link.1 as int);
}

/// Whether `p` starts and ends on one line, its start no later than its end.
pub open spec fn on_one_line(p: Sourcepos) -> bool {
    p.start.line == p.end.line && p.start.column <= p.end.column
}

/// A text inside a link (a link's text or an autolink) is already linked,
/// and nothing in it is reported; nor is anything in a node that is not a
/// text, such as a code span.
pub proof fn lemma_linked_text_unreported(doc: Document, n: MdNode, in_link: bool)
    ensures
        bare_urls_at(doc, n, true) == Seq::<Sourcepos>::empty(),
        !(n.kind is Text) ==> bare_urls_at(doc, n, in_link) == Seq::<Sourcepos>::empty(),
{
}

impl MD034 {
    #[inline]
    #[must_use]
    pub fn new() -> Self {
        MD034
    }

    /// The rule's name, description, tags and aliases.
    pub fn metadata(&self) -> (m: Metadata)
        ensures
            m.name@ == "MD034"@,
            m.description@ == "Bare URL used"@,
            m.tags@ == seq![Tag::Links, Tag::Url],
            m.aliases@.len() == 1 && m.aliases@[0]@ == "no-bare-urls"@,
    {
        Metadata {
            name: "MD034",
            description: "Bare URL used",
            tags: vec![Tag::Links, Tag::Url],
            aliases: vec!["no-bare-urls"],
        }
    }

    /// A violation of this rule at `position` in the document at `path`.
    pub fn to_violation(&self, path: String, position: Sourcepos) -> (v: Violation)
        ensures
            v.path@ == path@,
            v.name@ == "MD034"@,
            v.position == position,
    {
        Violation { path, name: "MD034", position }
    }

    /// Where each of `links`, the byte ranges of the links found in the text
    /// `literal` that comrak places at `position`, was written: from the column
    /// of its first byte to the column of the byte after its last, on the
    /// text's first line. The text is what a reader is given, with CommonMark's
    /// escapes resolved; the columns are put back on the line as written.
    pub fn link_positions(
        doc: &Document,
        position: Sourcepos,
        literal: &str,
        links: &Vec<(usize, usize)>,
    ) -> (r: Vec<Sourcepos>)
        ensures
            r@ == link_positions(*doc, position, literal@, links@),
    {
        let mut r: Vec<Sourcepos> = Vec::new();
        let mut i: usize = 0;
        while i < links.len()
            invariant
                0 <= i <= links@.len(),
                r@ == link_positions(*doc, position, literal@, links@.take(i as int)),
            decreases links@.len() - i,
        {
            let (start, end) = links[i];
            let p = Sourcepos {
                start: LineColumn {
                    line: position.start.line,
                    column: doc.written_column_of(position, literal, start),
                },
                end: LineColumn {
                    line: position.start.line,
                    column: doc.written_column_of(position, literal, end),
                },
            };
            r.push(p);
            proof {
                assert(links@.take(i + 1) =~= links@.take(i as int).push(links@[i as int]));
                assert(r@ =~= link_positions(*doc, position, literal@, links@.take(i + 1)));
            }
            i += 1;
        }
        proof {
            assert(links@.take(i as int) =~= links@);
        }
        r
    }

    /// Appends the positions of the bare links under `n` (see `bare_urls`).
    fn check_node(doc: &Document, n: &MdNode, in_link: bool, out: &mut Vec<Sourcepos>)
        requires
            forall|j: int| 0 <= j < old(out)@.len() ==> on_one_line(#[trigger] old(out)@[j]),
        ensures
            final(out)@ == old(out)@ + bare_urls(*doc, *n, in_link),
            forall|j: int| 0 <= j < final(out)@.len() ==> on_one_line(#[trigger] final(out)@[j]),
        decreases n,
    {
        if let NodeKind::Text(literal) = &n.kind {
            if !in_link {
                let links = find_links(literal.as_str());
                let found = Self::link_positions(doc, n.sourcepos, literal.as_str(), &links);
                proof {
                    assert forall|j: int| 0 <= j < found@.len() implies on_one_line(
                        #[trigger] found@[j],
                    ) by {
                        assert(links@[j].0 <= links@[j].1);
                        lemma_link_position_ordered(*doc, n.sourcepos, literal@, links@[j]);
                    }
                }
                let mut k: usize = 0;
                let ghost before = out@;
                while k < found.len()
                    invariant
                        0 <= k <= found@.len(),
                        out@ == before + found@.take(k as int),
                        forall|j: int| 0 <= j < found@.len() ==> on_one_line(#[trigger] found@[j]),
                        forall|j: int| 0 <= j < out@.len() ==> on_one_line(#[trigger] out@[j]),
                    decreases found@.len() - k,
                {
                    out.push(found[k]);
                    proof {
                        assert(found@.take(k + 1) =~= found@.take(k as int).push(found@[k as int]));
                    }
                    k += 1;
                }
                proof {
                    assert(found@.take(k as int) =~= found@);
                }
            }
        }
        let ghost start = out@;
        assert(out@ == old(out)@ + bare_urls_at(*doc, *n, in_link));
        let is_link = matches!(n.kind, NodeKind::Link);
        let len = n.children.len();
        let mut i: usize = 0;
        while i < len
            invariant
                len == n.children@.len(),
                0 <= i <= len,
                is_link == n.kind is Link,
                out@ == start + bare_urls_children(*doc, n.children@.take(i as int), is_link),
                forall|j: int| 0 <= j < out@.len() ==> on_one_line(#[trigger] out@[j]),
            decreases len - i,
        {
            proof {
                assert(n.children@.take(i + 1).drop_last() =~= n.children@.take(i as int));
            }
            Self::check_node(doc, &n.children[i], is_link, out);
            i += 1;
        }
        proof {
            assert(n.children@.take(i as int) =~= n.children@);
        }
    }

    /// The bare URLs of `doc`, in document order: each link that `linkify`
    /// finds in a text whose parent is not a link, reported where it was
    /// written.
    pub fn check(&self, doc: &Document) -> (vs: Vec<Violation>)
        ensures
            reports(vs@, doc.path@, "MD034"@, bare_urls(*doc, doc.root, false)),
            reports(
                vs@,
                doc.path@,
                "MD034"@,
                flat_map(visits(doc.root, seq![]), bare_url_visit(*doc)),
            ),
            forall|i: int| 0 <= i < vs@.len() ==> on_one_line(#[trigger] vs@[i].position),
    {
        let mut positions: Vec<Sourcepos> = Vec::new();
        Self::check_node(doc, &doc.root, false, &mut positions);
        let vs = violations_at(&doc.path, "MD034", &positions);
        proof {
            lemma_bare_urls_pre_order(*doc, doc.root, seq![]);
            assert forall|i: int| 0 <= i < vs@.len() implies on_one_line(
                #[trigger] vs@[i].position,
            ) by {
                assert(vs@[i].path@ == doc.path@);
                assert(vs@[i].position == positions@[i]);
            }
        }
        vs
    }
}

} // verus!
