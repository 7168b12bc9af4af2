use crate::document::Document;
use crate::markdown::{
    flat_map, lemma_flat_map_visits, lemma_flat_map_visits_children, visits, visits_children,
    ListInfo, ListType, MdNode, NodeKind, Sourcepos, Visit,
};
use crate::text::{bytes, bytes_of};
use crate::violation::{reports, violations_at, Metadata, Tag, Violation};
use vstd::prelude::*;
use vstd::utf8::is_char_boundary;

verus! {

/// MD007: unordered list indentation.
#[derive(Debug, Clone, Copy, PartialEq, Eq)]
#[non_exhaustive]
pub struct MD007 {
    indent: usize,
}

/// The index of the last byte `c` in `s`, if there is one.
pub open spec fn last_index_of(s: Seq<u8>, c: u8) -> Option<int>
    decreases s.len(),
{
    if s.len() == 0 {
        None
    } else if s.last() == c {
        Some(s.len() - 1)
    } else {
        last_index_of(s.drop_last(), c)
    }
}

/// The indentation of a list item at `p` relative to the blockquote that
/// holds it: the bytes on its line between the last `>` before it and the
/// item, less one space or tab right after the `>`. `None` where the line,
/// the column or a `>` before it is not there, or the column falls inside a
/// character.
pub open spec fn quoted_indent(lines: Seq<String>, p: Sourcepos) -> Option<int> {
    if p.start.column < 1 || p.start.line < 1 || p.start.line > lines.len() {
        None
    } else {
        let b = bytes_of(lines[p.start.line - 1]@);
        let indent = p.start.column - 1;
        if !is_char_boundary(b, indent) {
            None
        } else {
            let prefix = b.take(indent);
            match last_index_of(prefix, 0x3e) {
                None => None,
                Some(marker) => {
                    let rest = prefix.skip(marker + 1);
                    Some(
                        if rest.len() > 0 && (rest[0] == 0x20 || rest[0] == 0x09) {
                            rest.len() - 1
                        } else {
                            rest.len() as int
                        },
                    )
                },
            }
        }
    }
}

/// The last `c` in `s` is inside `s`.
proof fn lemma_last_index_in(s: Seq<u8>, c: u8)
    ensures
        last_index_of(s, c) matches Some(i) ==> 0 <= i < s.len() && s[i] == c,
    decreases s.len(),
{
    if s.len() > 0 && s.last() != c {
        lemma_last_index_in(s.drop_last(), c);
    }
}

/// The indentation inside a blockquote is never more than the bytes before
/// the item on its line: it is measured from a `>` before the item.
pub proof fn lemma_quoted_indent_within_column(lines: Seq<String>, p: Sourcepos)
    ensures
        quoted_indent(lines, p) matches Some(w) ==> 0 <= w < p.start.column,
{
    if p.start.column >= 1 && p.start.line >= 1 && p.start.line <= lines.len() {
        let b = bytes_of(lines[p.start.line - 1]@);
        let indent = p.start.column - 1;
        if is_char_boundary(b, indent) {
            vstd::utf8::encode_utf8_valid_utf8(lines[p.start.line - 1]@);
            lemma_char_boundary_in(b, indent);
            lemma_last_index_in(b.take(indent), 0x3e);
        }
    }
}

/// A character boundary is within the bytes.
proof fn lemma_char_boundary_in(b: Seq<u8>, i: int)
    requires
        vstd::utf8::valid_utf8(b),
        is_char_boundary(b, i),
    ensures
        0 <= i <= b.len(),
    decreases b.len(),
{
    reveal_with_fuel(is_char_boundary, 2);
    if i != 0 && !(i < 0 || b.len() < i) {
    }
}

/// No more items are reported than there are.
pub proof fn lemma_indent_reports_bounded(indent: int, lines: Seq<String>, its: Seq<ItemAt>)
    ensures
        indent_walk(indent, lines, its).0.len() <= its.len(),
    decreases its.len(),
{
    if its.len() > 0 {
        lemma_indent_reports_bounded(indent, lines, its.drop_last());
    }
}

/// A list item: its marker record, its position, and whether a blockquote
/// holds it.
pub type ItemAt = (ListInfo, Sourcepos, bool);

/// The list items in the tree under `n`, in document order, with whether a
/// blockquote holds each, where `quoted` says whether one holds `n`.
pub open spec fn items(n: MdNode, quoted: bool) -> Seq<ItemAt>
    decreases n,
{
    (match n.kind {
        NodeKind::Item(info) => seq![(info, n.sourcepos, quoted)],
        _ => seq![],
    }) + items_children(n.children@, quoted || n.kind is BlockQuote)
}

/// The list items in the trees `cs`, with `quoted` as for `items`.
pub open spec fn items_children(cs: Seq<MdNode>, quoted: bool) -> Seq<ItemAt>
    decreases cs,
{
    if cs.len() == 0 {
        seq![]
    } else {
        items_children(cs.drop_last(), quoted) + items(cs.last(), quoted)
    }
}

/// The indentation of list item `it`: its column less one, or, inside a
/// blockquote, what `quoted_indent` measures.
pub open spec fn item_indent(lines: Seq<String>, it: ItemAt) -> Option<int> {
    if it.2 {
        quoted_indent(lines, it.1)
    } else if it.1.start.column >= 1 {
        Some(it.1.start.column - 1)
    } else {
        None
    }
}

/// What walking the list items `its` in order leaves: the positions of the
/// bullet items whose indentation past the last measured item (or from the
/// margin, where it is not deeper than that one) is neither 0 nor `indent`,
/// and the indentation of the last item that could be measured. An item that
/// cannot be measured is skipped.
pub open spec fn indent_walk(indent: int, lines: Seq<String>, its: Seq<ItemAt>) -> (
    Seq<Sourcepos>,
    Option<int>,
)
    decreases its.len(),
{
    if its.len() == 0 {
        (seq![], None)
    } else {
        let (reported, prev) = indent_walk(indent, lines, its.drop_last());
        let it = its.last();
        match item_indent(lines, it) {
            None => (reported, prev),
            Some(ind) => {
                let level = match prev {
                    Some(p) => if ind > p {
                        ind - p
                    } else {
                        ind
                    },
                    None => ind,
                };
                let broken = it.0.list_type == ListType::Bullet && level != 0 && level != indent;
                (
                    reported + if broken {
                        seq![it.1]
                    } else {
                        seq![]
                    },
                    Some(ind),
                )
            },
        }
    }
}

/// The walk ends at the indentation of the last item of `its` that could be
/// measured, ordered or bullet alike: where that is `its[j]`, it is
/// `item_indent` of `its[j]`.
pub proof fn lemma_walk_ends_at_last_measured(
    indent: int,
    lines: Seq<String>,
    its: Seq<ItemAt>,
    j: int,
)
    requires
        0 <= j < its.len(),
        item_indent(lines, its[j]) is Some,
        forall|i: int| j < i < its.len() ==> (#[trigger] item_indent(lines, its[i])) is None,
    ensures
        indent_walk(indent, lines, its).1 == item_indent(lines, its[j]),
    decreases its.len(),
{
    let prev = its.drop_last();
    assert(its.last() == its[its.len() - 1]);
    if j < its.len() - 1 {
        assert(item_indent(lines, its[its.len() - 1]) is None);
        assert forall|i: int| j < i < prev.len() implies (#[trigger] item_indent(
            lines,
            prev[i],
        )) is None by {
            assert(prev[i] == its[i]);
            assert(item_indent(lines, its[i]) is None);
        }
        assert(prev[j] == its[j]);
        lemma_walk_ends_at_last_measured(indent, lines, prev, j);
    }
}

/// Where no item of `its` could be measured, the walk reports nothing and
/// ends with no indentation.
pub proof fn lemma_walk_unmeasured(indent: int, lines: Seq<String>, its: Seq<ItemAt>)
    requires
        forall|i: int| 0 <= i < its.len() ==> (#[trigger] item_indent(lines, its[i])) is None,
    ensures
        indent_walk(indent, lines, its) == (Seq::<Sourcepos>::empty(), Option::<int>::None),
    decreases its.len(),
{
    if its.len() > 0 {
        let prev = its.drop_last();
        assert(its.last() == its[its.len() - 1]);
        assert forall|i: int| 0 <= i < prev.len() implies (#[trigger] item_indent(
            lines,
            prev[i],
        )) is None by {
            assert(prev[i] == its[i]);
        }
        lemma_walk_unmeasured(indent, lines, prev);
    }
}

/// One more item `x` after `its`: an item that cannot be measured or is
/// ordered adds no report; a bullet item at indentation `w` is reported
/// exactly where its level is neither 0 nor `indent`, its level being how
/// much deeper it is than the indentation `p` the walk over `its` ended at,
/// where it is strictly deeper, and `w` itself where there is no `p` or it is
/// not deeper (so an item at the same indentation as the one before is judged
/// from the margin, like the first).
pub proof fn lemma_walk_step(indent: int, lines: Seq<String>, its: Seq<ItemAt>, x: ItemAt)
    ensures
        item_indent(lines, x) is None ==> indent_walk(indent, lines, its.push(x)) == indent_walk(
            indent,
            lines,
            its,
        ),
        item_indent(lines, x) matches Some(w) ==> indent_walk(indent, lines, its.push(x)).1 == Some(
            w,
        ),
        x.0.list_type != ListType::Bullet ==> indent_walk(indent, lines, its.push(x)).0
            == indent_walk(indent, lines, its).0,
        item_indent(lines, x) is Some && x.0.list_type == ListType::Bullet ==> {
            let w = item_indent(lines, x).unwrap();
            let level = match indent_walk(indent, lines, its).1 {
                Some(p) => if w > p {
                    w - p
                } else {
                    w
                },
                None => w,
            };
            indent_walk(indent, lines, its.push(x)).0 == indent_walk(indent, lines, its).0 + if level
                != 0 && level != indent {
                seq![x.1]
            } else {
                seq![]
            }
        },
{
    assert(its.push(x).drop_last() =~= its);
    assert(its.push(x).last() == x);
    if item_indent(lines, x) is Some {
        if x.0.list_type != ListType::Bullet {
            assert(indent_walk(indent, lines, its.push(x)).0 =~= indent_walk(indent, lines, its).0
                + Seq::<Sourcepos>::empty());
        }
    }
}

/// Whether one of `anc` is a blockquote.
pub open spec fn has_blockquote(anc: Seq<MdNode>) -> bool {
    exists|i: int| 0 <= i < anc.len() && (#[trigger] anc[i]).kind is BlockQuote
}

/// What one node of a pre-order walk gives: the node, if it is a list item,
/// with whether one of its ancestors is a blockquote.
pub open spec fn item_visit() -> spec_fn(Visit) -> Seq<ItemAt> {
    |v: Visit|
        match v.0.kind {
            NodeKind::Item(info) => seq![(info, v.0.sourcepos, has_blockquote(v.1))],
            _ => seq![],
        }
}

/// A blockquote is among `anc` and `n` exactly when it is among `anc` or is `n`.
proof fn lemma_has_blockquote_push(anc: Seq<MdNode>, n: MdNode)
    ensures
        has_blockquote(anc.push(n)) == (has_blockquote(anc) || n.kind is BlockQuote),
{
    let a = anc.push(n);
    if has_blockquote(anc) {
        let i = choose|i: int| 0 <= i < anc.len() && (#[trigger] anc[i]).kind is BlockQuote;
        assert(a[i] == anc[i]);
    }
    if n.kind is BlockQuote {
        assert(a[anc.len() as int] == n);
    }
    if has_blockquote(a) {
        let i = choose|i: int| 0 <= i < a.len() && (#[trigger] a[i]).kind is BlockQuote;
        if i < anc.len() {
            assert(a[i] == anc[i]);
        }
    }
}

/// The list items under `n` (whose ancestors are `anc`) are, in pre-order
/// (`n` first, then its descendants, as comrak's `descendants` walks them),
/// the item nodes, each with whether a blockquote is among its ancestors.
pub proof fn lemma_items_pre_order(n: MdNode, anc: Seq<MdNode>)
    ensures
        items(n, has_blockquote(anc)) == flat_map(visits(n, anc), item_visit()),
    decreases n,
{
    lemma_flat_map_visits(n, anc, item_visit());
    lemma_has_blockquote_push(anc, n);
    lemma_items_children_pre_order(n.children@, anc.push(n));
}

/// `lemma_items_pre_order` for the trees `cs`, one after the other.
pub proof fn lemma_items_children_pre_order(cs: Seq<MdNode>, anc: Seq<MdNode>)
    ensures
        items_children(cs, has_blockquote(anc)) == flat_map(visits_children(cs, anc), item_visit()),
    decreases cs,
{
    if cs.len() > 0 {
        lemma_flat_map_visits_children(cs, anc, item_visit());
        lemma_items_children_pre_order(cs.drop_last(), anc);
        lemma_items_pre_order(cs.last(), anc);
    }
}

/// A list item whose indentation could be measured, with that indentation.
pub type Measured = (ItemAt, int);

/// The items of `its` whose indentation can be measured, in order, each with
/// its indentation.
pub open spec fn measured(lines: Seq<String>, its: Seq<ItemAt>) -> Seq<Measured> {
    flat_map(
        its,
        |it: ItemAt|
            match item_indent(lines, it) {
                Some(w) => seq![(it, w)],
                None => seq![],
            },
    )
}

/// The nesting level of the `k`-th measured item: how much deeper it is than
/// the one before it, or its indentation where there is none before it or it
/// is not deeper.
pub open spec fn level_at(ms: Seq<Measured>, k: int) -> int {
    if k > 0 && ms[k].1 > ms[k - 1].1 {
        ms[k].1 - ms[k - 1].1
    } else {
        ms[k].1
    }
}

/// Whether the `k`-th measured item is a bullet item whose level is neither 0
/// nor `indent`.
pub open spec fn off_level(indent: int, ms: Seq<Measured>, k: int) -> bool {
    ms[k].0.0.list_type == ListType::Bullet && level_at(ms, k) != 0 && level_at(ms, k) != indent
}

/// The positions of the measured items that are off level, in order.
pub open spec fn misindented(indent: int, ms: Seq<Measured>) -> Seq<Sourcepos>
    decreases ms.len(),
{
    if ms.len() == 0 {
        seq![]
    } else {
        misindented(indent, ms.drop_last()) + if off_level(indent, ms, ms.len() - 1) {
            seq![ms.last().0.1]
        } else {
            seq![]
        }
    }
}

/// The indentation of the last measured item, if there is one.
pub open spec fn last_measured(ms: Seq<Measured>) -> Option<int> {
    if ms.len() == 0 {
        None
    } else {
        Some(ms.last().1)
    }
}

/// Walking the items reports exactly the bullet items, among those whose
/// indentation can be measured, whose level (measured against the measured
/// item just before) is neither 0 nor `indent`; items that cannot be measured
/// are skipped and never reported, ordered items are never reported, and the
/// walk ends at the indentation of the last measured item.
pub proof fn lemma_indent_walk_measured(indent: int, lines: Seq<String>, its: Seq<ItemAt>)
    ensures
        indent_walk(indent, lines, its) == (
            misindented(indent, measured(lines, its)),
            last_measured(measured(lines, its)),
        ),
    decreases its.len(),
{
    if its.len() > 0 {
        let prev = its.drop_last();
        lemma_indent_walk_measured(indent, lines, prev);
        let m0 = measured(lines, prev);
        let m = measured(lines, its);
        match item_indent(lines, its.last()) {
            None => {
                assert(m =~= m0);
            },
            Some(w) => {
                assert(m =~= m0.push((its.last(), w)));
                assert(m.drop_last() =~= m0);
                if m0.len() > 0 {
                    assert(m[m0.len() - 1] == m0.last());
                }
            },
        }
    }
}

impl MD007 {
    pub const DEFAULT_INDENT: usize = 4;

    /// The configured indentation of each nesting level.
    pub closed spec fn indent_setting(self) -> usize {
        self.indent
    }

    /// A rule is its indentation: two rules with the same indentation are the
    /// same rule, so `new(DEFAULT_INDENT)` is `default()`.
    pub proof fn lemma_same_indent_same_rule(self, other: MD007)
        requires
            self.indent_setting() == other.indent_setting(),
        ensures
            self == other,
    {
    }

    /// The rule that asks each nesting level to be indented by `indent`.
    #[inline]
    #[must_use]
    pub fn new(indent: usize) -> (r: Self)
        ensures
            r.indent_setting() == indent,
    {
        Self { indent }
    }

    /// The rule's name, description, tags and aliases.
    pub fn metadata(&self) -> (m: Metadata)
        ensures
            m.name@ == "MD007"@,
            m.description@ == "Unordered list indentation"@,
            m.tags@ == seq![Tag::Bullet, Tag::Ul, Tag::Indentation],
            m.aliases@.len() == 1 && m.aliases@[0]@ == "ul-indent"@,
    {
        Metadata {
            name: "MD007",
            description: "Unordered list indentation",
            tags: vec![Tag::Bullet, Tag::Ul, Tag::Indentation],
            aliases: vec!["ul-indent"],
        }
    }

    /// A violation of this rule at `position` in the document at `path`.
    pub fn to_violation(&self, path: String, position: Sourcepos) -> (v: Violation)
        ensures
            v.path@ == path@,
            v.name@ == "MD007"@,
            v.position == position,
    {
        Violation { path, name: "MD007", position }
    }

    /// Indentation of a list item relative to the blockquote that contains it,
    /// i.e. 0 for the `*` in `> * Foo` and 2 for the one in `>   * Foo`:
    /// measured from the last `>` on the line, less the one space or tab after
    /// it that CommonMark counts as part of the prefix. `None` means the line
    /// could not be read back, and the caller then skips the item.
    pub fn blockquote_indent(lines: &[String], position: Sourcepos) -> (r: Option<usize>)
        ensures
            match r {
                Some(w) => quoted_indent(lines@, position) == Some(w as int),
                None => quoted_indent(lines@, position) is None,
            },
    {
        if position.start.column == 0 || position.start.line == 0 || position.start.line
            > lines.len() {
            return None;
        }
        let indent = position.start.column - 1;
        let line = lines[position.start.line - 1].as_str();
        if !line.is_char_boundary(indent) {
            return None;
        }
        let b = bytes(line);
        proof {
            vstd::utf8::encode_utf8_valid_utf8(line@);
        }
        let ghost prefix = b@.take(indent as int);
        let mut k: usize = indent;
        assert(prefix.take(indent as int) =~= prefix);
        while k > 0 && b[k - 1] != 0x3e
            invariant
                0 <= k <= indent <= b@.len(),
                prefix == b@.take(indent as int),
                last_index_of(prefix, 0x3e) == last_index_of(prefix.take(k as int), 0x3e),
            decreases k,
        {
            proof {
                assert(prefix.take(k as int).drop_last() =~= prefix.take(k - 1));
                assert(prefix.take(k as int).last() == b@[k - 1]);
            }
            k -= 1;
        }
        if k == 0 {
            proof {
                assert(prefix.take(0) =~= Seq::<u8>::empty());
            }
            return None;
        }
        let marker = k - 1;
        proof {
            assert(prefix.take(k as int).last() == 0x3e);
        }
        let rest_len = indent - marker - 1;
        let ghost rest = prefix.skip(marker + 1);
        if rest_len > 0 && (b[marker + 1] == 0x20 || b[marker + 1] == 0x09) {
            proof {
                assert(rest[0] == b@[marker + 1]);
            }
            Some(rest_len - 1)
        } else {
            proof {
                if rest_len > 0 {
                    assert(rest[0] == b@[marker + 1]);
                }
            }
            Some(rest_len)
        }
    }

    /// Appends the list items in the tree under `n` (see `items`).
    fn collect_items(n: &MdNode, quoted: bool, out: &mut Vec<ItemAtExec>)
        ensures
            final(out)@ == old(out)@ + items(*n, quoted),
        decreases n,
    {
        if let NodeKind::Item(info) = n.kind {
            out.push((info, n.sourcepos, quoted));
        }
        let inner = quoted || matches!(n.kind, NodeKind::BlockQuote);
        let ghost start = out@;
        let len = n.children.len();
        let mut i: usize = 0;
        while i < len
            invariant
                len == n.children@.len(),
                0 <= i <= len,
                out@ == start + items_children(n.children@.take(i as int), inner),
            decreases len - i,
        {
            proof {
                assert(n.children@.take(i + 1).drop_last() =~= n.children@.take(i as int));
            }
            Self::collect_items(&n.children[i], inner, out);
            i += 1;
        }
        proof {
            assert(n.children@.take(i as int) =~= n.children@);
        }
    }

    /// The bullet items of `doc` whose indentation is off, in document order.
    /// Each item's indentation is its column less one or, inside a
    /// blockquote, what `blockquote_indent` measures; a bullet item that is
    /// deeper than the item before it is judged by the difference, any other
    /// by its indentation from the margin, and is reported unless that is 0
    /// or the configured indentation.
    pub fn check(&self, doc: &Document) -> (vs: Vec<Violation>)
        ensures
            reports(
                vs@,
                doc.path@,
                "MD007"@,
                indent_walk(self.indent_setting() as int, doc.lines@, items(doc.root, false)).0,
            ),
            reports(
                vs@,
                doc.path@,
                "MD007"@,
                misindented(
                    self.indent_setting() as int,
                    measured(doc.lines@, flat_map(visits(doc.root, seq![]), item_visit())),
                ),
            ),
    {
        let mut its: Vec<ItemAtExec> = Vec::new();
        Self::collect_items(&doc.root, false, &mut its);
        let lines = doc.lines.as_slice();
        let mut positions: Vec<Sourcepos> = Vec::new();
        let mut maybe_prev_indent: Option<usize> = None;
        let mut i: usize = 0;
        while i < its.len()
            invariant
                0 <= i <= its@.len(),
                lines@ == doc.lines@,
                (positions@, match maybe_prev_indent {
                    Some(p) => Some(p as int),
                    None => None,
                }) == indent_walk(self.indent as int, lines@, its@.take(i as int)),
            decreases its@.len() - i,
        {
            proof {
                assert(its@.take(i + 1).drop_last() =~= its@.take(i as int));
            }
            let (item, position, quoted) = its[i];
            let maybe_indent = if quoted {
                Self::blockquote_indent(lines, position)
            } else if position.start.column >= 1 {
                Some(position.start.column - 1)
            } else {
                None
            };
            if let Some(indent) = maybe_indent {
                if item.list_type == ListType::Bullet {
                    let level_indent = match maybe_prev_indent {
                        Some(prev_indent) => if indent > prev_indent {
                            indent - prev_indent
                        } else {
                            indent
                        },
                        None => indent,
                    };
                    if level_indent != 0 && level_indent != self.indent {
                        positions.push(position);
                    }
                }
                maybe_prev_indent = Some(indent);
            }
            i += 1;
        }
        proof {
            assert(its@.take(i as int) =~= its@);
            lemma_items_pre_order(doc.root, seq![]);
            lemma_indent_walk_measured(self.indent as int, doc.lines@, its@);
        }
        violations_at(&doc.path, "MD007", &positions)
    }
}

/// A list item as `collect_items` records it.
type ItemAtExec = (ListInfo, Sourcepos, bool);

impl Default for MD007 {
    /// The rule that asks for four spaces per nesting level.
    #[inline]
    fn default() -> (r: Self)
        ensures
            r.indent_setting() == MD007::DEFAULT_INDENT,
    {
        Self { indent: Self::DEFAULT_INDENT }
    }
}

} // verus!
