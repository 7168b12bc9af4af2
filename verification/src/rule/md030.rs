use crate::document::Document;
use crate::markdown::{
    flat_map, lemma_flat_map_contains, lemma_flat_map_visits, lemma_flat_map_visits_children,
    lists_nest, lists_nest_children, visits, visits_children, ListType, MdNode, NodeKind,
    Sourcepos, Visit,
};
use crate::text::{bytes, bytes_of};
use crate::violation::{reports, violations_at, Metadata, Tag, Violation};
use vstd::prelude::*;
use vstd::utf8::is_char_boundary;

verus! {

/// MD030: spaces after list markers.
#[derive(Debug, Clone, Copy, PartialEq, Eq)]
#[non_exhaustive]
pub struct MD030 {
    ul_single: usize,
    ol_single: usize,
    ul_multi: usize,
    ol_multi: usize,
}

/// Whether `b` is an ASCII digit.
pub open spec fn is_digit(b: u8) -> bool {
    0x30 <= b <= 0x39
}

/// How many ASCII digits `b` starts with.
pub open spec fn leading_digits(b: Seq<u8>) -> nat
    decreases b.len(),
{
    if b.len() > 0 && is_digit(b[0]) {
        1 + leading_digits(b.drop_first())
    } else {
        0
    }
}

/// A run of `k` digits that ends where `b` does or at a non-digit is what `b`
/// starts with.
proof fn lemma_leading_digits(b: Seq<u8>, k: int)
    requires
        0 <= k <= b.len(),
        forall|j: int| 0 <= j < k ==> is_digit(b[j]),
        k == b.len() || !is_digit(b[k]),
    ensures
        leading_digits(b) == k,
    decreases k,
{
    if k > 0 {
        let t = b.drop_first();
        assert forall|j: int| 0 <= j < k - 1 implies is_digit(t[j]) by {
            assert(t[j] == b[j + 1]);
        }
        if k < b.len() {
            assert(t[k - 1] == b[k]);
        }
        lemma_leading_digits(t, k - 1);
    }
}

/// The width of the ordered list marker written at `p` on `lines` (digits and
/// a `.` or `)` after them), or `None` where the line, the column or the
/// marker is not there.
pub open spec fn marker_width(lines: Seq<String>, p: Sourcepos) -> Option<int> {
    if p.start.line < 1 || p.start.line > lines.len() || p.start.column < 1 {
        None
    } else {
        let b = bytes_of(lines[p.start.line - 1]@);
        let start = p.start.column - 1;
        if !is_char_boundary(b, start) {
            None
        } else {
            let rest = b.skip(start);
            let digits = leading_digits(rest);
            if digits == 0 {
                None
            } else if digits < rest.len() && (rest[digits as int] == 0x2e || rest[digits as int]
                == 0x29) {
                Some(digits + 1int)
            } else {
                None
            }
        }
    }
}

/// An ordered marker has at least one digit and a delimiter.
pub proof fn lemma_marker_width_at_least_two(lines: Seq<String>, p: Sourcepos)
    ensures
        marker_width(lines, p) matches Some(w) ==> w >= 2,
{
}

/// Whether a list item holds more than one paragraph: more than one child, or
/// a first paragraph that runs over a line break.
pub open spec fn is_multi(ic: MdNode) -> bool {
    let cs = ic.children@;
    cs.len() > 1 || (cs.len() > 0 && cs[0].kind is Paragraph && exists|k: int|
        0 <= k < cs[0].children@.len() && (#[trigger] cs[0].children@[k]).kind is SoftBreak)
}

impl MD030 {
    pub const DEFAULT_UL_SINGLE: usize = 1;
    pub const DEFAULT_OL_SINGLE: usize = 1;
    pub const DEFAULT_UL_MULTI: usize = 1;
    pub const DEFAULT_OL_MULTI: usize = 1;

    /// The spaces allowed after a bullet in an item of one paragraph.
    pub closed spec fn ul_single_setting(self) -> usize {
        self.ul_single
    }

    /// The spaces allowed after an ordered marker in an item of one paragraph.
    pub closed spec fn ol_single_setting(self) -> usize {
        self.ol_single
    }

    /// The spaces allowed after a bullet in an item of several paragraphs.
    pub closed spec fn ul_multi_setting(self) -> usize {
        self.ul_multi
    }

    /// The spaces allowed after an ordered marker in an item of several
    /// paragraphs.
    pub closed spec fn ol_multi_setting(self) -> usize {
        self.ol_multi
    }

    /// A rule is its four settings: two rules that agree on all four are the
    /// same rule, so `new(1, 1, 1, 1)` is `default()`.
    pub proof fn lemma_same_settings_same_rule(self, other: MD030)
        requires
            self.ul_single_setting() == other.ul_single_setting(),
            self.ol_single_setting() == other.ol_single_setting(),
            self.ul_multi_setting() == other.ul_multi_setting(),
            self.ol_multi_setting() == other.ol_multi_setting(),
        ensures
            self == other,
    {
    }

    /// Whether an item of a list of type `list_type`, whose marker has
    /// `padding` bytes up to the item's text, is spaced beyond what the rule
    /// allows: a bullet takes one byte, an ordered marker as many as are
    /// written (see `marker_width`), and one that cannot be read back is not
    /// reported.
    pub open spec fn over_spaced(
        self,
        lines: Seq<String>,
        multi: bool,
        list_type: ListType,
        padding: int,
        p: Sourcepos,
    ) -> bool {
        let allowed_ul = if multi {
            self.ul_multi_setting()
        } else {
            self.ul_single_setting()
        };
        let allowed_ol = if multi {
            self.ol_multi_setting()
        } else {
            self.ol_single_setting()
        };
        match list_type {
            ListType::Bullet => padding > allowed_ul + 1,
            ListType::Ordered => marker_width(lines, p) matches Some(w) && padding > allowed_ol + w,
        }
    }

    /// The position to report for item `ic` of a list of type `list_type`, if
    /// it is an item spaced beyond what the rule allows.
    pub open spec fn item_report(self, lines: Seq<String>, list_type: ListType, ic: MdNode) -> Seq<
        Sourcepos,
    > {
        match ic.kind {
            NodeKind::Item(info) => if self.over_spaced(
                lines,
                is_multi(ic),
                list_type,
                info.padding as int,
                ic.sourcepos,
            ) {
                seq![ic.sourcepos]
            } else {
                seq![]
            },
            _ => seq![],
        }
    }

    /// The positions, in document order, of the over-spaced items of the lists
    /// inside `n`, blockquotes and other containers included.
    pub open spec fn spaced_items(self, lines: Seq<String>, n: MdNode) -> Seq<Sourcepos>
        decreases n,
    {
        self.spaced_items_children(lines, n.children@)
    }

    /// The positions of the over-spaced items inside the siblings `cs`.
    pub open spec fn spaced_items_children(self, lines: Seq<String>, cs: Seq<MdNode>) -> Seq<
        Sourcepos,
    >
        decreases cs,
    {
        if cs.len() == 0 {
            seq![]
        } else {
            self.spaced_items_children(lines, cs.drop_last()) + match cs.last().kind {
                NodeKind::List(list) => self.spaced_list_items(
                    lines,
                    list.list_type,
                    cs.last().children@,
                ),
                _ => self.spaced_items(lines, cs.last()),
            }
        }
    }

    /// The positions of the over-spaced items among `items`, the children of
    /// a list of type `list_type`, each followed by those inside it.
    pub open spec fn spaced_list_items(
        self,
        lines: Seq<String>,
        list_type: ListType,
        items: Seq<MdNode>,
    ) -> Seq<Sourcepos>
        decreases items,
    {
        if items.len() == 0 {
            seq![]
        } else {
            self.spaced_list_items(lines, list_type, items.drop_last()) + if items.last().kind is Item {
                self.item_report(lines, list_type, items.last()) + self.spaced_items(
                    lines,
                    items.last(),
                )
            } else {
                seq![]
            }
        }
    }

    /// The list item `ic` of a list of type `list_type`, with that type, if it
    /// is an item the rule reports.
    pub open spec fn item_reported(self, lines: Seq<String>, list_type: ListType, ic: MdNode) -> Seq<
        (MdNode, ListType),
    > {
        match ic.kind {
            NodeKind::Item(info) => if self.over_spaced(
                lines,
                is_multi(ic),
                list_type,
                info.padding as int,
                ic.sourcepos,
            ) {
                seq![(ic, list_type)]
            } else {
                seq![]
            },
            _ => seq![],
        }
    }

    /// The items the rule reports inside `n`, in document order, each with
    /// the type of its list: the items whose positions `spaced_items` gives.
    pub open spec fn reported_items(self, lines: Seq<String>, n: MdNode) -> Seq<(MdNode, ListType)>
        decreases n,
    {
        self.reported_items_children(lines, n.children@)
    }

    /// The items the rule reports inside the siblings `cs`.
    pub open spec fn reported_items_children(self, lines: Seq<String>, cs: Seq<MdNode>) -> Seq<
        (MdNode, ListType),
    >
        decreases cs,
    {
        if cs.len() == 0 {
            seq![]
        } else {
            self.reported_items_children(lines, cs.drop_last()) + match cs.last().kind {
                NodeKind::List(list) => self.reported_list_items(
                    lines,
                    list.list_type,
                    cs.last().children@,
                ),
                _ => self.reported_items(lines, cs.last()),
            }
        }
    }

    /// The items the rule reports among `items`, the children of a list of
    /// type `list_type`, each followed by those inside it.
    pub open spec fn reported_list_items(
        self,
        lines: Seq<String>,
        list_type: ListType,
        items: Seq<MdNode>,
    ) -> Seq<(MdNode, ListType)>
        decreases items,
    {
        if items.len() == 0 {
            seq![]
        } else {
            self.reported_list_items(lines, list_type, items.drop_last()) + if items.last().kind is Item {
                self.item_reported(lines, list_type, items.last()) + self.reported_items(
                    lines,
                    items.last(),
                )
            } else {
                seq![]
            }
        }
    }

    /// Whether every item of `xs` is a list item the rule finds over-spaced.
    pub open spec fn all_over_spaced(self, lines: Seq<String>, xs: Seq<(MdNode, ListType)>) -> bool {
        forall|i: int|
            0 <= i < xs.len() ==> match (#[trigger] xs[i]).0.kind {
                NodeKind::Item(info) => self.over_spaced(
                    lines,
                    is_multi(xs[i].0),
                    xs[i].1,
                    info.padding as int,
                    xs[i].0.sourcepos,
                ),
                _ => false,
            }
    }

    /// Concatenations of over-spaced items are over-spaced, and positions
    /// map over them piece by piece.
    proof fn lemma_concat(
        self,
        lines: Seq<String>,
        a: Seq<(MdNode, ListType)>,
        b: Seq<(MdNode, ListType)>,
    )
        requires
            self.all_over_spaced(lines, a),
            self.all_over_spaced(lines, b),
        ensures
            self.all_over_spaced(lines, a + b),
            (a + b).map_values(|x: (MdNode, ListType)| x.0.sourcepos) =~= a.map_values(
                |x: (MdNode, ListType)| x.0.sourcepos,
            ) + b.map_values(|x: (MdNode, ListType)| x.0.sourcepos),
    {
        assert forall|i: int| 0 <= i < (a + b).len() implies match (#[trigger] (a + b)[i]).0.kind {
            NodeKind::Item(info) => self.over_spaced(
                lines,
                is_multi((a + b)[i].0),
                (a + b)[i].1,
                info.padding as int,
                (a + b)[i].0.sourcepos,
            ),
            _ => false,
        } by {
            if i < a.len() {
                assert((a + b)[i] == a[i]);
            } else {
                assert((a + b)[i] == b[i - a.len()]);
            }
        }
    }

    /// The positions `spaced_items` gives are those of `reported_items`, and
    /// each of those is an over-spaced list item.
    proof fn lemma_reported_items(self, lines: Seq<String>, n: MdNode)
        ensures
            self.spaced_items(lines, n) == self.reported_items(lines, n).map_values(
                |x: (MdNode, ListType)| x.0.sourcepos,
            ),
            self.all_over_spaced(lines, self.reported_items(lines, n)),
        decreases n, 0int,
    {
        self.lemma_reported_items_children(lines, n.children@);
    }

    /// As `lemma_reported_items`, for siblings.
    proof fn lemma_reported_items_children(self, lines: Seq<String>, cs: Seq<MdNode>)
        ensures
            self.spaced_items_children(lines, cs) == self.reported_items_children(
                lines,
                cs,
            ).map_values(|x: (MdNode, ListType)| x.0.sourcepos),
            self.all_over_spaced(lines, self.reported_items_children(lines, cs)),
        decreases cs, 0int,
    {
        if cs.len() == 0 {
            assert(self.reported_items_children(lines, cs).map_values(
                |x: (MdNode, ListType)| x.0.sourcepos,
            ) =~= Seq::<Sourcepos>::empty());
        } else {
            self.lemma_reported_items_children(lines, cs.drop_last());
            let a = self.reported_items_children(lines, cs.drop_last());
            match cs.last().kind {
                NodeKind::List(list) => {
                    self.lemma_reported_list_items(lines, list.list_type, cs.last().children@);
                    self.lemma_concat(
                        lines,
                        a,
                        self.reported_list_items(lines, list.list_type, cs.last().children@),
                    );
                },
                _ => {
                    self.lemma_reported_items(lines, cs.last());
                    self.lemma_concat(lines, a, self.reported_items(lines, cs.last()));
                },
            }
        }
    }

    /// As `lemma_reported_items`, for the items of a list.
    proof fn lemma_reported_list_items(
        self,
        lines: Seq<String>,
        list_type: ListType,
        items: Seq<MdNode>,
    )
        ensures
            self.spaced_list_items(lines, list_type, items) == self.reported_list_items(
                lines,
                list_type,
                items,
            ).map_values(|x: (MdNode, ListType)| x.0.sourcepos),
            self.all_over_spaced(lines, self.reported_list_items(lines, list_type, items)),
        decreases items, 0int,
    {
        if items.len() == 0 {
            assert(self.reported_list_items(lines, list_type, items).map_values(
                |x: (MdNode, ListType)| x.0.sourcepos,
            ) =~= Seq::<Sourcepos>::empty());
        } else {
            let last = items.last();
            self.lemma_reported_list_items(lines, list_type, items.drop_last());
            let a = self.reported_list_items(lines, list_type, items.drop_last());
            if last.kind is Item {
                self.lemma_reported_items(lines, last);
                let own = self.item_reported(lines, list_type, last);
                assert(own.map_values(|x: (MdNode, ListType)| x.0.sourcepos) =~= self.item_report(
                    lines,
                    list_type,
                    last,
                ));
                assert(self.all_over_spaced(lines, own));
                let rest = self.reported_items(lines, last);
                self.lemma_concat(lines, own, rest);
                self.lemma_concat(lines, a, own + rest);
            } else {
                assert(Seq::<(MdNode, ListType)>::empty().map_values(
                    |x: (MdNode, ListType)| x.0.sourcepos,
                ) =~= Seq::<Sourcepos>::empty());
                self.lemma_concat(lines, a, Seq::empty());
                assert(a + Seq::<(MdNode, ListType)>::empty() =~= a);
            }
        }
    }

    /// What an item `ic` of a list of type `list_type` gives when judged as an
    /// item of several paragraphs (`multi`) or of one.
    pub open spec fn judged(
        self,
        lines: Seq<String>,
        list_type: ListType,
        ic: MdNode,
        multi: bool,
    ) -> Seq<Sourcepos> {
        match ic.kind {
            NodeKind::Item(info) => if self.over_spaced(
                lines,
                multi,
                list_type,
                info.padding as int,
                ic.sourcepos,
            ) {
                seq![ic.sourcepos]
            } else {
                seq![]
            },
            _ => seq![],
        }
    }

    /// Which setting an item is held to follows from its shape alone: an item
    /// of more than one child block is held to the setting for several
    /// paragraphs, whatever its first paragraph holds; so is one whose only
    /// child is a paragraph that runs over a line break; an empty item, one
    /// whose only child is not a paragraph, or one whose only paragraph has no
    /// line break is held to the setting for one paragraph.
    pub proof fn lemma_setting_by_shape(self, lines: Seq<String>, list_type: ListType, ic: MdNode)
        ensures
            ic.children@.len() > 1 ==> self.item_report(lines, list_type, ic) == self.judged(
                lines,
                list_type,
                ic,
                true,
            ),
            ic.children@.len() == 0 ==> self.item_report(lines, list_type, ic) == self.judged(
                lines,
                list_type,
                ic,
                false,
            ),
            ic.children@.len() == 1 && !(ic.children@[0].kind is Paragraph) ==> self.item_report(
                lines,
                list_type,
                ic,
            ) == self.judged(lines, list_type, ic, false),
            ic.children@.len() == 1 && ic.children@[0].kind is Paragraph && (forall|k: int|
                0 <= k < ic.children@[0].children@.len() ==> !((#[trigger] ic.children@[0].children@[k]).kind is SoftBreak))
                ==> self.item_report(lines, list_type, ic) == self.judged(lines, list_type, ic, false),
            ic.children@.len() == 1 && ic.children@[0].kind is Paragraph && (exists|k: int|
                0 <= k < ic.children@[0].children@.len() && (#[trigger] ic.children@[0].children@[k]).kind is SoftBreak)
                ==> self.item_report(lines, list_type, ic) == self.judged(lines, list_type, ic, true),
    {
    }

    /// Whether `x`, a list item with the type of its list, has exactly one
    /// space after its marker: a bullet with a padding of 2, or an ordered
    /// marker of any width (`9.`, `10.`, `007.`) with a padding one more than
    /// that width.
    pub open spec fn one_space_after_marker(lines: Seq<String>, x: (MdNode, ListType)) -> bool {
        match x.0.kind {
            NodeKind::Item(info) => match x.1 {
                ListType::Bullet => info.padding == 2,
                ListType::Ordered => marker_width(lines, x.0.sourcepos) matches Some(w)
                    && info.padding == w + 1,
            },
            _ => false,
        }
    }

    /// Where every setting allows at least one space, `check` reports no item
    /// with one space after its marker, however many digits an ordered marker
    /// has: each position it reports (`spaced_items`) is that of a list item
    /// (`reported_items`) with more than one.
    pub proof fn lemma_one_space_never_reported(self, lines: Seq<String>, n: MdNode)
        requires
            self.ul_single_setting() >= 1,
            self.ol_single_setting() >= 1,
            self.ul_multi_setting() >= 1,
            self.ol_multi_setting() >= 1,
        ensures
            self.spaced_items(lines, n) == self.reported_items(lines, n).map_values(
                |x: (MdNode, ListType)| x.0.sourcepos,
            ),
            forall|i: int|
                0 <= i < self.reported_items(lines, n).len() ==> {
                    &&& (#[trigger] self.reported_items(lines, n)[i]).0.kind is Item
                    &&& !Self::one_space_after_marker(lines, self.reported_items(lines, n)[i])
                },
    {
        self.lemma_reported_items(lines, n);
        let r = self.reported_items(lines, n);
        assert forall|i: int| 0 <= i < r.len() implies {
            &&& (#[trigger] r[i]).0.kind is Item
            &&& !Self::one_space_after_marker(lines, r[i])
        } by {
            let x = r[i];
            if let NodeKind::Item(info) = x.0.kind {
                self.lemma_one_space_allowed(lines, is_multi(x.0), x.1, x.0.sourcepos);
            }
        }
    }

    /// Allowing more spaces never reports an item that allowing fewer would
    /// not: an item over-spaced for the looser rule is over-spaced for the
    /// stricter one.
    pub proof fn lemma_looser_reports_less(
        self,
        looser: MD030,
        lines: Seq<String>,
        multi: bool,
        list_type: ListType,
        padding: int,
        p: Sourcepos,
    )
        requires
            looser.ul_single_setting() >= self.ul_single_setting(),
            looser.ol_single_setting() >= self.ol_single_setting(),
            looser.ul_multi_setting() >= self.ul_multi_setting(),
            looser.ol_multi_setting() >= self.ol_multi_setting(),
        ensures
            looser.over_spaced(lines, multi, list_type, padding, p) ==> self.over_spaced(
                lines,
                multi,
                list_type,
                padding,
                p,
            ),
    {
    }

    /// Allowing more spaces never reports more items of a document.
    pub proof fn lemma_looser_reports_fewer(self, looser: MD030, lines: Seq<String>, n: MdNode)
        requires
            looser.ul_single_setting() >= self.ul_single_setting(),
            looser.ol_single_setting() >= self.ol_single_setting(),
            looser.ul_multi_setting() >= self.ul_multi_setting(),
            looser.ol_multi_setting() >= self.ol_multi_setting(),
        ensures
            looser.spaced_items(lines, n).len() <= self.spaced_items(lines, n).len(),
        decreases n, 0int,
    {
        self.lemma_looser_reports_fewer_children(looser, lines, n.children@);
    }

    /// Allowing more spaces never reports more items inside the siblings `cs`.
    pub proof fn lemma_looser_reports_fewer_children(
        self,
        looser: MD030,
        lines: Seq<String>,
        cs: Seq<MdNode>,
    )
        requires
            looser.ul_single_setting() >= self.ul_single_setting(),
            looser.ol_single_setting() >= self.ol_single_setting(),
            looser.ul_multi_setting() >= self.ul_multi_setting(),
            looser.ol_multi_setting() >= self.ol_multi_setting(),
        ensures
            looser.spaced_items_children(lines, cs).len() <= self.spaced_items_children(
                lines,
                cs,
            ).len(),
        decreases cs, 0int,
    {
        if cs.len() > 0 {
            self.lemma_looser_reports_fewer_children(looser, lines, cs.drop_last());
            match cs.last().kind {
                NodeKind::List(list) => {
                    self.lemma_looser_reports_fewer_items(
                        looser,
                        lines,
                        list.list_type,
                        cs.last().children@,
                    );
                },
                _ => {
                    self.lemma_looser_reports_fewer(looser, lines, cs.last());
                },
            }
        }
    }

    /// Allowing more spaces never reports more among the items `items` of a
    /// list, and what is inside them.
    pub proof fn lemma_looser_reports_fewer_items(
        self,
        looser: MD030,
        lines: Seq<String>,
        list_type: ListType,
        items: Seq<MdNode>,
    )
        requires
            looser.ul_single_setting() >= self.ul_single_setting(),
            looser.ol_single_setting() >= self.ol_single_setting(),
            looser.ul_multi_setting() >= self.ul_multi_setting(),
            looser.ol_multi_setting() >= self.ol_multi_setting(),
        ensures
            looser.spaced_list_items(lines, list_type, items).len() <= self.spaced_list_items(
                lines,
                list_type,
                items,
            ).len(),
        decreases items, 0int,
    {
        if items.len() > 0 {
            let last = items.last();
            self.lemma_looser_reports_fewer_items(looser, lines, list_type, items.drop_last());
            if let NodeKind::Item(info) = last.kind {
                self.lemma_looser_reports_less(
                    looser,
                    lines,
                    is_multi(last),
                    list_type,
                    info.padding as int,
                    last.sourcepos,
                );
                self.lemma_looser_reports_fewer(looser, lines, last);
            }
        }
    }

    /// One space after a marker is never too many where the rule allows at
    /// least one, however wide an ordered marker is written (`9.`, `10.`,
    /// `007.`).
    pub proof fn lemma_one_space_allowed(
        self,
        lines: Seq<String>,
        multi: bool,
        list_type: ListType,
        p: Sourcepos,
    )
        requires
            self.ul_single_setting() >= 1,
            self.ol_single_setting() >= 1,
            self.ul_multi_setting() >= 1,
            self.ol_multi_setting() >= 1,
        ensures
            list_type == ListType::Bullet ==> !self.over_spaced(lines, multi, list_type, 2, p),
            marker_width(lines, p) matches Some(w) ==> !self.over_spaced(
                lines,
                multi,
                ListType::Ordered,
                w + 1,
                p,
            ),
    {
    }

    /// What one node of a pre-order walk gives: for a node whose parent is a
    /// list, `item_report` of it with the list's type; for any other, nothing.
    pub open spec fn item_report_visit(self, lines: Seq<String>) -> spec_fn(Visit) -> Seq<Sourcepos> {
        |v: Visit|
            if v.1.len() == 0 {
                seq![]
            } else {
                match v.1.last().kind {
                    NodeKind::List(list) => self.item_report(lines, list.list_type, v.0),
                    _ => seq![],
                }
            }
    }

    /// Where lists and items nest as comrak builds them, the positions inside
    /// `n` (not a list itself, with ancestors `anc`) are, node by node in
    /// pre-order over `n`'s descendants (as comrak's `descendants` walks them,
    /// into blockquotes and other containers too), those of the list items
    /// spaced beyond what the rule allows for their list's type and for
    /// whether they hold one paragraph or several.
    pub proof fn lemma_spaced_items_pre_order(self, lines: Seq<String>, n: MdNode, anc: Seq<MdNode>)
        requires
            lists_nest(n),
            !(n.kind is List),
        ensures
            self.spaced_items(lines, n) == flat_map(
                visits_children(n.children@, anc.push(n)),
                self.item_report_visit(lines),
            ),
        decreases n, 0int,
    {
        self.lemma_spaced_items_children_pre_order(lines, n.children@, anc.push(n));
    }

    /// `lemma_spaced_items_pre_order` for the siblings `cs`, whose parent, the
    /// last of `anc`, is not a list.
    pub proof fn lemma_spaced_items_children_pre_order(
        self,
        lines: Seq<String>,
        cs: Seq<MdNode>,
        anc: Seq<MdNode>,
    )
        requires
            lists_nest_children(false, cs),
            anc.len() > 0,
            !(anc.last().kind is List),
        ensures
            self.spaced_items_children(lines, cs) == flat_map(
                visits_children(cs, anc),
                self.item_report_visit(lines),
            ),
        decreases cs, 0int,
    {
        if cs.len() > 0 {
            let g = self.item_report_visit(lines);
            let c = cs.last();
            lemma_flat_map_visits_children(cs, anc, g);
            self.lemma_spaced_items_children_pre_order(lines, cs.drop_last(), anc);
            lemma_flat_map_visits(c, anc, g);
            assert(g((c, anc)) =~= Seq::<Sourcepos>::empty());
            match c.kind {
                NodeKind::List(list) => {
                    assert(lists_nest(c));
                    assert(lists_nest_children(true, c.children@));
                    self.lemma_spaced_list_items_pre_order(
                        lines,
                        list.list_type,
                        c.children@,
                        anc.push(c),
                    );
                },
                _ => {
                    self.lemma_spaced_items_pre_order(lines, c, anc);
                },
            }
        }
    }

    /// `lemma_spaced_items_pre_order` for the items `items` of a list, the
    /// last of `anc`, of type `list_type`.
    pub proof fn lemma_spaced_list_items_pre_order(
        self,
        lines: Seq<String>,
        list_type: ListType,
        items: Seq<MdNode>,
        anc: Seq<MdNode>,
    )
        requires
            lists_nest_children(true, items),
            anc.len() > 0,
            anc.last().kind matches NodeKind::List(list) && list.list_type == list_type,
        ensures
            self.spaced_list_items(lines, list_type, items) == flat_map(
                visits_children(items, anc),
                self.item_report_visit(lines),
            ),
        decreases items, 0int,
    {
        if items.len() > 0 {
            let g = self.item_report_visit(lines);
            let it = items.last();
            lemma_flat_map_visits_children(items, anc, g);
            self.lemma_spaced_list_items_pre_order(lines, list_type, items.drop_last(), anc);
            lemma_flat_map_visits(it, anc, g);
            assert(g((it, anc)) == self.item_report(lines, list_type, it));
            self.lemma_spaced_items_pre_order(lines, it, anc);
        }
    }

    /// Whether the node of `v` is an item of a list (its parent) with exactly
    /// one space after its marker, however many digits an ordered one has.
    pub open spec fn one_space_visit(lines: Seq<String>, v: Visit) -> bool {
        &&& v.1.len() > 0
        &&& v.1.last().kind matches NodeKind::List(list) && Self::one_space_after_marker(
            lines,
            (v.0, list.list_type),
        )
    }

    /// Where every setting allows at least one space, an item of a list with
    /// exactly one space after its marker (`- a`, `9. a`, `10. a`, `007. a`)
    /// is never reported: it gives nothing to the pre-order walk.
    pub proof fn lemma_one_space_item_unreported(self, lines: Seq<String>, v: Visit)
        requires
            self.ul_single_setting() >= 1,
            self.ol_single_setting() >= 1,
            self.ul_multi_setting() >= 1,
            self.ol_multi_setting() >= 1,
            Self::one_space_visit(lines, v),
        ensures
            self.item_report_visit(lines)(v) == Seq::<Sourcepos>::empty(),
    {
        if let NodeKind::List(list) = v.1.last().kind {
            self.lemma_one_space_allowed(lines, is_multi(v.0), list.list_type, v.0.sourcepos);
        }
    }

    /// Where every setting allows at least one space, no violation is reported
    /// at `p` from a walk of which every item of a list written at `p` has
    /// exactly one space after its marker (`10. a` included).
    pub proof fn lemma_one_space_position_unreported(
        self,
        lines: Seq<String>,
        vs: Seq<Visit>,
        p: Sourcepos,
    )
        requires
            self.ul_single_setting() >= 1,
            self.ol_single_setting() >= 1,
            self.ul_multi_setting() >= 1,
            self.ol_multi_setting() >= 1,
            forall|i: int|
                0 <= i < vs.len() && (#[trigger] vs[i]).0.sourcepos == p && vs[i].0.kind is Item
                    && vs[i].1.len() > 0 && vs[i].1.last().kind is List ==> Self::one_space_visit(
                    lines,
                    vs[i],
                ),
        ensures
            !flat_map(vs, self.item_report_visit(lines)).contains(p),
    {
        let g = self.item_report_visit(lines);
        if flat_map(vs, g).contains(p) {
            lemma_flat_map_contains(vs, g, p);
            let i = choose|i: int| 0 <= i < vs.len() && (#[trigger] g(vs[i])).contains(p);
            let v = vs[i];
            if v.1.len() > 0 && v.1.last().kind is List && v.0.kind is Item {
                assert(g(v)[0] == v.0.sourcepos);
                self.lemma_one_space_item_unreported(lines, v);
            }
            assert(false);
        }
    }

    /// The rule with the number of spaces it allows after a bullet or an
    /// ordered marker, in items of one paragraph and of several.
    #[inline]
    #[must_use]
    pub fn new(ul_single: usize, ol_single: usize, ul_multi: usize, ol_multi: usize) -> (r: Self)
        ensures
            r.ul_single_setting() == ul_single,
            r.ol_single_setting() == ol_single,
            r.ul_multi_setting() == ul_multi,
            r.ol_multi_setting() == ol_multi,
    {
        Self { ul_single, ol_single, ul_multi, ol_multi }
    }

    /// The rule's name, description, tags and aliases.
    pub fn metadata(&self) -> (m: Metadata)
        ensures
            m.name@ == "MD030"@,
            m.description@ == "Spaces after list markers"@,
            m.tags@ == seq![Tag::Ol, Tag::Ul, Tag::Whitespace],
            m.aliases@.len() == 1 && m.aliases@[0]@ == "list-marker-space"@,
    {
        Metadata {
            name: "MD030",
            description: "Spaces after list markers",
            tags: vec![Tag::Ol, Tag::Ul, Tag::Whitespace],
            aliases: vec!["list-marker-space"],
        }
    }

    /// A violation of this rule at `position` in the document at `path`.
    pub fn to_violation(&self, path: String, position: Sourcepos) -> (v: Violation)
        ensures
            v.path@ == path@,
            v.name@ == "MD030"@,
            v.position == position,
    {
        Violation { path, name: "MD030", position }
    }

    /// Width of an ordered list marker as written, e.g. 2 for `9.`, 3 for
    /// `10.`, 4 for `007.`: read back from the line, because CommonMark permits
    /// leading zeros, and it is the written width that an item's padding
    /// counts.
    pub fn ordered_marker_width(lines: &[String], position: Sourcepos) -> (r: Option<usize>)
        ensures
            match r {
                Some(w) => marker_width(lines@, position) == Some(w as int),
                None => marker_width(lines@, position) is None,
            },
    {
        if position.start.line == 0 || position.start.line > lines.len() || position.start.column
            == 0 {
            return None;
        }
        let line = lines[position.start.line - 1].as_str();
        let start = position.start.column - 1;
        if !line.is_char_boundary(start) {
            return None;
        }
        let b = bytes(line);
        let ghost rest = b@.skip(start as int);
        proof {
            vstd::utf8::encode_utf8_valid_utf8(line@);
            assert(start <= b@.len());
        }
        let blen = b.len();
        let mut k: usize = 0;
        while start + k < blen && 0x30 <= b[start + k] && b[start + k] <= 0x39
            invariant
                blen == b@.len(),
                start <= b@.len(),
                rest == b@.skip(start as int),
                0 <= k <= rest.len(),
                start + k <= b@.len(),
                forall|j: int| 0 <= j < k ==> is_digit(rest[j]),
            decreases b@.len() - start - k,
        {
            k += 1;
        }
        proof {
            lemma_leading_digits(rest, k as int);
        }
        if k == 0 {
            return None;
        }
        if start + k < b.len() && (b[start + k] == 0x2e || b[start + k] == 0x29) {
            Some(k + 1)
        } else {
            None
        }
    }

    /// Whether the list item `ic` holds more than one paragraph.
    fn item_is_multi(ic: &MdNode) -> (r: bool)
        ensures
            r == is_multi(*ic),
            ic.children@.len() > 1 ==> r,
            ic.children@.len() == 0 ==> !r,
    {
        let len = ic.children.len();
        if len > 1 {
            return true;
        }
        if len == 0 {
            return false;
        }
        let child = &ic.children[0];
        if !matches!(child.kind, NodeKind::Paragraph) {
            return false;
        }
        let mut k: usize = 0;
        while k < child.children.len()
            invariant
                ic.children@.len() == 1,
                *child == ic.children@[0],
                child.kind is Paragraph,
                0 <= k <= child.children@.len(),
                forall|j: int| 0 <= j < k ==> !(child.children@[j].kind is SoftBreak),
            decreases child.children@.len() - k,
        {
            if matches!(child.children[k].kind, NodeKind::SoftBreak) {
                assert(ic.children@[0].children@[k as int].kind is SoftBreak);
                return true;
            }
            k += 1;
        }
        false
    }

    /// Whether an item spaced by `padding` breaks the rule (see `over_spaced`).
    fn is_over_spaced(
        &self,
        lines: &[String],
        multi: bool,
        list_type: ListType,
        padding: usize,
        position: Sourcepos,
    ) -> (r: bool)
        ensures
            r == self.over_spaced(lines@, multi, list_type, padding as int, position),
    {
        let allowed_ul = if multi {
            self.ul_multi
        } else {
            self.ul_single
        };
        let allowed_ol = if multi {
            self.ol_multi
        } else {
            self.ol_single
        };
        match list_type {
            ListType::Bullet => padding > 0 && padding - 1 > allowed_ul,
            ListType::Ordered => match Self::ordered_marker_width(lines, position) {
                Some(width) => padding >= width && padding - width > allowed_ol,
                None => false,
            },
        }
    }

    /// Appends the positions of the over-spaced items inside `n`.
    fn check_recursive(&self, n: &MdNode, lines: &[String], out: &mut Vec<Sourcepos>)
        ensures
            final(out)@ == old(out)@ + self.spaced_items(lines@, *n),
        decreases n,
    {
        let ghost start = out@;
        let len = n.children.len();
        let mut i: usize = 0;
        while i < len
            invariant
                len == n.children@.len(),
                0 <= i <= len,
                out@ == start + self.spaced_items_children(lines@, n.children@.take(i as int)),
            decreases len - i,
        {
            proof {
                assert(n.children@.take(i + 1).drop_last() =~= n.children@.take(i as int));
            }
            let child = &n.children[i];
            if let NodeKind::List(list) = child.kind {
                let ghost before = out@;
                let items = child.children.len();
                let mut j: usize = 0;
                while j < items
                    invariant
                        len == n.children@.len(),
                        i < len,
                        *child == n.children@[i as int],
                        child.kind == NodeKind::List(list),
                        items == child.children@.len(),
                        0 <= j <= items,
                        out@ == before + self.spaced_list_items(
                            lines@,
                            list.list_type,
                            child.children@.take(j as int),
                        ),
                    decreases items - j,
                {
                    proof {
                        assert(child.children@.take(j + 1).drop_last() =~= child.children@.take(
                            j as int,
                        ));
                    }
                    let item_node = &child.children[j];
                    if let NodeKind::Item(item) = item_node.kind {
                        let multi = Self::item_is_multi(item_node);
                        if self.is_over_spaced(
                            lines,
                            multi,
                            list.list_type,
                            item.padding,
                            item_node.sourcepos,
                        ) {
                            out.push(item_node.sourcepos);
                        }
                        proof {
                            assert(decreases_to!(n.children => n.children[i as int]));
                            assert(decreases_to!(child.children => child.children[j as int]));
                        }
                        self.check_recursive(item_node, lines, out);
                    }
                    j += 1;
                }
                proof {
                    assert(child.children@.take(j as int) =~= child.children@);
                }
            } else {
                self.check_recursive(child, lines, out);
            }
            i += 1;
        }
        proof {
            assert(n.children@.take(i as int) =~= n.children@);
        }
    }

    /// The items of `doc`'s lists, blockquotes and other containers included,
    /// with more spaces after the marker than the rule allows, in document
    /// order.
    pub fn check(&self, doc: &Document) -> (vs: Vec<Violation>)
        ensures
            reports(vs@, doc.path@, "MD030"@, self.spaced_items(doc.lines@, doc.root)),
            lists_nest(doc.root) && !(doc.root.kind is List) ==> reports(
                vs@,
                doc.path@,
                "MD030"@,
                flat_map(visits(doc.root, seq![]), self.item_report_visit(doc.lines@)),
            ),
    {
        let mut positions: Vec<Sourcepos> = Vec::new();
        self.check_recursive(&doc.root, doc.lines.as_slice(), &mut positions);
        proof {
            if lists_nest(doc.root) && !(doc.root.kind is List) {
                let g = self.item_report_visit(doc.lines@);
                self.lemma_spaced_items_pre_order(doc.lines@, doc.root, seq![]);
                lemma_flat_map_visits(doc.root, seq![], g);
                assert(g((doc.root, seq![])) =~= Seq::<Sourcepos>::empty());
            }
        }
        violations_at(&doc.path, "MD030", &positions)
    }
}

impl Default for MD030 {
    /// The rule that allows one space after every marker.
    #[inline]
    fn default() -> (r: Self)
        ensures
            r.ul_single_setting() == MD030::DEFAULT_UL_SINGLE,
            r.ol_single_setting() == MD030::DEFAULT_OL_SINGLE,
            r.ul_multi_setting() == MD030::DEFAULT_UL_MULTI,
            r.ol_multi_setting() == MD030::DEFAULT_OL_MULTI,
    {
        Self {
            ul_single: Self::DEFAULT_UL_SINGLE,
            ol_single: Self::DEFAULT_OL_SINGLE,
            ul_multi: Self::DEFAULT_UL_MULTI,
            ol_multi: Self::DEFAULT_OL_MULTI,
        }
    }
}

} // verus!
