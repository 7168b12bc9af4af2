use crate::document::{lemma_child_size, size, Document};
use crate::markdown::{
    flat_map, lemma_flat_map_visits, lemma_flat_map_visits_children, lists_nest,
    lists_nest_children, visits, visits_children, ListType, MdNode, NodeKind, Sourcepos, Visit,
};
use crate::violation::{reports, violations_at, Metadata, Tag, Violation};
use rustc_hash::{FxBuildHasher, FxHashMap};
use vstd::prelude::*;

verus! {

/// Which bullet characters MD004 asks unordered lists to use.
#[derive(Debug, Clone, Copy, PartialEq, Eq, Structural)]
#[non_exhaustive]
pub enum ListStyle {
    /// The one the document's first bullet item uses, throughout.
    Consistent,
    /// `*` throughout.
    Asterisk,
    /// `+` throughout.
    Plus,
    /// `-` throughout.
    Dash,
    /// At each nesting level, the one the first bullet item at that level uses.
    Sublist,
}

/// MD004: unordered list style.
#[derive(Debug, Clone, Copy, PartialEq, Eq)]
#[non_exhaustive]
pub struct MD004 {
    style: ListStyle,
}

/// The hash builder of `rustc_hash`'s `FxHashMap`.
#[verifier::external_type_specification]
#[verifier::external_body]
pub struct ExFxBuildHasher(FxBuildHasher);

/// A bullet item: its nesting level, its bullet character, and its position.
pub type Bullet = (int, u8, Sourcepos);

/// The bullet item `ic` contributes at nesting level `level`, if it is one.
pub open spec fn bullet_of(ic: MdNode, level: int) -> Seq<Bullet> {
    match ic.kind {
        NodeKind::Item(info) => if info.list_type == ListType::Bullet {
            seq![(level, info.bullet_char, ic.sourcepos)]
        } else {
            seq![]
        },
        _ => seq![],
    }
}

/// The bullet items inside `n`, in document order, with their nesting levels:
/// the items of a list among `n`'s children are at level `level` and what is
/// inside them one level deeper; any other child is looked into at the same
/// level, so a blockquote adds no level.
pub open spec fn bullets(n: MdNode, level: int) -> Seq<Bullet>
    decreases n,
{
    bullets_children(n.children@, level)
}

/// The bullet items inside the siblings `cs`, with `level` as for `bullets`.
pub open spec fn bullets_children(cs: Seq<MdNode>, level: int) -> Seq<Bullet>
    decreases cs,
{
    if cs.len() == 0 {
        seq![]
    } else {
        bullets_children(cs.drop_last(), level) + if cs.last().kind is List {
            list_bullets(cs.last().children@, level)
        } else {
            bullets(cs.last(), level)
        }
    }
}

/// The bullet items of the list whose items are `items`, at level `level`,
/// each followed by the bullet items inside it one level deeper.
pub open spec fn list_bullets(items: Seq<MdNode>, level: int) -> Seq<Bullet>
    decreases items,
{
    if items.len() == 0 {
        seq![]
    } else {
        list_bullets(items.drop_last(), level) + bullet_of(items.last(), level) + bullets(
            items.last(),
            level + 1,
        )
    }
}

/// The bullet character of the first of the bullet items `prefix` at level
/// `level`, if there is one.
pub open spec fn first_at_level(prefix: Seq<Bullet>, level: int) -> Option<u8>
    decreases prefix.len(),
{
    if prefix.len() == 0 {
        None
    } else {
        match first_at_level(prefix.drop_last(), level) {
            Some(c) => Some(c),
            None => if prefix.last().0 == level {
                Some(prefix.last().1)
            } else {
                None
            },
        }
    }
}

/// Whether bullet item `b`, which comes after the bullet items `prefix`,
/// breaks `style`.
pub open spec fn breaks_style(style: ListStyle, prefix: Seq<Bullet>, b: Bullet) -> bool {
    match style {
        ListStyle::Consistent => prefix.len() > 0 && b.1 != prefix[0].1,
        ListStyle::Asterisk => b.1 != 0x2a,
        ListStyle::Plus => b.1 != 0x2b,
        ListStyle::Dash => b.1 != 0x2d,
        ListStyle::Sublist => first_at_level(prefix, b.0) matches Some(c) && b.1 != c,
    }
}

/// The positions, in order, of the bullet items `bs` that break `style`.
pub open spec fn style_breaks(style: ListStyle, bs: Seq<Bullet>) -> Seq<Sourcepos>
    decreases bs.len(),
{
    if bs.len() == 0 {
        seq![]
    } else {
        style_breaks(style, bs.drop_last()) + if breaks_style(style, bs.drop_last(), bs.last()) {
            seq![bs.last().2]
        } else {
            seq![]
        }
    }
}

/// Where every bullet item of `prefix` uses `c`, the first one at any level
/// does too.
proof fn lemma_first_at_level_uniform(prefix: Seq<Bullet>, level: int, c: u8)
    requires
        forall|i: int| 0 <= i < prefix.len() ==> #[trigger] prefix[i].1 == c,
    ensures
        first_at_level(prefix, level) matches Some(x) ==> x == c,
    decreases prefix.len(),
{
    if prefix.len() > 0 {
        lemma_first_at_level_uniform(prefix.drop_last(), level, c);
        assert(prefix.last() == prefix[prefix.len() - 1]);
    }
}

/// A document whose bullet items all use one character breaks no style that
/// that character meets: `Consistent` and `Sublist` always, and the style
/// that names that character.
pub proof fn lemma_uniform_bullets_pass(style: ListStyle, bs: Seq<Bullet>, c: u8)
    requires
        forall|i: int| 0 <= i < bs.len() ==> #[trigger] bs[i].1 == c,
        match style {
            ListStyle::Consistent | ListStyle::Sublist => true,
            ListStyle::Asterisk => c == 0x2a,
            ListStyle::Plus => c == 0x2b,
            ListStyle::Dash => c == 0x2d,
        },
    ensures
        style_breaks(style, bs) == Seq::<Sourcepos>::empty(),
    decreases bs.len(),
{
    if bs.len() > 0 {
        let prefix = bs.drop_last();
        assert forall|i: int| 0 <= i < prefix.len() implies #[trigger] prefix[i].1 == c by {
            assert(prefix[i] == bs[i]);
        }
        lemma_uniform_bullets_pass(style, prefix, c);
        lemma_first_at_level_uniform(prefix, bs.last().0, c);
        assert(bs.last().1 == c);
        if prefix.len() > 0 {
            assert(prefix[0].1 == c);
        }
        assert(!breaks_style(style, prefix, bs.last()));
    }
}

/// No more bullet items are reported than there are.
pub proof fn lemma_breaks_bounded(style: ListStyle, bs: Seq<Bullet>)
    ensures
        style_breaks(style, bs).len() <= bs.len(),
    decreases bs.len(),
{
    if bs.len() > 0 {
        lemma_breaks_bounded(style, bs.drop_last());
    }
}

/// The first bullet item of a document sets the style for `Consistent`, and
/// the first one at a level sets it for that level under `Sublist`: neither
/// breaks it.
pub proof fn lemma_first_bullet_sets_style(prefix: Seq<Bullet>, b: Bullet)
    requires
        first_at_level(prefix, b.0) is None,
    ensures
        !breaks_style(ListStyle::Consistent, Seq::empty(), b),
        !breaks_style(ListStyle::Sublist, prefix, b),
{
}

/// How many of `anc` are lists: the nesting level of a list item whose
/// ancestors are `anc` (a blockquote adds none).
pub open spec fn list_depth(anc: Seq<MdNode>) -> int
    decreases anc.len(),
{
    if anc.len() == 0 {
        0
    } else {
        list_depth(anc.drop_last()) + if anc.last().kind is List {
            1int
        } else {
            0int
        }
    }
}

/// What one node of a pre-order walk gives: the node, if it is a bullet item,
/// at the level its list ancestors give it.
pub open spec fn bullet_visit() -> spec_fn(Visit) -> Seq<Bullet> {
    |v: Visit| bullet_of(v.0, list_depth(v.1))
}

/// One more ancestor adds one level exactly where it is a list.
proof fn lemma_list_depth_push(anc: Seq<MdNode>, n: MdNode)
    ensures
        list_depth(anc.push(n)) == list_depth(anc) + if n.kind is List {
            1int
        } else {
            0int
        },
{
    assert(anc.push(n).drop_last() =~= anc);
}

/// Where lists and items nest as comrak builds them, the bullet items inside
/// `n` (not a list itself, with ancestors `anc`, and `level` one more than the
/// lists among those and `n`) are, in pre-order over `n`'s descendants (as
/// comrak's `descendants` walks them, into blockquotes and other containers
/// too), the bullet items, each at the number of lists among its ancestors.
pub proof fn lemma_bullets_pre_order(n: MdNode, anc: Seq<MdNode>, level: int)
    requires
        lists_nest(n),
        !(n.kind is List),
        level == list_depth(anc.push(n)) + 1,
    ensures
        bullets(n, level) == flat_map(visits_children(n.children@, anc.push(n)), bullet_visit()),
    decreases n, 0int,
{
    lemma_bullets_children_pre_order(n.children@, anc.push(n), level);
}

/// `lemma_bullets_pre_order` for the siblings `cs`, whose parent, the last of
/// `anc`, is not a list.
pub proof fn lemma_bullets_children_pre_order(cs: Seq<MdNode>, anc: Seq<MdNode>, level: int)
    requires
        lists_nest_children(false, cs),
        anc.len() > 0,
        !(anc.last().kind is List),
        level == list_depth(anc) + 1,
    ensures
        bullets_children(cs, level) == flat_map(visits_children(cs, anc), bullet_visit()),
    decreases cs, 0int,
{
    if cs.len() > 0 {
        let g = bullet_visit();
        let c = cs.last();
        lemma_flat_map_visits_children(cs, anc, g);
        lemma_bullets_children_pre_order(cs.drop_last(), anc, level);
        lemma_flat_map_visits(c, anc, g);
        assert(g((c, anc)) =~= Seq::<Bullet>::empty());
        lemma_list_depth_push(anc, c);
        if c.kind is List {
            assert(lists_nest(c));
            assert(lists_nest_children(true, c.children@));
            lemma_list_bullets_pre_order(c.children@, anc.push(c), level);
        } else {
            lemma_bullets_pre_order(c, anc, level);
        }
    }
}

/// `lemma_bullets_pre_order` for the items `items` of a list, the last of
/// `anc`, at level `level`.
pub proof fn lemma_list_bullets_pre_order(items: Seq<MdNode>, anc: Seq<MdNode>, level: int)
    requires
        lists_nest_children(true, items),
        anc.len() > 0,
        anc.last().kind is List,
        level == list_depth(anc),
    ensures
        list_bullets(items, level) == flat_map(visits_children(items, anc), bullet_visit()),
    decreases items, 0int,
{
    if items.len() > 0 {
        let g = bullet_visit();
        let it = items.last();
        lemma_flat_map_visits_children(items, anc, g);
        lemma_list_bullets_pre_order(items.drop_last(), anc, level);
        lemma_flat_map_visits(it, anc, g);
        lemma_list_depth_push(anc, it);
        lemma_bullets_pre_order(it, anc, level + 1);
        assert(list_bullets(items, level) =~= list_bullets(items.drop_last(), level) + (bullet_of(
            it,
            level,
        ) + bullets(it, level + 1)));
    }
}

/// Whether `m` is an item of a bullet list, with bullet character `b.1`,
/// written at `b.2`.
pub open spec fn bullet_item_at(m: MdNode, b: Bullet) -> bool {
    m.kind matches NodeKind::Item(info) && info.list_type == ListType::Bullet && info.bullet_char
        == b.1 && m.sourcepos == b.2
}

/// Whether `m` is an item of a bullet (unordered) list.
pub open spec fn is_bullet_list_item(m: MdNode) -> bool {
    m.kind matches NodeKind::Item(info) && info.list_type == ListType::Bullet
}

/// Whether `b` is a bullet item among the nodes of `vs`.
pub open spec fn found_in(b: Bullet, vs: Seq<Visit>) -> bool {
    exists|i: int| 0 <= i < vs.len() && #[trigger] bullet_item_at(vs[i].0, b)
}

/// Whether each of `bs` is a bullet item among the nodes of `vs`.
pub open spec fn all_bullet_items(bs: Seq<Bullet>, vs: Seq<Visit>) -> bool {
    forall|k: int| 0 <= k < bs.len() ==> #[trigger] found_in(bs[k], vs)
}

/// More nodes before or after keep each bullet item found.
proof fn lemma_all_bullet_items_widen(bs: Seq<Bullet>, vs: Seq<Visit>, ws: Seq<Visit>)
    requires
        all_bullet_items(bs, vs),
    ensures
        all_bullet_items(bs, ws + vs),
        all_bullet_items(bs, vs + ws),
{
    assert forall|k: int| 0 <= k < bs.len() implies #[trigger] found_in(bs[k], ws + vs) by {
        assert(found_in(bs[k], vs));
        let i = choose|i: int| 0 <= i < vs.len() && #[trigger] bullet_item_at(vs[i].0, bs[k]);
        assert((ws + vs)[ws.len() + i] == vs[i]);
        assert(bullet_item_at((ws + vs)[ws.len() + i].0, bs[k]));
    }
    assert forall|k: int| 0 <= k < bs.len() implies #[trigger] found_in(bs[k], vs + ws) by {
        assert(found_in(bs[k], vs));
        let i = choose|i: int| 0 <= i < vs.len() && #[trigger] bullet_item_at(vs[i].0, bs[k]);
        assert((vs + ws)[i] == vs[i]);
        assert(bullet_item_at((vs + ws)[i].0, bs[k]));
    }
}

/// Bullet items found in two runs are found in their concatenation.
proof fn lemma_all_bullet_items_concat(a: Seq<Bullet>, b: Seq<Bullet>, vs: Seq<Visit>)
    requires
        all_bullet_items(a, vs),
        all_bullet_items(b, vs),
    ensures
        all_bullet_items(a + b, vs),
{
    assert forall|k: int| 0 <= k < (a + b).len() implies #[trigger] found_in((a + b)[k], vs) by {
        if k < a.len() {
            assert((a + b)[k] == a[k]);
            assert(found_in(a[k], vs));
        } else {
            assert((a + b)[k] == b[k - a.len()]);
            assert(found_in(b[k - a.len()], vs));
        }
    }
}

/// Each bullet `bullets` finds inside `n` is an item of a bullet list in the
/// tree under `n`, with its character and position: ordered items are never
/// among them, in any tree.
pub proof fn lemma_bullets_are_bullet_items(n: MdNode, anc: Seq<MdNode>, level: int)
    ensures
        all_bullet_items(bullets(n, level), visits(n, anc)),
    decreases n, 0int,
{
    lemma_bullets_children_are_bullet_items(n.children@, anc.push(n), level);
    lemma_all_bullet_items_widen(
        bullets(n, level),
        visits_children(n.children@, anc.push(n)),
        seq![(n, anc)],
    );
}

/// `lemma_bullets_are_bullet_items` for the siblings `cs`.
pub proof fn lemma_bullets_children_are_bullet_items(cs: Seq<MdNode>, anc: Seq<MdNode>, level: int)
    ensures
        all_bullet_items(bullets_children(cs, level), visits_children(cs, anc)),
    decreases cs, 0int,
{
    if cs.len() > 0 {
        let c = cs.last();
        let before = visits_children(cs.drop_last(), anc);
        lemma_bullets_children_are_bullet_items(cs.drop_last(), anc, level);
        lemma_all_bullet_items_widen(bullets_children(cs.drop_last(), level), before, visits(c, anc));
        let own = if c.kind is List {
            list_bullets(c.children@, level)
        } else {
            bullets(c, level)
        };
        if c.kind is List {
            lemma_list_bullets_are_bullet_items(c.children@, anc.push(c), level);
            lemma_all_bullet_items_widen(
                own,
                visits_children(c.children@, anc.push(c)),
                seq![(c, anc)],
            );
        } else {
            lemma_bullets_are_bullet_items(c, anc, level);
        }
        lemma_all_bullet_items_widen(own, visits(c, anc), before);
        lemma_all_bullet_items_concat(
            bullets_children(cs.drop_last(), level),
            own,
            visits_children(cs, anc),
        );
    }
}

/// `lemma_bullets_are_bullet_items` for the items `items` of a list.
pub proof fn lemma_list_bullets_are_bullet_items(items: Seq<MdNode>, anc: Seq<MdNode>, level: int)
    ensures
        all_bullet_items(list_bullets(items, level), visits_children(items, anc)),
    decreases items, 0int,
{
    if items.len() > 0 {
        let it = items.last();
        let before = visits_children(items.drop_last(), anc);
        let vit = visits(it, anc);
        let whole = visits_children(items, anc);
        lemma_list_bullets_are_bullet_items(items.drop_last(), anc, level);
        lemma_all_bullet_items_widen(list_bullets(items.drop_last(), level), before, vit);
        lemma_bullets_are_bullet_items(it, anc, level + 1);
        lemma_all_bullet_items_widen(bullets(it, level + 1), vit, before);
        let own = bullet_of(it, level);
        assert(vit[0] == (it, anc));
        assert(whole[before.len() as int] == vit[0]);
        assert forall|k: int| 0 <= k < own.len() implies #[trigger] found_in(own[k], whole) by {
            assert(bullet_item_at(whole[before.len() as int].0, own[k]));
        }
        lemma_all_bullet_items_concat(list_bullets(items.drop_last(), level), own, whole);
        lemma_all_bullet_items_concat(
            list_bullets(items.drop_last(), level) + own,
            bullets(it, level + 1),
            whole,
        );
    }
}

/// Each position a style's reports give is that of one of the bullet items.
proof fn lemma_breaks_from_bullets(style: ListStyle, bs: Seq<Bullet>)
    ensures
        forall|k: int|
            #![trigger style_breaks(style, bs)[k]]
            0 <= k < style_breaks(style, bs).len() ==> exists|j: int|
                0 <= j < bs.len() && (#[trigger] bs[j]).2 == style_breaks(style, bs)[k],
    decreases bs.len(),
{
    if bs.len() > 0 {
        let prev = bs.drop_last();
        lemma_breaks_from_bullets(style, prev);
        let r = style_breaks(style, bs);
        let r0 = style_breaks(style, prev);
        assert forall|k: int| #![trigger r[k]] 0 <= k < r.len() implies exists|j: int|
            0 <= j < bs.len() && (#[trigger] bs[j]).2 == r[k] by {
            if k < r0.len() {
                let j = choose|j: int| 0 <= j < prev.len() && (#[trigger] prev[j]).2 == r0[k];
                assert(prev[j] == bs[j]);
            } else {
                assert(bs[bs.len() - 1] == bs.last());
            }
        }
    }
}

/// Whether an item of a bullet (unordered) list among the nodes of `vs` is
/// written at `p`.
pub open spec fn bullet_item_written_at(vs: Seq<Visit>, p: Sourcepos) -> bool {
    exists|i: int|
        0 <= i < vs.len() && #[trigger] is_bullet_list_item(vs[i].0) && vs[i].0.sourcepos == p
}

/// Under every style, each position MD004 reports inside `n` is that of an
/// item of a bullet (unordered) list in the tree under `n`: an item of an
/// ordered list is never reported.
pub proof fn lemma_reports_are_bullet_items(style: ListStyle, n: MdNode, level: int)
    ensures
        forall|k: int|
            0 <= k < style_breaks(style, bullets(n, level)).len() ==> bullet_item_written_at(
                visits(n, seq![]),
                #[trigger] style_breaks(style, bullets(n, level))[k],
            ),
{
    let bs = bullets(n, level);
    let vs = visits(n, seq![]);
    let r = style_breaks(style, bs);
    lemma_bullets_are_bullet_items(n, seq![], level);
    lemma_breaks_from_bullets(style, bs);
    assert forall|k: int| 0 <= k < r.len() implies bullet_item_written_at(vs, #[trigger] r[k]) by {
        let j = choose|j: int| 0 <= j < bs.len() && (#[trigger] bs[j]).2 == r[k];
        assert(found_in(bs[j], vs));
        let i = choose|i: int| 0 <= i < vs.len() && #[trigger] bullet_item_at(vs[i].0, bs[j]);
        assert(bullet_item_at(vs[i].0, bs[j]));
        assert(is_bullet_list_item(vs[i].0));
    }
}

/// What a bullet item gives where it is held to the character `c`: its
/// position if it uses another.
pub open spec fn differs_from(c: u8) -> spec_fn(Bullet) -> Seq<Sourcepos> {
    |b: Bullet|
        if b.1 != c {
            seq![b.2]
        } else {
            seq![]
        }
}

/// `Asterisk`, `Plus` and `Dash` report, in order, every bullet item whose
/// character is not the style's; `Consistent` every one whose character is
/// not that of the first bullet item, across blockquotes and nesting levels.
pub proof fn lemma_breaks_differ(style: ListStyle, bs: Seq<Bullet>, c: u8)
    requires
        match style {
            ListStyle::Consistent => bs.len() > 0 ==> bs[0].1 == c,
            ListStyle::Asterisk => c == 0x2a,
            ListStyle::Plus => c == 0x2b,
            ListStyle::Dash => c == 0x2d,
            ListStyle::Sublist => false,
        },
    ensures
        style_breaks(style, bs) == flat_map(bs, differs_from(c)),
    decreases bs.len(),
{
    if bs.len() > 0 {
        let prev = bs.drop_last();
        if prev.len() > 0 {
            assert(prev[0] == bs[0]);
        }
        lemma_breaks_differ(style, prev, c);
        if prev.len() == 0 {
            assert(bs.last() == bs[0]);
        }
    }
}

/// `first_at_level` is the character of the earliest bullet item at that
/// level, and there is none exactly where no bullet item is at that level.
pub proof fn lemma_first_at_level_is_first(prefix: Seq<Bullet>, level: int)
    ensures
        first_at_level(prefix, level) is None <==> forall|i: int|
            0 <= i < prefix.len() ==> (#[trigger] prefix[i]).0 != level,
        first_at_level(prefix, level) matches Some(c) ==> exists|j: int|
            0 <= j < prefix.len() && (#[trigger] prefix[j]).0 == level && prefix[j].1 == c
                && forall|i: int| 0 <= i < j ==> (#[trigger] prefix[i]).0 != level,
    decreases prefix.len(),
{
    if prefix.len() > 0 {
        let prev = prefix.drop_last();
        lemma_first_at_level_is_first(prev, level);
        assert forall|i: int| 0 <= i < prev.len() implies prev[i] == prefix[i] by {}
        match first_at_level(prev, level) {
            Some(c) => {
                let j = choose|j: int|
                    0 <= j < prev.len() && (#[trigger] prev[j]).0 == level && prev[j].1 == c
                        && forall|i: int| 0 <= i < j ==> (#[trigger] prev[i]).0 != level;
                assert(prefix[j] == prev[j]);
                assert forall|i: int| 0 <= i < j implies (#[trigger] prefix[i]).0 != level by {
                    assert(prefix[i] == prev[i]);
                }
                assert(prefix[j].0 == level);
            },
            None => {
                let k = prefix.len() - 1;
                assert(prefix[k] == prefix.last());
                if prefix.last().0 == level {
                    assert forall|i: int| 0 <= i < k implies (#[trigger] prefix[i]).0 != level by {
                        assert(prefix[i] == prev[i]);
                    }
                } else {
                    assert forall|i: int| 0 <= i < prefix.len() implies (#[trigger] prefix[i]).0
                        != level by {
                        if i < k {
                            assert(prefix[i] == prev[i]);
                        }
                    }
                }
            },
        }
    }
}

/// Reports only grow as the walk goes on: what the first `i` bullet items
/// give is where what the first `j` give starts, for `i <= j`.
pub proof fn lemma_breaks_grow(style: ListStyle, bs: Seq<Bullet>, i: int, j: int)
    requires
        0 <= i <= j <= bs.len(),
    ensures
        style_breaks(style, bs.take(i)).is_prefix_of(style_breaks(style, bs.take(j))),
    decreases j - i,
{
    if i < j {
        lemma_breaks_grow(style, bs, i, j - 1);
        assert(bs.take(j).drop_last() =~= bs.take(j - 1));
        let a = style_breaks(style, bs.take(i));
        let b = style_breaks(style, bs.take(j - 1));
        let c = style_breaks(style, bs.take(j));
        assert(c.subrange(0, a.len() as int) =~= b.subrange(0, a.len() as int));
    } else {
        let a = style_breaks(style, bs.take(i));
        assert(a.subrange(0, a.len() as int) =~= a);
    }
}

/// Once a level has its first bullet character, it keeps it: the first one
/// at a level among the first `i` bullet items stays the first among the
/// first `j`, for `i <= j`.
pub proof fn lemma_first_at_level_stays(bs: Seq<Bullet>, level: int, i: int, j: int)
    requires
        0 <= i <= j <= bs.len(),
        first_at_level(bs.take(i), level) is Some,
    ensures
        first_at_level(bs.take(j), level) == first_at_level(bs.take(i), level),
    decreases j - i,
{
    if i < j {
        lemma_first_at_level_stays(bs, level, i, j - 1);
        assert(bs.take(j).drop_last() =~= bs.take(j - 1));
    }
}

/// `HashMap::get` on the `rustc_hash::FxHashMap` of each level's first bullet
/// character. Claimed: it gives back what the map's contents hold for
/// `level`, if anything (`FxHasher` hashes a `usize` the same way every time,
/// so the map behaves as its contents).
#[verifier::external_body]
fn level_bullet(levels: &FxHashMap<usize, u8>, level: usize) -> (r: Option<u8>)
    ensures
        r == levels@.get(level),
{
    levels.get(&level).copied()
}

/// `HashMap::insert` on the `rustc_hash::FxHashMap` of each level's first
/// bullet character. Claimed: afterwards the contents hold `c` for `level`
/// and are otherwise unchanged.
#[verifier::external_body]
fn set_level_bullet(levels: &mut FxHashMap<usize, u8>, level: usize, c: u8)
    ensures
        final(levels)@ == old(levels)@.insert(level, c),
{
    levels.insert(level, c);
}

/// The bullet items that `bullets` describes, with levels as `usize`.
pub open spec fn as_bullets(v: Seq<(usize, u8, Sourcepos)>) -> Seq<Bullet> {
    v.map_values(|b: (usize, u8, Sourcepos)| (b.0 as int, b.1, b.2))
}

impl MD004 {
    pub const DEFAULT_LIST_STYLE: ListStyle = ListStyle::Consistent;

    /// The configured style.
    pub closed spec fn style_setting(self) -> ListStyle {
        self.style
    }

    /// A rule is its style: two rules with the same style are the same rule,
    /// so `new(DEFAULT_LIST_STYLE)` is `default()`.
    pub proof fn lemma_same_style_same_rule(self, other: MD004)
        requires
            self.style_setting() == other.style_setting(),
        ensures
            self == other,
    {
    }

    /// The rule with the given style.
    #[inline]
    #[must_use]
    pub fn new(style: ListStyle) -> (r: Self)
        ensures
            r.style_setting() == style,
    {
        Self { style }
    }

    /// The rule's name, description, tags and aliases.
    pub fn metadata(&self) -> (m: Metadata)
        ensures
            m.name@ == "MD004"@,
            m.description@ == "Unordered list style"@,
            m.tags@ == seq![Tag::Bullet, Tag::Ul],
            m.aliases@.len() == 1 && m.aliases@[0]@ == "ul-style"@,
    {
        Metadata {
            name: "MD004",
            description: "Unordered list style",
            tags: vec![Tag::Bullet, Tag::Ul],
            aliases: vec!["ul-style"],
        }
    }

    /// A violation of this rule at `position` in the document at `path`.
    pub fn to_violation(&self, path: String, position: Sourcepos) -> (v: Violation)
        ensures
            v.path@ == path@,
            v.name@ == "MD004"@,
            v.position == position,
    {
        Violation { path, name: "MD004", position }
    }

    /// Appends the bullet items inside `n` at `level` (see `bullets`).
    fn collect_bullets(n: &MdNode, level: usize, out: &mut Vec<(usize, u8, Sourcepos)>)
        requires
            level + size(*n) <= usize::MAX,
        ensures
            as_bullets(final(out)@) == as_bullets(old(out)@) + bullets(*n, level as int),
        decreases n,
    {
        let ghost start = out@;
        let len = n.children.len();
        let mut i: usize = 0;
        while i < len
            invariant
                len == n.children@.len(),
                0 <= i <= len,
                level + size(*n) <= usize::MAX,
                as_bullets(out@) == as_bullets(start) + bullets_children(
                    n.children@.take(i as int),
                    level as int,
                ),
            decreases len - i,
        {
            proof {
                assert(n.children@.take(i + 1).drop_last() =~= n.children@.take(i as int));
                lemma_child_size(n.children@, i as int);
            }
            let child = &n.children[i];
            if let NodeKind::List(_) = child.kind {
                let ghost before = out@;
                let items = child.children.len();
                let mut j: usize = 0;
                while j < items
                    invariant
                        len == n.children@.len(),
                        i < len,
                        *child == n.children@[i as int],
                        items == child.children@.len(),
                        0 <= j <= items,
                        level + 1 + size(*child) <= usize::MAX,
                        as_bullets(out@) == as_bullets(before) + list_bullets(
                            child.children@.take(j as int),
                            level as int,
                        ),
                    decreases items - j,
                {
                    proof {
                        assert(child.children@.take(j + 1).drop_last() =~= child.children@.take(
                            j as int,
                        ));
                        lemma_child_size(child.children@, j as int);
                    }
                    let item = &child.children[j];
                    let ghost mid = out@;
                    if let NodeKind::Item(info) = item.kind {
                        if info.list_type == ListType::Bullet {
                            out.push((level, info.bullet_char, item.sourcepos));
                        }
                    }
                    proof {
                        assert(as_bullets(out@) =~= as_bullets(mid) + bullet_of(*item, level as int));
                    }
                    proof {
                        assert(decreases_to!(n.children => n.children[i as int]));
                        assert(decreases_to!(child.children => child.children[j as int]));
                    }
                    Self::collect_bullets(item, level + 1, out);
                    j += 1;
                }
                proof {
                    assert(child.children@.take(j as int) =~= child.children@);
                }
            } else {
                Self::collect_bullets(child, level, out);
            }
            i += 1;
        }
        proof {
            assert(n.children@.take(i as int) =~= n.children@);
        }
    }

    /// The bullet items of `doc` that break the configured style, in document
    /// order. `Consistent` holds every bullet item to the character of the
    /// document's first one, blockquotes included; `Sublist` holds each to the
    /// character of the first one at its nesting level, where a list at the
    /// top of a blockquote is at the first level.
    pub fn check(&self, doc: &Document) -> (vs: Vec<Violation>)
        requires
            doc.wf(),
        ensures
            reports(vs@, doc.path@, "MD004"@, style_breaks(self.style_setting(), bullets(doc.root, 1))),
            lists_nest(doc.root) && !(doc.root.kind is List) ==> reports(
                vs@,
                doc.path@,
                "MD004"@,
                style_breaks(
                    self.style_setting(),
                    flat_map(visits_children(doc.root.children@, seq![doc.root]), bullet_visit()),
                ),
            ),
    {
        let mut bs: Vec<(usize, u8, Sourcepos)> = Vec::new();
        Self::collect_bullets(&doc.root, 1, &mut bs);
        let ghost all = as_bullets(bs@);
        let mut positions: Vec<Sourcepos> = Vec::new();
        let mut maybe_list_char: Option<u8> = None;
        let mut levels: FxHashMap<usize, u8> = FxHashMap::default();
        let mut i: usize = 0;
        while i < bs.len()
            invariant
                0 <= i <= bs@.len(),
                all == as_bullets(bs@),
                all.len() == bs@.len(),
                positions@ == style_breaks(self.style, all.take(i as int)),
                maybe_list_char == (if i == 0 {
                    None
                } else {
                    Some(all[0].1)
                }),
                self.style == ListStyle::Sublist ==> forall|l: usize|
                    #[trigger] levels@.get(l) == first_at_level(all.take(i as int), l as int),
            decreases bs@.len() - i,
        {
            let (level, bullet_char, position) = bs[i];
            let ghost prefix = all.take(i as int);
            let ghost lv0 = levels@;
            proof {
                assert(all.take(i + 1).drop_last() =~= prefix);
                assert(all.take(i + 1).last() == all[i as int]);
                assert(all[i as int] == (level as int, bullet_char, position));
                if i > 0 {
                    assert(prefix[0] == all[0]);
                }
            }
            let is_violated = match self.style {
                ListStyle::Consistent => match maybe_list_char {
                    Some(list_char) => bullet_char != list_char,
                    None => false,
                },
                ListStyle::Asterisk => bullet_char != 0x2a,
                ListStyle::Plus => bullet_char != 0x2b,
                ListStyle::Dash => bullet_char != 0x2d,
                ListStyle::Sublist => match level_bullet(&levels, level) {
                    Some(list_char) => bullet_char != list_char,
                    None => false,
                },
            };
            if is_violated {
                positions.push(position);
            }
            if maybe_list_char.is_none() {
                maybe_list_char = Some(bullet_char);
            }
            if self.style == ListStyle::Sublist {
                if level_bullet(&levels, level).is_none() {
                    set_level_bullet(&mut levels, level, bullet_char);
                }
            }
            proof {
                if self.style == ListStyle::Sublist {
                    assert forall|l: usize|
                        #[trigger] levels@.get(l) == first_at_level(all.take(i + 1), l as int) by {
                        assert(lv0.get(l) == first_at_level(prefix, l as int));
                        assert(all.take(i + 1).drop_last() =~= prefix);
                        if l != level {
                            assert(levels@.get(l) == lv0.get(l));
                        }
                    }
                }
            }
            i += 1;
        }
        proof {
            assert(all.take(i as int) =~= all);
            if lists_nest(doc.root) && !(doc.root.kind is List) {
                assert(seq![doc.root] =~= Seq::<MdNode>::empty().push(doc.root));
                lemma_list_depth_push(Seq::<MdNode>::empty(), doc.root);
                lemma_bullets_pre_order(doc.root, Seq::<MdNode>::empty(), 1);
            }
        }
        violations_at(&doc.path, "MD004", &positions)
    }
}

impl Default for MD004 {
    /// The rule with the default style, `Consistent`.
    #[inline]
    fn default() -> (r: Self)
        ensures
            r.style_setting() == MD004::DEFAULT_LIST_STYLE,
    {
        Self { style: Self::DEFAULT_LIST_STYLE }
    }
}

} // verus!
