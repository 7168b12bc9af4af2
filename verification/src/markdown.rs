use comrak::arena_tree::NodeEdge;
use comrak::nodes::NodeValue;
use vstd::prelude::*;

verus! {

/// A line and a byte column, both counted from 1.
#[derive(Debug, Clone, Copy, PartialEq, Eq, Structural)]
pub struct LineColumn {
    pub line: usize,
    pub column: usize,
}

/// Where a node was written: the first and the last byte it covers.
#[derive(Debug, Clone, Copy, PartialEq, Eq, Structural)]
pub struct Sourcepos {
    pub start: LineColumn,
    pub end: LineColumn,
}

impl Sourcepos {
    /// The position from `(start line, start column, end line, end column)`.
    pub fn from(p: (usize, usize, usize, usize)) -> (r: Sourcepos)
        ensures
            r == (Sourcepos {
                start: LineColumn { line: p.0, column: p.1 },
                end: LineColumn { line: p.2, column: p.3 },
            }),
    {
        Sourcepos {
            start: LineColumn { line: p.0, column: p.1 },
            end: LineColumn { line: p.2, column: p.3 },
        }
    }
}

/// Bullet (unordered) or ordered list.
#[derive(Debug, Clone, Copy, PartialEq, Eq, Structural)]
pub enum ListType {
    Bullet,
    Ordered,
}

/// What a list or a list item records of its marker.
#[derive(Debug, Clone, Copy, PartialEq, Eq, Structural)]
pub struct ListInfo {
    pub list_type: ListType,
    /// The bullet character of a bullet list item, as a byte.
    pub bullet_char: u8,
    /// Bytes from the start of the marker to the start of the item's text.
    pub padding: usize,
}

impl ListInfo {
    /// The record of a bullet (`bullet`) or ordered list marker.
    pub fn new(bullet: bool, bullet_char: u8, padding: usize) -> (r: ListInfo)
        ensures
            r.list_type == (if bullet {
                ListType::Bullet
            } else {
                ListType::Ordered
            }),
            r.bullet_char == bullet_char,
            r.padding == padding,
    {
        ListInfo {
            list_type: if bullet {
                ListType::Bullet
            } else {
                ListType::Ordered
            },
            bullet_char,
            padding,
        }
    }
}

/// An inline code span.
#[derive(Debug)]
pub struct CodeSpan {
    /// How many backticks delimit the span on each side.
    pub num_backticks: usize,
    /// The content, after CommonMark has removed a space from each end.
    pub literal: String,
}

/// The kinds of node that the rules tell apart; every other kind is `Other`.
#[derive(Debug)]
pub enum NodeKind {
    BlockQuote,
    List(ListInfo),
    Item(ListInfo),
    Paragraph,
    SoftBreak,
    Text(String),
    Code(CodeSpan),
    Link,
    Table,
    Other,
}

/// A node of the document tree, with its children in document order.
#[derive(Debug)]
pub struct MdNode {
    pub kind: NodeKind,
    pub sourcepos: Sourcepos,
    pub children: Vec<MdNode>,
}

/// One step of a depth-first walk of the tree: a node is entered before its
/// children are walked and left after them.
#[derive(Debug)]
pub enum NodeEvent {
    Enter(NodeKind, Sourcepos),
    Leave,
}

/// The walk of a tree as a sequence of events.
pub open spec fn events_of(n: MdNode) -> Seq<NodeEvent>
    decreases n,
{
    seq![NodeEvent::Enter(n.kind, n.sourcepos)] + events_of_children(n.children@) + seq![
        NodeEvent::Leave,
    ]
}

/// The walks of a sequence of sibling trees, one after the other.
pub open spec fn events_of_children(cs: Seq<MdNode>) -> Seq<NodeEvent>
    decreases cs,
{
    if cs.len() == 0 {
        seq![]
    } else {
        events_of_children(cs.drop_last()) + events_of(cs.last())
    }
}

/// The walk of siblings splits where the siblings are split.
pub proof fn lemma_events_of_children_concat(a: Seq<MdNode>, b: Seq<MdNode>)
    ensures
        events_of_children(a + b) == events_of_children(a) + events_of_children(b),
    decreases b.len(),
{
    if b.len() == 0 {
        assert(a + b =~= a);
        assert(events_of_children(b) =~= seq![]);
        assert(events_of_children(a) + events_of_children(b) =~= events_of_children(a));
    } else {
        lemma_events_of_children_concat(a, b.drop_last());
        assert((a + b).drop_last() =~= a + b.drop_last());
        assert((a + b).last() == b.last());
        assert(events_of_children(a + b) =~= events_of_children(a) + events_of_children(b));
    }
}

/// Reads one tree off the end of `ev`, whose last event must be the tree's
/// `Leave`; on success the events that are left are those before the tree's.
/// Where `w` says that `ev` is the events `p` followed by the walk of a tree
/// `t`, the read succeeds, leaves `p`, and gives a tree with `t`'s walk.
fn build_node(ev: &mut Vec<NodeEvent>, Ghost(w): Ghost<Option<(Seq<NodeEvent>, MdNode)>>) -> (r:
    Option<MdNode>)
    requires
        w matches Some((p, t)) ==> old(ev)@ == p + events_of(t),
    ensures
        r matches Some(t) ==> old(ev)@ == final(ev)@ + events_of(t),
        w matches Some((p, t)) ==> r is Some && final(ev)@ == p && events_of(r->0) == events_of(
            t,
        ),
    decreases old(ev)@.len(),
{
    let ghost p = match w {
        Some((p, _)) => p,
        None => Seq::empty(),
    };
    let ghost t = match w {
        Some((_, t)) => t,
        None => arbitrary(),
    };
    let ghost enter_t = NodeEvent::Enter(t.kind, t.sourcepos);
    proof {
        if w is Some {
            assert(old(ev)@ =~= (p + seq![enter_t] + events_of_children(t.children@)) + seq![
                NodeEvent::Leave,
            ]);
        }
    }
    match ev.pop() {
        Some(NodeEvent::Leave) => {},
        _ => {
            return None;
        },
    }
    let mut children: Vec<MdNode> = Vec::new();
    let ghost mut k: int = t.children@.len() as int;
    proof {
        if w is Some {
            assert(t.children@.take(k) =~= t.children@);
            assert(t.children@.skip(k) =~= Seq::<MdNode>::empty());
        }
    }
    loop
        invariant
            ev@.len() < old(ev)@.len(),
            old(ev)@ == ev@ + events_of_children(children@) + seq![NodeEvent::Leave],
            w is Some ==> {
                &&& 0 <= k <= t.children@.len()
                &&& ev@ == p + seq![enter_t] + events_of_children(t.children@.take(k))
                &&& events_of_children(children@) == events_of_children(t.children@.skip(k))
            },
            enter_t == NodeEvent::Enter(t.kind, t.sourcepos),
            w matches Some((pp, tt)) ==> pp == p && tt == t,
        decreases ev@.len(),
    {
        proof {
            if w is Some && k > 0 {
                let before = t.children@.take(k);
                assert(before.drop_last() =~= t.children@.take(k - 1));
                assert(before.last() == t.children@[k - 1]);
                assert(ev@ =~= (p + seq![enter_t] + events_of_children(t.children@.take(k - 1)))
                    + events_of(t.children@[k - 1]));
            }
            if w is Some && k == 0 {
                assert(t.children@.take(0) =~= Seq::<MdNode>::empty());
                assert(ev@ =~= p + seq![enter_t]);
            }
        }
        if ev.len() == 0 {
            return None;
        }
        let is_leave = match &ev[ev.len() - 1] {
            NodeEvent::Leave => true,
            NodeEvent::Enter(..) => false,
        };
        if is_leave {
            let ghost cs = children@;
            let ghost inner = if w is Some {
                Some((p + seq![enter_t] + events_of_children(t.children@.take(k - 1)), t.children@[k - 1]))
            } else {
                None
            };
            let child = match build_node(ev, Ghost(inner)) {
                Some(c) => c,
                None => {
                    return None;
                },
            };
            proof {
                lemma_events_of_children_concat(seq![child], cs);
                assert(events_of_children(seq![child]) =~= events_of(child)) by {
                    let one = seq![child];
                    assert(one.drop_last() =~= Seq::<MdNode>::empty());
                    assert(one.last() == child);
                    assert(events_of_children(one.drop_last()) =~= seq![]);
                }
                if w is Some {
                    let x = t.children@[k - 1];
                    lemma_events_of_children_concat(seq![x], t.children@.skip(k));
                    assert(seq![x] + t.children@.skip(k) =~= t.children@.skip(k - 1));
                    assert(events_of_children(seq![x]) =~= events_of(x)) by {
                        let one = seq![x];
                        assert(one.drop_last() =~= Seq::<MdNode>::empty());
                        assert(one.last() == x);
                        assert(events_of_children(one.drop_last()) =~= seq![]);
                    }
                }
            }
            children.insert(0, child);
            proof {
                assert(children@ =~= seq![child] + cs);
                assert(events_of(child).len() >= 2);
                if w is Some {
                    k = k - 1;
                }
            }
        } else {
            proof {
                if w is Some && k > 0 {
                    let x = t.children@[k - 1];
                    let ex = events_of(x);
                    assert(ex.last() == NodeEvent::Leave);
                    assert(ev@.last() == ex.last());
                }
            }
            match ev.pop() {
                Some(NodeEvent::Enter(kind, sourcepos)) => {
                    let node = MdNode { kind, sourcepos, children };
                    proof {
                        assert(old(ev)@ =~= ev@ + events_of(node));
                        if w is Some {
                            assert(t.children@.skip(0) =~= t.children@);
                            assert(events_of(node) =~= events_of(t));
                        }
                    }
                    return Some(node);
                },
                _ => {
                    return None;
                },
            }
        }
    }
}

/// Rebuilds the tree whose walk is `ev`: succeeds wherever `ev` is the walk
/// of a tree, with a tree whose walk it is.
pub fn build_tree(ev: Vec<NodeEvent>) -> (r: Option<MdNode>)
    ensures
        r matches Some(t) ==> events_of(t) == ev@,
        (exists|t: MdNode| events_of(t) == ev@) ==> r is Some,
{
    let ghost witness = choose|t: MdNode| events_of(t) == ev@;
    let ghost w = if exists|t: MdNode| events_of(t) == ev@ {
        Some((Seq::<NodeEvent>::empty(), witness))
    } else {
        None
    };
    proof {
        if w is Some {
            assert(ev@ =~= Seq::<NodeEvent>::empty() + events_of(witness));
        }
    }
    let mut ev = ev;
    let r = build_node(&mut ev, Ghost(w));
    if ev.len() != 0 {
        return None;
    }
    proof {
        if r is Some {
            assert(ev@ + events_of(r->0) =~= events_of(r->0));
        }
    }
    r
}

/// A node of a tree, with its ancestors from the root down.
pub type Visit = (MdNode, Seq<MdNode>);

/// The nodes of the tree under `n`, `n` first, in pre-order (the order of
/// comrak's `descendants`), each with its ancestors, where `anc` are `n`'s.
pub open spec fn visits(n: MdNode, anc: Seq<MdNode>) -> Seq<Visit>
    decreases n,
{
    seq![(n, anc)] + visits_children(n.children@, anc.push(n))
}

/// The nodes of the trees `cs`, in pre-order, where `anc` are their ancestors.
pub open spec fn visits_children(cs: Seq<MdNode>, anc: Seq<MdNode>) -> Seq<Visit>
    decreases cs,
{
    if cs.len() == 0 {
        seq![]
    } else {
        visits_children(cs.drop_last(), anc) + visits(cs.last(), anc)
    }
}

/// What `f` gives for each of `xs`, one after the other.
pub open spec fn flat_map<A, B>(xs: Seq<A>, f: spec_fn(A) -> Seq<B>) -> Seq<B>
    decreases xs.len(),
{
    if xs.len() == 0 {
        seq![]
    } else {
        flat_map(xs.drop_last(), f) + f(xs.last())
    }
}

/// `flat_map` splits where its sequence is split.
pub proof fn lemma_flat_map_concat<A, B>(a: Seq<A>, b: Seq<A>, f: spec_fn(A) -> Seq<B>)
    ensures
        flat_map(a + b, f) == flat_map(a, f) + flat_map(b, f),
    decreases b.len(),
{
    if b.len() == 0 {
        assert(a + b =~= a);
        assert(flat_map(a, f) + flat_map(b, f) =~= flat_map(a, f));
    } else {
        lemma_flat_map_concat(a, b.drop_last(), f);
        assert((a + b).drop_last() =~= a + b.drop_last());
        assert((a + b).last() == b.last());
        assert(flat_map(a + b, f) =~= flat_map(a, f) + flat_map(b, f));
    }
}

/// `flat_map` of one element is what `f` gives for it.
pub proof fn lemma_flat_map_one<A, B>(x: A, f: spec_fn(A) -> Seq<B>)
    ensures
        flat_map(seq![x], f) == f(x),
{
    let one = seq![x];
    assert(one.drop_last() =~= Seq::<A>::empty());
    assert(one.last() == x);
    assert(flat_map(one.drop_last(), f) =~= Seq::<B>::empty());
    assert(flat_map(one, f) =~= f(x));
}

/// Whatever `flat_map` gives comes from what `f` gives for one of `xs`.
pub proof fn lemma_flat_map_contains<A, B>(xs: Seq<A>, f: spec_fn(A) -> Seq<B>, y: B)
    requires
        flat_map(xs, f).contains(y),
    ensures
        exists|i: int| 0 <= i < xs.len() && (#[trigger] f(xs[i])).contains(y),
    decreases xs.len(),
{
    if xs.len() > 0 {
        let a = flat_map(xs.drop_last(), f);
        let b = f(xs.last());
        let k = choose|k: int| 0 <= k < flat_map(xs, f).len() && flat_map(xs, f)[k] == y;
        if k < a.len() {
            assert((a + b)[k] == a[k]);
            assert(a.contains(y));
            lemma_flat_map_contains(xs.drop_last(), f, y);
            let i = choose|i: int|
                0 <= i < xs.drop_last().len() && (#[trigger] f(xs.drop_last()[i])).contains(y);
            assert(xs.drop_last()[i] == xs[i]);
        } else {
            assert((a + b)[k] == b[k - a.len()]);
            assert(b.contains(y));
            assert(f(xs[xs.len() - 1]) == b);
        }
    }
}

/// Over the pre-order of a tree, `flat_map` is what `f` gives for the root
/// followed by what it gives over the pre-order of the root's children.
pub proof fn lemma_flat_map_visits<B>(n: MdNode, anc: Seq<MdNode>, f: spec_fn(Visit) -> Seq<B>)
    ensures
        flat_map(visits(n, anc), f) == f((n, anc)) + flat_map(
            visits_children(n.children@, anc.push(n)),
            f,
        ),
{
    lemma_flat_map_concat(seq![(n, anc)], visits_children(n.children@, anc.push(n)), f);
    lemma_flat_map_one((n, anc), f);
}

/// Over the pre-order of siblings, `flat_map` is what it gives over all but
/// the last followed by what it gives over the last one's tree.
pub proof fn lemma_flat_map_visits_children<B>(
    cs: Seq<MdNode>,
    anc: Seq<MdNode>,
    f: spec_fn(Visit) -> Seq<B>,
)
    requires
        cs.len() > 0,
    ensures
        flat_map(visits_children(cs, anc), f) == flat_map(visits_children(cs.drop_last(), anc), f)
            + flat_map(visits(cs.last(), anc), f),
{
    lemma_flat_map_concat(visits_children(cs.drop_last(), anc), visits(cs.last(), anc), f);
}

/// Whether lists and items nest as comrak builds them in the tree under `n`:
/// each child of a list is an item, and each item is the child of a list.
pub open spec fn lists_nest(n: MdNode) -> bool
    decreases n,
{
    lists_nest_children(n.kind is List, n.children@)
}

/// Whether the siblings `cs`, children of a list where `in_list` says so,
/// are items exactly then, and nest as comrak builds them below.
pub open spec fn lists_nest_children(in_list: bool, cs: Seq<MdNode>) -> bool
    decreases cs,
{
    cs.len() == 0 || {
        &&& lists_nest_children(in_list, cs.drop_last())
        &&& (in_list <==> cs.last().kind is Item)
        &&& lists_nest(cs.last())
    }
}

/// comrak's node value, carried from the parser to the conversion below.
#[verifier::external_type_specification]
#[verifier::external_body]
pub struct ExNodeValue(NodeValue);

/// What `comrak::parse_document` gives back for a text, with the GFM table
/// extension on, walked depth first: a node is entered, its children are
/// walked in order, and it is left.
pub uninterp spec fn markdown_events(text: Seq<char>) -> Seq<NodeEvent>;

/// Parses `text` with `comrak::parse_document` (tables on, every other
/// extension off) and walks the tree with comrak's `traverse`, turning each
/// `Start` edge into an `Enter` of the node's kind (see `node_kind`) and of
/// its `sourcepos`, field by field, and each `End` edge into a `Leave`. The
/// result is named, not described: it is a function of the text alone. What
/// is stated of it is what `traverse` documents: it walks one tree, the
/// document, entering each node before and leaving it after its descendants.
#[verifier::external_body]
fn parse_markdown(text: &str) -> (events: Vec<NodeEvent>)
    ensures
        events@ == markdown_events(text@),
        exists|t: MdNode| events_of(t) == events@,
{
    let arena = comrak::Arena::new();
    let mut options = comrak::Options::default();
    options.extension.table = true;
    let root = comrak::parse_document(&arena, text, &options);
    root.traverse().map(|edge| match edge {
        NodeEdge::Start(node) => {
            let (value, p) = (&node.data.borrow().value, node.data.borrow().sourcepos);
            NodeEvent::Enter(node_kind(value), Sourcepos::from((p.start.line, p.start.column, p.end.line, p.end.column)))
        },
        NodeEdge::End(_) => NodeEvent::Leave,
    }).collect()
}

/// The kind of a comrak node: its `NodeValue` variant, one arm each, with the
/// fields the rules read (`NodeList`'s type, bullet and padding, `NodeCode`'s
/// backticks and literal, a text's literal) copied across. It carries no
/// contract: only `parse_markdown` above calls it, on each node it walks, and
/// what comes of that is named there.
#[verifier::external_body]
fn node_kind(value: &NodeValue) -> NodeKind {
    match value {
        NodeValue::BlockQuote => NodeKind::BlockQuote,
        NodeValue::List(l) => NodeKind::List(ListInfo::new(l.list_type == comrak::nodes::ListType::Bullet, l.bullet_char, l.padding)),
        NodeValue::Item(l) => NodeKind::Item(ListInfo::new(l.list_type == comrak::nodes::ListType::Bullet, l.bullet_char, l.padding)),
        NodeValue::Paragraph => NodeKind::Paragraph,
        NodeValue::SoftBreak => NodeKind::SoftBreak,
        NodeValue::Text(t) => NodeKind::Text(t.to_string()),
        NodeValue::Code(c) => NodeKind::Code(CodeSpan { num_backticks: c.num_backticks, literal: c.literal.clone() }),
        NodeValue::Link(_) => NodeKind::Link,
        NodeValue::Table(_) => NodeKind::Table,
        _ => NodeKind::Other,
    }
}

/// The tree that comrak parses `text` into.
pub fn parse_tree(text: &str) -> (t: MdNode)
    ensures
        events_of(t) == markdown_events(text@),
        events_of(t).len() <= usize::MAX,
{
    let events = parse_markdown(text);
    let _ = events.len();
    build_tree(events).unwrap()
}

} // verus!
