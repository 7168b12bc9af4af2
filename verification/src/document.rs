use crate::markdown::{events_of, markdown_events, parse_tree, LineColumn, MdNode, NodeKind, Sourcepos};
use crate::text::{ascii_punctuation, bytes, bytes_of, is_ascii_punctuation};
use vstd::prelude::*;

verus! {

/// A text split into lines the way `str::lines` splits it: at each `\n`,
/// with one `\r` before a `\n` dropped, and without an empty line after a
/// final `\n`.
pub open spec fn text_lines(s: Seq<char>) -> Seq<Seq<char>> {
    let segments = split_at_newlines(s);
    let last = segments.last();
    segments.drop_last().map_values(|l: Seq<char>| strip_cr(l)) + if last.len() == 0 {
        Seq::<Seq<char>>::empty()
    } else {
        seq![last]
    }
}

/// The pieces of `s` between `\n`s; there is one more piece than there are
/// `\n`s, and each piece may be empty.
pub open spec fn split_at_newlines(s: Seq<char>) -> Seq<Seq<char>>
    decreases s.len(),
{
    if s.len() == 0 {
        seq![Seq::<char>::empty()]
    } else {
        let rest = split_at_newlines(s.drop_first());
        if s[0] == '\n' {
            seq![Seq::<char>::empty()] + rest
        } else {
            seq![seq![s[0]] + rest[0]] + rest.drop_first()
        }
    }
}

/// A line without the one `\r` that may end it.
pub open spec fn strip_cr(l: Seq<char>) -> Seq<char> {
    if l.len() > 0 && l.last() == '\r' {
        l.drop_last()
    } else {
        l
    }
}

/// `str::lines`, each line copied into a `String`. Claimed: the lines are
/// those of `text_lines`, which is how `str::lines` is documented to split:
/// at `\n` and at `\r\n`, without the line endings, with a final line
/// ending optional.
#[verifier::external_body]
fn split_lines(text: &str) -> (lines: Vec<String>)
    ensures
        lines@.map_values(|l: String| l@) == text_lines(text@),
{
    text.lines().map(|l| l.to_owned()).collect()
}

/// The number of nodes in a tree.
pub open spec fn size(n: MdNode) -> nat
    decreases n,
{
    1 + size_of_children(n.children@)
}

/// The number of nodes in a sequence of sibling trees.
pub open spec fn size_of_children(cs: Seq<MdNode>) -> nat
    decreases cs,
{
    if cs.len() == 0 {
        0
    } else {
        size_of_children(cs.drop_last()) + size(cs.last())
    }
}

/// Each of the siblings `cs` is no larger than all of them together.
pub proof fn lemma_child_size(cs: Seq<MdNode>, i: int)
    requires
        0 <= i < cs.len(),
    ensures
        size(cs[i]) <= size_of_children(cs),
    decreases cs.len(),
{
    if i < cs.len() - 1 {
        lemma_child_size(cs.drop_last(), i);
    }
}

/// A tree's walk has an `Enter` and a `Leave` for each of its nodes.
pub proof fn lemma_events_len(n: MdNode)
    ensures
        events_of(n).len() == 2 * size(n),
    decreases n,
{
    lemma_events_len_children(n.children@);
}

/// The walk of siblings has two events for each of their nodes.
pub proof fn lemma_events_len_children(cs: Seq<MdNode>)
    ensures
        crate::markdown::events_of_children(cs).len() == 2 * size_of_children(cs),
    decreases cs,
{
    if cs.len() > 0 {
        lemma_events_len_children(cs.drop_last());
        lemma_events_len(cs.last());
    }
}

/// Whether line `line` lies within a table in the tree under `n`. comrak
/// removes the backslash of each `\|` in a table row before it parses the
/// cells' inlines.
pub open spec fn in_table(n: MdNode, line: int) -> bool
    decreases n,
{
    (n.kind is Table && n.sourcepos.start.line <= line <= n.sourcepos.end.line)
        || in_table_children(n.children@, line)
}

/// Whether line `line` lies within a table in one of the trees `cs`.
pub open spec fn in_table_children(cs: Seq<MdNode>, line: int) -> bool
    decreases cs,
{
    cs.len() > 0 && (in_table_children(cs.drop_last(), line) || in_table(cs.last(), line))
}

/// Whether sibling `k` of `cs` is a paragraph that comrak split off the top of
/// the table right after it, and covers line `line`. comrak unescapes `\|` in
/// such a paragraph too.
pub open spec fn is_preface(cs: Seq<MdNode>, k: int, line: int) -> bool {
    &&& 0 <= k && k + 1 < cs.len()
    &&& cs[k].kind is Paragraph
    &&& cs[k + 1].kind is Table
    &&& cs[k + 1].sourcepos.start.line == cs[k].sourcepos.end.line + 1
    &&& cs[k].sourcepos.start.line <= line <= cs[k].sourcepos.end.line
}

/// Whether line `line` lies within a paragraph split off a table, in the tree
/// under `n`.
pub open spec fn in_preface(n: MdNode, line: int) -> bool
    decreases n,
{
    (exists|k: int| is_preface(n.children@, k, line)) || in_preface_children(n.children@, line)
}

/// Whether line `line` lies within a paragraph split off a table, in one of
/// the trees `cs`.
pub open spec fn in_preface_children(cs: Seq<MdNode>, line: int) -> bool
    decreases cs,
{
    cs.len() > 0 && (in_preface_children(cs.drop_last(), line) || in_preface(cs.last(), line))
}

/// `x`, or the largest `usize` where `x` is larger.
pub open spec fn saturate(x: int) -> int {
    if x <= usize::MAX {
        x
    } else {
        usize::MAX as int
    }
}

/// The column at which a byte that comrak reports at column `col` was written
/// on the line `b`, where comrak dropped the backslash of each `\|` before it
/// measured: scanning from byte `w`, with `d` backslashes dropped so far. In a
/// table row (`cells`) the count starts again after each `|` that separates
/// two cells. A byte written as `\|` is at the column of its backslash; past
/// the end of the line the columns run on with the count left as it is.
pub open spec fn written_from(b: Seq<u8>, cells: bool, col: int, w: int, d: int) -> int
    decreases b.len() - w,
{
    if w < 0 || w >= b.len() {
        col + d
    } else if w + 1 - d == col {
        w + 1
    } else if b[w] == 0x5c && w + 1 < b.len() {
        if b[w + 1] == 0x7c {
            written_from(b, cells, col, w + 2, d + 1)
        } else if w + 2 - d == col {
            w + 2
        } else {
            written_from(b, cells, col, w + 2, d)
        }
    } else if cells && b[w] == 0x7c {
        written_from(b, cells, col, w + 1, 0)
    } else {
        written_from(b, cells, col, w + 1, d)
    }
}

/// Whether the bytes `b[w]`, `b[w + 1]` are a backslash escape of the byte
/// `c`.
pub open spec fn escapes(b: Seq<u8>, w: int, c: u8) -> bool {
    0 <= w && w + 1 < b.len() && b[w] == 0x5c && is_ascii_punctuation(b[w + 1]) && b[w + 1] == c
}

/// The column at which byte `offset` of the text `lit` was written, where
/// byte `i` of it is at column `c` of the line `b`: a byte written as a
/// backslash escape takes two columns, any other one; past the end of the
/// line each byte takes one.
pub open spec fn walk_text(b: Seq<u8>, lit: Seq<u8>, offset: int, i: int, c: int) -> int
    decreases offset - i,
{
    if i >= offset {
        c
    } else if c > b.len() {
        c + (offset - i)
    } else if i < lit.len() && escapes(b, c - 1, lit[i]) {
        walk_text(b, lit, offset, i + 1, c + 2)
    } else {
        walk_text(b, lit, offset, i + 1, c + 1)
    }
}

/// Whether a text `lit` that comrak places at column `start` of line `b` was
/// written as a backslash escape one column earlier: comrak measures a text
/// from the byte its first character stands for.
pub open spec fn starts_in_escape(b: Seq<u8>, start: int, lit: Seq<u8>) -> bool {
    start >= 2 && lit.len() > 0 && escapes(b, start - 2, lit[0])
}

/// Whether line `line` lies within a table in the tree under `n`.
fn table_line(n: &MdNode, line: usize) -> (r: bool)
    ensures
        r == in_table(*n, line as int),
    decreases n,
{
    if matches!(n.kind, NodeKind::Table) && n.sourcepos.start.line <= line && line
        <= n.sourcepos.end.line {
        return true;
    }
    let mut i: usize = 0;
    while i < n.children.len()
        invariant
            0 <= i <= n.children@.len(),
            !in_table_children(n.children@.take(i as int), line as int),
        decreases n.children@.len() - i,
    {
        proof {
            assert(n.children@.take(i + 1).drop_last() =~= n.children@.take(i as int));
        }
        if table_line(&n.children[i], line) {
            proof {
                assert(in_table_children(n.children@.take(i + 1), line as int));
                lemma_in_table_children_prefix(n.children@, i + 1, line as int);
            }
            return true;
        }
        i += 1;
    }
    proof {
        assert(n.children@.take(i as int) =~= n.children@);
    }
    false
}

/// A table in some of the siblings is a table in all of them.
proof fn lemma_in_table_children_prefix(cs: Seq<MdNode>, k: int, line: int)
    requires
        0 <= k <= cs.len(),
        in_table_children(cs.take(k), line),
    ensures
        in_table_children(cs, line),
    decreases cs.len() - k,
{
    if k < cs.len() {
        assert(cs.take(k + 1).drop_last() =~= cs.take(k));
        lemma_in_table_children_prefix(cs, k + 1, line);
    } else {
        assert(cs.take(k) =~= cs);
    }
}

/// Whether line `line` lies within a paragraph split off a table, in the tree
/// under `n`.
fn preface_line(n: &MdNode, line: usize) -> (r: bool)
    ensures
        r == in_preface(*n, line as int),
    decreases n,
{
    let len = n.children.len();
    let mut k: usize = 0;
    while k < len && k + 1 < len
        invariant
            len == n.children@.len(),
            0 <= k <= len,
            forall|j: int| 0 <= j < k ==> !is_preface(n.children@, j, line as int),
        decreases len - k,
    {
        let p = &n.children[k];
        let t = &n.children[k + 1];
        if matches!(p.kind, NodeKind::Paragraph) && matches!(t.kind, NodeKind::Table)
            && p.sourcepos.end.line < usize::MAX && t.sourcepos.start.line == p.sourcepos.end.line
            + 1 && p.sourcepos.start.line <= line && line <= p.sourcepos.end.line {
            proof {
                assert(is_preface(n.children@, k as int, line as int));
            }
            return true;
        }
        k += 1;
    }
    proof {
        assert forall|j: int| !is_preface(n.children@, j, line as int) by {
            if 0 <= j < k {
            }
        }
    }
    let mut i: usize = 0;
    while i < len
        invariant
            len == n.children@.len(),
            0 <= i <= len,
            !in_preface_children(n.children@.take(i as int), line as int),
        decreases len - i,
    {
        proof {
            assert(n.children@.take(i + 1).drop_last() =~= n.children@.take(i as int));
        }
        if preface_line(&n.children[i], line) {
            proof {
                assert(in_preface_children(n.children@.take(i + 1), line as int));
                lemma_in_preface_children_prefix(n.children@, i + 1, line as int);
            }
            return true;
        }
        i += 1;
    }
    proof {
        assert(n.children@.take(i as int) =~= n.children@);
    }
    false
}

/// A split-off paragraph in some of the siblings is one in all of them.
proof fn lemma_in_preface_children_prefix(cs: Seq<MdNode>, k: int, line: int)
    requires
        0 <= k <= cs.len(),
        in_preface_children(cs.take(k), line),
    ensures
        in_preface_children(cs, line),
    decreases cs.len() - k,
{
    if k < cs.len() {
        assert(cs.take(k + 1).drop_last() =~= cs.take(k));
        lemma_in_preface_children_prefix(cs, k + 1, line);
    } else {
        assert(cs.take(k) =~= cs);
    }
}

/// The written column of the byte that comrak reports at column `col` of the
/// line `b`, with `\|` unescaped before measuring (see `written_from`).
fn written_from_start(b: &[u8], cells: bool, col: usize) -> (r: usize)
    ensures
        r == saturate(written_from(b@, cells, col as int, 0, 0)),
{
    let mut w: usize = 0;
    let mut d: usize = 0;
    while w < b.len()
        invariant
            0 <= d <= w,
            written_from(b@, cells, col as int, 0, 0) == written_from(
                b@,
                cells,
                col as int,
                w as int,
                d as int,
            ),
        decreases b@.len() - w,
    {
        if w + 1 - d == col {
            return w + 1;
        }
        if b[w] == 0x5c && w + 1 < b.len() {
            if b[w + 1] == 0x7c {
                w = w + 2;
                d = d + 1;
            } else if w + 2 - d == col {
                return w + 2;
            } else {
                w = w + 2;
            }
        } else if cells && b[w] == 0x7c {
            w = w + 1;
            d = 0;
        } else {
            w = w + 1;
        }
    }
    if col <= usize::MAX - d {
        col + d
    } else {
        usize::MAX
    }
}

/// The column at which byte `offset` of `lit` was written, starting from
/// column `first` of the line `b` (see `walk_text`).
fn walk_text_from(b: &[u8], lit: &[u8], offset: usize, first: usize) -> (r: usize)
    ensures
        r == saturate(walk_text(b@, lit@, offset as int, 0, first as int)),
{
    let mut i: usize = 0;
    let mut c: u128 = first as u128;
    while i < offset
        invariant
            0 <= i <= offset,
            c <= first + 2 * i,
            walk_text(b@, lit@, offset as int, 0, first as int) == walk_text(
                b@,
                lit@,
                offset as int,
                i as int,
                c as int,
            ),
        decreases offset - i,
    {
        if c > b.len() as u128 {
            c = c + (offset - i) as u128;
            i = offset;
        } else {
            let at: usize = c as usize;
            if i < lit.len() && at >= 1 && at < b.len() && b[at - 1] == 0x5c && ascii_punctuation(
                b[at],
            ) && b[at] == lit[i] {
                c = c + 2;
            } else {
                c = c + 1;
            }
            i = i + 1;
        }
    }
    if c <= usize::MAX as u128 {
        c as usize
    } else {
        usize::MAX
    }
}

/// The scan of `written_from` never lands left of the reported column.
proof fn lemma_written_from_not_left(b: Seq<u8>, cells: bool, col: int, w: int, d: int)
    requires
        0 <= d,
        0 <= w,
    ensures
        written_from(b, cells, col, w, d) >= col,
    decreases b.len() - w,
{
    if w < b.len() && w + 1 - d != col {
        if b[w] == 0x5c && w + 1 < b.len() {
            if b[w + 1] == 0x7c {
                lemma_written_from_not_left(b, cells, col, w + 2, d + 1);
            } else if w + 2 - d != col {
                lemma_written_from_not_left(b, cells, col, w + 2, d);
            }
        } else if cells && b[w] == 0x7c {
            lemma_written_from_not_left(b, cells, col, w + 1, 0);
        } else {
            lemma_written_from_not_left(b, cells, col, w + 1, d);
        }
    }
}

/// Whether the line `b` has a `\|` from byte `w` on, counting a backslash
/// that a backslash escapes as escaped.
pub open spec fn has_escaped_pipe(b: Seq<u8>, w: int) -> bool
    decreases b.len() - w,
{
    if w < 0 || w + 1 >= b.len() {
        false
    } else if b[w] == 0x5c {
        b[w + 1] == 0x7c || has_escaped_pipe(b, w + 2)
    } else {
        has_escaped_pipe(b, w + 1)
    }
}

/// Without a `\|` from byte `w` on, the scan counts nothing more and lands on
/// the reported column.
proof fn lemma_written_from_without_pipes(b: Seq<u8>, cells: bool, col: int, w: int)
    requires
        0 <= w,
        w < col,
        !has_escaped_pipe(b, w),
    ensures
        written_from(b, cells, col, w, 0) == col,
    decreases b.len() - w,
{
    if w < b.len() && w + 1 != col {
        if b[w] == 0x5c && w + 1 < b.len() {
            if w + 2 != col {
                lemma_written_from_without_pipes(b, cells, col, w + 2);
            }
        } else {
            lemma_written_from_without_pipes(b, cells, col, w + 1);
        }
    }
}

/// The walk of `walk_text` never goes back.
proof fn lemma_walk_text_not_back(b: Seq<u8>, lit: Seq<u8>, offset: int, i: int, c: int)
    ensures
        walk_text(b, lit, offset, i, c) >= c,
    decreases offset - i,
{
    if i < offset && c <= b.len() {
        if i < lit.len() && escapes(b, c - 1, lit[i]) {
            lemma_walk_text_not_back(b, lit, offset, i + 1, c + 2);
        } else {
            lemma_walk_text_not_back(b, lit, offset, i + 1, c + 1);
        }
    }
}

/// A later byte of a text is written no further left than an earlier one.
proof fn lemma_walk_text_monotone(b: Seq<u8>, lit: Seq<u8>, o1: int, o2: int, i: int, c: int)
    requires
        o1 <= o2,
    ensures
        walk_text(b, lit, o1, i, c) <= walk_text(b, lit, o2, i, c),
    decreases o2 - i,
{
    if i >= o1 {
        lemma_walk_text_not_back(b, lit, o2, i, c);
    } else if c <= b.len() {
        if i < lit.len() && escapes(b, c - 1, lit[i]) {
            lemma_walk_text_monotone(b, lit, o1, o2, i + 1, c + 2);
        } else {
            lemma_walk_text_monotone(b, lit, o1, o2, i + 1, c + 1);
        }
    }
}

/// On a line without backslashes every byte of a text takes one column.
proof fn lemma_walk_text_plain(b: Seq<u8>, lit: Seq<u8>, offset: int, i: int, c: int)
    requires
        i <= offset,
        forall|j: int| 0 <= j < b.len() ==> b[j] != 0x5c,
    ensures
        walk_text(b, lit, offset, i, c) == c + (offset - i),
    decreases offset - i,
{
    if i < offset && c <= b.len() {
        lemma_walk_text_plain(b, lit, offset, i + 1, c + 1);
    }
}

/// A Markdown document: where it was read from, its lines, and the tree
/// comrak parses it into.
#[derive(Debug)]
pub struct Document {
    pub path: String,
    pub lines: Vec<String>,
    pub root: MdNode,
}

impl Document {
    /// A document holds fewer nodes than a `usize` can count.
    pub open spec fn wf(&self) -> bool {
        size(self.root) < usize::MAX
    }

    /// The characters of line `line` (counted from 1), or `None` past the
    /// last line.
    pub open spec fn line(&self, line: int) -> Option<Seq<char>> {
        if 1 <= line <= self.lines@.len() {
            Some(self.lines@[line - 1]@)
        } else {
            None
        }
    }

    /// The bytes of line `line` (counted from 1); none past the last line.
    pub open spec fn line_bytes(&self, line: int) -> Seq<u8> {
        match self.line(line) {
            Some(l) => bytes_of(l),
            None => Seq::empty(),
        }
    }

    /// The column at which a byte that comrak reports at column `column` of
    /// line `line` was written: in a table and in a paragraph comrak split off
    /// one, comrak counts columns with the backslash of each `\|` dropped.
    pub open spec fn spec_written_column(&self, line: int, column: int) -> int {
        let b = self.line_bytes(line);
        if in_table(self.root, line) {
            saturate(written_from(b, true, column, 0, 0))
        } else if in_preface(self.root, line) {
            saturate(written_from(b, false, column, 0, 0))
        } else {
            column
        }
    }

    /// The position that comrak reports as `p`, as it was written.
    pub open spec fn spec_written_position(&self, p: Sourcepos) -> Sourcepos {
        Sourcepos {
            start: LineColumn {
                line: p.start.line,
                column: self.spec_written_column(p.start.line as int, p.start.column as int) as usize,
            },
            end: LineColumn {
                line: p.end.line,
                column: self.spec_written_column(p.end.line as int, p.end.column as int) as usize,
            },
        }
    }

    /// The column at which byte `offset` of the text `lit` was written, where
    /// comrak places the text at `p`.
    pub open spec fn spec_written_column_of(&self, p: Sourcepos, lit: Seq<u8>, offset: int) -> int {
        let b = self.line_bytes(p.start.line as int);
        let start = self.spec_written_column(p.start.line as int, p.start.column as int);
        let first = if starts_in_escape(b, start, lit) {
            start - 1
        } else {
            start
        };
        saturate(walk_text(b, lit, offset, 0, first))
    }

    /// The bytes of line `line` (counted from 1); none past the last line.
    pub fn line_bytes_of(&self, line: usize) -> (b: &[u8])
        ensures
            b@ == self.line_bytes(line as int),
    {
        if 1 <= line && line <= self.lines.len() {
            bytes(self.lines[line - 1].as_str())
        } else {
            &[]
        }
    }

    /// The column at which a byte that comrak reports at column `column` of
    /// line `line` was written.
    pub fn written_column(&self, line: usize, column: usize) -> (r: usize)
        ensures
            r == self.spec_written_column(line as int, column as int),
    {
        let b = self.line_bytes_of(line);
        if table_line(&self.root, line) {
            written_from_start(b, true, column)
        } else if preface_line(&self.root, line) {
            written_from_start(b, false, column)
        } else {
            column
        }
    }

    /// The position that comrak reports as `p`, as it was written: comrak
    /// measures a table's inlines, and those of a paragraph it split off one,
    /// after it has dropped the backslash of each `\|`, so those columns fall
    /// short of the written ones by a byte for each such escape before them.
    pub fn written_position(&self, p: Sourcepos) -> (r: Sourcepos)
        ensures
            r == self.spec_written_position(p),
    {
        Sourcepos {
            start: LineColumn {
                line: p.start.line,
                column: self.written_column(p.start.line, p.start.column),
            },
            end: LineColumn {
                line: p.end.line,
                column: self.written_column(p.end.line, p.end.column),
            },
        }
    }

    /// The column at which byte `offset` of `literal` was written, where comrak
    /// places the text `literal` at `p`. CommonMark has resolved the
    /// backslash escapes out of the text, so each byte written as one takes
    /// two columns; an offset at or past the end of the text names the column
    /// after its last byte.
    pub fn written_column_of(&self, p: Sourcepos, literal: &str, offset: usize) -> (r: usize)
        ensures
            r == self.spec_written_column_of(p, bytes_of(literal@), offset as int),
    {
        let b = self.line_bytes_of(p.start.line);
        let lit = bytes(literal);
        let start = self.written_column(p.start.line, p.start.column);
        let first = if start >= 2 && lit.len() > 0 && start - 1 < b.len() && b[start - 2] == 0x5c
            && ascii_punctuation(b[start - 1]) && b[start - 1] == lit[0] {
            start - 1
        } else {
            start
        };
        walk_text_from(b, lit, offset, first)
    }

    /// Putting back the columns an escaped pipe cost never moves a column to
    /// the left.
    pub proof fn lemma_written_column_not_left(&self, line: int, column: int)
        requires
            0 <= column <= usize::MAX,
        ensures
            self.spec_written_column(line, column) >= column,
    {
        let b = self.line_bytes(line);
        lemma_written_from_not_left(b, true, column, 0, 0);
        lemma_written_from_not_left(b, false, column, 0, 0);
    }

    /// A line without a `\|` is measured as comrak reports it, whether or not
    /// it is in a table.
    pub proof fn lemma_written_column_without_pipes(&self, line: int, column: int)
        requires
            1 <= column <= usize::MAX,
            !has_escaped_pipe(self.line_bytes(line), 0),
        ensures
            self.spec_written_column(line, column) == column,
    {
        let b = self.line_bytes(line);
        lemma_written_from_without_pipes(b, true, column, 0);
        lemma_written_from_without_pipes(b, false, column, 0);
    }

    /// Of two bytes of a text, the later one is written no further left: in
    /// particular a link is reported from a column no later than the one it is
    /// reported to.
    pub proof fn lemma_written_column_of_monotone(
        &self,
        p: Sourcepos,
        lit: Seq<u8>,
        o1: int,
        o2: int,
    )
        requires
            o1 <= o2,
        ensures
            self.spec_written_column_of(p, lit, o1) <= self.spec_written_column_of(p, lit, o2),
    {
        let b = self.line_bytes(p.start.line as int);
        let start = self.spec_written_column(p.start.line as int, p.start.column as int);
        let first = if starts_in_escape(b, start, lit) {
            start - 1
        } else {
            start
        };
        lemma_walk_text_monotone(b, lit, o1, o2, 0, first);
    }

    /// Where a text's bytes are written is never left of the first column.
    pub proof fn lemma_written_column_of_in_range(&self, p: Sourcepos, lit: Seq<u8>, k: int)
        ensures
            0 <= self.spec_written_column_of(p, lit, k) <= usize::MAX,
    {
        let b = self.line_bytes(p.start.line as int);
        let start = self.spec_written_column(p.start.line as int, p.start.column as int);
        self.lemma_written_column_not_left(p.start.line as int, p.start.column as int);
        let first = if starts_in_escape(b, start, lit) {
            start - 1
        } else {
            start
        };
        lemma_walk_text_not_back(b, lit, k, 0, first);
    }

    /// On a line without backslashes, byte `k` of a text is `k` columns after
    /// the text's own column.
    pub proof fn lemma_written_column_of_plain(&self, p: Sourcepos, lit: Seq<u8>, k: int)
        requires
            0 <= k,
            forall|j: int|
                0 <= j < self.line_bytes(p.start.line as int).len() ==> self.line_bytes(
                    p.start.line as int,
                )[j] != 0x5c,
        ensures
            self.spec_written_column_of(p, lit, k) == saturate(
                self.spec_written_column(p.start.line as int, p.start.column as int) + k,
            ),
    {
        let b = self.line_bytes(p.start.line as int);
        let start = self.spec_written_column(p.start.line as int, p.start.column as int);
        lemma_walk_text_plain(b, lit, k, 0, start);
    }

    /// Reads `text` as the document at `path`: its lines, and the tree comrak
    /// parses it into.
    pub fn new(path: String, text: String) -> (doc: Document)
        ensures
            doc.path == path,
            doc.lines@.map_values(|l: String| l@) == text_lines(text@),
            events_of(doc.root) == markdown_events(text@),
            doc.wf(),
    {
        let lines = split_lines(text.as_str());
        let root = parse_tree(text.as_str());
        proof {
            lemma_events_len(root);
        }
        Document { path, lines, root }
    }
}

} // verus!
