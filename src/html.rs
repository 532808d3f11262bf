use vstd::prelude::*;

use crate::ast::{children_of, ContentView, NodeView, TreeView};
use crate::text::pieces;

verus! {

/// One line of the rendered document, before indentation and tags are spelled out.
pub enum Line {
    Open { depth: nat, tag: Seq<char> },
    Close { depth: nat, tag: Seq<char> },
    Text { depth: nat, tag: Seq<char>, text: Seq<char> },
}

/// The lines of node `i` rendered at `depth`: a text leaf on one line; a
/// container as its opening tag, its children one level deeper, and its closing tag.
pub open spec fn node_lines(nodes: Seq<NodeView>, i: int, depth: nat) -> Seq<Line>
    decreases nodes.len() - i, 1nat, 0nat,
{
    if 0 <= i < nodes.len() {
        match nodes[i].value {
            ContentView::Inline(text) => seq![Line::Text { depth, tag: nodes[i].tag, text }],
            ContentView::Children(kids) => seq![Line::Open { depth, tag: nodes[i].tag }]
                + kids_lines(nodes, i, kids, depth + 1) + seq![
                Line::Close { depth, tag: nodes[i].tag },
            ],
        }
    } else {
        Seq::empty()
    }
}

/// The lines of the children `kids` of node `parent`, one after the other.
pub open spec fn kids_lines(nodes: Seq<NodeView>, parent: int, kids: Seq<usize>, depth: nat) -> Seq<
    Line,
>
    decreases nodes.len() - parent, 0nat, kids.len(),
{
    if kids.len() == 0 {
        Seq::empty()
    } else {
        kids_lines(nodes, parent, kids.drop_last(), depth) + if parent < kids.last()
            < nodes.len() {
            node_lines(nodes, kids.last() as int, depth)
        } else {
            Seq::empty()
        }
    }
}

/// The lines of a whole document, from its root.
pub open spec fn tree_lines(t: TreeView) -> Seq<Line> {
    node_lines(t.nodes, 0, 0)
}

/// Four spaces for each level of depth.
pub open spec fn indent(depth: nat) -> Seq<char>
    decreases depth,
{
    if depth == 0 {
        Seq::empty()
    } else {
        indent((depth - 1) as nat) + "    "@
    }
}

/// A line as text. A leaf with an empty tag is its bare text.
pub open spec fn line_text(l: Line) -> Seq<char> {
    match l {
        Line::Open { depth, tag } => indent(depth) + "<"@ + tag + ">"@,
        Line::Close { depth, tag } => indent(depth) + "</"@ + tag + ">"@,
        Line::Text { depth, tag, text } => if tag.len() == 0 {
            indent(depth) + text
        } else {
            indent(depth) + "<"@ + tag + ">"@ + text + "</"@ + tag + ">"@
        },
    }
}

/// The lines as text, each with a line break before it.
pub open spec fn broken(ls: Seq<Line>) -> Seq<char>
    decreases ls.len(),
{
    if ls.len() == 0 {
        Seq::empty()
    } else {
        broken(ls.drop_last()) + "\n"@ + line_text(ls.last())
    }
}

/// The lines as text, with a line break between two lines and none around them.
pub open spec fn join_lines(ls: Seq<Line>) -> Seq<char> {
    if ls.len() == 0 {
        Seq::empty()
    } else {
        line_text(ls[0]) + broken(ls.drop_first())
    }
}

/// The HTML text of a document.
pub open spec fn html_of(t: TreeView) -> Seq<char> {
    join_lines(tree_lines(t))
}

/// Rendering two runs of lines one after the other gives the two texts one after the other.
pub proof fn lemma_broken_concat(a: Seq<Line>, b: Seq<Line>)
    ensures
        broken(a + b) == broken(a) + broken(b),
    decreases b.len(),
{
    if b.len() == 0 {
        assert(a + b =~= a);
        assert(broken(b) =~= Seq::<char>::empty());
        assert(broken(a) + broken(b) =~= broken(a));
    } else {
        assert((a + b).drop_last() =~= a + b.drop_last());
        lemma_broken_concat(a, b.drop_last());
        assert(broken(a + b) =~= broken(a) + broken(b));
    }
}

/// A single line is rendered as a line break and its text.
pub proof fn lemma_broken_one(l: Line)
    ensures
        broken(seq![l]) == "\n"@ + line_text(l),
{
    assert(seq![l].drop_last() =~= Seq::<Line>::empty());
    assert(broken(Seq::<Line>::empty()) == Seq::<char>::empty());
    assert(Seq::<char>::empty() + "\n"@ =~= "\n"@);
}

/// Reads one line with the tags of the containers `open` around it: an opening
/// tag must stand at their depth and opens one more; a closing tag must close the
/// innermost one, at its depth; a text line must stand at their depth.
pub open spec fn check_step(open: Seq<Seq<char>>, l: Line) -> Option<Seq<Seq<char>>> {
    match l {
        Line::Open { depth, tag } => if depth == open.len() {
            Some(open.push(tag))
        } else {
            None
        },
        Line::Close { depth, tag } => if open.len() > 0 && depth == open.len() - 1 && open.last()
            == tag {
            Some(open.drop_last())
        } else {
            None
        },
        Line::Text { depth, .. } => if depth == open.len() {
            Some(open)
        } else {
            None
        },
    }
}

/// Reads the lines in order from the containers `open`: the containers open
/// after the last line, or `None` at the first line that does not fit.
pub open spec fn check_lines(open: Seq<Seq<char>>, ls: Seq<Line>) -> Option<Seq<Seq<char>>>
    decreases ls.len(),
{
    if ls.len() == 0 {
        Some(open)
    } else {
        match check_step(open, ls[0]) {
            Some(next) => check_lines(next, ls.drop_first()),
            None => None,
        }
    }
}

/// Every line fits the containers open around it, and none is left open at the end.
pub open spec fn well_nested(ls: Seq<Line>) -> bool {
    check_lines(Seq::empty(), ls) == Some(Seq::<Seq<char>>::empty())
}

/// Reading two runs of lines is reading the first, then the second from where the first left off.
pub proof fn lemma_check_concat(open: Seq<Seq<char>>, a: Seq<Line>, b: Seq<Line>)
    ensures
        check_lines(open, a + b) == match check_lines(open, a) {
            Some(next) => check_lines(next, b),
            None => None,
        },
    decreases a.len(),
{
    if a.len() == 0 {
        assert(a + b =~= b);
    } else {
        assert((a + b)[0] == a[0]);
        assert((a + b).drop_first() =~= a.drop_first() + b);
        if let Some(next) = check_step(open, a[0]) {
            lemma_check_concat(next, a.drop_first(), b);
        }
    }
}

proof fn lemma_check_one(open: Seq<Seq<char>>, l: Line)
    ensures
        check_lines(open, seq![l]) == check_step(open, l),
{
    assert(seq![l].drop_first() =~= Seq::<Line>::empty());
    if let Some(next) = check_step(open, l) {
        assert(check_lines(next, Seq::<Line>::empty()) == Some(next));
    }
}

proof fn lemma_node_nested(t: TreeView, i: int, open: Seq<Seq<char>>)
    requires
        t.wf(),
        0 <= i < t.nodes.len(),
    ensures
        check_lines(open, node_lines(t.nodes, i, open.len())) == Some(open),
    decreases t.nodes.len() - i, 1nat,
{
    let nodes = t.nodes;
    let d = open.len();
    match nodes[i].value {
        ContentView::Inline(text) => {
            lemma_check_one(open, Line::Text { depth: d, tag: nodes[i].tag, text });
        },
        ContentView::Children(kids) => {
            let tag = nodes[i].tag;
            let inner = open.push(tag);
            let o = Line::Open { depth: d, tag };
            let c = Line::Close { depth: d, tag };
            let mid = kids_lines(nodes, i, kids, d + 1);
            assert(children_of(nodes, i) == kids);
            lemma_kids_nested(t, i, kids, inner);
            lemma_check_one(open, o);
            lemma_check_one(inner, c);
            lemma_check_concat(open, seq![o], mid);
            lemma_check_concat(open, seq![o] + mid, seq![c]);
            assert(inner.drop_last() =~= open);
        },
    }
}

proof fn lemma_kids_nested(t: TreeView, i: int, kids: Seq<usize>, open: Seq<Seq<char>>)
    requires
        t.wf(),
        0 <= i < t.nodes.len(),
        forall|k: int| 0 <= k < kids.len() ==> i < #[trigger] kids[k] < t.nodes.len(),
    ensures
        check_lines(open, kids_lines(t.nodes, i, kids, open.len())) == Some(open),
    decreases t.nodes.len() - i, 0nat, kids.len(),
{
    if kids.len() > 0 {
        let last = kids.last();
        assert(i < kids[kids.len() - 1] < t.nodes.len());
        lemma_kids_nested(t, i, kids.drop_last(), open);
        lemma_node_nested(t, last as int, open);
        lemma_check_concat(
            open,
            kids_lines(t.nodes, i, kids.drop_last(), open.len()),
            node_lines(t.nodes, last as int, open.len()),
        );
    }
}

/// The rendering of any document nests properly: each line stands at the
/// depth of the containers open around it, each closing tag closes the most
/// recently opened container at that container's depth, and the last line
/// closes the root.
pub proof fn lemma_rendering_well_nested(t: TreeView)
    requires
        t.wf(),
    ensures
        well_nested(tree_lines(t)),
{
    lemma_node_nested(t, 0, Seq::empty());
}

/// `s` holds no line break.
pub open spec fn no_break(s: Seq<char>) -> bool {
    forall|k: int| 0 <= k < s.len() ==> s[k] != '\n'
}

/// No tag and no text of the document holds a line break.
pub open spec fn no_breaks_in(nodes: Seq<NodeView>) -> bool {
    forall|i: int|
        0 <= i < nodes.len() ==> {
            &&& no_break(#[trigger] nodes[i].tag)
            &&& (nodes[i].value matches ContentView::Inline(text) ==> no_break(text))
        }
}

/// The tag and text that a line shows hold no line break.
pub open spec fn plain_line(l: Line) -> bool {
    match l {
        Line::Open { tag, .. } => no_break(tag),
        Line::Close { tag, .. } => no_break(tag),
        Line::Text { tag, text, .. } => no_break(tag) && no_break(text),
    }
}

proof fn lemma_indent_no_break(depth: nat)
    ensures
        no_break(indent(depth)),
    decreases depth,
{
    reveal_strlit("    ");
    if depth > 0 {
        lemma_indent_no_break((depth - 1) as nat);
    }
}

proof fn lemma_line_text_no_break(l: Line)
    requires
        plain_line(l),
    ensures
        no_break(line_text(l)),
{
    reveal_strlit("<");
    reveal_strlit(">");
    reveal_strlit("</");
    match l {
        Line::Open { depth, .. } => lemma_indent_no_break(depth),
        Line::Close { depth, .. } => lemma_indent_no_break(depth),
        Line::Text { depth, .. } => lemma_indent_no_break(depth),
    }
}

proof fn lemma_node_lines_plain(nodes: Seq<NodeView>, i: int, depth: nat)
    requires
        no_breaks_in(nodes),
    ensures
        forall|k: int|
            0 <= k < node_lines(nodes, i, depth).len() ==> plain_line(
                #[trigger] node_lines(nodes, i, depth)[k],
            ),
    decreases nodes.len() - i, 1nat, 0nat,
{
    if 0 <= i < nodes.len() {
        assert(no_break(nodes[i].tag));
        if let ContentView::Children(kids) = nodes[i].value {
            let tag = nodes[i].tag;
            let mid = kids_lines(nodes, i, kids, depth + 1);
            lemma_kids_lines_plain(nodes, i, kids, depth + 1);
            let all = seq![Line::Open { depth, tag }] + mid + seq![Line::Close { depth, tag }];
            assert(node_lines(nodes, i, depth) == all);
            assert forall|k: int| 0 <= k < all.len() implies plain_line(#[trigger] all[k]) by {
                if 1 <= k < 1 + mid.len() {
                    assert(all[k] == mid[k - 1]);
                }
            }
        }
    }
}

proof fn lemma_kids_lines_plain(nodes: Seq<NodeView>, parent: int, kids: Seq<usize>, depth: nat)
    requires
        no_breaks_in(nodes),
    ensures
        forall|k: int|
            0 <= k < kids_lines(nodes, parent, kids, depth).len() ==> plain_line(
                #[trigger] kids_lines(nodes, parent, kids, depth)[k],
            ),
    decreases nodes.len() - parent, 0nat, kids.len(),
{
    if kids.len() > 0 {
        let a = kids_lines(nodes, parent, kids.drop_last(), depth);
        lemma_kids_lines_plain(nodes, parent, kids.drop_last(), depth);
        if parent < kids.last() < nodes.len() {
            let b = node_lines(nodes, kids.last() as int, depth);
            lemma_node_lines_plain(nodes, kids.last() as int, depth);
            assert forall|k: int| 0 <= k < (a + b).len() implies plain_line(#[trigger] (a + b)[k]) by {
                if k < a.len() {
                    assert((a + b)[k] == a[k]);
                } else {
                    assert((a + b)[k] == b[k - a.len()]);
                }
            }
        } else {
            assert(a + Seq::<Line>::empty() =~= a);
        }
    }
}

proof fn lemma_pieces_plain(b: Seq<char>)
    requires
        no_break(b),
    ensures
        pieces(b, '\n') == seq![b],
    decreases b.len(),
{
    if b.len() > 0 {
        lemma_pieces_plain(b.drop_last());
        assert(b.drop_last().push(b.last()) =~= b);
        assert(seq![b.drop_last()].update(0, b.drop_last().push(b.last())) =~= seq![b]);
    } else {
        assert(b =~= Seq::<char>::empty());
    }
}

proof fn lemma_pieces_after_break(a: Seq<char>, b: Seq<char>)
    requires
        no_break(b),
    ensures
        pieces(a + "\n"@ + b, '\n') == pieces(a, '\n').push(b),
    decreases b.len(),
{
    reveal_strlit("\n");
    if b.len() == 0 {
        assert(a + "\n"@ + b =~= a.push('\n'));
        assert((a.push('\n')).drop_last() =~= a);
        assert(b =~= Seq::<char>::empty());
    } else {
        lemma_pieces_after_break(a, b.drop_last());
        assert((a + "\n"@ + b).drop_last() =~= a + "\n"@ + b.drop_last());
        assert(b.drop_last().push(b.last()) =~= b);
        assert(pieces(a, '\n').push(b.drop_last()).update(
            pieces(a, '\n').len() as int,
            b.drop_last().push(b.last()),
        ) =~= pieces(a, '\n').push(b));
    }
}

proof fn lemma_join_pieces(ls: Seq<Line>)
    requires
        ls.len() >= 1,
        forall|k: int| 0 <= k < ls.len() ==> plain_line(#[trigger] ls[k]),
    ensures
        pieces(join_lines(ls), '\n') == ls.map_values(|l: Line| line_text(l)),
    decreases ls.len(),
{
    lemma_line_text_no_break(ls.last());
    if ls.len() == 1 {
        assert(ls.drop_first() =~= Seq::<Line>::empty());
        assert(join_lines(ls) =~= line_text(ls[0]));
        lemma_pieces_plain(line_text(ls[0]));
        assert(ls.map_values(|l: Line| line_text(l)) =~= seq![line_text(ls[0])]);
    } else {
        let prev = ls.drop_last();
        lemma_join_pieces(prev);
        assert(ls.drop_first().drop_last() =~= prev.drop_first());
        assert(ls.drop_first().last() == ls.last());
        assert(join_lines(ls) =~= join_lines(prev) + "\n"@ + line_text(ls.last()));
        lemma_pieces_after_break(join_lines(prev), line_text(ls.last()));
        assert(ls.map_values(|l: Line| line_text(l)) =~= prev.map_values(|l: Line| line_text(l)).push(
            line_text(ls.last()),
        ));
    }
}

/// When no tag or text holds a line break, the lines of the HTML text (its
/// pieces between line breaks) are exactly the rendered lines, one for one; by
/// `lemma_rendering_well_nested` these nest properly, so the text's own lines,
/// read by their indentation and tags, open and close the containers of the
/// document in order.
pub proof fn lemma_text_lines_are_rendered_lines(t: TreeView)
    requires
        t.wf(),
        no_breaks_in(t.nodes),
    ensures
        pieces(html_of(t), '\n') == tree_lines(t).map_values(|l: Line| line_text(l)),
        well_nested(tree_lines(t)),
{
    lemma_node_lines_plain(t.nodes, 0, 0);
    lemma_rendering_well_nested(t);
    assert(tree_lines(t).len() >= 1);
    lemma_join_pieces(tree_lines(t));
}

} // verus!
