use vstd::prelude::*;

use crate::html::{
    broken, html_of, indent, kids_lines, lemma_broken_concat, lemma_broken_one, line_text,
    node_lines, tree_lines, Line,
};
use crate::lexer::{token_views, Token, TokenType};
use crate::text::{chars_of, piece_bounds, pieces, same_text, string_of, take_string};

verus! {

/// What a node of the document holds, as values: the indices of its children,
/// or its text.
pub enum ContentView {
    Children(Seq<usize>),
    Inline(Seq<char>),
}

/// A node of the document as values.
pub struct NodeView {
    pub parent: Option<usize>,
    pub tag: Seq<char>,
    pub value: ContentView,
}

/// The document as values: every node ever added, by index (the root at 0),
/// and the index of the container that receives new children.
pub struct TreeView {
    pub nodes: Seq<NodeView>,
    pub curr: usize,
}

/// The children of node `i` (none for a text leaf).
pub open spec fn children_of(nodes: Seq<NodeView>, i: int) -> Seq<usize> {
    match nodes[i].value {
        ContentView::Children(kids) => kids,
        ContentView::Inline(_) => Seq::empty(),
    }
}

impl NodeView {
    /// A node that can be attached to a tree: a text leaf, or a container with no children yet.
    pub open spec fn is_detached(self) -> bool {
        match self.value {
            ContentView::Children(kids) => kids.len() == 0,
            ContentView::Inline(_) => true,
        }
    }
}

impl TreeView {
    /// The document that a build starts from: the root `html` container alone.
    pub open spec fn initial() -> TreeView {
        TreeView {
            nodes: seq![
                NodeView {
                    parent: None,
                    tag: "html"@,
                    value: ContentView::Children(Seq::empty()),
                },
            ],
            curr: 0,
        }
    }

    /// The container that receives new children.
    pub open spec fn cursor(self) -> NodeView {
        self.nodes[self.curr as int]
    }

    /// The children of the cursor, in document order.
    pub open spec fn kids(self) -> Seq<usize> {
        children_of(self.nodes, self.curr as int)
    }

    pub open spec fn curr_tag(self) -> Seq<char> {
        self.cursor().tag
    }

    /// The index of the most recently added child of the cursor.
    pub open spec fn last_child(self) -> int {
        self.kids().last() as int
    }

    /// The nodes are a tree below the root, and the cursor is a container:
    /// a container lists its children in increasing order, each after itself;
    /// each listed child has that container as its parent; and a node with a
    /// parent is listed by it. A node without a parent other than the root is
    /// detached and is not part of the document.
    pub open spec fn wf(self) -> bool {
        &&& 1 <= self.nodes.len() <= usize::MAX
        &&& self.nodes[0].parent is None
        &&& self.nodes[0].value is Children
        &&& self.curr < self.nodes.len()
        &&& self.cursor().value is Children
        &&& forall|i: int, j: int|
            0 <= i < self.nodes.len() && 0 <= j < children_of(self.nodes, i).len() ==> {
                &&& i < #[trigger] children_of(self.nodes, i)[j] < self.nodes.len()
                &&& self.nodes[children_of(self.nodes, i)[j] as int].parent == Some(i as usize)
            }
        &&& forall|i: int, j1: int, j2: int|
            0 <= i < self.nodes.len() && 0 <= j1 < j2 < children_of(self.nodes, i).len()
                ==> #[trigger] children_of(self.nodes, i)[j1] < #[trigger] children_of(
                self.nodes,
                i,
            )[j2]
        &&& forall|i: int|
            0 <= i < self.nodes.len() ==> (#[trigger] self.nodes[i].parent matches Some(p) ==> {
                &&& p < self.nodes.len()
                &&& self.nodes[p as int].value is Children
                &&& children_of(self.nodes, p as int).contains(i as usize)
            })
    }

    /// `node` added as the last child of the cursor; the cursor stays.
    pub open spec fn attach(self, node: NodeView) -> TreeView {
        let k = self.nodes.len() as usize;
        TreeView {
            nodes: self.nodes.update(
                self.curr as int,
                NodeView { value: ContentView::Children(self.kids().push(k)), ..self.cursor() },
            ).push(NodeView { parent: Some(self.curr), ..node }),
            curr: self.curr,
        }
    }

    /// A new empty container with `tag` added as the last child of the cursor,
    /// which moves to it.
    pub open spec fn append_container(self, tag: Seq<char>) -> TreeView {
        TreeView {
            curr: self.nodes.len() as usize,
            ..self.attach(NodeView { parent: None, tag, value: ContentView::Children(Seq::empty()) })
        }
    }

    /// A new text leaf added as the last child of the cursor, which stays.
    pub open spec fn append_text(self, tag: Seq<char>, text: Seq<char>) -> TreeView {
        self.attach(NodeView { parent: None, tag, value: ContentView::Inline(text) })
    }

    /// The most recently added child of the cursor renamed to `tag`, if there is one.
    pub open spec fn retag_last_child(self, tag: Seq<char>) -> TreeView {
        if self.kids().len() > 0 {
            TreeView {
                nodes: self.nodes.update(
                    self.last_child(),
                    NodeView { tag, ..self.nodes[self.last_child()] },
                ),
                ..self
            }
        } else {
            self
        }
    }

    /// The text of the most recently added child of the cursor, if it is a text leaf.
    pub open spec fn last_child_text(self) -> Option<Seq<char>> {
        if self.kids().len() > 0 {
            match self.nodes[self.last_child()].value {
                ContentView::Inline(text) => Some(text),
                ContentView::Children(_) => None,
            }
        } else {
            None
        }
    }

    /// The most recently added child of the cursor removed, if it is a text
    /// leaf; the removed leaf stays in the arena, detached from any parent.
    pub open spec fn take_last_child_text(self) -> TreeView {
        if self.last_child_text() is Some {
            TreeView {
                nodes: self.nodes.update(
                    self.curr as int,
                    NodeView {
                        value: ContentView::Children(self.kids().drop_last()),
                        ..self.cursor()
                    },
                ).update(
                    self.last_child(),
                    NodeView { parent: None, ..self.nodes[self.last_child()] },
                ),
                ..self
            }
        } else {
            self
        }
    }

    /// The cursor renamed to `tag`.
    pub open spec fn retag_cursor(self, tag: Seq<char>) -> TreeView {
        TreeView {
            nodes: self.nodes.update(self.curr as int, NodeView { tag, ..self.cursor() }),
            ..self
        }
    }

    /// The most recently added child of the cursor is a paragraph.
    pub open spec fn last_child_is_paragraph(self) -> bool {
        self.last_child_text() is Some && self.nodes[self.last_child()].tag == "p"@
    }

    /// The cursor moved to its parent; at the root, no change.
    pub open spec fn ascend(self) -> TreeView {
        match self.cursor().parent {
            Some(p) => TreeView { curr: p, ..self },
            None => self,
        }
    }
}

/// Attaching a detached node keeps the tree well formed.
pub proof fn lemma_attach_wf(t: TreeView, node: NodeView)
    requires
        t.wf(),
        t.nodes.len() < usize::MAX,
        node.is_detached(),
    ensures
        t.attach(node).wf(),
{
    let u = t.attach(node);
    let k = t.nodes.len() as int;
    let c = t.curr as int;
    assert(children_of(u.nodes, c) == t.kids().push(k as usize));
    assert(children_of(u.nodes, k) == Seq::<usize>::empty());
    assert forall|i: int| 0 <= i < k && i != c implies children_of(u.nodes, i) == children_of(
        t.nodes,
        i,
    ) by {}
    assert forall|i: int, j: int|
        0 <= i < u.nodes.len() && 0 <= j < children_of(u.nodes, i).len() implies {
        &&& i < #[trigger] children_of(u.nodes, i)[j] < u.nodes.len()
        &&& u.nodes[children_of(u.nodes, i)[j] as int].parent == Some(i as usize)
    } by {
        if i == c && j == t.kids().len() {
        } else {
            assert(children_of(u.nodes, i)[j] == children_of(t.nodes, i)[j]);
            assert(i < children_of(t.nodes, i)[j] < t.nodes.len());
        }
    }
    assert forall|i: int, j1: int, j2: int|
        0 <= i < u.nodes.len() && 0 <= j1 < j2 < children_of(u.nodes, i).len() implies #[trigger] children_of(
        u.nodes,
        i,
    )[j1] < #[trigger] children_of(u.nodes, i)[j2] by {
        assert(children_of(u.nodes, i)[j1] == children_of(t.nodes, i)[j1]);
        assert(i < children_of(t.nodes, i)[j1] < t.nodes.len());
        if !(i == c && j2 == t.kids().len()) {
            assert(children_of(u.nodes, i)[j2] == children_of(t.nodes, i)[j2]);
        }
    }
    assert forall|i: int| 0 <= i < u.nodes.len() implies (#[trigger] u.nodes[i].parent matches Some(
        p,
    ) ==> {
        &&& p < u.nodes.len()
        &&& u.nodes[p as int].value is Children
        &&& children_of(u.nodes, p as int).contains(i as usize)
    }) by {
        if i == k {
            assert(children_of(u.nodes, c)[t.kids().len() as int] == k);
        } else if let Some(p) = t.nodes[i].parent {
            assert(t.nodes[i].parent matches Some(p) ==> children_of(t.nodes, p as int).contains(
                i as usize,
            ));
            let j = choose|j: int|
                0 <= j < children_of(t.nodes, p as int).len() && children_of(t.nodes, p as int)[j]
                    == i as usize;
            assert(children_of(u.nodes, p as int)[j] == i as usize);
        }
    }
}

/// Adding a container, and moving the cursor to it, keeps the tree well formed.
pub proof fn lemma_append_container_wf(t: TreeView, tag: Seq<char>)
    requires
        t.wf(),
        t.nodes.len() < usize::MAX,
    ensures
        t.append_container(tag).wf(),
{
    lemma_attach_wf(t, NodeView { parent: None, tag, value: ContentView::Children(Seq::empty()) });
}

/// A tree whose nodes keep their children, parents and kinds, with the same
/// cursor, is as well formed as before.
proof fn lemma_same_shape_wf(t: TreeView, u: TreeView)
    requires
        t.wf(),
        u.nodes.len() == t.nodes.len(),
        u.curr == t.curr,
        forall|i: int|
            0 <= i < t.nodes.len() ==> {
                &&& #[trigger] children_of(u.nodes, i) == children_of(t.nodes, i)
                &&& u.nodes[i].parent == t.nodes[i].parent
                &&& (u.nodes[i].value is Children <==> t.nodes[i].value is Children)
            },
    ensures
        u.wf(),
{
    assert(children_of(u.nodes, 0) == children_of(t.nodes, 0));
    assert(children_of(u.nodes, t.curr as int) == children_of(t.nodes, t.curr as int));
    assert forall|i: int, j: int|
        0 <= i < u.nodes.len() && 0 <= j < children_of(u.nodes, i).len() implies {
        &&& i < #[trigger] children_of(u.nodes, i)[j] < u.nodes.len()
        &&& u.nodes[children_of(u.nodes, i)[j] as int].parent == Some(i as usize)
    } by {
        assert(children_of(u.nodes, i) == children_of(t.nodes, i));
        let kid = children_of(t.nodes, i)[j] as int;
        assert(i < kid < t.nodes.len());
        assert(children_of(u.nodes, kid) == children_of(t.nodes, kid));
    }
    assert forall|i: int, j1: int, j2: int|
        0 <= i < u.nodes.len() && 0 <= j1 < j2 < children_of(u.nodes, i).len() implies #[trigger] children_of(
        u.nodes,
        i,
    )[j1] < #[trigger] children_of(u.nodes, i)[j2] by {
        assert(children_of(u.nodes, i) == children_of(t.nodes, i));
        assert(children_of(t.nodes, i)[j1] < children_of(t.nodes, i)[j2]);
    }
    assert forall|i: int| 0 <= i < u.nodes.len() implies (#[trigger] u.nodes[i].parent matches Some(
        p,
    ) ==> {
        &&& p < u.nodes.len()
        &&& u.nodes[p as int].value is Children
        &&& children_of(u.nodes, p as int).contains(i as usize)
    }) by {
        assert(children_of(u.nodes, i) == children_of(t.nodes, i));
        if let Some(p) = t.nodes[i].parent {
            assert(t.nodes[i].parent matches Some(p) ==> p < t.nodes.len() && children_of(
                t.nodes,
                p as int,
            ).contains(i as usize));
            assert(children_of(u.nodes, p as int) == children_of(t.nodes, p as int));
        }
    }
}

/// Removing the last child of the cursor, when it is a text leaf, keeps the
/// tree well formed.
proof fn lemma_take_wf(t: TreeView)
    requires
        t.wf(),
    ensures
        t.take_last_child_text().wf(),
{
    if t.last_child_text() is Some {
        let u = t.take_last_child_text();
        let c = t.curr as int;
        let n = t.kids().len();
        let o = t.last_child();
        assert(0 <= n - 1 < n);
        assert(c < o < t.nodes.len());
        assert(t.nodes[o].parent == Some(c as usize));
        assert(children_of(u.nodes, c) == t.kids().drop_last());
        assert(children_of(u.nodes, o) == Seq::<usize>::empty());
        assert forall|i: int| 0 <= i < t.nodes.len() && i != c implies children_of(u.nodes, i)
            == children_of(t.nodes, i) by {}
        assert forall|i: int, j: int|
            0 <= i < u.nodes.len() && 0 <= j < children_of(u.nodes, i).len() implies {
            &&& i < #[trigger] children_of(u.nodes, i)[j] < u.nodes.len()
            &&& u.nodes[children_of(u.nodes, i)[j] as int].parent == Some(i as usize)
        } by {
            let kid = children_of(t.nodes, i)[j];
            assert(children_of(u.nodes, i)[j] == kid);
            assert(i < kid < t.nodes.len());
            assert(t.nodes[kid as int].parent == Some(i as usize));
            if i == c {
                assert(children_of(t.nodes, i)[j] < children_of(t.nodes, i)[n - 1]);
            }
        }
        assert forall|i: int, j1: int, j2: int|
            0 <= i < u.nodes.len() && 0 <= j1 < j2 < children_of(u.nodes, i).len() implies #[trigger] children_of(
            u.nodes,
            i,
        )[j1] < #[trigger] children_of(u.nodes, i)[j2] by {
            assert(children_of(u.nodes, i)[j1] == children_of(t.nodes, i)[j1]);
            assert(children_of(u.nodes, i)[j2] == children_of(t.nodes, i)[j2]);
            assert(children_of(t.nodes, i)[j1] < children_of(t.nodes, i)[j2]);
        }
        assert forall|i: int| 0 <= i < u.nodes.len() implies (#[trigger] u.nodes[i].parent matches Some(
            p,
        ) ==> {
            &&& p < u.nodes.len()
            &&& u.nodes[p as int].value is Children
            &&& children_of(u.nodes, p as int).contains(i as usize)
        }) by {
            if i != o {
                if let Some(p) = t.nodes[i].parent {
                    assert(t.nodes[i].parent matches Some(p) ==> children_of(
                        t.nodes,
                        p as int,
                    ).contains(i as usize));
                    let j = choose|j: int|
                        0 <= j < children_of(t.nodes, p as int).len() && children_of(
                            t.nodes,
                            p as int,
                        )[j] == i as usize;
                    if p as int == c {
                        assert(j != n - 1);
                        assert(children_of(u.nodes, c)[j] == i as usize);
                    } else {
                        assert(children_of(u.nodes, p as int) == children_of(t.nodes, p as int));
                    }
                }
            }
        }
    }
}

/// Renaming or removing the last child, renaming the cursor and moving the
/// cursor up keep the tree well formed.
pub proof fn lemma_edit_wf(t: TreeView)
    requires
        t.wf(),
    ensures
        forall|tag: Seq<char>| #[trigger] t.retag_last_child(tag).wf(),
        t.take_last_child_text().wf(),
        t.ascend().wf(),
        forall|tag: Seq<char>| #[trigger] t.retag_cursor(tag).wf(),
{
    assert forall|tag: Seq<char>| #[trigger] t.retag_cursor(tag).wf() by {
        lemma_same_shape_wf(t, t.retag_cursor(tag));
    }
    assert forall|tag: Seq<char>| #[trigger] t.retag_last_child(tag).wf() by {
        if t.kids().len() > 0 {
            assert(0 <= t.kids().len() - 1 < t.kids().len());
        }
        lemma_same_shape_wf(t, t.retag_last_child(tag));
    }
    lemma_take_wf(t);
    assert(t.nodes[t.curr as int].parent matches Some(p) ==> p < t.nodes.len()
        && t.nodes[p as int].value is Children);
}

/// What a node holds: its children (indices into the tree that owns it) or its text.
pub enum Content {
    Children(Vec<usize>),
    Inline(String),
}

impl View for Content {
    type V = ContentView;

    open spec fn view(&self) -> ContentView {
        match self {
            Content::Children(kids) => ContentView::Children(kids@),
            Content::Inline(text) => ContentView::Inline(text@),
        }
    }
}

/// One element of the document: a container of children or a text leaf.
pub struct Node {
    parent: Option<usize>,
    tag: String,
    value: Content,
}

impl View for Node {
    type V = NodeView;

    closed spec fn view(&self) -> NodeView {
        NodeView { parent: self.parent, tag: self.tag@, value: self.value@ }
    }
}

/// The document being built: an arena of nodes, the root at index 0, and a
/// cursor on the container that receives new children.
pub struct Tree {
    nodes: Vec<Node>,
    curr: usize,
}

impl View for Tree {
    type V = TreeView;

    closed spec fn view(&self) -> TreeView {
        TreeView { nodes: self.nodes@.map_values(|n: Node| n@), curr: self.curr }
    }
}

impl Node {
    /// A detached container with an empty tag and no children.
    pub fn build_branch() -> (r: Node)
        ensures
            r@ == (NodeView {
                parent: None,
                tag: Seq::empty(),
                value: ContentView::Children(Seq::empty()),
            }),
    {
        Node { parent: None, tag: String::new(), value: Content::Children(Vec::new()) }
    }

    /// A detached text leaf with an empty tag and an empty text.
    pub fn build_leaf() -> (r: Node)
        ensures
            r@ == (NodeView { parent: None, tag: Seq::empty(), value: ContentView::Inline(Seq::empty()) }),
    {
        Node { parent: None, tag: String::new(), value: Content::Inline(String::new()) }
    }

    pub fn get_tag(&self) -> (r: &str)
        ensures
            r@ == self@.tag,
    {
        self.tag.as_str()
    }

    /// Gives the node the tag held by `new_tag`, which is left empty.
    pub fn set_tag(&mut self, new_tag: &mut String)
        ensures
            final(self)@ == (NodeView { tag: old(new_tag)@, ..old(self)@ }),
            final(new_tag)@ == Seq::<char>::empty(),
    {
        self.tag = take_string(new_tag);
    }

    /// The text of a leaf; `None` for a container.
    pub fn get_literal(&self) -> (r: Option<String>)
        ensures
            match self@.value {
                ContentView::Inline(text) => r matches Some(s) && s@ == text,
                ContentView::Children(_) => r is None,
            },
    {
        match &self.value {
            Content::Inline(text) => Some(text.clone()),
            Content::Children(_) => None,
        }
    }

    pub fn set_value(&mut self, new_content: Content)
        ensures
            final(self)@ == (NodeView { value: new_content@, ..old(self)@ }),
    {
        self.value = new_content;
    }

    /// Adds the text of `to_add` at the end of a leaf's text; a container is left as it is.
    pub fn append_literal(&mut self, to_add: &mut String)
        ensures
            final(to_add)@ == old(to_add)@,
            final(self)@ == match old(self)@.value {
                ContentView::Inline(text) => NodeView {
                    value: ContentView::Inline(text + old(to_add)@),
                    ..old(self)@
                },
                ContentView::Children(_) => old(self)@,
            },
    {
        if let Content::Inline(text) = &mut self.value {
            text.append(to_add.as_str());
        }
    }
}

impl Tree {
    /// A tree with the root `html` container alone, which is the cursor.
    pub fn build() -> (r: Tree)
        ensures
            r@ == TreeView::initial(),
            r@.wf(),
    {
        let root = Node {
            parent: None,
            tag: String::from_str("html"),
            value: Content::Children(Vec::new()),
        };
        let mut nodes: Vec<Node> = Vec::new();
        nodes.push(root);
        let r = Tree { nodes, curr: 0 };
        assert(r@.nodes =~= TreeView::initial().nodes);
        r
    }

    fn attach(&mut self, node: Node)
        requires
            old(self)@.wf(),
            node@.is_detached(),
        ensures
            final(self)@ == old(self)@.attach(node@),
            final(self)@.wf(),
            old(self)@.nodes.len() < usize::MAX,
    {
        let ghost before = self@;
        let k = self.nodes.len();
        let c = self.curr;
        let mut node = node;
        node.parent = Some(c);
        self.nodes.push(node);
        assert(self.nodes.len() == k + 1);
        match &mut self.nodes[c].value {
            Content::Children(kids) => {
                kids.push(k);
            },
            Content::Inline(_) => {},
        }
        proof {
            lemma_attach_wf(before, node@);
        }
        assert(self@.nodes =~= before.attach(node@).nodes);
    }

    /// Adds a text leaf as the last child of the cursor, which stays where it is;
    /// `tag` and `literal` are left empty.
    pub fn insert_leaf(&mut self, tag: &mut String, literal: &mut String)
        requires
            old(self)@.wf(),
        ensures
            final(self)@ == old(self)@.append_text(old(tag)@, old(literal)@),
            final(self)@.wf(),
            final(tag)@ == Seq::<char>::empty(),
            final(literal)@ == Seq::<char>::empty(),
    {
        let node = Node {
            parent: None,
            tag: take_string(tag),
            value: Content::Inline(take_string(literal)),
        };
        self.attach(node);
    }

    /// Adds an empty container as the last child of the cursor, and moves the
    /// cursor to it; `tag` is left empty.
    pub fn insert_branch(&mut self, tag: &mut String)
        requires
            old(self)@.wf(),
        ensures
            final(self)@ == old(self)@.append_container(old(tag)@),
            final(self)@.wf(),
            final(tag)@ == Seq::<char>::empty(),
    {
        let ghost before = self@;
        let k = self.nodes.len();
        let node = Node { parent: None, tag: take_string(tag), value: Content::Children(Vec::new()) };
        self.attach(node);
        self.curr = k;
        proof {
            lemma_append_container_wf(before, node@.tag);
        }
        assert(self@.nodes =~= before.append_container(node@.tag).nodes);
    }

    /// Adds a detached node as the last child of the cursor; the cursor moves
    /// to it when it is a container.
    pub fn insert_node(&mut self, node: Node)
        requires
            old(self)@.wf(),
            node@.is_detached(),
        ensures
            final(self)@ == match node@.value {
                ContentView::Children(_) => old(self)@.append_container(node@.tag),
                ContentView::Inline(text) => old(self)@.append_text(node@.tag, text),
            },
            final(self)@.wf(),
    {
        let ghost before = self@;
        let k = self.nodes.len();
        let is_branch = match &node.value {
            Content::Children(_) => true,
            Content::Inline(_) => false,
        };
        let ghost n = node@;
        self.attach(node);
        if is_branch {
            self.curr = k;
            proof {
                lemma_append_container_wf(before, n.tag);
            }
            assert(n.value->Children_0 =~= Seq::<usize>::empty());
            assert(self@.nodes =~= before.append_container(n.tag).nodes);
        } else {
            assert(self@.nodes =~= before.append_text(n.tag, n.value->Inline_0).nodes);
        }
    }

    /// Moves the cursor to its parent; at the root it stays.
    pub fn curr_up(&mut self)
        requires
            old(self)@.wf(),
        ensures
            final(self)@ == old(self)@.ascend(),
            final(self)@.wf(),
    {
        proof {
            lemma_edit_wf(self@);
        }
        if let Some(p) = self.nodes[self.curr].parent {
            self.curr = p;
        }
    }

    /// Renames the most recently added child of the cursor, if there is one.
    pub fn retag_last_child(&mut self, tag: String)
        requires
            old(self)@.wf(),
        ensures
            final(self)@ == old(self)@.retag_last_child(tag@),
            final(self)@.wf(),
    {
        let ghost before = self@;
        proof {
            lemma_edit_wf(self@);
        }
        let c = self.curr;
        let last = match &self.nodes[c].value {
            Content::Children(kids) => if kids.len() > 0 {
                Some(kids[kids.len() - 1])
            } else {
                None
            },
            Content::Inline(_) => None,
        };
        if let Some(j) = last {
            self.nodes[j].tag = tag;
            assert(self@.nodes =~= before.retag_last_child(tag@).nodes);
        }
    }

    /// Removes the most recently added child of the cursor and returns its text,
    /// if it is a text leaf; otherwise changes nothing and returns `None`.
    pub fn take_last_child_text(&mut self) -> (r: Option<String>)
        requires
            old(self)@.wf(),
        ensures
            final(self)@ == old(self)@.take_last_child_text(),
            final(self)@.wf(),
            match old(self)@.last_child_text() {
                Some(text) => r matches Some(s) && s@ == text,
                None => r is None,
            },
    {
        let ghost before = self@;
        proof {
            lemma_edit_wf(self@);
        }
        let c = self.curr;
        let last = match &self.nodes[c].value {
            Content::Children(kids) => if kids.len() > 0 {
                Some(kids[kids.len() - 1])
            } else {
                None
            },
            Content::Inline(_) => None,
        };
        let text = match last {
            Some(j) => match &self.nodes[j].value {
                Content::Inline(t) => Some(t.clone()),
                Content::Children(_) => None,
            },
            None => None,
        };
        if let Some(j) = last {
            if text.is_some() {
                match &mut self.nodes[c].value {
                    Content::Children(kids) => {
                        kids.pop();
                    },
                    Content::Inline(_) => {},
                }
                self.nodes[j].parent = None;
                assert(self@.nodes =~= before.take_last_child_text().nodes);
            }
        }
        text
    }

    /// Whether the most recently added child of the cursor is a paragraph.
    pub fn last_child_is_paragraph(&self) -> (r: bool)
        requires
            self@.wf(),
        ensures
            r == self@.last_child_is_paragraph(),
    {
        let c = self.curr;
        match &self.nodes[c].value {
            Content::Children(kids) => if kids.len() > 0 {
                let j = kids[kids.len() - 1];
                assert(j == children_of(self@.nodes, c as int)[kids@.len() - 1]);
                match &self.nodes[j].value {
                    Content::Inline(_) => same_text(&self.nodes[j].tag, "p"),
                    Content::Children(_) => false,
                }
            } else {
                false
            },
            Content::Inline(_) => false,
        }
    }

    /// The tag of the cursor.
    pub fn get_curr_tag(&self) -> (r: String)
        requires
            self@.wf(),
        ensures
            r@ == self@.curr_tag(),
    {
        self.nodes[self.curr].tag.clone()
    }

    /// Whether the tag of the cursor is `tag`.
    pub fn curr_tag_is(&self, tag: &str) -> (r: bool)
        requires
            self@.wf(),
        ensures
            r == (self@.curr_tag() == tag@),
    {
        same_text(&self.nodes[self.curr].tag, tag)
    }

    /// Renames the cursor to the tag held by `new_tag`, which is left empty.
    pub fn set_curr_tag(&mut self, new_tag: &mut String)
        requires
            old(self)@.wf(),
        ensures
            final(self)@ == old(self)@.retag_cursor(old(new_tag)@),
            final(self)@.wf(),
            final(new_tag)@ == Seq::<char>::empty(),
    {
        let ghost before = self@;
        proof {
            lemma_edit_wf(self@);
        }
        let c = self.curr;
        self.nodes[c].tag = take_string(new_tag);
        assert(self@.nodes =~= before.retag_cursor(old(new_tag)@).nodes);
    }

    /// Adds `to_add` at the end of the cursor's text when the cursor is a text
    /// leaf. The cursor is always a container, so the tree is left as it is.
    pub fn append_curr_literal(&mut self, to_add: &mut String)
        requires
            old(self)@.wf(),
        ensures
            final(self)@ == old(self)@,
            final(to_add)@ == old(to_add)@,
    {
        let ghost before = self@;
        let c = self.curr;
        self.nodes[c].append_literal(to_add);
        assert(self@.nodes =~= before.nodes);
    }
}

/// The pieces of `ps` that are not empty, in order.
pub open spec fn nonempty(ps: Seq<Seq<char>>) -> Seq<Seq<char>>
    decreases ps.len(),
{
    if ps.len() == 0 {
        Seq::empty()
    } else if ps.last().len() > 0 {
        nonempty(ps.drop_last()).push(ps.last())
    } else {
        nonempty(ps.drop_last())
    }
}

/// The cells of a table line: its fields between `|`, without the empty ones.
/// Nothing is trimmed inside a field.
pub open spec fn cells_of(line: Seq<char>) -> Seq<Seq<char>> {
    nonempty(pieces(line, '|'))
}

/// The views of a sequence of strings.
pub open spec fn string_views(ss: Seq<String>) -> Seq<Seq<char>> {
    ss.map_values(|s: String| s@)
}

/// Splits a table line into its cells.
pub fn split_cells(line: &str) -> (r: Vec<String>)
    ensures
        string_views(r@) == cells_of(line@),
{
    let cs = chars_of(line);
    let bounds = piece_bounds(&cs, '|');
    let ghost p = pieces(cs@, '|');
    let mut out: Vec<String> = Vec::new();
    let mut k: usize = 0;
    while k < bounds.len()
        invariant
            bounds@.len() == p.len(),
            k <= bounds@.len(),
            p == pieces(cs@, '|'),
            cs@ == line@,
            forall|j: int|
                #![trigger bounds@[j]]
                0 <= j < bounds@.len() ==> {
                    &&& bounds@[j].0 <= bounds@[j].1 <= cs@.len()
                    &&& cs@.subrange(bounds@[j].0 as int, bounds@[j].1 as int) == p[j]
                },
            string_views(out@) == nonempty(p.take(k as int)),
        decreases bounds@.len() - k,
    {
        let (a, b) = bounds[k];
        let ghost before = string_views(out@);
        assert(p.take(k + 1).drop_last() =~= p.take(k as int));
        assert(p.take(k + 1).last() == p[k as int]);
        if a < b {
            out.push(string_of(&cs, a, b));
            assert(string_views(out@) =~= before.push(p[k as int]));
        } else {
            assert(string_views(out@) =~= before);
        }
        k = k + 1;
    }
    assert(p.take(k as int) =~= p);
    out
}

/// Where the builder stands between two tokens.
#[derive(Clone, Copy, PartialEq, Eq, Structural, Debug)]
pub enum TreeState {
    Start,
    AfterPrefix,
    AfterLiteral,
}

/// Everything the builder holds: the tree, its state, and the tag that an
/// opening marker left for the next literal.
pub struct BuildView {
    pub tree: TreeView,
    pub state: TreeState,
    pub pending: Seq<char>,
}

/// A text leaf with `tag` for each of `cells`, in order, added under the cursor.
pub open spec fn append_cells(t: TreeView, tag: Seq<char>, cells: Seq<Seq<char>>) -> TreeView
    decreases cells.len(),
{
    if cells.len() == 0 {
        t
    } else {
        append_cells(t, tag, cells.drop_last()).append_text(tag, cells.last())
    }
}

/// A table row of `td` cells added under the cursor, which stays.
pub open spec fn add_row(t: TreeView, line: Seq<char>) -> TreeView {
    append_cells(t.append_container("tr"@), "td"@, cells_of(line)).ascend()
}

/// A table opened under the cursor, with a header row of `th` cells taken from
/// `header`; the cursor moves to the table.
pub open spec fn open_table(t: TreeView, header: Option<Seq<char>>) -> TreeView {
    let row = t.append_container("table"@).append_container("tr"@);
    match header {
        Some(h) => append_cells(row, "th"@, cells_of(h)).ascend(),
        None => row.ascend(),
    }
}

pub open spec fn is_heading_tag(v: Seq<char>) -> bool {
    v == "h1"@ || v == "h2"@ || v == "h3"@ || v == "h4"@ || v == "h5"@ || v == "h6"@
}

/// What a marker that depends on what came before does to the tree.
pub open spec fn after_suffix(t: TreeView, v: Seq<char>) -> TreeView {
    if v == "empty_line"@ {
        if t.curr_tag() == "table"@ {
            t.ascend()
        } else {
            t
        }
    } else if is_heading_tag(v) {
        if t.last_child_is_paragraph() {
            t.retag_last_child(v)
        } else {
            t
        }
    } else if v == "table"@ {
        open_table(t.take_last_child_text(), t.last_child_text())
    } else {
        t
    }
}

/// One step of the builder.
pub open spec fn step(b: BuildView, token: (TokenType, Seq<char>)) -> BuildView {
    match token.0 {
        TokenType::Prefix => BuildView { state: TreeState::AfterPrefix, pending: token.1, ..b },
        TokenType::Literal => BuildView {
            tree: if b.state == TreeState::AfterPrefix {
                b.tree.append_text(b.pending, token.1)
            } else if b.tree.curr_tag() == "table"@ {
                add_row(b.tree, token.1)
            } else {
                b.tree.append_text("p"@, token.1)
            },
            state: TreeState::AfterLiteral,
            ..b
        },
        TokenType::Suffix => BuildView {
            tree: after_suffix(b.tree, token.1),
            state: TreeState::Start,
            ..b
        },
    }
}

/// The builder after consuming `tokens` from the start.
pub open spec fn build_from(tokens: Seq<(TokenType, Seq<char>)>) -> BuildView
    decreases tokens.len(),
{
    if tokens.len() == 0 {
        BuildView { tree: TreeView::initial(), state: TreeState::Start, pending: Seq::empty() }
    } else {
        step(build_from(tokens.drop_last()), tokens.last())
    }
}

/// A blank line closes an open table: the cursor moves to the table's parent,
/// so that a literal after it becomes a paragraph there (when that parent is
/// not itself a table) and not another row. Outside a table a blank line leaves
/// the tree as it is.
pub proof fn lemma_blank_line_closes_table(b: BuildView, text: Seq<char>)
    ensures
        b.tree.curr_tag() == "table"@ ==> step(b, (TokenType::Suffix, "empty_line"@)).tree
            == b.tree.ascend(),
        b.tree.curr_tag() == "table"@ && b.tree.ascend().curr_tag() != "table"@ ==> step(
            step(b, (TokenType::Suffix, "empty_line"@)),
            (TokenType::Literal, text),
        ).tree == b.tree.ascend().append_text("p"@, text),
        b.tree.curr_tag() != "table"@ ==> step(b, (TokenType::Suffix, "empty_line"@)).tree
            == b.tree,
{
}

/// Adding cells moves no cursor and changes no node other than the cursor,
/// whose tag and parent stay; each cell adds one node and one child.
proof fn lemma_append_cells_frame(t: TreeView, tag: Seq<char>, cells: Seq<Seq<char>>)
    requires
        t.curr < t.nodes.len(),
    ensures
        append_cells(t, tag, cells).curr == t.curr,
        append_cells(t, tag, cells).nodes.len() == t.nodes.len() + cells.len(),
        append_cells(t, tag, cells).kids().len() == t.kids().len() + cells.len(),
        append_cells(t, tag, cells).cursor().tag == t.cursor().tag,
        append_cells(t, tag, cells).cursor().parent == t.cursor().parent,
        forall|i: int|
            0 <= i < t.nodes.len() && i != t.curr ==> #[trigger] append_cells(
                t,
                tag,
                cells,
            ).nodes[i] == t.nodes[i],
    decreases cells.len(),
{
    if cells.len() > 0 {
        lemma_append_cells_frame(t, tag, cells.drop_last());
    }
}

impl TreeView {
    /// Every index in the tree points into it: the cursor, the parents and the
    /// children. Unlike `wf`, this holds of a tree of any size.
    pub open spec fn in_range(self) -> bool {
        &&& self.curr < self.nodes.len()
        &&& forall|i: int|
            0 <= i < self.nodes.len() ==> (#[trigger] self.nodes[i].parent matches Some(p) ==> p
                < self.nodes.len())
        &&& forall|i: int, j: int|
            0 <= i < self.nodes.len() && 0 <= j < children_of(self.nodes, i).len()
                ==> #[trigger] children_of(self.nodes, i)[j] < self.nodes.len()
    }
}

proof fn lemma_attach_in_range(t: TreeView, node: NodeView)
    requires
        t.in_range(),
        children_of(seq![node], 0).len() == 0,
    ensures
        t.attach(node).in_range(),
        t.attach(node).nodes.len() == t.nodes.len() + 1,
        t.append_container(node.tag).in_range(),
        t.append_container(node.tag).nodes.len() == t.nodes.len() + 1,
{
    let u = t.attach(node);
    let k = t.nodes.len() as int;
    let c = t.curr as int;
    assert(children_of(u.nodes, c) == t.kids().push(k as usize));
    assert(children_of(u.nodes, k) == children_of(seq![node], 0));
    assert forall|i: int, j: int|
        0 <= i < u.nodes.len() && 0 <= j < children_of(u.nodes, i).len() implies #[trigger] children_of(
        u.nodes,
        i,
    )[j] < u.nodes.len() by {
        if i != c && i != k {
            assert(children_of(u.nodes, i) == children_of(t.nodes, i));
        }
    }
    assert forall|i: int| 0 <= i < u.nodes.len() implies (#[trigger] u.nodes[i].parent matches Some(
        p,
    ) ==> p < u.nodes.len()) by {
        if i < k {
            assert(t.nodes[i].parent matches Some(p) ==> p < t.nodes.len());
        }
    }
    lemma_attach_in_range_container(t, node.tag);
}

proof fn lemma_attach_in_range_container(t: TreeView, tag: Seq<char>)
    requires
        t.in_range(),
    ensures
        t.append_container(tag).in_range(),
        t.append_container(tag).nodes.len() == t.nodes.len() + 1,
{
    let node = NodeView { parent: None, tag, value: ContentView::Children(Seq::empty()) };
    let u = t.attach(node);
    let k = t.nodes.len() as int;
    let c = t.curr as int;
    assert(children_of(u.nodes, c) == t.kids().push(k as usize));
    assert(children_of(u.nodes, k) == Seq::<usize>::empty());
    assert forall|i: int, j: int|
        0 <= i < u.nodes.len() && 0 <= j < children_of(u.nodes, i).len() implies #[trigger] children_of(
        u.nodes,
        i,
    )[j] < u.nodes.len() by {
        if i != c && i != k {
            assert(children_of(u.nodes, i) == children_of(t.nodes, i));
        }
    }
    assert forall|i: int| 0 <= i < u.nodes.len() implies (#[trigger] u.nodes[i].parent matches Some(
        p,
    ) ==> p < u.nodes.len()) by {
        if i < k {
            assert(t.nodes[i].parent matches Some(p) ==> p < t.nodes.len());
        }
    }
}

proof fn lemma_text_in_range(t: TreeView, tag: Seq<char>, text: Seq<char>)
    requires
        t.in_range(),
    ensures
        t.append_text(tag, text).in_range(),
        t.append_text(tag, text).nodes.len() == t.nodes.len() + 1,
{
    lemma_attach_in_range(t, NodeView { parent: None, tag, value: ContentView::Inline(text) });
}

proof fn lemma_edit_in_range(t: TreeView)
    requires
        t.in_range(),
    ensures
        t.ascend().in_range(),
        t.ascend().nodes.len() == t.nodes.len(),
        t.take_last_child_text().in_range(),
        t.take_last_child_text().nodes.len() == t.nodes.len(),
        forall|tag: Seq<char>| #[trigger] t.retag_last_child(tag).in_range(),
        forall|tag: Seq<char>| #[trigger] t.retag_last_child(tag).nodes.len() == t.nodes.len(),
{
    assert(t.cursor().parent matches Some(p) ==> p < t.nodes.len());
    let c = t.curr as int;
    if t.kids().len() > 0 {
        assert(children_of(t.nodes, c)[t.kids().len() - 1] < t.nodes.len());
    }
    assert forall|tag: Seq<char>| #[trigger] t.retag_last_child(tag).in_range() by {
        let u = t.retag_last_child(tag);
        assert forall|i: int, j: int|
            0 <= i < u.nodes.len() && 0 <= j < children_of(u.nodes, i).len() implies #[trigger] children_of(
            u.nodes,
            i,
        )[j] < u.nodes.len() by {
            assert(children_of(u.nodes, i) == children_of(t.nodes, i));
        }
        assert forall|i: int| 0 <= i < u.nodes.len() implies (#[trigger] u.nodes[i].parent matches Some(
            p,
        ) ==> p < u.nodes.len()) by {
            assert(t.nodes[i].parent matches Some(p) ==> p < t.nodes.len());
        }
    }
    let u = t.take_last_child_text();
    if t.last_child_text() is Some {
        let o = t.last_child();
        assert forall|i: int, j: int|
            0 <= i < u.nodes.len() && 0 <= j < children_of(u.nodes, i).len() implies #[trigger] children_of(
            u.nodes,
            i,
        )[j] < u.nodes.len() by {
            if i == c {
                assert(children_of(u.nodes, i)[j] == children_of(t.nodes, i)[j]);
            } else if i != o {
                assert(children_of(u.nodes, i) == children_of(t.nodes, i));
            }
        }
        assert forall|i: int| 0 <= i < u.nodes.len() implies (#[trigger] u.nodes[i].parent matches Some(
            p,
        ) ==> p < u.nodes.len()) by {
            assert(t.nodes[i].parent matches Some(p) ==> p < t.nodes.len());
        }
    }
}

proof fn lemma_cells_in_range(t: TreeView, tag: Seq<char>, cells: Seq<Seq<char>>)
    requires
        t.in_range(),
    ensures
        append_cells(t, tag, cells).in_range(),
        append_cells(t, tag, cells).nodes.len() == t.nodes.len() + cells.len(),
    decreases cells.len(),
{
    if cells.len() > 0 {
        lemma_cells_in_range(t, tag, cells.drop_last());
        lemma_text_in_range(append_cells(t, tag, cells.drop_last()), tag, cells.last());
    }
}

/// One step keeps every index in range and never removes a node from the
/// arena; a literal adds at least one.
proof fn lemma_step_in_range(b: BuildView, token: (TokenType, Seq<char>))
    requires
        b.tree.in_range(),
    ensures
        step(b, token).tree.in_range(),
        step(b, token).tree.nodes.len() >= b.tree.nodes.len(),
        token.0 == TokenType::Literal ==> step(b, token).tree.nodes.len() > b.tree.nodes.len(),
{
    let t = b.tree;
    lemma_edit_in_range(t);
    lemma_text_in_range(t, b.pending, token.1);
    lemma_text_in_range(t, "p"@, token.1);
    lemma_attach_in_range_container(t, "tr"@);
    let tr = t.append_container("tr"@);
    lemma_cells_in_range(tr, "td"@, cells_of(token.1));
    lemma_edit_in_range(append_cells(tr, "td"@, cells_of(token.1)));
    let taken = t.take_last_child_text();
    lemma_attach_in_range_container(taken, "table"@);
    let tb = taken.append_container("table"@);
    lemma_attach_in_range_container(tb, "tr"@);
    let row = tb.append_container("tr"@);
    lemma_edit_in_range(row);
    match t.last_child_text() {
        Some(h) => {
            lemma_cells_in_range(row, "th"@, cells_of(h));
            lemma_edit_in_range(append_cells(row, "th"@, cells_of(h)));
        },
        None => {},
    }
}

/// Every state of the builder keeps its indices in range.
proof fn lemma_build_in_range(tokens: Seq<(TokenType, Seq<char>)>)
    ensures
        build_from(tokens).tree.in_range(),
    decreases tokens.len(),
{
    if tokens.len() == 0 {
        let t = TreeView::initial();
        assert(children_of(t.nodes, 0) == Seq::<usize>::empty());
    } else {
        lemma_build_in_range(tokens.drop_last());
        lemma_step_in_range(build_from(tokens.drop_last()), tokens.last());
    }
}

/// A table row is added under the cursor, which comes back to where it was;
/// the other nodes stay, and the cursor gains one child.
proof fn lemma_add_row_frame(t: TreeView, line: Seq<char>)
    requires
        t.curr < t.nodes.len() < usize::MAX,
    ensures
        add_row(t, line).curr == t.curr,
        add_row(t, line).nodes.len() == t.nodes.len() + 1 + cells_of(line).len(),
        add_row(t, line).kids().len() == t.kids().len() + 1,
        add_row(t, line).cursor().tag == t.cursor().tag,
        add_row(t, line).cursor().parent == t.cursor().parent,
        forall|i: int|
            0 <= i < t.nodes.len() && i != t.curr ==> #[trigger] add_row(t, line).nodes[i]
                == t.nodes[i],
{
    let row = t.append_container("tr"@);
    let k = t.nodes.len() as int;
    let filled = append_cells(row, "td"@, cells_of(line));
    lemma_append_cells_frame(row, "td"@, cells_of(line));
    assert(row.curr == k);
    assert(filled.nodes[t.curr as int] == row.nodes[t.curr as int]);
    assert(filled.cursor().parent == Some(t.curr));
}

/// Node `r` is a table row whose children are the nodes right after it, in
/// order: one text leaf with `tag` for each of `cells`, holding that cell.
pub open spec fn is_row(nodes: Seq<NodeView>, r: int, tag: Seq<char>, cells: Seq<Seq<char>>) -> bool {
    &&& 0 <= r
    &&& r + cells.len() < nodes.len()
    &&& nodes[r].tag == "tr"@
    &&& nodes[r].value is Children
    &&& children_of(nodes, r).len() == cells.len()
    &&& forall|m: int|
        0 <= m < cells.len() ==> {
            &&& #[trigger] children_of(nodes, r)[m] == r + 1 + m
            &&& nodes[r + 1 + m] == (NodeView {
                parent: Some(r as usize),
                tag,
                value: ContentView::Inline(cells[m]),
            })
        }
}

/// A row stays a row while the nodes it is made of stay.
proof fn lemma_row_kept(
    a: Seq<NodeView>,
    b: Seq<NodeView>,
    r: int,
    tag: Seq<char>,
    cells: Seq<Seq<char>>,
    c: int,
)
    requires
        is_row(a, r, tag, cells),
        b.len() >= a.len(),
        c < r,
        forall|i: int| 0 <= i < a.len() && i != c ==> #[trigger] b[i] == a[i],
    ensures
        is_row(b, r, tag, cells),
{
    assert(b[r] == a[r]);
    assert(children_of(b, r) == children_of(a, r));
    assert forall|m: int| 0 <= m < cells.len() implies {
        &&& #[trigger] children_of(b, r)[m] == r + 1 + m
        &&& b[r + 1 + m] == (NodeView {
            parent: Some(r as usize),
            tag,
            value: ContentView::Inline(cells[m]),
        })
    } by {
        assert(children_of(a, r)[m] == r + 1 + m);
        assert(b[r + 1 + m] == a[r + 1 + m]);
    }
}

/// Adding cells puts them right after the last node, as children of the cursor.
proof fn lemma_append_cells_content(t: TreeView, tag: Seq<char>, cells: Seq<Seq<char>>)
    requires
        t.curr < t.nodes.len(),
        t.nodes.len() + cells.len() <= usize::MAX,
    ensures
        append_cells(t, tag, cells).kids() == t.kids() + Seq::new(
            cells.len(),
            |m: int| (t.nodes.len() + m) as usize,
        ),
        forall|m: int|
            0 <= m < cells.len() ==> #[trigger] append_cells(t, tag, cells).nodes[t.nodes.len()
                + m] == (NodeView {
                parent: Some(t.curr),
                tag,
                value: ContentView::Inline(cells[m]),
            }),
    decreases cells.len(),
{
    if cells.len() > 0 {
        let n = cells.len() - 1;
        let prev = append_cells(t, tag, cells.drop_last());
        lemma_append_cells_content(t, tag, cells.drop_last());
        lemma_append_cells_frame(t, tag, cells.drop_last());
        let u = append_cells(t, tag, cells);
        assert(u == prev.append_text(tag, cells.last()));
        assert(prev.nodes.len() == t.nodes.len() + n);
        assert(u.kids() =~= t.kids() + Seq::new(cells.len(), |m: int| (t.nodes.len() + m) as usize));
        assert forall|m: int| 0 <= m < cells.len() implies #[trigger] u.nodes[t.nodes.len() + m]
            == (NodeView { parent: Some(t.curr), tag, value: ContentView::Inline(cells[m]) }) by {
            if m < n {
                assert(cells.drop_last()[m] == cells[m]);
                assert(u.nodes[t.nodes.len() + m] == prev.nodes[t.nodes.len() + m]);
            }
        }
    }
}

/// The row that a literal adds under the table is a row of `td` cells holding
/// the literal's cells, placed right after the last node.
proof fn lemma_add_row_content(t: TreeView, line: Seq<char>)
    requires
        t.curr < t.nodes.len(),
        t.nodes.len() + 1 + cells_of(line).len() <= usize::MAX,
    ensures
        add_row(t, line).kids() == t.kids().push(t.nodes.len() as usize),
        is_row(add_row(t, line).nodes, t.nodes.len() as int, "td"@, cells_of(line)),
{
    let k = t.nodes.len() as int;
    let row = t.append_container("tr"@);
    let cells = cells_of(line);
    let filled = append_cells(row, "td"@, cells);
    lemma_append_cells_frame(row, "td"@, cells);
    lemma_append_cells_content(row, "td"@, cells);
    assert(row.curr == k);
    assert(filled.nodes[t.curr as int] == row.nodes[t.curr as int]);
    assert(children_of(filled.nodes, t.curr as int) == t.kids().push(k as usize));
    let u = add_row(t, line);
    assert(u.nodes == filled.nodes);
    assert forall|m: int| 0 <= m < cells.len() implies {
        &&& #[trigger] children_of(u.nodes, k)[m] == k + 1 + m
        &&& u.nodes[k + 1 + m] == (NodeView {
            parent: Some(k as usize),
            tag: "td"@,
            value: ContentView::Inline(cells[m]),
        })
    } by {
        assert(filled.nodes[row.nodes.len() + m] == u.nodes[k + 1 + m]);
    }
}

/// While the cursor is on a table, every literal adds one row to it: the
/// cursor, its tag and its parent stay, and no other node changes.
proof fn lemma_rows_stay_in_table(
    pre: Seq<(TokenType, Seq<char>)>,
    rows: Seq<Seq<char>>,
    k: int,
)
    requires
        0 <= k <= rows.len(),
        build_from(pre).tree.curr_tag() == "table"@,
        build_from(pre).tree.curr < build_from(pre).tree.nodes.len(),
        build_from(pre).state != TreeState::AfterPrefix,
        build_from(
            pre + rows.map_values(|r: Seq<char>| (TokenType::Literal, r)).take(k),
        ).tree.nodes.len() <= usize::MAX,
    ensures
        ({
            let b0 = build_from(pre);
            let b = build_from(pre + rows.map_values(|r: Seq<char>| (TokenType::Literal, r)).take(k));
            &&& b.tree.curr == b0.tree.curr
            &&& b.tree.cursor().tag == b0.tree.cursor().tag
            &&& b.tree.cursor().parent == b0.tree.cursor().parent
            &&& b.tree.kids().len() == b0.tree.kids().len() + k
            &&& b.tree.nodes.len() >= b0.tree.nodes.len()
            &&& b.state != TreeState::AfterPrefix
            &&& forall|i: int|
                0 <= i < b0.tree.nodes.len() && i != b0.tree.curr ==> #[trigger] b.tree.nodes[i]
                    == b0.tree.nodes[i]
            &&& b.tree.kids().take(b0.tree.kids().len() as int) == b0.tree.kids()
            &&& forall|j: int|
                0 <= j < k ==> {
                    &&& b0.tree.curr < #[trigger] b.tree.kids()[b0.tree.kids().len() + j]
                    &&& is_row(
                        b.tree.nodes,
                        b.tree.kids()[b0.tree.kids().len() + j] as int,
                        "td"@,
                        cells_of(rows[j]),
                    )
                }
        }),
    decreases k,
{
    let rs = rows.map_values(|r: Seq<char>| (TokenType::Literal, r));
    if k == 0 {
        assert(pre + rs.take(0) =~= pre);
    } else {
        let prev = pre + rs.take(k - 1);
        assert((pre + rs.take(k)).drop_last() =~= prev);
        assert((pre + rs.take(k)).last() == (TokenType::Literal, rows[k - 1]));
        let b = build_from(prev);
        lemma_build_in_range(prev);
        lemma_step_in_range(b, (TokenType::Literal, rows[k - 1]));
        lemma_rows_stay_in_table(pre, rows, k - 1);
        assert(build_from(pre + rs.take(k)).tree == add_row(b.tree, rows[k - 1]));
        lemma_add_row_frame(b.tree, rows[k - 1]);
        lemma_add_row_content(b.tree, rows[k - 1]);
        let b0 = build_from(pre);
        let u = add_row(b.tree, rows[k - 1]);
        let base = b0.tree.kids().len() as int;
        assert(u.kids().take(base) =~= b.tree.kids().take(base));
        assert forall|j: int| 0 <= j < k implies {
            &&& b0.tree.curr < #[trigger] u.kids()[base + j]
            &&& is_row(u.nodes, u.kids()[base + j] as int, "td"@, cells_of(rows[j]))
        } by {
            if j < k - 1 {
                let r = b.tree.kids()[base + j];
                assert(u.kids()[base + j] == r);
                lemma_row_kept(b.tree.nodes, u.nodes, r as int, "td"@, cells_of(rows[j]), b0.tree.curr as int);
            }
        }
    }
}

/// A header line followed by a table separator and data lines builds one table
/// under the root, with the cursor on it: its first row holds a `th` cell for
/// each cell of the header, and each data line adds one row of `td` cells
/// holding that line's own cells, in order (rows are not padded to a common
/// width). (The tree is taken to have at most `usize::MAX` nodes, as every tree
/// built by `run_ast` has.)
pub proof fn lemma_table_rows(h: Seq<char>, rows: Seq<Seq<char>>)
    requires
        document_of(
            seq![(TokenType::Literal, h), (TokenType::Suffix, "table"@)] + rows.map_values(
                |r: Seq<char>| (TokenType::Literal, r),
            ),
        ).nodes.len() <= usize::MAX,
    ensures
        ({
            let d = document_of(
                seq![(TokenType::Literal, h), (TokenType::Suffix, "table"@)] + rows.map_values(
                    |r: Seq<char>| (TokenType::Literal, r),
                ),
            );
            let table = d.curr as int;
            &&& children_of(d.nodes, 0) == seq![d.curr]
            &&& d.nodes[table].tag == "table"@
            &&& children_of(d.nodes, table).len() == 1 + rows.len()
            &&& is_row(d.nodes, children_of(d.nodes, table)[0] as int, "th"@, cells_of(h))
            &&& forall|j: int|
                0 <= j < rows.len() ==> is_row(
                    d.nodes,
                    #[trigger] children_of(d.nodes, table)[1 + j] as int,
                    "td"@,
                    cells_of(rows[j]),
                )
        }),
{
    reveal_strlit("table");
    reveal_strlit("html");
    reveal_strlit("empty_line");
    reveal_strlit("h1");
    reveal_strlit("h2");
    reveal_strlit("h3");
    reveal_strlit("h4");
    reveal_strlit("h5");
    reveal_strlit("h6");
    let xs = seq![(TokenType::Literal, h), (TokenType::Suffix, "table"@)];
    let rs = rows.map_values(|r: Seq<char>| (TokenType::Literal, r));
    let b1 = build_from(seq![(TokenType::Literal, h)]);
    assert(seq![(TokenType::Literal, h)].drop_last() =~= Seq::<(TokenType, Seq<char>)>::empty());
    assert("html"@.len() == 4);
    assert("table"@.len() == 5);
    assert(TreeView::initial().curr_tag() == "html"@);
    assert(build_from(Seq::<(TokenType, Seq<char>)>::empty()).tree == TreeView::initial());
    assert(build_from(Seq::<(TokenType, Seq<char>)>::empty()).state == TreeState::Start);
    assert(b1.tree == TreeView::initial().append_text("p"@, h));
    assert(xs.drop_last() =~= seq![(TokenType::Literal, h)]);
    let taken = b1.tree.take_last_child_text();
    assert(b1.tree.last_child_text() == Some(h));
    let table_row = taken.append_container("table"@).append_container("tr"@);
    lemma_append_cells_frame(table_row, "th"@, cells_of(h));
    let head = document_of(xs);
    assert(head == append_cells(table_row, "th"@, cells_of(h)).ascend());
    assert(head.curr == 2);
    assert(head.nodes[0] == table_row.nodes[0]);
    assert(children_of(head.nodes, 0) == seq![2usize]);
    assert(head.kids() == seq![3usize]);

    assert(rs.take(rows.len() as int) =~= rs);
    lemma_rows_stay_in_table(xs, rows, rows.len() as int);
    let d = document_of(xs + rs);
    assert(d.nodes[0] == head.nodes[0]);
    assert(children_of(d.nodes, 0) == children_of(head.nodes, 0));
    assert(table_row.nodes.len() == 4);
    lemma_append_cells_content(table_row, "th"@, cells_of(h));
    let cells = cells_of(h);
    assert(is_row(head.nodes, 3, "th"@, cells)) by {
        assert forall|m: int| 0 <= m < cells.len() implies {
            &&& #[trigger] children_of(head.nodes, 3)[m] == 3 + 1 + m
            &&& head.nodes[3 + 1 + m] == (NodeView {
                parent: Some(3usize),
                tag: "th"@,
                value: ContentView::Inline(cells[m]),
            })
        } by {
            assert(append_cells(table_row, "th"@, cells).nodes[4 + m] == head.nodes[3 + 1 + m]);
        }
    }
    lemma_row_kept(head.nodes, d.nodes, 3, "th"@, cells, 2);
    assert(d.kids().take(1) == seq![3usize]);
    assert(d.kids()[0] == d.kids().take(1)[0]);
}

/// A blank line after table rows ends the table: with a header line `h`, any
/// number of data rows and then a blank line, the literal `text` that follows
/// becomes a paragraph after the table under the root, where the cursor is
/// back; the table keeps exactly the header row and one row per data line.
/// (The tree is taken to have at most `usize::MAX` nodes, as every tree built
/// by `run_ast` has.)
pub proof fn lemma_blank_line_ends_table_rows(
    h: Seq<char>,
    rows: Seq<Seq<char>>,
    text: Seq<char>,
)
    requires
        document_of(
            seq![(TokenType::Literal, h), (TokenType::Suffix, "table"@)] + rows.map_values(
                |r: Seq<char>| (TokenType::Literal, r),
            ) + seq![(TokenType::Suffix, "empty_line"@), (TokenType::Literal, text)],
        ).nodes.len() <= usize::MAX,
    ensures
        ({
            let xs = seq![(TokenType::Literal, h), (TokenType::Suffix, "table"@)];
            let rs = rows.map_values(|r: Seq<char>| (TokenType::Literal, r));
            let head = document_of(xs);
            let body = document_of(xs + rs);
            let d = document_of(
                xs + rs + seq![(TokenType::Suffix, "empty_line"@), (TokenType::Literal, text)],
            );
            let k = body.nodes.len();
            &&& head.curr_tag() == "table"@
            &&& d.curr == 0
            &&& children_of(d.nodes, 0) == children_of(head.nodes, 0).push(k as usize)
            &&& d.nodes[k as int] == (NodeView {
                parent: Some(0),
                tag: "p"@,
                value: ContentView::Inline(text),
            })
            &&& children_of(d.nodes, head.curr as int).len() == 1 + rows.len()
        }),
{
    reveal_strlit("table");
    reveal_strlit("html");
    reveal_strlit("empty_line");
    reveal_strlit("h1");
    reveal_strlit("h2");
    reveal_strlit("h3");
    reveal_strlit("h4");
    reveal_strlit("h5");
    reveal_strlit("h6");
    let xs = seq![(TokenType::Literal, h), (TokenType::Suffix, "table"@)];
    let rs = rows.map_values(|r: Seq<char>| (TokenType::Literal, r));
    let tail = seq![(TokenType::Suffix, "empty_line"@), (TokenType::Literal, text)];
    let all = xs + rs + tail;

    // The header: a paragraph, then taken into the first row of a new table.
    let b1 = build_from(seq![(TokenType::Literal, h)]);
    assert(seq![(TokenType::Literal, h)].drop_last() =~= Seq::<(TokenType, Seq<char>)>::empty());
    assert("html"@.len() == 4);
    assert("table"@.len() == 5);
    assert(TreeView::initial().curr_tag() == "html"@);
    assert(TreeView::initial().curr_tag() != "table"@);
    assert(build_from(Seq::<(TokenType, Seq<char>)>::empty()).tree == TreeView::initial());
    assert(build_from(Seq::<(TokenType, Seq<char>)>::empty()).state == TreeState::Start);
    assert(b1.tree == TreeView::initial().append_text("p"@, h));
    assert(xs.drop_last() =~= seq![(TokenType::Literal, h)]);
    let taken = b1.tree.take_last_child_text();
    assert(b1.tree.last_child_text() == Some(h));
    let table_row = taken.append_container("table"@).append_container("tr"@);
    lemma_append_cells_frame(table_row, "th"@, cells_of(h));
    let head = document_of(xs);
    assert(head == append_cells(table_row, "th"@, cells_of(h)).ascend());
    assert(head.curr == 2);
    assert(head.nodes[0] == table_row.nodes[0]);
    assert(children_of(head.nodes, 0) == seq![2usize]);
    assert(head.kids().len() == 1);

    // The data rows stay inside the table.
    let body_toks = xs + rs;
    assert(all.drop_last().drop_last() =~= body_toks);
    assert(all.drop_last() =~= body_toks.push((TokenType::Suffix, "empty_line"@)));
    assert(body_toks.push((TokenType::Suffix, "empty_line"@)).drop_last() =~= body_toks);
    assert(rs.take(rows.len() as int) =~= rs);
    lemma_build_in_range(body_toks);
    lemma_build_in_range(all.drop_last());
    lemma_step_in_range(build_from(body_toks), (TokenType::Suffix, "empty_line"@));
    lemma_step_in_range(build_from(all.drop_last()), (TokenType::Literal, text));
    assert(all.last() == (TokenType::Literal, text));
    lemma_rows_stay_in_table(xs, rows, rows.len() as int);
    let body = build_from(body_toks);
    let closed = build_from(all.drop_last());
    assert(closed.tree == body.tree.ascend());
    assert(closed.tree.curr == 0);
    assert(closed.tree.nodes == body.tree.nodes);
    assert(body.tree.nodes[0] == head.nodes[0]);
    assert(closed.state == TreeState::Start);
    assert(document_of(all) == closed.tree.append_text("p"@, text));
}

/// The document that `tokens` build.
pub open spec fn document_of(tokens: Seq<(TokenType, Seq<char>)>) -> TreeView {
    build_from(tokens).tree
}

fn insert_cells(tree: &mut Tree, tag: &str, cells: Vec<String>)
    requires
        old(tree)@.wf(),
    ensures
        final(tree)@ == append_cells(old(tree)@, tag@, string_views(cells@)),
        final(tree)@.wf(),
{
    let ghost start = tree@;
    let ghost views = string_views(cells@);
    let mut k: usize = 0;
    while k < cells.len()
        invariant
            tree@.wf(),
            k <= cells@.len(),
            views == string_views(cells@),
            tree@ == append_cells(start, tag@, views.take(k as int)),
        decreases cells@.len() - k,
    {
        let mut t = String::from_str(tag);
        let mut text = cells[k].clone();
        tree.insert_leaf(&mut t, &mut text);
        assert(views.take(k + 1).drop_last() =~= views.take(k as int));
        k = k + 1;
    }
    assert(views.take(k as int) =~= views);
}

fn insert_row(tree: &mut Tree, line: &String)
    requires
        old(tree)@.wf(),
    ensures
        final(tree)@ == add_row(old(tree)@, line@),
        final(tree)@.wf(),
{
    tree.insert_branch(&mut String::from_str("tr"));
    insert_cells(tree, "td", split_cells(line.as_str()));
    tree.curr_up();
}

fn insert_table(tree: &mut Tree, header: Option<String>)
    requires
        old(tree)@.wf(),
    ensures
        final(tree)@ == open_table(old(tree)@, match header {
            Some(h) => Some(h@),
            None => None,
        }),
        final(tree)@.wf(),
{
    tree.insert_branch(&mut String::from_str("table"));
    tree.insert_branch(&mut String::from_str("tr"));
    if let Some(h) = header {
        insert_cells(tree, "th", split_cells(h.as_str()));
    }
    tree.curr_up();
}

fn is_heading(v: &String) -> (r: bool)
    ensures
        r == is_heading_tag(v@),
{
    same_text(v, "h1") || same_text(v, "h2") || same_text(v, "h3") || same_text(v, "h4")
        || same_text(v, "h5") || same_text(v, "h6")
}

fn apply_suffix(tree: &mut Tree, v: &String)
    requires
        old(tree)@.wf(),
    ensures
        final(tree)@ == after_suffix(old(tree)@, v@),
        final(tree)@.wf(),
{
    if same_text(v, "empty_line") {
        if tree.curr_tag_is("table") {
            tree.curr_up();
        }
    } else if is_heading(v) {
        if tree.last_child_is_paragraph() {
            tree.retag_last_child(v.clone());
        }
    } else if same_text(v, "table") {
        let header = tree.take_last_child_text();
        insert_table(tree, header);
    }
}

/// Builds the document of a token stream in one forward pass.
pub fn run_ast(token_vec: Vec<Token>) -> (r: Tree)
    ensures
        r@ == document_of(token_views(token_vec@)),
        r@.wf(),
{
    let ghost tokens = token_views(token_vec@);
    let mut tree = Tree::build();
    let mut state = TreeState::Start;
    let mut pending = String::new();
    let mut i: usize = 0;
    while i < token_vec.len()
        invariant
            tree@.wf(),
            i <= token_vec@.len(),
            tokens == token_views(token_vec@),
            (BuildView { tree: tree@, state, pending: pending@ }) == build_from(tokens.take(i as int)),
        decreases token_vec@.len() - i,
    {
        let token = &token_vec[i];
        match token.token_type {
            TokenType::Prefix => {
                pending = token.value.clone();
                state = TreeState::AfterPrefix;
            },
            TokenType::Literal => {
                if state == TreeState::AfterPrefix {
                    tree.insert_leaf(&mut pending.clone(), &mut token.value.clone());
                } else if tree.curr_tag_is("table") {
                    insert_row(&mut tree, &token.value);
                } else {
                    tree.insert_leaf(&mut String::from_str("p"), &mut token.value.clone());
                }
                state = TreeState::AfterLiteral;
            },
            TokenType::Suffix => {
                apply_suffix(&mut tree, &token.value);
                state = TreeState::Start;
            },
        }
        assert(tokens.take(i + 1).drop_last() =~= tokens.take(i as int));
        i = i + 1;
    }
    assert(tokens.take(i as int) =~= tokens);
    tree
}

fn push_indent(out: &mut String, depth: usize)
    ensures
        final(out)@ == old(out)@ + indent(depth as nat),
{
    let ghost start = out@;
    let mut k: usize = 0;
    while k < depth
        invariant
            k <= depth,
            out@ == start + indent(k as nat),
        decreases depth - k,
    {
        out.append("    ");
        k = k + 1;
        assert(out@ =~= start + indent(k as nat));
    }
}

fn push_open(out: &mut String, depth: usize, tag: &String)
    ensures
        final(out)@ == old(out)@ + "\n"@ + line_text(Line::Open { depth: depth as nat, tag: tag@ }),
{
    let ghost start = out@;
    out.append("\n");
    push_indent(out, depth);
    out.append("<");
    out.append(tag.as_str());
    out.append(">");
    assert(out@ =~= start + "\n"@ + line_text(Line::Open { depth: depth as nat, tag: tag@ }));
}

fn push_close(out: &mut String, depth: usize, tag: &String)
    ensures
        final(out)@ == old(out)@ + "\n"@ + line_text(Line::Close { depth: depth as nat, tag: tag@ }),
{
    let ghost start = out@;
    out.append("\n");
    push_indent(out, depth);
    out.append("</");
    out.append(tag.as_str());
    out.append(">");
    assert(out@ =~= start + "\n"@ + line_text(Line::Close { depth: depth as nat, tag: tag@ }));
}

fn push_text(out: &mut String, depth: usize, tag: &String, text: &String)
    ensures
        final(out)@ == old(out)@ + "\n"@ + line_text(
            Line::Text { depth: depth as nat, tag: tag@, text: text@ },
        ),
{
    let ghost start = out@;
    out.append("\n");
    push_indent(out, depth);
    if tag.as_str().is_empty() {
        out.append(text.as_str());
    } else {
        out.append("<");
        out.append(tag.as_str());
        out.append(">");
        out.append(text.as_str());
        out.append("</");
        out.append(tag.as_str());
        out.append(">");
    }
    assert(out@ =~= start + "\n"@ + line_text(
        Line::Text { depth: depth as nat, tag: tag@, text: text@ },
    ));
}

impl Tree {
    fn render_node(&self, i: usize, depth: usize, out: &mut String)
        requires
            self@.wf(),
            i < self@.nodes.len(),
            depth <= i,
        ensures
            final(out)@ == old(out)@ + broken(node_lines(self@.nodes, i as int, depth as nat)),
        decreases self@.nodes.len() - i, 1nat,
    {
        let ghost start = out@;
        let ghost nodes = self@.nodes;
        let node = &self.nodes[i];
        match &node.value {
            Content::Inline(text) => {
                push_text(out, depth, &node.tag, text);
                proof {
                    lemma_broken_one(Line::Text { depth: depth as nat, tag: node.tag@, text: text@ });
                }
            },
            Content::Children(kids) => {
                let ghost open = Line::Open { depth: depth as nat, tag: node.tag@ };
                let ghost close = Line::Close { depth: depth as nat, tag: node.tag@ };
                let ghost mid = kids_lines(nodes, i as int, kids@, (depth + 1) as nat);
                push_open(out, depth, &node.tag);
                self.render_kids(i, depth + 1, out);
                push_close(out, depth, &node.tag);
                proof {
                    lemma_broken_one(open);
                    lemma_broken_one(close);
                    lemma_broken_concat(seq![open], mid);
                    lemma_broken_concat(seq![open] + mid, seq![close]);
                }
                assert(out@ =~= start + broken(node_lines(nodes, i as int, depth as nat)));
            },
        }
    }

    fn render_kids(&self, i: usize, depth: usize, out: &mut String)
        requires
            self@.wf(),
            i < self@.nodes.len(),
            depth <= i + 1,
        ensures
            final(out)@ == old(out)@ + broken(
                kids_lines(self@.nodes, i as int, children_of(self@.nodes, i as int), depth as nat),
            ),
        decreases self@.nodes.len() - i, 0nat,
    {
        let ghost start = out@;
        let ghost nodes = self@.nodes;
        let node = &self.nodes[i];
        match &node.value {
            Content::Children(kids) => {
                let ghost ks = kids@;
                assert(ks == children_of(nodes, i as int));
                let mut k: usize = 0;
                while k < kids.len()
                    invariant
                        self@.wf(),
                        nodes == self@.nodes,
                        i < nodes.len(),
                        depth <= i + 1,
                        ks == kids@,
                        ks == children_of(nodes, i as int),
                        k <= ks.len(),
                        out@ == start + broken(kids_lines(nodes, i as int, ks.take(k as int), depth as nat)),
                    decreases ks.len() - k,
                {
                    let c = kids[k];
                    assert(i < ks[k as int] < nodes.len());
                    self.render_node(c, depth, out);
                    assert(ks.take(k + 1).drop_last() =~= ks.take(k as int));
                    let ghost before = kids_lines(nodes, i as int, ks.take(k as int), depth as nat);
                    proof {
                        lemma_broken_concat(before, node_lines(nodes, c as int, depth as nat));
                    }
                    k = k + 1;
                }
                assert(ks.take(k as int) =~= ks);
            },
            Content::Inline(_) => {
                assert(broken(kids_lines(nodes, i as int, Seq::empty(), depth as nat)) =~= Seq::<char>::empty());
                assert(out@ =~= start + Seq::<char>::empty());
            },
        }
    }

    /// The document as indented HTML: each container as its opening tag, its
    /// children one level (four spaces) deeper, and its closing tag; each leaf
    /// on one line; line breaks between lines and none around the whole.
    pub fn to_string(&self) -> (r: String)
        requires
            self@.wf(),
        ensures
            r@ == html_of(self@),
    {
        let ghost nodes = self@.nodes;
        let root = &self.nodes[0];
        let mut out = String::new();
        out.append("<");
        out.append(root.tag.as_str());
        out.append(">");
        let ghost open = Line::Open { depth: 0, tag: root.tag@ };
        let ghost close = Line::Close { depth: 0, tag: root.tag@ };
        assert(out@ =~= line_text(open));
        self.render_kids(0, 1, &mut out);
        push_close(&mut out, 0, &root.tag);
        let ghost mid = kids_lines(nodes, 0, children_of(nodes, 0), 1);
        proof {
            lemma_broken_one(close);
            lemma_broken_concat(mid, seq![close]);
            let ls = tree_lines(self@);
            assert(ls =~= seq![open] + mid + seq![close]);
            assert(ls.drop_first() =~= mid + seq![close]);
        }
        assert(out@ =~= html_of(self@));
        out
    }
}

} // verus!