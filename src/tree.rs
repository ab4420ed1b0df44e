//! The arena that owns every node of one parsed document or fragment.
//!
//! Nodes are stored in document order. Each node records its parent, the end of its
//! subtree (the subtree of `i` is the index range `i .. end(i)`), its previous sibling
//! and its last child; its first child is `i + 1` and its next sibling is `end(i)`.

use vstd::prelude::*;
use crate::node::{Attribute, Doctype, NodeData, NodeKind, ProcessingInstruction, QualName};

verus! {

/// A parsed document or fragment.
pub struct Html {
    kinds: Vec<NodeKind>,
    parents: Vec<Option<usize>>,
    ends: Vec<usize>,
    prevs: Vec<Option<usize>>,
    lasts: Vec<Option<usize>>,
}

impl Html {
    /// The number of nodes.
    pub closed spec fn len(&self) -> int {
        self.kinds@.len() as int
    }

    /// What node `i` holds.
    pub closed spec fn kind(&self, i: int) -> NodeKind {
        self.kinds@[i]
    }

    /// The parent of node `i`.
    pub closed spec fn parent(&self, i: int) -> Option<usize> {
        self.parents@[i]
    }

    /// The end of the subtree of node `i`: its descendants are the nodes after `i`
    /// and before this index.
    pub closed spec fn end(&self, i: int) -> int {
        self.ends@[i] as int
    }

    /// The previous sibling of node `i`.
    pub closed spec fn prev(&self, i: int) -> Option<usize> {
        self.prevs@[i]
    }

    /// The last child of node `i`.
    pub closed spec fn last(&self, i: int) -> Option<usize> {
        self.lasts@[i]
    }

    closed spec fn columns_agree(&self) -> bool {
        &&& self.parents@.len() == self.kinds@.len()
        &&& self.ends@.len() == self.kinds@.len()
        &&& self.prevs@.len() == self.kinds@.len()
        &&& self.lasts@.len() == self.kinds@.len()
    }

    /// A finished tree: the root at index 0, nodes in document order, each subtree a
    /// range of indices that holds exactly the root's descendants.
    pub open spec fn wf(&self) -> bool {
        &&& self.columns_ok()
        &&& self.len() > 0
        &&& (self.kind(0) is Document || self.kind(0) is Fragment)
        &&& self.parent(0) is None
        &&& self.end(0) == self.len()
        &&& forall|i: int|
            0 < i < self.len() ==> {
                &&& #[trigger] self.parent(i) is Some
                &&& (self.parent(i)->0 as int) < i
                &&& !(self.kind(i) is Document)
                &&& !(self.kind(i) is Fragment)
            }
        &&& forall|i: int| 0 <= i < self.len() ==> i < #[trigger] self.end(i) <= self.len()
        &&& forall|i: int, k: int|
            #![trigger self.end(i), self.parent(k)]
            0 <= i < self.len() && i < k < self.end(i) ==> i <= self.parent(k)->0
        &&& forall|i: int, k: int|
            #![trigger self.end(i), self.end(k)]
            0 <= i < self.len() && i < k < self.end(i) ==> self.end(k) <= self.end(i)
        &&& forall|k: int| 0 < k < self.len() ==> k < self.end(#[trigger] self.parent(k)->0 as int)
        &&& forall|k: int| 0 <= k < self.len() ==> (#[trigger] self.prev(k) matches Some(q) ==> (q as int) < k)
        &&& forall|i: int|
            0 <= i < self.len() ==> (#[trigger] self.last(i) matches Some(c) ==> i < (c as int) < self.end(i))
        &&& forall|i: int| 0 <= i < self.len() ==> (#[trigger] self.kind(i) matches NodeKind::Element(d) ==> d.wf())
        &&& forall|i: int|
            0 <= i < self.len() ==> match #[trigger] self.last(i) {
                Some(c) => self.parent(c as int) == Some(i as usize) && self.end(c as int) == self.end(i),
                None => self.end(i) == i + 1,
            }
        &&& forall|k: int|
            0 <= k < self.len() ==> match #[trigger] self.prev(k) {
                Some(q) => self.parent(q as int) == self.parent(k) && self.end(q as int) == k,
                None => k == 0 || self.parent(k) == Some((k - 1) as usize),
            }
    }

    /// The storage columns have one entry per node.
    pub closed spec fn columns_ok(&self) -> bool {
        self.columns_agree()
    }
}

impl Html {
    /// The number of nodes.
    pub fn node_count(&self) -> (r: usize)
        requires
            self.wf(),
        ensures
            r == self.len(),
    {
        self.kinds.len()
    }

    /// What node `i` holds.
    pub fn kind_at(&self, i: usize) -> (r: &NodeKind)
        requires
            self.wf(),
            i < self.len(),
        ensures
            *r == self.kind(i as int),
    {
        &self.kinds[i]
    }

    /// The parent of node `i`.
    pub fn parent_at(&self, i: usize) -> (r: Option<usize>)
        requires
            self.wf(),
            i < self.len(),
        ensures
            r == self.parent(i as int),
    {
        self.parents[i]
    }

    /// The end of the subtree of node `i`.
    pub fn end_at(&self, i: usize) -> (r: usize)
        requires
            self.wf(),
            i < self.len(),
        ensures
            r == self.end(i as int),
    {
        self.ends[i]
    }

    /// The previous sibling of node `i`.
    pub fn prev_at(&self, i: usize) -> (r: Option<usize>)
        requires
            self.wf(),
            i < self.len(),
        ensures
            r == self.prev(i as int),
    {
        self.prevs[i]
    }

    /// The last child of node `i`.
    pub fn last_at(&self, i: usize) -> (r: Option<usize>)
        requires
            self.wf(),
            i < self.len(),
        ensures
            r == self.last(i as int),
    {
        self.lasts[i]
    }

    /// The first child of node `i`: the node right after it, when its subtree holds more.
    pub open spec fn first_child(&self, i: int) -> Option<usize> {
        if self.end(i) > i + 1 { Some((i + 1) as usize) } else { None }
    }

    /// The next sibling of node `i`: the node right after its subtree, when that is
    /// still inside the parent's subtree.
    pub open spec fn next_sibling(&self, i: int) -> Option<usize> {
        match self.parent(i) {
            Some(p) => if self.end(i) < self.end(p as int) { Some(self.end(i) as usize) } else { None },
            None => None,
        }
    }
}

/// A tree's node count fits in a `usize`.
pub proof fn lemma_len_fits(h: Html)
    ensures
        h.len() <= usize::MAX,
{
    assert(h.kinds@.len() == h.kinds.len());
}

/// The first child of a node is a child of it.
pub proof fn lemma_first_child(h: Html, i: int)
    requires
        h.wf(),
        0 <= i < h.len(),
        h.first_child(i) is Some,
    ensures
        h.parent(i + 1) == Some(i as usize),
{
    assert(i <= h.parent(i + 1)->0);
    assert(h.parent(i + 1) is Some);
}

/// The next sibling of a node has the same parent.
pub proof fn lemma_next_sibling(h: Html, c: int)
    requires
        h.wf(),
        0 <= c < h.len(),
        h.next_sibling(c) is Some,
    ensures
        h.parent(h.end(c)) == h.parent(c),
        c < h.end(c) < h.len(),
{
    let p = h.parent(c)->0 as int;
    let e = h.end(c);
    assert(0 < c);
    assert(h.end(p) <= h.len());
    assert(p < e < h.end(p));
    assert(p <= h.parent(e)->0);
    let q = h.parent(e)->0 as int;
    assert(h.parent(e) is Some);
    assert(e < h.end(q));
    if q != p {
        if c <= q {
            if q > c {
                assert(h.end(q) <= h.end(c));
            }
        } else {
            assert(q < c < h.end(q));
            assert(q <= h.parent(c)->0);
        }
    }
}

/// Builds a tree from the events of an HTML tree builder: nodes are appended to the
/// element that is open innermost, and elements are opened and closed in turn. An open
/// node has end 0 until it is closed.
pub struct TreeBuilder {
    tree: Html,
    open: Vec<usize>,
}

impl TreeBuilder {
    /// The tree built so far.
    pub closed spec fn tree(&self) -> Html {
        self.tree
    }

    /// The open nodes, outermost first; the root is open until the tree is finished.
    pub closed spec fn open_nodes(&self) -> Seq<usize> {
        self.open@
    }

    /// The node that receives the next append.
    pub open spec fn current(&self) -> int {
        self.open_nodes().last() as int
    }

    /// The builder's invariant.
    pub open spec fn inv(&self) -> bool {
        let t = self.tree();
        let o = self.open_nodes();
        &&& t.columns_ok()
        &&& t.len() > 0
        &&& (t.kind(0) is Document || t.kind(0) is Fragment)
        &&& t.parent(0) is None
        &&& forall|i: int|
            0 < i < t.len() ==> {
                &&& #[trigger] t.parent(i) is Some
                &&& (t.parent(i)->0 as int) < i
                &&& !(t.kind(i) is Document)
                &&& !(t.kind(i) is Fragment)
            }
        &&& forall|i: int| 0 <= i < t.len() && #[trigger] t.end(i) > 0 ==> i < t.end(i) <= t.len()
        &&& forall|i: int, k: int|
            #![trigger t.end(i), t.parent(k)]
            0 <= i < t.len() && i < k < t.end(i) ==> i <= t.parent(k)->0
        &&& forall|i: int, k: int|
            #![trigger t.end(i), t.end(k)]
            0 <= i < t.len() && i < k < t.end(i) ==> 0 < t.end(k) <= t.end(i)
        &&& forall|k: int|
            0 < k < t.len() && t.end(#[trigger] t.parent(k)->0 as int) > 0 ==> k < t.end(t.parent(k)->0 as int)
        &&& forall|k: int| 0 <= k < t.len() ==> (#[trigger] t.prev(k) matches Some(q) ==> (q as int) < k)
        &&& forall|i: int|
            0 <= i < t.len() ==> (#[trigger] t.last(i) matches Some(c) ==> i < (c as int) < t.len()
                && (t.end(i) > 0 ==> (c as int) < t.end(i)))
        &&& forall|i: int| 0 <= i < t.len() ==> (#[trigger] t.kind(i) matches NodeKind::Element(d) ==> d.wf())
        &&& forall|i: int| 0 <= i < t.len() && #[trigger] t.end(i) == 0 ==> o.contains(i as usize)
        &&& o.len() >= 1
        &&& o[0] == 0
        &&& forall|j: int, k: int| 0 <= j < k < o.len() ==> #[trigger] o[j] < #[trigger] o[k]
        &&& forall|j: int| 0 <= j < o.len() ==> (#[trigger] o[j] as int) < t.len() && t.end(o[j] as int) == 0
        &&& forall|j: int, k: int|
            #![trigger o[j], t.parent(k)]
            0 <= j < o.len() && o[j] < k < t.len() ==> o[j] <= t.parent(k)->0
        &&& self.links_inv()
    }

    /// The sibling links: a last child ends with its parent once the parent is closed;
    /// an open node other than the current one has the next open node as last child;
    /// the current node's last child, if any, ends here; a previous sibling ends
    /// where the node starts.
    pub open spec fn links_inv(&self) -> bool {
        let t = self.tree();
        let o = self.open_nodes();
        &&& forall|i: int|
            0 <= i < t.len() ==> match #[trigger] t.last(i) {
                Some(c) => t.parent(c as int) == Some(i as usize) && (t.end(i) > 0 ==> t.end(c as int) == t.end(i)),
                None => t.end(i) > 0 ==> t.end(i) == i + 1,
            }
        &&& forall|j: int| 0 <= j < o.len() - 1 ==> t.last(#[trigger] o[j] as int) == Some(o[j + 1])
        &&& match t.last(o.last() as int) {
            Some(c) => t.end(c as int) == t.len(),
            None => o.last() + 1 == t.len(),
        }
        &&& forall|k: int|
            0 <= k < t.len() ==> match #[trigger] t.prev(k) {
                Some(q) => t.parent(q as int) == t.parent(k) && t.end(q as int) == k,
                None => k == 0 || t.parent(k) == Some((k - 1) as usize),
            }
    }

    /// A builder for a document.
    pub fn new_document() -> (r: TreeBuilder)
        ensures
            r.inv(),
            r.tree().len() == 1,
            r.tree().kind(0) is Document,
            r.open_nodes() == seq![0usize],
    {
        TreeBuilder::with_root(NodeKind::Document)
    }

    /// A builder for a fragment.
    pub fn new_fragment() -> (r: TreeBuilder)
        ensures
            r.inv(),
            r.tree().len() == 1,
            r.tree().kind(0) is Fragment,
            r.open_nodes() == seq![0usize],
    {
        TreeBuilder::with_root(NodeKind::Fragment)
    }

    fn with_root(root: NodeKind) -> (r: TreeBuilder)
        requires
            root is Document || root is Fragment,
        ensures
            r.inv(),
            r.tree().len() == 1,
            r.tree().kind(0) == root,
            r.open_nodes() == seq![0usize],
    {
        let mut kinds: Vec<NodeKind> = Vec::new();
        kinds.push(root);
        let mut parents: Vec<Option<usize>> = Vec::new();
        parents.push(None);
        let mut ends: Vec<usize> = Vec::new();
        ends.push(0);
        let mut prevs: Vec<Option<usize>> = Vec::new();
        prevs.push(None);
        let mut lasts: Vec<Option<usize>> = Vec::new();
        lasts.push(None);
        let mut open: Vec<usize> = Vec::new();
        open.push(0);
        let r = TreeBuilder { tree: Html { kinds, parents, ends, prevs, lasts }, open };
        assert(r.tree().len() == 1);
        assert(r.tree().end(0) == 0);
        assert(r.tree().last(0) is None);
        assert(r.tree().prev(0) is None);
        assert(r.tree().kind(0) == root);
        assert(r.tree().columns_ok());
        assert(r.open_nodes() =~= seq![0usize]);
        assert(r.open_nodes()[0] == 0usize);
        assert(r.open_nodes().contains(0usize));
        r
    }

    /// The number of open nodes, the root included.
    pub fn depth(&self) -> (r: usize)
        ensures
            r == self.open_nodes().len(),
    {
        self.open.len()
    }

    /// Appends a node under the current node, and makes it the current node if
    /// `enter` holds.
    fn push_node(&mut self, kind: NodeKind, enter: bool)
        requires
            old(self).inv(),
            old(self).tree().len() < usize::MAX - 1,
            !(kind is Document),
            !(kind is Fragment),
            kind matches NodeKind::Element(d) ==> d.wf(),
        ensures
            final(self).inv(),
            final(self).open_nodes() == if enter {
                old(self).open_nodes().push(old(self).tree().len() as usize)
            } else {
                old(self).open_nodes()
            },
            final(self).tree().len() == old(self).tree().len() + 1,
            final(self).tree().kind(old(self).tree().len()) == kind,
            final(self).tree().parent(old(self).tree().len()) == Some(old(self).current() as usize),
            forall|i: int|
                0 <= i < old(self).tree().len() ==> final(self).tree().kind(i) == old(self).tree().kind(i)
                    && final(self).tree().parent(i) == old(self).tree().parent(i),
    {
        let ghost b0 = *self;
        let n = self.tree.kinds.len();
        let t = self.open[self.open.len() - 1];
        let prev = self.tree.lasts[t];
        self.tree.kinds.push(kind);
        self.tree.parents.push(Some(t));
        self.tree.ends.push(if enter { 0 } else { n + 1 });
        self.tree.prevs.push(prev);
        self.tree.lasts.push(None);
        self.tree.lasts.set(t, Some(n));
        if enter {
            self.open.push(n);
        }
        proof {
            lemma_push_stack(b0, *self, kind, enter);
            lemma_push_tree(b0, *self, kind, enter);
            lemma_push_links(b0, *self, kind, enter);
        }
    }
}

impl TreeBuilder {
    /// Closes the current node: its subtree ends here.
    fn close_top(&mut self)
        requires
            old(self).inv(),
        ensures
            final(self).open_nodes() == old(self).open_nodes().drop_last(),
            final(self).tree().len() == old(self).tree().len(),
            forall|i: int|
                0 <= i < old(self).tree().len() ==> final(self).tree().kind(i) == old(self).tree().kind(i)
                    && final(self).tree().parent(i) == old(self).tree().parent(i),
            final(self).tree().end(old(self).current()) == old(self).tree().len(),
            old(self).open_nodes().len() > 1 ==> final(self).inv(),
            old(self).open_nodes().len() == 1 ==> final(self).tree().wf(),
    {
        let ghost b0 = *self;
        let n = self.tree.kinds.len();
        let t = self.open.pop().unwrap();
        self.tree.ends.set(t, n);
        proof {
            lemma_close(b0, *self, n);
        }
    }

    /// Appends a doctype under the current node.
    pub fn append_doctype(&mut self, name: String, public_id: String, system_id: String)
        requires
            old(self).inv(),
            old(self).tree().len() < usize::MAX - 1,
        ensures
            final(self).inv(),
            final(self).open_nodes() == old(self).open_nodes(),
            final(self).tree().len() == old(self).tree().len() + 1,
            final(self).tree().kind(old(self).tree().len()) == NodeKind::Doctype(
                Doctype { name, public_id, system_id },
            ),
            final(self).tree().parent(old(self).tree().len()) == Some(old(self).current() as usize),
            forall|i: int|
                0 <= i < old(self).tree().len() ==> final(self).tree().kind(i) == old(self).tree().kind(i)
                    && final(self).tree().parent(i) == old(self).tree().parent(i),
    {
        self.push_node(NodeKind::Doctype(Doctype { name, public_id, system_id }), false);
    }

    /// Appends a comment under the current node.
    pub fn append_comment(&mut self, text: String)
        requires
            old(self).inv(),
            old(self).tree().len() < usize::MAX - 1,
        ensures
            final(self).inv(),
            final(self).open_nodes() == old(self).open_nodes(),
            final(self).tree().len() == old(self).tree().len() + 1,
            final(self).tree().kind(old(self).tree().len()) == NodeKind::Comment(text),
            final(self).tree().parent(old(self).tree().len()) == Some(old(self).current() as usize),
            forall|i: int|
                0 <= i < old(self).tree().len() ==> final(self).tree().kind(i) == old(self).tree().kind(i)
                    && final(self).tree().parent(i) == old(self).tree().parent(i),
    {
        self.push_node(NodeKind::Comment(text), false);
    }

    /// Appends a processing instruction under the current node.
    pub fn append_processing_instruction(&mut self, target: String, data: String)
        requires
            old(self).inv(),
            old(self).tree().len() < usize::MAX - 1,
        ensures
            final(self).inv(),
            final(self).open_nodes() == old(self).open_nodes(),
            final(self).tree().len() == old(self).tree().len() + 1,
            final(self).tree().kind(old(self).tree().len()) == NodeKind::ProcessingInstruction(
                ProcessingInstruction { target, data },
            ),
            final(self).tree().parent(old(self).tree().len()) == Some(old(self).current() as usize),
            forall|i: int|
                0 <= i < old(self).tree().len() ==> final(self).tree().kind(i) == old(self).tree().kind(i)
                    && final(self).tree().parent(i) == old(self).tree().parent(i),
    {
        self.push_node(NodeKind::ProcessingInstruction(ProcessingInstruction { target, data }), false);
    }

    /// Appends text under the current node; text that follows a text node directly
    /// joins it.
    pub fn append_text(&mut self, text: String)
        requires
            old(self).inv(),
            old(self).tree().len() < usize::MAX - 1,
        ensures
            final(self).inv(),
            final(self).open_nodes() == old(self).open_nodes(),
            forall|i: int|
                0 <= i < old(self).tree().len() && Some(i as usize) != old(self).tree().last(old(self).current())
                    ==> final(self).tree().kind(i) == old(self).tree().kind(i),
            forall|i: int|
                0 <= i < old(self).tree().len() ==> final(self).tree().parent(i) == old(self).tree().parent(i),
            match old(self).tree().last(old(self).current()) {
                Some(c) if old(self).tree().kind(c as int) is Text => {
                    &&& final(self).tree().len() == old(self).tree().len()
                    &&& final(self).tree().kind(c as int) matches NodeKind::Text(s)
                        && s@ == old(self).tree().kind(c as int)->Text_0@ + text@
                },
                _ => {
                    &&& final(self).tree().len() == old(self).tree().len() + 1
                    &&& final(self).tree().kind(old(self).tree().len()) == NodeKind::Text(text)
                    &&& final(self).tree().parent(old(self).tree().len()) == Some(old(self).current() as usize)
                },
            },
    {
        let t = self.open[self.open.len() - 1];
        let last = self.tree.lasts[t];
        if let Some(c) = last {
            if let NodeKind::Text(s) = &self.tree.kinds[c] {
                let mut joined = s.clone();
                joined.append(text.as_str());
                let ghost b0 = *self;
                proof {
                    let o0 = b0.open_nodes();
                    assert(o0[o0.len() - 1] == t);
                    assert(b0.tree().last(t as int) == Some(c));
                    assert(t < c);
                }
                let ghost new_kind = NodeKind::Text(joined);
                self.tree.kinds.set(c, NodeKind::Text(joined));
                proof {
                    lemma_retext(b0, *self, c as int, new_kind);
                }
                return;
            }
        }
        self.push_node(NodeKind::Text(text), false);
    }

    /// Appends an element under the current node and makes it the current node.
    pub fn open_element(&mut self, name: QualName, attributes: Vec<Attribute>)
        requires
            old(self).inv(),
            old(self).tree().len() < usize::MAX - 1,
        ensures
            final(self).inv(),
            final(self).open_nodes() == old(self).open_nodes().push(old(self).tree().len() as usize),
            final(self).tree().len() == old(self).tree().len() + 1,
            final(self).tree().kind(old(self).tree().len()) matches NodeKind::Element(d) && d.name_view()
                == name@ && d.attrs_spec() == crate::node::merge_attrs(crate::node::attrs_view(attributes@)),
            final(self).tree().parent(old(self).tree().len()) == Some(old(self).current() as usize),
            forall|i: int|
                0 <= i < old(self).tree().len() ==> final(self).tree().kind(i) == old(self).tree().kind(i)
                    && final(self).tree().parent(i) == old(self).tree().parent(i),
    {
        let data = NodeData::new(name, attributes);
        self.push_node(NodeKind::Element(data), true);
    }

    /// Closes the current element; the root stays open.
    pub fn close_element(&mut self)
        requires
            old(self).inv(),
            old(self).open_nodes().len() > 1,
        ensures
            final(self).inv(),
            final(self).open_nodes() == old(self).open_nodes().drop_last(),
            final(self).tree().len() == old(self).tree().len(),
            final(self).tree().end(old(self).current()) == old(self).tree().len(),
            forall|i: int|
                0 <= i < old(self).tree().len() ==> final(self).tree().kind(i) == old(self).tree().kind(i)
                    && final(self).tree().parent(i) == old(self).tree().parent(i),
    {
        self.close_top();
    }

    /// Closes every open node and hands over the finished tree.
    pub fn finish(self) -> (r: Html)
        requires
            self.inv(),
        ensures
            r.wf(),
            r.len() == self.tree().len(),
            forall|i: int| 0 <= i < r.len() ==> r.kind(i) == self.tree().kind(i) && r.parent(i) == self.tree().parent(i),
    {
        let mut b = self;
        while b.open.len() > 1
            invariant
                b.inv(),
                b.tree().len() == self.tree().len(),
                forall|i: int|
                    0 <= i < b.tree().len() ==> b.tree().kind(i) == self.tree().kind(i)
                        && b.tree().parent(i) == self.tree().parent(i),
            decreases b.open_nodes().len(),
        {
            b.close_top();
        }
        b.close_top();
        b.tree
    }
}

/// Replacing the text of a text node keeps the invariant.
proof fn lemma_retext(b0: TreeBuilder, b1: TreeBuilder, c: int, k: NodeKind)
    requires
        b0.inv(),
        0 < c < b0.tree().len(),
        k is Text,
        b1.open@ == b0.open@,
        b1.tree.kinds@ == b0.tree.kinds@.update(c, k),
        b1.tree.parents@ == b0.tree.parents@,
        b1.tree.ends@ == b0.tree.ends@,
        b1.tree.prevs@ == b0.tree.prevs@,
        b1.tree.lasts@ == b0.tree.lasts@,
    ensures
        b1.inv(),
{
    let t0 = b0.tree();
    let t1 = b1.tree();
    let o = b1.open_nodes();
    assert(o == b0.open_nodes());
    assert forall|i: int| 0 <= i < t1.len() implies t1.parent(i) == t0.parent(i) && t1.end(i) == t0.end(i)
        && t1.prev(i) == t0.prev(i) && t1.last(i) == t0.last(i) && (i != c ==> t1.kind(i) == t0.kind(i)) by {}
    assert forall|i: int| 0 <= i < t1.len() implies (#[trigger] t1.kind(i) matches NodeKind::Element(d) ==> d.wf()) by {
        if i != c {
            assert(t0.kind(i) == t1.kind(i));
        }
    }
    assert forall|i: int| 0 < i < t1.len() implies {
        &&& #[trigger] t1.parent(i) is Some
        &&& (t1.parent(i)->0 as int) < i
        &&& !(t1.kind(i) is Document)
        &&& !(t1.kind(i) is Fragment)
    } by {
        assert(t0.parent(i) is Some);
    }
    assert forall|i: int| 0 <= i < t1.len() && #[trigger] t1.end(i) > 0 implies i < t1.end(i) <= t1.len() by {}
    assert forall|i: int, k: int|
        #![trigger t1.end(i), t1.parent(k)]
        0 <= i < t1.len() && i < k < t1.end(i) implies i <= t1.parent(k)->0 by {
        assert(t0.end(i) == t1.end(i));
        assert(t0.parent(k) == t1.parent(k));
    }
    assert forall|i: int, k: int|
        #![trigger t1.end(i), t1.end(k)]
        0 <= i < t1.len() && i < k < t1.end(i) implies 0 < t1.end(k) <= t1.end(i) by {
        assert(t0.end(i) == t1.end(i));
        assert(t0.end(k) == t1.end(k));
    }
    assert forall|k: int|
        0 < k < t1.len() && t1.end(#[trigger] t1.parent(k)->0 as int) > 0 implies k < t1.end(t1.parent(k)->0 as int) by {
        assert(t0.parent(k) is Some);
    }
    assert forall|k: int| 0 <= k < t1.len() implies (#[trigger] t1.prev(k) matches Some(q) ==> (q as int) < k) by {
        assert(t0.prev(k) == t1.prev(k));
    }
    assert forall|i: int| 0 <= i < t1.len() implies (#[trigger] t1.last(i) matches Some(c) ==> i < (c as int) < t1.len()
        && (t1.end(i) > 0 ==> (c as int) < t1.end(i))) by {
        assert(t0.last(i) == t1.last(i));
    }
    assert forall|i: int| 0 <= i < t1.len() && #[trigger] t1.end(i) == 0 implies o.contains(i as usize) by {
        assert(t0.end(i) == 0);
    }
    assert forall|j: int| 0 <= j < o.len() implies (#[trigger] o[j] as int) < t1.len() && t1.end(o[j] as int) == 0 by {}
    assert forall|j: int, k: int|
        #![trigger o[j], t1.parent(k)]
        0 <= j < o.len() && o[j] < k < t1.len() implies o[j] <= t1.parent(k)->0 by {
        assert(t0.parent(k) == t1.parent(k));
    }
    assert(t1.kind(0) == t0.kind(0));
    assert(t1.columns_ok());
    assert forall|i: int|
        0 <= i < t1.len() implies match #[trigger] t1.last(i) {
            Some(c) => t1.parent(c as int) == Some(i as usize) && (t1.end(i) > 0 ==> t1.end(c as int) == t1.end(i)),
            None => t1.end(i) > 0 ==> t1.end(i) == i + 1,
        } by {
        assert(t0.last(i) == t1.last(i));
    }
    assert forall|k: int|
        0 <= k < t1.len() implies match #[trigger] t1.prev(k) {
            Some(q) => t1.parent(q as int) == t1.parent(k) && t1.end(q as int) == k,
            None => k == 0 || t1.parent(k) == Some((k - 1) as usize),
        } by {
        assert(t0.prev(k) == t1.prev(k));
    }
    assert forall|j: int| 0 <= j < o.len() - 1 implies t1.last(#[trigger] o[j] as int) == Some(o[j + 1]) by {
        assert(t0.last(o[j] as int) == t1.last(o[j] as int));
    }
    assert(t1.last(o.last() as int) == t0.last(o.last() as int));
}

/// Closing the current node keeps the invariant; closing the root finishes the tree.
proof fn lemma_close(b0: TreeBuilder, b1: TreeBuilder, n: usize)
    requires
        b0.inv(),
        n == b0.tree.kinds@.len(),
        b1.open@ == b0.open@.drop_last(),
        b1.tree.kinds@ == b0.tree.kinds@,
        b1.tree.parents@ == b0.tree.parents@,
        b1.tree.prevs@ == b0.tree.prevs@,
        b1.tree.lasts@ == b0.tree.lasts@,
        b1.tree.ends@ == b0.tree.ends@.update(b0.current(), n),
    ensures
        b0.open_nodes().len() > 1 ==> b1.inv(),
        b0.open_nodes().len() == 1 ==> b1.tree().wf(),
{
    let t = b0.current();
    let o0 = b0.open_nodes();
    let o = b1.open_nodes();
    let t0 = b0.tree();
    let t1 = b1.tree();
    assert(o0[o0.len() - 1] == t);
    assert forall|j: int| 0 <= j < o0.len() implies (#[trigger] o0[j]) <= t by {
        if j < o0.len() - 1 {
            assert(o0[j] < o0[o0.len() - 1]);
        }
    }
    assert forall|j: int| 0 <= j < o.len() implies o[j] == o0[j] && (#[trigger] o[j]) < t by {
        assert(o0[j] < o0[o0.len() - 1]);
    }
    assert(t1.end(t) == n);
    assert forall|i: int| 0 <= i < n && i != t implies t1.end(i) == t0.end(i) by {}
    assert forall|i: int| 0 <= i < t1.len() && #[trigger] t1.end(i) > 0 implies i < t1.end(i) <= t1.len() by {}
    assert forall|i: int, k: int|
        #![trigger t1.end(i), t1.parent(k)]
        0 <= i < t1.len() && i < k < t1.end(i) implies i <= t1.parent(k)->0 by {
        assert(t1.parent(k) == t0.parent(k));
        if i == t {
            assert(o0[o0.len() - 1] < k < t0.len());
            assert(o0[o0.len() - 1] <= t0.parent(k)->0);
        } else {
            assert(t0.end(i) == t1.end(i));
        }
    }
    assert forall|i: int, k: int|
        #![trigger t1.end(i), t1.end(k)]
        0 <= i < t1.len() && i < k < t1.end(i) implies 0 < t1.end(k) <= t1.end(i) by {
        if i == t {
            if t0.end(k) == 0 {
                assert(o0.contains(k as usize));
                let j = choose|j: int| 0 <= j < o0.len() && o0[j] == k as usize;
                assert(o0[j] <= t);
            }
            assert(k != t);
        } else {
            assert(t1.end(i) == t0.end(i));
            if k == t {
                assert(0 < t0.end(k));
            }
        }
    }
    assert forall|k: int|
        0 < k < t1.len() && t1.end(#[trigger] t1.parent(k)->0 as int) > 0 implies k < t1.end(t1.parent(k)->0 as int) by {
        assert(t0.parent(k) is Some);
    }
    assert forall|i: int| 0 <= i < t1.len() implies (#[trigger] t1.last(i) matches Some(c) ==> i < (c as int) < t1.len()
        && (t1.end(i) > 0 ==> (c as int) < t1.end(i))) by {
        assert(t0.last(i) == t1.last(i));
    }
    assert forall|i: int| 0 <= i < t1.len() && #[trigger] t1.end(i) == 0 implies o.contains(i as usize) by {
        assert(o0.contains(i as usize));
        let j = choose|j: int| 0 <= j < o0.len() && o0[j] == i as usize;
        assert(j != o0.len() - 1);
        assert(o[j] == o0[j]);
    }
    assert forall|j: int, k: int|
        #![trigger o[j], t1.parent(k)]
        0 <= j < o.len() && o[j] < k < t1.len() implies o[j] <= t1.parent(k)->0 by {
        assert(o[j] == o0[j]);
        assert(t1.parent(k) == t0.parent(k));
        assert(o0[j] <= t0.parent(k)->0);
    }
    assert forall|i: int| 0 <= i < t1.len() implies (#[trigger] t1.kind(i) matches NodeKind::Element(d) ==> d.wf()) by {
        assert(t0.kind(i) == t1.kind(i));
    }
    assert(t1.columns_ok());
    assert forall|i: int| 0 < i < t1.len() implies {
        &&& #[trigger] t1.parent(i) is Some
        &&& (t1.parent(i)->0 as int) < i
        &&& !(t1.kind(i) is Document)
        &&& !(t1.kind(i) is Fragment)
    } by {
        assert(t0.parent(i) is Some);
        assert(t0.kind(i) == t1.kind(i));
    }
    assert forall|k: int| 0 <= k < t1.len() implies (#[trigger] t1.prev(k) matches Some(q) ==> (q as int) < k) by {
        assert(t0.prev(k) == t1.prev(k));
    }
    assert(t1.kind(0) == t0.kind(0));
    assert(t1.parent(0) == t0.parent(0));
    assert forall|i: int| 0 <= i < t1.len() implies t1.last(i) == t0.last(i) && t1.prev(i) == t0.prev(i) by {}
    assert forall|i: int|
        0 <= i < t1.len() implies match #[trigger] t1.last(i) {
            Some(c) => t1.parent(c as int) == Some(i as usize) && (t1.end(i) > 0 ==> t1.end(c as int) == t1.end(i)),
            None => t1.end(i) > 0 ==> t1.end(i) == i + 1,
        } by {
        if let Some(c) = t0.last(i) {
            if i != t && t0.end(i) > 0 {
                assert(t0.end(c as int) == t0.end(i));
            }
        }
    }
    assert forall|k: int|
        0 <= k < t1.len() implies match #[trigger] t1.prev(k) {
            Some(q) => t1.parent(q as int) == t1.parent(k) && t1.end(q as int) == k,
            None => k == 0 || t1.parent(k) == Some((k - 1) as usize),
        } by {
        if let Some(q) = t0.prev(k) {
            assert(t0.end(q as int) == k);
            assert((q as int) < k);
        }
    }
    if o0.len() > 1 {
        assert forall|j: int| 0 <= j < o.len() - 1 implies t1.last(#[trigger] o[j] as int) == Some(o[j + 1]) by {
            assert(o[j] == o0[j] && o[j + 1] == o0[j + 1]);
            assert(t0.last(o0[j] as int) == Some(o0[j + 1]));
        }
        let nt = o0[o0.len() - 2];
        assert(o.last() == nt);
        assert(t0.last(nt as int) == Some(t as usize));
        assert(t1.end(t) == t1.len());
        assert(o[0] == o0[0]);
        assert forall|j: int, k: int| 0 <= j < k < o.len() implies #[trigger] o[j] < #[trigger] o[k] by {
            assert(o[j] == o0[j] && o[k] == o0[k]);
        }
        assert forall|j: int| 0 <= j < o.len() implies (#[trigger] o[j] as int) < t1.len() && t1.end(o[j] as int) == 0 by {
            assert(o[j] == o0[j]);
            assert(o0[j] < t);
        }
    }
    if o0.len() == 1 {
        assert(t == 0);
        assert forall|i: int| 0 <= i < t1.len() implies i < #[trigger] t1.end(i) <= t1.len() by {
            if t1.end(i) == 0 {
                assert(o.contains(i as usize));
            }
        }
        assert forall|i: int, k: int|
            #![trigger t1.end(i), t1.end(k)]
            0 <= i < t1.len() && i < k < t1.end(i) implies t1.end(k) <= t1.end(i) by {
        }
        assert forall|k: int| 0 < k < t1.len() implies k < t1.end(#[trigger] t1.parent(k)->0 as int) by {
            let p = t1.parent(k)->0 as int;
            assert(0 <= p < t1.len());
            if t1.end(p) == 0 {
                assert(o.contains(p as usize));
            }
        }
        assert forall|i: int|
            0 <= i < t1.len() implies (#[trigger] t1.last(i) matches Some(c) ==> i < (c as int) < t1.end(i)) by {
            if t1.end(i) == 0 {
                assert(o.contains(i as usize));
            }
        }
        assert(t1.end(0) == t1.len());
    }
}

/// `b1` is `b0` with `kind` appended under the current node, entered if `enter`.
spec fn pushed(b0: TreeBuilder, b1: TreeBuilder, kind: NodeKind, enter: bool) -> bool {
    let n = b0.tree.kinds@.len();
    let t = b0.open@.last();
    &&& b1.open@ == if enter { b0.open@.push(n as usize) } else { b0.open@ }
    &&& b1.tree.kinds@ == b0.tree.kinds@.push(kind)
    &&& b1.tree.parents@ == b0.tree.parents@.push(Some(t))
    &&& b1.tree.ends@ == b0.tree.ends@.push(if enter { 0 } else { (n + 1) as usize })
    &&& b1.tree.prevs@ == b0.tree.prevs@.push(b0.tree.lasts@[t as int])
    &&& b1.tree.lasts@ == b0.tree.lasts@.push(None).update(t as int, Some(n as usize))
}

proof fn lemma_push_links(b0: TreeBuilder, b1: TreeBuilder, kind: NodeKind, enter: bool)
    requires
        b0.inv(),
        pushed(b0, b1, kind, enter),
        b0.tree().len() < usize::MAX - 1,
    ensures
        b1.links_inv(),
{
    let n = b0.tree.len() as usize;
    let t = b0.current() as usize;
    let o0 = b0.open_nodes();
    let o = b1.open_nodes();
    let t0 = b0.tree();
    let t1 = b1.tree();
    assert(o0[o0.len() - 1] == t);
    assert forall|i: int| 0 <= i < n implies t1.kind(i) == t0.kind(i) && t1.parent(i) == t0.parent(i)
        && t1.end(i) == t0.end(i) && t1.prev(i) == t0.prev(i) && (i != t ==> t1.last(i) == t0.last(i)) by {
    }
    assert(t1.last(t as int) == Some(n));
    assert(t1.last(n as int) is None);
    assert(t1.prev(n as int) == t0.last(t as int));
    assert(t1.parent(n as int) == Some(t));
    assert(t0.end(t as int) == 0);
    assert forall|i: int|
        0 <= i < t1.len() implies match #[trigger] t1.last(i) {
            Some(c) => t1.parent(c as int) == Some(i as usize) && (t1.end(i) > 0 ==> t1.end(c as int) == t1.end(i)),
            None => t1.end(i) > 0 ==> t1.end(i) == i + 1,
        } by {
        if i < n && i != t {
            assert(t0.last(i) == t1.last(i));
            if let Some(c) = t0.last(i) {
                assert((c as int) < n);
            }
        }
    }
    assert forall|j: int| 0 <= j < o.len() - 1 implies t1.last(#[trigger] o[j] as int) == Some(o[j + 1]) by {
        if j < o0.len() - 1 {
            assert(o[j] == o0[j] && o[j + 1] == o0[j + 1]);
            assert(o0[j] < o0[o0.len() - 1]);
            assert(t0.last(o0[j] as int) == Some(o0[j + 1]));
        } else {
            assert(enter);
            assert(o[j] == t);
        }
    }
    if let Some(q) = t0.last(t as int) {
        assert(t0.end(q as int) == n);
        assert(t0.parent(q as int) == Some(t));
    } else {
        assert(t + 1 == n);
    }
    assert forall|k: int|
        0 <= k < t1.len() implies match #[trigger] t1.prev(k) {
            Some(q) => t1.parent(q as int) == t1.parent(k) && t1.end(q as int) == k,
            None => k == 0 || t1.parent(k) == Some((k - 1) as usize),
        } by {
        if k < n {
            assert(t0.prev(k) == t1.prev(k));
            if let Some(q) = t0.prev(k) {
                assert((q as int) < k);
            }
        }
    }
    if enter {
        assert(o.last() == n);
    } else {
        assert(o.last() == t);
    }
}

proof fn lemma_push_stack(b0: TreeBuilder, b1: TreeBuilder, kind: NodeKind, enter: bool)
    requires
        b0.inv(),
        pushed(b0, b1, kind, enter),
        b0.tree().len() < usize::MAX - 1,
    ensures
        ({
            let t = b1.tree();
            let o = b1.open_nodes();
            &&& forall|i: int| 0 <= i < t.len() && #[trigger] t.end(i) == 0 ==> o.contains(i as usize)
            &&& o.len() >= 1
            &&& o[0] == 0
            &&& forall|j: int, k: int| 0 <= j < k < o.len() ==> #[trigger] o[j] < #[trigger] o[k]
            &&& forall|j: int| 0 <= j < o.len() ==> (#[trigger] o[j] as int) < t.len() && t.end(o[j] as int) == 0
            &&& forall|j: int, k: int|
                #![trigger o[j], t.parent(k)]
                0 <= j < o.len() && o[j] < k < t.len() ==> o[j] <= t.parent(k)->0
        }),
{
    let n = b0.tree.len() as usize;
    let t = b0.current() as usize;
    let o0 = b0.open_nodes();
    let o = b1.open_nodes();
    let t0 = b0.tree();
    let t1 = b1.tree();
    assert(o0[o0.len() - 1] == t);
    assert forall|j: int| 0 <= j < o0.len() implies (#[trigger] o0[j]) <= t by {
        if j < o0.len() - 1 {
            assert(o0[j] < o0[o0.len() - 1]);
        }
    }
    assert forall|i: int| 0 <= i < n implies t1.kind(i) == t0.kind(i) && t1.parent(i) == t0.parent(i)
        && t1.end(i) == t0.end(i) && t1.prev(i) == t0.prev(i) && (i != t ==> t1.last(i) == t0.last(i)) by {
    }
    assert forall|j: int| 0 <= j < o.len() implies (#[trigger] o[j] as int) < t1.len() && t1.end(o[j] as int) == 0 by {
        if j < o0.len() {
            assert(o[j] == o0[j]);
        }
    }
    assert forall|i: int| 0 <= i < t1.len() && #[trigger] t1.end(i) == 0 implies o.contains(i as usize) by {
        if i < n {
            assert(o0.contains(i as usize));
            let j = choose|j: int| 0 <= j < o0.len() && o0[j] == i as usize;
            assert(o[j] == o0[j]);
        } else {
            assert(o[o.len() - 1] == n);
        }
    }
    assert forall|j: int, k: int|
        #![trigger o[j], t1.parent(k)]
        0 <= j < o.len() && o[j] < k < t1.len() implies o[j] <= t1.parent(k)->0 by {
        if j < o0.len() {
            assert(o[j] == o0[j]);
            if k < n {
                assert(o0[j] <= t0.parent(k)->0);
            }
        }
    }
    assert forall|j: int, k: int| 0 <= j < k < o.len() implies #[trigger] o[j] < #[trigger] o[k] by {
        if k < o0.len() {
            assert(o[j] == o0[j] && o[k] == o0[k]);
        } else {
            assert(o[j] == o0[j]);
        }
    }
    assert(o[0] == 0);
}

proof fn lemma_push_tree(b0: TreeBuilder, b1: TreeBuilder, kind: NodeKind, enter: bool)
    requires
        b0.inv(),
        pushed(b0, b1, kind, enter),
        b0.tree().len() < usize::MAX - 1,
        !(kind is Document),
        !(kind is Fragment),
        kind matches NodeKind::Element(d) ==> d.wf(),
    ensures
        ({
            let t = b1.tree();
            &&& t.columns_ok()
            &&& t.len() > 0
            &&& (t.kind(0) is Document || t.kind(0) is Fragment)
            &&& t.parent(0) is None
            &&& forall|i: int|
                0 < i < t.len() ==> {
                    &&& #[trigger] t.parent(i) is Some
                    &&& (t.parent(i)->0 as int) < i
                    &&& !(t.kind(i) is Document)
                    &&& !(t.kind(i) is Fragment)
                }
            &&& forall|i: int| 0 <= i < t.len() && #[trigger] t.end(i) > 0 ==> i < t.end(i) <= t.len()
            &&& forall|i: int, k: int|
                #![trigger t.end(i), t.parent(k)]
                0 <= i < t.len() && i < k < t.end(i) ==> i <= t.parent(k)->0
            &&& forall|i: int, k: int|
                #![trigger t.end(i), t.end(k)]
                0 <= i < t.len() && i < k < t.end(i) ==> 0 < t.end(k) <= t.end(i)
            &&& forall|k: int|
                0 < k < t.len() && t.end(#[trigger] t.parent(k)->0 as int) > 0 ==> k < t.end(t.parent(k)->0 as int)
            &&& forall|k: int| 0 <= k < t.len() ==> (#[trigger] t.prev(k) matches Some(q) ==> (q as int) < k)
            &&& forall|i: int|
                0 <= i < t.len() ==> (#[trigger] t.last(i) matches Some(c) ==> i < (c as int) < t.len()
                    && (t.end(i) > 0 ==> (c as int) < t.end(i)))
            &&& forall|i: int| 0 <= i < t.len() ==> (#[trigger] t.kind(i) matches NodeKind::Element(d) ==> d.wf())
        }),
{
    let n = b0.tree.len() as usize;
    let t = b0.current() as usize;
    let o0 = b0.open_nodes();
    let o = b1.open_nodes();
    let t0 = b0.tree();
    let t1 = b1.tree();
    assert(o0[o0.len() - 1] == t);
    assert forall|j: int| 0 <= j < o0.len() implies (#[trigger] o0[j]) <= t by {
        if j < o0.len() - 1 {
            assert(o0[j] < o0[o0.len() - 1]);
        }
    }
    assert forall|i: int| 0 <= i < n implies t1.kind(i) == t0.kind(i) && t1.parent(i) == t0.parent(i)
        && t1.end(i) == t0.end(i) && t1.prev(i) == t0.prev(i) && (i != t ==> t1.last(i) == t0.last(i)) by {
    }
    assert forall|i: int, k: int|
        #![trigger t1.end(i), t1.parent(k)]
        0 <= i < t1.len() && i < k < t1.end(i) implies i <= t1.parent(k)->0 by {
        if i < n {
            assert(t0.end(i) == t1.end(i));
            assert(t0.end(i) > 0 ==> t0.end(i) <= n);
        }
    }
    assert forall|i: int, k: int|
        #![trigger t1.end(i), t1.end(k)]
        0 <= i < t1.len() && i < k < t1.end(i) implies 0 < t1.end(k) <= t1.end(i) by {
        if i < n {
            assert(t0.end(i) == t1.end(i));
            assert(t0.end(i) > 0 ==> t0.end(i) <= n);
            assert(0 < t0.end(k) <= t0.end(i));
        }
    }
    assert forall|k: int|
        0 < k < t1.len() && t1.end(#[trigger] t1.parent(k)->0 as int) > 0 implies k < t1.end(t1.parent(k)->0 as int) by {
        if k < n {
            assert(t0.parent(k) is Some);
        }
    }
    assert forall|i: int| 0 <= i < t1.len() && #[trigger] t1.end(i) > 0 implies i < t1.end(i) <= t1.len() by {
    }
    assert forall|i: int| 0 < i < t1.len() implies {
        &&& #[trigger] t1.parent(i) is Some
        &&& (t1.parent(i)->0 as int) < i
        &&& !(t1.kind(i) is Document)
        &&& !(t1.kind(i) is Fragment)
    } by {
        if i < n {
            assert(t0.parent(i) is Some);
        }
    }
    assert forall|i: int|
        0 <= i < t1.len() implies (#[trigger] t1.last(i) matches Some(c) ==> i < (c as int) < t1.len()
            && (t1.end(i) > 0 ==> (c as int) < t1.end(i))) by {
        if i < n && i != t {
            assert(t0.last(i) == t1.last(i));
        }
    }
    assert forall|k: int| 0 <= k < t1.len() implies (#[trigger] t1.prev(k) matches Some(q) ==> (q as int) < k) by {
        if k < n {
            assert(t0.prev(k) == t1.prev(k));
        }
    }
    assert forall|i: int| 0 <= i < t1.len() implies (#[trigger] t1.kind(i) matches NodeKind::Element(d) ==> d.wf()) by {
        if i < n {
            assert(t0.kind(i) == t1.kind(i));
        }
    }
    assert(t1.columns_ok());
    assert(t1.kind(0) == t0.kind(0));
}

} // verus!
