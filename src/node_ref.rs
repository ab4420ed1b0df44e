//! Handles into a tree, and the navigation that callers and the selector matcher use.

use vstd::prelude::*;
use crate::node::{Doctype, NodeData, NodeKind, ProcessingInstruction};
use crate::tree::{Html, lemma_first_child, lemma_next_sibling};
use crate::text::ascii_ci_eq;

verus! {

/// A node of a tree: the tree and the node's index in it. Copyable, and equal to
/// another handle exactly when both name the same node.
#[derive(Clone, Copy)]
pub struct Node<'a> {
    tree: &'a Html,
    id: usize,
}

impl<'a> Node<'a> {
    /// The tree this handle points into.
    pub closed spec fn doc(&self) -> Html {
        *self.tree
    }

    /// The node's index in document order.
    pub closed spec fn index(&self) -> int {
        self.id as int
    }

    /// The handle points at a node of a finished tree.
    pub open spec fn wf(&self) -> bool {
        self.doc().wf() && 0 <= self.index() < self.doc().len() && self.index() <= usize::MAX
    }

    /// What the node holds.
    pub open spec fn kind(&self) -> NodeKind {
        self.doc().kind(self.index())
    }

    /// Another node of the same tree.
    fn at(&self, i: usize) -> (r: Node<'a>)
        requires
            self.wf(),
            i < self.doc().len(),
        ensures
            r.wf(),
            r.doc() == self.doc(),
            r.index() == i,
    {
        Node { tree: self.tree, id: i }
    }

    /// Two handles on the same node of the same tree are equal.
    pub proof fn lemma_same_node(a: Node<'a>, b: Node<'a>)
        requires
            a.doc() == b.doc(),
            a.index() == b.index(),
        ensures
            a == b,
    {
    }

    /// The handle itself when it points at an element; nothing otherwise.
    pub fn wrap(node: Node<'a>) -> (r: Option<Node<'a>>)
        requires
            node.wf(),
        ensures
            r matches Some(e) ==> e == node && node.kind() is Element,
            r is None ==> !(node.kind() is Element),
    {
        if node.as_kind().is_element() { Some(node) } else { None }
    }

    /// The node at index `i`, if it is an element.
    pub fn element_at(&self, i: usize) -> (r: Option<Node<'a>>)
        requires
            self.wf(),
            i < self.doc().len(),
        ensures
            r matches Some(e) ==> e.wf() && e.doc() == self.doc() && e.index() == i && e.kind() is Element,
            r is None ==> !(self.doc().kind(i as int) is Element),
    {
        let n = self.at(i);
        if n.as_kind().is_element() { Some(n) } else { None }
    }

    /// The tree this handle points into.
    pub fn tree_ref(&self) -> (r: &'a Html)
        ensures
            *r == self.doc(),
    {
        self.tree
    }

    /// The end of this node's subtree.
    pub fn subtree_end(&self) -> (r: usize)
        requires
            self.wf(),
        ensures
            r == self.doc().end(self.index()),
    {
        self.tree.end_at(self.id)
    }

    /// The node's index in document order.
    pub fn id(&self) -> (r: usize)
        ensures
            r == self.index(),
    {
        self.id
    }

    /// Whether two handles name the same node of the same tree.
    pub fn same_node(&self, other: &Node<'a>) -> (r: bool)
        requires
            self.wf(),
            other.wf(),
            self.doc() == other.doc(),
        ensures
            r == (self.index() == other.index()),
    {
        self.id == other.id
    }

    /// What the node holds.
    pub fn as_kind(&self) -> (r: &'a NodeKind)
        requires
            self.wf(),
        ensures
            *r == self.kind(),
    {
        self.tree.kind_at(self.id)
    }

    /// The element payload, if the node is an element.
    pub fn as_data(&self) -> (r: Option<&'a NodeData>)
        requires
            self.wf(),
        ensures
            r matches Some(d) ==> self.kind() == NodeKind::Element(*d),
            r is None ==> !(self.kind() is Element),
    {
        match self.as_kind() {
            NodeKind::Element(e) => Some(e),
            _ => None,
        }
    }

    /// The doctype, if the node is one.
    pub fn as_doctype(&self) -> (r: Option<&'a Doctype>)
        requires
            self.wf(),
        ensures
            r matches Some(d) ==> self.kind() == NodeKind::Doctype(*d),
            r is None ==> !(self.kind() is Doctype),
    {
        match self.as_kind() {
            NodeKind::Doctype(d) => Some(d),
            _ => None,
        }
    }

    /// The text, if the node is text.
    pub fn as_text(&self) -> (r: Option<&'a String>)
        requires
            self.wf(),
        ensures
            r matches Some(t) ==> self.kind() == NodeKind::Text(*t),
            r is None ==> !(self.kind() is Text),
    {
        match self.as_kind() {
            NodeKind::Text(t) => Some(t),
            _ => None,
        }
    }

    /// The processing instruction, if the node is one.
    pub fn as_processing_instruction(&self) -> (r: Option<&'a ProcessingInstruction>)
        requires
            self.wf(),
        ensures
            r matches Some(p) ==> self.kind() == NodeKind::ProcessingInstruction(*p),
            r is None ==> !(self.kind() is ProcessingInstruction),
    {
        match self.as_kind() {
            NodeKind::ProcessingInstruction(p) => Some(p),
            _ => None,
        }
    }

    /// The comment text, if the node is a comment.
    pub fn as_comment(&self) -> (r: Option<&'a String>)
        requires
            self.wf(),
        ensures
            r matches Some(t) ==> self.kind() == NodeKind::Comment(*t),
            r is None ==> !(self.kind() is Comment),
    {
        match self.as_kind() {
            NodeKind::Comment(t) => Some(t),
            _ => None,
        }
    }

    /// Whether the node is an element whose local name is `tag` up to ASCII case.
    pub fn is_a(&self, tag: &str) -> (r: bool)
        requires
            self.wf(),
        ensures
            r == (self.kind() matches NodeKind::Element(d) && ascii_ci_eq(d.name_view().2, tag@)),
    {
        match self.as_data() {
            Some(data) => data.is_a(tag),
            None => false,
        }
    }

    /// The parent node.
    pub fn parent(&self) -> (r: Option<Node<'a>>)
        requires
            self.wf(),
        ensures
            r matches Some(p) ==> p.wf() && p.doc() == self.doc() && self.doc().parent(self.index())
                == Some(p.index() as usize),
            r is None ==> self.doc().parent(self.index()) is None,
    {
        match self.tree.parent_at(self.id) {
            Some(p) => Some(self.at(p)),
            None => None,
        }
    }

    /// The first child.
    pub fn first_child(&self) -> (r: Option<Node<'a>>)
        requires
            self.wf(),
        ensures
            r matches Some(c) ==> c.wf() && c.doc() == self.doc() && Some(c.index() as usize)
                == self.doc().first_child(self.index()) && self.doc().parent(c.index()) == Some(
                self.index() as usize,
            ),
            r is None ==> self.doc().first_child(self.index()) is None,
    {
        let end = self.tree.end_at(self.id);
        if end > self.id + 1 {
            proof {
                lemma_first_child(self.doc(), self.index());
            }
            Some(self.at(self.id + 1))
        } else {
            None
        }
    }

    /// The last child.
    pub fn last_child(&self) -> (r: Option<Node<'a>>)
        requires
            self.wf(),
        ensures
            r matches Some(c) ==> c.wf() && c.doc() == self.doc() && Some(c.index() as usize)
                == self.doc().last(self.index()) && self.doc().parent(c.index()) == Some(self.index() as usize)
                && self.doc().end(c.index()) == self.doc().end(self.index()),
            r is None ==> self.doc().last(self.index()) is None && self.doc().first_child(self.index()) is None,
    {
        match self.tree.last_at(self.id) {
            Some(c) => Some(self.at(c)),
            None => None,
        }
    }

    /// The next sibling.
    pub fn next_sibling(&self) -> (r: Option<Node<'a>>)
        requires
            self.wf(),
        ensures
            r matches Some(c) ==> c.wf() && c.doc() == self.doc() && Some(c.index() as usize)
                == self.doc().next_sibling(self.index()) && self.doc().parent(c.index())
                == self.doc().parent(self.index()) && self.index() < c.index(),
            r is None ==> self.doc().next_sibling(self.index()) is None,
    {
        match self.tree.parent_at(self.id) {
            Some(p) => {
                let end = self.tree.end_at(self.id);
                if end < self.tree.end_at(p) {
                    proof {
                        lemma_next_sibling(self.doc(), self.index());
                    }
                    Some(self.at(end))
                } else {
                    None
                }
            },
            None => None,
        }
    }

    /// The previous sibling.
    pub fn prev_sibling(&self) -> (r: Option<Node<'a>>)
        requires
            self.wf(),
        ensures
            r matches Some(c) ==> c.wf() && c.doc() == self.doc() && Some(c.index() as usize)
                == self.doc().prev(self.index()) && c.index() < self.index() && self.doc().parent(c.index())
                == self.doc().parent(self.index()) && self.doc().end(c.index()) == self.index(),
            r is None ==> self.doc().prev(self.index()) is None && (self.index() == 0 || self.doc().parent(
                self.index(),
            ) == Some((self.index() - 1) as usize)),
    {
        match self.tree.prev_at(self.id) {
            Some(c) => Some(self.at(c)),
            None => None,
        }
    }

    /// The children, in document order: every node whose parent this node is, once.
    pub fn children(&self) -> (r: Vec<Node<'a>>)
        requires
            self.wf(),
        ensures
            forall|k: int|
                0 <= k < r@.len() ==> (#[trigger] r@[k]).wf() && r@[k].doc() == self.doc()
                    && self.doc().parent(r@[k].index()) == Some(self.index() as usize),
            forall|j: int, k: int| 0 <= j < k < r@.len() ==> r@[j].index() < r@[k].index(),
            forall|j: int|
                0 <= j < self.doc().len() && #[trigger] self.doc().parent(j) == Some(self.index() as usize)
                    ==> exists|k: int| 0 <= k < r@.len() && r@[k].index() == j,
            r@.len() > 0 <==> self.doc().first_child(self.index()) is Some,
            r@.len() > 0 ==> Some(r@[0].index() as usize) == self.doc().first_child(self.index()),
    {
        let mut out: Vec<Node<'a>> = Vec::new();
        let mut cur = self.first_child();
        let end = self.tree.end_at(self.id);
        proof {
            let h = self.doc();
            let p = self.index();
            assert forall|j: int|
                0 <= j < h.len() && #[trigger] h.parent(j) == Some(p as usize) implies j < end && p < j by {
                assert(0 < j);
            }
            if cur is None {
                assert(end <= p + 1);
            }
        }
        while cur.is_some()
            invariant
                self.wf(),
                end == self.doc().end(self.index()),
                forall|j: int|
                    0 <= j < self.doc().len() && #[trigger] self.doc().parent(j) == Some(self.index() as usize)
                        ==> j < end && self.index() < j,
                forall|k: int|
                    0 <= k < out@.len() ==> (#[trigger] out@[k]).wf() && out@[k].doc() == self.doc()
                        && self.doc().parent(out@[k].index()) == Some(self.index() as usize),
                forall|j: int, k: int| 0 <= j < k < out@.len() ==> out@[j].index() < out@[k].index(),
                cur matches Some(c) ==> c.wf() && c.doc() == self.doc() && self.doc().parent(c.index())
                    == Some(self.index() as usize) && (out@.len() > 0 ==> out@.last().index() < c.index())
                    && c.index() < end,
                forall|j: int|
                    self.index() < j < (match cur { Some(c) => c.index(), None => end as int })
                        && #[trigger] self.doc().parent(j) == Some(self.index() as usize) ==> exists|k: int|
                        0 <= k < out@.len() && out@[k].index() == j,
                out@.len() > 0 ==> self.doc().first_child(self.index()) is Some,
                out@.len() == 0 ==> (cur matches Some(c) ==> Some(c.index() as usize) == self.doc().first_child(self.index()))
                    && (cur is Some <==> self.doc().first_child(self.index()) is Some),
                out@.len() > 0 ==> Some(out@[0].index() as usize) == self.doc().first_child(self.index()),
            decreases end - match cur { Some(c) => c.index(), None => end as int },
        {
            let c = cur.unwrap();
            let ghost before = out@;
            proof {
                let p = self.index();
                assert(p < c.index() < self.doc().end(p));
            }
            out.push(c);
            cur = c.next_sibling();
            proof {
                let h = self.doc();
                let p = self.index();
                let ci = c.index();
                assert(out@[out@.len() - 1] == c);
                assert(h.end(ci) <= h.end(p));
                let bound = match cur { Some(d) => d.index(), None => end as int };
                if let Some(d) = cur {
                    assert(p < d.index() < h.end(p));
                    assert(d.index() == h.end(ci));
                } else {
                    assert(h.end(ci) >= h.end(p));
                }
                assert forall|j: int|
                    p < j < bound && #[trigger] h.parent(j) == Some(p as usize) implies exists|k: int|
                        0 <= k < out@.len() && out@[k].index() == j by {
                    if j < ci {
                        let k = choose|k: int| 0 <= k < before.len() && before[k].index() == j;
                        assert(out@[k] == before[k]);
                    } else if j == ci {
                        assert(out@[out@.len() - 1].index() == j);
                    } else {
                        assert(ci <= h.parent(j)->0);
                    }
                }
            }
        }
        out
    }

    /// The node and all its descendants, in document order.
    pub fn descendants(&self) -> (r: Vec<Node<'a>>)
        requires
            self.wf(),
        ensures
            r@.len() == self.doc().end(self.index()) - self.index(),
            forall|k: int|
                0 <= k < r@.len() ==> (#[trigger] r@[k]).wf() && r@[k].doc() == self.doc() && r@[k].index()
                    == self.index() + k,
    {
        let end = self.tree.end_at(self.id);
        let mut out: Vec<Node<'a>> = Vec::new();
        let mut i = self.id;
        while i < end
            invariant
                self.wf(),
                end == self.doc().end(self.index()),
                self.index() <= i <= end,
                out@.len() == i - self.index(),
                forall|k: int|
                    0 <= k < out@.len() ==> (#[trigger] out@[k]).wf() && out@[k].doc() == self.doc()
                        && out@[k].index() == self.index() + k,
            decreases end - i,
        {
            out.push(self.at(i));
            i = i + 1;
        }
        out
    }
}

/// The texts of the text nodes among the nodes from `i` up to `stop`, in order.
pub open spec fn texts(h: Html, i: int, stop: int) -> Seq<Seq<char>>
    decreases stop - i,
{
    if stop <= i {
        seq![]
    } else {
        let rest = texts(h, i, stop - 1);
        match h.kind(stop - 1) {
            NodeKind::Text(t) => rest.push(t@),
            _ => rest,
        }
    }
}

impl<'a> Node<'a> {
    /// The texts of the text nodes in this node's subtree, in document order.
    pub fn text(&self) -> (r: Vec<&'a str>)
        requires
            self.wf(),
        ensures
            r@.len() == texts(self.doc(), self.index(), self.doc().end(self.index())).len(),
            forall|k: int|
                0 <= k < r@.len() ==> #[trigger] r@[k]@ == texts(self.doc(), self.index(), self.doc().end(self.index()))[k],
    {
        let end = self.subtree_end();
        let mut out: Vec<&'a str> = Vec::new();
        let mut i = self.id;
        while i < end
            invariant
                self.wf(),
                end == self.doc().end(self.index()),
                end <= self.doc().len(),
                self.index() <= i <= end,
                out@.len() == texts(self.doc(), self.index(), i as int).len(),
                forall|k: int|
                    0 <= k < out@.len() ==> #[trigger] out@[k]@ == texts(self.doc(), self.index(), i as int)[k],
            decreases end - i,
        {
            match self.tree.kind_at(i) {
                NodeKind::Text(t) => out.push(t.as_str()),
                _ => {},
            }
            i = i + 1;
        }
        out
    }

    /// Whether the element has a class equal to `class` up to ASCII case.
    pub fn has_class(&self, class: &str) -> (r: bool)
        requires
            self.wf(),
            self.kind() is Element,
        ensures
            r == exists|x: Seq<char>|
                crate::node::class_tokens(self.kind()->Element_0.attrs_spec()).contains(x)
                    && ascii_ci_eq(x, class@),
    {
        self.as_data().unwrap().has_class(class)
    }

    /// Whether the element has an attribute with no namespace and local name `name`.
    pub fn has_attribute(&self, name: &str) -> (r: bool)
        requires
            self.wf(),
            self.kind() is Element,
        ensures
            r == exists|k: int|
                0 <= k < self.kind()->Element_0.attrs_spec().len() && self.kind()->Element_0.attrs_spec()[k].0
                    == crate::node::plain_name(name@),
    {
        self.as_data().unwrap().has_attribute(name)
    }

    /// The value of the attribute with no namespace and local name `name`; empty
    /// when there is none.
    pub fn get_attribute(&self, name: &str) -> (r: &'a str)
        requires
            self.wf(),
            self.kind() is Element,
        ensures
            (exists|k: int|
                0 <= k < self.kind()->Element_0.attrs_spec().len() && self.kind()->Element_0.attrs_spec()[k] == (
                    crate::node::plain_name(name@),
                    r@,
                )) || (r@.len() == 0 && forall|k: int|
                0 <= k < self.kind()->Element_0.attrs_spec().len() ==> self.kind()->Element_0.attrs_spec()[k].0
                    != crate::node::plain_name(name@)),
    {
        let d = self.as_data().unwrap();
        match d.get_attribute(name) {
            Some(v) => v,
            None => {
                proof {
                    reveal_strlit("");
                }
                ""
            },
        }
    }
}

impl Html {
    /// The root node.
    pub fn root_node<'a>(&'a self) -> (r: Node<'a>)
        requires
            self.wf(),
        ensures
            r.wf(),
            r.doc() == *self,
            r.index() == 0,
    {
        Node { tree: self, id: 0 }
    }
}

} // verus!
