//! Re-serialization: a document-ordered walk of a subtree that enters and leaves
//! each node, turned into markup events, which html5ever's serializer writes out.

use vstd::prelude::*;
use crate::node::{attrs_view, AttrV, Attribute, NodeKind, QualName, QualNameV};
use crate::node_ref::Node;
use crate::tree::{Html, lemma_len_fits};
use html5ever::QualName as H5Name;
use html5ever::serialize::{HtmlSerializer, SerializeOpts, Serializer};

verus! {

/// Entering or leaving a node, by index.
#[derive(Clone, Copy, Debug, PartialEq, Eq, Structural)]
pub enum Edge {
    Open(usize),
    Close(usize),
}

/// The walk over the nodes from `i` up to `stop`, with `stack` the nodes entered and
/// not yet left: a node is left once the walk reaches the end of its subtree.
pub open spec fn walk(h: Html, i: int, stop: int, stack: Seq<usize>) -> Seq<Edge>
    decreases 2 * (stop - i) + stack.len() when i <= stop
{
    if stack.len() > 0 && (i >= stop || h.end(stack.last() as int) <= i) {
        seq![Edge::Close(stack.last())] + walk(h, i, stop, stack.drop_last())
    } else if i < stop {
        seq![Edge::Open(i as usize)] + walk(h, i + 1, stop, stack.push(i as usize))
    } else {
        seq![]
    }
}

/// The walk over the subtree of node `i`: it enters `i` first and leaves it last.
pub open spec fn traversal(h: Html, i: int) -> Seq<Edge> {
    walk(h, i, h.end(i), seq![])
}

/// Whether the node itself is written, or only its children.
#[derive(Clone, Copy, Debug, PartialEq, Eq, Structural)]
pub enum TraversalScope {
    IncludeNode,
    ChildrenOnly,
}

/// What the serializer is asked to write.
pub enum Markup {
    StartElem(QualName, Vec<Attribute>),
    EndElem(QualName),
    Text(String),
    Comment(String),
    Doctype(String),
}

/// What a markup event is.
pub enum MarkupV {
    StartElem(QualNameV, Seq<AttrV>),
    EndElem(QualNameV),
    Text(Seq<char>),
    Comment(Seq<char>),
    Doctype(Seq<char>),
}

impl View for Markup {
    type V = MarkupV;

    open spec fn view(&self) -> MarkupV {
        match self {
            Markup::StartElem(n, a) => MarkupV::StartElem(n@, attrs_view(a@)),
            Markup::EndElem(n) => MarkupV::EndElem(n@),
            Markup::Text(t) => MarkupV::Text(t@),
            Markup::Comment(t) => MarkupV::Comment(t@),
            Markup::Doctype(t) => MarkupV::Doctype(t@),
        }
    }
}

/// The events of a sequence, viewed.
pub open spec fn markup_view(v: Seq<Markup>) -> Seq<MarkupV> {
    v.map_values(|m: Markup| m@)
}

/// What one step of the walk writes: an element's start tag with its attributes in
/// stored order, text, a comment, a doctype by its name, or an element's end tag.
/// Other nodes write nothing; under `ChildrenOnly` the root writes nothing either.
pub open spec fn edge_markup(h: Html, root: int, scope: TraversalScope, e: Edge) -> Seq<MarkupV> {
    match e {
        Edge::Open(i) => if i == root && scope == TraversalScope::ChildrenOnly {
            seq![]
        } else {
            match h.kind(i as int) {
                NodeKind::Element(d) => seq![MarkupV::StartElem(d.name_view(), d.attrs_spec())],
                NodeKind::Text(t) => seq![MarkupV::Text(t@)],
                NodeKind::Comment(t) => seq![MarkupV::Comment(t@)],
                NodeKind::Doctype(d) => seq![MarkupV::Doctype(d.name@)],
                _ => seq![],
            }
        },
        Edge::Close(i) => if i == root && scope == TraversalScope::ChildrenOnly {
            seq![]
        } else {
            match h.kind(i as int) {
                NodeKind::Element(d) => seq![MarkupV::EndElem(d.name_view())],
                _ => seq![],
            }
        },
    }
}

/// The markup of a sequence of steps, in order.
pub open spec fn edges_markup(h: Html, root: int, scope: TraversalScope, es: Seq<Edge>) -> Seq<MarkupV>
    decreases es.len(),
{
    if es.len() == 0 {
        seq![]
    } else {
        edges_markup(h, root, scope, es.drop_last()) + edge_markup(h, root, scope, es.last())
    }
}

/// The markup events of node `i` under `scope`.
pub open spec fn node_markup(h: Html, i: int, scope: TraversalScope) -> Seq<MarkupV> {
    edges_markup(h, i, scope, traversal(h, i))
}

/// No step of `es` enters or leaves node `r`.
pub open spec fn avoids(es: Seq<Edge>, r: int) -> bool {
    forall|k: int|
        0 <= k < es.len() ==> match #[trigger] es[k] {
            Edge::Open(i) => i != r,
            Edge::Close(i) => i != r,
        }
}

/// Once the walk has entered `r`, and holds only nodes after `r` above it on the
/// stack, it goes on without touching `r` until it leaves `r` last.
proof fn lemma_walk_closes_root(h: Html, r: int, j: int, stop: int, st: Seq<usize>)
    requires
        h.wf(),
        0 <= r < j <= stop,
        r < h.len(),
        stop == h.end(r),
        st.len() >= 1,
        st[0] == r,
        forall|k: int| 0 < k < st.len() ==> (#[trigger] st[k] as int) > r,
    ensures
        exists|w: Seq<Edge>| walk(h, j, stop, st) == w + seq![Edge::Close(r as usize)] && avoids(w, r),
    decreases 2 * (stop - j) + st.len(),
{
    lemma_len_fits(h);
    if st.len() > 0 && (j >= stop || h.end(st.last() as int) <= j) {
        if st.len() == 1 {
            assert(st.last() == r);
            assert(j == stop);
            assert(st.drop_last() =~= Seq::<usize>::empty());
            assert(walk(h, j, stop, st.drop_last()) =~= Seq::<Edge>::empty());
            let w = Seq::<Edge>::empty();
            assert(walk(h, j, stop, st) =~= w + seq![Edge::Close(r as usize)]);
            assert(avoids(w, r));
        } else {
            let rest = st.drop_last();
            assert forall|k: int| 0 < k < rest.len() implies (#[trigger] rest[k] as int) > r by {
                assert(rest[k] == st[k]);
            }
            lemma_walk_closes_root(h, r, j, stop, rest);
            let w1 = choose|w: Seq<Edge>| walk(h, j, stop, rest) == w + seq![Edge::Close(r as usize)] && avoids(w, r);
            let w = seq![Edge::Close(st.last())] + w1;
            assert(st.last() as int > r);
            assert(walk(h, j, stop, st) =~= w + seq![Edge::Close(r as usize)]);
            assert forall|k: int| 0 <= k < w.len() implies match #[trigger] w[k] {
                Edge::Open(i) => i != r,
                Edge::Close(i) => i != r,
            } by {
                if k > 0 {
                    assert(w[k] == w1[k - 1]);
                }
            }
            assert(avoids(w, r));
        }
    } else {
        assert(j < stop);
        assert(h.end(r) <= h.len());
        assert(j < usize::MAX);
        let next = st.push(j as usize);
        assert forall|k: int| 0 < k < next.len() implies (#[trigger] next[k] as int) > r by {
            if k < st.len() {
                assert(next[k] == st[k]);
            } else {
                assert(next[k] == j as usize);
            }
        }
        lemma_walk_closes_root(h, r, j + 1, stop, next);
        let w1 = choose|w: Seq<Edge>| walk(h, j + 1, stop, next) == w + seq![Edge::Close(r as usize)] && avoids(w, r);
        let w = seq![Edge::Open(j as usize)] + w1;
        assert(walk(h, j, stop, st) =~= w + seq![Edge::Close(r as usize)]);
        assert forall|k: int| 0 <= k < w.len() implies match #[trigger] w[k] {
            Edge::Open(i) => i != r,
            Edge::Close(i) => i != r,
        } by {
            if k > 0 {
                assert(w[k] == w1[k - 1]);
            }
        }
        assert(avoids(w, r));
    }
}

proof fn lemma_edges_markup_append(h: Html, root: int, scope: TraversalScope, a: Seq<Edge>, b: Seq<Edge>)
    ensures
        edges_markup(h, root, scope, a + b) == edges_markup(h, root, scope, a) + edges_markup(h, root, scope, b),
    decreases b.len(),
{
    if b.len() == 0 {
        assert(a + b =~= a);
        assert(edges_markup(h, root, scope, a) + edges_markup(h, root, scope, b) =~= edges_markup(h, root, scope, a));
    } else {
        lemma_edges_markup_append(h, root, scope, a, b.drop_last());
        assert((a + b).drop_last() =~= a + b.drop_last());
        assert((a + b).last() == b.last());
    }
}

proof fn lemma_edges_markup_scope_free(h: Html, root: int, es: Seq<Edge>)
    requires
        avoids(es, root),
    ensures
        edges_markup(h, root, TraversalScope::IncludeNode, es) == edges_markup(h, root, TraversalScope::ChildrenOnly, es),
    decreases es.len(),
{
    if es.len() > 0 {
        assert(avoids(es.drop_last(), root)) by {
            assert forall|k: int| 0 <= k < es.drop_last().len() implies match #[trigger] es.drop_last()[k] {
                Edge::Open(i) => i != root,
                Edge::Close(i) => i != root,
            } by {
                assert(es.drop_last()[k] == es[k]);
            }
        }
        lemma_edges_markup_scope_free(h, root, es.drop_last());
        assert(match es[es.len() - 1] {
            Edge::Open(i) => i != root,
            Edge::Close(i) => i != root,
        });
    }
}

/// The markup of a whole element is its start tag, the markup of its children only,
/// and its end tag: leaving out the element's own open and close events is all
/// that separates the two scopes.
pub proof fn lemma_whole_node_wraps_children(h: Html, r: int)
    requires
        h.wf(),
        0 <= r < h.len(),
        h.kind(r) is Element,
    ensures
        node_markup(h, r, TraversalScope::IncludeNode) == seq![
            MarkupV::StartElem(h.kind(r)->Element_0.name_view(), h.kind(r)->Element_0.attrs_spec()),
        ] + node_markup(h, r, TraversalScope::ChildrenOnly) + seq![MarkupV::EndElem(h.kind(r)->Element_0.name_view())],
{
    lemma_len_fits(h);
    let stop = h.end(r);
    assert(r < stop);
    let st = seq![r as usize];
    assert(st[0] == r);
    assert(Seq::<usize>::empty().push(r as usize) =~= st);
    lemma_walk_closes_root(h, r, r + 1, stop, st);
    let w = choose|w: Seq<Edge>| walk(h, r + 1, stop, st) == w + seq![Edge::Close(r as usize)] && avoids(w, r);
    let es = traversal(h, r);
    assert(es =~= seq![Edge::Open(r as usize)] + w + seq![Edge::Close(r as usize)]);
    let inc = TraversalScope::IncludeNode;
    let chi = TraversalScope::ChildrenOnly;
    lemma_edges_markup_append(h, r, inc, seq![Edge::Open(r as usize)] + w, seq![Edge::Close(r as usize)]);
    lemma_edges_markup_append(h, r, inc, seq![Edge::Open(r as usize)], w);
    lemma_edges_markup_append(h, r, chi, seq![Edge::Open(r as usize)] + w, seq![Edge::Close(r as usize)]);
    lemma_edges_markup_append(h, r, chi, seq![Edge::Open(r as usize)], w);
    lemma_edges_markup_scope_free(h, r, w);
    let one_open = seq![Edge::Open(r as usize)];
    let one_close = seq![Edge::Close(r as usize)];
    assert(one_open.drop_last() =~= Seq::<Edge>::empty());
    assert(one_close.drop_last() =~= Seq::<Edge>::empty());
    assert(one_open.last() == Edge::Open(r as usize));
    assert(one_close.last() == Edge::Close(r as usize));
    assert(edges_markup(h, r, chi, Seq::<Edge>::empty()) =~= Seq::<MarkupV>::empty());
    assert(edges_markup(h, r, inc, Seq::<Edge>::empty()) =~= Seq::<MarkupV>::empty());
    assert(edges_markup(h, r, chi, one_open) =~= Seq::<MarkupV>::empty());
    assert(edges_markup(h, r, chi, one_close) =~= Seq::<MarkupV>::empty());
    assert(node_markup(h, r, chi) =~= edges_markup(h, r, chi, w));
    assert(node_markup(h, r, inc) =~= seq![
        MarkupV::StartElem(h.kind(r)->Element_0.name_view(), h.kind(r)->Element_0.attrs_spec()),
    ] + edges_markup(h, r, inc, w) + seq![MarkupV::EndElem(h.kind(r)->Element_0.name_view())]);
}

/// The text html5ever's HTML serializer writes for a sequence of events.
pub uninterp spec fn markup_text(events: Seq<MarkupV>) -> Seq<char>;

/// Relies on html5ever's `HtmlSerializer`: it writes each event in turn (start tag,
/// end tag, escaped text, comment, doctype) into one buffer. Names reach it through
/// `h5_name` and `h5_attrs`.
#[verifier::external_body]
fn write_markup(events: &Vec<Markup>) -> (r: String)
    ensures
        r@ == markup_text(markup_view(events@)),
{
    let opts = SerializeOpts { create_missing_parent: true, ..SerializeOpts::default() };
    let mut ser = HtmlSerializer::new(Vec::new(), opts);
    for m in events {
        let _ = match m {
            Markup::StartElem(n, a) => ser.start_elem(h5_name(n), h5_attrs(a).iter().map(|(k, v)| (k, v.as_str()))),
            Markup::EndElem(n) => ser.end_elem(h5_name(n)),
            Markup::Text(t) => ser.write_text(t),
            Markup::Comment(t) => ser.write_comment(t),
            Markup::Doctype(t) => ser.write_doctype(t),
        };
    }
    String::from_utf8_lossy(&ser.writer).into_owned()
}

/// Relies on html5ever's `QualName::new` and the atoms it interns from strings.
#[verifier::external_body]
fn h5_name(n: &QualName) -> (r: H5Name) {
    H5Name::new(n.prefix.as_deref().map(Into::into), n.ns.as_str().into(), n.local.as_str().into())
}

/// Relies on html5ever's `QualName::new`, once for each attribute name.
#[verifier::external_body]
fn h5_attrs(a: &Vec<Attribute>) -> (r: Vec<(H5Name, String)>) {
    a.iter()
        .map(|x| {
            let n = &x.name;
            (H5Name::new(n.prefix.as_deref().map(Into::into), n.ns.as_str().into(), n.local.as_str().into()), x.value.clone())
        })
        .collect()
}

/// html5ever's qualified name, carried opaquely from `h5_name` to the serializer.
#[verifier::external_type_specification]
#[verifier::external_body]
pub struct ExH5Name(H5Name);

fn copy_attrs(a: &Vec<Attribute>) -> (r: Vec<Attribute>)
    ensures
        attrs_view(r@) == attrs_view(a@),
{
    let mut out: Vec<Attribute> = Vec::new();
    let n = a.len();
    let mut i: usize = 0;
    while i < n
        invariant
            n == a@.len(),
            i <= n,
            attrs_view(out@) == attrs_view(a@).take(i as int),
        decreases n - i,
    {
        out.push(Attribute { name: a[i].name.duplicate(), value: a[i].value.clone() });
        assert(attrs_view(a@).take(i + 1) =~= attrs_view(a@).take(i as int).push(a@[i as int]@));
        assert(attrs_view(out@) =~= attrs_view(a@).take(i + 1));
        i = i + 1;
    }
    assert(attrs_view(a@).take(n as int) =~= attrs_view(a@));
    out
}

impl<'a> Node<'a> {
    /// The walk over this node's subtree: entering and leaving each node, in
    /// document order.
    pub fn traverse(&self) -> (r: Vec<Edge>)
        requires
            self.wf(),
        ensures
            r@ == traversal(self.doc(), self.index()),
            forall|k: int|
                0 <= k < r@.len() ==> match #[trigger] r@[k] {
                    Edge::Open(i) => self.index() <= i < self.doc().end(self.index()),
                    Edge::Close(i) => self.index() <= i < self.doc().end(self.index()),
                },
    {
        let ghost h = self.doc();
        let ghost root = self.index();
        let tree = self.tree_ref();
        let stop = self.subtree_end();
        let mut out: Vec<Edge> = Vec::new();
        let mut stack: Vec<usize> = Vec::new();
        let mut i = self.id();
        while i < stop || stack.len() > 0
            invariant
                h == *tree,
                h.wf(),
                0 <= root < h.len(),
                stop == h.end(root),
                root <= i <= stop,
                stop <= h.len(),
                forall|k: int| 0 <= k < stack@.len() ==> root <= #[trigger] stack@[k] < i,
                forall|k: int|
                    0 <= k < out@.len() ==> match #[trigger] out@[k] {
                        Edge::Open(j) => root <= j < stop,
                        Edge::Close(j) => root <= j < stop,
                    },
                out@ + walk(h, i as int, stop as int, stack@) == walk(h, root, stop as int, seq![]),
            decreases 2 * (stop - i) + stack@.len(),
        {
            let ghost w = walk(h, i as int, stop as int, stack@);
            if stack.len() > 0 && (i >= stop || tree.end_at(stack[stack.len() - 1]) <= i) {
                let top = stack.pop().unwrap();
                proof {
                    assert(w == seq![Edge::Close(top)] + walk(h, i as int, stop as int, stack@));
                }
                out.push(Edge::Close(top));
                proof {
                    assert(out@ + walk(h, i as int, stop as int, stack@) =~= out@.drop_last() + w);
                }
            } else {
                proof {
                    assert(w == seq![Edge::Open(i)] + walk(h, i + 1, stop as int, stack@.push(i)));
                }
                out.push(Edge::Open(i));
                stack.push(i);
                i = i + 1;
                proof {
                    assert(out@ + walk(h, i as int, stop as int, stack@) =~= out@.drop_last() + w);
                }
            }
        }
        assert(walk(h, i as int, stop as int, stack@) =~= Seq::<Edge>::empty());
        assert(out@ =~= out@ + Seq::<Edge>::empty());
        out
    }

    /// The markup events of this node under `scope`.
    pub fn serialize_events(&self, scope: TraversalScope) -> (r: Vec<Markup>)
        requires
            self.wf(),
        ensures
            markup_view(r@) == node_markup(self.doc(), self.index(), scope),
    {
        let ghost h = self.doc();
        let edges = self.traverse();
        let tree = self.tree_ref();
        let root = self.id();
        let mut out: Vec<Markup> = Vec::new();
        let n = edges.len();
        let mut k: usize = 0;
        while k < n
            invariant
                h == *tree,
                h.wf(),
                root == self.index(),
                self.doc().end(self.index()) <= h.len(),
                n == edges@.len(),
                k <= n,
                forall|j: int|
                    0 <= j < edges@.len() ==> match #[trigger] edges@[j] {
                        Edge::Open(i) => root <= i < self.doc().end(self.index()),
                        Edge::Close(i) => root <= i < self.doc().end(self.index()),
                    },
                markup_view(out@) == edges_markup(h, root as int, scope, edges@.take(k as int)),
            decreases n - k,
        {
            let e = edges[k];
            let ghost before = out@;
            assert(edges@.take(k + 1).drop_last() =~= edges@.take(k as int));
            assert(edges@.take(k + 1).last() == e);
            let skip = match e {
                Edge::Open(i) => i == root,
                Edge::Close(i) => i == root,
            } && scope == TraversalScope::ChildrenOnly;
            if !skip {
                match e {
                    Edge::Open(i) => match tree.kind_at(i) {
                        NodeKind::Element(d) => out.push(Markup::StartElem(d.qual_name().duplicate(), copy_attrs(d.attributes()))),
                        NodeKind::Text(t) => out.push(Markup::Text(t.clone())),
                        NodeKind::Comment(t) => out.push(Markup::Comment(t.clone())),
                        NodeKind::Doctype(d) => out.push(Markup::Doctype(d.name.clone())),
                        _ => {},
                    },
                    Edge::Close(i) => match tree.kind_at(i) {
                        NodeKind::Element(d) => out.push(Markup::EndElem(d.qual_name().duplicate())),
                        _ => {},
                    },
                }
            }
            proof {
                let em = edge_markup(h, root as int, scope, e);
                assert(markup_view(out@) =~= markup_view(before) + em);
            }
            k = k + 1;
        }
        assert(edges@.take(n as int) =~= edges@);
        out
    }

    /// The markup of this node.
    pub fn html(&self) -> (r: String)
        requires
            self.wf(),
        ensures
            r@ == markup_text(node_markup(self.doc(), self.index(), TraversalScope::IncludeNode)),
    {
        let events = self.serialize_events(TraversalScope::IncludeNode);
        write_markup(&events)
    }

    /// The markup of this node's children.
    pub fn inner_html(&self) -> (r: String)
        requires
            self.wf(),
        ensures
            r@ == markup_text(node_markup(self.doc(), self.index(), TraversalScope::ChildrenOnly)),
    {
        let events = self.serialize_events(TraversalScope::ChildrenOnly);
        write_markup(&events)
    }
}

} // verus!
