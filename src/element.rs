//! The queries a CSS selector matcher makes of an element: navigation that skips
//! nodes other than elements, and predicates on names, ids, classes and attributes.

use vstd::prelude::*;
use crate::node::{NodeKind, QualNameV, AttrV, first_id, class_tokens};
use crate::node_ref::Node;
use selectors::attr::{AttrSelectorOperator as Op, CaseSensitivity as Cs};
use crate::text::{case_eq, case_sensitive_eq, has_non_white, is_white, str_eq, CaseSensitivity};

verus! {

/// How an attribute selector compares a value.
#[derive(Clone, Copy, Debug, PartialEq, Eq, Structural)]
pub enum AttrOperator {
    /// `[a=v]`
    Equal,
    /// `[a~=v]`: one of the whitespace-separated words.
    Includes,
    /// `[a|=v]`: the value, or the value followed by `-`.
    DashMatch,
    /// `[a^=v]`
    Prefix,
    /// `[a*=v]`
    Substring,
    /// `[a$=v]`
    Suffix,
}

/// The test an attribute selector makes of a value.
pub enum AttrOperation {
    /// `[a]`
    Exists,
    /// `[a<op>v]`, with a case sensitivity.
    WithValue { operator: AttrOperator, case: CaseSensitivity, value: String },
}

/// Which namespaces an attribute selector admits.
pub enum NamespaceConstraint {
    /// `[*|a]`
    Any,
    /// Exactly this namespace; `[a]` asks for the empty one.
    Specific(String),
}

/// Whether `c` separates the words of an attribute value for `~=`.
pub open spec fn is_selector_white(c: char) -> bool {
    c == ' ' || c == '\t' || c == '\n' || c == '\r' || (c as u32) == 0x0C
}

/// The pieces of `s` between separators, empty ones included; `cur` is the piece
/// being read.
pub open spec fn parts_from(s: Seq<char>, cur: Seq<char>) -> Seq<Seq<char>>
    decreases s.len(),
{
    if s.len() == 0 {
        seq![cur]
    } else if is_selector_white(s[0]) {
        seq![cur] + parts_from(s.drop_first(), seq![])
    } else {
        parts_from(s.drop_first(), cur.push(s[0]))
    }
}

/// Whether the value `v` passes `operator` against `s` under `case`.
pub open spec fn operator_holds(operator: AttrOperator, case: CaseSensitivity, s: Seq<char>, v: Seq<char>) -> bool {
    match operator {
        AttrOperator::Equal => case_eq(case, v, s),
        AttrOperator::Prefix => v.len() >= s.len() && case_eq(case, v.take(s.len() as int), s),
        AttrOperator::Suffix => v.len() >= s.len() && case_eq(case, v.skip(v.len() - s.len()), s),
        AttrOperator::Substring => exists|i: int|
            0 <= i && i + s.len() <= v.len() && case_eq(case, #[trigger] v.subrange(i, i + s.len()), s),
        AttrOperator::Includes => exists|i: int|
            0 <= i < parts_from(v, seq![]).len() && case_eq(case, #[trigger] parts_from(v, seq![])[i], s),
        AttrOperator::DashMatch => case_eq(case, v, s) || (v.len() > s.len() && v[s.len() as int] == '-'
            && case_eq(case, v.take(s.len() as int), s)),
    }
}

/// Whether the value `v` passes the test `op`.
pub open spec fn attr_op_holds(op: AttrOperation, v: Seq<char>) -> bool {
    match op {
        AttrOperation::Exists => true,
        AttrOperation::WithValue { operator, case, value } => operator_holds(operator, case, value@, v),
    }
}

/// Relies on selectors' `AttrSelectorOperator::eval_str`, which applies the operator
/// to the bytes of the value.
#[verifier::external_body]
fn eval_attr_operator(operator: AttrOperator, case: CaseSensitivity, expected: &str, value: &str) -> (r: bool)
    ensures
        r == operator_holds(operator, case, expected@, value@),
{
    let op = match operator {
        AttrOperator::Equal => Op::Equal, AttrOperator::Includes => Op::Includes,
        AttrOperator::DashMatch => Op::DashMatch, AttrOperator::Prefix => Op::Prefix,
        AttrOperator::Substring => Op::Substring, AttrOperator::Suffix => Op::Suffix,
    };
    let c = match case {
        CaseSensitivity::CaseSensitive => Cs::CaseSensitive,
        CaseSensitivity::AsciiCaseInsensitive => Cs::AsciiCaseInsensitive,
    };
    op.eval_str(value, expected, c)
}

/// Whether an attribute's namespace passes the constraint.
pub open spec fn ns_admits(c: NamespaceConstraint, ns: Seq<char>) -> bool {
    match c {
        NamespaceConstraint::Any => true,
        NamespaceConstraint::Specific(u) => u@ == ns,
    }
}

/// Whether some attribute in `m` passes the constraint, has local name `local` and
/// a value that passes `op`.
pub open spec fn some_attr_matches(
    m: Seq<AttrV>,
    ns: NamespaceConstraint,
    local: Seq<char>,
    op: AttrOperation,
) -> bool {
    exists|k: int|
        0 <= k < m.len() && ns_admits(ns, m[k].0.1) && m[k].0.2 == local && attr_op_holds(op, m[k].1)
}

/// An attribute selector that names a namespace looks at attributes of that
/// namespace only: with no attribute of local name `local` in namespace `u`, the
/// selector fails, whatever attributes of that local name other namespaces hold.
/// So `[href=x]`, which asks for the empty namespace, does not see `xlink:href`.
pub proof fn lemma_namespace_separates(m: Seq<AttrV>, u: String, local: Seq<char>, op: AttrOperation)
    requires
        forall|k: int| 0 <= k < m.len() && m[k].0.2 == local ==> m[k].0.1 != u@,
    ensures
        !some_attr_matches(m, NamespaceConstraint::Specific(u), local, op),
{
}

/// Between a node and its next sibling (or, without one, to the end of the tree)
/// lies no other node with the same parent.
proof fn lemma_later_siblings(h: crate::tree::Html, c: int, next: Option<Node>)
    requires
        h.wf(),
        0 <= c < h.len(),
        next matches Some(d) ==> d.wf() && d.doc() == h && Some(d.index() as usize) == h.next_sibling(c),
        next is None ==> h.next_sibling(c) is None,
    ensures
        next matches Some(d) ==> d.index() > c && h.parent(d.index()) == h.parent(c),
        forall|j: int|
            c < j < (match next {
                Some(d) => d.index(),
                None => h.len(),
            }) ==> #[trigger] h.parent(j) != h.parent(c),
{
    if c > 0 {
        let p = h.parent(c)->0 as int;
        assert(h.parent(c) is Some);
        assert(p < c);
        assert(h.end(c) <= h.end(p));
        if let Some(d) = next {
            crate::tree::lemma_next_sibling(h, c);
            crate::tree::lemma_len_fits(h);
            assert(d.index() == h.end(c));
        }
        assert forall|j: int|
            c < j < (match next {
                Some(d) => d.index(),
                None => h.len(),
            }) implies #[trigger] h.parent(j) != h.parent(c) by {
            if j < h.end(c) {
                assert(c <= h.parent(j)->0);
            } else {
                assert(next is None);
                assert(h.end(c) >= h.end(p));
                if h.parent(j) == h.parent(c) {
                    assert(j < h.end(p));
                }
            }
        }
    } else {
        assert(h.next_sibling(c) is None);
        assert forall|j: int| c < j < h.len() implies #[trigger] h.parent(j) != h.parent(c) by {
            assert(h.parent(j) is Some);
        }
    }
}

/// Whether a child keeps its parent from being empty: an element, or text with a
/// character other than whitespace.
pub open spec fn counts_for_emptiness(k: NodeKind) -> bool {
    k is Element || (k matches NodeKind::Text(t) && exists|i: int| 0 <= i < t@.len() && !is_white(t@[i]))
}

/// The HTML namespace.
pub open spec fn html_ns() -> Seq<char> {
    "http://www.w3.org/1999/xhtml"@
}

/// Whether a node is an element.
pub open spec fn is_element(h: Node) -> bool {
    h.kind() is Element
}

/// The name of an element node.
pub open spec fn element_name(h: Node) -> QualNameV {
    h.kind()->Element_0.name_view()
}

/// The attribute table of an element node.
pub open spec fn element_attrs(h: Node) -> Seq<AttrV> {
    h.kind()->Element_0.attrs_spec()
}

impl<'a> Node<'a> {
    /// The identity the matcher keeps for its bookkeeping: the node's index.
    pub fn opaque(&self) -> (r: usize)
        ensures
            r == self.index(),
    {
        self.id()
    }

    /// The parent, if it is an element.
    pub fn parent_element(&self) -> (r: Option<Node<'a>>)
        requires
            self.wf(),
        ensures
            r matches Some(p) ==> p.wf() && p.doc() == self.doc() && is_element(p) && self.doc().parent(
                self.index(),
            ) == Some(p.index() as usize),
            r is None ==> match self.doc().parent(self.index()) {
                Some(p) => !(self.doc().kind(p as int) is Element),
                None => true,
            },
    {
        match self.parent() {
            Some(p) => if p.as_kind().is_element() { Some(p) } else { None },
            None => None,
        }
    }

    /// A shadow root is never the parent.
    pub fn parent_node_is_shadow_root(&self) -> (r: bool)
        ensures
            !r,
    {
        false
    }

    /// There is no shadow host.
    pub fn containing_shadow_host(&self) -> (r: Option<Node<'a>>)
        ensures
            r is None,
    {
        None
    }

    /// No node is a pseudo-element.
    pub fn is_pseudo_element(&self) -> (r: bool)
        ensures
            !r,
    {
        false
    }

    /// The nearest earlier sibling that is an element.
    pub fn prev_sibling_element(&self) -> (r: Option<Node<'a>>)
        requires
            self.wf(),
        ensures
            r matches Some(e) ==> e.wf() && e.doc() == self.doc() && is_element(e) && e.index() < self.index()
                && self.doc().parent(e.index()) == self.doc().parent(self.index()),
            forall|j: int|
                (match r {
                    Some(e) => e.index(),
                    None => -1,
                }) < j < self.index() && #[trigger] self.doc().parent(j) == self.doc().parent(self.index())
                    ==> !(self.doc().kind(j) is Element),
    {
        let ghost h = self.doc();
        let ghost me = self.index();
        let mut cur = self.prev_sibling();
        proof {
            if cur is None && me > 0 {
                assert forall|j: int| -1 < j < me && #[trigger] h.parent(j) == h.parent(me) implies false by {
                    assert(0 < j);
                }
            }
        }
        while cur.is_some()
            invariant
                self.wf(),
                h == self.doc(),
                me == self.index(),
                cur matches Some(c) ==> c.wf() && c.doc() == h && c.index() < me && h.parent(c.index()) == h.parent(me),
                forall|j: int|
                    (match cur {
                        Some(c) => c.index(),
                        None => -1,
                    }) < j < me && #[trigger] h.parent(j) == h.parent(me) ==> !(h.kind(j) is Element),
            decreases match cur { Some(c) => c.index() + 1, None => 0 },
        {
            let c = cur.unwrap();
            if c.as_kind().is_element() {
                return Some(c);
            }
            let ghost ci = c.index();
            cur = c.prev_sibling();
            proof {
                assert(ci > 0);
                let p = h.parent(me)->0 as int;
                assert(h.parent(ci) == Some(p as usize));
                assert(p < ci);
                match cur {
                    Some(d) => {
                        let q = d.index();
                        assert(h.end(q) == ci);
                        assert forall|j: int| q < j < me && #[trigger] h.parent(j) == h.parent(me) implies !(
                        h.kind(j) is Element) by {
                            if j < ci {
                                assert(q <= h.parent(j)->0);
                                assert(h.parent(q) == Some(p as usize));
                            }
                        }
                    },
                    None => {
                        assert(h.parent(ci) == Some((ci - 1) as usize));
                        assert forall|j: int| -1 < j < me && #[trigger] h.parent(j) == h.parent(me) implies !(
                        h.kind(j) is Element) by {
                            if j < ci {
                                assert(0 < j);
                                assert((h.parent(j)->0 as int) < j);
                            }
                        }
                    },
                }
            }
        }
        None
    }

    /// The nearest later sibling that is an element.
    pub fn next_sibling_element(&self) -> (r: Option<Node<'a>>)
        requires
            self.wf(),
        ensures
            r matches Some(e) ==> e.wf() && e.doc() == self.doc() && is_element(e) && e.index() > self.index()
                && self.doc().parent(e.index()) == self.doc().parent(self.index()),
            forall|j: int|
                self.index() < j < (match r {
                    Some(e) => e.index(),
                    None => self.doc().len(),
                }) && #[trigger] self.doc().parent(j) == self.doc().parent(self.index()) ==> !(self.doc().kind(
                    j,
                ) is Element),
    {
        let ghost h = self.doc();
        let ghost me = self.index();
        let mut cur = self.next_sibling();
        proof {
            lemma_later_siblings(h, me, cur);
        }
        while cur.is_some()
            invariant
                self.wf(),
                h == self.doc(),
                me == self.index(),
                cur matches Some(c) ==> c.wf() && c.doc() == h && c.index() > me && h.parent(c.index()) == h.parent(me),
                forall|j: int|
                    me < j < (match cur {
                        Some(c) => c.index(),
                        None => h.len(),
                    }) && #[trigger] h.parent(j) == h.parent(me) ==> !(h.kind(j) is Element),
            decreases h.len() - match cur { Some(c) => c.index(), None => h.len() },
        {
            let c = cur.unwrap();
            if c.as_kind().is_element() {
                return Some(c);
            }
            let ghost ci = c.index();
            cur = c.next_sibling();
            proof {
                lemma_later_siblings(h, ci, cur);
                assert(h.parent(ci) == h.parent(me));
            }
        }
        None
    }

    /// The first child that is an element.
    pub fn first_element_child(&self) -> (r: Option<Node<'a>>)
        requires
            self.wf(),
        ensures
            r matches Some(e) ==> e.wf() && e.doc() == self.doc() && is_element(e) && self.doc().parent(
                e.index(),
            ) == Some(self.index() as usize) && forall|j: int|
                0 <= j < e.index() && #[trigger] self.doc().parent(j) == Some(self.index() as usize)
                    ==> !(self.doc().kind(j) is Element),
            r is None ==> forall|j: int|
                0 <= j < self.doc().len() && #[trigger] self.doc().parent(j) == Some(self.index() as usize)
                    ==> !(self.doc().kind(j) is Element),
    {
        let children = self.children();
        let n = children.len();
        let mut i: usize = 0;
        while i < n
            invariant
                self.wf(),
                n == children@.len(),
                i <= n,
                forall|k: int|
                    0 <= k < children@.len() ==> (#[trigger] children@[k]).wf() && children@[k].doc()
                        == self.doc() && self.doc().parent(children@[k].index()) == Some(
                        self.index() as usize,
                    ),
                forall|j: int, k: int| 0 <= j < k < children@.len() ==> children@[j].index() < children@[k].index(),
                forall|j: int|
                    0 <= j < self.doc().len() && #[trigger] self.doc().parent(j) == Some(self.index() as usize)
                        ==> exists|k: int| 0 <= k < children@.len() && children@[k].index() == j,
                forall|k: int| 0 <= k < i ==> !((#[trigger] children@[k]).kind() is Element),
            decreases n - i,
        {
            let c = children[i];
            assert(c == children@[i as int]);
            if c.as_kind().is_element() {
                proof {
                    assert forall|j: int|
                        0 <= j < c.index() && #[trigger] self.doc().parent(j) == Some(self.index() as usize)
                            implies !(self.doc().kind(j) is Element) by {
                        let k = choose|k: int| 0 <= k < children@.len() && children@[k].index() == j;
                        if k >= i {
                            if k > i {
                                assert(children@[i as int].index() < children@[k].index());
                            }
                        }
                        assert(!(children@[k].kind() is Element));
                    }
                }
                return Some(c);
            }
            i = i + 1;
        }
        proof {
            assert forall|j: int|
                0 <= j < self.doc().len() && #[trigger] self.doc().parent(j) == Some(self.index() as usize)
                    implies !(self.doc().kind(j) is Element) by {
                let k = choose|k: int| 0 <= k < children@.len() && children@[k].index() == j;
                assert(!(children@[k].kind() is Element));
            }
        }
        None
    }

    /// Whether the node is an element in the HTML namespace.
    pub fn is_html_element_in_html_document(&self) -> (r: bool)
        requires
            self.wf(),
        ensures
            r == (is_element(*self) && element_name(*self).1 == html_ns()),
    {
        match self.as_data() {
            Some(d) => str_eq(d.qual_name().ns.as_str(), "http://www.w3.org/1999/xhtml"),
            None => false,
        }
    }

    /// Whether the node is an element with local name `name`.
    pub fn has_local_name(&self, name: &str) -> (r: bool)
        requires
            self.wf(),
        ensures
            r == (is_element(*self) && element_name(*self).2 == name@),
    {
        match self.as_data() {
            Some(d) => str_eq(d.qual_name().local.as_str(), name),
            None => false,
        }
    }

    /// Whether the node is an element in namespace `namespace`.
    pub fn has_namespace(&self, namespace: &str) -> (r: bool)
        requires
            self.wf(),
        ensures
            r == (is_element(*self) && element_name(*self).1 == namespace@),
    {
        match self.as_data() {
            Some(d) => str_eq(d.qual_name().ns.as_str(), namespace),
            None => false,
        }
    }

    /// Whether two elements have the same qualified name.
    pub fn is_same_type(&self, other: &Node<'a>) -> (r: bool)
        requires
            self.wf(),
            other.wf(),
            is_element(*self),
            is_element(*other),
        ensures
            r == (element_name(*self) == element_name(*other)),
    {
        let a = self.as_data().unwrap();
        let b = other.as_data().unwrap();
        a.qual_name().same(b.qual_name())
    }

    /// Whether an attribute of the element passes the namespace constraint, has local
    /// name `local_name` and a value that passes `operation`.
    pub fn attr_matches(
        &self,
        ns: &NamespaceConstraint,
        local_name: &str,
        operation: &AttrOperation,
    ) -> (r: bool)
        requires
            self.wf(),
            is_element(*self),
        ensures
            r == some_attr_matches(element_attrs(*self), *ns, local_name@, *operation),
    {
        let d = self.as_data().unwrap();
        let attrs = d.attributes();
        let ghost m = element_attrs(*self);
        let n = attrs.len();
        let mut i: usize = 0;
        while i < n
            invariant
                n == attrs@.len(),
                i <= n,
                m == crate::node::attrs_view(attrs@),
                m == element_attrs(*self),
                forall|k: int|
                    0 <= k < i ==> !(ns_admits(*ns, m[k].0.1) && m[k].0.2 == local_name@ && attr_op_holds(
                        *operation,
                        m[k].1,
                    )),
            decreases n - i,
        {
            let a = &attrs[i];
            let ns_ok = match ns {
                NamespaceConstraint::Any => true,
                NamespaceConstraint::Specific(u) => str_eq(u.as_str(), a.name.ns.as_str()),
            };
            let op_ok = match operation {
                AttrOperation::Exists => true,
                AttrOperation::WithValue { operator, case, value } => eval_attr_operator(
                    *operator,
                    *case,
                    value.as_str(),
                    a.value.as_str(),
                ),
            };
            if ns_ok && str_eq(local_name, a.name.local.as_str()) && op_ok {
                assert(m[i as int] == a@);
                assert(ns_admits(*ns, m[i as int].0.1) && m[i as int].0.2 == local_name@ && attr_op_holds(
                    *operation,
                    m[i as int].1,
                ));
                return true;
            }
            i = i + 1;
        }
        false
    }

    /// Non-tree-structural pseudo-classes never match.
    pub fn match_non_ts_pseudo_class(&self) -> (r: bool)
        ensures
            !r,
    {
        false
    }

    /// Pseudo-elements never match.
    pub fn match_pseudo_element(&self) -> (r: bool)
        ensures
            !r,
    {
        false
    }

    /// Whether the node is a `link` element.
    pub fn is_link(&self) -> (r: bool)
        requires
            self.wf(),
        ensures
            r == (is_element(*self) && crate::text::ascii_ci_eq(element_name(*self).2, "link"@)),
    {
        self.is_a("link")
    }

    /// Every element counts as an HTML slot element for the matcher.
    pub fn is_html_slot_element(&self) -> (r: bool)
        ensures
            r,
    {
        true
    }

    /// Whether the element's id equals `id` under `case_sensitivity`.
    pub fn has_id(&self, id: &str, case_sensitivity: CaseSensitivity) -> (r: bool)
        requires
            self.wf(),
            is_element(*self),
        ensures
            r == (first_id(element_attrs(*self)) matches Some(v) && case_eq(case_sensitivity, id@, v)),
    {
        let d = self.as_data().unwrap();
        assert(d.wf());
        match d.id() {
            Some(v) => case_sensitive_eq(case_sensitivity, id, v),
            None => false,
        }
    }

    /// Whether the element has a class equal to `name` under `case_sensitivity`.
    pub fn has_class_with(&self, name: &str, case_sensitivity: CaseSensitivity) -> (r: bool)
        requires
            self.wf(),
            is_element(*self),
        ensures
            r == exists|x: Seq<char>|
                class_tokens(element_attrs(*self)).contains(x) && case_eq(case_sensitivity, x, name@),
    {
        let d = self.as_data().unwrap();
        d.has_class_with(name, case_sensitivity)
    }

    /// No part is imported.
    pub fn imported_part(&self) -> (r: Option<String>)
        ensures
            r is None,
    {
        None
    }

    /// No element is a part.
    pub fn is_part(&self) -> (r: bool)
        ensures
            !r,
    {
        false
    }

    /// Whether no child is an element or text with a character other than whitespace.
    pub fn is_empty(&self) -> (r: bool)
        requires
            self.wf(),
        ensures
            r == !exists|k: int|
                0 <= k < self.doc().len() && #[trigger] self.doc().parent(k) == Some(self.index() as usize)
                    && counts_for_emptiness(self.doc().kind(k)),
    {
        let children = self.children();
        let n = children.len();
        let mut i: usize = 0;
        while i < n
            invariant
                n == children@.len(),
                i <= n,
                self.wf(),
                forall|k: int|
                    0 <= k < children@.len() ==> (#[trigger] children@[k]).wf() && children@[k].doc() == self.doc()
                        && self.doc().parent(children@[k].index()) == Some(self.index() as usize),
                forall|j: int|
                    0 <= j < self.doc().len() && #[trigger] self.doc().parent(j) == Some(self.index() as usize)
                        ==> exists|k: int| 0 <= k < children@.len() && children@[k].index() == j,
                forall|k: int| 0 <= k < i ==> !counts_for_emptiness((#[trigger] children@[k]).kind()),
            decreases n - i,
        {
            let c = children[i];
            assert(c == children@[i as int]);
            assert(self.doc().parent(c.index()) == Some(self.index() as usize));
            assert(0 <= c.index() < self.doc().len());
            match c.as_kind() {
                NodeKind::Element(_) => {
                    return false;
                },
                NodeKind::Text(t) => {
                    if has_non_white(t.as_str()) {
                        return false;
                    }
                },
                _ => {},
            }
            i = i + 1;
        }
        assert forall|j: int|
            0 <= j < self.doc().len() && #[trigger] self.doc().parent(j) == Some(self.index() as usize) implies
                !counts_for_emptiness(self.doc().kind(j)) by {
            let k = choose|k: int| 0 <= k < children@.len() && children@[k].index() == j;
            assert(!counts_for_emptiness(children@[k].kind()));
        }
        true
    }

    /// Whether the parent is the document root.
    pub fn is_root(&self) -> (r: bool)
        requires
            self.wf(),
        ensures
            r == (self.doc().parent(self.index()) matches Some(p) && self.doc().kind(p as int) is Document),
    {
        match self.parent() {
            Some(p) => p.as_kind().is_document(),
            None => false,
        }
    }
}

} // verus!
