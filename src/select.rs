//! Document-ordered selection of the elements below a scope node.
//!
//! The test of an element against a selector is the caller's: the selector engine
//! runs outside this library, so it is handed in as a predicate on handles.

use vstd::prelude::*;
use crate::node_ref::Node;
use crate::tree::Html;
use crate::element::is_element;

verus! {

/// A walk over the subtree of a scope node, in document order, that yields the
/// elements a predicate accepts. The scope node itself is never yielded.
pub struct Select<'a> {
    scope: Node<'a>,
    cursor: usize,
    end: usize,
}

impl<'a> Select<'a> {
    /// The scope node.
    pub closed spec fn scope(&self) -> Node<'a> {
        self.scope
    }

    /// The next node to test.
    pub closed spec fn cursor(&self) -> int {
        self.cursor as int
    }

    /// Where the walk stops.
    pub closed spec fn stop(&self) -> int {
        self.end as int
    }

    /// The walk stays inside the scope's subtree, past the scope node itself.
    pub open spec fn wf(&self) -> bool {
        &&& self.scope().wf()
        &&& self.stop() == self.scope().doc().end(self.scope().index())
        &&& self.scope().index() < self.cursor() <= self.scope().doc().end(self.scope().index())
    }

    /// Whether the walk is over.
    pub open spec fn exhausted(&self) -> bool {
        self.cursor() == self.scope().doc().end(self.scope().index())
    }

    /// The next element, at or after the cursor, that `matches` accepts; the cursor
    /// moves just past it, or to the end of the scope's subtree when there is none.
    /// Every element passed over was tested and refused.
    pub fn next_match<F: Fn(Node<'a>) -> bool>(&mut self, matches: &F) -> (r: Option<Node<'a>>)
        requires
            old(self).wf(),
            forall|n: Node<'a>| call_requires(*matches, (n,)),
        ensures
            final(self).wf(),
            final(self).scope() == old(self).scope(),
            match r {
                Some(e) => {
                    &&& e.wf()
                    &&& e.doc() == old(self).scope().doc()
                    &&& is_element(e)
                    &&& old(self).cursor() <= e.index()
                    &&& final(self).cursor() == e.index() + 1
                    &&& call_ensures(*matches, (e,), true)
                },
                None => final(self).exhausted(),
            },
            forall|n: Node<'a>|
                #![trigger call_ensures(*matches, (n,), false)]
                n.wf() && n.doc() == old(self).scope().doc() && is_element(n) && old(self).cursor() <= n.index()
                    < final(self).cursor() && (r matches Some(e) ==> n.index() != e.index())
                    ==> call_ensures(*matches, (n,), false),
    {
        let ghost c0 = self.cursor();
        let ghost refused: Seq<Node<'a>> = Seq::empty();
        while self.cursor < self.end
            invariant
                self.wf(),
                self.end == self.scope().doc().end(self.scope().index()),
                self.scope() == old(self).scope(),
                c0 == old(self).cursor(),
                c0 <= self.cursor(),
                forall|n: Node<'a>|
                    #![trigger call_ensures(*matches, (n,), false)]
                    n.wf() && n.doc() == old(self).scope().doc() && is_element(n) && c0 <= n.index()
                        < self.cursor() ==> call_ensures(*matches, (n,), false),
                forall|n: Node<'a>| call_requires(*matches, (n,)),
            decreases self.end - self.cursor,
        {
            let node = self.scope.element_at(self.cursor);
            self.cursor = self.cursor + 1;
            if let Some(e) = node {
                if matches(e) {
                    return Some(e);
                }
                proof {
                    assert forall|n: Node<'a>|
                        #![trigger call_ensures(*matches, (n,), false)]
                        n.wf() && n.doc() == old(self).scope().doc() && is_element(n) && c0 <= n.index()
                            < self.cursor() implies call_ensures(*matches, (n,), false) by {
                        if n.index() == self.cursor() - 1 {
                            Node::lemma_same_node(n, e);
                        }
                    }
                }
            }
        }
        None
    }

    /// All the remaining elements that `matches` accepts, in document order.
    pub fn collect_matches<F: Fn(Node<'a>) -> bool>(&mut self, matches: &F) -> (r: Vec<Node<'a>>)
        requires
            old(self).wf(),
            forall|n: Node<'a>| call_requires(*matches, (n,)),
        ensures
            final(self).wf(),
            final(self).exhausted(),
            forall|k: int|
                0 <= k < r@.len() ==> (#[trigger] r@[k]).wf() && r@[k].doc() == old(self).scope().doc()
                    && is_element(r@[k]) && old(self).cursor() <= r@[k].index() && r@[k].index() < old(self).stop()
                    && call_ensures(*matches, (r@[k],), true),
            forall|j: int, k: int| 0 <= j < k < r@.len() ==> r@[j].index() < r@[k].index(),
            forall|n: Node<'a>|
                #![trigger call_ensures(*matches, (n,), false)]
                n.wf() && n.doc() == old(self).scope().doc() && is_element(n) && old(self).cursor() <= n.index()
                    < old(self).stop() && !(exists|k: int| 0 <= k < r@.len() && r@[k].index() == n.index())
                    ==> call_ensures(*matches, (n,), false),
    {
        let mut out: Vec<Node<'a>> = Vec::new();
        loop
            invariant
                self.wf(),
                self.scope() == old(self).scope(),
                old(self).stop() == self.scope().doc().end(self.scope().index()),
                old(self).cursor() <= self.cursor(),
                forall|n: Node<'a>| call_requires(*matches, (n,)),
                forall|k: int|
                    0 <= k < out@.len() ==> (#[trigger] out@[k]).wf() && out@[k].doc() == old(self).scope().doc()
                        && is_element(out@[k]) && old(self).cursor() <= out@[k].index() && out@[k].index()
                        < self.cursor() && call_ensures(*matches, (out@[k],), true),
                forall|j: int, k: int| 0 <= j < k < out@.len() ==> out@[j].index() < out@[k].index(),
                forall|n: Node<'a>|
                    #![trigger call_ensures(*matches, (n,), false)]
                    n.wf() && n.doc() == old(self).scope().doc() && is_element(n) && old(self).cursor()
                        <= n.index() < self.cursor() && !(exists|k: int|
                        0 <= k < out@.len() && out@[k].index() == n.index()) ==> call_ensures(*matches, (n,), false),
            decreases self.scope().doc().end(self.scope().index()) - self.cursor(),
        {
            let ghost before = out@;
            let ghost c0 = self.cursor();
            match self.next_match(matches) {
                Some(e) => {
                    out.push(e);
                    proof {
                        assert forall|n: Node<'a>|
                            #![trigger call_ensures(*matches, (n,), false)]
                            n.wf() && n.doc() == old(self).scope().doc() && is_element(n) && old(self).cursor()
                                <= n.index() < self.cursor() && !(exists|k: int|
                                0 <= k < out@.len() && out@[k].index() == n.index()) implies call_ensures(
                            *matches,
                            (n,),
                            false,
                        ) by {
                            if n.index() == e.index() {
                                assert(out@[out@.len() - 1].index() == n.index());
                            } else if n.index() < c0 {
                                if exists|k: int| 0 <= k < before.len() && before[k].index() == n.index() {
                                    let k = choose|k: int| 0 <= k < before.len() && before[k].index() == n.index();
                                    assert(out@[k] == before[k]);
                                }
                            }
                        }
                    }
                },
                None => {
                    proof {
                        assert(self.cursor() == old(self).stop());
                        assert forall|n: Node<'a>|
                            #![trigger call_ensures(*matches, (n,), false)]
                            n.wf() && n.doc() == old(self).scope().doc() && is_element(n) && old(self).cursor()
                                <= n.index() < old(self).stop() && !(exists|k: int|
                                0 <= k < out@.len() && out@[k].index() == n.index()) implies call_ensures(
                            *matches,
                            (n,),
                            false,
                        ) by {
                            if n.index() < c0 {
                            }
                        }
                    }
                    return out;
                },
            }
        }
    }
}

impl<'a> Select<'a> {
    /// As `next_match`, with the scope node handed to `matches` beside each candidate:
    /// the next element, at or after the cursor, that `matches` accepts; the cursor
    /// moves just past it, or to the end of the scope's subtree when there is none.
    /// Every element passed over was tested and refused.
    pub fn next_match_scoped<F: Fn(Node<'a>, Node<'a>) -> bool>(&mut self, matches: &F) -> (r: Option<Node<'a>>)
        requires
            old(self).wf(),
            forall|n: Node<'a>| call_requires(*matches, (n, old(self).scope())),
        ensures
            final(self).wf(),
            final(self).scope() == old(self).scope(),
            match r {
                Some(e) => {
                    &&& e.wf()
                    &&& e.doc() == old(self).scope().doc()
                    &&& is_element(e)
                    &&& old(self).cursor() <= e.index()
                    &&& final(self).cursor() == e.index() + 1
                    &&& call_ensures(*matches, (e, old(self).scope()), true)
                },
                None => final(self).exhausted(),
            },
            forall|n: Node<'a>|
                #![trigger call_ensures(*matches, (n, old(self).scope()), false)]
                n.wf() && n.doc() == old(self).scope().doc() && is_element(n) && old(self).cursor() <= n.index()
                    < final(self).cursor() && (r matches Some(e) ==> n.index() != e.index())
                    ==> call_ensures(*matches, (n, old(self).scope()), false),
    {
        let ghost c0 = self.cursor();
        let ghost refused: Seq<Node<'a>> = Seq::empty();
        while self.cursor < self.end
            invariant
                self.wf(),
                self.end == self.scope().doc().end(self.scope().index()),
                self.scope() == old(self).scope(),
                c0 == old(self).cursor(),
                c0 <= self.cursor(),
                forall|n: Node<'a>|
                    #![trigger call_ensures(*matches, (n, old(self).scope()), false)]
                    n.wf() && n.doc() == old(self).scope().doc() && is_element(n) && c0 <= n.index()
                        < self.cursor() ==> call_ensures(*matches, (n, old(self).scope()), false),
                forall|n: Node<'a>| call_requires(*matches, (n, old(self).scope())),
            decreases self.end - self.cursor,
        {
            let node = self.scope.element_at(self.cursor);
            self.cursor = self.cursor + 1;
            if let Some(e) = node {
                if matches(e, self.scope) {
                    return Some(e);
                }
                proof {
                    assert forall|n: Node<'a>|
                        #![trigger call_ensures(*matches, (n, old(self).scope()), false)]
                        n.wf() && n.doc() == old(self).scope().doc() && is_element(n) && c0 <= n.index()
                            < self.cursor() implies call_ensures(*matches, (n, old(self).scope()), false) by {
                        if n.index() == self.cursor() - 1 {
                            Node::lemma_same_node(n, e);
                        }
                    }
                }
            }
        }
        None
    }

    /// As `collect_matches`, with the scope node handed to `matches` beside each
    /// candidate: all the remaining elements that `matches` accepts, in document order.
    pub fn collect_matches_scoped<F: Fn(Node<'a>, Node<'a>) -> bool>(&mut self, matches: &F) -> (r: Vec<Node<'a>>)
        requires
            old(self).wf(),
            forall|n: Node<'a>| call_requires(*matches, (n, old(self).scope())),
        ensures
            final(self).wf(),
            final(self).exhausted(),
            forall|k: int|
                0 <= k < r@.len() ==> (#[trigger] r@[k]).wf() && r@[k].doc() == old(self).scope().doc()
                    && is_element(r@[k]) && old(self).cursor() <= r@[k].index() && r@[k].index() < old(self).stop()
                    && call_ensures(*matches, (r@[k], old(self).scope()), true),
            forall|j: int, k: int| 0 <= j < k < r@.len() ==> r@[j].index() < r@[k].index(),
            forall|n: Node<'a>|
                #![trigger call_ensures(*matches, (n, old(self).scope()), false)]
                n.wf() && n.doc() == old(self).scope().doc() && is_element(n) && old(self).cursor() <= n.index()
                    < old(self).stop() && !(exists|k: int| 0 <= k < r@.len() && r@[k].index() == n.index())
                    ==> call_ensures(*matches, (n, old(self).scope()), false),
    {
        let mut out: Vec<Node<'a>> = Vec::new();
        loop
            invariant
                self.wf(),
                self.scope() == old(self).scope(),
                old(self).stop() == self.scope().doc().end(self.scope().index()),
                old(self).cursor() <= self.cursor(),
                forall|n: Node<'a>| call_requires(*matches, (n, old(self).scope())),
                forall|k: int|
                    0 <= k < out@.len() ==> (#[trigger] out@[k]).wf() && out@[k].doc() == old(self).scope().doc()
                        && is_element(out@[k]) && old(self).cursor() <= out@[k].index() && out@[k].index()
                        < self.cursor() && call_ensures(*matches, (out@[k], old(self).scope()), true),
                forall|j: int, k: int| 0 <= j < k < out@.len() ==> out@[j].index() < out@[k].index(),
                forall|n: Node<'a>|
                    #![trigger call_ensures(*matches, (n, old(self).scope()), false)]
                    n.wf() && n.doc() == old(self).scope().doc() && is_element(n) && old(self).cursor()
                        <= n.index() < self.cursor() && !(exists|k: int|
                        0 <= k < out@.len() && out@[k].index() == n.index()) ==> call_ensures(*matches, (n, old(self).scope()), false),
            decreases self.scope().doc().end(self.scope().index()) - self.cursor(),
        {
            let ghost before = out@;
            let ghost c0 = self.cursor();
            match self.next_match_scoped(matches) {
                Some(e) => {
                    out.push(e);
                    proof {
                        assert forall|n: Node<'a>|
                            #![trigger call_ensures(*matches, (n, old(self).scope()), false)]
                            n.wf() && n.doc() == old(self).scope().doc() && is_element(n) && old(self).cursor()
                                <= n.index() < self.cursor() && !(exists|k: int|
                                0 <= k < out@.len() && out@[k].index() == n.index()) implies call_ensures(
                            *matches,
                            (n, old(self).scope()),
                            false,
                        ) by {
                            if n.index() == e.index() {
                                assert(out@[out@.len() - 1].index() == n.index());
                            } else if n.index() < c0 {
                                if exists|k: int| 0 <= k < before.len() && before[k].index() == n.index() {
                                    let k = choose|k: int| 0 <= k < before.len() && before[k].index() == n.index();
                                    assert(out@[k] == before[k]);
                                }
                            }
                        }
                    }
                },
                None => {
                    proof {
                        assert(self.cursor() == old(self).stop());
                        assert forall|n: Node<'a>|
                            #![trigger call_ensures(*matches, (n, old(self).scope()), false)]
                            n.wf() && n.doc() == old(self).scope().doc() && is_element(n) && old(self).cursor()
                                <= n.index() < old(self).stop() && !(exists|k: int|
                                0 <= k < out@.len() && out@[k].index() == n.index()) implies call_ensures(
                            *matches,
                            (n, old(self).scope()),
                            false,
                        ) by {
                            if n.index() < c0 {
                            }
                        }
                    }
                    return out;
                },
            }
        }
    }
}

impl<'a> Node<'a> {
    /// A walk over this node's descendants, in document order.
    pub fn select(&self) -> (r: Select<'a>)
        requires
            self.wf(),
        ensures
            r.wf(),
            r.scope() == *self,
            r.cursor() == self.index() + 1,
    {
        let end = self.subtree_end();
        Select { scope: *self, cursor: self.id() + 1, end }
    }
}

impl Html {
    /// A walk over every node below the root, in document order.
    pub fn select<'a>(&'a self) -> (r: Select<'a>)
        requires
            self.wf(),
        ensures
            r.wf(),
            r.scope().index() == 0,
            r.scope().doc() == *self,
            r.cursor() == 1,
    {
        self.root_node().select()
    }
}

/// One step of a walk: from `s0` to `s1`, yielding `r`, as `next_match` promises.
pub open spec fn select_step<'a>(s0: Select<'a>, s1: Select<'a>, r: Option<Node<'a>>) -> bool {
    &&& s1.wf()
    &&& s1.scope() == s0.scope()
    &&& match r {
        Some(e) => e.wf() && e.doc() == s0.scope().doc() && is_element(e) && s0.cursor() <= e.index()
            && s1.cursor() == e.index() + 1,
        None => s1.exhausted(),
    }
}

/// Elements come out in document order, each inside the scope's subtree and after
/// the scope node, and none twice: of two successive results the later one lies
/// strictly after the earlier one.
pub proof fn lemma_select_document_order<'a>(
    s0: Select<'a>,
    s1: Select<'a>,
    s2: Select<'a>,
    a: Node<'a>,
    b: Node<'a>,
)
    requires
        s0.wf(),
        select_step(s0, s1, Some(a)),
        select_step(s1, s2, Some(b)),
    ensures
        a.index() < b.index(),
        s0.scope().index() < a.index() < s0.scope().doc().end(s0.scope().index()),
        s0.scope().index() < b.index() < s0.scope().doc().end(s0.scope().index()),
{
}

} // verus!
