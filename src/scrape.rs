//! Site-specific extraction: find the title and body of an article in a parsed page
//! and render the body as Markdown. The elements are found by selectors, which the
//! caller supplies as predicates on handles.

use vstd::prelude::*;
use crate::node::NodeKind;
use crate::node_ref::{texts, Node};
use crate::tree::Html;
use crate::text::{is_white, ascii_ci_eq};
use crate::node::{AttrV, QualNameV, NodeData, class_tokens, keys_unique, plain_name};
use crate::element::is_element;

verus! {

/// Why an extraction failed.
#[derive(Clone, Copy, Debug, PartialEq, Eq, Structural)]
pub enum ZhihuError {
    UnknownError,
}

/// `s` without leading whitespace.
pub open spec fn trim_start(s: Seq<char>) -> Seq<char>
    decreases s.len(),
{
    if s.len() > 0 && is_white(s[0]) {
        trim_start(s.drop_first())
    } else {
        s
    }
}

/// `s` without trailing whitespace.
pub open spec fn trim_end(s: Seq<char>) -> Seq<char>
    decreases s.len(),
{
    if s.len() > 0 && is_white(s.last()) {
        trim_end(s.drop_last())
    } else {
        s
    }
}

/// `s` without leading and trailing whitespace.
pub open spec fn trimmed(s: Seq<char>) -> Seq<char> {
    trim_end(trim_start(s))
}

/// Relies on `str::trim`: the string without leading and trailing whitespace.
#[verifier::external_body]
fn trim(s: &str) -> (r: &str)
    ensures
        r@ == trimmed(s@),
{
    s.trim()
}

/// The value stored under `key` in an attribute table.
pub open spec fn attr_value(m: Seq<AttrV>, key: QualNameV) -> Option<Seq<char>>
    decreases m.len(),
{
    if m.len() == 0 {
        None
    } else if m[0].0 == key {
        Some(m[0].1)
    } else {
        attr_value(m.drop_first(), key)
    }
}

proof fn lemma_attr_value(m: Seq<AttrV>, key: QualNameV)
    requires
        keys_unique(m),
    ensures
        forall|k: int| 0 <= k < m.len() && m[k].0 == key ==> attr_value(m, key) == Some(m[k].1),
        (forall|k: int| 0 <= k < m.len() ==> m[k].0 != key) ==> attr_value(m, key) is None,
    decreases m.len(),
{
    if m.len() > 0 {
        let t = m.drop_first();
        assert(keys_unique(t)) by {
            assert forall|i: int, j: int| 0 <= i < j < t.len() implies t[i].0 != t[j].0 by {
                assert(t[i] == m[i + 1] && t[j] == m[j + 1]);
            }
        }
        lemma_attr_value(t, key);
        assert forall|k: int| 0 <= k < m.len() && m[k].0 == key implies attr_value(m, key) == Some(m[k].1) by {
            if k > 0 {
                assert(t[k - 1] == m[k]);
            }
        }
        if forall|k: int| 0 <= k < m.len() ==> m[k].0 != key {
            assert forall|k: int| 0 <= k < t.len() implies t[k].0 != key by {
                assert(t[k] == m[k + 1]);
            }
        }
    }
}

/// Whether an element has a class equal to `c` up to ASCII case.
pub open spec fn has_class_ci(d: NodeData, c: Seq<char>) -> bool {
    exists|x: Seq<char>| class_tokens(d.attrs_spec()).contains(x) && ascii_ci_eq(x, c)
}

/// `acc` in front of a rendering, when there is one.
pub open spec fn prepend(acc: Seq<char>, o: Option<Seq<char>>) -> Option<Seq<char>> {
    match o {
        Some(y) => Some(acc + y),
        None => None,
    }
}

/// The Markdown of node `i` of an answer body, or nothing when the subtree holds an
/// element the renderer does not know.
pub open spec fn answer_node(h: Html, i: int) -> Option<Seq<char>>
    decreases 2 * (h.end(i) - i),
{
    if !(0 <= i < h.len()) || h.end(i) <= i {
        None
    } else {
        match h.kind(i) {
            NodeKind::Text(t) => Some(trimmed(t@)),
            NodeKind::Element(d) => {
                let name = d.name_view().2;
                if name == "p"@ {
                    match answer_children(h, i + 1, h.end(i)) {
                        Some(x) => Some(x + "\n\n"@),
                        None => None,
                    }
                } else if name == "span"@ {
                    if has_class_ci(d, "ztext-math"@) {
                        match attr_value(d.attrs_spec(), plain_name("data-tex"@)) {
                            Some(v) => Some(" $$"@ + v + "$$ "@),
                            None => Some(seq![]),
                        }
                    } else {
                        answer_children(h, i + 1, h.end(i))
                    }
                } else if name == "br"@ {
                    Some("\n"@)
                } else if name == "figure"@ {
                    Some(seq![])
                } else {
                    None
                }
            },
            _ => Some(seq![]),
        }
    }
}

/// The Markdown of the siblings from node `c` on, up to `stop`.
pub open spec fn answer_children(h: Html, c: int, stop: int) -> Option<Seq<char>>
    decreases 2 * (stop - c) + 1,
{
    if c >= stop {
        Some(seq![])
    } else if h.end(c) <= c || h.end(c) > stop {
        None
    } else {
        match answer_node(h, c) {
            Some(x) => prepend(x, answer_children(h, h.end(c), stop)),
            None => None,
        }
    }
}

/// The Markdown of the siblings from node `c` on, up to `stop`, as far as they
/// render: the first sibling that does not render ends it.
pub open spec fn answer_until(h: Html, c: int, stop: int) -> Seq<char>
    decreases stop - c,
{
    if c >= stop || h.end(c) <= c || h.end(c) > stop {
        seq![]
    } else {
        match answer_node(h, c) {
            Some(x) => x + answer_until(h, h.end(c), stop),
            None => seq![],
        }
    }
}

/// `e` is the first element below the root that `m` accepts: `m` accepted `e` and
/// refused every element before it.
pub open spec fn is_first_match<'a, F: Fn(Node<'a>) -> bool>(html: Html, m: F, e: Node<'a>) -> bool {
    &&& e.wf()
    &&& e.doc() == html
    &&& is_element(e)
    &&& 0 < e.index()
    &&& call_ensures(m, (e,), true)
    &&& forall|n: Node<'a>|
        #![trigger call_ensures(m, (n,), false)]
        n.wf() && n.doc() == html && is_element(n) && 0 < n.index() < e.index() ==> call_ensures(m, (n,), false)
}

/// `m` refused every element below the root.
pub open spec fn no_match<'a, F: Fn(Node<'a>) -> bool>(html: Html, m: F) -> bool {
    forall|n: Node<'a>|
        #![trigger call_ensures(m, (n,), false)]
        n.wf() && n.doc() == html && is_element(n) && 0 < n.index() ==> call_ensures(m, (n,), false)
}

/// The text of node `i`'s first child, when that child is text.
pub open spec fn first_child_text(h: Html, i: int) -> Option<String> {
    match h.first_child(i) {
        Some(c) => match h.kind(c as int) {
            NodeKind::Text(t) => Some(t),
            _ => None,
        },
        None => None,
    }
}

/// `o` is the text that starts the first element `m` accepts, or nothing when there
/// is no such element or its first child is not text.
pub open spec fn selected_text<'a, F: Fn(Node<'a>) -> bool>(html: Html, m: F, o: Option<String>) -> bool {
    match o {
        Some(t) => exists|e: Node<'a>| is_first_match(html, m, e) && first_child_text(html, e.index()) == Some(t),
        None => no_match(html, m) || exists|e: Node<'a>|
            is_first_match(html, m, e) && first_child_text(html, e.index()) is None,
    }
}

/// The characters of a selected text, empty when there is none.
pub open spec fn text_or_empty(o: Option<String>) -> Seq<char> {
    match o {
        Some(t) => t@,
        None => seq![],
    }
}

/// The first element in document order below the root that `matches` accepts.
fn select_first<'a, F: Fn(Node<'a>) -> bool>(html: &'a Html, matches: &F) -> (r: Option<Node<'a>>)
    requires
        html.wf(),
        forall|n: Node<'a>| call_requires(*matches, (n,)),
    ensures
        r matches Some(e) ==> is_first_match(*html, *matches, e),
        r is None ==> no_match(*html, *matches),
{
    let mut s = html.select();
    let r = s.next_match(matches);
    proof {
        if r is None {
            assert forall|n: Node<'a>|
                #![trigger call_ensures(*matches, (n,), false)]
                n.wf() && n.doc() == *html && is_element(n) && 0 < n.index() implies call_ensures(
                *matches,
                (n,),
                false,
            ) by {
                assert(n.index() < html.len());
            }
        }
    }
    r
}

/// The text of the first child of the first element `matches` accepts, when that
/// child is text.
pub fn select_text<'a, F: Fn(Node<'a>) -> bool>(html: &'a Html, matches: &F) -> (r: Option<String>)
    requires
        html.wf(),
        forall|n: Node<'a>| call_requires(*matches, (n,)),
    ensures
        selected_text(*html, *matches, r),
{
    match select_first(html, matches) {
        Some(node) => match node.first_child() {
            Some(child) => match child.as_text() {
                Some(text) => {
                    let t = text.clone();
                    assert(first_child_text(*html, node.index()) == Some(t));
                    Some(t)
                },
                None => {
                    assert(first_child_text(*html, node.index()) is None);
                    None
                },
            },
            None => {
                assert(first_child_text(*html, node.index()) is None);
                None
            },
        },
        None => None,
    }
}

/// An answer on Zhihu: its title and its body in Markdown.
pub struct ZhihuAnswer {
    pub title: String,
    pub content: String,
}

impl ZhihuAnswer {
    /// An answer with empty title and body.
    pub fn new() -> (r: ZhihuAnswer)
        ensures
            r.title@.len() == 0,
            r.content@.len() == 0,
    {
        ZhihuAnswer { title: String::new(), content: String::new() }
    }

    /// The Markdown document: the title as a heading, then the body.
    pub fn to_markdown(&self) -> (r: String)
        ensures
            r@ == seq!['#', ' '] + self.title@ + seq!['\n', '\n'] + self.content@,
    {
        markdown_page(&self.title, &self.content)
    }

    /// Fills title and body from a parsed page.
    pub fn do_parse<'a, F: Fn(Node<'a>) -> bool, G: Fn(Node<'a>) -> bool>(
        &mut self,
        html: &'a Html,
        is_title: &F,
        is_content: &G,
    ) -> (r: Result<(), ZhihuError>)
        requires
            html.wf(),
            forall|n: Node<'a>| call_requires(*is_title, (n,)),
            forall|n: Node<'a>| call_requires(*is_content, (n,)),
        ensures
            r is Ok,
            exists|o: Option<String>|
                selected_text(*html, *is_title, o) && final(self).title == match o {
                    Some(t) => t,
                    None => old(self).title,
                },
            (no_match(*html, *is_content) && final(self).content == old(self).content) || exists|e: Node<'a>|
                is_first_match(*html, *is_content, e) && final(self).content@ == old(self).content@
                    + answer_until(*html, e.index() + 1, html.end(e.index())),
    {
        self.extract_title(html, is_title)?;
        self.extract_content(html, is_content)?;
        Ok(())
    }

    /// Takes the title from the text that starts the first title element; keeps the
    /// old title when there is no such text.
    pub fn extract_title<'a, F: Fn(Node<'a>) -> bool>(&mut self, html: &'a Html, is_title: &F) -> (r: Result<(), ZhihuError>)
        requires
            html.wf(),
            forall|n: Node<'a>| call_requires(*is_title, (n,)),
        ensures
            r is Ok,
            final(self).content == old(self).content,
            exists|o: Option<String>|
                selected_text(*html, *is_title, o) && final(self).title == match o {
                    Some(t) => t,
                    None => old(self).title,
                },
    {
        let o = select_text(html, is_title);
        if let Some(t) = o {
            self.title = t;
        }
        Ok(())
    }

    /// Renders the children of the first content element after the body so far; stops
    /// quietly at the first child that cannot be rendered.
    pub fn extract_content<'a, F: Fn(Node<'a>) -> bool>(&mut self, html: &'a Html, is_content: &F) -> (r: Result<(), ZhihuError>)
        requires
            html.wf(),
            forall|n: Node<'a>| call_requires(*is_content, (n,)),
        ensures
            r is Ok,
            final(self).title == old(self).title,
            (no_match(*html, *is_content) && final(self).content == old(self).content) || exists|e: Node<'a>|
                is_first_match(*html, *is_content, e) && final(self).content@ == old(self).content@
                    + answer_until(*html, e.index() + 1, html.end(e.index())),
    {
        let ghost c0 = self.content@;
        match select_first(html, is_content) {
            None => {},
            Some(node) => {
                let ghost h = *html;
                let ghost i = node.index();
                let ghost stop = h.end(i);
                let ghost mut acc: Seq<char> = seq![];
                let mut cur = node.first_child();
                proof {
                    crate::tree::lemma_len_fits(h);
                    if cur is None {
                        assert(stop == i + 1);
                    }
                }
                while cur.is_some()
                    invariant
                        node.wf(),
                        is_first_match(*html, *is_content, node),
                        c0 == old(self).content@,
                        h == node.doc(),
                        h == *html,
                        i == node.index(),
                        stop == h.end(i),
                        i < stop <= h.len(),
                        self.title == old(self).title,
                        self.content@ == c0 + acc,
                        cur matches Some(c) ==> c.wf() && c.doc() == h && h.parent(c.index()) == Some(i as usize)
                            && i < c.index() < stop,
                        answer_until(h, i + 1, stop) == acc + answer_until(
                            h,
                            match cur {
                                Some(c) => c.index(),
                                None => stop,
                            },
                            stop,
                        ),
                    decreases stop - match cur { Some(c) => c.index(), None => stop },
                {
                    let c = cur.unwrap();
                    let ghost ci = c.index();
                    proof {
                        assert(h.end(ci) <= h.end(i));
                        assert(ci < h.end(ci));
                    }
                    if self.read_content_node(c).is_err() {
                        assert(answer_until(h, ci, stop) =~= Seq::<char>::empty());
                        assert(self.content@ =~= c0 + answer_until(h, i + 1, stop));
                        assert(is_first_match(*html, *is_content, node) && self.content@ == old(self).content@
                            + answer_until(*html, node.index() + 1, html.end(node.index())));
                        return Ok(());
                    }
                    proof {
                        acc = acc + answer_node(h, ci)->0;
                    }
                    cur = c.next_sibling();
                    proof {
                        crate::tree::lemma_len_fits(h);
                        if let Some(d) = cur {
                            crate::tree::lemma_next_sibling(h, ci);
                            assert(d.index() == h.end(ci));
                        } else {
                            assert(h.end(ci) == stop);
                        }
                        assert(answer_until(h, i + 1, stop) =~= acc + answer_until(
                            h,
                            match cur {
                                Some(c) => c.index(),
                                None => stop,
                            },
                            stop,
                        ));
                    }
                }
                assert(answer_until(h, stop, stop) =~= Seq::<char>::empty());
                assert(self.content@ =~= c0 + answer_until(h, i + 1, stop));
            },
        }
        Ok(())
    }

    /// Appends the Markdown of one node: trimmed text; a paragraph's children and a
    /// blank line; a math span's TeX source between `$$`; another span's children; a
    /// line break for `br`; nothing for a figure or a node that is not text or an
    /// element. An element of any other name, at the node or below a paragraph or a
    /// plain span, is reported as an error and leaves the body as it was: the library
    /// does not panic on content it does not know.
    pub fn read_content_node(&mut self, node: Node) -> (r: Result<(), ZhihuError>)
        requires
            node.wf(),
        ensures
            final(self).title == old(self).title,
            r is Ok <==> answer_node(node.doc(), node.index()) is Some,
            r is Ok ==> final(self).content@ == old(self).content@ + answer_node(node.doc(), node.index())->0,
            r is Err ==> final(self).content == old(self).content,
    {
        let saved = self.content.clone();
        let r = self.render_node(node);
        if r.is_err() {
            self.content = saved;
        }
        r
    }

    /// Appends the Markdown of one node, as `read_content_node` describes; on an error
    /// part of it may already be appended.
    fn render_node(&mut self, node: Node) -> (r: Result<(), ZhihuError>)
        requires
            node.wf(),
        ensures
            final(self).title == old(self).title,
            old(self).content@.is_prefix_of(final(self).content@),
            r is Ok <==> answer_node(node.doc(), node.index()) is Some,
            r is Ok ==> final(self).content@ == old(self).content@ + answer_node(node.doc(), node.index())->0,
        decreases node.doc().end(node.index()) - node.index(),
    {
        let ghost c0 = self.content@;
        let ghost h = node.doc();
        let ghost i = node.index();
        assert(i < h.end(i));
        match node.as_kind() {
            NodeKind::Text(t) => {
                self.content.append(trim(t.as_str()));
            },
            NodeKind::Element(e) => {
                assert(e.wf());
                let name = e.name();
                if crate::text::str_eq(name, "p") {
                    self.read_children(node)?;
                    self.content.append("\n\n");
                } else if crate::text::str_eq(name, "span") {
                    if e.has_class("ztext-math") {
                        let tex = e.get_attribute("data-tex");
                        proof {
                            lemma_attr_value(e.attrs_spec(), plain_name("data-tex"@));
                        }
                        if let Some(s) = tex {
                            self.content.append(" $$");
                            self.content.append(s);
                            self.content.append("$$ ");
                            assert(self.content@ =~= c0 + (" $$"@ + s@ + "$$ "@));
                        } else {
                            assert(self.content@ =~= c0 + Seq::<char>::empty());
                        }
                    } else {
                        self.read_children(node)?;
                    }
                } else if crate::text::str_eq(name, "br") {
                    self.content.append("\n");
                } else if crate::text::str_eq(name, "figure") {
                    assert(self.content@ =~= c0 + Seq::<char>::empty());
                } else {
                    return Err(ZhihuError::UnknownError);
                }
            },
            _ => {
                assert(self.content@ =~= c0 + Seq::<char>::empty());
            },
        }
        assert(c0.is_prefix_of(self.content@));
        Ok(())
    }

    /// Appends the Markdown of each child in turn; stops at the first error.
    fn read_children(&mut self, node: Node) -> (r: Result<(), ZhihuError>)
        requires
            node.wf(),
            node.kind() is Element,
        ensures
            final(self).title == old(self).title,
            old(self).content@.is_prefix_of(final(self).content@),
            r is Ok <==> answer_children(node.doc(), node.index() + 1, node.doc().end(node.index())) is Some,
            r is Ok ==> final(self).content@ == old(self).content@ + answer_children(
                node.doc(),
                node.index() + 1,
                node.doc().end(node.index()),
            )->0,
        decreases node.doc().end(node.index()) - node.index(), 0nat,
    {
        let ghost h = node.doc();
        let ghost i = node.index();
        let ghost stop = h.end(i);
        let ghost c0 = self.content@;
        let ghost mut acc: Seq<char> = seq![];
        let mut cur = node.first_child();
        proof {
            crate::tree::lemma_len_fits(h);
            if cur is None {
                assert(stop == i + 1);
            }
        }
        while cur.is_some()
            invariant
                node.wf(),
                h == node.doc(),
                i == node.index(),
                stop == h.end(i),
                i < stop <= h.len(),
                self.title == old(self).title,
                self.content@ == c0 + acc,
                c0 == old(self).content@,
                cur matches Some(c) ==> c.wf() && c.doc() == h && h.parent(c.index()) == Some(i as usize) && i
                    < c.index() < stop,
                answer_children(h, i + 1, stop) == prepend(
                    acc,
                    answer_children(
                        h,
                        match cur {
                            Some(c) => c.index(),
                            None => stop,
                        },
                        stop,
                    ),
                ),
            decreases stop - match cur { Some(c) => c.index(), None => stop },
        {
            let c = cur.unwrap();
            let ghost ci = c.index();
            proof {
                assert(h.end(ci) <= h.end(i));
                assert(ci < h.end(ci));
            }
            let step = self.render_node(c);
            if step.is_err() {
                assert(c0.is_prefix_of(self.content@));
                return Err(ZhihuError::UnknownError);
            }
            proof {
                acc = acc + answer_node(h, ci)->0;
            }
            cur = c.next_sibling();
            proof {
                crate::tree::lemma_len_fits(h);
                if let Some(d) = cur {
                    crate::tree::lemma_next_sibling(h, ci);
                    assert(d.index() == h.end(ci));
                    assert(i < d.index() < stop);
                } else {
                    assert(h.end(ci) >= h.end(i));
                    assert(h.end(ci) == stop);
                }
                assert(self.content@ =~= c0 + acc);
            }
        }
        assert(acc + Seq::<char>::empty() =~= acc);
        Ok(())
    }
}

/// Whether serde_json accepts `text` as a JSON document.
pub uninterp spec fn json_accepts(text: Seq<char>) -> bool;

/// serde_json's document value, carried opaquely from `parse_json` to `json_debug`.
#[verifier::external_type_specification]
#[verifier::external_body]
pub struct ExJsonValue(serde_json::Value);

/// serde_json's parse error, mapped to `ZhihuError` by the caller.
#[verifier::external_type_specification]
#[verifier::external_body]
pub struct ExJsonError(serde_json::Error);

/// Relies on `serde_json::from_str`: a value when the text is a JSON document, an
/// error otherwise; which of the two depends on the text alone.
#[verifier::external_body]
fn parse_json(text: &str) -> (r: Result<serde_json::Value, serde_json::Error>)
    ensures
        r is Ok <==> json_accepts(text@),
{
    serde_json::from_str::<serde_json::Value>(text)
}

/// Relies on the `Debug` impl of `serde_json::Value`, in its pretty form.
#[verifier::external_body]
fn json_debug(v: &serde_json::Value) -> (r: String) {
    format!("{:#?}", v)
}

/// An article on Bilibili: its title and its body.
pub struct BilibiliArticle {
    pub title: String,
    pub content: String,
}

impl BilibiliArticle {
    /// An article with empty title and body.
    pub fn new() -> (r: BilibiliArticle)
        ensures
            r.title@.len() == 0,
            r.content@.len() == 0,
    {
        BilibiliArticle { title: String::new(), content: String::new() }
    }

    /// The Markdown document: the title as a heading, then the body.
    pub fn to_markdown(&self) -> (r: String)
        ensures
            r@ == seq!['#', ' '] + self.title@ + seq!['\n', '\n'] + self.content@,
    {
        markdown_page(&self.title, &self.content)
    }

    /// Fills title and body from a parsed page; fails when the page data is not JSON.
    pub fn do_parse<'a, F: Fn(Node<'a>) -> bool, G: Fn(Node<'a>) -> bool>(
        &mut self,
        html: &'a Html,
        is_title: &F,
        is_data: &G,
    ) -> (r: Result<(), ZhihuError>)
        requires
            html.wf(),
            forall|n: Node<'a>| call_requires(*is_title, (n,)),
            forall|n: Node<'a>| call_requires(*is_data, (n,)),
        ensures
            exists|o: Option<String>|
                selected_text(*html, *is_title, o) && final(self).title@ == text_or_empty(o),
            exists|o: Option<String>|
                selected_text(*html, *is_data, o) && (r is Ok <==> json_accepts(text_or_empty(o))),
            r is Err ==> final(self).content == old(self).content,
    {
        self.extract_title(html, is_title)?;
        self.extract_content(html, is_data)?;
        Ok(())
    }

    /// Takes the title from the text that starts the first title element, or the
    /// empty string when there is none.
    pub fn extract_title<'a, F: Fn(Node<'a>) -> bool>(&mut self, html: &'a Html, is_title: &F) -> (r: Result<(), ZhihuError>)
        requires
            html.wf(),
            forall|n: Node<'a>| call_requires(*is_title, (n,)),
        ensures
            r is Ok,
            final(self).content == old(self).content,
            exists|o: Option<String>|
                selected_text(*html, *is_title, o) && final(self).title@ == text_or_empty(o),
    {
        let o = select_text(html, is_title);
        let ghost og = o;
        self.title = match o {
            Some(t) => t,
            None => String::new(),
        };
        assert(selected_text(*html, *is_title, og) && self.title@ == text_or_empty(og));
        Ok(())
    }

    /// Decodes the page data, the text that starts the first data element (empty when
    /// there is none), as JSON, and keeps its pretty debug form as the body.
    pub fn extract_content<'a, F: Fn(Node<'a>) -> bool>(&mut self, html: &'a Html, is_data: &F) -> (r: Result<(), ZhihuError>)
        requires
            html.wf(),
            forall|n: Node<'a>| call_requires(*is_data, (n,)),
        ensures
            final(self).title == old(self).title,
            exists|o: Option<String>|
                selected_text(*html, *is_data, o) && (r is Ok <==> json_accepts(text_or_empty(o))),
            r is Err ==> final(self).content == old(self).content,
    {
        let o = select_text(html, is_data);
        let ghost og = o;
        let json = match o {
            Some(t) => t,
            None => String::new(),
        };
        assert(selected_text(*html, *is_data, og) && json@ == text_or_empty(og));
        match parse_json(json.as_str()) {
            Ok(v) => {
                self.content = json_debug(&v);
                Ok(())
            },
            Err(_) => Err(ZhihuError::UnknownError),
        }
    }
}

/// The strings of `s`, one after another.
pub open spec fn concat_all(s: Seq<Seq<char>>) -> Seq<char>
    decreases s.len(),
{
    if s.len() == 0 {
        seq![]
    } else {
        concat_all(s.drop_last()) + s.last()
    }
}

/// The code line of a line element: the trimmed text that starts it and a newline,
/// or nothing when it does not start with text.
pub open spec fn line_text(h: Html, j: int) -> Seq<char> {
    match first_child_text(h, j) {
        Some(t) => trimmed(t@) + "\n"@,
        None => seq![],
    }
}

/// The code lines of the line elements `l`, in order.
pub open spec fn lines_text(h: Html, l: Seq<Node>) -> Seq<char>
    decreases l.len(),
{
    if l.len() == 0 {
        seq![]
    } else {
        lines_text(h, l.drop_last()) + line_text(h, l.last().index())
    }
}

/// `l` lists, in document order, exactly the elements of `root`'s subtree below
/// `root` that `m` accepts: each listed one was accepted, every other one refused.
pub open spec fn is_match_list<'a, L: Fn(Node<'a>) -> bool>(root: Node<'a>, m: L, l: Seq<Node<'a>>) -> bool {
    &&& forall|k: int|
        0 <= k < l.len() ==> (#[trigger] l[k]).wf() && l[k].doc() == root.doc() && is_element(l[k]) && root.index()
            < l[k].index() < root.doc().end(root.index()) && call_ensures(m, (l[k],), true)
    &&& forall|j: int, k: int| 0 <= j < k < l.len() ==> l[j].index() < l[k].index()
    &&& forall|n: Node<'a>|
        #![trigger call_ensures(m, (n,), false)]
        n.wf() && n.doc() == root.doc() && is_element(n) && root.index() < n.index() < root.doc().end(root.index())
            && !(exists|k: int| 0 <= k < l.len() && l[k].index() == n.index()) ==> call_ensures(m, (n,), false)
}

/// A Rust code block holding the code lines of `l`.
pub open spec fn code_block(h: Html, l: Seq<Node>) -> Seq<char> {
    "```rust\n"@ + lines_text(h, l) + "```"@
}

/// `out` is the code block of the line elements that `m` accepts below node `i`.
pub open spec fn is_code_block<'a, L: Fn(Node<'a>) -> bool>(h: Html, i: int, m: L, out: Seq<char>) -> bool {
    exists|root: Node<'a>, l: Seq<Node<'a>>|
        root.wf() && root.doc() == h && root.index() == i && is_match_list(root, m, l) && out == code_block(h, l)
}

/// `out` is the Markdown of node `i` of a thread post: trimmed text; a paragraph's
/// children and a blank line; a line break for `br`; `[text](href)` for an `a` with
/// an `href`; the code block of a `div` of class `blockcode` (and neither
/// `attach_tips` nor `quote`); nothing for anything else.
pub open spec fn post_node<'a, L: Fn(Node<'a>) -> bool>(h: Html, i: int, m: L, out: Seq<char>) -> bool
    decreases 2 * (h.end(i) - i),
{
    if !(0 <= i < h.len()) || h.end(i) <= i {
        false
    } else {
        match h.kind(i) {
            NodeKind::Text(t) => out == trimmed(t@),
            NodeKind::Element(d) => {
                let name = d.name_view().2;
                if name == "div"@ {
                    if !has_class_ci(d, "attach_tips"@) && !has_class_ci(d, "quote"@) && has_class_ci(
                        d,
                        "blockcode"@,
                    ) {
                        is_code_block(h, i, m, out)
                    } else {
                        out == Seq::<char>::empty()
                    }
                } else if name == "p"@ {
                    exists|x: Seq<char>| post_children(h, i + 1, h.end(i), m, x) && out == x + "\n\n"@
                } else if name == "br"@ {
                    out == "\n"@
                } else if name == "a"@ {
                    match attr_value(d.attrs_spec(), plain_name("href"@)) {
                        Some(href) => out == "["@ + concat_all(texts(h, i, h.end(i))) + "]("@ + href + ")"@,
                        None => out == Seq::<char>::empty(),
                    }
                } else {
                    out == Seq::<char>::empty()
                }
            },
            _ => out == Seq::<char>::empty(),
        }
    }
}

/// `out` is the Markdown of the siblings from node `c` on, up to `stop`.
pub open spec fn post_children<'a, L: Fn(Node<'a>) -> bool>(h: Html, c: int, stop: int, m: L, out: Seq<char>) -> bool
    decreases 2 * (stop - c) + 1,
{
    if c >= stop {
        out == Seq::<char>::empty()
    } else if h.end(c) <= c || h.end(c) > stop {
        false
    } else {
        exists|x: Seq<char>, y: Seq<char>|
            post_node(h, c, m, x) && post_children(h, h.end(c), stop, m, y) && out == x + y
    }
}

/// `out` is the Markdown of the posts `l`: each post's children, then a rule.
pub open spec fn posts_out<'a, L: Fn(Node<'a>) -> bool>(h: Html, l: Seq<Node<'a>>, m: L, out: Seq<char>) -> bool
    decreases l.len(),
{
    if l.len() == 0 {
        out == Seq::<char>::empty()
    } else {
        exists|a: Seq<char>, b: Seq<char>|
            posts_out(h, l.drop_last(), m, a) && post_children(
                h,
                l.last().index() + 1,
                h.end(l.last().index()),
                m,
                b,
            ) && out == a + b + "\n\n---\n"@
    }
}

/// A thread on the emath forum: its title and its posts in Markdown.
pub struct EMathDissussion {
    pub title: String,
    pub content: String,
}

impl EMathDissussion {
    /// A thread with empty title and body.
    pub fn new() -> (r: EMathDissussion)
        ensures
            r.title@.len() == 0,
            r.content@.len() == 0,
    {
        EMathDissussion { title: String::new(), content: String::new() }
    }

    /// The Markdown document: the title as a heading, then the body.
    pub fn to_markdown(&self) -> (r: String)
        ensures
            r@ == seq!['#', ' '] + self.title@ + seq!['\n', '\n'] + self.content@,
    {
        markdown_page(&self.title, &self.content)
    }

    /// Fills title and body from a parsed page.
    pub fn do_parse<'a, F: Fn(Node<'a>) -> bool, G: Fn(Node<'a>) -> bool, L: Fn(Node<'a>) -> bool>(
        &mut self,
        html: &'a Html,
        is_title: &F,
        is_post: &G,
        is_line: &L,
    ) -> (r: Result<(), ZhihuError>)
        requires
            html.wf(),
            forall|n: Node<'a>| call_requires(*is_title, (n,)),
            forall|n: Node<'a>| call_requires(*is_post, (n,)),
            forall|n: Node<'a>| call_requires(*is_line, (n,)),
        ensures
            r is Ok,
            exists|o: Option<String>|
                selected_text(*html, *is_title, o) && final(self).title@ == text_or_empty(o),
            exists|root: Node<'a>, posts: Seq<Node<'a>>, out: Seq<char>|
                root.wf() && root.doc() == *html && root.index() == 0 && is_match_list(root, *is_post, posts)
                    && posts_out(*html, posts, *is_line, out) && final(self).content@ == old(self).content@ + out,
    {
        self.extract_title(html, is_title)?;
        self.extract_content(html, is_post, is_line)?;
        Ok(())
    }

    /// Takes the title from the text that starts the first title element, or the
    /// empty string when there is none.
    pub fn extract_title<'a, F: Fn(Node<'a>) -> bool>(&mut self, html: &'a Html, is_title: &F) -> (r: Result<(), ZhihuError>)
        requires
            html.wf(),
            forall|n: Node<'a>| call_requires(*is_title, (n,)),
        ensures
            r is Ok,
            final(self).content == old(self).content,
            exists|o: Option<String>|
                selected_text(*html, *is_title, o) && final(self).title@ == text_or_empty(o),
    {
        let o = select_text(html, is_title);
        let ghost og = o;
        self.title = match o {
            Some(t) => t,
            None => String::new(),
        };
        assert(selected_text(*html, *is_title, og) && self.title@ == text_or_empty(og));
        Ok(())
    }

    /// Renders every post element in document order: its children, then a rule.
    pub fn extract_content<'a, G: Fn(Node<'a>) -> bool, L: Fn(Node<'a>) -> bool>(
        &mut self,
        html: &'a Html,
        is_post: &G,
        is_line: &L,
    ) -> (r: Result<(), ZhihuError>)
        requires
            html.wf(),
            forall|n: Node<'a>| call_requires(*is_post, (n,)),
            forall|n: Node<'a>| call_requires(*is_line, (n,)),
        ensures
            r is Ok,
            final(self).title == old(self).title,
            exists|root: Node<'a>, posts: Seq<Node<'a>>, out: Seq<char>|
                root.wf() && root.doc() == *html && root.index() == 0 && is_match_list(root, *is_post, posts)
                    && posts_out(*html, posts, *is_line, out) && final(self).content@ == old(self).content@ + out,
    {
        let ghost c0 = self.content@;
        let mut sel = html.select();
        let ghost root = sel.scope();
        let posts = sel.collect_matches(is_post);
        assert(is_match_list(root, *is_post, posts@));
        let n = posts.len();
        let mut i: usize = 0;
        assert(posts@.take(0) =~= Seq::<Node<'a>>::empty());
        assert(posts_out(*html, posts@.take(0), *is_line, Seq::<char>::empty()));
        assert(self.content@ =~= c0 + Seq::<char>::empty());
        while i < n
            invariant
                n == posts@.len(),
                i <= n,
                forall|k: int|
                    0 <= k < posts@.len() ==> (#[trigger] posts@[k]).wf() && posts@[k].doc() == *html && is_element(
                        posts@[k],
                    ),
                forall|n: Node<'a>| call_requires(*is_line, (n,)),
                self.title == old(self).title,
                c0 == old(self).content@,
                exists|a: Seq<char>| posts_out(*html, posts@.take(i as int), *is_line, a) && self.content@ == c0 + a,
            decreases n - i,
        {
            let post = posts[i];
            assert(post == posts@[i as int]);
            let ghost a = choose|a: Seq<char>| posts_out(*html, posts@.take(i as int), *is_line, a) && self.content@ == c0 + a;
            let ghost before = self.content@;
            self.read_children(post, is_line);
            let ghost b = self.content@.skip(before.len() as int);
            proof {
                let y = choose|y: Seq<char>|
                    post_children(post.doc(), post.index() + 1, post.doc().end(post.index()), *is_line, y)
                        && self.content@ == before + y;
                assert(y =~= b);
            }
            assert(self.content@ =~= before + b);
            self.content.append("\n\n---\n");
            proof {
                let t = posts@.take(i + 1);
                assert(t.drop_last() =~= posts@.take(i as int));
                assert(t.last() == post);
                assert(posts_out(*html, t.drop_last(), *is_line, a) && post_children(
                    *html,
                    t.last().index() + 1,
                    html.end(t.last().index()),
                    *is_line,
                    b,
                ));
                assert(posts_out(*html, t, *is_line, a + b + "\n\n---\n"@));
                assert(self.content@ =~= c0 + (a + b + "\n\n---\n"@));
            }
            i = i + 1;
        }
        assert(posts@.take(n as int) =~= posts@);
        Ok(())
    }

    /// Appends the Markdown of each child of `node` in turn.
    fn read_children<'a, L: Fn(Node<'a>) -> bool>(&mut self, node: Node<'a>, is_line: &L)
        requires
            node.wf(),
            forall|n: Node<'a>| call_requires(*is_line, (n,)),
        ensures
            final(self).title == old(self).title,
            exists|y: Seq<char>|
                post_children(node.doc(), node.index() + 1, node.doc().end(node.index()), *is_line, y)
                    && final(self).content@ == old(self).content@ + y,
        decreases node.doc().end(node.index()) - node.index(), 0nat,
    {
        let ghost h = node.doc();
        let ghost i = node.index();
        let ghost stop = h.end(i);
        let ghost c0 = self.content@;
        let ghost mut acc: Seq<char> = seq![];
        let mut cur = node.first_child();
        proof {
            crate::tree::lemma_len_fits(h);
            if cur is None {
                assert(stop == i + 1);
            }
            assert forall|y: Seq<char>| post_children(h, i + 1, stop, *is_line, y) implies post_children(
                h,
                i + 1,
                stop,
                *is_line,
                acc + y,
            ) by {
                assert(acc + y =~= y);
            }
        }
        while cur.is_some()
            invariant
                node.wf(),
                h == node.doc(),
                i == node.index(),
                stop == h.end(i),
                i < stop <= h.len(),
                forall|n: Node<'a>| call_requires(*is_line, (n,)),
                self.title == old(self).title,
                c0 == old(self).content@,
                self.content@ == c0 + acc,
                cur matches Some(c) ==> c.wf() && c.doc() == h && h.parent(c.index()) == Some(i as usize) && i
                    < c.index() < stop,
                forall|y: Seq<char>|
                    post_children(
                        h,
                        match cur {
                            Some(c) => c.index(),
                            None => stop,
                        },
                        stop,
                        *is_line,
                        y,
                    ) ==> post_children(h, i + 1, stop, *is_line, acc + y),
            decreases stop - match cur { Some(c) => c.index(), None => stop },
        {
            let c = cur.unwrap();
            let ghost ci = c.index();
            proof {
                assert(h.end(ci) <= h.end(i));
                assert(ci < h.end(ci));
            }
            let ghost before = self.content@;
            self.read_content_node(c, is_line);
            let ghost x = self.content@.skip(before.len() as int);
            proof {
                let x0 = choose|x0: Seq<char>| post_node(h, ci, *is_line, x0) && self.content@ == before + x0;
                assert(x =~= x0);
            }
            cur = c.next_sibling();
            proof {
                crate::tree::lemma_len_fits(h);
                let pos = match cur {
                    Some(d) => d.index(),
                    None => stop,
                };
                if let Some(d) = cur {
                    crate::tree::lemma_next_sibling(h, ci);
                    assert(d.index() == h.end(ci));
                } else {
                    assert(h.end(ci) == stop);
                }
                assert forall|y: Seq<char>| post_children(h, pos, stop, *is_line, y) implies post_children(
                    h,
                    i + 1,
                    stop,
                    *is_line,
                    (acc + x) + y,
                ) by {
                    assert(post_children(h, ci, stop, *is_line, x + y));
                    assert((acc + x) + y =~= acc + (x + y));
                }
                acc = acc + x;
                assert(self.content@ =~= c0 + acc);
            }
        }
        proof {
            assert(post_children(h, stop, stop, *is_line, Seq::<char>::empty()));
            assert(acc + Seq::<char>::empty() =~= acc);
        }
    }

    /// Appends the Markdown of one node: trimmed text; a paragraph's children and a
    /// blank line; a line break for `br`; a link `[text](href)` for an `a` with an
    /// `href`; the code block of a `div` of class `blockcode`; nothing for anything
    /// else.
    pub fn read_content_node<'a, L: Fn(Node<'a>) -> bool>(&mut self, node: Node<'a>, is_line: &L)
        requires
            node.wf(),
            forall|n: Node<'a>| call_requires(*is_line, (n,)),
        ensures
            final(self).title == old(self).title,
            exists|x: Seq<char>| post_node(node.doc(), node.index(), *is_line, x) && final(self).content@ == old(
                self,
            ).content@ + x,
        decreases node.doc().end(node.index()) - node.index(),
    {
        let ghost c0 = self.content@;
        let ghost h = node.doc();
        let ghost i = node.index();
        assert(i < h.end(i));
        match node.as_kind() {
            NodeKind::Text(t) => {
                self.content.append(trim(t.as_str()));
                assert(post_node(h, i, *is_line, trimmed(t@)));
            },
            NodeKind::Element(e) => {
                assert(e.wf());
                let name = e.name();
                if crate::text::str_eq(name, "div") {
                    if !e.has_class("attach_tips") && !e.has_class("quote") && e.has_class("blockcode") {
                        self.extract_code_block(node, is_line);
                        let ghost x = choose|x: Seq<char>| is_code_block(h, i, *is_line, x) && self.content@ == c0 + x;
                        assert(post_node(h, i, *is_line, x));
                    } else {
                        assert(post_node(h, i, *is_line, Seq::<char>::empty()));
                        assert(self.content@ =~= c0 + Seq::<char>::empty());
                    }
                } else if crate::text::str_eq(name, "p") {
                    self.read_children(node, is_line);
                    let ghost y = choose|y: Seq<char>| post_children(h, i + 1, h.end(i), *is_line, y) && self.content@ == c0 + y;
                    self.content.append("\n\n");
                    assert(post_node(h, i, *is_line, y + "\n\n"@));
                    assert(self.content@ =~= c0 + (y + "\n\n"@));
                } else if crate::text::str_eq(name, "br") {
                    self.content.append("\n");
                    assert(post_node(h, i, *is_line, "\n"@));
                } else if crate::text::str_eq(name, "a") {
                    let href = e.get_attribute("href");
                    proof {
                        lemma_attr_value(e.attrs_spec(), plain_name("href"@));
                    }
                    if let Some(href) = href {
                        let ts = node.text();
                        let ghost all = texts(h, i, h.end(i));
                        self.content.append("[");
                        let ghost base = self.content@;
                        let m = ts.len();
                        let mut j: usize = 0;
                        assert(all.take(0) =~= Seq::<Seq<char>>::empty());
                        assert(self.content@ =~= base + concat_all(all.take(0)));
                        while j < m
                            invariant
                                m == ts@.len(),
                                m == all.len(),
                                j <= m,
                                forall|k: int| 0 <= k < ts@.len() ==> #[trigger] ts@[k]@ == all[k],
                                self.title == old(self).title,
                                self.content@ == base + concat_all(all.take(j as int)),
                            decreases m - j,
                        {
                            self.content.append(ts[j]);
                            proof {
                                assert(all.take(j + 1).drop_last() =~= all.take(j as int));
                                assert(ts@[j as int]@ == all[j as int]);
                                assert(self.content@ =~= base + concat_all(all.take(j + 1)));
                            }
                            j = j + 1;
                        }
                        assert(all.take(m as int) =~= all);
                        self.content.append("](");
                        self.content.append(href);
                        self.content.append(")");
                        let ghost x = "["@ + concat_all(all) + "]("@ + href@ + ")"@;
                        assert(post_node(h, i, *is_line, x));
                        assert(self.content@ =~= c0 + x);
                    } else {
                        assert(post_node(h, i, *is_line, Seq::<char>::empty()));
                        assert(self.content@ =~= c0 + Seq::<char>::empty());
                    }
                } else {
                    assert(post_node(h, i, *is_line, Seq::<char>::empty()));
                    assert(self.content@ =~= c0 + Seq::<char>::empty());
                }
            },
            _ => {
                assert(post_node(h, i, *is_line, Seq::<char>::empty()));
                assert(self.content@ =~= c0 + Seq::<char>::empty());
            },
        }
    }

    /// Appends a Rust code block with one line for each line element in the subtree:
    /// the trimmed text that starts it, when there is one.
    pub fn extract_code_block<'a, L: Fn(Node<'a>) -> bool>(&mut self, node: Node<'a>, is_line: &L)
        requires
            node.wf(),
            forall|n: Node<'a>| call_requires(*is_line, (n,)),
        ensures
            final(self).title == old(self).title,
            exists|x: Seq<char>| is_code_block(node.doc(), node.index(), *is_line, x) && final(self).content@ == old(
                self,
            ).content@ + x,
    {
        let ghost c0 = self.content@;
        let ghost h = node.doc();
        self.content.append("```rust\n");
        let ghost base = self.content@;
        let mut sel = node.select();
        let lines = sel.collect_matches(is_line);
        assert(is_match_list(node, *is_line, lines@));
        let n = lines.len();
        let mut i: usize = 0;
        assert(lines@.take(0) =~= Seq::<Node<'a>>::empty());
        assert(self.content@ =~= base + lines_text(h, lines@.take(0)));
        while i < n
            invariant
                n == lines@.len(),
                i <= n,
                forall|k: int| 0 <= k < lines@.len() ==> (#[trigger] lines@[k]).wf() && lines@[k].doc() == h,
                self.title == old(self).title,
                self.content@ == base + lines_text(h, lines@.take(i as int)),
            decreases n - i,
        {
            let li = lines[i];
            assert(li == lines@[i as int]);
            proof {
                assert(lines@.take(i + 1).drop_last() =~= lines@.take(i as int));
                assert(lines@.take(i + 1).last() == li);
            }
            let ghost before = self.content@;
            match li.first_child() {
                Some(c) => match c.as_text() {
                    Some(s) => {
                        self.content.append(trim(s.as_str()));
                        self.content.append("\n");
                        assert(first_child_text(h, li.index()) == Some(*s));
                        assert(self.content@ =~= before + line_text(h, li.index()));
                    },
                    None => {
                        assert(first_child_text(h, li.index()) is None);
                        assert(self.content@ =~= before + line_text(h, li.index()));
                    },
                },
                None => {
                    assert(first_child_text(h, li.index()) is None);
                    assert(self.content@ =~= before + line_text(h, li.index()));
                },
            }
            i = i + 1;
        }
        self.content.append("```");
        assert(lines@.take(n as int) =~= lines@);
        proof {
            let x = code_block(h, lines@);
            assert(is_code_block(h, node.index(), *is_line, x));
            assert(self.content@ =~= c0 + x);
        }
    }
}

/// `# title`, a blank line, then the body.
fn markdown_page(title: &String, content: &String) -> (r: String)
    ensures
        r@ == seq!['#', ' '] + title@ + seq!['\n', '\n'] + content@,
{
    let mut out = String::new();
    out.append("# ");
    out.append(title.as_str());
    out.append("\n\n");
    out.append(content.as_str());
    proof {
        reveal_strlit("# ");
        reveal_strlit("\n\n");
    }
    assert(out@ =~= seq!['#', ' '] + title@ + seq!['\n', '\n'] + content@);
    out
}

} // verus!
