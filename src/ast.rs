//! A small HTML tree that is built by hand and written out as markup.

use vstd::prelude::*;
use crate::node::{insert_class, no_dups, sorted_strict, strings_view};
use crate::text::{lemma_lex_total, lex_lt, str_eq, str_less};

verus! {

/// A doctype.
pub struct DocType {
    pub name: String,
    pub public_id: String,
    pub system_id: String,
}

/// A processing instruction.
pub struct ProcessingInstruction {
    pub target: String,
    pub data: String,
}

/// A node of the tree.
pub enum HtmlNode {
    Doctype(DocType),
    Comment(String),
    Text(String),
    Element(HtmlElement),
    ProcessingInstruction(ProcessingInstruction),
}

/// An element: a tag, an id, a set of classes, attributes ordered by name, and
/// children.
pub struct HtmlElement {
    tag: String,
    id: String,
    classes: Vec<String>,
    attributes: Vec<(String, String)>,
    children: Vec<HtmlNode>,
}

/// The names and values of an attribute list.
pub open spec fn pairs_view(v: Seq<(String, String)>) -> Seq<(Seq<char>, Seq<char>)> {
    v.map_values(|p: (String, String)| (p.0@, p.1@))
}

/// Names sorted strictly, hence each once.
pub open spec fn keys_sorted(a: Seq<(Seq<char>, Seq<char>)>) -> bool {
    forall|i: int| 0 <= i < a.len() - 1 ==> lex_lt(#[trigger] a[i].0, a[i + 1].0)
}

/// The text of a character as written by `add_text`.
pub open spec fn escape_char(c: char) -> Seq<char> {
    if c == '<' {
        seq!['&', 'l', 't', ';']
    } else if c == '>' {
        seq!['&', 'g', 't', ';']
    } else if c == '&' {
        seq!['&', 'a', 'm', 'p', ';']
    } else if c == '"' {
        seq!['&', 'q', 'u', 'o', 't', ';']
    } else if c == '\'' {
        seq!['&', '#', '3', '9', ';']
    } else {
        seq![c]
    }
}

/// `s` with the five markup characters escaped.
pub open spec fn escaped(s: Seq<char>) -> Seq<char>
    decreases s.len(),
{
    if s.len() == 0 {
        seq![]
    } else {
        escaped(s.drop_last()) + escape_char(s.last())
    }
}

/// The classes separated by single spaces.
pub open spec fn class_list(c: Seq<Seq<char>>) -> Seq<char>
    decreases c.len(),
{
    if c.len() == 0 {
        seq![]
    } else if c.len() == 1 {
        c[0]
    } else {
        class_list(c.drop_last()) + seq![' '] + c.last()
    }
}

/// Each attribute as ` name="value"`.
pub open spec fn attr_list(a: Seq<(Seq<char>, Seq<char>)>) -> Seq<char>
    decreases a.len(),
{
    if a.len() == 0 {
        seq![]
    } else {
        attr_list(a.drop_last()) + seq![' '] + a.last().0 + seq!['=', '"'] + a.last().1 + seq!['"']
    }
}

impl HtmlElement {
    /// The tag.
    pub closed spec fn tag_spec(&self) -> Seq<char> {
        self.tag@
    }

    /// The id; empty when there is none.
    pub closed spec fn id_spec(&self) -> Seq<char> {
        self.id@
    }

    /// The classes, sorted.
    pub closed spec fn classes_spec(&self) -> Seq<Seq<char>> {
        strings_view(self.classes@)
    }

    /// The attributes, sorted by name.
    pub closed spec fn attrs_spec(&self) -> Seq<(Seq<char>, Seq<char>)> {
        pairs_view(self.attributes@)
    }

    /// The children.
    pub closed spec fn children_spec(&self) -> Seq<HtmlNode> {
        self.children@
    }

    /// Classes and attribute names are sorted and unique.
    pub open spec fn wf(&self) -> bool {
        &&& sorted_strict(self.classes_spec())
        &&& no_dups(self.classes_spec())
        &&& keys_sorted(self.attrs_spec())
    }

    /// The start tag: the tag, then the id, the classes and the attributes.
    pub open spec fn open_tag(&self) -> Seq<char> {
        seq!['<'] + self.tag_spec() + (if self.id_spec().len() > 0 {
            seq![' ', 'i', 'd', '=', '"'] + self.id_spec() + seq!['"']
        } else {
            seq![]
        }) + (if self.classes_spec().len() > 0 {
            seq![' ', 'c', 'l', 'a', 's', 's', '=', '"'] + class_list(self.classes_spec()) + seq!['"']
        } else {
            seq![]
        }) + attr_list(self.attrs_spec())
    }
}

/// The markup of an element: its start tag, then `/>` when it has no children, or
/// `>`, the children and the end tag.
pub open spec fn elem_html(e: HtmlElement) -> Seq<char>
    decreases e, 1nat, 0int,
{
    e.open_tag() + if e.children_spec().len() == 0 {
        seq!['/', '>']
    } else {
        seq!['>'] + children_html(e, e.children_spec().len() as int) + seq!['<', '/'] + e.tag_spec() + seq!['>']
    }
}

/// The markup of the first `k` children of `e`.
pub open spec fn children_html(e: HtmlElement, k: int) -> Seq<char>
    decreases e, 0nat, k,
{
    if k <= 0 || k > e.children_spec().len() {
        seq![]
    } else {
        children_html(e, k - 1) + node_html(e.children_spec()[k - 1])
    }
}

/// The markup of a node: a fixed doctype, a comment padded with spaces, text as it
/// is, an element, or a processing instruction.
pub open spec fn node_html(n: HtmlNode) -> Seq<char>
    decreases n, 2nat, 0int,
{
    match n {
        HtmlNode::Doctype(_) => "<!DOCTYPE html>"@,
        HtmlNode::Comment(c) => seq!['<', '!', '-', '-', ' '] + c@ + seq![' ', '-', '-', '>'],
        HtmlNode::Text(t) => t@,
        HtmlNode::Element(e) => elem_html(e),
        HtmlNode::ProcessingInstruction(p) => seq!['<', '?'] + p.target@ + seq![' '] + p.data@ + seq!['?', '>'],
    }
}

impl HtmlElement {
    /// An element with tag `tag` and nothing else.
    pub fn new(tag: &str) -> (r: HtmlElement)
        ensures
            r.wf(),
            r.tag_spec() == tag@,
            r.id_spec().len() == 0,
            r.classes_spec().len() == 0,
            r.attrs_spec().len() == 0,
            r.children_spec().len() == 0,
    {
        let r = HtmlElement {
            tag: tag.to_owned(),
            id: String::new(),
            classes: Vec::new(),
            attributes: Vec::new(),
            children: Vec::new(),
        };
        assert(r.classes_spec() =~= Seq::<Seq<char>>::empty());
        assert(r.attrs_spec() =~= Seq::<(Seq<char>, Seq<char>)>::empty());
        r
    }

    /// Sets the tag.
    pub fn set_tag(&mut self, tag: &str)
        ensures
            final(self).tag_spec() == tag@,
            final(self).id_spec() == old(self).id_spec(),
            final(self).classes_spec() == old(self).classes_spec(),
            final(self).attrs_spec() == old(self).attrs_spec(),
            final(self).children_spec() == old(self).children_spec(),
    {
        self.tag = tag.to_owned();
    }

    /// The id; empty when there is none.
    pub fn get_id(&self) -> (r: &str)
        ensures
            r@ == self.id_spec(),
    {
        self.id.as_str()
    }

    /// Sets the id.
    pub fn set_id(&mut self, id: &str)
        ensures
            final(self).id_spec() == id@,
            final(self).tag_spec() == old(self).tag_spec(),
            final(self).classes_spec() == old(self).classes_spec(),
            final(self).attrs_spec() == old(self).attrs_spec(),
            final(self).children_spec() == old(self).children_spec(),
    {
        self.id = id.to_owned();
    }

    /// This element with the id set.
    pub fn with_id(self, id: &str) -> (r: HtmlElement)
        ensures
            r.id_spec() == id@,
            r.tag_spec() == self.tag_spec(),
            r.classes_spec() == self.classes_spec(),
            r.attrs_spec() == self.attrs_spec(),
            r.children_spec() == self.children_spec(),
    {
        let mut e = self;
        e.set_id(id);
        e
    }

    /// The classes, sorted.
    pub fn get_classes(&self) -> (r: &Vec<String>)
        ensures
            strings_view(r@) == self.classes_spec(),
    {
        &self.classes
    }

    /// Adds a class; a class already present is not added again.
    pub fn add_class(&mut self, class: &str)
        requires
            old(self).wf(),
        ensures
            final(self).wf(),
            forall|x: Seq<char>|
                final(self).classes_spec().contains(x) <==> (old(self).classes_spec().contains(x) || x == class@),
            final(self).tag_spec() == old(self).tag_spec(),
            final(self).id_spec() == old(self).id_spec(),
            final(self).attrs_spec() == old(self).attrs_spec(),
            final(self).children_spec() == old(self).children_spec(),
    {
        insert_class(&mut self.classes, class.to_owned());
    }

    /// This element with a class added.
    pub fn with_class(self, class: &str) -> (r: HtmlElement)
        requires
            self.wf(),
        ensures
            r.wf(),
            forall|x: Seq<char>| r.classes_spec().contains(x) <==> (self.classes_spec().contains(x) || x == class@),
            r.tag_spec() == self.tag_spec(),
            r.id_spec() == self.id_spec(),
            r.attrs_spec() == self.attrs_spec(),
            r.children_spec() == self.children_spec(),
    {
        let mut e = self;
        e.add_class(class);
        e
    }

    /// The attributes, sorted by name.
    pub fn get_attributes(&self) -> (r: &Vec<(String, String)>)
        ensures
            pairs_view(r@) == self.attrs_spec(),
    {
        &self.attributes
    }

    /// Sets attribute `key` to `value`, replacing an earlier value.
    pub fn add_attribute(&mut self, key: &str, value: &str)
        requires
            old(self).wf(),
        ensures
            final(self).wf(),
            exists|k: int|
                0 <= k < final(self).attrs_spec().len() && final(self).attrs_spec()[k] == (key@, value@),
            forall|k: int|
                0 <= k < old(self).attrs_spec().len() && old(self).attrs_spec()[k].0 != key@
                    ==> final(self).attrs_spec().contains(old(self).attrs_spec()[k]),
            final(self).attrs_spec().len() <= old(self).attrs_spec().len() + 1,
            final(self).tag_spec() == old(self).tag_spec(),
            final(self).id_spec() == old(self).id_spec(),
            final(self).classes_spec() == old(self).classes_spec(),
            final(self).children_spec() == old(self).children_spec(),
    {
        let ghost a0 = self.attrs_spec();
        let n = self.attributes.len();
        let mut p: usize = 0;
        while p < n && str_less(self.attributes[p].0.as_str(), key)
            invariant
                n == self.attributes@.len(),
                a0 == pairs_view(self.attributes@),
                p <= n,
                p > 0 ==> lex_lt(a0[p - 1].0, key@),
            decreases n - p,
        {
            p = p + 1;
        }
        if p < n && str_eq(self.attributes[p].0.as_str(), key) {
            let k = self.attributes[p].0.clone();
            self.attributes.set(p, (k, value.to_owned()));
            proof {
                let a1 = self.attrs_spec();
                assert(a1 =~= a0.update(p as int, (key@, value@)));
                assert(a1[p as int] == (key@, value@));
                assert forall|i: int| 0 <= i < a1.len() - 1 implies lex_lt(#[trigger] a1[i].0, a1[i + 1].0) by {
                    assert(a1[i].0 == a0[i].0 && a1[i + 1].0 == a0[i + 1].0);
                }
                assert forall|k: int| 0 <= k < a0.len() && a0[k].0 != key@ implies a1.contains(a0[k]) by {
                    assert(a1[k] == a0[k]);
                }
            }
        } else {
            if p < n {
                proof {
                    lemma_lex_total(a0[p as int].0, key@);
                }
            }
            self.attributes.insert(p, (key.to_owned(), value.to_owned()));
            proof {
                let a1 = self.attrs_spec();
                assert(a1 =~= a0.insert(p as int, (key@, value@)));
                assert(a1[p as int] == (key@, value@));
                assert forall|i: int| 0 <= i < a1.len() - 1 implies lex_lt(#[trigger] a1[i].0, a1[i + 1].0) by {
                    if i < p - 1 {
                        assert(a1[i] == a0[i] && a1[i + 1] == a0[i + 1]);
                    } else if i == p - 1 {
                        assert(a1[i] == a0[i]);
                    } else if i == p {
                        assert(a1[i + 1] == a0[i]);
                    } else {
                        assert(a1[i] == a0[i - 1] && a1[i + 1] == a0[i]);
                    }
                }
                assert forall|k: int| 0 <= k < a0.len() && a0[k].0 != key@ implies a1.contains(a0[k]) by {
                    if k < p {
                        assert(a1[k] == a0[k]);
                    } else {
                        assert(a1[k + 1] == a0[k]);
                    }
                }
            }
        }
    }

    /// This element with attribute `key` set to `value`.
    pub fn with_attribute(self, key: &str, value: &str) -> (r: HtmlElement)
        requires
            self.wf(),
        ensures
            r.wf(),
            exists|k: int| 0 <= k < r.attrs_spec().len() && r.attrs_spec()[k] == (key@, value@),
            r.tag_spec() == self.tag_spec(),
            r.id_spec() == self.id_spec(),
            r.classes_spec() == self.classes_spec(),
            r.children_spec() == self.children_spec(),
    {
        let mut e = self;
        e.add_attribute(key, value);
        e
    }

    /// The children.
    pub fn get_children(&self) -> (r: &Vec<HtmlNode>)
        ensures
            r@ == self.children_spec(),
    {
        &self.children
    }

    /// Appends a child.
    pub fn add_child(&mut self, child: HtmlNode)
        ensures
            final(self).children_spec() == old(self).children_spec().push(child),
            final(self).tag_spec() == old(self).tag_spec(),
            final(self).id_spec() == old(self).id_spec(),
            final(self).classes_spec() == old(self).classes_spec(),
            final(self).attrs_spec() == old(self).attrs_spec(),
    {
        self.children.push(child);
    }

    /// This element with a child appended.
    pub fn with_child(self, child: HtmlNode) -> (r: HtmlElement)
        ensures
            r.children_spec() == self.children_spec().push(child),
            r.tag_spec() == self.tag_spec(),
            r.id_spec() == self.id_spec(),
            r.classes_spec() == self.classes_spec(),
            r.attrs_spec() == self.attrs_spec(),
    {
        let mut e = self;
        e.add_child(child);
        e
    }

    /// Appends text that is written out as it is.
    pub fn add_safe_text(&mut self, text: String)
        ensures
            final(self).children_spec() == old(self).children_spec().push(HtmlNode::Text(text)),
            final(self).tag_spec() == old(self).tag_spec(),
            final(self).id_spec() == old(self).id_spec(),
            final(self).classes_spec() == old(self).classes_spec(),
            final(self).attrs_spec() == old(self).attrs_spec(),
    {
        self.children.push(HtmlNode::Text(text));
    }

    /// Appends text with `<`, `>`, `&`, `"` and `'` escaped.
    pub fn add_text(&mut self, text: &str)
        ensures
            final(self).children_spec().len() == old(self).children_spec().len() + 1,
            final(self).children_spec().drop_last() == old(self).children_spec(),
            final(self).children_spec().last() matches HtmlNode::Text(t) && t@ == escaped(text@),
            final(self).tag_spec() == old(self).tag_spec(),
            final(self).id_spec() == old(self).id_spec(),
            final(self).classes_spec() == old(self).classes_spec(),
            final(self).attrs_spec() == old(self).attrs_spec(),
    {
        let out = escape_text(text);
        self.children.push(HtmlNode::Text(out));
        assert(self.children_spec().drop_last() =~= old(self).children_spec());
    }

    /// This element with safe text appended.
    pub fn with_safe_text(self, text: String) -> (r: HtmlElement)
        ensures
            r.children_spec() == self.children_spec().push(HtmlNode::Text(text)),
            r.tag_spec() == self.tag_spec(),
            r.id_spec() == self.id_spec(),
            r.classes_spec() == self.classes_spec(),
            r.attrs_spec() == self.attrs_spec(),
    {
        let mut e = self;
        e.add_safe_text(text);
        e
    }

    /// This element with escaped text appended.
    pub fn with_text(self, text: &str) -> (r: HtmlElement)
        ensures
            r.children_spec().len() == self.children_spec().len() + 1,
            r.children_spec().drop_last() == self.children_spec(),
            r.children_spec().last() matches HtmlNode::Text(t) && t@ == escaped(text@),
            r.tag_spec() == self.tag_spec(),
            r.id_spec() == self.id_spec(),
            r.classes_spec() == self.classes_spec(),
            r.attrs_spec() == self.attrs_spec(),
    {
        let mut e = self;
        e.add_text(text);
        e
    }
}

impl HtmlElement {
    /// The markup of this element and its subtree.
    pub fn to_html(&self) -> (r: String)
        ensures
            r@ == elem_html(*self),
        decreases *self, 1nat, 0int,
    {
        proof {
            reveal_strlit("<");
            reveal_strlit(" id=\"");
            reveal_strlit("\"");
            reveal_strlit(" class=\"");
            reveal_strlit("/>");
            reveal_strlit(">");
            reveal_strlit("</");
        }
        let mut out = String::new();
        out.append("<");
        out.append(self.tag.as_str());
        if !self.id.as_str().is_empty() {
            out.append(" id=\"");
            out.append(self.id.as_str());
            out.append("\"");
        }
        let ghost id_part = if self.id_spec().len() > 0 {
            seq![' ', 'i', 'd', '=', '"'] + self.id_spec() + seq!['"']
        } else {
            seq![]
        };
        assert(out@ =~= seq!['<'] + self.tag_spec() + id_part);
        let ghost before_classes = out@;
        let nc = self.classes.len();
        if nc > 0 {
            out.append(" class=\"");
            let mut i: usize = 0;
            assert(self.classes_spec().take(0) =~= Seq::<Seq<char>>::empty());
            while i < nc
                invariant
                    nc == self.classes@.len(),
                    i <= nc,
                    out@ == before_classes + seq![' ', 'c', 'l', 'a', 's', 's', '=', '"'] + class_list(
                        self.classes_spec().take(i as int),
                    ),
                decreases nc - i,
            {
                proof {
                    reveal_strlit(" ");
                }
                let ghost t = self.classes_spec().take(i + 1);
                assert(t.drop_last() =~= self.classes_spec().take(i as int));
                assert(t.last() == self.classes@[i as int]@);
                if i > 0 {
                    out.append(" ");
                }
                out.append(self.classes[i].as_str());
                i = i + 1;
            }
            out.append("\"");
            assert(self.classes_spec().take(nc as int) =~= self.classes_spec());
        }
        let ghost class_part = if self.classes_spec().len() > 0 {
            seq![' ', 'c', 'l', 'a', 's', 's', '=', '"'] + class_list(self.classes_spec()) + seq!['"']
        } else {
            seq![]
        };
        assert(out@ =~= seq!['<'] + self.tag_spec() + id_part + class_part);
        let ghost before_attrs = out@;
        let na = self.attributes.len();
        let mut j: usize = 0;
        assert(self.attrs_spec().take(0) =~= Seq::<(Seq<char>, Seq<char>)>::empty());
        while j < na
            invariant
                na == self.attributes@.len(),
                j <= na,
                out@ == before_attrs + attr_list(self.attrs_spec().take(j as int)),
            decreases na - j,
        {
            proof {
                reveal_strlit(" ");
                reveal_strlit("=\"");
                reveal_strlit("\"");
            }
            let ghost t = self.attrs_spec().take(j + 1);
            assert(t.drop_last() =~= self.attrs_spec().take(j as int));
            out.append(" ");
            out.append(self.attributes[j].0.as_str());
            out.append("=\"");
            out.append(self.attributes[j].1.as_str());
            out.append("\"");
            j = j + 1;
        }
        assert(self.attrs_spec().take(na as int) =~= self.attrs_spec());
        assert(out@ == self.open_tag());
        let ghost tag_done = out@;
        let nk = self.children.len();
        if nk == 0 {
            out.append("/>");
        } else {
            out.append(">");
            let ghost before_children = out@;
            let mut k: usize = 0;
            while k < nk
                invariant
                    nk == self.children@.len(),
                    k <= nk,
                    out@ == before_children + children_html(*self, k as int),
                decreases nk - k,
            {
                let child = self.children[k].to_html();
                out.append(child.as_str());
                k = k + 1;
            }
            proof {
                reveal_strlit("</");
                reveal_strlit(">");
            }
            out.append("</");
            out.append(self.tag.as_str());
            out.append(">");
        }
        assert(out@ =~= elem_html(*self));
        out
    }
}

impl HtmlNode {
    /// The markup of this node.
    pub fn to_html(&self) -> (r: String)
        ensures
            r@ == node_html(*self),
        decreases *self, 2nat, 0int,
    {
        proof {
            reveal_strlit("<!-- ");
            reveal_strlit(" -->");
            reveal_strlit("<?");
            reveal_strlit(" ");
            reveal_strlit("?>");
        }
        match self {
            HtmlNode::Doctype(_) => "<!DOCTYPE html>".to_owned(),
            HtmlNode::Comment(c) => {
                let mut out = String::new();
                out.append("<!-- ");
                out.append(c.as_str());
                out.append(" -->");
                assert(out@ =~= node_html(*self));
                out
            },
            HtmlNode::Text(t) => t.clone(),
            HtmlNode::Element(e) => e.to_html(),
            HtmlNode::ProcessingInstruction(p) => {
                let mut out = String::new();
                out.append("<?");
                out.append(p.target.as_str());
                out.append(" ");
                out.append(p.data.as_str());
                out.append("?>");
                assert(out@ =~= node_html(*self));
                out
            },
        }
    }

    /// An element node.
    pub fn from_element(e: HtmlElement) -> (r: HtmlNode)
        ensures
            r == HtmlNode::Element(e),
    {
        HtmlNode::Element(e)
    }

    /// A text node holding `text` as it is.
    pub fn from_text(text: String) -> (r: HtmlNode)
        ensures
            r == HtmlNode::Text(text),
    {
        HtmlNode::Text(text)
    }
}

impl Default for HtmlElement {
    /// An `html` element with nothing else.
    fn default() -> (r: HtmlElement)
        ensures
            r.wf(),
            r.tag_spec() == "html"@,
            r.id_spec().len() == 0,
            r.classes_spec().len() == 0,
            r.attrs_spec().len() == 0,
            r.children_spec().len() == 0,
    {
        HtmlElement::new("html")
    }
}

impl Default for HtmlNode {
    /// An empty `html` element.
    fn default() -> (r: HtmlNode)
        ensures
            r matches HtmlNode::Element(e) && e.tag_spec() == "html"@ && e.children_spec().len() == 0,
    {
        HtmlNode::Element(HtmlElement::new("html"))
    }
}

/// `text` with the five markup characters escaped.
pub fn escape_text(text: &str) -> (r: String)
    ensures
        r@ == escaped(text@),
{
    let n = text.unicode_len();
    let mut out = String::new();
    let mut i: usize = 0;
    proof {
        reveal_strlit("&lt;");
        reveal_strlit("&gt;");
        reveal_strlit("&amp;");
        reveal_strlit("&quot;");
        reveal_strlit("&#39;");
        assert(text@.take(0) =~= Seq::<char>::empty());
    }
    while i < n
        invariant
            n == text@.len(),
            i <= n,
            out@ == escaped(text@.take(i as int)),
            "&lt;"@ == seq!['&', 'l', 't', ';'],
            "&gt;"@ == seq!['&', 'g', 't', ';'],
            "&amp;"@ == seq!['&', 'a', 'm', 'p', ';'],
            "&quot;"@ == seq!['&', 'q', 'u', 'o', 't', ';'],
            "&#39;"@ == seq!['&', '#', '3', '9', ';'],
        decreases n - i,
    {
        let c = text.get_char(i);
        if c == '<' {
            out.append("&lt;");
        } else if c == '>' {
            out.append("&gt;");
        } else if c == '&' {
            out.append("&amp;");
        } else if c == '"' {
            out.append("&quot;");
        } else if c == '\'' {
            out.append("&#39;");
        } else {
            out.append(text.substring_char(i, i + 1));
            assert(text@.subrange(i as int, i + 1) =~= seq![c]);
        }
        assert(text@.take(i + 1).drop_last() =~= text@.take(i as int));
        i = i + 1;
    }
    assert(text@.take(n as int) =~= text@);
    out
}

} // verus!
