//! What a position of the tree holds: the node kinds and the element payload.

use vstd::prelude::*;
use crate::text::{lemma_lex_trans, 
    case_sensitive_eq, eq_ignore_ascii_case, split_whitespace, str_eq, str_less, lemma_lex_total,
    lex_lt, ws_tokens, ascii_ci_eq, case_eq, CaseSensitivity,
};

verus! {

/// The characters of an optional string.
pub open spec fn opt_view(o: Option<String>) -> Option<Seq<char>> {
    match o {
        Some(s) => Some(s@),
        None => None,
    }
}

/// A qualified name: an optional prefix, a namespace and a local name.
pub struct QualName {
    pub prefix: Option<String>,
    pub ns: String,
    pub local: String,
}

/// What a qualified name is: (prefix, namespace, local name).
pub type QualNameV = (Option<Seq<char>>, Seq<char>, Seq<char>);

impl View for QualName {
    type V = QualNameV;

    open spec fn view(&self) -> QualNameV {
        (opt_view(self.prefix), self.ns@, self.local@)
    }
}

fn copy_opt(o: &Option<String>) -> (r: Option<String>)
    ensures
        opt_view(r) == opt_view(*o),
{
    match o {
        Some(s) => Some(s.clone()),
        None => None,
    }
}

fn opt_eq(a: &Option<String>, b: &Option<String>) -> (r: bool)
    ensures
        r == (opt_view(*a) == opt_view(*b)),
{
    match a {
        Some(x) => match b {
            Some(y) => str_eq(x.as_str(), y.as_str()),
            None => false,
        },
        None => b.is_none(),
    }
}

impl QualName {
    /// A name from its three parts.
    pub fn new(prefix: Option<String>, ns: String, local: String) -> (r: QualName)
        ensures
            r.prefix == prefix,
            r.ns == ns,
            r.local == local,
    {
        QualName { prefix, ns, local }
    }

    /// Whether two names are the same (prefix, namespace and local name).
    pub fn same(&self, other: &QualName) -> (r: bool)
        ensures
            r == (self@ == other@),
    {
        opt_eq(&self.prefix, &other.prefix) && self.ns == other.ns && self.local == other.local
    }

    /// A copy of this name.
    pub fn duplicate(&self) -> (r: QualName)
        ensures
            r@ == self@,
    {
        QualName { prefix: copy_opt(&self.prefix), ns: self.ns.clone(), local: self.local.clone() }
    }
}

/// An attribute as the tree builder hands it over.
pub struct Attribute {
    pub name: QualName,
    pub value: String,
}

/// What an attribute is: its name and its value.
pub type AttrV = (QualNameV, Seq<char>);

impl View for Attribute {
    type V = AttrV;

    open spec fn view(&self) -> AttrV {
        (self.name@, self.value@)
    }
}

/// The attributes of a sequence, viewed.
pub open spec fn attrs_view(v: Seq<Attribute>) -> Seq<AttrV> {
    v.map_values(|a: Attribute| a@)
}

/// No name occurs twice.
pub open spec fn keys_unique(m: Seq<AttrV>) -> bool {
    forall|i: int, j: int| 0 <= i < j < m.len() ==> m[i].0 != m[j].0
}

/// `m` with `a` added: a value under a name already present replaces the old one in
/// place, a new name goes to the end.
pub open spec fn put_attr(m: Seq<AttrV>, a: AttrV) -> Seq<AttrV> {
    if exists|k: int| 0 <= k < m.len() && m[k].0 == a.0 {
        let k = choose|k: int| 0 <= k < m.len() && m[k].0 == a.0;
        m.update(k, a)
    } else {
        m.push(a)
    }
}

/// The attribute table built from `s` in order.
pub open spec fn merge_attrs(s: Seq<AttrV>) -> Seq<AttrV>
    decreases s.len(),
{
    if s.len() == 0 {
        seq![]
    } else {
        put_attr(merge_attrs(s.drop_last()), s.last())
    }
}

/// The local name `id`.
pub open spec fn id_name() -> Seq<char> {
    seq!['i', 'd']
}

/// The local name `class`.
pub open spec fn class_name() -> Seq<char> {
    seq!['c', 'l', 'a', 's', 's']
}

/// The value of the first attribute whose local name is `id`, in any namespace.
pub open spec fn first_id(m: Seq<AttrV>) -> Option<Seq<char>>
    decreases m.len(),
{
    if m.len() == 0 {
        None
    } else if m[0].0.2 == id_name() {
        Some(m[0].1)
    } else {
        first_id(m.drop_first())
    }
}

/// The whitespace-separated tokens of every attribute whose local name is `class`.
pub open spec fn class_tokens(m: Seq<AttrV>) -> Seq<Seq<char>>
    decreases m.len(),
{
    if m.len() == 0 {
        seq![]
    } else if m.last().0.2 == class_name() {
        class_tokens(m.drop_last()) + ws_tokens(m.last().1)
    } else {
        class_tokens(m.drop_last())
    }
}

/// Each entry sorts strictly before the next one.
pub open spec fn sorted_strict(c: Seq<Seq<char>>) -> bool {
    forall|i: int| 0 <= i < c.len() - 1 ==> lex_lt(#[trigger] c[i], c[i + 1])
}

/// No entry occurs twice.
pub open spec fn no_dups(c: Seq<Seq<char>>) -> bool {
    forall|i: int, j: int| 0 <= i < j < c.len() ==> c[i] != c[j]
}

/// `c` is the normalized class set of `tokens`: sorted, without duplicates, and holding
/// exactly the tokens.
pub open spec fn is_class_set(c: Seq<Seq<char>>, tokens: Seq<Seq<char>>) -> bool {
    &&& sorted_strict(c)
    &&& no_dups(c)
    &&& forall|x: Seq<char>| c.contains(x) <==> tokens.contains(x)
}

/// An element: its name, its attributes in order, and the id and class set derived
/// from them once, when the element is built.
pub struct NodeData {
    name: QualName,
    attrs: Vec<Attribute>,
    id: Option<String>,
    classes: Vec<String>,
}

/// The characters of each string.
pub open spec fn strings_view(v: Seq<String>) -> Seq<Seq<char>> {
    v.map_values(|s: String| s@)
}

impl NodeData {
    /// The element's name.
    pub closed spec fn name_view(&self) -> QualNameV {
        self.name@
    }

    /// The attribute table.
    pub closed spec fn attrs_spec(&self) -> Seq<AttrV> {
        attrs_view(self.attrs@)
    }

    /// The stored id.
    pub closed spec fn id_spec(&self) -> Option<Seq<char>> {
        opt_view(self.id)
    }

    /// The stored class set.
    pub closed spec fn classes_spec(&self) -> Seq<Seq<char>> {
        strings_view(self.classes@)
    }

    /// The table has unique names, and the id and class set agree with it.
    pub open spec fn wf(&self) -> bool {
        &&& keys_unique(self.attrs_spec())
        &&& self.id_spec() == first_id(self.attrs_spec())
        &&& is_class_set(self.classes_spec(), class_tokens(self.attrs_spec()))
    }
}


impl NodeData {
    /// An element named `name` with `attributes` in the order given: a later value
    /// under a name already seen replaces the earlier one in its place.
    pub fn new(name: QualName, attributes: Vec<Attribute>) -> (r: NodeData)
        ensures
            r.wf(),
            r.name_view() == name@,
            r.attrs_spec() == merge_attrs(attrs_view(attributes@)),
    {
        let mut attrs: Vec<Attribute> = Vec::new();
        let n = attributes.len();
        let mut i: usize = 0;
        proof {
            assert(attrs_view(attributes@).take(0) =~= Seq::<AttrV>::empty());
        }
        while i < n
            invariant
                n == attributes@.len(),
                i <= n,
                attrs_view(attrs@) == merge_attrs(attrs_view(attributes@).take(i as int)),
                keys_unique(attrs_view(attrs@)),
            decreases n - i,
        {
            let ghost m = attrs_view(attrs@);
            let ghost a = attributes@[i as int]@;
            assert(attrs_view(attributes@).take(i + 1).drop_last() =~= attrs_view(attributes@).take(i as int));
            assert(attrs_view(attributes@).take(i + 1).last() == a);
            let key = attributes[i].name.duplicate();
            let value = attributes[i].value.clone();
            match find_attr(&attrs, &key) {
                Some(k) => {
                    attrs.set(k, Attribute { name: key, value });
                    proof {
                        let c = choose|c: int| 0 <= c < m.len() && m[c].0 == a.0;
                        assert(c == k);
                        assert(attrs_view(attrs@) =~= m.update(k as int, a));
                    }
                },
                None => {
                    attrs.push(Attribute { name: key, value });
                    assert(attrs_view(attrs@) =~= m.push(a));
                },
            }
            i = i + 1;
        }
        assert(attrs_view(attributes@).take(n as int) =~= attrs_view(attributes@));
        let id = compute_id(&attrs);
        let classes = compute_classes(&attrs);
        NodeData { name, attrs, id, classes }
    }

    /// Whether the local name is `tag`, up to ASCII case.
    pub fn is_a(&self, tag: &str) -> (r: bool)
        ensures
            r == ascii_ci_eq(self.name_view().2, tag@),
    {
        eq_ignore_ascii_case(self.name.local.as_str(), tag)
    }

    /// The local name.
    pub fn name(&self) -> (r: &str)
        ensures
            r@ == self.name_view().2,
    {
        self.name.local.as_str()
    }

    /// The qualified name.
    pub fn qual_name(&self) -> (r: &QualName)
        ensures
            r@ == self.name_view(),
    {
        &self.name
    }

    /// The id: the value of the first attribute whose local name is `id`.
    pub fn id(&self) -> (r: Option<&str>)
        requires
            self.wf(),
        ensures
            r matches Some(v) ==> first_id(self.attrs_spec()) == Some(v@) && self.id_spec() == Some(v@),
            r is None ==> first_id(self.attrs_spec()) is None && self.id_spec() is None,
    {
        match &self.id {
            Some(v) => Some(v.as_str()),
            None => None,
        }
    }

    /// Whether a class equals `class` up to ASCII case.
    pub fn has_class(&self, class: &str) -> (r: bool)
        requires
            self.wf(),
        ensures
            r == exists|x: Seq<char>|
                class_tokens(self.attrs_spec()).contains(x) && ascii_ci_eq(x, class@),
    {
        self.has_class_with(class, CaseSensitivity::AsciiCaseInsensitive)
    }

    /// Whether a class equals `class` under `case`.
    pub fn has_class_with(&self, class: &str, case: CaseSensitivity) -> (r: bool)
        requires
            self.wf(),
        ensures
            r == exists|x: Seq<char>|
                class_tokens(self.attrs_spec()).contains(x) && case_eq(case, x, class@),
    {
        let ghost c = self.classes_spec();
        let n = self.classes.len();
        let mut i: usize = 0;
        while i < n
            invariant
                n == self.classes@.len(),
                c == strings_view(self.classes@),
                c == self.classes_spec(),
                self.wf(),
                i <= n,
                forall|j: int| 0 <= j < i ==> !case_eq(case, c[j], class@),
            decreases n - i,
        {
            if case_sensitive_eq(case, self.classes[i].as_str(), class) {
                assert(c.contains(c[i as int]));
                assert(class_tokens(self.attrs_spec()).contains(c[i as int]));
                return true;
            }
            i = i + 1;
        }
        assert forall|x: Seq<char>|
            class_tokens(self.attrs_spec()).contains(x) implies !case_eq(case, x, class@) by {
            assert(c.contains(x));
        }
        false
    }

    /// The normalized class set: the class tokens sorted, each once.
    pub fn classes(&self) -> (r: &Vec<String>)
        requires
            self.wf(),
        ensures
            strings_view(r@) == self.classes_spec(),
            is_class_set(strings_view(r@), class_tokens(self.attrs_spec())),
    {
        &self.classes
    }

    /// The value of the attribute with no namespace and local name `attr`.
    pub fn get_attribute(&self, attr: &str) -> (r: Option<&str>)
        requires
            self.wf(),
        ensures
            r matches Some(v) ==> exists|k: int|
                0 <= k < self.attrs_spec().len() && self.attrs_spec()[k] == (
                    plain_name(attr@),
                    v@,
                ),
            r is None ==> forall|k: int|
                0 <= k < self.attrs_spec().len() ==> self.attrs_spec()[k].0 != plain_name(attr@),
    {
        let key = QualName { prefix: None, ns: String::new(), local: attr.to_owned() };
        assert(key@ == plain_name(attr@)) by {
            assert(key.ns@ =~= Seq::<char>::empty());
        }
        match find_attr(&self.attrs, &key) {
            Some(k) => Some(self.attrs[k].value.as_str()),
            None => None,
        }
    }

    /// Whether there is an attribute with no namespace and local name `attr`.
    pub fn has_attribute(&self, attr: &str) -> (r: bool)
        requires
            self.wf(),
        ensures
            r == exists|k: int|
                0 <= k < self.attrs_spec().len() && self.attrs_spec()[k].0 == plain_name(attr@),
    {
        let found = self.get_attribute(attr);
        found.is_some()
    }

    /// The attributes in their stored order.
    pub fn attributes(&self) -> (r: &Vec<Attribute>)
        ensures
            attrs_view(r@) == self.attrs_spec(),
    {
        &self.attrs
    }
}

/// The name of an attribute written without prefix: no namespace, local name `local`.
pub open spec fn plain_name(local: Seq<char>) -> QualNameV {
    (None, Seq::empty(), local)
}

/// A doctype.
pub struct Doctype {
    pub name: String,
    pub public_id: String,
    pub system_id: String,
}

impl Doctype {
    /// The doctype name.
    pub fn name(&self) -> (r: &str)
        ensures
            r@ == self.name@,
    {
        self.name.as_str()
    }

    /// The public identifier.
    pub fn public_id(&self) -> (r: &str)
        ensures
            r@ == self.public_id@,
    {
        self.public_id.as_str()
    }

    /// The system identifier.
    pub fn system_id(&self) -> (r: &str)
        ensures
            r@ == self.system_id@,
    {
        self.system_id.as_str()
    }
}

/// A processing instruction.
pub struct ProcessingInstruction {
    pub target: String,
    pub data: String,
}

/// What a position of the tree holds.
pub enum NodeKind {
    Document,
    Fragment,
    Doctype(Doctype),
    Comment(String),
    Text(String),
    Element(NodeData),
    ProcessingInstruction(ProcessingInstruction),
}

impl NodeKind {
    /// Whether this is the document root.
    pub fn is_document(&self) -> (r: bool)
        ensures
            r == self is Document,
    {
        matches!(self, NodeKind::Document)
    }

    /// Whether this is the fragment root.
    pub fn is_fragment(&self) -> (r: bool)
        ensures
            r == self is Fragment,
    {
        matches!(self, NodeKind::Fragment)
    }

    /// Whether this is a doctype.
    pub fn is_doctype(&self) -> (r: bool)
        ensures
            r == self is Doctype,
    {
        matches!(self, NodeKind::Doctype(_))
    }

    /// Whether this is a comment.
    pub fn is_comment(&self) -> (r: bool)
        ensures
            r == self is Comment,
    {
        matches!(self, NodeKind::Comment(_))
    }

    /// Whether this is text.
    pub fn is_text(&self) -> (r: bool)
        ensures
            r == self is Text,
    {
        matches!(self, NodeKind::Text(_))
    }

    /// Whether this is an element.
    pub fn is_element(&self) -> (r: bool)
        ensures
            r == self is Element,
    {
        matches!(self, NodeKind::Element(_))
    }

    /// The element payload, if this is an element.
    pub fn as_element(&self) -> (r: Option<&NodeData>)
        ensures
            r matches Some(d) ==> *self == NodeKind::Element(*d),
            r is None ==> !(self is Element),
    {
        match self {
            NodeKind::Element(e) => Some(e),
            _ => None,
        }
    }
}

/// In a sequence sorted entry by entry, every entry sorts before every later one.
proof fn lemma_sorted_global(c: Seq<Seq<char>>, i: int, j: int)
    requires
        sorted_strict(c),
        0 <= i < j < c.len(),
    ensures
        lex_lt(c[i], c[j]),
    decreases j - i,
{
    if j > i + 1 {
        lemma_sorted_global(c, i, j - 1);
        assert(lex_lt(c[j - 1], c[j]));
        lemma_lex_trans(c[i], c[j - 1], c[j]);
    }
}

/// A set of strings has one sorted, duplicate-free arrangement.
pub proof fn lemma_class_set_unique(x: Seq<Seq<char>>, y: Seq<Seq<char>>, tokens: Seq<Seq<char>>)
    requires
        is_class_set(x, tokens),
        is_class_set(y, tokens),
    ensures
        x == y,
    decreases x.len() + y.len(),
{
    if x.len() == 0 || y.len() == 0 {
        if x.len() > 0 {
            assert(x.contains(x[0]));
            assert(tokens.contains(x[0]));
        }
        if y.len() > 0 {
            assert(y.contains(y[0]));
            assert(tokens.contains(y[0]));
        }
        assert(x =~= y);
    } else {
        assert(x.contains(x[0]) && y.contains(y[0]));
        if x[0] != y[0] {
            let kx = choose|k: int| 0 <= k < x.len() && x[k] == y[0];
            let ky = choose|k: int| 0 <= k < y.len() && y[k] == x[0];
            lemma_sorted_global(x, 0, kx);
            lemma_sorted_global(y, 0, ky);
            lemma_lex_total(x[0], y[0]);
        }
        let x1 = x.drop_first();
        let y1 = y.drop_first();
        let t1 = x1;
        assert(is_class_set(x1, t1)) by {
            assert forall|i: int| 0 <= i < x1.len() - 1 implies lex_lt(#[trigger] x1[i], x1[i + 1]) by {
                assert(x1[i] == x[i + 1] && x1[i + 1] == x[i + 2]);
            }
        }
        assert(is_class_set(y1, t1)) by {
            assert forall|i: int| 0 <= i < y1.len() - 1 implies lex_lt(#[trigger] y1[i], y1[i + 1]) by {
                assert(y1[i] == y[i + 1] && y1[i + 1] == y[i + 2]);
            }
            assert forall|s: Seq<char>| y1.contains(s) <==> t1.contains(s) by {
                if y1.contains(s) {
                    let k = choose|k: int| 0 <= k < y1.len() && y1[k] == s;
                    assert(y[k + 1] == s && y.contains(s) && x.contains(s));
                    let m = choose|m: int| 0 <= m < x.len() && x[m] == s;
                    if m == 0 {
                        assert(y[0] == y[k + 1]);
                    } else {
                        assert(x1[m - 1] == s);
                    }
                }
                if t1.contains(s) {
                    let k = choose|k: int| 0 <= k < x1.len() && x1[k] == s;
                    assert(x[k + 1] == s && x.contains(s) && y.contains(s));
                    let m = choose|m: int| 0 <= m < y.len() && y[m] == s;
                    if m == 0 {
                        assert(x[0] == x[k + 1]);
                    } else {
                        assert(y1[m - 1] == s);
                    }
                }
            }
        }
        lemma_class_set_unique(x1, y1, t1);
        assert(x =~= seq![x[0]] + x1);
        assert(y =~= seq![y[0]] + y1);
    }
}

/// The id and the class set an element reports are fixed by its attribute table:
/// asking again, or asking another element with the same attributes, gives the same
/// answers.
pub proof fn lemma_derived_state_fixed(a: NodeData, b: NodeData)
    requires
        a.wf(),
        b.wf(),
        a.attrs_spec() == b.attrs_spec(),
    ensures
        a.id_spec() == b.id_spec(),
        a.classes_spec() == b.classes_spec(),
{
    lemma_class_set_unique(a.classes_spec(), b.classes_spec(), class_tokens(a.attrs_spec()));
}

/// Adds `t` to a normalized class set unless it is there already.
pub(crate) fn insert_class(classes: &mut Vec<String>, t: String)
    requires
        sorted_strict(strings_view(old(classes)@)),
        no_dups(strings_view(old(classes)@)),
    ensures
        sorted_strict(strings_view(final(classes)@)),
        no_dups(strings_view(final(classes)@)),
        forall|x: Seq<char>|
            strings_view(final(classes)@).contains(x) <==> (strings_view(
                old(classes)@,
            ).contains(x) || x == t@),
{
    let ghost c0 = strings_view(classes@);
    let n = classes.len();
    let mut i: usize = 0;
    while i < n
        invariant
            n == classes@.len(),
            c0 == strings_view(classes@),
            c0 == strings_view(old(classes)@),
            sorted_strict(c0),
            no_dups(c0),
            i <= n,
            forall|j: int| 0 <= j < i ==> c0[j] != t@,
        decreases n - i,
    {
        if classes[i] == t {
            assert(c0.contains(t@)) by {
                assert(c0[i as int] == t@);
            }
            return;
        }
        i = i + 1;
    }
    assert(!c0.contains(t@));
    let mut p: usize = 0;
    while p < n && str_less(classes[p].as_str(), t.as_str())
        invariant
            n == classes@.len(),
            c0 == strings_view(classes@),
            p <= n,
            p > 0 ==> lex_lt(c0[p - 1], t@),
        decreases n - p,
    {
        p = p + 1;
    }
    if p < n {
        proof {
            lemma_lex_total(c0[p as int], t@);
        }
    }
    classes.insert(p, t);
    proof {
        let c1 = strings_view(classes@);
        assert(c1 =~= c0.insert(p as int, t@));
        assert forall|i: int| 0 <= i < c1.len() - 1 implies lex_lt(#[trigger] c1[i], c1[i + 1]) by {
            if i < p - 1 {
                assert(c1[i] == c0[i] && c1[i + 1] == c0[i + 1]);
            } else if i == p - 1 {
            } else if i == p {
            } else {
                assert(c1[i] == c0[i - 1] && c1[i + 1] == c0[i]);
            }
        }
        assert forall|x: Seq<char>| c1.contains(x) <==> (c0.contains(x) || x == t@) by {
            if c1.contains(x) {
                let k = choose|k: int| 0 <= k < c1.len() && c1[k] == x;
                if k < p {
                    assert(c0[k] == x);
                } else if k > p {
                    assert(c0[k - 1] == x);
                }
            }
            if c0.contains(x) {
                let k = choose|k: int| 0 <= k < c0.len() && c0[k] == x;
                if k < p {
                    assert(c1[k] == x);
                } else {
                    assert(c1[k + 1] == x);
                }
            }
            if x == t@ {
                assert(c1[p as int] == x);
            }
        }
        assert forall|i: int, j: int| 0 <= i < j < c1.len() implies c1[i] != c1[j] by {
            if i == p {
                if j > p { assert(c1[j] == c0[j - 1]); assert(c0.contains(c0[j - 1])); }
            } else if j == p {
                assert(c1[i] == c0[i]); assert(c0.contains(c0[i]));
            } else {
                let i0 = if i < p { i } else { i - 1 };
                let j0 = if j < p { j } else { j - 1 };
                assert(c1[i] == c0[i0] && c1[j] == c0[j0]);
            }
        }
    }
}

/// The position of the attribute named `key`, if there is one.
fn find_attr(attrs: &Vec<Attribute>, key: &QualName) -> (r: Option<usize>)
    ensures
        r matches Some(k) ==> k < attrs@.len() && attrs_view(attrs@)[k as int].0 == key@,
        r is None ==> forall|k: int| 0 <= k < attrs@.len() ==> attrs_view(attrs@)[k].0 != key@,
{
    let n = attrs.len();
    let mut i: usize = 0;
    while i < n
        invariant
            n == attrs@.len(),
            i <= n,
            forall|k: int| 0 <= k < i ==> attrs_view(attrs@)[k].0 != key@,
        decreases n - i,
    {
        if attrs[i].name.same(key) {
            return Some(i);
        }
        i = i + 1;
    }
    None
}

/// The value of the first attribute whose local name is `id`.
fn compute_id(attrs: &Vec<Attribute>) -> (r: Option<String>)
    ensures
        opt_view(r) == first_id(attrs_view(attrs@)),
{
    let n = attrs.len();
    let mut i: usize = 0;
    proof {
        reveal_strlit("id");
        assert(attrs_view(attrs@).skip(0) =~= attrs_view(attrs@));
    }
    while i < n
        invariant
            n == attrs@.len(),
            i <= n,
            "id"@ == id_name(),
            first_id(attrs_view(attrs@)) == first_id(attrs_view(attrs@).skip(i as int)),
        decreases n - i,
    {
        let ghost m = attrs_view(attrs@).skip(i as int);
        if str_eq(attrs[i].name.local.as_str(), "id") {
            assert(m[0] == attrs_view(attrs@)[i as int]);
            return Some(attrs[i].value.clone());
        }
        assert(m.drop_first() =~= attrs_view(attrs@).skip(i + 1));
        i = i + 1;
    }
    None
}

/// The normalized class set of an attribute table.
fn compute_classes(attrs: &Vec<Attribute>) -> (r: Vec<String>)
    ensures
        is_class_set(strings_view(r@), class_tokens(attrs_view(attrs@))),
{
    let mut classes: Vec<String> = Vec::new();
    let n = attrs.len();
    let mut i: usize = 0;
    proof {
        reveal_strlit("class");
        assert(attrs_view(attrs@).take(0) =~= Seq::<AttrV>::empty());
    }
    while i < n
        invariant
            n == attrs@.len(),
            i <= n,
            "class"@ == class_name(),
            sorted_strict(strings_view(classes@)),
            no_dups(strings_view(classes@)),
            forall|x: Seq<char>|
                strings_view(classes@).contains(x) <==> class_tokens(
                    attrs_view(attrs@).take(i as int),
                ).contains(x),
        decreases n - i,
    {
        let ghost before = class_tokens(attrs_view(attrs@).take(i as int));
        assert(attrs_view(attrs@).take(i + 1).drop_last() =~= attrs_view(attrs@).take(i as int));
        if str_eq(attrs[i].name.local.as_str(), "class") {
            let tokens = split_whitespace(attrs[i].value.as_str());
            let ghost ws = ws_tokens(attrs@[i as int].value@);
            assert(class_tokens(attrs_view(attrs@).take(i + 1)) == before + ws);
            let m = tokens.len();
            let mut j: usize = 0;
            while j < m
                invariant
                    m == tokens@.len(),
                    m == ws.len(),
                    j <= m,
                    forall|k: int| 0 <= k < m ==> #[trigger] tokens@[k]@ == ws[k],
                    sorted_strict(strings_view(classes@)),
                    no_dups(strings_view(classes@)),
                    forall|x: Seq<char>|
                        strings_view(classes@).contains(x) <==> (before + ws.take(j as int)).contains(x),
                decreases m - j,
            {
                let t = tokens[j].clone();
                assert(t@ == ws[j as int]) by {
                    assert(tokens@[j as int]@ == ws[j as int]);
                }
                let ghost prev = strings_view(classes@);
                insert_class(&mut classes, t);
                proof {
                    assert(before + ws.take(j + 1) =~= (before + ws.take(j as int)).push(ws[j as int]));
                    assert forall|x: Seq<char>| (before + ws.take(j + 1)).contains(x) <==> ((before + ws.take(j as int)).contains(x) || x == ws[j as int]) by {
                        let s0 = before + ws.take(j as int);
                        if s0.push(ws[j as int]).contains(x) {
                            let k = choose|k: int| 0 <= k < s0.len() + 1 && s0.push(ws[j as int])[k] == x;
                            if k < s0.len() { assert(s0[k] == x); }
                        }
                        if s0.contains(x) {
                            let k = choose|k: int| 0 <= k < s0.len() && s0[k] == x;
                            assert(s0.push(ws[j as int])[k] == x);
                        }
                        if x == ws[j as int] {
                            assert(s0.push(ws[j as int])[s0.len() as int] == x);
                        }
                    }
                    assert forall|x: Seq<char>| strings_view(classes@).contains(x) <==> (before + ws.take(j + 1)).contains(x) by {
                        assert(strings_view(classes@).contains(x) <==> (prev.contains(x) || x == ws[j as int]));
                        assert(prev.contains(x) <==> (before + ws.take(j as int)).contains(x));
                    }
                }
                j = j + 1;
            }
            assert(ws.take(m as int) =~= ws);
        } else {
            assert(class_tokens(attrs_view(attrs@).take(i + 1)) == before);
        }
        i = i + 1;
    }
    assert(attrs_view(attrs@).take(n as int) =~= attrs_view(attrs@));
    classes
}

} // verus!
