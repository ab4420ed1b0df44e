use htmler::{
    AttrOperation, AttrOperator, Attribute, BilibiliArticle, CaseSensitivity, EMathDissussion, Html,
    NamespaceConstraint, Node, NodeData, QualName, TraversalScope, TreeBuilder, ZhihuAnswer, ZhihuError,
};

const XHTML: &str = "http://www.w3.org/1999/xhtml";
const XLINK: &str = "http://www.w3.org/1999/xlink";

fn el(local: &str) -> QualName {
    QualName::new(None, XHTML.to_string(), local.to_string())
}

fn at(local: &str, value: &str) -> Attribute {
    Attribute { name: QualName::new(None, String::new(), local.to_string()), value: value.to_string() }
}

fn frag(build: impl FnOnce(&mut TreeBuilder)) -> Html {
    let mut b = TreeBuilder::new_fragment();
    b.open_element(el("html"), vec![]);
    build(&mut b);
    b.finish()
}

fn leaf(b: &mut TreeBuilder, local: &str, attrs: Vec<Attribute>, text: &str) {
    b.open_element(el(local), attrs);
    if !text.is_empty() {
        b.append_text(text.to_string());
    }
    b.close_element();
}

fn direct<'a>(local: &'static str, scope: Node<'a>) -> impl Fn(Node<'a>) -> bool {
    move |n: Node<'a>| n.has_local_name(local) && n.parent().map_or(false, |p| p.id() == scope.id())
}

fn all<'a>(html: &'a Html, pred: impl Fn(Node<'a>) -> bool) -> Vec<Node<'a>> {
    html.select().collect_matches(&pred)
}

#[test]
fn class_set_is_sorted_and_deduplicated() {
    let d = NodeData::new(el("p"), vec![at("class", " a  a b ")]);
    let classes: Vec<&str> = d.classes().iter().map(|s| s.as_str()).collect();
    assert_eq!(classes, vec!["a", "b"]);
    assert!(d.has_class("A"));
    assert!(!d.has_class("c"));
    let d = NodeData::new(el("p"), vec![at("class", "zeta alpha\tmid\nalpha")]);
    let classes: Vec<&str> = d.classes().iter().map(|s| s.as_str()).collect();
    assert_eq!(classes, vec!["alpha", "mid", "zeta"]);
}

#[test]
fn class_case_sensitivity() {
    let html = frag(|b| leaf(b, "p", vec![at("class", "Big")], "x"));
    let p = all(&html, |n| n.has_local_name("p"))[0];
    assert!(p.has_class_with("big", CaseSensitivity::AsciiCaseInsensitive));
    assert!(!p.has_class_with("big", CaseSensitivity::CaseSensitive));
    assert!(p.has_class_with("Big", CaseSensitivity::CaseSensitive));
}

#[test]
fn scope_limits_child_combinator() {
    // <div><span><b>2</b></span></div>
    let html = frag(|b| {
        b.open_element(el("div"), vec![]);
        b.open_element(el("span"), vec![]);
        leaf(b, "b", vec![], "2");
        b.close_element();
        b.close_element();
    });
    let span = all(&html, |n| n.has_local_name("span"))[0];
    let div = all(&html, |n| n.has_local_name("div"))[0];
    assert!(span.select().next_match(&direct("b", span)).is_some());
    assert!(div.select().next_match(&direct("b", div)).is_none());
    let found = div.select().collect_matches(&direct("span", div));
    assert_eq!(found.len(), 1);
    assert_eq!(found[0].id(), span.id());
}

#[test]
fn select_keeps_document_order() {
    let html = frag(|b| {
        leaf(b, "i", vec![at("id", "a")], "");
        b.open_element(el("div"), vec![]);
        leaf(b, "i", vec![at("id", "b")], "");
        b.close_element();
        leaf(b, "i", vec![at("id", "c")], "");
    });
    let found = all(&html, |n| n.has_local_name("i"));
    let ids: Vec<&str> = found.iter().map(|n| n.get_attribute("id")).collect();
    assert_eq!(ids, vec!["a", "b", "c"]);
    assert!(found[0].id() < found[1].id() && found[1].id() < found[2].id());
    let mut sel = html.select();
    let pred = |n: Node| n.has_local_name("i");
    assert!(sel.next_match(&pred).is_some());
    assert!(sel.next_match(&pred).is_some());
    assert!(sel.next_match(&pred).is_some());
    assert!(sel.next_match(&pred).is_none());
    assert!(sel.next_match(&pred).is_none());
}

#[test]
fn select_never_yields_the_scope() {
    let html = frag(|b| {
        b.open_element(el("div"), vec![]);
        leaf(b, "div", vec![], "x");
        b.close_element();
    });
    let outer = all(&html, |n| n.has_local_name("div"))[0];
    let inner = outer.select().collect_matches(&|n: Node| n.has_local_name("div"));
    assert_eq!(inner.len(), 1);
    assert!(inner[0].id() > outer.id());
}

#[test]
fn id_and_classes_are_stable() {
    let html = frag(|b| leaf(b, "p", vec![at("id", "x"), at("class", "b a")], "t"));
    let p = all(&html, |n| n.has_local_name("p"))[0];
    let d = p.as_data().unwrap();
    assert_eq!(d.id(), Some("x"));
    assert_eq!(d.id(), d.id());
    assert_eq!(d.classes(), d.classes());
    assert_eq!(p.html(), p.html());
    assert_eq!(d.id(), Some("x"));
}

#[test]
fn namespaced_attribute_is_distinct() {
    let xlink = Attribute {
        name: QualName::new(Some("xlink".to_string()), XLINK.to_string(), "href".to_string()),
        value: "x".to_string(),
    };
    let html = frag(|b| {
        b.open_element(el("a"), vec![xlink]);
        b.close_element();
        leaf(b, "a", vec![at("href", "x")], "");
    });
    let links = all(&html, |n| n.has_local_name("a"));
    let equal_x = AttrOperation::WithValue {
        operator: AttrOperator::Equal,
        case: CaseSensitivity::CaseSensitive,
        value: "x".to_string(),
    };
    let plain = NamespaceConstraint::Specific(String::new());
    assert!(!links[0].attr_matches(&plain, "href", &equal_x));
    assert!(links[1].attr_matches(&plain, "href", &equal_x));
    assert!(links[0].attr_matches(&NamespaceConstraint::Specific(XLINK.to_string()), "href", &equal_x));
    assert!(links[0].attr_matches(&NamespaceConstraint::Any, "href", &equal_x));
    assert!(!links[0].has_attribute("href"));
    assert_eq!(links[0].get_attribute("href"), "");
}

#[test]
fn inner_html_of_paragraph() {
    let html = frag(|b| {
        b.open_element(el("p"), vec![at("id", "t1"), at("class", "a b")]);
        b.append_text("hi".to_string());
        b.open_element(el("br"), vec![]);
        b.close_element();
        b.append_text("there".to_string());
        b.close_element();
    });
    let found = all(&html, |n| n.has_id("t1", CaseSensitivity::CaseSensitive));
    assert_eq!(found.len(), 1);
    assert_eq!(found[0].inner_html(), "hi<br>there");
    assert_eq!(found[0].html(), "<p id=\"t1\" class=\"a b\">hi<br>there</p>");
}

#[test]
fn serializer_escapes_and_writes_comments_and_doctype() {
    let mut b = TreeBuilder::new_document();
    b.append_doctype("html".to_string(), "pub".to_string(), "sys".to_string());
    b.open_element(el("div"), vec![at("title", "a\"&b")]);
    b.append_comment(" c ".to_string());
    b.append_text("1 < 2 & 3".to_string());
    b.close_element();
    let html = b.finish();
    assert_eq!(
        html.root_node().inner_html(),
        "<!DOCTYPE html><div title=\"a&quot;&amp;b\"><!-- c -->1 &lt; 2 &amp; 3</div>"
    );
}

#[test]
fn adjacent_text_is_joined() {
    let html = frag(|b| {
        b.open_element(el("p"), vec![]);
        b.append_text("ab".to_string());
        b.append_text("cd".to_string());
        b.close_element();
    });
    let p = all(&html, |n| n.has_local_name("p"))[0];
    assert_eq!(p.children().len(), 1);
    assert_eq!(p.text(), vec!["abcd"]);
}

#[test]
fn navigation_links() {
    let html = frag(|b| {
        leaf(b, "a", vec![], "1");
        b.append_text(" ".to_string());
        leaf(b, "b", vec![], "2");
        b.append_comment("c".to_string());
    });
    let root = html.root_node();
    assert!(root.as_kind().is_fragment());
    let top = root.first_child().unwrap();
    assert!(top.is_a("HTML"));
    let kids = top.children();
    assert_eq!(kids.len(), 4);
    assert!(kids[0].is_a("a"));
    assert_eq!(kids[1].as_text().unwrap(), " ");
    assert!(kids[3].as_comment().is_some());
    assert_eq!(kids[0].next_sibling().unwrap().id(), kids[1].id());
    assert_eq!(kids[2].prev_sibling().unwrap().id(), kids[1].id());
    assert_eq!(top.last_child().unwrap().id(), kids[3].id());
    assert_eq!(kids[0].next_sibling_element().unwrap().id(), kids[2].id());
    assert_eq!(kids[2].prev_sibling_element().unwrap().id(), kids[0].id());
    assert_eq!(top.first_element_child().unwrap().id(), kids[0].id());
    assert_eq!(kids[2].parent_element().unwrap().id(), top.id());
    assert!(kids[2].is_same_type(&kids[2]));
    assert!(!kids[0].is_same_type(&kids[2]));
    assert_eq!(top.text(), vec!["1", " ", "2"]);
    assert_eq!(root.descendants().len(), html.node_count());
}

#[test]
fn emptiness_and_root() {
    let mut b = TreeBuilder::new_document();
    b.open_element(el("html"), vec![]);
    leaf(&mut b, "p", vec![], "  \n");
    leaf(&mut b, "q", vec![], "x");
    b.close_element();
    let html = b.finish();
    let top = html.root_node().first_child().unwrap();
    assert!(top.is_root());
    let kids = top.children();
    assert!(kids[0].is_empty());
    assert!(!kids[1].is_empty());
    assert!(!kids[0].is_root());
    assert!(top.is_html_element_in_html_document());
    assert!(top.has_namespace(XHTML));
}

#[test]
fn attribute_operators() {
    let html = frag(|b| leaf(b, "p", vec![at("lang", "en-US"), at("rel", "a  Nofollow b")], ""));
    let p = all(&html, |n| n.has_local_name("p"))[0];
    let any = NamespaceConstraint::Any;
    let op = |operator, case, value: &str| AttrOperation::WithValue { operator, case, value: value.to_string() };
    let cs = CaseSensitivity::CaseSensitive;
    let ci = CaseSensitivity::AsciiCaseInsensitive;
    assert!(p.attr_matches(&any, "lang", &AttrOperation::Exists));
    assert!(!p.attr_matches(&any, "title", &AttrOperation::Exists));
    assert!(p.attr_matches(&any, "lang", &op(AttrOperator::Equal, cs, "en-US")));
    assert!(!p.attr_matches(&any, "lang", &op(AttrOperator::Equal, cs, "en-us")));
    assert!(p.attr_matches(&any, "lang", &op(AttrOperator::Equal, ci, "en-us")));
    assert!(p.attr_matches(&any, "lang", &op(AttrOperator::DashMatch, cs, "en")));
    assert!(!p.attr_matches(&any, "lang", &op(AttrOperator::DashMatch, cs, "e")));
    assert!(p.attr_matches(&any, "lang", &op(AttrOperator::Prefix, cs, "en-")));
    assert!(p.attr_matches(&any, "lang", &op(AttrOperator::Suffix, cs, "-US")));
    assert!(p.attr_matches(&any, "lang", &op(AttrOperator::Substring, cs, "n-U")));
    assert!(!p.attr_matches(&any, "lang", &op(AttrOperator::Substring, cs, "xx")));
    assert!(p.attr_matches(&any, "rel", &op(AttrOperator::Includes, ci, "nofollow")));
    assert!(!p.attr_matches(&any, "rel", &op(AttrOperator::Includes, cs, "nofollow")));
}

#[test]
fn later_duplicate_attribute_overwrites() {
    let d = NodeData::new(el("p"), vec![at("a", "1"), at("b", "2"), at("a", "3"), at("id", "i")]);
    let attrs: Vec<(&str, &str)> = d.attributes().iter().map(|a| (a.name.local.as_str(), a.value.as_str())).collect();
    assert_eq!(attrs, vec![("a", "3"), ("b", "2"), ("id", "i")]);
    assert_eq!(d.get_attribute("a"), Some("3"));
    assert_eq!(d.id(), Some("i"));
    assert_eq!(d.name(), "p");
    assert!(d.is_a("P"));
}

#[test]
fn children_only_drops_the_node() {
    let html = frag(|b| leaf(b, "em", vec![], "x"));
    let em = all(&html, |n| n.has_local_name("em"))[0];
    assert_eq!(em.html(), "<em>x</em>");
    assert_eq!(em.inner_html(), "x");
    assert_eq!(em.serialize_events(TraversalScope::IncludeNode).len(), 3);
    assert_eq!(em.serialize_events(TraversalScope::ChildrenOnly).len(), 1);
    assert_eq!(em.traverse().len(), 4);
}

#[test]
fn zhihu_answer_markdown() {
    let mut b = TreeBuilder::new_document();
    b.open_element(el("html"), vec![]);
    leaf(&mut b, "h1", vec![at("class", "QuestionHeader-title")], "Why?");
    b.open_element(el("span"), vec![at("class", "CopyrightRichText-richText")]);
    b.open_element(el("p"), vec![]);
    b.append_text("  Because  ".to_string());
    b.open_element(el("span"), vec![at("class", "ztext-math"), at("data-tex", "x^2")]);
    b.close_element();
    b.open_element(el("br"), vec![]);
    b.close_element();
    b.close_element();
    b.close_element();
    b.close_element();
    let html = b.finish();
    let mut answer = ZhihuAnswer::new();
    let r = answer.do_parse(
        &html,
        &|n: Node| n.has_local_name("h1") && n.has_class_with("QuestionHeader-title", CaseSensitivity::CaseSensitive),
        &|n: Node| n.has_local_name("span") && n.has_class_with("CopyrightRichText-richText", CaseSensitivity::CaseSensitive),
    );
    assert!(r.is_ok());
    assert_eq!(answer.title, "Why?");
    assert_eq!(answer.content, "Because $$x^2$$ \n\n\n");
    assert_eq!(answer.to_markdown(), "# Why?\n\nBecause $$x^2$$ \n\n\n");
}

#[test]
fn zhihu_unknown_element_is_an_error() {
    let html = frag(|b| leaf(b, "table", vec![], ""));
    let table = all(&html, |n| n.has_local_name("table"))[0];
    let mut answer = ZhihuAnswer::new();
    assert_eq!(answer.read_content_node(table), Err(ZhihuError::UnknownError));
}

#[test]
fn bilibili_rejects_bad_json() {
    let html = frag(|b| leaf(b, "script", vec![at("id", "js-initialData")], "{not json"));
    let mut article = BilibiliArticle::new();
    let r = article.extract_content(&html, &|n: Node| n.has_local_name("script"));
    assert_eq!(r, Err(ZhihuError::UnknownError));
    let html = frag(|b| leaf(b, "script", vec![], "[1]"));
    assert!(article.extract_content(&html, &|n: Node| n.has_local_name("script")).is_ok());
    assert!(article.content.contains("Array"));
}

#[test]
fn emath_thread_markdown() {
    let html = frag(|b| {
        leaf(b, "span", vec![at("id", "thread_subject")], "Title");
        b.open_element(el("td"), vec![at("class", "t_f")]);
        b.append_text(" see ".to_string());
        leaf(b, "a", vec![at("href", "u")], "link");
        b.open_element(el("div"), vec![at("class", "blockcode")]);
        b.open_element(el("ol"), vec![]);
        leaf(b, "li", vec![], "  let x = 1;  ");
        leaf(b, "li", vec![], "x");
        b.close_element();
        b.close_element();
        b.close_element();
    });
    let mut thread = EMathDissussion::new();
    let r = thread.do_parse(
        &html,
        &|n: Node| n.has_local_name("span") && n.has_id("thread_subject", CaseSensitivity::CaseSensitive),
        &|n: Node| n.has_local_name("td") && n.has_class_with("t_f", CaseSensitivity::CaseSensitive),
        &|n: Node| n.has_local_name("li"),
    );
    assert!(r.is_ok());
    assert_eq!(thread.title, "Title");
    assert_eq!(thread.content, "see[link](u)```rust\nlet x = 1;\nx\n```\n\n---\n");
}

#[test]
fn select_text_needs_a_text_child() {
    let html = frag(|b| {
        b.open_element(el("h1"), vec![]);
        leaf(b, "b", vec![], "bold");
        b.close_element();
        leaf(b, "h2", vec![], "plain");
    });
    assert_eq!(htmler::select_text(&html, &|n: Node| n.has_local_name("h1")), None);
    assert_eq!(htmler::select_text(&html, &|n: Node| n.has_local_name("h2")), Some("plain".to_string()));
}

#[test]
fn empty_fragment() {
    let html = TreeBuilder::new_fragment().finish();
    assert_eq!(html.node_count(), 1);
    assert!(html.root_node().first_child().is_none());
    assert!(html.root_node().children().is_empty());
    assert_eq!(html.root_node().inner_html(), "");
    assert!(all(&html, |_| true).is_empty());
    assert!(html.root_node().is_empty());
}

#[test]
fn scoped_walk_hands_over_its_scope() {
    // <div><span><b>2</b></span></div>: `:scope > b` from the span, `:scope > span` from the div
    let html = frag(|b| {
        b.open_element(el("div"), vec![]);
        b.open_element(el("span"), vec![]);
        leaf(b, "b", vec![], "2");
        b.close_element();
        b.close_element();
    });
    let span = all(&html, |n| n.has_local_name("span"))[0];
    let div = all(&html, |n| n.has_local_name("div"))[0];
    let child_of_scope = |local: &'static str| {
        move |n: Node<'_>, scope: Node<'_>| n.has_local_name(local) && n.parent().map_or(false, |p| p.id() == scope.id())
    };
    assert_eq!(div.select().collect_matches_scoped(&child_of_scope("b")).len(), 0);
    let found = div.select().collect_matches_scoped(&child_of_scope("span"));
    assert_eq!(found.len(), 1);
    assert_eq!(found[0].id(), span.id());
    let b = span.select().next_match_scoped(&child_of_scope("b")).unwrap();
    assert_eq!(b.inner_html(), "2");
}

#[test]
fn collect_matches_finds_every_match() {
    let html = frag(|b| {
        for _ in 0..3 {
            b.open_element(el("ul"), vec![]);
            leaf(b, "li", vec![], "x");
            leaf(b, "li", vec![], "y");
            b.close_element();
        }
    });
    assert_eq!(all(&html, |n| n.has_local_name("li")).len(), 6);
    assert_eq!(all(&html, |n| n.has_local_name("ul")).len(), 3);
}

#[test]
fn zhihu_unknown_element_keeps_the_body() {
    let html = frag(|b| {
        b.open_element(el("span"), vec![at("class", "c")]);
        b.open_element(el("p"), vec![]);
        b.append_text("ok".to_string());
        b.close_element();
        leaf(b, "table", vec![], "x");
        b.open_element(el("br"), vec![]);
        b.close_element();
        b.close_element();
    });
    let mut answer = ZhihuAnswer::new();
    answer.content = "start:".to_string();
    let r = answer.extract_content(&html, &|n: Node| n.has_local_name("span"));
    assert!(r.is_ok());
    assert_eq!(answer.content, "start:ok\n\n");
}

#[test]
fn titles_take_the_first_match() {
    let html = frag(|b| {
        leaf(b, "h1", vec![], "first");
        leaf(b, "h1", vec![], "second");
    });
    let mut answer = ZhihuAnswer::new();
    answer.title = "old".to_string();
    answer.extract_title(&html, &|n: Node| n.has_local_name("h1")).unwrap();
    assert_eq!(answer.title, "first");
    answer.extract_title(&html, &|n: Node| n.has_local_name("h2")).unwrap();
    assert_eq!(answer.title, "first");
    let mut article = BilibiliArticle::new();
    article.title = "old".to_string();
    article.extract_title(&html, &|n: Node| n.has_local_name("h2")).unwrap();
    assert_eq!(article.title, "");
}
