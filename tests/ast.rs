use htmler::ast::{escape_text, HtmlElement, HtmlNode};

#[test]
fn element_without_children_self_closes() {
    let e = HtmlElement::new("img").with_attribute("src", "a.png").with_attribute("alt", "x");
    assert_eq!(e.to_html(), "<img alt=\"x\" src=\"a.png\"/>");
}

#[test]
fn element_writes_id_classes_and_children() {
    let e = HtmlElement::new("div")
        .with_id("main")
        .with_class("b")
        .with_class("a")
        .with_class("b")
        .with_text("1 < 2")
        .with_child(HtmlNode::from_element(HtmlElement::new("br")));
    assert_eq!(e.get_classes(), &vec!["a".to_string(), "b".to_string()]);
    assert_eq!(e.to_html(), "<div id=\"main\" class=\"a b\">1 &lt; 2<br/></div>");
}

#[test]
fn attribute_is_replaced() {
    let mut e = HtmlElement::new("a");
    e.add_attribute("href", "x");
    e.add_attribute("href", "y");
    assert_eq!(e.get_attributes(), &vec![("href".to_string(), "y".to_string())]);
}

#[test]
fn text_escaping() {
    assert_eq!(escape_text("<a href=\"x\">'&'</a>"), "&lt;a href=&quot;x&quot;&gt;&#39;&amp;&#39;&lt;/a&gt;");
    let e = HtmlElement::new("p").with_safe_text("<b>".to_string());
    assert_eq!(e.to_html(), "<p><b></p>");
}

#[test]
fn default_is_html() {
    let e = HtmlElement::default();
    assert_eq!(e.to_html(), "<html/>");
    assert_eq!(HtmlNode::default().to_html(), "<html/>");
    assert_eq!(e.get_id(), "");
    let mut e = e;
    e.set_tag("body");
    e.set_id("i");
    assert_eq!(e.to_html(), "<body id=\"i\"/>");
}

#[test]
fn other_nodes() {
    let e = HtmlElement::new("x")
        .with_child(HtmlNode::Comment("c".to_string()))
        .with_child(HtmlNode::from_text("t".to_string()));
    assert_eq!(e.to_html(), "<x><!-- c -->t</x>");
    assert_eq!(e.get_children().len(), 2);
}
