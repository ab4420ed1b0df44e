use htmler::{Attribute, CaseSensitivity, Html, Node, QualName, TreeBuilder};

const XHTML: &str = "http://www.w3.org/1999/xhtml";

fn name(local: &str) -> QualName {
    QualName::new(None, XHTML.to_string(), local.to_string())
}

fn attr(local: &str, value: &str) -> Attribute {
    Attribute { name: QualName::new(None, String::new(), local.to_string()), value: value.to_string() }
}

/// A fragment as html5ever builds it: the fragment root, then an `html` element.
fn fragment(build: impl FnOnce(&mut TreeBuilder)) -> Html {
    let mut b = TreeBuilder::new_fragment();
    b.open_element(name("html"), vec![]);
    build(&mut b);
    b.finish()
}

fn first<'a>(html: &'a Html, pred: impl Fn(Node<'a>) -> bool) -> Option<Node<'a>> {
    html.select().next_match(&pred)
}

#[test]
fn main_ready() {
    println!("it works!")
}

#[test]
fn element_test_has_id() {
    let html = fragment(|b| {
        b.open_element(name("p"), vec![attr("id", "link_id_456")]);
        b.append_text("hey there".to_string());
        b.close_element();
    });
    let element = first(&html, |n| n.has_local_name("p")).unwrap();
    assert_eq!(true, element.has_id("link_id_456", CaseSensitivity::CaseSensitive));

    let html = fragment(|b| {
        b.open_element(name("p"), vec![]);
        b.append_text("hey there".to_string());
        b.close_element();
    });
    let element = first(&html, |n| n.has_local_name("p")).unwrap();
    assert_eq!(false, element.has_id("any_link_id", CaseSensitivity::CaseSensitive));
}

#[test]
fn element_test_is_link() {
    let html = fragment(|b| {
        b.open_element(name("link"), vec![attr("href", "https://www.example.com")]);
        b.close_element();
    });
    let element = first(&html, |n| n.has_local_name("link")).unwrap();
    assert_eq!(true, element.is_link());

    let html = fragment(|b| {
        b.open_element(name("p"), vec![]);
        b.append_text("hey there".to_string());
        b.close_element();
    });
    let element = first(&html, |n| n.has_local_name("p")).unwrap();
    assert_eq!(false, element.is_link());
}

#[test]
fn element_test_has_class() {
    let html = fragment(|b| {
        b.open_element(name("p"), vec![attr("class", "my_class")]);
        b.append_text("hey there".to_string());
        b.close_element();
    });
    let element = first(&html, |n| n.has_local_name("p")).unwrap();
    assert_eq!(true, element.has_class_with("my_class", CaseSensitivity::CaseSensitive));

    let html = fragment(|b| {
        b.open_element(name("p"), vec![]);
        b.append_text("hey there".to_string());
        b.close_element();
    });
    let element = first(&html, |n| n.has_local_name("p")).unwrap();
    assert_eq!(false, element.has_class_with("my_class", CaseSensitivity::CaseSensitive));
}

/// `<div><b>1</b><span><span><b>2</b></span><b>3</b></span></div>`, with the
/// whitespace between the tags.
fn scope_tree() -> Html {
    fragment(|b| {
        b.append_text("\n            ".to_string());
        b.open_element(name("div"), vec![]);
        b.append_text("\n                ".to_string());
        b.open_element(name("b"), vec![]);
        b.append_text("1".to_string());
        b.close_element();
        b.append_text("\n                ".to_string());
        b.open_element(name("span"), vec![]);
        b.append_text("\n                    ".to_string());
        b.open_element(name("span"), vec![]);
        b.open_element(name("b"), vec![]);
        b.append_text("2".to_string());
        b.close_element();
        b.close_element();
        b.append_text("\n                    ".to_string());
        b.open_element(name("b"), vec![]);
        b.append_text("3".to_string());
        b.close_element();
        b.append_text("\n                ".to_string());
        b.close_element();
        b.append_text("\n            ".to_string());
        b.close_element();
        b.append_text("\n        ".to_string());
    })
}

fn child_of<'a>(local: &'static str, parent: Node<'a>) -> impl Fn(Node<'a>) -> bool {
    move |n: Node<'a>| n.has_local_name(local) && n.parent().map_or(false, |p| p.same_node(&parent))
}

#[test]
fn mod_test_scope() {
    let fragment = scope_tree();
    // div > span
    let element1 = first(&fragment, |n| {
        n.has_local_name("span") && n.parent_element().map_or(false, |p| p.has_local_name("div"))
    })
    .unwrap();
    // :scope > b
    let element2 = element1.select().next_match(&child_of("b", element1)).unwrap();
    assert_eq!(element2.inner_html(), "3");
}

#[test]
fn tag_with_newline() {
    let document = fragment(|b| {
        b.append_text("\n        ".to_string());
        b.open_element(name("a"), vec![attr("href", "https://github.com/causal-agent/scraper")]);
        b.append_text("\n\n                            ".to_string());
        b.close_element();
        b.append_text("\n        ".to_string());
    });
    let mut iter = document.select();
    let a = iter.next_match(&|n: Node| n.has_local_name("a")).unwrap();
    assert_eq!(a.get_attribute("href"), "https://github.com/causal-agent/scraper");
}

#[test]
fn main() {
    let fragment = fragment(|b| {
        b.open_element(name("h1"), vec![]);
        b.open_element(name("script"), vec![]);
        b.append_text("Hello, world!".to_string());
        b.close_element();
        b.close_element();
    });
    for node in fragment.root_node().descendants() {
        match node.as_data() {
            None => {}
            Some(s) => {
                println!("{:#?}", s.name());
            }
        }
    }
}

#[test]
fn wrap_only_elements() {
    let html = fragment(|b| {
        b.append_text("t".to_string());
        b.open_element(name("p"), vec![]);
        b.close_element();
    });
    let top = html.root_node().first_child().unwrap();
    let kids = top.children();
    assert!(Node::wrap(kids[0]).is_none());
    assert_eq!(Node::wrap(kids[1]).unwrap().id(), kids[1].id());
    assert!(Node::wrap(html.root_node()).is_none());
}
