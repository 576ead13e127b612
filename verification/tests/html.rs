use asciidoctor::gen::html::attributes_to_string;
use asciidoctor::gen::html::div_a;
use asciidoctor::gen::html::find_id_attribute;
use asciidoctor::gen::html::gen;
use asciidoctor::gen::html::hr;
use asciidoctor::gen::html::mark;
use asciidoctor::gen::html::mark_element;
use asciidoctor::gen::html::p;
use asciidoctor::gen::html::page_break_element;
use asciidoctor::gen::html::paragraph_element;
use asciidoctor::gen::html::span_a;
use asciidoctor::gen::html::tag_element;
use asciidoctor::gen::html::text_node;
use asciidoctor::gen::html::Generator;
use asciidoctor::gen::html::Html;
use asciidoctor::gen::html::HtmlGen;
use asciidoctor::node::Attribute;
use asciidoctor::node::Item;
use asciidoctor::node::Node;
use asciidoctor::node::Tag;
use asciidoctor::node::Text;

fn word(text: &str) -> Item {
    Item::Word(text.to_string())
}

fn text(items: Vec<Item>) -> Text {
    Text { items }
}

fn id(value: &str) -> Attribute {
    Attribute::Id(value.to_string())
}

fn role(value: &str) -> Attribute {
    Attribute::Role(value.to_string())
}

fn render(node: &Node) -> String {
    let mut out = String::new();
    gen(&mut Generator {}, node, &mut out);
    out
}

fn render_item(item: Item) -> String {
    let mut out = String::new();
    Generator {}.item(&item).write(&mut out);
    out
}

fn written(html: &Html) -> String {
    let mut out = String::new();
    html.write(&mut out);
    out
}

/// A generator that writes rules its own way and leaves the rest as usual.
struct Strict {
    rules: usize,
}

impl HtmlGen for Strict {
    fn usual(&self) -> bool {
        false
    }

    fn horizontal_rule(&mut self) -> Html {
        self.rules += 1;
        Html::SingleTextNode("<hr>".to_string())
    }

    fn text(&mut self, text: &Text) -> Html {
        text_node(self, text)
    }
}

#[test]
fn paragraph_of_one_word() {
    let node = Node::Paragraph(text(vec![word("hi")]));
    assert_eq!(render(&node), "<div class=\"paragraph\"><p>hi</p></div>");
}

#[test]
fn paragraph_keeps_the_order_of_its_items() {
    let node = Node::Paragraph(text(vec![
        word("a"),
        Item::Space,
        Item::Mark(text(vec![word("b")]), vec![]),
        Item::Space,
        Item::Tag(Tag::Strong, text(vec![word("c"), Item::Space, word("d")]), vec![]),
    ]));
    assert_eq!(
        render(&node),
        "<div class=\"paragraph\"><p>a <mark>b</mark> <strong >c d</strong></p></div>"
    );
}

#[test]
fn empty_paragraph() {
    let node = Node::Paragraph(text(vec![]));
    assert_eq!(render(&node), "<div class=\"paragraph\"><p></p></div>");
}

#[test]
fn mark_with_id_is_a_span_behind_its_anchor() {
    let item = Item::Mark(text(vec![word("x")]), vec![id("a")]);
    assert_eq!(render_item(item), "<a id=\"a\"></a><span id=\"a\">x</span>");
}

#[test]
fn mark_with_id_is_a_sequence_of_anchor_and_span() {
    let item = Item::Mark(text(vec![word("x")]), vec![id("a")]);
    let expected = Html::Sequence(
        Box::new(Html::A("a".to_string())),
        Box::new(Html::Span(
            "id=\"a\"".to_string(),
            Box::new(Html::TextNode(vec![Html::SingleTextNode("x".to_string())])),
        )),
    );
    assert_eq!(Generator {}.item(&item), expected);
}

#[test]
fn mark_without_attributes_is_a_mark() {
    let item = Item::Mark(text(vec![word("x"), Item::Space, word("y")]), vec![]);
    assert_eq!(render_item(item), "<mark>x y</mark>");
}

#[test]
fn mark_with_role_is_a_span_without_anchor() {
    let item = Item::Mark(text(vec![word("x")]), vec![role("big")]);
    assert_eq!(render_item(item), "<span class=\"big\">x</span>");
}

#[test]
fn horizontal_rule() {
    assert_eq!(render(&Node::HorizontalRule), "<hr/>");
    assert_eq!(Generator {}.node(&Node::HorizontalRule), Html::Hr);
}

#[test]
fn page_break() {
    assert_eq!(render(&Node::PageBreak), "<div style=\"page-break-after: always;\"></div>");
    assert_eq!(
        page_break_element(),
        Html::Div("style=\"page-break-after: always;\"".to_string(), Box::new(Html::Empty))
    );
}

#[test]
fn writing_twice_gives_the_same_text() {
    let node = Node::Paragraph(text(vec![
        word("a"),
        Item::Tag(Tag::Em, text(vec![word("b")]), vec![id("i"), role("r")]),
    ]));
    let html = Generator {}.node(&node);
    let first = written(&html);
    let second = written(&html);
    assert_eq!(first, second);
    assert_eq!(
        first,
        "<div class=\"paragraph\"><p>a<a id=\"i\"></a><em id=\"i\"class=\"r\">b</em></p></div>"
    );
    let mut out = String::from("before");
    html.write(&mut out);
    assert_eq!(out, format!("before{}", first));
    assert_eq!(Generator {}.node(&node), html);
}

#[test]
fn tag_holds_its_attributes() {
    let item = Item::Tag(Tag::Code, text(vec![word("x")]), vec![role("r")]);
    assert_eq!(render_item(item), "<code class=\"r\">x</code>");
    let item = Item::Tag(Tag::Sub, text(vec![word("x")]), vec![]);
    assert_eq!(render_item(item), "<sub >x</sub>");
}

#[test]
fn tag_with_id_stands_behind_its_anchor() {
    let item = Item::Tag(Tag::Sup, text(vec![word("x")]), vec![role("r"), id("a"), id("b")]);
    assert_eq!(
        render_item(item),
        "<a id=\"a\"></a><sup class=\"r\"id=\"a\"id=\"b\">x</sup>"
    );
}

#[test]
fn tag_names() {
    assert_eq!(Tag::Code.name(), "code");
    assert_eq!(Tag::Em.name(), "em");
    assert_eq!(Tag::Strong.name(), "strong");
    assert_eq!(Tag::Sub.name(), "sub");
    assert_eq!(Tag::Sup.name(), "sup");
}

#[test]
fn nested_marks_keep_their_anchors_inside() {
    let inner = Item::Mark(text(vec![word("in")]), vec![id("i")]);
    let outer = Item::Tag(Tag::Em, text(vec![inner, word("out")]), vec![id("o")]);
    assert_eq!(
        render_item(outer),
        "<a id=\"o\"></a><em id=\"o\"><a id=\"i\"></a><span id=\"i\">in</span>out</em>"
    );
}

#[test]
fn space_and_word_are_written_as_they_stand() {
    assert_eq!(render_item(Item::Space), " ");
    assert_eq!(render_item(word("a<b")), "a<b");
    assert_eq!(Generator {}.item(&Item::Space), Html::SingleTextNode(" ".to_string()));
}

#[test]
fn attributes_follow_each_other_directly() {
    assert_eq!(attributes_to_string(&[]), "");
    assert_eq!(attributes_to_string(&[id("a")]), "id=\"a\"");
    assert_eq!(attributes_to_string(&[role("r"), id("a")]), "class=\"r\"id=\"a\"");
}

#[test]
fn first_id_is_found() {
    assert_eq!(find_id_attribute(&[]), None);
    assert_eq!(find_id_attribute(&[role("r")]), None);
    assert_eq!(find_id_attribute(&[role("r"), id("a"), id("b")]), Some("a".to_string()));
}

#[test]
fn elements_are_what_they_are_made_of() {
    assert_eq!(hr(), Html::Hr);
    assert_eq!(mark(Html::Empty), Html::Mark(Box::new(Html::Empty)));
    assert_eq!(p(Html::Hr), Html::P(Box::new(Html::Hr)));
    assert_eq!(
        div_a("x".to_string(), Html::Empty),
        Html::Div("x".to_string(), Box::new(Html::Empty))
    );
    assert_eq!(
        span_a("y".to_string(), Html::Hr),
        Html::Span("y".to_string(), Box::new(Html::Hr))
    );
    assert_eq!(
        paragraph_element(Html::Empty),
        Html::Div("class=\"paragraph\"".to_string(), Box::new(Html::P(Box::new(Html::Empty))))
    );
    assert_eq!(mark_element(Html::Hr, &[]), Html::Mark(Box::new(Html::Hr)));
    assert_eq!(
        tag_element(Tag::Em, Html::Hr, &[]),
        Html::Tag(Tag::Em, String::new(), Box::new(Html::Hr))
    );
}

#[test]
fn every_kind_of_tree_is_written() {
    assert_eq!(written(&Html::Empty), "");
    assert_eq!(written(&Html::Hr), "<hr/>");
    assert_eq!(written(&Html::A("x".to_string())), "<a id=\"x\"></a>");
    assert_eq!(written(&div_a("k=\"v\"".to_string(), Html::Hr)), "<div k=\"v\"><hr/></div>");
    assert_eq!(written(&mark(Html::Hr)), "<mark><hr/></mark>");
    assert_eq!(written(&p(Html::Empty)), "<p></p>");
    assert_eq!(written(&span_a(String::new(), Html::Empty)), "<span ></span>");
    assert_eq!(written(&Html::SingleTextNode("t".to_string())), "t");
    assert_eq!(
        written(&Html::Sequence(
            Box::new(Html::Hr),
            Box::new(Html::SingleTextNode("t".to_string()))
        )),
        "<hr/>t"
    );
    assert_eq!(
        written(&Html::Tag(Tag::Strong, "a".to_string(), Box::new(Html::Hr))),
        "<strong a><hr/></strong>"
    );
    assert_eq!(written(&Html::TextNode(vec![])), "");
    assert_eq!(
        written(&Html::TextNode(vec![
            Html::SingleTextNode("1".to_string()),
            Html::Hr,
            Html::SingleTextNode("2".to_string()),
        ])),
        "1<hr/>2"
    );
}

#[test]
fn another_generator_changes_one_case() {
    let mut strict = Strict { rules: 0 };
    let mut out = String::new();
    gen(&mut strict, &Node::HorizontalRule, &mut out);
    assert_eq!(out, "<hr>");
    gen(&mut strict, &Node::Paragraph(text(vec![word("hi")])), &mut out);
    assert_eq!(out, "<hr><div class=\"paragraph\"><p>hi</p></div>");
    gen(&mut strict, &Node::PageBreak, &mut out);
    gen(&mut strict, &Node::HorizontalRule, &mut out);
    assert_eq!(strict.rules, 2);
    assert!(out.ends_with("<div style=\"page-break-after: always;\"></div><hr>"));
}

#[test]
fn text_node_has_one_child_for_each_item() {
    let items = text(vec![word("a"), Item::Space, Item::Mark(text(vec![]), vec![])]);
    let html = text_node(&mut Generator {}, &items);
    assert_eq!(
        html,
        Html::TextNode(vec![
            Html::SingleTextNode("a".to_string()),
            Html::SingleTextNode(" ".to_string()),
            Html::Mark(Box::new(Html::TextNode(vec![]))),
        ])
    );
    assert_eq!(Generator {}.text(&items), html);
}
