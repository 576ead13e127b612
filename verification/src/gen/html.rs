//! Generating HTML from the nodes of a document.
//!
//! A generator builds a tree of HTML elements from a node, and the tree is
//! then written out as text. [`HtmlGen`] has one method for each kind of node
//! and of item, each with the usual behaviour as its default, so that another
//! generator changes only what it needs to.
use vstd::prelude::*;
use vstd::string::*;
use crate::node::Attribute;
use crate::node::Item;
use crate::node::Node;
use crate::node::Tag;
use crate::node::Text;

verus! {

/// An HTML element with its children.
#[derive(Debug, PartialEq, Eq)]
pub enum Html {
    /// An empty anchor that holds an id.
    A(String),
    /// A `div` with its attributes.
    Div(String, Box<Html>),
    /// Nothing.
    Empty,
    /// A horizontal rule.
    Hr,
    Mark(Box<Html>),
    P(Box<Html>),
    /// One tree and then another.
    Sequence(Box<Html>, Box<Html>),
    /// Text that is written as it stands.
    SingleTextNode(String),
    /// A `span` with its attributes.
    Span(String, Box<Html>),
    /// An inline element with its attributes.
    Tag(Tag, String, Box<Html>),
    /// Trees one after the other.
    TextNode(Vec<Html>),
}

/// What an [`Html`] stands for: the same tree, of sequences of characters.
pub enum HtmlView {
    A(Seq<char>),
    Div(Seq<char>, Box<HtmlView>),
    Empty,
    Hr,
    Mark(Box<HtmlView>),
    P(Box<HtmlView>),
    Sequence(Box<HtmlView>, Box<HtmlView>),
    SingleTextNode(Seq<char>),
    Span(Seq<char>, Box<HtmlView>),
    Tag(Tag, Seq<char>, Box<HtmlView>),
    TextNode(Seq<HtmlView>),
}

/// The tree that `html` stands for.
pub open spec fn view_of(html: Html) -> HtmlView
    decreases html, 0nat,
{
    match html {
        Html::A(id) => HtmlView::A(id@),
        Html::Div(attributes, children) => HtmlView::Div(attributes@, Box::new(view_of(*children))),
        Html::Empty => HtmlView::Empty,
        Html::Hr => HtmlView::Hr,
        Html::Mark(children) => HtmlView::Mark(Box::new(view_of(*children))),
        Html::P(children) => HtmlView::P(Box::new(view_of(*children))),
        Html::Sequence(first, second) => HtmlView::Sequence(
            Box::new(view_of(*first)),
            Box::new(view_of(*second)),
        ),
        Html::SingleTextNode(text) => HtmlView::SingleTextNode(text@),
        Html::Span(attributes, children) => HtmlView::Span(
            attributes@,
            Box::new(view_of(*children)),
        ),
        Html::Tag(tag, attributes, children) => HtmlView::Tag(
            tag,
            attributes@,
            Box::new(view_of(*children)),
        ),
        Html::TextNode(nodes) => HtmlView::TextNode(views_of(nodes, nodes.len() as nat)),
    }
}

/// The trees that the first `count` of `nodes` stand for.
pub open spec fn views_of(nodes: Vec<Html>, count: nat) -> Seq<HtmlView>
    decreases nodes, count,
{
    if count == 0 || count > nodes.len() {
        Seq::empty()
    } else {
        views_of(nodes, (count - 1) as nat).push(view_of(nodes[count - 1]))
    }
}

impl View for Html {
    type V = HtmlView;

    open spec fn view(&self) -> HtmlView {
        view_of(*self)
    }
}

/// An element without attributes, as text.
pub open spec fn element_text(name: Seq<char>, body: Seq<char>) -> Seq<char> {
    "<"@ + name + ">"@ + body + "</"@ + name + ">"@
}

/// An element with attributes, as text.
pub open spec fn element_a_text(name: Seq<char>, attributes: Seq<char>, body: Seq<char>) -> Seq<
    char,
> {
    "<"@ + name + " "@ + attributes + ">"@ + body + "</"@ + name + ">"@
}

/// One attribute with its value, as text.
pub open spec fn attr_text(name: Seq<char>, value: Seq<char>) -> Seq<char> {
    name + "=\""@ + value + "\""@
}

impl HtmlView {
    /// The tree as text: every element with its opening tag, what it holds,
    /// and its closing tag, in the order of the tree.
    pub open spec fn text(self) -> Seq<char>
        decreases self, 0nat,
    {
        match self {
            HtmlView::A(id) => element_a_text("a"@, attr_text("id"@, id), Seq::empty()),
            HtmlView::Div(attributes, children) => element_a_text(
                "div"@,
                attributes,
                children.text(),
            ),
            HtmlView::Empty => Seq::empty(),
            HtmlView::Hr => "<hr/>"@,
            HtmlView::Mark(children) => element_text("mark"@, children.text()),
            HtmlView::P(children) => element_text("p"@, children.text()),
            HtmlView::Sequence(first, second) => first.text() + second.text(),
            HtmlView::SingleTextNode(text) => text,
            HtmlView::Span(attributes, children) => element_a_text(
                "span"@,
                attributes,
                children.text(),
            ),
            HtmlView::Tag(tag, attributes, children) => element_a_text(
                tag.name_text(),
                attributes,
                children.text(),
            ),
            HtmlView::TextNode(nodes) => texts(nodes, nodes.len()),
        }
    }
}

/// The first `count` of `nodes` as text, one after the other.
pub open spec fn texts(nodes: Seq<HtmlView>, count: nat) -> Seq<char>
    decreases nodes, count,
{
    if count == 0 || count > nodes.len() {
        Seq::empty()
    } else {
        texts(nodes, (count - 1) as nat) + nodes[count - 1].text()
    }
}

/// The first `count` views of `nodes` are the views of its first `count`
/// elements.
pub proof fn lemma_views_of(nodes: Vec<Html>, count: nat)
    requires
        count <= nodes.len(),
    ensures
        views_of(nodes, count).len() == count,
        forall|i: int| 0 <= i < count ==> #[trigger] views_of(nodes, count)[i] == nodes[i]@,
    decreases count,
{
    if count > 0 {
        lemma_views_of(nodes, (count - 1) as nat);
    }
}

/// One attribute as text: an id as `id="..."`, a role as `class="..."`.
pub open spec fn attribute_text(attribute: Attribute) -> Seq<char> {
    match attribute {
        Attribute::Id(id) => "id=\""@ + id@ + "\""@,
        Attribute::Role(role) => "class=\""@ + role@ + "\""@,
    }
}

/// Attributes as text, one directly after the other.
pub open spec fn attributes_text(attributes: Seq<Attribute>) -> Seq<char>
    decreases attributes.len(),
{
    if attributes.len() == 0 {
        Seq::empty()
    } else {
        attributes_text(attributes.drop_last()) + attribute_text(attributes.last())
    }
}

/// The first id among `attributes`.
pub open spec fn first_id(attributes: Seq<Attribute>) -> Option<Seq<char>>
    decreases attributes.len(),
{
    if attributes.len() == 0 {
        None
    } else {
        match attributes[0] {
            Attribute::Id(id) => Some(id@),
            Attribute::Role(_) => first_id(attributes.skip(1)),
        }
    }
}

/// `element`, behind an anchor for the first id among `attributes` if there
/// is one.
pub open spec fn with_anchor(attributes: Seq<Attribute>, element: HtmlView) -> HtmlView {
    match first_id(attributes) {
        Some(id) => HtmlView::Sequence(Box::new(HtmlView::A(id)), Box::new(element)),
        None => element,
    }
}

/// Highlighted text: a `mark` where it has no attributes, else a `span` that
/// holds them, behind an anchor for its id.
pub open spec fn mark_html(text: HtmlView, attributes: Seq<Attribute>) -> HtmlView {
    if attributes.len() == 0 {
        HtmlView::Mark(Box::new(text))
    } else {
        with_anchor(attributes, HtmlView::Span(attributes_text(attributes), Box::new(text)))
    }
}

/// Text in an inline element that holds its attributes, behind an anchor for
/// its id.
pub open spec fn tag_html(tag: Tag, text: HtmlView, attributes: Seq<Attribute>) -> HtmlView {
    with_anchor(attributes, HtmlView::Tag(tag, attributes_text(attributes), Box::new(text)))
}

/// A page break: an empty `div` that is styled to end the page.
pub open spec fn page_break_html() -> HtmlView {
    HtmlView::Div(attr_text("style"@, "page-break-after: always;"@), Box::new(HtmlView::Empty))
}

/// A paragraph: a `p` in a `div` of the class `paragraph`.
pub open spec fn paragraph_html(text: HtmlView) -> HtmlView {
    HtmlView::Div(attr_text("class"@, "paragraph"@), Box::new(HtmlView::P(Box::new(text))))
}

/// The tree for one piece of text.
pub open spec fn item_html(item: Item) -> HtmlView
    decreases item, 0nat,
{
    match item {
        Item::Mark(text, attributes) => mark_html(text_html(text), attributes@),
        Item::Space => HtmlView::SingleTextNode(" "@),
        Item::Tag(tag, text, attributes) => tag_html(tag, text_html(text), attributes@),
        Item::Word(word) => HtmlView::SingleTextNode(word@),
    }
}

/// The tree for running text: the trees of its pieces, in order.
pub open spec fn text_html(text: Text) -> HtmlView
    decreases text, 0nat,
{
    HtmlView::TextNode(items_html(text.items, text.items.len() as nat))
}

/// The trees of the first `count` of `items`.
pub open spec fn items_html(items: Vec<Item>, count: nat) -> Seq<HtmlView>
    decreases items, count,
{
    if count == 0 || count > items.len() {
        Seq::empty()
    } else {
        items_html(items, (count - 1) as nat).push(item_html(items[count - 1]))
    }
}

/// The tree for a node of the document.
pub open spec fn node_html(node: Node) -> HtmlView {
    match node {
        Node::HorizontalRule => HtmlView::Hr,
        Node::PageBreak => page_break_html(),
        Node::Paragraph(text) => paragraph_html(text_html(text)),
    }
}

/// The first `count` trees of `items` are the trees of its first `count`
/// elements.
pub proof fn lemma_items_html(items: Vec<Item>, count: nat)
    requires
        count <= items.len(),
    ensures
        items_html(items, count).len() == count,
        forall|i: int|
            0 <= i < count ==> #[trigger] items_html(items, count)[i] == item_html(items[i]),
    decreases count,
{
    if count > 0 {
        lemma_items_html(items, (count - 1) as nat);
    }
}

/// An id among the attributes of an inline element, or of highlighted text,
/// comes out once as an anchor, which stands directly before the element.
/// Without an id there is no anchor.
pub proof fn lemma_id_is_anchor(tag: Tag, text: HtmlView, attributes: Seq<Attribute>)
    ensures
        match first_id(attributes) {
            Some(id) => {
                let anchor = HtmlView::A(id);
                let element = HtmlView::Tag(tag, attributes_text(attributes), Box::new(text));
                let span = HtmlView::Span(attributes_text(attributes), Box::new(text));
                &&& tag_html(tag, text, attributes) == HtmlView::Sequence(
                    Box::new(anchor),
                    Box::new(element),
                )
                &&& tag_html(tag, text, attributes).text() == anchor.text() + element.text()
                &&& mark_html(text, attributes) == HtmlView::Sequence(
                    Box::new(anchor),
                    Box::new(span),
                )
                &&& mark_html(text, attributes).text() == anchor.text() + span.text()
            },
            None => {
                &&& tag_html(tag, text, attributes) is Tag
                &&& mark_html(text, attributes) is Mark || mark_html(text, attributes) is Span
            },
        },
{
}

/// What is written for a tree does not depend on what was written before
/// it: written behind any two texts, the same tree adds the same characters.
pub proof fn lemma_write_repeats(html: HtmlView, first: Seq<char>, second: Seq<char>)
    ensures
        (first + html.text()).skip(first.len() as int) == (second + html.text()).skip(
            second.len() as int,
        ),
{
    assert((first + html.text()).skip(first.len() as int) =~= html.text());
    assert((second + html.text()).skip(second.len() as int) =~= html.text());
}

/// Writes the HTML for `node`, as `gen` builds it, behind what `writer`
/// holds. A generator that is usual writes the text of [`node_html`].
pub fn gen<G: HtmlGen>(gen: &mut G, node: &Node, writer: &mut String)
    ensures
        old(writer)@.is_prefix_of(final(writer)@),
        final(gen).usual() == old(gen).usual(),
        old(gen).usual() ==> final(writer)@ == old(writer)@ + node_html(*node).text(),
{
    let html = gen.node(node);
    html.write(writer);
    proof {
        assert(writer@.subrange(0, old(writer)@.len() as int) =~= old(writer)@);
    }
}

/// The generator of plain HTML: every method does what is usual, and all of
/// them together build the tree that [`node_html`] describes.
pub struct Generator {}

/// A generator of HTML: one method for each kind of node and of item. The
/// methods with a body do what is usual; a generator of another dialect gives
/// its own body to those that differ, and is then no longer usual.
/// [`HtmlGen::text`] has no body, because it is the one through which the
/// others come back to themselves: [`text_node`] is the usual body for it.
///
/// Of a usual generator every method builds the tree that the functions
/// [`node_html`], [`item_html`] and [`text_html`] describe. Of any other,
/// each method with a body still says what it builds as far as that does not
/// hang on other methods.
pub trait HtmlGen {
    /// The tree for a horizontal rule.
    fn horizontal_rule(&mut self) -> (html: Html)
        ensures
            final(self).usual() == old(self).usual(),
            old(self).usual() ==> html@ == HtmlView::Hr,
        default_ensures
            html@ == HtmlView::Hr,
    {
        hr()
    }

    /// The tree for one piece of text.
    fn item(&mut self, item: &Item) -> (html: Html)
        ensures
            final(self).usual() == old(self).usual(),
            old(self).usual() ==> html@ == item_html(*item),
        default_ensures
            *item is Space ==> html@ == HtmlView::SingleTextNode(" "@),
            *item matches Item::Word(word) ==> html@ == HtmlView::SingleTextNode(word@),
    {
        match item {
            Item::Mark(text, attributes) => self.mark(text, attributes),
            Item::Space => Html::SingleTextNode(String::from_str(" ")),
            Item::Tag(tag, text, attributes) => self.tag(*tag, text, attributes),
            Item::Word(text) => Html::SingleTextNode(text.clone()),
        }
    }

    /// The tree for highlighted text.
    fn mark(&mut self, text: &Text, attributes: &[Attribute]) -> (html: Html)
        ensures
            final(self).usual() == old(self).usual(),
            old(self).usual() ==> html@ == mark_html(text_html(*text), attributes@),
        default_ensures
            exists|inner: HtmlView| html@ == #[trigger] mark_html(inner, attributes@),
    {
        let text = self.text(text);
        let ghost inner = text@;
        let html = mark_element(text, attributes);
        assert(html@ == mark_html(inner, attributes@));
        html
    }

    /// The tree for a node of the document: what the method for its kind
    /// builds.
    fn node(&mut self, node: &Node) -> (html: Html)
        ensures
            final(self).usual() == old(self).usual(),
            old(self).usual() ==> html@ == node_html(*node),
    {
        match node {
            Node::HorizontalRule => self.horizontal_rule(),
            Node::PageBreak => self.page_break(),
            Node::Paragraph(text) => self.paragraph(text),
        }
    }

    /// The tree for a page break.
    fn page_break(&mut self) -> (html: Html)
        ensures
            final(self).usual() == old(self).usual(),
            old(self).usual() ==> html@ == page_break_html(),
        default_ensures
            html@ == page_break_html(),
    {
        page_break_element()
    }

    /// The tree for a paragraph.
    fn paragraph(&mut self, text: &Text) -> (html: Html)
        ensures
            final(self).usual() == old(self).usual(),
            old(self).usual() ==> html@ == paragraph_html(text_html(*text)),
        default_ensures
            exists|inner: HtmlView| html@ == #[trigger] paragraph_html(inner),
    {
        let text = self.text(text);
        let ghost inner = text@;
        let html = paragraph_element(text);
        assert(html@ == paragraph_html(inner));
        html
    }

    /// The tree for text in an inline element.
    fn tag(&mut self, tag: Tag, text: &Text, attributes: &[Attribute]) -> (html: Html)
        ensures
            final(self).usual() == old(self).usual(),
            old(self).usual() ==> html@ == tag_html(tag, text_html(*text), attributes@),
        default_ensures
            exists|inner: HtmlView| html@ == #[trigger] tag_html(tag, inner, attributes@),
    {
        let text = self.text(text);
        let ghost inner = text@;
        let html = tag_element(tag, text, attributes);
        assert(html@ == tag_html(tag, inner, attributes@));
        html
    }

    /// The tree for running text.
    fn text(&mut self, text: &Text) -> (html: Html)
        ensures
            final(self).usual() == old(self).usual(),
            old(self).usual() ==> html@ == text_html(*text),
    ;

    /// Whether the generator is usual: whether every method of it builds
    /// what the body given here builds. A generator with a body of its own
    /// that builds something else is not.
    spec fn usual(&self) -> bool;
}

/// Running text as a generator usually builds it: one tree for each item, as
/// `gen` makes it, in the order of the items.
pub fn text_node<G: HtmlGen>(gen: &mut G, text: &Text) -> (html: Html)
    ensures
        html matches Html::TextNode(nodes) && nodes.len() == text.items.len(),
        final(gen).usual() == old(gen).usual(),
        old(gen).usual() ==> html@ == text_html(*text),
{
    let mut texts: Vec<Html> = Vec::new();
    let mut i: usize = 0;
    while i < text.items.len()
        invariant
            i <= text.items.len(),
            texts.len() == i,
            gen.usual() == old(gen).usual(),
            gen.usual() ==> forall|j: int|
                0 <= j < i ==> #[trigger] texts[j]@ == item_html(text.items[j]),
        decreases text.items.len() - i,
    {
        texts.push(gen.item(&text.items[i]));
        i += 1;
    }
    proof {
        if gen.usual() {
            lemma_views_of(texts, texts.len() as nat);
            lemma_items_html(text.items, text.items.len() as nat);
            assert(views_of(texts, texts.len() as nat) =~= items_html(
                text.items,
                text.items.len() as nat,
            ));
        }
    }
    Html::TextNode(texts)
}

impl HtmlGen for Generator {
    open spec fn usual(&self) -> bool {
        true
    }

    fn item(&mut self, item: &Item) -> (html: Html)
        decreases item, 0nat,
    {
        match item {
            Item::Mark(text, attributes) => self.mark(text, attributes),
            Item::Space => Html::SingleTextNode(String::from_str(" ")),
            Item::Tag(tag, text, attributes) => self.tag(*tag, text, attributes),
            Item::Word(text) => Html::SingleTextNode(text.clone()),
        }
    }

    fn mark(&mut self, text: &Text, attributes: &[Attribute]) -> (html: Html)
        decreases text, 1nat,
    {
        let text = self.text(text);
        mark_element(text, attributes)
    }

    fn tag(&mut self, tag: Tag, text: &Text, attributes: &[Attribute]) -> (html: Html)
        decreases text, 1nat,
    {
        let text = self.text(text);
        tag_element(tag, text, attributes)
    }

    fn text(&mut self, text: &Text) -> (html: Html)
        decreases text, 0nat,
    {
        let mut texts: Vec<Html> = Vec::new();
        let mut i: usize = 0;
        while i < text.items.len()
            invariant
                i <= text.items.len(),
                texts.len() == i,
                forall|j: int| 0 <= j < i ==> #[trigger] texts[j]@ == item_html(text.items[j]),
            decreases text.items.len() - i,
        {
            texts.push(self.item(&text.items[i]));
            i += 1;
        }
        proof {
            lemma_views_of(texts, texts.len() as nat);
            lemma_items_html(text.items, text.items.len() as nat);
            assert(views_of(texts, texts.len() as nat) =~= items_html(
                text.items,
                text.items.len() as nat,
            ));
        }
        Html::TextNode(texts)
    }
}

impl Html {
    /// Writes the tree as text behind what `writer` holds.
    pub fn write(&self, writer: &mut String)
        ensures
            final(writer)@ == old(writer)@ + self@.text(),
        decreases self, 0nat,
    {
        match self {
            Html::A(id) => {
                let attributes = attr("id", id.as_str());
                tag_a_without_child("a", attributes.as_str(), writer)
            },
            Html::Div(attributes, children) => tag_a("div", attributes.as_str(), children, writer),
            Html::Empty => {
                assert(writer@ =~= old(writer)@ + self@.text());
            },
            Html::Hr => write_text("<hr/>", writer),
            Html::Mark(children) => tag("mark", children, writer),
            Html::P(children) => tag("p", children, writer),
            Html::Sequence(first, second) => {
                first.write(writer);
                second.write(writer);
                assert(writer@ =~= old(writer)@ + self@.text());
            },
            Html::SingleTextNode(text) => write_text(text.as_str(), writer),
            Html::Span(attributes, children) => tag_a(
                "span",
                attributes.as_str(),
                children,
                writer,
            ),
            Html::Tag(tag, attributes, children) => tag_a(
                tag.name(),
                attributes.as_str(),
                children,
                writer,
            ),
            Html::TextNode(nodes) => {
                let ghost views = views_of(*nodes, nodes.len() as nat);
                let mut i: usize = 0;
                proof {
                    lemma_views_of(*nodes, nodes.len() as nat);
                    assert(writer@ =~= old(writer)@ + texts(views, 0));
                }
                while i < nodes.len()
                    invariant
                        i <= nodes.len(),
                        *self == Html::TextNode(*nodes),
                        views == views_of(*nodes, nodes.len() as nat),
                        views.len() == nodes.len(),
                        forall|j: int| 0 <= j < nodes.len() ==> #[trigger] views[j] == nodes[j]@,
                        writer@ == old(writer)@ + texts(views, i as nat),
                    decreases nodes.len() - i,
                {
                    proof {
                        vstd::std_specs::vec::axiom_vec_index_decreases(*nodes, i as int);
                        assert(self->TextNode_0 == *nodes);
                        assert(decreases_to!(*self => self->TextNode_0));
                        assert(decreases_to!(*nodes => nodes[i as int]));
                    }
                    nodes[i].write(writer);
                    i += 1;
                    proof {
                        assert(writer@ =~= old(writer)@ + texts(views, i as nat));
                    }
                }
            },
        }
    }
}

/// Writes attributes as text, one directly after the other.
pub fn attributes_to_string(attributes: &[Attribute]) -> (string: String)
    ensures
        string@ == attributes_text(attributes@),
{
    let mut string = String::new();
    let mut i: usize = 0;
    proof {
        assert(attributes@.take(0) =~= Seq::<Attribute>::empty());
    }
    while i < attributes.len()
        invariant
            i <= attributes.len(),
            string@ == attributes_text(attributes@.take(i as int)),
        decreases attributes.len() - i,
    {
        let ghost before = string@;
        match &attributes[i] {
            Attribute::Id(id) => {
                string.append("id=\"");
                string.append(id.as_str());
                string.append("\"");
            },
            Attribute::Role(role) => {
                string.append("class=\"");
                string.append(role.as_str());
                string.append("\"");
            },
        }
        proof {
            let taken = attributes@.take(i + 1);
            assert(taken.drop_last() =~= attributes@.take(i as int));
            assert(taken.last() == attributes@[i as int]);
            assert(string@ =~= before + attribute_text(attributes@[i as int]));
        }
        i += 1;
    }
    proof {
        assert(attributes@.take(i as int) =~= attributes@);
    }
    string
}

/// A `div` with attributes.
pub fn div_a(attributes: String, children: Html) -> (html: Html)
    ensures
        html == Html::Div(attributes, Box::new(children)),
{
    Html::Div(attributes, Box::new(children))
}

/// The first id among `attributes`.
pub fn find_id_attribute(attributes: &[Attribute]) -> (id: Option<String>)
    ensures
        match id {
            Some(id) => first_id(attributes@) == Some(id@),
            None => first_id(attributes@) is None,
        },
{
    let mut i: usize = 0;
    proof {
        assert(attributes@.skip(0) =~= attributes@);
    }
    while i < attributes.len()
        invariant
            i <= attributes.len(),
            first_id(attributes@) == first_id(attributes@.skip(i as int)),
        decreases attributes.len() - i,
    {
        match &attributes[i] {
            Attribute::Id(id) => {
                return Some(id.clone());
            },
            Attribute::Role(_) => {},
        }
        proof {
            assert(attributes@.skip(i as int).skip(1) =~= attributes@.skip(i + 1));
        }
        i += 1;
    }
    None
}

/// A horizontal rule.
pub fn hr() -> (html: Html)
    ensures
        html == Html::Hr,
{
    Html::Hr
}

/// A `mark`.
pub fn mark(children: Html) -> (html: Html)
    ensures
        html == Html::Mark(Box::new(children)),
{
    Html::Mark(Box::new(children))
}

/// A `p`.
pub fn p(children: Html) -> (html: Html)
    ensures
        html == Html::P(Box::new(children)),
{
    Html::P(Box::new(children))
}

/// A `span` with attributes.
pub fn span_a(attributes: String, children: Html) -> (html: Html)
    ensures
        html == Html::Span(attributes, Box::new(children)),
{
    Html::Span(attributes, Box::new(children))
}

/// The element for highlighted text whose tree is `text`.
pub fn mark_element(text: Html, attributes: &[Attribute]) -> (html: Html)
    ensures
        html@ == mark_html(text@, attributes@),
{
    if attributes.is_empty() {
        mark(text)
    } else {
        let span = span_a(attributes_to_string(attributes), text);
        anchored(span, attributes)
    }
}

/// The inline element `tag` around the text whose tree is `text`.
pub fn tag_element(tag: Tag, text: Html, attributes: &[Attribute]) -> (html: Html)
    ensures
        html@ == tag_html(tag, text@, attributes@),
{
    let element = Html::Tag(tag, attributes_to_string(attributes), Box::new(text));
    anchored(element, attributes)
}

/// The element for a page break.
pub fn page_break_element() -> (html: Html)
    ensures
        html@ == page_break_html(),
{
    proof {
        reveal_with_fuel(view_of, 2);
    }
    div_a(attr("style", "page-break-after: always;"), Html::Empty)
}

/// The element for a paragraph whose text has the tree `text`.
pub fn paragraph_element(text: Html) -> (html: Html)
    ensures
        html@ == paragraph_html(text@),
{
    proof {
        reveal_with_fuel(view_of, 2);
    }
    div_a(attr("class", "paragraph"), p(text))
}

/// `element`, behind an anchor for the first id among `attributes` if there
/// is one.
fn anchored(element: Html, attributes: &[Attribute]) -> (html: Html)
    ensures
        html@ == with_anchor(attributes@, element@),
{
    proof {
        reveal_with_fuel(view_of, 2);
    }
    match find_id_attribute(attributes) {
        Some(id) => Html::Sequence(Box::new(Html::A(id)), Box::new(element)),
        None => element,
    }
}

/// One attribute with its value.
fn attr(name: &str, value: &str) -> (attributes: String)
    ensures
        attributes@ == attr_text(name@, value@),
{
    let mut attributes = String::new();
    attributes.append(name);
    attributes.append("=\"");
    attributes.append(value);
    attributes.append("\"");
    proof {
        assert(attributes@ =~= attr_text(name@, value@));
    }
    attributes
}

/// Writes an element without attributes around `children`.
fn tag(name: &str, children: &Html, writer: &mut String)
    ensures
        final(writer)@ == old(writer)@ + element_text(name@, children@.text()),
    decreases children, 1nat,
{
    writer.append("<");
    writer.append(name);
    writer.append(">");
    children.write(writer);
    writer.append("</");
    writer.append(name);
    writer.append(">");
    proof {
        assert(writer@ =~= old(writer)@ + element_text(name@, children@.text()));
    }
}

/// Writes an element with attributes around `children`.
fn tag_a(name: &str, attributes: &str, children: &Html, writer: &mut String)
    ensures
        final(writer)@ == old(writer)@ + element_a_text(name@, attributes@, children@.text()),
    decreases children, 1nat,
{
    writer.append("<");
    writer.append(name);
    writer.append(" ");
    writer.append(attributes);
    writer.append(">");
    children.write(writer);
    writer.append("</");
    writer.append(name);
    writer.append(">");
    proof {
        assert(writer@ =~= old(writer)@ + element_a_text(name@, attributes@, children@.text()));
    }
}

/// Writes an element with attributes that holds nothing.
fn tag_a_without_child(name: &str, attributes: &str, writer: &mut String)
    ensures
        final(writer)@ == old(writer)@ + element_a_text(name@, attributes@, Seq::empty()),
{
    writer.append("<");
    writer.append(name);
    writer.append(" ");
    writer.append(attributes);
    writer.append(">");
    writer.append("</");
    writer.append(name);
    writer.append(">");
    proof {
        assert(writer@ =~= old(writer)@ + element_a_text(name@, attributes@, Seq::empty()));
    }
}

/// Writes `text` as it stands.
fn write_text(text: &str, writer: &mut String)
    ensures
        final(writer)@ == old(writer)@ + text@,
{
    writer.append(text);
}

} // verus!
