//! Building markup pages as trees of elements and rendering them to text
//! with deterministic indentation.
use vstd::prelude::*;
use vstd::string::StringExecFns;

mod page;
pub use page::Page;
use page::{page_fits, page_html, render_page};

verus! {

/// The closed set of element kinds; each has one fixed tag name.
#[derive(Clone, Copy, Debug, PartialEq, Eq, Structural)]
pub enum Tag {
    Div,
    Paragraph,
    Header1,
    Header2,
    Header3,
    Header4,
    UnorderedList,
    ListElement,
    Link,
    Nav,
    Image,
    Code,
}

/// The tag name written for each element kind.
pub open spec fn tag_name(tag: Tag) -> Seq<char> {
    match tag {
        Tag::Div => "div"@,
        Tag::Header1 => "h1"@,
        Tag::Header2 => "h2"@,
        Tag::Header3 => "h3"@,
        Tag::Header4 => "h4"@,
        Tag::Paragraph => "p"@,
        Tag::ListElement => "li"@,
        Tag::UnorderedList => "ul"@,
        Tag::Link => "a"@,
        Tag::Image => "img"@,
        Tag::Nav => "nav"@,
        Tag::Code => "code"@,
    }
}

impl Tag {
    /// The header kind of a level from one to four; none for other levels.
    pub fn header(level: u8) -> (r: Option<Tag>)
        ensures
            r == header_tag(level),
    {
        match level {
            1 => Some(Tag::Header1),
            2 => Some(Tag::Header2),
            3 => Some(Tag::Header3),
            4 => Some(Tag::Header4),
            _ => None,
        }
    }

    pub fn name(&self) -> (r: &'static str)
        ensures
            r@ == tag_name(*self),
    {
        match self {
            Tag::Div => "div",
            Tag::Header1 => "h1",
            Tag::Header2 => "h2",
            Tag::Header3 => "h3",
            Tag::Header4 => "h4",
            Tag::Paragraph => "p",
            Tag::ListElement => "li",
            Tag::UnorderedList => "ul",
            Tag::Link => "a",
            Tag::Image => "img",
            Tag::Nav => "nav",
            Tag::Code => "code",
        }
    }
}

/// Indentation for a nesting depth: two spaces per level.
pub open spec fn indent(depth: nat) -> Seq<char>
    decreases depth,
{
    if depth == 0 {
        Seq::empty()
    } else {
        indent((depth - 1) as nat) + "  "@
    }
}

/// The indentation of `depth` levels is exactly `2 * depth` spaces.
pub proof fn lemma_indent_spaces(depth: nat)
    ensures
        indent(depth).len() == 2 * depth,
        forall|i: int| 0 <= i < 2 * depth ==> #[trigger] indent(depth)[i] == ' ',
    decreases depth,
{
    reveal_strlit("  ");
    if depth > 0 {
        lemma_indent_spaces((depth - 1) as nat);
    }
}

fn indent_string(depth: usize) -> (r: String)
    ensures
        r@ == indent(depth as nat),
{
    let mut r = String::new();
    let mut i: usize = 0;
    while i < depth
        invariant
            i <= depth,
            r@ == indent(i as nat),
        decreases depth - i,
    {
        r.append("  ");
        i = i + 1;
    }
    r
}

/// A child of an element or of a page body: literal text, a nested element,
/// or a nested page.
pub enum Child {
    Text(String),
    Element(Element),
    Page(Page),
}

/// A markup element: a tag kind, attributes in insertion order (duplicates
/// allowed), and children in render order.
pub struct Element {
    attributes: Vec<(String, String)>,
    children: Vec<Child>,
    tag: Tag,
}

/// The text `name="value"` of one attribute.
pub open spec fn attr_fragment(attr: (Seq<char>, Seq<char>)) -> Seq<char> {
    attr.0 + "=\""@ + attr.1 + "\""@
}

/// The attribute text of an element rendered at `depth`: nothing for no
/// attributes; a space and the one fragment for one; for several, a line
/// break and then each fragment after `depth + 1` levels of indentation, with
/// nothing between consecutive fragments.
pub open spec fn attrs_html(attrs: Seq<(Seq<char>, Seq<char>)>, depth: nat) -> Seq<char> {
    if attrs.len() == 0 {
        Seq::empty()
    } else if attrs.len() == 1 {
        " "@ + attr_fragment(attrs[0])
    } else {
        "\n"@ + attr_lines(attrs, depth + 1)
    }
}

/// Each attribute fragment after `depth` levels of indentation, run together.
pub open spec fn attr_lines(attrs: Seq<(Seq<char>, Seq<char>)>, depth: nat) -> Seq<char>
    decreases attrs.len(),
{
    if attrs.len() == 0 {
        Seq::empty()
    } else {
        attr_lines(attrs.drop_last(), depth) + indent(depth) + attr_fragment(attrs.last())
    }
}

impl Element {
    pub closed spec fn tag(&self) -> Tag {
        self.tag
    }

    /// The attributes as (name, value) pairs of character sequences.
    pub closed spec fn attrs(&self) -> Seq<(Seq<char>, Seq<char>)> {
        self.attributes@.map_values(|a: (String, String)| (a.0@, a.1@))
    }

    pub closed spec fn kids(&self) -> Seq<Child> {
        self.children@
    }
}

/// The text of a child rendered at `depth`.
pub open spec fn child_html(c: Child, depth: nat) -> Seq<char>
    decreases c, 0nat,
{
    match c {
        Child::Text(t) => indent(depth) + t@,
        Child::Element(e) => element_html(e, depth),
        Child::Page(p) => page_html(p),
    }
}

/// The first `n` children of `e` rendered at `depth`, each followed by a line break.
pub open spec fn children_html(e: Element, n: nat, depth: nat) -> Seq<char>
    decreases e, n,
{
    if n == 0 || n > e.kids().len() {
        Seq::empty()
    } else {
        children_html(e, (n - 1) as nat, depth) + child_html(e.kids()[n - 1], depth) + "\n"@
    }
}

/// The text of an element rendered at `depth`: the opening tag with its
/// attributes, the children one level deeper, and the closing tag.
pub open spec fn element_html(e: Element, depth: nat) -> Seq<char>
    decreases e, e.kids().len() + 1,
{
    indent(depth) + "<"@ + tag_name(e.tag()) + attrs_html(e.attrs(), depth) + ">\n"@
        + children_html(e, e.kids().len(), depth + 1) + indent(depth) + "</"@ + tag_name(e.tag())
        + ">"@
}

/// Whether rendering `c` at `depth` keeps every depth it reaches within
/// `usize`: an element needs one more level for its children and its
/// attributes; a page puts its children at the first level whatever `depth` is.
pub open spec fn child_fits(c: Child, depth: nat) -> bool
    decreases c, 0nat,
{
    match c {
        Child::Text(_) => true,
        Child::Element(e) => element_fits(e, depth),
        Child::Page(p) => page_fits(p),
    }
}

/// The first `n` children of `e` fit at `depth`.
pub open spec fn children_fit(e: Element, n: nat, depth: nat) -> bool
    decreases e, n,
{
    if n == 0 || n > e.kids().len() {
        true
    } else {
        children_fit(e, (n - 1) as nat, depth) && child_fits(e.kids()[n - 1], depth)
    }
}

pub open spec fn element_fits(e: Element, depth: nat) -> bool
    decreases e, e.kids().len() + 1,
{
    depth < usize::MAX && children_fit(e, e.kids().len(), depth + 1)
}

proof fn lemma_children_fit(e: Element, n: nat, depth: nat, i: int)
    requires
        0 <= i < n <= e.children@.len(),
        children_fit(e, n, depth),
    ensures
        child_fits(e.children[i], depth),
    decreases n,
{
    if i < n - 1 {
        lemma_children_fit(e, (n - 1) as nat, depth, i);
    }
}

fn render_attrs(attributes: &Vec<(String, String)>, depth: usize) -> (r: String)
    requires
        depth < usize::MAX,
    ensures
        r@ == attrs_html(attributes@.map_values(|a: (String, String)| (a.0@, a.1@)), depth as nat),
{
    let ghost attrs = attributes@.map_values(|a: (String, String)| (a.0@, a.1@));
    let mut r = String::new();
    if attributes.len() > 1 {
        r.append("\n");
        let inner = indent_string(depth + 1);
        let mut i: usize = 0;
        while i < attributes.len()
            invariant
                i <= attributes@.len(),
                attrs == attributes@.map_values(|a: (String, String)| (a.0@, a.1@)),
                inner@ == indent(depth as nat + 1),
                r@ == "\n"@ + attr_lines(attrs.subrange(0, i as int), depth as nat + 1),
            decreases attributes@.len() - i,
        {
            let ghost before = r@;
            r.append(inner.as_str());
            r.append(attributes[i].0.as_str());
            r.append("=\"");
            r.append(attributes[i].1.as_str());
            r.append("\"");
            proof {
                let sub = attrs.subrange(0, i + 1);
                assert(sub.drop_last() =~= attrs.subrange(0, i as int));
                assert(sub.last() == attrs[i as int]);
                assert(r@ =~= before + (indent(depth as nat + 1) + attr_fragment(attrs[i as int])));
            }
            i = i + 1;
        }
        assert(attrs.subrange(0, attrs.len() as int) =~= attrs);
    } else if attributes.len() == 1 {
        r.append(" ");
        r.append(attributes[0].0.as_str());
        r.append("=\"");
        r.append(attributes[0].1.as_str());
        r.append("\"");
        assert(r@ =~= " "@ + attr_fragment(attrs[0]));
    }
    r
}

pub(crate) fn render_child(c: &Child, depth: usize) -> (r: String)
    requires
        child_fits(*c, depth as nat),
    ensures
        r@ == child_html(*c, depth as nat),
    decreases c,
{
    match c {
        Child::Text(t) => {
            let mut r = indent_string(depth);
            r.append(t.as_str());
            r
        },
        Child::Element(e) => render_element(e, depth),
        Child::Page(p) => render_page(p),
    }
}

fn render_element(e: &Element, depth: usize) -> (r: String)
    requires
        element_fits(*e, depth as nat),
    ensures
        r@ == element_html(*e, depth as nat),
    decreases e,
{
    let tabs = indent_string(depth);
    let name = e.tag.name();
    let mut children = String::new();
    let mut i: usize = 0;
    while i < e.children.len()
        invariant
            i <= e.children@.len(),
            element_fits(*e, depth as nat),
            children@ == children_html(*e, i as nat, depth as nat + 1),
        decreases e.children@.len() - i,
    {
        proof {
            lemma_children_fit(*e, e.children@.len() as nat, depth as nat + 1, i as int);
        }
        let part = render_child(&e.children[i], depth + 1);
        children.append(part.as_str());
        children.append("\n");
        i = i + 1;
    }
    let attributes = render_attrs(&e.attributes, depth);
    let mut r = tabs.clone();
    r.append("<");
    r.append(name);
    r.append(attributes.as_str());
    r.append(">\n");
    r.append(children.as_str());
    r.append(tabs.as_str());
    r.append("</");
    r.append(name);
    r.append(">");
    r
}

/// Anything that renders to text at an indentation depth.
pub trait SimpleHtml {
    /// The text rendered at `depth`.
    spec fn html(&self, depth: nat) -> Seq<char>;

    /// Whether `depth` plus the nesting below it stays within `usize`.
    spec fn fits_depth(&self, depth: nat) -> bool;

    fn to_html(&self, depth: usize) -> (r: String)
        requires
            self.fits_depth(depth as nat),
        ensures
            r@ == self.html(depth as nat),
    ;
}

/// Anything that can be attached as a child.
pub trait IntoChild: Sized {
    /// `c` is what this value becomes once attached.
    spec fn becomes(&self, c: Child) -> bool;

    fn into_child(self) -> (c: Child)
        ensures
            self.becomes(c),
    ;
}

/// `c` is the text `text`.
pub open spec fn is_text(c: Child, text: Seq<char>) -> bool {
    match c {
        Child::Text(t) => t@ == text,
        _ => false,
    }
}

/// `c` is an element of kind `tag` with no attributes and the single text
/// child `text`.
pub open spec fn wraps_text(c: Child, tag: Tag, text: Seq<char>) -> bool {
    match c {
        Child::Element(e) => e.tag() == tag && e.attrs().len() == 0 && e.kids().len() == 1
            && is_text(e.kids()[0], text),
        _ => false,
    }
}

/// `c` is an element of kind `tag` with the single attribute `name="value"`
/// and no children.
pub open spec fn bare_with_attr(c: Child, tag: Tag, name: Seq<char>, value: Seq<char>) -> bool {
    match c {
        Child::Element(e) => e.tag() == tag && e.attrs() == seq![(name, value)] && e.kids().len()
            == 0,
        _ => false,
    }
}

/// `after` is `before` with one more child at the end.
pub open spec fn appended(before: Seq<Child>, after: Seq<Child>) -> bool {
    after.len() == before.len() + 1 && after.drop_last() == before
}

/// The header kind of each level from one to four.
pub open spec fn header_tag(level: u8) -> Option<Tag> {
    if level == 1 {
        Some(Tag::Header1)
    } else if level == 2 {
        Some(Tag::Header2)
    } else if level == 3 {
        Some(Tag::Header3)
    } else if level == 4 {
        Some(Tag::Header4)
    } else {
        None
    }
}

impl IntoChild for Child {
    open spec fn becomes(&self, c: Child) -> bool {
        c == *self
    }

    fn into_child(self) -> (c: Child) {
        self
    }
}

impl IntoChild for Element {
    open spec fn becomes(&self, c: Child) -> bool {
        c == Child::Element(*self)
    }

    fn into_child(self) -> (c: Child) {
        Child::Element(self)
    }
}

impl IntoChild for String {
    open spec fn becomes(&self, c: Child) -> bool {
        is_text(c, self@)
    }

    fn into_child(self) -> (c: Child) {
        Child::Text(self)
    }
}

impl<'a> IntoChild for &'a str {
    open spec fn becomes(&self, c: Child) -> bool {
        is_text(c, self@)
    }

    fn into_child(self) -> (c: Child) {
        Child::Text(self.to_owned())
    }
}

impl Element {
    pub fn new(tag: Tag) -> (r: Self)
        ensures
            r.tag() == tag,
            r.attrs() == Seq::<(Seq<char>, Seq<char>)>::empty(),
            r.kids() == Seq::<Child>::empty(),
    {
        let r = Element { tag, attributes: Vec::new(), children: Vec::new() };
        assert(r.attrs() =~= Seq::<(Seq<char>, Seq<char>)>::empty());
        r
    }

    pub fn with_child<T: IntoChild>(self, child: T) -> (r: Self)
        ensures
            r.tag() == self.tag(),
            r.attrs() == self.attrs(),
            appended(self.kids(), r.kids()),
            child.becomes(r.kids().last()),
    {
        let mut r = self;
        r.add_child(child);
        r
    }

    pub fn add_child<T: IntoChild>(&mut self, child: T)
        ensures
            final(self).tag() == old(self).tag(),
            final(self).attrs() == old(self).attrs(),
            appended(old(self).kids(), final(self).kids()),
            child.becomes(final(self).kids().last()),
    {
        let c = child.into_child();
        self.children.push(c);
        assert(self.children@.drop_last() =~= old(self).children@);
    }

    pub fn with_attribute(self, attribute: &str, value: &str) -> (r: Self)
        ensures
            r.tag() == self.tag(),
            r.attrs() == self.attrs().push((attribute@, value@)),
            r.kids() == self.kids(),
    {
        let mut r = self;
        r.add_attribute(attribute, value);
        r
    }

    pub fn add_attribute(&mut self, attribute: &str, value: &str)
        ensures
            final(self).tag() == old(self).tag(),
            final(self).attrs() == old(self).attrs().push((attribute@, value@)),
            final(self).kids() == old(self).kids(),
    {
        self.attributes.push((attribute.to_owned(), value.to_owned()));
        assert(self.attrs() =~= old(self).attrs().push((attribute@, value@)));
    }

    pub fn with_header(self, level: u8, text: &str) -> (r: Self)
        ensures
            r.tag() == self.tag(),
            r.attrs() == self.attrs(),
            match header_tag(level) {
                Some(h) => appended(self.kids(), r.kids()) && wraps_text(r.kids().last(), h, text@),
                None => r.kids() == self.kids(),
            },
    {
        let mut r = self;
        r.add_header(level, text);
        r
    }

    pub fn add_header(&mut self, level: u8, text: &str)
        ensures
            final(self).tag() == old(self).tag(),
            final(self).attrs() == old(self).attrs(),
            match header_tag(level) {
                Some(h) => appended(old(self).kids(), final(self).kids()) && wraps_text(
                    final(self).kids().last(),
                    h,
                    text@,
                ),
                None => final(self).kids() == old(self).kids(),
            },
    {
        if let Some(tag) = Tag::header(level) {
            self.add_child(Element::new(tag).with_child(text));
        }
    }

    pub fn with_paragraph(self, text: &str) -> (r: Self)
        ensures
            r.tag() == self.tag(),
            r.attrs() == self.attrs(),
            appended(self.kids(), r.kids()),
            wraps_text(r.kids().last(), Tag::Paragraph, text@),
    {
        let mut r = self;
        r.add_paragraph(text);
        r
    }

    pub fn add_paragraph(&mut self, text: &str)
        ensures
            final(self).tag() == old(self).tag(),
            final(self).attrs() == old(self).attrs(),
            appended(old(self).kids(), final(self).kids()),
            wraps_text(final(self).kids().last(), Tag::Paragraph, text@),
    {
        self.add_child(Element::new(Tag::Paragraph).with_child(text));
    }

    /// Appends a link element whose `href` is `link`.
    pub fn with_link(self, link: &str) -> (r: Self)
        ensures
            r.tag() == self.tag(),
            r.attrs() == self.attrs(),
            appended(self.kids(), r.kids()),
            bare_with_attr(r.kids().last(), Tag::Link, "href"@, link@),
    {
        let mut r = self;
        r.add_link(link);
        r
    }

    pub fn add_link(&mut self, link: &str)
        ensures
            final(self).tag() == old(self).tag(),
            final(self).attrs() == old(self).attrs(),
            appended(old(self).kids(), final(self).kids()),
            bare_with_attr(final(self).kids().last(), Tag::Link, "href"@, link@),
    {
        self.add_child(Element::new(Tag::Link).with_attribute("href", link));
    }

    /// Appends an element whose `src` is `link`; like the link, it is of the
    /// link kind.
    pub fn with_image(self, link: &str) -> (r: Self)
        ensures
            r.tag() == self.tag(),
            r.attrs() == self.attrs(),
            appended(self.kids(), r.kids()),
            bare_with_attr(r.kids().last(), Tag::Link, "src"@, link@),
    {
        let mut r = self;
        r.add_image(link);
        r
    }

    pub fn add_image(&mut self, link: &str)
        ensures
            final(self).tag() == old(self).tag(),
            final(self).attrs() == old(self).attrs(),
            appended(old(self).kids(), final(self).kids()),
            bare_with_attr(final(self).kids().last(), Tag::Link, "src"@, link@),
    {
        self.add_child(Element::new(Tag::Link).with_attribute("src", link));
    }
}

impl SimpleHtml for Element {
    open spec fn html(&self, depth: nat) -> Seq<char> {
        element_html(*self, depth)
    }

    open spec fn fits_depth(&self, depth: nat) -> bool {
        element_fits(*self, depth)
    }

    fn to_html(&self, depth: usize) -> (r: String) {
        render_element(self, depth)
    }
}

impl SimpleHtml for Child {
    open spec fn html(&self, depth: nat) -> Seq<char> {
        child_html(*self, depth)
    }

    open spec fn fits_depth(&self, depth: nat) -> bool {
        child_fits(*self, depth)
    }

    fn to_html(&self, depth: usize) -> (r: String) {
        render_child(self, depth)
    }
}

impl SimpleHtml for String {
    open spec fn html(&self, depth: nat) -> Seq<char> {
        indent(depth) + self@
    }

    open spec fn fits_depth(&self, depth: nat) -> bool {
        true
    }

    fn to_html(&self, depth: usize) -> (r: String) {
        let mut r = indent_string(depth);
        r.append(self.as_str());
        r
    }
}

impl<'a> SimpleHtml for &'a str {
    open spec fn html(&self, depth: nat) -> Seq<char> {
        indent(depth) + self@
    }

    open spec fn fits_depth(&self, depth: nat) -> bool {
        true
    }

    fn to_html(&self, depth: usize) -> (r: String) {
        let mut r = indent_string(depth);
        r.append(*self);
        r
    }
}

/// An element rendered at `depth` starts with its indentation of exactly
/// `2 * depth` spaces and then `<`, and ends with a line of its own: the same
/// indentation followed by the closing tag.
pub proof fn lemma_tag_lines_indented(e: Element, depth: nat)
    ensures
        ({
            let h = element_html(e, depth);
            let close = "</"@ + tag_name(e.tag()) + ">"@;
            let start = h.len() - close.len() - 2 * depth - 1;
            &&& indent(depth).len() == 2 * depth
            &&& forall|i: int| 0 <= i < 2 * depth ==> #[trigger] indent(depth)[i] == ' '
            &&& h.len() > 2 * depth
            &&& h.subrange(0, 2 * depth as int) == indent(depth)
            &&& h[2 * depth as int] == '<'
            &&& start >= 0
            &&& h.subrange(start, h.len() as int) == "\n"@ + indent(depth) + close
        }),
{
    reveal_strlit("<");
    reveal_strlit(">\n");
    reveal_strlit("\n");
    lemma_indent_spaces(depth);
    let n = e.children@.len();
    let name = tag_name(e.tag);
    let pre = indent(depth) + "<"@ + name + attrs_html(e.attrs(), depth) + ">\n"@;
    let kids = children_html(e, n, depth + 1);
    let body = pre + kids;
    let close = "</"@ + name + ">"@;
    let h = element_html(e, depth);
    assert(pre.last() == '\n');
    if n > 0 {
        assert(kids.last() == '\n');
    }
    assert(body.last() == '\n');
    assert(h =~= body + (indent(depth) + close));
    assert(h.subrange(0, 2 * depth as int) =~= indent(depth));
    assert(h[2 * depth as int] == pre[2 * depth as int]);
    let start = body.len() - 1;
    assert(start == h.len() - close.len() - 2 * depth - 1);
    assert(h.subrange(start, h.len() as int) =~= "\n"@ + indent(depth) + close);
}

/// The opening tag follows the number of attributes: with none it is
/// `<tag>`; with one, `<tag name="value">`; with several, the tag name is
/// followed by a line break and then each fragment at one more level of
/// indentation, with nothing between consecutive fragments.
pub proof fn lemma_attribute_forms(e: Element, depth: nat)
    ensures
        e.attrs().len() == 0 ==> (indent(depth) + "<"@ + tag_name(e.tag()) + ">\n"@).is_prefix_of(
            element_html(e, depth),
        ),
        e.attrs().len() == 1 ==> (indent(depth) + "<"@ + tag_name(e.tag()) + " "@ + e.attrs()[0].0
            + "=\""@ + e.attrs()[0].1 + "\""@ + ">\n"@).is_prefix_of(element_html(e, depth)),
        e.attrs().len() >= 2 ==> (indent(depth) + "<"@ + tag_name(e.tag()) + "\n"@ + attr_lines(
            e.attrs(),
            depth + 1,
        ) + ">\n"@).is_prefix_of(element_html(e, depth)),
{
    let name = tag_name(e.tag);
    let attrs = e.attrs();
    let open = indent(depth) + "<"@ + name + attrs_html(attrs, depth) + ">\n"@;
    let h = element_html(e, depth);
    assert(h.subrange(0, open.len() as int) =~= open);
    if attrs.len() == 0 {
        assert(open =~= indent(depth) + "<"@ + name + ">\n"@);
    } else if attrs.len() == 1 {
        assert(open =~= indent(depth) + "<"@ + name + " "@ + attrs[0].0 + "=\""@ + attrs[0].1
            + "\""@ + ">\n"@);
    } else {
        assert(open =~= indent(depth) + "<"@ + name + "\n"@ + attr_lines(attrs, depth + 1)
            + ">\n"@);
    }
}

/// `s` holds no line break.
pub open spec fn single_line(s: Seq<char>) -> bool {
    forall|i: int| 0 <= i < s.len() ==> #[trigger] s[i] != '\n'
}

/// `i` is where a line of `h` starts: at the front, or just after a line break.
pub open spec fn line_start(h: Seq<char>, i: int) -> bool {
    0 <= i < h.len() && (i == 0 || h[i - 1] == '\n')
}

/// Every line of `h` starts with the indentation of `depth` levels.
pub open spec fn lines_indented(h: Seq<char>, depth: nat) -> bool {
    forall|i: int|
        #[trigger] line_start(h, i) ==> i + 2 * (depth as int) <= h.len() && h.subrange(i, i + 2 * (depth as int))
            == indent(depth)
}

/// A child with no nested page and no line break in any text, attribute
/// name or attribute value.
pub open spec fn plain_child(c: Child) -> bool
    decreases c, 0nat,
{
    match c {
        Child::Text(t) => single_line(t@),
        Child::Element(e) => plain_element(e),
        Child::Page(_) => false,
    }
}

pub open spec fn plain_children(e: Element, n: nat) -> bool
    decreases e, n,
{
    if n == 0 || n > e.kids().len() {
        true
    } else {
        plain_children(e, (n - 1) as nat) && plain_child(e.kids()[n - 1])
    }
}

pub open spec fn plain_element(e: Element) -> bool
    decreases e, e.kids().len() + 1,
{
    &&& forall|i: int|
        0 <= i < e.attrs().len() ==> single_line(#[trigger] e.attrs()[i].0) && single_line(
            e.attrs()[i].1,
        )
    &&& plain_children(e, e.kids().len())
}

proof fn lemma_single_line_concat(a: Seq<char>, b: Seq<char>)
    requires
        single_line(a),
        single_line(b),
    ensures
        single_line(a + b),
{
    assert forall|i: int| 0 <= i < (a + b).len() implies #[trigger] (a + b)[i] != '\n' by {
        if i >= a.len() {
            assert((a + b)[i] == b[i - a.len()]);
        }
    }
}

proof fn lemma_indent_single_line(depth: nat)
    ensures
        single_line(indent(depth)),
        indent(depth + 1) == indent(depth) + "  "@,
        indent(depth + 1).subrange(0, 2 * (depth as int)) == indent(depth),
{
    lemma_indent_spaces(depth);
    assert(indent(depth + 1).subrange(0, 2 * (depth as int)) =~= indent(depth));
}

proof fn lemma_tag_name_single_line(tag: Tag)
    ensures
        single_line(tag_name(tag)),
{
    reveal_strlit("div");
    reveal_strlit("h1");
    reveal_strlit("h2");
    reveal_strlit("h3");
    reveal_strlit("h4");
    reveal_strlit("p");
    reveal_strlit("li");
    reveal_strlit("ul");
    reveal_strlit("a");
    reveal_strlit("img");
    reveal_strlit("nav");
    reveal_strlit("code");
}

/// A single line that begins with the indentation of `depth` levels.
proof fn lemma_indented_single(y: Seq<char>, depth: nat)
    requires
        single_line(y),
        2 * (depth as int) <= y.len(),
        y.subrange(0, 2 * (depth as int)) == indent(depth),
    ensures
        lines_indented(y, depth),
{
    assert forall|i: int| #[trigger] line_start(y, i) implies i + 2 * (depth as int) <= y.len()
        && y.subrange(i, i + 2 * (depth as int)) == indent(depth) by {
        if i > 0 {
            assert(y[i - 1] != '\n');
        }
    }
}

proof fn lemma_indented_concat(a: Seq<char>, b: Seq<char>, depth: nat)
    requires
        lines_indented(a, depth),
        lines_indented(b, depth),
        a.len() == 0 || a.last() == '\n',
    ensures
        lines_indented(a + b, depth),
{
    let h = a + b;
    assert forall|i: int| #[trigger] line_start(h, i) implies i + 2 * (depth as int) <= h.len()
        && h.subrange(i, i + 2 * (depth as int)) == indent(depth) by {
        if i < a.len() {
            if i > 0 {
                assert(h[i - 1] == a[i - 1]);
            }
            assert(line_start(a, i));
            assert(h.subrange(i, i + 2 * (depth as int)) =~= a.subrange(i, i + 2 * (depth as int)));
        } else {
            let j = i - a.len();
            if j > 0 {
                assert(h[i - 1] == b[j - 1]);
            }
            assert(line_start(b, j));
            assert(h.subrange(i, i + 2 * (depth as int)) =~= b.subrange(j, j + 2 * (depth as int)));
        }
    }
}

/// Text without line breaks continues the last line of `x`.
proof fn lemma_indented_extend(x: Seq<char>, y: Seq<char>, depth: nat)
    requires
        lines_indented(x, depth),
        x.len() > 0,
        x.last() != '\n',
        single_line(y),
    ensures
        lines_indented(x + y, depth),
{
    let h = x + y;
    assert forall|i: int| #[trigger] line_start(h, i) implies i + 2 * (depth as int) <= h.len()
        && h.subrange(i, i + 2 * (depth as int)) == indent(depth) by {
        if i < x.len() {
            if i > 0 {
                assert(h[i - 1] == x[i - 1]);
            }
            assert(line_start(x, i));
            assert(h.subrange(i, i + 2 * (depth as int)) =~= x.subrange(i, i + 2 * (depth as int)));
        } else if i == x.len() {
            assert(h[i - 1] == x.last());
        } else {
            assert(h[i - 1] == y[i - 1 - x.len()]);
        }
    }
}

proof fn lemma_indented_newline(x: Seq<char>, depth: nat)
    requires
        lines_indented(x, depth),
        x.len() > 0,
        x.last() != '\n',
    ensures
        lines_indented(x + "\n"@, depth),
        (x + "\n"@).last() == '\n',
{
    reveal_strlit("\n");
    let h = x + "\n"@;
    assert forall|i: int| #[trigger] line_start(h, i) implies i + 2 * (depth as int) <= h.len()
        && h.subrange(i, i + 2 * (depth as int)) == indent(depth) by {
        if i < x.len() {
            if i > 0 {
                assert(h[i - 1] == x[i - 1]);
            }
            assert(line_start(x, i));
            assert(h.subrange(i, i + 2 * (depth as int)) =~= x.subrange(i, i + 2 * (depth as int)));
        } else {
            assert(h[i - 1] == x.last());
        }
    }
}

proof fn lemma_indented_weaken(x: Seq<char>, depth: nat)
    requires
        lines_indented(x, depth + 1),
    ensures
        lines_indented(x, depth),
{
    lemma_indent_single_line(depth);
    assert forall|i: int| #[trigger] line_start(x, i) implies i + 2 * (depth as int) <= x.len()
        && x.subrange(i, i + 2 * (depth as int)) == indent(depth) by {
        assert(x.subrange(i, i + 2 * (depth as int)) =~= x.subrange(i, i + 2 * (depth as int + 1)).subrange(
            0,
            2 * (depth as int),
        ));
    }
}

proof fn lemma_attr_lines_single(attrs: Seq<(Seq<char>, Seq<char>)>, depth: nat)
    requires
        forall|i: int|
            0 <= i < attrs.len() ==> single_line(#[trigger] attrs[i].0) && single_line(attrs[i].1),
    ensures
        single_line(attr_lines(attrs, depth)),
        attrs.len() > 0 ==> 2 * (depth as int) <= attr_lines(attrs, depth).len() && attr_lines(
            attrs,
            depth,
        ).subrange(0, 2 * (depth as int)) == indent(depth),
    decreases attrs.len(),
{
    reveal_strlit("=\"");
    reveal_strlit("\"");
    lemma_indent_spaces(depth);
    lemma_indent_single_line(depth);
    if attrs.len() > 0 {
        let last = attrs.last();
        assert(single_line(last.0) && single_line(last.1)) by {
            assert(attrs[attrs.len() - 1] == last);
        }
        lemma_attr_lines_single(attrs.drop_last(), depth);
        lemma_single_line_concat(last.0, "=\""@);
        lemma_single_line_concat(last.0 + "=\""@, last.1);
        lemma_single_line_concat(last.0 + "=\""@ + last.1, "\""@);
        lemma_single_line_concat(attr_lines(attrs.drop_last(), depth), indent(depth));
        lemma_single_line_concat(attr_lines(attrs.drop_last(), depth) + indent(depth), attr_fragment(last));
        let rest = attr_lines(attrs.drop_last(), depth);
        let whole = attr_lines(attrs, depth);
        if attrs.len() == 1 {
            assert(rest.len() == 0);
            assert(whole.subrange(0, 2 * (depth as int)) =~= indent(depth));
        } else {
            assert(whole.subrange(0, 2 * (depth as int)) =~= rest.subrange(0, 2 * (depth as int)));
        }
    }
}

proof fn lemma_children_lines(e: Element, n: nat, depth: nat)
    requires
        n <= e.kids().len(),
        plain_children(e, n),
    ensures
        lines_indented(children_html(e, n, depth + 1), depth),
        children_html(e, n, depth + 1).len() == 0 || children_html(e, n, depth + 1).last() == '\n',
    decreases e, n,
{
    reveal_strlit("\n");
    reveal_strlit(">");
    if n > 0 {
        lemma_children_lines(e, (n - 1) as nat, depth);
        let c = e.kids()[n - 1];
        let x = child_html(c, depth + 1);
        assert(plain_child(c));
        match c {
            Child::Text(t) => {
                lemma_indent_spaces(depth + 1);
                lemma_indent_single_line(depth);
                lemma_indent_single_line(depth + 1);
                lemma_single_line_concat(indent(depth + 1), t@);
                assert(x.subrange(0, 2 * (depth as int)) =~= indent(depth + 1).subrange(0, 2 * (depth as int)));
                lemma_indented_single(x, depth);
                assert(x[x.len() - 1] != '\n');
            },
            Child::Element(ce) => {
                lemma_every_line_indented(ce, depth + 1);
                lemma_indented_weaken(x, depth);
                assert(x.last() == '>');
            },
            Child::Page(_) => {},
        }
        lemma_indented_newline(x, depth);
        lemma_indented_concat(children_html(e, (n - 1) as nat, depth + 1), x + "\n"@, depth);
        assert(children_html(e, n, depth + 1) =~= children_html(e, (n - 1) as nat, depth + 1) + (x
            + "\n"@));
    }
}

/// When no page is nested in `e` and no text, attribute name or attribute
/// value in it holds a line break, every line of `e` rendered at `depth`
/// starts with the indentation of `depth` levels, that is `2 * depth` spaces.
pub proof fn lemma_every_line_indented(e: Element, depth: nat)
    requires
        plain_element(e),
    ensures
        lines_indented(element_html(e, depth), depth),
    decreases e, e.kids().len() + 1,
{
    reveal_strlit("<");
    reveal_strlit(">");
    reveal_strlit(">\n");
    reveal_strlit("</");
    reveal_strlit(" ");
    reveal_strlit("\n");
    reveal_strlit("=\"");
    reveal_strlit("\"");
    lemma_indent_spaces(depth);
    lemma_indent_single_line(depth);
    lemma_tag_name_single_line(e.tag());
    let name = tag_name(e.tag());
    let attrs = e.attrs();
    let a = attrs_html(attrs, depth);
    let kids = children_html(e, e.kids().len(), depth + 1);
    let open = indent(depth) + "<"@ + name + a + ">\n"@;
    lemma_single_line_concat("<"@, name);
    if attrs.len() <= 1 {
        if attrs.len() == 1 {
            assert(single_line(attrs[0].0) && single_line(attrs[0].1));
            lemma_single_line_concat(" "@, attrs[0].0);
            lemma_single_line_concat(" "@ + attrs[0].0, "=\""@);
            lemma_single_line_concat(" "@ + attrs[0].0 + "=\""@, attrs[0].1);
            lemma_single_line_concat(" "@ + attrs[0].0 + "=\""@ + attrs[0].1, "\""@);
            assert(a =~= " "@ + attrs[0].0 + "=\""@ + attrs[0].1 + "\""@);
        }
        lemma_single_line_concat("<"@ + name, a);
        lemma_single_line_concat("<"@ + name + a, ">"@);
        let y = "<"@ + name + a + ">"@;
        lemma_single_line_concat(indent(depth), y);
        let first = indent(depth) + y;
        assert(first.subrange(0, 2 * (depth as int)) =~= indent(depth));
        lemma_indented_single(first, depth);
        assert(first.last() == '>');
        lemma_indented_newline(first, depth);
        assert(open =~= first + "\n"@);
    } else {
        let x1 = indent(depth) + ("<"@ + name);
        lemma_single_line_concat(indent(depth), "<"@ + name);
        assert(x1.subrange(0, 2 * (depth as int)) =~= indent(depth));
        lemma_indented_single(x1, depth);
        assert(x1.last() == x1[x1.len() - 1]);
        lemma_indented_newline(x1, depth);
        let al = attr_lines(attrs, depth + 1);
        lemma_attr_lines_single(attrs, depth + 1);
        lemma_single_line_concat(al, ">"@);
        let y2 = al + ">"@;
        assert(y2.subrange(0, 2 * (depth as int)) =~= al.subrange(0, 2 * (depth as int + 1)).subrange(
            0,
            2 * (depth as int),
        ));
        lemma_indented_single(y2, depth);
        lemma_indented_concat(x1 + "\n"@, y2, depth);
        assert((x1 + "\n"@ + y2).last() == '>');
        lemma_indented_newline(x1 + "\n"@ + y2, depth);
        assert(open =~= x1 + "\n"@ + y2 + "\n"@);
    }
    lemma_children_lines(e, e.kids().len(), depth);
    lemma_indented_concat(open, kids, depth);
    let close = indent(depth) + ("</"@ + name + ">"@);
    lemma_single_line_concat("</"@, name);
    lemma_single_line_concat("</"@ + name, ">"@);
    lemma_single_line_concat(indent(depth), "</"@ + name + ">"@);
    assert(close.subrange(0, 2 * (depth as int)) =~= indent(depth));
    lemma_indented_single(close, depth);
    if kids.len() == 0 {
        assert((open + kids).last() == open.last());
    } else {
        assert((open + kids).last() == kids.last());
    }
    lemma_indented_concat(open + kids, close, depth);
    assert(element_html(e, depth) =~= open + kids + close);
}

/// `h` with two spaces added after each line break.
pub open spec fn shift_lines(h: Seq<char>) -> Seq<char>
    decreases h.len(),
{
    if h.len() == 0 {
        Seq::empty()
    } else if h.last() == '\n' {
        shift_lines(h.drop_last()) + "\n  "@
    } else {
        shift_lines(h.drop_last()).push(h.last())
    }
}

/// A child in which no element has two or more attributes.
pub open spec fn few_attrs_child(c: Child) -> bool
    decreases c, 0nat,
{
    match c {
        Child::Text(_) => true,
        Child::Element(e) => few_attrs_element(e),
        Child::Page(_) => false,
    }
}

pub open spec fn few_attrs_children(e: Element, n: nat) -> bool
    decreases e, n,
{
    if n == 0 || n > e.kids().len() {
        true
    } else {
        few_attrs_children(e, (n - 1) as nat) && few_attrs_child(e.kids()[n - 1])
    }
}

pub open spec fn few_attrs_element(e: Element) -> bool
    decreases e, e.kids().len() + 1,
{
    e.attrs().len() <= 1 && few_attrs_children(e, e.kids().len())
}

proof fn lemma_shift_concat(a: Seq<char>, b: Seq<char>)
    ensures
        shift_lines(a + b) == shift_lines(a) + shift_lines(b),
    decreases b.len(),
{
    if b.len() == 0 {
        assert(a + b =~= a);
        assert(shift_lines(a) + shift_lines(b) =~= shift_lines(a));
    } else {
        assert((a + b).drop_last() =~= a + b.drop_last());
        assert((a + b).last() == b.last());
        lemma_shift_concat(a, b.drop_last());
        if b.last() == '\n' {
            assert(shift_lines(a + b) =~= shift_lines(a) + shift_lines(b));
        } else {
            assert(shift_lines(a + b) =~= shift_lines(a) + shift_lines(b));
        }
    }
}

proof fn lemma_shift_newline()
    ensures
        shift_lines("\n"@) == "\n  "@,
{
    reveal_strlit("\n");
    let nl = "\n"@;
    assert(nl.drop_last() =~= Seq::<char>::empty());
    assert(shift_lines(nl.drop_last()) == Seq::<char>::empty());
    assert(shift_lines(nl) == shift_lines(nl.drop_last()) + "\n  "@);
    assert(shift_lines(nl) =~= "\n  "@);
}

proof fn lemma_shift_single_line(y: Seq<char>)
    requires
        single_line(y),
    ensures
        shift_lines(y) == y,
    decreases y.len(),
{
    if y.len() > 0 {
        assert(y.last() == y[y.len() - 1]);
        lemma_shift_single_line(y.drop_last());
        assert(y.drop_last().push(y.last()) =~= y);
    }
}

proof fn lemma_indent_front(depth: nat)
    ensures
        indent(depth + 1) == "  "@ + indent(depth),
{
    lemma_indent_spaces(depth);
    lemma_indent_spaces(depth + 1);
    reveal_strlit("  ");
    assert(indent(depth + 1) =~= "  "@ + indent(depth));
}

/// Shifting a line, a line break, a block and a last line.
proof fn lemma_shift_frame(a: Seq<char>, b: Seq<char>, k1: Seq<char>, k2: Seq<char>)
    requires
        single_line(a),
        single_line(b),
        "  "@ + shift_lines(k1) == k2 + "  "@,
    ensures
        "  "@ + shift_lines(a + "\n"@ + k1 + b) == ("  "@ + a) + "\n"@ + k2 + ("  "@ + b),
{
    reveal_strlit("\n  ");
    reveal_strlit("\n");
    reveal_strlit("  ");
    let sp = "  "@;
    lemma_shift_concat(a, "\n"@);
    lemma_shift_concat(a + "\n"@, k1);
    lemma_shift_concat(a + "\n"@ + k1, b);
    lemma_shift_single_line(a);
    lemma_shift_single_line(b);
    lemma_shift_newline();
    assert(shift_lines(a + "\n"@ + k1 + b) == a + "\n  "@ + shift_lines(k1) + b);
    assert("\n  "@ =~= "\n"@ + sp);
    assert(sp + (a + "\n  "@ + shift_lines(k1) + b) =~= (sp + a) + "\n"@ + (sp + shift_lines(k1))
        + b);
    assert((sp + a) + "\n"@ + (k2 + sp) + b =~= (sp + a) + "\n"@ + k2 + (sp + b));
}

proof fn lemma_children_shift(e: Element, n: nat, depth: nat)
    requires
        n <= e.kids().len(),
        plain_children(e, n),
        few_attrs_children(e, n),
    ensures
        "  "@ + shift_lines(children_html(e, n, depth + 1)) == children_html(e, n, depth + 2)
            + "  "@,
    decreases e, n,
{
    reveal_strlit("\n");
    reveal_strlit("\n  ");
    reveal_strlit("  ");
    if n == 0 {
        assert(shift_lines(children_html(e, n, depth + 1)) =~= Seq::<char>::empty());
        assert("  "@ + Seq::<char>::empty() =~= Seq::<char>::empty() + "  "@);
    } else {
        lemma_children_shift(e, (n - 1) as nat, depth);
        let c = e.kids()[n - 1];
        assert(plain_child(c) && few_attrs_child(c));
        let x = child_html(c, depth + 1);
        let x2 = child_html(c, depth + 2);
        match c {
            Child::Text(t) => {
                lemma_indent_single_line(depth + 1);
                lemma_single_line_concat(indent(depth + 1), t@);
                lemma_shift_single_line(x);
                lemma_indent_front(depth + 1);
                assert(x2 =~= "  "@ + x);
            },
            Child::Element(ce) => {
                lemma_shift_depth(ce, depth + 1);
            },
            Child::Page(_) => {},
        }
        assert(x2 == "  "@ + shift_lines(x));
        let prev = children_html(e, (n - 1) as nat, depth + 1);
        lemma_shift_concat(prev, x);
        lemma_shift_concat(prev + x, "\n"@);
        lemma_shift_newline();
        let sp = "  "@;
        let sprev = shift_lines(prev);
        let sx = shift_lines(x);
        let prev2 = children_html(e, (n - 1) as nat, depth + 2);
        assert(children_html(e, n, depth + 1) == prev + x + "\n"@);
        assert(children_html(e, n, depth + 2) == prev2 + x2 + "\n"@);
        assert(shift_lines(prev + x + "\n"@) == sprev + sx + "\n  "@);
        assert("\n  "@ =~= "\n"@ + sp);
        assert(sp + (sprev + sx + "\n  "@) =~= (sp + sprev) + sx + "\n"@ + sp);
        assert(sp + sprev == prev2 + sp);
        assert((prev2 + sp) + sx + "\n"@ + sp =~= prev2 + (sp + sx) + "\n"@ + sp);
    }
}

proof fn lemma_tag_lines_single(e: Element, depth: nat)
    requires
        plain_element(e),
        few_attrs_element(e),
    ensures
        attrs_html(e.attrs(), depth) == attrs_html(e.attrs(), depth + 1),
        single_line(indent(depth) + ("<"@ + tag_name(e.tag()) + attrs_html(e.attrs(), depth) + ">"@)),
        single_line(indent(depth) + ("</"@ + tag_name(e.tag()) + ">"@)),
{
    let name = tag_name(e.tag());
    let attrs = e.attrs();
    let a = attrs_html(attrs, depth);
    let y = "<"@ + name + a + ">"@;
    let close = "</"@ + name + ">"@;
    reveal_strlit("<");
    reveal_strlit(">");
    reveal_strlit("</");
    reveal_strlit(" ");
    reveal_strlit("=\"");
    reveal_strlit("\"");
    lemma_indent_single_line(depth);
    lemma_tag_name_single_line(e.tag());
    if attrs.len() == 1 {
        assert(single_line(attrs[0].0) && single_line(attrs[0].1));
        lemma_single_line_concat(" "@, attrs[0].0);
        lemma_single_line_concat(" "@ + attrs[0].0, "=\""@);
        lemma_single_line_concat(" "@ + attrs[0].0 + "=\""@, attrs[0].1);
        lemma_single_line_concat(" "@ + attrs[0].0 + "=\""@ + attrs[0].1, "\""@);
        assert(a =~= " "@ + attrs[0].0 + "=\""@ + attrs[0].1 + "\""@);
    }
    lemma_single_line_concat("<"@, name);
    lemma_single_line_concat("<"@ + name, a);
    lemma_single_line_concat("<"@ + name + a, ">"@);
    lemma_single_line_concat(indent(depth), y);
    lemma_single_line_concat("</"@, name);
    lemma_single_line_concat("</"@ + name, ">"@);
    lemma_single_line_concat(indent(depth), close);
}

/// When no page is nested in `e`, no text or attribute in it holds a line
/// break, and no element in it has two or more attributes, rendering one
/// level deeper moves every line two spaces to the right.
#[verifier::spinoff_prover]
#[verifier::rlimit(100)]
pub proof fn lemma_shift_depth(e: Element, depth: nat)
    requires
        plain_element(e),
        few_attrs_element(e),
    ensures
        element_html(e, depth + 1) == "  "@ + shift_lines(element_html(e, depth)),
    decreases e, e.kids().len() + 1,
{
    lemma_indent_front(depth);
    let name = tag_name(e.tag());
    let attrs = e.attrs();
    let a = attrs_html(attrs, depth);
    let y = "<"@ + name + a + ">"@;
    let close = "</"@ + name + ">"@;
    lemma_tag_lines_single(e, depth);
    assert(">\n"@ =~= ">"@ + "\n"@) by {
        reveal_strlit("\n");
        reveal_strlit(">");
        reveal_strlit(">\n");
    }
    let k1 = children_html(e, e.kids().len(), depth + 1);
    let k2 = children_html(e, e.kids().len(), depth + 2);
    lemma_children_shift(e, e.kids().len(), depth);
    let big_a = indent(depth) + y;
    let big_b = indent(depth) + close;
    assert(element_html(e, depth) =~= big_a + "\n"@ + k1 + big_b);
    assert(indent(depth + 1) + y =~= "  "@ + big_a);
    assert(indent(depth + 1) + close =~= "  "@ + big_b);
    assert(element_html(e, depth + 1) =~= (indent(depth + 1) + y) + "\n"@ + k2 + (indent(depth + 1)
        + close));
    lemma_shift_frame(big_a, big_b, k1, k2);
}

/// Rendering depends on nothing but the value and the depth: two renders of
/// one unchanged value give the same text.
pub proof fn lemma_render_repeatable<T: SimpleHtml>(
    x: &T,
    depth: nat,
    first: Seq<char>,
    second: Seq<char>,
)
    requires
        first == x.html(depth),
        second == x.html(depth),
    ensures
        first == second,
{
}

} // verus!
