//! A whole page: head metadata around a body of children.
use vstd::prelude::*;
use vstd::string::StringExecFns;
use crate::{
    appended, attr_fragment, bare_with_attr, child_fits, child_html, header_tag, render_child,
    wraps_text, Child, Element, IntoChild, SimpleHtml, Tag,
};

verus! {

/// A page: an optional title, meta entries, stylesheet links and script
/// sources for the head; children and inline scripts for the body.
pub struct Page {
    title: Option<String>,
    meta: Vec<String>,
    head_links: Vec<(String, String)>,
    script_links: Vec<String>,
    script_literals: Vec<String>,
    body: Vec<Child>,
}

/// One meta entry from its (key, value) pairs: each as `key="value"`,
/// separated by single spaces.
pub open spec fn meta_entry(pairs: Seq<(Seq<char>, Seq<char>)>) -> Seq<char>
    decreases pairs.len(),
{
    if pairs.len() == 0 {
        Seq::empty()
    } else if pairs.len() == 1 {
        attr_fragment(pairs[0])
    } else {
        meta_entry(pairs.drop_last()) + " "@ + attr_fragment(pairs.last())
    }
}

pub open spec fn title_line(title: Option<Seq<char>>) -> Seq<char> {
    match title {
        Some(t) => "  <title>"@ + t + "</title>\n"@,
        None => Seq::empty(),
    }
}

pub open spec fn meta_lines(metas: Seq<Seq<char>>) -> Seq<char>
    decreases metas.len(),
{
    if metas.len() == 0 {
        Seq::empty()
    } else {
        meta_lines(metas.drop_last()) + "  <meta "@ + metas.last() + ">\n"@
    }
}

pub open spec fn link_lines(links: Seq<(Seq<char>, Seq<char>)>) -> Seq<char>
    decreases links.len(),
{
    if links.len() == 0 {
        Seq::empty()
    } else {
        link_lines(links.drop_last()) + "  <link rel=\""@ + links.last().0 + "\" href=\""@
            + links.last().1 + "\">\n"@
    }
}

pub open spec fn script_link_lines(srcs: Seq<Seq<char>>) -> Seq<char>
    decreases srcs.len(),
{
    if srcs.len() == 0 {
        Seq::empty()
    } else {
        script_link_lines(srcs.drop_last()) + "  <script src=\""@ + srcs.last() + "\" />\n"@
    }
}

/// The inline scripts, their text written as it is between the script tags.
pub open spec fn script_blocks(scripts: Seq<Seq<char>>) -> Seq<char>
    decreases scripts.len(),
{
    if scripts.len() == 0 {
        Seq::empty()
    } else {
        script_blocks(scripts.drop_last()) + "  <script>\n"@ + scripts.last() + "\n  </script>\n"@
    }
}

impl Page {
    pub closed spec fn title_text(&self) -> Option<Seq<char>> {
        match self.title {
            Some(t) => Some(t@),
            None => None,
        }
    }

    pub closed spec fn metas(&self) -> Seq<Seq<char>> {
        self.meta@.map_values(|m: String| m@)
    }

    pub closed spec fn links(&self) -> Seq<(Seq<char>, Seq<char>)> {
        self.head_links@.map_values(|l: (String, String)| (l.0@, l.1@))
    }

    pub closed spec fn script_srcs(&self) -> Seq<Seq<char>> {
        self.script_links@.map_values(|s: String| s@)
    }

    pub closed spec fn scripts(&self) -> Seq<Seq<char>> {
        self.script_literals@.map_values(|s: String| s@)
    }

    pub closed spec fn kids(&self) -> Seq<Child> {
        self.body@
    }

    /// Everything but the body children is the same in `self` and `o`.
    pub open spec fn same_but_children(&self, o: &Page) -> bool {
        &&& self.title_text() == o.title_text()
        &&& self.metas() == o.metas()
        &&& self.links() == o.links()
        &&& self.script_srcs() == o.script_srcs()
        &&& self.scripts() == o.scripts()
    }

    pub fn new() -> (r: Self)
        ensures
            r.title_text() == None::<Seq<char>>,
            r.metas() == Seq::<Seq<char>>::empty(),
            r.links() == Seq::<(Seq<char>, Seq<char>)>::empty(),
            r.script_srcs() == Seq::<Seq<char>>::empty(),
            r.scripts() == Seq::<Seq<char>>::empty(),
            r.kids() == Seq::<Child>::empty(),
    {
        let r = Page {
            title: None,
            meta: Vec::new(),
            head_links: Vec::new(),
            script_links: Vec::new(),
            body: Vec::new(),
            script_literals: Vec::new(),
        };
        assert(r.metas() =~= Seq::<Seq<char>>::empty());
        assert(r.links() =~= Seq::<(Seq<char>, Seq<char>)>::empty());
        assert(r.script_srcs() =~= Seq::<Seq<char>>::empty());
        assert(r.scripts() =~= Seq::<Seq<char>>::empty());
        r
    }

    pub fn with_child<T: IntoChild>(self, child: T) -> (r: Self)
        ensures
            r.same_but_children(&self),
            appended(self.kids(), r.kids()),
            child.becomes(r.kids().last()),
    {
        let mut r = self;
        r.add_child(child);
        r
    }

    pub fn add_child<T: IntoChild>(&mut self, child: T)
        ensures
            final(self).same_but_children(old(self)),
            appended(old(self).kids(), final(self).kids()),
            child.becomes(final(self).kids().last()),
    {
        let c = child.into_child();
        self.body.push(c);
        assert(self.body@.drop_last() =~= old(self).body@);
    }

    pub fn with_title(self, title: &str) -> (r: Self)
        ensures
            r.title_text() == Some(title@),
            r.metas() == self.metas(),
            r.links() == self.links(),
            r.script_srcs() == self.script_srcs(),
            r.scripts() == self.scripts(),
            r.kids() == self.kids(),
    {
        let mut r = self;
        r.set_title(title);
        r
    }

    pub fn set_title(&mut self, title: &str)
        ensures
            final(self).title_text() == Some(title@),
            final(self).metas() == old(self).metas(),
            final(self).links() == old(self).links(),
            final(self).script_srcs() == old(self).script_srcs(),
            final(self).scripts() == old(self).scripts(),
            final(self).kids() == old(self).kids(),
    {
        self.title = Some(title.to_owned());
    }

    /// Adds one meta entry built from `attr`'s (key, value) pairs.
    pub fn with_meta(self, attr: &[(&str, &str)]) -> (r: Self)
        ensures
            r.title_text() == self.title_text(),
            r.metas() == self.metas().push(
                meta_entry(attr@.map_values(|p: (&str, &str)| (p.0@, p.1@))),
            ),
            r.links() == self.links(),
            r.script_srcs() == self.script_srcs(),
            r.scripts() == self.scripts(),
            r.kids() == self.kids(),
    {
        let mut r = self;
        r.add_meta(attr);
        r
    }

    pub fn add_meta(&mut self, attr: &[(&str, &str)])
        ensures
            final(self).title_text() == old(self).title_text(),
            final(self).metas() == old(self).metas().push(
                meta_entry(attr@.map_values(|p: (&str, &str)| (p.0@, p.1@))),
            ),
            final(self).links() == old(self).links(),
            final(self).script_srcs() == old(self).script_srcs(),
            final(self).scripts() == old(self).scripts(),
            final(self).kids() == old(self).kids(),
    {
        let entry = meta_entry_string(attr);
        self.meta.push(entry);
        assert(self.metas() =~= old(self).metas().push(
            meta_entry(attr@.map_values(|p: (&str, &str)| (p.0@, p.1@))),
        ));
    }

    pub fn with_head_link(self, rel: &str, value: &str) -> (r: Self)
        ensures
            r.title_text() == self.title_text(),
            r.metas() == self.metas(),
            r.links() == self.links().push((rel@, value@)),
            r.script_srcs() == self.script_srcs(),
            r.scripts() == self.scripts(),
            r.kids() == self.kids(),
    {
        let mut r = self;
        r.add_head_link(rel, value);
        r
    }

    pub fn add_head_link(&mut self, rel: &str, value: &str)
        ensures
            final(self).title_text() == old(self).title_text(),
            final(self).metas() == old(self).metas(),
            final(self).links() == old(self).links().push((rel@, value@)),
            final(self).script_srcs() == old(self).script_srcs(),
            final(self).scripts() == old(self).scripts(),
            final(self).kids() == old(self).kids(),
    {
        self.head_links.push((rel.to_owned(), value.to_owned()));
        assert(self.links() =~= old(self).links().push((rel@, value@)));
    }

    /// Adds an inline script, written at the end of the body.
    pub fn with_script(self, script: &str) -> (r: Self)
        ensures
            r.title_text() == self.title_text(),
            r.metas() == self.metas(),
            r.links() == self.links(),
            r.script_srcs() == self.script_srcs(),
            r.scripts() == self.scripts().push(script@),
            r.kids() == self.kids(),
    {
        let mut r = self;
        r.add_script(script);
        r
    }

    pub fn add_script(&mut self, script: &str)
        ensures
            final(self).title_text() == old(self).title_text(),
            final(self).metas() == old(self).metas(),
            final(self).links() == old(self).links(),
            final(self).script_srcs() == old(self).script_srcs(),
            final(self).scripts() == old(self).scripts().push(script@),
            final(self).kids() == old(self).kids(),
    {
        self.script_literals.push(script.to_owned());
        assert(self.scripts() =~= old(self).scripts().push(script@));
    }

    /// Adds an external script, referenced from the head.
    pub fn with_script_link(self, link: &str) -> (r: Self)
        ensures
            r.title_text() == self.title_text(),
            r.metas() == self.metas(),
            r.links() == self.links(),
            r.script_srcs() == self.script_srcs().push(link@),
            r.scripts() == self.scripts(),
            r.kids() == self.kids(),
    {
        let mut r = self;
        r.add_script_link(link);
        r
    }

    pub fn add_script_link(&mut self, link: &str)
        ensures
            final(self).title_text() == old(self).title_text(),
            final(self).metas() == old(self).metas(),
            final(self).links() == old(self).links(),
            final(self).script_srcs() == old(self).script_srcs().push(link@),
            final(self).scripts() == old(self).scripts(),
            final(self).kids() == old(self).kids(),
    {
        self.script_links.push(link.to_owned());
        assert(self.script_srcs() =~= old(self).script_srcs().push(link@));
    }

    pub fn with_header(self, level: u8, text: &str) -> (r: Self)
        ensures
            r.same_but_children(&self),
            match header_tag(level) {
                Some(h) => appended(self.kids(), r.kids()) && wraps_text(r.kids().last(), h, text@),
                None => r.kids() == self.kids(),
            },
    {
        let mut r = self;
        r.add_header(level, text);
        r
    }

    pub fn add_header(&mut self, level: u8, text: &str)
        ensures
            final(self).same_but_children(old(self)),
            match header_tag(level) {
                Some(h) => appended(old(self).kids(), final(self).kids()) && wraps_text(
                    final(self).kids().last(),
                    h,
                    text@,
                ),
                None => final(self).kids() == old(self).kids(),
            },
    {
        if let Some(tag) = Tag::header(level) {
            self.add_child(Element::new(tag).with_child(text));
        }
    }

    pub fn with_paragraph(self, text: &str) -> (r: Self)
        ensures
            r.same_but_children(&self),
            appended(self.kids(), r.kids()),
            wraps_text(r.kids().last(), Tag::Paragraph, text@),
    {
        let mut r = self;
        r.add_paragraph(text);
        r
    }

    pub fn add_paragraph(&mut self, text: &str)
        ensures
            final(self).same_but_children(old(self)),
            appended(old(self).kids(), final(self).kids()),
            wraps_text(final(self).kids().last(), Tag::Paragraph, text@),
    {
        self.add_child(Element::new(Tag::Paragraph).with_child(text));
    }

    /// Appends a link element whose `href` is `link`.
    pub fn with_link(self, link: &str) -> (r: Self)
        ensures
            r.same_but_children(&self),
            appended(self.kids(), r.kids()),
            bare_with_attr(r.kids().last(), Tag::Link, "href"@, link@),
    {
        let mut r = self;
        r.add_link(link);
        r
    }

    pub fn add_link(&mut self, link: &str)
        ensures
            final(self).same_but_children(old(self)),
            appended(old(self).kids(), final(self).kids()),
            bare_with_attr(final(self).kids().last(), Tag::Link, "href"@, link@),
    {
        self.add_child(Element::new(Tag::Link).with_attribute("href", link));
    }

    /// Appends an element of the link kind whose `src` is `link`.
    pub fn with_image(self, link: &str) -> (r: Self)
        ensures
            r.same_but_children(&self),
            appended(self.kids(), r.kids()),
            bare_with_attr(r.kids().last(), Tag::Link, "src"@, link@),
    {
        let mut r = self;
        r.add_image(link);
        r
    }

    pub fn add_image(&mut self, link: &str)
        ensures
            final(self).same_but_children(old(self)),
            appended(old(self).kids(), final(self).kids()),
            bare_with_attr(final(self).kids().last(), Tag::Link, "src"@, link@),
    {
        self.add_child(Element::new(Tag::Link).with_attribute("src", link));
    }
}

fn meta_entry_string(attr: &[(&str, &str)]) -> (r: String)
    ensures
        r@ == meta_entry(attr@.map_values(|p: (&str, &str)| (p.0@, p.1@))),
{
    let ghost pairs = attr@.map_values(|p: (&str, &str)| (p.0@, p.1@));
    let mut r = String::new();
    let mut i: usize = 0;
    while i < attr.len()
        invariant
            i <= attr@.len(),
            pairs == attr@.map_values(|p: (&str, &str)| (p.0@, p.1@)),
            r@ == meta_entry(pairs.subrange(0, i as int)),
        decreases attr@.len() - i,
    {
        let ghost before = r@;
        if i > 0 {
            r.append(" ");
        }
        let (key, value) = attr[i];
        r.append(key);
        r.append("=\"");
        r.append(value);
        r.append("\"");
        proof {
            let sub = pairs.subrange(0, i + 1);
            assert(sub.drop_last() =~= pairs.subrange(0, i as int));
            assert(sub.last() == pairs[i as int]);
            if i == 0 {
                assert(r@ =~= attr_fragment(pairs[0]));
            } else {
                assert(r@ =~= before + " "@ + attr_fragment(pairs[i as int]));
            }
        }
        i = i + 1;
    }
    assert(pairs.subrange(0, pairs.len() as int) =~= pairs);
    r
}

fn append_meta_lines(r: &mut String, meta: &Vec<String>)
    ensures
        final(r)@ == old(r)@ + meta_lines(meta@.map_values(|m: String| m@)),
{
    let ghost metas = meta@.map_values(|m: String| m@);
    let ghost start = r@;
    let mut i: usize = 0;
    while i < meta.len()
        invariant
            i <= meta@.len(),
            metas == meta@.map_values(|m: String| m@),
            r@ == start + meta_lines(metas.subrange(0, i as int)),
        decreases meta@.len() - i,
    {
        let ghost before = r@;
        r.append("  <meta ");
        r.append(meta[i].as_str());
        r.append(">\n");
        proof {
            let sub = metas.subrange(0, i + 1);
            assert(sub.drop_last() =~= metas.subrange(0, i as int));
            assert(r@ =~= start + (meta_lines(sub.drop_last()) + "  <meta "@ + sub.last() + ">\n"@));
        }
        i = i + 1;
    }
    assert(metas.subrange(0, metas.len() as int) =~= metas);
}

fn append_link_lines(r: &mut String, links: &Vec<(String, String)>)
    ensures
        final(r)@ == old(r)@ + link_lines(links@.map_values(|l: (String, String)| (l.0@, l.1@))),
{
    let ghost ls = links@.map_values(|l: (String, String)| (l.0@, l.1@));
    let ghost start = r@;
    let mut i: usize = 0;
    while i < links.len()
        invariant
            i <= links@.len(),
            ls == links@.map_values(|l: (String, String)| (l.0@, l.1@)),
            r@ == start + link_lines(ls.subrange(0, i as int)),
        decreases links@.len() - i,
    {
        r.append("  <link rel=\"");
        r.append(links[i].0.as_str());
        r.append("\" href=\"");
        r.append(links[i].1.as_str());
        r.append("\">\n");
        proof {
            let sub = ls.subrange(0, i + 1);
            assert(sub.drop_last() =~= ls.subrange(0, i as int));
            assert(r@ =~= start + (link_lines(sub.drop_last()) + "  <link rel=\""@ + sub.last().0
                + "\" href=\""@ + sub.last().1 + "\">\n"@));
        }
        i = i + 1;
    }
    assert(ls.subrange(0, ls.len() as int) =~= ls);
}

fn append_script_link_lines(r: &mut String, srcs: &Vec<String>)
    ensures
        final(r)@ == old(r)@ + script_link_lines(srcs@.map_values(|s: String| s@)),
{
    let ghost ss = srcs@.map_values(|s: String| s@);
    let ghost start = r@;
    let mut i: usize = 0;
    while i < srcs.len()
        invariant
            i <= srcs@.len(),
            ss == srcs@.map_values(|s: String| s@),
            r@ == start + script_link_lines(ss.subrange(0, i as int)),
        decreases srcs@.len() - i,
    {
        r.append("  <script src=\"");
        r.append(srcs[i].as_str());
        r.append("\" />\n");
        proof {
            let sub = ss.subrange(0, i + 1);
            assert(sub.drop_last() =~= ss.subrange(0, i as int));
            assert(r@ =~= start + (script_link_lines(sub.drop_last()) + "  <script src=\""@
                + sub.last() + "\" />\n"@));
        }
        i = i + 1;
    }
    assert(ss.subrange(0, ss.len() as int) =~= ss);
}

fn append_script_blocks(r: &mut String, scripts: &Vec<String>)
    ensures
        final(r)@ == old(r)@ + script_blocks(scripts@.map_values(|s: String| s@)),
{
    let ghost ss = scripts@.map_values(|s: String| s@);
    let ghost start = r@;
    let mut i: usize = 0;
    while i < scripts.len()
        invariant
            i <= scripts@.len(),
            ss == scripts@.map_values(|s: String| s@),
            r@ == start + script_blocks(ss.subrange(0, i as int)),
        decreases scripts@.len() - i,
    {
        r.append("  <script>\n");
        r.append(scripts[i].as_str());
        r.append("\n  </script>\n");
        proof {
            let sub = ss.subrange(0, i + 1);
            assert(sub.drop_last() =~= ss.subrange(0, i as int));
            assert(r@ =~= start + (script_blocks(sub.drop_last()) + "  <script>\n"@ + sub.last()
                + "\n  </script>\n"@));
        }
        i = i + 1;
    }
    assert(ss.subrange(0, ss.len() as int) =~= ss);
}

/// The first `n` body children of `p`, each rendered one level deep and
/// followed by a line break.
pub open spec fn body_html(p: Page, n: nat) -> Seq<char>
    decreases p, n,
{
    if n == 0 || n > p.kids().len() {
        Seq::empty()
    } else {
        body_html(p, (n - 1) as nat) + child_html(p.kids()[n - 1], 1) + "\n"@
    }
}

/// The whole page: doctype, head, then body.
pub open spec fn page_html(p: Page) -> Seq<char>
    decreases p, p.kids().len() + 1,
{
    "<!DOCTYPE html>\n<head>\n"@ + title_line(p.title_text()) + meta_lines(p.metas())
        + link_lines(p.links()) + script_link_lines(p.script_srcs()) + "</head>\n<body>\n"@
        + body_html(p, p.kids().len()) + script_blocks(p.scripts()) + "</body>"@
}

/// The first `n` body children of `p` fit at the first level.
pub open spec fn body_fits(p: Page, n: nat) -> bool
    decreases p, n,
{
    if n == 0 || n > p.kids().len() {
        true
    } else {
        body_fits(p, (n - 1) as nat) && child_fits(p.kids()[n - 1], 1)
    }
}

pub open spec fn page_fits(p: Page) -> bool
    decreases p, p.kids().len() + 1,
{
    body_fits(p, p.kids().len())
}

proof fn lemma_body_fits(p: Page, n: nat, i: int)
    requires
        0 <= i < n <= p.body@.len(),
        body_fits(p, n),
    ensures
        child_fits(p.body[i], 1),
    decreases n,
{
    if i < n - 1 {
        lemma_body_fits(p, (n - 1) as nat, i);
    }
}

pub(crate) fn render_page(p: &Page) -> (r: String)
    requires
        page_fits(*p),
    ensures
        r@ == page_html(*p),
    decreases p,
{
    let mut r = String::new();
    r.append("<!DOCTYPE html>\n<head>\n");
    match &p.title {
        Some(t) => {
            r.append("  <title>");
            r.append(t.as_str());
            r.append("</title>\n");
        },
        None => {},
    }
    append_meta_lines(&mut r, &p.meta);
    append_link_lines(&mut r, &p.head_links);
    append_script_link_lines(&mut r, &p.script_links);
    r.append("</head>\n<body>\n");
    let ghost start = r@;
    let mut i: usize = 0;
    while i < p.body.len()
        invariant
            i <= p.body@.len(),
            page_fits(*p),
            r@ == start + body_html(*p, i as nat),
        decreases p.body@.len() - i,
    {
        proof {
            lemma_body_fits(*p, p.body@.len() as nat, i as int);
        }
        let part = render_child(&p.body[i], 1);
        r.append(part.as_str());
        r.append("\n");
        assert(r@ =~= start + body_html(*p, i as nat + 1));
        i = i + 1;
    }
    append_script_blocks(&mut r, &p.script_literals);
    r.append("</body>");
    assert(r@ =~= page_html(*p));
    r
}

impl SimpleHtml for Page {
    /// A page renders the same at every depth; its children sit one level deep.
    open spec fn html(&self, depth: nat) -> Seq<char> {
        page_html(*self)
    }

    open spec fn fits_depth(&self, depth: nat) -> bool {
        page_fits(*self)
    }

    fn to_html(&self, depth: usize) -> (r: String) {
        render_page(self)
    }
}

impl IntoChild for Page {
    open spec fn becomes(&self, c: Child) -> bool {
        c == Child::Page(*self)
    }

    fn into_child(self) -> (c: Child) {
        Child::Page(self)
    }
}

} // verus!
