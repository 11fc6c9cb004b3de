use simple_html::{Child, Element, Page, SimpleHtml, Tag};

#[test]
fn tag_lines_follow_depth() {
    let e = Element::new(Tag::Div).with_child(Element::new(Tag::Paragraph).with_child("x"));
    assert_eq!(
        e.to_html(2),
        "    <div>\n      <p>\n        x\n      </p>\n    </div>"
    );
    for line in e.to_html(3).lines() {
        assert!(line.starts_with("      "));
    }
}

#[test]
fn no_attributes() {
    assert_eq!(Element::new(Tag::Code).to_html(0), "<code>\n</code>");
}

#[test]
fn one_attribute() {
    let e = Element::new(Tag::Div).with_attribute("id", "main");
    assert_eq!(e.to_html(1), "  <div id=\"main\">\n  </div>");
}

#[test]
fn several_attributes_run_together() {
    let e = Element::new(Tag::Div).with_attribute("a", "1").with_attribute("b", "2");
    assert_eq!(e.to_html(0), "<div\n  a=\"1\"  b=\"2\">\n</div>");
}

#[test]
fn duplicate_attributes_are_kept() {
    let mut e = Element::new(Tag::Nav);
    e.add_attribute("k", "1");
    e.add_attribute("k", "2");
    assert_eq!(e.to_html(1), "  <nav\n    k=\"1\"    k=\"2\">\n  </nav>");
}

#[test]
fn header_levels() {
    let e = Element::new(Tag::Div)
        .with_header(1, "a")
        .with_header(2, "b")
        .with_header(3, "c")
        .with_header(4, "d");
    assert_eq!(
        e.to_html(0),
        "<div>\n  <h1>\n    a\n  </h1>\n  <h2>\n    b\n  </h2>\n  <h3>\n    c\n  </h3>\n  <h4>\n    d\n  </h4>\n</div>"
    );
}

#[test]
fn header_out_of_range_adds_nothing() {
    let mut e = Element::new(Tag::Div).with_header(0, "a").with_header(5, "b");
    e.add_header(255, "c");
    assert_eq!(e.to_html(0), "<div>\n</div>");
    let mut p = Page::new().with_header(9, "x");
    p.add_header(0, "y");
    assert_eq!(p.to_html(0), Page::new().to_html(0));
}

#[test]
fn element_conveniences() {
    let mut e = Element::new(Tag::Nav).with_link("u").with_image("p");
    e.add_paragraph("t");
    e.add_link("v");
    e.add_image("q");
    let e = e.with_paragraph("s");
    assert_eq!(
        e.to_html(0),
        [
            "<nav>\n",
            "  <a href=\"u\">\n  </a>\n",
            "  <a src=\"p\">\n  </a>\n",
            "  <p>\n    t\n  </p>\n",
            "  <a href=\"v\">\n  </a>\n",
            "  <a src=\"q\">\n  </a>\n",
            "  <p>\n    s\n  </p>\n",
            "</nav>"
        ].concat()
    );
}

#[test]
fn all_tag_names() {
    let tags = [
        (Tag::Div, "div"),
        (Tag::Paragraph, "p"),
        (Tag::Header1, "h1"),
        (Tag::Header2, "h2"),
        (Tag::Header3, "h3"),
        (Tag::Header4, "h4"),
        (Tag::UnorderedList, "ul"),
        (Tag::ListElement, "li"),
        (Tag::Link, "a"),
        (Tag::Nav, "nav"),
        (Tag::Image, "img"),
        (Tag::Code, "code"),
    ];
    for (tag, name) in tags {
        assert_eq!(tag.name(), name);
        assert_eq!(Element::new(tag).to_html(0), format!("<{}>\n</{}>", name, name));
    }
}

#[test]
fn text_leaves() {
    assert_eq!("hi".to_html(0), "hi");
    assert_eq!("hi".to_html(2), "    hi");
    assert_eq!(String::from("a<b>").to_html(1), "  a<b>");
    assert_eq!(Child::Text(String::from("")).to_html(1), "  ");
    let e = Element::new(Tag::Div).with_child(String::from("owned")).with_child(Child::Text(String::from("direct")));
    assert_eq!(e.to_html(0), "<div>\n  owned\n  direct\n</div>");
}

#[test]
fn render_twice_is_identical() {
    let e = Element::new(Tag::UnorderedList)
        .with_attribute("class", "x")
        .with_child(Element::new(Tag::ListElement).with_child("one"));
    let first = e.to_html(1);
    let second = e.to_html(1);
    assert_eq!(first, second);
    let p = Page::new().with_title("t").with_child(e);
    assert_eq!(p.to_html(0), p.to_html(0));
}

#[test]
fn empty_page() {
    assert_eq!(
        Page::new().to_html(0),
        "<!DOCTYPE html>\n<head>\n</head>\n<body>\n</body>"
    );
}

#[test]
fn page_ignores_depth() {
    let p = Page::new().with_paragraph("x");
    assert_eq!(p.to_html(0), p.to_html(7));
}

#[test]
fn full_page() {
    let mut p = Page::new()
        .with_title("T")
        .with_meta(&[("charset", "utf-8")])
        .with_meta(&[("name", "viewport"), ("content", "w")])
        .with_head_link("stylesheet", "s.css")
        .with_script_link("a.js")
        .with_paragraph("Hi")
        .with_link("L")
        .with_image("i.png")
        .with_script("x();");
    p.add_meta(&[]);
    p.add_head_link("icon", "f.ico");
    p.add_script_link("b.js");
    p.add_script("y();");
    p.set_title("Title");
    p.add_paragraph("P");
    p.add_link("M");
    p.add_image("j.png");
    assert_eq!(
        p.to_html(0),
        [
            "<!DOCTYPE html>\n",
            "<head>\n",
            "  <title>Title</title>\n",
            "  <meta charset=\"utf-8\">\n",
            "  <meta name=\"viewport\" content=\"w\">\n",
            "  <meta >\n",
            "  <link rel=\"stylesheet\" href=\"s.css\">\n",
            "  <link rel=\"icon\" href=\"f.ico\">\n",
            "  <script src=\"a.js\" />\n",
            "  <script src=\"b.js\" />\n",
            "</head>\n",
            "<body>\n",
            "  <p>\n    Hi\n  </p>\n",
            "  <a href=\"L\">\n  </a>\n",
            "  <a src=\"i.png\">\n  </a>\n",
            "  <p>\n    P\n  </p>\n",
            "  <a href=\"M\">\n  </a>\n",
            "  <a src=\"j.png\">\n  </a>\n",
            "  <script>\nx();\n  </script>\n",
            "  <script>\ny();\n  </script>\n",
            "</body>"
        ].concat()
    );
}

#[test]
fn page_headers() {
    let mut p = Page::new().with_header(1, "a");
    p.add_header(4, "d");
    assert_eq!(
        p.to_html(0),
        "<!DOCTYPE html>\n<head>\n</head>\n<body>\n  <h1>\n    a\n  </h1>\n  <h4>\n    d\n  </h4>\n</body>"
    );
}

#[test]
fn nested_page_ignores_depth() {
    let inner = Page::new().with_paragraph("x");
    let e = Element::new(Tag::Div).with_child(inner);
    assert_eq!(
        e.to_html(0),
        "<div>\n<!DOCTYPE html>\n<head>\n</head>\n<body>\n  <p>\n    x\n  </p>\n</body>\n</div>"
    );
    let outer = Page::new().with_child(Page::new());
    assert_eq!(
        outer.to_html(0),
        "<!DOCTYPE html>\n<head>\n</head>\n<body>\n<!DOCTYPE html>\n<head>\n</head>\n<body>\n</body>\n</body>"
    );
}

#[test]
fn every_line_carries_the_depth_indentation() {
    let e = Element::new(Tag::Div)
        .with_attribute("a", "1")
        .with_attribute("b", "2")
        .with_child(Element::new(Tag::UnorderedList).with_child(Element::new(Tag::ListElement).with_child("x")))
        .with_link("u")
        .with_child("text");
    for depth in 0..4 {
        let out = e.to_html(depth);
        let pad = "  ".repeat(depth);
        for line in out.split('\n') {
            assert!(line.starts_with(&pad));
        }
    }
}

#[test]
fn page_link_has_href() {
    let p = Page::new().with_link("https://example.org");
    assert_eq!(
        p.to_html(0),
        "<!DOCTYPE html>\n<head>\n</head>\n<body>\n  <a href=\"https://example.org\">\n  </a>\n</body>"
    );
}

#[test]
fn one_more_level_shifts_every_line() {
    let e = Element::new(Tag::Div)
        .with_attribute("id", "m")
        .with_child(Element::new(Tag::UnorderedList).with_child(Element::new(Tag::ListElement).with_child("x")))
        .with_link("u")
        .with_child("text");
    for depth in 0..3 {
        let shifted = format!("  {}", e.to_html(depth).replace('\n', "\n  "));
        assert_eq!(e.to_html(depth + 1), shifted);
    }
}
