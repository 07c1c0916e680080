//! The XML parser on whole documents.

use hane::svg::markup::XML_NS;
use hane::svg::xml::{Element, Node, parse};

/// A small deterministic generator for the randomised cases.
struct Rng(u64);

impl Rng {
    fn below(&mut self, bound: u64) -> u64 {
        self.0 ^= self.0 << 13;
        self.0 ^= self.0 >> 7;
        self.0 ^= self.0 << 17;
        (self.0 >> 11) % bound
    }
}

fn check(name: &str, cases: u32, generate: fn(&mut Rng) -> String, holds: fn(&str) -> bool) {
    let mut rng = Rng(0x9e37_79b9_7f4a_7c15);
    for _ in 0..cases {
        let input = generate(&mut rng);
        assert!(holds(&input), "{name}: {input:?}");
    }
}

fn root(input: &str) -> Element {
    parse(input).expect("should parse")
}

fn text_of(element: &Element) -> String {
    element
        .children
        .iter()
        .filter_map(|n| match n {
            Node::Text(t) => Some(t.as_str()),
            Node::Element(_) => None,
        })
        .collect()
}

#[test]
fn parses_nesting_and_positions() {
    let e = root("<a>\n  <b x='1'/>\n</a>");
    assert_eq!(e.name.local, "a");
    assert_eq!((e.line, e.column), (1, 1));
    let Node::Element(b) = &e.children[1] else {
        panic!("expected an element child, got {:?}", e.children);
    };
    assert_eq!(b.attribute("x"), Some("1"));
    assert_eq!((b.line, b.column), (2, 3));
    assert!(b.children.is_empty());
}

#[test]
fn default_and_prefixed_namespaces_resolve() {
    let e = root(
        "<svg xmlns='http://www.w3.org/2000/svg' \
         xmlns:xlink='http://www.w3.org/1999/xlink'>\
         <use xlink:href='#x' fill='red'/></svg>",
    );
    assert_eq!(
        e.name.namespace.as_deref(),
        Some("http://www.w3.org/2000/svg")
    );
    let Node::Element(u) = &e.children[0] else {
        panic!("expected an element child");
    };
    // The element inherits the default namespace; the unprefixed attribute
    // does not take it, but the prefixed one resolves.
    assert_eq!(
        u.name.namespace.as_deref(),
        Some("http://www.w3.org/2000/svg")
    );
    assert_eq!(
        u.attributes[0].name.namespace.as_deref(),
        Some("http://www.w3.org/1999/xlink")
    );
    assert_eq!(u.attributes[0].name.local, "href");
    assert_eq!(u.attributes[1].name.namespace, None);
}

#[test]
fn namespaces_redefine_on_nested_elements_and_pop() {
    let e = root(
        "<a xmlns='one' xmlns:p='two'>\
         <b xmlns='three' xmlns:p='four'><p:c/></b>\
         <d/><e xmlns=''/></a>",
    );
    let child = |i: usize| match &e.children[i] {
        Node::Element(c) => c.clone(),
        Node::Text(t) => panic!("expected an element, got {t:?}"),
    };
    let b = child(0);
    assert_eq!(b.name.namespace.as_deref(), Some("three"));
    let Node::Element(c) = &b.children[0] else {
        panic!("expected an element child");
    };
    assert_eq!(c.name.namespace.as_deref(), Some("four"));
    // Back outside `b`, the outer declarations are in scope again.
    assert_eq!(child(1).name.namespace.as_deref(), Some("one"));
    // `xmlns=""` undeclares the default namespace.
    assert_eq!(child(2).name.namespace, None);
}

#[test]
fn xml_prefix_is_predeclared() {
    let e = root("<a xml:space='preserve'/>");
    assert_eq!(e.attributes[0].name.namespace.as_deref(), Some(XML_NS));
}

#[test]
fn unbound_prefix_reports_the_element_position() {
    let err = parse("<a>\n  <p:b/>\n</a>").unwrap_err();
    assert_eq!((err.line, err.column), (2, 3));
    assert!(
        err.message.contains("unbound namespace prefix `p`"),
        "{err:?}"
    );
}

#[test]
fn predefined_and_numeric_entities_expand() {
    let e = root("<a t='&lt;&amp;&gt;&quot;&apos;'>&#65;&#x41;&#x1f600;</a>");
    assert_eq!(e.attribute("t"), Some("<&>\"'"));
    assert_eq!(text_of(&e), "AA\u{1f600}");
}

#[test]
fn undeclared_entities_do_not_expand() {
    // The billion-laughs shape: the declarations are skipped with the
    // doctype, so the reference is simply unknown.
    let doc = "<!DOCTYPE a [<!ENTITY x 'aaaa'><!ENTITY y '&x;&x;&x;'>]><a>&y;</a>";
    let err = parse(doc).unwrap_err();
    assert!(err.message.contains("unknown entity `&y;`"), "{err:?}");
}

#[test]
fn invalid_character_references_are_rejected() {
    for doc in [
        "<a>&#xD800;</a>",   // a surrogate
        "<a>&#x110000;</a>", // beyond the last code point
        "<a>&#0;</a>",       // NUL is not a valid XML character
        "<a>&#;</a>",
        "<a>&#99999999999999999999;</a>",
        "<a>&amp</a>",
    ] {
        assert!(parse(doc).is_err(), "{doc} should not parse");
    }
}

#[test]
fn cdata_is_literal_and_merges_with_surrounding_text() {
    let e = root("<a>x <![CDATA[ <b> & ]]>&amp; y</a>");
    assert_eq!(e.children.len(), 1);
    assert_eq!(text_of(&e), "x  <b> & & y");
}

#[test]
fn attribute_values_are_normalised() {
    // Literal tab and newline become spaces; the same characters written as
    // references survive, and so does a literal run of spaces.
    let e = root("<a v='p\tq\nr  s&#x9;&#10;'/>");
    assert_eq!(e.attribute("v"), Some("p q r  s\t\n"));
}

#[test]
fn carriage_returns_normalise_to_newlines() {
    let e = root("<a v='x\r\ny\rz'>p\r\nq\rr</a>");
    // In the attribute the newlines then normalise to spaces.
    assert_eq!(e.attribute("v"), Some("x y z"));
    assert_eq!(text_of(&e), "p\nq\nr");
}

#[test]
fn prolog_and_trailing_misc_are_skipped() {
    let e = root(
        "\u{feff}<?xml version='1.0'?>\n<!-- c --><!DOCTYPE a SYSTEM \"a>b\">\n<a/>\n<!-- after -->\n",
    );
    assert_eq!(e.name.local, "a");
    assert!(parse("<a/><b/>").is_err());
}

#[test]
fn mismatched_end_tag_reports_both_positions() {
    let err = parse("<a>\n<b>\n</c>\n</a>").unwrap_err();
    assert_eq!((err.line, err.column), (3, 3));
    assert!(
        err.message
            .contains("closes `<b>` opened at line 2, column 1"),
        "{err:?}"
    );
}

#[test]
fn duplicate_attributes_are_rejected() {
    assert!(parse("<a x='1' x='2'/>").is_err());
    // Same expanded name reached through two prefixes.
    assert!(parse("<a xmlns:p='u' xmlns:q='u' p:x='1' q:x='2'/>").is_err());
    assert!(parse("<a xmlns:p='u' xmlns:q='v' p:x='1' q:x='2'/>").is_ok());
}

#[test]
fn deep_nesting_errors_rather_than_overflowing_the_stack() {
    let deep = "<a>".repeat(50_000);
    let err = parse(&deep).unwrap_err();
    assert!(err.message.contains("nested more than"), "{err:?}");
}

#[test]
fn malformed_corpus_produces_errors_not_panics() {
    for doc in [
        "",
        "<",
        "<a",
        "<a>",
        "</a>",
        "<a></b>",
        "<a><b></a></b>",
        "<>",
        "<a/",
        "<a x/>",
        "<a x=/>",
        "<a x='1/>",
        "<a x=1/>",
        "<a x='<'/>",
        "<a x='1'y='2'/>",
        "<a:/>",
        "<:a/>",
        "<a::b/>",
        "<a xmlns:xmlns='u'/>",
        "<a xmlns:p=''/>",
        "<p:a/>",
        "<a>&</a>",
        "<a>&;</a>",
        "<a><![CDATA[</a>",
        "<a><!-- </a>",
        "<a><?pi </a>",
        "<!DOCTYPE a",
        "<!DOCTYPE a [",
        "<?xml",
        "text",
        "<a>text",
        "\u{feff}",
        "<a>\u{0}</a>",
    ] {
        let err = parse(doc).unwrap_err();
        assert!(err.line >= 1 && err.column >= 1, "{doc:?} gave {err:?}");
    }
}

/// The parser's only invariant under garbage input: it returns, and an error
/// always carries a usable position.
fn survives(input: &str) -> bool {
    match parse(input) {
        Ok(root) => !root.name.local.is_empty(),
        Err(e) => e.line >= 1 && e.column >= 1,
    }
}

const SAMPLE: &str = "<?xml version='1.0'?><svg xmlns='http://www.w3.org/2000/svg' \
    xmlns:x='u'><g transform='translate(1 2)'><!-- c --><path d='M0 0L1 1' \
    fill='&amp;'/><text x:a='&#65;'><![CDATA[<raw>]]>hi</text></g></svg>";

#[test]
fn fuzz_token_soup() {
    // Random bytes almost never reach past the first tag, so most of the
    // budget goes on fragments that are individually well-formed and
    // jointly nonsense -- which is where a parser actually breaks.
    fn generate(rng: &mut Rng) -> String {
        const TOKENS: &[&str] = &[
            "<a",
            "<a:b",
            "<b",
            " x='1'",
            " x:y=\"2\"",
            " xmlns='u'",
            " xmlns:a='v'",
            " xmlns=''",
            " xmlns:a=''",
            ">",
            "/>",
            "</a>",
            "</a:b>",
            "</b>",
            "&amp;",
            "&#38;",
            "&#x26;",
            "&bogus;",
            "&#;",
            "&",
            ";",
            "<![CDATA[",
            "]]>",
            "<!--",
            "-->",
            "<?pi ?>",
            "<!DOCTYPE a [<!ENTITY e 'x'>]>",
            "&e;",
            "text",
            "\t",
            "\r\n",
            "  ",
            "\"",
            "'",
            "=",
            "<",
            ">",
            "/",
            ":",
            "\u{feff}",
            "é",
            "\u{1f600}",
        ];
        let count = rng.below(32) + 1;
        (0..count)
            .map(|_| TOKENS[rng.below(TOKENS.len() as u64) as usize])
            .collect()
    }
    check("xml token soup", 20_000, generate, |s| survives(s));
}

#[test]
fn fuzz_truncated_and_spliced() {
    // Every prefix of a valid document is a plausible truncated file, and
    // the cut lands mid-tag, mid-entity and mid-CDATA in turn.
    fn generate(rng: &mut Rng) -> String {
        let cut = rng.below(SAMPLE.len() as u64 + 1) as usize;
        let cut = (0..=cut)
            .rev()
            .find(|i| SAMPLE.is_char_boundary(*i))
            .unwrap_or(0);
        let mut s = SAMPLE[..cut].to_string();
        // Half the cases also get a stray byte, which turns "unfinished" into
        // "wrong" without making it unrecognisable.
        if rng.below(2) == 0 {
            s.push(*b"<>/&;='\"\t\0]".get(rng.below(11) as usize).unwrap() as char);
        }
        s
    }
    check("xml truncation", 20_000, generate, |s| survives(s));
}

#[test]
fn fuzz_random_bytes() {
    fn generate(rng: &mut Rng) -> String {
        let len = rng.below(48) as usize;
        let bytes: Vec<u8> = (0..len).map(|_| rng.below(256) as u8).collect();
        String::from_utf8_lossy(&bytes).into_owned()
    }
    check("xml random bytes", 20_000, generate, |s| survives(s));
}
