//! A namespace-aware XML parser, covering the subset SVG documents use.
//!
//! [`parse`] returns the root [`Element`] of an owned tree. A tree rather than
//! an event stream because SVG import resolves inherited presentation
//! attributes: a walk needs its parent chain in hand.
//!
//! # What this deliberately does not do
//!
//! - **No DTD processing.** A doctype is skipped whole, internal subset
//!   included, so entity declarations never take effect and only the five
//!   predefined entities and character references resolve.
//! - **No external entities, and no I/O of any kind.**
//! - **No validation, no XSLT, no XInclude, no `xml:base`.**
//! - Comments and processing instructions are skipped rather than kept.

use vstd::prelude::*;
use crate::text;
use crate::text::from_chars;
use crate::text::push_decimal;
use crate::text::same;
use crate::text::to_chars;
use crate::svg::markup;
use crate::svg::markup::AttributeModel;
use crate::svg::markup::Binding;
use crate::svg::markup::ElementModel;
use crate::svg::markup::Fault;
use crate::svg::markup::NameModel;
use crate::svg::markup::NodeModel;
use crate::svg::markup::RawAttributeModel;
use crate::svg::markup::TagModel;
use crate::svg::markup::MAX_DEPTH;
use crate::svg::markup::XML_NS;

verus! {

broadcast use vstd::string::group_string_axioms;

/// An expanded name: the namespace it resolved to, plus the local part.
///
/// `namespace` is `None` for a name in no namespace, which is the normal case
/// for attributes: an unprefixed attribute does not take the default namespace.
#[derive(Debug, PartialEq, Eq)]
pub struct Name {
    /// The namespace URI, or `None` when the name is in no namespace.
    pub namespace: Option<String>,
    /// The part after the prefix.
    pub local: String,
}

/// One attribute of an element, with its value already normalised.
#[derive(Debug, PartialEq, Eq)]
pub struct Attribute {
    /// The resolved attribute name.
    pub name: Name,
    /// The value, after entity expansion and whitespace normalisation.
    pub value: String,
}

/// A child of an element.
#[derive(Debug, PartialEq, Eq)]
pub enum Node {
    /// A nested element.
    Element(Element),
    /// Character data. Adjacent text, CDATA and entity runs are merged into one
    /// node, so a caller never has to stitch fragments back together.
    Text(String),
}

/// An element and everything under it.
#[derive(Debug, PartialEq, Eq)]
pub struct Element {
    /// The resolved element name.
    pub name: Name,
    /// Attributes in document order, minus the `xmlns` declarations, which are
    /// consumed into the resolved names.
    pub attributes: Vec<Attribute>,
    /// Children in document order.
    pub children: Vec<Node>,
    /// 1-based line of the `<` that opened this element.
    pub line: usize,
    /// 1-based column of the `<` that opened this element.
    pub column: usize,
}

/// What went wrong, and where.
#[derive(Debug, PartialEq, Eq)]
pub struct Error {
    /// A description of the failure, without position.
    pub message: String,
    /// 1-based line where the parser stopped.
    pub line: usize,
    /// 1-based column, counted in characters, where the parser stopped.
    pub column: usize,
}

/// The characters of an optional string.
pub open spec fn optional_view(s: Option<String>) -> Option<Seq<char>> {
    match s {
        Some(t) => Some(t@),
        None => None,
    }
}

impl View for Name {
    type V = NameModel;

    open spec fn view(&self) -> NameModel {
        NameModel { namespace: optional_view(self.namespace), local: self.local@ }
    }
}

impl View for Attribute {
    type V = AttributeModel;

    open spec fn view(&self) -> AttributeModel {
        AttributeModel { name: self.name@, value: self.value@ }
    }
}

/// Attributes as models, in order.
pub open spec fn attributes_view(attributes: Seq<Attribute>) -> Seq<AttributeModel> {
    Seq::new(attributes.len(), |i: int| attributes[i]@)
}

/// Nodes as models, in order.
pub open spec fn nodes_view(nodes: Seq<Node>) -> Seq<NodeModel>
    decreases nodes,
{
    if nodes.len() == 0 {
        Seq::empty()
    } else {
        nodes_view(nodes.drop_last()).push(node_view(nodes.last()))
    }
}

/// A node as a model.
pub open spec fn node_view(node: Node) -> NodeModel
    decreases node,
{
    match node {
        Node::Element(e) => NodeModel::Element(element_view(e)),
        Node::Text(t) => NodeModel::Text(t@),
    }
}

/// An element as a model.
pub open spec fn element_view(e: Element) -> ElementModel
    decreases e,
{
    ElementModel {
        name: e.name@,
        attributes: attributes_view(e.attributes@),
        children: nodes_view(e.children@),
        line: e.line as nat,
        column: e.column as nat,
    }
}

impl View for Element {
    type V = ElementModel;

    open spec fn view(&self) -> ElementModel {
        element_view(*self)
    }
}

pub proof fn lemma_nodes_push(nodes: Seq<Node>, node: Node)
    ensures
        nodes_view(nodes.push(node)) == nodes_view(nodes).push(node_view(node)),
{
    assert(nodes.push(node).drop_last() =~= nodes);
}

pub proof fn lemma_nodes_len(nodes: Seq<Node>)
    ensures
        nodes_view(nodes).len() == nodes.len(),
    decreases nodes.len(),
{
    if nodes.len() > 0 {
        lemma_nodes_len(nodes.drop_last());
    }
}

pub proof fn lemma_nodes_index(nodes: Seq<Node>, i: int)
    requires
        0 <= i < nodes.len(),
    ensures
        nodes_view(nodes).len() == nodes.len(),
        nodes_view(nodes)[i] == node_view(nodes[i]),
    decreases nodes.len(),
{
    lemma_nodes_len(nodes);
    lemma_nodes_len(nodes.drop_last());
    if i < nodes.len() - 1 {
        lemma_nodes_index(nodes.drop_last(), i);
    }
}

/// A copy of an optional string.
pub(crate) fn copy_optional(s: &Option<String>) -> (r: Option<String>)
    ensures
        optional_view(r) == optional_view(*s),
{
    match s {
        Some(t) => Some(t.clone()),
        None => None,
    }
}

impl Clone for Name {
    fn clone(&self) -> (r: Name)
        ensures
            r@ == self@,
    {
        Name { namespace: copy_optional(&self.namespace), local: self.local.clone() }
    }
}

impl Clone for Attribute {
    fn clone(&self) -> (r: Attribute)
        ensures
            r@ == self@,
    {
        Attribute { name: self.name.clone(), value: self.value.clone() }
    }
}

impl Clone for Error {
    fn clone(&self) -> (r: Error)
        ensures
            r.message@ == self.message@,
            r.line == self.line,
            r.column == self.column,
    {
        Error { message: self.message.clone(), line: self.line, column: self.column }
    }
}

fn copy_element(e: &Element) -> (r: Element)
    ensures
        element_view(r) == element_view(*e),
    decreases e,
{
    let mut attributes: Vec<Attribute> = Vec::new();
    let mut i: usize = 0;
    while i < e.attributes.len()
        invariant
            i <= e.attributes@.len(),
            attributes@.len() == i,
            forall|k: int| 0 <= k < i ==> (#[trigger] attributes@[k])@ == e.attributes@[k]@,
        decreases e.attributes@.len() - i,
    {
        attributes.push(e.attributes[i].clone());
        i += 1;
    }
    assert(attributes_view(attributes@) =~= attributes_view(e.attributes@));
    let mut children: Vec<Node> = Vec::new();
    let mut i: usize = 0;
    assert(nodes_view(e.children@.take(0)) =~= Seq::<NodeModel>::empty());
    while i < e.children.len()
        invariant
            i <= e.children@.len(),
            nodes_view(children@) == nodes_view(e.children@.take(i as int)),
        decreases e.children@.len() - i,
    {
        let node = match &e.children[i] {
            Node::Element(child) => {
                proof {
                    assert(decreases_to!(e => e.children@[i as int]));
                }
                Node::Element(copy_element(child))
            },
            Node::Text(t) => Node::Text(t.clone()),
        };
        proof {
            lemma_nodes_push(children@, node);
            assert(e.children@.take(i + 1) =~= e.children@.take(i as int).push(
                e.children@[i as int],
            ));
            lemma_nodes_push(e.children@.take(i as int), e.children@[i as int]);
        }
        children.push(node);
        i += 1;
    }
    assert(e.children@.take(i as int) =~= e.children@);
    Element { name: e.name.clone(), attributes, children, line: e.line, column: e.column }
}

impl Clone for Element {
    fn clone(&self) -> (r: Element)
        ensures
            r@ == self@,
    {
        copy_element(self)
    }
}

impl Clone for Node {
    fn clone(&self) -> (r: Node)
        ensures
            node_view(r) == node_view(*self),
    {
        match self {
            Node::Element(e) => Node::Element(copy_element(e)),
            Node::Text(t) => Node::Text(t.clone()),
        }
    }
}

/// Whether `e` reports the fault `f` of the document `s`.
pub open spec fn reports(e: Error, s: Seq<char>, f: Fault) -> bool {
    &&& e.message@ == f.message
    &&& e.line == markup::line_at(s, f.at)
    &&& e.column == markup::column_at(s, f.at)
}

impl Error {
    /// The position and the description, for a reader.
    pub fn to_string(&self) -> (r: String)
        ensures
            r@ == "line "@ + text::decimal(self.line as nat) + ", column "@ + text::decimal(
                self.column as nat,
            ) + ": "@ + self.message@,
    {
        let mut out = "line ".to_owned();
        push_decimal(&mut out, self.line);
        out.append(", column ");
        push_decimal(&mut out, self.column);
        out.append(": ");
        out.append(self.message.as_str());
        out
    }
}

impl Element {
    /// The value of the unprefixed attribute `local`, if present.
    ///
    /// Presentation attributes are always unprefixed, so this is the lookup
    /// import makes. Anything namespaced is found by scanning
    /// [`attributes`](Self::attributes).
    pub fn attribute(&self, local: &str) -> (r: Option<&str>)
        ensures
            match markup::plain(self@, local@) {
                Some(value) => r matches Some(v) && v@ == value,
                None => r is None,
            },
    {
        let ghost all = attributes_view(self.attributes@);
        let mut i: usize = 0;
        while i < self.attributes.len()
            invariant
                i <= self.attributes@.len(),
                all == attributes_view(self.attributes@),
                markup::plain_from(all, i as int, local@) == markup::plain_from(all, 0, local@),
            decreases self.attributes@.len() - i,
        {
            let a = &self.attributes[i];
            if a.name.namespace.is_none() && same(a.name.local.as_str(), local) {
                return Some(a.value.as_str());
            }
            i += 1;
        }
        None
    }
}

/// Parse a whole document and return its root element.
///
/// The first malformedness found is reported with the line and column at which
/// the parser noticed it.
pub fn parse(input: &str) -> (r: Result<Element, Error>)
    requires
        input@.len() < usize::MAX,
    ensures
        match markup::document(markup::normal(input@)) {
            Ok(root) => r matches Ok(e) && e@ == root,
            Err(f) => r matches Err(e) && reports(e, markup::normal(input@), f),
        },
        r matches Ok(e) ==> e.name.local@.len() > 0,
        r matches Err(e) ==> e.line >= 1 && e.column >= 1,
{
    let text = normalise(input);
    let ghost s = text@;
    let mut parser = Parser { input: text, pos: 0, line: 1, column: 1, scopes: Vec::new() };
    proof {
        assert(scopes_view(parser.scopes@) =~= Seq::<Binding>::empty());
        assert forall|e: Error, f: Fault| reports(e, s, f) implies e.line >= 1 && e.column
            >= 1 by {
            markup::lemma_position_positive(s, f.at);
        }
        markup::lemma_misc(s, 0);
    }
    match parser.skip_misc() {
        Ok(_) => {},
        Err(e) => return Err(e),
    }
    proof {
        assert(scopes_view(parser.scopes@) =~= Seq::<Binding>::empty());
        markup::lemma_element(s, parser.pos as int, Seq::empty(), 0);
    }
    let root = match parser.parse_element(0) {
        Ok(root) => root,
        Err(e) => return Err(e),
    };
    match parser.skip_misc() {
        Ok(_) => {},
        Err(e) => return Err(e),
    }
    if parser.pos < parser.input.len() {
        return Err(parser.err("trailing content after the root element".to_owned()));
    }
    Ok(root)
}

/// The document's characters without a byte order mark and with every line end
/// written as a newline. Line ends are defined over the whole document, so this
/// happens once, rather than at every point text is produced.
fn normalise(input: &str) -> (text: Vec<char>)
    ensures
        text@ == markup::normal(input@),
        text@.len() <= input@.len(),
{
    let chars = to_chars(input);
    let start: usize = if chars.len() > 0 && chars[0] == '\u{feff}' {
        1
    } else {
        0
    };
    let ghost body = chars@.skip(start as int);
    let mut text: Vec<char> = Vec::new();
    let mut i: usize = start;
    assert(body =~= chars@ || start == 1);
    while i < chars.len()
        invariant
            start <= i <= chars@.len(),
            start <= 1,
            body == chars@.skip(start as int),
            text@ == markup::line_ends(body, i - start),
            text@.len() <= i,
        decreases chars@.len() - i,
    {
        let c = chars[i];
        if c == '\r' {
            text.push('\n');
        } else if c == '\n' && i > start && chars[i - 1] == '\r' {
        } else {
            text.push(c);
        }
        i += 1;
    }
    text
}

/// A place in the document to blame later.
#[derive(Clone, Copy)]
struct Mark {
    line: usize,
    column: usize,
    at: Ghost<int>,
}

impl Mark {
    spec fn wf(self, s: Seq<char>) -> bool {
        &&& self.line == markup::line_at(s, self.at@)
        &&& self.column == markup::column_at(s, self.at@)
    }

    fn error(self, message: String) -> (e: Error)
        ensures
            e.message == message,
            e.line == self.line,
            e.column == self.column,
    {
        Error { message, line: self.line, column: self.column }
    }
}

/// An attribute as written, before its name is resolved.
struct RawAttribute {
    name: String,
    value: String,
    mark: Mark,
}

/// Attributes as written, as models.
spec fn raw_view(raw: Seq<RawAttribute>) -> Seq<RawAttributeModel> {
    Seq::new(
        raw.len(),
        |i: int|
            RawAttributeModel {
                name: raw[i].name@,
                value: raw[i].value@,
                at: raw[i].mark.at@,
            },
    )
}

/// Bindings as models.
spec fn scopes_view(scopes: Seq<(String, String)>) -> Seq<Binding> {
    Seq::new(scopes.len(), |i: int| (scopes[i].0@, scopes[i].1@))
}

struct Parser {
    input: Vec<char>,
    pos: usize,
    line: usize,
    column: usize,
    /// In-scope namespace declarations as `(prefix, uri)`, innermost last. The
    /// empty prefix is the default namespace, and an empty uri undeclares it.
    scopes: Vec<(String, String)>,
}

impl Parser {
    spec fn wf(self) -> bool {
        &&& self.pos <= self.input@.len() < usize::MAX
        &&& self.line == markup::line_at(self.input@, self.pos as int)
        &&& self.column == markup::column_at(self.input@, self.pos as int)
    }

    /// Only the position differs.
    spec fn moved(self, from: Parser) -> bool {
        &&& self.wf()
        &&& self.input == from.input
        &&& self.scopes@ == from.scopes@
        &&& from.pos <= self.pos
    }

    fn here(&self) -> (m: Mark)
        requires
            self.wf(),
        ensures
            m.wf(self.input@),
            m.at@ == self.pos,
            m.line == self.line,
            m.column == self.column,
    {
        Mark { line: self.line, column: self.column, at: Ghost(self.pos as int) }
    }

    fn err(&self, message: String) -> (e: Error)
        requires
            self.wf(),
        ensures
            reports(e, self.input@, (Fault { message: message@, at: self.pos as int })),
    {
        self.here().error(message)
    }

    fn peek(&self) -> (c: Option<char>)
        requires
            self.wf(),
        ensures
            c == (if self.pos < self.input@.len() {
                Some(self.input@[self.pos as int])
            } else {
                None
            }),
    {
        if self.pos < self.input.len() {
            Some(self.input[self.pos])
        } else {
            None
        }
    }

    fn is_at(&self, c: char) -> (r: bool)
        requires
            self.wf(),
        ensures
            r == markup::is_at(self.input@, self.pos as int, c),
    {
        self.pos < self.input.len() && self.input[self.pos] == c
    }

    fn starts_with(&self, p: &str) -> (r: bool)
        requires
            self.wf(),
        ensures
            r == markup::at(self.input@, self.pos as int, p@),
    {
        let pattern = to_chars(p);
        self.holds(self.pos, &pattern)
    }

    /// Whether `pattern` is written at `from`.
    fn holds(&self, from: usize, pattern: &Vec<char>) -> (r: bool)
        requires
            self.wf(),
            from <= self.input@.len(),
        ensures
            r == markup::at(self.input@, from as int, pattern@),
    {
        if pattern.len() > self.input.len() - from {
            return false;
        }
        let mut i: usize = 0;
        while i < pattern.len()
            invariant
                self.wf(),
                i <= pattern@.len(),
                from + pattern@.len() <= self.input@.len(),
                forall|k: int| 0 <= k < i ==> self.input@[from + k] == pattern@[k],
            decreases pattern@.len() - i,
        {
            if self.input[from + i] != pattern[i] {
                assert(self.input@.subrange(from as int, from + pattern@.len())[i as int]
                    != pattern@[i as int]);
                return false;
            }
            i += 1;
        }
        assert(self.input@.subrange(from as int, from + pattern@.len()) =~= pattern@);
        true
    }

    /// Consume one character, keeping line and column current.
    fn advance(&mut self)
        requires
            old(self).wf(),
            old(self).pos < old(self).input@.len(),
        ensures
            final(self).moved(*old(self)),
            final(self).pos == old(self).pos + 1,
    {
        proof {
            markup::lemma_position_bounds(self.input@, self.pos as int);
        }
        if self.input[self.pos] == '\n' {
            self.line += 1;
            self.column = 1;
        } else {
            self.column += 1;
        }
        self.pos += 1;
    }

    /// Consume everything up to `to`.
    fn advance_to(&mut self, to: usize)
        requires
            old(self).wf(),
            old(self).pos <= to <= old(self).input@.len(),
        ensures
            final(self).moved(*old(self)),
            final(self).pos == to,
    {
        while self.pos < to
            invariant
                self.moved(*old(self)),
                self.pos <= to <= self.input@.len(),
            decreases to - self.pos,
        {
            self.advance();
        }
    }

    /// Consume `p` if it comes next.
    fn eat(&mut self, p: &str) -> (r: bool)
        requires
            old(self).wf(),
        ensures
            final(self).moved(*old(self)),
            r == markup::at(old(self).input@, old(self).pos as int, p@),
            final(self).pos == old(self).pos + (if r {
                p@.len() as int
            } else {
                0
            }),
    {
        let pattern = to_chars(p);
        if self.holds(self.pos, &pattern) {
            let to: usize = self.pos + pattern.len();
            self.advance_to(to);
            true
        } else {
            false
        }
    }

    fn skip_whitespace(&mut self)
        requires
            old(self).wf(),
        ensures
            final(self).moved(*old(self)),
            final(self).pos == markup::past_blank(old(self).input@, old(self).pos as int),
    {
        while self.pos < self.input.len() && (self.input[self.pos] == ' ' || self.input[self.pos]
            == '\t' || self.input[self.pos] == '\n' || self.input[self.pos] == '\r')
            invariant
                self.moved(*old(self)),
                markup::past_blank(self.input@, self.pos as int) == markup::past_blank(
                    old(self).input@,
                    old(self).pos as int,
                ),
            decreases self.input@.len() - self.pos,
        {
            self.advance();
        }
    }

    /// Consume up to and including `end`, returning what came before it.
    fn take_until(&mut self, end: &str, what: &str) -> (r: Result<String, Error>)
        requires
            old(self).wf(),
        ensures
            final(self).moved(*old(self)),
            match markup::until(old(self).input@, old(self).pos as int, end@, what@) {
                Ok((inner, j)) => r matches Ok(t) && t@ == inner && final(self).pos == j,
                Err(f) => r matches Err(e) && reports(e, old(self).input@, f),
            },
    {
        let pattern = to_chars(end);
        let start: usize = self.pos;
        let mut i: usize = start;
        loop
            invariant
                self == old(self),
                self.wf(),
                start == self.pos,
                start <= i <= self.input@.len(),
                pattern@ == end@,
                markup::find(self.input@, start as int, end@) == markup::find(
                    self.input@,
                    i as int,
                    end@,
                ),
            decreases self.input@.len() - i,
        {
            if self.holds(i, &pattern) {
                let inner = from_chars(&self.input, start, i);
                self.advance_to(i + pattern.len());
                return Ok(inner);
            }
            if i == self.input.len() {
                reveal_with_fuel(markup::find, 2);
                let mut message = "unterminated ".to_owned();
                message.append(what);
                return Err(self.err(message));
            }
            i += 1;
        }
    }

    /// Everything that may appear outside the root element: white space,
    /// comments, processing instructions and the doctype, in any order.
    fn skip_misc(&mut self) -> (r: Result<(), Error>)
        requires
            old(self).wf(),
        ensures
            final(self).moved(*old(self)),
            match markup::misc(old(self).input@, old(self).pos as int) {
                Ok(j) => r is Ok && final(self).pos == j,
                Err(f) => r matches Err(e) && reports(e, old(self).input@, f),
            },
    {
        loop
            invariant
                self.moved(*old(self)),
                markup::misc(self.input@, self.pos as int) == markup::misc(
                    old(self).input@,
                    old(self).pos as int,
                ),
            decreases self.input@.len() - self.pos,
        {
            proof {
                markup::lemma_past_blank(self.input@, self.pos as int);
                reveal_strlit("-->");
                reveal_strlit("?>");
            }
            let ghost before = *self;
            self.skip_whitespace();
            let ghost j = self.pos as int;
            if self.eat("<!--") {
                proof {
                    markup::lemma_find(self.input@, self.pos as int, "-->"@);
                }
                match self.take_until("-->", "comment") {
                    Ok(_) => {},
                    Err(e) => return Err(e),
                }
            } else if self.eat("<?") {
                proof {
                    markup::lemma_find(self.input@, self.pos as int, "?>"@);
                }
                match self.take_until("?>", "processing instruction") {
                    Ok(_) => {},
                    Err(e) => return Err(e),
                }
            } else if self.eat("<!DOCTYPE") {
                proof {
                    markup::lemma_doctype(self.input@, self.pos as int, false);
                }
                match self.skip_doctype() {
                    Ok(_) => {},
                    Err(e) => return Err(e),
                }
            } else {
                return Ok(());
            }
        }
    }

    /// Skip the rest of a doctype declaration, internal subset included.
    /// Nothing inside is interpreted.
    fn skip_doctype(&mut self) -> (r: Result<(), Error>)
        requires
            old(self).wf(),
        ensures
            final(self).moved(*old(self)),
            match markup::doctype(old(self).input@, old(self).pos as int, false) {
                Ok(j) => r is Ok && final(self).pos == j,
                Err(f) => r matches Err(e) && reports(e, old(self).input@, f),
            },
    {
        let mut in_subset = false;
        loop
            invariant
                self.moved(*old(self)),
                markup::doctype(self.input@, self.pos as int, in_subset) == markup::doctype(
                    old(self).input@,
                    old(self).pos as int,
                    false,
                ),
            decreases self.input@.len() - self.pos,
        {
            match self.peek() {
                None => {
                    return Err(self.err("unterminated doctype declaration".to_owned()));
                },
                Some('"') => {
                    self.advance();
                    proof {
                        reveal_strlit("\"");
                        assert("\""@ =~= seq!['"']);
                        markup::lemma_find(self.input@, self.pos as int, "\""@);
                    }
                    match self.take_until("\"", "literal in the doctype") {
                        Ok(_) => {},
                        Err(e) => return Err(e),
                    }
                },
                Some('\'') => {
                    self.advance();
                    proof {
                        reveal_strlit("'");
                        assert("'"@ =~= seq!['\'']);
                        markup::lemma_find(self.input@, self.pos as int, "'"@);
                    }
                    match self.take_until("'", "literal in the doctype") {
                        Ok(_) => {},
                        Err(e) => return Err(e),
                    }
                },
                Some(c) => {
                    self.advance();
                    if c == '[' {
                        in_subset = true;
                    } else if c == ']' {
                        in_subset = false;
                    } else if c == '>' && !in_subset {
                        return Ok(());
                    }
                },
            }
        }
    }

    /// Scan a qualified name and return it raw, prefix included.
    fn scan_qname(&mut self) -> (r: Result<String, Error>)
        requires
            old(self).wf(),
        ensures
            final(self).moved(*old(self)),
            match markup::qname(old(self).input@, old(self).pos as int) {
                Ok((name, j)) => r matches Ok(t) && t@ == name && final(self).pos == j,
                Err(f) => r matches Err(e) && reports(e, old(self).input@, f),
            },
    {
        let start: usize = self.pos;
        match self.peek() {
            Some(c) => if is_name_start(c) {
                self.advance();
            } else {
                return Err(self.err("expected a name".to_owned()));
            },
            None => {
                return Err(self.err("expected a name".to_owned()));
            },
        }
        while self.pos < self.input.len() && is_name_char(self.input[self.pos])
            invariant
                self.moved(*old(self)),
                start < self.pos,
                markup::name_end(self.input@, self.pos as int) == markup::name_end(
                    self.input@,
                    start + 1,
                ),
            decreases self.input@.len() - self.pos,
        {
            self.advance();
        }
        Ok(from_chars(&self.input, start, self.pos))
    }

    /// Split a qualified name into `(prefix, local)`; the prefix is empty when
    /// there is none.
    fn split_qname(&self, qname: &String) -> (r: Result<(String, String), Error>)
        requires
            self.wf(),
        ensures
            match markup::split_qname(qname@) {
                Some((prefix, local)) => r matches Ok((p, l)) && p@ == prefix && l@ == local,
                None => r matches Err(e) && reports(
                    e,
                    self.input@,
                    markup::bad_qname(qname@, self.pos as int),
                ),
            },
    {
        let chars = to_chars(qname.as_str());
        let n: usize = chars.len();
        let mut k: usize = 0;
        while k < n && chars[k] != ':'
            invariant
                k <= n == chars@.len(),
                chars@ == qname@,
                forall|i: int| 0 <= i < k ==> chars@[i] != ':',
            decreases n - k,
        {
            k += 1;
        }
        if k == n {
            return Ok((String::new(), qname.clone()));
        }
        proof {
            qname@.index_of_first_ensures(':');
            let first = qname@.index_of_first(':')->0;
            assert(chars@[k as int] == ':');
            assert(first == k);
        }
        let mut colon = false;
        let mut i: usize = k + 1;
        while i < n
            invariant
                k < i <= n == chars@.len(),
                colon == exists|j: int| k < j < i && chars@[j] == ':',
            decreases n - i,
        {
            if chars[i] == ':' {
                colon = true;
            }
            i += 1;
        }
        let ghost local = qname@.skip(k + 1);
        proof {
            if colon {
                let j = choose|j: int| k < j < i && chars@[j] == ':';
                assert(local[j - k - 1] == ':');
                assert(local.contains(':'));
            } else if local.contains(':') {
                let j = choose|j: int| 0 <= j < local.len() && local[j] == ':';
                assert(chars@[j + k + 1] == ':');
            }
        }
        if k > 0 && k + 1 < n && !colon {
            let p = from_chars(&chars, 0, k);
            let l = from_chars(&chars, k + 1, n);
            assert(qname@.take(k as int) =~= p@);
            assert(local =~= l@);
            Ok((p, l))
        } else {
            let mut message = "`".to_owned();
            message.append(qname.as_str());
            message.append("` is not a valid qualified name");
            Err(self.err(message))
        }
    }

    fn lookup(&self, prefix: &str) -> (r: Option<String>)
        ensures
            optional_view(r) == markup::lookup(scopes_view(self.scopes@), prefix@),
    {
        if same(prefix, "xml") {
            return Some(XML_NS.to_owned());
        }
        let ghost all = scopes_view(self.scopes@);
        let mut n: usize = self.scopes.len();
        while n > 0
            invariant
                n <= self.scopes@.len(),
                all == scopes_view(self.scopes@),
                prefix@ != "xml"@,
                markup::binding(all, n as int, prefix@) == markup::binding(
                    all,
                    all.len() as int,
                    prefix@,
                ),
            decreases n,
        {
            n -= 1;
            if same(self.scopes[n].0.as_str(), prefix) {
                let uri = self.scopes[n].1.clone();
                if uri.as_str().is_empty() {
                    return None;
                }
                return Some(uri);
            }
        }
        None
    }

    /// Resolve a qualified name against the in-scope declarations.
    ///
    /// `default_ns` is false for attributes: an unprefixed attribute is in no
    /// namespace, never in the default one.
    fn resolve(&self, qname: &String, default_ns: bool, mark: Mark) -> (r: Result<Name, Error>)
        requires
            self.wf(),
            mark.wf(self.input@),
        ensures
            match markup::resolve(
                scopes_view(self.scopes@),
                qname@,
                default_ns,
                mark.at@,
                self.pos as int,
            ) {
                Ok(name) => r matches Ok(n) && n@ == name,
                Err(f) => r matches Err(e) && reports(e, self.input@, f),
            },
    {
        let (prefix, local) = match self.split_qname(qname) {
            Ok(parts) => parts,
            Err(e) => return Err(e),
        };
        let namespace = if prefix.as_str().is_empty() {
            if default_ns {
                proof {
                    reveal_strlit("");
                    assert(""@ =~= Seq::<char>::empty());
                }
                self.lookup("")
            } else {
                None
            }
        } else {
            match self.lookup(prefix.as_str()) {
                Some(uri) => Some(uri),
                None => {
                    let mut message = "unbound namespace prefix `".to_owned();
                    message.append(prefix.as_str());
                    message.append("`");
                    return Err(mark.error(message));
                },
            }
        };
        Ok(Name { namespace, local })
    }

    /// A quoted attribute value, expanded and normalised.
    fn scan_attribute_value(&mut self) -> (r: Result<String, Error>)
        requires
            old(self).wf(),
        ensures
            final(self).moved(*old(self)),
            match markup::value(old(self).input@, old(self).pos as int) {
                Ok((v, j)) => r matches Ok(t) && t@ == v && final(self).pos == j,
                Err(f) => r matches Err(e) && reports(e, old(self).input@, f),
            },
    {
        let quote = match self.peek() {
            Some('"') => '"',
            Some('\'') => '\'',
            _ => {
                return Err(self.err("expected a quoted attribute value".to_owned()));
            },
        };
        self.advance();
        let value = match self.scan_chars(Some(quote)) {
            Ok(t) => t,
            Err(e) => return Err(e),
        };
        if !self.is_at(quote) {
            return Err(self.err("unterminated attribute value".to_owned()));
        }
        self.advance();
        Ok(value)
    }

    /// Character data with references expanded, stopping at `<` or, inside an
    /// attribute value, at the closing `quote`.
    fn scan_chars(&mut self, quote: Option<char>) -> (r: Result<String, Error>)
        requires
            old(self).wf(),
        ensures
            final(self).moved(*old(self)),
            match markup::chars(old(self).input@, old(self).pos as int, quote) {
                Ok((text, j)) => r matches Ok(t) && t@ == text && final(self).pos == j,
                Err(f) => r matches Err(e) && reports(e, old(self).input@, f),
            },
    {
        let mut out = String::new();
        let ghost whole = markup::chars(self.input@, self.pos as int, quote);
        loop
            invariant
                self.moved(*old(self)),
                whole == markup::chars(old(self).input@, old(self).pos as int, quote),
                match markup::chars(self.input@, self.pos as int, quote) {
                    Ok((t, j)) => whole == Ok::<(Seq<char>, int), Fault>((out@ + t, j)),
                    Err(f) => whole == Err::<(Seq<char>, int), Fault>(f),
                },
            decreases self.input@.len() - self.pos,
        {
            let ghost rest = markup::chars(self.input@, self.pos as int, quote);
            let ghost sofar = out@;
            let c = match self.peek() {
                None => {
                    assert(out@ + Seq::<char>::empty() =~= out@);
                    return Ok(out);
                },
                Some(c) => c,
            };
            if is_some_of(quote, c) {
                assert(out@ + Seq::<char>::empty() =~= out@);
                return Ok(out);
            }
            if c == '<' {
                if quote.is_some() {
                    return Err(
                        self.err("`<` is not allowed in an attribute value".to_owned()),
                    );
                }
                assert(out@ + Seq::<char>::empty() =~= out@);
                return Ok(out);
            }
            let ghost mut read: char = c;
            if c == '&' {
                proof {
                    markup::lemma_reference(self.input@, self.pos as int);
                }
                match self.expand_reference() {
                    Ok(expanded) => {
                        out.push(expanded);
                        proof {
                            read = expanded;
                        }
                    },
                    Err(e) => return Err(e),
                }
            } else if quote.is_some() && (c == '\t' || c == '\n') {
                // A literal tab or newline becomes a space; the same character
                // written as a reference survives.
                out.push(' ');
                self.advance();
                proof {
                    read = ' ';
                }
            } else if c < ' ' && c != '\t' && c != '\n' && c != '\r' {
                return Err(self.err("control character in character data".to_owned()));
            } else {
                out.push(c);
                self.advance();
            }
            proof {
                let next = markup::chars(self.input@, self.pos as int, quote);
                assert(rest == markup::before(read, next));
                if let Ok((t, j)) = next {
                    assert(sofar + (seq![read] + t) =~= sofar.push(read) + t);
                }
            }
        }
    }

    /// Expand one `&...;`.
    ///
    /// Only the five predefined entities and character references resolve, and
    /// each yields one character.
    fn expand_reference(&mut self) -> (r: Result<char, Error>)
        requires
            old(self).wf(),
            markup::is_at(old(self).input@, old(self).pos as int, '&'),
        ensures
            final(self).moved(*old(self)),
            match markup::reference(old(self).input@, old(self).pos as int) {
                Ok((c, j)) => r == Ok::<char, Error>(c) && final(self).pos == j,
                Err(f) => r matches Err(e) && reports(e, old(self).input@, f),
            },
    {
        let mark = self.here();
        self.advance();
        if self.is_at('#') {
            self.advance();
            let hex = self.is_at('x');
            if hex {
                self.advance();
            }
            let start: usize = self.pos;
            let value = self.scan_code(hex);
            if self.pos == start || !self.is_at(';') {
                return Err(mark.error("malformed character reference".to_owned()));
            }
            self.advance();
            match char::from_u32(value) {
                Some(c) => {
                    assert(value as nat as char == c);
                    if is_xml_char(c) {
                        return Ok(c);
                    }
                },
                None => {},
            }
            let mut message = "character reference to ".to_owned();
            push_decimal(&mut message, value as usize);
            message.append(" is not a valid XML character");
            return Err(mark.error(message));
        }
        let name = match self.scan_qname() {
            Ok(name) => name,
            Err(e) => return Err(e),
        };
        if !self.is_at(';') {
            let mut message = "unterminated entity reference `&".to_owned();
            message.append(name.as_str());
            message.append("`");
            return Err(mark.error(message));
        }
        self.advance();
        if same(name.as_str(), "amp") {
            return Ok('&');
        }
        if same(name.as_str(), "lt") {
            return Ok('<');
        }
        if same(name.as_str(), "gt") {
            return Ok('>');
        }
        if same(name.as_str(), "quot") {
            return Ok('"');
        }
        if same(name.as_str(), "apos") {
            return Ok('\'');
        }
        let mut message = "unknown entity `&".to_owned();
        message.append(name.as_str());
        message.append(";`");
        Err(mark.error(message))
    }

    /// The digits of a character reference. Saturating, so a run of a thousand
    /// digits stays a number rather than wrapping into a valid code point.
    fn scan_code(&mut self, hex: bool) -> (value: u32)
        requires
            old(self).wf(),
        ensures
            final(self).moved(*old(self)),
            final(self).pos == markup::digits_end(old(self).input@, old(self).pos as int, hex),
            value == markup::saturated(
                markup::digits_value(
                    old(self).input@,
                    old(self).pos as int,
                    final(self).pos as int,
                    hex,
                ),
            ),
    {
        let base: u64 = if hex {
            16
        } else {
            10
        };
        let ghost start = self.pos as int;
        let mut value: u64 = 0;
        while self.pos < self.input.len() && is_digit(self.input[self.pos], hex)
            invariant
                self.moved(*old(self)),
                start == old(self).pos,
                base == (if hex {
                    16int
                } else {
                    10int
                }),
                value == markup::saturated(
                    markup::digits_value(self.input@, start, self.pos as int, hex),
                ),
                markup::digits_end(self.input@, self.pos as int, hex) == markup::digits_end(
                    self.input@,
                    start,
                    hex,
                ),
            decreases self.input@.len() - self.pos,
        {
            let digit: u64 = digit_value(self.input[self.pos]);
            let ghost exact = markup::digits_value(self.input@, start, self.pos as int, hex);
            let next: u64 = value * base + digit;
            value = if next > u32::MAX as u64 {
                u32::MAX as u64
            } else {
                next
            };
            self.advance();
            assert(markup::digits_value(self.input@, start, self.pos as int, hex) == exact * base
                + digit);
        }
        value as u32
    }

    /// One attribute as written: a name, `=` and a quoted value.
    fn scan_attribute(&mut self) -> (r: Result<RawAttribute, Error>)
        requires
            old(self).wf(),
        ensures
            final(self).moved(*old(self)),
            match markup::attribute(old(self).input@, old(self).pos as int) {
                Ok((m, j)) => r matches Ok(a) && final(self).pos == j && a.name@ == m.name
                    && a.value@ == m.value && a.mark.at@ == m.at && a.mark.wf(old(self).input@),
                Err(f) => r matches Err(e) && reports(e, old(self).input@, f),
            },
    {
        let mark = self.here();
        let name = match self.scan_qname() {
            Ok(name) => name,
            Err(e) => return Err(e),
        };
        self.skip_whitespace();
        if !self.is_at('=') {
            let mut message = "expected `=` after attribute `".to_owned();
            message.append(name.as_str());
            message.append("`");
            return Err(self.err(message));
        }
        self.advance();
        self.skip_whitespace();
        match self.scan_attribute_value() {
            Ok(value) => Ok(RawAttribute { name, value, mark }),
            Err(e) => Err(e),
        }
    }

    /// Take a namespace declaration into scope, or keep any other attribute.
    fn declare(&mut self, raw: &mut Vec<RawAttribute>, a: RawAttribute) -> (r: Result<(), Error>)
        requires
            old(self).wf(),
            a.mark.wf(old(self).input@),
            forall|i: int|
                0 <= i < old(raw)@.len() ==> (#[trigger] old(raw)@[i]).mark.wf(old(self).input@),
        ensures
            final(self).wf(),
            final(self).input == old(self).input,
            final(self).pos == old(self).pos,
            r is Ok ==> old(self).scopes@.is_prefix_of(final(self).scopes@),
            forall|i: int|
                0 <= i < final(raw)@.len() ==> (#[trigger] final(raw)@[i]).mark.wf(
                    old(self).input@,
                ),
            match markup::declare(
                TagModel {
                    scopes: scopes_view(old(self).scopes@),
                    raw: raw_view(old(raw)@),
                    empty: false,
                },
                RawAttributeModel { name: a.name@, value: a.value@, at: a.mark.at@ },
                old(self).pos as int,
            ) {
                Ok(tag) => r is Ok && tag == (TagModel {
                    scopes: scopes_view(final(self).scopes@),
                    raw: raw_view(final(raw)@),
                    empty: false,
                }),
                Err(f) => r matches Err(e) && reports(e, old(self).input@, f),
            },
    {
        let (prefix, local) = match self.split_qname(&a.name) {
            Ok(parts) => parts,
            Err(e) => return Err(e),
        };
        if prefix.as_str().is_empty() && same(local.as_str(), "xmlns") {
            self.scopes.push((String::new(), a.value));
            assert(scopes_view(self.scopes@) =~= scopes_view(old(self).scopes@).push(
                (Seq::empty(), a.value@),
            ));
        } else if same(prefix.as_str(), "xmlns") {
            // Both reserved prefixes are fixed.
            if same(local.as_str(), "xmlns") || (same(local.as_str(), "xml") && !same(
                a.value.as_str(),
                XML_NS,
            )) {
                let mut message = "the prefix `".to_owned();
                message.append(local.as_str());
                message.append("` cannot be bound to `");
                message.append(a.value.as_str());
                message.append("`");
                return Err(a.mark.error(message));
            }
            if a.value.as_str().is_empty() {
                let mut message = "cannot undeclare the namespace prefix `".to_owned();
                message.append(local.as_str());
                message.append("`");
                return Err(a.mark.error(message));
            }
            self.scopes.push((local, a.value));
            assert(scopes_view(self.scopes@) =~= scopes_view(old(self).scopes@).push(
                (local@, a.value@),
            ));
        } else {
            let ghost model = RawAttributeModel {
                name: a.name@,
                value: a.value@,
                at: a.mark.at@,
            };
            raw.push(a);
            assert(raw_view(raw@) =~= raw_view(old(raw)@).push(model));
        }
        Ok(())
    }

    /// The rest of a start tag: attributes as written, and whether the element
    /// is empty. Declarations are taken into scope, because one made on an
    /// element holds for the element's own name and attributes.
    fn scan_start_tag(&mut self, name: &String) -> (r: Result<(Vec<RawAttribute>, bool), Error>)
        requires
            old(self).wf(),
        ensures
            final(self).wf(),
            final(self).input == old(self).input,
            final(self).pos >= old(self).pos,
            match markup::start_tag(
                old(self).input@,
                old(self).pos as int,
                name@,
                TagModel {
                    scopes: scopes_view(old(self).scopes@),
                    raw: Seq::empty(),
                    empty: false,
                },
            ) {
                Ok((tag, j)) => r matches Ok((raw, empty)) && final(self).pos == j
                    && old(self).scopes@.is_prefix_of(final(self).scopes@) && tag == (TagModel {
                    scopes: scopes_view(final(self).scopes@),
                    raw: raw_view(raw@),
                    empty,
                }) && forall|i: int|
                    0 <= i < raw@.len() ==> (#[trigger] raw@[i]).mark.wf(old(self).input@),
                Err(f) => r matches Err(e) && reports(e, old(self).input@, f),
            },
    {
        let mut raw: Vec<RawAttribute> = Vec::new();
        assert(raw_view(raw@) =~= Seq::<RawAttributeModel>::empty());
        let ghost whole = markup::start_tag(
            self.input@,
            self.pos as int,
            name@,
            TagModel { scopes: scopes_view(self.scopes@), raw: Seq::empty(), empty: false },
        );
        loop
            invariant
                self.wf(),
                self.input == old(self).input,
                self.pos >= old(self).pos,
                old(self).scopes@.is_prefix_of(self.scopes@),
                forall|i: int|
                    0 <= i < raw@.len() ==> (#[trigger] raw@[i]).mark.wf(old(self).input@),
                whole == markup::start_tag(
                    old(self).input@,
                    old(self).pos as int,
                    name@,
                    TagModel {
                        scopes: scopes_view(old(self).scopes@),
                        raw: Seq::empty(),
                        empty: false,
                    },
                ),
                whole == markup::start_tag(
                    self.input@,
                    self.pos as int,
                    name@,
                    TagModel {
                        scopes: scopes_view(self.scopes@),
                        raw: raw_view(raw@),
                        empty: false,
                    },
                ),
            decreases self.input@.len() - self.pos,
        {
            let before: usize = self.pos;
            self.skip_whitespace();
            if self.eat("/>") {
                return Ok((raw, true));
            }
            if self.is_at('>') {
                self.advance();
                return Ok((raw, false));
            }
            if self.pos == before {
                let mut message = "expected whitespace or `>` in the `".to_owned();
                message.append(name.as_str());
                message.append("` start tag");
                return Err(self.err(message));
            }
            proof {
                markup::lemma_attribute(self.input@, self.pos as int);
            }
            let attribute = match self.scan_attribute() {
                Ok(a) => a,
                Err(e) => return Err(e),
            };
            match self.declare(&mut raw, attribute) {
                Ok(_) => {},
                Err(e) => return Err(e),
            }
        }
    }

    /// The attributes of a start tag with their names resolved.
    fn resolve_all(&self, raw: Vec<RawAttribute>) -> (r: Result<Vec<Attribute>, Error>)
        requires
            self.wf(),
            forall|i: int| 0 <= i < raw@.len() ==> (#[trigger] raw@[i]).mark.wf(self.input@),
        ensures
            match markup::resolve_all(
                scopes_view(self.scopes@),
                raw_view(raw@),
                raw@.len() as int,
                self.pos as int,
            ) {
                Ok(attributes) => r matches Ok(a) && attributes_view(a@) == attributes,
                Err(f) => r matches Err(e) && reports(e, self.input@, f),
            },
    {
        let mut attributes: Vec<Attribute> = Vec::new();
        let n: usize = raw.len();
        let mut i: usize = 0;
        assert(attributes_view(attributes@) =~= Seq::<AttributeModel>::empty());
        while i < n
            invariant
                self.wf(),
                i <= n == raw@.len(),
                forall|i: int| 0 <= i < raw@.len() ==> (#[trigger] raw@[i]).mark.wf(self.input@),
                markup::resolve_all(
                    scopes_view(self.scopes@),
                    raw_view(raw@),
                    i as int,
                    self.pos as int,
                ) == Ok::<Seq<AttributeModel>, Fault>(attributes_view(attributes@)),
            decreases n - i,
        {
            let ghost done = attributes_view(attributes@);
            let name = match self.resolve(&raw[i].name, false, raw[i].mark) {
                Ok(name) => name,
                Err(e) => {
                    proof {
                        lemma_resolve_all_stops(
                            scopes_view(self.scopes@),
                            raw_view(raw@),
                            i as int,
                            n as int,
                            self.pos as int,
                        );
                    }
                    return Err(e);
                },
            };
            if has_name(&attributes, &name) {
                let mut message = "duplicate attribute `".to_owned();
                message.append(raw[i].name.as_str());
                message.append("`");
                proof {
                    lemma_resolve_all_stops(
                        scopes_view(self.scopes@),
                        raw_view(raw@),
                        i as int,
                        n as int,
                        self.pos as int,
                    );
                }
                return Err(raw[i].mark.error(message));
            }
            attributes.push(Attribute { name, value: raw[i].value.clone() });
            proof {
                assert(attributes_view(attributes@) =~= done.push(
                    AttributeModel { name: name@, value: raw@[i as int].value@ },
                ));
            }
            i += 1;
        }
        Ok(attributes)
    }

    fn parse_element(&mut self, depth: u32) -> (r: Result<Element, Error>)
        requires
            old(self).wf(),
            depth <= MAX_DEPTH + 1,
        ensures
            final(self).input == old(self).input,
            match markup::element(
                old(self).input@,
                old(self).pos as int,
                scopes_view(old(self).scopes@),
                depth as nat,
            ) {
                Ok((m, j)) => r matches Ok(e) && e@ == m && final(self).pos == j && final(self).moved(*old(self)),
                Err(f) => r matches Err(e) && reports(e, old(self).input@, f),
            },
        decreases old(self).input@.len() - old(self).pos, 0nat,
    {
        if depth > MAX_DEPTH {
            let mut message = "elements nested more than ".to_owned();
            push_decimal(&mut message, MAX_DEPTH as usize);
            message.append(" deep");
            return Err(self.err(message));
        }
        let mark = self.here();
        if !self.is_at('<') {
            return Err(self.err("expected an element".to_owned()));
        }
        self.advance();
        let qname = match self.scan_qname() {
            Ok(name) => name,
            Err(e) => return Err(e),
        };
        let scope_base: usize = self.scopes.len();
        let (raw, empty) = match self.scan_start_tag(&qname) {
            Ok(tag) => tag,
            Err(e) => return Err(e),
        };
        let ghost inner = self.scopes@;
        let name = match self.resolve(&qname, true, mark) {
            Ok(name) => name,
            Err(e) => return Err(e),
        };
        let attributes = match self.resolve_all(raw) {
            Ok(attributes) => attributes,
            Err(e) => return Err(e),
        };
        let children = if empty {
            let none: Vec<Node> = Vec::new();
            assert(nodes_view(none@) =~= Seq::<NodeModel>::empty());
            none
        } else {
            match self.parse_children(&qname, mark, depth) {
                Ok(children) => children,
                Err(e) => return Err(e),
            }
        };
        self.scopes.truncate(scope_base);
        assert(self.scopes@ =~= old(self).scopes@);
        Ok(Element { name, attributes, children, line: mark.line, column: mark.column })
    }

    /// Content up to and including the end tag matching `qname`.
    fn parse_children(&mut self, qname: &String, open: Mark, depth: u32) -> (r: Result<
        Vec<Node>,
        Error,
    >)
        requires
            old(self).wf(),
            open.wf(old(self).input@),
            depth <= MAX_DEPTH,
        ensures
            final(self).input == old(self).input,
            match markup::content(
                old(self).input@,
                old(self).pos as int,
                qname@,
                open.at@,
                scopes_view(old(self).scopes@),
                depth as nat,
                Seq::empty(),
            ) {
                Ok((m, j)) => r matches Ok(nodes) && nodes_view(nodes@) == m && final(self).pos
                    == j && final(self).moved(*old(self)),
                Err(f) => r matches Err(e) && reports(e, old(self).input@, f),
            },
        decreases old(self).input@.len() - old(self).pos, 1nat,
    {
        let mut children: Vec<Node> = Vec::new();
        let ghost scopes = scopes_view(self.scopes@);
        let ghost whole = markup::content(
            self.input@,
            self.pos as int,
            qname@,
            open.at@,
            scopes,
            depth as nat,
            Seq::empty(),
        );
        assert(nodes_view(children@) =~= Seq::<NodeModel>::empty());
        loop
            invariant
                self.moved(*old(self)),
                open.wf(self.input@),
                depth <= MAX_DEPTH,
                scopes == scopes_view(self.scopes@),
                scopes == scopes_view(old(self).scopes@),
                whole == markup::content(
                    old(self).input@,
                    old(self).pos as int,
                    qname@,
                    open.at@,
                    scopes,
                    depth as nat,
                    Seq::empty(),
                ),
                whole == markup::content(
                    self.input@,
                    self.pos as int,
                    qname@,
                    open.at@,
                    scopes,
                    depth as nat,
                    nodes_view(children@),
                ),
            decreases self.input@.len() - self.pos,
        {
            let ghost start = self.pos as int;
            let ghost sofar = nodes_view(children@);
            if self.pos == self.input.len() {
                let mut message = "unexpected end of input: ".to_owned();
                push_opened(&mut message, qname, open, Ghost(self.input@));
                message.append(" is never closed");
                return Err(self.err(message));
            }
            if self.eat("</") {
                match self.parse_end_tag(qname, open) {
                    Ok(_) => {
                        return Ok(children);
                    },
                    Err(e) => return Err(e),
                }
            }
            if self.eat("<![CDATA[") {
                proof {
                    markup::lemma_find(self.input@, self.pos as int, "]]>"@);
                    reveal_strlit("]]>");
                }
                match self.take_until("]]>", "CDATA section") {
                    Ok(text) => push_text(&mut children, text),
                    Err(e) => return Err(e),
                }
            } else if self.eat("<!--") {
                proof {
                    markup::lemma_find(self.input@, self.pos as int, "-->"@);
                    reveal_strlit("-->");
                }
                match self.take_until("-->", "comment") {
                    Ok(_) => {},
                    Err(e) => return Err(e),
                }
            } else if self.eat("<?") {
                proof {
                    markup::lemma_find(self.input@, self.pos as int, "?>"@);
                    reveal_strlit("?>");
                }
                match self.take_until("?>", "processing instruction") {
                    Ok(_) => {},
                    Err(e) => return Err(e),
                }
            } else if self.starts_with("<!") {
                return Err(
                    self.err("declarations are only allowed before the root element".to_owned()),
                );
            } else if self.is_at('<') {
                proof {
                    markup::lemma_element(self.input@, start, scopes, (depth + 1) as nat);
                }
                match self.parse_element(depth + 1) {
                    Ok(child) => {
                        proof {
                            lemma_nodes_push(children@, Node::Element(child));
                        }
                        children.push(Node::Element(child));
                    },
                    Err(e) => return Err(e),
                }
            } else {
                proof {
                    markup::lemma_chars_progress(self.input@, start);
                }
                match self.scan_chars(None) {
                    Ok(text) => push_text(&mut children, text),
                    Err(e) => return Err(e),
                }
            }
        }
    }

    /// The rest of the end tag of the element `qname` opened at `open`.
    fn parse_end_tag(&mut self, qname: &String, open: Mark) -> (r: Result<(), Error>)
        requires
            old(self).wf(),
            open.wf(old(self).input@),
        ensures
            final(self).moved(*old(self)),
            match markup::end_tag(old(self).input@, old(self).pos as int, qname@, open.at@) {
                Ok(j) => r is Ok && final(self).pos == j,
                Err(f) => r matches Err(e) && reports(e, old(self).input@, f),
            },
    {
        let mark = self.here();
        let end = match self.scan_qname() {
            Ok(end) => end,
            Err(e) => return Err(e),
        };
        if end != *qname {
            let mut message = "`</".to_owned();
            message.append(end.as_str());
            message.append(">` closes ");
            push_opened(&mut message, qname, open, Ghost(self.input@));
            return Err(mark.error(message));
        }
        self.skip_whitespace();
        if !self.is_at('>') {
            let mut message = "expected `>` to close `</".to_owned();
            message.append(end.as_str());
            message.append("`");
            return Err(self.err(message));
        }
        self.advance();
        Ok(())
    }
}

/// Appends where an open element says it was opened.
fn push_opened(out: &mut String, qname: &String, open: Mark, s: Ghost<Seq<char>>)
    requires
        open.wf(s@),
    ensures
        final(out)@ == old(out)@ + markup::opened(s@, qname@, open.at@),
{
    out.append("`<");
    out.append(qname.as_str());
    out.append(">` opened at line ");
    push_decimal(out, open.line);
    out.append(", column ");
    push_decimal(out, open.column);
    assert(out@ =~= old(out)@ + markup::opened(s@, qname@, open.at@));
}

/// Append to the trailing text node when there is one, so a run of text, CDATA
/// and entities arrives as a single [`Node::Text`].
fn push_text(children: &mut Vec<Node>, text: String)
    ensures
        nodes_view(final(children)@) == markup::with_text(nodes_view(old(children)@), text@),
{
    if text.as_str().is_empty() {
        return;
    }
    proof {
        lemma_nodes_len(children@);
        reveal_with_fuel(nodes_view, 2);
        reveal_with_fuel(node_view, 2);
    }
    match children.pop() {
        Some(Node::Text(existing)) => {
            let mut joined = existing;
            joined.append(text.as_str());
            proof {
                lemma_nodes_push(children@, Node::Text(joined));
                assert(nodes_view(old(children)@).drop_last() =~= nodes_view(children@));
            }
            children.push(Node::Text(joined));
        },
        Some(last) => {
            proof {
                lemma_nodes_push(children@, last);
                lemma_nodes_push(children@.push(last), Node::Text(text));
                assert(children@.push(last) =~= old(children)@);
            }
            children.push(last);
            children.push(Node::Text(text));
        },
        None => {
            proof {
                lemma_nodes_push(children@, Node::Text(text));
            }
            children.push(Node::Text(text));
        },
    }
}

/// A fault on the way to one attribute is the fault of all of them.
proof fn lemma_resolve_all_stops(
    scopes: Seq<Binding>,
    raw: Seq<RawAttributeModel>,
    i: int,
    n: int,
    now: int,
)
    requires
        0 <= i < n,
    ensures
        markup::resolve_all(scopes, raw, i + 1, now) is Err ==> markup::resolve_all(
            scopes,
            raw,
            n,
            now,
        ) == markup::resolve_all(scopes, raw, i + 1, now),
    decreases n,
{
    if i + 1 < n {
        lemma_resolve_all_stops(scopes, raw, i, n - 1, now);
    }
}

/// Whether two names are the same.
pub(crate) fn same_name(a: &Name, b: &Name) -> (r: bool)
    ensures
        r == (a@ == b@),
{
    let spaces = match (&a.namespace, &b.namespace) {
        (Some(x), Some(y)) => *x == *y,
        (None, None) => true,
        _ => false,
    };
    spaces && a.local == b.local
}

/// Whether an attribute is named `name`.
fn has_name(attributes: &Vec<Attribute>, name: &Name) -> (r: bool)
    ensures
        r == markup::has_name(attributes_view(attributes@), attributes@.len() as int, name@),
{
    let ghost all = attributes_view(attributes@);
    let mut i: usize = 0;
    while i < attributes.len()
        invariant
            i <= attributes@.len(),
            all == attributes_view(attributes@),
            !markup::has_name(all, i as int, name@),
        decreases attributes@.len() - i,
    {
        if same_name(&attributes[i].name, name) {
            assert(all[i as int].name == name@);
            return true;
        }
        i += 1;
    }
    false
}

fn is_some_of(quote: Option<char>, c: char) -> (r: bool)
    ensures
        r == (Some(c) == quote),
{
    match quote {
        Some(q) => q == c,
        None => false,
    }
}

fn is_digit(c: char, hex: bool) -> (r: bool)
    ensures
        r == markup::is_digit(c, hex),
{
    ('0' <= c && c <= '9') || (hex && (('a' <= c && c <= 'f') || ('A' <= c && c <= 'F')))
}

fn digit_value(c: char) -> (v: u64)
    requires
        markup::is_digit(c, true),
    ensures
        v == markup::digit_value(c),
        v < 16,
{
    if '0' <= c && c <= '9' {
        c as u64 - '0' as u64
    } else if 'a' <= c && c <= 'f' {
        c as u64 - 'a' as u64 + 10
    } else {
        c as u64 - 'A' as u64 + 10
    }
}

/// Every character above ASCII is accepted, which admits some names the
/// `NameStartChar` production would reject and rejects none it allows.
fn is_name_start(c: char) -> (r: bool)
    ensures
        r == markup::is_name_start(c),
{
    ('a' <= c && c <= 'z') || ('A' <= c && c <= 'Z') || c == '_' || c == ':' || c >= '\u{80}'
}

fn is_name_char(c: char) -> (r: bool)
    ensures
        r == markup::is_name_char(c),
{
    is_name_start(c) || ('0' <= c && c <= '9') || c == '-' || c == '.'
}

/// The `Char` production: most control characters are not legal.
fn is_xml_char(c: char) -> (r: bool)
    ensures
        r == markup::is_xml_char(c),
{
    c == '\t' || c == '\n' || c == '\r' || (' ' <= c && c <= '\u{d7ff}') || ('\u{e000}' <= c && c
        <= '\u{fffd}') || c >= '\u{10000}'
}

} // verus!
