//! What the text of an XML document means.
//!
//! Everything here is stated over a document's characters and a position in
//! them. A production is a function from a position to what it reads there and
//! the position after it, or to the fault that stops the reader. Lines and
//! columns are functions of a position, so a fault only has to say where it is.

use vstd::prelude::*;
use crate::text;

verus! {

broadcast use vstd::string::group_string_axioms;

/// The namespace the `xml` prefix is bound to without being declared.
pub const XML_NS: &'static str = "http://www.w3.org/XML/1998/namespace";

/// Nesting deeper than this is rejected instead of parsed.
pub const MAX_DEPTH: u32 = 256;

/// An expanded name.
pub struct NameModel {
    pub namespace: Option<Seq<char>>,
    pub local: Seq<char>,
}

/// An attribute with its resolved name.
pub struct AttributeModel {
    pub name: NameModel,
    pub value: Seq<char>,
}

/// A child of an element.
pub enum NodeModel {
    Element(ElementModel),
    Text(Seq<char>),
}

/// An element and everything under it.
pub struct ElementModel {
    pub name: NameModel,
    pub attributes: Seq<AttributeModel>,
    pub children: Seq<NodeModel>,
    pub line: nat,
    pub column: nat,
}

/// Why a reader stopped, and the position it blames.
pub struct Fault {
    pub message: Seq<char>,
    pub at: int,
}

/// A namespace declaration: a prefix and the URI it stands for.
pub type Binding = (Seq<char>, Seq<char>);

/// An attribute as written, before its name is resolved.
pub struct RawAttributeModel {
    pub name: Seq<char>,
    pub value: Seq<char>,
    pub at: int,
}

/// What a start tag holds besides its name.
pub struct TagModel {
    pub scopes: Seq<Binding>,
    pub raw: Seq<RawAttributeModel>,
    pub empty: bool,
}

/// The 1-based line of position `i`.
pub open spec fn line_at(s: Seq<char>, i: int) -> nat
    decreases i,
{
    if i <= 0 {
        1
    } else if s[i - 1] == '\n' {
        line_at(s, i - 1) + 1
    } else {
        line_at(s, i - 1)
    }
}

/// The 1-based column of position `i`, counted in characters.
pub open spec fn column_at(s: Seq<char>, i: int) -> nat
    decreases i,
{
    if i <= 0 || s[i - 1] == '\n' {
        1
    } else {
        column_at(s, i - 1) + 1
    }
}

/// Lines and columns start at one and never outrun the position.
pub proof fn lemma_position_bounds(s: Seq<char>, i: int)
    requires
        0 <= i,
    ensures
        1 <= line_at(s, i) <= i + 1,
        1 <= column_at(s, i) <= i + 1,
    decreases i,
{
    if i > 0 {
        lemma_position_bounds(s, i - 1);
    }
}

/// Every position has a line and a column.
pub proof fn lemma_position_positive(s: Seq<char>, i: int)
    ensures
        1 <= line_at(s, i),
        1 <= column_at(s, i),
    decreases i,
{
    if i > 0 {
        lemma_position_positive(s, i - 1);
    }
}

/// The first `i` characters of `s` with every line end written as one newline.
pub open spec fn line_ends(s: Seq<char>, i: int) -> Seq<char>
    decreases i,
{
    if i <= 0 {
        Seq::empty()
    } else if s[i - 1] == '\r' {
        line_ends(s, i - 1).push('\n')
    } else if s[i - 1] == '\n' && i >= 2 && s[i - 2] == '\r' {
        line_ends(s, i - 1)
    } else {
        line_ends(s, i - 1).push(s[i - 1])
    }
}

/// The text a document is read from: no byte order mark, newlines only.
pub open spec fn normal(input: Seq<char>) -> Seq<char> {
    let body = if input.len() > 0 && input[0] == '\u{feff}' {
        input.skip(1)
    } else {
        input
    };
    line_ends(body, body.len() as int)
}

/// White space between tokens.
pub open spec fn is_blank(c: char) -> bool {
    c == ' ' || c == '\t' || c == '\n' || c == '\r'
}

/// A character a name may start with. Everything above ASCII is accepted.
pub open spec fn is_name_start(c: char) -> bool {
    ||| 'a' <= c <= 'z'
    ||| 'A' <= c <= 'Z'
    ||| c == '_'
    ||| c == ':'
    ||| c >= '\u{80}'
}

/// A character a name may go on with.
pub open spec fn is_name_char(c: char) -> bool {
    is_name_start(c) || '0' <= c <= '9' || c == '-' || c == '.'
}

/// The `Char` production: most control characters are not legal.
pub open spec fn is_xml_char(c: char) -> bool {
    ||| c == '\t' || c == '\n' || c == '\r'
    ||| ' ' <= c <= '\u{d7ff}'
    ||| '\u{e000}' <= c <= '\u{fffd}'
    ||| c >= '\u{10000}'
}

/// A control character that may not stand in character data.
pub open spec fn is_stray_control(c: char) -> bool {
    c < ' ' && !is_blank(c)
}

/// Whether `p` is written at position `i`.
pub open spec fn at(s: Seq<char>, i: int, p: Seq<char>) -> bool {
    i + p.len() <= s.len() && s.subrange(i, i + p.len()) == p
}

/// Whether the character at position `i` is `c`.
pub open spec fn is_at(s: Seq<char>, i: int, c: char) -> bool {
    i < s.len() && s[i] == c
}

/// The first position from `i` on that is not white space.
pub open spec fn past_blank(s: Seq<char>, i: int) -> int
    decreases s.len() - i,
{
    if i < s.len() && is_blank(s[i]) {
        past_blank(s, i + 1)
    } else {
        i
    }
}

pub proof fn lemma_past_blank(s: Seq<char>, i: int)
    requires
        i <= s.len(),
    ensures
        i <= past_blank(s, i) <= s.len(),
    decreases s.len() - i,
{
    if i < s.len() && is_blank(s[i]) {
        lemma_past_blank(s, i + 1);
    }
}

/// The first position from `i` on where `p` is written.
pub open spec fn find(s: Seq<char>, i: int, p: Seq<char>) -> Option<int>
    decreases s.len() - i + 1,
{
    if i > s.len() {
        None
    } else if at(s, i, p) {
        Some(i)
    } else {
        find(s, i + 1, p)
    }
}

pub proof fn lemma_find(s: Seq<char>, i: int, p: Seq<char>)
    ensures
        find(s, i, p) matches Some(j) ==> i <= j && j + p.len() <= s.len() && at(s, j, p),
    decreases s.len() - i + 1,
{
    if i <= s.len() && !at(s, i, p) {
        lemma_find(s, i + 1, p);
    }
}

/// What stands before the next `end`, and the position after that `end`.
pub open spec fn until(s: Seq<char>, i: int, end: Seq<char>, what: Seq<char>) -> Result<
    (Seq<char>, int),
    Fault,
> {
    match find(s, i, end) {
        Some(j) => Ok((s.subrange(i, j), j + end.len())),
        None => Err(Fault { message: "unterminated "@ + what, at: i }),
    }
}

/// The end of a doctype declaration read from `i`, in or out of its internal
/// subset. Quoted literals are skipped as units.
pub open spec fn doctype(s: Seq<char>, i: int, in_subset: bool) -> Result<int, Fault>
    decreases s.len() - i,
{
    if i >= s.len() {
        Err(Fault { message: "unterminated doctype declaration"@, at: i })
    } else if s[i] == '"' || s[i] == '\'' {
        match until(s, i + 1, seq![s[i]], "literal in the doctype"@) {
            Err(f) => Err(f),
            Ok((_, j)) => {
                proof {
                    lemma_find(s, i + 1, seq![s[i]]);
                }
                doctype(s, j, in_subset)
            },
        }
    } else if s[i] == '[' {
        doctype(s, i + 1, true)
    } else if s[i] == ']' {
        doctype(s, i + 1, false)
    } else if s[i] == '>' && !in_subset {
        Ok(i + 1)
    } else {
        doctype(s, i + 1, in_subset)
    }
}

/// The end of what may stand outside the root element: white space, comments,
/// processing instructions and doctype declarations, in any order.
pub open spec fn misc(s: Seq<char>, i: int) -> Result<int, Fault>
    decreases s.len() - i,
{
    let j = past_blank(s, i);
    if i > s.len() {
        Ok(i)
    } else if at(s, j, "<!--"@) {
        match until(s, j + "<!--"@.len(), "-->"@, "comment"@) {
            Err(f) => Err(f),
            Ok((_, k)) => {
                proof {
                    lemma_past_blank(s, i);
                    lemma_find(s, j + "<!--"@.len(), "-->"@);
                    reveal_strlit("-->");
                }
                misc(s, k)
            },
        }
    } else if at(s, j, "<?"@) {
        match until(s, j + "<?"@.len(), "?>"@, "processing instruction"@) {
            Err(f) => Err(f),
            Ok((_, k)) => {
                proof {
                    lemma_past_blank(s, i);
                    lemma_find(s, j + "<?"@.len(), "?>"@);
                    reveal_strlit("?>");
                }
                misc(s, k)
            },
        }
    } else if at(s, j, "<!DOCTYPE"@) {
        match doctype(s, j + "<!DOCTYPE"@.len(), false) {
            Err(f) => Err(f),
            Ok(k) => {
                proof {
                    lemma_past_blank(s, i);
                    lemma_doctype(s, j + "<!DOCTYPE"@.len(), false);
                }
                misc(s, k)
            },
        }
    } else {
        Ok(j)
    }
}

pub proof fn lemma_doctype(s: Seq<char>, i: int, in_subset: bool)
    requires
        i <= s.len(),
    ensures
        doctype(s, i, in_subset) matches Ok(j) ==> i < j <= s.len(),
        doctype(s, i, in_subset) matches Err(f) ==> i <= f.at <= s.len(),
    decreases s.len() - i,
{
    if i >= s.len() {
    } else if s[i] == '"' || s[i] == '\'' {
        lemma_find(s, i + 1, seq![s[i]]);
        if let Ok((_, j)) = until(s, i + 1, seq![s[i]], "literal in the doctype"@) {
            lemma_doctype(s, j, in_subset);
        }
    } else if s[i] == '[' {
        lemma_doctype(s, i + 1, true);
    } else if s[i] == ']' {
        lemma_doctype(s, i + 1, false);
    } else if s[i] == '>' && !in_subset {
    } else {
        lemma_doctype(s, i + 1, in_subset);
    }
}

/// The first position from `i` on that does not go on a name.
pub open spec fn name_end(s: Seq<char>, i: int) -> int
    decreases s.len() - i,
{
    if i < s.len() && is_name_char(s[i]) {
        name_end(s, i + 1)
    } else {
        i
    }
}

pub proof fn lemma_name_end(s: Seq<char>, i: int)
    requires
        i <= s.len(),
    ensures
        i <= name_end(s, i) <= s.len(),
    decreases s.len() - i,
{
    if i < s.len() && is_name_char(s[i]) {
        lemma_name_end(s, i + 1);
    }
}

/// A qualified name as written, prefix included.
pub open spec fn qname(s: Seq<char>, i: int) -> Result<(Seq<char>, int), Fault> {
    if i < s.len() && is_name_start(s[i]) {
        Ok((s.subrange(i, name_end(s, i + 1)), name_end(s, i + 1)))
    } else {
        Err(Fault { message: "expected a name"@, at: i })
    }
}

/// A qualified name as its prefix and local part. The prefix is empty when
/// there is no colon; a name with an empty part or a second colon is none.
pub open spec fn split_qname(q: Seq<char>) -> Option<(Seq<char>, Seq<char>)> {
    if !q.contains(':') {
        Some((Seq::empty(), q))
    } else {
        let k = q.index_of_first(':')->0;
        let local = q.skip(k + 1);
        if k == 0 || local.len() == 0 || local.contains(':') {
            None
        } else {
            Some((q.take(k), local))
        }
    }
}

/// The innermost declaration of `prefix` among the first `n` bindings.
pub open spec fn binding(scopes: Seq<Binding>, n: int, prefix: Seq<char>) -> Option<Seq<char>>
    decreases n,
{
    if n <= 0 {
        None
    } else if scopes[n - 1].0 == prefix {
        Some(scopes[n - 1].1)
    } else {
        binding(scopes, n - 1, prefix)
    }
}

/// The namespace `prefix` stands for. An empty URI undeclares it.
pub open spec fn lookup(scopes: Seq<Binding>, prefix: Seq<char>) -> Option<Seq<char>> {
    if prefix == "xml"@ {
        Some(XML_NS@)
    } else {
        match binding(scopes, scopes.len() as int, prefix) {
            Some(uri) => if uri.len() > 0 {
                Some(uri)
            } else {
                None
            },
            None => None,
        }
    }
}

/// The fault of a qualified name that cannot be split.
pub open spec fn bad_qname(q: Seq<char>, now: int) -> Fault {
    Fault { message: "`"@ + q + "` is not a valid qualified name"@, at: now }
}

/// The expanded name `q` stands for. `use_default` is false for attributes: one
/// without a prefix is in no namespace. `whence` is where the name was written
/// and `now` how far the reader has come.
pub open spec fn resolve(
    scopes: Seq<Binding>,
    q: Seq<char>,
    use_default: bool,
    whence: int,
    now: int,
) -> Result<NameModel, Fault> {
    match split_qname(q) {
        None => Err(bad_qname(q, now)),
        Some((prefix, local)) => if prefix.len() == 0 {
            Ok(
                NameModel {
                    namespace: if use_default {
                        lookup(scopes, Seq::empty())
                    } else {
                        None
                    },
                    local,
                },
            )
        } else {
            match lookup(scopes, prefix) {
                Some(uri) => Ok(NameModel { namespace: Some(uri), local }),
                None => Err(
                    Fault { message: "unbound namespace prefix `"@ + prefix + "`"@, at: whence },
                ),
            }
        },
    }
}

/// Whether `c` is a digit of a character reference.
pub open spec fn is_digit(c: char, hex: bool) -> bool {
    '0' <= c <= '9' || (hex && ('a' <= c <= 'f' || 'A' <= c <= 'F'))
}

/// The value of a digit.
pub open spec fn digit_value(c: char) -> nat {
    if '0' <= c <= '9' {
        (c as int - '0' as int) as nat
    } else if 'a' <= c <= 'f' {
        (c as int - 'a' as int + 10) as nat
    } else {
        (c as int - 'A' as int + 10) as nat
    }
}

/// The first position from `i` on that is not a digit.
pub open spec fn digits_end(s: Seq<char>, i: int, hex: bool) -> int
    decreases s.len() - i,
{
    if i < s.len() && is_digit(s[i], hex) {
        digits_end(s, i + 1, hex)
    } else {
        i
    }
}

pub proof fn lemma_digits_end(s: Seq<char>, i: int, hex: bool)
    requires
        i <= s.len(),
    ensures
        i <= digits_end(s, i, hex) <= s.len(),
    decreases s.len() - i,
{
    if i < s.len() && is_digit(s[i], hex) {
        lemma_digits_end(s, i + 1, hex);
    }
}

/// The number the digits `i..j` write.
pub open spec fn digits_value(s: Seq<char>, i: int, j: int, hex: bool) -> nat
    decreases j - i,
{
    if j <= i {
        0
    } else {
        digits_value(s, i, j - 1, hex) * (if hex {
            16nat
        } else {
            10nat
        }) + digit_value(s[j - 1])
    }
}

/// `v`, or the largest 32-bit number where `v` is larger.
pub open spec fn saturated(v: nat) -> nat {
    if v > u32::MAX {
        u32::MAX as nat
    } else {
        v
    }
}

/// Whether `v` is the number of a character an XML document may hold.
pub open spec fn is_xml_code(v: nat) -> bool {
    &&& v < 0xD800 || 0xE000 <= v <= 0x10FFFF
    &&& is_xml_char(v as char)
}

/// The character one of the five predefined entities stands for.
pub open spec fn entity(name: Seq<char>) -> Option<char> {
    if name == "amp"@ {
        Some('&')
    } else if name == "lt"@ {
        Some('<')
    } else if name == "gt"@ {
        Some('>')
    } else if name == "quot"@ {
        Some('"')
    } else if name == "apos"@ {
        Some('\'')
    } else {
        None
    }
}

/// The character the reference at `i`, an ampersand, stands for.
pub open spec fn reference(s: Seq<char>, i: int) -> Result<(char, int), Fault> {
    if is_at(s, i + 1, '#') {
        let hex = is_at(s, i + 2, 'x');
        let start = if hex {
            i + 3
        } else {
            i + 2
        };
        let j = digits_end(s, start, hex);
        let v = saturated(digits_value(s, start, j, hex));
        if j == start || !is_at(s, j, ';') {
            Err(Fault { message: "malformed character reference"@, at: i })
        } else if is_xml_code(v) {
            Ok((v as char, j + 1))
        } else {
            Err(
                Fault {
                    message: "character reference to "@ + text::decimal(v)
                        + " is not a valid XML character"@,
                    at: i,
                },
            )
        }
    } else {
        match qname(s, i + 1) {
            Err(f) => Err(f),
            Ok((name, j)) => if !is_at(s, j, ';') {
                Err(Fault { message: "unterminated entity reference `&"@ + name + "`"@, at: i })
            } else {
                match entity(name) {
                    Some(c) => Ok((c, j + 1)),
                    None => Err(Fault { message: "unknown entity `&"@ + name + ";`"@, at: i }),
                }
            },
        }
    }
}

/// A reference takes at least four characters of a document, so expanding it
/// never makes text longer.
pub proof fn lemma_reference(s: Seq<char>, i: int)
    requires
        is_at(s, i, '&'),
        0 <= i,
    ensures
        reference(s, i) matches Ok((c, j)) ==> i + 4 <= j <= s.len(),
        reference(s, i) matches Err(f) ==> i <= f.at <= s.len(),
{
    let start = if is_at(s, i + 2, 'x') {
        i + 3
    } else {
        i + 2
    };
    if is_at(s, i + 1, '#') {
        lemma_digits_end(s, start, is_at(s, i + 2, 'x'));
    } else if i + 1 < s.len() {
        lemma_name_end(s, i + 2);
        reveal_strlit("amp");
        reveal_strlit("lt");
        reveal_strlit("gt");
        reveal_strlit("quot");
        reveal_strlit("apos");
    }
}

/// Character data from `i` on with references expanded, up to a `<`, to the
/// closing `quote` inside an attribute value, or to the end. Inside an
/// attribute value a tab or newline reads as a space.
pub open spec fn chars(s: Seq<char>, i: int, quote: Option<char>) -> Result<(Seq<char>, int), Fault>
    decreases s.len() - i,
{
    if i < 0 || i >= s.len() || Some(s[i]) == quote {
        Ok((Seq::empty(), i))
    } else if s[i] == '<' {
        if quote is Some {
            Err(Fault { message: "`<` is not allowed in an attribute value"@, at: i })
        } else {
            Ok((Seq::empty(), i))
        }
    } else if s[i] == '&' {
        match reference(s, i) {
            Err(f) => Err(f),
            Ok((c, j)) => {
                proof {
                    lemma_reference(s, i);
                }
                before(c, chars(s, j, quote))
            },
        }
    } else if quote is Some && (s[i] == '\t' || s[i] == '\n') {
        before(' ', chars(s, i + 1, quote))
    } else if is_stray_control(s[i]) {
        Err(Fault { message: "control character in character data"@, at: i })
    } else {
        before(s[i], chars(s, i + 1, quote))
    }
}

/// Text read after the character `c`.
pub open spec fn before(c: char, rest: Result<(Seq<char>, int), Fault>) -> Result<
    (Seq<char>, int),
    Fault,
> {
    match rest {
        Ok((t, j)) => Ok((seq![c] + t, j)),
        Err(f) => Err(f),
    }
}

/// Expansion is bounded by the input: text is never longer than the characters
/// it was read from, so no document can be written that unfolds into a larger
/// one.
pub proof fn expansion_is_bounded(s: Seq<char>, i: int, quote: Option<char>)
    requires
        0 <= i <= s.len(),
    ensures
        chars(s, i, quote) matches Ok((t, j)) ==> i <= j <= s.len() && t.len() <= j - i,
        chars(s, i, quote) matches Err(f) ==> i <= f.at <= s.len(),
    decreases s.len() - i,
{
    if i >= s.len() || Some(s[i]) == quote || s[i] == '<' {
    } else if s[i] == '&' {
        lemma_reference(s, i);
        if let Ok((c, j)) = reference(s, i) {
            expansion_is_bounded(s, j, quote);
        }
    } else {
        expansion_is_bounded(s, i + 1, quote);
    }
}

/// A quoted attribute value, expanded and normalised.
pub open spec fn value(s: Seq<char>, i: int) -> Result<(Seq<char>, int), Fault> {
    if is_at(s, i, '"') || is_at(s, i, '\'') {
        match chars(s, i + 1, Some(s[i])) {
            Err(f) => Err(f),
            Ok((t, j)) => if is_at(s, j, s[i]) {
                Ok((t, j + 1))
            } else {
                Err(Fault { message: "unterminated attribute value"@, at: j })
            },
        }
    } else {
        Err(Fault { message: "expected a quoted attribute value"@, at: i })
    }
}

pub proof fn lemma_value(s: Seq<char>, i: int)
    requires
        0 <= i <= s.len(),
    ensures
        value(s, i) matches Ok((t, j)) ==> i < j <= s.len(),
        value(s, i) matches Err(f) ==> i <= f.at <= s.len(),
{
    if is_at(s, i, '"') || is_at(s, i, '\'') {
        expansion_is_bounded(s, i + 1, Some(s[i]));
    }
}

/// What an attribute as written does to a start tag: a namespace declaration
/// goes to the scopes, anything else is kept. `now` is the position after it.
pub open spec fn declare(tag: TagModel, a: RawAttributeModel, now: int) -> Result<TagModel, Fault> {
    match split_qname(a.name) {
        None => Err(bad_qname(a.name, now)),
        Some((prefix, local)) => if prefix.len() == 0 && local == "xmlns"@ {
            Ok(TagModel { scopes: tag.scopes.push((Seq::empty(), a.value)), ..tag })
        } else if prefix == "xmlns"@ {
            if local == "xmlns"@ || (local == "xml"@ && a.value != XML_NS@) {
                Err(
                    Fault {
                        message: "the prefix `"@ + local + "` cannot be bound to `"@ + a.value
                            + "`"@,
                        at: a.at,
                    },
                )
            } else if a.value.len() == 0 {
                Err(
                    Fault {
                        message: "cannot undeclare the namespace prefix `"@ + local + "`"@,
                        at: a.at,
                    },
                )
            } else {
                Ok(TagModel { scopes: tag.scopes.push((local, a.value)), ..tag })
            }
        } else {
            Ok(TagModel { raw: tag.raw.push(a), ..tag })
        },
    }
}

/// One attribute of a start tag, as written at `i`.
pub open spec fn attribute(s: Seq<char>, i: int) -> Result<(RawAttributeModel, int), Fault> {
    match qname(s, i) {
        Err(f) => Err(f),
        Ok((name, j)) => {
            let k = past_blank(s, j);
            if !is_at(s, k, '=') {
                Err(Fault { message: "expected `=` after attribute `"@ + name + "`"@, at: k })
            } else {
                match value(s, past_blank(s, k + 1)) {
                    Err(f) => Err(f),
                    Ok((v, m)) => Ok((RawAttributeModel { name, value: v, at: i }, m)),
                }
            }
        },
    }
}

pub proof fn lemma_attribute(s: Seq<char>, i: int)
    requires
        0 <= i <= s.len(),
    ensures
        attribute(s, i) matches Ok((a, j)) ==> i < j <= s.len() && a.at == i,
        attribute(s, i) matches Err(f) ==> i <= f.at <= s.len(),
{
    if let Ok((name, j)) = qname(s, i) {
        lemma_name_end(s, i + 1);
        lemma_past_blank(s, j);
        let k = past_blank(s, j);
        if is_at(s, k, '=') {
            lemma_past_blank(s, k + 1);
            lemma_value(s, past_blank(s, k + 1));
        }
    }
}

/// The rest of the start tag of `name`, from `i` on.
pub open spec fn start_tag(s: Seq<char>, i: int, name: Seq<char>, tag: TagModel) -> Result<
    (TagModel, int),
    Fault,
>
    decreases s.len() - i,
{
    let j = past_blank(s, i);
    if i < 0 || i > s.len() {
        Ok((tag, i))
    } else if at(s, j, "/>"@) {
        Ok((TagModel { empty: true, ..tag }, j + "/>"@.len()))
    } else if is_at(s, j, '>') {
        Ok((TagModel { empty: false, ..tag }, j + 1))
    } else if j == i {
        Err(
            Fault {
                message: "expected whitespace or `>` in the `"@ + name + "` start tag"@,
                at: j,
            },
        )
    } else {
        match attribute(s, j) {
            Err(f) => Err(f),
            Ok((a, k)) => match declare(tag, a, k) {
                Err(f) => Err(f),
                Ok(next) => {
                    proof {
                        lemma_past_blank(s, i);
                        lemma_attribute(s, j);
                    }
                    start_tag(s, k, name, next)
                },
            },
        }
    }
}

pub proof fn lemma_start_tag(s: Seq<char>, i: int, name: Seq<char>, tag: TagModel)
    requires
        0 <= i <= s.len(),
    ensures
        start_tag(s, i, name, tag) matches Ok((t, j)) ==> i < j <= s.len(),
    decreases s.len() - i,
{
    lemma_past_blank(s, i);
    let j = past_blank(s, i);
    reveal_strlit("/>");
    if at(s, j, "/>"@) || is_at(s, j, '>') || j == i {
    } else {
        lemma_attribute(s, j);
        if let Ok((a, k)) = attribute(s, j) {
            if let Ok(next) = declare(tag, a, k) {
                lemma_start_tag(s, k, name, next);
            }
        }
    }
}

/// Whether one of the first `n` attributes is named `name`.
pub open spec fn has_name(attributes: Seq<AttributeModel>, n: int, name: NameModel) -> bool {
    exists|i: int| 0 <= i < n && (#[trigger] attributes[i]).name == name
}

/// The first `n` attributes of a start tag with their names resolved, in
/// document order.
pub open spec fn resolve_all(
    scopes: Seq<Binding>,
    raw: Seq<RawAttributeModel>,
    n: int,
    now: int,
) -> Result<Seq<AttributeModel>, Fault>
    decreases n,
{
    if n <= 0 {
        Ok(Seq::empty())
    } else {
        match resolve_all(scopes, raw, n - 1, now) {
            Err(f) => Err(f),
            Ok(done) => {
                let a = raw[n - 1];
                match resolve(scopes, a.name, false, a.at, now) {
                    Err(f) => Err(f),
                    Ok(name) => if has_name(done, done.len() as int, name) {
                        Err(
                            Fault {
                                message: "duplicate attribute `"@ + a.name + "`"@,
                                at: a.at,
                            },
                        )
                    } else {
                        Ok(done.push(AttributeModel { name, value: a.value }))
                    },
                }
            },
        }
    }
}

/// Children with `text` at the end, merged into a text node that is already
/// there.
pub open spec fn with_text(children: Seq<NodeModel>, text: Seq<char>) -> Seq<NodeModel> {
    if text.len() == 0 {
        children
    } else if children.len() > 0 && children.last() is Text {
        children.drop_last().push(NodeModel::Text(children.last()->Text_0 + text))
    } else {
        children.push(NodeModel::Text(text))
    }
}

/// Where an open element says it was opened.
pub open spec fn opened(s: Seq<char>, name: Seq<char>, open: int) -> Seq<char> {
    "`<"@ + name + ">` opened at line "@ + text::decimal(line_at(s, open)) + ", column "@ + text::decimal(
        column_at(s, open),
    )
}

/// The end tag of the element `name` opened at `open`; `i` is after its `</`.
pub open spec fn end_tag(s: Seq<char>, i: int, name: Seq<char>, open: int) -> Result<int, Fault> {
    match qname(s, i) {
        Err(f) => Err(f),
        Ok((end, j)) => {
            let k = past_blank(s, j);
            if end != name {
                Err(
                    Fault {
                        message: "`</"@ + end + ">` closes "@ + opened(s, name, open),
                        at: i,
                    },
                )
            } else if is_at(s, k, '>') {
                Ok(k + 1)
            } else {
                Err(Fault { message: "expected `>` to close `</"@ + end + "`"@, at: k })
            }
        },
    }
}

/// The element at `i`, `depth` elements deep.
pub open spec fn element(s: Seq<char>, i: int, scopes: Seq<Binding>, depth: nat) -> Result<
    (ElementModel, int),
    Fault,
>
    decreases s.len() - i, 0nat,
{
    if depth > MAX_DEPTH {
        Err(
            Fault {
                message: "elements nested more than "@ + text::decimal(MAX_DEPTH as nat) + " deep"@,
                at: i,
            },
        )
    } else if !is_at(s, i, '<') || i < 0 {
        Err(Fault { message: "expected an element"@, at: i })
    } else {
        match qname(s, i + 1) {
            Err(f) => Err(f),
            Ok((name, j)) => match start_tag(
                s,
                j,
                name,
                TagModel { scopes, raw: Seq::empty(), empty: false },
            ) {
                Err(f) => Err(f),
                Ok((tag, k)) => match resolve(tag.scopes, name, true, i, k) {
                    Err(f) => Err(f),
                    Ok(expanded) => match resolve_all(tag.scopes, tag.raw, tag.raw.len() as int, k) {
                        Err(f) => Err(f),
                        Ok(attributes) => {
                            proof {
                                lemma_name_end(s, i + 2);
                                lemma_start_tag(
                                    s,
                                    j,
                                    name,
                                    TagModel { scopes, raw: Seq::empty(), empty: false },
                                );
                            }
                            let content = if tag.empty {
                                Ok((Seq::empty(), k))
                            } else {
                                content(s, k, name, i, tag.scopes, depth, Seq::empty())
                            };
                            match content {
                                Err(f) => Err(f),
                                Ok((children, m)) => Ok(
                                    (
                                        ElementModel {
                                            name: expanded,
                                            attributes,
                                            children,
                                            line: line_at(s, i),
                                            column: column_at(s, i),
                                        },
                                        m,
                                    ),
                                ),
                            }
                        },
                    },
                },
            },
        }
    }
}

/// What follows `children` in the element `name` opened at `open`, up to and
/// with its end tag.
pub open spec fn content(
    s: Seq<char>,
    i: int,
    name: Seq<char>,
    open: int,
    scopes: Seq<Binding>,
    depth: nat,
    children: Seq<NodeModel>,
) -> Result<(Seq<NodeModel>, int), Fault>
    decreases s.len() - i, 1nat,
{
    if i < 0 || i >= s.len() {
        Err(
            Fault {
                message: "unexpected end of input: "@ + opened(s, name, open)
                    + " is never closed"@,
                at: i,
            },
        )
    } else if at(s, i, "</"@) {
        match end_tag(s, i + "</"@.len(), name, open) {
            Err(f) => Err(f),
            Ok(j) => Ok((children, j)),
        }
    } else if at(s, i, "<![CDATA["@) {
        match until(s, i + "<![CDATA["@.len(), "]]>"@, "CDATA section"@) {
            Err(f) => Err(f),
            Ok((text, j)) => {
                proof {
                    lemma_find(s, i + "<![CDATA["@.len(), "]]>"@);
                    reveal_strlit("]]>");
                }
                content(s, j, name, open, scopes, depth, with_text(children, text))
            },
        }
    } else if at(s, i, "<!--"@) {
        match until(s, i + "<!--"@.len(), "-->"@, "comment"@) {
            Err(f) => Err(f),
            Ok((_, j)) => {
                proof {
                    lemma_find(s, i + "<!--"@.len(), "-->"@);
                    reveal_strlit("-->");
                }
                content(s, j, name, open, scopes, depth, children)
            },
        }
    } else if at(s, i, "<?"@) {
        match until(s, i + "<?"@.len(), "?>"@, "processing instruction"@) {
            Err(f) => Err(f),
            Ok((_, j)) => {
                proof {
                    lemma_find(s, i + "<?"@.len(), "?>"@);
                    reveal_strlit("?>");
                }
                content(s, j, name, open, scopes, depth, children)
            },
        }
    } else if at(s, i, "<!"@) {
        Err(
            Fault {
                message: "declarations are only allowed before the root element"@,
                at: i,
            },
        )
    } else if s[i] == '<' {
        match element(s, i, scopes, depth + 1) {
            Err(f) => Err(f),
            // `lemma_element` shows that an element ends after it starts.
            Ok((child, j)) => if i < j <= s.len() {
                content(s, j, name, open, scopes, depth, children.push(NodeModel::Element(child)))
            } else {
                Ok((children, j))
            },
        }
    } else {
        match chars(s, i, None) {
            Err(f) => Err(f),
            Ok((text, j)) => {
                proof {
                    lemma_chars_progress(s, i);
                }
                content(s, j, name, open, scopes, depth, with_text(children, text))
            },
        }
    }
}

pub proof fn lemma_chars_progress(s: Seq<char>, i: int)
    requires
        0 <= i < s.len(),
        s[i] != '<',
    ensures
        chars(s, i, None) matches Ok((t, j)) ==> i < j <= s.len(),
{
    expansion_is_bounded(s, i, None);
    if s[i] == '&' {
        lemma_reference(s, i);
        if let Ok((c, j)) = reference(s, i) {
            expansion_is_bounded(s, j, None);
        }
    } else {
        expansion_is_bounded(s, i + 1, None);
    }
}

pub proof fn lemma_end_tag(s: Seq<char>, i: int, name: Seq<char>, open: int)
    requires
        0 <= i <= s.len(),
    ensures
        end_tag(s, i, name, open) matches Ok(j) ==> i < j <= s.len(),
{
    if let Ok((end, j)) = qname(s, i) {
        lemma_name_end(s, i + 1);
        lemma_past_blank(s, j);
    }
}

/// An element ends after it starts, and inside the document.
pub proof fn lemma_element(s: Seq<char>, i: int, scopes: Seq<Binding>, depth: nat)
    requires
        0 <= i <= s.len(),
    ensures
        element(s, i, scopes, depth) matches Ok((e, j)) ==> i < j <= s.len()
            && e.name.local.len() > 0,
    decreases s.len() - i, 0nat,
{
    if depth <= MAX_DEPTH && is_at(s, i, '<') {
        if let Ok((name, j)) = qname(s, i + 1) {
            lemma_name_end(s, i + 2);
            let tag0 = TagModel { scopes, raw: Seq::empty(), empty: false };
            lemma_start_tag(s, j, name, tag0);
            if let Ok((tag, k)) = start_tag(s, j, name, tag0) {
                lemma_content(s, k, name, i, tag.scopes, depth, Seq::empty());
            }
        }
    }
}

pub proof fn lemma_content(
    s: Seq<char>,
    i: int,
    name: Seq<char>,
    open: int,
    scopes: Seq<Binding>,
    depth: nat,
    children: Seq<NodeModel>,
)
    requires
        0 <= i <= s.len(),
    ensures
        content(s, i, name, open, scopes, depth, children) matches Ok((c, j)) ==> i < j <= s.len(),
    decreases s.len() - i, 1nat,
{
    if i >= s.len() {
    } else if at(s, i, "</"@) {
        lemma_end_tag(s, i + "</"@.len(), name, open);
    } else if at(s, i, "<![CDATA["@) {
        lemma_find(s, i + "<![CDATA["@.len(), "]]>"@);
        reveal_strlit("]]>");
        if let Ok((text, j)) = until(s, i + "<![CDATA["@.len(), "]]>"@, "CDATA section"@) {
            lemma_content(s, j, name, open, scopes, depth, with_text(children, text));
        }
    } else if at(s, i, "<!--"@) {
        lemma_find(s, i + "<!--"@.len(), "-->"@);
        reveal_strlit("-->");
        if let Ok((_, j)) = until(s, i + "<!--"@.len(), "-->"@, "comment"@) {
            lemma_content(s, j, name, open, scopes, depth, children);
        }
    } else if at(s, i, "<?"@) {
        lemma_find(s, i + "<?"@.len(), "?>"@);
        reveal_strlit("?>");
        if let Ok((_, j)) = until(s, i + "<?"@.len(), "?>"@, "processing instruction"@) {
            lemma_content(s, j, name, open, scopes, depth, children);
        }
    } else if at(s, i, "<!"@) {
    } else if s[i] == '<' {
        lemma_element(s, i, scopes, depth + 1);
        if let Ok((child, j)) = element(s, i, scopes, depth + 1) {
            lemma_content(
                s,
                j,
                name,
                open,
                scopes,
                depth,
                children.push(NodeModel::Element(child)),
            );
        }
    } else {
        lemma_chars_progress(s, i);
        if let Ok((text, j)) = chars(s, i, None) {
            lemma_content(s, j, name, open, scopes, depth, with_text(children, text));
        }
    }
}

pub proof fn lemma_misc(s: Seq<char>, i: int)
    requires
        0 <= i <= s.len(),
    ensures
        misc(s, i) matches Ok(j) ==> i <= j <= s.len(),
    decreases s.len() - i,
{
    lemma_past_blank(s, i);
    let j = past_blank(s, i);
    if at(s, j, "<!--"@) {
        lemma_find(s, j + "<!--"@.len(), "-->"@);
        reveal_strlit("-->");
        if let Ok((_, k)) = until(s, j + "<!--"@.len(), "-->"@, "comment"@) {
            lemma_misc(s, k);
        }
    } else if at(s, j, "<?"@) {
        lemma_find(s, j + "<?"@.len(), "?>"@);
        reveal_strlit("?>");
        if let Ok((_, k)) = until(s, j + "<?"@.len(), "?>"@, "processing instruction"@) {
            lemma_misc(s, k);
        }
    } else if at(s, j, "<!DOCTYPE"@) {
        lemma_doctype(s, j + "<!DOCTYPE"@.len(), false);
        if let Ok(k) = doctype(s, j + "<!DOCTYPE"@.len(), false) {
            lemma_misc(s, k);
        }
    }
}

/// The value of the first of the attributes `i..` that has no namespace and is
/// called `local`.
pub open spec fn plain_from(attributes: Seq<AttributeModel>, i: int, local: Seq<char>) -> Option<
    Seq<char>,
>
    decreases attributes.len() - i,
{
    if i >= attributes.len() {
        None
    } else if attributes[i].name == (NameModel { namespace: None, local }) {
        Some(attributes[i].value)
    } else {
        plain_from(attributes, i + 1, local)
    }
}

/// The value of the unprefixed attribute `local` of `e`.
pub open spec fn plain(e: ElementModel, local: Seq<char>) -> Option<Seq<char>> {
    plain_from(e.attributes, 0, local)
}

/// The root element of the document written in `s`.
pub open spec fn document(s: Seq<char>) -> Result<ElementModel, Fault> {
    match misc(s, 0) {
        Err(f) => Err(f),
        Ok(i) => match element(s, i, Seq::empty(), 0) {
            Err(f) => Err(f),
            Ok((root, j)) => match misc(s, j) {
                Err(f) => Err(f),
                Ok(k) => if k < s.len() {
                    Err(Fault { message: "trailing content after the root element"@, at: k })
                } else {
                    Ok(root)
                },
            },
        },
    }
}

/// How often `c` stands in the first `n` characters.
pub open spec fn occurrences(s: Seq<char>, c: char, n: int) -> nat
    decreases n,
{
    if n <= 0 {
        0
    } else {
        occurrences(s, c, n - 1) + if s[n - 1] == c {
            1nat
        } else {
            0nat
        }
    }
}

/// Lines and columns count from one: a place is on the line after as many line feeds
/// as stand before it, and as many columns behind the last of them.
pub proof fn places_count_from_one(s: Seq<char>, i: int, k: int)
    requires
        0 <= i <= s.len(),
    ensures
        line_at(s, i) == 1 + occurrences(s, '\n', i),
        1 <= column_at(s, i) <= i + 1,
        i - column_at(s, i) < k < i && 0 <= k ==> s[k] != '\n',
        column_at(s, i) <= i ==> s[i - column_at(s, i)] == '\n',
    decreases i,
{
    if i > 0 {
        places_count_from_one(s, i - 1, k);
    }
}

/// Line ends are line feeds: no carriage return is left, a text without any is
/// unchanged, and one of both is one line feed.
pub proof fn line_ends_become_line_feeds(s: Seq<char>, i: int)
    requires
        0 <= i <= s.len(),
    ensures
        forall|k: int|
            0 <= k < line_ends(s, i).len() ==> #[trigger] line_ends(s, i)[k] != '\r',
        line_ends(s, i).len() <= i,
        (forall|k: int| 0 <= k < i ==> #[trigger] s[k] != '\r') ==> line_ends(s, i) == s.take(i),
        i < s.len() && s[i] == '\r' ==> line_ends(s, i + 1) == line_ends(s, i).push('\n'),
        i + 1 < s.len() && s[i] == '\r' && s[i + 1] == '\n' ==> line_ends(s, i + 2) == line_ends(
            s,
            i,
        ).push('\n'),
        i < s.len() && s[i] != '\r' && s[i] != '\n' ==> line_ends(s, i + 1) == line_ends(
            s,
            i,
        ).push(s[i]),
        i < s.len() && s[i] == '\n' && (i == 0 || s[i - 1] != '\r') ==> line_ends(s, i + 1)
            == line_ends(s, i).push('\n'),
    decreases i,
{
    if i + 1 < s.len() && s[i] == '\r' && s[i + 1] == '\n' {
        assert(line_ends(s, i + 2) == line_ends(s, i + 1));
        assert(line_ends(s, i + 1) == line_ends(s, i).push('\n'));
    }
    if i > 0 {
        line_ends_become_line_feeds(s, i - 1);
        if forall|k: int| 0 <= k < i ==> #[trigger] s[k] != '\r' {
            assert(s[i - 1] != '\r');
            if i >= 2 {
                assert(s[i - 2] != '\r');
            }
            assert(line_ends(s, i) =~= s.take(i));
        }
    } else {
        assert(line_ends(s, i) =~= s.take(i));
    }
}

/// A byte order mark at the front is no part of the text.
pub proof fn a_byte_order_mark_is_dropped(s: Seq<char>)
    ensures
        s.len() > 0 && s[0] == '\u{feff}' ==> normal(s) == line_ends(s.skip(1), s.len() - 1),
        s.len() == 0 || s[0] != '\u{feff}' ==> normal(s) == line_ends(s, s.len() as int),
{
}

/// The characters XML admits: the control characters it does not are those below the
/// space but for tab and the line ends, surrogates have none, and the last two of
/// the first plane are out.
pub proof fn xml_admits_these_characters(c: char)
    ensures
        is_xml_char(c) <==> c as int == 9 || c as int == 10 || c as int == 13 || 0x20 <= c as int
            <= 0xD7FF || 0xE000 <= c as int <= 0xFFFD || 0x10000 <= c as int <= 0x10FFFF,
        is_stray_control(c) <==> (c as int) < 0x20 && c as int != 9 && c as int != 10 && c as int
            != 13,
        is_blank(c) <==> c as int == 32 || c as int == 9 || c as int == 10 || c as int == 13,
{
}

/// Five entities have names; no other is known.
pub proof fn five_entities_have_names(name: Seq<char>)
    ensures
        entity("amp"@) == Some('&') && entity("lt"@) == Some('<') && entity("gt"@) == Some('>')
            && entity("quot"@) == Some('"') && entity("apos"@) == Some('\''),
        entity(name) is Some ==> name == "amp"@ || name == "lt"@ || name == "gt"@ || name == "quot"@
            || name == "apos"@,
{
    reveal_strlit("amp");
    reveal_strlit("lt");
    reveal_strlit("gt");
    reveal_strlit("quot");
    reveal_strlit("apos");
    assert("lt"@[0] != "gt"@[0]);
    assert("quot"@[0] != "apos"@[0]);
    assert("amp"@.len() == 3 && "lt"@.len() == 2 && "gt"@.len() == 2);
    assert("quot"@.len() == 4 && "apos"@.len() == 4);
    assert(entity("lt"@) == Some('<'));
    assert(entity("gt"@) == Some('>'));
    assert(entity("quot"@) == Some('"'));
    assert(entity("apos"@) == Some('\''));
}

/// A digit is worth what it says, in base ten or sixteen, small or big, and digits
/// are worth the base times those before the last and the last.
pub proof fn digits_are_worth_their_place(s: Seq<char>, i: int, j: int, hex: bool)
    requires
        i < j,
    ensures
        digits_value(s, i, j, hex) == digits_value(s, i, j - 1, hex) * (if hex {
            16int
        } else {
            10
        }) + digit_value(s[j - 1]),
        digits_value(s, i, i, hex) == 0,
        digit_value('0') == 0 && digit_value('9') == 9 && digit_value('a') == 10 && digit_value('A')
            == 10 && digit_value('f') == 15 && digit_value('F') == 15,
{
}

/// A number sign refers to a character by its code point in base ten.
pub proof fn a_reference_names_a_code_point(s: Seq<char>, i: int, n: nat)
    requires
        0 <= i,
        n < 0x11_0000,
        at(s, i, seq!['&', '#'] + text::decimal(n) + seq![';']),
    ensures
        is_xml_code(n) ==> reference(s, i) == Ok::<(char, int), Fault>(
            (n as char, i + 3 + text::decimal(n).len()),
        ),
        !is_xml_code(n) ==> reference(s, i) is Err,
{
    let d = text::decimal(n);
    let t = seq!['&', '#'] + d + seq![';'];
    assert forall|k: int| 0 <= k < t.len() implies s[i + k] == #[trigger] t[k] by {
        assert(s.subrange(i, i + t.len())[k] == s[i + k]);
    }
    text::decimal_digits_are_worth_the_number(n);
    assert(s[i + 1] == '#') by {
        assert(t[1] == '#');
    }
    let a = i + 2;
    let e = a + d.len();
    assert forall|k: int| 0 <= k < d.len() implies s[a + k] == #[trigger] d[k] by {
        assert(t[2 + k] == d[k]);
        assert(s[i + (2 + k)] == t[2 + k]);
    }
    assert(s[a] == d[0]);
    assert(s[e] == ';') by {
        assert(t[2 + d.len() as int] == ';');
        assert(s[i + (2 + d.len())] == t[2 + d.len() as int]);
    }
    lemma_digit_run(s, a, a, e, d);
    lemma_decimal_value(s, a, d, d.len() as int);
    assert(d.take(d.len() as int) =~= d);
    assert(digits_value(s, a, e, false) == n);
    assert(!is_at(s, a, 'x'));
}

proof fn lemma_digit_run(s: Seq<char>, a: int, k: int, e: int, d: Seq<char>)
    requires
        0 <= a <= k <= e < s.len(),
        e == a + d.len(),
        forall|m: int| 0 <= m < d.len() ==> s[a + m] == #[trigger] d[m],
        forall|m: int| 0 <= m < d.len() ==> '0' <= #[trigger] d[m] <= '9',
        s[e] == ';',
    ensures
        digits_end(s, k, false) == e,
    decreases e - k,
{
    if k < e {
        assert(s[a + (k - a)] == d[k - a]);
        lemma_digit_run(s, a, k + 1, e, d);
    }
}

proof fn lemma_decimal_value(s: Seq<char>, a: int, d: Seq<char>, n: int)
    requires
        0 <= n <= d.len(),
        forall|m: int| 0 <= m < d.len() ==> s[a + m] == #[trigger] d[m],
        forall|m: int| 0 <= m < d.len() ==> '0' <= #[trigger] d[m] <= '9',
    ensures
        digits_value(s, a, a + n, false) == text::worth(d.take(n)),
    decreases n,
{
    if n > 0 {
        lemma_decimal_value(s, a, d, n - 1);
        assert(d.take(n).drop_last() =~= d.take(n - 1));
        assert(s[a + (n - 1)] == d[n - 1]);
        assert('0' <= d[n - 1] <= '9');
    } else {
        assert(d.take(0) =~= Seq::<char>::empty());
    }
}

/// Of several bindings of a prefix the one declared last counts, and none of another
/// prefix does.
pub proof fn the_innermost_binding_counts(scopes: Seq<Binding>, prefix: Seq<char>, uri: Seq<char>)
    ensures
        binding(scopes.push((prefix, uri)), scopes.len() as int + 1, prefix) == Some(uri),
        forall|other: Seq<char>|
            other != prefix ==> #[trigger] binding(
                scopes.push((prefix, uri)),
                scopes.len() as int + 1,
                other,
            ) == binding(scopes, scopes.len() as int, other),
{
    let all = scopes.push((prefix, uri));
    assert(all.take(scopes.len() as int) =~= scopes);
    assert forall|other: Seq<char>| other != prefix implies #[trigger] binding(
        all,
        scopes.len() as int + 1,
        other,
    ) == binding(scopes, scopes.len() as int, other) by {
        lemma_binding_prefix(scopes, all, scopes.len() as int, other);
    }
}

proof fn lemma_binding_prefix(a: Seq<Binding>, b: Seq<Binding>, n: int, prefix: Seq<char>)
    requires
        n <= a.len() <= b.len(),
        b.take(a.len() as int) == a,
    ensures
        binding(a, n, prefix) == binding(b, n, prefix),
    decreases n,
{
    if n > 0 {
        assert(b.take(a.len() as int)[n - 1] == b[n - 1]);
        lemma_binding_prefix(a, b, n - 1, prefix);
    }
}

/// A name without a prefix is in the default namespace where it names an element and
/// in none where it names an attribute; one with a prefix is in the namespace that
/// the prefix is bound to, and the prefix `xml` always has its own.
pub proof fn names_are_in_the_namespace_of_their_prefix(
    scopes: Seq<Binding>,
    prefix: Seq<char>,
    local: Seq<char>,
    whence: int,
    now: int,
)
    requires
        !prefix.contains(':') && !local.contains(':'),
        local.len() > 0,
    ensures
        resolve(scopes, local, false, whence, now) == Ok::<NameModel, Fault>(
            NameModel { namespace: None, local },
        ),
        resolve(scopes, local, true, whence, now) == Ok::<NameModel, Fault>(
            NameModel { namespace: lookup(scopes, Seq::empty()), local },
        ),
        prefix.len() > 0 ==> forall|element: bool| #[trigger]
            resolve(scopes, prefix + seq![':'] + local, element, whence, now) == (match lookup(
                scopes,
                prefix,
            ) {
                Some(uri) => Ok::<NameModel, Fault>(NameModel { namespace: Some(uri), local }),
                None => Err(
                    Fault { message: "unbound namespace prefix `"@ + prefix + "`"@, at: whence },
                ),
            }),
        lookup(scopes, "xml"@) == Some("http://www.w3.org/XML/1998/namespace"@),
        prefix != "xml"@ ==> (lookup(scopes, prefix) is Some <==> (binding(
            scopes,
            scopes.len() as int,
            prefix,
        ) matches Some(uri) && uri.len() > 0)),
{
    let q = prefix + seq![':'] + local;
    let k = prefix.len() as int;
    assert(q[k] == ':');
    assert(q.contains(':'));
    q.index_of_first_ensures(':');
    let m = q.index_of_first(':')->0;
    if m < k {
        assert(prefix[m] == q[m]);
        assert(prefix.contains(':'));
    }
    assert(m == k);
    assert(q.take(k) =~= prefix);
    assert(q.skip(k + 1) =~= local);
}

/// A name with two colons, or with nothing on one side of the one, is no name.
pub proof fn a_name_has_one_colon_at_most(q: Seq<char>, i: int, j: int)
    requires
        0 <= i < j < q.len(),
        q[i] == ':' && q[j] == ':',
    ensures
        split_qname(q) is None,
{
    assert(q.contains(':'));
    q.index_of_first_ensures(':');
    let k = q.index_of_first(':')->0;
    assert(k <= i);
    let local = q.skip(k + 1);
    assert(local[j - k - 1] == ':');
    assert(local.contains(':'));
}

/// The attributes of an element are those written, in order and with their values,
/// and no two have the same name.
pub proof fn attributes_are_distinct(
    scopes: Seq<Binding>,
    raw: Seq<RawAttributeModel>,
    n: int,
    now: int,
    i: int,
    j: int,
)
    requires
        0 <= n <= raw.len(),
    ensures
        resolve_all(scopes, raw, n, now) matches Ok(list) ==> {
            &&& list.len() == n
            &&& 0 <= i < j < n ==> list[i].name != list[j].name
            &&& 0 <= i < n ==> list[i].value == raw[i].value && resolve(
                scopes,
                raw[i].name,
                false,
                raw[i].at,
                now,
            ) == Ok::<NameModel, Fault>(list[i].name)
        },
    decreases n,
{
    if n > 0 {
        attributes_are_distinct(scopes, raw, n - 1, now, i, j);
        if resolve_all(scopes, raw, n, now) is Ok {
            let before = resolve_all(scopes, raw, n - 1, now)->Ok_0;
            let list = resolve_all(scopes, raw, n, now)->Ok_0;
            if j == n - 1 && 0 <= i < j {
                assert(list[i] == before[i]);
                assert(before[i].name != list[j].name);
            }
        }
    }
}

/// Two attributes of one name are refused.
pub proof fn a_repeated_attribute_is_refused(
    scopes: Seq<Binding>,
    raw: Seq<RawAttributeModel>,
    n: int,
    now: int,
    i: int,
    j: int,
)
    requires
        0 <= i < j < n <= raw.len(),
        raw[i].name == raw[j].name,
    ensures
        resolve_all(scopes, raw, n, now) is Err,
{
    attributes_are_distinct(scopes, raw, n, now, i, j);
    attributes_are_distinct(scopes, raw, n, now, j, j);
    if resolve_all(scopes, raw, n, now) is Ok {
        let list = resolve_all(scopes, raw, n, now)->Ok_0;
        match resolve(scopes, raw[i].name, false, raw[i].at, now) {
            Ok(_) => {
                lemma_resolve_place(scopes, raw[i].name, raw[i].at, raw[j].at, now);
            },
            Err(_) => {},
        }
    }
}

proof fn lemma_resolve_place(scopes: Seq<Binding>, q: Seq<char>, a: int, b: int, now: int)
    requires
        resolve(scopes, q, false, a, now) is Ok,
    ensures
        resolve(scopes, q, false, a, now) == resolve(scopes, q, false, b, now),
{
}

/// Text that meets is one text: adding text never leaves two text nodes side by side
/// nor an empty one, and nothing is lost.
pub proof fn text_that_meets_is_one(children: Seq<NodeModel>, a: Seq<char>, b: Seq<char>)
    requires
        a.len() > 0,
        b.len() > 0,
    ensures
        with_text(children, Seq::empty()) == children,
        with_text(with_text(children, a), b) == with_text(children, a + b),
        with_text(children, a).last() matches NodeModel::Text(t) && t.len() > 0,
        children.len() == 0 || !(children.last() is Text) ==> with_text(children, a)
            == children.push(NodeModel::Text(a)),
{
    let one = with_text(children, a);
    let two = with_text(one, b);
    if children.len() > 0 && children.last() is Text {
        let t = children.last()->Text_0;
        assert(t + a + b =~= t + (a + b));
        assert(one.drop_last() =~= children.drop_last());
    } else {
        assert(one.drop_last() =~= children);
    }
}

/// A search finds the first place, and fails only where there is none.
pub proof fn a_search_finds_the_first(s: Seq<char>, i: int, p: Seq<char>, k: int)
    requires
        0 <= i,
    ensures
        find(s, i, p) matches Some(j) ==> i <= j && at(s, j, p) && (i <= k < j ==> !at(s, k, p)),
        find(s, i, p) is None && i <= k <= s.len() ==> !at(s, k, p),
    decreases s.len() - i + 1,
{
    if i <= s.len() && !at(s, i, p) {
        a_search_finds_the_first(s, i + 1, p, k);
    }
}

/// An attribute is looked up by its local name among those in no namespace.
pub proof fn an_attribute_is_found_by_name(attributes: Seq<AttributeModel>, i: int, local: Seq<char>)
    requires
        0 <= i <= attributes.len(),
    ensures
        match plain_from(attributes, i, local) {
            Some(v) => exists|k: int|
                i <= k < attributes.len() && (#[trigger] attributes[k]).name.namespace is None
                    && attributes[k].name.local == local && attributes[k].value == v,
            None => forall|k: int|
                i <= k < attributes.len() ==> (#[trigger] attributes[k]).name.namespace is Some
                    || attributes[k].name.local != local,
        },
    decreases attributes.len() - i,
{
    if i < attributes.len() {
        let a = attributes[i];
        if a.name != (NameModel { namespace: None, local }) {
            an_attribute_is_found_by_name(attributes, i + 1, local);
        } else {
            assert(a.name.local == local);
        }
    }
}

/// In an attribute value a tab or a line feed is a space, and the other quote is a
/// character like any other; in text they stay as they are.
pub proof fn white_space_in_values_is_a_space(s: Seq<char>, i: int, quote: char)
    requires
        0 <= i < s.len(),
        s[i] != quote,
        quote == '"' || quote == '\'',
    ensures
        s[i] == '\t' || s[i] == '\n' ==> chars(s, i, Some(quote)) == before(
            ' ',
            chars(s, i + 1, Some(quote)),
        ) && chars(s, i, None) == before(s[i], chars(s, i + 1, None)),
        s[i] == '"' || s[i] == '\'' ==> chars(s, i, Some(quote)) == before(
            s[i],
            chars(s, i + 1, Some(quote)),
        ) && chars(s, i, None) == before(s[i], chars(s, i + 1, None)),
        s[i] == '<' ==> chars(s, i, Some(quote)) is Err && chars(s, i, None) == Ok::<
            (Seq<char>, int),
            Fault,
        >((Seq::empty(), i)),
        s[i] == '&' ==> (chars(s, i, None) is Err <== reference(s, i) is Err),
        is_stray_control(s[i]) ==> chars(s, i, None) is Err && chars(s, i, Some(quote)) is Err,
{
}

/// A comment adds nothing to the content that it stands in.
pub proof fn a_comment_adds_nothing(
    s: Seq<char>,
    i: int,
    j: int,
    name: Seq<char>,
    open: int,
    scopes: Seq<Binding>,
    depth: nat,
    children: Seq<NodeModel>,
)
    requires
        0 <= i < s.len(),
        at(s, i, "<!--"@),
        find(s, i + 4, "-->"@) == Some(j),
    ensures
        content(s, i, name, open, scopes, depth, children) == content(
            s,
            j + 3,
            name,
            open,
            scopes,
            depth,
            children,
        ),
{
    reveal_strlit("<!--");
    reveal_strlit("-->");
    reveal_strlit("</");
    reveal_strlit("<![CDATA[");
    assert(s.subrange(i, i + 4)[1] == s[i + 1]);
    assert(s[i + 1] == '!');
    assert(s.subrange(i, i + 4)[2] == s[i + 2]);
    if at(s, i, "</"@) {
        assert(s.subrange(i, i + 2)[1] == s[i + 1]);
    }
    if at(s, i, "<![CDATA["@) {
        assert(s.subrange(i, i + 9)[2] == s[i + 2]);
    }
    lemma_find(s, i + 4, "-->"@);
}

/// An element may stand 256 deep and no deeper.
pub proof fn nesting_is_bounded(s: Seq<char>, i: int, scopes: Seq<Binding>, depth: nat)
    ensures
        depth > 256 ==> element(s, i, scopes, depth) is Err,
        MAX_DEPTH == 256,
{
}

/// An end tag closes the element whose name it has, and no other.
pub proof fn an_end_tag_names_what_it_closes(s: Seq<char>, i: int, name: Seq<char>, open: int)
    requires
        0 <= i <= s.len(),
    ensures
        end_tag(s, i, name, open) is Ok ==> i + name.len() <= s.len() && s.subrange(
            i,
            i + name.len(),
        ) == name,
{
    if end_tag(s, i, name, open) is Ok {
        let e = name_end(s, i + 1);
        lemma_name_end(s, i + 1);
        assert(s.subrange(i, e) == name);
        assert(name.len() == e - i);
    }
}

/// A declaration binds a prefix, or without one the default namespace, from the
/// element it stands on; any other attribute is kept as it is. No prefix can be bound
/// to nothing, though the default namespace can, and `xmlns` cannot be bound at all.
pub proof fn a_declaration_binds_its_prefix(
    tag: TagModel,
    prefix: Seq<char>,
    uri: Seq<char>,
    at: int,
    now: int,
)
    requires
        prefix.len() > 0,
        !prefix.contains(':'),
    ensures
        declare(tag, RawAttributeModel { name: "xmlns"@, value: uri, at }, now) == Ok::<
            TagModel,
            Fault,
        >(TagModel { scopes: tag.scopes.push((Seq::empty(), uri)), ..tag }),
        uri.len() > 0 && prefix != "xmlns"@ && prefix != "xml"@ ==> declare(
            tag,
            RawAttributeModel { name: "xmlns"@ + seq![':'] + prefix, value: uri, at },
            now,
        ) == Ok::<TagModel, Fault>(TagModel { scopes: tag.scopes.push((prefix, uri)), ..tag }),
        uri.len() == 0 || prefix == "xmlns"@ || (prefix == "xml"@ && uri
            != "http://www.w3.org/XML/1998/namespace"@) ==> declare(
            tag,
            RawAttributeModel { name: "xmlns"@ + seq![':'] + prefix, value: uri, at },
            now,
        ) is Err,
        prefix != "xmlns"@ ==> declare(
            tag,
            RawAttributeModel { name: prefix, value: uri, at },
            now,
        ) == Ok::<TagModel, Fault>(
            TagModel { raw: tag.raw.push(RawAttributeModel { name: prefix, value: uri, at }), ..tag },
        ),
{
    reveal_strlit("xmlns");
    assert("xmlns"@.len() == 5);
    assert(!"xmlns"@.contains(':'));
    let q = "xmlns"@ + seq![':'] + prefix;
    assert(q[5] == ':');
    assert(q.contains(':'));
    q.index_of_first_ensures(':');
    let m = q.index_of_first(':')->0;
    if m < 5 {
        assert("xmlns"@[m] == q[m]);
        assert("xmlns"@.contains(':'));
    }
    assert(m == 5);
    assert(q.take(5) =~= "xmlns"@);
    assert(q.skip(6) =~= prefix);
}

/// A doctype ends at the first `>` that is neither in quotes nor in its brackets.
pub proof fn a_doctype_skips_quotes_and_brackets(s: Seq<char>, i: int, in_subset: bool)
    requires
        0 <= i < s.len(),
    ensures
        s[i] == '>' && !in_subset ==> doctype(s, i, in_subset) == Ok::<int, Fault>(i + 1),
        s[i] == '>' && in_subset ==> doctype(s, i, in_subset) == doctype(s, i + 1, in_subset),
        s[i] == '[' ==> doctype(s, i, in_subset) == doctype(s, i + 1, true),
        s[i] == ']' ==> doctype(s, i, in_subset) == doctype(s, i + 1, false),
        s[i] == '"' || s[i] == '\'' ==> (find(s, i + 1, seq![s[i]]) matches Some(j) ==> doctype(
            s,
            i,
            in_subset,
        ) == doctype(s, j + 1, in_subset)),
        doctype(s, s.len() as int, in_subset) is Err,
{
    if s[i] == '"' || s[i] == '\'' {
        lemma_find(s, i + 1, seq![s[i]]);
    }
}

/// Names begin with a letter, an underscore, a colon or beyond ASCII, and go on with
/// those, digits, hyphens and points.
pub proof fn names_are_made_of_these(c: char)
    ensures
        is_name_start(c) <==> 'a' <= c <= 'z' || 'A' <= c <= 'Z' || c == '_' || c == ':' || c as int
            >= 128,
        is_name_char(c) <==> is_name_start(c) || '0' <= c <= '9' || c == '-' || c == '.',
{
}

/// A reference by number is the character that its digits say, in base sixteen behind
/// an `x` and in base ten otherwise, and ends with a semicolon right behind them.
pub proof fn a_numbered_reference_is_its_digits(s: Seq<char>, i: int, k: int)
    requires
        0 <= i,
        i + 1 < s.len(),
        s[i + 1] == '#',
    ensures
        reference(s, i) matches Ok((c, j)) ==> {
            let hex = s[i + 2] == 'x';
            let start = if hex {
                i + 3
            } else {
                i + 2
            };
            &&& start < j - 1 < s.len() && s[j - 1] == ';'
            &&& c as int == digits_value(s, start, j - 1, hex)
            &&& is_xml_char(c)
            &&& start <= k < j - 1 ==> '0' <= s[k] <= '9' || (hex && ('a' <= s[k] <= 'f' || 'A'
                <= s[k] <= 'F'))
        },
{
    let hex = is_at(s, i + 2, 'x');
    let start = if hex {
        i + 3
    } else {
        i + 2
    };
    if i + 2 < s.len() {
        lemma_digits_end(s, start, hex);
        lemma_all_digits(s, start, hex, k);
    }
}

proof fn lemma_all_digits(s: Seq<char>, i: int, hex: bool, k: int)
    requires
        0 <= i <= s.len(),
    ensures
        i <= k < digits_end(s, i, hex) ==> is_digit(s[k], hex),
    decreases s.len() - i,
{
    if i < s.len() && is_digit(s[i], hex) {
        lemma_all_digits(s, i + 1, hex, k);
    }
}

/// Before and behind the root there may be space, comments, instructions and a
/// doctype; what comes first behind them is where reading goes on.
pub proof fn space_around_the_root_is_skipped(s: Seq<char>, i: int)
    requires
        0 <= i < s.len(),
        s[i] == ' ' || s[i] == '\n' || s[i] == '\t' || s[i] == '\r',
    ensures
        past_blank(s, i) == past_blank(s, i + 1),
        misc(s, i) == misc(s, i + 1),
{
    lemma_past_blank(s, i + 1);
}

/// An element knows where its tag begins, has the name that its prefix expands to, and
/// is empty where its tag says so.
pub proof fn an_element_knows_where_it_begins(
    s: Seq<char>,
    i: int,
    scopes: Seq<Binding>,
    depth: nat,
)
    requires
        0 <= i <= s.len(),
    ensures
        element(s, i, scopes, depth) matches Ok((e, j)) ==> {
            &&& e.line == line_at(s, i)
            &&& e.column == column_at(s, i)
            &&& i < s.len() && s[i] == '<'
            &&& i < j <= s.len() && s[j - 1] == '>'
        },
    decreases s.len() - i,
{
    lemma_element(s, i, scopes, depth);
    if element(s, i, scopes, depth) is Ok {
        let (name, j) = qname(s, i + 1)->Ok_0;
        lemma_name_end(s, i + 2);
        let none = TagModel { scopes, raw: Seq::empty(), empty: false };
        lemma_start_tag(s, j, name, none);
        let (tag, k) = start_tag(s, j, name, none)->Ok_0;
        lemma_tag_closes(s, j, name, none);
        if !tag.empty {
            lemma_content_closes(s, k, name, i, tag.scopes, depth, Seq::empty());
        }
    }
}

proof fn lemma_tag_closes(s: Seq<char>, i: int, name: Seq<char>, tag: TagModel)
    requires
        0 <= i <= s.len(),
    ensures
        start_tag(s, i, name, tag) matches Ok((_, j)) ==> i < j <= s.len() && s[j - 1] == '>',
    decreases s.len() - i,
{
    reveal_strlit("/>");
    let j = past_blank(s, i);
    lemma_past_blank(s, i);
    if at(s, j, "/>"@) {
        assert(s.subrange(j, j + 2)[1] == s[j + 1]);
    } else if !is_at(s, j, '>') && j != i {
        match attribute(s, j) {
            Err(_) => {},
            Ok((a, k)) => {
                lemma_attribute(s, j);
                match declare(tag, a, k) {
                    Err(_) => {},
                    Ok(next) => {
                        lemma_tag_closes(s, k, name, next);
                    },
                }
            },
        }
    }
}

proof fn lemma_content_closes(
    s: Seq<char>,
    i: int,
    name: Seq<char>,
    open: int,
    scopes: Seq<Binding>,
    depth: nat,
    children: Seq<NodeModel>,
)
    requires
        0 <= i <= s.len(),
    ensures
        content(s, i, name, open, scopes, depth, children) matches Ok((_, j)) ==> i < j <= s.len()
            && s[j - 1] == '>',
    decreases s.len() - i,
{
    lemma_content(s, i, name, open, scopes, depth, children);
    if i < s.len() && content(s, i, name, open, scopes, depth, children) is Ok {
        reveal_strlit("</");
        if at(s, i, "</"@) {
            lemma_name_end(s, i + 3);
            if i + 2 < s.len() {
                lemma_past_blank(s, name_end(s, i + 3));
            }
        } else if at(s, i, "<![CDATA["@) {
            reveal_strlit("<![CDATA[");
            reveal_strlit("]]>");
            let start = i + "<![CDATA["@.len();
            lemma_find(s, start, "]]>"@);
            let (text, j) = until(s, start, "]]>"@, "CDATA section"@)->Ok_0;
            lemma_content_closes(s, j, name, open, scopes, depth, with_text(children, text));
        } else if at(s, i, "<!--"@) {
            reveal_strlit("<!--");
            reveal_strlit("-->");
            let start = i + "<!--"@.len();
            lemma_find(s, start, "-->"@);
            let (_, j) = until(s, start, "-->"@, "comment"@)->Ok_0;
            lemma_content_closes(s, j, name, open, scopes, depth, children);
        } else if at(s, i, "<?"@) {
            reveal_strlit("<?");
            reveal_strlit("?>");
            let start = i + "<?"@.len();
            lemma_find(s, start, "?>"@);
            let (_, j) = until(s, start, "?>"@, "processing instruction"@)->Ok_0;
            lemma_content_closes(s, j, name, open, scopes, depth, children);
        } else if at(s, i, "<!"@) {
        } else if s[i] == '<' {
            lemma_element(s, i, scopes, depth + 1);
            let (child, j) = element(s, i, scopes, depth + 1)->Ok_0;
            lemma_content_closes(
                s,
                j,
                name,
                open,
                scopes,
                depth,
                children.push(NodeModel::Element(child)),
            );
        } else {
            lemma_chars_progress(s, i);
            let (text, j) = chars(s, i, None)->Ok_0;
            lemma_content_closes(s, j, name, open, scopes, depth, with_text(children, text));
        }
    }
}

} // verus!
