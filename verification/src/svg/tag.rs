//! Elements by their name, attributes and children alone, the text they are
//! written as, and that reading this text gives them back.

use vstd::prelude::*;
use super::document;
use super::export;
use super::markup;
use super::markup::AttributeModel;
use super::markup::Binding;
use super::markup::ElementModel;
use super::markup::Fault;
use super::markup::NameModel;
use super::markup::NodeModel;
use super::markup::RawAttributeModel;
use super::markup::TagModel;

verus! {

broadcast use vstd::string::group_string_axioms;

/// An attribute: its name and its value.
pub type Pair = (Seq<char>, Seq<char>);

/// An element in the SVG namespace.
pub struct Tag {
    pub name: Seq<char>,
    pub attributes: Seq<Pair>,
    pub children: Seq<Tag>,
    /// Whether it is written as an empty-element tag.
    pub leaf: bool,
}

/// Attributes as they are written, each with a space before it.
pub open spec fn attributes_text(a: Seq<Pair>) -> Seq<char>
    decreases a.len(),
{
    if a.len() == 0 {
        Seq::empty()
    } else {
        attributes_text(a.drop_last()) + export::attribute(a.last().0, a.last().1)
    }
}

/// An element, from its `<` to its last `>`. `n` is how far it is indented.
pub open spec fn body(t: Tag, n: nat) -> Seq<char>
    decreases t, 1int,
{
    "<"@ + t.name + attributes_text(t.attributes) + (if t.leaf {
        "/>"@
    } else {
        ">"@ + inside(t, n)
    })
}

/// What stands between a start tag and the end, with the end tag.
pub open spec fn inside(t: Tag, n: nat) -> Seq<char>
    decreases t, 0int,
{
    "\n"@ + lines(t.children, n + 1, t.children.len() as int) + closing(t.name, n)
}

pub open spec fn closing(name: Seq<char>, n: nat) -> Seq<char> {
    export::indent(n) + "</"@ + name + ">"@
}

/// The first `m` of these elements, each on lines of its own.
pub open spec fn lines(ts: Seq<Tag>, n: nat, m: int) -> Seq<char>
    decreases ts, m,
{
    if m <= 0 || m > ts.len() {
        Seq::empty()
    } else {
        lines(ts, n, m - 1) + export::indent(n) + body(ts[m - 1], n) + "\n"@
    }
}

/// A name that can stand for an element or an attribute as it is.
pub open spec fn is_name(n: Seq<char>) -> bool {
    &&& n.len() > 0
    &&& markup::is_name_start(n[0])
    &&& forall|k: int| 0 <= k < n.len() ==> markup::is_name_char(#[trigger] n[k]) && n[k] != ':'
}

/// Whether an attribute value is read as it was written: white space other than
/// a plain space is normalised, other control characters are not allowed.
pub open spec fn survives(v: Seq<char>) -> bool {
    forall|k: int| 0 <= k < v.len() ==> #[trigger] v[k] >= ' '
}

proof fn lemma_at_add(s: Seq<char>, i: int, a: Seq<char>, b: Seq<char>)
    requires
        0 <= i,
        markup::at(s, i, a + b),
    ensures
        markup::at(s, i, a),
        markup::at(s, i + a.len(), b),
{
    let whole = s.subrange(i, i + a.len() + b.len());
    assert(whole == a + b);
    assert(s.subrange(i, i + a.len()) =~= a) by {
        assert forall|k: int| 0 <= k < a.len() implies s[i + k] == a[k] by {
            assert(whole[k] == (a + b)[k]);
        }
    }
    assert(s.subrange(i + a.len(), i + a.len() + b.len()) =~= b) by {
        assert forall|k: int| 0 <= k < b.len() implies s[i + a.len() + k] == b[k] by {
            assert(whole[a.len() + k] == (a + b)[a.len() + k]);
        }
    }
}

/// The characters of a text that is written somewhere.
proof fn lemma_at_index(s: Seq<char>, i: int, a: Seq<char>, k: int)
    requires
        0 <= i,
        markup::at(s, i, a),
        0 <= k < a.len(),
    ensures
        s[i + k] == a[k],
{
    assert(s.subrange(i, i + a.len())[k] == a[k]);
}

/// Where one text is written, another that starts otherwise is not.
proof fn lemma_not_at(s: Seq<char>, i: int, p: Seq<char>)
    requires
        0 <= i,
        p.len() > 0,
        i < s.len() ==> s[i] != p[0],
    ensures
        !markup::at(s, i, p),
{
    if markup::at(s, i, p) {
        assert(s.subrange(i, i + p.len())[0] == p[0]);
    }
}

/// Where the second character differs, a text is not written.
proof fn lemma_not_at_second(s: Seq<char>, i: int, p: Seq<char>)
    requires
        0 <= i,
        p.len() > 1,
        i + 1 < s.len() ==> s[i + 1] != p[1],
    ensures
        !markup::at(s, i, p),
{
    if markup::at(s, i, p) {
        assert(s.subrange(i, i + p.len())[1] == p[1]);
    }
}

proof fn lemma_name_end_read(s: Seq<char>, i: int, n: Seq<char>, k: int)
    requires
        0 <= i,
        is_name(n),
        markup::at(s, i, n),
        i + n.len() < s.len() ==> !markup::is_name_char(s[i + n.len()]),
        0 <= k <= n.len(),
    ensures
        markup::name_end(s, i + k) == i + n.len(),
    decreases n.len() - k,
{
    if k < n.len() {
        lemma_at_index(s, i, n, k);
        lemma_name_end_read(s, i, n, k + 1);
    }
}

proof fn lemma_qname_read(s: Seq<char>, i: int, n: Seq<char>)
    requires
        0 <= i,
        is_name(n),
        markup::at(s, i, n),
        i + n.len() < s.len() ==> !markup::is_name_char(s[i + n.len()]),
    ensures
        markup::qname(s, i) == Ok::<(Seq<char>, int), Fault>((n, i + n.len())),
{
    lemma_at_index(s, i, n, 0);
    lemma_name_end_read(s, i, n, 1);
}

/// An entity at `i` stands for its character.
proof fn lemma_reference_read(s: Seq<char>, i: int, c: char)
    requires
        0 <= i,
        c == '&' || c == '<' || c == '>' || c == '"',
        markup::at(s, i, export::escape(c)),
    ensures
        s[i] == '&',
        markup::reference(s, i) == Ok::<(char, int), Fault>((c, i + export::escape(c).len())),
{
    reveal_strlit("&amp;");
    reveal_strlit("&lt;");
    reveal_strlit("&gt;");
    reveal_strlit("&quot;");
    reveal_strlit("amp");
    reveal_strlit("lt");
    reveal_strlit("gt");
    reveal_strlit("quot");
    reveal_strlit("apos");
    let e = export::escape(c);
    let n = if c == '&' {
        "amp"@
    } else if c == '<' {
        "lt"@
    } else if c == '>' {
        "gt"@
    } else {
        "quot"@
    };
    assert(e =~= seq!['&'] + n + seq![';']);
    lemma_at_add(s, i, seq!['&'] + n, seq![';']);
    lemma_at_add(s, i, seq!['&'], n);
    lemma_at_index(s, i, seq!['&'], 0);
    lemma_at_index(s, i + 1, n, 0);
    lemma_at_index(s, i + 1 + n.len(), seq![';'], 0);
    lemma_qname_read(s, i + 1, n);
    assert(markup::entity(n) == Some(c));
}

proof fn lemma_escaped_first(v: Seq<char>)
    requires
        v.len() > 0,
    ensures
        export::escaped(v) == export::escape(v[0]) + export::escaped(v.skip(1)),
    decreases v.len(),
{
    if v.len() == 1 {
        assert(v.drop_last() =~= Seq::<char>::empty());
        assert(v.skip(1) =~= Seq::<char>::empty());
        assert(export::escaped(v) =~= export::escape(v[0]) + export::escaped(v.skip(1)));
    } else {
        lemma_escaped_first(v.drop_last());
        assert(v.skip(1).drop_last() =~= v.drop_last().skip(1));
        assert(export::escaped(v) =~= export::escape(v[0]) + export::escaped(v.skip(1)));
    }
}

/// An escaped text reads as the text.
proof fn lemma_chars_read(s: Seq<char>, i: int, v: Seq<char>)
    requires
        0 <= i,
        survives(v),
        markup::at(s, i, export::escaped(v)),
        markup::is_at(s, i + export::escaped(v).len(), '"'),
    ensures
        markup::chars(s, i, Some('"')) == Ok::<(Seq<char>, int), Fault>(
            (v, i + export::escaped(v).len()),
        ),
    decreases v.len(),
{
    if v.len() == 0 {
        assert(v =~= Seq::<char>::empty());
    } else {
        let c = v[0];
        let rest = v.skip(1);
        lemma_escaped_first(v);
        lemma_at_add(s, i, export::escape(c), export::escaped(rest));
        assert(survives(rest)) by {
            assert forall|k: int| 0 <= k < rest.len() implies #[trigger] rest[k] >= ' ' by {
                assert(rest[k] == v[k + 1]);
            }
        }
        lemma_chars_read(s, i + export::escape(c).len(), rest);
        assert(seq![c] + rest =~= v);
        if c == '&' || c == '<' || c == '>' || c == '"' {
            lemma_reference_read(s, i, c);
        } else {
            lemma_at_index(s, i, export::escape(c), 0);
        }
    }
}

/// An attribute reads as it was written; `i` is after the space before it.
proof fn lemma_attribute_read(s: Seq<char>, i: int, n: Seq<char>, v: Seq<char>)
    requires
        0 < i,
        is_name(n),
        survives(v),
        markup::at(s, i - 1, export::attribute(n, v)),
    ensures
        s[i - 1] == ' ',
        s[i] == n[0],
        markup::attribute(s, i) == Ok::<(RawAttributeModel, int), Fault>(
            (
                RawAttributeModel { name: n, value: v, at: i },
                i - 1 + export::attribute(n, v).len(),
            ),
        ),
{
    reveal_strlit(" ");
    reveal_strlit("=\"");
    reveal_strlit("\"");
    let e = export::escaped(v);
    lemma_at_add(s, i - 1, " "@ + n + "=\""@ + e, "\""@);
    lemma_at_add(s, i - 1, " "@ + n + "=\""@, e);
    lemma_at_add(s, i - 1, " "@ + n, "=\""@);
    lemma_at_add(s, i - 1, " "@, n);
    lemma_at_index(s, i - 1, " "@, 0);
    lemma_at_index(s, i, n, 0);
    let j = i + n.len();
    lemma_at_index(s, j, "=\""@, 0);
    lemma_at_index(s, j, "=\""@, 1);
    lemma_at_index(s, j + 2 + e.len(), "\""@, 0);
    lemma_qname_read(s, i, n);
    lemma_chars_read(s, j + 2, v);
    assert(markup::past_blank(s, j) == j);
    assert(markup::past_blank(s, j + 1) == j + 1);
    assert(markup::value(s, j + 1) == Ok::<(Seq<char>, int), Fault>((v, j + 2 + e.len() + 1)));
}

proof fn lemma_attributes_first(a: Seq<Pair>)
    requires
        a.len() > 0,
    ensures
        attributes_text(a) == export::attribute(a[0].0, a[0].1) + attributes_text(a.skip(1)),
    decreases a.len(),
{
    if a.len() == 1 {
        assert(a.drop_last() =~= Seq::<Pair>::empty());
        assert(a.skip(1) =~= Seq::<Pair>::empty());
        assert(attributes_text(a) =~= export::attribute(a[0].0, a[0].1) + attributes_text(
            a.skip(1),
        ));
    } else {
        lemma_attributes_first(a.drop_last());
        assert(a.skip(1).drop_last() =~= a.drop_last().skip(1));
        assert(attributes_text(a) =~= export::attribute(a[0].0, a[0].1) + attributes_text(
            a.skip(1),
        ));
    }
}

/// Whether attributes can be written: names that are none of a namespace
/// declaration, no name twice, and values that survive.
pub open spec fn attributes_ok(a: Seq<Pair>) -> bool {
    &&& forall|k: int|
        0 <= k < a.len() ==> is_name((#[trigger] a[k]).0) && a[k].0 != "xmlns"@ && survives(a[k].1)
    &&& forall|j: int, k: int| 0 <= j < k < a.len() ==> (#[trigger] a[j]).0 != (#[trigger] a[k]).0
}

/// Whether raw attributes are these, wherever they stand.
pub open spec fn are_raw(raw: Seq<RawAttributeModel>, a: Seq<Pair>) -> bool {
    &&& raw.len() == a.len()
    &&& forall|k: int|
        0 <= k < a.len() ==> (#[trigger] raw[k]).name == a[k].0 && raw[k].value == a[k].1
}

/// A name without a colon is its own local part.
proof fn lemma_unprefixed(n: Seq<char>)
    requires
        is_name(n),
    ensures
        markup::split_qname(n) == Some((Seq::<char>::empty(), n)),
{
    assert(!n.contains(':'));
}

/// The rest of a start tag reads as the attributes written there. `done` are
/// those read before.
proof fn lemma_start_tag_read(
    s: Seq<char>,
    i: int,
    name: Seq<char>,
    tag: TagModel,
    done: Seq<Pair>,
    a: Seq<Pair>,
    leaf: bool,
)
    requires
        0 <= i,
        attributes_ok(a),
        are_raw(tag.raw, done),
        markup::at(s, i, attributes_text(a)),
        if leaf {
            markup::at(s, i + attributes_text(a).len(), "/>"@)
        } else {
            markup::is_at(s, i + attributes_text(a).len(), '>')
        },
    ensures
        markup::start_tag(s, i, name, tag) matches Ok((t, j)) && j == i + attributes_text(a).len()
            + (if leaf {
            2int
        } else {
            1
        }) && t.scopes == tag.scopes && t.empty == leaf && are_raw(t.raw, done + a),
    decreases a.len(),
{
    reveal_strlit("/>");
    if a.len() == 0 {
        assert(done + a =~= done);
        if leaf {
            lemma_at_index(s, i, "/>"@, 0);
        } else {
            lemma_not_at(s, i, "/>"@);
        }
        assert(markup::past_blank(s, i) == i);
    } else {
        let n = a[0].0;
        let v = a[0].1;
        let rest = a.skip(1);
        lemma_attributes_first(a);
        lemma_at_add(s, i, export::attribute(n, v), attributes_text(rest));
        lemma_attribute_read(s, i + 1, n, v);
        let k = i + export::attribute(n, v).len();
        assert(markup::past_blank(s, i + 1) == i + 1);
        assert(markup::past_blank(s, i) == i + 1);
        lemma_not_at(s, i + 1, "/>"@);
        lemma_unprefixed(n);
        reveal_strlit("xmlns");
        let raw = RawAttributeModel { name: n, value: v, at: i + 1 };
        let next = TagModel { raw: tag.raw.push(raw), ..tag };
        assert(Seq::<char>::empty() != "xmlns"@);
        assert(markup::declare(tag, raw, k) == Ok::<TagModel, Fault>(next));
        assert(are_raw(next.raw, done.push(a[0])));
        assert(attributes_ok(rest)) by {
            assert forall|j: int| 0 <= j < rest.len() implies is_name((#[trigger] rest[j]).0)
                && rest[j].0 != "xmlns"@ && survives(rest[j].1) by {
                assert(rest[j] == a[j + 1]);
            }
            assert forall|j: int, m: int| 0 <= j < m < rest.len() implies (#[trigger] rest[j]).0
                != (#[trigger] rest[m]).0 by {
                assert(rest[j] == a[j + 1]);
                assert(rest[m] == a[m + 1]);
            }
        }
        lemma_start_tag_read(s, k, name, next, done.push(a[0]), rest, leaf);
        assert(done.push(a[0]) + rest =~= done + a);
    }
}

/// Attributes as they are read: unprefixed, in no namespace.
pub open spec fn attribute_models(a: Seq<Pair>) -> Seq<AttributeModel> {
    Seq::new(
        a.len(),
        |k: int|
            AttributeModel { name: NameModel { namespace: None, local: a[k].0 }, value: a[k].1 },
    )
}

proof fn lemma_resolved(
    scopes: Seq<Binding>,
    raw: Seq<RawAttributeModel>,
    a: Seq<Pair>,
    n: int,
    now: int,
)
    requires
        attributes_ok(a),
        are_raw(raw, a),
        0 <= n <= a.len(),
    ensures
        markup::resolve_all(scopes, raw, n, now) == Ok::<Seq<AttributeModel>, Fault>(
            attribute_models(a).take(n),
        ),
    decreases n,
{
    let all = attribute_models(a);
    if n == 0 {
        assert(all.take(0) =~= Seq::<AttributeModel>::empty());
    } else {
        lemma_resolved(scopes, raw, a, n - 1, now);
        let done = all.take(n - 1);
        let name = NameModel { namespace: None, local: a[n - 1].0 };
        assert(raw[n - 1].name == a[n - 1].0);
        lemma_unprefixed(a[n - 1].0);
        assert forall|k: int| 0 <= k < done.len() implies (#[trigger] done[k]).name != name by {
            assert(done[k].name.local == a[k].0);
            assert(a[k].0 != a[n - 1].0);
        }
        assert(all.take(n) =~= done.push(all[n - 1]));
    }
}

/// Whether an element is this one, wherever it stands: its name in the SVG
/// namespace, its attributes, and the elements among its children.
pub open spec fn reads(e: ElementModel, t: Tag) -> bool
    decreases t, 0int,
{
    &&& e.name == NameModel { namespace: Some(document::SVG_NS@), local: t.name }
    &&& e.attributes == attribute_models(t.attributes)
    &&& all_read(e.children, e.children.len() as int, t.children, t.children.len() as int)
}

/// Whether the elements among the first `n` nodes are the first `m` of these.
pub open spec fn all_read(nodes: Seq<NodeModel>, n: int, ts: Seq<Tag>, m: int) -> bool
    decreases ts, n,
{
    if n <= 0 {
        m == 0
    } else {
        match nodes[n - 1] {
            NodeModel::Text(_) => all_read(nodes, n - 1, ts, m),
            NodeModel::Element(e) => 0 < m <= ts.len() && reads(e, ts[m - 1]) && all_read(
                nodes,
                n - 1,
                ts,
                m - 1,
            ),
        }
    }
}

proof fn lemma_all_read_prefix(
    a: Seq<NodeModel>,
    b: Seq<NodeModel>,
    n: int,
    ts: Seq<Tag>,
    m: int,
)
    requires
        n <= a.len(),
        n <= b.len(),
        forall|k: int| 0 <= k < n ==> (#[trigger] a[k]) == b[k],
        all_read(a, n, ts, m),
    ensures
        all_read(b, n, ts, m),
    decreases n,
{
    if n > 0 {
        assert(a[n - 1] == b[n - 1]);
        match a[n - 1] {
            NodeModel::Text(_) => lemma_all_read_prefix(a, b, n - 1, ts, m),
            NodeModel::Element(_) => lemma_all_read_prefix(a, b, n - 1, ts, m - 1),
        }
    }
}

/// Whether an element can be written `d` elements deep and read again.
pub open spec fn fits(t: Tag, d: nat) -> bool
    decreases t, 0int,
{
    &&& d <= markup::MAX_DEPTH
    &&& is_name(t.name)
    &&& attributes_ok(t.attributes)
    &&& t.leaf ==> t.children.len() == 0
    &&& all_fit(t.children, t.children.len() as int, d + 1)
}

pub open spec fn all_fit(ts: Seq<Tag>, m: int, d: nat) -> bool
    decreases ts, m,
{
    if m <= 0 || m > ts.len() {
        true
    } else {
        all_fit(ts, m - 1, d) && fits(ts[m - 1], d)
    }
}

pub proof fn lemma_all_fit(ts: Seq<Tag>, m: int, d: nat, k: int)
    requires
        all_fit(ts, m, d),
        0 <= k < m <= ts.len(),
    ensures
        fits(ts[k], d),
    decreases m,
{
    if k < m - 1 {
        lemma_all_fit(ts, m - 1, d, k);
    }
}

pub proof fn lemma_fits_all(ts: Seq<Tag>, m: int, d: nat)
    requires
        m <= ts.len(),
        forall|k: int| 0 <= k < m ==> fits(#[trigger] ts[k], d),
    ensures
        all_fit(ts, m, d),
    decreases m,
{
    if m > 0 {
        lemma_fits_all(ts, m - 1, d);
        assert(fits(ts[m - 1], d));
    }
}

/// The elements from the `k`th on, each on lines of its own.
spec fn lines_from(ts: Seq<Tag>, n: nat, k: int) -> Seq<char>
    decreases ts.len() - k,
{
    if k < 0 || k >= ts.len() {
        Seq::empty()
    } else {
        export::indent(n) + body(ts[k], n) + "\n"@ + lines_from(ts, n, k + 1)
    }
}

proof fn lemma_lines_from(ts: Seq<Tag>, n: nat, k: int)
    requires
        0 <= k <= ts.len(),
    ensures
        lines(ts, n, ts.len() as int) == lines(ts, n, k) + lines_from(ts, n, k),
    decreases ts.len() - k,
{
    let all = lines(ts, n, ts.len() as int);
    if k == ts.len() {
        assert(all + Seq::<char>::empty() =~= all);
    } else {
        lemma_lines_from(ts, n, k + 1);
        assert(lines(ts, n, k + 1) + lines_from(ts, n, k + 1) =~= lines(ts, n, k) + lines_from(
            ts,
            n,
            k,
        ));
    }
}

/// What is left of an element behind its `k`th child.
spec fn rest(t: Tag, n: nat, k: int) -> Seq<char> {
    "\n"@ + lines_from(t.children, n + 1, k) + closing(t.name, n)
}

proof fn lemma_inside(t: Tag, n: nat)
    ensures
        inside(t, n) == rest(t, n, 0),
{
    lemma_lines_from(t.children, n + 1, 0);
    assert(lines(t.children, n + 1, t.children.len() as int) =~= lines_from(t.children, n + 1, 0));
}

proof fn lemma_rest(t: Tag, n: nat, k: int)
    requires
        0 <= k < t.children.len(),
    ensures
        rest(t, n, k) == "\n"@ + export::indent(n + 1) + body(t.children[k], n + 1) + rest(
            t,
            n,
            k + 1,
        ),
{
    assert(rest(t, n, k) =~= "\n"@ + export::indent(n + 1) + body(t.children[k], n + 1) + rest(
        t,
        n,
        k + 1,
    ));
}

/// White space between tags.
spec fn is_white(w: Seq<char>) -> bool {
    forall|k: int| 0 <= k < w.len() ==> #[trigger] w[k] == ' ' || w[k] == '\n'
}

proof fn lemma_indent_white(n: nat)
    ensures
        is_white(export::indent(n)),
    decreases n,
{
    reveal_strlit("  ");
    if n > 0 {
        lemma_indent_white((n - 1) as nat);
        let a = export::indent((n - 1) as nat);
        let w = export::indent(n);
        assert forall|k: int| 0 <= k < w.len() implies #[trigger] w[k] == ' ' || w[k] == '\n' by {
            if k < a.len() {
                assert(w[k] == a[k]);
            } else {
                assert(w[k] == "  "@[k - a.len()]);
            }
        }
    }
}

proof fn lemma_white_read(s: Seq<char>, i: int, w: Seq<char>)
    requires
        0 <= i,
        is_white(w),
        markup::at(s, i, w),
        markup::is_at(s, i + w.len(), '<'),
    ensures
        markup::chars(s, i, None) == Ok::<(Seq<char>, int), Fault>((w, i + w.len())),
    decreases w.len(),
{
    if w.len() == 0 {
        assert(w =~= Seq::<char>::empty());
    } else {
        lemma_at_index(s, i, w, 0);
        assert(w =~= w.take(1) + w.skip(1));
        lemma_at_add(s, i, w.take(1), w.skip(1));
        assert(is_white(w.skip(1))) by {
            assert forall|k: int| 0 <= k < w.skip(1).len() implies #[trigger] w.skip(1)[k] == ' '
                || w.skip(1)[k] == '\n' by {
                assert(w.skip(1)[k] == w[k + 1]);
            }
        }
        lemma_white_read(s, i + 1, w.skip(1));
        assert(seq![w[0]] + w.skip(1) =~= w);
    }
}

proof fn lemma_closing_read(s: Seq<char>, i: int, name: Seq<char>, open: int)
    requires
        0 <= i,
        is_name(name),
        markup::at(s, i, "</"@ + name + ">"@),
    ensures
        s[i] == '<',
        markup::at(s, i, "</"@),
        markup::end_tag(s, i + "</"@.len(), name, open) == Ok::<int, Fault>(i + 3 + name.len()),
{
    reveal_strlit("</");
    reveal_strlit(">");
    lemma_at_add(s, i, "</"@ + name, ">"@);
    lemma_at_add(s, i, "</"@, name);
    lemma_at_index(s, i, "</"@, 0);
    let j = i + 2 + name.len();
    lemma_at_index(s, j, ">"@, 0);
    lemma_qname_read(s, i + 2, name);
    assert(markup::past_blank(s, j) == j);
}

/// Nothing but an element starts with `<` and a name.
proof fn lemma_starts_element(s: Seq<char>, i: int)
    requires
        0 <= i,
        i + 1 < s.len(),
        s[i] == '<',
        markup::is_name_start(s[i + 1]),
    ensures
        !markup::at(s, i, "</"@),
        !markup::at(s, i, "<![CDATA["@),
        !markup::at(s, i, "<!--"@),
        !markup::at(s, i, "<?"@),
        !markup::at(s, i, "<!"@),
        !markup::at(s, i, "<!DOCTYPE"@),
{
    reveal_strlit("</");
    reveal_strlit("<![CDATA[");
    reveal_strlit("<!--");
    reveal_strlit("<?");
    reveal_strlit("<!");
    reveal_strlit("<!DOCTYPE");
    lemma_not_at_second(s, i, "</"@);
    lemma_not_at_second(s, i, "<![CDATA["@);
    lemma_not_at_second(s, i, "<!--"@);
    lemma_not_at_second(s, i, "<?"@);
    lemma_not_at_second(s, i, "<!"@);
    lemma_not_at_second(s, i, "<!DOCTYPE"@);
}

/// What does not start with `<` is character data.
proof fn lemma_starts_text(s: Seq<char>, i: int)
    requires
        0 <= i < s.len(),
        s[i] != '<',
    ensures
        !markup::at(s, i, "</"@),
        !markup::at(s, i, "<![CDATA["@),
        !markup::at(s, i, "<!--"@),
        !markup::at(s, i, "<?"@),
        !markup::at(s, i, "<!"@),
{
    reveal_strlit("</");
    reveal_strlit("<![CDATA[");
    reveal_strlit("<!--");
    reveal_strlit("<?");
    reveal_strlit("<!");
    lemma_not_at(s, i, "</"@);
    lemma_not_at(s, i, "<![CDATA["@);
    lemma_not_at(s, i, "<!--"@);
    lemma_not_at(s, i, "<?"@);
    lemma_not_at(s, i, "<!"@);
}

/// An element starts with `<` and its name.
proof fn lemma_body_start(s: Seq<char>, i: int, t: Tag, n: nat)
    requires
        0 <= i,
        is_name(t.name),
        markup::at(s, i, body(t, n)),
    ensures
        body(t, n).len() >= 2,
        s[i] == '<',
        markup::at(s, i + 1, t.name),
        s[i + 1] == t.name[0],
        markup::at(s, i + 1 + t.name.len(), attributes_text(t.attributes) + (if t.leaf {
            "/>"@
        } else {
            ">"@ + inside(t, n)
        })),
{
    reveal_strlit("<");
    let end = if t.leaf {
        "/>"@
    } else {
        ">"@ + inside(t, n)
    };
    assert(body(t, n) =~= "<"@ + t.name + (attributes_text(t.attributes) + end));
    lemma_at_add(s, i, "<"@ + t.name, attributes_text(t.attributes) + end);
    lemma_at_add(s, i, "<"@, t.name);
    lemma_at_index(s, i, "<"@, 0);
    lemma_at_index(s, i + 1, t.name, 0);
}

/// White space in front of a tag reads as a text node of its own.
proof fn lemma_space_read(
    s: Seq<char>,
    i: int,
    deep: nat,
    name: Seq<char>,
    open: int,
    scopes: Seq<Binding>,
    depth: nat,
    children: Seq<NodeModel>,
    ts: Seq<Tag>,
    k: int,
)
    requires
        0 <= i,
        markup::at(s, i, "\n"@ + export::indent(deep)),
        markup::is_at(s, i + 1 + export::indent(deep).len(), '<'),
        children.len() > 0 ==> children.last() is Element,
        all_read(children, children.len() as int, ts, k),
    ensures
        ({
            let more = children.push(NodeModel::Text("\n"@ + export::indent(deep)));
            &&& markup::content(s, i, name, open, scopes, depth, children) == markup::content(
                s,
                i + 1 + export::indent(deep).len(),
                name,
                open,
                scopes,
                depth,
                more,
            )
            &&& all_read(more, more.len() as int, ts, k)
        }),
{
    let w = "\n"@ + export::indent(deep);
    reveal_strlit("\n");
    lemma_indent_white(deep);
    assert(is_white(w)) by {
        assert forall|m: int| 0 <= m < w.len() implies #[trigger] w[m] == ' ' || w[m] == '\n' by {
            if m > 0 {
                assert(w[m] == export::indent(deep)[m - 1]);
            }
        }
    }
    lemma_at_index(s, i, w, 0);
    lemma_starts_text(s, i);
    lemma_white_read(s, i, w);
    let more = children.push(NodeModel::Text(w));
    assert(markup::with_text(children, w) == more);
    lemma_all_read_prefix(children, more, children.len() as int, ts, k);
}

/// Behind its last child an element ends as it was written.
proof fn lemma_end_read(
    s: Seq<char>,
    i: int,
    t: Tag,
    n: nat,
    open: int,
    scopes: Seq<Binding>,
    depth: nat,
    children: Seq<NodeModel>,
)
    requires
        0 <= i,
        is_name(t.name),
        markup::at(s, i, rest(t, n, t.children.len() as int)),
        all_read(children, children.len() as int, t.children, t.children.len() as int),
        children.len() > 0 ==> children.last() is Element,
    ensures
        markup::content(s, i, t.name, open, scopes, depth, children) matches Ok((c, j)) && j == i
            + rest(t, n, t.children.len() as int).len() && all_read(
            c,
            c.len() as int,
            t.children,
            t.children.len() as int,
        ),
{
    let k = t.children.len() as int;
    let w = "\n"@ + export::indent(n);
    let behind = "</"@ + t.name + ">"@;
    reveal_strlit("\n");
    assert(rest(t, n, k) =~= w + behind);
    lemma_at_add(s, i, w, behind);
    let i2 = i + 1 + export::indent(n).len();
    lemma_closing_read(s, i2, t.name, open);
    lemma_space_read(s, i, n, t.name, open, scopes, depth, children, t.children, k);
    reveal_strlit("</");
    reveal_strlit(">");
}

/// What is left of an element reads as it was written.
proof fn lemma_content_read(
    s: Seq<char>,
    i: int,
    t: Tag,
    n: nat,
    k: int,
    open: int,
    scopes: Seq<Binding>,
    depth: nat,
    children: Seq<NodeModel>,
)
    requires
        0 <= i,
        is_name(t.name),
        all_fit(t.children, t.children.len() as int, depth + 1),
        markup::lookup(scopes, Seq::empty()) == Some(document::SVG_NS@),
        markup::at(s, i, rest(t, n, k)),
        0 <= k <= t.children.len(),
        all_read(children, children.len() as int, t.children, k),
        children.len() > 0 ==> children.last() is Element,
    ensures
        markup::content(s, i, t.name, open, scopes, depth, children) matches Ok((c, j)) && j == i
            + rest(t, n, k).len() && all_read(
            c,
            c.len() as int,
            t.children,
            t.children.len() as int,
        ),
    decreases t, t.children.len() - k, 1int,
{
    reveal_strlit("\n");
    if k == t.children.len() {
        lemma_end_read(s, i, t, n, open, scopes, depth, children);
    } else {
        let child = t.children[k];
        let w = "\n"@ + export::indent(n + 1);
        let behind = body(child, n + 1) + rest(t, n, k + 1);
        lemma_rest(t, n, k);
        assert(rest(t, n, k) =~= w + behind);
        lemma_at_add(s, i, w, behind);
        let i2 = i + 1 + export::indent(n + 1).len();
        lemma_all_fit(t.children, t.children.len() as int, depth + 1, k);
        lemma_at_add(s, i2, body(child, n + 1), rest(t, n, k + 1));
        lemma_body_start(s, i2, child, n + 1);
        lemma_space_read(s, i, n + 1, t.name, open, scopes, depth, children, t.children, k);
        lemma_child_read(
            s,
            i2,
            t,
            n,
            k,
            open,
            scopes,
            depth,
            children.push(NodeModel::Text(w)),
        );
    }
}

/// The next child reads as it was written, and so does what is left then.
proof fn lemma_child_read(
    s: Seq<char>,
    i: int,
    t: Tag,
    n: nat,
    k: int,
    open: int,
    scopes: Seq<Binding>,
    depth: nat,
    children: Seq<NodeModel>,
)
    requires
        0 <= i,
        is_name(t.name),
        all_fit(t.children, t.children.len() as int, depth + 1),
        markup::lookup(scopes, Seq::empty()) == Some(document::SVG_NS@),
        0 <= k < t.children.len(),
        markup::at(s, i, body(t.children[k], n + 1)),
        markup::at(s, i + body(t.children[k], n + 1).len(), rest(t, n, k + 1)),
        all_read(children, children.len() as int, t.children, k),
    ensures
        markup::content(s, i, t.name, open, scopes, depth, children) matches Ok((c, j)) && j == i
            + body(t.children[k], n + 1).len() + rest(t, n, k + 1).len() && all_read(
            c,
            c.len() as int,
            t.children,
            t.children.len() as int,
        ),
    decreases t, t.children.len() - k, 0int,
{
    let child = t.children[k];
    lemma_all_fit(t.children, t.children.len() as int, depth + 1, k);
    lemma_body_start(s, i, child, n + 1);
    lemma_starts_element(s, i);
    lemma_element_read(s, i, child, n + 1, scopes, depth + 1);
    let (e, j) = markup::element(s, i, scopes, depth + 1)->Ok_0;
    let more = children.push(NodeModel::Element(e));
    assert(all_read(more, more.len() as int, t.children, k + 1)) by {
        lemma_all_read_prefix(children, more, children.len() as int, t.children, k);
    }
    lemma_content_read(s, j, t, n, k + 1, open, scopes, depth, more);
}

/// An element reads as it was written, behind a start tag that has been read.
proof fn lemma_element_behind(
    s: Seq<char>,
    i: int,
    t: Tag,
    n: nat,
    scopes: Seq<Binding>,
    depth: nat,
    raw: TagModel,
    k: int,
)
    requires
        0 <= i < k,
        fits(t, depth),
        markup::is_at(s, i, '<'),
        markup::qname(s, i + 1) == Ok::<(Seq<char>, int), Fault>((t.name, i + 1 + t.name.len())),
        markup::start_tag(
            s,
            i + 1 + t.name.len(),
            t.name,
            TagModel { scopes, raw: Seq::empty(), empty: false },
        ) == Ok::<(TagModel, int), Fault>((raw, k)),
        markup::lookup(raw.scopes, Seq::empty()) == Some(document::SVG_NS@),
        are_raw(raw.raw, t.attributes),
        raw.empty == t.leaf,
        !t.leaf ==> markup::at(s, k, inside(t, n)),
    ensures
        markup::element(s, i, scopes, depth) matches Ok((e, j)) && j == k + (if t.leaf {
            0
        } else {
            inside(t, n).len() as int
        }) && reads(e, t),
    decreases t, t.children.len() + 1, 0int,
{
    lemma_unprefixed(t.name);
    lemma_resolved(raw.scopes, raw.raw, t.attributes, t.attributes.len() as int, k);
    let all = attribute_models(t.attributes);
    assert(all.take(t.attributes.len() as int) =~= all);
    assert(raw.raw.len() == t.attributes.len());
    if t.leaf {
        assert(all_read(Seq::<NodeModel>::empty(), 0, t.children, 0));
    } else {
        lemma_inside(t, n);
        assert(all_read(Seq::<NodeModel>::empty(), 0, t.children, 0));
        lemma_content_read(s, k, t, n, 0, i, raw.scopes, depth, Seq::empty());
    }
}

/// An element reads as it was written.
proof fn lemma_element_read(
    s: Seq<char>,
    i: int,
    t: Tag,
    n: nat,
    scopes: Seq<Binding>,
    depth: nat,
)
    requires
        0 <= i,
        fits(t, depth),
        markup::lookup(scopes, Seq::empty()) == Some(document::SVG_NS@),
        markup::at(s, i, body(t, n)),
    ensures
        markup::element(s, i, scopes, depth) matches Ok((e, j)) && j == i + body(t, n).len()
            && reads(e, t),
    decreases t, t.children.len() + 2, 0int,
{
    lemma_body_start(s, i, t, n);
    let end = if t.leaf {
        "/>"@
    } else {
        ">"@ + inside(t, n)
    };
    reveal_strlit("/>");
    reveal_strlit(">");
    reveal_strlit("<");
    let a = t.attributes;
    let j = i + 1 + t.name.len();
    lemma_at_add(s, j, attributes_text(a), end);
    let m = j + attributes_text(a).len();
    if t.leaf {
        lemma_at_index(s, m, "/>"@, 0);
    } else {
        lemma_at_add(s, m, ">"@, inside(t, n));
        lemma_at_index(s, m, ">"@, 0);
    }
    assert(!markup::is_name_char(s[j])) by {
        if a.len() > 0 {
            lemma_attributes_first(a);
            lemma_at_add(s, j, export::attribute(a[0].0, a[0].1), attributes_text(a.skip(1)));
            lemma_attribute_read(s, j + 1, a[0].0, a[0].1);
        } else {
            assert(m == j);
        }
    }
    lemma_qname_read(s, i + 1, t.name);
    let tag = TagModel { scopes, raw: Seq::empty(), empty: false };
    let none = Seq::<Pair>::empty();
    assert(are_raw(tag.raw, none));
    lemma_start_tag_read(s, j, t.name, tag, none, a, t.leaf);
    assert(none + a =~= a);
    let (raw, k) = markup::start_tag(s, j, t.name, tag)->Ok_0;
    lemma_element_behind(s, i, t, n, scopes, depth, raw, k);
}

/// A document with this root, which declares the SVG namespace.
pub open spec fn document_text(t: Tag) -> Seq<char> {
    export::prologue() + "<"@ + t.name + export::attribute("xmlns"@, document::SVG_NS@) + attributes_text(
        t.attributes,
    ) + ">"@ + inside(t, 0) + "\n"@
}

/// Whether `c` is not among the first `k` characters.
spec fn free_of(s: Seq<char>, c: char, k: int) -> bool
    decreases k,
{
    k <= 0 || (s[k - 1] != c && free_of(s, c, k - 1))
}

proof fn lemma_free_of(s: Seq<char>, c: char, k: int, j: int)
    requires
        free_of(s, c, k),
        0 <= j < k,
    ensures
        s[j] != c,
    decreases k,
{
    if j < k - 1 {
        lemma_free_of(s, c, k - 1, j);
    }
}

/// Whether the first `k` characters could stand in a name.
pub open spec fn names_to(n: Seq<char>, k: int) -> bool
    decreases k,
{
    k <= 0 || (markup::is_name_char(n[k - 1]) && n[k - 1] != ':' && names_to(n, k - 1))
}

proof fn lemma_names_to(n: Seq<char>, k: int, j: int)
    requires
        names_to(n, k),
        0 <= j < k,
    ensures
        markup::is_name_char(n[j]) && n[j] != ':',
    decreases k,
{
    if j < k - 1 {
        lemma_names_to(n, k - 1, j);
    }
}

pub proof fn lemma_is_name(n: Seq<char>)
    requires
        n.len() > 0,
        markup::is_name_start(n[0]),
        names_to(n, n.len() as int),
    ensures
        is_name(n),
{
    assert forall|k: int| 0 <= k < n.len() implies markup::is_name_char(#[trigger] n[k]) && n[k]
        != ':' by {
        lemma_names_to(n, n.len() as int, k);
    }
}

/// Whether the first `k` characters are none that an attribute value loses.
pub open spec fn survives_to(v: Seq<char>, k: int) -> bool
    decreases k,
{
    k <= 0 || (v[k - 1] >= ' ' && survives_to(v, k - 1))
}

pub proof fn lemma_survives(v: Seq<char>, k: int)
    requires
        survives_to(v, k),
        k == v.len(),
    ensures
        survives(v),
    decreases k,
{
    if k > 0 {
        assert(v.drop_last() =~= v.take(k - 1));
        lemma_survives_prefix(v, k - 1);
        lemma_survives(v.drop_last(), k - 1);
        assert forall|j: int| 0 <= j < v.len() implies #[trigger] v[j] >= ' ' by {
            if j < k - 1 {
                assert(v.drop_last()[j] == v[j]);
            }
        }
    }
}

proof fn lemma_survives_prefix(v: Seq<char>, k: int)
    requires
        survives_to(v, k),
        k < v.len(),
    ensures
        survives_to(v.drop_last(), k),
    decreases k,
{
    if k > 0 {
        lemma_survives_prefix(v, k - 1);
    }
}

/// No carriage return, which a reader would normalise.
spec fn clean(s: Seq<char>) -> bool {
    forall|k: int| 0 <= k < s.len() ==> #[trigger] s[k] != '\r'
}

proof fn lemma_clean_add(a: Seq<char>, b: Seq<char>)
    requires
        clean(a),
        clean(b),
    ensures
        clean(a + b),
{
    assert forall|k: int| 0 <= k < (a + b).len() implies #[trigger] (a + b)[k] != '\r' by {
        if k < a.len() {
            assert((a + b)[k] == a[k]);
        } else {
            assert((a + b)[k] == b[k - a.len()]);
        }
    }
}

proof fn lemma_clean_escaped(v: Seq<char>)
    requires
        survives(v),
    ensures
        clean(export::escaped(v)),
    decreases v.len(),
{
    if v.len() > 0 {
        let front = v.drop_last();
        assert forall|k: int| 0 <= k < front.len() implies #[trigger] front[k] >= ' ' by {
            assert(front[k] == v[k]);
        }
        lemma_clean_escaped(front);
        reveal_strlit("&amp;");
        reveal_strlit("&lt;");
        reveal_strlit("&gt;");
        reveal_strlit("&quot;");
        let c = v.last();
        assert(c >= ' ');
        assert(clean(export::escape(c)));
        lemma_clean_add(export::escaped(front), export::escape(c));
    }
}

proof fn lemma_clean_name(n: Seq<char>)
    requires
        is_name(n),
    ensures
        clean(n),
{
    assert forall|k: int| 0 <= k < n.len() implies #[trigger] n[k] != '\r' by {
        assert(markup::is_name_char(n[k]));
    }
}

proof fn lemma_clean_attribute(n: Seq<char>, v: Seq<char>)
    requires
        is_name(n),
        survives(v),
    ensures
        clean(export::attribute(n, v)),
{
    reveal_strlit(" ");
    reveal_strlit("=\"");
    reveal_strlit("\"");
    lemma_clean_name(n);
    lemma_clean_escaped(v);
    lemma_clean_add(" "@, n);
    lemma_clean_add(" "@ + n, "=\""@);
    lemma_clean_add(" "@ + n + "=\""@, export::escaped(v));
    lemma_clean_add(" "@ + n + "=\""@ + export::escaped(v), "\""@);
}

proof fn lemma_clean_attributes(a: Seq<Pair>)
    requires
        forall|k: int| 0 <= k < a.len() ==> is_name((#[trigger] a[k]).0) && survives(a[k].1),
    ensures
        clean(attributes_text(a)),
    decreases a.len(),
{
    if a.len() > 0 {
        let front = a.drop_last();
        assert forall|k: int| 0 <= k < front.len() implies is_name((#[trigger] front[k]).0)
            && survives(front[k].1) by {
            assert(front[k] == a[k]);
        }
        lemma_clean_attributes(front);
        assert(a.last() == a[a.len() - 1]);
        lemma_clean_attribute(a.last().0, a.last().1);
        lemma_clean_add(attributes_text(front), export::attribute(a.last().0, a.last().1));
    }
}

proof fn lemma_clean_indent(n: nat)
    ensures
        clean(export::indent(n)),
{
    lemma_indent_white(n);
    let w = export::indent(n);
    assert forall|k: int| 0 <= k < w.len() implies #[trigger] w[k] != '\r' by {
        assert(w[k] == ' ' || w[k] == '\n');
    }
}

proof fn lemma_clean_inside(t: Tag, n: nat, d: nat)
    requires
        fits(t, d),
    ensures
        clean(inside(t, n)),
    decreases t, 0int,
{
    reveal_strlit("\n");
    reveal_strlit("</");
    reveal_strlit(">");
    let m = t.children.len() as int;
    lemma_clean_lines(t.children, n + 1, m, d + 1);
    lemma_clean_indent(n);
    lemma_clean_name(t.name);
    let c = export::indent(n);
    lemma_clean_add(c, "</"@);
    lemma_clean_add(c + "</"@, t.name);
    lemma_clean_add(c + "</"@ + t.name, ">"@);
    lemma_clean_add("\n"@, lines(t.children, n + 1, m));
    lemma_clean_add("\n"@ + lines(t.children, n + 1, m), closing(t.name, n));
}

proof fn lemma_clean_lines(ts: Seq<Tag>, n: nat, m: int, d: nat)
    requires
        all_fit(ts, m, d),
    ensures
        clean(lines(ts, n, m)),
    decreases ts, m,
{
    if 0 < m <= ts.len() {
        let t = ts[m - 1];
        assert(fits(t, d));
        lemma_clean_lines(ts, n, m - 1, d);
        lemma_clean_inside(t, n, d);
        lemma_clean_indent(n);
        lemma_clean_name(t.name);
        lemma_clean_attributes(t.attributes);
        reveal_strlit("<");
        reveal_strlit(">");
        reveal_strlit("/>");
        reveal_strlit("\n");
        let a = attributes_text(t.attributes);
        lemma_clean_add(">"@, inside(t, n));
        lemma_clean_add("<"@, t.name);
        lemma_clean_add("<"@ + t.name, a);
        lemma_clean_add("<"@ + t.name + a, "/>"@);
        lemma_clean_add("<"@ + t.name + a, ">"@ + inside(t, n));
        let before = lines(ts, n, m - 1);
        lemma_clean_add(before, export::indent(n));
        lemma_clean_add(before + export::indent(n), body(t, n));
        lemma_clean_add(before + export::indent(n) + body(t, n), "\n"@);
    }
}

/// A text without carriage returns is read as it is.
proof fn lemma_line_ends(s: Seq<char>, i: int)
    requires
        clean(s),
        0 <= i <= s.len(),
    ensures
        markup::line_ends(s, i) == s.take(i),
    decreases i,
{
    if i == 0 {
        assert(s.take(0) =~= Seq::<char>::empty());
    } else {
        lemma_line_ends(s, i - 1);
        assert(s[i - 1] != '\r');
        if i >= 2 {
            assert(s[i - 2] != '\r');
        }
        assert(s.take(i) =~= s.take(i - 1).push(s[i - 1]));
    }
}

proof fn lemma_find_first(s: Seq<char>, i: int, p: Seq<char>, j: int)
    requires
        0 <= i <= j,
        p.len() > 0,
        markup::at(s, j, p),
        forall|k: int| i <= k < j ==> #[trigger] s[k] != p[0],
    ensures
        markup::find(s, i, p) == Some(j),
    decreases j - i,
{
    if i < j {
        assert(s[i] != p[0]);
        lemma_not_at(s, i, p);
        lemma_find_first(s, i + 1, p, j);
    }
}

/// The root of a document stands behind the declaration.
proof fn lemma_prologue_read(s: Seq<char>)
    requires
        markup::at(s, 0, export::prologue()),
        export::prologue().len() + 1 < s.len(),
        s[export::prologue().len() as int] == '<',
        markup::is_name_start(s[1int + export::prologue().len()]),
    ensures
        s[0] == '<',
        markup::misc(s, 0) == Ok::<int, Fault>(export::prologue().len() as int),
{
    reveal_strlit("<?xml version=\"1.0\" encoding=\"UTF-8\"?>\n");
    reveal_strlit("<?");
    reveal_strlit("?>");
    reveal_strlit("<!--");
    let d = export::prologue();
    assert(d.len() == 39);
    lemma_at_index(s, 0, d, 0);
    lemma_at_index(s, 0, d, 1);
    lemma_at_index(s, 0, d, 36);
    lemma_at_index(s, 0, d, 37);
    lemma_at_index(s, 0, d, 38);
    assert(s.subrange(0, 2) =~= "<?"@);
    assert(s.subrange(36, 38) =~= "?>"@);
    assert(free_of(d.skip(2), '?', 34)) by {
        reveal_with_fuel(free_of, 36);
    }
    assert forall|k: int| 2 <= k < 36 implies #[trigger] s[k] != "?>"@[0] by {
        lemma_free_of(d.skip(2), '?', 34, k - 2);
        lemma_at_index(s, 0, d, k);
    }
    lemma_find_first(s, 2, "?>"@, 36);
    lemma_not_at_second(s, 0, "<!--"@);
    assert(markup::past_blank(s, 0) == 0);
    assert(markup::past_blank(s, 39) == 39);
    assert(markup::past_blank(s, 38) == 39);
    lemma_starts_element(s, 39);
    assert(markup::misc(s, 38) == Ok::<int, Fault>(39));
}

/// Behind the root of a document there is nothing but the end of its last line.
proof fn lemma_epilogue_read(s: Seq<char>, j: int)
    requires
        0 <= j,
        j + 1 == s.len(),
        s[j] == '\n',
    ensures
        markup::misc(s, j) == Ok::<int, Fault>(s.len() as int),
{
    reveal_strlit("<!--");
    reveal_strlit("<?");
    reveal_strlit("<!DOCTYPE");
    assert(markup::past_blank(s, j + 1) == j + 1);
    assert(markup::past_blank(s, j) == j + 1);
    lemma_not_at(s, j + 1, "<!--"@);
    lemma_not_at(s, j + 1, "<?"@);
    lemma_not_at(s, j + 1, "<!DOCTYPE"@);
}

proof fn lemma_namespace()
    ensures
        is_name("xmlns"@),
        survives(document::SVG_NS@),
        document::SVG_NS@.len() > 0,
        Seq::<char>::empty() != "xml"@,
{
    reveal_strlit("xmlns");
    reveal_strlit("xml");
    reveal_strlit("http://www.w3.org/2000/svg");
    assert(names_to("xmlns"@, 5)) by {
        reveal_with_fuel(names_to, 7);
    }
    lemma_is_name("xmlns"@);
    assert("xml"@.len() == 3);
    assert(document::SVG_NS@.len() == 26);
    assert(survives_to(document::SVG_NS@, 26)) by {
        reveal_with_fuel(survives_to, 28);
    }
    lemma_survives(document::SVG_NS@, 26);
}

/// The root of a document reads as it was written.
proof fn lemma_root_read(s: Seq<char>, i: int, t: Tag)
    requires
        0 <= i,
        fits(t, 0),
        !t.leaf,
        markup::at(s, i, root_text(t)),
    ensures
        s[i] == '<',
        s[i + 1] == t.name[0],
        i + 1 < s.len(),
        markup::element(s, i, Seq::empty(), 0) matches Ok((e, j)) && reads(e, t) && j == i
            + root_text(t).len(),
{
    reveal_strlit("<");
    reveal_strlit(">");
    reveal_strlit("/>");
    lemma_namespace();
    let ns = document::SVG_NS@;
    let declared = export::attribute("xmlns"@, ns);
    let a = attributes_text(t.attributes);
    lemma_at_add(s, i, "<"@ + t.name + declared + a + ">"@, inside(t, 0));
    lemma_at_add(s, i, "<"@ + t.name + declared + a, ">"@);
    lemma_at_add(s, i, "<"@ + t.name + declared, a);
    lemma_at_add(s, i, "<"@ + t.name, declared);
    lemma_at_add(s, i, "<"@, t.name);
    lemma_at_index(s, i, "<"@, 0);
    lemma_at_index(s, i + 1, t.name, 0);
    let j = i + 1 + t.name.len();
    lemma_attribute_read(s, j + 1, "xmlns"@, ns);
    lemma_qname_read(s, i + 1, t.name);
    let k = j + declared.len();
    lemma_at_index(s, k + a.len(), ">"@, 0);
    let empty = TagModel { scopes: Seq::empty(), raw: Seq::empty(), empty: false };
    let scopes: Seq<Binding> = Seq::<Binding>::empty().push((Seq::empty(), ns));
    let tag = TagModel { scopes, raw: Seq::empty(), empty: false };
    assert(markup::past_blank(s, j + 1) == j + 1);
    assert(markup::past_blank(s, j) == j + 1);
    lemma_not_at(s, j + 1, "/>"@);
    lemma_unprefixed("xmlns"@);
    let raw = RawAttributeModel { name: "xmlns"@, value: ns, at: j + 1 };
    assert(markup::declare(empty, raw, k) == Ok::<TagModel, Fault>(tag));
    let none = Seq::<Pair>::empty();
    assert(are_raw(tag.raw, none));
    lemma_start_tag_read(s, k, t.name, tag, none, t.attributes, false);
    assert(none + t.attributes =~= t.attributes);
    let (read, m) = markup::start_tag(s, k, t.name, tag)->Ok_0;
    assert(markup::start_tag(s, j, t.name, empty) == Ok::<(TagModel, int), Fault>((read, m)));
    assert(markup::binding(scopes, 1, Seq::empty()) == Some(ns));
    assert(markup::lookup(scopes, Seq::empty()) == Some(ns));
    lemma_element_behind(s, i, t, 0, Seq::empty(), 0, read, m);
}

/// A document reads as it was written: its root is the element, wherever its
/// parts now stand.
pub proof fn reading_undoes_writing(t: Tag)
    requires
        fits(t, 0),
        !t.leaf,
    ensures
        markup::document(markup::normal(document_text(t))) matches Ok(root) && reads(root, t),
{
    let s = document_text(t);
    let i = export::prologue().len() as int;
    let j = i + root_text(t).len();
    lemma_document_parts(t);
    lemma_root_read(s, i, t);
    lemma_prologue_read(s);
    lemma_epilogue_read(s, j);
    lemma_document_clean(t);
    lemma_line_ends(s, s.len() as int);
    assert(s.take(s.len() as int) =~= s);
    assert(markup::normal(s) == s);
}

/// The root of a document, with its namespace declaration.
spec fn root_text(t: Tag) -> Seq<char> {
    "<"@ + t.name + export::attribute("xmlns"@, document::SVG_NS@) + attributes_text(t.attributes)
        + ">"@ + inside(t, 0)
}

proof fn lemma_document_parts(t: Tag)
    ensures
        markup::at(document_text(t), 0, export::prologue()),
        markup::at(document_text(t), export::prologue().len() as int, root_text(t)),
        document_text(t).len() == 1int + export::prologue().len() + root_text(t).len(),
        document_text(t).last() == '\n',
{
    let s = document_text(t);
    let r = root_text(t);
    reveal_strlit("\n");
    assert(s =~= export::prologue() + (r + "\n"@));
    assert(s.subrange(0, s.len() as int) =~= s);
    lemma_at_add(s, 0, export::prologue(), r + "\n"@);
    lemma_at_add(s, export::prologue().len() as int, r, "\n"@);
}

proof fn lemma_document_clean(t: Tag)
    requires
        fits(t, 0),
        !t.leaf,
    ensures
        clean(document_text(t)),
{
    reveal_strlit("<?xml version=\"1.0\" encoding=\"UTF-8\"?>\n");
    reveal_strlit("<");
    reveal_strlit(">");
    reveal_strlit("\n");
    let d = export::prologue();
    assert(free_of(d, '\r', 39)) by {
        reveal_with_fuel(free_of, 41);
    }
    assert forall|k: int| 0 <= k < d.len() implies #[trigger] d[k] != '\r' by {
        lemma_free_of(d, '\r', 39, k);
    }
    let ns = document::SVG_NS@;
    let declared = export::attribute("xmlns"@, ns);
    let a = attributes_text(t.attributes);
    lemma_namespace();
    lemma_clean_attribute("xmlns"@, ns);
    lemma_clean_name(t.name);
    lemma_clean_attributes(t.attributes);
    lemma_clean_inside(t, 0, 0);
    lemma_clean_add(d, "<"@);
    lemma_clean_add(d + "<"@, t.name);
    lemma_clean_add(d + "<"@ + t.name, declared);
    lemma_clean_add(d + "<"@ + t.name + declared, a);
    lemma_clean_add(d + "<"@ + t.name + declared + a, ">"@);
    lemma_clean_add(d + "<"@ + t.name + declared + a + ">"@, inside(t, 0));
    lemma_clean_add(d + "<"@ + t.name + declared + a + ">"@ + inside(t, 0), "\n"@);
}

/// Whether names can stand for attributes, each for another.
pub open spec fn names_ok(names: Seq<Seq<char>>) -> bool {
    &&& forall|k: int| 0 <= k < names.len() ==> is_name(#[trigger] names[k]) && names[k] != "xmlns"@
    &&& forall|j: int, k: int|
        0 <= j < k < names.len() ==> (#[trigger] names[j]) != (#[trigger] names[k])
}

/// The attributes among the first `n` names that have a value.
pub open spec fn listing(names: Seq<Seq<char>>, values: Seq<Option<Seq<char>>>, n: int) -> Seq<Pair>
    decreases n,
{
    if n <= 0 {
        Seq::empty()
    } else {
        match values[n - 1] {
            Some(v) => listing(names, values, n - 1).push((names[n - 1], v)),
            None => listing(names, values, n - 1),
        }
    }
}

/// Whether every value survives.
pub open spec fn all_survive(values: Seq<Option<Seq<char>>>) -> bool {
    forall|k: int| 0 <= k < values.len() ==> ((#[trigger] values[k]) matches Some(v) ==> survives(v))
}

pub proof fn lemma_listing_ok(names: Seq<Seq<char>>, values: Seq<Option<Seq<char>>>, n: int)
    requires
        names_ok(names),
        all_survive(values),
        0 <= n <= names.len(),
        names.len() == values.len(),
    ensures
        attributes_ok(listing(names, values, n)),
        forall|k: int|
            0 <= k < listing(names, values, n).len() ==> names.take(n).contains(
                (#[trigger] listing(names, values, n)[k]).0,
            ),
    decreases n,
{
    if n > 0 {
        lemma_listing_ok(names, values, n - 1);
        let a = listing(names, values, n - 1);
        let b = listing(names, values, n);
        assert forall|k: int| 0 <= k < a.len() implies (#[trigger] a[k]).0 != names[n - 1]
            && names.take(n).contains(a[k].0) by {
            let front = names.take(n - 1);
            assert(front.contains(a[k].0));
            let j = choose|j: int| 0 <= j < front.len() && front[j] == a[k].0;
            assert(names[j] == a[k].0);
            assert(names.take(n)[j] == a[k].0);
        }
        assert(names.take(n)[n - 1] == names[n - 1]);
        assert(values[n - 1] matches Some(v) ==> survives(v));
        assert forall|k: int| 0 <= k < b.len() implies names.take(n).contains(
            (#[trigger] b[k]).0,
        ) by {
            if k < a.len() {
                assert(b[k] == a[k]);
            }
        }
        assert forall|k: int| 0 <= k < b.len() implies is_name((#[trigger] b[k]).0) && b[k].0
            != "xmlns"@ && survives(b[k].1) by {
            if k < a.len() {
                assert(b[k] == a[k]);
            } else {
                assert(b[k].0 == names[n - 1]);
            }
        }
        assert forall|j: int, k: int| 0 <= j < k < b.len() implies (#[trigger] b[j]).0 != (
        #[trigger] b[k]).0 by {
            assert(b[j] == a[j]);
            if k < a.len() {
                assert(b[k] == a[k]);
            }
        }
    }
}

/// What a further attribute adds to those that are found.
proof fn lemma_plain_push(a: Seq<Pair>, x: Pair, i: int, local: Seq<char>)
    requires
        0 <= i <= a.len(),
    ensures
        markup::plain_from(attribute_models(a.push(x)), i, local) == (
        match markup::plain_from(attribute_models(a), i, local) {
            Some(v) => Some(v),
            None => if x.0 == local {
                Some(x.1)
            } else {
                None
            },
        }),
    decreases a.len() - i,
{
    let all = attribute_models(a.push(x));
    if i < a.len() {
        assert(all[i] == attribute_models(a)[i]);
        lemma_plain_push(a, x, i + 1, local);
    } else {
        assert(all[i].name == NameModel { namespace: None, local: x.0 });
        assert(markup::plain_from(all, i + 1, local) is None);
    }
}

/// A name that is not listed is not found.
pub proof fn lemma_listing_absent(
    names: Seq<Seq<char>>,
    values: Seq<Option<Seq<char>>>,
    n: int,
    local: Seq<char>,
)
    requires
        0 <= n <= names.len(),
        forall|k: int| 0 <= k < n ==> (#[trigger] names[k]) != local,
    ensures
        markup::plain_from(attribute_models(listing(names, values, n)), 0, local) is None,
    decreases n,
{
    if n > 0 {
        lemma_listing_absent(names, values, n - 1, local);
        if let Some(v) = values[n - 1] {
            assert(names[n - 1] != local);
            lemma_plain_push(listing(names, values, n - 1), (names[n - 1], v), 0, local);
        }
    }
}

/// A name that is listed is found with its value.
pub proof fn lemma_listing_found(
    names: Seq<Seq<char>>,
    values: Seq<Option<Seq<char>>>,
    n: int,
    j: int,
)
    requires
        names_ok(names),
        0 <= j < n <= names.len(),
    ensures
        markup::plain_from(attribute_models(listing(names, values, n)), 0, names[j]) == values[j],
    decreases n,
{
    let a = listing(names, values, n - 1);
    if j < n - 1 {
        lemma_listing_found(names, values, n - 1, j);
    } else {
        lemma_listing_absent(names, values, n - 1, names[j]);
    }
    if let Some(v) = values[n - 1] {
        lemma_plain_push(a, (names[n - 1], v), 0, names[j]);
        if j < n - 1 {
            assert(names[n - 1] != names[j]);
        }
    }
}

/// Where no name is `href`, no reference is found.
pub proof fn lemma_no_href(a: Seq<Pair>, i: int)
    requires
        0 <= i <= a.len(),
        forall|k: int| 0 <= k < a.len() ==> (#[trigger] a[k]).0 != "href"@,
    ensures
        document::href_from(attribute_models(a), i) is None,
    decreases a.len() - i,
{
    if i < a.len() {
        assert(a[i].0 != "href"@);
        assert(attribute_models(a)[i].name.local == a[i].0);
        lemma_no_href(a, i + 1);
    }
}

} // verus!
