//! Presentation attributes and inline `style`, resolved into computed values.
//!
//! An SVG element's appearance comes from three places at once: what it
//! declares as a presentation attribute (`fill="red"`), what it declares in its
//! `style` attribute (`style="fill: red"`), and what it inherits from its
//! parent. [`Style::resolve`] walks one element and produces the computed value
//! of every property modelled here.
//!
//! Values stay as strings. There are no stylesheets, so `!important` is
//! stripped rather than honoured, and no value is validated.

use vstd::prelude::*;
use crate::text;
use super::markup;
use super::markup::ElementModel;
use super::xml::Element;

verus! {

broadcast use vstd::string::group_string_axioms;

/// How many properties there are.
pub const COUNT: usize = 17;

/// How many of them inherit: the first ones.
pub const INHERITING: usize = 13;

/// The name of a property. `color` comes first: `currentColor` resolves against
/// it.
pub open spec fn name(i: int) -> Seq<char> {
    if i == 0 {
        "color"@
    } else if i == 1 {
        "fill"@
    } else if i == 2 {
        "fill-opacity"@
    } else if i == 3 {
        "fill-rule"@
    } else if i == 4 {
        "stroke"@
    } else if i == 5 {
        "stroke-width"@
    } else if i == 6 {
        "stroke-linecap"@
    } else if i == 7 {
        "stroke-linejoin"@
    } else if i == 8 {
        "stroke-miterlimit"@
    } else if i == 9 {
        "stroke-dasharray"@
    } else if i == 10 {
        "stroke-dashoffset"@
    } else if i == 11 {
        "stroke-opacity"@
    } else if i == 12 {
        "visibility"@
    } else if i == 13 {
        "opacity"@
    } else if i == 14 {
        "display"@
    } else if i == 15 {
        "stop-color"@
    } else {
        "stop-opacity"@
    }
}

/// What a property is where nothing says otherwise.
pub open spec fn initial(i: int) -> Seq<char> {
    if i == 0 || i == 1 || i == 15 {
        "black"@
    } else if i == 2 || i == 5 || i == 11 || i == 13 || i == 16 {
        "1"@
    } else if i == 3 {
        "nonzero"@
    } else if i == 4 || i == 9 {
        "none"@
    } else if i == 6 {
        "butt"@
    } else if i == 7 {
        "miter"@
    } else if i == 8 {
        "4"@
    } else if i == 10 {
        "0"@
    } else if i == 12 {
        "visible"@
    } else {
        "inline"@
    }
}

/// The initial value of every property.
pub open spec fn initials() -> Seq<Seq<char>> {
    Seq::new(COUNT as nat, |i: int| initial(i))
}

/// The name of a property.
pub fn property_name(i: usize) -> (r: &'static str)
    ensures
        r@ == name(i as int),
{
    match i {
        0 => "color",
        1 => "fill",
        2 => "fill-opacity",
        3 => "fill-rule",
        4 => "stroke",
        5 => "stroke-width",
        6 => "stroke-linecap",
        7 => "stroke-linejoin",
        8 => "stroke-miterlimit",
        9 => "stroke-dasharray",
        10 => "stroke-dashoffset",
        11 => "stroke-opacity",
        12 => "visibility",
        13 => "opacity",
        14 => "display",
        15 => "stop-color",
        _ => "stop-opacity",
    }
}

/// The initial value of a property.
pub fn initial_value(i: usize) -> (r: &'static str)
    ensures
        r@ == initial(i as int),
{
    match i {
        0 | 1 | 15 => "black",
        2 | 5 | 11 | 13 | 16 => "1",
        3 => "nonzero",
        4 | 9 => "none",
        6 => "butt",
        7 => "miter",
        8 => "4",
        10 => "0",
        12 => "visible",
        _ => "inline",
    }
}

/// Where `c` first stands in `s` from `i` on, or the end.
pub open spec fn first(s: Seq<char>, c: char, i: int) -> int
    decreases s.len() - i,
{
    if 0 <= i < s.len() && s[i] != c {
        first(s, c, i + 1)
    } else {
        i
    }
}

/// Where `c` last stands in `s` before `i`, or -1.
pub open spec fn last(s: Seq<char>, c: char, i: int) -> int
    decreases i,
{
    if 0 < i <= s.len() && s[i - 1] != c {
        last(s, c, i - 1)
    } else {
        i - 1
    }
}

pub proof fn lemma_first(s: Seq<char>, c: char, i: int)
    requires
        0 <= i <= s.len(),
    ensures
        i <= first(s, c, i) <= s.len(),
        first(s, c, i) < s.len() ==> s[first(s, c, i)] == c,
    decreases s.len() - i,
{
    if i < s.len() && s[i] != c {
        lemma_first(s, c, i + 1);
    }
}

pub proof fn lemma_last(s: Seq<char>, c: char, i: int)
    requires
        0 <= i <= s.len(),
    ensures
        -1 <= last(s, c, i) < s.len(),
    decreases i,
{
    if i > 0 && s[i - 1] != c {
        lemma_last(s, c, i - 1);
    }
}

/// A value without an `!important` behind it.
pub open spec fn unimportant(v: Seq<char>) -> Seq<char> {
    let k = last(v, '!', v.len() as int);
    if k >= 0 && text::alike(text::trimmed(v.skip(k + 1)), "important"@) {
        v.take(k)
    } else {
        v
    }
}

/// The property and the value of one declaration, where it has both.
pub open spec fn declaration(d: Seq<char>) -> Option<(Seq<char>, Seq<char>)> {
    let k = first(d, ':', 0);
    if k >= d.len() {
        None
    } else {
        let n = text::trimmed(d.take(k));
        let v = text::trimmed(unimportant(d.skip(k + 1)));
        if n.len() == 0 || v.len() == 0 {
            None
        } else {
            Some((n, v))
        }
    }
}

/// The declarations of a `style` attribute from `i` on, in source order.
/// Malformed ones are dropped rather than rejected.
pub open spec fn declarations(s: Seq<char>, i: int) -> Seq<(Seq<char>, Seq<char>)>
    decreases s.len() - i,
    when 0 <= i <= s.len()
{
    let e = first(s, ';', i);
    proof {
        lemma_first(s, ';', i);
    }
    let rest = if e < s.len() {
        declarations(s, e + 1)
    } else {
        Seq::empty()
    };
    match declaration(s.subrange(i, e)) {
        Some(d) => seq![d] + rest,
        None => rest,
    }
}

/// The value of the last of the first `n` declarations of a property.
pub open spec fn declared_last(
    d: Seq<(Seq<char>, Seq<char>)>,
    property: Seq<char>,
    n: int,
) -> Option<Seq<char>>
    decreases n,
{
    if n <= 0 {
        None
    } else if text::alike(d[n - 1].0, property) {
        Some(d[n - 1].1)
    } else {
        declared_last(d, property, n - 1)
    }
}

/// What an element declares inline.
pub open spec fn inline(e: ElementModel) -> Seq<(Seq<char>, Seq<char>)> {
    declarations(
        match markup::plain(e, "style"@) {
            Some(s) => s,
            None => Seq::empty(),
        },
        0,
    )
}

/// What an element declares for a property: inline before the presentation
/// attribute.
pub open spec fn declared(e: ElementModel, i: int) -> Option<Seq<char>> {
    match declared_last(inline(e), name(i), inline(e).len() as int) {
        Some(v) => Some(v),
        None => markup::plain(e, name(i)),
    }
}

/// The value of a property before `currentColor` is looked up: what the element
/// declares, else its parent's for one that inherits, else its initial one.
/// `inherit` takes the parent's for any.
pub open spec fn cascaded(parent: Seq<Seq<char>>, e: ElementModel, i: int) -> Seq<char> {
    match declared(e, i) {
        Some(v) => if text::alike(v, "inherit"@) {
            parent[i]
        } else {
            v
        },
        None => if i < INHERITING {
            parent[i]
        } else {
            initial(i)
        },
    }
}

/// The computed `color`; one set to `currentColor` is the inherited one.
pub open spec fn color(parent: Seq<Seq<char>>, e: ElementModel) -> Seq<char> {
    let c = cascaded(parent, e, 0);
    if text::alike(c, "currentColor"@) {
        parent[0]
    } else {
        c
    }
}

/// The computed value of a property.
pub open spec fn computed(parent: Seq<Seq<char>>, e: ElementModel, i: int) -> Seq<char> {
    let v = cascaded(parent, e, i);
    if i == 0 || text::alike(v, "currentColor"@) {
        color(parent, e)
    } else {
        v
    }
}

/// The computed values of an element whose parent computed to `parent`.
pub open spec fn resolved(parent: Seq<Seq<char>>, e: ElementModel) -> Seq<Seq<char>> {
    Seq::new(COUNT as nat, |i: int| computed(parent, e, i))
}

fn find_first(s: &Vec<char>, c: char, i: usize, to: usize) -> (k: usize)
    requires
        i <= to <= s@.len(),
    ensures
        i <= k <= to,
        k == i + first(s@.subrange(i as int, to as int), c, 0),
{
    let ghost t = s@.subrange(i as int, to as int);
    let mut k: usize = i;
    while k < to && s[k] != c
        invariant
            i <= k <= to <= s@.len(),
            t == s@.subrange(i as int, to as int),
            first(t, c, 0) == first(t, c, k - i),
        decreases to - k,
    {
        assert(t[k - i] == s@[k as int]);
        k += 1;
    }
    proof {
        if k < to {
            assert(t[k - i] == s@[k as int]);
        }
    }
    k
}

/// Without an `!important` behind it: where the value at `from..to` ends.
fn important_end(s: &Vec<char>, from: usize, to: usize) -> (k: usize)
    requires
        from <= to <= s@.len(),
    ensures
        from <= k <= to,
        s@.subrange(from as int, k as int) == unimportant(s@.subrange(from as int, to as int)),
{
    let ghost v = s@.subrange(from as int, to as int);
    let mut k: usize = to;
    while k > from && s[k - 1] != '!'
        invariant
            from <= k <= to <= s@.len(),
            v == s@.subrange(from as int, to as int),
            last(v, '!', v.len() as int) == last(v, '!', k - from),
        decreases k,
    {
        assert(v[k - 1 - from] == s@[k - 1]);
        k -= 1;
    }
    if k == from {
        return to;
    }
    assert(v[k - 1 - from] == s@[k - 1]);
    assert(v.skip(k - from) =~= s@.subrange(k as int, to as int));
    let (a, b) = text::trim_range(s, k, to);
    let tail = text::from_chars(s, a, b);
    if text::same_ignoring_case(tail.as_str(), "important") {
        assert(v.take(k - 1 - from) =~= s@.subrange(from as int, k - 1));
        k - 1
    } else {
        to
    }
}

pub open spec fn pair_view(d: (String, String)) -> (Seq<char>, Seq<char>) {
    (d.0@, d.1@)
}

pub open spec fn pairs_view(d: Seq<(String, String)>) -> Seq<(Seq<char>, Seq<char>)> {
    d.map_values(|p: (String, String)| pair_view(p))
}

fn parse_declaration(s: &Vec<char>, from: usize, to: usize) -> (r: Option<(String, String)>)
    requires
        from <= to <= s@.len(),
    ensures
        match declaration(s@.subrange(from as int, to as int)) {
            Some(d) => r matches Some(p) && pair_view(p) == d,
            None => r is None,
        },
{
    let ghost d = s@.subrange(from as int, to as int);
    let k: usize = find_first(s, ':', from, to);
    if k == to {
        return None;
    }
    let (a, b) = text::trim_range(s, from, k);
    let end: usize = important_end(s, k + 1, to);
    let (c, e) = text::trim_range(s, k + 1, end);
    proof {
        assert(d.take(k - from) =~= s@.subrange(from as int, k as int));
        assert(d.skip(k - from + 1) =~= s@.subrange(k + 1, to as int));
    }
    if a == b || c == e {
        None
    } else {
        Some((text::from_chars(s, a, b), text::from_chars(s, c, e)))
    }
}

/// Split a `style` attribute into `(property, value)` pairs, in source order.
pub fn parse_declarations(attribute: &str) -> (r: Vec<(String, String)>)
    ensures
        pairs_view(r@) == declarations(attribute@, 0),
{
    let s = text::to_chars(attribute);
    let mut out: Vec<(String, String)> = Vec::new();
    let mut i: usize = 0;
    let ghost whole = declarations(s@, 0);
    assert(pairs_view(out@) + whole =~= whole);
    loop
        invariant
            i <= s@.len(),
            s@ == attribute@,
            whole == declarations(s@, 0),
            whole == pairs_view(out@) + declarations(s@, i as int),
        decreases s@.len() + 1 - i,
    {
        let ghost before = out@;
        let total: usize = s.len();
        let e: usize = find_first(&s, ';', i, total);
        proof {
            lemma_first_within(s@, ';', i as int);
        }
        assert(e == first(s@, ';', i as int));
        if let Some(p) = parse_declaration(&s, i, e) {
            out.push(p);
            assert(pairs_view(out@) =~= pairs_view(before).push(pair_view(p)));
        }
        if e == total {
            assert(pairs_view(out@) =~= whole);
            return out;
        }
        assert(pairs_view(out@) + declarations(s@, e + 1) =~= whole);
        i = e + 1;
    }
}

proof fn lemma_first_within(s: Seq<char>, c: char, i: int)
    requires
        0 <= i <= s.len(),
    ensures
        first(s, c, i) == i + first(s.subrange(i, s.len() as int), c, 0),
{
    lemma_first_shift(s, c, i, 0);
}

proof fn lemma_first_shift(s: Seq<char>, c: char, i: int, k: int)
    requires
        0 <= i,
        0 <= k,
        i + k <= s.len(),
    ensures
        first(s, c, i + k) == i + first(s.subrange(i, s.len() as int), c, k),
    decreases s.len() - i - k,
{
    let t = s.subrange(i, s.len() as int);
    if i + k < s.len() {
        assert(t[k] == s[i + k]);
        if s[i + k] != c {
            lemma_first_shift(s, c, i, k + 1);
        }
    }
}

/// The computed value of every property, for one element.
#[derive(Debug, PartialEq, Eq)]
pub struct Style {
    values: Vec<String>,
}

impl View for Style {
    type V = Seq<Seq<char>>;

    closed spec fn view(&self) -> Seq<Seq<char>> {
        self.values@.map_values(|v: String| v@)
    }
}

impl Clone for Style {
    fn clone(&self) -> (r: Style)
        ensures
            r@ == self@,
    {
        let mut values: Vec<String> = Vec::new();
        let mut i: usize = 0;
        while i < self.values.len()
            invariant
                i <= self.values@.len(),
                values@.len() == i,
                forall|j: int| 0 <= j < i ==> (#[trigger] values@[j])@ == self.values@[j]@,
            decreases self.values@.len() - i,
        {
            values.push(self.values[i].clone());
            i += 1;
        }
        let r = Style { values };
        assert(r@ =~= self@);
        r
    }
}

impl Style {
    /// Every property has a value, and none is a keyword that stands for another.
    pub open spec fn wf(&self) -> bool {
        self@.len() == COUNT && plain_values(self@)
    }

    /// The initial value of every property: what the root element inherits
    /// from.
    pub fn initial() -> (r: Style)
        ensures
            r.wf(),
            r@ == initials(),
            reads(r@, "color"@, "black"@),
            reads(r@, "fill"@, "black"@),
            reads(r@, "fill-opacity"@, "1"@),
            reads(r@, "fill-rule"@, "nonzero"@),
            reads(r@, "stroke"@, "none"@),
            reads(r@, "stroke-width"@, "1"@),
            reads(r@, "stroke-linecap"@, "butt"@),
            reads(r@, "stroke-linejoin"@, "miter"@),
            reads(r@, "stroke-miterlimit"@, "4"@),
            reads(r@, "stroke-dasharray"@, "none"@),
            reads(r@, "stroke-dashoffset"@, "0"@),
            reads(r@, "stroke-opacity"@, "1"@),
            reads(r@, "visibility"@, "visible"@),
            reads(r@, "opacity"@, "1"@),
            reads(r@, "display"@, "inline"@),
            reads(r@, "stop-color"@, "black"@),
            reads(r@, "stop-opacity"@, "1"@),
    {
        let mut values: Vec<String> = Vec::new();
        let mut i: usize = 0;
        while i < COUNT
            invariant
                i <= COUNT,
                values@.len() == i,
                forall|j: int| 0 <= j < i ==> (#[trigger] values@[j])@ == initial(j),
            decreases COUNT - i,
        {
            values.push(initial_value(i).to_owned());
            i += 1;
        }
        let r = Style { values };
        proof {
            assert(r@ =~= initials());
            initial_values_are_plain();
            initial_values_are_those_of_svg();
        }
        r
    }

    /// The computed style of `element`, whose parent computed to `self`.
    ///
    /// Precedence, highest first: the `style` attribute, then the matching
    /// presentation attribute, then the parent's computed value for an
    /// inheriting property or the initial value for one that does not.
    pub fn resolve(&self, element: &Element) -> (r: Style)
        requires
            self.wf(),
        ensures
            r.wf(),
            r@ == resolved(self@, element@),
    {
        let ghost e = element@;
        let found = match element.attribute("style") {
            Some(s) => parse_declarations(s),
            None => parse_declarations(""),
        };
        proof {
            reveal_strlit("");
            assert(""@ =~= Seq::<char>::empty());
            assert(pairs_view(found@) == inline(e));
        }
        let mut values: Vec<String> = Vec::new();
        let mut i: usize = 0;
        while i < COUNT
            invariant
                i <= COUNT,
                self.wf(),
                e == element@,
                pairs_view(found@) == inline(e),
                values@.len() == i,
                forall|j: int|
                    0 <= j < i ==> (#[trigger] values@[j])@ == cascaded(self@, e, j),
            decreases COUNT - i,
        {
            values.push(self.cascade(element, &found, i));
            i += 1;
        }
        let current = if text::same_ignoring_case(values[0].as_str(), "currentColor") {
            self.values[0].clone()
        } else {
            values[0].clone()
        };
        assert(current@ == color(self@, e));
        let mut out: Vec<String> = Vec::new();
        i = 0;
        while i < COUNT
            invariant
                i <= COUNT,
                values@.len() == COUNT,
                forall|j: int|
                    0 <= j < COUNT ==> (#[trigger] values@[j])@ == cascaded(self@, e, j),
                current@ == color(self@, e),
                out@.len() == i,
                forall|j: int| 0 <= j < i ==> (#[trigger] out@[j])@ == computed(self@, e, j),
            decreases COUNT - i,
        {
            assert(values@[i as int]@ == cascaded(self@, e, i as int));
            if i == 0 || text::same_ignoring_case(values[i].as_str(), "currentColor") {
                out.push(current.clone());
            } else {
                out.push(values[i].clone());
            }
            i += 1;
        }
        let r = Style { values: out };
        proof {
            assert(r@ =~= resolved(self@, e));
            computed_values_are_plain(self@, e);
        }
        r
    }

    /// The value of a property before `currentColor` is looked up.
    fn cascade(&self, element: &Element, found: &Vec<(String, String)>, i: usize) -> (v: String)
        requires
            self.wf(),
            i < COUNT,
            pairs_view(found@) == inline(element@),
        ensures
            v@ == cascaded(self@, element@, i as int),
    {
        let property = property_name(i);
        let ghost d = pairs_view(found@);
        let mut k: usize = found.len();
        while k > 0 && !text::same_ignoring_case(found[k - 1].0.as_str(), property)
            invariant
                k <= found@.len(),
                d == pairs_view(found@),
                property@ == name(i as int),
                declared_last(d, name(i as int), d.len() as int) == declared_last(
                    d,
                    name(i as int),
                    k as int,
                ),
            decreases k,
        {
            assert(d[k - 1].0 == found@[k - 1].0@);
            k -= 1;
        }
        proof {
            if k > 0 {
                assert(d[k - 1] == pair_view(found@[k - 1]));
            }
        }
        let value: Option<&str> = if k > 0 {
            Some(found[k - 1].1.as_str())
        } else {
            element.attribute(property)
        };
        match value {
            Some(v) => if text::same_ignoring_case(v, "inherit") {
                self.values[i].clone()
            } else {
                v.to_owned()
            },
            None => if i < INHERITING {
                self.values[i].clone()
            } else {
                initial_value(i).to_owned()
            },
        }
    }

    /// The computed value of a property by its place in the list.
    pub fn value(&self, i: usize) -> (r: &str)
        requires
            self.wf(),
            i < COUNT,
        ensures
            r@ == self@[i as int],
    {
        self.values[i].as_str()
    }

    /// The computed value of `property`, or `None` when it is not a property
    /// modelled here.
    pub fn get(&self, property: &str) -> (r: Option<&str>)
        requires
            self.wf(),
        ensures
            match index_of(property@, 0) {
                Some(i) => r matches Some(v) && v@ == self@[i],
                None => r is None,
            },
    {
        let mut i: usize = 0;
        while i < COUNT
            invariant
                i <= COUNT,
                self.wf(),
                index_of(property@, 0) == index_of(property@, i as int),
            decreases COUNT - i,
        {
            if text::same(property_name(i), property) {
                return Some(self.values[i].as_str());
            }
            i += 1;
        }
        None
    }
}

/// Which property from the `i`th on has this name.
pub open spec fn index_of(property: Seq<char>, i: int) -> Option<int>
    decreases COUNT - i,
{
    if i >= COUNT {
        None
    } else if name(i) == property {
        Some(i)
    } else {
        index_of(property, i + 1)
    }
}

/// Whether no value is a keyword that stands for another value.
pub open spec fn plain_values(values: Seq<Seq<char>>) -> bool {
    forall|i: int|
        0 <= i < values.len() ==> !text::alike(#[trigger] values[i], "inherit"@) && !text::alike(
            values[i],
            "currentColor"@,
        )
}

/// Every initial value stands for itself.
pub proof fn initial_values_are_plain()
    ensures
        plain_values(initials()),
{
    reveal_strlit("black");
    reveal_strlit("1");
    reveal_strlit("nonzero");
    reveal_strlit("none");
    reveal_strlit("butt");
    reveal_strlit("miter");
    reveal_strlit("4");
    reveal_strlit("0");
    reveal_strlit("visible");
    reveal_strlit("inline");
    reveal_strlit("inherit");
    reveal_strlit("currentColor");
    assert forall|i: int| 0 <= i < initials().len() implies !text::alike(
        #[trigger] initials()[i],
        "inherit"@,
    ) && !text::alike(initials()[i], "currentColor"@) by {
        let v = initial(i);
        assert(initials()[i] == v);
        if v.len() == 7 {
            assert(text::lower(v[0]) != text::lower("inherit"@[0]));
        }
    }
}

/// Computed values hold no keyword that stands for another value: a renderer
/// reads a value and never a rule.
pub proof fn computed_values_are_plain(parent: Seq<Seq<char>>, e: ElementModel)
    requires
        parent.len() == COUNT,
        plain_values(parent),
    ensures
        plain_values(resolved(parent, e)),
{
    initial_values_are_plain();
    let r = resolved(parent, e);
    assert forall|i: int| 0 <= i < r.len() implies !text::alike(#[trigger] r[i], "inherit"@)
        && !text::alike(r[i], "currentColor"@) by {
        assert(r[i] == computed(parent, e, i));
        assert(initials()[i] == initial(i));
        assert(!text::alike(parent[i], "inherit"@));
        assert(!text::alike(parent[0], "inherit"@) && !text::alike(parent[0], "currentColor"@));
        assert(initials()[0] == initial(0));
    }
}

/// What an element computes to, property by property: what it declares, its
/// parent's value where that is `inherit`, its own color where it is
/// `currentColor`; and where it declares nothing, its parent's value of a
/// property that inherits and the initial value of any other.
pub proof fn an_element_computes_what_it_declares(parent: Style, e: ElementModel, i: int)
    requires
        parent.wf(),
        0 < i < COUNT,
    ensures
        resolved(parent@, e)[i] == (match declared(e, i) {
            Some(d) => if text::alike(d, "inherit"@) {
                parent@[i]
            } else if text::alike(d, "currentColor"@) {
                resolved(parent@, e)[0]
            } else {
                d
            },
            None => if i < INHERITING {
                parent@[i]
            } else {
                initial(i)
            },
        }),
{
    initial_values_are_plain();
    assert(initials()[i] == initial(i));
    assert(!text::alike(parent@[i], "currentColor"@));
    assert(!text::alike(initials()[i], "currentColor"@));
    assert(resolved(parent@, e)[0] == computed(parent@, e, 0));
}

/// Whether `values` has `value` for the property of this name.
pub open spec fn reads(values: Seq<Seq<char>>, property: Seq<char>, value: Seq<char>) -> bool {
    index_of(property, 0) matches Some(i) && values[i] == value
}

/// Whether the property of this name takes its parent's value where an element
/// does not declare it.
pub open spec fn inherits(property: Seq<char>) -> bool {
    index_of(property, 0) matches Some(i) && i < INHERITING
}

/// The names are all different: each is found at its own place.
pub proof fn names_are_found(i: int)
    requires
        0 <= i < COUNT,
    ensures
        index_of(name(i), 0) == Some(i),
{
    reveal_strlit("color");
    reveal_strlit("fill");
    reveal_strlit("fill-opacity");
    reveal_strlit("fill-rule");
    reveal_strlit("stroke");
    reveal_strlit("stroke-width");
    reveal_strlit("stroke-linecap");
    reveal_strlit("stroke-linejoin");
    reveal_strlit("stroke-miterlimit");
    reveal_strlit("stroke-dasharray");
    reveal_strlit("stroke-dashoffset");
    reveal_strlit("stroke-opacity");
    reveal_strlit("visibility");
    reveal_strlit("opacity");
    reveal_strlit("display");
    reveal_strlit("stop-color");
    reveal_strlit("stop-opacity");
    assert forall|j: int| 0 <= j < i implies #[trigger] name(j) != name(i) by {
        let a = name(j);
        let b = name(i);
        if a.len() == b.len() {
            assert(a[0] != b[0] || a[2] != b[2] || a[7] != b[7]);
        }
    }
    lemma_index_from(i, 0);
}

proof fn lemma_index_from(i: int, from: int)
    requires
        0 <= from <= i < COUNT,
        forall|j: int| 0 <= j < i ==> #[trigger] name(j) != name(i),
    ensures
        index_of(name(i), from) == Some(i),
    decreases i - from,
{
    if from < i {
        assert(name(from) != name(i));
        lemma_index_from(i, from + 1);
    }
}

/// Where neither an element nor an ancestor declares a property, its value is
/// the one that SVG prescribes.
pub proof fn initial_values_are_those_of_svg()
    ensures
        reads(initials(), "color"@, "black"@),
        reads(initials(), "fill"@, "black"@),
        reads(initials(), "fill-opacity"@, "1"@),
        reads(initials(), "fill-rule"@, "nonzero"@),
        reads(initials(), "stroke"@, "none"@),
        reads(initials(), "stroke-width"@, "1"@),
        reads(initials(), "stroke-linecap"@, "butt"@),
        reads(initials(), "stroke-linejoin"@, "miter"@),
        reads(initials(), "stroke-miterlimit"@, "4"@),
        reads(initials(), "stroke-dasharray"@, "none"@),
        reads(initials(), "stroke-dashoffset"@, "0"@),
        reads(initials(), "stroke-opacity"@, "1"@),
        reads(initials(), "visibility"@, "visible"@),
        reads(initials(), "opacity"@, "1"@),
        reads(initials(), "display"@, "inline"@),
        reads(initials(), "stop-color"@, "black"@),
        reads(initials(), "stop-opacity"@, "1"@),
{
    assert forall|i: int| 0 <= i < COUNT implies index_of(#[trigger] name(i), 0) == Some(i) by {
        names_are_found(i);
    }
    assert(name(0) == "color"@ && name(1) == "fill"@ && name(2) == "fill-opacity"@);
    assert(name(3) == "fill-rule"@ && name(4) == "stroke"@ && name(5) == "stroke-width"@);
    assert(name(6) == "stroke-linecap"@ && name(7) == "stroke-linejoin"@);
    assert(name(8) == "stroke-miterlimit"@ && name(9) == "stroke-dasharray"@);
    assert(name(10) == "stroke-dashoffset"@ && name(11) == "stroke-opacity"@);
    assert(name(12) == "visibility"@ && name(13) == "opacity"@ && name(14) == "display"@);
    assert(name(15) == "stop-color"@ && name(16) == "stop-opacity"@);
}

/// The properties that inherit are those that SVG lets inherit: paint and stroke
/// properties do, and so does visibility; opacity, display and the properties of
/// a gradient stop do not.
pub proof fn what_inherits_is_what_svg_lets_inherit()
    ensures
        inherits("color"@) && inherits("fill"@) && inherits("fill-opacity"@) && inherits(
            "fill-rule"@,
        ),
        inherits("stroke"@) && inherits("stroke-width"@) && inherits("stroke-linecap"@) && inherits(
            "stroke-linejoin"@,
        ),
        inherits("stroke-miterlimit"@) && inherits("stroke-dasharray"@) && inherits(
            "stroke-dashoffset"@,
        ) && inherits("stroke-opacity"@),
        inherits("visibility"@),
        !inherits("opacity"@) && !inherits("display"@) && !inherits("stop-color"@) && !inherits(
            "stop-opacity"@,
        ),
{
    assert forall|i: int| 0 <= i < COUNT implies index_of(#[trigger] name(i), 0) == Some(i) by {
        names_are_found(i);
    }
    assert(name(0) == "color"@ && name(1) == "fill"@ && name(2) == "fill-opacity"@);
    assert(name(3) == "fill-rule"@ && name(4) == "stroke"@ && name(5) == "stroke-width"@);
    assert(name(6) == "stroke-linecap"@ && name(7) == "stroke-linejoin"@);
    assert(name(8) == "stroke-miterlimit"@ && name(9) == "stroke-dasharray"@);
    assert(name(10) == "stroke-dashoffset"@ && name(11) == "stroke-opacity"@);
    assert(name(12) == "visibility"@ && name(13) == "opacity"@ && name(14) == "display"@);
    assert(name(15) == "stop-color"@ && name(16) == "stop-opacity"@);
}

/// An element that declares nothing for a property has its parent's value of one
/// that inherits, and of any other the initial value, whatever the parent has.
pub proof fn a_silent_element_inherits(parent: Style, e: ElementModel, property: Seq<char>)
    requires
        parent.wf(),
        index_of(property, 0) is Some,
        markup::plain(e, property) is None,
        forall|k: int|
            0 <= k < inline(e).len() ==> !text::alike((#[trigger] inline(e)[k]).0, property),
    ensures
        inherits(property) ==> reads(
            resolved(parent@, e),
            property,
            parent@[index_of(property, 0)->0],
        ),
        !inherits(property) ==> reads(
            resolved(parent@, e),
            property,
            initials()[index_of(property, 0)->0],
        ),
{
    let i = index_of(property, 0)->0;
    lemma_index_named(property, 0);
    lemma_declared_last(inline(e), property, inline(e).len() as int);
    initial_values_are_plain();
    assert(declared(e, i) is None);
    assert(initials()[i] == initial(i));
    assert(!text::alike(parent@[i], "currentColor"@));
    assert(!text::alike(initials()[i], "currentColor"@));
    assert(resolved(parent@, e)[i] == computed(parent@, e, i));
}

proof fn lemma_index_named(property: Seq<char>, i: int)
    requires
        0 <= i,
    ensures
        index_of(property, i) matches Some(k) ==> i <= k < COUNT && name(k) == property,
    decreases COUNT - i,
{
    if i < COUNT && name(i) != property {
        lemma_index_named(property, i + 1);
    }
}

proof fn lemma_declared_last(d: Seq<(Seq<char>, Seq<char>)>, property: Seq<char>, n: int)
    requires
        0 <= n <= d.len(),
    ensures
        match declared_last(d, property, n) {
            Some(v) => exists|k: int|
                0 <= k < n && text::alike((#[trigger] d[k]).0, property) && d[k].1 == v && (forall|
                    j: int,
                |
                    k < j < n ==> !text::alike((#[trigger] d[j]).0, property)),
            None => forall|j: int| 0 <= j < n ==> !text::alike((#[trigger] d[j]).0, property),
        },
    decreases n,
{
    if n > 0 {
        if text::alike(d[n - 1].0, property) {
            assert(d[n - 1].1 == declared_last(d, property, n)->0);
        } else {
            lemma_declared_last(d, property, n - 1);
        }
    }
}

/// Of several declarations of a property the last one counts, whatever the case
/// of its name, and one in the `style` attribute before a presentation attribute,
/// which counts only where there is none.
pub proof fn the_last_inline_declaration_wins(e: ElementModel, i: int, k: int)
    requires
        0 <= i < COUNT,
    ensures
        0 <= k < inline(e).len() && text::alike(inline(e)[k].0, name(i)) && (forall|j: int|
            k < j < inline(e).len() ==> !text::alike((#[trigger] inline(e)[j]).0, name(i)))
            ==> declared(e, i) == Some(inline(e)[k].1),
        (forall|j: int|
            0 <= j < inline(e).len() ==> !text::alike((#[trigger] inline(e)[j]).0, name(i)))
            ==> declared(e, i) == markup::plain(e, name(i)),
{
    lemma_declared_last(inline(e), name(i), inline(e).len() as int);
}

/// An element's color: what it declares, but its parent's where it declares
/// nothing, `inherit` or `currentColor`.
pub proof fn a_color_is_never_its_own_reference(parent: Style, e: ElementModel)
    requires
        parent.wf(),
    ensures
        resolved(parent@, e)[0] == (match declared(e, 0) {
            Some(d) => if text::alike(d, "inherit"@) || text::alike(d, "currentColor"@) {
                parent@[0]
            } else {
                d
            },
            None => parent@[0],
        }),
{
    assert(!text::alike(parent@[0], "currentColor"@));
    assert(resolved(parent@, e)[0] == computed(parent@, e, 0));
}

/// A semicolon ends a declaration: the declarations of two texts joined by one
/// are those of the first and then those of the second.
pub proof fn a_semicolon_parts_declarations(a: Seq<char>, b: Seq<char>, i: int)
    requires
        0 <= i <= a.len(),
    ensures
        declarations(a + seq![';'] + b, i) == declarations(a, i) + declarations(b, 0),
    decreases a.len() - i,
{
    let s = a + seq![';'] + b;
    let e = first(a, ';', i);
    lemma_first(a, ';', i);
    lemma_first(s, ';', i);
    lemma_first_prefix(a, seq![';'] + b, ';', i);
    assert(s =~= a + (seq![';'] + b));
    assert(first(s, ';', i) == e);
    assert(s.subrange(i, e) =~= a.subrange(i, e));
    if e < a.len() {
        a_semicolon_parts_declarations(a, b, e + 1);
        let one = declaration(a.subrange(i, e));
        if one is Some {
            assert(seq![one->0] + (declarations(a, e + 1) + declarations(b, 0)) =~= seq![one->0]
                + declarations(a, e + 1) + declarations(b, 0));
        }
    } else {
        lemma_declarations_shift(a + seq![';'], b, 0);
        assert(declarations(s, e + 1) == declarations(b, 0));
        let one = declaration(a.subrange(i, e));
        if one is Some {
            assert(seq![one->0] + Seq::<(Seq<char>, Seq<char>)>::empty() + declarations(b, 0)
                =~= seq![one->0] + declarations(b, 0));
        } else {
            assert(Seq::<(Seq<char>, Seq<char>)>::empty() + declarations(b, 0) =~= declarations(
                b,
                0,
            ));
        }
    }
}

proof fn lemma_first_prefix(a: Seq<char>, t: Seq<char>, c: char, i: int)
    requires
        0 <= i <= a.len(),
        t.len() > 0 && t[0] == c,
    ensures
        first(a + t, c, i) == first(a, c, i),
    decreases a.len() - i,
{
    let s = a + t;
    if i < a.len() {
        assert(s[i] == a[i]);
        if a[i] != c {
            lemma_first_prefix(a, t, c, i + 1);
        }
    } else {
        assert(s[i] == t[0]);
    }
}

proof fn lemma_first_offset(a: Seq<char>, b: Seq<char>, c: char, i: int)
    requires
        0 <= i <= b.len(),
    ensures
        first(a + b, c, a.len() + i) == a.len() + first(b, c, i),
    decreases b.len() - i,
{
    let s = a + b;
    if i < b.len() {
        assert(s[a.len() + i] == b[i]);
        if b[i] != c {
            lemma_first_offset(a, b, c, i + 1);
        }
    }
}

proof fn lemma_declarations_shift(a: Seq<char>, b: Seq<char>, i: int)
    requires
        0 <= i <= b.len(),
    ensures
        declarations(a + b, a.len() + i) == declarations(b, i),
    decreases b.len() - i,
{
    let s = a + b;
    let n = a.len() as int;
    lemma_first_offset(a, b, ';', i);
    lemma_first(b, ';', i);
    let e = first(b, ';', i);
    assert(s.subrange(n + i, n + e) =~= b.subrange(i, e));
    if e < b.len() {
        lemma_declarations_shift(a, b, e + 1);
    }
}

/// One declaration: the text before the first colon is the property and the text
/// behind it the value, without the space around either; both have to be there.
pub proof fn a_colon_parts_name_and_value(n: Seq<char>, v: Seq<char>)
    requires
        forall|k: int| 0 <= k < n.len() ==> #[trigger] n[k] != ':',
        forall|k: int| 0 <= k < v.len() ==> #[trigger] v[k] != '!',
    ensures
        declaration(n) is None,
        declaration(n + seq![':'] + v) == (if text::trimmed(n).len() > 0 && text::trimmed(v).len()
            > 0 {
            Some((text::trimmed(n), text::trimmed(v)))
        } else {
            None
        }),
{
    let d = n + seq![':'] + v;
    lemma_first_none(n, ':', 0);
    lemma_first_prefix(n, seq![':'] + v, ':', 0);
    assert(d =~= n + (seq![':'] + v));
    assert(d.take(n.len() as int) =~= n);
    assert(d.skip(n.len() as int + 1) =~= v);
    lemma_last_none(v, '!', v.len() as int);
}

proof fn lemma_first_none(s: Seq<char>, c: char, i: int)
    requires
        0 <= i <= s.len(),
        forall|k: int| 0 <= k < s.len() ==> #[trigger] s[k] != c,
    ensures
        first(s, c, i) == s.len(),
    decreases s.len() - i,
{
    if i < s.len() {
        assert(s[i] != c);
        lemma_first_none(s, c, i + 1);
    }
}

proof fn lemma_last_none(s: Seq<char>, c: char, i: int)
    requires
        0 <= i <= s.len(),
        forall|k: int| 0 <= k < s.len() ==> #[trigger] s[k] != c,
    ensures
        last(s, c, i) == -1,
    decreases i,
{
    if i > 0 {
        assert(s[i - 1] != c);
        lemma_last_none(s, c, i - 1);
    }
}

/// A value loses an `!important` behind it, in any case and with space around the
/// word, and keeps everything else: an exclamation mark before another word too.
pub proof fn importance_is_stripped(v: Seq<char>, t: Seq<char>)
    requires
        forall|k: int| 0 <= k < t.len() ==> #[trigger] t[k] != '!',
    ensures
        text::alike(text::trimmed(t), "important"@) ==> unimportant(v + seq!['!'] + t) == v,
        !text::alike(text::trimmed(t), "important"@) ==> unimportant(v + seq!['!'] + t) == v
            + seq!['!'] + t,
        unimportant(t) == t,
{
    let s = v + seq!['!'] + t;
    lemma_last_none(t, '!', t.len() as int);
    lemma_last_suffix(v + seq!['!'], t, '!', t.len() as int);
    assert(s =~= v + seq!['!'] + t);
    assert(s[v.len() as int] == '!');
    assert(last(s, '!', s.len() as int) == v.len());
    assert(s.skip(v.len() as int + 1) =~= t);
    assert(s.take(v.len() as int) =~= v);
}

proof fn lemma_last_suffix(a: Seq<char>, t: Seq<char>, c: char, i: int)
    requires
        0 <= i <= t.len(),
        a.len() > 0 && a.last() == c,
        forall|k: int| 0 <= k < t.len() ==> #[trigger] t[k] != c,
    ensures
        last(a + t, c, a.len() + i) == a.len() - 1,
    decreases i,
{
    let s = a + t;
    if i > 0 {
        assert(s[a.len() + i - 1] == t[i - 1]);
        lemma_last_suffix(a, t, c, i - 1);
    } else {
        assert(s[a.len() - 1] == a.last());
    }
}

} // verus!
