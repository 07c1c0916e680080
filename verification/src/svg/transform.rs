//! The `transform` attribute grammar.
//!
//! [`parse_transform`] turns a transform list into its functions, in the order
//! they are written: the list reads outermost to innermost, so the leftmost
//! function is applied last to a point. Whoever composes them multiplies from
//! left to right.

use vstd::prelude::*;
use crate::text;
use super::markup;
use super::number;
use super::number::Reading;
use super::path_data;
use super::xml::Error;

verus! {

broadcast use vstd::string::group_string_axioms;

/// Which function of the grammar.
#[derive(Clone, Copy, Debug, PartialEq, Eq, Structural)]
pub enum Kind {
    Matrix,
    Translate,
    Scale,
    Rotate,
    SkewX,
    SkewY,
}

/// A function of a transform list and the numbers it was written with: six for
/// a matrix, one or two for a translation or a scaling, one for a skew, and
/// one for a rotation, with two more when it turns about a point.
#[derive(Debug, PartialEq, Eq)]
pub struct Function {
    pub kind: Kind,
    pub args: Vec<String>,
}

pub struct FunctionModel {
    pub kind: Kind,
    pub args: Seq<Seq<char>>,
}

impl View for Function {
    type V = FunctionModel;

    open spec fn view(&self) -> FunctionModel {
        FunctionModel { kind: self.kind, args: path_data::texts(self.args@) }
    }
}

pub open spec fn functions_view(f: Seq<Function>) -> Seq<FunctionModel> {
    f.map_values(|g: Function| g@)
}

/// A failure: where, and what.
pub type Fault = (int, Seq<char>);

/// The number at `i`, and where it ends.
pub open spec fn number_at(s: Seq<char>, i: int) -> Result<(Seq<char>, int), Fault> {
    match number::number_end(s, i) {
        None => Err((i, "expected a number"@)),
        Some(e) => if number::too_large(s, i) {
            Err((i, "number `"@ + s.subrange(i, e) + "` is out of range"@))
        } else {
            Ok((s.subrange(i, e), e))
        },
    }
}

/// `n` arguments from `i` on, each after an optional separator.
pub open spec fn required(s: Seq<char>, i: int, n: int) -> Result<(Seq<Seq<char>>, int), Fault>
    decreases n,
{
    if n <= 0 {
        Ok((Seq::empty(), i))
    } else {
        match required(s, i, n - 1) {
            Err(f) => Err(f),
            Ok((a, j)) => match number_at(s, path_data::past_separator(s, j)) {
                Err(f) => Err(f),
                Ok((t, e)) => Ok((a.push(t), e)),
            },
        }
    }
}

/// `n` arguments from `i` on and, where a number follows them, `m` more.
pub open spec fn with_optional(s: Seq<char>, i: int, n: int, m: int) -> Result<
    (Seq<Seq<char>>, int),
    Fault,
> {
    match required(s, i, n) {
        Err(f) => Err(f),
        Ok((a, j)) => if m > 0 && path_data::more(s, j) {
            match required(s, j, m) {
                Err(f) => Err(f),
                Ok((b, e)) => Ok((a + b, e)),
            }
        } else {
            Ok((a, j))
        },
    }
}

/// The function a name stands for, with how many arguments it must have and
/// how many more it may have.
pub open spec fn named(name: Seq<char>) -> Option<(Kind, int, int)> {
    if name == "matrix"@ {
        Some((Kind::Matrix, 6, 0))
    } else if name == "translate"@ {
        Some((Kind::Translate, 1, 1))
    } else if name == "scale"@ {
        Some((Kind::Scale, 1, 1))
    } else if name == "rotate"@ {
        Some((Kind::Rotate, 1, 2))
    } else if name == "skewX"@ {
        Some((Kind::SkewX, 1, 0))
    } else if name == "skewY"@ {
        Some((Kind::SkewY, 1, 0))
    } else {
        None
    }
}

pub open spec fn is_letter(c: char) -> bool {
    path_data::is_lower(c) || path_data::is_upper(c)
}

/// Past the letters from `i` on.
pub open spec fn past_letters(s: Seq<char>, i: int) -> int
    decreases s.len() - i,
{
    if 0 <= i < s.len() && is_letter(s[i]) {
        past_letters(s, i + 1)
    } else {
        i
    }
}

/// The function at `i`, and where it ends.
pub open spec fn function(s: Seq<char>, i: int) -> Result<(FunctionModel, int), Fault> {
    let e = past_letters(s, i);
    let name = s.subrange(i, e);
    let j = path_data::past_white(s, e);
    if !markup::is_at(s, j, '(') {
        Err((j, "expected `(`"@))
    } else {
        match named(name) {
            None => if name.len() == 0 {
                Err((i, "expected a transform function"@))
            } else {
                Err((i, "unknown transform function `"@ + name + "`"@))
            },
            Some((kind, n, m)) => match with_optional(s, j + 1, n, m) {
                Err(f) => Err(f),
                Ok((args, k)) => {
                    let close = path_data::past_white(s, k);
                    if markup::is_at(s, close, ')') {
                        Ok((FunctionModel { kind, args }, close + 1))
                    } else {
                        Err((close, "expected `)`"@))
                    }
                },
            },
        }
    }
}

pub proof fn lemma_past_letters(s: Seq<char>, i: int)
    requires
        0 <= i <= s.len(),
    ensures
        i <= past_letters(s, i) <= s.len(),
    decreases s.len() - i,
{
    if i < s.len() && is_letter(s[i]) {
        lemma_past_letters(s, i + 1);
    }
}

pub proof fn lemma_required(s: Seq<char>, i: int, n: int)
    requires
        0 <= i <= s.len(),
    ensures
        required(s, i, n) matches Ok((a, j)) ==> i <= j <= s.len() && a.len() == (if n < 0 {
            0
        } else {
            n
        }),
    decreases n,
{
    if n > 0 {
        lemma_required(s, i, n - 1);
        if let Ok((a, j)) = required(s, i, n - 1) {
            path_data::lemma_past_separator(s, j);
            number::lemma_number_end(s, path_data::past_separator(s, j));
        }
    }
}

pub proof fn lemma_function(s: Seq<char>, i: int)
    requires
        0 <= i <= s.len(),
    ensures
        function(s, i) matches Ok((f, j)) ==> i < j <= s.len(),
{
    lemma_past_letters(s, i);
    let e = past_letters(s, i);
    path_data::lemma_past_white(s, e);
    let j = path_data::past_white(s, e);
    if markup::is_at(s, j, '(') {
        if let Some((kind, n, m)) = named(s.subrange(i, e)) {
            lemma_required(s, j + 1, n);
            if let Ok((a, k)) = required(s, j + 1, n) {
                lemma_required(s, k, m);
                if let Ok((b, l)) = with_optional(s, j + 1, n, m) {
                    path_data::lemma_past_white(s, l);
                }
            }
        }
    }
}

/// The functions from `i` on, with or without separators between them.
pub open spec fn functions(s: Seq<char>, i: int) -> Result<Seq<FunctionModel>, Fault>
    decreases s.len() - i,
    when 0 <= i <= s.len()
{
    if i >= s.len() {
        Ok(Seq::empty())
    } else {
        proof {
            lemma_function(s, i);
        }
        match function(s, i) {
            Err(f) => Err(f),
            Ok((f, j)) => {
                proof {
                    path_data::lemma_past_separator(s, j);
                }
                match functions(s, path_data::past_separator(s, j)) {
                    Err(e) => Err(e),
                    Ok(rest) => Ok(seq![f] + rest),
                }
            },
        }
    }
}

/// The functions of a transform list.
pub open spec fn transform_list(s: Seq<char>) -> Result<Seq<FunctionModel>, Fault> {
    functions(s, path_data::past_separator(s, 0))
}

/// Whether an error says what and where: the list has no lines of its own, so
/// the line is always 1. A column past the largest index is that index.
pub open spec fn failed(e: Error, f: Fault) -> bool {
    &&& e.line == 1
    &&& e.column == (if f.0 < usize::MAX {
        f.0 + 1
    } else {
        f.0
    })
    &&& e.message@ == f.1
}

fn error(at: usize, message: String) -> (e: Error)
    ensures
        failed(e, (at as int, message@)),
{
    let column: usize = if at < usize::MAX {
        at + 1
    } else {
        at
    };
    Error { message, line: 1, column }
}

fn read_number(s: &Vec<char>, i: usize) -> (r: Result<(String, usize), Error>)
    requires
        i <= s@.len(),
    ensures
        match number_at(s@, i as int) {
            Ok((t, j)) => r matches Ok((u, k)) && u@ == t && k == j && k <= s@.len(),
            Err(f) => r matches Err(e) && failed(e, f),
        },
{
    proof {
        number::lemma_number_end(s@, i as int);
    }
    match number::read(s, i) {
        Reading::Missing => Err(error(i, "expected a number".to_owned())),
        Reading::TooLarge(e) => {
            let mut message = "number `".to_owned();
            let t = text::from_chars(s, i, e);
            message.append(t.as_str());
            message.append("` is out of range");
            Err(error(i, message))
        },
        Reading::Finite(e) => Ok((text::from_chars(s, i, e), e)),
    }
}

fn read_required(s: &Vec<char>, i: usize, n: usize) -> (r: Result<(Vec<String>, usize), Error>)
    requires
        i <= s@.len(),
    ensures
        match required(s@, i as int, n as int) {
            Ok((a, j)) => r matches Ok((b, k)) && path_data::texts(b@) == a && k == j && k
                <= s@.len(),
            Err(f) => r matches Err(e) && failed(e, f),
        },
    decreases n,
{
    if n == 0 {
        let a: Vec<String> = Vec::new();
        assert(path_data::texts(a@) =~= Seq::<Seq<char>>::empty());
        return Ok((a, i));
    }
    match read_required(s, i, n - 1) {
        Err(e) => Err(e),
        Ok((a, j)) => {
            let mut a = a;
            let ghost before = a@;
            let k: usize = path_data::skip_separator(s, j);
            match read_number(s, k) {
                Err(e) => Err(e),
                Ok((t, e)) => {
                    a.push(t);
                    assert(path_data::texts(a@) =~= path_data::texts(before).push(t@));
                    Ok((a, e))
                },
            }
        },
    }
}

fn read_args(s: &Vec<char>, i: usize, n: usize, m: usize) -> (r: Result<
    (Vec<String>, usize),
    Error,
>)
    requires
        i <= s@.len(),
    ensures
        match with_optional(s@, i as int, n as int, m as int) {
            Ok((a, j)) => r matches Ok((b, k)) && path_data::texts(b@) == a && k == j && k
                <= s@.len(),
            Err(f) => r matches Err(e) && failed(e, f),
        },
{
    match read_required(s, i, n) {
        Err(e) => Err(e),
        Ok((a, j)) => {
            let mut a = a;
            let k: usize = path_data::skip_separator(s, j);
            let again = k < s.len() && (('0' <= s[k] && s[k] <= '9') || s[k] == '.' || s[k] == '+'
                || s[k] == '-');
            if m > 0 && again {
                match read_required(s, j, m) {
                    Err(e) => Err(e),
                    Ok((b, e)) => {
                        let mut b = b;
                        let ghost front = a@;
                        let ghost back = b@;
                        a.append(&mut b);
                        assert(path_data::texts(a@) =~= path_data::texts(front) + path_data::texts(
                            back,
                        ));
                        Ok((a, e))
                    },
                }
            } else {
                Ok((a, j))
            }
        },
    }
}

fn kind_of(name: &str) -> (r: Option<(Kind, usize, usize)>)
    ensures
        match named(name@) {
            Some((kind, n, m)) => r matches Some((k, a, b)) && k == kind && a == n && b == m,
            None => r is None,
        },
{
    if text::same(name, "matrix") {
        Some((Kind::Matrix, 6, 0))
    } else if text::same(name, "translate") {
        Some((Kind::Translate, 1, 1))
    } else if text::same(name, "scale") {
        Some((Kind::Scale, 1, 1))
    } else if text::same(name, "rotate") {
        Some((Kind::Rotate, 1, 2))
    } else if text::same(name, "skewX") {
        Some((Kind::SkewX, 1, 0))
    } else if text::same(name, "skewY") {
        Some((Kind::SkewY, 1, 0))
    } else {
        None
    }
}

fn read_function(s: &Vec<char>, i: usize) -> (r: Result<(Function, usize), Error>)
    requires
        i <= s@.len(),
    ensures
        match function(s@, i as int) {
            Ok((f, j)) => r matches Ok((g, k)) && g@ == f && k == j && i < k <= s@.len(),
            Err(f) => r matches Err(e) && failed(e, f),
        },
{
    let mut e: usize = i;
    while e < s.len() && (('a' <= s[e] && s[e] <= 'z') || ('A' <= s[e] && s[e] <= 'Z'))
        invariant
            i <= e <= s@.len(),
            past_letters(s@, i as int) == past_letters(s@, e as int),
        decreases s@.len() - e,
    {
        e += 1;
    }
    let name = text::from_chars(s, i, e);
    let j: usize = path_data::skip_white(s, e);
    proof {
        lemma_function(s@, i as int);
    }
    if j == s.len() || s[j] != '(' {
        return Err(error(j, "expected `(`".to_owned()));
    }
    match kind_of(name.as_str()) {
        None => if e == i {
            Err(error(i, "expected a transform function".to_owned()))
        } else {
            let mut message = "unknown transform function `".to_owned();
            message.append(name.as_str());
            message.append("`");
            Err(error(i, message))
        },
        Some((kind, n, m)) => match read_args(s, j + 1, n, m) {
            Err(e) => Err(e),
            Ok((args, k)) => {
                let close: usize = path_data::skip_white(s, k);
                if close == s.len() || s[close] != ')' {
                    Err(error(close, "expected `)`".to_owned()))
                } else {
                    Ok((Function { kind, args }, close + 1))
                }
            },
        },
    }
}

/// Parse a `transform` attribute value into its functions.
///
/// An empty or all-whitespace value has none, which is the identity.
pub fn parse_transform(value: &str) -> (r: Result<Vec<Function>, Error>)
    ensures
        match transform_list(value@) {
            Ok(list) => r matches Ok(v) && functions_view(v@) == list,
            Err(f) => r matches Err(e) && failed(e, f),
        },
{
    let s = text::to_chars(value);
    let mut out: Vec<Function> = Vec::new();
    let mut i: usize = path_data::skip_separator(&s, 0);
    let ghost whole = functions(s@, i as int);
    proof {
        if let Ok(rest) = whole {
            assert(functions_view(out@) + rest =~= rest);
        }
    }
    while i < s.len()
        invariant
            i <= s@.len(),
                s@ == value@,
            whole == transform_list(value@),
            match functions(s@, i as int) {
                Ok(rest) => whole == Ok::<Seq<FunctionModel>, Fault>(
                    functions_view(out@) + rest,
                ),
                Err(f) => whole == Err::<Seq<FunctionModel>, Fault>(f),
            },
        decreases s@.len() - i,
    {
        let ghost before = out@;
        match read_function(&s, i) {
            Err(e) => {
                return Err(e);
            },
            Ok((f, j)) => {
                proof {
                    path_data::lemma_past_separator(s@, j as int);
                }
                i = path_data::skip_separator(&s, j);
                out.push(f);
                proof {
                    assert(functions_view(out@) =~= functions_view(before).push(f@));
                    if let Ok(rest) = functions(s@, i as int) {
                        assert(functions_view(before) + (seq![f@] + rest) =~= functions_view(out@)
                            + rest);
                    }
                }
            },
        }
    }
    assert(functions_view(out@) + Seq::<FunctionModel>::empty() =~= functions_view(out@));
    Ok(out)
}

/// Numbers with a space between them.
pub open spec fn listed(a: Seq<Seq<char>>) -> Seq<char>
    decreases a.len(),
{
    if a.len() == 0 {
        Seq::empty()
    } else if a.len() == 1 {
        a[0]
    } else {
        listed(a.drop_last()) + seq![' '] + a.last()
    }
}

/// A matrix as a transform list.
pub open spec fn matrix_text(a: Seq<Seq<char>>) -> Seq<char> {
    "matrix("@ + listed(a) + ")"@
}

/// Writes numbers with a space between them.
pub fn write_list(a: &Vec<String>) -> (out: String)
    ensures
        out@ == listed(path_data::texts(a@)),
{
    let ghost all = path_data::texts(a@);
    let mut out = String::new();
    let mut i: usize = 0;
    while i < a.len()
        invariant
            i <= a@.len(),
            all == path_data::texts(a@),
            out@ == listed(all.take(i as int)),
        decreases a@.len() - i,
    {
        let ghost before = out@;
        if i > 0 {
            out.push(' ');
        }
        out.append(a[i].as_str());
        proof {
            assert(all.take(i + 1).drop_last() =~= all.take(i as int));
            if i == 0 {
                assert(out@ =~= all[0]);
            } else {
                assert(out@ =~= before + seq![' '] + all[i as int]);
            }
        }
        i += 1;
    }
    assert(all.take(i as int) =~= all);
    out
}

/// Writes a matrix of six numbers as a transform list.
pub fn write_matrix(a: &Vec<String>) -> (out: String)
    ensures
        out@ == matrix_text(path_data::texts(a@)),
{
    let mut out = "matrix(".to_owned();
    let list = write_list(a);
    out.append(list.as_str());
    out.append(")");
    out
}

/// Numbers written with a space between them are read back.
proof fn lemma_required_listed(s: Seq<char>, i: int, a: Seq<Seq<char>>, n: int)
    requires
        0 <= n <= a.len(),
        0 <= i,
        forall|k: int| 0 <= k < a.len() ==> number::is_number(#[trigger] a[k]),
        i + listed(a.take(n)).len() <= s.len(),
        s.subrange(i, i + listed(a.take(n)).len()) == listed(a.take(n)),
        number::stops(s, i + listed(a.take(n)).len()),
    ensures
        required(s, i, n) == Ok::<(Seq<Seq<char>>, int), Fault>(
            (a.take(n), i + listed(a.take(n)).len()),
        ),
    decreases n,
{
    if n == 0 {
        assert(a.take(0) =~= Seq::<Seq<char>>::empty());
    } else {
        let t = a[n - 1];
        let whole = listed(a.take(n));
        assert(number::is_number(t));
        number::lemma_number_first(t);
        assert forall|j: int| 0 <= j < whole.len() implies s[i + j] == #[trigger] whole[j] by {
            assert(s.subrange(i, i + whole.len())[j] == s[i + j]);
        }
        assert(a.take(n).drop_last() =~= a.take(n - 1));
        assert(a.take(n) =~= a.take(n - 1).push(t));
        if n == 1 {
            assert(a.take(0) =~= Seq::<Seq<char>>::empty());
            assert(whole == t);
            assert(s[i] == t[0]);
            assert(path_data::past_white(s, i) == i);
            number::a_number_reads_the_same_in_context(s, i, t);
        } else {
            let front = listed(a.take(n - 1));
            let m = front.len() as int;
            assert(whole == front + seq![' '] + t);
            assert(s.subrange(i, i + m) =~= front) by {
                assert forall|j: int| 0 <= j < m implies s[i + j] == front[j] by {
                    assert(whole[j] == front[j]);
                }
            }
            assert(s[i + m] == ' ') by {
                assert(whole[m] == ' ');
            }
            lemma_required_listed(s, i, a, n - 1);
            assert(s[i + m + 1] == t[0]) by {
                assert(whole[m + 1] == t[0]);
            }
            assert(path_data::past_white(s, i + m + 1) == i + m + 1);
            assert(path_data::past_white(s, i + m) == i + m + 1);
            assert(s.subrange(i + m + 1, i + m + 1 + t.len()) =~= t) by {
                assert forall|j: int| 0 <= j < t.len() implies s[i + m + 1 + j] == t[j] by {
                    assert(whole[m + 1 + j] == t[j]);
                }
            }
            number::a_number_reads_the_same_in_context(s, i + m + 1, t);
        }
    }
}

/// A matrix survives its text: written out and parsed again it is one matrix
/// with the same six numbers.
pub proof fn parsing_undoes_writing_a_matrix(a: Seq<Seq<char>>)
    requires
        a.len() == 6,
        forall|k: int| 0 <= k < a.len() ==> number::is_number(#[trigger] a[k]),
    ensures
        transform_list(matrix_text(a)) == Ok::<Seq<FunctionModel>, Fault>(
            seq![FunctionModel { kind: Kind::Matrix, args: a }],
        ),
{
    reveal_strlit("matrix(");
    reveal_strlit("matrix");
    reveal_strlit(")");
    let s = matrix_text(a);
    let body = listed(a);
    let n = 7int + body.len();
    assert(s.len() == n + 1);
    assert(s.subrange(0, 7) =~= "matrix("@);
    assert forall|j: int| 0 <= j < 7 implies s[j] == "matrix("@[j] by {}
    assert(s[0] == 'm' && s[1] == 'a' && s[2] == 't' && s[3] == 'r' && s[4] == 'i' && s[5] == 'x'
        && s[6] == '(');
    assert(path_data::past_white(s, 0) == 0);
    assert(past_letters(s, 0) == 6) by {
        reveal_with_fuel(past_letters, 8);
    }
    assert(s.subrange(0, 6) =~= "matrix"@);
    assert(path_data::past_white(s, 6) == 6);
    assert(a.take(6) =~= a);
    assert(s.subrange(7, n) =~= body);
    assert(s[n] == ')');
    lemma_required_listed(s, 7, a, 6);
    assert(path_data::past_white(s, n) == n);
    assert(path_data::past_separator(s, n + 1) == n + 1);
    assert(function(s, 0) == Ok::<(FunctionModel, int), Fault>(
        (FunctionModel { kind: Kind::Matrix, args: a }, n + 1),
    ));
    assert(functions(s, n + 1) == Ok::<Seq<FunctionModel>, Fault>(Seq::empty()));
    assert(seq![FunctionModel { kind: Kind::Matrix, args: a }] + Seq::empty() =~= seq![
        FunctionModel { kind: Kind::Matrix, args: a },
    ]);
}

/// How a transform function is written: its name, the arguments it takes in
/// brackets.
pub open spec fn is_written(kind: Kind, name: Seq<char>, n: nat) -> bool {
    match kind {
        Kind::Matrix => name == "matrix"@ && n == 6,
        Kind::Translate => name == "translate"@ && (n == 1 || n == 2),
        Kind::Scale => name == "scale"@ && (n == 1 || n == 2),
        Kind::Rotate => name == "rotate"@ && (n == 1 || n == 3),
        Kind::SkewX => name == "skewX"@ && n == 1,
        Kind::SkewY => name == "skewY"@ && n == 1,
    }
}

/// A function with its name and its arguments, written out.
pub open spec fn call_text(name: Seq<char>, args: Seq<Seq<char>>) -> Seq<char> {
    name + seq!['('] + listed(args) + seq![')']
}

/// Whether `f` is a function that `name` writes.
pub open spec fn writes(name: Seq<char>, f: FunctionModel) -> bool {
    is_written(f.kind, name, f.args.len()) && forall|k: int|
        0 <= k < f.args.len() ==> number::is_number(#[trigger] f.args[k])
}

proof fn lemma_names(name: Seq<char>, kind: Kind, n: nat)
    requires
        is_written(kind, name, n),
    ensures
        named(name) matches Some((k, need, more)) && k == kind && (n == need || n == need + more)
            && need > 0 && more >= 0,
        name.len() > 0,
        forall|k: int| 0 <= k < name.len() ==> is_letter(#[trigger] name[k]),
{
    reveal_strlit("matrix");
    reveal_strlit("translate");
    reveal_strlit("scale");
    reveal_strlit("rotate");
    reveal_strlit("skewX");
    reveal_strlit("skewY");
    assert("rotate"@[0] != "matrix"@[0]);
    assert("skewX"@[1] != "scale"@[1]);
    assert("skewY"@[1] != "scale"@[1]);
    assert("skewY"@[4] != "skewX"@[4]);
}

proof fn lemma_letters(s: Seq<char>, i: int, e: int)
    requires
        0 <= i <= e < s.len(),
        forall|k: int| i <= k < e ==> is_letter(#[trigger] s[k]),
        !is_letter(s[e]),
    ensures
        past_letters(s, i) == e,
    decreases e - i,
{
    if i < e {
        assert(is_letter(s[i]));
        lemma_letters(s, i + 1, e);
    }
}

proof fn lemma_listed_add(a: Seq<Seq<char>>, b: Seq<Seq<char>>)
    requires
        a.len() > 0,
        b.len() > 0,
    ensures
        listed(a + b) == listed(a) + seq![' '] + listed(b),
    decreases b.len(),
{
    assert((a + b).drop_last() =~= a + b.drop_last());
    if b.len() == 1 {
        assert(a + b.drop_last() =~= a);
    } else {
        lemma_listed_add(a, b.drop_last());
        assert(listed(a + b) =~= listed(a) + seq![' '] + listed(b));
    }
}

proof fn lemma_required_from(s: Seq<char>, i: int, j: int, n: int)
    requires
        n > 0,
        path_data::past_separator(s, i) == path_data::past_separator(s, j),
    ensures
        required(s, i, n) == required(s, j, n),
    decreases n,
{
    reveal_with_fuel(required, 2);
    if n > 1 {
        lemma_required_from(s, i, j, n - 1);
    }
}

/// The arguments of a function are read back wherever they stand.
proof fn lemma_arguments_read(s: Seq<char>, i: int, a: Seq<Seq<char>>, n: int, m: int)
    requires
        0 < n,
        0 <= m,
        a.len() == n || a.len() == n + m,
        forall|k: int| 0 <= k < a.len() ==> number::is_number(#[trigger] a[k]),
        0 <= i,
        i + listed(a).len() < s.len(),
        s.subrange(i, i + listed(a).len()) == listed(a),
        s[i + listed(a).len()] == ')',
    ensures
        with_optional(s, i, n, m) == Ok::<(Seq<Seq<char>>, int), Fault>((a, i + listed(a).len())),
{
    let len = listed(a).len() as int;
    if a.len() == n {
        assert(a.take(n) =~= a);
        lemma_required_listed(s, i, a, n);
        assert(path_data::past_white(s, i + len) == i + len);
        assert(!path_data::more(s, i + len));
    } else {
        let x = a.take(n);
        let y = a.skip(n);
        assert(a =~= x + y);
        lemma_listed_add(x, y);
        let front = listed(x);
        let back = listed(y);
        let p = i + front.len();
        let whole = listed(a);
        assert forall|k: int| 0 <= k < whole.len() implies s[i + k] == #[trigger] whole[k] by {
            assert(s.subrange(i, i + whole.len())[k] == s[i + k]);
        }
        assert(s[p] == ' ') by {
            assert(whole[front.len() as int] == ' ');
        }
        assert(s.subrange(i, p) =~= front) by {
            assert forall|k: int| 0 <= k < front.len() implies s[i + k] == front[k] by {
                assert(whole[k] == front[k]);
            }
        }
        lemma_required_listed(s, i, a, n);
        assert(s.subrange(p + 1, p + 1 + back.len()) =~= back) by {
            assert forall|k: int| 0 <= k < back.len() implies s[p + 1 + k] == back[k] by {
                assert(whole[front.len() + 1 + k] == back[k]);
            }
        }
        assert forall|k: int| 0 <= k < y.len() implies number::is_number(#[trigger] y[k]) by {
            assert(y[k] == a[n + k]);
        }
        assert(y.take(m) =~= y);
        lemma_required_listed(s, p + 1, y, m);
        number::lemma_number_first(y[0]);
        lemma_listed_first(y);
        assert(s[p + 1] == back[0]);
        assert(back[0] == y[0][0]);
        assert(path_data::past_white(s, p + 1) == p + 1);
        assert(path_data::past_white(s, p) == p + 1);
        lemma_required_from(s, p, p + 1, m);
        assert(path_data::more(s, p));
    }
}

proof fn lemma_listed_first(a: Seq<Seq<char>>)
    requires
        a.len() > 0,
        a[0].len() > 0,
    ensures
        listed(a).len() > 0,
        listed(a)[0] == a[0][0],
    decreases a.len(),
{
    if a.len() > 1 {
        lemma_listed_first(a.drop_last());
    }
}

/// A function written out is read as that function, wherever it stands.
pub proof fn a_function_reads_as_written(s: Seq<char>, i: int, name: Seq<char>, f: FunctionModel)
    requires
        writes(name, f),
        0 <= i,
        i + call_text(name, f.args).len() <= s.len(),
        s.subrange(i, i + call_text(name, f.args).len()) == call_text(name, f.args),
    ensures
        function(s, i) == Ok::<(FunctionModel, int), Fault>(
            (f, i + call_text(name, f.args).len()),
        ),
{
    let t = call_text(name, f.args);
    let body = listed(f.args);
    assert forall|k: int| 0 <= k < t.len() implies s[i + k] == #[trigger] t[k] by {
        assert(s.subrange(i, i + t.len())[k] == s[i + k]);
    }
    lemma_names(name, f.kind, f.args.len());
    let e = i + name.len();
    assert(s[e] == '(') by {
        assert(t[name.len() as int] == '(');
    }
    assert forall|k: int| i <= k < e implies is_letter(#[trigger] s[k]) by {
        assert(t[k - i] == name[k - i]);
        assert(s[i + (k - i)] == t[k - i]);
    }
    lemma_letters(s, i, e);
    assert(s.subrange(i, e) =~= name) by {
        assert forall|k: int| 0 <= k < name.len() implies s[i + k] == name[k] by {
            assert(t[k] == name[k]);
        }
    }
    assert(path_data::past_white(s, e) == e);
    let b = e + 1;
    assert(s.subrange(b, b + body.len()) =~= body) by {
        assert forall|k: int| 0 <= k < body.len() implies s[b + k] == body[k] by {
            assert(t[name.len() + 1 + k] == body[k]);
        }
    }
    assert(s[b + body.len()] == ')') by {
        assert(t[name.len() as int + 1 + body.len()] == ')');
    }
    let (_, n, m) = named(name)->0;
    lemma_arguments_read(s, b, f.args, n, m);
    assert(path_data::past_white(s, b + body.len()) == b + body.len());
}

/// Functions written out one after the other.
pub open spec fn list_text(names: Seq<Seq<char>>, fs: Seq<FunctionModel>) -> Seq<char>
    decreases fs.len(),
{
    if fs.len() == 0 {
        Seq::empty()
    } else {
        call_text(names[0], fs[0].args) + seq![' '] + list_text(names.skip(1), fs.skip(1))
    }
}

/// A transform list is its functions in the order they are written in.
pub proof fn a_list_reads_in_order(names: Seq<Seq<char>>, fs: Seq<FunctionModel>)
    requires
        names.len() == fs.len(),
        forall|k: int| 0 <= k < fs.len() ==> writes(#[trigger] names[k], fs[k]),
    ensures
        transform_list(list_text(names, fs)) == Ok::<Seq<FunctionModel>, Fault>(fs),
{
    let s = list_text(names, fs);
    assert(s.skip(0) =~= s);
    lemma_list_start(names, fs);
    lemma_list_reads(s, 0, names, fs);
}

proof fn lemma_list_start(names: Seq<Seq<char>>, fs: Seq<FunctionModel>)
    requires
        names.len() == fs.len(),
        forall|k: int| 0 <= k < fs.len() ==> writes(#[trigger] names[k], fs[k]),
    ensures
        path_data::past_separator(list_text(names, fs), 0) == 0,
        list_text(names, fs).len() > 0 ==> is_letter(list_text(names, fs)[0]),
{
    let s = list_text(names, fs);
    if fs.len() > 0 {
        assert(writes(names[0], fs[0]));
        lemma_names(names[0], fs[0].kind, fs[0].args.len());
        assert(s[0] == names[0][0]);
        assert(is_letter(names[0][0]));
    }
}

proof fn lemma_list_reads(s: Seq<char>, i: int, names: Seq<Seq<char>>, fs: Seq<FunctionModel>)
    requires
        0 <= i <= s.len(),
        s.skip(i) == list_text(names, fs),
        names.len() == fs.len(),
        forall|k: int| 0 <= k < fs.len() ==> writes(#[trigger] names[k], fs[k]),
    ensures
        functions(s, i) == Ok::<Seq<FunctionModel>, Fault>(fs),
    decreases fs.len(),
{
    if fs.len() == 0 {
        assert(s.skip(i).len() == 0);
        assert(fs =~= Seq::<FunctionModel>::empty());
    } else {
        let t = call_text(names[0], fs[0].args);
        let rest = list_text(names.skip(1), fs.skip(1));
        let whole = t + seq![' '] + rest;
        assert(writes(names[0], fs[0]));
        assert(s.skip(i) == whole);
        assert forall|k: int| 0 <= k < whole.len() implies s[i + k] == #[trigger] whole[k] by {
            assert(s.skip(i)[k] == s[i + k]);
        }
        assert(s.subrange(i, i + t.len()) =~= t) by {
            assert forall|k: int| 0 <= k < t.len() implies s[i + k] == t[k] by {
                assert(whole[k] == t[k]);
            }
        }
        a_function_reads_as_written(s, i, names[0], fs[0]);
        let j = i + t.len();
        assert(s[j] == ' ') by {
            assert(whole[t.len() as int] == ' ');
        }
        let next = j + 1;
        assert(s.skip(next) =~= rest) by {
            assert forall|k: int| 0 <= k < rest.len() implies s[next + k] == rest[k] by {
                assert(whole[t.len() + 1 + k] == rest[k]);
            }
        }
        assert forall|k: int| 0 <= k < fs.skip(1).len() implies writes(
            #[trigger] names.skip(1)[k],
            fs.skip(1)[k],
        ) by {
            assert(writes(names[k + 1], fs[k + 1]));
        }
        lemma_list_start(names.skip(1), fs.skip(1));
        if rest.len() > 0 {
            assert(s[next] == rest[0]);
        }
        assert(path_data::past_white(s, next) == next);
        assert(path_data::past_white(s, j) == next);
        assert(path_data::past_separator(s, j) == next);
        lemma_list_reads(s, next, names.skip(1), fs.skip(1));
        assert(seq![fs[0]] + fs.skip(1) =~= fs);
    }
}

} // verus!
