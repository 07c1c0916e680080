//! The `d` attribute: the SVG path data grammar.
//!
//! [`parse`] turns path data into a [`Drawing`]; [`write`] turns absolute
//! elements into path data that parses to the same elements.
//!
//! A path with malformed data renders everything up to the error, so [`parse`]
//! returns what it committed alongside the error that stopped it. Only whole
//! commands are committed: a command whose argument list runs out halfway
//! contributes nothing.
//!
//! Every separator in the grammar is optional wherever the result stays
//! unambiguous: `M0 0L1 1` runs a command letter onto the previous number,
//! `.5.5` is two numbers, and `1-2` uses the sign as the separator.
//!
//! Coordinates stay the numbers they were written as. A drawing lists the
//! places it visits, each by what its coordinates are made of: a number, the
//! coordinate of an earlier place, the two added, or an earlier place mirrored
//! in another. Whoever draws it adds them up in that order.

use vstd::prelude::*;
use crate::text;
use super::markup;
use super::number;
use super::number::Reading;

verus! {

broadcast use vstd::string::group_string_axioms;

/// What stopped the parse, and where.
#[derive(Debug, PartialEq, Eq)]
pub struct Error {
    /// A description of the failure, without position.
    pub message: String,
    /// Offset into the path data where the parser stopped.
    pub offset: usize,
}

impl Clone for Error {
    fn clone(&self) -> (r: Error)
        ensures
            r.message@ == self.message@,
            r.offset == self.offset,
    {
        Error { message: self.message.clone(), offset: self.offset }
    }
}

impl Error {
    /// The position and the description, for a reader.
    pub fn to_string(&self) -> (r: String)
        ensures
            r@ == "offset "@ + text::decimal(self.offset as nat) + ": "@ + self.message@,
    {
        let mut out = "offset ".to_owned();
        text::push_decimal(&mut out, self.offset);
        out.append(": ");
        out.append(self.message.as_str());
        out
    }
}

/// What one coordinate is made of. Places are named by their index.
#[derive(Debug, PartialEq, Eq)]
pub enum Term {
    Zero,
    Number(String),
    /// The coordinate of a place and a number, added.
    Plus(usize, String),
    /// The coordinate of a place.
    Same(usize),
    /// The coordinate of the first place and its distance from the second,
    /// added.
    Mirror(usize, usize),
}

#[derive(Debug, PartialEq, Eq)]
pub struct Place {
    pub x: Term,
    pub y: Term,
}

/// An element of a drawing, through places.
#[derive(Debug, PartialEq, Eq)]
pub enum Step {
    MoveTo(usize),
    LineTo(usize),
    QuadTo(usize, usize),
    CurveTo(usize, usize, usize),
    /// An elliptical arc, its rotation in degrees.
    Arc {
        from: usize,
        rx: String,
        ry: String,
        rotation: String,
        large: bool,
        sweep: bool,
        to: usize,
    },
    ClosePath,
}

/// The elements that path data draws, and the places they go through.
#[derive(Debug, PartialEq, Eq)]
pub struct Drawing {
    pub places: Vec<Place>,
    pub steps: Vec<Step>,
}

pub enum TermModel {
    Zero,
    Number(Seq<char>),
    Plus(int, Seq<char>),
    Same(int),
    Mirror(int, int),
}

pub struct PlaceModel {
    pub x: TermModel,
    pub y: TermModel,
}

pub enum StepModel {
    MoveTo(int),
    LineTo(int),
    QuadTo(int, int),
    CurveTo(int, int, int),
    Arc {
        from: int,
        rx: Seq<char>,
        ry: Seq<char>,
        rotation: Seq<char>,
        large: bool,
        sweep: bool,
        to: int,
    },
    ClosePath,
}

pub struct DrawingModel {
    pub places: Seq<PlaceModel>,
    pub steps: Seq<StepModel>,
}

impl View for Term {
    type V = TermModel;

    open spec fn view(&self) -> TermModel {
        match self {
            Term::Zero => TermModel::Zero,
            Term::Number(t) => TermModel::Number(t@),
            Term::Plus(k, t) => TermModel::Plus(*k as int, t@),
            Term::Same(k) => TermModel::Same(*k as int),
            Term::Mirror(k, j) => TermModel::Mirror(*k as int, *j as int),
        }
    }
}

impl View for Place {
    type V = PlaceModel;

    open spec fn view(&self) -> PlaceModel {
        PlaceModel { x: self.x@, y: self.y@ }
    }
}

impl View for Step {
    type V = StepModel;

    open spec fn view(&self) -> StepModel {
        match self {
            Step::MoveTo(a) => StepModel::MoveTo(*a as int),
            Step::LineTo(a) => StepModel::LineTo(*a as int),
            Step::QuadTo(a, b) => StepModel::QuadTo(*a as int, *b as int),
            Step::CurveTo(a, b, c) => StepModel::CurveTo(*a as int, *b as int, *c as int),
            Step::Arc { from, rx, ry, rotation, large, sweep, to } => StepModel::Arc {
                from: *from as int,
                rx: rx@,
                ry: ry@,
                rotation: rotation@,
                large: *large,
                sweep: *sweep,
                to: *to as int,
            },
            Step::ClosePath => StepModel::ClosePath,
        }
    }
}

impl View for Drawing {
    type V = DrawingModel;

    open spec fn view(&self) -> DrawingModel {
        DrawingModel {
            places: self.places@.map_values(|p: Place| p@),
            steps: self.steps@.map_values(|s: Step| s@),
        }
    }
}

/// A failure: where, and what.
pub type Fault = (int, Seq<char>);

pub open spec fn is_white(c: char) -> bool {
    c == ' ' || c == '\t' || c == '\n' || c == '\r' || c == '\u{c}'
}

/// Past the white space from `i` on.
pub open spec fn past_white(s: Seq<char>, i: int) -> int
    decreases s.len() - i,
{
    if 0 <= i < s.len() && is_white(s[i]) {
        past_white(s, i + 1)
    } else {
        i
    }
}

/// Past white space around at most one comma, all of it optional.
pub open spec fn past_separator(s: Seq<char>, i: int) -> int {
    let j = past_white(s, i);
    if markup::is_at(s, j, ',') {
        past_white(s, j + 1)
    } else {
        j
    }
}

/// An argument from `i` on, and where it ends. A flag is a single character.
pub open spec fn argument(s: Seq<char>, i: int, flag: bool) -> Result<(Seq<char>, int), Fault> {
    let j = past_separator(s, i);
    if flag {
        if markup::is_at(s, j, '0') || markup::is_at(s, j, '1') {
            Ok((seq![s[j]], j + 1))
        } else {
            Err((j, "arc flag must be 0 or 1"@))
        }
    } else {
        match number::number_end(s, j) {
            None => Err((j, "expected a number"@)),
            Some(e) => if number::too_large(s, j) {
                Err((j, "number out of range"@))
            } else {
                Ok((s.subrange(j, e), e))
            },
        }
    }
}

/// The arguments from the `k`th on, and where they end.
pub open spec fn arguments(s: Seq<char>, i: int, flags: Seq<bool>, k: int) -> Result<
    (Seq<Seq<char>>, int),
    Fault,
>
    decreases flags.len() - k,
{
    if k < 0 || k >= flags.len() {
        Ok((Seq::empty(), i))
    } else {
        match argument(s, i, flags[k]) {
            Err(f) => Err(f),
            Ok((t, j)) => match arguments(s, j, flags, k + 1) {
                Err(f) => Err(f),
                Ok((rest, e)) => Ok((seq![t] + rest, e)),
            },
        }
    }
}

/// The arguments a command takes, and which of them are flags.
pub open spec fn takes(letter: char) -> Option<Seq<bool>> {
    if letter == 'Z' {
        Some(seq![])
    } else if letter == 'M' || letter == 'L' || letter == 'T' {
        Some(seq![false, false])
    } else if letter == 'H' || letter == 'V' {
        Some(seq![false])
    } else if letter == 'C' {
        Some(seq![false, false, false, false, false, false])
    } else if letter == 'S' || letter == 'Q' {
        Some(seq![false, false, false, false])
    } else if letter == 'A' {
        Some(seq![false, false, false, true, true, false, false])
    } else {
        None
    }
}

/// How far a drawing has come: the current place, where the subpath began, and
/// the control point that the next smooth curve mirrors.
pub struct PenModel {
    pub drawing: DrawingModel,
    pub cur: int,
    pub start: int,
    pub cubic: Option<int>,
    pub quad: Option<int>,
}

/// Before the first command: at the origin.
pub open spec fn at_origin() -> PenModel {
    PenModel {
        drawing: DrawingModel {
            places: seq![PlaceModel { x: TermModel::Zero, y: TermModel::Zero }],
            steps: Seq::empty(),
        },
        cur: 0,
        start: 0,
        cubic: None,
        quad: None,
    }
}

/// A coordinate: as written, or measured from the current place.
pub open spec fn coordinate(relative: bool, cur: int, t: Seq<char>) -> TermModel {
    if relative {
        TermModel::Plus(cur, t)
    } else {
        TermModel::Number(t)
    }
}

pub open spec fn point(relative: bool, cur: int, x: Seq<char>, y: Seq<char>) -> PlaceModel {
    PlaceModel { x: coordinate(relative, cur, x), y: coordinate(relative, cur, y) }
}

/// The control point a smooth curve infers: the previous one mirrored in the
/// current place, or the current place itself when the previous command was
/// not the matching kind.
pub open spec fn mirrored(cur: int, prev: Option<int>) -> PlaceModel {
    match prev {
        Some(j) => PlaceModel { x: TermModel::Mirror(cur, j), y: TermModel::Mirror(cur, j) },
        None => PlaceModel { x: TermModel::Same(cur), y: TermModel::Same(cur) },
    }
}

/// The pen after a step through new places to the last of them.
pub open spec fn stepped(
    pen: PenModel,
    places: Seq<PlaceModel>,
    step: StepModel,
    cubic: Option<int>,
    quad: Option<int>,
) -> PenModel {
    PenModel {
        drawing: DrawingModel {
            places: pen.drawing.places + places,
            steps: pen.drawing.steps.push(step),
        },
        cur: pen.drawing.places.len() + places.len() - 1,
        cubic,
        quad,
        ..pen
    }
}

/// The pen after one command with its arguments.
pub open spec fn applied(
    pen: PenModel,
    letter: char,
    relative: bool,
    first: bool,
    a: Seq<Seq<char>>,
) -> PenModel {
    let n = pen.drawing.places.len() as int;
    let cur = pen.cur;
    if letter == 'Z' {
        PenModel {
            drawing: DrawingModel {
                places: pen.drawing.places,
                steps: pen.drawing.steps.push(StepModel::ClosePath),
            },
            cur: pen.start,
            start: pen.start,
            cubic: None,
            quad: None,
        }
    } else if letter == 'M' && first {
        PenModel {
            start: n,
            ..stepped(
                pen,
                seq![point(relative, cur, a[0], a[1])],
                StepModel::MoveTo(n),
                None,
                None,
            )
        }
    } else if letter == 'M' || letter == 'L' {
        // Implicit repetition after a moveto is a lineto.
        stepped(pen, seq![point(relative, cur, a[0], a[1])], StepModel::LineTo(n), None, None)
    } else if letter == 'H' {
        stepped(
            pen,
            seq![PlaceModel { x: coordinate(relative, cur, a[0]), y: TermModel::Same(cur) }],
            StepModel::LineTo(n),
            None,
            None,
        )
    } else if letter == 'V' {
        stepped(
            pen,
            seq![PlaceModel { x: TermModel::Same(cur), y: coordinate(relative, cur, a[0]) }],
            StepModel::LineTo(n),
            None,
            None,
        )
    } else if letter == 'C' {
        stepped(
            pen,
            seq![
                point(relative, cur, a[0], a[1]),
                point(relative, cur, a[2], a[3]),
                point(relative, cur, a[4], a[5]),
            ],
            StepModel::CurveTo(n, n + 1, n + 2),
            Some(n + 1),
            None,
        )
    } else if letter == 'S' {
        stepped(
            pen,
            seq![
                mirrored(cur, pen.cubic),
                point(relative, cur, a[0], a[1]),
                point(relative, cur, a[2], a[3]),
            ],
            StepModel::CurveTo(n, n + 1, n + 2),
            Some(n + 1),
            None,
        )
    } else if letter == 'Q' {
        stepped(
            pen,
            seq![point(relative, cur, a[0], a[1]), point(relative, cur, a[2], a[3])],
            StepModel::QuadTo(n, n + 1),
            None,
            Some(n),
        )
    } else if letter == 'T' {
        stepped(
            pen,
            seq![mirrored(cur, pen.quad), point(relative, cur, a[0], a[1])],
            StepModel::QuadTo(n, n + 1),
            None,
            Some(n),
        )
    } else {
        stepped(
            pen,
            seq![point(relative, cur, a[5], a[6])],
            StepModel::Arc {
                from: cur,
                rx: a[0],
                ry: a[1],
                rotation: a[2],
                large: a[3] == seq!['1'],
                sweep: a[4] == seq!['1'],
                to: n,
            },
            None,
            None,
        )
    }
}

/// Whether another argument group follows.
pub open spec fn more(s: Seq<char>, i: int) -> bool {
    let j = past_separator(s, i);
    0 <= j < s.len() && (number::is_digit(s[j]) || s[j] == '.' || s[j] == '+' || s[j] == '-')
}

pub proof fn lemma_past_separator(s: Seq<char>, i: int)
    requires
        0 <= i <= s.len(),
    ensures
        i <= past_white(s, i) <= past_separator(s, i) <= s.len(),
{
    lemma_past_white(s, i);
    let j = past_white(s, i);
    if markup::is_at(s, j, ',') {
        lemma_past_white(s, j + 1);
    }
}

pub proof fn lemma_past_white(s: Seq<char>, i: int)
    requires
        0 <= i <= s.len(),
    ensures
        i <= past_white(s, i) <= s.len(),
        past_white(s, i) < s.len() ==> !is_white(s[past_white(s, i)]),
    decreases s.len() - i,
{
    if i < s.len() && is_white(s[i]) {
        lemma_past_white(s, i + 1);
    }
}

/// Arguments take up text.
pub proof fn lemma_arguments(s: Seq<char>, i: int, flags: Seq<bool>, k: int)
    requires
        0 <= i <= s.len(),
        0 <= k <= flags.len(),
    ensures
        arguments(s, i, flags, k) matches Ok((a, j)) ==> {
            &&& i <= j <= s.len()
            &&& k < flags.len() ==> i < j
            &&& a.len() == flags.len() - k
        },
    decreases flags.len() - k,
{
    if k < flags.len() {
        lemma_past_separator(s, i);
        number::lemma_number_end(s, past_separator(s, i));
        if let Ok((t, j)) = argument(s, i, flags[k]) {
            lemma_arguments(s, j, flags, k + 1);
        }
    }
}

/// The pen after a command and its implicit repetitions, their arguments from
/// `i` on, and where they end or what stopped them.
pub open spec fn groups(
    s: Seq<char>,
    i: int,
    letter: char,
    relative: bool,
    first: bool,
    pen: PenModel,
) -> (PenModel, Result<int, Fault>)
    decreases s.len() - i,
    when 0 <= i <= s.len() && takes(letter) is Some
{
    let flags = takes(letter)->0;
    proof {
        lemma_arguments(s, i, flags, 0);
    }
    match arguments(s, i, flags, 0) {
        Err(f) => (pen, Err(f)),
        Ok((a, j)) => {
            let next = applied(pen, letter, relative, first, a);
            proof {
                lemma_past_separator(s, j);
            }
            if letter == 'Z' || !more(s, j) {
                (next, Ok(j))
            } else {
                groups(s, past_separator(s, j), letter, relative, false, next)
            }
        },
    }
}

pub open spec fn is_lower(c: char) -> bool {
    'a' <= c <= 'z'
}

pub open spec fn is_upper(c: char) -> bool {
    'A' <= c <= 'Z'
}

pub open spec fn upper(c: char) -> char {
    if is_lower(c) {
        (c as int - 32) as char
    } else {
        c
    }
}

pub proof fn lemma_groups(
    s: Seq<char>,
    i: int,
    letter: char,
    relative: bool,
    first: bool,
    pen: PenModel,
)
    requires
        0 <= i <= s.len(),
        takes(letter) is Some,
    ensures
        groups(s, i, letter, relative, first, pen).1 matches Ok(j) ==> i <= j <= s.len(),
    decreases s.len() - i,
{
    let flags = takes(letter)->0;
    lemma_arguments(s, i, flags, 0);
    if let Ok((a, j)) = arguments(s, i, flags, 0) {
        lemma_past_separator(s, j);
        if letter != 'Z' && more(s, j) {
            lemma_groups(
                s,
                past_separator(s, j),
                letter,
                relative,
                false,
                applied(pen, letter, relative, first, a),
            );
        }
    }
}

/// The pen after the commands from `i` on, and what stopped them.
pub open spec fn commands(s: Seq<char>, i: int, pen: PenModel) -> (PenModel, Option<Fault>)
    decreases s.len() - i,
    when 0 <= i <= s.len()
{
    let j = past_white(s, i);
    proof {
        lemma_past_white(s, i);
    }
    if j >= s.len() {
        (pen, None)
    } else if !is_lower(s[j]) && !is_upper(s[j]) {
        (pen, Some((j, "expected a command letter"@)))
    } else if takes(upper(s[j])) is None {
        (pen, Some((j, "unknown command"@)))
    } else {
        proof {
            lemma_groups(s, j + 1, upper(s[j]), is_lower(s[j]), true, pen);
        }
        match groups(s, j + 1, upper(s[j]), is_lower(s[j]), true, pen) {
            (next, Err(f)) => (next, Some(f)),
            (next, Ok(e)) => commands(s, e, next),
        }
    }
}

/// What path data draws, and what stopped the parse. Data that does not start
/// with a moveto is in error from the first character.
pub open spec fn drawn(s: Seq<char>) -> (DrawingModel, Option<Fault>) {
    let i = past_white(s, 0);
    if i >= s.len() {
        (at_origin().drawing, None)
    } else if s[i] != 'M' && s[i] != 'm' {
        (at_origin().drawing, Some((i, "path data must begin with a moveto"@)))
    } else {
        let (pen, stop) = commands(s, i, at_origin());
        (pen.drawing, stop)
    }
}

/// How far the parse has come.
struct Pen {
    drawing: Drawing,
    cur: usize,
    start: usize,
    cubic: Option<usize>,
    quad: Option<usize>,
}

spec fn index_model(k: Option<usize>) -> Option<int> {
    match k {
        Some(k) => Some(k as int),
        None => None,
    }
}

impl View for Pen {
    type V = PenModel;

    closed spec fn view(&self) -> PenModel {
        PenModel {
            drawing: self.drawing@,
            cur: self.cur as int,
            start: self.start as int,
            cubic: index_model(self.cubic),
            quad: index_model(self.quad),
        }
    }
}

pub(crate) fn skip_white(s: &Vec<char>, i: usize) -> (j: usize)
    requires
        i <= s@.len(),
    ensures
        j == past_white(s@, i as int),
        i <= j <= s@.len(),
{
    let mut j: usize = i;
    while j < s.len() && (s[j] == ' ' || s[j] == '\t' || s[j] == '\n' || s[j] == '\r' || s[j]
        == '\u{c}')
        invariant
            i <= j <= s@.len(),
            past_white(s@, i as int) == past_white(s@, j as int),
        decreases s@.len() - j,
    {
        j += 1;
    }
    j
}

pub(crate) fn skip_separator(s: &Vec<char>, i: usize) -> (j: usize)
    requires
        i <= s@.len(),
    ensures
        j == past_separator(s@, i as int),
        i <= j <= s@.len(),
{
    let j: usize = skip_white(s, i);
    if j < s.len() && s[j] == ',' {
        skip_white(s, j + 1)
    } else {
        j
    }
}

/// An error of the given kind.
fn error(offset: usize, message: &str) -> (e: Error)
    ensures
        e.offset == offset,
        e.message@ == message@,
{
    Error { message: message.to_owned(), offset }
}

/// Whether a result of the parser is what the grammar gives.
pub open spec fn failed(e: Error, f: Fault) -> bool {
    e.offset == f.0 && e.message@ == f.1
}

fn read_argument(s: &Vec<char>, i: usize, flag: bool) -> (r: Result<(String, usize), Error>)
    requires
        i <= s@.len(),
    ensures
        match argument(s@, i as int, flag) {
            Ok((t, j)) => r matches Ok((u, k)) && u@ == t && k == j && k <= s@.len(),
            Err(f) => r matches Err(e) && failed(e, f),
        },
{
    let j: usize = skip_separator(s, i);
    if flag {
        if j < s.len() && (s[j] == '0' || s[j] == '1') {
            let t = text::from_chars(s, j, j + 1);
            assert(t@ =~= seq![s@[j as int]]);
            Ok((t, j + 1))
        } else {
            Err(error(j, "arc flag must be 0 or 1"))
        }
    } else {
        proof {
            number::lemma_number_end(s@, j as int);
        }
        match number::read(s, j) {
            Reading::Missing => Err(error(j, "expected a number")),
            Reading::TooLarge(_) => Err(error(j, "number out of range")),
            Reading::Finite(e) => Ok((text::from_chars(s, j, e), e)),
        }
    }
}

/// The texts of a list.
pub open spec fn texts(a: Seq<String>) -> Seq<Seq<char>> {
    a.map_values(|t: String| t@)
}

fn read_arguments(s: &Vec<char>, i: usize, flags: &Vec<bool>) -> (r: Result<
    (Vec<String>, usize),
    Error,
>)
    requires
        i <= s@.len(),
    ensures
        match arguments(s@, i as int, flags@, 0) {
            Ok((a, j)) => r matches Ok((b, k)) && texts(b@) == a && k == j && i <= k <= s@.len()
                && b@.len() == flags@.len(),
            Err(f) => r matches Err(e) && failed(e, f),
        },
{
    let mut a: Vec<String> = Vec::new();
    let mut pos: usize = i;
    let mut k: usize = 0;
    let ghost whole = arguments(s@, i as int, flags@, 0);
    proof {
        lemma_arguments(s@, i as int, flags@, 0);
        if let Ok((rest, e)) = whole {
            assert(texts(a@) + rest =~= rest);
        }
    }
    while k < flags.len()
        invariant
            k <= flags@.len(),
            a@.len() == k,
            i <= pos <= s@.len(),
            whole == arguments(s@, i as int, flags@, 0),
            match arguments(s@, pos as int, flags@, k as int) {
                Ok((rest, e)) => whole == Ok::<(Seq<Seq<char>>, int), Fault>(
                    (texts(a@) + rest, e),
                ),
                Err(f) => whole == Err::<(Seq<Seq<char>>, int), Fault>(f),
            },
        decreases flags@.len() - k,
    {
        let ghost before = a@;
        proof {
            lemma_past_separator(s@, pos as int);
            number::lemma_number_end(s@, past_separator(s@, pos as int));
        }
        match read_argument(s, pos, flags[k]) {
            Ok((t, j)) => {
                a.push(t);
                proof {
                    assert(texts(a@) =~= texts(before).push(t@));
                    if let Ok((rest, e)) = arguments(s@, j as int, flags@, k + 1) {
                        assert(texts(before) + (seq![t@] + rest) =~= texts(a@) + rest);
                    }
                }
                pos = j;
            },
            Err(e) => {
                return Err(e);
            },
        }
        k += 1;
    }
    assert(texts(a@) + Seq::<Seq<char>>::empty() =~= texts(a@));
    Ok((a, pos))
}

/// The arguments a command takes, and which of them are flags.
fn command_takes(letter: char) -> (r: Option<Vec<bool>>)
    ensures
        match takes(letter) {
            Some(flags) => r matches Some(v) && v@ == flags,
            None => r is None,
        },
{
    match letter {
        'Z' => Some(Vec::new()),
        'M' | 'L' | 'T' => Some(vec![false, false]),
        'H' | 'V' => Some(vec![false]),
        'C' => Some(vec![false, false, false, false, false, false]),
        'S' | 'Q' => Some(vec![false, false, false, false]),
        'A' => Some(vec![false, false, false, true, true, false, false]),
        _ => None,
    }
}

fn term(relative: bool, cur: usize, t: &String) -> (r: Term)
    ensures
        r@ == coordinate(relative, cur as int, t@),
{
    if relative {
        Term::Plus(cur, t.clone())
    } else {
        Term::Number(t.clone())
    }
}

fn place(relative: bool, cur: usize, x: &String, y: &String) -> (p: Place)
    ensures
        p@ == point(relative, cur as int, x@, y@),
{
    Place { x: term(relative, cur, x), y: term(relative, cur, y) }
}

/// The control point a smooth curve infers.
fn reflect(cur: usize, prev: Option<usize>) -> (p: Place)
    ensures
        p@ == mirrored(cur as int, index_model(prev)),
{
    match prev {
        Some(j) => Place { x: Term::Mirror(cur, j), y: Term::Mirror(cur, j) },
        None => Place { x: Term::Same(cur), y: Term::Same(cur) },
    }
}

impl Pen {
    /// Adds a place, and gives its index.
    fn put(&mut self, p: Place) -> (k: usize)
        ensures
            k == old(self)@.drawing.places.len(),
            final(self)@ == (PenModel {
                drawing: DrawingModel {
                    places: old(self)@.drawing.places.push(p@),
                    steps: old(self)@.drawing.steps,
                },
                ..old(self)@
            }),
    {
        let ghost before = self@;
        self.drawing.places.push(p);
        assert(self@.drawing.places =~= before.drawing.places.push(p@));
        self.drawing.places.len() - 1
    }

    /// Takes a step to the place `cur`.
    fn step(&mut self, step: Step, cur: usize, cubic: Option<usize>, quad: Option<usize>)
        ensures
            final(self)@ == (PenModel {
                drawing: DrawingModel {
                    places: old(self)@.drawing.places,
                    steps: old(self)@.drawing.steps.push(step@),
                },
                cur: cur as int,
                start: old(self)@.start,
                cubic: index_model(cubic),
                quad: index_model(quad),
            }),
    {
        let ghost before = self@;
        self.drawing.steps.push(step);
        self.cur = cur;
        self.cubic = cubic;
        self.quad = quad;
        assert(self@.drawing.steps =~= before.drawing.steps.push(step@));
    }

    /// One command with its arguments.
    fn apply(&mut self, letter: char, relative: bool, first: bool, a: &Vec<String>)
        requires
            takes(letter) matches Some(flags) && a@.len() == flags.len(),
        ensures
            final(self)@ == applied(old(self)@, letter, relative, first, texts(a@)),
    {
        let ghost pen = self@;
        let ghost before = self@.drawing.places;
        let ghost next = applied(self@, letter, relative, first, texts(a@));
        let cur: usize = self.cur;
        match letter {
            'Z' => {
                let start: usize = self.start;
                self.step(Step::ClosePath, start, None, None);
            },
            'M' | 'L' => {
                let p: usize = self.put(place(relative, cur, &a[0], &a[1]));
                if letter == 'M' && first {
                    self.step(Step::MoveTo(p), p, None, None);
                    self.start = p;
                } else {
                    self.step(Step::LineTo(p), p, None, None);
                }
            },
            'H' => {
                let p: usize = self.put(
                    Place { x: term(relative, cur, &a[0]), y: Term::Same(cur) },
                );
                self.step(Step::LineTo(p), p, None, None);
            },
            'V' => {
                let p: usize = self.put(
                    Place { x: Term::Same(cur), y: term(relative, cur, &a[0]) },
                );
                self.step(Step::LineTo(p), p, None, None);
            },
            'C' => {
                let c: usize = self.put(place(relative, cur, &a[0], &a[1]));
                let d: usize = self.put(place(relative, cur, &a[2], &a[3]));
                let p: usize = self.put(place(relative, cur, &a[4], &a[5]));
                self.step(Step::CurveTo(c, d, p), p, Some(d), None);
            },
            'S' => {
                let c: usize = self.put(reflect(cur, self.cubic));
                let d: usize = self.put(place(relative, cur, &a[0], &a[1]));
                let p: usize = self.put(place(relative, cur, &a[2], &a[3]));
                self.step(Step::CurveTo(c, d, p), p, Some(d), None);
            },
            'Q' => {
                let c: usize = self.put(place(relative, cur, &a[0], &a[1]));
                let p: usize = self.put(place(relative, cur, &a[2], &a[3]));
                self.step(Step::QuadTo(c, p), p, None, Some(c));
            },
            'T' => {
                let c: usize = self.put(reflect(cur, self.quad));
                let p: usize = self.put(place(relative, cur, &a[0], &a[1]));
                self.step(Step::QuadTo(c, p), p, None, Some(c));
            },
            _ => {
                proof {
                    reveal_strlit("1");
                    assert("1"@ =~= seq!['1']);
                }
                let large = text::same(a[3].as_str(), "1");
                let sweep = text::same(a[4].as_str(), "1");
                let p: usize = self.put(place(relative, cur, &a[5], &a[6]));
                let arc = Step::Arc {
                    from: cur,
                    rx: a[0].clone(),
                    ry: a[1].clone(),
                    rotation: a[2].clone(),
                    large,
                    sweep,
                    to: p,
                };
                self.step(arc, p, None, None);
            },
        }
        proof {
            assert(self@.drawing.places =~= next.drawing.places);
            assert(self@.drawing.steps =~= next.drawing.steps);
        }
    }

    /// A command and its implicit repetitions, their arguments from `i` on.
    fn command(&mut self, s: &Vec<char>, i: usize, letter: char, relative: bool) -> (r: Result<
        usize,
        Error,
    >)
        requires
            i <= s@.len(),
            takes(letter) is Some,
        ensures
            final(self)@ == groups(s@, i as int, letter, relative, true, old(self)@).0,
            match groups(s@, i as int, letter, relative, true, old(self)@).1 {
                Ok(j) => r matches Ok(k) && k == j && i <= k <= s@.len(),
                Err(f) => r matches Err(e) && failed(e, f),
            },
    {
        let ghost before = self@;
        let ghost at = i as int;
        let flags = match command_takes(letter) {
            Some(flags) => flags,
            None => Vec::new(),
        };
        let mut pos: usize = i;
        let mut first = true;
        loop
            invariant
                i <= pos <= s@.len(),
                at == i,
                before == old(self)@,
                takes(letter) == Some(flags@),
                groups(s@, at, letter, relative, true, before) == groups(
                    s@,
                    pos as int,
                    letter,
                    relative,
                    first,
                    self@,
                ),
            decreases s@.len() - pos,
        {
            proof {
                lemma_arguments(s@, pos as int, flags@, 0);
            }
            let ghost pen = self@;
            match read_arguments(s, pos, &flags) {
                Err(e) => {
                    return Err(e);
                },
                Ok((a, j)) => {
                    self.apply(letter, relative, first, &a);
                    proof {
                        lemma_past_separator(s@, j as int);
                    }
                    let k: usize = skip_separator(s, j);
                    let again = k < s.len() && (('0' <= s[k] && s[k] <= '9') || s[k] == '.' || s[k]
                        == '+' || s[k] == '-');
                    if letter == 'Z' || !again {
                        return Ok(j);
                    }
                    first = false;
                    pos = k;
                },
            }
        }
    }

    /// The commands from `i` on.
    fn run(&mut self, s: &Vec<char>, i: usize) -> (r: Option<Error>)
        requires
            i <= s@.len(),
        ensures
            final(self)@ == commands(s@, i as int, old(self)@).0,
            match commands(s@, i as int, old(self)@).1 {
                Some(f) => r matches Some(e) && failed(e, f),
                None => r is None,
            },
    {
        let ghost whole = commands(s@, i as int, self@);
        let mut pos: usize = i;
        loop
            invariant
                i <= pos <= s@.len(),
                whole == commands(s@, i as int, old(self)@),
                whole == commands(s@, pos as int, self@),
            decreases s@.len() - pos,
        {
            proof {
                lemma_past_white(s@, pos as int);
            }
            let j: usize = skip_white(s, pos);
            if j == s.len() {
                return None;
            }
            let c = s[j];
            let lower = 'a' <= c && c <= 'z';
            if !lower && !('A' <= c && c <= 'Z') {
                return Some(error(j, "expected a command letter"));
            }
            let letter = to_upper(c);
            if command_takes(letter).is_none() {
                return Some(error(j, "unknown command"));
            }
            match self.command(s, j + 1, letter, lower) {
                Err(e) => {
                    return Some(e);
                },
                Ok(k) => {
                    pos = k;
                },
            }
        }
    }
}

/// The upper-case form of an ASCII letter.
pub(crate) fn to_upper(c: char) -> (r: char)
    ensures
        r == upper(c),
{
    if 'a' <= c && c <= 'z' {
        ((c as u32 - 32) as u8) as char
    } else {
        c
    }
}

/// Parse path data.
///
/// Returns what parsed and, when the data is malformed, the error that stopped
/// it. An empty or all-whitespace `d` is not an error and draws nothing.
pub fn parse(d: &str) -> (r: (Drawing, Option<Error>))
    ensures
        r.0@ == drawn(d@).0,
        match drawn(d@).1 {
            Some(f) => r.1 matches Some(e) && failed(e, f),
            None => r.1 is None,
        },
{
    let s = text::to_chars(d);
    let mut places: Vec<Place> = Vec::new();
    places.push(Place { x: Term::Zero, y: Term::Zero });
    let mut pen = Pen {
        drawing: Drawing { places, steps: Vec::new() },
        cur: 0,
        start: 0,
        cubic: None,
        quad: None,
    };
    proof {
        assert(pen@.drawing.places =~= at_origin().drawing.places);
        assert(pen@.drawing.steps =~= at_origin().drawing.steps);
    }
    let i: usize = skip_white(&s, 0);
    if i == s.len() {
        return (pen.drawing, None);
    }
    if s[i] != 'M' && s[i] != 'm' {
        return (pen.drawing, Some(error(i, "path data must begin with a moveto")));
    }
    let stop = pen.run(&s, i);
    (pen.drawing, stop)
}

/// A point by its two numbers.
#[derive(Debug, PartialEq, Eq)]
pub struct Pair {
    pub x: String,
    pub y: String,
}

/// An element of a path, its points by their numbers.
#[derive(Debug, PartialEq, Eq)]
pub enum Plotted {
    MoveTo(Pair),
    LineTo(Pair),
    QuadTo(Pair, Pair),
    CurveTo(Pair, Pair, Pair),
    ClosePath,
}

/// An element as the letter that draws it and its numbers.
pub struct PlottedModel {
    pub letter: char,
    pub numbers: Seq<Seq<char>>,
}

impl View for Plotted {
    type V = PlottedModel;

    open spec fn view(&self) -> PlottedModel {
        match self {
            Plotted::MoveTo(p) => PlottedModel { letter: 'M', numbers: seq![p.x@, p.y@] },
            Plotted::LineTo(p) => PlottedModel { letter: 'L', numbers: seq![p.x@, p.y@] },
            Plotted::QuadTo(c, p) => PlottedModel {
                letter: 'Q',
                numbers: seq![c.x@, c.y@, p.x@, p.y@],
            },
            Plotted::CurveTo(c, d, p) => PlottedModel {
                letter: 'C',
                numbers: seq![c.x@, c.y@, d.x@, d.y@, p.x@, p.y@],
            },
            Plotted::ClosePath => PlottedModel { letter: 'Z', numbers: seq![] },
        }
    }
}

/// Numbers with a space before each.
pub open spec fn spaced(numbers: Seq<Seq<char>>) -> Seq<char>
    decreases numbers.len(),
{
    if numbers.len() == 0 {
        Seq::empty()
    } else {
        spaced(numbers.drop_last()) + seq![' '] + numbers.last()
    }
}

/// Elements as path data: every command absolute, a space before every number.
pub open spec fn written(els: Seq<PlottedModel>) -> Seq<char>
    decreases els.len(),
{
    if els.len() == 0 {
        Seq::empty()
    } else {
        written(els.drop_last()) + seq![els.last().letter] + spaced(els.last().numbers)
    }
}

pub open spec fn plots(els: Seq<Plotted>) -> Seq<PlottedModel> {
    els.map_values(|e: Plotted| e@)
}

fn push_pair(out: &mut String, p: &Pair, numbers: Ghost<Seq<Seq<char>>>, before: Ghost<Seq<char>>)
    requires
        old(out)@ == before@ + spaced(numbers@),
    ensures
        final(out)@ == before@ + spaced(numbers@.push(p.x@).push(p.y@)),
{
    let ghost n = numbers@;
    out.push(' ');
    out.append(p.x.as_str());
    out.push(' ');
    out.append(p.y.as_str());
    proof {
        assert(n.push(p.x@).drop_last() =~= n);
        assert(n.push(p.x@).push(p.y@).drop_last() =~= n.push(p.x@));
        assert(spaced(n.push(p.x@)) == spaced(n) + seq![' '] + p.x@);
        assert(spaced(n.push(p.x@).push(p.y@)) == spaced(n.push(p.x@)) + seq![' '] + p.y@);
        assert(out@ =~= before@ + spaced(n.push(p.x@).push(p.y@)));
    }
}

/// Serialise path elements back to path data.
pub fn write(els: &[Plotted]) -> (out: String)
    ensures
        out@ == written(plots(els@)),
{
    let mut out = String::new();
    let mut i: usize = 0;
    assert(plots(els@.take(0)) =~= Seq::<PlottedModel>::empty());
    while i < els.len()
        invariant
            i <= els@.len(),
            out@ == written(plots(els@.take(i as int))),
        decreases els@.len() - i,
    {
        let ghost before = out@;
        let ghost none = Seq::<Seq<char>>::empty();
        match &els[i] {
            Plotted::MoveTo(p) => {
                out.push('M');
                assert(out@ =~= before.push('M') + spaced(none));
                push_pair(&mut out, p, Ghost(none), Ghost(before.push('M')));
                assert(none.push(p.x@).push(p.y@) =~= els@[i as int]@.numbers);
            },
            Plotted::LineTo(p) => {
                out.push('L');
                assert(out@ =~= before.push('L') + spaced(none));
                push_pair(&mut out, p, Ghost(none), Ghost(before.push('L')));
                assert(none.push(p.x@).push(p.y@) =~= els@[i as int]@.numbers);
            },
            Plotted::QuadTo(c, p) => {
                out.push('Q');
                let ghost b = before.push('Q');
                assert(out@ =~= b + spaced(none));
                push_pair(&mut out, c, Ghost(none), Ghost(b));
                push_pair(&mut out, p, Ghost(none.push(c.x@).push(c.y@)), Ghost(b));
                assert(none.push(c.x@).push(c.y@).push(p.x@).push(p.y@)
                    =~= els@[i as int]@.numbers);
            },
            Plotted::CurveTo(c, d, p) => {
                out.push('C');
                let ghost b = before.push('C');
                let ghost two = none.push(c.x@).push(c.y@);
                assert(out@ =~= b + spaced(none));
                push_pair(&mut out, c, Ghost(none), Ghost(b));
                push_pair(&mut out, d, Ghost(two), Ghost(b));
                push_pair(&mut out, p, Ghost(two.push(d.x@).push(d.y@)), Ghost(b));
                assert(two.push(d.x@).push(d.y@).push(p.x@).push(p.y@)
                    =~= els@[i as int]@.numbers);
            },
            Plotted::ClosePath => {
                out.push('Z');
                assert(els@[i as int]@.numbers =~= none);
                assert(out@ =~= before.push('Z') + spaced(none));
            },
        }
        proof {
            let e = els@[i as int]@;
            assert(plots(els@.take(i + 1)) =~= plots(els@.take(i as int)).push(e));
            assert(plots(els@.take(i as int)).push(e).drop_last() =~= plots(els@.take(i as int)));
            assert(out@ == before.push(e.letter) + spaced(e.numbers));
            assert(before.push(e.letter) =~= before + seq![e.letter]);
        }
        i += 1;
    }
    assert(els@.take(i as int) =~= els@);
    out
}

/// Whether an element is one of the absolute ones, with numbers that are.
pub open spec fn well_plotted(e: PlottedModel) -> bool {
    &&& e.letter == 'M' || e.letter == 'L' || e.letter == 'Q' || e.letter == 'C' || e.letter == 'Z'
    &&& e.numbers.len() == takes(e.letter)->0.len()
    &&& forall|k: int| 0 <= k < e.numbers.len() ==> number::is_number(#[trigger] e.numbers[k])
}

/// The numbers of a place that was written with two.
pub open spec fn numbers_at(p: PlaceModel) -> Seq<Seq<char>> {
    match (p.x, p.y) {
        (TermModel::Number(x), TermModel::Number(y)) => seq![x, y],
        _ => Seq::empty(),
    }
}

/// A step through places that were written with two numbers each.
pub open spec fn plotted(places: Seq<PlaceModel>, step: StepModel) -> PlottedModel {
    match step {
        StepModel::MoveTo(a) => PlottedModel { letter: 'M', numbers: numbers_at(places[a]) },
        StepModel::LineTo(a) => PlottedModel { letter: 'L', numbers: numbers_at(places[a]) },
        StepModel::QuadTo(a, b) => PlottedModel {
            letter: 'Q',
            numbers: numbers_at(places[a]) + numbers_at(places[b]),
        },
        StepModel::CurveTo(a, b, c) => PlottedModel {
            letter: 'C',
            numbers: numbers_at(places[a]) + numbers_at(places[b]) + numbers_at(places[c]),
        },
        StepModel::Arc { .. } => PlottedModel { letter: 'A', numbers: Seq::empty() },
        StepModel::ClosePath => PlottedModel { letter: 'Z', numbers: Seq::empty() },
    }
}

/// The elements of a drawing, each by its letter and numbers.
pub open spec fn all_plotted(d: DrawingModel) -> Seq<PlottedModel> {
    d.steps.map_values(|s: StepModel| plotted(d.places, s))
}

/// The places a step goes through exist.
pub open spec fn step_within(s: StepModel, n: int) -> bool {
    match s {
        StepModel::MoveTo(a) => 0 <= a < n,
        StepModel::LineTo(a) => 0 <= a < n,
        StepModel::QuadTo(a, b) => 0 <= a < n && 0 <= b < n,
        StepModel::CurveTo(a, b, c) => 0 <= a < n && 0 <= b < n && 0 <= c < n,
        StepModel::Arc { from, to, .. } => 0 <= from < n && 0 <= to < n,
        StepModel::ClosePath => true,
    }
}

/// A coordinate is made of places before the `n`th.
pub open spec fn term_before(t: TermModel, n: int) -> bool {
    match t {
        TermModel::Zero => true,
        TermModel::Number(_) => true,
        TermModel::Plus(k, _) => 0 <= k < n,
        TermModel::Same(k) => 0 <= k < n,
        TermModel::Mirror(k, j) => 0 <= k < n && 0 <= j < n,
    }
}

/// Every place is made of earlier ones, and every step goes through places
/// that exist.
pub open spec fn grounded(d: DrawingModel) -> bool {
    &&& forall|k: int|
        0 <= k < d.places.len() ==> term_before((#[trigger] d.places[k]).x, k) && term_before(
            d.places[k].y,
            k,
        )
    &&& forall|k: int|
        0 <= k < d.steps.len() ==> step_within(#[trigger] d.steps[k], d.places.len() as int)
}

/// A grounded drawing and a pen on places of it.
pub open spec fn pen_grounded(p: PenModel) -> bool {
    let n = p.drawing.places.len();
    &&& grounded(p.drawing)
    &&& 0 <= p.cur < n
    &&& 0 <= p.start < n
    &&& p.cubic matches Some(j) ==> 0 <= j < n
    &&& p.quad matches Some(j) ==> 0 <= j < n
}

proof fn lemma_stepped_grounded(
    pen: PenModel,
    places: Seq<PlaceModel>,
    step: StepModel,
    cubic: Option<int>,
    quad: Option<int>,
)
    requires
        pen_grounded(pen),
        places.len() > 0,
        forall|k: int|
            0 <= k < places.len() ==> term_before(
                (#[trigger] places[k]).x,
                pen.drawing.places.len() as int,
            ) && term_before(places[k].y, pen.drawing.places.len() as int),
        step_within(step, (pen.drawing.places.len() + places.len()) as int),
        cubic matches Some(j) ==> 0 <= j < pen.drawing.places.len() + places.len(),
        quad matches Some(j) ==> 0 <= j < pen.drawing.places.len() + places.len(),
    ensures
        pen_grounded(stepped(pen, places, step, cubic, quad)),
{
    let next = stepped(pen, places, step, cubic, quad);
    let n = pen.drawing.places.len() as int;
    let all = next.drawing.places;
    assert forall|k: int| 0 <= k < all.len() implies term_before((#[trigger] all[k]).x, k)
        && term_before(all[k].y, k) by {
        if k < n {
            assert(all[k] == pen.drawing.places[k]);
        } else {
            assert(all[k] == places[k - n]);
        }
    }
    assert forall|k: int| 0 <= k < next.drawing.steps.len() implies step_within(
        #[trigger] next.drawing.steps[k],
        all.len() as int,
    ) by {
        if k < pen.drawing.steps.len() {
            assert(next.drawing.steps[k] == pen.drawing.steps[k]);
        }
    }
}

proof fn lemma_applied_grounded(
    pen: PenModel,
    letter: char,
    relative: bool,
    first: bool,
    a: Seq<Seq<char>>,
)
    requires
        pen_grounded(pen),
    ensures
        pen_grounded(applied(pen, letter, relative, first, a)),
{
    let n = pen.drawing.places.len() as int;
    let cur = pen.cur;
    let next = applied(pen, letter, relative, first, a);
    if letter == 'Z' {
        assert forall|k: int| 0 <= k < next.drawing.steps.len() implies step_within(
            #[trigger] next.drawing.steps[k],
            n,
        ) by {
            if k < pen.drawing.steps.len() {
                assert(next.drawing.steps[k] == pen.drawing.steps[k]);
            }
        }
    } else {
        let places = next.drawing.places.skip(n);
        let step = next.drawing.steps.last();
        assert(next.drawing.places =~= pen.drawing.places + places);
        assert(next.drawing.steps =~= pen.drawing.steps.push(step));
        lemma_stepped_grounded(pen, places, step, next.cubic, next.quad);
        let other = stepped(pen, places, step, next.cubic, next.quad);
        assert(next.drawing == other.drawing);
        assert(next.cur == other.cur);
    }
}

proof fn lemma_groups_grounded(
    s: Seq<char>,
    i: int,
    letter: char,
    relative: bool,
    first: bool,
    pen: PenModel,
)
    requires
        0 <= i <= s.len(),
        takes(letter) is Some,
        pen_grounded(pen),
    ensures
        pen_grounded(groups(s, i, letter, relative, first, pen).0),
    decreases s.len() - i,
{
    let flags = takes(letter)->0;
    lemma_arguments(s, i, flags, 0);
    if let Ok((a, j)) = arguments(s, i, flags, 0) {
        lemma_applied_grounded(pen, letter, relative, first, a);
        lemma_past_separator(s, j);
        if letter != 'Z' && more(s, j) {
            lemma_groups_grounded(
                s,
                past_separator(s, j),
                letter,
                relative,
                false,
                applied(pen, letter, relative, first, a),
            );
        }
    }
}

proof fn lemma_commands_grounded(s: Seq<char>, i: int, pen: PenModel)
    requires
        0 <= i <= s.len(),
        pen_grounded(pen),
    ensures
        pen_grounded(commands(s, i, pen).0),
    decreases s.len() - i,
{
    lemma_past_white(s, i);
    let j = past_white(s, i);
    if j < s.len() && (is_lower(s[j]) || is_upper(s[j])) && takes(upper(s[j])) is Some {
        lemma_groups(s, j + 1, upper(s[j]), is_lower(s[j]), true, pen);
        lemma_groups_grounded(s, j + 1, upper(s[j]), is_lower(s[j]), true, pen);
        if let (next, Ok(e)) = groups(s, j + 1, upper(s[j]), is_lower(s[j]), true, pen) {
            lemma_commands_grounded(s, e, next);
        }
    }
}

/// Whatever the data, what it draws can be added up in order: each place is
/// made of earlier ones only, and each element goes through places there are.
pub proof fn a_drawing_is_grounded(s: Seq<char>)
    ensures
        grounded(drawn(s).0),
{
    lemma_past_white(s, 0);
    if past_white(s, 0) < s.len() {
        lemma_commands_grounded(s, past_white(s, 0), at_origin());
    }
}

/// The pen after absolute elements.
pub open spec fn traced(els: Seq<PlottedModel>) -> PenModel
    decreases els.len(),
{
    if els.len() == 0 {
        at_origin()
    } else {
        applied(traced(els.drop_last()), els.last().letter, false, true, els.last().numbers)
    }
}

proof fn lemma_plotted_kept(places: Seq<PlaceModel>, more_places: Seq<PlaceModel>, step: StepModel)
    requires
        step_within(step, places.len() as int),
    ensures
        plotted(places + more_places, step) == plotted(places, step),
{
}

/// An absolute element plots as itself.
proof fn lemma_new_step(pen: PenModel, e: PlottedModel)
    requires
        well_plotted(e),
    ensures
        ({
            let next = applied(pen, e.letter, false, true, e.numbers);
            &&& next.drawing.steps == pen.drawing.steps.push(next.drawing.steps.last())
            &&& next.drawing.places.len() >= pen.drawing.places.len()
            &&& next.drawing.places.take(pen.drawing.places.len() as int) == pen.drawing.places
            &&& plotted(next.drawing.places, next.drawing.steps.last()) == e
        }),
{
    let next = applied(pen, e.letter, false, true, e.numbers);
    assert(next.drawing.places.take(pen.drawing.places.len() as int) =~= pen.drawing.places);
    let got = plotted(next.drawing.places, next.drawing.steps.last());
    assert(got.numbers =~= e.numbers);
}

proof fn lemma_applied_plots(pen: PenModel, e: PlottedModel)
    requires
        pen_grounded(pen),
        well_plotted(e),
    ensures
        all_plotted(applied(pen, e.letter, false, true, e.numbers).drawing) == all_plotted(
            pen.drawing,
        ).push(e),
{
    let next = applied(pen, e.letter, false, true, e.numbers).drawing;
    lemma_new_step(pen, e);
    let n = pen.drawing.places.len() as int;
    let new = next.places.skip(n);
    assert(next.places =~= pen.drawing.places + new);
    let all = all_plotted(next);
    let before = all_plotted(pen.drawing);
    assert forall|k: int| 0 <= k < before.len() implies all[k] == before[k] by {
        assert(next.steps[k] == pen.drawing.steps[k]);
        lemma_plotted_kept(pen.drawing.places, new, pen.drawing.steps[k]);
    }
    assert(all =~= before.push(e));
}

/// Tracing elements plots them.
proof fn lemma_traced(els: Seq<PlottedModel>)
    requires
        forall|k: int| 0 <= k < els.len() ==> well_plotted(#[trigger] els[k]),
    ensures
        pen_grounded(traced(els)),
        all_plotted(traced(els).drawing) == els,
    decreases els.len(),
{
    if els.len() == 0 {
        assert(all_plotted(at_origin().drawing) =~= els);
    } else {
        let prev = els.drop_last();
        let e = els.last();
        assert forall|k: int| 0 <= k < prev.len() implies well_plotted(#[trigger] prev[k]) by {
            assert(prev[k] == els[k]);
        }
        lemma_traced(prev);
        assert(well_plotted(els[els.len() - 1]));
        lemma_applied_grounded(traced(prev), e.letter, false, true, e.numbers);
        lemma_applied_plots(traced(prev), e);
        assert(prev.push(e) =~= els);
    }
}

proof fn lemma_spaced_front(ts: Seq<Seq<char>>)
    requires
        ts.len() > 0,
    ensures
        spaced(ts) == seq![' '] + ts[0] + spaced(ts.skip(1)),
    decreases ts.len(),
{
    if ts.len() == 1 {
        assert(ts.drop_last() =~= Seq::<Seq<char>>::empty());
        assert(ts.skip(1) =~= Seq::<Seq<char>>::empty());
        assert(spaced(ts) =~= seq![' '] + ts[0] + spaced(ts.skip(1)));
    } else {
        let front = ts.drop_last();
        lemma_spaced_front(front);
        assert(ts.skip(1).drop_last() =~= front.skip(1));
        assert(spaced(ts) =~= seq![' '] + ts[0] + spaced(ts.skip(1)));
    }
}

/// A text that reads as one argument: a number, or one of the two flags.
pub open spec fn is_argument(t: Seq<char>, flag: bool) -> bool {
    if flag {
        t == seq!['0'] || t == seq!['1']
    } else {
        number::is_number(t)
    }
}

/// Arguments written with a space before each are read back one by one.
proof fn lemma_spaced_arguments(s: Seq<char>, i: int, ts: Seq<Seq<char>>, flags: Seq<bool>, k: int)
    requires
        0 <= k <= ts.len(),
        flags.len() == ts.len(),
        forall|j: int| 0 <= j < ts.len() ==> is_argument(#[trigger] ts[j], flags[j]),
        0 <= i,
        i + spaced(ts.skip(k)).len() <= s.len(),
        s.subrange(i, i + spaced(ts.skip(k)).len()) == spaced(ts.skip(k)),
        number::stops(s, i + spaced(ts.skip(k)).len()),
    ensures
        arguments(s, i, flags, k) == Ok::<(Seq<Seq<char>>, int), Fault>(
            (ts.skip(k), i + spaced(ts.skip(k)).len()),
        ),
    decreases ts.len() - k,
{
    if k == ts.len() {
        assert(ts.skip(k) =~= Seq::<Seq<char>>::empty());
    } else {
        let rest = ts.skip(k);
        let t = ts[k];
        assert(rest.skip(1) =~= ts.skip(k + 1));
        assert(rest[0] == t);
        lemma_spaced_front(rest);
        let after = spaced(ts.skip(k + 1));
        let whole = spaced(rest);
        assert(whole =~= seq![' '] + t + after);
        let n = t.len() as int;
        let got = s.subrange(i, i + whole.len());
        assert forall|j: int| 0 <= j < whole.len() implies s[i + j] == #[trigger] whole[j] by {
            assert(got[j] == s[i + j]);
        }
        assert(is_argument(t, flags[k]));
        if !flags[k] {
            number::lemma_number_first(t);
        }
        assert(s[i] == whole[0] && whole[0] == ' ');
        assert(s[i + 1] == whole[1] && whole[1] == t[0]);
        assert(s.subrange(i + 1, i + 1 + n) =~= t) by {
            assert forall|j: int| 0 <= j < n implies s[i + 1 + j] == t[j] by {
                assert(whole[1 + j] == t[j]);
            }
        }
        assert(number::stops(s, i + 1 + n)) by {
            if ts.skip(k + 1).len() > 0 {
                lemma_spaced_front(ts.skip(k + 1));
                assert(after[0] == ' ');
                assert(whole[1 + n] == after[0]);
                assert(s[i + 1 + n] == ' ');
            } else {
                assert(after =~= Seq::<char>::empty());
            }
        }
        assert(past_white(s, i + 1) == i + 1);
        assert(past_white(s, i) == i + 1);
        assert(past_separator(s, i) == i + 1);
        if !flags[k] {
            number::a_number_reads_the_same_in_context(s, i + 1, t);
        } else {
            assert(seq![s[i + 1]] =~= t);
        }
        assert(argument(s, i, flags[k]) == Ok::<(Seq<char>, int), Fault>((t, i + 1 + n)));
        assert(s.subrange(i + 1 + n, i + 1 + n + after.len()) =~= after) by {
            assert forall|j: int| 0 <= j < after.len() implies s[i + 1 + n + j] == after[j] by {
                assert(whole[1 + n + j] == after[j]);
            }
        }
        lemma_spaced_arguments(s, i + 1 + n, ts, flags, k + 1);
        assert(seq![t] + ts.skip(k + 1) =~= rest);
    }
}

/// One element written out is one command read.
proof fn lemma_command_written(s: Seq<char>, i: int, e: PlottedModel, pen: PenModel)
    requires
        well_plotted(e),
        0 <= i,
        i + 1 + spaced(e.numbers).len() <= s.len(),
        s[i] == e.letter,
        s.subrange(i + 1, i + 1 + spaced(e.numbers).len()) == spaced(e.numbers),
        i + 1 + spaced(e.numbers).len() < s.len() ==> is_upper(
            s[i + 1 + spaced(e.numbers).len()],
        ) && s[i + 1 + spaced(e.numbers).len()] != 'E',
    ensures
        commands(s, i, pen) == commands(
            s,
            i + 1 + spaced(e.numbers).len(),
            applied(pen, e.letter, false, true, e.numbers),
        ),
{
    let flags = takes(e.letter)->0;
    let j = i + 1 + spaced(e.numbers).len();
    assert(e.numbers.skip(0) =~= e.numbers);
    assert forall|k: int| 0 <= k < e.numbers.len() implies is_argument(
        #[trigger] e.numbers[k],
        flags[k],
    ) by {
        assert(number::is_number(e.numbers[k]));
    }
    lemma_spaced_arguments(s, i + 1, e.numbers, flags, 0);
    assert(past_white(s, i) == i);
    assert(past_white(s, j) == j);
    assert(past_separator(s, j) == j);
    assert(!more(s, j));
    assert(groups(s, i + 1, e.letter, false, true, pen) == (
        applied(pen, e.letter, false, true, e.numbers),
        Ok::<int, Fault>(j),
    ));
}

proof fn lemma_written_add(a: Seq<PlottedModel>, b: Seq<PlottedModel>)
    ensures
        written(a + b) == written(a) + written(b),
    decreases b.len(),
{
    if b.len() == 0 {
        assert(a + b =~= a);
        assert(written(a) + written(b) =~= written(a));
    } else {
        lemma_written_add(a, b.drop_last());
        assert((a + b).drop_last() =~= a + b.drop_last());
        assert(written(a + b) =~= written(a) + written(b));
    }
}

proof fn lemma_written_one(e: PlottedModel)
    ensures
        written(seq![e]) == seq![e.letter] + spaced(e.numbers),
{
    assert(seq![e].drop_last() =~= Seq::<PlottedModel>::empty());
    assert(written(seq![e].drop_last()) =~= Seq::<char>::empty());
    assert(written(seq![e]) =~= seq![e.letter] + spaced(e.numbers));
}

proof fn lemma_commands_written(els: Seq<PlottedModel>, k: int)
    requires
        forall|j: int| 0 <= j < els.len() ==> well_plotted(#[trigger] els[j]),
        0 <= k <= els.len(),
    ensures
        written(els.take(k)).len() <= written(els).len(),
        commands(written(els), written(els.take(k)).len() as int, traced(els.take(k))) == (
            traced(els),
            None::<Fault>,
        ),
    decreases els.len() - k,
{
    let s = written(els);
    let head = written(els.take(k));
    let i = head.len() as int;
    assert(els =~= els.take(k) + els.skip(k));
    lemma_written_add(els.take(k), els.skip(k));
    if k == els.len() {
        assert(els.take(k) =~= els);
        assert(past_white(s, i) == i);
    } else {
        let e = els[k];
        let rest = els.skip(k + 1);
        assert(els.skip(k) =~= seq![e] + rest);
        lemma_written_add(seq![e], rest);
        lemma_written_one(e);
        assert(els.take(k + 1) =~= els.take(k) + seq![e]);
        lemma_written_add(els.take(k), seq![e]);
        assert(els.take(k + 1).drop_last() =~= els.take(k));
        let piece = seq![e.letter] + spaced(e.numbers);
        let tail = written(rest);
        assert(s =~= head + piece + tail);
        let j = i + piece.len();
        assert(s[i] == e.letter);
        assert(s.subrange(i + 1, j) =~= spaced(e.numbers));
        if j < s.len() {
            assert(rest.len() > 0);
            assert(rest =~= seq![rest[0]] + rest.skip(1));
            lemma_written_add(seq![rest[0]], rest.skip(1));
            lemma_written_one(rest[0]);
            assert(tail[0] == rest[0].letter);
            assert(s[j] == tail[0]);
            assert(rest[0] == els[k + 1]);
            assert(well_plotted(els[k + 1]));
        }
        lemma_command_written(s, i, e, traced(els.take(k)));
        lemma_commands_written(els, k + 1);
    }
}

/// A path survives its text: elements that start with a moveto, written out and
/// parsed again, are the same elements with the same numbers, and the text has
/// no error.
pub proof fn parsing_undoes_writing(els: Seq<PlottedModel>)
    requires
        forall|k: int| 0 <= k < els.len() ==> well_plotted(#[trigger] els[k]),
        els.len() > 0 ==> els[0].letter == 'M',
    ensures
        all_plotted(drawn(written(els)).0) == els,
        drawn(written(els)).1 is None,
{
    let s = written(els);
    lemma_traced(els);
    if els.len() == 0 {
        assert(past_white(s, 0) == 0);
    } else {
        assert(els.take(0) =~= Seq::<PlottedModel>::empty());
        assert(written(els.take(0)) =~= Seq::<char>::empty());
        lemma_commands_written(els, 0);
        assert(els =~= seq![els[0]] + els.skip(1));
        lemma_written_add(seq![els[0]], els.skip(1));
        lemma_written_one(els[0]);
        assert(s[0] == 'M');
        assert(past_white(s, 0) == 0);
    }
}

/// Where a place is along one axis when a number text stands for `value` of it:
/// the sum that a place builds on the place before it, worked out.
pub open spec fn reach(
    places: Seq<PlaceModel>,
    value: spec_fn(Seq<char>) -> int,
    across: bool,
    k: int,
) -> int
    decreases k,
{
    let term = if across {
        places[k].x
    } else {
        places[k].y
    };
    match term {
        TermModel::Zero => 0,
        TermModel::Number(t) => value(t),
        TermModel::Plus(j, t) => if 0 <= j < k {
            reach(places, value, across, j) + value(t)
        } else {
            0
        },
        TermModel::Same(j) => if 0 <= j < k {
            reach(places, value, across, j)
        } else {
            0
        },
        TermModel::Mirror(c, j) => if 0 <= c < k && 0 <= j < k {
            2 * reach(places, value, across, c) - reach(places, value, across, j)
        } else {
            0
        },
    }
}

/// The x and y of a place of a drawing.
pub open spec fn spot(d: DrawingModel, value: spec_fn(Seq<char>) -> int, k: int) -> (int, int) {
    (reach(d.places, value, true, k), reach(d.places, value, false, k))
}

proof fn lemma_reach_kept(
    places: Seq<PlaceModel>,
    new: Seq<PlaceModel>,
    value: spec_fn(Seq<char>) -> int,
    across: bool,
    k: int,
)
    requires
        0 <= k < places.len(),
    ensures
        reach(places + new, value, across, k) == reach(places, value, across, k),
    decreases k,
{
    let all = places + new;
    assert(all[k] == places[k]);
    let term = if across {
        places[k].x
    } else {
        places[k].y
    };
    match term {
        TermModel::Zero => {},
        TermModel::Number(_) => {},
        TermModel::Plus(j, _) => if 0 <= j < k {
            lemma_reach_kept(places, new, value, across, j);
        },
        TermModel::Same(j) => if 0 <= j < k {
            lemma_reach_kept(places, new, value, across, j);
        },
        TermModel::Mirror(c, j) => if 0 <= c < k && 0 <= j < k {
            lemma_reach_kept(places, new, value, across, c);
            lemma_reach_kept(places, new, value, across, j);
        },
    }
}

/// A command only adds places: those of the drawing so far stay where they are.
proof fn lemma_spots_kept(
    pen: PenModel,
    letter: char,
    relative: bool,
    first: bool,
    a: Seq<Seq<char>>,
    value: spec_fn(Seq<char>) -> int,
)
    ensures
        ({
            let next = applied(pen, letter, relative, first, a);
            let n = pen.drawing.places.len();
            &&& next.drawing.places.len() >= n
            &&& forall|k: int|
                0 <= k < n ==> next.drawing.places[k] == #[trigger] pen.drawing.places[k]
            &&& forall|k: int|
                0 <= k < n ==> #[trigger] spot(next.drawing, value, k) == spot(
                    pen.drawing,
                    value,
                    k,
                )
        }),
{
    let next = applied(pen, letter, relative, first, a);
    let places = pen.drawing.places;
    let new = next.drawing.places.skip(places.len() as int);
    assert(next.drawing.places =~= places + new);
    assert forall|k: int| 0 <= k < places.len() implies #[trigger] spot(next.drawing, value, k)
        == spot(pen.drawing, value, k) by {
        lemma_reach_kept(places, new, value, true, k);
        lemma_reach_kept(places, new, value, false, k);
    }
}

/// The place where a step ends.
pub open spec fn step_end(s: StepModel) -> Option<int> {
    match s {
        StepModel::MoveTo(k) => Some(k),
        StepModel::LineTo(k) => Some(k),
        StepModel::QuadTo(_, k) => Some(k),
        StepModel::CurveTo(_, _, k) => Some(k),
        StepModel::Arc { to, .. } => Some(to),
        StepModel::ClosePath => None,
    }
}

/// The numbers of a command, each moved by where the pen is along its axis.
pub open spec fn sums_of(
    letter: char,
    a: Seq<Seq<char>>,
    b: Seq<Seq<char>>,
    value: spec_fn(Seq<char>) -> int,
    at: (int, int),
) -> bool {
    &&& b.len() == a.len()
    &&& forall|i: int|
        0 <= i < a.len() ==> value(#[trigger] b[i]) == value(a[i]) + if letter == 'H' {
            at.0
        } else if letter == 'V' {
            at.1
        } else if letter == 'A' {
            if i < 5 {
                0
            } else if i == 5 {
                at.0
            } else {
                at.1
            }
        } else if i % 2 == 0 {
            at.0
        } else {
            at.1
        }
    &&& letter == 'A' ==> forall|i: int| 0 <= i < 5 ==> #[trigger] b[i] == a[i]
}

/// An absolute command ends where its last two numbers say, and a relative one
/// that far from where the pen is; the horizontal and the vertical line move
/// along their axis alone. The pen is left at the end of the step drawn.
pub proof fn a_command_ends_where_its_numbers_say(
    pen: PenModel,
    letter: char,
    relative: bool,
    first: bool,
    a: Seq<Seq<char>>,
    value: spec_fn(Seq<char>) -> int,
)
    requires
        pen_grounded(pen),
        takes(letter) matches Some(flags) && flags.len() == a.len(),
        letter != 'Z',
    ensures
        ({
            let next = applied(pen, letter, relative, first, a);
            let (x, y) = spot(pen.drawing, value, pen.cur);
            let (u, v) = spot(next.drawing, value, next.cur);
            let m = a.len() as int;
            &&& letter == 'H' && relative ==> u == x + value(a[0]) && v == y
            &&& letter == 'H' && !relative ==> u == value(a[0]) && v == y
            &&& letter == 'V' && relative ==> u == x && v == y + value(a[0])
            &&& letter == 'V' && !relative ==> u == x && v == value(a[0])
            &&& letter != 'H' && letter != 'V' && relative ==> u == x + value(a[m - 2]) && v == y
                + value(a[m - 1])
            &&& letter != 'H' && letter != 'V' && !relative ==> u == value(a[m - 2]) && v == value(
                a[m - 1],
            )
            &&& step_end(next.drawing.steps.last()) == Some(next.cur)
        }),
{
    lemma_spots_kept(pen, letter, relative, first, a, value);
    let next = applied(pen, letter, relative, first, a);
    assert(spot(next.drawing, value, pen.cur) == spot(pen.drawing, value, pen.cur));
}

/// The control points of a curve are where its numbers say, counted from the
/// pen for a relative command; an arc goes from the pen and has the radii, the
/// rotation and the flags as written.
pub proof fn a_curve_is_controlled_by_its_numbers(
    pen: PenModel,
    letter: char,
    relative: bool,
    first: bool,
    a: Seq<Seq<char>>,
    value: spec_fn(Seq<char>) -> int,
)
    requires
        pen_grounded(pen),
        takes(letter) matches Some(flags) && flags.len() == a.len(),
        letter != 'Z',
    ensures
        ({
            let next = applied(pen, letter, relative, first, a);
            let step = next.drawing.steps.last();
            let (x, y) = if relative {
                spot(pen.drawing, value, pen.cur)
            } else {
                (0, 0)
            };
            let at = |k: int| spot(next.drawing, value, k);
            &&& letter == 'C' ==> (step matches StepModel::CurveTo(c, d, _) && at(c) == (
                x + value(a[0]),
                y + value(a[1]),
            ) && at(d) == (x + value(a[2]), y + value(a[3])))
            &&& letter == 'S' ==> (step matches StepModel::CurveTo(_, d, _) && at(d) == (
                x + value(a[0]),
                y + value(a[1]),
            ))
            &&& letter == 'Q' ==> (step matches StepModel::QuadTo(c, _) && at(c) == (
                x + value(a[0]),
                y + value(a[1]),
            ))
            &&& letter == 'T' ==> step is QuadTo
            &&& letter == 'M' && first ==> step is MoveTo
            &&& letter == 'M' && !first ==> step is LineTo
            &&& letter == 'L' || letter == 'H' || letter == 'V' ==> step is LineTo
            &&& letter == 'A' ==> (step matches StepModel::Arc {
                from,
                rx,
                ry,
                rotation,
                large,
                sweep,
                ..
            } && from == pen.cur && rx == a[0] && ry == a[1] && rotation == a[2] && large == (a[3]
                == seq!['1']) && sweep == (a[4] == seq!['1']))
        }),
{
    lemma_spots_kept(pen, letter, relative, first, a, value);
    let next = applied(pen, letter, relative, first, a);
    assert(spot(next.drawing, value, pen.cur) == spot(pen.drawing, value, pen.cur));
}

/// A relative command draws what its absolute twin draws with the sums written
/// out: the same step over the same places.
pub proof fn a_relative_command_is_its_absolute_twin(
    pen: PenModel,
    letter: char,
    first: bool,
    a: Seq<Seq<char>>,
    b: Seq<Seq<char>>,
    value: spec_fn(Seq<char>) -> int,
)
    requires
        pen_grounded(pen),
        takes(letter) matches Some(flags) && flags.len() == a.len(),
        sums_of(letter, a, b, value, spot(pen.drawing, value, pen.cur)),
    ensures
        ({
            let one = applied(pen, letter, true, first, a);
            let other = applied(pen, letter, false, first, b);
            &&& one.drawing.steps == other.drawing.steps
            &&& one.drawing.places.len() == other.drawing.places.len()
            &&& forall|k: int|
                0 <= k < one.drawing.places.len() ==> #[trigger] spot(one.drawing, value, k)
                    == spot(other.drawing, value, k)
            &&& one.cur == other.cur && one.start == other.start && one.cubic == other.cubic
                && one.quad == other.quad
        }),
{
    lemma_spots_kept(pen, letter, true, first, a, value);
    lemma_spots_kept(pen, letter, false, first, b, value);
    let one = applied(pen, letter, true, first, a);
    let other = applied(pen, letter, false, first, b);
    let n = pen.drawing.places.len() as int;
    let at = spot(pen.drawing, value, pen.cur);
    assert(spot(one.drawing, value, pen.cur) == at);
    assert(spot(other.drawing, value, pen.cur) == at);
    if letter == 'S' {
        if pen.cubic is Some {
            assert(spot(one.drawing, value, pen.cubic->0) == spot(other.drawing, value, pen.cubic->0));
        }
    }
    if letter == 'T' {
        if pen.quad is Some {
            assert(spot(one.drawing, value, pen.quad->0) == spot(other.drawing, value, pen.quad->0));
        }
    }
    if letter != 'Z' {
        assert(value(b[0]) == value(a[0]) + if letter == 'V' {
            at.1
        } else if letter == 'A' {
            0
        } else {
            at.0
        });
    }
    if letter == 'M' || letter == 'L' || letter == 'T' {
        assert(value(b[1]) == value(a[1]) + at.1);
    }
    if letter == 'S' || letter == 'Q' || letter == 'C' {
        assert(value(b[1]) == value(a[1]) + at.1);
        assert(value(b[2]) == value(a[2]) + at.0);
        assert(value(b[3]) == value(a[3]) + at.1);
    }
    if letter == 'C' {
        assert(value(b[4]) == value(a[4]) + at.0);
        assert(value(b[5]) == value(a[5]) + at.1);
    }
    if letter == 'A' {
        assert(value(b[5]) == value(a[5]) + at.0);
        assert(value(b[6]) == value(a[6]) + at.1);
        assert(b[0] == a[0] && b[1] == a[1] && b[2] == a[2] && b[3] == a[3] && b[4] == a[4]);
    }
    assert forall|k: int| 0 <= k < one.drawing.places.len() implies #[trigger] spot(
        one.drawing,
        value,
        k,
    ) == spot(other.drawing, value, k) by {
        if k < n {
            assert(spot(one.drawing, value, k) == spot(pen.drawing, value, k));
            assert(spot(other.drawing, value, k) == spot(pen.drawing, value, k));
        } else {
            assert(k == n || k == n + 1 || k == n + 2);
        }
    }
}

/// A smooth curve goes on as the curve before it came in: its first control
/// point is the last one of that curve, reflected about the pen. After any other
/// command, a curve of the other degree among them, it is the pen itself.
pub proof fn a_smooth_curve_reflects_the_curve_before_it(
    pen: PenModel,
    letter: char,
    relative: bool,
    first: bool,
    a: Seq<Seq<char>>,
    then_relative: bool,
    b: Seq<Seq<char>>,
    value: spec_fn(Seq<char>) -> int,
)
    requires
        pen_grounded(pen),
        takes(letter) matches Some(flags) && flags.len() == a.len(),
    ensures
        ({
            let mid = applied(pen, letter, relative, first, a);
            let came = mid.drawing.steps.last();
            let (x, y) = spot(mid.drawing, value, mid.cur);
            let cubic = applied(mid, 'S', then_relative, true, b);
            let quad = applied(mid, 'T', then_relative, true, b);
            &&& cubic.drawing.steps.last() matches StepModel::CurveTo(c, _, _) && spot(
                cubic.drawing,
                value,
                c,
            ) == match came {
                StepModel::CurveTo(_, d, _) => (
                    2 * x - spot(mid.drawing, value, d).0,
                    2 * y - spot(mid.drawing, value, d).1,
                ),
                _ => (x, y),
            }
            &&& quad.drawing.steps.last() matches StepModel::QuadTo(c, _) && spot(
                quad.drawing,
                value,
                c,
            ) == match came {
                StepModel::QuadTo(d, _) => (
                    2 * x - spot(mid.drawing, value, d).0,
                    2 * y - spot(mid.drawing, value, d).1,
                ),
                _ => (x, y),
            }
        }),
{
    let mid = applied(pen, letter, relative, first, a);
    lemma_applied_grounded(pen, letter, relative, first, a);
    lemma_spots_kept(mid, 'S', then_relative, true, b, value);
    lemma_spots_kept(mid, 'T', then_relative, true, b, value);
    let cubic = applied(mid, 'S', then_relative, true, b);
    let quad = applied(mid, 'T', then_relative, true, b);
    assert(spot(cubic.drawing, value, mid.cur) == spot(mid.drawing, value, mid.cur));
    assert(spot(quad.drawing, value, mid.cur) == spot(mid.drawing, value, mid.cur));
    match mid.drawing.steps.last() {
        StepModel::CurveTo(_, d, _) => {
            assert(spot(cubic.drawing, value, d) == spot(mid.drawing, value, d));
        },
        StepModel::QuadTo(d, _) => {
            assert(spot(quad.drawing, value, d) == spot(mid.drawing, value, d));
        },
        _ => {},
    }
}

/// Closing takes the pen back to where the subpath began: to the place of the
/// last moveto, which every command but a moveto keeps.
pub proof fn closing_returns_to_the_last_moveto(
    pen: PenModel,
    letter: char,
    relative: bool,
    first: bool,
    a: Seq<Seq<char>>,
)
    requires
        takes(letter) matches Some(flags) && flags.len() == a.len(),
    ensures
        ({
            let next = applied(pen, letter, relative, first, a);
            let moved = letter == 'M' && first;
            &&& moved ==> next.start == next.cur
            &&& !moved ==> next.start == pen.start
            &&& letter == 'Z' ==> next.cur == pen.start && next.drawing.steps
                == pen.drawing.steps.push(StepModel::ClosePath) && next.drawing.places
                == pen.drawing.places
            &&& letter != 'Z' ==> !(next.drawing.steps.last() is ClosePath)
            &&& next.drawing.steps.len() == pen.drawing.steps.len() + 1
            &&& forall|k: int|
                0 <= k < pen.drawing.steps.len() ==> next.drawing.steps[k]
                    == #[trigger] pen.drawing.steps[k]
        }),
{
}

/// Numbers that go on after a moveto are linetos, relative or absolute as it is;
/// for every other command each further group is the command again.
pub proof fn more_numbers_repeat_the_command(
    s: Seq<char>,
    i: int,
    letter: char,
    relative: bool,
    first: bool,
    pen: PenModel,
)
    requires
        0 <= i <= s.len(),
        takes(letter) is Some,
    ensures
        groups(s, i, 'M', relative, false, pen) == groups(s, i, 'L', relative, first, pen),
        letter != 'M' ==> groups(s, i, letter, relative, first, pen) == groups(
            s,
            i,
            letter,
            relative,
            !first,
            pen,
        ),
    decreases s.len() - i,
{
    lemma_arguments(s, i, takes('M')->0, 0);
    lemma_arguments(s, i, takes(letter)->0, 0);
    let pair: Seq<bool> = seq![false, false];
    assert(takes('M')->0 == pair && takes('L')->0 == pair);
    match arguments(s, i, pair, 0) {
        Err(_) => {},
        Ok((a, j)) => {
            lemma_past_separator(s, j);
            if more(s, j) {
                more_numbers_repeat_the_command(
                    s,
                    past_separator(s, j),
                    'L',
                    relative,
                    false,
                    applied(pen, 'L', relative, first, a),
                );
            }
        },
    }
}

/// How many numbers each command takes: two for a place, one along an axis, and
/// for an arc seven, of which the fourth and the fifth are flags. No other
/// letter is a command.
pub proof fn commands_take_their_numbers(letter: char)
    ensures
        takes(letter) is Some <==> letter == 'M' || letter == 'L' || letter == 'H' || letter == 'V'
            || letter == 'C' || letter == 'S' || letter == 'Q' || letter == 'T' || letter == 'A'
            || letter == 'Z',
        takes('M')->0.len() == 2 && takes('L')->0.len() == 2 && takes('T')->0.len() == 2,
        takes('H')->0.len() == 1 && takes('V')->0.len() == 1,
        takes('S')->0.len() == 4 && takes('Q')->0.len() == 4,
        takes('C')->0.len() == 6 && takes('A')->0.len() == 7 && takes('Z')->0.len() == 0,
        takes(letter) is Some ==> forall|k: int|
            0 <= k < takes(letter)->0.len() ==> (#[trigger] takes(letter)->0[k]) == (letter == 'A'
                && (k == 3 || k == 4)),
{
}

/// Space is skipped as far as it goes, and nothing else; between numbers one
/// comma may stand in it, not two.
pub proof fn separators_are_space_and_one_comma(s: Seq<char>, i: int, k: int)
    requires
        0 <= i <= s.len(),
    ensures
        i <= past_white(s, i) <= past_separator(s, i) <= s.len(),
        i <= k < past_white(s, i) ==> s[k] == ' ' || s[k] == '\t' || s[k] == '\n' || s[k] == '\r'
            || s[k] == '\u{c}',
        past_separator(s, i) < s.len() ==> !is_white(s[past_separator(s, i)]),
        past_separator(s, i) > past_white(s, i) ==> s[past_white(s, i)] == ',',
        past_separator(s, i) == past_white(s, i) ==> past_white(s, i) == s.len() || s[past_white(
            s,
            i,
        )] != ',',
        past_white(s, i) < k < past_separator(s, i) ==> is_white(s[k]),
{
    lemma_past_separator(s, i);
    lemma_past_white(s, i);
    lemma_all_white(s, i, k);
    let j = past_white(s, i);
    if j < s.len() && s[j] == ',' {
        lemma_past_white(s, j + 1);
        lemma_all_white(s, j + 1, k);
    }
}

proof fn lemma_all_white(s: Seq<char>, i: int, k: int)
    requires
        0 <= i <= s.len(),
    ensures
        i <= k < past_white(s, i) ==> is_white(s[k]),
    decreases s.len() - i,
{
    if i < s.len() && is_white(s[i]) {
        lemma_all_white(s, i + 1, k);
    }
}

/// The ten commands: the letter of each, small for the relative form.
pub open spec fn is_command(small: char, big: char) -> bool {
    ||| small == 'm' && big == 'M'
    ||| small == 'l' && big == 'L'
    ||| small == 'h' && big == 'H'
    ||| small == 'v' && big == 'V'
    ||| small == 'c' && big == 'C'
    ||| small == 's' && big == 'S'
    ||| small == 'q' && big == 'Q'
    ||| small == 't' && big == 'T'
    ||| small == 'a' && big == 'A'
    ||| small == 'z' && big == 'Z'
}

/// A command written out is read as that command with those numbers: with the
/// small letter the relative one, with the big letter the absolute one.
pub proof fn a_command_reads_as_written(
    small: char,
    big: char,
    a: Seq<Seq<char>>,
    pen: PenModel,
)
    requires
        is_command(small, big),
        takes(big)->0.len() == a.len(),
        forall|k: int|
            0 <= k < a.len() ==> is_argument(#[trigger] a[k], big == 'A' && (k == 3 || k == 4)),
    ensures
        commands(seq![small] + spaced(a), 0, pen) == (
            applied(pen, big, true, true, a),
            None::<Fault>,
        ),
        commands(seq![big] + spaced(a), 0, pen) == (
            applied(pen, big, false, true, a),
            None::<Fault>,
        ),
{
    lemma_one_command(small, big, a, pen);
    lemma_one_command(big, big, a, pen);
}

proof fn lemma_one_command(c: char, big: char, a: Seq<Seq<char>>, pen: PenModel)
    requires
        is_command(c, big) || (c == big && takes(big) is Some),
        takes(big) is Some,
        takes(big)->0.len() == a.len(),
        forall|k: int|
            0 <= k < a.len() ==> is_argument(#[trigger] a[k], big == 'A' && (k == 3 || k == 4)),
    ensures
        commands(seq![c] + spaced(a), 0, pen) == (
            applied(pen, big, c != big, true, a),
            None::<Fault>,
        ),
{
    let s = seq![c] + spaced(a);
    let flags = takes(big)->0;
    let n = s.len() as int;
    assert(a.skip(0) =~= a);
    assert(s.subrange(1, n) =~= spaced(a));
    assert forall|k: int| 0 <= k < a.len() implies is_argument(#[trigger] a[k], flags[k]) by {
        commands_take_their_numbers(big);
    }
    lemma_spaced_arguments(s, 1, a, flags, 0);
    assert(past_white(s, 0) == 0);
    assert(past_white(s, n) == n);
    assert(past_separator(s, n) == n);
    assert(!more(s, n));
    assert(upper(c) == big);
    assert(is_lower(c) == (c != big));
    assert(groups(s, 1, big, c != big, true, pen) == (
        applied(pen, big, c != big, true, a),
        Ok::<int, Fault>(n),
    ));
    assert(commands(s, n, applied(pen, big, c != big, true, a)) == (
        applied(pen, big, c != big, true, a),
        None::<Fault>,
    ));
}

/// Whether `b` is `a` and perhaps more.
pub open spec fn goes_on(a: DrawingModel, b: DrawingModel) -> bool {
    &&& a.places.len() <= b.places.len()
    &&& b.places.take(a.places.len() as int) == a.places
    &&& a.steps.len() <= b.steps.len()
    &&& b.steps.take(a.steps.len() as int) == a.steps
}

proof fn lemma_goes_on(a: DrawingModel, b: DrawingModel, c: DrawingModel)
    requires
        goes_on(a, b),
        goes_on(b, c),
    ensures
        goes_on(a, c),
{
    assert(c.places.take(a.places.len() as int) =~= b.places.take(a.places.len() as int));
    assert(c.steps.take(a.steps.len() as int) =~= b.steps.take(a.steps.len() as int));
}

proof fn lemma_applied_goes_on(
    pen: PenModel,
    letter: char,
    relative: bool,
    first: bool,
    a: Seq<Seq<char>>,
)
    ensures
        goes_on(pen.drawing, applied(pen, letter, relative, first, a).drawing),
{
    let next = applied(pen, letter, relative, first, a).drawing;
    assert(next.places.take(pen.drawing.places.len() as int) =~= pen.drawing.places);
    assert(next.steps.take(pen.drawing.steps.len() as int) =~= pen.drawing.steps);
}

proof fn lemma_groups_go_on(
    s: Seq<char>,
    i: int,
    letter: char,
    relative: bool,
    first: bool,
    pen: PenModel,
)
    requires
        0 <= i <= s.len(),
        takes(letter) is Some,
    ensures
        goes_on(pen.drawing, groups(s, i, letter, relative, first, pen).0.drawing),
    decreases s.len() - i,
{
    let flags = takes(letter)->0;
    lemma_arguments(s, i, flags, 0);
    assert(pen.drawing.places.take(pen.drawing.places.len() as int) =~= pen.drawing.places);
    assert(pen.drawing.steps.take(pen.drawing.steps.len() as int) =~= pen.drawing.steps);
    match arguments(s, i, flags, 0) {
        Err(_) => {},
        Ok((a, j)) => {
            let next = applied(pen, letter, relative, first, a);
            lemma_applied_goes_on(pen, letter, relative, first, a);
            lemma_past_separator(s, j);
            if letter != 'Z' && more(s, j) {
                let k = past_separator(s, j);
                lemma_groups_go_on(s, k, letter, relative, false, next);
                lemma_goes_on(
                    pen.drawing,
                    next.drawing,
                    groups(s, k, letter, relative, false, next).0.drawing,
                );
            }
        },
    }
}

/// What is drawn before a fault stays drawn: a fault ends a path and takes nothing
/// back.
pub proof fn a_fault_takes_nothing_back(s: Seq<char>, i: int, pen: PenModel)
    requires
        0 <= i <= s.len(),
    ensures
        goes_on(pen.drawing, commands(s, i, pen).0.drawing),
    decreases s.len() - i,
{
    let j = past_white(s, i);
    lemma_past_white(s, i);
    assert(pen.drawing.places.take(pen.drawing.places.len() as int) =~= pen.drawing.places);
    assert(pen.drawing.steps.take(pen.drawing.steps.len() as int) =~= pen.drawing.steps);
    if j < s.len() && (is_lower(s[j]) || is_upper(s[j])) && takes(upper(s[j])) is Some {
        let letter = upper(s[j]);
        lemma_groups(s, j + 1, letter, is_lower(s[j]), true, pen);
        lemma_groups_go_on(s, j + 1, letter, is_lower(s[j]), true, pen);
        match groups(s, j + 1, letter, is_lower(s[j]), true, pen) {
            (_, Err(_)) => {},
            (next, Ok(e)) => {
                a_fault_takes_nothing_back(s, e, next);
                lemma_goes_on(pen.drawing, next.drawing, commands(s, e, next).0.drawing);
            },
        }
    }
}

/// A path begins with a moveto, of either form; one that does not draws nothing, and a
/// text of nothing but space is a path of nothing.
pub proof fn a_path_begins_with_a_moveto(s: Seq<char>)
    ensures
        ({
            let i = past_white(s, 0);
            &&& i >= s.len() ==> drawn(s).0.steps.len() == 0 && drawn(s).1 is None
            &&& i < s.len() && s[i] != 'M' && s[i] != 'm' ==> drawn(s).0.steps.len() == 0 && (
            drawn(s).1 matches Some((at, _)) && at == i)
            &&& i < s.len() && (s[i] == 'M' || s[i] == 'm') ==> drawn(s).0 == commands(
                s,
                i,
                at_origin(),
            ).0.drawing
        }),
        at_origin().drawing.steps.len() == 0,
{
}

/// A letter that is no command stops the path where it stands, and so does anything
/// that is no letter.
pub proof fn what_is_no_command_stops_the_path(s: Seq<char>, i: int, pen: PenModel)
    requires
        0 <= i < s.len(),
        !is_white(s[i]),
    ensures
        takes(upper(s[i])) is None ==> commands(s, i, pen).0 == pen && (commands(s, i, pen).1
            matches Some((at, _)) && at == i),
        upper(s[i]) == s[i] || (s[i] as int == upper(s[i]) as int + 32),
{
    assert(past_white(s, i) == i);
}

/// A flag is one digit, zero or one, whatever follows it.
pub proof fn a_flag_is_one_digit(s: Seq<char>, i: int)
    requires
        0 <= i < s.len(),
        s[i] != ',' && !is_white(s[i]),
    ensures
        s[i] == '0' || s[i] == '1' ==> argument(s, i, true) == Ok::<(Seq<char>, int), Fault>(
            (seq![s[i]], i + 1),
        ),
        s[i] != '0' && s[i] != '1' ==> (argument(s, i, true) matches Err((at, _)) && at == i),
{
    assert(past_white(s, i) == i);
}

/// More numbers go on a command where a digit, a point or a sign follows.
pub proof fn a_number_goes_on_a_command(s: Seq<char>, i: int)
    requires
        0 <= i < s.len(),
        s[i] != ',' && !is_white(s[i]),
    ensures
        more(s, i) <==> '0' <= s[i] <= '9' || s[i] == '.' || s[i] == '+' || s[i] == '-',
{
    assert(past_white(s, i) == i);
}

/// A fault says what is wrong.
pub proof fn a_fault_says_what_is_wrong(s: Seq<char>, i: int, pen: PenModel)
    requires
        0 <= i < s.len(),
        !is_white(s[i]) && s[i] != ',',
    ensures
        argument(s, i, true) matches Err((_, m)) ==> m == "arc flag must be 0 or 1"@,
        number::number_end(s, i) is None ==> argument(s, i, false) == Err::<
            (Seq<char>, int),
            Fault,
        >((i, "expected a number"@)),
        number::number_end(s, i) is Some && number::too_large(s, i) ==> argument(s, i, false)
            == Err::<(Seq<char>, int), Fault>((i, "number out of range"@)),
        !is_lower(s[i]) && !is_upper(s[i]) ==> commands(s, i, pen).1 == Some(
            (i, "expected a command letter"@),
        ),
        (is_lower(s[i]) || is_upper(s[i])) && takes(upper(s[i])) is None ==> commands(
            s,
            i,
            pen,
        ).1 == Some((i, "unknown command"@)),
        i == 0 && s[0] != 'M' && s[0] != 'm' ==> drawn(s).1 == Some(
            (0int, "path data must begin with a moveto"@),
        ),
        number::number_end(s, i) matches Some(e) ==> (!number::too_large(s, i) ==> argument(
            s,
            i,
            false,
        ) == Ok::<(Seq<char>, int), Fault>((s.subrange(i, e), e))),
{
    assert(past_white(s, i) == i);
    assert(past_separator(s, i) == i);
}

} // verus!
