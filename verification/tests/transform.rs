//! The transform list grammar.

use hane::svg::transform::{Function, Kind, parse_transform, write_list, write_matrix};

/// A small deterministic generator for the randomised cases.
struct Rng(u64);

impl Rng {
    fn next(&mut self) -> u64 {
        self.0 ^= self.0 << 13;
        self.0 ^= self.0 >> 7;
        self.0 ^= self.0 << 17;
        self.0
    }

    fn below(&mut self, bound: u64) -> u64 {
        (self.next() >> 11) % bound
    }

    fn number(&mut self) -> f64 {
        let m = (self.next() >> 11) as f64 / (1u64 << 53) as f64 - 0.5;
        m * 2f64.powi(self.below(80) as i32 - 40)
    }
}

const EPS: f64 = 1e-9;

type Affine = [f64; 6];

const IDENTITY: Affine = [1.0, 0.0, 0.0, 1.0, 0.0, 0.0];

fn times(p: Affine, q: Affine) -> Affine {
    [
        p[0] * q[0] + p[2] * q[1],
        p[1] * q[0] + p[3] * q[1],
        p[0] * q[2] + p[2] * q[3],
        p[1] * q[2] + p[3] * q[3],
        p[0] * q[4] + p[2] * q[5] + p[4],
        p[1] * q[4] + p[3] * q[5] + p[5],
    ]
}

fn apply(p: Affine, x: f64, y: f64) -> (f64, f64) {
    (p[0] * x + p[2] * y + p[4], p[1] * x + p[3] * y + p[5])
}

/// The matrix of one function.
fn matrix(f: &Function) -> Affine {
    let a: Vec<f64> = f.args.iter().map(|t| t.parse().unwrap()).collect();
    let turn = |d: f64| {
        let (s, c) = d.to_radians().sin_cos();
        [c, s, -s, c, 0.0, 0.0]
    };
    match f.kind {
        Kind::Matrix => [a[0], a[1], a[2], a[3], a[4], a[5]],
        Kind::Translate => [1.0, 0.0, 0.0, 1.0, a[0], a.get(1).copied().unwrap_or(0.0)],
        Kind::Scale => [a[0], 0.0, 0.0, a.get(1).copied().unwrap_or(a[0]), 0.0, 0.0],
        Kind::Rotate if a.len() == 3 => times(
            times([1.0, 0.0, 0.0, 1.0, a[1], a[2]], turn(a[0])),
            [1.0, 0.0, 0.0, 1.0, -a[1], -a[2]],
        ),
        Kind::Rotate => turn(a[0]),
        Kind::SkewX => [1.0, 0.0, a[0].to_radians().tan(), 1.0, 0.0, 0.0],
        Kind::SkewY => [1.0, a[0].to_radians().tan(), 0.0, 1.0, 0.0, 0.0],
    }
}

/// A list composed from left to right.
fn compose(text: &str) -> Affine {
    parse_transform(text)
        .expect("should parse")
        .iter()
        .fold(IDENTITY, |acc, f| times(acc, matrix(f)))
}

fn map(transform: &str, x: f64, y: f64) -> (f64, f64) {
    apply(compose(transform), x, y)
}

fn close(a: (f64, f64), b: (f64, f64)) -> bool {
    (a.0 - b.0).hypot(a.1 - b.1) < EPS
}

#[test]
fn empty_is_the_identity() {
    assert_eq!(parse_transform(""), Ok(vec![]));
    assert_eq!(parse_transform("   \n "), Ok(vec![]));
    assert_eq!(compose(""), IDENTITY);
}

#[test]
fn matrix_arguments_are_the_coefficients_unchanged() {
    assert_eq!(compose("matrix(1 2 3 4 5 6)"), [1.0, 2.0, 3.0, 4.0, 5.0, 6.0]);
}

#[test]
fn every_function_parses() {
    assert!(close(map("translate(10 20)", 1.0, 2.0), (11.0, 22.0)));
    // One argument translates in x only.
    assert!(close(map("translate(10)", 1.0, 2.0), (11.0, 2.0)));
    assert!(close(map("scale(2 3)", 1.0, 2.0), (2.0, 6.0)));
    // One argument scales both axes.
    assert!(close(map("scale(2)", 1.0, 2.0), (2.0, 4.0)));
    assert!(close(map("rotate(90)", 1.0, 0.0), (0.0, 1.0)));
    assert!(close(map("skewX(45)", 0.0, 1.0), (1.0, 1.0)));
    assert!(close(map("skewY(45)", 1.0, 0.0), (1.0, 1.0)));
    assert!(close(map("matrix(0 1 -1 0 0 0)", 1.0, 0.0), (0.0, 1.0)));
}

#[test]
fn rotate_about_a_point_fixes_that_point() {
    assert!(close(map("rotate(37 5 -7)", 5.0, -7.0), (5.0, -7.0)));
    // A quarter turn about (1,1) takes the origin to (2,0).
    assert!(close(map("rotate(90 1 1)", 0.0, 0.0), (2.0, 0.0)));
}

#[test]
fn composition_applies_the_last_function_first() {
    // Scale runs first: (1 * 2) + 10 = 12. Composing the other way round gives
    // (1 + 10) * 2 = 22.
    assert!(close(map("translate(10) scale(2)", 1.0, 0.0), (12.0, 0.0)));
    assert!(close(map("scale(2) translate(10)", 1.0, 0.0), (22.0, 0.0)));
    let kinds: Vec<Kind> = parse_transform("translate(10 20) rotate(30) scale(2 3)")
        .expect("parses")
        .iter()
        .map(|f| f.kind)
        .collect();
    assert_eq!(kinds, [Kind::Translate, Kind::Rotate, Kind::Scale]);
}

#[test]
fn separators_are_flexible() {
    let expected = compose("translate(1 -2)");
    for input in [
        "translate(1,-2)",
        "translate( 1 , -2 )",
        "translate(1-2)",
        "translate(1e0,-2e0)",
        "\ttranslate(1\n-2)\n",
    ] {
        assert_eq!(compose(input), expected, "{input}");
    }
    // A list needs no separator between its functions either.
    assert_eq!(
        parse_transform("translate(1)scale(2)"),
        parse_transform("translate(1) , scale(2)")
    );
}

#[test]
fn malformed_input_is_rejected_with_a_position() {
    for (input, column) in [
        ("wobble(1)", 1),
        ("translate", 10),
        ("translate(", 11),
        ("translate(1", 12),
        ("translate(1 2 3)", 15),
        ("matrix(1 2 3 4 5)", 17),
        ("rotate(90 1)", 12),
        // `1` parses and the stray `e` is what the close paren trips on.
        ("scale(1e)", 8),
        ("scale(.)", 7),
        ("scale(1e999)", 7),
        ("scale(nan)", 7),
        // A bare word is a function missing its arguments, so the paren is
        // what gets blamed, at the end of the name.
        ("scale(1) junk", 14),
        ("scale(1) 2", 10),
    ] {
        let err = parse_transform(input).expect_err(input);
        assert_eq!((err.line, err.column), (1, column), "{input}: {}", err.to_string());
    }
}

#[test]
fn every_error_has_its_words() {
    for (input, message) in [
        ("wobble(1)", "unknown transform function `wobble`"),
        ("(1)", "expected a transform function"),
        ("scale 1", "expected `(`"),
        ("scale(1", "expected `)`"),
        ("scale()", "expected a number"),
        ("scale(1e999)", "number `1e999` is out of range"),
    ] {
        assert_eq!(parse_transform(input).expect_err(input).message, message, "{input}");
    }
}

#[test]
fn non_ascii_before_the_error_counts_as_one_column() {
    let err = parse_transform("  ünï  scale(1)").expect_err("not a function");
    assert_eq!(err.column, 3);
}

#[test]
fn matrix_round_trips_every_coefficient_exactly() {
    let mut rng = Rng(0x1234_5678_9abc_def1);
    for _ in 0..2000 {
        let m: Vec<f64> = (0..6).map(|_| rng.number()).collect();
        let texts: Vec<String> = m.iter().map(|v| format!("{v:?}")).collect();
        let text = write_matrix(&texts);
        assert_eq!(text, format!("matrix({})", texts.join(" ")));
        assert_eq!(compose(&text).to_vec(), m);
    }
}

#[test]
fn arbitrary_junk_never_panics() {
    const PIECES: &[&str] = &[
        "translate", "scale", "rotate", "matrix", "skewX", "skewY", "(", ")", ",", " ", "1", "-2.5",
        "1e", "e9", ".", "+", "\n", "x",
    ];
    let mut rng = Rng(77);
    for _ in 0..4000 {
        let len = rng.below(12);
        let text: String = (0..len)
            .map(|_| PIECES[rng.below(PIECES.len() as u64) as usize])
            .collect();
        let _ = parse_transform(&text);
    }
}

#[test]
fn a_list_has_single_spaces() {
    let texts = |t: &[&str]| -> Vec<String> { t.iter().map(|s| s.to_string()).collect() };
    assert_eq!(write_list(&texts(&[])), "");
    assert_eq!(write_list(&texts(&["1"])), "1");
    assert_eq!(write_list(&texts(&["0", "0", "200", "100"])), "0 0 200 100");
}
