//! The path data grammar, its numbers and its writer.

use hane::svg::path_data;
use hane::svg::number::{is_finite_number, is_positive};
use hane::svg::path_data::{Drawing, Error, Pair, Place, Plotted, Step, Term, parse};

/// A small deterministic generator for the randomised cases.
struct Rng(u64);

impl Rng {
    fn next(&mut self) -> u64 {
        self.0 ^= self.0 << 13;
        self.0 ^= self.0 >> 7;
        self.0 ^= self.0 << 17;
        self.0
    }

    fn below(&mut self, bound: u64) -> u64 {
        (self.next() >> 11) % bound
    }

    /// A coordinate at magnitudes from `2^-40` up.
    fn coordinate(&mut self) -> f64 {
        let m = (self.next() >> 11) as f64 / (1u64 << 53) as f64 - 0.5;
        m * 2f64.powi(self.below(60) as i32 - 40)
    }

    fn point(&mut self) -> (f64, f64) {
        (self.coordinate(), self.coordinate())
    }
}

type P = (f64, f64);

#[derive(Clone, Debug, PartialEq)]
enum El {
    MoveTo(P),
    LineTo(P),
    QuadTo(P, P),
    CurveTo(P, P, P),
    Arc { from: P, radii: P, rotation: f64, large: bool, sweep: bool, to: P },
    ClosePath,
}

/// Adds a drawing's places up, in order, and follows its steps through them.
fn plot(d: &Drawing) -> Vec<El> {
    let mut at: Vec<P> = Vec::new();
    let n = |t: &String| t.parse::<f64>().unwrap();
    for Place { x, y } in &d.places {
        let value = |t: &Term, of: fn(P) -> f64| match t {
            Term::Zero => 0.0,
            Term::Number(t) => n(t),
            Term::Plus(k, t) => of(at[*k]) + n(t),
            Term::Same(k) => of(at[*k]),
            Term::Mirror(k, j) => of(at[*k]) + (of(at[*k]) - of(at[*j])),
        };
        let p = (value(x, |p| p.0), value(y, |p| p.1));
        at.push(p);
    }
    d.steps
        .iter()
        .map(|s| match s {
            Step::MoveTo(a) => El::MoveTo(at[*a]),
            Step::LineTo(a) => El::LineTo(at[*a]),
            Step::QuadTo(a, b) => El::QuadTo(at[*a], at[*b]),
            Step::CurveTo(a, b, c) => El::CurveTo(at[*a], at[*b], at[*c]),
            Step::Arc { from, rx, ry, rotation, large, sweep, to } => El::Arc {
                from: at[*from],
                radii: (n(rx), n(ry)),
                rotation: n(rotation),
                large: *large,
                sweep: *sweep,
                to: at[*to],
            },
            Step::ClosePath => El::ClosePath,
        })
        .collect()
}

fn read(d: &str) -> (Vec<El>, Option<Error>) {
    let (drawing, error) = parse(d);
    (plot(&drawing), error)
}

fn ok(d: &str) -> Vec<El> {
    let (els, err) = read(d);
    assert_eq!(err, None, "unexpected error parsing {d:?}");
    els
}

fn p(x: f64, y: f64) -> P {
    (x, y)
}

/// Elements with their numbers as text, an arc as the line to its end.
fn texts(els: &[El]) -> Vec<Plotted> {
    let pair = |p: P| Pair { x: p.0.to_string(), y: p.1.to_string() };
    els.iter()
        .map(|e| match *e {
            El::MoveTo(a) => Plotted::MoveTo(pair(a)),
            El::LineTo(a) => Plotted::LineTo(pair(a)),
            El::QuadTo(a, b) => Plotted::QuadTo(pair(a), pair(b)),
            El::CurveTo(a, b, c) => Plotted::CurveTo(pair(a), pair(b), pair(c)),
            El::Arc { to, .. } => Plotted::LineTo(pair(to)),
            El::ClosePath => Plotted::ClosePath,
        })
        .collect()
}

#[test]
fn every_command_absolute() {
    let els = ok("M1 1 L2 2 H3 V4 C5 5 6 6 7 7 S8 8 9 9 Q10 10 11 11 T12 12 Z");
    assert_eq!(
        els,
        vec![
            El::MoveTo(p(1.0, 1.0)),
            El::LineTo(p(2.0, 2.0)),
            El::LineTo(p(3.0, 2.0)),
            El::LineTo(p(3.0, 4.0)),
            El::CurveTo(p(5.0, 5.0), p(6.0, 6.0), p(7.0, 7.0)),
            El::CurveTo(p(8.0, 8.0), p(8.0, 8.0), p(9.0, 9.0)),
            El::QuadTo(p(10.0, 10.0), p(11.0, 11.0)),
            El::QuadTo(p(12.0, 12.0), p(12.0, 12.0)),
            El::ClosePath,
        ]
    );
}

#[test]
fn relative_commands_match_their_absolute_twins() {
    let absolute = ok("M1 1 L3 4 H5 V6 C7 7 8 8 9 9 S10 10 11 11 Q12 12 13 13 T14 14 Z");
    let relative = ok("m1 1 l2 3 h2 v2 c2 1 3 2 4 3 s1 1 2 2 q1 1 2 2 t1 1 z");
    assert_eq!(absolute, relative);
}

#[test]
fn relative_after_close_starts_from_the_subpath_start() {
    // `z` moves the current point back to (1,1), so `m` lands at (3,3).
    let els = ok("M1 1 L10 10 z m2 2");
    assert_eq!(els[3], El::MoveTo(p(3.0, 3.0)));
}

#[test]
fn implicit_repetition() {
    // Repeated moveto pairs are linetos; every other command just repeats.
    assert_eq!(
        ok("M1 1 2 2 3 3"),
        vec![
            El::MoveTo(p(1.0, 1.0)),
            El::LineTo(p(2.0, 2.0)),
            El::LineTo(p(3.0, 3.0)),
        ]
    );
    assert_eq!(ok("M0 0 L1 1 2 2 3 3").len(), 4);
    assert_eq!(ok("M0 0 C1 1 2 2 3 3 4 4 5 5 6 6").len(), 3);
}

#[test]
fn smooth_curves_reflect_the_previous_control_point() {
    // C ends at (3,3) with second control (2,2); the reflection is (4,4).
    let els = ok("M0 0 C1 1 2 2 3 3 S5 5 6 6");
    assert_eq!(els[2], El::CurveTo(p(4.0, 4.0), p(5.0, 5.0), p(6.0, 6.0)));
    // Repeated S reflects the previous S's own control point.
    let els = ok("M0 0 C1 1 2 2 3 3 S5 5 6 6 S9 9 10 10");
    assert_eq!(els[3], El::CurveTo(p(7.0, 7.0), p(9.0, 9.0), p(10.0, 10.0)));
    // T after Q likewise.
    let els = ok("M0 0 Q1 1 2 2 T4 4");
    assert_eq!(els[2], El::QuadTo(p(3.0, 3.0), p(4.0, 4.0)));
}

#[test]
fn smooth_after_a_foreign_command_uses_the_current_point() {
    // The line between them clears the reflection, so the first control
    // coincides with the current point (5,5).
    let els = ok("M0 0 C1 1 2 2 3 3 L5 5 S8 8 9 9");
    assert_eq!(els[3], El::CurveTo(p(5.0, 5.0), p(8.0, 8.0), p(9.0, 9.0)));
    // S must not reflect a *quadratic* control point, nor T a cubic one.
    let els = ok("M0 0 Q1 1 2 2 S8 8 9 9");
    assert_eq!(els[2], El::CurveTo(p(2.0, 2.0), p(8.0, 8.0), p(9.0, 9.0)));
    let els = ok("M0 0 C1 1 2 2 3 3 T9 9");
    assert_eq!(els[2], El::QuadTo(p(3.0, 3.0), p(9.0, 9.0)));
}

#[test]
fn arcs_go_through_the_geometry_routine() {
    let els = ok("M0 0 A1 1 30 1 0 2 0");
    assert_eq!(els[0], El::MoveTo(p(0.0, 0.0)));
    assert_eq!(
        els[1..],
        [El::Arc {
            from: p(0.0, 0.0),
            radii: p(1.0, 1.0),
            rotation: 30.0,
            large: true,
            sweep: false,
            to: p(2.0, 0.0),
        }]
    );
}

#[test]
fn arc_flags_may_be_single_digits_without_separators() {
    // `0 1` written as `01`, a compact form.
    assert_eq!(ok("M0 0 A1 1 0 011 10"), ok("M0 0 A1 1 0 0 1 1 10"));
}

#[test]
fn compact_notation() {
    // A command letter needs no separator before it.
    assert_eq!(
        ok("M0 0L1 1"),
        vec![El::MoveTo(p(0.0, 0.0)), El::LineTo(p(1.0, 1.0))]
    );
    // `.5.5` is two numbers: the second `.` cannot extend the first.
    assert_eq!(ok("M.5.5")[0], El::MoveTo(p(0.5, 0.5)));
    // A sign separates as well as signs.
    assert_eq!(ok("M1-2")[0], El::MoveTo(p(1.0, -2.0)));
    assert_eq!(ok("M0 0l1-2-3-4").len(), 3);
    // Exponents, including one immediately followed by a signed number.
    assert_eq!(ok("M1e3 1E-2")[0], El::MoveTo(p(1000.0, 0.01)));
    assert_eq!(ok("M1e3-1e-2")[0], El::MoveTo(p(1000.0, -0.01)));
    assert_eq!(ok("M+1.5,+2.5")[0], El::MoveTo(p(1.5, 2.5)));
    // Commas, tabs and newlines are all just separators.
    assert_eq!(ok("\tM 0,0\n\tL\r1 ,\t1 \n"), ok("M0 0L1 1"));
}

#[test]
fn malformed_data_keeps_what_parsed() {
    // The `L` is missing its y: the moveto and the first line survive, the
    // half-read lineto does not.
    let (els, err) = read("M0 0 L1 1 L2");
    assert_eq!(
        els,
        vec![El::MoveTo(p(0.0, 0.0)), El::LineTo(p(1.0, 1.0))]
    );
    assert_eq!(err.map(|e| e.offset), Some(12));

    // An unknown command letter stops the parse where it stands.
    let (els, err) = read("M0 0 L1 1 X2 2");
    assert_eq!(els.len(), 2);
    assert!(err.is_some());

    // A bad arc flag drops the arc but keeps everything before it.
    let (els, err) = read("M0 0 L1 1 A1 1 0 2 1 3 3");
    assert_eq!(els.len(), 2);
    assert!(err.unwrap().message.contains("flag"));

    // Not starting with a moveto renders nothing at all.
    let (els, err) = read("L1 1");
    assert!(els.is_empty());
    assert_eq!(err.map(|e| e.offset), Some(0));

    // Infinities never reach the geometry.
    let (els, err) = read("M0 0 L1e400 0");
    assert_eq!(els.len(), 1);
    assert!(err.unwrap().message.contains("range"));

    // Empty and whitespace-only data are legal and draw nothing.
    assert_eq!(read(""), (Vec::new(), None));
    assert_eq!(read("   \n "), (Vec::new(), None));
}

#[test]
fn malformed_data_never_panics() {
    // Characters that are not ASCII, truncations mid-number, lone separators.
    for d in [
        "M",
        "M0",
        "M0,",
        "M.",
        "M-",
        "M0 0e",
        "M0 0 A",
        "M0 0 A1",
        "Z",
        "M0 0 Zz",
        "M0 0 L\u{e9}",
        "M0 0 L1 1 \u{1f600}",
        "M0 0,,1 1",
        "m0 0 h",
        "M0 0 A1 1 0",
    ] {
        let _ = parse(d);
    }
}

#[test]
fn every_error_says_what_and_where() {
    for (d, message, offset) in [
        ("  L1 1", "path data must begin with a moveto", 2),
        ("M0 0 5", "expected a number", 6),
        ("M0 0 ;", "expected a command letter", 5),
        ("M0 0 B1", "unknown command", 5),
        ("M0 x", "expected a number", 3),
        ("M0 0A1 1 0 2", "arc flag must be 0 or 1", 11),
        ("M0 1e999", "number out of range", 3),
    ] {
        let error = parse(d).1.expect(d);
        assert_eq!((error.message.as_str(), error.offset), (message, offset), "{d}");
    }
    assert_eq!(parse("L").1.unwrap().to_string(), "offset 0: path data must begin with a moveto");
}

#[test]
fn round_trips_through_write() {
    let d = "M1 1 C2 2 3 3 4 4 Q5 5 6 6 A2 3 40 1 0 7 8 Z";
    let els = texts(&ok(d));
    assert_eq!(texts(&ok(&path_data::write(&els))), els);
    assert_eq!(path_data::write(&els), "M 1 1C 2 2 3 3 4 4Q 5 5 6 6L 7 8Z");
}

#[test]
fn round_trips_on_random_paths() {
    let mut rng = Rng(0x9e37_79b9_7f4a_7c15);
    for _ in 0..500 {
        let els = random_path(&mut rng);
        let (reparsed, err) = read(&path_data::write(&texts(&els)));
        assert!(err.is_none());
        assert_eq!(reparsed, els);
    }
}

/// A path that starts with a moveto, so it is valid data to begin with, and
/// exercises every element kind.
fn random_path(rng: &mut Rng) -> Vec<El> {
    let mut els = vec![El::MoveTo(rng.point())];
    for _ in 0..rng.below(8) {
        els.push(match rng.below(5) {
            0 => El::MoveTo(rng.point()),
            1 => El::LineTo(rng.point()),
            2 => El::QuadTo(rng.point(), rng.point()),
            3 => El::CurveTo(rng.point(), rng.point(), rng.point()),
            _ => El::ClosePath,
        });
    }
    els
}

/// The verdicts on numbers against the same text read as a binary64.
#[test]
fn a_number_is_finite_and_positive_where_its_binary64_is() {
    let max = "17976931348623157081452742373170435679807056752584499659891747680315726078002853876058955863276687817154045895351438246423432132688946418276846754670353751698604991057655128207624549009038932894407586850845513394230458323690322294816580855932123347427479200000";
    for t in [
        "0",
        "-0",
        "1",
        "-1",
        "00012.5e-3",
        "1e308",
        "1e309",
        "1.7976931348623157e308",
        "1.7976931348623158e308",
        "1.7976931348623159e308",
        "17976931348623158079372897140530341507993413271003782693617377898044496829276475094664901797758720709633028641669288791094655554785194040263065748867150582068190890200070838367627385484581771153176447573027006985557136695962284291481986083493647529271907416844436551070434271155969950809304288017790417449778",
        "17976931348623158079372897140530341507993413271003782693617377898044496829276475094664901797758720709633028641669288791094655554785194040263065748867150582068190890200070838367627385484581771153176447573027006985557136695962284291481986083493647529271907416844436551070434271155969950809304288017790417449779",
        "179769313486231580793e289",
        "179769313486231580794e289",
        max,
        "1e-323",
        "4.9e-324",
        "2.5e-324",
        "2.4703282292062327e-324",
        "2.4703282292062328e-324",
        "2.4e-324",
        "1e-400",
        "1e99999999999999999999999999999999999999999999",
        "1e-99999999999999999999999999999999999999999999",
        "0e99999999999999999999999999999999999999999999",
        "0.0000000000000000000000000000000000000000001e60",
        ".5",
        "5.",
        "+.5e+2",
    ] {
        let v: f64 = t.parse().unwrap();
        assert_eq!(is_finite_number(t), v.is_finite(), "{t}");
        if v.is_finite() {
            assert_eq!(is_positive(t), v > 0.0, "{t}");
        }
    }
    for t in ["", ".", "+", "1e", "1e+", "e5", "inf", "NaN", "1 ", " 1", "1.2.3", "0x10", "1_0"] {
        assert!(!is_finite_number(t), "{t}");
    }
}
