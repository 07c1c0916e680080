//! The cascade.

use hane::svg::style::{Style, parse_declarations};
use hane::svg::xml::{Node, parse};

/// The computed style of `<g>`, and of the `<path>` nested inside it.
fn resolve(group: &str, child: &str) -> (Style, Style) {
    let root = parse(&format!("<g {group}><path {child}/></g>")).expect("should parse");
    let parent = Style::initial().resolve(&root);
    let Node::Element(path) = &root.children[0] else {
        panic!("expected the path child");
    };
    let child = parent.resolve(path);
    (parent, child)
}

fn get(style: &Style, property: &str) -> String {
    style
        .get(property)
        .expect("a modelled property")
        .to_string()
}

#[test]
fn unset_properties_take_their_initial_value() {
    let (_, child) = resolve("", "");
    assert_eq!(get(&child, "fill"), "black");
    assert_eq!(get(&child, "stroke"), "none");
    assert_eq!(get(&child, "fill-rule"), "nonzero");
    assert_eq!(child.get("font-size"), None);
}

#[test]
fn inline_style_beats_the_presentation_attribute() {
    let (parent, _) = resolve("fill='red' style='fill: blue'", "");
    assert_eq!(get(&parent, "fill"), "blue");
}

#[test]
fn a_presentation_attribute_still_applies_when_style_is_silent_about_it() {
    let (parent, _) = resolve("fill='red' style='stroke: blue'", "");
    assert_eq!(get(&parent, "fill"), "red");
    assert_eq!(get(&parent, "stroke"), "blue");
}

#[test]
fn inheritable_properties_inherit_and_others_do_not() {
    let (_, child) = resolve("fill='red' opacity='0.5' display='none'", "");
    assert_eq!(get(&child, "fill"), "red");
    // Group opacity applies to the composited group, so a child that says
    // nothing is fully opaque, not half.
    assert_eq!(get(&child, "opacity"), "1");
    assert_eq!(get(&child, "display"), "inline");
}

#[test]
fn the_child_overrides_what_it_inherits() {
    let (_, child) = resolve("fill='red'", "fill='green'");
    assert_eq!(get(&child, "fill"), "green");
}

#[test]
fn inherit_pulls_the_parent_value_through_for_any_property() {
    let (_, child) = resolve(
        "fill='red' opacity='0.5'",
        "fill='inherit' opacity='inherit'",
    );
    assert_eq!(get(&child, "fill"), "red");
    // Explicit `inherit` reaches a property that never inherits on its own.
    assert_eq!(get(&child, "opacity"), "0.5");
}

#[test]
fn inherit_on_the_root_reaches_the_initial_value() {
    let (parent, _) = resolve("fill='inherit'", "");
    assert_eq!(get(&parent, "fill"), "black");
}

#[test]
fn current_color_resolves_against_the_computed_color() {
    let (parent, child) = resolve("color='red' fill='currentColor'", "stroke='currentColor'");
    assert_eq!(get(&parent, "fill"), "red");
    // `color` inherits, so the child's `currentColor` is the parent's red.
    assert_eq!(get(&child, "stroke"), "red");

    // The element's own `color` wins over the inherited one, whichever order
    // the two declarations appear in.
    let (_, child) = resolve("color='red'", "style='fill: currentColor; color: blue'");
    assert_eq!(get(&child, "fill"), "blue");
}

#[test]
fn current_color_on_a_non_inheriting_property_still_works() {
    let (_, child) = resolve("color='red'", "stop-color='currentColor'");
    assert_eq!(get(&child, "stop-color"), "red");
}

#[test]
fn color_set_to_current_color_is_the_inherited_color() {
    // Circular by the letter of the spec, defined to mean `inherit`.
    let (_, child) = resolve("color='red'", "color='currentColor' fill='currentColor'");
    assert_eq!(get(&child, "color"), "red");
    assert_eq!(get(&child, "fill"), "red");
}

#[test]
fn keywords_are_case_insensitive() {
    let (_, child) = resolve("color='red' fill='blue'", "fill='CURRENTCOLOR'");
    assert_eq!(get(&child, "fill"), "red");
    let (_, child) = resolve("fill='blue'", "style='FILL: INHERIT'");
    assert_eq!(get(&child, "fill"), "blue");
}

#[test]
fn declaration_syntax_is_forgiving() {
    let (parent, _) = resolve(
        "style='  fill : red ;; nonsense ; stroke:;stroke-width:2!important ; fill: green '",
        "",
    );
    // Last declaration of a property wins.
    assert_eq!(get(&parent, "fill"), "green");
    // A value-less declaration is dropped, not treated as empty.
    assert_eq!(get(&parent, "stroke"), "none");
    assert_eq!(get(&parent, "stroke-width"), "2");
}

#[test]
fn unknown_declarations_are_ignored() {
    let (parent, _) = resolve("style='fill: red; -webkit-wobble: 3'", "");
    assert_eq!(get(&parent, "fill"), "red");
    assert_eq!(parent.get("-webkit-wobble"), None);
}

#[test]
fn declarations_split_at_the_first_colon_and_the_last_mark() {
    let pairs = |t: &str| -> Vec<(String, String)> { parse_declarations(t) };
    let want = |t: &[(&str, &str)]| -> Vec<(String, String)> {
        t.iter().map(|(a, b)| (a.to_string(), b.to_string())).collect()
    };
    assert_eq!(pairs("a:b:c"), want(&[("a", "b:c")]));
    assert_eq!(pairs("a: b ! IMPORTANT ;c:d!e"), want(&[("a", "b"), ("c", "d!e")]));
    assert_eq!(pairs("a:!important; : b;c"), want(&[]));
    assert_eq!(pairs("\u{2003}a\u{a0}:\u{3000}b"), want(&[("a", "b")]));
}

#[test]
fn every_way_to_declare_a_property_computes() {
    let group = "fill='red' color='lime' stop-color='teal'";
    let child = |rest: &str| resolve(group, rest).1;
    assert_eq!(get(&child("fill='INHERIT'"), "fill"), "red");
    assert_eq!(get(&child("stop-color='inherit'"), "stop-color"), "teal");
    assert_eq!(get(&child("fill='CurrentColor'"), "fill"), "lime");
    assert_eq!(get(&child("fill='currentColor' color='navy'"), "fill"), "navy");
    assert_eq!(get(&child("style='FILL: blue; fill: green'"), "fill"), "green");
    assert_eq!(get(&child(""), "stop-color"), "black");
    assert_eq!(get(&child(""), "fill"), "red");
}
