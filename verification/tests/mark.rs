//! Which glyph file each Selection Mark is drawn from.

use quill_engine::data::{join, marks};
use quill_engine::mark::{self, file_name, Mark};

#[test]
fn the_bar_is_the_stylesheets_and_has_no_file() {
    let dir = marks("/usr/share/quill");
    assert_eq!(mark::file(Mark::Bar, false, &dir), None);
    assert_eq!(mark::file(Mark::Bar, true, &dir), None);
    assert_eq!(
        mark::file(Mark::Pen, true, &dir),
        Some(join(&dir, "pen-short.svg"))
    );
}

#[test]
fn the_feather_and_the_pen_each_have_a_full_and_a_short_glyph() {
    assert_eq!(file_name(Mark::Feather, false), Some("feather.svg"));
    assert_eq!(file_name(Mark::Feather, true), Some("feather-short.svg"));
    assert_eq!(file_name(Mark::Pen, false), Some("pen.svg"));
    assert_eq!(file_name(Mark::Pen, true), Some("pen-short.svg"));
}

use quill_engine::mark::{attributes, numbers, path, paths, view_box, Segment, Step};

/// The words of a glyph file's segments, as `(step, numbers)`.
fn read(svg: &str) -> Result<Vec<(Step, Vec<String>)>, String> {
    view_box(svg)?;
    let segments: Vec<Segment> = paths(svg)?;
    Ok(segments
        .into_iter()
        .map(|segment| (segment.step, segment.numbers))
        .collect())
}

fn words(list: &[&str]) -> Vec<String> {
    list.iter().map(|word| word.to_string()).collect()
}

#[test]
fn a_file_outside_the_subset_is_refused_by_what_is_outside_it() {
    let box_ = r#"<svg viewBox="0 0 10 50">"#;
    assert_eq!(
        read(&format!(r#"{box_}<path d="m 1 1 L 2 2 Z"/></svg>"#)),
        Err("path command m is outside the subset: absolute M, L, C and Z".to_owned())
    );
    assert_eq!(
        read(r#"<svg><path d="M 1 1 Z"/></svg>"#),
        Err("no viewBox".to_owned())
    );
    assert_eq!(
        read(&format!(r#"{box_}<path d="M 1 1 C 2 2 Z"/></svg>"#)),
        Err("C wants 6 numbers".to_owned())
    );
    assert_eq!(read(&format!("{box_}</svg>")), Err("no path".to_owned()));
    let parsed = read(&format!(
        r#"{box_}<path id="x" d="M1,1 2 2 C 1 1 2 2 3 3 Z"/></svg>"#
    ))
    .expect("the subset");
    assert_eq!(
        parsed,
        [
            (Step::Move, words(&["1", "1"])),
            (Step::Line, words(&["2", "2"])),
            (Step::Curve, words(&["1", "1", "2", "2", "3", "3"])),
            (Step::Close, words(&[])),
        ]
    );
}

#[test]
fn an_attribute_stands_after_white_space() {
    let svg = r#"<svg viewBox="0 0 1 2"><path id="d" d="M 0 0 Z"/><path xd="no" d="L 1 1"/></svg>"#;
    assert_eq!(attributes(svg, "d"), ["M 0 0 Z", "L 1 1"]);
    assert_eq!(attributes(svg, "viewBox"), ["0 0 1 2"]);
    assert_eq!(attributes(r#"<path d="unclosed"#, "d"), Vec::<String>::new());
}

#[test]
fn a_view_box_is_four_numbers_spaced_or_comma_separated() {
    let found = view_box(r#"<svg viewBox="0,0 10 50">"#).expect("four numbers");
    assert_eq!(found.text, "0,0 10 50");
    assert_eq!(found.numbers, words(&["0", "0", "10", "50"]));
    assert_eq!(
        view_box(r#"<svg viewBox="0 0 10">"#),
        Err(r#"viewBox "0 0 10" is not four numbers of a box"#.to_owned())
    );
    assert_eq!(
        view_box(r#"<svg viewBox="0 0 ten 5">"#),
        Err(r#""ten" is not a number"#.to_owned())
    );
}

#[test]
fn a_number_is_what_a_float_reads() {
    for good in ["1", "-1", "+.5", "5.", "1e3", "2.5E-4", "inf", "-Infinity", "NaN", "007"] {
        assert_eq!(numbers(good), Ok(vec![good.to_string()]), "{good} is a number");
        assert!(good.parse::<f64>().is_ok());
    }
    for bad in [".", "e5", "1e", "1e+", "0x10", "1_000", "--1", "infinit", "1.2.3"] {
        assert_eq!(
            numbers(bad),
            Err(format!("\"{bad}\" is not a number")),
            "{bad} is not a number"
        );
        assert!(bad.parse::<f64>().is_err());
    }
}

#[test]
fn numbers_before_any_command_are_refused() {
    let mut segments = Vec::new();
    assert_eq!(
        path("1 2 M 3 4", &mut segments),
        Err(r#""1" has no path command before it"#.to_owned())
    );
    assert_eq!(
        path("M 1 x", &mut segments),
        Err(r#""x" is not a number"#.to_owned())
    );
    let mut fresh = Vec::new();
    assert_eq!(path("M1 2L3 4Z", &mut fresh), Ok(()));
    assert_eq!(fresh.len(), 3);
    assert_eq!(fresh[1].step, Step::Line);
    assert_eq!(fresh[1].numbers, words(&["3", "4"]));
}
