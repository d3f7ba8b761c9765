use kimun_editor::find_replace::{FindPattern, build_preview, replace_all};

fn lines(v: &[&str]) -> Vec<String> {
    v.iter().map(|s| s.to_string()).collect()
}

// ── smartcase ──────────────────────────────────────────────────────────

#[test]
fn lowercase_pattern_matches_any_case() {
    let p = FindPattern::compile("todo").unwrap();
    assert!(!p.case_sensitive());
    assert_eq!(p.count_matches(&lines(&["todo Todo TODO"])), 3);
}

#[test]
fn pattern_with_uppercase_is_exact() {
    let p = FindPattern::compile("Todo").unwrap();
    assert!(p.case_sensitive());
    assert_eq!(p.count_matches(&lines(&["todo Todo TODO"])), 1);
}

#[test]
fn user_written_inline_flag_overrides_smartcase() {
    // Lowercase query, so smartcase prepends `(?i)` — the user's `(?-i)`
    // comes later in the pattern and must win.
    let p = FindPattern::compile("(?-i)todo").unwrap();
    assert_eq!(p.count_matches(&lines(&["todo Todo TODO"])), 1);
}

// ── capture gating ──────────────────────────────────────────

#[test]
fn dollar_is_literal_when_pattern_does_not_capture() {
    let p = FindPattern::compile("price").unwrap();
    assert!(!p.has_captures());
    let (out, n) = replace_all(&p, &lines(&["the price here"]), "$5").unwrap();
    assert_eq!(n, 1);
    assert_eq!(out, lines(&["the $5 here"]));
}

#[test]
fn dollar_expands_when_pattern_captures() {
    let p = FindPattern::compile(r"(\w+)-(\w+)").unwrap();
    assert!(p.has_captures());
    let (out, _) = replace_all(&p, &lines(&["alpha-beta"]), "$2 $1").unwrap();
    assert_eq!(out, lines(&["beta alpha"]));
}

#[test]
fn a_dollar_naming_no_group_stays_literal_even_when_the_pattern_captures() {
    // The capture gate alone protects only patterns with no groups. A user
    // who writes a group is exactly the user who then writes a price.
    let p = FindPattern::compile(r"(Total)").unwrap();
    let (out, _) = replace_all(&p, &lines(&["Total: 5 due"]), "$1 cost $100").unwrap();
    assert_eq!(out, lines(&["Total cost $100: 5 due"]));
}

#[test]
fn inline_latex_survives_a_capturing_pattern() {
    let p = FindPattern::compile(r"(area)").unwrap();
    let (out, _) = replace_all(&p, &lines(&["the area"]), "$1 $x^2$").unwrap();
    assert_eq!(out, lines(&["the area $x^2$"]));
}

#[test]
fn braced_and_named_references_still_expand() {
    let p = FindPattern::compile(r"(?<word>\w+)-(\d+)").unwrap();
    let (out, _) = replace_all(&p, &lines(&["ab-12"]), "${word}/$2").unwrap();
    assert_eq!(out, lines(&["ab/12"]));
}

#[test]
fn double_dollar_is_still_an_escape() {
    let p = FindPattern::compile(r"(x)").unwrap();
    let (out, _) = replace_all(&p, &lines(&["x"]), "$$1").unwrap();
    assert_eq!(out, lines(&["$1"]));
}

#[test]
fn a_group_that_matched_nothing_expands_to_nothing() {
    // Distinct from a group that does not exist: this one is real and
    // simply matched the empty string, so erasing it is correct.
    let p = FindPattern::compile(r"a(z*)").unwrap();
    let (out, _) = replace_all(&p, &lines(&["a"]), "[$1]").unwrap();
    assert_eq!(out, lines(&["[]"]));
}

#[test]
fn non_capturing_group_does_not_enable_expansion() {
    let p = FindPattern::compile(r"(?:foo)").unwrap();
    assert!(!p.has_captures());
    let (out, _) = replace_all(&p, &lines(&["foo"]), "$1").unwrap();
    assert_eq!(out, lines(&["$1"]));
}

// ── replace all ────────────────────────────────────────────────────────

#[test]
fn replace_all_rewrites_every_line() {
    let p = FindPattern::compile("a").unwrap();
    let (out, n) = replace_all(&p, &lines(&["aa", "b", "a"]), "x").unwrap();
    assert_eq!(n, 3);
    assert_eq!(out, lines(&["xx", "b", "x"]));
}

#[test]
fn replace_all_reports_none_when_nothing_matches() {
    let p = FindPattern::compile("zzz").unwrap();
    assert!(replace_all(&p, &lines(&["abc"]), "x").is_none());
}

#[test]
fn empty_replacement_deletes_matches() {
    let p = FindPattern::compile("todo ").unwrap();
    let (out, n) = replace_all(&p, &lines(&["todo todo done"]), "").unwrap();
    assert_eq!(n, 2);
    assert_eq!(out, lines(&["done"]));
}

#[test]
fn replace_all_never_changes_the_line_count() {
    let p = FindPattern::compile("x").unwrap();
    let src = lines(&["x", "", "xx", "y"]);
    let (out, _) = replace_all(&p, &src, "longer").unwrap();
    assert_eq!(out.len(), src.len());
}

// ── preview spans ──────────────────────────────────────────────────────

#[test]
fn preview_spans_are_in_preview_coordinates_not_buffer_ones() {
    // "ab" -> "XYZW" shifts everything after the first match right by 2,
    // so the second span must not be reported at its buffer column.
    let p = FindPattern::compile("ab").unwrap();
    let pv = build_preview(&p, &lines(&["ab-ab"]), "XYZW", None);
    assert_eq!(pv.lines, lines(&["XYZW-XYZW"]));
    assert_eq!(pv.spans[0].start, 0);
    assert_eq!(pv.spans[0].end, 4);
    assert_eq!(pv.spans[1].start, 5);
    assert_eq!(pv.spans[1].end, 9);
}

#[test]
fn preview_flags_the_current_match_by_buffer_position() {
    let p = FindPattern::compile("ab").unwrap();
    // Second match starts at buffer char col 3 of "ab-ab".
    let pv = build_preview(&p, &lines(&["ab-ab"]), "X", Some((0, 3)));
    assert_eq!(
        pv.spans.iter().map(|s| s.is_current).collect::<Vec<_>>(),
        vec![false, true]
    );
}

#[test]
fn preview_handles_multibyte_content() {
    let p = FindPattern::compile("é").unwrap();
    let pv = build_preview(&p, &lines(&["aéb"]), "ü", None);
    assert_eq!(pv.lines, lines(&["aüb"]));
    // Char columns, not byte offsets.
    assert_eq!(pv.spans[0].start, 1);
    assert_eq!(pv.spans[0].end, 2);
}

#[test]
fn preview_with_captures_differs_per_match() {
    // The case that makes previewing only the current match misleading.
    let p = FindPattern::compile(r"(\w)(\d)").unwrap();
    let pv = build_preview(&p, &lines(&["a1 b2"]), "$2$1", None);
    assert_eq!(pv.lines, lines(&["1a 2b"]));
}

#[test]
fn zero_width_pattern_terminates() {
    let p = FindPattern::compile(r"\b").unwrap();
    let pv = build_preview(&p, &lines(&["hi there"]), "|", None);
    assert_eq!(pv.lines, lines(&["|hi| |there|"]));
}

#[test]
fn empty_lines_survive_preview() {
    let p = FindPattern::compile("x").unwrap();
    let pv = build_preview(&p, &lines(&["", "x", ""]), "y", None);
    assert_eq!(pv.lines, lines(&["", "y", ""]));
}

#[test]
fn invalid_pattern_reports_error() {
    assert!(FindPattern::compile("[").is_err());
}

#[test]
fn match_spans_are_char_columns_per_row() {
    let p = FindPattern::compile("é").unwrap();
    assert_eq!(p.match_spans(&lines(&["aéb", "éé"])), vec![(0, 1, 2), (1, 0, 1), (1, 1, 2)]);
    assert_eq!(p.as_pattern(), "(?i)é");
}
