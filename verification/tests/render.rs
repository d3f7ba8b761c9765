use kimun_editor::markdown::render::SegStyle;
use kimun_editor::markdown::{ElementKind, LineMarks, MarkdownSpanner, ParsedLine};

type Segs = Vec<(String, SegStyle)>;

#[allow(clippy::too_many_arguments)]
fn render_parsed(content: &str, line: &str, parsed: &ParsedLine, vs: usize, cursor: Option<usize>, first: bool, raw: bool, width: u16) -> Segs {
    MarkdownSpanner::render_segments(content, line, parsed, vs, cursor, first, raw, width)
}

fn render(content: &str, line: &str, vs: usize, cursor: Option<usize>, first: bool, raw: bool, width: u16) -> Segs {
    render_parsed(content, line, &ParsedLine::parse(line), vs, cursor, first, raw, width)
}

/// `line` rendered with the wikilink spans the note scanner reports.
fn render_wikilinks(line: &str, spans: &[(usize, usize)], cursor: Option<usize>, width: u16) -> Segs {
    let mut m = LineMarks::none();
    m.wikilinks.extend_from_slice(spans);
    render_parsed(line, line, &ParsedLine::parse_marked(line, m), 0, cursor, true, false, width)
}

/// `line` rendered with its one image link, `name` the linked file.
fn render_image(line: &str, name: &str, width: u16) -> Segs {
    let start = line.chars().position(|c| c == '!').unwrap();
    let end = line.chars().position(|c| c == ')').unwrap() + 1;
    let mut m = LineMarks::none();
    m.images.push((start, end, name.to_string()));
    render_parsed(line, line, &ParsedLine::parse_marked(line, m), 0, None, true, false, width)
}

fn text(s: &Segs) -> String {
    s.iter().map(|(t, _)| t.as_str()).collect()
}

fn styled(s: &Segs, kind: ElementKind, bit: u8) -> bool {
    s.iter().any(|(_, st)| match st {
        SegStyle::Element { kind: k, mods, .. } => *k == Some(kind) || mods & bit != 0,
        _ => false,
    })
}

fn bold(s: &Segs) -> bool {
    styled(s, ElementKind::Bold, 1)
}

fn crossed_out(s: &Segs) -> bool {
    styled(s, ElementKind::Strikethrough, 4)
}

fn underlined(s: &Segs) -> bool {
    s.iter().any(|(_, st)| {
        matches!(st, SegStyle::Element { kind: Some(ElementKind::Link) | Some(ElementKind::WikiLink), .. })
    })
}

fn check_strikethrough_renders_with_crossed_out_modifier() {
    let s = render("~~gone~~", "~~gone~~", 0, None, true, false, 40);
    assert_eq!(text(&s), "gone");
    assert!(crossed_out(&s));
}

#[test]
fn markdown_strikethrough_renders_with_crossed_out_modifier() {
    check_strikethrough_renders_with_crossed_out_modifier();
}

#[test]
fn mod_strikethrough_renders_with_crossed_out_modifier() {
    check_strikethrough_renders_with_crossed_out_modifier();
}

fn check_render_image_substitutes_placeholder_text() {
    let line = "before ![alt](pic.gif) after";
    let rendered = text(&render_image(line, "pic.gif", 80));
    assert!(rendered.contains("[pic.gif]"), "rendered text {rendered:?} should include placeholder");
    assert!(!rendered.contains("![alt]"), "raw image syntax should not appear in rendered output: {rendered:?}");
}

#[test]
fn markdown_render_image_substitutes_placeholder_text() {
    check_render_image_substitutes_placeholder_text();
}

#[test]
fn mod_render_image_substitutes_placeholder_text() {
    check_render_image_substitutes_placeholder_text();
}

fn check_render_image_with_empty_alt_uses_filename() {
    let line = "![](image.png)";
    assert_eq!(text(&render_image(line, "image.png", 40)), "[image.png]");
}

#[test]
fn markdown_render_image_with_empty_alt_uses_filename() {
    check_render_image_with_empty_alt_uses_filename();
}

#[test]
fn mod_render_image_with_empty_alt_uses_filename() {
    check_render_image_with_empty_alt_uses_filename();
}

fn check_force_raw_no_styling() {
    let s = render("**x**", "**x**", 0, None, true, true, 40);
    assert_eq!(text(&s), "**x**");
    assert!(!bold(&s));
}

#[test]
fn markdown_force_raw_no_styling() {
    check_force_raw_no_styling();
}

#[test]
fn mod_force_raw_no_styling() {
    check_force_raw_no_styling();
}

fn check_plain_text_passthrough() {
    assert_eq!(text(&render("hi", "hi", 0, None, true, false, 40)), "hi");
}

#[test]
fn markdown_plain_text_passthrough() {
    check_plain_text_passthrough();
}

#[test]
fn mod_plain_text_passthrough() {
    check_plain_text_passthrough();
}

fn check_bold_without_cursor_hides_markers() {
    let s = render("**bold**", "**bold**", 0, None, true, false, 40);
    assert_eq!(text(&s), "bold");
    assert!(bold(&s));
}

#[test]
fn markdown_bold_without_cursor_hides_markers() {
    check_bold_without_cursor_hides_markers();
}

#[test]
fn mod_bold_without_cursor_hides_markers() {
    check_bold_without_cursor_hides_markers();
}

fn check_bold_cursor_inside_shows_raw() {
    assert_eq!(text(&render("**bold**", "**bold**", 0, Some(3), true, false, 40)), "**bold**");
}

#[test]
fn markdown_bold_cursor_inside_shows_raw() {
    check_bold_cursor_inside_shows_raw();
}

#[test]
fn mod_bold_cursor_inside_shows_raw() {
    check_bold_cursor_inside_shows_raw();
}

fn check_bold_cursor_outside_stays_rendered() {
    let line = "hello **bold** world";
    assert!(!text(&render(line, line, 0, Some(1), true, false, 40)).contains("**"));
}

#[test]
fn markdown_bold_cursor_outside_stays_rendered() {
    check_bold_cursor_outside_stays_rendered();
}

#[test]
fn mod_bold_cursor_outside_stays_rendered() {
    check_bold_cursor_outside_stays_rendered();
}

fn check_italic_cursor_inside_shows_raw() {
    assert_eq!(text(&render("*hi*", "*hi*", 0, Some(1), true, false, 40)), "*hi*");
}

#[test]
fn markdown_italic_cursor_inside_shows_raw() {
    check_italic_cursor_inside_shows_raw();
}

#[test]
fn mod_italic_cursor_inside_shows_raw() {
    check_italic_cursor_inside_shows_raw();
}

fn check_inline_code_hides_backticks() {
    assert_eq!(text(&render("`x`", "`x`", 0, None, true, false, 40)), "x");
}

#[test]
fn markdown_inline_code_hides_backticks() {
    check_inline_code_hides_backticks();
}

#[test]
fn mod_inline_code_hides_backticks() {
    check_inline_code_hides_backticks();
}

fn check_h1_first_line_contains_hash() {
    let s = render("# T", "# T", 0, None, true, false, 40);
    assert!(text(&s).contains('#'));
    assert!(text(&s).contains('T'));
}

#[test]
fn markdown_h1_first_line_contains_hash() {
    check_h1_first_line_contains_hash();
}

#[test]
fn mod_h1_first_line_contains_hash() {
    check_h1_first_line_contains_hash();
}

fn check_continuation_line_no_hash() {
    assert!(!text(&render("cont", "# T cont", 2, None, false, false, 40)).contains('#'));
}

#[test]
fn markdown_continuation_line_no_hash() {
    check_continuation_line_no_hash();
}

#[test]
fn mod_continuation_line_no_hash() {
    check_continuation_line_no_hash();
}

fn check_unordered_list_shows_marker() {
    let s = render("- item", "- item", 0, None, true, false, 40);
    assert!(text(&s).starts_with("- "), "expected '- item', got '{}'", text(&s));
    assert!(text(&s).contains("item"));
}

#[test]
fn markdown_unordered_list_shows_marker() {
    check_unordered_list_shows_marker();
}

#[test]
fn mod_unordered_list_shows_marker() {
    check_unordered_list_shows_marker();
}

fn check_ordered_list_shows_marker() {
    let s = render("1. item", "1. item", 0, None, true, false, 40);
    assert!(text(&s).starts_with("1. "), "expected '1. item', got '{}'", text(&s));
}

#[test]
fn markdown_ordered_list_shows_marker() {
    check_ordered_list_shows_marker();
}

#[test]
fn mod_ordered_list_shows_marker() {
    check_ordered_list_shows_marker();
}

fn check_nested_list_4space_link_rendered() {
    let line = "    - [my link](url)";
    let s = render(line, line, 0, None, true, false, 80);
    assert!(underlined(&s), "link text should be underlined on a 4-space-indented nested list item");
    let rendered = text(&s);
    assert!(rendered.contains("my link"), "link display text should be visible; got {:?}", rendered);
    assert!(!rendered.contains("](url)"), "link URL sigil should be hidden; got {:?}", rendered);
}

#[test]
fn markdown_nested_list_4space_link_rendered() {
    check_nested_list_4space_link_rendered();
}

#[test]
fn mod_nested_list_4space_link_rendered() {
    check_nested_list_4space_link_rendered();
}

fn check_nested_list_tab_bold_rendered() {
    let line = "\t- **bold nested**";
    let s = render(line, line, 0, None, true, false, 80);
    assert!(bold(&s), "bold text should be styled on a tab-indented nested list item");
    assert!(!text(&s).contains("**"), "bold markers should be hidden; got {:?}", text(&s));
}

#[test]
fn markdown_nested_list_tab_bold_rendered() {
    check_nested_list_tab_bold_rendered();
}

#[test]
fn mod_nested_list_tab_bold_rendered() {
    check_nested_list_tab_bold_rendered();
}

fn check_nested_list_4space_wikilink_rendered() {
    let line = "    - [[Target Note]]";
    let rendered = text(&render_wikilinks(line, &[(6, 21)], None, 80));
    assert!(!rendered.contains("[["), "wikilink brackets should be hidden; got {:?}", rendered);
    assert!(rendered.contains("Target Note"), "wikilink target text should render; got {:?}", rendered);
}

#[test]
fn markdown_nested_list_4space_wikilink_rendered() {
    check_nested_list_4space_wikilink_rendered();
}

#[test]
fn mod_nested_list_4space_wikilink_rendered() {
    check_nested_list_4space_wikilink_rendered();
}

fn check_nested_list_2space_still_renders_link() {
    let line = "  - [link](url)";
    assert!(underlined(&render(line, line, 0, None, true, false, 80)));
}

#[test]
fn markdown_nested_list_2space_still_renders_link() {
    check_nested_list_2space_still_renders_link();
}

#[test]
fn mod_nested_list_2space_still_renders_link() {
    check_nested_list_2space_still_renders_link();
}

fn check_empty_heading_shows_hash_sigil() {
    let line = "# ";
    let s = render(line, line, 0, None, true, false, 40);
    assert!(text(&s).contains('#'), "hash sigil should render in empty heading");
    let col = MarkdownSpanner::rendered_cursor_col(line, 0, 1, true, false);
    assert_eq!(col, 1, "cursor after '#' should be at rendered col 1");
}

#[test]
fn markdown_empty_heading_shows_hash_sigil() {
    check_empty_heading_shows_hash_sigil();
}

#[test]
fn mod_empty_heading_shows_hash_sigil() {
    check_empty_heading_shows_hash_sigil();
}

fn check_empty_heading_hash_only_shows() {
    let line = "#";
    let s = render(line, line, 0, None, true, false, 40);
    assert!(text(&s).contains('#'));
    assert_eq!(MarkdownSpanner::rendered_cursor_col(line, 0, 1, true, false), 1);
}

#[test]
fn markdown_empty_heading_hash_only_shows() {
    check_empty_heading_hash_only_shows();
}

#[test]
fn mod_empty_heading_hash_only_shows() {
    check_empty_heading_hash_only_shows();
}

fn check_heading_trailing_spaces_are_rendered() {
    let line = "# Hello   ";
    assert_eq!(text(&render(line, line, 0, None, true, false, 40)), "# Hello   ", "trailing spaces in heading should render");
}

#[test]
fn markdown_heading_trailing_spaces_are_rendered() {
    check_heading_trailing_spaces_are_rendered();
}

#[test]
fn mod_heading_trailing_spaces_are_rendered() {
    check_heading_trailing_spaces_are_rendered();
}

fn check_trailing_spaces_are_rendered() {
    let line = "hello   ";
    assert_eq!(text(&render(line, line, 0, None, true, false, 40)), "hello   ");
}

#[test]
fn markdown_trailing_spaces_are_rendered() {
    check_trailing_spaces_are_rendered();
}

#[test]
fn mod_trailing_spaces_are_rendered() {
    check_trailing_spaces_are_rendered();
}

fn check_list_marker_on_continuation_line_hidden() {
    assert!(!text(&render("cont", "- cont", 2, None, false, false, 40)).starts_with("- "));
}

#[test]
fn markdown_list_marker_on_continuation_line_hidden() {
    check_list_marker_on_continuation_line_hidden();
}

#[test]
fn mod_list_marker_on_continuation_line_hidden() {
    check_list_marker_on_continuation_line_hidden();
}

fn check_parsed_line_reuse_matches_individual() {
    let line = "**hello** world";
    let parsed = ParsedLine::parse(line);
    let s1 = render(line, line, 0, None, true, false, 40);
    let s2 = render_parsed(line, line, &parsed, 0, None, true, false, 40);
    assert_eq!(text(&s1), text(&s2));
}

#[test]
fn markdown_parsed_line_reuse_matches_individual() {
    check_parsed_line_reuse_matches_individual();
}

#[test]
fn mod_parsed_line_reuse_matches_individual() {
    check_parsed_line_reuse_matches_individual();
}

fn check_wikilink_without_cursor_hides_brackets() {
    let s = render_wikilinks("[[My Note]]", &[(0, 11)], None, 40);
    assert_eq!(text(&s), "My Note");
    assert!(underlined(&s));
}

#[test]
fn markdown_wikilink_without_cursor_hides_brackets() {
    check_wikilink_without_cursor_hides_brackets();
}

#[test]
fn mod_wikilink_without_cursor_hides_brackets() {
    check_wikilink_without_cursor_hides_brackets();
}

fn check_wikilink_cursor_inside_shows_brackets() {
    assert_eq!(text(&render_wikilinks("[[My Note]]", &[(0, 11)], Some(4), 40)), "[[My Note]]");
}

#[test]
fn markdown_wikilink_cursor_inside_shows_brackets() {
    check_wikilink_cursor_inside_shows_brackets();
}

#[test]
fn mod_wikilink_cursor_inside_shows_brackets() {
    check_wikilink_cursor_inside_shows_brackets();
}

fn check_wikilink_cursor_outside_hides_brackets() {
    let s = render_wikilinks("hello [[My Note]] world", &[(6, 17)], Some(1), 40);
    assert!(!text(&s).contains("[["));
    assert!(!text(&s).contains("]]"));
}

#[test]
fn markdown_wikilink_cursor_outside_hides_brackets() {
    check_wikilink_cursor_outside_hides_brackets();
}

#[test]
fn mod_wikilink_cursor_outside_hides_brackets() {
    check_wikilink_cursor_outside_hides_brackets();
}

fn check_wikilink_mid_sentence() {
    assert_eq!(text(&render_wikilinks("See [[Topic]] for details", &[(4, 13)], None, 40)), "See Topic for details");
}

#[test]
fn markdown_wikilink_mid_sentence() {
    check_wikilink_mid_sentence();
}

#[test]
fn mod_wikilink_mid_sentence() {
    check_wikilink_mid_sentence();
}

#[test]
fn force_raw_expands_tabs_and_cursor_maps_round_trip() {
    let s = render("\tx", "\tx", 0, None, true, true, 40);
    assert_eq!(text(&s), "    x", "tab must expand to 4 spaces in force-raw");
    assert_eq!(MarkdownSpanner::rendered_cursor_col("\tx", 0, 1, true, true), 4);
    assert_eq!(MarkdownSpanner::rendered_cursor_col("\tx", 0, 2, true, true), 5);
    assert_eq!(MarkdownSpanner::rendered_col_to_logical("\tx", 0, 4, true, true), 1);
    assert_eq!(MarkdownSpanner::rendered_col_to_logical("\tx", 0, 0, true, true), 0);
}

#[test]
fn blockquote_renders_bar_when_cursor_off_line() {
    let t = text(&render("> hi", "> hi", 0, None, true, false, 40));
    assert!(t.starts_with("│ "), "expected bar gutter, got {t:?}");
    assert!(!t.contains('>'), "raw marker must be hidden, got {t:?}");
    assert!(t.contains("hi"));
}

#[test]
fn blockquote_reveals_raw_marker_when_cursor_on_line() {
    let t = text(&render("> hi", "> hi", 0, Some(2), true, false, 40));
    assert_eq!(t, "> hi");
    assert!(!t.contains('│'));
}

#[test]
fn nested_blockquote_renders_two_bars() {
    let t = text(&render(">> x", ">> x", 0, None, true, false, 40));
    assert!(t.starts_with("││ "), "expected two bars, got {t:?}");
}

#[test]
fn bare_blockquote_renders_bar_gutter_without_panic() {
    let t = text(&render(">", ">", 0, None, true, false, 40));
    assert!(t.starts_with("│ "), "expected bar gutter, got {t:?}");
    assert!(!t.contains('>'), "raw marker must be hidden, got {t:?}");
}

// ── the segments themselves ───────────────────────────────────────────────

#[test]
fn a_rule_row_draws_a_bar_across_the_width_or_its_source_under_the_caret() {
    let s = render("---", "---", 0, None, true, false, 5);
    assert_eq!(s, vec![("─────".to_string(), SegStyle::Gray)]);
    let s = render("---", "---", 0, Some(1), true, false, 5);
    assert_eq!(s, vec![("---".to_string(), SegStyle::Gray)]);
}

#[test]
fn a_styled_run_is_its_own_segment() {
    let s = render("a **b** c", "a **b** c", 0, None, true, false, 40);
    assert_eq!(text(&s), "a b c");
    assert_eq!(s.len(), 3);
    assert!(matches!(s[1].1, SegStyle::Element { kind: Some(ElementKind::Bold), sigil: false, .. }));
    assert_eq!(s[1].0, "b");
}

#[test]
fn tabs_expand_to_the_next_tab_stop() {
    let t = text(&render("ab\tc", "ab\tc", 0, None, true, false, 40));
    assert_eq!(t, "ab  c");
}

#[test]
fn revealed_source_splits_where_the_element_under_it_changes() {
    let line = "[**a**b](u)";
    let s = render(line, line, 0, Some(6), true, false, 40);
    assert_eq!(text(&s), line);
    let grays: Vec<&str> = s.iter().filter(|(_, st)| *st == SegStyle::Gray).map(|(t, _)| t.as_str()).collect();
    assert_eq!(grays, vec!["[", "**a**", "b](u)"]);
}
