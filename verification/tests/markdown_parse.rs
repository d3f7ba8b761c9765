use kimun_editor::markdown::{ElementKind, LineConstructKind, LineMarks, ParsedBuffer, ParsedLine};

fn strings(v: &[&str]) -> Vec<String> {
    v.iter().map(|s| s.to_string()).collect()
}

/// Marks for a line holding one image link at chars `start..end` whose
/// target file is `name`, as the note index reports it.
fn image_marks(start: usize, end: usize, name: &str) -> LineMarks {
    let mut m = LineMarks::none();
    m.images.push((start, end, name.to_string()));
    m
}

/// Marks for a line holding hashtag labels at the given byte ranges.
fn label_marks(spans: &[(usize, usize)]) -> LineMarks {
    let mut m = LineMarks::none();
    m.labels.extend_from_slice(spans);
    m
}

fn labels_of(p: &ParsedLine) -> Vec<(usize, usize)> {
    p.elements
        .iter()
        .filter(|e| e.kind == ElementKind::Label)
        .map(|e| (e.start_char, e.end_char))
        .collect()
}

fn check_image_element_and_placeholder() {
    let line = "see ![alt](../assets/img.png) here";
    let start = line.find('!').unwrap();
    let end = line.find(')').unwrap() + 1;
    let parsed = ParsedLine::parse_marked(line, image_marks(start, end, "img.png"));
    let img = parsed
        .elements
        .iter()
        .find(|e| e.kind == ElementKind::Image)
        .expect("image element");
    assert_eq!(line.chars().nth(img.start_char), Some('!'));
    assert_eq!(line.chars().nth(img.end_char - 1), Some(')'));
    let ph = parsed
        .image_placeholders
        .iter()
        .find(|p| p.start_char == img.start_char)
        .expect("placeholder for image");
    assert_eq!(ph.placeholder, "[img.png]");
    for pos in img.start_char..img.end_char {
        assert!(!parsed.content_vis[pos], "char {pos} should be hidden inside image span");
    }
}

#[test]
fn markdown_parse_image_emits_image_element_and_placeholder() {
    check_image_element_and_placeholder();
}

#[test]
fn mod_parse_image_emits_image_element_and_placeholder() {
    check_image_element_and_placeholder();
}

#[test]
fn blockquote_depth_and_sigil_end() {
    let p = ParsedLine::parse("> hello");
    assert_eq!(p.blockquote_depth(), Some(1));
    assert_eq!(p.blockquote_sigil_end(), Some(2));

    let p2 = ParsedLine::parse(">> deep");
    assert_eq!(p2.blockquote_depth(), Some(2));

    let plain = ParsedLine::parse("not a quote");
    assert_eq!(plain.blockquote_depth(), None);
    assert_eq!(plain.blockquote_sigil_end(), None);
}

fn check_heading_sigil_end_empty() {
    let p = ParsedLine::parse("#");
    assert_eq!(p.heading_sigil_end(), Some(1));
}

#[test]
fn markdown_parsed_line_heading_sigil_end_empty_heading() {
    check_heading_sigil_end_empty();
}

#[test]
fn mod_parsed_line_heading_sigil_end_empty_heading() {
    check_heading_sigil_end_empty();
}

fn check_heading_sigil_end_with_content() {
    let p = ParsedLine::parse("# T");
    assert_eq!(p.heading_sigil_end(), Some(2));
}

#[test]
fn markdown_parsed_line_heading_sigil_end_with_content() {
    check_heading_sigil_end_with_content();
}

#[test]
fn mod_parsed_line_heading_sigil_end_with_content() {
    check_heading_sigil_end_with_content();
}

fn check_nested_list_under_parent() {
    let lines = strings(&["- parent", "    - [child link](url)"]);
    let parsed = ParsedBuffer::parse(&lines).lines;
    assert_eq!(parsed.len(), 2);
    assert_eq!(parsed[0].list_sigil_end(), Some(2));
    assert_eq!(parsed[1].list_sigil_end(), Some(6), "child's sigil_end should be after '    - ' (6 chars)");
    assert!(parsed[1].elements.iter().any(|e| e.kind == ElementKind::Link));
}

#[test]
fn markdown_buffer_parse_nested_list_under_parent() {
    check_nested_list_under_parent();
}

#[test]
fn mod_buffer_parse_nested_list_under_parent() {
    check_nested_list_under_parent();
}

fn check_standalone_2space_list() {
    let lines = strings(&["  - [link](url)"]);
    let parsed = ParsedBuffer::parse(&lines).lines;
    assert!(parsed[0].elements.iter().any(|e| e.kind == ElementKind::Link));
    assert_eq!(parsed[0].list_sigil_end(), Some(4));
}

#[test]
fn markdown_buffer_parse_standalone_2space_list_still_works() {
    check_standalone_2space_list();
}

#[test]
fn mod_buffer_parse_standalone_2space_list_still_works() {
    check_standalone_2space_list();
}

fn check_top_level_unchanged() {
    let lines = strings(&["- [link](url)"]);
    let parsed = ParsedBuffer::parse(&lines).lines;
    assert!(parsed[0].elements.iter().any(|e| e.kind == ElementKind::Link));
    assert_eq!(parsed[0].list_sigil_end(), Some(2));
}

#[test]
fn markdown_buffer_parse_top_level_unchanged() {
    check_top_level_unchanged();
}

#[test]
fn mod_buffer_parse_top_level_unchanged() {
    check_top_level_unchanged();
}

fn check_empty_lines_preserved() {
    let lines = strings(&["# Title", "", "paragraph"]);
    let parsed = ParsedBuffer::parse(&lines).lines;
    assert_eq!(parsed.len(), 3);
    assert_eq!(parsed[1].elements.len(), 0);
    assert_eq!(parsed[1].content_vis.len(), 0);
}

#[test]
fn markdown_buffer_parse_empty_lines_preserved() {
    check_empty_lines_preserved();
}

#[test]
fn mod_buffer_parse_empty_lines_preserved() {
    check_empty_lines_preserved();
}

fn check_ordered_nested_list() {
    let lines = strings(&["1. first", "    1. nested"]);
    let parsed = ParsedBuffer::parse(&lines).lines;
    assert_eq!(parsed[0].list_sigil_end(), Some(3));
    assert_eq!(parsed[1].list_sigil_end(), Some(7));
}

#[test]
fn markdown_buffer_parse_ordered_nested_list() {
    check_ordered_nested_list();
}

#[test]
fn mod_buffer_parse_ordered_nested_list() {
    check_ordered_nested_list();
}

fn check_setext_h1_spans_two_rows() {
    let lines = strings(&["My Heading", "=========="]);
    let parsed = ParsedBuffer::parse(&lines).lines;
    assert!(parsed[0].elements.iter().any(|e| e.kind == ElementKind::HeadingH1));
    assert!(parsed[1].elements.iter().any(|e| e.kind == ElementKind::HeadingH1));
    assert!(parsed[1].content_vis.iter().all(|v| !v), "setext underline row has no content");
}

#[test]
fn markdown_buffer_parse_setext_h1_spans_two_rows() {
    check_setext_h1_spans_two_rows();
}

#[test]
fn mod_buffer_parse_setext_h1_spans_two_rows() {
    check_setext_h1_spans_two_rows();
}

fn check_multiline_blockquote() {
    let lines = strings(&["> first line", "> second line"]);
    let parsed = ParsedBuffer::parse(&lines).lines;
    assert!(parsed[0].elements.iter().any(|e| e.kind == ElementKind::Blockquote));
    assert!(parsed[1].elements.iter().any(|e| e.kind == ElementKind::Blockquote));
}

#[test]
fn markdown_buffer_parse_multiline_blockquote() {
    check_multiline_blockquote();
}

#[test]
fn mod_buffer_parse_multiline_blockquote() {
    check_multiline_blockquote();
}

fn check_label_for_hashtag() {
    let line = "see #rust later";
    let parsed = ParsedLine::parse_marked(line, label_marks(&[(4, 9)]));
    let label = parsed.elements.iter().find(|e| matches!(e.kind, ElementKind::Label));
    assert!(label.is_some(), "expected Label element: {:?}", parsed.elements);
    let l = label.unwrap();
    let span: String = line.chars().skip(l.start_char).take(l.end_char - l.start_char).collect();
    assert_eq!(span, "#rust");
}

#[test]
fn markdown_parse_line_emits_label_for_hashtag() {
    check_label_for_hashtag();
}

#[test]
fn mod_parse_line_emits_label_for_hashtag() {
    check_label_for_hashtag();
}

fn check_label_inside_inline_code() {
    // The note index reports `#foo` (bytes 5..9); inline code blocks it.
    let parsed = ParsedLine::parse_marked("use `#foo` here", label_marks(&[(5, 9)]));
    assert!(!parsed.elements.iter().any(|e| matches!(e.kind, ElementKind::Label)));
}

#[test]
fn markdown_parse_line_skips_label_inside_inline_code() {
    check_label_inside_inline_code();
}

#[test]
fn mod_parse_line_skips_label_inside_inline_code() {
    check_label_inside_inline_code();
}

fn check_label_inside_markdown_link() {
    let line = "[see docs](#section) and #real";
    // `#section` (bytes 11..19) sits in the link, `#real` (25..30) does not.
    let parsed = ParsedLine::parse_marked(line, label_marks(&[(11, 19), (25, 30)]));
    let labels = labels_of(&parsed);
    assert_eq!(labels.len(), 1, "only #real should be a label, not #section in the link");
    let (s, e) = labels[0];
    let span: String = line.chars().skip(s).take(e - s).collect();
    assert_eq!(span, "#real");
}

#[test]
fn markdown_parse_line_skips_label_inside_markdown_link() {
    check_label_inside_markdown_link();
}

#[test]
fn mod_parse_line_skips_label_inside_markdown_link() {
    check_label_inside_markdown_link();
}

fn check_label_inside_link_display_text() {
    let parsed = ParsedLine::parse_marked("[#todo](notes/project.md)", label_marks(&[(1, 6)]));
    assert!(!parsed.elements.iter().any(|e| matches!(e.kind, ElementKind::Label)));
}

#[test]
fn markdown_parse_line_skips_label_inside_link_display_text() {
    check_label_inside_link_display_text();
}

#[test]
fn mod_parse_line_skips_label_inside_link_display_text() {
    check_label_inside_link_display_text();
}

fn check_label_after_label_char() {
    let parsed = ParsedLine::parse("foo#bar baz");
    assert!(!parsed.elements.iter().any(|e| matches!(e.kind, ElementKind::Label)));
}

#[test]
fn markdown_parse_line_skips_label_after_label_char() {
    check_label_after_label_char();
}

#[test]
fn mod_parse_line_skips_label_after_label_char() {
    check_label_after_label_char();
}

fn check_label_double_hash() {
    let parsed = ParsedLine::parse("##draft");
    assert!(!parsed.elements.iter().any(|e| matches!(e.kind, ElementKind::Label)));
}

#[test]
fn markdown_parse_line_skips_label_for_double_hash() {
    check_label_double_hash();
}

#[test]
fn mod_parse_line_skips_label_for_double_hash() {
    check_label_double_hash();
}

fn check_label_adjacent_hash_run() {
    let parsed = ParsedLine::parse("#tag#more");
    assert!(labels_of(&parsed).is_empty());
}

#[test]
fn markdown_parse_line_skips_label_for_adjacent_hash_run() {
    check_label_adjacent_hash_run();
}

#[test]
fn mod_parse_line_skips_label_for_adjacent_hash_run() {
    check_label_adjacent_hash_run();
}

fn check_label_inside_fenced_block() {
    let buffer = strings(&["before", "```", "#inside", "```", "after #outside"]);
    let mut marks = Vec::new();
    for (r, _) in buffer.iter().enumerate() {
        marks.push(match r {
            2 => label_marks(&[(0, 7)]),
            4 => label_marks(&[(6, 14)]),
            _ => LineMarks::none(),
        });
    }
    let lines = ParsedBuffer::parse_marked(&buffer, &marks).lines;
    assert!(labels_of(&lines[2]).is_empty(), "no Label emitted for hashtags in fenced blocks");
    assert_eq!(labels_of(&lines[4]).len(), 1, "#outside still extracted");
}

#[test]
fn markdown_parse_buffer_skips_label_inside_fenced_block() {
    check_label_inside_fenced_block();
}

#[test]
fn mod_parse_buffer_skips_label_inside_fenced_block() {
    check_label_inside_fenced_block();
}

fn check_parse_range_full_equals_parse() {
    let lines = strings(&["hello", "world", "", "**bold**"]);
    let full = ParsedBuffer::parse(&lines);
    let range_full = ParsedBuffer::parse_range(&lines, 0..lines.len());
    assert_eq!(full.lines.len(), range_full.lines.len());
    assert_eq!(full.kinds, range_full.kinds);
    for (a, b) in full.lines.iter().zip(range_full.lines.iter()) {
        assert_eq!(a.content_vis, b.content_vis);
        assert_eq!(a.elements.len(), b.elements.len());
    }
}

#[test]
fn markdown_parse_range_full_equals_parse() {
    check_parse_range_full_equals_parse();
}

#[test]
fn mod_parse_range_full_equals_parse() {
    check_parse_range_full_equals_parse();
}

fn check_parse_range_paragraph_only_slice() {
    let lines = strings(&["intro paragraph", "", "middle line", "", "outro"]);
    let slice = ParsedBuffer::parse_range(&lines, 2..3);
    assert_eq!(slice.lines.len(), 1);
    assert_eq!(slice.kinds, vec![LineConstructKind::Plain]);
}

#[test]
fn markdown_parse_range_paragraph_only_slice() {
    check_parse_range_paragraph_only_slice();
}

#[test]
fn mod_parse_range_paragraph_only_slice() {
    check_parse_range_paragraph_only_slice();
}

fn check_splice_replaces_range() {
    let mut pb = ParsedBuffer::parse(&strings(&["alpha", "beta", "gamma"]));
    let replacement = ParsedBuffer::parse(&strings(&["BETA-NEW"]));
    let replacement_kind = replacement.kinds[0];
    pb.splice(1..2, replacement);
    assert_eq!(pb.lines.len(), 3);
    assert_eq!(pb.kinds.len(), 3);
    assert_eq!(pb.kinds[1], replacement_kind, "replacement landed at the wrong index");
}

#[test]
fn markdown_splice_replaces_range() {
    check_splice_replaces_range();
}

#[test]
fn mod_splice_replaces_range() {
    check_splice_replaces_range();
}

#[test]
fn lazy_depth_blockquote_closes_at_first_blank() {
    let lines = strings(&["> a", "", "", "x"]);
    let pb = ParsedBuffer::parse(&lines);
    assert_eq!(pb.lazy_depth, vec![1, 0, 0, 0]);
}

#[test]
fn lazy_depth_indented_code_across_blanks() {
    let lines = strings(&["    code", "", "    more"]);
    let pb = ParsedBuffer::parse(&lines);
    assert_eq!(pb.lazy_depth, vec![1, 1, 1]);
}

#[test]
fn lazy_depth_fenced_code_does_not_count() {
    let lines = strings(&["```", "x", "```", ""]);
    let pb = ParsedBuffer::parse(&lines);
    assert_eq!(pb.lazy_depth, vec![0, 0, 0, 0]);
}

#[test]
fn lazy_depth_blockquote_with_trailing_blank_drops_at_blank() {
    let lines = strings(&["> a", ""]);
    let pb = ParsedBuffer::parse(&lines);
    assert_eq!(pb.lazy_depth, vec![1, 0]);
    assert!(pb.reset_boundaries.contains(&1));
}

#[test]
fn boundaries_skip_rows_inside_lazy_block() {
    let lines = strings(&["    code", "", "    more"]);
    let pb = ParsedBuffer::parse(&lines);
    assert_eq!(pb.reset_boundaries, vec![0, lines.len()]);
}

#[test]
fn parse_of_no_lines_is_one_sentinel() {
    let pb = ParsedBuffer::parse(&Vec::<String>::new());
    assert!(pb.lines.is_empty());
    assert_eq!(pb.reset_boundaries, vec![0]);
}

#[test]
fn placeholder_marks_everything_plain() {
    let lines = strings(&["# x", "", "*y*"]);
    let pb = ParsedBuffer::placeholder(&lines);
    assert_eq!(pb.kinds, vec![LineConstructKind::Plain; 3]);
    assert_eq!(pb.reset_boundaries, vec![0, 3]);
    assert_eq!(pb.lines[0].content_vis, vec![true, true, true]);
    assert!(pb.lines[2].elements.is_empty());
}

#[test]
fn kinds_cover_fences_setext_and_list_continuation() {
    let lines = strings(&["Title", "=====", "- item", "  more", "```", "code", "```", "> q"]);
    let pb = ParsedBuffer::parse(&lines);
    assert_eq!(
        pb.kinds,
        vec![
            LineConstructKind::Plain,
            LineConstructKind::SetextUnderline,
            LineConstructKind::ListMarker,
            LineConstructKind::ListContinuation,
            LineConstructKind::FenceMarker,
            LineConstructKind::FenceContent,
            LineConstructKind::FenceMarker,
            LineConstructKind::Blockquote(1),
        ]
    );
}

#[test]
fn wikilink_mark_hides_brackets() {
    let mut m = LineMarks::none();
    m.wikilinks.push((4, 10));
    let p = ParsedLine::parse_marked("See [[Hi]] x", m);
    let wl = p.elements.iter().find(|e| e.kind == ElementKind::WikiLink).unwrap();
    assert_eq!((wl.start_char, wl.end_char), (4, 10));
    assert!(!p.content_vis[4] && !p.content_vis[5] && p.content_vis[6] && !p.content_vis[8] && !p.content_vis[9]);
}

#[test]
fn elem_lookup_tables_name_the_covering_element() {
    let p = ParsedLine::parse("a **b** c");
    assert_eq!(p.elem_at(0), None);
    assert_eq!(p.elem_at(3), Some(0));
    assert!(p.in_any_element(2));
    assert!(!p.in_any_element(8));
}

#[test]
fn splice_keeps_boundaries_ascending_from_zero_to_row_count() {
    let mut pb = ParsedBuffer::parse(&strings(&["a", "", "b", "", "c"]));
    assert_eq!(pb.reset_boundaries, vec![0, 1, 3, 5]);
    // Replace the blank row 3 with a non-blank one: boundary 3 goes away.
    let other = ParsedBuffer::parse(&strings(&["x"]));
    pb.splice(3..4, other);
    assert_eq!(pb.reset_boundaries, vec![0, 1, 5]);
    // Replace rows 0..2 with a blank first row: the sentinel 0 stays, row 1 is recomputed.
    let other = ParsedBuffer::parse(&strings(&["", "y"]));
    pb.splice(0..2, other);
    assert_eq!(pb.reset_boundaries, vec![0, 5]);
    assert_eq!(pb.lines.len(), 5);
}

#[test]
fn elements_come_out_in_start_order() {
    let mut m = LineMarks::none();
    m.labels.push((12, 16));
    m.wikilinks.push((0, 5));
    let p = ParsedLine::parse_marked("[[a]] **b** #tag", m);
    let starts: Vec<usize> = p.elements.iter().map(|e| e.start_char).collect();
    assert_eq!(starts, vec![0, 6, 12]);
}

// ── element spans of single lines ─────────────────────────────────────────

fn elements_of(line: &str) -> Vec<kimun_editor::markdown::Element> {
    ParsedLine::parse(line).elements
}

fn check_parse_bold_range() {
    let e = elements_of("**bold**");
    let b = e.iter().find(|x| x.kind == ElementKind::Bold).unwrap();
    assert_eq!((b.start_char, b.end_char), (0, 8));
}

#[test]
fn markdown_parse_bold_range() {
    check_parse_bold_range();
}

#[test]
fn mod_parse_bold_range() {
    check_parse_bold_range();
}

fn check_parse_italic() {
    assert!(elements_of("*hi*").iter().any(|e| e.kind == ElementKind::Italic));
}

#[test]
fn markdown_parse_italic() {
    check_parse_italic();
}

#[test]
fn mod_parse_italic() {
    check_parse_italic();
}

fn check_parse_strikethrough() {
    let e = elements_of("~~gone~~");
    let s = e.iter().find(|x| x.kind == ElementKind::Strikethrough).unwrap();
    assert_eq!((s.start_char, s.end_char), (0, 8));
}

#[test]
fn markdown_parse_strikethrough() {
    check_parse_strikethrough();
}

#[test]
fn mod_parse_strikethrough() {
    check_parse_strikethrough();
}

fn check_parse_inline_code() {
    assert!(elements_of("`x`").iter().any(|e| e.kind == ElementKind::InlineCode));
}

#[test]
fn markdown_parse_inline_code() {
    check_parse_inline_code();
}

#[test]
fn mod_parse_inline_code() {
    check_parse_inline_code();
}

fn check_parse_link() {
    assert!(elements_of("[t](u)").iter().any(|e| e.kind == ElementKind::Link));
}

#[test]
fn markdown_parse_link() {
    check_parse_link();
}

#[test]
fn mod_parse_link() {
    check_parse_link();
}

fn check_parse_h1() {
    assert!(elements_of("# T").iter().any(|e| e.kind == ElementKind::HeadingH1));
}

#[test]
fn markdown_parse_h1() {
    check_parse_h1();
}

#[test]
fn mod_parse_h1() {
    check_parse_h1();
}

fn check_parse_h2() {
    assert!(elements_of("## T").iter().any(|e| e.kind == ElementKind::HeadingH2));
}

#[test]
fn markdown_parse_h2() {
    check_parse_h2();
}

#[test]
fn mod_parse_h2() {
    check_parse_h2();
}

fn check_parse_h3() {
    assert!(elements_of("### T").iter().any(|e| e.kind == ElementKind::HeadingH3));
}

#[test]
fn markdown_parse_h3() {
    check_parse_h3();
}

#[test]
fn mod_parse_h3() {
    check_parse_h3();
}

fn check_parse_wikilink() {
    // The wikilink span `[[My Note]]` comes from the note scanner.
    let mut m = LineMarks::none();
    m.wikilinks.push((0, 11));
    let e = ParsedLine::parse_marked("[[My Note]]", m).elements;
    let wl = e.iter().find(|x| x.kind == ElementKind::WikiLink).unwrap();
    assert_eq!((wl.start_char, wl.end_char), (0, 11));
}

#[test]
fn markdown_parse_wikilink() {
    check_parse_wikilink();
}

#[test]
fn mod_parse_wikilink() {
    check_parse_wikilink();
}
