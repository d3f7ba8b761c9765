use kimun_editor::nvim::{
    DecodedState, EditorMode, FrameSync, NvimHost, NvimKey, NvimKeyDecision, NvimKeyResult, QuitKind, WireValue,
    NvimSnapshot, apply_lua_state, byte_offset_to_char_idx, decode, lines_of, is_flush_notification,
    classify_nvim_key, needs_snapshot,
};

#[test]
fn byte_to_char_ascii() {
    assert_eq!(byte_offset_to_char_idx("hello", 3), 3);
}

#[test]
fn byte_to_char_multibyte() {
    assert_eq!(byte_offset_to_char_idx("wørld", 3), 2);
}

#[test]
fn byte_to_char_snaps_mid_codepoint() {
    assert_eq!(byte_offset_to_char_idx("wørld", 2), 1);
}

#[test]
fn byte_to_char_past_end_clamps() {
    assert_eq!(byte_offset_to_char_idx("ab", 99), 2);
}

#[test]
fn quit_kinds_derive_their_side_effects() {
    assert!(QuitKind::WriteQuit.saves());
    assert!(!QuitKind::DiscardQuit.saves());
    assert!(QuitKind::Command { save: true }.saves());
    assert!(!QuitKind::Command { save: false }.saves());
    assert!(!QuitKind::WriteQuit.needs_escape());
    assert!(QuitKind::Command { save: false }.needs_escape());
}

#[test]
fn zz_and_zq_quit_from_normal_mode() {
    let mut host = NvimHost::new();
    assert_eq!(host.decide(NvimKey::Char('Z'), &EditorMode::Normal, None), NvimKeyDecision::BufferZ);
    assert_eq!(host.decide(NvimKey::Char('Z'), &EditorMode::Normal, None), NvimKeyDecision::Quit(QuitKind::WriteQuit));
    assert_eq!(host.decide(NvimKey::Char('Z'), &EditorMode::Normal, None), NvimKeyDecision::BufferZ);
    assert_eq!(host.decide(NvimKey::Char('Q'), &EditorMode::Normal, None), NvimKeyDecision::Quit(QuitKind::DiscardQuit));
    assert_eq!(host.decide(NvimKey::Char('Z'), &EditorMode::Normal, None), NvimKeyDecision::BufferZ);
    assert_eq!(host.decide(NvimKey::Char('j'), &EditorMode::Normal, None), NvimKeyDecision::ReplayZThenForward);
    assert_eq!(NvimHost::result_of(NvimKeyDecision::ReplayZThenForward), NvimKeyResult::Forwarded);
    assert_eq!(NvimHost::result_of(NvimKeyDecision::BufferZ), NvimKeyResult::Consumed);
}

#[test]
fn command_line_quits_are_intercepted() {
    let d = |c: &str| classify_nvim_key(false, NvimKey::Enter, &EditorMode::Command, Some(c));
    assert_eq!(d(":wq"), NvimKeyDecision::Quit(QuitKind::Command { save: true }));
    assert_eq!(d(":w report.md"), NvimKeyDecision::Quit(QuitKind::Command { save: true }));
    assert_eq!(d(": wq | echo"), NvimKeyDecision::Quit(QuitKind::Command { save: true }));
    assert_eq!(d(":q!"), NvimKeyDecision::Quit(QuitKind::Command { save: false }));
    assert_eq!(d(":set nu"), NvimKeyDecision::Forward);
    assert_eq!(classify_nvim_key(false, NvimKey::Enter, &EditorMode::Normal, Some(":wq")), NvimKeyDecision::Forward);
    assert!(needs_snapshot(false, NvimKey::Enter));
    assert!(!needs_snapshot(true, NvimKey::Enter));
    assert!(!needs_snapshot(false, NvimKey::Char('a')));
}

#[test]
fn frame_sync_maps_generation_zero_to_revision_one() {
    assert_eq!(FrameSync::from_generation(0, None).rev, Some(1));
    assert_eq!(FrameSync::from_generation(u64::MAX, None).rev, Some(u64::MAX));
}

#[test]
fn char_to_byte_and_back_is_the_identity() {
    let line = "a🦀ü x";
    for k in 0..=line.chars().count() {
        let b = kimun_editor::editor::char_col_to_byte(line, k);
        assert_eq!(byte_offset_to_char_idx(line, b), k);
    }
}

fn key(c: char) -> NvimKey {
    NvimKey::Char(c)
}

fn enter() -> NvimKey {
    NvimKey::Enter
}

#[test]
fn pending_z_then_z_is_write_quit_no_esc() {
    assert_eq!(
        classify_nvim_key(true, key('Z'), &EditorMode::Normal, None),
        NvimKeyDecision::Quit(QuitKind::WriteQuit)
    );
}

#[test]
fn pending_z_then_q_is_quit_no_save() {
    assert_eq!(
        classify_nvim_key(true, key('Q'), &EditorMode::Normal, None),
        NvimKeyDecision::Quit(QuitKind::DiscardQuit)
    );
}

#[test]
fn pending_z_then_other_replays() {
    assert_eq!(
        classify_nvim_key(true, key('x'), &EditorMode::Normal, None),
        NvimKeyDecision::ReplayZThenForward
    );
}

#[test]
fn z_in_normal_buffers() {
    assert_eq!(classify_nvim_key(false, key('Z'), &EditorMode::Normal, None), NvimKeyDecision::BufferZ);
}

#[test]
fn z_in_insert_forwards() {
    assert_eq!(classify_nvim_key(false, key('Z'), &EditorMode::Insert, None), NvimKeyDecision::Forward);
}

#[test]
fn command_wq_saves_and_quits_with_esc() {
    assert_eq!(
        classify_nvim_key(false, enter(), &EditorMode::Command, Some(":wq")),
        NvimKeyDecision::Quit(QuitKind::Command { save: true })
    );
}

#[test]
fn command_q_quits_no_save_with_esc() {
    assert_eq!(
        classify_nvim_key(false, enter(), &EditorMode::Command, Some(":q")),
        NvimKeyDecision::Quit(QuitKind::Command { save: false })
    );
}

#[test]
fn command_q_bang_quits() {
    assert_eq!(
        classify_nvim_key(false, enter(), &EditorMode::Command, Some(":q!")),
        NvimKeyDecision::Quit(QuitKind::Command { save: false })
    );
}

#[test]
fn command_bare_w_saves_and_quits() {
    assert_eq!(
        classify_nvim_key(false, enter(), &EditorMode::Command, Some(":w")),
        NvimKeyDecision::Quit(QuitKind::Command { save: true })
    );
}

#[test]
fn command_write_with_filename_saves_and_quits() {
    assert_eq!(
        classify_nvim_key(false, enter(), &EditorMode::Command, Some(":w report.md")),
        NvimKeyDecision::Quit(QuitKind::Command { save: true })
    );
}

#[test]
fn command_wq_with_bar_and_trailing_space() {
    assert_eq!(
        classify_nvim_key(false, enter(), &EditorMode::Command, Some(":wq | echo hi")),
        NvimKeyDecision::Quit(QuitKind::Command { save: true })
    );
    assert_eq!(
        classify_nvim_key(false, enter(), &EditorMode::Command, Some(":q  ")),
        NvimKeyDecision::Quit(QuitKind::Command { save: false })
    );
}

#[test]
fn command_space_after_colon() {
    assert_eq!(
        classify_nvim_key(false, enter(), &EditorMode::Command, Some(": wq")),
        NvimKeyDecision::Quit(QuitKind::Command { save: true })
    );
}

#[test]
fn command_unknown_forwards() {
    assert_eq!(classify_nvim_key(false, enter(), &EditorMode::Command, Some(":noh")), NvimKeyDecision::Forward);
}

#[test]
fn enter_in_normal_forwards() {
    assert_eq!(classify_nvim_key(false, enter(), &EditorMode::Normal, None), NvimKeyDecision::Forward);
}

#[test]
fn needs_snapshot_only_for_z_and_enter_when_not_pending() {
    assert!(needs_snapshot(false, key('Z')));
    assert!(needs_snapshot(false, enter()));
    assert!(!needs_snapshot(false, key('a')));
    assert!(!needs_snapshot(false, key('Q')));
    assert!(!needs_snapshot(true, key('Z')));
    assert!(!needs_snapshot(true, enter()));
    assert!(!needs_snapshot(true, key('x')));
}

#[test]
fn regular_char_forwards() {
    assert_eq!(classify_nvim_key(false, key('a'), &EditorMode::Insert, None), NvimKeyDecision::Forward);
}

#[test]
fn mode_codes_name_the_editor_modes() {
    assert_eq!(EditorMode::from_nvim_str("n"), EditorMode::Normal);
    assert_eq!(EditorMode::from_nvim_str("i"), EditorMode::Insert);
    assert_eq!(EditorMode::from_nvim_str("v"), EditorMode::Visual);
    assert_eq!(EditorMode::from_nvim_str("V"), EditorMode::VisualLine);
    assert_eq!(EditorMode::from_nvim_str("c"), EditorMode::Command);
    assert_eq!(EditorMode::from_nvim_str("no"), EditorMode::Other("no".into()));
}

fn s(text: &str) -> WireValue {
    WireValue::Str(text.to_string())
}

fn u(n: u64) -> WireValue {
    WireValue::UInt(n)
}

fn arr(items: Vec<WireValue>) -> WireValue {
    WireValue::Array(items)
}

#[test]
fn decode_non_array_is_none() {
    assert_eq!(decode(&s("nope")), None);
}

#[test]
fn decode_missing_mode_is_none() {
    assert_eq!(decode(&arr(vec![])), None);
}

#[test]
fn decode_normal_cursor_ascii() {
    let v = arr(vec![
        s("n"),
        arr(vec![s("hello"), s("world")]),
        arr(vec![u(2), u(3)]),
        arr(vec![u(0), u(0), u(0), u(0)]),
    ]);
    let d = decode(&v).unwrap();
    assert_eq!(
        d,
        DecodedState::Content {
            mode: EditorMode::Normal,
            lines: vec!["hello".into(), "world".into()],
            cursor: (1, 3),
            visual_selection: None,
        }
    );
}

#[test]
fn decode_cursor_multibyte_converts_byte_to_char() {
    let v = arr(vec![s("n"), arr(vec![s("wørld")]), arr(vec![u(1), u(4)]), arr(vec![u(0), u(0), u(0), u(0)])]);
    match decode(&v).unwrap() {
        DecodedState::Content { cursor, .. } => assert_eq!(cursor, (0, 3)),
        other => panic!("expected Content, got {other:?}"),
    }
}

#[test]
fn decode_empty_buffer_normalises_to_single_blank_line() {
    let v = arr(vec![s("n"), arr(vec![]), arr(vec![u(1), u(0)]), arr(vec![u(0), u(0), u(0), u(0)])]);
    match decode(&v).unwrap() {
        DecodedState::Content { lines, cursor, .. } => {
            assert_eq!(lines, vec![String::new()]);
            assert_eq!(cursor, (0, 0));
        }
        other => panic!("expected Content, got {other:?}"),
    }
}

#[test]
fn decode_unknown_mode_is_other() {
    let v = arr(vec![s("t"), arr(vec![s("x")]), arr(vec![u(1), u(0)]), arr(vec![u(0), u(0), u(0), u(0)])]);
    match decode(&v).unwrap() {
        DecodedState::Content { mode, .. } => assert_eq!(mode, EditorMode::Other("t".into())),
        other => panic!("expected Content, got {other:?}"),
    }
}

#[test]
fn decode_command_mode_concatenates_type_and_line() {
    let v = arr(vec![s("c"), s(":"), s("set nu")]);
    assert_eq!(decode(&v).unwrap(), DecodedState::Command { cmdline: ":set nu".into() });
}

#[test]
fn decode_command_search_prefix() {
    let v = arr(vec![s("c"), s("/"), s("pattern")]);
    assert_eq!(decode(&v).unwrap(), DecodedState::Command { cmdline: "/pattern".into() });
}

#[test]
fn decode_visual_anchor_before_cursor() {
    let v = arr(vec![s("v"), arr(vec![s("abcdef")]), arr(vec![u(1), u(3)]), arr(vec![u(0), u(1), u(1), u(0)])]);
    match decode(&v).unwrap() {
        DecodedState::Content { visual_selection, .. } => assert_eq!(visual_selection, Some(((0, 0), (0, 3)))),
        other => panic!("expected Content, got {other:?}"),
    }
}

#[test]
fn decode_visual_anchor_after_cursor_orders_start_end() {
    let v = arr(vec![s("v"), arr(vec![s("abcdef")]), arr(vec![u(1), u(1)]), arr(vec![u(0), u(1), u(5), u(0)])]);
    match decode(&v).unwrap() {
        DecodedState::Content { visual_selection, .. } => assert_eq!(visual_selection, Some(((0, 1), (0, 4)))),
        other => panic!("expected Content, got {other:?}"),
    }
}

#[test]
fn decode_visual_line_spans_full_columns() {
    let v = arr(vec![
        s("V"),
        arr(vec![s("abc"), s("defgh")]),
        arr(vec![u(2), u(2)]),
        arr(vec![u(0), u(1), u(1), u(0)]),
    ]);
    match decode(&v).unwrap() {
        DecodedState::Content { mode, visual_selection, .. } => {
            assert_eq!(mode, EditorMode::VisualLine);
            assert_eq!(visual_selection, Some(((0, 0), (1, usize::MAX))));
        }
        other => panic!("expected Content, got {other:?}"),
    }
}

#[test]
fn decode_visual_with_zero_lnum_anchor_is_none() {
    let v = arr(vec![s("v"), arr(vec![s("abc")]), arr(vec![u(1), u(0)]), arr(vec![u(0), u(0), u(0), u(0)])]);
    match decode(&v).unwrap() {
        DecodedState::Content { visual_selection, .. } => assert_eq!(visual_selection, None),
        other => panic!("expected Content, got {other:?}"),
    }
}

#[test]
fn decode_skips_non_strings_and_reads_a_missing_cursor_as_origin() {
    let v = arr(vec![s("n"), arr(vec![s("a"), u(7), s("b")]), arr(vec![u(5)])]);
    match decode(&v).unwrap() {
        DecodedState::Content { lines, cursor, visual_selection, .. } => {
            assert_eq!(lines, vec!["a".to_string(), "b".to_string()]);
            assert_eq!(cursor, (0, 0));
            assert_eq!(visual_selection, None);
        }
        other => panic!("expected Content, got {other:?}"),
    }
}

#[test]
fn decode_a_cursor_past_the_last_row_keeps_its_byte_column() {
    let v = arr(vec![s("n"), arr(vec![s("é")]), arr(vec![u(3), u(2)])]);
    match decode(&v).unwrap() {
        DecodedState::Content { cursor, .. } => assert_eq!(cursor, (2, 2)),
        other => panic!("expected Content, got {other:?}"),
    }
}

fn snapshot(lines: &[&str]) -> NvimSnapshot {
    NvimSnapshot {
        lines: lines.iter().map(|l| l.to_string()).collect(),
        cursor: (0, 0),
        mode: EditorMode::Normal,
        cmdline: Some(":old".into()),
        visual_selection: None,
        dirty: false,
        content_gen: 7,
    }
}

#[test]
fn a_changed_buffer_marks_the_snapshot_dirty_and_bumps_its_generation() {
    let mut snap = snapshot(&["a"]);
    let v = arr(vec![s("i"), arr(vec![s("ab")]), arr(vec![u(1), u(2)])]);
    apply_lua_state(&mut snap, &v, false);
    assert_eq!(snap.lines, vec!["ab".to_string()]);
    assert!(snap.dirty);
    assert_eq!(snap.content_gen, 8);
    assert_eq!(snap.cursor, (0, 2));
    assert_eq!(snap.mode, EditorMode::Insert);
    assert_eq!(snap.cmdline, None);
}

#[test]
fn an_unchanged_buffer_or_a_load_in_flight_keeps_the_generation() {
    let mut snap = snapshot(&["a"]);
    let same = arr(vec![s("n"), arr(vec![s("a")]), arr(vec![u(1), u(1)])]);
    apply_lua_state(&mut snap, &same, false);
    assert!(!snap.dirty);
    assert_eq!(snap.content_gen, 7);
    assert_eq!(snap.cursor, (0, 1));
    let other = arr(vec![s("n"), arr(vec![s("zzz")]), arr(vec![u(1), u(0)])]);
    apply_lua_state(&mut snap, &other, true);
    assert_eq!(snap.lines, vec!["a".to_string()]);
    assert_eq!(snap.content_gen, 7);
}

#[test]
fn a_command_line_response_sets_only_the_mode_and_the_line() {
    let mut snap = snapshot(&["a"]);
    apply_lua_state(&mut snap, &arr(vec![s("c"), s(":"), s("wq")]), false);
    assert_eq!(snap.mode, EditorMode::Command);
    assert_eq!(snap.cmdline.as_deref(), Some(":wq"));
    assert_eq!(snap.lines, vec!["a".to_string()]);
    apply_lua_state(&mut snap, &s("junk"), false);
    assert_eq!(snap.cmdline.as_deref(), Some(":wq"));
}

#[test]
fn the_generation_wraps_around() {
    let mut snap = snapshot(&["a"]);
    snap.content_gen = u64::MAX;
    apply_lua_state(&mut snap, &arr(vec![s("n"), arr(vec![s("b")])]), false);
    assert_eq!(snap.content_gen, 0);
}

#[test]
fn frame_sync_mirrors_the_snapshot_generation_and_selection() {
    let mut snap = snapshot(&["abc"]);
    snap.visual_selection = Some(((0, 0), (0, 2)));
    let f = NvimHost::new().frame_sync(&snap);
    assert_eq!(f.rev, Some(8));
    assert_eq!(f.selection, Some(((0, 0), (0, 2))));
}

#[test]
fn lines_split_like_str_lines() {
    for text in ["", "a", "a\nb", "a\nb\n", "a\r\nb\r\n", "foo\rbar\n\nbaz\r", "\n", "\n\n", "é\n🦀"] {
        let want: Vec<String> = text.lines().map(String::from).collect();
        assert_eq!(lines_of(text), want, "{text:?}");
    }
}

#[test]
fn loading_text_resets_the_mirror_and_bumps_its_generation() {
    let mut snap = snapshot(&["old", "rows"]);
    snap.dirty = true;
    snap.cursor = (1, 2);
    let sent = snap.set_text("one\ntwo\n");
    assert_eq!(sent, vec!["one".to_string(), "two".to_string()]);
    assert_eq!(snap.lines, sent);
    assert_eq!(snap.cursor, (0, 0));
    assert!(!snap.dirty);
    assert_eq!(snap.content_gen, 8);
    assert_eq!(snap.cmdline.as_deref(), Some(":old"));
}

#[test]
fn loading_empty_text_keeps_one_empty_row() {
    let mut snap = snapshot(&["x"]);
    snap.content_gen = u64::MAX;
    let sent = snap.set_text("");
    assert!(sent.is_empty());
    assert_eq!(snap.lines, vec![String::new()]);
    assert_eq!(snap.content_gen, 0);
}

#[test]
fn the_cursor_row_is_clamped_to_the_mirrored_rows() {
    let mut snap = snapshot(&["a", "b"]);
    snap.cursor = (5, 3);
    assert_eq!(snap.clamped_cursor(), (1, 3));
    snap.cursor = (1, 0);
    assert_eq!(snap.clamped_cursor(), (1, 0));
    snap.lines.clear();
    snap.cursor = (2, 1);
    assert_eq!(snap.clamped_cursor(), (0, 1));
}

#[test]
fn a_redraw_with_a_flush_event_ends_the_batch() {
    let batch = arr(vec![arr(vec![s("grid_line"), u(1)]), arr(vec![s("flush")])]);
    assert!(is_flush_notification("redraw", &[batch]));
    let later = arr(vec![arr(vec![s("flush")])]);
    assert!(is_flush_notification("redraw", &[arr(vec![]), s("x"), later]));
}

#[test]
fn other_notifications_do_not_end_a_batch() {
    let batch = arr(vec![arr(vec![s("flush")])]);
    assert!(!is_flush_notification("nvim_buf_lines_event", &[batch]));
    let no_flush = arr(vec![arr(vec![s("grid_line")]), s("flush")]);
    assert!(!is_flush_notification("redraw", &[no_flush]));
    assert!(!is_flush_notification("redraw", &[]));
    let flush_later_in_event = arr(vec![arr(vec![u(0), s("flush")])]);
    assert!(!is_flush_notification("redraw", &[flush_later_in_event]));
}
