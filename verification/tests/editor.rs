use omninote::editor::{
    EditorEntryPoint as E,
    apply_editor_action, char_index_to_byte, editor_actions_for, fence_marker, inside_code_fence,
    normalized_byte_range, EditTarget, EditorEntryPoint, MdFormat,
};

fn formatted(content: &str, sel: (usize, usize), format: MdFormat) -> String {
    apply_editor_action(content, EditTarget::Selection(sel.0, sel.1), format, None)
        .map(|result| result.content)
        .unwrap_or_else(|| content.to_owned())
}

#[test]
fn egui_char_index_converts_to_utf8_byte_offset() {
    let content = "🙂 café";
    assert_eq!(char_index_to_byte(content, 0), 0);
    assert_eq!(char_index_to_byte(content, 1), 4);
    assert_eq!(char_index_to_byte(content, 5), 8);
    assert_eq!(char_index_to_byte(content, content.chars().count()), 10);
    assert_eq!(char_index_to_byte(content, usize::MAX), 10);
}

#[test]
fn bold_wraps_selection() {
    assert_eq!(formatted("hello world", (0, 5), MdFormat::Bold), "**hello** world");
}

#[test]
fn italic_empty_inserts_markers_at_cursor() {
    assert_eq!(formatted("ab", (1, 1), MdFormat::Italic), "a__b");
}

#[test]
fn link_wraps_selection() {
    assert_eq!(formatted("site", (0, 4), MdFormat::Link), "[site](url)");
}

#[test]
fn heading_prefixes_current_line() {
    assert_eq!(formatted("foo\nbar", (4, 7), MdFormat::H2), "foo\n## bar");
}

#[test]
fn bullet_prefixes_each_line_in_selection() {
    assert_eq!(formatted("a\nb", (0, 3), MdFormat::Bullet), "- a\n- b");
}

#[test]
fn multibyte_selection_not_split() {
    assert_eq!(formatted("café", (0, 5), MdFormat::Bold), "**café**");
}

#[test]
fn range_past_end_is_clamped() {
    assert_eq!(formatted("hi", (0, 99), MdFormat::InlineCode), "`hi`");
}

#[test]
fn line_prefix_selection_ending_in_newline_skips_empty_line() {
    assert_eq!(formatted("a\nb\n", (0, 4), MdFormat::Bullet), "- a\n- b\n");
    assert_eq!(formatted("foo\n", (0, 4), MdFormat::H2), "## foo\n");
}

#[test]
fn formatting_entrypoint_matrix_is_explicit() {
    let all = [
        MdFormat::Bold,
        MdFormat::Italic,
        MdFormat::Strike,
        MdFormat::InlineCode,
        MdFormat::CodeBlock,
        MdFormat::H1,
        MdFormat::H2,
        MdFormat::H3,
        MdFormat::Bullet,
        MdFormat::Numbered,
        MdFormat::Todo,
        MdFormat::Quote,
        MdFormat::Link,
        MdFormat::Wikilink,
        MdFormat::Divider,
        MdFormat::Math,
    ];
    for action in all {
        for entrypoint in [E::NativeMenu, E::SlashMenu, E::CommandPalette, E::UiButton, E::Keyboard] {
            let expected = match entrypoint {
                E::NativeMenu | E::CommandPalette | E::UiButton => true,
                E::SlashMenu => action != MdFormat::Math,
                E::Keyboard => matches!(action, MdFormat::Bold | MdFormat::Italic | MdFormat::Math),
            };
            assert_eq!(action.supports(entrypoint), expected, "routing cell {action:?} x {entrypoint:?}");
            assert_eq!(editor_actions_for(entrypoint).contains(&action), expected);
        }
    }
}

#[test]
fn formatting_semantics_are_exact_for_every_action() {
    let cases = [
        (MdFormat::Bold, "**word**", (2, 6)),
        (MdFormat::Italic, "_word_", (1, 5)),
        (MdFormat::Strike, "~~word~~", (2, 6)),
        (MdFormat::InlineCode, "`word`", (1, 5)),
        (MdFormat::H1, "# word", (2, 6)),
        (MdFormat::H2, "## word", (3, 7)),
        (MdFormat::H3, "### word", (4, 8)),
        (MdFormat::Bullet, "- word", (2, 6)),
        (MdFormat::Numbered, "1. word", (3, 7)),
        (MdFormat::Todo, "- [ ] word", (6, 10)),
        (MdFormat::Quote, "> word", (2, 6)),
        (MdFormat::Link, "[word](url)", (1, 5)),
        (MdFormat::CodeBlock, "```\nword\n```", (4, 8)),
        (MdFormat::Wikilink, "[[word]]", (2, 6)),
        (MdFormat::Divider, "---\nword", (4, 8)),
    ];
    for (action, expected_content, expected_selection) in cases {
        let result = apply_editor_action("word", EditTarget::Selection(0, 4), action, None)
            .unwrap_or_else(|| panic!("{action:?} should change canonical selection"));
        assert_eq!(result.content, expected_content, "content for {action:?}");
        assert_eq!(result.selection, expected_selection, "selection for {action:?}");
    }
    // The evaluator's proposal for "2+2=" at the caret: the whole line, replaced.
    let math = apply_editor_action(
        "2+2=",
        EditTarget::Cursor(4),
        MdFormat::Math,
        Some(("2+2= 4".to_string(), 0, 4)),
    )
    .expect("math action should substitute a complete expression");
    assert_eq!(math.content, "2+2= 4");
    assert_eq!(math.selection, (6, 6));
}

#[test]
fn stale_slash_target_is_a_noop_for_every_action() {
    for action in [
        MdFormat::Bold, MdFormat::Italic, MdFormat::Strike, MdFormat::InlineCode, MdFormat::CodeBlock, MdFormat::H1, MdFormat::H2, MdFormat::H3, MdFormat::Bullet, MdFormat::Numbered, MdFormat::Todo, MdFormat::Quote,
        MdFormat::Link, MdFormat::Wikilink, MdFormat::Divider, MdFormat::Math,
    ] {
        assert_eq!(
            apply_editor_action("á", EditTarget::Slash(99), action, None),
            None,
            "stale slash cell {action:?}"
        );
        assert_eq!(
            apply_editor_action("á", EditTarget::Slash(1), action, None),
            None,
            "mid-codepoint slash cell {action:?}"
        );
    }
}

#[test]
fn slash_target_drops_the_slash() {
    let r = apply_editor_action("a\n/bc", EditTarget::Slash(2), MdFormat::H1, None).unwrap();
    assert_eq!(r.content, "a\n# bc");
    assert_eq!(r.selection, (4, 4));
    assert!(apply_editor_action("/x", EditTarget::Slash(0), MdFormat::Math, None).is_none());
}

#[test]
fn code_block_inside_existing_fence_is_a_noop() {
    assert_eq!(
        apply_editor_action("```\ncode\n```", EditTarget::Selection(5, 8), MdFormat::CodeBlock, None),
        None
    );
}

#[test]
fn consecutive_formats_reuse_the_updated_selection() {
    let bold = apply_editor_action("word", EditTarget::Selection(0, 4), MdFormat::Bold, None).unwrap();
    let italic = apply_editor_action(
        &bold.content,
        EditTarget::Selection(bold.selection.0, bold.selection.1),
        MdFormat::Italic,
        None,
    )
    .unwrap();
    assert_eq!(italic.content, "**_word_**");
    assert_eq!(italic.selection, (3, 7));
}

#[test]
fn fences_are_counted_before_the_position() {
    assert_eq!(fence_marker("  ````rust"), Some(('`', 4)));
    assert_eq!(fence_marker("~~"), None);
    assert!(inside_code_fence("```\ncode\n```", 5));
    assert!(!inside_code_fence("```\ncode\n```\nafter", 14));
    assert!(!inside_code_fence("plain", 2));
}

#[test]
fn normalized_range_orders_clamps_and_snaps() {
    assert_eq!(normalized_byte_range("café", (5, 0)), (0, 5));
    assert_eq!(normalized_byte_range("café", (4, 99)), (5, 5));
    assert_eq!(normalized_byte_range("🙂x", (1, 2)), (4, 4));
}

use omninote::app_state::{content_editor_active_state, CentralOverlay};
use omninote::editor::queued_editor_action;

#[test]
fn format_command_in_read_mode_is_dropped_immediately() {
    let active = content_editor_active_state(false, true, CentralOverlay::Editor, false);
    assert!(queued_editor_action(active, Some(("n_1", 10)), None, MdFormat::Bold).is_none());
}

#[test]
fn format_command_in_typed_discipline_view_is_dropped_immediately() {
    // Editing a discipline note whose typed view is showing.
    let active = content_editor_active_state(true, true, CentralOverlay::Editor, true);
    assert!(queued_editor_action(active, Some(("n_1", 10)), None, MdFormat::Bold).is_none());
}

#[test]
fn format_command_targets_selection_or_note_end() {
    let active = content_editor_active_state(true, true, CentralOverlay::Editor, false);
    let p = queued_editor_action(active, Some(("n_1", 10)), Some((2, 4)), MdFormat::Italic).unwrap();
    assert_eq!(p.note_id, "n_1");
    assert_eq!(p.format, MdFormat::Italic);
    assert_eq!(p.target, EditTarget::Selection(2, 4));
    let p = queued_editor_action(active, Some(("n_1", 10)), None, MdFormat::Bold).unwrap();
    assert_eq!(p.target, EditTarget::Cursor(10));
    assert!(queued_editor_action(active, None, None, MdFormat::Bold).is_none());
}

#[test]
fn every_action_returns_a_boundary_aligned_selection() {
    let fixtures: [(&str, EditTarget); 7] = [
        ("", EditTarget::Selection(0, 0)),
        ("abc", EditTarget::Cursor(0)),
        ("abc", EditTarget::Cursor(3)),
        ("a\nb", EditTarget::Selection(0, 3)),
        ("🙂 café ação", EditTarget::Selection(1, 8)),
        ("```\ncode\n```", EditTarget::Selection(5, 8)),
        ("x\n/y", EditTarget::Slash(2)),
    ];
    for format in editor_actions_for(EditorEntryPoint::NativeMenu) {
        for (content, target) in fixtures {
            if let Some(r) = apply_editor_action(content, target, format, None) {
                let (a, b) = r.selection;
                assert!(a <= b && b <= r.content.len(), "{format:?} on {content:?}");
                assert!(r.content.is_char_boundary(a));
                assert!(r.content.is_char_boundary(b));
            }
        }
    }
}
