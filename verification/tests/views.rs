use omninote::a11y::{spaced_caps, IconButtonSpec};
use omninote::app_state::{content_editor_active_state, toggle_central_overlay, CentralOverlay, TicketFilter};
use omninote::breadcrumb::{breadcrumb_path, transitioned_read_edit, word_count, ReadEditMode, ReadEditState};
use omninote::calendar::{days_in_month, first_weekday, DOW_PT, MONTHS_PT};
use omninote::outline::outline;
use omninote::tabs::truncate_title;
use omninote::timeline::change_glyph;

#[test]
fn spaced_caps_uppercases_and_separates() {
    let s = spaced_caps("notes");
    assert!(s.starts_with('N'));
    assert!(s.contains('\u{2009}'), "thin space between glyphs");
    // 5 letters → 4 separators interleaved.
    assert_eq!(s.matches('\u{2009}').count(), 4);
    assert_eq!(s.chars().filter(|c| c.is_alphabetic()).count(), 5);
}

#[test]
fn spaced_caps_handles_empty() {
    assert_eq!(spaced_caps(""), "");
}

#[test]
fn spaced_caps_exact_value() {
    assert_eq!(spaced_caps("ab"), "A\u{2009}B");
    assert_eq!(spaced_caps("x"), "X");
}

#[test]
fn tooltip_text_names_reason_shortcut_or_label() {
    let base = IconButtonSpec::new("⚙", "Configurações");
    assert_eq!(base.tooltip_text(), "Configurações");
    assert_eq!(base.shortcut("Ctrl+,").tooltip_text(), "Configurações (Ctrl+,)");
    let off = base.shortcut("Ctrl+,").enabled(false, "sem vault");
    assert_eq!(off.tooltip_text(), "Configurações — sem vault");
    assert!(!off.enabled);
    assert_eq!(off.disabled_reason, Some("sem vault"));
    let on = off.enabled(true, "ignored");
    assert!(on.enabled);
    assert_eq!(on.disabled_reason, None);
    assert!(base.selected(true).selected);
    assert!(!base.selected);
}

#[test]
fn breadcrumb_joins_parent_segments() {
    assert_eq!(breadcrumb_path("Daily/2026/2026-05-20.md"), "Daily / 2026");
}

#[test]
fn breadcrumb_empty_for_root_note() {
    assert_eq!(breadcrumb_path("note.md"), "");
}

#[test]
fn breadcrumb_skips_empty_and_dot_components() {
    assert_eq!(breadcrumb_path("a//./b/c.md"), "a / b");
    assert_eq!(breadcrumb_path("/abs/x.md"), "/ / abs");
}

#[test]
fn word_count_counts_whitespace_tokens() {
    assert_eq!(word_count("um dois  três\nquatro"), 4);
    assert_eq!(word_count("   "), 0);
    assert_eq!(word_count(""), 0);
}

#[test]
fn discipline_edit_mode_preserves_the_typed_read_preference() {
    assert_eq!(
        transitioned_read_edit(
            ReadEditState {
                editing: false,
                discipline_typed: true,
            },
            ReadEditMode::Edit,
        ),
        ReadEditState {
            editing: true,
            discipline_typed: true,
        }
    );
}

#[test]
fn discipline_read_mode_restores_the_previous_raw_preference() {
    assert_eq!(
        transitioned_read_edit(
            ReadEditState {
                editing: true,
                discipline_typed: false,
            },
            ReadEditMode::Read,
        ),
        ReadEditState {
            editing: false,
            discipline_typed: false,
        }
    );
}

#[test]
fn regular_note_preserves_the_discipline_preference() {
    let state = ReadEditState {
        editing: false,
        discipline_typed: true,
    };
    assert_eq!(
        transitioned_read_edit(state, ReadEditMode::Edit),
        ReadEditState {
            editing: true,
            discipline_typed: true,
        }
    );
    assert_eq!(transitioned_read_edit(state, ReadEditMode::Read), state);
}

#[test]
fn transition_twice_is_transition_once() {
    let s = ReadEditState {
        editing: true,
        discipline_typed: false,
    };
    for m in [ReadEditMode::Read, ReadEditMode::Edit] {
        let once = transitioned_read_edit(s, m);
        assert_eq!(transitioned_read_edit(once, m), once);
    }
}

#[test]
fn days_in_month_handles_leap_and_short() {
    assert_eq!(days_in_month(2024, 2), 29); // leap
    assert_eq!(days_in_month(2026, 2), 28);
    assert_eq!(days_in_month(2026, 4), 30);
    assert_eq!(days_in_month(2026, 12), 31);
}

#[test]
fn days_in_month_century_rules() {
    assert_eq!(days_in_month(1900, 2), 28);
    assert_eq!(days_in_month(2000, 2), 29);
    assert_eq!(days_in_month(2026, 1), 31);
}

#[test]
fn first_weekday_is_sunday_indexed() {
    // 2026-06-01 is a Monday → 1.
    assert_eq!(first_weekday(2026, 6), 1);
}

#[test]
fn first_weekday_more_months() {
    // 2026-02-01 is a Sunday, 2024-03-01 a Friday, 2000-01-01 a Saturday.
    assert_eq!(first_weekday(2026, 2), 0);
    assert_eq!(first_weekday(2024, 3), 5);
    assert_eq!(first_weekday(2000, 1), 6);
}

#[test]
fn pt_br_labels_present() {
    assert_eq!(DOW_PT[0], "Dom");
    assert_eq!(MONTHS_PT[2], "Março");
}

#[test]
fn outline_extracts_atx_headings_with_depth() {
    let md = "# Title\nbody\n## Section\n### Sub\nnot # a heading\n";
    let hs = outline(md);
    assert_eq!(hs.len(), 3);
    assert_eq!(hs[0].depth, 1);
    assert_eq!(hs[0].text, "Title");
    assert_eq!(hs[2].depth, 3);
    assert_eq!(hs[2].text, "Sub");
}

#[test]
fn outline_skips_fenced_code() {
    let md = "# Real\n```\n# fake heading in code\n```\n## AlsoReal\n";
    let hs = outline(md);
    assert_eq!(hs.len(), 2);
    assert_eq!(hs[0].text, "Real");
    assert_eq!(hs[1].text, "AlsoReal");
}

#[test]
fn outline_requires_space_after_hashes() {
    // `#tag` (no space) is not a heading.
    let hs = outline("#tag\n#### deep\n");
    assert_eq!(hs.len(), 1);
    assert_eq!(hs[0].depth, 4);
    assert_eq!(hs[0].text, "deep");
}

#[test]
fn outline_depth_stays_between_one_and_six() {
    let hs = outline("####### seven\n###### six\n  # indented\n");
    assert_eq!(hs.len(), 2);
    assert_eq!(hs[0].depth, 6);
    assert_eq!(hs[0].text, "six");
    assert_eq!(hs[1].depth, 1);
    assert_eq!(hs[1].text, "indented");
}

#[test]
fn short_title_is_unchanged() {
    assert_eq!(truncate_title("curto", 24), "curto");
}

#[test]
fn long_title_is_truncated_with_ellipsis() {
    let long = "um título bem longo que ultrapassa o limite";
    let t = truncate_title(long, 10);
    assert_eq!(t.chars().count(), 10);
    assert!(t.ends_with('…'));
}

#[test]
fn truncate_respects_char_boundaries() {
    // Multibyte chars must not be sliced mid-codepoint.
    let t = truncate_title("áéíóúçãõ-extra-long-tail", 5);
    assert_eq!(t.chars().count(), 5);
    assert!(t.starts_with('á'));
}

#[test]
fn truncate_exact_value_and_zero_budget() {
    assert_eq!(truncate_title("abcdef", 4), "abc…");
    assert_eq!(truncate_title("abcdef", 6), "abcdef");
    assert_eq!(truncate_title("abc", 0), "…");
}

#[test]
fn change_glyph_maps_statuses() {
    assert_eq!(change_glyph("A"), "⊕");
    assert_eq!(change_glyph("M"), "✎");
    assert_eq!(change_glyph("D"), "⊝");
    assert_eq!(change_glyph("R"), "⤴");
    assert_eq!(change_glyph("C"), "⊕");
    assert_eq!(change_glyph("R100"), "⤴");
    // Unknown → ✎.
    assert_eq!(change_glyph("Z"), "✎");
    assert_eq!(change_glyph(""), "✎");
}

#[test]
fn central_overlay_defaults_to_none() {
    assert_eq!(CentralOverlay::default(), CentralOverlay::Editor);
    assert_eq!(TicketFilter::default(), TicketFilter::All);
}

#[test]
fn toggle_central_overlay_flips_tickets_and_timeline() {
    // A press opens, a second press of the same target returns to the editor.
    let (o, _) = toggle_central_overlay(CentralOverlay::Editor, CentralOverlay::Tickets);
    assert_eq!(o, CentralOverlay::Tickets);
    let (o, _) = toggle_central_overlay(o, CentralOverlay::Tickets);
    assert_eq!(o, CentralOverlay::Editor);

    let (o, _) = toggle_central_overlay(o, CentralOverlay::Timeline);
    assert_eq!(o, CentralOverlay::Timeline);
    // Switching directly to the other overlay (not toggling off) works too.
    let (o, _) = toggle_central_overlay(o, CentralOverlay::Tickets);
    assert_eq!(o, CentralOverlay::Tickets);
}

#[test]
fn opening_timeline_clears_stale_cache() {
    let (o, drop_cache) = toggle_central_overlay(CentralOverlay::Editor, CentralOverlay::Timeline);
    assert_eq!(o, CentralOverlay::Timeline);
    assert!(drop_cache, "cache cleared on open");
    let (o, drop_cache) = toggle_central_overlay(o, CentralOverlay::Timeline);
    assert_eq!(o, CentralOverlay::Editor);
    assert!(!drop_cache);
}

#[test]
fn content_editor_active_only_when_nothing_covers_it() {
    assert!(content_editor_active_state(true, true, CentralOverlay::Editor, false));
    assert!(!content_editor_active_state(false, true, CentralOverlay::Editor, false));
    assert!(!content_editor_active_state(true, false, CentralOverlay::Editor, false));
    assert!(!content_editor_active_state(true, true, CentralOverlay::Tickets, false));
    assert!(!content_editor_active_state(true, true, CentralOverlay::Editor, true));
}

use omninote::breadcrumb::{read_edit_request, toggle_target};

fn toggle(s: ReadEditState) -> ReadEditState {
    read_edit_request(s, toggle_target(s.editing)).expect("a toggle always switches")
}

#[test]
fn shortcut_mode_toggle_uses_the_discipline_transition() {
    // A discipline note opens in read mode with the typed view on.
    let s = ReadEditState {
        editing: false,
        discipline_typed: true,
    };
    let s = toggle(s);
    assert!(s.editing);
    assert!(s.discipline_typed);
    let s = toggle(s);
    assert!(!s.editing);
    assert!(s.discipline_typed);
}

#[test]
fn shortcut_mode_toggle_restores_the_raw_read_preference() {
    let s = ReadEditState {
        editing: false,
        discipline_typed: false,
    };
    let s = toggle(s);
    assert!(s.editing);
    assert!(!s.discipline_typed);
    let s = toggle(s);
    assert!(!s.editing);
    assert!(!s.discipline_typed);
}

#[test]
fn selecting_the_active_read_mode_is_idempotent() {
    let s = ReadEditState {
        editing: false,
        discipline_typed: false,
    };
    // Nothing changes, so the editor keeps its transient state (selection).
    assert_eq!(read_edit_request(s, ReadEditMode::Read), None);
    assert_eq!(
        read_edit_request(s, ReadEditMode::Edit),
        Some(ReadEditState {
            editing: true,
            discipline_typed: false,
        })
    );
}
