use omninote::app_state::TicketFilter;
use omninote::discipline::{ticket_matches_filter, Provider, Ticket};
use omninote::import::stem;
use omninote::mcp::{default_limit, default_top_k};
use omninote::toasts::{Toast, ToastKind};

fn ticket(status: &str) -> Ticket {
    Ticket {
        provider: Provider::Jira,
        id: "CAD-1".into(),
        title: "t".into(),
        status: status.into(),
        meta: String::new(),
    }
}

#[test]
fn ticket_filter_keeps_its_own_bucket() {
    let doing = ticket("In Progress");
    let done = ticket("✅ Done");
    let todo = ticket("backlog");
    let blocked = ticket("⛔ blocked");
    for t in [&doing, &done, &todo, &blocked] {
        assert!(ticket_matches_filter(t, TicketFilter::All));
    }
    assert!(ticket_matches_filter(&doing, TicketFilter::Doing));
    assert!(!ticket_matches_filter(&done, TicketFilter::Doing));
    assert!(ticket_matches_filter(&done, TicketFilter::Done));
    assert!(ticket_matches_filter(&todo, TicketFilter::Todo));
    assert!(!ticket_matches_filter(&blocked, TicketFilter::Todo));
    assert!(!ticket_matches_filter(&blocked, TicketFilter::Done));
    assert!(!ticket_matches_filter(&blocked, TicketFilter::Doing));
}

#[test]
fn stem_drops_folder_and_extension() {
    assert_eq!(stem("docs/Reunião.md"), "Reunião");
    assert_eq!(stem("/tmp/archive.tar.gz"), "archive.tar");
    assert_eq!(stem(".bashrc"), ".bashrc");
    assert_eq!(stem("README"), "README");
    assert_eq!(stem("dir/.."), "Importado");
    assert_eq!(stem("/"), "Importado");
    assert_eq!(stem(""), "Importado");
}

#[test]
fn mcp_defaults() {
    assert_eq!(default_limit(), 50);
    assert_eq!(default_top_k(), 5);
}

#[test]
fn toast_keeps_text_and_kind() {
    let t = Toast::new("Nota salva".to_string(), ToastKind::Success, 3);
    assert_eq!(t.text, "Nota salva");
    assert!(t.kind == ToastKind::Success);
    let c = t.clone();
    assert_eq!(c.text, t.text);
    assert!(c.expires == t.expires);
    assert!(t.expires > std::time::Instant::now());
}

use omninote::discipline::{
    provider_tag, sacred_file_name, sprint_active, sprint_tasks, status_count, visible_tickets, TaskStatus,
};
use omninote::editor::slash_menu_pos_after;
use omninote::theme::{effective_theme_preset, toggle_light_dark, ThemeChoice, ThemePreset};
use omninote::timeline::timeline_cache_stale;

#[test]
fn toggle_light_dark_flips_within_the_family() {
    let mut c = ThemeChoice {
        theme_preset: ThemePreset::AlmanacLight,
        dark_mode: false,
    };
    toggle_light_dark(&mut c);
    assert_eq!(c.theme_preset, ThemePreset::AlmanacDark);
    assert!(c.dark_mode);
    toggle_light_dark(&mut c);
    assert_eq!(c.theme_preset, ThemePreset::AlmanacLight);
    assert!(!c.dark_mode);

    let mut hc = ThemeChoice {
        theme_preset: ThemePreset::HighContrast,
        dark_mode: true,
    };
    toggle_light_dark(&mut hc);
    assert_eq!(hc.theme_preset, ThemePreset::HighContrast);
    assert!(!hc.dark_mode);

    // Out of sync (legacy Obsidian Dark with dark mode off): one flip resyncs.
    let mut legacy = ThemeChoice {
        theme_preset: ThemePreset::ObsidianDark,
        dark_mode: false,
    };
    toggle_light_dark(&mut legacy);
    assert_eq!(legacy.theme_preset, ThemePreset::ObsidianDark);
    assert!(legacy.dark_mode);

    let mut bp = ThemeChoice {
        theme_preset: ThemePreset::Blueprint,
        dark_mode: true,
    };
    toggle_light_dark(&mut bp);
    assert_eq!(bp.theme_preset, ThemePreset::BlueprintLight);
}

#[test]
fn legacy_obsidian_dark_without_dark_mode_is_light() {
    let legacy = ThemeChoice {
        theme_preset: ThemePreset::ObsidianDark,
        dark_mode: false,
    };
    assert_eq!(effective_theme_preset(&legacy), ThemePreset::ObsidianLight);
    let dark = ThemeChoice {
        theme_preset: ThemePreset::ObsidianDark,
        dark_mode: true,
    };
    assert_eq!(effective_theme_preset(&dark), ThemePreset::ObsidianDark);
    let swiss = ThemeChoice {
        theme_preset: ThemePreset::Swiss,
        dark_mode: false,
    };
    assert_eq!(effective_theme_preset(&swiss), ThemePreset::Swiss);
}

#[test]
fn slash_menu_opens_at_line_start_and_closes_when_caret_leaves() {
    assert_eq!(slash_menu_pos_after("/", 1, None), Some(0));
    assert_eq!(slash_menu_pos_after("ab\n/", 4, None), Some(3));
    // Mid-line slash does not open it.
    assert_eq!(slash_menu_pos_after("a/", 2, None), None);
    // An open menu stays while typing after the slash…
    assert_eq!(slash_menu_pos_after("/he", 3, Some(0)), Some(0));
    // …and closes once the caret moves before it or the slash is gone.
    assert_eq!(slash_menu_pos_after("x\n/he", 1, Some(2)), None);
    assert_eq!(slash_menu_pos_after("he", 2, Some(0)), None);
    assert_eq!(slash_menu_pos_after("", 0, Some(0)), None);
}

fn ticket2(id: &str, title: &str, status: &str, provider: Provider) -> Ticket {
    Ticket {
        provider,
        id: id.into(),
        title: title.into(),
        status: status.into(),
        meta: String::new(),
    }
}

#[test]
fn visible_tickets_apply_filter_and_query() {
    let ts = vec![
        ticket2("CAD-25", "Redesign UI", "In Progress", Provider::Notion),
        ticket2("SCRUM-3", "Fix login", "To Do", Provider::Jira),
        ticket2("CAD-7", "Ship docs", "✅ Done", Provider::Notion),
    ];
    assert_eq!(visible_tickets(&ts, TicketFilter::All, ""), vec![0, 1, 2]);
    assert_eq!(visible_tickets(&ts, TicketFilter::Doing, ""), vec![0]);
    assert_eq!(visible_tickets(&ts, TicketFilter::All, "cad"), vec![0, 2]);
    assert_eq!(visible_tickets(&ts, TicketFilter::All, "LOGIN"), vec![1]);
    assert_eq!(visible_tickets(&ts, TicketFilter::Done, "redesign"), Vec::<usize>::new());
    assert_eq!(provider_tag(Provider::Notion), "N");
    assert_eq!(provider_tag(Provider::Jira), "J");
}

#[test]
fn sprint_counts_and_activity() {
    let raw = "| ID | Tarefa | Status |\n|---|---|---|\n| T1 | a | ✅ |\n| T2 | b | 🚧 |\n| T3 | c | blocked |\n| T4 | d | |\n";
    let tasks = sprint_tasks(raw);
    assert_eq!(tasks.len(), 4);
    assert_eq!(status_count(&tasks, TaskStatus::Done), 1);
    assert_eq!(status_count(&tasks, TaskStatus::Doing), 1);
    assert_eq!(status_count(&tasks, TaskStatus::Blocked), 1);
    assert_eq!(status_count(&tasks, TaskStatus::Todo), 1);
    assert!(sprint_active(&tasks));
    let done_only = sprint_tasks("- [x] feito\n");
    assert!(!sprint_active(&done_only));
    assert!(!sprint_active(&[]));
}

#[test]
fn sacred_file_name_matches_locations() {
    assert_eq!(sacred_file_name("discipline/SPRINT.md"), Some("SPRINT.md".to_string()));
    assert_eq!(sacred_file_name("SPRINT.md"), Some("SPRINT.md".to_string()));
    assert_eq!(sacred_file_name("discipline/DIARY.md"), Some("DIARY.md".to_string()));
    assert_eq!(sacred_file_name("Projetos/DIARY.md"), None);
    assert_eq!(sacred_file_name("Archive/SPRINT.md"), None);
    assert_eq!(sacred_file_name("discipline/sub/DIARY.md"), None);
    assert_eq!(sacred_file_name("/DIARY.md"), None);
}

#[test]
fn timeline_cache_is_keyed_by_root_and_token() {
    assert!(timeline_cache_stale(None, "/v", "7d"));
    assert!(!timeline_cache_stale(Some(("/v", "7d")), "/v", "7d"));
    assert!(!timeline_cache_stale(Some(("/v/", "7d")), "/v", "7d"));
    assert!(timeline_cache_stale(Some(("/v", "1d")), "/v", "7d"));
    assert!(timeline_cache_stale(Some(("/w", "7d")), "/v", "7d"));
}

use omninote::mcp::{passage_wikilink, stale_note_ids};

#[test]
fn stale_ids_are_the_indexed_ones_without_a_note() {
    let indexed: Vec<String> = ["a", "b", "a", "c", "b"].iter().map(|s| s.to_string()).collect();
    let alive: Vec<String> = ["b", "z"].iter().map(|s| s.to_string()).collect();
    assert_eq!(stale_note_ids(&indexed, &alive), vec!["a".to_string(), "c".to_string()]);
    assert!(stale_note_ids(&indexed, &indexed).is_empty());
    assert!(stale_note_ids(&[], &alive).is_empty());
}

#[test]
fn passage_wikilink_prefers_the_note_title() {
    let notes = vec![
        ("n_1".to_string(), "Reunião".to_string()),
        ("n_2".to_string(), "Plano".to_string()),
        ("n_2".to_string(), "Duplicado".to_string()),
    ];
    assert_eq!(passage_wikilink(&notes, "n_2"), "[[Plano]]");
    assert_eq!(passage_wikilink(&notes, "n_9"), "[[n_9]]");
    assert_eq!(passage_wikilink(&[], "x"), "[[x]]");
}

use omninote::calendar::days_in_month;
use omninote::discipline::label_chips;
use omninote::editor::{apply_editor_action, parse_tags, EditTarget, MdFormat};

#[test]
fn month_zero_reads_as_the_previous_december() {
    assert_eq!(days_in_month(2026, 0), 31);
}

#[test]
fn tag_field_splits_on_commas() {
    assert_eq!(parse_tags("rust, prog ,, x "), vec!["rust", "prog", "x"]);
    assert!(parse_tags("").is_empty());
    assert!(parse_tags(" , ").is_empty());
}

#[test]
fn slash_pick_equals_delete_then_caret() {
    let content = "a\n/b";
    let without = "a\nb";
    for format in [MdFormat::Bold, MdFormat::H1, MdFormat::Divider, MdFormat::CodeBlock, MdFormat::Link] {
        assert_eq!(
            apply_editor_action(content, EditTarget::Slash(2), format, None),
            apply_editor_action(without, EditTarget::Cursor(2), format, None),
        );
    }
}

#[test]
fn appending_keeps_earlier_labels_first() {
    let s = "[a] x [b";
    let before = label_chips(s);
    let after = label_chips(&format!("{s}] [c] [a]"));
    assert_eq!(before, vec!["a"]);
    assert_eq!(after, vec!["a", "b", "c"]);
    assert_eq!(&after[..before.len()], &before[..]);
}
