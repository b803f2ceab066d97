use omninote::palette::{commands, order_by_score, rank, Cmd, PaletteItem};

fn items() -> Vec<PaletteItem> {
    vec![
        PaletteItem::Command {
            label: "Nova nota",
            action: Cmd::NewNote,
        },
        PaletteItem::Command {
            label: "Configurações",
            action: Cmd::Settings,
        },
        PaletteItem::Note {
            id: "1".into(),
            title: "Sprint review".into(),
        },
    ]
}

#[test]
fn rank_empty_query_keeps_all_in_order() {
    let it = items();
    assert_eq!(rank(&it, ""), vec![0, 1, 2]);
    assert_eq!(rank(&it, "   "), vec![0, 1, 2]);
}

#[test]
fn rank_fuzzy_matches_subsequence() {
    let it = items();
    // "nn" should match "Nova nota" (n..n).
    let r = rank(&it, "nn");
    assert_eq!(r.first().copied(), Some(0));
    // "spr" matches the note title, not the commands.
    let r2 = rank(&it, "spr");
    assert_eq!(r2.first().copied(), Some(2));
}

#[test]
fn rank_no_match_returns_empty() {
    assert!(rank(&items(), "zzzzxxq").is_empty());
}

#[test]
fn rank_empty_query_caps_at_fifty() {
    let many: Vec<PaletteItem> = (0..70)
        .map(|i| PaletteItem::Note {
            id: format!("{i}"),
            title: format!("nota {i}"),
        })
        .collect();
    let r = rank(&many, "");
    assert_eq!(r.len(), 50);
    assert_eq!(r, (0..50).collect::<Vec<usize>>());
    assert_eq!(rank(&many, "nota").len(), 50);
}

#[test]
fn order_by_score_is_descending_and_stable() {
    let scores = vec![Some(5), None, Some(9), Some(5), Some(-2)];
    assert_eq!(order_by_score(&scores), vec![2, 0, 3, 4]);
    assert!(order_by_score(&[None, None]).is_empty());
    assert!(order_by_score(&[]).is_empty());
}

#[test]
fn order_by_score_keeps_the_fifty_best() {
    let scores: Vec<Option<i64>> = (0..60).map(|i| Some(i as i64)).collect();
    let r = order_by_score(&scores);
    assert_eq!(r.len(), 50);
    assert_eq!(r[0], 59);
    assert_eq!(r[49], 10);
}

#[test]
fn commands_lists_the_fixed_set() {
    let cs = commands();
    assert_eq!(cs.len(), 9);
    assert_eq!(cs[0].haystack(), "➕ Nova nota");
    assert_eq!(cs[8].haystack(), "◷ Timeline");
    assert!(matches!(cs[6], PaletteItem::Command { action: Cmd::QuickCapture, .. }));
    let note = PaletteItem::Note {
        id: "x".into(),
        title: "Título".into(),
    };
    assert_eq!(note.haystack(), "Título");
}
