use omninote::sidebar::{note_listed, type_filter_after_click, visible_notes, NoteEntry, NoteKind};

fn note(path: &str, title: &str, content: &str, kind: NoteKind) -> NoteEntry {
    NoteEntry {
        rel_path: path.into(),
        title: title.into(),
        content: content.into(),
        kind,
    }
}

#[test]
fn note_listed_checks_folder_query_and_type() {
    assert!(note_listed("Rust/Ownership.md", "Rust", "Ownership", "borrow", NoteKind::Resumo, "", None));
    assert!(note_listed("Rust//Ownership.md", "Rust/", "Ownership", "", NoteKind::Resumo, "", None));
    assert!(!note_listed("Rust/sub/x.md", "Rust", "x", "", NoteKind::Resumo, "", None));
    assert!(note_listed("raiz.md", "", "Raiz", "", NoteKind::Codigo, "", None));
    assert!(note_listed("Rust/O.md", "Rust", "Ownership", "", NoteKind::Resumo, "OWNER", None));
    assert!(note_listed("Rust/O.md", "Rust", "T", "o Borrow checker", NoteKind::Resumo, "borrow", None));
    assert!(!note_listed("Rust/O.md", "Rust", "T", "nada", NoteKind::Resumo, "borrow", None));
    assert!(note_listed("Rust/O.md", "Rust", "T", "", NoteKind::Duvida, "", Some(NoteKind::Duvida)));
    assert!(!note_listed("Rust/O.md", "Rust", "T", "", NoteKind::Duvida, "", Some(NoteKind::Resumo)));
}

#[test]
fn visible_notes_lists_matching_positions_in_order() {
    let notes = vec![
        note("Rust/a.md", "Alpha", "", NoteKind::Resumo),
        note("Go/b.md", "Beta", "", NoteKind::Resumo),
        note("Rust/c.md", "Gamma", "alpha inside", NoteKind::Citacao),
        note("Rust/d.md", "Delta", "", NoteKind::Resumo),
    ];
    assert_eq!(visible_notes(&notes, "Rust", "", None), vec![0, 2, 3]);
    assert_eq!(visible_notes(&notes, "Rust", "alpha", None), vec![0, 2]);
    assert_eq!(visible_notes(&notes, "Rust", "alpha", Some(NoteKind::Citacao)), vec![2]);
    assert!(visible_notes(&notes, "Nowhere", "", None).is_empty());
}

#[test]
fn type_chip_toggles_the_filter() {
    assert_eq!(type_filter_after_click(None, NoteKind::Codigo), Some(NoteKind::Codigo));
    assert_eq!(type_filter_after_click(Some(NoteKind::Codigo), NoteKind::Codigo), None);
    assert_eq!(type_filter_after_click(Some(NoteKind::Resumo), NoteKind::Codigo), Some(NoteKind::Codigo));
}
