use omninote::sync::{
    active_after_reload, flush_outcome, plan_flush, plan_watch, should_autosave, switch_outcome,
    ActiveAfterReload, BufferState, FlushPlan, WatchPlan,
};

fn conflicted() -> BufferState {
    BufferState {
        has_active: true,
        dirty: true,
        external_change_pending: true,
    }
}

#[test]
fn select_note_aborts_switch_while_external_change_pending() {
    // Unsaved edits on note A with a pending conflict: switching to note B
    // must keep A (dirty) and the conflict.
    let s = conflicted();
    let (after, switched) = switch_outcome(s, true, true);
    assert!(!switched, "switch must abort while the conflict is pending");
    assert_eq!(after, s);
    assert!(after.dirty, "still dirty — nothing was saved or switched");
    assert!(after.external_change_pending, "conflict stays pending");
}

#[test]
fn switch_active_aborts_and_preserves_buffer_while_external_change_pending() {
    // A close / vault switch (new = none) during a conflict.
    let s = conflicted();
    let (after, switched) = switch_outcome(s, true, false);
    assert!(!switched, "switch must report failure while conflict pending");
    assert!(after.has_active, "note A must stay active");
    assert!(after.dirty, "still dirty — nothing flushed");
    assert!(after.external_change_pending);
}

#[test]
fn switch_active_flushes_and_replaces_when_clean_path() {
    let s = BufferState {
        has_active: true,
        dirty: true,
        external_change_pending: false,
    };
    assert_eq!(plan_flush(s), FlushPlan::Write, "the buffer is written first");
    let (after, switched) = switch_outcome(s, true, false);
    assert!(switched, "clean switch succeeds");
    assert!(!after.has_active, "active replaced with none (closed)");
    assert!(!after.dirty, "dirty cleared after flush");
}

#[test]
fn flush_active_refuses_while_external_change_pending() {
    let s = conflicted();
    assert_eq!(plan_flush(s), FlushPlan::Refused);
    let (after, ok) = flush_outcome(s, true);
    assert!(!ok, "flush refused while a conflict is pending");
    assert!(after.dirty, "nothing saved — still dirty");
}

#[test]
fn autosave_suppressed_while_external_change_pending() {
    let mut s = BufferState {
        has_active: true,
        dirty: false,
        external_change_pending: false,
    };
    // The inactivity window has elapsed (5 s since the last save).
    let idle = std::time::Duration::from_secs(5).as_nanos();
    // Clean buffer never auto-saves.
    assert!(!should_autosave(s, idle));
    // Dirty + idle elapsed + no conflict → auto-save fires.
    s.dirty = true;
    assert!(should_autosave(s, idle));
    // Within the 600 ms debounce nothing is saved.
    assert!(!should_autosave(s, 600_000_000));
    assert!(should_autosave(s, 600_000_001));
    // Dirty + idle elapsed but a conflict is pending → suppressed.
    s.external_change_pending = true;
    assert!(!should_autosave(s, idle));
}

#[test]
fn failed_write_keeps_the_buffer_dirty() {
    let s = BufferState {
        has_active: true,
        dirty: true,
        external_change_pending: false,
    };
    assert_eq!(flush_outcome(s, false), (s, false));
    let (after, switched) = switch_outcome(s, false, true);
    assert!(!switched);
    assert_eq!(after, s);
    // Nothing to save, or a stale flag without a note: the flush succeeds.
    let clean = BufferState { dirty: false, ..s };
    assert_eq!(plan_flush(clean), FlushPlan::NothingToSave);
    assert_eq!(flush_outcome(clean, false), (clean, true));
    let stale = BufferState {
        has_active: false,
        dirty: true,
        external_change_pending: false,
    };
    assert_eq!(plan_flush(stale), FlushPlan::DropStaleFlag);
    assert_eq!(flush_outcome(stale, false).0.dirty, false);
}

#[test]
fn watcher_raises_conflict_only_over_unsaved_edits() {
    assert_eq!(plan_watch(false, false, true, true), WatchPlan::Ignore);
    assert_eq!(plan_watch(true, true, true, true), WatchPlan::Ignore);
    assert_eq!(plan_watch(true, false, true, true), WatchPlan::RaiseConflict);
    assert_eq!(plan_watch(true, false, true, false), WatchPlan::Reload);
    assert_eq!(plan_watch(true, false, false, true), WatchPlan::Reload);
    assert_eq!(active_after_reload(false, true, false), ActiveAfterReload::Drop);
    assert_eq!(active_after_reload(true, true, false), ActiveAfterReload::Refresh);
    assert_eq!(active_after_reload(true, false, true), ActiveAfterReload::Keep);
}

use omninote::app_state::CentralOverlay;
use omninote::editor::{EditTarget, MdFormat, PendingEditorAction};
use omninote::sync::{
    clear_editor_transients, flush_report, save_error_message, select_note, switch_active,
    EditorTransients, NoteSession,
};

fn busy_transients() -> EditorTransients {
    EditorTransients {
        editor_sel: Some((1, 2)),
        slash_menu_pos: Some(0),
        pending_editor_action: Some(PendingEditorAction {
            note_id: "n_a".to_string(),
            format: MdFormat::Bold,
            target: EditTarget::Selection(1, 2),
        }),
    }
}

fn session(buffer: BufferState) -> NoteSession {
    NoteSession {
        buffer,
        transients: busy_transients(),
        editing: true,
        overlay: CentralOverlay::Tickets,
    }
}

#[test]
fn failed_save_reports_the_error() {
    assert_eq!(save_error_message("disco cheio"), "Falha ao salvar: disco cheio");
    let s = BufferState {
        has_active: true,
        dirty: true,
        external_change_pending: false,
    };
    let (after, ok, msg) = flush_report(s, &Err("disco cheio".to_string()));
    assert!(!ok);
    assert!(after.dirty);
    assert_eq!(msg, Some("Falha ao salvar: disco cheio".to_string()));
    let (after, ok, msg) = flush_report(s, &Ok(()));
    assert!(ok && !after.dirty && msg.is_none());
    // A refused flush writes nothing, so there is no write error to report.
    let (_, ok, msg) = flush_report(conflicted(), &Err("x".to_string()));
    assert!(!ok && msg.is_none());
}

#[test]
fn successful_switch_clears_editor_transients() {
    let s = session(BufferState {
        has_active: true,
        dirty: true,
        external_change_pending: false,
    });
    let (after, ok) = switch_active(s.clone(), true, false);
    assert!(ok);
    assert_eq!(after.transients.editor_sel, None);
    assert_eq!(after.transients.slash_menu_pos, None);
    assert_eq!(after.transients.pending_editor_action, None);
    assert!(!after.buffer.dirty && !after.buffer.has_active);
    // Refused during a conflict: the whole session stays.
    let c = session(conflicted());
    let (after, ok) = switch_active(c.clone(), true, true);
    assert!(!ok);
    assert_eq!(after, c);
    let mut t = busy_transients();
    clear_editor_transients(&mut t);
    assert_eq!(t.editor_sel, None);
}

#[test]
fn select_note_clears_central_overlay() {
    let s = session(BufferState {
        has_active: true,
        dirty: false,
        external_change_pending: false,
    });
    let after = select_note(s.clone(), true, true);
    assert_eq!(after.overlay, CentralOverlay::Editor);
    assert!(!after.editing);
    assert!(after.buffer.has_active && !after.buffer.dirty);
    assert_eq!(after.transients.pending_editor_action, None);
    // A no-op select (unknown note) leaves the overlay untouched.
    let on_timeline = NoteSession {
        overlay: CentralOverlay::Timeline,
        ..s.clone()
    };
    let missing = select_note(on_timeline.clone(), true, false);
    assert_eq!(missing.overlay, CentralOverlay::Timeline);
    assert_eq!(missing, on_timeline);
    // During a conflict the selection is refused.
    let c = session(conflicted());
    assert_eq!(select_note(c.clone(), true, true), c);
}

#[test]
fn select_note_resets_stale_editor_actions() {
    let s = session(BufferState {
        has_active: true,
        dirty: false,
        external_change_pending: false,
    });
    assert!(s.transients.pending_editor_action.is_some());
    let after = select_note(s, true, true);
    assert_eq!(after.transients.editor_sel, None);
    assert_eq!(after.transients.slash_menu_pos, None);
    assert!(after.transients.pending_editor_action.is_none());
}
