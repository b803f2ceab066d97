//! Keeping the open note's unsaved edits safe against the files on disk:
//! when a flush may write, when autosave runs, when a note switch goes
//! through, and what a batch of watcher events does.
use vstd::prelude::*;
use crate::app_state::CentralOverlay;
use crate::editor::PendingEditorAction;

verus! {

/// The unsaved-edit state of the open note.
#[derive(Clone, Copy, Debug, PartialEq, Eq, Structural)]
pub struct BufferState {
    /// A note is open.
    pub has_active: bool,
    /// The open note has edits not yet written.
    pub dirty: bool,
    /// Its file changed on disk while it had unsaved edits: the conflict
    /// dialog is waiting for the user.
    pub external_change_pending: bool,
}

/// What flushing the open note does.
#[derive(Clone, Copy, Debug, PartialEq, Eq, Structural)]
pub enum FlushPlan {
    /// No unsaved edits: nothing to write.
    NothingToSave,
    /// A conflict is pending: refuse, so the buffer does not overwrite the
    /// external edit before the user decides.
    Refused,
    /// Marked dirty with no note open: drop the stale flag.
    DropStaleFlag,
    /// Write the note to disk.
    Write,
}

/// The plan a flush follows in state `s`.
pub open spec fn flush_plan(s: BufferState) -> FlushPlan {
    if !s.dirty {
        FlushPlan::NothingToSave
    } else if s.external_change_pending {
        FlushPlan::Refused
    } else if !s.has_active {
        FlushPlan::DropStaleFlag
    } else {
        FlushPlan::Write
    }
}

/// Decide what a flush of the open note does.
pub fn plan_flush(s: BufferState) -> (p: FlushPlan)
    ensures
        p == flush_plan(s),
{
    if !s.dirty {
        FlushPlan::NothingToSave
    } else if s.external_change_pending {
        FlushPlan::Refused
    } else if !s.has_active {
        FlushPlan::DropStaleFlag
    } else {
        FlushPlan::Write
    }
}

/// The state after a flush and whether the buffer is now safely on disk;
/// `write_ok` is whether the write (when the plan made one) succeeded. A
/// failed write keeps the note dirty so a later flush retries.
pub open spec fn flushed(s: BufferState, write_ok: bool) -> (BufferState, bool) {
    match flush_plan(s) {
        FlushPlan::NothingToSave => (s, true),
        FlushPlan::Refused => (s, false),
        FlushPlan::DropStaleFlag => (BufferState { dirty: false, ..s }, true),
        FlushPlan::Write => if write_ok {
            (BufferState { dirty: false, ..s }, true)
        } else {
            (s, false)
        },
    }
}

/// Complete a flush (see `flushed`).
pub fn flush_outcome(s: BufferState, write_ok: bool) -> (r: (BufferState, bool))
    ensures
        r == flushed(s, write_ok),
{
    match plan_flush(s) {
        FlushPlan::NothingToSave => (s, true),
        FlushPlan::Refused => (s, false),
        FlushPlan::DropStaleFlag => (BufferState { dirty: false, ..s }, true),
        FlushPlan::Write => if write_ok {
            (BufferState { dirty: false, ..s }, true)
        } else {
            (s, false)
        },
    }
}

/// The error message a failed save leaves for the user.
pub fn save_error_message(err: &str) -> (r: String)
    ensures
        r@ == "Falha ao salvar: "@ + err@,
{
    let mut r = String::from_str("Falha ao salvar: ");
    r.append(err);
    r
}

/// Complete a flush given what the write (when the plan made one) returned:
/// the state, whether the buffer is safely on disk, and the error message a
/// failed write leaves (none otherwise).
pub fn flush_report(s: BufferState, write: &Result<(), String>) -> (r: (BufferState, bool, Option<String>))
    ensures
        (r.0, r.1) == flushed(s, write is Ok),
        match r.2 {
            Some(m) => flush_plan(s) == FlushPlan::Write && (write matches Err(e) && m@ == "Falha ao salvar: "@
                + e@),
            None => !(flush_plan(s) == FlushPlan::Write && write is Err),
        },
{
    let ok = match write {
        Ok(()) => true,
        Err(_) => false,
    };
    let (t, done) = flush_outcome(s, ok);
    let msg = match plan_flush(s) {
        FlushPlan::Write => match write {
            Err(e) => Some(save_error_message(e.as_str())),
            Ok(()) => None,
        },
        _ => None,
    };
    (t, done, msg)
}

/// How long the editor must rest after the last save before autosave runs:
/// 600 ms, in nanoseconds.
pub const AUTOSAVE_IDLE_NANOS: u128 = 600_000_000;

/// Autosave runs once more than 600 ms have passed since the last save
/// (`since_save_nanos`), when there are unsaved edits and no conflict is
/// pending.
pub fn should_autosave(s: BufferState, since_save_nanos: u128) -> (b: bool)
    ensures
        b == (s.dirty && !s.external_change_pending && since_save_nanos > AUTOSAVE_IDLE_NANOS),
{
    s.dirty && !s.external_change_pending && since_save_nanos > AUTOSAVE_IDLE_NANOS
}

/// The state after asking to replace the open note (open, create, import,
/// close, move): the current note is flushed first, and the switch happens
/// only when that flush succeeded; the new note starts clean.
pub open spec fn switched(s: BufferState, write_ok: bool, new_has_active: bool) -> (BufferState, bool) {
    let (t, ok) = flushed(s, write_ok);
    if ok {
        (BufferState { has_active: new_has_active, dirty: false, ..t }, true)
    } else {
        (t, false)
    }
}

/// Replace the open note (see `switched`).
pub fn switch_outcome(s: BufferState, write_ok: bool, new_has_active: bool) -> (r: (BufferState, bool))
    ensures
        r == switched(s, write_ok, new_has_active),
{
    let (t, ok) = flush_outcome(s, write_ok);
    if ok {
        (BufferState { has_active: new_has_active, dirty: false, ..t }, true)
    } else {
        (t, false)
    }
}

/// The editor state tied to the open buffer: its byte selection, the
/// slash-menu position and a queued formatting action.
#[derive(Clone, Debug, PartialEq, Eq)]
pub struct EditorTransients {
    pub editor_sel: Option<(usize, usize)>,
    pub slash_menu_pos: Option<usize>,
    pub pending_editor_action: Option<PendingEditorAction>,
}

/// No selection, no slash menu, no queued action.
pub open spec fn cleared(t: EditorTransients) -> bool {
    t.editor_sel is None && t.slash_menu_pos is None && t.pending_editor_action is None
}

/// Drop every transient that belongs to the previous buffer.
pub fn clear_editor_transients(t: &mut EditorTransients)
    ensures
        cleared(*final(t)),
{
    t.editor_sel = None;
    t.slash_menu_pos = None;
    t.pending_editor_action = None;
}

/// The open note's editing session: its buffer state, the editor's
/// transients, whether it is being edited, and the overlay in front.
#[derive(Clone, Debug, PartialEq, Eq)]
pub struct NoteSession {
    pub buffer: BufferState,
    pub transients: EditorTransients,
    pub editing: bool,
    pub overlay: CentralOverlay,
}

/// Replace the open note (open, create, import, close, move): the buffer
/// follows `switched`; a switch that goes through also clears the editor's
/// transients, and a refused one leaves the whole session as it was.
pub fn switch_active(s: NoteSession, write_ok: bool, new_has_active: bool) -> (r: (NoteSession, bool))
    ensures
        (r.0.buffer, r.1) == switched(s.buffer, write_ok, new_has_active),
        r.1 ==> cleared(r.0.transients) && r.0.editing == s.editing && r.0.overlay == s.overlay,
        !r.1 ==> r.0 == s,
{
    let (b, ok) = switch_outcome(s.buffer, write_ok, new_has_active);
    if ok {
        let mut t = s.transients;
        clear_editor_transients(&mut t);
        (NoteSession { buffer: b, transients: t, editing: s.editing, overlay: s.overlay }, true)
    } else {
        (s, false)
    }
}

/// The session after selecting a note: the current buffer is flushed first
/// and nothing changes if that is refused or fails; otherwise, when the
/// note is found, it opens clean, in read mode, with the transients cleared
/// and no overlay hiding it. A note that is not found only flushes.
pub open spec fn selected(s: NoteSession, write_ok: bool, found: bool) -> NoteSession {
    let (b, ok) = flushed(s.buffer, write_ok);
    if !ok {
        s
    } else if found {
        NoteSession {
            buffer: BufferState { has_active: true, dirty: false, ..b },
            transients: EditorTransients {
                editor_sel: None,
                slash_menu_pos: None,
                pending_editor_action: None,
            },
            editing: false,
            overlay: CentralOverlay::Editor,
        }
    } else {
        NoteSession { buffer: b, ..s }
    }
}

/// Select a note (see `selected`); `found` is whether the vault has it.
pub fn select_note(s: NoteSession, write_ok: bool, found: bool) -> (r: NoteSession)
    ensures
        r == selected(s, write_ok, found),
{
    let (b, ok) = flush_outcome(s.buffer, write_ok);
    if !ok {
        s
    } else if found {
        NoteSession {
            buffer: BufferState { has_active: true, dirty: false, ..b },
            transients: EditorTransients {
                editor_sel: None,
                slash_menu_pos: None,
                pending_editor_action: None,
            },
            editing: false,
            overlay: CentralOverlay::Editor,
        }
    } else {
        NoteSession { buffer: b, ..s }
    }
}

/// What a batch of file-system events does.
#[derive(Clone, Copy, Debug, PartialEq, Eq, Structural)]
pub enum WatchPlan {
    /// Nothing changed, or the changes are the echo of our own save.
    Ignore,
    /// The open note's file changed while it has unsaved edits: ask the user.
    RaiseConflict,
    /// Reload the vault silently.
    Reload,
}

/// The plan for a batch of watcher events.
pub open spec fn watch_plan(any_change: bool, own_write_echo: bool, active_changed: bool, dirty: bool) -> WatchPlan {
    if !any_change || own_write_echo {
        WatchPlan::Ignore
    } else if active_changed && dirty {
        WatchPlan::RaiseConflict
    } else {
        WatchPlan::Reload
    }
}

/// Decide what a batch of watcher events does: `any_change` is whether it
/// holds a changed note file, `own_write_echo` whether it arrived inside the
/// window after our own save, `active_changed` whether the open note's file
/// is among the changes.
pub fn plan_watch(any_change: bool, own_write_echo: bool, active_changed: bool, dirty: bool) -> (p: WatchPlan)
    ensures
        p == watch_plan(any_change, own_write_echo, active_changed, dirty),
{
    if !any_change || own_write_echo {
        WatchPlan::Ignore
    } else if active_changed && dirty {
        WatchPlan::RaiseConflict
    } else {
        WatchPlan::Reload
    }
}

/// What becomes of the open note after a silent reload.
#[derive(Clone, Copy, Debug, PartialEq, Eq, Structural)]
pub enum ActiveAfterReload {
    /// Keep the buffer as it is.
    Keep,
    /// Its file is gone (renamed or deleted elsewhere): close it.
    Drop,
    /// Its file changed and it has no unsaved edits: take the disk content.
    Refresh,
}

/// The open note after a reload, `still_exists` telling whether its file is
/// still in the vault.
pub open spec fn after_reload(still_exists: bool, active_changed: bool, dirty: bool) -> ActiveAfterReload {
    if !still_exists {
        ActiveAfterReload::Drop
    } else if active_changed && !dirty {
        ActiveAfterReload::Refresh
    } else {
        ActiveAfterReload::Keep
    }
}

/// Decide what becomes of the open note after a reload (see `after_reload`).
pub fn active_after_reload(still_exists: bool, active_changed: bool, dirty: bool) -> (r: ActiveAfterReload)
    ensures
        r == after_reload(still_exists, active_changed, dirty),
{
    if !still_exists {
        ActiveAfterReload::Drop
    } else if active_changed && !dirty {
        ActiveAfterReload::Refresh
    } else {
        ActiveAfterReload::Keep
    }
}

/// While a conflict is pending, unsaved edits are never written nor thrown
/// away: a flush is refused and leaves the state as it was, autosave does
/// not run, and a note switch does not happen.
pub proof fn law_conflict_protects_unsaved_edits(s: BufferState, write_ok: bool, new_has_active: bool, since_save_nanos: u128)
    requires
        s.dirty,
        s.external_change_pending,
    ensures
        flush_plan(s) == FlushPlan::Refused,
        flushed(s, write_ok) == (s, false),
        !(s.dirty && !s.external_change_pending && since_save_nanos > AUTOSAVE_IDLE_NANOS),
        switched(s, write_ok, new_has_active) == (s, false),
        forall|n: NoteSession, found: bool| n.buffer == s ==> #[trigger] selected(n, write_ok, found) == n,
{
}

/// A note switch either goes through after the buffer is safely flushed, or
/// leaves the buffer exactly as it was; it never drops unsaved edits.
pub proof fn law_switch_keeps_or_saves(s: BufferState, write_ok: bool, new_has_active: bool)
    ensures
        switched(s, write_ok, new_has_active).1 ==> flushed(s, write_ok).1,
        !switched(s, write_ok, new_has_active).1 ==> switched(s, write_ok, new_has_active).0 == s,
{
}

/// A reload never replaces unsaved edits of a changed open note: that case
/// raises the conflict instead, and a refresh only happens to a clean buffer.
pub proof fn law_reload_never_clobbers_edits(any_change: bool, echo: bool, active_changed: bool, dirty: bool, still_exists: bool)
    ensures
        after_reload(still_exists, active_changed, dirty) == ActiveAfterReload::Refresh ==> !dirty,
        watch_plan(any_change, echo, active_changed, dirty) == WatchPlan::Reload ==> !(active_changed && dirty),
        any_change && !echo && active_changed && dirty ==> watch_plan(any_change, echo, active_changed, dirty)
            == WatchPlan::RaiseConflict,
{
}

} // verus!
