//! Small pieces of the application state machine: the central overlay and
//! the tickets filter.
use vstd::prelude::*;

verus! {

/// Which full-panel overlay replaces the editor in the central area.
/// `Editor` = no overlay: the editor shows.
#[derive(Clone, Copy, Debug, PartialEq, Eq, Structural)]
pub enum CentralOverlay {
    Editor,
    Tickets,
    Timeline,
}

impl Default for CentralOverlay {
    fn default() -> (r: Self)
        ensures
            r == CentralOverlay::Editor,
    {
        CentralOverlay::Editor
    }
}

/// Status filter for the Tickets panel chip row.
#[derive(Clone, Copy, Debug, PartialEq, Eq, Structural)]
pub enum TicketFilter {
    All,
    Doing,
    Todo,
    Done,
}

impl Default for TicketFilter {
    fn default() -> (r: Self)
        ensures
            r == TicketFilter::All,
    {
        TicketFilter::All
    }
}

/// The overlay a toggle request leads to: pressing the open overlay again
/// returns to the editor.
pub open spec fn overlay_after(current: CentralOverlay, target: CentralOverlay) -> CentralOverlay {
    if current == target {
        CentralOverlay::Editor
    } else {
        target
    }
}

/// Toggle a full-panel overlay: the new overlay, and whether the Timeline
/// cache must be dropped (it is whenever the Timeline opens).
pub fn toggle_central_overlay(current: CentralOverlay, target: CentralOverlay) -> (r: (CentralOverlay, bool))
    ensures
        r.0 == overlay_after(current, target),
        r.1 == (r.0 == CentralOverlay::Timeline),
{
    let next = if current == target {
        CentralOverlay::Editor
    } else {
        target
    };
    (next, next == CentralOverlay::Timeline)
}

/// Toggling the same overlay twice from the editor (or from that overlay)
/// comes back to where it started.
pub proof fn law_overlay_toggle_twice(current: CentralOverlay, target: CentralOverlay)
    requires
        current == CentralOverlay::Editor || current == target,
        target != CentralOverlay::Editor,
    ensures
        overlay_after(overlay_after(current, target), target) == current,
{
}

/// Whether the raw content editor is live: editing, a note open, no overlay,
/// and no typed discipline view in front of it.
pub fn content_editor_active_state(
    editing: bool,
    has_active_note: bool,
    overlay: CentralOverlay,
    typed_view_active: bool,
) -> (r: bool)
    ensures
        r == (editing && has_active_note && overlay == CentralOverlay::Editor && !typed_view_active),
{
    editing && has_active_note && overlay == CentralOverlay::Editor && !typed_view_active
}

} // verus!
