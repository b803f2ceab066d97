//! App keyboard shortcuts: which key events a shortcut consumes and
//! whether it fires, with Alt (and so AltGr) rejected.
use vstd::prelude::*;

verus! {

/// The modifier keys held with a key event, or asked for by a shortcut.
#[derive(Clone, Copy, Debug, PartialEq, Eq, Structural)]
pub struct Mods {
    pub alt: bool,
    pub ctrl: bool,
    pub shift: bool,
    pub mac_cmd: bool,
    /// Cmd on Mac, Ctrl elsewhere.
    pub command: bool,
}

/// An input event of a frame: a key event (its logical key by number,
/// whether it is a press, whether it is a held repeat, the modifiers), or
/// any other event.
#[derive(Clone, Copy, Debug, PartialEq, Eq, Structural)]
pub enum InputEvent {
    Key { key: u32, pressed: bool, repeat: bool, modifiers: Mods },
    Other,
}

/// A keyboard shortcut: modifiers and a logical key.
#[derive(Clone, Copy, Debug, PartialEq, Eq, Structural)]
pub struct Shortcut {
    pub modifiers: Mods,
    pub logical_key: u32,
}

/// The pressed modifiers match the pattern logically (egui's
/// `Modifiers::matches_logically`): an Alt or Shift the pattern asks for must
/// be held (extra ones are tolerated); a Mac-Cmd pattern needs Mac-Cmd and the
/// same Ctrl; a pattern with neither Ctrl nor Command forbids both; otherwise
/// each of Ctrl and Command the pattern asks for must be held.
pub open spec fn logically_matches(pressed: Mods, pattern: Mods) -> bool {
    if pattern.alt && !pressed.alt {
        false
    } else if pattern.shift && !pressed.shift {
        false
    } else if pattern.mac_cmd {
        pressed.mac_cmd && pattern.ctrl == pressed.ctrl
    } else if !pattern.ctrl && !pattern.command {
        !pressed.ctrl && !pressed.command
    } else {
        (!pattern.ctrl || pressed.ctrl) && (!pattern.command || pressed.command)
    }
}

/// `egui::Modifiers::matches_logically(&pressed, pattern)`. Its result is
/// the rule its source spells out, restated as `logically_matches`.
#[verifier::external_body]
fn matches_logically(pressed: Mods, pattern: Mods) -> (r: bool)
    ensures
        r == logically_matches(pressed, pattern),
{
    let p = egui::Modifiers {
        alt: pressed.alt,
        ctrl: pressed.ctrl,
        shift: pressed.shift,
        mac_cmd: pressed.mac_cmd,
        command: pressed.command,
    };
    let q = egui::Modifiers {
        alt: pattern.alt,
        ctrl: pattern.ctrl,
        shift: pattern.shift,
        mac_cmd: pattern.mac_cmd,
        command: pattern.command,
    };
    p.matches_logically(q)
}

/// A shortcut consumes an event: a press of its key, without Alt, whose
/// modifiers match the shortcut's logically.
pub open spec fn consumes(e: InputEvent, sc: Shortcut) -> bool {
    match e {
        InputEvent::Key { key, pressed, repeat, modifiers } => key == sc.logical_key && pressed
            && !modifiers.alt && logically_matches(modifiers, sc.modifiers),
        InputEvent::Other => false,
    }
}

/// A consumed event that is a fresh press (not a held repeat): the shortcut
/// fires.
pub open spec fn fires_on(e: InputEvent, sc: Shortcut) -> bool {
    consumes(e, sc) && (e matches InputEvent::Key { repeat, .. } && !repeat)
}

/// The events a shortcut leaves in the queue, in order.
pub open spec fn left_after(events: Seq<InputEvent>, sc: Shortcut) -> Seq<InputEvent>
    decreases events.len(),
{
    if events.len() == 0 {
        Seq::empty()
    } else {
        let p = left_after(events.drop_last(), sc);
        if consumes(events.last(), sc) {
            p
        } else {
            p.push(events.last())
        }
    }
}

fn consumes_exec(e: InputEvent, sc: Shortcut) -> (b: bool)
    ensures
        b == consumes(e, sc),
{
    match e {
        InputEvent::Key { key, pressed, repeat: _, modifiers } => key == sc.logical_key && pressed
            && !modifiers.alt && matches_logically(modifiers, sc.modifiers),
        InputEvent::Other => false,
    }
}

/// Consume every event of the frame that matches the shortcut (so a held
/// chord does not leak to a focused editor) and tell whether one of them is
/// a fresh press. Alt is rejected, so AltGr (Ctrl+Alt) never fires a
/// Command chord; an extra Shift is tolerated for layouts that need it.
pub fn consume_app_shortcut(events: &mut Vec<InputEvent>, sc: Shortcut) -> (hit: bool)
    ensures
        final(events)@ == left_after(old(events)@, sc),
        hit == exists|k: int| 0 <= k < old(events)@.len() && fires_on(#[trigger] old(events)@[k], sc),
{
    let ghost orig = events@;
    let mut kept: Vec<InputEvent> = Vec::new();
    let mut hit = false;
    let mut i: usize = 0;
    while i < events.len()
        invariant
            orig == events@,
            i <= orig.len(),
            kept@ == left_after(orig.take(i as int), sc),
            hit == exists|k: int| 0 <= k < i && fires_on(#[trigger] orig[k], sc),
        decreases orig.len() - i,
    {
        let e = events[i];
        assert(orig.take(i + 1).drop_last() =~= orig.take(i as int));
        assert(orig.take(i + 1).last() == e);
        if consumes_exec(e, sc) {
            match e {
                InputEvent::Key { repeat, .. } => {
                    if !repeat {
                        hit = true;
                    }
                },
                InputEvent::Other => {},
            }
        } else {
            kept.push(e);
        }
        assert(hit == exists|k: int| 0 <= k < i + 1 && fires_on(#[trigger] orig[k], sc)) by {
            if fires_on(e, sc) {
                assert(fires_on(orig[i as int], sc));
            }
        }
        i += 1;
    }
    assert(orig.take(i as int) =~= orig);
    *events = kept;
    hit
}

/// A key event with Alt held is never consumed, so AltGr characters (such
/// as `€` = AltGr+E) never trip a shortcut; an extra Shift does not stop a
/// shortcut that does not ask for Shift.
pub proof fn law_alt_rejected_shift_tolerated(key: u32, pressed: bool, repeat: bool, m: Mods, sc: Shortcut)
    ensures
        m.alt ==> !consumes(InputEvent::Key { key, pressed, repeat, modifiers: m }, sc),
        !sc.modifiers.shift ==> (consumes(
            InputEvent::Key { key, pressed, repeat, modifiers: Mods { shift: true, ..m } },
            sc,
        ) == consumes(InputEvent::Key { key, pressed, repeat, modifiers: Mods { shift: false, ..m } }, sc)),
{
}

} // verus!
