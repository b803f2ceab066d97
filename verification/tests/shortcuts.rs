use omninote::shortcuts::{consume_app_shortcut, InputEvent, Mods, Shortcut};

const KEY_E: u32 = 4;
const KEY_J: u32 = 9;
const KEY_EQUALS: u32 = 30;

const NONE: Mods = Mods {
    alt: false,
    ctrl: false,
    shift: false,
    mac_cmd: false,
    command: false,
};
const COMMAND: Mods = Mods { command: true, ..NONE };
const COMMAND_SHIFT: Mods = Mods {
    command: true,
    shift: true,
    ..NONE
};

fn fires(sc: Shortcut, key: u32, mods: Mods, repeat: bool) -> bool {
    let mut events = vec![InputEvent::Key {
        key,
        pressed: true,
        repeat,
        modifiers: mods,
    }];
    consume_app_shortcut(&mut events, sc)
}

#[test]
fn shortcuts_reject_alt_but_tolerate_layout_shift() {
    let altgr = Mods {
        ctrl: true,
        alt: true,
        command: true,
        ..NONE
    };
    let cmd_e = Shortcut {
        modifiers: COMMAND,
        logical_key: KEY_E,
    };
    let cmd_eq = Shortcut {
        modifiers: COMMAND,
        logical_key: KEY_EQUALS,
    };
    let cmd_shift_j = Shortcut {
        modifiers: COMMAND_SHIFT,
        logical_key: KEY_J,
    };
    // Intended chords fire.
    assert!(fires(cmd_e, KEY_E, COMMAND, false), "Cmd/Ctrl+E");
    assert!(fires(cmd_shift_j, KEY_J, COMMAND_SHIFT, false), "Cmd/Ctrl+Shift+J");
    // Layout Shift tolerated: Cmd+= arrives as Ctrl+Shift+Equals on QWERTZ.
    assert!(fires(cmd_eq, KEY_EQUALS, COMMAND_SHIFT, false), "Cmd+= with layout Shift must fire");
    // Alt is rejected — the € / Cmd+E bug.
    assert!(!fires(cmd_e, KEY_E, altgr, false), "AltGr+E (€) must not fire Cmd+E");
    assert!(!fires(cmd_e, KEY_E, Mods { alt: true, ..COMMAND }, false), "Cmd+Alt+E must not fire");
    // A Shift chord still requires its Shift.
    assert!(!fires(cmd_shift_j, KEY_J, COMMAND, false), "Cmd+J without Shift must not fire");
    // Held repeats are consumed but do not fire again.
    assert!(fires(cmd_e, KEY_E, COMMAND, false), "first press fires");
    assert!(!fires(cmd_e, KEY_E, COMMAND, true), "held repeat must not refire");
}

#[test]
fn consumed_events_leave_the_queue() {
    let cmd_e = Shortcut {
        modifiers: COMMAND,
        logical_key: KEY_E,
    };
    let mut events = vec![
        InputEvent::Other,
        InputEvent::Key { key: KEY_E, pressed: true, repeat: true, modifiers: COMMAND },
        InputEvent::Key { key: KEY_E, pressed: false, repeat: false, modifiers: COMMAND },
        InputEvent::Key { key: KEY_J, pressed: true, repeat: false, modifiers: COMMAND },
        InputEvent::Key { key: KEY_E, pressed: true, repeat: false, modifiers: NONE },
    ];
    // Only a repeat matched: consumed, but nothing fires.
    assert!(!consume_app_shortcut(&mut events, cmd_e));
    assert_eq!(events.len(), 4);
    assert_eq!(events[0], InputEvent::Other);
    assert_eq!(events[1], InputEvent::Key { key: KEY_E, pressed: false, repeat: false, modifiers: COMMAND });
    // A Mac-Cmd pattern needs Mac-Cmd.
    let mac = Shortcut {
        modifiers: Mods { mac_cmd: true, ..NONE },
        logical_key: KEY_E,
    };
    assert!(!fires(mac, KEY_E, COMMAND, false));
    assert!(fires(mac, KEY_E, Mods { mac_cmd: true, command: true, ..NONE }, false));
}
