use keymap::combination::{ParseError, MOD_CONTROL, MOD_SHIFT};
use keymap::resolver::{compile, Bind, Span, WindowKeymap};

// Stand-ins for the host key-naming table's resolutions.
const KEY_X: u32 = 0x78;
const KEY_Q: u32 = 0x71;

// A modifier-mask bit outside the recognized set, like a lock
// indicator the toolkit reports alongside the held modifiers.
const EXTRA_BIT: u32 = 2;

fn bind(inhibit: Option<bool>, combination: &str, cmd: &str, mark: usize) -> Bind {
    Bind {
        inhibit,
        combination: String::from(combination),
        combination_span: Span { start: mark, end: mark + combination.len(), file_id: 0 },
        cmd: String::from(cmd),
    }
}

#[test]
fn last_bind_wins() {
    let km = WindowKeymap {
        binds: vec![
            bind(None, "Ctrl+x", "first", 0),
            bind(Some(true), "ctrl + X", "second", 10),
        ],
        inhibit: None,
    };
    let (compiled, diags) = compile(&km, &vec![Some(KEY_X), Some(KEY_X)]);
    assert_eq!(diags.len(), 0);
    assert_eq!(compiled.len(), 1);
    let hit = compiled.lookup(MOD_CONTROL, KEY_X).unwrap();
    assert_eq!(hit.0, "second");
    assert!(hit.1);
}

#[test]
fn compile_skips_unparsable_binds() {
    let km = WindowKeymap {
        binds: vec![
            bind(None, "Ctrl+x", "one", 0),
            bind(None, "Bogus+q", "two", 10),
            bind(None, "Shift+q", "three", 20),
        ],
        inhibit: None,
    };
    let (compiled, diags) = compile(&km, &vec![Some(KEY_X), Some(KEY_Q), Some(KEY_Q)]);
    assert_eq!(compiled.len(), 2);
    assert_eq!(diags.len(), 1);
    assert_eq!(diags[0].span, Span { start: 10, end: 17, file_id: 0 });
    assert_eq!(
        diags[0].error,
        ParseError::UnknownModifier(String::from("Bogus"))
    );
    // The two well-formed binds still resolve.
    assert_eq!(compiled.lookup(MOD_CONTROL, KEY_X).unwrap().0, "one");
    assert_eq!(compiled.lookup(MOD_SHIFT, KEY_Q).unwrap().0, "three");
    // The skipped bind is inert.
    assert!(compiled.lookup(0, KEY_Q).is_none());
}

#[test]
fn keymap_default_inhibit_is_inherited() {
    let km = WindowKeymap {
        binds: vec![
            bind(None, "Ctrl+x", "inherits", 0),
            bind(Some(false), "Ctrl+q", "overrides", 10),
        ],
        inhibit: Some(true),
    };
    let (compiled, diags) = compile(&km, &vec![Some(KEY_X), Some(KEY_Q)]);
    assert_eq!(diags.len(), 0);
    assert!(compiled.lookup(MOD_CONTROL, KEY_X).unwrap().1);
    assert!(!compiled.lookup(MOD_CONTROL, KEY_Q).unwrap().1);
}

#[test]
fn unset_inhibit_defaults_to_false() {
    let km = WindowKeymap {
        binds: vec![bind(None, "Ctrl+x", "quiet", 0)],
        inhibit: None,
    };
    let (compiled, _) = compile(&km, &vec![Some(KEY_X)]);
    assert!(!compiled.lookup(MOD_CONTROL, KEY_X).unwrap().1);
}

#[test]
fn lookup_masks_extraneous_bits() {
    let km = WindowKeymap {
        binds: vec![bind(None, "Ctrl+q", "go", 0)],
        inhibit: None,
    };
    let (compiled, _) = compile(&km, &vec![Some(KEY_Q)]);
    // A lock-indicator bit outside the recognized set changes nothing.
    let hit = compiled.lookup(MOD_CONTROL | EXTRA_BIT, KEY_Q).unwrap();
    assert_eq!(hit.0, "go");
    let hit = compiled.lookup(MOD_CONTROL | 0x100, KEY_Q).unwrap();
    assert_eq!(hit.0, "go");
    // A recognized modifier bit is not extraneous: it must match.
    assert!(compiled.lookup(MOD_CONTROL | MOD_SHIFT, KEY_Q).is_none());
}

#[test]
fn end_to_end_ctrl_q() {
    let km = WindowKeymap {
        binds: vec![bind(Some(true), "Ctrl+q", "quit", 0)],
        inhibit: None,
    };
    let (compiled, diags) = compile(&km, &vec![Some(KEY_Q)]);
    assert_eq!(diags.len(), 0);
    let hit = compiled.lookup(MOD_CONTROL, KEY_Q);
    assert_eq!(hit, Some((String::from("quit"), true)));
    let miss = compiled.lookup(MOD_CONTROL | MOD_SHIFT, KEY_Q);
    assert_eq!(miss, None);
}

#[test]
fn lookup_with_every_bit_set_matches_full_chord() {
    let km = WindowKeymap {
        binds: vec![bind(None, "ctrl+alt+shift+x", "all", 0)],
        inhibit: None,
    };
    let (compiled, _) = compile(&km, &vec![Some(KEY_X)]);
    // Every modifier held plus every extraneous bit the toolkit could
    // ever report still matches the full chord.
    let hit = compiled.lookup(u32::MAX, KEY_X).unwrap();
    assert_eq!(hit.0, "all");
}

#[test]
fn empty_keymap_compiles_empty() {
    let km = WindowKeymap { binds: vec![], inhibit: Some(true) };
    let (compiled, diags) = compile(&km, &vec![]);
    assert_eq!(compiled.len(), 0);
    assert_eq!(diags.len(), 0);
    assert!(compiled.lookup(MOD_CONTROL, KEY_Q).is_none());
}

#[test]
fn unresolved_key_yields_diagnostic() {
    let km = WindowKeymap {
        binds: vec![bind(None, "Ctrl+Frobnicate", "never", 3)],
        inhibit: None,
    };
    let (compiled, diags) = compile(&km, &vec![None]);
    assert_eq!(compiled.len(), 0);
    assert_eq!(diags.len(), 1);
    assert_eq!(diags[0].span.start, 3);
    assert_eq!(
        diags[0].error,
        ParseError::UnknownKey(String::from("Frobnicate"))
    );
    assert_eq!(
        diags[0].error.message(),
        "Unknown key name: Frobnicate"
    );
}
