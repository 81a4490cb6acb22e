use keymap::combination::{
    key_name, parse, ParseError, MOD_ALT_SUPER, MOD_CONTROL, MOD_SHIFT,
};

// A stand-in for the host key-naming table's resolution of "x"/"X".
const KEY_X: u32 = 0x78;

#[test]
fn round_trip_case_insensitivity() {
    let a = parse("CTRL+shift+x", Some(KEY_X)).unwrap();
    let b = parse("ctrl + SHIFT + X", Some(KEY_X)).unwrap();
    let c = parse("Ctrl+Shift+X", Some(KEY_X)).unwrap();
    assert_eq!(a, b);
    assert_eq!(b, c);
    assert_eq!(a.modifier_bits(), MOD_CONTROL | MOD_SHIFT);
    assert_eq!(a.key_value(), KEY_X);
}

#[test]
fn modifier_order_independence() {
    let a = parse("Shift+Ctrl+x", Some(KEY_X)).unwrap();
    let b = parse("Ctrl+Shift+x", Some(KEY_X)).unwrap();
    assert_eq!(a, b);
}

#[test]
fn bare_key() {
    let c = parse("x", Some(KEY_X)).unwrap();
    assert_eq!(c.modifier_bits(), 0);
    assert_eq!(c.key_value(), KEY_X);
}

#[test]
fn alias_collapse() {
    let a = parse("Alt+x", Some(KEY_X)).unwrap();
    let s = parse("Super+x", Some(KEY_X)).unwrap();
    assert_eq!(a, s);
    assert_eq!(a.modifier_bits(), MOD_ALT_SUPER);
}

#[test]
fn empty_fails_with_missing_key() {
    assert_eq!(parse("", None), Err(ParseError::MissingKey));
    // The key resolution is irrelevant for an empty string.
    assert_eq!(parse("", Some(KEY_X)), Err(ParseError::MissingKey));
}

#[test]
fn unresolved_key_fails_with_unknown_key() {
    // The host table knows no key named "Frobnicate", so it hands None.
    let r = parse("Ctrl+Frobnicate", None);
    assert_eq!(r, Err(ParseError::UnknownKey(String::from("Frobnicate"))));
}

#[test]
fn bad_modifier_fails_with_unknown_modifier() {
    let r = parse("Bogus+x", Some(KEY_X));
    assert_eq!(r, Err(ParseError::UnknownModifier(String::from("Bogus"))));
}

#[test]
fn rightmost_bad_modifier_is_reported() {
    let r = parse("wrong+worse+x", Some(KEY_X));
    assert_eq!(r, Err(ParseError::UnknownModifier(String::from("worse"))));
}

#[test]
fn whitespace_is_tolerated() {
    let a = parse("  ctrl  +  shift  +  x  ", Some(KEY_X)).unwrap();
    let b = parse("ctrl+shift+x", Some(KEY_X)).unwrap();
    assert_eq!(a, b);
}

#[test]
fn duplicate_modifiers_collapse() {
    let c = parse("shift+shift+x", Some(KEY_X)).unwrap();
    assert_eq!(c.modifier_bits(), MOD_SHIFT);
}

#[test]
fn all_modifiers_union() {
    let c = parse("ctrl+alt+shift+x", Some(KEY_X)).unwrap();
    assert_eq!(c.modifier_bits(), MOD_SHIFT | MOD_CONTROL | MOD_ALT_SUPER);
}

#[test]
fn key_name_is_trimmed_last_segment() {
    assert_eq!(key_name("Ctrl + Shift + X").unwrap(), "X");
    assert_eq!(key_name("x").unwrap(), "x");
}

#[test]
fn key_name_of_empty_is_missing_key() {
    assert_eq!(key_name(""), Err(ParseError::MissingKey));
}

#[test]
fn trailing_plus_gives_empty_key_segment() {
    // "ctrl+" has an empty key segment; the host table resolves "" to
    // nothing, and the error carries the empty segment.
    assert_eq!(key_name("ctrl+").unwrap(), "");
    let r = parse("ctrl+", None);
    assert_eq!(r, Err(ParseError::UnknownKey(String::new())));
}

#[test]
fn error_messages() {
    assert_eq!(ParseError::MissingKey.message(), "Missing key");
    assert_eq!(
        ParseError::UnknownKey(String::from("Frobnicate")).message(),
        "Unknown key name: Frobnicate"
    );
    assert_eq!(
        ParseError::UnknownModifier(String::from("Bogus")).message(),
        "Unknown modifier: Bogus"
    );
}
