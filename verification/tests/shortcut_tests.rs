use aurora_screenshots::shortcut::{
    parse_shortcut, plan_shortcut_update, saved_or_default_shortcut, KeyCode, Modifiers, Shortcut,
    DEFAULT_CAPTURE_SHORTCUT,
};

fn mods(ctrl: bool, shift: bool, alt: bool, super_key: bool) -> Modifiers {
    Modifiers { ctrl, shift, alt, super_key }
}

#[test]
fn default_shortcut_parses() {
    let sc = parse_shortcut(DEFAULT_CAPTURE_SHORTCUT).unwrap();
    assert_eq!(sc, Shortcut { mods: mods(true, true, false, false), key: KeyCode::Letter('S') });
}

#[test]
fn modifier_order_and_repeats_do_not_matter() {
    let a = parse_shortcut("Ctrl+Shift+S").unwrap();
    let b = parse_shortcut("Shift+Ctrl+S").unwrap();
    let c = parse_shortcut("Ctrl+Shift+Ctrl+S").unwrap();
    assert_eq!(a, b);
    assert_eq!(a, c);
}

#[test]
fn every_modifier_is_read() {
    let sc = parse_shortcut("Super+Alt+Ctrl+Shift+F12").unwrap();
    assert_eq!(sc.mods, mods(true, true, true, true));
    assert_eq!(sc.key, KeyCode::Function(12));
}

#[test]
fn keys_of_each_kind() {
    assert_eq!(parse_shortcut("Ctrl+7").unwrap().key, KeyCode::Digit(7));
    assert_eq!(parse_shortcut("Ctrl+0").unwrap().key, KeyCode::Digit(0));
    assert_eq!(parse_shortcut("Alt+F1").unwrap().key, KeyCode::Function(1));
    assert_eq!(parse_shortcut("Alt+F10").unwrap().key, KeyCode::Function(10));
    assert_eq!(parse_shortcut("Alt+PageDown").unwrap().key, KeyCode::PageDown);
    assert_eq!(parse_shortcut("Alt+Up").unwrap().key, KeyCode::ArrowUp);
    assert_eq!(parse_shortcut("Alt+Backspace").unwrap().key, KeyCode::Backspace);
    assert_eq!(parse_shortcut("Alt+\\").unwrap().key, KeyCode::Backslash);
    assert_eq!(parse_shortcut("Alt+'").unwrap().key, KeyCode::Quote);
    assert_eq!(parse_shortcut("Alt+/").unwrap().key, KeyCode::Slash);
    assert_eq!(parse_shortcut("Super+Z").unwrap().key, KeyCode::Letter('Z'));
}

#[test]
fn a_key_alone_is_refused() {
    assert_eq!(
        parse_shortcut("S").unwrap_err(),
        "El shortcut debe tener al menos un modificador y una tecla"
    );
    assert_eq!(
        parse_shortcut("").unwrap_err(),
        "El shortcut debe tener al menos un modificador y una tecla"
    );
}

#[test]
fn unknown_modifier_is_named() {
    assert_eq!(parse_shortcut("Meta+S").unwrap_err(), "Modificador desconocido: Meta");
    assert_eq!(parse_shortcut("Ctrl+ctrl+Q").unwrap_err(), "Modificador desconocido: ctrl");
    assert_eq!(parse_shortcut("Ctrl++S").unwrap_err(), "Modificador desconocido: ");
}

#[test]
fn first_unknown_modifier_wins_over_unknown_key() {
    assert_eq!(parse_shortcut("Hyper+Meta+nokey").unwrap_err(), "Modificador desconocido: Hyper");
}

#[test]
fn unknown_key_is_named() {
    assert_eq!(parse_shortcut("Ctrl+s").unwrap_err(), "Tecla desconocida: s");
    assert_eq!(parse_shortcut("Ctrl+F13").unwrap_err(), "Tecla desconocida: F13");
    assert_eq!(parse_shortcut("Ctrl+F0").unwrap_err(), "Tecla desconocida: F0");
    assert_eq!(parse_shortcut("Ctrl+").unwrap_err(), "Tecla desconocida: ");
    assert_eq!(parse_shortcut("Ctrl+Ñ").unwrap_err(), "Tecla desconocida: Ñ");
}

#[test]
fn update_unregisters_only_a_parsable_current_shortcut() {
    let u = plan_shortcut_update("Alt+P", "Ctrl+Shift+S").unwrap();
    assert_eq!(u.register, Shortcut { mods: mods(false, false, true, false), key: KeyCode::Letter('P') });
    assert_eq!(u.unregister, Some(Shortcut { mods: mods(true, true, false, false), key: KeyCode::Letter('S') }));
    let v = plan_shortcut_update("Alt+P", "garbage").unwrap();
    assert_eq!(v.unregister, None);
}

#[test]
fn update_to_an_invalid_shortcut_is_refused() {
    assert_eq!(plan_shortcut_update("Ctrl+Nope", "Ctrl+Shift+S").unwrap_err(), "Tecla desconocida: Nope");
}

#[test]
fn saved_shortcut_or_default() {
    assert_eq!(saved_or_default_shortcut(None), "Ctrl+Shift+S");
    assert_eq!(saved_or_default_shortcut(Some("Alt+F2".to_string())), "Alt+F2");
}
