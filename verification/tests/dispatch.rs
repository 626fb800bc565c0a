use tilewm::handle_key;
use tilewm::Action;
use tilewm::Direction;
use tilewm::KeyBinding;
use tilewm::KeyCombo;

const MOD_SHIFT: u32 = 0x1;
const MOD_ALT: u32 = 0x8;

fn quit_combo() -> KeyCombo {
    KeyCombo { keycode: 26, mods: MOD_ALT | MOD_SHIFT }
}

fn table() -> Vec<KeyBinding> {
    vec![
        KeyBinding {
            keycode: 24,
            mods: MOD_ALT | MOD_SHIFT,
            action: Action::DestroyFocused,
        },
        KeyBinding {
            keycode: 36,
            mods: MOD_ALT,
            action: Action::Spawn(vec!["-c".to_string(), "st".to_string()]),
        },
        KeyBinding { keycode: 46, mods: MOD_ALT, action: Action::Nudge(Direction::Right) },
        KeyBinding {
            keycode: 36,
            mods: MOD_ALT,
            action: Action::Spawn(vec!["-c".to_string(), "date".to_string()]),
        },
    ]
}

#[test]
fn matching_binding_fires() {
    let bindings = table();
    let out = handle_key(&bindings, quit_combo(), 46, MOD_ALT);
    assert!(!out.quit);
    assert_eq!(out.fired, vec![2]);
}

#[test]
fn two_bindings_on_one_combination_both_fire() {
    let bindings = table();
    let out = handle_key(&bindings, quit_combo(), 36, MOD_ALT);
    assert!(!out.quit);
    assert_eq!(out.fired, vec![1, 3]);
    assert_eq!(
        bindings[1].action,
        Action::Spawn(vec!["-c".to_string(), "st".to_string()])
    );
    assert_eq!(
        bindings[3].action,
        Action::Spawn(vec!["-c".to_string(), "date".to_string()])
    );
}

#[test]
fn modifier_set_must_match_exactly() {
    // a superset of the bound modifiers does not fire the binding
    let bindings = table();
    let out = handle_key(&bindings, quit_combo(), 46, MOD_ALT | MOD_SHIFT);
    assert!(!out.quit);
    assert_eq!(out.fired, Vec::<usize>::new());
}

#[test]
fn unbound_key_fires_nothing() {
    let bindings = table();
    let out = handle_key(&bindings, quit_combo(), 99, MOD_ALT);
    assert!(!out.quit);
    assert_eq!(out.fired, Vec::<usize>::new());
}

#[test]
fn quit_combination_stops_the_loop() {
    let bindings = table();
    let out = handle_key(&bindings, quit_combo(), 26, MOD_ALT | MOD_SHIFT);
    assert!(out.quit);
    assert_eq!(out.fired, Vec::<usize>::new());
}

#[test]
fn quit_takes_precedence_over_bindings() {
    // a binding sitting on the quit combination never fires
    let mut bindings = table();
    bindings.push(KeyBinding {
        keycode: 26,
        mods: MOD_ALT | MOD_SHIFT,
        action: Action::DestroyFocused,
    });
    let out = handle_key(&bindings, quit_combo(), 26, MOD_ALT | MOD_SHIFT);
    assert!(out.quit);
    assert_eq!(out.fired, Vec::<usize>::new());
}

#[test]
fn quit_keycode_with_other_modifiers_does_not_quit() {
    let bindings = table();
    let out = handle_key(&bindings, quit_combo(), 26, MOD_ALT);
    assert!(!out.quit);
    assert_eq!(out.fired, Vec::<usize>::new());
}
