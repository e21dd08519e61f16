use umbra::input::ButtonStates;

// Codes the window layer might hand out for two keys.
const KEY_W: u32 = 0;
const SPACE: u32 = 1;

#[test]
fn key_down_and_edge_lifecycle() {
    let mut input = ButtonStates::new();
    input.on_button(KEY_W, true);
    assert!(input.is_down(KEY_W));
    assert!(input.pressed(KEY_W));
    input.end_frame();
    assert!(input.is_down(KEY_W), "held key stays down");
    assert!(!input.pressed(KEY_W), "edge cleared after frame");
    input.on_button(KEY_W, false);
    assert!(!input.is_down(KEY_W));
    assert!(input.released(KEY_W));
    input.end_frame();
    assert!(!input.released(KEY_W));
}

#[test]
fn key_repeat_does_not_retrigger_pressed() {
    let mut input = ButtonStates::new();
    input.on_button(SPACE, true);
    input.end_frame();
    input.on_button(SPACE, true); // OS key-repeat
    assert!(!input.pressed(SPACE));
    assert!(input.is_down(SPACE));
}

// Codes the window layer might hand out for two mouse buttons.
const LEFT: u32 = 0;
const RIGHT: u32 = 1;

#[test]
fn mouse_button_edges() {
    let mut mouse = ButtonStates::new();
    mouse.on_button(LEFT, true);
    assert!(mouse.is_down(LEFT));
    assert!(mouse.pressed(LEFT));
    assert!(!mouse.is_down(RIGHT));
    mouse.end_frame();
    mouse.on_button(LEFT, false);
    assert!(mouse.released(LEFT));
    assert!(!mouse.is_down(LEFT));
}
