use raytracer::controls::{ControlMap, Key, Reaction, WindowInput, Zoom};

#[test]
fn default_holds_nothing() {
    let c = ControlMap::default();
    assert!(!c.zoom_in && !c.zoom_out);
    assert_eq!(c.zoom(), Zoom::Hold);
}

#[test]
fn keys_set_and_release_zoom() {
    let mut c = ControlMap::default();
    c.set_key(Key::Z, true);
    assert!(c.zoom_in && !c.zoom_out);
    assert_eq!(c.zoom(), Zoom::In);
    c.set_key(Key::Z, false);
    c.set_key(Key::X, true);
    assert!(!c.zoom_in && c.zoom_out);
    assert_eq!(c.zoom(), Zoom::Out);
    c.set_key(Key::Other, false);
    assert!(c.zoom_out);
}

#[test]
fn zoom_in_wins_over_zoom_out() {
    let c = ControlMap { zoom_in: true, zoom_out: true };
    assert_eq!(c.zoom(), Zoom::In);
}

#[test]
fn react_to_each_input() {
    let mut c = ControlMap::default();
    assert_eq!(c.react(WindowInput::CloseRequested), Reaction::Exit);
    assert_eq!(c.react(WindowInput::RedrawRequested), Reaction::Redraw);
    assert_eq!(
        c.react(WindowInput::Resized { width: 800, height: 600 }),
        Reaction::Resize { width: 800, height: 600 }
    );
    assert_eq!(c.react(WindowInput::Other), Reaction::Nothing);
    assert!(!c.zoom_in && !c.zoom_out);
    assert_eq!(c.react(WindowInput::Keyboard { key: Key::X, pressed: true }), Reaction::Nothing);
    assert!(c.zoom_out && !c.zoom_in);
    assert_eq!(c.react(WindowInput::Keyboard { key: Key::Other, pressed: true }), Reaction::Nothing);
    assert!(c.zoom_out && !c.zoom_in);
}
