use gloom_rs::input::{
    motion_for_key, respond, Effect, Flow, InputEvent, Key, MotionStep, PressedKeys, Response,
    WindowSize,
};

fn held(keys: &PressedKeys, all: &[Key]) -> Vec<Key> {
    all.iter().copied().filter(|k| keys.contains(*k)).collect()
}

#[test]
fn pressing_twice_holds_the_key_once() {
    let mut keys = PressedKeys::new();
    keys.press(Key::W);
    keys.press(Key::W);
    assert!(keys.contains(Key::W));
    assert_eq!(keys.motion_steps(), vec![MotionStep { axis: 1, increase: true }]);
}

#[test]
fn release_undoes_a_press() {
    let mut keys = PressedKeys::new();
    keys.press(Key::A);
    keys.press(Key::Up);
    keys.press(Key::Other(77));
    keys.release(Key::Up);
    assert!(!keys.contains(Key::Up));
    assert!(keys.contains(Key::A));
    assert!(keys.contains(Key::Other(77)));
    assert_eq!(keys.motion_steps(), vec![MotionStep { axis: 0, increase: false }]);
    keys.release(Key::Up);
    assert!(!keys.contains(Key::Up));
}

#[test]
fn update_presses_and_releases() {
    let mut keys = PressedKeys::new();
    keys.update(Key::Space, true);
    keys.update(Key::Key5, true);
    assert_eq!(held(&keys, &[Key::Space, Key::Key5, Key::Q]), vec![Key::Space, Key::Key5]);
    keys.update(Key::Space, false);
    assert_eq!(held(&keys, &[Key::Space, Key::Key5, Key::Q]), vec![Key::Key5]);
}

#[test]
fn motion_steps_follow_press_order() {
    let mut keys = PressedKeys::new();
    keys.press(Key::Down);
    keys.press(Key::Escape);
    keys.press(Key::D);
    keys.press(Key::LShift);
    assert_eq!(
        keys.motion_steps(),
        vec![
            MotionStep { axis: 4, increase: false },
            MotionStep { axis: 0, increase: true },
            MotionStep { axis: 2, increase: false },
        ]
    );
}

#[test]
fn every_motion_key_has_its_axis() {
    let table = [
        (Key::D, 0, true),
        (Key::A, 0, false),
        (Key::W, 1, true),
        (Key::S, 1, false),
        (Key::Space, 2, true),
        (Key::LShift, 2, false),
        (Key::Left, 3, true),
        (Key::Right, 3, false),
        (Key::Up, 4, true),
        (Key::Down, 4, false),
        (Key::Key1, 5, true),
        (Key::Key5, 5, false),
    ];
    for (key, axis, increase) in table {
        assert_eq!(motion_for_key(key), Some(MotionStep { axis, increase }));
    }
    assert_eq!(motion_for_key(Key::Escape), None);
    assert_eq!(motion_for_key(Key::Q), None);
    assert_eq!(motion_for_key(Key::Other(3)), None);
}

#[test]
fn resize_is_taken_once() {
    let mut size = WindowSize::new(800, 600);
    assert_eq!(size.take_resize(), None);
    size.record_resize(1024, 768);
    assert_eq!(size, WindowSize { width: 1024, height: 768, resized: true });
    assert_eq!(size.take_resize(), Some((1024, 768)));
    assert_eq!(size.take_resize(), None);
    assert_eq!(size, WindowSize { width: 1024, height: 768, resized: false });
}

#[test]
fn close_and_exit_keys_end_the_loop() {
    assert_eq!(
        respond(true, InputEvent::CloseRequested),
        Response { effect: Effect::Nothing, flow: Flow::Exit }
    );
    assert_eq!(
        respond(true, InputEvent::Keyboard { key: Key::Escape, pressed: true }),
        Response { effect: Effect::Key { key: Key::Escape, pressed: true }, flow: Flow::Exit }
    );
    assert_eq!(
        respond(true, InputEvent::Keyboard { key: Key::Q, pressed: false }),
        Response { effect: Effect::Key { key: Key::Q, pressed: false }, flow: Flow::Exit }
    );
    assert_eq!(
        respond(true, InputEvent::Keyboard { key: Key::W, pressed: true }),
        Response { effect: Effect::Key { key: Key::W, pressed: true }, flow: Flow::Wait }
    );
}

#[test]
fn resize_and_other_events_keep_waiting() {
    assert_eq!(
        respond(true, InputEvent::Resized { width: 640, height: 480 }),
        Response { effect: Effect::Resize { width: 640, height: 480 }, flow: Flow::Wait }
    );
    assert_eq!(respond(true, InputEvent::Other), Response { effect: Effect::Nothing, flow: Flow::Wait });
}

#[test]
fn failed_drawing_thread_ends_the_loop() {
    assert_eq!(respond(false, InputEvent::Other), Response { effect: Effect::Nothing, flow: Flow::Exit });
    assert_eq!(
        respond(false, InputEvent::Resized { width: 1, height: 2 }),
        Response { effect: Effect::Resize { width: 1, height: 2 }, flow: Flow::Exit }
    );
}

#[test]
fn pressing_then_releasing_a_new_key_restores_the_held_keys() {
    let all = [Key::D, Key::A, Key::Left, Key::Key1, Key::Other(9)];
    let mut keys = PressedKeys::new();
    keys.press(Key::D);
    keys.press(Key::Left);
    let before_steps = keys.motion_steps();
    let before_held = held(&keys, &all);
    keys.press(Key::Key1);
    assert_eq!(keys.motion_steps().len(), 3);
    keys.release(Key::Key1);
    assert_eq!(keys.motion_steps(), before_steps);
    assert_eq!(held(&keys, &all), before_held);
}
