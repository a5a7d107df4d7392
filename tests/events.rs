use bandwidth_tracker::events::{is_shutdown_event, Event, KeyInput, KeyKind, NoOp, TerminalEvent};

fn key(kind: KeyKind, character: Option<char>, control_only: bool) -> KeyInput {
    KeyInput { kind, character, control_only }
}

#[test]
fn q_press_quits() {
    let k = key(KeyKind::Press, Some('q'), false);
    assert!(is_shutdown_event(&k));
    assert_eq!(Event::try_from(TerminalEvent::Key(k)), Ok(Event::Quit));
}

#[test]
fn control_c_quits_but_plain_c_does_not() {
    assert!(is_shutdown_event(&key(KeyKind::Press, Some('c'), true)));
    assert!(!is_shutdown_event(&key(KeyKind::Press, Some('c'), false)));
}

#[test]
fn release_and_repeat_do_not_quit() {
    assert!(!is_shutdown_event(&key(KeyKind::Release, Some('q'), false)));
    assert!(!is_shutdown_event(&key(KeyKind::Repeat, Some('q'), false)));
}

#[test]
fn other_events_are_no_op() {
    assert_eq!(Event::try_from(TerminalEvent::Other), Err(NoOp));
    assert_eq!(Event::try_from(TerminalEvent::Key(key(KeyKind::Press, None, true))), Err(NoOp));
    assert_eq!(Event::try_from(TerminalEvent::Key(key(KeyKind::Press, Some('x'), false))), Err(NoOp));
}
