use akvisionator::input::{Input, KeyCode, KeyEvent, KeyEventKind};

fn ev(code: KeyCode, kind: KeyEventKind) -> KeyEvent {
    KeyEvent { code, kind, ctrl: false }
}

#[test]
fn held_keys_drive_the_controls_until_released() {
    let mut i = Input::default();
    i.handle(ev(KeyCode::Left, KeyEventKind::Press));
    i.handle(ev(KeyCode::Char('Z'), KeyEventKind::Press));
    let c = i.controls();
    assert!(c.left && c.jump && !c.right && !c.fire);
    i.handle(ev(KeyCode::Char('z'), KeyEventKind::Release));
    i.handle(ev(KeyCode::Left, KeyEventKind::Repeat));
    let c = i.controls();
    assert!(c.left && !c.jump);
    i.handle(ev(KeyCode::Left, KeyEventKind::Release));
    assert!(!i.controls().left);
    i.handle(ev(KeyCode::Char(' '), KeyEventKind::Press));
    i.handle(ev(KeyCode::Char('d'), KeyEventKind::Press));
    let c = i.controls();
    assert!(c.fire && c.right);
    i.clear();
    let c = i.controls();
    assert!(!c.fire && !c.right && !c.left && !c.jump);
    assert!(!i.quit);
}

#[test]
fn esc_q_and_control_c_quit_but_releases_do_not() {
    let mut i = Input::default();
    i.handle(ev(KeyCode::Char('c'), KeyEventKind::Press));
    assert!(!i.quit);
    i.handle(ev(KeyCode::Esc, KeyEventKind::Release));
    assert!(!i.quit);
    i.handle(KeyEvent { code: KeyCode::Char('C'), kind: KeyEventKind::Press, ctrl: true });
    assert!(i.quit);
    let mut i = Input::default();
    i.handle(ev(KeyCode::Char('Q'), KeyEventKind::Press));
    assert!(i.quit);
    let mut i = Input::default();
    i.handle(ev(KeyCode::Esc, KeyEventKind::Repeat));
    assert!(i.quit);
}

#[test]
fn a_key_pressed_twice_is_held_once() {
    let mut i = Input::default();
    i.handle(ev(KeyCode::Right, KeyEventKind::Press));
    i.handle(ev(KeyCode::Right, KeyEventKind::Press));
    assert_eq!(i.held.len(), 1);
    i.handle(ev(KeyCode::Right, KeyEventKind::Release));
    assert!(i.held.is_empty());
    assert!(!i.controls().right);
}
