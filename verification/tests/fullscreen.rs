use akvisionator::fullscreen::{Fullscreen, Rect, enter, leave};

const SMALL: Rect = Rect { left: 10, top: 10, right: 800, bottom: 600 };
const MONITOR: Rect = Rect { left: 0, top: 0, right: 1920, bottom: 1080 };

#[test]
fn presses_f11_only_in_the_terminal_when_not_fullscreen_and_back_once() {
    let mut f = Fullscreen::new();
    assert!(!enter(&mut f, false, Some(SMALL), Some(MONITOR)));
    assert!(!enter(&mut f, true, None, Some(MONITOR)));
    assert!(!enter(&mut f, true, Some(MONITOR), Some(MONITOR)));
    assert!(!leave(&mut f));
    assert!(enter(&mut f, true, Some(SMALL), Some(MONITOR)));
    assert!(leave(&mut f));
    assert!(!leave(&mut f));
}
