use vivere::controls::{
    ButtonOutcome, KeyPress, TtyAction, TtyControl, ViewButtons, ViewControl, ViewKeys,
    MAX_TPS, MIN_TPS,
};

#[test]
fn terminal_speed_is_clamped_and_doubles_and_halves() {
    assert_eq!(TtyControl::new(0).tps(), MIN_TPS);
    assert_eq!(TtyControl::new(1_000_000).tps(), MAX_TPS);
    let mut c = TtyControl::new(60);
    assert_eq!(c.on_key(KeyPress::Char('+')), TtyAction::Continue);
    assert_eq!(c.tps(), 120);
    c.on_key(KeyPress::Char('='));
    assert_eq!(c.tps(), 240);
    c.on_key(KeyPress::Char('-'));
    c.on_key(KeyPress::Char('-'));
    c.on_key(KeyPress::Char('-'));
    assert_eq!(c.tps(), 30);
    let mut fast = TtyControl::new(70_000);
    fast.on_key(KeyPress::Char('+'));
    assert_eq!(fast.tps(), MAX_TPS);
    let mut slow = TtyControl::new(1);
    slow.on_key(KeyPress::Char('-'));
    assert_eq!(slow.tps(), MIN_TPS);
}

#[test]
fn terminal_steps_only_while_paused_and_quits_on_q_or_escape() {
    let mut c = TtyControl::new(60);
    assert!(!c.paused());
    assert_eq!(c.on_key(KeyPress::Char('.')), TtyAction::Continue);
    assert_eq!(c.on_key(KeyPress::Char(' ')), TtyAction::Continue);
    assert!(c.paused());
    assert_eq!(c.on_key(KeyPress::Char('.')), TtyAction::Step);
    assert_eq!(c.on_key(KeyPress::Char('x')), TtyAction::Continue);
    assert_eq!(c.on_key(KeyPress::Other), TtyAction::Continue);
    assert!(c.paused());
    assert_eq!(c.tps(), 60);
    assert_eq!(c.on_key(KeyPress::Char('q')), TtyAction::Quit);
    assert_eq!(c.on_key(KeyPress::Esc), TtyAction::Quit);
}

fn no_keys() -> ViewKeys {
    ViewKeys { toggle_pause: false, step: false, faster: false, slower: false, deselect: false }
}

fn no_buttons() -> ViewButtons {
    ViewButtons { pause: false, step: false, slower: false, faster: false }
}

#[test]
fn viewer_speed_saturates_at_both_ends() {
    let mut c = ViewControl::new();
    assert_eq!(c.speed(), 1);
    c.keys(ViewKeys { slower: true, ..no_keys() });
    assert_eq!(c.speed(), 1);
    for _ in 0..10 {
        c.keys(ViewKeys { faster: true, ..no_keys() });
    }
    assert_eq!(c.speed(), 128);
    c.buttons(ViewButtons { slower: true, ..no_buttons() });
    assert_eq!(c.speed(), 64);
    assert_eq!(c.ticks_this_frame(false), 64);
}

#[test]
fn viewer_pauses_steps_and_selects() {
    let mut c = ViewControl::new();
    // A step request while running is ignored; toggling first makes it count.
    assert!(!c.keys(ViewKeys { step: true, ..no_keys() }));
    assert!(c.keys(ViewKeys { toggle_pause: true, step: true, ..no_keys() }));
    assert!(c.paused());
    assert_eq!(c.ticks_this_frame(true), 1);
    assert_eq!(c.ticks_this_frame(false), 0);
    // The step button acts only while paused, and then takes the click.
    assert_eq!(
        c.buttons(ViewButtons { step: true, ..no_buttons() }),
        ButtonOutcome { step_now: true, ui_clicked: true }
    );
    assert_eq!(
        c.buttons(ViewButtons { pause: true, step: true, ..no_buttons() }),
        ButtonOutcome { step_now: false, ui_clicked: true }
    );
    assert!(!c.paused());
    assert_eq!(c.buttons(no_buttons()), ButtonOutcome { step_now: false, ui_clicked: false });
    c.select(Some(7));
    assert_eq!(c.selected(), Some(7));
    c.forget_if_gone(true);
    assert_eq!(c.selected(), Some(7));
    c.keys(ViewKeys { deselect: true, ..no_keys() });
    assert_eq!(c.selected(), None);
    c.select(Some(3));
    c.forget_if_gone(false);
    assert_eq!(c.selected(), None);
}
