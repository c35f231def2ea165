use engramai::turn_window::{TurnWindow, DEFAULT_WINDOW};

#[test]
fn empty_window_yields_no_context() {
    let win = TurnWindow::new(4);
    assert!(win.context().is_empty());
    assert!(win.is_empty());
    assert_eq!(win.len(), 0);
}

#[test]
fn evicts_oldest_at_capacity() {
    let mut win = TurnWindow::new(3);
    win.push("a");
    win.push("b");
    win.push("c");
    assert_eq!(win.context(), vec!["a", "b", "c"]);
    // Fourth push evicts "a".
    win.push("d");
    assert_eq!(win.context(), vec!["b", "c", "d"]);
    assert_eq!(win.len(), 3);
    assert_eq!(win.capacity(), 3);
}

#[test]
fn capacity_zero_is_noop() {
    let mut win = TurnWindow::new(0);
    win.push("a");
    win.push("b");
    assert!(win.context().is_empty());
    assert!(win.is_empty());
}

#[test]
fn clear_resets_window() {
    let mut win = TurnWindow::with_default();
    assert_eq!(win.capacity(), DEFAULT_WINDOW);
    win.push("a");
    win.push("b");
    assert_eq!(win.len(), 2);
    win.clear();
    assert!(win.is_empty());
    assert!(win.context().is_empty());
}

#[test]
fn second_turn_sees_the_question() {
    let mut win = TurnWindow::new(4);
    assert!(win.context().is_empty());
    win.push("Have you thought about adopting?");
    assert_eq!(win.context(), &["Have you thought about adopting?".to_string()]);
    win.push("Researching adoption agencies");
    assert_eq!(win.len(), 2);
}

#[test]
fn window_holds_the_last_turns_of_a_long_conversation() {
    let mut win = TurnWindow::with_default();
    for i in 0..100 {
        win.push(format!("turn {}", i).as_str());
    }
    assert_eq!(win.context(), vec!["turn 96", "turn 97", "turn 98", "turn 99"]);
}

#[test]
fn a_window_can_be_used_after_it_was_cleared() {
    let mut win = TurnWindow::new(1);
    win.push("a");
    win.clear();
    assert_eq!(win.capacity(), 1);
    win.push("b");
    win.push("c");
    assert_eq!(win.context(), vec!["c"]);
}
