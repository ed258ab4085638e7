use vega::{cycle_layout, parse_command, promote, Command, Layout};

#[test]
fn cycle_order_is_vertical_horizontal_monocle() {
    assert_eq!(cycle_layout(Layout::Vertical), Layout::Horizontal);
    assert_eq!(cycle_layout(Layout::Horizontal), Layout::Monocle);
    assert_eq!(cycle_layout(Layout::Monocle), Layout::Vertical);
}

#[test]
fn cycling_three_times_returns_to_start() {
    for start in [Layout::Vertical, Layout::Horizontal, Layout::Monocle] {
        let after = cycle_layout(cycle_layout(cycle_layout(start)));
        assert_eq!(after, start);
    }
}

#[test]
fn promote_moves_entry_to_front() {
    let mut order = vec!['A', 'B', 'C', 'D'];
    promote(&mut order, Some(2));
    assert_eq!(order, vec!['C', 'A', 'B', 'D']);
}

#[test]
fn promote_first_entry_is_a_noop() {
    let mut order = vec![10u32, 20, 30];
    promote(&mut order, Some(0));
    assert_eq!(order, vec![10, 20, 30]);
}

#[test]
fn promote_absent_window_leaves_order_unchanged() {
    let mut order = vec!['A', 'B', 'C'];
    promote(&mut order, None);
    assert_eq!(order, vec!['A', 'B', 'C']);
    promote(&mut order, Some(3));
    assert_eq!(order, vec!['A', 'B', 'C']);
}

#[test]
fn command_words_are_recognized() {
    assert_eq!(parse_command("cycle"), Some(Command::Cycle));
    assert_eq!(parse_command("promote"), Some(Command::Promote));
    assert_eq!(parse_command("Cycle"), None);
    assert_eq!(parse_command("retile"), None);
    assert_eq!(parse_command(""), None);
}
