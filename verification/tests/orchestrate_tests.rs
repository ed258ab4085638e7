use vega::{load_state_str, render_state, run_invocation, Command, Layout, Rect, SessionState,
           Signature};

fn sig(app: &str, title: &str) -> Signature {
    Signature::new(String::from(app), String::from(title))
}

fn screen() -> Rect {
    Rect { x: 0, y: 0, width: 1000, height: 800 }
}

#[test]
fn first_invocation_cycle_scenario() {
    // no prior state file: the default state stands in for it
    let prior = load_state_str("");
    assert_eq!(prior.current_layout, Layout::Vertical);
    let live = vec![sig("App1", "T1"), sig("App2", "T2")];
    let eligible = vec![true, true];
    let outcome = run_invocation(&prior, &live, &eligible, None, Command::Cycle, screen());
    assert_eq!(outcome.state.current_layout, Layout::Horizontal);
    assert_eq!(outcome.state.window_order, vec![sig("App1", "T1"), sig("App2", "T2")]);
    assert_eq!(outcome.placements.len(), 2);
    assert_eq!(outcome.placements[0].live_index, 0);
    assert_eq!(outcome.placements[0].rect, Rect { x: 0, y: 0, width: 1000, height: 480 });
    assert_eq!(outcome.placements[1].live_index, 1);
    assert_eq!(outcome.placements[1].rect, Rect { x: 0, y: 480, width: 1000, height: 320 });
    let persisted = render_state(&outcome.state);
    assert_eq!(
        persisted,
        "{\"current_layout\":\"Horizontal\",\"window_order\":[[\"App1\",\"T1\"],[\"App2\",\"T2\"]]}"
    );
}

#[test]
fn promote_reorders_and_persists() {
    let prior = SessionState {
        current_layout: Layout::Vertical,
        window_order: vec![sig("A", "a"), sig("B", "b"), sig("C", "c"), sig("D", "d")],
    };
    let live = vec![sig("A", "a"), sig("B", "b"), sig("C", "c"), sig("D", "d")];
    let eligible = vec![true, true, true, true];
    // the focused window is C, live index 2
    let outcome = run_invocation(&prior, &live, &eligible, Some(2), Command::Promote, screen());
    assert_eq!(outcome.state.current_layout, Layout::Vertical);
    let names: Vec<&str> = outcome
        .state
        .window_order
        .iter()
        .map(|s| s.app_name.as_str())
        .collect();
    assert_eq!(names, vec!["C", "A", "B", "D"]);
}

#[test]
fn promote_without_focus_keeps_order() {
    let prior = SessionState {
        current_layout: Layout::Monocle,
        window_order: vec![sig("A", "a"), sig("B", "b")],
    };
    let live = vec![sig("A", "a"), sig("B", "b")];
    let eligible = vec![true, true];
    let outcome = run_invocation(&prior, &live, &eligible, None, Command::Promote, screen());
    assert_eq!(outcome.state.current_layout, Layout::Monocle);
    let names: Vec<&str> = outcome
        .state
        .window_order
        .iter()
        .map(|s| s.app_name.as_str())
        .collect();
    assert_eq!(names, vec!["A", "B"]);
}

#[test]
fn ineligible_windows_stay_in_order_but_get_no_geometry() {
    let prior = SessionState::default();
    let live = vec![sig("A", "a"), sig("B", "b"), sig("C", "c")];
    // B is minimized or off the main display
    let eligible = vec![true, false, true];
    let outcome = run_invocation(&prior, &live, &eligible, None, Command::Promote, screen());
    // the full order is persisted
    assert_eq!(outcome.order, vec![0, 1, 2]);
    assert_eq!(outcome.state.window_order.len(), 3);
    // but only the two eligible windows are tiled
    assert_eq!(outcome.placements.len(), 2);
    assert_eq!(outcome.placements[0].live_index, 0);
    assert_eq!(outcome.placements[1].live_index, 2);
    assert_eq!(outcome.placements[0].rect, Rect { x: 0, y: 0, width: 600, height: 800 });
    assert_eq!(outcome.placements[1].rect, Rect { x: 600, y: 0, width: 400, height: 800 });
}

#[test]
fn reconciliation_feeds_the_command() {
    let prior = SessionState {
        current_layout: Layout::Vertical,
        window_order: vec![sig("Gone", "g"), sig("B", "b")],
    };
    let live = vec![sig("New", "n"), sig("B", "b")];
    let eligible = vec![true, true];
    let outcome = run_invocation(&prior, &live, &eligible, None, Command::Cycle, screen());
    // B was remembered and leads; New is appended
    assert_eq!(outcome.order, vec![1, 0]);
    let names: Vec<&str> = outcome
        .state
        .window_order
        .iter()
        .map(|s| s.app_name.as_str())
        .collect();
    assert_eq!(names, vec!["B", "New"]);
}

#[test]
fn full_session_round_trip() {
    // invocation one: cycle with two fresh windows
    let live = vec![sig("App1", "T1"), sig("App2", "T2")];
    let eligible = vec![true, true];
    let first = run_invocation(
        &load_state_str(""),
        &live,
        &eligible,
        None,
        Command::Cycle,
        screen(),
    );
    let file = render_state(&first.state);
    // invocation two: reload the persisted state and cycle again
    let reloaded = load_state_str(&file);
    assert_eq!(reloaded.current_layout, Layout::Horizontal);
    let second = run_invocation(&reloaded, &live, &eligible, None, Command::Cycle, screen());
    assert_eq!(second.state.current_layout, Layout::Monocle);
    // monocle: every placement is the whole screen
    for p in &second.placements {
        assert_eq!(p.rect, screen());
    }
}
