use vega::{load_state_str, parse_state, render_state, Layout, SessionState, Signature};

fn sig(app: &str, title: &str) -> Signature {
    Signature::new(String::from(app), String::from(title))
}

fn state(layout: Layout, sigs: Vec<Signature>) -> SessionState {
    SessionState {
        current_layout: layout,
        window_order: sigs,
    }
}

fn assert_states_equal(a: &SessionState, b: &SessionState) {
    assert_eq!(a.current_layout, b.current_layout);
    assert_eq!(a.window_order, b.window_order);
}

#[test]
fn render_default_state() {
    let s = SessionState::default();
    assert_eq!(
        render_state(&s),
        "{\"current_layout\":\"Vertical\",\"window_order\":[]}"
    );
}

#[test]
fn render_two_windows() {
    let s = state(Layout::Monocle, vec![sig("App1", "T1"), sig("App2", "T2")]);
    assert_eq!(
        render_state(&s),
        "{\"current_layout\":\"Monocle\",\"window_order\":[[\"App1\",\"T1\"],[\"App2\",\"T2\"]]}"
    );
}

#[test]
fn round_trip_plain_state() {
    let s = state(Layout::Horizontal, vec![sig("Mail", "Inbox"), sig("Editor", "notes.txt")]);
    let loaded = parse_state(&render_state(&s)).expect("canonical text must parse");
    assert_states_equal(&s, &loaded);
}

#[test]
fn round_trip_escaped_characters() {
    let s = state(
        Layout::Vertical,
        vec![
            sig("Term \"beta\"", "dir \\tmp\\x"),
            sig("", "\"\\\""),
        ],
    );
    let text = render_state(&s);
    let loaded = parse_state(&text).expect("escaped text must parse");
    assert_states_equal(&s, &loaded);
}

#[test]
fn round_trip_empty_names() {
    let s = state(Layout::Monocle, vec![sig("", "")]);
    let loaded = parse_state(&render_state(&s)).expect("empty names must parse");
    assert_states_equal(&s, &loaded);
}

#[test]
fn parse_rejects_garbage() {
    assert!(parse_state("").is_none());
    assert!(parse_state("not json at all").is_none());
    assert!(parse_state("{\"current_layout\":\"Diagonal\",\"window_order\":[]}").is_none());
    assert!(parse_state("{\"current_layout\":\"Vertical\",\"window_order\":[}").is_none());
}

#[test]
fn parse_rejects_trailing_text() {
    let good = "{\"current_layout\":\"Vertical\",\"window_order\":[]}";
    assert!(parse_state(good).is_some());
    let mut bad = String::from(good);
    bad.push(' ');
    assert!(parse_state(&bad).is_none());
}

#[test]
fn load_falls_back_to_default_state() {
    let loaded = load_state_str("corrupt {{{");
    assert_eq!(loaded.current_layout, Layout::Vertical);
    assert!(loaded.window_order.is_empty());
}

#[test]
fn load_reads_back_saved_state() {
    let s = state(Layout::Horizontal, vec![sig("A", "1")]);
    let loaded = load_state_str(&render_state(&s));
    assert_states_equal(&s, &loaded);
}

#[test]
fn rendered_state_is_valid_json() {
    let s = state(Layout::Horizontal, vec![sig("App \"x\"", "a\\b"), sig("B", "t")]);
    let text = render_state(&s);
    let value: serde_json::Value = serde_json::from_str(&text).expect("renderer must emit JSON");
    assert_eq!(value["current_layout"], "Horizontal");
    let order = value["window_order"].as_array().expect("array");
    assert_eq!(order.len(), 2);
    assert_eq!(order[0][0], "App \"x\"");
    assert_eq!(order[0][1], "a\\b");
    assert_eq!(order[1][0], "B");
    assert_eq!(order[1][1], "t");
}
