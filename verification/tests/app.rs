use token_visualizer::app::App;
use token_visualizer::lines::extract_inline_marker;

#[test]
fn extract_inline_marker_pulls_label_and_cleans_line() {
    let (line, label) = extract_inline_marker("300 prompt, 400 out, marker: reviewed");
    assert_eq!(line, "300 prompt, 400 out");
    assert_eq!(label.as_deref(), Some("reviewed"));
}

#[test]
fn extract_inline_marker_without_label() {
    let (line, label) = extract_inline_marker("300 prompt; 400 out; marker");
    assert_eq!(line, "300 prompt, 400 out");
    assert_eq!(label.as_deref(), Some(""));
}

#[test]
fn extract_inline_marker_absent_leaves_line() {
    let (line, label) = extract_inline_marker("300 prompt, 400 out");
    assert_eq!(line, "300 prompt, 400 out");
    assert_eq!(label, None);
}

#[test]
fn inline_marker_billed_turn_then_marker_after_it() {
    let mut app = App::new();
    app.active_model = Some(0);
    assert!(app.apply_turn("300 prompt, 400 out, marker: here".into()));
    // The turn is billed and stored without the marker text.
    assert_eq!(app.turns.len(), 1);
    assert_eq!(app.turns[0].raw, "300 prompt, 400 out");
    assert_eq!(app.turns[0].input, 300);
    assert_eq!(app.turns[0].output, 400);
    // The marker lands right after that turn.
    assert_eq!(app.markers.len(), 1);
    assert_eq!(app.markers[0].after, 1);
    assert_eq!(app.markers[0].label, "here");
}
