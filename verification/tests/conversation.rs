use token_visualizer::app::{App, Screen, Submitted};

fn chat_app() -> App {
    let mut app = App::new();
    app.choose_model();
    app.screen = Screen::Chat;
    app
}

fn submit(app: &mut App, line: &str) -> Submitted {
    app.input = line.to_string();
    app.submit_turn()
}

#[test]
fn repeat_accumulates_context() {
    let mut app = chat_app();
    assert_eq!(submit(&mut app, "300 prompt, 400 out, 50 thinking, repeat 3"), Submitted::Billed(3));
    let cached: Vec<u64> = app.turns.iter().map(|t| t.cached).collect();
    assert_eq!(cached, vec![0, 700, 1_400]);
    assert_eq!(app.carried_cached, 2_100);
    assert_eq!(app.context_used(), 2_100);
    assert_eq!(app.status, "Added 3 turns. 2100 tokens now cached.");
    for t in &app.turns {
        assert_eq!(t.raw, "300 prompt, 400 out, 50 thinking");
        assert_eq!(t.thinking, 50);
    }
    assert_eq!(app.input, "");
    assert_eq!(app.input_history, vec!["300 prompt, 400 out, 50 thinking, repeat 3".to_string()]);
}

#[test]
fn cached_override_bills_first_repetition() {
    let mut app = chat_app();
    submit(&mut app, "100 in, 100 out");
    assert_eq!(submit(&mut app, "cached 50, 10 in, 10 out, repeat 2"), Submitted::Billed(2));
    let cached: Vec<u64> = app.turns.iter().map(|t| t.cached).collect();
    assert_eq!(cached, vec![0, 50, 70]);
    assert_eq!(app.carried_cached, 90);
}

#[test]
fn single_turn_leaves_cost_status_to_front_end() {
    let mut app = chat_app();
    assert_eq!(submit(&mut app, "300 prompt, 400 out"), Submitted::Billed(1));
    assert_eq!(app.turns.len(), 1);
    assert_eq!(app.carried_cached, 700);
}

#[test]
fn blank_clear_and_marker_commands() {
    let mut app = chat_app();
    assert_eq!(submit(&mut app, "   "), Submitted::Nothing);
    submit(&mut app, "100 in");
    assert_eq!(submit(&mut app, "marker: checkpoint"), Submitted::Marker);
    assert_eq!(app.markers.len(), 1);
    assert_eq!(app.markers[0].after, 1);
    assert_eq!(app.status, "Marker 'checkpoint' placed after turn 1.");
    assert_eq!(submit(&mut app, "marker"), Submitted::Marker);
    assert_eq!(app.status, "Marker placed after turn 1.");
    assert_eq!(submit(&mut app, "CLEAR"), Submitted::Cleared);
    assert!(app.turns.is_empty());
    assert!(app.markers.is_empty());
    assert_eq!(app.carried_cached, 0);
    assert_eq!(app.status, "Conversation cleared.");
}

#[test]
fn line_without_counts_is_refused() {
    let mut app = chat_app();
    assert_eq!(submit(&mut app, "hello there"), Submitted::NoCounts);
    assert!(app.turns.is_empty());
    assert_eq!(app.input, "hello there");
    let mut no_model = App::new();
    no_model.input = "100 in".to_string();
    assert_eq!(no_model.submit_turn(), Submitted::NoCounts);
}

#[test]
fn overflowing_line_does_not_fit() {
    let app = chat_app();
    assert!(app.turn_fits("100 in, 200 out"));
    assert!(!app.turn_fits("18446744073709551615 in, 1 out"));
    assert!(!app.turn_fits("9223372036854775808 in, repeat 2"));
    assert!(app.turn_fits("marker: 18446744073709551615 in, 1 out"));
}

#[test]
fn history_recall_skips_repeated_lines() {
    let mut app = chat_app();
    submit(&mut app, "100 in");
    submit(&mut app, "100 in");
    submit(&mut app, "200 out");
    assert_eq!(app.input_history.len(), 2);
    app.history_up();
    assert_eq!(app.input, "200 out");
    app.history_up();
    assert_eq!(app.input, "100 in");
    app.history_up();
    assert_eq!(app.input, "100 in");
    app.history_down();
    assert_eq!(app.input, "200 out");
    app.history_down();
    assert_eq!(app.input, "");
    assert_eq!(app.history_pos, None);
}

#[test]
fn saved_lines_reload_the_conversation() {
    let mut app = chat_app();
    for line in ["marker: start", "300 prompt, 400 out, marker: after first", "100 in, 5 thinking, repeat 2", "marker"] {
        submit(&mut app, line);
    }
    let raws = app.history_raws();
    assert_eq!(
        raws,
        vec![
            "marker: start",
            "300 prompt, 400 out",
            "marker: after first",
            "100 in, 5 thinking",
            "100 in, 5 thinking",
            "marker",
        ]
    );
    let mut fresh = chat_app();
    assert!(fresh.load_fits(&raws));
    fresh.load_turns(raws);
    assert_eq!(fresh.turns.len(), app.turns.len());
    for (a, b) in fresh.turns.iter().zip(app.turns.iter()) {
        assert_eq!((&a.raw, a.cached, a.input, a.output, a.thinking), (&b.raw, b.cached, b.input, b.output, b.thinking));
    }
    let fm: Vec<(usize, String)> = fresh.markers.iter().map(|m| (m.after, m.label.clone())).collect();
    let am: Vec<(usize, String)> = app.markers.iter().map(|m| (m.after, m.label.clone())).collect();
    assert_eq!(fm, am);
    assert_eq!(fresh.carried_cached, app.carried_cached);
    assert_eq!(fresh.status, "Loaded 3 turns. Continue typing to add more.");
    assert_eq!(fresh.screen, Screen::Chat);
}

#[test]
fn token_totals() {
    let mut app = chat_app();
    submit(&mut app, "100 in, 10 out, 3 thinking");
    submit(&mut app, "20 in, 1 out");
    assert!(app.totals_fit());
    assert_eq!(app.total_tokens(), (110, 120, 11, 3));
}

#[test]
fn context_window_of_active_model() {
    let mut app = App::new();
    assert_eq!(app.context_max(), 0);
    app.choose_model();
    assert_eq!(app.context_max(), 1_000_000);
}
