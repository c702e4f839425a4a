use token_visualizer::app::{App, Screen};

fn chat_app() -> App {
    let mut app = App::new();
    app.choose_model();
    app.screen = Screen::Chat;
    app
}

fn bill(app: &mut App, line: &str) {
    app.input = line.to_string();
    app.submit_turn();
}

#[test]
fn tabs_keep_their_conversations() {
    let mut app = chat_app();
    bill(&mut app, "100 in");
    app.new_tab();
    assert_eq!(app.tabs.len(), 2);
    assert_eq!(app.active_tab, 1);
    assert_eq!(app.screen, Screen::ModelSelect);
    assert!(app.turns.is_empty());
    assert_eq!(app.active_model, None);
    app.select_down();
    app.choose_model();
    bill(&mut app, "1 in");
    bill(&mut app, "2 in");
    assert_eq!(app.tab_turns(0).len(), 1);
    assert_eq!(app.tab_turns(1).len(), 2);
    assert_eq!(app.tab_model(0).unwrap().name, "Opus 4.8");
    assert_eq!(app.tab_model(1).unwrap().name, "Sonnet 4.6");
    app.next_tab();
    assert_eq!(app.active_tab, 0);
    assert_eq!(app.turns.len(), 1);
    assert_eq!(app.screen, Screen::Chat);
    app.prev_tab();
    assert_eq!(app.active_tab, 1);
    assert_eq!(app.turns.len(), 2);
    app.next_tab();
    app.prev_tab();
    assert_eq!(app.active_tab, 1);
    assert_eq!(app.turns.len(), 2);
}

#[test]
fn closing_tabs() {
    let mut app = chat_app();
    app.close_tab();
    assert_eq!(app.status, "Can't close the last tab.");
    bill(&mut app, "5 in");
    app.new_tab();
    app.choose_model();
    app.close_tab();
    assert_eq!(app.tabs.len(), 1);
    assert_eq!(app.active_tab, 0);
    assert_eq!(app.turns.len(), 1);
    assert_eq!(app.screen, Screen::Chat);
}

#[test]
fn tab_bar_labels() {
    let mut app = chat_app();
    bill(&mut app, "5 in");
    app.new_tab();
    let s = app.tab_summaries(&vec!["0.001".to_string(), "0.000".to_string()]);
    assert_eq!(s.len(), 2);
    assert_eq!(s[0].label, "1:Opus 4.8 (1\u{b7}$0.001)");
    assert!(!s[0].active);
    assert_eq!(s[1].label, "2:\u{2014} (0\u{b7}$0.000)");
    assert!(s[1].active);
}
