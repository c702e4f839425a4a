use token_visualizer::app::{example_conversations, App, Screen, StartItem};
use token_visualizer::model::ModelInfo;
use token_visualizer::storage::SavedConversation;

fn saved(name: &str, model: &str, turns: &[&str]) -> SavedConversation {
    saved_with_window(name, model, 200_000, turns)
}

fn saved_with_window(name: &str, model: &str, window: u64, turns: &[&str]) -> SavedConversation {
    SavedConversation {
        name: name.to_string(),
        model: ModelInfo::new(model, window),
        turns: turns.iter().map(|t| t.to_string()).collect(),
    }
}

#[test]
fn model_highlight_wraps() {
    let mut app = App::new();
    assert_eq!(app.models.len(), 5);
    app.select_up();
    assert_eq!(app.selected, 4);
    app.select_down();
    assert_eq!(app.selected, 0);
    app.select_down();
    app.select_up();
    assert_eq!(app.selected, 0);
}

#[test]
fn form_focus_cycles() {
    let mut app = App::new();
    app.open_form();
    assert_eq!(app.screen, Screen::CustomModel);
    app.form_prev();
    assert_eq!(app.form_field, 4);
    app.form_next();
    assert_eq!(app.form_field, 0);
}

#[test]
fn examples_are_listed() {
    let ex = example_conversations();
    let names: Vec<&str> = ex.iter().map(|(n, _)| n.as_str()).collect();
    assert_eq!(names, vec!["Quick Q&A", "Coding session with tools", "Long agentic run"]);
    assert_eq!(ex[2].1.len(), 4);
    assert_eq!(ex[0].1[0], "200 prompt, 350 response");
}

#[test]
fn start_picker_labels() {
    assert_eq!(StartItem::Blank.label(), "Blank conversation");
    let ex = StartItem::Example { name: "Quick Q&A".into(), turns: vec!["1 in".into(); 3] };
    assert_eq!(ex.label(), "Example: Quick Q&A  (3 turns)");
    let s = StartItem::Saved {
        name: "mine".into(),
        model: ModelInfo::new("Opus 4.8", 1_000_000),
        turns: vec!["marker".into(), "1 in".into(), "marker: x".into(), "2 out".into()],
    };
    assert_eq!(s.label(), "Saved: mine  \u{2014} Opus 4.8 (2 turns)");
}

#[test]
fn start_picker_opens_an_example() {
    let mut app = App::new();
    app.choose_model();
    app.open_start(vec![saved("mine", "Opus 4.8", &["1 in"])]);
    assert_eq!(app.screen, Screen::Start);
    assert_eq!(app.start_items.len(), 5);
    app.start_up();
    assert_eq!(app.start_selected, 4);
    assert_eq!(app.selected_saved_name(), Some("mine"));
    app.start_down();
    app.start_down();
    assert_eq!(app.start_selected, 1);
    assert!(app.start_choice_fits());
    app.start_choose(&vec![false; 5]);
    assert_eq!(app.screen, Screen::Chat);
    assert_eq!(app.turns.len(), 3);
    assert_eq!(app.input_history.len(), 3);
    assert_eq!(app.status, "Loaded 3 turns. Continue typing to add more.");
}

#[test]
fn start_picker_blank() {
    let mut app = App::new();
    app.choose_model();
    app.open_start(Vec::new());
    app.start_choose(&vec![false; 5]);
    assert_eq!(app.screen, Screen::Chat);
    assert!(app.turns.is_empty());
    assert_eq!(app.status, "New conversation. Describe a turn and press Enter.");
}

#[test]
fn saved_conversation_registers_its_model() {
    let mut app = App::new();
    app.choose_model();
    app.open_start(vec![saved("mine", "Tiny", &["100 in", "marker: x"])]);
    app.start_up();
    app.start_choose(&vec![false; 5]);
    assert_eq!(app.models.len(), 6);
    assert_eq!(app.models[5].name, "Tiny");
    assert_eq!(app.active_model, Some(5));
    assert_eq!(app.selected, 5);
    assert_eq!(app.conv_name.as_deref(), Some("mine"));
    assert_eq!(app.turns.len(), 1);
    assert_eq!(app.markers.len(), 1);
    assert_eq!(app.context_max(), 200_000);
}

#[test]
fn saved_conversation_reuses_a_matching_model() {
    let mut app = App::new();
    app.choose_model();
    app.open_start(vec![saved_with_window("mine", "Haiku 4.5", 1_000_000, &["100 in"])]);
    app.start_up();
    app.start_choose(&vec![false, false, true, false, false]);
    assert_eq!(app.models.len(), 5);
    assert_eq!(app.active_model, Some(2));
}

#[test]
fn saved_model_with_another_window_is_registered() {
    let mut app = App::new();
    app.choose_model();
    app.open_start(vec![saved_with_window("mine", "Opus 4.8", 200_000, &["100 in"])]);
    app.start_up();
    app.start_choose(&vec![true, false, false, false, false]);
    assert_eq!(app.models.len(), 6);
    assert_eq!(app.active_model, Some(5));
    assert_eq!(app.context_max(), 200_000);
}

#[test]
fn saved_model_with_other_prices_is_registered() {
    let mut app = App::new();
    app.choose_model();
    app.open_start(vec![saved_with_window("mine", "Opus 4.8", 1_000_000, &["100 in"])]);
    app.start_up();
    app.start_choose(&vec![false; 5]);
    assert_eq!(app.models.len(), 6);
    assert_eq!(app.active_model, Some(5));
}

#[test]
fn only_saved_items_can_be_deleted() {
    let mut app = App::new();
    app.choose_model();
    app.open_start(vec![saved("a", "Opus 4.8", &["1 in"]), saved("b", "Opus 4.8", &["1 in"])]);
    app.request_delete();
    assert_eq!(app.status, "Only saved conversations can be deleted.");
    assert_eq!(app.screen, Screen::Start);
    app.start_up();
    app.request_delete();
    assert_eq!(app.screen, Screen::ConfirmDelete);
    app.cancel_delete();
    assert_eq!(app.screen, Screen::Start);
    app.request_delete();
    app.deleted("b", vec![saved("a", "Opus 4.8", &["1 in"])]);
    assert_eq!(app.screen, Screen::Start);
    assert_eq!(app.start_items.len(), 5);
    assert_eq!(app.start_selected, 4);
    assert_eq!(app.status, "Deleted saved conversation 'b'.");
    app.delete_failed("denied");
    assert_eq!(app.status, "Delete failed: denied");
}

#[test]
fn save_prompt_defaults() {
    let mut app = App::new();
    app.choose_model();
    app.screen = Screen::Chat;
    app.open_save();
    assert_eq!(app.status, "Nothing to save yet.");
    assert_eq!(app.screen, Screen::Chat);
    app.input = "100 in".into();
    app.submit_turn();
    app.open_save();
    assert_eq!(app.screen, Screen::SaveName);
    assert_eq!(app.save_name, "Opus 4.8 conversation");
    app.save_name = "  trip  ".into();
    let (name, raws) = app.save_request().unwrap();
    assert_eq!(name, "trip");
    assert_eq!(raws, vec!["100 in".to_string()]);
    app.saved_as(name, "/tmp/trip.txt");
    assert_eq!(app.conv_name.as_deref(), Some("trip"));
    assert_eq!(app.status, "Saved to /tmp/trip.txt");
    app.open_save();
    assert_eq!(app.save_name, "trip");
    app.save_failed("disk full");
    assert_eq!(app.status, "Save failed: disk full");
    assert_eq!(app.screen, Screen::Chat);
}

#[test]
fn scrolling_stays_in_range() {
    let mut app = App::new();
    app.history_max_scroll = 2;
    app.scroll_history_up();
    app.scroll_history_up();
    app.scroll_history_up();
    assert_eq!(app.scroll_up, 2);
    app.scroll_history_down();
    assert_eq!(app.scroll_up, 1);
    app.scroll_history_down();
    app.scroll_history_down();
    assert_eq!(app.scroll_up, 0);
}

#[test]
fn add_custom_model() {
    let mut app = App::new();
    app.open_form();
    app.add_model(ModelInfo::new("Mine", 32_000));
    assert_eq!(app.models.len(), 6);
    assert_eq!(app.selected, 5);
    assert_eq!(app.screen, Screen::ModelSelect);
}
