use token_visualizer::model::{check_form, FormError};
use token_visualizer::storage::{conversation_text, name_order, read_conversation, sanitize};

#[test]
fn file_names_are_sanitized() {
    assert_eq!(sanitize("my chat!"), "my_chat_");
    assert_eq!(sanitize("a-b_c"), "a-b_c");
    assert_eq!(sanitize("été 2"), "été_2");
    assert_eq!(sanitize(""), "conversation");
    assert_eq!(sanitize("../x"), "___x");
}

#[test]
fn conversation_file_round_trip() {
    let turns = vec!["300 prompt, 400 out".to_string(), "marker: done".to_string()];
    let text = conversation_text("trip", "Opus 4.8", "5", "25", "0.5", 1_000_000, &turns);
    assert_eq!(
        text,
        "# name: trip\n# model: Opus 4.8\n# input: 5\n# output: 25\n# cached: 0.5\n# context: 1000000\n300 prompt, 400 out\nmarker: done\n"
    );
    let f = read_conversation(&text, "stem");
    assert_eq!(f.name, "trip");
    assert_eq!(f.model_name, "Opus 4.8");
    assert_eq!(f.input.as_deref(), Some("5"));
    assert_eq!(f.output.as_deref(), Some("25"));
    assert_eq!(f.cached.as_deref(), Some("0.5"));
    assert_eq!(f.context, 1_000_000);
    assert_eq!(f.turns, turns);
}

#[test]
fn conversation_file_defaults() {
    let f = read_conversation("\n  # unknown: x\n# context: lots\n  100 in  \n\n", "fallback");
    assert_eq!(f.name, "fallback");
    assert_eq!(f.model_name, "Custom");
    assert_eq!(f.input, None);
    assert_eq!(f.context, 1_000_000);
    assert_eq!(f.turns, vec!["100 in".to_string()]);
}

#[test]
fn saved_conversations_order_by_lowercase_name() {
    let names: Vec<String> = ["beta", "Alpha", "alpha", "Gamma"].iter().map(|s| s.to_string()).collect();
    assert_eq!(name_order(&names), vec![1, 2, 0, 3]);
    let names: Vec<String> = ["a", "B"].iter().map(|s| s.to_string()).collect();
    assert_eq!(name_order(&names), vec![0, 1]);
    assert_eq!(name_order(&Vec::new()), Vec::<usize>::new());
}

#[test]
fn custom_model_form() {
    assert_eq!(check_form("  ", true, true, true, "").err(), Some(FormError::EmptyName));
    assert_eq!(check_form("x", false, true, true, "").err(), Some(FormError::InputPrice));
    assert_eq!(check_form("x", true, false, true, "").err(), Some(FormError::OutputPrice));
    assert_eq!(check_form("x", true, true, false, "").err(), Some(FormError::CachedPrice));
    assert_eq!(check_form("x", true, true, true, "lots").err(), Some(FormError::Context));
    let m = check_form("  Mine ", true, true, true, "").unwrap();
    assert_eq!((m.name.as_str(), m.context_window), ("Mine", 1_000_000));
    let m = check_form("Mine", true, true, true, " 32000 ").unwrap();
    assert_eq!(m.context_window, 32_000);
    assert_eq!(FormError::Context.message(), "Context must be a whole number of tokens");
    assert_eq!(FormError::EmptyName.message(), "Name cannot be empty");
}

#[test]
fn sanitized_names_are_safe_and_stable() {
    assert_eq!(sanitize("../My chat"), "___My_chat");
    assert_eq!(sanitize("a\\b.c/d"), "a_b_c_d");
    for name in ["../My chat", "", "conversation", "été 2", "x-y_z"] {
        let once = sanitize(name);
        assert_eq!(sanitize(&once), once);
        assert!(!once.is_empty());
        assert!(!once.contains('/') && !once.contains('\\') && !once.contains('.'));
    }
}

#[test]
fn header_values_read_back_trimmed() {
    let turns = vec!["1 in".to_string()];
    let text = conversation_text("  trip  ", " Opus 4.8", "5", "25", "0.5", 7, &turns);
    let f = read_conversation(&text, "stem");
    assert_eq!(f.name, "trip");
    assert_eq!(f.model_name, "Opus 4.8");
    assert_eq!(f.context, 7);
    assert_eq!(f.turns, turns);
    let f = read_conversation(&conversation_text("   ", "", "5", "25", "0.5", 7, &turns), "stem");
    assert_eq!(f.name, "");
    assert_eq!(f.model_name, "");
}
