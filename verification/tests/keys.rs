use token_visualizer::app::{App, Screen};
use token_visualizer::keys::{key_action, Action, Key};

#[test]
fn control_c_quits_everywhere() {
    for s in [Screen::ModelSelect, Screen::CustomModel, Screen::Start, Screen::Chat, Screen::SaveName, Screen::ConfirmDelete] {
        assert_eq!(key_action(s, Key::Ctrl('c')), Action::Quit);
    }
}

#[test]
fn model_select_keys() {
    assert_eq!(key_action(Screen::ModelSelect, Key::Char('q')), Action::Quit);
    assert_eq!(key_action(Screen::ModelSelect, Key::Char('k')), Action::SelectUp);
    assert_eq!(key_action(Screen::ModelSelect, Key::Down), Action::SelectDown);
    assert_eq!(key_action(Screen::ModelSelect, Key::Char('c')), Action::OpenForm);
    assert_eq!(key_action(Screen::ModelSelect, Key::Enter), Action::ChooseModel);
    assert_eq!(key_action(Screen::ModelSelect, Key::Char('x')), Action::Ignore);
}

#[test]
fn start_and_delete_keys() {
    assert_eq!(key_action(Screen::Start, Key::Esc), Action::BackToModels);
    assert_eq!(key_action(Screen::Start, Key::Char('j')), Action::StartDown);
    assert_eq!(key_action(Screen::Start, Key::Enter), Action::ChooseStart);
    assert_eq!(key_action(Screen::Start, Key::Char('d')), Action::RequestDelete);
    assert_eq!(key_action(Screen::Start, Key::Delete), Action::RequestDelete);
    assert_eq!(key_action(Screen::ConfirmDelete, Key::Char('y')), Action::ConfirmDelete);
    assert_eq!(key_action(Screen::ConfirmDelete, Key::Esc), Action::CancelDelete);
    assert_eq!(key_action(Screen::ConfirmDelete, Key::Enter), Action::Ignore);
}

#[test]
fn typing_keys() {
    assert_eq!(key_action(Screen::SaveName, Key::Char('q')), Action::SaveNameChar('q'));
    assert_eq!(key_action(Screen::SaveName, Key::Enter), Action::SubmitSave);
    assert_eq!(key_action(Screen::CustomModel, Key::Char('7')), Action::FormChar('7'));
    assert_eq!(key_action(Screen::CustomModel, Key::BackTab), Action::FormPrev);
    assert_eq!(key_action(Screen::CustomModel, Key::Esc), Action::LeaveToModels);
    assert_eq!(key_action(Screen::Chat, Key::Char('q')), Action::InputChar('q'));
    assert_eq!(key_action(Screen::Chat, Key::Ctrl('s')), Action::OpenSave);
    assert_eq!(key_action(Screen::Chat, Key::Ctrl('t')), Action::NewTab);
    assert_eq!(key_action(Screen::Chat, Key::Ctrl('w')), Action::CloseTab);
    assert_eq!(key_action(Screen::Chat, Key::Tab), Action::NextTab);
    assert_eq!(key_action(Screen::Chat, Key::BackTab), Action::PrevTab);
    assert_eq!(key_action(Screen::Chat, Key::WheelUp), Action::ScrollUp);
    assert_eq!(key_action(Screen::Chat, Key::Enter), Action::SubmitTurn);
}

#[test]
fn editing_the_lines_typed() {
    let mut app = App::new();
    app.input_char('1');
    app.input_char('é');
    assert_eq!(app.input, "1é");
    app.input_backspace();
    assert_eq!(app.input, "1");
    app.input_backspace();
    app.input_backspace();
    assert_eq!(app.input, "");
    app.save_name_char('a');
    app.save_name_char('b');
    app.save_name_backspace();
    assert_eq!(app.save_name, "a");
    app.status = "x".into();
    app.screen = Screen::Chat;
    app.back_to_models(false);
    assert_eq!(app.status, "x");
    assert_eq!(app.screen, Screen::ModelSelect);
    app.back_to_models(true);
    assert_eq!(app.status, "");
    app.cancel_save();
    assert_eq!(app.screen, Screen::Chat);
}

#[test]
fn control_letters_type_in_text_fields() {
    assert_eq!(key_action(Screen::SaveName, Key::Ctrl('s')), Action::SaveNameChar('s'));
    assert_eq!(key_action(Screen::CustomModel, Key::Ctrl('w')), Action::FormChar('w'));
    assert_eq!(key_action(Screen::SaveName, Key::Ctrl('c')), Action::Quit);
    assert_eq!(key_action(Screen::Chat, Key::Ctrl('s')), Action::OpenSave);
}
