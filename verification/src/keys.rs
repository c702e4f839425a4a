//! What a key press does on each screen.

use vstd::prelude::*;
use crate::app::{App, AppView, Screen};
use crate::text::{chars_of, push_char, string_of};

verus! {

/// A key press, as the screens read it. `Ctrl` is a letter typed with the
/// control key held; `WheelUp` and `WheelDown` are the mouse wheel.
#[derive(PartialEq, Eq, Structural, Clone, Copy, Debug)]
pub enum Key {
    Up,
    Down,
    Enter,
    Esc,
    Tab,
    BackTab,
    Backspace,
    Delete,
    Char(char),
    Ctrl(char),
    WheelUp,
    WheelDown,
    Other,
}

/// What a key asks of the application.
#[derive(PartialEq, Eq, Structural, Clone, Copy, Debug)]
pub enum Action {
    /// Leave the application.
    Quit,
    /// Move the model highlight up or down.
    SelectUp,
    SelectDown,
    /// Open the custom-model form.
    OpenForm,
    /// Choose the highlighted model and open the Start picker.
    ChooseModel,
    /// Go back to model selection, keeping the status line.
    BackToModels,
    /// Go back to model selection, clearing the status line.
    LeaveToModels,
    /// Move the start highlight up or down.
    StartUp,
    StartDown,
    /// Open the highlighted start item.
    ChooseStart,
    /// Ask to delete the highlighted saved conversation.
    RequestDelete,
    /// Delete it after all, or not.
    ConfirmDelete,
    CancelDelete,
    /// Leave the save prompt without saving.
    CancelSave,
    /// Save under the name typed.
    SubmitSave,
    /// Edit the name typed in the save prompt.
    SaveNameBackspace,
    SaveNameChar(char),
    /// Move the form focus to the next or previous field.
    FormNext,
    FormPrev,
    /// Add the model the form describes.
    SubmitForm,
    /// Edit the focused form field.
    FormBackspace,
    FormChar(char),
    /// Open the save prompt.
    OpenSave,
    /// Open, close or switch conversation tabs.
    NewTab,
    CloseTab,
    NextTab,
    PrevTab,
    /// Bill the line typed.
    SubmitTurn,
    /// Recall an older or newer line typed.
    HistoryUp,
    HistoryDown,
    /// Edit the line typed.
    InputBackspace,
    InputChar(char),
    /// Scroll the turn history toward older or newer turns.
    ScrollUp,
    ScrollDown,
    /// Nothing.
    Ignore,
}

/// What `key` asks for on `screen`: control-C quits everywhere; otherwise
/// each screen reads its own keys, and every other key does nothing. In the
/// save prompt and the custom-model form a control chord types its letter.
pub open spec fn action_of(screen: Screen, key: Key) -> Action {
    if key == Key::Ctrl('c') {
        Action::Quit
    } else {
        match screen {
            Screen::ModelSelect => if key == Key::Char('q') {
                Action::Quit
            } else if key == Key::Up || key == Key::Char('k') {
                Action::SelectUp
            } else if key == Key::Down || key == Key::Char('j') {
                Action::SelectDown
            } else if key == Key::Char('c') {
                Action::OpenForm
            } else if key == Key::Enter {
                Action::ChooseModel
            } else {
                Action::Ignore
            },
            Screen::Start => if key == Key::Esc {
                Action::BackToModels
            } else if key == Key::Up || key == Key::Char('k') {
                Action::StartUp
            } else if key == Key::Down || key == Key::Char('j') {
                Action::StartDown
            } else if key == Key::Enter {
                Action::ChooseStart
            } else if key == Key::Char('d') || key == Key::Delete {
                Action::RequestDelete
            } else {
                Action::Ignore
            },
            Screen::ConfirmDelete => if key == Key::Char('y') {
                Action::ConfirmDelete
            } else if key == Key::Char('n') || key == Key::Esc {
                Action::CancelDelete
            } else {
                Action::Ignore
            },
            Screen::SaveName => match key {
                Key::Esc => Action::CancelSave,
                Key::Enter => Action::SubmitSave,
                Key::Backspace => Action::SaveNameBackspace,
                Key::Char(c) => Action::SaveNameChar(c),
                Key::Ctrl(c) => Action::SaveNameChar(c),
                _ => Action::Ignore,
            },
            Screen::CustomModel => match key {
                Key::Esc => Action::LeaveToModels,
                Key::Tab | Key::Down => Action::FormNext,
                Key::BackTab | Key::Up => Action::FormPrev,
                Key::Enter => Action::SubmitForm,
                Key::Backspace => Action::FormBackspace,
                Key::Char(c) => Action::FormChar(c),
                Key::Ctrl(c) => Action::FormChar(c),
                _ => Action::Ignore,
            },
            Screen::Chat => if key == Key::Ctrl('s') {
                Action::OpenSave
            } else if key == Key::Ctrl('t') {
                Action::NewTab
            } else if key == Key::Ctrl('w') {
                Action::CloseTab
            } else {
                match key {
                    Key::Tab => Action::NextTab,
                    Key::BackTab => Action::PrevTab,
                    Key::Esc => Action::LeaveToModels,
                    Key::Enter => Action::SubmitTurn,
                    Key::Up => Action::HistoryUp,
                    Key::Down => Action::HistoryDown,
                    Key::Backspace => Action::InputBackspace,
                    Key::Char(c) => Action::InputChar(c),
                    Key::WheelUp => Action::ScrollUp,
                    Key::WheelDown => Action::ScrollDown,
                    _ => Action::Ignore,
                }
            },
        }
    }
}

/// What each key does, screen by screen: control-C quits everywhere; on
/// model selection q quits, Up/k and Down/j move, c opens the form and
/// Enter chooses; on the Start picker Esc goes back, Up/k and Down/j move,
/// Enter opens and d/Delete asks to delete; the delete prompt takes y, or
/// n/Esc; the save prompt and the form type characters, Enter submits,
/// Backspace erases and Esc leaves; in the chat Up recalls older lines and
/// Down newer ones, Tab/Shift-Tab switch tabs, control-S/T/W save, open and
/// close tabs, and the wheel scrolls.
pub proof fn key_bindings(c: char)
    ensures
        action_of(Screen::ModelSelect, Key::Ctrl('c')) == Action::Quit,
        action_of(Screen::Start, Key::Ctrl('c')) == Action::Quit,
        action_of(Screen::ConfirmDelete, Key::Ctrl('c')) == Action::Quit,
        action_of(Screen::SaveName, Key::Ctrl('c')) == Action::Quit,
        action_of(Screen::CustomModel, Key::Ctrl('c')) == Action::Quit,
        action_of(Screen::Chat, Key::Ctrl('c')) == Action::Quit,
        action_of(Screen::ModelSelect, Key::Char('q')) == Action::Quit,
        action_of(Screen::ModelSelect, Key::Up) == Action::SelectUp,
        action_of(Screen::ModelSelect, Key::Char('k')) == Action::SelectUp,
        action_of(Screen::ModelSelect, Key::Down) == Action::SelectDown,
        action_of(Screen::ModelSelect, Key::Char('j')) == Action::SelectDown,
        action_of(Screen::ModelSelect, Key::Char('c')) == Action::OpenForm,
        action_of(Screen::ModelSelect, Key::Enter) == Action::ChooseModel,
        action_of(Screen::Start, Key::Esc) == Action::BackToModels,
        action_of(Screen::Start, Key::Up) == Action::StartUp,
        action_of(Screen::Start, Key::Char('k')) == Action::StartUp,
        action_of(Screen::Start, Key::Down) == Action::StartDown,
        action_of(Screen::Start, Key::Char('j')) == Action::StartDown,
        action_of(Screen::Start, Key::Enter) == Action::ChooseStart,
        action_of(Screen::Start, Key::Char('d')) == Action::RequestDelete,
        action_of(Screen::Start, Key::Delete) == Action::RequestDelete,
        action_of(Screen::ConfirmDelete, Key::Char('y')) == Action::ConfirmDelete,
        action_of(Screen::ConfirmDelete, Key::Char('n')) == Action::CancelDelete,
        action_of(Screen::ConfirmDelete, Key::Esc) == Action::CancelDelete,
        action_of(Screen::SaveName, Key::Esc) == Action::CancelSave,
        action_of(Screen::SaveName, Key::Enter) == Action::SubmitSave,
        action_of(Screen::SaveName, Key::Backspace) == Action::SaveNameBackspace,
        action_of(Screen::SaveName, Key::Char(c)) == Action::SaveNameChar(c),
        c != 'c' ==> action_of(Screen::SaveName, Key::Ctrl(c)) == Action::SaveNameChar(c),
        action_of(Screen::CustomModel, Key::Esc) == Action::LeaveToModels,
        action_of(Screen::CustomModel, Key::Tab) == Action::FormNext,
        action_of(Screen::CustomModel, Key::Down) == Action::FormNext,
        action_of(Screen::CustomModel, Key::BackTab) == Action::FormPrev,
        action_of(Screen::CustomModel, Key::Up) == Action::FormPrev,
        action_of(Screen::CustomModel, Key::Enter) == Action::SubmitForm,
        action_of(Screen::CustomModel, Key::Backspace) == Action::FormBackspace,
        action_of(Screen::CustomModel, Key::Char(c)) == Action::FormChar(c),
        c != 'c' ==> action_of(Screen::CustomModel, Key::Ctrl(c)) == Action::FormChar(c),
        action_of(Screen::Chat, Key::Ctrl('s')) == Action::OpenSave,
        action_of(Screen::Chat, Key::Ctrl('t')) == Action::NewTab,
        action_of(Screen::Chat, Key::Ctrl('w')) == Action::CloseTab,
        action_of(Screen::Chat, Key::Tab) == Action::NextTab,
        action_of(Screen::Chat, Key::BackTab) == Action::PrevTab,
        action_of(Screen::Chat, Key::Esc) == Action::LeaveToModels,
        action_of(Screen::Chat, Key::Enter) == Action::SubmitTurn,
        action_of(Screen::Chat, Key::Up) == Action::HistoryUp,
        action_of(Screen::Chat, Key::Down) == Action::HistoryDown,
        action_of(Screen::Chat, Key::Backspace) == Action::InputBackspace,
        action_of(Screen::Chat, Key::Char(c)) == Action::InputChar(c),
        action_of(Screen::Chat, Key::WheelUp) == Action::ScrollUp,
        action_of(Screen::Chat, Key::WheelDown) == Action::ScrollDown,
{
}

/// What `key` asks for on `screen` (see [`action_of`]).
pub fn key_action(screen: Screen, key: Key) -> (a: Action)
    ensures
        a == action_of(screen, key),
{
    if key == Key::Ctrl('c') {
        return Action::Quit;
    }
    match screen {
        Screen::ModelSelect => match key {
            Key::Char('q') => Action::Quit,
            Key::Up | Key::Char('k') => Action::SelectUp,
            Key::Down | Key::Char('j') => Action::SelectDown,
            Key::Char('c') => Action::OpenForm,
            Key::Enter => Action::ChooseModel,
            _ => Action::Ignore,
        },
        Screen::Start => match key {
            Key::Esc => Action::BackToModels,
            Key::Up | Key::Char('k') => Action::StartUp,
            Key::Down | Key::Char('j') => Action::StartDown,
            Key::Enter => Action::ChooseStart,
            Key::Char('d') | Key::Delete => Action::RequestDelete,
            _ => Action::Ignore,
        },
        Screen::ConfirmDelete => match key {
            Key::Char('y') => Action::ConfirmDelete,
            Key::Char('n') | Key::Esc => Action::CancelDelete,
            _ => Action::Ignore,
        },
        Screen::SaveName => match key {
            Key::Esc => Action::CancelSave,
            Key::Enter => Action::SubmitSave,
            Key::Backspace => Action::SaveNameBackspace,
            Key::Char(c) => Action::SaveNameChar(c),
            Key::Ctrl(c) => Action::SaveNameChar(c),
            _ => Action::Ignore,
        },
        Screen::CustomModel => match key {
            Key::Esc => Action::LeaveToModels,
            Key::Tab | Key::Down => Action::FormNext,
            Key::BackTab | Key::Up => Action::FormPrev,
            Key::Enter => Action::SubmitForm,
            Key::Backspace => Action::FormBackspace,
            Key::Char(c) => Action::FormChar(c),
            Key::Ctrl(c) => Action::FormChar(c),
            _ => Action::Ignore,
        },
        Screen::Chat => match key {
            Key::Ctrl('s') => Action::OpenSave,
            Key::Ctrl('t') => Action::NewTab,
            Key::Ctrl('w') => Action::CloseTab,
            Key::Tab => Action::NextTab,
            Key::BackTab => Action::PrevTab,
            Key::Esc => Action::LeaveToModels,
            Key::Enter => Action::SubmitTurn,
            Key::Up => Action::HistoryUp,
            Key::Down => Action::HistoryDown,
            Key::Backspace => Action::InputBackspace,
            Key::Char(c) => Action::InputChar(c),
            Key::WheelUp => Action::ScrollUp,
            Key::WheelDown => Action::ScrollDown,
            _ => Action::Ignore,
        },
    }
}

/// `s` without its last character (unchanged when empty).
fn without_last(s: &String) -> (r: String)
    ensures
        r@ == if s@.len() == 0 {
            s@
        } else {
            s@.drop_last()
        },
{
    let chars = chars_of(s.as_str());
    if chars.len() == 0 {
        return string_of(&chars);
    }
    let mut kept: Vec<char> = Vec::new();
    let last = chars.len() - 1;
    let mut i: usize = 0;
    while i < last
        invariant
            chars@ == s@,
            last == chars@.len() - 1,
            i <= last,
            kept@ == chars@.take(i as int),
        decreases chars@.len() - i,
    {
        kept.push(chars[i]);
        assert(chars@.take(i + 1) =~= chars@.take(i as int).push(chars@[i as int]));
        i += 1;
    }
    assert(kept@ =~= s@.drop_last());
    string_of(&kept)
}

impl App {
    /// Go back to model selection; when `clear_status` is set the status
    /// line is emptied too.
    pub fn back_to_models(&mut self, clear_status: bool)
        ensures
            final(self)@ == (AppView {
                screen: Screen::ModelSelect,
                status: if clear_status {
                    Seq::empty()
                } else {
                    old(self)@.status
                },
                ..old(self)@
            }),
    {
        if clear_status {
            self.status = String::new();
        }
        self.screen = Screen::ModelSelect;
    }

    /// Leave the save prompt for the chat without saving.
    pub fn cancel_save(&mut self)
        ensures
            final(self)@ == (AppView { screen: Screen::Chat, ..old(self)@ }),
    {
        self.screen = Screen::Chat;
    }

    /// Type a character into the save prompt.
    pub fn save_name_char(&mut self, c: char)
        ensures
            final(self)@ == (AppView { save_name: old(self)@.save_name.push(c), ..old(self)@ }),
    {
        push_char(&mut self.save_name, c);
    }

    /// Erase the last character of the save prompt, if any.
    pub fn save_name_backspace(&mut self)
        ensures
            final(self)@ == (AppView {
                save_name: if old(self)@.save_name.len() == 0 {
                    old(self)@.save_name
                } else {
                    old(self)@.save_name.drop_last()
                },
                ..old(self)@
            }),
    {
        self.save_name = without_last(&self.save_name);
    }

    /// Type a character into the turn line; the recall cursor is dropped.
    pub fn input_char(&mut self, c: char)
        ensures
            final(self)@ == (AppView {
                input: old(self)@.input.push(c),
                history_pos: None,
                ..old(self)@
            }),
    {
        push_char(&mut self.input, c);
        self.history_pos = None;
    }

    /// Erase the last character of the turn line, if any; the recall cursor
    /// is dropped.
    pub fn input_backspace(&mut self)
        ensures
            final(self)@ == (AppView {
                input: if old(self)@.input.len() == 0 {
                    old(self)@.input
                } else {
                    old(self)@.input.drop_last()
                },
                history_pos: None,
                ..old(self)@
            }),
    {
        self.input = without_last(&self.input);
        self.history_pos = None;
    }
}

} // verus!
