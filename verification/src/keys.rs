//! What keys mean.
use vstd::prelude::*;

use crate::app::{App, Modal};
use crate::state::{AppView, KeyAction, ModalView};

verus! {

/// A key of the keyboard.
#[derive(Clone, Copy, PartialEq, Eq, Structural, Debug)]
pub enum Key {
    Char(char),
    Esc,
    Enter,
    Backspace,
    Up,
    Down,
    Left,
    Right,
    Home,
    End,
    PageUp,
    PageDown,
    Other,
}

/// What keys are read for.
#[derive(Clone, Copy, PartialEq, Eq, Structural, Debug)]
pub enum Mode {
    /// Browsing, or choosing in a popup.
    Browse,
    /// Typing a filter.
    Filter,
    /// Closing a popup that any key closes.
    AnyKey,
}

/// What keys are read for in a state of the application.
pub open spec fn mode_of(a: AppView) -> Mode {
    match a.modal {
        ModalView::Help => Mode::AnyKey,
        ModalView::Info(_) => Mode::AnyKey,
        ModalView::Closed => if a.searching {
            Mode::Filter
        } else {
            Mode::Browse
        },
        _ => Mode::Browse,
    }
}

/// What a key means while browsing, on a page of the given height.
pub open spec fn browsing(key: Key, control: bool, page: usize) -> Option<KeyAction> {
    match key {
        Key::Esc => Some(KeyAction::Quit),
        Key::Down => Some(KeyAction::Down),
        Key::Up => Some(KeyAction::Up),
        Key::Home => Some(KeyAction::Top),
        Key::End => Some(KeyAction::Bottom),
        Key::Enter => Some(KeyAction::Enter),
        Key::Right => Some(KeyAction::Enter),
        Key::Backspace => Some(KeyAction::Leave),
        Key::Left => Some(KeyAction::Leave),
        Key::PageDown => Some(KeyAction::PageDown(page)),
        Key::PageUp => Some(KeyAction::PageUp(page)),
        Key::Other => None,
        Key::Char(c) => if control && c == 'c' {
            Some(KeyAction::Quit)
        } else if control && c == 'd' {
            Some(KeyAction::PageDown(page))
        } else if control && c == 'u' {
            Some(KeyAction::PageUp(page))
        } else {
            letter(c)
        },
    }
}

/// What a character means while browsing.
pub open spec fn letter(c: char) -> Option<KeyAction> {
    if c == 'q' {
        Some(KeyAction::Quit)
    } else if c == 'j' {
        Some(KeyAction::Down)
    } else if c == 'k' {
        Some(KeyAction::Up)
    } else if c == 'g' {
        Some(KeyAction::Top)
    } else if c == 'G' {
        Some(KeyAction::Bottom)
    } else if c == 'l' {
        Some(KeyAction::Enter)
    } else if c == 'h' {
        Some(KeyAction::Leave)
    } else if c == 's' {
        Some(KeyAction::ToggleSort)
    } else if c == 'a' {
        Some(KeyAction::ToggleUsage)
    } else if c == 'd' {
        Some(KeyAction::Delete)
    } else if c == 'o' {
        Some(KeyAction::Open)
    } else if c == 'y' || c == 'Y' {
        Some(KeyAction::Confirm)
    } else if c == 'n' || c == 'N' {
        Some(KeyAction::Cancel)
    } else if c == '?' {
        Some(KeyAction::Help)
    } else if c == '/' {
        Some(KeyAction::Search)
    } else if c == 't' {
        Some(KeyAction::TopFiles)
    } else if c == 'i' {
        Some(KeyAction::Info)
    } else if c == 'r' {
        Some(KeyAction::Refresh)
    } else if c == 'e' {
        Some(KeyAction::Export)
    } else if c == 'x' || c == '!' {
        Some(KeyAction::NextError)
    } else {
        None
    }
}

/// What a key means while a filter is being typed.
pub open spec fn typing(key: Key, control: bool) -> Option<KeyAction> {
    match key {
        Key::Char(c) => if control {
            None
        } else {
            Some(KeyAction::FilterChar(c))
        },
        Key::Backspace => Some(KeyAction::FilterBackspace),
        Key::Enter => Some(KeyAction::FilterConfirm),
        Key::Esc => Some(KeyAction::FilterCancel),
        _ => None,
    }
}

/// What a key means.
pub open spec fn meaning(key: Key, control: bool, mode: Mode, page: usize) -> Option<KeyAction> {
    match mode {
        Mode::Browse => browsing(key, control, page),
        Mode::Filter => typing(key, control),
        Mode::AnyKey => match browsing(key, control, page) {
            Some(action) => Some(action),
            None => Some(KeyAction::Cancel),
        },
    }
}

/// What a character means while browsing.
fn decode_letter(c: char) -> (action: Option<KeyAction>)
    ensures
        action == letter(c),
{
    match c {
        'q' => Some(KeyAction::Quit),
        'j' => Some(KeyAction::Down),
        'k' => Some(KeyAction::Up),
        'g' => Some(KeyAction::Top),
        'G' => Some(KeyAction::Bottom),
        'l' => Some(KeyAction::Enter),
        'h' => Some(KeyAction::Leave),
        's' => Some(KeyAction::ToggleSort),
        'a' => Some(KeyAction::ToggleUsage),
        'd' => Some(KeyAction::Delete),
        'o' => Some(KeyAction::Open),
        'y' | 'Y' => Some(KeyAction::Confirm),
        'n' | 'N' => Some(KeyAction::Cancel),
        '?' => Some(KeyAction::Help),
        '/' => Some(KeyAction::Search),
        't' => Some(KeyAction::TopFiles),
        'i' => Some(KeyAction::Info),
        'r' => Some(KeyAction::Refresh),
        'e' => Some(KeyAction::Export),
        'x' | '!' => Some(KeyAction::NextError),
        _ => None,
    }
}

/// What a key means while browsing, on a page of the given height.
fn decode_browsing(key: Key, control: bool, page: usize) -> (action: Option<KeyAction>)
    ensures
        action == browsing(key, control, page),
{
    match key {
        Key::Esc => Some(KeyAction::Quit),
        Key::Down => Some(KeyAction::Down),
        Key::Up => Some(KeyAction::Up),
        Key::Home => Some(KeyAction::Top),
        Key::End => Some(KeyAction::Bottom),
        Key::Enter | Key::Right => Some(KeyAction::Enter),
        Key::Backspace | Key::Left => Some(KeyAction::Leave),
        Key::PageDown => Some(KeyAction::PageDown(page)),
        Key::PageUp => Some(KeyAction::PageUp(page)),
        Key::Other => None,
        Key::Char(c) => {
            if control && c == 'c' {
                Some(KeyAction::Quit)
            } else if control && c == 'd' {
                Some(KeyAction::PageDown(page))
            } else if control && c == 'u' {
                Some(KeyAction::PageUp(page))
            } else {
                decode_letter(c)
            }
        },
    }
}

/// What a key means: the help and info popups close on any key, a filter that is being typed captures
/// characters, and everywhere else the keys of the help text apply. `page` is the visible height of
/// the list.
pub fn decode_key(key: Key, control: bool, mode: Mode, page: usize) -> (action: Option<KeyAction>)
    ensures
        action == meaning(key, control, mode, page),
{
    match mode {
        Mode::Browse => decode_browsing(key, control, page),
        Mode::Filter => match key {
            Key::Char(c) => {
                if control {
                    None
                } else {
                    Some(KeyAction::FilterChar(c))
                }
            },
            Key::Backspace => Some(KeyAction::FilterBackspace),
            Key::Enter => Some(KeyAction::FilterConfirm),
            Key::Esc => Some(KeyAction::FilterCancel),
            _ => None,
        },
        Mode::AnyKey => match decode_browsing(key, control, page) {
            Some(action) => Some(action),
            None => Some(KeyAction::Cancel),
        },
    }
}

impl App {
    /// What keys are read for right now.
    pub fn key_mode(&self) -> (mode: Mode)
        ensures
            mode == mode_of(self@),
    {
        match &self.modal {
            Modal::Help | Modal::Info(_) => Mode::AnyKey,
            Modal::Closed => {
                if self.searching {
                    Mode::Filter
                } else {
                    Mode::Browse
                }
            },
            _ => Mode::Browse,
        }
    }
}

/// Which keys do what while browsing: each action has just the keys that the help names.
pub proof fn law_each_action_has_its_keys(key: Key, page: usize)
    ensures
        ({
            let does = browsing(key, false, page);
            let is = |c: char| key == Key::Char(c);
            &&& does == Some(KeyAction::Quit) <==> is('q') || key is Esc
            &&& does == Some(KeyAction::Down) <==> is('j') || key is Down
            &&& does == Some(KeyAction::Up) <==> is('k') || key is Up
            &&& does == Some(KeyAction::Top) <==> is('g') || key is Home
            &&& does == Some(KeyAction::Bottom) <==> is('G') || key is End
            &&& does == Some(KeyAction::Enter) <==> is('l') || key is Enter || key is Right
            &&& does == Some(KeyAction::Leave) <==> is('h') || key is Backspace || key is Left
            &&& does == Some(KeyAction::ToggleSort) <==> is('s')
            &&& does == Some(KeyAction::ToggleUsage) <==> is('a')
            &&& does == Some(KeyAction::Delete) <==> is('d')
            &&& does == Some(KeyAction::Confirm) <==> is('y') || is('Y')
            &&& does == Some(KeyAction::Cancel) <==> is('n') || is('N')
            &&& does == Some(KeyAction::Open) <==> is('o')
            &&& does == Some(KeyAction::Help) <==> is('?')
            &&& does == Some(KeyAction::Search) <==> is('/')
            &&& does == Some(KeyAction::TopFiles) <==> is('t')
            &&& does == Some(KeyAction::Info) <==> is('i')
            &&& does == Some(KeyAction::Refresh) <==> is('r')
            &&& does == Some(KeyAction::Export) <==> is('e')
            &&& does == Some(KeyAction::NextError) <==> is('x') || is('!')
            &&& does == Some(KeyAction::PageDown(page)) <==> key is PageDown
            &&& does == Some(KeyAction::PageUp(page)) <==> key is PageUp
        }),
{
}

/// Control with a key: `c` quits, `d` and `u` go a page down and up, and Control makes no difference to
/// any other key while browsing.
pub proof fn law_control_keys(key: Key, page: usize)
    ensures
        browsing(Key::Char('c'), true, page) == Some(KeyAction::Quit),
        browsing(Key::Char('d'), true, page) == browsing(Key::PageDown, false, page),
        browsing(Key::Char('u'), true, page) == browsing(Key::PageUp, false, page),
        key != Key::Char('c') && key != Key::Char('d') && key != Key::Char('u') ==> browsing(
            key,
            true,
            page,
        ) == browsing(key, false, page),
{
}

/// While a filter is being typed every character is typed, also one that means something else at other
/// times; only Enter, Escape and Backspace do something, and nothing with Control is typed. While
/// browsing nothing is typed.
pub proof fn law_characters_are_typed_into_filters(key: Key, c: char, control: bool, page: usize)
    ensures
        meaning(Key::Char(c), false, Mode::Filter, page) == Some(KeyAction::FilterChar(c)),
        meaning(Key::Char(c), true, Mode::Filter, page) is None,
        meaning(key, control, Mode::Filter, page) == Some(KeyAction::FilterConfirm) <==> key is Enter,
        meaning(key, control, Mode::Filter, page) == Some(KeyAction::FilterCancel) <==> key is Esc,
        meaning(key, control, Mode::Filter, page) == Some(KeyAction::FilterBackspace)
            <==> key is Backspace,
        meaning(key, control, Mode::Browse, page) != Some(KeyAction::FilterChar(c)),
        meaning(key, control, Mode::AnyKey, page) is Some,
{
}

/// What keys are read for: any key closes the help and the info popup, also while a filter is on; a
/// filter that is being typed takes the keys otherwise, if nothing is open above it.
pub proof fn law_keys_go_to_what_is_on_top(a: AppView)
    ensures
        mode_of(a) == Mode::AnyKey <==> a.modal is Help || a.modal is Info,
        mode_of(a) == Mode::Filter <==> a.modal is Closed && a.searching,
        a.modal is ConfirmDelete || a.modal is TopFiles ==> mode_of(a) == Mode::Browse,
{
}

} // verus!
