//! The commands that drive the pager, and the keys bound to them.
use vstd::prelude::*;

verus! {

/// A command for the scroll state machine, or the request to stop.
#[derive(Clone, Copy, Debug, PartialEq, Eq, Structural)]
pub enum Message {
    ScrollDownPage,
    ScrollDown,
    ScrollUpPage,
    ScrollUp,
    ScrollLeft,
    ScrollRight,
    ScrollToBeginning,
    ScrollToEnd,
    Exit,
    Reload,
}

/// A key as the terminal reports it, reduced to what the bindings read.
#[derive(Clone, Copy, Debug, PartialEq, Eq, Structural)]
pub enum KeyPress {
    Char(char),
    PageUp,
    PageDown,
    Up,
    Down,
    Left,
    Right,
    Home,
    End,
    Other,
}

/// What the event loop does after a command: draw a page, leave the screen as it
/// is, or stop.
pub enum Outcome {
    Redraw(String),
    NoChange,
    Exit,
}

/// The command bound to `key`, if any: `q` quits; page up and `b` go a page up; page
/// down, space and `f` a page down; down, enter, `e` and `j` a line down; up, `y` and
/// `k` a line up; left and right pan; `g` and home go to the start, `G` and end to
/// the end. Other keys do nothing.
pub fn message_for_key(key: KeyPress) -> (r: Option<Message>)
    ensures
        r == Some(Message::Exit) <==> key == KeyPress::Char('q'),
        r == Some(Message::ScrollUpPage) <==> (key == KeyPress::PageUp || key == KeyPress::Char(
            'b',
        )),
        r == Some(Message::ScrollDownPage) <==> (key == KeyPress::PageDown || key
            == KeyPress::Char(' ') || key == KeyPress::Char('f')),
        r == Some(Message::ScrollLeft) <==> key == KeyPress::Left,
        r == Some(Message::ScrollDown) <==> (key == KeyPress::Down || key == KeyPress::Char('\n')
            || key == KeyPress::Char('e') || key == KeyPress::Char('j')),
        r == Some(Message::ScrollUp) <==> (key == KeyPress::Up || key == KeyPress::Char('y')
            || key == KeyPress::Char('k')),
        r == Some(Message::ScrollRight) <==> key == KeyPress::Right,
        r == Some(Message::ScrollToBeginning) <==> (key == KeyPress::Char('g') || key
            == KeyPress::Home),
        r == Some(Message::ScrollToEnd) <==> (key == KeyPress::Char('G') || key
            == KeyPress::End),
        r != Some(Message::Reload),
{
    match key {
        KeyPress::Char('q') => Some(Message::Exit),
        KeyPress::PageUp | KeyPress::Char('b') => Some(Message::ScrollUpPage),
        KeyPress::PageDown | KeyPress::Char(' ') | KeyPress::Char('f') => Some(
            Message::ScrollDownPage,
        ),
        KeyPress::Left => Some(Message::ScrollLeft),
        KeyPress::Down | KeyPress::Char('\n') | KeyPress::Char('e') | KeyPress::Char('j') => Some(
            Message::ScrollDown,
        ),
        KeyPress::Up | KeyPress::Char('y') | KeyPress::Char('k') => Some(Message::ScrollUp),
        KeyPress::Right => Some(Message::ScrollRight),
        KeyPress::Char('g') | KeyPress::Home => Some(Message::ScrollToBeginning),
        KeyPress::Char('G') | KeyPress::End => Some(Message::ScrollToEnd),
        _ => None,
    }
}

} // verus!
