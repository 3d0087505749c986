//! The decisions of the window around the page: what a click and what a
//! key mean for the address bar.

use vstd::prelude::*;

use crate::constants::{
    TITLE_BAR_HEIGHT, TOOLBAR_HEIGHT, WINDOW_HEIGHT, WINDOW_INIT_X_POS, WINDOW_INIT_Y_POS,
    WINDOW_WIDTH,
};
use crate::text::{chars_of, string_of_range};

verus! {

#[derive(Debug, Clone, Copy, PartialEq, Eq, Structural)]
pub enum InputMode {
    Normal,
    Editing,
}

/// The part of the screen that a click falls into.
#[derive(Debug, Clone, Copy, PartialEq, Eq, Structural)]
pub enum ClickTarget {
    /// Beside the window.
    Outside,
    /// The toolbar with the address bar.
    Toolbar,
    /// The rest of the window.
    Content,
}

/// What is to be done after a key.
#[derive(Debug, Clone, PartialEq, Eq)]
pub enum KeyAction {
    /// Nothing has changed.
    Nothing,
    /// The address bar is to be drawn anew.
    Redraw,
    /// The page at this address is to be loaded.
    Navigate(String),
}

pub enum KeyActionView {
    Nothing,
    Redraw,
    Navigate(Seq<char>),
}

impl View for KeyAction {
    type V = KeyActionView;

    open spec fn view(&self) -> KeyActionView {
        match *self {
            KeyAction::Nothing => KeyActionView::Nothing,
            KeyAction::Redraw => KeyActionView::Redraw,
            KeyAction::Navigate(s) => KeyActionView::Navigate(s@),
        }
    }
}

/// The part of the screen that the point `(x, y)` of the screen lies in.
/// The window starts at its initial position, and the toolbar lies below
/// the title bar.
pub open spec fn target_of(x: int, y: int) -> ClickTarget {
    let dx = x - WINDOW_INIT_X_POS;
    let dy = y - WINDOW_INIT_Y_POS;
    if dx < 0 || dx > WINDOW_WIDTH || dy < 0 || dy > WINDOW_HEIGHT {
        ClickTarget::Outside
    } else if TITLE_BAR_HEIGHT <= dy < TOOLBAR_HEIGHT + TITLE_BAR_HEIGHT {
        ClickTarget::Toolbar
    } else {
        ClickTarget::Content
    }
}

pub fn click_target(x: i64, y: i64) -> (target: ClickTarget)
    ensures
        target == target_of(x as int, y as int),
{
    let dx: i128 = x as i128 - WINDOW_INIT_X_POS as i128;
    let dy: i128 = y as i128 - WINDOW_INIT_Y_POS as i128;
    if dx < 0 || dx > WINDOW_WIDTH as i128 || dy < 0 || dy > WINDOW_HEIGHT as i128 {
        ClickTarget::Outside
    } else if dy < (TOOLBAR_HEIGHT + TITLE_BAR_HEIGHT) as i128 && dy >= TITLE_BAR_HEIGHT as i128 {
        ClickTarget::Toolbar
    } else {
        ClickTarget::Content
    }
}

/// The point of the page that a point of the content of the window shows:
/// the point as seen from the corner of the window, less the heights of
/// title bar and toolbar.
pub fn content_point(x: i64, y: i64) -> (point: (i64, i64))
    requires
        target_of(x as int, y as int) == ClickTarget::Content,
    ensures
        point.0 == x - WINDOW_INIT_X_POS,
        point.1 == y - WINDOW_INIT_Y_POS - TITLE_BAR_HEIGHT - TOOLBAR_HEIGHT,
{
    (x - WINDOW_INIT_X_POS, y - WINDOW_INIT_Y_POS - TITLE_BAR_HEIGHT - TOOLBAR_HEIGHT)
}

/// The address bar as a mathematical value.
pub struct AddressBarView {
    pub input_url: Seq<char>,
    pub input_mode: InputMode,
}

impl AddressBarView {
    /// The address bar after a click: a click on the toolbar empties it
    /// and starts editing, a click on the rest of the window ends editing,
    /// and a click beside the window changes nothing.
    pub open spec fn clicked(self, target: ClickTarget) -> AddressBarView {
        match target {
            ClickTarget::Outside => self,
            ClickTarget::Toolbar => AddressBarView {
                input_url: Seq::empty(),
                input_mode: InputMode::Editing,
            },
            ClickTarget::Content => AddressBarView { input_mode: InputMode::Normal, ..self },
        }
    }

    /// The address bar after a key. Keys count only while the address is
    /// edited: the line feed sends the address off and ends editing;
    /// delete and backspace take the last character away; any other key
    /// is added to the address.
    pub open spec fn typed(self, key: char) -> AddressBarView {
        if self.input_mode == InputMode::Normal {
            self
        } else if key == '\n' {
            AddressBarView { input_url: Seq::empty(), input_mode: InputMode::Normal }
        } else if key == '\u{7f}' || key == '\u{08}' {
            AddressBarView {
                input_url: if self.input_url.len() > 0 {
                    self.input_url.drop_last()
                } else {
                    self.input_url
                },
                ..self
            }
        } else {
            AddressBarView { input_url: self.input_url.push(key), ..self }
        }
    }

    /// What is to be done after a key.
    pub open spec fn action(self, key: char) -> KeyActionView {
        if self.input_mode == InputMode::Normal {
            KeyActionView::Nothing
        } else if key == '\n' {
            KeyActionView::Navigate(self.input_url)
        } else {
            KeyActionView::Redraw
        }
    }
}

#[derive(Debug, Clone, PartialEq, Eq)]
pub struct AddressBar {
    input_url: String,
    input_mode: InputMode,
}

impl View for AddressBar {
    type V = AddressBarView;

    closed spec fn view(&self) -> AddressBarView {
        AddressBarView { input_url: self.input_url@, input_mode: self.input_mode }
    }
}

impl AddressBar {
    /// An empty address bar that is not edited.
    pub fn new() -> (bar: Self)
        ensures
            bar@ == (AddressBarView { input_url: Seq::empty(), input_mode: InputMode::Normal }),
    {
        AddressBar { input_url: String::new(), input_mode: InputMode::Normal }
    }

    pub fn input_url(&self) -> (s: String)
        ensures
            s@ == self@.input_url,
    {
        self.input_url.clone()
    }

    pub fn input_mode(&self) -> (mode: InputMode)
        ensures
            mode == self@.input_mode,
    {
        self.input_mode
    }

    /// Takes a click at the point `(x, y)` of the screen.
    pub fn handle_click(&mut self, x: i64, y: i64) -> (target: ClickTarget)
        ensures
            target == target_of(x as int, y as int),
            final(self)@ == old(self)@.clicked(target),
    {
        let target = click_target(x, y);
        match target {
            ClickTarget::Outside => {},
            ClickTarget::Toolbar => {
                self.input_url = String::new();
                self.input_mode = InputMode::Editing;
            },
            ClickTarget::Content => {
                self.input_mode = InputMode::Normal;
            },
        }
        target
    }

    /// Takes a key.
    pub fn handle_key(&mut self, key: char) -> (action: KeyAction)
        ensures
            action@ == old(self)@.action(key),
            final(self)@ == old(self)@.typed(key),
    {
        match self.input_mode {
            InputMode::Normal => KeyAction::Nothing,
            InputMode::Editing => {
                if key == '\n' {
                    let destination = self.input_url.clone();
                    self.input_url = String::new();
                    self.input_mode = InputMode::Normal;
                    KeyAction::Navigate(destination)
                } else if key == '\u{7f}' || key == '\u{08}' {
                    let chars = chars_of(self.input_url.as_str());
                    if chars.len() > 0 {
                        self.input_url = string_of_range(&chars, 0, chars.len() - 1);
                        assert(chars@.subrange(0, chars@.len() - 1) =~= chars@.drop_last());
                    }
                    KeyAction::Redraw
                } else {
                    self.input_url.push(key);
                    KeyAction::Redraw
                }
            },
        }
    }
}

} // verus!
