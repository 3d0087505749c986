//! The style of one layout object: colours, display type and font size.

use vstd::prelude::*;

use crate::renderer::dom::node::{ElementKind, NodeKind, NodeKindView};
use crate::text::{chars_of, same_text};

verus! {

/// A colour by its red, green and blue parts.
#[derive(Debug, Clone, Copy, PartialEq, Eq, Structural)]
pub struct Color {
    pub red: u8,
    pub green: u8,
    pub blue: u8,
}

/// The number that a hexadecimal digit stands for.
pub open spec fn hex_digit(c: char) -> Option<int> {
    if '0' <= c && c <= '9' {
        Some(c as int - '0' as int)
    } else if 'a' <= c && c <= 'f' {
        Some(c as int - 'a' as int + 10)
    } else if 'A' <= c && c <= 'F' {
        Some(c as int - 'A' as int + 10)
    } else {
        None
    }
}

/// The number that two hexadecimal digits stand for.
pub open spec fn hex_pair(high: char, low: char) -> Option<int> {
    match (hex_digit(high), hex_digit(low)) {
        (Some(h), Some(l)) => Some(16 * h + l),
        _ => None,
    }
}

impl Color {
    pub open spec fn rgb(red: int, green: int, blue: int) -> Color {
        Color { red: red as u8, green: green as u8, blue: blue as u8 }
    }

    pub open spec fn spec_white() -> Color {
        Color::rgb(255, 255, 255)
    }

    pub open spec fn spec_black() -> Color {
        Color::rgb(0, 0, 0)
    }

    /// The colour that a name stands for, if it is one of the known names.
    pub open spec fn named(name: Seq<char>) -> Option<Color> {
        if name == "black"@ {
            Some(Color::rgb(0x00, 0x00, 0x00))
        } else if name == "silver"@ {
            Some(Color::rgb(0xc0, 0xc0, 0xc0))
        } else if name == "gray"@ {
            Some(Color::rgb(0x80, 0x80, 0x80))
        } else if name == "white"@ {
            Some(Color::rgb(0xff, 0xff, 0xff))
        } else if name == "maroon"@ {
            Some(Color::rgb(0x80, 0x00, 0x00))
        } else if name == "red"@ {
            Some(Color::rgb(0xff, 0x00, 0x00))
        } else if name == "purple"@ {
            Some(Color::rgb(0x80, 0x00, 0x80))
        } else if name == "fuchsia"@ {
            Some(Color::rgb(0xff, 0x00, 0xff))
        } else if name == "green"@ {
            Some(Color::rgb(0x00, 0x80, 0x00))
        } else if name == "lime"@ {
            Some(Color::rgb(0x00, 0xff, 0x00))
        } else if name == "olive"@ {
            Some(Color::rgb(0x80, 0x80, 0x00))
        } else if name == "yellow"@ {
            Some(Color::rgb(0xff, 0xff, 0x00))
        } else if name == "navy"@ {
            Some(Color::rgb(0x00, 0x00, 0x80))
        } else if name == "blue"@ {
            Some(Color::rgb(0x00, 0x00, 0xff))
        } else if name == "teal"@ {
            Some(Color::rgb(0x00, 0x80, 0x80))
        } else if name == "aqua"@ {
            Some(Color::rgb(0x00, 0xff, 0xff))
        } else if name == "orange"@ {
            Some(Color::rgb(0xff, 0xa5, 0x00))
        } else if name == "lightgray"@ {
            Some(Color::rgb(0xd3, 0xd3, 0xd3))
        } else {
            None
        }
    }

    /// The colour that a code `#rrggbb` stands for: a `#` and six
    /// hexadecimal digits, two for each part.
    pub open spec fn coded(code: Seq<char>) -> Option<Color> {
        if code.len() == 7 && code[0] == '#' {
            match (hex_pair(code[1], code[2]), hex_pair(code[3], code[4]), hex_pair(code[5], code[6])) {
                (Some(r), Some(g), Some(b)) => Some(Color::rgb(r, g, b)),
                _ => None,
            }
        } else {
            None
        }
    }

    /// The code of the colour as one number, `0xrrggbb`.
    pub open spec fn code(self) -> int {
        self.red * 65536 + self.green * 256 + self.blue
    }

    /// The names of the colours stand for the colours of the standard
    /// list.
    pub proof fn lemma_named_colors()
        ensures
            Color::named("black"@) == Some(Color::rgb(0x00, 0x00, 0x00)),
            Color::named("silver"@) == Some(Color::rgb(0xc0, 0xc0, 0xc0)),
            Color::named("gray"@) == Some(Color::rgb(0x80, 0x80, 0x80)),
            Color::named("white"@) == Some(Color::rgb(0xff, 0xff, 0xff)),
            Color::named("maroon"@) == Some(Color::rgb(0x80, 0x00, 0x00)),
            Color::named("red"@) == Some(Color::rgb(0xff, 0x00, 0x00)),
            Color::named("purple"@) == Some(Color::rgb(0x80, 0x00, 0x80)),
            Color::named("fuchsia"@) == Some(Color::rgb(0xff, 0x00, 0xff)),
            Color::named("green"@) == Some(Color::rgb(0x00, 0x80, 0x00)),
            Color::named("lime"@) == Some(Color::rgb(0x00, 0xff, 0x00)),
            Color::named("olive"@) == Some(Color::rgb(0x80, 0x80, 0x00)),
            Color::named("yellow"@) == Some(Color::rgb(0xff, 0xff, 0x00)),
            Color::named("navy"@) == Some(Color::rgb(0x00, 0x00, 0x80)),
            Color::named("blue"@) == Some(Color::rgb(0x00, 0x00, 0xff)),
            Color::named("teal"@) == Some(Color::rgb(0x00, 0x80, 0x80)),
            Color::named("aqua"@) == Some(Color::rgb(0x00, 0xff, 0xff)),
            Color::named("orange"@) == Some(Color::rgb(0xff, 0xa5, 0x00)),
            Color::named("lightgray"@) == Some(Color::rgb(0xd3, 0xd3, 0xd3)),
            Color::named(Seq::empty()) is None,
    {
        reveal_strlit("black");
        reveal_strlit("silver");
        reveal_strlit("gray");
        reveal_strlit("white");
        reveal_strlit("maroon");
        reveal_strlit("red");
        reveal_strlit("purple");
        reveal_strlit("fuchsia");
        reveal_strlit("green");
        reveal_strlit("lime");
        reveal_strlit("olive");
        reveal_strlit("yellow");
        reveal_strlit("navy");
        reveal_strlit("blue");
        reveal_strlit("teal");
        reveal_strlit("aqua");
        reveal_strlit("orange");
        reveal_strlit("lightgray");
        assert("black"@.len() == 5 && "white"@.len() == 5 && "green"@.len() == 5 && "olive"@.len()
            == 5);
        assert("silver"@.len() == 6 && "maroon"@.len() == 6 && "purple"@.len() == 6
            && "yellow"@.len() == 6 && "orange"@.len() == 6);
        assert("gray"@.len() == 4 && "lime"@.len() == 4 && "navy"@.len() == 4 && "blue"@.len() == 4
            && "teal"@.len() == 4 && "aqua"@.len() == 4);
        assert("red"@.len() == 3 && "fuchsia"@.len() == 7 && "lightgray"@.len() == 9);
        assert("black"@[0] == 'b' && "white"@[0] == 'w' && "green"@[0] == 'g' && "olive"@[0]
            == 'o');
        assert("silver"@[0] == 's' && "maroon"@[0] == 'm' && "purple"@[0] == 'p' && "yellow"@[0]
            == 'y' && "orange"@[0] == 'o');
        assert("gray"@[0] == 'g' && "lime"@[0] == 'l' && "navy"@[0] == 'n' && "blue"@[0] == 'b'
            && "teal"@[0] == 't' && "aqua"@[0] == 'a');
    }

    pub fn from_name(name: &str) -> (color: Option<Color>)
        ensures
            color == Color::named(name@),
    {
        if same_text(name, "black") {
            Some(Color { red: 0x00, green: 0x00, blue: 0x00 })
        } else if same_text(name, "silver") {
            Some(Color { red: 0xc0, green: 0xc0, blue: 0xc0 })
        } else if same_text(name, "gray") {
            Some(Color { red: 0x80, green: 0x80, blue: 0x80 })
        } else if same_text(name, "white") {
            Some(Color { red: 0xff, green: 0xff, blue: 0xff })
        } else if same_text(name, "maroon") {
            Some(Color { red: 0x80, green: 0x00, blue: 0x00 })
        } else if same_text(name, "red") {
            Some(Color { red: 0xff, green: 0x00, blue: 0x00 })
        } else if same_text(name, "purple") {
            Some(Color { red: 0x80, green: 0x00, blue: 0x80 })
        } else if same_text(name, "fuchsia") {
            Some(Color { red: 0xff, green: 0x00, blue: 0xff })
        } else if same_text(name, "green") {
            Some(Color { red: 0x00, green: 0x80, blue: 0x00 })
        } else if same_text(name, "lime") {
            Some(Color { red: 0x00, green: 0xff, blue: 0x00 })
        } else if same_text(name, "olive") {
            Some(Color { red: 0x80, green: 0x80, blue: 0x00 })
        } else if same_text(name, "yellow") {
            Some(Color { red: 0xff, green: 0xff, blue: 0x00 })
        } else if same_text(name, "navy") {
            Some(Color { red: 0x00, green: 0x00, blue: 0x80 })
        } else if same_text(name, "blue") {
            Some(Color { red: 0x00, green: 0x00, blue: 0xff })
        } else if same_text(name, "teal") {
            Some(Color { red: 0x00, green: 0x80, blue: 0x80 })
        } else if same_text(name, "aqua") {
            Some(Color { red: 0x00, green: 0xff, blue: 0xff })
        } else if same_text(name, "orange") {
            Some(Color { red: 0xff, green: 0xa5, blue: 0x00 })
        } else if same_text(name, "lightgray") {
            Some(Color { red: 0xd3, green: 0xd3, blue: 0xd3 })
        } else {
            None
        }
    }

    pub fn from_code(code: &str) -> (color: Option<Color>)
        ensures
            color == Color::coded(code@),
    {
        let chars = chars_of(code);
        if chars.len() != 7 || chars[0] != '#' {
            return None;
        }
        let red = hex_pair_value(chars[1], chars[2]);
        let green = hex_pair_value(chars[3], chars[4]);
        let blue = hex_pair_value(chars[5], chars[6]);
        match (red, green, blue) {
            (Some(r), Some(g), Some(b)) => Some(Color { red: r, green: g, blue: b }),
            _ => None,
        }
    }

    pub fn white() -> (color: Color)
        ensures
            color == Color::spec_white(),
    {
        Color { red: 0xff, green: 0xff, blue: 0xff }
    }

    pub fn black() -> (color: Color)
        ensures
            color == Color::spec_black(),
    {
        Color { red: 0x00, green: 0x00, blue: 0x00 }
    }

    pub fn code_u32(&self) -> (code: u32)
        ensures
            code == self.code(),
    {
        let r: u32 = self.red as u32;
        let g: u32 = self.green as u32;
        let b: u32 = self.blue as u32;
        r * 65536 + g * 256 + b
    }
}

fn hex_digit_value(c: char) -> (value: Option<u8>)
    ensures
        match value {
            Some(v) => hex_digit(c) == Some(v as int) && v < 16,
            None => hex_digit(c) is None,
        },
{
    if '0' <= c && c <= '9' {
        Some((c as u8) - 48)
    } else if 'a' <= c && c <= 'f' {
        Some((c as u8) - 97 + 10)
    } else if 'A' <= c && c <= 'F' {
        Some((c as u8) - 65 + 10)
    } else {
        None
    }
}

fn hex_pair_value(high: char, low: char) -> (value: Option<u8>)
    ensures
        match value {
            Some(v) => hex_pair(high, low) == Some(v as int),
            None => hex_pair(high, low) is None,
        },
{
    match (hex_digit_value(high), hex_digit_value(low)) {
        (Some(h), Some(l)) => Some(16 * h + l),
        _ => None,
    }
}

#[derive(Debug, Clone, Copy, PartialEq, Eq, Structural)]
pub enum DisplayType {
    Block,
    Inline,
    DisplayNone,
}

impl DisplayType {
    /// The display type that a keyword stands for.
    pub open spec fn named(keyword: Seq<char>) -> Option<DisplayType> {
        if keyword == "block"@ {
            Some(DisplayType::Block)
        } else if keyword == "inline"@ {
            Some(DisplayType::Inline)
        } else if keyword == "none"@ {
            Some(DisplayType::DisplayNone)
        } else {
            None
        }
    }

    /// The display type of a node for which no rule sets one.
    pub open spec fn initial(node: NodeKindView) -> DisplayType {
        match node {
            NodeKindView::Document => DisplayType::Block,
            NodeKindView::Element(e) => if e.kind.is_block() {
                DisplayType::Block
            } else {
                DisplayType::Inline
            },
            NodeKindView::Text(_) => DisplayType::Inline,
        }
    }

    /// The three keywords stand for the three display types.
    pub proof fn lemma_named_display_types()
        ensures
            DisplayType::named("block"@) == Some(DisplayType::Block),
            DisplayType::named("inline"@) == Some(DisplayType::Inline),
            DisplayType::named("none"@) == Some(DisplayType::DisplayNone),
    {
        reveal_strlit("block");
        reveal_strlit("inline");
        reveal_strlit("none");
        assert("block"@.len() == 5 && "inline"@.len() == 6 && "none"@.len() == 4);
    }

    pub fn from_str(s: &str) -> (display: Option<DisplayType>)
        ensures
            display == DisplayType::named(s@),
    {
        if same_text(s, "block") {
            Some(DisplayType::Block)
        } else if same_text(s, "inline") {
            Some(DisplayType::Inline)
        } else if same_text(s, "none") {
            Some(DisplayType::DisplayNone)
        } else {
            None
        }
    }

    pub fn default(node: &NodeKind) -> (display: DisplayType)
        ensures
            display == DisplayType::initial(node@),
    {
        match node {
            NodeKind::Document => DisplayType::Block,
            NodeKind::Element(e) => {
                if e.is_block_element() {
                    DisplayType::Block
                } else {
                    DisplayType::Inline
                }
            },
            NodeKind::Text(_) => DisplayType::Inline,
        }
    }
}

#[derive(Debug, Clone, Copy, PartialEq, Eq, Structural)]
pub enum FontSize {
    Medium,
    XLarge,
    XXLarge,
}

impl FontSize {
    /// The font size of a node for which none is inherited.
    pub open spec fn initial(node: NodeKindView) -> FontSize {
        match node.element_kind() {
            Some(ElementKind::H1) => FontSize::XXLarge,
            Some(ElementKind::H2) => FontSize::XLarge,
            _ => FontSize::Medium,
        }
    }

    /// How many times the size of the medium font this one has.
    pub open spec fn spec_ratio(self) -> int {
        match self {
            FontSize::Medium => 1,
            FontSize::XLarge => 2,
            FontSize::XXLarge => 3,
        }
    }

    pub fn default(node: &NodeKind) -> (size: FontSize)
        ensures
            size == FontSize::initial(node@),
    {
        match node {
            NodeKind::Element(e) => match e.kind() {
                ElementKind::H1 => FontSize::XXLarge,
                ElementKind::H2 => FontSize::XLarge,
                _ => FontSize::Medium,
            },
            _ => FontSize::Medium,
        }
    }

    pub fn ratio(&self) -> (r: i64)
        ensures
            r == self.spec_ratio(),
    {
        match self {
            FontSize::Medium => 1,
            FontSize::XLarge => 2,
            FontSize::XXLarge => 3,
        }
    }
}

/// The style of a layout object. A property is unset until a rule of the
/// style sheet or `defaulting` sets it.
#[derive(Debug, Clone, Copy, PartialEq, Eq, Structural)]
pub struct ComputedStyle {
    pub background_color: Option<Color>,
    pub color: Option<Color>,
    pub display: Option<DisplayType>,
    pub font_size: Option<FontSize>,
}

impl Default for ComputedStyle {
    fn default() -> (style: Self)
        ensures
            style == ComputedStyle::unset(),
    {
        ComputedStyle { background_color: None, color: None, display: None, font_size: None }
    }
}

impl ComputedStyle {
    /// The style of which no property is set.
    pub open spec fn unset() -> ComputedStyle {
        ComputedStyle { background_color: None, color: None, display: None, font_size: None }
    }

    /// Whether every property is set.
    pub open spec fn is_resolved(self) -> bool {
        self.background_color is Some && self.color is Some && self.display is Some
            && self.font_size is Some
    }

    /// The style with every unset property filled in. The colours are
    /// inherited: the parent's, and white for the background and black for
    /// the text where there is no parent. A font size other than medium is
    /// inherited; else the node's own initial size holds. The display type
    /// is never inherited.
    pub open spec fn defaulted(self, node: NodeKindView, parent: Option<ComputedStyle>) -> ComputedStyle {
        ComputedStyle {
            background_color: Some(
                match (self.background_color, parent) {
                    (Some(c), _) => c,
                    (None, Some(p)) => p.background_color->0,
                    (None, None) => Color::spec_white(),
                },
            ),
            color: Some(
                match (self.color, parent) {
                    (Some(c), _) => c,
                    (None, Some(p)) => p.color->0,
                    (None, None) => Color::spec_black(),
                },
            ),
            display: Some(
                match self.display {
                    Some(d) => d,
                    None => DisplayType::initial(node),
                },
            ),
            font_size: Some(
                match (self.font_size, parent) {
                    (Some(s), _) => s,
                    (None, Some(p)) if p.font_size->0 != FontSize::Medium => p.font_size->0,
                    _ => FontSize::initial(node),
                },
            ),
        }
    }

    /// Fills in every property that is still unset, from the style of the
    /// parent or by the kind of the node.
    pub fn defaulting(&mut self, node: &NodeKind, parent_style: Option<ComputedStyle>)
        requires
            parent_style is Some ==> parent_style->0.is_resolved(),
        ensures
            *final(self) == old(self).defaulted(node@, parent_style),
            final(self).is_resolved(),
    {
        if let Some(parent) = parent_style {
            if self.background_color.is_none() && parent.background_color() != Color::white() {
                self.background_color = Some(parent.background_color());
            }
            if self.color.is_none() && parent.color() != Color::black() {
                self.color = Some(parent.color());
            }
            if self.font_size.is_none() && parent.font_size() != FontSize::Medium {
                self.font_size = Some(parent.font_size());
            }
        }
        if self.background_color.is_none() {
            self.background_color = Some(Color::white());
        }
        if self.color.is_none() {
            self.color = Some(Color::black());
        }
        if self.display.is_none() {
            self.display = Some(DisplayType::default(node));
        }
        if self.font_size.is_none() {
            self.font_size = Some(FontSize::default(node));
        }
    }

    pub fn set_background_color(&mut self, color: Color)
        ensures
            *final(self) == (ComputedStyle { background_color: Some(color), ..*old(self) }),
    {
        self.background_color = Some(color);
    }

    pub fn background_color(&self) -> (color: Color)
        requires
            self.background_color is Some,
        ensures
            Some(color) == self.background_color,
    {
        self.background_color.unwrap()
    }

    pub fn set_color(&mut self, color: Color)
        ensures
            *final(self) == (ComputedStyle { color: Some(color), ..*old(self) }),
    {
        self.color = Some(color);
    }

    pub fn color(&self) -> (color: Color)
        requires
            self.color is Some,
        ensures
            Some(color) == self.color,
    {
        self.color.unwrap()
    }

    pub fn set_display(&mut self, display: DisplayType)
        ensures
            *final(self) == (ComputedStyle { display: Some(display), ..*old(self) }),
    {
        self.display = Some(display);
    }

    pub fn display(&self) -> (display: DisplayType)
        requires
            self.display is Some,
        ensures
            Some(display) == self.display,
    {
        self.display.unwrap()
    }

    pub fn font_size(&self) -> (size: FontSize)
        requires
            self.font_size is Some,
        ensures
            Some(size) == self.font_size,
    {
        self.font_size.unwrap()
    }
}

} // verus!
