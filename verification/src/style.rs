//! Text formatting styles applied to rendered form content.

use vstd::prelude::*;

verus! {

/// Colors usable for foreground and background text formatting.
#[derive(Debug, Copy, Clone, Eq, PartialEq)]
pub enum Color {
    Black,
    DarkGrey,
    Red,
    DarkRed,
    Green,
    DarkGreen,
    Yellow,
    DarkYellow,
    Blue,
    DarkBlue,
    Magenta,
    DarkMagenta,
    Cyan,
    DarkCyan,
    White,
    Grey,
    Reset,
}


/// The style consisting of just the specified foreground color.
pub open spec fn foreground_only(color: Color) -> Style {
    Style {
        foreground_color: Some(color),
        background_color: None,
        is_bold: false,
        is_italic: false,
        is_underline: false,
    }
}

impl Color {
    /// Convert this to a style with this as the foreground color.
    pub fn as_style(self) -> (r: Style)
        ensures
            r == foreground_only(self),
    {
        Style::new().set_foreground(self)
    }
}

/// A text formatting style: optional colors plus emphasis flags.
#[derive(Debug, Copy, Clone, Eq, PartialEq)]
pub struct Style {
    pub foreground_color: Option<Color>,
    pub background_color: Option<Color>,
    pub is_bold: bool,
    pub is_italic: bool,
    pub is_underline: bool,
}

impl Style {
    /// Create a new style with no colors or styling.
    pub fn new() -> (r: Style)
        ensures
            r == (Style {
                foreground_color: None,
                background_color: None,
                is_bold: false,
                is_italic: false,
                is_underline: false,
            }),
    {
        Style {
            foreground_color: None,
            background_color: None,
            is_bold: false,
            is_italic: false,
            is_underline: false,
        }
    }

    /// This style with the specified foreground color.
    pub fn set_foreground(&self, color: Color) -> (r: Style)
        ensures
            r == (Style { foreground_color: Some(color), ..*self }),
    {
        Style { foreground_color: Some(color), ..*self }
    }

    /// This style's foreground color, if specified.
    pub fn foreground(&self) -> (r: Option<Color>)
        ensures
            r == self.foreground_color,
    {
        self.foreground_color
    }

    /// This style with the specified background color.
    pub fn set_background(&self, color: Color) -> (r: Style)
        ensures
            r == (Style { background_color: Some(color), ..*self }),
    {
        Style { background_color: Some(color), ..*self }
    }

    /// This style's background color, if specified.
    pub fn background(&self) -> (r: Option<Color>)
        ensures
            r == self.background_color,
    {
        self.background_color
    }

    /// This style with the specified bold value.
    pub fn set_bold(&self, is_bold: bool) -> (r: Style)
        ensures
            r == (Style { is_bold, ..*self }),
    {
        Style { is_bold, ..*self }
    }

    /// Whether this style is bolded.
    pub fn is_bold(&self) -> (r: bool)
        ensures
            r == self.is_bold,
    {
        self.is_bold
    }

    /// This style with the specified italic value.
    pub fn set_italic(&self, is_italic: bool) -> (r: Style)
        ensures
            r == (Style { is_italic, ..*self }),
    {
        Style { is_italic, ..*self }
    }

    /// Whether this style is italicized.
    pub fn is_italic(&self) -> (r: bool)
        ensures
            r == self.is_italic,
    {
        self.is_italic
    }

    /// This style with the specified underline value.
    pub fn set_underline(&self, is_underline: bool) -> (r: Style)
        ensures
            r == (Style { is_underline, ..*self }),
    {
        Style { is_underline, ..*self }
    }

    /// Whether this style is underlined.
    pub fn is_underlined(&self) -> (r: bool)
        ensures
            r == self.is_underline,
    {
        self.is_underline
    }
}

impl Default for Style {
    /// Create a new style with no colors or styling.
    fn default() -> (r: Style)
        ensures
            r == (Style {
                foreground_color: None,
                background_color: None,
                is_bold: false,
                is_italic: false,
                is_underline: false,
            }),
    {
        Style::new()
    }
}

/// The style used for prompt/help text.
pub fn help_style() -> (r: Style)
    ensures
        r == foreground_only(Color::DarkYellow),
{
    Color::DarkYellow.as_style()
}

/// The style used for unselected drawer items.
pub fn drawer_style() -> (r: Style)
    ensures
        r == foreground_only(Color::Blue),
{
    Color::Blue.as_style()
}

/// The style used for the selected drawer item.
pub fn drawer_selected_style() -> (r: Style)
    ensures
        r == foreground_only(Color::Cyan),
{
    Color::Cyan.as_style()
}

/// The style used for content rendered as erroneous.
pub fn error_style() -> (r: Style)
    ensures
        r == foreground_only(Color::Red),
{
    Color::Red.as_style()
}

/// The style used for muted, de-emphasized content.
pub fn muted_style() -> (r: Style)
    ensures
        r == foreground_only(Color::DarkGrey),
{
    Color::DarkGrey.as_style()
}

} // verus!
