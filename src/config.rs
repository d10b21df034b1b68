use crate::selection::SelectionType;
use vstd::prelude::*;

verus! {

/// A modifier key of a key chord.
#[derive(Debug, Clone, Copy, PartialEq, Eq, Structural)]
pub enum Modifier {
    Control,
    Shift,
    Alt,
    Meta,
}

/// A key chord: modifiers held while `key` (a keysym) is struck.
#[derive(Debug, Clone)]
pub struct Binding {
    pub key: u32,
    pub modifiers: Vec<Modifier>,
}

/// A color as 0xAARRGGBB.
#[derive(Debug, Clone, Copy, PartialEq, Eq, Structural)]
pub struct Color(pub u32);

impl Color {
    /// The color of the given channels.
    pub fn from_argb(a: u8, r: u8, g: u8, b: u8) -> (c: Color)
        ensures
            c.0 == a as u32 * 0x1000000 + r as u32 * 0x10000 + g as u32 * 0x100 + b as u32,
    {
        Color(a as u32 * 0x1000000 + r as u32 * 0x10000 + g as u32 * 0x100 + b as u32)
    }

    /// The alpha, red, green and blue channels.
    pub fn channels(&self) -> (r: (u8, u8, u8, u8))
        ensures
            r.0 == self.0 / 0x1000000,
            r.1 == (self.0 / 0x10000) % 0x100,
            r.2 == (self.0 / 0x100) % 0x100,
            r.3 == self.0 % 0x100,
    {
        let v = self.0;
        ((v / 0x1000000) as u8, ((v / 0x10000) % 0x100) as u8, ((v / 0x100) % 0x100) as u8, (v % 0x100) as u8)
    }
}

/// A pair of values along the two axes.
#[derive(Debug, Clone, Copy, PartialEq, Eq)]
pub struct XY<T> {
    pub x: T,
    pub y: T,
}

/// A width and a height in pixels.
#[derive(Debug, Clone, Copy, PartialEq, Eq, Structural)]
pub struct Dimensions {
    pub width: u16,
    pub height: u16,
}

/// The colors of the history window.
#[derive(Debug, Clone, Copy, PartialEq, Eq, Structural)]
pub struct ThemeConfig {
    pub background: Color,
    pub foreground: Color,
    pub muted_foreground: Color,
    pub button_background: Color,
    pub button_active_background: Color,
    pub scroll_background: Color,
    pub scroll_handle: Color,
    pub preview_background: Color,
    pub ribbon: Color,
}

/// The default theme with the given ribbon color.
pub open spec fn theme_with_ribbon(ribbon: u32) -> ThemeConfig {
    ThemeConfig {
        background: Color(0xff191919),
        foreground: Color(0xffcccccc),
        muted_foreground: Color(0xff707070),
        button_background: Color(0xff2f2f2f),
        button_active_background: Color(0xff454545),
        scroll_background: Color(0xff0a0a0a),
        scroll_handle: Color(0xffbbbbbb),
        preview_background: Color(0x77222222),
        ribbon: Color(ribbon),
    }
}

impl ThemeConfig {
    /// The default theme.
    pub fn new() -> (r: ThemeConfig)
        ensures
            r == theme_with_ribbon(0x55ffffff),
    {
        ThemeConfig {
            background: Color(0xff191919),
            foreground: Color(0xffcccccc),
            muted_foreground: Color(0xff707070),
            button_background: Color(0xff2f2f2f),
            button_active_background: Color(0xff454545),
            scroll_background: Color(0xff0a0a0a),
            scroll_handle: Color(0xffbbbbbb),
            preview_background: Color(0x77222222),
            ribbon: Color(0x55ffffff),
        }
    }
}

/// The default theme of the CLIPBOARD history: a blue ribbon.
pub fn default_clipboard_config() -> (r: ThemeConfig)
    ensures
        r == theme_with_ribbon(0x550000ff),
{
    let mut t = ThemeConfig::new();
    t.ribbon = Color(0x550000ff);
    t
}

/// The default theme of the PRIMARY history: a red ribbon.
pub fn default_primary_config() -> (r: ThemeConfig)
    ensures
        r == theme_with_ribbon(0x30ff0000),
{
    let mut t = ThemeConfig::new();
    t.ribbon = Color(0x30ff0000);
    t
}

/// The default theme of a selection's history.
pub fn default_theme(selection_type: SelectionType) -> (r: ThemeConfig)
    ensures
        selection_type == SelectionType::CLIPBOARD ==> r == theme_with_ribbon(0x550000ff),
        selection_type == SelectionType::PRIMARY ==> r == theme_with_ribbon(0x30ff0000),
{
    match selection_type {
        SelectionType::CLIPBOARD => default_clipboard_config(),
        SelectionType::PRIMARY => default_primary_config(),
    }
}

/// The default number of items a history keeps.
pub const DEFAULT_ITEM_LIMIT: usize = 100;

} // verus!
