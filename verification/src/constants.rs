//! Pixel measures of the window and of the fixed-width font.

use vstd::prelude::*;

verus! {

/// Colours of the window, as `0xrrggbb`.
pub const WHITE: u32 = 0xffffff;

pub const LIGHTGREY: u32 = 0xd3d3d3;

pub const GREY: u32 = 0x808080;

pub const DARKGREY: u32 = 0x5a5a5a;

pub const BLACK: u32 = 0x000000;

/// Where the window stands on the screen when it opens.
pub const WINDOW_INIT_X_POS: i64 = 30;

pub const WINDOW_INIT_Y_POS: i64 = 50;

pub const WINDOW_WIDTH: i64 = 600;

pub const WINDOW_HEIGHT: i64 = 400;

pub const WINDOW_PADDING: i64 = 5;

/// Height of the title bar that the window system draws.
pub const TITLE_BAR_HEIGHT: i64 = 24;

pub const TOOLBAR_HEIGHT: i64 = 26;

pub const ADDRESSBAR_HEIGHT: i64 = 20;

/// Width left for the document: the window without its two paddings.
pub const CONTENT_AREA_WIDTH: i64 = 590;

/// Height left for the document below title bar and toolbar.
pub const CONTENT_AREA_HRIGHT: i64 = 340;

pub const CHAR_WIDTH: i64 = 8;

pub const CHAR_HEIGHT: i64 = 16;

/// Height of one line of text, glyph and spacing.
pub const CHAR_HEIGHT_WITH_PADDING: i64 = 20;

/// The derived measures are what their names say.
pub proof fn lemma_derived_measures()
    ensures
        CONTENT_AREA_WIDTH == WINDOW_WIDTH - WINDOW_PADDING * 2,
        CONTENT_AREA_HRIGHT == WINDOW_HEIGHT - TITLE_BAR_HEIGHT - TOOLBAR_HEIGHT - WINDOW_PADDING
            * 2,
        CHAR_HEIGHT_WITH_PADDING == CHAR_HEIGHT + 4,
{
}

} // verus!
