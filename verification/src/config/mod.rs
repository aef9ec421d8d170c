//! All configuration is compiled in: the keymap, the language registry,
//! the capture vocabulary and the editor options.

pub mod keymap;
pub mod languages;
pub mod theme;

use vstd::prelude::*;

verus! {

/// Editor options.
pub struct Options {
    /// Display width of a tab character.
    pub tabstop: usize,
    /// Indent width used by Tab in insert mode and auto-indent.
    pub shiftwidth: usize,
    /// Insert spaces instead of tab characters.
    pub expandtab: bool,
    /// Minimal number of screen lines to keep above and below the cursor.
    pub scrolloff: usize,
    /// Show absolute line numbers.
    pub number: bool,
    /// Highlight the cursor line.
    pub cursorline: bool,
    /// Ensure the file ends with a newline on save.
    pub final_newline: bool,
}

pub const TABSTOP: usize = 4;

/// How far `>` and `<` shift a line.
pub const SHIFTWIDTH: usize = 4;

/// The compiled-in options.
pub fn options() -> (o: Options)
    ensures
        o.tabstop == TABSTOP,
        o.shiftwidth == SHIFTWIDTH,
        o.expandtab,
        o.scrolloff == 15,
        o.number,
        o.cursorline,
        o.final_newline,
{
    Options {
        tabstop: TABSTOP,
        shiftwidth: SHIFTWIDTH,
        expandtab: true,
        scrolloff: 15,
        number: true,
        cursorline: true,
        final_newline: true,
    }
}

} // verus!
