use vstd::prelude::*;

use crate::drivers::framebuffer::RGB;

verus! {

/// Colors of the terminal: defaults, selection, cursor, and the 16 ANSI colors.
#[derive(Clone, Copy, Debug)]
pub struct Theme {
    pub foreground: RGB,
    pub background: RGB,
    pub selection_foreground: RGB,
    pub selection_background: RGB,
    pub cursor: RGB,
    pub cursor_text_color: RGB,
    pub ansi_colors: [RGB; 16],
}

impl Theme {
    pub fn catppuccin() -> (t: Theme)
        ensures
            t.foreground == RGB(0xcdd6f4),
            t.background == RGB(0x1e1e2e),
    {
        Theme {
            foreground: RGB(0xcdd6f4),
            background: RGB(0x1e1e2e),
            selection_foreground: RGB(0x1e1e2e),
            selection_background: RGB(0xf5e0dc),
            cursor: RGB(0xf5e0dc),
            cursor_text_color: RGB(0x1e1e2e),
            ansi_colors: [
                RGB(0x45475a),
                RGB(0xf38ba8),
                RGB(0xa6e3a1),
                RGB(0xf9e2af),
                RGB(0x89b4fa),
                RGB(0xf5c2e7),
                RGB(0x94e2d5),
                RGB(0xbac2de),
                RGB(0x585b70),
                RGB(0xf38ba8),
                RGB(0xa6e3a1),
                RGB(0xf9e2af),
                RGB(0x89b4fa),
                RGB(0xf5c2e7),
                RGB(0x94e2d5),
                RGB(0xa6adc8),
            ],
        }
    }

    pub fn gruvbox() -> (t: Theme)
        ensures
            t.foreground == RGB(0xebdbb2),
            t.background == RGB(0x282828),
    {
        Theme {
            foreground: RGB(0xebdbb2),
            background: RGB(0x282828),
            selection_foreground: RGB(0x928374),
            selection_background: RGB(0xebdbb2),
            cursor: RGB(0x928374),
            cursor_text_color: RGB(0x282828),
            ansi_colors: [
                RGB(0x665c54),
                RGB(0xcc241d),
                RGB(0x98971a),
                RGB(0xd79921),
                RGB(0x458588),
                RGB(0xb16286),
                RGB(0x689d6a),
                RGB(0xa89984),
                RGB(0x7c6f64),
                RGB(0xfb4934),
                RGB(0xb8bb26),
                RGB(0xfabd2f),
                RGB(0x83a598),
                RGB(0xd3869b),
                RGB(0x8ec07c),
                RGB(0xbdae93),
            ],
        }
    }
}

impl Default for Theme {
    fn default() -> (t: Theme)
        ensures
            t.foreground == RGB(0xcdd6f4),
            t.background == RGB(0x1e1e2e),
    {
        Theme::catppuccin()
    }
}

} // verus!
