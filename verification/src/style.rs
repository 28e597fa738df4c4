//! Colors, styles, and the "override wins, unset falls through" merge.

use vstd::prelude::*;

verus! {

/// An abstract terminal color: one of the eight classic named colors
/// (ordered as in the standard terminal palette) or an explicit 24-bit
/// RGB triple.
#[derive(Clone, Copy, Debug)]
pub enum Color {
    Black,
    Blue,
    Green,
    Red,
    Cyan,
    Magenta,
    Yellow,
    White,
    Rgb(u8, u8, u8),
}

/// A (possibly partial) set of terminal attributes.
///
/// `None` means "unset: fall through to the inherited value" and is
/// distinct from an explicit `Some(false)`.
#[derive(Clone, Copy, Debug)]
pub struct Style {
    pub fg: Option<Color>,
    pub bg: Option<Color>,
    pub bold: Option<bool>,
    pub intense: Option<bool>,
    pub underline: Option<bool>,
    pub italic: Option<bool>,
    pub reset: Option<bool>,
}

/// `a` if it is set, else `b`.
pub open spec fn opt_or<T>(a: Option<T>, b: Option<T>) -> Option<T> {
    if a is Some {
        a
    } else {
        b
    }
}

impl Style {
    /// The all-unset style: every attribute falls through.
    pub open spec fn empty() -> Style {
        Style {
            fg: None,
            bg: None,
            bold: None,
            intense: None,
            underline: None,
            italic: None,
            reset: None,
        }
    }

    /// Attribute-wise `opt_or` of `self` over `b`.
    pub open spec fn spec_or(self, b: Style) -> Style {
        Style {
            fg: opt_or(self.fg, b.fg),
            bg: opt_or(self.bg, b.bg),
            bold: opt_or(self.bold, b.bold),
            intense: opt_or(self.intense, b.intense),
            underline: opt_or(self.underline, b.underline),
            italic: opt_or(self.italic, b.italic),
            reset: opt_or(self.reset, b.reset),
        }
    }

    /// Like `Option::or`, attribute-wise: all style values set in `self`
    /// are kept, all unset ones are taken from `style_b`.
    pub fn or(&self, style_b: Self) -> (r: Self)
        ensures
            r == self.spec_or(style_b),
    {
        Style {
            fg: if self.fg.is_some() {
                self.fg
            } else {
                style_b.fg
            },
            bg: if self.bg.is_some() {
                self.bg
            } else {
                style_b.bg
            },
            bold: if self.bold.is_some() {
                self.bold
            } else {
                style_b.bold
            },
            intense: if self.intense.is_some() {
                self.intense
            } else {
                style_b.intense
            },
            underline: if self.underline.is_some() {
                self.underline
            } else {
                style_b.underline
            },
            italic: if self.italic.is_some() {
                self.italic
            } else {
                style_b.italic
            },
            reset: if self.reset.is_some() {
                self.reset
            } else {
                style_b.reset
            },
        }
    }
}

impl Default for Style {
    /// The all-unset style.
    fn default() -> (s: Style)
        ensures
            s == Style::empty(),
    {
        Style {
            fg: None,
            bg: None,
            bold: None,
            intense: None,
            underline: None,
            italic: None,
            reset: None,
        }
    }
}

/// The effective style of a newly opened scope over the parent's
/// effective style: a tag with `reset` explicitly set discards every
/// inherited attribute and stands alone; otherwise each unset attribute
/// falls through to the parent.
pub open spec fn spec_effective(tag: Style, parent: Style) -> Style {
    if tag.reset == Some(true) {
        tag
    } else {
        tag.spec_or(parent)
    }
}

/// Computes the effective style of a scope opened with `tag` while
/// `parent` is the enclosing effective style.
pub fn effective(tag: &Style, parent: &Style) -> (r: Style)
    ensures
        r == spec_effective(*tag, *parent),
{
    match tag.reset {
        Some(true) => *tag,
        _ => tag.or(*parent),
    }
}

} // verus!
