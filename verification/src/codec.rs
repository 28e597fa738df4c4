//! The ANSI SGR escape-sequence codec.
//!
//! Maps colors to SGR parameter strings and a whole effective style to
//! the byte sequence emitted at a style-scope boundary. The policy is
//! "always reset, then reapply the whole effective style": every
//! transition begins with the bare reset sequence and re-emits each set
//! attribute in a fixed order.

use vstd::prelude::*;

use crate::style::Color;
use crate::style::Style;

verus! {

/// ASCII byte values used in escape sequences.
pub const ESC: u8 = 27;

pub const LBRACK: u8 = 91;

pub const LETTER_M: u8 = 109;

pub const SEMI: u8 = 59;

pub const DIGIT_0: u8 = 48;


/// The decimal digits of `n`, most significant first, no leading zeros.
pub open spec fn spec_dec(n: u8) -> Seq<u8> {
    if n < 10 {
        seq![(DIGIT_0 + n) as u8]
    } else if n < 100 {
        seq![(DIGIT_0 + n / 10) as u8, (DIGIT_0 + n % 10) as u8]
    } else {
        seq![(DIGIT_0 + n / 100) as u8, (DIGIT_0 + (n / 10) % 10) as u8, (DIGIT_0 + n % 10) as u8]
    }
}

/// One complete escape sequence carrying the given SGR parameters.
pub open spec fn spec_escape(params: Seq<u8>) -> Seq<u8> {
    seq![ESC, LBRACK] + params + seq![LETTER_M]
}

/// The bare reset sequence, emitted alone when a scope closes back to
/// the all-unset style.
pub open spec fn bare_reset() -> Seq<u8> {
    spec_escape(seq![DIGIT_0])
}

/// The palette index of a named color in the fixed order black, red,
/// green, yellow, blue, magenta, cyan, white.
pub open spec fn color_index(c: Color) -> u8 {
    match c {
        Color::Black => 0,
        Color::Red => 1,
        Color::Green => 2,
        Color::Yellow => 3,
        Color::Blue => 4,
        Color::Magenta => 5,
        Color::Cyan => 6,
        Color::White => 7,
        Color::Rgb(_, _, _) => 0,
    }
}

/// The SGR parameter string for a color on one channel.
///
/// Named colors use the classic codes 30-37 (40-47 on the background
/// channel); under `intense` they use the indexed-256 form `38;5;n`
/// (`48;5;n`) with `n = 8 + index`, the bright half of the standard
/// palette. RGB triples use the true-color form `38;2;r;g;b`
/// (`48;2;r;g;b`) regardless of `intense`.
pub open spec fn spec_color_params(c: Color, intense: bool, background: bool) -> Seq<u8> {
    let lead: u8 = if background {
        52u8
    } else {
        51u8
    };
    match c {
        Color::Rgb(r, g, b) => seq![lead, 56u8, SEMI, 50u8, SEMI] + spec_dec(r) + seq![SEMI]
            + spec_dec(g) + seq![SEMI] + spec_dec(b),
        _ => {
            if intense {
                seq![lead, 56u8, SEMI, 53u8, SEMI] + spec_dec((8 + color_index(c)) as u8)
            } else {
                seq![lead, (DIGIT_0 + color_index(c)) as u8]
            }
        },
    }
}

/// Whether a style emits any code beyond the bare reset.
pub open spec fn style_visible(s: Style) -> bool {
    ||| s.bold == Some(true)
    ||| s.underline == Some(true)
    ||| s.italic == Some(true)
    ||| s.fg is Some
    ||| s.bg is Some
}

/// The full byte sequence for one style transition: the bare reset,
/// then bold, underline, italic, foreground, background — each only if
/// set. `intense` contributes no code of its own; it only selects the
/// bright palette for the color codes.
pub open spec fn spec_transition(s: Style) -> Seq<u8> {
    bare_reset() + (if s.bold == Some(true) {
        spec_escape(seq![49u8])
    } else {
        Seq::<u8>::empty()
    }) + (if s.underline == Some(true) {
        spec_escape(seq![52u8])
    } else {
        Seq::<u8>::empty()
    }) + (if s.italic == Some(true) {
        spec_escape(seq![51u8])
    } else {
        Seq::<u8>::empty()
    }) + (match s.fg {
        Some(c) => spec_escape(spec_color_params(c, s.intense == Some(true), false)),
        None => Seq::<u8>::empty(),
    }) + (match s.bg {
        Some(c) => spec_escape(spec_color_params(c, s.intense == Some(true), true)),
        None => Seq::<u8>::empty(),
    })
}

/// A transition is the bare reset exactly when the style is not visible.
pub proof fn lemma_transition_bare_iff_invisible(s: Style)
    ensures
        spec_transition(s) == bare_reset() <==> !style_visible(s),
{
    if !style_visible(s) {
        assert(spec_transition(s) =~= bare_reset());
    } else {
        assert(spec_transition(s).len() > bare_reset().len());
    }
}

/// Appends the decimal digits of `n`.
fn push_dec(out: &mut Vec<u8>, n: u8)
    ensures
        final(out)@ == old(out)@ + spec_dec(n),
{
    if n >= 100 {
        out.push(DIGIT_0 + n / 100);
        out.push(DIGIT_0 + (n / 10) % 10);
        out.push(DIGIT_0 + n % 10);
    } else if n >= 10 {
        out.push(DIGIT_0 + n / 10);
        out.push(DIGIT_0 + n % 10);
    } else {
        out.push(DIGIT_0 + n);
    }
    assert(out@ =~= old(out)@ + spec_dec(n));
}

/// The palette index of a named color; `0` for RGB triples, which never
/// use an indexed code.
fn color_base(c: &Color) -> (r: u8)
    ensures
        r == color_index(*c),
{
    match c {
        Color::Black => 0,
        Color::Red => 1,
        Color::Green => 2,
        Color::Yellow => 3,
        Color::Blue => 4,
        Color::Magenta => 5,
        Color::Cyan => 6,
        Color::White => 7,
        Color::Rgb(_, _, _) => 0,
    }
}

/// Appends one complete escape sequence carrying the SGR parameters of
/// `c` on the chosen channel.
fn push_color(out: &mut Vec<u8>, c: Color, intense: bool, background: bool)
    ensures
        final(out)@ == old(out)@ + spec_escape(spec_color_params(c, intense, background)),
{
    out.push(ESC);
    out.push(LBRACK);
    let lead: u8 = if background {
        52u8
    } else {
        51u8
    };
    match c {
        Color::Rgb(r, g, b) => {
            out.push(lead);
            out.push(56u8);
            out.push(SEMI);
            out.push(50u8);
            out.push(SEMI);
            push_dec(out, r);
            out.push(SEMI);
            push_dec(out, g);
            out.push(SEMI);
            push_dec(out, b);
        },
        _ => {
            let idx = color_base(&c);
            if intense {
                out.push(lead);
                out.push(56u8);
                out.push(SEMI);
                out.push(53u8);
                out.push(SEMI);
                push_dec(out, 8 + idx);
            } else {
                out.push(lead);
                out.push(DIGIT_0 + idx);
            }
        },
    }
    out.push(LETTER_M);
    assert(out@ =~= old(out)@ + spec_escape(spec_color_params(c, intense, background)));
}

/// The SGR parameter string for one color on one channel, without the
/// surrounding escape bytes.
pub fn encode(c: Color, intense: bool, background: bool) -> (r: Vec<u8>)
    ensures
        r@ == spec_color_params(c, intense, background),
{
    let mut out: Vec<u8> = Vec::new();
    push_color(&mut out, c, intense, background);
    // Strip the escape framing: keep params only.
    let mut params: Vec<u8> = Vec::new();
    let mut i: usize = 2;
    while i + 1 < out.len()
        invariant
            2 <= i,
            i + 1 <= out.len(),
            out@ == spec_escape(spec_color_params(c, intense, background)),
            params@ == spec_color_params(c, intense, background).take(i - 2),
        decreases out.len() - i,
    {
        params.push(out[i]);
        assert(params@ =~= spec_color_params(c, intense, background).take(i - 1));
        i += 1;
    }
    assert(params@ =~= spec_color_params(c, intense, background));
    params
}

/// Prepending a sequence to a six-part concatenation associates freely.
proof fn lemma_concat6(s0: Seq<u8>, b0: Seq<u8>, b1: Seq<u8>, b2: Seq<u8>, b3: Seq<u8>, b4: Seq<u8>, b5: Seq<u8>)
    ensures
        s0 + b0 + b1 + b2 + b3 + b4 + b5 == s0 + (b0 + b1 + b2 + b3 + b4 + b5),
{
    assert(s0 + b0 + b1 + b2 + b3 + b4 + b5 =~= s0 + (b0 + b1 + b2 + b3 + b4 + b5));
}

/// Appends the escape sequences for one style transition.
#[verifier::rlimit(100)]
pub fn write_transition(out: &mut Vec<u8>, s: &Style)
    ensures
        final(out)@ == old(out)@ + spec_transition(*s),
{
    out.push(ESC);
    out.push(LBRACK);
    out.push(DIGIT_0);
    out.push(LETTER_M);
    proof {
        assert(out@ =~= old(out)@ + bare_reset());
    }
    let ghost t1 = out@;
    match s.bold {
        Some(true) => {
            out.push(ESC);
            out.push(LBRACK);
            out.push(49u8);
            out.push(LETTER_M);
        },
        _ => {},
    }
    proof {
        assert(out@ =~= t1 + (if s.bold == Some(true) {
            spec_escape(seq![49u8])
        } else {
            Seq::<u8>::empty()
        }));
    }
    let ghost t2 = out@;
    match s.underline {
        Some(true) => {
            out.push(ESC);
            out.push(LBRACK);
            out.push(52u8);
            out.push(LETTER_M);
        },
        _ => {},
    }
    proof {
        assert(out@ =~= t2 + (if s.underline == Some(true) {
            spec_escape(seq![52u8])
        } else {
            Seq::<u8>::empty()
        }));
    }
    let ghost t3 = out@;
    match s.italic {
        Some(true) => {
            out.push(ESC);
            out.push(LBRACK);
            out.push(51u8);
            out.push(LETTER_M);
        },
        _ => {},
    }
    proof {
        assert(out@ =~= t3 + (if s.italic == Some(true) {
            spec_escape(seq![51u8])
        } else {
            Seq::<u8>::empty()
        }));
    }
    let ghost t4 = out@;
    let intense = match s.intense {
        Some(true) => true,
        _ => false,
    };
    match s.fg {
        Some(c) => push_color(out, c, intense, false),
        None => {},
    }
    proof {
        assert(out@ =~= t4 + (match s.fg {
            Some(c) => spec_escape(spec_color_params(c, s.intense == Some(true), false)),
            None => Seq::<u8>::empty(),
        }));
    }
    let ghost t5 = out@;
    match s.bg {
        Some(c) => push_color(out, c, intense, true),
        None => {},
    }
    proof {
        let s0 = old(out)@;
        let b0 = bare_reset();
        let b1 = if s.bold == Some(true) {
            spec_escape(seq![49u8])
        } else {
            Seq::<u8>::empty()
        };
        let b2 = if s.underline == Some(true) {
            spec_escape(seq![52u8])
        } else {
            Seq::<u8>::empty()
        };
        let b3 = if s.italic == Some(true) {
            spec_escape(seq![51u8])
        } else {
            Seq::<u8>::empty()
        };
        let b4 = match s.fg {
            Some(c) => spec_escape(spec_color_params(c, s.intense == Some(true), false)),
            None => Seq::<u8>::empty(),
        };
        let b5 = match s.bg {
            Some(c) => spec_escape(spec_color_params(c, s.intense == Some(true), true)),
            None => Seq::<u8>::empty(),
        };
        assert(out@ == t5 + b5);
        assert(out@ == s0 + b0 + b1 + b2 + b3 + b4 + b5);
        lemma_concat6(s0, b0, b1, b2, b3, b4, b5);
        assert(out@ == old(out)@ + spec_transition(*s));
    }
}

/// The full transition byte sequence for an effective style.
pub fn render_transition(s: &Style) -> (r: Vec<u8>)
    ensures
        r@ == spec_transition(*s),
{
    let mut out: Vec<u8> = Vec::new();
    write_transition(&mut out, s);
    out
}

} // verus!
