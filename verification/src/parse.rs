//! The template parser.
//!
//! A single left-to-right scan over the raw template bytes. `{{` and
//! `}}` are literal escapes; `{$list}` opens a style tag and `{/$}`
//! closes the innermost one; `{[list]}` and `{[list]:spec}` are
//! inline-styled slots; `{ref}` and `{ref:spec}` are plain slots where
//! `ref` is empty, an unsigned integer, or an identifier. Everything
//! else is literal text. Parsing is fail-fast: the first error aborts
//! and no template is produced.

use vstd::prelude::*;

use crate::style::Color;
use crate::style::Style;
use crate::template::ArgKindV;
use crate::template::ArgRef;
use crate::template::ArgRefKind;
use crate::template::ArgRefV;
use crate::template::FormatStr;
use crate::template::FormatStrFragment;
use crate::template::FragV;
use crate::template::depth_after;
use crate::template::frags_shaped;

verus! {

/// ASCII byte values of the grammar's delimiters.
pub const OPEN_BRACE: u8 = 123;

pub const CLOSE_BRACE: u8 = 125;

pub const DOLLAR: u8 = 36;

pub const SLASH: u8 = 47;

pub const OPEN_BRACKET: u8 = 91;

pub const CLOSE_BRACKET: u8 = 93;

pub const COLON: u8 = 58;

pub const PLUS: u8 = 43;

pub const UNDERSCORE: u8 = 95;

/// Why a template was rejected.
#[derive(Clone, Copy, Debug, PartialEq, Eq, Structural)]
pub enum ParseError {
    /// A `{` (or the inside of a tag) never reaches its closing byte.
    UnterminatedBrace,
    /// The input ended with style tags still open.
    UnterminatedStyleTag,
    /// A `{/$}` with no open style tag to close.
    UnmatchedStyleClose,
    /// A slot reference or close tag that fits no rule of the grammar.
    MalformedSlot,
    /// A token in a style list that names no attribute or color.
    UnknownStyleToken,
}

/// The position of the first `b` at or after `from`, if any.
pub open spec fn find_byte(s: Seq<u8>, from: int, b: u8) -> Option<int>
    decreases s.len() - from,
{
    if from < 0 || from >= s.len() {
        None
    } else if s[from] == b {
        Some(from)
    } else {
        find_byte(s, from + 1, b)
    }
}

/// What `find_byte` returns: the first occurrence, in range.
pub proof fn lemma_find_byte(s: Seq<u8>, from: int, b: u8)
    requires
        0 <= from <= s.len(),
    ensures
        match find_byte(s, from, b) {
            Some(j) => from <= j < s.len() && s[j] == b && (forall|t: int|
                from <= t < j ==> s[t] != b),
            None => forall|t: int| from <= t < s.len() ==> s[t] != b,
        },
    decreases s.len() - from,
{
    if from < s.len() && s[from] != b {
        lemma_find_byte(s, from + 1, b);
    }
}

pub open spec fn is_digit(c: u8) -> bool {
    48 <= c <= 57
}

pub open spec fn is_alpha(c: u8) -> bool {
    (65 <= c <= 90) || (97 <= c <= 122)
}

pub open spec fn is_ident_start(c: u8) -> bool {
    is_alpha(c) || c == UNDERSCORE
}

pub open spec fn is_ident_char(c: u8) -> bool {
    is_ident_start(c) || is_digit(c)
}

/// A nonempty run of decimal digits.
pub open spec fn all_digits(s: Seq<u8>) -> bool {
    s.len() > 0 && forall|i: int| 0 <= i < s.len() ==> is_digit(#[trigger] s[i])
}

/// A nonempty identifier: a letter or underscore, then letters, digits
/// or underscores.
pub open spec fn is_ident(s: Seq<u8>) -> bool {
    &&& s.len() > 0
    &&& is_ident_start(s[0])
    &&& forall|i: int| 0 <= i < s.len() ==> is_ident_char(#[trigger] s[i])
}

/// The numeric value of a digit run.
pub open spec fn digits_val(s: Seq<u8>) -> int
    decreases s.len(),
{
    if s.len() == 0 {
        0
    } else {
        digits_val(s.drop_last()) * 10 + (s.last() - 48)
    }
}

/// The style-list token spelled `bold`.
pub open spec fn tok_bold() -> Seq<u8> {
    seq![98u8, 111u8, 108u8, 100u8]
}

/// The style-list token spelled `intense`.
pub open spec fn tok_intense() -> Seq<u8> {
    seq![105u8, 110u8, 116u8, 101u8, 110u8, 115u8, 101u8]
}

/// The style-list token spelled `underline`.
pub open spec fn tok_underline() -> Seq<u8> {
    seq![117u8, 110u8, 100u8, 101u8, 114u8, 108u8, 105u8, 110u8, 101u8]
}

/// The style-list token spelled `italic`.
pub open spec fn tok_italic() -> Seq<u8> {
    seq![105u8, 116u8, 97u8, 108u8, 105u8, 99u8]
}

/// The style-list token spelled `reset`.
pub open spec fn tok_reset() -> Seq<u8> {
    seq![114u8, 101u8, 115u8, 101u8, 116u8]
}

/// The prefix `bg:` of a background color token.
pub open spec fn tok_bg_prefix() -> Seq<u8> {
    seq![98u8, 103u8, COLON]
}

pub open spec fn tok_black() -> Seq<u8> {
    seq![98u8, 108u8, 97u8, 99u8, 107u8]
}

pub open spec fn tok_red() -> Seq<u8> {
    seq![114u8, 101u8, 100u8]
}

pub open spec fn tok_green() -> Seq<u8> {
    seq![103u8, 114u8, 101u8, 101u8, 110u8]
}

pub open spec fn tok_yellow() -> Seq<u8> {
    seq![121u8, 101u8, 108u8, 108u8, 111u8, 119u8]
}

pub open spec fn tok_blue() -> Seq<u8> {
    seq![98u8, 108u8, 117u8, 101u8]
}

pub open spec fn tok_magenta() -> Seq<u8> {
    seq![109u8, 97u8, 103u8, 101u8, 110u8, 116u8, 97u8]
}

pub open spec fn tok_cyan() -> Seq<u8> {
    seq![99u8, 121u8, 97u8, 110u8]
}

pub open spec fn tok_white() -> Seq<u8> {
    seq![119u8, 104u8, 105u8, 116u8, 101u8]
}

/// The named color a token spells, if any.
pub open spec fn color_of_token(t: Seq<u8>) -> Option<Color> {
    if t == tok_black() {
        Some(Color::Black)
    } else if t == tok_red() {
        Some(Color::Red)
    } else if t == tok_green() {
        Some(Color::Green)
    } else if t == tok_yellow() {
        Some(Color::Yellow)
    } else if t == tok_blue() {
        Some(Color::Blue)
    } else if t == tok_magenta() {
        Some(Color::Magenta)
    } else if t == tok_cyan() {
        Some(Color::Cyan)
    } else if t == tok_white() {
        Some(Color::White)
    } else {
        None
    }
}

/// One style-list token applied to the style gathered so far: a named
/// color sets the foreground, `bg:<color>` the background, the
/// attribute words set their flag. Anything else is an error.
pub open spec fn apply_token(st: Style, t: Seq<u8>) -> Result<Style, ParseError> {
    if t == tok_bold() {
        Ok(Style { bold: Some(true), ..st })
    } else if t == tok_intense() {
        Ok(Style { intense: Some(true), ..st })
    } else if t == tok_underline() {
        Ok(Style { underline: Some(true), ..st })
    } else if t == tok_italic() {
        Ok(Style { italic: Some(true), ..st })
    } else if t == tok_reset() {
        Ok(Style { reset: Some(true), ..st })
    } else if t.len() > 3 && t.take(3) == tok_bg_prefix() {
        match color_of_token(t.skip(3)) {
            Some(c) => Ok(Style { bg: Some(c), ..st }),
            None => Err(ParseError::UnknownStyleToken),
        }
    } else {
        match color_of_token(t) {
            Some(c) => Ok(Style { fg: Some(c), ..st }),
            None => Err(ParseError::UnknownStyleToken),
        }
    }
}

/// The `+`-separated token list of a style tag, applied left to right
/// over `st`.
pub open spec fn parse_style_list_from(t: Seq<u8>, i: int, st: Style) -> Result<
    Style,
    ParseError,
>
    decreases t.len() - i,
{
    if i < 0 || i > t.len() {
        Err(ParseError::UnknownStyleToken)
    } else {
        match find_byte(t, i, PLUS) {
            Some(k) => {
                if i <= k < t.len() {
                    match apply_token(st, t.subrange(i, k)) {
                        Ok(st2) => parse_style_list_from(t, k + 1, st2),
                        Err(e) => Err(e),
                    }
                } else {
                    Err(ParseError::UnknownStyleToken)
                }
            },
            None => apply_token(st, t.subrange(i, t.len() as int)),
        }
    }
}

/// A whole style list, starting from the empty style.
pub open spec fn spec_style_list(t: Seq<u8>) -> Result<Style, ParseError> {
    parse_style_list_from(t, 0, Style::empty())
}

/// A slot reference: empty is the implicit next argument, digits an
/// explicit position (which must fit in `u32`), an identifier a name.
pub open spec fn spec_ref(t: Seq<u8>) -> Result<ArgKindV, ParseError> {
    if t.len() == 0 {
        Ok(ArgKindV::Next)
    } else if all_digits(t) {
        if digits_val(t) <= u32::MAX {
            Ok(ArgKindV::Position(digits_val(t) as u32))
        } else {
            Err(ParseError::MalformedSlot)
        }
    } else if is_ident(t) {
        Ok(ArgKindV::Name(t))
    } else {
        Err(ParseError::MalformedSlot)
    }
}

/// A literal byte prepended onto a fragment sequence: onto the first
/// part of a leading text fragment, else as a new text fragment.
pub open spec fn cons_char(c: u8, frags: Seq<FragV>) -> Seq<FragV> {
    if frags.len() == 0 {
        seq![FragV::Fmt { parts: seq![seq![c]], args: Seq::empty() }]
    } else {
        match frags[0] {
            FragV::Fmt { parts, args } => seq![
                FragV::Fmt { parts: parts.update(0, seq![c] + parts[0]), args },
            ] + frags.drop_first(),
            _ => seq![FragV::Fmt { parts: seq![seq![c]], args: Seq::empty() }] + frags,
        }
    }
}

/// An argument slot prepended onto a fragment sequence: merged into a
/// leading text fragment, else as a new text fragment of its own.
pub open spec fn cons_arg(a: ArgRefV, frags: Seq<FragV>) -> Seq<FragV> {
    if frags.len() == 0 {
        seq![FragV::Fmt { parts: seq![Seq::<u8>::empty(), Seq::<u8>::empty()], args: seq![a] }]
    } else {
        match frags[0] {
            FragV::Fmt { parts, args } => seq![
                FragV::Fmt { parts: seq![Seq::<u8>::empty()] + parts, args: seq![a] + args },
            ] + frags.drop_first(),
            _ => seq![
                FragV::Fmt { parts: seq![Seq::<u8>::empty(), Seq::<u8>::empty()], args: seq![a] },
            ] + frags,
        }
    }
}

/// `cons_char` under `Result`.
pub open spec fn cons_char_result(c: u8, r: Result<Seq<FragV>, ParseError>) -> Result<
    Seq<FragV>,
    ParseError,
> {
    match r {
        Ok(frags) => Ok(cons_char(c, frags)),
        Err(e) => Err(e),
    }
}

/// `cons_arg` under `Result`.
pub open spec fn cons_arg_result(a: ArgRefV, r: Result<Seq<FragV>, ParseError>) -> Result<
    Seq<FragV>,
    ParseError,
> {
    match r {
        Ok(frags) => Ok(cons_arg(a, frags)),
        Err(e) => Err(e),
    }
}

/// The fragments parsed from `s[i..]` while `depth` style tags are
/// open. The grammar's single source of truth.
pub open spec fn spec_parse(s: Seq<u8>, i: int, depth: int) -> Result<Seq<FragV>, ParseError>
    decreases s.len() - i,
{
    if i < 0 {
        Err(ParseError::UnterminatedBrace)
    } else if i >= s.len() {
        if depth == 0 {
            Ok(Seq::empty())
        } else {
            Err(ParseError::UnterminatedStyleTag)
        }
    } else if s[i] == OPEN_BRACE {
        if i + 1 >= s.len() {
            Err(ParseError::UnterminatedBrace)
        } else if s[i + 1] == OPEN_BRACE {
            cons_char_result(OPEN_BRACE, spec_parse(s, i + 2, depth))
        } else if s[i + 1] == DOLLAR {
            match find_byte(s, i + 2, CLOSE_BRACE) {
                Some(j) => {
                    if i + 2 <= j < s.len() {
                        match spec_style_list(s.subrange(i + 2, j)) {
                            Ok(st) => match spec_parse(s, j + 1, depth + 1) {
                                Ok(frags) => Ok(seq![FragV::StyleStart(st)] + frags),
                                Err(e) => Err(e),
                            },
                            Err(e) => Err(e),
                        }
                    } else {
                        Err(ParseError::UnterminatedBrace)
                    }
                },
                None => Err(ParseError::UnterminatedBrace),
            }
        } else if s[i + 1] == SLASH {
            if i + 3 >= s.len() {
                Err(ParseError::UnterminatedBrace)
            } else if s[i + 2] == DOLLAR && s[i + 3] == CLOSE_BRACE {
                if depth == 0 {
                    Err(ParseError::UnmatchedStyleClose)
                } else {
                    match spec_parse(s, i + 4, depth - 1) {
                        Ok(frags) => Ok(seq![FragV::StyleEnd] + frags),
                        Err(e) => Err(e),
                    }
                }
            } else {
                Err(ParseError::MalformedSlot)
            }
        } else if s[i + 1] == OPEN_BRACKET {
            match find_byte(s, i + 2, CLOSE_BRACKET) {
                Some(k) => {
                    if i + 2 <= k < s.len() {
                        match spec_style_list(s.subrange(i + 2, k)) {
                            Ok(st) => {
                                if k + 1 >= s.len() {
                                    Err(ParseError::UnterminatedBrace)
                                } else if s[k + 1] == CLOSE_BRACE {
                                    cons_arg_result(
                                        ArgRefV {
                                            kind: ArgKindV::Next,
                                            format_spec: Seq::empty(),
                                            inline_style: Some(st),
                                        },
                                        spec_parse(s, k + 2, depth),
                                    )
                                } else if s[k + 1] == COLON {
                                    match find_byte(s, k + 2, CLOSE_BRACE) {
                                        Some(j) => {
                                            if k + 2 <= j < s.len() {
                                                cons_arg_result(
                                                    ArgRefV {
                                                        kind: ArgKindV::Next,
                                                        format_spec: s.subrange(k + 2, j),
                                                        inline_style: Some(st),
                                                    },
                                                    spec_parse(s, j + 1, depth),
                                                )
                                            } else {
                                                Err(ParseError::UnterminatedBrace)
                                            }
                                        },
                                        None => Err(ParseError::UnterminatedBrace),
                                    }
                                } else {
                                    Err(ParseError::MalformedSlot)
                                }
                            },
                            Err(e) => Err(e),
                        }
                    } else {
                        Err(ParseError::UnterminatedBrace)
                    }
                },
                None => Err(ParseError::UnterminatedBrace),
            }
        } else {
            match find_byte(s, i + 1, CLOSE_BRACE) {
                Some(j) => {
                    if i + 1 <= j < s.len() {
                        let body = s.subrange(i + 1, j);
                        let refpart = match find_byte(body, 0, COLON) {
                            Some(k) => body.take(k),
                            None => body,
                        };
                        let specpart = match find_byte(body, 0, COLON) {
                            Some(k) => body.skip(k + 1),
                            None => Seq::<u8>::empty(),
                        };
                        match spec_ref(refpart) {
                            Ok(kind) => cons_arg_result(
                                ArgRefV { kind, format_spec: specpart, inline_style: None },
                                spec_parse(s, j + 1, depth),
                            ),
                            Err(e) => Err(e),
                        }
                    } else {
                        Err(ParseError::UnterminatedBrace)
                    }
                },
                None => Err(ParseError::UnterminatedBrace),
            }
        }
    } else if s[i] == CLOSE_BRACE {
        if i + 1 < s.len() && s[i + 1] == CLOSE_BRACE {
            cons_char_result(CLOSE_BRACE, spec_parse(s, i + 2, depth))
        } else {
            cons_char_result(CLOSE_BRACE, spec_parse(s, i + 1, depth))
        }
    } else {
        cons_char_result(s[i], spec_parse(s, i + 1, depth))
    }
}

/// The whole template, parsed from the start at nesting depth zero.
pub open spec fn spec_parse_template(s: Seq<u8>) -> Result<Seq<FragV>, ParseError> {
    spec_parse(s, 0, 0)
}

/// The fragment views of a parsed vector.
pub open spec fn frags_of(v: Vec<FormatStrFragment>) -> Seq<FragV> {
    v@.map_values(|f: FormatStrFragment| f@)
}

/// A digit run's value is nonnegative.
proof fn lemma_digits_val_nonneg(s: Seq<u8>)
    requires
        forall|i: int| 0 <= i < s.len() ==> is_digit(#[trigger] s[i]),
    ensures
        digits_val(s) >= 0,
    decreases s.len(),
{
    if s.len() > 0 {
        assert(forall|i: int| 0 <= i < s.drop_last().len() ==> is_digit(#[trigger] s.drop_last()[i]));
        lemma_digits_val_nonneg(s.drop_last());
    }
}

/// A digit run's value only grows as more digits are taken.
proof fn lemma_digits_val_prefix(s: Seq<u8>, i: int)
    requires
        all_digits(s),
        0 <= i <= s.len(),
    ensures
        digits_val(s) >= digits_val(s.take(i)),
    decreases s.len() - i,
{
    if i < s.len() {
        lemma_digits_val_prefix(s, i + 1);
        assert(s.take(i + 1).drop_last() =~= s.take(i));
        assert(s.take(i + 1).last() == s[i]);
        assert(forall|t: int| 0 <= t < i ==> is_digit(#[trigger] s.take(i)[t]));
        lemma_digits_val_nonneg(s.take(i));
        assert(digits_val(s.take(i + 1)) == digits_val(s.take(i)) * 10 + (s[i] - 48));
        assert(digits_val(s.take(i + 1)) >= digits_val(s.take(i)));
    } else {
        assert(s.take(i) =~= s);
    }
}

/// The first `b` at or after `from`, searching left to right.
fn find_from(s: &[u8], from: usize, b: u8) -> (r: Option<usize>)
    requires
        from <= s@.len(),
    ensures
        match r {
            Some(j) => from <= j < s@.len() && find_byte(s@, from as int, b) == Some(j as int),
            None => find_byte(s@, from as int, b) is None,
        },
{
    let mut i = from;
    while i < s.len()
        invariant
            from <= i <= s@.len(),
            find_byte(s@, from as int, b) == find_byte(s@, i as int, b),
        decreases s@.len() - i,
    {
        if s[i] == b {
            return Some(i);
        }
        i += 1;
    }
    None
}

/// A copy of `s[a..b]`.
fn copy_range(s: &[u8], a: usize, b: usize) -> (r: Vec<u8>)
    requires
        a <= b <= s@.len(),
    ensures
        r@ == s@.subrange(a as int, b as int),
{
    let mut r: Vec<u8> = Vec::new();
    let mut i = a;
    while i < b
        invariant
            a <= i <= b <= s@.len(),
            r@ == s@.subrange(a as int, i as int),
        decreases b - i,
    {
        r.push(s[i]);
        assert(r@ =~= s@.subrange(a as int, i as int + 1));
        i += 1;
    }
    r
}

/// Byte-for-byte equality of a slice and a vector.
fn bytes_eq(a: &[u8], b: &Vec<u8>) -> (r: bool)
    ensures
        r <==> a@ == b@,
{
    if a.len() != b.len() {
        return false;
    }
    let mut i: usize = 0;
    while i < a.len()
        invariant
            i <= a@.len() == b@.len(),
            forall|t: int| 0 <= t < i ==> a@[t] == b@[t],
        decreases a@.len() - i,
    {
        if a[i] != b[i] {
            return false;
        }
        i += 1;
    }
    assert(a@ =~= b@);
    true
}

/// The named color a token spells, if any.
fn color_of(t: &[u8]) -> (r: Option<Color>)
    ensures
        r == color_of_token(t@),
{
    let black: Vec<u8> = vec![98u8, 108u8, 97u8, 99u8, 107u8];
    let red: Vec<u8> = vec![114u8, 101u8, 100u8];
    let green: Vec<u8> = vec![103u8, 114u8, 101u8, 101u8, 110u8];
    let yellow: Vec<u8> = vec![121u8, 101u8, 108u8, 108u8, 111u8, 119u8];
    let blue: Vec<u8> = vec![98u8, 108u8, 117u8, 101u8];
    let magenta: Vec<u8> = vec![109u8, 97u8, 103u8, 101u8, 110u8, 116u8, 97u8];
    let cyan: Vec<u8> = vec![99u8, 121u8, 97u8, 110u8];
    let white: Vec<u8> = vec![119u8, 104u8, 105u8, 116u8, 101u8];
    proof {
        assert(black@ =~= tok_black());
        assert(red@ =~= tok_red());
        assert(green@ =~= tok_green());
        assert(yellow@ =~= tok_yellow());
        assert(blue@ =~= tok_blue());
        assert(magenta@ =~= tok_magenta());
        assert(cyan@ =~= tok_cyan());
        assert(white@ =~= tok_white());
    }
    if bytes_eq(t, &black) {
        Some(Color::Black)
    } else if bytes_eq(t, &red) {
        Some(Color::Red)
    } else if bytes_eq(t, &green) {
        Some(Color::Green)
    } else if bytes_eq(t, &yellow) {
        Some(Color::Yellow)
    } else if bytes_eq(t, &blue) {
        Some(Color::Blue)
    } else if bytes_eq(t, &magenta) {
        Some(Color::Magenta)
    } else if bytes_eq(t, &cyan) {
        Some(Color::Cyan)
    } else if bytes_eq(t, &white) {
        Some(Color::White)
    } else {
        None
    }
}

/// One style-list token applied over `st`.
fn apply_token_exec(st: Style, t: &[u8]) -> (r: Result<Style, ParseError>)
    ensures
        r == apply_token(st, t@),
{
    let bold: Vec<u8> = vec![98u8, 111u8, 108u8, 100u8];
    let intense: Vec<u8> = vec![105u8, 110u8, 116u8, 101u8, 110u8, 115u8, 101u8];
    let underline: Vec<u8> = vec![117u8, 110u8, 100u8, 101u8, 114u8, 108u8, 105u8, 110u8, 101u8];
    let italic: Vec<u8> = vec![105u8, 116u8, 97u8, 108u8, 105u8, 99u8];
    let reset_tok: Vec<u8> = vec![114u8, 101u8, 115u8, 101u8, 116u8];
    proof {
        assert(bold@ =~= tok_bold());
        assert(intense@ =~= tok_intense());
        assert(underline@ =~= tok_underline());
        assert(italic@ =~= tok_italic());
        assert(reset_tok@ =~= tok_reset());
    }
    if bytes_eq(t, &bold) {
        let mut s2 = st;
        s2.bold = Some(true);
        Ok(s2)
    } else if bytes_eq(t, &intense) {
        let mut s2 = st;
        s2.intense = Some(true);
        Ok(s2)
    } else if bytes_eq(t, &underline) {
        let mut s2 = st;
        s2.underline = Some(true);
        Ok(s2)
    } else if bytes_eq(t, &italic) {
        let mut s2 = st;
        s2.italic = Some(true);
        Ok(s2)
    } else if bytes_eq(t, &reset_tok) {
        let mut s2 = st;
        s2.reset = Some(true);
        Ok(s2)
    } else if t.len() > 3 && t[0] == 98 && t[1] == 103 && t[2] == COLON {
        proof {
            assert(t@.take(3) =~= tok_bg_prefix());
        }
        let rest = copy_range(t, 3, t.len());
        proof {
            assert(rest@ =~= t@.skip(3));
        }
        match color_of(rest.as_slice()) {
            Some(c) => {
                let mut s2 = st;
                s2.bg = Some(c);
                Ok(s2)
            },
            None => Err(ParseError::UnknownStyleToken),
        }
    } else {
        proof {
            if t@.len() > 3 && t@.take(3) == tok_bg_prefix() {
                assert(t@[0] == tok_bg_prefix()[0]);
                assert(t@[1] == tok_bg_prefix()[1]);
                assert(t@[2] == tok_bg_prefix()[2]);
                assert(false);
            }
        }
        match color_of(t) {
            Some(c) => {
                let mut s2 = st;
                s2.fg = Some(c);
                Ok(s2)
            },
            None => Err(ParseError::UnknownStyleToken),
        }
    }
}

/// A whole `+`-separated style list, from the empty style.
pub fn parse_style_list(t: &[u8]) -> (r: Result<Style, ParseError>)
    ensures
        r == spec_style_list(t@),
{
    let mut st = Style {
        fg: None,
        bg: None,
        bold: None,
        intense: None,
        underline: None,
        italic: None,
        reset: None,
    };
    let mut i: usize = 0;
    let n = t.len();
    proof {
        assert(st == Style::empty());
    }
    loop
        invariant
            i <= t@.len(),
            n == t@.len(),
            spec_style_list(t@) == parse_style_list_from(t@, i as int, st),
        decreases t@.len() - i,
    {
        match find_from(t, i, PLUS) {
            Some(k) => {
                let tok = copy_range(t, i, k);
                match apply_token_exec(st, tok.as_slice()) {
                    Ok(st2) => {
                        st = st2;
                        assert(k < n);
                        i = k + 1;
                    },
                    Err(e) => {
                        return Err(e);
                    },
                }
            },
            None => {
                let tok = copy_range(t, i, t.len());
                return apply_token_exec(st, tok.as_slice());
            },
        }
    }
}

/// A slot reference body classified as implicit, positional, or named.
pub fn parse_ref(t: &[u8]) -> (r: Result<ArgRefKind, ParseError>)
    ensures
        match r {
            Ok(k) => spec_ref(t@) == Result::<ArgKindV, ParseError>::Ok(k@),
            Err(e) => spec_ref(t@) == Result::<ArgKindV, ParseError>::Err(e),
        },
{
    if t.len() == 0 {
        return Ok(ArgRefKind::Next);
    }
    let mut all_dig = true;
    let mut i: usize = 0;
    while i < t.len()
        invariant
            i <= t@.len(),
            all_dig <==> forall|j: int| 0 <= j < i ==> is_digit(#[trigger] t@[j]),
        decreases t@.len() - i,
    {
        if !(48 <= t[i] && t[i] <= 57) {
            all_dig = false;
        }
        i += 1;
    }
    if all_dig {
        let mut val: u64 = 0;
        let mut j: usize = 0;
        while j < t.len()
            invariant
                j <= t@.len(),
                all_digits(t@),
                val == digits_val(t@.take(j as int)),
                val <= u32::MAX,
            decreases t@.len() - j,
        {
            let d = t[j] - 48;
            proof {
                assert(t@.take(j as int + 1).drop_last() =~= t@.take(j as int));
                assert(t@.take(j as int + 1).last() == t@[j as int]);
            }
            val = val * 10 + d as u64;
            if val > 0xffff_ffffu64 {
                proof {
                    lemma_digits_val_prefix(t@, j as int + 1);
                }
                return Err(ParseError::MalformedSlot);
            }
            j += 1;
        }
        proof {
            assert(t@.take(t@.len() as int) =~= t@);
        }
        return Ok(ArgRefKind::Position(val as u32));
    }
    if !(is_alpha_byte(t[0]) || t[0] == UNDERSCORE) {
        proof {
            assert(!is_ident(t@));
            assert(!all_digits(t@));
        }
        return Err(ParseError::MalformedSlot);
    }
    let mut k: usize = 0;
    while k < t.len()
        invariant
            k <= t@.len(),
            t@.len() > 0,
            is_ident_start(t@[0]),
            forall|j: int| 0 <= j < k ==> is_ident_char(#[trigger] t@[j]),
        decreases t@.len() - k,
    {
        let c = t[k];
        if !(is_alpha_byte(c) || c == UNDERSCORE || (48 <= c && c <= 57)) {
            proof {
                assert(!is_ident(t@));
                assert(!all_digits(t@));
            }
            return Err(ParseError::MalformedSlot);
        }
        k += 1;
    }
    proof {
        assert(is_ident(t@));
        assert(!is_digit(t@[0]));
        assert(!all_digits(t@));
    }
    let name = copy_range(t, 0, t.len());
    proof {
        assert(name@ =~= t@);
    }
    Ok(ArgRefKind::Name(name))
}

/// Whether the byte is an ASCII letter.
fn is_alpha_byte(c: u8) -> (r: bool)
    ensures
        r == is_alpha(c),
{
    (65 <= c && c <= 90) || (97 <= c && c <= 122)
}

/// The depth contribution of one fragment.
pub open spec fn frag_delta(f: FragV) -> int {
    match f {
        FragV::StyleStart(_) => 1,
        FragV::StyleEnd => -1,
        FragV::Fmt { .. } => 0,
    }
}

/// Depth through a sequence with one fragment prepended.
proof fn lemma_depth_prepend(f: FragV, rest: Seq<FragV>, n: int)
    requires
        0 <= n <= rest.len() + 1,
    ensures
        n == 0 ==> depth_after(seq![f] + rest, n) == 0,
        n >= 1 ==> depth_after(seq![f] + rest, n) == frag_delta(f) + depth_after(rest, n - 1),
    decreases n,
{
    if n >= 1 {
        lemma_depth_prepend(f, rest, n - 1);
    }
}

/// The suffix of a parse that began inside `d` open scopes: shaped text
/// fragments, never closing more scopes than are open, and closing all
/// of them by the end.
pub open spec fn suffix_ok(frags: Seq<FragV>, d: int) -> bool {
    &&& frags_shaped(frags)
    &&& forall|n: int| 0 <= n <= frags.len() ==> #[trigger] depth_after(frags, n) >= -d
    &&& depth_after(frags, frags.len() as int) == -d
}

/// Prepending a fragment keeps the suffix shape and depth bounds.
proof fn lemma_prepend_suffix_ok(f: FragV, rest: Seq<FragV>, d: int, dd: int)
    requires
        suffix_ok(rest, dd),
        d >= 0,
        dd == d + frag_delta(f),
        dd >= 0,
        f matches FragV::Fmt { parts, args } ==> parts.len() == args.len() + 1,
    ensures
        suffix_ok(seq![f] + rest, d),
{
    let g = seq![f] + rest;
    assert forall|i: int| 0 <= i < g.len() implies (#[trigger] g[i] matches FragV::Fmt {
        parts,
        args,
    } ==> parts.len() == args.len() + 1) by {
        if i >= 1 {
            assert(g[i] == rest[i - 1]);
        }
    }
    assert forall|n: int| 0 <= n <= g.len() implies #[trigger] depth_after(g, n) >= -d by {
        lemma_depth_prepend(f, rest, n);
        if n >= 1 {
            assert(depth_after(rest, n - 1) >= -dd);
        }
    }
    lemma_depth_prepend(f, rest, g.len() as int);
}

/// Prepending a literal byte keeps the suffix shape and depth bounds.
proof fn lemma_cons_char_wf(c: u8, frags: Seq<FragV>, d: int)
    requires
        suffix_ok(frags, d),
        d >= 0,
    ensures
        suffix_ok(cons_char(c, frags), d),
{
    if frags.len() == 0 {
        assert(depth_after(frags, 0) == 0);
        let g = cons_char(c, frags);
        assert(g =~= seq![FragV::Fmt { parts: seq![seq![c]], args: Seq::empty() }]
            + Seq::<FragV>::empty());
        lemma_prepend_suffix_ok(
            FragV::Fmt { parts: seq![seq![c]], args: Seq::empty() },
            Seq::<FragV>::empty(),
            d,
            d,
        );
        assert(suffix_ok(Seq::<FragV>::empty(), d));
    } else {
        match frags[0] {
            FragV::Fmt { parts, args } => {
                let f2 = FragV::Fmt { parts: parts.update(0, seq![c] + parts[0]), args };
                let rest = frags.drop_first();
                assert(frags =~= seq![frags[0]] + rest);
                // the tail keeps the same depth profile, shifted
                assert forall|n: int| 0 <= n <= rest.len() implies #[trigger] depth_after(rest, n)
                    >= -d by {
                    lemma_depth_prepend(frags[0], rest, n + 1);
                    assert(depth_after(frags, n + 1) >= -d);
                }
                lemma_depth_prepend(frags[0], rest, frags.len() as int);
                assert forall|i: int| 0 <= i < rest.len() implies (#[trigger] rest[i] matches
                    FragV::Fmt { parts, args } ==> parts.len() == args.len() + 1) by {
                    assert(rest[i] == frags[i + 1]);
                }
                assert(suffix_ok(rest, d));
                assert(parts.len() == args.len() + 1);
                assert(parts.update(0, seq![c] + parts[0]).len() == args.len() + 1);
                lemma_prepend_suffix_ok(f2, rest, d, d);
                assert(cons_char(c, frags) == seq![f2] + rest);
            },
            _ => {
                let f2 = FragV::Fmt { parts: seq![seq![c]], args: Seq::<ArgRefV>::empty() };
                lemma_prepend_suffix_ok(f2, frags, d, d);
                assert(cons_char(c, frags) == seq![f2] + frags);
            },
        }
    }
}

/// Prepending an argument slot keeps the suffix shape and depth bounds.
proof fn lemma_cons_arg_wf(a: ArgRefV, frags: Seq<FragV>, d: int)
    requires
        suffix_ok(frags, d),
        d >= 0,
    ensures
        suffix_ok(cons_arg(a, frags), d),
{
    if frags.len() == 0 {
        let f2 = FragV::Fmt {
            parts: seq![Seq::<u8>::empty(), Seq::<u8>::empty()],
            args: seq![a],
        };
        assert(cons_arg(a, frags) =~= seq![f2] + Seq::<FragV>::empty());
        assert(suffix_ok(Seq::<FragV>::empty(), d));
        lemma_prepend_suffix_ok(f2, Seq::<FragV>::empty(), d, d);
    } else {
        match frags[0] {
            FragV::Fmt { parts, args } => {
                let f2 = FragV::Fmt {
                    parts: seq![Seq::<u8>::empty()] + parts,
                    args: seq![a] + args,
                };
                let rest = frags.drop_first();
                assert(frags =~= seq![frags[0]] + rest);
                assert forall|n: int| 0 <= n <= rest.len() implies #[trigger] depth_after(rest, n)
                    >= -d by {
                    lemma_depth_prepend(frags[0], rest, n + 1);
                    assert(depth_after(frags, n + 1) >= -d);
                }
                lemma_depth_prepend(frags[0], rest, frags.len() as int);
                assert forall|i: int| 0 <= i < rest.len() implies (#[trigger] rest[i] matches
                    FragV::Fmt { parts, args } ==> parts.len() == args.len() + 1) by {
                    assert(rest[i] == frags[i + 1]);
                }
                assert(suffix_ok(rest, d));
                assert(parts.len() == args.len() + 1);
                lemma_prepend_suffix_ok(f2, rest, d, d);
                assert(cons_arg(a, frags) == seq![f2] + rest);
            },
            _ => {
                let f2 = FragV::Fmt {
                    parts: seq![Seq::<u8>::empty(), Seq::<u8>::empty()],
                    args: seq![a],
                };
                lemma_prepend_suffix_ok(f2, frags, d, d);
                assert(cons_arg(a, frags) == seq![f2] + frags);
            },
        }
    }
}

/// A successful parse from inside `depth` open scopes yields a shaped,
/// depth-bounded suffix; from depth zero, a well-formed template.
pub proof fn lemma_parse_wf(s: Seq<u8>, i: int, depth: int)
    requires
        0 <= i,
        0 <= depth,
        spec_parse(s, i, depth) is Ok,
    ensures
        suffix_ok(spec_parse(s, i, depth)->Ok_0, depth),
    decreases s.len() - i,
{
    let frags = spec_parse(s, i, depth)->Ok_0;
    if i >= s.len() {
        assert(frags =~= Seq::<FragV>::empty());
    } else if s[i] == OPEN_BRACE {
        if s[i + 1] == OPEN_BRACE {
            lemma_parse_wf(s, i + 2, depth);
            lemma_cons_char_wf(OPEN_BRACE, spec_parse(s, i + 2, depth)->Ok_0, depth);
        } else if s[i + 1] == DOLLAR {
            let j = find_byte(s, i + 2, CLOSE_BRACE)->0;
            let st = spec_style_list(s.subrange(i + 2, j))->Ok_0;
            lemma_parse_wf(s, j + 1, depth + 1);
            lemma_prepend_suffix_ok(
                FragV::StyleStart(st),
                spec_parse(s, j + 1, depth + 1)->Ok_0,
                depth,
                depth + 1,
            );
        } else if s[i + 1] == SLASH {
            lemma_parse_wf(s, i + 4, depth - 1);
            lemma_prepend_suffix_ok(
                FragV::StyleEnd,
                spec_parse(s, i + 4, depth - 1)->Ok_0,
                depth,
                depth - 1,
            );
        } else if s[i + 1] == OPEN_BRACKET {
            let k = find_byte(s, i + 2, CLOSE_BRACKET)->0;
            let st = spec_style_list(s.subrange(i + 2, k))->Ok_0;
            if s[k + 1] == CLOSE_BRACE {
                lemma_parse_wf(s, k + 2, depth);
                lemma_cons_arg_wf(
                    ArgRefV {
                        kind: ArgKindV::Next,
                        format_spec: Seq::empty(),
                        inline_style: Some(st),
                    },
                    spec_parse(s, k + 2, depth)->Ok_0,
                    depth,
                );
            } else {
                let j = find_byte(s, k + 2, CLOSE_BRACE)->0;
                lemma_parse_wf(s, j + 1, depth);
                lemma_cons_arg_wf(
                    ArgRefV {
                        kind: ArgKindV::Next,
                        format_spec: s.subrange(k + 2, j),
                        inline_style: Some(st),
                    },
                    spec_parse(s, j + 1, depth)->Ok_0,
                    depth,
                );
            }
        } else {
            let j = find_byte(s, i + 1, CLOSE_BRACE)->0;
            let body = s.subrange(i + 1, j);
            let refpart = match find_byte(body, 0, COLON) {
                Some(k) => body.take(k),
                None => body,
            };
            let specpart = match find_byte(body, 0, COLON) {
                Some(k) => body.skip(k + 1),
                None => Seq::<u8>::empty(),
            };
            lemma_parse_wf(s, j + 1, depth);
            lemma_cons_arg_wf(
                ArgRefV {
                    kind: spec_ref(refpart)->Ok_0,
                    format_spec: specpart,
                    inline_style: None,
                },
                spec_parse(s, j + 1, depth)->Ok_0,
                depth,
            );
        }
    } else if s[i] == CLOSE_BRACE {
        if i + 1 < s.len() && s[i + 1] == CLOSE_BRACE {
            lemma_parse_wf(s, i + 2, depth);
            lemma_cons_char_wf(CLOSE_BRACE, spec_parse(s, i + 2, depth)->Ok_0, depth);
        } else {
            lemma_parse_wf(s, i + 1, depth);
            lemma_cons_char_wf(CLOSE_BRACE, spec_parse(s, i + 1, depth)->Ok_0, depth);
        }
    } else {
        lemma_parse_wf(s, i + 1, depth);
        lemma_cons_char_wf(s[i], spec_parse(s, i + 1, depth)->Ok_0, depth);
    }
}

/// Prepends a literal byte onto the fragment vector, merging into a
/// leading text fragment when there is one.
fn prepend_char(c: u8, frags: &mut Vec<FormatStrFragment>)
    requires
        frags_shaped(frags_of(*old(frags))),
    ensures
        frags_of(*final(frags)) == cons_char(c, frags_of(*old(frags))),
{
    let ghost oldv = frags_of(*frags);
    let is_fmt = frags.len() > 0 && match &frags[0] {
        FormatStrFragment::Fmt { .. } => true,
        _ => false,
    };
    if is_fmt {
        let frag = frags.remove(0);
        proof {
            assert(oldv[0] == frag@);
        }
        match frag {
            FormatStrFragment::Fmt { fmt_str_parts, args } => {
                let mut fsp = fmt_str_parts;
                let ghost ofsp = fsp@;
                proof {
                    assert(oldv[0]->parts == ofsp.map_values(|p: Vec<u8>| p@));
                    assert(oldv[0]->parts.len() == oldv[0]->args.len() + 1);
                }
                let mut p0 = fsp.remove(0);
                p0.insert(0, c);
                fsp.insert(0, p0);
                proof {
                    let curr = fsp@.map_values(|p: Vec<u8>| p@);
                    let target = oldv[0]->parts.update(0, seq![c] + oldv[0]->parts[0]);
                    assert(p0@ =~= seq![c] + ofsp[0]@);
                    assert forall|i: int| 0 <= i < curr.len() implies curr[i] == target[i] by {
                        assert(curr[i] == fsp@[i]@);
                        if i > 0 {
                            assert(fsp@[i] == ofsp[i]);
                        }
                    }
                    assert(curr =~= target);
                }
                frags.insert(0, FormatStrFragment::Fmt { fmt_str_parts: fsp, args });
                proof {
                    assert(frags_of(*frags) =~= cons_char(c, oldv));
                }
            },
            _ => {
                proof {
                    assert(false);
                }
            },
        }
    } else {
        let mut p: Vec<u8> = Vec::new();
        p.push(c);
        let mut parts: Vec<Vec<u8>> = Vec::new();
        parts.push(p);
        let args: Vec<ArgRef> = Vec::new();
        frags.insert(0, FormatStrFragment::Fmt { fmt_str_parts: parts, args });
        proof {
            assert(parts@.map_values(|q: Vec<u8>| q@) =~= seq![seq![c]]);
            assert(args@.map_values(|a: ArgRef| a@) =~= Seq::<ArgRefV>::empty());
            assert(frags_of(*frags) =~= cons_char(c, oldv));
        }
    }
}

/// Prepends an argument slot onto the fragment vector, merging into a
/// leading text fragment when there is one.
fn prepend_arg(a: ArgRef, frags: &mut Vec<FormatStrFragment>)
    requires
        frags_shaped(frags_of(*old(frags))),
    ensures
        frags_of(*final(frags)) == cons_arg(a@, frags_of(*old(frags))),
{
    let ghost oldv = frags_of(*frags);
    let is_fmt = frags.len() > 0 && match &frags[0] {
        FormatStrFragment::Fmt { .. } => true,
        _ => false,
    };
    if is_fmt {
        let frag = frags.remove(0);
        proof {
            assert(oldv[0] == frag@);
        }
        match frag {
            FormatStrFragment::Fmt { fmt_str_parts, args } => {
                let mut fsp = fmt_str_parts;
                let mut ags = args;
                let ghost ofsp = fsp@;
                let ghost oags = ags@;
                proof {
                    assert(oldv[0]->parts == ofsp.map_values(|p: Vec<u8>| p@));
                    assert(oldv[0]->args == oags.map_values(|x: ArgRef| x@));
                }
                fsp.insert(0, Vec::new());
                ags.insert(0, a);
                proof {
                    let currp = fsp@.map_values(|p: Vec<u8>| p@);
                    let targetp = seq![Seq::<u8>::empty()] + oldv[0]->parts;
                    assert forall|i: int| 0 <= i < currp.len() implies currp[i] == targetp[i] by {
                        assert(currp[i] == fsp@[i]@);
                        if i > 0 {
                            assert(fsp@[i] == ofsp[i - 1]);
                        }
                    }
                    assert(currp =~= targetp);
                    let curra = ags@.map_values(|x: ArgRef| x@);
                    let targeta = seq![a@] + oldv[0]->args;
                    assert forall|i: int| 0 <= i < curra.len() implies curra[i] == targeta[i] by {
                        assert(curra[i] == ags@[i]@);
                        if i > 0 {
                            assert(ags@[i] == oags[i - 1]);
                        }
                    }
                    assert(curra =~= targeta);
                }
                frags.insert(0, FormatStrFragment::Fmt { fmt_str_parts: fsp, args: ags });
                proof {
                    assert(frags_of(*frags) =~= cons_arg(a@, oldv));
                }
            },
            _ => {
                proof {
                    assert(false);
                }
            },
        }
    } else {
        let mut parts: Vec<Vec<u8>> = Vec::new();
        parts.push(Vec::new());
        parts.push(Vec::new());
        let mut args: Vec<ArgRef> = Vec::new();
        args.push(a);
        frags.insert(0, FormatStrFragment::Fmt { fmt_str_parts: parts, args });
        proof {
            assert(parts@.map_values(|q: Vec<u8>| q@) =~= seq![
                Seq::<u8>::empty(),
                Seq::<u8>::empty(),
            ]);
            assert(args@.map_values(|x: ArgRef| x@) =~= seq![a@]);
            assert(frags_of(*frags) =~= cons_arg(a@, oldv));
        }
    }
}

/// Parses the fragments of `s[i..]` with `depth` style tags open,
/// mirroring `spec_parse` branch for branch.
fn parse_from(s: &[u8], i: usize, depth: usize) -> (r: Result<Vec<FormatStrFragment>, ParseError>)
    requires
        i <= s@.len(),
        depth <= i,
    ensures
        parse_matches(s@, i as int, depth as int, r),
    decreases s@.len() - i, 2int,
{
    let n = s.len();
    if i >= n {
        if depth == 0 {
            let v: Vec<FormatStrFragment> = Vec::new();
            proof {
                assert(frags_of(v) =~= Seq::<FragV>::empty());
            }
            Ok(v)
        } else {
            Err(ParseError::UnterminatedStyleTag)
        }
    } else {
        let c = s[i];
        if c == OPEN_BRACE {
            parse_open(s, i, depth)
        } else if c == CLOSE_BRACE {
            let two = n - i >= 2 && s[i + 1] == CLOSE_BRACE;
            let nxt = if two {
                i + 2
            } else {
                i + 1
            };
            match parse_from(s, nxt, depth) {
                Ok(v) => {
                    let mut v = v;
                    proof {
                        lemma_parse_wf(s@, nxt as int, depth as int);
                    }
                    prepend_char(CLOSE_BRACE, &mut v);
                    Ok(v)
                },
                Err(e) => Err(e),
            }
        } else {
            match parse_from(s, i + 1, depth) {
                Ok(v) => {
                    let mut v = v;
                    proof {
                        lemma_parse_wf(s@, i as int + 1, depth as int);
                    }
                    prepend_char(c, &mut v);
                    Ok(v)
                },
                Err(e) => Err(e),
            }
        }
    }
}

/// What `parse_from` and its helpers promise: the result is exactly
/// what the grammar's specification gives.
pub open spec fn parse_matches(
    s: Seq<u8>,
    i: int,
    depth: int,
    r: Result<Vec<FormatStrFragment>, ParseError>,
) -> bool {
    match r {
        Ok(v) => spec_parse(s, i, depth) == Result::<Seq<FragV>, ParseError>::Ok(frags_of(v)),
        Err(e) => spec_parse(s, i, depth) == Result::<Seq<FragV>, ParseError>::Err(e),
    }
}

/// The `{`-led cases: escapes, tags, and slots.
fn parse_open(s: &[u8], i: usize, depth: usize) -> (r: Result<Vec<FormatStrFragment>, ParseError>)
    requires
        i < s@.len(),
        depth <= i,
        s@[i as int] == OPEN_BRACE,
    ensures
        parse_matches(s@, i as int, depth as int, r),
    decreases s@.len() - i, 1int,
{
    let n = s.len();
    if n - i <= 1 {
        return Err(ParseError::UnterminatedBrace);
    }
    let c1 = s[i + 1];
    if c1 == OPEN_BRACE {
        match parse_from(s, i + 2, depth) {
            Ok(v) => {
                let mut v = v;
                proof {
                    lemma_parse_wf(s@, i as int + 2, depth as int);
                }
                prepend_char(OPEN_BRACE, &mut v);
                Ok(v)
            },
            Err(e) => Err(e),
        }
    } else if c1 == DOLLAR {
        match find_from(s, i + 2, CLOSE_BRACE) {
            Some(j) => {
                let tok = copy_range(s, i + 2, j);
                match parse_style_list(tok.as_slice()) {
                    Ok(st) => {
                        match parse_from(s, j + 1, depth + 1) {
                            Ok(v) => {
                                let mut v = v;
                                v.insert(0, FormatStrFragment::StyleStart(st));
                                proof {
                                    assert(frags_of(v) =~= seq![FragV::StyleStart(st)]
                                        + spec_parse(s@, j as int + 1, depth as int + 1)->Ok_0);
                                }
                                Ok(v)
                            },
                            Err(e) => Err(e),
                        }
                    },
                    Err(e) => Err(e),
                }
            },
            None => Err(ParseError::UnterminatedBrace),
        }
    } else if c1 == SLASH {
        if n - i <= 3 {
            return Err(ParseError::UnterminatedBrace);
        }
        if s[i + 2] == DOLLAR && s[i + 3] == CLOSE_BRACE {
            if depth == 0 {
                Err(ParseError::UnmatchedStyleClose)
            } else {
                match parse_from(s, i + 4, depth - 1) {
                    Ok(v) => {
                        let mut v = v;
                        v.insert(0, FormatStrFragment::StyleEnd);
                        proof {
                            assert(frags_of(v) =~= seq![FragV::StyleEnd] + spec_parse(
                                s@,
                                i as int + 4,
                                depth as int - 1,
                            )->Ok_0);
                        }
                        Ok(v)
                    },
                    Err(e) => Err(e),
                }
            }
        } else {
            Err(ParseError::MalformedSlot)
        }
    } else if c1 == OPEN_BRACKET {
        parse_inline_slot(s, i, depth)
    } else {
        parse_plain_slot(s, i, depth)
    }
}

/// An inline-styled slot `{[list]}` or `{[list]:spec}`.
fn parse_inline_slot(s: &[u8], i: usize, depth: usize) -> (r: Result<
    Vec<FormatStrFragment>,
    ParseError,
>)
    requires
        i + 1 < s@.len(),
        depth <= i,
        s@[i as int] == OPEN_BRACE,
        s@[i as int + 1] == OPEN_BRACKET,
    ensures
        parse_matches(s@, i as int, depth as int, r),
    decreases s@.len() - i, 0int,
{
    let n = s.len();
    match find_from(s, i + 2, CLOSE_BRACKET) {
        Some(k) => {
            let tok = copy_range(s, i + 2, k);
            match parse_style_list(tok.as_slice()) {
                Ok(st) => {
                    if n - k <= 1 {
                        return Err(ParseError::UnterminatedBrace);
                    }
                    if s[k + 1] == CLOSE_BRACE {
                        match parse_from(s, k + 2, depth) {
                            Ok(v) => {
                                let mut v = v;
                                proof {
                                    lemma_parse_wf(s@, k as int + 2, depth as int);
                                }
                                let a = ArgRef {
                                    kind: ArgRefKind::Next,
                                    format_spec: Vec::new(),
                                    inline_style: Some(st),
                                };
                                proof {
                                    assert(a@ == ArgRefV {
                                        kind: ArgKindV::Next,
                                        format_spec: Seq::<u8>::empty(),
                                        inline_style: Some(st),
                                    });
                                }
                                prepend_arg(a, &mut v);
                                Ok(v)
                            },
                            Err(e) => Err(e),
                        }
                    } else if s[k + 1] == COLON {
                        match find_from(s, k + 2, CLOSE_BRACE) {
                            Some(j) => {
                                let fspec = copy_range(s, k + 2, j);
                                match parse_from(s, j + 1, depth) {
                                    Ok(v) => {
                                        let mut v = v;
                                        proof {
                                            lemma_parse_wf(s@, j as int + 1, depth as int);
                                        }
                                        let a = ArgRef {
                                            kind: ArgRefKind::Next,
                                            format_spec: fspec,
                                            inline_style: Some(st),
                                        };
                                        prepend_arg(a, &mut v);
                                        Ok(v)
                                    },
                                    Err(e) => Err(e),
                                }
                            },
                            None => Err(ParseError::UnterminatedBrace),
                        }
                    } else {
                        Err(ParseError::MalformedSlot)
                    }
                },
                Err(e) => Err(e),
            }
        },
        None => Err(ParseError::UnterminatedBrace),
    }
}

/// A plain slot `{ref}` or `{ref:spec}`.
fn parse_plain_slot(s: &[u8], i: usize, depth: usize) -> (r: Result<
    Vec<FormatStrFragment>,
    ParseError,
>)
    requires
        i + 1 < s@.len(),
        depth <= i,
        s@[i as int] == OPEN_BRACE,
        s@[i as int + 1] != OPEN_BRACE,
        s@[i as int + 1] != DOLLAR,
        s@[i as int + 1] != SLASH,
        s@[i as int + 1] != OPEN_BRACKET,
    ensures
        parse_matches(s@, i as int, depth as int, r),
    decreases s@.len() - i, 0int,
{
    let n = s.len();
    assert(i < n);
    match find_from(s, i + 1, CLOSE_BRACE) {
        Some(j) => {
            let body = copy_range(s, i + 1, j);
            let blen = body.len();
            let refpart: Vec<u8>;
            let fspec: Vec<u8>;
            match find_from(body.as_slice(), 0, COLON) {
                Some(k) => {
                    refpart = copy_range(body.as_slice(), 0, k);
                    fspec = copy_range(body.as_slice(), k + 1, blen);
                },
                None => {
                    refpart = copy_range(body.as_slice(), 0, blen);
                    fspec = Vec::new();
                },
            }
            proof {
                let bodyv = s@.subrange(i as int + 1, j as int);
                match find_byte(bodyv, 0, COLON) {
                    Some(k) => {
                        assert(refpart@ =~= bodyv.take(k));
                        assert(fspec@ =~= bodyv.skip(k + 1));
                    },
                    None => {
                        assert(refpart@ =~= bodyv);
                    },
                }
            }
            match parse_ref(refpart.as_slice()) {
                Ok(kind) => {
                    match parse_from(s, j + 1, depth) {
                        Ok(v) => {
                            let mut v = v;
                            proof {
                                lemma_parse_wf(s@, j as int + 1, depth as int);
                            }
                            let a = ArgRef { kind, format_spec: fspec, inline_style: None };
                            prepend_arg(a, &mut v);
                            Ok(v)
                        },
                        Err(e) => Err(e),
                    }
                },
                Err(e) => Err(e),
            }
        },
        None => Err(ParseError::UnterminatedBrace),
    }
}

/// Parses a whole template.
///
/// Returns exactly what the grammar's specification returns: on
/// success a well-formed template whose fragment sequence is the one
/// `spec_parse_template` describes, on failure the first error of the
/// scan.
pub fn parse(s: &[u8]) -> (r: Result<FormatStr, ParseError>)
    ensures
        match r {
            Ok(t) => spec_parse_template(s@) == Result::<Seq<FragV>, ParseError>::Ok(t@)
                && t.wf(),
            Err(e) => spec_parse_template(s@) == Result::<Seq<FragV>, ParseError>::Err(e),
        },
{
    match parse_from(s, 0, 0) {
        Ok(v) => {
            proof {
                lemma_parse_wf(s@, 0, 0);
                let t = FormatStr { fragments: v };
                assert(t@ == frags_of(v));
            }
            Ok(FormatStr { fragments: v })
        },
        Err(e) => Err(e),
    }
}

} // verus!
