//! Laws of the library, stated and proved over the parser's and
//! renderer's specifications.

use vstd::prelude::*;

use crate::codec::SEMI;
use crate::codec::bare_reset;
use crate::codec::color_index;
use crate::codec::spec_color_params;
use crate::codec::spec_dec;
use crate::codec::spec_transition;
use crate::codec::style_visible;
use crate::codec::lemma_transition_bare_iff_invisible;
use crate::style::Color;
use crate::style::Style;
use crate::style::spec_effective;
use crate::template::FragV;
use crate::template::frags_shaped;
use crate::template::frags_wf;
use crate::template::depth_after;
use crate::template::spec_add_newline;
use crate::render::Chunk;
use crate::render::NamedArg;
use crate::render::chunks_bytes;
use crate::render::emit_fmt;
use crate::render::emit_frags;
use crate::render::render_from;
use crate::render::spec_render;
use crate::render::lemma_chunks_concat;
use crate::render::lemma_chunks_singleton;

verus! {

/// Emission from index `k+1` of a sequence with one fragment prepended
/// equals emission from `k` of the original: what is emitted depends
/// only on the fragments still ahead.
proof fn lemma_emit_shift(
    f: FragV,
    frags: Seq<FragV>,
    pos: Seq<Seq<u8>>,
    named: Seq<NamedArg>,
    stack: Seq<Style>,
    cur: int,
    k: int,
)
    requires
        0 <= k <= frags.len(),
    ensures
        emit_frags(seq![f] + frags, pos, named, stack, cur, k + 1) == emit_frags(
            frags,
            pos,
            named,
            stack,
            cur,
            k,
        ),
    decreases frags.len() - k,
{
    let g = seq![f] + frags;
    if k < frags.len() {
        assert(g[k + 1] == frags[k]);
        match frags[k] {
            FragV::Fmt { parts, args } => {
                match emit_fmt(parts, args, pos, named, crate::render::stack_top(stack), cur, 0) {
                    Ok(p) => {
                        lemma_emit_shift(f, frags, pos, named, stack, p.1, k + 1);
                    },
                    Err(_) => {},
                }
            },
            FragV::StyleStart(st) => {
                let eff = spec_effective(st, crate::render::stack_top(stack));
                lemma_emit_shift(f, frags, pos, named, stack.push(eff), cur, k + 1);
            },
            FragV::StyleEnd => {
                let stack2 = if stack.len() == 0 {
                    stack
                } else {
                    stack.drop_last()
                };
                lemma_emit_shift(f, frags, pos, named, stack2, cur, k + 1);
            },
        }
    }
}

/// Emission reads nothing before its start index: sequences that agree
/// from `k` on emit the same chunks.
proof fn lemma_emit_congruent(
    a: Seq<FragV>,
    b: Seq<FragV>,
    pos: Seq<Seq<u8>>,
    named: Seq<NamedArg>,
    stack: Seq<Style>,
    cur: int,
    k: int,
)
    requires
        0 <= k,
        a.len() == b.len(),
        forall|t: int| k <= t < a.len() ==> a[t] == b[t],
    ensures
        emit_frags(a, pos, named, stack, cur, k) == emit_frags(b, pos, named, stack, cur, k),
    decreases a.len() - k,
{
    if k < a.len() {
        assert(a[k] == b[k]);
        match a[k] {
            FragV::Fmt { parts, args } => {
                match emit_fmt(parts, args, pos, named, crate::render::stack_top(stack), cur, 0) {
                    Ok(p) => {
                        lemma_emit_congruent(a, b, pos, named, stack, p.1, k + 1);
                    },
                    Err(_) => {},
                }
            },
            FragV::StyleStart(st) => {
                let eff = spec_effective(st, crate::render::stack_top(stack));
                lemma_emit_congruent(a, b, pos, named, stack.push(eff), cur, k + 1);
            },
            FragV::StyleEnd => {
                let stack2 = if stack.len() == 0 {
                    stack
                } else {
                    stack.drop_last()
                };
                lemma_emit_congruent(a, b, pos, named, stack2, cur, k + 1);
            },
        }
    }
}

/// A text fragment whose last part is extended by a newline emits the
/// same bytes followed by the newline, and moves the cursor exactly as
/// the original does.
proof fn lemma_fmt_newline(
    parts: Seq<Seq<u8>>,
    args: Seq<crate::template::ArgRefV>,
    pos: Seq<Seq<u8>>,
    named: Seq<NamedArg>,
    parent: Style,
    cur: int,
    j: int,
)
    requires
        0 <= j <= args.len(),
        parts.len() == args.len() + 1,
    ensures
        ({
            let parts2 = parts.update(parts.len() - 1, parts.last() + seq![10u8]);
            match emit_fmt(parts, args, pos, named, parent, cur, j) {
                Ok(p) => emit_fmt(parts2, args, pos, named, parent, cur, j) matches Ok(p2)
                    && chunks_bytes(p2.0) == chunks_bytes(p.0) + seq![10u8] && p2.1 == p.1,
                Err(e) => emit_fmt(parts2, args, pos, named, parent, cur, j) == Result::<
                    (Seq<Chunk>, int),
                    crate::render::RenderError,
                >::Err(e),
            }
        }),
    decreases args.len() - j,
{
    let parts2 = parts.update(parts.len() - 1, parts.last() + seq![10u8]);
    if j >= args.len() {
        assert(parts2[args.len() as int] == parts[args.len() as int] + seq![10u8]);
        lemma_chunks_singleton(Chunk::Lit(parts[args.len() as int]));
        lemma_chunks_singleton(Chunk::Lit(parts2[args.len() as int]));
    } else {
        match crate::render::spec_resolve(args[j].kind, pos, named, cur) {
            Ok(v) => {
                let cur2 = crate::render::spec_advance(args[j].kind, cur);
                lemma_fmt_newline(parts, args, pos, named, parent, cur2, j + 1);
                match emit_fmt(parts, args, pos, named, parent, cur2, j + 1) {
                    Ok(p) => {
                        let p2 = emit_fmt(parts2, args, pos, named, parent, cur2, j + 1)->Ok_0;
                        let sc = crate::render::slot_chunks(args[j], v, parent);
                        assert(parts2[j] == parts[j]);
                        lemma_chunks_concat(seq![Chunk::Lit(parts[j])] + sc, p.0);
                        lemma_chunks_concat(seq![Chunk::Lit(parts[j])] + sc, p2.0);
                        assert(chunks_bytes(seq![Chunk::Lit(parts[j])] + sc) + (chunks_bytes(p.0)
                            + seq![10u8]) =~= (chunks_bytes(seq![Chunk::Lit(parts[j])] + sc)
                            + chunks_bytes(p.0)) + seq![10u8]);
                    },
                    Err(_) => {},
                }
            },
            Err(_) => {},
        }
    }
}

/// Appending a trailing newline to the fragments appends exactly one
/// newline byte to whatever they emit, from any state.
proof fn lemma_emit_newline(
    frags: Seq<FragV>,
    pos: Seq<Seq<u8>>,
    named: Seq<NamedArg>,
    stack: Seq<Style>,
    cur: int,
    i: int,
)
    requires
        frags_shaped(frags),
        0 <= i <= frags.len(),
        frags.len() > 0 && (frags.last() is Fmt) ==> i < frags.len(),
    ensures
        ({
            let g = spec_add_newline(frags);
            match emit_frags(frags, pos, named, stack, cur, i) {
                Ok(cs) => emit_frags(g, pos, named, stack, cur, i) matches Ok(cs2)
                    && chunks_bytes(cs2) == chunks_bytes(cs) + seq![10u8],
                Err(e) => emit_frags(g, pos, named, stack, cur, i) == Result::<
                    Seq<Chunk>,
                    crate::render::RenderError,
                >::Err(e),
            }
        }),
    decreases frags.len() - i,
{
    let g = spec_add_newline(frags);
    let nl = seq![10u8];
    let last_fmt = frags.len() > 0 && (frags.last() is Fmt);
    if !last_fmt {
        // a new trailing text fragment carries the newline
        assert(g == frags.push(FragV::Fmt { parts: seq![nl], args: Seq::empty() }));
        if i == frags.len() {
            assert(g[i] == FragV::Fmt { parts: seq![nl], args: Seq::empty() });
            let p = emit_fmt(
                seq![nl],
                Seq::empty(),
                pos,
                named,
                crate::render::stack_top(stack),
                cur,
                0,
            )->Ok_0;
            assert(p.0 == seq![Chunk::Lit(nl)]);
            lemma_chunks_singleton(Chunk::Lit(nl));
            assert(emit_frags(g, pos, named, stack, p.1, i + 1) == Result::<
                Seq<Chunk>,
                crate::render::RenderError,
            >::Ok(Seq::empty()));
            assert(chunks_bytes(p.0 + Seq::<Chunk>::empty()) == chunks_bytes(p.0) + chunks_bytes(
                Seq::<Chunk>::empty(),
            )) by {
                lemma_chunks_concat(p.0, Seq::<Chunk>::empty());
            }
            assert(chunks_bytes(p.0 + Seq::<Chunk>::empty()) =~= Seq::<u8>::empty() + nl);
        } else {
            assert(g[i] == frags[i]);
            match frags[i] {
                FragV::Fmt { parts, args } => {
                    match emit_fmt(
                        parts,
                        args,
                        pos,
                        named,
                        crate::render::stack_top(stack),
                        cur,
                        0,
                    ) {
                        Ok(p) => {
                            lemma_emit_newline(frags, pos, named, stack, p.1, i + 1);
                            match emit_frags(frags, pos, named, stack, p.1, i + 1) {
                                Ok(cs) => {
                                    let cs2 = emit_frags(g, pos, named, stack, p.1, i + 1)->Ok_0;
                                    lemma_chunks_concat(p.0, cs);
                                    lemma_chunks_concat(p.0, cs2);
                                    assert(chunks_bytes(p.0) + (chunks_bytes(cs) + nl) =~= (
                                    chunks_bytes(p.0) + chunks_bytes(cs)) + nl);
                                },
                                Err(_) => {},
                            }
                        },
                        Err(_) => {},
                    }
                },
                FragV::StyleStart(st) => {
                    let eff = spec_effective(st, crate::render::stack_top(stack));
                    lemma_emit_newline(frags, pos, named, stack.push(eff), cur, i + 1);
                    match emit_frags(frags, pos, named, stack.push(eff), cur, i + 1) {
                        Ok(cs) => {
                            let cs2 = emit_frags(g, pos, named, stack.push(eff), cur, i + 1)->Ok_0;
                            lemma_chunks_concat(seq![Chunk::Trans(eff)], cs);
                            lemma_chunks_concat(seq![Chunk::Trans(eff)], cs2);
                            assert(chunks_bytes(seq![Chunk::Trans(eff)]) + (chunks_bytes(cs) + nl)
                                =~= (chunks_bytes(seq![Chunk::Trans(eff)]) + chunks_bytes(cs)) + nl);
                        },
                        Err(_) => {},
                    }
                },
                FragV::StyleEnd => {
                    let stack2 = if stack.len() == 0 {
                        stack
                    } else {
                        stack.drop_last()
                    };
                    let tr = Chunk::Trans(crate::render::stack_top(stack2));
                    lemma_emit_newline(frags, pos, named, stack2, cur, i + 1);
                    match emit_frags(frags, pos, named, stack2, cur, i + 1) {
                        Ok(cs) => {
                            let cs2 = emit_frags(g, pos, named, stack2, cur, i + 1)->Ok_0;
                            lemma_chunks_concat(seq![tr], cs);
                            lemma_chunks_concat(seq![tr], cs2);
                            assert(chunks_bytes(seq![tr]) + (chunks_bytes(cs) + nl) =~= (
                            chunks_bytes(seq![tr]) + chunks_bytes(cs)) + nl);
                        },
                        Err(_) => {},
                    }
                },
            }
        }
    } else {
        // the newline lands on the last part of the final text fragment
        let lparts = frags.last()->parts;
        let largs = frags.last()->args;
        let parts2 = lparts.update(lparts.len() - 1, lparts.last() + nl);
        assert(g == frags.update(frags.len() - 1, FragV::Fmt { parts: parts2, args: largs }));
        assert(frags[frags.len() - 1] matches FragV::Fmt { parts, args } ==> parts.len()
            == args.len() + 1);
        if i == frags.len() - 1 {
            assert(g[i] == FragV::Fmt { parts: parts2, args: largs });
            assert(frags[i] == FragV::Fmt { parts: lparts, args: largs });
            lemma_fmt_newline(
                lparts,
                largs,
                pos,
                named,
                crate::render::stack_top(stack),
                cur,
                0,
            );
            match emit_fmt(lparts, largs, pos, named, crate::render::stack_top(stack), cur, 0) {
                Ok(p) => {
                    let p2 = emit_fmt(
                        parts2,
                        largs,
                        pos,
                        named,
                        crate::render::stack_top(stack),
                        cur,
                        0,
                    )->Ok_0;
                    assert(emit_frags(frags, pos, named, stack, p.1, i + 1) == Result::<
                        Seq<Chunk>,
                        crate::render::RenderError,
                    >::Ok(Seq::empty()));
                    assert(emit_frags(g, pos, named, stack, p2.1, i + 1) == Result::<
                        Seq<Chunk>,
                        crate::render::RenderError,
                    >::Ok(Seq::empty()));
                    assert(p.0 + Seq::<Chunk>::empty() =~= p.0);
                    assert(p2.0 + Seq::<Chunk>::empty() =~= p2.0);
                },
                Err(_) => {},
            }
        } else {
            assert(g[i] == frags[i]);
            match frags[i] {
                FragV::Fmt { parts, args } => {
                    match emit_fmt(
                        parts,
                        args,
                        pos,
                        named,
                        crate::render::stack_top(stack),
                        cur,
                        0,
                    ) {
                        Ok(p) => {
                            lemma_emit_newline(frags, pos, named, stack, p.1, i + 1);
                            match emit_frags(frags, pos, named, stack, p.1, i + 1) {
                                Ok(cs) => {
                                    let cs2 = emit_frags(g, pos, named, stack, p.1, i + 1)->Ok_0;
                                    lemma_chunks_concat(p.0, cs);
                                    lemma_chunks_concat(p.0, cs2);
                                    assert(chunks_bytes(p.0) + (chunks_bytes(cs) + nl) =~= (
                                    chunks_bytes(p.0) + chunks_bytes(cs)) + nl);
                                },
                                Err(_) => {},
                            }
                        },
                        Err(_) => {},
                    }
                },
                FragV::StyleStart(st) => {
                    let eff = spec_effective(st, crate::render::stack_top(stack));
                    lemma_emit_newline(frags, pos, named, stack.push(eff), cur, i + 1);
                    match emit_frags(frags, pos, named, stack.push(eff), cur, i + 1) {
                        Ok(cs) => {
                            let cs2 = emit_frags(g, pos, named, stack.push(eff), cur, i + 1)->Ok_0;
                            lemma_chunks_concat(seq![Chunk::Trans(eff)], cs);
                            lemma_chunks_concat(seq![Chunk::Trans(eff)], cs2);
                            assert(chunks_bytes(seq![Chunk::Trans(eff)]) + (chunks_bytes(cs) + nl)
                                =~= (chunks_bytes(seq![Chunk::Trans(eff)]) + chunks_bytes(cs)) + nl);
                        },
                        Err(_) => {},
                    }
                },
                FragV::StyleEnd => {
                    let stack2 = if stack.len() == 0 {
                        stack
                    } else {
                        stack.drop_last()
                    };
                    let tr = Chunk::Trans(crate::render::stack_top(stack2));
                    lemma_emit_newline(frags, pos, named, stack2, cur, i + 1);
                    match emit_frags(frags, pos, named, stack2, cur, i + 1) {
                        Ok(cs) => {
                            let cs2 = emit_frags(g, pos, named, stack2, cur, i + 1)->Ok_0;
                            lemma_chunks_concat(seq![tr], cs);
                            lemma_chunks_concat(seq![tr], cs2);
                            assert(chunks_bytes(seq![tr]) + (chunks_bytes(cs) + nl) =~= (
                            chunks_bytes(seq![tr]) + chunks_bytes(cs)) + nl);
                        },
                        Err(_) => {},
                    }
                },
            }
        }
    }
}

/// Round trip: a template whose render produces `s` renders `s`
/// followed by one newline after `add_newline`, whatever the
/// arguments, and a render that failed keeps failing the same way.
pub proof fn lemma_add_newline_round_trip(
    frags: Seq<FragV>,
    pos: Seq<Seq<u8>>,
    named: Seq<NamedArg>,
)
    requires
        frags_shaped(frags),
        spec_render(frags, pos, named) is Ok,
    ensures
        spec_render(spec_add_newline(frags), pos, named) == Result::<
            Seq<u8>,
            crate::render::RenderError,
        >::Ok(spec_render(frags, pos, named)->Ok_0 + seq![10u8]),
{
    lemma_emit_newline(frags, pos, named, Seq::empty(), 0, 0);
}

/// Intense changes palette selection, not its own code: a foreground
/// color inherited into a scope whose tag sets only `intense` keeps
/// the color and renders it with the bright indexed-256 parameter,
/// while the classic 30-37 parameter is used without `intense`; the
/// two parameter strings always differ.
pub proof fn lemma_intense_selects_bright_palette(parent: Style, c: Color)
    requires
        parent.fg == Some(c),
        !(c is Rgb),
    ensures
        ({
            let tag = Style {
                fg: None,
                bg: None,
                bold: None,
                intense: Some(true),
                underline: None,
                italic: None,
                reset: None,
            };
            let eff = spec_effective(tag, parent);
            &&& eff.fg == Some(c)
            &&& eff.intense == Some(true)
            &&& spec_color_params(c, true, false) == seq![51u8, 56u8, SEMI, 53u8, SEMI]
                + spec_dec((8 + color_index(c)) as u8)
            &&& spec_color_params(c, false, false) == seq![51u8, (48 + color_index(c)) as u8]
            &&& spec_color_params(c, true, false) != spec_color_params(c, false, false)
        }),
{
    assert(spec_color_params(c, true, false).len() >= 6);
    assert(spec_color_params(c, false, false).len() == 2);
}

/// The unescaped literal text of a template: `{{` and `}}` collapse to
/// single braces, everything else passes through.
pub open spec fn unescape(s: Seq<u8>, i: int) -> Seq<u8>
    decreases s.len() - i,
{
    if i < 0 || i >= s.len() {
        Seq::empty()
    } else if s[i] == crate::parse::OPEN_BRACE && i + 1 < s.len() && s[i + 1]
        == crate::parse::OPEN_BRACE {
        seq![crate::parse::OPEN_BRACE] + unescape(s, i + 2)
    } else if s[i] == crate::parse::CLOSE_BRACE && i + 1 < s.len() && s[i + 1]
        == crate::parse::CLOSE_BRACE {
        seq![crate::parse::CLOSE_BRACE] + unescape(s, i + 2)
    } else {
        seq![s[i]] + unescape(s, i + 1)
    }
}

/// A template with no style tags and no slots: text fragments only,
/// none of which consumes an argument.
pub open spec fn no_tags_no_slots(frags: Seq<FragV>) -> bool {
    forall|i: int|
        0 <= i < frags.len() ==> (#[trigger] frags[i] matches FragV::Fmt { parts, args }
            && args.len() == 0)
}

/// Text fragments differing only in parts the walk no longer touches
/// emit the same chunks.
proof fn lemma_emit_fmt_agree(
    parts: Seq<Seq<u8>>,
    parts2: Seq<Seq<u8>>,
    args: Seq<crate::template::ArgRefV>,
    pos: Seq<Seq<u8>>,
    named: Seq<NamedArg>,
    parent: Style,
    cur: int,
    j: int,
)
    requires
        0 <= j <= args.len(),
        forall|t: int| j <= t <= args.len() ==> parts[t] == parts2[t],
    ensures
        emit_fmt(parts, args, pos, named, parent, cur, j) == emit_fmt(
            parts2,
            args,
            pos,
            named,
            parent,
            cur,
            j,
        ),
    decreases args.len() - j,
{
    if j < args.len() {
        match crate::render::spec_resolve(args[j].kind, pos, named, cur) {
            Ok(_) => {
                lemma_emit_fmt_agree(
                    parts,
                    parts2,
                    args,
                    pos,
                    named,
                    parent,
                    crate::render::spec_advance(args[j].kind, cur),
                    j + 1,
                );
            },
            Err(_) => {},
        }
    }
}

/// A literal byte prepended onto the fragments prepends exactly that
/// byte to whatever they render, from any state.
proof fn lemma_cons_char_render(
    c: u8,
    frags: Seq<FragV>,
    pos: Seq<Seq<u8>>,
    named: Seq<NamedArg>,
    stack: Seq<Style>,
    cur: int,
)
    requires
        frags_shaped(frags),
    ensures
        render_from(crate::parse::cons_char(c, frags), pos, named, stack, cur, 0) == match
            render_from(frags, pos, named, stack, cur, 0) {
            Ok(bs) => Result::<Seq<u8>, crate::render::RenderError>::Ok(seq![c] + bs),
            Err(e) => Result::<Seq<u8>, crate::render::RenderError>::Err(e),
        },
{
    let g = crate::parse::cons_char(c, frags);
    let top = crate::render::stack_top(stack);
    if frags.len() == 0 {
        let p = emit_fmt(seq![seq![c]], Seq::empty(), pos, named, top, cur, 0)->Ok_0;
        assert(p.0 == seq![Chunk::Lit(seq![c])]);
        lemma_chunks_singleton(Chunk::Lit(seq![c]));
        assert(emit_frags(g, pos, named, stack, cur, 1) == Result::<
            Seq<Chunk>,
            crate::render::RenderError,
        >::Ok(Seq::empty()));
        assert(p.0 + Seq::<Chunk>::empty() =~= p.0);
        assert(seq![c] + Seq::<u8>::empty() =~= seq![c]);
    } else {
        match frags[0] {
            FragV::Fmt { parts, args } => {
                let parts2 = parts.update(0, seq![c] + parts[0]);
                assert(g == seq![FragV::Fmt { parts: parts2, args }] + frags.drop_first());
                assert(frags[0] matches FragV::Fmt { parts: pp, args: aa } ==> pp.len() == aa.len()
                    + 1);
                // the modified head fragment renders c followed by the original
                if args.len() == 0 {
                    lemma_chunks_singleton(Chunk::Lit(parts2[0]));
                    lemma_chunks_singleton(Chunk::Lit(parts[0]));
                } else {
                    assert(parts2[args.len() as int] == parts[args.len() as int]);
                    match crate::render::spec_resolve(args[0].kind, pos, named, cur) {
                        Ok(v) => {
                            let cur2 = crate::render::spec_advance(args[0].kind, cur);
                            lemma_emit_fmt_agree(parts, parts2, args, pos, named, top, cur2, 1);
                            match emit_fmt(parts, args, pos, named, top, cur2, 1) {
                                Ok(p) => {
                                    let sc = crate::render::slot_chunks(args[0], v, top);
                                    lemma_chunks_concat(seq![Chunk::Lit(parts[0])] + sc, p.0);
                                    lemma_chunks_concat(seq![Chunk::Lit(parts2[0])] + sc, p.0);
                                    lemma_chunks_concat(seq![Chunk::Lit(parts[0])], sc);
                                    lemma_chunks_concat(seq![Chunk::Lit(parts2[0])], sc);
                                    lemma_chunks_singleton(Chunk::Lit(parts[0]));
                                    lemma_chunks_singleton(Chunk::Lit(parts2[0]));
                                    assert((seq![c] + parts[0]) + chunks_bytes(sc) + chunks_bytes(
                                        p.0,
                                    ) =~= seq![c] + (parts[0] + chunks_bytes(sc) + chunks_bytes(
                                        p.0,
                                    )));
                                },
                                Err(_) => {},
                            }
                        },
                        Err(_) => {},
                    }
                }
                // the tail is untouched
                match emit_fmt(parts2, args, pos, named, top, cur, 0) {
                    Ok(p2) => {
                        lemma_emit_congruent(g, frags, pos, named, stack, p2.1, 1);
                        match emit_frags(frags, pos, named, stack, p2.1, 1) {
                            Ok(cs) => {
                                let p = emit_fmt(parts, args, pos, named, top, cur, 0)->Ok_0;
                                lemma_chunks_concat(p2.0, cs);
                                lemma_chunks_concat(p.0, cs);
                                assert((seq![c] + chunks_bytes(p.0)) + chunks_bytes(cs) =~= seq![c]
                                    + (chunks_bytes(p.0) + chunks_bytes(cs)));
                            },
                            Err(_) => {},
                        }
                    },
                    Err(_) => {},
                }
            },
            _ => {
                let f2 = FragV::Fmt { parts: seq![seq![c]], args: Seq::<
                    crate::template::ArgRefV,
                >::empty() };
                assert(g == seq![f2] + frags);
                assert(g[0] == f2);
                let p = emit_fmt(seq![seq![c]], Seq::empty(), pos, named, top, cur, 0)->Ok_0;
                assert(p.0 == seq![Chunk::Lit(seq![c])]);
                lemma_chunks_singleton(Chunk::Lit(seq![c]));
                lemma_emit_shift(f2, frags, pos, named, stack, cur, 0);
                match emit_frags(frags, pos, named, stack, cur, 0) {
                    Ok(cs) => {
                        lemma_chunks_concat(p.0, cs);
                        assert(chunks_bytes(p.0) + chunks_bytes(cs) =~= seq![c] + chunks_bytes(
                            cs,
                        ));
                    },
                    Err(_) => {},
                }
            },
        }
    }
}

/// The fragments a literal-only parse produces render, from any state,
/// as the unescaped text of the remaining input.
proof fn lemma_parse_literal(
    s: Seq<u8>,
    i: int,
    pos: Seq<Seq<u8>>,
    named: Seq<NamedArg>,
    stack: Seq<Style>,
    cur: int,
)
    requires
        0 <= i,
        crate::parse::spec_parse(s, i, 0) is Ok,
        no_tags_no_slots(crate::parse::spec_parse(s, i, 0)->Ok_0),
    ensures
        render_from(crate::parse::spec_parse(s, i, 0)->Ok_0, pos, named, stack, cur, 0)
            == Result::<Seq<u8>, crate::render::RenderError>::Ok(unescape(s, i)),
    decreases s.len() - i, 1int,
{
    let frags = crate::parse::spec_parse(s, i, 0)->Ok_0;
    crate::parse::lemma_parse_wf(s, i, 0);
    if i >= s.len() {
        assert(frags =~= Seq::<FragV>::empty());
        assert(chunks_bytes(Seq::<Chunk>::empty()) =~= unescape(s, i));
    } else if s[i] == crate::parse::OPEN_BRACE {
        if i + 1 >= s.len() {
            // parse would have failed
        } else if s[i + 1] == crate::parse::OPEN_BRACE {
            let sub = crate::parse::spec_parse(s, i + 2, 0)->Ok_0;
            lemma_cons_literal_step(s, i, i + 2, crate::parse::OPEN_BRACE, pos, named, stack, cur);
        } else if s[i + 1] == crate::parse::DOLLAR {
            assert(frags[0] is StyleStart);
            assert(false);
        } else if s[i + 1] == crate::parse::SLASH {
            // a close at depth zero is an error; nothing to show
        } else if s[i + 1] == crate::parse::OPEN_BRACKET {
            lemma_cons_arg_head(crate::parse::spec_parse(s, i, 0)->Ok_0);
            assert(false);
        } else {
            lemma_cons_arg_head(crate::parse::spec_parse(s, i, 0)->Ok_0);
            assert(false);
        }
    } else if s[i] == crate::parse::CLOSE_BRACE {
        if i + 1 < s.len() && s[i + 1] == crate::parse::CLOSE_BRACE {
            lemma_cons_literal_step(s, i, i + 2, crate::parse::CLOSE_BRACE, pos, named, stack, cur);
        } else {
            lemma_cons_literal_step(s, i, i + 1, crate::parse::CLOSE_BRACE, pos, named, stack, cur);
        }
    } else {
        lemma_cons_literal_step(s, i, i + 1, s[i], pos, named, stack, cur);
    }
}

/// One literal step of the induction: the parse at `i` is the byte `c`
/// prepended onto the parse at `nxt`.
proof fn lemma_cons_literal_step(
    s: Seq<u8>,
    i: int,
    nxt: int,
    c: u8,
    pos: Seq<Seq<u8>>,
    named: Seq<NamedArg>,
    stack: Seq<Style>,
    cur: int,
)
    requires
        0 <= i < nxt <= s.len(),
        crate::parse::spec_parse(s, i, 0) is Ok,
        no_tags_no_slots(crate::parse::spec_parse(s, i, 0)->Ok_0),
        crate::parse::spec_parse(s, i, 0)->Ok_0 == crate::parse::cons_char(
            c,
            crate::parse::spec_parse(s, nxt, 0)->Ok_0,
        ),
        crate::parse::spec_parse(s, nxt, 0) is Ok,
        unescape(s, i) == seq![c] + unescape(s, nxt),
    ensures
        render_from(crate::parse::spec_parse(s, i, 0)->Ok_0, pos, named, stack, cur, 0)
            == Result::<Seq<u8>, crate::render::RenderError>::Ok(unescape(s, i)),
    decreases s.len() - i, 0int,
{
    let frags = crate::parse::spec_parse(s, i, 0)->Ok_0;
    let sub = crate::parse::spec_parse(s, nxt, 0)->Ok_0;
    crate::parse::lemma_parse_wf(s, nxt, 0);
    lemma_cons_char_no_tags(c, sub);
    lemma_parse_literal(s, nxt, pos, named, stack, cur);
    lemma_cons_char_render(c, sub, pos, named, stack, cur);
}

/// The head of a `cons_arg` always holds a slot.
proof fn lemma_cons_arg_head(frags: Seq<FragV>)
    requires
        exists|a: crate::template::ArgRefV, rest: Seq<FragV>|
            frags == crate::parse::cons_arg(a, rest),
    ensures
        !no_tags_no_slots(frags),
{
    let (a, rest) = choose|a: crate::template::ArgRefV, rest: Seq<FragV>|
        frags == crate::parse::cons_arg(a, rest);
    assert(frags[0] matches FragV::Fmt { args, .. } ==> args.len() >= 1);
}

/// `cons_char` neither adds nor removes tags or slots.
proof fn lemma_cons_char_no_tags(c: u8, frags: Seq<FragV>)
    requires
        no_tags_no_slots(crate::parse::cons_char(c, frags)),
    ensures
        no_tags_no_slots(frags),
{
    let g = crate::parse::cons_char(c, frags);
    if frags.len() > 0 {
        assert forall|i: int| 0 <= i < frags.len() implies (#[trigger] frags[i] matches FragV::Fmt {
            parts,
            args,
        } && args.len() == 0) by {
            match frags[0] {
                FragV::Fmt { parts, args } => {
                    if i == 0 {
                        assert(g[0] matches FragV::Fmt { args: a2, .. } && a2 == args);
                    } else {
                        assert(g[i] == frags[i]);
                    }
                },
                _ => {
                    assert(g[1] == frags[0]);
                    assert(g[i + 1] == frags[i]);
                },
            }
        }
    }
}

/// A template with no style tags and no slots renders, against any
/// arguments, as exactly its literal text with the brace escapes
/// collapsed.
pub proof fn lemma_literal_template_render(s: Seq<u8>, pos: Seq<Seq<u8>>, named: Seq<NamedArg>)
    requires
        crate::parse::spec_parse_template(s) is Ok,
        no_tags_no_slots(crate::parse::spec_parse_template(s)->Ok_0),
    ensures
        spec_render(crate::parse::spec_parse_template(s)->Ok_0, pos, named) == Result::<
            Seq<u8>,
            crate::render::RenderError,
        >::Ok(unescape(s, 0)),
{
    lemma_parse_literal(s, 0, pos, named, Seq::empty(), 0);
}

/// How many chunks are bare-reset-only escape sequences: transitions
/// of a style that re-applies nothing.
pub open spec fn count_bare(cs: Seq<Chunk>) -> int
    decreases cs.len(),
{
    if cs.len() == 0 {
        0
    } else {
        (match cs[0] {
            Chunk::Trans(st) => if spec_transition(st) == bare_reset() {
                1int
            } else {
                0int
            },
            Chunk::Lit(_) => 0int,
        }) + count_bare(cs.drop_first())
    }
}

/// Bare-reset counts add over concatenation.
proof fn lemma_count_bare_concat(a: Seq<Chunk>, b: Seq<Chunk>)
    ensures
        count_bare(a + b) == count_bare(a) + count_bare(b),
    decreases a.len(),
{
    if a.len() == 0 {
        assert(a + b =~= b);
    } else {
        assert((a + b).drop_first() =~= a.drop_first() + b);
        lemma_count_bare_concat(a.drop_first(), b);
        assert((a + b)[0] == a[0]);
    }
}

/// How many style closes restore an empty stack, walking from `i` at
/// nesting depth `depth`.
pub open spec fn closes_at_empty(frags: Seq<FragV>, i: int, depth: int) -> int
    decreases frags.len() - i,
{
    if i < 0 || i >= frags.len() {
        0
    } else {
        match frags[i] {
            FragV::StyleStart(_) => closes_at_empty(frags, i + 1, depth + 1),
            FragV::StyleEnd => (if depth == 1 {
                1int
            } else {
                0int
            }) + closes_at_empty(
                frags,
                i + 1,
                if depth >= 1 {
                    depth - 1
                } else {
                    0
                },
            ),
            FragV::Fmt { .. } => closes_at_empty(frags, i + 1, depth),
        }
    }
}

/// Every inline style sets at least one visible attribute.
pub open spec fn inline_styles_visible(frags: Seq<FragV>) -> bool {
    forall|i: int|
        0 <= i < frags.len() ==> (#[trigger] frags[i] matches FragV::Fmt { parts, args }
            ==> forall|j: int|
                0 <= j < args.len() ==> ((#[trigger] args[j].inline_style) matches Some(st)
                    ==> style_visible(st)))
}

/// Whether any slot of a text fragment carries an inline style.
pub open spec fn has_inline(args: Seq<crate::template::ArgRefV>) -> bool {
    exists|j: int| 0 <= j < args.len() && (#[trigger] args[j].inline_style) is Some
}

/// Every style tag sets at least one visible attribute.
pub open spec fn all_opens_visible(frags: Seq<FragV>) -> bool {
    forall|i: int|
        0 <= i < frags.len() ==> (#[trigger] frags[i] matches FragV::StyleStart(st)
            ==> style_visible(st))
}

/// A visible tag yields a visible effective style, whatever it
/// inherits.
proof fn lemma_visible_effective(tag: Style, parent: Style)
    requires
        style_visible(tag),
    ensures
        style_visible(spec_effective(tag, parent)),
{
}

/// A text fragment whose inline styles are all visible, and whose
/// parent style is visible whenever it has any, emits no bare reset.
proof fn lemma_fmt_no_bare(
    parts: Seq<Seq<u8>>,
    args: Seq<crate::template::ArgRefV>,
    pos: Seq<Seq<u8>>,
    named: Seq<NamedArg>,
    parent: Style,
    cur: int,
    j: int,
)
    requires
        0 <= j,
        forall|t: int|
            0 <= t < args.len() ==> ((#[trigger] args[t].inline_style) matches Some(st)
                ==> style_visible(st)),
        has_inline(args) ==> style_visible(parent),
    ensures
        emit_fmt(parts, args, pos, named, parent, cur, j) matches Ok(p) ==> count_bare(p.0) == 0,
    decreases args.len() - j,
{
    if j >= args.len() {
        assert(seq![Chunk::Lit(parts[args.len() as int])].drop_first() =~= Seq::<Chunk>::empty());
        assert(count_bare(Seq::<Chunk>::empty()) == 0);
    } else {
        match crate::render::spec_resolve(args[j].kind, pos, named, cur) {
            Ok(v) => {
                let cur2 = crate::render::spec_advance(args[j].kind, cur);
                lemma_fmt_no_bare(parts, args, pos, named, parent, cur2, j + 1);
                match emit_fmt(parts, args, pos, named, parent, cur2, j + 1) {
                    Ok(p) => {
                        let sc = crate::render::slot_chunks(args[j], v, parent);
                        lemma_count_bare_concat(seq![Chunk::Lit(parts[j])] + sc, p.0);
                        lemma_count_bare_concat(seq![Chunk::Lit(parts[j])], sc);
                        assert(count_bare(Seq::<Chunk>::empty()) == 0);
                        assert(seq![Chunk::Lit(parts[j])].drop_first() =~= Seq::<Chunk>::empty());
                        match args[j].inline_style {
                            Some(st) => {
                                assert(has_inline(args)) by {
                                    assert(0 <= j < args.len() && (args[j].inline_style) is Some);
                                }
                                assert(style_visible(st));
                                assert(style_visible(parent));
                                let eff = spec_effective(st, parent);
                                lemma_visible_effective(st, parent);
                                lemma_transition_bare_iff_invisible(eff);
                                lemma_transition_bare_iff_invisible(parent);
                                assert(sc.drop_first() =~= seq![
                                    Chunk::Lit(v),
                                    Chunk::Trans(parent),
                                ]);
                                assert(seq![Chunk::Lit(v), Chunk::Trans(parent)].drop_first()
                                    =~= seq![Chunk::Trans(parent)]);
                                assert(seq![Chunk::Trans(parent)].drop_first() =~= Seq::<
                                    Chunk,
                                >::empty());
                                assert(count_bare(seq![Chunk::Trans(parent)]) == 0);
                                assert(count_bare(seq![Chunk::Lit(v), Chunk::Trans(parent)]) == 0);
                                assert(count_bare(sc) == 0);
                            },
                            None => {
                                assert(seq![Chunk::Lit(v)].drop_first() =~= Seq::<Chunk>::empty());
                                assert(count_bare(sc) == 0);
                            },
                        }
                    },
                    Err(_) => {},
                }
            },
            Err(_) => {},
        }
    }
}

/// The walking form of the bare-reset law: with every open scope
/// visible and enough scopes open to cover every coming close, the
/// bare resets in the emitted chunks are exactly the closes that empty
/// the stack.
proof fn lemma_count_bare_from(
    frags: Seq<FragV>,
    pos: Seq<Seq<u8>>,
    named: Seq<NamedArg>,
    stack: Seq<Style>,
    cur: int,
    i: int,
)
    requires
        inline_styles_visible(frags),
        all_opens_visible(frags),
        forall|k: int| 0 <= k < stack.len() ==> style_visible(#[trigger] stack[k]),
        0 <= i <= frags.len(),
        forall|n: int|
            i <= n <= frags.len() ==> stack.len() + #[trigger] depth_after(frags, n) - depth_after(
                frags,
                i,
            ) >= 0,
        forall|n: int|
            i <= n < frags.len() ==> ((#[trigger] frags[n]) matches FragV::Fmt { args, .. }
                && has_inline(args) ==> stack.len() + depth_after(frags, n) - depth_after(frags, i)
                >= 1),
    ensures
        emit_frags(frags, pos, named, stack, cur, i) matches Ok(cs) ==> count_bare(cs)
            == closes_at_empty(frags, i, stack.len() as int),
    decreases frags.len() - i,
{
    assert(count_bare(Seq::<Chunk>::empty()) == 0);
    if i < frags.len() {
        assert(depth_after(frags, i + 1) == depth_after(frags, i) + crate::parse::frag_delta(
            frags[i],
        ));
        match frags[i] {
            FragV::Fmt { parts, args } => {
                let top = crate::render::stack_top(stack);
                if has_inline(args) {
                    assert(stack.len() + depth_after(frags, i) - depth_after(frags, i) >= 1);
                    assert(style_visible(stack[stack.len() - 1]));
                }
                lemma_fmt_no_bare(parts, args, pos, named, top, cur, 0);
                match emit_fmt(parts, args, pos, named, top, cur, 0) {
                    Ok(p) => {
                        lemma_count_bare_from(frags, pos, named, stack, p.1, i + 1);
                        match emit_frags(frags, pos, named, stack, p.1, i + 1) {
                            Ok(cs) => {
                                lemma_count_bare_concat(p.0, cs);
                            },
                            Err(_) => {},
                        }
                    },
                    Err(_) => {},
                }
            },
            FragV::StyleStart(st) => {
                let eff = spec_effective(st, crate::render::stack_top(stack));
                lemma_visible_effective(st, crate::render::stack_top(stack));
                let stack2 = stack.push(eff);
                assert(forall|k: int|
                    0 <= k < stack2.len() ==> style_visible(#[trigger] stack2[k]));
                lemma_count_bare_from(frags, pos, named, stack2, cur, i + 1);
                match emit_frags(frags, pos, named, stack2, cur, i + 1) {
                    Ok(cs) => {
                        lemma_count_bare_concat(seq![Chunk::Trans(eff)], cs);
                        assert(seq![Chunk::Trans(eff)].drop_first() =~= Seq::<Chunk>::empty());
                        lemma_transition_bare_iff_invisible(eff);
                    },
                    Err(_) => {},
                }
            },
            FragV::StyleEnd => {
                assert(stack.len() + depth_after(frags, i + 1) - depth_after(frags, i) >= 0);
                assert(stack.len() >= 1);
                let stack2 = stack.drop_last();
                let restored = crate::render::stack_top(stack2);
                assert(forall|k: int|
                    0 <= k < stack2.len() ==> style_visible(#[trigger] stack2[k]));
                lemma_count_bare_from(frags, pos, named, stack2, cur, i + 1);
                match emit_frags(frags, pos, named, stack2, cur, i + 1) {
                    Ok(cs) => {
                        lemma_count_bare_concat(seq![Chunk::Trans(restored)], cs);
                        assert(seq![Chunk::Trans(restored)].drop_first() =~= Seq::<
                            Chunk,
                        >::empty());
                        lemma_transition_bare_iff_invisible(restored);
                        if stack.len() == 1 {
                            assert(!style_visible(restored));
                        } else {
                            assert(restored == stack2[stack2.len() - 1]);
                            assert(style_visible(restored));
                        }
                    },
                    Err(_) => {},
                }
            },
        }
    }
}

/// For balanced style nesting where every style tag and inline style
/// sets a visible attribute and inline-styled slots sit inside at
/// least one open scope, the emitted bare-reset-only transitions are
/// exactly the style closes whose parent stack is empty.
pub proof fn lemma_bare_reset_count(frags: Seq<FragV>, pos: Seq<Seq<u8>>, named: Seq<NamedArg>)
    requires
        frags_wf(frags),
        inline_styles_visible(frags),
        all_opens_visible(frags),
        forall|n: int|
            0 <= n < frags.len() ==> ((#[trigger] frags[n]) matches FragV::Fmt { args, .. }
                && has_inline(args) ==> depth_after(frags, n) >= 1),
    ensures
        emit_frags(frags, pos, named, Seq::empty(), 0, 0) matches Ok(cs) ==> count_bare(cs)
            == closes_at_empty(frags, 0, 0),
{
    assert(depth_after(frags, 0) == 0);
    assert(forall|n: int|
        0 <= n <= frags.len() ==> Seq::<Style>::empty().len() + #[trigger] depth_after(frags, n)
            - depth_after(frags, 0) >= 0);
    lemma_count_bare_from(frags, pos, named, Seq::empty(), 0, 0);
}

} // verus!
