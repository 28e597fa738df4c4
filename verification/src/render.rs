//! The renderer and the argument resolver.
//!
//! A render walks the fragment sequence once, keeping a stack of
//! effective styles and the implicit argument cursor. Literal text and
//! resolved argument values are emitted as they stand; every
//! style-scope boundary (open, close, or the transient scope around an
//! inline-styled slot) emits a full transition computed by the codec.
//! Argument values are supplied pre-rendered: an ordered positional
//! list and a list of named values, each a plain byte string.

use vstd::prelude::*;

use crate::codec::spec_transition;
use crate::codec::render_transition;
use crate::codec::write_transition;
use crate::style::Style;
use crate::style::spec_effective;
use crate::style::effective;
use crate::template::ArgKindV;
use crate::template::ArgRef;
use crate::template::ArgRefKind;
use crate::template::ArgRefV;
use crate::template::FormatStr;
use crate::template::FormatStrFragment;
use crate::template::FragV;
use crate::template::frags_shaped;
use crate::parse::frags_of;

verus! {

/// Why a render was aborted.
#[derive(Clone, Copy, Debug, PartialEq, Eq, Structural)]
pub enum RenderError {
    /// A slot referenced a position, name, or implicit-cursor index
    /// with no corresponding supplied value.
    MissingArgument,
}

/// A named argument value, pre-rendered to bytes.
#[derive(Clone, Debug)]
pub struct NamedArg {
    pub name: Vec<u8>,
    pub value: Vec<u8>,
}

/// The views of the positional values.
pub open spec fn posv(pos: Vec<Vec<u8>>) -> Seq<Seq<u8>> {
    pos@.map_values(|v: Vec<u8>| v@)
}

/// The first named argument with this name, searched from `i`.
pub open spec fn lookup_from(named: Seq<NamedArg>, name: Seq<u8>, i: int) -> Option<Seq<u8>>
    decreases named.len() - i,
{
    if i < 0 || i >= named.len() {
        None
    } else if named[i].name@ == name {
        Some(named[i].value@)
    } else {
        lookup_from(named, name, i + 1)
    }
}

/// The value bound to a name, if any.
pub open spec fn lookup_named(named: Seq<NamedArg>, name: Seq<u8>) -> Option<Seq<u8>> {
    lookup_from(named, name, 0)
}

/// The value a slot reference consumes: `Next` takes the positional
/// value at the cursor, an explicit position takes its index, a name
/// takes the named value; each fails exactly when no such value exists.
pub open spec fn spec_resolve(
    kind: ArgKindV,
    pos: Seq<Seq<u8>>,
    named: Seq<NamedArg>,
    cursor: int,
) -> Result<Seq<u8>, RenderError> {
    match kind {
        ArgKindV::Next => if 0 <= cursor < pos.len() {
            Ok(pos[cursor])
        } else {
            Err(RenderError::MissingArgument)
        },
        ArgKindV::Position(i) => if i < pos.len() {
            Ok(pos[i as int])
        } else {
            Err(RenderError::MissingArgument)
        },
        ArgKindV::Name(n) => match lookup_named(named, n) {
            Some(v) => Ok(v),
            None => Err(RenderError::MissingArgument),
        },
    }
}

/// The implicit cursor after a slot: only `Next` advances it.
pub open spec fn spec_advance(kind: ArgKindV, cursor: int) -> int {
    if kind is Next {
        cursor + 1
    } else {
        cursor
    }
}

/// One emitted piece of output: literal bytes (text or an argument
/// value) or a style transition.
pub enum Chunk {
    Lit(Seq<u8>),
    Trans(Style),
}

/// The bytes of one chunk.
pub open spec fn chunk_bytes(c: Chunk) -> Seq<u8> {
    match c {
        Chunk::Lit(s) => s,
        Chunk::Trans(st) => spec_transition(st),
    }
}

/// The bytes of a chunk sequence, in order.
pub open spec fn chunks_bytes(cs: Seq<Chunk>) -> Seq<u8>
    decreases cs.len(),
{
    if cs.len() == 0 {
        Seq::empty()
    } else {
        chunk_bytes(cs[0]) + chunks_bytes(cs.drop_first())
    }
}

/// Chunk bytes distribute over concatenation.
pub proof fn lemma_chunks_concat(a: Seq<Chunk>, b: Seq<Chunk>)
    ensures
        chunks_bytes(a + b) == chunks_bytes(a) + chunks_bytes(b),
    decreases a.len(),
{
    if a.len() == 0 {
        assert(a + b =~= b);
        assert(chunks_bytes(a) + chunks_bytes(b) =~= chunks_bytes(b));
    } else {
        assert((a + b).drop_first() =~= a.drop_first() + b);
        lemma_chunks_concat(a.drop_first(), b);
        assert((a + b)[0] == a[0]);
        assert(chunk_bytes(a[0]) + (chunks_bytes(a.drop_first()) + chunks_bytes(b)) =~= (
        chunk_bytes(a[0]) + chunks_bytes(a.drop_first())) + chunks_bytes(b));
    }
}

/// The bytes of a single chunk sequence element.
pub proof fn lemma_chunks_singleton(c: Chunk)
    ensures
        chunks_bytes(seq![c]) == chunk_bytes(c),
{
    assert(seq![c].drop_first() =~= Seq::<Chunk>::empty());
    assert(chunk_bytes(c) + chunks_bytes(Seq::<Chunk>::empty()) =~= chunk_bytes(c));
}

/// The effective style at the top of the stack; the all-unset default
/// when no scope is open.
pub open spec fn stack_top(stack: Seq<Style>) -> Style {
    if stack.len() == 0 {
        Style::empty()
    } else {
        stack.last()
    }
}

/// The chunks one slot emits: its value, wrapped in a transient scope
/// exactly like a nested style tag when an inline style is present.
pub open spec fn slot_chunks(a: ArgRefV, v: Seq<u8>, parent: Style) -> Seq<Chunk> {
    match a.inline_style {
        Some(st) => seq![
            Chunk::Trans(spec_effective(st, parent)),
            Chunk::Lit(v),
            Chunk::Trans(parent),
        ],
        None => seq![Chunk::Lit(v)],
    }
}

/// The chunks and final cursor of a text fragment from slot `j` on:
/// `parts[j]`, then slot `j`, then the rest; the final part closes it.
pub open spec fn emit_fmt(
    parts: Seq<Seq<u8>>,
    args: Seq<ArgRefV>,
    pos: Seq<Seq<u8>>,
    named: Seq<NamedArg>,
    parent: Style,
    cursor: int,
    j: int,
) -> Result<(Seq<Chunk>, int), RenderError>
    decreases args.len() - j,
{
    if j < 0 || j >= args.len() {
        Ok((seq![Chunk::Lit(parts[args.len() as int])], cursor))
    } else {
        match spec_resolve(args[j].kind, pos, named, cursor) {
            Ok(v) => match emit_fmt(
                parts,
                args,
                pos,
                named,
                parent,
                spec_advance(args[j].kind, cursor),
                j + 1,
            ) {
                Ok(p) => Ok(
                    (seq![Chunk::Lit(parts[j])] + slot_chunks(args[j], v, parent) + p.0, p.1),
                ),
                Err(e) => Err(e),
            },
            Err(e) => Err(e),
        }
    }
}

/// The chunks of the fragments from `i` on, with the given style stack
/// and cursor: text interleaves its slots, an open pushes its effective
/// style and emits its transition, a close pops and emits the restored
/// style's transition.
pub open spec fn emit_frags(
    frags: Seq<FragV>,
    pos: Seq<Seq<u8>>,
    named: Seq<NamedArg>,
    stack: Seq<Style>,
    cursor: int,
    i: int,
) -> Result<Seq<Chunk>, RenderError>
    decreases frags.len() - i,
{
    if i < 0 || i >= frags.len() {
        Ok(Seq::empty())
    } else {
        match frags[i] {
            FragV::Fmt { parts, args } => match emit_fmt(
                parts,
                args,
                pos,
                named,
                stack_top(stack),
                cursor,
                0,
            ) {
                Ok(p) => match emit_frags(frags, pos, named, stack, p.1, i + 1) {
                    Ok(rest) => Ok(p.0 + rest),
                    Err(e) => Err(e),
                },
                Err(e) => Err(e),
            },
            FragV::StyleStart(st) => {
                let eff = spec_effective(st, stack_top(stack));
                match emit_frags(frags, pos, named, stack.push(eff), cursor, i + 1) {
                    Ok(rest) => Ok(seq![Chunk::Trans(eff)] + rest),
                    Err(e) => Err(e),
                }
            },
            FragV::StyleEnd => {
                let stack2 = if stack.len() == 0 {
                    stack
                } else {
                    stack.drop_last()
                };
                match emit_frags(frags, pos, named, stack2, cursor, i + 1) {
                    Ok(rest) => Ok(seq![Chunk::Trans(stack_top(stack2))] + rest),
                    Err(e) => Err(e),
                }
            },
        }
    }
}

/// The rendered bytes from fragment `i` on.
pub open spec fn render_from(
    frags: Seq<FragV>,
    pos: Seq<Seq<u8>>,
    named: Seq<NamedArg>,
    stack: Seq<Style>,
    cursor: int,
    i: int,
) -> Result<Seq<u8>, RenderError> {
    match emit_frags(frags, pos, named, stack, cursor, i) {
        Ok(cs) => Ok(chunks_bytes(cs)),
        Err(e) => Err(e),
    }
}

/// The rendered bytes of a whole template: all fragments, from an
/// empty style stack and cursor zero.
pub open spec fn spec_render(frags: Seq<FragV>, pos: Seq<Seq<u8>>, named: Seq<NamedArg>) -> Result<
    Seq<u8>,
    RenderError,
> {
    render_from(frags, pos, named, Seq::empty(), 0, 0)
}

/// A copy of a byte vector.
fn clone_bytes(v: &Vec<u8>) -> (r: Vec<u8>)
    ensures
        r@ == v@,
{
    let mut r: Vec<u8> = Vec::new();
    let mut i: usize = 0;
    while i < v.len()
        invariant
            i <= v@.len(),
            r@ == v@.take(i as int),
        decreases v@.len() - i,
    {
        r.push(v[i]);
        assert(r@ =~= v@.take(i as int + 1));
        i += 1;
    }
    assert(r@ =~= v@);
    r
}

/// Byte-for-byte equality of two vectors.
fn vec_eq(a: &Vec<u8>, b: &Vec<u8>) -> (r: bool)
    ensures
        r <==> a@ == b@,
{
    if a.len() != b.len() {
        return false;
    }
    let mut i: usize = 0;
    while i < a.len()
        invariant
            i <= a@.len() == b@.len(),
            forall|t: int| 0 <= t < i ==> a@[t] == b@[t],
        decreases a@.len() - i,
    {
        if a[i] != b[i] {
            return false;
        }
        i += 1;
    }
    assert(a@ =~= b@);
    true
}

/// Resolves one slot against the supplied arguments, advancing the
/// implicit cursor exactly when the slot is a successful `Next`.
///
/// Fails with `MissingArgument` if and only if the referenced value
/// does not exist: the cursor is at or past the end of the positional
/// list, the explicit position is out of range, or no named value
/// carries the name.
pub fn resolve(
    slot: &ArgRef,
    positional: &Vec<Vec<u8>>,
    named: &Vec<NamedArg>,
    cursor: &mut usize,
) -> (r: Result<Vec<u8>, RenderError>)
    ensures
        match r {
            Ok(v) => spec_resolve(slot@.kind, posv(*positional), named@, *old(cursor) as int)
                == Result::<Seq<u8>, RenderError>::Ok(v@) && *final(cursor) == spec_advance(
                slot@.kind,
                *old(cursor) as int,
            ),
            Err(e) => spec_resolve(slot@.kind, posv(*positional), named@, *old(cursor) as int)
                == Result::<Seq<u8>, RenderError>::Err(e) && *final(cursor) == *old(cursor),
        },
{
    match &slot.kind {
        ArgRefKind::Next => {
            if *cursor < positional.len() {
                let v = clone_bytes(&positional[*cursor]);
                proof {
                    assert(posv(*positional)[*old(cursor) as int] == positional@[*old(
                        cursor,
                    ) as int]@);
                }
                *cursor += 1;
                Ok(v)
            } else {
                Err(RenderError::MissingArgument)
            }
        },
        ArgRefKind::Position(i) => {
            let idx = *i as usize;
            if idx < positional.len() {
                proof {
                    assert(posv(*positional)[idx as int] == positional@[idx as int]@);
                }
                Ok(clone_bytes(&positional[idx]))
            } else {
                Err(RenderError::MissingArgument)
            }
        },
        ArgRefKind::Name(n) => {
            let mut i: usize = 0;
            loop
                invariant
                    i <= named@.len(),
                    *cursor == *old(cursor),
                    slot@.kind == ArgKindV::Name(n@),
                    lookup_named(named@, n@) == lookup_from(named@, n@, i as int),
                decreases named@.len() - i,
            {
                if i >= named.len() {
                    proof {
                        assert(lookup_from(named@, n@, i as int) is None);
                    }
                    return Err(RenderError::MissingArgument);
                }
                if vec_eq(&named[i].name, n) {
                    proof {
                        assert(named@[i as int].name@ == n@);
                        assert(lookup_from(named@, n@, i as int) == Some(
                            named@[i as int].value@,
                        ));
                    }
                    return Ok(clone_bytes(&named[i].value));
                }
                proof {
                    assert(named@[i as int].name@ != n@);
                    assert(lookup_from(named@, n@, i as int) == lookup_from(
                        named@,
                        n@,
                        i as int + 1,
                    ));
                }
                i += 1;
            }
        },
    }
}

/// The effective style at the top of the stack.
fn stack_top_exec(stack: &Vec<Style>) -> (r: Style)
    ensures
        r == stack_top(stack@),
{
    if stack.len() == 0 {
        Style {
            fg: None,
            bg: None,
            bold: None,
            intense: None,
            underline: None,
            italic: None,
            reset: None,
        }
    } else {
        stack[stack.len() - 1]
    }
}

/// Renders one text fragment from slot `j` on, returning the bytes and
/// the cursor after it.
#[verifier::rlimit(60)]
fn render_fmt(
    parts: &Vec<Vec<u8>>,
    args: &Vec<ArgRef>,
    positional: &Vec<Vec<u8>>,
    named: &Vec<NamedArg>,
    parent: &Style,
    cursor: usize,
    j: usize,
) -> (r: Result<(Vec<u8>, usize), RenderError>)
    requires
        j <= args@.len(),
        parts@.len() == args@.len() + 1,
        cursor <= positional@.len(),
    ensures
        ({
            let m = emit_fmt(
                parts@.map_values(|p: Vec<u8>| p@),
                args@.map_values(|a: ArgRef| a@),
                posv(*positional),
                named@,
                *parent,
                cursor as int,
                j as int,
            );
            match r {
                Ok(rr) => m matches Ok(p) && rr.0@ == chunks_bytes(p.0) && rr.1 == p.1 && rr.1
                    <= positional@.len(),
                Err(e) => m == Result::<(Seq<Chunk>, int), RenderError>::Err(e),
            }
        }),
    decreases args@.len() - j,
{
    let ghost partsv = parts@.map_values(|p: Vec<u8>| p@);
    let ghost argsv = args@.map_values(|a: ArgRef| a@);
    if j >= args.len() {
        let b = clone_bytes(&parts[args.len()]);
        proof {
            lemma_chunks_singleton(Chunk::Lit(partsv[argsv.len() as int]));
        }
        Ok((b, cursor))
    } else {
        let mut cur = cursor;
        match resolve(&args[j], positional, named, &mut cur) {
            Ok(v) => {
                match render_fmt(parts, args, positional, named, parent, cur, j + 1) {
                    Ok(pair) => {
                        let (rest, cur2) = pair;
                        let mut out = clone_bytes(&parts[j]);
                        proof {
                            assert(argsv[j as int] == args@[j as int]@);
                        }
                        let ghost sc = slot_chunks(argsv[j as int], v@, *parent);
                        match &args[j].inline_style {
                            Some(st) => {
                                let top = *parent;
                                let eff = effective(st, &top);
                                write_transition(&mut out, &eff);
                                let mut vv = v;
                                out.append(&mut vv);
                                write_transition(&mut out, &top);
                                proof {
                                    assert(argsv[j as int].inline_style == Some(*st));
                                    lemma_chunks_singleton(Chunk::Trans(*parent));
                                    assert(sc.drop_first() =~= seq![
                                        Chunk::Lit(v@),
                                        Chunk::Trans(*parent),
                                    ]);
                                    assert(chunks_bytes(seq![Chunk::Trans(*parent)])
                                        == spec_transition(*parent));
                                    assert(seq![Chunk::Lit(v@), Chunk::Trans(*parent)].drop_first()
                                        =~= seq![Chunk::Trans(*parent)]);
                                    assert(chunks_bytes(seq![Chunk::Lit(v@), Chunk::Trans(*parent)])
                                        == v@ + spec_transition(*parent));
                                    assert(chunks_bytes(sc) == spec_transition(
                                        spec_effective(*st, *parent),
                                    ) + (v@ + spec_transition(*parent)));
                                }
                            },
                            None => {
                                let mut vv = v;
                                out.append(&mut vv);
                                proof {
                                    assert(argsv[j as int].inline_style is None);
                                    lemma_chunks_singleton(Chunk::Lit(v@));
                                }
                            },
                        }
                        let mut rr = rest;
                        out.append(&mut rr);
                        proof {
                            let p = emit_fmt(
                                partsv,
                                argsv,
                                posv(*positional),
                                named@,
                                *parent,
                                cur as int,
                                j as int + 1,
                            )->Ok_0;
                            lemma_chunks_concat(seq![Chunk::Lit(partsv[j as int])] + sc, p.0);
                            lemma_chunks_concat(seq![Chunk::Lit(partsv[j as int])], sc);
                            lemma_chunks_singleton(Chunk::Lit(partsv[j as int]));
                            assert(argsv[j as int] == args@[j as int]@);
                            assert(out@ =~= chunks_bytes(
                                seq![Chunk::Lit(partsv[j as int])] + sc + p.0,
                            ));
                        }
                        Ok((out, cur2))
                    },
                    Err(e) => Err(e),
                }
            },
            Err(e) => Err(e),
        }
    }
}

/// Renders the fragments from `i` on, given the current style stack
/// and cursor.
fn render_rec(
    frags: &Vec<FormatStrFragment>,
    positional: &Vec<Vec<u8>>,
    named: &Vec<NamedArg>,
    stack: Vec<Style>,
    cursor: usize,
    i: usize,
) -> (r: Result<Vec<u8>, RenderError>)
    requires
        i <= frags@.len(),
        frags_shaped(frags_of(*frags)),
        cursor <= positional@.len(),
    ensures
        match r {
            Ok(v) => render_from(
                frags_of(*frags),
                posv(*positional),
                named@,
                stack@,
                cursor as int,
                i as int,
            ) == Result::<Seq<u8>, RenderError>::Ok(v@),
            Err(e) => render_from(
                frags_of(*frags),
                posv(*positional),
                named@,
                stack@,
                cursor as int,
                i as int,
            ) == Result::<Seq<u8>, RenderError>::Err(e),
        },
    decreases frags@.len() - i,
{
    let ghost fv = frags_of(*frags);
    if i >= frags.len() {
        let v: Vec<u8> = Vec::new();
        proof {
            assert(v@ =~= chunks_bytes(Seq::<Chunk>::empty()));
        }
        Ok(v)
    } else {
        proof {
            assert(fv[i as int] == frags@[i as int]@);
        }
        match &frags[i] {
            FormatStrFragment::Fmt { fmt_str_parts, args } => {
                let top = stack_top_exec(&stack);
                proof {
                    assert(fv[i as int] matches FragV::Fmt { parts, args } ==> parts.len()
                        == args.len() + 1);
                }
                match render_fmt(fmt_str_parts, args, positional, named, &top, cursor, 0) {
                    Ok(pair) => {
                        let (mut out, cur2) = pair;
                        match render_rec(frags, positional, named, stack, cur2, i + 1) {
                            Ok(rest) => {
                                let mut rr = rest;
                                out.append(&mut rr);
                                proof {
                                    let p = emit_fmt(
                                        fv[i as int]->parts,
                                        fv[i as int]->args,
                                        posv(*positional),
                                        named@,
                                        stack_top(stack@),
                                        cursor as int,
                                        0,
                                    )->Ok_0;
                                    let cs = emit_frags(
                                        fv,
                                        posv(*positional),
                                        named@,
                                        stack@,
                                        p.1,
                                        i as int + 1,
                                    )->Ok_0;
                                    lemma_chunks_concat(p.0, cs);
                                }
                                Ok(out)
                            },
                            Err(e) => Err(e),
                        }
                    },
                    Err(e) => Err(e),
                }
            },
            FormatStrFragment::StyleStart(st) => {
                let top = stack_top_exec(&stack);
                let eff = effective(st, &top);
                let mut stack2 = stack;
                stack2.push(eff);
                let mut out = render_transition(&eff);
                match render_rec(frags, positional, named, stack2, cursor, i + 1) {
                    Ok(rest) => {
                        let mut rr = rest;
                        out.append(&mut rr);
                        proof {
                            let cs = emit_frags(
                                fv,
                                posv(*positional),
                                named@,
                                stack@.push(spec_effective(*st, stack_top(stack@))),
                                cursor as int,
                                i as int + 1,
                            )->Ok_0;
                            lemma_chunks_concat(seq![Chunk::Trans(eff)], cs);
                            lemma_chunks_singleton(Chunk::Trans(eff));
                        }
                        Ok(out)
                    },
                    Err(e) => Err(e),
                }
            },
            FormatStrFragment::StyleEnd => {
                let mut stack2 = stack;
                if stack2.len() > 0 {
                    let ghost pre = stack2@;
                    let popped = stack2.pop();
                    proof {
                        assert(stack2@ =~= pre.drop_last());
                    }
                } else {
                }
                let restored = stack_top_exec(&stack2);
                let mut out = render_transition(&restored);
                match render_rec(frags, positional, named, stack2, cursor, i + 1) {
                    Ok(rest) => {
                        let mut rr = rest;
                        out.append(&mut rr);
                        proof {
                            let s2 = if stack@.len() == 0 {
                                stack@
                            } else {
                                stack@.drop_last()
                            };
                            let cs = emit_frags(
                                fv,
                                posv(*positional),
                                named@,
                                s2,
                                cursor as int,
                                i as int + 1,
                            )->Ok_0;
                            lemma_chunks_concat(seq![Chunk::Trans(stack_top(s2))], cs);
                            lemma_chunks_singleton(Chunk::Trans(stack_top(s2)));
                        }
                        Ok(out)
                    },
                    Err(e) => Err(e),
                }
            },
        }
    }
}

/// Renders a whole template against pre-rendered positional and named
/// argument values, producing the complete output byte stream.
///
/// Returns exactly what `spec_render` describes: literal text and
/// resolved values in template order, with a full style transition at
/// every scope boundary; fails with `MissingArgument` exactly when the
/// first unresolvable slot is reached, leaving no partial result.
pub fn render(t: &FormatStr, positional: &Vec<Vec<u8>>, named: &Vec<NamedArg>) -> (r: Result<
    Vec<u8>,
    RenderError,
>)
    requires
        t.wf(),
    ensures
        match r {
            Ok(out) => spec_render(t@, posv(*positional), named@) == Result::<
                Seq<u8>,
                RenderError,
            >::Ok(out@),
            Err(e) => spec_render(t@, posv(*positional), named@) == Result::<
                Seq<u8>,
                RenderError,
            >::Err(e),
        },
{
    let stack: Vec<Style> = Vec::new();
    proof {
        assert(frags_of(t.fragments) == t@);
        assert(stack@ =~= Seq::<Style>::empty());
    }
    render_rec(&t.fragments, positional, named, stack, 0, 0)
}

} // verus!
