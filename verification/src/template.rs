//! The parsed template: an ordered sequence of fragments.

use vstd::prelude::*;

use crate::style::Style;

verus! {

/// How an argument slot refers to its value.
#[derive(Clone, Debug)]
pub enum ArgRefKind {
    /// `{}`: the argument at the implicit cursor; consuming it advances
    /// the cursor.
    Next,
    /// `{2}`: the positional argument at a fixed index; the cursor does
    /// not move.
    Position(u32),
    /// `{peter}`: a named argument; the cursor does not move.
    Name(Vec<u8>),
}

/// One argument slot: a reference, the format spec chosen for it (empty
/// if none was written), and an optional inline style scoped to exactly
/// this slot.
#[derive(Clone, Debug)]
pub struct ArgRef {
    pub kind: ArgRefKind,
    pub format_spec: Vec<u8>,
    pub inline_style: Option<Style>,
}

/// One fragment of a parsed template.
#[derive(Clone, Debug)]
pub enum FormatStrFragment {
    /// Literal text interleaved with argument slots.
    ///
    /// `fmt_str_parts` always has exactly one element more than `args`:
    /// rendering interleaves `parts[0], args[0], parts[1], args[1], ...`.
    Fmt { fmt_str_parts: Vec<Vec<u8>>, args: Vec<ArgRef> },
    /// A `{$...}` style start tag, opening a new nesting level.
    StyleStart(Style),
    /// A `{/$}` style end tag, closing the innermost open level.
    StyleEnd,
}

/// A parsed template: immutable once parsed, reusable across renders.
#[derive(Clone, Debug)]
pub struct FormatStr {
    pub fragments: Vec<FormatStrFragment>,
}

/// The mathematical value of an [`ArgRefKind`].
pub enum ArgKindV {
    Next,
    Position(u32),
    Name(Seq<u8>),
}

/// The mathematical value of an [`ArgRef`].
pub struct ArgRefV {
    pub kind: ArgKindV,
    pub format_spec: Seq<u8>,
    pub inline_style: Option<Style>,
}

/// The mathematical value of a [`FormatStrFragment`].
pub enum FragV {
    Fmt { parts: Seq<Seq<u8>>, args: Seq<ArgRefV> },
    StyleStart(Style),
    StyleEnd,
}

impl View for ArgRefKind {
    type V = ArgKindV;

    open spec fn view(&self) -> ArgKindV {
        match self {
            ArgRefKind::Next => ArgKindV::Next,
            ArgRefKind::Position(i) => ArgKindV::Position(*i),
            ArgRefKind::Name(n) => ArgKindV::Name(n@),
        }
    }
}

impl View for ArgRef {
    type V = ArgRefV;

    open spec fn view(&self) -> ArgRefV {
        ArgRefV { kind: self.kind@, format_spec: self.format_spec@, inline_style: self.inline_style }
    }
}

impl View for FormatStrFragment {
    type V = FragV;

    open spec fn view(&self) -> FragV {
        match self {
            FormatStrFragment::Fmt { fmt_str_parts, args } => FragV::Fmt {
                parts: fmt_str_parts@.map_values(|p: Vec<u8>| p@),
                args: args@.map_values(|a: ArgRef| a@),
            },
            FormatStrFragment::StyleStart(s) => FragV::StyleStart(*s),
            FormatStrFragment::StyleEnd => FragV::StyleEnd,
        }
    }
}

impl View for FormatStr {
    type V = Seq<FragV>;

    open spec fn view(&self) -> Seq<FragV> {
        self.fragments@.map_values(|f: FormatStrFragment| f@)
    }
}

/// Every text fragment interleaves correctly: one more part than slots.
pub open spec fn frags_shaped(frags: Seq<FragV>) -> bool {
    forall|i: int|
        0 <= i < frags.len() ==> (#[trigger] frags[i] matches FragV::Fmt { parts, args } ==> parts.len()
            == args.len() + 1)
}

/// The nesting depth after the first `n` fragments: opens minus closes.
pub open spec fn depth_after(frags: Seq<FragV>, n: int) -> int
    decreases n,
{
    if n <= 0 {
        0
    } else {
        depth_after(frags, n - 1) + match frags[n - 1] {
            FragV::StyleStart(_) => 1,
            FragV::StyleEnd => -1,
            FragV::Fmt { .. } => 0,
        }
    }
}

/// Style tags are balanced: no close without a preceding unmatched open,
/// and no open left unmatched at the end.
pub open spec fn frags_balanced(frags: Seq<FragV>) -> bool {
    &&& forall|n: int| 0 <= n <= frags.len() ==> #[trigger] depth_after(frags, n) >= 0
    &&& depth_after(frags, frags.len() as int) == 0
}

/// The template invariant: well-shaped text fragments and balanced tags.
pub open spec fn frags_wf(frags: Seq<FragV>) -> bool {
    frags_shaped(frags) && frags_balanced(frags)
}

/// The view of `frags` after appending a literal newline, as
/// [`FormatStr::add_newline`] does.
pub open spec fn spec_add_newline(frags: Seq<FragV>) -> Seq<FragV> {
    if frags.len() == 0 {
        frags.push(FragV::Fmt { parts: seq![seq![10u8]], args: Seq::empty() })
    } else {
        match frags.last() {
            FragV::Fmt { parts, args } => frags.update(
                frags.len() - 1,
                FragV::Fmt {
                    parts: parts.update(parts.len() - 1, parts.last() + seq![10u8]),
                    args: args,
                },
            ),
            _ => frags.push(FragV::Fmt { parts: seq![seq![10u8]], args: Seq::empty() }),
        }
    }
}

impl FormatStr {
    /// The template invariant.
    pub open spec fn wf(&self) -> bool {
        frags_wf(self@)
    }

    /// Appends a literal newline to the template: onto the last part of
    /// a final text fragment, or as a new trailing text fragment.
    pub fn add_newline(&mut self)
        requires
            frags_shaped(old(self)@),
        ensures
            final(self)@ == spec_add_newline(old(self)@),
            frags_shaped(final(self)@),
            frags_balanced(old(self)@) ==> frags_balanced(final(self)@),
    {
        let n = self.fragments.len();
        let is_fmt = n > 0 && match &self.fragments[n - 1] {
            FormatStrFragment::Fmt { .. } => true,
            _ => false,
        };
        if is_fmt {
            let frag = self.fragments.remove(n - 1);
            proof {
                assert(old(self)@[n as int - 1] == frag@);
                assert(old(self)@.last() == frag@);
            }
            match frag {
                FormatStrFragment::Fmt { fmt_str_parts, args } => {
                    let mut fmt_str_parts = fmt_str_parts;
                    let ghost ofsp = fmt_str_parts@;
                    let ghost oldp = old(self)@.last()->parts;
                    proof {
                        assert(oldp == ofsp.map_values(|p: Vec<u8>| p@));
                        assert(oldp.len() == old(self)@.last()->args.len() + 1);
                    }
                    let m = fmt_str_parts.len();
                    let mut last_part = fmt_str_parts.remove(m - 1);
                    last_part.push(10u8);
                    fmt_str_parts.push(last_part);
                    proof {
                        let curr = fmt_str_parts@.map_values(|p: Vec<u8>| p@);
                        let target = oldp.update(oldp.len() - 1, oldp.last() + seq![10u8]);
                        assert(last_part@ =~= ofsp[m as int - 1]@ + seq![10u8]);
                        assert forall|i: int| 0 <= i < curr.len() implies curr[i] == target[i] by {
                            assert(curr[i] == fmt_str_parts@[i]@);
                            if i < m as int - 1 {
                                assert(fmt_str_parts@[i] == ofsp[i]);
                                assert(target[i] == oldp[i]);
                            } else {
                                assert(fmt_str_parts@[i] == last_part);
                            }
                        }
                        assert(curr =~= target);
                    }
                    self.fragments.push(FormatStrFragment::Fmt { fmt_str_parts, args });
                    proof {
                        assert(self@ =~= spec_add_newline(old(self)@));
                        lemma_add_newline_shaped(old(self)@);
                        if frags_balanced(old(self)@) {
                            lemma_add_newline_balanced(old(self)@);
                        }
                    }
                },
                _ => {
                    proof {
                        assert(false);
                    }
                },
            }
        } else {
            let mut parts: Vec<Vec<u8>> = Vec::new();
            let mut nl: Vec<u8> = Vec::new();
            nl.push(10u8);
            parts.push(nl);
            let args: Vec<ArgRef> = Vec::new();
            self.fragments.push(FormatStrFragment::Fmt { fmt_str_parts: parts, args });
            proof {
                assert(parts@.map_values(|p: Vec<u8>| p@) =~= seq![seq![10u8]]);
                assert(args@.map_values(|a: ArgRef| a@) =~= Seq::<ArgRefV>::empty());
                assert(self@ =~= spec_add_newline(old(self)@));
                lemma_add_newline_shaped(old(self)@);
                if frags_balanced(old(self)@) {
                    lemma_add_newline_balanced(old(self)@);
                }
            }
        }
    }
}

/// Appending a newline keeps every text fragment well shaped.
proof fn lemma_add_newline_shaped(frags: Seq<FragV>)
    requires
        frags_shaped(frags),
    ensures
        frags_shaped(spec_add_newline(frags)),
{
    let r = spec_add_newline(frags);
    assert forall|i: int| 0 <= i < r.len() implies (#[trigger] r[i] matches FragV::Fmt {
        parts,
        args,
    } ==> parts.len() == args.len() + 1) by {
        if i < frags.len() - 1 {
            assert(r[i] == frags[i]);
        }
    }
}

/// Text appended at the end changes no nesting depth.
proof fn lemma_add_newline_balanced(frags: Seq<FragV>)
    requires
        frags_balanced(frags),
    ensures
        frags_balanced(spec_add_newline(frags)),
{
    let r = spec_add_newline(frags);
    assert forall|n: int| 0 <= n <= r.len() implies #[trigger] depth_after(r, n) >= 0 by {
        lemma_depth_after_agrees(frags, r, n);
    }
    lemma_depth_after_agrees(frags, r, r.len() as int);
}

/// Appending or extending trailing text changes no nesting depth.
proof fn lemma_depth_after_agrees(a: Seq<FragV>, b: Seq<FragV>, n: int)
    requires
        0 <= n <= b.len(),
        b == spec_add_newline(a),
        frags_balanced(a),
    ensures
        depth_after(b, n) >= 0,
        n == b.len() ==> depth_after(b, n) == 0,
    decreases n,
{
    lemma_depth_prefix(a, b, n);
    if n <= a.len() {
        assert(depth_after(a, n) >= 0);
    } else {
        assert(depth_after(a, a.len() as int) == 0);
    }
}

/// The depth after `n` fragments of the extended sequence equals the
/// depth of the original at the corresponding point: the touched
/// fragment is text and carries no depth change.
proof fn lemma_depth_prefix(a: Seq<FragV>, b: Seq<FragV>, n: int)
    requires
        b == spec_add_newline(a),
        0 <= n <= b.len(),
    ensures
        depth_after(b, n) == depth_after(a, if n <= a.len() { n } else { a.len() as int }),
    decreases n,
{
    if n > 0 {
        lemma_depth_prefix(a, b, n - 1);
    }
}

} // verus!
