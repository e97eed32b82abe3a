//! Paths, labels and message templates.
use vstd::prelude::*;
use vstd::string::*;

use crate::check::ir::term_text;
use crate::check::tree::Span;
use crate::check::unify::{applied, apply, BindMap, Bindings};
use crate::text::{
    chars_of, decimal, find_char, find_from, push_decimal, same_text, slice_text,
};

verus! {

/// `steps[3]`, `steps[3].argv[0]`, `env[LOG]`: the trail a walk keeps so that
/// a document without positions still gets an anchor.
pub open spec fn child_path_text(
    parent: Seq<char>,
    slot: Seq<char>,
    index: Seq<char>,
) -> Seq<char> {
    if parent.len() == 0 {
        slot + "["@ + index + "]"@
    } else {
        parent + "."@ + slot + "["@ + index + "]"@
    }
}

/// The path of the child `index` of `slot` below `parent`.
pub fn child_path(parent: &str, slot: &str, index: &str) -> (out: String)
    ensures
        out@ == child_path_text(parent@, slot@, index@),
{
    let mut out = String::new();
    if !parent.is_empty() {
        out.append(parent);
        out.append(".");
    }
    out.append(slot);
    out.append("[");
    out.append(index);
    out.append("]");
    assert(out@ =~= child_path_text(parent@, slot@, index@));
    out
}

/// `steps[1] (bytes 12..24)` with a span, `steps[1]` without one; the root of
/// the document reads `(root)`.
pub open spec fn label_text(path: Seq<char>, span: Option<Span>) -> Seq<char> {
    let name = if path.len() == 0 {
        "(root)"@
    } else {
        path
    };
    match span {
        Some(span) => name + " (bytes "@ + decimal(span.start as nat) + ".."@ + decimal(
            span.end as nat,
        ) + ")"@,
        None => name,
    }
}

/// The label of the node at `path`.
pub fn location_label(path: &str, span: Option<Span>) -> (out: String)
    ensures
        out@ == label_text(path@, span),
{
    let mut out = if path.is_empty() {
        "(root)".to_owned()
    } else {
        path.to_owned()
    };
    if let Some(span) = span {
        out.append(" (bytes ");
        push_decimal(&mut out, span.start as u64);
        out.append("..");
        push_decimal(&mut out, span.end as u64);
        out.append(")");
        assert(out@ =~= label_text(path@, Some(span)));
    }
    out
}

/// What the holes of a template stand for.
pub struct MsgCtx<'a> {
    /// The child slot under evaluation.
    pub slot: Option<&'a str>,
    /// The pattern that had to match.
    pub expected: &'a str,
    /// What was there instead.
    pub found: &'a str,
    /// Where that came from.
    pub provenance: &'a str,
    /// The variables bound so far.
    pub bindings: &'a Bindings,
}

/// The mathematical shape of a [`MsgCtx`].
pub struct SpecMsgCtx {
    pub slot: Option<Seq<char>>,
    pub expected: Seq<char>,
    pub found: Seq<char>,
    pub provenance: Seq<char>,
    pub bindings: BindMap,
}

impl<'a> View for MsgCtx<'a> {
    type V = SpecMsgCtx;

    open spec fn view(&self) -> SpecMsgCtx {
        SpecMsgCtx {
            slot: match self.slot {
                Some(s) => Some(s@),
                None => None,
            },
            expected: self.expected@,
            found: self.found@,
            provenance: self.provenance@,
            bindings: self.bindings@,
        }
    }
}

/// What the hole `{hole}` expands to. An unknown hole stays as it is.
pub open spec fn hole_text(hole: Seq<char>, ctx: SpecMsgCtx) -> Seq<char> {
    if hole.len() > 0 && hole[0] == '$' {
        let name = hole.skip(1);
        if ctx.bindings.contains_key(name) {
            term_text(applied(ctx.bindings[name], ctx.bindings))
        } else {
            "?"@
        }
    } else if hole == "slot"@ {
        match ctx.slot {
            Some(slot) => slot,
            None => "?"@,
        }
    } else if hole == "expected"@ {
        ctx.expected
    } else if hole == "found"@ {
        ctx.found
    } else if hole == "provenance"@ {
        ctx.provenance
    } else {
        "{"@ + hole + "}"@
    }
}

/// The text of `template` from position `from` on, with its holes filled. A
/// hole that is never closed stays as it is.
pub open spec fn rendered_from(template: Seq<char>, from: int, ctx: SpecMsgCtx) -> Seq<char>
    decreases template.len() - from,
{
    if from < 0 || from >= template.len() {
        Seq::empty()
    } else {
        let open = find_char(template, '{', from);
        let close = find_char(template, '}', open + 1);
        if from <= open < close < template.len() {
            template.subrange(from, open) + hole_text(template.subrange(open + 1, close), ctx)
                + rendered_from(template, close + 1, ctx)
        } else {
            template.skip(from)
        }
    }
}

/// The text of `template` with its holes filled.
pub open spec fn rendered(template: Seq<char>, ctx: SpecMsgCtx) -> Seq<char> {
    rendered_from(template, 0, ctx)
}

fn push_hole(out: &mut String, cs: &Vec<char>, from: usize, to: usize, ctx: &MsgCtx<'_>)
    requires
        from <= to <= cs.len(),
    ensures
        final(out)@ == old(out)@ + hole_text(cs@.subrange(from as int, to as int), ctx@),
{
    let ghost hole = cs@.subrange(from as int, to as int);
    if from < to && cs[from] == '$' {
        let name = slice_text(cs, from + 1, to);
        assert(name@ =~= hole.skip(1));
        match ctx.bindings.get(name.as_str()) {
            Some(term) => {
                let value = apply(term, ctx.bindings);
                value.push_text(out);
            },
            None => {
                out.append("?");
            },
        }
        return;
    }
    assert(!(hole.len() > 0 && hole[0] == '$'));
    let text = slice_text(cs, from, to);
    if same_text(text.as_str(), "slot") {
        match ctx.slot {
            Some(slot) => {
                out.append(slot);
            },
            None => {
                out.append("?");
            },
        }
    } else if same_text(text.as_str(), "expected") {
        out.append(ctx.expected);
    } else if same_text(text.as_str(), "found") {
        out.append(ctx.found);
    } else if same_text(text.as_str(), "provenance") {
        out.append(ctx.provenance);
    } else {
        out.append("{");
        out.append(text.as_str());
        out.append("}");
        assert(out@ =~= old(out)@ + ("{"@ + hole + "}"@));
    }
}

/// Fills the holes of a message template.
pub fn render_template(template: &str, ctx: &MsgCtx<'_>) -> (out: String)
    ensures
        out@ == rendered(template@, ctx@),
{
    let cs = chars_of(template);
    let mut out = String::new();
    let mut pos: usize = 0;
    assert(Seq::<char>::empty() + rendered(template@, ctx@) =~= rendered(template@, ctx@));
    while pos < cs.len()
        invariant
            pos <= cs.len(),
            cs@ == template@,
            out@ + rendered_from(cs@, pos as int, ctx@) == rendered(template@, ctx@),
        decreases cs.len() - pos,
    {
        let ghost before = out@;
        let open = find_from(&cs, '{', pos);
        if open == cs.len() {
            proof {
                lemma_find_past(cs@, '}', open + 1);
            }
            out.append(slice_text(&cs, pos, open).as_str());
            assert(cs@.subrange(pos as int, open as int) =~= cs@.skip(pos as int));
            return out;
        }
        let close = find_from(&cs, '}', open + 1);
        if close == cs.len() {
            out.append(slice_text(&cs, pos, close).as_str());
            assert(cs@.subrange(pos as int, close as int) =~= cs@.skip(pos as int));
            return out;
        }
        out.append(slice_text(&cs, pos, open).as_str());
        push_hole(&mut out, &cs, open + 1, close, ctx);
        proof {
            let lead = cs@.subrange(pos as int, open as int);
            let hole = hole_text(cs@.subrange(open + 1, close as int), ctx@);
            let rest = rendered_from(cs@, close + 1, ctx@);
            assert(out@ + rest =~= before + (lead + hole + rest));
        }
        pos = close + 1;
    }
    assert(out@ + Seq::<char>::empty() =~= out@);
    out
}

proof fn lemma_find_past(cs: Seq<char>, c: char, from: int)
    requires
        from >= cs.len(),
    ensures
        find_char(cs, c, from) == cs.len(),
{
}

} // verus!
