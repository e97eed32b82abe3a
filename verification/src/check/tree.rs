//! The parsed document a check program is evaluated against, and the
//! diagnostics that come out.
use vstd::prelude::*;
use vstd::string::*;

use crate::text::same_text;

verus! {

/// A half-open byte range of the source text.
#[derive(Debug, Clone, Copy, PartialEq, Eq, Structural)]
pub struct Span {
    /// First byte of the range.
    pub start: usize,
    /// One past the last byte.
    pub end: usize,
}

impl Span {
    /// Builds the range `start..end`.
    pub fn new(start: usize, end: usize) -> (out: Self)
        ensures
            out == (Span { start, end }),
    {
        Span { start, end }
    }
}

/// A payload value as a front-end hands it over.
#[derive(Debug, PartialEq, Eq)]
pub enum RawValue {
    /// The decoded body of a literal in a text document.
    Text(String),
    /// A JSON value, in compact notation.
    Json(String),
}

/// The mathematical shape of a [`RawValue`].
pub enum SpecRaw {
    Text(Seq<char>),
    Json(Seq<char>),
}

impl View for RawValue {
    type V = SpecRaw;

    open spec fn view(&self) -> SpecRaw {
        match self {
            RawValue::Text(text) => SpecRaw::Text(text@),
            RawValue::Json(text) => SpecRaw::Json(text@),
        }
    }
}

/// One node of a parsed document.
#[derive(Debug, PartialEq, Eq)]
pub struct ParseTree {
    /// Variant name of the node.
    pub variant: String,
    /// Payload fields, by name.
    pub fields: Vec<(String, RawValue)>,
    /// Positional child slots, by name.
    pub children: Vec<(String, Vec<ParseTree>)>,
    /// Keyed child slots, by name and then by key.
    pub keyed_children: Vec<(String, Vec<(String, ParseTree)>)>,
    /// Source position, where the front-end tracks one.
    pub span: Option<Span>,
}

/// The mathematical shape of a [`ParseTree`].
pub struct SpecTree {
    pub variant: Seq<char>,
    pub fields: Seq<(Seq<char>, SpecRaw)>,
    pub children: Seq<(Seq<char>, Seq<SpecTree>)>,
    pub keyed_children: Seq<(Seq<char>, Seq<(Seq<char>, SpecTree)>)>,
    pub span: Option<Span>,
}

/// The views of the payload fields.
pub open spec fn fields_view(fs: Seq<(String, RawValue)>) -> Seq<(Seq<char>, SpecRaw)> {
    Seq::new(fs.len(), |i: int| (fs[i].0@, fs[i].1@))
}

pub open spec fn tree_view(t: ParseTree) -> SpecTree
    decreases t, 0int,
{
    SpecTree {
        variant: t.variant@,
        fields: fields_view(t.fields@),
        children: slots_of(t.children@),
        keyed_children: keyed_slots_of(t.keyed_children@),
        span: t.span,
    }
}

/// The views of a sequence of trees.
pub open spec fn trees_view(ts: Seq<ParseTree>) -> Seq<SpecTree>
    decreases ts, 0int,
{
    Seq::new(
        ts.len(),
        |i: int|
            if 0 <= i < ts.len() {
                tree_view(ts[i])
            } else {
                arbitrary()
            },
    )
}

/// The views of the positional child slots.
pub open spec fn slots_of(cs: Seq<(String, Vec<ParseTree>)>) -> Seq<(Seq<char>, Seq<SpecTree>)>
    decreases cs, 0int,
{
    Seq::new(
        cs.len(),
        |i: int|
            if 0 <= i < cs.len() {
                (cs[i].0@, trees_view(cs[i].1@))
            } else {
                arbitrary()
            },
    )
}

/// The views of the entries of one keyed slot.
pub open spec fn entries_view(es: Seq<(String, ParseTree)>) -> Seq<(Seq<char>, SpecTree)>
    decreases es, 0int,
{
    Seq::new(
        es.len(),
        |i: int|
            if 0 <= i < es.len() {
                (es[i].0@, tree_view(es[i].1))
            } else {
                arbitrary()
            },
    )
}

/// The views of the keyed child slots.
pub open spec fn keyed_slots_of(cs: Seq<(String, Vec<(String, ParseTree)>)>) -> Seq<
    (Seq<char>, Seq<(Seq<char>, SpecTree)>),
>
    decreases cs, 0int,
{
    Seq::new(
        cs.len(),
        |i: int|
            if 0 <= i < cs.len() {
                (cs[i].0@, entries_view(cs[i].1@))
            } else {
                arbitrary()
            },
    )
}

impl View for ParseTree {
    type V = SpecTree;

    open spec fn view(&self) -> SpecTree {
        tree_view(*self)
    }
}

/// The first field called `name`.
pub open spec fn field_of(fs: Seq<(Seq<char>, SpecRaw)>, name: Seq<char>) -> Option<SpecRaw>
    decreases fs.len(),
{
    if fs.len() == 0 {
        None
    } else if fs[0].0 == name {
        Some(fs[0].1)
    } else {
        field_of(fs.skip(1), name)
    }
}

impl ParseTree {
    /// A node with nothing but a variant name.
    pub fn new(variant: &str) -> (out: Self)
        ensures
            out@ == (SpecTree {
                variant: variant@,
                fields: Seq::empty(),
                children: Seq::empty(),
                keyed_children: Seq::empty(),
                span: None,
            }),
    {
        let out = ParseTree {
            variant: variant.to_owned(),
            fields: Vec::new(),
            children: Vec::new(),
            keyed_children: Vec::new(),
            span: None,
        };
        assert(out@.fields =~= Seq::empty());
        assert(out@.children =~= Seq::empty());
        assert(out@.keyed_children =~= Seq::empty());
        out
    }

    /// The payload field called `name`, if the node carries one.
    pub fn field<'a>(&'a self, name: &str) -> (out: Option<&'a RawValue>)
        ensures
            match out {
                Some(v) => field_of(self@.fields, name@) == Some(v@),
                None => field_of(self@.fields, name@) is None,
            },
    {
        let ghost all = self@.fields;
        assert(all.skip(0) =~= all);
        for i in 0..self.fields.len()
            invariant
                all == self@.fields,
                field_of(all, name@) == field_of(all.skip(i as int), name@),
        {
            let f = &self.fields[i];
            proof {
                let rest = all.skip(i as int);
                assert(rest[0] == (f.0@, f.1@));
                assert(rest.skip(1) =~= all.skip(i + 1));
            }
            if same_text(&f.0, name) {
                return Some(&f.1);
            }
        }
        None
    }
}

/// How bad a diagnostic is.
#[derive(Debug, Clone, Copy, PartialEq, Eq, Structural)]
pub enum Severity {
    /// The document or program is wrong.
    Error,
    /// The program is suspicious.
    Warning,
}

/// Where a diagnostic points.
#[derive(Debug, Clone, Copy, PartialEq, Eq, Structural)]
pub enum Location {
    /// Nowhere in particular.
    Nowhere,
    /// A byte range of the source text.
    Span(Span),
}

/// One finding about a document or a program.
#[derive(Debug, PartialEq, Eq)]
pub struct Diagnostic {
    /// Error or warning.
    pub severity: Severity,
    /// Stable slug.
    pub code: String,
    /// Human-facing text.
    pub message: String,
    /// Where it points.
    pub location: Location,
}

/// The mathematical shape of a [`Diagnostic`].
pub struct SpecDiagnostic {
    pub severity: Severity,
    pub code: Seq<char>,
    pub message: Seq<char>,
    pub location: Location,
}

impl View for Diagnostic {
    type V = SpecDiagnostic;

    open spec fn view(&self) -> SpecDiagnostic {
        SpecDiagnostic {
            severity: self.severity,
            code: self.code@,
            message: self.message@,
            location: self.location,
        }
    }
}

/// The views of a sequence of diagnostics.
pub open spec fn diags_view(ds: Seq<Diagnostic>) -> Seq<SpecDiagnostic> {
    Seq::new(ds.len(), |i: int| ds[i]@)
}

impl Diagnostic {
    /// An error that points nowhere.
    pub fn error(code: &str, message: String) -> (out: Self)
        ensures
            out@ == (SpecDiagnostic {
                severity: Severity::Error,
                code: code@,
                message: message@,
                location: Location::Nowhere,
            }),
    {
        Diagnostic { severity: Severity::Error, code: code.to_owned(), message, location: Location::Nowhere }
    }

    /// A warning that points nowhere.
    pub fn warning(code: &str, message: String) -> (out: Self)
        ensures
            out@ == (SpecDiagnostic {
                severity: Severity::Warning,
                code: code@,
                message: message@,
                location: Location::Nowhere,
            }),
    {
        Diagnostic { severity: Severity::Warning, code: code.to_owned(), message, location: Location::Nowhere }
    }

    /// The same diagnostic, pointing at `span` where there is one.
    pub fn with_span(self, span: Option<Span>) -> (out: Self)
        ensures
            out@ == (SpecDiagnostic {
                location: match span {
                    Some(s) => Location::Span(s),
                    None => self@.location,
                },
                ..self@
            }),
    {
        let mut out = self;
        match span {
            Some(s) => {
                out.location = Location::Span(s);
            },
            None => {},
        }
        out
    }
}

} // verus!
