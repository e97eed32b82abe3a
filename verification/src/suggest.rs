//! "Did you mean" suggestions and structured fixes.
use vstd::prelude::*;
use vstd::string::*;

use crate::ids::NodeId;
use crate::text::{join, join_spec, opt_text, strings_view, strs_view};

verus! {

/// One candidate together with how similar it is to the query.
///
/// The score is the bit pattern of a similarity between zero and one. For
/// numbers that are not negative, bit patterns compare as the numbers do.
#[derive(Debug, Clone, Copy, PartialEq, Eq)]
pub struct Suggestion<'a> {
    /// The candidate itself.
    pub candidate: &'a str,
    /// Bit pattern of the similarity; higher is closer.
    pub score: u64,
}

/// The mathematical shape of a [`Suggestion`].
pub struct SpecSuggestion {
    pub candidate: Seq<char>,
    pub score: u64,
}

impl<'a> View for Suggestion<'a> {
    type V = SpecSuggestion;

    open spec fn view(&self) -> SpecSuggestion {
        SpecSuggestion { candidate: self.candidate@, score: self.score }
    }
}

/// The views of a list of suggestions.
pub open spec fn suggestions_view(ss: Seq<Suggestion>) -> Seq<SpecSuggestion> {
    Seq::new(ss.len(), |i: int| ss[i]@)
}

/// The candidates of the first `n` suggestions.
pub open spec fn top_candidates(ss: Seq<SpecSuggestion>, n: nat) -> Seq<Seq<char>> {
    Seq::new(
        if ss.len() < n {
            ss.len()
        } else {
            n
        },
        |i: int| ss[i].candidate,
    )
}

/// The hint made of a list of suggestions: the closest three by name, and
/// none without a suggestion.
pub open spec fn hint_text(ss: Seq<SpecSuggestion>) -> Option<Seq<char>> {
    if ss.len() == 0 {
        None
    } else {
        Some("did you mean: "@ + join_spec(top_candidates(ss, 3), ", "@))
    }
}

/// Words a list of suggestions as a hint.
pub fn format_hint(ss: &Vec<Suggestion>) -> (out: Option<String>)
    ensures
        opt_text(out) == hint_text(suggestions_view(ss@)),
{
    if ss.len() == 0 {
        return None;
    }
    let mut names: Vec<String> = Vec::new();
    let mut i: usize = 0;
    while i < ss.len() && i < 3
        invariant
            i <= ss.len(),
            i <= 3,
            names@.len() == i,
            forall|j: int| 0 <= j < i ==> (#[trigger] names@[j])@ == ss@[j].candidate@,
        decreases ss.len() - i,
    {
        names.push(ss[i].candidate.to_owned());
        i += 1;
    }
    assert(strings_view(names@) =~= top_candidates(suggestions_view(ss@), 3));
    let mut out = "did you mean: ".to_owned();
    out.append(join(&names, ", ").as_str());
    Some(out)
}

/// Ranks known names by how close they come to an unknown one.
pub trait Suggester: Send + Sync {
    /// The suggestions this suggester may give for `query`.
    spec fn may_suggest(
        &self,
        query: Seq<char>,
        candidates: Seq<Seq<char>>,
        out: Seq<SpecSuggestion>,
    ) -> bool;

    /// Suggestions for `query` among `candidates`, the closest first.
    fn suggest<'a>(&self, query: &str, candidates: &Vec<&'a str>) -> (out: Vec<Suggestion<'a>>)
        ensures
            self.may_suggest(query@, strs_view(candidates@), suggestions_view(out@)),
    ;

    /// A hint to append to a message about the unknown name `query`, and none
    /// just where there is nothing to suggest. An implementation may reword it.
    fn enrich_unknown(&self, query: &str, candidates: &Vec<&str>) -> (out: Option<String>)
        ensures
            exists|ss: Seq<SpecSuggestion>|
                #[trigger] self.may_suggest(query@, strs_view(candidates@), ss) && (ss.len() == 0
                    <==> out is None),
        default_ensures
            exists|ss: Seq<SpecSuggestion>|
                #[trigger] self.may_suggest(query@, strs_view(candidates@), ss) && opt_text(out)
                    == hint_text(ss),
    {
        let ss = self.suggest(query, candidates);
        format_hint(&ss)
    }
}

/// Whether `hint` is what `suggester` says of an unknown name among the known
/// ones.
pub open spec fn says<S: Suggester + ?Sized>(
    suggester: &S,
    query: Seq<char>,
    candidates: Seq<Seq<char>>,
    hint: Option<Seq<char>>,
) -> bool {
    exists|q: &str, names: &Vec<&str>, said: Option<String>|
        #[trigger] call_ensures(S::enrich_unknown, (suggester, q, names), said) && q@ == query
            && strs_view(names@) == candidates && opt_text(said) == hint
}

/// A suggester that never suggests anything.
#[derive(Debug, Clone, Copy, PartialEq, Eq)]
pub struct NoopSuggester;

impl Default for NoopSuggester {
    fn default() -> (out: Self)
        ensures
            out == NoopSuggester,
    {
        NoopSuggester
    }
}

impl Suggester for NoopSuggester {
    open spec fn may_suggest(
        &self,
        query: Seq<char>,
        candidates: Seq<Seq<char>>,
        out: Seq<SpecSuggestion>,
    ) -> bool {
        out.len() == 0
    }

    fn suggest<'a>(&self, _query: &str, _candidates: &Vec<&'a str>) -> (out: Vec<Suggestion<'a>>) {
        Vec::new()
    }

    fn enrich_unknown(&self, query: &str, candidates: &Vec<&str>) -> (out: Option<String>)
        ensures
            out is None,
    {
        assert(self.may_suggest(query@, strs_view(candidates@), Seq::empty()));
        None
    }
}

/// An owned suggester of any kind.
pub struct SuggesterHandle {
    /// The suggester itself.
    pub inner: Box<dyn Suggester>,
}

/// Whether a suggester never has anything to suggest.
pub open spec fn is_silent<S: Suggester + ?Sized>(suggester: &S) -> bool {
    forall|q: Seq<char>, c: Seq<Seq<char>>, ss: Seq<SpecSuggestion>|
        #[trigger] suggester.may_suggest(q, c, ss) ==> ss.len() == 0
}

/// A handle to the suggester that never suggests anything.
pub fn noop_handle() -> (handle: SuggesterHandle)
    ensures
        is_silent(&*handle.inner),
{
    SuggesterHandle { inner: Box::new(NoopSuggester) }
}

/// How safe it is to apply a fix without looking.
#[derive(Debug, Clone, Copy, PartialEq, Eq, Structural)]
pub enum Applicability {
    /// Definitely what was meant.
    MachineApplicable,
    /// Plausible, but a human should look.
    MaybeIncorrect,
    /// Contains placeholders that must be filled in first.
    HasPlaceholders,
}

/// One replacement of a fix.
#[derive(Debug, PartialEq, Eq)]
pub struct PatchPart {
    /// Node the replacement applies to.
    pub node: NodeId,
    /// Field of the node, or the node itself when absent.
    pub path: Option<String>,
    /// Replacement text.
    pub replacement: String,
}

/// The mathematical shape of a [`PatchPart`].
pub struct SpecPatchPart {
    pub node: NodeId,
    pub path: Option<Seq<char>>,
    pub replacement: Seq<char>,
}

impl View for PatchPart {
    type V = SpecPatchPart;

    open spec fn view(&self) -> SpecPatchPart {
        SpecPatchPart {
            node: self.node,
            path: opt_text(self.path),
            replacement: self.replacement@,
        }
    }
}

impl Clone for PatchPart {
    fn clone(&self) -> (out: Self)
        ensures
            out@ == self@,
    {
        PatchPart {
            node: self.node,
            path: match &self.path {
                Some(p) => Some(p.clone()),
                None => None,
            },
            replacement: self.replacement.clone(),
        }
    }
}

impl PatchPart {
    /// Replaces a whole node.
    pub fn node(node: NodeId, replacement: &str) -> (out: Self)
        ensures
            out@ == (SpecPatchPart { node, path: None, replacement: replacement@ }),
    {
        PatchPart { node, path: None, replacement: replacement.to_owned() }
    }

    /// Replaces one field of a node.
    pub fn field(node: NodeId, path: &str, replacement: &str) -> (out: Self)
        ensures
            out@ == (SpecPatchPart { node, path: Some(path@), replacement: replacement@ }),
    {
        PatchPart { node, path: Some(path.to_owned()), replacement: replacement.to_owned() }
    }
}

/// A fix a diagnostic proposes.
#[derive(Debug, PartialEq, Eq)]
pub struct FixSuggestion {
    /// What the fix does.
    pub message: String,
    /// Replacements that make up the fix.
    pub patch: Vec<PatchPart>,
    /// How safe the fix is.
    pub applicability: Applicability,
}

/// The mathematical shape of a [`FixSuggestion`].
pub struct SpecFix {
    pub message: Seq<char>,
    pub patch: Seq<SpecPatchPart>,
    pub applicability: Applicability,
}

/// The views of a list of patch parts.
pub open spec fn parts_view(ps: Seq<PatchPart>) -> Seq<SpecPatchPart> {
    Seq::new(ps.len(), |i: int| ps[i]@)
}

impl View for FixSuggestion {
    type V = SpecFix;

    open spec fn view(&self) -> SpecFix {
        SpecFix {
            message: self.message@,
            patch: parts_view(self.patch@),
            applicability: self.applicability,
        }
    }
}

impl Clone for FixSuggestion {
    fn clone(&self) -> (out: Self)
        ensures
            out@ == self@,
    {
        let mut patch: Vec<PatchPart> = Vec::new();
        for i in 0..self.patch.len()
            invariant
                patch@.len() == i,
                forall|j: int| 0 <= j < i ==> (#[trigger] patch@[j])@ == self.patch@[j]@,
        {
            patch.push(self.patch[i].clone());
        }
        assert(parts_view(patch@) =~= parts_view(self.patch@));
        FixSuggestion {
            message: self.message.clone(),
            patch,
            applicability: self.applicability,
        }
    }
}

impl FixSuggestion {
    /// A fix made of one part.
    pub fn new(message: &str, part: PatchPart, applicability: Applicability) -> (out: Self)
        ensures
            out@ == (SpecFix { message: message@, patch: seq![part@], applicability }),
    {
        let mut patch: Vec<PatchPart> = Vec::new();
        patch.push(part);
        assert(parts_view(patch@) =~= seq![part@]);
        FixSuggestion { message: message.to_owned(), patch, applicability }
    }

    /// The same fix with one more part.
    pub fn with_part(self, part: PatchPart) -> (out: Self)
        ensures
            out@ == (SpecFix { patch: self@.patch.push(part@), ..self@ }),
    {
        let mut out = self;
        out.patch.push(part);
        assert(parts_view(out.patch@) =~= self@.patch.push(part@));
        out
    }
}

} // verus!
