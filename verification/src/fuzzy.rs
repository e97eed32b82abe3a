//! A suggester that ranks candidates by string similarity.
use vstd::prelude::*;
use vstd::multiset::Multiset;

use crate::suggest::{suggestions_view, SpecSuggestion, Suggester, Suggestion};
use crate::text::strs_view;

pub mod laws;

verus! {

/// Bit pattern of the Jaro-Winkler similarity of two texts.
pub uninterp spec fn jaro_winkler_bits(a: Seq<char>, b: Seq<char>) -> u64;

/// Bit pattern of the Levenshtein similarity of two texts.
pub uninterp spec fn levenshtein_bits(a: Seq<char>, b: Seq<char>) -> u64;

/// Bit pattern of the Damerau-Levenshtein similarity of two texts.
pub uninterp spec fn damerau_bits(a: Seq<char>, b: Seq<char>) -> u64;

/// `strsim::jaro_winkler`, as a bit pattern. It depends on the characters of
/// the two texts alone and lies between zero and one.
#[verifier::external_body]
fn jaro_winkler(a: &str, b: &str) -> (bits: u64)
    ensures
        bits == jaro_winkler_bits(a@, b@),
{
    strsim::jaro_winkler(a, b).to_bits()
}

/// `strsim::normalized_levenshtein`, as a bit pattern: one minus the edit
/// distance over the length of the longer text, and one for two empty texts.
/// It depends on the characters of the two texts alone.
#[verifier::external_body]
fn normalized_levenshtein(a: &str, b: &str) -> (bits: u64)
    ensures
        bits == levenshtein_bits(a@, b@),
{
    strsim::normalized_levenshtein(a, b).to_bits()
}

/// `strsim::normalized_damerau_levenshtein`, as a bit pattern: one minus the
/// edit distance over the length of the longer text, and one for two empty
/// texts. It depends on the characters of the two texts alone.
#[verifier::external_body]
fn normalized_damerau(a: &str, b: &str) -> (bits: u64)
    ensures
        bits == damerau_bits(a@, b@),
{
    strsim::normalized_damerau_levenshtein(a, b).to_bits()
}

/// String-similarity algorithm used by [`FuzzySuggester`].
#[derive(Debug, Clone, Copy, PartialEq, Eq, Structural)]
pub enum Algorithm {
    /// Jaro-Winkler similarity; favours matching prefixes.
    JaroWinkler,
    /// Levenshtein edit distance over the length of the longer text.
    Levenshtein,
    /// Levenshtein plus adjacent transpositions.
    DamerauLevenshtein,
}

impl Default for Algorithm {
    fn default() -> (out: Self)
        ensures
            out == Algorithm::JaroWinkler,
    {
        Algorithm::JaroWinkler
    }
}

/// Bit pattern of seven tenths, the smallest similarity reported by default.
pub const DEFAULT_THRESHOLD: u64 = 0x3fe6_6666_6666_6666;

/// Configuration for [`FuzzySuggester`].
#[derive(Debug, Clone, Copy, PartialEq, Eq, Structural)]
pub struct SuggestOptions {
    /// Algorithm used to score candidates.
    pub algorithm: Algorithm,
    /// Bit pattern of the smallest similarity that is reported.
    pub threshold: u64,
    /// Largest number of candidates that is reported.
    pub max_results: usize,
}

impl Default for SuggestOptions {
    fn default() -> (out: Self)
        ensures
            out == (SuggestOptions {
                algorithm: Algorithm::JaroWinkler,
                threshold: DEFAULT_THRESHOLD,
                max_results: 3,
            }),
    {
        SuggestOptions {
            algorithm: Algorithm::JaroWinkler,
            threshold: DEFAULT_THRESHOLD,
            max_results: 3,
        }
    }
}

/// A [`Suggester`] backed by string similarity.
#[derive(Debug, Clone, Copy, PartialEq, Eq, Structural)]
pub struct FuzzySuggester {
    opts: SuggestOptions,
}

impl View for FuzzySuggester {
    type V = SuggestOptions;

    closed spec fn view(&self) -> SuggestOptions {
        self.opts
    }
}

impl Default for FuzzySuggester {
    fn default() -> (out: Self)
        ensures
            out@ == (SuggestOptions {
                algorithm: Algorithm::JaroWinkler,
                threshold: DEFAULT_THRESHOLD,
                max_results: 3,
            }),
    {
        FuzzySuggester { opts: SuggestOptions::default() }
    }
}

/// Bit pattern of positive infinity, the largest magnitude of a number.
pub const LARGEST: u64 = 0x7ff0_0000_0000_0000;

/// Bit pattern of negative zero. The bits above it are those of the negative
/// numbers, in the order of their magnitude.
pub const NEGATIVE_ZERO: u64 = 0x8000_0000_0000_0000;

/// The magnitude of a bit pattern.
pub open spec fn magnitude(bits: u64) -> int {
    if bits < NEGATIVE_ZERO {
        bits as int
    } else {
        bits - NEGATIVE_ZERO
    }
}

/// Where a bit pattern stands among the numbers. The two zeros stand at the
/// same place.
pub open spec fn standing(bits: u64) -> int {
    if bits < NEGATIVE_ZERO {
        magnitude(bits)
    } else {
        -magnitude(bits)
    }
}

/// Whether a bit pattern is that of a number.
pub open spec fn is_number(bits: u64) -> bool {
    magnitude(bits) <= LARGEST
}

/// Whether the number of one bit pattern is at least that of another, as
/// floating-point numbers compare: nothing that is no number compares.
pub open spec fn at_least(a: u64, b: u64) -> bool {
    is_number(a) && is_number(b) && standing(a) >= standing(b)
}

/// Whether the number of one bit pattern is at least that of another.
pub fn reaches(a: u64, b: u64) -> (out: bool)
    ensures
        out == at_least(a, b),
{
    let below_a: bool = a >= NEGATIVE_ZERO;
    let below_b: bool = b >= NEGATIVE_ZERO;
    let size_a: u64 = if below_a {
        a - NEGATIVE_ZERO
    } else {
        a
    };
    let size_b: u64 = if below_b {
        b - NEGATIVE_ZERO
    } else {
        b
    };
    if size_a > LARGEST || size_b > LARGEST {
        false
    } else if below_a && below_b {
        size_a <= size_b
    } else if below_a {
        size_a == 0 && size_b == 0
    } else if below_b {
        true
    } else {
        size_a >= size_b
    }
}

/// The bit pattern of the similarity of two texts.
pub open spec fn similarity(algorithm: Algorithm, a: Seq<char>, b: Seq<char>) -> u64 {
    match algorithm {
        Algorithm::JaroWinkler => jaro_winkler_bits(a, b),
        Algorithm::Levenshtein => levenshtein_bits(a, b),
        Algorithm::DamerauLevenshtein => damerau_bits(a, b),
    }
}

/// Every candidate with its similarity to `query`.
pub open spec fn scored(
    algorithm: Algorithm,
    query: Seq<char>,
    candidates: Seq<Seq<char>>,
) -> Seq<SpecSuggestion> {
    Seq::new(
        candidates.len(),
        |i: int|
            SpecSuggestion {
                candidate: candidates[i],
                score: similarity(algorithm, query, candidates[i]),
            },
    )
}

/// `ranked` with `s` put behind everything that scores at least as high.
pub open spec fn insert_ranked(ranked: Seq<SpecSuggestion>, s: SpecSuggestion) -> Seq<
    SpecSuggestion,
>
    decreases ranked.len(),
{
    if ranked.len() == 0 || at_least(ranked.last().score, s.score) {
        ranked.push(s)
    } else {
        insert_ranked(ranked.drop_last(), s).push(ranked.last())
    }
}

/// The suggestions that reach `threshold`, the highest score first and equal
/// scores in their given order.
pub open spec fn ranking(ss: Seq<SpecSuggestion>, threshold: u64) -> Seq<SpecSuggestion>
    decreases ss.len(),
{
    if ss.len() == 0 {
        Seq::empty()
    } else {
        let before = ranking(ss.drop_last(), threshold);
        if at_least(ss.last().score, threshold) {
            insert_ranked(before, ss.last())
        } else {
            before
        }
    }
}

/// The first `n` suggestions.
pub open spec fn truncated(ss: Seq<SpecSuggestion>, n: usize) -> Seq<SpecSuggestion> {
    if ss.len() <= n {
        ss
    } else {
        ss.take(n as int)
    }
}

/// The suggestions that `opts` asks for.
pub open spec fn fuzzy_suggestions(
    opts: SuggestOptions,
    query: Seq<char>,
    candidates: Seq<Seq<char>>,
) -> Seq<SpecSuggestion> {
    truncated(
        ranking(scored(opts.algorithm, query, candidates), opts.threshold),
        opts.max_results,
    )
}

/// The suggestions that a ranking may hold.
pub open spec fn reaching(ss: Seq<SpecSuggestion>, threshold: u64) -> Multiset<SpecSuggestion> {
    ss.to_multiset().filter(|s: SpecSuggestion| at_least(s.score, threshold))
}

/// Whether scores never rise from one suggestion to the next.
pub open spec fn descending(ss: Seq<SpecSuggestion>) -> bool {
    forall|i: int, j: int| 
        0 <= i <= j < ss.len() ==> at_least((#[trigger] ss[i]).score, (#[trigger] ss[j]).score)
}

proof fn lemma_insert_ranked(ranked: Seq<SpecSuggestion>, s: SpecSuggestion)
    requires
        descending(ranked),
        is_number(s.score),
    ensures
        descending(insert_ranked(ranked, s)),
        insert_ranked(ranked, s).to_multiset() == ranked.to_multiset().insert(s),
        forall|i: int|
            0 <= i < insert_ranked(ranked, s).len() ==> (#[trigger] insert_ranked(ranked, s)[i]) == s
                || ranked.contains(insert_ranked(ranked, s)[i]),
    decreases ranked.len(),
{
    broadcast use vstd::seq_lib::group_to_multiset_ensures;

    if ranked.len() == 0 || at_least(ranked.last().score, s.score) {
        let out = ranked.push(s);
        assert forall|i: int| 0 <= i < out.len() implies (#[trigger] out[i]) == s
            || ranked.contains(out[i]) by {
            if i < ranked.len() {
                assert(out[i] == ranked[i]);
            }
        }
    } else {
        let init = ranked.drop_last();
        lemma_insert_ranked(init, s);
        let part = insert_ranked(init, s);
        let out = part.push(ranked.last());
        assert(init.push(ranked.last()) =~= ranked);
        assert(out.to_multiset() =~= ranked.to_multiset().insert(s));
        assert(at_least(ranked[ranked.len() - 1].score, ranked[ranked.len() - 1].score));
        assert forall|i: int| 0 <= i < part.len() implies at_least(
            (#[trigger] part[i]).score,
            ranked.last().score,
        ) by {
            if part[i] != s {
                assert(init.contains(part[i]));
                let k = choose|k: int| 0 <= k < init.len() && init[k] == part[i];
                assert(ranked[k] == part[i]);
            }
        }
        assert forall|i: int, j: int| 0 <= i <= j < out.len() implies at_least(
            (#[trigger] out[i]).score,
            (#[trigger] out[j]).score,
        ) by {
            if j < part.len() {
                assert(out[i] == part[i] && out[j] == part[j]);
            } else if i < part.len() {
                assert(out[i] == part[i]);
            }
        }
        assert forall|i: int| 0 <= i < out.len() implies (#[trigger] out[i]) == s
            || ranked.contains(out[i]) by {
            if i < part.len() {
                assert(out[i] == part[i]);
                if part[i] != s {
                    let k = choose|k: int| 0 <= k < init.len() && init[k] == part[i];
                    assert(ranked[k] == part[i]);
                }
            } else {
                assert(ranked[ranked.len() - 1] == out[i]);
            }
        }
    }
}

/// A ranking holds exactly the suggestions that reach the threshold, from the
/// highest score to the lowest.
pub proof fn law_ranking_is_sorted_and_complete(ss: Seq<SpecSuggestion>, threshold: u64)
    ensures
        descending(ranking(ss, threshold)),
        ranking(ss, threshold).to_multiset() == reaching(ss, threshold),
    decreases ss.len(),
{
    broadcast use vstd::seq_lib::group_to_multiset_ensures;

    if ss.len() == 0 {
        assert(ranking(ss, threshold).to_multiset() =~= reaching(ss, threshold));
    } else {
        let init = ss.drop_last();
        law_ranking_is_sorted_and_complete(init, threshold);
        assert(init.push(ss.last()) =~= ss);
        if at_least(ss.last().score, threshold) {
            lemma_insert_ranked(ranking(init, threshold), ss.last());
        }
        assert(ranking(ss, threshold).to_multiset() =~= reaching(ss, threshold));
    }
}

impl FuzzySuggester {
    /// A suggester with explicit options.
    pub fn new(opts: SuggestOptions) -> (out: Self)
        ensures
            out@ == opts,
    {
        FuzzySuggester { opts }
    }

    /// The same suggester with another algorithm.
    pub fn with_algorithm(self, algorithm: Algorithm) -> (out: Self)
        ensures
            out@ == (SuggestOptions { algorithm, ..self@ }),
    {
        FuzzySuggester { opts: SuggestOptions { algorithm, ..self.opts } }
    }

    /// The same suggester with another threshold, given by its bit pattern.
    pub fn with_threshold(self, threshold: u64) -> (out: Self)
        ensures
            out@ == (SuggestOptions { threshold, ..self@ }),
    {
        FuzzySuggester { opts: SuggestOptions { threshold, ..self.opts } }
    }

    /// The same suggester with another number of results.
    pub fn with_max_results(self, max_results: usize) -> (out: Self)
        ensures
            out@ == (SuggestOptions { max_results, ..self@ }),
    {
        FuzzySuggester { opts: SuggestOptions { max_results, ..self.opts } }
    }

    /// Bit pattern of the similarity of two texts.
    pub fn score(&self, a: &str, b: &str) -> (out: u64)
        ensures
            out == similarity(self@.algorithm, a@, b@),
    {
        match self.opts.algorithm {
            Algorithm::JaroWinkler => jaro_winkler(a, b),
            Algorithm::Levenshtein => normalized_levenshtein(a, b),
            Algorithm::DamerauLevenshtein => normalized_damerau(a, b),
        }
    }
}

/// Puts `s` behind everything that scores at least as high.
fn insert_by_score<'a>(ranked: &mut Vec<Suggestion<'a>>, s: Suggestion<'a>)
    ensures
        suggestions_view(final(ranked)@) == insert_ranked(suggestions_view(old(ranked)@), s@),
{
    let ghost before = suggestions_view(ranked@);
    let mut at: usize = ranked.len();
    assert(before.take(at as int) =~= before);
    assert(insert_ranked(before, s@) + before.skip(at as int) =~= insert_ranked(before, s@));
    while at > 0
        invariant_except_break
            at <= ranked.len(),
            ranked@ == old(ranked)@,
            before == suggestions_view(ranked@),
            insert_ranked(before, s@) == insert_ranked(before.take(at as int), s@) + before.skip(
                at as int,
            ),
        ensures
            at <= ranked.len(),
            ranked@ == old(ranked)@,
            before == suggestions_view(ranked@),
            insert_ranked(before, s@) == before.take(at as int).push(s@) + before.skip(at as int),
        decreases at,
    {
        let ghost front = before.take(at as int);
        assert(front.last() == ranked@[at - 1]@);
        if reaches(ranked[at - 1].score, s.score) {
            break;
        }
        proof {
            assert(front.drop_last() =~= before.take(at - 1));
            assert(insert_ranked(before.take(at - 1), s@).push(front.last()) + before.skip(
                at as int,
            ) =~= insert_ranked(before.take(at - 1), s@) + before.skip(at - 1));
        }
        at -= 1;
    }
    ranked.insert(at, s);
    assert(suggestions_view(ranked@) =~= before.take(at as int).push(s@) + before.skip(at as int));
}

/// Ranks already scored candidates: those that reach `threshold`, the highest
/// score first, at most `max_results` of them.
pub fn rank<'a>(
    scored: &Vec<Suggestion<'a>>,
    threshold: u64,
    max_results: usize,
) -> (out: Vec<Suggestion<'a>>)
    ensures
        suggestions_view(out@) == truncated(
            ranking(suggestions_view(scored@), threshold),
            max_results,
        ),
{
    let mut out: Vec<Suggestion<'a>> = Vec::new();
    let ghost all = suggestions_view(scored@);
    assert(suggestions_view(out@) =~= ranking(all.take(0), threshold));
    for i in 0..scored.len()
        invariant
            all == suggestions_view(scored@),
            suggestions_view(out@) == ranking(all.take(i as int), threshold),
    {
        let s = scored[i];
        proof {
            let done = all.take(i + 1);
            assert(done.drop_last() =~= all.take(i as int));
            assert(done.last() == s@);
        }
        if reaches(s.score, threshold) {
            insert_by_score(&mut out, s);
        }
    }
    assert(all.take(all.len() as int) =~= all);
    let ghost full = out@;
    out.truncate(max_results);
    assert(suggestions_view(out@) =~= truncated(suggestions_view(full), max_results));
    out
}

impl Suggester for FuzzySuggester {
    open spec fn may_suggest(
        &self,
        query: Seq<char>,
        candidates: Seq<Seq<char>>,
        out: Seq<SpecSuggestion>,
    ) -> bool {
        out == fuzzy_suggestions(self@, query, candidates)
    }

    fn suggest<'a>(&self, query: &str, candidates: &Vec<&'a str>) -> (out: Vec<Suggestion<'a>>) {
        let mut all: Vec<Suggestion<'a>> = Vec::new();
        for i in 0..candidates.len()
            invariant
                all@.len() == i,
                forall|j: int|
                    0 <= j < i ==> (#[trigger] all@[j])@ == (SpecSuggestion {
                        candidate: candidates@[j]@,
                        score: similarity(self@.algorithm, query@, candidates@[j]@),
                    }),
        {
            let candidate = candidates[i];
            let score = self.score(query, candidate);
            all.push(Suggestion { candidate, score });
        }
        assert(suggestions_view(all@) =~= scored(
            self@.algorithm,
            query@,
            strs_view(candidates@),
        ));
        rank(&all, self.opts.threshold, self.opts.max_results)
    }
}

} // verus!
