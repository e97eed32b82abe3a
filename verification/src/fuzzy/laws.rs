//! What is suggested: the closest candidates, closest first.
use vstd::prelude::*;

use crate::fuzzy::{
    at_least, damerau_bits, insert_ranked, is_number, jaro_winkler_bits,
    law_ranking_is_sorted_and_complete, levenshtein_bits, ranking, scored, similarity, standing,
    Algorithm, FuzzySuggester, SuggestOptions, LARGEST, NEGATIVE_ZERO,
};
use crate::suggest::{hint_text, SpecSuggestion, Suggester};
use crate::text::join_spec;

verus! {

/// Whether one candidate ranks before another: it scores higher, or the same
/// and comes first.
pub open spec fn ahead(ss: Seq<SpecSuggestion>, i: int, j: int) -> bool {
    standing(ss[i].score) > standing(ss[j].score) || (standing(ss[i].score) == standing(
        ss[j].score,
    ) && i < j)
}

/// Whether positions are all those that reach a threshold, each ahead of the
/// next.
pub open spec fn ranks(
    ss: Seq<SpecSuggestion>,
    n: int,
    threshold: u64,
    at: Seq<int>,
) -> bool {
    &&& forall|a: int, b: int|
        0 <= a < b < at.len() ==> ahead(ss, #[trigger] at[a], #[trigger] at[b])
    &&& forall|k: int|
        0 <= k < at.len() ==> 0 <= #[trigger] at[k] < n && at_least(ss[at[k]].score, threshold)
    &&& forall|j: int|
        0 <= j < n && at_least((#[trigger] ss[j]).score, threshold) ==> at.contains(j)
}

/// Whether suggestions are those at some positions.
pub open spec fn stand_at(
    rs: Seq<SpecSuggestion>,
    ss: Seq<SpecSuggestion>,
    at: Seq<int>,
) -> bool {
    rs.len() == at.len() && forall|k: int| 0 <= k < rs.len() ==> #[trigger] rs[k] == ss[at[k]]
}

/// Where a suggestion is put in.
proof fn lemma_put_in(ranked: Seq<SpecSuggestion>, s: SpecSuggestion) -> (p: int)
    ensures
        0 <= p <= ranked.len(),
        insert_ranked(ranked, s) == ranked.take(p).push(s) + ranked.skip(p),
        p > 0 ==> at_least(ranked[p - 1].score, s.score),
        forall|k: int|
            p <= k < ranked.len() ==> !at_least((#[trigger] ranked[k]).score, s.score),
    decreases ranked.len(),
{
    if ranked.len() == 0 || at_least(ranked.last().score, s.score) {
        let p = ranked.len() as int;
        assert(ranked.take(p).push(s) + ranked.skip(p) =~= ranked.push(s));
        p
    } else {
        let init = ranked.drop_last();
        let p = lemma_put_in(init, s);
        assert(init.take(p) =~= ranked.take(p));
        assert((ranked.take(p).push(s) + init.skip(p)).push(ranked.last()) =~= ranked.take(p).push(
            s,
        ) + ranked.skip(p));
        assert(p > 0 ==> init[p - 1] == ranked[p - 1]);
        assert forall|k: int| p <= k < ranked.len() implies !at_least(
            (#[trigger] ranked[k]).score,
            s.score,
        ) by {
            if k < init.len() {
                assert(init[k] == ranked[k]);
            }
        }
        p
    }
}

proof fn lemma_ranks(ss: Seq<SpecSuggestion>, n: nat, threshold: u64) -> (at: Seq<int>)
    requires
        n <= ss.len(),
    ensures
        ranks(ss, n as int, threshold, at),
        stand_at(ranking(ss.take(n as int), threshold), ss, at),
    decreases n,
{
    let now = ss.take(n as int);
    if n == 0 {
        Seq::empty()
    } else {
        let m = n - 1;
        let before = ss.take(m);
        let at = lemma_ranks(ss, m as nat, threshold);
        let rs = ranking(before, threshold);
        let s = ss[m];
        assert(now.drop_last() =~= before);
        assert(now.last() == s);
        if at_least(s.score, threshold) {
            law_ranking_is_sorted_and_complete(before, threshold);
            let p = lemma_put_in(rs, s);
            let more = at.take(p).push(m) + at.skip(p);
            let out = insert_ranked(rs, s);
            assert(stand_at(out, ss, more)) by {
                assert forall|k: int| 0 <= k < out.len() implies #[trigger] out[k] == ss[more[k]] by {
                    if k < p {
                        assert(out[k] == rs[k]);
                        assert(more[k] == at[k]);
                    } else if k == p {
                        assert(out[k] == s);
                        assert(more[k] == m);
                    } else {
                        assert(out[k] == rs[k - 1]);
                        assert(more[k] == at[k - 1]);
                    }
                }
            }
            assert(ranks(ss, n as int, threshold, more)) by {
                assert forall|a: int, b: int| 0 <= a < b < more.len() implies ahead(
                    ss,
                    #[trigger] more[a],
                    #[trigger] more[b],
                ) by {
                    let ia = if a < p {
                        a
                    } else {
                        a - 1
                    };
                    let ib = if b < p {
                        b
                    } else {
                        b - 1
                    };
                    if a == p {
                        assert(rs[ib] == ss[at[ib]]);
                        assert(!at_least(rs[ib].score, s.score));
                    } else if b == p {
                        assert(rs[ia] == ss[at[ia]]);
                        assert(at_least(rs[ia].score, rs[p - 1].score));
                    } else {
                        assert(ahead(ss, at[ia], at[ib]));
                    }
                }
                assert forall|j: int|
                    0 <= j < n && at_least(
                        (#[trigger] ss[j]).score,
                        threshold,
                    ) implies more.contains(j) by {
                    if j < m {
                        let k = choose|k: int| 0 <= k < at.len() && at[k] == j;
                        if k < p {
                            assert(more[k] == j);
                        } else {
                            assert(more[k + 1] == j);
                        }
                    } else {
                        assert(more[p] == j);
                    }
                }
            }
            more
        } else {
            assert(ranks(ss, n as int, threshold, at));
            at
        }
    }
}

/// Whether suggestions are the best of the candidates, best first: each is a
/// candidate with its similarity, which reaches the threshold; there are as
/// many as there can be; and whatever is left out ranks behind them all.
pub open spec fn are_the_closest(
    opts: SuggestOptions,
    query: Seq<char>,
    candidates: Seq<Seq<char>>,
    out: Seq<SpecSuggestion>,
    at: Seq<int>,
) -> bool {
    let ss = scored(opts.algorithm, query, candidates);
    &&& out.len() == at.len() && out.len() <= opts.max_results
    &&& forall|k: int|
        0 <= k < out.len() ==> {
            &&& 0 <= #[trigger] at[k] < candidates.len()
            &&& out[k].candidate == candidates[at[k]]
            &&& out[k].score == similarity(opts.algorithm, query, candidates[at[k]])
            &&& at_least(out[k].score, opts.threshold)
        }
    &&& forall|a: int, b: int|
        0 <= a < b < at.len() ==> ahead(ss, #[trigger] at[a], #[trigger] at[b])
    &&& forall|j: int|
        #![trigger candidates[j]]
        0 <= j < candidates.len() && at_least(
            similarity(opts.algorithm, query, candidates[j]),
            opts.threshold,
        ) && !at.contains(j) ==> out.len() == opts.max_results && forall|k: int|
            0 <= k < at.len() ==> ahead(ss, #[trigger] at[k], j)
}

/// The suggester suggests the candidates closest to a text, closest first,
/// those as close as each other in their order.
pub proof fn law_the_closest_are_suggested(
    suggester: FuzzySuggester,
    query: Seq<char>,
    candidates: Seq<Seq<char>>,
    out: Seq<SpecSuggestion>,
)
    requires
        suggester.may_suggest(query, candidates, out),
    ensures
        exists|at: Seq<int>| are_the_closest(suggester@, query, candidates, out, at),
{
    let opts = suggester@;
    let ss = scored(opts.algorithm, query, candidates);
    assert(ss.take(ss.len() as int) =~= ss);
    let all = lemma_ranks(ss, ss.len(), opts.threshold);
    let n = out.len() as int;
    let at = all.take(n);
    assert(are_the_closest(opts, query, candidates, out, at)) by {
        assert forall|k: int| 0 <= k < out.len() implies {
            &&& 0 <= #[trigger] at[k] < candidates.len()
            &&& out[k].candidate == candidates[at[k]]
            &&& out[k].score == similarity(opts.algorithm, query, candidates[at[k]])
            &&& at_least(out[k].score, opts.threshold)
        } by {
            assert(at[k] == all[k]);
            assert(out[k] == ranking(ss, opts.threshold)[k]);
        }
        assert forall|j: int|
            #![trigger candidates[j]]
            0 <= j < candidates.len() && at_least(
                similarity(opts.algorithm, query, candidates[j]),
                opts.threshold,
            ) && !at.contains(j) implies out.len() == opts.max_results && forall|k: int|
            0 <= k < at.len() ==> ahead(ss, #[trigger] at[k], j) by {
            assert(at_least(ss[j].score, opts.threshold));
            assert(all.contains(j));
            let q = choose|q: int| 0 <= q < all.len() && all[q] == j;
            if q < n {
                assert(at[q] == j);
            }
            assert forall|k: int| 0 <= k < at.len() implies ahead(ss, #[trigger] at[k], j) by {
                assert(at[k] == all[k]);
                assert(ahead(ss, all[k], all[q]));
            }
        }
    }
}

/// A candidate is scored by the measure that was asked for, the text against
/// the candidate.
pub proof fn law_scores_are_of_the_chosen_measure(query: Seq<char>, candidate: Seq<char>)
    ensures
        similarity(Algorithm::JaroWinkler, query, candidate) == jaro_winkler_bits(
            query,
            candidate,
        ),
        similarity(Algorithm::Levenshtein, query, candidate) == levenshtein_bits(query, candidate),
        similarity(Algorithm::DamerauLevenshtein, query, candidate) == damerau_bits(
            query,
            candidate,
        ),
{
}

/// Scores compare as numbers do: what is no number compares with nothing, the
/// comparison is total and transitive on numbers, positive bit patterns are in
/// order and negative ones in reverse, and the two zeros are equal.
pub proof fn law_scores_compare_as_numbers(a: u64, b: u64, c: u64)
    ensures
        at_least(a, b) ==> is_number(a) && is_number(b),
        is_number(a) && is_number(b) ==> at_least(a, b) || at_least(b, a),
        at_least(a, b) && at_least(b, c) ==> at_least(a, c),
        a <= LARGEST && b <= LARGEST ==> (at_least(a, b) <==> a >= b),
        a <= LARGEST && NEGATIVE_ZERO < b <= NEGATIVE_ZERO + LARGEST ==> at_least(a, b)
            && !at_least(b, a),
        NEGATIVE_ZERO <= a <= NEGATIVE_ZERO + LARGEST && NEGATIVE_ZERO <= b <= NEGATIVE_ZERO
            + LARGEST ==> (at_least(a, b) <==> a <= b),
        at_least(0, NEGATIVE_ZERO) && at_least(NEGATIVE_ZERO, 0),
        LARGEST < a < NEGATIVE_ZERO ==> !at_least(a, a),
        a > NEGATIVE_ZERO + LARGEST ==> !at_least(a, a),
{
}

/// A hint names the first three suggestions, in order, and is missing just
/// where there is none.
pub proof fn law_a_hint_names_the_first_three(ss: Seq<SpecSuggestion>)
    ensures
        hint_text(ss) is None <==> ss.len() == 0,
        ss.len() == 1 ==> hint_text(ss) == Some("did you mean: "@ + ss[0].candidate),
        ss.len() == 2 ==> hint_text(ss) == Some(
            "did you mean: "@ + (ss[0].candidate + ", "@ + ss[1].candidate),
        ),
        ss.len() >= 3 ==> hint_text(ss) == Some(
            "did you mean: "@ + (ss[0].candidate + ", "@ + ss[1].candidate + ", "@
                + ss[2].candidate),
        ),
{
    reveal_with_fuel(join_spec, 4);
    let names = crate::suggest::top_candidates(ss, 3);
    if names.len() >= 1 {
        assert(names[0] == ss[0].candidate);
    }
    if names.len() >= 2 {
        assert(names[1] == ss[1].candidate);
    }
    if names.len() >= 3 {
        assert(names[2] == ss[2].candidate);
        assert(names.drop_last().len() == 2);
        assert(names.drop_last()[1] == names[1]);
        assert(names.drop_last()[0] == names[0]);
    }
}

} // verus!
