//! What tidying the text of a type keeps and what it removes.

use crate::derive::shape::{hugs_left, hugs_right, is_blank, normalized, tidy, words};
use vstd::prelude::*;

verus! {

/// A text without its blanks.
pub open spec fn without_blanks(cs: Seq<char>) -> Seq<char>
    decreases cs.len(),
{
    if cs.len() == 0 {
        cs
    } else if is_blank(cs.last()) {
        without_blanks(cs.drop_last())
    } else {
        without_blanks(cs.drop_last()).push(cs.last())
    }
}

/// Whether a text has no blank at its ends, none but plain spaces inside,
/// and no two of them in a row.
pub open spec fn is_trim(cs: Seq<char>) -> bool {
    &&& cs.len() > 0 ==> !is_blank(cs[0]) && !is_blank(cs.last())
    &&& forall|i: int| 0 <= i < cs.len() && is_blank(#[trigger] cs[i]) ==> cs[i] == ' '
    &&& forall|i: int|
        0 <= i < cs.len() - 1 && is_blank(#[trigger] cs[i]) ==> !is_blank(cs[i + 1])
}

/// Whether a text is a word: not empty, and without a blank.
spec fn solid(w: Seq<char>) -> bool {
    w.len() > 0 && forall|i: int| 0 <= i < w.len() ==> !is_blank(#[trigger] w[i])
}

spec fn all_solid(ws: Seq<Seq<char>>) -> bool {
    forall|i: int| 0 <= i < ws.len() ==> solid(#[trigger] ws[i])
}

/// Words in a row without anything between them.
spec fn run_together(ws: Seq<Seq<char>>) -> Seq<char>
    decreases ws.len(),
{
    if ws.len() == 0 {
        Seq::empty()
    } else {
        run_together(ws.drop_last()) + ws.last()
    }
}

/// Words in a row with a space between any two.
spec fn spaced(ws: Seq<Seq<char>>) -> Seq<char>
    decreases ws.len(),
{
    if ws.len() == 0 {
        Seq::empty()
    } else if ws.len() == 1 {
        ws[0]
    } else {
        spaced(ws.drop_last()).push(' ') + ws.last()
    }
}

/// The first `n` words, each run of touching ones made into one.
spec fn clumps(ws: Seq<Seq<char>>, n: nat) -> Seq<Seq<char>>
    decreases n,
{
    if n == 0 || n > ws.len() {
        Seq::empty()
    } else {
        let before = clumps(ws, (n - 1) as nat);
        let w = ws[n - 1];
        if n > 1 && (hugs_left(w) || hugs_right(ws[n - 2])) {
            before.drop_last().push(before.last() + w)
        } else {
            before.push(w)
        }
    }
}

/// Whether a space stands between two words that follow each other.
spec fn apart(a: Seq<char>, b: Seq<char>) -> bool {
    !hugs_left(b) && !hugs_right(a)
}

spec fn all_apart(ws: Seq<Seq<char>>) -> bool {
    forall|i: int| 0 <= i < ws.len() - 1 ==> apart(#[trigger] ws[i], ws[i + 1])
}

/// A text too long to be one of the words that touch others.
spec fn merged(w: Seq<char>) -> bool {
    w.len() >= 2 && w != "::"@
}

proof fn lemma_touching_words(w: Seq<char>)
    ensures
        hugs_left(w) || hugs_right(w) ==> w == "::"@ || (w.len() == 1 && w[0] != ':'),
        "::"@ == seq![':', ':'],
        merged(w) ==> !hugs_left(w) && !hugs_right(w),
{
    reveal_strlit("<");
    reveal_strlit(">");
    reveal_strlit(",");
    reveal_strlit("::");
    reveal_strlit("(");
    reveal_strlit(")");
    reveal_strlit("&");
    assert("::"@ =~= seq![':', ':']);
}

proof fn lemma_words_are_solid(cs: Seq<char>)
    ensures
        all_solid(words(cs)),
        cs.len() > 0 && !is_blank(cs.last()) ==> words(cs).len() > 0,
    decreases cs.len(),
{
    if cs.len() > 0 {
        lemma_words_are_solid(cs.drop_last());
        if cs.len() > 1 {
            assert(cs.drop_last().last() == cs[cs.len() - 2]);
        }
        let before = words(cs.drop_last());
        if before.len() > 0 {
            assert(solid(before[before.len() - 1]));
        }
    }
}

proof fn lemma_run_is_text(cs: Seq<char>)
    ensures
        run_together(words(cs)) == without_blanks(cs),
    decreases cs.len(),
{
    if cs.len() > 0 {
        lemma_run_is_text(cs.drop_last());
        lemma_words_are_solid(cs.drop_last());
        let before = words(cs.drop_last());
        let c = cs.last();
        if is_blank(c) {
        } else if cs.len() > 1 && !is_blank(cs[cs.len() - 2]) {
            assert(cs.drop_last().last() == cs[cs.len() - 2]);
            let after = before.drop_last().push(before.last().push(c));
            assert(after.drop_last() =~= before.drop_last());
            assert(run_together(after) =~= run_together(before).push(c));
        } else {
            let after = before.push(seq![c]);
            assert(after.drop_last() =~= before);
            assert(run_together(after) =~= run_together(before).push(c));
        }
    }
}

proof fn lemma_blanks_of_sum(a: Seq<char>, b: Seq<char>)
    ensures
        without_blanks(a + b) == without_blanks(a) + without_blanks(b),
    decreases b.len(),
{
    if b.len() == 0 {
        assert(a + b =~= a);
        assert(without_blanks(a) + without_blanks(b) =~= without_blanks(a));
    } else {
        assert((a + b).drop_last() =~= a + b.drop_last());
        lemma_blanks_of_sum(a, b.drop_last());
        assert(without_blanks(a + b) =~= without_blanks(a) + without_blanks(b));
    }
}

proof fn lemma_solid_keeps_all(w: Seq<char>)
    requires
        forall|i: int| 0 <= i < w.len() ==> !is_blank(#[trigger] w[i]),
    ensures
        without_blanks(w) == w,
    decreases w.len(),
{
    if w.len() > 0 {
        let front = w.drop_last();
        assert forall|i: int| 0 <= i < front.len() implies !is_blank(#[trigger] front[i]) by {
            assert(front[i] == w[i]);
        }
        lemma_solid_keeps_all(front);
        assert(front.push(w.last()) =~= w);
    }
}

proof fn lemma_tidy_keeps_words(ws: Seq<Seq<char>>, n: nat)
    requires
        all_solid(ws),
        n <= ws.len(),
    ensures
        without_blanks(tidy(ws, n)) == run_together(ws.take(n as int)),
    decreases n,
{
    if n > 0 {
        let m = (n - 1) as nat;
        lemma_tidy_keeps_words(ws, m);
        let before = tidy(ws, m);
        let w = ws[n - 1];
        assert(ws.take(n as int).drop_last() =~= ws.take(m as int));
        lemma_solid_keeps_all(w);
        lemma_blanks_of_sum(before, w);
        lemma_blanks_of_sum(before.push(' '), w);
        assert(before.push(' ').drop_last() =~= before);
    }
}

proof fn lemma_clumps(ws: Seq<Seq<char>>, n: nat)
    requires
        all_solid(ws),
        0 < n <= ws.len(),
    ensures
        clumps(ws, n).len() > 0,
        all_solid(clumps(ws, n)),
        all_apart(clumps(ws, n)),
        clumps(ws, n).last() == ws[n - 1] || merged(clumps(ws, n).last()),
        tidy(ws, n) == spaced(clumps(ws, n)),
    decreases n,
{
    let after = clumps(ws, n);
    let w = ws[n - 1];
    lemma_touching_words(w);
    reveal_with_fuel(tidy, 2);
    reveal_with_fuel(clumps, 2);
    assert(solid(w));
    if n == 1 {
        assert(after =~= seq![w]);
        assert(tidy(ws, 1) =~= w);
    } else {
        let m = (n - 1) as nat;
        let before = clumps(ws, m);
        let prev = ws[n - 2];
        lemma_clumps(ws, m);
        lemma_touching_words(prev);
        let b = before.last();
        assert(b == before[before.len() - 1]);
        assert(solid(b));
        lemma_touching_words(b);
        if hugs_left(w) || hugs_right(prev) {
            let g = b + w;
            assert(after == before.drop_last().push(g));
            if g.len() == 2 {
                assert(b.len() == 1 && w.len() == 1);
                assert(b == prev);
                assert(g[0] == b[0] && g[1] == w[0]);
            }
            assert(merged(g));
            lemma_touching_words(g);
            assert forall|i: int| 0 <= i < g.len() implies !is_blank(#[trigger] g[i]) by {
                if i < b.len() {
                    assert(g[i] == b[i]);
                } else {
                    assert(g[i] == w[i - b.len()]);
                }
            }
            assert forall|i: int| 0 <= i < after.len() implies solid(#[trigger] after[i]) by {
                if i < after.len() - 1 {
                    assert(after[i] == before[i]);
                }
            }
            assert forall|i: int| 0 <= i < after.len() - 1 implies apart(
                #[trigger] after[i],
                after[i + 1],
            ) by {
                assert(after[i] == before[i]);
                assert(apart(before[i], before[i + 1]));
            }
            assert(after.drop_last() =~= before.drop_last());
            assert(spaced(after) =~= spaced(before) + w);
        } else {
            assert(after == before.push(w));
            assert forall|i: int| 0 <= i < after.len() - 1 implies apart(
                #[trigger] after[i],
                after[i + 1],
            ) by {
                assert(after[i] == before[i]);
                if i < before.len() - 1 {
                    assert(apart(before[i], before[i + 1]));
                }
            }
            assert(after.drop_last() =~= before);
        }
    }
}

proof fn lemma_words_of_next(x: Seq<char>, w: Seq<char>)
    requires
        x.len() == 0 || is_blank(x.last()),
        solid(w),
    ensures
        words(x + w) == words(x).push(w),
    decreases w.len(),
{
    let cs = x + w;
    let c = w.last();
    assert(cs.last() == c);
    assert(!is_blank(w[w.len() - 1]));
    assert(cs.drop_last() =~= x + w.drop_last());
    if w.len() == 1 {
        assert(x + w.drop_last() =~= x);
        assert(w =~= seq![c]);
        if cs.len() > 1 {
            assert(cs[cs.len() - 2] == x.last());
        }
    } else {
        let front = w.drop_last();
        assert forall|i: int| 0 <= i < front.len() implies !is_blank(#[trigger] front[i]) by {
            assert(front[i] == w[i]);
        }
        lemma_words_of_next(x, front);
        assert(cs[cs.len() - 2] == w[w.len() - 2]);
        let before = words(x).push(front);
        assert(before.drop_last() =~= words(x));
        assert(front.push(c) =~= w);
    }
}

proof fn lemma_words_of_spaced(ws: Seq<Seq<char>>)
    requires
        all_solid(ws),
    ensures
        words(spaced(ws)) == ws,
        is_trim(spaced(ws)),
        spaced(ws).len() > 0 <==> ws.len() > 0,
    decreases ws.len(),
{
    if ws.len() == 0 {
        assert(words(spaced(ws)) =~= ws);
    } else if ws.len() == 1 {
        let w = ws[0];
        assert(solid(w));
        lemma_words_of_next(Seq::empty(), w);
        assert(Seq::<char>::empty() + w =~= w);
        assert(words(Seq::<char>::empty()) =~= Seq::empty());
        assert(words(w) =~= ws);
    } else {
        let front = ws.drop_last();
        let w = ws.last();
        assert(w == ws[ws.len() - 1]);
        assert forall|i: int| 0 <= i < front.len() implies solid(#[trigger] front[i]) by {
            assert(front[i] == ws[i]);
        }
        lemma_words_of_spaced(front);
        let x = spaced(front).push(' ');
        assert(x.drop_last() =~= spaced(front));
        lemma_words_of_next(x, w);
        assert(front.push(w) =~= ws);
        let all = spaced(ws);
        let k = spaced(front).len() as int;
        assert forall|i: int| 0 <= i < all.len() && is_blank(#[trigger] all[i]) implies all[i]
            == ' ' by {
            if i < k {
                assert(all[i] == spaced(front)[i]);
            } else if i > k {
                assert(all[i] == w[i - k - 1]);
            }
        }
        assert forall|i: int| 0 <= i < all.len() - 1 && is_blank(#[trigger] all[i]) implies
            !is_blank(all[i + 1]) by {
            if i < k - 1 {
                assert(all[i] == spaced(front)[i]);
                assert(all[i + 1] == spaced(front)[i + 1]);
            } else if i == k - 1 {
                assert(all[i] == spaced(front).last());
            } else {
                assert(all[i + 1] == w[i - k]);
            }
        }
        assert(all[0] == spaced(front)[0]);
        assert(all.last() == w[w.len() - 1]);
    }
}

proof fn lemma_tidy_of_apart(ws: Seq<Seq<char>>, n: nat)
    requires
        all_apart(ws),
        n <= ws.len(),
    ensures
        tidy(ws, n) == spaced(ws.take(n as int)),
    decreases n,
{
    if n > 0 {
        let m = (n - 1) as nat;
        lemma_tidy_of_apart(ws, m);
        assert(ws.take(n as int).drop_last() =~= ws.take(m as int));
        if n == 1 {
            assert(tidy(ws, 0) =~= Seq::empty());
            assert(tidy(ws, 1) =~= ws[0]);
        } else {
            assert(apart(ws[n - 2], ws[n - 2 + 1]));
        }
    }
}

/// Tidying the text of a type twice is tidying it once.
pub proof fn law_tidying_is_idempotent(s: Seq<char>)
    ensures
        normalized(normalized(s)) == normalized(s),
{
    let ws = words(s);
    lemma_words_are_solid(s);
    if ws.len() == 0 {
        assert(normalized(s) =~= Seq::empty());
        assert(words(normalized(s)) =~= Seq::empty());
    } else {
        let gs = clumps(ws, ws.len());
        lemma_clumps(ws, ws.len());
        lemma_words_of_spaced(gs);
        lemma_tidy_of_apart(gs, gs.len());
        assert(gs.take(gs.len() as int) =~= gs);
    }
}

/// Tidying the text of a type moves blanks only: without them the text is
/// what it was.
pub proof fn law_tidying_moves_only_blanks(s: Seq<char>)
    ensures
        without_blanks(normalized(s)) == without_blanks(s),
{
    let ws = words(s);
    lemma_words_are_solid(s);
    lemma_tidy_keeps_words(ws, ws.len());
    assert(ws.take(ws.len() as int) =~= ws);
    lemma_run_is_text(s);
}

/// A tidied text has no blank at its ends and no two in a row, and its
/// blanks are plain spaces.
pub proof fn law_tidied_text_is_trim(s: Seq<char>)
    ensures
        is_trim(normalized(s)),
{
    let ws = words(s);
    lemma_words_are_solid(s);
    if ws.len() > 0 {
        lemma_clumps(ws, ws.len());
        lemma_words_of_spaced(clumps(ws, ws.len()));
    }
}

/// A text without blanks is tidy as it is.
pub proof fn law_one_word_is_tidy(s: Seq<char>)
    requires
        forall|i: int| 0 <= i < s.len() ==> !is_blank(#[trigger] s[i]),
    ensures
        normalized(s) == s,
{
    if s.len() == 0 {
        assert(normalized(s) =~= s);
    } else {
        lemma_words_of_next(Seq::empty(), s);
        assert(Seq::<char>::empty() + s =~= s);
        assert(words(s) =~= seq![s]);
        reveal_with_fuel(tidy, 2);
        assert(normalized(s) =~= s);
    }
}

} // verus!
