//! Reading a judgement gives back what was written, and nothing else is read.
use vstd::prelude::*;

use crate::derive::fact::{
    args_at, fact_of, goes_on_name, name_at, parsed_fact, run_end, sees, skip, starts_name,
    term_at, terms_at, trim, trim_end, SpecFactDecl, SpecTermDecl,
};
use crate::derive::shape::is_blank;

verus! {

/// Whether a text is a name.
pub open spec fn is_name(n: Seq<char>) -> bool {
    n.len() > 0 && starts_name(n[0]) && forall|i: int|
        0 <= i < n.len() ==> goes_on_name(#[trigger] n[i])
}

/// Whether a term has names for names.
pub open spec fn well_named(t: SpecTermDecl) -> bool
    decreases t,
{
    match t {
        SpecTermDecl::Atom(n) => is_name(n),
        SpecTermDecl::Var(n) => is_name(n),
        SpecTermDecl::Ctor(n, args) => is_name(n) && all_named(args),
    }
}

/// Whether terms have names for names.
pub open spec fn all_named(ts: Seq<SpecTermDecl>) -> bool
    decreases ts,
{
    forall|i: int| 0 <= i < ts.len() ==> well_named(#[trigger] ts[i])
}

/// Whether a text is nothing but blanks.
pub open spec fn all_blank(b: Seq<char>) -> bool {
    forall|i: int| 0 <= i < b.len() ==> is_blank(#[trigger] b[i])
}

/// A term as it is written, with the blanks `b` wherever blanks may stand.
pub open spec fn written(t: SpecTermDecl, b: Seq<char>) -> Seq<char>
    decreases t, 0nat,
{
    match t {
        SpecTermDecl::Atom(n) => b + n + b,
        SpecTermDecl::Var(n) => b + seq!['$'] + n + b,
        SpecTermDecl::Ctor(n, args) => b + n + b + written_args(args, b) + b,
    }
}

/// Arguments in their brackets.
pub open spec fn written_args(ts: Seq<SpecTermDecl>, b: Seq<char>) -> Seq<char>
    decreases ts, ts.len() + 1,
{
    if ts.len() == 0 {
        seq!['('] + b + seq![')']
    } else {
        seq!['('] + written_from(ts, 0, b)
    }
}

/// Arguments from position `i` on, up to their closing bracket.
pub open spec fn written_from(ts: Seq<SpecTermDecl>, i: int, b: Seq<char>) -> Seq<char>
    decreases ts, ts.len() - i,
{
    if i < 0 || i >= ts.len() {
        Seq::empty()
    } else if i + 1 == ts.len() {
        written(ts[i], b) + seq![')']
    } else {
        written(ts[i], b) + seq![','] + written_from(ts, i + 1, b)
    }
}

/// A judgement as it is written; one without arguments may have brackets.
pub open spec fn written_fact(f: SpecFactDecl, b: Seq<char>, brackets: bool) -> Seq<char> {
    if f.args.len() == 0 && !brackets {
        b + f.pred + b
    } else {
        b + f.pred + b + written_args(f.args, b) + b
    }
}

/// A text without its blanks.
pub open spec fn bare(cs: Seq<char>) -> Seq<char> {
    cs.filter(|c: char| !is_blank(c))
}

/// Whether a piece of text stands at a position.
pub open spec fn stands_at(cs: Seq<char>, pos: int, w: Seq<char>) -> bool {
    0 <= pos && pos + w.len() <= cs.len() && cs.subrange(pos, pos + w.len()) == w
}

proof fn lemma_halves(cs: Seq<char>, pos: int, a: Seq<char>, b: Seq<char>)
    requires
        stands_at(cs, pos, a + b),
    ensures
        stands_at(cs, pos, a),
        stands_at(cs, pos + a.len(), b),
{
    let w = a + b;
    assert(cs.subrange(pos, pos + a.len()) =~= a) by {
        assert forall|i: int| 0 <= i < a.len() implies cs[pos + i] == a[i] by {
            assert(cs.subrange(pos, pos + w.len())[i] == w[i]);
        }
    }
    assert(cs.subrange(pos + a.len(), pos + a.len() + b.len()) =~= b) by {
        assert forall|i: int| 0 <= i < b.len() implies cs[pos + a.len() + i] == b[i] by {
            assert(cs.subrange(pos, pos + w.len())[a.len() + i] == w[a.len() + i]);
        }
    }
}

proof fn lemma_char_at(cs: Seq<char>, pos: int, w: Seq<char>, i: int)
    requires
        stands_at(cs, pos, w),
        0 <= i < w.len(),
    ensures
        cs[pos + i] == w[i],
{
    assert(cs.subrange(pos, pos + w.len())[i] == w[i]);
}

/// Blanks are skipped up to what follows them.
proof fn lemma_blanks(cs: Seq<char>, pos: int, b: Seq<char>)
    requires
        stands_at(cs, pos, b),
        all_blank(b),
        pos + b.len() == cs.len() || !is_blank(cs[pos + b.len()]),
    ensures
        skip(cs, pos) == pos + b.len(),
    decreases b.len(),
{
    if b.len() > 0 {
        lemma_char_at(cs, pos, b, 0);
        let rest = b.subrange(1, b.len() as int);
        assert(b =~= b.subrange(0, 1) + rest);
        lemma_halves(cs, pos, b.subrange(0, 1), rest);
        lemma_blanks(cs, pos + 1, rest);
    }
}

/// A run of name characters ends where the name does.
proof fn lemma_name_run(cs: Seq<char>, pos: int, end: int)
    requires
        0 <= pos <= end <= cs.len(),
        forall|i: int| pos <= i < end ==> goes_on_name(#[trigger] cs[i]),
        end == cs.len() || !goes_on_name(cs[end]),
    ensures
        run_end(cs, pos) == end,
    decreases end - pos,
{
    if pos < end {
        lemma_name_run(cs, pos + 1, end);
    }
}

/// A name that stands at a position is found there.
proof fn lemma_name(cs: Seq<char>, pos: int, n: Seq<char>, role: Seq<char>)
    requires
        stands_at(cs, pos, n),
        is_name(n),
        pos + n.len() == cs.len() || !goes_on_name(cs[pos + n.len()]),
    ensures
        name_at(cs, pos, role) == Ok::<int, Seq<char>>(pos + n.len()),
        cs.subrange(pos, pos + n.len()) == n,
        !is_blank(cs[pos]),
        cs[pos] != '$',
        cs[pos] != '(',
        cs[pos] != ')',
{
    lemma_char_at(cs, pos, n, 0);
    assert forall|i: int| pos + 1 <= i < pos + n.len() implies goes_on_name(
        #[trigger] cs[i],
    ) by {
        lemma_char_at(cs, pos, n, i - pos);
        assert(goes_on_name(n[i - pos]));
    }
    lemma_name_run(cs, pos + 1, pos + n.len());
}

/// What may stand behind a term.
pub open spec fn closes(cs: Seq<char>, end: int) -> bool {
    sees(cs, end, ',') || sees(cs, end, ')')
}

/// A written term is read back.
proof fn lemma_term_back(cs: Seq<char>, pos: int, t: SpecTermDecl, b: Seq<char>)
    requires
        stands_at(cs, pos, written(t, b)),
        well_named(t),
        all_blank(b),
        closes(cs, pos + written(t, b).len()),
    ensures
        term_at(cs, pos) matches Ok(r) && r.0 == t && skip(cs, r.1) == pos + written(t, b).len(),
    decreases t, 0nat,
{
    let end = pos + written(t, b).len();
    match t {
        SpecTermDecl::Atom(n) => {
            lemma_halves(cs, pos, b + n, b);
            lemma_halves(cs, pos, b, n);
            let p = pos + b.len();
            let q = p + n.len();
            lemma_after(cs, q, b, end);
            lemma_name(cs, p, n, "argument"@);
            lemma_blanks(cs, pos, b);
            lemma_blanks(cs, q, b);
            assert(skip(cs, end) == end);
        },
        SpecTermDecl::Var(n) => {
            lemma_halves(cs, pos, b + seq!['$'] + n, b);
            lemma_halves(cs, pos, b + seq!['$'], n);
            lemma_halves(cs, pos, b, seq!['$']);
            let p = pos + b.len();
            let q = p + 1 + n.len();
            lemma_char_at(cs, p, seq!['$'], 0);
            lemma_after(cs, q, b, end);
            lemma_name(cs, p + 1, n, "rule variable"@);
            lemma_blanks(cs, pos, b);
            lemma_blanks(cs, q, b);
        },
        SpecTermDecl::Ctor(n, args) => {
            let w = written_args(args, b);
            lemma_halves(cs, pos, b + n + b + w, b);
            lemma_halves(cs, pos, b + n + b, w);
            lemma_halves(cs, pos, b + n, b);
            lemma_halves(cs, pos, b, n);
            let p = pos + b.len();
            let q = p + n.len();
            let r = q + b.len();
            lemma_args_open(args, b);
            lemma_char_at(cs, r, w, 0);
            lemma_after(cs, q, b, r);
            lemma_name(cs, p, n, "argument"@);
            lemma_blanks(cs, pos, b);
            lemma_blanks(cs, q, b);
            lemma_args_back(cs, r, args, b);
            lemma_blanks(cs, r + w.len(), b);
        },
    }
}

/// Where blanks up to a mark follow a name, the name ends there.
proof fn lemma_after(cs: Seq<char>, q: int, b: Seq<char>, end: int)
    requires
        stands_at(cs, q, b),
        all_blank(b),
        end == q + b.len(),
        end == cs.len() || closes(cs, end) || sees(cs, end, '('),
    ensures
        q == cs.len() || !goes_on_name(cs[q]),
        end == cs.len() || !is_blank(cs[end]),
{
    if b.len() > 0 {
        lemma_char_at(cs, q, b, 0);
        assert(is_blank(b[0]));
    }
}

proof fn lemma_args_open(ts: Seq<SpecTermDecl>, b: Seq<char>)
    ensures
        written_args(ts, b).len() > 0,
        written_args(ts, b)[0] == '(',
{
}

/// Written arguments are read back.
proof fn lemma_args_back(cs: Seq<char>, pos: int, ts: Seq<SpecTermDecl>, b: Seq<char>)
    requires
        stands_at(cs, pos, written_args(ts, b)),
        all_named(ts),
        all_blank(b),
    ensures
        args_at(cs, pos) == Ok::<(Seq<SpecTermDecl>, int), Seq<char>>(
            (ts, pos + written_args(ts, b).len()),
        ),
    decreases ts, ts.len() + 1,
{
    if ts.len() == 0 {
        lemma_halves(cs, pos, seq!['('] + b, seq![')']);
        lemma_halves(cs, pos, seq!['('], b);
        lemma_char_at(cs, pos, seq!['('], 0);
        lemma_char_at(cs, pos + 1 + b.len(), seq![')'], 0);
        lemma_blanks(cs, pos + 1, b);
        assert(ts =~= Seq::empty());
    } else {
        let w = written_from(ts, 0, b);
        lemma_halves(cs, pos, seq!['('], w);
        lemma_char_at(cs, pos, seq!['('], 0);
        lemma_from_starts(ts, 0, b);
        let rest = choose|rest: Seq<char>| w == b + rest && first_of_term(rest);
        lemma_halves(cs, pos + 1, b, rest);
        lemma_char_at(cs, pos + 1 + b.len(), rest, 0);
        lemma_blanks(cs, pos + 1, b);
        lemma_terms_back(cs, pos + 1, ts, 0, b, Seq::empty());
        lemma_terms_skip(cs, pos + 1, Seq::empty());
        assert(Seq::<SpecTermDecl>::empty() + ts =~= ts);
        assert(ts.subrange(0, ts.len() as int) =~= ts);
    }
}

/// Whether a text starts as a term does.
pub open spec fn first_of_term(w: Seq<char>) -> bool {
    w.len() > 0 && (starts_name(w[0]) || w[0] == '$')
}

proof fn lemma_from_starts(ts: Seq<SpecTermDecl>, i: int, b: Seq<char>)
    requires
        0 <= i < ts.len(),
        all_named(ts),
    ensures
        exists|rest: Seq<char>| written_from(ts, i, b) == b + rest && first_of_term(rest),
{
    let w = written_from(ts, i, b);
    let rest = w.subrange(b.len() as int, w.len() as int);
    assert(well_named(ts[i]));
    let x = written(ts[i], b);
    assert(x.len() > b.len() && x.subrange(0, b.len() as int) =~= b && (starts_name(
        x[b.len() as int],
    ) || x[b.len() as int] == '$'));
    assert(forall|k: int| 0 <= k < x.len() ==> w[k] == x[k]);
    assert forall|k: int| 0 <= k < b.len() implies w[k] == b[k] by {
        assert(x.subrange(0, b.len() as int)[k] == b[k]);
    }
    assert(w =~= b + rest);
    assert(first_of_term(rest));
}

/// Terms are read alike from any of the blanks before them.
proof fn lemma_terms_skip(cs: Seq<char>, pos: int, done: Seq<SpecTermDecl>)
    requires
        0 <= pos,
    ensures
        terms_at(cs, skip(cs, pos), done) == terms_at(cs, pos, done),
{
    lemma_skip_ahead(cs, pos);
    let p = skip(cs, pos);
    assert(skip(cs, p) == p);
    assert(term_at(cs, pos) == term_at(cs, p));
    if term_at(cs, p) is Ok {
        lemma_term_ahead(cs, p);
        lemma_skip_ahead(cs, term_at(cs, p)->Ok_0.1);
    }
}

proof fn lemma_skip_ahead(cs: Seq<char>, pos: int)
    ensures
        skip(cs, pos) >= pos,
        0 <= pos <= cs.len() ==> skip(cs, pos) <= cs.len(),
        0 <= skip(cs, pos) < cs.len() ==> !is_blank(cs[skip(cs, pos)]),
    decreases cs.len() - pos,
{
    if 0 <= pos < cs.len() && is_blank(cs[pos]) {
        lemma_skip_ahead(cs, pos + 1);
    }
}

proof fn lemma_run_ahead(cs: Seq<char>, pos: int)
    ensures
        run_end(cs, pos) >= pos,
        0 <= pos <= cs.len() ==> run_end(cs, pos) <= cs.len(),
        forall|i: int| 0 <= pos <= i < run_end(cs, pos) ==> goes_on_name(#[trigger] cs[i]),
    decreases cs.len() - pos,
{
    if 0 <= pos < cs.len() && goes_on_name(cs[pos]) {
        lemma_run_ahead(cs, pos + 1);
    }
}

/// Written terms are read back, behind those already read.
proof fn lemma_terms_back(
    cs: Seq<char>,
    pos: int,
    ts: Seq<SpecTermDecl>,
    i: int,
    b: Seq<char>,
    done: Seq<SpecTermDecl>,
)
    requires
        0 <= i < ts.len(),
        stands_at(cs, pos, written_from(ts, i, b)),
        all_named(ts),
        all_blank(b),
    ensures
        terms_at(cs, pos, done) == Ok::<(Seq<SpecTermDecl>, int), Seq<char>>(
            (done + ts.subrange(i, ts.len() as int), pos + written_from(ts, i, b).len()),
        ),
    decreases ts, ts.len() - i,
{
    let x = written(ts[i], b);
    let q = pos + x.len();
    assert(well_named(ts[i]));
    if i + 1 == ts.len() {
        lemma_halves(cs, pos, x, seq![')']);
        lemma_char_at(cs, q, seq![')'], 0);
        lemma_term_back(cs, pos, ts[i], b);
        assert(done.push(ts[i]) =~= done + ts.subrange(i, ts.len() as int));
    } else {
        lemma_halves(cs, pos, x + seq![','], written_from(ts, i + 1, b));
        lemma_halves(cs, pos, x, seq![',']);
        lemma_char_at(cs, q, seq![','], 0);
        lemma_term_back(cs, pos, ts[i], b);
        lemma_terms_back(cs, q + 1, ts, i + 1, b, done.push(ts[i]));
        assert(done.push(ts[i]) + ts.subrange(i + 1, ts.len() as int) =~= done + ts.subrange(
            i,
            ts.len() as int,
        ));
    }
}

/// A term that is read lies ahead.
proof fn lemma_term_ahead(cs: Seq<char>, pos: int)
    requires
        0 <= pos,
        term_at(cs, pos) is Ok,
    ensures
        pos < term_at(cs, pos)->Ok_0.1 <= cs.len(),
    decreases cs.len() - pos, 0nat,
{
    lemma_skip_ahead(cs, pos);
    let p = skip(cs, pos);
    if sees(cs, p, '$') {
        lemma_run_ahead(cs, p + 2);
    } else {
        lemma_run_ahead(cs, p + 1);
        let end = run_end(cs, p + 1);
        lemma_skip_ahead(cs, end);
        let q = skip(cs, end);
        if sees(cs, q, '(') {
            lemma_args_ahead(cs, q);
        }
    }
}

proof fn lemma_args_ahead(cs: Seq<char>, pos: int)
    requires
        0 <= pos,
        args_at(cs, pos) is Ok,
    ensures
        pos < args_at(cs, pos)->Ok_0.1 <= cs.len(),
    decreases cs.len() - pos, 1nat,
{
    lemma_skip_ahead(cs, pos + 1);
    let p = skip(cs, pos + 1);
    if !sees(cs, p, ')') {
        lemma_terms_ahead(cs, p, Seq::empty());
    }
}

proof fn lemma_terms_ahead(cs: Seq<char>, pos: int, done: Seq<SpecTermDecl>)
    requires
        0 <= pos,
        terms_at(cs, pos, done) is Ok,
    ensures
        pos < terms_at(cs, pos, done)->Ok_0.1 <= cs.len(),
    decreases cs.len() - pos, 2nat,
{
    lemma_term_ahead(cs, pos);
    let r = term_at(cs, pos)->Ok_0;
    lemma_skip_ahead(cs, r.1);
    let q = skip(cs, r.1);
    if sees(cs, q, ',') {
        lemma_terms_ahead(cs, q + 1, done.push(r.0));
    }
}

proof fn lemma_bare_joins(a: Seq<char>, b: Seq<char>)
    ensures
        bare(a + b) == bare(a) + bare(b),
{
    Seq::<char>::filter_distributes_over_add(a, b, |c: char| !is_blank(c));
}

/// What a stretch holds is what its two parts hold.
proof fn lemma_stretch(cs: Seq<char>, a: int, m: int, b: int)
    requires
        0 <= a <= m <= b <= cs.len(),
    ensures
        bare(cs.subrange(a, b)) == bare(cs.subrange(a, m)) + bare(cs.subrange(m, b)),
{
    assert(cs.subrange(a, b) =~= cs.subrange(a, m) + cs.subrange(m, b));
    lemma_bare_joins(cs.subrange(a, m), cs.subrange(m, b));
}

proof fn lemma_bare_blank(b: Seq<char>)
    requires
        all_blank(b),
    ensures
        bare(b) == Seq::<char>::empty(),
    decreases b.len(),
{
    reveal(Seq::filter);
    if b.len() > 0 {
        assert(is_blank(b[b.len() - 1]));
        assert(all_blank(b.drop_last())) by {
            assert forall|i: int| 0 <= i < b.drop_last().len() implies is_blank(
                #[trigger] b.drop_last()[i],
            ) by {
                assert(is_blank(b[i]));
            }
        }
        lemma_bare_blank(b.drop_last());
    }
}

proof fn lemma_bare_solid(w: Seq<char>)
    requires
        forall|i: int| 0 <= i < w.len() ==> !is_blank(#[trigger] w[i]),
    ensures
        bare(w) == w,
    decreases w.len(),
{
    reveal(Seq::filter);
    if w.len() > 0 {
        assert(!is_blank(w[w.len() - 1]));
        lemma_bare_solid(w.drop_last());
        assert(w =~= w.drop_last().push(w.last()));
    }
}

/// What is skipped is blank.
proof fn lemma_skipped(cs: Seq<char>, pos: int)
    requires
        0 <= pos <= cs.len(),
    ensures
        pos <= skip(cs, pos) <= cs.len(),
        bare(cs.subrange(pos, skip(cs, pos))) == Seq::<char>::empty(),
    decreases cs.len() - pos,
{
    lemma_skip_ahead(cs, pos);
    if pos < cs.len() && is_blank(cs[pos]) {
        lemma_skipped(cs, pos + 1);
        lemma_skip_ahead(cs, pos + 1);
        lemma_stretch(cs, pos, pos + 1, skip(cs, pos));
        assert(all_blank(cs.subrange(pos, pos + 1)));
        lemma_bare_blank(cs.subrange(pos, pos + 1));
        assert(bare(cs.subrange(pos, skip(cs, pos))) =~= Seq::<char>::empty());
    } else {
        assert(all_blank(cs.subrange(pos, pos)));
        lemma_bare_blank(cs.subrange(pos, pos));
    }
}

/// A mark is not blank.
proof fn lemma_mark(cs: Seq<char>, pos: int, c: char)
    requires
        sees(cs, pos, c),
        !is_blank(c),
    ensures
        bare(cs.subrange(pos, pos + 1)) == seq![c],
{
    assert(cs.subrange(pos, pos + 1) =~= seq![c]);
    lemma_bare_solid(seq![c]);
}

/// What is found as a name is one.
proof fn lemma_named(cs: Seq<char>, pos: int, role: Seq<char>)
    requires
        0 <= pos,
        name_at(cs, pos, role) is Ok,
    ensures
        pos < name_at(cs, pos, role)->Ok_0 <= cs.len(),
        is_name(cs.subrange(pos, name_at(cs, pos, role)->Ok_0)),
        bare(cs.subrange(pos, name_at(cs, pos, role)->Ok_0)) == cs.subrange(
            pos,
            name_at(cs, pos, role)->Ok_0,
        ),
{
    lemma_run_ahead(cs, pos + 1);
    let end = run_end(cs, pos + 1);
    let n = cs.subrange(pos, end);
    assert forall|i: int| 0 <= i < n.len() implies goes_on_name(#[trigger] n[i]) && !is_blank(
        n[i],
    ) by {
        if i > 0 {
            assert(goes_on_name(cs[pos + i]));
        }
    }
    lemma_bare_solid(n);
}

/// The text without blanks, which no blanks stand in.
pub open spec fn plain() -> Seq<char> {
    Seq::empty()
}

/// A term that is read is the one that was written there.
proof fn lemma_term_read(cs: Seq<char>, pos: int)
    requires
        0 <= pos <= cs.len(),
        term_at(cs, pos) is Ok,
    ensures
        well_named(term_at(cs, pos)->Ok_0.0),
        bare(cs.subrange(pos, term_at(cs, pos)->Ok_0.1)) == written(
            term_at(cs, pos)->Ok_0.0,
            plain(),
        ),
    decreases cs.len() - pos, 0nat,
{
    lemma_skipped(cs, pos);
    let p = skip(cs, pos);
    let (t, last) = term_at(cs, pos)->Ok_0;
    if sees(cs, p, '$') {
        lemma_named(cs, p + 1, "rule variable"@);
        lemma_mark(cs, p, '$');
        lemma_stretch(cs, p, p + 1, last);
        lemma_stretch(cs, pos, p, last);
        let n = cs.subrange(p + 1, last);
        assert(t == SpecTermDecl::Var(n));
        lemma_plain_forms(n, Seq::empty());
        assert(bare(cs.subrange(pos, last)) =~= seq!['$'] + n);
    } else {
        lemma_named(cs, p, "argument"@);
        let end = run_end(cs, p + 1);
        lemma_skipped(cs, end);
        let q = skip(cs, end);
        lemma_stretch(cs, pos, p, end);
        lemma_stretch(cs, pos, end, q);
        let n = cs.subrange(p, end);
        assert(bare(cs.subrange(pos, q)) =~= n);
        if sees(cs, q, '(') {
            lemma_args_ahead(cs, q);
            lemma_args_read(cs, q);
            lemma_stretch(cs, pos, q, last);
            let args = args_at(cs, q)->Ok_0.0;
            assert(t == SpecTermDecl::Ctor(n, args));
            lemma_plain_forms(n, args);
        } else {
            assert(t == SpecTermDecl::Atom(n));
            lemma_plain_forms(n, Seq::empty());
        }
    }
}

/// How terms are written where no blanks are.
proof fn lemma_plain_forms(n: Seq<char>, args: Seq<SpecTermDecl>)
    ensures
        written(SpecTermDecl::Atom(n), plain()) == n,
        written(SpecTermDecl::Var(n), plain()) == seq!['$'] + n,
        written(SpecTermDecl::Ctor(n, args), plain()) == n + written_args(args, plain()),
{
    assert(plain() + n + plain() =~= n);
    assert(plain() + seq!['$'] + n + plain() =~= seq!['$'] + n);
    let w = written_args(args, plain());
    assert(plain() + n + plain() + w + plain() =~= n + w);
}

/// Arguments that are read are those that were written there.
proof fn lemma_args_read(cs: Seq<char>, pos: int)
    requires
        0 <= pos < cs.len(),
        args_at(cs, pos) is Ok,
    ensures
        all_named(args_at(cs, pos)->Ok_0.0),
        bare(cs.subrange(pos, args_at(cs, pos)->Ok_0.1)) == written_args(
            args_at(cs, pos)->Ok_0.0,
            plain(),
        ),
    decreases cs.len() - pos, 1nat,
{
    lemma_args_ahead(cs, pos);
    lemma_skipped(cs, pos + 1);
    let p = skip(cs, pos + 1);
    let (ts, last) = args_at(cs, pos)->Ok_0;
    lemma_mark(cs, pos, '(');
    lemma_stretch(cs, pos, pos + 1, p);
    if sees(cs, p, ')') {
        lemma_mark(cs, p, ')');
        lemma_stretch(cs, pos, p, last);
        assert(bare(cs.subrange(pos, last)) =~= written_args(ts, plain()));
    } else {
        lemma_terms_ahead(cs, p, Seq::empty());
        lemma_terms_read(cs, p, Seq::empty());
        lemma_stretch(cs, pos, p, last);
        assert(bare(cs.subrange(pos, last)) =~= written_args(ts, plain()));
    }
}

/// Terms that are read are those that were written there.
proof fn lemma_terms_read(cs: Seq<char>, pos: int, done: Seq<SpecTermDecl>)
    requires
        0 <= pos <= cs.len(),
        terms_at(cs, pos, done) is Ok,
        all_named(done),
    ensures
        terms_at(cs, pos, done)->Ok_0.0.len() > done.len(),
        all_named(terms_at(cs, pos, done)->Ok_0.0),
        forall|k: int|
            0 <= k < done.len() ==> #[trigger] terms_at(cs, pos, done)->Ok_0.0[k] == done[k],
        bare(cs.subrange(pos, terms_at(cs, pos, done)->Ok_0.1)) == written_from(
            terms_at(cs, pos, done)->Ok_0.0,
            done.len() as int,
            plain(),
        ),
    decreases cs.len() - pos, 2nat,
{
    lemma_term_ahead(cs, pos);
    lemma_term_read(cs, pos);
    lemma_terms_ahead(cs, pos, done);
    let (t, end) = term_at(cs, pos)->Ok_0;
    let (ts, last) = terms_at(cs, pos, done)->Ok_0;
    lemma_skipped(cs, end);
    let q = skip(cs, end);
    lemma_stretch(cs, pos, end, q);
    let more = done.push(t);
    assert(all_named(more)) by {
        assert forall|i: int| 0 <= i < more.len() implies well_named(#[trigger] more[i]) by {
            if i < done.len() {
                assert(well_named(done[i]));
            }
        }
    }
    assert(more[done.len() as int] == t);
    if sees(cs, q, ',') {
        lemma_mark(cs, q, ',');
        lemma_terms_read(cs, q + 1, more);
        lemma_terms_ahead(cs, q + 1, more);
        assert(ts[done.len() as int] == more[done.len() as int]);
        assert forall|k: int| 0 <= k < done.len() implies #[trigger] ts[k] == done[k] by {
            assert(ts[k] == more[k]);
        }
        lemma_stretch(cs, pos, q, q + 1);
        lemma_stretch(cs, pos, q + 1, last);
        assert(bare(cs.subrange(pos, last)) =~= written(t, plain()) + seq![','] + written_from(
            ts,
            done.len() as int + 1,
            plain(),
        ));
    } else {
        lemma_mark(cs, q, ')');
        lemma_stretch(cs, pos, q, last);
        assert(bare(cs.subrange(pos, last)) =~= written(t, plain()) + seq![')']);
    }
}

proof fn lemma_trim_end(cs: Seq<char>)
    ensures
        bare(trim_end(cs)) == bare(cs),
    decreases cs.len(),
{
    reveal(Seq::filter);
    if cs.len() > 0 && is_blank(cs.last()) {
        lemma_trim_end(cs.drop_last());
    }
}

proof fn lemma_trim(cs: Seq<char>)
    ensures
        bare(trim(cs)) == bare(cs),
{
    lemma_skipped(cs, 0);
    let p = skip(cs, 0);
    lemma_stretch(cs, 0, p, cs.len() as int);
    assert(cs.subrange(0, cs.len() as int) =~= cs);
    lemma_trim_end(cs.subrange(p, cs.len() as int));
    assert(bare(trim(cs)) =~= bare(cs));
}

/// How judgements are written where no blanks are.
proof fn lemma_plain_facts(f: SpecFactDecl)
    ensures
        f.args.len() == 0 ==> written_fact(f, plain(), false) == f.pred,
        written_fact(f, plain(), true) == f.pred + written_args(f.args, plain()),
{
    let n = f.pred;
    assert(plain() + n + plain() =~= n);
    let w = written_args(f.args, plain());
    assert(plain() + n + plain() + w + plain() =~= n + w);
}

proof fn lemma_bracketed(cs: Seq<char>, q: int, n: Seq<char>)
    requires
        0 <= q < cs.len(),
        bare(cs.subrange(0, q)) == n,
        args_at(cs, q) is Ok,
        skip(cs, args_at(cs, q)->Ok_0.1) == cs.len(),
    ensures
        all_named(args_at(cs, q)->Ok_0.0),
        bare(cs) == n + written_args(args_at(cs, q)->Ok_0.0, plain()),
{
    lemma_args_ahead(cs, q);
    lemma_args_read(cs, q);
    let after = args_at(cs, q)->Ok_0.1;
    lemma_skipped(cs, after);
    lemma_stretch(cs, 0, q, after);
    lemma_stretch(cs, 0, after, cs.len() as int);
    assert(cs.subrange(0, cs.len() as int) =~= cs);
    assert(bare(cs) =~= bare(cs.subrange(0, after)));
}

/// The name that a judgement begins with, and where it ends.
proof fn lemma_head(cs: Seq<char>)
    requires
        name_at(cs, skip(cs, 0), "predicate name"@) is Ok,
    ensures
        ({
            let p = skip(cs, 0);
            let end = name_at(cs, p, "predicate name"@)->Ok_0;
            &&& 0 <= p < end <= skip(cs, end) <= cs.len()
            &&& is_name(cs.subrange(p, end))
            &&& bare(cs.subrange(0, skip(cs, end))) == cs.subrange(p, end)
        }),
{
    lemma_skipped(cs, 0);
    let p = skip(cs, 0);
    lemma_named(cs, p, "predicate name"@);
    let end = name_at(cs, p, "predicate name"@)->Ok_0;
    lemma_skipped(cs, end);
    let q = skip(cs, end);
    lemma_stretch(cs, 0, p, end);
    lemma_stretch(cs, 0, end, q);
    assert(bare(cs.subrange(0, q)) =~= cs.subrange(p, end));
}

/// What is read as a judgement is one: without its blanks, the text is the
/// judgement as it is written, and every name in it is a name.
pub proof fn law_only_judgements_are_read(text: Seq<char>)
    ensures
        parsed_fact(text) matches Ok(f) ==> is_name(f.pred) && all_named(f.args) && (bare(text)
            == written_fact(f, plain(), false) || bare(text) == written_fact(f, plain(), true)),
{
    let cs = trim(text);
    lemma_trim(text);
    if fact_of(cs) is Ok {
        let f = fact_of(cs)->Ok_0;
        lemma_head(cs);
        lemma_plain_facts(f);
        let end = name_at(cs, skip(cs, 0), "predicate name"@)->Ok_0;
        let q = skip(cs, end);
        if sees(cs, q, '(') {
            lemma_bracketed(cs, q, f.pred);
        } else {
            lemma_skip_ahead(cs, end);
            assert(skip(cs, q) == q);
            assert(cs.subrange(0, cs.len() as int) =~= cs);
        }
    }
}

/// Whether a text begins and ends with something.
pub open spec fn solid(w: Seq<char>) -> bool {
    w.len() > 0 && !is_blank(w[0]) && !is_blank(w.last())
}

proof fn lemma_trims_to(b: Seq<char>, w: Seq<char>)
    requires
        all_blank(b),
        solid(w),
    ensures
        trim(b + w + b) == w,
{
    let cs = b + w + b;
    assert(stands_at(cs, 0, b)) by {
        assert(cs.subrange(0, b.len() as int) =~= b);
    }
    lemma_blanks(cs, 0, b);
    assert(cs.subrange(b.len() as int, cs.len() as int) =~= w + b);
    lemma_ends_at(w, b);
}

proof fn lemma_ends_at(w: Seq<char>, b: Seq<char>)
    requires
        all_blank(b),
        solid(w),
    ensures
        trim_end(w + b) == w,
    decreases b.len(),
{
    if b.len() > 0 {
        assert(is_blank(b[b.len() - 1]));
        assert((w + b).last() == b.last());
        assert((w + b).drop_last() =~= w + b.drop_last());
        assert(all_blank(b.drop_last())) by {
            assert forall|i: int| 0 <= i < b.drop_last().len() implies is_blank(
                #[trigger] b.drop_last()[i],
            ) by {
                assert(is_blank(b[i]));
            }
        }
        lemma_ends_at(w, b.drop_last());
    } else {
        assert(w + b =~= w);
        assert((w + b).last() == w.last());
    }
}

proof fn lemma_args_close(ts: Seq<SpecTermDecl>, i: int, b: Seq<char>)
    requires
        0 <= i < ts.len(),
    ensures
        written_from(ts, i, b).len() > 0,
        written_from(ts, i, b).last() == ')',
    decreases ts.len() - i,
{
    if i + 1 < ts.len() {
        lemma_args_close(ts, i + 1, b);
    }
}

/// A judgement is read back from the text it is written as, whatever blanks
/// stand around its names, brackets and commas. One without arguments is
/// read back with brackets and without.
pub proof fn law_a_judgement_is_read_back(f: SpecFactDecl, b: Seq<char>, brackets: bool)
    requires
        is_name(f.pred),
        all_named(f.args),
        all_blank(b),
    ensures
        parsed_fact(written_fact(f, b, brackets)) == Ok::<SpecFactDecl, Seq<char>>(f),
{
    let text = written_fact(f, b, brackets);
    let n = f.pred;
    assert(goes_on_name(n[n.len() - 1]));
    if f.args.len() == 0 && !brackets {
        lemma_trims_to(b, n);
        let cs = n;
        assert(stands_at(cs, 0, n)) by {
            assert(cs.subrange(0, cs.len() as int) =~= n);
        }
        lemma_name(cs, 0, n, "predicate name"@);
        assert(f.args =~= Seq::empty());
    } else {
        let w = written_args(f.args, b);
        lemma_args_open(f.args, b);
        if f.args.len() > 0 {
            lemma_args_close(f.args, 0, b);
        }
        let cs = n + b + w;
        assert(cs.last() == w.last());
        assert(text =~= b + cs + b);
        lemma_trims_to(b, cs);
        assert(stands_at(cs, 0, cs)) by {
            assert(cs.subrange(0, cs.len() as int) =~= cs);
        }
        lemma_halves(cs, 0, n + b, w);
        lemma_halves(cs, 0, n, b);
        let q = n.len() as int;
        let r = q + b.len();
        lemma_char_at(cs, r, w, 0);
        lemma_after(cs, q, b, r);
        lemma_name(cs, 0, n, "predicate name"@);
        lemma_blanks(cs, q, b);
        lemma_args_back(cs, r, f.args, b);
    }
}

} // verus!
