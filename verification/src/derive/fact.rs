//! The notation of judgements in annotations.
//!
//! ```text
//! fact := name [ "(" args ")" ]
//! args := term { "," term }
//! term := "$" name | name [ "(" args ")" ]
//! ```
use vstd::prelude::*;
use vstd::string::*;

use crate::derive::decl::{planned, DeriveError};
use crate::derive::shape::{blank, is_blank};
use crate::text::{cat3, cat5, chars_of, slice_text, strings_view};

verus! {

/// A term in an annotation.
#[derive(Debug, PartialEq, Eq)]
pub enum CheckTermDecl {
    /// Ground constant.
    Atom(String),
    /// Rule variable.
    Var(String),
    /// Constructor application.
    Ctor(String, Vec<CheckTermDecl>),
}

/// The mathematical shape of a [`CheckTermDecl`].
pub enum SpecTermDecl {
    Atom(Seq<char>),
    Var(Seq<char>),
    Ctor(Seq<char>, Seq<SpecTermDecl>),
}

/// The view of a term.
pub open spec fn term_decl_view(t: CheckTermDecl) -> SpecTermDecl
    decreases t,
{
    match t {
        CheckTermDecl::Atom(n) => SpecTermDecl::Atom(n@),
        CheckTermDecl::Var(n) => SpecTermDecl::Var(n@),
        CheckTermDecl::Ctor(n, args) => SpecTermDecl::Ctor(n@, term_decls_view(args@)),
    }
}

/// The views of a list of terms.
pub open spec fn term_decls_view(ts: Seq<CheckTermDecl>) -> Seq<SpecTermDecl>
    decreases ts,
{
    Seq::new(
        ts.len(),
        |i: int|
            if 0 <= i < ts.len() {
                term_decl_view(ts[i])
            } else {
                arbitrary()
            },
    )
}

impl View for CheckTermDecl {
    type V = SpecTermDecl;

    open spec fn view(&self) -> SpecTermDecl {
        term_decl_view(*self)
    }
}

/// A judgement in an annotation.
#[derive(Debug, PartialEq, Eq)]
pub struct CheckFactDecl {
    /// Predicate.
    pub pred: String,
    /// Argument terms, in order.
    pub args: Vec<CheckTermDecl>,
}

/// The mathematical shape of a [`CheckFactDecl`].
pub struct SpecFactDecl {
    pub pred: Seq<char>,
    pub args: Seq<SpecTermDecl>,
}

impl View for CheckFactDecl {
    type V = SpecFactDecl;

    open spec fn view(&self) -> SpecFactDecl {
        SpecFactDecl { pred: self.pred@, args: term_decls_view(self.args@) }
    }
}

/// The variables of a term, in order.
pub open spec fn term_vars(t: SpecTermDecl) -> Seq<Seq<char>>
    decreases t, 0nat,
{
    match t {
        SpecTermDecl::Atom(_) => Seq::empty(),
        SpecTermDecl::Var(n) => seq![n],
        SpecTermDecl::Ctor(_, args) => terms_vars(args, args.len()),
    }
}

/// The variables of the first `n` terms, in order.
pub open spec fn terms_vars(ts: Seq<SpecTermDecl>, n: nat) -> Seq<Seq<char>>
    decreases ts, n,
{
    if n == 0 || n > ts.len() {
        Seq::empty()
    } else {
        terms_vars(ts, (n - 1) as nat) + term_vars(ts[n - 1])
    }
}

/// The variables of a judgement, in order.
pub open spec fn fact_vars(f: SpecFactDecl) -> Seq<Seq<char>> {
    terms_vars(f.args, f.args.len())
}

/// Collects the variables of a list of terms.
fn collect_all(ts: &Vec<CheckTermDecl>, out: &mut Vec<String>)
    ensures
        strings_view(final(out)@) == strings_view(old(out)@) + terms_vars(
            term_decls_view(ts@),
            term_decls_view(ts@).len(),
        ),
    decreases ts, 1nat,
{
    let ghost all = term_decls_view(ts@);
    let ghost before = strings_view(out@);
    let n: usize = ts.len();
    assert(strings_view(out@) =~= before + terms_vars(all, 0));
    for i in 0..n
        invariant
            n == ts@.len(),
            all == term_decls_view(ts@),
            strings_view(out@) == before + terms_vars(all, i as nat),
        decreases n - i,
    {
        assert(all[i as int] == ts@[i as int]@);
        ts[i].collect_vars(out);
        assert(strings_view(out@) =~= before + terms_vars(all, (i + 1) as nat));
    }
}

impl CheckTermDecl {
    /// Appends the variables of the term, in order.
    pub fn collect_vars(&self, out: &mut Vec<String>)
        ensures
            strings_view(final(out)@) == strings_view(old(out)@) + term_vars(self@),
        decreases self, 0nat,
    {
        let ghost before = strings_view(out@);
        match self {
            CheckTermDecl::Atom(_) => {
                assert(strings_view(out@) =~= before + term_vars(self@));
            },
            CheckTermDecl::Var(name) => {
                out.push(name.clone());
                assert(strings_view(out@) =~= before + term_vars(self@));
            },
            CheckTermDecl::Ctor(_, args) => {
                collect_all(args, out);
            },
        }
    }
}

impl CheckFactDecl {
    /// Appends the variables of the judgement, in order.
    pub fn collect_vars(&self, out: &mut Vec<String>)
        ensures
            strings_view(final(out)@) == strings_view(old(out)@) + fact_vars(self@),
    {
        collect_all(&self.args, out);
    }
}

/// The first position from `pos` on that is not blank.
pub open spec fn skip(cs: Seq<char>, pos: int) -> int
    decreases cs.len() - pos,
{
    if 0 <= pos < cs.len() && is_blank(cs[pos]) {
        skip(cs, pos + 1)
    } else {
        pos
    }
}

/// Whether a character may start a name.
pub open spec fn starts_name(c: char) -> bool {
    ('a' <= c && c <= 'z') || ('A' <= c && c <= 'Z') || c == '_'
}

/// Whether a character may go on a name.
pub open spec fn goes_on_name(c: char) -> bool {
    starts_name(c) || ('0' <= c && c <= '9')
}

/// Where the run of name characters from `pos` on ends.
pub open spec fn run_end(cs: Seq<char>, pos: int) -> int
    decreases cs.len() - pos,
{
    if 0 <= pos < cs.len() && goes_on_name(cs[pos]) {
        run_end(cs, pos + 1)
    } else {
        pos
    }
}

/// The text without blanks at its end.
pub open spec fn trim_end(cs: Seq<char>) -> Seq<char>
    decreases cs.len(),
{
    if cs.len() > 0 && is_blank(cs.last()) {
        trim_end(cs.drop_last())
    } else {
        cs
    }
}

/// The text without blanks at either end.
pub open spec fn trim(cs: Seq<char>) -> Seq<char> {
    trim_end(cs.subrange(skip(cs, 0), cs.len() as int))
}

/// The refusal of a missing name.
pub open spec fn no_name(cs: Seq<char>, pos: int, role: Seq<char>) -> Seq<char> {
    let rest = trim_end(cs.subrange(pos, cs.len() as int));
    let place = if rest.len() == 0 {
        Seq::empty()
    } else {
        " at `"@ + rest + "`"@
    };
    ("invalid "@ + role + " in `"@ + cs + "`"@) + place
        + "; expected an identifier such as `state` or `SystemReady`"@
}

/// Where the name at `pos` ends.
pub open spec fn name_at(cs: Seq<char>, pos: int, role: Seq<char>) -> Result<int, Seq<char>> {
    if 0 <= pos < cs.len() && starts_name(cs[pos]) {
        Ok(run_end(cs, pos + 1))
    } else {
        Err(no_name(cs, pos, role))
    }
}

/// Whether a character stands at a position.
pub open spec fn sees(cs: Seq<char>, pos: int, c: char) -> bool {
    0 <= pos < cs.len() && cs[pos] == c
}

/// The term at `pos`, and where it ends.
pub open spec fn term_at(cs: Seq<char>, pos: int) -> Result<(SpecTermDecl, int), Seq<char>>
    decreases cs.len() - pos, 0nat,
    via term_at_decreases
{
    let p = skip(cs, pos);
    if sees(cs, p, '$') {
        match name_at(cs, p + 1, "rule variable"@) {
            Err(e) => Err(e),
            Ok(end) => Ok((SpecTermDecl::Var(cs.subrange(p + 1, end)), end)),
        }
    } else {
        match name_at(cs, p, "argument"@) {
            Err(e) => Err(e),
            Ok(end) => {
                let q = skip(cs, end);
                if sees(cs, q, '(') {
                    match args_at(cs, q) {
                        Err(e) => Err(e),
                        Ok((args, after)) => Ok(
                            (SpecTermDecl::Ctor(cs.subrange(p, end), args), after),
                        ),
                    }
                } else {
                    Ok((SpecTermDecl::Atom(cs.subrange(p, end)), q))
                }
            },
        }
    }
}

/// The arguments at `pos`, where their bracket opens, and where they end.
pub open spec fn args_at(cs: Seq<char>, pos: int) -> Result<(Seq<SpecTermDecl>, int), Seq<char>>
    decreases cs.len() - pos, 1nat,
    via args_at_decreases
{
    let p = skip(cs, pos + 1);
    if !sees(cs, pos, '(') {
        Err("unbalanced parentheses in `"@ + cs + "`; expected `pred(term, …)`"@)
    } else if sees(cs, p, ')') {
        Ok((Seq::empty(), p + 1))
    } else {
        terms_at(cs, p, Seq::empty())
    }
}

/// The terms at `pos` after those already read, and where they end.
pub open spec fn terms_at(cs: Seq<char>, pos: int, done: Seq<SpecTermDecl>) -> Result<
    (Seq<SpecTermDecl>, int),
    Seq<char>,
>
    decreases cs.len() - pos, 2nat,
    via terms_at_decreases
{
    match term_at(cs, pos) {
        Err(e) => Err(e),
        Ok((t, end)) => {
            let q = skip(cs, end);
            if sees(cs, q, ',') && q >= pos {
                terms_at(cs, q + 1, done.push(t))
            } else if sees(cs, q, ')') {
                Ok((done.push(t), q + 1))
            } else if 0 <= q < cs.len() {
                Err("invalid argument in `"@ + cs + "`; expected `,` or `)` after an argument"@)
            } else {
                Err("unbalanced parentheses in `"@ + cs + "`; expected `pred(term, …)`"@)
            }
        },
    }
}

#[via_fn]
proof fn term_at_decreases(cs: Seq<char>, pos: int) {
    lemma_skip(cs, pos);
    let p = skip(cs, pos);
    if 0 <= p < cs.len() && starts_name(cs[p]) {
        lemma_run(cs, p + 1);
        lemma_skip(cs, run_end(cs, p + 1));
    }
}

#[via_fn]
proof fn args_at_decreases(cs: Seq<char>, pos: int) {
    lemma_skip(cs, pos + 1);
}

#[via_fn]
proof fn terms_at_decreases(cs: Seq<char>, pos: int, done: Seq<SpecTermDecl>) {
}

/// Skipping does not go back, nor past the end.
proof fn lemma_skip(cs: Seq<char>, pos: int)
    ensures
        skip(cs, pos) >= pos,
        0 <= pos <= cs.len() ==> skip(cs, pos) <= cs.len(),
        0 <= skip(cs, pos) < cs.len() ==> !is_blank(cs[skip(cs, pos)]),
    decreases cs.len() - pos,
{
    if 0 <= pos < cs.len() && is_blank(cs[pos]) {
        lemma_skip(cs, pos + 1);
    }
}

/// A run does not go back, nor past the end.
proof fn lemma_run(cs: Seq<char>, pos: int)
    ensures
        run_end(cs, pos) >= pos,
        0 <= pos <= cs.len() ==> run_end(cs, pos) <= cs.len(),
    decreases cs.len() - pos,
{
    if 0 <= pos < cs.len() && goes_on_name(cs[pos]) {
        lemma_run(cs, pos + 1);
    }
}

/// The judgement a text holds.
pub open spec fn fact_of(cs: Seq<char>) -> Result<SpecFactDecl, Seq<char>> {
    let p = skip(cs, 0);
    match name_at(cs, p, "predicate name"@) {
        Err(e) => Err(e),
        Ok(end) => {
            let q = skip(cs, end);
            let tail = if sees(cs, q, '(') {
                args_at(cs, q)
            } else {
                Ok((Seq::empty(), q))
            };
            match tail {
                Err(e) => Err(e),
                Ok((args, after)) => {
                    let r = skip(cs, after);
                    if r != cs.len() {
                        Err(
                            "trailing text `"@ + cs.subrange(r, cs.len() as int) + "` in `"@ + cs
                                + "`; a judgement is one `pred(term, …)`"@,
                        )
                    } else {
                        Ok(SpecFactDecl { pred: cs.subrange(p, end), args })
                    }
                },
            }
        },
    }
}

/// The judgement an annotation's text holds, blanks around it aside.
pub open spec fn parsed_fact(text: Seq<char>) -> Result<SpecFactDecl, Seq<char>> {
    fact_of(trim(text))
}

/// The judgement an annotation's text holds, which may name no variable.
pub open spec fn parsed_ground_fact(text: Seq<char>) -> Result<SpecFactDecl, Seq<char>> {
    match parsed_fact(text) {
        Err(e) => Err(e),
        Ok(f) => if fact_vars(f).len() > 0 {
            Err(
                "rule variable `$"@ + fact_vars(f)[0]
                    + "` cannot appear in a fold's initial state: the seed is supplied by the declaration, before any child has bound anything"@,
            )
        } else {
            Ok(f)
        },
    }
}

fn skip_blanks(cs: &Vec<char>, from: usize) -> (out: usize)
    requires
        from <= cs@.len(),
    ensures
        out == skip(cs@, from as int),
        from <= out <= cs@.len(),
{
    let mut pos: usize = from;
    while pos < cs.len() && blank(cs[pos])
        invariant
            from <= pos <= cs@.len(),
            skip(cs@, from as int) == skip(cs@, pos as int),
        decreases cs@.len() - pos,
    {
        pos += 1;
    }
    pos
}

fn may_start(c: char) -> (out: bool)
    ensures
        out == starts_name(c),
{
    ('a' <= c && c <= 'z') || ('A' <= c && c <= 'Z') || c == '_'
}

fn may_go_on(c: char) -> (out: bool)
    ensures
        out == goes_on_name(c),
{
    may_start(c) || ('0' <= c && c <= '9')
}

fn drop_trailing_blanks(cs: &Vec<char>, from: usize) -> (out: usize)
    requires
        from <= cs@.len(),
    ensures
        from <= out <= cs@.len(),
        cs@.subrange(from as int, out as int) == trim_end(
            cs@.subrange(from as int, cs@.len() as int),
        ),
{
    let mut end: usize = cs.len();
    while end > from && blank(cs[end - 1])
        invariant
            from <= end <= cs@.len(),
            trim_end(cs@.subrange(from as int, cs@.len() as int)) == trim_end(
                cs@.subrange(from as int, end as int),
            ),
        decreases end,
    {
        assert(cs@.subrange(from as int, end as int).drop_last() =~= cs@.subrange(
            from as int,
            end - 1,
        ));
        assert(cs@.subrange(from as int, end as int).last() == cs@[end - 1]);
        end -= 1;
    }
    if end > from {
        assert(cs@.subrange(from as int, end as int).last() == cs@[end - 1]);
    }
    end
}

fn read_name(cs: &Vec<char>, pos: usize, role: &str) -> (out: Result<usize, DeriveError>)
    requires
        pos <= cs@.len(),
    ensures
        match out {
            Ok(end) => name_at(cs@, pos as int, role@) == Ok::<int, Seq<char>>(end as int) && pos
                < end <= cs@.len(),
            Err(e) => name_at(cs@, pos as int, role@) == Err::<int, Seq<char>>(e@),
        },
{
    if pos < cs.len() && may_start(cs[pos]) {
        let mut end: usize = pos + 1;
        while end < cs.len() && may_go_on(cs[end])
            invariant
                pos < end <= cs@.len(),
                run_end(cs@, pos + 1) == run_end(cs@, end as int),
            decreases cs@.len() - end,
        {
            end += 1;
        }
        Ok(end)
    } else {
        let whole = slice_text(cs, 0, cs.len());
        assert(cs@.subrange(0, cs@.len() as int) =~= cs@);
        let stop: usize = drop_trailing_blanks(cs, pos);
        let mut message = cat5("invalid ", role, " in `", whole.as_str(), "`");
        if stop > pos {
            message.append(" at `");
            message.append(slice_text(cs, pos, stop).as_str());
            message.append("`");
        }
        message.append("; expected an identifier such as `state` or `SystemReady`");
        assert(message@ =~= no_name(cs@, pos as int, role@));
        Err(DeriveError { message })
    }
}

fn whole_text(cs: &Vec<char>) -> (out: String)
    ensures
        out@ == cs@,
{
    assert(cs@.subrange(0, cs@.len() as int) =~= cs@);
    slice_text(cs, 0, cs.len())
}

fn read_term(cs: &Vec<char>, pos: usize) -> (out: Result<(CheckTermDecl, usize), DeriveError>)
    requires
        pos <= cs@.len(),
    ensures
        match out {
            Ok(r) => term_at(cs@, pos as int) == Ok::<(SpecTermDecl, int), Seq<char>>(
                (r.0@, r.1 as int),
            ) && pos < r.1 <= cs@.len(),
            Err(e) => term_at(cs@, pos as int) == Err::<(SpecTermDecl, int), Seq<char>>(e@),
        },
    decreases cs@.len() - pos, 0nat,
{
    let p: usize = skip_blanks(cs, pos);
    if p < cs.len() && cs[p] == '$' {
        return match read_name(cs, p + 1, "rule variable") {
            Ok(end) => Ok((CheckTermDecl::Var(slice_text(cs, p + 1, end)), end)),
            Err(e) => Err(e),
        };
    }
    let end: usize = match read_name(cs, p, "argument") {
        Ok(end) => end,
        Err(e) => {
            return Err(e);
        },
    };
    let q: usize = skip_blanks(cs, end);
    if q < cs.len() && cs[q] == '(' {
        match read_args(cs, q) {
            Ok((args, after)) => Ok((CheckTermDecl::Ctor(slice_text(cs, p, end), args), after)),
            Err(e) => Err(e),
        }
    } else {
        Ok((CheckTermDecl::Atom(slice_text(cs, p, end)), q))
    }
}

fn read_args(cs: &Vec<char>, pos: usize) -> (out: Result<(Vec<CheckTermDecl>, usize), DeriveError>)
    requires
        sees(cs@, pos as int, '('),
    ensures
        match out {
            Ok(r) => args_at(cs@, pos as int) == Ok::<(Seq<SpecTermDecl>, int), Seq<char>>(
                (term_decls_view(r.0@), r.1 as int),
            ) && pos < r.1 <= cs@.len(),
            Err(e) => args_at(cs@, pos as int) == Err::<(Seq<SpecTermDecl>, int), Seq<char>>(e@),
        },
    decreases cs@.len() - pos, 1nat,
{
    let n: usize = cs.len();
    assert(pos < n);
    let mut at: usize = skip_blanks(cs, pos + 1);
    let mut done: Vec<CheckTermDecl> = Vec::new();
    assert(term_decls_view(done@) =~= Seq::empty());
    if at < cs.len() && cs[at] == ')' {
        return Ok((done, at + 1));
    }
    loop
        invariant
            pos < at <= cs@.len(),
            sees(cs@, pos as int, '('),
            args_at(cs@, pos as int) == terms_at(cs@, at as int, term_decls_view(done@)),
        decreases cs@.len() - at,
    {
        let (t, end) = match read_term(cs, at) {
            Ok(r) => r,
            Err(e) => {
                return Err(e);
            },
        };
        let ghost before = term_decls_view(done@);
        done.push(t);
        assert(term_decls_view(done@) =~= before.push(t@));
        let q: usize = skip_blanks(cs, end);
        if q >= cs.len() {
            return Err(
                DeriveError {
                    message: cat3(
                        "unbalanced parentheses in `",
                        whole_text(cs).as_str(),
                        "`; expected `pred(term, …)`",
                    ),
                },
            );
        }
        if cs[q] == ',' {
            at = q + 1;
        } else if cs[q] == ')' {
            return Ok((done, q + 1));
        } else {
            return Err(
                DeriveError {
                    message: cat3(
                        "invalid argument in `",
                        whole_text(cs).as_str(),
                        "`; expected `,` or `)` after an argument",
                    ),
                },
            );
        }
    }
}

fn read_fact(cs: &Vec<char>) -> (out: Result<CheckFactDecl, DeriveError>)
    ensures
        planned(out) == fact_of(cs@),
{
    let p: usize = skip_blanks(cs, 0);
    let end: usize = match read_name(cs, p, "predicate name") {
        Ok(end) => end,
        Err(e) => {
            return Err(e);
        },
    };
    let q: usize = skip_blanks(cs, end);
    let mut args: Vec<CheckTermDecl> = Vec::new();
    assert(term_decls_view(args@) =~= Seq::empty());
    let mut after: usize = q;
    if q < cs.len() && cs[q] == '(' {
        match read_args(cs, q) {
            Ok((found, stop)) => {
                args = found;
                after = stop;
            },
            Err(e) => {
                return Err(e);
            },
        }
    }
    let r: usize = skip_blanks(cs, after);
    if r != cs.len() {
        return Err(
            DeriveError {
                message: cat5(
                    "trailing text `",
                    slice_text(cs, r, cs.len()).as_str(),
                    "` in `",
                    whole_text(cs).as_str(),
                    "`; a judgement is one `pred(term, …)`",
                ),
            },
        );
    }
    Ok(CheckFactDecl { pred: slice_text(cs, p, end), args })
}

/// The characters of a text without blanks at either end.
pub(crate) fn trimmed(text: &str) -> (out: Vec<char>)
    ensures
        out@ == trim(text@),
{
    let cs = chars_of(text);
    let from: usize = skip_blanks(&cs, 0);
    let to: usize = drop_trailing_blanks(&cs, from);
    let mut out: Vec<char> = Vec::new();
    for i in from..to
        invariant
            from <= to <= cs@.len(),
            out@ == cs@.subrange(from as int, i as int),
    {
        out.push(cs[i]);
        assert(out@ =~= cs@.subrange(from as int, i + 1));
    }
    out
}

/// Reads a judgement.
pub fn parse_check_fact(text: &str) -> (out: Result<CheckFactDecl, DeriveError>)
    ensures
        planned(out) == parsed_fact(text@),
{
    let cs = trimmed(text);
    read_fact(&cs)
}

/// Reads a judgement that may name no variable: the seed of a fold comes
/// before anything is bound.
pub fn parse_check_fact_ground(text: &str) -> (out: Result<CheckFactDecl, DeriveError>)
    ensures
        planned(out) == parsed_ground_fact(text@),
{
    let decl = match parse_check_fact(text) {
        Ok(d) => d,
        Err(e) => {
            return Err(e);
        },
    };
    let mut vars: Vec<String> = Vec::new();
    assert(strings_view(vars@) =~= Seq::empty());
    decl.collect_vars(&mut vars);
    assert(strings_view(vars@) =~= fact_vars(decl@));
    if vars.len() > 0 {
        assert(strings_view(vars@)[0] == vars@[0]@);
        return Err(
            DeriveError {
                message: cat3(
                    "rule variable `$",
                    vars[0].as_str(),
                    "` cannot appear in a fold's initial state: the seed is supplied by the declaration, before any child has bound anything",
                ),
            },
        );
    }
    Ok(decl)
}

} // verus!
