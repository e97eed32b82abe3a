//! What programs mean, and how numbers are written and read.
use vstd::prelude::*;

use crate::error::SpecEngineError;
use crate::event::SpecPending;
use crate::ids::laws::{law_decimal_notation_denotes_the_number, number_in};
use crate::ids::NodeId;
use crate::join::Op;
use crate::picking::{lemma_made_of_more, lemma_made_of_none, lemma_made_of_same, made_of};
use crate::places::node_at;
use crate::refdsl::host::{
    calls_among, digits_value, fresh_host, host_results, law_rows_are_ordered, long_in, run_host,
    unsigned_in, SpecHost, ANSWER_LIMIT,
};
use crate::refdsl::ops::BinOp;
use crate::refdsl::run::{
    answer_text, answered, default_for, env_of, lemma_inner_first, meaning,
};
use crate::refdsl::{bindings, integer_text, ref_id, value_of, Binding, Ref};
use crate::text::decimal;
use crate::walk::Walk;

verus! {

/// A name stands for what it was bound to last.
pub proof fn law_a_name_has_its_innermost_value(
    env: Seq<(Seq<char>, i64)>,
    name: Seq<char>,
    i: int,
)
    ensures
        value_of(env, name) is None <==> forall|k: int|
            0 <= k < env.len() ==> (#[trigger] env[k]).0 != name,
        0 <= i < env.len() && env[i].0 == name && (forall|k: int|
            i < k < env.len() ==> (#[trigger] env[k]).0 != name) ==> value_of(env, name) == Some(
            env[i].1,
        ),
    decreases env.len(),
{
    if env.len() > 0 {
        let init = env.drop_last();
        let last = env.len() - 1;
        law_a_name_has_its_innermost_value(init, name, i);
        assert(env[last] == env.last());
        if value_of(env, name) is None {
            assert forall|k: int| 0 <= k < env.len() implies (#[trigger] env[k]).0 != name by {
                if k < last {
                    assert(init[k] == env[k]);
                }
            }
        }
        if forall|k: int| 0 <= k < env.len() ==> (#[trigger] env[k]).0 != name {
            assert(env[last].0 != name);
            assert forall|k: int| 0 <= k < init.len() implies (#[trigger] init[k]).0 != name by {
                assert(init[k] == env[k]);
            }
        }
        if 0 <= i < last && env[i].0 == name && (forall|k: int|
            i < k < env.len() ==> (#[trigger] env[k]).0 != name) {
            assert(init[i] == env[i]);
            assert(env[last].0 != name);
            assert forall|k: int| i < k < init.len() implies (#[trigger] init[k]).0 != name by {
                assert(init[k] == env[k]);
            }
        }
    }
}

/// Whether two environments give every name the same value.
pub open spec fn agree(a: Seq<(Seq<char>, i64)>, b: Seq<(Seq<char>, i64)>) -> bool {
    forall|n: Seq<char>| #[trigger] value_of(a, n) == value_of(b, n)
}

/// Whether an environment gives one name a value, and every other name the
/// value that another gives it.
pub open spec fn extends(
    a: Seq<(Seq<char>, i64)>,
    name: Seq<char>,
    value: i64,
    b: Seq<(Seq<char>, i64)>,
) -> bool {
    forall|n: Seq<char>| #[trigger]
        value_of(b, n) == (if n == name {
            Some(value)
        } else {
            value_of(a, n)
        })
}

proof fn lemma_extends(a: Seq<(Seq<char>, i64)>, name: Seq<char>, value: i64)
    ensures
        extends(a, name, value, a.push((name, value))),
{
    let b = a.push((name, value));
    assert(b.drop_last() =~= a);
}

/// What a program means depends on what its names stand for, and on nothing
/// else of where it stands.
pub proof fn law_meaning_depends_on_values_alone(
    r: Ref,
    a: Seq<(Seq<char>, i64)>,
    b: Seq<(Seq<char>, i64)>,
)
    requires
        agree(a, b),
    ensures
        meaning(r, a) == meaning(r, b),
        answered(r, a) == answered(r, b),
    decreases r,
{
    match r {
        Ref::Lit { .. } => {},
        Ref::Var { name, .. } => {
            assert(value_of(a, name@) == value_of(b, name@));
        },
        Ref::Add { lhs, rhs, .. } => {
            law_meaning_depends_on_values_alone(*lhs, a, b);
            law_meaning_depends_on_values_alone(*rhs, a, b);
        },
        Ref::Mul { lhs, rhs, .. } => {
            law_meaning_depends_on_values_alone(*lhs, a, b);
            law_meaning_depends_on_values_alone(*rhs, a, b);
        },
        Ref::Let { name, value, body, .. } => {
            law_meaning_depends_on_values_alone(*value, a, b);
            let v = meaning(*value, a);
            lemma_extends(a, name@, v);
            lemma_extends(b, name@, v);
            assert(agree(a.push((name@, v)), b.push((name@, v)))) by {
                assert forall|n: Seq<char>| #[trigger]
                    value_of(a.push((name@, v)), n) == value_of(b.push((name@, v)), n) by {
                    assert(value_of(a, n) == value_of(b, n));
                    assert(value_of(b.push((name@, v)), n) == (if n == name@ {
                        Some(v)
                    } else {
                        value_of(b, n)
                    }));
                }
            }
            law_meaning_depends_on_values_alone(*body, a.push((name@, v)), b.push((name@, v)));
        },
        Ref::If { cond, then_branch, else_branch, .. } => {
            law_meaning_depends_on_values_alone(*cond, a, b);
            law_meaning_depends_on_values_alone(*then_branch, a, b);
            law_meaning_depends_on_values_alone(*else_branch, a, b);
        },
    }
}

/// A binding means what its body means where the name stands for the value
/// and every other name for what it stood for outside; the value is taken
/// outside.
pub proof fn law_a_binding_holds_in_its_body(
    r: Ref,
    env: Seq<(Seq<char>, i64)>,
    inner: Seq<(Seq<char>, i64)>,
)
    requires
        r is Let,
        extends(env, r->Let_name@, meaning(*r->Let_value, env), inner),
    ensures
        meaning(r, env) == meaning(*r->body, inner),
        answered(r, env) == answered(*r->Let_value, env) + answered(*r->body, inner),
{
    let name = r->Let_name@;
    let v = meaning(*r->Let_value, env);
    let own = env.push((name, v));
    lemma_extends(env, name, v);
    assert(agree(own, inner)) by {
        assert forall|n: Seq<char>| #[trigger] value_of(own, n) == value_of(inner, n) by {
            assert(value_of(inner, n) == (if n == name {
                Some(v)
            } else {
                value_of(env, n)
            }));
        }
    }
    law_meaning_depends_on_values_alone(*r->body, own, inner);
}

/// A choice means what the branch means that its condition picks: the first
/// where the condition is not zero. The other branch has no say.
pub proof fn law_a_choice_means_the_branch_it_takes(
    cond: Ref,
    a: Ref,
    b: Ref,
    other: Ref,
    id: NodeId,
    env: Seq<(Seq<char>, i64)>,
)
    ensures
        meaning(cond, env) != 0 ==> meaning(
            Ref::If {
                id,
                cond: Box::new(cond),
                then_branch: Box::new(a),
                else_branch: Box::new(other),
            },
            env,
        ) == meaning(a, env),
        meaning(cond, env) == 0 ==> meaning(
            Ref::If {
                id,
                cond: Box::new(cond),
                then_branch: Box::new(other),
                else_branch: Box::new(b),
            },
            env,
        ) == meaning(b, env),
{
}

/// Whether a number is one of 64 bits.
pub open spec fn fits(n: int) -> bool {
    i64::MIN <= n <= i64::MAX
}

/// A sum means the sum where it fits, and goes around by 2^64 where it does
/// not; a product that fits means the product.
pub proof fn law_sums_and_products(l: Ref, r: Ref, id: NodeId, env: Seq<(Seq<char>, i64)>)
    ensures
        ({
            let a = meaning(l, env) as int;
            let b = meaning(r, env) as int;
            let sum = meaning(Ref::Add { id, lhs: Box::new(l), rhs: Box::new(r) }, env) as int;
            let product = meaning(Ref::Mul { id, lhs: Box::new(l), rhs: Box::new(r) }, env) as int;
            &&& fits(a + b) ==> sum == a + b
            &&& a + b > i64::MAX ==> sum == a + b - 0x1_0000_0000_0000_0000
            &&& a + b < i64::MIN ==> sum == a + b + 0x1_0000_0000_0000_0000
            &&& fits(a * b) ==> product == a * b
            &&& (product - a * b) % 0x1_0000_0000_0000_0000 == 0
        }),
{
}

/// What the host answers for a variable that is not bound.
pub proof fn law_unbound_variables_have_defaults(id: NodeId, name: String, env: Seq<(Seq<char>, i64)>)
    ensures
        value_of(env, name@) is None && name@ == "x"@ ==> meaning(Ref::Var { id, name }, env) == 3,
        value_of(env, name@) is None && name@ == "y"@ ==> meaning(Ref::Var { id, name }, env) == 5,
        value_of(env, name@) is None && name@ == "z"@ ==> meaning(Ref::Var { id, name }, env) == 2,
        value_of(env, name@) is None && name@ != "x"@ && name@ != "y"@ && name@ != "z"@ ==> meaning(
            Ref::Var { id, name },
            env,
        ) == 1,
        value_of(env, name@) matches Some(v) ==> meaning(Ref::Var { id, name }, env) == v
            && answered(Ref::Var { id, name }, env).len() == 0,
        value_of(env, name@) is None ==> answered(Ref::Var { id, name }, env) == seq![
            (id.0, name@ + " = "@ + integer_text(meaning(Ref::Var { id, name }, env) as int)),
        ],
{
    reveal_strlit("x");
    reveal_strlit("y");
    reveal_strlit("z");
    assert("x"@[0] == 'x');
    assert("y"@[0] == 'y');
    assert("z"@[0] == 'z');
}

/// Whether an answer is for a variable that stands in a program.
pub open spec fn answers_variable(r: Ref, row: (u64, Seq<char>)) -> bool {
    exists|way: Seq<int>|
        #![trigger node_at(r, way)]
        node_at(r, way) matches Some(Ref::Var { id, name }) && row == (
            id.0,
            answer_text(name@, default_for(name@) as int),
        )
}

proof fn lemma_below(r: Ref, k: int, row: (u64, Seq<char>))
    requires
        0 <= k < r.children_spec().len(),
        answers_variable(r.children_spec()[k], row),
    ensures
        answers_variable(r, row),
{
    let c = r.children_spec()[k];
    let way = choose|way: Seq<int>|
        #![trigger node_at(c, way)]
        node_at(c, way) matches Some(Ref::Var { id, name }) && row == (
            id.0,
            answer_text(name@, default_for(name@) as int),
        );
    let longer = seq![k] + way;
    assert(longer.skip(1) =~= way);
    assert(node_at(r, longer) == node_at(c, way));
}

/// Every answer that the host gives is for a variable of the program.
pub proof fn law_only_variables_are_asked_for(r: Ref, env: Seq<(Seq<char>, i64)>)
    ensures
        forall|k: int|
            0 <= k < answered(r, env).len() ==> answers_variable(r, #[trigger] answered(r, env)[k]),
    decreases r,
{
    let all = answered(r, env);
    match r {
        Ref::Lit { .. } => {
            assert(all.len() == 0);
        },
        Ref::Var { .. } => {
            assert(node_at(r, Seq::empty()) == Some(r));
            assert(all.len() <= 1);
        },
        Ref::Add { lhs, rhs, .. } => {
            law_only_variables_are_asked_for(*lhs, env);
            law_only_variables_are_asked_for(*rhs, env);
            lemma_two(r, *lhs, env, *rhs, env);
            assert(all == answered(*lhs, env) + answered(*rhs, env));
        },
        Ref::Mul { lhs, rhs, .. } => {
            law_only_variables_are_asked_for(*lhs, env);
            law_only_variables_are_asked_for(*rhs, env);
            lemma_two(r, *lhs, env, *rhs, env);
            assert(all == answered(*lhs, env) + answered(*rhs, env));
        },
        Ref::Let { name, value, body, .. } => {
            let inner = env.push((name@, meaning(*value, env)));
            law_only_variables_are_asked_for(*value, env);
            law_only_variables_are_asked_for(*body, inner);
            lemma_two(r, *value, env, *body, inner);
            assert(all == answered(*value, env) + answered(*body, inner));
        },
        Ref::If { cond, then_branch, else_branch, .. } => {
            law_only_variables_are_asked_for(*cond, env);
            law_only_variables_are_asked_for(*then_branch, env);
            law_only_variables_are_asked_for(*else_branch, env);
            let first = answered(*cond, env);
            let i: int = if meaning(*cond, env) != 0 {
                1
            } else {
                2
            };
            let second = answered(r.children_spec()[i], env);
            assert(all == first + second);
            assert forall|k: int| 0 <= k < all.len() implies answers_variable(
                r,
                #[trigger] all[k],
            ) by {
                if k < first.len() {
                    assert(answers_variable(*cond, first[k]));
                    lemma_below(r, 0, all[k]);
                } else {
                    assert(answers_variable(r.children_spec()[i], second[k - first.len()]));
                    lemma_below(r, i, all[k]);
                }
            }
        },
    }
}

proof fn lemma_two(
    r: Ref,
    a: Ref,
    ea: Seq<(Seq<char>, i64)>,
    b: Ref,
    eb: Seq<(Seq<char>, i64)>,
)
    requires
        r.children_spec().len() == 2,
        r.children_spec()[0] == a,
        r.children_spec()[1] == b,
        forall|k: int|
            0 <= k < answered(a, ea).len() ==> answers_variable(a, #[trigger] answered(a, ea)[k]),
        forall|k: int|
            0 <= k < answered(b, eb).len() ==> answers_variable(b, #[trigger] answered(b, eb)[k]),
    ensures
        forall|k: int|
            0 <= k < (answered(a, ea) + answered(b, eb)).len() ==> answers_variable(
                r,
                #[trigger] (answered(a, ea) + answered(b, eb))[k],
            ),
{
    let first = answered(a, ea);
    let second = answered(b, eb);
    let all = first + second;
    assert forall|k: int| 0 <= k < all.len() implies answers_variable(r, #[trigger] all[k]) by {
        if k < first.len() {
            assert(answers_variable(a, first[k]));
            lemma_below(r, 0, all[k]);
        } else {
            assert(answers_variable(b, second[k - first.len()]));
            lemma_below(r, 1, all[k]);
        }
    }
}

proof fn lemma_same_digits(cs: Seq<char>)
    ensures
        digits_value(cs) == number_in(cs),
    decreases cs.len(),
{
    if cs.len() > 0 {
        lemma_same_digits(cs.drop_last());
    }
}

/// A number is read back from the text it is written as.
pub proof fn law_integers_are_read_back(n: i64)
    ensures
        long_in(integer_text(n as int)) == Some(n),
{
    reveal_strlit("-");
    let text = integer_text(n as int);
    if n < 0 {
        let d = decimal((-n) as nat);
        law_decimal_notation_denotes_the_number((-n) as nat);
        lemma_same_digits(d);
        assert(text[0] == '-');
        assert(text.skip(1) =~= d);
        assert(unsigned_in(d) == Some(-(n as int)));
    } else {
        let d = decimal(n as nat);
        law_decimal_notation_denotes_the_number(n as nat);
        lemma_same_digits(d);
        assert(text[0] == d[0]);
        assert(unsigned_in(d) == Some(n as int));
    }
}

/// The calls among suspensions are those that wait for a call, in order.
pub proof fn law_calls_are_picked_in_order(ps: Seq<SpecPending>)
    ensures
        made_of(
            calls_among(ps),
            ps,
            ps.len() as int,
            |p: SpecPending| p.reason is Call,
            |p: SpecPending| (p.id, p.at.node.0, p.reason->spec.label),
        ),
    decreases ps.len(),
{
    let p = |p: SpecPending| p.reason is Call;
    let f = |p: SpecPending| (p.id, p.at.node.0, p.reason->spec.label);
    if ps.len() == 0 {
        lemma_made_of_none(ps, p, f);
    } else {
        let init = ps.drop_last();
        law_calls_are_picked_in_order(init);
        lemma_made_of_same(calls_among(init), init, ps, ps.len() - 1, p, f);
        lemma_made_of_more(calls_among(init), ps, ps.len() - 1, p, f);
    }
}

/// A run ends with the meaning of the program and all its answers, and a
/// program that has run stays as it is. A run that gives too many answers has
/// no value, and keeps what was answered so far.
pub proof fn law_a_run_ends_with_the_meaning(program: Ref)
    ensures
        answered(program, Seq::empty()).len() <= ANSWER_LIMIT ==> {
            let h = run_host(fresh_host(program));
            &&& h.final_value == Some(meaning(program, Seq::empty()))
            &&& h.resolved_log == answered(program, Seq::empty())
            &&& h.program == program
            &&& run_host(h) == h
        },
        answered(program, Seq::empty()).len() > ANSWER_LIMIT ==> {
            let h = run_host(fresh_host(program));
            &&& h.final_value is None
            &&& h.program == program
            &&& h.resolved_log.len() == ANSWER_LIMIT + 1
            &&& h.resolved_log.is_prefix_of(answered(program, Seq::empty()))
        },
{
}

/// Inner bindings hide outer ones: a chain of bindings gives a name what the
/// innermost link gives it that binds it.
pub proof fn law_inner_links_hide_outer_ones(
    chain: Seq<Binding>,
    link: Binding,
    name: Seq<char>,
)
    ensures
        value_of(env_of(chain.push(link)), name) == (match value_of(bindings(link), name) {
            Some(v) => Some(v),
            None => value_of(env_of(chain), name),
        }),
        value_of(env_of(Seq::empty()), name) is None,
{
    assert(chain.push(link).drop_last() =~= chain);
    lemma_inner_first(env_of(chain), bindings(link), name);
}

/// A link binds its own name to its own value, and every other name to what
/// the links outside it do.
pub proof fn law_a_link_binds_its_name(name: String, value: i64, outer: Binding, n: Seq<char>)
    ensures
        value_of(
            bindings(Binding::Bound { name, value, outer: Box::new(outer) }),
            n,
        ) == (if n == name@ {
            Some(value)
        } else {
            value_of(bindings(outer), n)
        }),
        value_of(bindings(Binding::Empty), n) is None,
{
    let b = bindings(outer);
    assert(b.push((name@, value)).drop_last() =~= b);
}

/// What a host shows are its answers and, once it is done, the value of the
/// program under its root: all of them, in the order of their nodes.
pub proof fn law_a_host_shows_all_it_has(h: SpecHost)
    ensures
        forall|i: int, j: int|
            0 <= i < j < host_results(h).len() ==> host_results(h)[i].0 <= host_results(h)[j].0,
        h.final_value is None ==> host_results(h).to_multiset() == h.resolved_log.to_multiset(),
        h.final_value matches Some(v) ==> host_results(h).to_multiset()
            == h.resolved_log.to_multiset().insert((ref_id(h.program).0, integer_text(v as int))),
{
    match h.final_value {
        Some(v) => {
            let row = (ref_id(h.program).0, integer_text(v as int));
            law_rows_are_ordered(h.resolved_log.push(row));
            h.resolved_log.to_multiset_ensures();
        },
        None => {
            law_rows_are_ordered(h.resolved_log);
        },
    }
}

/// An operator is for two arguments: it gives their sum or product, and says
/// at its node that it was given another number of them.
pub proof fn law_operators_take_two_arguments(op: BinOp, node: NodeId, args: Seq<i64>)
    ensures
        op.folded(node, args) is Ok <==> args.len() == 2,
        args.len() == 2 && fits(args[0] + args[1]) && op == BinOp::Add ==> op.folded(node, args)
            == Ok::<i64, SpecEngineError>((args[0] + args[1]) as i64),
        args.len() == 2 && fits(args[0] * args[1]) && op == BinOp::Mul ==> op.folded(node, args)
            == Ok::<i64, SpecEngineError>((args[0] * args[1]) as i64),
        op.folded(node, args) matches Err(e) ==> (e matches SpecEngineError::EvalFailed {
            at,
            source,
        } && at.node == node && at.path == seq![node]),
        BinOp::Add.op_name() != BinOp::Mul.op_name(),
{
    reveal_strlit("add");
    reveal_strlit("mul");
    assert("add"@[0] == 'a');
    assert("mul"@[0] == 'm');
    if args.len() == 2 {
        let a = args[0] as int;
        let b = args[1] as int;
        if fits(a * b) {
            assert(BinOp::Mul.of(args[0], args[1]) == a * b);
        }
    }
}

} // verus!
