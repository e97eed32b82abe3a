//! What a program comes to when the host answers for unbound variables.
use vstd::prelude::*;

use crate::derived::DslSemantics;
use crate::refdsl::ops::BinOp;
use crate::refdsl::{
    bindings, integer_text, push_integer, value_of, Binding, Ref, RefSemantics,
};
use crate::text::same_text;

verus! {

/// What the host says a variable stands for.
pub open spec fn default_for(name: Seq<char>) -> i64 {
    if name == "x"@ {
        3
    } else if name == "y"@ {
        5
    } else if name == "z"@ {
        2
    } else {
        1
    }
}

/// What the host says a variable stands for.
pub fn default_resolution(name: &str) -> (out: i64)
    ensures
        out == default_for(name@),
{
    if same_text(name, "x") {
        3
    } else if same_text(name, "y") {
        5
    } else if same_text(name, "z") {
        2
    } else {
        1
    }
}

/// The value of a program in which `env` is bound, innermost last.
pub open spec fn meaning(r: Ref, env: Seq<(Seq<char>, i64)>) -> i64
    decreases r,
{
    match r {
        Ref::Lit { value, .. } => value,
        Ref::Var { name, .. } => match value_of(env, name@) {
            Some(v) => v,
            None => default_for(name@),
        },
        Ref::Add { lhs, rhs, .. } => BinOp::Add.of(meaning(*lhs, env), meaning(*rhs, env)),
        Ref::Mul { lhs, rhs, .. } => BinOp::Mul.of(meaning(*lhs, env), meaning(*rhs, env)),
        Ref::Let { name, value, body, .. } => meaning(
            *body,
            env.push((name@, meaning(*value, env))),
        ),
        Ref::If { cond, then_branch, else_branch, .. } => if meaning(*cond, env) != 0 {
            meaning(*then_branch, env)
        } else {
            meaning(*else_branch, env)
        },
    }
}

/// An answer as the log shows it.
pub open spec fn answer_text(name: Seq<char>, value: int) -> Seq<char> {
    name + " = "@ + integer_text(value)
}

/// The answers that the host gives on the way: the asking node and what is
/// said of it.
pub open spec fn answered(r: Ref, env: Seq<(Seq<char>, i64)>) -> Seq<(u64, Seq<char>)>
    decreases r,
{
    match r {
        Ref::Lit { .. } => Seq::empty(),
        Ref::Var { id, name } => if value_of(env, name@) is Some {
            Seq::empty()
        } else {
            seq![(id.0, answer_text(name@, default_for(name@) as int))]
        },
        Ref::Add { lhs, rhs, .. } => answered(*lhs, env) + answered(*rhs, env),
        Ref::Mul { lhs, rhs, .. } => answered(*lhs, env) + answered(*rhs, env),
        Ref::Let { name, value, body, .. } => answered(*value, env) + answered(
            *body,
            env.push((name@, meaning(*value, env))),
        ),
        Ref::If { cond, then_branch, else_branch, .. } => answered(*cond, env) + (if meaning(
            *cond,
            env,
        ) != 0 {
            answered(*then_branch, env)
        } else {
            answered(*else_branch, env)
        }),
    }
}

/// Whether every variable of a program is bound, by `env` or inside it.
pub open spec fn closed_in(r: Ref, env: Seq<(Seq<char>, i64)>) -> bool
    decreases r,
{
    match r {
        Ref::Lit { .. } => true,
        Ref::Var { name, .. } => value_of(env, name@) is Some,
        Ref::Add { lhs, rhs, .. } => closed_in(*lhs, env) && closed_in(*rhs, env),
        Ref::Mul { lhs, rhs, .. } => closed_in(*lhs, env) && closed_in(*rhs, env),
        Ref::Let { name, value, body, .. } => closed_in(*value, env) && closed_in(
            *body,
            env.push((name@, meaning(*value, env))),
        ),
        Ref::If { cond, then_branch, else_branch, .. } => closed_in(*cond, env) && closed_in(
            *then_branch,
            env,
        ) && closed_in(*else_branch, env),
    }
}

/// A program whose variables are all bound asks the host nothing.
pub proof fn law_closed_programs_ask_nothing(r: Ref, env: Seq<(Seq<char>, i64)>)
    requires
        closed_in(r, env),
    ensures
        answered(r, env) == Seq::<(u64, Seq<char>)>::empty(),
    decreases r,
{
    match r {
        Ref::Add { lhs, rhs, .. } => {
            law_closed_programs_ask_nothing(*lhs, env);
            law_closed_programs_ask_nothing(*rhs, env);
        },
        Ref::Mul { lhs, rhs, .. } => {
            law_closed_programs_ask_nothing(*lhs, env);
            law_closed_programs_ask_nothing(*rhs, env);
        },
        Ref::Let { name, value, body, .. } => {
            law_closed_programs_ask_nothing(*value, env);
            law_closed_programs_ask_nothing(*body, env.push((name@, meaning(*value, env))));
        },
        Ref::If { cond, then_branch, else_branch, .. } => {
            law_closed_programs_ask_nothing(*cond, env);
            law_closed_programs_ask_nothing(*then_branch, env);
            law_closed_programs_ask_nothing(*else_branch, env);
        },
        _ => {},
    }
    assert(answered(r, env) =~= Seq::empty());
}

/// What a chain of bindings binds, innermost last.
pub open spec fn env_of(chain: Seq<Binding>) -> Seq<(Seq<char>, i64)>
    decreases chain.len(),
{
    if chain.len() == 0 {
        Seq::empty()
    } else {
        env_of(chain.drop_last()) + bindings(chain.last())
    }
}

/// An inner binding hides an outer one.
pub(crate) proof fn lemma_inner_first(outer: Seq<(Seq<char>, i64)>, inner: Seq<(Seq<char>, i64)>, name: Seq<
    char,
>)
    ensures
        value_of(outer + inner, name) == match value_of(inner, name) {
            Some(v) => Some(v),
            None => value_of(outer, name),
        },
    decreases inner.len(),
{
    if inner.len() == 0 {
        assert(outer + inner =~= outer);
    } else {
        assert((outer + inner).last() == inner.last());
        assert((outer + inner).drop_last() =~= outer + inner.drop_last());
        lemma_inner_first(outer, inner.drop_last(), name);
    }
}

fn lookup_in(chain: &Vec<Binding>, name: &str) -> (out: Option<i64>)
    ensures
        out == value_of(env_of(chain@), name@),
{
    let mut n: usize = chain.len();
    assert(chain@.take(n as int) =~= chain@);
    while n > 0
        invariant
            n <= chain.len(),
            value_of(env_of(chain@), name@) == value_of(env_of(chain@.take(n as int)), name@),
        decreases n,
    {
        proof {
            let front = chain@.take(n as int);
            assert(front.drop_last() =~= chain@.take(n - 1));
            assert(front.last() == chain@[n - 1]);
            lemma_inner_first(env_of(front.drop_last()), bindings(front.last()), name@);
        }
        let found = RefSemantics.lookup(&chain[n - 1], name);
        if found.is_some() {
            return found;
        }
        n -= 1;
    }
    None
}

/// The rows of a log.
pub open spec fn log_view(log: Seq<(u64, String)>) -> Seq<(u64, Seq<char>)> {
    Seq::new(log.len(), |i: int| (log[i].0, log[i].1@))
}

/// Appends a row to a log.
pub(crate) fn push_answer(log: &mut Vec<(u64, String)>, node: u64, name: &str, value: i64)
    ensures
        log_view(final(log)@) == log_view(old(log)@).push(
            (node, answer_text(name@, value as int)),
        ),
{
    let ghost before = log_view(log@);
    let mut text = name.to_owned();
    text.append(" = ");
    push_integer(&mut text, value);
    assert(text@ =~= answer_text(name@, value as int));
    log.push((node, text));
    assert(log_view(log@) =~= before.push((node, answer_text(name@, value as int))));
}

/// Runs a program, answering for unbound variables.
pub fn evaluate(
    program: &Ref,
    chain: &mut Vec<Binding>,
    log: &mut Vec<(u64, String)>,
) -> (out: i64)
    ensures
        out == meaning(*program, env_of(old(chain)@)),
        final(chain)@ == old(chain)@,
        log_view(final(log)@) == log_view(old(log)@) + answered(*program, env_of(old(chain)@)),
    decreases program,
{
    let ghost rows = log_view(log@);
    let ghost env = env_of(chain@);
    let out: i64 = match program {
        Ref::Lit { value, .. } => *value,
        Ref::Var { id, name } => match lookup_in(chain, name.as_str()) {
            Some(v) => v,
            None => {
                let v = default_resolution(name.as_str());
                push_answer(log, id.0, name.as_str(), v);
                v
            },
        },
        Ref::Add { lhs, rhs, .. } => {
            let a = evaluate(lhs, chain, log);
            let b = evaluate(rhs, chain, log);
            BinOp::Add.compute(a, b)
        },
        Ref::Mul { lhs, rhs, .. } => {
            let a = evaluate(lhs, chain, log);
            let b = evaluate(rhs, chain, log);
            BinOp::Mul.compute(a, b)
        },
        Ref::Let { name, value, body, .. } => {
            let v = evaluate(value, chain, log);
            let ghost below = chain@;
            match RefSemantics.bind_delta(name.as_str(), &v) {
                Some(level) => {
                    chain.push(level);
                    proof {
                        assert(chain@.drop_last() =~= below);
                        assert(env_of(chain@) =~= env.push((name@, v)));
                    }
                    let out = evaluate(body, chain, log);
                    chain.pop();
                    assert(chain@ =~= below);
                    out
                },
                None => v,
            }
        },
        Ref::If { cond, then_branch, else_branch, .. } => {
            let c = evaluate(cond, chain, log);
            match RefSemantics.truthy(&c) {
                Some(true) => evaluate(then_branch, chain, log),
                _ => evaluate(else_branch, chain, log),
            }
        },
    };
    assert(log_view(log@) =~= rows + answered(*program, env));
    out
}

} // verus!
