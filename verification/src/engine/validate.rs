//! Checking a whole tree before it runs.
use std::collections::HashSet;

use vstd::prelude::*;
use vstd::string::*;

use crate::context::{NodeContext, SpecContext};
use crate::engine::ast::{Ast, NodeKind, SpecKind};
use crate::error::{EngineError, SpecEngineError};
use crate::ids::{NodeId, Path};
use crate::join::{JoinPolicy, JoinShape, ReducerRegistry};
use crate::text::{decimal, push_decimal};

verus! {

/// The fault of a malformed node.
pub open spec fn malformed(node: NodeId, detail: Seq<char>) -> SpecEngineError {
    SpecEngineError::Malformed {
        at: SpecContext { node, path: seq![node], frame: None, depth: 0, iteration: None },
        detail,
    }
}

/// What is wrong with a fan-out of `n` children, if anything.
pub open spec fn par_fault(node: NodeId, n: nat, policy: JoinPolicy) -> Option<SpecEngineError> {
    match policy.shape {
        JoinShape::All => None,
        JoinShape::Any => if n == 0 {
            Some(malformed(node, "Par with JoinShape::Any requires >= 1 child"@))
        } else {
            None
        },
        JoinShape::FirstK(k) => if k > n {
            Some(
                malformed(
                    node,
                    "Par with JoinShape::FirstK("@ + decimal(k as nat)
                        + ") requires children.len() >= k (got "@ + decimal(n) + ")"@,
                ),
            )
        } else {
            None
        },
    }
}

/// What is wrong with a node, if anything.
pub open spec fn fault<A: Ast>(
    ast: A,
    registry: ReducerRegistry<A::Value, A::Delta, A::EffectError>,
    id: NodeId,
) -> Option<SpecEngineError> {
    match ast.kind_spec(id) {
        SpecKind::Par { children, policy, reducer_id } => match par_fault(
            id,
            children.len(),
            policy,
        ) {
            Some(e) => Some(e),
            None => if registry.resolved(reducer_id, policy.fail) is None {
                Some(SpecEngineError::UnknownReducer { id: reducer_id })
            } else {
                None
            },
        },
        _ => None,
    }
}

/// The nodes directly below a node.
pub open spec fn below(kind: SpecKind) -> Seq<NodeId> {
    match kind {
        SpecKind::Sequence { children } => children,
        SpecKind::Par { children, .. } => children,
        SpecKind::Scope { body, .. } => seq![body],
        SpecKind::Maybe { body: Some(body) } => seq![body],
        SpecKind::Maybe { body: None } => Seq::empty(),
        SpecKind::Call { .. } => Seq::empty(),
    }
}

/// What a walk in `fuel` steps finds first, if it ends: the last node of
/// `todo` comes first, nodes in `seen` are passed over.
pub open spec fn survey<A: Ast>(
    ast: A,
    registry: ReducerRegistry<A::Value, A::Delta, A::EffectError>,
    todo: Seq<NodeId>,
    seen: Set<u64>,
    fuel: nat,
) -> Option<Option<SpecEngineError>>
    decreases fuel,
{
    if todo.len() == 0 {
        Some(None)
    } else if fuel == 0 {
        None
    } else {
        let id = todo.last();
        let rest = todo.drop_last();
        if seen.contains(id.0) {
            survey(ast, registry, rest, seen, (fuel - 1) as nat)
        } else {
            match fault(ast, registry, id) {
                Some(e) => Some(Some(e)),
                None => survey(
                    ast,
                    registry,
                    rest + below(ast.kind_spec(id)),
                    seen.insert(id.0),
                    (fuel - 1) as nat,
                ),
            }
        }
    }
}

/// Whether a walk of the whole tree ends with `found`.
pub open spec fn surveyed<A: Ast>(
    ast: A,
    registry: ReducerRegistry<A::Value, A::Delta, A::EffectError>,
    found: Option<SpecEngineError>,
) -> bool {
    exists|fuel: nat|
        #[trigger] survey(ast, registry, seq![ast.root_spec()], Set::empty(), fuel) == Some(found)
}

/// Checks the shape of a fan-out.
fn check_par(node: NodeId, n: usize, policy: JoinPolicy) -> (out: Result<(), EngineError>)
    ensures
        match out {
            Ok(()) => par_fault(node, n as nat, policy) is None,
            Err(e) => par_fault(node, n as nat, policy) == Some(e@),
        },
{
    let detail: Option<String> = match policy.shape {
        JoinShape::All => None,
        JoinShape::Any => if n == 0 {
            Some("Par with JoinShape::Any requires >= 1 child".to_owned())
        } else {
            None
        },
        JoinShape::FirstK(k) => if k > n {
            let mut text = "Par with JoinShape::FirstK(".to_owned();
            push_decimal(&mut text, k as u64);
            text.append(") requires children.len() >= k (got ");
            push_decimal(&mut text, n as u64);
            text.append(")");
            assert(text@ =~= "Par with JoinShape::FirstK("@ + decimal(k as nat)
                + ") requires children.len() >= k (got "@ + decimal(n as nat) + ")"@);
            Some(text)
        } else {
            None
        },
    };
    match detail {
        None => Ok(()),
        Some(detail) => {
            let at = NodeContext::at(node, Path::root().push(node));
            assert(at@.path =~= seq![node]);
            Err(EngineError::Malformed { at, detail })
        },
    }
}

/// Checks every node of a tree: the shape of each fan-out, and that its
/// reducer is registered. Nothing starts.
pub fn validate_ast<A: Ast>(
    ast: &A,
    registry: &ReducerRegistry<A::Value, A::Delta, A::EffectError>,
) -> (out: Result<(), EngineError>)
    ensures
        match out {
            Ok(()) => surveyed(*ast, *registry, None),
            Err(e) => surveyed(*ast, *registry, Some(e@)),
        },
{
    broadcast use vstd::std_specs::hash::group_hash_axioms;

    let mut todo: Vec<NodeId> = Vec::new();
    todo.push(ast.root());
    let ghost whole = todo@;
    assert(whole =~= seq![ast.root_spec()]);
    let mut seen: HashSet<u64> = HashSet::new();
    assert(seen@ =~= Set::empty());
    let ghost mut steps: nat = 0;
    while todo.len() > 0
        invariant
            whole == seq![ast.root_spec()],
            seen@.finite(),
            forall|f: nat|
                #![trigger survey(*ast, *registry, todo@, seen@, f)]
                survey(*ast, *registry, whole, Set::empty(), steps + f) == survey(
                    *ast,
                    *registry,
                    todo@,
                    seen@,
                    f,
                ),
            seen@.len() <= usize::MAX,
        decreases usize::MAX - seen@.len(), todo@.len(),
    {
        let ghost before = todo@;
        let ghost known = seen@;
        let ghost done = steps;
        let id = todo[todo.len() - 1];
        let _ = todo.pop();
        assert(todo@ =~= before.drop_last());
        assert(id == before.last());
        proof {
            steps = steps + 1;
            assert forall|f: nat|
                survey(*ast, *registry, whole, Set::empty(), #[trigger] (done + 1 + f) as nat)
                    == survey(*ast, *registry, before, known, (1 + f) as nat) by {
                assert(done + 1 + f == done + (1 + f) as nat);
            }
        }
        if !seen.contains(&id.0) {
            let kind = ast.node_kind(id);
            let _ = seen.insert(id.0);
            let _count: usize = seen.len();
            let ghost rest = todo@;
            match kind {
                NodeKind::Sequence { children } => {
                    push_all(&mut todo, &children);
                },
                NodeKind::Par { children, policy, reducer_id } => {
                    match check_par(id, children.len(), policy) {
                        Ok(()) => {},
                        Err(e) => {
                            assert(survey(*ast, *registry, before, known, 1) == Some(Some(e@)));
                            assert(survey(
                                *ast,
                                *registry,
                                whole,
                                Set::empty(),
                                (done + 1) as nat,
                            ) == Some(Some(e@)));
                            return Err(e);
                        },
                    }
                    match registry.resolve(&reducer_id, policy.fail) {
                        Ok(_) => {},
                        Err(e) => {
                            assert(survey(*ast, *registry, before, known, 1) == Some(Some(e@)));
                            assert(survey(
                                *ast,
                                *registry,
                                whole,
                                Set::empty(),
                                (done + 1) as nat,
                            ) == Some(Some(e@)));
                            return Err(e);
                        },
                    }
                    push_all(&mut todo, &children);
                },
                NodeKind::Scope { label: _, body } => {
                    todo.push(body);
                },
                NodeKind::Maybe { body } => {
                    if let Some(b) = body {
                        todo.push(b);
                    }
                },
                NodeKind::Call { label: _, payload: _ } => {},
            }
            assert(todo@ =~= rest + below(ast.kind_spec(id)));
        }
    }
    assert(survey(*ast, *registry, todo@, seen@, 0) == Some(None::<SpecEngineError>));
    assert(survey(*ast, *registry, whole, Set::empty(), steps + 0) == Some(
        None::<SpecEngineError>,
    ));
    Ok(())
}

fn push_all(todo: &mut Vec<NodeId>, more: &Vec<NodeId>)
    ensures
        final(todo)@ == old(todo)@ + more@,
{
    let ghost before = todo@;
    for i in 0..more.len()
        invariant
            todo@ == before + more@.take(i as int),
    {
        todo.push(more[i]);
        assert(todo@ =~= before + more@.take(i + 1));
    }
    assert(more@.take(more@.len() as int) =~= more@);
}

} // verus!
