//! The two operators of the language.
use vstd::prelude::*;

use crate::context::{NodeContext, SpecContext};
use crate::error::{quote, quoted, EngineError, SpecEngineError};
use crate::ids::{NodeId, Path};
use crate::join::{Op, OpId, OpRegistry, Shared};
use crate::text::{decimal, push_decimal};

verus! {

/// A binary operator.
#[derive(Debug, Clone, Copy, PartialEq, Eq, Structural)]
pub enum BinOp {
    /// The sum, wrapping around.
    Add,
    /// The product, wrapping around.
    Mul,
}

impl BinOp {
    /// The name the operator goes by.
    pub open spec fn op_name(self) -> Seq<char> {
        match self {
            BinOp::Add => "add"@,
            BinOp::Mul => "mul"@,
        }
    }

    /// What two numbers give.
    pub open spec fn of(self, a: i64, b: i64) -> i64 {
        match self {
            BinOp::Add => a.wrapping_add(b),
            BinOp::Mul => a.wrapping_mul(b),
        }
    }

    /// The name the operator goes by.
    pub fn name(self) -> (out: &'static str)
        ensures
            out@ == self.op_name(),
    {
        match self {
            BinOp::Add => "add",
            BinOp::Mul => "mul",
        }
    }

    /// What two numbers give.
    pub fn compute(self, a: i64, b: i64) -> (out: i64)
        ensures
            out == self.of(a, b),
    {
        match self {
            BinOp::Add => a.wrapping_add(b),
            BinOp::Mul => a.wrapping_mul(b),
        }
    }
}

/// What is said of another number of arguments than two.
pub open spec fn arity_text(name: Seq<char>, given: nat) -> Seq<char> {
    "op "@ + quoted(name) + " expects 2 args, got "@ + decimal(given)
}

impl Op<i64> for BinOp {
    open spec fn folded(&self, node: NodeId, args: Seq<i64>) -> Result<i64, SpecEngineError> {
        if args.len() == 2 {
            Ok(self.of(args[0], args[1]))
        } else {
            Err(
                SpecEngineError::EvalFailed {
                    at: SpecContext {
                        node,
                        path: seq![node],
                        frame: None,
                        depth: 0,
                        iteration: None,
                    },
                    source: arity_text(self.op_name(), args.len()),
                },
            )
        }
    }

    fn apply(&self, node: NodeId, args: &[i64]) -> (out: Result<i64, EngineError>) {
        if args.len() == 2 {
            Ok(self.compute(args[0], args[1]))
        } else {
            let at = NodeContext::at(node, Path::root().push(node));
            assert(at@.path =~= seq![node]);
            let mut source = "op ".to_owned();
            source.append(quote(self.name()).as_str());
            source.append(" expects 2 args, got ");
            push_decimal(&mut source, args.len() as u64);
            assert(source@ =~= arity_text(self.op_name(), args@.len()));
            Err(EngineError::EvalFailed { at, source })
        }
    }
}

/// The operator table of the language, over shared handles of the two
/// operators.
pub fn ops(sum: Shared<dyn Op<i64>>, product: Shared<dyn Op<i64>>) -> (out: OpRegistry<i64>)
    ensures
        out.op_map() == Map::<Seq<char>, Shared<dyn Op<i64>>>::empty().insert(
            BinOp::Add.op_name(),
            sum,
        ).insert(BinOp::Mul.op_name(), product),
{
    let mut out: OpRegistry<i64> = OpRegistry::new();
    out.register(OpId::new("add"), sum);
    out.register(OpId::new("mul"), product);
    out
}

} // verus!
