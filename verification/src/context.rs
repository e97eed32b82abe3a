//! Where an observation, a suspension or an error happened.
use vstd::prelude::*;
use vstd::string::*;

use crate::ids::{path_text, tagged, CallFrameId, Iteration, NodeId, Path};
use crate::text::{decimal, push_decimal};

verus! {

/// Location context attached to every emitted event and to every error.
#[derive(Debug, PartialEq, Eq)]
pub struct NodeContext {
    /// The node currently being evaluated.
    pub node: NodeId,
    /// The root-to-node path leading to `node`.
    pub path: Path,
    /// The active call frame, if any.
    pub frame: Option<CallFrameId>,
    /// Depth of the current evaluation stack.
    pub depth: u32,
    /// Iteration counter when the surrounding node is loop-shaped.
    pub iteration: Option<Iteration>,
}

/// The mathematical shape of a [`NodeContext`].
pub struct SpecContext {
    pub node: NodeId,
    pub path: Seq<NodeId>,
    pub frame: Option<CallFrameId>,
    pub depth: u32,
    pub iteration: Option<Iteration>,
}

impl View for NodeContext {
    type V = SpecContext;

    open spec fn view(&self) -> SpecContext {
        SpecContext {
            node: self.node,
            path: self.path@,
            frame: self.frame,
            depth: self.depth,
            iteration: self.iteration,
        }
    }
}

impl Clone for NodeContext {
    fn clone(&self) -> (out: Self)
        ensures
            out@ == self@,
    {
        NodeContext {
            node: self.node,
            path: self.path.clone(),
            frame: self.frame,
            depth: self.depth,
            iteration: self.iteration,
        }
    }
}

/// The text a context is shown as.
pub open spec fn context_text(ctx: SpecContext) -> Seq<char> {
    let frame = match ctx.frame {
        Some(f) => " (frame "@ + tagged("f"@, f.0) + ", depth "@ + decimal(ctx.depth as nat)
            + ")"@,
        None => Seq::empty(),
    };
    let iteration = match ctx.iteration {
        Some(it) => " iter "@ + decimal(it.0 as nat),
        None => Seq::empty(),
    };
    tagged("n"@, ctx.node.0) + frame + iteration + " at "@ + path_text(ctx.path)
}

impl NodeContext {
    /// A context for a node visited without any active frame.
    pub fn at(node: NodeId, path: Path) -> (out: Self)
        ensures
            out@ == (SpecContext {
                node,
                path: path@,
                frame: None,
                depth: 0,
                iteration: None,
            }),
    {
        NodeContext { node, path, frame: None, depth: 0, iteration: None }
    }

    /// `n3 (frame f1, depth 2) iter 4 at /n1/n3`.
    pub fn to_text(&self) -> (out: String)
        ensures
            out@ == context_text(self@),
    {
        let mut out = self.node.to_text();
        let ghost mut frame_part = Seq::<char>::empty();
        let ghost mut iter_part = Seq::<char>::empty();
        if let Some(frame) = self.frame {
            let ghost before = out@;
            out.append(" (frame ");
            out.append(frame.to_text().as_str());
            out.append(", depth ");
            push_decimal(&mut out, self.depth as u64);
            out.append(")");
            proof {
                frame_part = " (frame "@ + tagged("f"@, frame.0) + ", depth "@ + decimal(
                    self.depth as nat,
                ) + ")"@;
                assert(out@ =~= before + frame_part);
            }
        }
        assert(out@ =~= tagged("n"@, self.node.0) + frame_part);
        if let Some(it) = self.iteration {
            let ghost before = out@;
            out.append(" iter ");
            push_decimal(&mut out, it.0);
            proof {
                iter_part = " iter "@ + decimal(it.0 as nat);
                assert(out@ =~= before + iter_part);
            }
        }
        assert(out@ =~= tagged("n"@, self.node.0) + frame_part + iter_part);
        out.append(" at ");
        out.append(self.path.to_text().as_str());
        assert(out@ =~= context_text(self@));
        out
    }
}

} // verus!
