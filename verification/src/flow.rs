//! A small orchestration language with a stepper of its own.
use std::collections::HashSet;

use vstd::prelude::*;

use crate::context::{NodeContext, SpecContext};
use crate::error::{quote, quoted, EngineError, EngineResult, SpecEngineError};
use crate::ids::{nth_number, successor, tagged, IdGen, NodeId, Path};
use crate::text::{cat3, same_text};
use crate::walk::{all_levels, levels, levels_view, DslNode, Walk};

pub mod laws;
pub mod listing;
pub mod stepper;

verus! {

/// Nodes of the language.
#[allow(inconsistent_fields)]
#[derive(Debug)]
pub enum Flow {
    /// Children in turn.
    Sequence {
        /// Identity.
        id: NodeId,
        /// Children.
        children: Vec<Flow>,
    },
    /// Children at once; the stepper schedules them in turn.
    Par {
        /// Identity.
        id: NodeId,
        /// Children.
        children: Vec<Flow>,
    },
    /// An external effect.
    Call {
        /// Identity.
        id: NodeId,
        /// Which effect.
        label: String,
    },
    /// A labelled section.
    Scope {
        /// Identity.
        id: NodeId,
        /// The label.
        label: String,
        /// The section.
        body: Box<Flow>,
    },
    /// A section that may be absent.
    Maybe {
        /// Identity.
        id: NodeId,
        /// The section.
        body: Option<Box<Flow>>,
    },
}

/// How many nodes a flow has.
pub open spec fn size(f: Flow) -> nat
    decreases f, 0nat,
{
    match f {
        Flow::Sequence { children, .. } => 1 + sizes(children@, children@.len()),
        Flow::Par { children, .. } => 1 + sizes(children@, children@.len()),
        Flow::Call { .. } => 1,
        Flow::Scope { body, .. } => 1 + size(*body),
        Flow::Maybe { body: Some(body), .. } => 1 + size(*body),
        Flow::Maybe { body: None, .. } => 1,
    }
}

/// How many nodes the first `n` flows have.
pub open spec fn sizes(fs: Seq<Flow>, n: nat) -> nat
    decreases fs, n,
{
    if n == 0 || n > fs.len() {
        0
    } else {
        sizes(fs, (n - 1) as nat) + size(fs[n - 1])
    }
}

proof fn lemma_sizes(fs: Seq<Flow>, n: nat, i: int)
    requires
        0 <= i < n <= fs.len(),
    ensures
        size(fs[i]) <= sizes(fs, n),
    decreases n,
{
    if i < n - 1 {
        lemma_sizes(fs, (n - 1) as nat, i);
    }
}

/// The identity of a flow.
pub open spec fn flow_id(f: Flow) -> NodeId {
    match f {
        Flow::Sequence { id, .. } => id,
        Flow::Par { id, .. } => id,
        Flow::Call { id, .. } => id,
        Flow::Scope { id, .. } => id,
        Flow::Maybe { id, .. } => id,
    }
}

impl DslNode for Flow {
    open spec fn id_spec(&self) -> NodeId {
        flow_id(*self)
    }

    open spec fn variant_spec(&self) -> Seq<char> {
        match self {
            Flow::Sequence { .. } => "Seq"@,
            Flow::Par { .. } => "Par"@,
            Flow::Call { .. } => "Call"@,
            Flow::Scope { .. } => "Scope"@,
            Flow::Maybe { .. } => "Maybe"@,
        }
    }

    fn node_id(&self) -> (out: NodeId) {
        match self {
            Flow::Sequence { id, .. } => *id,
            Flow::Par { id, .. } => *id,
            Flow::Call { id, .. } => *id,
            Flow::Scope { id, .. } => *id,
            Flow::Maybe { id, .. } => *id,
        }
    }

    fn variant_name(&self) -> (out: &'static str) {
        match self {
            Flow::Sequence { .. } => "Seq",
            Flow::Par { .. } => "Par",
            Flow::Call { .. } => "Call",
            Flow::Scope { .. } => "Scope",
            Flow::Maybe { .. } => "Maybe",
        }
    }
}

impl Walk for Flow {
    open spec fn children_spec(&self) -> Seq<Flow> {
        match self {
            Flow::Sequence { children, .. } => children@,
            Flow::Par { children, .. } => children@,
            Flow::Call { .. } => Seq::empty(),
            Flow::Scope { body, .. } => seq![**body],
            Flow::Maybe { body: Some(body), .. } => seq![**body],
            Flow::Maybe { body: None, .. } => Seq::empty(),
        }
    }

    open spec fn height(&self) -> nat {
        size(*self)
    }

    proof fn children_are_lower(&self, i: int) {
        match self {
            Flow::Sequence { children, .. } => lemma_sizes(children@, children@.len(), i),
            Flow::Par { children, .. } => lemma_sizes(children@, children@.len(), i),
            _ => {},
        }
    }

    fn children<'a>(&'a self) -> (out: Vec<&'a Flow>) {
        let mut out: Vec<&'a Flow> = Vec::new();
        match self {
            Flow::Sequence { children, .. } => {
                push_refs(children, &mut out);
            },
            Flow::Par { children, .. } => {
                push_refs(children, &mut out);
            },
            Flow::Call { .. } => {},
            Flow::Scope { body, .. } => {
                out.push(&**body);
            },
            Flow::Maybe { body, .. } => {
                match body {
                    Some(body) => {
                        out.push(&**body);
                    },
                    None => {},
                }
            },
        }
        out
    }
}

fn push_refs<'a>(children: &'a Vec<Flow>, out: &mut Vec<&'a Flow>)
    requires
        old(out)@.len() == 0,
    ensures
        final(out)@.len() == children@.len(),
        forall|i: int| 0 <= i < children@.len() ==> *(#[trigger] final(out)@[i]) == children@[i],
{
    for i in 0..children.len()
        invariant
            out@.len() == i,
            forall|j: int| 0 <= j < i ==> *(#[trigger] out@[j]) == children@[j],
    {
        out.push(&children[i]);
    }
}

/// The one-line summary of a node.
pub open spec fn flow_summary(f: Flow) -> Seq<char> {
    match f {
        Flow::Sequence { .. } => "Seq"@,
        Flow::Par { .. } => "Par"@,
        Flow::Call { label, .. } => "Call "@ + quoted(label@),
        Flow::Scope { label, .. } => "Scope "@ + quoted(label@),
        Flow::Maybe { .. } => "Maybe"@,
    }
}

impl Flow {
    /// The one-line summary of the node.
    pub fn summary(&self) -> (out: String)
        ensures
            out@ == flow_summary(*self),
    {
        match self {
            Flow::Sequence { .. } => "Seq".to_owned(),
            Flow::Par { .. } => "Par".to_owned(),
            Flow::Call { label, .. } => {
                let mut out = "Call ".to_owned();
                out.append(quote(label.as_str()).as_str());
                out
            },
            Flow::Scope { label, .. } => {
                let mut out = "Scope ".to_owned();
                out.append(quote(label.as_str()).as_str());
                out
            },
            Flow::Maybe { .. } => "Maybe".to_owned(),
        }
    }
}

/// Two spaces for each level.
pub open spec fn indent(depth: nat) -> Seq<char>
    decreases depth,
{
    if depth == 0 {
        Seq::empty()
    } else {
        indent((depth - 1) as nat) + "  "@
    }
}

/// One line of a listing.
pub open spec fn listing_line(id: NodeId, summary: Seq<char>, depth: nat) -> Seq<char> {
    indent(depth) + tagged("n"@, id.0) + " "@ + summary + "\n"@
}

/// The listing of the first `n` nodes.
pub open spec fn flow_listing(ls: Seq<(Flow, usize)>, n: nat) -> Seq<char>
    decreases n,
{
    if n == 0 || n > ls.len() {
        Seq::empty()
    } else {
        flow_listing(ls, (n - 1) as nat) + listing_line(
            flow_id(ls[n - 1].0),
            flow_summary(ls[n - 1].0),
            ls[n - 1].1 as nat,
        )
    }
}

/// Appends one line of a listing.
pub(crate) fn push_line(out: &mut String, id: NodeId, summary: &str, depth: usize)
    ensures
        final(out)@ == old(out)@ + listing_line(id, summary@, depth as nat),
{
    let ghost before = out@;
    assert(out@ =~= before + indent(0));
    for i in 0..depth
        invariant
            out@ == before + indent(i as nat),
    {
        out.append("  ");
        assert(out@ =~= before + indent((i + 1) as nat));
    }
    out.append(id.to_text().as_str());
    out.append(" ");
    out.append(summary);
    out.append("\n");
    assert(out@ =~= before + listing_line(id, summary@, depth as nat));
}

/// Renders a flow as an indented listing.
pub fn pretty(flow: &Flow) -> (out: String)
    ensures
        out@ == flow_listing(levels(*flow, 0), levels(*flow, 0).len()),
{
    let nodes = all_levels(flow);
    let ghost ls = levels_view(nodes@);
    let mut out = String::new();
    assert(out@ =~= Seq::empty());
    let n: usize = nodes.len();
    for i in 0..n
        invariant
            n == nodes@.len(),
            ls == levels_view(nodes@),
            out@ == flow_listing(ls, i as nat),
    {
        let (node, depth) = nodes[i];
        assert(ls[i as int] == (*node, depth));
        push_line(&mut out, node.node_id(), node.summary().as_str(), depth);
    }
    out
}

/// Whether the identity at a position appears before it.
pub open spec fn repeats(ls: Seq<(Flow, usize)>, i: int) -> bool {
    exists|j: int| 0 <= j < i && flow_id((#[trigger] ls[j]).0) == flow_id(ls[i].0)
}

/// The first repeated identity from position `i` on.
pub open spec fn first_repeat(ls: Seq<(Flow, usize)>, i: int) -> Option<NodeId>
    decreases ls.len() - i,
{
    if i < 0 || i >= ls.len() {
        None
    } else if repeats(ls, i) {
        Some(flow_id(ls[i].0))
    } else {
        first_repeat(ls, i + 1)
    }
}

/// Refuses a flow in which an identity appears twice.
pub fn check_unique_ids(flow: &Flow) -> (out: EngineResult<()>)
    ensures
        match first_repeat(levels(*flow, 0), 0) {
            None => out is Ok,
            Some(id) => out matches Err(e) && e@ == (SpecEngineError::Malformed {
                at: SpecContext { node: id, path: seq![id], frame: None, depth: 0, iteration: None },
                detail: "node id "@ + tagged("n"@, id.0) + " appears more than once"@,
            }),
        },
{
    broadcast use vstd::std_specs::hash::group_hash_axioms;

    let nodes = all_levels(flow);
    let ghost ls = levels_view(nodes@);
    let mut seen: HashSet<u64> = HashSet::new();
    let n: usize = nodes.len();
    for i in 0..n
        invariant
            n == nodes@.len(),
            ls == levels_view(nodes@),
            ls == levels(*flow, 0),
            first_repeat(ls, 0) == first_repeat(ls, i as int),
            forall|x: u64|
                #[trigger] seen@.contains(x) <==> exists|j: int|
                    0 <= j < i && flow_id((#[trigger] ls[j]).0).0 == x,
    {
        let node = nodes[i].0;
        assert(ls[i as int].0 == *node);
        let id = node.node_id();
        let ghost before = seen@;
        let fresh: bool = seen.insert(id.0);
        proof {
            assert(fresh == !repeats(ls, i as int)) by {
                if repeats(ls, i as int) {
                    let j = choose|j: int|
                        0 <= j < i && flow_id((#[trigger] ls[j]).0) == flow_id(ls[i as int].0);
                    assert(flow_id(ls[j].0).0 == id.0);
                    assert(before.contains(id.0));
                }
                if before.contains(id.0) {
                    let j = choose|j: int| 0 <= j < i && flow_id((#[trigger] ls[j]).0).0 == id.0;
                    assert(flow_id(ls[j].0) == flow_id(ls[i as int].0));
                }
            }
            assert forall|x: u64| #[trigger] seen@.contains(x) <==> exists|j: int|
                0 <= j < i + 1 && flow_id((#[trigger] ls[j]).0).0 == x by {
                if x == id.0 {
                    assert(flow_id(ls[i as int].0).0 == x);
                }
                if seen@.contains(x) && x != id.0 {
                    assert(before.contains(x));
                    let j = choose|j: int| 0 <= j < i && flow_id((#[trigger] ls[j]).0).0 == x;
                    assert(0 <= j < i + 1);
                }
                if exists|j: int| 0 <= j < i + 1 && flow_id((#[trigger] ls[j]).0).0 == x {
                    let j = choose|j: int| 0 <= j < i + 1 && flow_id((#[trigger] ls[j]).0).0 == x;
                    if j < i {
                        assert(before.contains(x));
                    }
                }
            }
        }
        if !fresh {
            let at = NodeContext::at(id, Path::root().push(id));
            assert(at@.path =~= seq![id]);
            let detail = cat3("node id ", id.to_text().as_str(), " appears more than once");
            return Err(EngineError::Malformed { at, detail });
        }
    }
    Ok(())
}

/// The prewritten response to a call.
pub open spec fn response_to(label: Seq<char>) -> Seq<char> {
    if label == "fetch_query"@ {
        "How does miette structure diagnostics?"@
    } else if label == "search_arxiv"@ {
        "arxiv: 3 papers on structured diagnostics"@
    } else if label == "search_github"@ {
        "github: miette (rust-lang), ariadne, codespan-reporting"@
    } else if label == "search_web"@ {
        "web: rust blog posts, docs.rs entries"@
    } else if label == "synthesise"@ {
        "miette layers a Diagnostic trait over thiserror errors, adding code / severity / labels."@
    } else if label == "citation_check"@ {
        "citations: 3 sources cross-verified"@
    } else if label == "write_report"@ {
        "report: 380 words, 3 citations, ready"@
    } else {
        "<no handler for "@ + label + ">"@
    }
}

/// A prewritten response for each known call, so that demonstrations run
/// offline.
pub fn canned_response(label: &str) -> (out: String)
    ensures
        out@ == response_to(label@),
{
    if same_text(label, "fetch_query") {
        "How does miette structure diagnostics?".to_owned()
    } else if same_text(label, "search_arxiv") {
        "arxiv: 3 papers on structured diagnostics".to_owned()
    } else if same_text(label, "search_github") {
        "github: miette (rust-lang), ariadne, codespan-reporting".to_owned()
    } else if same_text(label, "search_web") {
        "web: rust blog posts, docs.rs entries".to_owned()
    } else if same_text(label, "synthesise") {
        "miette layers a Diagnostic trait over thiserror errors, adding code / severity / labels.".to_owned()
    } else if same_text(label, "citation_check") {
        "citations: 3 sources cross-verified".to_owned()
    } else if same_text(label, "write_report") {
        "report: 380 words, 3 citations, ready".to_owned()
    } else {
        cat3("<no handler for ", label, ">")
    }
}

/// Whether a flow is the call `label` under the identity `id`.
pub open spec fn is_call(f: Flow, id: u64, label: Seq<char>) -> bool {
    f matches Flow::Call { id: own, label: text } && own == NodeId(id) && text@ == label
}

/// Whether a flow is the fan-out of the three searches, with identities from
/// `n` on.
pub open spec fn is_search(f: Flow, n: u64) -> bool {
    &&& f matches Flow::Par { id, children }
    &&& id == NodeId(n)
    &&& children@.len() == 3
    &&& is_call(children@[0], nth_number(n, 1), "search_arxiv"@)
    &&& is_call(children@[1], nth_number(n, 2), "search_github"@)
    &&& is_call(children@[2], nth_number(n, 3), "search_web"@)
}

/// Whether a flow is the research pipeline, with identities from `n` on.
pub open spec fn is_pipeline(f: Flow, n: u64) -> bool {
    &&& f matches Flow::Sequence { id, children }
    &&& id == NodeId(n)
    &&& children@.len() == 5
    &&& is_call(children@[0], nth_number(n, 1), "fetch_query"@)
    &&& children@[1] matches Flow::Scope { id: scope, label, body }
    &&& scope == NodeId(nth_number(n, 2))
    &&& label@ == "web_research"@
    &&& is_search(*body, nth_number(n, 3))
    &&& is_call(children@[2], nth_number(n, 7), "synthesise"@)
    &&& children@[3] matches Flow::Maybe { id: maybe, body: Some(check) }
    &&& maybe == NodeId(nth_number(n, 8))
    &&& is_call(*check, nth_number(n, 9), "citation_check"@)
    &&& is_call(children@[4], nth_number(n, 10), "write_report"@)
}

fn call(ids: &mut IdGen, label: &str) -> (out: Flow)
    ensures
        is_call(out, old(ids)@, label@),
        final(ids)@ == successor(old(ids)@),
{
    let id = ids.node();
    Flow::Call { id, label: label.to_owned() }
}

/// The demonstration pipeline: fetch a query, search three sources at once,
/// synthesise, perhaps check citations, write the report.
pub fn research_pipeline(ids: &mut IdGen) -> (out: Flow)
    ensures
        is_pipeline(out, old(ids)@),
        final(ids)@ == nth_number(old(ids)@, 11),
{
    let ghost n = ids@;
    reveal_with_fuel(nth_number, 12);
    let id = ids.node();
    let fetch = call(ids, "fetch_query");
    let scope = ids.node();
    let par = ids.node();
    let arxiv = call(ids, "search_arxiv");
    let github = call(ids, "search_github");
    let web = call(ids, "search_web");
    let searches: Vec<Flow> = vec![arxiv, github, web];
    let search = Flow::Par { id: par, children: searches };
    assert(is_search(search, nth_number(n, 3)));
    let research = Flow::Scope {
        id: scope,
        label: "web_research".to_owned(),
        body: Box::new(search),
    };
    let synthesise = call(ids, "synthesise");
    let maybe = ids.node();
    let citations = call(ids, "citation_check");
    let check = Flow::Maybe { id: maybe, body: Some(Box::new(citations)) };
    let report = call(ids, "write_report");
    let children: Vec<Flow> = vec![fetch, research, synthesise, check, report];
    Flow::Sequence { id, children }
}

} // verus!
