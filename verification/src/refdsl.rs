//! A tiny arithmetic language, complete with its value-side judgments, its
//! operators and a host that runs it.
use vstd::prelude::*;

use crate::derived::DslSemantics;
use crate::error::{quote, quoted};
use crate::flow::{listing_line, push_line};
use crate::ids::{nth_number, IdGen, NodeId};
use crate::text::{decimal, push_decimal, same_text};
use crate::walk::{all_levels, child_levels, deeper, levels, levels_view, DslNode, Walk};

pub mod host;
pub mod laws;
pub mod ops;
pub mod run;
pub mod shape;

verus! {

/// Nodes of the language.
#[allow(inconsistent_fields)]
#[derive(Debug)]
pub enum Ref {
    /// An integer literal.
    Lit {
        /// Identity.
        id: NodeId,
        /// The integer.
        value: i64,
    },
    /// A variable; the host is asked when it is not bound.
    Var {
        /// Identity.
        id: NodeId,
        /// Its name.
        name: String,
    },
    /// A sum.
    Add {
        /// Identity.
        id: NodeId,
        /// Left operand.
        lhs: Box<Ref>,
        /// Right operand.
        rhs: Box<Ref>,
    },
    /// A product.
    Mul {
        /// Identity.
        id: NodeId,
        /// Left operand.
        lhs: Box<Ref>,
        /// Right operand.
        rhs: Box<Ref>,
    },
    /// A binding.
    Let {
        /// Identity.
        id: NodeId,
        /// The bound name.
        name: String,
        /// What it is bound to.
        value: Box<Ref>,
        /// Where it is bound.
        body: Box<Ref>,
    },
    /// A choice.
    If {
        /// Identity.
        id: NodeId,
        /// The condition.
        cond: Box<Ref>,
        /// Taken when the condition is not zero.
        then_branch: Box<Ref>,
        /// Taken when it is zero.
        else_branch: Box<Ref>,
    },
}

/// The identity of a node.
pub open spec fn ref_id(r: Ref) -> NodeId {
    match r {
        Ref::Lit { id, .. } => id,
        Ref::Var { id, .. } => id,
        Ref::Add { id, .. } => id,
        Ref::Mul { id, .. } => id,
        Ref::Let { id, .. } => id,
        Ref::If { id, .. } => id,
    }
}

/// How many nodes a program has.
pub open spec fn ref_size(r: Ref) -> nat
    decreases r,
{
    match r {
        Ref::Lit { .. } => 1,
        Ref::Var { .. } => 1,
        Ref::Add { lhs, rhs, .. } => 1 + ref_size(*lhs) + ref_size(*rhs),
        Ref::Mul { lhs, rhs, .. } => 1 + ref_size(*lhs) + ref_size(*rhs),
        Ref::Let { value, body, .. } => 1 + ref_size(*value) + ref_size(*body),
        Ref::If { cond, then_branch, else_branch, .. } => 1 + ref_size(*cond) + ref_size(
            *then_branch,
        ) + ref_size(*else_branch),
    }
}

impl DslNode for Ref {
    open spec fn id_spec(&self) -> NodeId {
        ref_id(*self)
    }

    open spec fn variant_spec(&self) -> Seq<char> {
        match self {
            Ref::Lit { .. } => "Lit"@,
            Ref::Var { .. } => "Var"@,
            Ref::Add { .. } => "Add"@,
            Ref::Mul { .. } => "Mul"@,
            Ref::Let { .. } => "Let"@,
            Ref::If { .. } => "If"@,
        }
    }

    fn node_id(&self) -> (out: NodeId) {
        match self {
            Ref::Lit { id, .. } => *id,
            Ref::Var { id, .. } => *id,
            Ref::Add { id, .. } => *id,
            Ref::Mul { id, .. } => *id,
            Ref::Let { id, .. } => *id,
            Ref::If { id, .. } => *id,
        }
    }

    fn variant_name(&self) -> (out: &'static str) {
        match self {
            Ref::Lit { .. } => "Lit",
            Ref::Var { .. } => "Var",
            Ref::Add { .. } => "Add",
            Ref::Mul { .. } => "Mul",
            Ref::Let { .. } => "Let",
            Ref::If { .. } => "If",
        }
    }
}

impl Walk for Ref {
    open spec fn children_spec(&self) -> Seq<Ref> {
        match self {
            Ref::Lit { .. } => Seq::empty(),
            Ref::Var { .. } => Seq::empty(),
            Ref::Add { lhs, rhs, .. } => seq![**lhs, **rhs],
            Ref::Mul { lhs, rhs, .. } => seq![**lhs, **rhs],
            Ref::Let { value, body, .. } => seq![**value, **body],
            Ref::If { cond, then_branch, else_branch, .. } => seq![
                **cond,
                **then_branch,
                **else_branch,
            ],
        }
    }

    open spec fn height(&self) -> nat {
        ref_size(*self)
    }

    proof fn children_are_lower(&self, i: int) {
    }

    fn children<'a>(&'a self) -> (out: Vec<&'a Ref>) {
        let mut out: Vec<&'a Ref> = Vec::new();
        match self {
            Ref::Lit { .. } => {},
            Ref::Var { .. } => {},
            Ref::Add { lhs, rhs, .. } => {
                out.push(&**lhs);
                out.push(&**rhs);
            },
            Ref::Mul { lhs, rhs, .. } => {
                out.push(&**lhs);
                out.push(&**rhs);
            },
            Ref::Let { value, body, .. } => {
                out.push(&**value);
                out.push(&**body);
            },
            Ref::If { cond, then_branch, else_branch, .. } => {
                out.push(&**cond);
                out.push(&**then_branch);
                out.push(&**else_branch);
            },
        }
        out
    }
}

/// An integer in decimal notation.
pub open spec fn integer_text(n: int) -> Seq<char> {
    if n < 0 {
        "-"@ + decimal((-n) as nat)
    } else {
        decimal(n as nat)
    }
}

/// Appends an integer in decimal notation.
pub(crate) fn push_integer(out: &mut String, n: i64)
    ensures
        final(out)@ == old(out)@ + integer_text(n as int),
{
    let ghost before = out@;
    if n < 0 {
        out.append("-");
        let away: u64 = (-(n + 1)) as u64;
        push_decimal(out, away + 1);
        assert(out@ =~= before + integer_text(n as int));
    } else {
        push_decimal(out, n as u64);
    }
}

/// The one-line summary of a node.
pub open spec fn ref_summary(r: Ref) -> Seq<char> {
    match r {
        Ref::Lit { value, .. } => "Lit "@ + integer_text(value as int),
        Ref::Var { name, .. } => "Var "@ + quoted(name@),
        Ref::Add { .. } => "Add"@,
        Ref::Mul { .. } => "Mul"@,
        Ref::Let { name, .. } => "Let "@ + quoted(name@),
        Ref::If { .. } => "If"@,
    }
}

impl Ref {
    /// The one-line summary of the node.
    pub fn summary(&self) -> (out: String)
        ensures
            out@ == ref_summary(*self),
    {
        match self {
            Ref::Lit { value, .. } => {
                let mut out = "Lit ".to_owned();
                push_integer(&mut out, *value);
                out
            },
            Ref::Var { name, .. } => {
                let mut out = "Var ".to_owned();
                out.append(quote(name.as_str()).as_str());
                out
            },
            Ref::Add { .. } => "Add".to_owned(),
            Ref::Mul { .. } => "Mul".to_owned(),
            Ref::Let { name, .. } => {
                let mut out = "Let ".to_owned();
                out.append(quote(name.as_str()).as_str());
                out
            },
            Ref::If { .. } => "If".to_owned(),
        }
    }
}

/// The listing of the first `n` nodes.
pub open spec fn ref_listing(ls: Seq<(Ref, usize)>, n: nat) -> Seq<char>
    decreases n,
{
    if n == 0 || n > ls.len() {
        Seq::empty()
    } else {
        ref_listing(ls, (n - 1) as nat) + listing_line(
            ref_id(ls[n - 1].0),
            ref_summary(ls[n - 1].0),
            ls[n - 1].1 as nat,
        )
    }
}

/// Renders a program as an indented listing.
pub fn pretty(root: &Ref) -> (out: String)
    ensures
        out@ == ref_listing(levels(*root, 0), levels(*root, 0).len()),
{
    let nodes = all_levels(root);
    let ghost ls = levels_view(nodes@);
    let mut out = String::new();
    assert(out@ =~= Seq::empty());
    let n: usize = nodes.len();
    for i in 0..n
        invariant
            n == nodes@.len(),
            ls == levels_view(nodes@),
            out@ == ref_listing(ls, i as nat),
    {
        let (node, depth) = nodes[i];
        assert(ls[i as int] == (*node, depth));
        push_line(&mut out, node.node_id(), node.summary().as_str(), depth);
    }
    out
}

/// Every node is on one level.
proof fn lemma_levels_count(r: Ref, d: usize)
    ensures
        levels(r, d).len() == ref_size(r),
    decreases r,
{
    let dd = deeper(d);
    let kids = r.children_spec();
    assert(child_levels(r, dd, 0).len() == 0);
    if kids.len() > 0 {
        lemma_levels_count(kids[0], dd);
        lemma_levels_count(kids[1], dd);
        assert(child_levels(r, dd, 1) == child_levels(r, dd, 0) + levels(kids[0], dd));
        assert(child_levels(r, dd, 2) == child_levels(r, dd, 1) + levels(kids[1], dd));
    }
    if kids.len() > 2 {
        lemma_levels_count(kids[2], dd);
        assert(child_levels(r, dd, 3) == child_levels(r, dd, 2) + levels(kids[2], dd));
    }
    assert(levels(r, d) == seq![(r, d)] + child_levels(r, dd, kids.len()));
}

/// How many nodes a program has.
pub fn count_nodes(root: &Ref) -> (out: usize)
    ensures
        out == ref_size(*root),
{
    proof {
        lemma_levels_count(*root, 0);
    }
    let nodes = all_levels(root);
    assert(levels_view(nodes@).len() == nodes@.len());
    nodes.len()
}

/// The names bound at one place, innermost last.
#[derive(Debug)]
pub enum Binding {
    /// None.
    Empty,
    /// One more than in `outer`.
    Bound {
        /// The name.
        name: String,
        /// What it is bound to.
        value: i64,
        /// The bindings before it.
        outer: Box<Binding>,
    },
}

/// The names and values bound, innermost last.
pub open spec fn bindings(b: Binding) -> Seq<(Seq<char>, i64)>
    decreases b,
{
    match b {
        Binding::Empty => Seq::empty(),
        Binding::Bound { name, value, outer } => bindings(*outer).push((name@, value)),
    }
}

impl Clone for Binding {
    fn clone(&self) -> (out: Self)
        ensures
            out == *self,
        decreases self,
    {
        match self {
            Binding::Empty => Binding::Empty,
            Binding::Bound { name, value, outer } => Binding::Bound {
                name: name.clone(),
                value: *value,
                outer: Box::new((**outer).clone()),
            },
        }
    }
}

impl Default for Binding {
    fn default() -> (out: Self)
        ensures
            out == Binding::Empty,
    {
        Binding::Empty
    }
}

/// The innermost value of a name.
pub open spec fn value_of(env: Seq<(Seq<char>, i64)>, name: Seq<char>) -> Option<i64>
    decreases env.len(),
{
    if env.len() == 0 {
        None
    } else if env.last().0 == name {
        Some(env.last().1)
    } else {
        value_of(env.drop_last(), name)
    }
}

/// What the host says when it cannot give a variable a value.
#[derive(Debug)]
pub struct RefEffectError {
    /// The message.
    pub message: String,
}

impl Clone for RefEffectError {
    fn clone(&self) -> (out: Self)
        ensures
            out == *self,
    {
        RefEffectError { message: self.message.clone() }
    }
}

impl RefEffectError {
    /// The message.
    pub fn to_text(&self) -> (out: String)
        ensures
            out@ == self.message@,
    {
        self.message.clone()
    }
}

/// The language shows nothing of its own in the frame tree.
#[derive(Debug, Clone, Copy, PartialEq, Eq, Structural)]
pub struct NoCursor;

impl Default for NoCursor {
    fn default() -> (out: Self) {
        NoCursor
    }
}

/// The value-side judgments of the language.
#[derive(Debug, Clone, Copy)]
pub struct RefSemantics;

impl DslSemantics for RefSemantics {
    type Value = i64;

    type Delta = Binding;

    type EffectError = RefEffectError;

    type Cursor = NoCursor;

    open spec fn unit_spec(&self) -> i64 {
        0
    }

    open spec fn blank_delta() -> Binding {
        Binding::Empty
    }

    open spec fn blank_cursor() -> NoCursor {
        NoCursor
    }

    proof fn value_clone_is_equal(a: i64, b: i64) {
    }

    proof fn error_clone_is_equal(a: RefEffectError, b: RefEffectError) {
    }

    proof fn default_delta_is_blank(d: Binding) {
    }

    proof fn default_cursor_is_blank(c: NoCursor) {
    }

    fn unit_value(&self) -> (out: i64) {
        0
    }

    fn truthy(&self, value: &i64) -> (out: Option<bool>)
        ensures
            out == Some(*value != 0),
    {
        Some(*value != 0)
    }

    fn bind_delta(&self, name: &str, value: &i64) -> (out: Option<Binding>)
        ensures
            out matches Some(b) && bindings(b) == seq![(name@, *value)],
    {
        let b = Binding::Bound {
            name: name.to_owned(),
            value: *value,
            outer: Box::new(Binding::Empty),
        };
        proof {
            reveal_with_fuel(bindings, 2);
            assert(bindings(b) =~= seq![(name@, *value)]);
        }
        Some(b)
    }

    fn lookup(&self, delta: &Binding, name: &str) -> (out: Option<i64>)
        ensures
            out == value_of(bindings(*delta), name@),
        decreases delta,
    {
        match delta {
            Binding::Empty => None,
            Binding::Bound { name: own, value, outer } => {
                assert(bindings(*delta).drop_last() =~= bindings(**outer));
                if same_text(own.as_str(), name) {
                    Some(*value)
                } else {
                    self.lookup(outer, name)
                }
            },
        }
    }
}

/// Whether a node is the literal `value` under the identity `id`.
pub open spec fn is_lit(r: Ref, id: u64, value: i64) -> bool {
    r matches Ref::Lit { id: own, value: n } && own == NodeId(id) && n == value
}

/// Whether a node is the variable `name` under the identity `id`.
pub open spec fn is_var(r: Ref, id: u64, name: Seq<char>) -> bool {
    r matches Ref::Var { id: own, name: text } && own == NodeId(id) && text@ == name
}

/// Whether a program is `let x = 3 in if x then (x + y) * z else 0`, with
/// identities from `n` on.
pub open spec fn is_demo(r: Ref, n: u64) -> bool {
    &&& r matches Ref::Let { id: outer, name, value, body }
    &&& outer == NodeId(nth_number(n, 9))
    &&& name@ == "x"@
    &&& is_lit(*value, n, 3)
    &&& *body matches Ref::If { id: choice, cond, then_branch, else_branch }
    &&& choice == NodeId(nth_number(n, 8))
    &&& is_var(*cond, nth_number(n, 4), "x"@)
    &&& *then_branch matches Ref::Mul { id: product, lhs, rhs }
    &&& product == NodeId(nth_number(n, 5))
    &&& *lhs matches Ref::Add { id: sum, lhs: left, rhs: right }
    &&& sum == NodeId(nth_number(n, 6))
    &&& is_var(*left, nth_number(n, 1), "x"@)
    &&& is_var(*right, nth_number(n, 2), "y"@)
    &&& is_var(*rhs, nth_number(n, 3), "z"@)
    &&& is_lit(*else_branch, nth_number(n, 7), 0)
}

/// The demonstration program: `let x = 3 in if x then (x + y) * z else 0`.
pub fn demo_program(ids: &mut IdGen) -> (out: Ref)
    ensures
        is_demo(out, old(ids)@),
        final(ids)@ == nth_number(old(ids)@, 10),
{
    reveal_with_fuel(nth_number, 11);
    let x_lit = Ref::Lit { id: ids.node(), value: 3 };
    let x_ref = Ref::Var { id: ids.node(), name: "x".to_owned() };
    let y_ref = Ref::Var { id: ids.node(), name: "y".to_owned() };
    let z_ref = Ref::Var { id: ids.node(), name: "z".to_owned() };
    let cond = Ref::Var { id: ids.node(), name: "x".to_owned() };
    let product = ids.node();
    let sum = Ref::Add { id: ids.node(), lhs: Box::new(x_ref), rhs: Box::new(y_ref) };
    let then_branch = Ref::Mul { id: product, lhs: Box::new(sum), rhs: Box::new(z_ref) };
    let else_branch = Ref::Lit { id: ids.node(), value: 0 };
    let if_expr = Ref::If {
        id: ids.node(),
        cond: Box::new(cond),
        then_branch: Box::new(then_branch),
        else_branch: Box::new(else_branch),
    };
    Ref::Let {
        id: ids.node(),
        name: "x".to_owned(),
        value: Box::new(x_lit),
        body: Box::new(if_expr),
    }
}

} // verus!
