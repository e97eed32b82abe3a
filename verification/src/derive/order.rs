//! What plans make of the fields of a variant, and in what order.
use vstd::prelude::*;

use crate::derive::decl::{fold_from, type_text, SpecField, SpecFields, SpecInput, SpecVariant};
use crate::derive::exec::{
    exec_arm, exec_plan, first_unknown, literal_kind, names_without, node_kind, payload_fields,
    payload_names, selected, variant_form, SpecCallPayload, SpecExecArm, SpecExecKind, SpecExecPlan,
    SpecForm, SpecPayloadPlan,
};
use crate::derive::node::{
    child_fields, node_arm, node_plan, SpecChild, SpecNodeArm,
};
use crate::derive::shape::{payload, recursion, Recursion};

verus! {

/// Whether positions pick, in the order of the list, every field that meets a
/// condition and no other.
pub open spec fn picks(
    fs: Seq<SpecField>,
    at: Seq<int>,
    p: spec_fn(SpecField) -> bool,
) -> bool {
    &&& forall|a: int, b: int| 0 <= a < b < at.len() ==> #[trigger] at[a] < #[trigger] at[b]
    &&& forall|a: int| 0 <= a < at.len() ==> 0 <= #[trigger] at[a] < fs.len() && p(fs[at[a]])
    &&& forall|j: int| 0 <= j < fs.len() && p(#[trigger] fs[j]) ==> at.contains(j)
}

/// Whether a field holds nodes of the enum.
pub open spec fn holds_nodes(node: Seq<char>) -> spec_fn(SpecField) -> bool {
    |f: SpecField| f.name != "id"@ && recursion(f.ty, node) is Some
}

/// Whether a field is neither the identity nor holds nodes.
pub open spec fn holds_payload(node: Seq<char>) -> spec_fn(SpecField) -> bool {
    |f: SpecField| f.name != "id"@ && recursion(f.ty, node) is None
}

/// Whether a field is not the identity.
pub open spec fn is_no_identity() -> spec_fn(SpecField) -> bool {
    |f: SpecField| f.name != "id"@
}

/// Whether a list of children is that of the fields that hold nodes, in the
/// order of their declaration.
pub open spec fn children_in_order(
    cs: Seq<SpecChild>,
    fs: Seq<SpecField>,
    node: Seq<char>,
) -> bool {
    exists|at: Seq<int>| #[trigger]
        picks(fs, at, holds_nodes(node)) && at.len() == cs.len() && forall|i: int|
            0 <= i < cs.len() ==> (#[trigger] cs[i]).field == fs[at[i]].name && recursion(
                fs[at[i]].ty,
                node,
            ) == Some(cs[i].kind)
}

/// Whether a list of names is that of the fields that meet a condition, in the
/// order of their declaration.
pub open spec fn names_in_order(
    names: Seq<Seq<char>>,
    fs: Seq<SpecField>,
    p: spec_fn(SpecField) -> bool,
) -> bool {
    exists|at: Seq<int>| #[trigger]
        picks(fs, at, p) && at.len() == names.len() && forall|i: int|
            0 <= i < names.len() ==> #[trigger] names[i] == fs[at[i]].name
}

pub(crate) proof fn lemma_pick_more(
    fs: Seq<SpecField>,
    n: nat,
    at: Seq<int>,
    p: spec_fn(SpecField) -> bool,
) -> (more: Seq<int>)
    requires
        0 < n <= fs.len(),
        picks(fs.take(n - 1), at, p),
    ensures
        picks(fs.take(n as int), more, p),
        p(fs[n - 1]) ==> more == at.push(n - 1),
        !p(fs[n - 1]) ==> more == at,
{
    let front = fs.take(n - 1);
    let all = fs.take(n as int);
    let more = if p(fs[n - 1]) {
        at.push(n - 1)
    } else {
        at
    };
    assert forall|a: int| 0 <= a < more.len() implies 0 <= #[trigger] more[a] < all.len() && p(
        all[more[a]],
    ) by {
        if a < at.len() {
            assert(more[a] == at[a]);
            assert(p(front[at[a]]));
        }
    }
    assert forall|a: int, b: int| 0 <= a < b < more.len() implies #[trigger] more[a]
        < #[trigger] more[b] by {
        assert(more[a] == at[a]);
        if b < at.len() {
            assert(more[b] == at[b]);
        } else {
            assert(0 <= at[a] < front.len());
        }
    }
    assert forall|j: int| 0 <= j < all.len() && p(#[trigger] all[j]) implies more.contains(j) by {
        if j < n - 1 {
            assert(p(front[j]));
            let a = choose|a: int| 0 <= a < at.len() && at[a] == j;
            assert(more[a] == j);
        } else {
            assert(more[at.len() as int] == j);
        }
    }
    more
}

proof fn lemma_pick_none(fs: Seq<SpecField>, p: spec_fn(SpecField) -> bool)
    ensures
        picks(fs.take(0), Seq::empty(), p),
{
}

proof fn lemma_children_in_order(fs: Seq<SpecField>, node: Seq<char>, n: nat) -> (at: Seq<int>)
    requires
        n <= fs.len(),
    ensures
        picks(fs.take(n as int), at, holds_nodes(node)),
        at.len() == child_fields(fs, node, n).len(),
        forall|i: int|
            0 <= i < at.len() ==> (#[trigger] child_fields(fs, node, n)[i]).field == fs[at[i]].name
                && recursion(fs[at[i]].ty, node) == Some(child_fields(fs, node, n)[i].kind),
    decreases n,
{
    if n == 0 {
        lemma_pick_none(fs, holds_nodes(node));
        Seq::empty()
    } else {
        let before = lemma_children_in_order(fs, node, (n - 1) as nat);
        let p = holds_nodes(node);
        assert(p(fs[n - 1]) <==> fs[n - 1].name != "id"@ && recursion(
            fs[n - 1].ty,
            node,
        ) is Some);
        let at = lemma_pick_more(fs, n, before, p);
        let was = child_fields(fs, node, (n - 1) as nat);
        let cs = child_fields(fs, node, n);
        assert forall|i: int| 0 <= i < at.len() implies (#[trigger] cs[i]).field == fs[at[i]].name
            && recursion(fs[at[i]].ty, node) == Some(cs[i].kind) by {
            if i < was.len() {
                assert(cs[i] == was[i]);
            }
        }
        at
    }
}

proof fn lemma_children<'a>(fs: Seq<SpecField>, node: Seq<char>)
    ensures
        children_in_order(child_fields(fs, node, fs.len()), fs, node),
{
    let at = lemma_children_in_order(fs, node, fs.len());
    assert(fs.take(fs.len() as int) =~= fs);
    assert(picks(fs, at, holds_nodes(node)));
}

proof fn lemma_payloads_in_order(fs: Seq<SpecField>, node: Seq<char>, n: nat) -> (at: Seq<int>)
    requires
        n <= fs.len(),
    ensures
        picks(fs.take(n as int), at, holds_payload(node)),
        at.len() == payload_fields(fs, node, n).len(),
        forall|i: int|
            0 <= i < at.len() ==> (#[trigger] payload_fields(fs, node, n)[i]).field
                == fs[at[i]].name && payload_fields(fs, node, n)[i].ty == type_text(fs[at[i]].ty),
    decreases n,
{
    if n == 0 {
        lemma_pick_none(fs, holds_payload(node));
        Seq::empty()
    } else {
        let before = lemma_payloads_in_order(fs, node, (n - 1) as nat);
        let p = holds_payload(node);
        assert(p(fs[n - 1]) <==> fs[n - 1].name != "id"@ && recursion(
            fs[n - 1].ty,
            node,
        ) is None);
        let at = lemma_pick_more(fs, n, before, p);
        let was = payload_fields(fs, node, (n - 1) as nat);
        let ps = payload_fields(fs, node, n);
        assert forall|i: int| 0 <= i < at.len() implies (#[trigger] ps[i]).field == fs[at[i]].name
            && ps[i].ty == type_text(fs[at[i]].ty) by {
            if i < was.len() {
                assert(ps[i] == was[i]);
            }
        }
        at
    }
}

/// The children a kind runs, in the order in which it runs them.
pub open spec fn kids_of(kind: SpecExecKind) -> Seq<SpecChild> {
    match kind {
        SpecExecKind::Apply { children, .. } => children,
        SpecExecKind::Bind { value, body, .. } => seq![value, body],
        SpecExecKind::Branch { cond, then_branch, else_branch } => match else_branch {
            Some(other) => seq![cond, then_branch, other],
            None => seq![cond, then_branch],
        },
        SpecExecKind::Repeat { body } => seq![body],
        SpecExecKind::Sequence { children } => children,
        SpecExecKind::Scope { body, .. } => seq![body],
        SpecExecKind::Maybe { body } => seq![body],
        _ => Seq::empty(),
    }
}

/// Whether a child is always one node.
pub open spec fn is_one(c: SpecChild) -> bool {
    c.kind == Recursion::Direct || c.kind == Recursion::Boxed
}

/// Whether a child is a node that may be absent.
pub open spec fn may_be_absent(c: SpecChild) -> bool {
    c.kind == Recursion::Optional || c.kind == Recursion::OptionalBoxed
}

/// Whether a name is that of a payload field.
pub open spec fn names_payload(fs: Seq<SpecField>, node: Seq<char>, name: Seq<char>) -> bool {
    exists|j: int|
        0 <= j < fs.len() && (#[trigger] fs[j]).name == name && name != "id"@ && recursion(
            fs[j].ty,
            node,
        ) is None
}

/// Whether a payload carries what its clause asks for.
pub open spec fn carries(
    plan: SpecPayloadPlan,
    clause: SpecCallPayload,
    label: Seq<char>,
    fs: Seq<SpecField>,
    node: Seq<char>,
) -> bool {
    match clause {
        SpecCallPayload::Nothing => plan is Null,
        SpecCallPayload::Single(f) => plan == SpecPayloadPlan::Single(f) && names_payload(
            fs,
            node,
            f,
        ),
        SpecCallPayload::Fields(names) => plan == SpecPayloadPlan::Object(names) && forall|i: int|
            0 <= i < names.len() ==> names_payload(fs, node, #[trigger] names[i]),
        SpecCallPayload::AllFields => plan matches SpecPayloadPlan::Object(names)
            && names_in_order(
            names,
            fs,
            |f: SpecField| f.name != "id"@ && recursion(f.ty, node) is None && f.name != label,
        ),
    }
}

/// Whether a kind is the one that a form asks for, over the fields of a
/// variant.
pub open spec fn kind_fits(
    kind: SpecExecKind,
    form: SpecForm,
    fs: Seq<SpecField>,
    node: Seq<char>,
) -> bool {
    &&& form is Read || children_in_order(kids_of(kind), fs, node)
    &&& match form {
        SpecForm::Value => kind matches SpecExecKind::Value { field } && names_in_order(
            seq![field],
            fs,
            holds_payload(node),
        ),
        SpecForm::Read { name_field } => kind == SpecExecKind::Read { name_field },
        SpecForm::Apply { op } => kind matches SpecExecKind::Apply { op: o, .. } && o == op,
        SpecForm::Bind { name_field } => kind matches SpecExecKind::Bind {
            name_field: f,
            value,
            body,
        } && f == name_field && is_one(value) && is_one(body),
        SpecForm::Branch => kind matches SpecExecKind::Branch { cond, then_branch, else_branch }
            && is_one(cond) && is_one(then_branch) && (else_branch matches Some(c) ==> is_one(c)
            || may_be_absent(c)),
        SpecForm::Repeat => kind matches SpecExecKind::Repeat { body } && is_one(body),
        SpecForm::Sequence => kind is Sequence,
        SpecForm::Scope { label_field } => kind matches SpecExecKind::Scope { label_field: f, body }
            && f == label_field && is_one(body),
        SpecForm::Maybe => kind matches SpecExecKind::Maybe { body } && may_be_absent(body),
        SpecForm::Call { label_field, payload } => kind matches SpecExecKind::Call {
            label_field: f,
            payload: plan,
        } && f == label_field && carries(plan, payload, label_field, fs, node),
    }
}

proof fn lemma_no_unknown(names: Seq<Seq<char>>, known: Seq<Seq<char>>, i: int)
    requires
        0 <= i <= names.len(),
        first_unknown(names, known, i) is None,
    ensures
        forall|j: int| i <= j < names.len() ==> known.contains(#[trigger] names[j]),
    decreases names.len() - i,
{
    if i < names.len() {
        lemma_no_unknown(names, known, i + 1);
    }
}

proof fn lemma_known(fs: Seq<SpecField>, node: Seq<char>, name: Seq<char>)
    requires
        payload_names(payload_fields(fs, node, fs.len())).contains(name),
    ensures
        names_payload(fs, node, name),
{
    let ps = payload_fields(fs, node, fs.len());
    let at = lemma_payloads_in_order(fs, node, fs.len());
    let i = choose|i: int| 0 <= i < ps.len() && payload_names(ps)[i] == name;
    assert(fs.take(fs.len() as int) =~= fs);
    assert(ps[i].field == fs[at[i]].name);
    let p = holds_payload(node);
    assert(p(fs[at[i]]));
}

proof fn lemma_all_but_label(
    fs: Seq<SpecField>,
    node: Seq<char>,
    label: Seq<char>,
    n: nat,
) -> (at: Seq<int>)
    requires
        n <= fs.len(),
    ensures
        ({
            let known = payload_names(payload_fields(fs, node, n));
            let names = names_without(known, label, known.len());
            &&& picks(
                fs.take(n as int),
                at,
                |f: SpecField|
                    f.name != "id"@ && recursion(f.ty, node) is None && f.name != label,
            )
            &&& at.len() == names.len()
            &&& forall|i: int| 0 <= i < at.len() ==> #[trigger] names[i] == fs[at[i]].name
        }),
    decreases n,
{
    let p = |f: SpecField| f.name != "id"@ && recursion(f.ty, node) is None && f.name != label;
    let known = payload_names(payload_fields(fs, node, n));
    if n == 0 {
        assert(known =~= Seq::empty());
        lemma_pick_none(fs, p);
        Seq::empty()
    } else {
        let m = (n - 1) as nat;
        let before = lemma_all_but_label(fs, node, label, m);
        let was = payload_names(payload_fields(fs, node, m));
        let f = fs[n - 1];
        assert(p(f) <==> f.name != "id"@ && recursion(f.ty, node) is None && f.name != label);
        let at = lemma_pick_more(fs, n, before, p);
        if f.name == "id"@ || recursion(f.ty, node) is Some {
            assert(known =~= was);
        } else {
            assert(known =~= was.push(f.name));
            lemma_without_front(known, was, label, was.len());
        }
        at
    }
}

proof fn lemma_without_front(
    a: Seq<Seq<char>>,
    b: Seq<Seq<char>>,
    label: Seq<char>,
    n: nat,
)
    requires
        n <= a.len(),
        n <= b.len(),
        forall|i: int| 0 <= i < n ==> a[i] == b[i],
    ensures
        names_without(a, label, n) == names_without(b, label, n),
    decreases n,
{
    if n > 0 {
        lemma_without_front(a, b, label, (n - 1) as nat);
    }
}

proof fn lemma_kind_fits(
    form: SpecForm,
    fs: Seq<SpecField>,
    node: Seq<char>,
    kind: SpecExecKind,
    literal: Option<Seq<char>>,
)
    requires
        form is Value ==> (literal_kind(
            child_fields(fs, node, fs.len()),
            payload_fields(fs, node, fs.len()),
            literal,
        ) matches Ok(p) && p.0 == kind),
        !(form is Value) ==> node_kind(
            form,
            child_fields(fs, node, fs.len()),
            payload_fields(fs, node, fs.len()),
        ) == Ok::<SpecExecKind, Seq<char>>(kind),
    ensures
        kind_fits(kind, form, fs, node),
{
    let cs = child_fields(fs, node, fs.len());
    let ps = payload_fields(fs, node, fs.len());
    lemma_children(fs, node);
    assert(fs.take(fs.len() as int) =~= fs);
    if !(form is Read) {
        assert(kids_of(kind) =~= cs);
    }
    match form {
        SpecForm::Value => {
            let at = lemma_payloads_in_order(fs, node, fs.len());
            let field = ps[0].field;
            assert(picks(fs, at, holds_payload(node)));
            assert(seq![field][0] == fs[at[0]].name);
        },
        SpecForm::Call { label_field, payload } => {
            let known = payload_names(ps);
            let chosen = selected(payload, label_field, known);
            lemma_no_unknown(chosen, known, 0);
            match payload {
                SpecCallPayload::Nothing => {},
                SpecCallPayload::Single(f) => {
                    assert(chosen[0] == f);
                    lemma_known(fs, node, f);
                },
                SpecCallPayload::Fields(names) => {
                    assert forall|i: int| 0 <= i < names.len() implies names_payload(
                        fs,
                        node,
                        #[trigger] names[i],
                    ) by {
                        lemma_known(fs, node, chosen[i]);
                    }
                },
                SpecCallPayload::AllFields => {
                    let at = lemma_all_but_label(fs, node, label_field, fs.len());
                    let p = |f: SpecField|
                        f.name != "id"@ && recursion(f.ty, node) is None && f.name != label_field;
                    assert(picks(fs, at, p));
                },
            }
        },
        _ => {},
    }
}

/// Whether an entry of a plan is the one that a variant's annotation asks for.
pub open spec fn exec_fits(arm: SpecExecArm, v: SpecVariant, node: Seq<char>) -> bool {
    &&& arm.variant == v.name
    &&& v.fields matches SpecFields::Named(fs) && (variant_form(v.attrs, 0) matches Ok(form)
        && kind_fits(arm.kind, form, fs, node))
}

proof fn lemma_exec_arms(vs: Seq<SpecVariant>, i: int, p: SpecExecPlan, node: Seq<char>)
    requires
        0 <= i <= vs.len(),
    ensures
        fold_from(vs, i, p, exec_arm(node)) matches Ok(plan) ==> ({
            &&& plan.arms.len() == p.arms.len() + vs.len() - i
            &&& forall|j: int| 0 <= j < p.arms.len() ==> plan.arms[j] == p.arms[j]
            &&& forall|j: int|
                i <= j < vs.len() ==> exec_fits(
                    #[trigger] plan.arms[p.arms.len() + j - i],
                    vs[j],
                    node,
                )
        }),
    decreases vs.len() - i,
{
    if i < vs.len() {
        let step = exec_arm(node);
        let v = vs[i];
        if let Ok(next) = step(p, v) {
            let fs = v.fields->Named_0;
            let form = variant_form(v.attrs, 0)->Ok_0;
            lemma_kind_fits(form, fs, node, next.arms.last().kind, p.literal);
            assert(exec_fits(next.arms.last(), v, node));
            lemma_exec_arms(vs, i + 1, next, node);
            if let Ok(plan) = fold_from(vs, i + 1, next, step) {
                assert(plan.arms[p.arms.len() as int] == next.arms[p.arms.len() as int]);
                assert forall|j: int| i <= j < vs.len() implies exec_fits(
                    #[trigger] plan.arms[p.arms.len() + j - i],
                    vs[j],
                    node,
                ) by {
                    if j > i {
                        assert(p.arms.len() + j - i == next.arms.len() + j - (i + 1));
                    }
                }
            }
        }
    }
}

/// An execution plan has one entry for each variant, of the kind that its
/// annotation names. Whatever the kind, the children it runs are the fields
/// that hold nodes, all of them, in the order of their declaration: the
/// operands of an operator, value and body of a binding, condition and
/// branches of a choice. The payload of a call is what its clause names, and
/// the fields of a whole payload come in the order of their declaration too.
pub proof fn law_execution_follows_the_declaration(input: SpecInput, plan: SpecExecPlan)
    requires
        exec_plan(input) == Ok::<SpecExecPlan, Seq<char>>(plan),
    ensures
        input.variants matches Some(vs) && plan.arms.len() == vs.len() && forall|i: int|
            0 <= i < vs.len() ==> exec_fits(#[trigger] plan.arms[i], vs[i], input.name),
{
    let vs = input.variants->Some_0;
    let none = SpecExecPlan { arms: Seq::empty(), literal: None };
    lemma_exec_arms(vs, 0, none, input.name);
    assert forall|i: int| 0 <= i < vs.len() implies exec_fits(
        #[trigger] plan.arms[i],
        vs[i],
        input.name,
    ) by {
        assert(plan.arms[none.arms.len() + i - 0] == plan.arms[i]);
    }
}

/// A traversal plan has one entry for each variant; its children are the
/// fields that hold nodes, in the order of their declaration. It is the order
/// in which an execution plan of the same enum runs them.
pub proof fn law_traversal_follows_the_declaration(
    input: SpecInput,
    arms: Seq<SpecNodeArm>,
)
    requires
        node_plan(input) == Ok::<Seq<SpecNodeArm>, Seq<char>>(arms),
    ensures
        input.variants matches Some(vs) && arms.len() == vs.len() && forall|i: int|
            0 <= i < vs.len() ==> (#[trigger] arms[i]).variant == vs[i].name && (
            vs[i].fields matches SpecFields::Named(fs) && children_in_order(
                arms[i].children,
                fs,
                input.name,
            )),
        exec_plan(input) matches Ok(plan) ==> forall|i: int|
            0 <= i < arms.len() && !((#[trigger] plan.arms[i]).kind is Read) ==> kids_of(
                plan.arms[i].kind,
            ) == arms[i].children,
{
    let vs = input.variants->Some_0;
    lemma_node_arms(vs, 0, Seq::empty(), input.name);
    assert forall|i: int| 0 <= i < vs.len() implies (#[trigger] arms[i]).variant == vs[i].name && (
    vs[i].fields matches SpecFields::Named(fs) && children_in_order(
        arms[i].children,
        fs,
        input.name,
    )) by {
        assert(arms[0 + i - 0] == arms[i]);
    }
    if let Ok(plan) = exec_plan(input) {
        law_execution_follows_the_declaration(input, plan);
        assert forall|i: int|
            0 <= i < arms.len() && !((#[trigger] plan.arms[i]).kind is Read) implies kids_of(
            plan.arms[i].kind,
        ) == arms[i].children by {
            assert(exec_fits(plan.arms[i], vs[i], input.name));
            assert(arms[i].variant == vs[i].name);
            let fs = vs[i].fields->Named_0;
            lemma_one_order(kids_of(plan.arms[i].kind), arms[i].children, fs, input.name);
        }
    }
}

/// There is one list of children in the order of the declaration.
proof fn lemma_one_order(
    a: Seq<SpecChild>,
    b: Seq<SpecChild>,
    fs: Seq<SpecField>,
    node: Seq<char>,
)
    requires
        children_in_order(a, fs, node),
        children_in_order(b, fs, node),
    ensures
        a == b,
{
    let x = choose|at: Seq<int>| #[trigger]
        picks(fs, at, holds_nodes(node)) && at.len() == a.len() && forall|i: int|
            0 <= i < a.len() ==> (#[trigger] a[i]).field == fs[at[i]].name && recursion(
                fs[at[i]].ty,
                node,
            ) == Some(a[i].kind);
    let y = choose|at: Seq<int>| #[trigger]
        picks(fs, at, holds_nodes(node)) && at.len() == b.len() && forall|i: int|
            0 <= i < b.len() ==> (#[trigger] b[i]).field == fs[at[i]].name && recursion(
                fs[at[i]].ty,
                node,
            ) == Some(b[i].kind);
    lemma_one_picking(fs, x, y, holds_nodes(node));
    assert(a =~= b) by {
        assert(a.len() == b.len());
        assert forall|i: int| 0 <= i < a.len() implies a[i] == b[i] by {
            assert(a[i].field == b[i].field);
        }
    }
}

proof fn lemma_one_picking(
    fs: Seq<SpecField>,
    x: Seq<int>,
    y: Seq<int>,
    p: spec_fn(SpecField) -> bool,
)
    requires
        picks(fs, x, p),
        picks(fs, y, p),
    ensures
        x == y,
{
    lemma_same_picks(fs, x, y, p, x.len() as int);
    lemma_same_picks(fs, y, x, p, y.len() as int);
    assert(x =~= y);
}

/// The first `n` picks of one list are those of another.
proof fn lemma_same_picks(
    fs: Seq<SpecField>,
    x: Seq<int>,
    y: Seq<int>,
    p: spec_fn(SpecField) -> bool,
    n: int,
)
    requires
        picks(fs, x, p),
        picks(fs, y, p),
        0 <= n <= x.len(),
    ensures
        n <= y.len(),
        forall|i: int| 0 <= i < n ==> x[i] == y[i],
    decreases n,
{
    if n > 0 {
        lemma_same_picks(fs, x, y, p, n - 1);
        let v = x[n - 1];
        assert(p(fs[v]));
        let k = choose|k: int| 0 <= k < y.len() && y[k] == v;
        if k < n - 1 {
            assert(x[k] == y[k]);
            assert(x[k] < x[n - 1]);
        }
        assert(k >= n - 1);
        if k > n - 1 {
            let u = y[n - 1];
            assert(y[n - 1] < y[k]);
            assert(p(fs[u]));
            let l = choose|l: int| 0 <= l < x.len() && x[l] == u;
            if l < n - 1 {
                assert(x[l] == y[l]);
                assert(y[l] < y[n - 1]);
            } else if l > n - 1 {
                assert(x[n - 1] < x[l]);
            }
        }
    }
}

proof fn lemma_node_arms(
    vs: Seq<SpecVariant>,
    i: int,
    done: Seq<SpecNodeArm>,
    node: Seq<char>,
)
    requires
        0 <= i <= vs.len(),
    ensures
        fold_from(vs, i, done, node_arm(node)) matches Ok(arms) ==> ({
            &&& arms.len() == done.len() + vs.len() - i
            &&& forall|j: int| 0 <= j < done.len() ==> arms[j] == done[j]
            &&& forall|j: int|
                i <= j < vs.len() ==> (#[trigger] arms[done.len() + j - i]).variant == vs[j].name
                    && (vs[j].fields matches SpecFields::Named(fs) && children_in_order(
                    arms[done.len() + j - i].children,
                    fs,
                    node,
                ))
        }),
    decreases vs.len() - i,
{
    if i < vs.len() {
        let step = node_arm(node);
        if let Ok(next) = step(done, vs[i]) {
            let fs = vs[i].fields->Named_0;
            lemma_children(fs, node);
            lemma_node_arms(vs, i + 1, next, node);
            if let Ok(arms) = fold_from(vs, i + 1, next, step) {
                assert(arms[done.len() as int] == next[done.len() as int]);
                assert forall|j: int| i <= j < vs.len() implies (
                #[trigger] arms[done.len() + j - i]).variant == vs[j].name && (
                vs[j].fields matches SpecFields::Named(fs) && children_in_order(
                    arms[done.len() + j - i].children,
                    fs,
                    node,
                )) by {
                    if j > i {
                        assert(done.len() + j - i == next.len() + j - (i + 1));
                    }
                }
            }
        }
    }
}

} // verus!
