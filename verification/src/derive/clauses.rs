//! What the clauses of an execution annotation name.
use vstd::prelude::*;

use crate::derive::decl::{fold_from, SpecMeta, SpecMetaValue};
use crate::derive::exec::{
    call_clause, call_entry, field_entry, payload_clause, single_field, single_field_entry,
    SpecCallForm, SpecCallPayload,
};
use crate::derive::judgements::last_keyed;
use crate::derive::meta::{keyed, list_of};

verus! {

/// Whether an entry is a bare name.
pub open spec fn is_name_entry(m: SpecMeta) -> bool {
    m.key is Some && m.value is Flag
}

/// A clause names a single field exactly where its list holds one bare name.
pub proof fn law_a_single_field_stands_alone(m: SpecMeta, f: Seq<char>)
    ensures
        single_field(m) == Ok::<Seq<char>, Seq<char>>(f) <==> (
        m.value matches SpecMetaValue::List(ms) && ms.len() == 1 && is_name_entry(ms[0])
            && ms[0].key == Some(f)),
{
    reveal_with_fuel(fold_from, 3);
    if let SpecMetaValue::List(ms) = m.value {
        let step = single_field_entry();
        if ms.len() >= 2 {
            if step(None, ms[0]) is Ok {
                assert(step(ms[0].key, ms[1]) is Err);
            }
        }
    }
}

proof fn lemma_fields(ms: Seq<SpecMeta>, i: int, found: Seq<Seq<char>>)
    requires
        0 <= i <= ms.len(),
    ensures
        fold_from(ms, i, found, field_entry()) is Ok <==> forall|k: int|
            i <= k < ms.len() ==> is_name_entry(#[trigger] ms[k]),
        fold_from(ms, i, found, field_entry()) matches Ok(out) ==> out == found + Seq::new(
            (ms.len() - i) as nat,
            |k: int| ms[i + k].key->Some_0,
        ),
    decreases ms.len() - i,
{
    let rest = Seq::new((ms.len() - i) as nat, |k: int| ms[i + k].key->Some_0);
    if i < ms.len() {
        let r = field_entry()(found, ms[i]);
        assert(r is Ok <==> is_name_entry(ms[i]));
        if r is Ok {
            let next = r->Ok_0;
            lemma_fields(ms, i + 1, next);
            let tail = Seq::new((ms.len() - i - 1) as nat, |k: int| ms[i + 1 + k].key->Some_0);
            assert(next + tail =~= found + rest);
        }
    } else {
        assert(found + rest =~= found);
    }
}

/// A payload clause without a list takes all fields, one with a list the
/// fields that it names, in its order, and one with a name that field alone.
pub proof fn law_a_payload_takes_the_fields_it_names(m: SpecMeta, fs: Seq<Seq<char>>)
    ensures
        m.value is Flag ==> payload_clause(m) == Ok::<SpecCallPayload, Seq<char>>(
            SpecCallPayload::AllFields,
        ),
        m.value matches SpecMetaValue::List(ms) ==> (payload_clause(m) == Ok::<
            SpecCallPayload,
            Seq<char>,
        >(SpecCallPayload::Fields(fs)) <==> ms.len() > 0 && fs.len() == ms.len() && forall|k: int|
            0 <= k < ms.len() ==> is_name_entry(#[trigger] ms[k]) && ms[k].key == Some(fs[k])),
        m.value matches SpecMetaValue::Path(p) ==> p.segments.len() == 1 ==> payload_clause(m)
            == Ok::<SpecCallPayload, Seq<char>>(SpecCallPayload::Single(p.segments[0])),
{
    if let SpecMetaValue::List(ms) = m.value {
        lemma_fields(ms, 0, Seq::empty());
        let keys = Seq::new(ms.len(), |k: int| ms[0 + k].key->Some_0);
        assert(Seq::<Seq<char>>::empty() + keys =~= keys);
        if fs.len() == ms.len() && forall|k: int|
            0 <= k < ms.len() ==> is_name_entry(#[trigger] ms[k]) && ms[k].key == Some(fs[k]) {
            assert(keys =~= fs) by {
                assert forall|k: int| 0 <= k < ms.len() implies keys[k] == fs[k] by {
                    assert(is_name_entry(ms[k]));
                }
            }
        }
        if payload_clause(m) == Ok::<SpecCallPayload, Seq<char>>(SpecCallPayload::Fields(fs)) {
            assert forall|k: int| 0 <= k < ms.len() implies is_name_entry(#[trigger] ms[k])
                && ms[k].key == Some(fs[k]) by {
                assert(keys[k] == fs[k]);
            }
        }
    }
}

/// The entries of a call from position `i` on that are not about its payload.
pub open spec fn label_entries(ms: Seq<SpecMeta>, i: int) -> Seq<SpecMeta>
    decreases ms.len() - i,
{
    if i < 0 || i >= ms.len() {
        Seq::empty()
    } else if keyed(ms[i], "payload"@) {
        label_entries(ms, i + 1)
    } else {
        seq![ms[i]] + label_entries(ms, i + 1)
    }
}

proof fn lemma_call(ms: Seq<SpecMeta>, i: int, s: SpecCallForm)
    requires
        0 <= i <= ms.len(),
    ensures
        fold_from(ms, i, s, call_entry()) matches Ok(out) ==> {
            &&& label_entries(ms, i).len() <= 1
            &&& s.label is Some ==> label_entries(ms, i).len() == 0
            &&& out.label == (if label_entries(ms, i).len() == 0 {
                s.label
            } else {
                label_entries(ms, i)[0].key
            })
            &&& label_entries(ms, i).len() == 1 ==> is_name_entry(label_entries(ms, i)[0])
            &&& out.payload == (match last_keyed(ms, i, "payload"@) {
                Some(m) => payload_clause(m)->Ok_0,
                None => s.payload,
            })
        },
    decreases ms.len() - i,
{
    if i < ms.len() {
        let r = call_entry()(s, ms[i]);
        if r is Ok {
            let next = r->Ok_0;
            lemma_call(ms, i + 1, next);
            if !keyed(ms[i], "payload"@) {
                assert(next.label == ms[i].key);
                assert(label_entries(ms, i)[0] == ms[i]);
            }
        }
    }
}

/// A call has for its label the one bare name of its list that is not about
/// the payload, and for its payload what the last payload clause names, or
/// nothing.
pub proof fn law_a_call_has_one_label(m: SpecMeta, label: Seq<char>, payload: SpecCallPayload)
    requires
        call_clause(m) == Ok::<(Seq<char>, SpecCallPayload), Seq<char>>((label, payload)),
    ensures
        m.value matches SpecMetaValue::List(ms) && label_entries(ms, 0).len() == 1 && is_name_entry(
            label_entries(ms, 0)[0],
        ) && label_entries(ms, 0)[0].key == Some(label) && payload == (match last_keyed(
            ms,
            0,
            "payload"@,
        ) {
            Some(e) => payload_clause(e)->Ok_0,
            None => SpecCallPayload::Nothing,
        }),
{
    let ms = list_of(m)->Ok_0;
    lemma_call(ms, 0, SpecCallForm { label: None, payload: SpecCallPayload::Nothing });
}

} // verus!
