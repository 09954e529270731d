//! The parameters of a call that is being streamed: a list of names and values in the order in
//! which the names came, none of them twice.
use crate::json::{
    equal, json_text, members_of, object_insert, object_model, object_new, object_value, copy_value,
    scalar, value_model, values_equal, write_json, JsonModel, Scalar,
};
use crate::text::search::same;
use serde_json::Value;
use vstd::prelude::*;

verus! {

/// Names with their values.
pub type Params = Seq<(Seq<char>, JsonModel)>;

/// The model of a list of parameters.
pub open spec fn params_model(params: Seq<(String, Value)>) -> Params {
    Seq::new(params.len(), |i: int| (params[i].0@, value_model(params[i].1)))
}

/// No name occurs twice.
pub open spec fn distinct(params: Params) -> bool {
    forall|i: int, j: int|
        0 <= i < j < params.len() ==> (#[trigger] params[i]).0 != (#[trigger] params[j]).0
}

/// There is a parameter of this name.
pub open spec fn has_key(params: Params, key: Seq<char>) -> bool {
    exists|i: int| 0 <= i < params.len() && (#[trigger] params[i]).0 == key
}

/// The parameters with the value of `key` set: in its place if it has one, else at the end.
pub open spec fn put(params: Params, key: Seq<char>, value: JsonModel) -> Params {
    if has_key(params, key) {
        Seq::new(
            params.len(),
            |i: int|
                if params[i].0 == key {
                    (key, value)
                } else {
                    params[i]
                },
        )
    } else {
        params.push((key, value))
    }
}

/// The parameters that result from setting `pairs` one after the other.
pub open spec fn collected(pairs: Params) -> Params
    decreases pairs.len(),
{
    if pairs.len() == 0 {
        seq![]
    } else {
        put(collected(pairs.drop_last()), pairs.last().0, pairs.last().1)
    }
}

/// `b` has a parameter of this name and an equal value.
pub open spec fn has_equal(b: Params, key: Seq<char>, value: JsonModel) -> bool {
    exists|j: int|
        0 <= j < b.len() && (#[trigger] b[j]).0 == key && values_equal(value, b[j].1)
}

/// The two have the same names with equal values.
pub open spec fn same_params(a: Params, b: Params) -> bool {
    &&& a.len() == b.len()
    &&& forall|i: int| 0 <= i < a.len() ==> has_equal(b, (#[trigger] a[i]).0, a[i].1)
}

/// A parameter as a member of a JSON object.
pub open spec fn entry_text(key: Seq<char>, value: JsonModel) -> Seq<char> {
    json_text(JsonModel::Text(key)) + ": "@ + json_text(value)
}

/// The parameters as members of a JSON object.
pub open spec fn entries_text(params: Params) -> Seq<char>
    decreases params.len(),
{
    if params.len() == 0 {
        seq![]
    } else if params.len() == 1 {
        entry_text(params[0].0, params[0].1)
    } else {
        entries_text(params.drop_last()) + ", "@ + entry_text(params.last().0, params.last().1)
    }
}

/// The beginning of a JSON object with these parameters.
pub open spec fn opening_fragment(params: Params) -> Seq<char> {
    "{"@ + entries_text(params)
}

/// What continues a JSON object by those of the parameters that `known` does not have.
pub open spec fn added_fragment(params: Params, known: Params) -> Seq<char>
    decreases params.len(),
{
    if params.len() == 0 {
        seq![]
    } else {
        added_fragment(params.drop_last(), known) + if has_key(known, params.last().0) {
            seq![]
        } else {
            ", "@ + entry_text(params.last().0, params.last().1)
        }
    }
}

/// Setting a parameter repeats no name.
pub proof fn lemma_put_distinct(params: Params, key: Seq<char>, value: JsonModel)
    requires
        distinct(params),
    ensures
        distinct(put(params, key, value)),
{
}

/// Collecting parameters repeats no name.
pub proof fn lemma_collected_distinct(pairs: Params)
    ensures
        distinct(collected(pairs)),
    decreases pairs.len(),
{
    if pairs.len() > 0 {
        lemma_collected_distinct(pairs.drop_last());
        lemma_put_distinct(collected(pairs.drop_last()), pairs.last().0, pairs.last().1);
    }
}

/// Nothing is added by parameters that are known.
pub proof fn lemma_nothing_added(params: Params, known: Params)
    requires
        forall|i: int| 0 <= i < params.len() ==> has_key(known, (#[trigger] params[i]).0),
    ensures
        added_fragment(params, known) == Seq::<char>::empty(),
    decreases params.len(),
{
    if params.len() > 0 {
        let before = params.drop_last();
        assert forall|i: int| 0 <= i < before.len() implies has_key(
            known,
            (#[trigger] before[i]).0,
        ) by {
            assert(before[i] == params[i]);
        }
        lemma_nothing_added(before, known);
        assert(has_key(known, params[params.len() - 1].0));
        assert(added_fragment(params, known) =~= Seq::<char>::empty());
    }
}

/// What opens an object with some parameters, and what is then added by all of them, is what
/// opens an object with all of them.
pub proof fn lemma_fragments_join(params: Params, k: int)
    requires
        distinct(params),
        0 < k <= params.len(),
    ensures
        opening_fragment(params.take(k)) + added_fragment(params, params.take(k))
            == opening_fragment(params),
    decreases params.len(),
{
    let known = params.take(k);
    if k == params.len() {
        assert(known =~= params);
        lemma_nothing_added(params, known);
        assert(opening_fragment(params) + Seq::<char>::empty() =~= opening_fragment(params));
    } else {
        let before = params.drop_last();
        assert(before.take(k) =~= known);
        lemma_fragments_join(before, k);
        assert(!has_key(known, params.last().0));
        let last = ", "@ + entry_text(params.last().0, params.last().1);
        assert(added_fragment(params, known) == added_fragment(before, known) + last);
        assert(opening_fragment(params) =~= opening_fragment(before) + last);
        assert(opening_fragment(known) + added_fragment(params, known) =~= (opening_fragment(known)
            + added_fragment(before, known)) + last);
    }
}

/// Parameters whose names are distinct are collected as they are.
pub proof fn lemma_collected_same(pairs: Params)
    requires
        distinct(pairs),
    ensures
        collected(pairs) == pairs,
    decreases pairs.len(),
{
    if pairs.len() > 0 {
        let before = pairs.drop_last();
        lemma_collected_same(before);
        assert(!has_key(before, pairs.last().0));
        assert(before.push((pairs.last().0, pairs.last().1)) =~= pairs);
    } else {
        assert(collected(pairs) =~= pairs);
    }
}

/// The place of the parameter `key`.
fn position(params: &Vec<(String, Value)>, key: &str) -> (r: Option<usize>)
    ensures
        match r {
            Some(i) => {
                &&& i < params@.len()
                &&& params_model(params@)[i as int].0 == key@
            },
            None => !has_key(params_model(params@), key@),
        },
{
    let n = params.len();
    let mut i: usize = 0;
    while i < n
        invariant
            n == params@.len(),
            i <= n,
            forall|j: int| 0 <= j < i ==> (#[trigger] params_model(params@)[j]).0 != key@,
        decreases n - i,
    {
        if same(&params[i].0, key) {
            return Some(i);
        }
        i += 1;
    }
    None
}

/// Sets the value of `key`.
pub(crate) fn set_param(params: &mut Vec<(String, Value)>, key: String, value: Value)
    requires
        distinct(params_model(old(params)@)),
    ensures
        params_model(final(params)@) == put(
            params_model(old(params)@),
            key@,
            value_model(value),
        ),
        distinct(params_model(final(params)@)),
{
    let ghost before = params_model(params@);
    let ghost k = key@;
    let ghost v = value_model(value);
    proof {
        lemma_put_distinct(before, k, v);
    }
    match position(params, &key) {
        Some(i) => {
            assert(has_key(before, k));
            params.set(i, (key, value));
            assert forall|j: int| 0 <= j < before.len() implies params_model(params@)[j] == (put(
                before,
                k,
                v,
            )[j]) by {
                if j != i {
                    assert(before[j].0 != before[i as int].0);
                }
            }
            assert(params_model(params@) =~= put(before, k, v));
        },
        None => {
            params.push((key, value));
            assert(params_model(params@) =~= put(before, k, v));
        },
    }
}

/// Whether the two have the same names with equal values.
pub(crate) fn params_equal(a: &Vec<(String, Value)>, b: &Vec<(String, Value)>) -> (r: bool)
    requires
        distinct(params_model(b@)),
    ensures
        r == same_params(params_model(a@), params_model(b@)),
{
    let n = a.len();
    if n != b.len() {
        return false;
    }
    let ghost x = params_model(a@);
    let ghost y = params_model(b@);
    let mut i: usize = 0;
    while i < n
        invariant
            n == a@.len(),
            x == params_model(a@),
            y == params_model(b@),
            distinct(y),
            i <= n,
            forall|j: int| 0 <= j < i ==> has_equal(y, (#[trigger] x[j]).0, x[j].1),
        decreases n - i,
    {
        assert(x[i as int] == (a@[i as int].0@, value_model(a@[i as int].1)));
        match position(b, &a[i].0) {
            Some(j) => {
                if !equal(&a[i].1, &b[j].1) {
                    assert(!has_equal(y, x[i as int].0, x[i as int].1)) by {
                        if has_equal(y, x[i as int].0, x[i as int].1) {
                            let m = choose|m: int|
                                0 <= m < y.len() && (#[trigger] y[m]).0 == x[i as int].0
                                    && values_equal(x[i as int].1, y[m].1);
                            if m < j {
                                assert(y[m].0 != y[j as int].0);
                            } else if j < m {
                                assert(y[j as int].0 != y[m].0);
                            }
                        }
                    }
                    return false;
                }
                assert(y[j as int].0 == x[i as int].0);
            },
            None => {
                return false;
            },
        }
        i += 1;
    }
    true
}

/// The parameters as a JSON object.
pub(crate) fn params_object(params: &Vec<(String, Value)>) -> (r: Value)
    ensures
        value_model(r) == JsonModel::Object(members_of(params_model(params@))),
{
    let n = params.len();
    let mut object = object_new();
    let mut i: usize = 0;
    let ghost all = params_model(params@);
    assert(all.take(0) =~= seq![]);
    while i < n
        invariant
            n == params@.len(),
            all == params_model(params@),
            i <= n,
            object_model(object) == members_of(all.take(i as int)),
        decreases n - i,
    {
        assert(all.take(i + 1).drop_last() =~= all.take(i as int));
        object_insert(&mut object, params[i].0.clone(), copy_value(&params[i].1));
        i += 1;
    }
    assert(all.take(n as int) =~= all);
    object_value(object)
}

/// Adds a parameter as a member of a JSON object to `out`.
fn append_entry(out: &mut String, key: &String, value: &Value)
    ensures
        final(out)@ == old(out)@ + entry_text(key@, value_model(*value)),
{
    let ghost before = out@;
    match write_json(&scalar(Scalar::Text(key.clone()))) {
        Ok(text) => out.append(&text),
        Err(_) => {},
    }
    out.append(": ");
    match write_json(value) {
        Ok(text) => out.append(&text),
        Err(_) => {},
    }
    assert(out@ =~= before + entry_text(key@, value_model(*value)));
}

/// The beginning of a JSON object with these parameters.
pub(crate) fn write_opening(params: &Vec<(String, Value)>) -> (r: String)
    ensures
        r@ == opening_fragment(params_model(params@)),
{
    let n = params.len();
    let ghost all = params_model(params@);
    let mut out = String::new();
    out.append("{");
    let mut i: usize = 0;
    assert(all.take(0) =~= seq![]);
    assert(out@ =~= opening_fragment(all.take(0)));
    while i < n
        invariant
            n == params@.len(),
            all == params_model(params@),
            i <= n,
            out@ == opening_fragment(all.take(i as int)),
        decreases n - i,
    {
        let ghost before = out@;
        assert(all.take(i + 1).drop_last() =~= all.take(i as int));
        if i > 0 {
            out.append(", ");
        }
        append_entry(&mut out, &params[i].0, &params[i].1);
        assert(out@ =~= opening_fragment(all.take(i + 1)));
        i += 1;
    }
    assert(all.take(n as int) =~= all);
    out
}

/// What continues a JSON object by those of the parameters that `known` does not have.
pub(crate) fn write_added(params: &Vec<(String, Value)>, known: &Vec<(String, Value)>) -> (r: String)
    ensures
        r@ == added_fragment(params_model(params@), params_model(known@)),
{
    let n = params.len();
    let ghost all = params_model(params@);
    let mut out = String::new();
    let mut i: usize = 0;
    assert(all.take(0) =~= seq![]);
    assert(out@ =~= seq![]);
    while i < n
        invariant
            n == params@.len(),
            all == params_model(params@),
            i <= n,
            out@ == added_fragment(all.take(i as int), params_model(known@)),
        decreases n - i,
    {
        assert(all.take(i + 1).drop_last() =~= all.take(i as int));
        match position(known, &params[i].0) {
            Some(_) => {
                assert(has_key(params_model(known@), all[i as int].0));
                assert(out@ + seq![] =~= out@);
            },
            None => {
                let ghost before = out@;
                out.append(", ");
                append_entry(&mut out, &params[i].0, &params[i].1);
                assert(out@ =~= before + (", "@ + entry_text(all[i as int].0, all[i as int].1)));
            },
        }
        i += 1;
    }
    assert(all.take(n as int) =~= all);
    out
}

} // verus!
