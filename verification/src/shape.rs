//! JSON shaping: the null filter applied to every produced object.
//!
//! Shaping decides which fields of an assembled object survive:
//! * an optional field whose value is `null` is omitted;
//! * a non-optional `null` field is kept as `null`;
//! * an object-valued field is recursively cleaned and dropped when the
//!   cleaned object comes out empty, whatever its optional flag;
//! * an array-valued field has every element recursively cleaned, and an
//!   empty result is dropped only when the field is optional;
//! * every other value is kept unchanged.
//!
//! Cleaning (`clean`) removes `null` members from nested objects, turns
//! objects that become empty into `null`, and drops `null` elements from
//! nested arrays.

use vstd::prelude::*;

use crate::json::JsonVal;
use crate::json::JsonValue;
use crate::json::fields_view;
use crate::json::items_view;
use crate::json::lemma_fields_view;
use crate::json::lemma_fields_view_push;
use crate::json::lemma_items_view;
use crate::json::lemma_items_view_push;

verus! {

/// One field of an object before shaping: key, value, optional flag.
pub type RawField = (String, JsonValue, bool);

/// Model of a raw field.
pub open spec fn raw_view(f: RawField) -> (Seq<char>, JsonVal, bool) {
    (f.0@, f.1.view(), f.2)
}

/// Models of a sequence of raw fields.
pub open spec fn raws_view(fields: Seq<RawField>) -> Seq<(Seq<char>, JsonVal, bool)> {
    fields.map_values(|f: RawField| raw_view(f))
}

/// Recursively clean a value: `null` members of objects disappear, an
/// object with nothing left becomes `null`, `null` elements of arrays
/// disappear, everything else stays.
pub open spec fn clean(v: JsonVal) -> JsonVal
    decreases v,
{
    match v {
        JsonVal::Obj(fields) => {
            let cleaned = clean_entries(fields);
            if cleaned.len() == 0 {
                JsonVal::Null
            } else {
                JsonVal::Obj(cleaned)
            }
        },
        JsonVal::Arr(items) => JsonVal::Arr(clean_elems(items)),
        _ => v,
    }
}

/// Clean the values of object entries, keeping only those that do not
/// clean to `null`.
pub open spec fn clean_entries(fields: Seq<(Seq<char>, JsonVal)>) -> Seq<(Seq<char>, JsonVal)>
    decreases fields,
{
    if fields.len() == 0 {
        Seq::empty()
    } else {
        let rest = clean_entries(fields.drop_last());
        let last = fields.last();
        let cleaned = clean(last.1);
        if cleaned is Null {
            rest
        } else {
            rest.push((last.0, cleaned))
        }
    }
}

/// Clean array elements, dropping those that clean to `null`.
pub open spec fn clean_elems(items: Seq<JsonVal>) -> Seq<JsonVal>
    decreases items,
{
    if items.len() == 0 {
        Seq::empty()
    } else {
        let rest = clean_elems(items.drop_last());
        let cleaned = clean(items.last());
        if cleaned is Null {
            rest
        } else {
            rest.push(cleaned)
        }
    }
}

/// Clean every array element, keeping `null` results in place.  This is
/// what shaping does to a field that is itself an array.
pub open spec fn clean_each(items: Seq<JsonVal>) -> Seq<JsonVal>
    decreases items,
{
    if items.len() == 0 {
        Seq::empty()
    } else {
        clean_each(items.drop_last()).push(clean(items.last()))
    }
}

/// What shaping does to a single field: the surviving key/value pair, or
/// `None` when the field is dropped.
pub open spec fn shape_field(key: Seq<char>, v: JsonVal, optional: bool) -> Option<
    (Seq<char>, JsonVal),
> {
    match v {
        JsonVal::Null => if optional {
            Option::None
        } else {
            Option::Some((key, JsonVal::Null))
        },
        JsonVal::Obj(_) => {
            let cleaned = clean(v);
            if cleaned is Null {
                Option::None
            } else {
                Option::Some((key, cleaned))
            }
        },
        JsonVal::Arr(items) => {
            let cleaned = clean_each(items);
            if cleaned.len() == 0 && optional {
                Option::None
            } else {
                Option::Some((key, JsonVal::Arr(cleaned)))
            }
        },
        _ => Option::Some((key, v)),
    }
}

/// Shape a whole sequence of raw fields, in order.
pub open spec fn shape_entries(entries: Seq<(Seq<char>, JsonVal, bool)>) -> Seq<
    (Seq<char>, JsonVal),
>
    decreases entries,
{
    if entries.len() == 0 {
        Seq::empty()
    } else {
        let rest = shape_entries(entries.drop_last());
        let last = entries.last();
        match shape_field(last.0, last.1, last.2) {
            Option::Some(kept) => rest.push(kept),
            Option::None => rest,
        }
    }
}

/// Recursively clean one value.
#[verifier::loop_isolation(false)]
pub fn clean_value(v: &JsonValue) -> (r: JsonValue)
    ensures
        r@ == clean(v@),
    decreases v@,
{
    match v {
        JsonValue::Null => JsonValue::Null,
        JsonValue::Bool(b) => JsonValue::Bool(*b),
        JsonValue::Int(i) => JsonValue::Int(*i),
        JsonValue::Num(s) => JsonValue::Num(s.clone()),
        JsonValue::Text(s) => JsonValue::Text(s.clone()),
        JsonValue::Arr(items) => {
            let ghost model = items_view(items@);
            let mut out: Vec<JsonValue> = Vec::new();
            let mut idx: usize = 0;
            proof {
                lemma_items_view(items@);
                assert(model.take(0) =~= Seq::<JsonVal>::empty());
            }
            while idx < items.len()
                invariant
                    idx <= items.len(),
                    model == items_view(items@),
                    model.len() == items@.len(),
                    items_view(out@) == clean_elems(model.take(idx as int)),
                decreases items.len() - idx,
            {
                proof {
                    lemma_items_view(items@);
                    assert(items@[idx as int]@ == model[idx as int]);
                    assert(v@ == JsonVal::Arr(model));
                    assert(decreases_to!(v@ => v@->Arr_0));
                    assert(decreases_to!(model => model[idx as int]));
                }
                let cleaned = clean_value(&items[idx]);
                proof {
                    lemma_items_view(items@);
                    assert(model.take(idx + 1).drop_last() =~= model.take(idx as int));
                    assert(model.take(idx + 1).last() == model[idx as int]);
                    if !(cleaned@ is Null) {
                        lemma_items_view_push(out@, cleaned);
                    }
                }
                if !matches!(cleaned, JsonValue::Null) {
                    out.push(cleaned);
                }
                idx += 1;
            }
            proof {
                assert(model.take(items@.len() as int) =~= model);
            }
            JsonValue::Arr(out)
        },
        JsonValue::Obj(fields) => {
            let ghost model = fields_view(fields@);
            let mut out: Vec<(String, JsonValue)> = Vec::new();
            let mut idx: usize = 0;
            proof {
                lemma_fields_view(fields@);
                assert(model.take(0) =~= Seq::<(Seq<char>, JsonVal)>::empty());
            }
            while idx < fields.len()
                invariant
                    idx <= fields.len(),
                    model == fields_view(fields@),
                    model.len() == fields@.len(),
                    fields_view(out@) == clean_entries(model.take(idx as int)),
                decreases fields.len() - idx,
            {
                proof {
                    lemma_fields_view(fields@);
                    assert(fields@[idx as int].1@ == model[idx as int].1);
                    assert(v@ == JsonVal::Obj(model));
                    assert(decreases_to!(v@ => v@->Obj_0));
                    assert(decreases_to!(model => model[idx as int]));
                    assert(decreases_to!(model[idx as int] => model[idx as int].1));
                }
                let cleaned = clean_value(&fields[idx].1);
                proof {
                    lemma_fields_view(fields@);
                    assert(model.take(idx + 1).drop_last() =~= model.take(idx as int));
                    assert(model.take(idx + 1).last() == model[idx as int]);
                    if !(cleaned@ is Null) {
                        lemma_fields_view_push(out@, (fields@[idx as int].0, cleaned));
                    }
                }
                if !matches!(cleaned, JsonValue::Null) {
                    let key = fields[idx].0.clone();
                    assert(key@ == fields@[idx as int].0@);
                    out.push((key, cleaned));
                }
                idx += 1;
            }
            proof {
                assert(model.take(fields@.len() as int) =~= model);
            }
            if out.len() == 0 {
                JsonValue::Null
            } else {
                JsonValue::Obj(out)
            }
        },
    }
}

/// Clean every element of an array field, keeping `null` results.
#[verifier::loop_isolation(false)]
pub fn clean_each_value(items: &Vec<JsonValue>) -> (r: Vec<JsonValue>)
    ensures
        items_view(r@) == clean_each(items_view(items@)),
{
    let ghost model = items_view(items@);
    let mut out: Vec<JsonValue> = Vec::new();
    let mut idx: usize = 0;
    proof {
        lemma_items_view(items@);
        assert(model.take(0) =~= Seq::<JsonVal>::empty());
    }
    while idx < items.len()
        invariant
            idx <= items.len(),
            model == items_view(items@),
            model.len() == items@.len(),
            items_view(out@) == clean_each(model.take(idx as int)),
        decreases items.len() - idx,
    {
        let cleaned = clean_value(&items[idx]);
        proof {
            lemma_items_view(items@);
            assert(model.take(idx + 1).drop_last() =~= model.take(idx as int));
            assert(model.take(idx + 1).last() == model[idx as int]);
            lemma_items_view_push(out@, cleaned);
        }
        out.push(cleaned);
        idx += 1;
    }
    proof {
        assert(model.take(items@.len() as int) =~= model);
    }
    out
}

/// Shape the raw fields of one assembled object: apply the null filter
/// to each field in order and keep the survivors.
#[verifier::loop_isolation(false)]
pub fn shape_fields(entries: Vec<RawField>) -> (r: Vec<(String, JsonValue)>)
    ensures
        fields_view(r@) == shape_entries(raws_view(entries@)),
{
    let ghost all = raws_view(entries@);
    let ghost total: usize = entries.len();
    let mut rest = entries;
    let mut out: Vec<(String, JsonValue)> = Vec::new();
    let mut idx: usize = 0;
    proof {
        assert(all.take(0) =~= Seq::<(Seq<char>, JsonVal, bool)>::empty());
        assert(raws_view(rest@) =~= all.skip(0));
    }
    while rest.len() > 0
        invariant
            idx + rest.len() == total,
            all.len() == total,
            raws_view(rest@) == all.skip(idx as int),
            fields_view(out@) == shape_entries(all.take(idx as int)),
        decreases rest.len(),
    {
        let ghost prev = rest@;
        let field = rest.remove(0);
        let ghost shaped = all.take(idx + 1);
        proof {
            assert(raws_view(prev)[0] == raw_view(prev[0]));
            assert(raw_view(field) == all.skip(idx as int)[0]);
            assert(all.skip(idx as int)[0] == all[idx as int]);
            assert(shaped.drop_last() =~= all.take(idx as int));
            assert(shaped.last() == all[idx as int]);
            assert(rest@ =~= prev.skip(1));
            assert(raws_view(rest@) =~= all.skip(idx + 1)) by {
                assert forall|j: int| 0 <= j < rest@.len() implies #[trigger] raws_view(rest@)[j]
                    == all.skip(idx + 1)[j] by {
                    assert(raws_view(rest@)[j] == raw_view(rest@[j]));
                    assert(rest@[j] == prev[j + 1]);
                    assert(raws_view(prev)[j + 1] == raw_view(prev[j + 1]));
                    assert(raws_view(prev)[j + 1] == all.skip(idx as int)[j + 1]);
                    assert(all.skip(idx as int)[j + 1] == all[idx + 1 + j]);
                    assert(all.skip(idx + 1)[j] == all[idx + 1 + j]);
                }
            }
        }
        let (key, value, optional) = field;
        match value {
            JsonValue::Null => {
                if !optional {
                    proof {
                        lemma_fields_view_push(out@, (key, JsonValue::Null));
                    }
                    out.push((key, JsonValue::Null));
                }
            },
            JsonValue::Obj(obj_fields) => {
                let whole = JsonValue::Obj(obj_fields);
                let cleaned = clean_value(&whole);
                if !matches!(cleaned, JsonValue::Null) {
                    proof {
                        lemma_fields_view_push(out@, (key, cleaned));
                    }
                    out.push((key, cleaned));
                }
            },
            JsonValue::Arr(arr_items) => {
                let cleaned_items = clean_each_value(&arr_items);
                let keep = cleaned_items.len() > 0 || !optional;
                proof {
                    lemma_items_view(cleaned_items@);
                }
                if keep {
                    let cleaned = JsonValue::Arr(cleaned_items);
                    proof {
                        lemma_fields_view_push(out@, (key, cleaned));
                    }
                    out.push((key, cleaned));
                }
            },
            other => {
                proof {
                    lemma_fields_view_push(out@, (key, other));
                }
                out.push((key, other));
            },
        }
        idx += 1;
    }
    proof {
        assert(all.take(all.len() as int) =~= all);
    }
    out
}

/// Cleaning is idempotent: cleaning a cleaned value changes nothing.
pub proof fn lemma_clean_idempotent(v: JsonVal)
    ensures
        clean(clean(v)) == clean(v),
    decreases v,
{
    match v {
        JsonVal::Obj(fields) => {
            lemma_clean_entries_idempotent(fields);
        },
        JsonVal::Arr(items) => {
            lemma_clean_elems_idempotent(items);
        },
        _ => {},
    }
}

/// Cleaning object entries is idempotent.
pub proof fn lemma_clean_entries_idempotent(fields: Seq<(Seq<char>, JsonVal)>)
    ensures
        clean_entries(clean_entries(fields)) == clean_entries(fields),
    decreases fields,
{
    if fields.len() > 0 {
        lemma_clean_entries_idempotent(fields.drop_last());
        let rest = clean_entries(fields.drop_last());
        let last = fields.last();
        let cleaned = clean(last.1);
        lemma_clean_idempotent(last.1);
        if !(cleaned is Null) {
            let out = rest.push((last.0, cleaned));
            assert(out.drop_last() =~= rest);
            assert(out.last() == (last.0, cleaned));
        }
    }
}

/// Cleaning array elements is idempotent.
pub proof fn lemma_clean_elems_idempotent(items: Seq<JsonVal>)
    ensures
        clean_elems(clean_elems(items)) == clean_elems(items),
    decreases items,
{
    if items.len() > 0 {
        lemma_clean_elems_idempotent(items.drop_last());
        let rest = clean_elems(items.drop_last());
        let cleaned = clean(items.last());
        lemma_clean_idempotent(items.last());
        if !(cleaned is Null) {
            let out = rest.push(cleaned);
            assert(out.drop_last() =~= rest);
            assert(out.last() == cleaned);
        }
    }
}

/// Cleaning every element in place is idempotent.
pub proof fn lemma_clean_each_idempotent(items: Seq<JsonVal>)
    ensures
        clean_each(clean_each(items)) == clean_each(items),
    decreases items,
{
    if items.len() > 0 {
        lemma_clean_each_idempotent(items.drop_last());
        let rest = clean_each(items.drop_last());
        let cleaned = clean(items.last());
        lemma_clean_idempotent(items.last());
        let out = rest.push(cleaned);
        assert(out.drop_last() =~= rest);
        assert(out.last() == cleaned);
    }
}

/// What shaping does when nothing matched: a scalar field that came out
/// `null` is kept as `null` unless it was optional, and an array field
/// that came out empty is kept as `[]` unless it was optional.
pub proof fn lemma_shape_field_nothing_matched(key: Seq<char>, optional: bool)
    ensures
        !optional ==> shape_field(key, JsonVal::Null, optional) == Option::Some(
            (key, JsonVal::Null),
        ),
        optional ==> shape_field(key, JsonVal::Null, optional) is None,
        !optional ==> shape_field(key, JsonVal::Arr(Seq::empty()), optional) == Option::Some(
            (key, JsonVal::Arr(Seq::<JsonVal>::empty())),
        ),
        optional ==> shape_field(key, JsonVal::Arr(Seq::empty()), optional) is None,
{
    assert(clean_each(Seq::<JsonVal>::empty()) =~= Seq::<JsonVal>::empty());
}

/// Shaping is idempotent: a field that shaping keeps comes through a
/// second application, with the same optional flag, unchanged; a field
/// that shaping drops stays dropped.  Together with `lemma_clean_idempotent`
/// this says that re-applying the null filter to its own output changes
/// nothing.
pub proof fn lemma_shape_field_idempotent(key: Seq<char>, v: JsonVal, optional: bool)
    ensures
        match shape_field(key, v, optional) {
            Option::Some(kept) => shape_field(kept.0, kept.1, optional) == Option::Some(kept),
            Option::None => true,
        },
{
    match v {
        JsonVal::Obj(fields) => {
            lemma_clean_idempotent(v);
        },
        JsonVal::Arr(items) => {
            lemma_clean_each_idempotent(items);
        },
        _ => {},
    }
}

} // verus!
