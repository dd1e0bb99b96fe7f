//! The JSON values that extraction produces.
//!
//! `JsonValue` is the executable type; its mathematical model is `JsonVal`,
//! where strings become sequences of characters and objects become
//! sequences of key/value pairs.  Numbers keep their decimal text, so no
//! floating point arithmetic happens inside the library; integers produced
//! by the `parseAs:int` pipe are held exactly.

use vstd::prelude::*;

verus! {

/// Mathematical model of a JSON value.
#[verifier::ext_equal]
pub enum JsonVal {
    Null,
    Bool(bool),
    Int(i64),
    Num(Seq<char>),
    Text(Seq<char>),
    Arr(Seq<JsonVal>),
    Obj(Seq<(Seq<char>, JsonVal)>),
}

/// A JSON value: the result of one extraction.
///
/// Objects keep their fields as a vector of key/value pairs with unique
/// keys; a `Num` holds the decimal text of a finite double, a `Int` holds
/// an exact 64-bit integer.
#[derive(Debug, PartialEq)]
pub enum JsonValue {
    Null,
    Bool(bool),
    Int(i64),
    Num(String),
    Text(String),
    Arr(Vec<JsonValue>),
    Obj(Vec<(String, JsonValue)>),
}

impl JsonValue {
    /// The model of this value.
    pub open spec fn view(&self) -> JsonVal
        decreases self,
    {
        match self {
            JsonValue::Null => JsonVal::Null,
            JsonValue::Bool(b) => JsonVal::Bool(*b),
            JsonValue::Int(i) => JsonVal::Int(*i),
            JsonValue::Num(s) => JsonVal::Num(s@),
            JsonValue::Text(s) => JsonVal::Text(s@),
            JsonValue::Arr(items) => JsonVal::Arr(items_view(items@)),
            JsonValue::Obj(fields) => JsonVal::Obj(fields_view(fields@)),
        }
    }
}

/// The models of a sequence of array items.
pub open spec fn items_view(items: Seq<JsonValue>) -> Seq<JsonVal>
    decreases items,
{
    if items.len() == 0 {
        Seq::empty()
    } else {
        items_view(items.drop_last()).push(items.last().view())
    }
}

/// The models of a sequence of object fields.
pub open spec fn fields_view(fields: Seq<(String, JsonValue)>) -> Seq<(Seq<char>, JsonVal)>
    decreases fields,
{
    if fields.len() == 0 {
        Seq::empty()
    } else {
        fields_view(fields.drop_last()).push((fields.last().0@, fields.last().1.view()))
    }
}

/// `items_view` maps the model over the items, index by index.
pub proof fn lemma_items_view(items: Seq<JsonValue>)
    ensures
        items_view(items).len() == items.len(),
        forall|i: int| 0 <= i < items.len() ==> #[trigger] items_view(items)[i] == items[i].view(),
    decreases items,
{
    if items.len() > 0 {
        lemma_items_view(items.drop_last());
    }
}

/// `fields_view` keeps each key and models each value, index by index.
pub proof fn lemma_fields_view(fields: Seq<(String, JsonValue)>)
    ensures
        fields_view(fields).len() == fields.len(),
        forall|i: int| 0 <= i < fields.len() ==> #[trigger] fields_view(fields)[i] == (
            fields[i].0@,
            fields[i].1.view(),
        ),
    decreases fields,
{
    if fields.len() > 0 {
        lemma_fields_view(fields.drop_last());
    }
}

/// Appending an item appends its model.
pub proof fn lemma_items_view_push(items: Seq<JsonValue>, item: JsonValue)
    ensures
        items_view(items.push(item)) == items_view(items).push(item.view()),
{
    assert(items.push(item).drop_last() =~= items);
    assert(items.push(item).last() == item);
}

/// Appending a field appends its model.
pub proof fn lemma_fields_view_push(fields: Seq<(String, JsonValue)>, field: (String, JsonValue))
    ensures
        fields_view(fields.push(field)) == fields_view(fields).push((field.0@, field.1.view())),
{
    assert(fields.push(field).drop_last() =~= fields);
    assert(fields.push(field).last() == field);
}

} // verus!
