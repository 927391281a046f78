//! The JSON data a template is filled from, and how a value is shown as text.
use vstd::prelude::*;
use crate::text::{decimal, push_decimal, string_push, to_owned_string};

verus! {

/// Mathematical model of a JSON value.
pub enum JsonModel {
    Null,
    Bool(bool),
    Number(Seq<char>),
    Str(Seq<char>),
    Array(Seq<JsonModel>),
    Object(Seq<(Seq<char>, JsonModel)>),
}

/// A JSON value. A number is held as the text that JSON writes for it, an
/// object as its members in order.
pub enum JsonValue {
    Null,
    Bool(bool),
    Number(String),
    String(String),
    Array(Vec<JsonValue>),
    Object(Vec<(String, JsonValue)>),
}

pub open spec fn json_view(v: JsonValue) -> JsonModel
    decreases v,
{
    match v {
        JsonValue::Null => JsonModel::Null,
        JsonValue::Bool(b) => JsonModel::Bool(b),
        JsonValue::Number(t) => JsonModel::Number(t@),
        JsonValue::String(s) => JsonModel::Str(s@),
        JsonValue::Array(items) => JsonModel::Array(values_view(items@)),
        JsonValue::Object(members) => JsonModel::Object(members_view(members@)),
    }
}

pub open spec fn values_view(s: Seq<JsonValue>) -> Seq<JsonModel>
    decreases s,
{
    if s.len() == 0 {
        Seq::empty()
    } else {
        values_view(s.drop_last()).push(json_view(s.last()))
    }
}

pub open spec fn members_view(s: Seq<(String, JsonValue)>) -> Seq<(Seq<char>, JsonModel)>
    decreases s,
{
    if s.len() == 0 {
        Seq::empty()
    } else {
        members_view(s.drop_last()).push((s.last().0@, json_view(s.last().1)))
    }
}

impl View for JsonValue {
    type V = JsonModel;

    open spec fn view(&self) -> JsonModel {
        json_view(*self)
    }
}

pub proof fn lemma_values_view(s: Seq<JsonValue>)
    ensures
        values_view(s).len() == s.len(),
        forall|i: int| 0 <= i < s.len() ==> #[trigger] values_view(s)[i] == json_view(s[i]),
    decreases s.len(),
{
    if s.len() > 0 {
        lemma_values_view(s.drop_last());
    }
}

pub proof fn lemma_members_view(s: Seq<(String, JsonValue)>)
    ensures
        members_view(s).len() == s.len(),
        forall|i: int|
            0 <= i < s.len() ==> #[trigger] members_view(s)[i] == (s[i].0@, json_view(s[i].1)),
    decreases s.len(),
{
    if s.len() > 0 {
        lemma_members_view(s.drop_last());
    }
}

/// Text of a JSON value as it is written into a document: a string as
/// itself, a number as JSON writes it, `true`/`false`, nothing for null,
/// `[n items]` for an array and `[object Object]` for an object.
pub open spec fn display(v: JsonModel) -> Seq<char> {
    match v {
        JsonModel::Str(s) => s,
        JsonModel::Number(t) => t,
        JsonModel::Bool(b) => if b { "true"@ } else { "false"@ },
        JsonModel::Null => Seq::empty(),
        JsonModel::Array(items) => "["@ + decimal(items.len()) + " items]"@,
        JsonModel::Object(_) => "[object Object]"@,
    }
}

/// Appends the characters of `t` to `s`.
pub fn push_str(s: &mut String, t: &str)
    ensures
        final(s)@ == old(s)@ + t@,
{
    let cs = crate::text::chars_of(t);
    let mut i: usize = 0;
    while i < cs.len()
        invariant
            i <= cs.len(),
            cs@ == t@,
            s@ == old(s)@ + t@.take(i as int),
        decreases cs.len() - i,
    {
        string_push(s, cs[i]);
        assert(t@.take(i as int + 1) == t@.take(i as int).push(t@[i as int]));
        i = i + 1;
    }
    assert(t@.take(i as int) == t@);
}

/// The text of a JSON value (see [`display`]).
pub fn value_to_string(val: &JsonValue) -> (r: String)
    ensures
        r@ == display(val@),
{
    match val {
        JsonValue::String(s) => s.clone(),
        JsonValue::Number(t) => t.clone(),
        JsonValue::Bool(b) => {
            if *b {
                to_owned_string("true")
            } else {
                to_owned_string("false")
            }
        },
        JsonValue::Null => String::new(),
        JsonValue::Array(items) => {
            let mut s = to_owned_string("[");
            proof {
                lemma_values_view(items@);
            }
            push_decimal(&mut s, items.len());
            push_str(&mut s, " items]");
            s
        },
        JsonValue::Object(_) => to_owned_string("[object Object]"),
    }
}

/// A copy of a JSON value.
pub fn copy_value(v: &JsonValue) -> (r: JsonValue)
    ensures
        r@ == v@,
    decreases v,
{
    match v {
        JsonValue::Null => JsonValue::Null,
        JsonValue::Bool(b) => JsonValue::Bool(*b),
        JsonValue::Number(t) => JsonValue::Number(t.clone()),
        JsonValue::String(s) => JsonValue::String(s.clone()),
        JsonValue::Array(items) => {
            let mut out: Vec<JsonValue> = Vec::new();
            let mut i: usize = 0;
            while i < items.len()
                invariant
                    *v == JsonValue::Array(*items),
                    i <= items.len(),
                    values_view(out@) == values_view(items@.take(i as int)),
                decreases items.len() - i,
            {
                proof {
                    let ghost vv: JsonValue = *v;
                    assert(decreases_to!(vv => vv->Array_0));
                    assert(decreases_to!(*items => items[i as int]));
                }
                let c = copy_value(&items[i]);
                let ghost prev = out@;
                out.push(c);
                assert(out@.drop_last() == prev);
                assert(items@.take(i as int + 1).drop_last() == items@.take(i as int));
                i = i + 1;
            }
            assert(items@.take(i as int) == items@);
            JsonValue::Array(out)
        },
        JsonValue::Object(members) => {
            let mut out: Vec<(String, JsonValue)> = Vec::new();
            let mut i: usize = 0;
            while i < members.len()
                invariant
                    *v == JsonValue::Object(*members),
                    i <= members.len(),
                    members_view(out@) == members_view(members@.take(i as int)),
                decreases members.len() - i,
            {
                proof {
                    let ghost vv: JsonValue = *v;
                    assert(decreases_to!(vv => vv->Object_0));
                    assert(decreases_to!(*members => members[i as int]));
                    assert(decreases_to!(members[i as int] => members[i as int].1));
                }
                let c = copy_value(&members[i].1);
                let ghost prev = out@;
                out.push((members[i].0.clone(), c));
                assert(out@.drop_last() == prev);
                assert(members@.take(i as int + 1).drop_last() == members@.take(i as int));
                i = i + 1;
            }
            assert(members@.take(i as int) == members@);
            JsonValue::Object(out)
        },
    }
}

/// The texts of JSON values: a string is itself, a number its JSON text,
/// a boolean `true` or `false`, null nothing, an array `[n items]` and an
/// object `[object Object]`.
pub proof fn law_value_texts(b: bool, s: Seq<char>, items: Seq<JsonModel>, ms: Seq<(Seq<char>, JsonModel)>)
    ensures
        display(JsonModel::Str(s)) == s,
        display(JsonModel::Number(s)) == s,
        display(JsonModel::Bool(b)) == (if b { seq!['t', 'r', 'u', 'e'] } else { seq!['f', 'a', 'l', 's', 'e'] }),
        display(JsonModel::Null) == Seq::<char>::empty(),
        display(JsonModel::Array(items)) == seq!['['] + decimal(items.len()) + seq![' ', 'i', 't', 'e', 'm', 's', ']'],
        display(JsonModel::Object(ms)) == seq!['[', 'o', 'b', 'j', 'e', 'c', 't', ' ', 'O', 'b', 'j', 'e', 'c', 't', ']'],
{
    reveal_strlit("true");
    reveal_strlit("false");
    reveal_strlit("[");
    reveal_strlit(" items]");
    reveal_strlit("[object Object]");
    assert("true"@ =~= seq!['t', 'r', 'u', 'e']);
    assert("false"@ =~= seq!['f', 'a', 'l', 's', 'e']);
    assert("["@ =~= seq!['[']);
    assert(" items]"@ =~= seq![' ', 'i', 't', 'e', 'm', 's', ']']);
    assert("[object Object]"@ =~= seq!['[', 'o', 'b', 'j', 'e', 'c', 't', ' ', 'O', 'b', 'j', 'e', 'c', 't', ']']);
}

} // verus!
