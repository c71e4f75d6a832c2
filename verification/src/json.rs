//! JSON document model. Upstream subgraph responses and error extensions are
//! held as trees of `JsonValue`; specifications speak of the mathematical
//! model `Jx`.

use vstd::prelude::*;

verus! {

/// Mathematical model of a JSON document. Numbers keep their source text,
/// so no precision is lost and no floating point is involved.
pub enum Jx {
    Null,
    Bool(bool),
    Num(Seq<char>),
    Str(Seq<char>),
    Arr(Seq<Jx>),
    Obj(Seq<(Seq<char>, Jx)>),
}

/// A JSON document. Object member order is preserved; duplicate keys are
/// not rejected (lookups take the first occurrence; upstream servers do not
/// send duplicates).
#[derive(Debug)]
pub enum JsonValue {
    Null,
    Bool(bool),
    Num(String),
    Str(String),
    Arr(Vec<JsonValue>),
    Obj(Vec<(String, JsonValue)>),
}

impl JsonValue {
    pub open spec fn view(self) -> Jx
        decreases self,
    {
        match self {
            JsonValue::Null => Jx::Null,
            JsonValue::Bool(b) => Jx::Bool(b),
            JsonValue::Num(s) => Jx::Num(s@),
            JsonValue::Str(s) => Jx::Str(s@),
            JsonValue::Arr(items) => Jx::Arr(view_arr(items@)),
            JsonValue::Obj(members) => Jx::Obj(view_obj(members@)),
        }
    }
}

pub open spec fn view_arr(s: Seq<JsonValue>) -> Seq<Jx>
    decreases s,
{
    if s.len() == 0 {
        Seq::empty()
    } else {
        view_arr(s.drop_last()).push(s.last().view())
    }
}

pub open spec fn view_obj(s: Seq<(String, JsonValue)>) -> Seq<(Seq<char>, Jx)>
    decreases s,
{
    if s.len() == 0 {
        Seq::empty()
    } else {
        view_obj(s.drop_last()).push((s.last().0@, s.last().1.view()))
    }
}

/// The members of an array or object view are the views of its members,
/// index by index.
pub proof fn lemma_view_arr(s: Seq<JsonValue>)
    ensures
        view_arr(s).len() == s.len(),
        forall|i: int| 0 <= i < s.len() ==> view_arr(s)[i] == s[i].view(),
    decreases s,
{
    if s.len() > 0 {
        lemma_view_arr(s.drop_last());
    }
}

pub proof fn lemma_view_obj(s: Seq<(String, JsonValue)>)
    ensures
        view_obj(s).len() == s.len(),
        forall|i: int| 0 <= i < s.len() ==> view_obj(s)[i] == (s[i].0@, s[i].1.view()),
    decreases s,
{
    if s.len() > 0 {
        lemma_view_obj(s.drop_last());
    }
}


/// Builds a `String` from characters.
///
/// Relies on `String::from_iter` (via `collect`): the resulting string holds
/// exactly the characters of the iterator, in order.
#[verifier::external_body]
pub fn chars_to_string(v: Vec<char>) -> (r: String)
    ensures
        r@ == v@,
{
    v.into_iter().collect()
}

} // verus!
