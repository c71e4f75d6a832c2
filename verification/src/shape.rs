//! The collected shape of what a plan must write: selection sets over object
//! types, each field with its wrapping (list layers and nullability), its
//! scalar type or nested selection set, and its upstream response key.

use vstd::prelude::*;
use crate::ResponseEdge;
use crate::error::Location;

verus! {

/// The scalar types a field can carry.
#[derive(Clone, Copy, PartialEq, Eq, Structural, Debug)]
pub enum DataType {
    Str,
    Float,
    Int,
    BigInt,
    Json,
    Boolean,
}

/// Declared nullability of a field: a stack of list layers, outermost first,
/// each with its own nullability, and the nullability of the innermost value.
pub struct Wrapping {
    pub list_nullable: Vec<bool>,
    pub inner_nullable: bool,
}

/// A field is a scalar or carries a nested selection set, referenced by its
/// index in the table.
#[derive(Clone, Copy, PartialEq, Eq, Structural, Debug)]
pub enum FieldType {
    Scalar(DataType),
    Selection(usize),
}

/// One collected field of a selection set.
pub struct CollectedField {
    /// The response edge under which the value is recorded.
    pub edge: ResponseEdge,
    /// The key under which the upstream response carries the value.
    pub expected_key: String,
    pub wrapping: Wrapping,
    pub ty: FieldType,
    /// Source location of the field in the operation, for error reports.
    pub location: Option<Location>,
}

/// A collected selection set: the fields to read, the plan boundaries fed by
/// every object written from this set, and the schema object type.
pub struct CollectedSelectionSet {
    pub fields: Vec<CollectedField>,
    /// Boundary slots (indices local to the writing part) that receive a
    /// reference to each object written from this selection set.
    pub boundary_ids: Vec<usize>,
    pub definition_id: usize,
}

/// The table of collected selection sets of one plan; `Selection(i)` fields
/// index into it.
pub struct CollectedShapes {
    pub sets: Vec<CollectedSelectionSet>,
}

// ---------------------------------------------------------------------------
// Models.
// ---------------------------------------------------------------------------

#[verifier::ext_equal]
pub struct WrapModel {
    pub layers: Seq<bool>,
    pub inner: bool,
}

pub open spec fn wrap_model(w: Wrapping) -> WrapModel {
    WrapModel { layers: w.list_nullable@, inner: w.inner_nullable }
}

/// Nullability of the position at peeling depth `k`.
pub open spec fn nullable_at(w: WrapModel, k: int) -> bool {
    if k < w.layers.len() {
        w.layers[k]
    } else {
        w.inner
    }
}

#[verifier::ext_equal]
pub struct FieldModel {
    pub edge: ResponseEdge,
    pub key: Seq<char>,
    pub wrap: WrapModel,
    pub ty: FieldType,
    pub location: Option<Location>,
}

pub open spec fn field_model(f: CollectedField) -> FieldModel {
    FieldModel {
        edge: f.edge,
        key: f.expected_key@,
        wrap: wrap_model(f.wrapping),
        ty: f.ty,
        location: f.location,
    }
}

#[verifier::ext_equal]
pub struct SetModel {
    pub fields: Seq<FieldModel>,
    pub boundary_ids: Seq<usize>,
    pub definition_id: usize,
}

pub open spec fn set_model(s: CollectedSelectionSet) -> SetModel {
    SetModel {
        fields: s.fields@.map_values(|f: CollectedField| field_model(f)),
        boundary_ids: s.boundary_ids@,
        definition_id: s.definition_id,
    }
}

pub open spec fn shapes_model(s: CollectedShapes) -> Seq<SetModel> {
    s.sets@.map_values(|x: CollectedSelectionSet| set_model(x))
}

// ---------------------------------------------------------------------------
// Response keys.
// ---------------------------------------------------------------------------

/// First key with the given name.
pub open spec fn key_index(keys: Seq<Seq<char>>, name: Seq<char>) -> Option<int>
    decreases keys.len(),
{
    if keys.len() == 0 {
        None
    } else if keys[0] == name {
        Some(0)
    } else {
        match key_index(keys.drop_first(), name) {
            Some(i) => Some(i + 1),
            None => None,
        }
    }
}

pub proof fn lemma_key_index_bounds(keys: Seq<Seq<char>>, name: Seq<char>)
    ensures
        match key_index(keys, name) {
            Some(i) => 0 <= i < keys.len() && keys[i] == name && forall|t: int|
                0 <= t < i ==> keys[t] != name,
            None => forall|t: int| 0 <= t < keys.len() ==> keys[t] != name,
        },
    decreases keys.len(),
{
    if keys.len() > 0 && keys[0] != name {
        let rest = keys.drop_first();
        lemma_key_index_bounds(rest, name);
        assert(forall|t: int| 0 <= t < rest.len() ==> rest[t] == keys[t + 1]);
        match key_index(rest, name) {
            Some(i2) => {
                assert forall|t: int| 0 <= t < i2 + 1 implies keys[t] != name by {
                    if t > 0 {
                        assert(rest[t - 1] == keys[t]);
                    }
                }
            },
            None => {
                assert forall|t: int| 0 <= t < keys.len() implies keys[t] != name by {
                    if t > 0 {
                        assert(rest[t - 1] == keys[t]);
                    }
                }
            },
        }
    }
}

pub proof fn lemma_key_index_at(keys: Seq<Seq<char>>, name: Seq<char>, i: int)
    requires
        0 <= i < keys.len(),
        keys[i] == name,
        forall|t: int| 0 <= t < i ==> keys[t] != name,
    ensures
        key_index(keys, name) == Some(i),
    decreases keys.len(),
{
    if i > 0 {
        let rest = keys.drop_first();
        assert(forall|t: int| 0 <= t < rest.len() ==> rest[t] == keys[t + 1]);
        lemma_key_index_at(rest, name, i - 1);
    }
}

/// The deduplicated response key table of an operation: every alias or field
/// name under which a value can appear in the response.
pub struct ResponseKeys {
    pub keys: Vec<String>,
}

impl ResponseKeys {
    pub open spec fn model(&self) -> Seq<Seq<char>> {
        self.keys@.map_values(|k: String| k@)
    }

    /// The id of a response key, by name.
    pub fn get(&self, name: &str) -> (r: Option<usize>)
        ensures
            match r {
                Some(i) => key_index(self.model(), name@) == Some(i as int),
                None => key_index(self.model(), name@) is None,
            },
    {
        let mut i: usize = 0;
        let n = self.keys.len();
        while i < n
            invariant
                i <= n,
                n == self.keys@.len(),
                forall|t: int| 0 <= t < i ==> self.model()[t] != name@,
            decreases n - i,
        {
            if string_eq_str(&self.keys[i], name) {
                proof {
                    lemma_key_index_at(self.model(), name@, i as int);
                }
                return Some(i);
            }
            i = i + 1;
        }
        proof {
            lemma_key_index_bounds(self.model(), name@);
        }
        None
    }
}

/// Compares a `String` with a `str` by contents.
pub fn string_eq_str(a: &String, b: &str) -> (r: bool)
    ensures
        r == (a@ == b@),
{
    let an = a.as_str().unicode_len();
    let bn = b.unicode_len();
    if an != bn {
        return false;
    }
    let mut i: usize = 0;
    while i < an
        invariant
            i <= an,
            an == a@.len(),
            an == b@.len(),
            forall|t: int| 0 <= t < i ==> a@[t] == b@[t],
        decreases an - i,
    {
        if a.as_str().get_char(i) != b.get_char(i) {
            return false;
        }
        i = i + 1;
    }
    proof {
        assert(a@ =~= b@);
    }
    true
}

} // verus!
