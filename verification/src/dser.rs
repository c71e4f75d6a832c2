//! Typed ingestion of upstream JSON into a response part. The seeds walk a
//! JSON tree against the collected shape of the plan: list layers are
//! peeled, scalars are coerced, selection sets are matched field by field,
//! unknown keys are ignored. A value that fails coercion records one error
//! (nested failures do not multiply) and fails upward until the nearest
//! nullable position catches the failure as `Null`; a failure that escapes
//! the root of the update is reported to the builder through the update
//! slot.

use vstd::prelude::*;
use crate::ResponseEdge;
use crate::error::{GraphqlError, Location};
use crate::json::JsonValue;
use crate::shape::{
    nullable_at, shapes_model, wrap_model, CollectedShapes, DataType, FieldModel, FieldType,
    SetModel, Wrapping,
};
use crate::write::{
    part_model, PartModel, RefModel, ResponseListId, ResponseObjectId, ResponsePart,
    ResponseValue,
};

verus! {

// ---------------------------------------------------------------------------
// Sizes, for termination of the walk.
// ---------------------------------------------------------------------------

pub open spec fn jsize(j: JsonValue) -> nat
    decreases j,
{
    match j {
        JsonValue::Arr(items) => 1 + jsize_arr(items@),
        JsonValue::Obj(members) => 1 + jsize_members(members@),
        _ => 1,
    }
}

pub open spec fn jsize_arr(s: Seq<JsonValue>) -> nat
    decreases s,
{
    if s.len() == 0 {
        0
    } else {
        1 + jsize(s[0]) + jsize_arr(s.drop_first())
    }
}

pub open spec fn jsize_members(s: Seq<(String, JsonValue)>) -> nat
    decreases s,
{
    if s.len() == 0 {
        0
    } else {
        1 + jsize(s[0].1) + jsize_members(s.drop_first())
    }
}

/// Each member's value is strictly smaller than the whole member list.
pub proof fn lemma_member_size(s: Seq<(String, JsonValue)>, mi: int)
    requires
        0 <= mi < s.len(),
    ensures
        jsize(s[mi].1) < jsize_members(s),
    decreases s.len(),
{
    if mi > 0 {
        lemma_member_size(s.drop_first(), mi - 1);
        assert(s.drop_first()[mi - 1] == s[mi]);
    }
}

/// Removing a member never grows the total size.
pub proof fn lemma_members_remove_size(s: Seq<(String, JsonValue)>, mi: int)
    requires
        0 <= mi < s.len(),
    ensures
        jsize_members(s.remove(mi)) <= jsize_members(s),
    decreases s.len(),
{
    if mi == 0 {
        assert(s.remove(0) =~= s.drop_first());
    } else {
        lemma_members_remove_size(s.drop_first(), mi - 1);
        assert(s.remove(mi).drop_first() =~= s.drop_first().remove(mi - 1));
        assert(s.remove(mi)[0] == s[0]);
        assert(jsize_members(s.remove(mi)) == 1 + jsize(s[0].1) + jsize_members(
            s.drop_first().remove(mi - 1),
        ));
    }
}

// ---------------------------------------------------------------------------
// The seed context and the model of the seed state.
// ---------------------------------------------------------------------------

/// Mutable context every seed shares: the current response path and the flag
/// that keeps nested failures from producing more than one error.
pub struct SeedContext {
    pub path: Vec<ResponseEdge>,
    pub propagating_error: bool,
}

impl SeedContext {
    pub fn new(path: Vec<ResponseEdge>) -> (r: SeedContext)
        ensures
            r.path == path,
            r.propagating_error == false,
    {
        SeedContext { path, propagating_error: false }
    }

    pub fn push_edge(&mut self, edge: ResponseEdge)
        ensures
            final(self).path@ == old(self).path@.push(edge),
            final(self).propagating_error == old(self).propagating_error,
    {
        self.path.push(edge);
    }

    pub fn pop_edge(&mut self)
        ensures
            final(self).path@ == if old(self).path@.len() > 0 {
                old(self).path@.drop_last()
            } else {
                old(self).path@
            },
            final(self).propagating_error == old(self).propagating_error,
    {
        let _ = self.path.pop();
    }

    pub fn response_path(&self) -> (r: Vec<ResponseEdge>)
        ensures
            r@ == self.path@,
    {
        let mut r: Vec<ResponseEdge> = Vec::new();
        let mut i: usize = 0;
        let n = self.path.len();
        while i < n
            invariant
                i <= n,
                n == self.path@.len(),
                r@ =~= self.path@.subrange(0, i as int),
            decreases n - i,
        {
            r.push(self.path[i]);
            i = i + 1;
        }
        proof {
            assert(self.path@.subrange(0, n as int) =~= self.path@);
        }
        r
    }

    pub fn set_response_path(&mut self, path: &Vec<ResponseEdge>)
        ensures
            final(self).path@ == path@,
            final(self).propagating_error == old(self).propagating_error,
    {
        self.path = path.clone();
    }
}

/// Model of one recorded error.
#[verifier::ext_equal]
pub struct ErrModel {
    pub message: Seq<char>,
    pub locations: Seq<Location>,
    pub path: Option<Seq<ResponseEdge>>,
    pub extensions: Seq<(Seq<char>, crate::json::Jx)>,
}

pub open spec fn err_model(e: GraphqlError) -> ErrModel {
    ErrModel {
        message: e.message@,
        locations: e.locations@,
        path: match e.path {
            Some(p) => Some(p@),
            None => None,
        },
        extensions: e.extensions@.map_values(|x: (String, JsonValue)| (x.0@, x.1@)),
    }
}

/// Model of everything a seed can touch.
#[verifier::ext_equal]
pub struct SeedState {
    pub part_id: usize,
    pub data: PartModel,
    pub boundaries: Seq<Seq<RefModel>>,
    pub errors: Seq<ErrModel>,
    pub flag: bool,
    pub path: Seq<ResponseEdge>,
}

/// The state of a part together with a given path and error flag.
pub open spec fn part_seed_state(part: ResponsePart, path: Seq<ResponseEdge>, flag: bool) -> SeedState {
    SeedState {
        part_id: part.data.id,
        data: part_model(part.data),
        boundaries: part.boundaries@.map_values(
            |b: Vec<crate::write::ResponseObjectRef>| b@.map_values(
                |r: crate::write::ResponseObjectRef| crate::write::ref_model(r),
            ),
        ),
        errors: part.errors@.map_values(|e: GraphqlError| err_model(e)),
        flag: flag,
        path: path,
    }
}

pub open spec fn seed_state(ctx: SeedContext, part: ResponsePart) -> SeedState {
    part_seed_state(part, ctx.path@, ctx.propagating_error)
}

// ---------------------------------------------------------------------------
// Error messages.
// ---------------------------------------------------------------------------

/// The missing-field message names the upstream key. The planner always
/// aliases the upstream field to the response key, so the two coincide and
/// no separate expected-key variant can arise.
pub open spec fn msg_missing_field(key: Seq<char>) -> Seq<char> {
    "Error decoding response from upstream: Missing required field named '"@ + key + "'"@
}

pub open spec fn msg_unexpected_null() -> Seq<char> {
    "Error decoding response from upstream: Unexpected null for a required field"@
}

pub open spec fn msg_expected(kind: DataType) -> Seq<char> {
    match kind {
        DataType::Str => "Error decoding response from upstream: Expected a string"@,
        DataType::Float => "Error decoding response from upstream: Expected a number"@,
        DataType::Int => "Error decoding response from upstream: Expected an integer"@,
        DataType::BigInt => "Error decoding response from upstream: Expected a big integer"@,
        DataType::Json => "Error decoding response from upstream: Expected a JSON value"@,
        DataType::Boolean => "Error decoding response from upstream: Expected a boolean"@,
    }
}

pub open spec fn msg_expected_list() -> Seq<char> {
    "Error decoding response from upstream: Expected a list"@
}

pub open spec fn msg_expected_object() -> Seq<char> {
    "Error decoding response from upstream: Expected an object"@
}

/// Recording one error: the first failure appends it and raises the flag;
/// while the flag is up, nothing more is recorded.
pub open spec fn record_error(
    st: SeedState,
    message: Seq<char>,
    path: Seq<ResponseEdge>,
    loc: Option<Location>,
) -> SeedState {
    if st.flag {
        st
    } else {
        SeedState {
            errors: st.errors.push(
                ErrModel {
                    message,
                    locations: match loc {
                        Some(l) => seq![l],
                        None => Seq::empty(),
                    },
                    path: Some(path),
                    extensions: Seq::empty(),
                },
            ),
            flag: true,
            ..st
        }
    }
}

// ---------------------------------------------------------------------------
// Integer coercion.
// ---------------------------------------------------------------------------

pub open spec fn is_dec_digit(c: char) -> bool {
    '0' <= c && c <= '9'
}

pub open spec fn all_dec_digits(s: Seq<char>) -> bool {
    forall|i: int| 0 <= i < s.len() ==> is_dec_digit(#[trigger] s[i])
}

pub open spec fn dec_value(s: Seq<char>) -> int
    decreases s.len(),
{
    if s.len() == 0 {
        0
    } else {
        dec_value(s.drop_last()) * 10 + (s.last() as int - '0' as int)
    }
}

/// An integer accepted on the wire: an optional minus, then digits, with a
/// value that fits a 64-bit signed integer.
pub open spec fn int_text_ok(s: Seq<char>) -> bool {
    if s.len() > 0 && s[0] == '-' {
        let d = s.drop_first();
        d.len() >= 1 && all_dec_digits(d) && dec_value(d) <= 0x8000_0000_0000_0000
    } else {
        s.len() >= 1 && all_dec_digits(s) && dec_value(s) <= 0x7fff_ffff_ffff_ffff
    }
}

pub open spec fn int_text_value(s: Seq<char>) -> int {
    if s.len() > 0 && s[0] == '-' {
        -dec_value(s.drop_first())
    } else {
        dec_value(s)
    }
}

/// A JSON number text that denotes an integer: no fraction, no exponent.
pub open spec fn num_is_integral(s: Seq<char>) -> bool {
    forall|i: int|
        0 <= i < s.len() ==> (#[trigger] s[i]) != '.' && s[i] != 'e' && s[i] != 'E'
}

// ---------------------------------------------------------------------------
// The ingestion walk, as a function on models.
// ---------------------------------------------------------------------------

#[verifier::ext_equal]
pub struct SeedOut {
    pub st: SeedState,
    pub value: Option<ResponseValue>,
}

#[verifier::ext_equal]
pub struct ItemsOut {
    pub st: SeedState,
    pub items: Option<Seq<ResponseValue>>,
}

#[verifier::ext_equal]
pub struct FieldsOut {
    pub st: SeedState,
    pub fields: Option<Seq<(ResponseEdge, ResponseValue)>>,
}

/// First member with the given key.
pub open spec fn find_key(s: Seq<(String, JsonValue)>, key: Seq<char>) -> Option<int>
    decreases s.len(),
{
    if s.len() == 0 {
        None
    } else if s[0].0@ == key {
        Some(0)
    } else {
        match find_key(s.drop_first(), key) {
            Some(i) => Some(i + 1),
            None => None,
        }
    }
}

pub proof fn lemma_find_key_bounds(s: Seq<(String, JsonValue)>, key: Seq<char>)
    ensures
        match find_key(s, key) {
            Some(i) => 0 <= i < s.len() && s[i].0@ == key && forall|t: int|
                0 <= t < i ==> (#[trigger] s[t]).0@ != key,
            None => forall|t: int| 0 <= t < s.len() ==> (#[trigger] s[t]).0@ != key,
        },
    decreases s.len(),
{
    if s.len() > 0 && s[0].0@ != key {
        let rest = s.drop_first();
        lemma_find_key_bounds(rest, key);
        assert(forall|t: int| 0 <= t < rest.len() ==> rest[t] == s[t + 1]);
        match find_key(rest, key) {
            Some(i2) => {
                assert forall|t: int| 0 <= t < i2 + 1 implies (#[trigger] s[t]).0@ != key by {
                    if t > 0 {
                        assert(rest[t - 1] == s[t]);
                    }
                }
            },
            None => {
                assert forall|t: int| 0 <= t < s.len() implies (#[trigger] s[t]).0@ != key by {
                    if t > 0 {
                        assert(rest[t - 1] == s[t]);
                    }
                }
            },
        }
    }
}

/// The failure catch: a nullable position absorbs a failure below it as
/// `Null`; a required one passes it on.
pub open spec fn catch(st: SeedState, nullable: bool) -> SeedOut {
    if nullable {
        SeedOut { st, value: Some(ResponseValue::Null) }
    } else {
        SeedOut { st, value: None }
    }
}

/// A coercion failure at this position: record one error, then catch.
pub open spec fn fail_here(
    st: SeedState,
    message: Seq<char>,
    loc: Option<Location>,
    nullable: bool,
) -> SeedOut {
    catch(record_error(st, message, st.path, loc), nullable)
}

/// Scalar coercion. `j` is never `Null` here.
pub open spec fn scalar_spec(
    st: SeedState,
    kind: DataType,
    loc: Option<Location>,
    nullable: bool,
    j: JsonValue,
) -> SeedOut {
    match kind {
        DataType::Str => match j {
            JsonValue::Str(s) => SeedOut { st, value: Some(ResponseValue::Str(s)) },
            _ => fail_here(st, msg_expected(kind), loc, nullable),
        },
        DataType::Boolean => match j {
            JsonValue::Bool(b) => SeedOut { st, value: Some(ResponseValue::Bool(b)) },
            _ => fail_here(st, msg_expected(kind), loc, nullable),
        },
        DataType::Float => match j {
            JsonValue::Num(t) => SeedOut { st, value: Some(ResponseValue::Float(t)) },
            _ => fail_here(st, msg_expected(kind), loc, nullable),
        },
        DataType::Int => match j {
            JsonValue::Num(t) => if num_is_integral(t@) && int_text_ok(t@) {
                SeedOut { st, value: Some(ResponseValue::Int(int_text_value(t@) as i64)) }
            } else {
                fail_here(st, msg_expected(kind), loc, nullable)
            },
            _ => fail_here(st, msg_expected(kind), loc, nullable),
        },
        DataType::BigInt => match j {
            JsonValue::Num(t) => if num_is_integral(t@) && int_text_ok(t@) {
                SeedOut { st, value: Some(ResponseValue::BigInt(int_text_value(t@) as i64)) }
            } else {
                fail_here(st, msg_expected(kind), loc, nullable)
            },
            JsonValue::Str(s) => if int_text_ok(s@) && (s@.len() == 0 || s@[0] != '-') {
                SeedOut { st, value: Some(ResponseValue::BigInt(int_text_value(s@) as i64)) }
            } else {
                fail_here(st, msg_expected(kind), loc, nullable)
            },
            _ => fail_here(st, msg_expected(kind), loc, nullable),
        },
        DataType::Json => SeedOut { st, value: Some(ResponseValue::Json(j)) },
    }
}

/// Pushing one boundary object reference into the boundary slots it feeds.
pub open spec fn push_boundaries(
    bs: Seq<Seq<RefModel>>,
    ids: Seq<usize>,
    r: RefModel,
) -> Seq<Seq<RefModel>>
    decreases ids.len(),
{
    if ids.len() == 0 {
        bs
    } else {
        let b0 = ids[0] as int;
        let bs2 = if 0 <= b0 < bs.len() {
            bs.update(b0, bs[b0].push(r))
        } else {
            bs
        };
        push_boundaries(bs2, ids.drop_first(), r)
    }
}

/// Ingesting one value at peeling depth `k` of the wrapping.
pub open spec fn ingest_value_spec(
    tables: Seq<SetModel>,
    st: SeedState,
    k: int,
    w: crate::shape::WrapModel,
    ty: FieldType,
    loc: Option<Location>,
    j: JsonValue,
) -> SeedOut
    decreases jsize(j), 0int, 0int,
{
    let nullable = nullable_at(w, k);
    match j {
        JsonValue::Null => if nullable {
            SeedOut { st, value: Some(ResponseValue::Null) }
        } else {
            fail_here(st, msg_unexpected_null(), loc, false)
        },
        _ => if k < w.layers.len() {
            match j {
                JsonValue::Arr(items) => {
                    let out = ingest_items_spec(tables, st, items@, 0, k + 1, w, ty, loc);
                    match out.items {
                        Some(vals) => {
                            let offset = out.st.data.lists.len();
                            let st2 = SeedState {
                                data: PartModel {
                                    lists: out.st.data.lists + vals,
                                    ..out.st.data
                                },
                                ..out.st
                            };
                            SeedOut {
                                st: st2,
                                value: Some(
                                    ResponseValue::List {
                                        nullable,
                                        list: ResponseListId {
                                            part_id: st.part_id,
                                            offset: offset as usize,
                                            length: vals.len() as usize,
                                        },
                                    },
                                ),
                            }
                        },
                        None => catch(out.st, nullable),
                    }
                },
                _ => fail_here(st, msg_expected_list(), loc, nullable),
            }
        } else {
            match ty {
                FieldType::Scalar(kind) => scalar_spec(st, kind, loc, nullable, j),
                FieldType::Selection(sid) => match j {
                    JsonValue::Obj(members) => if 0 <= sid < tables.len() {
                        let set = tables[sid as int];
                        let out = ingest_fields_spec(tables, st, members@, set.fields, 0);
                        match out.fields {
                            Some(fs) => {
                                let index = out.st.data.objects.len();
                                let oid = ResponseObjectId {
                                    part_id: st.part_id,
                                    index: index as usize,
                                };
                                let st2 = SeedState {
                                    data: PartModel {
                                        objects: out.st.data.objects.push(fs),
                                        ..out.st.data
                                    },
                                    boundaries: push_boundaries(
                                        out.st.boundaries,
                                        set.boundary_ids,
                                        RefModel {
                                            id: oid,
                                            path: st.path,
                                            definition_id: set.definition_id,
                                        },
                                    ),
                                    ..out.st
                                };
                                SeedOut {
                                    st: st2,
                                    value: Some(ResponseValue::Object { nullable, obj: oid }),
                                }
                            },
                            None => catch(out.st, nullable),
                        }
                    } else {
                        fail_here(st, msg_expected_object(), loc, nullable)
                    },
                    _ => fail_here(st, msg_expected_object(), loc, nullable),
                },
            }
        },
    }
}

/// Ingesting the items of a list, one at a time, at their index edges.
pub open spec fn ingest_items_spec(
    tables: Seq<SetModel>,
    st: SeedState,
    items: Seq<JsonValue>,
    ii: int,
    k: int,
    w: crate::shape::WrapModel,
    ty: FieldType,
    loc: Option<Location>,
) -> ItemsOut
    decreases jsize_arr(items), 1int, 0int,
{
    if items.len() == 0 {
        ItemsOut { st, items: Some(Seq::empty()) }
    } else {
        let st_in = SeedState { path: st.path.push(ResponseEdge::Index(ii as usize)), ..st };
        let out = ingest_value_spec(tables, st_in, k, w, ty, loc, items[0]);
        let st_back = SeedState { path: st.path, ..out.st };
        match out.value {
            None => ItemsOut { st: st_back, items: None },
            Some(v) => {
                let rest = ingest_items_spec(
                    tables,
                    st_back,
                    items.drop_first(),
                    ii + 1,
                    k,
                    w,
                    ty,
                    loc,
                );
                match rest.items {
                    Some(vs) => ItemsOut { st: rest.st, items: Some(seq![v] + vs) },
                    None => ItemsOut { st: rest.st, items: None },
                }
            },
        }
    }
}

/// Ingesting the collected fields of a selection set against the members of
/// an upstream object. Members are consumed as they match; unknown members
/// are never read. A missing required field records an error and fails the
/// object; a missing nullable field becomes `Null`.
pub open spec fn ingest_fields_spec(
    tables: Seq<SetModel>,
    st: SeedState,
    members: Seq<(String, JsonValue)>,
    fields: Seq<FieldModel>,
    fi: int,
) -> FieldsOut
    decreases jsize_members(members), 2int, fields.len() - fi,
    via ingest_fields_spec_decreases
{
    if fi < 0 || fi >= fields.len() {
        FieldsOut { st, fields: Some(Seq::empty()) }
    } else {
        let f = fields[fi];
        match find_key(members, f.key) {
            Some(mi) => {
                let v = members[mi].1;
                let st_in = SeedState { path: st.path.push(f.edge), ..st };
                let out = ingest_value_spec(tables, st_in, 0, f.wrap, f.ty, f.location, v);
                let st_back = SeedState { path: st.path, ..out.st };
                match out.value {
                    None => FieldsOut { st: st_back, fields: None },
                    Some(rv) => {
                        let rest = ingest_fields_spec(
                            tables,
                            st_back,
                            members.remove(mi),
                            fields,
                            fi + 1,
                        );
                        match rest.fields {
                            Some(fs) => FieldsOut {
                                st: rest.st,
                                fields: Some(seq![(f.edge, rv)] + fs),
                            },
                            None => FieldsOut { st: rest.st, fields: None },
                        }
                    },
                }
            },
            None => {
                if !nullable_at(f.wrap, 0) {
                    FieldsOut {
                        st: record_error(
                            st,
                            msg_missing_field(f.key),
                            st.path.push(f.edge),
                            f.location,
                        ),
                        fields: None,
                    }
                } else {
                    let rest = ingest_fields_spec(tables, st, members, fields, fi + 1);
                    match rest.fields {
                        Some(fs) => FieldsOut {
                            st: rest.st,
                            fields: Some(seq![(f.edge, ResponseValue::Null)] + fs),
                        },
                        None => FieldsOut { st: rest.st, fields: None },
                    }
                }
            },
        }
    }
}

#[via_fn]
proof fn ingest_fields_spec_decreases(
    tables: Seq<SetModel>,
    st: SeedState,
    members: Seq<(String, JsonValue)>,
    fields: Seq<FieldModel>,
    fi: int,
) {
    if 0 <= fi < fields.len() {
        let f = fields[fi];
        match find_key(members, f.key) {
            Some(mi) => {
                lemma_find_key_bounds(members, f.key);
                lemma_member_size(members, mi);
                lemma_members_remove_size(members, mi);
            },
            None => {},
        }
    }
}

pub proof fn lemma_find_key_at(s: Seq<(String, JsonValue)>, key: Seq<char>, i: int)
    requires
        0 <= i < s.len(),
        s[i].0@ == key,
        forall|t: int| 0 <= t < i ==> (#[trigger] s[t]).0@ != key,
    ensures
        find_key(s, key) == Some(i),
    decreases s.len(),
{
    if i > 0 {
        assert(s[0].0@ != key);
        let rest = s.drop_first();
        assert(forall|t: int| 0 <= t < rest.len() ==> rest[t] == s[t + 1]);
        lemma_find_key_at(rest, key, i - 1);
    }
}

/// The walk leaves the response path and the part id where it found them.
pub proof fn lemma_value_spec_frame(
    tables: Seq<SetModel>,
    st: SeedState,
    k: int,
    w: crate::shape::WrapModel,
    ty: FieldType,
    loc: Option<Location>,
    j: JsonValue,
)
    ensures
        ingest_value_spec(tables, st, k, w, ty, loc, j).st.path == st.path,
        ingest_value_spec(tables, st, k, w, ty, loc, j).st.part_id == st.part_id,
    decreases jsize(j), 0int, 1int,
{
    match j {
        JsonValue::Null => {},
        _ => if k < w.layers.len() {
            match j {
                JsonValue::Arr(items) => {
                    lemma_items_spec_frame(tables, st, items@, 0, k + 1, w, ty, loc);
                },
                _ => {},
            }
        } else {
            match ty {
                FieldType::Scalar(_) => {},
                FieldType::Selection(sid) => match j {
                    JsonValue::Obj(members) => if 0 <= sid < tables.len() {
                        lemma_fields_spec_frame(
                            tables,
                            st,
                            members@,
                            tables[sid as int].fields,
                            0,
                        );
                    } else {
                    },
                    _ => {},
                },
            }
        },
    }
}

pub proof fn lemma_items_spec_frame(
    tables: Seq<SetModel>,
    st: SeedState,
    items: Seq<JsonValue>,
    ii: int,
    k: int,
    w: crate::shape::WrapModel,
    ty: FieldType,
    loc: Option<Location>,
)
    ensures
        ingest_items_spec(tables, st, items, ii, k, w, ty, loc).st.path == st.path,
        ingest_items_spec(tables, st, items, ii, k, w, ty, loc).st.part_id == st.part_id,
    decreases jsize_arr(items), 1int, 1int,
{
    if items.len() > 0 {
        let st_in = SeedState { path: st.path.push(ResponseEdge::Index(ii as usize)), ..st };
        let out = ingest_value_spec(tables, st_in, k, w, ty, loc, items[0]);
        lemma_value_spec_frame(tables, st_in, k, w, ty, loc, items[0]);
        let st_back = SeedState { path: st.path, ..out.st };
        match out.value {
            None => {},
            Some(_) => {
                lemma_items_spec_frame(tables, st_back, items.drop_first(), ii + 1, k, w, ty, loc);
            },
        }
    }
}

pub proof fn lemma_fields_spec_frame(
    tables: Seq<SetModel>,
    st: SeedState,
    members: Seq<(String, JsonValue)>,
    fields: Seq<FieldModel>,
    fi: int,
)
    ensures
        ingest_fields_spec(tables, st, members, fields, fi).st.path == st.path,
        ingest_fields_spec(tables, st, members, fields, fi).st.part_id == st.part_id,
    decreases jsize_members(members), 2int, fields.len() - fi, 1int,
{
    if 0 <= fi < fields.len() {
        let f = fields[fi];
        match find_key(members, f.key) {
            Some(mi) => {
                lemma_find_key_bounds(members, f.key);
                lemma_member_size(members, mi);
                lemma_members_remove_size(members, mi);
                let v = members[mi].1;
                let st_in = SeedState { path: st.path.push(f.edge), ..st };
                let out = ingest_value_spec(tables, st_in, 0, f.wrap, f.ty, f.location, v);
                lemma_value_spec_frame(tables, st_in, 0, f.wrap, f.ty, f.location, v);
                let st_back = SeedState { path: st.path, ..out.st };
                match out.value {
                    None => {},
                    Some(_) => {
                        lemma_fields_spec_frame(tables, st_back, members.remove(mi), fields, fi + 1);
                    },
                }
            },
            None => {
                if nullable_at(f.wrap, 0) {
                    lemma_fields_spec_frame(tables, st, members, fields, fi + 1);
                }
            },
        }
    }
}

/// Each item is strictly smaller than the whole list.
pub proof fn lemma_item_size(s: Seq<JsonValue>, i: int)
    requires
        0 <= i < s.len(),
    ensures
        jsize(s[i]) < jsize_arr(s),
    decreases s.len(),
{
    if i > 0 {
        lemma_item_size(s.drop_first(), i - 1);
        assert(s.drop_first()[i - 1] == s[i]);
    }
}

/// A digit string only grows as digits are appended.
pub proof fn lemma_dec_value_monotone(s: Seq<char>, k: int)
    requires
        all_dec_digits(s),
        0 <= k <= s.len(),
    ensures
        dec_value(s) >= dec_value(s.subrange(0, k)),
        dec_value(s) >= 0,
    decreases s.len() - k,
{
    if k < s.len() {
        lemma_dec_value_monotone(s, k + 1);
        let a = s.subrange(0, k);
        let b = s.subrange(0, k + 1);
        assert(b.drop_last() =~= a);
        assert(is_dec_digit(b.last()));
        lemma_dec_value_nonneg(a);
    } else {
        assert(s.subrange(0, s.len() as int) =~= s);
        lemma_dec_value_nonneg(s);
    }
}

pub proof fn lemma_dec_value_nonneg(s: Seq<char>)
    requires
        all_dec_digits(s),
    ensures
        dec_value(s) >= 0,
    decreases s.len(),
{
    if s.len() > 0 {
        assert(all_dec_digits(s.drop_last())) by {
            assert(forall|i: int| 0 <= i < s.len() - 1 ==> s.drop_last()[i] == s[i]);
        }
        lemma_dec_value_nonneg(s.drop_last());
        assert(is_dec_digit(s.last()));
    }
}

/// Reads a decimal integer in the 64-bit signed range, with an optional
/// leading minus.
pub fn parse_int_text(t: &str) -> (r: Option<i64>)
    ensures
        match r {
            Some(v) => int_text_ok(t@) && v as int == int_text_value(t@),
            None => !int_text_ok(t@),
        },
{
    let n = t.unicode_len();
    let neg = n > 0 && t.get_char(0) == '-';
    let start: usize = if neg {
        1
    } else {
        0
    };
    let ghost digits = if neg {
        t@.drop_first()
    } else {
        t@
    };
    proof {
        assert(forall|i: int| 0 <= i < digits.len() ==> digits[i] == t@[i + start]);
    }
    if n - start < 1 {
        return None;
    }
    let limit: u64 = if neg {
        9223372036854775808u64
    } else {
        9223372036854775807u64
    };
    let mut acc: u64 = 0;
    let mut i: usize = start;
    while i < n
        invariant
            start <= i <= n,
            n == t@.len(),
            start == if neg {
                1int
            } else {
                0int
            },
            digits == if neg {
                t@.drop_first()
            } else {
                t@
            },
            digits.len() == n - start,
            1 <= n - start,
            neg == (t@[0] == '-'),
            limit == if neg {
                9223372036854775808u64
            } else {
                9223372036854775807u64
            },
            forall|k: int| 0 <= k < digits.len() ==> digits[k] == t@[k + start],
            all_dec_digits(digits.subrange(0, i - start)),
            acc as int == dec_value(digits.subrange(0, i - start)),
            acc <= limit,
        decreases n - i,
    {
        let c = t.get_char(i);
        if !('0' <= c && c <= '9') {
            proof {
                assert(digits[i - start] == c);
                assert(!all_dec_digits(digits));
            }
            return None;
        }
        let d = (c as u32 - '0' as u32) as u64;
        proof {
            let pre = digits.subrange(0, i - start);
            let cur = digits.subrange(0, i + 1 - start);
            assert(cur.drop_last() =~= pre);
            assert(cur.last() == c);
            assert(all_dec_digits(cur)) by {
                assert(forall|k: int| 0 <= k < pre.len() ==> cur[k] == pre[k]);
            }
        }
        if acc > (limit - d) / 10 {
            // The value already exceeds the representable range.
            proof {
                let cur = digits.subrange(0, i + 1 - start);
                vstd::arithmetic::div_mod::lemma_fundamental_div_mod((limit - d) as int, 10);
                assert(acc as int * 10 + d as int > limit as int) by {
                    let q = (limit - d) as int / 10;
                    assert((limit - d) as int == 10 * q + (limit - d) as int % 10);
                    assert(acc as int >= q + 1);
                    assert(acc as int * 10 >= (q + 1) * 10) by (nonlinear_arith)
                        requires
                            acc as int >= q + 1,
                    ;
                }
                if all_dec_digits(digits) {
                    lemma_dec_value_monotone(digits, i + 1 - start);
                    assert(dec_value(digits) >= dec_value(cur));
                    assert(dec_value(cur) > limit as int);
                    assert(!int_text_ok(t@));
                } else {
                    assert(!int_text_ok(t@));
                }
            }
            return None;
        }
        proof {
            vstd::arithmetic::div_mod::lemma_fundamental_div_mod((limit - d) as int, 10);
            let q = (limit - d) as int / 10;
            assert((limit - d) as int == 10 * q + (limit - d) as int % 10);
            assert(acc as int * 10 <= q * 10) by (nonlinear_arith)
                requires
                    acc as int <= q,
            ;
        }
        acc = acc * 10 + d;
        i = i + 1;
    }
    proof {
        assert(digits.subrange(0, n - start) =~= digits);
    }
    if neg {
        if acc == 9223372036854775808u64 {
            Some(i64::MIN)
        } else {
            Some(-(acc as i64))
        }
    } else {
        Some(acc as i64)
    }
}

/// A number text is an integer when it has no fraction and no exponent.
pub fn num_text_is_integral(t: &str) -> (r: bool)
    ensures
        r == num_is_integral(t@),
{
    let n = t.unicode_len();
    let mut i: usize = 0;
    while i < n
        invariant
            i <= n,
            n == t@.len(),
            forall|k: int|
                0 <= k < i ==> (#[trigger] t@[k]) != '.' && t@[k] != 'e' && t@[k] != 'E',
        decreases n - i,
    {
        let c = t.get_char(i);
        if c == '.' || c == 'e' || c == 'E' {
            return false;
        }
        i = i + 1;
    }
    true
}

/// First member carrying the key, executable.
pub fn find_key_exec(members: &Vec<(String, JsonValue)>, key: &String) -> (r: Option<usize>)
    ensures
        match r {
            Some(mi) => find_key(members@, key@) == Some(mi as int),
            None => find_key(members@, key@) is None,
        },
{
    let mut i: usize = 0;
    let n = members.len();
    while i < n
        invariant
            i <= n,
            n == members@.len(),
            forall|t: int| 0 <= t < i ==> (#[trigger] members@[t]).0@ != key@,
        decreases n - i,
    {
        if members[i].0 == *key {
            proof {
                lemma_find_key_at(members@, key@, i as int);
            }
            return Some(i);
        }
        i = i + 1;
    }
    proof {
        lemma_find_key_bounds(members@, key@);
    }
    None
}

impl ResponsePart {
    /// Appends an error to this part's error list.
    pub fn push_error(&mut self, error: GraphqlError)
        ensures
            final(self).errors@ == old(self).errors@.push(error),
            final(self).data == old(self).data,
            final(self).root_response_objects == old(self).root_response_objects,
            final(self).updates == old(self).updates,
            final(self).error_paths_to_propagate == old(self).error_paths_to_propagate,
            final(self).boundary_ids_start == old(self).boundary_ids_start,
            final(self).boundaries == old(self).boundaries,
    {
        self.errors.push(error);
    }

    /// Records a boundary object reference in the given local boundary slot;
    /// a slot out of range is ignored.
    pub fn push_boundary_ref(&mut self, b: usize, r: crate::write::ResponseObjectRef)
        ensures
            final(self).boundaries@.map_values(
                |bv: Vec<crate::write::ResponseObjectRef>| bv@.map_values(
                    |x: crate::write::ResponseObjectRef| crate::write::ref_model(x),
                ),
            ) =~~= {
                let bs = old(self).boundaries@.map_values(
                    |bv: Vec<crate::write::ResponseObjectRef>| bv@.map_values(
                        |x: crate::write::ResponseObjectRef| crate::write::ref_model(x),
                    ),
                );
                if b < bs.len() {
                    bs.update(b as int, bs[b as int].push(crate::write::ref_model(r)))
                } else {
                    bs
                }
            },
            final(self).data == old(self).data,
            final(self).errors == old(self).errors,
            final(self).root_response_objects == old(self).root_response_objects,
            final(self).updates == old(self).updates,
            final(self).error_paths_to_propagate == old(self).error_paths_to_propagate,
            final(self).boundary_ids_start == old(self).boundary_ids_start,
    {
        if b < self.boundaries.len() {
            let mut bv = self.boundaries.remove(b);
            bv.push(r);
            self.boundaries.insert(b, bv);
            proof {
                assert(self.boundaries@ =~= old(self).boundaries@.update(
                    b as int,
                    self.boundaries@[b as int],
                ));
                assert(self.boundaries@[b as int]@ == old(self).boundaries@[b as int]@.push(r));
            }
        }
    }
}

/// Records a coercion failure: one error while the flag is down, then the
/// flag goes up so surrounding failures stay silent.
fn fail_exec(
    ctx: &mut SeedContext,
    part: &mut ResponsePart,
    msg: &'static str,
    loc: Option<Location>,
) 
    ensures
        seed_state(*final(ctx), *final(part)) == record_error(
            seed_state(*old(ctx), *old(part)),
            msg@,
            old(ctx).path@,
            loc,
        ),
        final(part).data == old(part).data,
        final(part).root_response_objects == old(part).root_response_objects,
        final(part).updates == old(part).updates,
        final(part).error_paths_to_propagate == old(part).error_paths_to_propagate,
        final(part).boundary_ids_start == old(part).boundary_ids_start,
        final(part).boundaries == old(part).boundaries,
        final(ctx).path == old(ctx).path,
{
    if !ctx.propagating_error {
        let locations = match loc {
            Some(l) => {
                let mut v: Vec<Location> = Vec::new();
                v.push(l);
                v
            },
            None => Vec::new(),
        };
        let error = GraphqlError {
            message: msg.to_owned(),
            locations,
            path: Some(ctx.response_path()),
            extensions: Vec::new(),
        };
        let ghost em = err_model(error);
        let ghost pre_errors = part.errors@;
        part.push_error(error);
        ctx.propagating_error = true;
        proof {
            assert(em.message == msg@);
            assert(em.locations =~= match loc {
                Some(l) => seq![l],
                None => Seq::<Location>::empty(),
            });
            assert(em.path == Some(old(ctx).path@));
            assert(em.extensions =~= Seq::<(Seq<char>, crate::json::Jx)>::empty());
            assert(em =~~= ErrModel {
                message: msg@,
                locations: match loc {
                    Some(l) => seq![l],
                    None => Seq::empty(),
                },
                path: Some(old(ctx).path@),
                extensions: Seq::empty(),
            });
            assert(part.errors@ == pre_errors.push(error));
            assert forall|t: int| #![trigger part.errors@[t]] 0 <= t < part.errors@.len() implies part.errors@.map_values(
                |e: GraphqlError| err_model(e),
            )[t] == pre_errors.map_values(|e: GraphqlError| err_model(e)).push(em)[t] by {
                if t < pre_errors.len() {
                    assert(part.errors@[t] == pre_errors[t]);
                }
            }
            assert(seed_state(*ctx, *part).errors =~= record_error(
                seed_state(*old(ctx), *old(part)),
                msg@,
                old(ctx).path@,
                loc,
            ).errors);
            assert(seed_state(*ctx, *part) =~~= record_error(
                seed_state(*old(ctx), *old(part)),
                msg@,
                old(ctx).path@,
                loc,
            ));
        }
    } else {
        proof {
            assert(seed_state(*ctx, *part) =~~= record_error(
                seed_state(*old(ctx), *old(part)),
                msg@,
                old(ctx).path@,
                loc,
            ));
        }
    }
}

/// Ingests one JSON value at peeling depth `k` of the wrapping, writing into
/// the part. Returns the response value, or `None` when a failure escapes a
/// required position.
#[verifier::loop_isolation(false)]
pub fn ingest_value(
    shapes: &CollectedShapes,
    ctx: &mut SeedContext,
    part: &mut ResponsePart,
    k: usize,
    w: &Wrapping,
    ty: FieldType,
    loc: Option<Location>,
    j: JsonValue,
) -> (r: Option<ResponseValue>)
    ensures
        ({
            let out = ingest_value_spec(
                shapes_model(*shapes),
                seed_state(*old(ctx), *old(part)),
                k as int,
                wrap_model(*w),
                ty,
                loc,
                j,
            );
            seed_state(*final(ctx), *final(part)) == out.st && r == out.value
        }),
        final(part).data.id == old(part).data.id,
        final(part).root_response_objects == old(part).root_response_objects,
        final(part).updates == old(part).updates,
        final(part).error_paths_to_propagate == old(part).error_paths_to_propagate,
        final(part).boundary_ids_start == old(part).boundary_ids_start,
    decreases jsize(j), 0int, 0int,
{
    let ghost tbl = shapes_model(*shapes);
    let ghost st0 = seed_state(*ctx, *part);
    let ghost j0 = j;
    let ghost out_spec = ingest_value_spec(tbl, st0, k as int, wrap_model(*w), ty, loc, j0);
    let nullable = if k < w.list_nullable.len() {
        w.list_nullable[k]
    } else {
        w.inner_nullable
    };
    proof {
        assert(nullable == nullable_at(wrap_model(*w), k as int));
    }
    let is_null = match &j {
        JsonValue::Null => true,
        _ => false,
    };
    if is_null {
        if nullable {
            return Some(ResponseValue::Null);
        } else {
            fail_exec(
                ctx,
                part,
                "Error decoding response from upstream: Unexpected null for a required field",
                loc,
            );
            return None;
        }
    }
    if k < w.list_nullable.len() {
        match j {
            JsonValue::Arr(items) => {
                let mut items = items;
                let ghost items0 = items@;
                let ghost full = ingest_items_spec(
                    tbl,
                    st0,
                    items0,
                    0,
                    k as int + 1,
                    wrap_model(*w),
                    ty,
                    loc,
                );
                proof {
                    assert(jsize_arr(items0) < jsize(j0));
                }
                let _layers = w.list_nullable.len();
                let n0 = items.len();
                let mut vals: Vec<ResponseValue> = Vec::new();
                let mut failed = false;
                let mut ii: usize = 0;
                while !failed && items.len() > 0
                    invariant
                        tbl == shapes_model(*shapes),
                        st0.part_id == old(part).data.id,
                        part.data.id == old(part).data.id,
                        part.root_response_objects == old(part).root_response_objects,
                        part.updates == old(part).updates,
                        part.error_paths_to_propagate == old(part).error_paths_to_propagate,
                        part.boundary_ids_start == old(part).boundary_ids_start,
                        full == ingest_items_spec(
                            tbl,
                            st0,
                            items0,
                            0,
                            k as int + 1,
                            wrap_model(*w),
                            ty,
                            loc,
                        ),
                        k < w.list_nullable@.len(),
                        k < usize::MAX,
                        jsize_arr(items0) < jsize(j0),
                        items0.len() == n0,
                        ii + items@.len() == items0.len(),
                        items@ =~= items0.subrange(ii as int, items0.len() as int),
                        failed ==> seed_state(*ctx, *part) == full.st && full.items is None,
                        !failed ==> ctx.path@ == st0.path && ({
                            let rem = ingest_items_spec(
                                tbl,
                                seed_state(*ctx, *part),
                                items@,
                                ii as int,
                                k as int + 1,
                                wrap_model(*w),
                                ty,
                                loc,
                            );
                            full.st == rem.st && full.items == (match rem.items {
                                Some(vs) => Some(vals@ + vs),
                                None => None,
                            })
                        }),
                    decreases items@.len(),
                {
                    let ghost pre_items = items@;
                    let ghost pre_st = seed_state(*ctx, *part);
                    let item = items.remove(0);
                    proof {
                        assert(pre_items[0] == items0[ii as int]);
                        lemma_item_size(items0, ii as int);
                        assert(jsize(item) < jsize(j0));
                    }
                    ctx.push_edge(ResponseEdge::Index(ii));
                    let ghost st_in = seed_state(*ctx, *part);
                    proof {
                        assert(st_in =~~= SeedState {
                            path: pre_st.path.push(ResponseEdge::Index(ii)),
                            ..pre_st
                        });
                    }
                    let rv = ingest_value(shapes, ctx, part, k + 1, w, ty, loc, item);
                    let ghost sub_out = ingest_value_spec(
                        tbl,
                        st_in,
                        k as int + 1,
                        wrap_model(*w),
                        ty,
                        loc,
                        item,
                    );
                    proof {
                        lemma_value_spec_frame(
                            tbl,
                            st_in,
                            k as int + 1,
                            wrap_model(*w),
                            ty,
                            loc,
                            item,
                        );
                        assert(seed_state(*ctx, *part) == sub_out.st);
                        assert(ctx.path@ == st_in.path);
                    }
                    ctx.pop_edge();
                    proof {
                        assert(ctx.path@ =~= pre_st.path);
                        assert(seed_state(*ctx, *part) =~~= SeedState {
                            path: pre_st.path,
                            ..sub_out.st
                        });
                    }
                    match rv {
                        Some(v) => {
                            vals.push(v);
                        },
                        None => {
                            failed = true;
                        },
                    }
                    proof {
                        let rem_pre = ingest_items_spec(
                            tbl,
                            pre_st,
                            pre_items,
                            ii as int,
                            k as int + 1,
                            wrap_model(*w),
                            ty,
                            loc,
                        );
                        assert(pre_items.len() > 0);
                        assert(pre_items.drop_first() =~= items@);
                        if rv is Some {
                            let rem_now = ingest_items_spec(
                                tbl,
                                seed_state(*ctx, *part),
                                items@,
                                ii as int + 1,
                                k as int + 1,
                                wrap_model(*w),
                                ty,
                                loc,
                            );
                            assert(rem_pre.st == rem_now.st);
                        }
                    }
                    ii = ii + 1;
                }
                if failed {
                    proof {
                        assert(out_spec.st == full.st);
                        assert(out_spec.value == (if nullable {
                            Some(ResponseValue::Null)
                        } else {
                            None::<ResponseValue>
                        }));
                    }
                    if nullable {
                        return Some(ResponseValue::Null);
                    } else {
                        return None;
                    }
                }
                proof {
                    let rem = ingest_items_spec(
                        tbl,
                        seed_state(*ctx, *part),
                        items@,
                        ii as int,
                        k as int + 1,
                        wrap_model(*w),
                        ty,
                        loc,
                    );
                    assert(items@.len() == 0);
                    assert(rem.items == Some(Seq::<ResponseValue>::empty()));
                    assert(full.st == seed_state(*ctx, *part));
                    assert(full.items == Some(vals@ + Seq::<ResponseValue>::empty()));
                    assert(vals@ + Seq::<ResponseValue>::empty() =~= vals@);
                }
                let length = vals.len();
                let ghost pre = seed_state(*ctx, *part);
                let offset = part.data.push_list(vals);
                let part_id = part.data.id;
                proof {
                    assert(seed_state(*ctx, *part) =~~= SeedState {
                        data: PartModel { lists: pre.data.lists + full.items.unwrap(), ..pre.data },
                        ..pre
                    });
                    assert(seed_state(*ctx, *part) == out_spec.st);
                }
                return Some(
                    ResponseValue::List {
                        nullable,
                        list: ResponseListId { part_id, offset, length },
                    },
                );
            },
            _ => {
                fail_exec(
                    ctx,
                    part,
                    "Error decoding response from upstream: Expected a list",
                    loc,
                );
                if nullable {
                    return Some(ResponseValue::Null);
                } else {
                    return None;
                }
            },
        }
    }
    match ty {
        FieldType::Scalar(kind) => {
            match kind {
                DataType::Str => match j {
                    JsonValue::Str(sv) => Some(ResponseValue::Str(sv)),
                    _ => {
                        fail_exec(
                            ctx,
                            part,
                            "Error decoding response from upstream: Expected a string",
                            loc,
                        );
                        if nullable {
                            Some(ResponseValue::Null)
                        } else {
                            None
                        }
                    },
                },
                DataType::Boolean => match j {
                    JsonValue::Bool(b) => Some(ResponseValue::Bool(b)),
                    _ => {
                        fail_exec(
                            ctx,
                            part,
                            "Error decoding response from upstream: Expected a boolean",
                            loc,
                        );
                        if nullable {
                            Some(ResponseValue::Null)
                        } else {
                            None
                        }
                    },
                },
                DataType::Float => match j {
                    JsonValue::Num(tv) => Some(ResponseValue::Float(tv)),
                    _ => {
                        fail_exec(
                            ctx,
                            part,
                            "Error decoding response from upstream: Expected a number",
                            loc,
                        );
                        if nullable {
                            Some(ResponseValue::Null)
                        } else {
                            None
                        }
                    },
                },
                DataType::Int => match j {
                    JsonValue::Num(tv) => {
                        if num_text_is_integral(tv.as_str()) {
                            match parse_int_text(tv.as_str()) {
                                Some(v) => Some(ResponseValue::Int(v)),
                                None => {
                                    fail_exec(
                                        ctx,
                                        part,
                                        "Error decoding response from upstream: Expected an integer",
                                        loc,
                                    );
                                    if nullable {
                                        Some(ResponseValue::Null)
                                    } else {
                                        None
                                    }
                                },
                            }
                        } else {
                            fail_exec(
                                ctx,
                                part,
                                "Error decoding response from upstream: Expected an integer",
                                loc,
                            );
                            if nullable {
                                Some(ResponseValue::Null)
                            } else {
                                None
                            }
                        }
                    },
                    _ => {
                        fail_exec(
                            ctx,
                            part,
                            "Error decoding response from upstream: Expected an integer",
                            loc,
                        );
                        if nullable {
                            Some(ResponseValue::Null)
                        } else {
                            None
                        }
                    },
                },
                DataType::BigInt => match j {
                    JsonValue::Num(tv) => {
                        if num_text_is_integral(tv.as_str()) {
                            match parse_int_text(tv.as_str()) {
                                Some(v) => Some(ResponseValue::BigInt(v)),
                                None => {
                                    fail_exec(
                                        ctx,
                                        part,
                                        "Error decoding response from upstream: Expected a big integer",
                                        loc,
                                    );
                                    if nullable {
                                        Some(ResponseValue::Null)
                                    } else {
                                        None
                                    }
                                },
                            }
                        } else {
                            fail_exec(
                                ctx,
                                part,
                                "Error decoding response from upstream: Expected a big integer",
                                loc,
                            );
                            if nullable {
                                Some(ResponseValue::Null)
                            } else {
                                None
                            }
                        }
                    },
                    JsonValue::Str(sv) => {
                        let starts_minus = sv.unicode_len() > 0 && sv.as_str().get_char(0) == '-';
                        if starts_minus {
                            fail_exec(
                                ctx,
                                part,
                                "Error decoding response from upstream: Expected a big integer",
                                loc,
                            );
                            if nullable {
                                Some(ResponseValue::Null)
                            } else {
                                None
                            }
                        } else {
                            match parse_int_text(sv.as_str()) {
                                Some(v) => Some(ResponseValue::BigInt(v)),
                                None => {
                                    fail_exec(
                                        ctx,
                                        part,
                                        "Error decoding response from upstream: Expected a big integer",
                                        loc,
                                    );
                                    if nullable {
                                        Some(ResponseValue::Null)
                                    } else {
                                        None
                                    }
                                },
                            }
                        }
                    },
                    _ => {
                        fail_exec(
                            ctx,
                            part,
                            "Error decoding response from upstream: Expected a big integer",
                            loc,
                        );
                        if nullable {
                            Some(ResponseValue::Null)
                        } else {
                            None
                        }
                    },
                },
                DataType::Json => Some(ResponseValue::Json(j)),
            }
        },
        FieldType::Selection(sid) => {
            match j {
                JsonValue::Obj(members) => {
                    if sid < shapes.sets.len() {
                        ingest_selection(shapes, ctx, part, sid, nullable, members)
                    } else {
                        fail_exec(
                            ctx,
                            part,
                            "Error decoding response from upstream: Expected an object",
                            loc,
                        );
                        if nullable {
                            Some(ResponseValue::Null)
                        } else {
                            None
                        }
                    }
                },
                _ => {
                    fail_exec(
                        ctx,
                        part,
                        "Error decoding response from upstream: Expected an object",
                        loc,
                    );
                    if nullable {
                        Some(ResponseValue::Null)
                    } else {
                        None
                    }
                },
            }
        },
    }
}

/// Walks the collected fields of selection set `sid` against the members of
/// an upstream object, producing the field list of one response object.
#[verifier::loop_isolation(false)]
pub fn ingest_fields(
    shapes: &CollectedShapes,
    ctx: &mut SeedContext,
    part: &mut ResponsePart,
    sid: usize,
    members: Vec<(String, JsonValue)>,
) -> (r: Option<Vec<(ResponseEdge, ResponseValue)>>)
    requires
        sid < shapes.sets@.len(),
    ensures
        ({
            let st = seed_state(*old(ctx), *old(part));
            let tbl = shapes_model(*shapes);
            let set = tbl[sid as int];
            let out = ingest_fields_spec(tbl, st, members@, set.fields, 0);
            seed_state(*final(ctx), *final(part)) == out.st && (match out.fields {
                Some(fs) => match r {
                    Some(v) => v@ == fs,
                    None => false,
                },
                None => r is None,
            })
        }),
        final(part).data.id == old(part).data.id,
        final(part).root_response_objects == old(part).root_response_objects,
        final(part).updates == old(part).updates,
        final(part).error_paths_to_propagate == old(part).error_paths_to_propagate,
        final(part).boundary_ids_start == old(part).boundary_ids_start,
    decreases jsize_members(members@), 2int, 0int,
{
    let ghost tbl = shapes_model(*shapes);
    let ghost st0 = seed_state(*ctx, *part);
    let ghost set_m = tbl[sid as int];
    let ghost members0 = members@;
    let ghost full = ingest_fields_spec(tbl, st0, members0, set_m.fields, 0);
    proof {
        assert(set_m.fields == shapes.sets@[sid as int].fields@.map_values(
            |f: crate::shape::CollectedField| crate::shape::field_model(f),
        ));
    }
    let mut members = members;
    let mut facc: Vec<(ResponseEdge, ResponseValue)> = Vec::new();
    let mut failed = false;
    let nf = shapes.sets[sid].fields.len();
    let mut fi: usize = 0;
    while !failed && fi < nf
        invariant
            tbl == shapes_model(*shapes),
            sid < shapes.sets@.len(),
            set_m == tbl[sid as int],
            nf == set_m.fields.len(),
            fi <= nf,
            st0.part_id == old(part).data.id,
            part.data.id == old(part).data.id,
            part.root_response_objects == old(part).root_response_objects,
            part.updates == old(part).updates,
            part.error_paths_to_propagate == old(part).error_paths_to_propagate,
            part.boundary_ids_start == old(part).boundary_ids_start,
            full == ingest_fields_spec(tbl, st0, members0, set_m.fields, 0),
            jsize_members(members@) <= jsize_members(members0),
            failed ==> seed_state(*ctx, *part) == full.st && full.fields is None,
            !failed ==> ctx.path@ == st0.path && ({
                let rem = ingest_fields_spec(
                    tbl,
                    seed_state(*ctx, *part),
                    members@,
                    set_m.fields,
                    fi as int,
                );
                full.st == rem.st && full.fields == (match rem.fields {
                    Some(fs) => Some(facc@ + fs),
                    None => None,
                })
            }),
        decreases nf - fi,
    {
        let ghost pre_members = members@;
        let ghost pre_st = seed_state(*ctx, *part);
        let ghost f_m = set_m.fields[fi as int];
        proof {
            assert(f_m == crate::shape::field_model(shapes.sets@[sid as int].fields@[fi as int]));
        }
        let found = find_key_exec(&members, &shapes.sets[sid].fields[fi].expected_key);
        match found {
            Some(mi) => {
                proof {
                    lemma_find_key_bounds(pre_members, f_m.key);
                    lemma_member_size(pre_members, mi as int);
                    lemma_members_remove_size(pre_members, mi as int);
                }
                let pair = members.remove(mi);
                let v = pair.1;
                proof {
                    assert(jsize(v) < jsize_members(members0) + 1);
                }
                ctx.push_edge(shapes.sets[sid].fields[fi].edge);
                let ghost st_in = seed_state(*ctx, *part);
                proof {
                    assert(st_in =~~= SeedState { path: pre_st.path.push(f_m.edge), ..pre_st });
                }
                proof {
                    assert(jsize(v) < jsize_members(members0));
                }
                let rv = ingest_value(
                    shapes,
                    ctx,
                    part,
                    0,
                    &shapes.sets[sid].fields[fi].wrapping,
                    shapes.sets[sid].fields[fi].ty,
                    shapes.sets[sid].fields[fi].location,
                    v,
                );
                let ghost sub_out = ingest_value_spec(
                    tbl,
                    st_in,
                    0,
                    f_m.wrap,
                    f_m.ty,
                    f_m.location,
                    pre_members[mi as int].1,
                );
                proof {
                    lemma_value_spec_frame(
                        tbl,
                        st_in,
                        0,
                        f_m.wrap,
                        f_m.ty,
                        f_m.location,
                        pre_members[mi as int].1,
                    );
                    assert(seed_state(*ctx, *part) == sub_out.st);
                }
                ctx.pop_edge();
                proof {
                    assert(ctx.path@ =~= pre_st.path);
                    assert(seed_state(*ctx, *part) =~~= SeedState {
                        path: pre_st.path,
                        ..sub_out.st
                    });
                    assert(members@ =~= pre_members.remove(mi as int));
                }
                match rv {
                    Some(value) => {
                        facc.push((shapes.sets[sid].fields[fi].edge, value));
                        proof {
                            let rem_pre = ingest_fields_spec(
                                tbl,
                                pre_st,
                                pre_members,
                                set_m.fields,
                                fi as int,
                            );
                            let rem_now = ingest_fields_spec(
                                tbl,
                                seed_state(*ctx, *part),
                                members@,
                                set_m.fields,
                                fi as int + 1,
                            );
                            assert(rem_pre.st == rem_now.st);
                            match rem_now.fields {
                                Some(fs) => {
                                    assert(rem_pre.fields == Some(
                                        seq![(f_m.edge, value)] + fs,
                                    ));
                                    assert(facc@ + fs =~= (facc@.drop_last() + (seq![
                                        (f_m.edge, value),
                                    ] + fs)));
                                },
                                None => {},
                            }
                        }
                    },
                    None => {
                        failed = true;
                        proof {
                            assert(seed_state(*ctx, *part) == full.st);
                        }
                    },
                }
            },
            None => {
                let required = !(if 0 < shapes.sets[sid].fields[fi].wrapping.list_nullable.len() {
                    shapes.sets[sid].fields[fi].wrapping.list_nullable[0]
                } else {
                    shapes.sets[sid].fields[fi].wrapping.inner_nullable
                });
                proof {
                    assert(required == !nullable_at(f_m.wrap, 0));
                }
                if required {
                    ctx.push_edge(shapes.sets[sid].fields[fi].edge);
                    let missing_path = ctx.response_path();
                    ctx.pop_edge();
                    proof {
                        assert(missing_path@ =~= pre_st.path.push(f_m.edge));
                        assert(ctx.path@ =~= pre_st.path);
                    }
                    fail_missing_exec(
                        ctx,
                        part,
                        &shapes.sets[sid].fields[fi].expected_key,
                        missing_path,
                        shapes.sets[sid].fields[fi].location,
                    );
                    failed = true;
                    proof {
                        assert(seed_state(*ctx, *part) == record_error(
                            pre_st,
                            msg_missing_field(f_m.key),
                            pre_st.path.push(f_m.edge),
                            f_m.location,
                        ));
                        assert(seed_state(*ctx, *part) == full.st);
                    }
                } else {
                    facc.push((shapes.sets[sid].fields[fi].edge, ResponseValue::Null));
                    proof {
                        let rem_pre = ingest_fields_spec(
                            tbl,
                            pre_st,
                            pre_members,
                            set_m.fields,
                            fi as int,
                        );
                        let rem_now = ingest_fields_spec(
                            tbl,
                            seed_state(*ctx, *part),
                            members@,
                            set_m.fields,
                            fi as int + 1,
                        );
                        assert(rem_pre.st == rem_now.st);
                        match rem_now.fields {
                            Some(fs) => {
                                assert(facc@ + fs =~= (facc@.drop_last() + (seq![
                                    (f_m.edge, ResponseValue::Null),
                                ] + fs)));
                            },
                            None => {},
                        }
                    }
                }
            },
        }
        fi = fi + 1;
    }
    if failed {
        return None;
    }
    proof {
        let rem = ingest_fields_spec(
            tbl,
            seed_state(*ctx, *part),
            members@,
            set_m.fields,
            fi as int,
        );
        assert(rem.fields == Some(Seq::<(ResponseEdge, ResponseValue)>::empty()));
        assert(full.st == seed_state(*ctx, *part));
        assert(full.fields == Some(facc@ + Seq::<(ResponseEdge, ResponseValue)>::empty()));
        assert(facc@ + Seq::<(ResponseEdge, ResponseValue)>::empty() =~= facc@);
    }
    return Some(facc);
}

/// Ingests the members of an upstream object against the collected selection
/// set `sid`, writes the object, and records it with the boundaries the set
/// feeds.
#[verifier::loop_isolation(false)]
fn ingest_selection(
    shapes: &CollectedShapes,
    ctx: &mut SeedContext,
    part: &mut ResponsePart,
    sid: usize,
    nullable: bool,
    members: Vec<(String, JsonValue)>,
) -> (r: Option<ResponseValue>)
    requires
        sid < shapes.sets@.len(),
    ensures
        ({
            let st = seed_state(*old(ctx), *old(part));
            let tbl = shapes_model(*shapes);
            let set = tbl[sid as int];
            let out = ingest_fields_spec(tbl, st, members@, set.fields, 0);
            match out.fields {
                Some(fs) => {
                    let index = out.st.data.objects.len();
                    let oid = ResponseObjectId { part_id: st.part_id, index: index as usize };
                    let st2 = SeedState {
                        data: PartModel { objects: out.st.data.objects.push(fs), ..out.st.data },
                        boundaries: push_boundaries(
                            out.st.boundaries,
                            set.boundary_ids,
                            RefModel { id: oid, path: st.path, definition_id: set.definition_id },
                        ),
                        ..out.st
                    };
                    seed_state(*final(ctx), *final(part)) == st2 && r == Some(
                        ResponseValue::Object { nullable, obj: oid },
                    )
                },
                None => seed_state(*final(ctx), *final(part)) == out.st && r == (if nullable {
                    Some(ResponseValue::Null)
                } else {
                    None::<ResponseValue>
                }),
            }
        }),
        final(part).data.id == old(part).data.id,
        final(part).root_response_objects == old(part).root_response_objects,
        final(part).updates == old(part).updates,
        final(part).error_paths_to_propagate == old(part).error_paths_to_propagate,
        final(part).boundary_ids_start == old(part).boundary_ids_start,
    decreases jsize_members(members@), 3int, 0int,
{
    let ghost tbl = shapes_model(*shapes);
    let ghost st0 = seed_state(*ctx, *part);
    let ghost set_m = tbl[sid as int];
    let ghost members0 = members@;
    let ghost full = ingest_fields_spec(tbl, st0, members0, set_m.fields, 0);
    let fields_r = ingest_fields(shapes, ctx, part, sid, members);
    proof {
        lemma_fields_spec_frame(tbl, st0, members0, set_m.fields, 0);
    }
    let facc = match fields_r {
        Some(v) => v,
        None => {
            if nullable {
                return Some(ResponseValue::Null);
            } else {
                return None;
            }
        },
    };
    // Write the object and feed the boundaries this selection set serves.
    let ghost pre_obj = seed_state(*ctx, *part);
    let index = part.data.push_object(crate::write::ResponseObject { fields: facc });
    let part_id = part.data.id;
    let oid = ResponseObjectId { part_id, index };
    proof {
        assert(seed_state(*ctx, *part) =~~= SeedState {
            data: PartModel {
                objects: pre_obj.data.objects.push(full.fields.unwrap()),
                ..pre_obj.data
            },
            ..pre_obj
        });
    }
    let ghost r_m = RefModel { id: oid, path: st0.path, definition_id: set_m.definition_id };
    let ghost bs0 = seed_state(*ctx, *part).boundaries;
    let ghost ids_m = set_m.boundary_ids;
    let nb = shapes.sets[sid].boundary_ids.len();
    proof {
        assert(ids_m.subrange(0, nb as int) =~= ids_m);
        assert((SeedState { boundaries: bs0, ..seed_state(*ctx, *part) }) =~~= seed_state(
            *ctx,
            *part,
        ));
        assert(set_m.boundary_ids == shapes.sets@[sid as int].boundary_ids@);
        assert(set_m.definition_id == shapes.sets@[sid as int].definition_id);
    }
    let mut bi: usize = 0;
    while bi < nb
        invariant
            tbl == shapes_model(*shapes),
            sid < shapes.sets@.len(),
            set_m == tbl[sid as int],
            nb == ids_m.len(),
            nb == shapes.sets@[sid as int].boundary_ids@.len(),
            set_m.definition_id == shapes.sets@[sid as int].definition_id,
            oid == (ResponseObjectId { part_id: old(part).data.id, index: oid.index }),
            r_m == (RefModel { id: oid, path: st0.path, definition_id: set_m.definition_id }),
            bi <= nb,
            part.data.id == old(part).data.id,
            part.root_response_objects == old(part).root_response_objects,
            part.updates == old(part).updates,
            part.error_paths_to_propagate == old(part).error_paths_to_propagate,
            part.boundary_ids_start == old(part).boundary_ids_start,
            st0.part_id == old(part).data.id,
            ctx.path@ == st0.path,
            push_boundaries(
                seed_state(*ctx, *part).boundaries,
                ids_m.subrange(bi as int, nb as int),
                r_m,
            ) == push_boundaries(bs0, ids_m, r_m),
            (SeedState { boundaries: bs0, ..seed_state(*ctx, *part) }) == (SeedState {
                data: PartModel {
                    objects: pre_obj.data.objects.push(full.fields.unwrap()),
                    ..pre_obj.data
                },
                ..pre_obj
            }),
        decreases nb - bi,
    {
        let b = shapes.sets[sid].boundary_ids[bi];
        let rp = ctx.response_path();
        let ghost pre_bs = seed_state(*ctx, *part).boundaries;
        part.push_boundary_ref(
            b,
            crate::write::ResponseObjectRef {
                id: oid,
                path: rp,
                definition_id: shapes.sets[sid].definition_id,
            },
        );
        proof {
            assert(crate::write::ref_model(
                crate::write::ResponseObjectRef {
                    id: oid,
                    path: rp,
                    definition_id: shapes.sets@[sid as int].definition_id,
                },
            ) =~~= r_m);
            assert(b == ids_m[bi as int]);
            assert(ids_m.subrange(bi as int, nb as int)[0] == ids_m[bi as int]);
            assert(ids_m.subrange(bi as int, nb as int).drop_first() =~= ids_m.subrange(
                bi as int + 1,
                nb as int,
            ));
            let cur_bs = seed_state(*ctx, *part).boundaries;
            assert(cur_bs =~~= (if (b as int) < pre_bs.len() {
                pre_bs.update(b as int, pre_bs[b as int].push(r_m))
            } else {
                pre_bs
            }));
            assert(push_boundaries(pre_bs, ids_m.subrange(bi as int, nb as int), r_m)
                == push_boundaries(cur_bs, ids_m.subrange(bi as int + 1, nb as int), r_m));
            assert((SeedState { boundaries: bs0, ..seed_state(*ctx, *part) }) =~~= (SeedState {
                data: PartModel {
                    objects: pre_obj.data.objects.push(full.fields.unwrap()),
                    ..pre_obj.data
                },
                ..pre_obj
            }));
        }
        bi = bi + 1;
    }
    proof {
        assert(ids_m.subrange(nb as int, nb as int) =~= Seq::<usize>::empty());
        assert(push_boundaries(seed_state(*ctx, *part).boundaries, Seq::<usize>::empty(), r_m)
            == seed_state(*ctx, *part).boundaries);
        assert(seed_state(*ctx, *part) =~~= SeedState {
            data: PartModel {
                objects: pre_obj.data.objects.push(full.fields.unwrap()),
                ..pre_obj.data
            },
            boundaries: push_boundaries(bs0, ids_m, r_m),
            ..pre_obj
        });
    }
    Some(ResponseValue::Object { nullable, obj: oid })
}

/// Records a missing-required-field error.
fn fail_missing_exec(
    ctx: &mut SeedContext,
    part: &mut ResponsePart,
    key: &String,
    missing_path: Vec<ResponseEdge>,
    loc: Option<Location>,
)
    ensures
        seed_state(*final(ctx), *final(part)) == record_error(
            seed_state(*old(ctx), *old(part)),
            msg_missing_field(key@),
            missing_path@,
            loc,
        ),
        final(part).data == old(part).data,
        final(part).root_response_objects == old(part).root_response_objects,
        final(part).updates == old(part).updates,
        final(part).error_paths_to_propagate == old(part).error_paths_to_propagate,
        final(part).boundary_ids_start == old(part).boundary_ids_start,
        final(part).boundaries == old(part).boundaries,
        final(ctx).path == old(ctx).path,
{
    if !ctx.propagating_error {
        let mut message = String::new();
        message.append("Error decoding response from upstream: Missing required field named '");
        message.append(key.as_str());
        message.append("'");
        let locations = match loc {
            Some(l) => {
                let mut v: Vec<Location> = Vec::new();
                v.push(l);
                v
            },
            None => Vec::new(),
        };
        let error = GraphqlError {
            message,
            locations,
            path: Some(missing_path),
            extensions: Vec::new(),
        };
        let ghost em = err_model(error);
        let ghost pre_errors = part.errors@;
        part.push_error(error);
        ctx.propagating_error = true;
        proof {
            assert(em.message == msg_missing_field(key@));
            assert(em =~~= ErrModel {
                message: msg_missing_field(key@),
                locations: match loc {
                    Some(l) => seq![l],
                    None => Seq::empty(),
                },
                path: Some(missing_path@),
                extensions: Seq::empty(),
            });
            assert(part.errors@ == pre_errors.push(error));
            assert forall|t: int| #![trigger part.errors@[t]] 0 <= t < part.errors@.len()
                implies part.errors@.map_values(|e: GraphqlError| err_model(e))[t]
                == pre_errors.map_values(|e: GraphqlError| err_model(e)).push(em)[t] by {
                if t < pre_errors.len() {
                    assert(part.errors@[t] == pre_errors[t]);
                }
            }
            assert(seed_state(*ctx, *part).errors =~= record_error(
                seed_state(*old(ctx), *old(part)),
                msg_missing_field(key@),
                missing_path@,
                loc,
            ).errors);
            assert(seed_state(*ctx, *part) =~~= record_error(
                seed_state(*old(ctx), *old(part)),
                msg_missing_field(key@),
                missing_path@,
                loc,
            ));
        }
    } else {
        proof {
            assert(seed_state(*ctx, *part) =~~= record_error(
                seed_state(*old(ctx), *old(part)),
                msg_missing_field(key@),
                missing_path@,
                loc,
            ));
        }
    }
}

// ---------------------------------------------------------------------------
// Everything a seed writes stays inside its own part.
// ---------------------------------------------------------------------------

/// A value written by a seed references only containers of its own part, in
/// bounds.
pub open spec fn value_swf(st: SeedState, v: ResponseValue) -> bool {
    match v {
        ResponseValue::Object { obj, .. } => obj.part_id == st.part_id && obj.index
            < st.data.objects.len(),
        ResponseValue::List { list, .. } => list.part_id == st.part_id && list.offset
            + list.length <= st.data.lists.len(),
        _ => true,
    }
}

/// The whole seed state is self-contained: every stored value and every
/// produced boundary reference points into the own part, in bounds.
pub open spec fn pstate_wf(st: SeedState) -> bool {
    &&& forall|i: int, j: int|
        0 <= i < st.data.objects.len() && 0 <= j < st.data.objects[i].len() ==> value_swf(
            st,
            (#[trigger] st.data.objects[i][j]).1,
        )
    &&& forall|k: int| 0 <= k < st.data.lists.len() ==> value_swf(st, #[trigger] st.data.lists[k])
    &&& forall|b: int, r: int|
        0 <= b < st.boundaries.len() && 0 <= r < st.boundaries[b].len() ==> (
        #[trigger] st.boundaries[b][r]).id.part_id == st.part_id && st.boundaries[b][r].id.index
            < st.data.objects.len()
}

/// Containers only grow, so a self-contained value stays self-contained.
pub proof fn lemma_swf_grow(a: SeedState, b: SeedState, v: ResponseValue)
    requires
        value_swf(a, v),
        b.part_id == a.part_id,
        b.data.objects.len() >= a.data.objects.len(),
        b.data.lists.len() >= a.data.lists.len(),
    ensures
        value_swf(b, v),
{
}

/// Transfer used where a walk result only has its path restored.
pub proof fn lemma_pstate_restore(a: SeedState, b: SeedState)
    requires
        pstate_wf(a),
        b.part_id == a.part_id,
        b.data == a.data,
        b.boundaries == a.boundaries,
    ensures
        pstate_wf(b),
{
    lemma_pstate_same(a, b);
}

/// Well-formedness does not depend on the path or the flag.
pub proof fn lemma_pstate_same(a: SeedState, b: SeedState)
    requires
        pstate_wf(a),
        b.part_id == a.part_id,
        b.data == a.data,
        b.boundaries == a.boundaries,
    ensures
        pstate_wf(b),
{
    assert forall|i: int, j: int|
        0 <= i < b.data.objects.len() && 0 <= j < b.data.objects[i].len() implies value_swf(
        b,
        (#[trigger] b.data.objects[i][j]).1,
    ) by {
        assert(value_swf(a, a.data.objects[i][j].1));
    }
    assert forall|k: int| 0 <= k < b.data.lists.len() implies value_swf(
        b,
        #[trigger] b.data.lists[k],
    ) by {
        assert(value_swf(a, a.data.lists[k]));
    }
}

/// The walk only grows the part and keeps it self-contained; its result is
/// self-contained too.
pub proof fn lemma_value_spec_swf(
    tables: Seq<SetModel>,
    st: SeedState,
    k: int,
    w: crate::shape::WrapModel,
    ty: FieldType,
    loc: Option<Location>,
    j: JsonValue,
)
    requires
        pstate_wf(st),
    ensures
        ({
            let out = ingest_value_spec(tables, st, k, w, ty, loc, j);
            &&& pstate_wf(out.st)
            &&& out.st.data.objects.len() >= st.data.objects.len()
            &&& out.st.data.lists.len() >= st.data.lists.len()
            &&& out.st.boundaries.len() == st.boundaries.len()
            &&& match out.value {
                Some(v) => value_swf(out.st, v),
                None => true,
            }
        }),
    decreases jsize(j), 0int, 2int,
{
    lemma_value_spec_frame(tables, st, k, w, ty, loc, j);
    let out = ingest_value_spec(tables, st, k, w, ty, loc, j);
    match j {
        JsonValue::Null => {},
        _ => if k < w.layers.len() {
            match j {
                JsonValue::Arr(items) => {
                    lemma_items_spec_swf(tables, st, items@, 0, k + 1, w, ty, loc);
                    let io = ingest_items_spec(tables, st, items@, 0, k + 1, w, ty, loc);
                    match io.items {
                        Some(vals) => {
                            let st2 = out.st;
                            assert forall|i: int, jx: int|
                                0 <= i < st2.data.objects.len() && 0 <= jx < st2.data.objects[
                                i
                            ].len() implies value_swf(
                                st2,
                                (#[trigger] st2.data.objects[i][jx]).1,
                            ) by {
                                lemma_swf_grow(io.st, st2, io.st.data.objects[i][jx].1);
                            }
                            assert forall|kx: int| 0 <= kx < st2.data.lists.len() implies value_swf(
                                st2,
                                #[trigger] st2.data.lists[kx],
                            ) by {
                                if kx < io.st.data.lists.len() {
                                    lemma_swf_grow(io.st, st2, io.st.data.lists[kx]);
                                } else {
                                    assert(st2.data.lists[kx] == vals[kx
                                        - io.st.data.lists.len()]);
                                    lemma_swf_grow(io.st, st2, vals[kx - io.st.data.lists.len()]);
                                }
                            }
                        },
                        None => {},
                    }
                },
                _ => {},
            }
        } else {
            match ty {
                FieldType::Scalar(_) => {},
                FieldType::Selection(sid) => match j {
                    JsonValue::Obj(members) => if 0 <= sid < tables.len() {
                        let set = tables[sid as int];
                        lemma_fields_spec_swf(tables, st, members@, set.fields, 0);
                        let fo = ingest_fields_spec(tables, st, members@, set.fields, 0);
                        match fo.fields {
                            Some(fs) => {
                                let st2 = out.st;
                                assert forall|i: int, jx: int|
                                    0 <= i < st2.data.objects.len() && 0 <= jx
                                    < st2.data.objects[i].len() implies value_swf(
                                    st2,
                                    (#[trigger] st2.data.objects[i][jx]).1,
                                ) by {
                                    if i < fo.st.data.objects.len() {
                                        lemma_swf_grow(fo.st, st2, fo.st.data.objects[i][jx].1);
                                    } else {
                                        assert(st2.data.objects[i] == fs);
                                        lemma_swf_grow(fo.st, st2, fs[jx].1);
                                    }
                                }
                                assert forall|kx: int|
                                    0 <= kx < st2.data.lists.len() implies value_swf(
                                    st2,
                                    #[trigger] st2.data.lists[kx],
                                ) by {
                                    lemma_swf_grow(fo.st, st2, fo.st.data.lists[kx]);
                                }
                                let index = fo.st.data.objects.len();
                                let oid = ResponseObjectId {
                                    part_id: st.part_id,
                                    index: index as usize,
                                };
                                let new_r = RefModel {
                                    id: oid,
                                    path: st.path,
                                    definition_id: set.definition_id,
                                };
                                lemma_push_boundaries_entries(
                                    fo.st.boundaries,
                                    set.boundary_ids,
                                    new_r,
                                );
                                assert forall|b: int, t: int|
                                    0 <= b < st2.boundaries.len() && 0 <= t < st2.boundaries[
                                    b
                                ].len() implies (#[trigger] st2.boundaries[b][t]).id.part_id
                                    == st2.part_id && st2.boundaries[b][t].id.index
                                    < st2.data.objects.len() by {
                                    if st2.boundaries[b][t] == new_r {
                                    } else {
                                        assert(st2.boundaries[b][t] == fo.st.boundaries[b][t]);
                                    }
                                }
                            },
                            None => {},
                        }
                    } else {
                    },
                    _ => {},
                },
            }
        },
    }
}

/// `push_boundaries` only appends the one new reference: every entry of the
/// result is an old entry or that reference.
pub proof fn lemma_push_boundaries_entries(
    bs: Seq<Seq<RefModel>>,
    ids: Seq<usize>,
    r: RefModel,
)
    ensures
        push_boundaries(bs, ids, r).len() == bs.len(),
        forall|b: int, t: int|
            0 <= b < bs.len() && 0 <= t < push_boundaries(bs, ids, r)[b].len() ==> (
            #[trigger] push_boundaries(bs, ids, r)[b][t]) == r || (t < bs[b].len() && push_boundaries(
                bs,
                ids,
                r,
            )[b][t] == bs[b][t]),
    decreases ids.len(),
{
    if ids.len() > 0 {
        let b0 = ids[0] as int;
        let bs2 = if 0 <= b0 < bs.len() {
            bs.update(b0, bs[b0].push(r))
        } else {
            bs
        };
        lemma_push_boundaries_entries(bs2, ids.drop_first(), r);
    }
}

/// Item walk: self-containment.
pub proof fn lemma_items_spec_swf(
    tables: Seq<SetModel>,
    st: SeedState,
    items: Seq<JsonValue>,
    ii: int,
    k: int,
    w: crate::shape::WrapModel,
    ty: FieldType,
    loc: Option<Location>,
)
    requires
        pstate_wf(st),
    ensures
        ({
            let out = ingest_items_spec(tables, st, items, ii, k, w, ty, loc);
            &&& pstate_wf(out.st)
            &&& out.st.data.objects.len() >= st.data.objects.len()
            &&& out.st.data.lists.len() >= st.data.lists.len()
            &&& out.st.boundaries.len() == st.boundaries.len()
            &&& match out.items {
                Some(vs) => forall|t: int|
                    0 <= t < vs.len() ==> value_swf(out.st, #[trigger] vs[t]),
                None => true,
            }
        }),
    decreases jsize_arr(items), 1int, 2int,
{
    if items.len() > 0 {
        let st_in = SeedState { path: st.path.push(ResponseEdge::Index(ii as usize)), ..st };
        lemma_pstate_same(st, st_in);
        lemma_value_spec_swf(tables, st_in, k, w, ty, loc, items[0]);
        let out = ingest_value_spec(tables, st_in, k, w, ty, loc, items[0]);
        let st_back = SeedState { path: st.path, ..out.st };
        lemma_pstate_restore(out.st, st_back);
        match out.value {
            None => {},
            Some(v) => {
                lemma_pstate_same(out.st, st_back);
                lemma_items_spec_swf(tables, st_back, items.drop_first(), ii + 1, k, w, ty, loc);
                let rest = ingest_items_spec(
                    tables,
                    st_back,
                    items.drop_first(),
                    ii + 1,
                    k,
                    w,
                    ty,
                    loc,
                );
                proof_items_frame_bridge(tables, st_back, items.drop_first(), ii + 1, k, w, ty, loc);
                match rest.items {
                    Some(vs) => {
                        assert forall|t: int| 0 <= t < (seq![v] + vs).len() implies value_swf(
                            rest.st,
                            #[trigger] (seq![v] + vs)[t],
                        ) by {
                            if t == 0 {
                                assert(value_swf(st_back, v));
                                lemma_swf_grow(st_back, rest.st, v);
                            } else {
                                assert((seq![v] + vs)[t] == vs[t - 1]);
                            }
                        }
                    },
                    None => {},
                }
            },
        }
    }
}

/// Field walk: self-containment.
pub proof fn lemma_fields_spec_swf(
    tables: Seq<SetModel>,
    st: SeedState,
    members: Seq<(String, JsonValue)>,
    fields: Seq<FieldModel>,
    fi: int,
)
    requires
        pstate_wf(st),
    ensures
        ({
            let out = ingest_fields_spec(tables, st, members, fields, fi);
            &&& pstate_wf(out.st)
            &&& out.st.data.objects.len() >= st.data.objects.len()
            &&& out.st.data.lists.len() >= st.data.lists.len()
            &&& out.st.boundaries.len() == st.boundaries.len()
            &&& match out.fields {
                Some(fs) => forall|t: int|
                    0 <= t < fs.len() ==> value_swf(out.st, (#[trigger] fs[t]).1),
                None => true,
            }
        }),
    decreases jsize_members(members), 2int, fields.len() - fi, 2int,
{
    if 0 <= fi < fields.len() {
        let f = fields[fi];
        match find_key(members, f.key) {
            Some(mi) => {
                lemma_find_key_bounds(members, f.key);
                lemma_member_size(members, mi);
                lemma_members_remove_size(members, mi);
                let v = members[mi].1;
                let st_in = SeedState { path: st.path.push(f.edge), ..st };
                lemma_pstate_same(st, st_in);
                lemma_value_spec_swf(tables, st_in, 0, f.wrap, f.ty, f.location, v);
                let out = ingest_value_spec(tables, st_in, 0, f.wrap, f.ty, f.location, v);
                let st_back = SeedState { path: st.path, ..out.st };
                lemma_pstate_restore(out.st, st_back);
                match out.value {
                    None => {},
                    Some(rv) => {
                        lemma_pstate_same(out.st, st_back);
                        lemma_fields_spec_swf(tables, st_back, members.remove(mi), fields, fi + 1);
                        let rest = ingest_fields_spec(
                            tables,
                            st_back,
                            members.remove(mi),
                            fields,
                            fi + 1,
                        );
                        proof_fields_frame_bridge(
                            tables,
                            st_back,
                            members.remove(mi),
                            fields,
                            fi + 1,
                        );
                        match rest.fields {
                            Some(fs) => {
                                assert forall|t: int|
                                    0 <= t < (seq![(f.edge, rv)] + fs).len() implies value_swf(
                                    rest.st,
                                    (#[trigger] (seq![(f.edge, rv)] + fs)[t]).1,
                                ) by {
                                    if t == 0 {
                                        assert(value_swf(st_back, rv));
                                        lemma_swf_grow(st_back, rest.st, rv);
                                    } else {
                                        assert((seq![(f.edge, rv)] + fs)[t] == fs[t - 1]);
                                    }
                                }
                            },
                            None => {},
                        }
                    },
                }
            },
            None => {
                if nullable_at(f.wrap, 0) {
                    lemma_fields_spec_swf(tables, st, members, fields, fi + 1);
                    let rest = ingest_fields_spec(tables, st, members, fields, fi + 1);
                    match rest.fields {
                        Some(fs) => {
                            assert forall|t: int|
                                0 <= t < (seq![(f.edge, ResponseValue::Null)] + fs).len()
                                implies value_swf(
                                rest.st,
                                (#[trigger] (seq![(f.edge, ResponseValue::Null)] + fs)[t]).1,
                            ) by {
                                if t > 0 {
                                    assert((seq![(f.edge, ResponseValue::Null)] + fs)[t] == fs[t
                                        - 1]);
                                }
                            }
                        },
                        None => {},
                    }
                }
            },
        }
    }
}


/// Frame bridge: the part id is preserved through the item walk.
pub proof fn proof_items_frame_bridge(
    tables: Seq<SetModel>,
    st: SeedState,
    items: Seq<JsonValue>,
    ii: int,
    k: int,
    w: crate::shape::WrapModel,
    ty: FieldType,
    loc: Option<Location>,
)
    ensures
        ingest_items_spec(tables, st, items, ii, k, w, ty, loc).st.part_id == st.part_id,
{
    lemma_items_spec_frame(tables, st, items, ii, k, w, ty, loc);
}

/// Frame bridge: the part id is preserved through the field walk.
pub proof fn proof_fields_frame_bridge(
    tables: Seq<SetModel>,
    st: SeedState,
    members: Seq<(String, JsonValue)>,
    fields: Seq<FieldModel>,
    fi: int,
)
    ensures
        ingest_fields_spec(tables, st, members, fields, fi).st.part_id == st.part_id,
{
    lemma_fields_spec_frame(tables, st, members, fields, fi);
}

} // verus!
