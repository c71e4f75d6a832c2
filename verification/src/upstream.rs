//! Ingestion of a whole upstream GraphQL response body into a response part:
//! the `data` member drives the typed seeds, each entry of `errors` is
//! rewritten into a local error with a translated path, and every other
//! member is ignored.

use vstd::prelude::*;
use crate::ResponseEdge;
use crate::dser::{
    err_model, ingest_fields, ingest_fields_spec, msg_expected_object, msg_missing_field,
    part_seed_state, record_error, seed_state, ErrModel, SeedContext, SeedState,
};
use crate::error::{GraphqlError, ResponsePath};
use crate::json::JsonValue;
use crate::shape::{nullable_at, shapes_model, CollectedShapes, FieldModel};
use crate::write::{ResponsePart, ResponseValue, SlotModel, UpdateSlot};

verus! {

// ---------------------------------------------------------------------------
// The update seed: one boundary object is either merged with the fields the
// upstream returned, or marked failed so the builder propagates from its
// path.
// ---------------------------------------------------------------------------

/// The first non-nullable field of the selection set, if any.
pub open spec fn first_required(fields: Seq<FieldModel>, fi: int) -> Option<FieldModel>
    decreases fields.len() - fi,
{
    if fi < 0 || fi >= fields.len() {
        None
    } else if !nullable_at(fields[fi].wrap, 0) {
        Some(fields[fi])
    } else {
        first_required(fields, fi + 1)
    }
}

/// All the fields of the selection set, each null.
pub open spec fn all_null_fields(fields: Seq<FieldModel>) -> Seq<(ResponseEdge, ResponseValue)> {
    fields.map_values(|f: FieldModel| (f.edge, ResponseValue::Null))
}

/// Result of one boundary-object update.
#[verifier::ext_equal]
pub struct UpdOut {
    pub st: SeedState,
    pub slot: SlotModel,
}

/// What updating one boundary object with an upstream value does. A null
/// value stands for the whole object: with only nullable fields it becomes
/// all-null fields, otherwise the first required field is reported missing
/// and the update fails. A JSON object is walked field by field; anything
/// else fails the update.
pub open spec fn update_spec(
    tables: Seq<crate::shape::SetModel>,
    st: SeedState,
    sid: int,
    data: JsonValue,
) -> UpdOut {
    let set = tables[sid];
    match data {
        JsonValue::Null => match first_required(set.fields, 0) {
            None => UpdOut { st, slot: SlotModel::Fields(all_null_fields(set.fields)) },
            Some(f) => UpdOut {
                st: record_error(
                    st,
                    msg_missing_field(f.key),
                    st.path.push(f.edge),
                    f.location,
                ),
                slot: SlotModel::Failed,
            },
        },
        JsonValue::Obj(members) => {
            let out = ingest_fields_spec(tables, st, members@, set.fields, 0);
            match out.fields {
                Some(fs) => UpdOut { st: out.st, slot: SlotModel::Fields(fs) },
                None => UpdOut { st: out.st, slot: SlotModel::Failed },
            }
        },
        _ => UpdOut {
            st: record_error(st, msg_expected_object(), st.path, None),
            slot: SlotModel::Failed,
        },
    }
}

/// Updates the boundary object of slot `u` with the upstream value `data`.
#[verifier::loop_isolation(false)]
pub fn ingest_update(
    shapes: &CollectedShapes,
    part: &mut ResponsePart,
    sid: usize,
    u: usize,
    boundary_path: Vec<ResponseEdge>,
    data: JsonValue,
) -> (failed: bool)
    requires
        sid < shapes.sets@.len(),
        u < old(part).updates@.len(),
    ensures
        ({
            let st0 = part_seed_state(*old(part), boundary_path@, false);
            let out = update_spec(shapes_model(*shapes), st0, sid as int, data);
            &&& part_seed_state(*final(part), out.st.path, out.st.flag) == out.st
            &&& final(part).updates@.len() == old(part).updates@.len()
            &&& forall|t: int|
                0 <= t < old(part).updates@.len() && t != u ==> final(part).updates@[t] == old(
                    part,
                ).updates@[t]
            &&& crate::write::slot_model(final(part).updates@[u as int]) == out.slot
            &&& failed == (out.slot is Failed)
        }),
        final(part).data.id == old(part).data.id,
        final(part).root_response_objects == old(part).root_response_objects,
        final(part).error_paths_to_propagate == old(part).error_paths_to_propagate,
        final(part).boundary_ids_start == old(part).boundary_ids_start,
{
    let ghost tbl = shapes_model(*shapes);
    let ghost st0 = part_seed_state(*part, boundary_path@, false);
    let ghost out_g = update_spec(tbl, st0, sid as int, data);
    let mut ctx = SeedContext::new(boundary_path);
    proof {
        assert(seed_state(ctx, *part) == st0);
    }
    let is_null = match &data {
        JsonValue::Null => true,
        _ => false,
    };
    if is_null {
        // The whole object is null: nullable fields all become null; a
        // required field means the update fails with a missing-field error.
        let nf = shapes.sets[sid].fields.len();
        let mut fields: Vec<(ResponseEdge, ResponseValue)> = Vec::new();
        let ghost set_m = tbl[sid as int];
        let mut fi: usize = 0;
        while fi < nf
            invariant
                fi <= nf,
                *part == *old(part),
                ctx.path@ == st0.path,
                first_required(set_m.fields, 0) == first_required(set_m.fields, fi as int),
                fields@ =~= all_null_fields(set_m.fields).subrange(0, fi as int),
            decreases nf - fi,
        {
            let ghost f_m = set_m.fields[fi as int];
            proof {
                assert(f_m == crate::shape::field_model(
                    shapes.sets@[sid as int].fields@[fi as int],
                ));
            }
            let required = !(if 0 < shapes.sets[sid].fields[fi].wrapping.list_nullable.len() {
                shapes.sets[sid].fields[fi].wrapping.list_nullable[0]
            } else {
                shapes.sets[sid].fields[fi].wrapping.inner_nullable
            });
            if required {
                let mut missing_path = ctx.response_path();
                missing_path.push(shapes.sets[sid].fields[fi].edge);
                let key_owned = clone_string(&shapes.sets[sid].fields[fi].expected_key);
                fail_missing_update(
                    part,
                    &key_owned,
                    missing_path,
                    shapes.sets[sid].fields[fi].location,
                );
                part.set_update(u, UpdateSlot::Error);
                proof {
                    assert(first_required(set_m.fields, fi as int) == Some(f_m));
                    assert(out_g.slot is Failed);
                    assert(part_seed_state(*part, out_g.st.path, out_g.st.flag) =~~= out_g.st);
                }
                return true;
            }
            fields.push((shapes.sets[sid].fields[fi].edge, ResponseValue::Null));
            proof {
                assert(all_null_fields(set_m.fields)[fi as int] == (f_m.edge,
                ResponseValue::Null));
                assert(fields@ =~= all_null_fields(set_m.fields).subrange(0, fi as int + 1));
            }
            fi = fi + 1;
        }
        proof {
            assert(first_required(set_m.fields, nf as int) is None);
            assert(all_null_fields(set_m.fields).subrange(0, nf as int) =~= all_null_fields(
                set_m.fields,
            ));
        }
        part.set_update(u, UpdateSlot::Fields(fields));
        proof {
            assert(crate::write::slot_model(part.updates@[u as int]) == out_g.slot);
            assert(part_seed_state(*part, out_g.st.path, out_g.st.flag) =~~= out_g.st);
        }
        return false;
    }
    match data {
        JsonValue::Obj(members) => {
            let ghost members0 = members@;
            let r = ingest_fields(shapes, &mut ctx, part, sid, members);
            proof {
                crate::dser::lemma_fields_spec_frame(
                    tbl,
                    st0,
                    members0,
                    tbl[sid as int].fields,
                    0,
                );
            }
            match r {
                Some(fields) => {
                    part.set_update(u, UpdateSlot::Fields(fields));
                    proof {
                        assert(part_seed_state(*part, out_g.st.path, out_g.st.flag) =~~= out_g.st);
                    }
                    false
                },
                None => {
                    part.set_update(u, UpdateSlot::Error);
                    proof {
                        assert(part_seed_state(*part, out_g.st.path, out_g.st.flag) =~~= out_g.st);
                    }
                    true
                },
            }
        },
        _ => {
            // Not an object at all: one error at the boundary path.
            let error_path = ctx.response_path();
            fail_expected_object(part, error_path);
            part.set_update(u, UpdateSlot::Error);
            proof {
                assert(part_seed_state(*part, out_g.st.path, out_g.st.flag) =~~= out_g.st);
            }
            true
        },
    }
}

/// Clones a string through its characters.
pub fn clone_string(s: &String) -> (r: String)
    ensures
        r@ == s@,
{
    let mut r = String::new();
    r.append(s.as_str());
    r
}

/// Records a missing-required-field error on a part whose flag is down.
fn fail_missing_update(
    part: &mut ResponsePart,
    key: &String,
    missing_path: Vec<ResponseEdge>,
    loc: Option<crate::error::Location>,
)
    ensures
        ({
            let st0 = part_seed_state(*old(part), missing_path@, false);
            let st2 = record_error(st0, msg_missing_field(key@), missing_path@, loc);
            part_seed_state(*final(part), missing_path@, false).errors == st2.errors
                && final(part).errors@.len() == old(part).errors@.len() + 1
        }),
        final(part).data == old(part).data,
        final(part).root_response_objects == old(part).root_response_objects,
        final(part).updates == old(part).updates,
        final(part).error_paths_to_propagate == old(part).error_paths_to_propagate,
        final(part).boundary_ids_start == old(part).boundary_ids_start,
        final(part).boundaries == old(part).boundaries,
{
    let mut message = String::new();
    message.append("Error decoding response from upstream: Missing required field named '");
    message.append(key.as_str());
    message.append("'");
    let locations = match loc {
        Some(l) => {
            let mut v: Vec<crate::error::Location> = Vec::new();
            v.push(l);
            v
        },
        None => Vec::new(),
    };
    let error = GraphqlError { message, locations, path: Some(missing_path), extensions: Vec::new() };
    let ghost em = err_model(error);
    let ghost pre_errors = part.errors@;
    part.push_error(error);
    proof {
        assert(em =~~= ErrModel {
            message: msg_missing_field(key@),
            locations: match loc {
                Some(l) => seq![l],
                None => Seq::empty(),
            },
            path: Some(missing_path@),
            extensions: Seq::empty(),
        });
        assert(part.errors@ == pre_errors.push(error));
        assert forall|t: int| #![trigger part.errors@[t]] 0 <= t < part.errors@.len()
            implies part.errors@.map_values(|e: GraphqlError| err_model(e))[t]
            == pre_errors.map_values(|e: GraphqlError| err_model(e)).push(em)[t] by {
            if t < pre_errors.len() {
                assert(part.errors@[t] == pre_errors[t]);
            }
        }
        assert(part_seed_state(*part, missing_path@, false).errors =~= record_error(
            part_seed_state(*old(part), missing_path@, false),
            msg_missing_field(key@),
            missing_path@,
            loc,
        ).errors);
    }
}

/// Records an expected-an-object error on a part whose flag is down.
fn fail_expected_object(part: &mut ResponsePart, error_path: Vec<ResponseEdge>)
    ensures
        ({
            let st0 = part_seed_state(*old(part), error_path@, false);
            let st2 = record_error(st0, msg_expected_object(), error_path@, None);
            part_seed_state(*final(part), error_path@, false).errors == st2.errors
                && final(part).errors@.len() == old(part).errors@.len() + 1
        }),
        final(part).data == old(part).data,
        final(part).root_response_objects == old(part).root_response_objects,
        final(part).updates == old(part).updates,
        final(part).error_paths_to_propagate == old(part).error_paths_to_propagate,
        final(part).boundary_ids_start == old(part).boundary_ids_start,
        final(part).boundaries == old(part).boundaries,
{
    let error = GraphqlError {
        message: "Error decoding response from upstream: Expected an object".to_owned(),
        locations: Vec::new(),
        path: Some(error_path),
        extensions: Vec::new(),
    };
    let ghost em = err_model(error);
    let ghost pre_errors = part.errors@;
    part.push_error(error);
    proof {
        assert(em =~~= ErrModel {
            message: msg_expected_object(),
            locations: Seq::empty(),
            path: Some(error_path@),
            extensions: Seq::empty(),
        });
        assert(part.errors@ == pre_errors.push(error));
        assert forall|t: int| #![trigger part.errors@[t]] 0 <= t < part.errors@.len()
            implies part.errors@.map_values(|e: GraphqlError| err_model(e))[t]
            == pre_errors.map_values(|e: GraphqlError| err_model(e)).push(em)[t] by {
            if t < pre_errors.len() {
                assert(part.errors@[t] == pre_errors[t]);
            }
        }
        assert(part_seed_state(*part, error_path@, false).errors =~= record_error(
            part_seed_state(*old(part), error_path@, false),
            msg_expected_object(),
            error_path@,
            None,
        ).errors);
    }
}

// ---------------------------------------------------------------------------
// Upstream error conversion.
// ---------------------------------------------------------------------------

/// First member with the key, and the members with it removed.
pub open spec fn extract_spec(
    members: Seq<(String, JsonValue)>,
    key: Seq<char>,
) -> (Option<JsonValue>, Seq<(String, JsonValue)>) {
    match crate::dser::find_key(members, key) {
        Some(mi) => (Some(members[mi].1), members.remove(mi)),
        None => (None, members),
    }
}

#[verifier::ext_equal]
pub struct PathOut {
    pub edges: Seq<ResponseEdge>,
    pub fully: bool,
}

/// One edge per translated segment: the translation never produces more
/// edges than there are segments left.
pub proof fn lemma_convert_path_len(keys: Seq<Seq<char>>, items: Seq<JsonValue>, i: int)
    requires
        0 <= i <= items.len(),
    ensures
        convert_path_rec(keys, items, i).edges.len() <= items.len() - i,
    decreases items.len() - i,
{
    if i < items.len() {
        lemma_convert_path_len(keys, items, i + 1);
    }
}

/// Translates upstream path segments into response edges: names become
/// synthesized extra-field edges when they are known response keys, numbers
/// become list indices; the first segment that does not translate ends the
/// path.
pub open spec fn convert_path_rec(
    keys: Seq<Seq<char>>,
    items: Seq<JsonValue>,
    i: int,
) -> PathOut
    decreases items.len() - i,
{
    if i < 0 || i >= items.len() {
        PathOut { edges: Seq::empty(), fully: true }
    } else {
        match items[i] {
            JsonValue::Str(s) => match crate::shape::key_index(keys, s@) {
                Some(k) => {
                    let rest = convert_path_rec(keys, items, i + 1);
                    PathOut {
                        edges: seq![ResponseEdge::ExtraKey(k as usize)] + rest.edges,
                        fully: rest.fully,
                    }
                },
                None => PathOut { edges: Seq::empty(), fully: false },
            },
            JsonValue::Num(t) => if crate::dser::num_is_integral(t@) && crate::dser::int_text_ok(
                t@,
            ) && 0 <= crate::dser::int_text_value(t@) <= usize::MAX {
                let rest = convert_path_rec(keys, items, i + 1);
                PathOut {
                    edges: seq![
                        ResponseEdge::Index(crate::dser::int_text_value(t@) as usize),
                    ] + rest.edges,
                    fully: rest.fully,
                }
            } else {
                PathOut { edges: Seq::empty(), fully: false }
            },
            _ => PathOut { edges: Seq::empty(), fully: false },
        }
    }
}

/// An entity plan's upstream paths start with `_entities` and the index of
/// the representation; the rest translates like a root path, prefixed with
/// the boundary object's own path.
pub open spec fn entities_path(
    keys: Seq<Seq<char>>,
    refs: Seq<crate::write::RefModel>,
    items: Seq<JsonValue>,
) -> (Option<Seq<ResponseEdge>>, bool) {
    if items.len() >= 2 && (match items[0] {
        JsonValue::Str(s) => s@ == "_entities"@,
        _ => false,
    }) && (match items[1] {
        JsonValue::Num(t) => crate::dser::num_is_integral(t@) && crate::dser::int_text_ok(t@)
            && 0 <= crate::dser::int_text_value(t@) < refs.len(),
        _ => false,
    }) {
        let v = match items[1] {
            JsonValue::Num(t) => crate::dser::int_text_value(t@),
            _ => 0,
        };
        let rest = convert_path_rec(keys, items, 2);
        (Some(refs[v].path + rest.edges), rest.fully)
    } else {
        (None, false)
    }
}

pub open spec fn path_result(
    keys: Seq<Seq<char>>,
    refs: Seq<crate::write::RefModel>,
    entities: bool,
    path_j: Option<JsonValue>,
) -> (Option<Seq<ResponseEdge>>, bool) {
    match path_j {
        None => (None, true),
        Some(JsonValue::Null) => (None, true),
        Some(JsonValue::Arr(items)) => if entities {
            entities_path(keys, refs, items@)
        } else {
            let po = convert_path_rec(keys, items@, 0);
            (Some(po.edges), po.fully)
        },
        Some(_) => (None, false),
    }
}

/// One upstream error, rewritten: the message is prefixed, the path is
/// translated, and the upstream `locations`, untranslated `path` and
/// `extensions` are stashed in the extensions under `upstream_*` keys.
/// How many leading segments of an upstream path translate, per the
/// conversion above: one edge per translated segment.
pub open spec fn resolved_count(
    keys: Seq<Seq<char>>,
    refs: Seq<crate::write::RefModel>,
    entities: bool,
    path_j: Option<JsonValue>,
) -> int {
    match path_j {
        Some(JsonValue::Arr(items)) => if entities {
            if items@.len() >= 2 && (match items@[0] {
                JsonValue::Str(s) => s@ == "_entities"@,
                _ => false,
            }) && (match items@[1] {
                JsonValue::Num(t) => crate::dser::num_is_integral(t@)
                    && crate::dser::int_text_ok(t@) && 0 <= crate::dser::int_text_value(t@)
                    < refs.len(),
                _ => false,
            }) {
                2 + convert_path_rec(keys, items@, 2).edges.len() as int
            } else {
                0
            }
        } else {
            convert_path_rec(keys, items@, 0).edges.len() as int
        },
        _ => 0,
    }
}

/// The untranslated remainder of an upstream path, stored for reporting.
pub open spec fn path_remainder(
    keys: Seq<Seq<char>>,
    refs: Seq<crate::write::RefModel>,
    entities: bool,
    path_j: Option<JsonValue>,
) -> crate::json::Jx {
    match path_j {
        Some(JsonValue::Arr(items)) => crate::json::Jx::Arr(
            crate::json::view_arr(items@).subrange(
                resolved_count(keys, refs, entities, path_j),
                items@.len() as int,
            ),
        ),
        Some(other) => other@,
        None => crate::json::Jx::Null,
    }
}

pub open spec fn convert_entry(
    keys: Seq<Seq<char>>,
    refs: Seq<crate::write::RefModel>,
    entities: bool,
    members: Seq<(String, JsonValue)>,
) -> ErrModel {
    let (msg_j, m1) = extract_spec(members, "message"@);
    let (locs_j, m2) = extract_spec(m1, "locations"@);
    let (path_j, m3) = extract_spec(m2, "path"@);
    let (exts_j, _) = extract_spec(m3, "extensions"@);
    let message = "Upstream error: "@ + (match msg_j {
        Some(JsonValue::Str(s)) => s@,
        _ => Seq::empty(),
    });
    let pr = path_result(keys, refs, entities, path_j);
    let e0 = Seq::<(Seq<char>, crate::json::Jx)>::empty();
    let e1 = match locs_j {
        Some(l) => if !(l is Null) {
            e0.push(("upstream_locations"@, l@))
        } else {
            e0
        },
        None => e0,
    };
    let e2 = if !pr.1 {
        e1.push(("upstream_path"@, path_remainder(keys, refs, entities, path_j)))
    } else {
        e1
    };
    let e3 = match exts_j {
        Some(x) => if !(x is Null) {
            e2.push(("upstream_extensions"@, x@))
        } else {
            e2
        },
        None => e2,
    };
    ErrModel { message, locations: Seq::empty(), path: pr.0, extensions: e3 }
}

/// The converted error list; entries that are not objects are dropped.
pub open spec fn convert_errors_list(
    keys: Seq<Seq<char>>,
    refs: Seq<crate::write::RefModel>,
    entities: bool,
    items: Seq<JsonValue>,
) -> Seq<ErrModel>
    decreases items.len(),
{
    if items.len() == 0 {
        Seq::empty()
    } else {
        let rest = convert_errors_list(keys, refs, entities, items.drop_first());
        match items[0] {
            JsonValue::Obj(members) => seq![convert_entry(keys, refs, entities, members@)] + rest,
            _ => rest,
        }
    }
}

/// Extracts the first member with the key, removing it.
pub fn extract_member(members: &mut Vec<(String, JsonValue)>, key: &str) -> (r: Option<JsonValue>)
    ensures
        ({
            let (v, m2) = extract_spec(old(members)@, key@);
            r == v && final(members)@ == m2
        }),
{
    let key_string = key.to_owned();
    let found = crate::dser::find_key_exec(members, &key_string);
    match found {
        Some(mi) => {
            proof {
                crate::dser::lemma_find_key_bounds(members@, key@);
            }
            let pair = members.remove(mi);
            Some(pair.1)
        },
        None => None,
    }
}

/// Copies a response path.
pub fn copy_edges(p: &Vec<ResponseEdge>) -> (r: Vec<ResponseEdge>)
    ensures
        r@ == p@,
{
    let mut r: Vec<ResponseEdge> = Vec::new();
    let mut i: usize = 0;
    let n = p.len();
    while i < n
        invariant
            i <= n,
            n == p@.len(),
            r@ =~= p@.subrange(0, i as int),
        decreases n - i,
    {
        r.push(p[i]);
        i = i + 1;
    }
    proof {
        assert(p@.subrange(0, n as int) =~= p@);
    }
    r
}

/// Translates the segments of one upstream path, root style.
#[verifier::loop_isolation(false)]
pub fn convert_path(keys: &crate::shape::ResponseKeys, items: &Vec<JsonValue>, start: usize) -> (r: (
    Vec<ResponseEdge>,
    bool,
))
    requires
        start <= items@.len(),
    ensures
        ({
            let po = convert_path_rec(keys.model(), items@, start as int);
            r.0@ == po.edges && r.1 == po.fully
        }),
{
    let n = items.len();
    let mut edges: Vec<ResponseEdge> = Vec::new();
    let mut i: usize = start;
    while i < n
        invariant
            start <= i <= n,
            convert_path_rec(keys.model(), items@, start as int) == (PathOut {
                edges: edges@ + convert_path_rec(keys.model(), items@, i as int).edges,
                fully: convert_path_rec(keys.model(), items@, i as int).fully,
            }),
        decreases n - i,
    {
        let ghost rem = convert_path_rec(keys.model(), items@, i as int);
        match &items[i] {
            JsonValue::Str(s) => {
                match keys.get(s.as_str()) {
                    Some(k) => {
                        edges.push(ResponseEdge::ExtraKey(k));
                        proof {
                            let rem2 = convert_path_rec(keys.model(), items@, i as int + 1);
                            assert(rem.edges == seq![ResponseEdge::ExtraKey(k as usize)]
                                + rem2.edges);
                            assert(edges@ + rem2.edges =~= edges@.drop_last() + rem.edges);
                        }
                    },
                    None => {
                        proof {
                            assert(rem.edges =~= Seq::<ResponseEdge>::empty());
                            assert(edges@ + rem.edges =~= edges@);
                        }
                        return (edges, false);
                    },
                }
            },
            JsonValue::Num(t) => {
                let ok = crate::dser::num_text_is_integral(t.as_str());
                if ok {
                    match crate::dser::parse_int_text(t.as_str()) {
                        Some(v) => {
                            if v >= 0 && (v as u64) <= (usize::MAX as u64) {
                                edges.push(ResponseEdge::Index(v as usize));
                                proof {
                                    let rem2 = convert_path_rec(
                                        keys.model(),
                                        items@,
                                        i as int + 1,
                                    );
                                    assert(0 <= crate::dser::int_text_value(t@) <= usize::MAX);
                                    assert(rem.edges == seq![
                                        ResponseEdge::Index(
                                            crate::dser::int_text_value(t@) as usize,
                                        ),
                                    ] + rem2.edges);
                                    assert(edges@ + rem2.edges =~= edges@.drop_last()
                                        + rem.edges);
                                }
                            } else {
                                proof {
                                    assert(!(0 <= crate::dser::int_text_value(t@)
                                        <= usize::MAX));
                                    assert(edges@ + rem.edges =~= edges@);
                                }
                                return (edges, false);
                            }
                        },
                        None => {
                            proof {
                                assert(edges@ + rem.edges =~= edges@);
                            }
                            return (edges, false);
                        },
                    }
                } else {
                    proof {
                        assert(edges@ + rem.edges =~= edges@);
                    }
                    return (edges, false);
                }
            },
            _ => {
                proof {
                    assert(edges@ + rem.edges =~= edges@);
                }
                return (edges, false);
            },
        }
        i = i + 1;
    }
    proof {
        let rem = convert_path_rec(keys.model(), items@, n as int);
        assert(rem.edges =~= Seq::<ResponseEdge>::empty());
        assert(edges@ + rem.edges =~= edges@);
    }
    (edges, true)
}

/// Models of the boundary object references of a part.
pub open spec fn refs_model(refs: Seq<crate::write::ResponseObjectRef>) -> Seq<
    crate::write::RefModel,
> {
    refs.map_values(|r: crate::write::ResponseObjectRef| crate::write::ref_model(r))
}

/// Rewrites the upstream error list; entries that are not objects are
/// dropped.
#[verifier::loop_isolation(false)]
pub fn convert_errors(
    keys: &crate::shape::ResponseKeys,
    refs: &Vec<crate::write::ResponseObjectRef>,
    entities: bool,
    items: Vec<JsonValue>,
) -> (r: Vec<GraphqlError>)
    ensures
        r@.map_values(|e: GraphqlError| err_model(e)) == convert_errors_list(
            keys.model(),
            refs_model(refs@),
            entities,
            items@,
        ),
{
    let ghost items0 = items@;
    let ghost full = convert_errors_list(keys.model(), refs_model(refs@), entities, items0);
    let mut items = items;
    let mut acc: Vec<GraphqlError> = Vec::new();
    proof {
        assert(acc@.map_values(|e: GraphqlError| err_model(e)) =~= Seq::<ErrModel>::empty());
    }
    while items.len() > 0
        invariant
            full == (acc@.map_values(|e: GraphqlError| err_model(e)) + convert_errors_list(
                keys.model(),
                refs_model(refs@),
                entities,
                items@,
            )),
        decreases items@.len(),
    {
        let ghost pre_items = items@;
        let entry = items.remove(0);
        proof {
            assert(pre_items.drop_first() =~= items@);
        }
        match entry {
            JsonValue::Obj(members) => {
                let ghost members0 = members@;
                let e = convert_one_error(keys, refs, entities, members);
                let ghost em = err_model(e);
                let ghost pre_acc = acc@;
                acc.push(e);
                proof {
                    assert(em == convert_entry(
                        keys.model(),
                        refs_model(refs@),
                        entities,
                        members0,
                    ));
                    assert(acc@.map_values(|x: GraphqlError| err_model(x)) =~= pre_acc.map_values(
                        |x: GraphqlError| err_model(x),
                    ).push(em)) by {
                        assert forall|t: int| #![trigger acc@[t]] 0 <= t < acc@.len()
                            implies acc@.map_values(|x: GraphqlError| err_model(x))[t]
                            == pre_acc.map_values(|x: GraphqlError| err_model(x)).push(em)[t] by {
                            if t < pre_acc.len() {
                                assert(acc@[t] == pre_acc[t]);
                            }
                        }
                    }
                    assert(pre_acc.map_values(|x: GraphqlError| err_model(x)).push(em) + convert_errors_list(
                        keys.model(),
                        refs_model(refs@),
                        entities,
                        items@,
                    ) =~= pre_acc.map_values(|x: GraphqlError| err_model(x)) + (seq![em]
                        + convert_errors_list(keys.model(), refs_model(refs@), entities, items@)));
                }
            },
            _ => {},
        }
    }
    proof {
        assert(convert_errors_list(keys.model(), refs_model(refs@), entities, items@)
            =~= Seq::<ErrModel>::empty());
        assert(acc@.map_values(|e: GraphqlError| err_model(e)) + Seq::<ErrModel>::empty()
            =~= acc@.map_values(|e: GraphqlError| err_model(e)));
    }
    acc
}

/// Rewrites one upstream error object.
fn convert_one_error(
    keys: &crate::shape::ResponseKeys,
    refs: &Vec<crate::write::ResponseObjectRef>,
    entities: bool,
    members: Vec<(String, JsonValue)>,
) -> (r: GraphqlError)
    ensures
        err_model(r) == convert_entry(keys.model(), refs_model(refs@), entities, members@),
{
    let ghost spec_entry = convert_entry(keys.model(), refs_model(refs@), entities, members@);
    let mut members = members;
    let msg_j = extract_member(&mut members, "message");
    let locs_j = extract_member(&mut members, "locations");
    let path_j = extract_member(&mut members, "path");
    let exts_j = extract_member(&mut members, "extensions");
    let mut message = String::new();
    message.append("Upstream error: ");
    let msg_is_str = match &msg_j {
        Some(JsonValue::Str(_)) => true,
        _ => false,
    };
    if msg_is_str {
        match &msg_j {
            Some(JsonValue::Str(s)) => {
                message.append(s.as_str());
            },
            _ => {},
        }
    }
    // Translate the path, remembering how many segments resolved.
    let mut fully: bool = true;
    let mut resolved: usize = 0;
    let mut path: Option<Vec<ResponseEdge>> = None;
    match &path_j {
        None => {},
        Some(JsonValue::Null) => {},
        Some(JsonValue::Arr(p_items)) => {
            if entities {
                let matches_shape = ent_path_head(refs, p_items);
                match matches_shape {
                    Some(v) => {
                        let mut edges = copy_edges(&refs[v].path);
                        let (rest, f) = convert_path(keys, p_items, 2);
                        let rest_n = rest.len();
                        let mut rest = rest;
                        edges.append(&mut rest);
                        path = Some(edges);
                        fully = f;
                        proof {
                            let pr = path_result(
                                keys.model(),
                                refs_model(refs@),
                                entities,
                                path_j,
                            );
                            assert(refs_model(refs@)[v as int].path == refs@[v as int].path@);
                            assert(pr.0 == Some(refs_model(refs@)[v as int].path
                                + convert_path_rec(keys.model(), p_items@, 2).edges));
                        }
                        let np = p_items.len();
                        proof {
                            lemma_convert_path_len(keys.model(), p_items@, 2);
                            assert(rest_n <= np - 2);
                        }
                        resolved = 2 + rest_n;
                    },
                    None => {
                        fully = false;
                    },
                }
            } else {
                let converter = RootErrorPathConverter::new(keys);
                let (edges, f) = converter.convert(p_items);
                resolved = edges.len();
                path = Some(edges);
                fully = f;
                proof {
                    lemma_convert_path_len(keys.model(), p_items@, 0);
                }
            }
        },
        Some(_) => {
            fully = false;
        },
    }
    // Stash the untranslated upstream parts in the extensions.
    let mut extensions: Vec<(String, JsonValue)> = Vec::new();
    match locs_j {
        Some(l) => {
            let is_null = match &l {
                JsonValue::Null => true,
                _ => false,
            };
            if !is_null {
                extensions.push(("upstream_locations".to_owned(), l));
            }
        },
        None => {},
    }
    if !fully {
        // Only the untranslated remainder of the path is kept.
        match path_j {
            Some(JsonValue::Arr(p_items)) => {
                let ghost items0 = p_items@;
                let mut p_items = p_items;
                proof {
                    assert(resolved as int == resolved_count(
                        keys.model(),
                        refs_model(refs@),
                        entities,
                        Some(JsonValue::Arr(p_items)),
                    ));
                    assert(resolved <= p_items@.len());
                }
                let rem = p_items.split_off(resolved);
                proof {
                    crate::json::lemma_view_arr(rem@);
                    crate::json::lemma_view_arr(items0);
                    assert(crate::json::view_arr(rem@) =~= crate::json::view_arr(
                        items0,
                    ).subrange(resolved as int, items0.len() as int));
                }
                extensions.push(("upstream_path".to_owned(), JsonValue::Arr(rem)));
            },
            Some(p) => {
                extensions.push(("upstream_path".to_owned(), p));
            },
            None => {},
        }
    }
    match exts_j {
        Some(x) => {
            let is_null = match &x {
                JsonValue::Null => true,
                _ => false,
            };
            if !is_null {
                extensions.push(("upstream_extensions".to_owned(), x));
            }
        },
        None => {},
    }
    let r = GraphqlError { message, locations: Vec::new(), path, extensions };
    proof {
        assert(err_model(r).extensions =~= spec_entry.extensions);
        assert(err_model(r).path == spec_entry.path);
        assert(err_model(r).locations =~= spec_entry.locations);
        assert(err_model(r) =~~= spec_entry);
    }
    r
}

/// Checks the `_entities`/index head of an entity-plan error path; hands
/// back the representation index when it is in range.
fn ent_path_head(
    refs: &Vec<crate::write::ResponseObjectRef>,
    items: &Vec<JsonValue>,
) -> (r: Option<usize>)
    ensures
        ({
            let ok = items@.len() >= 2 && (match items@[0] {
                JsonValue::Str(s) => s@ == "_entities"@,
                _ => false,
            }) && (match items@[1] {
                JsonValue::Num(t) => crate::dser::num_is_integral(t@)
                    && crate::dser::int_text_ok(t@) && 0 <= crate::dser::int_text_value(t@)
                    < refs@.len(),
                _ => false,
            });
            match r {
                Some(v) => ok && (match items@[1] {
                    JsonValue::Num(t) => v as int == crate::dser::int_text_value(t@),
                    _ => false,
                }),
                None => !ok,
            }
        }),
{
    if items.len() < 2 {
        return None;
    }
    let head_ok = match &items[0] {
        JsonValue::Str(s) => crate::shape::string_eq_str(s, "_entities"),
        _ => false,
    };
    if !head_ok {
        return None;
    }
    match &items[1] {
        JsonValue::Num(t) => {
            if !crate::dser::num_text_is_integral(t.as_str()) {
                return None;
            }
            match crate::dser::parse_int_text(t.as_str()) {
                Some(v) => {
                    if v >= 0 && (v as u64) < (refs.len() as u64) {
                        Some(v as usize)
                    } else {
                        None
                    }
                },
                None => None,
            }
        },
        _ => None,
    }
}

// ---------------------------------------------------------------------------
// The whole response body.
// ---------------------------------------------------------------------------

pub open spec fn msg_more_entities() -> Seq<char> {
    "Received more entities than expected"@
}

pub open spec fn msg_invalid_body() -> Seq<char> {
    "Error decoding response from upstream: Expected a response object"@
}

pub open spec fn plain_err(message: Seq<char>) -> ErrModel {
    ErrModel { message, locations: Seq::empty(), path: None, extensions: Seq::empty() }
}

/// Applies the representations of `_entities` to the boundary objects, in
/// order, one update slot each, until either runs out.
pub open spec fn entities_fold(
    tables: Seq<crate::shape::SetModel>,
    sid: int,
    refs: Seq<crate::write::RefModel>,
    items: Seq<JsonValue>,
    st: SeedState,
    slots: Seq<SlotModel>,
) -> (SeedState, Seq<SlotModel>)
    decreases items.len(),
{
    if items.len() == 0 || slots.len() >= refs.len() {
        (st, slots)
    } else {
        let u = slots.len() as int;
        let st_u = SeedState { path: refs[u].path, flag: false, ..st };
        let out = update_spec(tables, st_u, sid, items[0]);
        entities_fold(tables, sid, refs, items.drop_first(), out.st, slots.push(out.slot))
    }
}

/// Remaining boundary objects with no representation fail, so that their
/// paths propagate.
pub open spec fn pad_failed(slots: Seq<SlotModel>, n: int) -> Seq<SlotModel>
    decreases n - slots.len(),
{
    if slots.len() >= n {
        slots
    } else {
        pad_failed(slots.push(SlotModel::Failed), n)
    }
}

/// What the `data` member does to the part: for a root plan, one update of
/// the single boundary object; for an entity plan, one update per
/// representation, plus one error when the upstream sent more entities than
/// expected. A shorter list leaves the unassigned boundary objects failed,
/// so their ancestors' nullability rules apply, with no extra error.
pub open spec fn data_fold(
    tables: Seq<crate::shape::SetModel>,
    sid: int,
    refs: Seq<crate::write::RefModel>,
    entities: bool,
    st: SeedState,
    data_j: Option<JsonValue>,
) -> (SeedState, Seq<SlotModel>, Seq<ErrModel>) {
    if !entities {
        match data_j {
            None => (st, Seq::empty(), Seq::empty()),
            Some(dj) => {
                let st_u = SeedState { path: refs[0].path, flag: false, ..st };
                let out = update_spec(tables, st_u, sid, dj);
                (out.st, seq![out.slot], Seq::empty())
            },
        }
    } else {
        match data_j {
            Some(JsonValue::Obj(members)) => {
                let (ents_j, _) = extract_spec(members@, "_entities"@);
                match ents_j {
                    Some(JsonValue::Arr(items)) => {
                        let r = entities_fold(tables, sid, refs, items@, st, Seq::empty());
                        let extra = if items@.len() > refs.len() {
                            seq![plain_err(msg_more_entities())]
                        } else {
                            Seq::<ErrModel>::empty()
                        };
                        (r.0, r.1, extra)
                    },
                    _ => (st, Seq::empty(), Seq::empty()),
                }
            },
            _ => (st, Seq::empty(), Seq::empty()),
        }
    }
}

/// The state with the path and flag cleared; the fold below overrides both
/// at every step, so only the rest matters.
pub open spec fn norm_st(st: SeedState) -> SeedState {
    SeedState { path: Seq::empty(), flag: false, ..st }
}

/// Folding the representations from two starts that differ only in path and
/// flag gives the same slots and the same state up to path and flag.
pub proof fn lemma_fold_start_norm(
    tables: Seq<crate::shape::SetModel>,
    sid: int,
    refs: Seq<crate::write::RefModel>,
    items: Seq<JsonValue>,
    st_a: SeedState,
    st_b: SeedState,
    slots: Seq<SlotModel>,
)
    requires
        norm_st(st_a) == norm_st(st_b),
    ensures
        norm_st(entities_fold(tables, sid, refs, items, st_a, slots).0) == norm_st(
            entities_fold(tables, sid, refs, items, st_b, slots).0,
        ),
        entities_fold(tables, sid, refs, items, st_a, slots).1 == entities_fold(
            tables,
            sid,
            refs,
            items,
            st_b,
            slots,
        ).1,
{
    if items.len() > 0 && slots.len() < refs.len() {
        let u = slots.len() as int;
        assert((SeedState { path: refs[u].path, flag: false, ..st_a }) =~~= (SeedState {
            path: refs[u].path,
            flag: false,
            ..st_b
        }));
    } else {
        assert(norm_st(st_a) =~~= norm_st(st_b));
    }
}

#[verifier::ext_equal]
pub struct RespOut {
    pub st: SeedState,
    pub slots: Seq<SlotModel>,
    pub status: crate::status::GraphqlResponseStatus,
}

/// What ingesting a whole upstream response body does: the first `data`
/// member drives the update seeds, the first `errors` member is rewritten
/// into local errors, every other member is ignored. The status reflects the
/// upstream error count and whether data came at all.
pub open spec fn resp_spec(
    tables: Seq<crate::shape::SetModel>,
    keys: Seq<Seq<char>>,
    refs: Seq<crate::write::RefModel>,
    sid: int,
    entities: bool,
    st0: SeedState,
    body: JsonValue,
) -> RespOut {
    match body {
        JsonValue::Obj(members) => {
            let (data_j, m1) = extract_spec(members@, "data"@);
            let (errs_j, _) = extract_spec(m1, "errors"@);
            let errs_items = match errs_j {
                Some(JsonValue::Arr(it)) => it@,
                _ => Seq::<JsonValue>::empty(),
            };
            let converted = convert_errors_list(keys, refs, entities, errs_items);
            let dr = data_fold(tables, sid, refs, entities, st0, data_j);
            let st3 = SeedState { errors: dr.0.errors + dr.2 + converted, ..dr.0 };
            let status = if converted.len() == 0 {
                crate::status::GraphqlResponseStatus::Success
            } else if data_j is Some {
                crate::status::GraphqlResponseStatus::FieldError {
                    count: converted.len() as u64,
                    data_is_null: data_j == Some(JsonValue::Null),
                }
            } else {
                crate::status::GraphqlResponseStatus::RequestError {
                    count: converted.len() as u64,
                }
            };
            RespOut { st: st3, slots: pad_failed(dr.1, refs.len() as int), status }
        },
        _ => RespOut {
            st: SeedState { errors: st0.errors.push(plain_err(msg_invalid_body())), ..st0 },
            slots: pad_failed(Seq::empty(), refs.len() as int),
            status: crate::status::GraphqlResponseStatus::RequestError { count: 1 },
        },
    }
}

/// Ingests a whole upstream response body into the part. Every boundary
/// object ends up with a decided update slot.
#[verifier::loop_isolation(false)]
pub fn ingest_upstream_response(
    shapes: &CollectedShapes,
    part: &mut ResponsePart,
    keys: &crate::shape::ResponseKeys,
    sid: usize,
    entities: bool,
    body: JsonValue,
) -> (status: crate::status::GraphqlResponseStatus)
    requires
        sid < shapes.sets@.len(),
        old(part).updates@.len() == 0,
        !entities ==> old(part).root_response_objects@.len() == 1,
    ensures
        ({
            let st0 = part_seed_state(*old(part), Seq::empty(), false);
            let out = resp_spec(
                shapes_model(*shapes),
                keys.model(),
                refs_model(old(part).root_response_objects@),
                sid as int,
                entities,
                st0,
                body,
            );
            &&& part_seed_state(*final(part), out.st.path, out.st.flag) == out.st
            &&& final(part).updates@.map_values(|s: UpdateSlot| crate::write::slot_model(s))
                == out.slots
            &&& status == out.status
        }),
        final(part).data.id == old(part).data.id,
        final(part).root_response_objects == old(part).root_response_objects,
        final(part).error_paths_to_propagate == old(part).error_paths_to_propagate,
        final(part).boundary_ids_start == old(part).boundary_ids_start,
{
    let ghost tbl = shapes_model(*shapes);
    let ghost st0 = part_seed_state(*part, Seq::empty(), false);
    let ghost refs_m = refs_model(part.root_response_objects@);
    let ghost out_g = resp_spec(tbl, keys.model(), refs_m, sid as int, entities, st0, body);
    let nrefs = part.root_response_objects.len();
    let is_obj = match &body {
        JsonValue::Obj(_) => true,
        _ => false,
    };
    if !is_obj {
        let invalid = GraphqlError {
            message: "Error decoding response from upstream: Expected a response object"
                .to_owned(),
            locations: Vec::new(),
            path: None,
            extensions: Vec::new(),
        };
        let ghost em = err_model(invalid);
        let ghost pre_errors = part.errors@;
        part.push_error(invalid);
        proof {
            assert(em =~~= plain_err(msg_invalid_body()));
            lemma_errors_map_push(pre_errors, invalid);
            let st3 = SeedState { errors: st0.errors.push(plain_err(msg_invalid_body())), ..st0 };
            assert(part_seed_state(*part, st3.path, st3.flag).errors =~= st3.errors);
            assert(part_seed_state(*part, st3.path, st3.flag) =~~= st3);
        }
        let ghost empty_updates = part.updates@;
        fill_failed(part);
        proof {
            assert(empty_updates.map_values(|x: UpdateSlot| crate::write::slot_model(x))
                =~= Seq::<SlotModel>::empty());
            assert(refs_m.len() == old(part).root_response_objects@.len());
            assert(part.updates@.map_values(|x: UpdateSlot| crate::write::slot_model(x))
                == pad_failed(Seq::<SlotModel>::empty(), refs_m.len() as int));
            assert(part.updates@.map_values(|x: UpdateSlot| crate::write::slot_model(x))
                == out_g.slots);
            assert(part_seed_state(*part, out_g.st.path, out_g.st.flag) =~~= out_g.st);
            assert(out_g.status == crate::status::GraphqlResponseStatus::RequestError {
                count: 1,
            });
        }
        return crate::status::GraphqlResponseStatus::RequestError { count: 1 };
    }
    let ghost body0 = body;
    let mut members = match body {
        JsonValue::Obj(m) => m,
        _ => Vec::new(),
    };
    let ghost members0 = members@;
    let data_j = extract_member(&mut members, "data");
    let errs_j = extract_member(&mut members, "errors");
    let ghost data_j0 = data_j;
    let data_seen = data_j.is_some();
    let data_is_null = match &data_j {
        Some(JsonValue::Null) => true,
        _ => false,
    };
    let ghost dfold = data_fold(tbl, sid as int, refs_m, entities, st0, data_j0);
    proof {
        assert(refs_m.len() == part.root_response_objects@.len());
    }
    // Rewrite the upstream errors first: the conversion only reads.
    let converted = match errs_j {
        Some(JsonValue::Arr(it)) => convert_errors(keys, &part.root_response_objects, entities, it),
        _ => Vec::new(),
    };
    let ghost converted_m = converted@.map_values(|e: GraphqlError| err_model(e));
    let n_conv = converted.len();
    proof {
        let (data_js, m1) = extract_spec(members0, "data"@);
        let (errs_js, _) = extract_spec(m1, "errors"@);
        let errs_items = match errs_js {
            Some(JsonValue::Arr(it)) => it@,
            _ => Seq::<JsonValue>::empty(),
        };
        assert(converted_m =~= convert_errors_list(keys.model(), refs_m, entities, errs_items));
    }
    // Feed the data to the update seeds.
    if !entities {
        match data_j {
            None => {
                proof {
                    assert(part_seed_state(*part, Seq::empty(), false) =~~= (SeedState {
                        path: Seq::empty(),
                        flag: false,
                        ..dfold.0
                    }));
                    assert(part.updates@.map_values(|x: UpdateSlot| crate::write::slot_model(x))
                        =~= dfold.1);
                }
            },
            Some(dj) => {
                let ghost before_u = part.updates@;
                let u = match part.next_writer() {
                    Some(u) => u,
                    None => 0,
                };
                let bp = copy_edges(&part.root_response_objects[0].path);
                let ghost st_pre = part_seed_state(*part, bp@, false);
                ingest_update(shapes, part, sid, u, bp, dj);
                proof {
                    assert(st_pre =~~= (SeedState {
                        path: refs_m[0].path,
                        flag: false,
                        ..st0
                    }));
                    let upd = update_spec(tbl, st_pre, sid as int, dj);
                    assert(part_seed_state(*part, Seq::empty(), false) =~~= (SeedState {
                        path: Seq::empty(),
                        flag: false,
                        ..dfold.0
                    }));
                    lemma_slots_map_push(before_u, UpdateSlot::Reserved);
                    assert(part.updates@.map_values(|x: UpdateSlot| crate::write::slot_model(x))
                        =~~= dfold.1);
                }
            },
        }
    } else {
        let mut had_array = false;
        match data_j {
            Some(JsonValue::Obj(dm)) => {
                let mut dm = dm;
                let ents_j = extract_member(&mut dm, "_entities");
                match ents_j {
                    Some(JsonValue::Arr(items)) => {
                        had_array = true;
                        let ghost items0 = items@;
                        let n_items = items.len();
                        let mut items = items;
                        let ghost fold_full = entities_fold(
                            tbl,
                            sid as int,
                            refs_m,
                            items0,
                            st0,
                            Seq::empty(),
                        );
                        proof {
                            assert(part.updates@.map_values(
                                |x: UpdateSlot| crate::write::slot_model(x),
                            ) =~= Seq::<SlotModel>::empty());
                            assert(part_seed_state(*part, Seq::empty(), false) =~~= st0);
                        }
                        while items.len() > 0 && part.updates.len() < part.root_response_objects.len()
                            invariant
                                part.updates@.len() + items@.len() == items0.len(),
                                part.updates@.len() <= refs_m.len(),
                                part.data.id == old(part).data.id,
                                part.root_response_objects == old(part).root_response_objects,
                                part.error_paths_to_propagate == old(
                                    part,
                                ).error_paths_to_propagate,
                                part.boundary_ids_start == old(part).boundary_ids_start,
                                norm_st(entities_fold(
                                    tbl,
                                    sid as int,
                                    refs_m,
                                    items@,
                                    part_seed_state(*part, Seq::empty(), false),
                                    part.updates@.map_values(
                                        |s: UpdateSlot| crate::write::slot_model(s),
                                    ),
                                ).0) == norm_st(fold_full.0),
                                entities_fold(
                                    tbl,
                                    sid as int,
                                    refs_m,
                                    items@,
                                    part_seed_state(*part, Seq::empty(), false),
                                    part.updates@.map_values(
                                        |s: UpdateSlot| crate::write::slot_model(s),
                                    ),
                                ).1 == fold_full.1,
                            decreases items@.len(),
                        {
                            let ghost pre_items = items@;
                            let ghost st_head = part_seed_state(*part, Seq::empty(), false);
                            let ghost slots_head = part.updates@.map_values(
                                |s: UpdateSlot| crate::write::slot_model(s),
                            );
                            let item = items.remove(0);
                            proof {
                                assert(pre_items.drop_first() =~= items@);
                            }
                            let ghost before_push = part.updates@;
                            let u = match part.next_writer() {
                                Some(u) => u,
                                None => 0,
                            };
                            proof {
                                lemma_slots_map_push(before_push, UpdateSlot::Reserved);
                            }
                            let bp = copy_edges(&part.root_response_objects[u].path);
                            let ghost st_pre = part_seed_state(*part, Seq::empty(), false);
                            let ghost upd_pre = part.updates@;
                            ingest_update(shapes, part, sid, u, bp, item);
                            proof {
                                let st_u = SeedState {
                                    path: refs_m[u as int].path,
                                    flag: false,
                                    ..st_pre
                                };
                                assert(bp@ == refs_m[u as int].path);
                                let upd = update_spec(tbl, st_u, sid as int, pre_items[0]);
                                assert(part_seed_state(*part, Seq::empty(), false) =~~= (SeedState {
                                    path: Seq::empty(),
                                    flag: false,
                                    ..upd.st
                                }));
                                assert(slots_head.len() == before_push.len());
                                assert(u as int == slots_head.len());
                                assert forall|t: int| #![trigger part.updates@[t]]
                                    0 <= t < part.updates@.len()
                                    implies part.updates@.map_values(
                                    |s: UpdateSlot| crate::write::slot_model(s),
                                )[t] == slots_head.push(upd.slot)[t] by {
                                    if t != u {
                                        assert(part.updates@[t] == upd_pre[t]);
                                    }
                                }
                                assert(part.updates@.map_values(
                                    |s: UpdateSlot| crate::write::slot_model(s),
                                ) =~= slots_head.push(upd.slot));
                                // One fold step from the head state.
                                assert(st_pre =~~= st_head);
                                let st_u_fold = SeedState {
                                    path: refs_m[slots_head.len() as int].path,
                                    flag: false,
                                    ..st_head
                                };
                                assert(st_u_fold =~~= st_u);
                                assert(entities_fold(
                                    tbl,
                                    sid as int,
                                    refs_m,
                                    pre_items,
                                    st_head,
                                    slots_head,
                                ) == entities_fold(
                                    tbl,
                                    sid as int,
                                    refs_m,
                                    items@,
                                    upd.st,
                                    slots_head.push(upd.slot),
                                ));
                                lemma_fold_start_norm(
                                    tbl,
                                    sid as int,
                                    refs_m,
                                    items@,
                                    upd.st,
                                    part_seed_state(*part, Seq::empty(), false),
                                    slots_head.push(upd.slot),
                                );
                            }
                        }
                        // Anything beyond the expected representations is an
                        // extra-entities error; anything unassigned fails.
                        proof {
                            assert(items@.len() == 0 || part.updates@.len() == refs_m.len());
                            assert(part_seed_state(*part, Seq::empty(), false) =~~= norm_st(
                                fold_full.0,
                            ));
                            assert(part.updates@.map_values(
                                |s: UpdateSlot| crate::write::slot_model(s),
                            ) == fold_full.1);
                            assert(items0.len() == n_items);
                        }
                        if items.len() > 0 {
                            let more = GraphqlError {
                                message: "Received more entities than expected".to_owned(),
                                locations: Vec::new(),
                                path: None,
                                extensions: Vec::new(),
                            };
                            let ghost em = err_model(more);
                            let ghost pre_errors = part.errors@;
                            part.push_error(more);
                            proof {
                                assert(em =~~= plain_err(msg_more_entities()));
                                lemma_errors_map_push(pre_errors, more);
                                assert(n_items > refs_m.len());
                            }
                        } else {
                            proof {
                                assert(n_items <= refs_m.len() || items@.len() == 0);
                            }
                        }
                    },
                    _ => {},
                }
            },
            _ => {},
        }
    }
    proof {
        assert(part_seed_state(*part, Seq::empty(), false) =~~= (SeedState {
            path: Seq::empty(),
            flag: false,
            errors: part.errors@.map_values(|x: GraphqlError| err_model(x)),
            ..dfold.0
        }));
        assert(part.updates@.map_values(|x: UpdateSlot| crate::write::slot_model(x)) =~~= dfold.1);
        assert(part.errors@.map_values(|x: GraphqlError| err_model(x)) =~= dfold.0.errors
            + dfold.2);
    }
    let ghost pre_fill_errors = part.errors@;
    fill_failed(part);
    let ghost pre_push_errors = part.errors@;
    let ghost pre_push_updates_m = part.updates@.map_values(
        |x: UpdateSlot| crate::write::slot_model(x),
    );
    let mut converted = converted;
    part.push_errors(converted);
    proof {
        lemma_errors_map_append(pre_push_errors, converted@);
        assert(part.errors@.map_values(|x: GraphqlError| err_model(x)) =~= dfold.0.errors
            + dfold.2 + converted_m);
        assert(part_seed_state(*part, out_g.st.path, out_g.st.flag).errors =~= out_g.st.errors);
        assert(part_seed_state(*part, out_g.st.path, out_g.st.flag) =~~= out_g.st);
        assert(part.updates@.map_values(|s: UpdateSlot| crate::write::slot_model(s))
            =~= out_g.slots);
    }
    if n_conv == 0 {
        crate::status::GraphqlResponseStatus::Success
    } else if data_seen {
        crate::status::GraphqlResponseStatus::FieldError {
            count: n_conv as u64,
            data_is_null,
        }
    } else {
        crate::status::GraphqlResponseStatus::RequestError { count: n_conv as u64 }
    }
}

/// Marks every still-undecided boundary object as failed.
#[verifier::loop_isolation(false)]
fn fill_failed(part: &mut ResponsePart)
    ensures
        final(part).updates@.map_values(|s: UpdateSlot| crate::write::slot_model(s)) == pad_failed(
            old(part).updates@.map_values(|s: UpdateSlot| crate::write::slot_model(s)),
            old(part).root_response_objects@.len() as int,
        ),
        final(part).data == old(part).data,
        final(part).errors == old(part).errors,
        final(part).root_response_objects == old(part).root_response_objects,
        final(part).error_paths_to_propagate == old(part).error_paths_to_propagate,
        final(part).boundary_ids_start == old(part).boundary_ids_start,
        final(part).boundaries == old(part).boundaries,
{
    let ghost target = pad_failed(
        part.updates@.map_values(|s: UpdateSlot| crate::write::slot_model(s)),
        part.root_response_objects@.len() as int,
    );
    loop
        invariant
            part.data == old(part).data,
            part.errors == old(part).errors,
            part.root_response_objects == old(part).root_response_objects,
            part.error_paths_to_propagate == old(part).error_paths_to_propagate,
            part.boundary_ids_start == old(part).boundary_ids_start,
            part.boundaries == old(part).boundaries,
            pad_failed(
                part.updates@.map_values(|s: UpdateSlot| crate::write::slot_model(s)),
                part.root_response_objects@.len() as int,
            ) == target,
        decreases part.root_response_objects@.len() - part.updates@.len(),
    {
        let ghost before = part.updates@;
        let u = match part.next_writer() {
            Some(u) => u,
            None => {
                proof {
                    assert(part.updates@.map_values(|s: UpdateSlot| crate::write::slot_model(s))
                        == target);
                }
                return;
            },
        };
        proof {
            lemma_slots_map_push(before, UpdateSlot::Reserved);
        }
        let ghost pre_updates = part.updates@;
        let ghost base = old(part).updates@;
        part.set_update(u, UpdateSlot::Error);
        proof {
            lemma_slots_map_update(pre_updates, u as int, UpdateSlot::Error);
            let m_pre = pre_updates.map_values(|s: UpdateSlot| crate::write::slot_model(s));
            let mb = before.map_values(|s: UpdateSlot| crate::write::slot_model(s));
            assert(part.updates@.map_values(|s: UpdateSlot| crate::write::slot_model(s))
                =~= m_pre.update(u as int, SlotModel::Failed));
            assert(m_pre =~= mb.push(SlotModel::Pending));
            assert(mb.len() == before.len());
            assert(u as int == before.len());
            assert(u as int == mb.len());
            assert(m_pre.update(u as int, SlotModel::Failed) =~~= mb.push(SlotModel::Failed));
            assert(mb.len() < part.root_response_objects@.len());
            assert(pad_failed(mb, part.root_response_objects@.len() as int) == pad_failed(
                mb.push(SlotModel::Failed),
                part.root_response_objects@.len() as int,
            ));
        }
    }
}


/// Mapping to models commutes with push and update.
pub proof fn lemma_errors_map_push(s: Seq<GraphqlError>, e: GraphqlError)
    ensures
        (s.push(e)).map_values(|x: GraphqlError| err_model(x)) =~= s.map_values(
            |x: GraphqlError| err_model(x),
        ).push(err_model(e)),
{
    assert forall|t: int| #![trigger s.push(e)[t]] 0 <= t < s.len() + 1
        implies (s.push(e)).map_values(|x: GraphqlError| err_model(x))[t] == s.map_values(
        |x: GraphqlError| err_model(x),
    ).push(err_model(e))[t] by {
        if t < s.len() {
            assert(s.push(e)[t] == s[t]);
        }
    }
}

pub proof fn lemma_errors_map_append(a: Seq<GraphqlError>, b: Seq<GraphqlError>)
    ensures
        (a + b).map_values(|x: GraphqlError| err_model(x)) =~= a.map_values(
            |x: GraphqlError| err_model(x),
        ) + b.map_values(|x: GraphqlError| err_model(x)),
{
    assert forall|t: int| #![trigger (a + b)[t]] 0 <= t < a.len() + b.len()
        implies (a + b).map_values(|x: GraphqlError| err_model(x))[t] == (a.map_values(
        |x: GraphqlError| err_model(x),
    ) + b.map_values(|x: GraphqlError| err_model(x)))[t] by {
        if t < a.len() {
            assert((a + b)[t] == a[t]);
        } else {
            assert((a + b)[t] == b[t - a.len()]);
        }
    }
}

pub proof fn lemma_slots_map_push(s: Seq<UpdateSlot>, v: UpdateSlot)
    ensures
        (s.push(v)).map_values(|x: UpdateSlot| crate::write::slot_model(x)) =~= s.map_values(
            |x: UpdateSlot| crate::write::slot_model(x),
        ).push(crate::write::slot_model(v)),
{
    assert forall|t: int| #![trigger s.push(v)[t]] 0 <= t < s.len() + 1
        implies (s.push(v)).map_values(|x: UpdateSlot| crate::write::slot_model(x))[t]
        == s.map_values(|x: UpdateSlot| crate::write::slot_model(x)).push(
        crate::write::slot_model(v),
    )[t] by {
        if t < s.len() {
            assert(s.push(v)[t] == s[t]);
        }
    }
}

pub proof fn lemma_slots_map_update(s: Seq<UpdateSlot>, i: int, v: UpdateSlot)
    requires
        0 <= i < s.len(),
    ensures
        (s.update(i, v)).map_values(|x: UpdateSlot| crate::write::slot_model(x)) =~= s.map_values(
            |x: UpdateSlot| crate::write::slot_model(x),
        ).update(i, crate::write::slot_model(v)),
{
    assert forall|t: int| #![trigger s.update(i, v)[t]] 0 <= t < s.len()
        implies (s.update(i, v)).map_values(|x: UpdateSlot| crate::write::slot_model(x))[t]
        == s.map_values(|x: UpdateSlot| crate::write::slot_model(x)).update(
        i,
        crate::write::slot_model(v),
    )[t] by {
        if t != i {
            assert(s.update(i, v)[t] == s[t]);
        }
    }
}


// ---------------------------------------------------------------------------
// Self-containment through the update and response layers.
// ---------------------------------------------------------------------------

use crate::dser::{lemma_fields_spec_swf, lemma_pstate_same, pstate_wf, value_swf};

/// Every field a decided slot carries stays inside the part.
pub open spec fn slot_swf(st: SeedState, s: SlotModel) -> bool {
    match s {
        SlotModel::Fields(fs) => forall|t: int|
            0 <= t < fs.len() ==> value_swf(st, (#[trigger] fs[t]).1),
        _ => true,
    }
}

pub proof fn lemma_update_spec_swf(
    tables: Seq<crate::shape::SetModel>,
    st: SeedState,
    sid: int,
    data: JsonValue,
)
    requires
        pstate_wf(st),
    ensures
        ({
            let out = update_spec(tables, st, sid, data);
            &&& pstate_wf(out.st)
            &&& out.st.part_id == st.part_id
            &&& out.st.data.objects.len() >= st.data.objects.len()
            &&& out.st.data.lists.len() >= st.data.lists.len()
            &&& out.st.boundaries.len() == st.boundaries.len()
            &&& slot_swf(out.st, out.slot)
        }),
{
    let set = tables[sid];
    match data {
        JsonValue::Null => {
            let out = update_spec(tables, st, sid, data);
            match first_required(set.fields, 0) {
                None => {
                    assert forall|t: int|
                        0 <= t < all_null_fields(set.fields).len() implies value_swf(
                        out.st,
                        (#[trigger] all_null_fields(set.fields)[t]).1,
                    ) by {
                        assert(all_null_fields(set.fields)[t].1 == ResponseValue::Null);
                    }
                },
                Some(_) => {
                    lemma_pstate_same(st, out.st);
                },
            }
        },
        JsonValue::Obj(members) => {
            lemma_fields_spec_swf(tables, st, members@, set.fields, 0);
            crate::dser::lemma_fields_spec_frame(tables, st, members@, set.fields, 0);
        },
        _ => {
            let out = update_spec(tables, st, sid, data);
            lemma_pstate_same(st, out.st);
        },
    }
}

pub proof fn lemma_entities_fold_swf(
    tables: Seq<crate::shape::SetModel>,
    sid: int,
    refs: Seq<crate::write::RefModel>,
    items: Seq<JsonValue>,
    st: SeedState,
    slots: Seq<SlotModel>,
)
    requires
        pstate_wf(st),
        forall|t: int| 0 <= t < slots.len() ==> slot_swf(st, #[trigger] slots[t]),
    ensures
        ({
            let r = entities_fold(tables, sid, refs, items, st, slots);
            &&& pstate_wf(r.0)
            &&& r.0.part_id == st.part_id
            &&& r.0.data.objects.len() >= st.data.objects.len()
            &&& r.0.data.lists.len() >= st.data.lists.len()
            &&& r.0.boundaries.len() == st.boundaries.len()
            &&& forall|t: int| 0 <= t < r.1.len() ==> slot_swf(r.0, #[trigger] r.1[t])
        }),
    decreases items.len(),
{
    if items.len() == 0 || slots.len() >= refs.len() {
    } else {
        let u = slots.len() as int;
        let st_u = SeedState { path: refs[u].path, flag: false, ..st };
        lemma_pstate_same(st, st_u);
        lemma_update_spec_swf(tables, st_u, sid, items[0]);
        let out = update_spec(tables, st_u, sid, items[0]);
        assert forall|t: int| 0 <= t < slots.push(out.slot).len() implies slot_swf(
            out.st,
            #[trigger] slots.push(out.slot)[t],
        ) by {
            if t < slots.len() {
                assert(slots.push(out.slot)[t] == slots[t]);
                lemma_slot_swf_grow(st, out.st, slots[t]);
            }
        }
        lemma_entities_fold_swf(tables, sid, refs, items.drop_first(), out.st, slots.push(out.slot));
    }
}

/// A self-contained slot stays self-contained as the part grows.
pub proof fn lemma_slot_swf_grow(a: SeedState, b: SeedState, s: SlotModel)
    requires
        slot_swf(a, s),
        b.part_id == a.part_id,
        b.data.objects.len() >= a.data.objects.len(),
        b.data.lists.len() >= a.data.lists.len(),
    ensures
        slot_swf(b, s),
{
    match s {
        SlotModel::Fields(fs) => {
            assert forall|t: int| 0 <= t < fs.len() implies value_swf(
                b,
                (#[trigger] fs[t]).1,
            ) by {
                crate::dser::lemma_swf_grow(a, b, fs[t].1);
            }
        },
        _ => {},
    }
}

pub proof fn lemma_pad_failed_props(slots: Seq<SlotModel>, n: int)
    ensures
        pad_failed(slots, n).len() >= slots.len(),
        pad_failed(slots, n).len() >= n,
        slots.len() <= n ==> pad_failed(slots, n).len() == n,
        slots.len() >= n ==> pad_failed(slots, n).len() == slots.len(),
        forall|t: int|
            0 <= t < pad_failed(slots, n).len() ==> (#[trigger] pad_failed(slots, n)[t]) == (if t
                < slots.len() {
                slots[t]
            } else {
                SlotModel::Failed
            }),
    decreases n - slots.len(),
{
    if slots.len() < n {
        lemma_pad_failed_props(slots.push(SlotModel::Failed), n);
    }
}

/// Whatever the upstream body held, the part stays self-contained and every
/// slot's fields stay inside it.
pub proof fn lemma_resp_spec_swf(
    tables: Seq<crate::shape::SetModel>,
    keys: Seq<Seq<char>>,
    refs: Seq<crate::write::RefModel>,
    sid: int,
    entities: bool,
    st0: SeedState,
    body: JsonValue,
)
    requires
        pstate_wf(st0),
        !entities ==> refs.len() == 1,
    ensures
        ({
            let out = resp_spec(tables, keys, refs, sid, entities, st0, body);
            &&& pstate_wf(out.st)
            &&& out.st.part_id == st0.part_id
            &&& out.st.boundaries.len() == st0.boundaries.len()
            &&& out.slots.len() == refs.len()
            &&& forall|t: int| 0 <= t < out.slots.len() ==> slot_swf(out.st, #[trigger] out.slots[t])
        }),
{
    match body {
        JsonValue::Obj(members) => {
            let (data_j, m1) = extract_spec(members@, "data"@);
            let (errs_j, _) = extract_spec(m1, "errors"@);
            let dr = data_fold(tables, sid, refs, entities, st0, data_j);
            lemma_data_fold_swf(tables, sid, refs, entities, st0, data_j);
            let out = resp_spec(tables, keys, refs, sid, entities, st0, body);
            lemma_pstate_same(dr.0, out.st);
            lemma_pad_failed_props(dr.1, refs.len() as int);
            assert(out.slots.len() == refs.len());
            assert forall|t: int| 0 <= t < out.slots.len() implies slot_swf(
                out.st,
                #[trigger] out.slots[t],
            ) by {
                if t < dr.1.len() {
                    assert(out.slots[t] == dr.1[t]);
                    lemma_slot_swf_grow(dr.0, out.st, dr.1[t]);
                } else {
                    assert(out.slots[t] == SlotModel::Failed);
                }
            }
        },
        _ => {
            let out = resp_spec(tables, keys, refs, sid, entities, st0, body);
            lemma_pstate_same(st0, out.st);
            lemma_pad_failed_props(Seq::<SlotModel>::empty(), refs.len() as int);
        },
    }
}

pub proof fn lemma_data_fold_swf(
    tables: Seq<crate::shape::SetModel>,
    sid: int,
    refs: Seq<crate::write::RefModel>,
    entities: bool,
    st: SeedState,
    data_j: Option<JsonValue>,
)
    requires
        pstate_wf(st),
        !entities ==> refs.len() == 1,
    ensures
        ({
            let dr = data_fold(tables, sid, refs, entities, st, data_j);
            &&& pstate_wf(dr.0)
            &&& dr.0.part_id == st.part_id
            &&& dr.0.data.objects.len() >= st.data.objects.len()
            &&& dr.0.data.lists.len() >= st.data.lists.len()
            &&& dr.0.boundaries.len() == st.boundaries.len()
            &&& dr.1.len() <= refs.len()
            &&& forall|t: int| 0 <= t < dr.1.len() ==> slot_swf(dr.0, #[trigger] dr.1[t])
        }),
{
    if !entities {
        match data_j {
            None => {},
            Some(dj) => {
                let st_u = SeedState { path: refs[0].path, flag: false, ..st };
                lemma_pstate_same(st, st_u);
                lemma_update_spec_swf(tables, st_u, sid, dj);
            },
        }
    } else {
        match data_j {
            Some(JsonValue::Obj(members)) => {
                let (ents_j, _) = extract_spec(members@, "_entities"@);
                match ents_j {
                    Some(JsonValue::Arr(items)) => {
                        lemma_entities_fold_swf(tables, sid, refs, items@, st, Seq::empty());
                        lemma_entities_fold_len(tables, sid, refs, items@, st, Seq::empty());
                    },
                    _ => {},
                }
            },
            _ => {},
        }
    }
}

pub proof fn lemma_entities_fold_len(
    tables: Seq<crate::shape::SetModel>,
    sid: int,
    refs: Seq<crate::write::RefModel>,
    items: Seq<JsonValue>,
    st: SeedState,
    slots: Seq<SlotModel>,
)
    requires
        slots.len() <= refs.len(),
    ensures
        entities_fold(tables, sid, refs, items, st, slots).1.len() <= refs.len(),
    decreases items.len(),
{
    if items.len() > 0 && slots.len() < refs.len() {
        let u = slots.len() as int;
        let st_u = SeedState { path: refs[u].path, flag: false, ..st };
        let out = update_spec(tables, st_u, sid, items[0]);
        lemma_entities_fold_len(
            tables,
            sid,
            refs,
            items.drop_first(),
            out.st,
            slots.push(out.slot),
        );
    }
}


/// The update-slot models of a part pin the slot count.
pub proof fn lemma_slots_len_bridge(part: ResponsePart, slots: Seq<SlotModel>)
    requires
        part.updates@.map_values(|s: UpdateSlot| crate::write::slot_model(s)) == slots,
    ensures
        part.updates@.len() == slots.len(),
{
    assert(part.updates@.map_values(|s: UpdateSlot| crate::write::slot_model(s)).len()
        == part.updates@.len());
}


/// Translated upstream error paths are synthesized for reporting only: every
/// edge is an extra-field key or a list index, never a bound response key.
pub proof fn lemma_converted_path_synthesized(
    keys: Seq<Seq<char>>,
    items: Seq<JsonValue>,
    i: int,
)
    ensures
        forall|t: int|
            0 <= t < convert_path_rec(keys, items, i).edges.len() ==> !((
            #[trigger] convert_path_rec(keys, items, i).edges[t]) is Key),
    decreases items.len() - i,
{
    if 0 <= i < items.len() {
        lemma_converted_path_synthesized(keys, items, i + 1);
        let po = convert_path_rec(keys, items, i);
        let rest = convert_path_rec(keys, items, i + 1);
        match items[i] {
            JsonValue::Str(s) => {
                match crate::shape::key_index(keys, s@) {
                    Some(k) => {
                        assert forall|t: int| 0 <= t < po.edges.len() implies !((
                        #[trigger] po.edges[t]) is Key) by {
                            if t > 0 {
                                assert(po.edges[t] == rest.edges[t - 1]);
                            }
                        }
                    },
                    None => {},
                }
            },
            JsonValue::Num(t0) => {
                if crate::dser::num_is_integral(t0@) && crate::dser::int_text_ok(t0@) && 0
                    <= crate::dser::int_text_value(t0@) <= usize::MAX {
                    assert forall|t: int| 0 <= t < po.edges.len() implies !((
                    #[trigger] po.edges[t]) is Key) by {
                        if t > 0 {
                            assert(po.edges[t] == rest.edges[t - 1]);
                        }
                    }
                }
            },
            _ => {},
        }
    }
}


/// Translates root-plan upstream error paths against the response keys.
pub struct RootErrorPathConverter<'a> {
    pub response_keys: &'a crate::shape::ResponseKeys,
}

impl<'a> RootErrorPathConverter<'a> {
    pub fn new(response_keys: &'a crate::shape::ResponseKeys) -> (r: RootErrorPathConverter<'a>)
        ensures
            r.response_keys == response_keys,
    {
        RootErrorPathConverter { response_keys }
    }

    /// Translates one upstream path; the flag says whether every segment
    /// translated.
    pub fn convert(&self, items: &Vec<JsonValue>) -> (r: (Vec<ResponseEdge>, bool))
        ensures
            ({
                let po = convert_path_rec(self.response_keys.model(), items@, 0);
                r.0@ == po.edges && r.1 == po.fully
            }),
    {
        convert_path(self.response_keys, items, 0)
    }
}

} // verus!
