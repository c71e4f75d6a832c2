//! The partitioned response tree. Every executor writes into its own
//! `ResponseDataPart`; the `ResponseBuilder` owns the sealed parts, the root
//! reference and the error list, and runs GraphQL error propagation.
//!
//! Contracts are stated over `BuilderModel`, the mathematical model of the
//! whole tree: sequences of parts, each a sequence of objects (edge/value
//! pairs) and a flat sequence of list slots.

use vstd::prelude::*;
use crate::ResponseEdge;
use crate::error::{GraphqlError, ResponsePath};
use crate::json::JsonValue;

verus! {

/// Address of an object in the partitioned arena.
#[derive(Clone, Copy, PartialEq, Eq, Structural, Debug)]
pub struct ResponseObjectId {
    pub part_id: usize,
    pub index: usize,
}

/// Address of a contiguous list of values in the partitioned arena.
#[derive(Clone, Copy, PartialEq, Eq, Structural, Debug)]
pub struct ResponseListId {
    pub part_id: usize,
    pub offset: usize,
    pub length: usize,
}

/// One value of the response tree. Containers are held by reference into the
/// arena; `nullable` records the declared nullability of the position, which
/// drives error propagation.
pub enum ResponseValue {
    Null,
    Bool(bool),
    Int(i64),
    BigInt(i64),
    /// A `Float` keeps the raw JSON number text, so nothing is lost.
    Float(String),
    Str(String),
    /// An unconstrained JSON scalar, stored raw.
    Json(JsonValue),
    Object { nullable: bool, obj: ResponseObjectId },
    List { nullable: bool, list: ResponseListId },
}

/// An object: an ordered list of response edges with their values.
pub struct ResponseObject {
    pub fields: Vec<(ResponseEdge, ResponseValue)>,
}

/// A per-plan arena. Created empty, written by exactly one executor, then
/// sealed into the builder.
pub struct ResponseDataPart {
    pub id: usize,
    pub objects: Vec<ResponseObject>,
    pub lists: Vec<ResponseValue>,
}

/// A reference to an object written by an earlier plan, handed to a dependent
/// plan through a plan boundary.
pub struct ResponseObjectRef {
    pub id: ResponseObjectId,
    pub path: ResponsePath,
    pub definition_id: usize,
}

/// What a plan decided about one of the boundary objects it had to update.
pub enum UpdateSlot {
    Reserved,
    Fields(Vec<(ResponseEdge, ResponseValue)>),
    Error,
}

/// Addresses one mutable position of the response tree: a field of an object,
/// or an element of a list.
pub enum ResponseValueId {
    ObjectField { object_id: ResponseObjectId, field_position: usize },
    ListItem { list_id: ResponseListId, index: usize },
}

/// Fields to merge into an already-written response object.
pub struct ResponseObjectUpdate {
    pub id: ResponseObjectId,
    pub fields: Vec<(ResponseEdge, ResponseValue)>,
}

/// The shared target of all executors: sealed parts, the root reference
/// (`None` iff an error propagated to the response root) and the error list.
pub struct ResponseBuilder {
    pub root: Option<(ResponseObjectId, usize)>,
    pub parts: Vec<ResponseDataPart>,
    pub errors: Vec<GraphqlError>,
}

// ---------------------------------------------------------------------------
// The mathematical model of the tree.
// ---------------------------------------------------------------------------

/// Model of one arena: objects are sequences of edge/value pairs, lists one
/// flat sequence of slots.
#[verifier::ext_equal]
pub struct PartModel {
    pub objects: Seq<Seq<(ResponseEdge, ResponseValue)>>,
    pub lists: Seq<ResponseValue>,
}

/// Model of the whole builder.
#[verifier::ext_equal]
pub struct BuilderModel {
    pub root: Option<(ResponseObjectId, usize)>,
    pub parts: Seq<PartModel>,
    pub errors: Seq<GraphqlError>,
}

pub open spec fn part_model(p: ResponseDataPart) -> PartModel {
    PartModel {
        objects: p.objects@.map_values(|o: ResponseObject| o.fields@),
        lists: p.lists@,
    }
}

pub open spec fn bmodel(b: ResponseBuilder) -> BuilderModel {
    BuilderModel {
        root: b.root,
        parts: b.parts@.map_values(|p: ResponseDataPart| part_model(p)),
        errors: b.errors@,
    }
}

/// A value's container references stay inside `parts`.
pub open spec fn value_wf(parts: Seq<PartModel>, v: ResponseValue) -> bool {
    match v {
        ResponseValue::Object { obj, .. } => obj.part_id < parts.len() && obj.index < parts[
            obj.part_id as int
        ].objects.len(),
        ResponseValue::List { list, .. } => list.part_id < parts.len() && list.offset + list.length
            <= parts[list.part_id as int].lists.len(),
        _ => true,
    }
}

/// Every value stored in `p` is well-formed with respect to `parts`.
pub open spec fn part_wf(parts: Seq<PartModel>, p: PartModel) -> bool {
    &&& forall|i: int, j: int|
        0 <= i < p.objects.len() && 0 <= j < p.objects[i].len() ==> value_wf(
            parts,
            (#[trigger] p.objects[i][j]).1,
        )
    &&& forall|k: int| 0 <= k < p.lists.len() ==> value_wf(parts, #[trigger] p.lists[k])
}

/// The invariant of the whole response tree: the root reference and every
/// stored container reference are in bounds.
pub open spec fn model_wf(m: BuilderModel) -> bool {
    &&& match m.root {
        Some((oid, _)) => oid.part_id < m.parts.len() && oid.index < m.parts[
            oid.part_id as int
        ].objects.len(),
        None => true,
    }
    &&& forall|p: int| 0 <= p < m.parts.len() ==> part_wf(m.parts, #[trigger] m.parts[p])
}

pub open spec fn builder_wf(b: ResponseBuilder) -> bool {
    &&& model_wf(bmodel(b))
    &&& forall|p: int| 0 <= p < b.parts@.len() ==> (#[trigger] b.parts@[p]).id == p
}

// ---------------------------------------------------------------------------
// Error propagation: the walk that finds the deepest nullable ancestor.
// ---------------------------------------------------------------------------

/// Where the walk currently stands.
#[derive(Clone, Copy)]
pub enum WalkCursor {
    AtObject(ResponseObjectId),
    AtList(ResponseListId),
}

/// What propagating one path does to the tree.
pub enum PropagateOutcome {
    /// The path hit an already-null value: nothing to do.
    NoChange,
    /// The deepest nullable ancestor on the path: it becomes `Null`.
    SetNull(ResponseValueId),
    /// No nullable ancestor: the response root becomes null.
    RootNone,
}

/// Position of the first field carrying this edge, if any.
pub open spec fn edge_position(fields: Seq<(ResponseEdge, ResponseValue)>, e: ResponseEdge) -> Option<
    int,
>
    decreases fields.len(),
{
    if fields.len() == 0 {
        None
    } else if fields[0].0 == e {
        Some(0)
    } else {
        match edge_position(fields.drop_first(), e) {
            Some(i) => Some(i + 1),
            None => None,
        }
    }
}

pub proof fn lemma_edge_position_bounds(fields: Seq<(ResponseEdge, ResponseValue)>, e: ResponseEdge)
    ensures
        match edge_position(fields, e) {
            Some(j) => 0 <= j < fields.len() && fields[j].0 == e && forall|k: int|
                0 <= k < j ==> (#[trigger] fields[k]).0 != e,
            None => forall|k: int| 0 <= k < fields.len() ==> (#[trigger] fields[k]).0 != e,
        },
    decreases fields.len(),
{
    if fields.len() > 0 && fields[0].0 != e {
        let rest = fields.drop_first();
        lemma_edge_position_bounds(rest, e);
        assert(forall|k: int| 0 <= k < rest.len() ==> rest[k] == fields[k + 1]);
        match edge_position(rest, e) {
            Some(j2) => {
                assert(fields[j2 + 1].0 == e);
                assert forall|k: int| 0 <= k < j2 + 1 implies (#[trigger] fields[k]).0 != e by {
                    if k > 0 {
                        assert(rest[k - 1] == fields[k]);
                    }
                }
            },
            None => {
                assert forall|k: int| 0 <= k < fields.len() implies (#[trigger] fields[k]).0 != e by {
                    if k > 0 {
                        assert(rest[k - 1] == fields[k]);
                    }
                }
            },
        }
    }
}

/// The converse: a witness for the first matching position pins the spec down.
pub proof fn lemma_edge_position_at(
    fields: Seq<(ResponseEdge, ResponseValue)>,
    e: ResponseEdge,
    j: int,
)
    requires
        0 <= j < fields.len(),
        fields[j].0 == e,
        forall|k: int| 0 <= k < j ==> (#[trigger] fields[k]).0 != e,
    ensures
        edge_position(fields, e) == Some(j),
    decreases fields.len(),
{
    if j > 0 {
        assert(fields[0].0 != e);
        lemma_edge_position_at(fields.drop_first(), e, j - 1);
    }
}

/// The value stored at an addressed position (meaningful when in bounds).
pub open spec fn value_at(parts: Seq<PartModel>, vid: ResponseValueId) -> ResponseValue {
    match vid {
        ResponseValueId::ObjectField { object_id, field_position } => parts[
            object_id.part_id as int
        ].objects[object_id.index as int][field_position as int].1,
        ResponseValueId::ListItem { list_id, index } => parts[list_id.part_id as int].lists[
            list_id.offset + index
        ],
    }
}

/// The addressed position exists in the tree.
pub open spec fn vid_wf(parts: Seq<PartModel>, vid: ResponseValueId) -> bool {
    match vid {
        ResponseValueId::ObjectField { object_id, field_position } => object_id.part_id
            < parts.len() && object_id.index < parts[object_id.part_id as int].objects.len()
            && field_position < parts[object_id.part_id as int].objects[
            object_id.index as int
        ].len(),
        ResponseValueId::ListItem { list_id, index } => list_id.part_id < parts.len() && index
            < list_id.length && list_id.offset + list_id.length <= parts[
            list_id.part_id as int
        ].lists.len(),
    }
}

/// One step of the walk: resolve an edge against the current container.
/// `None` when the edge does not resolve: missing field, index out of range,
/// or an edge of the wrong kind.
pub open spec fn step_lookup(parts: Seq<PartModel>, c: WalkCursor, e: ResponseEdge) -> Option<
    ResponseValueId,
> {
    match c {
        WalkCursor::AtObject(oid) => {
            if oid.part_id < parts.len() && oid.index < parts[oid.part_id as int].objects.len() {
                match e {
                    ResponseEdge::Index(_) => None,
                    _ => match edge_position(
                        parts[oid.part_id as int].objects[oid.index as int],
                        e,
                    ) {
                        Some(j) => Some(
                            ResponseValueId::ObjectField {
                                object_id: oid,
                                field_position: j as usize,
                            },
                        ),
                        None => None,
                    },
                }
            } else {
                None
            }
        },
        WalkCursor::AtList(lid) => {
            match e {
                ResponseEdge::Index(i) => {
                    if i < lid.length && lid.part_id < parts.len() && lid.offset + lid.length
                        <= parts[lid.part_id as int].lists.len() {
                        Some(ResponseValueId::ListItem { list_id: lid, index: i })
                    } else {
                        None
                    }
                },
                _ => None,
            }
        },
    }
}

pub open spec fn apply_of(ln: Option<ResponseValueId>) -> PropagateOutcome {
    match ln {
        Some(id) => PropagateOutcome::SetNull(id),
        None => PropagateOutcome::RootNone,
    }
}

/// The walk from position `i` of the path. `ln` is the deepest nullable
/// position passed so far. Reaching a null value, or an edge that does not
/// resolve (missing field, wrong kind of edge), means the branch is already
/// absent or nulled, so nothing changes. Reaching a scalar before the path
/// ends, or exhausting the path, means the error site is reached: the
/// deepest nullable ancestor is nulled, or the root goes null when there is
/// none.
pub open spec fn walk(
    parts: Seq<PartModel>,
    c: WalkCursor,
    path: Seq<ResponseEdge>,
    i: int,
    ln: Option<ResponseValueId>,
) -> PropagateOutcome
    decreases path.len() - i,
{
    if i < 0 || i >= path.len() {
        apply_of(ln)
    } else {
        match step_lookup(parts, c, path[i]) {
            None => PropagateOutcome::NoChange,
            Some(vid) => match value_at(parts, vid) {
                ResponseValue::Null => PropagateOutcome::NoChange,
                ResponseValue::Object { nullable, obj } => walk(
                    parts,
                    WalkCursor::AtObject(obj),
                    path,
                    i + 1,
                    if nullable {
                        Some(vid)
                    } else {
                        ln
                    },
                ),
                ResponseValue::List { nullable, list } => walk(
                    parts,
                    WalkCursor::AtList(list),
                    path,
                    i + 1,
                    if nullable {
                        Some(vid)
                    } else {
                        ln
                    },
                ),
                _ => apply_of(ln),
            },
        }
    }
}

pub open spec fn propagate_outcome(m: BuilderModel, path: Seq<ResponseEdge>) -> PropagateOutcome {
    match m.root {
        None => PropagateOutcome::NoChange,
        Some((oid, _)) => walk(m.parts, WalkCursor::AtObject(oid), path, 0, None),
    }
}

/// The parts with the addressed position replaced by `Null`.
pub open spec fn parts_set_null(parts: Seq<PartModel>, vid: ResponseValueId) -> Seq<PartModel> {
    match vid {
        ResponseValueId::ObjectField { object_id: o, field_position: j } => {
            let part = parts[o.part_id as int];
            let obj = part.objects[o.index as int];
            let pair = obj[j as int];
            parts.update(
                o.part_id as int,
                PartModel {
                    objects: part.objects.update(
                        o.index as int,
                        obj.update(j as int, (pair.0, ResponseValue::Null)),
                    ),
                    ..part
                },
            )
        },
        ResponseValueId::ListItem { list_id: l, index } => {
            let part = parts[l.part_id as int];
            parts.update(
                l.part_id as int,
                PartModel {
                    lists: part.lists.update(l.offset + index, ResponseValue::Null),
                    ..part
                },
            )
        },
    }
}

/// The model with the addressed position replaced by `Null`.
pub open spec fn model_set_null(m: BuilderModel, vid: ResponseValueId) -> BuilderModel {
    BuilderModel { parts: parts_set_null(m.parts, vid), ..m }
}

/// Error propagation of one path, as a function on models.
pub open spec fn propagate_model(m: BuilderModel, path: Seq<ResponseEdge>) -> BuilderModel {
    match propagate_outcome(m, path) {
        PropagateOutcome::NoChange => m,
        PropagateOutcome::RootNone => BuilderModel { root: None, ..m },
        PropagateOutcome::SetNull(vid) => model_set_null(m, vid),
    }
}

// ---------------------------------------------------------------------------
// Arena operations.
// ---------------------------------------------------------------------------

impl ResponseDataPart {
    /// A fresh, empty arena for the part with the given id.
    pub fn new(id: usize) -> (r: ResponseDataPart)
        ensures
            r.id == id,
            r.objects@.len() == 0,
            r.lists@.len() == 0,
    {
        ResponseDataPart { id, objects: Vec::new(), lists: Vec::new() }
    }

    /// An arena is empty until its executor writes the first object or list.
    pub fn is_empty(&self) -> (r: bool)
        ensures
            r == (self.objects@.len() == 0 && self.lists@.len() == 0),
    {
        self.objects.len() == 0 && self.lists.len() == 0
    }

    /// Appends an object, returning its index. Existing contents never move.
    pub fn push_object(&mut self, object: ResponseObject) -> (r: usize)
        ensures
            r == old(self).objects@.len(),
            final(self).id == old(self).id,
            final(self).objects@ == old(self).objects@.push(object),
            final(self).lists@ == old(self).lists@,
    {
        let r = self.objects.len();
        self.objects.push(object);
        r
    }

    /// Appends the values of a list, returning its offset. Existing contents
    /// never move.
    pub fn push_list(&mut self, values: Vec<ResponseValue>) -> (r: usize)
        ensures
            r == old(self).lists@.len(),
            final(self).id == old(self).id,
            final(self).objects@ == old(self).objects@,
            final(self).lists@ == old(self).lists@ + values@,
    {
        let r = self.lists.len();
        let mut values = values;
        self.lists.append(&mut values);
        r
    }
}

/// Position of the first field carrying this edge, executable.
pub fn field_position(fields: &Vec<(ResponseEdge, ResponseValue)>, e: ResponseEdge) -> (r: Option<
    usize,
>)
    ensures
        match r {
            Some(j) => edge_position(fields@, e) == Some(j as int),
            None => edge_position(fields@, e) is None,
        },
{
    let mut k: usize = 0;
    let n = fields.len();
    while k < n
        invariant
            0 <= k <= n,
            n == fields@.len(),
            forall|t: int| 0 <= t < k ==> (#[trigger] fields@[t]).0 != e,
        decreases n - k,
    {
        if fields[k].0 == e {
            proof {
                lemma_edge_position_at(fields@, e, k as int);
            }
            return Some(k);
        }
        k = k + 1;
    }
    proof {
        lemma_edge_position_bounds(fields@, e);
    }
    None
}

impl ResponseBuilder {
    /// Walks one error path from the root, without changing anything.
    fn walk_exec(&self, path: &ResponsePath) -> (r: PropagateOutcome)
        requires
            builder_wf(*self),
            self.root is Some,
        ensures
            r == walk(
                bmodel(*self).parts,
                WalkCursor::AtObject(self.root.unwrap().0),
                path@,
                0,
                None,
            ),
    {
        let ghost parts = bmodel(*self).parts;
        let (root_oid, root_ty) = self.root.unwrap();
        proof {
            assert(self.root == Some((root_oid, root_ty)));
        }
        let mut c = WalkCursor::AtObject(root_oid);
        let mut ln: Option<ResponseValueId> = None;
        let mut i: usize = 0;
        let n = path.len();
        loop
            invariant
                0 <= i <= n,
                n == path@.len(),
                builder_wf(*self),
                parts == bmodel(*self).parts,
                self.root == Some((root_oid, root_ty)),
                walk(parts, c, path@, i as int, ln) == walk(
                    parts,
                    WalkCursor::AtObject(root_oid),
                    path@,
                    0,
                    None,
                ),
            decreases n - i,
        {
            if i == n {
                proof {
                    assert(walk(parts, c, path@, i as int, ln) == apply_of(ln));
                    assert(apply_of(ln) == walk(
                        bmodel(*self).parts,
                        WalkCursor::AtObject(root_oid),
                        path@,
                        0,
                        None,
                    ));
                }
                return match ln {
                    Some(vid) => PropagateOutcome::SetNull(vid),
                    None => PropagateOutcome::RootNone,
                };
            }
            let e = path[i];
            proof {
                assert(e == path@[i as int]);
            }
            // Resolve the edge against the current container.
            let vid_opt: Option<ResponseValueId> = match c {
                WalkCursor::AtObject(oid) => {
                    if oid.part_id < self.parts.len() && oid.index
                        < self.parts[oid.part_id].objects.len() {
                        match e {
                            ResponseEdge::Index(_) => None,
                            _ => {
                                match field_position(
                                    &self.parts[oid.part_id].objects[oid.index].fields,
                                    e,
                                ) {
                                    Some(j) => Some(
                                        ResponseValueId::ObjectField {
                                            object_id: oid,
                                            field_position: j,
                                        },
                                    ),
                                    None => None,
                                }
                            },
                        }
                    } else {
                        None
                    }
                },
                WalkCursor::AtList(lid) => {
                    match e {
                        ResponseEdge::Index(ix) => {
                            if ix < lid.length && lid.part_id < self.parts.len() && lid.length
                                <= self.parts[lid.part_id].lists.len() && lid.offset
                                <= self.parts[lid.part_id].lists.len() - lid.length {
                                Some(ResponseValueId::ListItem { list_id: lid, index: ix })
                            } else {
                                None
                            }
                        },
                        _ => None,
                    }
                },
            };
            proof {
                match c {
                    WalkCursor::AtObject(oid) => {
                        if oid.part_id < self.parts@.len() {
                            assert(parts[oid.part_id as int] == part_model(
                                self.parts@[oid.part_id as int],
                            ));
                            if oid.index < self.parts@[oid.part_id as int].objects@.len() {
                                assert(parts[oid.part_id as int].objects[oid.index as int]
                                    == self.parts@[oid.part_id as int].objects@[
                                    oid.index as int
                                ].fields@);
                            }
                        }
                    },
                    WalkCursor::AtList(lid) => {
                        if lid.part_id < self.parts@.len() {
                            assert(parts[lid.part_id as int] == part_model(
                                self.parts@[lid.part_id as int],
                            ));
                        }
                    },
                }
                assert(vid_opt == step_lookup(parts, c, path@[i as int]));
            }
            let vid = match vid_opt {
                Some(v) => v,
                None => {
                    proof {
                        assert(walk(parts, c, path@, i as int, ln)
                            == PropagateOutcome::NoChange);
                        assert(PropagateOutcome::NoChange == walk(
                            bmodel(*self).parts,
                            WalkCursor::AtObject(root_oid),
                            path@,
                            0,
                            None,
                        ));
                    }
                    return PropagateOutcome::NoChange;
                },
            };
            proof {
                proof_step_lookup_wf(parts, c, path@[i as int]);
                assert(vid_wf(parts, vid));
            }
            // Read the resolved value and take the step.
            let v: &ResponseValue = match vid {
                ResponseValueId::ObjectField { object_id, field_position } => &self.parts[
                    object_id.part_id
                ].objects[object_id.index].fields[field_position].1,
                ResponseValueId::ListItem { list_id, index } => &self.parts[list_id.part_id].lists[
                    list_id.offset + index
                ],
            };
            proof {
                match vid {
                    ResponseValueId::ObjectField { object_id, .. } => {
                        assert(parts[object_id.part_id as int] == part_model(
                            self.parts@[object_id.part_id as int],
                        ));
                        assert(parts[object_id.part_id as int].objects[object_id.index as int]
                            == self.parts@[object_id.part_id as int].objects@[
                            object_id.index as int
                        ].fields@);
                    },
                    ResponseValueId::ListItem { list_id, .. } => {
                        assert(parts[list_id.part_id as int] == part_model(
                            self.parts@[list_id.part_id as int],
                        ));
                    },
                }
                assert(*v == value_at(parts, vid));
            }
            match v {
                ResponseValue::Null => {
                    proof {
                        assert(walk(parts, c, path@, i as int, ln) == PropagateOutcome::NoChange);
                        assert(PropagateOutcome::NoChange == walk(
                            bmodel(*self).parts,
                            WalkCursor::AtObject(root_oid),
                            path@,
                            0,
                            None,
                        ));
                    }
                    return PropagateOutcome::NoChange;
                },
                ResponseValue::Object { nullable, obj } => {
                    if *nullable {
                        ln = Some(vid);
                    }
                    c = WalkCursor::AtObject(*obj);
                },
                ResponseValue::List { nullable, list } => {
                    if *nullable {
                        ln = Some(vid);
                    }
                    c = WalkCursor::AtList(*list);
                },
                _ => {
                    proof {
                        assert(walk(parts, c, path@, i as int, ln) == apply_of(ln));
                    assert(apply_of(ln) == walk(
                            bmodel(*self).parts,
                            WalkCursor::AtObject(root_oid),
                            path@,
                            0,
                            None,
                        ));
                    }
                    return match ln {
                        Some(vid) => PropagateOutcome::SetNull(vid),
                        None => PropagateOutcome::RootNone,
                    };
                },
            }
            i = i + 1;
        }
    }
}

impl ResponseBuilder {
    /// Replaces the addressed value with `Null`.
    fn set_null_at(&mut self, vid: ResponseValueId)
        requires
            builder_wf(*old(self)),
            vid_wf(bmodel(*old(self)).parts, vid),
        ensures
            builder_wf(*final(self)),
            bmodel(*final(self)) == model_set_null(bmodel(*old(self)), vid),
    {
        let ghost m0 = bmodel(*old(self));
        match vid {
            ResponseValueId::ObjectField { object_id, field_position } => {
                let mut part = self.parts.remove(object_id.part_id);
                let mut obj = part.objects.remove(object_id.index);
                let edge0 = obj.fields[field_position].0;
                obj.fields.set(field_position, (edge0, ResponseValue::Null));
                part.objects.insert(object_id.index, obj);
                self.parts.insert(object_id.part_id, part);
                proof {
                    let p = object_id.part_id as int;
                    let oi = object_id.index as int;
                    let fj = field_position as int;
                    assert(self.parts@ =~= old(self).parts@.update(p, self.parts@[p]));
                    assert(self.parts@[p].objects@ =~= old(self).parts@[p].objects@.update(
                        oi,
                        self.parts@[p].objects@[oi],
                    ));
                    assert(self.parts@[p].objects@[oi].fields@ =~= old(
                        self,
                    ).parts@[p].objects@[oi].fields@.update(fj, (edge0, ResponseValue::Null)));
                    assert(m0.parts[p].objects[oi] == old(self).parts@[p].objects@[oi].fields@);
                    assert(m0.parts[p].objects[oi][fj].0 == edge0);
                    assert(part_model(self.parts@[p]).objects =~= m0.parts[p].objects.update(
                        oi,
                        m0.parts[p].objects[oi].update(fj, (edge0, ResponseValue::Null)),
                    ));
                    assert(part_model(self.parts@[p]) =~~= PartModel {
                        objects: m0.parts[p].objects.update(
                            oi,
                            m0.parts[p].objects[oi].update(fj, (edge0, ResponseValue::Null)),
                        ),
                        ..m0.parts[p]
                    });
                    assert(bmodel(*self).parts =~~= model_set_null(m0, vid).parts);
                    assert(bmodel(*self) =~~= model_set_null(m0, vid));
                    lemma_set_null_wf(m0, vid);
                }
            },
            ResponseValueId::ListItem { list_id, index } => {
                proof {
                    assert(m0.parts[list_id.part_id as int] == part_model(
                        self.parts@[list_id.part_id as int],
                    ));
                    assert(list_id.offset + index < self.parts@[list_id.part_id as int].lists@.len());
                }
                let mut part = self.parts.remove(list_id.part_id);
                let lists_len = part.lists.len();
                proof {
                    assert(list_id.offset + index < lists_len);
                }
                part.lists.set(list_id.offset + index, ResponseValue::Null);
                self.parts.insert(list_id.part_id, part);
                proof {
                    let p = list_id.part_id as int;
                    let k = list_id.offset + index;
                    assert(self.parts@ =~= old(self).parts@.update(p, self.parts@[p]));
                    assert(self.parts@[p].lists@ =~= old(self).parts@[p].lists@.update(
                        k as int,
                        ResponseValue::Null,
                    ));
                    assert(part_model(self.parts@[p]) =~~= PartModel {
                        lists: m0.parts[p].lists.update(k as int, ResponseValue::Null),
                        ..m0.parts[p]
                    });
                    assert(bmodel(*self).parts =~~= model_set_null(m0, vid).parts);
                    assert(bmodel(*self) =~~= model_set_null(m0, vid));
                    lemma_set_null_wf(m0, vid);
                }
            },
        }
    }

    /// Applies the GraphQL error propagation rule for one path: the deepest
    /// nullable ancestor on the path becomes null; with none, the response
    /// root becomes null; a path through an already-null value, or through
    /// an edge that does not resolve, changes nothing.
    pub fn propagate_error(&mut self, path: &ResponsePath)
        requires
            builder_wf(*old(self)),
        ensures
            builder_wf(*final(self)),
            bmodel(*final(self)) == propagate_model(bmodel(*old(self)), path@),
    {
        let ghost m0 = bmodel(*old(self));
        if self.root.is_none() {
            proof {
                assert(bmodel(*self) =~~= propagate_model(m0, path@));
            }
            return;
        }
        let outcome = self.walk_exec(path);
        match outcome {
            PropagateOutcome::NoChange => {
                proof {
                    assert(bmodel(*self) =~~= propagate_model(m0, path@));
                }
            },
            PropagateOutcome::RootNone => {
                self.root = None;
                proof {
                    assert(bmodel(*self) =~~= propagate_model(m0, path@));
                }
            },
            PropagateOutcome::SetNull(vid) => {
                proof {
                    let (oid, _) = m0.root.unwrap();
                    lemma_walk_vid_wf(m0.parts, WalkCursor::AtObject(oid), path@, 0, None);
                }
                self.set_null_at(vid);
                proof {
                    assert(bmodel(*self) == propagate_model(m0, path@));
                }
            },
        }
    }
}

/// The walk only hands back positions that exist.
pub proof fn lemma_walk_vid_wf(
    parts: Seq<PartModel>,
    c: WalkCursor,
    path: Seq<ResponseEdge>,
    i: int,
    ln: Option<ResponseValueId>,
)
    requires
        match ln {
            Some(vid) => vid_wf(parts, vid),
            None => true,
        },
    ensures
        match walk(parts, c, path, i, ln) {
            PropagateOutcome::SetNull(vid) => vid_wf(parts, vid),
            _ => true,
        },
    decreases path.len() - i,
{
    if 0 <= i < path.len() {
        match step_lookup(parts, c, path[i]) {
            None => {},
            Some(vid) => {
                proof_step_lookup_wf(parts, c, path[i]);
                match value_at(parts, vid) {
                    ResponseValue::Object { nullable, obj } => {
                        lemma_walk_vid_wf(
                            parts,
                            WalkCursor::AtObject(obj),
                            path,
                            i + 1,
                            if nullable {
                                Some(vid)
                            } else {
                                ln
                            },
                        );
                    },
                    ResponseValue::List { nullable, list } => {
                        lemma_walk_vid_wf(
                            parts,
                            WalkCursor::AtList(list),
                            path,
                            i + 1,
                            if nullable {
                                Some(vid)
                            } else {
                                ln
                            },
                        );
                    },
                    _ => {},
                }
            },
        }
    }
}

pub proof fn proof_step_lookup_wf(parts: Seq<PartModel>, c: WalkCursor, e: ResponseEdge)
    ensures
        match step_lookup(parts, c, e) {
            Some(vid) => vid_wf(parts, vid),
            None => true,
        },
{
    match c {
        WalkCursor::AtObject(oid) => {
            if oid.part_id < parts.len() && oid.index < parts[oid.part_id as int].objects.len() {
                lemma_edge_position_bounds(parts[oid.part_id as int].objects[oid.index as int], e);
            }
        },
        WalkCursor::AtList(_) => {},
    }
}

/// Nulling an existing position preserves well-formedness: the shape of the
/// tree is unchanged and `Null` holds no reference.
pub proof fn lemma_set_null_wf(m: BuilderModel, vid: ResponseValueId)
    requires
        model_wf(m),
        vid_wf(m.parts, vid),
    ensures
        model_wf(model_set_null(m, vid)),
        model_set_null(m, vid).parts.len() == m.parts.len(),
{
    let m2 = model_set_null(m, vid);
    assert forall|p: int| 0 <= p < m2.parts.len() implies part_wf(m2.parts, #[trigger] m2.parts[p])
    by {
        assert(part_wf(m.parts, m.parts[p]));
        assert forall|i: int, j: int|
            0 <= i < m2.parts[p].objects.len() && 0 <= j < m2.parts[p].objects[i].len()
            implies value_wf(m2.parts, (#[trigger] m2.parts[p].objects[i][j]).1) by {
            let v = m2.parts[p].objects[i][j].1;
            if v == m.parts[p].objects[i][j].1 {
                assert(value_wf(m.parts, m.parts[p].objects[i][j].1));
                assert(value_wf(m2.parts, v));
            } else {
                assert(v == ResponseValue::Null);
            }
        }
        assert forall|k: int| 0 <= k < m2.parts[p].lists.len() implies value_wf(
            m2.parts,
            #[trigger] m2.parts[p].lists[k],
        ) by {
            let v = m2.parts[p].lists[k];
            if v == m.parts[p].lists[k] {
                assert(value_wf(m.parts, m.parts[p].lists[k]));
            } else {
                assert(v == ResponseValue::Null);
            }
        }
    }
}

/// Propagation never adds errors, never grows or shrinks the tree, and
/// preserves well-formedness.
pub proof fn lemma_propagate_model_wf(m: BuilderModel, path: Seq<ResponseEdge>)
    requires
        model_wf(m),
    ensures
        model_wf(propagate_model(m, path)),
        propagate_model(m, path).errors == m.errors,
        propagate_model(m, path).parts.len() == m.parts.len(),
{
    match m.root {
        None => {},
        Some((oid, _)) => {
            lemma_walk_vid_wf(m.parts, WalkCursor::AtObject(oid), path, 0, None);
            match walk(m.parts, WalkCursor::AtObject(oid), path, 0, None) {
                PropagateOutcome::SetNull(vid) => {
                    lemma_set_null_wf(m, vid);
                    let m2 = model_set_null(m, vid);
                    assert(m2.root == m.root);
                    match vid {
                        ResponseValueId::ObjectField { object_id, .. } => {
                            assert(m2.parts[object_id.part_id as int].objects.len() == m.parts[
                                object_id.part_id as int
                            ].objects.len());
                        },
                        ResponseValueId::ListItem { .. } => {},
                    }
                },
                _ => {},
            }
        },
    }
}

// ---------------------------------------------------------------------------
// Idempotence of error propagation.
// ---------------------------------------------------------------------------

/// Does the walk from position `i` read the position `vid0` at some step?
pub open spec fn visits(
    parts: Seq<PartModel>,
    c: WalkCursor,
    path: Seq<ResponseEdge>,
    i: int,
    vid0: ResponseValueId,
) -> bool
    decreases path.len() - i,
{
    if i < 0 || i >= path.len() {
        false
    } else {
        match step_lookup(parts, c, path[i]) {
            None => false,
            Some(vid) => vid == vid0 || match value_at(parts, vid) {
                ResponseValue::Null => false,
                ResponseValue::Object { obj, .. } => visits(
                    parts,
                    WalkCursor::AtObject(obj),
                    path,
                    i + 1,
                    vid0,
                ),
                ResponseValue::List { list, .. } => visits(
                    parts,
                    WalkCursor::AtList(list),
                    path,
                    i + 1,
                    vid0,
                ),
                _ => false,
            },
        }
    }
}

/// Matching a field edge depends only on the stored edges, not the values.
pub proof fn lemma_edge_position_keys(
    f1: Seq<(ResponseEdge, ResponseValue)>,
    f2: Seq<(ResponseEdge, ResponseValue)>,
    e: ResponseEdge,
)
    requires
        f1.len() == f2.len(),
        forall|k: int| 0 <= k < f1.len() ==> (#[trigger] f1[k]).0 == f2[k].0,
    ensures
        edge_position(f1, e) == edge_position(f2, e),
    decreases f1.len(),
{
    if f1.len() > 0 {
        assert(f1[0].0 == f2[0].0);
        let r1 = f1.drop_first();
        let r2 = f2.drop_first();
        assert(forall|k: int| 0 <= k < r1.len() ==> (#[trigger] r1[k]).0 == r2[k].0) by {
            assert(forall|k: int| 0 <= k < r1.len() ==> (#[trigger] r1[k]) == f1[k + 1]);
            assert(forall|k: int| 0 <= k < r2.len() ==> (#[trigger] r2[k]) == f2[k + 1]);
        }
        lemma_edge_position_keys(r1, r2, e);
    }
}

/// Nulling a position keeps the shape of the tree: the same parts, objects,
/// field edges and list slots, and touched values become `Null`.
pub proof fn lemma_parts_set_null_props(parts: Seq<PartModel>, vid: ResponseValueId)
    requires
        vid_wf(parts, vid),
    ensures
        parts_set_null(parts, vid).len() == parts.len(),
        forall|p: int|
            0 <= p < parts.len() ==> (#[trigger] parts_set_null(parts, vid)[p]).objects.len()
                == parts[p].objects.len() && parts_set_null(parts, vid)[p].lists.len()
                == parts[p].lists.len(),
        forall|p: int, i: int|
            0 <= p < parts.len() && 0 <= i < parts[p].objects.len() ==> (#[trigger] parts_set_null(
                parts,
                vid,
            )[p].objects[i]).len() == parts[p].objects[i].len(),
        forall|p: int, i: int, j: int|
            0 <= p < parts.len() && 0 <= i < parts[p].objects.len() && 0 <= j < parts[
                p
            ].objects[i].len() ==> (#[trigger] parts_set_null(parts, vid)[p].objects[i][j]).0
                == parts[p].objects[i][j].0,
        forall|w: ResponseValueId|
            vid_wf(parts, w) ==> #[trigger] value_at(parts_set_null(parts, vid), w) == value_at(
                parts,
                w,
            ) || value_at(parts_set_null(parts, vid), w) == ResponseValue::Null,
{
}

/// After the visited position is nulled, the walk stops with no change.
pub proof fn lemma_walk_after_null(
    parts: Seq<PartModel>,
    c: WalkCursor,
    path: Seq<ResponseEdge>,
    i: int,
    ln: Option<ResponseValueId>,
    vid0: ResponseValueId,
)
    requires
        vid_wf(parts, vid0),
        visits(parts, c, path, i, vid0),
    ensures
        walk(parts_set_null(parts, vid0), c, path, i, ln) == PropagateOutcome::NoChange,
    decreases path.len() - i,
{
    let parts2 = parts_set_null(parts, vid0);
    lemma_parts_set_null_props(parts, vid0);
    let e = path[i];
    lemma_step_lookup_frame(parts, parts2, c, e, vid0);
    let vid = step_lookup(parts, c, e).unwrap();
    proof_step_lookup_wf(parts, c, e);
    if vid == vid0 {
        assert(value_at(parts2, vid0) == ResponseValue::Null);
    } else {
        if value_at(parts2, vid) == ResponseValue::Null {
        } else {
            assert(value_at(parts2, vid) == value_at(parts, vid));
            match value_at(parts, vid) {
                ResponseValue::Object { obj, .. } => {
                    lemma_walk_after_null(
                        parts,
                        WalkCursor::AtObject(obj),
                        path,
                        i + 1,
                        match value_at(parts, vid) {
                            ResponseValue::Object { nullable, .. } => if nullable {
                                Some(vid)
                            } else {
                                ln
                            },
                            _ => ln,
                        },
                        vid0,
                    );
                },
                ResponseValue::List { list, .. } => {
                    lemma_walk_after_null(
                        parts,
                        WalkCursor::AtList(list),
                        path,
                        i + 1,
                        match value_at(parts, vid) {
                            ResponseValue::List { nullable, .. } => if nullable {
                                Some(vid)
                            } else {
                                ln
                            },
                            _ => ln,
                        },
                        vid0,
                    );
                },
                _ => {},
            }
        }
    }
}

/// Nulling one position does not change how edges resolve.
pub proof fn lemma_step_lookup_frame(
    parts: Seq<PartModel>,
    parts2: Seq<PartModel>,
    c: WalkCursor,
    e: ResponseEdge,
    vid0: ResponseValueId,
)
    requires
        vid_wf(parts, vid0),
        parts2 == parts_set_null(parts, vid0),
    ensures
        step_lookup(parts2, c, e) == step_lookup(parts, c, e),
{
    lemma_parts_set_null_props(parts, vid0);
    match c {
        WalkCursor::AtObject(oid) => {
            if oid.part_id < parts.len() && oid.index < parts[oid.part_id as int].objects.len() {
                lemma_edge_position_keys(
                    parts2[oid.part_id as int].objects[oid.index as int],
                    parts[oid.part_id as int].objects[oid.index as int],
                    e,
                );
            }
        },
        WalkCursor::AtList(_) => {},
    }
}

/// A walk that ends by nulling a position has read that position on the way.
pub proof fn lemma_walk_visits_target(
    parts: Seq<PartModel>,
    c: WalkCursor,
    path: Seq<ResponseEdge>,
    i: int,
    ln: Option<ResponseValueId>,
    vid0: ResponseValueId,
)
    requires
        walk(parts, c, path, i, ln) == PropagateOutcome::SetNull(vid0),
        ln != Some(vid0),
    ensures
        visits(parts, c, path, i, vid0),
    decreases path.len() - i,
{
    if i < 0 || i >= path.len() {
        assert(apply_of(ln) == PropagateOutcome::SetNull(vid0));
        assert(ln == Some(vid0));
    } else {
        match step_lookup(parts, c, path[i]) {
            None => {
                assert(ln == Some(vid0));
            },
            Some(vid) => {
                if vid != vid0 {
                    match value_at(parts, vid) {
                        ResponseValue::Null => {},
                        ResponseValue::Object { nullable, obj } => {
                            lemma_walk_visits_target(
                                parts,
                                WalkCursor::AtObject(obj),
                                path,
                                i + 1,
                                if nullable {
                                    Some(vid)
                                } else {
                                    ln
                                },
                                vid0,
                            );
                        },
                        ResponseValue::List { nullable, list } => {
                            lemma_walk_visits_target(
                                parts,
                                WalkCursor::AtList(list),
                                path,
                                i + 1,
                                if nullable {
                                    Some(vid)
                                } else {
                                    ln
                                },
                                vid0,
                            );
                        },
                        _ => {
                            assert(ln == Some(vid0));
                        },
                    }
                }
            },
        }
    }
}

/// Null propagation is idempotent: applying error propagation for a path
/// twice to the same tree yields the same tree as applying it once.
pub proof fn lemma_propagation_idempotent(m: BuilderModel, path: Seq<ResponseEdge>)
    requires
        model_wf(m),
    ensures
        propagate_model(propagate_model(m, path), path) == propagate_model(m, path),
{
    match m.root {
        None => {},
        Some((oid, _)) => {
            let c = WalkCursor::AtObject(oid);
            match walk(m.parts, c, path, 0, None) {
                PropagateOutcome::NoChange => {},
                PropagateOutcome::RootNone => {
                    let m2 = propagate_model(m, path);
                    assert(m2.root is None);
                },
                PropagateOutcome::SetNull(vid) => {
                    lemma_walk_vid_wf(m.parts, c, path, 0, None);
                    lemma_walk_visits_target(m.parts, c, path, 0, None, vid);
                    lemma_walk_after_null(m.parts, c, path, 0, None, vid);
                    let m2 = propagate_model(m, path);
                    assert(m2 == model_set_null(m, vid));
                    assert(m2.root == m.root);
                    assert(m2.parts == parts_set_null(m.parts, vid));
                    assert(walk(m2.parts, c, path, 0, None) == PropagateOutcome::NoChange);
                },
            }
        },
    }
}

// ---------------------------------------------------------------------------
// The executor-side part and its ingestion into the builder.
// ---------------------------------------------------------------------------

/// Everything one executor hands back: its arena, the boundary objects it had
/// to update with the decision taken for each, errors, error paths from
/// dependent plans, and the boundary objects it produced for dependents.
pub struct ResponsePart {
    pub data: ResponseDataPart,
    pub root_response_objects: Vec<ResponseObjectRef>,
    pub errors: Vec<GraphqlError>,
    pub updates: Vec<UpdateSlot>,
    pub error_paths_to_propagate: Vec<ResponsePath>,
    pub boundary_ids_start: usize,
    pub boundaries: Vec<Vec<ResponseObjectRef>>,
}

/// Model of a boundary object reference.
#[verifier::ext_equal]
pub struct RefModel {
    pub id: ResponseObjectId,
    pub path: Seq<ResponseEdge>,
    pub definition_id: usize,
}

pub open spec fn ref_model(r: ResponseObjectRef) -> RefModel {
    RefModel { id: r.id, path: r.path@, definition_id: r.definition_id }
}

/// Model of an update slot.
pub enum SlotModel {
    Pending,
    Fields(Seq<(ResponseEdge, ResponseValue)>),
    Failed,
}

pub open spec fn slot_model(s: UpdateSlot) -> SlotModel {
    match s {
        UpdateSlot::Reserved => SlotModel::Pending,
        UpdateSlot::Fields(fs) => SlotModel::Fields(fs@),
        UpdateSlot::Error => SlotModel::Failed,
    }
}

/// Model of a full part hand-off.
#[verifier::ext_equal]
pub struct PartIngestModel {
    pub part_id: int,
    pub data: PartModel,
    pub refs: Seq<RefModel>,
    pub slots: Seq<SlotModel>,
    pub errors: Seq<GraphqlError>,
    pub queued: Seq<Seq<ResponseEdge>>,
}

pub open spec fn ingest_part_model(p: ResponsePart) -> PartIngestModel {
    PartIngestModel {
        part_id: p.data.id as int,
        data: part_model(p.data),
        refs: p.root_response_objects@.map_values(|r: ResponseObjectRef| ref_model(r)),
        slots: p.updates@.map_values(|s: UpdateSlot| slot_model(s)),
        errors: p.errors@,
        queued: p.error_paths_to_propagate@.map_values(|q: ResponsePath| q@),
    }
}

/// Appending fields to an already-written object (a boundary update).
pub open spec fn model_extend_object(
    m: BuilderModel,
    oid: ResponseObjectId,
    fs: Seq<(ResponseEdge, ResponseValue)>,
) -> BuilderModel {
    if oid.part_id < m.parts.len() && oid.index < m.parts[oid.part_id as int].objects.len() {
        let part = m.parts[oid.part_id as int];
        BuilderModel {
            parts: m.parts.update(
                oid.part_id as int,
                PartModel {
                    objects: part.objects.update(
                        oid.index as int,
                        part.objects[oid.index as int] + fs,
                    ),
                    ..part
                },
            ),
            ..m
        }
    } else {
        m
    }
}

/// What one update slot does at ingest time: merge the fields, or propagate
/// an error from the boundary object's path.
pub open spec fn apply_update(m: BuilderModel, r: RefModel, s: SlotModel) -> BuilderModel {
    match s {
        SlotModel::Fields(fs) => model_extend_object(m, r.id, fs),
        _ => propagate_model(m, r.path),
    }
}

pub open spec fn apply_updates(
    m: BuilderModel,
    refs: Seq<RefModel>,
    slots: Seq<SlotModel>,
    i: int,
) -> BuilderModel
    decreases refs.len() - i,
{
    if i < 0 || i >= refs.len() || i >= slots.len() {
        m
    } else {
        apply_updates(apply_update(m, refs[i], slots[i]), refs, slots, i + 1)
    }
}

pub open spec fn apply_paths(m: BuilderModel, paths: Seq<Seq<ResponseEdge>>, i: int) -> BuilderModel
    decreases paths.len() - i,
{
    if i < 0 || i >= paths.len() {
        m
    } else {
        apply_paths(propagate_model(m, paths[i]), paths, i + 1)
    }
}

/// Ingesting a part: install the arena in its reserved slot, append the
/// errors, apply every boundary update in order, then propagate every queued
/// error path in order.
pub open spec fn ingest_model(m: BuilderModel, p: PartIngestModel) -> BuilderModel {
    let m1 = BuilderModel {
        parts: m.parts.update(p.part_id, p.data),
        errors: m.errors + p.errors,
        ..m
    };
    apply_paths(apply_updates(m1, p.refs, p.slots, 0), p.queued, 0)
}

/// Every value of `fs` is well-formed.
pub open spec fn fields_wf(
    parts: Seq<PartModel>,
    fs: Seq<(ResponseEdge, ResponseValue)>,
) -> bool {
    forall|j: int| 0 <= j < fs.len() ==> value_wf(parts, (#[trigger] fs[j]).1)
}

/// When a part may be ingested: its slot is reserved and still empty, its
/// contents and updates reference only existing containers, and it carries
/// one update per boundary object.
pub open spec fn ingestible(m: BuilderModel, p: PartIngestModel) -> bool {
    let installed = m.parts.update(p.part_id, p.data);
    &&& 0 <= p.part_id < m.parts.len()
    &&& m.parts[p.part_id].objects.len() == 0
    &&& m.parts[p.part_id].lists.len() == 0
    &&& p.refs.len() == p.slots.len()
    &&& part_wf(installed, p.data)
    &&& forall|k: int|
        0 <= k < p.slots.len() ==> match #[trigger] p.slots[k] {
            SlotModel::Fields(fs) => fields_wf(installed, fs),
            _ => true,
        }
    &&& forall|k: int|
        0 <= k < p.refs.len() ==> (#[trigger] p.refs[k]).id.part_id < installed.len()
            && p.refs[k].id.index < installed[p.refs[k].id.part_id as int].objects.len()
}

/// Container counts: what `value_wf` depends on.
pub open spec fn counts_eq(a: Seq<PartModel>, b: Seq<PartModel>) -> bool {
    &&& b.len() == a.len()
    &&& forall|p: int|
        0 <= p < a.len() ==> (#[trigger] b[p]).objects.len() == a[p].objects.len() && b[
            p
        ].lists.len() == a[p].lists.len()
}

/// Well-formedness of a value depends only on the container counts.
pub proof fn lemma_value_wf_counts(a: Seq<PartModel>, b: Seq<PartModel>, v: ResponseValue)
    requires
        counts_eq(a, b),
        value_wf(a, v),
    ensures
        value_wf(b, v),
{
}

/// Extending an object keeps the tree well-formed and the counts unchanged.
pub proof fn lemma_extend_wf(
    m: BuilderModel,
    oid: ResponseObjectId,
    fs: Seq<(ResponseEdge, ResponseValue)>,
)
    requires
        model_wf(m),
        fields_wf(m.parts, fs),
    ensures
        model_wf(model_extend_object(m, oid, fs)),
        counts_eq(m.parts, model_extend_object(m, oid, fs).parts),
        model_extend_object(m, oid, fs).root == m.root,
        model_extend_object(m, oid, fs).errors == m.errors,
{
    let m2 = model_extend_object(m, oid, fs);
    if oid.part_id < m.parts.len() && oid.index < m.parts[oid.part_id as int].objects.len() {
        assert forall|p: int| 0 <= p < m2.parts.len() implies part_wf(
            m2.parts,
            #[trigger] m2.parts[p],
        ) by {
            assert(part_wf(m.parts, m.parts[p]));
            assert forall|i: int, j: int|
                0 <= i < m2.parts[p].objects.len() && 0 <= j < m2.parts[p].objects[i].len()
                implies value_wf(m2.parts, (#[trigger] m2.parts[p].objects[i][j]).1) by {
                let v = m2.parts[p].objects[i][j].1;
                if p == oid.part_id && i == oid.index && j >= m.parts[p].objects[i].len() {
                    assert(v == fs[j - m.parts[p].objects[i].len()].1);
                    lemma_value_wf_counts(m.parts, m2.parts, v);
                } else {
                    assert(v == m.parts[p].objects[i][j].1);
                    lemma_value_wf_counts(m.parts, m2.parts, v);
                }
            }
            assert forall|k: int| 0 <= k < m2.parts[p].lists.len() implies value_wf(
                m2.parts,
                #[trigger] m2.parts[p].lists[k],
            ) by {
                assert(m2.parts[p].lists[k] == m.parts[p].lists[k]);
                lemma_value_wf_counts(m.parts, m2.parts, m.parts[p].lists[k]);
            }
        }
    }
}

/// Propagation keeps the counts unchanged.
pub proof fn lemma_propagate_counts(m: BuilderModel, path: Seq<ResponseEdge>)
    requires
        model_wf(m),
    ensures
        model_wf(propagate_model(m, path)),
        counts_eq(m.parts, propagate_model(m, path).parts),
        propagate_model(m, path).errors == m.errors,
{
    lemma_propagate_model_wf(m, path);
    match m.root {
        None => {},
        Some((oid, _)) => {
            let c = WalkCursor::AtObject(oid);
            match walk(m.parts, c, path, 0, None) {
                PropagateOutcome::SetNull(vid) => {
                    lemma_walk_vid_wf(m.parts, c, path, 0, None);
                    lemma_parts_set_null_props(m.parts, vid);
                },
                _ => {},
            }
        },
    }
}



impl ResponseBuilder {
    /// A builder with part 0 holding the empty root object.
    pub fn new(root_object_id: usize) -> (r: ResponseBuilder)
        ensures
            builder_wf(r),
            r.root == Some(
                (ResponseObjectId { part_id: 0, index: 0 }, root_object_id),
            ),
            bmodel(r).parts =~~= seq![
                PartModel {
                    objects: seq![Seq::<(ResponseEdge, ResponseValue)>::empty()],
                    lists: Seq::<ResponseValue>::empty(),
                },
            ],
            r.errors@ == Seq::<GraphqlError>::empty(),
    {
        let mut initial = ResponseDataPart::new(0);
        let _root_index = initial.push_object(ResponseObject { fields: Vec::new() });
        let mut parts = Vec::new();
        parts.push(initial);
        let r = ResponseBuilder {
            root: Some((ResponseObjectId { part_id: 0, index: 0 }, root_object_id)),
            parts,
            errors: Vec::new(),
        };
        proof {
            assert(bmodel(r).parts =~~= seq![
                PartModel {
                    objects: seq![Seq::<(ResponseEdge, ResponseValue)>::empty()],
                    lists: Seq::<ResponseValue>::empty(),
                },
            ]);
        }
        r
    }

    /// Reserves a fresh empty part and hands out the exclusive write handle
    /// for it. The reservation is filled at `ingest`; nothing can reference
    /// data of this part before that.
    pub fn new_writer(
        &mut self,
        root_response_objects: Vec<ResponseObjectRef>,
        boundary_ids_start: usize,
        boundary_count: usize,
    ) -> (r: ResponsePart)
        requires
            builder_wf(*old(self)),
            old(self).parts@.len() < usize::MAX,
        ensures
            builder_wf(*final(self)),
            final(self).root == old(self).root,
            final(self).errors@ == old(self).errors@,
            bmodel(*final(self)).parts =~~= bmodel(*old(self)).parts.push(
                PartModel { objects: Seq::empty(), lists: Seq::empty() },
            ),
            r.data.id == old(self).parts@.len(),
            r.data.objects@.len() == 0,
            r.data.lists@.len() == 0,
            r.root_response_objects == root_response_objects,
            r.errors@ == Seq::<GraphqlError>::empty(),
            r.updates@ == Seq::<UpdateSlot>::empty(),
            r.error_paths_to_propagate@ == Seq::<ResponsePath>::empty(),
            r.boundary_ids_start == boundary_ids_start,
            r.boundaries@.len() == boundary_count,
            forall|k: int|
                0 <= k < boundary_count ==> (#[trigger] r.boundaries@[k])@
                    == Seq::<ResponseObjectRef>::empty(),
    {
        let id = self.parts.len();
        self.parts.push(ResponseDataPart::new(id));
        proof {
            let ghost mp = bmodel(*self).parts;
            let ghost mo = bmodel(*old(self)).parts;
            assert(mp =~~= mo.push(PartModel { objects: Seq::empty(), lists: Seq::empty() }));
            assert forall|p: int| 0 <= p < mp.len() implies part_wf(mp, #[trigger] mp[p]) by {
                if p < mo.len() {
                    assert(part_wf(mo, mo[p]));
                    assert forall|i: int, j: int|
                        0 <= i < mp[p].objects.len() && 0 <= j < mp[p].objects[i].len()
                        implies value_wf(mp, (#[trigger] mp[p].objects[i][j]).1) by {
                        assert(value_wf(mo, mp[p].objects[i][j].1));
                    }
                    assert forall|k: int| 0 <= k < mp[p].lists.len() implies value_wf(
                        mp,
                        #[trigger] mp[p].lists[k],
                    ) by {
                        assert(value_wf(mo, mp[p].lists[k]));
                    }
                }
            }
        }
        let mut boundaries: Vec<Vec<ResponseObjectRef>> = Vec::new();
        let mut k: usize = 0;
        while k < boundary_count
            invariant
                k <= boundary_count,
                boundaries@.len() == k,
                forall|t: int|
                    0 <= t < k ==> (#[trigger] boundaries@[t])@
                        == Seq::<ResponseObjectRef>::empty(),
            decreases boundary_count - k,
        {
            boundaries.push(Vec::new());
            k = k + 1;
        }
        ResponsePart {
            data: ResponseDataPart::new(id),
            root_response_objects,
            errors: Vec::new(),
            updates: Vec::new(),
            error_paths_to_propagate: Vec::new(),
            boundary_ids_start,
            boundaries,
        }
    }

    /// The reference through which a root plan updates the root object.
    pub fn root_response_boundary_item(&self) -> (r: Option<ResponseObjectRef>)
        ensures
            match self.root {
                Some((oid, did)) => match r {
                    Some(item) => item.id == oid && item.path@
                        == Seq::<ResponseEdge>::empty() && item.definition_id == did,
                    None => false,
                },
                None => r is None,
            },
    {
        match self.root {
            Some((oid, did)) => Some(
                ResponseObjectRef { id: oid, path: Vec::new(), definition_id: did },
            ),
            None => None,
        }
    }

    /// Appends fields to an already-written object. Positions of existing
    /// fields are stable; out-of-range targets are ignored.
    fn extend_object(&mut self, oid: ResponseObjectId, fields: Vec<(ResponseEdge, ResponseValue)>)
        requires
            builder_wf(*old(self)),
            fields_wf(bmodel(*old(self)).parts, fields@),
        ensures
            builder_wf(*final(self)),
            bmodel(*final(self)) == model_extend_object(bmodel(*old(self)), oid, fields@),
    {
        let ghost m0 = bmodel(*old(self));
        if !(oid.part_id < self.parts.len()) {
            return;
        }
        if !(oid.index < self.parts[oid.part_id].objects.len()) {
            proof {
                assert(m0.parts[oid.part_id as int] == part_model(
                    self.parts@[oid.part_id as int],
                ));
            }
            return;
        }
        let mut part = self.parts.remove(oid.part_id);
        let mut obj = part.objects.remove(oid.index);
        let mut fs = fields;
        obj.fields.append(&mut fs);
        part.objects.insert(oid.index, obj);
        self.parts.insert(oid.part_id, part);
        proof {
            let p = oid.part_id as int;
            let oi = oid.index as int;
            assert(self.parts@ =~= old(self).parts@.update(p, self.parts@[p]));
            assert(self.parts@[p].objects@ =~= old(self).parts@[p].objects@.update(
                oi,
                self.parts@[p].objects@[oi],
            ));
            assert(self.parts@[p].objects@[oi].fields@ == old(
                self,
            ).parts@[p].objects@[oi].fields@ + fields@);
            assert(m0.parts[p] == part_model(old(self).parts@[p]));
            assert(m0.parts[p].objects[oi] == old(self).parts@[p].objects@[oi].fields@);
            assert(part_model(self.parts@[p]).objects =~= m0.parts[p].objects.update(
                oi,
                m0.parts[p].objects[oi] + fields@,
            ));
            assert(part_model(self.parts@[p]) =~~= PartModel {
                objects: m0.parts[p].objects.update(oi, m0.parts[p].objects[oi] + fields@),
                ..m0.parts[p]
            });
            assert(bmodel(*self).parts =~~= model_extend_object(m0, oid, fields@).parts);
            assert(bmodel(*self) =~~= model_extend_object(m0, oid, fields@));
            lemma_extend_wf(m0, oid, fields@);
        }
    }

    /// Merges a prepared update into an already-written object: its fields
    /// are appended, existing field positions stay stable.
    pub fn update_object(&mut self, update: ResponseObjectUpdate)
        requires
            builder_wf(*old(self)),
            fields_wf(bmodel(*old(self)).parts, update.fields@),
        ensures
            builder_wf(*final(self)),
            bmodel(*final(self)) == model_extend_object(
                bmodel(*old(self)),
                update.id,
                update.fields@,
            ),
    {
        self.extend_object(update.id, update.fields)
    }

    /// Seals a delivered part into its reserved slot: installs the arena,
    /// appends the errors, applies every boundary update, propagates every
    /// queued error path, and hands back the boundary objects this part
    /// produced, tagged with their plan boundary ids.
    pub fn ingest(&mut self, part: ResponsePart) -> (r: Vec<(usize, Vec<ResponseObjectRef>)>)
        requires
            builder_wf(*old(self)),
            ingestible(bmodel(*old(self)), ingest_part_model(part)),
            part.data.id < old(self).parts@.len(),
            part.boundary_ids_start + part.boundaries@.len() <= usize::MAX,
        ensures
            builder_wf(*final(self)),
            bmodel(*final(self)) == ingest_model(bmodel(*old(self)), ingest_part_model(part)),
            r@.len() == part.boundaries@.len(),
            forall|k: int|
                0 <= k < r@.len() ==> (#[trigger] r@[k]).0 == part.boundary_ids_start + k
                    && r@[k].1 == part.boundaries@[k],
    {
        let ghost m0 = bmodel(*old(self));
        let ghost pm = ingest_part_model(part);
        let ResponsePart {
            data,
            root_response_objects,
            errors,
            updates,
            error_paths_to_propagate,
            boundary_ids_start,
            boundaries,
        } = part;
        let pid = data.id;
        // Install the arena into its reserved slot.
        let _reservation = self.parts.remove(pid);
        self.parts.insert(pid, data);
        // Append the errors.
        let mut errs = errors;
        self.errors.append(&mut errs);
        let ghost m1 = BuilderModel {
            parts: m0.parts.update(pm.part_id, pm.data),
            errors: m0.errors + pm.errors,
            ..m0
        };
        proof {
            assert(self.parts@ =~= old(self).parts@.update(pid as int, data));
            assert(bmodel(*self).parts =~~= m1.parts);
            assert(bmodel(*self) =~~= m1);
            // The installed slot was empty, so everything that was
            // well-formed stays well-formed, and the new data is too.
            assert forall|p: int| 0 <= p < m1.parts.len() implies part_wf(
                m1.parts,
                #[trigger] m1.parts[p],
            ) by {
                if p == pm.part_id {
                    assert(part_wf(m1.parts, pm.data));
                } else {
                    assert(part_wf(m0.parts, m0.parts[p]));
                    assert forall|i: int, j: int|
                        0 <= i < m1.parts[p].objects.len() && 0 <= j < m1.parts[p].objects[i].len()
                        implies value_wf(m1.parts, (#[trigger] m1.parts[p].objects[i][j]).1) by {
                        assert(value_wf(m0.parts, m0.parts[p].objects[i][j].1));
                    }
                    assert forall|k: int| 0 <= k < m1.parts[p].lists.len() implies value_wf(
                        m1.parts,
                        #[trigger] m1.parts[p].lists[k],
                    ) by {
                        assert(value_wf(m0.parts, m0.parts[p].lists[k]));
                    }
                }
            }
            assert(model_wf(m1));
            assert(builder_wf(*self));
        }
        // Apply the boundary updates in order.
        let ghost refs_m = pm.refs;
        let ghost slots_m = pm.slots;
        let ghost target = apply_updates(m1, refs_m, slots_m, 0);
        let mut refs = root_response_objects;
        let mut slots = updates;
        let n = slots.len();
        proof {
            assert(refs@.map_values(|x: ResponseObjectRef| ref_model(x)) =~= refs_m.subrange(
                0,
                refs_m.len() as int,
            ));
            assert(slots@.map_values(|x: UpdateSlot| slot_model(x)) =~= slots_m.subrange(
                0,
                slots_m.len() as int,
            ));
        }
        let mut i: usize = 0;
        while i < n
            invariant
                i <= n,
                n == slots_m.len(),
                n == refs_m.len(),
                builder_wf(*self),
                counts_eq(m1.parts, bmodel(*self).parts),
                forall|k: int|
                    0 <= k < slots_m.len() ==> match #[trigger] slots_m[k] {
                        SlotModel::Fields(fs) => fields_wf(m1.parts, fs),
                        _ => true,
                    },
                apply_updates(bmodel(*self), refs_m, slots_m, i as int) == target,
                refs@.map_values(|x: ResponseObjectRef| ref_model(x)) =~= refs_m.subrange(
                    i as int,
                    n as int,
                ),
                slots@.map_values(|x: UpdateSlot| slot_model(x)) =~= slots_m.subrange(
                    i as int,
                    n as int,
                ),
            decreases n - i,
        {
            let ghost pre_refs = refs@;
            let ghost pre_slots = slots@;
            proof {
                assert(pre_refs.map_values(|x: ResponseObjectRef| ref_model(x)).len()
                    == pre_refs.len());
                assert(pre_slots.map_values(|x: UpdateSlot| slot_model(x)).len()
                    == pre_slots.len());
                assert(pre_refs.len() == n - i);
                assert(pre_slots.len() == n - i);
            }
            let r0 = refs.remove(0);
            let u0 = slots.remove(0);
            proof {
                assert(pre_refs.map_values(|x: ResponseObjectRef| ref_model(x))[0] == ref_model(
                    pre_refs[0],
                ));
                assert(pre_slots.map_values(|x: UpdateSlot| slot_model(x))[0] == slot_model(
                    pre_slots[0],
                ));
                assert(ref_model(r0) == refs_m[i as int]);
                assert(slot_model(u0) == slots_m[i as int]);
            }
            let ghost pre = bmodel(*self);
            match u0 {
                UpdateSlot::Fields(fs) => {
                    proof {
                        assert(slots_m[i as int] == SlotModel::Fields(fs@));
                        assert(fields_wf(m1.parts, fs@));
                        assert forall|j: int| 0 <= j < fs@.len() implies value_wf(
                            bmodel(*self).parts,
                            (#[trigger] fs@[j]).1,
                        ) by {
                            lemma_value_wf_counts(m1.parts, bmodel(*self).parts, fs@[j].1);
                        }
                    }
                    self.extend_object(r0.id, fs);
                    proof {
                        lemma_extend_wf(pre, r0.id, slots_m[i as int]->Fields_0);
                        assert(bmodel(*self) == apply_update(
                            pre,
                            refs_m[i as int],
                            slots_m[i as int],
                        ));
                    }
                },
                UpdateSlot::Reserved => {
                    self.propagate_error(&r0.path);
                    proof {
                        lemma_propagate_counts(pre, r0.path@);
                        assert(bmodel(*self) == apply_update(
                            pre,
                            refs_m[i as int],
                            slots_m[i as int],
                        ));
                    }
                },
                UpdateSlot::Error => {
                    self.propagate_error(&r0.path);
                    proof {
                        lemma_propagate_counts(pre, r0.path@);
                        assert(bmodel(*self) == apply_update(
                            pre,
                            refs_m[i as int],
                            slots_m[i as int],
                        ));
                    }
                },
            }
            proof {
                assert(apply_updates(pre, refs_m, slots_m, i as int) == apply_updates(
                    bmodel(*self),
                    refs_m,
                    slots_m,
                    i as int + 1,
                ));
                assert(refs@ =~= pre_refs.drop_first());
                assert(slots@ =~= pre_slots.drop_first());
                assert forall|t: int| #![trigger refs@[t]] 0 <= t < refs@.len() implies refs@.map_values(
                    |x: ResponseObjectRef| ref_model(x),
                )[t] == refs_m.subrange(i as int + 1, n as int)[t] by {
                    assert(refs@[t] == pre_refs[t + 1]);
                    assert(pre_refs.map_values(|x: ResponseObjectRef| ref_model(x))[t + 1]
                        == ref_model(pre_refs[t + 1]));
                    assert(pre_refs.map_values(|x: ResponseObjectRef| ref_model(x))[t + 1]
                        == refs_m.subrange(i as int, n as int)[t + 1]);
                }
                assert(refs@.map_values(|x: ResponseObjectRef| ref_model(x)) =~= refs_m.subrange(
                    i as int + 1,
                    n as int,
                ));
                assert forall|t: int| #![trigger slots@[t]] 0 <= t < slots@.len() implies slots@.map_values(
                    |x: UpdateSlot| slot_model(x),
                )[t] == slots_m.subrange(i as int + 1, n as int)[t] by {
                    assert(slots@[t] == pre_slots[t + 1]);
                    assert(pre_slots.map_values(|x: UpdateSlot| slot_model(x))[t + 1] == slot_model(
                        pre_slots[t + 1],
                    ));
                    assert(pre_slots.map_values(|x: UpdateSlot| slot_model(x))[t + 1]
                        == slots_m.subrange(i as int, n as int)[t + 1]);
                }
                assert(slots@.map_values(|x: UpdateSlot| slot_model(x)) =~= slots_m.subrange(
                    i as int + 1,
                    n as int,
                ));
            }
            i = i + 1;
        }
        proof {
            assert(bmodel(*self) == target);
        }
        // Propagate the queued error paths in order.
        let ghost paths_m = pm.queued;
        let ghost target2 = apply_paths(target, paths_m, 0);
        let mut qs = error_paths_to_propagate;
        let qn = qs.len();
        proof {
            assert(qs@.map_values(|q: ResponsePath| q@) =~= paths_m.subrange(
                0,
                paths_m.len() as int,
            ));
        }
        let mut j: usize = 0;
        while j < qn
            invariant
                j <= qn,
                qn == paths_m.len(),
                builder_wf(*self),
                apply_paths(bmodel(*self), paths_m, j as int) == target2,
                qs@.map_values(|q: ResponsePath| q@) =~= paths_m.subrange(j as int, qn as int),
            decreases qn - j,
        {
            let ghost pre_qs = qs@;
            proof {
                assert(pre_qs.map_values(|q: ResponsePath| q@).len() == pre_qs.len());
                assert(pre_qs.len() == qn - j);
            }
            let q0 = qs.remove(0);
            proof {
                assert(pre_qs.map_values(|q: ResponsePath| q@)[0] == pre_qs[0]@);
                assert(q0@ == paths_m[j as int]);
            }
            let ghost pre = bmodel(*self);
            self.propagate_error(&q0);
            proof {
                assert(apply_paths(pre, paths_m, j as int) == apply_paths(
                    bmodel(*self),
                    paths_m,
                    j as int + 1,
                ));
                assert(qs@ =~= pre_qs.drop_first());
                assert forall|t: int| #![trigger qs@[t]] 0 <= t < qs@.len() implies qs@.map_values(
                    |q: ResponsePath| q@,
                )[t] == paths_m.subrange(j as int + 1, qn as int)[t] by {
                    assert(qs@[t] == pre_qs[t + 1]);
                    assert(pre_qs.map_values(|q: ResponsePath| q@)[t + 1] == pre_qs[t + 1]@);
                    assert(pre_qs.map_values(|q: ResponsePath| q@)[t + 1] == paths_m.subrange(
                        j as int,
                        qn as int,
                    )[t + 1]);
                }
                assert(qs@.map_values(|q: ResponsePath| q@) =~= paths_m.subrange(
                    j as int + 1,
                    qn as int,
                ));
            }
            j = j + 1;
        }
        proof {
            assert(bmodel(*self) == target2);
            assert(bmodel(*self) == ingest_model(m0, pm));
        }
        // Hand back the produced boundary objects with their ids.
        let mut out: Vec<(usize, Vec<ResponseObjectRef>)> = Vec::new();
        let mut bs = boundaries;
        let bn = bs.len();
        let ghost bm = bs@;
        let mut k: usize = 0;
        while k < bn
            invariant
                k <= bn,
                bn == bm.len(),
                boundary_ids_start + bn <= usize::MAX,
                out@.len() == k,
                forall|t: int|
                    0 <= t < k ==> (#[trigger] out@[t]).0 == boundary_ids_start + t && out@[t].1
                        == bm[t],
                bs@ =~= bm.subrange(k as int, bn as int),
            decreases bn - k,
        {
            let b0 = bs.remove(0);
            proof {
                assert(bm.subrange(k as int, bn as int)[0] == b0);
                assert(b0 == bm[k as int]);
            }
            out.push((boundary_ids_start + k, b0));
            proof {
                assert(bs@ =~= bm.subrange(k as int + 1, bn as int));
            }
            k = k + 1;
        }
        out
    }
}

impl ResponsePart {
    /// Hands out the next update slot: one per boundary object, in order.
    pub fn next_writer(&mut self) -> (r: Option<usize>)
        ensures
            old(self).updates@.len() < old(self).root_response_objects@.len() ==> ({
                &&& (match r {
                    Some(u) => u as int == old(self).updates@.len(),
                    None => false,
                })
                &&& final(self).updates@ == old(self).updates@.push(UpdateSlot::Reserved)
                &&& final(self).data == old(self).data
                &&& final(self).errors == old(self).errors
                &&& final(self).root_response_objects == old(self).root_response_objects
                &&& final(self).error_paths_to_propagate == old(self).error_paths_to_propagate
                &&& final(self).boundary_ids_start == old(self).boundary_ids_start
                &&& final(self).boundaries == old(self).boundaries
            }),
            old(self).updates@.len() >= old(self).root_response_objects@.len() ==> (r is None
                && *final(self) == *old(self)),
    {
        if self.updates.len() < self.root_response_objects.len() {
            let u = self.updates.len();
            self.updates.push(UpdateSlot::Reserved);
            Some(u)
        } else {
            None
        }
    }

    /// Records the decision for one update slot.
    pub fn set_update(&mut self, u: usize, slot: UpdateSlot)
        requires
            u < old(self).updates@.len(),
        ensures
            final(self).updates@ == old(self).updates@.update(u as int, slot),
            final(self).data == old(self).data,
            final(self).errors == old(self).errors,
            final(self).root_response_objects == old(self).root_response_objects,
            final(self).error_paths_to_propagate == old(self).error_paths_to_propagate,
            final(self).boundary_ids_start == old(self).boundary_ids_start,
            final(self).boundaries == old(self).boundaries,
    {
        self.updates.set(u, slot);
    }

    /// Appends several errors to this part's error list.
    pub fn push_errors(&mut self, errors: Vec<GraphqlError>)
        ensures
            final(self).errors@ == old(self).errors@ + errors@,
            final(self).data == old(self).data,
            final(self).root_response_objects == old(self).root_response_objects,
            final(self).updates == old(self).updates,
            final(self).error_paths_to_propagate == old(self).error_paths_to_propagate,
            final(self).boundary_ids_start == old(self).boundary_ids_start,
            final(self).boundaries == old(self).boundaries,
    {
        let mut errors = errors;
        self.errors.append(&mut errors);
    }
}


/// Counts are preserved by propagation, with no well-formedness needed: the
/// walk bounds-checks every step itself.
pub proof fn lemma_propagate_counts_any(m: BuilderModel, path: Seq<ResponseEdge>)
    ensures
        counts_eq(m.parts, propagate_model(m, path).parts),
        propagate_model(m, path).errors == m.errors,
{
    match m.root {
        None => {},
        Some((oid, _)) => {
            let c = WalkCursor::AtObject(oid);
            lemma_walk_vid_wf(m.parts, c, path, 0, None);
            match walk(m.parts, c, path, 0, None) {
                PropagateOutcome::SetNull(vid) => {
                    lemma_parts_set_null_props(m.parts, vid);
                },
                _ => {},
            }
        },
    }
}

pub proof fn lemma_apply_updates_counts(
    m: BuilderModel,
    refs: Seq<RefModel>,
    slots: Seq<SlotModel>,
    i: int,
)
    ensures
        counts_eq(m.parts, apply_updates(m, refs, slots, i).parts),
    decreases refs.len() - i,
{
    if 0 <= i < refs.len() && i < slots.len() {
        let m2 = apply_update(m, refs[i], slots[i]);
        match slots[i] {
            SlotModel::Fields(fs) => {},
            _ => {
                lemma_propagate_counts_any(m, refs[i].path);
            },
        }
        lemma_apply_updates_counts(m2, refs, slots, i + 1);
    }
}

pub proof fn lemma_apply_paths_counts(m: BuilderModel, paths: Seq<Seq<ResponseEdge>>, i: int)
    ensures
        counts_eq(m.parts, apply_paths(m, paths, i).parts),
    decreases paths.len() - i,
{
    if 0 <= i < paths.len() {
        lemma_propagate_counts_any(m, paths[i]);
        lemma_apply_paths_counts(propagate_model(m, paths[i]), paths, i + 1);
    }
}


/// Propagation's effect on the tree and the root does not depend on the
/// error list.
pub proof fn lemma_propagate_errors_indep(
    ma: BuilderModel,
    mb: BuilderModel,
    path: Seq<ResponseEdge>,
)
    requires
        ma.parts == mb.parts,
        ma.root == mb.root,
    ensures
        propagate_model(ma, path).parts == propagate_model(mb, path).parts,
        propagate_model(ma, path).root == propagate_model(mb, path).root,
{
    assert(propagate_outcome(ma, path) == propagate_outcome(mb, path));
}

/// Applying updates: the tree and the root do not depend on the error list.
pub proof fn lemma_apply_updates_errors_indep(
    ma: BuilderModel,
    mb: BuilderModel,
    refs: Seq<RefModel>,
    slots: Seq<SlotModel>,
    i: int,
)
    requires
        ma.parts == mb.parts,
        ma.root == mb.root,
    ensures
        apply_updates(ma, refs, slots, i).parts == apply_updates(mb, refs, slots, i).parts,
        apply_updates(ma, refs, slots, i).root == apply_updates(mb, refs, slots, i).root,
    decreases refs.len() - i,
{
    if 0 <= i < refs.len() && i < slots.len() {
        let na = apply_update(ma, refs[i], slots[i]);
        let nb = apply_update(mb, refs[i], slots[i]);
        match slots[i] {
            SlotModel::Fields(_) => {},
            _ => {
                lemma_propagate_errors_indep(ma, mb, refs[i].path);
            },
        }
        lemma_apply_updates_errors_indep(na, nb, refs, slots, i + 1);
    }
}

/// Propagating queued paths: the tree and the root do not depend on the
/// error list.
pub proof fn lemma_apply_paths_errors_indep(
    ma: BuilderModel,
    mb: BuilderModel,
    paths: Seq<Seq<ResponseEdge>>,
    i: int,
)
    requires
        ma.parts == mb.parts,
        ma.root == mb.root,
    ensures
        apply_paths(ma, paths, i).parts == apply_paths(mb, paths, i).parts,
        apply_paths(ma, paths, i).root == apply_paths(mb, paths, i).root,
    decreases paths.len() - i,
{
    if 0 <= i < paths.len() {
        lemma_propagate_errors_indep(ma, mb, paths[i]);
        lemma_apply_paths_errors_indep(
            propagate_model(ma, paths[i]),
            propagate_model(mb, paths[i]),
            paths,
            i + 1,
        );
    }
}

/// The sealed tree and the root after ingesting a part do not depend on the
/// error payloads, only on the arena, the boundary objects and the slots.
pub proof fn lemma_ingest_errors_indep(
    ma: BuilderModel,
    mb: BuilderModel,
    pma: PartIngestModel,
    pmb: PartIngestModel,
)
    requires
        ma.parts == mb.parts,
        ma.root == mb.root,
        pma.part_id == pmb.part_id,
        pma.data == pmb.data,
        pma.refs == pmb.refs,
        pma.slots == pmb.slots,
        pma.queued == pmb.queued,
    ensures
        ingest_model(ma, pma).parts == ingest_model(mb, pmb).parts,
        ingest_model(ma, pma).root == ingest_model(mb, pmb).root,
{
    let m1a = BuilderModel {
        parts: ma.parts.update(pma.part_id, pma.data),
        errors: ma.errors + pma.errors,
        ..ma
    };
    let m1b = BuilderModel {
        parts: mb.parts.update(pmb.part_id, pmb.data),
        errors: mb.errors + pmb.errors,
        ..mb
    };
    lemma_apply_updates_errors_indep(m1a, m1b, pma.refs, pma.slots, 0);
    lemma_apply_paths_errors_indep(
        apply_updates(m1a, pma.refs, pma.slots, 0),
        apply_updates(m1b, pmb.refs, pmb.slots, 0),
        pma.queued,
        0,
    );
}


/// Sealing appends exactly the part's errors: updates and propagation never
/// touch the error list.
pub proof fn lemma_apply_updates_errors_value(
    m: BuilderModel,
    refs: Seq<RefModel>,
    slots: Seq<SlotModel>,
    i: int,
)
    ensures
        apply_updates(m, refs, slots, i).errors == m.errors,
    decreases refs.len() - i,
{
    if 0 <= i < refs.len() && i < slots.len() {
        lemma_apply_updates_errors_value(apply_update(m, refs[i], slots[i]), refs, slots, i + 1);
    }
}

pub proof fn lemma_apply_paths_errors_value(m: BuilderModel, paths: Seq<Seq<ResponseEdge>>, i: int)
    ensures
        apply_paths(m, paths, i).errors == m.errors,
    decreases paths.len() - i,
{
    if 0 <= i < paths.len() {
        lemma_apply_paths_errors_value(propagate_model(m, paths[i]), paths, i + 1);
    }
}

pub proof fn lemma_ingest_errors_value(m: BuilderModel, pm: PartIngestModel)
    ensures
        ingest_model(m, pm).errors == m.errors + pm.errors,
{
    let m1 = BuilderModel {
        parts: m.parts.update(pm.part_id, pm.data),
        errors: m.errors + pm.errors,
        ..m
    };
    lemma_apply_updates_errors_value(m1, pm.refs, pm.slots, 0);
    lemma_apply_paths_errors_value(apply_updates(m1, pm.refs, pm.slots, 0), pm.queued, 0);
}


/// Sealing a part whose slots are all field-merges and which queues nothing
/// (the introspection hand-off) keeps the root; updates never touch it.
pub proof fn lemma_fields_only_updates_root(
    m: BuilderModel,
    refs: Seq<RefModel>,
    slots: Seq<SlotModel>,
    i: int,
)
    requires
        forall|t: int| 0 <= t < slots.len() ==> (#[trigger] slots[t]) is Fields,
    ensures
        apply_updates(m, refs, slots, i).root == m.root,
    decreases refs.len() - i,
{
    if 0 <= i < refs.len() && i < slots.len() {
        lemma_fields_only_updates_root(apply_update(m, refs[i], slots[i]), refs, slots, i + 1);
    }
}

pub proof fn lemma_fields_only_ingest_root(m: BuilderModel, pm: PartIngestModel)
    requires
        forall|t: int| 0 <= t < pm.slots.len() ==> (#[trigger] pm.slots[t]) is Fields,
        pm.queued.len() == 0,
    ensures
        ingest_model(m, pm).root == m.root,
{
    let m1 = BuilderModel {
        parts: m.parts.update(pm.part_id, pm.data),
        errors: m.errors + pm.errors,
        ..m
    };
    lemma_fields_only_updates_root(m1, pm.refs, pm.slots, 0);
}

} // verus!