//! The engine: the operation cache, and the coordinator that drives a plan's
//! DAG — introspection plans locally, subgraph plans through dispatched
//! requests whose response bodies are handed back by the caller.

use vstd::prelude::*;
use crate::dser::{part_seed_state, pstate_wf, value_swf, SeedState};
use crate::error::GraphqlError;
use crate::json::JsonValue;
use crate::operation::{
    bind_err_spec, bind_selection, lemma_binds_iff_no_err, parse_operation, plan_operation,
    schema_wf, FedSchema, HeaderRuleValue, OperationPlan, Plan,
};
use crate::shape::ResponseKeys;
use crate::upstream::{ingest_upstream_response, refs_model, slot_swf};
use crate::write::{
    bmodel, builder_wf, ingest_part_model, ingestible, part_model, BuilderModel, ResponseBuilder,
    ResponseObjectId, ResponseObjectRef, ResponsePart, ResponseValue, SlotModel, UpdateSlot,
};

verus! {

// ---------------------------------------------------------------------------
// From a self-contained part to an ingestible one.
// ---------------------------------------------------------------------------

/// A part whose writes stay inside itself, whose slots are all decided with
/// self-contained fields, and whose boundary objects point at sealed parts,
/// may be ingested.
pub proof fn lemma_part_ingestible(m: BuilderModel, part: ResponsePart)
    requires
        ({
            let st = part_seed_state(part, Seq::empty(), false);
            &&& pstate_wf(st)
            &&& part.updates@.len() == part.root_response_objects@.len()
            &&& forall|t: int|
                0 <= t < part.updates@.len() ==> slot_swf(
                    st,
                    crate::write::slot_model(#[trigger] part.updates@[t]),
                )
            &&& (part.data.id as int) < m.parts.len()
            &&& m.parts[part.data.id as int].objects.len() == 0
            &&& m.parts[part.data.id as int].lists.len() == 0
            &&& forall|k: int|
                0 <= k < part.root_response_objects@.len() ==> (
                #[trigger] part.root_response_objects@[k]).id.part_id < m.parts.len()
                    && part.root_response_objects@[k].id.index < m.parts[
                    part.root_response_objects@[k].id.part_id as int
                ].objects.len()
        }),
    ensures
        ingestible(m, ingest_part_model(part)),
{
    let st = part_seed_state(part, Seq::empty(), false);
    let p = ingest_part_model(part);
    let installed = m.parts.update(p.part_id, p.data);
    assert(p.data == part_model(part.data));
    assert(p.part_id == part.data.id as int);
    assert forall|i: int, j: int|
        0 <= i < p.data.objects.len() && 0 <= j < p.data.objects[i].len() implies
        crate::write::value_wf(installed, (#[trigger] p.data.objects[i][j]).1) by {
        assert(value_swf(st, st.data.objects[i][j].1));
    }
    assert forall|k: int| 0 <= k < p.data.lists.len() implies crate::write::value_wf(
        installed,
        #[trigger] p.data.lists[k],
    ) by {
        assert(value_swf(st, st.data.lists[k]));
    }
    assert(crate::write::part_wf(installed, p.data));
    assert forall|t: int|
        0 <= t < p.slots.len() implies match #[trigger] p.slots[t] {
        SlotModel::Fields(fs) => crate::write::fields_wf(installed, fs),
        _ => true,
    } by {
        assert(p.slots[t] == crate::write::slot_model(part.updates@[t]));
        match p.slots[t] {
            SlotModel::Fields(fs) => {
                assert(slot_swf(st, p.slots[t]));
                assert forall|x: int| 0 <= x < fs.len() implies crate::write::value_wf(
                    installed,
                    (#[trigger] fs[x]).1,
                ) by {
                    assert(value_swf(st, fs[x].1));
                }
            },
            _ => {},
        }
    }
    assert forall|k: int|
        0 <= k < p.refs.len() implies (#[trigger] p.refs[k]).id.part_id < installed.len()
        && p.refs[k].id.index < installed[p.refs[k].id.part_id as int].objects.len() by {
        assert(p.refs[k] == crate::write::ref_model(part.root_response_objects@[k]));
        assert(part.root_response_objects@[k].id.part_id != p.part_id
            || m.parts[p.part_id].objects.len() == 0);
    }
}

// ---------------------------------------------------------------------------
// The operation cache.
// ---------------------------------------------------------------------------

/// The operation cache: query text to plan, first writer wins, unique keys.
pub struct OpCache {
    pub entries: Vec<(String, OperationPlan)>,
}

impl OpCache {
    pub open spec fn keys_model(&self) -> Seq<Seq<char>> {
        self.entries@.map_values(|e: (String, OperationPlan)| e.0@)
    }

    pub fn new() -> (r: OpCache)
        ensures
            r.entries@.len() == 0,
    {
        OpCache { entries: Vec::new() }
    }

    /// The cached plan for a query text: the first entry with that text.
    pub fn lookup(&self, query: &str) -> (r: Option<usize>)
        ensures
            match r {
                Some(i) => i < self.entries@.len() && self.entries@[i as int].0@ == query@
                    && (forall|t: int|
                    0 <= t < i ==> (#[trigger] self.entries@[t]).0@ != query@),
                None => forall|t: int|
                    0 <= t < self.entries@.len() ==> (#[trigger] self.entries@[t]).0@ != query@,
            },
    {
        let n = self.entries.len();
        let mut i: usize = 0;
        while i < n
            invariant
                i <= n,
                n == self.entries@.len(),
                forall|t: int| 0 <= t < i ==> (#[trigger] self.entries@[t]).0@ != query@,
            decreases n - i,
        {
            if crate::shape::string_eq_str(&self.entries[i].0, query) {
                return Some(i);
            }
            i = i + 1;
        }
        None
    }
}

/// A query text the front of the pipeline accepts: it parses, is not a
/// subscription, and binds against the schema's root type.
pub open spec fn query_accepted(schema: FedSchema, q: Seq<char>) -> bool {
    match crate::operation::parse_op_spec(q) {
        Ok(op) => !op.is_subscription && crate::operation::binds_ok(
            schema,
            schema.root as int,
            op.selection,
        ),
        Err(_) => false,
    }
}

/// Every cached entry was accepted against the engine's schema.
pub open spec fn engine_cache_wf(e: Engine) -> bool {
    forall|t: int|
        0 <= t < e.cache.entries@.len() ==> query_accepted(
            e.schema,
            (#[trigger] e.cache.entries@[t]).0@,
        )
}

/// The engine: the schema, shared by every request, and the operation cache.
pub struct Engine {
    pub schema: FedSchema,
    pub cache: OpCache,
}

impl Engine {
    pub fn new(schema: FedSchema) -> (r: Engine)
        ensures
            r.schema == schema,
            r.cache.entries@.len() == 0,
            engine_cache_wf(r),
    {
        Engine { schema, cache: OpCache::new() }
    }

    /// Parses, binds and plans an operation, consulting the cache first: a
    /// hit leaves the cache untouched and returns the cached entry; a miss
    /// appends exactly one entry under the query's own text; a rejected
    /// operation changes nothing. Subscriptions are refused.
    pub fn prepare(&mut self, query: &str) -> (r: Result<usize, GraphqlError>)
        requires
            schema_wf(old(self).schema),
            engine_cache_wf(*old(self)),
        ensures
            final(self).schema == old(self).schema,
            engine_cache_wf(*final(self)),
            r is Ok ==> query_accepted(old(self).schema, query@),
            !query_accepted(old(self).schema, query@) ==> r is Err,
            (query_accepted(old(self).schema, query@) && (match crate::operation::parse_op_spec(
                query@,
            ) {
                Ok(op) => crate::operation::all_typename_ast(op.selection),
                Err(_) => false,
            })) ==> r is Ok,
            (match crate::operation::parse_op_spec(query@) {
                Err(pe) => match r {
                    Err(e) => crate::operation::perr_matches(e, pe),
                    Ok(_) => false,
                },
                Ok(op) => {
                    &&& (op.is_subscription ==> match r {
                        Err(e) => e.message@
                            == "Subscriptions are only supported on streaming transports"@
                            && e.locations@.len() == 0 && e.path is None && e.extensions@.len()
                            == 0,
                        Ok(_) => false,
                    })
                    &&& ((!op.is_subscription && bind_err_spec(
                        old(self).schema,
                        old(self).schema.root as int,
                        op.selection,
                    ) is Some) ==> match r {
                        Err(e) => crate::operation::perr_matches(
                            e,
                            bind_err_spec(
                                old(self).schema,
                                old(self).schema.root as int,
                                op.selection,
                            ).unwrap(),
                        ),
                        Ok(_) => false,
                    })
                },
            }),
            match r {
                Ok(i) => {
                    &&& i < final(self).cache.entries@.len()
                    &&& final(self).cache.entries@[i as int].0@ == query@
                    &&& crate::shape::key_index(final(self).cache.keys_model(), query@) == Some(
                        i as int,
                    )
                    &&& (final(self).cache == old(self).cache || ({
                        &&& i == old(self).cache.entries@.len()
                        &&& final(self).cache.entries@.len() == old(self).cache.entries@.len() + 1
                        &&& final(self).cache.entries@.subrange(0, i as int) == old(self).cache.entries@
                    }))
                },
                Err(_) => final(self).cache == old(self).cache
                    && crate::shape::key_index(final(self).cache.keys_model(), query@) is None,
            },
    {
        match self.cache.lookup(query) {
            Some(i) => {
                proof {
                    crate::shape::lemma_key_index_at(
                        self.cache.keys_model(),
                        query@,
                        i as int,
                    );
                    match crate::operation::parse_op_spec(query@) {
                        Ok(op) => {
                            lemma_binds_iff_no_err(
                                self.schema,
                                self.schema.root as int,
                                op.selection,
                            );
                        },
                        Err(_) => {},
                    }
                }
                return Ok(i);
            },
            None => {},
        }
        proof {
            lemma_absent_query(&self.cache, query@);
        }
        let parsed = match parse_operation(query) {
            Ok(p) => p,
            Err(e) => {
                return Err(e);
            },
        };
        if parsed.is_subscription {
            return Err(
                GraphqlError {
                    message:
                        "Subscriptions are only supported on streaming transports".to_owned(),
                    locations: Vec::new(),
                    path: None,
                    extensions: Vec::new(),
                },
            );
        }
        let mut keys = ResponseKeys { keys: Vec::new() };
        let bound = match bind_selection(&self.schema, &mut keys, self.schema.root, &parsed.selection) {
            Ok(b) => b,
            Err(e) => {
                return Err(e);
            },
        };
        proof {
            match crate::operation::parse_op_spec(query@) {
                Ok(op) => {
                    if crate::operation::all_typename_ast(op.selection) {
                        crate::operation::lemma_ast_models(parsed.selection@);
                        assert forall|t: int| 0 <= t < bound@.len() implies (
                        #[trigger] bound@[t]).field is None by {
                            assert(op.selection[t].name == "__typename"@);
                            assert(op.selection[t] == crate::operation::ast_model(
                                parsed.selection@[t],
                            ));
                            assert(parsed.selection@[t].name@ == "__typename"@);
                        }
                        assert(crate::operation::all_typename(bound@));
                    }
                },
                Err(_) => {},
            }
        }
        let plan = match plan_operation(&self.schema, keys, bound) {
            Ok(p) => p,
            Err(e) => {
                return Err(e);
            },
        };
        let i = self.cache.entries.len();
        let ghost pre = self.cache.entries@;
        self.cache.entries.push((query.to_owned(), plan));
        proof {
            assert forall|t: int| 0 <= t < i implies self.cache.keys_model()[t] != query@ by {
                assert(self.cache.entries@[t] == pre[t]);
            }
            assert(self.cache.keys_model()[i as int] == query@);
            crate::shape::lemma_key_index_at(self.cache.keys_model(), query@, i as int);
            assert(self.cache.entries@.subrange(0, i as int) =~= pre);
        }
        Ok(i)
    }
}

// ---------------------------------------------------------------------------
// Execution.
// ---------------------------------------------------------------------------

/// The coordinator's state: the shared builder, the next plan to run, and
/// the boundary hand-offs produced so far.
pub struct ExecutionState {
    pub builder: ResponseBuilder,
    pub next_plan: usize,
    pub boundary_data: Vec<Option<Vec<ResponseObjectRef>>>,
}

/// The coordinator's invariant: the tree is well-formed and every delivered
/// boundary object points at a sealed container.
pub open spec fn boundary_ref_ok(m: BuilderModel, r: ResponseObjectRef) -> bool {
    r.id.part_id < m.parts.len() && r.id.index < m.parts[r.id.part_id as int].objects.len()
}

pub open spec fn exec_state_wf(st: ExecutionState) -> bool {
    &&& builder_wf(st.builder)
    &&& forall|b: int, k: int|
        #![trigger st.boundary_data@[b].unwrap()@[k]]
        0 <= b < st.boundary_data@.len() && st.boundary_data@[b] is Some && 0 <= k
            < st.boundary_data@[b].unwrap()@.len() ==> boundary_ref_ok(
            bmodel(st.builder),
            st.boundary_data@[b].unwrap()@[k],
        )
}

/// A dispatch the caller must perform: POST the body to the subgraph.
pub struct SubgraphRequest {
    pub plan_index: usize,
    pub subgraph: usize,
    pub body: String,
}

/// What the coordinator asks for next: it ran one local step itself, it
/// needs a dispatch performed, or every plan has run.
pub enum StepAction {
    Continue,
    Fetch(SubgraphRequest),
    Done,
}

/// The first incoming header with the given name, if any.
pub open spec fn incoming_lookup(incoming: Seq<(Seq<char>, Seq<char>)>, name: Seq<char>) -> Option<
    Seq<char>,
>
    decreases incoming.len(),
{
    if incoming.len() == 0 {
        None
    } else if incoming[0].0 == name {
        Some(incoming[0].1)
    } else {
        incoming_lookup(incoming.drop_first(), name)
    }
}

/// What the header rules of a subgraph compose from the incoming headers:
/// forward rules copy the named incoming header and are omitted when it is
/// absent, static rules inject their value.
pub open spec fn headers_spec(
    rules: Seq<(Seq<char>, crate::operation::HeaderRuleValue)>,
    incoming: Seq<(Seq<char>, Seq<char>)>,
) -> Seq<(Seq<char>, Seq<char>)>
    decreases rules.len(),
{
    if rules.len() == 0 {
        Seq::empty()
    } else {
        let rest = headers_spec(rules.drop_first(), incoming);
        match rules[0].1 {
            crate::operation::HeaderRuleValue::Static(v) => seq![(rules[0].0, v@)] + rest,
            crate::operation::HeaderRuleValue::Forward(name) => match incoming_lookup(
                incoming,
                name@,
            ) {
                Some(v) => seq![(rules[0].0, v)] + rest,
                None => rest,
            },
        }
    }
}

pub open spec fn rules_model(
    rules: Seq<crate::operation::HeaderRule>,
) -> Seq<(Seq<char>, crate::operation::HeaderRuleValue)> {
    rules.map_values(|r: crate::operation::HeaderRule| (r.name@, r.value))
}

pub open spec fn headers_model(hs: Seq<(String, String)>) -> Seq<(Seq<char>, Seq<char>)> {
    hs.map_values(|h: (String, String)| (h.0@, h.1@))
}

pub proof fn lemma_incoming_lookup_at(
    incoming: Seq<(Seq<char>, Seq<char>)>,
    name: Seq<char>,
    j: int,
)
    requires
        0 <= j < incoming.len(),
        incoming[j].0 == name,
        forall|t: int| 0 <= t < j ==> (#[trigger] incoming[t]).0 != name,
    ensures
        incoming_lookup(incoming, name) == Some(incoming[j].1),
    decreases incoming.len(),
{
    if j > 0 {
        let rest = incoming.drop_first();
        assert(forall|t: int| 0 <= t < rest.len() ==> rest[t] == incoming[t + 1]);
        lemma_incoming_lookup_at(rest, name, j - 1);
    }
}

pub proof fn lemma_incoming_lookup_none(incoming: Seq<(Seq<char>, Seq<char>)>, name: Seq<char>)
    requires
        forall|t: int| 0 <= t < incoming.len() ==> (#[trigger] incoming[t]).0 != name,
    ensures
        incoming_lookup(incoming, name) is None,
    decreases incoming.len(),
{
    if incoming.len() > 0 {
        let rest = incoming.drop_first();
        assert(forall|t: int| 0 <= t < rest.len() ==> rest[t] == incoming[t + 1]);
        lemma_incoming_lookup_none(rest, name);
    }
}

/// Composes the headers of a subgraph request from its header rules: forward
/// rules copy the named incoming header when present, static rules inject
/// their value; absent forward headers are omitted.
#[verifier::loop_isolation(false)]
pub fn subgraph_headers(
    schema: &FedSchema,
    subgraph: usize,
    incoming: &Vec<(String, String)>,
) -> (r: Vec<(String, String)>)
    requires
        subgraph < schema.subgraphs@.len(),
    ensures
        headers_model(r@) == headers_spec(
            rules_model(schema.subgraphs@[subgraph as int].headers@),
            headers_model(incoming@),
        ),
{
    let ghost rules_m = rules_model(schema.subgraphs@[subgraph as int].headers@);
    let ghost inc_m = headers_model(incoming@);
    let ghost full = headers_spec(rules_m, inc_m);
    let mut out: Vec<(String, String)> = Vec::new();
    let n = schema.subgraphs[subgraph].headers.len();
    let mut i: usize = 0;
    proof {
        assert(rules_m.subrange(0, n as int) =~= rules_m);
    }
    while i < n
        invariant
            i <= n,
            full =~= headers_model(out@) + headers_spec(
                rules_m.subrange(i as int, n as int),
                inc_m,
            ),
        decreases n - i,
    {
        let ghost rem = rules_m.subrange(i as int, n as int);
        proof {
            assert(rem[0] == rules_m[i as int]);
            assert(rem[0] == (schema.subgraphs@[subgraph as int].headers@[i as int].name@,
            schema.subgraphs@[subgraph as int].headers@[i as int].value));
            assert(rem.drop_first() =~= rules_m.subrange(i as int + 1, n as int));
        }
        let rule = &schema.subgraphs[subgraph].headers[i];
        match &rule.value {
            HeaderRuleValue::Static(v) => {
                let ghost pre = out@;
                out.push(
                    (
                        crate::upstream::clone_string(&rule.name),
                        crate::upstream::clone_string(v),
                    ),
                );
                proof {
                    assert(headers_model(out@) =~= headers_model(pre).push(
                        (rule.name@, v@),
                    ));
                }
            },
            HeaderRuleValue::Forward(name) => {
                let m = incoming.len();
                let mut j: usize = 0;
                let mut hit = false;
                while j < m && !hit
                    invariant
                        j <= m,
                        m == incoming@.len(),
                        !hit ==> forall|t: int|
                            0 <= t < j ==> (#[trigger] inc_m[t]).0 != name@,
                        hit ==> j < m && inc_m[j as int].0 == name@ && (forall|t: int|
                            0 <= t < j ==> (#[trigger] inc_m[t]).0 != name@),
                    decreases m - j + (if hit { 0int } else { 1int }),
                {
                    if crate::shape::string_eq_str(&incoming[j].0, name.as_str()) {
                        hit = true;
                    } else {
                        j = j + 1;
                    }
                }
                if hit && j < incoming.len() {
                    let ghost pre = out@;
                    out.push(
                        (
                            crate::upstream::clone_string(&rule.name),
                            crate::upstream::clone_string(&incoming[j].1),
                        ),
                    );
                    proof {
                        lemma_incoming_lookup_at(inc_m, name@, j as int);
                        assert(headers_model(out@) =~= headers_model(pre).push(
                            (rule.name@, inc_m[j as int].1),
                        ));
                    }
                } else {
                    proof {
                        lemma_incoming_lookup_none(inc_m, name@);
                    }
                }
            },
        }
        i = i + 1;
    }
    proof {
        assert(rules_m.subrange(n as int, n as int) =~= Seq::<
            (Seq<char>, crate::operation::HeaderRuleValue),
        >::empty());
        assert(headers_model(out@) + headers_spec(
            rules_m.subrange(n as int, n as int),
            inc_m,
        ) =~= headers_model(out@));
    }
    out
}

fn clone_refs(refs: &Vec<ResponseObjectRef>) -> (r: Vec<ResponseObjectRef>)
    ensures
        refs_model(r@) == refs_model(refs@),
        r@.len() == refs@.len(),
        forall|k: int|
            0 <= k < refs@.len() ==> (#[trigger] r@[k]).id == refs@[k].id && r@[k].path@
                == refs@[k].path@ && r@[k].definition_id == refs@[k].definition_id,
{
    let mut out: Vec<ResponseObjectRef> = Vec::new();
    let n = refs.len();
    let mut i: usize = 0;
    while i < n
        invariant
            i <= n,
            n == refs@.len(),
            out@.len() == i,
            forall|k: int|
                0 <= k < i ==> (#[trigger] out@[k]).id == refs@[k].id && out@[k].path@
                    == refs@[k].path@ && out@[k].definition_id == refs@[k].definition_id,
        decreases n - i,
    {
        out.push(
            ResponseObjectRef {
                id: refs[i].id,
                path: crate::upstream::copy_edges(&refs[i].path),
                definition_id: refs[i].definition_id,
            },
        );
        i = i + 1;
    }
    proof {
        assert(refs_model(out@) =~~= refs_model(refs@));
    }
    out
}

/// Starts executing a plan: an empty tree holding only the root object, no
/// errors, and no boundary delivered yet.
pub fn start_execution(plan: &OperationPlan) -> (r: ExecutionState)
    ensures
        exec_state_wf(r),
        r.next_plan == 0,
        r.builder.root == Some(
            (crate::write::ResponseObjectId { part_id: 0, index: 0 }, plan.root_object),
        ),
        bmodel(r.builder).parts =~~= seq![
            crate::write::PartModel {
                objects: seq![Seq::<(crate::ResponseEdge, ResponseValue)>::empty()],
                lists: Seq::<ResponseValue>::empty(),
            },
        ],
        r.builder.errors@ == Seq::<GraphqlError>::empty(),
        r.boundary_data@.len() == plan.n_boundaries,
        forall|b: int| 0 <= b < r.boundary_data@.len() ==> (#[trigger] r.boundary_data@[b]) is None,
{
    let builder = ResponseBuilder::new(plan.root_object);
    let mut boundary_data: Vec<Option<Vec<ResponseObjectRef>>> = Vec::new();
    let mut i: usize = 0;
    let n = plan.n_boundaries;
    while i < n
        invariant
            i <= n,
            boundary_data@.len() == i,
            forall|b: int| 0 <= b < i ==> (#[trigger] boundary_data@[b]) is None,
        decreases n - i,
    {
        boundary_data.push(None);
        i = i + 1;
    }
    let r = ExecutionState { builder, next_plan: 0, boundary_data };
    proof {
        assert(exec_state_wf(r));
    }
    r
}


/// The fields an introspection plan writes: the root type's name under
/// every requested response key.
pub open spec fn intro_fields(ks: Seq<usize>, name: String) -> Seq<(
    crate::ResponseEdge,
    ResponseValue,
)> {
    ks.map_values(|k: usize| (crate::ResponseEdge::Key(k), ResponseValue::Str(name)))
}

/// The part an introspection plan seals: an empty arena, one update of the
/// root object with the typename fields, no errors, no boundaries.
pub open spec fn intro_part_model(
    plan: Plan,
    schema: FedSchema,
    part_id: int,
    oid: crate::write::ResponseObjectId,
    did: usize,
) -> crate::write::PartIngestModel {
    crate::write::PartIngestModel {
        part_id,
        data: crate::write::PartModel { objects: Seq::empty(), lists: Seq::empty() },
        refs: seq![
            crate::write::RefModel { id: oid, path: Seq::empty(), definition_id: did },
        ],
        slots: seq![
            SlotModel::Fields(
                intro_fields(
                    plan.typename_fields@,
                    schema.objects@[schema.root as int].name,
                ),
            ),
        ],
        errors: Seq::empty(),
        queued: Seq::empty(),
    }
}

/// Runs the local introspection plan: the root object gains the root type's
/// name under every requested `__typename` key, through the same sealing
/// hand-off every executor uses; no dispatch happens. With the root already
/// nulled there is nothing to write.
#[verifier::loop_isolation(false)]
pub fn run_introspection_plan(
    schema: &FedSchema,
    plan: &Plan,
    state: &mut ExecutionState,
) 
    requires
        exec_state_wf(*old(state)),
        schema_wf(*schema),
    ensures
        exec_state_wf(*final(state)),
        final(state).next_plan == old(state).next_plan,
        final(state).boundary_data == old(state).boundary_data,
        old(state).builder.root is None ==> *final(state) == *old(state),
        (old(state).builder.root is Some && old(state).builder.parts@.len() >= usize::MAX)
            ==> *final(state) == *old(state),
        (old(state).builder.root is Some && old(state).builder.parts@.len() < usize::MAX) ==> ({
            let (oid, did) = old(state).builder.root.unwrap();
            let m0 = bmodel(old(state).builder);
            let m1 = BuilderModel {
                parts: m0.parts.push(
                    crate::write::PartModel { objects: Seq::empty(), lists: Seq::empty() },
                ),
                ..m0
            };
            bmodel(final(state).builder) == crate::write::ingest_model(
                m1,
                intro_part_model(*plan, *schema, m0.parts.len() as int, oid, did),
            )
        }),
{
    let root_item = match state.builder.root_response_boundary_item() {
        Some(item) => item,
        None => {
            // The root was already nulled: nothing to write.
            return;
        },
    };
    let mut refs: Vec<ResponseObjectRef> = Vec::new();
    refs.push(root_item);
    let ghost m0 = bmodel(state.builder);
    if state.builder.parts.len() == usize::MAX {
        return;
    }
    let mut part = state.builder.new_writer(refs, 0, 0);
    let u = match part.next_writer() {
        Some(u) => u,
        None => 0,
    };
    let mut fields: Vec<(crate::ResponseEdge, ResponseValue)> = Vec::new();
    let executor = IntrospectionExecutionPlan.new_executor(plan);
    let tn_src = &schema.objects[schema.root].name;
    let nf = executor.typename_fields.len();
    let mut i: usize = 0;
    while i < nf
        invariant
            i <= nf,
            nf == executor.typename_fields@.len(),
            fields@ =~= intro_fields(
                executor.typename_fields@.subrange(0, i as int),
                schema.objects@[schema.root as int].name,
            ),
        decreases nf - i,
    {
        fields.push(
            (
                crate::ResponseEdge::Key(executor.typename_fields[i]),
                ResponseValue::Str(tn_src.clone()),
            ),
        );
        proof {
            assert forall|t: int| 0 <= t < i + 1 implies fields@[t] == intro_fields(
                executor.typename_fields@.subrange(0, i as int + 1),
                schema.objects@[schema.root as int].name,
            )[t] by {
                assert(executor.typename_fields@.subrange(0, i as int + 1)[t]
                    == executor.typename_fields@[t]);
                if t < i {
                    assert(executor.typename_fields@.subrange(0, i as int)[t]
                        == executor.typename_fields@[t]);
                }
            }
            assert(fields@ =~= intro_fields(
                executor.typename_fields@.subrange(0, i as int + 1),
                schema.objects@[schema.root as int].name,
            ));
        }
        i = i + 1;
    }
    proof {
        assert(executor.typename_fields@.subrange(0, nf as int) =~= plan.typename_fields@);
    }
    part.set_update(u, UpdateSlot::Fields(fields));
    let ghost m1 = bmodel(state.builder);
    proof {
        let st = part_seed_state(part, Seq::empty(), false);
        assert(pstate_wf(st));
        assert forall|t: int|
            0 <= t < part.updates@.len() implies slot_swf(
            st,
            crate::write::slot_model(#[trigger] part.updates@[t]),
        ) by {
            match crate::write::slot_model(part.updates@[t]) {
                SlotModel::Fields(fs) => {
                    assert forall|x: int| 0 <= x < fs.len() implies value_swf(
                        st,
                        (#[trigger] fs[x]).1,
                    ) by {
                        assert(fs[x] == intro_fields(
                            plan.typename_fields@,
                            schema.objects@[schema.root as int].name,
                        )[x]);
                    }
                },
                _ => {},
            }
        }
        lemma_part_ingestible(m1, part);
        let (oid, did) = old(state).builder.root.unwrap();
        assert(ingest_part_model(part) =~~= intro_part_model(
            *plan,
            *schema,
            m0.parts.len() as int,
            oid,
            did,
        ));
    }
    let ghost pm_actual = ingest_part_model(part);
    let _ = state.builder.ingest(part);
    proof {
        lemma_builder_counts_grow(m0, m1, bmodel(state.builder), part);
        assert(exec_state_wf(*state));
        let (oid, did) = old(state).builder.root.unwrap();
        assert(bmodel(state.builder) == crate::write::ingest_model(
            m1,
            intro_part_model(*plan, *schema, m0.parts.len() as int, oid, did),
        ));
    }
}

/// Ingesting a sealed part never shrinks any container, so boundary
/// references delivered earlier stay valid.
pub proof fn lemma_builder_counts_grow(
    m0: BuilderModel,
    m1: BuilderModel,
    m2: BuilderModel,
    part: ResponsePart,
)
    requires
        m1.parts == m0.parts.push(
            crate::write::PartModel { objects: Seq::empty(), lists: Seq::empty() },
        ),
        ingestible(m1, ingest_part_model(part)),
        m2 == crate::write::ingest_model(m1, ingest_part_model(part)),
    ensures
        m2.parts.len() >= m0.parts.len(),
        forall|p: int|
            0 <= p < m0.parts.len() ==> (#[trigger] m2.parts[p]).objects.len() >= m0.parts[
                p
            ].objects.len() && m2.parts[p].lists.len() >= m0.parts[p].lists.len(),
{
    let pm = ingest_part_model(part);
    let m1b = BuilderModel {
        parts: m1.parts.update(pm.part_id, pm.data),
        errors: m1.errors + pm.errors,
        ..m1
    };
    crate::write::lemma_apply_updates_counts(m1b, pm.refs, pm.slots, 0);
    let m3 = crate::write::apply_updates(m1b, pm.refs, pm.slots, 0);
    crate::write::lemma_apply_paths_counts(m3, pm.queued, 0);
}

/// The next thing to do: run local plans and skipped plans until a dispatch
/// is needed or everything ran.
#[verifier::loop_isolation(false)]
pub fn next_action(
    schema: &FedSchema,
    plan: &OperationPlan,
    state: &mut ExecutionState,
) -> (r: StepAction)
    requires
        exec_state_wf(*old(state)),
        schema_wf(*schema),
    ensures
        exec_state_wf(*final(state)),
        final(state).boundary_data@.len() == old(state).boundary_data@.len(),
        match r {
            StepAction::Done => *final(state) == *old(state) && old(state).next_plan
                >= plan.plans@.len(),
            StepAction::Fetch(req) => ({
                let pi = old(state).next_plan as int;
                let p = plan.plans@[pi];
                let refs = match p.input_boundary {
                    Some(b) => if b < old(state).boundary_data@.len()
                        && old(state).boundary_data@[b as int] is Some {
                        old(state).boundary_data@[b as int].unwrap()@
                    } else {
                        Seq::empty()
                    },
                    None => Seq::empty(),
                };
                &&& *final(state) == *old(state)
                &&& pi < plan.plans@.len()
                &&& req.plan_index == old(state).next_plan
                &&& !skip_due(*schema, drive_model(*old(state)), p)
                &&& p.subgraph == Some(req.subgraph)
                &&& req.subgraph < schema.subgraphs@.len()
                &&& req.body@ == crate::respond::jser(
                    request_body_jx(
                        crate::respond::parts_model_of(old(state).builder.parts@),
                        plan.keys.model(),
                        p,
                        refs,
                    ),
                )
            }),
            StepAction::Continue => ({
                let pi = old(state).next_plan as int;
                let p = plan.plans@[pi];
                &&& pi < plan.plans@.len()
                &&& final(state).next_plan == old(state).next_plan + 1
                &&& (match p.subgraph {
                    None => {
                        // One introspection plan ran, through the sealing
                        // hand-off stated on `run_introspection_plan`.
                        &&& final(state).boundary_data == old(state).boundary_data
                        &&& (old(state).builder.root is None ==> final(state).builder == old(
                            state,
                        ).builder)
                        &&& ((old(state).builder.root is Some && old(
                            state,
                        ).builder.parts@.len() >= usize::MAX) ==> final(state).builder == old(
                            state,
                        ).builder)
                        &&& ((old(state).builder.root is Some && old(state).builder.parts@.len()
                            < usize::MAX) ==> ({
                            let (oid, did) = old(state).builder.root.unwrap();
                            let m0 = bmodel(old(state).builder);
                            let m1 = BuilderModel {
                                parts: m0.parts.push(
                                    crate::write::PartModel {
                                        objects: Seq::empty(),
                                        lists: Seq::empty(),
                                    },
                                ),
                                ..m0
                            };
                            bmodel(final(state).builder) == crate::write::ingest_model(
                                m1,
                                intro_part_model(p, *schema, m0.parts.len() as int, oid, did),
                            )
                        }))
                    },
                    Some(_) => {
                        // The plan had nothing to update or no endpoint: its
                        // boundaries come out empty, the builder is
                        // untouched.
                        &&& skip_due(*schema, drive_model(*old(state)), p)
                        &&& final(state).builder == old(state).builder
                        &&& forall|b: int|
                            0 <= b < final(state).boundary_data@.len() ==> if owned_boundary(
                                p.boundary_start,
                                p.boundary_count,
                                b,
                            ) {
                                (#[trigger] final(state).boundary_data@[b]) is Some
                                    && final(state).boundary_data@[b].unwrap()@.len() == 0
                            } else {
                                final(state).boundary_data@[b] == old(state).boundary_data@[b]
                            }
                    },
                })
            }),
        },
{
    if state.next_plan >= plan.plans.len() {
        return StepAction::Done;
    }
    let p = &plan.plans[state.next_plan];
    match p.subgraph {
        None => {
            run_introspection_plan(schema, p, state);
            state.next_plan = state.next_plan + 1;
            StepAction::Continue
        },
        Some(sub) => {
            // Gather the boundary objects this plan updates.
            let empty_input = match p.input_boundary {
                Some(b) => {
                    if b < state.boundary_data.len() {
                        match &state.boundary_data[b] {
                            Some(refs) => refs.len() == 0,
                            None => true,
                        }
                    } else {
                        true
                    }
                },
                None => state.builder.root.is_none(),
            };
            if empty_input || sub >= schema.subgraphs.len() {
                // Nothing to update, or no endpoint to call: deliver empty
                // boundaries and move on.
                mark_boundaries_empty(state, p.boundary_start, p.boundary_count);
                state.next_plan = state.next_plan + 1;
                StepAction::Continue
            } else {
                let body = build_request_body(plan, p, state);
                StepAction::Fetch(
                    SubgraphRequest { plan_index: state.next_plan, subgraph: sub, body },
                )
            }
        },
    }
}

/// Delivers empty boundary hand-offs for a plan that has nothing to do.
/// Which boundary slots a plan owns.
pub open spec fn owned_boundary(start: usize, count: usize, b: int) -> bool {
    start <= b < start + count
}

fn mark_boundaries_empty(state: &mut ExecutionState, start: usize, count: usize)
    requires
        exec_state_wf(*old(state)),
    ensures
        exec_state_wf(*final(state)),
        final(state).builder == old(state).builder,
        final(state).next_plan == old(state).next_plan,
        final(state).boundary_data@.len() == old(state).boundary_data@.len(),
        forall|b: int|
            0 <= b < final(state).boundary_data@.len() ==> if owned_boundary(start, count, b) {
                (#[trigger] final(state).boundary_data@[b]) is Some
                    && final(state).boundary_data@[b].unwrap()@.len() == 0
            } else {
                final(state).boundary_data@[b] == old(state).boundary_data@[b]
            },
{
    let n = state.boundary_data.len();
    let mut i: usize = 0;
    while i < count
        invariant
            i <= count,
            exec_state_wf(*state),
            state.builder == old(state).builder,
            state.next_plan == old(state).next_plan,
            state.boundary_data@.len() == old(state).boundary_data@.len(),
            state.boundary_data@.len() == n,
            forall|b: int|
                0 <= b < state.boundary_data@.len() ==> if start <= b < start + i {
                    (#[trigger] state.boundary_data@[b]) is Some && state.boundary_data@[
                        b
                    ].unwrap()@.len() == 0
                } else {
                    state.boundary_data@[b] == old(state).boundary_data@[b]
                },
        decreases count - i,
    {
        if start <= usize::MAX - i {
            let b = start + i;
            if b < state.boundary_data.len() {
                let ghost pre = state.boundary_data@;
                state.boundary_data.set(b, Some(Vec::new()));
                proof {
                    assert(exec_state_wf(*state));
                }
            }
        }
        i = i + 1;
    }
}


/// The value a representation carries for one key field: the value written
/// under the synthesized extra edge, or the requested field's own edge, or
/// null when the parent object holds neither.
pub open spec fn rep_key_value_jx(
    parts: Seq<crate::write::PartModel>,
    keys: Seq<Seq<char>>,
    oid: crate::write::ResponseObjectId,
    kid: usize,
) -> crate::json::Jx {
    if oid.part_id < parts.len() && oid.index < parts[oid.part_id as int].objects.len() {
        let fields = parts[oid.part_id as int].objects[oid.index as int];
        match crate::write::edge_position(fields, crate::ResponseEdge::ExtraKey(kid)) {
            Some(j) => crate::respond::value_jx(parts, keys, fields[j].1, 1),
            None => match crate::write::edge_position(fields, crate::ResponseEdge::Key(kid)) {
                Some(j) => crate::respond::value_jx(parts, keys, fields[j].1, 1),
                None => crate::json::Jx::Null,
            },
        }
    } else {
        crate::json::Jx::Null
    }
}

/// One `_entities` representation: the injected type name and the key
/// fields, in declaration order.
pub open spec fn rep_jx(
    parts: Seq<crate::write::PartModel>,
    keys: Seq<Seq<char>>,
    entity_type_name: Option<String>,
    key_fields: Seq<(usize, String)>,
    oid: crate::write::ResponseObjectId,
) -> crate::json::Jx {
    let m0 = match entity_type_name {
        Some(tn) => Seq::<(Seq<char>, crate::json::Jx)>::empty().push(
            ("__typename"@, crate::json::Jx::Str(tn@)),
        ),
        None => Seq::<(Seq<char>, crate::json::Jx)>::empty(),
    };
    crate::json::Jx::Obj(m0 + key_fields.map_values(
        |kf: (usize, String)| (kf.1@, rep_key_value_jx(parts, keys, oid, kf.0)),
    ))
}

pub open spec fn reps_jx(
    parts: Seq<crate::write::PartModel>,
    keys: Seq<Seq<char>>,
    entity_type_name: Option<String>,
    key_fields: Seq<(usize, String)>,
    refs: Seq<ResponseObjectRef>,
) -> Seq<crate::json::Jx>
    decreases refs.len(),
{
    if refs.len() == 0 {
        Seq::empty()
    } else {
        seq![rep_jx(parts, keys, entity_type_name, key_fields, refs[0].id)] + reps_jx(
            parts,
            keys,
            entity_type_name,
            key_fields,
            refs.drop_first(),
        )
    }
}

/// The JSON document of a subgraph request: the precompiled query, and for
/// entity plans the representations of the boundary objects.
pub open spec fn request_body_jx(
    parts: Seq<crate::write::PartModel>,
    keys: Seq<Seq<char>>,
    p: Plan,
    refs: Seq<ResponseObjectRef>,
) -> crate::json::Jx {
    let m0 = Seq::<(Seq<char>, crate::json::Jx)>::empty().push(
        ("query"@, crate::json::Jx::Str(p.query@)),
    );
    if p.input_boundary is Some {
        crate::json::Jx::Obj(
            m0.push(
                (
                    "variables"@,
                    crate::json::Jx::Obj(
                        Seq::<(Seq<char>, crate::json::Jx)>::empty().push(
                            (
                                "representations"@,
                                crate::json::Jx::Arr(
                                    reps_jx(
                                        parts,
                                        keys,
                                        p.entity_type_name,
                                        p.key_fields@,
                                        refs,
                                    ),
                                ),
                            ),
                        ),
                    ),
                ),
            ),
        )
    } else {
        crate::json::Jx::Obj(m0)
    }
}

/// Builds the JSON body of a subgraph request: the precompiled query, and
/// for entity plans the `representations` list projected from the boundary
/// objects' key fields.
#[verifier::loop_isolation(false)]
fn build_request_body(plan: &OperationPlan, p: &Plan, state: &ExecutionState) -> (r: String)
    requires
        exec_state_wf(*state),
    ensures
        ({
            let refs = match p.input_boundary {
                Some(b) => if b < state.boundary_data@.len() && state.boundary_data@[b as int]
                    is Some {
                    state.boundary_data@[b as int].unwrap()@
                } else {
                    Seq::empty()
                },
                None => Seq::empty(),
            };
            r@ == crate::respond::jser(
                request_body_jx(
                    crate::respond::parts_model_of(state.builder.parts@),
                    plan.keys.model(),
                    *p,
                    refs,
                ),
            )
        }),
{
    let ghost pm = crate::respond::parts_model_of(state.builder.parts@);
    let ghost refs_g = match p.input_boundary {
        Some(b) => if b < state.boundary_data@.len() && state.boundary_data@[b as int] is Some {
            state.boundary_data@[b as int].unwrap()@
        } else {
            Seq::<ResponseObjectRef>::empty()
        },
        None => Seq::<ResponseObjectRef>::empty(),
    };
    let mut members: Vec<(String, JsonValue)> = Vec::new();
    members.push(("query".to_owned(), JsonValue::Str(crate::upstream::clone_string(&p.query))));
    let ghost m0 = Seq::<(Seq<char>, crate::json::Jx)>::empty().push(
        ("query"@, crate::json::Jx::Str(p.query@)),
    );
    proof {
        crate::json::lemma_view_obj(members@);
        assert(crate::json::view_obj(members@) =~= m0);
    }
    if p.input_boundary.is_some() {
        let mut reps: Vec<JsonValue> = Vec::new();
        match p.input_boundary {
            Some(b) => {
                if b < state.boundary_data.len() {
                    match &state.boundary_data[b] {
                        Some(refs) => {
                            let n = refs.len();
                            let mut i: usize = 0;
                            while i < n
                                invariant
                                    i <= n,
                                    b < state.boundary_data@.len(),
                                    state.boundary_data@[b as int] is Some,
                                    n == state.boundary_data@[b as int].unwrap()@.len(),
                                    crate::json::view_arr(reps@) =~= reps_jx_prefix(
                                        pm,
                                        plan.keys.model(),
                                        p.entity_type_name,
                                        p.key_fields@,
                                        refs_g,
                                        i as int,
                                    ),
                                    reps@.len() == i,
                                decreases n - i,
                            {
                                let rep = build_representation(plan, p, state, b, i);
                                let ghost pre = reps@;
                                reps.push(rep);
                                proof {
                                    crate::json::lemma_view_arr(reps@);
                                    crate::json::lemma_view_arr(pre);
                                    assert(crate::json::view_arr(reps@) =~= reps_jx_prefix(
                                        pm,
                                        plan.keys.model(),
                                        p.entity_type_name,
                                        p.key_fields@,
                                        refs_g,
                                        i as int + 1,
                                    ));
                                }
                                i = i + 1;
                            }
                            proof {
                                lemma_reps_prefix_full(
                                    pm,
                                    plan.keys.model(),
                                    p.entity_type_name,
                                    p.key_fields@,
                                    refs_g,
                                );
                            }
                        },
                        None => {
                            proof {
                                assert(refs_g =~= Seq::<ResponseObjectRef>::empty());
                            }
                        },
                    }
                } else {
                    proof {
                        assert(refs_g =~= Seq::<ResponseObjectRef>::empty());
                    }
                }
            },
            None => {},
        }
        proof {
            assert(crate::json::view_arr(reps@) =~= reps_jx(
                pm,
                plan.keys.model(),
                p.entity_type_name,
                p.key_fields@,
                refs_g,
            ));
        }
        let ghost reps_view = crate::json::view_arr(reps@);
        let mut vars: Vec<(String, JsonValue)> = Vec::new();
        vars.push(("representations".to_owned(), JsonValue::Arr(reps)));
        proof {
            crate::json::lemma_view_obj(vars@);
            assert(crate::json::view_obj(vars@) =~= Seq::<(Seq<char>, crate::json::Jx)>::empty()
                .push(("representations"@, crate::json::Jx::Arr(reps_view))));
        }
        let ghost vars_jx = crate::json::Jx::Obj(crate::json::view_obj(vars@));
        let ghost pre_members = members@;
        members.push(("variables".to_owned(), JsonValue::Obj(vars)));
        proof {
            crate::json::lemma_view_obj(members@);
            crate::json::lemma_view_obj(pre_members);
            assert(crate::json::view_obj(members@) =~= m0.push(("variables"@, vars_jx)));
        }
    }
    let doc = JsonValue::Obj(members);
    proof {
        crate::json::lemma_view_obj(members@);
        assert(doc@ =~~= request_body_jx(pm, plan.keys.model(), *p, refs_g));
    }
    crate::respond::to_json_string(&doc)
}

/// The first representations, by position.
pub open spec fn reps_jx_prefix(
    parts: Seq<crate::write::PartModel>,
    keys: Seq<Seq<char>>,
    entity_type_name: Option<String>,
    key_fields: Seq<(usize, String)>,
    refs: Seq<ResponseObjectRef>,
    i: int,
) -> Seq<crate::json::Jx>
    decreases i,
{
    if i <= 0 {
        Seq::empty()
    } else {
        reps_jx_prefix(parts, keys, entity_type_name, key_fields, refs, i - 1).push(
            rep_jx(parts, keys, entity_type_name, key_fields, refs[i - 1].id),
        )
    }
}

pub proof fn lemma_reps_prefix_full(
    parts: Seq<crate::write::PartModel>,
    keys: Seq<Seq<char>>,
    entity_type_name: Option<String>,
    key_fields: Seq<(usize, String)>,
    refs: Seq<ResponseObjectRef>,
)
    ensures
        reps_jx_prefix(parts, keys, entity_type_name, key_fields, refs, refs.len() as int)
            =~~= reps_jx(parts, keys, entity_type_name, key_fields, refs),
    decreases refs.len(),
{
    if refs.len() > 0 {
        lemma_reps_prefix_full(parts, keys, entity_type_name, key_fields, refs.drop_first());
        lemma_reps_prefix_shift(
            parts,
            keys,
            entity_type_name,
            key_fields,
            refs,
            refs.len() as int,
        );
    }
}

pub proof fn lemma_reps_prefix_shift(
    parts: Seq<crate::write::PartModel>,
    keys: Seq<Seq<char>>,
    entity_type_name: Option<String>,
    key_fields: Seq<(usize, String)>,
    refs: Seq<ResponseObjectRef>,
    i: int,
)
    requires
        0 < i <= refs.len(),
    ensures
        reps_jx_prefix(parts, keys, entity_type_name, key_fields, refs, i) =~~= seq![
            rep_jx(parts, keys, entity_type_name, key_fields, refs[0].id),
        ] + reps_jx_prefix(parts, keys, entity_type_name, key_fields, refs.drop_first(), i - 1),
    decreases i,
{
    if i > 1 {
        lemma_reps_prefix_shift(parts, keys, entity_type_name, key_fields, refs, i - 1);
        assert(refs.drop_first()[i - 2] == refs[i - 1]);
        let head = rep_jx(parts, keys, entity_type_name, key_fields, refs[0].id);
        let x = rep_jx(parts, keys, entity_type_name, key_fields, refs[i - 1].id);
        assert((seq![head] + reps_jx_prefix(
            parts,
            keys,
            entity_type_name,
            key_fields,
            refs.drop_first(),
            i - 2,
        )).push(x) =~~= seq![head] + reps_jx_prefix(
            parts,
            keys,
            entity_type_name,
            key_fields,
            refs.drop_first(),
            i - 2,
        ).push(x));
    } else {
        assert(reps_jx_prefix(parts, keys, entity_type_name, key_fields, refs, 0) =~= Seq::<
            crate::json::Jx,
        >::empty());
        assert(reps_jx_prefix(
            parts,
            keys,
            entity_type_name,
            key_fields,
            refs.drop_first(),
            0,
        ) =~= Seq::<crate::json::Jx>::empty());
    }
}

/// One `_entities` representation: the injected `__typename` and the key
/// fields read from the parent's written object.
#[verifier::loop_isolation(false)]
fn build_representation(
    plan: &OperationPlan,
    p: &Plan,
    state: &ExecutionState,
    b: usize,
    i: usize,
) -> (r: JsonValue)
    requires
        exec_state_wf(*state),
        b < state.boundary_data@.len(),
        state.boundary_data@[b as int] is Some,
        i < state.boundary_data@[b as int].unwrap()@.len(),
    ensures
        r@ == rep_jx(
            crate::respond::parts_model_of(state.builder.parts@),
            plan.keys.model(),
            p.entity_type_name,
            p.key_fields@,
            state.boundary_data@[b as int].unwrap()@[i as int].id,
        ),
{
    let ghost pm = crate::respond::parts_model_of(state.builder.parts@);
    let mut members: Vec<(String, JsonValue)> = Vec::new();
    match &p.entity_type_name {
        Some(tn) => {
            members.push(
                ("__typename".to_owned(), JsonValue::Str(crate::upstream::clone_string(tn))),
            );
        },
        None => {},
    }
    let ghost m0 = match &p.entity_type_name {
        Some(tn) => Seq::<(Seq<char>, crate::json::Jx)>::empty().push(
            ("__typename"@, crate::json::Jx::Str(tn@)),
        ),
        None => Seq::<(Seq<char>, crate::json::Jx)>::empty(),
    };
    proof {
        crate::json::lemma_view_obj(members@);
        assert(crate::json::view_obj(members@) =~= m0);
    }
    let refs = match &state.boundary_data[b] {
        Some(r) => r,
        None => {
            return JsonValue::Obj(members);
        },
    };
    let oid = refs[i].id;
    proof {
        assert(boundary_ref_ok(bmodel(state.builder), refs@[i as int]));
        assert(pm[oid.part_id as int] == part_model(state.builder.parts@[oid.part_id as int]));
    }
    let nk = p.key_fields.len();
    let mut ki: usize = 0;
    while ki < nk
        invariant
            ki <= nk,
            oid.part_id < state.builder.parts@.len(),
            oid.index < state.builder.parts@[oid.part_id as int].objects@.len(),
            crate::json::view_obj(members@) =~= m0 + p.key_fields@.subrange(0, ki as int)
                .map_values(
                |kf: (usize, String)| (kf.1@, rep_key_value_jx(pm, plan.keys.model(), oid, kf.0)),
            ),
        decreases nk - ki,
    {
        let kid = p.key_fields[ki].0;
        let kname = crate::upstream::clone_string(&p.key_fields[ki].1);
        let fields = &state.builder.parts[oid.part_id].objects[oid.index].fields;
        proof {
            assert(pm[oid.part_id as int].objects[oid.index as int] =~= fields@);
        }
        let v = match crate::write::field_position(fields, crate::ResponseEdge::ExtraKey(kid)) {
            Some(j) => {
                proof {
                    crate::write::lemma_edge_position_bounds(
                        fields@,
                        crate::ResponseEdge::ExtraKey(kid),
                    );
                }
                crate::respond::value_to_json(&state.builder.parts, &plan.keys, &fields[j].1, 1)
            },
            None => {
                match crate::write::field_position(fields, crate::ResponseEdge::Key(kid)) {
                    Some(j) => {
                        proof {
                            crate::write::lemma_edge_position_bounds(
                                fields@,
                                crate::ResponseEdge::Key(kid),
                            );
                        }
                        crate::respond::value_to_json(
                            &state.builder.parts,
                            &plan.keys,
                            &fields[j].1,
                            1,
                        )
                    },
                    None => JsonValue::Null,
                }
            },
        };
        proof {
            assert(v@ == rep_key_value_jx(pm, plan.keys.model(), oid, kid));
        }
        let ghost pre = members@;
        members.push((kname, v));
        proof {
            crate::json::lemma_view_obj(members@);
            crate::json::lemma_view_obj(pre);
            assert forall|t: int|
                #![trigger p.key_fields@.subrange(0, ki as int + 1)[t]]
                0 <= t < ki + 1 implies p.key_fields@.subrange(0, ki as int + 1).map_values(
                |kf: (usize, String)| (kf.1@, rep_key_value_jx(pm, plan.keys.model(), oid, kf.0)),
            )[t] == p.key_fields@.subrange(0, ki as int).map_values(
                |kf: (usize, String)| (kf.1@, rep_key_value_jx(pm, plan.keys.model(), oid, kf.0)),
            ).push((p.key_fields@[ki as int].1@, rep_key_value_jx(
                pm,
                plan.keys.model(),
                oid,
                p.key_fields@[ki as int].0,
            )))[t] by {
                assert(p.key_fields@.subrange(0, ki as int + 1)[t] == p.key_fields@[t]);
                if t < ki {
                    assert(p.key_fields@.subrange(0, ki as int)[t] == p.key_fields@[t]);
                }
            }
            assert(p.key_fields@.subrange(0, ki as int + 1).map_values(
                |kf: (usize, String)| (kf.1@, rep_key_value_jx(pm, plan.keys.model(), oid, kf.0)),
            ) =~= p.key_fields@.subrange(0, ki as int).map_values(
                |kf: (usize, String)| (kf.1@, rep_key_value_jx(pm, plan.keys.model(), oid, kf.0)),
            ).push((p.key_fields@[ki as int].1@, rep_key_value_jx(
                pm,
                plan.keys.model(),
                oid,
                p.key_fields@[ki as int].0,
            ))));
            let mapk = p.key_fields@.subrange(0, ki as int).map_values(
                |kf: (usize, String)| (kf.1@, rep_key_value_jx(pm, plan.keys.model(), oid, kf.0)),
            );
            let elem = (p.key_fields@[ki as int].1@, rep_key_value_jx(
                pm,
                plan.keys.model(),
                oid,
                p.key_fields@[ki as int].0,
            ));
            assert(crate::json::view_obj(members@) =~= crate::json::view_obj(pre).push(elem));
            assert((m0 + mapk).push(elem) =~= m0 + mapk.push(elem));
            assert(crate::json::view_obj(members@) =~= m0 + p.key_fields@.subrange(
                0,
                ki as int + 1,
            ).map_values(
                |kf: (usize, String)| (kf.1@, rep_key_value_jx(pm, plan.keys.model(), oid, kf.0)),
            ));
        }
        ki = ki + 1;
    }
    proof {
        assert(p.key_fields@.subrange(0, nk as int) =~= p.key_fields@);
    }
    let r = JsonValue::Obj(members);
    proof {
        crate::json::lemma_view_obj(members@);
        assert(r@ =~~= rep_jx(
            pm,
            plan.keys.model(),
            p.entity_type_name,
            p.key_fields@,
            state.boundary_data@[b as int].unwrap()@[i as int].id,
        ));
    }
    r
}


/// The boundary objects the plan at `pi` updates, as models: the delivered
/// boundary for an entity plan, the root object for a root plan.
pub open spec fn input_refs_model(plan: OperationPlan, st: ExecutionState, pi: int) -> Seq<
    crate::write::RefModel,
> {
    let p = plan.plans@[pi];
    match p.input_boundary {
        Some(b) => if b < st.boundary_data@.len() && st.boundary_data@[b as int] is Some {
            refs_model(st.boundary_data@[b as int].unwrap()@)
        } else {
            Seq::empty()
        },
        None => match st.builder.root {
            Some((oid, did)) => seq![
                crate::write::RefModel { id: oid, path: Seq::empty(), definition_id: did },
            ],
            None => Seq::empty(),
        },
    }
}

/// The seed state of a freshly reserved part.
pub open spec fn fresh_part_state(m: BuilderModel, boundary_count: usize) -> SeedState {
    SeedState {
        part_id: m.parts.len() as usize,
        data: crate::write::PartModel { objects: Seq::empty(), lists: Seq::empty() },
        boundaries: Seq::new(boundary_count as nat, |k: int| Seq::empty()),
        errors: Seq::empty(),
        flag: false,
        path: Seq::empty(),
    }
}

/// A dispatched plan can actually be provided for: something to update, a
/// selection set to read, and room left in the arena and boundary tables.
pub open spec fn provide_normal(plan: OperationPlan, st: ExecutionState, pi: int) -> bool {
    let p = plan.plans@[pi];
    &&& (p.input_boundary is Some || st.builder.root is Some)
    &&& p.root_set < p.shapes.sets@.len()
    &&& st.builder.parts@.len() < usize::MAX
    &&& p.boundary_start + p.boundary_count <= usize::MAX
}

/// The model of one internal-failure error.
pub open spec fn internal_err_model() -> crate::dser::ErrModel {
    crate::dser::ErrModel {
        message: "Internal server error"@,
        locations: Seq::empty(),
        path: None,
        extensions: seq![("code"@, crate::json::Jx::Str("InternalServerError"@))],
    }
}

/// Hands the upstream response body of the plan being dispatched back to the
/// coordinator: the body is ingested into a fresh part against the plan's
/// shapes, the part is sealed into the builder, and the boundary hand-offs
/// it produced are recorded for the dependent plans. A plan whose root is
/// already gone delivers empty boundaries; an internal inconsistency records
/// one internal error and delivers empty boundaries.
#[verifier::loop_isolation(false)]
pub fn provide_body(
    schema: &FedSchema,
    plan: &OperationPlan,
    state: &mut ExecutionState,
    body: JsonValue,
) -> (status: crate::status::GraphqlResponseStatus)
    requires
        exec_state_wf(*old(state)),
        schema_wf(*schema),
        old(state).next_plan < plan.plans@.len(),
    ensures
        exec_state_wf(*final(state)),
        final(state).next_plan == old(state).next_plan + 1,
        ({
            let pi = old(state).next_plan as int;
            let p = plan.plans@[pi];
            let entities = p.input_boundary is Some;
            let m0 = bmodel(old(state).builder);
            let refs_m = input_refs_model(*plan, *old(state), pi);
            &&& final(state).boundary_data@.len() == old(state).boundary_data@.len()
            &&& (if !provide_normal(*plan, *old(state), pi) {
                // Early outs: the builder keeps its tree; a plan whose root
                // is gone records nothing, an internal inconsistency records
                // one internal error; the plan's boundaries come out empty;
                // the status is success (nothing upstream decided).
                &&& bmodel(final(state).builder).parts == m0.parts
                &&& bmodel(final(state).builder).root == m0.root
                &&& status == crate::status::GraphqlResponseStatus::Success
                &&& final(state).builder.errors@.map_values(
                    |e: GraphqlError| crate::dser::err_model(e),
                ) == (if entities || old(state).builder.root is Some {
                    old(state).builder.errors@.map_values(
                        |e: GraphqlError| crate::dser::err_model(e),
                    ).push(internal_err_model())
                } else {
                    old(state).builder.errors@.map_values(
                        |e: GraphqlError| crate::dser::err_model(e),
                    )
                })
                &&& forall|b: int|
                    0 <= b < final(state).boundary_data@.len() ==> if owned_boundary(
                        p.boundary_start,
                        p.boundary_count,
                        b,
                    ) {
                        (#[trigger] final(state).boundary_data@[b]) is Some
                            && final(state).boundary_data@[b].unwrap()@.len() == 0
                    } else {
                        final(state).boundary_data@[b] == old(state).boundary_data@[b]
                    }
            } else {
                // The body is ingested against the plan's shapes and sealed.
                let st0 = fresh_part_state(m0, p.boundary_count);
                let out = crate::upstream::resp_spec(
                    crate::shape::shapes_model(p.shapes),
                    plan.keys.model(),
                    refs_m,
                    p.root_set as int,
                    entities,
                    st0,
                    body,
                );
                let m1 = BuilderModel {
                    parts: m0.parts.push(
                        crate::write::PartModel { objects: Seq::empty(), lists: Seq::empty() },
                    ),
                    errors: Seq::empty(),
                    ..m0
                };
                let pm0 = crate::write::PartIngestModel {
                    part_id: m0.parts.len() as int,
                    data: out.st.data,
                    refs: refs_m,
                    slots: out.slots,
                    errors: Seq::empty(),
                    queued: Seq::empty(),
                };
                let sealed = crate::write::ingest_model(m1, pm0);
                &&& bmodel(final(state).builder).parts == sealed.parts
                &&& bmodel(final(state).builder).root == sealed.root
                &&& final(state).builder.errors@.map_values(
                    |e: GraphqlError| crate::dser::err_model(e),
                ) == old(state).builder.errors@.map_values(
                    |e: GraphqlError| crate::dser::err_model(e),
                ) + out.st.errors
                &&& status == out.status
                &&& forall|b: int|
                    0 <= b < final(state).boundary_data@.len() ==> if owned_boundary(
                        p.boundary_start,
                        p.boundary_count,
                        b,
                    ) {
                        (#[trigger] final(state).boundary_data@[b]) is Some && refs_model(
                            final(state).boundary_data@[b].unwrap()@,
                        ) == out.st.boundaries[b - p.boundary_start]
                    } else {
                        final(state).boundary_data@[b] == old(state).boundary_data@[b]
                    }
            })
        }),
{
    let nplans = plan.plans.len();
    let p = &plan.plans[state.next_plan];
    let ghost pi = old(state).next_plan as int;
    let entities = p.input_boundary.is_some();
    let ghost refs_gm = input_refs_model(*plan, *old(state), pi);
    // The boundary objects this plan updates.
    let refs: Vec<ResponseObjectRef> = match p.input_boundary {
        Some(b) => {
            if b < state.boundary_data.len() {
                match &state.boundary_data[b] {
                    Some(r) => clone_refs(r),
                    None => Vec::new(),
                }
            } else {
                Vec::new()
            }
        },
        None => {
            match state.builder.root_response_boundary_item() {
                Some(item) => {
                    let mut v: Vec<ResponseObjectRef> = Vec::new();
                    v.push(item);
                    v
                },
                None => Vec::new(),
            }
        },
    };
    proof {
        assert(refs_model(refs@) =~~= refs_gm);
    }
    if !entities && refs.len() != 1 {
        // The root is gone: nothing to update.
        mark_boundaries_empty(state, p.boundary_start, p.boundary_count);
        state.next_plan = state.next_plan + 1;
        return crate::status::GraphqlResponseStatus::Success;
    }
    if p.root_set >= p.shapes.sets.len() || state.builder.parts.len() == usize::MAX
        || p.boundary_start > usize::MAX - p.boundary_count {
        let ghost mpre = bmodel(state.builder);
        let ghost pre_errors = state.builder.errors@;
        let internal = GraphqlError::internal_server_error();
        let ghost em = crate::dser::err_model(internal);
        state.builder.errors.push(internal);
        proof {
            assert(bmodel(state.builder).parts == mpre.parts);
            assert(bmodel(state.builder).root == mpre.root);
            assert(builder_wf(state.builder));
            assert(exec_state_wf(*state));
            assert(em.extensions =~= internal_err_model().extensions);
            assert(em =~~= internal_err_model());
            crate::upstream::lemma_errors_map_push(pre_errors, internal);
        }
        mark_boundaries_empty(state, p.boundary_start, p.boundary_count);
        state.next_plan = state.next_plan + 1;
        return crate::status::GraphqlResponseStatus::Success;
    }
    let ghost m0 = bmodel(state.builder);
    let mut part = state.builder.new_writer(refs, p.boundary_start, p.boundary_count);
    let ghost m1 = bmodel(state.builder);
    proof {
        let st0 = part_seed_state(part, Seq::empty(), false);
        assert(st0.boundaries =~~= Seq::new(
            p.boundary_count as nat,
            |k: int| Seq::<crate::write::RefModel>::empty(),
        ));
        assert(st0 =~~= fresh_part_state(m0, p.boundary_count));
        assert(pstate_wf(st0));
    }
    let ghost part_fresh = part;
    let status = ingest_upstream_response(
        &p.shapes,
        &mut part,
        &plan.keys,
        p.root_set,
        entities,
        body,
    );
    let ghost out_g = crate::upstream::resp_spec(
        crate::shape::shapes_model(p.shapes),
        plan.keys.model(),
        refs_gm,
        p.root_set as int,
        entities,
        fresh_part_state(m0, p.boundary_count),
        body,
    );
    proof {
        let st0 = part_seed_state(part_fresh, Seq::empty(), false);
        assert(refs_model(part_fresh.root_response_objects@) == refs_gm);
        assert(st0 == fresh_part_state(m0, p.boundary_count));
        let out = out_g;
        crate::upstream::lemma_resp_spec_swf(
            crate::shape::shapes_model(p.shapes),
            plan.keys.model(),
            refs_gm,
            p.root_set as int,
            entities,
            st0,
            body,
        );
        let stf = part_seed_state(part, Seq::empty(), false);
        crate::dser::lemma_pstate_same(out.st, stf);
        assert(pstate_wf(stf));
        crate::upstream::lemma_slots_len_bridge(part, out.slots);
        assert forall|t: int|
            0 <= t < part.updates@.len() implies slot_swf(
            stf,
            crate::write::slot_model(#[trigger] part.updates@[t]),
        ) by {
            assert(part.updates@.map_values(|s: UpdateSlot| crate::write::slot_model(s))[t]
                == out.slots[t]);
            assert(slot_swf(out.st, out.slots[t]));
            crate::upstream::lemma_slot_swf_grow(out.st, stf, out.slots[t]);
        }
        assert(part.updates@.len() == part.root_response_objects@.len());
    }
    let ghost pm_real = ingest_part_model(part);
    let ghost part_bnds = part.boundaries@;
    let ghost pre_errors = state.builder.errors@;
    let rb = ingest_sealed_part(state, part, Ghost(m0), Ghost(m1));
    proof {
        // The sealed tree and root are the stated model; the errors are the
        // old ones plus exactly what the ingestion recorded.
        let st0 = fresh_part_state(m0, p.boundary_count);
        let out = out_g;
        let m1e = BuilderModel {
            parts: m0.parts.push(
                crate::write::PartModel { objects: Seq::empty(), lists: Seq::empty() },
            ),
            errors: Seq::empty(),
            ..m0
        };
        let pm0 = crate::write::PartIngestModel {
            part_id: m0.parts.len() as int,
            data: out.st.data,
            refs: refs_gm,
            slots: out.slots,
            errors: Seq::empty(),
            queued: Seq::empty(),
        };
        assert(m1.parts == m1e.parts);
        assert(m1.root == m1e.root);
        assert(pm_real.part_id == pm0.part_id);
        assert(pm_real.data == pm0.data);
        assert(pm_real.refs =~~= pm0.refs);
        assert(pm_real.slots == pm0.slots);
        assert(pm_real.queued =~= pm0.queued);
        crate::write::lemma_ingest_errors_indep(m1, m1e, pm_real, pm0);
        crate::upstream::lemma_errors_map_append(pre_errors, pm_real.errors);
        assert(pm_real.errors.map_values(|e: GraphqlError| crate::dser::err_model(e))
            =~= out.st.errors);
        assert(state.builder.errors@.map_values(|e: GraphqlError| crate::dser::err_model(e))
            =~= pre_errors.map_values(|e: GraphqlError| crate::dser::err_model(e))
            + out.st.errors);
    }
    // Record the boundary hand-offs.
    let ghost rb0 = rb@;
    let ghost errs_sealed = state.builder.errors@;
    let ghost m_sealed = bmodel(state.builder);
    let n_rb = rb.len();
    proof {
        assert(n_rb == p.boundary_count);
        assert forall|k2: int| 0 <= k2 < n_rb implies refs_model((#[trigger] rb0[k2]).1@)
            == out_g.st.boundaries[k2] by {
            assert(rb0[k2].1 == part_bnds[k2]);
            assert(part_bnds.map_values(
                |bv: Vec<ResponseObjectRef>| bv@.map_values(
                    |x: ResponseObjectRef| crate::write::ref_model(x),
                ),
            )[k2] == out_g.st.boundaries[k2]);
        }
    }
    let mut rb = rb;
    let mut consumed: usize = 0;
    while rb.len() > 0
        invariant
            consumed + rb@.len() == n_rb,
            rb@ =~= rb0.subrange(consumed as int, n_rb as int),
            exec_state_wf(*state),
            state.next_plan == old(state).next_plan,
            state.builder.errors@ == errs_sealed,
            bmodel(state.builder) == m_sealed,
            state.boundary_data@.len() == old(state).boundary_data@.len(),
            forall|k2: int|
                consumed <= k2 < n_rb ==> rb0[k2].0 == p.boundary_start + k2 && refs_model(
                    (#[trigger] rb0[k2]).1@,
                ) == out_g.st.boundaries[k2] && (forall|x: int|
                    0 <= x < rb0[k2].1@.len() ==> boundary_ref_ok(
                        bmodel(state.builder),
                        (#[trigger] rb0[k2].1@[x]),
                    )),
            forall|b: int|
                0 <= b < state.boundary_data@.len() ==> if p.boundary_start <= b
                    < p.boundary_start + consumed {
                    (#[trigger] state.boundary_data@[b]) is Some && refs_model(
                        state.boundary_data@[b].unwrap()@,
                    ) == out_g.st.boundaries[b - p.boundary_start]
                } else {
                    state.boundary_data@[b] == old(state).boundary_data@[b]
                },
        decreases rb@.len(),
    {
        let ghost pre_rb = rb@;
        let (gid, refs2) = rb.remove(0);
        proof {
            assert(pre_rb[0] == rb0[consumed as int]);
            assert(pre_rb.drop_first() =~= rb0.subrange(consumed as int + 1, n_rb as int));
            assert(gid == p.boundary_start + consumed);
            assert(refs_model(refs2@) == out_g.st.boundaries[consumed as int]);
        }
        if gid < state.boundary_data.len() {
            state.boundary_data.set(gid, Some(refs2));
            proof {
                assert(exec_state_wf(*state));
            }
        }
        consumed = consumed + 1;
    }
    proof {
        assert(consumed == p.boundary_count);
    }
    state.next_plan = state.next_plan + 1;
    status
}

/// Seals a finished part into the builder, discharging the ingestion/// Seals a finished part into the builder, discharging the ingestion
/// conditions from the part's self-containment; the returned boundary
/// hand-offs point at the sealed data.
#[verifier::loop_isolation(false)]
fn ingest_sealed_part(
    state: &mut ExecutionState,
    part: ResponsePart,
    Ghost(m0): Ghost<BuilderModel>,
    Ghost(m1): Ghost<BuilderModel>,
) -> (r: Vec<(usize, Vec<ResponseObjectRef>)>)
    requires
        builder_wf(old(state).builder),
        bmodel(old(state).builder) == m1,
        m1.parts == m0.parts.push(
            crate::write::PartModel { objects: Seq::empty(), lists: Seq::empty() },
        ),
        pstate_wf(part_seed_state(part, Seq::empty(), false)),
        part.updates@.len() == part.root_response_objects@.len(),
        forall|t: int|
            0 <= t < part.updates@.len() ==> slot_swf(
                part_seed_state(part, Seq::empty(), false),
                crate::write::slot_model(#[trigger] part.updates@[t]),
            ),
        part.data.id as int == m0.parts.len(),
        forall|k: int|
            0 <= k < part.root_response_objects@.len() ==> (
            #[trigger] part.root_response_objects@[k]).id.part_id < m0.parts.len()
                && part.root_response_objects@[k].id.index < m0.parts[
                part.root_response_objects@[k].id.part_id as int
            ].objects.len(),
        part.boundary_ids_start + part.boundaries@.len() <= usize::MAX,
        forall|b: int, k: int|
            #![trigger old(state).boundary_data@[b].unwrap()@[k]]
            0 <= b < old(state).boundary_data@.len() && old(state).boundary_data@[b] is Some && 0
                <= k < old(state).boundary_data@[b].unwrap()@.len() ==> boundary_ref_ok(
                m0,
                old(state).boundary_data@[b].unwrap()@[k],
            ),
    ensures
        exec_state_wf(*final(state)),
        final(state).boundary_data == old(state).boundary_data,
        final(state).next_plan == old(state).next_plan,
        bmodel(final(state).builder) == crate::write::ingest_model(m1, ingest_part_model(part)),
        final(state).builder.errors@ == old(state).builder.errors@ + part.errors@,
        r@.len() == part.boundaries@.len(),
        forall|k2: int|
            0 <= k2 < r@.len() ==> (#[trigger] r@[k2]).0 == part.boundary_ids_start + k2
                && r@[k2].1 == part.boundaries@[k2],
        forall|k2: int|
            0 <= k2 < r@.len() ==> forall|x: int|
                0 <= x < (#[trigger] r@[k2]).1@.len() ==> boundary_ref_ok(
                    bmodel(final(state).builder),
                    (#[trigger] r@[k2].1@[x]),
                ),
{
    let ghost st = part_seed_state(part, Seq::empty(), false);
    proof {
        lemma_part_ingestible(m1, part);
        crate::write::lemma_ingest_errors_value(m1, ingest_part_model(part));
    }
    let r = state.builder.ingest(part);
    proof {
        lemma_builder_counts_grow(m0, m1, bmodel(state.builder), part);
        let m2 = bmodel(state.builder);
        let pm = ingest_part_model(part);
        let m1b = BuilderModel {
            parts: m1.parts.update(pm.part_id, pm.data),
            errors: m1.errors + pm.errors,
            ..m1
        };
        crate::write::lemma_apply_updates_counts(m1b, pm.refs, pm.slots, 0);
        let m3 = crate::write::apply_updates(m1b, pm.refs, pm.slots, 0);
        crate::write::lemma_apply_paths_counts(m3, pm.queued, 0);
        assert(m2.parts.len() == m1b.parts.len());
        assert(m2.parts[pm.part_id].objects.len() == pm.data.objects.len());
        assert forall|k2: int|
            0 <= k2 < r@.len() implies forall|x: int|
            0 <= x < (#[trigger] r@[k2]).1@.len() ==> boundary_ref_ok(m2, (#[trigger] r@[k2].1@[x]))
        by {
            assert forall|x: int| 0 <= x < (r@[k2]).1@.len() implies boundary_ref_ok(
                m2,
                (#[trigger] r@[k2].1@[x]),
            ) by {
                assert(r@[k2].1 == part.boundaries@[k2]);
                let rm = crate::write::ref_model(part.boundaries@[k2]@[x]);
                assert(st.boundaries[k2][x] == rm);
                assert(rm.id.part_id == st.part_id && rm.id.index < st.data.objects.len());
            }
        }
        assert(exec_state_wf(*state));
    }
    r
}


/// Renders the final response: the data tree and the collected errors.
pub fn finish_execution(plan: &OperationPlan, state: ExecutionState) -> (r: String)
    ensures
        r@ == crate::respond::jser(
            crate::respond::response_jx(
                crate::respond::parts_model_of(state.builder.parts@),
                plan.keys.model(),
                match state.builder.root {
                    Some((oid, _)) => Some(oid),
                    None => None,
                },
                true,
                state.builder.errors@,
            ),
        ),
{
    let root: Option<ResponseObjectId> = match state.builder.root {
        Some((oid, _)) => Some(oid),
        None => None,
    };
    crate::respond::render_response(
        &state.builder.parts,
        &plan.keys,
        &root,
        true,
        &state.builder.errors,
    )
}

/// Renders a request that failed before execution: only the error, no
/// `data` member at all.
pub fn render_request_error(error: GraphqlError) -> (r: String)
    ensures
        ({
            let empty_keys = Seq::<Seq<char>>::empty();
            r@ == crate::respond::jser(
                crate::respond::response_jx(
                    Seq::empty(),
                    empty_keys,
                    None,
                    false,
                    seq![error],
                ),
            )
        }),
{
    let parts: Vec<crate::write::ResponseDataPart> = Vec::new();
    let keys = ResponseKeys { keys: Vec::new() };
    let mut errors: Vec<GraphqlError> = Vec::new();
    errors.push(error);
    let root: Option<ResponseObjectId> = None;
    let r = crate::respond::render_response(&parts, &keys, &root, false, &errors);
    proof {
        assert(crate::respond::parts_model_of(parts@) =~= Seq::<crate::write::PartModel>::empty());
        assert(keys.model() =~= Seq::<Seq<char>>::empty());
        assert(errors@ =~= seq![error]);
    }
    r
}

/// The initial coordinator model: the empty tree with the root object and
/// no boundary delivered.
pub open spec fn drive_start(plan: OperationPlan) -> DriveModel {
    DriveModel {
        parts: seq![
            crate::write::PartModel {
                objects: seq![Seq::<(crate::ResponseEdge, ResponseValue)>::empty()],
                lists: Seq::<ResponseValue>::empty(),
            },
        ],
        root: Some((crate::write::ResponseObjectId { part_id: 0, index: 0 }, plan.root_object)),
        errors: Seq::empty(),
        bdata: Seq::new(plan.n_boundaries as nat, |b: int| None),
        next_plan: 0,
    }
}

/// Runs a prepared operation against a fixed list of upstream bodies: the
/// i-th dispatched request consumes the i-th body (a missing body stands in
/// as null). The response text is exactly the rendering of the state the
/// drive fold yields — a function of the plan and the bodies alone.
#[verifier::rlimit(100)]
#[verifier::loop_isolation(false)]
pub fn execute_with_bodies(
    schema: &FedSchema,
    plan: &OperationPlan,
    bodies_in: Vec<JsonValue>,
) -> (r: String)
    requires
        schema_wf(*schema),
    ensures
        ({
            let fin = drive(*schema, *plan, drive_start(*plan), bodies_in@);
            r@ == crate::respond::jser(
                crate::respond::response_jx_m(
                    fin.parts,
                    plan.keys.model(),
                    match fin.root {
                        Some((oid, _)) => Some(oid),
                        None => None,
                    },
                    true,
                    fin.errors,
                ),
            )
        }),
{
    let ghost dm0 = drive_start(*plan);
    let ghost bodies0 = bodies_in@;
    let mut state = start_execution(plan);
    proof {
        assert(drive_model(state).bdata =~~= dm0.bdata);
        assert(drive_model(state).errors =~~= dm0.errors);
        assert(drive_model(state) =~~= dm0);
    }
    let mut bodies = bodies_in;
    loop
        invariant
            exec_state_wf(state),
            schema_wf(*schema),
            state.next_plan <= plan.plans@.len(),
            drive(*schema, *plan, drive_model(state), bodies@) == drive(
                *schema,
                *plan,
                dm0,
                bodies0,
            ),
        decreases plan.plans@.len() - state.next_plan, bodies@.len() + 1,
    {
        let ghost pre_dm = drive_model(state);
        let ghost pre_bm = bmodel(state.builder);
        let ghost pre_bodies = bodies@;
        match next_action(schema, plan, &mut state) {
            StepAction::Done => {
                proof {
                    assert(drive(*schema, *plan, pre_dm, pre_bodies) == pre_dm);
                }
                let ghost fin_parts = state.builder.parts@;
                let ghost fin_root = state.builder.root;
                let ghost fin_errs = state.builder.errors@;
                let r = finish_execution(plan, state);
                proof {
                    crate::respond::lemma_response_jx_model(
                        crate::respond::parts_model_of(fin_parts),
                        plan.keys.model(),
                        match fin_root {
                            Some((oid, _)) => Some(oid),
                            None => None,
                        },
                        true,
                        fin_errs,
                    );
                    assert(crate::respond::parts_model_of(fin_parts) =~= pre_dm.parts);
                    assert(drive(*schema, *plan, dm0, bodies0) == pre_dm);
                    assert(pre_dm.errors =~~= fin_errs.map_values(
                        |e: GraphqlError| crate::dser::err_model(e),
                    ));
                    assert(pre_dm.root == fin_root);
                    assert(r@ == crate::respond::jser(
                        crate::respond::response_jx_m(
                            pre_dm.parts,
                            plan.keys.model(),
                            match pre_dm.root {
                                Some((oid, _)) => Some(oid),
                                None => None,
                            },
                            true,
                            pre_dm.errors,
                        ),
                    ));
                }
                return r;
            },
            StepAction::Continue => {
                proof {
                    let pi = pre_dm.next_plan as int;
                    let p = plan.plans@[pi];
                    match p.subgraph {
                        None => {
                            if pre_dm.root is Some && pre_dm.parts.len() < usize::MAX {
                                let (oid, did) = pre_dm.root.unwrap();
                                let empty_part = crate::write::PartModel {
                                    objects: Seq::empty(),
                                    lists: Seq::empty(),
                                };
                                let m1r = BuilderModel {
                                    parts: pre_bm.parts.push(empty_part),
                                    ..pre_bm
                                };
                                let m1e = BuilderModel {
                                    parts: pre_dm.parts.push(empty_part),
                                    root: pre_dm.root,
                                    errors: Seq::empty(),
                                };
                                let pm = intro_part_model(
                                    p,
                                    *schema,
                                    pre_dm.parts.len() as int,
                                    oid,
                                    did,
                                );
                                crate::write::lemma_ingest_errors_indep(m1r, m1e, pm, pm);
                                crate::write::lemma_ingest_errors_value(m1r, pm);
                                assert(state.builder.errors@ =~= pre_bm.errors);
                                assert(drive_model(state).parts == intro_step(
                                    *schema,
                                    p,
                                    pre_dm,
                                ).parts);
                                assert(drive_model(state).root == intro_step(
                                    *schema,
                                    p,
                                    pre_dm,
                                ).root);
                            }
                            assert(drive_model(state).errors =~~= pre_dm.errors);
                            assert(drive_model(state).bdata =~~= pre_dm.bdata);
                            assert(drive_model(state) =~~= intro_step(*schema, p, pre_dm));
                        },
                        Some(_) => {
                            assert(drive_model(state).parts =~~= pre_dm.parts);
                            assert(drive_model(state).errors =~~= pre_dm.errors);
                            assert forall|b: int| 0 <= b < drive_model(state).bdata.len()
                                implies #[trigger] drive_model(state).bdata[b] == skip_step(
                                p,
                                pre_dm,
                            ).bdata[b] by {
                                if owned_boundary(p.boundary_start, p.boundary_count, b) {
                                    assert(state.boundary_data@[b] is Some);
                                    assert(refs_model(state.boundary_data@[b].unwrap()@) =~= Seq::<
                                        crate::write::RefModel,
                                    >::empty());
                                }
                            }
                            assert(drive_model(state) =~~= skip_step(p, pre_dm));
                        },
                    }
                    assert(drive(*schema, *plan, pre_dm, pre_bodies) == drive(
                        *schema,
                        *plan,
                        drive_model(state),
                        bodies@,
                    ));
                }
            },
            StepAction::Fetch(_req) => {
                let body = if bodies.len() > 0 {
                    bodies.remove(0)
                } else {
                    JsonValue::Null
                };
                let ghost body_g = body;
                let ghost pi = state.next_plan as int;
                let _ = provide_body(schema, plan, &mut state, body);
                proof {
                    let p = plan.plans@[pi];
                    assert(drive_model(state) =~~= provide_step(
                        *schema,
                        *plan,
                        p,
                        pre_dm,
                        body_g,
                    ));
                    if pre_bodies.len() > 0 {
                        assert(body_g == pre_bodies[0]);
                        assert(bodies@ =~= pre_bodies.drop_first());
                    }
                    assert(drive(*schema, *plan, pre_dm, pre_bodies) == drive(
                        *schema,
                        *plan,
                        drive_model(state),
                        bodies@,
                    ));
                }
            },
        }
    }
}


impl Engine {
    /// Prepares and executes an operation against a fixed list of upstream
    /// bodies. When the operation is accepted, the response text is exactly
    /// the rendering of the drive fold over the cached plan and the bodies;
    /// a rejected operation (which is then not in the cache) renders as an
    /// error-only document.
    pub fn execute(&mut self, query: &str, bodies: Vec<JsonValue>) -> (r: String)
        requires
            schema_wf(old(self).schema),
            engine_cache_wf(*old(self)),
        ensures
            final(self).schema == old(self).schema,
            engine_cache_wf(*final(self)),
            (match crate::operation::parse_op_spec(query@) {
                Err(pe) => r@ == crate::respond::jser(
                    crate::respond::response_jx_m(
                        Seq::empty(),
                        Seq::empty(),
                        None,
                        false,
                        seq![
                            crate::dser::ErrModel {
                                message: pe.message,
                                locations: seq![
                                    crate::error::Location { line: pe.line, column: pe.column },
                                ],
                                path: None,
                                extensions: Seq::empty(),
                            },
                        ],
                    ),
                ),
                Ok(op) => ((!op.is_subscription && bind_err_spec(
                    old(self).schema,
                    old(self).schema.root as int,
                    op.selection,
                ) is Some) ==> r@ == crate::respond::jser(
                    crate::respond::response_jx_m(
                        Seq::empty(),
                        Seq::empty(),
                        None,
                        false,
                        seq![
                            crate::dser::ErrModel {
                                message: bind_err_spec(
                                    old(self).schema,
                                    old(self).schema.root as int,
                                    op.selection,
                                ).unwrap().message,
                                locations: seq![
                                    crate::error::Location {
                                        line: bind_err_spec(
                                            old(self).schema,
                                            old(self).schema.root as int,
                                            op.selection,
                                        ).unwrap().line,
                                        column: bind_err_spec(
                                            old(self).schema,
                                            old(self).schema.root as int,
                                            op.selection,
                                        ).unwrap().column,
                                    },
                                ],
                                path: None,
                                extensions: Seq::empty(),
                            },
                        ],
                    ),
                )),
            }),
            match crate::shape::key_index(final(self).cache.keys_model(), query@) {
                Some(i) => ({
                    let entry_plan = final(self).cache.entries@[i].1;
                    let fin = drive(
                        old(self).schema,
                        entry_plan,
                        drive_start(entry_plan),
                        bodies@,
                    );
                    r@ == crate::respond::jser(
                        crate::respond::response_jx_m(
                            fin.parts,
                            entry_plan.keys.model(),
                            match fin.root {
                                Some((oid, _)) => Some(oid),
                                None => None,
                            },
                            true,
                            fin.errors,
                        ),
                    )
                }),
                None => true,
            },
    {
        let idx = match self.prepare(query) {
            Ok(i) => i,
            Err(e) => {
                let r = render_request_error(e);
                proof {
                    crate::respond::lemma_response_jx_model(
                        Seq::empty(),
                        Seq::empty(),
                        None,
                        false,
                        seq![e],
                    );
                    let em = crate::dser::err_model(e);
                    assert(seq![e].map_values(|x: GraphqlError| crate::dser::err_model(x))
                        =~= seq![em]);
                    match crate::operation::parse_op_spec(query@) {
                        Err(pe) => {
                            assert(em.locations =~= seq![
                                crate::error::Location { line: pe.line, column: pe.column },
                            ]);
                            assert(em.extensions =~= Seq::<(Seq<char>, crate::json::Jx)>::empty());
                            assert(em =~~= (crate::dser::ErrModel {
                                message: pe.message,
                                locations: seq![
                                    crate::error::Location { line: pe.line, column: pe.column },
                                ],
                                path: None,
                                extensions: Seq::empty(),
                            }));
                        },
                        Ok(op) => {
                            if !op.is_subscription && bind_err_spec(
                                old(self).schema,
                                old(self).schema.root as int,
                                op.selection,
                            ) is Some {
                                let pe = bind_err_spec(
                                    old(self).schema,
                                    old(self).schema.root as int,
                                    op.selection,
                                ).unwrap();
                                assert(em.locations =~= seq![
                                    crate::error::Location { line: pe.line, column: pe.column },
                                ]);
                                assert(em.extensions =~= Seq::<
                                    (Seq<char>, crate::json::Jx),
                                >::empty());
                                assert(em =~~= (crate::dser::ErrModel {
                                    message: pe.message,
                                    locations: seq![
                                        crate::error::Location {
                                            line: pe.line,
                                            column: pe.column,
                                        },
                                    ],
                                    path: None,
                                    extensions: Seq::empty(),
                                }));
                            }
                        },
                    }
                }
                return r;
            },
        };
        execute_with_bodies(&self.schema, &self.cache.entries[idx].1, bodies)
    }
}

// ---------------------------------------------------------------------------
// Laws.
// ---------------------------------------------------------------------------

/// The boundary-count law: when an entity plan's upstream body carries an
/// `_entities` array, the extra-entities error is recorded exactly when the
/// array is longer than the boundary; a shorter array adds no error and the
/// unassigned boundary objects fail, so their ancestors' nullability rules
/// apply.
pub proof fn lemma_boundary_counts(
    tables: Seq<crate::shape::SetModel>,
    sid: int,
    refs: Seq<crate::write::RefModel>,
    st: SeedState,
    data: JsonValue,
)
    ensures
        (match data {
            JsonValue::Obj(members) => {
                let (ents_j, _) = crate::upstream::extract_spec(members@, "_entities"@);
                match ents_j {
                    Some(JsonValue::Arr(items)) => {
                        let dr = crate::upstream::data_fold(tables, sid, refs, true, st, Some(data));
                        (items@.len() > refs.len()) <==> dr.2.len() != 0
                    },
                    _ => true,
                }
            },
            _ => true,
        }),
{
}


/// The local introspection plan as an executor factory.
pub struct IntrospectionExecutionPlan;

/// The executor that writes introspection fields locally.
pub struct IntrospectionExecutor {
    pub typename_fields: Vec<usize>,
}

impl IntrospectionExecutionPlan {
    /// Builds the executor for an introspection plan: it carries the
    /// response keys that receive the root type's name.
    pub fn new_executor(&self, plan: &Plan) -> (r: IntrospectionExecutor)
        ensures
            r.typename_fields@ == plan.typename_fields@,
    {
        let mut typename_fields: Vec<usize> = Vec::new();
        let n = plan.typename_fields.len();
        let mut i: usize = 0;
        while i < n
            invariant
                i <= n,
                n == plan.typename_fields@.len(),
                typename_fields@ =~= plan.typename_fields@.subrange(0, i as int),
            decreases n - i,
        {
            typename_fields.push(plan.typename_fields[i]);
            i = i + 1;
        }
        proof {
            assert(plan.typename_fields@.subrange(0, n as int) =~= plan.typename_fields@);
        }
        IntrospectionExecutor { typename_fields }
    }
}


// ---------------------------------------------------------------------------
// The execution fold: what running every plan over fixed bodies yields.
// ---------------------------------------------------------------------------

/// Model of the coordinator's state.
#[verifier::ext_equal]
pub struct DriveModel {
    pub parts: Seq<crate::write::PartModel>,
    pub root: Option<(crate::write::ResponseObjectId, usize)>,
    pub errors: Seq<crate::dser::ErrModel>,
    pub bdata: Seq<Option<Seq<crate::write::RefModel>>>,
    pub next_plan: nat,
}

pub open spec fn drive_model(st: ExecutionState) -> DriveModel {
    DriveModel {
        parts: bmodel(st.builder).parts,
        root: st.builder.root,
        errors: st.builder.errors@.map_values(|e: GraphqlError| crate::dser::err_model(e)),
        bdata: st.boundary_data@.map_values(
            |o: Option<Vec<ResponseObjectRef>>| match o {
                Some(v) => Some(refs_model(v@)),
                None => None,
            },
        ),
        next_plan: st.next_plan as nat,
    }
}

/// A plan is skipped when it has nothing to update or no endpoint to call.
pub open spec fn skip_due(schema: FedSchema, m: DriveModel, p: Plan) -> bool {
    let empty_input = match p.input_boundary {
        Some(b) => !(b < m.bdata.len() && m.bdata[b as int] is Some && m.bdata[
            b as int
        ].unwrap().len() > 0),
        None => m.root is None,
    };
    empty_input || (match p.subgraph {
        Some(sub) => sub >= schema.subgraphs@.len(),
        None => false,
    })
}

/// Running one introspection plan.
pub open spec fn intro_step(schema: FedSchema, p: Plan, m: DriveModel) -> DriveModel {
    if m.root is Some && m.parts.len() < usize::MAX {
        let (oid, did) = m.root.unwrap();
        let m1 = BuilderModel {
            parts: m.parts.push(
                crate::write::PartModel { objects: Seq::empty(), lists: Seq::empty() },
            ),
            root: m.root,
            errors: Seq::empty(),
        };
        let sealed = crate::write::ingest_model(
            m1,
            intro_part_model(p, schema, m.parts.len() as int, oid, did),
        );
        DriveModel { parts: sealed.parts, root: sealed.root, next_plan: m.next_plan + 1, ..m }
    } else {
        DriveModel { next_plan: m.next_plan + 1, ..m }
    }
}

/// Skipping a plan: its boundaries come out empty.
pub open spec fn skip_step(p: Plan, m: DriveModel) -> DriveModel {
    DriveModel {
        bdata: Seq::new(
            m.bdata.len(),
            |b: int| if owned_boundary(p.boundary_start, p.boundary_count, b) {
                Some(Seq::<crate::write::RefModel>::empty())
            } else {
                m.bdata[b]
            },
        ),
        next_plan: m.next_plan + 1,
        ..m
    }
}

/// The boundary objects a plan updates, at the model level.
pub open spec fn input_refs_of(m: DriveModel, p: Plan) -> Seq<crate::write::RefModel> {
    match p.input_boundary {
        Some(b) => if b < m.bdata.len() && m.bdata[b as int] is Some {
            m.bdata[b as int].unwrap()
        } else {
            Seq::empty()
        },
        None => match m.root {
            Some((oid, did)) => seq![
                crate::write::RefModel { id: oid, path: Seq::empty(), definition_id: did },
            ],
            None => Seq::empty(),
        },
    }
}

/// Providing one upstream body for a dispatched plan.
pub open spec fn provide_step(
    schema: FedSchema,
    plan: OperationPlan,
    p: Plan,
    m: DriveModel,
    body: JsonValue,
) -> DriveModel {
    let entities = p.input_boundary is Some;
    let normal = (entities || m.root is Some) && p.root_set < p.shapes.sets@.len() && m.parts.len()
        < usize::MAX && p.boundary_start + p.boundary_count <= usize::MAX;
    if !normal {
        DriveModel {
            errors: if entities || m.root is Some {
                m.errors.push(internal_err_model())
            } else {
                m.errors
            },
            bdata: Seq::new(
                m.bdata.len(),
                |b: int| if owned_boundary(p.boundary_start, p.boundary_count, b) {
                    Some(Seq::<crate::write::RefModel>::empty())
                } else {
                    m.bdata[b]
                },
            ),
            next_plan: m.next_plan + 1,
            ..m
        }
    } else {
        let refs_m = input_refs_of(m, p);
        let st0 = SeedState {
            part_id: m.parts.len() as usize,
            data: crate::write::PartModel { objects: Seq::empty(), lists: Seq::empty() },
            boundaries: Seq::new(p.boundary_count as nat, |k: int| Seq::empty()),
            errors: Seq::empty(),
            flag: false,
            path: Seq::empty(),
        };
        let out = crate::upstream::resp_spec(
            crate::shape::shapes_model(p.shapes),
            plan.keys.model(),
            refs_m,
            p.root_set as int,
            entities,
            st0,
            body,
        );
        let m1 = BuilderModel {
            parts: m.parts.push(
                crate::write::PartModel { objects: Seq::empty(), lists: Seq::empty() },
            ),
            root: m.root,
            errors: Seq::empty(),
        };
        let pm0 = crate::write::PartIngestModel {
            part_id: m.parts.len() as int,
            data: out.st.data,
            refs: refs_m,
            slots: out.slots,
            errors: Seq::empty(),
            queued: Seq::empty(),
        };
        let sealed = crate::write::ingest_model(m1, pm0);
        DriveModel {
            parts: sealed.parts,
            root: sealed.root,
            errors: m.errors + out.st.errors,
            bdata: Seq::new(
                m.bdata.len(),
                |b: int| if owned_boundary(p.boundary_start, p.boundary_count, b) {
                    Some(out.st.boundaries[b - p.boundary_start])
                } else {
                    m.bdata[b]
                },
            ),
            next_plan: m.next_plan + 1,
        }
    }
}

/// Running every remaining plan in order, each dispatched plan consuming the
/// next body (a missing body stands in as null).
pub open spec fn drive(
    schema: FedSchema,
    plan: OperationPlan,
    m: DriveModel,
    bodies: Seq<JsonValue>,
) -> DriveModel
    decreases plan.plans@.len() - m.next_plan,
{
    if m.next_plan >= plan.plans@.len() {
        m
    } else {
        let p = plan.plans@[m.next_plan as int];
        match p.subgraph {
            None => drive(schema, plan, intro_step(schema, p, m), bodies),
            Some(_) => if skip_due(schema, m, p) {
                drive(schema, plan, skip_step(p, m), bodies)
            } else {
                let body = if bodies.len() > 0 {
                    bodies[0]
                } else {
                    JsonValue::Null
                };
                let rest = if bodies.len() > 0 {
                    bodies.drop_first()
                } else {
                    bodies
                };
                drive(schema, plan, provide_step(schema, plan, p, m, body), rest)
            },
        }
    }
}


/// A query the cache does not hold has no first match.
pub proof fn lemma_absent_query(c: &OpCache, q: Seq<char>)
    requires
        forall|t: int| 0 <= t < c.entries@.len() ==> (#[trigger] c.entries@[t]).0@ != q,
    ensures
        crate::shape::key_index(c.keys_model(), q) is None,
{
    crate::shape::lemma_key_index_bounds(c.keys_model(), q);
    match crate::shape::key_index(c.keys_model(), q) {
        Some(j) => {
            assert(c.keys_model()[j] == c.entries@[j].0@);
            assert(false);
        },
        None => {},
    }
}

} // verus!
