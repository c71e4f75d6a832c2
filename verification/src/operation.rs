//! The federated schema, the operation parser and binder, and the planner
//! that splits a bound operation into one plan per subgraph with entity
//! boundaries between them.

use vstd::prelude::*;
use crate::error::{GraphqlError, Location};
use crate::shape::{
    CollectedField, CollectedSelectionSet, CollectedShapes, DataType, FieldType, ResponseKeys,
    Wrapping,
};
use crate::ResponseEdge;

verus! {

/// What a schema field carries: a scalar, or an object type by id.
#[derive(Clone, Copy, PartialEq, Eq, Structural, Debug)]
pub enum FieldTypeDef {
    Scalar(DataType),
    Object(usize),
}

/// One field of an object type: its name, the subgraph that owns it, its
/// declared wrapping and its type.
pub struct FieldDef {
    pub name: String,
    pub subgraph: usize,
    pub wrapping: Wrapping,
    pub ty: FieldTypeDef,
}

/// An object type: its name, its fields, and the indices of its key fields
/// when it is an entity.
pub struct ObjectType {
    pub name: String,
    pub fields: Vec<FieldDef>,
    pub keys: Vec<usize>,
}

/// How one header of a subgraph request is composed.
pub enum HeaderRuleValue {
    Forward(String),
    Static(String),
}

pub struct HeaderRule {
    pub name: String,
    pub value: HeaderRuleValue,
}

/// An upstream subgraph: its name, endpoint URL and header rules.
pub struct Subgraph {
    pub name: String,
    pub url: String,
    pub headers: Vec<HeaderRule>,
}

/// The federated schema: interned object types addressed by id, the
/// subgraphs, and the root query type.
pub struct FedSchema {
    pub objects: Vec<ObjectType>,
    pub subgraphs: Vec<Subgraph>,
    pub root: usize,
}

/// Structural soundness of a schema: every reference lands in the tables.
pub open spec fn schema_wf(s: FedSchema) -> bool {
    &&& s.root < s.objects@.len()
    &&& forall|t: int, f: int|
        0 <= t < s.objects@.len() && 0 <= f < s.objects@[t].fields@.len() ==> ((match (
        #[trigger] s.objects@[t].fields@[f]).ty {
            FieldTypeDef::Object(u) => u < s.objects@.len(),
            FieldTypeDef::Scalar(_) => true,
        }) && s.objects@[t].fields@[f].subgraph < s.subgraphs@.len())
    &&& forall|t: int, k: int|
        0 <= t < s.objects@.len() && 0 <= k < s.objects@[t].keys@.len() ==> (
        #[trigger] s.objects@[t].keys@[k]) < s.objects@[t].fields@.len()
}

// ---------------------------------------------------------------------------
// Parsing.
// ---------------------------------------------------------------------------

/// A field of the parsed operation text.
pub struct AstField {
    pub alias: Option<String>,
    pub name: String,
    pub line: u32,
    pub column: u32,
    pub selection: Vec<AstField>,
}

/// A cursor into the operation text, tracking position and source location.
#[derive(Clone, Copy, PartialEq, Eq, Structural, Debug)]
pub struct Cursor {
    pub pos: usize,
    pub line: u32,
    pub column: u32,
}

pub open spec fn is_ws(c: char) -> bool {
    c == ' ' || c == '\t' || c == '\r' || c == '\n' || c == ','
}

pub open spec fn is_name_start(c: char) -> bool {
    c == '_' || ('a' <= c && c <= 'z') || ('A' <= c && c <= 'Z')
}

pub open spec fn is_name_char(c: char) -> bool {
    is_name_start(c) || ('0' <= c && c <= '9')
}

#[verifier::loop_isolation(false)]
fn skip_ws(chars: &Vec<char>, cur: Cursor) -> (r: Cursor)
    requires
        cur.pos <= chars@.len(),
    ensures
        cur.pos <= r.pos <= chars@.len(),
        r == skip_ws_spec(chars@, cur),
{
    let mut c = cur;
    let n = chars.len();
    while c.pos < n && (chars[c.pos] == ' ' || chars[c.pos] == '\t' || chars[c.pos] == '\r'
        || chars[c.pos] == '\n' || chars[c.pos] == ',')
        invariant
            cur.pos <= c.pos <= n,
            n == chars@.len(),
            skip_ws_spec(chars@, c) == skip_ws_spec(chars@, cur),
        decreases n - c.pos,
    {
        if chars[c.pos] == '\n' {
            c = Cursor {
                pos: c.pos + 1,
                line: if c.line < u32::MAX {
                    c.line + 1
                } else {
                    c.line
                },
                column: 1,
            };
        } else {
            c = Cursor {
                pos: c.pos + 1,
                line: c.line,
                column: if c.column < u32::MAX {
                    c.column + 1
                } else {
                    c.column
                },
            };
        }
    }
    c
}

#[verifier::loop_isolation(false)]
fn parse_name(chars: &Vec<char>, cur: Cursor) -> (r: Option<(String, Cursor)>)
    requires
        cur.pos <= chars@.len(),
    ensures
        match r {
            Some((s, c2)) => cur.pos < c2.pos <= chars@.len() && parse_name_spec(chars@, cur)
                == Some((s@, c2)),
            None => parse_name_spec(chars@, cur) is None,
        },
{
    let n = chars.len();
    if cur.pos >= n {
        return None;
    }
    let c0 = chars[cur.pos];
    if !(c0 == '_' || ('a' <= c0 && c0 <= 'z') || ('A' <= c0 && c0 <= 'Z')) {
        return None;
    }
    let mut out: Vec<char> = Vec::new();
    let mut c = cur;
    while c.pos < n && (chars[c.pos] == '_' || ('a' <= chars[c.pos] && chars[c.pos] <= 'z') || ('A'
        <= chars[c.pos] && chars[c.pos] <= 'Z') || ('0' <= chars[c.pos] && chars[c.pos] <= '9'))
        invariant
            cur.pos <= c.pos <= n,
            n == chars@.len(),
            out@.len() == c.pos - cur.pos,
            name_scan(chars@, c, out@) == name_scan(chars@, cur, Seq::empty()),
        decreases n - c.pos,
    {
        out.push(chars[c.pos]);
        c = Cursor {
            pos: c.pos + 1,
            line: c.line,
            column: if c.column < u32::MAX {
                c.column + 1
            } else {
                c.column
            },
        };
    }
    Some((crate::json::chars_to_string(out), c))
}

// ---------------------------------------------------------------------------
// The grammar, as functions on the text.
// ---------------------------------------------------------------------------

/// Model of a parsed field.
#[verifier::ext_equal]
pub struct AstModel {
    pub alias: Option<Seq<char>>,
    pub name: Seq<char>,
    pub line: u32,
    pub column: u32,
    pub selection: Seq<AstModel>,
}

pub open spec fn ast_model(f: AstField) -> AstModel
    decreases f,
{
    AstModel {
        alias: match f.alias {
            Some(a) => Some(a@),
            None => None,
        },
        name: f.name@,
        line: f.line,
        column: f.column,
        selection: ast_models(f.selection@),
    }
}

pub open spec fn ast_models(s: Seq<AstField>) -> Seq<AstModel>
    decreases s,
{
    if s.len() == 0 {
        Seq::empty()
    } else {
        ast_models(s.drop_last()).push(ast_model(s.last()))
    }
}

pub proof fn lemma_ast_models(s: Seq<AstField>)
    ensures
        ast_models(s).len() == s.len(),
        forall|i: int| 0 <= i < s.len() ==> ast_models(s)[i] == ast_model(s[i]),
    decreases s,
{
    if s.len() > 0 {
        lemma_ast_models(s.drop_last());
    }
}

/// Model of a rejection: the message and where it points.
#[verifier::ext_equal]
pub struct PErr {
    pub message: Seq<char>,
    pub line: u32,
    pub column: u32,
}

/// Model of a parsed operation.
#[verifier::ext_equal]
pub struct OpModel {
    pub is_query: bool,
    pub is_mutation: bool,
    pub is_subscription: bool,
    pub selection: Seq<AstModel>,
}

/// Stepping over one ordinary character.
pub open spec fn bump(c: Cursor) -> Cursor {
    Cursor {
        pos: (c.pos + 1) as usize,
        line: c.line,
        column: if c.column < u32::MAX {
            (c.column + 1) as u32
        } else {
            c.column
        },
    }
}

/// Stepping over a line break.
pub open spec fn bump_nl(c: Cursor) -> Cursor {
    Cursor {
        pos: (c.pos + 1) as usize,
        line: if c.line < u32::MAX {
            (c.line + 1) as u32
        } else {
            c.line
        },
        column: 1,
    }
}

pub open spec fn skip_ws_spec(chars: Seq<char>, c: Cursor) -> Cursor
    decreases chars.len() - c.pos,
{
    if c.pos >= chars.len() || c.pos >= usize::MAX || !is_ws(chars[c.pos as int]) {
        c
    } else if chars[c.pos as int] == '\n' {
        skip_ws_spec(chars, bump_nl(c))
    } else {
        skip_ws_spec(chars, bump(c))
    }
}

pub proof fn lemma_skip_ws_pos(chars: Seq<char>, c: Cursor)
    ensures
        skip_ws_spec(chars, c).pos >= c.pos,
    decreases chars.len() - c.pos,
{
    if !(c.pos >= chars.len() || c.pos >= usize::MAX || !is_ws(chars[c.pos as int])) {
        if chars[c.pos as int] == '\n' {
            lemma_skip_ws_pos(chars, bump_nl(c));
        } else {
            lemma_skip_ws_pos(chars, bump(c));
        }
    }
}

pub open spec fn name_scan(chars: Seq<char>, c: Cursor, acc: Seq<char>) -> (Seq<char>, Cursor)
    decreases chars.len() - c.pos,
{
    if c.pos < chars.len() && c.pos < usize::MAX && is_name_char(chars[c.pos as int]) {
        name_scan(chars, bump(c), acc.push(chars[c.pos as int]))
    } else {
        (acc, c)
    }
}

pub proof fn lemma_name_scan_pos(chars: Seq<char>, c: Cursor, acc: Seq<char>)
    ensures
        name_scan(chars, c, acc).1.pos >= c.pos,
    decreases chars.len() - c.pos,
{
    if c.pos < chars.len() && c.pos < usize::MAX && is_name_char(chars[c.pos as int]) {
        lemma_name_scan_pos(chars, bump(c), acc.push(chars[c.pos as int]));
    }
}

/// A name: a name-start character, then every following name character.
pub open spec fn parse_name_spec(chars: Seq<char>, c: Cursor) -> Option<(Seq<char>, Cursor)> {
    if c.pos < chars.len() && is_name_start(chars[c.pos as int]) {
        Some(name_scan(chars, c, Seq::empty()))
    } else {
        None
    }
}

/// One selection set: `{` then fields until `}`.
pub open spec fn parse_sel_spec(chars: Seq<char>, c: Cursor) -> Result<(Seq<AstModel>, Cursor), PErr>
    decreases chars.len() - c.pos, 2int,
    via parse_sel_spec_decreases
{
    let c1 = skip_ws_spec(chars, c);
    if c1.pos >= chars.len() || c1.pos >= usize::MAX || chars[c1.pos as int] != '{' {
        Err(PErr { message: "Expected a selection set"@, line: c1.line, column: c1.column })
    } else {
        parse_fields_spec(chars, bump(c1), Seq::empty())
    }
}

/// The fields of a selection set, accumulated in order.
pub open spec fn parse_fields_spec(chars: Seq<char>, c: Cursor, acc: Seq<AstModel>) -> Result<
    (Seq<AstModel>, Cursor),
    PErr,
>
    decreases chars.len() - c.pos, 1int,
    via parse_fields_spec_decreases
{
    let c1 = skip_ws_spec(chars, c);
    if c1.pos >= chars.len() {
        Err(PErr { message: "Unterminated selection set"@, line: c1.line, column: c1.column })
    } else if chars[c1.pos as int] == '}' {
        if acc.len() == 0 {
            Err(
                PErr {
                    message: "A selection set cannot be empty"@,
                    line: c1.line,
                    column: c1.column,
                },
            )
        } else {
            Ok((acc, bump(c1)))
        }
    } else {
        match parse_name_spec(chars, c1) {
            None => Err(
                PErr { message: "Expected a field name"@, line: c1.line, column: c1.column },
            ),
            Some((name1, c_after)) => {
                let c2 = skip_ws_spec(chars, c_after);
                let with_alias = c2.pos < chars.len() && chars[c2.pos as int] == ':';
                if with_alias {
                    let c3 = skip_ws_spec(chars, bump(c2));
                    match parse_name_spec(chars, c3) {
                        None => Err(
                            PErr {
                                message: "Expected a field name after the alias"@,
                                line: c3.line,
                                column: c3.column,
                            },
                        ),
                        Some((name2, c4)) => parse_field_tail_spec(
                            chars,
                            c,
                            acc,
                            Some(name1),
                            name2,
                            c3,
                            skip_ws_spec(chars, c4),
                        ),
                    }
                } else {
                    parse_field_tail_spec(chars, c, acc, None, name1, c1, c2)
                }
            },
        }
    }
}

/// After the field's name: an optional nested selection set, then the next
/// field. `loc` is where the field's own name started.
pub open spec fn parse_field_tail_spec(
    chars: Seq<char>,
    c_entry: Cursor,
    acc: Seq<AstModel>,
    alias: Option<Seq<char>>,
    name: Seq<char>,
    loc: Cursor,
    c2: Cursor,
) -> Result<(Seq<AstModel>, Cursor), PErr>
    decreases chars.len() - c_entry.pos, 0int,
    via parse_field_tail_spec_decreases
{
    if c_entry.pos < c2.pos <= chars.len() {
        if c2.pos < chars.len() && chars[c2.pos as int] == '{' {
            match parse_sel_spec(chars, c2) {
                Err(e) => Err(e),
                Ok((sel, c5)) => if c2.pos < c5.pos <= chars.len() {
                    parse_fields_spec(
                        chars,
                        c5,
                        acc.push(
                            AstModel { alias, name, line: loc.line, column: loc.column, selection: sel },
                        ),
                    )
                } else {
                    Err(PErr { message: "Unterminated selection set"@, line: c5.line, column: c5.column })
                },
            }
        } else {
            parse_fields_spec(
                chars,
                c2,
                acc.push(
                    AstModel {
                        alias,
                        name,
                        line: loc.line,
                        column: loc.column,
                        selection: Seq::empty(),
                    },
                ),
            )
        }
    } else {
        Err(PErr { message: "Unterminated selection set"@, line: c2.line, column: c2.column })
    }
}

#[via_fn]
proof fn parse_sel_spec_decreases(chars: Seq<char>, c: Cursor) {
    lemma_skip_ws_pos(chars, c);
}

#[via_fn]
proof fn parse_fields_spec_decreases(chars: Seq<char>, c: Cursor, acc: Seq<AstModel>) {
    lemma_skip_ws_pos(chars, c);
    let c1 = skip_ws_spec(chars, c);
    if c1.pos < chars.len() && chars[c1.pos as int] != '}' {
        match parse_name_spec(chars, c1) {
            None => {},
            Some((name1, c_after)) => {
                lemma_name_scan_pos(chars, c1, Seq::empty());
                lemma_skip_ws_pos(chars, c_after);
                let c2 = skip_ws_spec(chars, c_after);
                if c2.pos < chars.len() && chars[c2.pos as int] == ':' {
                    lemma_skip_ws_pos(chars, bump(c2));
                    let c3 = skip_ws_spec(chars, bump(c2));
                    match parse_name_spec(chars, c3) {
                        None => {},
                        Some((name2, c4)) => {
                            lemma_name_scan_pos(chars, c3, Seq::empty());
                            lemma_skip_ws_pos(chars, c4);
                        },
                    }
                }
            },
        }
    }
}

#[via_fn]
proof fn parse_field_tail_spec_decreases(
    chars: Seq<char>,
    c_entry: Cursor,
    acc: Seq<AstModel>,
    alias: Option<Seq<char>>,
    name: Seq<char>,
    loc: Cursor,
    c2: Cursor,
) {
}

/// A whole operation: an optional keyword and name, the root selection set,
/// nothing else.
pub open spec fn parse_op_spec(q: Seq<char>) -> Result<OpModel, PErr> {
    let c0 = Cursor { pos: 0, line: 1, column: 1 };
    let c = skip_ws_spec(q, c0);
    let kw = parse_name_spec(q, c);
    let start: Result<(bool, bool, bool, Cursor), PErr> = match kw {
        Some((word, c3)) => {
            if word == "query"@ {
                Ok((true, false, false, c3))
            } else if word == "mutation"@ {
                Ok((false, true, false, c3))
            } else if word == "subscription"@ {
                Ok((false, false, true, c3))
            } else {
                Err(PErr { message: "Expected an operation"@, line: c.line, column: c.column })
            }
        },
        None => Ok((true, false, false, c)),
    };
    match start {
        Err(e) => Err(e),
        Ok((isq, ism, iss, c2a)) => {
            let c2 = if kw is Some {
                let c4 = skip_ws_spec(q, c2a);
                match parse_name_spec(q, c4) {
                    Some((_, c5)) => c5,
                    None => c4,
                }
            } else {
                c2a
            };
            match parse_sel_spec(q, c2) {
                Err(e) => Err(e),
                Ok((sel, c6)) => {
                    let c7 = skip_ws_spec(q, c6);
                    if c7.pos < q.len() {
                        Err(
                            PErr {
                                message: "Unexpected trailing characters"@,
                                line: c7.line,
                                column: c7.column,
                            },
                        )
                    } else {
                        Ok(
                            OpModel {
                                is_query: isq,
                                is_mutation: ism,
                                is_subscription: iss,
                                selection: sel,
                            },
                        )
                    }
                },
            }
        },
    }
}

/// An error value carrying exactly a rejection model.
pub open spec fn perr_matches(e: GraphqlError, pe: PErr) -> bool {
    &&& e.message@ == pe.message
    &&& e.locations@.len() == 1
    &&& e.locations@[0] == (Location { line: pe.line, column: pe.column })
    &&& e.path is None
    &&& e.extensions@.len() == 0
}

/// A parse error with its source location.
fn parse_error(message: &str, cur: Cursor) -> (r: GraphqlError)
    ensures
        perr_matches(r, PErr { message: message@, line: cur.line, column: cur.column }),
{
    let mut locations: Vec<Location> = Vec::new();
    locations.push(Location { line: cur.line, column: cur.column });
    GraphqlError { message: message.to_owned(), locations, path: None, extensions: Vec::new() }
}

/// Parses one selection set: `{ field+ }` where every field may carry an
/// alias and a nested selection set.
#[verifier::loop_isolation(false)]
fn parse_selection_set(chars: &Vec<char>, cur: Cursor) -> (r: Result<
    (Vec<AstField>, Cursor),
    GraphqlError,
>)
    requires
        cur.pos <= chars@.len(),
    ensures
        match r {
            Ok((fields, c2)) => cur.pos < c2.pos <= chars@.len() && fields@.len() > 0
                && parse_sel_spec(chars@, cur) == Ok::<(Seq<AstModel>, Cursor), PErr>(
                (ast_models(fields@), c2),
            ),
            Err(e) => match parse_sel_spec(chars@, cur) {
                Err(pe) => perr_matches(e, pe),
                Ok(_) => false,
            },
        },
    decreases chars@.len() - cur.pos,
{
    let ghost full = parse_sel_spec(chars@, cur);
    let n = chars.len();
    let c = skip_ws(chars, cur);
    if c.pos >= n || chars[c.pos] != '{' {
        return Err(parse_error("Expected a selection set", c));
    }
    let mut c = Cursor {
        pos: c.pos + 1,
        line: c.line,
        column: if c.column < u32::MAX {
            c.column + 1
        } else {
            c.column
        },
    };
    proof {
        assert(full == parse_fields_spec(chars@, c, Seq::empty()));
        assert(ast_models(Seq::empty()) =~= Seq::<AstModel>::empty());
    }
    let mut fields: Vec<AstField> = Vec::new();
    loop
        invariant
            cur.pos < c.pos <= n,
            parse_fields_spec(chars@, c, ast_models(fields@)) == full,
        decreases n - c.pos,
    {
        let ghost c_head = c;
        let ghost acc_m = ast_models(fields@);
        c = skip_ws(chars, c);
        if c.pos >= n {
            return Err(parse_error("Unterminated selection set", c));
        }
        if chars[c.pos] == '}' {
            if fields.len() == 0 {
                proof {
                    assert(acc_m.len() == 0) by {
                        lemma_ast_models(fields@);
                    }
                }
                return Err(parse_error("A selection set cannot be empty", c));
            }
            let c2 = Cursor {
                pos: c.pos + 1,
                line: c.line,
                column: if c.column < u32::MAX {
                    c.column + 1
                } else {
                    c.column
                },
            };
            proof {
                assert(acc_m.len() > 0) by {
                    lemma_ast_models(fields@);
                }
                assert(full == Ok::<(Seq<AstModel>, Cursor), PErr>((acc_m, c2)));
            }
            return Ok((fields, c2));
        }
        let name_loc = c;
        let (name1, c_after) = match parse_name(chars, c) {
            Some(p) => p,
            None => {
                return Err(parse_error("Expected a field name", c));
            },
        };
        let ghost name1_m = name1@;
        let mut c2 = skip_ws(chars, c_after);
        let mut alias: Option<String> = None;
        let mut name = name1;
        let mut loc2 = name_loc;
        let ghost with_alias = c2.pos < chars@.len() && chars@[c2.pos as int] == ':';
        if c2.pos < n && chars[c2.pos] == ':' {
            let c3 = Cursor {
                pos: c2.pos + 1,
                line: c2.line,
                column: if c2.column < u32::MAX {
                    c2.column + 1
                } else {
                    c2.column
                },
            };
            let c3 = skip_ws(chars, c3);
            let real_loc = c3;
            let (name2, c4) = match parse_name(chars, c3) {
                Some(p) => p,
                None => {
                    return Err(parse_error("Expected a field name after the alias", c3));
                },
            };
            alias = Some(name);
            name = name2;
            loc2 = real_loc;
            c2 = skip_ws(chars, c4);
        }
        let ghost alias_m = match &alias {
            Some(a) => Some(a@),
            None => None,
        };
        proof {
            assert(parse_fields_spec(chars@, c_head, acc_m) == parse_field_tail_spec(
                chars@,
                c_head,
                acc_m,
                alias_m,
                name@,
                loc2,
                c2,
            ));
            assert(c_head.pos < c2.pos <= chars@.len());
        }
        let mut selection: Vec<AstField> = Vec::new();
        if c2.pos < n && chars[c2.pos] == '{' {
            let (sel, c5) = match parse_selection_set(chars, c2) {
                Ok(p) => p,
                Err(e) => {
                    return Err(e);
                },
            };
            selection = sel;
            c2 = c5;
        }
        let ghost pre_fields = fields@;
        fields.push(
            AstField { alias, name, line: loc2.line, column: loc2.column, selection },
        );
        proof {
            assert(fields@.drop_last() =~= pre_fields);
            assert(ast_models(fields@) == ast_models(pre_fields).push(
                ast_model(fields@.last()),
            ));
            assert(parse_fields_spec(chars@, c2, ast_models(fields@)) == full);
        }
        c = c2;
    }
}

/// The parsed operation: its type and its root selection set.
pub struct ParsedOperation {
    pub is_query: bool,
    pub is_mutation: bool,
    pub is_subscription: bool,
    pub selection: Vec<AstField>,
}

/// Parses an operation: an optional operation keyword and name, then the
/// root selection set, then nothing else. The result — acceptance,
/// rejection message and location, and the parsed tree — is exactly
/// `parse_op_spec` of the text.
pub fn parse_operation(query: &str) -> (r: Result<ParsedOperation, GraphqlError>)
    ensures
        match parse_op_spec(query@) {
            Ok(op) => match r {
                Ok(p) => p.is_query == op.is_query && p.is_mutation == op.is_mutation
                    && p.is_subscription == op.is_subscription && ast_models(p.selection@)
                    == op.selection && p.selection@.len() > 0,
                Err(_) => false,
            },
            Err(pe) => match r {
                Ok(_) => false,
                Err(e) => perr_matches(e, pe),
            },
        },
{
    let mut chars: Vec<char> = Vec::new();
    let qn = query.unicode_len();
    let mut i: usize = 0;
    while i < qn
        invariant
            i <= qn,
            qn == query@.len(),
            chars@ =~= query@.subrange(0, i as int),
        decreases qn - i,
    {
        chars.push(query.get_char(i));
        i = i + 1;
    }
    proof {
        assert(chars@ =~= query@);
    }
    let cur = Cursor { pos: 0, line: 1, column: 1 };
    let c = skip_ws(&chars, cur);
    let mut is_query = true;
    let mut is_mutation = false;
    let mut is_subscription = false;
    let mut c2 = c;
    let ghost kw_spec = parse_name_spec(chars@, c);
    match parse_name(&chars, c) {
        Some((kw, c3)) => {
            if crate::shape::string_eq_str(&kw, "query") {
                c2 = c3;
            } else if crate::shape::string_eq_str(&kw, "mutation") {
                is_query = false;
                is_mutation = true;
                c2 = c3;
            } else if crate::shape::string_eq_str(&kw, "subscription") {
                is_query = false;
                is_subscription = true;
                c2 = c3;
            } else {
                return Err(parse_error("Expected an operation", c));
            }
            // An optional operation name.
            let c4 = skip_ws(&chars, c2);
            match parse_name(&chars, c4) {
                Some((_, c5)) => {
                    c2 = c5;
                },
                None => {
                    c2 = c4;
                },
            }
        },
        None => {},
    }
    let (selection, c6) = match parse_selection_set(&chars, c2) {
        Ok(p) => p,
        Err(e) => {
            return Err(e);
        },
    };
    let c7 = skip_ws(&chars, c6);
    if c7.pos < chars.len() {
        return Err(parse_error("Unexpected trailing characters", c7));
    }
    proof {
        assert(ast_models(selection@).len() == selection@.len()) by {
            lemma_ast_models(selection@);
        }
    }
    Ok(ParsedOperation { is_query, is_mutation, is_subscription, selection })
}


// ---------------------------------------------------------------------------
// Binding.
// ---------------------------------------------------------------------------

/// A field bound against the schema: its response key, the schema field it
/// reads (`None` for `__typename`), and its bound selection.
pub struct BoundField {
    pub key: usize,
    pub name: String,
    pub field: Option<usize>,
    pub location: Location,
    pub selection: Vec<BoundField>,
}

/// Size of a parsed selection, for termination of binding and planning.
pub open spec fn asize_fields(s: Seq<AstField>) -> nat
    decreases s,
{
    if s.len() == 0 {
        0
    } else {
        1 + asize(s[0]) + asize_fields(s.drop_first())
    }
}

pub open spec fn asize(f: AstField) -> nat
    decreases f,
{
    1 + asize_fields(f.selection@)
}

pub proof fn lemma_asize_item(s: Seq<AstField>, i: int)
    requires
        0 <= i < s.len(),
    ensures
        asize(s[i]) < asize_fields(s),
    decreases s.len(),
{
    if i > 0 {
        lemma_asize_item(s.drop_first(), i - 1);
        assert(s.drop_first()[i - 1] == s[i]);
    }
}

pub open spec fn bsize_fields(s: Seq<BoundField>) -> nat
    decreases s,
{
    if s.len() == 0 {
        0
    } else {
        1 + bsize(s[0]) + bsize_fields(s.drop_first())
    }
}

pub open spec fn bsize(f: BoundField) -> nat
    decreases f,
{
    1 + bsize_fields(f.selection@)
}

pub proof fn lemma_bsize_item(s: Seq<BoundField>, i: int)
    requires
        0 <= i < s.len(),
    ensures
        bsize(s[i]) < bsize_fields(s),
    decreases s.len(),
{
    if i > 0 {
        lemma_bsize_item(s.drop_first(), i - 1);
        assert(s.drop_first()[i - 1] == s[i]);
    }
}

impl ResponseKeys {
    /// The id of the response key, interning it when new: an existing key is
    /// returned and the table is untouched; a new name is appended at the
    /// returned id. Entry `r` always holds `name`.
    pub fn intern(&mut self, name: &str) -> (r: usize)
        ensures
            r < final(self).keys@.len(),
            final(self).model()[r as int] == name@,
            match crate::shape::key_index(old(self).model(), name@) {
                Some(i) => r == i && *final(self) == *old(self),
                None => r == old(self).keys@.len() && final(self).model() =~= old(
                    self,
                ).model().push(name@),
            },
    {
        match self.get(name) {
            Some(i) => {
                proof {
                    crate::shape::lemma_key_index_bounds(self.model(), name@);
                }
                i
            },
            None => {
                let i = self.keys.len();
                let ghost pre = self.keys@;
                self.keys.push(name.to_owned());
                proof {
                    assert forall|t: int| 0 <= t < self.keys@.len() implies self.model()[t] == (
                    if t < pre.len() {
                        pre.map_values(|k: String| k@)[t]
                    } else {
                        name@
                    }) by {
                        if t < pre.len() {
                            assert(self.keys@[t] == pre[t]);
                        }
                    }
                    assert(self.model() =~= pre.map_values(|k: String| k@).push(name@));
                }
                i
            },
        }
    }
}

/// The first schema field with the given name.
pub open spec fn field_index(fields: Seq<FieldDef>, name: Seq<char>) -> Option<int>
    decreases fields.len(),
{
    if fields.len() == 0 {
        None
    } else if fields[0].name@ == name {
        Some(0)
    } else {
        match field_index(fields.drop_first(), name) {
            Some(i) => Some(i + 1),
            None => None,
        }
    }
}

pub proof fn lemma_field_index_bounds(fields: Seq<FieldDef>, name: Seq<char>)
    ensures
        match field_index(fields, name) {
            Some(i) => 0 <= i < fields.len() && fields[i].name@ == name && forall|t: int|
                0 <= t < i ==> (#[trigger] fields[t]).name@ != name,
            None => forall|t: int| 0 <= t < fields.len() ==> (#[trigger] fields[t]).name@ != name,
        },
    decreases fields.len(),
{
    if fields.len() > 0 && fields[0].name@ != name {
        let rest = fields.drop_first();
        lemma_field_index_bounds(rest, name);
        assert(forall|t: int| 0 <= t < rest.len() ==> rest[t] == fields[t + 1]);
        match field_index(rest, name) {
            Some(i2) => {
                assert forall|t: int| 0 <= t < i2 + 1 implies (#[trigger] fields[t]).name@
                    != name by {
                    if t > 0 {
                        assert(rest[t - 1] == fields[t]);
                    }
                }
            },
            None => {
                assert forall|t: int| 0 <= t < fields.len() implies (#[trigger] fields[t]).name@
                    != name by {
                    if t > 0 {
                        assert(rest[t - 1] == fields[t]);
                    }
                }
            },
        }
    }
}

pub proof fn lemma_field_index_at(fields: Seq<FieldDef>, name: Seq<char>, i: int)
    requires
        0 <= i < fields.len(),
        fields[i].name@ == name,
        forall|t: int| 0 <= t < i ==> (#[trigger] fields[t]).name@ != name,
    ensures
        field_index(fields, name) == Some(i),
    decreases fields.len(),
{
    if i > 0 {
        let rest = fields.drop_first();
        assert(forall|t: int| 0 <= t < rest.len() ==> rest[t] == fields[t + 1]);
        lemma_field_index_at(rest, name, i - 1);
    }
}

/// Which parsed selections bind: every field exists on its type (or is
/// `__typename` with no selection), scalar fields take no selection, object
/// fields require one that binds in turn.
pub open spec fn binds_ok(schema: FedSchema, type_id: int, asts: Seq<AstModel>) -> bool
    decreases bmsize(asts), 0int,
    via binds_ok_decreases
{
    if asts.len() == 0 {
        true
    } else {
        let f = asts[0];
        let this_ok = if f.name == "__typename"@ {
            f.selection.len() == 0
        } else {
            match field_index(schema.objects@[type_id].fields@, f.name) {
                None => false,
                Some(fi) => match schema.objects@[type_id].fields@[fi].ty {
                    FieldTypeDef::Scalar(_) => f.selection.len() == 0,
                    FieldTypeDef::Object(t) => f.selection.len() > 0 && binds_ok(
                        schema,
                        t as int,
                        f.selection,
                    ),
                },
            }
        };
        this_ok && binds_ok(schema, type_id, asts.drop_first())
    }
}

#[via_fn]
proof fn binds_ok_decreases(schema: FedSchema, type_id: int, asts: Seq<AstModel>) {
    if asts.len() > 0 {
        assert(bmsize(asts) == 1 + bmsize_one(asts[0]) + bmsize(asts.drop_first()));
        assert(bmsize_one(asts[0]) == 1 + bmsize(asts[0].selection));
    }
}

/// Size of a parsed-model selection, for termination.
pub open spec fn bmsize(s: Seq<AstModel>) -> nat
    decreases s,
{
    if s.len() == 0 {
        0
    } else {
        1 + bmsize_one(s[0]) + bmsize(s.drop_first())
    }
}

pub open spec fn bmsize_one(f: AstModel) -> nat
    decreases f,
{
    1 + bmsize(f.selection)
}

pub proof fn lemma_bmsize_item(s: Seq<AstModel>, i: int)
    requires
        0 <= i < s.len(),
    ensures
        bmsize_one(s[i]) < bmsize(s),
    decreases s.len(),
{
    if i > 0 {
        lemma_bmsize_item(s.drop_first(), i - 1);
        assert(s.drop_first()[i - 1] == s[i]);
    }
}

/// Suffix unfolding for the acceptance check.
pub proof fn lemma_binds_ok_suffix(schema: FedSchema, type_id: int, asts: Seq<AstModel>, i: int)
    requires
        0 <= i < asts.len(),
    ensures
        binds_ok(schema, type_id, asts.subrange(i, asts.len() as int)) == ({
            let f = asts[i];
            let this_ok = if f.name == "__typename"@ {
                f.selection.len() == 0
            } else {
                match field_index(schema.objects@[type_id].fields@, f.name) {
                    None => false,
                    Some(fi) => match schema.objects@[type_id].fields@[fi].ty {
                        FieldTypeDef::Scalar(_) => f.selection.len() == 0,
                        FieldTypeDef::Object(t) => f.selection.len() > 0 && binds_ok(
                            schema,
                            t as int,
                            f.selection,
                        ),
                    },
                }
            };
            this_ok && binds_ok(schema, type_id, asts.subrange(i + 1, asts.len() as int))
        }),
{
    let rem = asts.subrange(i, asts.len() as int);
    assert(rem[0] == asts[i]);
    assert(rem.drop_first() =~= asts.subrange(i + 1, asts.len() as int));
}

/// The first binding rejection of a parsed selection, if any: the message
/// and source location the binder reports.
pub open spec fn bind_err_spec(schema: FedSchema, type_id: int, asts: Seq<AstModel>) -> Option<
    PErr,
>
    decreases bmsize(asts), 0int,
    via bind_err_spec_decreases
{
    if asts.len() == 0 {
        None
    } else {
        let f = asts[0];
        let this_err: Option<PErr> = if f.name == "__typename"@ {
            if f.selection.len() > 0 {
                Some(
                    PErr {
                        message: "Field '__typename' cannot have a selection set"@,
                        line: f.line,
                        column: f.column,
                    },
                )
            } else {
                None
            }
        } else {
            match field_index(schema.objects@[type_id].fields@, f.name) {
                None => Some(
                    PErr {
                        message: schema.objects@[type_id].name@
                            + " does not have a field named '"@ + f.name + "'"@,
                        line: f.line,
                        column: f.column,
                    },
                ),
                Some(fi) => match schema.objects@[type_id].fields@[fi].ty {
                    FieldTypeDef::Scalar(_) => if f.selection.len() > 0 {
                        Some(
                            PErr {
                                message: "This field cannot have a selection set"@,
                                line: f.line,
                                column: f.column,
                            },
                        )
                    } else {
                        None
                    },
                    FieldTypeDef::Object(t) => if f.selection.len() == 0 {
                        Some(
                            PErr {
                                message: "This field must have a selection set"@,
                                line: f.line,
                                column: f.column,
                            },
                        )
                    } else {
                        bind_err_spec(schema, t as int, f.selection)
                    },
                },
            }
        };
        match this_err {
            Some(e) => Some(e),
            None => bind_err_spec(schema, type_id, asts.drop_first()),
        }
    }
}

#[via_fn]
proof fn bind_err_spec_decreases(schema: FedSchema, type_id: int, asts: Seq<AstModel>) {
    if asts.len() > 0 {
        assert(bmsize(asts) == 1 + bmsize_one(asts[0]) + bmsize(asts.drop_first()));
        assert(bmsize_one(asts[0]) == 1 + bmsize(asts[0].selection));
    }
}

/// Suffix unfolding for the first rejection.
pub proof fn lemma_bind_err_suffix(schema: FedSchema, type_id: int, asts: Seq<AstModel>, i: int)
    requires
        0 <= i < asts.len(),
    ensures
        bind_err_spec(schema, type_id, asts.subrange(i, asts.len() as int)) == ({
            let f = asts[i];
            let this_err: Option<PErr> = if f.name == "__typename"@ {
                if f.selection.len() > 0 {
                    Some(
                        PErr {
                            message: "Field '__typename' cannot have a selection set"@,
                            line: f.line,
                            column: f.column,
                        },
                    )
                } else {
                    None
                }
            } else {
                match field_index(schema.objects@[type_id].fields@, f.name) {
                    None => Some(
                        PErr {
                            message: schema.objects@[type_id].name@
                                + " does not have a field named '"@ + f.name + "'"@,
                            line: f.line,
                            column: f.column,
                        },
                    ),
                    Some(fi) => match schema.objects@[type_id].fields@[fi].ty {
                        FieldTypeDef::Scalar(_) => if f.selection.len() > 0 {
                            Some(
                                PErr {
                                    message: "This field cannot have a selection set"@,
                                    line: f.line,
                                    column: f.column,
                                },
                            )
                        } else {
                            None
                        },
                        FieldTypeDef::Object(t) => if f.selection.len() == 0 {
                            Some(
                                PErr {
                                    message: "This field must have a selection set"@,
                                    line: f.line,
                                    column: f.column,
                                },
                            )
                        } else {
                            bind_err_spec(schema, t as int, f.selection)
                        },
                    },
                }
            };
            match this_err {
                Some(e) => Some(e),
                None => bind_err_spec(schema, type_id, asts.subrange(i + 1, asts.len() as int)),
            }
        }),
{
    let rem = asts.subrange(i, asts.len() as int);
    assert(rem[0] == asts[i]);
    assert(rem.drop_first() =~= asts.subrange(i + 1, asts.len() as int));
}

/// Binds a selection set against an object type: a bound field comes out
/// for every parsed field, in order, under the parsed field's own name and
/// source location, with its response key interned under the alias or name;
/// a schema field of that name must exist (`__typename` binds to none),
/// scalar fields take no selection, object fields require one. Binding
/// succeeds exactly when `binds_ok` accepts the selection, and a rejection
/// is exactly the first one `bind_err_spec` yields.
#[verifier::loop_isolation(false)]
pub fn bind_selection(
    schema: &FedSchema,
    keys: &mut ResponseKeys,
    type_id: usize,
    ast: &Vec<AstField>,
) -> (r: Result<Vec<BoundField>, GraphqlError>)
    requires
        schema_wf(*schema),
        type_id < schema.objects@.len(),
    ensures
        final(keys).keys@.len() >= old(keys).keys@.len(),
        final(keys).model().subrange(0, old(keys).keys@.len() as int) == old(keys).model(),
        (r is Ok) <==> binds_ok(*schema, type_id as int, ast_models(ast@)),
        (r is Ok) <==> (bind_err_spec(*schema, type_id as int, ast_models(ast@)) is None),
        (match r {
            Err(e) => match bind_err_spec(*schema, type_id as int, ast_models(ast@)) {
                Some(pe) => perr_matches(e, pe),
                None => false,
            },
            Ok(_) => true,
        }),
        match r {
            Ok(b) => {
                &&& b@.len() == ast@.len()
                &&& forall|i: int|
                    0 <= i < b@.len() ==> {
                        let bf = #[trigger] b@[i];
                        let af = ast@[i];
                        &&& bf.name@ == af.name@
                        &&& bf.location == (Location { line: af.line, column: af.column })
                        &&& bf.key < final(keys).keys@.len()
                        &&& final(keys).model()[bf.key as int] == (match af.alias {
                            Some(a) => a@,
                            None => af.name@,
                        })
                        &&& (match bf.field {
                            Some(f) => f < schema.objects@[type_id as int].fields@.len()
                                && schema.objects@[type_id as int].fields@[f as int].name@
                                == af.name@,
                            None => af.name@ == "__typename"@,
                        })
                        &&& (af.name@ == "__typename"@ ==> bf.field is None)
                    }
            },
            Err(e) => e.locations@.len() == 1,
        },
    decreases asize_fields(ast@),
{
    let ghost asts_m = ast_models(ast@);
    proof {
        lemma_ast_models(ast@);
        assert(asts_m.subrange(0, asts_m.len() as int) =~= asts_m);
    }
    let mut out: Vec<BoundField> = Vec::new();
    let n = ast.len();
    let mut i: usize = 0;
    while i < n
        invariant
            i <= n,
            n == ast@.len(),
            asts_m == ast_models(ast@),
            asts_m.len() == n,
            out@.len() == i,
            binds_ok(*schema, type_id as int, asts_m) == binds_ok(
                *schema,
                type_id as int,
                asts_m.subrange(i as int, n as int),
            ),
            bind_err_spec(*schema, type_id as int, asts_m) == bind_err_spec(
                *schema,
                type_id as int,
                asts_m.subrange(i as int, n as int),
            ),
            keys.keys@.len() >= old(keys).keys@.len(),
            keys.model().subrange(0, old(keys).keys@.len() as int) == old(keys).model(),
            forall|t: int|
                0 <= t < i ==> {
                    let bf = #[trigger] out@[t];
                    let af = ast@[t];
                    &&& bf.name@ == af.name@
                    &&& bf.location == (Location { line: af.line, column: af.column })
                    &&& bf.key < keys.keys@.len()
                    &&& keys.model()[bf.key as int] == (match af.alias {
                        Some(a) => a@,
                        None => af.name@,
                    })
                    &&& (match bf.field {
                        Some(f2) => f2 < schema.objects@[type_id as int].fields@.len()
                            && schema.objects@[type_id as int].fields@[f2 as int].name@
                            == af.name@,
                        None => af.name@ == "__typename"@,
                    })
                    &&& (af.name@ == "__typename"@ ==> bf.field is None)
                },
        decreases n - i,
    {
        let f = &ast[i];
        let ghost km_head = keys.model();
        let ghost f_m = asts_m[i as int];
        proof {
            lemma_ast_models(ast@);
            assert(f_m == ast_model(ast@[i as int]));
            lemma_binds_ok_suffix(*schema, type_id as int, asts_m, i as int);
            lemma_bind_err_suffix(*schema, type_id as int, asts_m, i as int);
            lemma_ast_models(f.selection@);
        }
        let loc = Location { line: f.line, column: f.column };
        let key_name = match &f.alias {
            Some(a) => crate::upstream::clone_string(a),
            None => crate::upstream::clone_string(&f.name),
        };
        proof {
            assert(key_name@ == (match ast@[i as int].alias {
                Some(a) => a@,
                None => ast@[i as int].name@,
            }));
        }
        let key = keys.intern(key_name.as_str());
        proof {
            assert(keys.model()[key as int] == key_name@);
            assert(keys.model().subrange(0, km_head.len() as int) =~= km_head);
        }
        if crate::shape::string_eq_str(&f.name, "__typename") {
            if f.selection.len() > 0 {
                proof {
                    assert(!binds_ok(*schema, type_id as int, asts_m));
                }
                return Err(
                    GraphqlError {
                        message: "Field '__typename' cannot have a selection set".to_owned(),
                        locations: one_location(loc),
                        path: None,
                        extensions: Vec::new(),
                    },
                );
            }
            out.push(
                BoundField {
                    key,
                    name: "__typename".to_owned(),
                    field: None,
                    location: loc,
                    selection: Vec::new(),
                },
            );
            proof {
                assert(binds_ok(*schema, type_id as int, asts_m.subrange(i as int, n as int))
                    == binds_ok(
                    *schema,
                    type_id as int,
                    asts_m.subrange(i as int + 1, n as int),
                ));
                assert(keys.model().subrange(0, old(keys).keys@.len() as int) =~= old(
                    keys,
                ).model());
            }
            i = i + 1;
            continue;
        }
        // Find the field on the type.
        let nf = schema.objects[type_id].fields.len();
        let mut fi: usize = 0;
        let mut found: Option<usize> = None;
        while fi < nf
            invariant
                fi <= nf,
                nf == schema.objects@[type_id as int].fields@.len(),
                match found {
                    Some(x) => x < nf && schema.objects@[type_id as int].fields@[
                        x as int
                    ].name@ == f.name@ && (forall|t: int|
                        0 <= t < x ==> (#[trigger] schema.objects@[type_id as int].fields@[
                            t
                        ]).name@ != f.name@),
                    None => forall|t: int|
                        0 <= t < fi ==> (#[trigger] schema.objects@[type_id as int].fields@[
                            t
                        ]).name@ != f.name@,
                },
            decreases nf - fi,
        {
            if found.is_none() && crate::shape::string_eq_str(
                &schema.objects[type_id].fields[fi].name,
                f.name.as_str(),
            ) {
                found = Some(fi);
            }
            fi = fi + 1;
        }
        let fidx = match found {
            Some(x) => {
                proof {
                    lemma_field_index_at(
                        schema.objects@[type_id as int].fields@,
                        f_m.name,
                        x as int,
                    );
                }
                x
            },
            None => {
                proof {
                    lemma_field_index_bounds(schema.objects@[type_id as int].fields@, f_m.name);
                    assert(!binds_ok(*schema, type_id as int, asts_m));
                }
                let mut message = String::new();
                message.append(schema.objects[type_id].name.as_str());
                message.append(" does not have a field named '");
                message.append(f.name.as_str());
                message.append("'");
                proof {
                    assert(message@ =~= schema.objects@[type_id as int].name@
                        + " does not have a field named '"@ + f_m.name + "'"@);
                }
                return Err(
                    GraphqlError {
                        message,
                        locations: one_location(loc),
                        path: None,
                        extensions: Vec::new(),
                    },
                );
            },
        };
        match schema.objects[type_id].fields[fidx].ty {
            FieldTypeDef::Scalar(_) => {
                if f.selection.len() > 0 {
                    proof {
                        assert(!binds_ok(*schema, type_id as int, asts_m));
                    }
                    return Err(
                        GraphqlError {
                            message: "This field cannot have a selection set".to_owned(),
                            locations: one_location(loc),
                            path: None,
                            extensions: Vec::new(),
                        },
                    );
                }
                out.push(
                    BoundField {
                        key,
                        name: crate::upstream::clone_string(&f.name),
                        field: Some(fidx),
                        location: loc,
                        selection: Vec::new(),
                    },
                );
                proof {
                    assert(binds_ok(*schema, type_id as int, asts_m.subrange(i as int, n as int))
                        == binds_ok(
                        *schema,
                        type_id as int,
                        asts_m.subrange(i as int + 1, n as int),
                    ));
                    assert(keys.model().subrange(0, old(keys).keys@.len() as int) =~= old(
                        keys,
                    ).model());
                }
            },
            FieldTypeDef::Object(t) => {
                if f.selection.len() == 0 {
                    proof {
                        assert(!binds_ok(*schema, type_id as int, asts_m));
                    }
                    return Err(
                        GraphqlError {
                            message: "This field must have a selection set".to_owned(),
                            locations: one_location(loc),
                            path: None,
                            extensions: Vec::new(),
                        },
                    );
                }
                proof {
                    lemma_asize_item(ast@, i as int);
                }
                let sub = match bind_selection(schema, keys, t, &f.selection) {
                    Ok(s) => s,
                    Err(e) => {
                        proof {
                            assert(!binds_ok(*schema, t as int, f_m.selection));
                            assert(!binds_ok(*schema, type_id as int, asts_m));
                        }
                        return Err(e);
                    },
                };
                out.push(
                    BoundField {
                        key,
                        name: crate::upstream::clone_string(&f.name),
                        field: Some(fidx),
                        location: loc,
                        selection: sub,
                    },
                );
                proof {
                    assert(binds_ok(*schema, t as int, f_m.selection));
                    assert(binds_ok(*schema, type_id as int, asts_m.subrange(i as int, n as int))
                        == binds_ok(
                        *schema,
                        type_id as int,
                        asts_m.subrange(i as int + 1, n as int),
                    ));
                    assert(keys.model().subrange(0, old(keys).keys@.len() as int) =~= old(
                        keys,
                    ).model());
                }
            },
        }
        i = i + 1;
    }
    proof {
        assert(asts_m.subrange(n as int, n as int) =~= Seq::<AstModel>::empty());
        assert(binds_ok(*schema, type_id as int, asts_m));
    }
    Ok(out)
}

fn one_location(loc: Location) -> (r: Vec<Location>)
    ensures
        r@.len() == 1,
        r@[0] == loc,
{
    let mut v: Vec<Location> = Vec::new();
    v.push(loc);
    v
}


// ---------------------------------------------------------------------------
// Planning.
// ---------------------------------------------------------------------------

/// One unit of upstream work.
pub struct Plan {
    /// `None`: served locally by the introspection executor.
    pub subgraph: Option<usize>,
    pub shapes: CollectedShapes,
    pub root_set: usize,
    /// The boundary whose objects this plan updates; `None` for root plans.
    pub input_boundary: Option<usize>,
    pub boundary_start: usize,
    pub boundary_count: usize,
    /// For entity plans: the type name injected as `__typename` of each
    /// representation, and the key fields read from the parent objects.
    pub entity_type_name: Option<String>,
    pub key_fields: Vec<(usize, String)>,
    pub query: String,
    /// For the introspection plan: the response keys that receive the root
    /// type's name.
    pub typename_fields: Vec<usize>,
}

/// The full plan of one operation: an ordered list of plans, parents before
/// the plans that consume their boundaries.
pub struct OperationPlan {
    pub plans: Vec<Plan>,
    pub n_boundaries: usize,
    pub keys: ResponseKeys,
    pub root_object: usize,
}

struct PendingChild {
    subgraph: usize,
    type_id: usize,
    local_boundary: usize,
    fields: Vec<BoundField>,
}

fn clone_wrapping(w: &Wrapping) -> (r: Wrapping)
    ensures
        crate::shape::wrap_model(r) == crate::shape::wrap_model(*w),
{
    let mut ln: Vec<bool> = Vec::new();
    let n = w.list_nullable.len();
    let mut i: usize = 0;
    while i < n
        invariant
            i <= n,
            n == w.list_nullable@.len(),
            ln@ =~= w.list_nullable@.subrange(0, i as int),
        decreases n - i,
    {
        ln.push(w.list_nullable[i]);
        i = i + 1;
    }
    proof {
        assert(w.list_nullable@.subrange(0, n as int) =~= w.list_nullable@);
    }
    Wrapping { list_nullable: ln, inner_nullable: w.inner_nullable }
}

fn push_str_chars(out: &mut Vec<char>, s: &str) {
    let n = s.unicode_len();
    let mut i: usize = 0;
    while i < n
        invariant
            i <= n,
            n == s@.len(),
        decreases n - i,
    {
        out.push(s.get_char(i));
        i = i + 1;
    }
}

/// Builds the collected selection set of `fields` on `type_id` for the plan
/// of `sub`, writing the subgraph query fragment, and collecting the field
/// groups that other subgraphs must serve through a boundary.
#[verifier::loop_isolation(false)]
fn build_set(
    schema: &FedSchema,
    keys: &mut ResponseKeys,
    shapes: &mut CollectedShapes,
    sub: usize,
    type_id: usize,
    fields: Vec<BoundField>,
    pending: &mut Vec<PendingChild>,
    qtext: &mut Vec<char>,
) -> (r: Result<usize, GraphqlError>)
    requires
        schema_wf(*schema),
        type_id < schema.objects@.len(),
    ensures
        match r {
            Ok(sid) => sid < final(shapes).sets@.len(),
            Err(_) => true,
        },
    decreases bsize_fields(fields@), 0int,
{
    let ghost fields0 = fields@;
    let mut fields = fields;
    let mut collected: Vec<CollectedField> = Vec::new();
    let mut groups: Vec<(usize, Vec<BoundField>)> = Vec::new();
    qtext.push('{');
    let mut first = true;
    while fields.len() > 0
        invariant
            schema_wf(*schema),
            type_id < schema.objects@.len(),
            bsize_fields(fields@) <= bsize_fields(fields0),
        decreases bsize_fields(fields@),
    {
        let ghost pre_fields = fields@;
        let f = fields.remove(0);
        proof {
            assert(pre_fields[0] == f);
            assert(pre_fields.drop_first() =~= fields@);
            lemma_bsize_item(pre_fields, 0);
        }
        let key_name = match keys.key_at(f.key) {
            Some(s) => s,
            None => {
                return Err(internal_plan_error());
            },
        };
        match f.field {
            None => {
                // `__typename` inside a subgraph plan is fetched upstream.
                if !first {
                    qtext.push(' ');
                }
                first = false;
                push_str_chars(qtext, key_name.as_str());
                if !crate::shape::string_eq_str(&f.name, key_name.as_str()) {
                    qtext.push(':');
                    push_str_chars(qtext, f.name.as_str());
                }
                collected.push(
                    CollectedField {
                        edge: crate::ResponseEdge::Key(f.key),
                        expected_key: key_name,
                        wrapping: Wrapping { list_nullable: Vec::new(), inner_nullable: false },
                        ty: FieldType::Scalar(DataType::Str),
                        location: Some(f.location),
                    },
                );
            },
            Some(fidx) => {
                if fidx >= schema.objects[type_id].fields.len() {
                    return Err(internal_plan_error());
                }
                let owner = schema.objects[type_id].fields[fidx].subgraph;
                if owner == sub {
                    if !first {
                        qtext.push(' ');
                    }
                    first = false;
                    push_str_chars(qtext, key_name.as_str());
                    if !crate::shape::string_eq_str(&f.name, key_name.as_str()) {
                        qtext.push(':');
                        push_str_chars(qtext, f.name.as_str());
                    }
                    match schema.objects[type_id].fields[fidx].ty {
                        FieldTypeDef::Scalar(k) => {
                            collected.push(
                                CollectedField {
                                    edge: crate::ResponseEdge::Key(f.key),
                                    expected_key: key_name,
                                    wrapping: clone_wrapping(
                                        &schema.objects[type_id].fields[fidx].wrapping,
                                    ),
                                    ty: FieldType::Scalar(k),
                                    location: Some(f.location),
                                },
                            );
                        },
                        FieldTypeDef::Object(t) => {
                            let sid = match build_set(
                                schema,
                                keys,
                                shapes,
                                sub,
                                t,
                                f.selection,
                                pending,
                                qtext,
                            ) {
                                Ok(s) => s,
                                Err(e) => {
                                    return Err(e);
                                },
                            };
                            collected.push(
                                CollectedField {
                                    edge: crate::ResponseEdge::Key(f.key),
                                    expected_key: key_name,
                                    wrapping: clone_wrapping(
                                        &schema.objects[type_id].fields[fidx].wrapping,
                                    ),
                                    ty: FieldType::Selection(sid),
                                    location: Some(f.location),
                                },
                            );
                        },
                    }
                } else {
                    // Another subgraph serves this field: group it for a
                    // boundary plan.
                    let mut gi: usize = 0;
                    let ng = groups.len();
                    let mut found = false;
                    while gi < ng
                        invariant
                            gi <= ng,
                            ng == groups@.len(),
                        decreases ng - gi,
                    {
                        if groups[gi].0 == owner {
                            found = true;
                            break;
                        }
                        gi = gi + 1;
                    }
                    if found && gi < groups.len() {
                        let mut g = groups.remove(gi);
                        g.1.push(f);
                        groups.insert(gi, g);
                    } else {
                        let mut v: Vec<BoundField> = Vec::new();
                        v.push(f);
                        groups.push((owner, v));
                    }
                }
            },
        }
    }
    // Key fields and boundaries for the groups other subgraphs serve.
    if groups.len() > 0 {
        if schema.objects[type_id].keys.len() == 0 {
            return Err(
                GraphqlError {
                    message: "Cannot cross a subgraph boundary on a type without keys".to_owned(),
                    locations: Vec::new(),
                    path: None,
                    extensions: Vec::new(),
                },
            );
        }
        let nk = schema.objects[type_id].keys.len();
        let mut ki: usize = 0;
        while ki < nk
            invariant
                ki <= nk,
                schema_wf(*schema),
                type_id < schema.objects@.len(),
                nk == schema.objects@[type_id as int].keys@.len(),
            decreases nk - ki,
        {
            let kf = schema.objects[type_id].keys[ki];
            let kname = &schema.objects[type_id].fields[kf].name;
            let mut alias_chars: Vec<char> = Vec::new();
            push_str_chars(&mut alias_chars, "_key_");
            push_str_chars(&mut alias_chars, kname.as_str());
            let alias = crate::json::chars_to_string(alias_chars);
            let kid = keys.intern(alias.as_str());
            match schema.objects[type_id].fields[kf].ty {
                FieldTypeDef::Scalar(k) => {
                    if !first {
                        qtext.push(' ');
                    }
                    first = false;
                    push_str_chars(qtext, alias.as_str());
                    qtext.push(':');
                    push_str_chars(qtext, kname.as_str());
                    collected.push(
                        CollectedField {
                            edge: crate::ResponseEdge::ExtraKey(kid),
                            expected_key: alias,
                            wrapping: clone_wrapping(
                                &schema.objects[type_id].fields[kf].wrapping,
                            ),
                            ty: FieldType::Scalar(k),
                            location: None,
                        },
                    );
                },
                FieldTypeDef::Object(_) => {
                    // A representation projects key values as scalars; a
                    // composite key would need a nested read set, which this
                    // planner does not build.
                    return Err(
                        GraphqlError {
                            message: "Object keys are not supported".to_owned(),
                            locations: Vec::new(),
                            path: None,
                            extensions: Vec::new(),
                        },
                    );
                },
            }
            ki = ki + 1;
        }
    }
    let mut boundary_ids: Vec<usize> = Vec::new();
    let mut groups = groups;
    while groups.len() > 0
        invariant
            true,
        decreases groups@.len(),
    {
        let g = groups.remove(0);
        let local = pending.len();
        boundary_ids.push(local);
        pending.push(
            PendingChild { subgraph: g.0, type_id, local_boundary: local, fields: g.1 },
        );
    }
    qtext.push('}');
    let sid = shapes.sets.len();
    shapes.sets.push(
        CollectedSelectionSet { fields: collected, boundary_ids, definition_id: type_id },
    );
    Ok(sid)
}

fn internal_plan_error() -> (r: GraphqlError) {
    GraphqlError {
        message: "Internal planning error".to_owned(),
        locations: Vec::new(),
        path: None,
        extensions: Vec::new(),
    }
}

impl ResponseKeys {
    /// The name of a key, by id.
    pub fn key_at(&self, id: usize) -> (r: Option<String>)
        ensures
            match r {
                Some(s) => id < self.keys@.len() && s@ == self.keys@[id as int]@,
                None => id >= self.keys@.len(),
            },
    {
        if id < self.keys.len() {
            Some(crate::upstream::clone_string(&self.keys[id]))
        } else {
            None
        }
    }
}

/// Builds the plan for one subgraph's portion of the operation, then plans
/// for the boundary children it spawns. The fuel bounds boundary nesting.
#[verifier::loop_isolation(false)]
fn plan_for_subgraph(
    schema: &FedSchema,
    keys: &mut ResponseKeys,
    sub: usize,
    type_id: usize,
    fields: Vec<BoundField>,
    input_boundary: Option<usize>,
    entity_type_name: Option<String>,
    key_fields: Vec<(usize, String)>,
    plans: &mut Vec<Plan>,
    n_boundaries: &mut usize,
    fuel: u64,
) -> (r: Result<(), GraphqlError>)
    requires
        schema_wf(*schema),
        type_id < schema.objects@.len(),
    ensures
        r is Ok ==> final(plans)@.len() > old(plans)@.len(),
    decreases fuel,
{
    if fuel == 0 {
        return Err(
            GraphqlError {
                message: "The operation nests subgraph boundaries too deeply".to_owned(),
                locations: Vec::new(),
                path: None,
                extensions: Vec::new(),
            },
        );
    }
    let mut shapes = CollectedShapes { sets: Vec::new() };
    let mut pending: Vec<PendingChild> = Vec::new();
    let mut qtext: Vec<char> = Vec::new();
    let is_entity = entity_type_name.is_some();
    if is_entity {
        push_str_chars(
            &mut qtext,
            "query($representations:[_Any!]!){_entities(representations:$representations){... on ",
        );
        match &entity_type_name {
            Some(tn) => push_str_chars(&mut qtext, tn.as_str()),
            None => {},
        }
    } else {
        push_str_chars(&mut qtext, "query");
    }
    let sid = match build_set(schema, keys, &mut shapes, sub, type_id, fields, &mut pending, &mut qtext) {
        Ok(s) => s,
        Err(e) => {
            return Err(e);
        },
    };
    if is_entity {
        push_str_chars(&mut qtext, "}}");
    }
    let my_start = *n_boundaries;
    if pending.len() > usize::MAX - my_start {
        return Err(internal_plan_error());
    }
    *n_boundaries = my_start + pending.len();
    let boundary_count = pending.len();
    plans.push(
        Plan {
            subgraph: Some(sub),
            shapes,
            root_set: sid,
            input_boundary,
            boundary_start: my_start,
            boundary_count,
            entity_type_name,
            key_fields,
            query: crate::json::chars_to_string(qtext),
            typename_fields: Vec::new(),
        },
    );
    // Children, in boundary order.
    let ghost plans_after_self = plans@.len();
    let mut pending = pending;
    while pending.len() > 0
        invariant
            schema_wf(*schema),
            plans@.len() >= plans_after_self,
            plans_after_self > old(plans)@.len(),
        decreases pending@.len(),
    {
        let c = pending.remove(0);
        if c.type_id >= schema.objects.len() {
            return Err(internal_plan_error());
        }
        let tn = crate::upstream::clone_string(&schema.objects[c.type_id].name);
        let mut kfs: Vec<(usize, String)> = Vec::new();
        let nk = schema.objects[c.type_id].keys.len();
        let mut ki: usize = 0;
        while ki < nk
            invariant
                ki <= nk,
                schema_wf(*schema),
                c.type_id < schema.objects@.len(),
                nk == schema.objects@[c.type_id as int].keys@.len(),
            decreases nk - ki,
        {
            let kf = schema.objects[c.type_id].keys[ki];
            let kname = crate::upstream::clone_string(&schema.objects[c.type_id].fields[kf].name);
            let mut alias_chars: Vec<char> = Vec::new();
            push_str_chars(&mut alias_chars, "_key_");
            push_str_chars(&mut alias_chars, kname.as_str());
            let alias = crate::json::chars_to_string(alias_chars);
            let kid = keys.intern(alias.as_str());
            kfs.push((kid, kname));
            ki = ki + 1;
        }
        let global = match my_start.checked_add(c.local_boundary) {
            Some(g) => g,
            None => {
                return Err(internal_plan_error());
            },
        };
        match plan_for_subgraph(
            schema,
            keys,
            c.subgraph,
            c.type_id,
            c.fields,
            Some(global),
            Some(tn),
            kfs,
            plans,
            n_boundaries,
            fuel - 1,
        ) {
            Ok(()) => {},
            Err(e) => {
                return Err(e);
            },
        }
    }
    Ok(())
}

/// Plans a bound operation: introspection fields go to a local plan, every
/// other root field to the plan of the subgraph that owns it, with entity
/// boundaries where a selection crosses subgraphs.
/// A selection made only of `__typename` fields.
pub open spec fn all_typename(bound: Seq<BoundField>) -> bool {
    forall|i: int| 0 <= i < bound.len() ==> (#[trigger] bound[i]).field is None
}

/// The same, over the parsed models.
pub open spec fn all_typename_ast(sel: Seq<AstModel>) -> bool {
    forall|i: int| 0 <= i < sel.len() ==> (#[trigger] sel[i]).name == "__typename"@
}

#[verifier::loop_isolation(false)]
pub fn plan_operation(schema: &FedSchema, keys: ResponseKeys, bound: Vec<BoundField>) -> (r:
    Result<OperationPlan, GraphqlError>)
    requires
        schema_wf(*schema),
    ensures
        all_typename(bound@) ==> r is Ok,
        match r {
            Ok(op) => op.root_object == schema.root && (bound@.len() > 0 ==> op.plans@.len()
                > 0) && ((all_typename(bound@) && bound@.len() > 0) ==> ({
                &&& op.plans@.len() == 1
                &&& op.plans@[0].subgraph is None
                &&& op.plans@[0].typename_fields@ == bound@.map_values(|b: BoundField| b.key)
                &&& op.plans@[0].boundary_start == 0
                &&& op.plans@[0].boundary_count == 0
                &&& op.n_boundaries == 0
                &&& op.keys == keys
            })),
            Err(_) => true,
        },
{
    let mut keys = keys;
    let mut plans: Vec<Plan> = Vec::new();
    let mut n_boundaries: usize = 0;
    let mut intro_keys: Vec<usize> = Vec::new();
    let mut groups: Vec<(usize, Vec<BoundField>)> = Vec::new();
    let ghost bound0 = bound@.len();
    let ghost bound_full = bound@;
    let mut bound = bound;
    let root = schema.root;
    while bound.len() > 0
        invariant
            schema_wf(*schema),
            root == schema.root,
            bound@.len() < bound0 + 1,
            bound@.len() < bound0 ==> intro_keys@.len() + groups@.len() > 0,
            bound@ =~= bound_full.subrange(
                bound0 - bound@.len(),
                bound0 as int,
            ),
            all_typename(bound_full) ==> groups@.len() == 0 && intro_keys@ =~= bound_full.subrange(
                0,
                bound0 - bound@.len(),
            ).map_values(|b: BoundField| b.key),
        decreases bound@.len(),
    {
        let ghost pre_bound = bound@;
        let f = bound.remove(0);
        proof {
            assert(pre_bound[0] == bound_full[bound0 - pre_bound.len()]);
            assert(pre_bound.drop_first() =~= bound@);
        }
        match f.field {
            None => {
                intro_keys.push(f.key);
                proof {
                    if all_typename(bound_full) {
                        let k = bound0 - pre_bound.len();
                        assert forall|t: int| 0 <= t < k + 1 implies intro_keys@[t]
                            == bound_full.subrange(0, k + 1).map_values(
                            |b: BoundField| b.key,
                        )[t] by {
                            assert(bound_full.subrange(0, k + 1)[t] == bound_full[t]);
                            if t < k {
                                assert(bound_full.subrange(0, k)[t] == bound_full[t]);
                            }
                        }
                        assert(intro_keys@ =~= bound_full.subrange(0, k + 1).map_values(
                            |b: BoundField| b.key,
                        ));
                    }
                }
            },
            Some(fidx) => {
                proof {
                    assert(!all_typename(bound_full));
                }
                if fidx >= schema.objects[root].fields.len() {
                    return Err(internal_plan_error());
                }
                let owner = schema.objects[root].fields[fidx].subgraph;
                let mut gi: usize = 0;
                let ng = groups.len();
                let mut found = false;
                while gi < ng
                    invariant
                        gi <= ng,
                        ng == groups@.len(),
                    decreases ng - gi,
                {
                    if groups[gi].0 == owner {
                        found = true;
                        break;
                    }
                    gi = gi + 1;
                }
                if found && gi < groups.len() {
                    let mut g = groups.remove(gi);
                    g.1.push(f);
                    groups.insert(gi, g);
                } else {
                    let mut v: Vec<BoundField> = Vec::new();
                    v.push(f);
                    groups.push((owner, v));
                }
            },
        }
    }
    if intro_keys.len() > 0 {
        plans.push(
            Plan {
                subgraph: None,
                shapes: CollectedShapes { sets: Vec::new() },
                root_set: 0,
                input_boundary: None,
                boundary_start: 0,
                boundary_count: 0,
                entity_type_name: None,
                key_fields: Vec::new(),
                query: String::new(),
                typename_fields: intro_keys,
            },
        );
    }
    let ghost plans_base = plans@.len();
    let ghost plans_entry = plans@;
    let ghost keys_entry = keys;
    let ghost g0 = groups@.len();
    let mut groups = groups;
    while groups.len() > 0
        invariant
            schema_wf(*schema),
            groups@.len() <= g0,
            groups@.len() < g0 ==> plans@.len() > plans_base,
            plans@.len() >= plans_base,
            g0 == 0 ==> plans@ == plans_entry && keys == keys_entry && n_boundaries == 0,
        decreases groups@.len(),
    {
        let g = groups.remove(0);
        match plan_for_subgraph(
            schema,
            &mut keys,
            g.0,
            schema.root,
            g.1,
            None,
            None,
            Vec::new(),
            &mut plans,
            &mut n_boundaries,
            16,
        ) {
            Ok(()) => {},
            Err(e) => {
                return Err(e);
            },
        }
    }
    proof {
        if all_typename(bound_full) && bound0 > 0 {
            assert(bound_full.subrange(0, bound0 as int) =~= bound_full);
            assert(plans@.len() == 1);
            assert(plans@[0].subgraph is None);
            assert(plans@[0].typename_fields@ =~= bound_full.map_values(
                |b: BoundField| b.key,
            ));
            assert(n_boundaries == 0);
        }
    }
    Ok(OperationPlan { plans, n_boundaries, keys, root_object: schema.root })
}

/// A selection binds exactly when no rejection arises.
pub proof fn lemma_binds_iff_no_err(schema: FedSchema, type_id: int, asts: Seq<AstModel>)
    ensures
        binds_ok(schema, type_id, asts) <==> (bind_err_spec(schema, type_id, asts) is None),
    decreases bmsize(asts), 0int,
{
    if asts.len() > 0 {
        let f = asts[0];
        if f.name == "__typename"@ {
        } else {
            match field_index(schema.objects@[type_id].fields@, f.name) {
                None => {},
                Some(fi) => match schema.objects@[type_id].fields@[fi].ty {
                    FieldTypeDef::Scalar(_) => {},
                    FieldTypeDef::Object(t) => {
                        if f.selection.len() > 0 {
                            assert(bmsize(asts) == 1 + bmsize_one(asts[0]) + bmsize(
                                asts.drop_first(),
                            ));
                            assert(bmsize_one(asts[0]) == 1 + bmsize(asts[0].selection));
                            lemma_binds_iff_no_err(schema, t as int, f.selection);
                        }
                    },
                },
            }
        }
        assert(bmsize(asts.drop_first()) < bmsize(asts)) by {
            assert(bmsize(asts) == 1 + bmsize_one(asts[0]) + bmsize(asts.drop_first()));
        }
        lemma_binds_iff_no_err(schema, type_id, asts.drop_first());
    }
}

/// Checks a schema's structural soundness executably, so an unverified
/// caller can validate its configuration before handing it to the engine.
#[verifier::loop_isolation(false)]
pub fn check_schema_wf(s: &FedSchema) -> (r: bool)
    ensures
        r == schema_wf(*s),
{
    if s.root >= s.objects.len() {
        return false;
    }
    let nt = s.objects.len();
    let mut t: usize = 0;
    while t < nt
        invariant
            t <= nt,
            nt == s.objects@.len(),
            s.root < s.objects@.len(),
            forall|t2: int, f2: int|
                0 <= t2 < t && 0 <= f2 < s.objects@[t2].fields@.len() ==> ((match (
                #[trigger] s.objects@[t2].fields@[f2]).ty {
                    FieldTypeDef::Object(u) => u < s.objects@.len(),
                    FieldTypeDef::Scalar(_) => true,
                }) && s.objects@[t2].fields@[f2].subgraph < s.subgraphs@.len()),
            forall|t2: int, k2: int|
                0 <= t2 < t && 0 <= k2 < s.objects@[t2].keys@.len() ==> (
                #[trigger] s.objects@[t2].keys@[k2]) < s.objects@[t2].fields@.len(),
        decreases nt - t,
    {
        let nf = s.objects[t].fields.len();
        let mut f: usize = 0;
        while f < nf
            invariant
                f <= nf,
                t < nt,
                nf == s.objects@[t as int].fields@.len(),
                forall|f2: int|
                    0 <= f2 < f ==> ((match (#[trigger] s.objects@[t as int].fields@[f2]).ty {
                        FieldTypeDef::Object(u) => u < s.objects@.len(),
                        FieldTypeDef::Scalar(_) => true,
                    }) && s.objects@[t as int].fields@[f2].subgraph < s.subgraphs@.len()),
            decreases nf - f,
        {
            if s.objects[t].fields[f].subgraph >= s.subgraphs.len() {
                return false;
            }
            match s.objects[t].fields[f].ty {
                FieldTypeDef::Object(u) => {
                    if u >= s.objects.len() {
                        return false;
                    }
                },
                FieldTypeDef::Scalar(_) => {},
            }
            f = f + 1;
        }
        let nk = s.objects[t].keys.len();
        let mut k: usize = 0;
        while k < nk
            invariant
                k <= nk,
                t < nt,
                nk == s.objects@[t as int].keys@.len(),
                forall|k2: int|
                    0 <= k2 < k ==> (#[trigger] s.objects@[t as int].keys@[k2]) < s.objects@[
                        t as int
                    ].fields@.len(),
            decreases nk - k,
        {
            if s.objects[t].keys[k] >= s.objects[t].fields.len() {
                return false;
            }
            k = k + 1;
        }
        t = t + 1;
    }
    true
}

} // verus!
