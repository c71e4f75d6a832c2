//! Serialization of JSON documents and of the final response to canonical
//! JSON text: no insignificant whitespace, object members in stored order,
//! numbers as their stored text.

use vstd::prelude::*;
use crate::json::{chars_to_string, view_arr, view_obj, JsonValue, Jx};
use crate::error::{GraphqlError, Location};
use crate::shape::ResponseKeys;
use crate::write::{part_model, PartModel, ResponseDataPart, ResponseObjectId, ResponseValue};
use crate::ResponseEdge;

verus! {

/// One escaped character of a JSON string: quote and backslash get a
/// backslash, control characters become `\u00XX`, everything else stands for
/// itself.
pub open spec fn esc_char(c: char) -> Seq<char> {
    if c == '"' {
        seq!['\\', '"']
    } else if c == '\\' {
        seq!['\\', '\\']
    } else if c == '\n' {
        seq!['\\', 'n']
    } else if c == '\r' {
        seq!['\\', 'r']
    } else if c == '\t' {
        seq!['\\', 't']
    } else if (c as int) < 32 {
        seq!['\\', 'u', '0', '0', hex_digit((c as int) / 16), hex_digit((c as int) % 16)]
    } else {
        seq![c]
    }
}

pub open spec fn hex_digit(n: int) -> char {
    if n == 0 { '0' } else if n == 1 { '1' } else if n == 2 { '2' } else if n == 3 { '3' }
    else if n == 4 { '4' } else if n == 5 { '5' } else if n == 6 { '6' } else if n == 7 { '7' }
    else if n == 8 { '8' } else if n == 9 { '9' } else if n == 10 { 'a' } else if n == 11 { 'b' }
    else if n == 12 { 'c' } else if n == 13 { 'd' } else if n == 14 { 'e' } else { 'f' }
}

pub open spec fn esc(s: Seq<char>) -> Seq<char>
    decreases s.len(),
{
    if s.len() == 0 {
        Seq::empty()
    } else {
        esc(s.drop_last()) + esc_char(s.last())
    }
}

/// Canonical JSON text of a document.
pub open spec fn jser(j: Jx) -> Seq<char>
    decreases j,
{
    match j {
        Jx::Null => "null"@,
        Jx::Bool(b) => if b {
            "true"@
        } else {
            "false"@
        },
        Jx::Num(t) => t,
        Jx::Str(s) => seq!['"'] + esc(s) + seq!['"'],
        Jx::Arr(items) => seq!['['] + jser_items(items) + seq![']'],
        Jx::Obj(members) => seq!['{'] + jser_members(members) + seq!['}'],
    }
}

pub open spec fn jser_items(items: Seq<Jx>) -> Seq<char>
    decreases items,
{
    if items.len() == 0 {
        Seq::empty()
    } else if items.len() == 1 {
        jser(items[0])
    } else {
        jser_items(items.drop_last()) + seq![','] + jser(items.last())
    }
}

pub open spec fn jser_members(members: Seq<(Seq<char>, Jx)>) -> Seq<char>
    decreases members,
{
    if members.len() == 0 {
        Seq::empty()
    } else if members.len() == 1 {
        jser_member(members[0])
    } else {
        jser_members(members.drop_last()) + seq![','] + jser_member(members.last())
    }
}

pub open spec fn jser_member(m: (Seq<char>, Jx)) -> Seq<char>
    decreases m,
{
    seq!['"'] + esc(m.0) + seq!['"', ':'] + jser(m.1)
}

fn push_hex(out: &mut Vec<char>, n: u32)
    requires
        n < 16,
    ensures
        final(out)@ == old(out)@.push(hex_digit(n as int)),
{
    let c = if n == 0 { '0' } else if n == 1 { '1' } else if n == 2 { '2' } else if n == 3 { '3' }
    else if n == 4 { '4' } else if n == 5 { '5' } else if n == 6 { '6' } else if n == 7 { '7' }
    else if n == 8 { '8' } else if n == 9 { '9' } else if n == 10 { 'a' } else if n == 11 { 'b' }
    else if n == 12 { 'c' } else if n == 13 { 'd' } else if n == 14 { 'e' } else { 'f' };
    out.push(c);
}

/// Writes a string body, escaped, without the surrounding quotes.
fn write_escaped(s: &str, out: &mut Vec<char>)
    ensures
        final(out)@ == old(out)@ + esc(s@),
{
    let n = s.unicode_len();
    let mut i: usize = 0;
    while i < n
        invariant
            i <= n,
            n == s@.len(),
            out@ == old(out)@ + esc(s@.subrange(0, i as int)),
        decreases n - i,
    {
        let c = s.get_char(i);
        proof {
            assert(s@.subrange(0, i as int + 1).drop_last() =~= s@.subrange(0, i as int));
            assert(s@.subrange(0, i as int + 1).last() == c);
        }
        if c == '"' {
            out.push('\\');
            out.push('"');
        } else if c == '\\' {
            out.push('\\');
            out.push('\\');
        } else if c == '\n' {
            out.push('\\');
            out.push('n');
        } else if c == '\r' {
            out.push('\\');
            out.push('r');
        } else if c == '\t' {
            out.push('\\');
            out.push('t');
        } else if (c as u32) < 32 {
            out.push('\\');
            out.push('u');
            out.push('0');
            out.push('0');
            push_hex(out, (c as u32) / 16);
            push_hex(out, (c as u32) % 16);
        } else {
            out.push(c);
        }
        proof {
            assert(out@ =~= old(out)@ + esc(s@.subrange(0, i as int + 1)));
        }
        i = i + 1;
    }
    proof {
        assert(s@.subrange(0, n as int) =~= s@);
    }
}

/// Writes the canonical JSON text of a document.
#[verifier::loop_isolation(false)]
#[verifier::rlimit(60)]
pub fn write_json(j: &JsonValue, out: &mut Vec<char>)
    ensures
        final(out)@ == old(out)@ + jser(j@),
    decreases *j,
{
    match j {
        JsonValue::Null => {
            out.push('n');
            out.push('u');
            out.push('l');
            out.push('l');
            proof {
                reveal_strlit("null");
                assert(out@ =~= old(out)@ + "null"@);
            }
        },
        JsonValue::Bool(b) => {
            if *b {
                out.push('t');
                out.push('r');
                out.push('u');
                out.push('e');
                proof {
                    reveal_strlit("true");
                    assert(out@ =~= old(out)@ + "true"@);
                }
            } else {
                out.push('f');
                out.push('a');
                out.push('l');
                out.push('s');
                out.push('e');
                proof {
                    reveal_strlit("false");
                    assert(out@ =~= old(out)@ + "false"@);
                }
            }
        },
        JsonValue::Num(t) => {
            write_str_chars(t.as_str(), out);
        },
        JsonValue::Str(sv) => {
            out.push('"');
            write_escaped(sv.as_str(), out);
            out.push('"');
            proof {
                assert(out@ =~= old(out)@ + (seq!['"'] + esc(sv@) + seq!['"']));
            }
        },
        JsonValue::Arr(items) => {
            out.push('[');
            let n = items.len();
            let mut i: usize = 0;
            proof {
                crate::json::lemma_view_arr(items@);
            }
            while i < n
                invariant
                    i <= n,
                    n == items@.len(),
                    out@ == old(out)@ + seq!['['] + jser_items(view_arr(items@.subrange(0, i as int))),
                decreases n - i,
            {
                if i > 0 {
                    out.push(',');
                }
                write_json(&items[i], out);
                proof {
                    crate::json::lemma_view_arr(items@.subrange(0, i as int));
                    crate::json::lemma_view_arr(items@.subrange(0, i as int + 1));
                    let va1 = view_arr(items@.subrange(0, i as int + 1));
                    assert(va1.drop_last() =~= view_arr(items@.subrange(0, i as int)));
                    assert(va1.last() == items@[i as int]@);
                    assert(out@ =~= old(out)@ + seq!['['] + jser_items(va1));
                }
                i = i + 1;
            }
            out.push(']');
            proof {
                assert(items@.subrange(0, n as int) =~= items@);
                assert(out@ =~= old(out)@ + jser(j@));
            }
        },
        JsonValue::Obj(members) => {
            out.push('{');
            let n = members.len();
            let mut i: usize = 0;
            proof {
                crate::json::lemma_view_obj(members@);
            }
            while i < n
                invariant
                    i <= n,
                    n == members@.len(),
                    out@ == old(out)@ + seq!['{'] + jser_members(
                        view_obj(members@.subrange(0, i as int)),
                    ),
                decreases n - i,
            {
                if i > 0 {
                    out.push(',');
                }
                out.push('"');
                write_escaped(members[i].0.as_str(), out);
                out.push('"');
                out.push(':');
                write_json(&members[i].1, out);
                proof {
                    crate::json::lemma_view_obj(members@.subrange(0, i as int));
                    crate::json::lemma_view_obj(members@.subrange(0, i as int + 1));
                    let vo1 = view_obj(members@.subrange(0, i as int + 1));
                    assert(vo1.drop_last() =~= view_obj(members@.subrange(0, i as int)));
                    assert(vo1.last() == (members@[i as int].0@, members@[i as int].1@));
                    assert(jser_member(vo1.last()) =~= seq!['"'] + esc(members@[i as int].0@)
                        + seq!['"', ':'] + jser(members@[i as int].1@));
                    if i == 0 {
                        assert(jser_members(vo1) == jser_member(vo1[0]));
                        assert(vo1[0] == vo1.last());
                        assert(jser_members(view_obj(members@.subrange(0, 0)))
                            =~= Seq::<char>::empty());
                    } else {
                        assert(jser_members(vo1) == jser_members(vo1.drop_last()) + seq![',']
                            + jser_member(vo1.last()));
                    }
                    assert(out@ =~= old(out)@ + seq!['{'] + jser_members(vo1));
                }
                i = i + 1;
            }
            out.push('}');
            proof {
                assert(members@.subrange(0, n as int) =~= members@);
                assert(out@ =~= old(out)@ + jser(j@));
            }
        },
    }
}

/// Appends the characters of a string slice.
fn write_str_chars(s: &str, out: &mut Vec<char>)
    ensures
        final(out)@ == old(out)@ + s@,
{
    let n = s.unicode_len();
    let mut i: usize = 0;
    while i < n
        invariant
            i <= n,
            n == s@.len(),
            out@ == old(out)@ + s@.subrange(0, i as int),
        decreases n - i,
    {
        out.push(s.get_char(i));
        proof {
            assert(out@ =~= old(out)@ + s@.subrange(0, i as int + 1));
        }
        i = i + 1;
    }
    proof {
        assert(s@.subrange(0, n as int) =~= s@);
    }
}

/// The canonical JSON text of a document, as a string.
pub fn to_json_string(j: &JsonValue) -> (r: String)
    ensures
        r@ == jser(j@),
{
    let mut out: Vec<char> = Vec::new();
    write_json(j, &mut out);
    proof {
        assert(Seq::<char>::empty() + jser(j@) =~= jser(j@));
    }
    chars_to_string(out)
}


// ---------------------------------------------------------------------------
// Number texts.
// ---------------------------------------------------------------------------

pub open spec fn nat_text(n: nat) -> Seq<char>
    decreases n,
{
    if n < 10 {
        seq![hex_digit(n as int)]
    } else {
        nat_text(n / 10).push(hex_digit((n % 10) as int))
    }
}

pub open spec fn int_text(v: int) -> Seq<char> {
    if v < 0 {
        seq!['-'] + nat_text((-v) as nat)
    } else {
        nat_text(v as nat)
    }
}

fn push_u64_text(n: u64, out: &mut Vec<char>)
    ensures
        final(out)@ == old(out)@ + nat_text(n as nat),
    decreases n,
{
    if n < 10 {
        push_hex(out, (n % 16) as u32);
        proof {
            assert(out@ =~= old(out)@ + nat_text(n as nat));
        }
    } else {
        push_u64_text(n / 10, out);
        push_hex(out, (n % 10) as u32);
        proof {
            assert(out@ =~= old(out)@ + nat_text(n as nat));
        }
    }
}

/// Decimal text of a 64-bit integer.
pub fn i64_text_string(v: i64) -> (r: Vec<char>)
    ensures
        r@ == int_text(v as int),
{
    let mut out: Vec<char> = Vec::new();
    if v < 0 {
        out.push('-');
        let m: u64 = if v == i64::MIN {
            9223372036854775808u64
        } else {
            (-v) as u64
        };
        proof {
            assert(m as int == -(v as int));
        }
        push_u64_text(m, &mut out);
        proof {
            assert(out@ =~= seq!['-'] + nat_text(m as nat));
        }
    } else {
        push_u64_text(v as u64, &mut out);
        proof {
            assert(Seq::<char>::empty() + nat_text((v as u64) as nat) =~= nat_text(
                (v as u64) as nat,
            ));
        }
    }
    out
}

// ---------------------------------------------------------------------------
// The response tree as a JSON document.
// ---------------------------------------------------------------------------

/// The JSON document denoted by one response value, reading containers from
/// the sealed parts. The fuel bounds the depth; it is chosen larger than the
/// arena, which acyclic writes can never exhaust.
pub open spec fn value_jx(
    parts: Seq<PartModel>,
    keys: Seq<Seq<char>>,
    v: ResponseValue,
    fuel: nat,
) -> Jx
    decreases fuel, 0int,
{
    match v {
        ResponseValue::Null => Jx::Null,
        ResponseValue::Bool(b) => Jx::Bool(b),
        ResponseValue::Int(i) => Jx::Num(int_text(i as int)),
        ResponseValue::BigInt(i) => Jx::Num(int_text(i as int)),
        ResponseValue::Float(t) => Jx::Num(t@),
        ResponseValue::Str(s) => Jx::Str(s@),
        ResponseValue::Json(j) => j@,
        ResponseValue::Object { obj, .. } => {
            if fuel > 0 && obj.part_id < parts.len() && obj.index < parts[
                obj.part_id as int
            ].objects.len() {
                Jx::Obj(
                    fields_jx(
                        parts,
                        keys,
                        parts[obj.part_id as int].objects[obj.index as int],
                        (fuel - 1) as nat,
                    ),
                )
            } else {
                Jx::Null
            }
        },
        ResponseValue::List { list, .. } => {
            if fuel > 0 && list.part_id < parts.len() && list.offset + list.length <= parts[
                list.part_id as int
            ].lists.len() {
                Jx::Arr(
                    items_jx(
                        parts,
                        keys,
                        parts[list.part_id as int].lists.subrange(
                            list.offset as int,
                            list.offset + list.length,
                        ),
                        (fuel - 1) as nat,
                    ),
                )
            } else {
                Jx::Null
            }
        },
    }
}

/// Only bound response keys are rendered; synthesized extra fields and
/// out-of-table keys are dropped.
pub open spec fn fields_jx(
    parts: Seq<PartModel>,
    keys: Seq<Seq<char>>,
    fields: Seq<(ResponseEdge, ResponseValue)>,
    fuel: nat,
) -> Seq<(Seq<char>, Jx)>
    decreases fuel, 1 + fields.len(),
{
    if fields.len() == 0 {
        Seq::empty()
    } else {
        let rest = fields_jx(parts, keys, fields.drop_first(), fuel);
        match fields[0].0 {
            ResponseEdge::Key(k) => if k < keys.len() {
                seq![(keys[k as int], value_jx(parts, keys, fields[0].1, fuel))] + rest
            } else {
                rest
            },
            _ => rest,
        }
    }
}

pub open spec fn items_jx(
    parts: Seq<PartModel>,
    keys: Seq<Seq<char>>,
    items: Seq<ResponseValue>,
    fuel: nat,
) -> Seq<Jx>
    decreases fuel, 1 + items.len(),
{
    if items.len() == 0 {
        Seq::empty()
    } else {
        seq![value_jx(parts, keys, items[0], fuel)] + items_jx(
            parts,
            keys,
            items.drop_first(),
            fuel,
        )
    }
}

pub open spec fn parts_model_of(parts: Seq<ResponseDataPart>) -> Seq<PartModel> {
    parts.map_values(|p: ResponseDataPart| part_model(p))
}

/// Deep copy of a JSON document.
#[verifier::loop_isolation(false)]
pub fn clone_json(j: &JsonValue) -> (r: JsonValue)
    ensures
        r@ == j@,
    decreases crate::dser::jsize(*j),
{
    match j {
        JsonValue::Null => JsonValue::Null,
        JsonValue::Bool(b) => JsonValue::Bool(*b),
        JsonValue::Num(t) => JsonValue::Num(crate::upstream::clone_string(t)),
        JsonValue::Str(s) => JsonValue::Str(crate::upstream::clone_string(s)),
        JsonValue::Arr(items) => {
            let mut out: Vec<JsonValue> = Vec::new();
            let n = items.len();
            let mut i: usize = 0;
            while i < n
                invariant
                    i <= n,
                    n == items@.len(),
                    view_arr(out@) =~= view_arr(items@).subrange(0, i as int),
                    out@.len() == i,
                decreases n - i,
            {
                proof {
                    crate::dser::lemma_item_size(items@, i as int);
                }
                let c = clone_json(&items[i]);
                let ghost pre_out = out@;
                out.push(c);
                proof {
                    crate::json::lemma_view_arr(out@);
                    crate::json::lemma_view_arr(pre_out);
                    crate::json::lemma_view_arr(items@);
                    assert(view_arr(out@) =~= view_arr(items@).subrange(0, i as int + 1));
                }
                i = i + 1;
            }
            proof {
                assert(view_arr(items@).subrange(0, n as int) =~= view_arr(items@)) by {
                    crate::json::lemma_view_arr(items@);
                }
            }
            JsonValue::Arr(out)
        },
        JsonValue::Obj(members) => {
            let mut out: Vec<(String, JsonValue)> = Vec::new();
            let n = members.len();
            let mut i: usize = 0;
            while i < n
                invariant
                    i <= n,
                    n == members@.len(),
                    view_obj(out@) =~= view_obj(members@).subrange(0, i as int),
                    out@.len() == i,
                decreases n - i,
            {
                proof {
                    crate::dser::lemma_member_size(members@, i as int);
                }
                let k = crate::upstream::clone_string(&members[i].0);
                let c = clone_json(&members[i].1);
                let ghost pre_out = out@;
                out.push((k, c));
                proof {
                    crate::json::lemma_view_obj(out@);
                    crate::json::lemma_view_obj(pre_out);
                    crate::json::lemma_view_obj(members@);
                    assert(view_obj(out@) =~= view_obj(members@).subrange(0, i as int + 1));
                }
                i = i + 1;
            }
            proof {
                assert(view_obj(members@).subrange(0, n as int) =~= view_obj(members@)) by {
                    crate::json::lemma_view_obj(members@);
                }
            }
            JsonValue::Obj(out)
        },
    }
}

/// Renders one response value as a JSON document, reading the sealed parts.
#[verifier::loop_isolation(false)]
pub fn value_to_json(
    parts: &Vec<ResponseDataPart>,
    keys: &ResponseKeys,
    v: &ResponseValue,
    fuel: u64,
) -> (r: JsonValue)
    ensures
        r@ == value_jx(parts_model_of(parts@), keys.model(), *v, fuel as nat),
    decreases fuel, 0int,
{
    let ghost pm = parts_model_of(parts@);
    match v {
        ResponseValue::Null => JsonValue::Null,
        ResponseValue::Bool(b) => JsonValue::Bool(*b),
        ResponseValue::Int(i) => JsonValue::Num(chars_to_string(i64_text_string(*i))),
        ResponseValue::BigInt(i) => JsonValue::Num(chars_to_string(i64_text_string(*i))),
        ResponseValue::Float(t) => JsonValue::Num(crate::upstream::clone_string(t)),
        ResponseValue::Str(s) => JsonValue::Str(crate::upstream::clone_string(s)),
        ResponseValue::Json(j) => clone_json(j),
        ResponseValue::Object { obj, .. } => {
            if fuel > 0 && obj.part_id < parts.len() && obj.index < parts[obj.part_id].objects.len() {
                proof {
                    assert(pm[obj.part_id as int] == part_model(parts@[obj.part_id as int]));
                }
                let n = parts[obj.part_id].objects[obj.index].fields.len();
                let mut out: Vec<(String, JsonValue)> = Vec::new();
                let ghost fseq = pm[obj.part_id as int].objects[obj.index as int];
                let mut i: usize = 0;
                proof {
                    assert(fseq =~= parts@[obj.part_id as int].objects@[obj.index as int].fields@);
                }
                while i < n
                    invariant
                        i <= n,
                        n == fseq.len(),
                        obj.part_id < parts@.len(),
                        obj.index < parts@[obj.part_id as int].objects@.len(),
                        fseq == parts@[obj.part_id as int].objects@[obj.index as int].fields@,
                        view_obj(out@) =~= fields_jx_prefix(
                            pm,
                            keys.model(),
                            fseq,
                            i as int,
                            (fuel - 1) as nat,
                        ),
                    decreases n - i,
                {
                    match parts[obj.part_id].objects[obj.index].fields[i].0 {
                        ResponseEdge::Key(k) => {
                            if k < keys.keys.len() {
                                let key = crate::upstream::clone_string(&keys.keys[k]);
                                let val = value_to_json(
                                    parts,
                                    keys,
                                    &parts[obj.part_id].objects[obj.index].fields[i].1,
                                    fuel - 1,
                                );
                                let ghost pre_out = out@;
                                out.push((key, val));
                                proof {
                                    crate::json::lemma_view_obj(out@);
                                    crate::json::lemma_view_obj(pre_out);
                                    assert(keys.model()[k as int] == keys.keys@[k as int]@);
                                    assert(view_obj(out@) =~= view_obj(pre_out).push(
                                        (key@, val@),
                                    ));
                                }
                            }
                        },
                        _ => {},
                    }
                    i = i + 1;
                }
                proof {
                    lemma_fields_jx_prefix_full(pm, keys.model(), fseq, (fuel - 1) as nat);
                }
                JsonValue::Obj(out)
            } else {
                JsonValue::Null
            }
        },
        ResponseValue::List { list, .. } => {
            if fuel > 0 && list.part_id < parts.len() && list.length
                <= parts[list.part_id].lists.len() && list.offset
                <= parts[list.part_id].lists.len() - list.length {
                proof {
                    assert(pm[list.part_id as int] == part_model(parts@[list.part_id as int]));
                }
                let n = list.length;
                let off = list.offset;
                let mut out: Vec<JsonValue> = Vec::new();
                let ghost iseq = pm[list.part_id as int].lists.subrange(
                    off as int,
                    off + list.length,
                );
                let mut i: usize = 0;
                while i < n
                    invariant
                        i <= n,
                        n == iseq.len(),
                        n == list.length,
                        off == list.offset,
                        view_arr(out@) =~= items_jx_prefix(
                            pm,
                            keys.model(),
                            iseq,
                            i as int,
                            (fuel - 1) as nat,
                        ),
                        out@.len() == i,
                    decreases n - i,
                {
                    proof {
                        assert(iseq[i as int] == pm[list.part_id as int].lists[off + i]);
                        assert(parts@[list.part_id as int].lists@[off + i] == pm[
                            list.part_id as int
                        ].lists[off + i]);
                    }
                    let val = value_to_json(parts, keys, &parts[list.part_id].lists[off + i], fuel - 1);
                    let ghost pre_out = out@;
                    out.push(val);
                    proof {
                        crate::json::lemma_view_arr(out@);
                        crate::json::lemma_view_arr(pre_out);
                        assert(view_arr(out@) =~= view_arr(pre_out).push(val@));
                    }
                    i = i + 1;
                }
                proof {
                    lemma_items_jx_prefix_full(pm, keys.model(), iseq, (fuel - 1) as nat);
                }
                JsonValue::Arr(out)
            } else {
                JsonValue::Null
            }
        },
    }
}

/// The rendered members of the first fields, up to a position.
pub open spec fn items_jx_prefix(
    parts: Seq<PartModel>,
    keys: Seq<Seq<char>>,
    items: Seq<ResponseValue>,
    i: int,
    fuel: nat,
) -> Seq<Jx>
    decreases i,
{
    if i <= 0 {
        Seq::empty()
    } else {
        items_jx_prefix(parts, keys, items, i - 1, fuel).push(
            value_jx(parts, keys, items[i - 1], fuel),
        )
    }
}

pub proof fn lemma_items_jx_prefix_full(
    parts: Seq<PartModel>,
    keys: Seq<Seq<char>>,
    items: Seq<ResponseValue>,
    fuel: nat,
)
    ensures
        items_jx_prefix(parts, keys, items, items.len() as int, fuel) =~~= items_jx(
            parts,
            keys,
            items,
            fuel,
        ),
    decreases items.len(),
{
    if items.len() > 0 {
        lemma_items_jx_prefix_full(parts, keys, items.drop_first(), fuel);
        lemma_items_prefix_shift(parts, keys, items, items.len() as int, fuel);
    }
}

pub proof fn lemma_items_prefix_shift(
    parts: Seq<PartModel>,
    keys: Seq<Seq<char>>,
    items: Seq<ResponseValue>,
    i: int,
    fuel: nat,
)
    requires
        0 < i <= items.len(),
        items.len() > 0,
    ensures
        items_jx_prefix(parts, keys, items, i, fuel) =~~= seq![
            value_jx(parts, keys, items[0], fuel),
        ] + items_jx_prefix(parts, keys, items.drop_first(), i - 1, fuel),
    decreases i,
{
    if i > 1 {
        lemma_items_prefix_shift(parts, keys, items, i - 1, fuel);
        assert(items.drop_first()[i - 2] == items[i - 1]);
        let v0 = value_jx(parts, keys, items[0], fuel);
        let x = value_jx(parts, keys, items[i - 1], fuel);
        assert((seq![v0] + items_jx_prefix(parts, keys, items.drop_first(), i - 2, fuel)).push(x)
            =~~= seq![v0] + items_jx_prefix(parts, keys, items.drop_first(), i - 2, fuel).push(x));
    } else {
        assert(items_jx_prefix(parts, keys, items, 1, fuel) == items_jx_prefix(
            parts,
            keys,
            items,
            0,
            fuel,
        ).push(value_jx(parts, keys, items[0], fuel)));
        assert(items_jx_prefix(parts, keys, items, 0, fuel) =~= Seq::<Jx>::empty());
        assert(items_jx_prefix(parts, keys, items.drop_first(), 0, fuel) =~= Seq::<Jx>::empty());
        assert(items_jx_prefix(parts, keys, items, 1, fuel) =~~= seq![
            value_jx(parts, keys, items[0], fuel),
        ] + items_jx_prefix(parts, keys, items.drop_first(), 0, fuel));
    }
}

/// The rendered members of the first `i` fields.
pub open spec fn fields_jx_prefix(
    parts: Seq<PartModel>,
    keys: Seq<Seq<char>>,
    fields: Seq<(ResponseEdge, ResponseValue)>,
    i: int,
    fuel: nat,
) -> Seq<(Seq<char>, Jx)>
    decreases i,
{
    if i <= 0 {
        Seq::empty()
    } else {
        let rest = fields_jx_prefix(parts, keys, fields, i - 1, fuel);
        match fields[i - 1].0 {
            ResponseEdge::Key(k) => if k < keys.len() {
                rest.push((keys[k as int], value_jx(parts, keys, fields[i - 1].1, fuel)))
            } else {
                rest
            },
            _ => rest,
        }
    }
}

pub proof fn lemma_fields_jx_prefix_full(
    parts: Seq<PartModel>,
    keys: Seq<Seq<char>>,
    fields: Seq<(ResponseEdge, ResponseValue)>,
    fuel: nat,
)
    ensures
        fields_jx_prefix(parts, keys, fields, fields.len() as int, fuel) =~~= fields_jx(
            parts,
            keys,
            fields,
            fuel,
        ),
    decreases fields.len(),
{
    if fields.len() > 0 {
        lemma_fields_jx_prefix_full(parts, keys, fields.drop_first(), fuel);
        lemma_fields_prefix_shift(parts, keys, fields, fields.len() as int, fuel);
    }
}

pub proof fn lemma_fields_prefix_shift(
    parts: Seq<PartModel>,
    keys: Seq<Seq<char>>,
    fields: Seq<(ResponseEdge, ResponseValue)>,
    i: int,
    fuel: nat,
)
    requires
        0 < i <= fields.len(),
    ensures
        fields_jx_prefix(parts, keys, fields, i, fuel) =~~= (match fields[0].0 {
            ResponseEdge::Key(k) => if k < keys.len() {
                seq![(keys[k as int], value_jx(parts, keys, fields[0].1, fuel))] + fields_jx_prefix(
                    parts,
                    keys,
                    fields.drop_first(),
                    i - 1,
                    fuel,
                )
            } else {
                fields_jx_prefix(parts, keys, fields.drop_first(), i - 1, fuel)
            },
            _ => fields_jx_prefix(parts, keys, fields.drop_first(), i - 1, fuel),
        }),
    decreases i,
{
    if i > 1 {
        lemma_fields_prefix_shift(parts, keys, fields, i - 1, fuel);
        assert(fields.drop_first()[i - 2] == fields[i - 1]);
        match fields[0].0 {
            ResponseEdge::Key(k0) => {
                if k0 < keys.len() {
                    let head = (keys[k0 as int], value_jx(parts, keys, fields[0].1, fuel));
                    match fields[i - 1].0 {
                        ResponseEdge::Key(k) => {
                            if k < keys.len() {
                                let x = (
                                    keys[k as int],
                                    value_jx(parts, keys, fields[i - 1].1, fuel),
                                );
                                assert((seq![head] + fields_jx_prefix(
                                    parts,
                                    keys,
                                    fields.drop_first(),
                                    i - 2,
                                    fuel,
                                )).push(x) =~~= seq![head] + fields_jx_prefix(
                                    parts,
                                    keys,
                                    fields.drop_first(),
                                    i - 2,
                                    fuel,
                                ).push(x));
                            }
                        },
                        _ => {},
                    }
                }
            },
            _ => {},
        }
    } else {
        assert(fields_jx_prefix(parts, keys, fields, 0, fuel) =~= Seq::<(Seq<char>, Jx)>::empty());
        assert(fields_jx_prefix(parts, keys, fields.drop_first(), 0, fuel) =~= Seq::<
            (Seq<char>, Jx),
        >::empty());
        match fields[0].0 {
            ResponseEdge::Key(k0) => {
                if k0 < keys.len() {
                    assert(fields_jx_prefix(parts, keys, fields, 1, fuel) =~~= seq![
                        (keys[k0 as int], value_jx(parts, keys, fields[0].1, fuel)),
                    ] + fields_jx_prefix(parts, keys, fields.drop_first(), 0, fuel));
                } else {
                    assert(fields_jx_prefix(parts, keys, fields, 1, fuel) =~~= fields_jx_prefix(
                        parts,
                        keys,
                        fields.drop_first(),
                        0,
                        fuel,
                    ));
                }
            },
            _ => {
                assert(fields_jx_prefix(parts, keys, fields, 1, fuel) =~~= fields_jx_prefix(
                    parts,
                    keys,
                    fields.drop_first(),
                    0,
                    fuel,
                ));
            },
        }
    }
}


// ---------------------------------------------------------------------------
// The final response document.
// ---------------------------------------------------------------------------

/// Depth fuel for rendering: one more than everything the arena holds, which
/// an acyclic tree can never exhaust; saturating at the integer limit.
pub open spec fn fuel_of(parts: Seq<PartModel>, i: int) -> u64
    decreases parts.len() - i,
{
    if i < 0 || i >= parts.len() {
        1u64
    } else {
        let rest = fuel_of(parts, i + 1);
        let here = parts[i].objects.len() + parts[i].lists.len();
        if rest + here > u64::MAX {
            u64::MAX
        } else {
            (rest + here) as u64
        }
    }
}

fn compute_fuel(parts: &Vec<ResponseDataPart>) -> (r: u64)
    ensures
        r == fuel_of(parts_model_of(parts@), 0),
{
    let ghost pm = parts_model_of(parts@);
    let n = parts.len();
    let mut i: usize = n;
    let mut acc: u64 = 1;
    while i > 0
        invariant
            i <= n,
            n == parts@.len(),
            pm == parts_model_of(parts@),
            acc == fuel_of(pm, i as int),
        decreases i,
    {
        i = i - 1;
        proof {
            assert(pm[i as int] == part_model(parts@[i as int]));
        }
        let no = parts[i].objects.len();
        let nl = parts[i].lists.len();
        let here: u64 = if (no as u64) <= u64::MAX - (nl as u64) {
            (no as u64) + (nl as u64)
        } else {
            u64::MAX
        };
        if acc <= u64::MAX - here {
            acc = acc + here;
        } else {
            acc = u64::MAX;
        }
        proof {
            assert(acc == fuel_of(pm, i as int));
        }
    }
    acc
}

/// One error as a JSON document: the message, then locations, path and
/// extensions where present.
pub open spec fn err_jx(keys: Seq<Seq<char>>, e: GraphqlError) -> Jx {
    let m0 = Seq::<(Seq<char>, Jx)>::empty().push(("message"@, Jx::Str(e.message@)));
    let m1 = if e.locations@.len() > 0 {
        m0.push(("locations"@, Jx::Arr(locs_jx(e.locations@))))
    } else {
        m0
    };
    let m2 = match e.path {
        Some(p) => m1.push(("path"@, Jx::Arr(path_jx(keys, p@)))),
        None => m1,
    };
    let m3 = if e.extensions@.len() > 0 {
        m2.push(("extensions"@, Jx::Obj(exts_jx(e.extensions@))))
    } else {
        m2
    };
    Jx::Obj(m3)
}

pub open spec fn locs_jx(locs: Seq<Location>) -> Seq<Jx>
    decreases locs.len(),
{
    if locs.len() == 0 {
        Seq::empty()
    } else {
        seq![
            Jx::Obj(
                seq![
                    ("line"@, Jx::Num(nat_text(locs[0].line as nat))),
                    ("column"@, Jx::Num(nat_text(locs[0].column as nat))),
                ],
            ),
        ] + locs_jx(locs.drop_first())
    }
}

/// Key edges render as the key's name; unknown key ids are dropped; indices
/// render as numbers.
pub open spec fn path_jx(keys: Seq<Seq<char>>, p: Seq<ResponseEdge>) -> Seq<Jx>
    decreases p.len(),
{
    if p.len() == 0 {
        Seq::empty()
    } else {
        let rest = path_jx(keys, p.drop_first());
        match p[0] {
            ResponseEdge::Key(k) => if k < keys.len() {
                seq![Jx::Str(keys[k as int])] + rest
            } else {
                rest
            },
            ResponseEdge::ExtraKey(k) => if k < keys.len() {
                seq![Jx::Str(keys[k as int])] + rest
            } else {
                rest
            },
            ResponseEdge::Index(i) => seq![Jx::Num(nat_text(i as nat))] + rest,
        }
    }
}

pub open spec fn exts_jx(exts: Seq<(String, JsonValue)>) -> Seq<(Seq<char>, Jx)>
    decreases exts.len(),
{
    if exts.len() == 0 {
        Seq::empty()
    } else {
        seq![(exts[0].0@, exts[0].1@)] + exts_jx(exts.drop_first())
    }
}

pub open spec fn errs_jx(keys: Seq<Seq<char>>, errs: Seq<GraphqlError>) -> Seq<Jx>
    decreases errs.len(),
{
    if errs.len() == 0 {
        Seq::empty()
    } else {
        seq![err_jx(keys, errs[0])] + errs_jx(keys, errs.drop_first())
    }
}

/// The whole response document: `data` (when the request reached execution)
/// and `errors` (when any), in that order.
pub open spec fn response_jx(
    parts: Seq<PartModel>,
    keys: Seq<Seq<char>>,
    root: Option<ResponseObjectId>,
    has_data: bool,
    errs: Seq<GraphqlError>,
) -> Jx {
    let m0 = Seq::<(Seq<char>, Jx)>::empty();
    let m1 = if has_data {
        m0.push(
            (
                "data"@,
                match root {
                    Some(oid) => value_jx(
                        parts,
                        keys,
                        ResponseValue::Object { nullable: true, obj: oid },
                        fuel_of(parts, 0) as nat,
                    ),
                    None => Jx::Null,
                },
            ),
        )
    } else {
        m0
    };
    let m2 = if errs.len() > 0 {
        m1.push(("errors"@, Jx::Arr(errs_jx(keys, errs))))
    } else {
        m1
    };
    Jx::Obj(m2)
}

fn err_to_json(keys: &ResponseKeys, e: &GraphqlError) -> (r: JsonValue)
    ensures
        r@ == err_jx(keys.model(), *e),
{
    let mut members: Vec<(String, JsonValue)> = Vec::new();
    members.push(("message".to_owned(), JsonValue::Str(crate::upstream::clone_string(&e.message))));
    let ghost g0 = Seq::<(Seq<char>, Jx)>::empty().push(("message"@, Jx::Str(e.message@)));
    proof {
        crate::json::lemma_view_obj(members@);
        assert(view_obj(members@) =~= g0);
    }
    if e.locations.len() > 0 {
        let mut locs: Vec<JsonValue> = Vec::new();
        let n = e.locations.len();
        let mut i: usize = 0;
        while i < n
            invariant
                i <= n,
                n == e.locations@.len(),
                view_arr(locs@) =~= locs_jx(e.locations@.subrange(0, i as int)),
                locs@.len() == i,
            decreases n - i,
        {
            let l = e.locations[i];
            let mut lm: Vec<(String, JsonValue)> = Vec::new();
            lm.push(("line".to_owned(), JsonValue::Num(chars_to_string(u32_text(l.line)))));
            lm.push(("column".to_owned(), JsonValue::Num(chars_to_string(u32_text(l.column)))));
            proof {
                crate::json::lemma_view_obj(lm@);
                assert(view_obj(lm@) =~= seq![
                    ("line"@, Jx::Num(nat_text(l.line as nat))),
                    ("column"@, Jx::Num(nat_text(l.column as nat))),
                ]);
            }
            let ghost pre = locs@;
            locs.push(JsonValue::Obj(lm));
            proof {
                crate::json::lemma_view_arr(locs@);
                crate::json::lemma_view_arr(pre);
                lemma_locs_jx_snoc(e.locations@, i as int);
                assert(view_arr(locs@) =~= locs_jx(e.locations@.subrange(0, i as int + 1)));
            }
            i = i + 1;
        }
        proof {
            assert(e.locations@.subrange(0, n as int) =~= e.locations@);
        }
        members.push(("locations".to_owned(), JsonValue::Arr(locs)));
    }
    let ghost g1 = if e.locations@.len() > 0 {
        g0.push(("locations"@, Jx::Arr(locs_jx(e.locations@))))
    } else {
        g0
    };
    proof {
        crate::json::lemma_view_obj(members@);
        assert(view_obj(members@) =~= g1);
    }
    match &e.path {
        Some(p) => {
            let segs = path_to_json(keys, p);
            members.push(("path".to_owned(), JsonValue::Arr(segs)));
        },
        None => {},
    }
    let ghost g2 = match &e.path {
        Some(p) => g1.push(("path"@, Jx::Arr(path_jx(keys.model(), p@)))),
        None => g1,
    };
    proof {
        crate::json::lemma_view_obj(members@);
        assert(view_obj(members@) =~= g2);
    }
    if e.extensions.len() > 0 {
        let mut xs: Vec<(String, JsonValue)> = Vec::new();
        let n = e.extensions.len();
        let mut i: usize = 0;
        while i < n
            invariant
                i <= n,
                n == e.extensions@.len(),
                view_obj(xs@) =~= exts_jx(e.extensions@.subrange(0, i as int)),
                xs@.len() == i,
            decreases n - i,
        {
            let k = crate::upstream::clone_string(&e.extensions[i].0);
            let v = clone_json(&e.extensions[i].1);
            let ghost pre = xs@;
            xs.push((k, v));
            proof {
                crate::json::lemma_view_obj(xs@);
                crate::json::lemma_view_obj(pre);
                lemma_exts_jx_snoc(e.extensions@, i as int);
                assert(view_obj(xs@) =~= exts_jx(e.extensions@.subrange(0, i as int + 1)));
            }
            i = i + 1;
        }
        proof {
            assert(e.extensions@.subrange(0, n as int) =~= e.extensions@);
        }
        members.push(("extensions".to_owned(), JsonValue::Obj(xs)));
    }
    let ghost g3 = if e.extensions@.len() > 0 {
        g2.push(("extensions"@, Jx::Obj(exts_jx(e.extensions@))))
    } else {
        g2
    };
    let r = JsonValue::Obj(members);
    proof {
        crate::json::lemma_view_obj(members@);
        assert(view_obj(members@) =~= g3);
        assert(r@ =~~= err_jx(keys.model(), *e));
    }
    r
}

pub proof fn lemma_locs_jx_snoc(locs: Seq<Location>, i: int)
    requires
        0 <= i < locs.len(),
    ensures
        locs_jx(locs.subrange(0, i + 1)) =~= locs_jx(locs.subrange(0, i)).push(
            Jx::Obj(
                seq![
                    ("line"@, Jx::Num(nat_text(locs[i].line as nat))),
                    ("column"@, Jx::Num(nat_text(locs[i].column as nat))),
                ],
            ),
        ),
    decreases i,
{
    if i == 0 {
        assert(locs.subrange(0, 1).drop_first() =~= locs.subrange(0, 0));
        assert(locs.subrange(0, 1)[0] == locs[0]);
        assert(locs_jx(locs.subrange(0, 0)) =~= Seq::<Jx>::empty());
    } else {
        lemma_locs_jx_snoc(locs.drop_first(), i - 1);
        assert(locs.subrange(0, i + 1).drop_first() =~= locs.drop_first().subrange(0, i));
        assert(locs.subrange(0, i).drop_first() =~= locs.drop_first().subrange(0, i - 1));
        assert(locs.subrange(0, i + 1)[0] == locs[0]);
        assert(locs.subrange(0, i)[0] == locs[0]);
        assert(locs.drop_first()[i - 1] == locs[i]);
    }
}

pub proof fn lemma_exts_jx_snoc(exts: Seq<(String, JsonValue)>, i: int)
    requires
        0 <= i < exts.len(),
    ensures
        exts_jx(exts.subrange(0, i + 1)) =~= exts_jx(exts.subrange(0, i)).push(
            (exts[i].0@, exts[i].1@),
        ),
    decreases i,
{
    if i == 0 {
        assert(exts.subrange(0, 1).drop_first() =~= exts.subrange(0, 0));
        assert(exts.subrange(0, 1)[0] == exts[0]);
        assert(exts_jx(exts.subrange(0, 0)) =~= Seq::<(Seq<char>, Jx)>::empty());
    } else {
        lemma_exts_jx_snoc(exts.drop_first(), i - 1);
        assert(exts.subrange(0, i + 1).drop_first() =~= exts.drop_first().subrange(0, i));
        assert(exts.subrange(0, i).drop_first() =~= exts.drop_first().subrange(0, i - 1));
        assert(exts.subrange(0, i + 1)[0] == exts[0]);
        assert(exts.subrange(0, i)[0] == exts[0]);
        assert(exts.drop_first()[i - 1] == exts[i]);
    }
}

fn u32_text(v: u32) -> (r: Vec<char>)
    ensures
        r@ == nat_text(v as nat),
{
    let mut out: Vec<char> = Vec::new();
    push_u64_text(v as u64, &mut out);
    proof {
        assert(Seq::<char>::empty() + nat_text(v as nat) =~= nat_text(v as nat));
    }
    out
}

fn path_to_json(keys: &ResponseKeys, p: &Vec<ResponseEdge>) -> (r: Vec<JsonValue>)
    ensures
        view_arr(r@) == path_jx(keys.model(), p@),
{
    let mut out: Vec<JsonValue> = Vec::new();
    let n = p.len();
    let mut i: usize = 0;
    proof {
        crate::json::lemma_view_arr(out@);
        assert(p@.subrange(0, n as int) =~= p@);
        assert(view_arr(out@) + path_jx(keys.model(), p@.subrange(0, n as int)) =~= path_jx(
            keys.model(),
            p@,
        ));
    }
    while i < n
        invariant
            i <= n,
            n == p@.len(),
            path_jx(keys.model(), p@) =~= view_arr(out@) + path_jx(
                keys.model(),
                p@.subrange(i as int, n as int),
            ),
        decreases n - i,
    {
        let ghost rem = p@.subrange(i as int, n as int);
        proof {
            assert(rem[0] == p@[i as int]);
            assert(rem.drop_first() =~= p@.subrange(i as int + 1, n as int));
        }
        match p[i] {
            ResponseEdge::Key(k) => {
                if k < keys.keys.len() {
                    let ghost pre = out@;
                    out.push(JsonValue::Str(crate::upstream::clone_string(&keys.keys[k])));
                    proof {
                        crate::json::lemma_view_arr(out@);
                        crate::json::lemma_view_arr(pre);
                        assert(keys.model()[k as int] == keys.keys@[k as int]@);
                        assert(path_jx(keys.model(), p@) =~= view_arr(out@) + path_jx(
                            keys.model(),
                            p@.subrange(i as int + 1, n as int),
                        ));
                    }
                }
            },
            ResponseEdge::ExtraKey(k) => {
                if k < keys.keys.len() {
                    let ghost pre = out@;
                    out.push(JsonValue::Str(crate::upstream::clone_string(&keys.keys[k])));
                    proof {
                        crate::json::lemma_view_arr(out@);
                        crate::json::lemma_view_arr(pre);
                        assert(keys.model()[k as int] == keys.keys@[k as int]@);
                        assert(path_jx(keys.model(), p@) =~= view_arr(out@) + path_jx(
                            keys.model(),
                            p@.subrange(i as int + 1, n as int),
                        ));
                    }
                }
            },
            ResponseEdge::Index(ix) => {
                let ghost pre = out@;
                out.push(JsonValue::Num(chars_to_string(u64_usize_text(ix))));
                proof {
                    crate::json::lemma_view_arr(out@);
                    crate::json::lemma_view_arr(pre);
                    assert(path_jx(keys.model(), p@) =~= view_arr(out@) + path_jx(
                        keys.model(),
                        p@.subrange(i as int + 1, n as int),
                    ));
                }
            },
        }
        i = i + 1;
    }
    proof {
        assert(p@.subrange(n as int, n as int) =~= Seq::<ResponseEdge>::empty());
        assert(view_arr(out@) + path_jx(keys.model(), p@.subrange(n as int, n as int)) =~= view_arr(
            out@,
        ));
    }
    out
}

fn u64_usize_text(v: usize) -> (r: Vec<char>)
    ensures
        r@ == nat_text(v as nat),
{
    let mut out: Vec<char> = Vec::new();
    push_u64_text(v as u64, &mut out);
    proof {
        assert(Seq::<char>::empty() + nat_text(v as nat) =~= nat_text(v as nat));
    }
    out
}

/// Renders the whole response to its canonical JSON text.
pub fn render_response(
    parts: &Vec<ResponseDataPart>,
    keys: &ResponseKeys,
    root: &Option<ResponseObjectId>,
    has_data: bool,
    errors: &Vec<GraphqlError>,
) -> (r: String)
    ensures
        r@ == jser(
            response_jx(parts_model_of(parts@), keys.model(), *root, has_data, errors@),
        ),
{
    let mut members: Vec<(String, JsonValue)> = Vec::new();
    if has_data {
        let data = match root {
            Some(oid) => {
                let fuel = compute_fuel(parts);
                let v = ResponseValue::Object { nullable: true, obj: *oid };
                value_to_json(parts, keys, &v, fuel)
            },
            None => JsonValue::Null,
        };
        members.push(("data".to_owned(), data));
    }
    let ghost g1 = if has_data {
        Seq::<(Seq<char>, Jx)>::empty().push(
            (
                "data"@,
                match *root {
                    Some(oid) => value_jx(
                        parts_model_of(parts@),
                        keys.model(),
                        ResponseValue::Object { nullable: true, obj: oid },
                        fuel_of(parts_model_of(parts@), 0) as nat,
                    ),
                    None => Jx::Null,
                },
            ),
        )
    } else {
        Seq::<(Seq<char>, Jx)>::empty()
    };
    proof {
        crate::json::lemma_view_obj(members@);
        assert(view_obj(members@) =~= g1);
    }
    if errors.len() > 0 {
        let mut errs: Vec<JsonValue> = Vec::new();
        let n = errors.len();
        let mut i: usize = 0;
        while i < n
            invariant
                i <= n,
                n == errors@.len(),
                view_arr(errs@) =~= errs_jx(keys.model(), errors@.subrange(0, i as int)),
                errs@.len() == i,
            decreases n - i,
        {
            let e = err_to_json(keys, &errors[i]);
            let ghost pre = errs@;
            errs.push(e);
            proof {
                crate::json::lemma_view_arr(errs@);
                crate::json::lemma_view_arr(pre);
                lemma_errs_jx_snoc(keys.model(), errors@, i as int);
                assert(view_arr(errs@) =~= errs_jx(
                    keys.model(),
                    errors@.subrange(0, i as int + 1),
                ));
            }
            i = i + 1;
        }
        proof {
            assert(errors@.subrange(0, n as int) =~= errors@);
        }
        members.push(("errors".to_owned(), JsonValue::Arr(errs)));
    }
    let ghost g2 = if errors@.len() > 0 {
        g1.push(("errors"@, Jx::Arr(errs_jx(keys.model(), errors@))))
    } else {
        g1
    };
    let doc = JsonValue::Obj(members);
    proof {
        crate::json::lemma_view_obj(members@);
        assert(view_obj(members@) =~= g2);
        assert(doc@ =~~= response_jx(
            parts_model_of(parts@),
            keys.model(),
            *root,
            has_data,
            errors@,
        ));
    }
    to_json_string(&doc)
}

pub proof fn lemma_errs_jx_snoc(keys: Seq<Seq<char>>, errs: Seq<GraphqlError>, i: int)
    requires
        0 <= i < errs.len(),
    ensures
        errs_jx(keys, errs.subrange(0, i + 1)) =~= errs_jx(keys, errs.subrange(0, i)).push(
            err_jx(keys, errs[i]),
        ),
    decreases i,
{
    if i == 0 {
        assert(errs.subrange(0, 1).drop_first() =~= errs.subrange(0, 0));
        assert(errs.subrange(0, 1)[0] == errs[0]);
        assert(errs_jx(keys, errs.subrange(0, 0)) =~= Seq::<Jx>::empty());
    } else {
        lemma_errs_jx_snoc(keys, errs.drop_first(), i - 1);
        assert(errs.subrange(0, i + 1).drop_first() =~= errs.drop_first().subrange(0, i));
        assert(errs.subrange(0, i).drop_first() =~= errs.drop_first().subrange(0, i - 1));
        assert(errs.subrange(0, i + 1)[0] == errs[0]);
        assert(errs.subrange(0, i)[0] == errs[0]);
        assert(errs.drop_first()[i - 1] == errs[i]);
    }
}


/// Round-trip at scalars: a string, boolean, number or unconstrained JSON
/// value that matches its declared kind is stored unchanged and renders back
/// to the input document, whatever the arena holds.
pub proof fn lemma_scalar_round_trip(
    parts: Seq<PartModel>,
    keys: Seq<Seq<char>>,
    st: crate::dser::SeedState,
    loc: Option<Location>,
    nullable: bool,
    j: JsonValue,
    fuel: nat,
)
    ensures
        j is Str ==> ({
            let out = crate::dser::scalar_spec(st, crate::shape::DataType::Str, loc, nullable, j);
            out.value is Some && value_jx(parts, keys, out.value.unwrap(), fuel) == j@
        }),
        j is Bool ==> ({
            let out = crate::dser::scalar_spec(
                st,
                crate::shape::DataType::Boolean,
                loc,
                nullable,
                j,
            );
            out.value is Some && value_jx(parts, keys, out.value.unwrap(), fuel) == j@
        }),
        j is Num ==> ({
            let out = crate::dser::scalar_spec(st, crate::shape::DataType::Float, loc, nullable, j);
            out.value is Some && value_jx(parts, keys, out.value.unwrap(), fuel) == j@
        }),
        !(j is Null) ==> ({
            let out = crate::dser::scalar_spec(st, crate::shape::DataType::Json, loc, nullable, j);
            out.value is Some && value_jx(parts, keys, out.value.unwrap(), fuel) == j@
        }),
{
}


/// One error as a JSON document, over its model instead of the value.
pub open spec fn err_jx_m(keys: Seq<Seq<char>>, em: crate::dser::ErrModel) -> Jx {
    let m0 = Seq::<(Seq<char>, Jx)>::empty().push(("message"@, Jx::Str(em.message)));
    let m1 = if em.locations.len() > 0 {
        m0.push(("locations"@, Jx::Arr(locs_jx(em.locations))))
    } else {
        m0
    };
    let m2 = match em.path {
        Some(p) => m1.push(("path"@, Jx::Arr(path_jx(keys, p)))),
        None => m1,
    };
    let m3 = if em.extensions.len() > 0 {
        m2.push(("extensions"@, Jx::Obj(em.extensions)))
    } else {
        m2
    };
    Jx::Obj(m3)
}

pub open spec fn errs_jx_m(keys: Seq<Seq<char>>, errs: Seq<crate::dser::ErrModel>) -> Seq<Jx>
    decreases errs.len(),
{
    if errs.len() == 0 {
        Seq::empty()
    } else {
        seq![err_jx_m(keys, errs[0])] + errs_jx_m(keys, errs.drop_first())
    }
}

/// The whole response document, over error models.
pub open spec fn response_jx_m(
    parts: Seq<PartModel>,
    keys: Seq<Seq<char>>,
    root: Option<ResponseObjectId>,
    has_data: bool,
    errs: Seq<crate::dser::ErrModel>,
) -> Jx {
    let m0 = Seq::<(Seq<char>, Jx)>::empty();
    let m1 = if has_data {
        m0.push(
            (
                "data"@,
                match root {
                    Some(oid) => value_jx(
                        parts,
                        keys,
                        ResponseValue::Object { nullable: true, obj: oid },
                        fuel_of(parts, 0) as nat,
                    ),
                    None => Jx::Null,
                },
            ),
        )
    } else {
        m0
    };
    let m2 = if errs.len() > 0 {
        m1.push(("errors"@, Jx::Arr(errs_jx_m(keys, errs))))
    } else {
        m1
    };
    Jx::Obj(m2)
}

/// An error renders the same through its value or through its model.
pub proof fn lemma_err_jx_model(keys: Seq<Seq<char>>, e: GraphqlError)
    ensures
        err_jx(keys, e) == err_jx_m(keys, crate::dser::err_model(e)),
{
    let em = crate::dser::err_model(e);
    assert(em.locations =~= e.locations@);
    lemma_exts_model(e.extensions@);
    match e.path {
        Some(p) => {
            assert(em.path == Some(p@));
        },
        None => {},
    }
    assert(err_jx(keys, e) =~~= err_jx_m(keys, em));
}

pub proof fn lemma_exts_model(exts: Seq<(String, JsonValue)>)
    ensures
        exts_jx(exts) =~= exts.map_values(|x: (String, JsonValue)| (x.0@, x.1@)),
    decreases exts.len(),
{
    if exts.len() > 0 {
        lemma_exts_model(exts.drop_first());
        assert(forall|i: int|
            0 <= i < exts.len() - 1 ==> exts.drop_first()[i] == exts[i + 1]);
    }
}

pub proof fn lemma_errs_jx_model(keys: Seq<Seq<char>>, errs: Seq<GraphqlError>)
    ensures
        errs_jx(keys, errs) =~= errs_jx_m(
            keys,
            errs.map_values(|e: GraphqlError| crate::dser::err_model(e)),
        ),
    decreases errs.len(),
{
    if errs.len() > 0 {
        lemma_errs_jx_model(keys, errs.drop_first());
        lemma_err_jx_model(keys, errs[0]);
        let ms = errs.map_values(|e: GraphqlError| crate::dser::err_model(e));
        assert(ms.drop_first() =~= errs.drop_first().map_values(
            |e: GraphqlError| crate::dser::err_model(e),
        ));
        assert(ms[0] == crate::dser::err_model(errs[0]));
    }
}

/// The whole response renders the same through values or models.
pub proof fn lemma_response_jx_model(
    parts: Seq<PartModel>,
    keys: Seq<Seq<char>>,
    root: Option<ResponseObjectId>,
    has_data: bool,
    errs: Seq<GraphqlError>,
)
    ensures
        response_jx(parts, keys, root, has_data, errs) == response_jx_m(
            parts,
            keys,
            root,
            has_data,
            errs.map_values(|e: GraphqlError| crate::dser::err_model(e)),
        ),
{
    lemma_errs_jx_model(keys, errs);
    assert(response_jx(parts, keys, root, has_data, errs) =~~= response_jx_m(
        parts,
        keys,
        root,
        has_data,
        errs.map_values(|e: GraphqlError| crate::dser::err_model(e)),
    ));
}

} // verus!
