//! Flattening a parsed JSON object into dotted-path leaf attributes: a
//! depth-first walk in which object keys extend the path with the literal
//! key and array elements extend it with the decimal index. Null values and
//! composites that bottom out only in other composites produce nothing.

use vstd::prelude::*;

use crate::attr::{dec_digits, AttrVal, AttrValV};
use crate::json::{json_leaf_to_attr_val, spec_leaf_to_attr_val, JsonValue};

verus! {

/// The mathematical reading of a list of (path, value) pairs.
pub open spec fn kvs_view(v: Seq<(Vec<u8>, AttrVal)>) -> Seq<(Seq<u8>, AttrValV)> {
    v.map_values(|p: (Vec<u8>, AttrVal)| (p.0@, p.1@))
}

/// A dotted path extended by one more segment.
pub open spec fn spec_join(prefix: Seq<u8>, seg: Seq<u8>) -> Seq<u8> {
    prefix + seq![46u8] + seg
}

/// The flattened leaves of `v`, which sits at path `prefix` (already at
/// least one segment deep).
pub open spec fn flat_value(prefix: Seq<u8>, v: JsonValue) -> Seq<(Seq<u8>, AttrValV)>
    decreases v,
{
    match v {
        JsonValue::Obj(fields) => flat_obj_upto(prefix, fields, fields@.len() as int),
        JsonValue::Arr(elems) => flat_arr_upto(prefix, elems, elems@.len() as int),
        _ => match spec_leaf_to_attr_val(v) {
            Some(a) => seq![(prefix, a)],
            None => Seq::empty(),
        },
    }
}

/// The flattened leaves of the first `i` fields of an object at `prefix`.
pub open spec fn flat_obj_upto(
    prefix: Seq<u8>,
    fields: Vec<(Vec<u8>, JsonValue)>,
    i: int,
) -> Seq<(Seq<u8>, AttrValV)>
    decreases fields, i,
{
    if i <= 0 || i > fields@.len() {
        Seq::empty()
    } else {
        flat_obj_upto(prefix, fields, i - 1) + flat_value(
            spec_join(prefix, fields@[i - 1].0@),
            fields@[i - 1].1,
        )
    }
}

/// The flattened leaves of the first `i` elements of an array at `prefix`.
pub open spec fn flat_arr_upto(
    prefix: Seq<u8>,
    elems: Vec<JsonValue>,
    i: int,
) -> Seq<(Seq<u8>, AttrValV)>
    decreases elems, i,
{
    if i <= 0 || i > elems@.len() {
        Seq::empty()
    } else {
        flat_arr_upto(prefix, elems, i - 1) + flat_value(
            spec_join(prefix, dec_digits(i - 1)),
            elems@[i - 1],
        )
    }
}

/// The flattened leaves of the first `i` fields of a top-level object,
/// whose keys are whole paths by themselves.
pub open spec fn flat_top_upto(
    fields: Vec<(Vec<u8>, JsonValue)>,
    i: int,
) -> Seq<(Seq<u8>, AttrValV)>
    decreases fields, i,
{
    if i <= 0 || i > fields@.len() {
        Seq::empty()
    } else {
        flat_top_upto(fields, i - 1) + flat_value(fields@[i - 1].0@, fields@[i - 1].1)
    }
}

/// All flattened leaves of a top-level object.
pub open spec fn flat_top(fields: Vec<(Vec<u8>, JsonValue)>) -> Seq<(Seq<u8>, AttrValV)> {
    flat_top_upto(fields, fields@.len() as int)
}

/// A null leaf contributes nothing to the flattened output, wherever it
/// sits.
pub proof fn lemma_null_never_flattened(prefix: Seq<u8>)
    ensures
        flat_value(prefix, JsonValue::Null) == Seq::<(Seq<u8>, AttrValV)>::empty(),
{
}

/// Flattening is a function of the object alone: two flattenings of the
/// same fields agree pair for pair, in the same order.
pub proof fn lemma_flatten_deterministic(
    fields: Vec<(Vec<u8>, JsonValue)>,
    r1: Seq<(Seq<u8>, AttrValV)>,
    r2: Seq<(Seq<u8>, AttrValV)>,
)
    requires
        r1 == flat_top(fields),
        r2 == flat_top(fields),
    ensures
        r1 == r2,
{
}

/// The number of nodes in a JSON value: the walk's termination measure.
pub open spec fn jsize(v: JsonValue) -> nat
    decreases v,
{
    match v {
        JsonValue::Obj(fields) => 1 + jsize_fields(fields, fields@.len() as int),
        JsonValue::Arr(elems) => 1 + jsize_elems(elems, elems@.len() as int),
        _ => 1,
    }
}

pub open spec fn jsize_fields(fields: Vec<(Vec<u8>, JsonValue)>, i: int) -> nat
    decreases fields, i,
{
    if i <= 0 || i > fields@.len() {
        0
    } else {
        jsize_fields(fields, i - 1) + jsize(fields@[i - 1].1)
    }
}

pub open spec fn jsize_elems(elems: Vec<JsonValue>, i: int) -> nat
    decreases elems, i,
{
    if i <= 0 || i > elems@.len() {
        0
    } else {
        jsize_elems(elems, i - 1) + jsize(elems@[i - 1])
    }
}

proof fn lemma_jsize_fields_mono(fields: Vec<(Vec<u8>, JsonValue)>, i: int, j: int)
    requires
        i <= j <= fields@.len(),
    ensures
        jsize_fields(fields, i) <= jsize_fields(fields, j),
    decreases j - i,
{
    if i < j {
        lemma_jsize_fields_mono(fields, i, j - 1);
    }
}

proof fn lemma_jsize_elems_mono(elems: Vec<JsonValue>, i: int, j: int)
    requires
        i <= j <= elems@.len(),
    ensures
        jsize_elems(elems, i) <= jsize_elems(elems, j),
    decreases j - i,
{
    if i < j {
        lemma_jsize_elems_mono(elems, i, j - 1);
    }
}

/// A field's value is strictly smaller than the object holding it.
proof fn lemma_jsize_field_lt(fields: Vec<(Vec<u8>, JsonValue)>, i: int)
    requires
        0 <= i < fields@.len(),
    ensures
        jsize(fields@[i].1) < jsize(JsonValue::Obj(fields)),
{
    lemma_jsize_fields_mono(fields, i + 1, fields@.len() as int);
}

/// An element is strictly smaller than the array holding it.
proof fn lemma_jsize_elem_lt(elems: Vec<JsonValue>, i: int)
    requires
        0 <= i < elems@.len(),
    ensures
        jsize(elems@[i]) < jsize(JsonValue::Arr(elems)),
{
    lemma_jsize_elems_mono(elems, i + 1, elems@.len() as int);
}

/// `prefix` extended with `.` and `seg`.
pub fn join_path(prefix: &Vec<u8>, seg: &Vec<u8>) -> (r: Vec<u8>)
    ensures
        r@ == spec_join(prefix@, seg@),
{
    let mut out = crate::attr::copy_bytes(prefix);
    out.push(46);
    let mut i: usize = 0;
    while i < seg.len()
        invariant
            i <= seg.len(),
            out@ =~= prefix@ + seq![46u8] + seg@.subrange(0, i as int),
        decreases seg.len() - i,
    {
        out.push(seg[i]);
        i = i + 1;
    }
    proof {
        assert(seg@.subrange(0, seg@.len() as int) =~= seg@);
    }
    out
}

/// Append the flattened leaves of `v`, at path `prefix`, to `out`.
fn flatten_value_into(prefix: &Vec<u8>, v: &JsonValue, out: &mut Vec<(Vec<u8>, AttrVal)>)
    ensures
        kvs_view(final(out)@) == kvs_view(old(out)@) + flat_value(prefix@, *v),
    decreases jsize(*v),
{
    match v {
        JsonValue::Obj(fields) => {
            let mut i: usize = 0;
            while i < fields.len()
                invariant
                    i <= fields.len(),
                    *v == JsonValue::Obj(*fields),
                    kvs_view(out@) == kvs_view(old(out)@) + flat_obj_upto(
                        prefix@,
                        *fields,
                        i as int,
                    ),
                decreases fields.len() - i,
            {
                let child_path = join_path(prefix, &fields[i].0);
                proof {
                    lemma_jsize_field_lt(*fields, i as int);
                }
                flatten_value_into(&child_path, &fields[i].1, out);
                i = i + 1;
            }
            assert(flat_value(prefix@, *v) == flat_obj_upto(prefix@, *fields, fields@.len() as int));
        },
        JsonValue::Arr(elems) => {
            let mut i: usize = 0;
            while i < elems.len()
                invariant
                    i <= elems.len(),
                    *v == JsonValue::Arr(*elems),
                    kvs_view(out@) == kvs_view(old(out)@) + flat_arr_upto(
                        prefix@,
                        *elems,
                        i as int,
                    ),
                decreases elems.len() - i,
            {
                let idx_text = crate::attr::usize_dec_bytes(i);
                let child_path = join_path(prefix, &idx_text);
                proof {
                    lemma_jsize_elem_lt(*elems, i as int);
                }
                flatten_value_into(&child_path, &elems[i], out);
                i = i + 1;
            }
            assert(flat_value(prefix@, *v) == flat_arr_upto(prefix@, *elems, elems@.len() as int));
        },
        _ => {
            match json_leaf_to_attr_val(v) {
                Some(a) => {
                    let p = crate::attr::copy_bytes(prefix);
                    out.push((p, a));
                    proof {
                        assert(kvs_view(out@) =~= kvs_view(old(out)@) + flat_value(prefix@, *v));
                    }
                },
                None => {
                    proof {
                        assert(kvs_view(out@) =~= kvs_view(old(out)@) + flat_value(prefix@, *v));
                    }
                },
            }
        },
    }
}

/// Depth-first traversal of a parsed JSON object: every leaf value becomes
/// one (dotted path, typed value) pair, in source order.
pub fn walk_obj(fields: &Vec<(Vec<u8>, JsonValue)>) -> (r: Vec<(Vec<u8>, AttrVal)>)
    ensures
        kvs_view(r@) == flat_top(*fields),
{
    let mut out: Vec<(Vec<u8>, AttrVal)> = Vec::new();
    let mut i: usize = 0;
    assert(kvs_view(out@) =~= flat_top_upto(*fields, 0));
    while i < fields.len()
        invariant
            i <= fields.len(),
            kvs_view(out@) == flat_top_upto(*fields, i as int),
        decreases fields.len() - i,
    {
        flatten_value_into(&fields[i].0, &fields[i].1, &mut out);
        i = i + 1;
    }
    out
}

} // verus!
