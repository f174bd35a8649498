//! The patch generator: walks a value tree (or an existing list of patch
//! operation descriptions) depth first, left to right, and emits a `replace`
//! operation wherever a configured pattern matches the accumulated pointer
//! path. Optionally each operation is wrapped in a test/operation batch.

use vstd::prelude::*;
use vstd::string::StringExecFns;

use crate::util::patterns::{
    regex_any_match, regex_set_is_match, regex_set_patterns, PatternConfig,
};
use crate::util::text::dec_str;
use crate::util::text::u64_to_string;
use crate::util::value::{
    fields_view, lemma_array_elem_decreases, lemma_fields_view, lemma_obj_index_of,
    lemma_object_elem_decreases, lemma_vals_view, obj_get, obj_index_of, object_find, val_view, vals_view,
    SpecValue, Value,
};

verus! {

broadcast use vstd::std_specs::vec::group_vec_axioms, vstd::seq::axiom_seq_index_decreases;

/// The two shapes a generated patch takes: a flat list of operations, or a
/// list of test/operation batches.
#[derive(Debug)]
pub enum PatchData {
    CommonPatch(Vec<Value>),
    BatchesPatch(Vec<Vec<Value>>),
}

pub enum SpecPatchData {
    Common(Seq<SpecValue>),
    Batches(Seq<Seq<SpecValue>>),
}

impl View for PatchData {
    type V = SpecPatchData;

    open spec fn view(&self) -> SpecPatchData {
        match self {
            PatchData::CommonPatch(ops) => SpecPatchData::Common(vals_view(ops@)),
            PatchData::BatchesPatch(bs) => SpecPatchData::Batches(
                Seq::new(bs@.len(), |i: int| vals_view(bs@[i]@)),
            ),
        }
    }
}

/// A flat list is empty when it has no operations; a batched list is empty
/// when every batch is empty.
pub open spec fn spec_patch_is_empty(p: SpecPatchData) -> bool {
    match p {
        SpecPatchData::Common(ops) => ops.len() == 0,
        SpecPatchData::Batches(bs) => forall|i: int| 0 <= i < bs.len() ==> bs[i].len() == 0,
    }
}

impl PatchData {
    pub fn is_empty(&self) -> (r: bool)
        ensures
            r == spec_patch_is_empty(self@),
    {
        match self {
            PatchData::CommonPatch(patch_operations) => {
                proof {
                    lemma_vals_view(patch_operations@);
                }
                patch_operations.len() == 0
            },
            PatchData::BatchesPatch(patch_operations) => {
                let mut i: usize = 0;
                while i < patch_operations.len()
                    invariant
                        *self == PatchData::BatchesPatch(*patch_operations),
                        i <= patch_operations@.len(),
                        forall|j: int| 0 <= j < i ==> patch_operations@[j]@.len() == 0,
                    decreases patch_operations@.len() - i,
                {
                    if patch_operations[i].len() != 0 {
                        proof {
                            lemma_vals_view(patch_operations@[i as int]@);
                            match self@ {
                                SpecPatchData::Batches(bs) => {
                                    assert(bs[i as int] == vals_view(
                                        patch_operations@[i as int]@,
                                    ));
                                    assert(bs[i as int].len() != 0);
                                },
                                _ => {},
                            }
                        }
                        return false;
                    }
                    i = i + 1;
                }
                proof {
                    assert forall|j: int|
                        0 <= j < patch_operations@.len() implies vals_view(patch_operations@[j]@).len()
                        == 0 by {
                        lemma_vals_view(patch_operations@[j]@);
                    }
                }
                true
            },
        }
    }
}

/// The translatable marker applied to a string.
pub open spec fn mark(s: Seq<char>) -> Seq<char> {
    "(T) "@ + s
}

/// String elements of a matched array receive the marker; other elements are
/// copied unchanged.
pub open spec fn marked_value(v: SpecValue) -> SpecValue {
    match v {
        SpecValue::Str(s) => SpecValue::Str(mark(s)),
        _ => v,
    }
}

pub open spec fn mark_items(items: Seq<SpecValue>) -> Seq<SpecValue> {
    Seq::new(items.len(), |i: int| marked_value(items[i]))
}

/// A pointer path extended by one segment.
pub open spec fn child_ptr(ptr: Seq<char>, seg: Seq<char>) -> Seq<char> {
    ptr + "/"@ + seg
}

/// A `replace` operation object, with keys in the order op, path, value.
pub open spec fn spec_replace_op(path: Seq<char>, val: SpecValue) -> SpecValue {
    SpecValue::Object(
        seq![
            ("op"@, SpecValue::Str("replace"@)),
            ("path"@, SpecValue::Str(path)),
            ("value"@, val),
        ],
    )
}

/// A `test` operation object.
pub open spec fn spec_test_op(path: Seq<char>) -> SpecValue {
    SpecValue::Object(seq![("op"@, SpecValue::Str("test"@)), ("path"@, SpecValue::Str(path))])
}

/// Whether the matcher (if any) matches the path.
pub open spec fn pats_match(pats: Option<Seq<Seq<char>>>, path: Seq<char>) -> bool {
    pats matches Some(p) && regex_any_match(p, path)
}

/// The operations generated from a fresh value tree rooted at `ptr`.
pub open spec fn spec_gen(v: SpecValue, ptr: Seq<char>, pats: Option<Seq<Seq<char>>>) -> Seq<
    SpecValue,
>
    decreases v, 0int, 0int,
    via spec_gen_dec
{
    match v {
        SpecValue::Str(s) => if pats_match(pats, ptr) {
            seq![spec_replace_op(ptr, SpecValue::Str(mark(s)))]
        } else {
            Seq::empty()
        },
        SpecValue::Array(items) => if pats_match(pats, ptr) {
            seq![spec_replace_op(ptr, SpecValue::Array(mark_items(items)))]
        } else {
            spec_gen_items(items, 0, ptr, pats)
        },
        SpecValue::Object(fields) => spec_gen_fields(fields, 0, ptr, pats),
        _ => Seq::empty(),
    }
}

/// The operations generated from the elements of an array, indices `i` on.
pub open spec fn spec_gen_items(
    items: Seq<SpecValue>,
    i: int,
    ptr: Seq<char>,
    pats: Option<Seq<Seq<char>>>,
) -> Seq<SpecValue>
    decreases items, 1int, items.len() - i,
    via spec_gen_items_dec
{
    if 0 <= i < items.len() {
        spec_gen(items[i], child_ptr(ptr, dec_str(i as nat)), pats) + spec_gen_items(
            items,
            i + 1,
            ptr,
            pats,
        )
    } else {
        Seq::empty()
    }
}

/// The operations generated from the fields of an object, indices `i` on.
pub open spec fn spec_gen_fields(
    fields: Seq<(Seq<char>, SpecValue)>,
    i: int,
    ptr: Seq<char>,
    pats: Option<Seq<Seq<char>>>,
) -> Seq<SpecValue>
    decreases fields, 1int, fields.len() - i,
    via spec_gen_fields_dec
{
    if 0 <= i < fields.len() {
        spec_gen(fields[i].1, child_ptr(ptr, fields[i].0), pats) + spec_gen_fields(
            fields,
            i + 1,
            ptr,
            pats,
        )
    } else {
        Seq::empty()
    }
}

#[via_fn]
proof fn spec_gen_dec(v: SpecValue, ptr: Seq<char>, pats: Option<Seq<Seq<char>>>) {
    match v {
        SpecValue::Array(items) => {
            assert(decreases_to!(v => items));
        },
        SpecValue::Object(fields) => {
            assert(decreases_to!(v => fields));
        },
        _ => {},
    }
}

#[via_fn]
proof fn spec_gen_items_dec(
    items: Seq<SpecValue>,
    i: int,
    ptr: Seq<char>,
    pats: Option<Seq<Seq<char>>>,
) {
    broadcast use vstd::seq::axiom_seq_index_decreases;

    if 0 <= i < items.len() {
        assert(decreases_to!(items => items[i]));
    }
}

#[via_fn]
proof fn spec_gen_fields_dec(
    fields: Seq<(Seq<char>, SpecValue)>,
    i: int,
    ptr: Seq<char>,
    pats: Option<Seq<Seq<char>>>,
) {
    broadcast use vstd::seq::axiom_seq_index_decreases;

    if 0 <= i < fields.len() {
        assert(decreases_to!(fields => fields[i]));
        assert(decreases_to!(fields[i] => fields[i].1));
    }
}

/// Whether an object has the recognized patch-operation shape: string `op`
/// equal to `replace` or `add`, a string `path`, and any `value`.
pub open spec fn is_patch_op_shape(fields: Seq<(Seq<char>, SpecValue)>) -> bool {
    &&& obj_get(fields, "op"@) matches Some(SpecValue::Str(op)) && (op == "replace"@ || op
        == "add"@)
    &&& obj_get(fields, "path"@) matches Some(SpecValue::Str(_))
    &&& obj_get(fields, "value"@) is Some
}

pub open spec fn patch_op_path(fields: Seq<(Seq<char>, SpecValue)>) -> Seq<char> {
    match obj_get(fields, "path"@) {
        Some(SpecValue::Str(p)) => p,
        _ => Seq::empty(),
    }
}

pub open spec fn patch_op_value(fields: Seq<(Seq<char>, SpecValue)>) -> SpecValue {
    match obj_get(fields, "value"@) {
        Some(v) => v,
        None => SpecValue::Null,
    }
}

/// The operations generated from a value that describes existing patch
/// operations. Outside an operation's value, a recognized operation object
/// roots a fresh walk of its `value` at its own `path`, and any other
/// object's fields reset the path to the bare field key.
pub open spec fn spec_gen_patch(
    v: SpecValue,
    path: Seq<char>,
    pats: Option<Seq<Seq<char>>>,
    in_value: bool,
) -> Seq<SpecValue>
    decreases v, 0int, 0int,
    via spec_gen_patch_dec
{
    match v {
        SpecValue::Str(s) => if pats_match(pats, path) {
            seq![spec_replace_op(path, SpecValue::Str(mark(s)))]
        } else {
            Seq::empty()
        },
        SpecValue::Array(items) => if pats_match(pats, path) {
            seq![spec_replace_op(path, SpecValue::Array(mark_items(items)))]
        } else {
            spec_gen_patch_items(items, 0, path, pats, in_value)
        },
        SpecValue::Object(fields) => if !in_value && is_patch_op_shape(fields) {
            spec_gen_patch(patch_op_value(fields), patch_op_path(fields), pats, true)
        } else {
            spec_gen_patch_fields(fields, 0, path, pats, in_value)
        },
        _ => Seq::empty(),
    }
}

pub open spec fn spec_gen_patch_items(
    items: Seq<SpecValue>,
    i: int,
    path: Seq<char>,
    pats: Option<Seq<Seq<char>>>,
    in_value: bool,
) -> Seq<SpecValue>
    decreases items, 1int, items.len() - i,
    via spec_gen_patch_items_dec
{
    if 0 <= i < items.len() {
        spec_gen_patch(items[i], child_ptr(path, dec_str(i as nat)), pats, in_value)
            + spec_gen_patch_items(items, i + 1, path, pats, in_value)
    } else {
        Seq::empty()
    }
}

pub open spec fn spec_gen_patch_fields(
    fields: Seq<(Seq<char>, SpecValue)>,
    i: int,
    path: Seq<char>,
    pats: Option<Seq<Seq<char>>>,
    in_value: bool,
) -> Seq<SpecValue>
    decreases fields, 1int, fields.len() - i,
    via spec_gen_patch_fields_dec
{
    if 0 <= i < fields.len() {
        let next_path = if in_value {
            child_ptr(path, fields[i].0)
        } else {
            fields[i].0
        };
        spec_gen_patch(fields[i].1, next_path, pats, in_value) + spec_gen_patch_fields(
            fields,
            i + 1,
            path,
            pats,
            in_value,
        )
    } else {
        Seq::empty()
    }
}

#[via_fn]
proof fn spec_gen_patch_dec(
    v: SpecValue,
    path: Seq<char>,
    pats: Option<Seq<Seq<char>>>,
    in_value: bool,
) {
    broadcast use vstd::seq::axiom_seq_index_decreases;

    match v {
        SpecValue::Array(items) => {
            assert(decreases_to!(v => items));
        },
        SpecValue::Object(fields) => {
            if !in_value && is_patch_op_shape(fields) {
                lemma_obj_index_of(fields, "value"@);
                let r = obj_index_of(fields, "value"@);
                assert(decreases_to!(v => fields));
                assert(decreases_to!(fields => fields[r]));
                assert(decreases_to!(fields[r] => fields[r].1));
                assert(patch_op_value(fields) == fields[r].1);
            } else {
                assert(decreases_to!(v => fields));
            }
        },
        _ => {},
    }
}

#[via_fn]
proof fn spec_gen_patch_items_dec(
    items: Seq<SpecValue>,
    i: int,
    path: Seq<char>,
    pats: Option<Seq<Seq<char>>>,
    in_value: bool,
) {
    broadcast use vstd::seq::axiom_seq_index_decreases;

    if 0 <= i < items.len() {
        assert(decreases_to!(items => items[i]));
    }
}

#[via_fn]
proof fn spec_gen_patch_fields_dec(
    fields: Seq<(Seq<char>, SpecValue)>,
    i: int,
    path: Seq<char>,
    pats: Option<Seq<Seq<char>>>,
    in_value: bool,
) {
    broadcast use vstd::seq::axiom_seq_index_decreases;

    if 0 <= i < fields.len() {
        assert(decreases_to!(fields => fields[i]));
        assert(decreases_to!(fields[i] => fields[i].1));
    }
}

/// Each operation's batch: a test operation at the same path, then the
/// operation itself.
pub open spec fn spec_batch_of(op: SpecValue) -> Seq<SpecValue> {
    match op {
        SpecValue::Object(fields) => match obj_get(fields, "path"@) {
            Some(SpecValue::Str(p)) => seq![spec_test_op(p), op],
            _ => seq![op],
        },
        _ => seq![op],
    }
}

pub open spec fn spec_batches(ops: Seq<SpecValue>) -> Seq<Seq<SpecValue>> {
    Seq::new(ops.len(), |i: int| spec_batch_of(ops[i]))
}

/// The pattern texts behind an optional compiled set.
pub open spec fn opt_set_pats(r: Option<&regex::RegexSet>) -> Option<Seq<Seq<char>>> {
    match r {
        Some(s) => Some(regex_set_patterns(*s)),
        None => None,
    }
}

/// Builds a `replace` operation value.
fn make_replace_op(path: &str, value: Value) -> (r: Value)
    ensures
        r@ == spec_replace_op(path@, value@),
{
    let fields: Vec<(String, Value)> = vec![
        ("op".to_owned(), Value::Str("replace".to_owned())),
        ("path".to_owned(), Value::Str(path.to_owned())),
        ("value".to_owned(), value),
    ];
    proof {
        lemma_fields_view(fields@);
        assert(fields_view(fields@) =~= spec_replace_op(path@, fields@[2].1@)->Object_0);
    }
    Value::Object(fields)
}

/// Prefixes a string with the translatable marker.
fn mark_string(s: &String) -> (r: String)
    ensures
        r@ == mark(s@),
{
    let mut m = "(T) ".to_owned();
    m.append(s.as_str());
    m
}

/// A copy of the array with every direct string element marked.
fn mark_array(items: &Vec<Value>) -> (r: Vec<Value>)
    ensures
        vals_view(r@) == mark_items(vals_view(items@)),
{
    let mut out: Vec<Value> = Vec::new();
    let mut i: usize = 0;
    while i < items.len()
        invariant
            i <= items@.len(),
            out@.len() == i,
            forall|j: int| 0 <= j < i ==> out@[j]@ == marked_value(items@[j]@),
        decreases items@.len() - i,
    {
        match &items[i] {
            Value::Str(s) => {
                out.push(Value::Str(mark_string(s)));
            },
            other => {
                out.push(other.clone());
            },
        }
        i = i + 1;
    }
    proof {
        lemma_vals_view(out@);
        lemma_vals_view(items@);
        assert(vals_view(out@) =~= mark_items(vals_view(items@)));
    }
    out
}

/// Appends one operation, at the view level.
proof fn lemma_push_op(before: Seq<Value>, after: Seq<Value>, op: Value)
    requires
        after == before.push(op),
    ensures
        vals_view(after) == vals_view(before) + seq![op@],
{
    assert(after.drop_last() =~= before);
    assert(after.last() == op);
    assert(vals_view(before).push(op@) =~= vals_view(before) + seq![op@]);
}

/// Walks a fresh value tree depth first, appending a `replace` operation for
/// every string or array whose pointer path the matcher matches.
fn gen_patch_from_json(
    json_value: &Value,
    json_pointer: &str,
    regex_set: Option<&regex::RegexSet>,
    patch_operations: &mut Vec<Value>,
)
    ensures
        vals_view(final(patch_operations)@) == vals_view(old(patch_operations)@) + spec_gen(
            json_value@,
            json_pointer@,
            opt_set_pats(regex_set),
        ),
    decreases json_value,
{
    let ghost pats = opt_set_pats(regex_set);
    let ghost before = patch_operations@;
    let matched = match regex_set {
        Some(set) => regex_set_is_match(set, json_pointer),
        None => false,
    };
    proof {
        assert(matched == pats_match(pats, json_pointer@));
    }
    match json_value {
        Value::Str(string_value) => {
            if matched {
                let op = make_replace_op(json_pointer, Value::Str(mark_string(string_value)));
                patch_operations.push(op);
                proof {
                    lemma_push_op(before, patch_operations@, op);
                }
            } else {
                proof {
                    assert(vals_view(patch_operations@) =~= vals_view(before) + Seq::<
                        SpecValue,
                    >::empty());
                }
            }
        },
        Value::Array(array_value) => {
            if matched {
                let new_array = mark_array(array_value);
                let op = make_replace_op(json_pointer, Value::Array(new_array));
                patch_operations.push(op);
                proof {
                    lemma_push_op(before, patch_operations@, op);
                }
            } else {
                let ghost itemsv = vals_view(array_value@);
                proof {
                    lemma_vals_view(array_value@);
                }
                let mut i: usize = 0;
                while i < array_value.len()
                    invariant
                        *json_value == Value::Array(*array_value),
                        itemsv == vals_view(array_value@),
                        itemsv.len() == array_value@.len(),
                        forall|j: int|
                            0 <= j < array_value@.len() ==> itemsv[j] == val_view(
                                #[trigger] array_value@[j],
                            ),
                        !pats_match(pats, json_pointer@),
                        pats == opt_set_pats(regex_set),
                        i <= array_value@.len(),
                        vals_view(patch_operations@) + spec_gen_items(
                            itemsv,
                            i as int,
                            json_pointer@,
                            pats,
                        ) == vals_view(before) + spec_gen_items(itemsv, 0, json_pointer@, pats),
                    decreases array_value@.len() - i,
                {
                    let mut np = json_pointer.to_owned();
                    np.append("/");
                    let seg = u64_to_string(i as u64);
                    np.append(seg.as_str());
                    let ghost mid = patch_operations@;
                    proof {
                        lemma_array_elem_decreases(*json_value, *array_value, i as int);
                        assert(np@ == child_ptr(json_pointer@, dec_str(i as nat)));
                    }
                    gen_patch_from_json(&array_value[i], np.as_str(), regex_set, patch_operations);
                    proof {
                        let g = spec_gen(itemsv[i as int], child_ptr(json_pointer@, dec_str(i as nat)), pats);
                        assert(spec_gen_items(itemsv, i as int, json_pointer@, pats) == g
                            + spec_gen_items(itemsv, i + 1, json_pointer@, pats));
                        assert(vals_view(patch_operations@) == vals_view(mid) + g);
                        assert((vals_view(mid) + g) + spec_gen_items(itemsv, i + 1, json_pointer@, pats)
                            =~= vals_view(mid) + (g + spec_gen_items(itemsv, i + 1, json_pointer@, pats)));
                    }
                    i = i + 1;
                }
                proof {
                    assert(spec_gen_items(itemsv, itemsv.len() as int, json_pointer@, pats)
                        =~= Seq::<SpecValue>::empty());
                    assert(vals_view(patch_operations@) + Seq::<SpecValue>::empty()
                        =~= vals_view(patch_operations@));
                }
            }
        },
        Value::Object(object_value) => {
            let ghost fieldsv = fields_view(object_value@);
            proof {
                lemma_fields_view(object_value@);
            }
            let mut i: usize = 0;
            while i < object_value.len()
                invariant
                    *json_value == Value::Object(*object_value),
                    fieldsv == fields_view(object_value@),
                    fieldsv.len() == object_value@.len(),
                    forall|j: int|
                        0 <= j < object_value@.len() ==> fieldsv[j] == (
                            (#[trigger] object_value@[j]).0@,
                            val_view(object_value@[j].1),
                        ),
                    pats == opt_set_pats(regex_set),
                    i <= object_value@.len(),
                    vals_view(patch_operations@) + spec_gen_fields(
                        fieldsv,
                        i as int,
                        json_pointer@,
                        pats,
                    ) == vals_view(before) + spec_gen_fields(fieldsv, 0, json_pointer@, pats),
                decreases object_value@.len() - i,
            {
                let mut np = json_pointer.to_owned();
                np.append("/");
                np.append(object_value[i].0.as_str());
                let ghost mid = patch_operations@;
                proof {
                    lemma_object_elem_decreases(*json_value, *object_value, i as int);
                    assert(np@ == child_ptr(json_pointer@, fieldsv[i as int].0));
                }
                gen_patch_from_json(&object_value[i].1, np.as_str(), regex_set, patch_operations);
                proof {
                    let g = spec_gen(fieldsv[i as int].1, child_ptr(json_pointer@, fieldsv[i as int].0), pats);
                    assert(spec_gen_fields(fieldsv, i as int, json_pointer@, pats) == g
                        + spec_gen_fields(fieldsv, i + 1, json_pointer@, pats));
                    assert(vals_view(patch_operations@) == vals_view(mid) + g);
                    assert((vals_view(mid) + g) + spec_gen_fields(fieldsv, i + 1, json_pointer@, pats)
                        =~= vals_view(mid) + (g + spec_gen_fields(fieldsv, i + 1, json_pointer@, pats)));
                }
                i = i + 1;
            }
            proof {
                assert(spec_gen_fields(fieldsv, fieldsv.len() as int, json_pointer@, pats)
                    =~= Seq::<SpecValue>::empty());
                assert(vals_view(patch_operations@) + Seq::<SpecValue>::empty()
                    =~= vals_view(patch_operations@));
            }
        },
        _ => {
            proof {
                assert(vals_view(patch_operations@) =~= vals_view(before) + Seq::<
                    SpecValue,
                >::empty());
            }
        },
    }
}


/// Walks a value that describes existing patch operations, appending a
/// `replace` operation for every matched string or array. A recognized
/// operation object roots a fresh walk of its `value` at its own `path`.
fn gen_patch_from_json_patch(
    json_value: &Value,
    operation_path: &str,
    regex_set: Option<&regex::RegexSet>,
    patch_operations: &mut Vec<Value>,
    is_patch_value: bool,
)
    ensures
        vals_view(final(patch_operations)@) == vals_view(old(patch_operations)@) + spec_gen_patch(
            json_value@,
            operation_path@,
            opt_set_pats(regex_set),
            is_patch_value,
        ),
    decreases json_value, 1int,
{
    let ghost pats = opt_set_pats(regex_set);
    let ghost before = patch_operations@;
    let matched = match regex_set {
        Some(set) => regex_set_is_match(set, operation_path),
        None => false,
    };
    proof {
        assert(matched == pats_match(pats, operation_path@));
    }
    match json_value {
        Value::Str(string_value) => {
            if matched {
                let op = make_replace_op(operation_path, Value::Str(mark_string(string_value)));
                patch_operations.push(op);
                proof {
                    lemma_push_op(before, patch_operations@, op);
                }
            } else {
                proof {
                    assert(vals_view(patch_operations@) =~= vals_view(before) + Seq::<
                        SpecValue,
                    >::empty());
                }
            }
        },
        Value::Array(array_value) => {
            if matched {
                let new_array = mark_array(array_value);
                let op = make_replace_op(operation_path, Value::Array(new_array));
                patch_operations.push(op);
                proof {
                    lemma_push_op(before, patch_operations@, op);
                }
            } else {
                let ghost itemsv = vals_view(array_value@);
                proof {
                    lemma_vals_view(array_value@);
                }
                let mut i: usize = 0;
                while i < array_value.len()
                    invariant
                        *json_value == Value::Array(*array_value),
                        itemsv == vals_view(array_value@),
                        itemsv.len() == array_value@.len(),
                        forall|j: int|
                            0 <= j < array_value@.len() ==> itemsv[j] == val_view(
                                #[trigger] array_value@[j],
                            ),
                        !pats_match(pats, operation_path@),
                        pats == opt_set_pats(regex_set),
                        i <= array_value@.len(),
                        vals_view(patch_operations@) + spec_gen_patch_items(
                            itemsv,
                            i as int,
                            operation_path@,
                            pats,
                            is_patch_value,
                        ) == vals_view(before) + spec_gen_patch_items(
                            itemsv,
                            0,
                            operation_path@,
                            pats,
                            is_patch_value,
                        ),
                    decreases array_value@.len() - i,
                {
                    let mut np = operation_path.to_owned();
                    np.append("/");
                    let seg = u64_to_string(i as u64);
                    np.append(seg.as_str());
                    let ghost mid = patch_operations@;
                    proof {
                        lemma_array_elem_decreases(*json_value, *array_value, i as int);
                        assert(np@ == child_ptr(operation_path@, dec_str(i as nat)));
                    }
                    gen_patch_from_json_patch(
                        &array_value[i],
                        np.as_str(),
                        regex_set,
                        patch_operations,
                        is_patch_value,
                    );
                    proof {
                        let g = spec_gen_patch(
                            itemsv[i as int],
                            child_ptr(operation_path@, dec_str(i as nat)),
                            pats,
                            is_patch_value,
                        );
                        assert(spec_gen_patch_items(itemsv, i as int, operation_path@, pats, is_patch_value)
                            == g + spec_gen_patch_items(itemsv, i + 1, operation_path@, pats, is_patch_value));
                        assert(vals_view(patch_operations@) == vals_view(mid) + g);
                        assert((vals_view(mid) + g) + spec_gen_patch_items(itemsv, i + 1, operation_path@, pats, is_patch_value)
                            =~= vals_view(mid) + (g + spec_gen_patch_items(itemsv, i + 1, operation_path@, pats, is_patch_value)));
                    }
                    i = i + 1;
                }
                proof {
                    assert(spec_gen_patch_items(itemsv, itemsv.len() as int, operation_path@, pats, is_patch_value)
                        =~= Seq::<SpecValue>::empty());
                    assert(vals_view(patch_operations@) + Seq::<SpecValue>::empty()
                        =~= vals_view(patch_operations@));
                }
            }
        },
        Value::Object(object_value) => {
            let ghost fieldsv = fields_view(object_value@);
            proof {
                lemma_fields_view(object_value@);
            }
            if !is_patch_value {
                // A recognized operation object roots a fresh walk of its
                // value at the operation's own path.
                let op_idx = object_find(object_value, &"op".to_owned());
                let path_idx = object_find(object_value, &"path".to_owned());
                let val_idx = object_find(object_value, &"value".to_owned());
                proof {
                    lemma_obj_index_of(fieldsv, "op"@);
                    lemma_obj_index_of(fieldsv, "path"@);
                    lemma_obj_index_of(fieldsv, "value"@);
                }
                if let (Some(oi), Some(pi), Some(vi)) = (op_idx, path_idx, val_idx) {
                    let mut op_ok = false;
                    let rep = "replace".to_owned();
                    let add_op = "add".to_owned();
                    if let Value::Str(op_s) = &object_value[oi].1 {
                        if *op_s == rep || *op_s == add_op {
                            op_ok = true;
                        }
                    }
                    if op_ok {
                        if let Value::Str(path_s) = &object_value[pi].1 {
                            proof {
                                assert(is_patch_op_shape(fieldsv));
                                assert(patch_op_path(fieldsv) == path_s@);
                                assert(patch_op_value(fieldsv) == val_view(object_value@[vi as int].1));
                                lemma_object_elem_decreases(*json_value, *object_value, vi as int);
                            }
                            gen_patch_from_json_patch(
                                &object_value[vi].1,
                                path_s.as_str(),
                                regex_set,
                                patch_operations,
                                true,
                            );
                            return ;
                        }
                    }
                }
                proof {
                    assert(!is_patch_op_shape(fieldsv));
                }
            }
            let mut i: usize = 0;
            while i < object_value.len()
                invariant
                    *json_value == Value::Object(*object_value),
                    fieldsv == fields_view(object_value@),
                    fieldsv.len() == object_value@.len(),
                    forall|j: int|
                        0 <= j < object_value@.len() ==> fieldsv[j] == (
                            (#[trigger] object_value@[j]).0@,
                            val_view(object_value@[j].1),
                        ),
                    pats == opt_set_pats(regex_set),
                    is_patch_value || !is_patch_op_shape(fieldsv),
                    i <= object_value@.len(),
                    vals_view(patch_operations@) + spec_gen_patch_fields(
                        fieldsv,
                        i as int,
                        operation_path@,
                        pats,
                        is_patch_value,
                    ) == vals_view(before) + spec_gen_patch_fields(
                        fieldsv,
                        0,
                        operation_path@,
                        pats,
                        is_patch_value,
                    ),
                decreases object_value@.len() - i,
            {
                let next_path = if is_patch_value {
                    let mut np = operation_path.to_owned();
                    np.append("/");
                    np.append(object_value[i].0.as_str());
                    np
                } else {
                    object_value[i].0.clone()
                };
                let ghost mid = patch_operations@;
                let ghost spec_next = if is_patch_value {
                    child_ptr(operation_path@, fieldsv[i as int].0)
                } else {
                    fieldsv[i as int].0
                };
                proof {
                    lemma_object_elem_decreases(*json_value, *object_value, i as int);
                    assert(next_path@ == spec_next);
                }
                gen_patch_from_json_patch(
                    &object_value[i].1,
                    next_path.as_str(),
                    regex_set,
                    patch_operations,
                    is_patch_value,
                );
                proof {
                    let g = spec_gen_patch(fieldsv[i as int].1, spec_next, pats, is_patch_value);
                    assert(spec_gen_patch_fields(fieldsv, i as int, operation_path@, pats, is_patch_value)
                        == g + spec_gen_patch_fields(fieldsv, i + 1, operation_path@, pats, is_patch_value));
                    assert(vals_view(patch_operations@) == vals_view(mid) + g);
                    assert((vals_view(mid) + g) + spec_gen_patch_fields(fieldsv, i + 1, operation_path@, pats, is_patch_value)
                        =~= vals_view(mid) + (g + spec_gen_patch_fields(fieldsv, i + 1, operation_path@, pats, is_patch_value)));
                }
                i = i + 1;
            }
            proof {
                assert(spec_gen_patch_fields(fieldsv, fieldsv.len() as int, operation_path@, pats, is_patch_value)
                    =~= Seq::<SpecValue>::empty());
                assert(vals_view(patch_operations@) + Seq::<SpecValue>::empty()
                    =~= vals_view(patch_operations@));
            }
        },
        _ => {
            proof {
                assert(vals_view(patch_operations@) =~= vals_view(before) + Seq::<
                    SpecValue,
                >::empty());
            }
        },
    }
}


/// Wraps every operation into a two-element batch: a `test` operation at the
/// same path, then the operation itself.
fn generate_test_operation(patch_operations: &Vec<Value>) -> (r: PatchData)
    ensures
        r@ == SpecPatchData::Batches(spec_batches(vals_view(patch_operations@))),
{
    let ghost opsv = vals_view(patch_operations@);
    proof {
        lemma_vals_view(patch_operations@);
    }
    let mut patch_batch: Vec<Vec<Value>> = Vec::new();
    let mut i: usize = 0;
    while i < patch_operations.len()
        invariant
            i <= patch_operations@.len(),
            opsv == vals_view(patch_operations@),
            opsv.len() == patch_operations@.len(),
            forall|j: int|
                0 <= j < patch_operations@.len() ==> opsv[j] == val_view(
                    #[trigger] patch_operations@[j],
                ),
            patch_batch@.len() == i,
            forall|j: int|
                0 <= j < i ==> vals_view((#[trigger] patch_batch@[j])@) == spec_batch_of(opsv[j]),
        decreases patch_operations@.len() - i,
    {
        let op = &patch_operations[i];
        let mut found_path: Option<String> = None;
        if let Value::Object(fields) = op {
            proof {
                lemma_fields_view(fields@);
                lemma_obj_index_of(fields_view(fields@), "path"@);
            }
            if let Some(pi) = object_find(fields, &"path".to_owned()) {
                if let Value::Str(p) = &fields[pi].1 {
                    found_path = Some(p.clone());
                }
            }
        }
        let mut batch: Vec<Value> = Vec::new();
        match found_path {
            Some(p) => {
                let test_fields: Vec<(String, Value)> = vec![
                    ("op".to_owned(), Value::Str("test".to_owned())),
                    ("path".to_owned(), Value::Str(p)),
                ];
                proof {
                    lemma_fields_view(test_fields@);
                    assert(fields_view(test_fields@) =~= spec_test_op(
                        test_fields@[1].1->Str_0@,
                    )->Object_0);
                }
                batch.push(Value::Object(test_fields));
                batch.push(op.clone());
                proof {
                    lemma_vals_view(batch@);
                    assert(vals_view(batch@) =~= seq![batch@[0]@, batch@[1]@]);
                    assert(vals_view(batch@) =~= spec_batch_of(opsv[i as int]));
                }
            },
            None => {
                batch.push(op.clone());
                proof {
                    lemma_vals_view(batch@);
                    assert(vals_view(batch@) =~= seq![batch@[0]@]);
                    assert(vals_view(batch@) =~= spec_batch_of(opsv[i as int]));
                }
            },
        }
        patch_batch.push(batch);
        i = i + 1;
    }
    proof {
        assert(Seq::new(patch_batch@.len(), |j: int| vals_view(patch_batch@[j]@)) =~= spec_batches(
            opsv,
        ));
    }
    PatchData::BatchesPatch(patch_batch)
}

/// Generates the operations for a fresh value tree, optionally batched.
fn process_json(json_value: &Value, regex_set: Option<&regex::RegexSet>, gen_test_operation: bool) -> (r:
    PatchData)
    ensures
        ({
            let ops = spec_gen(json_value@, Seq::empty(), opt_set_pats(regex_set));
            r@ == if gen_test_operation {
                SpecPatchData::Batches(spec_batches(ops))
            } else {
                SpecPatchData::Common(ops)
            }
        }),
{
    let mut patch_operations: Vec<Value> = Vec::new();
    proof {
        reveal_strlit("");
        assert(""@ =~= Seq::<char>::empty());
        assert(vals_view(patch_operations@) =~= Seq::<SpecValue>::empty());
    }
    gen_patch_from_json(json_value, "", regex_set, &mut patch_operations);
    proof {
        assert(vals_view(patch_operations@) =~= spec_gen(
            json_value@,
            Seq::empty(),
            opt_set_pats(regex_set),
        ));
    }
    if gen_test_operation {
        generate_test_operation(&patch_operations)
    } else {
        PatchData::CommonPatch(patch_operations)
    }
}

/// Generates the operations for an existing patch description, optionally
/// batched.
fn process_json_patch(
    json_value: &Value,
    regex_set: Option<&regex::RegexSet>,
    gen_test_operation: bool,
) -> (r: PatchData)
    ensures
        ({
            let ops = spec_gen_patch(json_value@, Seq::empty(), opt_set_pats(regex_set), false);
            r@ == if gen_test_operation {
                SpecPatchData::Batches(spec_batches(ops))
            } else {
                SpecPatchData::Common(ops)
            }
        }),
{
    let mut patch_operations: Vec<Value> = Vec::new();
    proof {
        reveal_strlit("");
        assert(""@ =~= Seq::<char>::empty());
        assert(vals_view(patch_operations@) =~= Seq::<SpecValue>::empty());
    }
    gen_patch_from_json_patch(json_value, "", regex_set, &mut patch_operations, false);
    proof {
        assert(vals_view(patch_operations@) =~= spec_gen_patch(
            json_value@,
            Seq::empty(),
            opt_set_pats(regex_set),
            false,
        ));
    }
    if gen_test_operation {
        generate_test_operation(&patch_operations)
    } else {
        PatchData::CommonPatch(patch_operations)
    }
}

/// What `generate_patch` produces: nothing for an unrecognized extension,
/// otherwise the operations of the walk the mode selects, optionally batched.
pub open spec fn spec_generate_patch(
    is_patch: bool,
    v: SpecValue,
    ext: Seq<char>,
    config: Map<Seq<char>, Seq<Seq<char>>>,
    gen_test: bool,
) -> SpecPatchData {
    if !config.contains_key(ext) {
        SpecPatchData::Common(Seq::empty())
    } else {
        let pats = if config[ext].len() == 0 {
            None
        } else {
            Some(config[ext])
        };
        let ops = if is_patch {
            spec_gen_patch(v, Seq::empty(), pats, false)
        } else {
            spec_gen(v, Seq::empty(), pats)
        };
        if gen_test {
            SpecPatchData::Batches(spec_batches(ops))
        } else {
            SpecPatchData::Common(ops)
        }
    }
}

/// Turns one parsed value into its list of patch operations, using the
/// matcher configured for the file's extension. An unrecognized extension
/// yields an empty flat list.
pub fn generate_patch(
    is_patch: bool,
    json_value: &Value,
    file_extension: &str,
    pattern_config: &PatternConfig,
    gen_test_operation: bool,
) -> (r: PatchData)
    requires
        pattern_config.wf(),
    ensures
        r@ == spec_generate_patch(
            is_patch,
            json_value@,
            file_extension@,
            pattern_config@,
            gen_test_operation,
        ),
{
    match pattern_config.get_pattern_set(file_extension) {
        Some(pattern_set) => {
            let rs = pattern_set.get_regex();
            proof {
                assert(opt_set_pats(rs) == (if pattern_config@[file_extension@].len() == 0 {
                    None::<Seq<Seq<char>>>
                } else {
                    Some(pattern_config@[file_extension@])
                }));
            }
            if is_patch {
                process_json_patch(json_value, rs, gen_test_operation)
            } else {
                process_json(json_value, rs, gen_test_operation)
            }
        },
        None => {
            let empty: Vec<Value> = Vec::new();
            proof {
                assert(vals_view(empty@) =~= Seq::<SpecValue>::empty());
            }
            PatchData::CommonPatch(empty)
        },
    }
}

} // verus!
