//! The in-memory value model: a tagged tree of nulls, booleans, numbers,
//! strings, arrays and insertion-ordered objects, together with its
//! mathematical view.
//!
//! Numbers follow an exact policy: a value with zero fractional part that
//! fits the signed 64-bit range is an integer, one that is non-negative and
//! fits the unsigned 64-bit range likewise; every other magnitude keeps its
//! source lexeme and is rendered as floating point by the caller that
//! serializes the tree. The dedicated infinity and not-a-number literal
//! forms have variants of their own.

use vstd::prelude::*;

verus! {

broadcast use vstd::std_specs::vec::group_vec_axioms, vstd::seq::axiom_seq_index_decreases;

/// The magnitude of a number that is not representable as an exact 64-bit
/// integer, kept as its source lexeme. For `hex` lexemes the text is the
/// full `0x`-prefixed form.
#[derive(Debug, PartialEq)]
pub struct FloatLex {
    /// True when the number carried a leading minus sign.
    pub negative: bool,
    /// True when the lexeme is a hexadecimal literal.
    pub hex: bool,
    /// The unsigned part of the lexeme as written in the source.
    pub lexeme: String,
}

#[derive(Debug, PartialEq)]
pub enum Num {
    /// An exact integer in the signed 64-bit range.
    Int(i64),
    /// An exact integer above the signed range, in the unsigned 64-bit range.
    UInt(u64),
    /// Any other finite magnitude, kept as its lexeme.
    Float(FloatLex),
    /// A signed infinity from the dedicated literal path; true means negative.
    Inf(bool),
    /// A not-a-number value from the dedicated literal path.
    NaN,
}

#[derive(Debug, PartialEq)]
pub enum Value {
    Null,
    Bool(bool),
    Num(Num),
    Str(String),
    Array(Vec<Value>),
    Object(Vec<(String, Value)>),
}

#[verifier::ext_equal]
pub enum SpecNum {
    Int(int),
    Float { negative: bool, hex: bool, lexeme: Seq<char> },
    Inf(bool),
    NaN,
}

#[verifier::ext_equal]
pub enum SpecValue {
    Null,
    Bool(bool),
    Num(SpecNum),
    Str(Seq<char>),
    Array(Seq<SpecValue>),
    Object(Seq<(Seq<char>, SpecValue)>),
}

impl View for Num {
    type V = SpecNum;

    open spec fn view(&self) -> SpecNum {
        match self {
            Num::Int(i) => SpecNum::Int(*i as int),
            Num::UInt(u) => SpecNum::Int(*u as int),
            Num::Float(f) => SpecNum::Float {
                negative: f.negative,
                hex: f.hex,
                lexeme: f.lexeme@,
            },
            Num::Inf(neg) => SpecNum::Inf(*neg),
            Num::NaN => SpecNum::NaN,
        }
    }
}

pub open spec fn val_view(v: Value) -> SpecValue
    decreases v, 1int,
    via val_view_dec
{
    match v {
        Value::Null => SpecValue::Null,
        Value::Bool(b) => SpecValue::Bool(b),
        Value::Num(n) => SpecValue::Num(n@),
        Value::Str(s) => SpecValue::Str(s@),
        Value::Array(items) => SpecValue::Array(vals_view(items@)),
        Value::Object(fields) => SpecValue::Object(fields_view(fields@)),
    }
}

pub open spec fn vals_view(s: Seq<Value>) -> Seq<SpecValue>
    decreases s, 0int,
    via vals_view_dec
{
    if s.len() == 0 {
        Seq::empty()
    } else {
        vals_view(s.drop_last()).push(val_view(s.last()))
    }
}

pub open spec fn fields_view(s: Seq<(String, Value)>) -> Seq<(Seq<char>, SpecValue)>
    decreases s, 0int,
    via fields_view_dec
{
    if s.len() == 0 {
        Seq::empty()
    } else {
        fields_view(s.drop_last()).push((s.last().0@, val_view(s.last().1)))
    }
}

#[via_fn]
proof fn val_view_dec(v: Value) {
    broadcast use vstd::std_specs::vec::group_vec_axioms;

    match v {
        Value::Array(items) => {
            assert(decreases_to!(v => items));
        },
        Value::Object(fields) => {
            assert(decreases_to!(v => fields));
        },
        _ => {},
    }
}

#[via_fn]
proof fn vals_view_dec(s: Seq<Value>) {
    broadcast use vstd::seq::axiom_seq_index_decreases;

    if s.len() > 0 {
        vstd::seq::axiom_seq_len_decreases(s, s.drop_last());
        assert(decreases_to!(s => s.last()));
    }
}

#[via_fn]
proof fn fields_view_dec(s: Seq<(String, Value)>) {
    broadcast use vstd::seq::axiom_seq_index_decreases;

    if s.len() > 0 {
        vstd::seq::axiom_seq_len_decreases(s, s.drop_last());
        assert(decreases_to!(s => s.last()));
        assert(decreases_to!(s.last() => s.last().1));
    }
}

impl View for Value {
    type V = SpecValue;

    open spec fn view(&self) -> SpecValue {
        val_view(*self)
    }
}

/// Index form of `vals_view`: the view of a sequence of values is the
/// pointwise view.
pub proof fn lemma_vals_view(s: Seq<Value>)
    ensures
        vals_view(s).len() == s.len(),
        forall|i: int| 0 <= i < s.len() ==> vals_view(s)[i] == val_view(s[i]),
    decreases s.len(),
{
    if s.len() > 0 {
        lemma_vals_view(s.drop_last());
    }
}

/// Index form of `fields_view`.
pub proof fn lemma_fields_view(s: Seq<(String, Value)>)
    ensures
        fields_view(s).len() == s.len(),
        forall|i: int|
            0 <= i < s.len() ==> fields_view(s)[i] == (s[i].0@, val_view(s[i].1)),
    decreases s.len(),
{
    if s.len() > 0 {
        lemma_fields_view(s.drop_last());
    }
}

/// Elements of an array or object stand below the whole value in the
/// termination order of recursive walks.
pub proof fn lemma_array_elem_decreases(v: Value, items: Vec<Value>, i: int)
    requires
        v == Value::Array(items),
        0 <= i < items@.len(),
    ensures
        decreases_to!(v => items@[i]),
{
    broadcast use vstd::std_specs::vec::group_vec_axioms, vstd::seq::axiom_seq_index_decreases;

    match v {
        Value::Array(its) => {
            assert(decreases_to!(v => its));
            assert(decreases_to!(its => its@));
            assert(decreases_to!(its@ => its@[i]));
        },
        _ => {},
    }
}

pub proof fn lemma_object_elem_decreases(v: Value, fields: Vec<(String, Value)>, i: int)
    requires
        v == Value::Object(fields),
        0 <= i < fields@.len(),
    ensures
        decreases_to!(v => fields@[i].1),
{
    broadcast use vstd::std_specs::vec::group_vec_axioms, vstd::seq::axiom_seq_index_decreases;

    match v {
        Value::Object(flds) => {
            assert(decreases_to!(v => flds));
            assert(decreases_to!(flds => flds@));
            assert(decreases_to!(flds@ => flds@[i]));
            assert(decreases_to!(flds@[i] => flds@[i].1));
        },
        _ => {},
    }
}

/// The index of the first field named `k`, or -1 when there is none.
pub open spec fn obj_index_of(fields: Seq<(Seq<char>, SpecValue)>, k: Seq<char>) -> int
    decreases fields.len(),
{
    if fields.len() == 0 {
        -1
    } else if fields[0].0 == k {
        0
    } else {
        let r = obj_index_of(fields.drop_first(), k);
        if r == -1 {
            -1
        } else {
            r + 1
        }
    }
}

pub proof fn lemma_obj_index_of(fields: Seq<(Seq<char>, SpecValue)>, k: Seq<char>)
    ensures
        obj_index_of(fields, k) == -1 ==> forall|i: int|
            0 <= i < fields.len() ==> fields[i].0 != k,
        obj_index_of(fields, k) != -1 ==> {
            let r = obj_index_of(fields, k);
            &&& 0 <= r < fields.len()
            &&& fields[r].0 == k
            &&& forall|i: int| 0 <= i < r ==> fields[i].0 != k
        },
    decreases fields.len(),
{
    if fields.len() > 0 {
        lemma_obj_index_of(fields.drop_first(), k);
        assert(forall|i: int|
            1 <= i < fields.len() ==> #[trigger] fields[i] == fields.drop_first()[i - 1]);
    }
}

/// The value of the first field named `k`, if any.
pub open spec fn obj_get(fields: Seq<(Seq<char>, SpecValue)>, k: Seq<char>) -> Option<SpecValue> {
    if obj_index_of(fields, k) == -1 {
        None
    } else {
        Some(fields[obj_index_of(fields, k)].1)
    }
}

/// Ordered-map update: a later duplicate key overwrites the earlier value
/// while keeping the position of the first insertion.
pub open spec fn obj_update(
    fields: Seq<(Seq<char>, SpecValue)>,
    k: Seq<char>,
    v: SpecValue,
) -> Seq<(Seq<char>, SpecValue)> {
    let r = obj_index_of(fields, k);
    if r == -1 {
        fields.push((k, v))
    } else {
        fields.update(r, (k, v))
    }
}

impl Clone for FloatLex {
    fn clone(&self) -> (r: FloatLex)
        ensures
            r == *self,
    {
        FloatLex { negative: self.negative, hex: self.hex, lexeme: self.lexeme.clone() }
    }
}

impl Clone for Num {
    fn clone(&self) -> (r: Num)
        ensures
            r == *self,
    {
        match self {
            Num::Int(i) => Num::Int(*i),
            Num::UInt(u) => Num::UInt(*u),
            Num::Float(f) => Num::Float(f.clone()),
            Num::Inf(neg) => Num::Inf(*neg),
            Num::NaN => Num::NaN,
        }
    }
}

impl Clone for Value {
    /// A deep copy whose view equals the view of the original.
    fn clone(&self) -> (r: Value)
        ensures
            r@ == self@,
        decreases self,
    {
        match self {
            Value::Null => Value::Null,
            Value::Bool(b) => Value::Bool(*b),
            Value::Num(n) => Value::Num(n.clone()),
            Value::Str(s) => Value::Str(s.clone()),
            Value::Array(items) => {
                let mut out: Vec<Value> = Vec::new();
                let mut i: usize = 0;
                while i < items.len()
                    invariant
                        *self == Value::Array(*items),
                        i <= items@.len(),
                        out@.len() == i,
                        forall|j: int| 0 <= j < i ==> out@[j]@ == items@[j]@,
                    decreases items@.len() - i,
                {
                    proof {
                        assert(*self == Value::Array(*items));
                        lemma_array_elem_decreases(*self, *items, i as int);
                    }
                    out.push(items[i].clone());
                    i = i + 1;
                }
                proof {
                    lemma_vals_view(out@);
                    lemma_vals_view(items@);
                    assert(vals_view(out@) =~= vals_view(items@));
                }
                Value::Array(out)
            },
            Value::Object(fields) => {
                let mut out: Vec<(String, Value)> = Vec::new();
                let mut i: usize = 0;
                while i < fields.len()
                    invariant
                        *self == Value::Object(*fields),
                        i <= fields@.len(),
                        out@.len() == i,
                        forall|j: int|
                            0 <= j < i ==> out@[j].0@ == fields@[j].0@ && out@[j].1@
                                == fields@[j].1@,
                    decreases fields@.len() - i,
                {
                    proof {
                        assert(*self == Value::Object(*fields));
                        lemma_object_elem_decreases(*self, *fields, i as int);
                    }
                    let kv = &fields[i];
                    out.push((kv.0.clone(), kv.1.clone()));
                    i = i + 1;
                }
                proof {
                    lemma_fields_view(out@);
                    lemma_fields_view(fields@);
                    assert(fields_view(out@) =~= fields_view(fields@));
                }
                Value::Object(out)
            },
        }
    }
}

/// Looks up the first field named `key`, returning its index.
pub fn object_find(fields: &Vec<(String, Value)>, key: &String) -> (r: Option<usize>)
    ensures
        match r {
            Some(i) => 0 <= i < fields@.len() && obj_index_of(fields_view(fields@), key@)
                == i as int,
            None => obj_index_of(fields_view(fields@), key@) == -1,
        },
{
    let ghost m = fields_view(fields@);
    proof {
        lemma_fields_view(fields@);
    }
    let mut i: usize = 0;
    while i < fields.len()
        invariant
            i <= fields@.len(),
            m == fields_view(fields@),
            m.len() == fields@.len(),
            forall|j: int| 0 <= j < fields@.len() ==> m[j].0 == fields@[j].0@,
            forall|j: int| 0 <= j < i ==> m[j].0 != key@,
        decreases fields@.len() - i,
    {
        if fields[i].0 == *key {
            proof {
                lemma_obj_index_of(m, key@);
                assert(m[i as int].0 == key@);
            }
            return Some(i);
        }
        i = i + 1;
    }
    proof {
        lemma_obj_index_of(m, key@);
    }
    None
}

/// Inserts `(k, v)`, overwriting the value of an existing field named `k`
/// in place.
pub fn object_set(fields: &mut Vec<(String, Value)>, k: String, v: Value)
    ensures
        fields_view(final(fields)@) == obj_update(fields_view(old(fields)@), k@, v@),
{
    let ghost m = fields_view(old(fields)@);
    proof {
        lemma_fields_view(old(fields)@);
    }
    match object_find(fields, &k) {
        Some(i) => {
            proof {
                lemma_obj_index_of(m, k@);
            }
            fields.set(i, (k, v));
            proof {
                lemma_fields_view(fields@);
                assert(fields_view(fields@) =~= obj_update(m, k@, v@));
            }
        },
        None => {
            fields.push((k, v));
            proof {
                lemma_fields_view(fields@);
                assert(fields_view(fields@) =~= obj_update(m, k@, v@));
            }
        },
    }
}

} // verus!

