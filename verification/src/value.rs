//! The tree value model: a JSON-like tagged union over null, booleans,
//! integers, strings, ordered arrays and string-keyed objects.

use vstd::prelude::*;

verus! {

broadcast use vstd::std_specs::vec::group_vec_axioms, vstd::seq::group_seq_axioms;

/// Mathematical model of a tree value. Strings are character sequences,
/// arrays are sequences of models, objects are association sequences.
pub enum Val {
    Null,
    Bool(bool),
    Num(int),
    Str(Seq<char>),
    Arr(Seq<Val>),
    Obj(Seq<(Seq<char>, Val)>),
}

/// A tree value: the data that paths address, read and mutate.
#[derive(Debug, PartialEq)]
pub enum Value {
    Null,
    Bool(bool),
    Number(i64),
    String(String),
    Array(Vec<Value>),
    Object(Vec<(String, Value)>),
}

pub open spec fn val_of(v: Value) -> Val
    decreases v,
{
    match v {
        Value::Null => Val::Null,
        Value::Bool(b) => Val::Bool(b),
        Value::Number(n) => Val::Num(n as int),
        Value::String(s) => Val::Str(s@),
        Value::Array(items) => Val::Arr(vals_of(items@)),
        Value::Object(entries) => Val::Obj(entry_vals_of(entries@)),
    }
}

pub open spec fn vals_of(items: Seq<Value>) -> Seq<Val>
    decreases items,
{
    if items.len() == 0 {
        Seq::empty()
    } else {
        vals_of(items.drop_last()).push(val_of(items.last()))
    }
}

pub open spec fn entry_vals_of(entries: Seq<(String, Value)>) -> Seq<(Seq<char>, Val)>
    decreases entries,
{
    if entries.len() == 0 {
        Seq::empty()
    } else {
        entry_vals_of(entries.drop_last()).push(
            (entries.last().0@, val_of(entries.last().1)),
        )
    }
}

pub broadcast proof fn lemma_vals_of_len(items: Seq<Value>)
    ensures
        (#[trigger] vals_of(items)).len() == items.len(),
    decreases items.len(),
{
    if items.len() > 0 {
        lemma_vals_of_len(items.drop_last());
    }
}

pub broadcast proof fn lemma_vals_of_index(items: Seq<Value>, i: int)
    requires
        0 <= i < items.len(),
    ensures
        #[trigger] vals_of(items)[i] == val_of(items[i]),
    decreases items.len(),
{
    lemma_vals_of_len(items);
    if i < items.len() - 1 {
        lemma_vals_of_index(items.drop_last(), i);
        lemma_vals_of_len(items.drop_last());
    }
}

pub broadcast proof fn lemma_entry_vals_of_len(entries: Seq<(String, Value)>)
    ensures
        (#[trigger] entry_vals_of(entries)).len() == entries.len(),
    decreases entries.len(),
{
    if entries.len() > 0 {
        lemma_entry_vals_of_len(entries.drop_last());
    }
}

pub broadcast proof fn lemma_entry_vals_of_index(entries: Seq<(String, Value)>, i: int)
    requires
        0 <= i < entries.len(),
    ensures
        #[trigger] entry_vals_of(entries)[i] == (entries[i].0@, val_of(entries[i].1)),
    decreases entries.len(),
{
    lemma_entry_vals_of_len(entries);
    if i < entries.len() - 1 {
        lemma_entry_vals_of_index(entries.drop_last(), i);
        lemma_entry_vals_of_len(entries.drop_last());
    }
}

pub broadcast group group_val_lemmas {
    lemma_vals_of_len,
    lemma_vals_of_index,
    lemma_entry_vals_of_len,
    lemma_entry_vals_of_index,
}

impl View for Value {
    type V = Val;

    open spec fn view(&self) -> Val {
        val_of(*self)
    }
}

/// The tree invariant: within every object, keys are unique.
pub open spec fn val_wf(v: Val) -> bool
    decreases v, 0int,
{
    match v {
        Val::Arr(items) => arr_wf(items, 0),
        Val::Obj(entries) => obj_keys_distinct(entries) && obj_wf(entries, 0),
        _ => true,
    }
}

pub open spec fn obj_keys_distinct(entries: Seq<(Seq<char>, Val)>) -> bool {
    forall|a: int, b: int| 0 <= a < b < entries.len() ==> entries[a].0 != entries[b].0
}

pub open spec fn arr_wf(items: Seq<Val>, j: int) -> bool
    decreases items, items.len() - j + 1,
{
    if j < 0 || j >= items.len() {
        true
    } else {
        val_wf(items[j]) && arr_wf(items, j + 1)
    }
}

pub open spec fn obj_wf(entries: Seq<(Seq<char>, Val)>, j: int) -> bool
    decreases entries, entries.len() - j + 1,
{
    if j < 0 || j >= entries.len() {
        true
    } else {
        val_wf(entries[j].1) && obj_wf(entries, j + 1)
    }
}

/// In a well-formed array every element is well formed.
pub proof fn lemma_arr_wf_index(items: Seq<Val>, j: int)
    requires
        arr_wf(items, 0),
        0 <= j < items.len(),
    ensures
        val_wf(items[j]),
{
    lemma_arr_wf_index_from(items, 0, j);
}

proof fn lemma_arr_wf_index_from(items: Seq<Val>, j0: int, j: int)
    requires
        arr_wf(items, j0),
        0 <= j0 <= j < items.len(),
    ensures
        val_wf(items[j]),
    decreases j - j0,
{
    if j0 < j {
        lemma_arr_wf_index_from(items, j0 + 1, j);
    }
}

/// In a well-formed object every entry's value is well formed.
pub proof fn lemma_obj_wf_index(entries: Seq<(Seq<char>, Val)>, j: int)
    requires
        obj_wf(entries, 0),
        0 <= j < entries.len(),
    ensures
        val_wf(entries[j].1),
{
    lemma_obj_wf_index_from(entries, 0, j);
}

proof fn lemma_obj_wf_index_from(entries: Seq<(Seq<char>, Val)>, j0: int, j: int)
    requires
        obj_wf(entries, j0),
        0 <= j0 <= j < entries.len(),
    ensures
        val_wf(entries[j].1),
    decreases j - j0,
{
    if j0 < j {
        lemma_obj_wf_index_from(entries, j0 + 1, j);
    }
}

/// Deep copy of a tree value; the copy has the same model.
#[verifier::loop_isolation(false)]
fn clone_value(v: &Value) -> (r: Value)
    ensures
        r@ == v@,
    decreases *v,
{
    broadcast use group_val_lemmas;

    match v {
        Value::Null => Value::Null,
        Value::Bool(b) => Value::Bool(*b),
        Value::Number(n) => Value::Number(*n),
        Value::String(s) => Value::String(s.clone()),
        Value::Array(items) => {
            let mut out: Vec<Value> = Vec::new();
            let mut i: usize = 0;
            while i < items.len()
                invariant
                    i <= items.len(),
                    out@.len() == i,
                    forall|j: int| 0 <= j < i ==> out@[j]@ == items@[j]@,
                decreases items.len() - i,
            {
                proof {
                    assert(decreases_to!(*v => *items));
                    assert(decreases_to!(*items => items@));
                    assert(decreases_to!(items@ => items@[i as int]));
                    assert(decreases_to!(*v => items@[i as int]));
                }
                out.push(clone_value(&items[i]));
                i = i + 1;
            }
            let r = Value::Array(out);
            proof {
                assert(vals_of(out@) =~= vals_of(items@));
            }
            r
        },
        Value::Object(entries) => {
            let mut out: Vec<(String, Value)> = Vec::new();
            let mut i: usize = 0;
            while i < entries.len()
                invariant
                    i <= entries.len(),
                    out@.len() == i,
                    forall|j: int| 0 <= j < i ==> out@[j].0@ == entries@[j].0@
                        && out@[j].1@ == entries@[j].1@,
                decreases entries.len() - i,
            {
                proof {
                    assert(decreases_to!(*v => *entries));
                    assert(decreases_to!(*entries => entries@));
                    assert(decreases_to!(entries@ => entries@[i as int]));
                    assert(decreases_to!(entries@[i as int] => entries@[i as int].1));
                    assert(decreases_to!(*v => entries@[i as int].1));
                }
                let (k, val) = &entries[i];
                out.push((k.clone(), clone_value(val)));
                i = i + 1;
            }
            let r = Value::Object(out);
            proof {
                assert(entry_vals_of(out@) =~= entry_vals_of(entries@));
            }
            r
        },
    }
}

/// Decides whether two tree values have the same model: same kind, same
/// contents, recursively.
#[verifier::loop_isolation(false)]
pub fn value_eq(a: &Value, b: &Value) -> (r: bool)
    ensures
        r == (a@ == b@),
    decreases *a,
{
    broadcast use group_val_lemmas;

    match (a, b) {
        (Value::Null, Value::Null) => true,
        (Value::Bool(x), Value::Bool(y)) => x == y,
        (Value::Number(x), Value::Number(y)) => x == y,
        (Value::String(x), Value::String(y)) => x.eq(y),
        (Value::Array(xs), Value::Array(ys)) => {
            if xs.len() != ys.len() {
                proof {
                    assert(vals_of(xs@).len() != vals_of(ys@).len());
                }
                false
            } else {
                let mut i: usize = 0;
                let mut same: bool = true;
                while i < xs.len()
                    invariant
                        i <= xs@.len(),
                        same ==> forall|t: int| 0 <= t < i ==> vals_of(xs@)[t] == vals_of(ys@)[t],
                        !same ==> vals_of(xs@) != vals_of(ys@),
                    decreases xs@.len() - i,
                {
                    if same {
                        proof {
                            assert(decreases_to!(*a => *xs));
                            assert(decreases_to!(*xs => xs@));
                            assert(decreases_to!(xs@ => xs@[i as int]));
                            assert(decreases_to!(*a => xs@[i as int]));
                        }
                        if !value_eq(&xs[i], &ys[i]) {
                            proof {
                                assert(vals_of(xs@)[i as int] != vals_of(ys@)[i as int]);
                            }
                            same = false;
                        }
                    }
                    i = i + 1;
                }
                proof {
                    if same {
                        assert(vals_of(xs@) =~= vals_of(ys@));
                    }
                }
                same
            }
        },
        (Value::Object(xs), Value::Object(ys)) => {
            if xs.len() != ys.len() {
                proof {
                    assert(entry_vals_of(xs@).len() != entry_vals_of(ys@).len());
                }
                false
            } else {
                let mut i: usize = 0;
                let mut same: bool = true;
                while i < xs.len()
                    invariant
                        i <= xs@.len(),
                        same ==> forall|t: int|
                            0 <= t < i ==> entry_vals_of(xs@)[t] == entry_vals_of(ys@)[t],
                        !same ==> entry_vals_of(xs@) != entry_vals_of(ys@),
                    decreases xs@.len() - i,
                {
                    if same {
                        proof {
                            assert(decreases_to!(*a => *xs));
                            assert(decreases_to!(*xs => xs@));
                            assert(decreases_to!(xs@ => xs@[i as int]));
                            assert(decreases_to!(xs@[i as int] => xs@[i as int].1));
                            assert(decreases_to!(*a => xs@[i as int].1));
                        }
                        let keys_match = xs[i].0.eq(&ys[i].0);
                        if !(keys_match && value_eq(&xs[i].1, &ys[i].1)) {
                            proof {
                                assert(entry_vals_of(xs@)[i as int] != entry_vals_of(ys@)[i as int]);
                            }
                            same = false;
                        }
                    }
                    i = i + 1;
                }
                proof {
                    if same {
                        assert(entry_vals_of(xs@) =~= entry_vals_of(ys@));
                    }
                }
                same
            }
        },
        _ => {
            proof {
                assert(a@ != b@);
            }
            false
        },
    }
}

impl Clone for Value {
    /// The copy is deep: it has the same model as the original.
    fn clone(&self) -> (r: Value)
        ensures
            r@ == self@,
    {
        clone_value(self)
    }
}

} // verus!
