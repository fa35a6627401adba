//! Reading a value out of a tree by path.

use vstd::prelude::*;

verus! {

use vstd::string::StringExecFns;
use crate::digits::{parse_usize_chars, parse_usize_spec, push_digits};
use crate::text::str_to_chars;
use crate::types::{
    err_matches, has_variables, key_string, kind_name, oob_message, ErrModel, KeyModel, SegModel,
    Segment, SegmentKey, Structpath, StructpathError,
};
use crate::value::{Val, Value};
use crate::digits::i64_to_string;

broadcast use crate::value::group_val_lemmas;

/// Variable bindings: names mapped to string values, supplied by the caller.
/// A later binding for the same name replaces the earlier one.
#[derive(Debug, PartialEq)]
pub struct Bindings {
    entries: Vec<(String, String)>,
}

pub open spec fn bindings_map(s: Seq<(String, String)>) -> Map<Seq<char>, Seq<char>>
    decreases s.len(),
{
    if s.len() == 0 {
        Map::empty()
    } else {
        bindings_map(s.drop_last()).insert(s.last().0@, s.last().1@)
    }
}

impl View for Bindings {
    type V = Map<Seq<char>, Seq<char>>;

    closed spec fn view(&self) -> Map<Seq<char>, Seq<char>> {
        bindings_map(self.entries@)
    }
}

/// If no entry from position `m` on has the looked-up name, the whole map
/// agrees with the prefix before `m` on that name.
proof fn lemma_bindings_map_prefix(s: Seq<(String, String)>, m: int, k: Seq<char>)
    requires
        0 <= m <= s.len(),
        forall|j: int| m <= j < s.len() ==> (#[trigger] s[j]).0@ != k,
    ensures
        bindings_map(s).contains_key(k) == bindings_map(s.take(m)).contains_key(k),
        bindings_map(s).contains_key(k) ==> bindings_map(s)[k] == bindings_map(s.take(m))[k],
    decreases s.len() - m,
{
    if m == s.len() {
        assert(s.take(m) =~= s);
    } else {
        assert(s.take(s.len() - 1) =~= s.drop_last());
        lemma_bindings_map_prefix(s.drop_last(), m, k);
        assert(s.drop_last().take(m) =~= s.take(m));
        assert(s.last() == s[s.len() - 1]);
    }
}

impl Bindings {
    /// An empty set of bindings.
    pub fn new() -> (r: Bindings)
        ensures
            r@ == Map::<Seq<char>, Seq<char>>::empty(),
    {
        let r = Bindings { entries: Vec::new() };
        proof {
            assert(r@ =~= Map::<Seq<char>, Seq<char>>::empty());
        }
        r
    }

    /// Binds a name to a string value, replacing any earlier binding.
    pub fn insert(&mut self, name: &str, value: &str)
        ensures
            final(self)@ == old(self)@.insert(name@, value@),
    {
        self.entries.push((name.to_owned(), value.to_owned()));
        proof {
            assert(self.entries@.drop_last() =~= old(self).entries@);
        }
    }

    /// The value bound to a name, if any.
    pub fn lookup(&self, name: &str) -> (r: Option<&String>)
        ensures
            match r {
                Some(v) => self@.contains_key(name@) && v@ == self@[name@],
                None => !self@.contains_key(name@),
            },
    {
        let owned = name.to_owned();
        let mut i: usize = self.entries.len();
        while i > 0
            invariant
                i <= self.entries@.len(),
                owned@ == name@,
                forall|j: int|
                    i <= j < self.entries@.len() ==> (#[trigger] self.entries@[j]).0@ != name@,
            decreases i,
        {
            i = i - 1;
            if self.entries[i].0.eq(&owned) {
                proof {
                    lemma_bindings_map_prefix(self.entries@, i + 1 as int, name@);
                    assert(self.entries@.take(i + 1 as int).drop_last() =~= self.entries@.take(
                        i as int,
                    ));
                    assert(self.entries@.take(i + 1 as int).last() == self.entries@[i as int]);
                }
                return Some(&self.entries[i].1);
            }
        }
        proof {
            lemma_bindings_map_prefix(self.entries@, 0, name@);
            assert(self.entries@.take(0) =~= Seq::<(String, String)>::empty());
        }
        None
    }
}

/// The first value under a key in an association sequence.
pub open spec fn lookup_obj(entries: Seq<(Seq<char>, Val)>, key: Seq<char>) -> Option<Val>
    decreases entries.len(),
{
    if entries.len() == 0 {
        None
    } else if entries.first().0 == key {
        Some(entries.first().1)
    } else {
        lookup_obj(entries.drop_first(), key)
    }
}

/// Looking up a key in an object; anything else is a type mismatch.
pub open spec fn get_key(v: Val, key: Seq<char>) -> Result<Val, ErrModel> {
    match v {
        Val::Obj(es) => match lookup_obj(es, key) {
            Some(c) => Ok(c),
            None => Err(ErrModel::NotFound),
        },
        _ => Err(ErrModel::WrongType { want_object: true, found: v }),
    }
}

/// Indexing an array; anything else is a type mismatch.
pub open spec fn get_index(v: Val, n: int) -> Result<Val, ErrModel> {
    match v {
        Val::Arr(items) => if 0 <= n < items.len() {
            Ok(items[n])
        } else {
            Err(ErrModel::OutOfBounds { idx: n, len: items.len() as int })
        },
        _ => Err(ErrModel::WrongType { want_object: false, found: v }),
    }
}

/// Resolving the path from segment `i` on, starting at value `v`, under
/// bindings `m`. The first failure is the result.
pub open spec fn get_rec(
    segs: Seq<SegModel>,
    i: int,
    v: Val,
    m: Map<Seq<char>, Seq<char>>,
) -> Result<Val, ErrModel>
    decreases segs.len() - i,
{
    if i < 0 || i >= segs.len() {
        Ok(v)
    } else {
        let step = match segs[i] {
            SegModel::Key(k) => get_key(v, key_string(k)),
            SegModel::Index(n) => get_index(v, n),
            SegModel::KeyVar(x) => if !m.contains_key(x) {
                Err(ErrModel::MissingVar(x))
            } else {
                get_key(v, m[x])
            },
            SegModel::IndexVar(x) => if !m.contains_key(x) {
                Err(ErrModel::MissingVar(x))
            } else {
                match parse_usize_spec(m[x]) {
                    Some(n) => get_index(v, n),
                    None => Err(ErrModel::BadVarValue(m[x])),
                }
            },
        };
        match step {
            Ok(child) => get_rec(segs, i + 1, child, m),
            Err(e) => Err(e),
        }
    }
}

pub open spec fn opt_bindings_view(vars: Option<&Bindings>) -> Option<Map<Seq<char>, Seq<char>>> {
    match vars {
        Some(b) => Some(b@),
        None => None,
    }
}

/// What `get` returns: a path with variables demands a variable context;
/// then the tree is walked one segment at a time from the root.
pub open spec fn get_spec(
    segs: Seq<SegModel>,
    v: Val,
    vars: Option<Map<Seq<char>, Seq<char>>>,
) -> Result<Val, ErrModel> {
    if has_variables(segs) && vars is None {
        Err(ErrModel::Parse)
    } else {
        get_rec(
            segs,
            0,
            v,
            match vars {
                Some(m) => m,
                None => Map::empty(),
            },
        )
    }
}

/// The word naming this value's kind.
pub fn kind_name_string(v: &Value) -> (r: String)
    ensures
        r@ == kind_name(v@),
{
    let mut s = String::new();
    match v {
        Value::Null => s.append("null"),
        Value::Bool(_) => s.append("boolean"),
        Value::Number(_) => s.append("number"),
        Value::String(_) => s.append("string"),
        Value::Array(_) => s.append("array"),
        Value::Object(_) => s.append("object"),
    }
    s
}

/// The exact diagnostic for an index `idx` against an array of length `len`.
fn oob_error(idx: usize, len: usize) -> (r: StructpathError)
    ensures
        err_matches(r, ErrModel::OutOfBounds { idx: idx as int, len: len as int }),
{
    let mut m = String::new();
    m.append("Index ");
    push_digits(&mut m, idx as u64);
    m.append(" out of bounds for array of length ");
    push_digits(&mut m, len as u64);
    proof {
        assert(m@ =~= oob_message(idx as int, len as int));
    }
    StructpathError::IndexOutOfBounds(m)
}

fn wrong_type_error(want_object: bool, v: &Value) -> (r: StructpathError)
    ensures
        err_matches(r, ErrModel::WrongType { want_object, found: v@ }),
{
    let expected = if want_object {
        "object"
    } else {
        "array"
    };
    StructpathError::InvalidPath { expected: expected.to_owned(), found: kind_name_string(v) }
}

/// Looks a key up in the current value, which must be an object.
#[verifier::loop_isolation(false)]
fn get_by_string_key<'a>(data: &'a Value, key: &String) -> (r: Result<&'a Value, StructpathError>)
    ensures
        match get_key(data@, key@) {
            Ok(c) => r matches Ok(v) && v@ == c,
            Err(m) => r matches Err(e) && err_matches(e, m),
        },
{
    match data {
        Value::Object(entries) => {
            let ghost ev = crate::value::entry_vals_of(entries@);
            proof {
                crate::value::lemma_entry_vals_of_len(entries@);
                assert(ev.skip(0) =~= ev);
            }
            let mut j: usize = 0;
            while j < entries.len()
                invariant
                    j <= entries@.len(),
                    ev == crate::value::entry_vals_of(entries@),
                    ev.len() == entries@.len(),
                    forall|t: int| 0 <= t < j ==> (#[trigger] ev[t]).0 != key@,
                    lookup_obj(ev, key@) == lookup_obj(ev.skip(j as int), key@),
                decreases entries@.len() - j,
            {
                proof {
                    crate::value::lemma_entry_vals_of_index(entries@, j as int);
                }
                if entries[j].0.eq(key) {
                    proof {
                        assert(ev.skip(j as int).first() == ev[j as int]);
                        assert(ev[j as int].0 == key@);
                        assert(lookup_obj(ev, key@) == Some(ev[j as int].1));
                    }
                    return Ok(&entries[j].1);
                }
                proof {
                    assert(ev.skip(j as int).first() == ev[j as int]);
                    assert(ev.skip(j as int).drop_first() =~= ev.skip(j + 1 as int));
                }
                j = j + 1;
            }
            proof {
                assert(ev.skip(entries@.len() as int) =~= Seq::<(Seq<char>, Val)>::empty());
            }
            Err(StructpathError::NotFound)
        },
        _ => Err(wrong_type_error(true, data)),
    }
}

/// Indexes into the current value, which must be an array.
fn get_by_index<'a>(data: &'a Value, idx: usize) -> (r: Result<&'a Value, StructpathError>)
    ensures
        match get_index(data@, idx as int) {
            Ok(c) => r matches Ok(v) && v@ == c,
            Err(m) => r matches Err(e) && err_matches(e, m),
        },
{
    match data {
        Value::Array(items) => {
            proof {
                crate::value::lemma_vals_of_len(items@);
            }
            if idx < items.len() {
                proof {
                    crate::value::lemma_vals_of_index(items@, idx as int);
                }
                Ok(&items[idx])
            } else {
                Err(oob_error(idx, items.len()))
            }
        },
        _ => Err(wrong_type_error(false, data)),
    }
}

/// Whether the path holds any variable segment.
pub(crate) fn path_has_variables(path: &Structpath) -> (r: bool)
    ensures
        r == has_variables(path@),
{
    let segs = path.segments();
    let mut i: usize = 0;
    while i < segs.len()
        invariant
            i <= segs@.len(),
            segs@.len() == path@.len(),
            forall|j: int| 0 <= j < segs@.len() ==> segs@[j]@ == path@[j],
            forall|j: int| 0 <= j < i ==> crate::types::seg_var_name(#[trigger] path@[j]) is None,
        decreases segs@.len() - i,
    {
        match &segs[i] {
            Segment::KeyVariable(_) => {
                proof {
                    assert(crate::types::seg_var_name(path@[i as int]) is Some);
                }
                return true;
            },
            Segment::IndexVariable(_) => {
                proof {
                    assert(crate::types::seg_var_name(path@[i as int]) is Some);
                }
                return true;
            },
            _ => {},
        }
        i = i + 1;
    }
    false
}

/// Resolves a path against a tree, borrowing the value it names. Fails
/// exactly as the model `get_spec` says: a missing variable context, a
/// missing key, a type mismatch, an index out of range, an unbound variable,
/// or an index variable whose value is not a number.
pub fn get<'a>(path: &Structpath, data: &'a Value, vars: Option<&Bindings>) -> (r: Result<
    &'a Value,
    StructpathError,
>)
    ensures
        match get_spec(path@, data@, opt_bindings_view(vars)) {
            Ok(val) => r matches Ok(v) && v@ == val,
            Err(m) => r matches Err(e) && err_matches(e, m),
        },
{
    let has_vars = path_has_variables(path);
    if has_vars && vars.is_none() {
        let mut m = String::new();
        m.append("Path contains variables, but no variable context was provided.");
        return Err(StructpathError::ParseError(m));
    }
    let ghost bm: Map<Seq<char>, Seq<char>> = match opt_bindings_view(vars) {
        Some(m) => m,
        None => Map::empty(),
    };
    let segs = path.segments();
    let mut cur: &Value = data;
    let mut i: usize = 0;
    while i < segs.len()
        invariant
            i <= segs@.len(),
            segs@.len() == path@.len(),
            forall|j: int| 0 <= j < segs@.len() ==> segs@[j]@ == path@[j],
            bm == (match opt_bindings_view(vars) {
                Some(m) => m,
                None => Map::<Seq<char>, Seq<char>>::empty(),
            }),
            has_variables(path@) ==> vars is Some,
            get_rec(path@, i as int, cur@, bm) == get_spec(path@, data@, opt_bindings_view(vars)),
        decreases segs@.len() - i,
    {
        let step: Result<&Value, StructpathError> = match &segs[i] {
            Segment::Key(SegmentKey::String(s)) => get_by_string_key(cur, s),
            Segment::Key(SegmentKey::Int(k)) => {
                let key = i64_to_string(*k);
                get_by_string_key(cur, &key)
            },
            Segment::Index(n) => get_by_index(cur, *n),
            Segment::KeyVariable(name) => {
                proof {
                    assert(crate::types::seg_var_name(path@[i as int]) is Some);
                    assert(has_variables(path@));
                }
                match vars.unwrap().lookup(name.as_str()) {
                    Some(v) => get_by_string_key(cur, v),
                    None => Err(StructpathError::MissingVariable(name.clone())),
                }
            },
            Segment::IndexVariable(name) => {
                proof {
                    assert(crate::types::seg_var_name(path@[i as int]) is Some);
                    assert(has_variables(path@));
                }
                match vars.unwrap().lookup(name.as_str()) {
                    Some(v) => {
                        let cs = str_to_chars(v.as_str());
                        match parse_usize_chars(&cs) {
                            Some(n) => get_by_index(cur, n),
                            None => Err(StructpathError::InvalidVariableValue(v.clone())),
                        }
                    },
                    None => Err(StructpathError::MissingVariable(name.clone())),
                }
            },
        };
        match step {
            Ok(next) => {
                cur = next;
            },
            Err(e) => {
                return Err(e);
            },
        }
        i = i + 1;
    }
    Ok(cur)
}

impl Structpath {
    /// Resolves this path against a tree; see the free function `get`.
    pub fn get<'a>(&self, data: &'a Value, vars: Option<&Bindings>) -> (r: Result<
        &'a Value,
        StructpathError,
    >)
        ensures
            match get_spec(self@, data@, opt_bindings_view(vars)) {
                Ok(val) => r matches Ok(v) && v@ == val,
                Err(m) => r matches Err(e) && err_matches(e, m),
            },
    {
        get(self, data, vars)
    }
}

} // verus!
