//! Writing a value into a tree by path, creating missing structure on the
//! way: absent keys and indexes are created, arrays are padded with nulls,
//! and anything of the wrong kind along the path is replaced.

use vstd::prelude::*;

verus! {

use vstd::string::StringExecFns;
use crate::access::{lookup_obj, opt_bindings_view, Bindings};
use crate::digits::{i64_to_string, parse_usize_chars, parse_usize_spec};
use crate::text::str_to_chars;
use crate::types::{
    err_matches, has_variables, key_string, ErrModel, SegModel, Segment, SegmentKey, Structpath,
    StructpathError,
};
use crate::value::{entry_vals_of, val_of, vals_of, Val, Value};

broadcast use crate::value::group_val_lemmas;

/// A path segment with its variables already resolved: a key's string form,
/// or an array index.
pub enum RSeg {
    Key(Seq<char>),
    Index(int),
}

enum ResolvedSeg {
    Key(String),
    Index(usize),
}

impl View for ResolvedSeg {
    type V = RSeg;

    closed spec fn view(&self) -> RSeg {
        match self {
            ResolvedSeg::Key(s) => RSeg::Key(s@),
            ResolvedSeg::Index(n) => RSeg::Index(*n as int),
        }
    }
}

spec fn rsegs_view(s: Seq<ResolvedSeg>) -> Seq<RSeg> {
    Seq::new(s.len(), |j: int| s[j]@)
}

/// Resolves one segment under the bindings: literal segments stand as they
/// are; a variable must be bound, and an index variable's value must be a
/// number.
pub open spec fn resolve_seg(seg: SegModel, m: Map<Seq<char>, Seq<char>>) -> Result<
    RSeg,
    ErrModel,
> {
    match seg {
        SegModel::Key(k) => Ok(RSeg::Key(key_string(k))),
        SegModel::Index(n) => Ok(RSeg::Index(n)),
        SegModel::KeyVar(x) => if !m.contains_key(x) {
            Err(ErrModel::MissingVar(x))
        } else {
            Ok(RSeg::Key(m[x]))
        },
        SegModel::IndexVar(x) => if !m.contains_key(x) {
            Err(ErrModel::MissingVar(x))
        } else {
            match parse_usize_spec(m[x]) {
                Some(n) => Ok(RSeg::Index(n)),
                None => Err(ErrModel::BadVarValue(m[x])),
            }
        },
    }
}

/// Resolves the segments from `i` on; the first failure is the result.
pub open spec fn resolve_segs(segs: Seq<SegModel>, i: int, m: Map<Seq<char>, Seq<char>>) -> Result<
    Seq<RSeg>,
    ErrModel,
>
    decreases segs.len() - i,
{
    if i < 0 || i >= segs.len() {
        Ok(Seq::empty())
    } else {
        match resolve_seg(segs[i], m) {
            Ok(r) => match resolve_segs(segs, i + 1, m) {
                Ok(rest) => Ok(seq![r] + rest),
                Err(e) => Err(e),
            },
            Err(e) => Err(e),
        }
    }
}

/// Stores a value under a key in an association sequence: the first entry
/// with that key is replaced in place, or a new entry is appended.
pub open spec fn store_obj(entries: Seq<(Seq<char>, Val)>, key: Seq<char>, val: Val) -> Seq<
    (Seq<char>, Val),
>
    decreases entries.len(),
{
    if entries.len() == 0 {
        seq![(key, val)]
    } else if entries.first().0 == key {
        seq![(key, val)] + entries.drop_first()
    } else {
        seq![entries.first()] + store_obj(entries.drop_first(), key, val)
    }
}

/// An array extended with nulls so that index `n` exists.
pub open spec fn pad_nulls(items: Seq<Val>, n: int) -> Seq<Val> {
    if items.len() > n {
        items
    } else {
        items + Seq::new((n + 1 - items.len()) as nat, |j: int| Val::Null)
    }
}

/// The tree after writing `newval` at the location the resolved segments
/// from `i` on name, starting from `cur`. Never fails: wrong kinds are
/// discarded and replaced, missing slots created, arrays padded with nulls.
pub open spec fn write_rec(rsegs: Seq<RSeg>, i: int, cur: Val, newval: Val) -> Val
    decreases rsegs.len() - i,
{
    if i < 0 || i >= rsegs.len() {
        newval
    } else {
        match rsegs[i] {
            RSeg::Key(k) => {
                let entries = match cur {
                    Val::Obj(es) => es,
                    _ => Seq::empty(),
                };
                let child = match lookup_obj(entries, k) {
                    Some(c) => c,
                    None => Val::Null,
                };
                Val::Obj(store_obj(entries, k, write_rec(rsegs, i + 1, child, newval)))
            },
            RSeg::Index(n) => {
                let items = match cur {
                    Val::Arr(vs) => vs,
                    _ => Seq::empty(),
                };
                let padded = pad_nulls(items, n);
                Val::Arr(padded.update(n, write_rec(rsegs, i + 1, padded[n], newval)))
            },
        }
    }
}

pub open spec fn opt_val_view(data: Option<&Value>) -> Option<Val> {
    match data {
        Some(v) => Some(v@),
        None => None,
    }
}

/// What `write` returns: a path with variables demands a variable context;
/// the variables are resolved in path order, and the write itself cannot
/// fail.
pub open spec fn write_spec(
    segs: Seq<SegModel>,
    data: Option<Val>,
    newval: Val,
    vars: Option<Map<Seq<char>, Seq<char>>>,
) -> Result<Val, ErrModel> {
    let base = match data {
        Some(v) => v,
        None => Val::Null,
    };
    if has_variables(segs) && vars is None {
        Err(ErrModel::Parse)
    } else {
        let m = match vars {
            Some(m) => m,
            None => Map::empty(),
        };
        match resolve_segs(segs, 0, m) {
            Ok(rsegs) => Ok(write_rec(rsegs, 0, base, newval)),
            Err(e) => Err(e),
        }
    }
}

/// Resolved index segments carry non-negative positions.
pub open spec fn rsegs_index_nonneg(rsegs: Seq<RSeg>) -> bool {
    forall|j: int|
        0 <= j < rsegs.len() ==> ((#[trigger] rsegs[j]) matches RSeg::Index(n) ==> n >= 0)
}

/// Resolution keeps index positions non-negative: literal indexes pass
/// through, and index variables parse to machine integers.
pub proof fn lemma_resolve_index_nonneg(
    segs: Seq<SegModel>,
    i: int,
    m: Map<Seq<char>, Seq<char>>,
    rsegs: Seq<RSeg>,
)
    requires
        crate::types::segs_index_nonneg(segs),
        resolve_segs(segs, i, m) == Ok::<Seq<RSeg>, ErrModel>(rsegs),
    ensures
        rsegs_index_nonneg(rsegs),
    decreases segs.len() - i,
{
    if i < 0 || i >= segs.len() {
        assert(rsegs =~= Seq::<RSeg>::empty());
    } else {
        match resolve_seg(segs[i], m) {
            Ok(r) => {
                match resolve_segs(segs, i + 1, m) {
                    Ok(rest) => {
                        lemma_resolve_index_nonneg(segs, i + 1, m, rest);
                        assert(rsegs == seq![r] + rest);
                        assert forall|j: int|
                            0 <= j < rsegs.len() implies ((#[trigger] rsegs[j]) matches RSeg::Index(
                            n,
                        ) ==> n >= 0) by {
                            if j == 0 {
                                match segs[i] {
                                    SegModel::IndexVar(x) => {
                                        if m.contains_key(x) {
                                            match crate::digits::parse_usize_spec(m[x]) {
                                                Some(n) => {
                                                    crate::digits::lemma_parse_usize_nonneg(m[x]);
                                                },
                                                None => {},
                                            }
                                        }
                                    },
                                    _ => {},
                                }
                            } else {
                                assert(rsegs[j] == rest[j - 1]);
                            }
                        }
                    },
                    Err(_) => {},
                }
            },
            Err(_) => {},
        }
    }
}

/// A first match at `j` means storing replaces entry `j`.
proof fn lemma_store_obj_found(entries: Seq<(Seq<char>, Val)>, key: Seq<char>, val: Val, j: int)
    requires
        0 <= j < entries.len(),
        entries[j].0 == key,
        forall|t: int| 0 <= t < j ==> (#[trigger] entries[t]).0 != key,
    ensures
        store_obj(entries, key, val) == entries.update(j, (key, val)),
    decreases j,
{
    if j == 0 {
        assert(store_obj(entries, key, val) =~= entries.update(0, (key, val)));
    } else {
        lemma_store_obj_found(entries.drop_first(), key, val, j - 1);
        assert(forall|t: int|
            0 <= t < j - 1 ==> (#[trigger] entries.drop_first()[t]).0 == entries[t + 1].0);
        assert(store_obj(entries, key, val) =~= entries.update(j, (key, val)));
    }
}

/// No match means storing appends a new entry.
proof fn lemma_store_obj_missing(entries: Seq<(Seq<char>, Val)>, key: Seq<char>, val: Val)
    requires
        forall|t: int| 0 <= t < entries.len() ==> (#[trigger] entries[t]).0 != key,
    ensures
        store_obj(entries, key, val) == entries.push((key, val)),
    decreases entries.len(),
{
    if entries.len() == 0 {
        assert(store_obj(entries, key, val) =~= entries.push((key, val)));
    } else {
        lemma_store_obj_missing(entries.drop_first(), key, val);
        assert(store_obj(entries, key, val) =~= entries.push((key, val)));
    }
}

/// A first match at `j` means lookup finds entry `j`.
pub proof fn lemma_lookup_obj_found(entries: Seq<(Seq<char>, Val)>, key: Seq<char>, j: int)
    requires
        0 <= j < entries.len(),
        entries[j].0 == key,
        forall|t: int| 0 <= t < j ==> (#[trigger] entries[t]).0 != key,
    ensures
        lookup_obj(entries, key) == Some(entries[j].1),
    decreases j,
{
    if j > 0 {
        lemma_lookup_obj_found(entries.drop_first(), key, j - 1);
    }
}

/// No match means lookup finds nothing.
pub proof fn lemma_lookup_obj_missing(entries: Seq<(Seq<char>, Val)>, key: Seq<char>)
    requires
        forall|t: int| 0 <= t < entries.len() ==> (#[trigger] entries[t]).0 != key,
    ensures
        lookup_obj(entries, key) is None,
    decreases entries.len(),
{
    if entries.len() > 0 {
        lemma_lookup_obj_missing(entries.drop_first(), key);
    }
}

/// Resolves every segment of the path, in order.
fn resolve_path(path: &Structpath, vars: Option<&Bindings>) -> (r: Result<
    Vec<ResolvedSeg>,
    StructpathError,
>)
    requires
        has_variables(path@) ==> vars is Some,
    ensures
        ({
            let m = match opt_bindings_view(vars) {
                Some(m) => m,
                None => Map::<Seq<char>, Seq<char>>::empty(),
            };
            match resolve_segs(path@, 0, m) {
                Ok(rs) => r matches Ok(v) && rsegs_view(v@) == rs,
                Err(me) => r matches Err(e) && err_matches(e, me),
            }
        }),
{
    let ghost m: Map<Seq<char>, Seq<char>> = match opt_bindings_view(vars) {
        Some(m) => m,
        None => Map::empty(),
    };
    let segs = path.segments();
    let mut out: Vec<ResolvedSeg> = Vec::new();
    let mut i: usize = 0;
    while i < segs.len()
        invariant
            i <= segs@.len(),
            segs@.len() == path@.len(),
            forall|j: int| 0 <= j < segs@.len() ==> segs@[j]@ == path@[j],
            has_variables(path@) ==> vars is Some,
            m == (match opt_bindings_view(vars) {
                Some(mm) => mm,
                None => Map::<Seq<char>, Seq<char>>::empty(),
            }),
            out@.len() == i,
            resolve_segs(path@, 0, m) == (match resolve_segs(path@, i as int, m) {
                Ok(rest) => Ok::<Seq<RSeg>, ErrModel>(rsegs_view(out@) + rest),
                Err(e) => Err::<Seq<RSeg>, ErrModel>(e),
            }),
        decreases segs@.len() - i,
    {
        let ghost out0 = rsegs_view(out@);
        let step: Result<ResolvedSeg, StructpathError> = match &segs[i] {
            Segment::Key(SegmentKey::String(s)) => Ok(ResolvedSeg::Key(s.clone())),
            Segment::Key(SegmentKey::Int(k)) => Ok(ResolvedSeg::Key(i64_to_string(*k))),
            Segment::Index(n) => Ok(ResolvedSeg::Index(*n)),
            Segment::KeyVariable(name) => {
                proof {
                    assert(crate::types::seg_var_name(path@[i as int]) is Some);
                    assert(has_variables(path@));
                }
                match vars.unwrap().lookup(name.as_str()) {
                    Some(v) => Ok(ResolvedSeg::Key(v.clone())),
                    None => Err(StructpathError::MissingVariable(name.clone())),
                }
            },
            Segment::IndexVariable(name) => {
                proof {
                    assert(crate::types::seg_var_name(path@[i as int]) is Some);
                    assert(has_variables(path@));
                }
                match vars.unwrap().lookup(name.as_str()) {
                    Some(v) => {
                        let cs = str_to_chars(v.as_str());
                        match parse_usize_chars(&cs) {
                            Some(n) => Ok(ResolvedSeg::Index(n)),
                            None => Err(StructpathError::InvalidVariableValue(v.clone())),
                        }
                    },
                    None => Err(StructpathError::MissingVariable(name.clone())),
                }
            },
        };
        match step {
            Ok(rseg) => {
                proof {
                    assert(resolve_seg(path@[i as int], m) == Ok::<RSeg, ErrModel>(rseg@));
                }
                out.push(rseg);
                proof {
                    let out1 = rsegs_view(out@);
                    assert(out1 =~= out0.push(out1.last()));
                    match resolve_segs(path@, i + 1 as int, m) {
                        Ok(rest) => {
                            assert(out0 + (seq![out1.last()] + rest) =~= out1 + rest);
                        },
                        Err(_) => {},
                    }
                }
            },
            Err(e) => {
                return Err(e);
            },
        }
        i = i + 1;
    }
    proof {
        assert(resolve_segs(path@, path@.len() as int, m) == Ok::<Seq<RSeg>, ErrModel>(
            Seq::empty(),
        ));
        let outv = rsegs_view(out@);
        assert(outv + Seq::<RSeg>::empty() =~= outv);
    }
    Ok(out)
}

/// Builds the tree that writing `newval` along the resolved segments gives.
#[verifier::loop_isolation(false)]
fn write_rec_exec(rsegs: &Vec<ResolvedSeg>, i: usize, cur: &Value, newval: Value) -> (r: Value)
    requires
        i <= rsegs@.len(),
    ensures
        r@ == write_rec(rsegs_view(rsegs@), i as int, cur@, newval@),
    decreases rsegs@.len() - i,
{
    let ghost rv = rsegs_view(rsegs@);
    if i == rsegs.len() {
        return newval;
    }
    match &rsegs[i] {
        ResolvedSeg::Key(k) => {
            let ghost entries_v: Seq<(Seq<char>, Val)> = match cur@ {
                Val::Obj(es) => es,
                _ => Seq::empty(),
            };
            // find the first entry with this key, if the current value is
            // an object
            let mut found: Option<usize> = None;
            match cur {
                Value::Object(entries) => {
                    proof {
                        crate::value::lemma_entry_vals_of_len(entries@);
                    }
                    let mut j: usize = 0;
                    while j < entries.len()
                        invariant
                            j <= entries@.len(),
                            match found {
                                Some(f) => f < j && entries_v[f as int].0 == k@ && (forall|t: int|
                                    0 <= t < f ==> (#[trigger] entries_v[t]).0 != k@),
                                None => forall|t: int|
                                    0 <= t < j ==> (#[trigger] entries_v[t]).0 != k@,
                            },
                        decreases entries@.len() - j,
                    {
                        proof {
                            crate::value::lemma_entry_vals_of_index(entries@, j as int);
                        }
                        if found.is_none() && entries[j].0.eq(k) {
                            found = Some(j);
                        }
                        j = j + 1;
                    }
                },
                _ => {},
            }
            let null_child = Value::Null;
            match cur {
                Value::Object(entries) => {
                    match found {
                        Some(f) => {
                            proof {
                                crate::value::lemma_entry_vals_of_index(entries@, f as int);
                                lemma_lookup_obj_found(entries_v, k@, f as int);
                                lemma_store_obj_found(
                                    entries_v,
                                    k@,
                                    write_rec(rv, i + 1 as int, entries_v[f as int].1, newval@),
                                    f as int,
                                );
                            }
                            let new_child = write_rec_exec(rsegs, i + 1, &entries[f].1, newval);
                            let mut out: Vec<(String, Value)> = Vec::new();
                            let mut j: usize = 0;
                            while j < f
                                invariant
                                    j <= f,
                                    out@.len() == j,
                                    forall|t: int|
                                        0 <= t < j ==> out@[t].0@ == entries@[t].0@ && out@[t].1@
                                            == entries@[t].1@,
                                decreases f - j,
                            {
                                let (ks, vs) = &entries[j];
                                out.push((ks.clone(), vs.clone()));
                                j = j + 1;
                            }
                            out.push((k.clone(), new_child));
                            let mut j2: usize = f + 1;
                            while j2 < entries.len()
                                invariant
                                    f + 1 <= j2 <= entries@.len(),
                                    out@.len() == j2,
                                    forall|t: int|
                                        0 <= t < f ==> out@[t].0@ == entries@[t].0@ && out@[t].1@
                                            == entries@[t].1@,
                                    out@[f as int].0@ == k@ && out@[f as int].1@ == new_child@,
                                    forall|t: int|
                                        f < t < j2 ==> out@[t].0@ == entries@[t].0@ && out@[t].1@
                                            == entries@[t].1@,
                                decreases entries@.len() - j2,
                            {
                                let (ks, vs) = &entries[j2];
                                out.push((ks.clone(), vs.clone()));
                                j2 = j2 + 1;
                            }
                            let r = Value::Object(out);
                            proof {
                                assert forall|t: int| 0 <= t < out@.len() implies (#[trigger]
                                entry_vals_of(out@)[t]) == entries_v.update(
                                    f as int,
                                    (k@, new_child@),
                                )[t] by {
                                    crate::value::lemma_entry_vals_of_index(out@, t);
                                    crate::value::lemma_entry_vals_of_index(entries@, t);
                                }
                                crate::value::lemma_entry_vals_of_len(out@);
                                assert(entry_vals_of(out@) =~= entries_v.update(
                                    f as int,
                                    (k@, new_child@),
                                ));
                            }
                            r
                        },
                        None => {
                            proof {
                                lemma_lookup_obj_missing(entries_v, k@);
                                lemma_store_obj_missing(
                                    entries_v,
                                    k@,
                                    write_rec(rv, i + 1 as int, Val::Null, newval@),
                                );
                            }
                            let new_child = write_rec_exec(rsegs, i + 1, &null_child, newval);
                            let mut out: Vec<(String, Value)> = Vec::new();
                            let mut j: usize = 0;
                            while j < entries.len()
                                invariant
                                    j <= entries@.len(),
                                    out@.len() == j,
                                    forall|t: int|
                                        0 <= t < j ==> out@[t].0@ == entries@[t].0@ && out@[t].1@
                                            == entries@[t].1@,
                                decreases entries@.len() - j,
                            {
                                let (ks, vs) = &entries[j];
                                out.push((ks.clone(), vs.clone()));
                                j = j + 1;
                            }
                            out.push((k.clone(), new_child));
                            let r = Value::Object(out);
                            proof {
                                assert forall|t: int| 0 <= t < out@.len() implies (#[trigger]
                                entry_vals_of(out@)[t]) == entries_v.push((k@, new_child@))[t] by {
                                    crate::value::lemma_entry_vals_of_index(out@, t);
                                    if t < entries@.len() {
                                        crate::value::lemma_entry_vals_of_index(entries@, t);
                                    }
                                }
                                crate::value::lemma_entry_vals_of_len(out@);
                                assert(entry_vals_of(out@) =~= entries_v.push((k@, new_child@)));
                            }
                            r
                        },
                    }
                },
                _ => {
                    proof {
                        assert(entries_v =~= Seq::<(Seq<char>, Val)>::empty());
                        lemma_lookup_obj_missing(entries_v, k@);
                        lemma_store_obj_missing(
                            entries_v,
                            k@,
                            write_rec(rv, i + 1 as int, Val::Null, newval@),
                        );
                    }
                    let new_child = write_rec_exec(rsegs, i + 1, &null_child, newval);
                    let mut out: Vec<(String, Value)> = Vec::new();
                    out.push((k.clone(), new_child));
                    let r = Value::Object(out);
                    proof {
                        crate::value::lemma_entry_vals_of_len(out@);
                        crate::value::lemma_entry_vals_of_index(out@, 0);
                        assert(entry_vals_of(out@) =~= entries_v.push((k@, out@[0].1@)));
                    }
                    r
                },
            }
        },
        ResolvedSeg::Index(n) => {
            let n = *n;
            let ghost items_v: Seq<Val> = match cur@ {
                Val::Arr(vs) => vs,
                _ => Seq::empty(),
            };
            let null_child = Value::Null;
            match cur {
                Value::Array(items) => {
                    proof {
                        crate::value::lemma_vals_of_len(items@);
                    }
                    let new_child = if n < items.len() {
                        proof {
                            crate::value::lemma_vals_of_index(items@, n as int);
                        }
                        write_rec_exec(rsegs, i + 1, &items[n], newval)
                    } else {
                        write_rec_exec(rsegs, i + 1, &null_child, newval)
                    };
                    let mut out: Vec<Value> = Vec::new();
                    let mut j: usize = 0;
                    while j < items.len()
                        invariant
                            j <= items@.len(),
                            out@.len() == j,
                            forall|t: int| 0 <= t < j ==> out@[t]@ == items@[t]@,
                        decreases items@.len() - j,
                    {
                        out.push(items[j].clone());
                        j = j + 1;
                    }
                    while out.len() <= n
                        invariant
                            out@.len() >= items@.len(),
                            out@.len() <= if n + 1 >= items@.len() {
                                n + 1
                            } else {
                                items@.len() as int
                            },
                            forall|t: int|
                                0 <= t < items@.len() ==> (#[trigger] out@[t])@ == items@[t]@,
                            forall|t: int|
                                items@.len() <= t < out@.len() ==> (#[trigger] out@[t])@
                                    == Val::Null,
                        decreases n + 1 - out@.len(),
                    {
                        out.push(Value::Null);
                    }
                    // replace position n with the written child
                    let mut out2: Vec<Value> = Vec::new();
                    let mut j2: usize = 0;
                    let outlen = out.len();
                    while j2 < n
                        invariant
                            j2 <= n,
                            n < out@.len(),
                            out2@.len() == j2,
                            forall|t: int| 0 <= t < j2 ==> out2@[t]@ == out@[t]@,
                        decreases n - j2,
                    {
                        out2.push(out[j2].clone());
                        j2 = j2 + 1;
                    }
                    out2.push(new_child);
                    let mut j3: usize = n + 1;
                    while j3 < outlen
                        invariant
                            n + 1 <= j3 <= out@.len(),
                            outlen == out@.len(),
                            out2@.len() == j3,
                            forall|t: int| 0 <= t < n ==> (#[trigger] out2@[t])@ == out@[t]@,
                            out2@[n as int]@ == new_child@,
                            forall|t: int| n < t < j3 ==> (#[trigger] out2@[t])@ == out@[t]@,
                        decreases out@.len() - j3,
                    {
                        out2.push(out[j3].clone());
                        j3 = j3 + 1;
                    }
                    let r = Value::Array(out2);
                    proof {
                        let padded = pad_nulls(items_v, n as int);
                        assert(padded.len() == out2@.len());
                        assert forall|t: int| 0 <= t < out2@.len() implies (#[trigger] vals_of(
                            out2@,
                        )[t]) == padded.update(
                            n as int,
                            write_rec(rv, i + 1 as int, padded[n as int], newval@),
                        )[t] by {
                            crate::value::lemma_vals_of_index(out2@, t);
                            if t < items@.len() {
                                crate::value::lemma_vals_of_index(items@, t);
                            }
                            crate::value::lemma_vals_of_len(out2@);
                        }
                        crate::value::lemma_vals_of_len(out2@);
                        assert(vals_of(out2@) =~= padded.update(
                            n as int,
                            write_rec(rv, i + 1 as int, padded[n as int], newval@),
                        ));
                    }
                    r
                },
                _ => {
                    proof {
                        assert(items_v =~= Seq::<Val>::empty());
                    }
                    let new_child = write_rec_exec(rsegs, i + 1, &null_child, newval);
                    let mut out: Vec<Value> = Vec::new();
                    while out.len() < n
                        invariant
                            out@.len() <= n,
                            forall|t: int| 0 <= t < out@.len() ==> (#[trigger] out@[t])@
                                == Val::Null,
                        decreases n - out@.len(),
                    {
                        out.push(Value::Null);
                    }
                    out.push(new_child);
                    let r = Value::Array(out);
                    proof {
                        let padded = pad_nulls(items_v, n as int);
                        assert forall|t: int| 0 <= t < out@.len() implies (#[trigger] vals_of(
                            out@,
                        )[t]) == padded.update(
                            n as int,
                            write_rec(rv, i + 1 as int, padded[n as int], newval@),
                        )[t] by {
                            crate::value::lemma_vals_of_index(out@, t);
                        }
                        crate::value::lemma_vals_of_len(out@);
                        assert(vals_of(out@) =~= padded.update(
                            n as int,
                            write_rec(rv, i + 1 as int, padded[n as int], newval@),
                        ));
                    }
                    r
                },
            }
        },
    }
}

/// Writes `value` at the location the path names, starting from `data` (or
/// from null when absent), and returns the new tree. The input tree is not
/// touched. Fails only over variables: a missing variable context, an
/// unbound variable, or an index variable whose value is not a number.
pub fn write(
    path: &Structpath,
    data: Option<&Value>,
    value: Value,
    vars: Option<&Bindings>,
) -> (r: Result<Value, StructpathError>)
    ensures
        match write_spec(path@, opt_val_view(data), value@, opt_bindings_view(vars)) {
            Ok(v) => r matches Ok(out) && out@ == v,
            Err(m) => r matches Err(e) && err_matches(e, m),
        },
{
    let has_vars = crate::access::path_has_variables(path);
    if has_vars && vars.is_none() {
        let mut msg = String::new();
        msg.append("Path contains variables, but no variable context was provided.");
        return Err(StructpathError::ParseError(msg));
    }
    let rsegs = match resolve_path(path, vars) {
        Ok(rs) => rs,
        Err(e) => {
            return Err(e);
        },
    };
    let null_base = Value::Null;
    let base: &Value = match data {
        Some(d) => d,
        None => &null_base,
    };
    let ghost m: Map<Seq<char>, Seq<char>> = match opt_bindings_view(vars) {
        Some(mm) => mm,
        None => Map::empty(),
    };
    Ok(write_rec_exec(&rsegs, 0, base, value))
}

impl Structpath {
    /// Writes `value` at the location this path names; see the free
    /// function `write`.
    pub fn write(&self, data: Option<&Value>, value: Value, vars: Option<&Bindings>) -> (r: Result<
        Value,
        StructpathError,
    >)
        ensures
            match write_spec(self@, opt_val_view(data), value@, opt_bindings_view(vars)) {
                Ok(v) => r matches Ok(out) && out@ == v,
                Err(m) => r matches Err(e) && err_matches(e, m),
            },
    {
        write(self, data, value, vars)
    }

    /// Writes `value` at the location this path names, mirroring the result
    /// into the caller's tree slot. On failure the slot is untouched.
    pub fn write_into(&self, data: &mut Value, value: Value, vars: Option<&Bindings>) -> (r:
        Result<Value, StructpathError>)
        ensures
            match write_spec(self@, Some(old(data)@), value@, opt_bindings_view(vars)) {
                Ok(v) => r matches Ok(out) && out@ == v && final(data)@ == v,
                Err(m) => r matches Err(e) && err_matches(e, m) && final(data)@ == old(data)@,
            },
    {
        let out = write(self, Some(data), value, vars);
        match out {
            Ok(v) => {
                *data = v.clone();
                Ok(v)
            },
            Err(e) => Err(e),
        }
    }
}

} // verus!
