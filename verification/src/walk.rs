//! Post-order depth-first traversal of a whole tree: every node is paired
//! with its full path from the root, and every descendant comes out before
//! its ancestor.

use vstd::prelude::*;

verus! {

use crate::digits::{parse_i64_chars, parse_i64_spec};
use crate::text::str_to_chars;
use crate::types::{KeyModel, SegModel, Structpath};
use crate::value::{entry_vals_of, vals_of, Val, Value};

broadcast use crate::value::group_val_lemmas;

/// The segment under which the walker records an object key: a key whose
/// text parses as a signed 64-bit integer becomes an integer key.
pub open spec fn seg_of_key(k: Seq<char>) -> SegModel {
    match parse_i64_spec(k) {
        Some(i) => SegModel::Key(KeyModel::Int(i)),
        None => SegModel::Key(KeyModel::Str(k)),
    }
}

/// The traversal of the subtree `v` whose root lies at `prefix`: children
/// first, in order, then the node itself.
pub open spec fn walk_seq(prefix: Seq<SegModel>, v: Val) -> Seq<(Seq<SegModel>, Val)>
    decreases v, 0int,
{
    match v {
        Val::Arr(items) => walk_arr(prefix, items, 0) + seq![(prefix, v)],
        Val::Obj(entries) => walk_obj(prefix, entries, 0) + seq![(prefix, v)],
        _ => seq![(prefix, v)],
    }
}

/// The traversals of the array elements from `i` on, concatenated.
pub open spec fn walk_arr(prefix: Seq<SegModel>, items: Seq<Val>, i: int) -> Seq<
    (Seq<SegModel>, Val),
>
    decreases items, items.len() - i + 1,
{
    if i < 0 || i >= items.len() {
        Seq::empty()
    } else {
        walk_seq(prefix.push(SegModel::Index(i)), items[i]) + walk_arr(prefix, items, i + 1)
    }
}

/// The traversals of the object entries from `i` on, concatenated.
pub open spec fn walk_obj(prefix: Seq<SegModel>, entries: Seq<(Seq<char>, Val)>, i: int) -> Seq<
    (Seq<SegModel>, Val),
>
    decreases entries, entries.len() - i + 1,
{
    if i < 0 || i >= entries.len() {
        Seq::empty()
    } else {
        walk_seq(prefix.push(seg_of_key(entries[i].0)), entries[i].1) + walk_obj(
            prefix,
            entries,
            i + 1,
        )
    }
}

/// How many nodes a tree has: every scalar, array and object counts.
pub open spec fn count_nodes(v: Val) -> int
    decreases v, 0int,
{
    match v {
        Val::Arr(items) => 1 + count_arr(items, 0),
        Val::Obj(entries) => 1 + count_obj(entries, 0),
        _ => 1,
    }
}

pub open spec fn count_arr(items: Seq<Val>, i: int) -> int
    decreases items, items.len() - i + 1,
{
    if i < 0 || i >= items.len() {
        0
    } else {
        count_nodes(items[i]) + count_arr(items, i + 1)
    }
}

pub open spec fn count_obj(entries: Seq<(Seq<char>, Val)>, i: int) -> int
    decreases entries, entries.len() - i + 1,
{
    if i < 0 || i >= entries.len() {
        0
    } else {
        count_nodes(entries[i].1) + count_obj(entries, i + 1)
    }
}

/// The traversal of a tree with N nodes yields exactly N pairs, and the
/// root itself, under its own path, comes last.
pub proof fn lemma_walk_count(prefix: Seq<SegModel>, v: Val)
    ensures
        walk_seq(prefix, v).len() == count_nodes(v),
        count_nodes(v) >= 1,
        walk_seq(prefix, v).last() == (prefix, v),
    decreases v, 1int,
{
    match v {
        Val::Arr(items) => {
            lemma_walk_arr_count(prefix, items, 0);
        },
        Val::Obj(entries) => {
            lemma_walk_obj_count(prefix, entries, 0);
        },
        _ => {},
    }
}

pub proof fn lemma_walk_arr_count(prefix: Seq<SegModel>, items: Seq<Val>, i: int)
    ensures
        walk_arr(prefix, items, i).len() == count_arr(items, i),
        count_arr(items, i) >= 0,
    decreases items, items.len() - i + 2,
{
    if 0 <= i < items.len() {
        lemma_walk_count(prefix.push(SegModel::Index(i)), items[i]);
        lemma_walk_arr_count(prefix, items, i + 1);
    }
}

pub proof fn lemma_walk_obj_count(prefix: Seq<SegModel>, entries: Seq<(Seq<char>, Val)>, i: int)
    ensures
        walk_obj(prefix, entries, i).len() == count_obj(entries, i),
        count_obj(entries, i) >= 0,
    decreases entries, entries.len() - i + 2,
{
    if 0 <= i < entries.len() {
        lemma_walk_count(prefix.push(seg_of_key(entries[i].0)), entries[i].1);
        lemma_walk_obj_count(prefix, entries, i + 1);
    }
}

/// One item of the walker's explicit stack: a node with its path, either
/// still to be expanded or already expanded and waiting to be emitted.
struct WalkItem {
    path: Structpath,
    value: Value,
    processed: bool,
}

/// What one stack item still owes the caller.
spec fn item_emits(it: WalkItem) -> Seq<(Seq<SegModel>, Val)> {
    if it.processed {
        seq![(it.path@, it.value@)]
    } else {
        walk_seq(it.path@, it.value@)
    }
}

/// What the whole stack still owes, top (end of the vector) first.
spec fn stack_emits(stack: Seq<WalkItem>) -> Seq<(Seq<SegModel>, Val)>
    decreases stack.len(),
{
    if stack.len() == 0 {
        Seq::empty()
    } else {
        item_emits(stack.last()) + stack_emits(stack.drop_last())
    }
}

/// An iterator over every `(path, value)` pair of a tree, in post-order
/// depth-first order. One-shot: a fresh walker is needed to traverse again.
pub struct Walker {
    stack: Vec<WalkItem>,
}

impl Walker {
    /// The pairs this walker has still to produce, in order.
    pub closed spec fn remaining(&self) -> Seq<(Seq<SegModel>, Val)> {
        stack_emits(self.stack@)
    }

    /// Paths handed out are always well formed.
    pub closed spec fn wf(&self) -> bool {
        forall|j: int| 0 <= j < self.stack@.len() ==> (#[trigger] self.stack@[j]).path.wf()
    }

    /// A walker over the whole tree, starting (and ending) at the root.
    /// The starting path only names the root; traversal always begins there.
    pub fn new(_path: &Structpath, data: &Value) -> (r: Walker)
        ensures
            r.remaining() == walk_seq(Seq::<SegModel>::empty(), data@),
            r.wf(),
    {
        let mut stack: Vec<WalkItem> = Vec::new();
        stack.push(WalkItem { path: Structpath::new(), value: data.clone(), processed: false });
        let r = Walker { stack };
        proof {
            assert(r.stack@.drop_last() =~= Seq::<WalkItem>::empty());
            assert(stack_emits(Seq::<WalkItem>::empty()) =~= Seq::<(Seq<SegModel>, Val)>::empty());
            assert(r.remaining() =~= walk_seq(Seq::<SegModel>::empty(), data@));
        }
        r
    }
}

/// How much expanding work the stack still holds; popping an unexpanded
/// container strictly shrinks it.
spec fn stack_measure(stack: Seq<WalkItem>) -> int
    decreases stack.len(),
{
    if stack.len() == 0 {
        0
    } else {
        (if stack.last().processed {
            0
        } else {
            count_nodes(stack.last().value@)
        }) + stack_measure(stack.drop_last())
    }
}

/// Every tree holds at least one node, and child counts are never negative.
proof fn lemma_count_nonneg(v: Val)
    ensures
        count_nodes(v) >= 1,
    decreases v, 1int,
{
    match v {
        Val::Arr(items) => {
            lemma_count_arr_nonneg(items, 0);
        },
        Val::Obj(entries) => {
            lemma_count_obj_nonneg(entries, 0);
        },
        _ => {},
    }
}

proof fn lemma_count_arr_nonneg(items: Seq<Val>, i: int)
    ensures
        count_arr(items, i) >= 0,
    decreases items, items.len() - i + 2,
{
    if 0 <= i < items.len() {
        lemma_count_nonneg(items[i]);
        lemma_count_arr_nonneg(items, i + 1);
    }
}

proof fn lemma_count_obj_nonneg(entries: Seq<(Seq<char>, Val)>, i: int)
    ensures
        count_obj(entries, i) >= 0,
    decreases entries, entries.len() - i + 2,
{
    if 0 <= i < entries.len() {
        lemma_count_nonneg(entries[i].1);
        lemma_count_obj_nonneg(entries, i + 1);
    }
}

proof fn lemma_stack_measure_nonneg(stack: Seq<WalkItem>)
    ensures
        stack_measure(stack) >= 0,
    decreases stack.len(),
{
    if stack.len() > 0 {
        lemma_count_nonneg(stack.last().value@);
        lemma_stack_measure_nonneg(stack.drop_last());
    }
}

/// Pushing an item owes its emissions first.
proof fn lemma_stack_emits_push(stack: Seq<WalkItem>, it: WalkItem)
    ensures
        stack_emits(stack.push(it)) == item_emits(it) + stack_emits(stack),
        stack_measure(stack.push(it)) == (if it.processed {
            0
        } else {
            count_nodes(it.value@)
        }) + stack_measure(stack),
{
    assert(stack.push(it).drop_last() =~= stack);
}

/// Emissions and measure split over concatenation, upper part first.
proof fn lemma_stack_emits_concat(a: Seq<WalkItem>, b: Seq<WalkItem>)
    ensures
        stack_emits(a + b) == stack_emits(b) + stack_emits(a),
        stack_measure(a + b) == stack_measure(a) + stack_measure(b),
    decreases b.len(),
{
    if b.len() == 0 {
        assert(a + b =~= a);
        assert(stack_emits(b) =~= Seq::<(Seq<SegModel>, Val)>::empty());
        assert(stack_emits(b) + stack_emits(a) =~= stack_emits(a));
    } else {
        lemma_stack_emits_concat(a, b.drop_last());
        assert((a + b).drop_last() =~= a + b.drop_last());
        assert((a + b).last() == b.last());
        assert(item_emits(b.last()) + (stack_emits(b.drop_last()) + stack_emits(a)) =~= (item_emits(
            b.last(),
        ) + stack_emits(b.drop_last())) + stack_emits(a));
    }
}

impl Walker {
    /// Produces the next `(path, value)` pair, or nothing once the whole
    /// tree has been handed out. The pairs come out exactly in the order
    /// of the model traversal `walk_seq`.
    pub fn next(&mut self) -> (r: Option<(Structpath, Value)>)
        requires
            old(self).wf(),
        ensures
            final(self).wf(),
            match r {
                Some(pv) => old(self).remaining().len() > 0 && (pv.0@, pv.1@) == old(
                    self,
                ).remaining()[0] && pv.0.wf() && final(self).remaining() == old(
                    self,
                ).remaining().drop_first(),
                None => old(self).remaining().len() == 0 && final(self).remaining() == old(
                    self,
                ).remaining(),
            },
    {
        loop
            invariant
                self.wf(),
                stack_emits(self.stack@) == old(self).remaining(),
            decreases ({
                let m = stack_measure(self.stack@);
                m
            }),
        {
            proof {
                lemma_stack_measure_nonneg(self.stack@);
            }
            let ghost stack0 = self.stack@;
            let popped = self.stack.pop();
            match popped {
                None => {
                    proof {
                        assert(stack0 =~= Seq::<WalkItem>::empty());
                    }
                    return None;
                },
                Some(item) => {
                    proof {
                        assert(stack0.drop_last() =~= self.stack@);
                        assert(stack0.last() == item);
                    }
                    let WalkItem { path, value, processed } = item;
                    if processed {
                        proof {
                            assert(stack_emits(stack0) == seq![(path@, value@)] + stack_emits(
                                self.stack@,
                            ));
                            assert(stack_emits(stack0)[0] == (path@, value@));
                            assert(stack_emits(stack0).drop_first() =~= stack_emits(self.stack@));
                        }
                        return Some((path, value));
                    }
                    let ghost rest_emits = stack_emits(self.stack@);
                    let ghost pathv = path@;
                    match value {
                        Value::Array(items) => {
                            proof {
                                crate::value::lemma_vals_of_len(items@);
                                lemma_count_nonneg(Val::Arr(vals_of(items@)));
                                lemma_stack_measure_nonneg(self.stack@);
                            }
                            let ghost items_v = vals_of(items@);
                            let mut children: Vec<WalkItem> = Vec::new();
                            let mut j: usize = items.len();
                            while j > 0
                                invariant
                                    j <= items@.len(),
                                    items_v == vals_of(items@),
                                    items_v.len() == items@.len(),
                                    pathv == path@,
                                    path.wf(),
                                    stack_emits(children@) == walk_arr(pathv, items_v, j as int),
                                    stack_measure(children@) == count_arr(items_v, j as int),
                                    forall|t: int|
                                        0 <= t < children@.len() ==> (#[trigger] children@[t]).path.wf(),
                                decreases j,
                            {
                                j = j - 1;
                                let mut cp = path.clone();
                                cp.push_index(j);
                                let child = WalkItem {
                                    path: cp,
                                    value: items[j].clone(),
                                    processed: false,
                                };
                                proof {
                                    crate::value::lemma_vals_of_index(items@, j as int);
                                    lemma_stack_emits_push(children@, child);
                                }
                                children.push(child);
                            }
                            let processed_item = WalkItem {
                                path,
                                value: Value::Array(items),
                                processed: true,
                            };
                            proof {
                                lemma_stack_emits_push(self.stack@, processed_item);
                            }
                            self.stack.push(processed_item);
                            proof {
                                lemma_stack_emits_concat(self.stack@, children@);
                            }
                            self.stack.append(&mut children);
                            proof {
                                assert(walk_arr(pathv, items_v, 0) + (seq![
                                    (pathv, Val::Arr(items_v)),
                                ] + rest_emits) =~= (walk_arr(pathv, items_v, 0) + seq![
                                    (pathv, Val::Arr(items_v)),
                                ]) + rest_emits);
                                lemma_count_arr_nonneg(items_v, 0);
                            }
                        },
                        Value::Object(entries) => {
                            proof {
                                crate::value::lemma_entry_vals_of_len(entries@);
                                lemma_count_nonneg(Val::Obj(entry_vals_of(entries@)));
                                lemma_stack_measure_nonneg(self.stack@);
                            }
                            let ghost entries_v = entry_vals_of(entries@);
                            let mut children: Vec<WalkItem> = Vec::new();
                            let mut j: usize = entries.len();
                            while j > 0
                                invariant
                                    j <= entries@.len(),
                                    entries_v == entry_vals_of(entries@),
                                    entries_v.len() == entries@.len(),
                                    pathv == path@,
                                    path.wf(),
                                    stack_emits(children@) == walk_obj(pathv, entries_v, j as int),
                                    stack_measure(children@) == count_obj(entries_v, j as int),
                                    forall|t: int|
                                        0 <= t < children@.len() ==> (#[trigger] children@[t]).path.wf(),
                                decreases j,
                            {
                                j = j - 1;
                                let mut cp = path.clone();
                                let key = &entries[j].0;
                                let kc = str_to_chars(key.as_str());
                                match parse_i64_chars(&kc) {
                                    Some(v) => {
                                        cp.push_int_key(v);
                                    },
                                    None => {
                                        cp.push_string_key(key.as_str());
                                    },
                                }
                                let child = WalkItem {
                                    path: cp,
                                    value: entries[j].1.clone(),
                                    processed: false,
                                };
                                proof {
                                    crate::value::lemma_entry_vals_of_index(entries@, j as int);
                                    assert(child.path@ =~= pathv.push(
                                        seg_of_key(entries_v[j as int].0),
                                    ));
                                    lemma_stack_emits_push(children@, child);
                                }
                                children.push(child);
                            }
                            let processed_item = WalkItem {
                                path,
                                value: Value::Object(entries),
                                processed: true,
                            };
                            proof {
                                lemma_stack_emits_push(self.stack@, processed_item);
                            }
                            self.stack.push(processed_item);
                            proof {
                                lemma_stack_emits_concat(self.stack@, children@);
                            }
                            self.stack.append(&mut children);
                            proof {
                                assert(walk_obj(pathv, entries_v, 0) + (seq![
                                    (pathv, Val::Obj(entries_v)),
                                ] + rest_emits) =~= (walk_obj(pathv, entries_v, 0) + seq![
                                    (pathv, Val::Obj(entries_v)),
                                ]) + rest_emits);
                                lemma_count_obj_nonneg(entries_v, 0);
                            }
                        },
                        other => {
                            proof {
                                assert(walk_seq(pathv, other@) =~= seq![(pathv, other@)]);
                                assert(stack_emits(stack0)[0] == (pathv, other@));
                                assert(stack_emits(stack0).drop_first() =~= stack_emits(
                                    self.stack@,
                                ));
                            }
                            return Some((path, other));
                        },
                    }
                },
            }
        }
    }
}

impl Structpath {
    /// A walker over every `(path, value)` pair of the tree, children
    /// before parents; the root comes last under the empty path.
    pub fn walk(data: &Value) -> (r: Walker)
        ensures
            r.remaining() == walk_seq(Seq::<SegModel>::empty(), data@),
            r.wf(),
    {
        new_walker(data)
    }
}

/// A walker over the whole tree, rooted at the empty path.
pub fn new_walker(data: &Value) -> (r: Walker)
    ensures
        r.remaining() == walk_seq(Seq::<SegModel>::empty(), data@),
        r.wf(),
{
    let root = Structpath::new();
    Walker::new(&root, data)
}

} // verus!
