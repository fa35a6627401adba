//! Exhaustive variable search: every way a path with free variables can
//! match a tree, as an explicit breadth-first worklist with deduplication
//! on the accumulated bindings.

use vstd::prelude::*;

verus! {

use crate::access::lookup_obj;
use crate::types::{
    distinct_seqs, key_string, var_name_list, SegModel, Segment, SegmentKey, Structpath,
};
use crate::value::{entry_vals_of, vals_of, value_eq, Val, Value};

broadcast use crate::value::group_val_lemmas;

/// The binding map a list of name/value pairs denotes; a later entry for
/// the same name wins.
pub open spec fn bmap_of(s: Seq<(String, Value)>) -> Map<Seq<char>, Val>
    decreases s.len(),
{
    if s.len() == 0 {
        Map::empty()
    } else {
        bmap_of(s.drop_last()).insert(s.last().0@, s.last().1@)
    }
}

pub open spec fn bindings_keys(s: Seq<(String, Value)>) -> Seq<Seq<char>> {
    Seq::new(s.len(), |t: int| s[t].0@)
}

/// Every complete way the path's segments from `i` on can match inside `v`,
/// extending the bindings `b`: literal segments are deterministic steps, a
/// key variable branches over the object's entries, an index variable over
/// the array's indices. Each element pairs the full bindings with the value
/// reached.
pub open spec fn search_from(
    segs: Seq<SegModel>,
    i: int,
    v: Val,
    b: Map<Seq<char>, Val>,
) -> Set<(Map<Seq<char>, Val>, Val)>
    decreases segs.len() - i,
{
    if i < 0 || i >= segs.len() {
        set![(b, v)]
    } else {
        match segs[i] {
            SegModel::Key(k) => match v {
                Val::Obj(es) => match lookup_obj(es, key_string(k)) {
                    Some(c) => search_from(segs, i + 1, c, b),
                    None => Set::empty(),
                },
                _ => Set::empty(),
            },
            SegModel::Index(n) => match v {
                Val::Arr(items) => if 0 <= n < items.len() {
                    search_from(segs, i + 1, items[n], b)
                } else {
                    Set::empty()
                },
                _ => Set::empty(),
            },
            SegModel::KeyVar(x) => match v {
                Val::Obj(es) => Set::new(
                    |r: (Map<Seq<char>, Val>, Val)|
                        exists|j: int|
                            0 <= j < es.len() && search_from(
                                segs,
                                i + 1,
                                es[j].1,
                                b.insert(x, Val::Str(es[j].0)),
                            ).contains(r),
                ),
                _ => Set::empty(),
            },
            SegModel::IndexVar(x) => match v {
                Val::Arr(items) => Set::new(
                    |r: (Map<Seq<char>, Val>, Val)|
                        exists|j: int|
                            0 <= j <= i64::MAX && j < items.len() && search_from(
                                segs,
                                i + 1,
                                items[j],
                                b.insert(x, Val::Num(j)),
                            ).contains(r),
                ),
                _ => Set::empty(),
            },
        }
    }
}

/// Every complete match of a whole path against a tree.
pub open spec fn search_results(segs: Seq<SegModel>, v: Val) -> Set<(Map<Seq<char>, Val>, Val)> {
    search_from(segs, 0, v, Map::empty())
}

/// An upper bound on the worklist operations a state can still cause.
spec fn tree_size(segs: Seq<SegModel>, i: int, v: Val) -> int
    decreases segs.len() - i, 1int, 0int,
{
    if i < 0 || i >= segs.len() {
        1
    } else {
        1 + match segs[i] {
            SegModel::Key(k) => match v {
                Val::Obj(es) => match lookup_obj(es, key_string(k)) {
                    Some(c) => tree_size(segs, i + 1, c),
                    None => 0,
                },
                _ => 0,
            },
            SegModel::Index(n) => match v {
                Val::Arr(items) => if 0 <= n < items.len() {
                    tree_size(segs, i + 1, items[n])
                } else {
                    0
                },
                _ => 0,
            },
            SegModel::KeyVar(_) => match v {
                Val::Obj(es) => sum_obj_sizes(segs, i, es, 0),
                _ => 0,
            },
            SegModel::IndexVar(_) => match v {
                Val::Arr(items) => sum_arr_sizes(segs, i, items, 0),
                _ => 0,
            },
        }
    }
}

spec fn sum_obj_sizes(segs: Seq<SegModel>, i: int, es: Seq<(Seq<char>, Val)>, j: int) -> int
    decreases segs.len() - i, 0int, es.len() - j + 1,
{
    if i < 0 || i >= segs.len() || j < 0 || j >= es.len() {
        0
    } else {
        tree_size(segs, i + 1, es[j].1) + sum_obj_sizes(segs, i, es, j + 1)
    }
}

spec fn sum_arr_sizes(segs: Seq<SegModel>, i: int, items: Seq<Val>, j: int) -> int
    decreases segs.len() - i, 0int, items.len() - j + 1,
{
    if i < 0 || i >= segs.len() || j < 0 || j >= items.len() {
        0
    } else {
        tree_size(segs, i + 1, items[j]) + sum_arr_sizes(segs, i, items, j + 1)
    }
}

proof fn lemma_tree_size_pos(segs: Seq<SegModel>, i: int, v: Val)
    ensures
        tree_size(segs, i, v) >= 1,
    decreases segs.len() - i, 1int, 0int,
{
    if 0 <= i < segs.len() {
        match segs[i] {
            SegModel::Key(k) => match v {
                Val::Obj(es) => match lookup_obj(es, key_string(k)) {
                    Some(c) => lemma_tree_size_pos(segs, i + 1, c),
                    None => {},
                },
                _ => {},
            },
            SegModel::Index(n) => match v {
                Val::Arr(items) => if 0 <= n < items.len() {
                    lemma_tree_size_pos(segs, i + 1, items[n]);
                } else {
                },
                _ => {},
            },
            SegModel::KeyVar(_) => match v {
                Val::Obj(es) => lemma_sum_obj_sizes_nonneg(segs, i, es, 0),
                _ => {},
            },
            SegModel::IndexVar(_) => match v {
                Val::Arr(items) => lemma_sum_arr_sizes_nonneg(segs, i, items, 0),
                _ => {},
            },
        }
    }
}

proof fn lemma_sum_obj_sizes_nonneg(segs: Seq<SegModel>, i: int, es: Seq<(Seq<char>, Val)>, j: int)
    ensures
        sum_obj_sizes(segs, i, es, j) >= 0,
    decreases segs.len() - i, 0int, es.len() - j + 2,
{
    if 0 <= i < segs.len() && 0 <= j < es.len() {
        lemma_tree_size_pos(segs, i + 1, es[j].1);
        lemma_sum_obj_sizes_nonneg(segs, i, es, j + 1);
    }
}

proof fn lemma_sum_arr_sizes_nonneg(segs: Seq<SegModel>, i: int, items: Seq<Val>, j: int)
    ensures
        sum_arr_sizes(segs, i, items, j) >= 0,
    decreases segs.len() - i, 0int, items.len() - j + 2,
{
    if 0 <= i < segs.len() && 0 <= j < items.len() {
        lemma_tree_size_pos(segs, i + 1, items[j]);
        lemma_sum_arr_sizes_nonneg(segs, i, items, j + 1);
    }
}

/// A pending branch of the search.
struct SearchState {
    value: Value,
    seg_idx: usize,
    bindings: Vec<(String, Value)>,
}

spec fn state_results(segs: Seq<SegModel>, st: SearchState) -> Set<(Map<Seq<char>, Val>, Val)> {
    search_from(segs, st.seg_idx as int, st.value@, bmap_of(st.bindings@))
}

spec fn queue_measure(q: Seq<SearchState>, head: int, segs: Seq<SegModel>) -> int
    decreases q.len() - head,
{
    if head < 0 || head >= q.len() {
        0
    } else {
        tree_size(segs, q[head].seg_idx as int, q[head].value@) + queue_measure(q, head + 1, segs)
    }
}

proof fn lemma_queue_measure_push(q: Seq<SearchState>, head: int, segs: Seq<SegModel>, st: SearchState)
    requires
        0 <= head <= q.len(),
    ensures
        queue_measure(q.push(st), head, segs) == queue_measure(q, head, segs) + tree_size(
            segs,
            st.seg_idx as int,
            st.value@,
        ),
    decreases q.len() - head,
{
    if head < q.len() {
        lemma_queue_measure_push(q, head + 1, segs, st);
    } else {
        assert(queue_measure(q.push(st), head + 1, segs) == 0);
    }
}

proof fn lemma_queue_measure_nonneg(q: Seq<SearchState>, head: int, segs: Seq<SegModel>)
    ensures
        queue_measure(q, head, segs) >= 0,
    decreases q.len() - head,
{
    if 0 <= head < q.len() {
        lemma_tree_size_pos(segs, q[head].seg_idx as int, q[head].value@);
        lemma_queue_measure_nonneg(q, head + 1, segs);
    }
}

/// Entries with distinct names denote their map pointwise.
proof fn lemma_bmap_index(s: Seq<(String, Value)>, t: int)
    requires
        distinct_seqs(bindings_keys(s)),
        0 <= t < s.len(),
    ensures
        bmap_of(s).contains_key(s[t].0@),
        bmap_of(s)[s[t].0@] == s[t].1@,
    decreases s.len(),
{
    if t == s.len() - 1 {
    } else {
        let d = s.drop_last();
        assert forall|x: int, y: int|
            0 <= x < y < bindings_keys(d).len() implies bindings_keys(d)[x] != bindings_keys(
            d,
        )[y] by {
            assert(bindings_keys(d)[x] == bindings_keys(s)[x]);
            assert(bindings_keys(d)[y] == bindings_keys(s)[y]);
        }
        lemma_bmap_index(s.drop_last(), t);
        assert(s.drop_last()[t] == s[t]);
        assert(bindings_keys(s)[t] != bindings_keys(s)[s.len() - 1]);
    }
}

/// Lists with the same names and the same values denote the same map.
proof fn lemma_bmap_congruent(a: Seq<(String, Value)>, b: Seq<(String, Value)>)
    requires
        a.len() == b.len(),
        forall|t: int| 0 <= t < a.len() ==> (#[trigger] a[t]).0@ == b[t].0@ && a[t].1@ == b[t].1@,
    ensures
        bmap_of(a) == bmap_of(b),
    decreases a.len(),
{
    if a.len() > 0 {
        lemma_bmap_congruent(a.drop_last(), b.drop_last());
        assert(a.last() == a[a.len() - 1]);
        assert(b.last() == b[b.len() - 1]);
    }
}

/// Decides whether two binding lists over the same distinct names denote
/// the same map.
fn compare_bindings(a: &Vec<(String, Value)>, b: &Vec<(String, Value)>) -> (r: bool)
    requires
        bindings_keys(a@) == bindings_keys(b@),
        distinct_seqs(bindings_keys(a@)),
    ensures
        r == (bmap_of(a@) == bmap_of(b@)),
{
    proof {
        assert(a@.len() == bindings_keys(a@).len());
        assert(b@.len() == bindings_keys(b@).len());
    }
    let mut t: usize = 0;
    while t < a.len()
        invariant
            t <= a@.len(),
            a@.len() == b@.len(),
            bindings_keys(a@) == bindings_keys(b@),
            distinct_seqs(bindings_keys(a@)),
            forall|x: int| 0 <= x < t ==> (#[trigger] a@[x]).1@ == b@[x].1@,
        decreases a@.len() - t,
    {
        if !value_eq(&a[t].1, &b[t].1) {
            proof {
                lemma_bmap_index(a@, t as int);
                assert(bindings_keys(b@)[t as int] == b@[t as int].0@);
                assert(a@[t as int].0@ == b@[t as int].0@);
                lemma_bmap_index(b@, t as int);
                assert(bmap_of(a@)[a@[t as int].0@] != bmap_of(b@)[a@[t as int].0@]);
            }
            return false;
        }
        t = t + 1;
    }
    proof {
        assert(forall|x: int|
            0 <= x < a@.len() ==> (#[trigger] a@[x]).0@ == bindings_keys(a@)[x]);
        assert(forall|x: int|
            0 <= x < b@.len() ==> (#[trigger] b@[x]).0@ == bindings_keys(b@)[x]);
        lemma_bmap_congruent(a@, b@);
    }
    true
}

/// Copies a binding list; the copy denotes the same names and values.
fn clone_bindings(v: &Vec<(String, Value)>) -> (r: Vec<(String, Value)>)
    ensures
        r@.len() == v@.len(),
        forall|t: int| 0 <= t < v@.len() ==> (#[trigger] r@[t]).0@ == v@[t].0@ && r@[t].1@
            == v@[t].1@,
        bindings_keys(r@) == bindings_keys(v@),
        bmap_of(r@) == bmap_of(v@),
{
    let mut r: Vec<(String, Value)> = Vec::new();
    let mut t: usize = 0;
    while t < v.len()
        invariant
            t <= v@.len(),
            r@.len() == t,
            forall|x: int| 0 <= x < t ==> (#[trigger] r@[x]).0@ == v@[x].0@ && r@[x].1@
                == v@[x].1@,
        decreases v@.len() - t,
    {
        let (n, val) = &v[t];
        r.push((n.clone(), val.clone()));
        t = t + 1;
    }
    proof {
        assert(bindings_keys(r@) =~= bindings_keys(v@));
        lemma_bmap_congruent(r@, v@);
    }
    r
}

/// The names of the variable segments before position `i` are a prefix of
/// all of them, so distinctness carries over to every prefix.
pub proof fn lemma_var_take_succ(segs: Seq<SegModel>, i: int)
    requires
        0 <= i < segs.len(),
    ensures
        var_name_list(segs.take(i + 1)) == var_name_list(segs.take(i)) + (match crate::types::seg_var_name(
            segs[i],
        ) {
            Some(n) => seq![n],
            None => Seq::<Seq<char>>::empty(),
        }),
{
    assert(segs.take(i + 1).drop_last() =~= segs.take(i));
    assert(segs.take(i + 1).last() == segs[i]);
}

pub proof fn lemma_var_take_prefix(segs: Seq<SegModel>, i: int)
    requires
        0 <= i <= segs.len(),
    ensures
        var_name_list(segs.take(i)).len() <= var_name_list(segs).len(),
        forall|t: int|
            0 <= t < var_name_list(segs.take(i)).len() ==> var_name_list(segs.take(i))[t]
                == var_name_list(segs)[t],
    decreases segs.len() - i,
{
    if i == segs.len() {
        assert(segs.take(i) =~= segs);
    } else {
        lemma_var_take_succ(segs, i);
        lemma_var_take_prefix(segs, i + 1);
    }
}

pub proof fn lemma_var_take_distinct(segs: Seq<SegModel>, i: int)
    requires
        distinct_seqs(var_name_list(segs)),
        0 <= i <= segs.len(),
    ensures
        distinct_seqs(var_name_list(segs.take(i))),
{
    lemma_var_take_prefix(segs, i);
    let l = var_name_list(segs.take(i));
    assert forall|x: int, y: int| 0 <= x < y < l.len() implies l[x] != l[y] by {
        assert(l[x] == var_name_list(segs)[x]);
        assert(l[y] == var_name_list(segs)[y]);
        assert(var_name_list(segs)[x] != var_name_list(segs)[y]);
    }
}

/// An iterator over every distinct variable assignment under which the
/// path matches the tree, each paired with the matched value. One-shot;
/// two assignments count as the same when their binding maps are equal,
/// and only the first is produced.
pub struct VariableIterator {
    path: Structpath,
    queue: Vec<SearchState>,
    head: usize,
    visited: Vec<Vec<(String, Value)>>,
    target: Ghost<Set<(Map<Seq<char>, Val>, Val)>>,
    emitted: Ghost<Set<Map<Seq<char>, Val>>>,
}

impl VariableIterator {
    /// The full set of matches this search enumerates.
    pub closed spec fn results(&self) -> Set<(Map<Seq<char>, Val>, Val)> {
        self.target@
    }

    /// The binding maps already handed out.
    pub closed spec fn emitted(&self) -> Set<Map<Seq<char>, Val>> {
        self.emitted@
    }

    spec fn state_ok(&self, st: SearchState) -> bool {
        &&& st.seg_idx <= self.path@.len()
        &&& bindings_keys(st.bindings@) == var_name_list(self.path@.take(st.seg_idx as int))
        &&& state_results(self.path@, st) <= self.target@
    }

    pub closed spec fn wf(&self) -> bool {
        &&& self.path.wf()
        &&& self.head <= self.queue@.len()
        &&& forall|k: int|
            self.head <= k < self.queue@.len() ==> self.state_ok(#[trigger] self.queue@[k])
        &&& forall|r: (Map<Seq<char>, Val>, Val)|
            self.target@.contains(r) ==> self.emitted@.contains(r.0) || exists|k: int|
                self.head <= k < self.queue@.len() && state_results(
                    self.path@,
                    #[trigger] self.queue@[k],
                ).contains(r)
        &&& forall|b: Map<Seq<char>, Val>|
            self.emitted@.contains(b) ==> exists|t: int|
                0 <= t < self.visited@.len() && bmap_of(self.visited@[t]@) == b
        &&& forall|t: int|
            0 <= t < self.visited@.len() ==> self.emitted@.contains(
                bmap_of(#[trigger] self.visited@[t]@),
            ) && bindings_keys(self.visited@[t]@) == var_name_list(self.path@)
    }

    /// A fresh search of `data` for all resolutions of `path`.
    pub fn new(path: &Structpath, data: &Value) -> (r: VariableIterator)
        requires
            path.wf(),
        ensures
            r.wf(),
            r.results() == search_results(path@, data@),
            r.emitted() == Set::<Map<Seq<char>, Val>>::empty(),
    {
        let mut queue: Vec<SearchState> = Vec::new();
        queue.push(SearchState { value: data.clone(), seg_idx: 0, bindings: Vec::new() });
        let r = VariableIterator {
            path: path.clone(),
            queue,
            head: 0,
            visited: Vec::new(),
            target: Ghost(search_results(path@, data@)),
            emitted: Ghost(Set::empty()),
        };
        proof {
            let st = r.queue@[0];
            assert(st.bindings@.len() == 0);
            assert(bindings_keys(st.bindings@) =~= Seq::<Seq<char>>::empty());
            assert(r.path@.take(0) =~= Seq::<SegModel>::empty());
            assert(var_name_list(r.path@.take(0)) =~= Seq::<Seq<char>>::empty());
            assert(state_results(r.path@, st) =~= search_results(path@, data@));
        }
        r
    }
}

impl VariableIterator {
    /// Whether a binding list denoting this map was already produced.
    #[verifier::loop_isolation(false)]
    fn find_visited(&self, b: &Vec<(String, Value)>) -> (r: bool)
        requires
            distinct_seqs(bindings_keys(b@)),
            forall|t: int|
                0 <= t < self.visited@.len() ==> bindings_keys(
                    (#[trigger] self.visited@[t])@,
                ) == bindings_keys(b@),
        ensures
            r == exists|t: int|
                0 <= t < self.visited@.len() && bmap_of((#[trigger] self.visited@[t])@) == bmap_of(
                    b@,
                ),
    {
        let mut t: usize = 0;
        while t < self.visited.len()
            invariant
                t <= self.visited@.len(),
                forall|x: int|
                    0 <= x < t ==> bmap_of((#[trigger] self.visited@[x])@) != bmap_of(b@),
            decreases self.visited@.len() - t,
        {
            if compare_bindings(&self.visited[t], b) {
                proof {
                    assert(bmap_of((self.visited@[t as int])@) == bmap_of(b@));
                }
                return true;
            }
            t = t + 1;
        }
        false
    }

    /// A popped state's branches, once requeued, still cover everything
    /// the popped state covered, so the queue as a whole stays complete.
    proof fn lemma_requeue_completeness(
        &self,
        q0: Seq<SearchState>,
        head0: int,
        st0: SearchState,
        segsv: Seq<SegModel>,
    )
        requires
            segsv == self.path@,
            0 <= head0 < q0.len(),
            q0[head0] == st0,
            self.head == head0 + 1,
            self.queue@.len() >= q0.len(),
            forall|k: int| 0 <= k < q0.len() ==> self.queue@[k] == q0[k],
            forall|r: (Map<Seq<char>, Val>, Val)|
                self.target@.contains(r) ==> self.emitted@.contains(r.0) || exists|k: int|
                    head0 <= k < q0.len() && state_results(segsv, #[trigger] q0[k]).contains(r),
            forall|r: (Map<Seq<char>, Val>, Val)|
                #[trigger] state_results(segsv, st0).contains(r) ==> exists|k: int|
                    q0.len() <= k < self.queue@.len() && state_results(
                        segsv,
                        #[trigger] self.queue@[k],
                    ).contains(r),
        ensures
            forall|r: (Map<Seq<char>, Val>, Val)|
                self.target@.contains(r) ==> self.emitted@.contains(r.0) || exists|k: int|
                    self.head <= k < self.queue@.len() && state_results(
                        segsv,
                        #[trigger] self.queue@[k],
                    ).contains(r),
    {
        assert forall|r: (Map<Seq<char>, Val>, Val)|
            self.target@.contains(r) implies self.emitted@.contains(r.0) || exists|k: int|
            self.head <= k < self.queue@.len() && state_results(
                segsv,
                #[trigger] self.queue@[k],
            ).contains(r) by {
            if !self.emitted@.contains(r.0) {
                let k0 = choose|k: int|
                    head0 <= k < q0.len() && state_results(segsv, #[trigger] q0[k]).contains(r);
                if k0 == head0 {
                    assert(state_results(segsv, st0).contains(r));
                    let k1 = choose|k: int|
                        q0.len() <= k < self.queue@.len() && state_results(
                            segsv,
                            #[trigger] self.queue@[k],
                        ).contains(r);
                    assert(state_results(segsv, self.queue@[k1]).contains(r));
                } else {
                    assert(state_results(segsv, self.queue@[k0]).contains(r));
                }
            }
        }
    }

    /// Requeues the single branch a literal key segment allows, if any.
    #[verifier::loop_isolation(false)]
    fn expand_literal_key(
        &mut self,
        st_idx: usize,
        value: Value,
        bindings: Vec<(String, Value)>,
        ks: String,
    )
        requires
            old(self).path.wf(),
            old(self).head <= old(self).queue@.len(),
            old(self).path@.len() <= usize::MAX,
            st_idx < old(self).path@.len(),
            old(self).path@[st_idx as int] matches SegModel::Key(kk) && key_string(kk) == ks@,
            bindings_keys(bindings@) == var_name_list(old(self).path@.take(st_idx as int)),
            search_from(old(self).path@, st_idx as int, value@, bmap_of(bindings@))
                <= old(self).target@,
        ensures
            final(self).path == old(self).path,
            final(self).target == old(self).target,
            final(self).emitted == old(self).emitted,
            final(self).visited == old(self).visited,
            final(self).head == old(self).head,
            final(self).queue@.len() >= old(self).queue@.len(),
            forall|k: int|
                0 <= k < old(self).queue@.len() ==> final(self).queue@[k] == old(self).queue@[k],
            forall|k: int|
                old(self).queue@.len() <= k < final(self).queue@.len() ==> final(self).state_ok(
                    #[trigger] final(self).queue@[k],
                ),
            forall|r: (Map<Seq<char>, Val>, Val)|
                #[trigger] search_from(
                    old(self).path@,
                    st_idx as int,
                    value@,
                    bmap_of(bindings@),
                ).contains(r) ==> exists|k: int|
                    old(self).queue@.len() <= k < final(self).queue@.len() && state_results(
                        old(self).path@,
                        #[trigger] final(self).queue@[k],
                    ).contains(r),
            queue_measure(final(self).queue@, final(self).head as int, old(self).path@)
                <= queue_measure(old(self).queue@, old(self).head as int, old(self).path@)
                + tree_size(old(self).path@, st_idx as int, value@) - 1,
    {
        let ghost segsv = self.path@;
        let ghost iidx = st_idx as int;
        let ghost b = bmap_of(bindings@);
        let ghost parent = search_from(segsv, iidx, value@, b);
        proof {
            lemma_queue_measure_nonneg(self.queue@, self.head as int, segsv);
        }
        match value {
            Value::Object(entries) => {
                let ghost ev = entry_vals_of(entries@);
                proof {
                    crate::value::lemma_entry_vals_of_len(entries@);
                }
                let mut j: usize = 0;
                let mut found: Option<usize> = None;
                while j < entries.len()
                    invariant
                        j <= entries@.len(),
                        match found {
                            Some(f) => f < j && ev[f as int].0 == ks@ && (forall|t: int|
                                0 <= t < f ==> (#[trigger] ev[t]).0 != ks@),
                            None => forall|t: int| 0 <= t < j ==> (#[trigger] ev[t]).0 != ks@,
                        },
                    decreases entries@.len() - j,
                {
                    proof {
                        crate::value::lemma_entry_vals_of_index(entries@, j as int);
                    }
                    if found.is_none() && entries[j].0.eq(&ks) {
                        found = Some(j);
                    }
                    j = j + 1;
                }
                match found {
                    Some(f) => {
                        proof {
                            crate::value::lemma_entry_vals_of_index(entries@, f as int);
                            crate::write::lemma_lookup_obj_found(ev, ks@, f as int);
                        }
                        let child = SearchState {
                            value: entries[f].1.clone(),
                            seg_idx: st_idx + 1,
                            bindings,
                        };
                        proof {
                            lemma_var_take_succ(segsv, iidx);
                            assert(var_name_list(segsv.take(iidx + 1)) =~= var_name_list(
                                segsv.take(iidx),
                            ));
                            assert(state_results(segsv, child) == parent);
                            lemma_queue_measure_push(self.queue@, self.head as int, segsv, child);
                            lemma_tree_size_pos(segsv, iidx + 1, child.value@);
                        }
                        self.queue.push(child);
                        proof {
                            let nk = self.queue@.len() - 1;
                            assert(self.queue@[nk] == child);
                            assert forall|r: (Map<Seq<char>, Val>, Val)|
                                #[trigger] parent.contains(r) implies exists|k: int|
                                old(self).queue@.len() <= k < self.queue@.len() && state_results(
                                    segsv,
                                    #[trigger] self.queue@[k],
                                ).contains(r) by {
                                assert(state_results(segsv, self.queue@[nk]).contains(r));
                            }
                        }
                    },
                    None => {
                        proof {
                            crate::write::lemma_lookup_obj_missing(ev, ks@);
                            assert(parent =~= Set::<(Map<Seq<char>, Val>, Val)>::empty());
                            lemma_tree_size_pos(segsv, iidx, value@);
                        }
                    },
                }
            },
            other => {
                proof {
                    assert(parent =~= Set::<(Map<Seq<char>, Val>, Val)>::empty());
                    lemma_tree_size_pos(segsv, iidx, other@);
                }
            },
        }
    }

    /// Requeues the single branch a literal index segment allows, if any.
    #[verifier::loop_isolation(false)]
    fn expand_literal_index(
        &mut self,
        st_idx: usize,
        value: Value,
        bindings: Vec<(String, Value)>,
        n: usize,
    )
        requires
            old(self).path.wf(),
            old(self).head <= old(self).queue@.len(),
            old(self).path@.len() <= usize::MAX,
            st_idx < old(self).path@.len(),
            old(self).path@[st_idx as int] == SegModel::Index(n as int),
            bindings_keys(bindings@) == var_name_list(old(self).path@.take(st_idx as int)),
            search_from(old(self).path@, st_idx as int, value@, bmap_of(bindings@))
                <= old(self).target@,
        ensures
            final(self).path == old(self).path,
            final(self).target == old(self).target,
            final(self).emitted == old(self).emitted,
            final(self).visited == old(self).visited,
            final(self).head == old(self).head,
            final(self).queue@.len() >= old(self).queue@.len(),
            forall|k: int|
                0 <= k < old(self).queue@.len() ==> final(self).queue@[k] == old(self).queue@[k],
            forall|k: int|
                old(self).queue@.len() <= k < final(self).queue@.len() ==> final(self).state_ok(
                    #[trigger] final(self).queue@[k],
                ),
            forall|r: (Map<Seq<char>, Val>, Val)|
                #[trigger] search_from(
                    old(self).path@,
                    st_idx as int,
                    value@,
                    bmap_of(bindings@),
                ).contains(r) ==> exists|k: int|
                    old(self).queue@.len() <= k < final(self).queue@.len() && state_results(
                        old(self).path@,
                        #[trigger] final(self).queue@[k],
                    ).contains(r),
            queue_measure(final(self).queue@, final(self).head as int, old(self).path@)
                <= queue_measure(old(self).queue@, old(self).head as int, old(self).path@)
                + tree_size(old(self).path@, st_idx as int, value@) - 1,
    {
        let ghost segsv = self.path@;
        let ghost iidx = st_idx as int;
        let ghost b = bmap_of(bindings@);
        let ghost parent = search_from(segsv, iidx, value@, b);
        proof {
            lemma_queue_measure_nonneg(self.queue@, self.head as int, segsv);
        }
        match value {
            Value::Array(items) => {
                proof {
                    crate::value::lemma_vals_of_len(items@);
                }
                if n < items.len() {
                    proof {
                        crate::value::lemma_vals_of_index(items@, n as int);
                    }
                    let child = SearchState {
                        value: items[n].clone(),
                        seg_idx: st_idx + 1,
                        bindings,
                    };
                    proof {
                        lemma_var_take_succ(segsv, iidx);
                        assert(var_name_list(segsv.take(iidx + 1)) =~= var_name_list(
                            segsv.take(iidx),
                        ));
                        assert(state_results(segsv, child) == parent);
                        lemma_queue_measure_push(self.queue@, self.head as int, segsv, child);
                        lemma_tree_size_pos(segsv, iidx + 1, child.value@);
                    }
                    self.queue.push(child);
                    proof {
                        let nk = self.queue@.len() - 1;
                        assert(self.queue@[nk] == child);
                        assert forall|r: (Map<Seq<char>, Val>, Val)|
                            #[trigger] parent.contains(r) implies exists|k: int|
                            old(self).queue@.len() <= k < self.queue@.len() && state_results(
                                segsv,
                                #[trigger] self.queue@[k],
                            ).contains(r) by {
                            assert(state_results(segsv, self.queue@[nk]).contains(r));
                        }
                    }
                } else {
                    proof {
                        assert(parent =~= Set::<(Map<Seq<char>, Val>, Val)>::empty());
                        lemma_tree_size_pos(segsv, iidx, value@);
                    }
                }
            },
            other => {
                proof {
                    assert(parent =~= Set::<(Map<Seq<char>, Val>, Val)>::empty());
                    lemma_tree_size_pos(segsv, iidx, other@);
                }
            },
        }
    }

    /// Requeues one branch per object entry for a key variable segment.
    #[verifier::loop_isolation(false)]
    fn expand_key_variable(
        &mut self,
        st_idx: usize,
        value: Value,
        bindings: Vec<(String, Value)>,
        name: String,
    )
        requires
            old(self).path.wf(),
            old(self).head <= old(self).queue@.len(),
            old(self).path@.len() <= usize::MAX,
            st_idx < old(self).path@.len(),
            old(self).path@[st_idx as int] == SegModel::KeyVar(name@),
            bindings_keys(bindings@) == var_name_list(old(self).path@.take(st_idx as int)),
            search_from(old(self).path@, st_idx as int, value@, bmap_of(bindings@))
                <= old(self).target@,
        ensures
            final(self).path == old(self).path,
            final(self).target == old(self).target,
            final(self).emitted == old(self).emitted,
            final(self).visited == old(self).visited,
            final(self).head == old(self).head,
            final(self).queue@.len() >= old(self).queue@.len(),
            forall|k: int|
                0 <= k < old(self).queue@.len() ==> final(self).queue@[k] == old(self).queue@[k],
            forall|k: int|
                old(self).queue@.len() <= k < final(self).queue@.len() ==> final(self).state_ok(
                    #[trigger] final(self).queue@[k],
                ),
            forall|r: (Map<Seq<char>, Val>, Val)|
                #[trigger] search_from(
                    old(self).path@,
                    st_idx as int,
                    value@,
                    bmap_of(bindings@),
                ).contains(r) ==> exists|k: int|
                    old(self).queue@.len() <= k < final(self).queue@.len() && state_results(
                        old(self).path@,
                        #[trigger] final(self).queue@[k],
                    ).contains(r),
            queue_measure(final(self).queue@, final(self).head as int, old(self).path@)
                <= queue_measure(old(self).queue@, old(self).head as int, old(self).path@)
                + tree_size(old(self).path@, st_idx as int, value@) - 1,
    {
        let ghost segsv = self.path@;
        let ghost iidx = st_idx as int;
        let ghost b = bmap_of(bindings@);
        let ghost parent = search_from(segsv, iidx, value@, b);
        let ghost base_len = self.queue@.len();
        let ghost base_measure = queue_measure(self.queue@, self.head as int, segsv);
        proof {
            lemma_queue_measure_nonneg(self.queue@, self.head as int, segsv);
            lemma_var_take_succ(segsv, iidx);
        }
        match value {
            Value::Object(entries) => {
                let ghost ev = entry_vals_of(entries@);
                proof {
                    crate::value::lemma_entry_vals_of_len(entries@);
                }
                let mut j: usize = 0;
                while j < entries.len()
                    invariant
                        j <= entries@.len(),
                        self.path == old(self).path,
                        self.target == old(self).target,
                        self.emitted == old(self).emitted,
                        self.visited == old(self).visited,
                        self.head == old(self).head,
                        self.queue@.len() >= base_len,
                        forall|k: int| 0 <= k < base_len ==> self.queue@[k] == old(self).queue@[k],
                        forall|k: int|
                            base_len <= k < self.queue@.len() ==> self.state_ok(
                                #[trigger] self.queue@[k],
                            ),
                        forall|r: (Map<Seq<char>, Val>, Val)|
                            #[trigger] parent.contains(r) ==> (exists|k: int|
                                base_len <= k < self.queue@.len() && state_results(
                                    segsv,
                                    #[trigger] self.queue@[k],
                                ).contains(r)) || (exists|j2: int|
                                j <= j2 < ev.len() && search_from(
                                    segsv,
                                    iidx + 1,
                                    ev[j2].1,
                                    b.insert(name@, Val::Str(ev[j2].0)),
                                ).contains(r)),
                        queue_measure(self.queue@, self.head as int, segsv) <= base_measure + (
                        sum_obj_sizes(segsv, iidx, ev, 0) - sum_obj_sizes(segsv, iidx, ev, j as int)),
                    decreases entries@.len() - j,
                {
                    proof {
                        crate::value::lemma_entry_vals_of_index(entries@, j as int);
                        lemma_sum_obj_sizes_nonneg(segsv, iidx, ev, j + 1 as int);
                    }
                    let mut nb = clone_bindings(&bindings);
                    nb.push((name.clone(), Value::String(entries[j].0.clone())));
                    let ghost nbv = nb@;
                    proof {
                        assert(nbv.drop_last() =~= nb@.take(nbv.len() - 1));
                        assert(bmap_of(nbv.drop_last()) == b) by {
                            assert(nbv.drop_last().len() == bindings@.len());
                            assert(forall|t: int|
                                0 <= t < bindings@.len() ==> (#[trigger] nbv.drop_last()[t])
                                    == nbv[t]);
                            lemma_bmap_congruent(nbv.drop_last(), bindings@);
                        }
                        assert(bmap_of(nbv) == b.insert(name@, Val::Str(ev[j as int].0)));
                        assert(bindings_keys(nbv) =~= bindings_keys(bindings@).push(name@));
                        assert(bindings_keys(nbv) =~= var_name_list(segsv.take(iidx + 1)));
                    }
                    let child = SearchState {
                        value: entries[j].1.clone(),
                        seg_idx: st_idx + 1,
                        bindings: nb,
                    };
                    proof {
                        // the child's results embed into the parent's by
                        // picking this entry
                        assert forall|r: (Map<Seq<char>, Val>, Val)|
                            #[trigger] state_results(segsv, child).contains(r) implies
                            parent.contains(r) by {
                            assert(search_from(
                                segsv,
                                iidx + 1,
                                ev[j as int].1,
                                b.insert(name@, Val::Str(ev[j as int].0)),
                            ).contains(r));
                        }
                        lemma_queue_measure_push(self.queue@, self.head as int, segsv, child);
                    }
                    let ghost q1 = self.queue@;
                    self.queue.push(child);
                    proof {
                        let nk = q1.len() as int;
                        assert(self.queue@[nk] == child);
                        assert forall|r: (Map<Seq<char>, Val>, Val)|
                            #[trigger] parent.contains(r) implies (exists|k: int|
                                base_len <= k < self.queue@.len() && state_results(
                                    segsv,
                                    #[trigger] self.queue@[k],
                                ).contains(r)) || (exists|j2: int|
                                j + 1 <= j2 < ev.len() && search_from(
                                    segsv,
                                    iidx + 1,
                                    ev[j2].1,
                                    b.insert(name@, Val::Str(ev[j2].0)),
                                ).contains(r)) by {
                            if exists|k: int|
                                base_len <= k < q1.len() && state_results(
                                    segsv,
                                    #[trigger] q1[k],
                                ).contains(r) {
                                let k0 = choose|k: int|
                                    base_len <= k < q1.len() && state_results(
                                        segsv,
                                        #[trigger] q1[k],
                                    ).contains(r);
                                assert(self.queue@[k0] == q1[k0]);
                                assert(state_results(segsv, self.queue@[k0]).contains(r));
                            } else {
                                let j2 = choose|j2: int|
                                    j <= j2 < ev.len() && search_from(
                                        segsv,
                                        iidx + 1,
                                        ev[j2].1,
                                        b.insert(name@, Val::Str(ev[j2].0)),
                                    ).contains(r);
                                if j2 == j {
                                    assert(state_results(segsv, self.queue@[nk]).contains(r));
                                } else {
                                    assert(j + 1 <= j2 < ev.len() && search_from(
                                        segsv,
                                        iidx + 1,
                                        ev[j2].1,
                                        b.insert(name@, Val::Str(ev[j2].0)),
                                    ).contains(r));
                                }
                            }
                        }
                    }
                    j = j + 1;
                }
                proof {
                    assert(sum_obj_sizes(segsv, iidx, ev, entries@.len() as int) == 0);
                    assert(tree_size(segsv, iidx, value@) == 1 + sum_obj_sizes(segsv, iidx, ev, 0));
                    assert forall|r: (Map<Seq<char>, Val>, Val)|
                        #[trigger] parent.contains(r) implies exists|k: int|
                        base_len <= k < self.queue@.len() && state_results(
                            segsv,
                            #[trigger] self.queue@[k],
                        ).contains(r) by {
                        if exists|j2: int|
                            entries@.len() <= j2 < ev.len() && search_from(
                                segsv,
                                iidx + 1,
                                ev[j2].1,
                                b.insert(name@, Val::Str(ev[j2].0)),
                            ).contains(r) {
                        }
                    }
                }
            },
            other => {
                proof {
                    assert(parent =~= Set::<(Map<Seq<char>, Val>, Val)>::empty());
                    lemma_tree_size_pos(segsv, iidx, other@);
                }
            },
        }
    }

    /// Requeues one branch per array index for an index variable segment.
    #[verifier::loop_isolation(false)]
    fn expand_index_variable(
        &mut self,
        st_idx: usize,
        value: Value,
        bindings: Vec<(String, Value)>,
        name: String,
    )
        requires
            old(self).path.wf(),
            old(self).head <= old(self).queue@.len(),
            old(self).path@.len() <= usize::MAX,
            st_idx < old(self).path@.len(),
            old(self).path@[st_idx as int] == SegModel::IndexVar(name@),
            bindings_keys(bindings@) == var_name_list(old(self).path@.take(st_idx as int)),
            search_from(old(self).path@, st_idx as int, value@, bmap_of(bindings@))
                <= old(self).target@,
        ensures
            final(self).path == old(self).path,
            final(self).target == old(self).target,
            final(self).emitted == old(self).emitted,
            final(self).visited == old(self).visited,
            final(self).head == old(self).head,
            final(self).queue@.len() >= old(self).queue@.len(),
            forall|k: int|
                0 <= k < old(self).queue@.len() ==> final(self).queue@[k] == old(self).queue@[k],
            forall|k: int|
                old(self).queue@.len() <= k < final(self).queue@.len() ==> final(self).state_ok(
                    #[trigger] final(self).queue@[k],
                ),
            forall|r: (Map<Seq<char>, Val>, Val)|
                #[trigger] search_from(
                    old(self).path@,
                    st_idx as int,
                    value@,
                    bmap_of(bindings@),
                ).contains(r) ==> exists|k: int|
                    old(self).queue@.len() <= k < final(self).queue@.len() && state_results(
                        old(self).path@,
                        #[trigger] final(self).queue@[k],
                    ).contains(r),
            queue_measure(final(self).queue@, final(self).head as int, old(self).path@)
                <= queue_measure(old(self).queue@, old(self).head as int, old(self).path@)
                + tree_size(old(self).path@, st_idx as int, value@) - 1,
    {
        let ghost segsv = self.path@;
        let ghost iidx = st_idx as int;
        let ghost b = bmap_of(bindings@);
        let ghost parent = search_from(segsv, iidx, value@, b);
        let ghost base_len = self.queue@.len();
        let ghost base_measure = queue_measure(self.queue@, self.head as int, segsv);
        proof {
            lemma_queue_measure_nonneg(self.queue@, self.head as int, segsv);
            lemma_var_take_succ(segsv, iidx);
        }
        match value {
            Value::Array(items) => {
                let ghost iv = vals_of(items@);
                proof {
                    crate::value::lemma_vals_of_len(items@);
                }
                let mut j: usize = 0;
                while j < items.len()
                    invariant
                        j <= items@.len(),
                        self.path == old(self).path,
                        self.target == old(self).target,
                        self.emitted == old(self).emitted,
                        self.visited == old(self).visited,
                        self.head == old(self).head,
                        self.queue@.len() >= base_len,
                        forall|k: int| 0 <= k < base_len ==> self.queue@[k] == old(self).queue@[k],
                        forall|k: int|
                            base_len <= k < self.queue@.len() ==> self.state_ok(
                                #[trigger] self.queue@[k],
                            ),
                        forall|r: (Map<Seq<char>, Val>, Val)|
                            #[trigger] parent.contains(r) ==> (exists|k: int|
                                base_len <= k < self.queue@.len() && state_results(
                                    segsv,
                                    #[trigger] self.queue@[k],
                                ).contains(r)) || (exists|j2: int|
                                j <= j2 < iv.len() && 0 <= j2 <= i64::MAX && search_from(
                                    segsv,
                                    iidx + 1,
                                    iv[j2],
                                    b.insert(name@, Val::Num(j2)),
                                ).contains(r)),
                        queue_measure(self.queue@, self.head as int, segsv) <= base_measure + (
                        sum_arr_sizes(segsv, iidx, iv, 0) - sum_arr_sizes(segsv, iidx, iv, j as int)),
                    decreases items@.len() - j,
                {
                    proof {
                        crate::value::lemma_vals_of_index(items@, j as int);
                        lemma_sum_arr_sizes_nonneg(segsv, iidx, iv, j + 1 as int);
                        lemma_tree_size_pos(segsv, iidx + 1, iv[j as int]);
                    }
                    if (j as u64) <= 9223372036854775807u64 {
                        let mut nb = clone_bindings(&bindings);
                        nb.push((name.clone(), Value::Number(j as i64)));
                        let ghost nbv = nb@;
                        proof {
                            assert(bmap_of(nbv.drop_last()) == b) by {
                                assert(nbv.drop_last().len() == bindings@.len());
                                assert(forall|t: int|
                                    0 <= t < bindings@.len() ==> (#[trigger] nbv.drop_last()[t])
                                        == nbv[t]);
                                lemma_bmap_congruent(nbv.drop_last(), bindings@);
                            }
                            assert(bmap_of(nbv) == b.insert(name@, Val::Num(j as int)));
                            assert(bindings_keys(nbv) =~= bindings_keys(bindings@).push(name@));
                            assert(bindings_keys(nbv) =~= var_name_list(segsv.take(iidx + 1)));
                        }
                        let child = SearchState {
                            value: items[j].clone(),
                            seg_idx: st_idx + 1,
                            bindings: nb,
                        };
                        proof {
                            assert forall|r: (Map<Seq<char>, Val>, Val)|
                                #[trigger] state_results(segsv, child).contains(r) implies
                                parent.contains(r) by {
                                assert(search_from(
                                    segsv,
                                    iidx + 1,
                                    iv[j as int],
                                    b.insert(name@, Val::Num(j as int)),
                                ).contains(r));
                            }
                            lemma_queue_measure_push(self.queue@, self.head as int, segsv, child);
                        }
                        let ghost q1 = self.queue@;
                        self.queue.push(child);
                        proof {
                            let nk = q1.len() as int;
                            assert(self.queue@[nk] == child);
                            assert forall|r: (Map<Seq<char>, Val>, Val)|
                                #[trigger] parent.contains(r) implies (exists|k: int|
                                    base_len <= k < self.queue@.len() && state_results(
                                        segsv,
                                        #[trigger] self.queue@[k],
                                    ).contains(r)) || (exists|j2: int|
                                    j + 1 <= j2 < iv.len() && 0 <= j2 <= i64::MAX && search_from(
                                        segsv,
                                        iidx + 1,
                                        iv[j2],
                                        b.insert(name@, Val::Num(j2)),
                                    ).contains(r)) by {
                                if exists|k: int|
                                    base_len <= k < q1.len() && state_results(
                                        segsv,
                                        #[trigger] q1[k],
                                    ).contains(r) {
                                    let k0 = choose|k: int|
                                        base_len <= k < q1.len() && state_results(
                                            segsv,
                                            #[trigger] q1[k],
                                        ).contains(r);
                                    assert(self.queue@[k0] == q1[k0]);
                                    assert(state_results(segsv, self.queue@[k0]).contains(r));
                                } else {
                                    let j2 = choose|j2: int|
                                        j <= j2 < iv.len() && 0 <= j2 <= i64::MAX && search_from(
                                            segsv,
                                            iidx + 1,
                                            iv[j2],
                                            b.insert(name@, Val::Num(j2)),
                                        ).contains(r);
                                    if j2 == j {
                                        assert(state_results(segsv, self.queue@[nk]).contains(r));
                                    } else {
                                        assert(j + 1 <= j2 < iv.len() && 0 <= j2 <= i64::MAX
                                            && search_from(
                                            segsv,
                                            iidx + 1,
                                            iv[j2],
                                            b.insert(name@, Val::Num(j2)),
                                        ).contains(r));
                                    }
                                }
                            }
                        }
                    } else {
                        proof {
                            assert(j > i64::MAX);
                            assert forall|r: (Map<Seq<char>, Val>, Val)|
                                #[trigger] parent.contains(r) implies (exists|k: int|
                                    base_len <= k < self.queue@.len() && state_results(
                                        segsv,
                                        #[trigger] self.queue@[k],
                                    ).contains(r)) || (exists|j2: int|
                                    j + 1 <= j2 < iv.len() && 0 <= j2 <= i64::MAX && search_from(
                                        segsv,
                                        iidx + 1,
                                        iv[j2],
                                        b.insert(name@, Val::Num(j2)),
                                    ).contains(r)) by {
                                if !(exists|k: int|
                                    base_len <= k < self.queue@.len() && state_results(
                                        segsv,
                                        #[trigger] self.queue@[k],
                                    ).contains(r)) {
                                    let j2 = choose|j2: int|
                                        j <= j2 < iv.len() && 0 <= j2 <= i64::MAX && search_from(
                                            segsv,
                                            iidx + 1,
                                            iv[j2],
                                            b.insert(name@, Val::Num(j2)),
                                        ).contains(r);
                                    assert(j2 >= j + 1);
                                }
                            }
                        }
                    }
                    j = j + 1;
                }
                proof {
                    assert(sum_arr_sizes(segsv, iidx, iv, items@.len() as int) == 0);
                    assert(tree_size(segsv, iidx, value@) == 1 + sum_arr_sizes(segsv, iidx, iv, 0));
                    assert forall|r: (Map<Seq<char>, Val>, Val)|
                        #[trigger] parent.contains(r) implies exists|k: int|
                        base_len <= k < self.queue@.len() && state_results(
                            segsv,
                            #[trigger] self.queue@[k],
                        ).contains(r) by {
                        if exists|j2: int|
                            items@.len() <= j2 < iv.len() && search_from(
                                segsv,
                                iidx + 1,
                                iv[j2],
                                b.insert(name@, Val::Num(j2)),
                            ).contains(r) {
                        }
                    }
                }
            },
            other => {
                proof {
                    assert(parent =~= Set::<(Map<Seq<char>, Val>, Val)>::empty());
                    lemma_tree_size_pos(segsv, iidx, other@);
                }
            },
        }
    }

    /// Produces the next match: a value together with the variable
    /// bindings under which the path reaches it. Every produced binding
    /// map is new, every produced pair is a genuine match, and when the
    /// search is exhausted every match's bindings have been produced.
    pub fn next(&mut self) -> (r: Option<(Value, Vec<(String, Value)>)>)
        requires
            old(self).wf(),
        ensures
            final(self).wf(),
            final(self).results() == old(self).results(),
            match r {
                Some(pair) => {
                    &&& !old(self).emitted().contains(bmap_of(pair.1@))
                    &&& old(self).results().contains((bmap_of(pair.1@), pair.0@))
                    &&& final(self).emitted() == old(self).emitted().insert(bmap_of(pair.1@))
                },
                None => {
                    &&& final(self).emitted() == old(self).emitted()
                    &&& forall|p: (Map<Seq<char>, Val>, Val)|
                        #[trigger] final(self).results().contains(p)
                            ==> final(self).emitted().contains(p.0)
                },
            },
    {
        loop
            invariant
                self.wf(),
                self.path == old(self).path,
                self.target == old(self).target,
                self.emitted == old(self).emitted,
                self.visited == old(self).visited,
            decreases queue_measure(self.queue@, self.head as int, self.path@),
        {
            proof {
                lemma_queue_measure_nonneg(self.queue@, self.head as int, self.path@);
            }
            if self.head >= self.queue.len() {
                return None;
            }
            let ghost q0 = self.queue@;
            let ghost head0 = self.head as int;
            let ghost st0 = self.queue@[head0];
            let ghost segsv = self.path@;
            let ghost b0 = bmap_of(st0.bindings@);
            let st_idx = self.queue[self.head].seg_idx;
            let st_value = self.queue[self.head].value.clone();
            let st_bindings = clone_bindings(&self.queue[self.head].bindings);
            self.head = self.head + 1;
            proof {
                assert(self.state_ok(st0));
                lemma_tree_size_pos(segsv, st0.seg_idx as int, st0.value@);
                assert(queue_measure(q0, head0, segsv) == tree_size(
                    segsv,
                    st0.seg_idx as int,
                    st0.value@,
                ) + queue_measure(q0, head0 + 1, segsv));
                assert(bmap_of(st_bindings@) == b0);
            }
            let plen = self.path.segments().len();
            if st_idx >= plen {
                proof {
                    assert(st0.seg_idx == segsv.len());
                    assert(segsv.take(st0.seg_idx as int) =~= segsv);
                    assert(state_results(segsv, st0) =~= set![(b0, st0.value@)]);
                    assert(state_results(segsv, st0).contains((b0, st0.value@)));
                    assert(self.target@.contains((b0, st0.value@)));
                }
                proof {
                    assert(bindings_keys(st_bindings@) == var_name_list(segsv));
                    assert(distinct_seqs(var_name_list(segsv)));
                }
                let dup = self.find_visited(&st_bindings);
                if dup {
                    // this binding map has already been produced; the
                    // branch collapses into the earlier one
                    proof {
                        assert(self.queue@ == q0);
                        assert(queue_measure(self.queue@, self.head as int, self.path@)
                            == queue_measure(q0, head0 + 1, segsv));
                        assert(queue_measure(self.queue@, self.head as int, self.path@)
                            < queue_measure(q0, head0, segsv));
                        lemma_queue_measure_nonneg(self.queue@, self.head as int, self.path@);
                        let tt = choose|tt: int|
                            0 <= tt < self.visited@.len() && bmap_of((self.visited@[tt])@) == b0;
                        assert(self.emitted@.contains(bmap_of((self.visited@[tt])@)));
                        assert(self.emitted@.contains(b0));
                        assert forall|r: (Map<Seq<char>, Val>, Val)|
                            self.target@.contains(r) implies self.emitted@.contains(r.0) || exists|
                            k: int,
                        |
                            self.head <= k < self.queue@.len() && state_results(
                                self.path@,
                                #[trigger] self.queue@[k],
                            ).contains(r) by {
                            if !self.emitted@.contains(r.0) {
                                let k0 = choose|k: int|
                                    head0 <= k < q0.len() && state_results(
                                        segsv,
                                        #[trigger] q0[k],
                                    ).contains(r);
                                if k0 == head0 {
                                    assert(r == (b0, st0.value@));
                                    assert(self.emitted@.contains(r.0));
                                } else {
                                    assert(state_results(self.path@, self.queue@[k0]).contains(r));
                                }
                            }
                        }
                    }
                } else {
                    proof {
                        assert(!self.emitted@.contains(b0)) by {
                            if self.emitted@.contains(b0) {
                                let tt = choose|tt: int|
                                    0 <= tt < self.visited@.len() && bmap_of(
                                        (self.visited@[tt])@,
                                    ) == b0;
                                assert(bmap_of((self.visited@[tt])@) == b0);
                            }
                        }
                    }
                    let keep = clone_bindings(&st_bindings);
                    self.visited.push(keep);
                    self.emitted = Ghost(self.emitted@.insert(b0));
                    proof {
                        let nv = self.visited@.len() - 1;
                        assert(self.visited@[nv] == keep);
                        assert(bmap_of(self.visited@[nv]@) == b0);
                        assert forall|b: Map<Seq<char>, Val>|
                            self.emitted@.contains(b) implies exists|x: int|
                            0 <= x < self.visited@.len() && bmap_of(self.visited@[x]@) == b by {
                            if b == b0 {
                                assert(bmap_of(self.visited@[nv]@) == b);
                            } else {
                                let x0 = choose|x: int|
                                    0 <= x < old(self).visited@.len() && bmap_of(
                                        old(self).visited@[x]@,
                                    ) == b;
                                assert(bmap_of(self.visited@[x0]@) == b);
                            }
                        }
                        assert forall|r: (Map<Seq<char>, Val>, Val)|
                            self.target@.contains(r) implies self.emitted@.contains(r.0) || exists|
                            k: int,
                        |
                            self.head <= k < self.queue@.len() && state_results(
                                self.path@,
                                #[trigger] self.queue@[k],
                            ).contains(r) by {
                            if !self.emitted@.contains(r.0) {
                                assert(!old(self).emitted@.contains(r.0));
                                let k0 = choose|k: int|
                                    head0 <= k < q0.len() && state_results(
                                        segsv,
                                        #[trigger] q0[k],
                                    ).contains(r);
                                if k0 == head0 {
                                    assert(r == (b0, st0.value@));
                                } else {
                                    assert(state_results(self.path@, self.queue@[k0]).contains(r));
                                }
                            }
                        }
                        assert(st_value@ == st0.value@);
                    }
                    return Some((st_value, st_bindings));
                }
            } else {
                let seg = {
                    let segs = self.path.segments();
                    segs[st_idx].clone()
                };
                let ghost iidx = st_idx as int;
                proof {
                    assert(seg@ == segsv[iidx]);
                    lemma_var_take_succ(segsv, iidx);
                }
                proof {
                    assert(self.path@.len() <= usize::MAX);
                    assert(st_value@ == st0.value@);
                    assert(bindings_keys(st_bindings@) == var_name_list(
                        segsv.take(st_idx as int),
                    ));
                    assert(search_from(segsv, st_idx as int, st_value@, bmap_of(st_bindings@))
                        == state_results(segsv, st0));
                }
                match seg {
                    Segment::Key(SegmentKey::String(ks)) => {
                        self.expand_literal_key(st_idx, st_value, st_bindings, ks);
                    },
                    Segment::Key(SegmentKey::Int(ki)) => {
                        let ks = crate::digits::i64_to_string(ki);
                        self.expand_literal_key(st_idx, st_value, st_bindings, ks);
                    },
                    Segment::Index(n) => {
                        self.expand_literal_index(st_idx, st_value, st_bindings, n);
                    },
                    Segment::KeyVariable(name) => {
                        self.expand_key_variable(st_idx, st_value, st_bindings, name);
                    },
                    Segment::IndexVariable(name) => {
                        self.expand_index_variable(st_idx, st_value, st_bindings, name);
                    },
                }
                proof {
                    self.lemma_requeue_completeness(q0, head0, st0, segsv);
                    assert forall|k: int|
                        self.head <= k < self.queue@.len() implies self.state_ok(
                        #[trigger] self.queue@[k],
                    ) by {
                        if k < q0.len() {
                            assert(self.queue@[k] == q0[k]);
                        }
                    }
                    assert(queue_measure(self.queue@, self.head as int, segsv) <= queue_measure(
                        q0,
                        head0,
                        segsv,
                    ) - 1);
                    lemma_queue_measure_nonneg(self.queue@, self.head as int, segsv);
                }
            }
        }
    }
}

impl Structpath {
    /// A fresh search of `data` for all resolutions of this path; see
    /// `VariableIterator::new`.
    pub fn iter<'a>(&self, data: &'a Value) -> (r: VariableIterator)
        requires
            self.wf(),
        ensures
            r.wf(),
            r.results() == search_results(self@, data@),
            r.emitted() == Set::<Map<Seq<char>, Val>>::empty(),
    {
        VariableIterator::new(self, data)
    }
}

/// A fresh search of `data` for all resolutions of `path`; see
/// `VariableIterator::new`.
pub fn iter_variables(path: &Structpath, data: &Value) -> (r: VariableIterator)
    requires
        path.wf(),
    ensures
        r.wf(),
        r.results() == search_results(path@, data@),
        r.emitted() == Set::<Map<Seq<char>, Val>>::empty(),
{
    VariableIterator::new(path, data)
}

} // verus!
