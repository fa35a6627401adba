//! The library's laws: statements that tie the operations together, proved
//! once and for all.

use vstd::prelude::*;

verus! {

use crate::access::{get_spec, lookup_obj};
use crate::digits::{
    decimal_int, digits_of, is_digit, lemma_digits_of_props, lemma_parse_decimal_i64,
    lemma_parse_digits_usize, parse_i64_spec,
};
use crate::format::{escape_chars, format_from, format_seg, format_spec, is_key_like, is_special};
use crate::iter::{lemma_var_take_distinct, lemma_var_take_prefix, lemma_var_take_succ};
use crate::parse::{
    append_plain, cleared, finalize, init_state, lemma_run_concat, parse_spec, parse_step,
    parse_tail, run_steps, ParseState,
};
use crate::types::{
    distinct_seqs, seg_var_name, var_name_list, ErrModel, KeyModel, SegModel,
};
use crate::value::Val;
use crate::write::{pad_nulls, store_obj, write_rec, write_spec, RSeg};

/// Reading is deterministic: the result of `get` is a function of the
/// path, the tree and the bindings, so repeated calls agree.
pub proof fn lemma_get_deterministic(
    segs: Seq<SegModel>,
    v: Val,
    vars: Option<Map<Seq<char>, Seq<char>>>,
    r1: Result<Val, ErrModel>,
    r2: Result<Val, ErrModel>,
)
    requires
        r1 == get_spec(segs, v, vars),
        r2 == get_spec(segs, v, vars),
    ensures
        r1 == r2,
{
}

/// Looking up the key just stored finds the stored value.
proof fn lemma_lookup_store(entries: Seq<(Seq<char>, Val)>, key: Seq<char>, val: Val)
    ensures
        lookup_obj(store_obj(entries, key, val), key) == Some(val),
    decreases entries.len(),
{
    if entries.len() == 0 {
    } else if entries.first().0 == key {
        assert(store_obj(entries, key, val).first() == (key, val));
    } else {
        lemma_lookup_store(entries.drop_first(), key, val);
        assert(store_obj(entries, key, val).first() == entries.first());
        assert(store_obj(entries, key, val).drop_first() =~= store_obj(
            entries.drop_first(),
            key,
            val,
        ));
    }
}

/// Storing the same value under the same key twice is the same as once.
proof fn lemma_store_store(entries: Seq<(Seq<char>, Val)>, key: Seq<char>, val: Val)
    ensures
        store_obj(store_obj(entries, key, val), key, val) == store_obj(entries, key, val),
    decreases entries.len(),
{
    if entries.len() == 0 {
        assert(store_obj(store_obj(entries, key, val), key, val) =~= store_obj(entries, key, val));
    } else if entries.first().0 == key {
        let s1 = store_obj(entries, key, val);
        assert(s1.first() == (key, val));
        assert(s1.drop_first() =~= entries.drop_first());
        assert(store_obj(s1, key, val) =~= s1);
    } else {
        lemma_store_store(entries.drop_first(), key, val);
        let s1 = store_obj(entries, key, val);
        assert(s1.first() == entries.first());
        assert(s1.drop_first() =~= store_obj(entries.drop_first(), key, val));
        assert(store_obj(s1, key, val) =~= s1);
    }
}

/// Writing the same value along the same resolved segments twice leaves
/// the tree exactly as one write does.
pub proof fn lemma_write_rec_idempotent(rsegs: Seq<RSeg>, i: int, cur: Val, newval: Val)
    requires
        crate::write::rsegs_index_nonneg(rsegs),
    ensures
        write_rec(rsegs, i, write_rec(rsegs, i, cur, newval), newval) == write_rec(
            rsegs,
            i,
            cur,
            newval,
        ),
    decreases rsegs.len() - i,
{
    if i < 0 || i >= rsegs.len() {
    } else {
        match rsegs[i] {
            RSeg::Key(k) => {
                let entries = match cur {
                    Val::Obj(es) => es,
                    _ => Seq::<(Seq<char>, Val)>::empty(),
                };
                let child = match lookup_obj(entries, k) {
                    Some(c) => c,
                    None => Val::Null,
                };
                let c1 = write_rec(rsegs, i + 1, child, newval);
                lemma_write_rec_idempotent(rsegs, i + 1, child, newval);
                lemma_lookup_store(entries, k, c1);
                lemma_store_store(entries, k, c1);
                let once = write_rec(rsegs, i, cur, newval);
                assert(once == Val::Obj(store_obj(entries, k, c1)));
                assert(write_rec(rsegs, i, once, newval) == Val::Obj(
                    store_obj(store_obj(entries, k, c1), k, write_rec(rsegs, i + 1, c1, newval)),
                ));
            },
            RSeg::Index(n) => {
                let items = match cur {
                    Val::Arr(vs) => vs,
                    _ => Seq::<Val>::empty(),
                };
                let padded = pad_nulls(items, n);
                let c1 = write_rec(rsegs, i + 1, padded[n], newval);
                lemma_write_rec_idempotent(rsegs, i + 1, padded[n], newval);
                let once = write_rec(rsegs, i, cur, newval);
                assert(once == Val::Arr(padded.update(n, c1)));
                let items2 = padded.update(n, c1);
                assert(pad_nulls(items2, n) =~= items2);
                assert(items2[n] == c1);
                assert(write_rec(rsegs, i + 1, c1, newval) == c1);
                assert(items2.update(n, c1) =~= items2);
            },
        }
    }
}

/// Write idempotence on overwrite: writing the same value to the same
/// resolved location twice yields the same final tree as writing it once.
pub proof fn lemma_write_idempotent(
    segs: Seq<SegModel>,
    data: Option<Val>,
    newval: Val,
    vars: Option<Map<Seq<char>, Seq<char>>>,
    once: Val,
)
    requires
        crate::types::segs_index_nonneg(segs),
        write_spec(segs, data, newval, vars) == Ok::<Val, ErrModel>(once),
    ensures
        write_spec(segs, Some(once), newval, vars) == Ok::<Val, ErrModel>(once),
{
    let m = match vars {
        Some(m) => m,
        None => Map::<Seq<char>, Seq<char>>::empty(),
    };
    match crate::write::resolve_segs(segs, 0, m) {
        Ok(rsegs) => {
            crate::write::lemma_resolve_index_nonneg(segs, 0, m, rsegs);
            lemma_write_rec_idempotent(rsegs, 0, match data {
                Some(v) => v,
                None => Val::Null,
            }, newval);
        },
        Err(_) => {},
    }
}

/// The texts of these segments parse back exactly; this holds of every
/// path whose string keys are not empty, whose variable names are not
/// empty and avoid the few characters that end a name early, and whose
/// numbers fit their machine types — every path built by the parser or
/// through the executable builder satisfies all of that, except that the
/// builder also accepts empty texts.
pub open spec fn seg_roundtrippable(seg: SegModel) -> bool {
    match seg {
        SegModel::Key(KeyModel::Str(s)) => s.len() > 0,
        SegModel::Key(KeyModel::Int(i)) => i64::MIN <= i <= i64::MAX,
        SegModel::Index(n) => 0 <= n <= usize::MAX,
        SegModel::KeyVar(n) => n.len() > 0 && forall|t: int|
            0 <= t < n.len() ==> n[t] != '.' && n[t] != '[' && n[t] != '\\',
        SegModel::IndexVar(n) => n.len() > 0 && forall|t: int|
            0 <= t < n.len() ==> n[t] != ']' && n[t] != '\\',
    }
}

pub open spec fn roundtrippable(segs: Seq<SegModel>) -> bool {
    &&& forall|j: int| 0 <= j < segs.len() ==> seg_roundtrippable(#[trigger] segs[j])
    &&& distinct_seqs(var_name_list(segs))
}

pub open spec fn has_special(s: Seq<char>) -> bool {
    exists|i: int| 0 <= i < s.len() && is_special(#[trigger] s[i])
}

/// The parser state standing just before the text of segment `k` begins:
/// a finished segment leaves its text pending until the next delimiter,
/// while index segments were closed by their bracket.
pub open spec fn pending_state(segs: Seq<SegModel>, k: int) -> ParseState {
    if k <= 0 {
        init_state()
    } else {
        match segs[k - 1] {
            SegModel::Index(_) => cleared(segs.take(k), false),
            SegModel::IndexVar(_) => cleared(segs.take(k), false),
            SegModel::Key(KeyModel::Str(s)) => ParseState {
                cur: s,
                in_brackets: false,
                escape_next: false,
                seg_escaped: parse_i64_spec(s) is Some || has_special(s),
                first_esc: parse_i64_spec(s) is Some || (s.len() > 0 && is_special(s[0])),
                is_var: false,
                segs: segs.take(k - 1),
            },
            SegModel::Key(KeyModel::Int(i)) => ParseState {
                cur: decimal_int(i),
                in_brackets: false,
                escape_next: false,
                seg_escaped: false,
                first_esc: false,
                is_var: false,
                segs: segs.take(k - 1),
            },
            SegModel::KeyVar(n) => ParseState {
                cur: seq!['#'] + n,
                in_brackets: false,
                escape_next: false,
                seg_escaped: false,
                first_esc: false,
                is_var: true,
                segs: segs.take(k - 1),
            },
        }
    }
}

/// Whether no key-like segment stands before position `k`, which is what
/// suppresses the leading `.` in the formatter.
pub open spec fn first_at(segs: Seq<SegModel>, k: int) -> bool {
    forall|j: int| 0 <= j < k ==> !is_key_like(#[trigger] segs[j])
}

/// One accepted character is one step of the parser.
proof fn lemma_run_one(st: ParseState, c: char, st2: ParseState)
    requires
        parse_step(st, c) == Ok::<ParseState, ErrModel>(st2),
    ensures
        run_steps(seq![c], st) == Ok::<ParseState, ErrModel>(st2),
{
    assert(seq![c].first() == c);
    assert(seq![c].drop_first() =~= Seq::<char>::empty());
    assert(run_steps(Seq::<char>::empty(), st2) == Ok::<ParseState, ErrModel>(st2));
}

/// Characters that the parser simply gathers extend the pending segment.
proof fn lemma_run_plain(t: Seq<char>, st: ParseState)
    requires
        !st.escape_next,
        st.in_brackets ==> forall|i: int| 0 <= i < t.len() ==> t[i] != ']' && t[i] != '\\',
        !st.in_brackets ==> forall|i: int|
            0 <= i < t.len() ==> t[i] != '.' && t[i] != '[' && t[i] != '\\',
        !st.in_brackets && st.cur.len() == 0 && t.len() > 0 ==> t[0] != '#',
    ensures
        run_steps(t, st) == Ok::<ParseState, ErrModel>(ParseState { cur: st.cur + t, ..st }),
    decreases t.len(),
{
    if t.len() == 0 {
        assert(st.cur + t =~= st.cur);
        assert(ParseState { cur: st.cur + t, ..st } == st);
    } else {
        let c = t[0];
        let st2 = ParseState { cur: st.cur.push(c), ..st };
        assert(parse_step(st, c) == Ok::<ParseState, ErrModel>(st2));
        assert(t.drop_first().len() < t.len());
        lemma_run_plain(t.drop_first(), st2);
        assert(st2.cur + t.drop_first() =~= st.cur + t);
    }
}

/// Consuming an escaped key text gathers exactly the unescaped characters,
/// marking the segment escaped when anything needed escaping.
proof fn lemma_run_escaped(s: Seq<char>, st: ParseState)
    requires
        !st.escape_next,
        !st.in_brackets,
    ensures
        run_steps(escape_chars(s), st) == Ok::<ParseState, ErrModel>(
            ParseState {
                cur: st.cur + s,
                seg_escaped: st.seg_escaped || has_special(s),
                first_esc: st.first_esc || (st.cur.len() == 0 && s.len() > 0 && is_special(s[0])),
                ..st
            },
        ),
    decreases s.len(),
{
    if s.len() == 0 {
        assert(escape_chars(s) =~= Seq::<char>::empty());
        assert(st.cur + s =~= st.cur);
        assert(!has_special(s));
        assert(run_steps(escape_chars(s), st) == Ok::<ParseState, ErrModel>(st));
        assert(ParseState {
            cur: st.cur + s,
            seg_escaped: st.seg_escaped || has_special(s),
            first_esc: st.first_esc || (st.cur.len() == 0 && s.len() > 0 && is_special(s[0])),
            ..st
        } == st);
    } else {
        let c = s[0];
        let rest = s.drop_first();
        let e1: Seq<char> = if is_special(c) {
            seq!['\\', c]
        } else {
            seq![c]
        };
        assert(escape_chars(s) == e1 + escape_chars(rest));
        let st2 = if is_special(c) {
            ParseState {
                cur: st.cur.push(c),
                escape_next: false,
                seg_escaped: true,
                first_esc: st.first_esc || st.cur.len() == 0,
                ..st
            }
        } else {
            ParseState { cur: st.cur.push(c), ..st }
        };
        if is_special(c) {
            let stb = ParseState { escape_next: true, ..st };
            assert(parse_step(st, '\\') == Ok::<ParseState, ErrModel>(stb));
            assert(parse_step(stb, c) == Ok::<ParseState, ErrModel>(st2));
            lemma_run_one(st, '\\', stb);
            lemma_run_one(stb, c, st2);
            assert(e1 =~= seq!['\\'] + seq![c]);
            lemma_run_concat(seq!['\\'], seq![c], st);
            assert(run_steps(e1, st) == Ok::<ParseState, ErrModel>(st2));
        } else {
            assert(parse_step(st, c) == Ok::<ParseState, ErrModel>(st2));
            assert(e1 =~= seq![c]);
            lemma_run_one(st, c, st2);
            assert(run_steps(e1, st) == Ok::<ParseState, ErrModel>(st2));
        }
        lemma_run_concat(e1, escape_chars(rest), st);
        lemma_run_escaped(rest, st2);
        let target = ParseState {
            cur: st.cur + s,
            seg_escaped: st.seg_escaped || has_special(s),
            first_esc: st.first_esc || (st.cur.len() == 0 && s.len() > 0 && is_special(s[0])),
            ..st
        };
        assert(st2.cur + rest =~= st.cur + s);
        assert(has_special(s) == (is_special(c) || has_special(rest))) by {
            if is_special(c) {
                assert(has_special(s));
            }
            if has_special(rest) {
                let i = choose|i: int| 0 <= i < rest.len() && is_special(rest[i]);
                assert(s[i + 1] == rest[i]);
                assert(has_special(s));
            }
            if has_special(s) && !is_special(c) {
                let i = choose|i: int| 0 <= i < s.len() && is_special(s[i]);
                assert(rest[i - 1] == s[i]);
                assert(has_special(rest));
            }
        }
        assert(run_steps(escape_chars(s), st) == Ok::<ParseState, ErrModel>(target));
    }
}

/// A text accepted as an integer consists of digits, possibly after one
/// sign, so nothing in it is special and escaping leaves it unchanged.
proof fn lemma_int_text_plain(s: Seq<char>)
    requires
        parse_i64_spec(s) is Some,
    ensures
        forall|i: int| 0 <= i < s.len() ==> !is_special(#[trigger] s[i]),
        escape_chars(s) == s,
        !has_special(s),
{
    assert forall|i: int| 0 <= i < s.len() implies !is_special(#[trigger] s[i]) by {
        if s[0] == '+' || s[0] == '-' {
            if i > 0 {
                assert(is_digit(s.drop_first()[i - 1]));
            }
        } else {
            assert(is_digit(s[i]));
        }
    }
    lemma_no_special_escape(s);
}

/// Decimal digit strings have nothing special in them either.
proof fn lemma_digits_plain(n: nat)
    ensures
        forall|i: int| 0 <= i < digits_of(n).len() ==> !is_special(#[trigger] digits_of(n)[i]),
        digits_of(n)[0] != '#',
{
    lemma_digits_of_props(n);
    assert forall|i: int|
        0 <= i < digits_of(n).len() implies !is_special(#[trigger] digits_of(n)[i]) by {
        assert(is_digit(digits_of(n)[i]));
    }
    assert(is_digit(digits_of(n)[0]));
}

proof fn lemma_no_special_escape(s: Seq<char>)
    requires
        forall|i: int| 0 <= i < s.len() ==> !is_special(#[trigger] s[i]),
    ensures
        escape_chars(s) == s,
        !has_special(s),
    decreases s.len(),
{
    if s.len() == 0 {
        assert(escape_chars(s) =~= s);
    } else {
        assert(forall|i: int|
            0 <= i < s.drop_first().len() ==> !is_special(#[trigger] s.drop_first()[i]));
        lemma_no_special_escape(s.drop_first());
        assert(escape_chars(s) =~= s);
    }
}

/// Finishing the pending text of segment `k` appends exactly that segment.
proof fn lemma_append_pending(segs: Seq<SegModel>, k: int)
    requires
        roundtrippable(segs),
        1 <= k <= segs.len(),
        is_key_like(segs[k - 1]),
    ensures
        ({
            let st = pending_state(segs, k);
            &&& st.cur.len() > 0
            &&& append_plain(st.segs, st.cur, st.first_esc, st.seg_escaped, st.is_var, false)
                == Ok::<Seq<SegModel>, ErrModel>(segs.take(k))
        }),
{
    let st = pending_state(segs, k);
    assert(seg_roundtrippable(segs[k - 1]));
    lemma_var_take_succ(segs, k - 1);
    match segs[k - 1] {
        SegModel::Key(KeyModel::Str(s)) => {
            assert(st.cur == s && s.len() > 0);
            assert(!st.is_var);
            if parse_i64_spec(s) is Some || has_special(s) {
                assert(st.first_esc || st.seg_escaped);
                assert(segs.take(k - 1).push(SegModel::Key(KeyModel::Str(s))) =~= segs.take(k));
            } else {
                assert(!st.first_esc && !st.seg_escaped);
                assert(parse_i64_spec(s) is None);
                assert(segs.take(k - 1).push(SegModel::Key(KeyModel::Str(s))) =~= segs.take(k));
            }
        },
        SegModel::Key(KeyModel::Int(i)) => {
            lemma_digits_of_props((if i < 0 {
                -i
            } else {
                i
            }) as nat);
            assert(st.cur.len() > 0);
            assert(!st.is_var && !st.first_esc && !st.seg_escaped);
            lemma_parse_decimal_i64(i);
            assert(segs.take(k - 1).push(SegModel::Key(KeyModel::Int(i))) =~= segs.take(k));
        },
        SegModel::KeyVar(n) => {
            assert(st.cur == seq!['#'] + n);
            assert(st.cur.len() > 1);
            assert(st.cur[0] == '#');
            assert(st.is_var);
            assert(st.cur.drop_first() =~= n);
            // the name is fresh: names are distinct along the path
            lemma_var_take_prefix(segs, k - 1);
            lemma_var_take_distinct(segs, k);
            assert(var_name_list(segs.take(k)) == var_name_list(segs.take(k - 1)) + seq![n]);
            assert(!var_name_list(segs.take(k - 1)).contains(n)) by {
                let l = var_name_list(segs.take(k - 1));
                if l.contains(n) {
                    let t = choose|t: int| 0 <= t < l.len() && #[trigger] l[t] == n;
                    assert(var_name_list(segs.take(k))[t] == n);
                    assert(var_name_list(segs.take(k)).last() == n);
                    assert(t < var_name_list(segs.take(k)).len() - 1);
                }
            }
            assert(!var_name_list(st.segs).contains(n));
            assert(segs.take(k - 1).push(SegModel::KeyVar(n)) =~= segs.take(k));
        },
        _ => {
            assert(false);
        },
    }
}

/// Names recorded before position `k` are those recorded for the whole
/// path, so a fresh name at `k` is unseen so far.
proof fn lemma_name_fresh(segs: Seq<SegModel>, k: int, n: Seq<char>)
    requires
        distinct_seqs(var_name_list(segs)),
        0 <= k < segs.len(),
        seg_var_name(segs[k]) == Some(n),
    ensures
        !var_name_list(segs.take(k)).contains(n),
{
    lemma_var_take_succ(segs, k);
    lemma_var_take_distinct(segs, k + 1);
    assert(var_name_list(segs.take(k + 1)) == var_name_list(segs.take(k)) + seq![n]);
    let l = var_name_list(segs.take(k));
    if l.contains(n) {
        let t = choose|t: int| 0 <= t < l.len() && #[trigger] l[t] == n;
        assert(var_name_list(segs.take(k + 1))[t] == n);
        assert(var_name_list(segs.take(k + 1)).last() == n);
        assert(t < var_name_list(segs.take(k + 1)).len() - 1);
    }
}

/// Consuming the text of segment `k` from its pending state reaches the
/// pending state of segment `k + 1`.
proof fn lemma_consume_seg(segs: Seq<SegModel>, k: int)
    requires
        roundtrippable(segs),
        0 <= k < segs.len(),
    ensures
        run_steps(format_seg(segs[k], first_at(segs, k)), pending_state(segs, k))
            == Ok::<ParseState, ErrModel>(pending_state(segs, k + 1)),
{
    let st = pending_state(segs, k);
    let first = first_at(segs, k);
    let text = format_seg(segs[k], first);
    let dot: Seq<char> = if first {
        Seq::empty()
    } else {
        seq!['.']
    };
    assert(seg_roundtrippable(segs[k]));
    // the state after the separator: the pending segment, if any, is
    // appended, and the gathered text is empty
    let st_dot = cleared(segs.take(k), false);
    assert(run_steps(dot, st) == Ok::<ParseState, ErrModel>(st_dot) || (st.cur.len() == 0
        && st.segs == segs.take(k) && !st.in_brackets && !st.escape_next && !st.seg_escaped
        && !st.first_esc && !st.is_var && run_steps(dot, st) == Ok::<ParseState, ErrModel>(st)))
        by {
        if k == 0 {
            assert(segs.take(0) =~= Seq::<SegModel>::empty());
            if first {
                assert(dot =~= Seq::<char>::empty());
            } else {
                assert(false) by {
                    let j = choose|j: int| 0 <= j < k && is_key_like(segs[j]);
                }
            }
        } else {
            match segs[k - 1] {
                SegModel::Index(_) => {
                    assert(st == cleared(segs.take(k), false));
                    if !first {
                        assert(parse_step(st, '.') == Ok::<ParseState, ErrModel>(st));
                        lemma_run_one(st, '.', st);
                        assert(dot =~= seq!['.']);
                    } else {
                        assert(dot =~= Seq::<char>::empty());
                    }
                },
                SegModel::IndexVar(_) => {
                    assert(st == cleared(segs.take(k), false));
                    if !first {
                        assert(parse_step(st, '.') == Ok::<ParseState, ErrModel>(st));
                        lemma_run_one(st, '.', st);
                        assert(dot =~= seq!['.']);
                    } else {
                        assert(dot =~= Seq::<char>::empty());
                    }
                },
                _ => {
                    // a key-like segment is pending, so `first` is false
                    assert(is_key_like(segs[k - 1]));
                    assert(!first);
                    lemma_append_pending(segs, k);
                    assert(parse_step(st, '.') == Ok::<ParseState, ErrModel>(st_dot));
                    lemma_run_one(st, '.', st_dot);
                    assert(dot =~= seq!['.']);
                },
            }
        }
    }
    let st0 = cleared(segs.take(k), false);
    assert(run_steps(dot, st) == Ok::<ParseState, ErrModel>(st0) || (st == st0 && run_steps(
        dot,
        st,
    ) == Ok::<ParseState, ErrModel>(st0))) by {
        if st.cur.len() == 0 && st.segs == segs.take(k) && !st.in_brackets && !st.escape_next
            && !st.seg_escaped && !st.first_esc && !st.is_var {
            assert(st == st0);
        }
    }
    match segs[k] {
        SegModel::Key(KeyModel::Str(s)) => {
            let target = pending_state(segs, k + 1);
            if parse_i64_spec(s) is Some {
                let body = seq!['\\'] + escape_chars(s);
                assert(text == dot + body);
                lemma_int_text_plain(s);
                assert(escape_chars(s) == s);
                let stb = ParseState { escape_next: true, ..st0 };
                assert(parse_step(st0, '\\') == Ok::<ParseState, ErrModel>(stb));
                let st1 = ParseState {
                    cur: st0.cur.push(s[0]),
                    escape_next: false,
                    seg_escaped: true,
                    first_esc: true,
                    ..st0
                };
                assert(parse_step(stb, s[0]) == Ok::<ParseState, ErrModel>(st1));
                assert(forall|i: int|
                    0 <= i < s.drop_first().len() ==> !is_special(#[trigger] s.drop_first()[i]));
                lemma_run_plain(s.drop_first(), st1);
                let st2 = ParseState { cur: st1.cur + s.drop_first(), ..st1 };
                assert(st2.cur =~= s);
                assert(body == seq!['\\'] + s);
                assert((seq!['\\'] + s).drop_first() =~= s);
                assert(s.drop_first().len() >= 0);
                assert(run_steps(s, stb) == Ok::<ParseState, ErrModel>(st2)) by {
                    assert(s =~= seq![s[0]] + s.drop_first());
                    lemma_run_one(stb, s[0], st1);
                    lemma_run_concat(seq![s[0]], s.drop_first(), stb);
                }
                assert(run_steps(body, st0) == Ok::<ParseState, ErrModel>(st2)) by {
                    assert(body =~= seq!['\\'] + s);
                    lemma_run_one(st0, '\\', stb);
                    lemma_run_concat(seq!['\\'], s, st0);
                }
                lemma_run_concat(dot, body, st);
                assert(st2 == target) by {
                    assert(st2.cur == s);
                    assert(st2.segs == segs.take(k));
                }
            } else {
                assert(text == dot + (Seq::<char>::empty() + escape_chars(s)));
                assert(Seq::<char>::empty() + escape_chars(s) =~= escape_chars(s));
                lemma_run_escaped(s, st0);
                lemma_run_concat(dot, escape_chars(s), st);
                let st2 = ParseState {
                    cur: st0.cur + s,
                    seg_escaped: st0.seg_escaped || has_special(s),
                    first_esc: st0.first_esc || (st0.cur.len() == 0 && s.len() > 0 && is_special(
                        s[0],
                    )),
                    ..st0
                };
                assert(st0.cur + s =~= s);
                assert(st2 == target) by {
                    assert(st2.cur == s);
                    assert(st2.seg_escaped == has_special(s));
                    assert(st2.first_esc == (s.len() > 0 && is_special(s[0])));
                }
            }
        },
        SegModel::Key(KeyModel::Int(i)) => {
            let body = decimal_int(i);
            assert(text == dot + body);
            let mag = (if i < 0 {
                -i
            } else {
                i
            }) as nat;
            lemma_digits_plain(mag);
            lemma_digits_of_props(mag);
            assert(forall|t: int| 0 <= t < body.len() ==> !is_special(#[trigger] body[t])) by {
                if i < 0 {
                    assert(body == seq!['-'] + digits_of(mag));
                    assert(forall|t: int|
                        1 <= t < body.len() ==> #[trigger] body[t] == digits_of(mag)[t - 1]);
                    assert(!is_special(body[0]));
                } else {
                    assert(body == digits_of(mag));
                }
            }
            assert(body.len() > 0);
            assert(body[0] != '#') by {
                if i < 0 {
                } else {
                    assert(is_digit(digits_of(mag)[0]));
                }
            }
            lemma_run_plain(body, st0);
            lemma_run_concat(dot, body, st);
            let st2 = ParseState { cur: st0.cur + body, ..st0 };
            assert(st0.cur + body =~= body);
            assert(st2 == pending_state(segs, k + 1));
        },
        SegModel::KeyVar(n) => {
            let body = seq!['#'] + n;
            assert(text == dot + body);
            let st1 = ParseState { cur: st0.cur.push('#'), is_var: true, ..st0 };
            assert(parse_step(st0, '#') == Ok::<ParseState, ErrModel>(st1));
            assert(forall|t: int| 0 <= t < n.len() ==> n[t] != '.' && n[t] != '[' && n[t] != '\\');
            lemma_run_plain(n, st1);
            let st2 = ParseState { cur: st1.cur + n, ..st1 };
            assert(body.drop_first() =~= n);
            assert(run_steps(body, st0) == Ok::<ParseState, ErrModel>(st2)) by {
                assert(body =~= seq!['#'] + n);
                lemma_run_one(st0, '#', st1);
                lemma_run_concat(seq!['#'], n, st0);
            }
            lemma_run_concat(dot, body, st);
            assert(st2.cur =~= seq!['#'] + n);
            assert(st2 == pending_state(segs, k + 1));
        },
        SegModel::Index(n) => {
            // the separator never appears before a bracket segment
            assert(text == seq!['['] + digits_of(n as nat) + seq![']']);
            let stb = ParseState { in_brackets: true, ..st };
            // `[` finishes any pending segment and opens the bracket
            let st1 = cleared(segs.take(k), true);
            assert(run_steps(seq!['['], st) == Ok::<ParseState, ErrModel>(st1)) by {
                if st.cur.len() == 0 {
                    assert(parse_step(st, '[') == Ok::<ParseState, ErrModel>(
                        ParseState { in_brackets: true, ..st },
                    ));
                    assert(st == st0 || (st.segs == segs.take(k) && st.cur.len() == 0));
                    assert(ParseState { in_brackets: true, ..st } == st1);
                } else {
                    assert(k >= 1 && is_key_like(segs[k - 1]));
                    lemma_append_pending(segs, k);
                    assert(parse_step(st, '[') == Ok::<ParseState, ErrModel>(st1));
                }
                lemma_run_one(st, '[', st1);
            }
            let digits = digits_of(n as nat);
            lemma_digits_plain(n as nat);
            lemma_digits_of_props(n as nat);
            lemma_run_plain(digits, st1);
            let st2 = ParseState { cur: st1.cur + digits, ..st1 };
            assert(st1.cur + digits =~= digits);
            // `]` closes the bracket: the digits are a literal index
            lemma_parse_digits_usize(n as nat);
            assert(st2.cur == digits);
            assert(st2.cur[0] != '#') by {
                assert(is_digit(digits[0]));
            }
            let st3 = cleared(segs.take(k).push(SegModel::Index(n as int)), false);
            assert(parse_step(st2, ']') == Ok::<ParseState, ErrModel>(st3));
            assert(segs.take(k).push(SegModel::Index(n as int)) =~= segs.take(k + 1));
            lemma_run_concat(seq!['['] + digits, seq![']'], st);
            lemma_run_concat(seq!['['], digits, st);
            assert(text =~= (seq!['['] + digits) + seq![']']);
            lemma_run_one(st2, ']', st3);
            assert(st3 == pending_state(segs, k + 1));
        },
        SegModel::IndexVar(n) => {
            assert(text == seq!['[', '#'] + n + seq![']']);
            let st1 = cleared(segs.take(k), true);
            assert(run_steps(seq!['['], st) == Ok::<ParseState, ErrModel>(st1)) by {
                if st.cur.len() == 0 {
                    assert(parse_step(st, '[') == Ok::<ParseState, ErrModel>(
                        ParseState { in_brackets: true, ..st },
                    ));
                    assert(ParseState { in_brackets: true, ..st } == st1);
                } else {
                    assert(k >= 1 && is_key_like(segs[k - 1]));
                    lemma_append_pending(segs, k);
                    assert(parse_step(st, '[') == Ok::<ParseState, ErrModel>(st1));
                }
                lemma_run_one(st, '[', st1);
            }
            // inside brackets `#` is gathered like any character
            let st2 = ParseState { cur: st1.cur.push('#'), ..st1 };
            assert(parse_step(st1, '#') == Ok::<ParseState, ErrModel>(st2));
            assert(forall|t: int| 0 <= t < n.len() ==> n[t] != ']' && n[t] != '\\');
            lemma_run_plain(n, st2);
            let st3 = ParseState { cur: st2.cur + n, ..st2 };
            assert(st3.cur =~= seq!['#'] + n);
            // `]` closes the bracket: an unescaped leading `#` names an
            // index variable
            assert(st3.cur.len() > 1 && st3.cur[0] == '#' && !st3.seg_escaped);
            assert(st3.cur.drop_first() =~= n);
            lemma_name_fresh(segs, k, n);
            assert(!var_name_list(segs.take(k)).contains(n));
            let st4 = cleared(segs.take(k).push(SegModel::IndexVar(n)), false);
            assert(parse_step(st3, ']') == Ok::<ParseState, ErrModel>(st4));
            assert(segs.take(k).push(SegModel::IndexVar(n)) =~= segs.take(k + 1));
            let head: Seq<char> = seq!['[', '#'];
            assert(text =~= (head + n) + seq![']']);
            lemma_run_concat(head + n, seq![']'], st);
            lemma_run_concat(head, n, st);
            assert(run_steps(head, st) == Ok::<ParseState, ErrModel>(st2)) by {
                assert(head =~= seq!['['] + seq!['#']);
                lemma_run_one(st1, '#', st2);
                lemma_run_concat(seq!['['], seq!['#'], st);
            }
            assert(run_steps(n, st2) == Ok::<ParseState, ErrModel>(st3));
            lemma_run_one(st3, ']', st4);
            assert(st4 == pending_state(segs, k + 1));
        },
    }
}

/// From the pending state of segment `k`, the remaining formatted text
/// parses into exactly the whole path.
proof fn lemma_roundtrip_from(segs: Seq<SegModel>, k: int)
    requires
        roundtrippable(segs),
        0 <= k <= segs.len(),
    ensures
        parse_tail(format_from(segs, k, first_at(segs, k)), pending_state(segs, k))
            == Ok::<Seq<SegModel>, ErrModel>(segs),
    decreases segs.len() - k,
{
    let st = pending_state(segs, k);
    if k == segs.len() {
        assert(format_from(segs, k, first_at(segs, k)) =~= Seq::<char>::empty());
        assert(run_steps(Seq::<char>::empty(), st) == Ok::<ParseState, ErrModel>(st));
        // finalize: finish the pending segment, if one is gathered
        if k == 0 {
            assert(segs =~= Seq::<SegModel>::empty());
            assert(finalize(st) == Ok::<Seq<SegModel>, ErrModel>(segs));
        } else {
            match segs[k - 1] {
                SegModel::Index(_) => {
                    assert(st.cur.len() == 0);
                    assert(segs.take(k) =~= segs);
                },
                SegModel::IndexVar(_) => {
                    assert(st.cur.len() == 0);
                    assert(segs.take(k) =~= segs);
                },
                _ => {
                    assert(is_key_like(segs[k - 1]));
                    lemma_append_pending(segs, k);
                    assert(segs.take(k) =~= segs);
                },
            }
        }
    } else {
        lemma_consume_seg(segs, k);
        let text_k = format_seg(segs[k], first_at(segs, k));
        let first2 = first_at(segs, k) && !is_key_like(segs[k]);
        assert(first2 == first_at(segs, k + 1)) by {
            if first2 {
                assert forall|j: int| 0 <= j < k + 1 implies !is_key_like(#[trigger] segs[j]) by {
                    if j < k {
                    }
                }
            } else {
                if !first_at(segs, k) {
                    let j = choose|j: int| 0 <= j < k && is_key_like(segs[j]);
                    assert(is_key_like(segs[j]));
                    assert(!first_at(segs, k + 1));
                } else {
                    assert(is_key_like(segs[k]));
                    assert(!first_at(segs, k + 1));
                }
            }
        }
        assert(format_from(segs, k, first_at(segs, k)) == text_k + format_from(
            segs,
            k + 1,
            first_at(segs, k + 1),
        ));
        lemma_run_concat(text_k, format_from(segs, k + 1, first_at(segs, k + 1)), st);
        lemma_roundtrip_from(segs, k + 1);
    }
}

/// Round-trip law: formatting a path and parsing the text back gives the
/// same path. This holds of every path the parser can produce; of paths
/// built through the builder it asks only that string keys and variable
/// names are non-empty and names avoid `. [ \` (for key variables) or
/// `] \` (for index variables), since such names cannot be written in
/// path text at all.
pub proof fn lemma_parse_format_roundtrip(segs: Seq<SegModel>)
    requires
        roundtrippable(segs),
    ensures
        parse_spec(format_spec(segs)) == Ok::<Seq<SegModel>, ErrModel>(segs),
{
    let text = format_spec(segs);
    assert(text[0] == '$');
    assert(text.len() > 0);
    assert(text.drop_first() =~= format_from(segs, 0, true));
    assert(first_at(segs, 0));
    assert(pending_state(segs, 0) == init_state());
    lemma_roundtrip_from(segs, 0);
    assert(format_from(segs, 0, first_at(segs, 0)) == format_from(segs, 0, true));
}

/// Disambiguation law: an integer key renders as its bare digits, a text
/// key holding the same digits renders with a leading backslash, the two
/// texts differ, and each parses back to its own variant.
pub proof fn lemma_disambiguation(i: int, s: Seq<char>)
    requires
        i64::MIN <= i <= i64::MAX,
        parse_i64_spec(s) == Some(i),
    ensures
        format_spec(seq![SegModel::Key(KeyModel::Int(i))]) == seq!['$'] + decimal_int(i),
        format_spec(seq![SegModel::Key(KeyModel::Str(s))]) == seq!['$', '\\'] + s,
        format_spec(seq![SegModel::Key(KeyModel::Int(i))]) != format_spec(
            seq![SegModel::Key(KeyModel::Str(s))],
        ),
        parse_spec(format_spec(seq![SegModel::Key(KeyModel::Int(i))])) == Ok::<
            Seq<SegModel>,
            ErrModel,
        >(seq![SegModel::Key(KeyModel::Int(i))]),
        parse_spec(format_spec(seq![SegModel::Key(KeyModel::Str(s))])) == Ok::<
            Seq<SegModel>,
            ErrModel,
        >(seq![SegModel::Key(KeyModel::Str(s))]),
{
    let int_path = seq![SegModel::Key(KeyModel::Int(i))];
    let str_path = seq![SegModel::Key(KeyModel::Str(s))];
    assert(s.len() > 0);
    assert(var_name_list(int_path) =~= Seq::<Seq<char>>::empty()) by {
        assert(int_path.drop_last() =~= Seq::<SegModel>::empty());
        assert(var_name_list(int_path) == var_name_list(int_path.drop_last()) + match seg_var_name(
            int_path.last(),
        ) {
            Some(nn) => seq![nn],
            None => Seq::<Seq<char>>::empty(),
        });
        assert(var_name_list(Seq::<SegModel>::empty()) == Seq::<Seq<char>>::empty());
        assert(seg_var_name(int_path.last()) is None);
    }
    assert(var_name_list(str_path) =~= Seq::<Seq<char>>::empty()) by {
        assert(str_path.drop_last() =~= Seq::<SegModel>::empty());
        assert(var_name_list(str_path) == var_name_list(str_path.drop_last()) + match seg_var_name(
            str_path.last(),
        ) {
            Some(nn) => seq![nn],
            None => Seq::<Seq<char>>::empty(),
        });
        assert(var_name_list(Seq::<SegModel>::empty()) == Seq::<Seq<char>>::empty());
        assert(seg_var_name(str_path.last()) is None);
    }
    assert(roundtrippable(int_path));
    assert(roundtrippable(str_path));
    lemma_parse_format_roundtrip(int_path);
    lemma_parse_format_roundtrip(str_path);
    lemma_int_text_plain(s);
    assert(format_from(int_path, 1, false) =~= Seq::<char>::empty());
    assert(format_from(str_path, 1, false) =~= Seq::<char>::empty());
    assert(format_seg(int_path[0], true) =~= decimal_int(i));
    assert(format_seg(str_path[0], true) =~= seq!['\\'] + s);
    assert(format_spec(int_path) =~= seq!['$'] + decimal_int(i));
    assert(format_spec(str_path) =~= seq!['$', '\\'] + s);
    // the texts differ at the second character: one starts with a digit
    // or a minus sign, the other with the backslash
    lemma_digits_of_props((if i < 0 {
        -i
    } else {
        i
    }) as nat);
    assert(format_spec(int_path)[1] != '\\') by {
        if i < 0 {
            assert(decimal_int(i)[0] == '-');
        } else {
            assert(decimal_int(i)[0] == digits_of(i as nat)[0]);
            assert(is_digit(decimal_int(i)[0]));
        }
    }
    assert(format_spec(str_path)[1] == '\\');
}

/// The set a list of names spans.
pub open spec fn name_set(l: Seq<Seq<char>>) -> Set<Seq<char>> {
    Set::new(|x: Seq<char>| l.contains(x))
}

/// What a path resolves to under a complete binding map: each variable
/// must be bound, a key variable to text and an index variable to a
/// representable number, and every lookup must land.
pub open spec fn resolve_under(
    segs: Seq<SegModel>,
    i: int,
    v: Val,
    b: Map<Seq<char>, Val>,
) -> Option<Val>
    decreases segs.len() - i,
{
    if i < 0 || i >= segs.len() {
        Some(v)
    } else {
        match segs[i] {
            SegModel::Key(k) => match v {
                Val::Obj(es) => match lookup_obj(es, crate::types::key_string(k)) {
                    Some(c) => resolve_under(segs, i + 1, c, b),
                    None => None,
                },
                _ => None,
            },
            SegModel::Index(n) => match v {
                Val::Arr(items) => if 0 <= n < items.len() {
                    resolve_under(segs, i + 1, items[n], b)
                } else {
                    None
                },
                _ => None,
            },
            SegModel::KeyVar(x) => if b.contains_key(x) {
                match b[x] {
                    Val::Str(s) => match v {
                        Val::Obj(es) => match lookup_obj(es, s) {
                            Some(c) => resolve_under(segs, i + 1, c, b),
                            None => None,
                        },
                        _ => None,
                    },
                    _ => None,
                }
            } else {
                None
            },
            SegModel::IndexVar(x) => if b.contains_key(x) {
                match b[x] {
                    Val::Num(n) => if 0 <= n <= i64::MAX {
                        match v {
                            Val::Arr(items) => if n < items.len() {
                                resolve_under(segs, i + 1, items[n], b)
                            } else {
                                None
                            },
                            _ => None,
                        }
                    } else {
                        None
                    },
                    _ => None,
                }
            } else {
                None
            },
        }
    }
}

/// A successful association lookup names some entry.
proof fn lemma_lookup_obj_exists(entries: Seq<(Seq<char>, Val)>, key: Seq<char>, c: Val)
    requires
        lookup_obj(entries, key) == Some(c),
    ensures
        exists|j: int| 0 <= j < entries.len() && (#[trigger] entries[j]).0 == key && entries[j].1
            == c,
    decreases entries.len(),
{
    if entries.len() > 0 {
        if entries.first().0 == key {
            assert(entries[0].0 == key && entries[0].1 == c);
        } else {
            lemma_lookup_obj_exists(entries.drop_first(), key, c);
            let j = choose|j: int|
                0 <= j < entries.drop_first().len() && (#[trigger] entries.drop_first()[j]).0
                    == key && entries.drop_first()[j].1 == c;
            assert(entries[j + 1].0 == key && entries[j + 1].1 == c);
        }
    }
}

/// A variable name list distributes over prepending one segment.
proof fn lemma_var_prepend(s: SegModel, rest: Seq<SegModel>)
    ensures
        var_name_list(seq![s] + rest) == (match seg_var_name(s) {
            Some(n) => seq![n],
            None => Seq::<Seq<char>>::empty(),
        }) + var_name_list(rest),
    decreases rest.len(),
{
    let head: Seq<Seq<char>> = match seg_var_name(s) {
        Some(n) => seq![n],
        None => Seq::empty(),
    };
    if rest.len() == 0 {
        assert(seq![s] + rest =~= seq![s]);
        assert(seq![s].drop_last() =~= Seq::<SegModel>::empty());
        assert(var_name_list(Seq::<SegModel>::empty()) == Seq::<Seq<char>>::empty());
        assert(var_name_list(seq![s]) =~= head + var_name_list(rest));
    } else {
        lemma_var_prepend(s, rest.drop_last());
        assert((seq![s] + rest).drop_last() =~= seq![s] + rest.drop_last());
        assert((seq![s] + rest).last() == rest.last());
        assert(var_name_list(seq![s] + rest) == var_name_list(seq![s] + rest.drop_last()) + (
        match seg_var_name(rest.last()) {
            Some(n) => seq![n],
            None => Seq::<Seq<char>>::empty(),
        }));
        assert(var_name_list(seq![s] + rest) =~= head + var_name_list(rest));
    }
}

/// The names of the segments from `i` on split off segment `i`'s name.
proof fn lemma_var_skip(segs: Seq<SegModel>, i: int)
    requires
        0 <= i < segs.len(),
    ensures
        var_name_list(segs.skip(i)) == (match seg_var_name(segs[i]) {
            Some(n) => seq![n],
            None => Seq::<Seq<char>>::empty(),
        }) + var_name_list(segs.skip(i + 1)),
{
    assert(segs.skip(i) =~= seq![segs[i]] + segs.skip(i + 1));
    lemma_var_prepend(segs[i], segs.skip(i + 1));
}

/// Soundness of the search: everything it finds is a genuine resolution,
/// extends the bindings it started from, and binds exactly the variables
/// of the remaining segments.
pub proof fn lemma_search_sound(
    segs: Seq<SegModel>,
    i: int,
    v: Val,
    b: Map<Seq<char>, Val>,
    r: (Map<Seq<char>, Val>, Val),
)
    requires
        0 <= i <= segs.len(),
        crate::value::val_wf(v),
        distinct_seqs(var_name_list(segs.skip(i))),
        forall|x: Seq<char>| b.contains_key(x) ==> !var_name_list(segs.skip(i)).contains(x),
        crate::iter::search_from(segs, i, v, b).contains(r),
    ensures
        resolve_under(segs, i, v, r.0) == Some(r.1),
        forall|x: Seq<char>| b.contains_key(x) ==> r.0.contains_key(x) && r.0[x] == b[x],
        r.0.dom() == b.dom() + name_set(var_name_list(segs.skip(i))),
    decreases segs.len() - i,
{
    if i == segs.len() {
        assert(r == (b, v));
        assert(segs.skip(i) =~= Seq::<SegModel>::empty());
        assert(var_name_list(segs.skip(i)) == Seq::<Seq<char>>::empty());
        assert(r.0.dom() =~= b.dom() + name_set(var_name_list(segs.skip(i))));
    } else {
        lemma_var_skip(segs, i);
        let names_i = var_name_list(segs.skip(i));
        let names_i1 = var_name_list(segs.skip(i + 1));
        assert(distinct_seqs(names_i1)) by {
            assert forall|a: int, c: int| 0 <= a < c < names_i1.len() implies names_i1[a]
                != names_i1[c] by {
                let off = names_i.len() - names_i1.len();
                assert(names_i[a + off] == names_i1[a]);
                assert(names_i[c + off] == names_i1[c]);
            }
        }
        match segs[i] {
            SegModel::Key(k) => {
                match v {
                    Val::Obj(es) => {
                        match lookup_obj(es, crate::types::key_string(k)) {
                            Some(c) => {
                                lemma_lookup_obj_exists(es, crate::types::key_string(k), c);
                                let j = choose|j: int|
                                    0 <= j < es.len() && (#[trigger] es[j]).0
                                        == crate::types::key_string(k) && es[j].1 == c;
                                crate::value::lemma_obj_wf_index(es, j);
                                lemma_search_sound(segs, i + 1, c, b, r);
                                assert(name_set(names_i) =~= name_set(names_i1));
                            },
                            None => {},
                        }
                    },
                    _ => {},
                }
            },
            SegModel::Index(n) => {
                match v {
                    Val::Arr(items) => {
                        if 0 <= n < items.len() {
                            crate::value::lemma_arr_wf_index(items, n);
                            lemma_search_sound(segs, i + 1, items[n], b, r);
                            assert(name_set(names_i) =~= name_set(names_i1));
                        }
                    },
                    _ => {},
                }
            },
            SegModel::KeyVar(x) => {
                match v {
                    Val::Obj(es) => {
                        let j = choose|j: int|
                            0 <= j < es.len() && crate::iter::search_from(
                                segs,
                                i + 1,
                                es[j].1,
                                b.insert(x, Val::Str(es[j].0)),
                            ).contains(r);
                        crate::value::lemma_obj_wf_index(es, j);
                        let b2 = b.insert(x, Val::Str(es[j].0));
                        assert(names_i[0] == x);
                        assert(forall|t: int|
                            0 <= t < names_i1.len() ==> names_i1[t] == names_i[t + 1]);
                        assert(!names_i1.contains(x)) by {
                            if names_i1.contains(x) {
                                let t = choose|t: int|
                                    0 <= t < names_i1.len() && #[trigger] names_i1[t] == x;
                                assert(names_i[t + 1] == x);
                            }
                        }
                        assert(forall|y: Seq<char>|
                            b2.contains_key(y) ==> !names_i1.contains(y));
                        lemma_search_sound(segs, i + 1, es[j].1, b2, r);
                        assert(b2.contains_key(x));
                        assert(b2[x] == Val::Str(es[j].0));
                        assert(r.0.contains_key(x) && r.0[x] == Val::Str(es[j].0));
                        assert(names_i.contains(x)) by {
                            assert(names_i[0] == x);
                        }
                        assert forall|y: Seq<char>| b.contains_key(y) implies r.0.contains_key(y)
                            && r.0[y] == b[y] by {
                            assert(!names_i.contains(y));
                            assert(y != x);
                            assert(b2.contains_key(y) && b2[y] == b[y]);
                        }
                        // resolution follows the same entry: keys are
                        // unique, so the lookup lands on entry `j`
                        assert(forall|t: int| 0 <= t < j ==> (#[trigger] es[t]).0 != es[j].0);
                        crate::write::lemma_lookup_obj_found(es, es[j].0, j);
                        assert(resolve_under(segs, i, v, r.0) == resolve_under(
                            segs,
                            i + 1,
                            es[j].1,
                            r.0,
                        ));
                        assert(r.0.dom() =~= b.dom() + name_set(names_i)) by {
                            assert(r.0.dom() == b2.dom() + name_set(names_i1));
                            assert(b2.dom() == b.dom().insert(x));
                        }
                    },
                    _ => {},
                }
            },
            SegModel::IndexVar(x) => {
                match v {
                    Val::Arr(items) => {
                        let j = choose|j: int|
                            0 <= j <= i64::MAX && j < items.len() && crate::iter::search_from(
                                segs,
                                i + 1,
                                items[j],
                                b.insert(x, Val::Num(j)),
                            ).contains(r);
                        crate::value::lemma_arr_wf_index(items, j);
                        let b2 = b.insert(x, Val::Num(j));
                        assert(names_i[0] == x);
                        assert(forall|t: int|
                            0 <= t < names_i1.len() ==> names_i1[t] == names_i[t + 1]);
                        assert(!names_i1.contains(x)) by {
                            if names_i1.contains(x) {
                                let t = choose|t: int|
                                    0 <= t < names_i1.len() && #[trigger] names_i1[t] == x;
                                assert(names_i[t + 1] == x);
                            }
                        }
                        assert(forall|y: Seq<char>|
                            b2.contains_key(y) ==> !names_i1.contains(y));
                        lemma_search_sound(segs, i + 1, items[j], b2, r);
                        assert(b2.contains_key(x));
                        assert(b2[x] == Val::Num(j));
                        assert(r.0.contains_key(x) && r.0[x] == Val::Num(j));
                        assert(names_i.contains(x)) by {
                            assert(names_i[0] == x);
                        }
                        assert forall|y: Seq<char>| b.contains_key(y) implies r.0.contains_key(y)
                            && r.0[y] == b[y] by {
                            assert(!names_i.contains(y));
                            assert(y != x);
                            assert(b2.contains_key(y) && b2[y] == b[y]);
                        }
                        assert(resolve_under(segs, i, v, r.0) == resolve_under(
                            segs,
                            i + 1,
                            items[j],
                            r.0,
                        ));
                        assert(r.0.dom() =~= b.dom() + name_set(names_i)) by {
                            assert(r.0.dom() == b2.dom() + name_set(names_i1));
                            assert(b2.dom() == b.dom().insert(x));
                        }
                    },
                    _ => {},
                }
            },
        }
    }
}

/// Completeness of the search: every resolution of the path under a
/// binding map that binds exactly the remaining variables is found.
pub proof fn lemma_search_complete(
    segs: Seq<SegModel>,
    i: int,
    v: Val,
    b: Map<Seq<char>, Val>,
    bfull: Map<Seq<char>, Val>,
    val: Val,
)
    requires
        0 <= i <= segs.len(),
        crate::value::val_wf(v),
        distinct_seqs(var_name_list(segs.skip(i))),
        forall|x: Seq<char>| b.contains_key(x) ==> !var_name_list(segs.skip(i)).contains(x),
        forall|x: Seq<char>| b.contains_key(x) ==> bfull.contains_key(x) && bfull[x] == b[x],
        bfull.dom() == b.dom() + name_set(var_name_list(segs.skip(i))),
        resolve_under(segs, i, v, bfull) == Some(val),
    ensures
        crate::iter::search_from(segs, i, v, b).contains((bfull, val)),
    decreases segs.len() - i,
{
    if i == segs.len() {
        assert(segs.skip(i) =~= Seq::<SegModel>::empty());
        assert(var_name_list(segs.skip(i)) == Seq::<Seq<char>>::empty());
        assert(bfull =~= b) by {
            assert(bfull.dom() =~= b.dom());
        }
        assert(val == v);
    } else {
        lemma_var_skip(segs, i);
        let names_i = var_name_list(segs.skip(i));
        let names_i1 = var_name_list(segs.skip(i + 1));
        assert(distinct_seqs(names_i1)) by {
            assert forall|a: int, c: int| 0 <= a < c < names_i1.len() implies names_i1[a]
                != names_i1[c] by {
                let off = names_i.len() - names_i1.len();
                assert(names_i[a + off] == names_i1[a]);
                assert(names_i[c + off] == names_i1[c]);
            }
        }
        match segs[i] {
            SegModel::Key(k) => {
                let es = v->Obj_0;
                let c = lookup_obj(es, crate::types::key_string(k))->Some_0;
                lemma_lookup_obj_exists(es, crate::types::key_string(k), c);
                let j = choose|j: int|
                    0 <= j < es.len() && (#[trigger] es[j]).0 == crate::types::key_string(k)
                        && es[j].1 == c;
                crate::value::lemma_obj_wf_index(es, j);
                assert(name_set(names_i) =~= name_set(names_i1));
                lemma_search_complete(segs, i + 1, c, b, bfull, val);
            },
            SegModel::Index(n) => {
                let items = v->Arr_0;
                crate::value::lemma_arr_wf_index(items, n);
                assert(name_set(names_i) =~= name_set(names_i1));
                lemma_search_complete(segs, i + 1, items[n], b, bfull, val);
            },
            SegModel::KeyVar(x) => {
                let es = v->Obj_0;
                let s = bfull[x]->Str_0;
                let c = lookup_obj(es, s)->Some_0;
                lemma_lookup_obj_exists(es, s, c);
                let j = choose|j: int|
                    0 <= j < es.len() && (#[trigger] es[j]).0 == s && es[j].1 == c;
                crate::value::lemma_obj_wf_index(es, j);
                let b2 = b.insert(x, Val::Str(es[j].0));
                assert(names_i[0] == x);
                assert(forall|t: int| 0 <= t < names_i1.len() ==> names_i1[t] == names_i[t + 1]);
                assert(!names_i1.contains(x)) by {
                    if names_i1.contains(x) {
                        let t = choose|t: int|
                            0 <= t < names_i1.len() && #[trigger] names_i1[t] == x;
                        assert(names_i[t + 1] == x);
                    }
                }
                assert(names_i.contains(x)) by {
                    assert(names_i[0] == x);
                }
                assert(forall|y: Seq<char>| b2.contains_key(y) ==> !names_i1.contains(y));
                assert(forall|y: Seq<char>|
                    b2.contains_key(y) ==> bfull.contains_key(y) && bfull[y] == b2[y]);
                assert(bfull.dom() =~= b2.dom() + name_set(names_i1)) by {
                    assert(b2.dom() == b.dom().insert(x));
                }
                lemma_search_complete(segs, i + 1, es[j].1, b2, bfull, val);
                assert(crate::iter::search_from(segs, i, v, b).contains((bfull, val))) by {
                    assert(crate::iter::search_from(
                        segs,
                        i + 1,
                        es[j].1,
                        b.insert(x, Val::Str(es[j].0)),
                    ).contains((bfull, val)));
                }
            },
            SegModel::IndexVar(x) => {
                let items = v->Arr_0;
                let n = bfull[x]->Num_0;
                crate::value::lemma_arr_wf_index(items, n);
                let b2 = b.insert(x, Val::Num(n));
                assert(names_i[0] == x);
                assert(forall|t: int| 0 <= t < names_i1.len() ==> names_i1[t] == names_i[t + 1]);
                assert(!names_i1.contains(x)) by {
                    if names_i1.contains(x) {
                        let t = choose|t: int|
                            0 <= t < names_i1.len() && #[trigger] names_i1[t] == x;
                        assert(names_i[t + 1] == x);
                    }
                }
                assert(names_i.contains(x)) by {
                    assert(names_i[0] == x);
                }
                assert(forall|y: Seq<char>| b2.contains_key(y) ==> !names_i1.contains(y));
                assert(forall|y: Seq<char>|
                    b2.contains_key(y) ==> bfull.contains_key(y) && bfull[y] == b2[y]);
                assert(bfull.dom() =~= b2.dom() + name_set(names_i1)) by {
                    assert(b2.dom() == b.dom().insert(x));
                }
                lemma_search_complete(segs, i + 1, items[n], b2, bfull, val);
                assert(crate::iter::search_from(segs, i, v, b).contains((bfull, val))) by {
                    assert(crate::iter::search_from(
                        segs,
                        i + 1,
                        items[n],
                        b.insert(x, Val::Num(n)),
                    ).contains((bfull, val)));
                }
            },
        }
    }
}

/// Variable search completeness: over a well-formed tree, the search finds
/// exactly the binding maps that bind the path's variables and make it
/// resolve, each paired with the value resolution reaches.
pub proof fn lemma_search_exact(segs: Seq<SegModel>, v: Val, b: Map<Seq<char>, Val>, val: Val)
    requires
        crate::value::val_wf(v),
        distinct_seqs(var_name_list(segs)),
    ensures
        crate::iter::search_results(segs, v).contains((b, val)) <==> (b.dom() == name_set(
            var_name_list(segs),
        ) && resolve_under(segs, 0, v, b) == Some(val)),
{
    assert(segs.skip(0) =~= segs);
    let empty_b = Map::<Seq<char>, Val>::empty();
    if crate::iter::search_results(segs, v).contains((b, val)) {
        lemma_search_sound(segs, 0, v, empty_b, (b, val));
        assert(b.dom() =~= name_set(var_name_list(segs))) by {
            assert(b.dom() == empty_b.dom() + name_set(var_name_list(segs)));
        }
    }
    if b.dom() == name_set(var_name_list(segs)) && resolve_under(segs, 0, v, b) == Some(val) {
        assert(b.dom() =~= empty_b.dom() + name_set(var_name_list(segs)));
        lemma_search_complete(segs, 0, v, empty_b, b, val);
    }
}

/// Over a well-formed tree, a binding map reaches at most one value, so
/// deduplicating on bindings never hides a second distinct value.
pub proof fn lemma_search_value_unique(
    segs: Seq<SegModel>,
    v: Val,
    b: Map<Seq<char>, Val>,
    v1: Val,
    v2: Val,
)
    requires
        crate::value::val_wf(v),
        distinct_seqs(var_name_list(segs)),
        crate::iter::search_results(segs, v).contains((b, v1)),
        crate::iter::search_results(segs, v).contains((b, v2)),
    ensures
        v1 == v2,
{
    lemma_search_exact(segs, v, b, v1);
    lemma_search_exact(segs, v, b, v2);
}

/// An index segment, named so that quantifiers can key on it.
pub open spec fn index_seg(c: int) -> SegModel {
    SegModel::Index(c)
}

/// One path is a strict ancestor path of another.
pub open spec fn is_strict_prefix(a: Seq<SegModel>, b: Seq<SegModel>) -> bool {
    a.len() < b.len() && a == b.take(a.len() as int)
}

/// No two keys of an object collapse to the same walker segment: distinct
/// keys usually give distinct segments, except when two different texts
/// denote the same integer (as `1` and `+1` do).
pub open spec fn walk_unambiguous(v: Val) -> bool
    decreases v, 0int,
{
    match v {
        Val::Arr(items) => walk_unambiguous_arr(items, 0),
        Val::Obj(entries) => (forall|a: int, b: int|
            0 <= a < b < entries.len() ==> crate::walk::seg_of_key(entries[a].0)
                != crate::walk::seg_of_key(entries[b].0)) && walk_unambiguous_obj(entries, 0),
        _ => true,
    }
}

pub open spec fn walk_unambiguous_arr(items: Seq<Val>, j: int) -> bool
    decreases items, items.len() - j + 1,
{
    if j < 0 || j >= items.len() {
        true
    } else {
        walk_unambiguous(items[j]) && walk_unambiguous_arr(items, j + 1)
    }
}

pub open spec fn walk_unambiguous_obj(entries: Seq<(Seq<char>, Val)>, j: int) -> bool
    decreases entries, entries.len() - j + 1,
{
    if j < 0 || j >= entries.len() {
        true
    } else {
        walk_unambiguous(entries[j].1) && walk_unambiguous_obj(entries, j + 1)
    }
}

proof fn lemma_walk_unambiguous_arr_index(items: Seq<Val>, j0: int, j: int)
    requires
        walk_unambiguous_arr(items, j0),
        0 <= j0 <= j < items.len(),
    ensures
        walk_unambiguous(items[j]),
    decreases j - j0,
{
    if j0 < j {
        lemma_walk_unambiguous_arr_index(items, j0 + 1, j);
    }
}

proof fn lemma_walk_unambiguous_obj_index(entries: Seq<(Seq<char>, Val)>, j0: int, j: int)
    requires
        walk_unambiguous_obj(entries, j0),
        0 <= j0 <= j < entries.len(),
    ensures
        walk_unambiguous(entries[j].1),
    decreases j - j0,
{
    if j0 < j {
        lemma_walk_unambiguous_obj_index(entries, j0 + 1, j);
    }
}

/// Post-order law: in the walk of a subtree every emitted path extends the
/// subtree's prefix, the subtree's root comes out last, and whenever one
/// emitted path is a strict ancestor path of another, the descendant comes
/// out first.
pub proof fn lemma_walk_postorder(prefix: Seq<SegModel>, v: Val)
    requires
        walk_unambiguous(v),
    ensures
        ({
            let w = crate::walk::walk_seq(prefix, v);
            &&& w.len() >= 1
            &&& w.last() == (prefix, v)
            &&& forall|a: int|
                0 <= a < w.len() ==> (#[trigger] w[a]).0.len() >= prefix.len() && w[a].0.take(
                    prefix.len() as int,
                ) == prefix
            &&& forall|a: int| 0 <= a < w.len() - 1 ==> (#[trigger] w[a]).0.len() > prefix.len()
            &&& forall|a: int, c: int|
                0 <= a < w.len() && 0 <= c < w.len() && is_strict_prefix(
                    (#[trigger] w[a]).0,
                    (#[trigger] w[c]).0,
                ) ==> c < a
        }),
    decreases v, 1int,
{
    let w = crate::walk::walk_seq(prefix, v);
    crate::walk::lemma_walk_count(prefix, v);
    match v {
        Val::Arr(items) => {
            lemma_walk_arr_postorder(prefix, items, 0);
            let u = crate::walk::walk_arr(prefix, items, 0);
            assert(w == u + seq![(prefix, v)]);
            assert(forall|a: int| 0 <= a < u.len() ==> w[a] == u[a]);
            assert(w.last() == (prefix, v));
            assert forall|a: int|
                0 <= a < w.len() implies (#[trigger] w[a]).0.len() >= prefix.len() && w[a].0.take(
                prefix.len() as int,
            ) == prefix by {
                if a < u.len() {
                } else {
                    assert(w[a] == (prefix, v));
                    assert(prefix.take(prefix.len() as int) =~= prefix);
                }
            }
            assert forall|a: int, c: int|
                0 <= a < w.len() && 0 <= c < w.len() && is_strict_prefix(
                    (#[trigger] w[a]).0,
                    (#[trigger] w[c]).0,
                ) implies c < a by {
                if a < u.len() && c < u.len() {
                } else if a == w.len() - 1 {
                    // the root's path cannot strictly extend anything
                    // shorter than itself among the emitted paths
                    assert(c < w.len() - 1 || w[c].0 == prefix);
                    if c == w.len() - 1 {
                        assert(is_strict_prefix(prefix, prefix));
                        assert(false);
                    }
                } else {
                    // `c` is the root: its path is the prefix, and every
                    // other path is strictly longer
                    assert(c == w.len() - 1);
                    assert(w[c].0 == prefix);
                    assert(w[a].0.len() > prefix.len());
                    assert(is_strict_prefix(w[a].0, prefix));
                    assert(false);
                }
            }
        },
        Val::Obj(entries) => {
            lemma_walk_obj_postorder(prefix, entries, 0);
            let u = crate::walk::walk_obj(prefix, entries, 0);
            assert(w == u + seq![(prefix, v)]);
            assert(forall|a: int| 0 <= a < u.len() ==> w[a] == u[a]);
            assert(w.last() == (prefix, v));
            assert forall|a: int|
                0 <= a < w.len() implies (#[trigger] w[a]).0.len() >= prefix.len() && w[a].0.take(
                prefix.len() as int,
            ) == prefix by {
                if a < u.len() {
                } else {
                    assert(w[a] == (prefix, v));
                    assert(prefix.take(prefix.len() as int) =~= prefix);
                }
            }
            assert forall|a: int, c: int|
                0 <= a < w.len() && 0 <= c < w.len() && is_strict_prefix(
                    (#[trigger] w[a]).0,
                    (#[trigger] w[c]).0,
                ) implies c < a by {
                if a < u.len() && c < u.len() {
                } else if a == w.len() - 1 {
                    if c == w.len() - 1 {
                        assert(is_strict_prefix(prefix, prefix));
                        assert(false);
                    }
                } else {
                    assert(c == w.len() - 1);
                    assert(w[c].0 == prefix);
                    assert(w[a].0.len() > prefix.len());
                    assert(is_strict_prefix(w[a].0, prefix));
                    assert(false);
                }
            }
        },
        _ => {
            assert(w =~= seq![(prefix, v)]);
            assert(prefix.take(prefix.len() as int) =~= prefix);
            assert forall|a: int, c: int|
                0 <= a < w.len() && 0 <= c < w.len() && is_strict_prefix(
                    (#[trigger] w[a]).0,
                    (#[trigger] w[c]).0,
                ) implies c < a by {
                assert(is_strict_prefix(prefix, prefix));
            }
        },
    }
}

/// The walk of the array elements from `i` on: every path extends the
/// prefix by that element's index, and descendants come before ancestors.
proof fn lemma_walk_arr_postorder(prefix: Seq<SegModel>, items: Seq<Val>, i: int)
    requires
        walk_unambiguous_arr(items, if i < 0 {
            0
        } else {
            i
        }),
    ensures
        ({
            let u = crate::walk::walk_arr(prefix, items, i);
            &&& forall|a: int|
                0 <= a < u.len() ==> (#[trigger] u[a]).0.len() > prefix.len() && u[a].0.take(
                    prefix.len() as int,
                ) == prefix && exists|c: int|
                    i <= c < items.len() && u[a].0[prefix.len() as int] == #[trigger] index_seg(c)
            &&& forall|a: int, c: int|
                0 <= a < u.len() && 0 <= c < u.len() && is_strict_prefix(
                    (#[trigger] u[a]).0,
                    (#[trigger] u[c]).0,
                ) ==> c < a
        }),
    decreases items, items.len() - i + 1,
{
    if i < 0 || i >= items.len() {
    } else {
        lemma_walk_unambiguous_arr_index(items, i, i);
        let child_prefix = prefix.push(SegModel::Index(i));
        lemma_walk_postorder(child_prefix, items[i]);
        lemma_walk_arr_postorder(prefix, items, i + 1);
        let chunk = crate::walk::walk_seq(child_prefix, items[i]);
        let rest = crate::walk::walk_arr(prefix, items, i + 1);
        let u = crate::walk::walk_arr(prefix, items, i);
        assert(u == chunk + rest);
        assert(forall|a: int| 0 <= a < chunk.len() ==> u[a] == chunk[a]);
        assert(forall|a: int|
            chunk.len() <= a < u.len() ==> u[a] == rest[a - chunk.len()]);
        assert forall|a: int|
            0 <= a < u.len() implies (#[trigger] u[a]).0.len() > prefix.len() && u[a].0.take(
            prefix.len() as int,
        ) == prefix && exists|c: int|
            i <= c < items.len() && u[a].0[prefix.len() as int] == #[trigger] index_seg(
                c,
            ) by {
            if a < chunk.len() {
                // a path in this chunk extends the child prefix
                assert(chunk[a].0.len() >= child_prefix.len());
                assert(chunk[a].0.take(child_prefix.len() as int) == child_prefix);
                assert(chunk[a].0.take(prefix.len() as int) =~= prefix) by {
                    assert(forall|t: int|
                        0 <= t < child_prefix.len() ==> #[trigger] chunk[a].0[t]
                            == child_prefix[t]);
                }
                assert(chunk[a].0[prefix.len() as int] == child_prefix[prefix.len() as int]);
                assert(u[a].0[prefix.len() as int] == index_seg(i));
            } else {
                let c0 = choose|c: int|
                    i + 1 <= c < items.len() && rest[a - chunk.len()].0[prefix.len() as int]
                        == #[trigger] index_seg(c);
                assert(u[a].0[prefix.len() as int] == index_seg(c0));
            }
        }
        assert forall|a: int, c: int|
            0 <= a < u.len() && 0 <= c < u.len() && is_strict_prefix(
                (#[trigger] u[a]).0,
                (#[trigger] u[c]).0,
            ) implies c < a by {
            if a < chunk.len() && c < chunk.len() {
            } else if a >= chunk.len() && c >= chunk.len() {
                assert(is_strict_prefix(rest[a - chunk.len()].0, rest[c - chunk.len()].0));
            } else {
                // across the chunk border the child segments differ, so
                // one path cannot be a prefix of the other
                let sa = u[a].0[prefix.len() as int];
                let sc = u[c].0[prefix.len() as int];
                if a < chunk.len() {
                    assert(sa == index_seg(i));
                    let c0 = choose|cc: int|
                        i + 1 <= cc < items.len() && rest[c - chunk.len()].0[prefix.len() as int]
                            == #[trigger] index_seg(cc);
                    assert(sc == index_seg(c0));
                } else {
                    assert(sc == index_seg(i));
                    let c0 = choose|cc: int|
                        i + 1 <= cc < items.len() && rest[a - chunk.len()].0[prefix.len() as int]
                            == #[trigger] index_seg(cc);
                    assert(sa == index_seg(c0));
                }
                assert(sa != sc);
                assert(u[a].0.len() > prefix.len());
                assert(u[c].0.take(u[a].0.len() as int)[prefix.len() as int] == sc);
                assert(u[a].0[prefix.len() as int] == sa);
                assert(false);
            }
        }
    }
}

/// The walk of the object entries from `i` on, mirroring the array case;
/// here the distinct-segment requirement does the work.
proof fn lemma_walk_obj_postorder(prefix: Seq<SegModel>, entries: Seq<(Seq<char>, Val)>, i: int)
    requires
        walk_unambiguous_obj(entries, if i < 0 {
            0
        } else {
            i
        }),
        forall|a: int, b: int|
            0 <= a < b < entries.len() ==> crate::walk::seg_of_key(entries[a].0)
                != crate::walk::seg_of_key(entries[b].0),
    ensures
        ({
            let u = crate::walk::walk_obj(prefix, entries, i);
            &&& forall|a: int|
                0 <= a < u.len() ==> (#[trigger] u[a]).0.len() > prefix.len() && u[a].0.take(
                    prefix.len() as int,
                ) == prefix && exists|c: int|
                    i <= c < entries.len() && u[a].0[prefix.len() as int]
                        == #[trigger] crate::walk::seg_of_key(entries[c].0)
            &&& forall|a: int, c: int|
                0 <= a < u.len() && 0 <= c < u.len() && is_strict_prefix(
                    (#[trigger] u[a]).0,
                    (#[trigger] u[c]).0,
                ) ==> c < a
        }),
    decreases entries, entries.len() - i + 1,
{
    if i < 0 || i >= entries.len() {
    } else {
        lemma_walk_unambiguous_obj_index(entries, i, i);
        let child_prefix = prefix.push(crate::walk::seg_of_key(entries[i].0));
        lemma_walk_postorder(child_prefix, entries[i].1);
        lemma_walk_obj_postorder(prefix, entries, i + 1);
        let chunk = crate::walk::walk_seq(child_prefix, entries[i].1);
        let rest = crate::walk::walk_obj(prefix, entries, i + 1);
        let u = crate::walk::walk_obj(prefix, entries, i);
        assert(u == chunk + rest);
        assert(forall|a: int| 0 <= a < chunk.len() ==> u[a] == chunk[a]);
        assert(forall|a: int|
            chunk.len() <= a < u.len() ==> u[a] == rest[a - chunk.len()]);
        assert forall|a: int|
            0 <= a < u.len() implies (#[trigger] u[a]).0.len() > prefix.len() && u[a].0.take(
            prefix.len() as int,
        ) == prefix && exists|c: int|
            i <= c < entries.len() && u[a].0[prefix.len() as int]
                == #[trigger] crate::walk::seg_of_key(entries[c].0) by {
            if a < chunk.len() {
                assert(chunk[a].0.len() >= child_prefix.len());
                assert(chunk[a].0.take(child_prefix.len() as int) == child_prefix);
                assert(chunk[a].0.take(prefix.len() as int) =~= prefix) by {
                    assert(forall|t: int|
                        0 <= t < child_prefix.len() ==> #[trigger] chunk[a].0[t]
                            == child_prefix[t]);
                }
                assert(chunk[a].0[prefix.len() as int] == child_prefix[prefix.len() as int]);
                assert(u[a].0[prefix.len() as int] == crate::walk::seg_of_key(entries[i].0));
            } else {
                let c0 = choose|c: int|
                    i + 1 <= c < entries.len() && rest[a - chunk.len()].0[prefix.len() as int]
                        == #[trigger] crate::walk::seg_of_key(entries[c].0);
                assert(u[a].0[prefix.len() as int] == crate::walk::seg_of_key(entries[c0].0));
            }
        }
        assert forall|a: int, c: int|
            0 <= a < u.len() && 0 <= c < u.len() && is_strict_prefix(
                (#[trigger] u[a]).0,
                (#[trigger] u[c]).0,
            ) implies c < a by {
            if a < chunk.len() && c < chunk.len() {
            } else if a >= chunk.len() && c >= chunk.len() {
                assert(is_strict_prefix(rest[a - chunk.len()].0, rest[c - chunk.len()].0));
            } else {
                let sa = u[a].0[prefix.len() as int];
                let sc = u[c].0[prefix.len() as int];
                if a < chunk.len() {
                    assert(sa == crate::walk::seg_of_key(entries[i].0));
                    let c0 = choose|cc: int|
                        i + 1 <= cc < entries.len() && rest[c - chunk.len()].0[prefix.len() as int]
                            == #[trigger] crate::walk::seg_of_key(entries[cc].0);
                    assert(sc == crate::walk::seg_of_key(entries[c0].0));
                    assert(sa != sc);
                } else {
                    assert(sc == crate::walk::seg_of_key(entries[i].0));
                    let c0 = choose|cc: int|
                        i + 1 <= cc < entries.len() && rest[a - chunk.len()].0[prefix.len() as int]
                            == #[trigger] crate::walk::seg_of_key(entries[cc].0);
                    assert(sa == crate::walk::seg_of_key(entries[c0].0));
                    assert(sa != sc);
                }
                assert(u[a].0.len() > prefix.len());
                assert(u[c].0.take(u[a].0.len() as int)[prefix.len() as int] == sc);
                assert(u[a].0[prefix.len() as int] == sa);
                assert(false);
            }
        }
    }
}

/// Escaping law: a text key, whatever special characters it holds, comes
/// back unchanged from a format/parse round trip.
pub proof fn lemma_escaping_roundtrip(s: Seq<char>)
    requires
        s.len() > 0,
    ensures
        parse_spec(format_spec(seq![SegModel::Key(KeyModel::Str(s))])) == Ok::<
            Seq<SegModel>,
            ErrModel,
        >(seq![SegModel::Key(KeyModel::Str(s))]),
{
    let str_path = seq![SegModel::Key(KeyModel::Str(s))];
    assert(var_name_list(str_path) =~= Seq::<Seq<char>>::empty()) by {
        assert(str_path.drop_last() =~= Seq::<SegModel>::empty());
        assert(var_name_list(str_path) == var_name_list(str_path.drop_last()) + match seg_var_name(
            str_path.last(),
        ) {
            Some(nn) => seq![nn],
            None => Seq::<Seq<char>>::empty(),
        });
        assert(var_name_list(Seq::<SegModel>::empty()) == Seq::<Seq<char>>::empty());
        assert(seg_var_name(str_path.last()) is None);
    }
    assert(roundtrippable(str_path));
    lemma_parse_format_roundtrip(str_path);
}

} // verus!
