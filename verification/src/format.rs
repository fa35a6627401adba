//! Rendering a path as text: the canonical serialization that the parser
//! reads back.

use vstd::prelude::*;

verus! {

use vstd::string::StringExecFns;
use crate::digits::{
    decimal_int, digits_of, i64_to_string, parse_i64_chars, parse_i64_spec, push_digits,
};
use crate::text::{push_char, str_to_chars};
use crate::types::{KeyModel, SegModel, Segment, SegmentKey, Structpath};

/// The characters with a role in path syntax; each is escaped inside a
/// literal text key.
pub open spec fn is_special(c: char) -> bool {
    c == '.' || c == '[' || c == ']' || c == '\\' || c == '#'
}

/// A text key with every special character preceded by a backslash.
pub open spec fn escape_chars(s: Seq<char>) -> Seq<char>
    decreases s.len(),
{
    if s.len() == 0 {
        Seq::empty()
    } else {
        (if is_special(s.first()) {
            seq!['\\', s.first()]
        } else {
            seq![s.first()]
        }) + escape_chars(s.drop_first())
    }
}

pub open spec fn is_key_like(s: SegModel) -> bool {
    s is Key || s is KeyVar
}

/// The rendering of one segment; `first` says whether no key-like segment
/// has been rendered yet, which suppresses the `.` separator.
pub open spec fn format_seg(seg: SegModel, first: bool) -> Seq<char> {
    let dot: Seq<char> = if first {
        Seq::empty()
    } else {
        seq!['.']
    };
    match seg {
        SegModel::Key(KeyModel::Str(s)) => dot + (if parse_i64_spec(s) is Some {
            seq!['\\']
        } else {
            Seq::empty()
        }) + escape_chars(s),
        SegModel::Key(KeyModel::Int(i)) => dot + decimal_int(i),
        SegModel::Index(n) => seq!['['] + digits_of(n as nat) + seq![']'],
        SegModel::KeyVar(n) => dot + seq!['#'] + n,
        SegModel::IndexVar(n) => seq!['[', '#'] + n + seq![']'],
    }
}

/// The rendering of the segments from position `i` on.
pub open spec fn format_from(segs: Seq<SegModel>, i: int, first: bool) -> Seq<char>
    decreases segs.len() - i,
{
    if i < 0 || i >= segs.len() {
        Seq::empty()
    } else {
        format_seg(segs[i], first) + format_from(segs, i + 1, first && !is_key_like(segs[i]))
    }
}

/// The canonical text of a whole path.
pub open spec fn format_spec(segs: Seq<SegModel>) -> Seq<char> {
    seq!['$'] + format_from(segs, 0, true)
}

/// Escaping distributes over concatenation.
pub proof fn lemma_escape_concat(a: Seq<char>, b: Seq<char>)
    ensures
        escape_chars(a + b) == escape_chars(a) + escape_chars(b),
    decreases a.len(),
{
    if a.len() == 0 {
        assert(a + b =~= b);
        assert(escape_chars(a) + escape_chars(b) =~= escape_chars(b));
    } else {
        lemma_escape_concat(a.drop_first(), b);
        assert((a + b).drop_first() =~= a.drop_first() + b);
        assert((a + b).first() == a.first());
        assert(escape_chars(a + b) =~= escape_chars(a) + escape_chars(b));
    }
}

/// Renders a path as text: `parse` reads this text back to an equal path.
pub fn to_string(path: &Structpath) -> (r: String)
    ensures
        r@ == format_spec(path@),
{
    let mut out = String::new();
    push_char(&mut out, '$');
    proof {
        assert(out@ =~= seq!['$']);
    }
    let mut first: bool = true;
    let segs = path.segments();
    let mut i: usize = 0;
    while i < segs.len()
        invariant
            i <= segs@.len(),
            segs@.len() == path@.len(),
            forall|j: int| 0 <= j < segs@.len() ==> segs@[j]@ == path@[j],
            out@ + format_from(path@, i as int, first) == format_spec(path@),
        decreases segs@.len() - i,
    {
        let ghost first0 = first;
        let ghost out0 = out@;
        match &segs[i] {
            Segment::Key(SegmentKey::String(s)) => {
                if !first {
                    push_char(&mut out, '.');
                }
                first = false;
                let cs = str_to_chars(s);
                if parse_i64_chars(&cs).is_some() {
                    push_char(&mut out, '\\');
                }
                let mut j: usize = 0;
                let ghost out1 = out@;
                while j < cs.len()
                    invariant
                        j <= cs@.len(),
                        cs@ == s@,
                        out@ == out1 + escape_chars(s@.take(j as int)),
                    decreases cs@.len() - j,
                {
                    let c = cs[j];
                    if c == '.' || c == '[' || c == ']' || c == '\\' || c == '#' {
                        push_char(&mut out, '\\');
                    }
                    push_char(&mut out, c);
                    proof {
                        assert(s@.take(j + 1 as int) =~= s@.take(j as int) + seq![s@[j as int]]);
                        lemma_escape_concat(s@.take(j as int), seq![s@[j as int]]);
                        assert(seq![s@[j as int]].drop_first() =~= Seq::<char>::empty());
                        assert(escape_chars(Seq::<char>::empty()) =~= Seq::<char>::empty());
                        assert(escape_chars(seq![s@[j as int]]) =~= if is_special(s@[j as int]) {
                            seq!['\\', s@[j as int]]
                        } else {
                            seq![s@[j as int]]
                        });
                        assert(out@ == out1 + escape_chars(s@.take(j + 1 as int)));
                    }
                    j = j + 1;
                }
                proof {
                    assert(s@.take(s@.len() as int) =~= s@);
                    assert(out@ =~= out0 + format_seg(path@[i as int], first0));
                }
            },
            Segment::Key(SegmentKey::Int(k)) => {
                if !first {
                    push_char(&mut out, '.');
                }
                first = false;
                let t = i64_to_string(*k);
                out.append(t.as_str());
                proof {
                    assert(out@ =~= out0 + format_seg(path@[i as int], first0));
                }
            },
            Segment::Index(n) => {
                push_char(&mut out, '[');
                push_digits(&mut out, *n as u64);
                push_char(&mut out, ']');
                proof {
                    assert(out@ =~= out0 + format_seg(path@[i as int], first0));
                }
            },
            Segment::KeyVariable(n) => {
                if !first {
                    push_char(&mut out, '.');
                }
                first = false;
                push_char(&mut out, '#');
                out.append(n.as_str());
                proof {
                    assert(out@ =~= out0 + format_seg(path@[i as int], first0));
                }
            },
            Segment::IndexVariable(n) => {
                push_char(&mut out, '[');
                push_char(&mut out, '#');
                out.append(n.as_str());
                push_char(&mut out, ']');
                proof {
                    assert(out@ =~= out0 + format_seg(path@[i as int], first0));
                }
            },
        }
        i = i + 1;
    }
    proof {
        assert(out@ + format_from(path@, path@.len() as int, first) =~= out@);
    }
    out
}

impl Structpath {
    /// The canonical text of this path; `parse` reads it back.
    pub fn to_string(&self) -> (r: String)
        ensures
            r@ == format_spec(self@),
    {
        to_string(self)
    }
}

} // verus!
