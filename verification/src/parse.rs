//! Parsing path text into a `Structpath`.
//!
//! The grammar: an optional leading `$`, then segments separated by `.` or
//! written `[..]`. A backslash escapes the next character. A plain segment
//! starting with an unescaped `#` names a key variable; `[#name]` names an
//! index variable; `[digits]` is a literal index. A plain segment whose whole
//! text parses as a signed 64-bit integer, and that holds no escape, is an
//! integer key; every other plain segment is a text key.

use vstd::prelude::*;

verus! {

use vstd::string::StringExecFns;
use crate::digits::{parse_i64_chars, parse_i64_spec, parse_usize_chars, parse_usize_spec};
use crate::text::{chars_to_string, str_to_chars};
use crate::types::{
    err_matches, var_name_list, ErrModel, KeyModel, SegModel, Structpath, StructpathError,
};

/// The parser's whole state between two characters.
pub struct ParseState {
    /// Characters of the segment being gathered.
    pub cur: Seq<char>,
    /// Inside `[` .. `]`.
    pub in_brackets: bool,
    /// The previous character was an unconsumed backslash.
    pub escape_next: bool,
    /// Some character of the current segment was escaped.
    pub seg_escaped: bool,
    /// The first character of the current segment was escaped.
    pub first_esc: bool,
    /// The current segment began with an unescaped `#` outside brackets.
    pub is_var: bool,
    /// The segments completed so far.
    pub segs: Seq<SegModel>,
}

pub open spec fn init_state() -> ParseState {
    ParseState {
        cur: Seq::empty(),
        in_brackets: false,
        escape_next: false,
        seg_escaped: false,
        first_esc: false,
        is_var: false,
        segs: Seq::empty(),
    }
}

/// A state with the gathered segment cleared, keeping the finished segments.
pub open spec fn cleared(segs: Seq<SegModel>, in_brackets: bool) -> ParseState {
    ParseState {
        cur: Seq::empty(),
        in_brackets: in_brackets,
        escape_next: false,
        seg_escaped: false,
        first_esc: false,
        is_var: false,
        segs: segs,
    }
}

/// Classifies a finished plain segment and appends it: a variable if it
/// began with an unescaped `#` and has a name; a text key if anything in it
/// was escaped; an integer key if its text parses as an `i64`; otherwise a
/// text key.
pub open spec fn append_plain(
    segs: Seq<SegModel>,
    cur: Seq<char>,
    first_esc: bool,
    seg_escaped: bool,
    is_var: bool,
    in_brackets: bool,
) -> Result<Seq<SegModel>, ErrModel> {
    if is_var && cur.len() > 1 && cur[0] == '#' {
        let name = cur.drop_first();
        if var_name_list(segs).contains(name) {
            Err(ErrModel::DuplicateVar(name))
        } else if in_brackets {
            Ok(segs.push(SegModel::IndexVar(name)))
        } else {
            Ok(segs.push(SegModel::KeyVar(name)))
        }
    } else if first_esc || seg_escaped {
        Ok(segs.push(SegModel::Key(KeyModel::Str(cur))))
    } else {
        match parse_i64_spec(cur) {
            Some(v) => Ok(segs.push(SegModel::Key(KeyModel::Int(v)))),
            None => Ok(segs.push(SegModel::Key(KeyModel::Str(cur)))),
        }
    }
}

/// Closes a bracket segment: an index variable if it began with an unescaped
/// `#` and has a name, else a literal index, else a parse error.
pub open spec fn close_bracket(st: ParseState) -> Result<ParseState, ErrModel> {
    if !st.seg_escaped && st.cur.len() > 1 && st.cur[0] == '#' {
        let name = st.cur.drop_first();
        if var_name_list(st.segs).contains(name) {
            Err(ErrModel::DuplicateVar(name))
        } else {
            Ok(cleared(st.segs.push(SegModel::IndexVar(name)), false))
        }
    } else {
        match parse_usize_spec(st.cur) {
            Some(n) => Ok(cleared(st.segs.push(SegModel::Index(n)), false)),
            None => Err(ErrModel::Parse),
        }
    }
}

/// One character of parsing.
pub open spec fn parse_step(st: ParseState, c: char) -> Result<ParseState, ErrModel> {
    if st.escape_next {
        Ok(
            ParseState {
                cur: st.cur.push(c),
                escape_next: false,
                seg_escaped: true,
                first_esc: st.first_esc || st.cur.len() == 0,
                ..st
            },
        )
    } else if c == '\\' {
        Ok(ParseState { escape_next: true, ..st })
    } else if c == '.' && !st.in_brackets {
        if st.cur.len() == 0 {
            Ok(st)
        } else {
            match append_plain(st.segs, st.cur, st.first_esc, st.seg_escaped, st.is_var, false) {
                Ok(segs) => Ok(cleared(segs, false)),
                Err(e) => Err(e),
            }
        }
    } else if c == '[' && !st.in_brackets {
        if st.cur.len() == 0 {
            Ok(ParseState { in_brackets: true, ..st })
        } else {
            match append_plain(st.segs, st.cur, st.first_esc, st.seg_escaped, st.is_var, false) {
                Ok(segs) => Ok(cleared(segs, true)),
                Err(e) => Err(e),
            }
        }
    } else if c == ']' && st.in_brackets {
        close_bracket(st)
    } else if c == '#' && st.cur.len() == 0 && !st.in_brackets {
        Ok(ParseState { cur: st.cur.push(c), is_var: true, ..st })
    } else {
        Ok(ParseState { cur: st.cur.push(c), ..st })
    }
}

/// Runs the parser over a sequence of characters.
pub open spec fn run_steps(t: Seq<char>, st: ParseState) -> Result<ParseState, ErrModel>
    decreases t.len(),
{
    if t.len() == 0 {
        Ok(st)
    } else {
        match parse_step(st, t.first()) {
            Ok(st2) => run_steps(t.drop_first(), st2),
            Err(e) => Err(e),
        }
    }
}

/// End of input: any pending segment is finished, then an open bracket is
/// an error.
pub open spec fn finalize(st: ParseState) -> Result<Seq<SegModel>, ErrModel> {
    let done = if st.cur.len() > 0 {
        append_plain(st.segs, st.cur, st.first_esc, st.seg_escaped, st.is_var, st.in_brackets)
    } else {
        Ok(st.segs)
    };
    match done {
        Ok(segs) => if st.in_brackets {
            Err(ErrModel::Parse)
        } else {
            Ok(segs)
        },
        Err(e) => Err(e),
    }
}

pub open spec fn parse_tail(t: Seq<char>, st: ParseState) -> Result<Seq<SegModel>, ErrModel> {
    match run_steps(t, st) {
        Ok(st2) => finalize(st2),
        Err(e) => Err(e),
    }
}

/// What parsing a whole text gives: the optional `$` is stripped first.
pub open spec fn parse_spec(s: Seq<char>) -> Result<Seq<SegModel>, ErrModel> {
    let t = if s.len() > 0 && s.first() == '$' {
        s.drop_first()
    } else {
        s
    };
    parse_tail(t, init_state())
}

/// Running over a concatenation runs over each part in turn.
pub proof fn lemma_run_concat(a: Seq<char>, b: Seq<char>, st: ParseState)
    ensures
        run_steps(a + b, st) == match run_steps(a, st) {
            Ok(st2) => run_steps(b, st2),
            Err(e) => Err::<ParseState, ErrModel>(e),
        },
    decreases a.len(),
{
    if a.len() == 0 {
        assert(a + b =~= b);
    } else {
        assert((a + b).first() == a.first());
        assert((a + b).drop_first() =~= a.drop_first() + b);
        match parse_step(st, a.first()) {
            Ok(st2) => {
                lemma_run_concat(a.drop_first(), b, st2);
            },
            Err(e) => {},
        }
    }
}

/// Finishes the pending plain segment, appending it to the path.
fn process_segment(
    path: &mut Structpath,
    cur: &Vec<char>,
    first_esc: bool,
    seg_escaped: bool,
    is_var: bool,
    in_brackets: bool,
) -> (r: Result<(), StructpathError>)
    requires
        old(path).wf(),
    ensures
        match r {
            Ok(()) => append_plain(
                old(path)@,
                cur@,
                first_esc,
                seg_escaped,
                is_var,
                in_brackets,
            ) matches Ok(segs) && final(path)@ == segs && final(path).wf(),
            Err(e) => append_plain(
                old(path)@,
                cur@,
                first_esc,
                seg_escaped,
                is_var,
                in_brackets,
            ) matches Err(m) && err_matches(e, m) && *final(path) == *old(path),
        },
{
    if is_var && cur.len() > 1 && cur[0] == '#' {
        let mut name: Vec<char> = Vec::new();
        let mut j: usize = 1;
        while j < cur.len()
            invariant
                1 <= j <= cur@.len(),
                name@ == cur@.subrange(1, j as int),
            decreases cur@.len() - j,
        {
            name.push(cur[j]);
            proof {
                assert(cur@.subrange(1, j + 1 as int) =~= cur@.subrange(1, j as int).push(
                    cur@[j as int],
                ));
            }
            j = j + 1;
        }
        proof {
            assert(name@ =~= cur@.drop_first());
        }
        let name_str = chars_to_string(&name);
        let pushed = if in_brackets {
            path.push_index_variable(name_str.as_str())
        } else {
            path.push_key_variable(name_str.as_str())
        };
        match pushed {
            Ok(()) => Ok(()),
            Err(e) => Err(e),
        }
    } else if first_esc || seg_escaped {
        let key = chars_to_string(cur);
        path.push_string_key(key.as_str());
        Ok(())
    } else {
        match parse_i64_chars(cur) {
            Some(v) => {
                path.push_int_key(v);
            },
            None => {
                let key = chars_to_string(cur);
                path.push_string_key(key.as_str());
            },
        }
        Ok(())
    }
}

/// Parses path text. On success the returned path is exactly what
/// `parse_spec` gives on the text, and it is well formed.
pub fn parse(path_str: &str) -> (r: Result<Structpath, StructpathError>)
    ensures
        match parse_spec(path_str@) {
            Ok(segs) => r matches Ok(p) && p@ == segs && p.wf(),
            Err(m) => r matches Err(e) && err_matches(e, m),
        },
{
    let chars = str_to_chars(path_str);
    let mut i: usize = 0;
    if chars.len() > 0 && chars[0] == '$' {
        i = 1;
    }
    proof {
        if path_str@.len() > 0 && path_str@.first() == '$' {
            assert(chars@.skip(1) =~= path_str@.drop_first());
        } else {
            assert(chars@.skip(0) =~= path_str@);
        }
    }
    let mut path = Structpath::new();
    let mut cur: Vec<char> = Vec::new();
    let mut in_brackets: bool = false;
    let mut escape_next: bool = false;
    let mut seg_escaped: bool = false;
    let mut first_esc: bool = false;
    let mut is_var: bool = false;
    while i < chars.len()
        invariant
            i <= chars@.len(),
            path.wf(),
            parse_tail(
                chars@.skip(i as int),
                (ParseState {
                    cur: cur@,
                    in_brackets: in_brackets,
                    escape_next: escape_next,
                    seg_escaped: seg_escaped,
                    first_esc: first_esc,
                    is_var: is_var,
                    segs: path@,
                }),
            ) == parse_spec(path_str@),
        decreases chars@.len() - i,
    {
        let ghost st = ParseState {
            cur: cur@,
            in_brackets: in_brackets,
            escape_next: escape_next,
            seg_escaped: seg_escaped,
            first_esc: first_esc,
            is_var: is_var,
            segs: path@,
        };
        let c = chars[i];
        proof {
            assert(chars@.skip(i as int).first() == c);
            assert(chars@.skip(i as int).drop_first() =~= chars@.skip(i + 1 as int));
        }
        if escape_next {
            let ghost cur0 = cur@;
            if cur.len() == 0 {
                first_esc = true;
            }
            cur.push(c);
            escape_next = false;
            seg_escaped = true;
            proof {
                assert(parse_step(st, c) matches Ok(st2) && st2 == (ParseState {
                    cur: cur@,
                    in_brackets: in_brackets,
                    escape_next: escape_next,
                    seg_escaped: seg_escaped,
                    first_esc: first_esc,
                    is_var: is_var,
                    segs: path@,
                }));
            }
        } else if c == '\\' {
            escape_next = true;
        } else if c == '.' && !in_brackets {
            if cur.len() > 0 {
                match process_segment(&mut path, &cur, first_esc, seg_escaped, is_var, false) {
                    Ok(()) => {},
                    Err(e) => {
                        return Err(e);
                    },
                }
                cur = Vec::new();
                first_esc = false;
                seg_escaped = false;
                is_var = false;
                proof {
                    assert(cur@ =~= Seq::<char>::empty());
                }
            }
        } else if c == '[' && !in_brackets {
            if cur.len() > 0 {
                match process_segment(&mut path, &cur, first_esc, seg_escaped, is_var, false) {
                    Ok(()) => {},
                    Err(e) => {
                        return Err(e);
                    },
                }
                cur = Vec::new();
                first_esc = false;
                seg_escaped = false;
                is_var = false;
                proof {
                    assert(cur@ =~= Seq::<char>::empty());
                }
            }
            in_brackets = true;
        } else if c == ']' && in_brackets {
            if !seg_escaped && cur.len() > 1 && cur[0] == '#' {
                match process_segment(&mut path, &cur, first_esc, seg_escaped, true, true) {
                    Ok(()) => {},
                    Err(e) => {
                        return Err(e);
                    },
                }
            } else {
                match parse_usize_chars(&cur) {
                    Some(n) => {
                        path.push_index(n);
                    },
                    None => {
                        let mut msg = String::new();
                        msg.append("Invalid index: ");
                        let cur_text = chars_to_string(&cur);
                        msg.append(cur_text.as_str());
                        return Err(StructpathError::ParseError(msg));
                    },
                }
            }
            in_brackets = false;
            cur = Vec::new();
            first_esc = false;
            seg_escaped = false;
            is_var = false;
            proof {
                assert(cur@ =~= Seq::<char>::empty());
            }
        } else if c == '#' && cur.len() == 0 && !in_brackets {
            is_var = true;
            cur.push(c);
        } else {
            cur.push(c);
        }
        i = i + 1;
    }
    proof {
        assert(chars@.skip(chars@.len() as int) =~= Seq::<char>::empty());
    }
    if cur.len() > 0 {
        match process_segment(&mut path, &cur, first_esc, seg_escaped, is_var, in_brackets) {
            Ok(()) => {},
            Err(e) => {
                return Err(e);
            },
        }
    }
    if in_brackets {
        let mut msg = String::new();
        msg.append("Unclosed bracket");
        return Err(StructpathError::ParseError(msg));
    }
    Ok(path)
}

impl Structpath {
    /// Parses path text; see the free function `parse`.
    pub fn parse(path_str: &str) -> (r: Result<Structpath, StructpathError>)
        ensures
            match parse_spec(path_str@) {
                Ok(segs) => r matches Ok(p) && p@ == segs && p.wf(),
                Err(m) => r matches Err(e) && err_matches(e, m),
            },
    {
        parse(path_str)
    }
}

} // verus!
