//! Decimal text: rendering integers as decimal character sequences and
//! parsing decimal text back, exactly as Rust's integer `from_str` does
//! (optional single sign, one or more digits, value within the type's range).

use vstd::prelude::*;

verus! {

use crate::text::push_char;

pub open spec fn is_digit(c: char) -> bool {
    '0' <= c && c <= '9'
}

pub open spec fn digit_val(c: char) -> int {
    c as int - 48
}

pub open spec fn digit_char(d: int) -> char {
    ((48 + d) as u8) as char
}

/// The decimal digits of a non-negative number, most significant first.
pub open spec fn digits_of(n: nat) -> Seq<char>
    decreases n,
{
    if n < 10 {
        seq![digit_char(n as int)]
    } else {
        digits_of(n / 10).push(digit_char((n % 10) as int))
    }
}

/// The canonical decimal rendering of an integer, with `-` for negatives.
pub open spec fn decimal_int(i: int) -> Seq<char> {
    if i < 0 {
        seq!['-'] + digits_of((-i) as nat)
    } else {
        digits_of(i as nat)
    }
}

pub open spec fn all_digits(s: Seq<char>) -> bool {
    forall|i: int| 0 <= i < s.len() ==> is_digit(#[trigger] s[i])
}

/// The number denoted by a sequence of decimal digits.
pub open spec fn digits_value(s: Seq<char>) -> int
    decreases s.len(),
{
    if s.len() == 0 {
        0
    } else {
        digits_value(s.drop_last()) * 10 + digit_val(s.last())
    }
}

/// The integer a text denotes under Rust's `from_str` grammar, with no
/// range restriction: an optional single `+` or `-`, then one or more digits.
pub open spec fn parse_int_text(s: Seq<char>) -> Option<int> {
    if s.len() == 0 {
        None
    } else if s[0] == '+' || s[0] == '-' {
        let d = s.drop_first();
        if d.len() > 0 && all_digits(d) {
            if s[0] == '-' {
                Some(-digits_value(d))
            } else {
                Some(digits_value(d))
            }
        } else {
            None
        }
    } else {
        if all_digits(s) {
            Some(digits_value(s))
        } else {
            None
        }
    }
}

/// What `str::parse::<i64>` accepts, and the value it gives.
pub open spec fn parse_i64_spec(s: Seq<char>) -> Option<int> {
    match parse_int_text(s) {
        Some(v) => if i64::MIN <= v <= i64::MAX {
            Some(v)
        } else {
            None
        },
        None => None,
    }
}

/// What `str::parse::<usize>` accepts, and the value it gives.
pub open spec fn parse_usize_spec(s: Seq<char>) -> Option<int> {
    if s.len() > 0 && s[0] == '-' {
        None
    } else {
        match parse_int_text(s) {
            Some(v) => if v <= usize::MAX {
                Some(v)
            } else {
                None
            },
            None => None,
        }
    }
}

pub proof fn lemma_digits_of_props(n: nat)
    ensures
        digits_of(n).len() >= 1,
        all_digits(digits_of(n)),
        digits_value(digits_of(n)) == n,
    decreases n,
{
    if n < 10 {
        assert(digit_char(n as int) as int == 48 + n);
        assert(is_digit(digit_char(n as int)));
        assert(digits_of(n) =~= seq![digit_char(n as int)]);
        assert(digits_of(n).drop_last() =~= Seq::<char>::empty());
        assert(digits_value(Seq::<char>::empty()) == 0);
        assert(digits_value(digits_of(n)) == digits_value(digits_of(n).drop_last()) * 10
            + digit_val(digits_of(n).last()));
        assert(digit_val(digits_of(n).last()) == n);
        assert(digits_value(digits_of(n)) == n);
    } else {
        lemma_digits_of_props(n / 10);
        vstd::arithmetic::div_mod::lemma_fundamental_div_mod(n as int, 10);
        assert(digit_char((n % 10) as int) as int == 48 + n % 10);
        let s = digits_of(n);
        assert(s.drop_last() =~= digits_of(n / 10));
        assert(s.last() == digit_char((n % 10) as int));
        assert(is_digit(digit_char((n % 10) as int)));
        assert forall|i: int| 0 <= i < s.len() implies is_digit(#[trigger] s[i]) by {
            if i < s.len() - 1 {
                assert(s[i] == digits_of(n / 10)[i]);
            }
        }
    }
}

pub proof fn lemma_digits_value_nonneg(s: Seq<char>)
    requires
        all_digits(s),
    ensures
        digits_value(s) >= 0,
    decreases s.len(),
{
    if s.len() > 0 {
        assert(forall|i: int| 0 <= i < s.drop_last().len() ==> is_digit(#[trigger] s.drop_last()[i]));
        lemma_digits_value_nonneg(s.drop_last());
        assert(is_digit(s.last()));
    }
}

/// Reading one more digit multiplies the prefix value by ten and adds it.
pub proof fn lemma_digits_value_take_step(s: Seq<char>, i: int)
    requires
        0 <= i < s.len(),
    ensures
        digits_value(s.take(i + 1)) == digits_value(s.take(i)) * 10 + digit_val(s[i]),
{
    assert(s.take(i + 1).drop_last() =~= s.take(i));
    assert(s.take(i + 1).last() == s[i]);
}

/// A digit prefix never denotes more than the whole digit string.
pub proof fn lemma_digits_prefix_le(s: Seq<char>, i: int)
    requires
        all_digits(s),
        0 <= i <= s.len(),
    ensures
        digits_value(s.take(i)) <= digits_value(s),
    decreases s.len() - i,
{
    if i == s.len() {
        assert(s.take(i) =~= s);
    } else {
        lemma_digits_value_take_step(s, i);
        assert(forall|j: int| 0 <= j < s.take(i).len() ==> is_digit(#[trigger] s.take(i)[j]));
        lemma_digits_value_nonneg(s.take(i));
        assert(is_digit(s[i]));
        assert(digits_value(s.take(i)) <= digits_value(s.take(i + 1)));
        lemma_digits_prefix_le(s, i + 1);
    }
}

/// The canonical digits of a number parse back to that number.
pub proof fn lemma_parse_int_digits(n: nat)
    ensures
        parse_int_text(digits_of(n)) == Some(n as int),
{
    lemma_digits_of_props(n);
    assert(is_digit(digits_of(n)[0]));
}

/// The canonical rendering of an `i64` value parses back to that value.
pub proof fn lemma_parse_decimal_i64(i: int)
    requires
        i64::MIN <= i <= i64::MAX,
    ensures
        parse_i64_spec(decimal_int(i)) == Some(i),
{
    if i < 0 {
        let s = decimal_int(i);
        lemma_digits_of_props((-i) as nat);
        assert(s[0] == '-');
        assert(s.drop_first() =~= digits_of((-i) as nat));
    } else {
        lemma_parse_int_digits(i as nat);
        assert(is_digit(digits_of(i as nat)[0])) by {
            lemma_digits_of_props(i as nat);
        }
    }
}

/// The canonical digits of a `usize` value parse back to that value.
pub proof fn lemma_parse_digits_usize(n: nat)
    requires
        n <= usize::MAX,
    ensures
        parse_usize_spec(digits_of(n)) == Some(n as int),
{
    lemma_parse_int_digits(n);
    lemma_digits_of_props(n);
    assert(is_digit(digits_of(n)[0]));
}

/// An accepted unsigned decimal never denotes a negative number.
pub proof fn lemma_parse_usize_nonneg(s: Seq<char>)
    ensures
        parse_usize_spec(s) matches Some(v) ==> v >= 0,
{
    if parse_usize_spec(s) is Some {
        if s[0] == '+' {
            lemma_digits_value_nonneg(s.drop_first());
        } else {
            lemma_digits_value_nonneg(s);
        }
    }
}

/// Scans digits from position `from` to the end, accumulating their value,
/// and fails on a non-digit or when the value would pass `limit`.
#[verifier::loop_isolation(false)]
fn accumulate_digits(s: &Vec<char>, from: usize, limit: u64) -> (r: Option<u64>)
    requires
        from <= s@.len(),
        limit >= 9,
    ensures
        match r {
            Some(acc) => all_digits(s@.skip(from as int)) && acc == digits_value(
                s@.skip(from as int),
            ) && acc <= limit,
            None => !(all_digits(s@.skip(from as int)) && digits_value(s@.skip(from as int))
                <= limit),
        },
{
    let ghost d = s@.skip(from as int);
    let mut acc: u64 = 0;
    let mut i: usize = from;
    while i < s.len()
        invariant
            from <= i <= s@.len(),
            acc <= limit,
            all_digits(s@.subrange(from as int, i as int)),
            acc == digits_value(s@.subrange(from as int, i as int)),
        decreases s@.len() - i,
    {
        let c = s[i];
        let ghost prefix = s@.subrange(from as int, i as int);
        proof {
            assert(s@.subrange(from as int, i + 1 as int) =~= prefix.push(s@[i as int]));
            assert(s@.subrange(from as int, i + 1 as int).drop_last() =~= prefix);
        }
        if !('0' <= c && c <= '9') {
            proof {
                assert(d[i - from] == c);
                assert(!is_digit(c));
            }
            return None;
        }
        let dv: u64 = (c as u32 - 48) as u64;
        assert(dv <= 9);
        if acc > (limit - dv) / 10 {
            proof {
                let q = (limit - dv) as int / 10;
                let rr = (limit - dv) as int % 10;
                vstd::arithmetic::div_mod::lemma_fundamental_div_mod((limit - dv) as int, 10);
                assert(acc * 10 >= (q + 1) * 10) by (nonlinear_arith)
                    requires acc >= q + 1;
                assert(acc * 10 + dv > limit);
                // the prefix through this digit already passes the limit,
                // and digit values only grow with more digits
                if all_digits(d) {
                    assert(d.take(i + 1 - from) =~= s@.subrange(from as int, i + 1 as int));
                    assert(digits_value(d.take(i + 1 - from)) == acc * 10 + dv);
                    lemma_digits_prefix_le(d, i + 1 - from);
                    assert(digits_value(d) > limit);
                }
            }
            return None;
        }
        proof {
            let q = (limit - dv) as int / 10;
            vstd::arithmetic::div_mod::lemma_fundamental_div_mod((limit - dv) as int, 10);
            assert(acc * 10 <= q * 10) by (nonlinear_arith)
                requires acc <= q;
            assert(acc * 10 + dv <= limit);
        }
        acc = acc * 10 + dv;
        i = i + 1;
    }
    proof {
        assert(s@.subrange(from as int, s@.len() as int) =~= d);
    }
    Some(acc)
}

/// What `str::parse::<i64>` would give on this text.
pub fn parse_i64_chars(s: &Vec<char>) -> (r: Option<i64>)
    ensures
        r is Some <==> parse_i64_spec(s@) is Some,
        r matches Some(x) ==> parse_i64_spec(s@) == Some(x as int),
{
    if s.len() == 0 {
        return None;
    }
    let c0 = s[0];
    let neg: bool = c0 == '-';
    let signed: bool = neg || c0 == '+';
    let from: usize = if signed {
        1
    } else {
        0
    };
    if from >= s.len() {
        // a sign alone, or nothing after it
        return None;
    }
    let limit: u64 = if neg {
        9223372036854775808u64
    } else {
        9223372036854775807u64
    };
    let ghost d = if signed {
        s@.drop_first()
    } else {
        s@
    };
    proof {
        assert(s@.skip(from as int) =~= d);
    }
    match accumulate_digits(s, from, limit) {
        None => {
            proof {
                if all_digits(d) {
                    lemma_digits_value_nonneg(d);
                }
            }
            None
        },
        Some(acc) => {
            if neg {
                if acc == 9223372036854775808u64 {
                    Some(i64::MIN)
                } else {
                    Some(-(acc as i64))
                }
            } else {
                Some(acc as i64)
            }
        },
    }
}

/// What `str::parse::<usize>` would give on this text.
pub fn parse_usize_chars(s: &Vec<char>) -> (r: Option<usize>)
    ensures
        r is Some <==> parse_usize_spec(s@) is Some,
        r matches Some(x) ==> parse_usize_spec(s@) == Some(x as int),
{
    if s.len() == 0 {
        return None;
    }
    let c0 = s[0];
    if c0 == '-' {
        return None;
    }
    let from: usize = if c0 == '+' {
        1
    } else {
        0
    };
    if from >= s.len() {
        return None;
    }
    let ghost d = if c0 == '+' {
        s@.drop_first()
    } else {
        s@
    };
    proof {
        assert(s@.skip(from as int) =~= d);
    }
    match accumulate_digits(s, from, usize::MAX as u64) {
        None => {
            proof {
                if all_digits(d) {
                    lemma_digits_value_nonneg(d);
                }
            }
            None
        },
        Some(acc) => Some(acc as usize),
    }
}

pub open spec fn rev_chars(s: Seq<char>) -> Seq<char> {
    Seq::new(s.len(), |i: int| s[s.len() - 1 - i])
}

fn digit_char_exec(d: u64) -> (c: char)
    requires
        d < 10,
    ensures
        c == digit_char(d as int),
{
    (48 + d as u8) as char
}

/// Appends the decimal digits of `n` to the string.
pub fn push_digits(out: &mut String, n: u64)
    ensures
        final(out)@ == old(out)@ + digits_of(n as nat),
{
    let mut buf: Vec<char> = Vec::new();
    let mut rem: u64 = n;
    loop
        invariant_except_break
            digits_of(n as nat) =~= digits_of(rem as nat) + rev_chars(buf@),
        ensures
            digits_of(n as nat) =~= rev_chars(buf@),
        decreases rem,
    {
        let ghost rem0 = rem;
        let ghost buf0 = buf@;
        buf.push(digit_char_exec(rem % 10));
        proof {
            vstd::arithmetic::div_mod::lemma_fundamental_div_mod(rem0 as int, 10);
            assert(rev_chars(buf@) =~= seq![digit_char((rem0 % 10) as int)] + rev_chars(buf0));
        }
        rem = rem / 10;
        if rem == 0 {
            proof {
                assert(digits_of(rem0 as nat) =~= seq![digit_char((rem0 % 10) as int)]);
            }
            break;
        }
        proof {
            assert(rem0 >= 10);
            assert(digits_of(rem0 as nat) == digits_of((rem0 as nat) / 10).push(
                digit_char(((rem0 as nat) % 10) as int),
            ));
            assert(digits_of(rem0 as nat) =~= digits_of(rem as nat) + seq![
                digit_char((rem0 % 10) as int),
            ]);
        }
    }
    let mut j: usize = buf.len();
    while j > 0
        invariant
            j <= buf@.len(),
            out@ == old(out)@ + rev_chars(buf@).take(buf@.len() - j),
        decreases j,
    {
        j = j - 1;
        push_char(out, buf[j]);
        proof {
            assert(rev_chars(buf@).take(buf@.len() - j) =~= rev_chars(buf@).take(
                buf@.len() - j - 1,
            ).push(buf@[j as int]));
        }
    }
    proof {
        assert(rev_chars(buf@).take(buf@.len() as int) =~= rev_chars(buf@));
    }
}

/// The canonical decimal rendering of a `usize`.
pub fn usize_to_string(n: usize) -> (r: String)
    ensures
        r@ == digits_of(n as nat),
{
    let mut s = String::new();
    push_digits(&mut s, n as u64);
    proof {
        assert(Seq::<char>::empty() + digits_of(n as nat) =~= digits_of(n as nat));
    }
    s
}

/// The canonical decimal rendering of an `i64`, with `-` for negatives.
pub fn i64_to_string(i: i64) -> (r: String)
    ensures
        r@ == decimal_int(i as int),
{
    let mut s = String::new();
    if i < 0 {
        push_char(&mut s, '-');
        let mag: u64 = if i == i64::MIN {
            9223372036854775808u64
        } else {
            (-i) as u64
        };
        push_digits(&mut s, mag);
        proof {
            assert(mag as int == -(i as int));
            assert(Seq::<char>::empty().push('-') + digits_of(mag as nat) =~= decimal_int(
                i as int,
            ));
        }
    } else {
        push_digits(&mut s, i as u64);
        proof {
            assert(Seq::<char>::empty() + digits_of(i as nat) =~= decimal_int(i as int));
        }
    }
    s
}

} // verus!
