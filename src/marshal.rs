//! Marshaling between protocol text and 32-bit integers: every argument is
//! read as an `i32` and every result is written as one, whatever types the
//! signature declares.
use vstd::prelude::*;

use crate::text::chars_of;

verus! {

pub open spec fn is_digit(c: char) -> bool {
    0x30 <= c as u32 && c as u32 <= 0x39
}

pub open spec fn digit_value(c: char) -> int {
    c as u32 - 0x30
}

pub open spec fn all_digits(d: Seq<char>) -> bool {
    forall|i: int| 0 <= i < d.len() ==> is_digit(#[trigger] d[i])
}

/// The value of a string of decimal digits.
pub open spec fn digits_value(d: Seq<char>) -> int
    decreases d.len(),
{
    if d.len() == 0 {
        0
    } else {
        digits_value(d.drop_last()) * 10 + digit_value(d.last())
    }
}

/// The integer that `s` writes: an optional `+` or `-`, then one or more
/// decimal digits, and nothing else.
pub open spec fn integer_value(s: Seq<char>) -> Option<int> {
    if s.len() > 0 && (s[0] == '-' || s[0] == '+') {
        let d = s.drop_first();
        if d.len() > 0 && all_digits(d) {
            Some(
                if s[0] == '-' {
                    -digits_value(d)
                } else {
                    digits_value(d)
                },
            )
        } else {
            None
        }
    } else if s.len() > 0 && all_digits(s) {
        Some(digits_value(s))
    } else {
        None
    }
}

/// The `i32` that `s` writes, as `str::parse::<i32>` reads it.
pub open spec fn i32_value(s: Seq<char>) -> Option<i32> {
    match integer_value(s) {
        Some(v) => if i32::MIN <= v <= i32::MAX {
            Some(v as i32)
        } else {
            None
        },
        None => None,
    }
}

proof fn lemma_digits_nonneg(d: Seq<char>)
    requires
        all_digits(d),
    ensures
        digits_value(d) >= 0,
    decreases d.len(),
{
    if d.len() > 0 {
        assert(is_digit(d[d.len() - 1]));
        lemma_digits_nonneg(d.drop_last());
    }
}

/// The digits `v[start..end]`, read with a ceiling: `None` once the value
/// exceeds 2^31, which no `i32` magnitude does.
fn capped_digits(v: &Vec<char>, start: usize) -> (r: Option<u64>)
    requires
        start <= v.len(),
    ensures
        match r {
            Some(m) => all_digits(v@.subrange(start as int, v@.len() as int)) && m
                == digits_value(v@.subrange(start as int, v@.len() as int)) && m <= 0x8000_0000,
            None => !all_digits(v@.subrange(start as int, v@.len() as int)) || digits_value(
                v@.subrange(start as int, v@.len() as int),
            ) > 0x8000_0000,
        },
{
    let mut acc: u64 = 0;
    let mut big: bool = false;
    let mut i: usize = start;
    while i < v.len()
        invariant
            start <= i <= v.len(),
            all_digits(v@.subrange(start as int, i as int)),
            big ==> digits_value(v@.subrange(start as int, i as int)) > 0x8000_0000,
            !big ==> acc == digits_value(v@.subrange(start as int, i as int)) && acc
                <= 0x8000_0000,
        decreases v.len() - i,
    {
        let c = v[i];
        let ghost pre = v@.subrange(start as int, i as int);
        let ghost cur = v@.subrange(start as int, i + 1);
        assert(cur.drop_last() =~= pre);
        assert(cur.last() == c);
        if !(0x30 <= c as u32 && c as u32 <= 0x39) {
            assert(!all_digits(v@.subrange(start as int, v@.len() as int))) by {
                assert(v@.subrange(start as int, v@.len() as int)[i - start] == c);
            }
            return None;
        }
        proof {
            lemma_digits_nonneg(pre);
        }
        if !big {
            acc = acc * 10 + (c as u32 - 0x30) as u64;
            if acc > 0x8000_0000 {
                big = true;
            }
        }
        i = i + 1;
    }
    if big {
        None
    } else {
        Some(acc)
    }
}

/// Reads `s` as `str::parse::<i32>` does: `None` where it is no integer or
/// lies outside the range of `i32`.
pub fn parse_i32(s: &str) -> (r: Option<i32>)
    ensures
        r == i32_value(s@),
{
    let v = chars_of(s);
    let n = v.len();
    if n == 0 {
        return None;
    }
    let signed = v[0] == '-' || v[0] == '+';
    let start: usize = if signed {
        1
    } else {
        0
    };
    if start == n {
        return None;
    }
    assert(v@.subrange(1, n as int) =~= v@.drop_first());
    assert(v@.subrange(0, n as int) =~= v@);
    match capped_digits(&v, start) {
        None => None,
        Some(m) => {
            if v[0] == '-' {
                Some((0 - m as i64) as i32)
            } else if m <= 0x7fff_ffff {
                Some(m as i32)
            } else {
                None
            }
        },
    }
}

/// The decimal digit `d` as a character.
pub open spec fn digit_char(d: int) -> char {
    if d == 0 {
        '0'
    } else if d == 1 {
        '1'
    } else if d == 2 {
        '2'
    } else if d == 3 {
        '3'
    } else if d == 4 {
        '4'
    } else if d == 5 {
        '5'
    } else if d == 6 {
        '6'
    } else if d == 7 {
        '7'
    } else if d == 8 {
        '8'
    } else {
        '9'
    }
}

/// The decimal digits of `n`, most significant first, without leading zeros.
pub open spec fn decimal_digits(n: nat) -> Seq<char>
    decreases n,
{
    if n < 10 {
        seq![digit_char(n as int)]
    } else {
        decimal_digits(n / 10).push(digit_char((n % 10) as int))
    }
}

/// The canonical decimal text of `n`: a `-` for a negative value, then the
/// digits of its magnitude.
pub open spec fn decimal(n: int) -> Seq<char> {
    if n < 0 {
        seq!['-'] + decimal_digits((-n) as nat)
    } else {
        decimal_digits(n as nat)
    }
}

fn digit_text(d: u32) -> (r: &'static str)
    requires
        d < 10,
    ensures
        r@ == seq![digit_char(d as int)],
{
    proof {
        reveal_strlit("0");
        reveal_strlit("1");
        reveal_strlit("2");
        reveal_strlit("3");
        reveal_strlit("4");
        reveal_strlit("5");
        reveal_strlit("6");
        reveal_strlit("7");
        reveal_strlit("8");
        reveal_strlit("9");
    }
    let r = if d == 0 {
        "0"
    } else if d == 1 {
        "1"
    } else if d == 2 {
        "2"
    } else if d == 3 {
        "3"
    } else if d == 4 {
        "4"
    } else if d == 5 {
        "5"
    } else if d == 6 {
        "6"
    } else if d == 7 {
        "7"
    } else if d == 8 {
        "8"
    } else {
        "9"
    };
    assert(r@ =~= seq![digit_char(d as int)]);
    r
}

fn append_digits(out: &mut String, m: u32)
    ensures
        final(out)@ == old(out)@ + decimal_digits(m as nat),
    decreases m,
{
    if m >= 10 {
        append_digits(out, m / 10);
    }
    out.append(digit_text(m % 10));
    assert(final(out)@ =~= old(out)@ + decimal_digits(m as nat));
}

/// The canonical decimal text of `n`.
pub fn render_i32(n: i32) -> (r: String)
    ensures
        r@ == decimal(n as int),
{
    let mut out = String::new();
    if n < 0 {
        proof {
            reveal_strlit("-");
        }
        out.append("-");
        let m: u32 = (0 - n as i64) as u32;
        append_digits(&mut out, m);
    } else {
        append_digits(&mut out, n as u32);
    }
    assert(out@ =~= decimal(n as int));
    out
}

/// Every argument read as an `i32`, in order; `None` where any one of them
/// is not a valid `i32`.
pub fn parse_arguments(args: &Vec<String>) -> (r: Option<Vec<i32>>)
    ensures
        match r {
            Some(vals) => vals@.len() == args@.len() && forall|i: int|
                0 <= i < args@.len() ==> i32_value(#[trigger] args@[i]@) == Some(vals@[i]),
            None => exists|i: int| 0 <= i < args@.len() && i32_value(#[trigger] args@[i]@) is None,
        },
{
    let mut vals: Vec<i32> = Vec::new();
    let mut i: usize = 0;
    while i < args.len()
        invariant
            i <= args.len(),
            vals@.len() == i,
            forall|j: int| 0 <= j < i ==> i32_value(#[trigger] args@[j]@) == Some(vals@[j]),
        decreases args.len() - i,
    {
        match parse_i32(args[i].as_str()) {
            Some(x) => vals.push(x),
            None => {
                return None;
            },
        }
        i = i + 1;
    }
    Some(vals)
}

} // verus!
