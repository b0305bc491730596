//! Lenient parsing of numeric score filters.
//!
//! A score filter is an optional leading comparator (`>` or `<`, defaulting
//! to equality) followed by a decimal number.  The number is kept exactly,
//! as an integer mantissa and a decimal scale; residue that is not a plain
//! decimal parses to zero, the documented lenient fallback.

use vstd::prelude::*;

verus! {

/// Comparison operator of a numeric store constraint.
#[derive(Debug, Clone, Copy, PartialEq, Eq)]
pub enum CmpOp {
    Gt,
    Lt,
    Eq,
}

/// An exact decimal number: `mantissa / 10^scale`.
#[derive(Debug, Clone, Copy, PartialEq, Eq)]
pub struct ScoreValue {
    pub mantissa: u64,
    pub scale: usize,
}

/// Decimal digit.
pub open spec fn is_digit(c: char) -> bool {
    48 <= c as u32 && c as u32 <= 57
}

/// The value of a decimal digit.
pub open spec fn digit_val(c: char) -> nat {
    (c as u32 - 48) as nat
}

pub open spec fn all_digits(s: Seq<char>) -> bool {
    forall|i: int| 0 <= i < s.len() ==> is_digit(#[trigger] s[i])
}

/// The number a digit string denotes, most significant digit first.
pub open spec fn digits_val(s: Seq<char>) -> nat
    decreases s.len(),
{
    if s.len() == 0 {
        0
    } else {
        digits_val(s.drop_last()) * 10 + digit_val(s.last())
    }
}

/// The index of the first `.` in `s`, or `s.len()` if there is none.
pub open spec fn first_dot(s: Seq<char>) -> int
    decreases s.len(),
{
    if s.len() == 0 {
        0
    } else if s[0] == '.' {
        0
    } else {
        1 + first_dot(s.drop_first())
    }
}

pub proof fn lemma_first_dot(s: Seq<char>)
    ensures
        0 <= first_dot(s) <= s.len(),
        forall|j: int| 0 <= j < first_dot(s) ==> s[j] != '.',
        first_dot(s) < s.len() ==> s[first_dot(s)] == '.',
    decreases s.len(),
{
    if s.len() > 0 && s[0] != '.' {
        lemma_first_dot(s.drop_first());
        assert(forall|j: int|
            1 <= j < first_dot(s) ==> s[j] == s.drop_first()[j - 1] && s[j] != '.');
    }
}

/// Whether `s` is a plain decimal: one or more digits, optionally followed
/// by a dot and one or more digits.
pub open spec fn is_score_text(s: Seq<char>) -> bool {
    let d = first_dot(s);
    if d == s.len() {
        s.len() > 0 && all_digits(s)
    } else {
        d > 0 && d + 1 < s.len() && all_digits(s.take(d)) && all_digits(s.skip(d + 1))
    }
}

/// The digits of a decimal with the dot removed.
pub open spec fn sans_dot(s: Seq<char>) -> Seq<char> {
    let d = first_dot(s);
    if d == s.len() {
        s
    } else {
        s.take(d) + s.skip(d + 1)
    }
}

/// The mantissa a decimal denotes: the value of its digits with the dot
/// removed.
pub open spec fn score_mantissa(s: Seq<char>) -> nat {
    digits_val(sans_dot(s))
}

/// The number of digits after the dot; 0 when there is no dot.
pub open spec fn score_scale(s: Seq<char>) -> int {
    let d = first_dot(s);
    if d == s.len() {
        0
    } else {
        s.len() - d - 1
    }
}

/// `s` without every leading `<` or `>` character.
pub open spec fn strip_cmp(s: Seq<char>) -> Seq<char>
    decreases s.len(),
{
    if s.len() > 0 && (s[0] == '<' || s[0] == '>') {
        strip_cmp(s.drop_first())
    } else {
        s
    }
}

/// The comparator a score filter starts with; equality when none is given.
pub open spec fn score_op_spec(s: Seq<char>) -> CmpOp {
    if s.len() > 0 && s[0] == '>' {
        CmpOp::Gt
    } else if s.len() > 0 && s[0] == '<' {
        CmpOp::Lt
    } else {
        CmpOp::Eq
    }
}

/// The value a score filter denotes after the comparator is stripped:
/// the exact decimal where the residue is one whose mantissa fits in
/// `u64`, and zero otherwise (the lenient fallback).
pub open spec fn score_value_spec(s: Seq<char>) -> ScoreValue {
    let t = strip_cmp(s);
    if is_score_text(t) && score_mantissa(t) <= u64::MAX {
        ScoreValue { mantissa: score_mantissa(t) as u64, scale: score_scale(t) as usize }
    } else {
        ScoreValue { mantissa: 0, scale: 0 }
    }
}

proof fn lemma_digits_val_prefix(s: Seq<char>, i: int)
    requires
        0 <= i <= s.len(),
    ensures
        digits_val(s.take(i)) <= digits_val(s),
    decreases s.len() - i,
{
    if i < s.len() {
        lemma_digits_val_prefix(s, i + 1);
        assert(s.take(i + 1).drop_last() =~= s.take(i));
        assert(digits_val(s.take(i)) <= digits_val(s.take(i + 1)));
    } else {
        assert(s.take(i) =~= s);
    }
}

/// Accumulates the value of a digit string into a `u64`; `None` when some
/// character is not a digit or the value does not fit.
fn digits_to_u64(v: &Vec<char>) -> (r: Option<u64>)
    ensures
        match r {
            Some(m) => all_digits(v@) && m == digits_val(v@),
            None => !all_digits(v@) || digits_val(v@) > u64::MAX,
        },
{
    let mut m: u64 = 0;
    let mut i: usize = 0;
    proof {
        assert(v@.take(0) =~= Seq::<char>::empty());
    }
    while i < v.len()
        invariant
            i <= v@.len(),
            all_digits(v@.take(i as int)),
            m == digits_val(v@.take(i as int)),
        decreases v@.len() - i,
    {
        let c = v[i];
        let cu = c as u32;
        if cu < 48 || cu > 57 {
            return None;
        }
        let d = (cu - 48) as u64;
        proof {
            assert(v@.take(i + 1 as int).drop_last() =~= v@.take(i as int));
            assert(v@.take(i + 1 as int).last() == v@[i as int]);
        }
        if m > (u64::MAX - d) / 10 {
            proof {
                assert(digits_val(v@.take(i + 1 as int)) == m * 10 + d);
                assert(m * 10 + d > u64::MAX) by (nonlinear_arith)
                    requires
                        m > (u64::MAX - d) / 10,
                        d <= 9,
                ;
                lemma_digits_val_prefix(v@, i + 1);
            }
            return None;
        }
        proof {
            assert(m * 10 + d <= u64::MAX) by (nonlinear_arith)
                requires
                    m <= (u64::MAX - d) / 10,
                    d <= 9,
            ;
            assert(digits_val(v@.take(i + 1 as int)) == m * 10 + d);
        }
        m = m * 10 + d;
        i += 1;
    }
    proof {
        assert(v@.take(v@.len() as int) =~= v@);
    }
    Some(m)
}

/// Parses the decimal residue of a score filter; `None` when it is not a
/// plain decimal or its mantissa does not fit in `u64`.
fn parse_decimal(v: &Vec<char>) -> (r: Option<ScoreValue>)
    ensures
        match r {
            Some(sv) => is_score_text(v@) && score_mantissa(v@) <= u64::MAX && sv.mantissa
                == score_mantissa(v@) && sv.scale == score_scale(v@),
            None => !is_score_text(v@) || score_mantissa(v@) > u64::MAX,
        },
{
    let n = v.len();
    if n == 0 {
        return None;
    }
    // find the first dot
    let mut d: usize = n;
    let mut i: usize = 0;
    let mut found = false;
    while i < n && !found
        invariant
            n == v@.len(),
            i <= n,
            !found ==> d == n && forall|j: int| 0 <= j < i ==> v@[j] != '.',
            found ==> d < n && v@[d as int] == '.' && forall|j: int| 0 <= j < d ==> v@[j] != '.',
        decreases n - i + (if found { 0int } else { 1int }),
    {
        if v[i] == '.' {
            d = i;
            found = true;
        } else {
            i += 1;
        }
    }
    proof {
        lemma_first_dot(v@);
        if found {
            assert(first_dot(v@) == d) by {
                if first_dot(v@) < d {
                    assert(v@[first_dot(v@)] == '.');
                } else if first_dot(v@) > d {
                    assert(v@[d as int] != '.');
                }
            }
        } else {
            assert(first_dot(v@) == n) by {
                if first_dot(v@) < n {
                    assert(v@[first_dot(v@)] == '.');
                }
            }
        }
    }
    if found && (d == 0 || d + 1 == n) {
        return None;
    }
    // collect the digits, dot removed
    let mut digits: Vec<char> = Vec::new();
    let mut k: usize = 0;
    while k < n
        invariant
            n == v@.len(),
            k <= n,
            d <= n,
            digits@ == (if k <= d {
                v@.take(k as int)
            } else {
                v@.take(d as int) + v@.subrange(d + 1 as int, k as int)
            }),
        decreases n - k,
    {
        if k != d {
            digits.push(v[k]);
        }
        proof {
            if k + 1 <= d {
                assert(v@.take(k + 1 as int) =~= v@.take(k as int).push(v@[k as int]));
            } else if k == d {
                assert(v@.take(d as int) + v@.subrange(d + 1 as int, k + 1 as int) =~= v@.take(
                    d as int,
                ));
            } else {
                assert(v@.take(d as int) + v@.subrange(d + 1 as int, k + 1 as int) =~= (v@.take(
                    d as int,
                ) + v@.subrange(d + 1 as int, k as int)).push(v@[k as int]));
            }
        }
        k += 1;
    }
    proof {
        if found {
            assert(digits@ =~= sans_dot(v@));
        } else {
            assert(v@.take(n as int) =~= v@);
            assert(digits@ =~= sans_dot(v@));
        }
    }
    match digits_to_u64(&digits) {
        Some(m) => {
            proof {
                if found {
                    assert forall|j: int| 0 <= j < d implies is_digit(
                        #[trigger] v@.take(d as int)[j],
                    ) by {
                        assert(v@.take(d as int)[j] == digits@[j]);
                        assert(is_digit(digits@[j]));
                    }
                    assert(all_digits(v@.take(d as int)));
                    assert forall|j: int| 0 <= j < n - d - 1 implies is_digit(
                        #[trigger] v@.skip(d + 1 as int)[j],
                    ) by {
                        assert(v@.skip(d + 1 as int)[j] == digits@[d + j]);
                        assert(is_digit(digits@[d + j]));
                    }
                    assert(all_digits(v@.skip(d + 1 as int)));
                }
                assert(is_score_text(v@));
            }
            let scale = if found {
                n - d - 1
            } else {
                0
            };
            Some(ScoreValue { mantissa: m, scale })
        },
        None => {
            proof {
                if is_score_text(v@) {
                    assert forall|j: int| 0 <= j < digits@.len() implies is_digit(
                        #[trigger] digits@[j],
                    ) by {
                        if found {
                            if j < d {
                                assert(digits@[j] == v@.take(d as int)[j]);
                                assert(is_digit(v@.take(d as int)[j]));
                            } else {
                                assert(digits@[j] == v@.skip(d + 1 as int)[j - d]);
                                assert(is_digit(v@.skip(d + 1 as int)[j - d]));
                            }
                        } else {
                            assert(digits@[j] == v@[j]);
                        }
                    }
                    assert(all_digits(digits@));
                }
            }
            None
        },
    }
}

/// Parses a score filter: an optional leading `>` or `<` picks the
/// comparator, every further leading comparator character is stripped, and
/// the residue is parsed as an exact decimal, with zero as the lenient
/// fallback for residue that is not a decimal.
pub fn parse_score_filter(s: &str) -> (r: (CmpOp, ScoreValue))
    ensures
        r.0 == score_op_spec(s@),
        r.1 == score_value_spec(s@),
{
    let chars = crate::text::to_chars(s);
    let n = chars.len();
    let op = if n > 0 && chars[0] == '>' {
        CmpOp::Gt
    } else if n > 0 && chars[0] == '<' {
        CmpOp::Lt
    } else {
        CmpOp::Eq
    };
    // strip every leading comparator character
    let mut a: usize = 0;
    proof {
        assert(chars@.skip(0) =~= chars@);
    }
    while a < n && (chars[a] == '<' || chars[a] == '>')
        invariant
            n == chars@.len(),
            a <= n,
            strip_cmp(chars@) == strip_cmp(chars@.skip(a as int)),
        decreases n - a,
    {
        proof {
            assert(chars@.skip(a as int).drop_first() =~= chars@.skip(a + 1 as int));
        }
        a += 1;
    }
    proof {
        assert(strip_cmp(chars@) == chars@.skip(a as int));
    }
    let mut rest: Vec<char> = Vec::new();
    let mut i: usize = a;
    while i < n
        invariant
            n == chars@.len(),
            a <= i <= n,
            rest@ == chars@.subrange(a as int, i as int),
        decreases n - i,
    {
        rest.push(chars[i]);
        proof {
            assert(chars@.subrange(a as int, i + 1 as int) =~= chars@.subrange(
                a as int,
                i as int,
            ).push(chars@[i as int]));
        }
        i += 1;
    }
    proof {
        assert(rest@ =~= chars@.skip(a as int));
    }
    let value = match parse_decimal(&rest) {
        Some(sv) => sv,
        None => ScoreValue { mantissa: 0, scale: 0 },
    };
    (op, value)
}

} // verus!
