//! Decimal numbers read from text.
//!
//! A number is written, between optional white space, as an optional sign,
//! then digits with at most one decimal point among them: `1`, `-4.5`,
//! `0.333`, `+7.`, `.5`.  There is at least one digit.  A number is held to
//! six decimal places: digits after the sixth round it to the nearest
//! millionth.

use vstd::prelude::*;
use crate::number::{Decimal, MICROS_LIMIT};

verus! {

/// Whether `c` is white space: a character with the Unicode property
/// `White_Space`.
pub open spec fn is_white_space(c: char) -> bool {
    ||| ('\u{9}' <= c && c <= '\u{D}')
    ||| c == ' '
    ||| c == '\u{85}'
    ||| c == '\u{A0}'
    ||| c == '\u{1680}'
    ||| ('\u{2000}' <= c && c <= '\u{200A}')
    ||| c == '\u{2028}'
    ||| c == '\u{2029}'
    ||| c == '\u{202F}'
    ||| c == '\u{205F}'
    ||| c == '\u{3000}'
}

/// Whether `c` is one of the digits `0` to `9`.
pub open spec fn is_digit(c: char) -> bool {
    '0' <= c && c <= '9'
}

/// The number that the digit `c` stands for.
pub open spec fn digit_value(c: char) -> int {
    c as int - '0' as int
}

/// Whether `s` holds digits only.
pub open spec fn all_digits(s: Seq<char>) -> bool {
    forall|i: int| 0 <= i < s.len() ==> is_digit(#[trigger] s[i])
}

/// The number that the digits `s` spell, the first digit counting most.
pub open spec fn digits_value(s: Seq<char>) -> nat
    decreases s.len(),
{
    if s.len() == 0 {
        0
    } else {
        (digits_value(s.drop_last()) * 10 + digit_value(s.last())) as nat
    }
}

/// Ten to the power `n`.
pub open spec fn pow10(n: nat) -> nat
    decreases n,
{
    if n == 0 {
        1
    } else {
        10 * pow10((n - 1) as nat)
    }
}

/// How many characters of white space `s` begins with.
pub open spec fn leading_space(s: Seq<char>) -> nat
    decreases s.len(),
{
    if s.len() > 0 && is_white_space(s[0]) {
        1 + leading_space(s.drop_first())
    } else {
        0
    }
}

/// How many characters of white space `s` ends with.
pub open spec fn trailing_space(s: Seq<char>) -> nat
    decreases s.len(),
{
    if s.len() > 0 && is_white_space(s.last()) {
        1 + trailing_space(s.drop_last())
    } else {
        0
    }
}

/// `s` without the white space at its start and at its end.
pub open spec fn trimmed(s: Seq<char>) -> Seq<char> {
    let t = s.skip(leading_space(s) as int);
    t.take(t.len() - trailing_space(t))
}

/// The place of the first decimal point in `s`, or the length of `s` where
/// it holds none.
pub open spec fn first_dot(s: Seq<char>) -> nat
    decreases s.len(),
{
    if s.len() == 0 || s[0] == '.' {
        0
    } else {
        1 + first_dot(s.drop_first())
    }
}

/// The number of millionths that the unsigned decimal `body` stands for, if
/// it is written as this module asks and lies within the limit.  Digits
/// after the sixth decimal place round the number to the nearest millionth,
/// upward from a seventh digit of five.
pub open spec fn unsigned_micros(body: Seq<char>) -> Option<int> {
    let dot = first_dot(body) as int;
    let whole = body.take(dot);
    let fraction = if dot < body.len() {
        body.skip(dot + 1)
    } else {
        Seq::<char>::empty()
    };
    if all_digits(whole) && all_digits(fraction) && whole.len() + fraction.len() > 0 {
        let kept = if fraction.len() > 6 {
            fraction.take(6)
        } else {
            fraction
        };
        let carry: int = if fraction.len() > 6 && digit_value(fraction[6]) >= 5 {
            1
        } else {
            0
        };
        let micros = digits_value(whole) * 1_000_000 + digits_value(kept) * pow10(
            (6 - kept.len()) as nat,
        ) + carry;
        if micros <= MICROS_LIMIT {
            Some(micros)
        } else {
            None
        }
    } else {
        None
    }
}

/// The number of millionths that `text` stands for, if it is a decimal
/// number written as this module asks and lies within the limit.
pub open spec fn decimal_micros(text: Seq<char>) -> Option<int> {
    let t = trimmed(text);
    if t.len() > 0 && t[0] == '-' {
        match unsigned_micros(t.drop_first()) {
            Some(m) => Some(-m),
            None => None,
        }
    } else if t.len() > 0 && t[0] == '+' {
        unsigned_micros(t.drop_first())
    } else {
        unsigned_micros(t)
    }
}

/// The leading white space of `s`, counted from its `i`-th character on.
proof fn lemma_leading_space_step(s: Seq<char>, i: int)
    requires
        0 <= i < s.len(),
    ensures
        is_white_space(s[i]) ==> leading_space(s.skip(i)) == 1 + leading_space(s.skip(i + 1)),
        !is_white_space(s[i]) ==> leading_space(s.skip(i)) == 0,
{
    assert(s.skip(i).drop_first() =~= s.skip(i + 1));
}

/// The trailing white space of `s`, counted up to its `j`-th character.
proof fn lemma_trailing_space_step(s: Seq<char>, j: int)
    requires
        0 < j <= s.len(),
    ensures
        is_white_space(s[j - 1]) ==> trailing_space(s.take(j)) == 1 + trailing_space(
            s.take(j - 1),
        ),
        !is_white_space(s[j - 1]) ==> trailing_space(s.take(j)) == 0,
{
    assert(s.take(j).drop_last() =~= s.take(j - 1));
}

/// The first decimal point of `s` does not come before `k`, where the first
/// `k` characters are digits.
proof fn lemma_first_dot_after_digits(s: Seq<char>, k: int)
    requires
        0 <= k <= s.len(),
        all_digits(s.take(k)),
    ensures
        first_dot(s) >= k,
        k < s.len() && s[k] == '.' ==> first_dot(s) == k,
        k == s.len() ==> first_dot(s) == k,
        first_dot(s) <= s.len(),
    decreases k,
{
    if k == 0 {
        lemma_first_dot_bound(s);
    } else {
        assert(s.take(k)[0] == s[0]);
        assert(is_digit(s[0]));
        let rest = s.drop_first();
        assert(rest.take(k - 1) =~= s.take(k).drop_first());
        assert forall|i: int| 0 <= i < k - 1 implies is_digit(#[trigger] rest.take(k - 1)[i]) by {
            assert(rest.take(k - 1)[i] == s.take(k)[i + 1]);
        }
        lemma_first_dot_after_digits(rest, k - 1);
    }
}

/// The first decimal point of `s` lies within `s`, where a point stands, or
/// at its end.
proof fn lemma_first_dot_bound(s: Seq<char>)
    ensures
        first_dot(s) <= s.len(),
        first_dot(s) < s.len() ==> s[first_dot(s) as int] == '.',
    decreases s.len(),
{
    if s.len() > 0 && s[0] != '.' {
        lemma_first_dot_bound(s.drop_first());
    }
}

/// One digit more keeps a run of digits one.
proof fn lemma_all_digits_step(s: Seq<char>, k: int)
    requires
        0 <= k < s.len(),
        all_digits(s.take(k)),
        is_digit(s[k]),
    ensures
        all_digits(s.take(k + 1)),
{
    assert forall|i: int| 0 <= i < k + 1 implies is_digit(#[trigger] s.take(k + 1)[i]) by {
        if i < k {
            assert(s.take(k + 1)[i] == s.take(k)[i]);
        }
    }
}

/// The value of one digit more.
proof fn lemma_digits_value_step(s: Seq<char>, k: int)
    requires
        0 <= k < s.len(),
        is_digit(s[k]),
    ensures
        digits_value(s.take(k + 1)) == digits_value(s.take(k)) * 10 + digit_value(s[k]),
        digits_value(s.take(k + 1)) >= digits_value(s.take(k)),
{
    assert(s.take(k + 1).drop_last() =~= s.take(k));
    assert(s.take(k + 1).last() == s[k]);
}

/// Whether `c` is white space.
pub fn white_space(c: char) -> (r: bool)
    ensures
        r == is_white_space(c),
{
    (c >= '\u{9}' && c <= '\u{D}') || c == ' ' || c == '\u{85}' || c == '\u{A0}' || c
        == '\u{1680}' || (c >= '\u{2000}' && c <= '\u{200A}') || c == '\u{2028}' || c
        == '\u{2029}' || c == '\u{202F}' || c == '\u{205F}' || c == '\u{3000}'
}

/// The number that the digit `c` stands for, if `c` is a digit.
pub fn digit_of(c: char) -> (r: Option<u8>)
    ensures
        r is Some <==> is_digit(c),
        r matches Some(d) ==> d == digit_value(c) && d <= 9,
{
    if c >= '0' && c <= '9' {
        Some((c as u32 - '0' as u32) as u8)
    } else {
        None
    }
}

/// The characters of `text`.
pub fn chars_of(text: &str) -> (v: Vec<char>)
    ensures
        v@ == text@,
{
    let n: usize = text.unicode_len();
    let mut v: Vec<char> = Vec::new();
    let mut i: usize = 0;
    while i < n
        invariant
            i <= n,
            n == text@.len(),
            v@ == text@.take(i as int),
        decreases n - i,
    {
        v.push(text.get_char(i));
        i += 1;
        assert(text@.take(i as int) =~= text@.take(i - 1).push(text@[i - 1]));
    }
    assert(text@.take(n as int) =~= text@);
    v
}

/// The number of millionths that the unsigned decimal in `chars`, from
/// `start` up to `end`, stands for.
#[verifier::rlimit(50)]
fn parse_unsigned(chars: &Vec<char>, start: usize, end: usize) -> (r: Option<i64>)
    requires
        start <= end <= chars@.len(),
    ensures
        r == match unsigned_micros(chars@.subrange(start as int, end as int)) {
            Some(m) => Some(m as i64),
            None => None,
        },
        r matches Some(m) ==> 0 <= m <= MICROS_LIMIT,
{
    let ghost body = chars@.subrange(start as int, end as int);
    let mut pos: usize = start;
    let mut whole: u64 = 0;
    let mut too_big: bool = false;
    // The digits before the point.
    loop
        invariant
            start <= pos <= end <= chars@.len(),
            body == chars@.subrange(start as int, end as int),
            all_digits(body.take(pos - start)),
            !too_big ==> whole == digits_value(body.take(pos - start)) && whole <= 100_000_000,
            too_big ==> digits_value(body.take(pos - start)) > 100_000_000,
        ensures
            pos == end || !is_digit(chars@[pos as int]),
        decreases end - pos,
    {
        if pos == end {
            break ;
        }
        let d: u8 = match digit_of(chars[pos]) {
            Some(d) => d,
            None => {
                break ;
            },
        };
        proof {
            lemma_digits_value_step(body, pos - start);
            lemma_all_digits_step(body, pos - start);
        }
        if !too_big {
            let next: u64 = whole * 10 + d as u64;
            if next > 100_000_000 {
                too_big = true;
            } else {
                whole = next;
            }
        }
        pos += 1;
    }
    let whole_len: usize = pos - start;
    proof {
        lemma_first_dot_after_digits(body, whole_len as int);
    }
    let mut fraction: u64 = 0;
    let mut fraction_len: usize = 0;
    let mut carry: u64 = 0;
    let ghost tail = if pos < end {
        body.skip(whole_len + 1)
    } else {
        Seq::<char>::empty()
    };
    if pos < end {
        if chars[pos] != '.' {
            proof {
                // The part before the point reaches past a character that is no digit.
                let dot = first_dot(body) as int;
                lemma_first_dot_bound(body);
                assert(body[whole_len as int] == chars@[pos as int]);
                assert(dot > whole_len);
                assert(body.take(dot)[whole_len as int] == body[whole_len as int]);
            }
            return None;
        }
        proof {
            assert(body[whole_len as int] == chars@[pos as int]);
            lemma_pow10_small(0);
        }
        pos += 1;
        let tail_start: usize = pos;
        // The six digits after the point that count.
        loop
            invariant
                tail_start <= pos <= end <= chars@.len(),
                tail_start == start + whole_len + 1,
                body == chars@.subrange(start as int, end as int),
                tail == body.skip(whole_len + 1),
                fraction_len == pos - tail_start,
                fraction_len <= 6,
                all_digits(tail.take(pos - tail_start)),
                fraction == digits_value(tail.take(pos - tail_start)),
                fraction < pow10(fraction_len as nat),
            ensures
                pos == end || fraction_len == 6 || !is_digit(chars@[pos as int]),
            decreases end - pos,
        {
            if pos == end || fraction_len == 6 {
                break ;
            }
            let d: u8 = match digit_of(chars[pos]) {
                Some(d) => d,
                None => {
                    break ;
                },
            };
            proof {
                lemma_digits_value_step(tail, pos - tail_start);
                lemma_all_digits_step(tail, pos - tail_start);
                lemma_pow10_small(fraction_len as nat);
                lemma_pow10_small((fraction_len + 1) as nat);
            }
            fraction = fraction * 10 + d as u64;
            fraction_len += 1;
            pos += 1;
        }
        if pos < end {
            if fraction_len < 6 {
                proof {
                    assert(tail[pos - tail_start] == chars@[pos as int]);
                }
                return None;
            }
            // The seventh digit rounds; the digits after it only have to be digits.
            match digit_of(chars[pos]) {
                Some(d) => {
                    if d >= 5 {
                        carry = 1;
                    }
                },
                None => {
                    proof {
                        assert(tail[pos - tail_start] == chars@[pos as int]);
                    }
                    return None;
                },
            }
            proof {
                assert(tail[6] == chars@[pos as int]);
                lemma_all_digits_step(tail, pos - tail_start);
            }
            pos += 1;
            while pos < end
                invariant
                    tail_start + 6 < pos <= end <= chars@.len(),
                    tail_start == start + whole_len + 1,
                    body == chars@.subrange(start as int, end as int),
                    tail == body.skip(whole_len + 1),
                    first_dot(body) == whole_len,
                    all_digits(tail.take(pos - tail_start)),
                decreases end - pos,
            {
                match digit_of(chars[pos]) {
                    Some(_) => {},
                    None => {
                        proof {
                            assert(tail[pos - tail_start] == chars@[pos as int]);
                        }
                        return None;
                    },
                }
                proof {
                    assert(tail[pos - tail_start] == chars@[pos as int]);
                    lemma_all_digits_step(tail, pos - tail_start);
                }
                pos += 1;
            }
        }
        proof {
            assert(tail.take(pos - tail_start) =~= tail);
        }
    } else {
        proof {
            assert(body.take(whole_len as int) =~= body);
            lemma_pow10_small(0);
        }
    }
    proof {
        assert(body.take(whole_len as int).len() == whole_len);
    }
    if whole_len + fraction_len == 0 {
        return None;
    }
    // The fraction in millionths.
    proof {
        lemma_pow10_small(0);
        assert(fraction * pow10(0) == fraction) by (nonlinear_arith)
            requires
                pow10(0) == 1,
        ;
    }
    let mut scaled: u64 = fraction;
    let mut k: usize = fraction_len;
    while k < 6
        invariant
            fraction_len <= k <= 6,
            scaled == fraction * pow10((k - fraction_len) as nat),
            fraction < pow10(fraction_len as nat),
            scaled < pow10(k as nat),
        decreases 6 - k,
    {
        proof {
            lemma_pow10_small((k + 1) as nat);
            assert(fraction * pow10((k + 1 - fraction_len) as nat) == (fraction * pow10(
                (k - fraction_len) as nat,
            )) * 10) by (nonlinear_arith)
                requires
                    pow10((k + 1 - fraction_len) as nat) == 10 * pow10((k - fraction_len) as nat),
            ;
        }
        scaled = scaled * 10;
        k += 1;
    }
    proof {
        lemma_pow10_small(6);
    }
    if too_big {
        proof {
            assert(digits_value(body.take(whole_len as int)) * 1_000_000 > MICROS_LIMIT);
        }
        return None;
    }
    let micros: u64 = whole * 1_000_000 + scaled + carry;
    if micros > 100_000_000_000_000 {
        None
    } else {
        Some(micros as i64)
    }
}

/// The powers of ten up to the sixth.
pub proof fn lemma_pow10_small(n: nat)
    requires
        n <= 6,
    ensures
        pow10(n) <= 1_000_000,
        n > 0 ==> pow10(n) == 10 * pow10((n - 1) as nat),
        n == 0 ==> pow10(n) == 1,
        pow10(n) >= 1,
    decreases n,
{
    reveal_with_fuel(pow10, 8);
}

impl Decimal {
    /// The decimal that `text` stands for, if `text` is a decimal number
    /// written as this module asks and lies within the limit.
    #[verifier::rlimit(50)]
    pub fn parse(text: &str) -> (r: Option<Decimal>)
        ensures
            r is Some <==> decimal_micros(text@) is Some,
            r matches Some(d) ==> d.spec_micros() == decimal_micros(text@)->0 && d@
                == decimal_micros(text@)->0 as real / 1_000_000real,
    {
        let chars: Vec<char> = chars_of(text);
        let n: usize = chars.len();
        let mut start: usize = 0;
        proof {
            assert(chars@.skip(0) =~= chars@);
        }
        while start < n && white_space(chars[start])
            invariant
                start <= n,
                n == chars@.len(),
                leading_space(chars@) == start + leading_space(chars@.skip(start as int)),
            decreases n - start,
        {
            proof {
                lemma_leading_space_step(chars@, start as int);
            }
            start += 1;
        }
        proof {
            if start < n {
                lemma_leading_space_step(chars@, start as int);
            }
        }
        let ghost rest = chars@.skip(start as int);
        let mut end: usize = n;
        proof {
            assert(rest.take(n - start) =~= rest);
        }
        while end > start && white_space(chars[end - 1])
            invariant
                start <= end <= n,
                n == chars@.len(),
                rest == chars@.skip(start as int),
                trailing_space(rest) == (n - end) + trailing_space(rest.take(end - start)),
            decreases end - start,
        {
            proof {
                lemma_trailing_space_step(rest, end - start);
            }
            end -= 1;
        }
        proof {
            if end > start {
                lemma_trailing_space_step(rest, end - start);
            }
            assert(trimmed(chars@) =~= chars@.subrange(start as int, end as int));
        }
        let ghost t = chars@.subrange(start as int, end as int);
        let negative: bool = start < end && chars[start] == '-';
        let signed: bool = start < end && (chars[start] == '-' || chars[start] == '+');
        let from: usize = if signed {
            start + 1
        } else {
            start
        };
        proof {
            if signed {
                assert(t.drop_first() =~= chars@.subrange(from as int, end as int));
            }
        }
        match parse_unsigned(&chars, from, end) {
            Some(m) => {
                if negative {
                    Some(Decimal { micros: -m })
                } else {
                    Some(Decimal { micros: m })
                }
            },
            None => None,
        }
    }
}

} // verus!
