//! Literals: quoted strings and numbers.
use vstd::prelude::*;
use crate::parser::elements::{
    digit,
    digits_end,
    digits_value,
    end_of_digits,
    is_digit,
};
use crate::text::from_chars;
use crate::value::model::Rational;
use crate::value::number::{fits, reduce, signed, Number};

verus! {

/// What a parser gives, as a mathematical value: the parsed value with the
/// position behind it, or the position of the failure.
pub type Parsed<T> = Result<(T, int), int>;

/// The rest of a quoted string from `pos` on: characters up to the closing
/// quote `q`; a doubled quote stands for one quote character.
pub open spec fn string_body(s: Seq<char>, pos: int, q: char, acc: Seq<char>) -> Parsed<Seq<char>>
    decreases s.len() - pos,
{
    if pos < 0 || pos >= s.len() {
        Err(pos)
    } else if s[pos] == q {
        if pos + 1 < s.len() && s[pos + 1] == q {
            string_body(s, pos + 2, q, acc.push(q))
        } else {
            Ok((acc, pos + 1))
        }
    } else {
        string_body(s, pos + 1, q, acc.push(s[pos]))
    }
}

/// A string in single or double quotes at `pos`.
pub open spec fn string_at(s: Seq<char>, pos: int) -> Parsed<Seq<char>> {
    if 0 <= pos < s.len() && (s[pos] == '\'' || s[pos] == '"') {
        string_body(s, pos + 1, s[pos], Seq::empty())
    } else {
        Err(pos)
    }
}

/// Ten to the power `k`.
pub open spec fn pow10(k: nat) -> nat
    decreases k,
{
    if k == 0 {
        1
    } else {
        10 * pow10((k - 1) as nat)
    }
}

/// A whole number at `pos`: a run of digits whose value fits 64 bits.
pub open spec fn integer_at(s: Seq<char>, pos: int) -> Parsed<u64> {
    let end = digits_end(s, pos);
    if 0 <= pos < end <= s.len() && digits_value(s.subrange(pos, end)) <= u64::MAX {
        Ok((digits_value(s.subrange(pos, end)) as u64, end))
    } else {
        Err(pos)
    }
}

/// The position behind the fraction that starts at `pos`: behind a point
/// and its digits, or `pos` itself where no point with a digit follows.
pub open spec fn fraction_end(s: Seq<char>, pos: int) -> int {
    if 0 <= pos < s.len() && s[pos] == '.' && digits_end(s, pos + 1) > pos + 1 {
        digits_end(s, pos + 1)
    } else {
        pos
    }
}

/// A number at `pos`: an optional minus sign, digits, and an optional
/// fraction. Its value is the reduced fraction of all its digits over the
/// power of ten of the fraction's length; a number whose parts do not fit
/// is refused.
pub open spec fn number_at(s: Seq<char>, pos: int) -> Parsed<Rational> {
    let negative = 0 <= pos < s.len() && s[pos] == '-';
    let start = if negative {
        pos + 1
    } else {
        pos
    };
    let mid = digits_end(s, start);
    let end = fraction_end(s, mid);
    if !(0 <= start < mid <= end <= s.len()) {
        Err(pos)
    } else {
        let whole = s.subrange(start, mid);
        let fraction = if end > mid {
            s.subrange(mid + 1, end)
        } else {
            Seq::empty()
        };
        let mag = digits_value(whole + fraction);
        let den = pow10(fraction.len());
        if mag <= u128::MAX && den <= u128::MAX && fits(reduce(signed(negative, mag as int), den as int)) {
            Ok((reduce(signed(negative, mag as int), den as int), end))
        } else {
            Err(pos)
        }
    }
}

/// The value of a string literal as an executable result.
pub open spec fn text_view(r: Result<(String, usize), usize>) -> Parsed<Seq<char>> {
    match r {
        Ok((t, p)) => Ok((t@, p as int)),
        Err(e) => Err(e as int),
    }
}

/// A string in single or double quotes at `pos`.
pub fn string(s: &[char], pos: usize) -> (r: Result<(String, usize), usize>)
    requires
        pos <= s@.len(),
    ensures
        text_view(r) == string_at(s@, pos as int),
        r matches Ok((_, p)) ==> pos < p <= s@.len(),
        r matches Err(e) ==> pos <= e <= s@.len(),
{
    if pos >= s.len() {
        return Err(pos);
    }
    let q = s[pos];
    if q != '\'' && q != '"' {
        return Err(pos);
    }
    let mut out: Vec<char> = Vec::new();
    let mut p: usize = pos + 1;
    loop
        invariant
            pos < p <= s@.len(),
            string_at(s@, pos as int) == string_body(s@, p as int, q, out@),
        decreases s@.len() - p,
    {
        if p >= s.len() {
            return Err(p);
        }
        let c = s[p];
        if c == q {
            if p + 1 < s.len() && s[p + 1] == q {
                out.push(q);
                p += 2;
            } else {
                return Ok((from_chars(out.as_slice()), p + 1));
            }
        } else {
            out.push(c);
            p += 1;
        }
    }
}

/// The number of a digit.
pub fn digit_value(c: char) -> (d: u8)
    requires
        is_digit(c),
    ensures
        d == c as u8 - '0' as u8,
        d <= 9,
{
    (c as u8) - ('0' as u8)
}

/// The value of a longer run of digits is no smaller.
proof fn lemma_digits_grow(digits: Seq<char>, n: int)
    requires
        0 <= n <= digits.len(),
        forall|i: int| 0 <= i < digits.len() ==> is_digit(#[trigger] digits[i]),
    ensures
        digits_value(digits.take(n)) <= digits_value(digits),
    decreases digits.len() - n,
{
    if n < digits.len() {
        let next = digits.take(n + 1);
        assert(next.drop_last() =~= digits.take(n));
        lemma_digits_grow(digits, n + 1);
    } else {
        assert(digits.take(n) =~= digits);
    }
}

/// The value of the digits of `s` from `from` to `to`, unless it exceeds
/// `limit`.
fn digits_to_u128(s: &[char], from: usize, to: usize, start: u128, Ghost(before): Ghost<Seq<char>>) -> (r:
    Option<u128>)
    requires
        from <= to <= s@.len(),
        forall|i: int| from <= i < to ==> is_digit(#[trigger] s@[i]),
        forall|i: int| 0 <= i < before.len() ==> is_digit(#[trigger] before[i]),
        start == digits_value(before),
    ensures
        r matches Some(v) ==> v == digits_value(before + s@.subrange(from as int, to as int)),
        r is None ==> digits_value(before + s@.subrange(from as int, to as int)) > u128::MAX,
{
    let mut acc: u128 = start;
    let mut i: usize = from;
    let ghost all = before + s@.subrange(from as int, to as int);
    assert(all.take(before.len() as int) =~= before);
    while i < to
        invariant
            from <= i <= to <= s@.len(),
            all == before + s@.subrange(from as int, to as int),
            forall|j: int| from <= j < to ==> is_digit(#[trigger] s@[j]),
            forall|j: int| 0 <= j < all.len() ==> is_digit(#[trigger] all[j]),
            acc == digits_value(all.take(before.len() + i - from)),
        decreases to - i,
    {
        let d = digit_value(s[i]) as u128;
        proof {
            let next = all.take(before.len() + i - from + 1);
            assert(next.drop_last() =~= all.take(before.len() + i - from));
            assert(next.last() == s@[i as int]);
            lemma_digits_grow(all, before.len() + i - from + 1);
        }
        if acc > (u128::MAX - d) / 10 {
            return None;
        }
        acc = acc * 10 + d;
        i += 1;
    }
    assert(all.take(before.len() + i - from) =~= all);
    Some(acc)
}

/// Ten to the power `k`, unless it exceeds 128 bits.
fn power_of_ten(k: usize) -> (r: Option<u128>)
    ensures
        r matches Some(v) ==> v == pow10(k as nat),
        r is None ==> pow10(k as nat) > u128::MAX,
{
    let mut acc: u128 = 1;
    let mut i: usize = 0;
    while i < k
        invariant
            i <= k,
            acc == pow10(i as nat),
        decreases k - i,
    {
        if acc > u128::MAX / 10 {
            proof {
                lemma_pow10_grows((i + 1) as nat, k as nat);
            }
            return None;
        }
        acc = acc * 10;
        i += 1;
    }
    Some(acc)
}

proof fn lemma_pow10_grows(i: nat, k: nat)
    requires
        i <= k,
    ensures
        pow10(i) <= pow10(k),
    decreases k,
{
    if i < k {
        lemma_pow10_grows(i, (k - 1) as nat);
    }
}

/// The value of the whole number at `pos` as an executable result.
pub open spec fn integer_view(r: Result<(u64, usize), usize>) -> Parsed<u64> {
    match r {
        Ok((n, p)) => Ok((n, p as int)),
        Err(e) => Err(e as int),
    }
}

/// A whole number at `pos`.
pub fn integer(s: &[char], pos: usize) -> (r: Result<(u64, usize), usize>)
    requires
        pos <= s@.len(),
    ensures
        integer_view(r) == integer_at(s@, pos as int),
        r matches Ok((_, p)) ==> pos < p <= s@.len(),
        r matches Err(e) ==> e == pos,
{
    let end = end_of_digits(s, pos);
    if end == pos {
        return Err(pos);
    }
    proof {
        lemma_run_is_digits(s@, pos as int, end as int);
        assert(Seq::<char>::empty() + s@.subrange(pos as int, end as int) =~= s@.subrange(
            pos as int,
            end as int,
        ));
    }
    match digits_to_u128(s, pos, end, 0, Ghost(Seq::empty())) {
        Some(v) => {
            if v <= 0xffff_ffff_ffff_ffff {
                Ok((v as u64, end))
            } else {
                Err(pos)
            }
        },
        None => Err(pos),
    }
}

/// Every position before `digits_end` holds a digit.
pub proof fn lemma_run_is_digits(s: Seq<char>, pos: int, end: int)
    requires
        0 <= pos <= s.len(),
        end == digits_end(s, pos),
    ensures
        forall|i: int| pos <= i < end ==> is_digit(#[trigger] s[i]),
    decreases s.len() - pos,
{
    if pos < s.len() && is_digit(s[pos]) {
        lemma_run_is_digits(s, pos + 1, end);
    }
}

/// The value of the number at `pos` as an executable result.
pub open spec fn number_view(r: Result<(Number, usize), usize>) -> Parsed<Rational> {
    match r {
        Ok((n, p)) => Ok((n@, p as int)),
        Err(e) => Err(e as int),
    }
}

/// A number at `pos`.
pub fn number(s: &[char], pos: usize) -> (r: Result<(Number, usize), usize>)
    requires
        pos <= s@.len(),
    ensures
        number_view(r) == number_at(s@, pos as int),
        r matches Ok((_, p)) ==> pos < p <= s@.len(),
        r matches Err(e) ==> e == pos,
{
    let negative = pos < s.len() && s[pos] == '-';
    let start: usize = if negative {
        pos + 1
    } else {
        pos
    };
    let mid = end_of_digits(s, start);
    if mid == start {
        return Err(pos);
    }
    let mut end: usize = mid;
    if mid < s.len() && s[mid] == '.' {
        let e = end_of_digits(s, mid + 1);
        if e > mid + 1 {
            end = e;
        }
    }
    proof {
        lemma_run_is_digits(s@, start as int, mid as int);
        if end > mid {
            lemma_run_is_digits(s@, mid + 1, end as int);
        }
        assert(Seq::<char>::empty() + s@.subrange(start as int, mid as int) =~= s@.subrange(
            start as int,
            mid as int,
        ));
    }
    let whole = match digits_to_u128(s, start, mid, 0, Ghost(Seq::empty())) {
        Some(v) => v,
        None => {
            proof {
                if end > mid {
                    let w = s@.subrange(start as int, mid as int);
                    let f = s@.subrange(mid + 1, end as int);
                    assert((w + f).take(w.len() as int) =~= w);
                    lemma_digits_grow(w + f, w.len() as int);
                } else {
                    let w = s@.subrange(start as int, mid as int);
                    assert(w + Seq::<char>::empty() =~= w);
                }
            }
            return Err(pos);
        },
    };
    let ghost w = s@.subrange(start as int, mid as int);
    let (mag, den) = if end > mid {
        let m = match digits_to_u128(s, mid + 1, end, whole, Ghost(w)) {
            Some(v) => v,
            None => {
                return Err(pos);
            },
        };
        let d = match power_of_ten(end - (mid + 1)) {
            Some(v) => v,
            None => {
                return Err(pos);
            },
        };
        (m, d)
    } else {
        assert(w + Seq::<char>::empty() =~= w);
        (whole, 1u128)
    };
    proof {
        let fraction = if end > mid {
            s@.subrange(mid + 1, end as int)
        } else {
            Seq::<char>::empty()
        };
        assert(fraction_end(s@, mid as int) == end);
        assert(mag == digits_value(w + fraction));
        assert(den == pow10(fraction.len()));
        lemma_pow10_grows(0, fraction.len());
    }
    match Number::from_parts(negative, mag, den) {
        Some(n) => Ok((n, end)),
        None => Err(pos),
    }
}

} // verus!
