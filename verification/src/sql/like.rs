//! LIKE patterns and the regular expressions they stand for.
use vstd::prelude::*;
use crate::text::{from_chars, to_chars};

verus! {

/// Whether the regular expression `pattern` finds a match anywhere in
/// `text`; `None` when `pattern` is not a regular expression that the
/// regex crate compiles.
pub uninterp spec fn regex_is_match(pattern: Seq<char>, text: Seq<char>) -> Option<bool>;

/// `regex::Regex::new` followed by `Regex::is_match`: compiles `pattern`
/// and searches `text` for a match. The outcome depends on the two strings
/// alone and is named by [`regex_is_match`].
#[verifier::external_body]
fn regex_search(pattern: &str, text: &str) -> (r: Option<bool>)
    ensures
        r == regex_is_match(pattern@, text@),
{
    match regex::Regex::new(pattern) {
        Ok(re) => Some(re.is_match(text)),
        Err(_) => None,
    }
}

/// How many `%` the pattern starts with.
pub open spec fn leading_percents(p: Seq<char>) -> int
    decreases p.len(),
{
    if p.len() > 0 && p[0] == '%' {
        1 + leading_percents(p.drop_first())
    } else {
        0
    }
}

/// How many `%` the pattern ends with.
pub open spec fn trailing_percents(p: Seq<char>) -> int
    decreases p.len(),
{
    if p.len() > 0 && p.last() == '%' {
        1 + trailing_percents(p.drop_last())
    } else {
        0
    }
}

/// The pattern without the `%` at its two ends.
pub open spec fn like_core(p: Seq<char>) -> Seq<char> {
    let a = leading_percents(p);
    let b = trailing_percents(p);
    if 0 <= a && 0 <= b && a + b < p.len() {
        p.subrange(a, p.len() - b)
    } else {
        Seq::empty()
    }
}

/// What one character of a pattern becomes in the regular expression:
/// `%` any run of characters, `_` any one character, others themselves.
pub open spec fn like_piece(c: char) -> Seq<char> {
    if c == '%' {
        seq!['.', '*']
    } else if c == '_' {
        seq!['.']
    } else {
        seq![c]
    }
}

/// The pieces of every character of `core`, in order.
pub open spec fn like_body(core: Seq<char>) -> Seq<char>
    decreases core.len(),
{
    if core.len() == 0 {
        Seq::empty()
    } else {
        like_body(core.drop_last()) + like_piece(core.last())
    }
}

/// The regular expression of a LIKE pattern. A pattern that starts with
/// `%` is not anchored at the start, one that ends with `%` is not anchored
/// at the end, and one with neither must match the whole string.
pub open spec fn like_regex(p: Seq<char>) -> Seq<char> {
    let head = if leading_percents(p) > 0 {
        Seq::<char>::empty()
    } else {
        seq!['^']
    };
    let tail = if trailing_percents(p) > 0 {
        Seq::<char>::empty()
    } else {
        seq!['$']
    };
    head + like_body(like_core(p)) + tail
}

/// A string matches a LIKE pattern when the pattern's regular expression
/// compiles and finds a match in the string.
pub open spec fn like_holds(pattern: Seq<char>, text: Seq<char>) -> bool {
    regex_is_match(like_regex(pattern), text) == Some(true)
}

proof fn lemma_leading(p: Seq<char>, n: int)
    requires
        0 <= n <= p.len(),
        forall|j: int| 0 <= j < n ==> p[j] == '%',
        n < p.len() ==> p[n] != '%',
    ensures
        leading_percents(p) == n,
    decreases n,
{
    if n > 0 {
        lemma_leading(p.drop_first(), n - 1);
    }
}

proof fn lemma_trailing(p: Seq<char>, n: int)
    requires
        0 <= n <= p.len(),
        forall|j: int| p.len() - n <= j < p.len() ==> p[j] == '%',
        n < p.len() ==> p[p.len() - n - 1] != '%',
    ensures
        trailing_percents(p) == n,
    decreases n,
{
    if n > 0 {
        lemma_trailing(p.drop_last(), n - 1);
    }
}

/// The regular expression of the LIKE pattern `pattern`.
pub fn re_from_str(pattern: &str) -> (re: String)
    ensures
        re@ == like_regex(pattern@),
{
    let p = to_chars(pattern);
    let n = p.len();
    let mut a: usize = 0;
    while a < n && p[a] == '%'
        invariant
            a <= n,
            n == p.len(),
            forall|j: int| 0 <= j < a ==> p@[j] == '%',
        decreases n - a,
    {
        a += 1;
    }
    let mut b: usize = 0;
    while b < n && p[n - b - 1] == '%'
        invariant
            b <= n,
            n == p.len(),
            forall|j: int| n - b <= j < n ==> p@[j] == '%',
        decreases n - b,
    {
        b += 1;
    }
    proof {
        lemma_leading(p@, a as int);
        lemma_trailing(p@, b as int);
    }
    let mut out: Vec<char> = Vec::new();
    if a == 0 {
        out.push('^');
    }
    let ghost head = out@;
    if a < n - b {
        let end: usize = n - b;
        let mut i: usize = a;
        assert(p@.subrange(a as int, a as int) =~= Seq::<char>::empty());
        while i < end
            invariant
                a <= i <= end <= p.len(),
                out@ == head + like_body(p@.subrange(a as int, i as int)),
            decreases end - i,
        {
            let c = p[i];
            proof {
                let next = p@.subrange(a as int, i + 1);
                assert(next.drop_last() =~= p@.subrange(a as int, i as int));
                assert(next.last() == c);
            }
            let ghost before = out@;
            if c == '%' {
                out.push('.');
                out.push('*');
            } else if c == '_' {
                out.push('.');
            } else {
                out.push(c);
            }
            assert(out@ =~= before + like_piece(c));
            i += 1;
        }
    }
    assert(out@ =~= head + like_body(like_core(p@)));
    if b == 0 {
        out.push('$');
    }
    assert(out@ =~= like_regex(p@));
    from_chars(out.as_slice())
}

/// What a search decides: a string matches only when the expression
/// compiled and a match was found.
pub fn search_verdict(found: Option<bool>) -> (r: bool)
    ensures
        r == (found == Some(true)),
{
    match found {
        Some(b) => b,
        None => false,
    }
}

/// Whether `text` matches the LIKE pattern `pattern`.
pub fn like_matches(pattern: &str, text: &str) -> (r: bool)
    ensures
        r == like_holds(pattern@, text@),
{
    let re = re_from_str(pattern);
    search_verdict(regex_search(re.as_str(), text))
}

} // verus!
