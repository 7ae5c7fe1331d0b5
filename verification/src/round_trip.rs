//! Reading back what was written: the literal form of a value parses to
//! the value.
use vstd::prelude::*;
use crate::engine::{dumps_spec, is_literal_format, loads_spec, EngineError};
use crate::parser::elements::{
    digits_end,
    digits_value,
    is_digit,
    is_space,
    is_word_char,
    lower,
    skip_space,
    text_at,
    word_at,
};
use crate::parser::literal::{
    fraction_end,
    integer_at,
    number_at,
    pow10,
    string_at,
    string_body, };
use crate::pqlir_parser::{
    array_close,
    bag_close,
    bag_open,
    collection_at,
    entries_at,
    fraction_at,
    items_at,
    object_at,
    parse_value,
    value_at,
};
use crate::text::{decimal, digit_char};
use crate::value::model::{
    distinct_keys,
    wf_number,
    wf_value,
    index_of,
    lemma_put_fresh, Entries,
    Rational,
    Value,
};
use crate::value::number::{abs, gcd, reduce, signed};
use crate::value::object::ObjectMap;
use crate::value::pql::{lemma_view_items, views, PqlValue};
use crate::value::print::{
    escaped,
    quoted,
    render,
    render_entries,
    render_items,
    render_number,
};

verus! {

/// The text `t` stands in `s` at `pos`.
pub open spec fn stands_at(s: Seq<char>, pos: int, t: Seq<char>) -> bool {
    0 <= pos && pos + t.len() <= s.len() && s.subrange(pos, pos + t.len()) == t
}

/// Nothing that could continue a value stands at `pos`: the text ends
/// there, or a comma or a closing bracket follows.
pub open spec fn stops(s: Seq<char>, pos: int) -> bool {
    pos >= s.len() || s[pos] == ',' || s[pos] == ']' || s[pos] == '}' || s[pos] == '>'
}

/// A character of a text that stands in `s`.
proof fn lemma_stands_char(s: Seq<char>, pos: int, t: Seq<char>, i: int)
    requires
        stands_at(s, pos, t),
        0 <= i < t.len(),
    ensures
        s[pos + i] == t[i],
{
    assert(s.subrange(pos, pos + t.len())[i] == s[pos + i]);
}

/// A part of a text that stands in `s` stands in `s`.
proof fn lemma_stands_part(s: Seq<char>, pos: int, t: Seq<char>, a: Seq<char>, b: Seq<char>)
    requires
        stands_at(s, pos, t),
        t == a + b,
    ensures
        stands_at(s, pos, a),
        stands_at(s, pos + a.len(), b),
{
    assert(s.subrange(pos, pos + a.len()) =~= a) by {
        assert forall|i: int| 0 <= i < a.len() implies s[pos + i] == a[i] by {
            lemma_stands_char(s, pos, t, i);
        }
    }
    assert(s.subrange(pos + a.len(), pos + a.len() + b.len()) =~= b) by {
        assert forall|i: int| 0 <= i < b.len() implies s[pos + a.len() + i] == b[i] by {
            lemma_stands_char(s, pos, t, a.len() + i);
        }
    }
}

/// The decimal digits of a number are digits, one at least, and denote
/// the number.
proof fn lemma_decimal(n: nat)
    ensures
        decimal(n).len() > 0,
        forall|i: int| 0 <= i < decimal(n).len() ==> is_digit(#[trigger] decimal(n)[i]),
        digits_value(decimal(n)) == n,
    decreases n,
{
    if n < 10 {
        assert(decimal(n) =~= seq![digit_char(n)]);
        assert(decimal(n).drop_last() =~= Seq::<char>::empty());
        assert(digits_value(decimal(n).drop_last()) == 0);
    } else {
        lemma_decimal(n / 10);
        let d = decimal(n);
        assert(d.drop_last() =~= decimal(n / 10));
        assert(d.last() == digit_char(n % 10));
    }
}

/// A run of digits that stands in `s` before something that is no digit
/// ends where the run ends.
proof fn lemma_digits_run(s: Seq<char>, pos: int, t: Seq<char>)
    requires
        stands_at(s, pos, t),
        forall|i: int| 0 <= i < t.len() ==> is_digit(#[trigger] t[i]),
        pos + t.len() >= s.len() || !is_digit(s[pos + t.len()]),
    ensures
        digits_end(s, pos) == pos + t.len(),
    decreases t.len(),
{
    if t.len() > 0 {
        lemma_stands_char(s, pos, t, 0);
        assert(t == seq![t[0]] + t.drop_first()) by {
            assert(t =~= seq![t[0]] + t.drop_first());
        }
        lemma_stands_part(s, pos, t, seq![t[0]], t.drop_first());
        assert forall|i: int| 0 <= i < t.drop_first().len() implies is_digit(
            #[trigger] t.drop_first()[i],
        ) by {
            assert(t.drop_first()[i] == t[i + 1]);
        }
        lemma_digits_run(s, pos + 1, t.drop_first());
    }
}

/// One and any positive number have no common factor; nor have any number
/// and one.
proof fn lemma_gcd_one(d: nat)
    ensures
        gcd(d, 1) == 1,
        d > 0 ==> gcd(1, d) == 1,
{
    reveal_with_fuel(gcd, 4);
    assert(d % 1 == 0);
    if d > 1 {
        assert(1nat % d == 1) by {
            vstd::arithmetic::div_mod::lemma_small_mod(1, d);
        }
    }
}

/// A fraction without a common factor is its own reduced form.
proof fn lemma_reduce_reduced(r: Rational)
    requires
        r.den > 0,
        gcd(abs(r.num), abs(r.den)) == 1,
    ensures
        reduce(r.num, r.den) == r,
{
    assert(abs(r.num) as int / 1 == abs(r.num));
    assert(r.den / 1 == r.den);
}

/// A written number reads back as the number.
proof fn lemma_number(s: Seq<char>, pos: int, r: Rational)
    requires
        wf_number(r),
        stands_at(s, pos, render_number(r)),
        stops(s, pos + render_number(r).len()),
    ensures
        fraction_at(s, pos) == Ok::<(Rational, int), int>((r, pos + render_number(r).len())),
{
    let negative = r.num < 0;
    let sign = if negative {
        seq!['-']
    } else {
        Seq::<char>::empty()
    };
    let numerator = decimal(abs(r.num));
    let tail = if r.den == 1 {
        Seq::<char>::empty()
    } else {
        seq!['/'] + decimal(abs(r.den))
    };
    let text = render_number(r);
    assert(text == sign + numerator + tail);
    lemma_decimal(abs(r.num));
    lemma_decimal(abs(r.den));
    let start = pos + sign.len();
    let mid = start + numerator.len();
    assert(text == (sign + numerator) + tail);
    lemma_stands_part(s, pos, text, sign + numerator, tail);
    lemma_stands_part(s, pos, sign + numerator, sign, numerator);
    // the sign
    if negative {
        lemma_stands_char(s, pos, sign, 0);
    } else {
        lemma_stands_char(s, pos, numerator, 0);
        assert(is_digit(s[pos]));
    }
    assert((0 <= pos < s.len() && s[pos] == '-') == negative);
    // the numerator
    if r.den == 1 {
        assert(mid == pos + text.len());
    } else {
        lemma_stands_char(s, mid, tail, 0);
        assert(s[mid] == '/');
    }
    lemma_digits_run(s, start, numerator);
    assert(digits_end(s, start) == mid);
    assert(fraction_end(s, mid) == mid);
    let whole = s.subrange(start, mid);
    assert(whole == numerator);
    assert(whole + Seq::<char>::empty() =~= whole);
    assert(pow10(0) == 1);
    let n = abs(r.num);
    assert(signed(negative, n as int) == r.num);
    lemma_gcd_one(n);
    assert(reduce(r.num, 1) == (Rational { num: r.num, den: 1 })) by {
        assert(n as int / 1 == n);
        assert(1int / 1 == 1);
    }
    assert(number_at(s, pos) == Ok::<(Rational, int), int>((Rational { num: r.num, den: 1 }, mid)));
    if r.den != 1 {
        let denominator = decimal(abs(r.den));
        assert(tail == seq!['/'] + denominator);
        lemma_stands_part(s, mid, tail, seq!['/'], denominator);
        lemma_digits_run(s, mid + 1, denominator);
        let end = mid + 1 + denominator.len();
        assert(end == pos + text.len());
        assert(s.subrange(mid + 1, end) == denominator);
        assert(integer_at(s, mid + 1) == Ok::<(u64, int), int>((r.den as u64, end)));
        lemma_gcd_one(r.den as nat);
        assert(reduce(1, r.den) == (Rational { num: 1, den: r.den })) by {
            assert(1int / 1 == 1);
            assert(r.den / 1 == r.den);
        }
        assert(r.num * 1 == r.num && 1 * r.den == r.den);
        lemma_reduce_reduced(r);
    }
}

/// What one character of a string becomes between quotes.
pub open spec fn escaped_char(c: char) -> Seq<char> {
    if c == '\'' {
        seq!['\'', '\'']
    } else {
        seq![c]
    }
}

/// The escaped form of a string, taken from its first character on.
proof fn lemma_escaped_cons(c: char, rest: Seq<char>)
    ensures
        escaped(seq![c] + rest) == escaped_char(c) + escaped(rest),
    decreases rest.len(),
{
    let whole = seq![c] + rest;
    if rest.len() == 0 {
        assert(whole.drop_last() =~= Seq::<char>::empty());
        assert(whole.last() == c);
        assert(escaped(Seq::<char>::empty()) =~= Seq::<char>::empty());
        assert(escaped(rest) =~= Seq::<char>::empty());
        assert(escaped(whole) =~= escaped_char(c) + escaped(rest));
    } else {
        assert(whole.drop_last() =~= seq![c] + rest.drop_last());
        assert(whole.last() == rest.last());
        lemma_escaped_cons(c, rest.drop_last());
        let front = escaped(rest.drop_last());
        assert(escaped(whole.drop_last()) == escaped_char(c) + front);
        if rest.last() == '\'' {
            assert(escaped(whole) == escaped(whole.drop_last()) + seq!['\'', '\'']);
            assert(escaped(rest) == front + seq!['\'', '\'']);
            assert((escaped_char(c) + front) + seq!['\'', '\''] =~= escaped_char(c) + (front
                + seq!['\'', '\'']));
        } else {
            assert(escaped(whole) == escaped(whole.drop_last()).push(rest.last()));
            assert(escaped(rest) == front.push(rest.last()));
            assert((escaped_char(c) + front).push(rest.last()) =~= escaped_char(c) + front.push(
                rest.last(),
            ));
        }
    }
}

/// The body of a written string reads back as the string.
proof fn lemma_string_body(s: Seq<char>, pos: int, text: Seq<char>, acc: Seq<char>)
    requires
        stands_at(s, pos, escaped(text) + seq!['\'']),
        pos + escaped(text).len() + 1 >= s.len() || s[pos + escaped(text).len() + 1] != '\'',
    ensures
        string_body(s, pos, '\'', acc) == Ok::<(Seq<char>, int), int>(
            (acc + text, pos + escaped(text).len() + 1),
        ),
    decreases text.len(),
{
    let all = escaped(text) + seq!['\''];
    if text.len() == 0 {
        lemma_stands_char(s, pos, all, 0);
        assert(acc + text =~= acc);
    } else {
        let c = text[0];
        let rest = text.drop_first();
        assert(text =~= seq![c] + rest);
        lemma_escaped_cons(c, rest);
        let tail = escaped(rest) + seq!['\''];
        assert(all =~= escaped_char(c) + tail);
        lemma_stands_part(s, pos, all, escaped_char(c), tail);
        lemma_stands_char(s, pos, escaped_char(c), 0);
        if c == '\'' {
            lemma_stands_char(s, pos, escaped_char(c), 1);
            lemma_string_body(s, pos + 2, rest, acc.push(c));
        } else {
            lemma_string_body(s, pos + 1, rest, acc.push(c));
        }
        assert(acc.push(c) + rest =~= acc + text);
    }
}

/// A written string reads back as the string.
proof fn lemma_string(s: Seq<char>, pos: int, text: Seq<char>)
    requires
        stands_at(s, pos, quoted(text)),
        pos + quoted(text).len() >= s.len() || s[pos + quoted(text).len()] != '\'',
    ensures
        string_at(s, pos) == Ok::<(Seq<char>, int), int>((text, pos + quoted(text).len())),
{
    let body = escaped(text) + seq!['\''];
    assert(quoted(text) =~= seq!['\''] + body);
    lemma_stands_part(s, pos, quoted(text), seq!['\''], body);
    lemma_stands_char(s, pos, seq!['\''], 0);
    lemma_string_body(s, pos + 1, text, Seq::empty());
    assert(Seq::<char>::empty() + text =~= text);
}

/// The elements of a collection as written, taken from the first on.
proof fn lemma_render_items_cons(x: Value, rest: Seq<Value>)
    ensures
        render_items(seq![x] + rest) == if rest.len() == 0 {
            render(x)
        } else {
            render(x) + seq![',', ' '] + render_items(rest)
        },
    decreases rest.len(),
{
    let whole = seq![x] + rest;
    if rest.len() == 0 {
        assert(whole[0] == x);
    } else {
        assert(whole.drop_last() =~= seq![x] + rest.drop_last());
        assert(whole.last() == rest.last());
        lemma_render_items_cons(x, rest.drop_last());
        if rest.len() == 1 {
            assert(rest[0] == rest.last());
        } else {
            assert(render_items(whole) =~= render(x) + seq![',', ' '] + render_items(rest));
        }
    }
}

/// One entry of an object as written.
pub open spec fn render_entry(e: (Seq<char>, Value)) -> Seq<char> {
    quoted(e.0) + seq![':', ' '] + render(e.1)
}

/// The entries of an object as written, taken from the first on.
proof fn lemma_render_entries_cons(x: (Seq<char>, Value), rest: Entries)
    ensures
        render_entries(seq![x] + rest) == if rest.len() == 0 {
            render_entry(x)
        } else {
            render_entry(x) + seq![',', ' '] + render_entries(rest)
        },
    decreases rest.len(),
{
    let whole = seq![x] + rest;
    if rest.len() == 0 {
        assert(whole[0] == x);
    } else {
        assert(whole.drop_last() =~= seq![x] + rest.drop_last());
        assert(whole.last() == rest.last());
        lemma_render_entries_cons(x, rest.drop_last());
        if rest.len() == 1 {
            assert(rest[0] == rest.last());
            assert(render_entries(whole) =~= render_entry(x) + seq![',', ' '] + render_entries(
                rest,
            ));
        } else {
            assert(render_entries(whole) =~= render_entry(x) + seq![',', ' '] + render_entries(
                rest,
            ));
        }
    }
}

/// A character that a written value can start with.
pub open spec fn is_head(c: char) -> bool {
    c == 'm' || c == 'n' || c == 't' || c == 'f' || c == '-' || is_digit(c) || c == '\'' || c == '['
        || c == '<' || c == '{'
}

/// A written value is not empty and starts with a head character.
proof fn lemma_render_head(v: Value)
    ensures
        render(v).len() > 0,
        is_head(render(v)[0]),
        v is Missing <==> render(v)[0] == 'm',
        v is Null <==> render(v)[0] == 'n',
        v == Value::Bool(true) <==> render(v)[0] == 't',
        v == Value::Bool(false) <==> render(v)[0] == 'f',
        v is Num <==> (render(v)[0] == '-' || is_digit(render(v)[0])),
        v is Str <==> render(v)[0] == '\'',
        v is Array <==> render(v)[0] == '[',
        v is Bag <==> render(v)[0] == '<',
        v is Object <==> render(v)[0] == '{',
{
    match v {
        Value::Num(r) => {
            lemma_decimal(abs(r.num));
            let sign = if r.num < 0 {
                seq!['-']
            } else {
                Seq::<char>::empty()
            };
            assert(render(v)[0] == (sign + decimal(abs(r.num)))[0]);
        },
        Value::Str(t) => {
            assert(quoted(t)[0] == '\'');
        },
        _ => {},
    }
}

/// No word stands where the first character differs.
proof fn lemma_not_text(s: Seq<char>, pos: int, word: Seq<char>)
    requires
        0 <= pos < s.len(),
        word.len() > 0,
        lower(s[pos]) != lower(word[0]),
    ensures
        !text_at(s, pos, word),
        !word_at(s, pos, word),
{
    if text_at(s, pos, word) {
        assert(lower(s[pos + 0]) == lower(word[0]));
    }
}

/// A word that stands in `s` before something that is no word character
/// is found there.
proof fn lemma_is_word(s: Seq<char>, pos: int, word: Seq<char>)
    requires
        stands_at(s, pos, word),
        pos + word.len() >= s.len() || !is_word_char(s[pos + word.len()]),
    ensures
        text_at(s, pos, word),
        word_at(s, pos, word),
{
    assert forall|i: int| 0 <= i < word.len() implies lower(#[trigger] s[pos + i]) == lower(
        word[i],
    ) by {
        lemma_stands_char(s, pos, word, i);
    }
}

/// White space is skipped up to a character that is none.
proof fn lemma_skip_to(s: Seq<char>, pos0: int, pos: int)
    requires
        0 <= pos0 <= pos <= s.len(),
        pos0 == pos || (pos0 + 1 == pos && s[pos0] == ' '),
        pos >= s.len() || !is_space(s[pos]),
    ensures
        skip_space(s, pos0) == pos,
{
    assert(skip_space(s, pos) == pos);
}

/// The elements of a written collection from element `k` on read back as
/// the elements.
proof fn lemma_items_at(s: Seq<char>, pos0: int, pos: int, items: Seq<Value>, k: int, close: Seq<char>)
    requires
        0 <= k < items.len(),
        forall|i: int| 0 <= i < items.len() ==> wf_value(#[trigger] items[i]),
        close == array_close() || close == bag_close(),
        0 <= pos0 <= pos,
        pos0 == pos || (pos0 + 1 == pos && s[pos0] == ' '),
        stands_at(s, pos, render_items(items.skip(k)) + close),
    ensures
        items_at(s, pos0, close, items.take(k)) == Ok::<(Seq<Value>, int), int>(
            (items, pos + render_items(items.skip(k)).len() + close.len()),
        ),
    decreases items, items.len() - k,
{
    let x = items[k];
    let rest = items.skip(k + 1);
    assert(items.skip(k) =~= seq![x] + rest);
    lemma_render_items_cons(x, rest);
    lemma_render_head(x);
    let text = render_items(items.skip(k)) + close;
    let after = pos + render(x).len();
    assert(close[0] == ']' || close[0] == '>');
    if rest.len() == 0 {
        assert(text == render(x) + close);
        lemma_stands_part(s, pos, text, render(x), close);
        lemma_stands_char(s, after, close, 0);
    } else {
        let more = seq![',', ' '] + (render_items(rest) + close);
        assert(text =~= render(x) + more);
        lemma_stands_part(s, pos, text, render(x), more);
        lemma_stands_char(s, after, more, 0);
    }
    lemma_stands_char(s, pos, render(x), 0);
    lemma_skip_to(s, pos0, pos);
    lemma_value(s, pos0, pos, x);
    assert(value_at(s, pos0) == Ok::<(Value, int), int>((x, after)));
    assert(skip_space(s, after) == after);
    assert(items.take(k).push(x) =~= items.take(k + 1));
    if rest.len() == 0 {
        assert(s[after] != ',');
        lemma_is_text(s, after, close);
        assert(items.take(k + 1) =~= items);
    } else {
        let more = seq![',', ' '] + (render_items(rest) + close);
        lemma_stands_char(s, after, more, 1);
        let tail = render_items(rest) + close;
        lemma_stands_part(s, after, more, seq![',', ' '], tail);
        assert(items.skip(k + 1) =~= rest);
        lemma_render_head(rest[0]);
        assert(rest =~= seq![rest[0]] + rest.drop_first());
        lemma_render_items_cons(rest[0], rest.drop_first());
        assert(tail[0] == render(rest[0])[0]);
        lemma_stands_char(s, after + 2, tail, 0);
        lemma_items_at(s, after + 1, after + 2, items, k + 1, close);
    }
}

/// A text that stands in `s` is found there.
proof fn lemma_is_text(s: Seq<char>, pos: int, text: Seq<char>)
    requires
        stands_at(s, pos, text),
    ensures
        text_at(s, pos, text),
{
    assert forall|i: int| 0 <= i < text.len() implies lower(#[trigger] s[pos + i]) == lower(
        text[i],
    ) by {
        lemma_stands_char(s, pos, text, i);
    }
}

/// A written collection behind its opening bracket reads back as its
/// elements.
proof fn lemma_collection(s: Seq<char>, pos: int, items: Seq<Value>, close: Seq<char>)
    requires
        forall|i: int| 0 <= i < items.len() ==> wf_value(#[trigger] items[i]),
        close == array_close() || close == bag_close(),
        stands_at(s, pos, render_items(items) + close),
    ensures
        collection_at(s, pos, close) == Ok::<(Seq<Value>, int), int>(
            (items, pos + render_items(items).len() + close.len()),
        ),
    decreases items, items.len() + 1,
{
    let text = render_items(items) + close;
    assert(close[0] == ']' || close[0] == '>');
    if items.len() == 0 {
        assert(text =~= close);
        lemma_stands_char(s, pos, close, 0);
        assert(skip_space(s, pos) == pos);
        lemma_is_text(s, pos, close);
        assert(items =~= Seq::<Value>::empty());
    } else {
        assert(items =~= seq![items[0]] + items.drop_first());
        lemma_render_items_cons(items[0], items.drop_first());
        lemma_render_head(items[0]);
        assert(text[0] == render(items[0])[0]);
        lemma_stands_char(s, pos, text, 0);
        assert(skip_space(s, pos) == pos);
        lemma_not_text(s, pos, close);
        assert(items.skip(0) =~= items);
        assert(items.take(0) =~= Seq::<Value>::empty());
        lemma_items_at(s, pos, pos, items, 0, close);
    }
}

/// A written entry reads back as its key and its value.
proof fn lemma_entry(s: Seq<char>, pos0: int, pos: int, key: Seq<char>, v: Value)
    requires
        wf_value(v),
        0 <= pos0 <= pos,
        pos0 == pos || (pos0 + 1 == pos && s[pos0] == ' '),
        stands_at(s, pos, render_entry((key, v))),
        stops(s, pos + render_entry((key, v)).len()),
    ensures
        skip_space(s, pos0) == pos,
        string_at(s, pos) == Ok::<(Seq<char>, int), int>((key, pos + quoted(key).len())),
        skip_space(s, pos + quoted(key).len()) == pos + quoted(key).len(),
        pos + quoted(key).len() < s.len(),
        s[pos + quoted(key).len()] == ':',
        value_at(s, pos + quoted(key).len() + 1) == Ok::<(Value, int), int>(
            (v, pos + render_entry((key, v)).len()),
        ),
        render_entry((key, v)).len() == quoted(key).len() + 2 + render(v).len(),
        render(v).len() > 0,
        quoted(key).len() > 0,
    decreases v, 1nat,
{
    lemma_render_head(v);
    let text = render_entry((key, v));
    let key_text = quoted(key);
    let value_text = render(v);
    let after_key = pos + key_text.len();
    let at_value = after_key + 2;
    assert(text =~= key_text + (seq![':', ' '] + value_text));
    lemma_stands_part(s, pos, text, key_text, seq![':', ' '] + value_text);
    lemma_stands_part(s, after_key, seq![':', ' '] + value_text, seq![':', ' '], value_text);
    lemma_stands_char(s, after_key, seq![':', ' '], 0);
    lemma_stands_char(s, after_key, seq![':', ' '], 1);
    lemma_stands_char(s, pos, key_text, 0);
    assert(key_text[0] == '\'');
    lemma_stands_char(s, at_value, value_text, 0);
    lemma_skip_to(s, pos0, pos);
    lemma_string(s, pos, key);
    assert(skip_space(s, after_key) == after_key);
    lemma_skip_to(s, after_key + 1, at_value);
    lemma_value(s, after_key + 1, at_value, v);
}

/// The entries of a written object from entry `k` on read back as the
/// entries.
proof fn lemma_entries_at(s: Seq<char>, pos0: int, pos: int, entries: Entries, k: int)
    requires
        0 <= k < entries.len(),
        distinct_keys(entries),
        forall|i: int| 0 <= i < entries.len() ==> wf_value((#[trigger] entries[i]).1),
        0 <= pos0 <= pos,
        pos0 == pos || (pos0 + 1 == pos && s[pos0] == ' '),
        stands_at(s, pos, render_entries(entries.skip(k)) + seq!['}']),
    ensures
        entries_at(s, pos0, entries.take(k)) == Ok::<(Entries, int), int>(
            (entries, pos + render_entries(entries.skip(k)).len() + 1),
        ),
    decreases entries, entries.len() - k,
{
    let x = entries[k];
    let rest = entries.skip(k + 1);
    let close = seq!['}'];
    assert(entries.skip(k) =~= seq![x] + rest);
    lemma_render_entries_cons(x, rest);
    let text = render_entries(entries.skip(k)) + close;
    let one = render_entry(x);
    let after = pos + one.len();
    let more = if rest.len() == 0 {
        close
    } else {
        seq![',', ' '] + (render_entries(rest) + close)
    };
    assert(text =~= one + more);
    lemma_stands_part(s, pos, text, one, more);
    lemma_stands_char(s, after, more, 0);
    assert(decreases_to!(entries => entries[k]));
    assert(decreases_to!(entries[k] => entries[k].1));
    assert(x == (x.0, x.1));
    lemma_entry(s, pos0, pos, x.0, x.1);
    assert(skip_space(s, after) == after);
    assert forall|j: int| 0 <= j < entries.take(k).len() implies (#[trigger] entries.take(k)[j]).0
        != x.0 by {
        assert(entries[j].0 != entries[k].0);
    }
    lemma_put_fresh(entries.take(k), x.0, x.1);
    assert(entries.take(k).push(x) =~= entries.take(k + 1));
    if rest.len() == 0 {
        assert(entries.take(k + 1) =~= entries);
    } else {
        lemma_stands_char(s, after, more, 1);
        let tail = render_entries(rest) + close;
        lemma_stands_part(s, after, more, seq![',', ' '], tail);
        assert(entries.skip(k + 1) =~= rest);
        assert(rest =~= seq![rest[0]] + rest.drop_first());
        lemma_render_entries_cons(rest[0], rest.drop_first());
        assert(tail[0] == quoted(rest[0].0)[0]);
        lemma_stands_char(s, after + 2, tail, 0);
        lemma_entries_at(s, after + 1, after + 2, entries, k + 1);
    }
}

/// A written object behind its opening brace reads back as its entries.
proof fn lemma_object(s: Seq<char>, pos: int, entries: Entries)
    requires
        distinct_keys(entries),
        forall|i: int| 0 <= i < entries.len() ==> wf_value((#[trigger] entries[i]).1),
        stands_at(s, pos, render_entries(entries) + seq!['}']),
    ensures
        object_at(s, pos) == Ok::<(Entries, int), int>(
            (entries, pos + render_entries(entries).len() + 1),
        ),
    decreases entries, entries.len() + 1,
{
    let text = render_entries(entries) + seq!['}'];
    if entries.len() == 0 {
        lemma_stands_char(s, pos, text, 0);
        assert(skip_space(s, pos) == pos);
        assert(entries =~= Seq::<(Seq<char>, Value)>::empty());
    } else {
        assert(entries =~= seq![entries[0]] + entries.drop_first());
        lemma_render_entries_cons(entries[0], entries.drop_first());
        assert(text[0] == quoted(entries[0].0)[0]);
        lemma_stands_char(s, pos, text, 0);
        assert(skip_space(s, pos) == pos);
        assert(entries.skip(0) =~= entries);
        assert(entries.take(0) =~= Seq::<(Seq<char>, Value)>::empty());
        lemma_entries_at(s, pos, pos, entries, 0);
    }
}

/// None of the words that are values stands where no letter stands.
proof fn lemma_no_literal_word(s: Seq<char>, pos: int)
    requires
        0 <= pos < s.len(),
        s[pos] == '[' || s[pos] == '<' || s[pos] == '{' || s[pos] == '\'' || s[pos] == '-'
            || is_digit(s[pos]),
    ensures
        !word_at(s, pos, "null"@),
        !word_at(s, pos, "missing"@),
        !word_at(s, pos, "true"@),
        !word_at(s, pos, "false"@),
{
    reveal_strlit("null");
    reveal_strlit("missing");
    reveal_strlit("true");
    reveal_strlit("false");
    lemma_not_text(s, pos, "null"@);
    lemma_not_text(s, pos, "missing"@);
    lemma_not_text(s, pos, "true"@);
    lemma_not_text(s, pos, "false"@);
}

/// A written word that is a value reads back as that value.
proof fn lemma_literal_word(s: Seq<char>, pos0: int, pos: int, v: Value)
    requires
        v is Null || v is Missing || v is Bool,
        0 <= pos0 <= pos,
        skip_space(s, pos0) == pos,
        stands_at(s, pos, render(v)),
        stops(s, pos + render(v).len()),
    ensures
        value_at(s, pos0) == Ok::<(Value, int), int>((v, pos + render(v).len())),
{
    reveal_strlit("null");
    reveal_strlit("missing");
    reveal_strlit("true");
    reveal_strlit("false");
    let text = render(v);
    let end = pos + text.len();
    lemma_stands_char(s, pos, text, 0);
    assert(end >= s.len() || !is_word_char(s[end]));
    match v {
        Value::Null => {
            assert(text =~= "null"@);
            lemma_is_word(s, pos, "null"@);
        },
        Value::Missing => {
            lemma_not_text(s, pos, "null"@);
            assert(text =~= "missing"@);
            lemma_is_word(s, pos, "missing"@);
        },
        Value::Bool(b) => {
            lemma_not_text(s, pos, "null"@);
            lemma_not_text(s, pos, "missing"@);
            if b {
                assert(text =~= "true"@);
                lemma_is_word(s, pos, "true"@);
            } else {
                lemma_not_text(s, pos, "true"@);
                assert(text =~= "false"@);
                lemma_is_word(s, pos, "false"@);
            }
        },
        _ => {},
    }
}

/// A written value reads back as the value, wherever it stands before
/// something that cannot continue it.
proof fn lemma_value(s: Seq<char>, pos0: int, pos: int, v: Value)
    requires
        wf_value(v),
        0 <= pos0 <= pos,
        skip_space(s, pos0) == pos,
        stands_at(s, pos, render(v)),
        stops(s, pos + render(v).len()),
    ensures
        value_at(s, pos0) == Ok::<(Value, int), int>((v, pos + render(v).len())),
    decreases v, 0nat,
{
    lemma_render_head(v);
    let text = render(v);
    lemma_stands_char(s, pos, text, 0);
    match v {
        Value::Array(items) => {
            lemma_no_literal_word(s, pos);
            let inner = render_items(items) + array_close();
            assert(text =~= seq!['['] + inner);
            lemma_stands_part(s, pos, text, seq!['['], inner);
            lemma_collection(s, pos + 1, items, array_close());
        },
        Value::Bag(items) => {
            lemma_no_literal_word(s, pos);
            let inner = render_items(items) + bag_close();
            assert(text =~= bag_open() + inner);
            lemma_stands_part(s, pos, text, bag_open(), inner);
            lemma_is_text(s, pos, bag_open());
            lemma_collection(s, pos + 2, items, bag_close());
        },
        Value::Object(entries) => {
            lemma_no_literal_word(s, pos);
            lemma_not_text(s, pos, bag_open());
            let inner = render_entries(entries) + seq!['}'];
            assert(text =~= seq!['{'] + inner);
            lemma_stands_part(s, pos, text, seq!['{'], inner);
            lemma_object(s, pos + 1, entries);
        },
        Value::Str(t) => {
            lemma_no_literal_word(s, pos);
            lemma_not_text(s, pos, bag_open());
            lemma_string(s, pos, t);
        },
        Value::Num(r) => {
            lemma_no_literal_word(s, pos);
            lemma_not_text(s, pos, bag_open());
            lemma_number(s, pos, r);
        },
        _ => {
            lemma_literal_word(s, pos0, pos, v);
        },
    }
}

/// Round trip: the literal form of a well-formed value parses to the
/// value.
pub proof fn lemma_round_trip(v: Value)
    requires
        wf_value(v),
    ensures
        parse_value(render(v)) == Ok::<Value, int>(v),
{
    let s = render(v);
    lemma_render_head(v);
    assert(s.subrange(0, s.len() as int) =~= s);
    assert(skip_space(s, 0) == 0);
    lemma_value(s, 0, 0, v);
    assert(skip_space(s, s.len() as int) == s.len());
}

/// Round trip through the entry points: what `dumps` writes of a
/// well-formed value, `loads` reads back as that value, in every format
/// that the library reads and writes.
pub proof fn lemma_loads_dumps(v: Value, format: Seq<char>)
    requires
        wf_value(v),
        is_literal_format(format),
    ensures
        dumps_spec(v, format) matches Ok(text) && loads_spec(text, format) == Ok::<
            Value,
            EngineError,
        >(v),
{
    lemma_round_trip(v);
}

/// The elements of `items` are well formed.
fn validate_items(items: &Vec<PqlValue>)
    ensures
        forall|i: int| 0 <= i < items.len() ==> wf_value(#[trigger] views(items@)[i]),
    decreases views(items@),
{
    let mut i: usize = 0;
    while i < items.len()
        invariant
            i <= items.len(),
            forall|j: int| 0 <= j < i ==> wf_value(#[trigger] views(items@)[j]),
        decreases items.len() - i,
    {
        assert(views(items@)[i as int] == items@[i as int]@);
        items[i].validate();
        i += 1;
    }
}

/// The entries of `fields` are well formed and their keys distinct.
fn validate_entries(fields: &ObjectMap)
    ensures
        distinct_keys(fields@),
        forall|i: int| 0 <= i < fields@.len() ==> wf_value((#[trigger] fields@[i]).1),
    decreases fields@,
{
    let n = fields.len();
    let mut i: usize = 0;
    while i < n
        invariant
            i <= n,
            n == fields@.len(),
            forall|j: int| 0 <= j < i ==> wf_value((#[trigger] fields@[j]).1),
            forall|j: int| 0 <= j < i ==> index_of(fields@, (#[trigger] fields@[j]).0) == j,
        decreases n - i,
    {
        match fields.get_index(i) {
            Some((_, v)) => {
                assert(decreases_to!(fields@ => fields@[i as int]));
                assert(decreases_to!(fields@[i as int] => fields@[i as int].1));
                v.validate();
            },
            None => {},
        }
        i += 1;
    }
    assert forall|a: int, b: int| 0 <= a < b < fields@.len() implies (#[trigger] fields@[a]).0 != (
    #[trigger] fields@[b]).0 by {
        assert(index_of(fields@, fields@[a].0) == a);
        assert(index_of(fields@, fields@[b].0) == b);
    }
}

impl PqlValue {
    /// Every value that the library holds is well formed: its numbers are
    /// reduced fractions with a positive denominator and no object has a
    /// key twice. The call does nothing; it walks the value so that the
    /// verifier learns the fact.
    pub fn validate(&self)
        ensures
            wf_value(self@),
        decreases self@,
    {
        proof {
            lemma_view_items(*self);
        }
        match self {
            PqlValue::Num(n) => {
                n.validate();
            },
            PqlValue::Array(items) => {
                assert(decreases_to!(self@ => self@->Array_0));
                validate_items(items);
            },
            PqlValue::Bag(items) => {
                assert(decreases_to!(self@ => self@->Bag_0));
                validate_items(items);
            },
            PqlValue::Object(fields) => {
                assert(decreases_to!(self@ => self@->Object_0));
                validate_entries(fields);
            },
            _ => {},
        }
    }
}

} // verus!
