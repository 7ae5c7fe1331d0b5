//! The textual form of values.
use vstd::prelude::*;
use crate::text::{decimal, from_chars, to_chars, u64_to_chars};
use crate::value::model::{Entries, Rational, Value};
use crate::value::number::{abs, Number};
use crate::value::object::{object_get_index, object_len, ObjectMap};
use crate::value::pql::{lemma_view_items, views, PqlValue};

verus! {

/// The characters of a string between quotes: every quote doubled.
pub open spec fn escaped(text: Seq<char>) -> Seq<char>
    decreases text.len(),
{
    if text.len() == 0 {
        Seq::empty()
    } else if text.last() == '\'' {
        escaped(text.drop_last()) + seq!['\'', '\'']
    } else {
        escaped(text.drop_last()).push(text.last())
    }
}

/// A string in single quotes.
pub open spec fn quoted(text: Seq<char>) -> Seq<char> {
    seq!['\''] + escaped(text) + seq!['\'']
}

/// A number: its numerator in decimal digits, with a minus sign if it is
/// negative, and `/` with the denominator unless that is one.
pub open spec fn render_number(r: Rational) -> Seq<char> {
    let sign = if r.num < 0 {
        seq!['-']
    } else {
        Seq::<char>::empty()
    };
    let tail = if r.den == 1 {
        Seq::<char>::empty()
    } else {
        seq!['/'] + decimal(abs(r.den))
    };
    sign + decimal(abs(r.num)) + tail
}

/// The elements of a collection, separated by `, `.
pub open spec fn render_items(items: Seq<Value>) -> Seq<char>
    decreases items, 0nat,
{
    if items.len() == 0 {
        Seq::empty()
    } else if items.len() == 1 {
        render(items[0])
    } else {
        render_items(items.drop_last()) + seq![',', ' '] + render(items.last())
    }
}

/// The entries of an object, each as `'key': value`, separated by `, `.
pub open spec fn render_entries(entries: Entries) -> Seq<char>
    decreases entries, 0nat,
{
    if entries.len() == 0 {
        Seq::empty()
    } else if entries.len() == 1 {
        quoted(entries[0].0) + seq![':', ' '] + render(entries[0].1)
    } else {
        render_entries(entries.drop_last()) + seq![',', ' '] + quoted(entries.last().0) + seq![
            ':',
            ' ',
        ] + render(entries.last().1)
    }
}

/// The textual form of a value: `missing`, `null`, `true`, `false`, a
/// number, a string in single quotes, `[ .. ]` for an array, `<< .. >>`
/// for a bag and `{ 'key': value, .. }` for an object.
pub open spec fn render(v: Value) -> Seq<char>
    decreases v, 1nat,
{
    match v {
        Value::Missing => seq!['m', 'i', 's', 's', 'i', 'n', 'g'],
        Value::Null => seq!['n', 'u', 'l', 'l'],
        Value::Bool(b) => if b {
            seq!['t', 'r', 'u', 'e']
        } else {
            seq!['f', 'a', 'l', 's', 'e']
        },
        Value::Num(r) => render_number(r),
        Value::Str(text) => quoted(text),
        Value::Array(items) => seq!['['] + render_items(items) + seq![']'],
        Value::Bag(items) => seq!['<', '<'] + render_items(items) + seq!['>', '>'],
        Value::Object(entries) => seq!['{'] + render_entries(entries) + seq!['}'],
    }
}

/// Appends all of `piece` to `out`.
fn push_all(out: &mut Vec<char>, piece: &Vec<char>)
    ensures
        final(out)@ == old(out)@ + piece@,
{
    let mut i: usize = 0;
    assert(out@ =~= old(out)@ + piece@.take(0));
    while i < piece.len()
        invariant
            i <= piece.len(),
            out@ == old(out)@ + piece@.take(i as int),
        decreases piece.len() - i,
    {
        out.push(piece[i]);
        i += 1;
        assert(out@ =~= old(out)@ + piece@.take(i as int));
    }
    assert(piece@.take(i as int) =~= piece@);
}

/// Appends `text` in single quotes to `out`.
fn write_quoted(text: &str, out: &mut Vec<char>)
    ensures
        final(out)@ == old(out)@ + quoted(text@),
{
    let chars = to_chars(text);
    out.push('\'');
    let ghost start = out@;
    let mut i: usize = 0;
    assert(chars@.take(0) =~= Seq::<char>::empty());
    assert(out@ =~= start + escaped(chars@.take(0)));
    while i < chars.len()
        invariant
            i <= chars.len(),
            out@ == start + escaped(chars@.take(i as int)),
        decreases chars.len() - i,
    {
        proof {
            let next = chars@.take(i + 1);
            assert(next.drop_last() =~= chars@.take(i as int));
            assert(next.last() == chars@[i as int]);
        }
        let ghost before = out@;
        if chars[i] == '\'' {
            out.push('\'');
            out.push('\'');
            assert(out@ =~= before + seq!['\'', '\'']);
        } else {
            out.push(chars[i]);
        }
        i += 1;
        assert(out@ =~= start + escaped(chars@.take(i as int)));
    }
    assert(chars@.take(i as int) =~= chars@);
    out.push('\'');
    assert(out@ =~= old(out)@ + quoted(text@));
}

/// Appends the textual form of `n` to `out`.
fn write_number(n: &Number, out: &mut Vec<char>)
    ensures
        final(out)@ == old(out)@ + render_number(n@),
{
    let num = n.numerator();
    let den = n.denominator();
    let ghost start = out@;
    if num < 0 {
        out.push('-');
    }
    let mag: u64 = if num < 0 {
        let wide: i128 = -(num as i128);
        wide as u64
    } else {
        num as u64
    };
    let digits = u64_to_chars(mag);
    push_all(out, &digits);
    if den != 1 {
        out.push('/');
        let more = u64_to_chars(den);
        push_all(out, &more);
    }
    assert(out@ =~= start + render_number(n@));
}

/// Appends the elements of a collection to `out`.
fn write_items(items: &Vec<PqlValue>, out: &mut Vec<char>)
    ensures
        final(out)@ == old(out)@ + render_items(views(items@)),
    decreases views(items@), 0nat,
{
    let mut i: usize = 0;
    let ghost all = views(items@);
    assert(all.take(0) =~= Seq::<Value>::empty());
    assert(out@ =~= old(out)@ + render_items(all.take(0)));
    while i < items.len()
        invariant
            i <= items.len(),
            all == views(items@),
            out@ == old(out)@ + render_items(all.take(i as int)),
        decreases items.len() - i,
    {
        proof {
            let next = all.take(i + 1);
            assert(next.drop_last() =~= all.take(i as int));
            assert(next.last() == items@[i as int]@);
            assert(next[0] == all[0]);
            assert(all[i as int] == items@[i as int]@);
        }
        let ghost before = out@;
        if i > 0 {
            out.push(',');
            out.push(' ');
            assert(out@ =~= before + seq![',', ' ']);
        }
        let ghost mid = out@;
        write_value(&items[i], out);
        i += 1;
        assert(out@ =~= old(out)@ + render_items(all.take(i as int)));
    }
    assert(all.take(i as int) =~= all);
}

/// Appends the entries of an object to `out`.
fn write_entries(fields: &ObjectMap, out: &mut Vec<char>)
    ensures
        final(out)@ == old(out)@ + render_entries(fields@),
    decreases fields@, 0nat,
{
    let n = object_len(fields);
    let mut i: usize = 0;
    let ghost all = fields@;
    assert(all.take(0) =~= Seq::<(Seq<char>, Value)>::empty());
    assert(out@ =~= old(out)@ + render_entries(all.take(0)));
    while i < n
        invariant
            i <= n,
            n == fields@.len(),
            all == fields@,
            out@ == old(out)@ + render_entries(all.take(i as int)),
        decreases n - i,
    {
        match object_get_index(fields, i) {
            Some((k, v)) => {
                proof {
                    let next = all.take(i + 1);
                    assert(next.drop_last() =~= all.take(i as int));
                    assert(next.last() == all[i as int]);
                    assert(next[0] == all[0]);
                    assert(decreases_to!(all => all[i as int]));
                    assert(decreases_to!(all[i as int] => all[i as int].1));
                }
                let ghost before = out@;
                if i > 0 {
                    out.push(',');
                    out.push(' ');
                    assert(out@ =~= before + seq![',', ' ']);
                }
                write_quoted(k.as_str(), out);
                let ghost mid = out@;
                out.push(':');
                out.push(' ');
                assert(out@ =~= mid + seq![':', ' ']);
                write_value(v, out);
            },
            None => {},
        }
        i += 1;
        assert(out@ =~= old(out)@ + render_entries(all.take(i as int)));
    }
    assert(all.take(i as int) =~= all);
}

/// Appends the textual form of `v` to `out`.
fn write_value(v: &PqlValue, out: &mut Vec<char>)
    ensures
        final(out)@ == old(out)@ + render(v@),
    decreases v@, 1nat,
{
    proof {
        lemma_view_items(*v);
    }
    let ghost start = out@;
    match v {
        PqlValue::Missing => {
            let word = to_chars("missing");
            proof {
                reveal_strlit("missing");
                assert(word@ =~= render(v@));
            }
            push_all(out, &word);
        },
        PqlValue::Null => {
            let word = to_chars("null");
            proof {
                reveal_strlit("null");
                assert(word@ =~= render(v@));
            }
            push_all(out, &word);
        },
        PqlValue::Boolean(b) => {
            if *b {
                let word = to_chars("true");
                proof {
                    reveal_strlit("true");
                    assert(word@ =~= render(v@));
                }
                push_all(out, &word);
            } else {
                let word = to_chars("false");
                proof {
                    reveal_strlit("false");
                    assert(word@ =~= render(v@));
                }
                push_all(out, &word);
            }
        },
        PqlValue::Num(n) => {
            write_number(n, out);
        },
        PqlValue::Str(text) => {
            write_quoted(text.as_str(), out);
        },
        PqlValue::Array(items) => {
            assert(decreases_to!(v@ => v@->Array_0));
            out.push('[');
            write_items(items, out);
            out.push(']');
            assert(out@ =~= start + render(v@));
        },
        PqlValue::Bag(items) => {
            assert(decreases_to!(v@ => v@->Bag_0));
            out.push('<');
            out.push('<');
            write_items(items, out);
            out.push('>');
            out.push('>');
            assert(out@ =~= start + render(v@));
        },
        PqlValue::Object(fields) => {
            assert(decreases_to!(v@ => v@->Object_0));
            out.push('{');
            write_entries(fields, out);
            out.push('}');
            assert(out@ =~= start + render(v@));
        },
    }
}

impl PqlValue {
    /// The textual form of the value; see [`render`].
    pub fn render(&self) -> (text: String)
        ensures
            text@ == render(self@),
    {
        let mut out: Vec<char> = Vec::new();
        write_value(self, &mut out);
        assert(out@ =~= render(self@));
        from_chars(out.as_slice())
    }
}

} // verus!
