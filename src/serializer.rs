use vstd::prelude::*;

use crate::error::WsonSerializeError;
use crate::text::string_of;
use crate::value::{WsonMap, WsonValue};

verus! {

broadcast use vstd::std_specs::vec::group_vec_axioms;

pub open spec fn digit_char(d: int) -> char {
    ('0' as int + d) as char
}

/// The decimal digits of a natural number.
pub open spec fn decimal_digits(n: nat) -> Seq<char>
    decreases n,
{
    if n < 10 {
        seq![digit_char(n as int)]
    } else {
        decimal_digits(n / 10).push(digit_char(n as int % 10))
    }
}

/// An integer in decimal, with a `-` when it is negative.
pub open spec fn decimal(i: int) -> Seq<char> {
    if i < 0 {
        seq!['-'] + decimal_digits((-i) as nat)
    } else {
        decimal_digits(i as nat)
    }
}

/// The decimal digits of `n`.
fn digits_of(n: u64) -> (r: Vec<char>)
    ensures
        r@ == decimal_digits(n as nat),
    decreases n,
{
    let d = ((n % 10) as u8 + 48u8) as char;
    assert(d == digit_char(n as int % 10));
    if n < 10 {
        let mut r: Vec<char> = Vec::new();
        r.push(d);
        assert(r@ =~= seq![digit_char(n as int)]);
        r
    } else {
        let mut r = digits_of(n / 10);
        r.push(d);
        r
    }
}

/// An integer in decimal, with a `-` when it is negative.
fn i64_text(i: i64) -> (r: Vec<char>)
    ensures
        r@ == decimal(i as int),
{
    if i < 0 {
        let m = (0i128 - i as i128) as u64;
        let mut r: Vec<char> = Vec::new();
        r.push('-');
        let ds = digits_of(m);
        push_all(&mut r, &ds);
        r
    } else {
        digits_of(i as u64)
    }
}

pub open spec fn four_spaces() -> Seq<char> {
    seq![' ', ' ', ' ', ' ']
}

/// The first `k` components of a version, joined by dots.
pub open spec fn version_text(p: Seq<u32>, k: int) -> Seq<char>
    decreases k,
{
    if k <= 0 {
        seq![]
    } else {
        version_text(p, k - 1) + (if k > 1 {
            seq!['.']
        } else {
            seq![]
        }) + decimal(p[k - 1] as int)
    }
}

/// The text of a value whose line starts at indent `ind`.
pub open spec fn value_text(v: WsonValue, ind: Seq<char>) -> Seq<char>
    decreases v,
{
    match v {
        WsonValue::Null => seq!['n', 'u', 'l', 'l'],
        WsonValue::Bool(b) => if b {
            seq!['t', 'r', 'u', 'e']
        } else {
            seq!['f', 'a', 'l', 's', 'e']
        },
        WsonValue::Int(i) => decimal(i as int),
        WsonValue::Float(s) => s@,
        WsonValue::String(s) => seq!['"'] + s@ + seq!['"'],
        WsonValue::Date(s) => s@,
        WsonValue::DateTime(s) => s@,
        WsonValue::Version(p) => version_text(p@, p@.len() as int),
        WsonValue::Array(a) => seq!['[', '\n'] + items_text(a, ind + four_spaces(), a@.len() as int)
            + seq!['\n'] + ind + seq![']'],
        WsonValue::Object(m) => seq!['{', '\n'] + entries_text(
            m.entries,
            ind + four_spaces(),
            m.entries@.len() as int,
        ) + seq!['\n'] + ind + seq!['}'],
    }
}

/// The first `k` elements of an array, one per line at indent `ind`.
pub open spec fn items_text(a: Vec<WsonValue>, ind: Seq<char>, k: int) -> Seq<char>
    decreases a, k,
{
    if k <= 0 || k > a@.len() {
        seq![]
    } else {
        items_text(a, ind, k - 1) + (if k > 1 {
            seq![',', '\n']
        } else {
            seq![]
        }) + ind + value_text(a@[k - 1], ind)
    }
}

/// The first `k` entries of a document, `key = value` at indent `ind`, a blank line between two.
pub open spec fn entries_text(e: Vec<(String, WsonValue)>, ind: Seq<char>, k: int) -> Seq<char>
    decreases e, k,
{
    if k <= 0 || k > e@.len() {
        seq![]
    } else {
        entries_text(e, ind, k - 1) + (if k > 1 {
            seq![',', '\n', '\n']
        } else {
            seq![]
        }) + ind + e@[k - 1].0@ + seq![' ', '=', ' '] + value_text(e@[k - 1].1, ind)
    }
}

/// The text of a whole document.
pub open spec fn document_text(m: WsonMap) -> Seq<char> {
    seq!['{', '\n'] + entries_text(m.entries, four_spaces(), m.entries@.len() as int) + seq![
        '\n',
        '}',
    ]
}

fn push_all(out: &mut Vec<char>, s: &Vec<char>)
    ensures
        final(out)@ == old(out)@ + s@,
{
    let ghost start = out@;
    let mut i: usize = 0;
    while i < s.len()
        invariant
            i <= s.len(),
            out@ == start + s@.subrange(0, i as int),
        decreases s.len() - i,
    {
        out.push(s[i]);
        assert(out@ =~= start + s@.subrange(0, i + 1));
        i += 1;
    }
    assert(s@.subrange(0, s.len() as int) =~= s@);
}

fn push_str(out: &mut Vec<char>, s: &str)
    ensures
        final(out)@ == old(out)@ + s@,
{
    push_all(out, &crate::text::chars_of(s));
}

fn indent_more(ind: &Vec<char>) -> (r: Vec<char>)
    ensures
        r@ == ind@ + four_spaces(),
{
    let mut r: Vec<char> = Vec::new();
    push_all(&mut r, ind);
    r.push(' ');
    r.push(' ');
    r.push(' ');
    r.push(' ');
    assert(r@ =~= ind@ + four_spaces());
    r
}

fn serialize_map(out: &mut Vec<char>, data: &WsonMap, ind: &Vec<char>)
    ensures
        final(out)@ == old(out)@ + entries_text(data.entries, ind@, data.entries@.len() as int),
    decreases data.entries, 1int,
{
    let ghost start = out@;
    let n = data.entries.len();
    let mut i: usize = 0;
    while i < n
        invariant
            i <= n == data.entries.len(),
            out@ == start + entries_text(data.entries, ind@, i as int),
        decreases n - i,
    {
        let ghost before = out@;
        if i > 0 {
            out.push(',');
            out.push('\n');
            out.push('\n');
        }
        push_all(out, ind);
        push_all(out, &crate::text::chars_of(data.entries[i].0.as_str()));
        out.push(' ');
        out.push('=');
        out.push(' ');
        let ghost mid = out@;
        assert(decreases_to!(data.entries => data.entries@[i as int]));
        serialize_value(out, &data.entries[i].1, ind);
        assert(out@ =~= before + (if i + 1 > 1 {
            seq![',', '\n', '\n']
        } else {
            seq![]
        }) + ind@ + data.entries@[i as int].0@ + seq![' ', '=', ' '] + value_text(data.entries@[i as int].1, ind@));
        i += 1;
    }
}

fn serialize_list(out: &mut Vec<char>, data: &Vec<WsonValue>, ind: &Vec<char>)
    ensures
        final(out)@ == old(out)@ + items_text(*data, ind@, data@.len() as int),
    decreases data, 1int,
{
    let ghost start = out@;
    let n = data.len();
    let mut i: usize = 0;
    while i < n
        invariant
            i <= n == data.len(),
            out@ == start + items_text(*data, ind@, i as int),
        decreases n - i,
    {
        let ghost before = out@;
        if i > 0 {
            out.push(',');
            out.push('\n');
        }
        push_all(out, ind);
        assert(decreases_to!(*data => data@[i as int]));
        serialize_value(out, &data[i], ind);
        assert(out@ =~= before + (if i + 1 > 1 {
            seq![',', '\n']
        } else {
            seq![]
        }) + ind@ + value_text(data@[i as int], ind@));
        i += 1;
    }
}

fn serialize_value(out: &mut Vec<char>, value: &WsonValue, ind: &Vec<char>)
    ensures
        final(out)@ == old(out)@ + value_text(*value, ind@),
    decreases value, 0int,
{
    proof {
        reveal_strlit("null");
        reveal_strlit("true");
        reveal_strlit("false");
    }
    match value {
        WsonValue::Null => push_str(out, "null"),
        WsonValue::Bool(b) => if *b {
            push_str(out, "true")
        } else {
            push_str(out, "false")
        },
        WsonValue::Int(i) => push_all(out, &i64_text(*i)),
        WsonValue::Float(s) => push_str(out, s.as_str()),
        WsonValue::String(s) => {
            let ghost start = out@;
            out.push('"');
            push_str(out, s.as_str());
            out.push('"');
            assert(out@ =~= start + (seq!['"'] + s@ + seq!['"']));
        },
        WsonValue::Date(s) => push_str(out, s.as_str()),
        WsonValue::DateTime(s) => push_str(out, s.as_str()),
        WsonValue::Version(v) => {
            let ghost start = out@;
            let mut i: usize = 0;
            while i < v.len()
                invariant
                    i <= v.len(),
                    out@ == start + version_text(v@, i as int),
                decreases v.len() - i,
            {
                let ghost before = out@;
                if i > 0 {
                    out.push('.');
                }
                push_all(out, &digits_of(v[i] as u64));
                assert(out@ =~= before + (if i + 1 > 1 {
                    seq!['.']
                } else {
                    seq![]
                }) + decimal(v@[i as int] as int));
                i += 1;
            }
        },
        WsonValue::Array(a) => {
            let ghost start = out@;
            out.push('[');
            out.push('\n');
            let inner = indent_more(ind);
            serialize_list(out, a, &inner);
            out.push('\n');
            push_all(out, ind);
            out.push(']');
            assert(out@ =~= start + value_text(*value, ind@));
        },
        WsonValue::Object(m) => {
            let ghost start = out@;
            out.push('{');
            out.push('\n');
            let inner = indent_more(ind);
            serialize_map(out, m, &inner);
            out.push('\n');
            push_all(out, ind);
            out.push('}');
            assert(out@ =~= start + value_text(*value, ind@));
        },
    }
}

/// Writes a document as WSON text: one `key = value` per line, four spaces of
/// indent per level, a blank line between entries, keys in the map's order.
pub fn serialize_wson(data: &WsonMap) -> (r: Result<String, WsonSerializeError>)
    requires
        data.deep_wf(),
    ensures
        r is Ok,
        r->Ok_0@ == document_text(*data),
{
    let mut out: Vec<char> = Vec::new();
    out.push('{');
    out.push('\n');
    let ind = indent_more(&Vec::new());
    assert(ind@ =~= four_spaces());
    serialize_map(&mut out, data, &ind);
    out.push('\n');
    out.push('}');
    assert(out@ =~= document_text(*data));
    Ok(string_of(&out))
}

} // verus!
