use vstd::prelude::*;

use crate::comments::{remove_comments, without_comments};
use crate::error::WsonParseError;
use crate::text::{
    all_digits, chars_of, date_rendering, date_time_rendering, eq_ignore_case, eq_ignore_case_chars,
    float_syntax, i64_text, is_digit, is_float_text, lemma_trim_idempotent, lemma_trim_len, parse_i64, parse_u32,
    render_date, render_date_time, slice_chars, string_of, trim, trim_chars, u32_text,
};
use crate::value::{deep_wf, lemma_items_wf, WsonMap, WsonValue};

verus! {

/// Text that opens with `"` and closes with another `"`.
pub open spec fn is_quoted(t: Seq<char>) -> bool {
    t.len() >= 2 && t[0] == '"' && t.last() == '"'
}

/// Text that opens with `open` and closes with `close`.
pub open spec fn is_wrapped(t: Seq<char>, open: char, close: char) -> bool {
    t.len() >= 1 && t[0] == open && t.last() == close
}

/// Two or more runs of decimal digits joined by single dots (`1.2`, `1.2.3`).
pub open spec fn version_pattern(t: Seq<char>) -> bool {
    &&& t.len() > 0
    &&& is_digit(t[0])
    &&& is_digit(t.last())
    &&& forall|i: int| 0 <= i < t.len() ==> is_digit(#[trigger] t[i]) || t[i] == '.'
    &&& forall|i: int| 0 <= i < t.len() - 1 ==> !(#[trigger] t[i] == '.' && t[i + 1] == '.')
    &&& exists|i: int| 0 <= i < t.len() && #[trigger] t[i] == '.'
}

/// The components of dotted text, `cur` being the digits met since the last dot:
/// one per run of digits, or none at all if some run does not fit in 32 bits.
pub open spec fn version_parts_from(t: Seq<char>, cur: Seq<char>) -> Option<Seq<u32>>
    decreases t.len(),
{
    if t.len() == 0 {
        match u32_text(cur) {
            Some(v) => Some(seq![v]),
            None => None,
        }
    } else if t[0] == '.' {
        match (u32_text(cur), version_parts_from(t.drop_first(), seq![])) {
            (Some(v), Some(rest)) => Some(seq![v] + rest),
            _ => None,
        }
    } else {
        version_parts_from(t.drop_first(), cur.push(t[0]))
    }
}

pub open spec fn version_parts(t: Seq<char>) -> Option<Seq<u32>> {
    version_parts_from(t, seq![])
}

/// Dotted digits whose every component fits in 32 bits.
pub open spec fn is_version(t: Seq<char>) -> bool {
    version_pattern(t) && version_parts(t) is Some
}

pub open spec fn date_layout() -> Seq<char> {
    seq!['%', 'Y', '-', '%', 'm', '-', '%', 'd']
}

pub open spec fn date_time_layout() -> Seq<char> {
    seq!['%', 'Y', '-', '%', 'm', '-', '%', 'd', ' ', '%', 'H', ':', '%', 'M', ':', '%', 'S']
}

/// A trimmed value text that the cascade classifies without recursion.
pub open spec fn is_scalar(t: Seq<char>) -> bool {
    t.len() == 0 || is_quoted(t) || eq_ignore_case(t, seq!['t', 'r', 'u', 'e'])
        || eq_ignore_case(t, seq!['f', 'a', 'l', 's', 'e']) || eq_ignore_case(
        t,
        seq!['n', 'u', 'l', 'l'],
    ) || i64_text(t) is Some || is_version(t) || float_syntax(t) || date_rendering(
        t,
        date_layout(),
    ) is Some || date_time_rendering(t, date_time_layout()) is Some
}

/// What the cascade makes of the trimmed text `t`: the first rule that matches decides;
/// a document or an array holds what its pieces make.
pub open spec fn classifies_as(t: Seq<char>, v: WsonValue) -> bool
    decreases t.len(),
    via classifies_as_decreases
{
    if t.len() == 0 {
        v is Null
    } else if is_quoted(t) {
        v is String && v->String_0@ == t.subrange(1, t.len() - 1)
    } else if eq_ignore_case(t, seq!['t', 'r', 'u', 'e']) {
        v == WsonValue::Bool(true)
    } else if eq_ignore_case(t, seq!['f', 'a', 'l', 's', 'e']) {
        v == WsonValue::Bool(false)
    } else if eq_ignore_case(t, seq!['n', 'u', 'l', 'l']) {
        v is Null
    } else if i64_text(t) is Some {
        v == WsonValue::Int(i64_text(t)->Some_0)
    } else if is_version(t) {
        v is Version && v->Version_0@ == version_parts(t)->Some_0
    } else if float_syntax(t) {
        v is Float && v->Float_0@ == t
    } else if date_rendering(t, date_layout()) is Some {
        v is Date && v->Date_0@ == date_rendering(t, date_layout())->Some_0
    } else if date_time_rendering(t, date_time_layout()) is Some {
        v is DateTime && v->DateTime_0@ == date_time_rendering(t, date_time_layout())->Some_0
    } else if is_wrapped(t, '{', '}') {
        &&& v is Object
        &&& v->Object_0.wf()
        &&& forall|q: Seq<char>| #[trigger] v->Object_0.contents().dom().contains(q) <==> exists|j: int|
            0 <= j < document_segments(t).len() && trim(#[trigger] document_segments(t)[j].0) == q
        &&& forall|j: int|
            0 <= j < document_segments(t).len() && last_with_key(document_segments(t), j)
                ==> classifies_as(
                trim(#[trigger] document_segments(t)[j].1),
                v->Object_0.contents()[trim(document_segments(t)[j].0)],
            )
    } else if is_wrapped(t, '[', ']') {
        &&& v is Array
        &&& v->Array_0@.len() == element_segments(t).len()
        &&& forall|j: int|
            0 <= j < element_segments(t).len() ==> classifies_as(
                trim(#[trigger] element_segments(t)[j]),
                v->Array_0@[j],
            )
    } else {
        false
    }
}

#[via_fn]
proof fn classifies_as_decreases(t: Seq<char>, v: WsonValue) {
    lemma_pieces_shorter(t);
}

fn is_version_text(t: &Vec<char>) -> (r: bool)
    ensures
        r == version_pattern(t@),
{
    let n = t.len();
    if n == 0 || !('0' <= t[0] && t[0] <= '9') || !('0' <= t[n - 1] && t[n - 1] <= '9') {
        return false;
    }
    let mut dot = false;
    let mut i: usize = 0;
    while i < n
        invariant
            0 < n == t.len(),
            i <= n,
            forall|j: int| 0 <= j < i ==> is_digit(#[trigger] t@[j]) || t@[j] == '.',
            forall|j: int| 0 <= j < i && j < n - 1 ==> !(#[trigger] t@[j] == '.' && t@[j + 1] == '.'),
            dot <==> exists|j: int| 0 <= j < i && #[trigger] t@[j] == '.',
        decreases n - i,
    {
        let c = t[i];
        if !('0' <= c && c <= '9') && c != '.' {
            return false;
        }
        if c == '.' {
            if i + 1 < n && t[i + 1] == '.' {
                return false;
            }
            dot = true;
        }
        i += 1;
    }
    dot
}

/// Prepends the components `r` to a result of `version_parts_from`.
spec fn after_parts(r: Seq<u32>, o: Option<Seq<u32>>) -> Option<Seq<u32>> {
    match o {
        Some(x) => Some(r + x),
        None => None,
    }
}

fn version_of(t: &Vec<char>) -> (r: Option<Vec<u32>>)
    ensures
        r is Some <==> version_parts(t@) is Some,
        r is Some ==> r->Some_0@ == version_parts(t@)->Some_0,
{
    let n = t.len();
    let mut r: Vec<u32> = Vec::new();
    let mut cur: Vec<char> = Vec::new();
    let mut i: usize = 0;
    assert(t@.subrange(0, n as int) =~= t@);
    assert(r@ + seq![] =~= seq![]);
    while i < n
        invariant
            n == t.len(),
            i <= n,
            after_parts(r@, version_parts_from(t@.subrange(i as int, n as int), cur@)) == after_parts(
                seq![],
                version_parts(t@),
            ),
        decreases n - i,
    {
        assert(t@.subrange(i as int, n as int).drop_first() =~= t@.subrange(i + 1, n as int));
        if t[i] == '.' {
            match parse_u32(string_of(&cur).as_str()) {
                Some(v) => {
                    let ghost before = r@;
                    r.push(v);
                    proof {
                        match version_parts_from(t@.subrange(i + 1, n as int), seq![]) {
                            Some(x) => {
                                assert(before + (seq![v] + x) =~= r@ + x);
                            },
                            None => {},
                        }
                    }
                },
                None => {
                    proof {
                        match version_parts(t@) {
                            Some(x) => {
                                assert(after_parts(seq![], version_parts(t@)) is Some);
                            },
                            None => {},
                        }
                    }
                    return None;
                },
            }
            cur = Vec::new();
        } else {
            cur.push(t[i]);
        }
        i += 1;
    }
    match parse_u32(string_of(&cur).as_str()) {
        Some(v) => {
            let ghost before = r@;
            r.push(v);
            proof {
                assert(seq![] + version_parts(t@)->Some_0 == before + seq![v]);
                assert(version_parts(t@)->Some_0 =~= r@);
            }
            Some(r)
        },
        None => None,
    }
}

fn next_pos(a: usize, b: usize) -> (r: usize)
    ensures
        r == if a + b <= usize::MAX { (a + b) as usize } else { usize::MAX },
{
    if a <= usize::MAX - b {
        a + b
    } else {
        usize::MAX
    }
}

/// A nesting depth after one opening (`up`) or closing character; it stays put at
/// the bounds of `i64`.
pub open spec fn depth_step(d: i64, up: bool) -> i64 {
    if up && d < i64::MAX {
        (d + 1) as i64
    } else if !up && d > i64::MIN {
        (d - 1) as i64
    } else {
        d
    }
}

/// The brace depth after the character `ch`.
pub open spec fn brace_after(d: i64, ch: char) -> i64 {
    if ch == '{' {
        depth_step(d, true)
    } else if ch == '}' {
        depth_step(d, false)
    } else {
        d
    }
}

/// The bracket depth after the character `ch`.
pub open spec fn bracket_after(d: i64, ch: char) -> i64 {
    if ch == '[' {
        depth_step(d, true)
    } else if ch == ']' {
        depth_step(d, false)
    } else {
        d
    }
}

/// The element texts of an array body: split at each comma outside nested braces
/// and brackets; a last piece that is blank is left out. `cur` is the piece begun.
pub open spec fn array_segments(s: Seq<char>, cur: Seq<char>, brace: i64, bracket: i64) -> Seq<
    Seq<char>,
>
    decreases s.len(),
{
    if s.len() == 0 {
        if trim(cur).len() > 0 {
            seq![cur]
        } else {
            seq![]
        }
    } else if s[0] == ',' && brace == 0 && bracket == 0 {
        seq![cur] + array_segments(s.drop_first(), seq![], brace, bracket)
    } else {
        array_segments(
            s.drop_first(),
            cur.push(s[0]),
            brace_after(brace, s[0]),
            bracket_after(bracket, s[0]),
        )
    }
}

/// The entries of a document body as (key text, value text): split at each comma
/// outside nested braces and brackets, and at the first `=` or `:` there; newlines
/// are left out; a last piece whose key is blank is left out. `key`, `value` and
/// `in_key` describe the piece begun.
pub open spec fn map_segments(
    s: Seq<char>,
    key: Seq<char>,
    value: Seq<char>,
    in_key: bool,
    brace: i64,
    bracket: i64,
) -> Seq<(Seq<char>, Seq<char>)>
    decreases s.len(),
{
    if s.len() == 0 {
        if trim(key).len() > 0 {
            seq![(key, value)]
        } else {
            seq![]
        }
    } else {
        let ch = s[0];
        let t = s.drop_first();
        if ch == '\n' {
            map_segments(t, key, value, in_key, brace, bracket)
        } else if (ch == '=' || ch == ':') && in_key && brace == 0 && bracket == 0 {
            map_segments(t, key, value, false, brace, bracket)
        } else if ch == ',' && brace == 0 && bracket == 0 {
            seq![(key, value)] + map_segments(t, seq![], seq![], true, brace, bracket)
        } else if in_key {
            map_segments(t, key.push(ch), value, in_key, brace_after(brace, ch), bracket_after(bracket, ch))
        } else {
            map_segments(t, key, value.push(ch), in_key, brace_after(brace, ch), bracket_after(bracket, ch))
        }
    }
}

/// The entries of the document text `t` (wrapped in braces).
pub open spec fn document_segments(t: Seq<char>) -> Seq<(Seq<char>, Seq<char>)> {
    map_segments(t.subrange(1, t.len() - 1), seq![], seq![], true, 0, 0)
}

/// No entry after the `j`-th has the same trimmed key.
pub open spec fn last_with_key(segs: Seq<(Seq<char>, Seq<char>)>, j: int) -> bool {
    forall|j2: int| j < j2 < segs.len() ==> trim(#[trigger] segs[j2].0) != trim(segs[j].0)
}

/// `m` holds the trimmed key of each entry, no other key, and under each key the
/// classification of the last entry's value.
pub open spec fn entries_match(m: WsonMap, segs: Seq<(Seq<char>, Seq<char>)>) -> bool {
    &&& forall|q: Seq<char>| #[trigger] m.contents().dom().contains(q) <==> exists|j: int|
        0 <= j < segs.len() && trim(#[trigger] segs[j].0) == q
    &&& forall|j: int|
        0 <= j < segs.len() && last_with_key(segs, j) ==> classifies_as(
            trim(#[trigger] segs[j].1),
            m.contents()[trim(segs[j].0)],
        )
}

fn step_depth(d: i64, up: bool) -> (r: i64)
    ensures
        r == depth_step(d, up),
{
    if up && d < i64::MAX {
        d + 1
    } else if !up && d > i64::MIN {
        d - 1
    } else {
        d
    }
}

/// The element texts of the array text `t` (wrapped in brackets).
pub open spec fn element_segments(t: Seq<char>) -> Seq<Seq<char>> {
    array_segments(t.subrange(1, t.len() - 1), seq![], 0, 0)
}

proof fn lemma_array_segments_len(s: Seq<char>, cur: Seq<char>, brace: i64, bracket: i64)
    ensures
        forall|j: int|
            0 <= j < array_segments(s, cur, brace, bracket).len() ==> (#[trigger] array_segments(
                s,
                cur,
                brace,
                bracket,
            )[j]).len() <= cur.len() + s.len(),
    decreases s.len(),
{
    let all = array_segments(s, cur, brace, bracket);
    if s.len() == 0 {
        assert forall|j: int| 0 <= j < all.len() implies (#[trigger] all[j]).len() <= cur.len() + s.len() by {
            assert(all[j] == cur);
        }
    } else {
        if s[0] == ',' && brace == 0 && bracket == 0 {
            lemma_array_segments_len(s.drop_first(), seq![], brace, bracket);
            let rest = array_segments(s.drop_first(), seq![], brace, bracket);
            let all = array_segments(s, cur, brace, bracket);
            assert(all == seq![cur] + rest);
            assert forall|j: int| 0 <= j < all.len() implies (#[trigger] all[j]).len() <= cur.len() + s.len() by {
                if j > 0 {
                    assert(all[j] == rest[j - 1]);
                }
            }
        } else {
            let c2 = cur.push(s[0]);
            let b1 = brace_after(brace, s[0]);
            let b2 = bracket_after(bracket, s[0]);
            lemma_array_segments_len(s.drop_first(), c2, b1, b2);
            let rest = array_segments(s.drop_first(), c2, b1, b2);
            assert(all == rest);
            assert forall|j: int| 0 <= j < all.len() implies (#[trigger] all[j]).len() <= cur.len() + s.len() by {
                assert(all[j] == rest[j]);
            }
        }
    }
}

proof fn lemma_map_segments_len(
    s: Seq<char>,
    key: Seq<char>,
    value: Seq<char>,
    in_key: bool,
    brace: i64,
    bracket: i64,
)
    ensures
        forall|j: int|
            0 <= j < map_segments(s, key, value, in_key, brace, bracket).len() ==> (
            #[trigger] map_segments(s, key, value, in_key, brace, bracket)[j]).1.len() <= value.len()
                + s.len(),
    decreases s.len(),
{
    let all = map_segments(s, key, value, in_key, brace, bracket);
    if s.len() == 0 {
        assert forall|j: int| 0 <= j < all.len() implies (#[trigger] all[j]).1.len() <= value.len() + s.len() by {
            assert(all[j] == (key, value));
        }
    } else {
        let ch = s[0];
        let t = s.drop_first();
        if ch == '\n' {
            lemma_map_segments_len(t, key, value, in_key, brace, bracket);
            let rest = map_segments(t, key, value, in_key, brace, bracket);
            assert(all == rest);
            assert forall|j: int| 0 <= j < all.len() implies (#[trigger] all[j]).1.len() <= value.len() + s.len() by {
                assert(all[j] == rest[j]);
            }
        } else if (ch == '=' || ch == ':') && in_key && brace == 0 && bracket == 0 {
            lemma_map_segments_len(t, key, value, false, brace, bracket);
            let rest = map_segments(t, key, value, false, brace, bracket);
            assert(all == rest);
            assert forall|j: int| 0 <= j < all.len() implies (#[trigger] all[j]).1.len() <= value.len() + s.len() by {
                assert(all[j] == rest[j]);
            }
        } else if ch == ',' && brace == 0 && bracket == 0 {
            lemma_map_segments_len(t, seq![], seq![], true, brace, bracket);
            let rest = map_segments(t, seq![], seq![], true, brace, bracket);
            let all = map_segments(s, key, value, in_key, brace, bracket);
            assert(all == seq![(key, value)] + rest);
            assert forall|j: int| 0 <= j < all.len() implies (#[trigger] all[j]).1.len() <= value.len() + s.len() by {
                if j > 0 {
                    assert(all[j] == rest[j - 1]);
                }
            }
        } else if in_key {
            lemma_map_segments_len(t, key.push(ch), value, in_key, brace_after(brace, ch), bracket_after(bracket, ch));
            let rest = map_segments(t, key.push(ch), value, in_key, brace_after(brace, ch), bracket_after(bracket, ch));
            assert(all == rest);
            assert forall|j: int| 0 <= j < all.len() implies (#[trigger] all[j]).1.len() <= value.len() + s.len() by {
                assert(all[j] == rest[j]);
            }
        } else {
            lemma_map_segments_len(t, key, value.push(ch), in_key, brace_after(brace, ch), bracket_after(bracket, ch));
            let rest = map_segments(t, key, value.push(ch), in_key, brace_after(brace, ch), bracket_after(bracket, ch));
            assert(all == rest);
            assert forall|j: int| 0 <= j < all.len() implies (#[trigger] all[j]).1.len() <= value.len() + s.len() by {
                assert(all[j] == rest[j]);
            }
        }
    }
}

/// The trimmed value text `t` reads without error: a scalar, or a document or an
/// array whose every piece reads without error.
pub open spec fn value_ok(t: Seq<char>) -> bool
    decreases t.len(),
    via value_ok_decreases
{
    if is_scalar(t) {
        true
    } else if is_wrapped(t, '{', '}') {
        forall|j: int|
            0 <= j < document_segments(t).len() ==> value_ok(trim(#[trigger] document_segments(t)[j].1))
    } else if is_wrapped(t, '[', ']') {
        forall|j: int|
            0 <= j < element_segments(t).len() ==> value_ok(trim(#[trigger] element_segments(t)[j]))
    } else {
        false
    }
}

#[via_fn]
proof fn value_ok_decreases(t: Seq<char>) {
    lemma_pieces_shorter(t);
}

/// Each trimmed piece of a document or array text is shorter than the text.
proof fn lemma_pieces_shorter(t: Seq<char>)
    ensures
        is_wrapped(t, '{', '}') ==> forall|j: int|
            0 <= j < document_segments(t).len() ==> trim(#[trigger] document_segments(t)[j].1).len()
                < t.len(),
        is_wrapped(t, '[', ']') ==> forall|j: int|
            0 <= j < element_segments(t).len() ==> trim(#[trigger] element_segments(t)[j]).len()
                < t.len(),
{
    if is_wrapped(t, '{', '}') {
        lemma_map_segments_len(t.subrange(1, t.len() - 1), seq![], seq![], true, 0, 0);
        assert forall|j: int| 0 <= j < document_segments(t).len() implies trim(
            #[trigger] document_segments(t)[j].1,
        ).len() < t.len() by {
            lemma_trim_len(document_segments(t)[j].1);
        }
    }
    if is_wrapped(t, '[', ']') {
        lemma_array_segments_len(t.subrange(1, t.len() - 1), seq![], 0, 0);
        assert forall|j: int| 0 <= j < element_segments(t).len() implies trim(
            #[trigger] element_segments(t)[j],
        ).len() < t.len() by {
            lemma_trim_len(element_segments(t)[j]);
        }
    }
}

/// The document text `t` reads without error: wrapped in braces, and every entry's
/// value reads without error.
pub open spec fn document_ok(t: Seq<char>) -> bool {
    is_wrapped(t, '{', '}') && forall|j: int|
        0 <= j < document_segments(t).len() ==> value_ok(trim(#[trigger] document_segments(t)[j].1))
}

/// What reading the document text `t` gave: a document with its entries.
pub open spec fn object_read(t: Seq<char>, r: Result<WsonValue, WsonParseError>) -> bool {
    r is Ok ==> r->Ok_0 is Object && r->Ok_0->Object_0.wf() && entries_match(
        r->Ok_0->Object_0,
        document_segments(t),
    )
}

/// What reading the array text `t` gave: each element classified from its piece.
pub open spec fn array_read(t: Seq<char>, r: Result<WsonValue, WsonParseError>) -> bool {
    let segs = element_segments(t);
    r is Ok ==> r->Ok_0 is Array && r->Ok_0->Array_0@.len() == segs.len() && forall|j: int|
        0 <= j < segs.len() ==> classifies_as(trim(#[trigger] segs[j]), r->Ok_0->Array_0@[j])
}

/// Classifies one value text (trimmed first); objects and arrays are read recursively.
fn parse_value(value: &Vec<char>, line: usize, column: usize) -> (r: Result<WsonValue, WsonParseError>)
    ensures
        r is Ok ==> classifies_as(trim(value@), r->Ok_0),
        r is Ok <==> value_ok(trim(value@)),
        !is_scalar(trim(value@)) && !is_wrapped(trim(value@), '{', '}') && !is_wrapped(
            trim(value@),
            '[',
            ']',
        ) ==> r is Err && r->Err_0.line == Some(line) && r->Err_0.column == Some(column)
            && r->Err_0.message@ == invalid_prefix() + trim(value@),
        r is Err ==> is_value_error(r->Err_0),
        r is Ok ==> deep_wf(r->Ok_0),
        !is_scalar(trim(value@)) && is_wrapped(trim(value@), '{', '}') ==> object_read(
            trim(value@),
            r,
        ),
        !is_scalar(trim(value@)) && !is_wrapped(trim(value@), '{', '}') && is_wrapped(
            trim(value@),
            '[',
            ']',
        ) ==> array_read(trim(value@), r),
    decreases value@.len(), 1int,
{
    let t = trim_chars(value);
    let n = t.len();
    proof {
        lemma_trim_len(value@);
        reveal_strlit("true");
        reveal_strlit("false");
        reveal_strlit("null");
        reveal_strlit("%Y-%m-%d");
        reveal_strlit("%Y-%m-%d %H:%M:%S");
        assert("true"@ =~= seq!['t', 'r', 'u', 'e']);
        assert("false"@ =~= seq!['f', 'a', 'l', 's', 'e']);
        assert("null"@ =~= seq!['n', 'u', 'l', 'l']);
        assert("%Y-%m-%d"@ =~= date_layout());
        assert("%Y-%m-%d %H:%M:%S"@ =~= date_time_layout());
    }
    if n == 0 {
        return Ok(WsonValue::Null);
    }
    if n >= 2 && t[0] == '"' && t[n - 1] == '"' {
        return Ok(WsonValue::String(string_of(&slice_chars(&t, 1, n - 1))));
    }
    if eq_ignore_case_chars(&t, 0, "true") {
        assert(t@.subrange(0, n as int) =~= t@);
        return Ok(WsonValue::Bool(true));
    }
    assert(t@.subrange(0, n as int) =~= t@);
    if eq_ignore_case_chars(&t, 0, "false") {
        return Ok(WsonValue::Bool(false));
    }
    if eq_ignore_case_chars(&t, 0, "null") {
        return Ok(WsonValue::Null);
    }
    let text = string_of(&t);
    if let Some(i) = parse_i64(text.as_str()) {
        return Ok(WsonValue::Int(i));
    }
    if is_version_text(&t) {
        if let Some(p) = version_of(&t) {
            return Ok(WsonValue::Version(p));
        }
    }
    if is_float_text(&t) {
        return Ok(WsonValue::Float(text));
    }
    if let Some(d) = render_date(text.as_str(), "%Y-%m-%d") {
        return Ok(WsonValue::Date(d));
    }
    if let Some(d) = render_date_time(text.as_str(), "%Y-%m-%d %H:%M:%S") {
        return Ok(WsonValue::DateTime(d));
    }
    proof {
        lemma_trim_idempotent(value@);
    }
    if t[0] == '{' && t[n - 1] == '}' {
        return match convert_chars(&t, line, column) {
            Ok(m) => {
                assert(deep_wf(WsonValue::Object(m)));
                Ok(WsonValue::Object(m))
            },
            Err(e) => Err(e),
        };
    }
    if t[0] == '[' && t[n - 1] == ']' {
        return match parse_array_chars(&t, line, column) {
            Ok(a) => {
                proof {
                    lemma_items_wf(a, a@.len() as int);
                }
                assert(deep_wf(WsonValue::Array(a)));
                Ok(WsonValue::Array(a))
            },
            Err(e) => Err(e),
        };
    }
    let msg = invalid_value_message(&text);
    assert(msg@.subrange(0, invalid_prefix().len() as int) =~= invalid_prefix());
    Err(WsonParseError::new(msg, Some(line), Some(column)))
}

/// The start of the error message for a value that no rule of the cascade accepts;
/// the value's text follows it.
pub open spec fn invalid_prefix() -> Seq<char> {
    seq!['I', 'n', 'v', 'a', 'l', 'i', 'd', ' ', 'v', 'a', 'l', 'u', 'e', ':', ' ']
}

/// An error for a value that no rule of the cascade accepts.
pub open spec fn is_value_error(e: WsonParseError) -> bool {
    e.message@.len() >= invalid_prefix().len() && e.message@.subrange(0, invalid_prefix().len() as int)
        == invalid_prefix()
}

/// The message for a value that no rule of the cascade accepts.
fn invalid_value_message(text: &String) -> (r: String)
    ensures
        r@ == invalid_prefix() + text@,
{
    let mut m = chars_of("Invalid value: ");
    let tc = chars_of(text.as_str());
    proof {
        reveal_strlit("Invalid value: ");
    }
    let ghost start = m@;
    let mut i: usize = 0;
    while i < tc.len()
        invariant
            i <= tc.len(),
            m@ == start + tc@.subrange(0, i as int),
        decreases tc.len() - i,
    {
        m.push(tc[i]);
        assert(m@ =~= start + tc@.subrange(0, i + 1));
        i += 1;
    }
    assert(tc@.subrange(0, tc.len() as int) =~= tc@);
    assert(start =~= seq!['I', 'n', 'v', 'a', 'l', 'i', 'd', ' ', 'v', 'a', 'l', 'u', 'e', ':', ' ']);
    string_of(&m)
}

/// Reads the elements of an array text that opens with `[` and closes with `]`.
fn parse_array_chars(a: &Vec<char>, line: usize, column: usize) -> (r: Result<Vec<WsonValue>, WsonParseError>)
    requires
        a@.len() >= 2,
    ensures
        r is Ok ==> r->Ok_0@.len() == element_segments(a@).len() && forall|j: int|
            0 <= j < element_segments(a@).len() ==> classifies_as(
                trim(#[trigger] element_segments(a@)[j]),
                r->Ok_0@[j],
            ),
        r is Ok <==> forall|j: int|
            0 <= j < element_segments(a@).len() ==> value_ok(trim(#[trigger] element_segments(a@)[j])),
        r is Err ==> is_value_error(r->Err_0),
        r is Ok ==> forall|j: int| 0 <= j < r->Ok_0@.len() ==> deep_wf(#[trigger] r->Ok_0@[j]),
    decreases a@.len(), 0int,
{
    let n = a.len();
    let mut items: Vec<WsonValue> = Vec::new();
    let mut current: Vec<char> = Vec::new();
    let mut brace: i64 = 0;
    let mut bracket: i64 = 0;
    let mut i: usize = 1;
    let ghost whole = array_segments(a@.subrange(1, n - 1), seq![], 0, 0);
    let ghost done: Seq<Seq<char>> = seq![];
    while i < n - 1
        invariant
            n == a.len() >= 2,
            1 <= i <= n - 1,
            current@.len() < i,
            whole == array_segments(a@.subrange(1, n - 1), seq![], 0, 0),
            whole == element_segments(a@),
            done + array_segments(a@.subrange(i as int, n - 1), current@, brace, bracket) == whole,
            items@.len() == done.len(),
            forall|j: int| 0 <= j < items@.len() ==> deep_wf(#[trigger] items@[j]),
            forall|j: int| 0 <= j < done.len() ==> classifies_as(trim(#[trigger] done[j]), items@[j]),
            forall|j: int| 0 <= j < done.len() ==> value_ok(trim(#[trigger] done[j])),
        decreases n - 1 - i,
    {
        let ch = a[i];
        assert(a@.subrange(i as int, n - 1).drop_first() =~= a@.subrange(i + 1, n - 1));
        if ch == ',' && brace == 0 && bracket == 0 {
            let ghost seg = current@;
            assert(whole == (done + seq![seg]) + array_segments(a@.subrange(i + 1, n - 1), seq![], brace, bracket));
            assert(whole[done.len() as int] == seg);
            match parse_value(&current, line, next_pos(column, i - 1)) {
                Ok(v) => items.push(v),
                Err(e) => {
                    assert(!value_ok(trim(element_segments(a@)[done.len() as int])));
                    return Err(e);
                },
            }
            proof {
                done = done + seq![seg];
            }
            current = Vec::new();
        } else {
            if ch == '{' {
                brace = step_depth(brace, true);
            } else if ch == '}' {
                brace = step_depth(brace, false);
            } else if ch == '[' {
                bracket = step_depth(bracket, true);
            } else if ch == ']' {
                bracket = step_depth(bracket, false);
            }
            current.push(ch);
        }
        i += 1;
    }
    assert(a@.subrange(i as int, n - 1).len() == 0);
    let rest = trim_chars(&current);
    if rest.len() > 0 {
        let ghost seg = current@;
        assert(whole == done + seq![seg]);
        assert(whole[done.len() as int] == seg);
        match parse_value(&current, line, next_pos(column, n - 2)) {
            Ok(v) => items.push(v),
            Err(e) => {
                assert(!value_ok(trim(element_segments(a@)[done.len() as int])));
                return Err(e);
            },
        }
    } else {
        assert(whole =~= done);
    }
    Ok(items)
}

/// Reads a document text: its entries, split at commas outside nested braces and
/// brackets, each split into key and value at its first `=` or `:` there.
fn convert_chars(s: &Vec<char>, start_line: usize, start_column: usize) -> (r: Result<WsonMap, WsonParseError>)
    ensures
        !is_wrapped(trim(s@), '{', '}') ==> r is Err && r->Err_0.line == Some(start_line)
            && r->Err_0.column == Some(start_column) && r->Err_0.message@ == brace_text(),
        is_wrapped(trim(s@), '{', '}') && r is Err ==> is_value_error(r->Err_0),
        r is Ok ==> r->Ok_0.wf() && entries_match(r->Ok_0, document_segments(trim(s@))),
        r is Ok ==> r->Ok_0.deep_wf(),
        r is Ok <==> document_ok(trim(s@)),
    decreases s@.len(), 0int,
{
    let content = trim_chars(s);
    proof {
        lemma_trim_len(s@);
    }
    let n = content.len();
    if n == 0 || content[0] != '{' || content[n - 1] != '}' {
        return Err(WsonParseError::new(brace_message(), Some(start_line), Some(start_column)));
    }
    let mut map = WsonMap::new();
    let mut key: Vec<char> = Vec::new();
    let mut value: Vec<char> = Vec::new();
    let mut in_key = true;
    let mut brace: i64 = 0;
    let mut bracket: i64 = 0;
    let mut line = start_line;
    let mut column = start_column;
    let mut i: usize = 1;
    let ghost whole = document_segments(content@);
    let ghost done: Seq<(Seq<char>, Seq<char>)> = seq![];
    proof {
        assert(map.contents() =~= Map::<Seq<char>, WsonValue>::empty());
    }
    while i < n - 1
        invariant
            n == content.len() >= 2,
            content@.len() <= s@.len(),
            content@ == trim(s@),
            content@[0] == '{',
            content@.last() == '}',
            1 <= i <= n - 1,
            key@.len() + value@.len() < i,
            map.wf(),
            map.deep_wf(),
            whole == document_segments(content@),
            done + map_segments(content@.subrange(i as int, n - 1), key@, value@, in_key, brace, bracket)
                == whole,
            entries_match(map, done),
            forall|j: int| 0 <= j < done.len() ==> value_ok(trim(#[trigger] done[j].1)),
        decreases n - 1 - i,
    {
        let ch = content[i];
        assert(content@.subrange(i as int, n - 1).drop_first() =~= content@.subrange(i + 1, n - 1));
        if ch == '\n' {
            line = next_pos(line, 1);
            column = 0;
        } else if (ch == '=' || ch == ':') && in_key && brace == 0 && bracket == 0 {
            in_key = false;
        } else if ch == ',' && brace == 0 && bracket == 0 {
            let ghost seg = (key@, value@);
            assert(whole == (done + seq![seg]) + map_segments(content@.subrange(i + 1, n - 1), seq![], seq![], true, brace, bracket));
            assert(whole[done.len() as int] == seg);
            let parsed = match parse_value(&value, line, next_pos(column, i - 1)) {
                Ok(v) => v,
                Err(e) => {
                    assert(!value_ok(trim(whole[done.len() as int].1)));
                    return Err(e);
                },
            };
            let ghost before = map;
            map.insert(string_of(&trim_chars(&key)), parsed);
            proof {
                lemma_entries_step(before, map, done, seg);
                done = done + seq![seg];
            }
            key = Vec::new();
            value = Vec::new();
            in_key = true;
        } else {
            if ch == '{' {
                brace = step_depth(brace, true);
            } else if ch == '}' {
                brace = step_depth(brace, false);
            } else if ch == '[' {
                bracket = step_depth(bracket, true);
            } else if ch == ']' {
                bracket = step_depth(bracket, false);
            }
            if in_key {
                key.push(ch);
            } else {
                value.push(ch);
            }
        }
        i += 1;
    }
    assert(content@.subrange(i as int, n - 1).len() == 0);
    let k = trim_chars(&key);
    if k.len() > 0 {
        let ghost seg = (key@, value@);
        assert(whole == done + seq![seg]);
        assert(whole[done.len() as int] == seg);
        let parsed = match parse_value(&value, line, next_pos(column, n - 2)) {
            Ok(v) => v,
            Err(e) => {
                assert(!value_ok(trim(whole[done.len() as int].1)));
                return Err(e);
            },
        };
        let ghost before = map;
        map.insert(string_of(&k), parsed);
        proof {
            lemma_entries_step(before, map, done, seg);
        }
    } else {
        assert(whole =~= done);
    }
    Ok(map)
}

proof fn lemma_entries_step(
    before: WsonMap,
    after: WsonMap,
    done: Seq<(Seq<char>, Seq<char>)>,
    seg: (Seq<char>, Seq<char>),
)
    requires
        entries_match(before, done),
        after.contents() == before.contents().insert(trim(seg.0), after.contents()[trim(seg.0)]),
        classifies_as(trim(seg.1), after.contents()[trim(seg.0)]),
    ensures
        entries_match(after, done + seq![seg]),
{
    let d2 = done + seq![seg];
    assert forall|q: Seq<char>| #[trigger] after.contents().dom().contains(q) <==> exists|j: int|
        0 <= j < d2.len() && trim(#[trigger] d2[j].0) == q by {
        if q == trim(seg.0) {
            assert(trim(d2[done.len() as int].0) == q);
        } else if after.contents().dom().contains(q) {
            let j = choose|j: int| 0 <= j < done.len() && trim(#[trigger] done[j].0) == q;
            assert(trim(d2[j].0) == q);
        } else if exists|j: int| 0 <= j < d2.len() && trim(#[trigger] d2[j].0) == q {
            let j = choose|j: int| 0 <= j < d2.len() && trim(#[trigger] d2[j].0) == q;
            assert(trim(done[j].0) == q);
        }
    }
    assert forall|j: int|
        0 <= j < d2.len() && last_with_key(d2, j) implies classifies_as(
            trim(#[trigger] d2[j].1),
            after.contents()[trim(d2[j].0)],
        ) by {
        if j < done.len() {
            assert(trim(d2[done.len() as int].0) != trim(d2[j].0));
            assert(last_with_key(done, j)) by {
                assert forall|j2: int| j < j2 < done.len() implies trim(#[trigger] done[j2].0) != trim(done[j].0) by {
                    assert(d2[j2] == done[j2]);
                }
            }
            assert(d2[j] == done[j]);
        }
    }
}

/// The text of the error for a document that is not wrapped in braces.
pub open spec fn brace_text() -> Seq<char> {
    "WSON format must start and end with curly braces."@
}

/// The message for a document that is not wrapped in braces.
fn brace_message() -> (r: String)
    ensures
        r@ == brace_text(),
{
    String::from_str("WSON format must start and end with curly braces.")
}

/// Reads a document text that starts at `start_line`, `start_column`.
pub fn convert_wson_to_map(wson_str: &str, start_line: usize, start_column: usize) -> (r: Result<
    WsonMap,
    WsonParseError,
>)
    ensures
        !is_wrapped(trim(wson_str@), '{', '}') ==> r is Err && r->Err_0.line == Some(start_line)
            && r->Err_0.column == Some(start_column),
        r is Ok ==> r->Ok_0.wf() && entries_match(r->Ok_0, document_segments(trim(wson_str@))),
        r is Ok ==> r->Ok_0.deep_wf(),
        r is Ok <==> document_ok(trim(wson_str@)),
        !is_wrapped(trim(wson_str@), '{', '}') ==> r is Err && r->Err_0.message@ == brace_text(),
        is_wrapped(trim(wson_str@), '{', '}') && r is Err ==> is_value_error(r->Err_0),
{
    convert_chars(&chars_of(wson_str), start_line, start_column)
}

/// Reads WSON text: comments are removed first, then the document is read.
pub fn parse_wson(input: &str) -> (r: Result<WsonMap, WsonParseError>)
    ensures
        !is_wrapped(trim(without_comments(input@, false)), '{', '}') ==> r is Err
            && r->Err_0.line == Some(1usize) && r->Err_0.column == Some(1usize),
        r is Ok ==> r->Ok_0.wf() && entries_match(
            r->Ok_0,
            document_segments(trim(without_comments(input@, false))),
        ),
        r is Ok ==> r->Ok_0.deep_wf(),
        r is Ok <==> document_ok(trim(without_comments(input@, false))),
        !is_wrapped(trim(without_comments(input@, false)), '{', '}') ==> r is Err
            && r->Err_0.message@ == brace_text(),
        is_wrapped(trim(without_comments(input@, false)), '{', '}') && r is Err ==> is_value_error(
            r->Err_0,
        ),
{
    let cleaned = remove_comments(input);
    convert_wson_to_map(cleaned.as_str(), 1, 1)
}

} // verus!
