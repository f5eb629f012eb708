use vstd::prelude::*;

verus! {

/// White space as `char::is_whitespace` knows it (the Unicode White_Space property).
pub open spec fn is_ws(c: char) -> bool {
    c == '\t' || c == '\n' || c == '\u{0B}' || c == '\u{0C}' || c == '\r' || c == ' '
        || c == '\u{85}' || c == '\u{A0}' || c == '\u{1680}' || ('\u{2000}' <= c && c
        <= '\u{200A}') || c == '\u{2028}' || c == '\u{2029}' || c == '\u{202F}' || c
        == '\u{205F}' || c == '\u{3000}'
}

pub fn is_ws_char(c: char) -> (r: bool)
    ensures
        r == is_ws(c),
{
    c == '\t' || c == '\n' || c == '\u{0B}' || c == '\u{0C}' || c == '\r' || c == ' '
        || c == '\u{85}' || c == '\u{A0}' || c == '\u{1680}' || ('\u{2000}' <= c && c
        <= '\u{200A}') || c == '\u{2028}' || c == '\u{2029}' || c == '\u{202F}' || c
        == '\u{205F}' || c == '\u{3000}'
}

pub open spec fn trim_start(s: Seq<char>) -> Seq<char>
    decreases s.len(),
{
    if s.len() > 0 && is_ws(s[0]) {
        trim_start(s.drop_first())
    } else {
        s
    }
}

pub open spec fn trim_end(s: Seq<char>) -> Seq<char>
    decreases s.len(),
{
    if s.len() > 0 && is_ws(s.last()) {
        trim_end(s.drop_last())
    } else {
        s
    }
}

/// The text without white space at either end.
pub open spec fn trim(s: Seq<char>) -> Seq<char> {
    trim_end(trim_start(s))
}

pub proof fn lemma_trim_end_len(s: Seq<char>)
    ensures
        trim_end(s).len() <= s.len(),
        trim_end(s) == s.subrange(0, trim_end(s).len() as int),
    decreases s.len(),
{
    if s.len() > 0 && is_ws(s.last()) {
        lemma_trim_end_len(s.drop_last());
        assert(s.drop_last().subrange(0, trim_end(s).len() as int) =~= s.subrange(
            0,
            trim_end(s).len() as int,
        ));
    } else {
        assert(s.subrange(0, s.len() as int) =~= s);
    }
}

pub proof fn lemma_trim_start_len(s: Seq<char>)
    ensures
        trim_start(s).len() <= s.len(),
        trim_start(s) == s.subrange(s.len() - trim_start(s).len(), s.len() as int),
    decreases s.len(),
{
    if s.len() > 0 && is_ws(s[0]) {
        lemma_trim_start_len(s.drop_first());
        let k = trim_start(s).len();
        assert(s.drop_first().subrange(s.drop_first().len() - k, s.drop_first().len() as int)
            =~= s.subrange(s.len() - k, s.len() as int));
    } else {
        assert(s.subrange(0, s.len() as int) =~= s);
    }
}

proof fn lemma_trim_start_first(s: Seq<char>)
    ensures
        trim_start(s).len() > 0 ==> !is_ws(trim_start(s)[0]),
    decreases s.len(),
{
    if s.len() > 0 && is_ws(s[0]) {
        lemma_trim_start_first(s.drop_first());
    }
}

proof fn lemma_trim_end_last(s: Seq<char>)
    ensures
        trim_end(s).len() > 0 ==> !is_ws(trim_end(s).last()),
    decreases s.len(),
{
    if s.len() > 0 && is_ws(s.last()) {
        lemma_trim_end_last(s.drop_last());
    }
}

/// Trimming twice is trimming once.
pub proof fn lemma_trim_idempotent(s: Seq<char>)
    ensures
        trim(trim(s)) == trim(s),
{
    let u = trim_start(s);
    let w = trim_end(u);
    lemma_trim_start_first(s);
    lemma_trim_end_last(u);
    lemma_trim_end_len(u);
    if w.len() > 0 {
        assert(w[0] == u[0]);
    }
    assert(trim_start(w) == w);
    assert(trim_end(w) == w);
}

pub proof fn lemma_trim_len(s: Seq<char>)
    ensures
        trim(s).len() <= s.len(),
{
    lemma_trim_start_len(s);
    lemma_trim_end_len(trim_start(s));
}

/// The characters of `s` from `lo` up to `hi`.
pub fn slice_chars(s: &Vec<char>, lo: usize, hi: usize) -> (r: Vec<char>)
    requires
        lo <= hi <= s.len(),
    ensures
        r@ == s@.subrange(lo as int, hi as int),
{
    let mut r: Vec<char> = Vec::new();
    let mut i: usize = lo;
    while i < hi
        invariant
            lo <= i <= hi <= s.len(),
            r@ == s@.subrange(lo as int, i as int),
        decreases hi - i,
    {
        r.push(s[i]);
        assert(r@ =~= s@.subrange(lo as int, i + 1));
        i += 1;
    }
    r
}

/// `s` without white space at either end.
pub fn trim_chars(s: &Vec<char>) -> (r: Vec<char>)
    ensures
        r@ == trim(s@),
{
    let n = s.len();
    let mut i: usize = 0;
    assert(s@.subrange(0, n as int) =~= s@);
    while i < n && is_ws_char(s[i])
        invariant
            i <= n == s.len(),
            trim_start(s@) == trim_start(s@.subrange(i as int, n as int)),
        decreases n - i,
    {
        assert(s@.subrange(i as int, n as int).drop_first() =~= s@.subrange(i + 1, n as int));
        i += 1;
    }
    assert(trim_start(s@) == s@.subrange(i as int, n as int));
    let mut j: usize = n;
    while j > i && is_ws_char(s[j - 1])
        invariant
            i <= j <= n == s.len(),
            trim(s@) == trim_end(s@.subrange(i as int, j as int)),
        decreases j,
    {
        assert(s@.subrange(i as int, j as int).drop_last() =~= s@.subrange(i as int, j - 1));
        j -= 1;
    }
    slice_chars(s, i, j)
}

/// Relies on `str::chars`: the characters of the text, in order.
#[verifier::external_body]
pub fn chars_of(s: &str) -> (r: Vec<char>)
    ensures
        r@ == s@,
{
    s.chars().collect()
}

/// Relies on `String`'s `FromIterator<char>`: the text made of these characters.
#[verifier::external_body]
pub fn string_of(v: &Vec<char>) -> (r: String)
    ensures
        r@ == v@,
{
    v.iter().collect()
}

pub open spec fn is_digit(c: char) -> bool {
    '0' <= c <= '9'
}

pub open spec fn all_digits(s: Seq<char>) -> bool {
    s.len() > 0 && forall|i: int| 0 <= i < s.len() ==> is_digit(#[trigger] s[i])
}

/// The number that a run of decimal digits writes.
pub open spec fn digits_value(s: Seq<char>) -> int
    decreases s.len(),
{
    if s.len() == 0 {
        0
    } else {
        digits_value(s.drop_last()) * 10 + (s.last() as int - '0' as int)
    }
}

/// The integer that `s` writes in decimal with an optional sign, if it writes one.
pub open spec fn int_literal(s: Seq<char>) -> Option<int> {
    if s.len() > 0 && s[0] == '-' && all_digits(s.drop_first()) {
        Some(-digits_value(s.drop_first()))
    } else if s.len() > 0 && s[0] == '+' && all_digits(s.drop_first()) {
        Some(digits_value(s.drop_first()))
    } else if all_digits(s) {
        Some(digits_value(s))
    } else {
        None
    }
}

/// What `s.parse::<i64>()` gives.
pub open spec fn i64_text(s: Seq<char>) -> Option<i64> {
    match int_literal(s) {
        Some(v) => if i64::MIN <= v <= i64::MAX {
            Some(v as i64)
        } else {
            None
        },
        None => None,
    }
}

/// What `s.parse::<u32>()` gives.
pub open spec fn u32_text(s: Seq<char>) -> Option<u32> {
    match int_literal(s) {
        Some(v) => if 0 <= v <= u32::MAX && !(s.len() > 0 && s[0] == '-') {
            Some(v as u32)
        } else {
            None
        },
        None => None,
    }
}

proof fn lemma_digits_value_nonneg(s: Seq<char>)
    requires
        digits_only(s),
    ensures
        digits_value(s) >= 0,
    decreases s.len(),
{
    if s.len() > 0 {
        assert(digits_only(s.drop_last())) by {
            assert forall|i: int| 0 <= i < s.drop_last().len() implies is_digit(
                #[trigger] s.drop_last()[i],
            ) by {
                assert(s.drop_last()[i] == s[i]);
            }
        }
        lemma_digits_value_nonneg(s.drop_last());
        assert(is_digit(s[s.len() - 1]));
    }
}

/// The number that the digits of `s` from `lo` up to `hi` write, if they are all
/// digits, there is at least one, and the number is at most `cap`.
fn digits_upto(s: &Vec<char>, lo: usize, hi: usize, cap: u64) -> (r: Option<u64>)
    requires
        lo <= hi <= s.len(),
    ensures
        r is Some <==> all_digits(s@.subrange(lo as int, hi as int)) && digits_value(
            s@.subrange(lo as int, hi as int),
        ) <= cap,
        r is Some ==> r->Some_0 as int == digits_value(s@.subrange(lo as int, hi as int)),
{
    if lo == hi {
        return None;
    }
    let mut acc: u128 = 0;
    let mut over = false;
    let mut i: usize = lo;
    assert(s@.subrange(lo as int, lo as int) =~= Seq::<char>::empty());
    while i < hi
        invariant
            lo <= i <= hi <= s.len(),
            digits_only(s@.subrange(lo as int, i as int)),
            !over ==> acc as int == digits_value(s@.subrange(lo as int, i as int)) && acc <= cap,
            over ==> digits_value(s@.subrange(lo as int, i as int)) > cap,
        decreases hi - i,
    {
        let c = s[i];
        if !('0' <= c && c <= '9') {
            assert(s@.subrange(lo as int, hi as int)[i - lo] == c);
            return None;
        }
        let ghost prev = s@.subrange(lo as int, i as int);
        let ghost next = s@.subrange(lo as int, i + 1);
        assert(next.drop_last() =~= prev);
        assert(next.last() == c);
        assert(digits_value(next) == digits_value(prev) * 10 + (c as int - '0' as int));
        assert(digits_only(next)) by {
            assert forall|j: int| 0 <= j < next.len() implies is_digit(#[trigger] next[j]) by {
                if j < prev.len() {
                    assert(next[j] == prev[j]);
                }
            }
        }
        proof {
            lemma_digits_value_nonneg(prev);
        }
        if !over {
            let d = (c as u32 - '0' as u32) as u128;
            acc = acc * 10 + d;
            if acc > cap as u128 {
                over = true;
            }
        }
        i += 1;
    }
    if over {
        None
    } else {
        Some(acc as u64)
    }
}

/// What `s.parse::<i64>()` gives, read digit by digit.
pub fn parse_i64(s: &str) -> (r: Option<i64>)
    ensures
        r == i64_text(s@),
{
    let c = chars_of(s);
    let n = c.len();
    if n > 0 && c[0] == '-' {
        assert(c@.subrange(1, n as int) =~= c@.drop_first());
        match digits_upto(&c, 1, n, 9223372036854775808u64) {
            Some(v) => Some((0i128 - v as i128) as i64),
            None => {
                assert(!all_digits(c@)) by {
                    assert(!is_digit(c@[0]));
                }
                None
            },
        }
    } else {
        let lo: usize = if n > 0 && c[0] == '+' {
            1
        } else {
            0
        };
        if lo == 1 {
            assert(c@.subrange(1, n as int) =~= c@.drop_first());
            assert(!all_digits(c@)) by {
                assert(!is_digit(c@[0]));
            }
        } else {
            assert(c@.subrange(0, n as int) =~= c@);
        }
        match digits_upto(&c, lo, n, 9223372036854775807u64) {
            Some(v) => Some(v as i64),
            None => None,
        }
    }
}

/// What `s.parse::<u32>()` gives, read digit by digit.
pub fn parse_u32(s: &str) -> (r: Option<u32>)
    ensures
        r == u32_text(s@),
{
    let c = chars_of(s);
    let n = c.len();
    if n > 0 && c[0] == '-' {
        return None;
    }
    let lo: usize = if n > 0 && c[0] == '+' {
        1
    } else {
        0
    };
    if lo == 1 {
        assert(c@.subrange(1, n as int) =~= c@.drop_first());
        assert(!all_digits(c@)) by {
            assert(!is_digit(c@[0]));
        }
    } else {
        assert(c@.subrange(0, n as int) =~= c@);
    }
    match digits_upto(&c, lo, n, 4294967295u64) {
        Some(v) => {
            proof {
                lemma_digits_value_nonneg(c@.subrange(lo as int, n as int));
            }
            Some(v as u32)
        },
        None => None,
    }
}

/// `c` is `w`, or the upper-case ASCII letter of the lower-case `w`.
pub open spec fn same_letter(c: char, w: char) -> bool {
    c == w || ('A' <= c <= 'Z' && c as u32 + 32 == w as u32)
}

pub fn same_letter_char(c: char, w: char) -> (r: bool)
    ensures
        r == same_letter(c, w),
{
    c == w || ('A' <= c && c <= 'Z' && c as u32 + 32 == w as u32)
}

/// `s` equals the lower-case word `w` when ASCII case is ignored.
pub open spec fn eq_ignore_case(s: Seq<char>, w: Seq<char>) -> bool {
    s.len() == w.len() && forall|i: int| 0 <= i < s.len() ==> same_letter(#[trigger] s[i], w[i])
}

pub fn eq_ignore_case_chars(s: &Vec<char>, lo: usize, w: &str) -> (r: bool)
    requires
        lo <= s.len(),
    ensures
        r == eq_ignore_case(s@.subrange(lo as int, s.len() as int), w@),
{
    let wc = chars_of(w);
    if s.len() - lo != wc.len() {
        return false;
    }
    let mut i: usize = 0;
    while i < wc.len()
        invariant
            s.len() - lo == wc.len(),
            wc@ == w@,
            i <= wc.len(),
            forall|j: int| 0 <= j < i ==> same_letter(s@[lo + j], wc@[j]),
        decreases wc.len() - i,
    {
        assert(s@.subrange(lo as int, s.len() as int)[i as int] == s@[lo + i]);
        if !same_letter_char(s[lo + i], wc[i]) {
            assert(s@.subrange(lo as int, s.len() as int)[i as int] == s@[lo + i]);
            return false;
        }
        i += 1;
    }
    assert forall|j: int| 0 <= j < wc.len() implies same_letter(
        #[trigger] s@.subrange(lo as int, s.len() as int)[j],
        w@[j],
    ) by {
        assert(s@.subrange(lo as int, s.len() as int)[j] == s@[lo + j]);
    }
    true
}

/// Position of the first `a` or `b` in `s`, or its length if there is none.
pub open spec fn first_of(s: Seq<char>, a: char, b: char) -> int
    decreases s.len(),
{
    if s.len() == 0 {
        0
    } else if s[0] == a || s[0] == b {
        0
    } else {
        1 + first_of(s.drop_first(), a, b)
    }
}

pub proof fn lemma_first_of_range(s: Seq<char>, a: char, b: char)
    ensures
        0 <= first_of(s, a, b) <= s.len(),
        first_of(s, a, b) < s.len() ==> (s[first_of(s, a, b)] == a || s[first_of(s, a, b)]
            == b),
        forall|j: int| 0 <= j < first_of(s, a, b) ==> s[j] != a && s[j] != b,
    decreases s.len(),
{
    if s.len() > 0 && !(s[0] == a || s[0] == b) {
        lemma_first_of_range(s.drop_first(), a, b);
        assert forall|j: int| 0 <= j < first_of(s, a, b) implies s[j] != a && s[j] != b by {
            if j > 0 {
                assert(s[j] == s.drop_first()[j - 1]);
            }
        }
    }
}

/// Index of the first `a` or `b` in `s` from `lo` up to `hi`, or `hi`.
pub fn find_either(s: &Vec<char>, lo: usize, hi: usize, a: char, b: char) -> (r: usize)
    requires
        lo <= hi <= s.len(),
    ensures
        r as int == lo + first_of(s@.subrange(lo as int, hi as int), a, b),
        lo <= r <= hi,
{
    let mut i: usize = lo;
    while i < hi && s[i] != a && s[i] != b
        invariant
            lo <= i <= hi <= s.len(),
            first_of(s@.subrange(lo as int, hi as int), a, b) == (i - lo) + first_of(
                s@.subrange(i as int, hi as int),
                a,
                b,
            ),
        decreases hi - i,
    {
        assert(s@.subrange(i as int, hi as int).drop_first() =~= s@.subrange(i + 1, hi as int));
        i += 1;
    }
    proof {
        lemma_first_of_range(s@.subrange(i as int, hi as int), a, b);
    }
    i
}

/// Every character of `s` is a decimal digit (`s` may be empty).
pub open spec fn digits_only(s: Seq<char>) -> bool {
    forall|i: int| 0 <= i < s.len() ==> is_digit(#[trigger] s[i])
}

pub fn digits_only_chars(s: &Vec<char>, lo: usize, hi: usize) -> (r: bool)
    requires
        lo <= hi <= s.len(),
    ensures
        r == digits_only(s@.subrange(lo as int, hi as int)),
{
    let mut i: usize = lo;
    while i < hi
        invariant
            lo <= i <= hi <= s.len(),
            digits_only(s@.subrange(lo as int, i as int)),
        decreases hi - i,
    {
        if !('0' <= s[i] && s[i] <= '9') {
            assert(s@.subrange(lo as int, hi as int)[i - lo] == s@[i as int]);
            return false;
        }
        assert(s@.subrange(lo as int, i + 1) =~= s@.subrange(lo as int, i as int).push(s@[i as int]));
        i += 1;
    }
    true
}

/// The part before an exponent: digits with at most one `.`, and a digit somewhere.
pub open spec fn float_mantissa(m: Seq<char>) -> bool {
    let d = first_of(m, '.', '.');
    if d == m.len() {
        m.len() > 0 && digits_only(m)
    } else {
        m.len() > 1 && digits_only(m.subrange(0, d)) && digits_only(m.subrange(d + 1, m.len() as int))
    }
}

/// An exponent: `e` or `E`, an optional sign, one or more digits.
pub open spec fn float_exponent(e: Seq<char>) -> bool {
    e.len() >= 2 && (e[0] == 'e' || e[0] == 'E') && if e[1] == '+' || e[1] == '-' {
        e.len() >= 3 && digits_only(e.subrange(2, e.len() as int))
    } else {
        digits_only(e.subrange(1, e.len() as int))
    }
}

/// The grammar that `f64`'s `FromStr` accepts: an optional sign, then `inf`,
/// `infinity` or `nan` in any case, or a decimal number with an optional exponent.
pub open spec fn float_syntax(s: Seq<char>) -> bool {
    let b = if s.len() > 0 && (s[0] == '+' || s[0] == '-') {
        s.drop_first()
    } else {
        s
    };
    let k = first_of(b, 'e', 'E');
    eq_ignore_case(b, seq!['i', 'n', 'f']) || eq_ignore_case(
        b,
        seq!['i', 'n', 'f', 'i', 'n', 'i', 't', 'y'],
    ) || eq_ignore_case(b, seq!['n', 'a', 'n']) || (float_mantissa(b.subrange(0, k)) && (k
        == b.len() || float_exponent(b.subrange(k, b.len() as int))))
}

fn float_mantissa_at(s: &Vec<char>, lo: usize, hi: usize) -> (r: bool)
    requires
        lo <= hi <= s.len(),
    ensures
        r == float_mantissa(s@.subrange(lo as int, hi as int)),
{
    let ghost m = s@.subrange(lo as int, hi as int);
    let d = find_either(s, lo, hi, '.', '.');
    if d == hi {
        hi > lo && digits_only_chars(s, lo, hi)
    } else {
        assert(m.subrange(0, d - lo) =~= s@.subrange(lo as int, d as int));
        assert(m.subrange(d - lo + 1, m.len() as int) =~= s@.subrange(d + 1, hi as int));
        hi - lo > 1 && digits_only_chars(s, lo, d) && digits_only_chars(s, d + 1, hi)
    }
}

fn float_exponent_at(s: &Vec<char>, lo: usize, hi: usize) -> (r: bool)
    requires
        lo <= hi <= s.len(),
    ensures
        r == float_exponent(s@.subrange(lo as int, hi as int)),
{
    let ghost e = s@.subrange(lo as int, hi as int);
    if hi - lo < 2 || !(s[lo] == 'e' || s[lo] == 'E') {
        return false;
    }
    if s[lo + 1] == '+' || s[lo + 1] == '-' {
        assert(e.subrange(2, e.len() as int) =~= s@.subrange(lo + 2, hi as int));
        hi - lo >= 3 && digits_only_chars(s, lo + 2, hi)
    } else {
        assert(e.subrange(1, e.len() as int) =~= s@.subrange(lo + 1, hi as int));
        digits_only_chars(s, lo + 1, hi)
    }
}

/// Whether `s` is a float literal.
pub fn is_float_text(s: &Vec<char>) -> (r: bool)
    ensures
        r == float_syntax(s@),
{
    let n = s.len();
    let lo: usize = if n > 0 && (s[0] == '+' || s[0] == '-') {
        1
    } else {
        0
    };
    let ghost b = s@.subrange(lo as int, n as int);
    assert(b == if s@.len() > 0 && (s@[0] == '+' || s@[0] == '-') {
        s@.drop_first()
    } else {
        s@
    }) by {
        if lo == 1 {
            assert(b =~= s@.drop_first());
        } else {
            assert(b =~= s@);
        }
    }
    proof {
        reveal_strlit("inf");
        reveal_strlit("infinity");
        reveal_strlit("nan");
        assert("inf"@ =~= seq!['i', 'n', 'f']);
        assert("infinity"@ =~= seq!['i', 'n', 'f', 'i', 'n', 'i', 't', 'y']);
        assert("nan"@ =~= seq!['n', 'a', 'n']);
    }
    if eq_ignore_case_chars(s, lo, "inf") || eq_ignore_case_chars(s, lo, "infinity")
        || eq_ignore_case_chars(s, lo, "nan") {
        return true;
    }
    let k = find_either(s, lo, n, 'e', 'E');
    assert(s@.subrange(lo as int, k as int) =~= b.subrange(0, k - lo));
    assert(s@.subrange(k as int, n as int) =~= b.subrange(k - lo, b.len() as int));
    float_mantissa_at(s, lo, k) && (k == n || float_exponent_at(s, k, n))
}

/// The canonical text of the calendar date that `s` writes in the layout `fmt`.
pub uninterp spec fn date_rendering(s: Seq<char>, fmt: Seq<char>) -> Option<Seq<char>>;

/// Relies on `chrono::NaiveDate::parse_from_str` and the date's `Display`: the
/// date read from `s` in the layout `fmt`, if it is a valid calendar date, written
/// back in chrono's canonical form (`YYYY-MM-DD` for years 0 to 9999).
#[verifier::external_body]
pub fn render_date(s: &str, fmt: &str) -> (r: Option<String>)
    ensures
        r is Some <==> date_rendering(s@, fmt@) is Some,
        r is Some ==> r->Some_0@ == date_rendering(s@, fmt@)->Some_0,
{
    chrono::NaiveDate::parse_from_str(s, fmt).ok().map(|d| d.to_string())
}

/// The canonical text of the date and time that `s` writes in the layout `fmt`.
pub uninterp spec fn date_time_rendering(s: Seq<char>, fmt: Seq<char>) -> Option<Seq<char>>;

/// Relies on `chrono::NaiveDateTime::parse_from_str` and its `Display`: the date
/// and time read from `s` in the layout `fmt`, if valid, written back in chrono's
/// canonical form (`YYYY-MM-DD HH:MM:SS` for whole seconds).
#[verifier::external_body]
pub fn render_date_time(s: &str, fmt: &str) -> (r: Option<String>)
    ensures
        r is Some <==> date_time_rendering(s@, fmt@) is Some,
        r is Some ==> r->Some_0@ == date_time_rendering(s@, fmt@)->Some_0,
{
    chrono::NaiveDateTime::parse_from_str(s, fmt).ok().map(|d| d.to_string())
}

} // verus!
