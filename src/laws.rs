use vstd::prelude::*;

use crate::comments::{
    cut_blocks, cut_line_comment, find_pair, lemma_find_pair_range, strip_line, without_comments,
};
use crate::parser::{classifies_as, is_quoted, is_version, version_parts, version_parts_from};
use crate::serializer::{decimal, decimal_digits, digit_char, value_text};
use crate::text::{
    all_digits, digits_value, eq_ignore_case, first_of, i64_text, int_literal, is_ws,
    lemma_first_of_range, same_letter, trim, trim_end, trim_start,
};
use crate::value::WsonValue;

verus! {

/// `s` holds no `c`.
pub open spec fn lacks(s: Seq<char>, c: char) -> bool {
    forall|i: int| 0 <= i < s.len() ==> s[i] != c
}

/// `s` is empty or its last character is neither `/` nor `*`.
pub open spec fn open_end(s: Seq<char>) -> bool {
    s.len() == 0 || (s.last() != '/' && s.last() != '*')
}

/// Empty, or ending with a newline: text made of whole lines.
pub open spec fn whole_lines(p: Seq<char>) -> bool {
    p.len() == 0 || p.last() == '\n'
}

/// Whether a block comment is open after the lines of `p`, given the state before.
pub open spec fn block_after(p: Seq<char>, b: bool) -> bool
    decreases p.len(),
{
    let nl = first_of(p, '\n', '\n');
    if p.len() == 0 || !(0 <= nl <= p.len()) {
        b
    } else {
        let rest = if nl < p.len() {
            p.subrange(nl + 1, p.len() as int)
        } else {
            seq![]
        };
        block_after(rest, strip_line(p.subrange(0, nl), b).1)
    }
}

proof fn lemma_find_pair_concat(x: Seq<char>, y: Seq<char>, a: char, b: char)
    ensures
        find_pair(x, a, b) + 2 <= x.len() ==> find_pair(x + y, a, b) == find_pair(x, a, b),
        find_pair(x, a, b) + 2 > x.len() && !(x.len() >= 1 && y.len() >= 1 && x.last() == a
            && y[0] == b) ==> find_pair(x + y, a, b) == x.len() + find_pair(y, a, b),
    decreases x.len(),
{
    if x.len() == 0 {
        assert(x + y =~= y);
    } else if x.len() == 1 {
        assert((x + y).drop_first() =~= y);
    } else {
        assert((x + y).drop_first() =~= x.drop_first() + y);
        lemma_find_pair_concat(x.drop_first(), y, a, b);
    }
}

proof fn lemma_find_pair_without(c: Seq<char>, a: char, b: char)
    requires
        lacks(c, '*'),
        a == '*' || b == '*',
    ensures
        find_pair(c, a, b) == c.len(),
    decreases c.len(),
{
    if c.len() >= 2 {
        lemma_find_pair_without(c.drop_first(), a, b);
    }
}

proof fn lemma_first_of_concat(x: Seq<char>, y: Seq<char>, a: char)
    ensures
        first_of(x + y, a, a) == if first_of(x, a, a) < x.len() {
            first_of(x, a, a)
        } else {
            x.len() + first_of(y, a, a)
        },
    decreases x.len(),
{
    lemma_first_of_range(x, a, a);
    if x.len() == 0 {
        assert(x + y =~= y);
    } else {
        assert((x + y).drop_first() =~= x.drop_first() + y);
        lemma_first_of_concat(x.drop_first(), y, a);
    }
}

proof fn lemma_first_of_lacks(x: Seq<char>, a: char)
    requires
        lacks(x, a),
    ensures
        first_of(x, a, a) == x.len(),
{
    lemma_first_of_range(x, a, a);
}

proof fn lemma_cut_blocks_append(x: Seq<char>, c: Seq<char>)
    requires
        lacks(c, '*'),
        open_end(x),
    ensures
        cut_blocks(x + c) == if cut_blocks(x).1 {
            cut_blocks(x)
        } else {
            (cut_blocks(x).0 + c, false)
        },
        !cut_blocks(x).1 ==> open_end(cut_blocks(x).0),
        lacks(x, '#') ==> lacks(cut_blocks(x).0, '#'),
    decreases x.len(),
{
    lemma_find_pair_concat(x, c, '/', '*');
    lemma_find_pair_without(c, '/', '*');
    lemma_find_pair_without(c, '*', '/');
    lemma_find_pair_range(x, '/', '*');
    let st = find_pair(x, '/', '*');
    if st + 2 <= x.len() {
        let rest = x.subrange(st + 2, x.len() as int);
        assert((x + c).subrange(st + 2, (x + c).len() as int) =~= rest + c);
        lemma_find_pair_concat(rest, c, '*', '/');
        lemma_find_pair_range(rest, '*', '/');
        let e = find_pair(rest, '*', '/');
        if e + 2 <= rest.len() {
            let tail = rest.subrange(e + 2, rest.len() as int);
            let x2 = x.subrange(0, st) + tail;
            assert((rest + c).subrange(e + 2, (rest + c).len() as int) =~= tail + c);
            assert((x + c).subrange(0, st) =~= x.subrange(0, st));
            assert(x.subrange(0, st) + (tail + c) =~= x2 + c);
            if tail.len() == 0 {
                assert(x.last() == rest[e + 1]);
            } else {
                assert(x2.last() == x.last());
            }
            assert(lacks(x, '#') ==> lacks(x2, '#')) by {
                if lacks(x, '#') {
                    assert forall|i: int| 0 <= i < x2.len() implies x2[i] != '#' by {
                        if i < st {
                            assert(x2[i] == x[i]);
                        } else {
                            assert(x2[i] == x[i - st + st + 2 + e + 2]);
                        }
                    }
                }
            }
            lemma_cut_blocks_append(x2, c);
        } else {
            assert(find_pair(rest + c, '*', '/') == rest.len() + c.len()) by {
                if rest.len() >= 1 {
                    assert(rest.last() == x.last());
                }
            }
            assert((x + c).subrange(0, st) =~= x.subrange(0, st));
            assert(lacks(x, '#') ==> lacks(x.subrange(0, st), '#')) by {
                if lacks(x, '#') {
                    assert forall|i: int| 0 <= i < st implies x.subrange(0, st)[i] != '#' by {
                        assert(x.subrange(0, st)[i] == x[i]);
                    }
                }
            }
        }
    } else {
        assert(find_pair(x + c, '/', '*') == (x + c).len());
    }
}

proof fn lemma_cut_line_append(y: Seq<char>, c: Seq<char>)
    requires
        lacks(y, '#'),
        y.len() == 0 || y.last() != '/',
        c.len() >= 2 && c[0] == '/' && c[1] == '/',
    ensures
        cut_line_comment(y + c) == cut_line_comment(y),
        cut_line_comment(y) == y.subrange(0, if find_pair(y, '/', '/') + 2 <= y.len() {
            find_pair(y, '/', '/')
        } else {
            y.len() as int
        }),
{
    lemma_find_pair_concat(y, c, '/', '/');
    lemma_find_pair_range(y, '/', '/');
    lemma_first_of_lacks(y, '#');
    let i = find_pair(y, '/', '/');
    if i + 2 <= y.len() {
        assert((y + c).subrange(0, i) =~= y.subrange(0, i));
    } else {
        assert(find_pair(y + c, '/', '/') == y.len());
        assert((y + c).subrange(0, y.len() as int) =~= y);
        assert(y.subrange(0, y.len() as int) =~= y);
    }
}

proof fn lemma_strip_line_append(x: Seq<char>, c: Seq<char>, b: bool)
    requires
        lacks(x, '#'),
        open_end(x),
        lacks(c, '*'),
        c.len() >= 2 && c[0] == '/' && c[1] == '/',
    ensures
        strip_line(x + c, b) == strip_line(x, b),
{
    if b {
        lemma_find_pair_concat(x, c, '*', '/');
        lemma_find_pair_without(c, '*', '/');
        lemma_find_pair_range(x, '*', '/');
        let e = find_pair(x, '*', '/');
        if e + 2 <= x.len() {
            let t = x.subrange(e + 2, x.len() as int);
            assert((x + c).subrange(e + 2, (x + c).len() as int) =~= t + c);
            if t.len() > 0 {
                assert(t.last() == x.last());
            }
            assert(lacks(t, '#')) by {
                assert forall|i: int| 0 <= i < t.len() implies t[i] != '#' by {
                    assert(t[i] == x[i + e + 2]);
                }
            }
            lemma_cut_blocks_append(t, c);
            if !cut_blocks(t).1 {
                lemma_cut_line_append(cut_blocks(t).0, c);
            }
        }
    } else {
        lemma_cut_blocks_append(x, c);
        if !cut_blocks(x).1 {
            lemma_cut_line_append(cut_blocks(x).0, c);
        }
    }
}

proof fn lemma_without_comments_split(p: Seq<char>, z: Seq<char>, b: bool)
    requires
        whole_lines(p),
    ensures
        without_comments(p + z, b) == without_comments(p, b) + without_comments(z, block_after(p, b)),
    decreases p.len(),
{
    if p.len() == 0 {
        assert(p + z =~= z);
    } else {
        lemma_first_of_range(p, '\n', '\n');
        lemma_first_of_concat(p, z, '\n');
        let nl = first_of(p, '\n', '\n');
        assert(nl < p.len());
        let rest = p.subrange(nl + 1, p.len() as int);
        assert((p + z).subrange(0, nl) =~= p.subrange(0, nl));
        assert((p + z).subrange(nl + 1, (p + z).len() as int) =~= rest + z);
        if rest.len() > 0 {
            assert(rest.last() == p.last());
        }
        lemma_without_comments_split(rest, z, strip_line(p.subrange(0, nl), b).1);
        let out = trim_end(strip_line(p.subrange(0, nl), b).0);
        let head = if out.len() > 0 {
            out.push('\n')
        } else {
            seq![]
        };
        assert(head + (without_comments(rest, strip_line(p.subrange(0, nl), b).1) + without_comments(
            z,
            block_after(p, b),
        )) =~= (head + without_comments(rest, strip_line(p.subrange(0, nl), b).1)) + without_comments(
            z,
            block_after(p, b),
        ));
    }
}

proof fn lemma_line_append(l: Seq<char>, c: Seq<char>, r: Seq<char>, b: bool)
    requires
        lacks(l, '#'),
        lacks(l, '\n'),
        open_end(l),
        lacks(c, '*'),
        lacks(c, '\n'),
        c.len() >= 2 && c[0] == '/' && c[1] == '/',
        r.len() == 0 || r[0] == '\n',
    ensures
        without_comments(l + c + r, b) == without_comments(l + r, b),
{
    lemma_strip_line_append(l, c, b);
    let s1 = l + c + r;
    let s2 = l + r;
    lemma_first_of_lacks(l, '\n');
    lemma_first_of_lacks(c, '\n');
    lemma_first_of_concat(l, c, '\n');
    lemma_first_of_concat(l + c, r, '\n');
    lemma_first_of_concat(l, r, '\n');
    lemma_first_of_range(r, '\n', '\n');
    assert(first_of(r, '\n', '\n') == 0);
    let n1 = first_of(s1, '\n', '\n');
    assert(n1 == l.len() + c.len());
    assert(s1.subrange(0, n1) =~= l + c);
    let rest1 = if n1 < s1.len() {
        s1.subrange(n1 + 1, s1.len() as int)
    } else {
        seq![]
    };
    let rest = if r.len() > 0 {
        r.drop_first()
    } else {
        seq![]
    };
    assert(rest1 =~= rest);
    if s2.len() == 0 {
        let e = Seq::<char>::empty();
        assert(l =~= e);
        assert(find_pair(e, '/', '*') == 0);
        assert(find_pair(e, '*', '/') == 0);
        assert(find_pair(e, '/', '/') == 0);
        assert(first_of(e, '#', '#') == 0);
        assert(cut_blocks(e) == (e, false));
        assert(cut_line_comment(e) =~= e);
        assert(strip_line(e, b).0 =~= e);
        assert(trim_end(e) == e);
        assert(s1.subrange(0, n1) =~= l + c);
        assert(strip_line(s1.subrange(0, n1), b) == strip_line(e, b));
        assert(without_comments(seq![], strip_line(e, b).1) == e);
        assert(without_comments(s1, b) =~= e);
        assert(without_comments(s2, b) == e);
    } else {
        let n2 = first_of(s2, '\n', '\n');
        assert(n2 == l.len());
        assert(s2.subrange(0, n2) =~= l);
        let rest2 = if n2 < s2.len() {
            s2.subrange(n2 + 1, s2.len() as int)
        } else {
            seq![]
        };
        assert(rest2 =~= rest);
        assert(strip_line(s1.subrange(0, n1), b) == strip_line(s2.subrange(0, n2), b));
        assert(without_comments(s1, b) == without_comments(s2, b));
    }
}

/// Adding a `//` comment at the end of a line leaves the comment-free text, which is
/// all that reading a document looks at, unchanged: `p` is the lines before (empty or
/// ending with a newline), `l` the line, `r` what follows it (empty or starting with a
/// newline). The line must hold no `#` and not end with `/` or `*`, and the comment
/// no `*`: otherwise the `//` would meet the line's own markers.
pub proof fn line_comment_transparent(p: Seq<char>, l: Seq<char>, c: Seq<char>, r: Seq<char>)
    requires
        whole_lines(p),
        lacks(l, '\n'),
        lacks(l, '#'),
        open_end(l),
        c.len() >= 2 && c[0] == '/' && c[1] == '/',
        lacks(c, '*'),
        lacks(c, '\n'),
        r.len() == 0 || r[0] == '\n',
    ensures
        without_comments(p + l + c + r, false) == without_comments(p + l + r, false),
{
    assert(p + l + c + r =~= p + (l + c + r));
    assert(p + l + r =~= p + (l + r));
    lemma_without_comments_split(p, l + c + r, false);
    lemma_without_comments_split(p, l + r, false);
    lemma_line_append(l, c, r, block_after(p, false));
}

proof fn lemma_decimal_digits(n: nat)
    ensures
        all_digits(decimal_digits(n)),
        digits_value(decimal_digits(n)) == n,
    decreases n,
{
    let d = decimal_digits(n);
    if n < 10 {
        assert(d.drop_last() =~= Seq::<char>::empty());
        assert(digit_char(n as int) as int == '0' as int + n);
        assert(digits_value(Seq::<char>::empty()) == 0);
        assert(digits_value(d) == digits_value(d.drop_last()) * 10 + (d.last() as int - '0' as int));
    } else {
        lemma_decimal_digits(n / 10);
        let q = decimal_digits(n / 10);
        assert(d.drop_last() =~= q);
        assert(digit_char(n as int % 10) as int == '0' as int + n % 10);
        assert((n / 10) * 10 + n % 10 == n) by (nonlinear_arith);
        assert(d.last() == digit_char(n as int % 10));
        assert(digits_value(d) == digits_value(q) * 10 + (d.last() as int - '0' as int));
        assert forall|i: int| 0 <= i < d.len() implies crate::text::is_digit(#[trigger] d[i]) by {
            if i < q.len() {
                assert(d[i] == q[i]);
            }
        }
    }
}

/// Text with no white space at either end is its own trim.
proof fn lemma_trim_plain(t: Seq<char>)
    requires
        t.len() > 0,
        !is_ws(t[0]),
        !is_ws(t.last()),
    ensures
        trim(t) == t,
{
    assert(trim_start(t) == t);
}

proof fn lemma_int_reads_back(i: i64)
    ensures
        classifies_as(trim(decimal(i as int)), WsonValue::Int(i)),
{
    let t = decimal(i as int);
    if i < 0 {
        let n = (-(i as int)) as nat;
        lemma_decimal_digits(n);
        assert(t.drop_first() =~= decimal_digits(n));
        assert(int_literal(t) == Some(i as int));
        assert(t.last() == decimal_digits(n).last());
    } else {
        lemma_decimal_digits(i as nat);
        assert(crate::text::is_digit(t[0]));
        assert(int_literal(t) == Some(i as int));
    }
    assert(crate::text::is_digit(t.last()));
    lemma_trim_plain(t);
    assert(i64_text(t) == Some(i));
    assert(!is_quoted(t));
    assert(!same_letter(t[0], 't') && !same_letter(t[0], 'f') && !same_letter(t[0], 'n'));
    assert(!eq_ignore_case(t, seq!['t', 'r', 'u', 'e']));
    assert(!eq_ignore_case(t, seq!['f', 'a', 'l', 's', 'e']));
    assert(!eq_ignore_case(t, seq!['n', 'u', 'l', 'l']));
}

/// Reading back the text that a null, a boolean, an integer or a string is written as
/// gives that value again: the part of a document's round trip that each such value
/// plays. (A string's text is read back whole, whatever it holds, when it stands alone.)
pub proof fn scalar_reads_back(v: WsonValue, ind: Seq<char>)
    requires
        v is Null || v is Bool || v is Int || v is String,
    ensures
        classifies_as(trim(value_text(v, ind)), v),
{
    let t = value_text(v, ind);
    match v {
        WsonValue::Int(i) => {
            lemma_int_reads_back(i);
        },
        WsonValue::String(s) => {
            lemma_trim_plain(t);
            assert(t.subrange(1, t.len() - 1) =~= s@);
        },
        WsonValue::Bool(b) => {
            lemma_trim_plain(t);
            assert(!same_letter(t[0], 't') || b);
            if b {
                assert(eq_ignore_case(t, seq!['t', 'r', 'u', 'e']));
            } else {
                assert(!same_letter(t[0], 't'));
                assert(eq_ignore_case(t, seq!['f', 'a', 'l', 's', 'e']));
            }
        },
        _ => {
            lemma_trim_plain(t);
            assert(!same_letter(t[0], 't') && !same_letter(t[0], 'f'));
            assert(eq_ignore_case(t, seq!['n', 'u', 'l', 'l']));
        },
    }
}

/// How many dots `t` holds.
pub open spec fn dot_count(t: Seq<char>) -> nat
    decreases t.len(),
{
    if t.len() == 0 {
        0
    } else {
        (if t[0] == '.' {
            1nat
        } else {
            0nat
        }) + dot_count(t.drop_first())
    }
}

proof fn lemma_parts_count(t: Seq<char>, cur: Seq<char>)
    requires
        version_parts_from(t, cur) is Some,
    ensures
        version_parts_from(t, cur)->Some_0.len() == 1 + dot_count(t),
    decreases t.len(),
{
    if t.len() > 0 {
        if t[0] == '.' {
            lemma_parts_count(t.drop_first(), seq![]);
        } else {
            lemma_parts_count(t.drop_first(), cur.push(t[0]));
        }
    }
}

proof fn lemma_dot_count_pos(t: Seq<char>, i: int)
    requires
        0 <= i < t.len(),
        t[i] == '.',
    ensures
        dot_count(t) >= 1,
    decreases t.len(),
{
    if i > 0 {
        lemma_dot_count_pos(t.drop_first(), i - 1);
    }
}

/// A version read from text has one component for each run of digits between dots,
/// so at least two.
pub proof fn version_components(t: Seq<char>)
    requires
        is_version(t),
    ensures
        version_parts(t)->Some_0.len() == 1 + dot_count(t),
        version_parts(t)->Some_0.len() >= 2,
{
    lemma_parts_count(t, seq![]);
    let i = choose|i: int| 0 <= i < t.len() && #[trigger] t[i] == '.';
    lemma_dot_count_pos(t, i);
}

} // verus!
