use vstd::prelude::*;

use crate::text::{chars_of, find_either, first_of, is_ws_char, lemma_first_of_range, slice_chars, string_of, trim_end};

verus! {

/// Position of the first `a` followed by `b` in `s`, or its length if there is none.
pub open spec fn find_pair(s: Seq<char>, a: char, b: char) -> int
    decreases s.len(),
{
    if s.len() < 2 {
        s.len() as int
    } else if s[0] == a && s[1] == b {
        0
    } else {
        1 + find_pair(s.drop_first(), a, b)
    }
}

/// A line with each `/* ... */` that closes on it cut out; a `/*` that does not
/// close cuts the rest of the line and opens a block comment (the `bool`).
pub open spec fn cut_blocks(line: Seq<char>) -> (Seq<char>, bool)
    decreases line.len(),
{
    let st = find_pair(line, '/', '*');
    if !(0 <= st && st + 2 <= line.len()) {
        (line, false)
    } else {
        let rest = line.subrange(st + 2, line.len() as int);
        let e = find_pair(rest, '*', '/');
        if !(0 <= e && e + 2 <= rest.len()) {
            (line.subrange(0, st), true)
        } else {
            cut_blocks(line.subrange(0, st) + rest.subrange(e + 2, rest.len() as int))
        }
    }
}

/// A line cut at its first `//`, or else at its first `#`.
pub open spec fn cut_line_comment(l: Seq<char>) -> Seq<char> {
    let i = find_pair(l, '/', '/');
    let h = first_of(l, '#', '#');
    if 0 <= i && i + 2 <= l.len() {
        l.subrange(0, i)
    } else if 0 <= h < l.len() {
        l.subrange(0, h)
    } else {
        l
    }
}

/// A line with its comments gone, given whether a block comment is open before it;
/// also whether one is open after it.
pub open spec fn strip_line(line: Seq<char>, in_block: bool) -> (Seq<char>, bool) {
    if in_block {
        let e = find_pair(line, '*', '/');
        if 0 <= e && e + 2 <= line.len() {
            let r = cut_blocks(line.subrange(e + 2, line.len() as int));
            (cut_line_comment(r.0), r.1)
        } else {
            (seq![], true)
        }
    } else {
        let r = cut_blocks(line);
        (cut_line_comment(r.0), r.1)
    }
}

/// The text with its comments gone: each line stripped and right-trimmed, lines
/// left empty dropped, each kept line ended by a newline.
pub open spec fn without_comments(s: Seq<char>, in_block: bool) -> Seq<char>
    decreases s.len(),
{
    let nl = first_of(s, '\n', '\n');
    if s.len() == 0 || !(0 <= nl <= s.len()) {
        seq![]
    } else {
        let line = s.subrange(0, nl);
        let rest = if nl < s.len() {
            s.subrange(nl + 1, s.len() as int)
        } else {
            seq![]
        };
        let r = strip_line(line, in_block);
        let out = trim_end(r.0);
        (if out.len() > 0 {
            out.push('\n')
        } else {
            seq![]
        }) + without_comments(rest, r.1)
    }
}

pub proof fn lemma_find_pair_range(s: Seq<char>, a: char, b: char)
    ensures
        0 <= find_pair(s, a, b) <= s.len(),
        find_pair(s, a, b) + 2 <= s.len() ==> s[find_pair(s, a, b)] == a && s[find_pair(s, a, b) + 1] == b,
    decreases s.len(),
{
    if s.len() >= 2 && !(s[0] == a && s[1] == b) {
        lemma_find_pair_range(s.drop_first(), a, b);
    }
}

/// Index of the first `a` followed by `b` in `s` from `lo` up to `hi`, or `hi`.
fn find_pair_at(s: &Vec<char>, lo: usize, hi: usize, a: char, b: char) -> (r: usize)
    requires
        lo <= hi <= s.len(),
    ensures
        r as int == lo + find_pair(s@.subrange(lo as int, hi as int), a, b),
        lo <= r <= hi,
{
    let mut i: usize = lo;
    while hi - i >= 2 && !(s[i] == a && s[i + 1] == b)
        invariant
            lo <= i <= hi <= s.len(),
            find_pair(s@.subrange(lo as int, hi as int), a, b) == (i - lo) + find_pair(
                s@.subrange(i as int, hi as int),
                a,
                b,
            ),
        decreases hi - i,
    {
        assert(s@.subrange(i as int, hi as int).drop_first() =~= s@.subrange(i + 1, hi as int));
        i += 1;
    }
    if hi - i >= 2 {
        i
    } else {
        hi
    }
}

fn concat(a: &Vec<char>, b: &Vec<char>) -> (r: Vec<char>)
    ensures
        r@ == a@ + b@,
{
    let mut r = slice_chars(a, 0, a.len());
    assert(r@ =~= a@);
    let mut i: usize = 0;
    while i < b.len()
        invariant
            i <= b.len(),
            r@ == a@ + b@.subrange(0, i as int),
        decreases b.len() - i,
    {
        r.push(b[i]);
        assert(r@ =~= a@ + b@.subrange(0, i + 1));
        i += 1;
    }
    assert(b@.subrange(0, b.len() as int) =~= b@);
    r
}

fn cut_blocks_chars(line: Vec<char>) -> (r: (Vec<char>, bool))
    ensures
        (r.0@, r.1) == cut_blocks(line@),
{
    let mut cur = line;
    loop
        invariant
            cut_blocks(cur@) == cut_blocks(line@),
        decreases cur@.len(),
    {
        let n = cur.len();
        let st = find_pair_at(&cur, 0, n, '/', '*');
        assert(cur@.subrange(0, n as int) =~= cur@);
        if n - st < 2 {
            return (cur, false);
        }
        let e = find_pair_at(&cur, st + 2, n, '*', '/');
        if n - e < 2 {
            return (slice_chars(&cur, 0, st), true);
        }
        let ghost rest = cur@.subrange(st + 2, n as int);
        assert(rest.subrange(e - st, rest.len() as int) =~= cur@.subrange(e + 2, n as int));
        cur = concat(&slice_chars(&cur, 0, st), &slice_chars(&cur, e + 2, n));
    }
}

fn cut_line_comment_chars(l: Vec<char>) -> (r: Vec<char>)
    ensures
        r@ == cut_line_comment(l@),
{
    let n = l.len();
    let i = find_pair_at(&l, 0, n, '/', '/');
    let h = find_either(&l, 0, n, '#', '#');
    assert(l@.subrange(0, n as int) =~= l@);
    if n - i >= 2 {
        slice_chars(&l, 0, i)
    } else if h < n {
        slice_chars(&l, 0, h)
    } else {
        l
    }
}

fn trim_end_chars(s: &Vec<char>) -> (r: Vec<char>)
    ensures
        r@ == trim_end(s@),
{
    let mut j: usize = s.len();
    assert(s@.subrange(0, j as int) =~= s@);
    while j > 0 && is_ws_char(s[j - 1])
        invariant
            j <= s.len(),
            trim_end(s@) == trim_end(s@.subrange(0, j as int)),
        decreases j,
    {
        assert(s@.subrange(0, j as int).drop_last() =~= s@.subrange(0, j - 1));
        j -= 1;
    }
    slice_chars(s, 0, j)
}

/// Removes `//` and `#` line comments and `/* ... */` block comments, which may
/// span lines; drops the lines left blank and trims the others at the end.
pub fn remove_comments(input: &str) -> (r: String)
    ensures
        r@ == without_comments(input@, false),
{
    let s = chars_of(input);
    let n = s.len();
    let mut out: Vec<char> = Vec::new();
    let mut in_block = false;
    let mut pos: usize = 0;
    assert(s@.subrange(0, n as int) =~= s@);
    while pos < n
        invariant
            n == s.len(),
            pos <= n,
            s@ == input@,
            out@ + without_comments(s@.subrange(pos as int, n as int), in_block) == without_comments(
                input@,
                false,
            ),
        decreases n - pos,
    {
        let ghost t = s@.subrange(pos as int, n as int);
        let ghost was = in_block;
        let nl = find_either(&s, pos, n, '\n', '\n');
        let line = slice_chars(&s, pos, nl);
        assert(line@ =~= t.subrange(0, nl - pos));
        let ghost lv = line@;
        let next = if nl < n {
            nl + 1
        } else {
            n
        };
        assert(s@.subrange(next as int, n as int) =~= if nl < n {
            t.subrange(nl - pos + 1, t.len() as int)
        } else {
            seq![]
        });
        let (kept, open) = if in_block {
            let e = find_pair_at(&line, 0, line.len(), '*', '/');
            assert(line@.subrange(0, line.len() as int) =~= line@);
            if line.len() - e >= 2 {
                let (b, o) = cut_blocks_chars(slice_chars(&line, e + 2, line.len()));
                let c = cut_line_comment_chars(b);
                assert((c@, o) == strip_line(line@, true));
                (c, o)
            } else {
                let c: Vec<char> = Vec::new();
                assert((c@, true) == strip_line(line@, true));
                (c, true)
            }
        } else {
            let ghost l = line@;
            let (b, o) = cut_blocks_chars(line);
            let c = cut_line_comment_chars(b);
            assert((c@, o) == strip_line(l, false));
            (c, o)
        };
        assert((kept@, open) == strip_line(line@, was));
        let trimmed = trim_end_chars(&kept);
        let ghost before = out@;
        if trimmed.len() > 0 {
            let mut j: usize = 0;
            while j < trimmed.len()
                invariant
                    j <= trimmed.len(),
                    out@ == before + trimmed@.subrange(0, j as int),
                decreases trimmed.len() - j,
            {
                out.push(trimmed[j]);
                assert(out@ =~= before + trimmed@.subrange(0, j + 1));
                j += 1;
            }
            out.push('\n');
            assert(trimmed@.subrange(0, trimmed.len() as int) =~= trimmed@);
            assert(out@ =~= before + trimmed@.push('\n'));
        }
        in_block = open;
        pos = next;
        proof {
            lemma_first_of_range(t, '\n', '\n');
            assert((kept@, open) == strip_line(lv, was));
            assert(out@ + without_comments(s@.subrange(pos as int, n as int), in_block) =~= before
                + without_comments(t, was));
        }
    }
    string_of(&out)
}

} // verus!
