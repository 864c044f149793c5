//! The line-level shape of the text format: breaking text into lines,
//! discarding comments, trimming whitespace, and splitting a line at its
//! first `:` or first blank.  Each operation is defined once as a
//! specification function over character sequences; the executable scanners
//! work on index ranges into one shared character vector and are proved to
//! land exactly where the specification functions say.

use vstd::prelude::*;
use vstd::string::StrSliceExecFns;

verus! {

/// Horizontal whitespace (and a stray carriage return) inside a line.
pub open spec fn is_space(c: char) -> bool {
    c == ' ' || c == '\t' || c == '\r'
}

/// A character allowed in a declaration key.
pub open spec fn is_key_char(c: char) -> bool {
    ('a' <= c && c <= 'z') || c == '_'
}

/// A character allowed in a declaration value.
pub open spec fn is_value_char(c: char) -> bool {
    ('a' <= c && c <= 'z') || ('A' <= c && c <= 'Z') || ('0' <= c && c <= '9')
}

/// The first line of `s` (without its newline) and everything after it.
pub open spec fn line_split(s: Seq<char>) -> (Seq<char>, Seq<char>)
    decreases s.len(),
{
    if s.len() == 0 {
        (Seq::<char>::empty(), Seq::<char>::empty())
    } else if s[0] == '\n' {
        (Seq::<char>::empty(), s.drop_first())
    } else {
        let r = line_split(s.drop_first());
        (seq![s[0]] + r.0, r.1)
    }
}

/// What remains after the first line is strictly shorter than the text.
pub proof fn lemma_line_split_shrinks(s: Seq<char>)
    requires
        s.len() > 0,
    ensures
        line_split(s).1.len() < s.len(),
    decreases s.len(),
{
    if s[0] != '\n' {
        if s.drop_first().len() > 0 {
            lemma_line_split_shrinks(s.drop_first());
        } else {
            assert(line_split(s.drop_first()).1 =~= Seq::<char>::empty());
        }
    }
}

/// Scanning to the newline at `b` splits the text there.
pub proof fn lemma_line_split_at(s: Seq<char>, b: int)
    requires
        0 <= b <= s.len(),
        forall|i: int| 0 <= i < b ==> s[i] != '\n',
        b == s.len() || s[b] == '\n',
    ensures
        line_split(s).0 == s.take(b),
        line_split(s).1 == if b == s.len() {
            Seq::<char>::empty()
        } else {
            s.subrange(b + 1, s.len() as int)
        },
    decreases b,
{
    if b == 0 {
        if s.len() == 0 {
            assert(line_split(s).0 =~= s.take(0));
        } else {
            assert(s[0] == '\n');
            assert(line_split(s).0 =~= s.take(0));
            assert(line_split(s).1 =~= s.subrange(1, s.len() as int));
        }
    } else {
        assert(s[0] != '\n');
        let l2 = s.drop_first();
        lemma_line_split_at(l2, b - 1);
        assert(seq![s[0]] + l2.take(b - 1) =~= s.take(b));
        if b < s.len() {
            assert(l2.subrange(b, l2.len() as int) =~= s.subrange(b + 1, s.len() as int));
        }
    }
}

/// The line up to its first `//`, or the whole line without one.
pub open spec fn strip_comment(l: Seq<char>) -> Seq<char>
    decreases l.len(),
{
    if l.len() >= 2 && l[0] == '/' && l[1] == '/' {
        Seq::<char>::empty()
    } else if l.len() == 0 {
        l
    } else {
        seq![l[0]] + strip_comment(l.drop_first())
    }
}

/// With no `//` anywhere, nothing is stripped.
pub proof fn lemma_strip_comment_none(l: Seq<char>)
    requires
        forall|i: int| 0 <= i && i + 1 < l.len() ==> !(#[trigger] l[i] == '/' && l[i + 1] == '/'),
    ensures
        strip_comment(l) == l,
    decreases l.len(),
{
    if l.len() > 0 {
        lemma_strip_comment_none(l.drop_first());
        assert(seq![l[0]] + l.drop_first() =~= l);
    }
}

/// With the first `//` at `j`, exactly the prefix before it remains.
pub proof fn lemma_strip_comment_at(l: Seq<char>, j: int)
    requires
        0 <= j,
        j + 1 < l.len(),
        l[j] == '/',
        l[j + 1] == '/',
        forall|i: int| 0 <= i < j ==> !(#[trigger] l[i] == '/' && l[i + 1] == '/'),
    ensures
        strip_comment(l) == l.take(j),
    decreases j,
{
    if j == 0 {
        assert(strip_comment(l) =~= l.take(0));
    } else {
        lemma_strip_comment_at(l.drop_first(), j - 1);
        assert(seq![l[0]] + l.drop_first().take(j - 1) =~= l.take(j));
    }
}

/// The line without its leading whitespace.
pub open spec fn trim_start(l: Seq<char>) -> Seq<char>
    decreases l.len(),
{
    if l.len() > 0 && is_space(l[0]) {
        trim_start(l.drop_first())
    } else {
        l
    }
}

/// The line without its trailing whitespace.
pub open spec fn trim_end(l: Seq<char>) -> Seq<char>
    decreases l.len(),
{
    if l.len() > 0 && is_space(l.last()) {
        trim_end(l.drop_last())
    } else {
        l
    }
}

/// The line without leading and trailing whitespace.
pub open spec fn trim(l: Seq<char>) -> Seq<char> {
    trim_end(trim_start(l))
}

/// Leading whitespace ends exactly at the first non-blank position.
pub proof fn lemma_trim_start_at(l: Seq<char>, lo: int)
    requires
        0 <= lo <= l.len(),
        forall|i: int| 0 <= i < lo ==> is_space(#[trigger] l[i]),
        lo == l.len() || !is_space(l[lo]),
    ensures
        trim_start(l) == l.subrange(lo, l.len() as int),
    decreases lo,
{
    if lo == 0 {
        assert(l.subrange(0, l.len() as int) =~= l);
    } else {
        lemma_trim_start_at(l.drop_first(), lo - 1);
        assert(l.drop_first().subrange(lo - 1, l.drop_first().len() as int) =~= l.subrange(
            lo,
            l.len() as int,
        ));
    }
}

/// Trailing whitespace starts exactly after the last non-blank position.
pub proof fn lemma_trim_end_at(l: Seq<char>, hi: int)
    requires
        0 <= hi <= l.len(),
        forall|i: int| hi <= i < l.len() ==> is_space(#[trigger] l[i]),
        hi == 0 || !is_space(l[hi - 1]),
    ensures
        trim_end(l) == l.take(hi),
    decreases l.len() - hi,
{
    if hi == l.len() {
        assert(l.take(hi) =~= l);
    } else {
        lemma_trim_end_at(l.drop_last(), hi);
        assert(l.drop_last().take(hi) =~= l.take(hi));
    }
}

/// A trimmed-from-the-front line starts with a non-blank, if anything.
proof fn lemma_trim_start_head(l: Seq<char>)
    ensures
        trim_start(l).len() > 0 ==> !is_space(trim_start(l)[0]),
    decreases l.len(),
{
    if l.len() > 0 && is_space(l[0]) {
        lemma_trim_start_head(l.drop_first());
    }
}

/// A trimmed-from-the-back line ends with a non-blank, if anything, and
/// keeps its first character.
proof fn lemma_trim_end_shape(l: Seq<char>)
    ensures
        trim_end(l).len() > 0 ==> !is_space(trim_end(l).last()),
        trim_end(l).len() > 0 ==> trim_end(l)[0] == l[0],
    decreases l.len(),
{
    if l.len() > 0 && is_space(l.last()) {
        lemma_trim_end_shape(l.drop_last());
    }
}

/// A non-empty trimmed line neither starts nor ends with a blank.
pub proof fn lemma_trim_bounds(l: Seq<char>)
    ensures
        trim(l).len() > 0 ==> !is_space(trim(l)[0]),
        trim(l).len() > 0 ==> !is_space(trim(l).last()),
{
    lemma_trim_start_head(l);
    lemma_trim_end_shape(trim_start(l));
}

/// The pieces before and after the first `:`, if the line has one.
pub open spec fn split_at_colon(l: Seq<char>) -> Option<(Seq<char>, Seq<char>)>
    decreases l.len(),
{
    if l.len() == 0 {
        None
    } else if l[0] == ':' {
        Some((Seq::<char>::empty(), l.drop_first()))
    } else {
        match split_at_colon(l.drop_first()) {
            None => None,
            Some((a, b)) => Some((seq![l[0]] + a, b)),
        }
    }
}

/// With no `:` anywhere, there is no split.
pub proof fn lemma_split_at_colon_none(l: Seq<char>)
    requires
        forall|i: int| 0 <= i < l.len() ==> l[i] != ':',
    ensures
        split_at_colon(l) is None,
    decreases l.len(),
{
    if l.len() > 0 {
        lemma_split_at_colon_none(l.drop_first());
    }
}

/// With the first `:` at `c`, the split falls exactly there.
pub proof fn lemma_split_at_colon_at(l: Seq<char>, c: int)
    requires
        0 <= c < l.len(),
        l[c] == ':',
        forall|i: int| 0 <= i < c ==> l[i] != ':',
    ensures
        split_at_colon(l) == Some((l.take(c), l.subrange(c + 1, l.len() as int))),
    decreases c,
{
    if c == 0 {
        assert(l.take(0) =~= Seq::<char>::empty());
        assert(l.drop_first() =~= l.subrange(1, l.len() as int));
    } else {
        lemma_split_at_colon_at(l.drop_first(), c - 1);
        assert(seq![l[0]] + l.drop_first().take(c - 1) =~= l.take(c));
        assert(l.drop_first().subrange(c, l.drop_first().len() as int) =~= l.subrange(
            c + 1,
            l.len() as int,
        ));
    }
}

/// The pieces before and after the first blank, if the line has one.
pub open spec fn split_at_space(l: Seq<char>) -> Option<(Seq<char>, Seq<char>)>
    decreases l.len(),
{
    if l.len() == 0 {
        None
    } else if is_space(l[0]) {
        Some((Seq::<char>::empty(), l.drop_first()))
    } else {
        match split_at_space(l.drop_first()) {
            None => None,
            Some((a, b)) => Some((seq![l[0]] + a, b)),
        }
    }
}

/// With no blank anywhere, there is no split.
pub proof fn lemma_split_at_space_none(l: Seq<char>)
    requires
        forall|i: int| 0 <= i < l.len() ==> !is_space(#[trigger] l[i]),
    ensures
        split_at_space(l) is None,
    decreases l.len(),
{
    if l.len() > 0 {
        lemma_split_at_space_none(l.drop_first());
    }
}

/// With the first blank at `c`, the split falls exactly there.
pub proof fn lemma_split_at_space_at(l: Seq<char>, c: int)
    requires
        0 <= c < l.len(),
        is_space(l[c]),
        forall|i: int| 0 <= i < c ==> !is_space(#[trigger] l[i]),
    ensures
        split_at_space(l) == Some((l.take(c), l.subrange(c + 1, l.len() as int))),
    decreases c,
{
    if c == 0 {
        assert(l.take(0) =~= Seq::<char>::empty());
        assert(l.drop_first() =~= l.subrange(1, l.len() as int));
    } else {
        lemma_split_at_space_at(l.drop_first(), c - 1);
        assert(seq![l[0]] + l.drop_first().take(c - 1) =~= l.take(c));
        assert(l.drop_first().subrange(c, l.drop_first().len() as int) =~= l.subrange(
            c + 1,
            l.len() as int,
        ));
    }
}

/// The characters of `s`, one by one.
pub fn chars_of(s: &str) -> (v: Vec<char>)
    ensures
        v@ == s@,
{
    let n = s.unicode_len();
    let mut v: Vec<char> = Vec::new();
    let mut i: usize = 0;
    while i < n
        invariant
            n == s@.len(),
            0 <= i <= n,
            v@ == s@.take(i as int),
        decreases n - i,
    {
        let c = s.get_char(i);
        v.push(c);
        proof {
            assert(v@ =~= s@.take(i + 1));
        }
        i = i + 1;
    }
    proof {
        assert(s@.take(n as int) =~= s@);
    }
    v
}

/// Whether `c` counts as horizontal whitespace.
fn space_char(c: char) -> (b: bool)
    ensures
        b == is_space(c),
{
    c == ' ' || c == '\t' || c == '\r'
}

/// The position of the first newline at or after `pos`, or the text length.
pub fn find_line_end(chars: &Vec<char>, pos: usize) -> (e: usize)
    requires
        pos <= chars@.len(),
    ensures
        pos <= e <= chars@.len(),
        forall|i: int| pos <= i < e ==> chars@[i] != '\n',
        e < chars@.len() ==> chars@[e as int] == '\n',
{
    let n = chars.len();
    let mut e = pos;
    while e < n
        invariant
            pos <= e <= n,
            n == chars@.len(),
            forall|i: int| pos <= i < e ==> chars@[i] != '\n',
        decreases n - e,
    {
        if chars[e] == '\n' {
            return e;
        }
        e = e + 1;
    }
    e
}

/// The position of the first `//` within `[lo, hi)`, or `hi`.
pub fn find_comment(chars: &Vec<char>, lo: usize, hi: usize) -> (c: usize)
    requires
        lo <= hi <= chars@.len(),
    ensures
        lo <= c <= hi,
        forall|i: int|
            lo <= i < c && i + 1 < hi ==> !(#[trigger] chars@[i] == '/' && chars@[i + 1] == '/'),
        c < hi ==> c + 1 < hi && chars@[c as int] == '/' && chars@[c as int + 1] == '/',
{
    let mut c = lo;
    while hi - c > 1
        invariant
            lo <= c <= hi,
            hi <= chars@.len(),
            forall|i: int|
                lo <= i < c && i + 1 < hi ==> !(#[trigger] chars@[i] == '/' && chars@[i + 1]
                    == '/'),
        decreases hi - c,
    {
        if chars[c] == '/' && chars[c + 1] == '/' {
            return c;
        }
        c = c + 1;
    }
    hi
}

/// The position of the first non-blank within `[lo, hi)`, or `hi`.
pub fn find_nonspace(chars: &Vec<char>, lo: usize, hi: usize) -> (c: usize)
    requires
        lo <= hi <= chars@.len(),
    ensures
        lo <= c <= hi,
        forall|i: int| lo <= i < c ==> is_space(#[trigger] chars@[i]),
        c < hi ==> !is_space(chars@[c as int]),
{
    let mut c = lo;
    while c < hi
        invariant
            lo <= c <= hi,
            hi <= chars@.len(),
            forall|i: int| lo <= i < c ==> is_space(#[trigger] chars@[i]),
        decreases hi - c,
    {
        if !space_char(chars[c]) {
            return c;
        }
        c = c + 1;
    }
    hi
}

/// The position after the last non-blank within `[lo, hi)`, or `lo`.
fn find_nonspace_back(chars: &Vec<char>, lo: usize, hi: usize) -> (c: usize)
    requires
        lo <= hi <= chars@.len(),
    ensures
        lo <= c <= hi,
        forall|i: int| c <= i < hi ==> is_space(#[trigger] chars@[i]),
        c > lo ==> !is_space(chars@[c as int - 1]),
{
    let mut c = hi;
    while c > lo
        invariant
            lo <= c <= hi,
            hi <= chars@.len(),
            forall|i: int| c <= i < hi ==> is_space(#[trigger] chars@[i]),
        decreases c - lo,
    {
        if !space_char(chars[c - 1]) {
            return c;
        }
        c = c - 1;
    }
    lo
}

/// The bounds of the line once whitespace is trimmed on both sides.
pub fn trim_range(chars: &Vec<char>, lo: usize, hi: usize) -> (r: (usize, usize))
    requires
        lo <= hi <= chars@.len(),
    ensures
        lo <= r.0 <= r.1 <= hi,
        trim(chars@.subrange(lo as int, hi as int)) == chars@.subrange(r.0 as int, r.1 as int),
{
    let ghost l = chars@.subrange(lo as int, hi as int);
    let a = find_nonspace(chars, lo, hi);
    proof {
        assert(forall|i: int| 0 <= i < a - lo ==> is_space(#[trigger] l[i]));
        if a < hi {
            assert(!is_space(l[a - lo]));
        }
        lemma_trim_start_at(l, a - lo);
    }
    let ghost l1 = l.subrange(a - lo, l.len() as int);
    let b = if a == hi {
        hi
    } else {
        find_nonspace_back(chars, a, hi)
    };
    proof {
        assert(l1 =~= chars@.subrange(a as int, hi as int));
        assert(forall|i: int| b - a <= i < l1.len() ==> is_space(#[trigger] l1[i]));
        if b > a {
            assert(!is_space(l1[b - a - 1]));
        }
        lemma_trim_end_at(l1, b - a);
        assert(l1.take(b - a) =~= chars@.subrange(a as int, b as int));
    }
    (a, b)
}

/// The position of the first `:` within `[lo, hi)`, or `hi`.
pub fn find_colon(chars: &Vec<char>, lo: usize, hi: usize) -> (c: usize)
    requires
        lo <= hi <= chars@.len(),
    ensures
        lo <= c <= hi,
        forall|i: int| lo <= i < c ==> chars@[i] != ':',
        c < hi ==> chars@[c as int] == ':',
{
    let mut c = lo;
    while c < hi
        invariant
            lo <= c <= hi,
            hi <= chars@.len(),
            forall|i: int| lo <= i < c ==> chars@[i] != ':',
        decreases hi - c,
    {
        if chars[c] == ':' {
            return c;
        }
        c = c + 1;
    }
    hi
}

/// The position of the first blank within `[lo, hi)`, or `hi`.
pub fn find_space(chars: &Vec<char>, lo: usize, hi: usize) -> (c: usize)
    requires
        lo <= hi <= chars@.len(),
    ensures
        lo <= c <= hi,
        forall|i: int| lo <= i < c ==> !is_space(#[trigger] chars@[i]),
        c < hi ==> is_space(chars@[c as int]),
{
    let mut c = lo;
    while c < hi
        invariant
            lo <= c <= hi,
            hi <= chars@.len(),
            forall|i: int| lo <= i < c ==> !is_space(#[trigger] chars@[i]),
        decreases hi - c,
    {
        if space_char(chars[c]) {
            return c;
        }
        c = c + 1;
    }
    hi
}

} // verus!
