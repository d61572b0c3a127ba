//! Character classes and sequence-level text operations.
//!
//! Every contract in the crate speaks of text as `Seq<char>`. This module
//! defines the handful of text operations the formatter is built from
//! (whitespace trimming, line splitting) as spec functions, and provides
//! executable counterparts over `Vec<char>` that are proved against them.

use vstd::prelude::*;

verus! {

/// `String::push` appends one character at the end of the string and leaves
/// what was there before untouched.
pub assume_specification[ String::push ](s: &mut String, c: char)
    ensures
        final(s)@ == old(s)@.push(c),
;

/// The characters with the Unicode `White_Space` property: the ones that
/// trimming removes.
pub open spec fn is_ws(c: char) -> bool {
    let n = c as u32;
    (0x09 <= n && n <= 0x0D) || n == 0x20 || n == 0x85 || n == 0xA0 || n == 0x1680 || (0x2000 <= n
        && n <= 0x200A) || n == 0x2028 || n == 0x2029 || n == 0x202F || n == 0x205F || n == 0x3000
}

/// ASCII decimal digit.
pub open spec fn is_digit(c: char) -> bool {
    '0' <= c && c <= '9'
}

/// `s` without its trailing whitespace.
pub open spec fn trim_end(s: Seq<char>) -> Seq<char>
    decreases s.len(),
{
    if s.len() > 0 && is_ws(s.last()) {
        trim_end(s.drop_last())
    } else {
        s
    }
}

/// `s` without its leading whitespace.
pub open spec fn trim_start(s: Seq<char>) -> Seq<char>
    decreases s.len(),
{
    if s.len() > 0 && is_ws(s.first()) {
        trim_start(s.drop_first())
    } else {
        s
    }
}

/// `s` without leading and trailing whitespace.
pub open spec fn trim(s: Seq<char>) -> Seq<char> {
    trim_start(trim_end(s))
}

/// A text that consists of whitespace only.
pub open spec fn is_blank(s: Seq<char>) -> bool {
    forall|i: int| 0 <= i < s.len() ==> is_ws(#[trigger] s[i])
}

/// Position of the first line feed in `s`, or `s.len()` if there is none.
pub open spec fn line_end(s: Seq<char>) -> int
    decreases s.len(),
{
    if s.len() == 0 || s.first() == '\n' {
        0
    } else {
        1 + line_end(s.drop_first())
    }
}

/// A line as it was cut at a line feed, without the carriage return that
/// may precede the line feed.
pub open spec fn strip_cr(s: Seq<char>) -> Seq<char> {
    if s.len() > 0 && s.last() == '\r' {
        s.drop_last()
    } else {
        s
    }
}

/// The lines of a text. A line ends at a line feed or at a carriage return
/// followed by a line feed; the terminator is not part of the line. A last
/// line without a terminator is a line as well (and keeps a trailing
/// carriage return); a terminator at the very end opens no further line.
pub open spec fn split_lines(s: Seq<char>) -> Seq<Seq<char>>
    decreases s.len(),
{
    if s.len() == 0 {
        Seq::empty()
    } else {
        let e = line_end(s);
        if e == s.len() {
            seq![s]
        } else if 0 <= e < s.len() {
            seq![strip_cr(s.take(e))] + split_lines(s.skip(e + 1))
        } else {
            Seq::empty()
        }
    }
}

/// What holds of `line_end`.
pub proof fn lemma_line_end_bounds(s: Seq<char>)
    ensures
        0 <= line_end(s) <= s.len(),
        line_end(s) < s.len() ==> s[line_end(s)] == '\n',
        forall|i: int| 0 <= i < line_end(s) ==> #[trigger] s[i] != '\n',
    decreases s.len(),
{
    if s.len() == 0 || s.first() == '\n' {
    } else {
        let t = s.drop_first();
        lemma_line_end_bounds(t);
        assert forall|i: int| 0 <= i < line_end(s) implies #[trigger] s[i] != '\n' by {
            if i > 0 {
                assert(s[i] == t[i - 1]);
            }
        }
    }
}

/// `line_end` is the only position that is a line feed with none before it.
pub proof fn lemma_line_end_is(s: Seq<char>, e: int)
    requires
        0 <= e <= s.len(),
        e < s.len() ==> s[e] == '\n',
        forall|i: int| 0 <= i < e ==> #[trigger] s[i] != '\n',
    ensures
        line_end(s) == e,
{
    lemma_line_end_bounds(s);
    let f = line_end(s);
    if f < e {
        assert(s[f] != '\n');
    } else if e < f {
        assert(s[e] != '\n');
    }
}

/// Trimming at the end leaves the prefix that is followed by whitespace
/// only and does not end with whitespace.
pub proof fn lemma_trim_end_is(s: Seq<char>, k: int)
    requires
        0 <= k <= s.len(),
        forall|i: int| k <= i < s.len() ==> is_ws(#[trigger] s[i]),
        k > 0 ==> !is_ws(s[k - 1]),
    ensures
        trim_end(s) == s.take(k),
    decreases s.len(),
{
    if s.len() > 0 && is_ws(s.last()) {
        assert(k < s.len());
        let t = s.drop_last();
        lemma_trim_end_is(t, k);
        assert(t.take(k) =~= s.take(k));
    } else {
        assert(k == s.len()) by {
            if k < s.len() {
                assert(is_ws(s[s.len() - 1]));
            }
        }
        assert(s.take(k) =~= s);
    }
}

/// Trimming at the start leaves the suffix that is preceded by whitespace
/// only and does not begin with whitespace.
pub proof fn lemma_trim_start_is(s: Seq<char>, k: int)
    requires
        0 <= k <= s.len(),
        forall|i: int| 0 <= i < k ==> is_ws(#[trigger] s[i]),
        k < s.len() ==> !is_ws(s[k]),
    ensures
        trim_start(s) == s.skip(k),
    decreases s.len(),
{
    if s.len() > 0 && is_ws(s.first()) {
        assert(k > 0) by {
            if k == 0 {
                assert(!is_ws(s[0]));
            }
        }
        let t = s.drop_first();
        assert forall|i: int| 0 <= i < k - 1 implies is_ws(#[trigger] t[i]) by {
            assert(t[i] == s[i + 1]);
        }
        lemma_trim_start_is(t, k - 1);
        assert(t.skip(k - 1) =~= s.skip(k));
    } else {
        assert(k == 0) by {
            if k > 0 {
                assert(is_ws(s[0]));
            }
        }
        assert(s.skip(0) =~= s);
    }
}

/// What trimming at the end leaves: a prefix that does not end in
/// whitespace, followed in `s` by whitespace only.
pub proof fn lemma_trim_end_props(s: Seq<char>)
    ensures
        trim_end(s).len() <= s.len(),
        trim_end(s) == s.take(trim_end(s).len() as int),
        forall|i: int| trim_end(s).len() <= i < s.len() ==> is_ws(#[trigger] s[i]),
        trim_end(s).len() > 0 ==> !is_ws(trim_end(s).last()),
    decreases s.len(),
{
    if s.len() > 0 && is_ws(s.last()) {
        let t = s.drop_last();
        lemma_trim_end_props(t);
        let k = trim_end(t).len() as int;
        assert(t.take(k) =~= s.take(k));
        assert forall|i: int| k <= i < s.len() implies is_ws(#[trigger] s[i]) by {
            if i < s.len() - 1 {
                assert(s[i] == t[i]);
            }
        }
    } else {
        assert(s.take(s.len() as int) =~= s);
    }
}

/// What trimming at the start leaves: a suffix that does not begin with
/// whitespace, preceded in `s` by whitespace only.
pub proof fn lemma_trim_start_props(s: Seq<char>)
    ensures
        trim_start(s).len() <= s.len(),
        trim_start(s) == s.skip(s.len() - trim_start(s).len()),
        forall|i: int| 0 <= i < s.len() - trim_start(s).len() ==> is_ws(#[trigger] s[i]),
        trim_start(s).len() > 0 ==> !is_ws(trim_start(s).first()),
    decreases s.len(),
{
    if s.len() > 0 && is_ws(s.first()) {
        let t = s.drop_first();
        lemma_trim_start_props(t);
        let k = s.len() - trim_start(t).len();
        assert(t.skip(k - 1) =~= s.skip(k));
        assert forall|i: int| 0 <= i < k implies is_ws(#[trigger] s[i]) by {
            if i > 0 {
                assert(s[i] == t[i - 1]);
            }
        }
    } else {
        assert(s.skip(0) =~= s);
    }
}

/// A text that does not end in whitespace is left as it is.
pub proof fn lemma_trim_end_fixed(s: Seq<char>)
    requires
        s.len() == 0 || !is_ws(s.last()),
    ensures
        trim_end(s) == s,
{
}

/// Trimming what is trimmed changes nothing.
pub proof fn lemma_trim_end_idem(s: Seq<char>)
    ensures
        trim_end(trim_end(s)) == trim_end(s),
{
    lemma_trim_end_props(s);
    lemma_trim_end_fixed(trim_end(s));
}

/// Trimming stops in `y` if `y` holds anything but whitespace.
pub proof fn lemma_trim_end_append(x: Seq<char>, y: Seq<char>)
    requires
        trim_end(y).len() > 0,
    ensures
        trim_end(x + y) == x + trim_end(y),
{
    lemma_trim_end_props(y);
    let s = x + y;
    let k = x.len() + trim_end(y).len();
    assert(s[k - 1] == y[trim_end(y).len() - 1]);
    assert(trim_end(y).last() == y[trim_end(y).len() - 1]);
    assert forall|i: int| k <= i < s.len() implies is_ws(#[trigger] s[i]) by {
        assert(s[i] == y[i - x.len()]);
    }
    lemma_trim_end_is(s, k as int);
    assert(s.take(k as int) =~= x + trim_end(y));
}

/// Whitespace at the end is trimmed away.
pub proof fn lemma_trim_end_blank(x: Seq<char>, y: Seq<char>)
    requires
        is_blank(y),
    ensures
        trim_end(x + y) == trim_end(x),
{
    lemma_trim_end_props(x);
    let s = x + y;
    let k = trim_end(x).len() as int;
    assert forall|i: int| k <= i < s.len() implies is_ws(#[trigger] s[i]) by {
        if i < x.len() {
            assert(s[i] == x[i]);
        } else {
            assert(s[i] == y[i - x.len()]);
        }
    }
    if k > 0 {
        assert(s[k - 1] == x[k - 1]);
        assert(trim_end(x).last() == x[k - 1]);
    }
    lemma_trim_end_is(s, k);
    assert(s.take(k) =~= x.take(k));
}

/// What trimming leaves of a text that lies between two stretches of
/// whitespace and neither begins nor ends with whitespace: that text.
pub proof fn lemma_trim_is(s: Seq<char>, a: int, b: int)
    requires
        0 <= a <= b <= s.len(),
        forall|i: int| 0 <= i < a ==> is_ws(#[trigger] s[i]),
        forall|i: int| b <= i < s.len() ==> is_ws(#[trigger] s[i]),
        a < b ==> !is_ws(s[a]) && !is_ws(s[b - 1]),
    ensures
        trim(s) == s.subrange(a, b),
{
    if a < b {
        lemma_trim_end_is(s, b);
        let e = s.take(b);
        assert forall|i: int| 0 <= i < a implies is_ws(#[trigger] e[i]) by {
            assert(e[i] == s[i]);
        }
        lemma_trim_start_is(e, a);
        assert(e.skip(a) =~= s.subrange(a, b));
    } else {
        lemma_trim_end_is(s, 0);
        assert(s.take(0) =~= Seq::<char>::empty());
        assert(s.subrange(a, b) =~= Seq::<char>::empty());
    }
}

/// The bounds of what trimming leaves.
pub proof fn lemma_trim_bounds(s: Seq<char>) -> (r: (int, int))
    ensures
        0 <= r.0 <= r.1 <= s.len(),
        trim(s) == s.subrange(r.0, r.1),
        forall|i: int| 0 <= i < r.0 ==> is_ws(#[trigger] s[i]),
        forall|i: int| r.1 <= i < s.len() ==> is_ws(#[trigger] s[i]),
        r.0 < r.1 ==> !is_ws(s[r.0]) && !is_ws(s[r.1 - 1]),
        r.0 == r.1 ==> is_blank(s),
{
    lemma_trim_end_props(s);
    let e = trim_end(s);
    lemma_trim_start_props(e);
    let b = e.len() as int;
    let a = b - trim_start(e).len();
    assert forall|i: int| 0 <= i < a implies is_ws(#[trigger] s[i]) by {
        assert(e[i] == s[i]);
    }
    assert(e.skip(a) =~= s.subrange(a, b));
    if a < b {
        assert(trim_start(e).first() == s[a]);
        assert(e.last() == s[b - 1]);
    }
    (a, b)
}

/// Whether `c` is whitespace.
pub fn is_whitespace(c: char) -> (b: bool)
    ensures
        b == is_ws(c),
{
    let n: u32 = c as u32;
    (0x09 <= n && n <= 0x0D) || n == 0x20 || n == 0x85 || n == 0xA0 || n == 0x1680 || (0x2000 <= n
        && n <= 0x200A) || n == 0x2028 || n == 0x2029 || n == 0x202F || n == 0x205F || n == 0x3000
}

/// Whether `c` is an ASCII decimal digit.
pub fn is_ascii_digit(c: char) -> (b: bool)
    ensures
        b == is_digit(c),
{
    '0' <= c && c <= '9'
}

/// The characters of a string slice, in order.
pub fn to_chars(s: &str) -> (v: Vec<char>)
    ensures
        v@ == s@,
{
    let mut v: Vec<char> = Vec::new();
    for c in it: s.chars()
        invariant
            it.seq() == s@,
            v@ == s@.take(it.index()),
    {
        assert(s@.take(it.index() + 1) =~= s@.take(it.index()).push(c));
        v.push(c);
    }
    assert(s@.take(s@.len() as int) =~= s@);
    v
}

/// The string made of the characters `v[lo..hi]`.
pub fn to_string(v: &Vec<char>, lo: usize, hi: usize) -> (s: String)
    requires
        lo <= hi <= v.len(),
    ensures
        s@ == v@.subrange(lo as int, hi as int),
{
    let mut s = String::new();
    let mut i: usize = lo;
    while i < hi
        invariant
            lo <= i <= hi <= v.len(),
            s@ == v@.subrange(lo as int, i as int),
        decreases hi - i,
    {
        assert(v@.subrange(lo as int, i + 1) =~= v@.subrange(lo as int, i as int).push(v@[i as int]));
        s.push(v[i]);
        i += 1;
    }
    s
}

/// The string made of all the characters of `v`.
pub fn from_chars(v: &Vec<char>) -> (s: String)
    ensures
        s@ == v@,
{
    assert(v@.subrange(0, v@.len() as int) =~= v@);
    to_string(v, 0, v.len())
}

/// Appends `src[lo..hi]` to `dst`.
pub fn push_range(dst: &mut Vec<char>, src: &Vec<char>, lo: usize, hi: usize)
    requires
        lo <= hi <= src.len(),
    ensures
        final(dst)@ == old(dst)@ + src@.subrange(lo as int, hi as int),
{
    let mut i: usize = lo;
    while i < hi
        invariant
            lo <= i <= hi <= src.len(),
            dst@ == old(dst)@ + src@.subrange(lo as int, i as int),
        decreases hi - i,
    {
        assert(old(dst)@ + src@.subrange(lo as int, i + 1) =~= (old(dst)@ + src@.subrange(
            lo as int,
            i as int,
        )).push(src@[i as int]));
        dst.push(src[i]);
        i += 1;
    }
}

/// Appends the characters of `s` to `dst`.
pub fn push_str(dst: &mut Vec<char>, s: &str)
    ensures
        final(dst)@ == old(dst)@ + s@,
{
    for c in it: s.chars()
        invariant
            it.seq() == s@,
            dst@ == old(dst)@ + s@.take(it.index()),
    {
        assert(old(dst)@ + s@.take(it.index() + 1) =~= (old(dst)@ + s@.take(it.index())).push(c));
        dst.push(c);
    }
    assert(s@.take(s@.len() as int) =~= s@);
}

/// The end of `v[lo..hi]` once its trailing whitespace is cut off.
pub fn trim_end_bound(v: &Vec<char>, lo: usize, hi: usize) -> (k: usize)
    requires
        lo <= hi <= v.len(),
    ensures
        lo <= k <= hi,
        v@.subrange(lo as int, k as int) == trim_end(v@.subrange(lo as int, hi as int)),
{
    let mut k: usize = hi;
    while k > lo && is_whitespace(v[k - 1])
        invariant
            lo <= k <= hi <= v.len(),
            forall|i: int| k <= i < hi ==> is_ws(#[trigger] v@[i]),
        decreases k,
    {
        k -= 1;
    }
    proof {
        let s = v@.subrange(lo as int, hi as int);
        lemma_trim_end_is(s, k - lo);
        assert(s.take(k - lo) =~= v@.subrange(lo as int, k as int));
    }
    k
}

/// The start of `v[lo..hi]` once its leading whitespace is cut off.
pub fn trim_start_bound(v: &Vec<char>, lo: usize, hi: usize) -> (k: usize)
    requires
        lo <= hi <= v.len(),
    ensures
        lo <= k <= hi,
        v@.subrange(k as int, hi as int) == trim_start(v@.subrange(lo as int, hi as int)),
{
    let mut k: usize = lo;
    while k < hi && is_whitespace(v[k])
        invariant
            lo <= k <= hi <= v.len(),
            forall|i: int| lo <= i < k ==> is_ws(#[trigger] v@[i]),
        decreases hi - k,
    {
        k += 1;
    }
    proof {
        let s = v@.subrange(lo as int, hi as int);
        assert forall|i: int| 0 <= i < k - lo implies is_ws(#[trigger] s[i]) by {
            assert(s[i] == v@[lo + i]);
        }
        lemma_trim_start_is(s, k - lo);
        assert(s.skip(k - lo) =~= v@.subrange(k as int, hi as int));
    }
    k
}

/// The bounds of `v[lo..hi]` once whitespace is cut off at both ends.
pub fn trim_bounds(v: &Vec<char>, lo: usize, hi: usize) -> (r: (usize, usize))
    requires
        lo <= hi <= v.len(),
    ensures
        lo <= r.0 <= r.1 <= hi,
        v@.subrange(r.0 as int, r.1 as int) == trim(v@.subrange(lo as int, hi as int)),
{
    let e = trim_end_bound(v, lo, hi);
    let b = trim_start_bound(v, lo, e);
    (b, e)
}

/// Whether `v` holds whitespace only.
pub fn is_blank_line(v: &Vec<char>) -> (b: bool)
    ensures
        b == is_blank(v@),
{
    let mut i: usize = 0;
    while i < v.len()
        invariant
            i <= v.len(),
            forall|j: int| 0 <= j < i ==> is_ws(#[trigger] v@[j]),
        decreases v.len() - i,
    {
        if !is_whitespace(v[i]) {
            return false;
        }
        i += 1;
    }
    true
}

/// A copy of `v[lo..hi]`.
pub fn copy_range(v: &Vec<char>, lo: usize, hi: usize) -> (r: Vec<char>)
    requires
        lo <= hi <= v.len(),
    ensures
        r@ == v@.subrange(lo as int, hi as int),
{
    let mut r: Vec<char> = Vec::new();
    push_range(&mut r, v, lo, hi);
    assert(Seq::<char>::empty() + v@.subrange(lo as int, hi as int) =~= v@.subrange(
        lo as int,
        hi as int,
    ));
    r
}

/// The view of a list of character vectors: the list of their texts.
pub open spec fn texts(v: Seq<Vec<char>>) -> Seq<Seq<char>> {
    Seq::new(v.len(), |i: int| v[i]@)
}

/// Cuts a text into its lines.
pub fn lines_of(v: &Vec<char>) -> (r: Vec<Vec<char>>)
    ensures
        texts(r@) == split_lines(v@),
{
    let mut r: Vec<Vec<char>> = Vec::new();
    let mut start: usize = 0;
    let n = v.len();
    proof {
        assert(v@.skip(0) =~= v@);
        assert(texts(r@) + split_lines(v@) =~= split_lines(v@));
    }
    while start < n
        invariant
            start <= n == v.len(),
            split_lines(v@) == texts(r@) + split_lines(v@.skip(start as int)),
        decreases n - start,
    {
        let mut e: usize = start;
        while e < n && v[e] != '\n'
            invariant
                start <= e <= n == v.len(),
                forall|i: int| start <= i < e ==> #[trigger] v@[i] != '\n',
            decreases n - e,
        {
            e += 1;
        }
        let ghost rest = v@.skip(start as int);
        proof {
            assert forall|i: int| 0 <= i < e - start implies #[trigger] rest[i] != '\n' by {
                assert(rest[i] == v@[start + i]);
            }
            lemma_line_end_is(rest, e - start);
        }
        if e == n {
            let line = copy_range(v, start, n);
            proof {
                assert(rest =~= v@.subrange(start as int, n as int));
                assert(split_lines(rest) == seq![rest]);
                assert(split_lines(v@.skip(n as int)) =~= Seq::<Seq<char>>::empty());
                assert(texts(r@.push(line)) =~= texts(r@) + seq![rest]);
                assert(texts(r@.push(line)) + split_lines(v@.skip(n as int)) =~= texts(r@) + seq![
                    rest,
                ]);
            }
            r.push(line);
            start = n;
        } else {
            let hi = if e > start && v[e - 1] == '\r' {
                e - 1
            } else {
                e
            };
            let line = copy_range(v, start, hi);
            proof {
                let cut = rest.take(e - start);
                assert(cut =~= v@.subrange(start as int, e as int));
                assert(strip_cr(cut) =~= v@.subrange(start as int, hi as int));
                assert(rest.skip(e - start + 1) =~= v@.skip(e + 1));
                assert(texts(r@.push(line)) =~= texts(r@) + seq![strip_cr(cut)]);
                assert(texts(r@.push(line)) + split_lines(v@.skip(e + 1)) =~= texts(r@) + (seq![
                    strip_cr(cut),
                ] + split_lines(v@.skip(e + 1))));
            }
            r.push(line);
            start = e + 1;
        }
    }
    proof {
        assert(v@.skip(n as int).len() == 0);
        assert(texts(r@) + Seq::<Seq<char>>::empty() =~= texts(r@));
    }
    r
}

} // verus!
