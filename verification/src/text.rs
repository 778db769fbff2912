//! Character-level text model: the mathematical view of strings as `Seq<char>`,
//! the handful of std calls the library relies on, and verified helpers
//! (trimming, line and field splitting, searching) built on top of them.
use vstd::prelude::*;

verus! {

// ---------------------------------------------------------------------------
// Trusted calls into std
// ---------------------------------------------------------------------------
/// What `str::to_lowercase` returns for a string (full Unicode case mapping).
pub uninterp spec fn str_lowercase(s: Seq<char>) -> Seq<char>;

/// The characters with the Unicode `White_Space` property (PropList.txt):
/// U+0009..U+000D, space, U+0085, U+00A0, U+1680, U+2000..U+200A, U+2028,
/// U+2029, U+202F, U+205F and U+3000.
pub open spec fn is_white_space(c: char) -> bool {
    ||| ('\u{9}' <= c && c <= '\u{d}')
    ||| c == ' '
    ||| c == '\u{85}'
    ||| c == '\u{a0}'
    ||| c == '\u{1680}'
    ||| ('\u{2000}' <= c && c <= '\u{200a}')
    ||| c == '\u{2028}'
    ||| c == '\u{2029}'
    ||| c == '\u{202f}'
    ||| c == '\u{205f}'
    ||| c == '\u{3000}'
}

pub open spec fn is_ascii_char(c: char) -> bool {
    c <= '\x7f'
}

pub open spec fn all_ascii(s: Seq<char>) -> bool {
    forall|i: int| 0 <= i < s.len() ==> is_ascii_char(#[trigger] s[i])
}

/// ASCII upper-case letters are mapped to lower case; everything else is kept.
pub open spec fn ascii_lower(c: char) -> char {
    if 'A' <= c && c <= 'Z' {
        ((c as u32) + 32) as char
    } else {
        c
    }
}

/// Calls `char::is_whitespace`, which std documents as the Unicode
/// `White_Space` property. Claimed: the result is `is_white_space(c)`.
#[verifier::external_body]
pub(crate) fn is_whitespace(c: char) -> (res: bool)
    ensures
        res == is_white_space(c),
{
    c.is_whitespace()
}

/// Calls `str::to_lowercase`. Claimed: the result is the named mapping
/// `str_lowercase`, and on an all-ASCII input it is the ASCII lower-casing of
/// each character (std converts an ASCII run byte by byte). The full Unicode
/// mapping of other characters is left unsaid.
#[verifier::external_body]
pub(crate) fn to_lowercase(s: &str) -> (res: String)
    ensures
        res@ == str_lowercase(s@),
        all_ascii(s@) ==> res@ == s@.map_values(|c: char| ascii_lower(c)),
{
    s.to_lowercase()
}

/// Calls `String::push`, which appends one character.
#[verifier::external_body]
pub(crate) fn push_char(s: &mut String, c: char)
    ensures
        final(s)@ == old(s)@.push(c),
{
    s.push(c)
}

// ---------------------------------------------------------------------------
// Conversions
// ---------------------------------------------------------------------------
/// Copies the characters of a string slice into a vector.
pub fn chars_of(s: &str) -> (res: Vec<char>)
    ensures
        res@ == s@,
{
    let mut res: Vec<char> = Vec::new();
    for c in it: s.chars()
        invariant
            res@ == it.seq().take(it.index()),
    {
        res.push(c);
    }
    res
}

/// Builds a `String` holding the given characters.
pub fn string_of(v: &Vec<char>) -> (res: String)
    ensures
        res@ == v@,
{
    let mut res = String::new();
    let n = v.len();
    let mut i: usize = 0;
    while i < n
        invariant
            n == v@.len(),
            i <= n,
            res@ == v@.take(i as int),
        decreases n - i,
    {
        push_char(&mut res, v[i]);
        assert(v@.take(i + 1) =~= v@.take(i as int).push(v@[i as int]));
        i = i + 1;
    }
    assert(v@.take(n as int) =~= v@);
    res
}

/// Appends the characters of `s` to `out`.
pub fn push_str(out: &mut Vec<char>, s: &str)
    ensures
        final(out)@ == old(out)@ + s@,
{
    let mut cs = chars_of(s);
    out.append(&mut cs);
}

/// Appends the characters of `v` to `out`.
pub fn push_chars(out: &mut Vec<char>, v: &Vec<char>)
    ensures
        final(out)@ == old(out)@ + v@,
{
    let n = v.len();
    let mut i: usize = 0;
    let ghost start = out@;
    while i < n
        invariant
            n == v@.len(),
            i <= n,
            out@ == start + v@.take(i as int),
        decreases n - i,
    {
        out.push(v[i]);
        assert(v@.take(i + 1) =~= v@.take(i as int).push(v@[i as int]));
        i = i + 1;
    }
    assert(v@.take(n as int) =~= v@);
}

/// The characters of `v` in positions `lo..hi`.
pub fn subvec(v: &Vec<char>, lo: usize, hi: usize) -> (res: Vec<char>)
    requires
        lo <= hi <= v@.len(),
    ensures
        res@ == v@.subrange(lo as int, hi as int),
{
    let mut res: Vec<char> = Vec::new();
    let mut i: usize = lo;
    while i < hi
        invariant
            lo <= i <= hi <= v@.len(),
            res@ == v@.subrange(lo as int, i as int),
        decreases hi - i,
    {
        res.push(v[i]);
        assert(v@.subrange(lo as int, i + 1) =~= v@.subrange(lo as int, i as int).push(
            v@[i as int],
        ));
        i = i + 1;
    }
    res
}

/// Whether two character vectors hold the same characters.
pub fn chars_eq(a: &Vec<char>, b: &Vec<char>) -> (res: bool)
    ensures
        res == (a@ == b@),
{
    if a.len() != b.len() {
        return false;
    }
    let n = a.len();
    let mut i: usize = 0;
    while i < n
        invariant
            n == a@.len(),
            n == b@.len(),
            i <= n,
            forall|k: int| 0 <= k < i ==> a@[k] == b@[k],
        decreases n - i,
    {
        if a[i] != b[i] {
            return false;
        }
        i = i + 1;
    }
    assert(a@ =~= b@);
    true
}

// ---------------------------------------------------------------------------
// Trimming
// ---------------------------------------------------------------------------
/// `s` without its leading white space.
pub open spec fn trim_start(s: Seq<char>) -> Seq<char>
    decreases s.len(),
{
    if s.len() > 0 && is_white_space(s[0]) {
        trim_start(s.drop_first())
    } else {
        s
    }
}

/// `s` without its trailing white space.
pub open spec fn trim_end(s: Seq<char>) -> Seq<char>
    decreases s.len(),
{
    if s.len() > 0 && is_white_space(s.last()) {
        trim_end(s.drop_last())
    } else {
        s
    }
}

/// `s` without leading and trailing white space (what `str::trim` gives).
pub open spec fn trim(s: Seq<char>) -> Seq<char> {
    trim_end(trim_start(s))
}

/// `trim_start` drops a prefix of white space: what is left is a suffix of
/// `s` that is empty or starts with a character that is not white space.
pub proof fn lemma_trim_start(s: Seq<char>)
    ensures
        trim_start(s).len() <= s.len(),
        trim_start(s) == s.skip(s.len() - trim_start(s).len()),
        trim_start(s).len() > 0 ==> !is_white_space(trim_start(s)[0]),
    decreases s.len(),
{
    if s.len() > 0 && is_white_space(s[0]) {
        lemma_trim_start(s.drop_first());
        let t = trim_start(s.drop_first());
        assert(s.drop_first().skip(s.drop_first().len() - t.len()) =~= s.skip(s.len() - t.len()));
    } else {
        assert(s.skip(0) =~= s);
    }
}

/// `trim_end` drops a suffix of white space: what is left is a prefix of `s`
/// that is empty or ends with a character that is not white space.
pub proof fn lemma_trim_end(s: Seq<char>)
    ensures
        trim_end(s).len() <= s.len(),
        trim_end(s) == s.take(trim_end(s).len() as int),
        trim_end(s).len() > 0 ==> !is_white_space(trim_end(s).last()),
    decreases s.len(),
{
    if s.len() > 0 && is_white_space(s.last()) {
        lemma_trim_end(s.drop_last());
        let t = trim_end(s.drop_last());
        assert(s.drop_last().take(t.len() as int) =~= s.take(t.len() as int));
    } else {
        assert(s.take(s.len() as int) =~= s);
    }
}

/// A trimmed text is a piece of the text that neither starts nor ends with
/// white space, and trimming it again changes nothing.
pub proof fn lemma_trim(s: Seq<char>)
    ensures
        exists|a: int, b: int| 0 <= a <= b <= s.len() && trim(s) == s.subrange(a, b),
        trim(s).len() > 0 ==> !is_white_space(trim(s)[0]) && !is_white_space(trim(s).last()),
        trim(trim(s)) == trim(s),
{
    let t = trim_start(s);
    lemma_trim_start(s);
    lemma_trim_end(t);
    let r = trim_end(t);
    let a = s.len() - t.len();
    assert(r == s.subrange(a, a + r.len()));
    if r.len() > 0 {
        assert(r[0] == t[0]);
        assert(trim_start(r) == r);
        lemma_trim_end(r);
    } else {
        assert(trim_start(r) == r);
    }
}

/// Trimming keeps an all-ASCII text all-ASCII.
pub proof fn lemma_trim_ascii(s: Seq<char>)
    requires
        all_ascii(s),
    ensures
        all_ascii(trim(s)),
{
    lemma_trim(s);
    let (a, b) = choose|a: int, b: int| 0 <= a <= b <= s.len() && trim(s) == s.subrange(a, b);
    assert forall|i: int| 0 <= i < trim(s).len() implies is_ascii_char(#[trigger] trim(s)[i]) by {
        assert(trim(s)[i] == s[a + i]);
    }
}

/// Removes leading and trailing white space, deciding white space with
/// `char::is_whitespace` as `str::trim` does.
pub fn trim_chars(v: &Vec<char>) -> (res: Vec<char>)
    ensures
        res@ == trim(v@),
{
    let n = v.len();
    let mut a: usize = 0;
    assert(v@.skip(0) =~= v@);
    while a < n && is_whitespace(v[a])
        invariant
            n == v@.len(),
            a <= n,
            trim_start(v@) == trim_start(v@.skip(a as int)),
        decreases n - a,
    {
        assert(v@.skip(a as int).drop_first() =~= v@.skip(a + 1));
        a = a + 1;
    }
    let mut b: usize = n;
    while b > a && is_whitespace(v[b - 1])
        invariant
            n == v@.len(),
            a <= b <= n,
            trim_end(v@.skip(a as int)) == trim_end(v@.subrange(a as int, b as int)),
        decreases b,
    {
        assert(v@.subrange(a as int, b as int).drop_last() =~= v@.subrange(a as int, b - 1));
        b = b - 1;
    }
    assert(v@.subrange(a as int, n as int) =~= v@.skip(a as int));
    subvec(v, a, b)
}

/// Trims a string slice, giving its characters.
pub fn trim_str(s: &str) -> (res: Vec<char>)
    ensures
        res@ == trim(s@),
{
    let v = chars_of(s);
    trim_chars(&v)
}

// ---------------------------------------------------------------------------
// Searching
// ---------------------------------------------------------------------------
/// Position of the first `c` in `s`, or `s.len()` when there is none.
pub open spec fn index_of(s: Seq<char>, c: char) -> nat
    decreases s.len(),
{
    if s.len() == 0 {
        0
    } else if s[0] == c {
        0
    } else {
        1 + index_of(s.drop_first(), c)
    }
}

/// `index_of` is the first position of `c`, or the length.
pub proof fn lemma_index_of(s: Seq<char>, c: char)
    ensures
        index_of(s, c) <= s.len(),
        index_of(s, c) < s.len() ==> s[index_of(s, c) as int] == c,
        forall|k: int| 0 <= k < index_of(s, c) ==> s[k] != c,
        index_of(s, c) == s.len() <==> !s.contains(c),
    decreases s.len(),
{
    if s.len() > 0 && s[0] != c {
        lemma_index_of(s.drop_first(), c);
        assert forall|k: int| 0 <= k < index_of(s, c) implies s[k] != c by {
            if k > 0 {
                assert(s[k] == s.drop_first()[k - 1]);
            }
        }
        if index_of(s, c) == s.len() {
            assert forall|k: int| 0 <= k < s.len() implies s[k] != c by {}
        } else {
            assert(s[index_of(s, c) as int] == c);
        }
    }
}

/// Any position `m` with no `c` before it and `c` (or the end) at it is `index_of`.
pub proof fn lemma_index_of_unique(s: Seq<char>, c: char, m: int)
    requires
        0 <= m <= s.len(),
        forall|k: int| 0 <= k < m ==> s[k] != c,
        m < s.len() ==> s[m] == c,
    ensures
        index_of(s, c) == m,
    decreases s.len(),
{
    if s.len() > 0 && m > 0 {
        assert forall|k: int| 0 <= k < m - 1 implies s.drop_first()[k] != c by {
            assert(s[k + 1] != c);
        }
        lemma_index_of_unique(s.drop_first(), c, m - 1);
    }
}

/// Finds the first `c` at or after `from`, or the length.
pub fn find_char(v: &Vec<char>, c: char, from: usize) -> (res: usize)
    requires
        from <= v@.len(),
    ensures
        from <= res <= v@.len(),
        res - from == index_of(v@.skip(from as int), c),
{
    let n = v.len();
    let mut j: usize = from;
    while j < n && v[j] != c
        invariant
            n == v@.len(),
            from <= j <= n,
            forall|k: int| from <= k < j ==> v@[k] != c,
        decreases n - j,
    {
        j = j + 1;
    }
    proof {
        let t = v@.skip(from as int);
        assert forall|k: int| 0 <= k < j - from implies t[k] != c by {
            assert(t[k] == v@[from + k]);
        }
        lemma_index_of_unique(t, c, j - from);
    }
    j
}

/// Whether `c` occurs in `v`.
pub fn contains_char(v: &Vec<char>, c: char) -> (res: bool)
    ensures
        res == v@.contains(c),
{
    let j = find_char(v, c, 0);
    proof {
        assert(v@.skip(0) =~= v@);
        lemma_index_of(v@, c);
    }
    j < v.len()
}

/// `p` occurs in `s` starting at position `i`.
pub open spec fn occurs_at(s: Seq<char>, p: Seq<char>, i: int) -> bool {
    0 <= i && i + p.len() <= s.len() && s.subrange(i, i + p.len()) == p
}

/// `p` occurs somewhere in `s` (what `str::contains` with a string pattern asks).
pub open spec fn contains_seq(s: Seq<char>, p: Seq<char>) -> bool {
    exists|i: int| occurs_at(s, p, i)
}

/// `s` begins with `p`.
pub open spec fn starts_with(s: Seq<char>, p: Seq<char>) -> bool {
    p.len() <= s.len() && s.take(p.len() as int) == p
}

/// `s` ends with `p`.
pub open spec fn ends_with(s: Seq<char>, p: Seq<char>) -> bool {
    p.len() <= s.len() && s.skip(s.len() - p.len()) == p
}

/// Whether `p` occurs in `s` at position `i`.
pub fn matches_at(s: &Vec<char>, p: &Vec<char>, i: usize) -> (res: bool)
    ensures
        res == occurs_at(s@, p@, i as int),
{
    if i > s.len() || s.len() - i < p.len() {
        return false;
    }
    let m = p.len();
    let n = s.len();
    let mut k: usize = 0;
    while k < m
        invariant
            m == p@.len(),
            n == s@.len(),
            i + m <= n,
            k <= m,
            forall|t: int| 0 <= t < k ==> s@[i + t] == p@[t],
        decreases m - k,
    {
        if s[i + k] != p[k] {
            assert(s@.subrange(i as int, i + m)[k as int] != p@[k as int]);
            return false;
        }
        k = k + 1;
    }
    assert(s@.subrange(i as int, i + m) =~= p@);
    true
}

/// Whether `p` occurs anywhere in `s`.
pub fn contains_chars(s: &Vec<char>, p: &Vec<char>) -> (res: bool)
    ensures
        res == contains_seq(s@, p@),
{
    if p.len() > s.len() {
        return false;
    }
    let last = s.len() - p.len();
    let mut i: usize = 0;
    while i < last
        invariant
            last + p@.len() == s@.len(),
            i <= last,
            forall|j: int| 0 <= j < i ==> !occurs_at(s@, p@, j),
        decreases last - i,
    {
        if matches_at(s, p, i) {
            return true;
        }
        i = i + 1;
    }
    if matches_at(s, p, last) {
        return true;
    }
    assert forall|j: int| !occurs_at(s@, p@, j) by {
        if 0 <= j <= last {
            assert(j < i || j == last);
        }
    }
    false
}

/// Whether `s` begins with `p`.
pub fn starts_with_chars(s: &Vec<char>, p: &Vec<char>) -> (res: bool)
    ensures
        res == starts_with(s@, p@),
{
    let r = matches_at(s, p, 0);
    proof {
        if p@.len() <= s@.len() {
            assert(s@.subrange(0, p@.len() as int) =~= s@.take(p@.len() as int));
        }
    }
    r
}

/// Whether `s` ends with `p`.
pub fn ends_with_chars(s: &Vec<char>, p: &Vec<char>) -> (res: bool)
    ensures
        res == ends_with(s@, p@),
{
    if p.len() > s.len() {
        return false;
    }
    let i = s.len() - p.len();
    let r = matches_at(s, p, i);
    assert(s@.subrange(i as int, i + p@.len()) =~= s@.skip(i as int));
    r
}

/// Number of occurrences of `c` in `s`.
pub open spec fn count_char(s: Seq<char>, c: char) -> nat
    decreases s.len(),
{
    if s.len() == 0 {
        0
    } else {
        count_char(s.drop_last(), c) + if s.last() == c {
            1nat
        } else {
            0nat
        }
    }
}

/// Counts the occurrences of `c` in `v`.
pub fn count_chars(v: &Vec<char>, c: char) -> (res: usize)
    ensures
        res == count_char(v@, c),
{
    let n = v.len();
    let mut i: usize = 0;
    let mut cnt: usize = 0;
    while i < n
        invariant
            n == v@.len(),
            i <= n,
            cnt == count_char(v@.take(i as int), c),
            cnt <= i,
        decreases n - i,
    {
        assert(v@.take(i + 1).drop_last() =~= v@.take(i as int));
        if v[i] == c {
            cnt = cnt + 1;
        }
        i = i + 1;
    }
    assert(v@.take(n as int) =~= v@);
    cnt
}

// ---------------------------------------------------------------------------
// Splitting
// ---------------------------------------------------------------------------
/// The pieces of `s` between occurrences of `c` (what `str::split` with a
/// character gives): always at least one piece, empty pieces kept.
pub open spec fn split_on(s: Seq<char>, c: char) -> Seq<Seq<char>>
    decreases s.len(),
{
    let e = index_of(s, c);
    if e >= s.len() {
        seq![s]
    } else {
        proof {
            lemma_index_of(s, c);
        }
        seq![s.take(e as int)] + split_on(s.skip((e + 1) as int), c)
    }
}

/// A line without the carriage return of a CRLF ending.
pub open spec fn strip_cr(l: Seq<char>) -> Seq<char> {
    if l.len() > 0 && l.last() == '\r' {
        l.drop_last()
    } else {
        l
    }
}

/// The lines of `s` as `str::lines` gives them: split at `\n`, a `\r` just
/// before a `\n` dropped, and no empty line after a final line ending.
pub open spec fn lines_of(s: Seq<char>) -> Seq<Seq<char>>
    decreases s.len(),
{
    let e = index_of(s, '\n');
    if s.len() == 0 {
        seq![]
    } else if e >= s.len() {
        seq![s]
    } else {
        proof {
            lemma_index_of(s, '\n');
        }
        seq![strip_cr(s.take(e as int))] + lines_of(s.skip((e + 1) as int))
    }
}

/// The character sequences held by a vector of character vectors.
pub open spec fn seq_views(v: Seq<Vec<char>>) -> Seq<Seq<char>> {
    v.map_values(|l: Vec<char>| l@)
}

/// Splits `v` at every `c`.
pub fn split_chars(v: &Vec<char>, c: char) -> (res: Vec<Vec<char>>)
    ensures
        seq_views(res@) == split_on(v@, c),
{
    let n = v.len();
    let mut out: Vec<Vec<char>> = Vec::new();
    let mut pos: usize = 0;
    assert(v@.skip(0) =~= v@);
    assert(seq_views(out@) + split_on(v@, c) =~= split_on(v@, c));
    loop
        invariant
            n == v@.len(),
            pos <= n,
            seq_views(out@) + split_on(v@.skip(pos as int), c) == split_on(v@, c),
        decreases n - pos,
    {
        let e = find_char(v, c, pos);
        let ghost t = v@.skip(pos as int);
        let piece = subvec(v, pos, e);
        assert(piece@ =~= t.take(e - pos));
        let ghost before = seq_views(out@);
        if e >= n {
            proof {
                assert(piece@ =~= t);
                assert(split_on(t, c) == seq![t]);
            }
            out.push(piece);
            assert(seq_views(out@) =~= before.push(t));
            assert(seq_views(out@) =~= split_on(v@, c));
            return out;
        }
        proof {
            assert(t.skip(e - pos + 1) =~= v@.skip(e + 1));
        }
        out.push(piece);
        assert(seq_views(out@) =~= before.push(piece@));
        pos = e + 1;
    }
}

/// Splits `v` into lines as `str::lines` does.
pub fn lines_chars(v: &Vec<char>) -> (res: Vec<Vec<char>>)
    ensures
        seq_views(res@) == lines_of(v@),
{
    let n = v.len();
    let mut out: Vec<Vec<char>> = Vec::new();
    let mut pos: usize = 0;
    assert(v@.skip(0) =~= v@);
    assert(seq_views(out@) + lines_of(v@) =~= lines_of(v@));
    while pos < n
        invariant
            n == v@.len(),
            pos <= n,
            seq_views(out@) + lines_of(v@.skip(pos as int)) == lines_of(v@),
        decreases n - pos,
    {
        let e = find_char(v, '\n', pos);
        let ghost t = v@.skip(pos as int);
        let ghost before = seq_views(out@);
        if e >= n {
            let piece = subvec(v, pos, n);
            assert(piece@ =~= t);
            out.push(piece);
            assert(seq_views(out@) =~= before.push(t));
            assert(lines_of(t) == seq![t]);
            assert(v@.skip(n as int) =~= Seq::<char>::empty());
            assert(seq_views(out@) =~= lines_of(v@));
            pos = n;
        } else {
            let mut piece = subvec(v, pos, e);
            assert(piece@ =~= t.take(e - pos));
            if piece.len() > 0 && piece[piece.len() - 1] == '\r' {
                piece.pop();
            }
            assert(piece@ =~= strip_cr(t.take(e - pos)));
            assert(t.skip(e - pos + 1) =~= v@.skip(e + 1));
            out.push(piece);
            assert(seq_views(out@) =~= before.push(strip_cr(t.take(e - pos))));
            pos = e + 1;
        }
    }
    assert(v@.skip(n as int) =~= Seq::<char>::empty());
    assert(seq_views(out@) + Seq::<Seq<char>>::empty() =~= seq_views(out@));
    out
}

// ---------------------------------------------------------------------------
// Laws of splitting and trimming
// ---------------------------------------------------------------------------
/// Splitting at `c` takes off the text before the first `c` as the first piece.
pub proof fn lemma_split_on_first(x: Seq<char>, c: char, rest: Seq<char>)
    requires
        !x.contains(c),
    ensures
        split_on(x + seq![c] + rest, c) == seq![x] + split_on(rest, c),
{
    let s = x + seq![c] + rest;
    assert forall|k: int| 0 <= k < x.len() implies s[k] != c by {
        assert(s[k] == x[k]);
    }
    lemma_index_of_unique(s, c, x.len() as int);
    assert(s.take(x.len() as int) =~= x);
    assert(s.skip((x.len() + 1) as int) =~= rest);
}

/// A text without `c` is a single piece.
pub proof fn lemma_split_on_none(x: Seq<char>, c: char)
    requires
        !x.contains(c),
    ensures
        split_on(x, c) == seq![x],
{
    lemma_index_of(x, c);
}

/// The pieces of a split never hold the separator, and joining them back with
/// it gives the text.
pub proof fn lemma_split_on_pieces(s: Seq<char>, c: char)
    ensures
        split_on(s, c).len() >= 1,
        forall|k: int| 0 <= k < split_on(s, c).len() ==> !(#[trigger] split_on(s, c)[k]).contains(c),
        join_with(split_on(s, c), c) == s,
    decreases s.len(),
{
    lemma_index_of(s, c);
    let e = index_of(s, c);
    if e < s.len() {
        let rest = s.skip((e + 1) as int);
        lemma_split_on_pieces(rest, c);
        let x = s.take(e as int);
        assert(!x.contains(c)) by {
            assert forall|k: int| 0 <= k < x.len() implies x[k] != c by {}
        }
        let ps = split_on(s, c);
        assert(ps == seq![x] + split_on(rest, c));
        assert forall|k: int| 0 <= k < ps.len() implies !(#[trigger] ps[k]).contains(c) by {
            if k > 0 {
                assert(ps[k] == split_on(rest, c)[k - 1]);
            }
        }
        assert(ps.drop_first() =~= split_on(rest, c));
        assert(s =~= x + seq![c] + rest);
    }
}

/// Pieces joined with a separator between each two.
pub open spec fn join_with(ps: Seq<Seq<char>>, c: char) -> Seq<char>
    decreases ps.len(),
{
    if ps.len() == 0 {
        Seq::empty()
    } else if ps.len() == 1 {
        ps[0]
    } else {
        ps[0] + seq![c] + join_with(ps.drop_first(), c)
    }
}

/// `str::lines` at a line ending: a text before the first `\n` is the first
/// line, without a `\r` that ends it; a non-empty text without `\n` is one line.
pub proof fn lemma_lines_of_first(x: Seq<char>, rest: Seq<char>)
    requires
        !x.contains('\n'),
    ensures
        lines_of(x + seq!['\n'] + rest) == seq![strip_cr(x)] + lines_of(rest),
        lines_of(x + seq!['\r', '\n'] + rest) == seq![x] + lines_of(rest),
        x.len() > 0 ==> lines_of(x) == seq![x],
{
    let s = x + seq!['\n'] + rest;
    assert forall|k: int| 0 <= k < x.len() implies s[k] != '\n' by {
        assert(s[k] == x[k]);
    }
    lemma_index_of_unique(s, '\n', x.len() as int);
    assert(s.take(x.len() as int) =~= x);
    assert(s.skip((x.len() + 1) as int) =~= rest);
    let xr = x.push('\r');
    let s2 = xr + seq!['\n'] + rest;
    assert(s2 =~= x + seq!['\r', '\n'] + rest);
    assert forall|k: int| 0 <= k < xr.len() implies s2[k] != '\n' by {
        assert(s2[k] == xr[k]);
    }
    lemma_index_of_unique(s2, '\n', xr.len() as int);
    assert(s2.take(xr.len() as int) =~= xr);
    assert(s2.skip((xr.len() + 1) as int) =~= rest);
    assert(strip_cr(xr) =~= x);
    lemma_index_of(x, '\n');
}

/// Trimming removes only white space, from both ends.
pub proof fn lemma_trim_removes_white_space(s: Seq<char>)
    ensures
        exists|a: int, b: int|
            0 <= a <= b <= s.len() && trim(s) == s.subrange(a, b) && (forall|k: int|
                0 <= k < a ==> is_white_space(#[trigger] s[k])) && (forall|k: int|
                b <= k < s.len() ==> is_white_space(#[trigger] s[k])),
{
    lemma_trim_start_ws(s);
    let t = trim_start(s);
    lemma_trim_start(s);
    lemma_trim_end_ws(t);
    lemma_trim_end(t);
    let a = s.len() - t.len();
    let b = a + trim_end(t).len();
    assert(trim(s) =~= s.subrange(a, b));
    assert forall|k: int| b <= k < s.len() implies is_white_space(#[trigger] s[k]) by {
        assert(s[k] == t[k - a]);
    }
}

proof fn lemma_trim_start_ws(s: Seq<char>)
    ensures
        forall|k: int| 0 <= k < s.len() - trim_start(s).len() ==> is_white_space(#[trigger] s[k]),
    decreases s.len(),
{
    if s.len() > 0 && is_white_space(s[0]) {
        lemma_trim_start_ws(s.drop_first());
        assert forall|k: int| 0 <= k < s.len() - trim_start(s).len() implies is_white_space(
            #[trigger] s[k],
        ) by {
            if k > 0 {
                assert(s[k] == s.drop_first()[k - 1]);
            }
        }
    }
}

proof fn lemma_trim_end_ws(s: Seq<char>)
    ensures
        forall|k: int| trim_end(s).len() <= k < s.len() ==> is_white_space(#[trigger] s[k]),
    decreases s.len(),
{
    if s.len() > 0 && is_white_space(s.last()) {
        lemma_trim_end_ws(s.drop_last());
        assert forall|k: int| trim_end(s).len() <= k < s.len() implies is_white_space(
            #[trigger] s[k],
        ) by {
            if k < s.len() - 1 {
                assert(s[k] == s.drop_last()[k]);
            }
        }
    }
}

} // verus!
