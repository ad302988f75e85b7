//! Character-sequence primitives shared by the playlist readers and writers:
//! whitespace trimming, line and separator splitting, prefix and substring
//! search, ASCII case folding, and the conversions between `&str`/`String`
//! and `Vec<char>`.
use vstd::prelude::*;

verus! {

/// Appends one character to a `String` with std's `String::push`. The
/// contract claims that the text afterwards is the text before with `c` at
/// its end.
#[verifier::external_body]
pub(crate) fn push_char(s: &mut String, c: char)
    ensures
        final(s)@ == old(s)@.push(c),
{
    s.push(c);
}

/// The characters of `s`, in order.
pub fn chars_of(s: &str) -> (v: Vec<char>)
    ensures
        v@ == s@,
{
    let mut v: Vec<char> = Vec::new();
    for c in it: s.chars()
        invariant
            v@ == it.seq().take(it.index() as int),
    {
        v.push(c);
    }
    v
}

/// Appends the characters `v[lo..hi]` to `s`.
pub fn push_range(s: &mut String, v: &[char], lo: usize, hi: usize)
    requires
        lo <= hi <= v@.len(),
    ensures
        final(s)@ == old(s)@ + v@.subrange(lo as int, hi as int),
{
    let mut i = lo;
    while i < hi
        invariant
            lo <= i <= hi <= v@.len(),
            s@ == old(s)@ + v@.subrange(lo as int, i as int),
        decreases hi - i,
    {
        push_char(s, v[i]);
        assert(v@.subrange(lo as int, i + 1) =~= v@.subrange(lo as int, i as int).push(v@[i as int]));
        i = i + 1;
    }
}

/// Appends all of `p` to `s`.
pub fn push_all(s: &mut String, p: &[char])
    ensures
        final(s)@ == old(s)@ + p@,
{
    push_range(s, p, 0, p.len());
    assert(p@.subrange(0, p@.len() as int) =~= p@);
}

/// A `String` holding exactly the characters `v[lo..hi]`.
pub fn string_of(v: &[char], lo: usize, hi: usize) -> (s: String)
    requires
        lo <= hi <= v@.len(),
    ensures
        s@ == v@.subrange(lo as int, hi as int),
{
    let mut s = String::new();
    push_range(&mut s, v, lo, hi);
    assert(s@ =~= v@.subrange(lo as int, hi as int));
    s
}

/// Unicode `White_Space`: the characters `char::is_whitespace` accepts and
/// `str::trim` removes.
pub open spec fn is_ws(c: char) -> bool {
    ||| c == '\t'
    ||| c == '\n'
    ||| c == '\u{0B}'
    ||| c == '\u{0C}'
    ||| c == '\r'
    ||| c == ' '
    ||| c == '\u{85}'
    ||| c == '\u{A0}'
    ||| c == '\u{1680}'
    ||| ('\u{2000}' <= c && c <= '\u{200A}')
    ||| c == '\u{2028}'
    ||| c == '\u{2029}'
    ||| c == '\u{202F}'
    ||| c == '\u{205F}'
    ||| c == '\u{3000}'
}

pub fn is_whitespace(c: char) -> (b: bool)
    ensures
        b == is_ws(c),
{
    c == '\t' || c == '\n' || c == '\u{0B}' || c == '\u{0C}' || c == '\r' || c == ' '
        || c == '\u{85}' || c == '\u{A0}' || c == '\u{1680}' || ('\u{2000}' <= c && c
        <= '\u{200A}') || c == '\u{2028}' || c == '\u{2029}' || c == '\u{202F}' || c
        == '\u{205F}' || c == '\u{3000}'
}

/// `s` without its leading whitespace.
pub open spec fn trim_start(s: Seq<char>) -> Seq<char>
    decreases s.len(),
{
    if s.len() > 0 && is_ws(s[0]) {
        trim_start(s.drop_first())
    } else {
        s
    }
}

/// `s` without its trailing whitespace.
pub open spec fn trim_end(s: Seq<char>) -> Seq<char>
    decreases s.len(),
{
    if s.len() > 0 && is_ws(s.last()) {
        trim_end(s.drop_last())
    } else {
        s
    }
}

/// `s` without leading and trailing whitespace (`str::trim`).
pub open spec fn trim(s: Seq<char>) -> Seq<char> {
    trim_end(trim_start(s))
}

/// Bounds `(a, b)` such that `v[a..b]` is `v[lo..hi]` trimmed.
pub fn trim_bounds(v: &[char], lo: usize, hi: usize) -> (r: (usize, usize))
    requires
        lo <= hi <= v@.len(),
    ensures
        lo <= r.0 <= r.1 <= hi,
        v@.subrange(r.0 as int, r.1 as int) == trim(v@.subrange(lo as int, hi as int)),
{
    let mut a = lo;
    while a < hi && is_whitespace(v[a])
        invariant
            lo <= a <= hi <= v@.len(),
            trim_start(v@.subrange(lo as int, hi as int)) == trim_start(
                v@.subrange(a as int, hi as int),
            ),
        decreases hi - a,
    {
        assert(v@.subrange(a as int, hi as int).drop_first() =~= v@.subrange(a + 1, hi as int));
        a = a + 1;
    }
    assert(trim_start(v@.subrange(a as int, hi as int)) == v@.subrange(a as int, hi as int));
    let mut b = hi;
    while b > a && is_whitespace(v[b - 1])
        invariant
            lo <= a <= b <= hi <= v@.len(),
            trim_end(v@.subrange(a as int, hi as int)) == trim_end(
                v@.subrange(a as int, b as int),
            ),
        decreases b - a,
    {
        assert(v@.subrange(a as int, b as int).drop_last() =~= v@.subrange(a as int, b - 1));
        b = b - 1;
    }
    assert(trim_end(v@.subrange(a as int, b as int)) == v@.subrange(a as int, b as int));
    (a, b)
}

/// The index of the first `c` in `s`, or `s.len()` when there is none.
pub open spec fn first_index(s: Seq<char>, c: char) -> int
    decreases s.len(),
{
    if s.len() == 0 {
        0
    } else if s[0] == c {
        0
    } else {
        1 + first_index(s.drop_first(), c)
    }
}

pub proof fn lemma_first_index_props(s: Seq<char>, c: char)
    ensures
        0 <= first_index(s, c) <= s.len(),
        forall|i: int| 0 <= i < first_index(s, c) ==> s[i] != c,
        first_index(s, c) < s.len() ==> s[first_index(s, c)] == c,
    decreases s.len(),
{
    if s.len() > 0 && s[0] != c {
        lemma_first_index_props(s.drop_first(), c);
        assert forall|i: int| 0 <= i < first_index(s, c) implies s[i] != c by {
            if i > 0 {
                assert(s[i] == s.drop_first()[i - 1]);
            }
        }
    }
}

pub proof fn lemma_first_index_is(s: Seq<char>, c: char, k: int)
    requires
        0 <= k <= s.len(),
        forall|i: int| 0 <= i < k ==> s[i] != c,
        k == s.len() || s[k] == c,
    ensures
        first_index(s, c) == k,
    decreases k,
{
    if k > 0 {
        assert forall|i: int| 0 <= i < k - 1 implies s.drop_first()[i] != c by {
            assert(s.drop_first()[i] == s[i + 1]);
        }
        lemma_first_index_is(s.drop_first(), c, k - 1);
    }
}

/// The position of the first `c` in `v[lo..hi]`, or `hi` when there is none.
pub fn find_char(v: &[char], lo: usize, hi: usize, c: char) -> (r: usize)
    requires
        lo <= hi <= v@.len(),
    ensures
        lo <= r <= hi,
        r - lo == first_index(v@.subrange(lo as int, hi as int), c),
{
    let mut i = lo;
    while i < hi && v[i] != c
        invariant
            lo <= i <= hi <= v@.len(),
            forall|j: int| lo <= j < i ==> v@[j] != c,
        decreases hi - i,
    {
        i = i + 1;
    }
    proof {
        lemma_first_index_is(v@.subrange(lo as int, hi as int), c, i - lo);
    }
    i
}

/// `s` cut at every `c` (`str::split`); there is always at least one piece.
pub open spec fn split_on(s: Seq<char>, c: char) -> Seq<Seq<char>>
    decreases s.len(),
{
    let i = first_index(s, c);
    if 0 <= i < s.len() {
        seq![s.take(i)] + split_on(s.skip(i + 1), c)
    } else {
        seq![s]
    }
}

/// Splitting `v[pos..]` at its first newline `e` (or its end).
pub proof fn lemma_split_at_newline(v: Seq<char>, pos: int, e: int)
    requires
        0 <= pos <= e <= v.len(),
        e - pos == first_index(v.subrange(pos, v.len() as int), '\n'),
    ensures
        e < v.len() ==> split_on(v.skip(pos), '\n') == seq![v.subrange(pos, e)] + split_on(
            v.skip(e + 1),
            '\n',
        ),
        e == v.len() ==> split_on(v.skip(pos), '\n') == seq![v.subrange(pos, e)],
{
    let s = v.skip(pos);
    assert(s =~= v.subrange(pos, v.len() as int));
    if e < v.len() {
        assert(s.take(e - pos) =~= v.subrange(pos, e));
        assert(s.skip(e - pos + 1) =~= v.skip(e + 1));
    } else {
        assert(s =~= v.subrange(pos, e));
    }
}

/// Whether `c` never occurs in `s`.
pub open spec fn lacks(s: Seq<char>, c: char) -> bool {
    forall|i: int| 0 <= i < s.len() ==> s[i] != c
}

/// Trimming leaves alone a sequence that neither starts nor ends with
/// whitespace.
pub proof fn lemma_trim_unchanged(s: Seq<char>)
    requires
        s.len() == 0 || (!is_ws(s[0]) && !is_ws(s.last())),
    ensures
        trim(s) == s,
{
}

proof fn lemma_trim_start_len(s: Seq<char>)
    ensures
        trim_start(s).len() <= s.len(),
        s.len() > 0 && is_ws(s[0]) ==> trim_start(s).len() < s.len(),
    decreases s.len(),
{
    if s.len() > 0 && is_ws(s[0]) {
        lemma_trim_start_len(s.drop_first());
    }
}

proof fn lemma_trim_end_len(s: Seq<char>)
    ensures
        trim_end(s).len() <= s.len(),
        s.len() > 0 && is_ws(s.last()) ==> trim_end(s).len() < s.len(),
    decreases s.len(),
{
    if s.len() > 0 && is_ws(s.last()) {
        lemma_trim_end_len(s.drop_last());
    }
}

/// A non-empty sequence that trimming leaves alone neither starts nor ends
/// with whitespace.
pub proof fn lemma_trimmed_ends(s: Seq<char>)
    requires
        trim(s) == s,
        s.len() > 0,
    ensures
        !is_ws(s[0]),
        !is_ws(s.last()),
{
    lemma_trim_start_len(s);
    lemma_trim_end_len(trim_start(s));
    if !is_ws(s[0]) {
        assert(trim_start(s) == s);
        lemma_trim_end_len(s);
    }
}

/// The first `c` in `a + [c] + b`, when `a` has none, ends `a`.
pub proof fn lemma_first_index_after(a: Seq<char>, c: char, b: Seq<char>)
    requires
        lacks(a, c),
    ensures
        first_index(a + seq![c] + b, c) == a.len(),
        (a + seq![c] + b).take(a.len() as int) == a,
        (a + seq![c] + b).skip(a.len() as int + 1) == b,
{
    let s = a + seq![c] + b;
    assert forall|i: int| 0 <= i < a.len() implies s[i] != c by {
        assert(s[i] == a[i]);
    }
    lemma_first_index_is(s, c, a.len() as int);
    assert(s.take(a.len() as int) =~= a);
    assert(s.skip(a.len() as int + 1) =~= b);
}

/// Lines, each followed by a newline.
pub open spec fn joined(ls: Seq<Seq<char>>) -> Seq<char>
    decreases ls.len(),
{
    if ls.len() == 0 {
        seq![]
    } else {
        ls[0] + seq!['\n'] + joined(ls.drop_first())
    }
}

pub proof fn lemma_joined_concat(a: Seq<Seq<char>>, b: Seq<Seq<char>>)
    ensures
        joined(a + b) == joined(a) + joined(b),
    decreases a.len(),
{
    if a.len() == 0 {
        assert(a + b =~= b);
        assert(joined(a) + joined(b) =~= joined(b));
    } else {
        lemma_joined_concat(a.drop_first(), b);
        assert((a + b).drop_first() =~= a.drop_first() + b);
        assert(joined(a + b) =~= joined(a) + joined(b));
    }
}

pub proof fn lemma_joined_one(l: Seq<char>)
    ensures
        joined(seq![l]) == l + seq!['\n'],
{
    assert(seq![l].drop_first() =~= Seq::<Seq<char>>::empty());
    assert(joined(Seq::<Seq<char>>::empty()) =~= Seq::<char>::empty());
    assert(joined(seq![l]) =~= l + seq!['\n']);
}

/// Splitting newline-terminated lines that hold no newline gives the lines
/// back, followed by the empty piece after the last newline.
pub proof fn lemma_split_joined(ls: Seq<Seq<char>>)
    requires
        forall|i: int| 0 <= i < ls.len() ==> lacks(#[trigger] ls[i], '\n'),
    ensures
        split_on(joined(ls), '\n') == ls.push(seq![]),
    decreases ls.len(),
{
    if ls.len() == 0 {
        assert(first_index(Seq::<char>::empty(), '\n') == 0);
        assert(split_on(joined(ls), '\n') =~= ls.push(seq![]));
    } else {
        let rest = ls.drop_first();
        assert forall|i: int| 0 <= i < rest.len() implies lacks(#[trigger] rest[i], '\n') by {
            assert(rest[i] == ls[i + 1]);
        }
        lemma_split_joined(rest);
        assert(lacks(ls[0], '\n'));
        lemma_first_index_after(ls[0], '\n', joined(rest));
        assert(split_on(joined(ls), '\n') =~= ls.push(seq![]));
    }
}

/// `s` with every line feed preceded by a carriage return (Windows line
/// endings).
pub open spec fn crlf(s: Seq<char>) -> Seq<char>
    decreases s.len(),
{
    if s.len() == 0 {
        seq![]
    } else {
        (if s[0] == '\n' {
            seq!['\r', '\n']
        } else {
            seq![s[0]]
        }) + crlf(s.drop_first())
    }
}

proof fn lemma_crlf_concat(a: Seq<char>, b: Seq<char>)
    ensures
        crlf(a + b) == crlf(a) + crlf(b),
    decreases a.len(),
{
    if a.len() == 0 {
        assert(a + b =~= b);
        assert(crlf(a) + crlf(b) =~= crlf(b));
    } else {
        lemma_crlf_concat(a.drop_first(), b);
        assert((a + b).drop_first() =~= a.drop_first() + b);
        assert((a + b)[0] == a[0]);
        assert(crlf(a + b) =~= crlf(a) + crlf(b));
    }
}

proof fn lemma_crlf_lacking(a: Seq<char>)
    requires
        lacks(a, '\n'),
    ensures
        crlf(a) == a,
    decreases a.len(),
{
    if a.len() > 0 {
        assert(lacks(a.drop_first(), '\n')) by {
            assert forall|i: int| 0 <= i < a.drop_first().len() implies a.drop_first()[i] != '\n' by {
                assert(a.drop_first()[i] == a[i + 1]);
            }
        }
        lemma_crlf_lacking(a.drop_first());
        assert(a =~= seq![a[0]] + a.drop_first());
    }
}

/// Every piece but the last with a carriage return appended.
pub open spec fn with_cr(ls: Seq<Seq<char>>) -> Seq<Seq<char>> {
    Seq::new(
        ls.len(),
        |i: int|
            if i < ls.len() - 1 {
                ls[i].push('\r')
            } else {
                ls[i]
            },
    )
}

/// Splitting CRLF text at line feeds gives the LF pieces with a carriage
/// return at the end of each piece but the last.
pub proof fn lemma_split_crlf(s: Seq<char>)
    ensures
        split_on(crlf(s), '\n') == with_cr(split_on(s, '\n')),
    decreases s.len(),
{
    lemma_first_index_props(s, '\n');
    let k = first_index(s, '\n');
    if k == s.len() {
        assert(lacks(s, '\n'));
        lemma_crlf_lacking(s);
        assert(split_on(s, '\n') == seq![s]);
        assert(with_cr(seq![s]) =~= seq![s]);
    } else {
        let a = s.take(k);
        let b = s.skip(k + 1);
        assert(s =~= a + seq!['\n'] + b);
        assert(lacks(a, '\n'));
        lemma_crlf_concat(a + seq!['\n'], b);
        lemma_crlf_concat(a, seq!['\n']);
        lemma_crlf_lacking(a);
        assert(crlf(seq!['\n']) =~= seq!['\r', '\n']) by {
            assert(seq!['\n'].drop_first() =~= Seq::<char>::empty());
            assert(crlf(Seq::<char>::empty()) =~= Seq::<char>::empty());
        }
        let a2 = a.push('\r');
        assert(crlf(s) =~= a2 + seq!['\n'] + crlf(b));
        assert(lacks(a2, '\n'));
        lemma_first_index_after(a2, '\n', crlf(b));
        lemma_split_crlf(b);
        assert(split_on(crlf(s), '\n') =~= seq![a2] + with_cr(split_on(b, '\n')));
        assert(split_on(s, '\n') =~= seq![a] + split_on(b, '\n'));
        let sb = split_on(b, '\n');
        assert(sb.len() > 0) by {
            reveal_with_fuel(split_on, 1);
        }
        assert(with_cr(seq![a] + sb) =~= seq![a2] + with_cr(sb));
    }
}

proof fn lemma_trim_start_push_ws(l: Seq<char>, w: char)
    requires
        is_ws(w),
    ensures
        trim_start(l.push(w)) == if trim_start(l).len() == 0 {
            Seq::<char>::empty()
        } else {
            trim_start(l).push(w)
        },
    decreases l.len(),
{
    if l.len() == 0 {
        assert(l.push(w).drop_first() =~= Seq::<char>::empty());
        assert(trim_start(Seq::<char>::empty()) =~= Seq::<char>::empty());
        assert(trim_start(l) =~= Seq::<char>::empty());
    } else {
        assert(l.push(w)[0] == l[0]);
        if is_ws(l[0]) {
            assert(l.push(w).drop_first() =~= l.drop_first().push(w));
            lemma_trim_start_push_ws(l.drop_first(), w);
        }
    }
}

/// A trailing whitespace character makes no difference once trimmed.
pub proof fn lemma_trim_push_ws(l: Seq<char>, w: char)
    requires
        is_ws(w),
    ensures
        trim(l.push(w)) == trim(l),
{
    lemma_trim_start_push_ws(l, w);
    let t = trim_start(l);
    if t.len() > 0 {
        assert(t.push(w).drop_last() =~= t);
    }
}

/// Whether `s` begins with `p`.
pub open spec fn starts_with(s: Seq<char>, p: Seq<char>) -> bool {
    p.len() <= s.len() && s.take(p.len() as int) == p
}

/// Whether `v[lo..hi]` begins with `p`.
pub fn has_prefix(v: &[char], lo: usize, hi: usize, p: &[char]) -> (b: bool)
    requires
        lo <= hi <= v@.len(),
    ensures
        b == starts_with(v@.subrange(lo as int, hi as int), p@),
{
    if p.len() > hi - lo {
        return false;
    }
    let mut i: usize = 0;
    while i < p.len()
        invariant
            p@.len() <= hi - lo,
            lo <= hi <= v@.len(),
            0 <= i <= p@.len(),
            forall|j: int| 0 <= j < i ==> v@[lo + j] == p@[j],
        decreases p.len() - i,
    {
        if v[lo + i] != p[i] {
            assert(v@.subrange(lo as int, hi as int).take(p@.len() as int)[i as int] != p@[i as int]);
            return false;
        }
        i = i + 1;
    }
    assert(v@.subrange(lo as int, hi as int).take(p@.len() as int) =~= p@);
    true
}

/// Whether `v[lo..hi]` is exactly `p`.
pub fn range_eq(v: &[char], lo: usize, hi: usize, p: &[char]) -> (b: bool)
    requires
        lo <= hi <= v@.len(),
    ensures
        b == (v@.subrange(lo as int, hi as int) == p@),
{
    if hi - lo != p.len() {
        return false;
    }
    let b = has_prefix(v, lo, hi, p);
    assert(v@.subrange(lo as int, hi as int).take(p@.len() as int) =~= v@.subrange(
        lo as int,
        hi as int,
    ));
    b
}

/// The first position `p' >= p` at which `pat` occurs in `s`.
pub open spec fn find_from(s: Seq<char>, pat: Seq<char>, p: int) -> Option<int>
    decreases s.len() + 1 - p,
{
    if p < 0 || p + pat.len() > s.len() {
        None
    } else if s.subrange(p, p + pat.len()) == pat {
        Some(p)
    } else {
        find_from(s, pat, p + 1)
    }
}

pub proof fn lemma_find_from_found(s: Seq<char>, pat: Seq<char>, p: int)
    ensures
        find_from(s, pat, p) matches Some(i) ==> p <= i && i + pat.len() <= s.len() && s.subrange(
            i,
            i + pat.len(),
        ) == pat,
    decreases s.len() + 1 - p,
{
    if !(p < 0 || p + pat.len() > s.len()) && s.subrange(p, p + pat.len()) != pat {
        lemma_find_from_found(s, pat, p + 1);
    }
}

/// The first position at or after `from` where `pat` occurs in `v`.
pub fn find_pattern(v: &[char], from: usize, pat: &[char]) -> (r: Option<usize>)
    ensures
        match r {
            Some(i) => find_from(v@, pat@, from as int) == Some(i as int),
            None => find_from(v@, pat@, from as int) is None,
        },
        r matches Some(i) ==> from <= i && i + pat@.len() <= v@.len() && v@.subrange(
            i as int,
            i + pat@.len(),
        ) == pat@,
{
    proof {
        lemma_find_from_found(v@, pat@, from as int);
    }
    let mut i = from;
    loop
        invariant
            from <= i,
            find_from(v@, pat@, from as int) == find_from(v@, pat@, i as int),
        decreases v@.len() + 1 - i,
    {
        if i > v.len() || pat.len() > v.len() - i {
            return None;
        }
        if range_eq(v, i, i + pat.len(), pat) {
            return Some(i);
        }
        assert(i < v@.len()) by {
            if pat@.len() == 0 {
                assert(v@.subrange(i as int, i as int) =~= pat@);
            }
        }
        i = i + 1;
    }
}

/// The index of the last `c` in `s`, or -1 when there is none.
pub open spec fn last_index(s: Seq<char>, c: char) -> int
    decreases s.len(),
{
    if s.len() == 0 {
        -1
    } else if s.last() == c {
        s.len() - 1
    } else {
        last_index(s.drop_last(), c)
    }
}

/// The position of the last `c` in `v`.
pub fn find_last(v: &[char], c: char) -> (r: Option<usize>)
    ensures
        match r {
            Some(i) => i as int == last_index(v@, c) && i < v@.len(),
            None => last_index(v@, c) == -1,
        },
{
    let mut i = v.len();
    assert(v@.take(i as int) =~= v@);
    while i > 0 && v[i - 1] != c
        invariant
            i <= v@.len(),
            last_index(v@, c) == last_index(v@.take(i as int), c),
        decreases i,
    {
        assert(v@.take(i as int).drop_last() =~= v@.take(i - 1));
        i = i - 1;
    }
    if i == 0 {
        assert(v@.take(0) =~= Seq::<char>::empty());
        None
    } else {
        Some(i - 1)
    }
}

/// ASCII lower-casing of one character (`char::to_ascii_lowercase`).
pub open spec fn lower_char(c: char) -> char {
    if 'A' <= c && c <= 'Z' {
        ((c as u32) + 32) as char
    } else {
        c
    }
}

/// ASCII lower-casing of a sequence (`str::to_ascii_lowercase`).
pub open spec fn ascii_lower(s: Seq<char>) -> Seq<char> {
    s.map_values(|c: char| lower_char(c))
}

pub fn to_lower_char(c: char) -> (r: char)
    ensures
        r == lower_char(c),
{
    if 'A' <= c && c <= 'Z' {
        let u = (c as u32) + 32;
        proof {
            assert(u == (c as u32) + 32);
        }
        char_from_ascii(u)
    } else {
        c
    }
}

/// The character with code `u`, for `u` below 0x80.
pub fn char_from_ascii(u: u32) -> (c: char)
    requires
        u < 128,
    ensures
        c == u as char,
{
    let b = u as u8;
    b as char
}

/// `v[lo..hi]` lower-cased.
pub fn lower_range(v: &[char], lo: usize, hi: usize) -> (r: Vec<char>)
    requires
        lo <= hi <= v@.len(),
    ensures
        r@ == ascii_lower(v@.subrange(lo as int, hi as int)),
{
    let mut r: Vec<char> = Vec::new();
    let mut i = lo;
    while i < hi
        invariant
            lo <= i <= hi <= v@.len(),
            r@ == ascii_lower(v@.subrange(lo as int, i as int)),
        decreases hi - i,
    {
        let c = to_lower_char(v[i]);
        r.push(c);
        assert(ascii_lower(v@.subrange(lo as int, i + 1)) =~= ascii_lower(
            v@.subrange(lo as int, i as int),
        ).push(lower_char(v@[i as int])));
        i = i + 1;
    }
    r
}

} // verus!
