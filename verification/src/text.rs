//! Character-level text handling: the whitespace, trimming, line and field
//! splitting and substring rules that the configuration file and the device
//! and agent strings are read with, each stated over `Seq<char>`.
use vstd::prelude::*;

verus! {

// ----------------------------------------------------------------------------
// Specifications
// ----------------------------------------------------------------------------

/// `char::is_whitespace`: the characters with Unicode's White_Space property.
pub open spec fn is_ws(c: char) -> bool {
    let u = c as u32;
    ||| 0x09 <= u <= 0x0D
    ||| u == 0x20
    ||| u == 0x85
    ||| u == 0xA0
    ||| u == 0x1680
    ||| 0x2000 <= u <= 0x200A
    ||| u == 0x2028
    ||| u == 0x2029
    ||| u == 0x202F
    ||| u == 0x205F
    ||| u == 0x3000
}

/// The predicate "is the character `c`".
pub open spec fn is_char(c: char) -> spec_fn(char) -> bool {
    |x: char| x == c
}

/// The predicate "is whitespace".
pub open spec fn is_space() -> spec_fn(char) -> bool {
    |x: char| is_ws(x)
}

/// The first index at or after `i` whose character satisfies `p`, or the
/// length of `s` when there is none.
pub open spec fn find_from(s: Seq<char>, p: spec_fn(char) -> bool, i: int) -> int
    decreases s.len() - i,
{
    if i >= s.len() {
        s.len() as int
    } else if p(s[i]) {
        i
    } else {
        find_from(s, p, i + 1)
    }
}

/// `s` without its leading whitespace.
pub open spec fn trim_start(s: Seq<char>) -> Seq<char>
    decreases s.len(),
{
    if s.len() > 0 && is_ws(s[0]) {
        trim_start(s.drop_first())
    } else {
        s
    }
}

/// `s` without its trailing whitespace.
pub open spec fn trim_end(s: Seq<char>) -> Seq<char>
    decreases s.len(),
{
    if s.len() > 0 && is_ws(s.last()) {
        trim_end(s.drop_last())
    } else {
        s
    }
}

/// `str::trim`: `s` without leading and trailing whitespace.
pub open spec fn trim(s: Seq<char>) -> Seq<char> {
    trim_end(trim_start(s))
}

/// `s` without one final carriage return, if it ends with one.
pub open spec fn strip_cr(s: Seq<char>) -> Seq<char> {
    if s.len() > 0 && s.last() == '\r' {
        s.drop_last()
    } else {
        s
    }
}

/// `str::lines`: the pieces of `s` between line feeds, a final empty piece
/// left out, and a carriage return dropped from the end of each piece that a
/// line feed ends.
pub open spec fn lines(s: Seq<char>) -> Seq<Seq<char>>
    decreases s.len(),
{
    if s.len() == 0 {
        seq![]
    } else {
        let j = find_from(s, is_char('\n'), 0);
        if j < s.len() {
            proof {
                lemma_find_from(s, is_char('\n'), 0);
            }
            seq![strip_cr(s.take(j))] + lines(s.skip(j + 1))
        } else {
            seq![s]
        }
    }
}

/// `str::split(c)`: the pieces of `s` between occurrences of `c`, empty
/// pieces included; the empty text is one empty piece.
pub open spec fn split_char(s: Seq<char>, c: char) -> Seq<Seq<char>>
    decreases s.len(),
{
    let j = find_from(s, is_char(c), 0);
    if j < s.len() {
        proof {
            lemma_find_from(s, is_char(c), 0);
        }
        seq![s.take(j)] + split_char(s.skip(j + 1), c)
    } else {
        seq![s]
    }
}

/// `str::split_whitespace`: the maximal runs of non-whitespace characters.
pub open spec fn words(s: Seq<char>) -> Seq<Seq<char>>
    decreases s.len(),
{
    if s.len() == 0 {
        seq![]
    } else if is_ws(s[0]) {
        words(s.drop_first())
    } else {
        let j = find_from(s, is_space(), 0);
        proof {
            lemma_find_from(s, is_space(), 0);
        }
        seq![s.take(j)] + words(s.skip(j))
    }
}

/// Whether `pre` is a prefix of `s`.
pub open spec fn starts_with(s: Seq<char>, pre: Seq<char>) -> bool {
    pre.len() <= s.len() && s.take(pre.len() as int) == pre
}

/// Whether `s` ends with `suf`.
pub open spec fn ends_with(s: Seq<char>, suf: Seq<char>) -> bool {
    suf.len() <= s.len() && s.skip(s.len() - suf.len()) == suf
}

/// Whether `needle` occurs in `hay` as a contiguous piece.
pub open spec fn contains(hay: Seq<char>, needle: Seq<char>) -> bool {
    exists|i: int|
        0 <= i && i + needle.len() <= hay.len() && #[trigger] hay.subrange(i, i + needle.len())
            == needle
}

/// `char::to_ascii_lowercase`.
pub open spec fn ascii_lower(c: char) -> char {
    if 'A' <= c <= 'Z' {
        ((c as u32) + 32) as char
    } else {
        c
    }
}

/// `str::to_ascii_lowercase`.
pub open spec fn ascii_lowercase(s: Seq<char>) -> Seq<char> {
    Seq::new(s.len(), |i: int| ascii_lower(s[i]))
}

/// The decimal digit for `d < 10`.
pub open spec fn digit_char(d: nat) -> char {
    ((48 + d) as u32) as char
}

/// The decimal numeral of `n`, as `u32::to_string` writes it.
pub open spec fn decimal(n: nat) -> Seq<char>
    decreases n,
{
    if n < 10 {
        seq![digit_char(n)]
    } else {
        decimal(n / 10).push(digit_char(n % 10))
    }
}

/// What std's `str::to_lowercase` returns for a text: Unicode's lowercase
/// mapping, whose tables are std's and are not written out here.
pub uninterp spec fn unicode_lowercase(s: Seq<char>) -> Seq<char>;

// ----------------------------------------------------------------------------
// Lemmas
// ----------------------------------------------------------------------------

/// Where `find_from` lands, and that it skips only characters failing `p`.
pub proof fn lemma_find_from(s: Seq<char>, p: spec_fn(char) -> bool, i: int)
    requires
        0 <= i <= s.len(),
    ensures
        i <= find_from(s, p, i) <= s.len(),
        find_from(s, p, i) < s.len() ==> p(s[find_from(s, p, i)]),
        forall|k: int| i <= k < find_from(s, p, i) ==> !p(#[trigger] s[k]),
    decreases s.len() - i,
{
    if i < s.len() && !p(s[i]) {
        lemma_find_from(s, p, i + 1);
    }
}

/// Searching a suffix is searching the whole from further on.
pub proof fn lemma_find_from_skip(s: Seq<char>, p: spec_fn(char) -> bool, d: int, i: int)
    requires
        0 <= d <= s.len(),
        0 <= i <= s.len() - d,
    ensures
        find_from(s.skip(d), p, i) == find_from(s, p, i + d) - d,
    decreases s.len() - d - i,
{
    if i < s.len() - d {
        assert(s.skip(d)[i] == s[i + d]);
        if !p(s[i + d]) {
            lemma_find_from_skip(s, p, d, i + 1);
        }
    }
}

/// Trimming the start only ever removes characters, and removes some exactly
/// when the text starts with whitespace.
pub proof fn lemma_trim_start_len(s: Seq<char>)
    ensures
        trim_start(s).len() <= s.len(),
        s.len() > 0 && is_ws(s[0]) ==> trim_start(s).len() < s.len(),
        !(s.len() > 0 && is_ws(s[0])) ==> trim_start(s) == s,
    decreases s.len(),
{
    if s.len() > 0 && is_ws(s[0]) {
        lemma_trim_start_len(s.drop_first());
    }
}

/// Trimming the end only ever removes characters, and removes some exactly
/// when the text ends with whitespace.
pub proof fn lemma_trim_end_len(s: Seq<char>)
    ensures
        trim_end(s).len() <= s.len(),
        s.len() > 0 && is_ws(s.last()) ==> trim_end(s).len() < s.len(),
        !(s.len() > 0 && is_ws(s.last())) ==> trim_end(s) == s,
    decreases s.len(),
{
    if s.len() > 0 && is_ws(s.last()) {
        lemma_trim_end_len(s.drop_last());
    }
}

/// Trimming leaves a text alone exactly when it neither starts nor ends with
/// whitespace.
pub proof fn lemma_trimmed(s: Seq<char>)
    ensures
        trim(s) == s <==> (s.len() == 0 || (!is_ws(s[0]) && !is_ws(s.last()))),
{
    lemma_trim_start_len(s);
    lemma_trim_end_len(trim_start(s));
    lemma_trim_end_len(s);
}

/// In `p + [c] + q`, with no `c` in `p`, the first `c` is the one after `p`.
pub proof fn lemma_find_first(p: Seq<char>, c: char, q: Seq<char>, i: int)
    requires
        0 <= i <= p.len(),
        !p.contains(c),
    ensures
        find_from(p + seq![c] + q, is_char(c), i) == p.len(),
    decreases p.len() - i,
{
    let x = p + seq![c] + q;
    if i < p.len() {
        assert(x[i] == p[i]);
        assert(p[i] != c);
        lemma_find_first(p, c, q, i + 1);
    } else {
        assert(x[i] == c);
    }
}

// ----------------------------------------------------------------------------
// Executable helpers
// ----------------------------------------------------------------------------

/// The characters of `s`, in order.
pub fn chars_of(s: &str) -> (v: Vec<char>)
    ensures
        v@ == s@,
{
    let mut v: Vec<char> = Vec::new();
    for c in it: s.chars()
        invariant
            v@ == it.seq().take(it.index()),
    {
        v.push(c);
    }
    v
}

/// Calls std's `String::push`. Trusted to leave `s` holding its former
/// characters followed by `c`, as the method's documentation says.
#[verifier::external_body]
pub(crate) fn push_char(s: &mut String, c: char)
    ensures
        final(s)@ == old(s)@.push(c),
{
    s.push(c);
}

/// Calls std's `str::to_lowercase`. Trusted only to return a string whose
/// characters depend on the argument's characters alone, named
/// `unicode_lowercase`; which lowercase mapping std applies is left unsaid.
#[verifier::external_body]
pub(crate) fn to_lowercase(s: &str) -> (r: String)
    ensures
        r@ == unicode_lowercase(s@),
{
    s.to_lowercase()
}

/// The string made of `v[lo..hi]`.
pub fn string_of(v: &Vec<char>, lo: usize, hi: usize) -> (s: String)
    requires
        lo <= hi <= v.len(),
    ensures
        s@ == v@.subrange(lo as int, hi as int),
{
    let mut s = String::new();
    let mut i = lo;
    while i < hi
        invariant
            lo <= i <= hi <= v.len(),
            s@ == v@.subrange(lo as int, i as int),
        decreases hi - i,
    {
        push_char(&mut s, v[i]);
        assert(v@.subrange(lo as int, i + 1) == v@.subrange(lo as int, i as int).push(v@[i as int]));
        i += 1;
    }
    s
}

/// The vector made of `v[lo..hi]`.
pub fn sub_vec(v: &Vec<char>, lo: usize, hi: usize) -> (r: Vec<char>)
    requires
        lo <= hi <= v.len(),
    ensures
        r@ == v@.subrange(lo as int, hi as int),
{
    let mut r: Vec<char> = Vec::new();
    let mut i = lo;
    while i < hi
        invariant
            lo <= i <= hi <= v.len(),
            r@ == v@.subrange(lo as int, i as int),
        decreases hi - i,
    {
        r.push(v[i]);
        assert(v@.subrange(lo as int, i + 1) == v@.subrange(lo as int, i as int).push(v@[i as int]));
        i += 1;
    }
    r
}

/// `char::is_whitespace`.
pub fn is_ws_char(c: char) -> (b: bool)
    ensures
        b == is_ws(c),
{
    let u = c as u32;
    (0x09 <= u && u <= 0x0D) || u == 0x20 || u == 0x85 || u == 0xA0 || u == 0x1680 || (0x2000
        <= u && u <= 0x200A) || u == 0x2028 || u == 0x2029 || u == 0x202F || u == 0x205F || u
        == 0x3000
}

/// The first index at or after `i` holding `c`, or `v.len()`.
pub fn find_char(v: &Vec<char>, c: char, i: usize) -> (j: usize)
    requires
        i <= v.len(),
    ensures
        j == find_from(v@, is_char(c), i as int),
        i <= j <= v.len(),
{
    let mut j = i;
    while j < v.len() && v[j] != c
        invariant
            i <= j <= v.len(),
            find_from(v@, is_char(c), i as int) == find_from(v@, is_char(c), j as int),
        decreases v.len() - j,
    {
        j += 1;
    }
    j
}

/// The bounds of `trim(v[lo..hi])` inside `v`.
pub fn trim_range(v: &Vec<char>, lo: usize, hi: usize) -> (r: (usize, usize))
    requires
        lo <= hi <= v.len(),
    ensures
        lo <= r.0 <= r.1 <= hi,
        v@.subrange(r.0 as int, r.1 as int) == trim(v@.subrange(lo as int, hi as int)),
{
    let mut a = lo;
    while a < hi && is_ws_char(v[a])
        invariant
            lo <= a <= hi <= v.len(),
            trim_start(v@.subrange(lo as int, hi as int)) == trim_start(
                v@.subrange(a as int, hi as int),
            ),
        decreases hi - a,
    {
        assert(v@.subrange(a as int, hi as int).drop_first() == v@.subrange(a + 1, hi as int));
        a += 1;
    }
    assert(trim_start(v@.subrange(a as int, hi as int)) == v@.subrange(a as int, hi as int));
    let mut b = hi;
    while b > a && is_ws_char(v[b - 1])
        invariant
            lo <= a <= b <= hi <= v.len(),
            trim(v@.subrange(lo as int, hi as int)) == trim_end(v@.subrange(a as int, b as int)),
        decreases b - a,
    {
        assert(v@.subrange(a as int, b as int).drop_last() == v@.subrange(a as int, b - 1));
        b -= 1;
    }
    (a, b)
}

/// `lines(v)`, each line copied out.
pub fn split_lines(v: &Vec<char>) -> (r: Vec<Vec<char>>)
    ensures
        r.deep_view() == lines(v@),
{
    let mut r: Vec<Vec<char>> = Vec::new();
    let mut i: usize = 0;
    assert(v@.skip(0) =~= v@);
    assert(r.deep_view() + lines(v@) =~= lines(v@));
    while i < v.len()
        invariant
            i <= v.len(),
            lines(v@) == r.deep_view() + lines(v@.skip(i as int)),
        decreases v.len() - i,
    {
        let ghost rest = v@.skip(i as int);
        let j = find_char(v, '\n', i);
        proof {
            lemma_find_from_skip(v@, is_char('\n'), i as int, 0);
        }
        if j < v.len() {
            let end = if j > i && v[j - 1] == '\r' {
                j - 1
            } else {
                j
            };
            let line = sub_vec(v, i, end);
            proof {
                assert(rest.take(j - i) == v@.subrange(i as int, j as int));
                assert(rest.skip(j - i + 1) == v@.skip(j + 1));
                if j > i && v@[j - 1] == '\r' {
                    assert(v@.subrange(i as int, j as int).drop_last() == v@.subrange(
                        i as int,
                        j - 1,
                    ));
                }
                assert(strip_cr(rest.take(j - i)) == line@);
                assert(lines(rest) == seq![line@] + lines(v@.skip(j + 1)));
            }
            let ghost prev = r.deep_view();
            assert(line.deep_view() =~= line@);
            r.push(line);
            assert(r.deep_view() =~= prev.push(line@));
            i = j + 1;
        } else {
            let line = sub_vec(v, i, v.len());
            proof {
                assert(v@.subrange(i as int, v.len() as int) == rest);
                assert(lines(rest) == seq![rest]);
                assert(v@.skip(v.len() as int).len() == 0);
            }
            let ghost prev = r.deep_view();
            assert(line.deep_view() =~= line@);
            r.push(line);
            assert(r.deep_view() =~= prev.push(line@));
            i = v.len();
        }
    }
    r
}

/// Whether `needle` stands in `hay` at index `i`.
pub fn matches_at(hay: &Vec<char>, needle: &Vec<char>, i: usize) -> (b: bool)
    requires
        i + needle.len() <= hay.len(),
    ensures
        b == (hay@.subrange(i as int, i + needle.len()) == needle@),
{
    let mut j: usize = 0;
    while j < needle.len()
        invariant
            j <= needle.len(),
            i + needle.len() <= hay.len(),
            forall|k: int| 0 <= k < j ==> hay@[i + k] == needle@[k],
        decreases needle.len() - j,
    {
        if hay[i + j] != needle[j] {
            assert(hay@.subrange(i as int, i + needle.len())[j as int] != needle@[j as int]);
            return false;
        }
        j += 1;
    }
    assert(hay@.subrange(i as int, i + needle.len()) =~= needle@);
    true
}

/// Whether `needle` occurs in `hay`.
pub fn vec_contains(hay: &Vec<char>, needle: &Vec<char>) -> (b: bool)
    ensures
        b == contains(hay@, needle@),
{
    if needle.len() > hay.len() {
        return false;
    }
    let last = hay.len() - needle.len();
    let mut i: usize = 0;
    loop
        invariant
            i <= last,
            last + needle.len() == hay.len(),
            forall|k: int|
                0 <= k < i ==> #[trigger] hay@.subrange(k, k + needle.len()) != needle@,
        decreases last - i,
    {
        if matches_at(hay, needle, i) {
            return true;
        }
        if i == last {
            assert(forall|k: int|
                0 <= k && k + needle.len() <= hay.len() ==> #[trigger] hay@.subrange(
                    k,
                    k + needle.len(),
                ) != needle@);
            return false;
        }
        i += 1;
    }
}

/// Whether `v[lo..hi]` starts with `pre`.
pub fn range_starts_with(v: &Vec<char>, lo: usize, hi: usize, pre: &Vec<char>) -> (b: bool)
    requires
        lo <= hi <= v.len(),
    ensures
        b == starts_with(v@.subrange(lo as int, hi as int), pre@),
{
    if pre.len() > hi - lo {
        return false;
    }
    let b = matches_at(v, pre, lo);
    assert(v@.subrange(lo as int, hi as int).take(pre.len() as int) =~= v@.subrange(
        lo as int,
        lo + pre.len(),
    ));
    b
}

/// `v` with each ASCII capital letter made small.
pub fn ascii_lowercase_vec(v: &Vec<char>) -> (r: Vec<char>)
    ensures
        r@ == ascii_lowercase(v@),
{
    let mut r: Vec<char> = Vec::new();
    let mut i: usize = 0;
    while i < v.len()
        invariant
            i <= v.len(),
            r@ == ascii_lowercase(v@).take(i as int),
        decreases v.len() - i,
    {
        let c = v[i];
        let l = if 'A' <= c && c <= 'Z' {
            ((c as u32) + 32) as u8 as char
        } else {
            c
        };
        r.push(l);
        assert(ascii_lowercase(v@).take(i + 1) =~= ascii_lowercase(v@).take(i as int).push(l));
        i += 1;
    }
    assert(ascii_lowercase(v@).take(i as int) =~= ascii_lowercase(v@));
    r
}

/// The first word of `v[i..]` and where it ends: `(a, b)` with `a == v.len()`
/// when there is none.
pub fn next_word(v: &Vec<char>, i: usize) -> (r: (usize, usize))
    requires
        i <= v.len(),
    ensures
        i <= r.0 <= r.1 <= v.len(),
        r.0 == v.len() ==> words(v@.skip(i as int)) == Seq::<Seq<char>>::empty(),
        r.0 < v.len() ==> r.0 < r.1 && words(v@.skip(i as int)) == seq![
            v@.subrange(r.0 as int, r.1 as int),
        ] + words(v@.skip(r.1 as int)),
{
    let mut a = i;
    while a < v.len() && is_ws_char(v[a])
        invariant
            i <= a <= v.len(),
            words(v@.skip(i as int)) == words(v@.skip(a as int)),
        decreases v.len() - a,
    {
        assert(v@.skip(a as int).drop_first() =~= v@.skip(a + 1));
        a += 1;
    }
    if a == v.len() {
        assert(v@.skip(a as int).len() == 0);
        return (a, a);
    }
    let mut b = a;
    while b < v.len() && !is_ws_char(v[b])
        invariant
            a <= b <= v.len(),
            find_from(v@, is_space(), a as int) == find_from(v@, is_space(), b as int),
        decreases v.len() - b,
    {
        b += 1;
    }
    proof {
        lemma_find_from_skip(v@, is_space(), a as int, 0);
        let s = v@.skip(a as int);
        assert(s[0] == v@[a as int]);
        assert(s.take(b - a) =~= v@.subrange(a as int, b as int));
        assert(s.skip(b - a) =~= v@.skip(b as int));
    }
    (a, b)
}

} // verus!
