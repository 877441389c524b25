use vstd::prelude::*;

verus! {

/// Whitespace as `char::is_whitespace` defines it (the Unicode White_Space property).
pub open spec fn is_ws(c: char) -> bool {
    c == '\t' || c == '\n' || c == '\u{0B}' || c == '\u{0C}' || c == '\r' || c == ' '
        || c == '\u{85}' || c == '\u{A0}' || c == '\u{1680}' || ('\u{2000}' <= c
        && c <= '\u{200A}') || c == '\u{2028}' || c == '\u{2029}' || c == '\u{202F}'
        || c == '\u{205F}' || c == '\u{3000}'
}

/// Whether `c` is whitespace.
pub fn is_whitespace(c: char) -> (r: bool)
    ensures
        r == is_ws(c),
{
    c == '\t' || c == '\n' || c == '\u{0B}' || c == '\u{0C}' || c == '\r' || c == ' '
        || c == '\u{85}' || c == '\u{A0}' || c == '\u{1680}' || ('\u{2000}' <= c
        && c <= '\u{200A}') || c == '\u{2028}' || c == '\u{2029}' || c == '\u{202F}'
        || c == '\u{205F}' || c == '\u{3000}'
}


/// `s` without its leading whitespace.
pub open spec fn trim_start(s: Seq<char>) -> Seq<char>
    decreases s.len(),
{
    if s.len() > 0 && is_ws(s[0]) {
        trim_start(s.drop_first())
    } else {
        s
    }
}

/// `s` without its trailing whitespace.
pub open spec fn trim_end(s: Seq<char>) -> Seq<char>
    decreases s.len(),
{
    if s.len() > 0 && is_ws(s.last()) {
        trim_end(s.drop_last())
    } else {
        s
    }
}

/// `s` without leading and trailing whitespace, as `str::trim` gives it.
pub open spec fn trim(s: Seq<char>) -> Seq<char> {
    trim_end(trim_start(s))
}

/// The first word of `s`: its characters up to the first whitespace.
pub open spec fn word(s: Seq<char>) -> Seq<char>
    decreases s.len(),
{
    if s.len() == 0 || is_ws(s[0]) {
        seq![]
    } else {
        seq![s[0]] + word(s.drop_first())
    }
}

/// What follows the first word of `s`.
pub open spec fn after_word(s: Seq<char>) -> Seq<char>
    decreases s.len(),
{
    if s.len() == 0 || is_ws(s[0]) {
        s
    } else {
        after_word(s.drop_first())
    }
}

/// The characters of `s` before the first `c` (all of them where there is none).
pub open spec fn before_char(s: Seq<char>, c: char) -> Seq<char>
    decreases s.len(),
{
    if s.len() == 0 {
        s
    } else if s[0] == c {
        seq![]
    } else {
        seq![s[0]] + before_char(s.drop_first(), c)
    }
}

/// The characters of `s` after the first `c` (none where there is none).
pub open spec fn after_char(s: Seq<char>, c: char) -> Seq<char>
    decreases s.len(),
{
    if s.len() == 0 {
        s
    } else if s[0] == c {
        s.drop_first()
    } else {
        after_char(s.drop_first(), c)
    }
}

/// The pieces of `s` between the occurrences of `sep`: one more than there are
/// separators.
pub open spec fn pieces(s: Seq<char>, sep: char) -> Seq<Seq<char>>
    decreases s.len(),
{
    if s.len() == 0 {
        seq![seq![]]
    } else {
        let p = pieces(s.drop_last(), sep);
        if s.last() == sep {
            p.push(seq![])
        } else {
            p.update(p.len() - 1, p.last().push(s.last()))
        }
    }
}

/// The characters of `s`.
pub fn chars_of(s: &str) -> (r: Vec<char>)
    ensures
        r@ == s@,
{
    broadcast use vstd::string::axiom_spec_iter;

    let mut v: Vec<char> = Vec::new();
    for c in it: s.chars()
        invariant
            v@ == it.seq().take(it.index() as int),
    {
        v.push(c);
    }
    v
}

/// The characters `s[lo..hi]` as a `String`.
pub fn substring(s: &str, lo: usize, hi: usize) -> (r: String)
    requires
        lo <= hi <= s@.len(),
    ensures
        r@ == s@.subrange(lo as int, hi as int),
{
    s.substring_char(lo, hi).to_owned()
}

/// A copy of `v[lo..hi]`.
pub fn copy_range(v: &Vec<char>, lo: usize, hi: usize) -> (r: Vec<char>)
    requires
        lo <= hi <= v.len(),
    ensures
        r@ == v@.subrange(lo as int, hi as int),
{
    let mut r: Vec<char> = Vec::new();
    let mut i: usize = lo;
    while i < hi
        invariant
            lo <= i <= hi <= v.len(),
            r@ == v@.subrange(lo as int, i as int),
        decreases hi - i,
    {
        r.push(v[i]);
        i = i + 1;
        assert(r@ =~= v@.subrange(lo as int, i as int));
    }
    r
}

/// First position at or after `lo` that is not whitespace (or `hi`).
pub fn skip_ws(v: &Vec<char>, lo: usize, hi: usize) -> (r: usize)
    requires
        lo <= hi <= v.len(),
    ensures
        lo <= r <= hi,
        v@.subrange(r as int, hi as int) == trim_start(v@.subrange(lo as int, hi as int)),
{
    let mut i: usize = lo;
    while i < hi && is_whitespace(v[i])
        invariant
            lo <= i <= hi <= v.len(),
            trim_start(v@.subrange(lo as int, hi as int)) == trim_start(
                v@.subrange(i as int, hi as int),
            ),
        decreases hi - i,
    {
        assert(v@.subrange(i as int, hi as int).drop_first() =~= v@.subrange(
            i as int + 1,
            hi as int,
        ));
        i = i + 1;
    }
    i
}

/// The range of `v[lo..hi]` that remains once it is trimmed.
pub fn trim_range(v: &Vec<char>, lo: usize, hi: usize) -> (r: (usize, usize))
    requires
        lo <= hi <= v.len(),
    ensures
        lo <= r.0 <= r.1 <= hi,
        v@.subrange(r.0 as int, r.1 as int) == trim(v@.subrange(lo as int, hi as int)),
{
    let a = skip_ws(v, lo, hi);
    let mut b: usize = hi;
    while b > a && is_whitespace(v[b - 1])
        invariant
            lo <= a <= b <= hi <= v.len(),
            trim_end(v@.subrange(a as int, hi as int)) == trim_end(
                v@.subrange(a as int, b as int),
            ),
        decreases b,
    {
        assert(v@.subrange(a as int, b as int).drop_last() =~= v@.subrange(
            a as int,
            b as int - 1,
        ));
        b = b - 1;
    }
    (a, b)
}

/// End of the word that starts at `lo`.
pub fn word_end(v: &Vec<char>, lo: usize, hi: usize) -> (r: usize)
    requires
        lo <= hi <= v.len(),
    ensures
        lo <= r <= hi,
        v@.subrange(lo as int, r as int) == word(v@.subrange(lo as int, hi as int)),
        v@.subrange(r as int, hi as int) == after_word(v@.subrange(lo as int, hi as int)),
{
    let mut i: usize = lo;
    while i < hi && !is_whitespace(v[i])
        invariant
            lo <= i <= hi <= v.len(),
            word(v@.subrange(lo as int, hi as int)) == v@.subrange(lo as int, i as int) + word(
                v@.subrange(i as int, hi as int),
            ),
            after_word(v@.subrange(lo as int, hi as int)) == after_word(
                v@.subrange(i as int, hi as int),
            ),
        decreases hi - i,
    {
        let ghost t = v@.subrange(i as int, hi as int);
        assert(t.drop_first() =~= v@.subrange(i as int + 1, hi as int));
        assert(v@.subrange(lo as int, i as int) + seq![t[0]] =~= v@.subrange(
            lo as int,
            i as int + 1,
        ));
        assert(v@.subrange(lo as int, i as int) + word(t) =~= v@.subrange(lo as int, i as int + 1)
            + word(t.drop_first()));
        i = i + 1;
    }
    assert(v@.subrange(lo as int, i as int) + seq![] =~= v@.subrange(lo as int, i as int));
    i
}

/// Position of the first `c` in `v[lo..hi]` (or `hi`).
pub fn find_char(v: &Vec<char>, lo: usize, hi: usize, c: char) -> (r: usize)
    requires
        lo <= hi <= v.len(),
    ensures
        lo <= r <= hi,
        v@.subrange(lo as int, r as int) == before_char(v@.subrange(lo as int, hi as int), c),
        (r < hi) == v@.subrange(lo as int, hi as int).contains(c),
        r < hi ==> v@.subrange(r as int + 1, hi as int) == after_char(
            v@.subrange(lo as int, hi as int),
            c,
        ),
{
    let mut i: usize = lo;
    while i < hi && v[i] != c
        invariant
            lo <= i <= hi <= v.len(),
            before_char(v@.subrange(lo as int, hi as int), c) == v@.subrange(lo as int, i as int)
                + before_char(v@.subrange(i as int, hi as int), c),
            after_char(v@.subrange(lo as int, hi as int), c) == after_char(
                v@.subrange(i as int, hi as int),
                c,
            ),
            forall|k: int| lo <= k < i ==> v@[k] != c,
        decreases hi - i,
    {
        let ghost t = v@.subrange(i as int, hi as int);
        assert(t.drop_first() =~= v@.subrange(i as int + 1, hi as int));
        assert(v@.subrange(lo as int, i as int) + before_char(t, c) =~= v@.subrange(
            lo as int,
            i as int + 1,
        ) + before_char(t.drop_first(), c));
        i = i + 1;
    }
    let ghost s = v@.subrange(lo as int, hi as int);
    if i < hi {
        assert(s[i - lo] == c);
        assert(v@.subrange(i as int, hi as int).drop_first() =~= v@.subrange(i as int + 1, hi as int));
    } else {
        assert(!s.contains(c)) by {
            assert forall|k: int| 0 <= k < s.len() implies s[k] != c by {
                assert(s[k] == v@[lo + k]);
            }
        }
    }
    assert(v@.subrange(lo as int, i as int) + seq![] =~= v@.subrange(lo as int, i as int));
    i
}

} // verus!
