//! The hosts file: reading a line into an entry, checking hostnames and
//! addresses, splitting a file into foreign and managed entries, and building the
//! file that an environment turns it into.
use vstd::prelude::*;

use crate::config::{entries_view, entry_line, Environment, HostEntry, HostEntryView};
use crate::ip::{parse_ip, IpAddress};
use crate::text::{
    after_char, after_word, before_char, chars_of, copy_range, find_char, is_ws, pieces, skip_ws,
    substring, trim, trim_range, trim_start, word, word_end,
};

verus! {

/// Reads, checks and rebuilds the system hosts file.
pub struct HostsManager;

/// The entry that a hosts-file line holds, if it holds one: blank lines and
/// comment lines hold none; a comment starts at the first `#`; the first word
/// must be an address and a second word, the hostname, must follow; further
/// words are ignored.
pub open spec fn parse_line(line: Seq<char>) -> Option<HostEntryView> {
    let t = trim(line);
    if t.len() == 0 || t[0] == '#' {
        None
    } else {
        let content = before_char(t, '#');
        let comment = if t.contains('#') {
            Some(trim(after_char(t, '#')))
        } else {
            None
        };
        let first = trim_start(content);
        let second = trim_start(after_word(first));
        if word(second).len() == 0 {
            None
        } else {
            match parse_ip(word(first)) {
                None => None,
                Some(ip) => Some(HostEntryView { ip, hostname: word(second), comment }),
            }
        }
    }
}

/// What an optional entry holds.
pub open spec fn opt_entry_view(o: Option<HostEntry>) -> Option<HostEntryView> {
    match o {
        Some(e) => Some(e@),
        None => None,
    }
}

/// Parses the line `v[lo..hi]`, whose characters are those of `s`.
fn parse_range(s: &str, v: &Vec<char>, lo: usize, hi: usize) -> (r: Option<HostEntry>)
    requires
        v@ == s@,
        lo <= hi <= v.len(),
    ensures
        opt_entry_view(r) == parse_line(v@.subrange(lo as int, hi as int)),
{
    let (a, b) = trim_range(v, lo, hi);
    if a == b || v[a] == '#' {
        return None;
    }
    let ghost t = v@.subrange(a as int, b as int);
    assert(t[0] == v@[a as int]);
    let h = find_char(v, a, b, '#');
    let comment: Option<String> = if h < b {
        let (ca, cb) = trim_range(v, h + 1, b);
        Some(substring(s, ca, cb))
    } else {
        None
    };
    let f0 = skip_ws(v, a, h);
    let f1 = word_end(v, f0, h);
    let s0 = skip_ws(v, f1, h);
    let s1 = word_end(v, s0, h);
    if s0 == s1 {
        return None;
    }
    let token = copy_range(v, f0, f1);
    match IpAddress::parse_chars(&token) {
        None => None,
        Some(ip) => {
            let e = HostEntry { ip, hostname: substring(s, s0, s1), comment };
            Some(e)
        },
    }
}

/// Whether `c` is alphabetic or numeric in the Unicode sense.
pub uninterp spec fn alnum(c: char) -> bool;

/// Relies on `char::is_alphanumeric`: whether `c` has the Unicode Alphabetic or
/// Numeric property; the answer depends on `c` alone. ASCII letters and digits
/// have it; whitespace, `#`, `_` and `@` are neither alphabetic nor numeric.
#[verifier::external_body]
fn is_alphanumeric(c: char) -> (r: bool)
    ensures
        r == alnum(c),
        ('a' <= c && c <= 'z') || ('A' <= c && c <= 'Z') || ('0' <= c && c <= '9') ==> r,
        is_ws(c) || c == '#' || c == '_' || c == '@' ==> !r,
{
    c.is_alphanumeric()
}

/// Number of bytes that `c` takes in UTF-8.
pub open spec fn utf8_width(c: char) -> nat {
    if (c as u32) < 0x80 {
        1
    } else if (c as u32) < 0x800 {
        2
    } else if (c as u32) < 0x10000 {
        3
    } else {
        4
    }
}

/// Number of bytes that `s` takes in UTF-8.
pub open spec fn utf8_len(s: Seq<char>) -> nat
    decreases s.len(),
{
    if s.len() == 0 {
        0
    } else {
        utf8_len(s.drop_last()) + utf8_width(s.last())
    }
}

/// The smaller of two numbers.
pub open spec fn min_nat(a: nat, b: nat) -> nat {
    if a < b {
        a
    } else {
        b
    }
}

/// A character that `char::is_alphanumeric` accepts; never whitespace, `#`, `_`
/// or `@`.
pub open spec fn alnum_char(c: char) -> bool {
    alnum(c) && !is_ws(c) && c != '#' && c != '_' && c != '@'
}

/// The shape of a label of a hostname: 1 to 63 bytes, neither first nor last a
/// `-`.
pub open spec fn valid_label(l: Seq<char>) -> bool {
    &&& l.len() > 0
    &&& utf8_len(l) <= 63
    &&& l[0] != '-'
    &&& l.last() != '-'
}

/// The hostname rule, where `alphanumeric[i]` tells whether `s[i]` is
/// alphanumeric: 1 to 253 bytes, labels separated by `.` each of a valid shape,
/// and every other character alphanumeric or `-`.
pub open spec fn hostname_rule(s: Seq<char>, alphanumeric: Seq<bool>) -> bool {
    &&& s.len() > 0
    &&& utf8_len(s) <= 253
    &&& forall|k: int| 0 <= k < pieces(s, '.').len() ==> valid_label(#[trigger] pieces(s, '.')[k])
    &&& forall|i: int| 0 <= i < s.len() ==> s[i] == '.' || s[i] == '-' || alphanumeric[i]
}

/// Whether each character of `s` is alphanumeric.
pub open spec fn alnum_flags(s: Seq<char>) -> Seq<bool> {
    Seq::new(s.len(), |i: int| alnum_char(s[i]))
}

/// A hostname: the hostname rule with the characters that `char::is_alphanumeric`
/// accepts.
pub open spec fn valid_hostname(s: Seq<char>) -> bool {
    hostname_rule(s, alnum_flags(s))
}

fn char_width(c: char) -> (r: usize)
    ensures
        r as nat == utf8_width(c),
{
    if (c as u32) < 0x80 {
        1
    } else if (c as u32) < 0x800 {
        2
    } else if (c as u32) < 0x10000 {
        3
    } else {
        4
    }
}

/// UTF-8 length of `v[lo..hi]`, or `cap` where it is larger.
fn utf8_len_capped(v: &Vec<char>, lo: usize, hi: usize, cap: usize) -> (r: usize)
    requires
        lo <= hi <= v.len(),
        cap <= 1000,
    ensures
        r as nat == min_nat(utf8_len(v@.subrange(lo as int, hi as int)), cap as nat),
{
    let mut n: usize = 0;
    let mut i: usize = lo;
    while i < hi
        invariant
            lo <= i <= hi <= v.len(),
            cap <= 1000,
            n as nat == min_nat(utf8_len(v@.subrange(lo as int, i as int)), cap as nat),
        decreases hi - i,
    {
        assert(v@.subrange(lo as int, i as int + 1).drop_last() =~= v@.subrange(lo as int, i as int));
        let w = char_width(v[i]);
        n = if n + w > cap {
            cap
        } else {
            n + w
        };
        i = i + 1;
    }
    n
}

/// Whether `v[lo..hi]` has the shape of a label.
fn label_ok(v: &Vec<char>, lo: usize, hi: usize) -> (r: bool)
    requires
        lo <= hi <= v.len(),
    ensures
        r == valid_label(v@.subrange(lo as int, hi as int)),
{
    let ghost l = v@.subrange(lo as int, hi as int);
    if lo == hi {
        return false;
    }
    if v[lo] == '-' || v[hi - 1] == '-' {
        assert(l[0] == v@[lo as int] && l.last() == v@[hi - 1]);
        return false;
    }
    assert(l[0] == v@[lo as int] && l.last() == v@[hi - 1]);
    utf8_len_capped(v, lo, hi, 64) <= 63
}

impl HostsManager {
    /// The path of the system hosts file.
    pub fn get_hosts_path() -> (r: &'static str)
        ensures
            r@ == seq!['/', 'e', 't', 'c', '/', 'h', 'o', 's', 't', 's'],
    {
        proof {
            reveal_strlit("/etc/hosts");
        }
        "/etc/hosts"
    }

    /// The entry that `line` holds, if it holds one.
    pub fn parse_hosts_line(line: &str) -> (r: Option<HostEntry>)
        ensures
            opt_entry_view(r) == parse_line(line@),
    {
        let v = chars_of(line);
        assert(v@.subrange(0, v@.len() as int) =~= v@);
        parse_range(line, &v, 0, v.len())
    }

    /// Whether `ip_str` is an IPv4 or IPv6 address in textual form.
    pub fn is_valid_ip(ip_str: &str) -> (r: bool)
        ensures
            r == parse_ip(ip_str@) is Some,
    {
        let v = chars_of(ip_str);
        IpAddress::parse_chars(&v).is_some()
    }
}


impl HostsManager {
    /// Whether `hostname` is a valid hostname.
    pub fn is_valid_hostname(hostname: &str) -> (r: bool)
        ensures
            r == valid_hostname(hostname@),
    {
        let v = chars_of(hostname);
        let mut flags: Vec<bool> = Vec::new();
        let mut i: usize = 0;
        while i < v.len()
            invariant
                i <= v@.len(),
                v@ == hostname@,
                flags@ == alnum_flags(v@).take(i as int),
            decreases v@.len() - i,
        {
            let a = is_alphanumeric(v[i]);
            flags.push(a);
            i = i + 1;
            assert(flags@ =~= alnum_flags(v@).take(i as int));
        }
        assert(flags@ =~= alnum_flags(v@));
        HostsManager::check_hostname(hostname, &flags)
    }

    /// The hostname rule for `hostname`, where `alphanumeric[i]` tells whether
    /// its character `i` is alphanumeric.
    pub fn check_hostname(hostname: &str, alphanumeric: &Vec<bool>) -> (r: bool)
        requires
            alphanumeric@.len() == hostname@.len(),
        ensures
            r == hostname_rule(hostname@, alphanumeric@),
    {
        let v = chars_of(hostname);
        let n = v.len();
        assert(v@.subrange(0, n as int) =~= v@);
        if n == 0 || utf8_len_capped(&v, 0, n, 254) > 253 {
            return false;
        }
        let mut c: usize = 0;
        while c < n
            invariant
                c <= n == v@.len() == alphanumeric@.len(),
                v@ == hostname@,
                forall|j: int| 0 <= j < c ==> v@[j] == '.' || v@[j] == '-' || alphanumeric@[j],
            decreases n - c,
        {
            if !(v[c] == '.' || v[c] == '-' || alphanumeric[c]) {
                assert(!(hostname@[c as int] == '.' || hostname@[c as int] == '-'
                    || alphanumeric@[c as int]));
                return false;
            }
            c = c + 1;
        }
        let mut ok = true;
        let mut start: usize = 0;
        let mut i: usize = 0;
        while i < n
            invariant
                0 <= start <= i <= n == v@.len(),
                pieces(v@.subrange(0, i as int), '.').len() >= 1,
                pieces(v@.subrange(0, i as int), '.').last() == v@.subrange(start as int, i as int),
                ok == forall|k: int|
                    0 <= k < pieces(v@.subrange(0, i as int), '.').len() - 1 ==> valid_label(
                        #[trigger] pieces(v@.subrange(0, i as int), '.')[k],
                    ),
            decreases n - i,
        {
            let ghost p = pieces(v@.subrange(0, i as int), '.');
            assert(v@.subrange(0, i as int + 1).drop_last() =~= v@.subrange(0, i as int));
            assert(v@.subrange(0, i as int + 1).last() == v@[i as int]);
            if v[i] == '.' {
                let good = label_ok(&v, start, i);
                proof {
                    let q = pieces(v@.subrange(0, i as int + 1), '.');
                    assert(q == p.push(seq![]));
                    assert((ok && good) == forall|k: int|
                        0 <= k < q.len() - 1 ==> valid_label(#[trigger] q[k])) by {
                        if ok && good {
                            assert forall|k: int| 0 <= k < q.len() - 1 implies valid_label(
                                #[trigger] q[k],
                            ) by {
                                assert(q[k] == p[k]);
                            }
                        }
                        if !good {
                            assert(q[p.len() - 1] == p.last());
                        }
                        if !ok {
                            let k = choose|k: int|
                                0 <= k < p.len() - 1 && !valid_label(#[trigger] p[k]);
                            assert(q[k] == p[k]);
                        }
                    }
                }
                ok = ok && good;
                start = i + 1;
                assert(v@.subrange(start as int, i as int + 1) =~= seq![]);
            } else {
                proof {
                    let q = pieces(v@.subrange(0, i as int + 1), '.');
                    assert(q == p.update(p.len() - 1, p.last().push(v@[i as int])));
                    assert(q.last() =~= v@.subrange(start as int, i as int + 1));
                    assert(ok == forall|k: int| 0 <= k < q.len() - 1 ==> valid_label(#[trigger] q[k]))
                        by {
                        if ok {
                            assert forall|k: int| 0 <= k < q.len() - 1 implies valid_label(
                                #[trigger] q[k],
                            ) by {
                                assert(q[k] == p[k]);
                            }
                        } else {
                            let k = choose|k: int|
                                0 <= k < p.len() - 1 && !valid_label(#[trigger] p[k]);
                            assert(q[k] == p[k]);
                        }
                    }
                }
            }
            i = i + 1;
        }
        let last = label_ok(&v, start, n);
        proof {
            let p = pieces(v@, '.');
            if ok && last {
                assert forall|k: int| 0 <= k < p.len() implies valid_label(#[trigger] p[k]) by {
                    if k == p.len() - 1 {
                    }
                }
            }
            if !last {
                assert(!valid_label(p[p.len() - 1]));
            }
        }
        ok && last
    }
}


/// A line without the `\r` of a `\r\n` ending.
pub open spec fn strip_cr(l: Seq<char>) -> Seq<char> {
    if l.len() > 0 && l.last() == '\r' {
        l.drop_last()
    } else {
        l
    }
}

/// The lines of `s`, as `str::lines` gives them: split at `\n`, without a `\r`
/// before it, and without an empty piece after a final `\n`.
pub open spec fn lines_of(s: Seq<char>) -> Seq<Seq<char>> {
    let p = pieces(s, '\n');
    let ended = Seq::new((p.len() - 1) as nat, |k: int| strip_cr(p[k]));
    if p.last().len() == 0 {
        ended
    } else {
        ended.push(p.last())
    }
}

/// The text that marks the start of the managed section.
pub open spec fn marker() -> Seq<char> {
    seq![
        'h', 'o', 's', 't', 'c', 't', 'l', ' ', 'm', 'a', 'n', 'a', 'g', 'e', 'd', ' ', 'e', 'n',
        't', 'r', 'i', 'e', 's',
    ]
}

/// Whether `pat` occurs in `s`.
pub open spec fn occurs_in(pat: Seq<char>, s: Seq<char>) -> bool {
    exists|i: int| 0 <= i && i + pat.len() <= s.len() && #[trigger] s.subrange(i, i + pat.len()) == pat
}

/// The foreign entries (before the marker line), the managed ones (after it), and
/// whether a marker line was seen, for the lines `lines`.
pub open spec fn separate(lines: Seq<Seq<char>>) -> (Seq<HostEntryView>, Seq<HostEntryView>, bool)
    decreases lines.len(),
{
    if lines.len() == 0 {
        (seq![], seq![], false)
    } else {
        let (f, m, managed) = separate(lines.drop_last());
        let l = lines.last();
        if occurs_in(marker(), l) {
            (f, m, true)
        } else {
            match parse_line(l) {
                None => (f, m, managed),
                Some(e) => if managed {
                    (f, m.push(e), managed)
                } else {
                    (f.push(e), m, managed)
                },
            }
        }
    }
}

/// The entries that the lines hold, in order.
pub open spec fn parse_lines(lines: Seq<Seq<char>>) -> Seq<HostEntryView>
    decreases lines.len(),
{
    if lines.len() == 0 {
        seq![]
    } else {
        match parse_line(lines.last()) {
            None => parse_lines(lines.drop_last()),
            Some(e) => parse_lines(lines.drop_last()).push(e),
        }
    }
}

/// Each entry as a line, each line ended by `\n`.
pub open spec fn entries_text(es: Seq<HostEntryView>) -> Seq<char>
    decreases es.len(),
{
    if es.len() == 0 {
        seq![]
    } else {
        entries_text(es.drop_last()) + entry_line(es.last()) + seq!['\n']
    }
}

/// The comment line that precedes the managed entries.
pub open spec fn separator_line() -> Seq<char> {
    seq!['#', ' ', '=', '=', '=', '=', '=', ' '] + marker() + seq![' ', '=', '=', '=', '=', '=']
}

/// The hosts file made of the foreign entries, a blank line, the separator line and
/// the environment's entries.
pub open spec fn rebuilt(foreign: Seq<HostEntryView>, managed: Seq<HostEntryView>) -> Seq<char> {
    entries_text(foreign) + seq!['\n'] + separator_line() + seq!['\n'] + entries_text(managed)
}

/// The hosts file that applying an environment with `entries` turns `content` into.
pub open spec fn applied(content: Seq<char>, entries: Seq<HostEntry>) -> Seq<char> {
    rebuilt(separate(lines_of(content)).0, entries_view(entries))
}

/// The hostnames of `es` that are not valid, in order.
pub open spec fn invalid_hosts(es: Seq<HostEntry>) -> Seq<Seq<char>>
    decreases es.len(),
{
    if es.len() == 0 {
        seq![]
    } else if valid_hostname(es.last().hostname@) {
        invalid_hosts(es.drop_last())
    } else {
        invalid_hosts(es.drop_last()).push(es.last().hostname@)
    }
}

/// Bounds of the lines of `v`, as `lines_of` gives them.
fn line_bounds(v: &Vec<char>) -> (r: Vec<(usize, usize)>)
    ensures
        r@.len() == lines_of(v@).len(),
        forall|k: int|
            0 <= k < r@.len() ==> (#[trigger] r@[k]).0 <= r@[k].1 <= v@.len() && v@.subrange(
                r@[k].0 as int,
                r@[k].1 as int,
            ) == lines_of(v@)[k],
{
    let n = v.len();
    let mut r: Vec<(usize, usize)> = Vec::new();
    let mut start: usize = 0;
    let mut i: usize = 0;
    while i < n
        invariant
            0 <= start <= i <= n == v@.len(),
            pieces(v@.subrange(0, i as int), '\n').len() == r@.len() + 1,
            pieces(v@.subrange(0, i as int), '\n').last() == v@.subrange(start as int, i as int),
            forall|k: int| 0 <= k < r@.len() ==> (#[trigger] r@[k]).0 <= r@[k].1 <= n,
            forall|k: int|
                0 <= k < r@.len() ==> v@.subrange(r@[k].0 as int, r@[k].1 as int) == strip_cr(
                    #[trigger] pieces(v@.subrange(0, i as int), '\n')[k],
                ),
        decreases n - i,
    {
        let ghost p = pieces(v@.subrange(0, i as int), '\n');
        assert(v@.subrange(0, i as int + 1).drop_last() =~= v@.subrange(0, i as int));
        assert(v@.subrange(0, i as int + 1).last() == v@[i as int]);
        if v[i] == '\n' {
            let ghost l = v@.subrange(start as int, i as int);
            let end: usize = if i > start && v[i - 1] == '\r' {
                assert(l.last() == v@[i - 1]);
                assert(l.drop_last() =~= v@.subrange(start as int, i - 1));
                i - 1
            } else {
                if i > start {
                    assert(l.last() == v@[i - 1]);
                }
                i
            };
            assert(v@.subrange(start as int, end as int) == strip_cr(l));
            let ghost old_r = r@;
            r.push((start, end));
            start = i + 1;
            proof {
                let q = pieces(v@.subrange(0, i as int + 1), '\n');
                assert(q == p.push(seq![]));
                assert(v@.subrange(start as int, i as int + 1) =~= seq![]);
                assert forall|k: int| 0 <= k < r@.len() implies r@[k].0 <= r@[k].1 <= n
                    && v@.subrange(r@[k].0 as int, r@[k].1 as int) == strip_cr(
                    #[trigger] q[k],
                ) by {
                    assert(q[k] == p[k]);
                    if k < old_r.len() {
                        assert(r@[k] == old_r[k]);
                        assert(strip_cr(p[k]) == v@.subrange(old_r[k].0 as int, old_r[k].1 as int));
                    }
                }
            }
        } else {
            proof {
                let q = pieces(v@.subrange(0, i as int + 1), '\n');
                assert(q == p.update(p.len() - 1, p.last().push(v@[i as int])));
                assert(q.last() =~= v@.subrange(start as int, i as int + 1));
                assert forall|k: int| 0 <= k < r@.len() implies r@[k].0 <= r@[k].1 <= n
                    && v@.subrange(r@[k].0 as int, r@[k].1 as int) == strip_cr(
                    #[trigger] q[k],
                ) by {
                    assert(q[k] == p[k]);
                }
            }
        }
        i = i + 1;
    }
    assert(v@.subrange(0, n as int) =~= v@);
    let ghost p = pieces(v@, '\n');
    let ghost ended = Seq::new((p.len() - 1) as nat, |k: int| strip_cr(p[k]));
    let ghost old_r = r@;
    if start < n {
        r.push((start, n));
        assert(lines_of(v@) == ended.push(p.last()));
        assert forall|k: int| 0 <= k < r@.len() implies r@[k].0 <= r@[k].1 <= v@.len()
            && v@.subrange(r@[k].0 as int, r@[k].1 as int) == lines_of(v@)[k] by {
            if k < old_r.len() {
                assert(r@[k] == old_r[k]);
                assert(strip_cr(p[k]) == v@.subrange(old_r[k].0 as int, old_r[k].1 as int));
                assert(lines_of(v@)[k] == ended[k]);
            }
        }
    } else {
        assert(v@.subrange(start as int, n as int) =~= seq![]);
        assert(lines_of(v@) == ended);
        assert forall|k: int| 0 <= k < r@.len() implies r@[k].0 <= r@[k].1 <= v@.len()
            && v@.subrange(r@[k].0 as int, r@[k].1 as int) == lines_of(v@)[k] by {
            assert(strip_cr(p[k]) == v@.subrange(r@[k].0 as int, r@[k].1 as int));
            assert(lines_of(v@)[k] == ended[k]);
        }
    }
    r
}

/// Whether `pat` occurs in `v[lo..hi]`.
fn occurs(pat: &Vec<char>, v: &Vec<char>, lo: usize, hi: usize) -> (r: bool)
    requires
        lo <= hi <= v.len(),
    ensures
        r == occurs_in(pat@, v@.subrange(lo as int, hi as int)),
{
    let ghost s = v@.subrange(lo as int, hi as int);
    let m = pat.len();
    if m > hi - lo {
        return false;
    }
    let mut i: usize = lo;
    while i <= hi - m
        invariant
            lo <= i,
            m == pat@.len(),
            m <= hi - lo,
            hi <= v.len(),
            s == v@.subrange(lo as int, hi as int),
            forall|k: int|
                0 <= k < i - lo ==> #[trigger] s.subrange(k, k + m) != pat@,
        decreases hi - i,
    {
        let mut j: usize = 0;
        while j < m && v[i + j] == pat[j]
            invariant
                j <= m,
                i + m <= hi <= v.len(),
                m == pat@.len(),
                forall|t: int| 0 <= t < j ==> v@[i + t] == pat@[t],
            decreases m - j,
        {
            j = j + 1;
        }
        if j == m {
            assert(s.subrange(i - lo, i - lo + m) =~= pat@);
            return true;
        }
        assert(s.subrange(i - lo, i - lo + m)[j as int] != pat@[j as int]);
        i = i + 1;
    }
    assert forall|k: int| 0 <= k && k + m <= s.len() implies #[trigger] s.subrange(k, k + m)
        != pat@ by {}
    false
}

impl HostsManager {
    /// Splits the hosts file `content` into the entries before the marker line and
    /// those after it, each in their order.
    pub fn separate_entries(content: &str) -> (r: (Vec<HostEntry>, Vec<HostEntry>))
        ensures
            entries_view(r.0@) == separate(lines_of(content@)).0,
            entries_view(r.1@) == separate(lines_of(content@)).1,
    {
        let v = chars_of(content);
        let b = line_bounds(&v);
        let pat = chars_of("hostctl managed entries");
        proof {
            reveal_strlit("hostctl managed entries");
            assert(pat@ =~= marker());
        }
        let ghost lines = lines_of(v@);
        let mut foreign: Vec<HostEntry> = Vec::new();
        let mut managed: Vec<HostEntry> = Vec::new();
        let mut in_managed = false;
        let mut k: usize = 0;
        assert(lines.take(0) =~= seq![]);
        assert(entries_view(foreign@) =~= seq![]);
        while k < b.len()
            invariant
                k <= b@.len() == lines.len(),
                v@ == content@,
                lines == lines_of(v@),
                pat@ == marker(),
                forall|j: int|
                    0 <= j < b@.len() ==> (#[trigger] b@[j]).0 <= b@[j].1 <= v@.len() && v@.subrange(
                        b@[j].0 as int,
                        b@[j].1 as int,
                    ) == lines[j],
                separate(lines.take(k as int)) == (
                    entries_view(foreign@),
                    entries_view(managed@),
                    in_managed,
                ),
            decreases b@.len() - k,
        {
            let (lo, hi) = b[k];
            assert(lines.take(k as int + 1).drop_last() =~= lines.take(k as int));
            assert(lines.take(k as int + 1).last() == lines[k as int]);
            assert(v@.subrange(lo as int, hi as int) == lines[k as int]);
            if occurs(&pat, &v, lo, hi) {
                in_managed = true;
            } else {
                match parse_range(content, &v, lo, hi) {
                    None => {},
                    Some(e) => {
                        let ghost ev = e@;
                        if in_managed {
                            let ghost before = managed@;
                            managed.push(e);
                            assert(entries_view(managed@) =~= entries_view(before).push(ev));
                        } else {
                            let ghost before = foreign@;
                            foreign.push(e);
                            assert(entries_view(foreign@) =~= entries_view(before).push(ev));
                        }
                    },
                }
            }
            k = k + 1;
        }
        assert(lines.take(b@.len() as int) =~= lines);
        (foreign, managed)
    }
}


/// The characters of each string, in order.
pub open spec fn texts_view(v: Seq<String>) -> Seq<Seq<char>> {
    v.map_values(|t: String| t@)
}

/// Appends each entry as a line ended by `\n`.
fn push_entries(out: &mut String, es: &Vec<HostEntry>)
    ensures
        final(out)@ == old(out)@ + entries_text(entries_view(es@)),
{
    let mut k: usize = 0;
    assert(entries_view(es@.take(0)) =~= seq![]);
    while k < es.len()
        invariant
            k <= es@.len(),
            out@ == old(out)@ + entries_text(entries_view(es@.take(k as int))),
        decreases es@.len() - k,
    {
        let line = es[k].to_line();
        proof {
            reveal_strlit("\n");
        }
        out.append(line.as_str());
        out.append("\n");
        proof {
            let t = entries_view(es@.take(k as int + 1));
            assert(t.drop_last() =~= entries_view(es@.take(k as int)));
            assert(t.last() == es@[k as int]@);
            assert(out@ =~= old(out)@ + entries_text(t));
        }
        k = k + 1;
    }
    assert(es@.take(es@.len() as int) =~= es@);
}

/// What happens next while an environment is applied to the hosts file.
pub enum ApplyEvent {
    /// The apply is asked for.
    Start,
    /// The hosts file has been copied to its backup.
    BackedUp,
    /// The hosts file holds this text.
    HostsRead(String),
    /// The new hosts file has been written.
    Written,
}

/// What the caller is to do next while an environment is applied.
pub enum ApplyAction {
    /// Stop without touching anything: these hostnames are not valid.
    Reject(Vec<String>),
    /// Copy the hosts file to a backup.
    Backup,
    /// Read the hosts file.
    ReadHosts,
    /// Write this text to the hosts file.
    Write(String),
    /// The apply is complete.
    Finish,
}

impl HostsManager {
    /// All entries that the hosts file `content` holds, in order.
    pub fn parse_hosts_content(content: &str) -> (r: Vec<HostEntry>)
        ensures
            entries_view(r@) == parse_lines(lines_of(content@)),
    {
        let v = chars_of(content);
        let b = line_bounds(&v);
        let ghost lines = lines_of(v@);
        let mut out: Vec<HostEntry> = Vec::new();
        let mut k: usize = 0;
        assert(lines.take(0) =~= seq![]);
        assert(entries_view(out@) =~= seq![]);
        while k < b.len()
            invariant
                k <= b@.len() == lines.len(),
                v@ == content@,
                lines == lines_of(v@),
                forall|j: int|
                    0 <= j < b@.len() ==> (#[trigger] b@[j]).0 <= b@[j].1 <= v@.len() && v@.subrange(
                        b@[j].0 as int,
                        b@[j].1 as int,
                    ) == lines[j],
                parse_lines(lines.take(k as int)) == entries_view(out@),
            decreases b@.len() - k,
        {
            let (lo, hi) = b[k];
            assert(lines.take(k as int + 1).drop_last() =~= lines.take(k as int));
            assert(lines.take(k as int + 1).last() == lines[k as int]);
            assert(v@.subrange(lo as int, hi as int) == lines[k as int]);
            match parse_range(content, &v, lo, hi) {
                None => {},
                Some(e) => {
                    let ghost ev = e@;
                    let ghost before = out@;
                    out.push(e);
                    assert(entries_view(out@) =~= entries_view(before).push(ev));
                },
            }
            k = k + 1;
        }
        assert(lines.take(b@.len() as int) =~= lines);
        out
    }

    /// The hosts file made of the `foreign` entries, a blank line, the separator
    /// line and the `managed` entries, each entry a line ended by `\n`.
    pub fn hosts_text(foreign: &Vec<HostEntry>, managed: &Vec<HostEntry>) -> (r: String)
        ensures
            r@ == rebuilt(entries_view(foreign@), entries_view(managed@)),
    {
        let mut out = String::new();
        push_entries(&mut out, foreign);
        proof {
            reveal_strlit("\n# ===== hostctl managed entries =====\n");
        }
        let ghost mid = out@;
        out.append("\n# ===== hostctl managed entries =====\n");
        assert(out@ =~= mid + seq!['\n'] + separator_line() + seq!['\n']);
        push_entries(&mut out, managed);
        assert(out@ =~= rebuilt(entries_view(foreign@), entries_view(managed@)));
        out
    }

    /// The hosts file that applying `env` turns `content` into: its foreign entries
    /// are kept, its managed ones give way to those of `env`.
    pub fn render_hosts(content: &str, env: &Environment) -> (r: String)
        ensures
            r@ == applied(content@, env.entries@),
    {
        let (foreign, _managed) = HostsManager::separate_entries(content);
        HostsManager::hosts_text(&foreign, &env.entries)
    }

    /// The hostnames among `entries` that are not valid, in order.
    pub fn invalid_hostnames(entries: &Vec<HostEntry>) -> (r: Vec<String>)
        ensures
            texts_view(r@) == invalid_hosts(entries@),
    {
        let mut out: Vec<String> = Vec::new();
        let mut k: usize = 0;
        assert(entries@.take(0) =~= seq![]);
        assert(texts_view(out@) =~= seq![]);
        while k < entries.len()
            invariant
                k <= entries@.len(),
                texts_view(out@) == invalid_hosts(entries@.take(k as int)),
            decreases entries@.len() - k,
        {
            let ghost t = entries@.take(k as int + 1);
            assert(t.drop_last() =~= entries@.take(k as int));
            assert(t.last() == entries@[k as int]);
            if !HostsManager::is_valid_hostname(entries[k].hostname.as_str()) {
                let ghost before = out@;
                out.push(entries[k].hostname.clone());
                assert(texts_view(out@) =~= texts_view(before).push(entries@[k as int].hostname@));
            }
            k = k + 1;
        }
        assert(entries@.take(entries@.len() as int) =~= entries@);
        out
    }

    /// The next thing to do while `env` is applied, after `event`. Nothing is
    /// backed up or written for an environment with an invalid hostname.
    pub fn apply_step(env: &Environment, event: &ApplyEvent) -> (r: ApplyAction)
        ensures
            match event {
                ApplyEvent::Start => match r {
                    ApplyAction::Reject(bad) => invalid_hosts(env.entries@).len() > 0
                        && texts_view(bad@) == invalid_hosts(env.entries@),
                    ApplyAction::Backup => invalid_hosts(env.entries@).len() == 0,
                    _ => false,
                },
                ApplyEvent::BackedUp => r is ReadHosts,
                ApplyEvent::HostsRead(content) => match r {
                    ApplyAction::Write(text) => text@ == applied(content@, env.entries@),
                    _ => false,
                },
                ApplyEvent::Written => r is Finish,
            },
    {
        match event {
            ApplyEvent::Start => {
                let bad = HostsManager::invalid_hostnames(&env.entries);
                if bad.len() > 0 {
                    ApplyAction::Reject(bad)
                } else {
                    ApplyAction::Backup
                }
            },
            ApplyEvent::BackedUp => ApplyAction::ReadHosts,
            ApplyEvent::HostsRead(content) => ApplyAction::Write(
                HostsManager::render_hosts(content.as_str(), env),
            ),
            ApplyEvent::Written => ApplyAction::Finish,
        }
    }
}


/// `n` in decimal with exactly `width` digits, zeros in front.
pub open spec fn padded(n: nat, width: nat) -> Seq<char>
    decreases width,
{
    if width == 0 {
        seq![]
    } else {
        padded(n / 10, (width - 1) as nat).push(crate::ip::digit_chars()[(n % 10) as int])
    }
}

/// `hosts.backup.YYYYMMDD_HHMMSS`.
pub open spec fn backup_name(
    year: nat,
    month: nat,
    day: nat,
    hour: nat,
    minute: nat,
    second: nat,
) -> Seq<char> {
    seq!['h', 'o', 's', 't', 's', '.', 'b', 'a', 'c', 'k', 'u', 'p', '.'] + padded(year, 4)
        + padded(month, 2) + padded(day, 2) + seq!['_'] + padded(hour, 2) + padded(minute, 2)
        + padded(second, 2)
}

fn push_padded(out: &mut String, n: u32, width: u32)
    ensures
        final(out)@ == old(out)@ + padded(n as nat, width as nat),
    decreases width,
{
    if width > 0 {
        push_padded(out, n / 10, width - 1);
        crate::ip::push_digit(out, n % 10);
    } else {
        assert(old(out)@ + padded(n as nat, 0) =~= old(out)@);
    }
}

impl HostsManager {
    /// The file name of the backup taken at the given local time.
    pub fn backup_file_name(year: u32, month: u32, day: u32, hour: u32, minute: u32, second: u32) -> (r:
        String)
        requires
            year <= 9999,
            month < 100,
            day < 100,
            hour < 100,
            minute < 100,
            second < 100,
        ensures
            r@ == backup_name(
                year as nat,
                month as nat,
                day as nat,
                hour as nat,
                minute as nat,
                second as nat,
            ),
    {
        proof {
            reveal_strlit("hosts.backup.");
            reveal_strlit("_");
        }
        let mut out = "hosts.backup.".to_owned();
        push_padded(&mut out, year, 4);
        push_padded(&mut out, month, 2);
        push_padded(&mut out, day, 2);
        out.append("_");
        push_padded(&mut out, hour, 2);
        push_padded(&mut out, minute, 2);
        push_padded(&mut out, second, 2);
        out
    }
}

} // verus!
