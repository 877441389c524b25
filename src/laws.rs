//! Properties that relate several operations of the library.
use vstd::prelude::*;

use crate::config::{entry_line, HostEntry, HostEntryView};
use crate::hosts::{
    alnum_flags, entries_text, invalid_hosts, lines_of, marker, occurs_in, parse_line, rebuilt,
    separate, separator_line, strip_cr, valid_hostname,
};
use crate::ip::{ip_text, parse_ip};
use crate::ip_laws::{lemma_ip_round_trip, lemma_ip_text_plain};
use crate::text::{
    after_char, after_word, before_char, is_ws, pieces, trim, trim_end, trim_start, word,
};

verus! {

/// A run of characters with neither whitespace nor `#`.
pub open spec fn plain(s: Seq<char>) -> bool {
    forall|i: int| 0 <= i < s.len() ==> !is_ws(#[trigger] s[i]) && s[i] != '#'
}

proof fn lemma_word_prefix(a: Seq<char>, b: Seq<char>)
    requires
        forall|i: int| 0 <= i < a.len() ==> !is_ws(#[trigger] a[i]),
    ensures
        word(a + b) == a + word(b),
        after_word(a + b) == after_word(b),
    decreases a.len(),
{
    if a.len() == 0 {
        assert(a + b =~= b);
        assert(a + word(b) =~= word(b));
    } else {
        let r = a.drop_first();
        assert((a + b).drop_first() =~= r + b);
        assert((a + b)[0] == a[0]);
        lemma_word_prefix(r, b);
        assert(seq![a[0]] + (r + word(b)) =~= a + word(b));
    }
}

proof fn lemma_trim_start_ws(a: Seq<char>, b: Seq<char>)
    requires
        forall|i: int| 0 <= i < a.len() ==> is_ws(#[trigger] a[i]),
    ensures
        trim_start(a + b) == trim_start(b),
    decreases a.len(),
{
    if a.len() == 0 {
        assert(a + b =~= b);
    } else {
        assert((a + b).drop_first() =~= a.drop_first() + b);
        assert((a + b)[0] == a[0]);
        lemma_trim_start_ws(a.drop_first(), b);
    }
}

proof fn lemma_char_split(a: Seq<char>, b: Seq<char>, x: char)
    requires
        !a.contains(x),
    ensures
        before_char(a + seq![x] + b, x) == a,
        after_char(a + seq![x] + b, x) == b,
        before_char(a, x) == a,
    decreases a.len(),
{
    let s = a + seq![x] + b;
    if a.len() == 0 {
        assert(s[0] == x);
        assert(s.drop_first() =~= b);
    } else {
        let r = a.drop_first();
        assert(s.drop_first() =~= r + seq![x] + b);
        assert(s[0] == a[0]);
        assert(!r.contains(x)) by {
            if r.contains(x) {
                let i = choose|i: int| 0 <= i < r.len() && r[i] == x;
                assert(a[i + 1] == x);
            }
        }
        assert(a[0] != x) by {
            if a[0] == x {
                assert(a.contains(x));
            }
        }
        lemma_char_split(r, b, x);
        assert(seq![a[0]] + r =~= a);
        assert(a.drop_first() =~= r);
    }
}

proof fn lemma_trim_end_len(s: Seq<char>)
    ensures
        trim_end(s).len() <= s.len(),
    decreases s.len(),
{
    if s.len() > 0 && is_ws(s.last()) {
        lemma_trim_end_len(s.drop_last());
    }
}

/// A comment that survives a round trip: no `#`, and no whitespace at its ends.
pub open spec fn round_trip_comment(c: Seq<char>) -> bool {
    !c.contains('#') && trim(c) == c
}

/// The line of an entry reads back as the entry, given that its address text
/// reads back as its address.
proof fn lemma_line_round_trip(e: HostEntryView)
    requires
        e.hostname.len() > 0,
        plain(e.hostname),
        parse_ip(ip_text(e.ip)) == Some(e.ip),
        match e.comment {
            Some(c) => round_trip_comment(c),
            None => true,
        },
    ensures
        parse_line(entry_line(e)) == Some(e),
{
    let t = ip_text(e.ip);
    let h = e.hostname;
    lemma_ip_text_plain(e.ip);
    let sp = seq![' '];
    assert(is_ws(' '));
    lemma_word_prefix(t, sp + h);
    lemma_word_prefix(h, seq![]);
    assert(h + seq![] =~= h);
    lemma_trim_start_ws(sp, h);
    assert(trim_start(h) == h) by {
        assert(h[0] == h[0]);
    }
    let line = entry_line(e);
    match e.comment {
        None => {
            assert(line =~= t + (sp + h));
            assert(trim_start(line) == line);
            assert(line.last() == h.last());
            assert(trim_end(line) == line);
            assert(!line.contains('#')) by {
                if line.contains('#') {
                    let i = choose|i: int| 0 <= i < line.len() && line[i] == '#';
                    if i < t.len() {
                        assert(line[i] == t[i]);
                    } else if i > t.len() {
                        assert(line[i] == h[i - t.len() - 1]);
                    }
                }
            }
            lemma_char_split(line, seq![], '#');
            assert(word(sp + h) =~= seq![]);
            assert(t + seq![] =~= t);
            assert(after_word(sp + h) == sp + h);
        },
        Some(c) => {
            let u = t + sp + h + sp;
            assert(!u.contains('#')) by {
                if u.contains('#') {
                    let i = choose|i: int| 0 <= i < u.len() && u[i] == '#';
                    if i < t.len() {
                        assert(u[i] == t[i]);
                    } else if t.len() < i < t.len() + 1 + h.len() {
                        assert(u[i] == h[i - t.len() - 1]);
                    }
                }
            }
            assert(line =~= u + seq!['#', ' '] + c);
            let w = if c.len() > 0 {
                sp + c
            } else {
                seq![]
            };
            lemma_trim_comment_line(u, c);
            lemma_char_split(u, w, '#');
            assert(trim(line).contains('#')) by {
                assert(trim(line)[u.len() as int] == '#');
            }
            assert(trim(w) == c) by {
                if c.len() > 0 {
                    lemma_trim_fixed(c);
                    lemma_trim_start_ws(sp, c);
                    assert(trim_start(c) == c) by {
                        assert(c[0] == c[0]);
                    }
                    assert(trim_end(c) == c) by {
                        assert(c.last() == c.last());
                    }
                } else {
                    assert(w =~= c);
                }
            }
            assert(trim_start(u) == u) by {
                assert(u[0] == t[0]);
            }
            lemma_word_prefix(t, sp + h + sp);
            assert(t + (sp + h + sp) =~= u);
            assert(word(sp + h + sp) =~= seq![]);
            assert(t + seq![] =~= t);
            assert(after_word(sp + h + sp) == sp + h + sp);
            assert(sp + h + sp =~= sp + (h + sp));
            lemma_trim_start_ws(sp, h + sp);
            assert(trim_start(h + sp) == h + sp) by {
                assert((h + sp)[0] == h[0]);
            }
            lemma_word_prefix(h, sp);
            assert(word(sp) =~= seq![]);
            assert(h + word(sp) =~= h);
        },
    }
}

proof fn lemma_trim_comment_line(u: Seq<char>, c: Seq<char>)
    requires
        u.len() > 0,
        !is_ws(u[0]),
        trim(c) == c,
    ensures
        trim(u + seq!['#', ' '] + c) == u + seq!['#'] + (if c.len() > 0 {
            seq![' '] + c
        } else {
            seq![]
        }),
{
    let line = u + seq!['#', ' '] + c;
    assert(line[0] == u[0]);
    assert(trim_start(line) == line);
    if c.len() > 0 {
        lemma_trim_fixed(c);
        assert(line.last() == c.last());
        assert(trim_end(line) == line);
        assert(line =~= u + seq!['#'] + (seq![' '] + c));
    } else {
        let d = line.drop_last();
        assert(d =~= u + seq!['#']);
        assert(line.last() == ' ');
        assert(is_ws(' '));
        assert(d.last() == '#');
        assert(trim_end(d) == d);
        assert(trim_end(line) == trim_end(d));
        assert(u + seq!['#'] + seq![] =~= d);
    }
}

proof fn lemma_trim_start_len(s: Seq<char>)
    ensures
        trim_start(s).len() <= s.len(),
    decreases s.len(),
{
    if s.len() > 0 && is_ws(s[0]) {
        lemma_trim_start_len(s.drop_first());
    }
}

proof fn lemma_trim_fixed(c: Seq<char>)
    requires
        trim(c) == c,
        c.len() > 0,
    ensures
        !is_ws(c[0]),
        !is_ws(c.last()),
{
    lemma_trim_start_len(c);
    lemma_trim_end_len(trim_start(c));
    if is_ws(c[0]) {
        lemma_trim_start_len(c.drop_first());
        lemma_trim_end_len(trim_start(c.drop_first()));
    }
    assert(trim_start(c) == c) by {
        if trim_start(c) != c {
            lemma_trim_start_len(c.drop_first());
        }
    }
    if is_ws(c.last()) {
        lemma_trim_end_len(c.drop_last());
    }
}

/// An environment with one entry whose hostname is not valid has that hostname
/// among its invalid ones, so applying it (`HostsManager::apply_step` on
/// `ApplyEvent::Start`) answers `Reject`, before any backup or write.
pub proof fn lemma_invalid_entry_rejected(entries: Seq<HostEntry>, i: int)
    requires
        0 <= i < entries.len(),
        !valid_hostname(entries[i].hostname@),
    ensures
        invalid_hosts(entries).len() > 0,
        invalid_hosts(entries).contains(entries[i].hostname@),
    decreases entries.len(),
{
    let rest = entries.drop_last();
    if i == entries.len() - 1 {
        let r = invalid_hosts(entries);
        assert(r[r.len() - 1] == entries[i].hostname@);
    } else {
        assert(rest[i] == entries[i]);
        lemma_invalid_entry_rejected(rest, i);
        let r = invalid_hosts(rest);
        let k = choose|k: int| 0 <= k < r.len() && r[k] == entries[i].hostname@;
        assert(invalid_hosts(entries)[k] == entries[i].hostname@);
    }
}


/// The line of an entry reads back as the entry, for a hostname that is one word
/// without `#`.
proof fn lemma_plain_entry_round_trip(e: HostEntryView)
    requires
        e.hostname.len() > 0,
        plain(e.hostname),
        match e.comment {
            Some(c) => round_trip_comment(c),
            None => true,
        },
    ensures
        parse_line(entry_line(e)) == Some(e),
{
    lemma_ip_round_trip(e.ip);
    lemma_line_round_trip(e);
}

/// A valid hostname is not empty and holds neither whitespace nor `#`.
pub proof fn lemma_valid_hostname_plain(h: Seq<char>)
    requires
        valid_hostname(h),
    ensures
        h.len() > 0,
        plain(h),
{
    assert forall|i: int| 0 <= i < h.len() implies !is_ws(#[trigger] h[i]) && h[i] != '#' by {
        assert(h[i] == '.' || h[i] == '-' || alnum_flags(h)[i]);
    }
}

/// A name that holds a space or an `_` is not a valid hostname.
pub proof fn lemma_space_or_underscore_rejected(h: Seq<char>)
    requires
        h.contains(' ') || h.contains('_'),
    ensures
        !valid_hostname(h),
{
    let i = choose|i: int| 0 <= i < h.len() && (h[i] == ' ' || h[i] == '_');
    assert(is_ws(' '));
    assert(!(h[i] == '.' || h[i] == '-' || alnum_flags(h)[i]));
}

/// Writing an entry as a hosts-file line and reading the line back gives the
/// entry, for any address, a valid hostname, and no comment or a comment with no
/// `#` and no whitespace at its ends (the reader trims a comment).
pub proof fn lemma_entry_round_trip(e: HostEntryView)
    requires
        valid_hostname(e.hostname),
        match e.comment {
            Some(c) => round_trip_comment(c),
            None => true,
        },
    ensures
        parse_line(entry_line(e)) == Some(e),
{
    lemma_valid_hostname_plain(e.hostname);
    lemma_plain_entry_round_trip(e);
}


proof fn lemma_pieces_concat(x: Seq<char>, y: Seq<char>)
    requires
        x.len() > 0,
        x.last() == '\n',
    ensures
        pieces(x + y, '\n') == pieces(x, '\n').drop_last() + pieces(y, '\n'),
        pieces(x, '\n').len() >= 1,
        pieces(x, '\n').last() == Seq::<char>::empty(),
    decreases y.len(),
{
    let px = pieces(x, '\n');
    assert(x.drop_last() + seq![] =~= x.drop_last());
    lemma_pieces_len(x.drop_last());
    if y.len() == 0 {
        assert(x + y =~= x);
        assert(px.drop_last() + seq![seq![]] =~= px);
    } else {
        lemma_pieces_concat(x, y.drop_last());
        assert((x + y).drop_last() =~= x + y.drop_last());
        assert((x + y).last() == y.last());
        lemma_pieces_len(y.drop_last());
        let a = px.drop_last();
        let b = pieces(y.drop_last(), '\n');
        if y.last() == '\n' {
            assert((a + b).push(seq![]) =~= a + b.push(seq![]));
        } else {
            assert((a + b).update((a + b).len() - 1, (a + b).last().push(y.last())) =~= a
                + b.update(b.len() - 1, b.last().push(y.last())));
        }
    }
}

proof fn lemma_pieces_len(s: Seq<char>)
    ensures
        pieces(s, '\n').len() >= 1,
    decreases s.len(),
{
    if s.len() > 0 {
        lemma_pieces_len(s.drop_last());
    }
}

proof fn lemma_pieces_no_sep(l: Seq<char>)
    requires
        !l.contains('\n'),
    ensures
        pieces(l, '\n') == seq![l],
    decreases l.len(),
{
    if l.len() > 0 {
        assert(!l.drop_last().contains('\n')) by {
            if l.drop_last().contains('\n') {
                let i = choose|i: int| 0 <= i < l.drop_last().len() && l.drop_last()[i] == '\n';
                assert(l[i] == '\n');
            }
        }
        lemma_pieces_no_sep(l.drop_last());
        assert(l.last() != '\n') by {
            if l.last() == '\n' {
                assert(l[l.len() - 1] == '\n');
            }
        }
        assert(l.drop_last().push(l.last()) =~= l);
        let p = pieces(l.drop_last(), '\n');
        assert(p.update(p.len() - 1, p.last().push(l.last())) =~= seq![l]);
    } else {
        assert(l =~= Seq::<char>::empty());
        assert(pieces(l, '\n') =~= seq![l]);
    }
}

/// The lines of `x + y`, where `x` ends with a line break, are those of `x` then
/// those of `y`.
proof fn lemma_lines_concat(x: Seq<char>, y: Seq<char>)
    requires
        x.len() > 0,
        x.last() == '\n',
    ensures
        lines_of(x + y) == lines_of(x) + lines_of(y),
{
    lemma_pieces_concat(x, y);
    lemma_pieces_len(y);
    let px = pieces(x, '\n');
    let py = pieces(y, '\n');
    let p = pieces(x + y, '\n');
    assert(p.last() == py.last());
    assert(lines_of(x) =~= Seq::new((px.len() - 1) as nat, |k: int| strip_cr(px[k])));
    if py.last().len() == 0 {
        assert(lines_of(x + y) =~= lines_of(x) + lines_of(y));
    } else {
        assert(lines_of(x + y) =~= lines_of(x) + lines_of(y));
    }
}

/// A line without line breaks and not ending in `\r`, followed by `\n`, is one
/// line.
proof fn lemma_one_line(l: Seq<char>)
    requires
        !l.contains('\n'),
        l.len() == 0 || l.last() != '\r',
    ensures
        lines_of(l + seq!['\n']) == seq![l],
{
    lemma_pieces_no_sep(l);
    let s = l + seq!['\n'];
    assert(s.drop_last() =~= l);
    assert(pieces(s, '\n') == seq![l, Seq::<char>::empty()]);
    assert(lines_of(s) =~= seq![strip_cr(l)]);
}


/// An entry that survives being written as a line inside a hosts file: it reads
/// back from its line, and the line holds no line break and no marker text.
pub open spec fn clean_entry(e: HostEntryView) -> bool {
    &&& e.hostname.len() > 0
    &&& plain(e.hostname)
    &&& match e.comment {
        Some(c) => round_trip_comment(c) && !c.contains('\n'),
        None => true,
    }
    &&& !occurs_in(marker(), entry_line(e))
}

proof fn lemma_clean_line(e: HostEntryView)
    requires
        clean_entry(e),
    ensures
        !entry_line(e).contains('\n'),
        entry_line(e).len() > 0,
        entry_line(e).last() != '\r',
        parse_line(entry_line(e)) == Some(e),
{
    lemma_plain_entry_round_trip(e);
    lemma_ip_text_plain(e.ip);
    let t = ip_text(e.ip);
    let h = e.hostname;
    let line = entry_line(e);
    assert(is_ws('\n') && is_ws('\r'));
    match e.comment {
        None => {
            assert(line.last() == h.last());
            assert(!line.contains('\n')) by {
                if line.contains('\n') {
                    let i = choose|i: int| 0 <= i < line.len() && line[i] == '\n';
                    if i < t.len() {
                        assert(line[i] == t[i]);
                    } else if i > t.len() {
                        assert(line[i] == h[i - t.len() - 1]);
                    }
                }
            }
        },
        Some(c) => {
            if c.len() > 0 {
                lemma_trim_fixed(c);
                assert(line.last() == c.last());
            }
            let u = t + seq![' '] + h + seq![' ', '#', ' '];
            assert(line =~= u + c);
            assert(!line.contains('\n')) by {
                if line.contains('\n') {
                    let i = choose|i: int| 0 <= i < line.len() && line[i] == '\n';
                    if i < t.len() {
                        assert(line[i] == t[i]);
                    } else if t.len() < i < t.len() + 1 + h.len() {
                        assert(line[i] == h[i - t.len() - 1]);
                    } else if i >= u.len() {
                        assert(line[i] == c[i - u.len()]);
                    }
                }
            }
        },
    }
}

/// The line of each entry, in order.
pub open spec fn lines_of_entries(es: Seq<HostEntryView>) -> Seq<Seq<char>> {
    es.map_values(|e: HostEntryView| entry_line(e))
}

/// Lines of `a + b`, where `a` is empty or ends with a line break.
proof fn lemma_lines_append(a: Seq<char>, b: Seq<char>)
    requires
        a.len() == 0 || a.last() == '\n',
    ensures
        lines_of(a + b) == lines_of(a) + lines_of(b),
{
    if a.len() == 0 {
        assert(a + b =~= b);
        assert(pieces(a, '\n') =~= seq![Seq::<char>::empty()]);
        assert(lines_of(a) =~= Seq::<Seq<char>>::empty());
        assert(lines_of(a) + lines_of(b) =~= lines_of(b));
    } else {
        lemma_lines_concat(a, b);
    }
}

proof fn lemma_entries_lines(es: Seq<HostEntryView>)
    requires
        forall|i: int| 0 <= i < es.len() ==> clean_entry(#[trigger] es[i]),
    ensures
        lines_of(entries_text(es)) == lines_of_entries(es),
        entries_text(es).len() == 0 || entries_text(es).last() == '\n',
    decreases es.len(),
{
    if es.len() == 0 {
        assert(pieces(seq![], '\n') =~= seq![Seq::<char>::empty()]);
        assert(lines_of(seq![]) =~= Seq::<Seq<char>>::empty());
        assert(lines_of_entries(es) =~= Seq::<Seq<char>>::empty());
    } else {
        let rest = es.drop_last();
        assert forall|i: int| 0 <= i < rest.len() implies clean_entry(#[trigger] rest[i]) by {
            assert(rest[i] == es[i]);
        }
        lemma_entries_lines(rest);
        let e = es.last();
        assert(clean_entry(es[es.len() - 1]));
        lemma_clean_line(e);
        let x = entries_text(rest);
        let l = entry_line(e);
        assert(entries_text(es) == x + l + seq!['\n']);
        assert(x + l + seq!['\n'] =~= x + (l + seq!['\n']));
        lemma_lines_append(x, l + seq!['\n']);
        lemma_one_line(l);
        assert(lines_of_entries(es) =~= lines_of_entries(rest).push(l));
    }
}

/// Folding entry lines into a split: each lands on the side the split is on.
proof fn lemma_separate_entries(pre: Seq<Seq<char>>, es: Seq<HostEntryView>)
    requires
        forall|i: int| 0 <= i < es.len() ==> clean_entry(#[trigger] es[i]),
    ensures
        ({
            let (f, m, on) = separate(pre);
            separate(pre + lines_of_entries(es)) == (if on {
                (f, m + es, on)
            } else {
                (f + es, m, on)
            })
        }),
    decreases es.len(),
{
    let (f, m, on) = separate(pre);
    if es.len() == 0 {
        assert(pre + lines_of_entries(es) =~= pre);
        assert(f + es =~= f);
        assert(m + es =~= m);
    } else {
        let rest = es.drop_last();
        assert forall|i: int| 0 <= i < rest.len() implies clean_entry(#[trigger] rest[i]) by {
            assert(rest[i] == es[i]);
        }
        lemma_separate_entries(pre, rest);
        let e = es.last();
        assert(clean_entry(es[es.len() - 1]));
        lemma_clean_line(e);
        let all = pre + lines_of_entries(es);
        assert(all.drop_last() =~= pre + lines_of_entries(rest));
        assert(all.last() == entry_line(e));
        if on {
            assert((m + rest).push(e) =~= m + es);
        } else {
            assert((f + rest).push(e) =~= f + es);
        }
    }
}

proof fn lemma_separator_facts()
    ensures
        !separator_line().contains('\n'),
        separator_line().last() != '\r',
        occurs_in(marker(), separator_line()),
{
    let sep = separator_line();
    assert(!sep.contains('\n')) by {
        if sep.contains('\n') {
            let i = choose|i: int| 0 <= i < sep.len() && sep[i] == '\n';
            assert(sep[i] != '\n');
        }
    }
    assert(sep.subrange(8, 8 + marker().len() as int) =~= marker());
}

/// The lines of a rebuilt hosts file.
pub open spec fn rebuilt_lines(foreign: Seq<HostEntryView>, managed: Seq<HostEntryView>) -> Seq<
    Seq<char>,
> {
    lines_of_entries(foreign) + seq![Seq::<char>::empty()] + seq![separator_line()]
        + lines_of_entries(managed)
}

proof fn lemma_rebuilt_lines(foreign: Seq<HostEntryView>, managed: Seq<HostEntryView>)
    requires
        forall|i: int| 0 <= i < foreign.len() ==> clean_entry(#[trigger] foreign[i]),
        forall|i: int| 0 <= i < managed.len() ==> clean_entry(#[trigger] managed[i]),
    ensures
        lines_of(rebuilt(foreign, managed)) == rebuilt_lines(foreign, managed),
{
    let xf = entries_text(foreign);
    let xm = entries_text(managed);
    let sep = separator_line();
    lemma_entries_lines(foreign);
    lemma_entries_lines(managed);
    lemma_separator_facts();
    let y3 = sep + seq!['\n'];
    let y2 = seq!['\n'] + (y3 + xm);
    assert(rebuilt(foreign, managed) =~= xf + y2);
    lemma_lines_append(xf, y2);
    lemma_lines_append(seq!['\n'], y3 + xm);
    lemma_lines_append(y3, xm);
    assert(seq!['\n'] =~= Seq::<char>::empty() + seq!['\n']);
    lemma_one_line(Seq::<char>::empty());
    lemma_one_line(sep);
    assert(lines_of(rebuilt(foreign, managed)) =~= rebuilt_lines(foreign, managed));
}

proof fn lemma_separate_rebuilt_lines(foreign: Seq<HostEntryView>, managed: Seq<HostEntryView>)
    requires
        forall|i: int| 0 <= i < foreign.len() ==> clean_entry(#[trigger] foreign[i]),
        forall|i: int| 0 <= i < managed.len() ==> clean_entry(#[trigger] managed[i]),
    ensures
        separate(rebuilt_lines(foreign, managed)) == (foreign, managed, true),
{
    let sep = separator_line();
    lemma_separator_facts();
    lemma_separate_entries(seq![], foreign);
    assert(Seq::<Seq<char>>::empty() + lines_of_entries(foreign) =~= lines_of_entries(foreign));
    assert(Seq::<HostEntryView>::empty() + foreign =~= foreign);
    let with_blank = lines_of_entries(foreign).push(Seq::<char>::empty());
    assert(with_blank.drop_last() =~= lines_of_entries(foreign));
    assert(trim(Seq::<char>::empty()) =~= Seq::<char>::empty());
    assert(!occurs_in(marker(), Seq::<char>::empty()));
    assert(separate(with_blank) == (foreign, Seq::<HostEntryView>::empty(), false));
    let with_separator = with_blank.push(sep);
    assert(with_separator.drop_last() =~= with_blank);
    assert(separate(with_separator) == (foreign, Seq::<HostEntryView>::empty(), true));
    lemma_separate_entries(with_separator, managed);
    assert(with_separator + lines_of_entries(managed) =~= rebuilt_lines(foreign, managed));
    assert(Seq::<HostEntryView>::empty() + managed =~= managed);
}

/// Splitting the file that `rebuilt(foreign, managed)` writes gives back
/// `foreign` as its foreign entries and `managed` as its managed ones, for
/// entries that read back from their lines and whose lines hold no line break
/// and no marker text. So applying an environment a second time keeps the same
/// foreign entries.
pub proof fn lemma_rebuilt_separates(foreign: Seq<HostEntryView>, managed: Seq<HostEntryView>)
    requires
        forall|i: int| 0 <= i < foreign.len() ==> clean_entry(#[trigger] foreign[i]),
        forall|i: int| 0 <= i < managed.len() ==> clean_entry(#[trigger] managed[i]),
    ensures
        separate(lines_of(rebuilt(foreign, managed))).0 == foreign,
        separate(lines_of(rebuilt(foreign, managed))).1 == managed,
{
    lemma_rebuilt_lines(foreign, managed);
    lemma_separate_rebuilt_lines(foreign, managed);
}

} // verus!
