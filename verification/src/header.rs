//! The metadata header of a template file: lines, the separator, and the
//! `key: value` entries above it.
use vstd::prelude::*;
use vstd::string::{StrSliceExecFns, StringExecFns};
use crate::text::{chars_of, is_space, is_space_char, lemma_run_end_bounds, run_end, spaces_end};
use crate::token::strings;

verus! {

/// The position of the next line feed at or after `pos`, or the end of `s`.
pub open spec fn line_end(s: Seq<char>, pos: int) -> int {
    run_end(s, pos, |c: char| c != '\n')
}

/// The line that starts at `pos`, without its line ending: a line feed, or a
/// carriage return and a line feed.
pub open spec fn line_at(s: Seq<char>, pos: int) -> Seq<char> {
    let e = line_end(s, pos);
    if e < s.len() && pos < e && s[e - 1] == '\r' {
        s.subrange(pos, e - 1)
    } else {
        s.subrange(pos, e)
    }
}

/// The lines of `s` from `pos` on, after those in `acc`.
pub open spec fn lines_from(s: Seq<char>, pos: int, acc: Seq<Seq<char>>) -> Seq<Seq<char>>
    decreases s.len() - pos,
{
    if !(0 <= pos < s.len()) {
        acc
    } else {
        proof {
            lemma_run_end_bounds(s, pos, |c: char| c != '\n');
        }
        if line_end(s, pos) < s.len() {
            lines_from(s, line_end(s, pos) + 1, acc.push(line_at(s, pos)))
        } else {
            acc.push(line_at(s, pos))
        }
    }
}

/// The lines of a text. A line ending at the end of the text starts no
/// further line.
pub open spec fn lines(s: Seq<char>) -> Seq<Seq<char>> {
    lines_from(s, 0, Seq::empty())
}

/// The length of `s` without the white space at its end.
pub open spec fn trimmed_len(s: Seq<char>) -> nat
    decreases s.len(),
{
    if s.len() > 0 && is_space(s.last()) {
        trimmed_len(s.drop_last())
    } else {
        s.len()
    }
}

/// `s` without the white space at its start and at its end.
pub open spec fn trim(s: Seq<char>) -> Seq<char> {
    let t = s.take(trimmed_len(s) as int);
    t.skip(spaces_end(t, 0))
}

/// A line without its first character.
pub open spec fn after_marker(line: Seq<char>) -> Seq<char> {
    if line.len() == 0 {
        line
    } else {
        line.skip(1)
    }
}

/// Whether a line separates the header from the body: `#`, then one or more
/// dashes and nothing else, with white space allowed around the dashes. The
/// marker alone is an ordinary header line.
pub open spec fn is_separator(line: Seq<char>) -> bool {
    &&& line.len() > 0
    &&& line[0] == '#'
    &&& trim(line.skip(1)).len() > 0
    &&& forall|i: int| 0 <= i < trim(line.skip(1)).len() ==> trim(line.skip(1))[i] == '-'
}

/// The index of the first separator at or after line `i`.
pub open spec fn separator_from(ls: Seq<Seq<char>>, i: int) -> Option<int>
    decreases ls.len() - i,
{
    if !(0 <= i < ls.len()) {
        None
    } else if is_separator(ls[i]) {
        Some(i)
    } else {
        separator_from(ls, i + 1)
    }
}

/// The position of the first colon of `s`, or its length.
pub open spec fn colon_at(s: Seq<char>) -> int {
    run_end(s, 0, |c: char| c != ':')
}

/// The key of a header line: what stands between the first character and
/// the first colon, trimmed.
pub open spec fn entry_key(line: Seq<char>) -> Seq<char> {
    let rest = after_marker(line);
    trim(rest.take(colon_at(rest)))
}

/// The value of a header line: what follows the first colon, trimmed.
pub open spec fn entry_value(line: Seq<char>) -> Seq<char> {
    let rest = after_marker(line);
    if colon_at(rest) < rest.len() {
        trim(rest.skip(colon_at(rest) + 1))
    } else {
        Seq::empty()
    }
}

/// The value that the first `n` lines give to `key`: that of the last line
/// with this key.
pub open spec fn header_value(ls: Seq<Seq<char>>, n: nat, key: Seq<char>) -> Option<Seq<char>>
    decreases n,
{
    if n == 0 || n > ls.len() {
        None
    } else if entry_key(ls[n - 1]) == key {
        Some(entry_value(ls[n - 1]))
    } else {
        header_value(ls, (n - 1) as nat, key)
    }
}

/// The bounds of the part of `cs` between `from` and `to` that is left when
/// the white space at both ends is taken off.
pub fn trim_span(cs: &Vec<char>, from: usize, to: usize) -> (r: (usize, usize))
    requires
        from <= to <= cs.len(),
    ensures
        from <= r.0 <= r.1 <= to,
        cs@.subrange(r.0 as int, r.1 as int) == trim(cs@.subrange(from as int, to as int)),
{
    let ghost s = cs@.subrange(from as int, to as int);
    let mut b: usize = to;
    assert(cs@.subrange(from as int, b as int) =~= s);
    while b > from && is_space_char(cs[b - 1])
        invariant
            from <= b <= to <= cs.len(),
            trimmed_len(s) == trimmed_len(cs@.subrange(from as int, b as int)),
        decreases b,
    {
        assert(cs@.subrange(from as int, b as int).drop_last() =~= cs@.subrange(
            from as int,
            b - 1,
        ));
        b -= 1;
    }
    let ghost t = cs@.subrange(from as int, b as int);
    assert(trimmed_len(s) == b - from);
    assert(s.take(trimmed_len(s) as int) =~= t);
    let mut a: usize = from;
    while a < b && is_space_char(cs[a])
        invariant
            from <= a <= b <= cs.len(),
            t == cs@.subrange(from as int, b as int),
            spaces_end(t, 0) == spaces_end(t, a - from),
        decreases b - a,
    {
        a += 1;
    }
    assert(t.skip(a - from) =~= cs@.subrange(a as int, b as int));
    (a, b)
}

/// Splits a text into its lines.
pub fn split_lines(src: &str) -> (out: Vec<String>)
    ensures
        strings(out@) == lines(src@),
{
    let cs = chars_of(src);
    let mut out: Vec<String> = Vec::new();
    let mut pos: usize = 0;
    assert(strings(out@) =~= Seq::empty());
    while pos < cs.len()
        invariant_except_break
            lines(src@) == lines_from(src@, pos as int, strings(out@)),
        invariant
            cs@ == src@,
            pos <= cs.len(),
        ensures
            strings(out@) == lines(src@),
        decreases cs.len() - pos,
    {
        let mut e: usize = pos;
        while e < cs.len() && cs[e] != '\n'
            invariant
                pos <= e <= cs.len(),
                line_end(cs@, pos as int) == line_end(cs@, e as int),
            decreases cs.len() - e,
        {
            e += 1;
        }
        let stop = if e < cs.len() && pos < e && cs[e - 1] == '\r' {
            e - 1
        } else {
            e
        };
        let ghost before = out@;
        out.push(String::from_str(src.substring_char(pos, stop)));
        assert(strings(out@) =~= strings(before).push(line_at(src@, pos as int)));
        if e < cs.len() {
            pos = e + 1;
        } else {
            break ;
        }
    }
    out
}

/// Whether a line separates the header from the body.
pub fn separating(line: &str) -> (b: bool)
    ensures
        b == is_separator(line@),
{
    let cs = chars_of(line);
    if cs.len() == 0 || cs[0] != '#' {
        return false;
    }
    let (a, b) = trim_span(&cs, 1, cs.len());
    assert(cs@.subrange(1, cs@.len() as int) =~= line@.skip(1));
    if a == b {
        return false;
    }
    let mut i: usize = a;
    while i < b
        invariant
            a <= i <= b <= cs.len(),
            cs@ == line@,
            cs@.subrange(a as int, b as int) == trim(line@.skip(1)),
            forall|k: int| a <= k < i ==> cs@[k] == '-',
        decreases b - i,
    {
        if cs[i] != '-' {
            assert(cs@.subrange(a as int, b as int)[i - a] != '-');
            return false;
        }
        i += 1;
    }
    assert forall|k: int| 0 <= k < trim(line@.skip(1)).len() implies trim(line@.skip(1))[k]
        == '-' by {
        assert(cs@.subrange(a as int, b as int)[k] == cs@[a + k]);
    }
    true
}

/// The key and the value of a header line.
pub fn header_entry(line: &str) -> (r: (String, String))
    ensures
        r.0@ == entry_key(line@),
        r.1@ == entry_value(line@),
{
    let cs = chars_of(line);
    let n = cs.len();
    let from: usize = if n == 0 {
        0
    } else {
        1
    };
    let ghost rest = after_marker(line@);
    assert(rest =~= cs@.subrange(from as int, n as int));
    let mut c: usize = from;
    while c < n && cs[c] != ':'
        invariant
            from <= c <= n,
            n == cs.len(),
            rest == cs@.subrange(from as int, n as int),
            colon_at(rest) == run_end(rest, c - from, |c: char| c != ':'),
        decreases n - c,
    {
        c += 1;
    }
    assert(colon_at(rest) == c - from);
    assert(rest.take(c - from) =~= cs@.subrange(from as int, c as int));
    let (ka, kb) = trim_span(&cs, from, c);
    let key = String::from_str(line.substring_char(ka, kb));
    if c < n {
        assert(rest.skip(c - from + 1) =~= cs@.subrange(c + 1, n as int));
        let (va, vb) = trim_span(&cs, c + 1, n);
        (key, String::from_str(line.substring_char(va, vb)))
    } else {
        (key, String::new())
    }
}

/// Text that is white space throughout has nothing left when trimmed.
pub proof fn lemma_trim_of_white_space(s: Seq<char>)
    requires
        forall|i: int| 0 <= i < s.len() ==> is_space(#[trigger] s[i]),
    ensures
        trimmed_len(s) == 0,
        trim(s).len() == 0,
    decreases s.len(),
{
    if s.len() > 0 {
        lemma_trim_of_white_space(s.drop_last());
    }
}

/// The marker alone, or with nothing but white space after it, is no
/// separator.
pub proof fn lemma_marker_alone_is_no_separator(line: Seq<char>)
    requires
        line.len() > 0,
        forall|i: int| 1 <= i < line.len() ==> is_space(#[trigger] line[i]),
    ensures
        !is_separator(line),
{
    assert forall|i: int| 0 <= i < line.skip(1).len() implies is_space(
        #[trigger] line.skip(1)[i],
    ) by {
        assert(line.skip(1)[i] == line[i + 1]);
    }
    lemma_trim_of_white_space(line.skip(1));
}

} // verus!
