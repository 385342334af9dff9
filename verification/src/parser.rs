//! The descriptor parser: a two-phase cursor over the lines of one file.
//!
//! Before the `[Desktop Entry]` header every non-bracketed line is ignored;
//! inside the section `key=value` lines are accumulated; any further
//! bracketed line ends parsing, so only the first recognized section is ever
//! read.  Parsing is total: every input yields a record.

use vstd::prelude::*;
use crate::record::Record;
use crate::text::{find_ch, find_char, lemma_find_ch_at, trimmed, trim, str_eq, views};

verus! {

/// The line begins with character `c`.
pub open spec fn starts_with(l: Seq<char>, c: char) -> bool {
    l.len() > 0 && l[0] == c
}

/// The record accumulated from line `i` on, given whether the recognized
/// section is already open (`ins`) and the pairs gathered so far (`acc`):
///
/// - a bracketed line opens the section when it is exactly `[Desktop Entry]`
///   and the section was not open yet; any other bracketed line, including a
///   second `[Desktop Entry]`, ends parsing with what was accumulated;
/// - blank lines, comment lines and everything outside the section are
///   skipped;
/// - a section line is split at its first `=`; key and value are trimmed and
///   inserted, later occurrences of a key overwriting earlier ones; a line
///   without `=`, or with an empty key, is malformed and skipped.
pub open spec fn parse_at(
    lines: Seq<Seq<char>>,
    i: int,
    ins: bool,
    acc: Map<Seq<char>, Seq<char>>,
) -> Map<Seq<char>, Seq<char>>
    decreases lines.len() - i,
{
    if i < 0 || i >= lines.len() {
        acc
    } else {
        let l = lines[i];
        if starts_with(l, '[') {
            if l == "[Desktop Entry]"@ && !ins {
                parse_at(lines, i + 1, true, acc)
            } else {
                acc
            }
        } else if !ins || l.len() == 0 || starts_with(l, '#') {
            parse_at(lines, i + 1, ins, acc)
        } else {
            let j = find_ch(l, '=');
            if j < 0 {
                parse_at(lines, i + 1, ins, acc)
            } else {
                let k = trimmed(l.take(j));
                let v = trimmed(l.skip(j + 1));
                if k.len() == 0 {
                    parse_at(lines, i + 1, ins, acc)
                } else {
                    parse_at(lines, i + 1, ins, acc.insert(k, v))
                }
            }
        }
    }
}

/// The record that the given lines denote.
pub open spec fn spec_parse(lines: Seq<Seq<char>>) -> Map<Seq<char>, Seq<char>> {
    parse_at(lines, 0, false, Map::empty())
}

/// Parse the lines of one descriptor file into a record.
pub fn parse_lines(lines: &Vec<String>) -> (r: Record)
    ensures
        r@ == spec_parse(views(lines@)),
{
    let ghost ls = views(lines@);
    let mut rec = Record::new();
    let n: usize = lines.len();
    let mut i: usize = 0;
    let mut in_section: bool = false;
    while i < n
        invariant
            0 <= i <= n,
            n == lines@.len(),
            ls == views(lines@),
            spec_parse(ls) == parse_at(ls, i as int, in_section, rec@),
        decreases n - i,
    {
        let l: &str = lines[i].as_str();
        proof {
            assert(ls[i as int] == l@);
        }
        let len: usize = l.unicode_len();
        if len > 0 && l.get_char(0) == '[' {
            if !in_section && str_eq(l, "[Desktop Entry]") {
                in_section = true;
            } else {
                return rec;
            }
        } else if !in_section || len == 0 || l.get_char(0) == '#' {
        } else {
            match find_char(l, '=') {
                None => {},
                Some(j) => {
                    proof {
                        lemma_find_ch_at(l@, '=', 0);
                    }
                    let key = trim(l.substring_char(0, j));
                    let value = trim(l.substring_char(j + 1, len));
                    proof {
                        assert(l@.subrange(0, j as int) =~= l@.take(j as int));
                        assert(l@.subrange(j + 1, len as int) =~= l@.skip(j + 1));
                    }
                    if key.unicode_len() > 0 {
                        rec.insert(key, value);
                    }
                },
            }
        }
        i = i + 1;
    }
    rec
}

/// Parsing is a pure function of the lines: two parses of the same file
/// yield identical records.
pub proof fn lemma_parse_deterministic(
    lines: Seq<Seq<char>>,
    r1: Map<Seq<char>, Seq<char>>,
    r2: Map<Seq<char>, Seq<char>>,
)
    requires
        r1 == spec_parse(lines),
        r2 == spec_parse(lines),
    ensures
        r1 == r2,
{
}

/// Parsing from position `i` is parsing the suffix that starts there.
pub proof fn lemma_parse_at_shift(
    lines: Seq<Seq<char>>,
    i: int,
    ins: bool,
    acc: Map<Seq<char>, Seq<char>>,
)
    requires
        0 <= i <= lines.len(),
    ensures
        parse_at(lines, i, ins, acc) == parse_at(lines.skip(i), 0, ins, acc),
    decreases lines.len() - i,
{
    if i == lines.len() {
        assert(lines.skip(i).len() == 0);
    } else {
        let l = lines[i];
        let rest = lines.skip(i);
        assert(rest[0] == l);
        assert(rest.skip(1) =~= lines.skip(i + 1));
        if starts_with(l, '[') {
            if l == "[Desktop Entry]"@ && !ins {
                lemma_parse_at_shift(lines, i + 1, true, acc);
                lemma_parse_at_shift(rest, 1, true, acc);
            }
        } else if !ins || l.len() == 0 || starts_with(l, '#') {
            lemma_parse_at_shift(lines, i + 1, ins, acc);
            lemma_parse_at_shift(rest, 1, ins, acc);
        } else {
            let j = find_ch(l, '=');
            let acc2 = if j < 0 || trimmed(l.take(j)).len() == 0 {
                acc
            } else {
                acc.insert(trimmed(l.take(j)), trimmed(l.skip(j + 1)))
            };
            lemma_parse_at_shift(lines, i + 1, ins, acc2);
            lemma_parse_at_shift(rest, 1, ins, acc2);
        }
    }
}

/// Section gate: while no bracketed line has been seen, every line is
/// ignored, so the record of a file equals the record of its suffix that
/// starts at the first bracketed line.  In particular a `key=value` line
/// standing before any `[Desktop Entry]` header contributes nothing.
pub proof fn lemma_section_gate(lines: Seq<Seq<char>>, n: int)
    requires
        0 <= n <= lines.len(),
        forall|j: int| 0 <= j < n ==> !starts_with(lines[j], '['),
    ensures
        spec_parse(lines) == spec_parse(lines.skip(n)),
{
    lemma_gate_steps(lines, 0, n, Map::empty());
    lemma_parse_at_shift(lines, n, false, Map::empty());
}

proof fn lemma_gate_steps(lines: Seq<Seq<char>>, i: int, n: int, acc: Map<Seq<char>, Seq<char>>)
    requires
        0 <= i <= n <= lines.len(),
        forall|j: int| i <= j < n ==> !starts_with(lines[j], '['),
    ensures
        parse_at(lines, i, false, acc) == parse_at(lines, n, false, acc),
    decreases n - i,
{
    if i < n {
        assert(!starts_with(lines[i], '['));
        lemma_gate_steps(lines, i + 1, n, acc);
    }
}

/// A file with no bracketed line at all yields the empty record.
pub proof fn lemma_no_header_yields_empty(lines: Seq<Seq<char>>)
    requires
        forall|j: int| 0 <= j < lines.len() ==> !starts_with(lines[j], '['),
    ensures
        spec_parse(lines) == Map::<Seq<char>, Seq<char>>::empty(),
{
    lemma_section_gate(lines, lines.len() as int);
    assert(lines.skip(lines.len() as int).len() == 0);
}

/// Only the first recognized section is parsed: when the file opens with the
/// `[Desktop Entry]` header and line `i` is the next bracketed line, every
/// line from `i` on is ignored.
pub proof fn lemma_first_section_only(lines: Seq<Seq<char>>, i: int)
    requires
        1 <= i <= lines.len(),
        lines[0] == "[Desktop Entry]"@,
        i < lines.len() ==> starts_with(lines[i], '['),
    ensures
        spec_parse(lines) == spec_parse(lines.take(i)),
{
    reveal_strlit("[Desktop Entry]");
    assert(starts_with(lines[0], '['));
    let cut = lines.take(i);
    assert(cut[0] == lines[0]);
    assert(starts_with(cut[0], '['));
    lemma_section_steps(lines, 1, i, Map::empty());
}

proof fn lemma_section_steps(lines: Seq<Seq<char>>, j: int, i: int, acc: Map<Seq<char>, Seq<char>>)
    requires
        0 <= j <= i <= lines.len(),
        i < lines.len() ==> starts_with(lines[i], '['),
    ensures
        parse_at(lines, j, true, acc) == parse_at(lines.take(i), j, true, acc),
    decreases i - j,
{
    let cut = lines.take(i);
    if j == i {
        if i < lines.len() {
            assert(starts_with(lines[i], '['));
        }
    } else {
        let l = lines[j];
        assert(cut[j] == l);
        if starts_with(l, '[') {
        } else if l.len() == 0 || starts_with(l, '#') {
            lemma_section_steps(lines, j + 1, i, acc);
        } else {
            let e = find_ch(l, '=');
            let acc2 = if e < 0 || trimmed(l.take(e)).len() == 0 {
                acc
            } else {
                acc.insert(trimmed(l.take(e)), trimmed(l.skip(e + 1)))
            };
            lemma_section_steps(lines, j + 1, i, acc2);
        }
    }
}

} // verus!
