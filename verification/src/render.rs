//! The template renderer.
//!
//! A format string carries placeholders: a `%` sigil followed by a run of
//! name characters (ASCII letters, digits, underscore and square brackets).
//! For each record, every placeholder is replaced by the record's value for
//! that name (the empty string when absent), and a newline is appended.
//! When the clean flag is set, the value of the `Exec` field itself has any
//! embedded placeholder-shaped tokens removed before substitution.

use vstd::prelude::*;
use crate::record::Record;
use crate::text::{replaced, replace_all, str_eq, views};

verus! {

/// A character that may stand in a placeholder name.
pub open spec fn is_name_char(c: char) -> bool {
    ('a' as u32 <= c as u32 && c as u32 <= 'z' as u32)
        || ('A' as u32 <= c as u32 && c as u32 <= 'Z' as u32)
        || ('0' as u32 <= c as u32 && c as u32 <= '9' as u32)
        || c == '_' || c == '[' || c == ']'
}

/// Length of the run of name characters starting at `i`.
pub open spec fn run_from(s: Seq<char>, i: int) -> int
    decreases s.len() - i,
{
    if i < 0 || i >= s.len() || !is_name_char(s[i]) {
        0
    } else {
        1 + run_from(s, i + 1)
    }
}

/// The run stays inside the sequence.
pub proof fn lemma_run_from_bound(s: Seq<char>, i: int)
    requires
        0 <= i <= s.len(),
    ensures
        0 <= run_from(s, i),
        i + run_from(s, i) <= s.len(),
    decreases s.len() - i,
{
    if i < s.len() && is_name_char(s[i]) {
        lemma_run_from_bound(s, i + 1);
    }
}

/// The placeholder names occurring at or after `i`, in order, duplicates
/// included: each `%` directly followed by at least one name character
/// yields the maximal run of name characters behind it.
pub open spec fn tokens_from(s: Seq<char>, i: int) -> Seq<Seq<char>>
    decreases s.len() - i,
    via tokens_from_decreases
{
    if i < 0 || i >= s.len() {
        Seq::empty()
    } else if s[i] == '%' && run_from(s, i + 1) > 0 {
        seq![s.subrange(i + 1, i + 1 + run_from(s, i + 1))]
            + tokens_from(s, i + 1 + run_from(s, i + 1))
    } else {
        tokens_from(s, i + 1)
    }
}

#[via_fn]
proof fn tokens_from_decreases(s: Seq<char>, i: int) {
    if 0 <= i && i < s.len() {
        lemma_run_from_bound(s, i + 1);
    }
}

/// All placeholder names of a format string, in order of occurrence.
pub open spec fn spec_tokens(s: Seq<char>) -> Seq<Seq<char>> {
    tokens_from(s, 0)
}

/// `s` with every placeholder-shaped token removed and every other
/// character kept, from position `i` on.
pub open spec fn strip_from(s: Seq<char>, i: int) -> Seq<char>
    decreases s.len() - i,
    via strip_from_decreases
{
    if i < 0 || i >= s.len() {
        Seq::empty()
    } else if s[i] == '%' && run_from(s, i + 1) > 0 {
        strip_from(s, i + 1 + run_from(s, i + 1))
    } else {
        seq![s[i]] + strip_from(s, i + 1)
    }
}

#[via_fn]
proof fn strip_from_decreases(s: Seq<char>, i: int) {
    if 0 <= i && i < s.len() {
        lemma_run_from_bound(s, i + 1);
    }
}

/// `s` with every placeholder-shaped token removed.
pub open spec fn stripped(s: Seq<char>) -> Seq<char> {
    strip_from(s, 0)
}

/// The distinct elements of `ts` in order of first appearance.
pub open spec fn first_occurrences(ts: Seq<Seq<char>>) -> Seq<Seq<char>>
    decreases ts.len(),
{
    if ts.len() == 0 {
        ts
    } else {
        let d = first_occurrences(ts.drop_last());
        if ts.drop_last().contains(ts.last()) {
            d
        } else {
            d.push(ts.last())
        }
    }
}

proof fn lemma_push_contains(s: Seq<Seq<char>>, y: Seq<char>, x: Seq<char>)
    ensures
        s.push(y).contains(x) == (s.contains(x) || x == y),
{
    if s.contains(x) {
        let w = choose|w: int| 0 <= w < s.len() && s[w] == x;
        assert(s.push(y)[w] == x);
    }
    if x == y {
        assert(s.push(y)[s.len() as int] == x);
    }
    if s.push(y).contains(x) {
        let w = choose|w: int| 0 <= w < s.push(y).len() && s.push(y)[w] == x;
        if w < s.len() {
            assert(s[w] == x);
        }
    }
}

proof fn lemma_drop_last_contains(ts: Seq<Seq<char>>, x: Seq<char>)
    requires
        ts.len() > 0,
    ensures
        ts.contains(x) == (ts.drop_last().contains(x) || x == ts.last()),
{
    if ts.contains(x) {
        let w = choose|w: int| 0 <= w < ts.len() && ts[w] == x;
        if w < ts.len() - 1 {
            assert(ts.drop_last()[w] == x);
        }
    }
    if ts.drop_last().contains(x) {
        let u = choose|u: int| 0 <= u < ts.drop_last().len() && ts.drop_last()[u] == x;
        assert(ts[u] == x);
    }
    if x == ts.last() {
        assert(ts[ts.len() - 1] == x);
    }
}

/// Collapsing to first occurrences keeps exactly the members.
pub proof fn lemma_first_occurrences_contains(ts: Seq<Seq<char>>, x: Seq<char>)
    ensures
        first_occurrences(ts).contains(x) == ts.contains(x),
    decreases ts.len(),
{
    if ts.len() > 0 {
        lemma_first_occurrences_contains(ts.drop_last(), x);
        lemma_drop_last_contains(ts, x);
        let d = first_occurrences(ts.drop_last());
        if ts.drop_last().contains(ts.last()) {
            if x == ts.last() {
                assert(ts.drop_last().contains(x));
            }
        } else {
            lemma_push_contains(d, ts.last(), x);
        }
    }
}

/// The token text that stands for `name` in a format string.
pub open spec fn pat_of(name: Seq<char>) -> Seq<char> {
    seq!['%'] + name
}

/// The text substituted for placeholder `name`: the record's value, the
/// empty string when the record has none, the value with its own
/// placeholder-shaped tokens removed when `name` is `Exec` and the clean
/// flag is set.
pub open spec fn field_value(
    rec: Map<Seq<char>, Seq<char>>,
    name: Seq<char>,
    clean: bool,
) -> Seq<char> {
    let raw = if rec.contains_key(name) {
        rec[name]
    } else {
        Seq::empty()
    };
    if clean && name == "Exec"@ {
        stripped(raw)
    } else {
        raw
    }
}

/// `t` after substituting the named placeholders one after the other, each
/// as a global replacement of its token.
pub open spec fn subst_list(
    t: Seq<char>,
    names: Seq<Seq<char>>,
    rec: Map<Seq<char>, Seq<char>>,
    clean: bool,
) -> Seq<char>
    decreases names.len(),
{
    if names.len() == 0 {
        t
    } else {
        subst_list(
            replaced(t, pat_of(names[0]), field_value(rec, names[0], clean)),
            names.skip(1),
            rec,
            clean,
        )
    }
}

/// The output line for one record: the format string with its placeholders
/// substituted in order of first appearance, and a newline appended.
pub open spec fn rendered_line(
    rec: Map<Seq<char>, Seq<char>>,
    fmt: Seq<char>,
    clean: bool,
) -> Seq<char> {
    subst_list(fmt, first_occurrences(spec_tokens(fmt)), rec, clean) + "\n"@
}

/// Name-character test matching `is_name_char`.
fn name_char(c: char) -> (r: bool)
    ensures
        r == is_name_char(c),
{
    ('a' as u32 <= c as u32 && c as u32 <= 'z' as u32)
        || ('A' as u32 <= c as u32 && c as u32 <= 'Z' as u32)
        || ('0' as u32 <= c as u32 && c as u32 <= '9' as u32)
        || c == '_' || c == '[' || c == ']'
}

/// Length of the run of name characters starting at `i`.
fn run_len_at(s: &str, i: usize) -> (r: usize)
    requires
        i <= s@.len(),
    ensures
        r == run_from(s@, i as int),
{
    let n: usize = s.unicode_len();
    let mut j: usize = i;
    while j < n && name_char(s.get_char(j))
        invariant
            i <= j <= n,
            n == s@.len(),
            run_from(s@, i as int) == j - i + run_from(s@, j as int),
        decreases n - j,
    {
        j = j + 1;
    }
    proof {
        lemma_run_from_bound(s@, i as int);
    }
    j - i
}

/// The placeholder names of `s`, in order, duplicates included.
fn scan_tokens(s: &str) -> (toks: Vec<String>)
    ensures
        views(toks@) == spec_tokens(s@),
{
    let n: usize = s.unicode_len();
    let mut toks: Vec<String> = Vec::new();
    let mut i: usize = 0;
    proof {
        assert(views(toks@) + tokens_from(s@, 0) =~= tokens_from(s@, 0));
    }
    while i < n
        invariant
            0 <= i <= n,
            n == s@.len(),
            spec_tokens(s@) == views(toks@) + tokens_from(s@, i as int),
        decreases n - i,
    {
        let ghost toks0 = views(toks@);
        if s.get_char(i) == '%' {
            let r = run_len_at(s, i + 1);
            if r > 0 {
                proof {
                    lemma_run_from_bound(s@, i + 1);
                }
                let name = String::from_str(s.substring_char(i + 1, i + 1 + r));
                toks.push(name);
                proof {
                    assert(views(toks@) =~= toks0.push(name@));
                    assert(toks0 + (seq![name@] + tokens_from(s@, i + 1 + r))
                        =~= toks0.push(name@) + tokens_from(s@, i + 1 + r));
                }
                i = i + 1 + r;
            } else {
                i = i + 1;
            }
        } else {
            i = i + 1;
        }
    }
    proof {
        assert(views(toks@) + tokens_from(s@, n as int) =~= views(toks@));
    }
    toks
}

/// Whether some string of `v` has the text of `x`.
fn contains_str(v: &Vec<String>, x: &str) -> (r: bool)
    ensures
        r == views(v@).contains(x@),
{
    let n: usize = v.len();
    let mut k: usize = 0;
    while k < n
        invariant
            0 <= k <= n,
            n == v@.len(),
            forall|m: int| 0 <= m < k ==> views(v@)[m] != x@,
        decreases n - k,
    {
        if str_eq(v[k].as_str(), x) {
            proof {
                assert(views(v@)[k as int] == x@);
            }
            return true;
        }
        k = k + 1;
    }
    proof {
        assert(forall|m: int| 0 <= m < views(v@).len() ==> views(v@)[m] != x@);
    }
    false
}

/// The distinct placeholder names of `toks`, in order of first appearance.
fn distinct_names(toks: &Vec<String>) -> (vars: Vec<String>)
    ensures
        views(vars@) == first_occurrences(views(toks@)),
{
    let n: usize = toks.len();
    let mut vars: Vec<String> = Vec::new();
    let mut k: usize = 0;
    proof {
        assert(views(toks@).take(0) =~= Seq::<Seq<char>>::empty());
        assert(views(vars@) =~= first_occurrences(views(toks@).take(0)));
    }
    while k < n
        invariant
            0 <= k <= n,
            n == toks@.len(),
            views(vars@) == first_occurrences(views(toks@).take(k as int)),
        decreases n - k,
    {
        let ghost all = views(toks@);
        let ghost pre = all.take(k as int);
        let t: &String = &toks[k];
        let seen = contains_str(&vars, t.as_str());
        proof {
            lemma_first_occurrences_contains(pre, t@);
            assert(all.take(k + 1).drop_last() =~= pre);
            assert(all.take(k + 1).last() == t@);
        }
        if !seen {
            vars.push(t.clone());
            proof {
                assert(views(vars@) =~= first_occurrences(pre).push(t@));
            }
        }
        k = k + 1;
    }
    proof {
        assert(views(toks@).take(n as int) =~= views(toks@));
    }
    vars
}

/// Copy of `s` with every placeholder-shaped token removed.
pub fn strip_tokens(s: &str) -> (out: String)
    ensures
        out@ == stripped(s@),
{
    let n: usize = s.unicode_len();
    let mut out: String = String::new();
    let mut i: usize = 0;
    proof {
        assert(out@ + strip_from(s@, 0) =~= strip_from(s@, 0));
    }
    while i < n
        invariant
            0 <= i <= n,
            n == s@.len(),
            stripped(s@) == out@ + strip_from(s@, i as int),
        decreases n - i,
    {
        let ghost out0 = out@;
        if s.get_char(i) == '%' && run_len_at(s, i + 1) > 0 {
            let r = run_len_at(s, i + 1);
            proof {
                lemma_run_from_bound(s@, i + 1);
            }
            i = i + 1 + r;
        } else {
            out.append(s.substring_char(i, i + 1));
            proof {
                assert(s@.subrange(i as int, i + 1) =~= seq![s@[i as int]]);
                assert(out0 + (seq![s@[i as int]] + strip_from(s@, i + 1))
                    =~= out0.push(s@[i as int]) + strip_from(s@, i + 1));
                assert(out@ =~= out0.push(s@[i as int]));
            }
            i = i + 1;
        }
    }
    proof {
        assert(out@ + strip_from(s@, n as int) =~= out@);
    }
    out
}

/// The text substituted for placeholder `name` of this record.
fn lookup_value(rec: &Record, name: &str, clean: bool) -> (v: String)
    ensures
        v@ == field_value(rec@, name@, clean),
{
    match rec.get(name) {
        None => String::new(),
        Some(val) => {
            if clean && str_eq(name, "Exec") {
                strip_tokens(val.as_str())
            } else {
                String::from_str(val.as_str())
            }
        },
    }
}

/// One output line for `rec`: `fmt` with the names in `vars` substituted in
/// order, then a newline.
fn render_line(rec: &Record, fmt: &str, vars: &Vec<String>, clean: bool) -> (line: String)
    requires
        views(vars@) == first_occurrences(spec_tokens(fmt@)),
    ensures
        line@ == rendered_line(rec@, fmt@, clean),
{
    let ghost names = views(vars@);
    let mut text: String = String::from_str(fmt);
    let n: usize = vars.len();
    let mut k: usize = 0;
    proof {
        assert(names.skip(0) =~= names);
    }
    while k < n
        invariant
            0 <= k <= n,
            n == vars@.len(),
            names == views(vars@),
            subst_list(text@, names.skip(k as int), rec@, clean)
                == subst_list(fmt@, names, rec@, clean),
        decreases n - k,
    {
        let v: &String = &vars[k];
        let mut pat: String = String::from_str("%");
        pat.append(v.as_str());
        proof {
            reveal_strlit("%");
            assert(pat@ =~= pat_of(v@));
            assert(names.skip(k as int)[0] == names[k as int]);
            assert(names.skip(k as int).skip(1) =~= names.skip(k + 1));
        }
        let val = lookup_value(rec, v.as_str(), clean);
        text = replace_all(text.as_str(), pat.as_str(), val.as_str());
        k = k + 1;
    }
    proof {
        assert(names.skip(n as int).len() == 0);
    }
    text.append("\n");
    text
}

/// Render every record through the format string, one line per record in
/// the order given.
pub fn render(records: &Vec<Record>, format: &str, clean_exec: bool) -> (out: Vec<String>)
    ensures
        out@.len() == records@.len(),
        forall|i: int|
            0 <= i < records@.len()
                ==> out@[i]@ == rendered_line(records@[i]@, format@, clean_exec),
{
    let toks = scan_tokens(format);
    let vars = distinct_names(&toks);
    let mut out: Vec<String> = Vec::new();
    let n: usize = records.len();
    let mut j: usize = 0;
    while j < n
        invariant
            0 <= j <= n,
            n == records@.len(),
            views(vars@) == first_occurrences(spec_tokens(format@)),
            out@.len() == j,
            forall|i: int|
                0 <= i < j ==> out@[i]@ == rendered_line(records@[i]@, format@, clean_exec),
        decreases n - j,
    {
        let line = render_line(&records[j], format, &vars, clean_exec);
        out.push(line);
        j = j + 1;
    }
    out
}

} // verus!
