//! Character-sequence primitives shared by the parser and the renderer:
//! whitespace trimming, character search and exact string comparison.

use vstd::prelude::*;

verus! {

/// ASCII whitespace, the characters trimmed from keys and values.
pub open spec fn is_space(c: char) -> bool {
    c == ' ' || c == '\t' || c == '\r' || c == '\n' || c == '\u{b}' || c == '\u{c}'
}

/// `s` without its leading whitespace.
pub open spec fn trim_start(s: Seq<char>) -> Seq<char>
    decreases s.len(),
{
    if s.len() > 0 && is_space(s[0]) {
        trim_start(s.skip(1))
    } else {
        s
    }
}

/// `s` without its trailing whitespace.
pub open spec fn trim_end(s: Seq<char>) -> Seq<char>
    decreases s.len(),
{
    if s.len() > 0 && is_space(s[s.len() - 1]) {
        trim_end(s.drop_last())
    } else {
        s
    }
}

/// `s` without leading and trailing whitespace.
pub open spec fn trimmed(s: Seq<char>) -> Seq<char> {
    trim_end(trim_start(s))
}

proof fn lemma_trim_start_at(s: Seq<char>, i: int)
    requires
        0 <= i <= s.len(),
        forall|k: int| 0 <= k < i ==> is_space(s[k]),
        i < s.len() ==> !is_space(s[i]),
    ensures
        trim_start(s) == s.skip(i),
    decreases i,
{
    if i == 0 {
        assert(s.skip(0) =~= s);
    } else {
        assert(is_space(s[0]));
        lemma_trim_start_at(s.skip(1), i - 1);
        assert(s.skip(1).skip(i - 1) =~= s.skip(i));
    }
}

proof fn lemma_trim_end_at(s: Seq<char>, j: int)
    requires
        0 <= j <= s.len(),
        forall|k: int| j <= k < s.len() ==> is_space(s[k]),
        j > 0 ==> !is_space(s[j - 1]),
    ensures
        trim_end(s) == s.take(j),
    decreases s.len() - j,
{
    if j == s.len() {
        assert(s.take(j) =~= s);
    } else {
        assert(is_space(s[s.len() - 1]));
        lemma_trim_end_at(s.drop_last(), j);
        assert(s.drop_last().take(j) =~= s.take(j));
    }
}

/// The character sequences behind a sequence of strings.
pub open spec fn views(ss: Seq<String>) -> Seq<Seq<char>> {
    ss.map_values(|s: String| s@)
}

/// Index of the first occurrence of `c` in `s` at position `i` or later,
/// or `-1` when there is none.
pub open spec fn find_ch_at(s: Seq<char>, c: char, i: int) -> int
    decreases s.len() - i,
{
    if i < 0 || i >= s.len() {
        -1
    } else if s[i] == c {
        i
    } else {
        find_ch_at(s, c, i + 1)
    }
}

/// Index of the first occurrence of `c` in `s`, or `-1` when there is none.
pub open spec fn find_ch(s: Seq<char>, c: char) -> int {
    find_ch_at(s, c, 0)
}

/// What `find_ch_at` returns: either `-1` with no occurrence from `i` on,
/// or the first index at or after `i` that holds `c`.
pub proof fn lemma_find_ch_at(s: Seq<char>, c: char, i: int)
    requires
        0 <= i <= s.len(),
    ensures
        find_ch_at(s, c, i) == -1 ==> forall|k: int| i <= k < s.len() ==> s[k] != c,
        find_ch_at(s, c, i) != -1 ==> i <= find_ch_at(s, c, i) < s.len(),
        find_ch_at(s, c, i) != -1 ==> s[find_ch_at(s, c, i)] == c,
        find_ch_at(s, c, i) != -1 ==> forall|k: int| i <= k < find_ch_at(s, c, i) ==> s[k] != c,
    decreases s.len() - i,
{
    if i < s.len() && s[i] != c {
        lemma_find_ch_at(s, c, i + 1);
    }
}

/// `pat` occurs in `t` starting at index `i`.
pub open spec fn match_at(t: Seq<char>, pat: Seq<char>, i: int) -> bool {
    0 <= i && i + pat.len() <= t.len() && t.subrange(i, i + pat.len()) == pat
}

proof fn lemma_trim_start_clean(s: Seq<char>)
    ensures
        trim_start(s).len() > 0 ==> !is_space(trim_start(s)[0]),
    decreases s.len(),
{
    if s.len() > 0 && is_space(s[0]) {
        lemma_trim_start_clean(s.skip(1));
    }
}

proof fn lemma_trim_end_clean(s: Seq<char>)
    ensures
        trim_end(s).len() > 0 ==> !is_space(trim_end(s)[trim_end(s).len() - 1]),
        trim_end(s).len() > 0 ==> trim_end(s)[0] == s[0],
    decreases s.len(),
{
    if s.len() > 0 && is_space(s[s.len() - 1]) {
        lemma_trim_end_clean(s.drop_last());
    }
}

/// Trimming is clean: a trimmed text neither starts nor ends with
/// whitespace.
pub proof fn lemma_trimmed_clean(s: Seq<char>)
    ensures
        trimmed(s).len() > 0 ==> !is_space(trimmed(s)[0]),
        trimmed(s).len() > 0 ==> !is_space(trimmed(s)[trimmed(s).len() - 1]),
{
    lemma_trim_start_clean(s);
    lemma_trim_end_clean(trim_start(s));
}

/// True exactly when `a` and `b` are the same character sequence.
pub fn str_eq(a: &str, b: &str) -> (r: bool)
    ensures
        r == (a@ == b@),
{
    let an: usize = a.unicode_len();
    let bn: usize = b.unicode_len();
    if an != bn {
        return false;
    }
    let mut i: usize = 0;
    while i < an
        invariant
            0 <= i <= an,
            an == a@.len(),
            an == b@.len(),
            forall|k: int| 0 <= k < i ==> a@[k] == b@[k],
        decreases an - i,
    {
        if a.get_char(i) != b.get_char(i) {
            return false;
        }
        i = i + 1;
    }
    proof {
        assert(a@ =~= b@);
    }
    true
}

/// Whitespace test on a single character, matching `is_space`.
fn space_char(c: char) -> (r: bool)
    ensures
        r == is_space(c),
{
    c == ' ' || c == '\t' || c == '\r' || c == '\n' || c == '\u{b}' || c == '\u{c}'
}

/// Copy of `s` with surrounding whitespace removed.
pub fn trim(s: &str) -> (r: String)
    ensures
        r@ == trimmed(s@),
{
    let n: usize = s.unicode_len();
    let mut i: usize = 0;
    while i < n && space_char(s.get_char(i))
        invariant
            0 <= i <= n,
            n == s@.len(),
            forall|k: int| 0 <= k < i ==> is_space(s@[k]),
        decreases n - i,
    {
        i = i + 1;
    }
    let mut j: usize = n;
    while j > i && space_char(s.get_char(j - 1))
        invariant
            i <= j <= n,
            n == s@.len(),
            forall|k: int| j <= k < n ==> is_space(s@[k]),
        decreases j,
    {
        j = j - 1;
    }
    proof {
        lemma_trim_start_at(s@, i as int);
        if i < n {
            lemma_trim_end_at(s@.skip(i as int), (j - i) as int);
        } else {
            lemma_trim_end_at(s@.skip(i as int), 0);
        }
        assert(s@.skip(i as int).take((j - i) as int) =~= s@.subrange(i as int, j as int));
    }
    String::from_str(s.substring_char(i, j))
}

/// Position of the first `c` in `s`, if any.
pub fn find_char(s: &str, c: char) -> (r: Option<usize>)
    ensures
        r is Some ==> find_ch(s@, c) == r->0 as int,
        r is None ==> find_ch(s@, c) == -1,
{
    let n: usize = s.unicode_len();
    let mut i: usize = 0;
    while i < n
        invariant
            0 <= i <= n,
            n == s@.len(),
            find_ch(s@, c) == find_ch_at(s@, c, i as int),
        decreases n - i,
    {
        if s.get_char(i) == c {
            return Some(i);
        }
        i = i + 1;
    }
    None
}

/// True exactly when `pat` occurs in `t` starting at index `i`.
pub fn matches_at(t: &str, pat: &str, i: usize) -> (r: bool)
    ensures
        r == match_at(t@, pat@, i as int),
{
    let n: usize = t.unicode_len();
    let p: usize = pat.unicode_len();
    if i > n || p > n - i {
        return false;
    }
    let mut k: usize = 0;
    while k < p
        invariant
            0 <= k <= p,
            n == t@.len(),
            p == pat@.len(),
            i + p <= n,
            forall|m: int| 0 <= m < k ==> t@[i + m] == pat@[m],
        decreases p - k,
    {
        if t.get_char(i + k) != pat.get_char(k) {
            proof {
                assert(t@.subrange(i as int, i + p) != pat@) by {
                    assert(t@.subrange(i as int, i + p)[k as int] == t@[i + k]);
                }
            }
            return false;
        }
        k = k + 1;
    }
    proof {
        assert(t@.subrange(i as int, i + p) =~= pat@);
    }
    true
}

/// `t` with every occurrence of `pat` replaced by `rep`, scanning left to
/// right without overlap; `t` unchanged when `pat` is empty.
pub open spec fn replaced(t: Seq<char>, pat: Seq<char>, rep: Seq<char>) -> Seq<char>
    decreases t.len(),
{
    if pat.len() == 0 || t.len() < pat.len() {
        t
    } else if t.take(pat.len() as int) == pat {
        rep + replaced(t.skip(pat.len() as int), pat, rep)
    } else {
        seq![t[0]] + replaced(t.skip(1), pat, rep)
    }
}

/// Copy of `t` with every occurrence of `pat` replaced by `rep`.
pub fn replace_all(t: &str, pat: &str, rep: &str) -> (res: String)
    ensures
        res@ == replaced(t@, pat@, rep@),
{
    let n: usize = t.unicode_len();
    let p: usize = pat.unicode_len();
    if p == 0 {
        return String::from_str(t);
    }
    let mut out: String = String::new();
    let mut i: usize = 0;
    proof {
        assert(t@.skip(0) =~= t@);
        assert(Seq::<char>::empty() + replaced(t@, pat@, rep@) =~= replaced(t@, pat@, rep@));
    }
    while i < n
        invariant
            0 <= i <= n,
            n == t@.len(),
            p == pat@.len(),
            p > 0,
            replaced(t@, pat@, rep@) == out@ + replaced(t@.skip(i as int), pat@, rep@),
        decreases n - i,
    {
        let ghost tail = t@.skip(i as int);
        let ghost out0 = out@;
        if matches_at(t, pat, i) {
            out.append(rep);
            proof {
                assert(tail.take(p as int) =~= t@.subrange(i as int, i + p));
                assert(tail.skip(p as int) =~= t@.skip(i + p));
                assert(replaced(tail, pat@, rep@)
                    == rep@ + replaced(tail.skip(p as int), pat@, rep@));
                assert(out0 + (rep@ + replaced(t@.skip(i + p), pat@, rep@))
                    =~= (out0 + rep@) + replaced(t@.skip(i + p), pat@, rep@));
            }
            i = i + p;
        } else {
            out.append(t.substring_char(i, i + 1));
            proof {
                if tail.len() >= p {
                    assert(tail.take(p as int) =~= t@.subrange(i as int, i + p));
                    assert(tail.take(p as int) != pat@);
                    assert(replaced(tail, pat@, rep@)
                        == seq![tail[0]] + replaced(tail.skip(1), pat@, rep@));
                } else {
                    assert(replaced(tail, pat@, rep@) == tail);
                    assert(replaced(tail.skip(1), pat@, rep@) == tail.skip(1));
                    assert(tail =~= seq![tail[0]] + tail.skip(1));
                }
                assert(tail.skip(1) =~= t@.skip(i + 1));
                assert(t@.subrange(i as int, i + 1) =~= seq![tail[0]]);
                assert(out0 + (seq![tail[0]] + replaced(t@.skip(i + 1), pat@, rep@))
                    =~= (out0 + seq![tail[0]]) + replaced(t@.skip(i + 1), pat@, rep@));
            }
            i = i + 1;
        }
    }
    proof {
        assert(t@.skip(n as int) =~= Seq::<char>::empty());
        assert(replaced(t@.skip(n as int), pat@, rep@) == Seq::<char>::empty());
        assert(out@ + Seq::<char>::empty() =~= out@);
    }
    out
}

} // verus!
