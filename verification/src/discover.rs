//! The computing half of discovery: resolving the search-path variable into
//! base directories, naming each directory's `applications` subdirectory,
//! and selecting the file names with the descriptor extension.  Reading the
//! variable and the directories themselves is the caller's part.

use vstd::prelude::*;
use crate::text::{find_ch, find_char, lemma_find_ch_at, matches_at, views};

verus! {

/// `s` cut at every occurrence of `c`, the separators dropped, empty
/// segments kept; the whole of `s` when `c` does not occur.
pub open spec fn split_on(s: Seq<char>, c: char) -> Seq<Seq<char>>
    decreases s.len(),
    via split_on_decreases
{
    let j = find_ch(s, c);
    if j < 0 {
        seq![s]
    } else {
        seq![s.take(j)] + split_on(s.skip(j + 1), c)
    }
}

#[via_fn]
proof fn split_on_decreases(s: Seq<char>, c: char) {
    lemma_find_ch_at(s, c, 0);
}

/// Split `s` at every occurrence of `sep`.
pub fn split_list(s: &str, sep: char) -> (out: Vec<String>)
    ensures
        views(out@) == split_on(s@, sep),
{
    let mut out: Vec<String> = Vec::new();
    let mut rest: String = String::from_str(s);
    proof {
        assert(views(out@) + split_on(s@, sep) =~= split_on(s@, sep));
    }
    loop
        invariant
            split_on(s@, sep) == views(out@) + split_on(rest@, sep),
        decreases rest@.len(),
    {
        let ghost out0 = views(out@);
        let n: usize = rest.as_str().unicode_len();
        match find_char(rest.as_str(), sep) {
            Some(j) => {
                proof {
                    lemma_find_ch_at(rest@, sep, 0);
                }
                let head = String::from_str(rest.as_str().substring_char(0, j));
                let tail = String::from_str(rest.as_str().substring_char(j + 1, n));
                out.push(head);
                proof {
                    assert(rest@.subrange(0, j as int) =~= rest@.take(j as int));
                    assert(rest@.subrange(j + 1, n as int) =~= rest@.skip(j + 1));
                    assert(split_on(rest@, sep)
                        == seq![rest@.take(j as int)] + split_on(rest@.skip(j + 1), sep));
                    assert(views(out@) =~= out0.push(rest@.take(j as int)));
                    assert(out0 + (seq![rest@.take(j as int)] + split_on(rest@.skip(j + 1), sep))
                        =~= views(out@) + split_on(rest@.skip(j + 1), sep));
                }
                rest = tail;
            },
            None => {
                out.push(rest);
                proof {
                    assert(views(out@) =~= out0.push(rest@));
                    assert(out0 + seq![rest@] =~= views(out@));
                }
                return out;
            },
        }
    }
}

/// The base directories to search: the separator-split value of the
/// search-path variable, or the single fixed fallback when it is unset.
pub fn data_dirs(xdg: Option<&str>) -> (dirs: Vec<String>)
    ensures
        xdg is Some ==> views(dirs@) == split_on(xdg->0@, ':'),
        xdg is None ==> views(dirs@) == seq!["/usr/share"@],
{
    match xdg {
        Some(s) => split_list(s, ':'),
        None => {
            let mut dirs: Vec<String> = Vec::new();
            dirs.push(String::from_str("/usr/share"));
            proof {
                assert(views(dirs@) =~= seq!["/usr/share"@]);
            }
            dirs
        },
    }
}

/// The `applications` subdirectory of a base directory: a path separator is
/// added unless the base is empty or already ends with one.
pub open spec fn app_subdir(base: Seq<char>) -> Seq<char> {
    if base.len() == 0 || base[base.len() - 1] == '/' {
        base + "applications"@
    } else {
        base + "/applications"@
    }
}

/// The path of the `applications` subdirectory under `base`.
pub fn applications_dir(base: &str) -> (r: String)
    ensures
        r@ == app_subdir(base@),
{
    let n: usize = base.unicode_len();
    let mut out: String = String::from_str(base);
    if n == 0 || base.get_char(n - 1) == '/' {
        out.append("applications");
    } else {
        out.append("/applications");
    }
    out
}

/// A file name with the descriptor extension: it ends in `.desktop` and the
/// suffix is not the whole name, so a bare `.desktop` does not count.
pub open spec fn is_desktop_name(name: Seq<char>) -> bool {
    name.len() > ".desktop"@.len()
        && name.subrange(name.len() - ".desktop"@.len(), name.len() as int) == ".desktop"@
}

/// Whether `name` carries the descriptor extension.
pub fn desktop_name(name: &str) -> (r: bool)
    ensures
        r == is_desktop_name(name@),
{
    proof {
        reveal_strlit(".desktop");
    }
    let n: usize = name.unicode_len();
    if n <= 8 {
        return false;
    }
    matches_at(name, ".desktop", n - 8)
}

/// The names with the descriptor extension, kept in their given order.
pub fn select_desktop_files(names: &Vec<String>) -> (out: Vec<String>)
    ensures
        views(out@) == views(names@).filter(|n: Seq<char>| is_desktop_name(n)),
{
    let ghost all = views(names@);
    let ghost pred = |n: Seq<char>| is_desktop_name(n);
    let mut out: Vec<String> = Vec::new();
    let n: usize = names.len();
    let mut k: usize = 0;
    proof {
        reveal(Seq::filter);
        assert(all.take(0) =~= Seq::<Seq<char>>::empty());
        assert(views(out@) =~= all.take(0).filter(pred));
    }
    while k < n
        invariant
            0 <= k <= n,
            n == names@.len(),
            all == views(names@),
            pred == (|n: Seq<char>| is_desktop_name(n)),
            views(out@) == all.take(k as int).filter(pred),
        decreases n - k,
    {
        let ghost out0 = views(out@);
        let matched = desktop_name(names[k].as_str());
        proof {
            reveal(Seq::filter);
            assert(all.take(k + 1).drop_last() =~= all.take(k as int));
            assert(all.take(k + 1).last() == names@[k as int]@);
            assert(pred(names@[k as int]@) == matched);
        }
        if matched {
            out.push(names[k].clone());
            proof {
                reveal(Seq::filter);
                assert(views(out@) =~= out0.push(names@[k as int]@));
                assert(all.take(k + 1).filter(pred)
                    == all.take(k as int).filter(pred).push(names@[k as int]@));
            }
        } else {
            proof {
                reveal(Seq::filter);
                assert(all.take(k + 1).filter(pred) == all.take(k as int).filter(pred));
            }
        }
        k = k + 1;
    }
    proof {
        assert(all.take(n as int) =~= all);
    }
    out
}

} // verus!
