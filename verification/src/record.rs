//! The record extracted from one descriptor file: a mapping from field
//! names to field values, keys distinct and never empty, later insertions
//! overwriting earlier ones.

use vstd::prelude::*;
use crate::text::str_eq;

verus! {

/// Abstract content of a pair list: the map that results from inserting the
/// pairs in order, so a later pair with the same key overwrites an earlier one.
spec fn map_of(ps: Seq<(String, String)>) -> Map<Seq<char>, Seq<char>>
    decreases ps.len(),
{
    if ps.len() == 0 {
        Map::empty()
    } else {
        map_of(ps.drop_last()).insert(ps.last().0@, ps.last().1@)
    }
}

spec fn keys_distinct(ps: Seq<(String, String)>) -> bool {
    forall|a: int, b: int| 0 <= a < b < ps.len() ==> ps[a].0@ != ps[b].0@
}

proof fn lemma_map_of_index(ps: Seq<(String, String)>, i: int)
    requires
        0 <= i < ps.len(),
        keys_distinct(ps),
    ensures
        map_of(ps).contains_key(ps[i].0@),
        map_of(ps)[ps[i].0@] == ps[i].1@,
    decreases ps.len(),
{
    if i < ps.len() - 1 {
        assert(keys_distinct(ps.drop_last()));
        lemma_map_of_index(ps.drop_last(), i);
        assert(ps.drop_last()[i] == ps[i]);
        assert(ps.last().0@ != ps[i].0@);
    }
}

proof fn lemma_map_of_absent(ps: Seq<(String, String)>, k: Seq<char>)
    requires
        forall|i: int| 0 <= i < ps.len() ==> ps[i].0@ != k,
    ensures
        !map_of(ps).contains_key(k),
    decreases ps.len(),
{
    if ps.len() > 0 {
        lemma_map_of_absent(ps.drop_last(), k);
    }
}

proof fn lemma_map_of_update(ps: Seq<(String, String)>, i: int, p: (String, String))
    requires
        0 <= i < ps.len(),
        keys_distinct(ps),
        p.0@ == ps[i].0@,
    ensures
        map_of(ps.update(i, p)) == map_of(ps).insert(p.0@, p.1@),
    decreases ps.len(),
{
    let ps2 = ps.update(i, p);
    if i == ps.len() - 1 {
        assert(ps2.drop_last() =~= ps.drop_last());
        assert(ps2.last() == p);
        assert(map_of(ps.drop_last()).insert(p.0@, p.1@)
            =~= map_of(ps.drop_last()).insert(ps.last().0@, ps.last().1@).insert(p.0@, p.1@));
    } else {
        assert(keys_distinct(ps.drop_last()));
        assert(ps.drop_last()[i] == ps[i]);
        lemma_map_of_update(ps.drop_last(), i, p);
        assert(ps2.drop_last() =~= ps.drop_last().update(i, p));
        assert(ps2.last() == ps.last());
        assert(ps.last().0@ != p.0@);
        assert(map_of(ps.drop_last()).insert(p.0@, p.1@).insert(ps.last().0@, ps.last().1@)
            =~= map_of(ps.drop_last()).insert(ps.last().0@, ps.last().1@).insert(p.0@, p.1@));
    }
}

/// A descriptor record: field names mapped to field values.
#[derive(Debug, PartialEq, Eq)]
pub struct Record {
    pairs: Vec<(String, String)>,
}

impl View for Record {
    type V = Map<Seq<char>, Seq<char>>;

    closed spec fn view(&self) -> Map<Seq<char>, Seq<char>> {
        map_of(self.pairs@)
    }
}

impl Record {
    #[verifier::type_invariant]
    spec fn inv(self) -> bool {
        &&& keys_distinct(self.pairs@)
        &&& forall|i: int| 0 <= i < self.pairs@.len() ==> self.pairs@[i].0@.len() > 0
    }

    /// The empty record.
    pub fn new() -> (r: Record)
        ensures
            r@ == Map::<Seq<char>, Seq<char>>::empty(),
    {
        Record { pairs: Vec::new() }
    }

    /// Map `key` to `value`, overwriting any earlier value for `key`.
    /// Keys are never empty.
    pub fn insert(&mut self, key: String, value: String)
        requires
            key@.len() > 0,
        ensures
            final(self)@ == old(self)@.insert(key@, value@),
    {
        proof {
            use_type_invariant(&*self);
        }
        let ghost ps0 = self.pairs@;
        let mut ps: Vec<(String, String)> = Vec::new();
        core::mem::swap(&mut ps, &mut self.pairs);
        match find_key(&ps, key.as_str()) {
            Some(i) => {
                let _replaced = ps.remove(i);
                ps.insert(i, (key, value));
                proof {
                    assert(ps@ =~= ps0.update(i as int, ps@[i as int]));
                    lemma_map_of_update(ps0, i as int, ps@[i as int]);
                }
            },
            None => {
                ps.push((key, value));
                proof {
                    assert(ps@.drop_last() =~= ps0);
                }
            },
        }
        self.pairs = ps;
    }

    /// The value mapped to `key`, if any.  A record never holds an
    /// empty key.
    pub fn get(&self, key: &str) -> (r: Option<&String>)
        ensures
            self@.contains_key(key@) ==> r is Some && r->0@ == self@[key@],
            !self@.contains_key(key@) ==> r is None,
            !self@.contains_key(Seq::<char>::empty()),
    {
        proof {
            use_type_invariant(&*self);
            lemma_map_of_absent(self.pairs@, Seq::<char>::empty());
        }
        let n: usize = self.pairs.len();
        let mut i: usize = 0;
        while i < n
            invariant
                0 <= i <= n,
                n == self.pairs@.len(),
                keys_distinct(self.pairs@),
                !self@.contains_key(Seq::<char>::empty()),
                forall|k: int| 0 <= k < i ==> self.pairs@[k].0@ != key@,
            decreases n - i,
        {
            if str_eq(self.pairs[i].0.as_str(), key) {
                proof {
                    lemma_map_of_index(self.pairs@, i as int);
                }
                return Some(&self.pairs[i].1);
            }
            i = i + 1;
        }
        proof {
            lemma_map_of_absent(self.pairs@, key@);
        }
        None
    }

    /// Whether the record holds a value for `key`.
    pub fn contains_key(&self, key: &str) -> (r: bool)
        ensures
            r == self@.contains_key(key@),
    {
        self.get(key).is_some()
    }
}

fn find_key(ps: &Vec<(String, String)>, key: &str) -> (r: Option<usize>)
    ensures
        r is Some ==> r->0 < ps@.len() && ps@[r->0 as int].0@ == key@,
        r is None ==> forall|i: int| 0 <= i < ps@.len() ==> ps@[i].0@ != key@,
{
    let n: usize = ps.len();
    let mut i: usize = 0;
    while i < n
        invariant
            0 <= i <= n,
            n == ps@.len(),
            forall|k: int| 0 <= k < i ==> ps@[k].0@ != key@,
        decreases n - i,
    {
        if str_eq(ps[i].0.as_str(), key) {
            return Some(i);
        }
        i = i + 1;
    }
    None
}

} // verus!
