//! A map from strings to strings, kept as a vector of entries with distinct keys.
//! vstd specifies `HashMap` only for keys that obey its key model, which
//! `String` is not shown to do, so a `HashMap<String, String>` here would
//! carry no provable contents.

use vstd::prelude::*;

verus! {

/// The map that a list of entries stands for: a later entry for a key
/// replaces an earlier one.
pub open spec fn map_of(e: Seq<(String, String)>) -> Map<Seq<char>, Seq<char>>
    decreases e.len(),
{
    if e.len() == 0 {
        Map::empty()
    } else {
        map_of(e.drop_last()).insert(e.last().0@, e.last().1@)
    }
}

pub open spec fn distinct_keys(e: Seq<(String, String)>) -> bool {
    forall|i: int, j: int| 0 <= i < j < e.len() ==> #[trigger] e[i].0@ != #[trigger] e[j].0@
}

proof fn lemma_map_of_dom(e: Seq<(String, String)>, k: Seq<char>)
    ensures
        map_of(e).contains_key(k) <==> exists|i: int| 0 <= i < e.len() && #[trigger] e[i].0@ == k,
    decreases e.len(),
{
    if e.len() > 0 {
        lemma_map_of_dom(e.drop_last(), k);
        if exists|i: int| 0 <= i < e.len() && #[trigger] e[i].0@ == k {
            let i = choose|i: int| 0 <= i < e.len() && #[trigger] e[i].0@ == k;
            if i < e.len() - 1 {
                assert(e.drop_last()[i].0@ == k);
            }
        }
        if exists|i: int| 0 <= i < e.len() - 1 && #[trigger] e.drop_last()[i].0@ == k {
            let i = choose|i: int| 0 <= i < e.len() - 1 && #[trigger] e.drop_last()[i].0@ == k;
            assert(e[i].0@ == k);
        }
    }
}

proof fn lemma_map_of_at(e: Seq<(String, String)>, i: int)
    requires
        distinct_keys(e),
        0 <= i < e.len(),
    ensures
        map_of(e).contains_key(e[i].0@),
        map_of(e)[e[i].0@] == e[i].1@,
    decreases e.len(),
{
    if i < e.len() - 1 {
        lemma_map_of_at(e.drop_last(), i);
    }
}

proof fn lemma_map_of_update(e: Seq<(String, String)>, i: int, x: (String, String))
    requires
        distinct_keys(e),
        0 <= i < e.len(),
        e[i].0@ == x.0@,
    ensures
        map_of(e.update(i, x)) == map_of(e).insert(x.0@, x.1@),
    decreases e.len(),
{
    let u = e.update(i, x);
    if i == e.len() - 1 {
        assert(u.drop_last() == e.drop_last());
        assert(map_of(u) == map_of(e).insert(x.0@, x.1@));
    } else {
        assert(u.drop_last() == e.drop_last().update(i, x));
        lemma_map_of_update(e.drop_last(), i, x);
        assert(e.last().0@ != x.0@);
        assert(map_of(u) == map_of(e).insert(x.0@, x.1@));
    }
}

/// A finite map from strings to strings.
pub struct StringMap {
    entries: Vec<(String, String)>,
}

impl View for StringMap {
    type V = Map<Seq<char>, Seq<char>>;

    closed spec fn view(&self) -> Map<Seq<char>, Seq<char>> {
        map_of(self.entries@)
    }
}

impl StringMap {
    #[verifier::type_invariant]
    spec fn inv(self) -> bool {
        distinct_keys(self.entries@)
    }

    /// The empty map.
    pub fn new() -> (r: StringMap)
        ensures
            r@ == Map::<Seq<char>, Seq<char>>::empty(),
    {
        StringMap { entries: Vec::new() }
    }

    /// Where `k` stands among the entries.
    fn position(&self, k: &String) -> (r: Option<usize>)
        ensures
            match r {
                Some(i) => i < self.entries@.len() && self.entries@[i as int].0@ == k@,
                None => !self@.contains_key(k@),
            },
    {
        let mut i: usize = 0;
        while i < self.entries.len()
            invariant
                i <= self.entries@.len(),
                forall|j: int| 0 <= j < i ==> #[trigger] self.entries@[j].0@ != k@,
            decreases self.entries@.len() - i,
        {
            if self.entries[i].0 == *k {
                return Some(i);
            }
            i = i + 1;
        }
        proof {
            lemma_map_of_dom(self.entries@, k@);
        }
        None
    }

    /// Maps `k` to `v`, replacing what `k` mapped to before.
    pub fn insert(&mut self, k: String, v: String)
        ensures
            final(self)@ == old(self)@.insert(k@, v@),
    {
        let pos = self.position(&k);
        let mut taken = StringMap::new();
        std::mem::swap(self, &mut taken);
        proof {
            use_type_invariant(&taken);
        }
        let mut e = taken.entries;
        assert(map_of(e@) == old(self)@);
        match pos {
            Some(i) => {
                proof {
                    lemma_map_of_update(e@, i as int, (k, v));
                }
                e.set(i, (k, v));
            },
            None => {
                proof {
                    lemma_map_of_dom(e@, k@);
                }
                let ghost e0 = e@;
                e.push((k, v));
                assert(e@.drop_last() == e0);
            },
        }
        *self = StringMap { entries: e };
    }

    /// What `k` maps to, if anything.
    pub fn get(&self, k: &str) -> (r: Option<&String>)
        ensures
            match r {
                Some(v) => self@.contains_key(k@) && self@[k@] == v@,
                None => !self@.contains_key(k@),
            },
    {
        proof {
            use_type_invariant(self);
        }
        let key = k.to_owned();
        match self.position(&key) {
            Some(i) => {
                proof {
                    lemma_map_of_at(self.entries@, i as int);
                }
                Some(&self.entries[i].1)
            },
            None => None,
        }
    }

    /// The entries, each key once.
    pub fn entries(&self) -> (r: &Vec<(String, String)>)
        ensures
            distinct_keys(r@),
            map_of(r@) == self@,
    {
        proof {
            use_type_invariant(self);
        }
        &self.entries
    }

    /// The number of keys.
    pub fn len(&self) -> (r: usize)
        ensures
            r == self@.dom().len(),
    {
        proof {
            use_type_invariant(self);
            lemma_map_of_len(self.entries@);
        }
        self.entries.len()
    }
}

proof fn lemma_map_of_len(e: Seq<(String, String)>)
    requires
        distinct_keys(e),
    ensures
        map_of(e).dom().len() == e.len(),
        map_of(e).dom().finite(),
    decreases e.len(),
{
    if e.len() > 0 {
        lemma_map_of_len(e.drop_last());
        lemma_map_of_dom(e.drop_last(), e.last().0@);
        assert(!map_of(e.drop_last()).contains_key(e.last().0@));
    }
}

} // verus!
