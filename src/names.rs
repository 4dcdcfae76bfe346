//! A map from names to addresses, kept as a list of distinct names in the
//! order they were first inserted.

use vstd::prelude::*;

verus! {

/// The map that inserting each pair of `s` in turn builds: a later pair
/// replaces an earlier one of the same name.
pub open spec fn entries_map(s: Seq<(String, u64)>) -> Map<Seq<char>, u64>
    decreases s.len(),
{
    if s.len() == 0 {
        Map::empty()
    } else {
        entries_map(s.drop_last()).insert(s.last().0@, s.last().1)
    }
}

/// No name stands twice in `s`.
pub open spec fn unique_names(s: Seq<(String, u64)>) -> bool {
    forall|i: int, j: int|
        0 <= i < s.len() && 0 <= j < s.len() && i != j ==> s[i].0@ != s[j].0@
}

proof fn lemma_absent(s: Seq<(String, u64)>, k: Seq<char>)
    requires
        forall|i: int| 0 <= i < s.len() ==> s[i].0@ != k,
    ensures
        !entries_map(s).dom().contains(k),
    decreases s.len(),
{
    if s.len() > 0 {
        lemma_absent(s.drop_last(), k);
    }
}

proof fn lemma_lookup(s: Seq<(String, u64)>, i: int)
    requires
        unique_names(s),
        0 <= i < s.len(),
    ensures
        entries_map(s).dom().contains(s[i].0@),
        entries_map(s)[s[i].0@] == s[i].1,
    decreases s.len(),
{
    if i < s.len() - 1 {
        lemma_lookup(s.drop_last(), i);
    }
}

proof fn lemma_update(s: Seq<(String, u64)>, i: int, name: String, v: u64)
    requires
        unique_names(s),
        0 <= i < s.len(),
        s[i].0@ == name@,
    ensures
        entries_map(s.update(i, (name, v))) == entries_map(s).insert(name@, v),
    decreases s.len(),
{
    let u = s.update(i, (name, v));
    if i == s.len() - 1 {
        assert(u.drop_last() == s.drop_last());
        assert(entries_map(u) =~= entries_map(s).insert(name@, v));
    } else {
        assert(u.drop_last() == s.drop_last().update(i, (name, v)));
        lemma_update(s.drop_last(), i, name, v);
        assert(s.last().0@ != name@);
        assert(entries_map(u) =~= entries_map(s).insert(name@, v));
    }
}

/// Names and their addresses, each name once.
pub struct NameMap {
    entries: Vec<(String, u64)>,
}

impl View for NameMap {
    type V = Map<Seq<char>, u64>;

    closed spec fn view(&self) -> Map<Seq<char>, u64> {
        entries_map(self.entries@)
    }
}

impl NameMap {
    #[verifier::type_invariant]
    spec fn inv(self) -> bool {
        unique_names(self.entries@)
    }

    /// An empty map.
    pub fn new() -> (r: NameMap)
        ensures
            r@ == Map::<Seq<char>, u64>::empty(),
    {
        NameMap { entries: Vec::new() }
    }

    /// Where `name` stands in `entries`, if it does.
    fn position(entries: &Vec<(String, u64)>, name: &String) -> (r: Option<usize>)
        ensures
            match r {
                Some(i) => i < entries@.len() && entries@[i as int].0@ == name@,
                None => forall|i: int| 0 <= i < entries@.len() ==> entries@[i].0@ != name@,
            },
    {
        let mut i: usize = 0;
        while i < entries.len()
            invariant
                i <= entries@.len(),
                forall|j: int| 0 <= j < i ==> entries@[j].0@ != name@,
            decreases entries@.len() - i,
        {
            if entries[i].0 == *name {
                return Some(i);
            }
            i = i + 1;
        }
        None
    }

    /// The pairs, each name once, in the order the names first came.
    pub fn entries(&self) -> (r: &Vec<(String, u64)>)
        ensures
            entries_map(r@) == self@,
            unique_names(r@),
    {
        proof {
            use_type_invariant(self);
        }
        &self.entries
    }

    /// Whether the map is empty.
    pub fn is_empty(&self) -> (r: bool)
        ensures
            r == (self@.dom() == Set::<Seq<char>>::empty()),
    {
        proof {
            use_type_invariant(self);
            if self.entries@.len() > 0 {
                lemma_lookup(self.entries@, 0);
                assert(self@.dom().contains(self.entries@[0].0@));
            } else {
                assert(self@.dom() =~= Set::<Seq<char>>::empty());
            }
        }
        self.entries.len() == 0
    }

    /// The address of `name`, if it has one.
    pub fn get(&self, name: &str) -> (r: Option<u64>)
        ensures
            r == (if self@.dom().contains(name@) {
                Some(self@[name@])
            } else {
                None
            }),
    {
        proof {
            use_type_invariant(self);
        }
        let key = name.to_owned();
        match NameMap::position(&self.entries, &key) {
            Some(i) => {
                proof {
                    lemma_lookup(self.entries@, i as int);
                }
                Some(self.entries[i].1)
            },
            None => {
                proof {
                    lemma_absent(self.entries@, name@);
                }
                None
            },
        }
    }

    /// Moves the pairs out, leaving the map empty.
    fn take_entries(&mut self) -> (r: Vec<(String, u64)>)
        ensures
            r@ == old(self).entries@,
            unique_names(r@),
            final(self)@ == Map::<Seq<char>, u64>::empty(),
    {
        let mut taken = NameMap::new();
        std::mem::swap(self, &mut taken);
        proof {
            use_type_invariant(&taken);
        }
        let NameMap { entries } = taken;
        entries
    }

    /// Maps `name` to `addr`, replacing any address it had.
    pub fn insert(&mut self, name: String, addr: u64)
        ensures
            final(self)@ == old(self)@.insert(name@, addr),
    {
        let mut entries = self.take_entries();
        let ghost before = entries@;
        match NameMap::position(&entries, &name) {
            Some(i) => {
                proof {
                    lemma_update(before, i as int, name, addr);
                }
                entries.set(i, (name, addr));
            },
            None => {
                entries.push((name, addr));
                assert(entries@.drop_last() == before);
            },
        }
        *self = NameMap { entries };
    }

    /// Maps `name` to `addr` unless `name` already has an address.
    pub fn insert_if_absent(&mut self, name: String, addr: u64)
        ensures
            final(self)@ == if old(self)@.dom().contains(name@) {
                old(self)@
            } else {
                old(self)@.insert(name@, addr)
            },
    {
        proof {
            use_type_invariant(&*self);
        }
        let found = NameMap::position(&self.entries, &name);
        match found {
            Some(i) => {
                proof {
                    lemma_lookup(self.entries@, i as int);
                }
            },
            None => {
                proof {
                    lemma_absent(self.entries@, name@);
                }
                self.insert(name, addr);
            },
        }
    }

    /// Adds each pair of `other` whose name this map lacks.
    pub fn absorb_missing(&mut self, other: &NameMap)
        ensures
            final(self)@ == other@.union_prefer_right(old(self)@),
    {
        proof {
            use_type_invariant(other);
        }
        let src = &other.entries;
        let mut i: usize = 0;
        assert(src@.subrange(0, 0) == Seq::<(String, u64)>::empty());
        assert(Map::<Seq<char>, u64>::empty().union_prefer_right(old(self)@) =~= old(self)@);
        while i < src.len()
            invariant
                i <= src@.len(),
                unique_names(src@),
                self@ == entries_map(src@.subrange(0, i as int)).union_prefer_right(old(self)@),
            decreases src@.len() - i,
        {
            let ghost prefix = src@.subrange(0, i as int);
            let ghost next = src@.subrange(0, i + 1);
            let ghost k = src@[i as int].0@;
            proof {
                assert(next.drop_last() == prefix);
                assert forall|j: int| 0 <= j < prefix.len() implies prefix[j].0@ != k by {
                    assert(prefix[j] == src@[j]);
                }
                lemma_absent(prefix, k);
            }
            let name = src[i].0.clone();
            self.insert_if_absent(name, src[i].1);
            proof {
                let m = entries_map(prefix);
                let b = old(self)@;
                assert(entries_map(next) == m.insert(k, src@[i as int].1));
                if b.dom().contains(k) {
                    assert(m.insert(k, src@[i as int].1).union_prefer_right(b) =~= m.union_prefer_right(b));
                } else {
                    assert(m.insert(k, src@[i as int].1).union_prefer_right(b) =~= m.union_prefer_right(
                        b,
                    ).insert(k, src@[i as int].1));
                }
            }
            i = i + 1;
        }
        assert(src@.subrange(0, src@.len() as int) == src@);
    }
}

} // verus!
