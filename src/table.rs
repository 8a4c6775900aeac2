//! A map from text keys to values, kept as a list of pairs with distinct keys.
use vstd::prelude::*;

verus! {

pub open spec fn keys_unique<T>(s: Seq<(String, T)>) -> bool {
    forall|i: int, j: int|
        0 <= i < s.len() && 0 <= j < s.len() && i != j ==> #[trigger] s[i].0@ != #[trigger] s[j].0@
}

pub open spec fn has_key<T>(s: Seq<(String, T)>, k: Seq<char>) -> bool {
    exists|i: int| 0 <= i < s.len() && #[trigger] s[i].0@ == k
}

pub open spec fn index_of<T>(s: Seq<(String, T)>, k: Seq<char>) -> int {
    choose|i: int| 0 <= i < s.len() && #[trigger] s[i].0@ == k
}

pub open spec fn table_map<T>(s: Seq<(String, T)>) -> Map<Seq<char>, T> {
    Map::new(|k: Seq<char>| has_key(s, k), |k: Seq<char>| s[index_of(s, k)].1)
}

/// A map from text keys to values.
pub struct Table<T> {
    items: Vec<(String, T)>,
}

impl<T> View for Table<T> {
    type V = Map<Seq<char>, T>;

    closed spec fn view(&self) -> Map<Seq<char>, T> {
        table_map(self.items@)
    }
}

proof fn lemma_lookup<T>(s: Seq<(String, T)>, i: int)
    requires
        keys_unique(s),
        0 <= i < s.len(),
    ensures
        table_map(s).contains_key(s[i].0@),
        table_map(s)[s[i].0@] == s[i].1,
{
    let k = s[i].0@;
    assert(has_key(s, k));
    let j = index_of(s, k);
    assert(s[j].0@ == k);
}

proof fn lemma_push<T>(s: Seq<(String, T)>, key: String, v: T)
    requires
        keys_unique(s),
        !has_key(s, key@),
    ensures
        keys_unique(s.push((key, v))),
        table_map(s.push((key, v))) == table_map(s).insert(key@, v),
{
    let t = s.push((key, v));
    assert forall|i: int, j: int|
        0 <= i < t.len() && 0 <= j < t.len() && i != j implies #[trigger] t[i].0@ != #[trigger] t[j].0@ by {
        if i < s.len() && j < s.len() {
            assert(t[i] == s[i] && t[j] == s[j]);
        } else if i < s.len() {
            assert(t[i] == s[i]);
        } else {
            assert(t[j] == s[j]);
        }
    }
    assert forall|k: Seq<char>| #[trigger] has_key(t, k) == (has_key(s, k) || k == key@) by {
        if has_key(s, k) {
            let i = choose|i: int| 0 <= i < s.len() && #[trigger] s[i].0@ == k;
            assert(t[i] == s[i]);
        }
        if k == key@ {
            assert(t[s.len() as int].0@ == k);
        }
        if has_key(t, k) {
            let i = choose|i: int| 0 <= i < t.len() && #[trigger] t[i].0@ == k;
            if i < s.len() {
                assert(t[i] == s[i]);
            }
        }
    }
    assert forall|k: Seq<char>| #[trigger] has_key(t, k) implies table_map(t)[k] == table_map(
        s,
    ).insert(key@, v)[k] by {
        let i = index_of(t, k);
        assert(t[i].0@ == k);
        if k == key@ {
            assert(t[s.len() as int].0@ == k);
        } else {
            assert(i < s.len());
            assert(t[i] == s[i]);
            lemma_lookup(s, i);
        }
    }
    assert(table_map(t) =~= table_map(s).insert(key@, v));
}

proof fn lemma_remove<T>(s: Seq<(String, T)>, i: int)
    requires
        keys_unique(s),
        0 <= i < s.len(),
    ensures
        keys_unique(s.remove(i)),
        table_map(s.remove(i)) == table_map(s).remove(s[i].0@),
{
    let t = s.remove(i);
    let key = s[i].0@;
    assert forall|a: int| 0 <= a < t.len() implies #[trigger] t[a] == s[if a < i {
        a
    } else {
        a + 1
    }] by {}
    assert forall|a: int, b: int|
        0 <= a < t.len() && 0 <= b < t.len() && a != b implies #[trigger] t[a].0@ != #[trigger] t[b].0@ by {
        let a1 = if a < i {
            a
        } else {
            a + 1
        };
        let b1 = if b < i {
            b
        } else {
            b + 1
        };
        assert(t[a] == s[a1] && t[b] == s[b1]);
    }
    assert forall|k: Seq<char>| #[trigger] has_key(t, k) == (has_key(s, k) && k != key) by {
        if has_key(t, k) {
            let a = choose|a: int| 0 <= a < t.len() && #[trigger] t[a].0@ == k;
            let a1 = if a < i {
                a
            } else {
                a + 1
            };
            assert(t[a] == s[a1]);
        }
        if has_key(s, k) && k != key {
            let a1 = choose|a: int| 0 <= a < s.len() && #[trigger] s[a].0@ == k;
            let a = if a1 < i {
                a1
            } else {
                a1 - 1
            };
            assert(t[a] == s[a1]);
        }
    }
    assert forall|k: Seq<char>| #[trigger] has_key(t, k) implies table_map(t)[k] == table_map(
        s,
    )[k] by {
        let a = index_of(t, k);
        assert(t[a].0@ == k);
        let a1 = if a < i {
            a
        } else {
            a + 1
        };
        assert(t[a] == s[a1]);
        lemma_lookup(s, a1);
    }
    assert(table_map(t) =~= table_map(s).remove(key));
}

impl<T> Table<T> {
    #[verifier::type_invariant]
    spec fn unique(self) -> bool {
        keys_unique(self.items@)
    }

    pub fn new() -> (r: Self)
        ensures
            r@ == Map::<Seq<char>, T>::empty(),
    {
        let r = Table { items: Vec::new() };
        assert(table_map(r.items@) =~= Map::<Seq<char>, T>::empty());
        r
    }

    fn find(&self, key: &String) -> (r: Option<usize>)
        ensures
            r matches Some(i) ==> i < self.items@.len() && self.items@[i as int].0@ == key@
                && self@.contains_key(key@) && self@[key@] == self.items@[i as int].1,
            r is None ==> !self@.contains_key(key@),
    {
        proof {
            use_type_invariant(self);
        }
        let mut i: usize = 0;
        while i < self.items.len()
            invariant
                keys_unique(self.items@),
                i <= self.items@.len(),
                forall|j: int| 0 <= j < i ==> #[trigger] self.items@[j].0@ != key@,
            decreases self.items@.len() - i,
        {
            if self.items[i].0 == *key {
                proof {
                    lemma_lookup(self.items@, i as int);
                }
                return Some(i);
            }
            i = i + 1;
        }
        None
    }

    pub fn get(&self, key: &String) -> (r: Option<&T>)
        ensures
            r matches Some(v) ==> self@.contains_key(key@) && *v == self@[key@],
            r is None ==> !self@.contains_key(key@),
    {
        match self.find(key) {
            Some(i) => Some(&self.items[i].1),
            None => None,
        }
    }

    pub fn remove(&mut self, key: &String) -> (r: Option<T>)
        ensures
            final(self)@ == old(self)@.remove(key@),
            r == if old(self)@.contains_key(key@) {
                Some(old(self)@[key@])
            } else {
                None::<T>
            },
    {
        proof {
            use_type_invariant(&*self);
        }
        match self.find(key) {
            Some(i) => {
                proof {
                    lemma_remove(self.items@, i as int);
                }
                let mut items: Vec<(String, T)> = Vec::new();
                std::mem::swap(&mut self.items, &mut items);
                let (_, v) = items.remove(i);
                std::mem::swap(&mut self.items, &mut items);
                Some(v)
            },
            None => {
                assert(old(self)@.remove(key@) =~= old(self)@);
                None
            },
        }
    }

    pub fn insert(&mut self, key: String, value: T)
        ensures
            final(self)@ == old(self)@.insert(key@, value),
    {
        let _ = self.remove(&key);
        proof {
            use_type_invariant(&*self);
        }
        proof {
            assert(!self@.contains_key(key@));
            assert(!table_map(self.items@).contains_key(key@));
            assert(!has_key(self.items@, key@));
            lemma_push(self.items@, key, value);
        }
        let mut items: Vec<(String, T)> = Vec::new();
        std::mem::swap(&mut self.items, &mut items);
        items.push((key, value));
        std::mem::swap(&mut self.items, &mut items);
        assert(old(self)@.remove(key@).insert(key@, value) =~= old(self)@.insert(key@, value));
    }
}

} // verus!
