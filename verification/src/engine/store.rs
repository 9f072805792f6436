//! A plain in-memory engine: an association list with pairwise distinct
//! keys, for tests and as the simplest model of the trait.

use super::Engine;
use crate::error::Error;
use vstd::prelude::*;

verus! {

/// An in-memory key-value engine.
pub struct Store {
    map: Vec<(String, String)>,
}

/// The mapping an association list denotes; a later pair wins.
pub open spec fn map_of(ps: Seq<(String, String)>) -> Map<Seq<char>, Seq<char>>
    decreases ps.len(),
{
    if ps.len() == 0 {
        Map::empty()
    } else {
        map_of(ps.drop_last()).insert(ps.last().0@, ps.last().1@)
    }
}

/// With pairwise distinct keys, the list and the mapping agree row by row.
proof fn lemma_map_of(ps: Seq<(String, String)>)
    requires
        forall|i: int, j: int| 0 <= i < j < ps.len() ==> ps[i].0@ != ps[j].0@,
    ensures
        forall|i: int|
            0 <= i < ps.len() ==> map_of(ps).dom().contains((#[trigger] ps[i]).0@) && map_of(ps)[ps[i].0@] == ps[i].1@,
        forall|k: Seq<char>|
            map_of(ps).dom().contains(k) ==> exists|i: int|
                0 <= i < ps.len() && (#[trigger] ps[i].0@) == k,
    decreases ps.len(),
{
    if ps.len() > 0 {
        lemma_map_of(ps.drop_last());
        assert forall|i: int|
            0 <= i < ps.len() implies map_of(ps).dom().contains((#[trigger] ps[i]).0@)
            && map_of(ps)[ps[i].0@] == ps[i].1@ by {
            if i < ps.len() - 1 {
                assert(ps.drop_last()[i] == ps[i]);
                assert(ps[i].0@ != ps[ps.len() - 1].0@);
            }
        }
        assert forall|k: Seq<char>| map_of(ps).dom().contains(k) implies exists|i: int|
            0 <= i < ps.len() && (#[trigger] ps[i].0@) == k by {
            if k == ps.last().0@ {
                assert(ps[ps.len() - 1].0@ == k);
            } else {
                assert(map_of(ps.drop_last()).dom().contains(k));
                let i = choose|i: int|
                    0 <= i < ps.drop_last().len() && (#[trigger] ps.drop_last()[i].0@) == k;
                assert(ps.drop_last()[i] == ps[i]);
                assert(ps[i].0@ == k);
            }
        }
    }
}

impl Store {
    /// A new, empty engine.
    pub fn new() -> (r: Store)
        ensures
            r.inv(),
            r.model() == Map::<Seq<char>, Seq<char>>::empty(),
    {
        Store { map: Vec::new() }
    }

    /// The row of `key`, if any.
    fn find(&self, key: &String) -> (r: Option<usize>)
        ensures
            match r {
                Some(i) => i < self.map@.len() && self.map@[i as int].0@ == key@,
                None => forall|i: int|
                    0 <= i < self.map@.len() ==> (#[trigger] self.map@[i].0@) != key@,
            },
    {
        let mut i: usize = 0;
        while i < self.map.len()
            invariant
                i <= self.map@.len(),
                forall|j: int| 0 <= j < i ==> (#[trigger] self.map@[j].0@) != key@,
            decreases self.map@.len() - i,
        {
            if self.map[i].0 == *key {
                return Some(i);
            }
            i = i + 1;
        }
        None
    }
}

impl Engine for Store {
    closed spec fn model(&self) -> Map<Seq<char>, Seq<char>> {
        map_of(self.map@)
    }

    closed spec fn inv(&self) -> bool {
        forall|i: int, j: int| 0 <= i < j < self.map@.len() ==> self.map@[i].0@ != self.map@[j].0@
    }

    fn get(&self, key: &String) -> (r: Result<Option<String>, Error>)
    {
        proof {
            lemma_map_of(self.map@);
        }
        match self.find(key) {
            Some(i) => {
                proof {
                    if !self.model().dom().contains(key@) {
                        assert(self.map@[i as int].0@ == key@);
                    }
                }
                Ok(Some(self.map[i].1.clone()))
            },
            None => {
                proof {
                    if self.model().dom().contains(key@) {
                        let i = choose|i: int|
                            0 <= i < self.map@.len() && (#[trigger] self.map@[i].0@) == key@;
                        assert(self.map@[i].0@ == key@);
                    }
                }
                Ok(None)
            },
        }
    }

    fn set(&mut self, key: &String, val: &String) -> (r: Result<(), Error>)
    {
        let ghost old_ps = self.map@;
        proof {
            lemma_map_of(old_ps);
        }
        match self.find(key) {
            Some(i) => {
                self.map[i] = (key.clone(), val.clone());
                proof {
                    let ps = self.map@;
                    self.lemma_set_at(old_ps, i as int, key@, val@);
                }
            },
            None => {
                self.map.push((key.clone(), val.clone()));
                proof {
                    assert(self.map@.drop_last() =~= old_ps);
                }
            },
        }
        Ok(())
    }

    fn del(&mut self, key: &String) -> (r: Result<(), Error>)
    {
        let ghost old_ps = self.map@;
        match self.find(key) {
            Some(i) => {
                let _ = self.map.remove(i);
                proof {
                    lemma_del_at(old_ps, i as int, key@);
                    old_ps.remove_ensures(i as int);
                    assert forall|a: int, b: int|
                        0 <= a < b < self.map@.len() implies self.map@[a].0@ != self.map@[b].0@ by {
                        let a0 = if a < i as int {
                            a
                        } else {
                            a + 1
                        };
                        let b0 = if b < i as int {
                            b
                        } else {
                            b + 1
                        };
                        assert(self.map@[a] == old_ps[a0] && self.map@[b] == old_ps[b0]);
                    }
                }
            },
            None => {
                proof {
                    lemma_map_of(old_ps);
                    if self.model().dom().contains(key@) {
                        let i = choose|i: int|
                            0 <= i < old_ps.len() && (#[trigger] old_ps[i].0@) == key@;
                        assert(old_ps[i].0@ == key@);
                    }
                    assert(map_of(old_ps).remove(key@) =~= map_of(old_ps));
                }
            },
        }
        Ok(())
    }
}

impl Store {
    /// Replacing the one row of a key rewrites that key's binding.
    proof fn lemma_set_at(self, old_ps: Seq<(String, String)>, i: int, k: Seq<char>, v: Seq<char>)
        requires
            forall|a: int, b: int| 0 <= a < b < old_ps.len() ==> old_ps[a].0@ != old_ps[b].0@,
            0 <= i < old_ps.len(),
            old_ps[i].0@ == k,
            self.map@.len() == old_ps.len(),
            self.map@[i].0@ == k,
            self.map@[i].1@ == v,
            forall|a: int| 0 <= a < old_ps.len() && a != i ==> self.map@[a] == old_ps[a],
        ensures
            self.inv(),
            map_of(self.map@) == map_of(old_ps).insert(k, v),
    {
        let ps = self.map@;
        assert forall|a: int, b: int| 0 <= a < b < ps.len() implies ps[a].0@ != ps[b].0@ by {
            assert(ps[a].0@ == old_ps[a].0@ && ps[b].0@ == old_ps[b].0@);
        }
        lemma_map_of(old_ps);
        lemma_map_of(ps);
        assert forall|kk: Seq<char>|
            map_of(ps).dom().contains(kk) <==> map_of(old_ps).insert(k, v).dom().contains(kk) by {
            if map_of(ps).dom().contains(kk) {
                let a = choose|a: int| 0 <= a < ps.len() && (#[trigger] ps[a].0@) == kk;
                if a != i {
                    assert(old_ps[a].0@ == kk);
                }
            }
            if map_of(old_ps).insert(k, v).dom().contains(kk) && kk != k {
                let a = choose|a: int| 0 <= a < old_ps.len() && (#[trigger] old_ps[a].0@) == kk;
                assert(a != i);
                assert(ps[a].0@ == kk);
            }
        }
        assert forall|kk: Seq<char>| map_of(ps).dom().contains(kk) implies map_of(ps)[kk]
            == map_of(old_ps).insert(k, v)[kk] by {
            let a = choose|a: int| 0 <= a < ps.len() && (#[trigger] ps[a].0@) == kk;
            if a == i {
            } else {
                assert(old_ps[a].0@ == kk && old_ps[a].1@ == ps[a].1@);
            }
        }
        assert(map_of(ps) =~= map_of(old_ps).insert(k, v));
    }
}

/// Dropping the one row of a key drops that key's binding.
proof fn lemma_del_at(old_ps: Seq<(String, String)>, i: int, k: Seq<char>)
    requires
        forall|a: int, b: int| 0 <= a < b < old_ps.len() ==> old_ps[a].0@ != old_ps[b].0@,
        0 <= i < old_ps.len(),
        old_ps[i].0@ == k,
    ensures
        map_of(old_ps.remove(i)) == map_of(old_ps).remove(k),
{
    let ps = old_ps.remove(i);
    old_ps.remove_ensures(i);
    lemma_map_of(old_ps);
    assert forall|a: int, b: int| 0 <= a < b < ps.len() implies ps[a].0@ != ps[b].0@ by {
        let a0 = if a < i {
            a
        } else {
            a + 1
        };
        let b0 = if b < i {
            b
        } else {
            b + 1
        };
        assert(ps[a] == old_ps[a0] && ps[b] == old_ps[b0]);
    }
    lemma_map_of(ps);
    assert forall|kk: Seq<char>|
        map_of(ps).dom().contains(kk) <==> map_of(old_ps).remove(k).dom().contains(kk) by {
        if map_of(ps).dom().contains(kk) {
            let a = choose|a: int| 0 <= a < ps.len() && (#[trigger] ps[a].0@) == kk;
            let a0 = if a < i {
                a
            } else {
                a + 1
            };
            assert(old_ps[a0].0@ == kk);
            assert(a0 != i ==> kk != k) by {
                if a0 < i {
                    assert(old_ps[a0].0@ != old_ps[i].0@);
                } else if a0 > i {
                    assert(old_ps[i].0@ != old_ps[a0].0@);
                }
            }
        }
        if map_of(old_ps).remove(k).dom().contains(kk) {
            let a = choose|a: int| 0 <= a < old_ps.len() && (#[trigger] old_ps[a].0@) == kk;
            assert(a != i);
            if a < i {
                assert(ps[a].0@ == kk);
            } else {
                assert(ps[a - 1].0@ == kk);
            }
        }
    }
    assert forall|kk: Seq<char>| map_of(ps).dom().contains(kk) implies map_of(ps)[kk] == map_of(old_ps).remove(k)[kk] by {
        let a = choose|a: int| 0 <= a < ps.len() && (#[trigger] ps[a].0@) == kk;
        let a0 = if a < i {
            a
        } else {
            a + 1
        };
        assert(ps[a] == old_ps[a0]);
    }
    assert(map_of(ps) =~= map_of(old_ps).remove(k));
}

} // verus!
