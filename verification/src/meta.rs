//! Free-form string key/value metadata, attached at store level and,
//! optionally, per column.

use vstd::prelude::*;
use vstd::string::StringExecFns;
use crate::Error;

verus! {

/// The value stored under `key` in `pairs`: the match closest to the back
/// wins, so that a later insertion overwrites an earlier one.
pub open spec fn pairs_get(pairs: Seq<(Seq<char>, Seq<char>)>, key: Seq<char>) -> Option<Seq<char>>
    decreases pairs.len(),
{
    if pairs.len() == 0 {
        None
    } else if pairs.last().0 == key {
        Some(pairs.last().1)
    } else {
        pairs_get(pairs.drop_last(), key)
    }
}

/// Keys of raw pairs are pairwise distinct.
pub open spec fn pairs_distinct(ps: Seq<(Seq<char>, Seq<char>)>) -> bool {
    forall|i: int, j: int| 0 <= i < j < ps.len() ==> (#[trigger] ps[i]).0 != (#[trigger] ps[j]).0
}

/// A string key/value map, kept as ordered pairs with pairwise-distinct keys.
#[derive(Debug)]
pub struct Metadata {
    entries: Vec<(String, String)>,
}

impl View for Metadata {
    type V = Seq<(Seq<char>, Seq<char>)>;

    closed spec fn view(&self) -> Seq<(Seq<char>, Seq<char>)> {
        self.entries@.map(|i: int, e: (String, String)| (e.0@, e.1@))
    }
}

impl Metadata {
    /// Keys are pairwise distinct.
    pub open spec fn wf(self) -> bool {
        pairs_distinct(self@)
    }

    /// The value stored under `key`, if any.
    pub open spec fn spec_get(self, key: Seq<char>) -> Option<Seq<char>> {
        pairs_get(self@, key)
    }

    /// An empty map.
    pub fn new() -> (r: Metadata)
        ensures
            r@ =~= Seq::<(Seq<char>, Seq<char>)>::empty(),
            r.wf(),
    {
        Metadata { entries: Vec::new() }
    }

    /// The number of keys.
    pub fn len(&self) -> (r: usize)
        ensures
            r == self@.len(),
    {
        self.entries.len()
    }

    pub fn is_empty(&self) -> (r: bool)
        ensures
            r == (self@.len() == 0),
    {
        self.entries.len() == 0
    }

    /// The stored pairs, in order.
    pub fn pairs(&self) -> (r: &Vec<(String, String)>)
        ensures
            r@.map(|i: int, e: (String, String)| (e.0@, e.1@)) == self@,
    {
        &self.entries
    }

    /// Position of `key` among the entries, if present.
    fn find_key(&self, key: &String) -> (r: Option<usize>)
        ensures
            match r {
                Some(i) => i < self@.len() && self@[i as int].0 == key@,
                None => forall|i: int| 0 <= i < self@.len() ==> self@[i].0 != key@,
            },
    {
        let n = self.entries.len();
        let mut i: usize = 0;
        while i < n
            invariant
                n == self@.len(),
                i <= n,
                forall|j: int| 0 <= j < i ==> self@[j].0 != key@,
            decreases n - i,
        {
            if self.entries[i].0.eq(key) {
                return Some(i);
            }
            i += 1;
        }
        None
    }

    /// Look a key up.
    pub fn get(&self, key: &String) -> (r: Option<&String>)
        requires
            self.wf(),
        ensures
            match r {
                Some(v) => self.spec_get(key@) == Some(v@),
                None => self.spec_get(key@) is None,
            },
    {
        let n = self.entries.len();
        proof {
            assert(self@.take(n as int) =~= self@);
        }
        let mut i: usize = n;
        while i > 0
            invariant
                self.wf(),
                n == self@.len(),
                i <= n,
                pairs_get(self@.take(i as int), key@) == pairs_get(self@, key@),
            decreases i,
        {
            i -= 1;
            proof {
                assert(self@.take(i + 1).drop_last() =~= self@.take(i as int));
                assert(self@.take(i + 1).last() == self@[i as int]);
            }
            if self.entries[i].0.eq(key) {
                return Some(&self.entries[i].1);
            }
        }
        proof {
            assert(self@.take(0) =~= Seq::<(Seq<char>, Seq<char>)>::empty());
        }
        None
    }

    /// Insert, overwriting any earlier value under the same key.
    pub fn insert(&mut self, key: String, value: String)
        requires
            old(self).wf(),
        ensures
            final(self).wf(),
            final(self).spec_get(key@) == Some(value@),
            forall|k: Seq<char>| k != key@ ==> final(self).spec_get(k) == old(self).spec_get(k),
            final(self)@.len() <= old(self)@.len() + 1,
    {
        let found = self.find_key(&key);
        match found {
            Some(i) => {
                let ghost removed = self@.remove(i as int);
                self.entries.remove(i);
                proof {
                    assert(self@ =~= removed);
                    lemma_pairs_get_remove(old(self)@, i as int);
                    assert(forall|k: Seq<char>| k != key@ ==>
                        pairs_get(removed, k) == pairs_get(old(self)@, k));
                    assert(forall|j: int| 0 <= j < removed.len() ==> removed[j].0 != key@) by {
                        assert(forall|j: int| 0 <= j < removed.len() ==>
                            removed[j] == if j < i { old(self)@[j] } else { old(self)@[j + 1] });
                    }
                }
                let ghost before_push = self@;
                self.entries.push((key, value));
                proof {
                    assert(self@ =~= before_push.push((key@, value@)));
                    lemma_pairs_get_no_key(before_push, key@);
                }
            },
            None => {
                let ghost before_push = self@;
                self.entries.push((key, value));
                proof {
                    assert(self@ =~= before_push.push((key@, value@)));
                    lemma_pairs_get_no_key(before_push, key@);
                }
            },
        }
    }

    /// Merge `other` in: keys of `other` overwrite keys already present.
    pub fn extend(&mut self, other: &Metadata)
        requires
            old(self).wf(),
        ensures
            final(self).wf(),
            forall|k: Seq<char>| final(self).spec_get(k) == if pairs_get(other@, k) is Some {
                pairs_get(other@, k)
            } else {
                old(self).spec_get(k)
            },
    {
        let n = other.entries.len();
        let mut j: usize = 0;
        while j < n
            invariant
                n == other@.len(),
                j <= n,
                self.wf(),
                forall|k: Seq<char>| self.spec_get(k) == if pairs_get(other@.take(j as int), k) is Some {
                    pairs_get(other@.take(j as int), k)
                } else {
                    old(self).spec_get(k)
                },
            decreases n - j,
        {
            let key = other.entries[j].0.clone();
            let value = other.entries[j].1.clone();
            self.insert(key, value);
            proof {
                assert(other@.take(j + 1).drop_last() =~= other@.take(j as int));
                assert(other@.take(j + 1).last() == other@[j as int]);
            }
            j += 1;
        }
        proof {
            assert(other@.take(n as int) =~= other@);
        }
    }

    /// A copy whose contents equal this map's.
    pub fn duplicate(&self) -> (r: Metadata)
        ensures
            r@ == self@,
    {
        let mut out: Vec<(String, String)> = Vec::new();
        let n = self.entries.len();
        let mut i: usize = 0;
        while i < n
            invariant
                n == self@.len(),
                n == self.entries@.len(),
                i <= n,
                out@.len() == i,
                forall|q: int| 0 <= q < i ==> out@[q] == self.entries@[q],
            decreases n - i,
        {
            let c0 = self.entries[i].0.clone();
            let c1 = self.entries[i].1.clone();
            out.push((c0, c1));
            i += 1;
        }
        let r = Metadata { entries: out };
        proof {
            assert(r@ =~= self@);
        }
        r
    }

    /// Rebuild a map from decoded pairs, rejecting duplicate keys.
    pub fn from_pairs(pairs: Vec<(String, String)>) -> (r: Result<Metadata, Error>)
        ensures
            match r {
                Ok(m) => m@ == pairs@.map(|i: int, e: (String, String)| (e.0@, e.1@)) && m.wf(),
                Err(_) => exists|i: int, j: int|
                    0 <= i < j < pairs@.len() && pairs@[i].0@ == pairs@[j].0@,
            },
    {
        let n = pairs.len();
        let mut i: usize = 0;
        while i < n
            invariant
                n == pairs@.len(),
                i <= n,
                forall|p: int, q: int| 0 <= p < q < i ==> pairs@[p].0@ != pairs@[q].0@,
            decreases n - i,
        {
            let mut j: usize = 0;
            while j < i
                invariant
                    i < n,
                    n == pairs@.len(),
                    j <= i,
                    forall|p: int| 0 <= p < j ==> pairs@[p].0@ != pairs@[i as int].0@,
                decreases i - j,
            {
                if pairs[j].0.eq(&pairs[i].0) {
                    proof {
                        assert((j as int) < (i as int) && (i as int) < pairs@.len()
                            && pairs@[j as int].0@ == pairs@[i as int].0@);
                    }
                    return Err(Error::Other(String::from_str("duplicate metadata key")));
                }
                j += 1;
            }
            i += 1;
        }
        let m = Metadata { entries: pairs };
        Ok(m)
    }
}

/// Removing the unique entry that carries `key` leaves every other key's
/// lookup unchanged.
proof fn lemma_pairs_get_remove(s: Seq<(Seq<char>, Seq<char>)>, i: int)
    requires
        0 <= i < s.len(),
    ensures
        forall|k: Seq<char>| k != s[i].0 ==> pairs_get(s.remove(i), k) == pairs_get(s, k),
    decreases s.len(),
{
    assert forall|k: Seq<char>| k != s[i].0 implies pairs_get(s.remove(i), k) == pairs_get(s, k) by {
        if i == s.len() - 1 {
            assert(s.remove(i) =~= s.drop_last());
        } else {
            assert(s.remove(i).last() == s.last());
            assert(s.remove(i).drop_last() =~= s.drop_last().remove(i));
            if s.last().0 != k {
                lemma_pairs_get_remove(s.drop_last(), i);
            }
        }
    }
}

/// Pushing a fresh pair changes only that key's lookup.
proof fn lemma_pairs_get_no_key(s: Seq<(Seq<char>, Seq<char>)>, key: Seq<char>)
    ensures
        forall|v: Seq<char>, k: Seq<char>| #![trigger pairs_get(s.push((key, v)), k)]
            pairs_get(s.push((key, v)), k) == if k == key {
                Some(v)
            } else {
                pairs_get(s, k)
            },
{
    assert forall|v: Seq<char>, k: Seq<char>| #![trigger pairs_get(s.push((key, v)), k)]
        pairs_get(s.push((key, v)), k) == if k == key {
            Some(v)
        } else {
            pairs_get(s, k)
        } by {
        assert(s.push((key, v)).last() == (key, v));
        assert(s.push((key, v)).drop_last() =~= s);
    }
}

} // verus!
