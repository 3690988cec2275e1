//! A lookup index: each key of a sequence of keys, with the positions at
//! which it occurs.
use vstd::prelude::*;

verus! {

/// The positions of `keys` that hold `k`, in increasing order.
pub open spec fn positions_for(keys: Seq<Seq<char>>, k: Seq<char>) -> Seq<usize>
    decreases keys.len(),
{
    if keys.len() == 0 {
        Seq::empty()
    } else {
        let rest = positions_for(keys.drop_last(), k);
        if keys.last() == k {
            rest.push((keys.len() - 1) as usize)
        } else {
            rest
        }
    }
}

/// The index that a sequence of keys determines: each key that occurs, with
/// the positions at which it occurs.
pub open spec fn index_model(keys: Seq<Seq<char>>) -> Map<Seq<char>, Seq<usize>> {
    Map::new(|k: Seq<char>| keys.contains(k), |k: Seq<char>| positions_for(keys, k))
}

/// A key with the positions at which it occurs.
pub struct Bucket {
    pub key: String,
    pub positions: Vec<usize>,
}

/// Buckets with pairwise distinct keys.
pub struct Index {
    pub buckets: Vec<Bucket>,
}

/// Appending a key adds its position to that key's positions and leaves
/// every other key's positions as they were.
pub proof fn lemma_positions_push(keys: Seq<Seq<char>>, x: Seq<char>, k: Seq<char>)
    requires
        keys.len() < usize::MAX,
    ensures
        positions_for(keys.push(x), k) == if x == k {
            positions_for(keys, k).push(keys.len() as usize)
        } else {
            positions_for(keys, k)
        },
{
    assert(keys.push(x).drop_last() =~= keys);
}

/// A key that does not occur has no positions.
pub proof fn lemma_positions_absent(keys: Seq<Seq<char>>, k: Seq<char>)
    requires
        !keys.contains(k),
    ensures
        positions_for(keys, k) == Seq::<usize>::empty(),
    decreases keys.len(),
{
    if keys.len() > 0 {
        assert(!keys.drop_last().contains(k)) by {
            if keys.drop_last().contains(k) {
                let i = choose|i: int| 0 <= i < keys.drop_last().len() && keys.drop_last()[i] == k;
                assert(keys[i] == k);
            }
        }
        lemma_positions_absent(keys.drop_last(), k);
        assert(keys[keys.len() - 1] != k);
    }
}

impl Index {
    /// The keys of the buckets are distinct, and the buckets are exactly the
    /// index that `keys` determines.
    pub open spec fn wf(&self, keys: Seq<Seq<char>>) -> bool {
        &&& keys.len() <= usize::MAX
        &&& forall|i: int, j: int|
            0 <= i < j < self.buckets@.len() ==> self.buckets@[i].key@ != self.buckets@[j].key@
        &&& forall|i: int|
            0 <= i < self.buckets@.len() ==> {
                &&& keys.contains(#[trigger] self.buckets@[i].key@)
                &&& self.buckets@[i].positions@ == positions_for(keys, self.buckets@[i].key@)
            }
        &&& forall|n: int|
            0 <= n < keys.len() ==> exists|i: int|
                0 <= i < self.buckets@.len() && #[trigger] self.buckets@[i].key@ == #[trigger] keys[n]
    }

    /// Each key of a bucket, with that bucket's positions.
    pub open spec fn view(&self) -> Map<Seq<char>, Seq<usize>> {
        Map::new(
            |k: Seq<char>| exists|i: int| 0 <= i < self.buckets@.len() && self.buckets@[i].key@ == k,
            |k: Seq<char>|
                self.buckets@[choose|i: int|
                    0 <= i < self.buckets@.len() && self.buckets@[i].key@ == k].positions@,
        )
    }

    /// A well-formed index is the one its keys determine.
    pub proof fn lemma_view(&self, keys: Seq<Seq<char>>)
        requires
            self.wf(keys),
        ensures
            self@ == index_model(keys),
    {
        assert forall|k: Seq<char>| self@.dom().contains(k) <==> keys.contains(k) by {
            if keys.contains(k) {
                let n = choose|n: int| 0 <= n < keys.len() && keys[n] == k;
                assert(keys[n] == k);
            }
            if self@.dom().contains(k) {
                let i = choose|i: int| 0 <= i < self.buckets@.len() && self.buckets@[i].key@ == k;
                assert(keys.contains(self.buckets@[i].key@));
            }
        }
        assert(self@ =~= index_model(keys));
    }

    pub fn new() -> (r: Index)
        ensures
            r.wf(Seq::empty()),
    {
        Index { buckets: Vec::new() }
    }

    /// The place of the bucket whose key is `key`, if there is one.
    pub fn find(&self, key: &String) -> (r: Option<usize>)
        ensures
            match r {
                Some(i) => i < self.buckets@.len() && self.buckets@[i as int].key@ == key@,
                None => forall|i: int|
                    0 <= i < self.buckets@.len() ==> self.buckets@[i].key@ != key@,
            },
    {
        let mut i: usize = 0;
        while i < self.buckets.len()
            invariant
                i <= self.buckets@.len(),
                forall|j: int| 0 <= j < i ==> self.buckets@[j].key@ != key@,
            decreases self.buckets@.len() - i,
        {
            if self.buckets[i].key == *key {
                return Some(i);
            }
            i = i + 1;
        }
        None
    }

    /// Records that the key `key` occurs at position `pos`, the one after
    /// the last of `keys`.
    pub fn insert(&mut self, key: String, pos: usize, Ghost(keys): Ghost<Seq<Seq<char>>>)
        requires
            old(self).wf(keys),
            pos == keys.len(),
            keys.len() < usize::MAX,
        ensures
            final(self).wf(keys.push(key@)),
    {
        let ghost keys2 = keys.push(key@);
        proof {
            assert forall|k: Seq<char>| keys.contains(k) implies keys2.contains(k) by {
                let n = choose|n: int| 0 <= n < keys.len() && keys[n] == k;
                assert(keys2[n] == k);
            }
            assert(keys2[keys.len() as int] == key@);
        }
        match self.find(&key) {
            Some(i) => {
                let ghost old_buckets = self.buckets@;
                let mut b = self.buckets.remove(i);
                b.positions.push(pos);
                self.buckets.insert(i, b);
                proof {
                    assert(self.buckets@ =~= old_buckets.update(i as int, b));
                    assert forall|j: int| 0 <= j < self.buckets@.len() implies {
                        &&& keys2.contains(#[trigger] self.buckets@[j].key@)
                        &&& self.buckets@[j].positions@ == positions_for(keys2, self.buckets@[j].key@)
                    } by {
                        lemma_positions_push(keys, key@, self.buckets@[j].key@);
                    }
                    assert forall|n: int| 0 <= n < keys2.len() implies exists|j: int|
                        0 <= j < self.buckets@.len() && #[trigger] self.buckets@[j].key@ == #[trigger] keys2[n] by {
                        if n == keys.len() {
                            assert(self.buckets@[i as int].key@ == keys2[n]);
                        } else {
                            assert(keys2[n] == keys[n]);
                            let j = choose|j: int| 0 <= j < old_buckets.len() && #[trigger] old_buckets[j].key@ == keys[n];
                            assert(self.buckets@[j].key@ == keys2[n]);
                        }
                    }
                }
            }
            None => {
                let ghost old_buckets = self.buckets@;
                let mut positions: Vec<usize> = Vec::new();
                positions.push(pos);
                let b = Bucket { key, positions };
                self.buckets.push(b);
                proof {
                    assert(!keys.contains(key@)) by {
                        if keys.contains(key@) {
                            let n = choose|n: int| 0 <= n < keys.len() && keys[n] == key@;
                            let j = choose|j: int| 0 <= j < old_buckets.len() && #[trigger] old_buckets[j].key@ == keys[n];
                        }
                    }
                    lemma_positions_absent(keys, key@);
                    assert forall|j: int| 0 <= j < self.buckets@.len() implies {
                        &&& keys2.contains(#[trigger] self.buckets@[j].key@)
                        &&& self.buckets@[j].positions@ == positions_for(keys2, self.buckets@[j].key@)
                    } by {
                        lemma_positions_push(keys, key@, self.buckets@[j].key@);
                        if j == old_buckets.len() {
                            assert(self.buckets@[j].positions@ =~= Seq::<usize>::empty().push(pos));
                        }
                    }
                    assert forall|n: int| 0 <= n < keys2.len() implies exists|j: int|
                        0 <= j < self.buckets@.len() && #[trigger] self.buckets@[j].key@ == #[trigger] keys2[n] by {
                        if n == keys.len() {
                            assert(self.buckets@[old_buckets.len() as int].key@ == keys2[n]);
                        } else {
                            assert(keys2[n] == keys[n]);
                            let j = choose|j: int| 0 <= j < old_buckets.len() && #[trigger] old_buckets[j].key@ == keys[n];
                            assert(self.buckets@[j].key@ == keys2[n]);
                        }
                    }
                }
            }
        }
    }
}

} // verus!
