//! Best-fit index of data pages by the bytes they have left.
use vstd::prelude::*;

verus! {

/// `key` is the smallest key at least `need` whose bucket is not empty.
pub open spec fn best_fit_key(m: FreeBucketMap, need: int, key: u32) -> bool {
    &&& key >= need
    &&& m.bucket(key).len() > 0
    &&& forall|k: u32| k >= need && #[trigger] m.bucket(k).len() > 0 ==> key <= k
}

/// `after` is `before` with the last id of bucket `key` taken out.
pub open spec fn taken_from(after: FreeBucketMap, before: FreeBucketMap, key: u32) -> bool {
    &&& after.bucket(key) == before.bucket(key).drop_last()
    &&& forall|k: u32| k != key ==> #[trigger] after.bucket(k) == before.bucket(k)
}

/// Buckets of page ids, one per amount of free bytes; ids in a bucket are
/// kept in the order they were returned.
pub struct FreeBucketMap {
    buckets: Vec<(u32, Vec<u32>)>,
}

impl FreeBucketMap {
    /// Keys are distinct and no bucket is empty.
    pub closed spec fn wf(&self) -> bool {
        &&& forall|i: int, j: int|
            0 <= i < j < self.buckets@.len() ==> (#[trigger] self.buckets@[i]).0
                != (#[trigger] self.buckets@[j]).0
        &&& forall|i: int|
            0 <= i < self.buckets@.len() ==> (#[trigger] self.buckets@[i]).1@.len() > 0
    }

    /// The page ids filed under `key`, oldest first; empty when none are.
    pub closed spec fn bucket(&self, key: u32) -> Seq<u32> {
        if exists|i: int| 0 <= i < self.buckets@.len() && (#[trigger] self.buckets@[i]).0 == key {
            let i = choose|i: int| 0 <= i < self.buckets@.len() && (#[trigger] self.buckets@[i]).0 == key;
            self.buckets@[i].1@
        } else {
            Seq::empty()
        }
    }

    proof fn lemma_bucket_at(&self, i: int)
        requires
            self.wf(),
            0 <= i < self.buckets@.len(),
        ensures
            self.bucket(self.buckets@[i].0) == self.buckets@[i].1@,
    {
        let key = self.buckets@[i].0;
        let k = choose|k: int| 0 <= k < self.buckets@.len() && (#[trigger] self.buckets@[k]).0 == key;
        assert(self.buckets@[k].0 == key);
        if k != i {
            if k < i {
                assert(self.buckets@[k].0 != self.buckets@[i].0);
            } else {
                assert(self.buckets@[i].0 != self.buckets@[k].0);
            }
        }
    }

    proof fn lemma_bucket_absent(&self, key: u32)
        requires
            forall|i: int| 0 <= i < self.buckets@.len() ==> (#[trigger] self.buckets@[i]).0 != key,
        ensures
            self.bucket(key) == Seq::<u32>::empty(),
    {
    }

    pub fn new() -> (r: FreeBucketMap)
        ensures
            r.wf(),
            forall|key: u32| #[trigger] r.bucket(key) == Seq::<u32>::empty(),
    {
        FreeBucketMap { buckets: Vec::new() }
    }

    fn find(&self, key: u32) -> (r: Option<usize>)
        requires
            self.wf(),
        ensures
            match r {
                Some(i) => i < self.buckets@.len() && self.buckets@[i as int].0 == key,
                None => forall|i: int|
                    0 <= i < self.buckets@.len() ==> (#[trigger] self.buckets@[i]).0 != key,
            },
    {
        let mut i: usize = 0;
        while i < self.buckets.len()
            invariant
                i <= self.buckets@.len(),
                forall|j: int| 0 <= j < i ==> (#[trigger] self.buckets@[j]).0 != key,
            decreases self.buckets@.len() - i,
        {
            if self.buckets[i].0 == key {
                return Some(i);
            }
            i = i + 1;
        }
        None
    }

    /// Files `pid` last in the bucket of `key`.
    pub fn insert(&mut self, key: u32, pid: u32)
        requires
            old(self).wf(),
        ensures
            final(self).wf(),
            final(self).bucket(key) == old(self).bucket(key).push(pid),
            forall|k: u32| k != key ==> #[trigger] final(self).bucket(k) == old(self).bucket(k),
    {
        let ghost before = *self;
        match self.find(key) {
            Some(i) => {
                proof { before.lemma_bucket_at(i as int); }
                let mut entry = (0u32, Vec::new());
                std::mem::swap(&mut entry, &mut self.buckets[i]);
                entry.1.push(pid);
                self.buckets.set(i, entry);
                proof {
                    assert(self.wf());
                    self.lemma_bucket_at(i as int);
                    assert forall|k: u32| k != key implies #[trigger] self.bucket(k) == before.bucket(k) by {
                        if exists|j: int| 0 <= j < before.buckets@.len() && (#[trigger] before.buckets@[j]).0 == k {
                            let j = choose|j: int| 0 <= j < before.buckets@.len() && (#[trigger] before.buckets@[j]).0 == k;
                            before.lemma_bucket_at(j);
                            self.lemma_bucket_at(j);
                        } else {
                            self.lemma_bucket_absent(k);
                        }
                    }
                }
            },
            None => {
                proof { before.lemma_bucket_absent(key); }
                let mut v: Vec<u32> = Vec::new();
                v.push(pid);
                self.buckets.push((key, v));
                proof {
                    assert(self.buckets@[self.buckets@.len() - 1].1@ =~= seq![pid]);
                    assert(self.wf());
                    self.lemma_bucket_at(self.buckets@.len() - 1);
                    assert(seq![pid] =~= Seq::<u32>::empty().push(pid));
                    assert forall|k: u32| k != key implies #[trigger] self.bucket(k) == before.bucket(k) by {
                        if exists|j: int| 0 <= j < before.buckets@.len() && (#[trigger] before.buckets@[j]).0 == k {
                            let j = choose|j: int| 0 <= j < before.buckets@.len() && (#[trigger] before.buckets@[j]).0 == k;
                            before.lemma_bucket_at(j);
                            self.lemma_bucket_at(j);
                        } else {
                            self.lemma_bucket_absent(k);
                        }
                    }
                }
            },
        }
    }

    /// Takes the last page id of the smallest bucket whose key is at least
    /// `need`, with that key.
    pub fn take_best_fit(&mut self, need: u32) -> (r: Option<(u32, u32)>)
        requires
            old(self).wf(),
        ensures
            final(self).wf(),
            match r {
                Some((key, pid)) => {
                    &&& key >= need
                    &&& old(self).bucket(key).len() > 0
                    &&& pid == old(self).bucket(key).last()
                    &&& final(self).bucket(key) == old(self).bucket(key).drop_last()
                    &&& forall|k: u32|
                        k >= need && #[trigger] old(self).bucket(k).len() > 0 ==> key <= k
                    &&& forall|k: u32| k != key ==> #[trigger] final(self).bucket(k) == old(self).bucket(k)
                },
                None => {
                    &&& forall|k: u32| k >= need ==> #[trigger] old(self).bucket(k).len() == 0
                    &&& *final(self) == *old(self)
                },
            },
    {
        let ghost before = *self;
        let mut best: Option<usize> = None;
        let mut i: usize = 0;
        while i < self.buckets.len()
            invariant
                *self == before,
                self.wf(),
                i <= self.buckets@.len(),
                match best {
                    Some(b) => b < i && self.buckets@[b as int].0 >= need && forall|j: int|
                        0 <= j < i && (#[trigger] self.buckets@[j]).0 >= need ==> self.buckets@[b as int].0
                            <= self.buckets@[j].0,
                    None => forall|j: int| 0 <= j < i ==> (#[trigger] self.buckets@[j]).0 < need,
                },
            decreases self.buckets@.len() - i,
        {
            let k = self.buckets[i].0;
            if k >= need {
                match best {
                    Some(b) => {
                        if k < self.buckets[b].0 {
                            best = Some(i);
                        }
                    },
                    None => {
                        best = Some(i);
                    },
                }
            }
            i = i + 1;
        }
        match best {
            None => {
                proof {
                    assert forall|k: u32| k >= need implies #[trigger] before.bucket(k).len() == 0 by {
                        before.lemma_bucket_absent(k);
                    }
                }
                None
            },
            Some(b) => {
                proof { before.lemma_bucket_at(b as int); }
                let key = self.buckets[b].0;
                let mut entry = (0u32, Vec::new());
                std::mem::swap(&mut entry, &mut self.buckets[b]);
                let pid = match entry.1.pop() {
                    Some(p) => p,
                    None => 0,
                };
                let ghost rest = entry.1@;
                assert(rest == before.buckets@[b as int].1@.drop_last());
                if entry.1.len() == 0 {
                    self.buckets.remove(b);
                    proof {
                        assert forall|i: int, j: int|
                            0 <= i < j < self.buckets@.len() implies (#[trigger] self.buckets@[i]).0
                                != (#[trigger] self.buckets@[j]).0 by {
                            let oi = if i < b { i } else { i + 1 };
                            let oj = if j < b { j } else { j + 1 };
                            assert(self.buckets@[i] == before.buckets@[oi]);
                            assert(self.buckets@[j] == before.buckets@[oj]);
                        }
                        assert forall|i: int| 0 <= i < self.buckets@.len() implies (#[trigger] self.buckets@[i]).1@.len() > 0 by {
                            let oi = if i < b { i } else { i + 1 };
                            assert(self.buckets@[i] == before.buckets@[oi]);
                        }
                        assert forall|k: u32| #[trigger] self.bucket(k) == (if k == key { rest } else { before.bucket(k) }) by {
                            if exists|j: int| 0 <= j < self.buckets@.len() && (#[trigger] self.buckets@[j]).0 == k {
                                let j = choose|j: int| 0 <= j < self.buckets@.len() && (#[trigger] self.buckets@[j]).0 == k;
                                let oj = if j < b { j } else { j + 1 };
                                assert(self.buckets@[j] == before.buckets@[oj]);
                                self.lemma_bucket_at(j);
                                before.lemma_bucket_at(oj);
                            } else {
                                self.lemma_bucket_absent(k);
                                if k != key {
                                    assert forall|j: int| 0 <= j < before.buckets@.len() implies (#[trigger] before.buckets@[j]).0 != k by {
                                        if j != b {
                                            let nj = if j < b { j } else { j - 1 };
                                            assert(self.buckets@[nj] == before.buckets@[j]);
                                        }
                                    }
                                    before.lemma_bucket_absent(k);
                                }
                                assert(rest =~= Seq::<u32>::empty());
                            }
                        }
                    }
                } else {
                    self.buckets.set(b, entry);
                    proof {
                        assert(self.wf());
                        self.lemma_bucket_at(b as int);
                        assert forall|k: u32| k != key implies #[trigger] self.bucket(k) == before.bucket(k) by {
                            if exists|j: int| 0 <= j < before.buckets@.len() && (#[trigger] before.buckets@[j]).0 == k {
                                let j = choose|j: int| 0 <= j < before.buckets@.len() && (#[trigger] before.buckets@[j]).0 == k;
                                before.lemma_bucket_at(j);
                                self.lemma_bucket_at(j);
                            } else {
                                self.lemma_bucket_absent(k);
                            }
                        }
                    }
                }
                proof {
                    assert forall|k: u32| k >= need && #[trigger] before.bucket(k).len() > 0 implies key <= k by {
                        if exists|j: int| 0 <= j < before.buckets@.len() && (#[trigger] before.buckets@[j]).0 == k {
                        } else {
                            before.lemma_bucket_absent(k);
                        }
                    }
                }
                Some((key, pid))
            },
        }
    }
}

} // verus!
