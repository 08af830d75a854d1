use vstd::prelude::*;
use std::collections::HashMap;

verus! {

/// The value filed under (`turn`, `digest`) in a bucket: the first entry
/// for them, if any.
pub open spec fn bucket_find(b: Seq<(u8, u64, usize)>, turn: u8, digest: u64) -> Option<usize>
    decreases b.len(),
{
    if b.len() == 0 {
        None
    } else if b[0].0 == turn && b[0].1 == digest {
        Some(b[0].2)
    } else {
        bucket_find(b.drop_first(), turn, digest)
    }
}

proof fn lemma_find_none(b: Seq<(u8, u64, usize)>, turn: u8, digest: u64, k: int)
    requires
        0 <= k <= b.len(),
        forall|j: int| 0 <= j < k ==> !((#[trigger] b[j]).0 == turn && b[j].1 == digest),
    ensures
        bucket_find(b, turn, digest) == bucket_find(b.subrange(k, b.len() as int), turn, digest),
    decreases k,
{
    if k > 0 {
        let t = b.drop_first();
        assert forall|j: int| 0 <= j < k - 1 implies !((#[trigger] t[j]).0 == turn && t[j].1 == digest) by {
            assert(t[j] == b[j + 1]);
        }
        lemma_find_none(t, turn, digest, k - 1);
        assert(t.subrange(k - 1, t.len() as int) =~= b.subrange(k, b.len() as int));
    } else {
        assert(b.subrange(0, b.len() as int) =~= b);
    }
}

proof fn lemma_find_update(b: Seq<(u8, u64, usize)>, i: int, turn: u8, digest: u64, v: usize, t2: u8, d2: u64)
    requires
        0 <= i < b.len(),
        b[i].0 == turn && b[i].1 == digest,
        forall|j: int| 0 <= j < i ==> !((#[trigger] b[j]).0 == turn && b[j].1 == digest),
    ensures
        bucket_find(b.update(i, (turn, digest, v)), t2, d2) == if t2 == turn && d2 == digest {
            Some(v)
        } else {
            bucket_find(b, t2, d2)
        },
    decreases i,
{
    let u = b.update(i, (turn, digest, v));
    if i > 0 {
        let t = b.drop_first();
        assert forall|j: int| 0 <= j < i - 1 implies !((#[trigger] t[j]).0 == turn && t[j].1 == digest) by {
            assert(t[j] == b[j + 1]);
        }
        lemma_find_update(t, i - 1, turn, digest, v, t2, d2);
        assert(u.drop_first() =~= t.update(i - 1, (turn, digest, v)));
        assert(u[0] == b[0]);
    } else {
        assert(u.drop_first() =~= b.drop_first());
        assert(u[0] == (turn, digest, v));
    }
}

proof fn lemma_find_push(b: Seq<(u8, u64, usize)>, turn: u8, digest: u64, v: usize, t2: u8, d2: u64)
    requires
        bucket_find(b, turn, digest) is None,
    ensures
        bucket_find(b.push((turn, digest, v)), t2, d2) == if t2 == turn && d2 == digest {
            Some(v)
        } else {
            bucket_find(b, t2, d2)
        },
    decreases b.len(),
{
    let p = b.push((turn, digest, v));
    if b.len() > 0 {
        assert(!(b[0].0 == turn && b[0].1 == digest));
        lemma_find_push(b.drop_first(), turn, digest, v, t2, d2);
        assert(p.drop_first() =~= b.drop_first().push((turn, digest, v)));
        assert(p[0] == b[0]);
    } else {
        assert(p.drop_first() =~= Seq::<(u8, u64, usize)>::empty());
        assert(p[0] == (turn, digest, v));
        assert(bucket_find(Seq::<(u8, u64, usize)>::empty(), t2, d2) is None);
    }
}

/// A table of numbers filed under a position hash, a side to move and a
/// digest, kept by the position hash.
pub struct KeyTable {
    buckets: HashMap<u64, Vec<(u8, u64, usize)>>,
}

impl KeyTable {
    /// The number filed under (`hash`, `turn`, `digest`), if any.
    pub closed spec fn lookup(&self, hash: u64, turn: u8, digest: u64) -> Option<usize> {
        if self.buckets@.contains_key(hash) {
            bucket_find(self.buckets@[hash]@, turn, digest)
        } else {
            None
        }
    }

    /// Whether nothing is filed.
    pub open spec fn is_empty(&self) -> bool {
        forall|hash: u64, turn: u8, digest: u64| #[trigger] self.lookup(hash, turn, digest) is None
    }

    /// An empty table.
    pub fn new() -> (t: Self)
        ensures
            t.is_empty(),
    {
        KeyTable { buckets: HashMap::new() }
    }

    /// Forgets everything filed.
    pub fn clear(&mut self)
        ensures
            final(self).is_empty(),
    {
        self.buckets.clear();
    }

    /// The number filed under (`hash`, `turn`, `digest`), if any.
    pub fn get(&self, hash: u64, turn: u8, digest: u64) -> (r: Option<usize>)
        ensures
            r == self.lookup(hash, turn, digest),
    {
        broadcast use vstd::std_specs::hash::group_hash_axioms;
        match self.buckets.get(&hash) {
            None => None,
            Some(bucket) => {
                let mut i: usize = 0;
                while i < bucket.len()
                    invariant
                        i <= bucket@.len(),
                        self.buckets@.contains_key(hash),
                        *bucket == self.buckets@[hash],
                        forall|j: int| 0 <= j < i ==> !((#[trigger] bucket@[j]).0 == turn && bucket@[j].1 == digest),
                    decreases bucket@.len() - i,
                {
                    if bucket[i].0 == turn && bucket[i].1 == digest {
                        proof {
                            lemma_find_none(bucket@, turn, digest, i as int);
                            assert(bucket@.subrange(i as int, bucket@.len() as int)[0] == bucket@[i as int]);
                        }
                        return Some(bucket[i].2);
                    }
                    i += 1;
                }
                proof {
                    lemma_find_none(bucket@, turn, digest, i as int);
                    assert(bucket@.subrange(i as int, bucket@.len() as int) =~= Seq::<(u8, u64, usize)>::empty());
                }
                None
            },
        }
    }

    /// Files `value` under (`hash`, `turn`, `digest`), in place of what was
    /// filed there.
    pub fn insert(&mut self, hash: u64, turn: u8, digest: u64, value: usize)
        ensures
            final(self).lookup(hash, turn, digest) == Some(value),
            forall|h: u64, t: u8, d: u64| !(h == hash && t == turn && d == digest) ==> #[trigger] final(self).lookup(h, t, d) == old(self).lookup(h, t, d),
    {
        broadcast use vstd::std_specs::hash::group_hash_axioms;
        let ghost b0: Seq<(u8, u64, usize)> = if old(self).buckets@.contains_key(hash) { old(self).buckets@[hash]@ } else { Seq::empty() };
        let mut bucket = match self.buckets.remove(&hash) {
            Some(b) => b,
            None => Vec::new(),
        };
        let mut i: usize = 0;
        while i < bucket.len()
            invariant
                i <= bucket@.len(),
                bucket@ == b0,
                forall|j: int| 0 <= j < i ==> !((#[trigger] bucket@[j]).0 == turn && bucket@[j].1 == digest),
            ensures
                i < bucket@.len() ==> bucket@[i as int].0 == turn && bucket@[i as int].1 == digest,
            decreases bucket@.len() - i,
        {
            if bucket[i].0 == turn && bucket[i].1 == digest {
                break;
            }
            i += 1;
        }
        if i < bucket.len() {
            proof {
                assert(bucket@[i as int].0 == turn && bucket@[i as int].1 == digest);
                assert forall|t2: u8, d2: u64| #[trigger] bucket_find(b0.update(i as int, (turn, digest, value)), t2, d2) == if t2 == turn && d2 == digest {
                    Some(value)
                } else {
                    bucket_find(b0, t2, d2)
                } by {
                    lemma_find_update(b0, i as int, turn, digest, value, t2, d2);
                }
            }
            bucket.set(i, (turn, digest, value));
        } else {
            proof {
                lemma_find_none(b0, turn, digest, i as int);
                assert(b0.subrange(i as int, b0.len() as int) =~= Seq::<(u8, u64, usize)>::empty());
                assert forall|t2: u8, d2: u64| #[trigger] bucket_find(b0.push((turn, digest, value)), t2, d2) == if t2 == turn && d2 == digest {
                    Some(value)
                } else {
                    bucket_find(b0, t2, d2)
                } by {
                    lemma_find_push(b0, turn, digest, value, t2, d2);
                }
            }
            bucket.push((turn, digest, value));
        }
        self.buckets.insert(hash, bucket);
    }
}

} // verus!
