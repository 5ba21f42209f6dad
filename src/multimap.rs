//! A sharded multimap from words to identifiers with set semantics.
//!
//! Keys are spread over a fixed number of shards by a deterministic hash;
//! each operation touches exactly one shard. A key maps to the sequence of
//! its distinct values in the order in which they were first set.
use vstd::prelude::*;

verus! {

/// The default hasher's hash of a text.
pub uninterp spec fn key_hash(s: Seq<char>) -> u64;

/// Relies on `BuildHasher::hash_one` with `BuildHasherDefault<DefaultHasher>`:
/// every such hasher starts from the same state, so the hash of a text
/// depends on its characters alone.
#[verifier::external_body]
fn hash_key(key: &str) -> (h: u64)
    ensures
        h == key_hash(key@),
{
    std::hash::BuildHasher::hash_one(
        &std::hash::BuildHasherDefault::<std::collections::hash_map::DefaultHasher>::default(),
        key,
    )
}

/// Relies on `<str as PartialEq>::eq`: two texts are equal when their
/// characters are.
#[verifier::external_body]
fn same_text(a: &str, b: &str) -> (r: bool)
    ensures
        r == (a@ == b@),
{
    a == b
}

/// The values paired with `k` in `pairs`, in order.
pub open spec fn values_in(pairs: Seq<(String, usize)>, k: Seq<char>) -> Seq<usize>
    decreases pairs.len(),
{
    if pairs.len() == 0 {
        seq![]
    } else {
        let rest = values_in(pairs.drop_last(), k);
        if pairs.last().0@ == k {
            rest.push(pairs.last().1)
        } else {
            rest
        }
    }
}

/// `vals` after setting `v`: unchanged when `v` is already there, else `v` is appended.
pub open spec fn inserted(vals: Seq<usize>, v: usize) -> Seq<usize> {
    if vals.contains(v) {
        vals
    } else {
        vals.push(v)
    }
}

proof fn lemma_values_in_contains(pairs: Seq<(String, usize)>, k: Seq<char>, v: usize)
    ensures
        values_in(pairs, k).contains(v) <==> exists|j: int|
            0 <= j < pairs.len() && #[trigger] pairs[j].0@ == k && pairs[j].1 == v,
    decreases pairs.len(),
{
    if pairs.len() > 0 {
        let init = pairs.drop_last();
        let n = pairs.len() - 1;
        lemma_values_in_contains(init, k, v);
        assert forall|j: int| 0 <= j < init.len() implies #[trigger] init[j] == pairs[j] by {}
        if pairs[n].0@ == k && pairs[n].1 == v {
            assert(values_in(pairs, k) == values_in(init, k).push(v));
            assert(values_in(pairs, k)[values_in(init, k).len() as int] == v);
        } else {
            if values_in(pairs, k).contains(v) {
                if pairs[n].0@ == k {
                    let vs = values_in(init, k);
                    let t = choose|t: int| 0 <= t < vs.push(pairs[n].1).len() && vs.push(pairs[n].1)[t] == v;
                    assert(t < vs.len());
                    assert(vs.contains(v));
                }
            }
            if exists|j: int| 0 <= j < pairs.len() && #[trigger] pairs[j].0@ == k && pairs[j].1 == v {
                let j = choose|j: int| 0 <= j < pairs.len() && #[trigger] pairs[j].0@ == k && pairs[j].1 == v;
                assert(init[j].0@ == k);
                if pairs[n].0@ == k {
                    let vs = values_in(init, k);
                    assert(vs.contains(v));
                    let t = choose|t: int| 0 <= t < vs.len() && vs[t] == v;
                    assert(vs.push(pairs[n].1)[t] == v);
                }
            }
        }
    }
}

/// A multimap from texts to identifiers, split into independent shards.
pub struct ConcurrentMultiMap {
    buckets: Vec<Vec<(String, usize)>>,
}

impl ConcurrentMultiMap {
    /// The number of shards.
    pub closed spec fn bucket_count(&self) -> nat {
        self.buckets@.len()
    }

    /// The shard that holds the key `k`.
    pub closed spec fn bucket_of(&self, k: Seq<char>) -> int {
        (#[verifier::truncate] (key_hash(k) as usize)) as int % self.buckets@.len() as int
    }

    /// The values set for `k`, in the order in which they were first set.
    pub closed spec fn values(&self, k: Seq<char>) -> Seq<usize> {
        values_in(self.buckets@[self.bucket_of(k)]@, k)
    }

    /// Every pair lies in the shard of its key, and no key holds a value twice.
    pub closed spec fn wf(&self) -> bool {
        &&& self.buckets@.len() > 0
        &&& forall|i: int, j: int|
            0 <= i < self.buckets@.len() && 0 <= j < self.buckets@[i]@.len() ==> self.bucket_of(
                #[trigger] self.buckets@[i]@[j].0@,
            ) == i
        &&& forall|k: Seq<char>| (#[trigger] self.values(k)).no_duplicates()
    }

    /// A map with `bucket_count` empty shards.
    pub fn new(bucket_count: usize) -> (r: Self)
        requires
            bucket_count >= 1,
        ensures
            r.wf(),
            r.bucket_count() == bucket_count,
            forall|k: Seq<char>| #[trigger] r.values(k) == Seq::<usize>::empty(),
    {
        let mut buckets: Vec<Vec<(String, usize)>> = Vec::new();
        let mut i: usize = 0;
        while i < bucket_count
            invariant
                i <= bucket_count,
                buckets@.len() == i,
                forall|j: int| 0 <= j < i ==> (#[trigger] buckets@[j])@.len() == 0,
            decreases bucket_count - i,
        {
            buckets.push(Vec::new());
            i = i + 1;
        }
        let r = ConcurrentMultiMap { buckets };
        assert forall|k: Seq<char>| #[trigger] r.values(k) == Seq::<usize>::empty() by {
            assert(r.buckets@[r.bucket_of(k)]@.len() == 0);
        }
        r
    }

    /// The shard that holds `key`.
    fn bucket_index(&self, key: &str) -> (i: usize)
        requires
            self.wf(),
        ensures
            i == self.bucket_of(key@),
            i < self.buckets@.len(),
    {
        let h = hash_key(key);
        (#[verifier::truncate] (h as usize)) % self.buckets.len()
    }

    /// Pairs `value` with `key`; setting a pair that is already there changes nothing.
    pub fn set(&mut self, key: String, value: usize)
        requires
            old(self).wf(),
        ensures
            final(self).wf(),
            final(self).bucket_count() == old(self).bucket_count(),
            forall|k: Seq<char>| #[trigger]
                final(self).values(k) == if k == key@ {
                    inserted(old(self).values(k), value)
                } else {
                    old(self).values(k)
                },
    {
        let i = self.bucket_index(key.as_str());
        let ghost b = self.buckets@[i as int]@;
        let mut j: usize = 0;
        while j < self.buckets[i].len()
            invariant
                self.wf(),
                i == self.bucket_of(key@),
                b == self.buckets@[i as int]@,
                j <= b.len(),
                forall|jj: int| 0 <= jj < j ==> !(#[trigger] b[jj].0@ == key@ && b[jj].1 == value),
            decreases b.len() - j,
        {
            let pair = &self.buckets[i][j];
            if same_text(pair.0.as_str(), key.as_str()) && pair.1 == value {
                proof {
                    lemma_values_in_contains(b, key@, value);
                }
                return;
            }
            j = j + 1;
        }
        proof {
            lemma_values_in_contains(b, key@, value);
        }
        let ghost pre = *self;
        self.buckets[i].push((key, value));
        proof {
            let nb = self.buckets@[i as int]@;
            assert(nb.drop_last() =~= b);
            assert(self.buckets@.len() == pre.buckets@.len());
            assert forall|k: Seq<char>| #[trigger]
                self.values(k) == if k == key@ {
                    inserted(pre.values(k), value)
                } else {
                    pre.values(k)
                } by {
                assert(self.bucket_of(k) == pre.bucket_of(k));
                if self.bucket_of(k) != i {
                    assert(self.buckets@[self.bucket_of(k)] == pre.buckets@[self.bucket_of(k)]);
                }
            }
            assert forall|ii: int, jj: int|
                0 <= ii < self.buckets@.len() && 0 <= jj < self.buckets@[ii]@.len() implies self.bucket_of(
                #[trigger] self.buckets@[ii]@[jj].0@,
            ) == ii by {
                if ii != i {
                    assert(self.buckets@[ii] == pre.buckets@[ii]);
                } else if jj < b.len() {
                    assert(self.buckets@[ii]@[jj] == pre.buckets@[ii]@[jj]);
                }
            }
            assert forall|k: Seq<char>| (#[trigger] self.values(k)).no_duplicates() by {
                assert(pre.values(k).no_duplicates());
            }
        }
    }

    /// The values set for `key`, in the order in which they were first set.
    pub fn get(&self, key: &str) -> (r: Vec<usize>)
        requires
            self.wf(),
        ensures
            r@ == self.values(key@),
            r@.no_duplicates(),
    {
        let i = self.bucket_index(key);
        let ghost b = self.buckets@[i as int]@;
        let mut r: Vec<usize> = Vec::new();
        let mut j: usize = 0;
        while j < self.buckets[i].len()
            invariant
                self.wf(),
                i == self.bucket_of(key@),
                0 <= i < self.buckets@.len(),
                b == self.buckets@[i as int]@,
                j <= b.len(),
                r@ == values_in(b.subrange(0, j as int), key@),
            decreases b.len() - j,
        {
            let pair = &self.buckets[i][j];
            if same_text(pair.0.as_str(), key) {
                r.push(pair.1);
            }
            j = j + 1;
            assert(b.subrange(0, j as int).drop_last() =~= b.subrange(0, j - 1));
        }
        assert(b.subrange(0, b.len() as int) =~= b);
        assert(self.values(key@).no_duplicates());
        r
    }
}

/// Setting the same pair twice is the same as setting it once, and the key's
/// values then hold that value exactly once.
pub proof fn lemma_set_twice(m: ConcurrentMultiMap, k: Seq<char>, v: usize)
    requires
        m.wf(),
    ensures
        inserted(inserted(m.values(k), v), v) == inserted(m.values(k), v),
        inserted(inserted(m.values(k), v), v).to_multiset().count(v) == 1,
{
    let once = inserted(m.values(k), v);
    assert(m.values(k).no_duplicates());
    if !m.values(k).contains(v) {
        assert(once[once.len() - 1] == v);
        assert(once.no_duplicates());
    }
    assert(once.contains(v));
    once.lemma_multiset_has_no_duplicates();
    once.to_multiset_ensures();
}

} // verus!
