use std::collections::HashMap;
use vstd::prelude::*;

verus! {

/// The bucket number of a string: a polynomial hash of its characters
/// (multiplier 31, wrapping modulo 2^64).
pub open spec fn key_hash(s: Seq<char>) -> u64
    decreases s.len(),
{
    if s.len() == 0 {
        0
    } else {
        key_hash(s.drop_last()).wrapping_mul(31).wrapping_add(s.last() as u64)
    }
}

/// Computes `key_hash` of a string.
pub fn hash_key(s: &str) -> (h: u64)
    ensures
        h == key_hash(s@),
{
    let mut h: u64 = 0;
    for c in it: s.chars()
        invariant
            it.seq() == s@,
            h == key_hash(s@.take(it.index() as int)),
    {
        assert(s@.take(it.index() + 1).drop_last() =~= s@.take(it.index() as int));
        h = h.wrapping_mul(31).wrapping_add(c as u64);
    }
    assert(s@.take(s@.len() as int) =~= s@);
    h
}

/// A sequence of distinct strings, each found again by its position in
/// expected constant time: the positions of the strings are kept in
/// buckets by `key_hash`.
pub struct StringTable {
    keys: Vec<String>,
    buckets: HashMap<u64, Vec<usize>>,
}

impl View for StringTable {
    type V = Seq<Seq<char>>;

    /// The strings, in the order they were added.
    closed spec fn view(&self) -> Seq<Seq<char>> {
        self.keys.deep_view()
    }
}

impl StringTable {
    /// No string occurs twice; each string's position is in the bucket of
    /// its hash; every bucket holds valid positions only.
    #[verifier::type_invariant]
    spec fn consistent(self) -> bool {
        &&& self.keys.deep_view().no_duplicates()
        &&& forall|i: int|
            0 <= i < self.keys@.len() ==> #[trigger] self.buckets@.contains_key(
                key_hash(self.keys@[i]@),
            ) && self.buckets@[key_hash(self.keys@[i]@)]@.contains(i as usize)
        &&& forall|h: u64, j: int|
            #![trigger self.buckets@[h]@[j]]
            self.buckets@.contains_key(h) && 0 <= j < self.buckets@[h]@.len()
                ==> self.buckets@[h]@[j] < self.keys@.len()
    }

    /// A table with no strings.
    pub fn new() -> (table: Self)
        ensures
            table@ == Seq::<Seq<char>>::empty(),
    {
        let table = StringTable { keys: Vec::new(), buckets: HashMap::new() };
        assert(table.keys.deep_view() =~= Seq::<Seq<char>>::empty());
        table
    }

    /// How many strings there are.
    pub fn len(&self) -> (n: usize)
        ensures
            n == self@.len(),
    {
        self.keys.len()
    }

    /// The string at position `i`.
    pub fn key(&self, i: usize) -> (k: &String)
        requires
            i < self@.len(),
        ensures
            k@ == self@[i as int],
    {
        &self.keys[i]
    }

    /// The position of `key`, if it is in the table.
    pub fn find(&self, key: &String) -> (pos: Option<usize>)
        ensures
            match pos {
                Some(i) => i < self@.len() && self@[i as int] == key@,
                None => !self@.contains(key@),
            },
    {
        broadcast use vstd::std_specs::hash::group_hash_axioms;

        proof {
            use_type_invariant(self);
        }
        let h = hash_key(key.as_str());
        let total = self.keys.len();
        assert(self@.len() == total);
        match self.buckets.get(&h) {
            None => {
                proof {
                    if self@.contains(key@) {
                        let i = choose|i: int| 0 <= i < self@.len() && self@[i] == key@;
                        assert(self.keys@[i]@ == key@);
                    }
                }
                None
            },
            Some(bucket) => {
                let n = bucket.len();
                assert forall|m: int| 0 <= m < n implies bucket@[m] < total by {
                    assert(self.buckets@[h]@[m] < self.keys@.len());
                }
                let mut j: usize = 0;
                while j < n
                    invariant
                        n == bucket@.len(),
                        total == self.keys@.len(),
                        self@.len() == total,
                        forall|m: int| 0 <= m < n ==> bucket@[m] < total,
                        j <= n,
                        self.buckets@.contains_key(h),
                        bucket@ == self.buckets@[h]@,
                        forall|m: int| 0 <= m < j ==> self@[bucket@[m] as int] != key@,
                    decreases n - j,
                {
                    let i = bucket[j];
                    assert(self.buckets@[h]@[j as int] == i);
                    if self.keys[i] == *key {
                        return Some(i);
                    }
                    j = j + 1;
                }
                proof {
                    if self@.contains(key@) {
                        let i = choose|i: int| 0 <= i < self@.len() && self@[i] == key@;
                        assert(self.keys@[i]@ == key@);
                        let iu = i as usize;
                        assert(iu as int == i);
                        assert(bucket@.contains(iu));
                        let m = choose|m: int| 0 <= m < bucket@.len() && bucket@[m] == iu;
                        assert(self@[bucket@[m] as int] == key@);
                    }
                }
                None
            },
        }
    }

    /// Adds a string that is not in the table yet; it gets the next
    /// position, which is returned.
    pub fn push(&mut self, key: String) -> (pos: usize)
        requires
            !old(self)@.contains(key@),
        ensures
            final(self)@ == old(self)@.push(key@),
            pos == old(self)@.len(),
    {
        broadcast use vstd::std_specs::hash::group_hash_axioms;

        let h = hash_key(key.as_str());
        let mut this = StringTable::new();
        std::mem::swap(&mut this, self);
        proof {
            use_type_invariant(&this);
        }
        let StringTable { mut keys, mut buckets } = this;
        let ghost old_keys = keys@;
        let ghost old_view = keys.deep_view();
        let ghost old_buckets = buckets@;
        let pos = keys.len();
        let mut bucket = match buckets.remove(&h) {
            Some(b) => b,
            None => Vec::new(),
        };
        let ghost old_bucket = bucket@;
        bucket.push(pos);
        buckets.insert(h, bucket);
        let ghost kv = key@;
        keys.push(key);
        proof {
            assert(keys.deep_view() =~= old_view.push(kv));
            assert forall|i: int| 0 <= i < keys@.len() implies #[trigger] buckets@.contains_key(
                key_hash(keys@[i]@),
            ) && buckets@[key_hash(keys@[i]@)]@.contains(i as usize) by {
                if i < old_keys.len() {
                    assert(keys@[i] == old_keys[i]);
                    let hi = key_hash(old_keys[i]@);
                    assert(this.buckets@.contains_key(key_hash(this.keys@[i]@)));
                    assert(old_buckets.contains_key(hi) && old_buckets[hi]@.contains(i as usize));
                    if hi == h {
                        let m = choose|m: int| 0 <= m < old_bucket.len() && old_bucket[m] == i as usize;
                        assert(buckets@[h]@[m] == i as usize);
                    }
                } else {
                    assert(buckets@[h]@[old_bucket.len() as int] == pos);
                }
            }
            assert forall|g: u64, j: int|
                #![trigger buckets@[g]@[j]]
                buckets@.contains_key(g) && 0 <= j < buckets@[g]@.len() implies buckets@[g]@[j]
                < keys@.len() by {
                if g == h {
                    if j < old_bucket.len() {
                        assert(old_buckets.contains_key(h));
                        assert(old_bucket == old_buckets[h]@);
                        assert(old_buckets[h]@[j] < old_keys.len());
                    }
                } else {
                    assert(old_buckets[g]@[j] < old_keys.len());
                }
            }
        }
        *self = StringTable { keys, buckets };
        pos
    }
}

} // verus!
