//! The names of the common cells, and the index of a cell by its name.
//!
//! The index of a common cell is its place in the list of names. Where a
//! name stands more than once, its last place counts. Names are looked up
//! through a digest: the places of all names with the same digest are kept
//! together, in rising order, so that a lookup compares only those.
use crate::text::same_bytes;
use std::collections::HashMap;
use vstd::prelude::*;
use vstd::std_specs::hash::group_hash_axioms;

verus! {

/// `i` is the last place among `names` where `name` stands.
pub open spec fn last_named(names: Seq<Vec<u8>>, name: Seq<u8>, i: int) -> bool {
    &&& 0 <= i < names.len()
    &&& names[i]@ == name
    &&& forall|j: int| i < j < names.len() ==> (#[trigger] names[j])@ != name
}

/// The digest of a run of bytes.
pub open spec fn digest(s: Seq<u8>) -> u64
    decreases s.len(),
{
    if s.len() == 0 {
        7
    } else {
        ((digest(s.drop_last()) * 257 + s.last() + 1) % 36028797018963913) as u64
    }
}

proof fn lemma_digest_small(s: Seq<u8>)
    ensures
        digest(s) < 36028797018963913,
    decreases s.len(),
{
    if s.len() > 0 {
        lemma_digest_small(s.drop_last());
    }
}

fn digest_of(bytes: &[u8]) -> (h: u64)
    ensures
        h == digest(bytes@),
{
    let mut h: u64 = 7;
    let mut i: usize = 0;
    assert(bytes@.take(0) =~= Seq::<u8>::empty());
    while i < bytes.len()
        invariant
            i <= bytes.len(),
            h == digest(bytes@.take(i as int)),
        decreases bytes.len() - i,
    {
        proof {
            lemma_digest_small(bytes@.take(i as int));
            assert(bytes@.take(i + 1).drop_last() =~= bytes@.take(i as int));
            assert(bytes@.take(i + 1).last() == bytes@[i as int]);
        }
        h = (h * 257 + bytes[i] as u64 + 1) % 36028797018963913;
        i += 1;
    }
    assert(bytes@.take(bytes@.len() as int) =~= bytes@);
    h
}

/// The places in `bucket` are places of names with the digest `h`, in
/// rising order.
spec fn bucket_ok(bucket: Seq<usize>, h: u64, names: Seq<Vec<u8>>, upto: int) -> bool {
    &&& forall|k: int|
        0 <= k < bucket.len() ==> (#[trigger] bucket[k]) < upto && digest(names[bucket[k] as int]@)
            == h
    &&& forall|k1: int, k2: int|
        0 <= k1 < k2 < bucket.len() ==> (#[trigger] bucket[k1]) < (#[trigger] bucket[k2])
}

/// Every one of the first `upto` names has its place in the bucket of its
/// digest, and the buckets hold nothing else.
spec fn indexes(buckets: Map<u64, Vec<usize>>, names: Seq<Vec<u8>>, upto: int) -> bool {
    &&& forall|i: int|
        0 <= i < upto ==> buckets.contains_key(digest((#[trigger] names[i])@)) && buckets[digest(
            names[i]@,
        )]@.contains(i as usize)
    &&& forall|h: u64| #[trigger]
        buckets.contains_key(h) ==> bucket_ok(buckets[h]@, h, names, upto)
}

/// The list of the names of the common cells, ready for lookups.
pub struct CellNames {
    names: Vec<Vec<u8>>,
    buckets: HashMap<u64, Vec<usize>>,
}

impl View for CellNames {
    type V = Seq<Vec<u8>>;

    closed spec fn view(&self) -> Seq<Vec<u8>> {
        self.names@
    }
}

impl CellNames {
    #[verifier::type_invariant]
    spec fn inv(self) -> bool {
        indexes(self.buckets@, self.names@, self.names@.len() as int)
    }

    /// The list of the given names, in their order.
    pub fn new(names: Vec<Vec<u8>>) -> (r: CellNames)
        ensures
            r@ == names@,
    {
        broadcast use group_hash_axioms;

        let mut buckets: HashMap<u64, Vec<usize>> = HashMap::new();
        let mut i: usize = 0;
        while i < names.len()
            invariant
                i <= names.len(),
                indexes(buckets@, names@, i as int),
            decreases names.len() - i,
        {
            let h = digest_of(names[i].as_slice());
            let ghost before = buckets@;
            let mut bucket: Vec<usize> = match buckets.remove(&h) {
                Some(b) => b,
                None => Vec::new(),
            };
            let ghost old_bucket = bucket@;
            proof {
                if before.contains_key(h) {
                    assert(bucket_ok(old_bucket, h, names@, i as int));
                }
            }
            bucket.push(i);
            let ghost new_bucket = bucket@;
            buckets.insert(h, bucket);
            proof {
                assert(buckets@ =~= before.insert(h, buckets@[h]));
                assert(new_bucket[old_bucket.len() as int] == i);
                assert(bucket_ok(new_bucket, h, names@, i + 1)) by {
                    assert forall|k: int| 0 <= k < new_bucket.len() implies (
                    #[trigger] new_bucket[k]) < i + 1 && digest(names@[new_bucket[k] as int]@)
                        == h by {
                        if k < old_bucket.len() {
                            assert(new_bucket[k] == old_bucket[k]);
                        }
                    }
                    assert forall|k1: int, k2: int| 0 <= k1 < k2 < new_bucket.len() implies (
                    #[trigger] new_bucket[k1]) < (#[trigger] new_bucket[k2]) by {
                        assert(new_bucket[k1] == old_bucket[k1]);
                        if k2 < old_bucket.len() {
                            assert(new_bucket[k2] == old_bucket[k2]);
                        }
                    }
                }
                assert forall|x: u64| #[trigger] buckets@.contains_key(x) implies bucket_ok(
                    buckets@[x]@,
                    x,
                    names@,
                    i + 1,
                ) by {
                    if x != h {
                        assert(before.contains_key(x));
                        assert(bucket_ok(before[x]@, x, names@, i as int));
                    }
                }
                assert forall|j: int| 0 <= j < i + 1 implies buckets@.contains_key(
                    digest((#[trigger] names@[j])@),
                ) && buckets@[digest(names@[j]@)]@.contains(j as usize) by {
                    let d = digest(names@[j]@);
                    if j == i {
                        assert(new_bucket[old_bucket.len() as int] == j);
                    } else if d == h {
                        assert(before.contains_key(d));
                        assert(old_bucket.contains(j as usize));
                        let k = choose|k: int| 0 <= k < old_bucket.len() && old_bucket[k] == j;
                        assert(new_bucket[k] == j);
                    } else {
                        assert(before.contains_key(d));
                    }
                }
            }
            i += 1;
        }
        CellNames { names, buckets }
    }

    /// The number of names.
    pub fn len(&self) -> (r: usize)
        ensures
            r == self@.len(),
    {
        self.names.len()
    }

    /// The index of the common cell called `name`: the last place where the
    /// name stands in the list.
    pub fn index_of(&self, name: &[u8]) -> (r: Option<usize>)
        ensures
            match r {
                Some(i) => last_named(self@, name@, i as int),
                None => forall|j: int| 0 <= j < self@.len() ==> (#[trigger] self@[j])@ != name@,
            },
    {
        broadcast use group_hash_axioms;

        proof {
            use_type_invariant(self);
        }
        let h = digest_of(name);
        let names = &self.names;
        match self.buckets.get(&h) {
            None => {
                assert forall|j: int| 0 <= j < names@.len() implies (#[trigger] names@[j])@
                    != name@ by {
                    if names@[j]@ == name@ {
                        assert(self.buckets@.contains_key(digest(names@[j]@)));
                    }
                }
                None
            },
            Some(bucket) => {
                assert(bucket_ok(bucket@, h, names@, names@.len() as int));
                let n: usize = names.len();
                let mut k: usize = bucket.len();
                while k > 0
                    invariant
                        k <= bucket.len(),
                        n == names@.len(),
                        names@ == self@,
                        h == digest(name@),
                        self.buckets@.contains_key(h),
                        self.buckets@[h]@ == bucket@,
                        indexes(self.buckets@, names@, names@.len() as int),
                        bucket_ok(bucket@, h, names@, names@.len() as int),
                        forall|x: int|
                            k <= x < bucket.len() ==> names@[(#[trigger] bucket@[x]) as int]@
                                != name@,
                    decreases k,
                {
                    k -= 1;
                    let place: usize = bucket[k];
                    if same_bytes(names[place].as_slice(), name) {
                        assert forall|j: int| place < j < names@.len() implies (
                        #[trigger] names@[j])@ != name@ by {
                            if names@[j]@ == name@ {
                                assert(self.buckets@[digest(names@[j]@)]@.contains(j as usize));
                                let x = choose|x: int|
                                    0 <= x < bucket@.len() && bucket@[x] == j as usize;
                                if x < k {
                                    assert(bucket@[x] < bucket@[k as int]);
                                }
                            }
                        }
                        return Some(place);
                    }
                }
                assert forall|j: int| 0 <= j < names@.len() implies (#[trigger] names@[j])@
                    != name@ by {
                    if names@[j]@ == name@ {
                        assert(self.buckets@[digest(names@[j]@)]@.contains(j as usize));
                        let x = choose|x: int| 0 <= x < bucket@.len() && bucket@[x] == j as usize;
                        assert(names@[bucket@[x] as int]@ != name@);
                    }
                }
                None
            },
        }
    }
}

} // verus!
