//! Names in the order in which they first occur, each found by its hash.
use crate::bytes::same_bytes;
use crate::paths::byte_strings;
use std::collections::HashMap;
use vstd::prelude::*;

verus! {

broadcast use vstd::std_specs::hash::group_hash_axioms;

pub const HASH_START: u64 = 0xcbf2_9ce4_8422_2325;

pub const HASH_FACTOR: u64 = 0x0000_0100_0000_01b3;

/// A hash of a byte string.
pub open spec fn name_hash(name: Seq<u8>) -> u64
    decreases name.len(),
{
    if name.len() == 0 {
        HASH_START
    } else {
        (name_hash(name.drop_last()) ^ (name.last() as u64)).wrapping_mul(HASH_FACTOR)
    }
}

fn hash_name(name: &[u8]) -> (hash: u64)
    ensures
        hash == name_hash(name@),
{
    let mut hash: u64 = HASH_START;
    let mut i: usize = 0;
    assert(name@.take(0) =~= Seq::<u8>::empty());
    while i < name.len()
        invariant
            i <= name@.len(),
            hash == name_hash(name@.take(i as int)),
        decreases name@.len() - i,
    {
        assert(name@.take(i + 1).drop_last() =~= name@.take(i as int));
        hash = (hash ^ (name[i] as u64)).wrapping_mul(HASH_FACTOR);
        i = i + 1;
    }
    assert(name@.take(i as int) =~= name@);
    hash
}

/// Distinct names, numbered from zero.
pub struct NameTable {
    pub names: Vec<Vec<u8>>,
    /// For each hash, the numbers of the names that have it.
    pub buckets: HashMap<u64, Vec<usize>>,
}

impl View for NameTable {
    type V = Seq<Seq<u8>>;

    open spec fn view(&self) -> Seq<Seq<u8>> {
        byte_strings(self.names@)
    }
}

impl NameTable {
    pub open spec fn wf(&self) -> bool {
        &&& self@.no_duplicates()
        &&& forall|i: int|
            0 <= i < self@.len() ==> {
                &&& self.buckets@.contains_key(name_hash(#[trigger] self@[i]))
                &&& self.buckets@[name_hash(self@[i])]@.contains(i as usize)
            }
        &&& forall|hash: u64, j: int|
            self.buckets@.contains_key(hash) && 0 <= j < self.buckets@[hash]@.len()
                ==> #[trigger] self.buckets@[hash]@[j] < self@.len()
    }

    pub fn new() -> (table: Self)
        ensures
            table.wf(),
            table@ == Seq::<Seq<u8>>::empty(),
    {
        let table = NameTable { names: Vec::new(), buckets: HashMap::new() };
        assert(table@ =~= Seq::<Seq<u8>>::empty());
        table
    }

    /// The number of a name.
    pub fn find(&self, name: &[u8]) -> (found: Option<usize>)
        requires
            self.wf(),
        ensures
            match found {
                Some(i) => i < self@.len() && self@[i as int] == name@,
                None => !self@.contains(name@),
            },
    {
        let hash: u64 = hash_name(name);
        let count: usize = self.names.len();
        match self.buckets.get(&hash) {
            Some(bucket) => {
                let mut j: usize = 0;
                while j < bucket.len()
                    invariant
                        self.wf(),
                        self.buckets@.contains_key(hash),
                        *bucket == self.buckets@[hash],
                        j <= bucket@.len(),
                        forall|l: int|
                            0 <= l < j ==> self@[#[trigger] bucket@[l] as int] != name@,
                    decreases bucket@.len() - j,
                {
                    let i: usize = bucket[j];
                    assert(self.buckets@[hash]@[j as int] < self@.len());
                    if same_bytes(self.names[i].as_slice(), name) {
                        return Some(i);
                    }
                    j = j + 1;
                }
                proof {
                    assert(count == self@.len());
                    if self@.contains(name@) {
                        let i = choose|i: int| 0 <= i < self@.len() && self@[i] == name@;
                        assert(bucket@.contains(i as usize));
                        let l = choose|l: int| 0 <= l < bucket@.len() && bucket@[l] == i as usize;
                        assert(self@[bucket@[l] as int] != name@);
                    }
                }
                None
            },
            None => {
                proof {
                    if self@.contains(name@) {
                        let i = choose|i: int| 0 <= i < self@.len() && self@[i] == name@;
                        assert(self.buckets@.contains_key(name_hash(self@[i])));
                    }
                }
                None
            },
        }
    }

    /// Adds a new name behind the others.
    pub fn add_name(&mut self, name: Vec<u8>)
        requires
            old(self).wf(),
            !old(self)@.contains(name@),
        ensures
            final(self).wf(),
            final(self)@ == old(self)@.push(name@),
    {
        let hash: u64 = hash_name(name.as_slice());
        let number: usize = self.names.len();
        let mut bucket: Vec<usize> = match self.buckets.remove(&hash) {
            Some(bucket) => bucket,
            None => Vec::new(),
        };
        let ghost shorter = bucket@;
        bucket.push(number);
        self.buckets.insert(hash, bucket);
        let ghost added = name@;
        self.names.push(name);
        proof {
            assert(self@ =~= old(self)@.push(added));
            assert(self.buckets@[hash]@ == shorter.push(number));
            assert forall|i: int| 0 <= i < self@.len() implies {
                &&& self.buckets@.contains_key(name_hash(#[trigger] self@[i]))
                &&& self.buckets@[name_hash(self@[i])]@.contains(i as usize)
            } by {
                if i < old(self)@.len() {
                    assert(old(self)@[i] == self@[i]);
                    if name_hash(self@[i]) == hash {
                        let l = choose|l: int|
                            0 <= l < shorter.len() && shorter[l] == i as usize;
                        assert(shorter.push(number)[l] == i as usize);
                    }
                } else {
                    assert(shorter.push(number)[shorter.len() as int] == number);
                }
            }
            assert forall|h: u64, j: int|
                self.buckets@.contains_key(h) && 0 <= j < self.buckets@[h]@.len() implies
                #[trigger] self.buckets@[h]@[j] < self@.len() by {
                if h == hash {
                    if j < shorter.len() {
                        assert(shorter[j] == old(self).buckets@[h]@[j]);
                    }
                } else {
                    assert(old(self).buckets@[h]@[j] < old(self)@.len());
                }
            }
            assert forall|i: int, j: int|
                0 <= i < self@.len() && 0 <= j < self@.len() && i != j implies self@[i]
                != self@[j] by {
                if i == number {
                    assert(old(self)@[j] == self@[j]);
                }
                if j == number {
                    assert(old(self)@[i] == self@[i]);
                }
            }
        }
    }
}

} // verus!
