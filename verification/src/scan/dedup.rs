//! Recognising files that were counted before under another name.
use ahash::AHashSet;
use vstd::prelude::*;

verus! {

/// The source of hashers that `ahash` uses by default.
#[verifier::external_type_specification]
#[verifier::external_body]
pub struct ExRandomState(ahash::RandomState);

/// The set of `ahash`: a hash set of the standard library with another hasher.
#[verifier::external_type_specification]
#[verifier::external_body]
#[verifier::reject_recursive_types(T)]
#[verifier::reject_recursive_types(S)]
pub struct ExAHashSet<T, S>(AHashSet<T, S>);

/// The pairs that a set holds.
pub uninterp spec fn pairs(set: AHashSet<(u64, u64)>) -> Set<(u64, u64)>;

/// Calls `AHashSet::new`: the set is empty.
#[verifier::external_body]
fn new_pair_set() -> (set: AHashSet<(u64, u64)>)
    ensures
        pairs(set) == Set::<(u64, u64)>::empty(),
{
    AHashSet::new()
}

/// Calls `insert` on an `AHashSet`: the pair is a member afterwards, beside
/// those that were, and the result tells whether it is new.
#[verifier::external_body]
fn insert_pair(set: &mut AHashSet<(u64, u64)>, pair: (u64, u64)) -> (new: bool)
    ensures
        new == !pairs(*old(set)).contains(pair),
        pairs(*final(set)) == pairs(*old(set)).insert(pair),
{
    set.insert(pair)
}

/// Calls `contains` on an `AHashSet`: whether the pair is a member.
#[verifier::external_body]
fn holds_pair(set: &AHashSet<(u64, u64)>, pair: (u64, u64)) -> (held: bool)
    ensures
        held == pairs(*set).contains(pair),
{
    set.contains(&pair)
}

/// Calls `len` on an `AHashSet`: the number of its members.
#[verifier::external_body]
fn pair_count(set: &AHashSet<(u64, u64)>) -> (count: usize)
    ensures
        count == pairs(*set).len(),
{
    set.len()
}

/// The number of sets that the pairs are spread over.
pub const SHARD_COUNT: u64 = 128;

pub const SHARD_FACTOR: u64 = 0x517c_c1b7_2722_0a95;

/// The set that a pair belongs to.
pub open spec fn shard_of(pair: (u64, u64)) -> int {
    ((pair.0.wrapping_mul(SHARD_FACTOR) ^ pair.1) % SHARD_COUNT) as int
}

/// The files seen so far, by device and inode number.
pub struct InodeDedup {
    shards: Vec<AHashSet<(u64, u64)>>,
}

impl View for InodeDedup {
    type V = Set<(u64, u64)>;

    closed spec fn view(&self) -> Set<(u64, u64)> {
        Set::new(|pair: (u64, u64)| pairs(self.shards@[shard_of(pair)]).contains(pair))
    }
}

impl InodeDedup {
    /// Every pair lies in the set that it belongs to.
    pub closed spec fn wf(&self) -> bool {
        &&& self.shards@.len() == SHARD_COUNT
        &&& forall|k: int| 0 <= k < SHARD_COUNT ==> (#[trigger] pairs(self.shards@[k])).finite()
        &&& forall|k: int, pair: (u64, u64)|
            0 <= k < SHARD_COUNT && #[trigger] pairs(self.shards@[k]).contains(pair) ==> shard_of(
                pair,
            ) == k
    }

    pub fn new() -> (dedup: Self)
        ensures
            dedup.wf(),
            dedup@ == Set::<(u64, u64)>::empty(),
    {
        let mut shards: Vec<AHashSet<(u64, u64)>> = Vec::new();
        let mut k: u64 = 0;
        while k < SHARD_COUNT
            invariant
                k <= SHARD_COUNT,
                shards@.len() == k,
                forall|j: int|
                    0 <= j < k ==> pairs(#[trigger] shards@[j]) == Set::<(u64, u64)>::empty(),
            decreases SHARD_COUNT - k,
        {
            shards.push(new_pair_set());
            k = k + 1;
        }
        let dedup = InodeDedup { shards };
        assert(dedup@ =~= Set::<(u64, u64)>::empty());
        dedup
    }

    fn shard_index(dev: u64, ino: u64) -> (shard: usize)
        ensures
            shard == shard_of((dev, ino)),
            shard < SHARD_COUNT,
    {
        let hash: u64 = dev.wrapping_mul(SHARD_FACTOR) ^ ino;
        (hash % SHARD_COUNT) as usize
    }

    /// Whether a file was remembered.
    pub fn contains(&self, dev: u64, ino: u64) -> (seen: bool)
        requires
            self.wf(),
        ensures
            seen == self@.contains((dev, ino)),
    {
        let shard: usize = Self::shard_index(dev, ino);
        holds_pair(&self.shards[shard], (dev, ino))
    }

    /// Remembers a file, and tells whether it is new.
    pub fn check_and_insert(&mut self, dev: u64, ino: u64) -> (new: bool)
        requires
            old(self).wf(),
        ensures
            final(self).wf(),
            new == !old(self)@.contains((dev, ino)),
            final(self)@ == old(self)@.insert((dev, ino)),
    {
        let shard: usize = Self::shard_index(dev, ino);
        let new = insert_pair(&mut self.shards[shard], (dev, ino));
        assert(self@ =~= old(self)@.insert((dev, ino)));
        new
    }

    /// The pairs in the first `k` sets.
    spec fn below(&self, k: int) -> Set<(u64, u64)> {
        Set::new(
            |pair: (u64, u64)|
                shard_of(pair) < k && pairs(self.shards@[shard_of(pair)]).contains(pair),
        )
    }

    proof fn lemma_below_grows(&self, k: int)
        requires
            self.wf(),
            0 <= k < SHARD_COUNT,
            self.below(k).finite(),
        ensures
            self.below(k + 1).finite(),
            self.below(k + 1).len() == self.below(k).len() + pairs(self.shards@[k]).len(),
    {
        assert(self.below(k + 1) =~= self.below(k) + pairs(self.shards@[k]));
        assert(self.below(k).disjoint(pairs(self.shards@[k])));
        vstd::set_lib::lemma_set_disjoint_lens(self.below(k), pairs(self.shards@[k]));
    }

    /// Only finitely many files have been seen.
    pub proof fn lemma_seen_is_finite(&self)
        requires
            self.wf(),
        ensures
            self@.finite(),
    {
        self.lemma_finite(0);
    }

    proof fn lemma_finite(&self, k: int)
        requires
            self.wf(),
            0 <= k <= SHARD_COUNT,
        ensures
            self.below(k).finite(),
            self@.finite(),
            self.below(k).len() <= self@.len(),
        decreases SHARD_COUNT - k,
    {
        self.lemma_below_finite(k);
        self.lemma_below_finite(SHARD_COUNT as int);
        assert(self.below(SHARD_COUNT as int) =~= self@);
        vstd::set_lib::lemma_len_subset(self.below(k), self@);
    }

    proof fn lemma_below_finite(&self, k: int)
        requires
            self.wf(),
            0 <= k <= SHARD_COUNT,
        ensures
            self.below(k).finite(),
        decreases k,
    {
        if k == 0 {
            assert(self.below(0) =~= Set::empty());
        } else {
            self.lemma_below_finite(k - 1);
            self.lemma_below_grows(k - 1);
        }
    }

    /// The number of files seen so far.
    pub fn len(&self) -> (count: usize)
        requires
            self.wf(),
            self@.len() <= usize::MAX,
        ensures
            self@.finite(),
            count == self@.len(),
    {
        let mut count: usize = 0;
        let mut k: usize = 0;
        proof {
            assert(self.below(0) =~= Set::empty());
            self.lemma_finite(0);
        }
        while k < self.shards.len()
            invariant
                self.wf(),
                self@.len() <= usize::MAX,
                k <= self.shards@.len(),
                count == self.below(k as int).len(),
            decreases self.shards@.len() - k,
        {
            proof {
                self.lemma_finite(k as int);
                self.lemma_below_grows(k as int);
                self.lemma_finite(k + 1);
            }
            count = count + pair_count(&self.shards[k]);
            k = k + 1;
        }
        assert(self.below(SHARD_COUNT as int) =~= self@);
        count
    }

    pub fn is_empty(&self) -> (empty: bool)
        requires
            self.wf(),
            self@.len() <= usize::MAX,
        ensures
            empty == (self@ == Set::<(u64, u64)>::empty()),
    {
        let count: usize = self.len();
        proof {
            if count == 0 {
                assert(self@ =~= Set::empty()) by {
                    if exists|pair: (u64, u64)| self@.contains(pair) {
                        let pair = choose|pair: (u64, u64)| self@.contains(pair);
                        assert(self@.remove(pair).len() + 1 == self@.len());
                    }
                }
            }
        }
        count == 0
    }
}

impl Default for InodeDedup {
    fn default() -> (dedup: Self)
        ensures
            dedup.wf(),
            dedup@ == Set::<(u64, u64)>::empty(),
    {
        InodeDedup::new()
    }
}

/// A file is new the first time that it is remembered, and never again; others are
/// not touched by it.
pub proof fn law_files_are_new_once(dedup: &mut InodeDedup, dev: u64, ino: u64, new: bool)
    requires
        old(dedup).wf(),
        call_ensures(InodeDedup::check_and_insert, (dedup, dev, ino), new),
    ensures
        new <==> !old(dedup)@.contains((dev, ino)),
        final(dedup)@.contains((dev, ino)),
        forall|d: u64, i: u64|
            #![trigger final(dedup)@.contains((d, i))]
            (d, i) != (dev, ino) ==> final(dedup)@.contains((d, i)) == old(dedup)@.contains((d, i)),
{
}

/// As many files were seen as are remembered, and none if nothing is.
pub proof fn law_seen_files_are_counted(dedup: &InodeDedup, count: usize, empty: bool)
    requires
        call_ensures(InodeDedup::len, (dedup,), count),
        call_ensures(InodeDedup::is_empty, (dedup,), empty),
    ensures
        count == dedup@.len(),
        empty <==> forall|id: (u64, u64)| !(#[trigger] dedup@.contains(id)),
{
    if forall|id: (u64, u64)| !(#[trigger] dedup@.contains(id)) {
        assert(dedup@ =~= Set::<(u64, u64)>::empty());
    }
}

} // verus!
