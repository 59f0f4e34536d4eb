//! A hash map and a hash set with byte-string keys, cut into segments so
//! that work on keys of different segments does not meet.
//!
//! A key goes to the segment that the top bits of its hash select, and,
//! inside the segment, to the bucket of all keys with its hash.

use crate::gumshoe::bytes_eq;
use std::collections::HashMap;
use vstd::prelude::*;

verus! {

broadcast use vstd::std_specs::hash::group_hash_axioms;

/// Capacity of a map made with `new`.
pub const DEFAULT_INITIAL_CAPACITY: usize = 64;

/// Segments of a map made without a concurrency level.
pub const DEFAULT_SEGMENT_COUNT: usize = 16;

/// The SeaHash of `bytes` under the seed `(a, b, c, d)`.
pub uninterp spec fn seahash_seeded_of(bytes: Seq<u8>, a: u64, b: u64, c: u64, d: u64) -> u64;

/// Taken on trust of `seahash::hash_seeded`: its result is a function of
/// the bytes and the four seed words alone.
pub assume_specification[ seahash::hash_seeded ](buf: &[u8], a: u64, b: u64, c: u64, d: u64) -> (h:
    u64)
    ensures
        h == seahash_seeded_of(buf@, a, b, c, d),
;

/// The seed under which a map hashes its keys.
#[derive(Clone, Copy, Debug, PartialEq, Eq, Structural)]
pub struct SeaHashBuilder {
    /// First seed word.
    pub a: u64,
    /// Second seed word.
    pub b: u64,
    /// Third seed word.
    pub c: u64,
    /// Fourth seed word.
    pub d: u64,
}

impl SeaHashBuilder {
    /// The seed that SeaHash uses when it is given none.
    pub open spec fn standard() -> SeaHashBuilder {
        SeaHashBuilder {
            a: 0x16f11fe89b0d677c,
            b: 0xb480a793d8e6c86c,
            c: 0x6fe2e5aaf078ebc9,
            d: 0x14f994a4c5259381,
        }
    }

    /// The hash of `key` under this seed.
    pub open spec fn hash_of(&self, key: Seq<u8>) -> u64 {
        seahash_seeded_of(key, self.a, self.b, self.c, self.d)
    }

    /// The hash of `key` under this seed.
    pub fn hash(&self, key: &[u8]) -> (h: u64)
        ensures
            h == self.hash_of(key@),
    {
        seahash::hash_seeded(key, self.a, self.b, self.c, self.d)
    }
}

impl Default for SeaHashBuilder {
    /// The standard seed.
    fn default() -> (r: SeaHashBuilder)
        ensures
            r == SeaHashBuilder::standard(),
    {
        SeaHashBuilder {
            a: 0x16f11fe89b0d677c,
            b: 0xb480a793d8e6c86c,
            c: 0x6fe2e5aaf078ebc9,
            d: 0x14f994a4c5259381,
        }
    }
}

/// The first number in `from`, `2 * from`, `4 * from`, ... that is
/// `concurrency_level` at least, or, if the machine cannot count that far,
/// the last it can count.
pub open spec fn segments_from(concurrency_level: nat, from: nat) -> nat
    decreases usize::MAX - from,
{
    if from >= concurrency_level || from == 0 || from > usize::MAX / 2 {
        from
    } else {
        segments_from(concurrency_level, 2 * from)
    }
}

/// The number of segments that a concurrency level asks for: the least
/// power of two that is the level at least, or the greatest power of two
/// that the machine can count.
pub open spec fn segment_count_for(concurrency_level: usize) -> nat {
    segments_from(concurrency_level as nat, 1)
}

fn segments_for(concurrency_level: usize) -> (count: usize)
    ensures
        count == segment_count_for(concurrency_level),
        count >= 1,
{
    let mut count: usize = 1;
    while count < concurrency_level && count <= usize::MAX / 2
        invariant
            count >= 1,
            segments_from(concurrency_level as nat, count as nat) == segment_count_for(
                concurrency_level,
            ),
        decreases usize::MAX - count,
    {
        count = count * 2;
    }
    count
}

/// The default level asks for as many segments as it says.
proof fn lemma_default_segments()
    ensures
        segment_count_for(DEFAULT_SEGMENT_COUNT) == DEFAULT_SEGMENT_COUNT,
{
    reveal_with_fuel(segments_from, 6);
}

/// A segment index is below the number of segments.
proof fn lemma_segment_in_range(hash: u64, segments: usize)
    requires
        segments >= 1,
    ensures
        segment_for(hash, segments) < segments,
{
    let bits = (segments as u64).trailing_zeros();
    if !(bits == 0 || bits >= 64) {
        let shift: u64 = (64 - bits) as u64;
        let mask: u64 = (segments - 1) as u64;
        let index: u64 = (hash >> shift) & mask;
        assert(index <= mask) by (bit_vector)
            requires
                index == (hash >> shift) & mask,
        ;
    }
}

/// The entries of a segment that share a hash.
pub type Bucket<V> = Vec<(Vec<u8>, V)>;

/// Whether entry `j` is the first of `bucket` with `key`.
pub open spec fn is_first_in<V>(bucket: Seq<(Vec<u8>, V)>, key: Seq<u8>, j: int) -> bool {
    &&& 0 <= j < bucket.len()
    &&& bucket[j].0@ == key
    &&& forall|i: int| 0 <= i < j ==> bucket[i].0@ != key
}

/// Whether `bucket` has an entry with `key`.
pub open spec fn holds<V>(bucket: Seq<(Vec<u8>, V)>, key: Seq<u8>) -> bool {
    exists|j: int| is_first_in(bucket, key, j)
}

/// The value that `bucket` has for `key`.
pub open spec fn value_in<V>(bucket: Seq<(Vec<u8>, V)>, key: Seq<u8>) -> V {
    bucket[choose|j: int| is_first_in(bucket, key, j)].1
}

/// The index of the first entry of `bucket` with `key`.
fn find_in<V>(bucket: &Vec<(Vec<u8>, V)>, key: &[u8]) -> (r: Option<usize>)
    ensures
        match r {
            Some(j) => is_first_in(bucket@, key@, j as int),
            None => !holds(bucket@, key@),
        },
{
    let mut j: usize = 0;
    while j < bucket.len()
        invariant
            j <= bucket@.len(),
            forall|i: int| 0 <= i < j ==> bucket@[i].0@ != key@,
        decreases bucket@.len() - j,
    {
        if bytes_eq(bucket[j].0.as_slice(), key) {
            return Some(j);
        }
        j += 1;
    }
    None
}

/// A map from byte strings to values.
pub struct ConcurrentHashMap<V> {
    segments: Vec<HashMap<u64, Vec<(Vec<u8>, V)>>>,
    hash_builder: SeaHashBuilder,
}

/// The segment, of `segments` many, for keys with `hash`: the top bits of
/// the hash, as many as it takes to number the segments.
pub open spec fn segment_for(hash: u64, segments: usize) -> usize {
    let bits = (segments as u64).trailing_zeros();
    if bits == 0 || bits >= 64 {
        0
    } else {
        ((hash >> ((64 - bits) as u64)) & ((segments - 1) as u64)) as usize
    }
}

impl<V> ConcurrentHashMap<V> {
    /// The number of segments.
    pub closed spec fn spec_segment_count(&self) -> usize {
        self.segments@.len() as usize
    }

    /// The number of segments.
    #[verifier::when_used_as_spec(spec_segment_count)]
    pub fn segment_count(&self) -> (count: usize)
        ensures
            count == self.spec_segment_count(),
    {
        self.segments.len()
    }

    /// The seed under which keys are hashed.
    pub closed spec fn hash_builder(&self) -> SeaHashBuilder {
        self.hash_builder
    }

    /// A map has one segment at least.
    pub closed spec fn wf(&self) -> bool {
        self.segments@.len() >= 1
    }

    /// The bucket that holds the entries of keys that hash like `key`.
    spec fn bucket(&self, key: Seq<u8>) -> Seq<(Vec<u8>, V)> {
        let hash = self.hash_builder.hash_of(key);
        let segment = self.segments@[segment_for(hash, self.segments@.len() as usize) as int]@;
        if segment.contains_key(hash) {
            segment[hash]@
        } else {
            Seq::empty()
        }
    }

    /// The keys of the map, each with its value.
    pub closed spec fn view(&self) -> Map<Seq<u8>, V> {
        Map::new(
            |key: Seq<u8>| holds(self.bucket(key), key),
            |key: Seq<u8>| value_in(self.bucket(key), key),
        )
    }

    /// An empty map of `DEFAULT_SEGMENT_COUNT` segments that hashes under
    /// the standard seed.
    pub fn new() -> (r: ConcurrentHashMap<V>)
        ensures
            r.wf(),
            r@ == Map::<Seq<u8>, V>::empty(),
            r.segment_count() == DEFAULT_SEGMENT_COUNT,
            r.hash_builder() == SeaHashBuilder::standard(),
    {
        let r = ConcurrentHashMap::with_capacity_and_hasher_and_concurrency_level(
            DEFAULT_INITIAL_CAPACITY,
            SeaHashBuilder::default(),
            DEFAULT_SEGMENT_COUNT,
        );
        proof {
            lemma_default_segments();
        }
        r
    }

    /// An empty map with room for `capacity` entries that hashes under
    /// `hash_builder`. It has as many segments as `concurrency_level` asks
    /// for, and each gets its share of the capacity.
    pub fn with_capacity_and_hasher_and_concurrency_level(
        capacity: usize,
        hash_builder: SeaHashBuilder,
        concurrency_level: usize,
    ) -> (r: ConcurrentHashMap<V>)
        ensures
            r.wf(),
            r@ == Map::<Seq<u8>, V>::empty(),
            r.segment_count() == segment_count_for(concurrency_level),
            r.hash_builder() == hash_builder,
    {
        let concurrency_level: usize = segments_for(concurrency_level);
        let per_segment_capacity: usize = capacity / concurrency_level;
        let mut segments: Vec<HashMap<u64, Vec<(Vec<u8>, V)>>> = Vec::new();
        let mut made: usize = 0;
        while made < concurrency_level
            invariant
                made <= concurrency_level,
                segments@.len() == made,
                forall|i: int| 0 <= i < made ==> (#[trigger] segments@[i])@ == Map::<
                    u64,
                    Vec<(Vec<u8>, V)>,
                >::empty(),
            decreases concurrency_level - made,
        {
            segments.push(HashMap::with_capacity(per_segment_capacity));
            made += 1;
        }
        let r = ConcurrentHashMap { hash_builder, segments };
        proof {
            assert forall|key: Seq<u8>| !holds(r.bucket(key), key) by {
                lemma_segment_in_range(r.hash_builder.hash_of(key), r.segments@.len() as usize);
            }
        }
        r
    }

    fn hash(&self, key: &[u8]) -> (h: u64)
        ensures
            h == self.hash_builder.hash_of(key@),
    {
        self.hash_builder.hash(key)
    }

    fn get_segment(&self, hash: u64) -> (index: usize)
        requires
            self.wf(),
        ensures
            index == segment_for(hash, self.segments@.len() as usize),
            index < self.segments@.len(),
    {
        let count: usize = self.segments.len();
        let bits: u32 = (count as u64).trailing_zeros();
        if bits == 0 || bits >= 64 {
            0
        } else {
            let shift_size: u64 = (64 - bits) as u64;
            let mask: u64 = (count - 1) as u64;
            let index: u64 = (hash >> shift_size) & mask;
            assert(index <= mask) by (bit_vector)
                requires
                    index == (hash >> shift_size) & mask,
            ;
            index as usize
        }
    }

    /// Whether the map has an entry for `key`.
    pub fn contains(&self, key: &[u8]) -> (r: bool)
        requires
            self.wf(),
        ensures
            r == self@.contains_key(key@),
    {
        let hash: u64 = self.hash(key);
        let segment_index: usize = self.get_segment(hash);
        match self.segments[segment_index].get(&hash) {
            Some(bucket) => find_in(bucket, key).is_some(),
            None => false,
        }
    }

    /// The value of `key`, if the map has one.
    pub fn get(&self, key: &[u8]) -> (r: Option<&V>)
        requires
            self.wf(),
        ensures
            match r {
                Some(value) => self@.contains_key(key@) && *value == self@[key@],
                None => !self@.contains_key(key@),
            },
    {
        let hash: u64 = self.hash(key);
        let segment_index: usize = self.get_segment(hash);
        match self.segments[segment_index].get(&hash) {
            Some(bucket) => match find_in(bucket, key) {
                Some(j) => {
                    proof {
                        lemma_first_is_chosen(bucket@, key@, j as int);
                    }
                    Some(&bucket[j].1)
                },
                None => None,
            },
            None => None,
        }
    }

    /// Gives `key` the value `value`. Returns the value that `key` had
    /// before, if it had one.
    pub fn insert(&mut self, key: Vec<u8>, value: V) -> (r: Option<V>)
        requires
            old(self).wf(),
        ensures
            final(self).wf(),
            final(self).segment_count() == old(self).segment_count(),
            final(self).hash_builder() == old(self).hash_builder(),
            final(self)@ == old(self)@.insert(key@, value),
            match r {
                Some(before) => old(self)@.contains_key(key@) && before == old(self)@[key@],
                None => !old(self)@.contains_key(key@),
            },
    {
        let hash: u64 = self.hash(key.as_slice());
        let segment_index: usize = self.get_segment(hash);
        let ghost count: usize = self.segments.len();
        let ghost before: Seq<(Vec<u8>, V)> = self.bucket(key@);
        let ghost name: Seq<u8> = key@;
        let mut bucket: Vec<(Vec<u8>, V)> = match self.segments[segment_index].remove(&hash) {
            Some(bucket) => bucket,
            None => Vec::new(),
        };
        let previous: Option<V> = match find_in(&bucket, key.as_slice()) {
            Some(j) => {
                let (held, previous): (Vec<u8>, V) = bucket.remove(j);
                bucket.insert(j, (held, value));
                proof {
                    lemma_first_is_chosen(before, name, j as int);
                    lemma_replaced(before, bucket@, name, j as int);
                }
                Some(previous)
            },
            None => {
                bucket.push((key, value));
                proof {
                    lemma_pushed(before, bucket@, name);
                }
                None
            },
        };
        let ghost after: Seq<(Vec<u8>, V)> = bucket@;
        self.segments[segment_index].insert(hash, bucket);
        proof {
            assert(self.segments@.len() == count);
            assert forall|other: Seq<u8>|
                #![trigger self.bucket(other)]
                self.bucket(other) == if old(self).hash_builder.hash_of(other) == hash {
                    after
                } else {
                    old(self).bucket(other)
                } by {
                lemma_segment_in_range(
                    old(self).hash_builder.hash_of(other),
                    self.segments@.len() as usize,
                );
            }
            assert forall|other: Seq<u8>| self@.contains_key(other) implies #[trigger] self@[other]
                == old(self)@.insert(name, value)[other] by {}
        }
        previous
    }
}

/// The first entry with a key is the one whose value the map reports.
proof fn lemma_first_is_chosen<V>(bucket: Seq<(Vec<u8>, V)>, key: Seq<u8>, j: int)
    requires
        is_first_in(bucket, key, j),
    ensures
        holds(bucket, key),
        value_in(bucket, key) == bucket[j].1,
{
}

/// A new value for entry `j`, which is the first with `key`: `key` gets
/// the new value and every other key keeps what it had.
proof fn lemma_replaced<V>(
    before: Seq<(Vec<u8>, V)>,
    after: Seq<(Vec<u8>, V)>,
    key: Seq<u8>,
    j: int,
)
    requires
        is_first_in(before, key, j),
        after.len() == before.len(),
        after[j].0@ == key,
        forall|i: int| 0 <= i < before.len() && i != j ==> after[i] == before[i],
    ensures
        holds(after, key),
        value_in(after, key) == after[j].1,
        forall|other: Seq<u8>|
            other != key ==> (#[trigger] holds(after, other) == holds(before, other)),
        forall|other: Seq<u8>|
            other != key && holds(before, other) ==> #[trigger] value_in(after, other)
                == value_in(before, other),
{
    lemma_first_is_chosen(after, key, j);
    assert forall|other: Seq<u8>| other != key implies (#[trigger] holds(after, other) == holds(
        before,
        other,
    )) by {
        if holds(after, other) {
            let c = choose|c: int| is_first_in(after, other, c);
            assert(is_first_in(before, other, c));
        }
        if holds(before, other) {
            let c = choose|c: int| is_first_in(before, other, c);
            assert(is_first_in(after, other, c));
        }
    }
    assert forall|other: Seq<u8>| other != key && holds(before, other) implies #[trigger] value_in(
        after,
        other,
    ) == value_in(before, other) by {
        let c = choose|c: int| is_first_in(before, other, c);
        lemma_first_is_chosen(after, other, c);
    }
}

/// A new entry behind a bucket that has none with `key`: `key` gets the
/// entry's value and every other key keeps what it had.
proof fn lemma_pushed<V>(before: Seq<(Vec<u8>, V)>, after: Seq<(Vec<u8>, V)>, key: Seq<u8>)
    requires
        !holds(before, key),
        after.len() == before.len() + 1,
        after.last().0@ == key,
        forall|i: int| 0 <= i < before.len() ==> after[i] == before[i],
    ensures
        holds(after, key),
        value_in(after, key) == after.last().1,
        forall|other: Seq<u8>|
            other != key ==> (#[trigger] holds(after, other) == holds(before, other)),
        forall|other: Seq<u8>|
            other != key && holds(before, other) ==> #[trigger] value_in(after, other)
                == value_in(before, other),
{
    assert forall|i: int| 0 <= i < before.len() implies before[i].0@ != key by {
        if before[i].0@ == key {
            lemma_has_first(before, key, i);
        }
    }
    lemma_first_is_chosen(after, key, before.len() as int);
    assert forall|other: Seq<u8>| other != key implies (#[trigger] holds(after, other) == holds(
        before,
        other,
    )) by {
        if holds(after, other) {
            let c = choose|c: int| is_first_in(after, other, c);
            assert(is_first_in(before, other, c));
        }
        if holds(before, other) {
            let c = choose|c: int| is_first_in(before, other, c);
            assert(is_first_in(after, other, c));
        }
    }
    assert forall|other: Seq<u8>| other != key && holds(before, other) implies #[trigger] value_in(
        after,
        other,
    ) == value_in(before, other) by {
        let c = choose|c: int| is_first_in(before, other, c);
        lemma_first_is_chosen(after, other, c);
    }
}

/// A bucket with an entry for `key` has a first such entry.
proof fn lemma_has_first<V>(bucket: Seq<(Vec<u8>, V)>, key: Seq<u8>, i: int)
    requires
        0 <= i < bucket.len(),
        bucket[i].0@ == key,
    ensures
        holds(bucket, key),
    decreases i,
{
    if exists|k: int| 0 <= k < i && bucket[k].0@ == key {
        let k = choose|k: int| 0 <= k < i && bucket[k].0@ == key;
        lemma_has_first(bucket, key, k);
    } else {
        assert(is_first_in(bucket, key, i));
    }
}

/// A set of byte strings.
pub struct ConcurrentHashSet {
    table: ConcurrentHashMap<()>,
}

impl ConcurrentHashSet {
    /// The set is in order.
    pub closed spec fn wf(&self) -> bool {
        self.table.wf()
    }

    /// The byte strings of the set.
    pub closed spec fn view(&self) -> Set<Seq<u8>> {
        self.table@.dom()
    }

    /// The number of segments.
    pub closed spec fn spec_segment_count(&self) -> usize {
        self.table.spec_segment_count()
    }

    /// The number of segments.
    #[verifier::when_used_as_spec(spec_segment_count)]
    pub fn segment_count(&self) -> (count: usize)
        ensures
            count == self.spec_segment_count(),
    {
        self.table.segment_count()
    }

    /// The seed under which keys are hashed.
    pub closed spec fn hash_builder(&self) -> SeaHashBuilder {
        self.table.hash_builder()
    }

    /// An empty set of `DEFAULT_SEGMENT_COUNT` segments that hashes under
    /// the standard seed.
    pub fn new() -> (r: ConcurrentHashSet)
        ensures
            r.wf(),
            r@ == Set::<Seq<u8>>::empty(),
            r.segment_count() == DEFAULT_SEGMENT_COUNT,
            r.hash_builder() == SeaHashBuilder::standard(),
    {
        let r = ConcurrentHashSet { table: ConcurrentHashMap::new() };
        r
    }

    /// An empty set with room for `capacity` keys, of
    /// `DEFAULT_SEGMENT_COUNT` segments.
    pub fn with_capacity(capacity: usize) -> (r: ConcurrentHashSet)
        ensures
            r.wf(),
            r@ == Set::<Seq<u8>>::empty(),
            r.segment_count() == DEFAULT_SEGMENT_COUNT,
            r.hash_builder() == SeaHashBuilder::standard(),
    {
        proof {
            lemma_default_segments();
        }
        ConcurrentHashSet::with_capacity_and_hasher_and_concurrency_level(
            capacity,
            SeaHashBuilder::default(),
            DEFAULT_SEGMENT_COUNT,
        )
    }

    /// An empty set with room for `capacity` keys and as many segments as
    /// `concurrency_level` asks for.
    pub fn with_capacity_and_concurrency_level(capacity: usize, concurrency_level: usize) -> (r:
        ConcurrentHashSet)
        ensures
            r.wf(),
            r@ == Set::<Seq<u8>>::empty(),
            r.segment_count() == segment_count_for(concurrency_level),
            r.hash_builder() == SeaHashBuilder::standard(),
    {
        ConcurrentHashSet::with_capacity_and_hasher_and_concurrency_level(
            capacity,
            SeaHashBuilder::default(),
            concurrency_level,
        )
    }

    /// Puts `key` into the set. Returns `true` if it was not there before.
    pub fn insert(&mut self, key: Vec<u8>) -> (r: bool)
        requires
            old(self).wf(),
        ensures
            final(self).wf(),
            final(self).segment_count() == old(self).segment_count(),
            final(self).hash_builder() == old(self).hash_builder(),
            r == !old(self)@.contains(key@),
            final(self)@ == old(self)@.insert(key@),
    {
        let r: bool = self.table.insert(key, ()).is_none();
        r
    }

    /// Whether `key` is in the set.
    pub fn contains(&self, key: &[u8]) -> (r: bool)
        requires
            self.wf(),
        ensures
            r == self@.contains(key@),
    {
        self.table.contains(key)
    }

    /// An empty set with room for `capacity` keys that hashes under
    /// `hash_builder`, of `DEFAULT_SEGMENT_COUNT` segments.
    pub fn with_capacity_and_hasher(capacity: usize, hash_builder: SeaHashBuilder) -> (r:
        ConcurrentHashSet)
        ensures
            r.wf(),
            r@ == Set::<Seq<u8>>::empty(),
            r.segment_count() == DEFAULT_SEGMENT_COUNT,
            r.hash_builder() == hash_builder,
    {
        proof {
            lemma_default_segments();
        }
        ConcurrentHashSet::with_capacity_and_hasher_and_concurrency_level(
            capacity,
            hash_builder,
            DEFAULT_SEGMENT_COUNT,
        )
    }

    /// An empty set with room for `capacity` keys that hashes under
    /// `hash_builder` and has as many segments as `concurrency_level` asks
    /// for.
    pub fn with_capacity_and_hasher_and_concurrency_level(
        capacity: usize,
        hash_builder: SeaHashBuilder,
        concurrency_level: usize,
    ) -> (r: ConcurrentHashSet)
        ensures
            r.wf(),
            r@ == Set::<Seq<u8>>::empty(),
            r.segment_count() == segment_count_for(concurrency_level),
            r.hash_builder() == hash_builder,
    {
        let r = ConcurrentHashSet {
            table: ConcurrentHashMap::with_capacity_and_hasher_and_concurrency_level(
                capacity,
                hash_builder,
                concurrency_level,
            ),
        };
        r
    }
}

impl<V> Default for ConcurrentHashMap<V> {
    /// The map that `new` makes.
    fn default() -> (r: ConcurrentHashMap<V>)
        ensures
            r.wf(),
            r@ == Map::<Seq<u8>, V>::empty(),
            r.segment_count() == DEFAULT_SEGMENT_COUNT,
            r.hash_builder() == SeaHashBuilder::standard(),
    {
        ConcurrentHashMap::new()
    }
}

impl Default for ConcurrentHashSet {
    /// The set that `new` makes.
    fn default() -> (r: ConcurrentHashSet)
        ensures
            r.wf(),
            r@ == Set::<Seq<u8>>::empty(),
            r.segment_count() == DEFAULT_SEGMENT_COUNT,
            r.hash_builder() == SeaHashBuilder::standard(),
    {
        ConcurrentHashSet::new()
    }
}

} // verus!
