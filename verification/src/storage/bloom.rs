//! Bloom filters: a set of keys that may claim too many members, never too few.
use vstd::prelude::*;

verus! {

/// How many bits a filter has for each key that it is made for.
pub const DEFAULT_BITS_PER_KEY: u64 = 10;

/// How many bits a key sets in a new filter.
pub const DEFAULT_HASH_COUNT: u32 = 7;

/// How many bits a new filter has at least.
pub const MIN_BITS: u64 = 64;

/// Where the first hash of a key starts.
pub const FIRST_SEED: u64 = 0xcbf2_9ce4_8422_2325;

/// Where the second hash of a key starts.
pub const SECOND_SEED: u64 = 0x9e37_79b9_7f4a_7c15;

/// What each step of a hash multiplies by.
pub const HASH_PRIME: u64 = 0x0000_0100_0000_01b3;

/// A filter as contracts speak of it.
pub struct FilterView {
    pub bit_len: u64,
    pub hash_count: u32,
    pub bits: Seq<u8>,
}

impl FilterView {
    /// There is a bit and a hash, and exactly the bytes that the bits need.
    pub open spec fn wf(self) -> bool {
        &&& self.bit_len > 0
        &&& self.hash_count > 0
        &&& self.bits.len() == bytes_for(self.bit_len)
    }
}

/// How many bytes hold so many bits.
pub open spec fn bytes_for(bit_len: u64) -> nat {
    ((bit_len + 7) / 8) as nat
}

/// The hash of a byte string from a seed.
pub open spec fn hash_spec(bytes: Seq<u8>, seed: u64) -> u64
    decreases bytes.len(),
{
    if bytes.len() == 0 {
        seed
    } else {
        (hash_spec(bytes.drop_last(), seed) ^ (bytes.last() as u64)).wrapping_mul(HASH_PRIME)
    }
}

/// The bit that a key's hash number `i` stands for.
pub open spec fn bit_index(key: Seq<u8>, i: u64, bit_len: u64) -> u64 {
    hash_spec(key, FIRST_SEED).wrapping_add(
        i.wrapping_mul(hash_spec(key, SECOND_SEED) | 1),
    ) % bit_len
}

/// The bits that a key stands for.
pub open spec fn bit_indices_spec(key: Seq<u8>, hash_count: u32, bit_len: u64) -> Seq<u64> {
    Seq::new(hash_count as nat, |i: int| bit_index(key, i as u64, bit_len))
}

/// Whether a bit is set.
pub open spec fn bit_is_set(bits: Seq<u8>, index: u64) -> bool {
    bits[(index / 8) as int] & (1u8 << ((index % 8) as u32)) != 0
}

/// Bytes after one bit was set.
pub open spec fn with_bit(bits: Seq<u8>, index: u64) -> Seq<u8> {
    bits.update(
        (index / 8) as int,
        bits[(index / 8) as int] | (1u8 << ((index % 8) as u32)),
    )
}

/// Bytes after some bits were set.
pub open spec fn with_bits(bits: Seq<u8>, indices: Seq<u64>) -> Seq<u8>
    decreases indices.len(),
{
    if indices.len() == 0 {
        bits
    } else {
        with_bit(with_bits(bits, indices.drop_last()), indices.last())
    }
}

/// A filter after a key was put in.
pub open spec fn insert_spec(filter: FilterView, key: Seq<u8>) -> FilterView {
    FilterView {
        bits: with_bits(filter.bits, bit_indices_spec(key, filter.hash_count, filter.bit_len)),
        ..filter
    }
}

/// Whether a filter claims a key: all bits of the key are set.
pub open spec fn might_contain_spec(filter: FilterView, key: Seq<u8>) -> bool {
    forall|i: int|
        0 <= i < filter.hash_count ==> bit_is_set(
            filter.bits,
            #[trigger] bit_index(key, i as u64, filter.bit_len),
        )
}

/// How many bits a filter for so many keys has.
pub open spec fn bits_for(expected_items: nat) -> u64 {
    let wanted = expected_items * DEFAULT_BITS_PER_KEY;
    if wanted > u64::MAX {
        u64::MAX
    } else if wanted < MIN_BITS {
        MIN_BITS
    } else {
        wanted as u64
    }
}

/// A filter for so many keys, before any was put in.
pub open spec fn new_spec(expected_items: nat) -> FilterView {
    FilterView {
        bit_len: bits_for(expected_items),
        hash_count: DEFAULT_HASH_COUNT,
        bits: Seq::new(bytes_for(bits_for(expected_items)), |i: int| 0u8),
    }
}

/// The hash of a byte string from a seed.
fn hash_with_seed(bytes: &[u8], seed: u64) -> (hash: u64)
    ensures
        hash == hash_spec(bytes@, seed),
{
    let mut hash: u64 = seed;
    let mut i: usize = 0;
    assert(bytes@.take(0) =~= Seq::empty());
    while i < bytes.len()
        invariant
            i <= bytes.len(),
            hash == hash_spec(bytes@.take(i as int), seed),
        decreases bytes.len() - i,
    {
        assert(bytes@.take(i + 1).drop_last() =~= bytes@.take(i as int));
        hash = hash ^ (bytes[i] as u64);
        hash = hash.wrapping_mul(HASH_PRIME);
        i += 1;
    }
    assert(bytes@.take(i as int) =~= bytes@);
    hash
}

/// A set of keys that claims every key that was put in, and now and then one
/// that was not.
#[derive(Clone, Debug, PartialEq, Eq)]
pub struct BloomFilter {
    bit_len: u64,
    hash_count: u32,
    bits: Vec<u8>,
}

impl View for BloomFilter {
    type V = FilterView;

    closed spec fn view(&self) -> FilterView {
        FilterView { bit_len: self.bit_len, hash_count: self.hash_count, bits: self.bits@ }
    }
}

impl BloomFilter {
    /// There is a bit and a hash, and exactly the bytes that the bits need.
    pub open spec fn wf(&self) -> bool {
        self@.wf()
    }

    /// An empty filter for so many keys.
    pub fn new(expected_items: usize) -> (filter: Self)
        requires
            bytes_for(bits_for(expected_items as nat)) <= usize::MAX,
        ensures
            filter.wf(),
            filter@ == new_spec(expected_items as nat),
    {
        let items = expected_items as u64;
        let wanted: u64 = if items > u64::MAX / DEFAULT_BITS_PER_KEY {
            u64::MAX
        } else {
            items * DEFAULT_BITS_PER_KEY
        };
        let bit_len: u64 = if wanted < MIN_BITS {
            MIN_BITS
        } else {
            wanted
        };
        let byte_len: u64 = Self::byte_len(bit_len);
        let filter = BloomFilter {
            bit_len,
            hash_count: DEFAULT_HASH_COUNT,
            bits: vec![0u8; byte_len as usize],
        };
        assert(filter.bits@ =~= Seq::new(bytes_for(bit_len), |i: int| 0u8));
        filter
    }

    /// How many bytes hold so many bits.
    fn byte_len(bit_len: u64) -> (bytes: u64)
        ensures
            bytes == bytes_for(bit_len),
    {
        if bit_len % 8 == 0 {
            bit_len / 8
        } else {
            bit_len / 8 + 1
        }
    }

    /// The filter that has these parts, if they fit together.
    pub fn from_parts(bit_len: u64, hash_count: u32, bits: Vec<u8>) -> (filter: Option<Self>)
        ensures
            filter is Some <==> (FilterView { bit_len, hash_count, bits: bits@ }).wf(),
            filter is Some ==> filter->0@ == (FilterView { bit_len, hash_count, bits: bits@ }),
    {
        if bit_len == 0 || hash_count == 0 || bits.len() as u64 != Self::byte_len(bit_len) {
            return None;
        }
        Some(BloomFilter { bit_len, hash_count, bits })
    }

    /// Puts a key in.
    pub fn insert(&mut self, key: &[u8])
        requires
            old(self).wf(),
        ensures
            final(self).wf(),
            final(self)@ == insert_spec(old(self)@, key@),
    {
        let indices = self.bit_indices(key);
        let ghost before = self@;
        let mut i: usize = 0;
        assert(indices@.take(0) =~= Seq::empty());
        while i < indices.len()
            invariant
                i <= indices.len(),
                before.wf(),
                self.wf(),
                self@ == (FilterView {
                    bits: with_bits(before.bits, indices@.take(i as int)),
                    ..before
                }),
                forall|j: int| 0 <= j < indices.len() ==> #[trigger] indices@[j] < before.bit_len,
            decreases indices.len() - i,
        {
            assert(indices@.take(i + 1).drop_last() =~= indices@.take(i as int));
            self.set_bit(indices[i]);
            i += 1;
        }
        assert(indices@.take(i as int) =~= indices@);
    }

    /// Whether a key may have been put in.
    pub fn might_contain(&self, key: &[u8]) -> (yes: bool)
        requires
            self.wf(),
        ensures
            yes == might_contain_spec(self@, key@),
    {
        let indices = self.bit_indices(key);
        let mut i: usize = 0;
        while i < indices.len()
            invariant
                i <= indices.len(),
                self.wf(),
                indices@ == bit_indices_spec(key@, self@.hash_count, self@.bit_len),
                forall|j: int| 0 <= j < indices.len() ==> #[trigger] indices@[j] < self@.bit_len,
                forall|j: int|
                    0 <= j < i ==> bit_is_set(
                        self@.bits,
                        #[trigger] bit_index(key@, j as u64, self@.bit_len),
                    ),
            decreases indices.len() - i,
        {
            assert(indices@[i as int] == bit_index(key@, i as u64, self@.bit_len));
            if !self.is_bit_set(indices[i]) {
                return false;
            }
            i += 1;
        }
        true
    }

    /// How many bits the filter has.
    pub fn bit_len(&self) -> (n: u64)
        ensures
            n == self@.bit_len,
    {
        self.bit_len
    }

    /// How many bits a key sets.
    pub fn hash_count(&self) -> (n: u32)
        ensures
            n == self@.hash_count,
    {
        self.hash_count
    }

    /// The bits, eight to a byte, lowest first.
    pub fn bits(&self) -> (bits: &[u8])
        ensures
            bits@ == self@.bits,
    {
        self.bits.as_slice()
    }

    /// The bits that a key stands for.
    fn bit_indices(&self, key: &[u8]) -> (indices: Vec<u64>)
        requires
            self.wf(),
        ensures
            indices@ == bit_indices_spec(key@, self@.hash_count, self@.bit_len),
            forall|j: int| 0 <= j < indices.len() ==> #[trigger] indices@[j] < self@.bit_len,
    {
        let h1 = hash_with_seed(key, FIRST_SEED);
        let h2 = hash_with_seed(key, SECOND_SEED) | 1;
        let mut indices: Vec<u64> = Vec::new();
        let mut i: u32 = 0;
        while i < self.hash_count
            invariant
                i <= self.hash_count,
                self.wf(),
                h1 == hash_spec(key@, FIRST_SEED),
                h2 == hash_spec(key@, SECOND_SEED) | 1,
                indices.len() == i,
                forall|j: int|
                    0 <= j < i ==> #[trigger] indices@[j] == bit_index(
                        key@,
                        j as u64,
                        self@.bit_len,
                    ) && indices@[j] < self@.bit_len,
            decreases self.hash_count - i,
        {
            indices.push(h1.wrapping_add((i as u64).wrapping_mul(h2)) % self.bit_len);
            i += 1;
        }
        assert(indices@ =~= bit_indices_spec(key@, self@.hash_count, self@.bit_len));
        indices
    }

    /// Sets a bit.
    fn set_bit(&mut self, bit_index: u64)
        requires
            old(self).wf(),
            bit_index < old(self)@.bit_len,
        ensures
            final(self).wf(),
            final(self)@ == (FilterView { bits: with_bit(old(self)@.bits, bit_index), ..old(self)@ }),
    {
        assert(bit_index / 8 < self.bits.len());
        let byte_index = (bit_index / 8) as usize;
        let shift: u32 = (bit_index % 8) as u32;
        let bit_mask: u8 = 1u8 << shift;
        let byte: u8 = self.bits[byte_index];
        self.bits[byte_index] = byte | bit_mask;
        assert(self@.bits =~= with_bit(old(self)@.bits, bit_index));
    }

    /// Whether a bit is set.
    fn is_bit_set(&self, bit_index: u64) -> (yes: bool)
        requires
            self.wf(),
            bit_index < self@.bit_len,
        ensures
            yes == bit_is_set(self@.bits, bit_index),
    {
        assert(bit_index / 8 < self.bits.len());
        let byte_index = (bit_index / 8) as usize;
        let shift: u32 = (bit_index % 8) as u32;
        let bit_mask: u8 = 1u8 << shift;
        self.bits[byte_index] & bit_mask != 0
    }
}

/// Setting one bit of a byte sets that bit and no other.
proof fn lemma_set_bit_of_byte(byte: u8, set: u32, asked: u32)
    by (bit_vector)
    requires
        set < 8,
        asked < 8,
    ensures
        (byte | (1u8 << set)) & (1u8 << asked) != 0 <==> (byte & (1u8 << asked) != 0 || set
            == asked),
{
}

/// Setting one bit sets that bit and no other.
proof fn lemma_with_bit(bits: Seq<u8>, set: u64, asked: u64)
    requires
        set / 8 < bits.len(),
        asked / 8 < bits.len(),
    ensures
        bit_is_set(with_bit(bits, set), asked) <==> bit_is_set(bits, asked) || set == asked,
{
    lemma_set_bit_of_byte(bits[(set / 8) as int], (set % 8) as u32, (asked % 8) as u32);
}

/// Setting bits sets those and no others.
proof fn lemma_with_bits(bits: Seq<u8>, indices: Seq<u64>, asked: u64)
    requires
        forall|i: int| 0 <= i < indices.len() ==> #[trigger] indices[i] / 8 < bits.len(),
        asked / 8 < bits.len(),
    ensures
        with_bits(bits, indices).len() == bits.len(),
        bit_is_set(with_bits(bits, indices), asked) <==> bit_is_set(bits, asked)
            || indices.contains(asked),
    decreases indices.len(),
{
    if indices.len() > 0 {
        let front = indices.drop_last();
        assert forall|i: int| 0 <= i < front.len() implies #[trigger] front[i] / 8
            < bits.len() by {
            assert(front[i] == indices[i]);
        }
        lemma_with_bits(bits, front, asked);
        assert(indices.last() == indices[indices.len() - 1]);
        assert(indices.last() / 8 < bits.len());
        lemma_with_bit(with_bits(bits, front), indices.last(), asked);
        if front.contains(asked) {
            let i = choose|i: int| 0 <= i < front.len() && front[i] == asked;
            assert(indices[i] == asked);
        }
        if indices.contains(asked) && asked != indices.last() {
            let i = choose|i: int| 0 <= i < indices.len() && indices[i] == asked;
            assert(front[i] == asked);
        }
    }
}

/// What a key changes in a filter: its own bits, and no others.
proof fn lemma_insert_bits(filter: FilterView, key: Seq<u8>, asked: u64)
    requires
        filter.wf(),
        asked < filter.bit_len,
    ensures
        insert_spec(filter, key).wf(),
        bit_is_set(insert_spec(filter, key).bits, asked) <==> bit_is_set(filter.bits, asked)
            || bit_indices_spec(key, filter.hash_count, filter.bit_len).contains(asked),
{
    let indices = bit_indices_spec(key, filter.hash_count, filter.bit_len);
    assert forall|i: int| 0 <= i < indices.len() implies #[trigger] indices[i] / 8
        < filter.bits.len() by {
        assert(indices[i] < filter.bit_len);
    }
    lemma_with_bits(filter.bits, indices, asked);
}

/// A key that was put in is claimed.
pub proof fn law_inserted_key_is_claimed(filter: FilterView, key: Seq<u8>)
    requires
        filter.wf(),
    ensures
        insert_spec(filter, key).wf(),
        might_contain_spec(insert_spec(filter, key), key),
{
    let after = insert_spec(filter, key);
    let indices = bit_indices_spec(key, filter.hash_count, filter.bit_len);
    lemma_insert_bits(filter, key, 0);
    assert forall|i: int| 0 <= i < after.hash_count implies bit_is_set(
        after.bits,
        #[trigger] bit_index(key, i as u64, after.bit_len),
    ) by {
        assert(indices[i] == bit_index(key, i as u64, after.bit_len));
        lemma_insert_bits(filter, key, indices[i]);
    }
}

/// A key that is claimed stays claimed, whatever is put in.
pub proof fn law_claims_are_kept(filter: FilterView, key: Seq<u8>, other: Seq<u8>)
    requires
        filter.wf(),
        might_contain_spec(filter, key),
    ensures
        insert_spec(filter, other).wf(),
        might_contain_spec(insert_spec(filter, other), key),
{
    let after = insert_spec(filter, other);
    lemma_insert_bits(filter, other, 0);
    assert forall|i: int| 0 <= i < after.hash_count implies bit_is_set(
        after.bits,
        #[trigger] bit_index(key, i as u64, after.bit_len),
    ) by {
        lemma_insert_bits(filter, other, bit_index(key, i as u64, after.bit_len));
    }
}

/// The filter of some keys: one made for as many, with each of them put in.
pub open spec fn filter_of(filter: FilterView, keys: Seq<Seq<u8>>) -> FilterView
    decreases keys.len(),
{
    if keys.len() == 0 {
        filter
    } else {
        insert_spec(filter_of(filter, keys.drop_last()), keys.last())
    }
}

/// There are no false negatives: of the keys that were put in, each is claimed.
pub proof fn law_no_false_negatives(filter: FilterView, keys: Seq<Seq<u8>>)
    requires
        filter.wf(),
    ensures
        filter_of(filter, keys).wf(),
        filter_of(filter, keys).bit_len == filter.bit_len,
        filter_of(filter, keys).hash_count == filter.hash_count,
        forall|i: int|
            0 <= i < keys.len() ==> might_contain_spec(
                filter_of(filter, keys),
                #[trigger] keys[i],
            ),
    decreases keys.len(),
{
    if keys.len() > 0 {
        let front = keys.drop_last();
        let before = filter_of(filter, front);
        law_no_false_negatives(filter, front);
        law_inserted_key_is_claimed(before, keys.last());
        assert forall|i: int| 0 <= i < keys.len() implies might_contain_spec(
            filter_of(filter, keys),
            #[trigger] keys[i],
        ) by {
            if i < keys.len() - 1 {
                assert(front[i] == keys[i]);
                law_claims_are_kept(before, keys[i], keys.last());
            }
        }
    }
}

// What the filters are, in numbers.

/// A new filter has ten bits for each key that it is made for and at least 64, seven
/// hashes, as many bytes as the bits need, no bit set, and claims no key.
pub proof fn law_new_filter(expected_items: nat, key: Seq<u8>)
    requires
        10 * expected_items <= 0xffff_ffff_ffff_ffff,
    ensures
        new_spec(expected_items).bit_len == if 10 * expected_items < 64 {
            64
        } else {
            10 * expected_items
        },
        new_spec(expected_items).hash_count == 7,
        8 * (new_spec(expected_items).bits.len() - 1) < new_spec(expected_items).bit_len <= 8
            * new_spec(expected_items).bits.len(),
        forall|i: int|
            0 <= i < new_spec(expected_items).bits.len() ==> #[trigger] new_spec(
                expected_items,
            ).bits[i] == 0,
        !might_contain_spec(new_spec(expected_items), key),
{
    let filter = new_spec(expected_items);
    let first = bit_index(key, 0, filter.bit_len);
    let shift: u32 = (first % 8) as u32;
    assert(filter.bits[(first / 8) as int] == 0);
    assert(0u8 & (1u8 << shift) == 0) by (bit_vector);
    assert(!bit_is_set(filter.bits, bit_index(key, 0int as u64, filter.bit_len)));
}

/// The parts of a filter fit together exactly if there is a bit and a hash, and the
/// bytes are as many as the bits need.
pub proof fn law_parts_of_a_filter(filter: FilterView)
    ensures
        filter.wf() <==> filter.bit_len > 0 && filter.hash_count > 0 && 8 * (filter.bits.len() - 1)
            < filter.bit_len <= 8 * filter.bits.len(),
{
}

/// The hash of a byte string: of none it is the seed, and each further byte is taken in
/// by exclusive or, and the result multiplied by 1099511628211, in 64 bits.
pub proof fn law_hash(bytes: Seq<u8>, byte: u8, seed: u64)
    ensures
        hash_spec(Seq::empty(), seed) == seed,
        hash_spec(bytes.push(byte), seed) == ((hash_spec(bytes, seed) ^ (byte as u64)) as int
            * 1099511628211) % 0x1_0000_0000_0000_0000,
{
    assert(bytes.push(byte).drop_last() =~= bytes);
}

/// The bit of a key's hash number `i`: the first hash, from the seed 14695981039346656037,
/// and `i` times the second, from the seed 11400714819323198485 and made odd, in 64 bits,
/// and then the remainder by the number of bits.
pub proof fn law_bit_of_a_hash(key: Seq<u8>, i: u64, bit_len: u64)
    requires
        bit_len > 0,
    ensures
        ({
            let first = hash_spec(key, 14695981039346656037) as int;
            let second = (hash_spec(key, 11400714819323198485) | 1) as int;
            bit_index(key, i, bit_len) == ((first + (i * second) % 0x1_0000_0000_0000_0000)
                % 0x1_0000_0000_0000_0000) % bit_len as int
        }),
        bit_index(key, i, bit_len) < bit_len,
{
    let first = hash_spec(key, FIRST_SEED);
    let second = hash_spec(key, SECOND_SEED) | 1;
    assert(i.wrapping_mul(second) as int == (i * second) % 0x1_0000_0000_0000_0000);
}

/// A bit is counted from the lowest of each byte on.
pub proof fn law_place_of_a_bit(bits: Seq<u8>, index: u64)
    ensures
        bit_is_set(bits, index) <==> (bits[(index / 8) as int] >> ((index % 8) as u32)) & 1 == 1,
{
    let byte: u8 = bits[(index / 8) as int];
    let shift: u32 = (index % 8) as u32;
    assert(shift < 8);
    assert(byte & (1u8 << shift) != 0 <==> (byte >> shift) & 1 == 1) by (bit_vector)
        requires
            shift < 8,
    ;
}

/// A filter claims a key exactly if the bit of each of the key's hashes is set.
pub proof fn law_claim(filter: FilterView, key: Seq<u8>)
    ensures
        might_contain_spec(filter, key) <==> forall|i: u64|
            0 <= i < filter.hash_count ==> bit_is_set(
                filter.bits,
                #[trigger] bit_index(key, i, filter.bit_len),
            ),
{
    if might_contain_spec(filter, key) {
        assert forall|i: u64| 0 <= i < filter.hash_count implies bit_is_set(
            filter.bits,
            #[trigger] bit_index(key, i, filter.bit_len),
        ) by {
            let at = i as int;
            assert(bit_index(key, at as u64, filter.bit_len) == bit_index(key, i, filter.bit_len));
        }
    }
}

/// Putting a key in sets the bits of its hashes and no others, and keeps the number of
/// bits and of hashes.
pub proof fn law_insert_sets_the_bits_of_the_key(filter: FilterView, key: Seq<u8>, asked: u64)
    requires
        filter.wf(),
        asked < filter.bit_len,
    ensures
        insert_spec(filter, key).bit_len == filter.bit_len,
        insert_spec(filter, key).hash_count == filter.hash_count,
        insert_spec(filter, key).bits.len() == filter.bits.len(),
        bit_is_set(insert_spec(filter, key).bits, asked) <==> bit_is_set(filter.bits, asked) || (
        exists|i: u64|
            0 <= i < filter.hash_count && #[trigger] bit_index(key, i, filter.bit_len) == asked),
{
    let indices = bit_indices_spec(key, filter.hash_count, filter.bit_len);
    lemma_insert_bits(filter, key, asked);
    if indices.contains(asked) {
        let i = choose|i: int| 0 <= i < indices.len() && indices[i] == asked;
        assert(bit_index(key, i as u64, filter.bit_len) == asked);
    }
    if exists|i: u64|
        0 <= i < filter.hash_count && #[trigger] bit_index(key, i, filter.bit_len) == asked {
        let i = choose|i: u64|
            0 <= i < filter.hash_count && #[trigger] bit_index(key, i, filter.bit_len) == asked;
        let at = i as int;
        assert(indices[at] == bit_index(key, at as u64, filter.bit_len));
        assert(indices[at] == asked);
    }
}

/// The filter of keys is the filter of all but the last with the last put in.
pub proof fn law_filter_of_one_more_key(filter: FilterView, keys: Seq<Seq<u8>>, key: Seq<u8>)
    ensures
        filter_of(filter, Seq::empty()) == filter,
        filter_of(filter, keys.push(key)) == insert_spec(filter_of(filter, keys), key),
{
    assert(keys.push(key).drop_last() =~= keys);
}

} // verus!
