//! A Bloom filter: a fixed-size packed bit array with one hash probe per
//! key.  Membership queries have one-sided error: a key that was inserted
//! is always reported present (no false negatives), while a key that was
//! never inserted may still be reported present when another key's hash
//! collides at the same offset.
//!
//! The bit array is `bit_vec::BitVec`; every access goes through the
//! trusted wrappers below, whose contracts speak of the named contents
//! `bits_of`.

use vstd::prelude::*;

use crate::text::{lines_of, split_lines};

verus! {

pub type HashType = u64;

/// Names the value that std's `DefaultHasher` assigns to a string's
/// characters: a fixed function of the characters alone within one
/// process run (it must not be persisted or compared across versions).
pub uninterp spec fn hash_of(word: Seq<char>) -> HashType;

/// Relies on std's `DefaultHasher` (`new`, `Hash for str`, `finish`):
/// a deterministic, non-cryptographic hash of the key.
#[verifier::external_body]
pub fn calc_hash(word: &str) -> (r: HashType)
    ensures
        r == hash_of(word@),
{
    let mut hasher = std::collections::hash_map::DefaultHasher::new();
    std::hash::Hash::hash(word, &mut hasher);
    std::hash::Hasher::finish(&hasher)
}

/// One hash per line of `words`.
pub fn get_hashes(words: &str) -> (r: Vec<HashType>)
    ensures
        r@ =~= lines_of(words@).map_values(|l: Seq<char>| hash_of(l)),
{
    let line_vec = split_lines(words);
    let mut r: Vec<HashType> = Vec::new();
    let mut i: usize = 0;
    while i < line_vec.len()
        invariant
            i <= line_vec@.len(),
            line_vec@.map_values(|l: String| l@) =~= lines_of(words@),
            r@ =~= lines_of(words@).subrange(0, i as int).map_values(
                |l: Seq<char>| hash_of(l),
            ),
        decreases line_vec@.len() - i,
    {
        let h = calc_hash(line_vec[i].as_str());
        r.push(h);
        proof {
            let lines = lines_of(words@);
            assert(line_vec@.map_values(|l: String| l@)[i as int] == lines[i as int]);
            assert(r@ =~= lines.subrange(0, i + 1).map_values(|l: Seq<char>| hash_of(l)));
        }
        i = i + 1;
    }
    proof {
        assert(lines_of(words@).subrange(0, lines_of(words@).len() as int) =~= lines_of(
            words@,
        ));
    }
    r
}

// ---------------------------------------------------------------------
// Trusted view of the packed bit array.
// ---------------------------------------------------------------------

#[verifier::external_type_specification]
#[verifier::external_body]
#[verifier::reject_recursive_types(B)]
pub struct ExBitVec<B>(bit_vec::BitVec<B>);

/// Names the bits that a `bit_vec::BitVec` holds, in index order.
pub uninterp spec fn bits_of(bv: bit_vec::BitVec) -> Seq<bool>;

/// Relies on `bit_vec::BitVec::from_elem`: `len` bits, each set to `bit`.
#[verifier::external_body]
fn bitvec_from_elem(len: usize, bit: bool) -> (r: bit_vec::BitVec)
    ensures
        bits_of(r) == Seq::new(len as nat, |i: int| bit),
{
    bit_vec::BitVec::from_elem(len, bit)
}

/// Relies on `bit_vec::BitVec::set`: writes bit `i`, leaves the others.
#[verifier::external_body]
fn bitvec_set(bv: &mut bit_vec::BitVec, i: usize, x: bool)
    requires
        i < bits_of(*old(bv)).len(),
    ensures
        bits_of(*final(bv)) == bits_of(*old(bv)).update(i as int, x),
{
    bv.set(i, x)
}

/// Relies on `bit_vec::BitVec::get`: `Some` of bit `i` in range, else `None`.
#[verifier::external_body]
fn bitvec_get(bv: &bit_vec::BitVec, i: usize) -> (r: Option<bool>)
    ensures
        r == if i < bits_of(*bv).len() {
            Some(bits_of(*bv)[i as int])
        } else {
            None::<bool>
        },
{
    bv.get(i)
}

/// Relies on `bit_vec::BitVec::len`: the number of bits held.
#[verifier::external_body]
fn bitvec_len(bv: &bit_vec::BitVec) -> (r: usize)
    ensures
        r == bits_of(*bv).len(),
{
    bv.len()
}

// ---------------------------------------------------------------------
// The filter.
// ---------------------------------------------------------------------

/// The bit array that holds exactly the offsets `h % bits_size` of the
/// given hashes.
pub open spec fn filter_bits(bits_size: int, hashes: Seq<HashType>) -> Seq<bool> {
    Seq::new(
        bits_size as nat,
        |i: int| exists|j: int| 0 <= j < hashes.len() && hashes[j] as int % bits_size == i,
    )
}

/// What a membership query reads: the bit at the key's hash offset.
pub open spec fn query(bits: Seq<bool>, word: Seq<char>) -> bool
    recommends
        bits.len() > 0,
{
    bits[hash_of(word) as int % bits.len() as int]
}

/// How many bits of the array are set.
pub open spec fn count_true(bits: Seq<bool>) -> int
    decreases bits.len(),
{
    if bits.len() == 0 {
        0
    } else {
        count_true(bits.drop_last()) + if bits.last() {
            1int
        } else {
            0int
        }
    }
}

pub struct BloomFilter {
    bools: bit_vec::BitVec,
}

impl View for BloomFilter {
    type V = Seq<bool>;

    closed spec fn view(&self) -> Seq<bool> {
        bits_of(self.bools)
    }
}

/// Adding one hash sets exactly the bit at its offset.
proof fn lemma_filter_bits_push(bits_size: int, hashes: Seq<HashType>, h: HashType)
    requires
        bits_size > 0,
    ensures
        filter_bits(bits_size, hashes.push(h)) =~= filter_bits(bits_size, hashes).update(
            h as int % bits_size,
            true,
        ),
{
    let pre = filter_bits(bits_size, hashes);
    let post = filter_bits(bits_size, hashes.push(h));
    let off = h as int % bits_size;
    assert forall|i: int| 0 <= i < bits_size implies post[i] == pre.update(off, true)[i] by {
        if i == off {
            assert(hashes.push(h)[hashes.len() as int] == h);
            assert(post[i]);
        } else {
            if post[i] {
                let j = choose|j: int|
                    0 <= j < hashes.push(h).len() && hashes.push(h)[j] as int % bits_size == i;
                assert(hashes[j] == hashes.push(h)[j]);
                assert(pre[i]);
            }
            if pre[i] {
                let j = choose|j: int| 0 <= j < hashes.len() && hashes[j] as int % bits_size == i;
                assert(hashes.push(h)[j] == hashes[j]);
                assert(post[i]);
            }
        }
    }
}

impl BloomFilter {
    /// Allocates a `bits_size`-bit array and sets the offset of every
    /// given hash.
    pub fn new(bits_size: usize, hashes: &[HashType]) -> (r: BloomFilter)
        requires
            bits_size > 0,
        ensures
            r@ =~= filter_bits(bits_size as int, hashes@),
    {
        let mut bools = bitvec_from_elem(bits_size, false);
        proof {
            assert(bits_of(bools) =~= filter_bits(bits_size as int, hashes@.subrange(0, 0)));
        }
        let mut k: usize = 0;
        while k < hashes.len()
            invariant
                bits_size > 0,
                k <= hashes@.len(),
                bits_of(bools).len() == bits_size,
                bits_of(bools) =~= filter_bits(bits_size as int, hashes@.subrange(0, k as int)),
            decreases hashes@.len() - k,
        {
            let hash = hashes[k];
            let offset = (hash % (bits_size as HashType)) as usize;
            bitvec_set(&mut bools, offset, true);
            proof {
                assert(hashes@.subrange(0, k + 1) =~= hashes@.subrange(0, k as int).push(
                    hashes@[k as int],
                ));
                lemma_filter_bits_push(bits_size as int, hashes@.subrange(0, k as int), hash);
            }
            k = k + 1;
        }
        proof {
            assert(hashes@.subrange(0, hashes@.len() as int) =~= hashes@);
        }
        BloomFilter { bools }
    }

    /// Builds a filter of `bit_size` bits holding every key of `keys`.
    pub fn build(bit_size: usize, keys: &Vec<String>) -> (r: BloomFilter)
        requires
            bit_size > 0,
        ensures
            r@ =~= filter_bits(bit_size as int, keys@.map_values(|k: String| hash_of(k@))),
    {
        let mut hashes: Vec<HashType> = Vec::new();
        let mut i: usize = 0;
        while i < keys.len()
            invariant
                i <= keys@.len(),
                hashes@ =~= keys@.subrange(0, i as int).map_values(|k: String| hash_of(k@)),
            decreases keys@.len() - i,
        {
            let h = calc_hash(keys[i].as_str());
            hashes.push(h);
            proof {
                assert(hashes@ =~= keys@.subrange(0, i + 1).map_values(|k: String| hash_of(k@)));
            }
            i = i + 1;
        }
        proof {
            assert(keys@.subrange(0, keys@.len() as int) =~= keys@);
        }
        BloomFilter::new(bit_size, hashes.as_slice())
    }

    /// The number of bits of the array (fixed at construction).
    pub fn len(&self) -> (r: usize)
        ensures
            r == self@.len(),
    {
        bitvec_len(&self.bools)
    }

    /// Sets the bit at the key's hash offset; any other bit is left as
    /// it was, so inserting the same key again changes nothing more.
    pub fn insert(&mut self, key: &str)
        requires
            old(self)@.len() > 0,
        ensures
            final(self)@ =~= old(self)@.update(
                hash_of(key@) as int % old(self)@.len() as int,
                true,
            ),
    {
        let len = bitvec_len(&self.bools);
        let offset = (calc_hash(key) % (len as HashType)) as usize;
        bitvec_set(&mut self.bools, offset, true);
    }

    /// Reads the bit at the key's hash offset.  The result is a function
    /// of the filter's bits and the key alone, so repeated queries of an
    /// unchanged filter agree; `true` means "possibly present", `false`
    /// means "definitely absent".
    pub fn contains(&self, word: &str) -> (r: bool)
        requires
            self@.len() > 0,
        ensures
            r == query(self@, word@),
    {
        let len = bitvec_len(&self.bools);
        let offset = (calc_hash(word) % (len as HashType)) as usize;
        match bitvec_get(&self.bools, offset) {
            Some(b) => b,
            None => false,
        }
    }

    /// Total bit count and the number of set bits.
    pub fn stats(&self) -> (r: (usize, usize))
        ensures
            r.0 == self@.len(),
            r.1 == count_true(self@),
    {
        let len = bitvec_len(&self.bools);
        let mut count: usize = 0;
        let mut i: usize = 0;
        while i < len
            invariant
                i <= len == self@.len(),
                count <= i,
                count == count_true(self@.subrange(0, i as int)),
            decreases len - i,
        {
            let bit = match bitvec_get(&self.bools, i) {
                Some(b) => b,
                None => false,
            };
            proof {
                assert(self@.subrange(0, i + 1).drop_last() =~= self@.subrange(0, i as int));
                assert(self@.subrange(0, i + 1).last() == self@[i as int]);
            }
            if bit {
                count = count + 1;
            }
            i = i + 1;
        }
        proof {
            assert(self@.subrange(0, self@.len() as int) =~= self@);
        }
        (len, count)
    }
}

// ---------------------------------------------------------------------
// Laws of the filter.
// ---------------------------------------------------------------------

/// Updating one bit to `true` raises the count by one when it was clear
/// and leaves it alone when it was already set.
proof fn lemma_count_true_update(bits: Seq<bool>, i: int)
    requires
        0 <= i < bits.len(),
    ensures
        count_true(bits.update(i, true)) == count_true(bits) + if bits[i] {
            0int
        } else {
            1int
        },
    decreases bits.len(),
{
    if i == bits.len() - 1 {
        assert(bits.update(i, true).drop_last() =~= bits.drop_last());
    } else {
        assert(bits.update(i, true).drop_last() =~= bits.drop_last().update(i, true));
        lemma_count_true_update(bits.drop_last(), i);
    }
}

/// The set-bit count lies between zero and the array size.
pub proof fn lemma_count_true_bounds(bits: Seq<bool>)
    ensures
        0 <= count_true(bits) <= bits.len(),
    decreases bits.len(),
{
    if bits.len() > 0 {
        lemma_count_true_bounds(bits.drop_last());
    }
}

/// An all-clear array has no set bits.
proof fn lemma_count_true_empty(bits: Seq<bool>)
    requires
        forall|i: int| 0 <= i < bits.len() ==> !bits[i],
    ensures
        count_true(bits) == 0,
    decreases bits.len(),
{
    if bits.len() > 0 {
        lemma_count_true_empty(bits.drop_last());
    }
}

/// Law: no false negatives.  A key whose hash is among those a filter
/// was built from is always reported present.
pub proof fn lemma_no_false_negative(bits_size: int, hashes: Seq<HashType>, w: Seq<char>)
    requires
        bits_size > 0,
        hashes.contains(hash_of(w)),
    ensures
        query(filter_bits(bits_size, hashes), w) == true,
{
    let j = choose|j: int| 0 <= j < hashes.len() && hashes[j] == hash_of(w);
    let bits = filter_bits(bits_size, hashes);
    assert(bits[hash_of(w) as int % bits_size]);
}

/// Law: no false negatives under `insert`.  A key just inserted is
/// reported present by every later query of the unchanged filter.
pub proof fn lemma_insert_found(bits: Seq<bool>, w: Seq<char>)
    requires
        bits.len() > 0,
    ensures
        query(bits.update(hash_of(w) as int % bits.len() as int, true), w) == true,
{
}

/// Law: inserting a key again changes no bit beyond the first insertion;
/// the filter's state after two equal insertions is the state after one.
pub proof fn lemma_insert_idempotent(bits: Seq<bool>, w: Seq<char>)
    requires
        bits.len() > 0,
    ensures
        bits.update(hash_of(w) as int % bits.len() as int, true).update(
            hash_of(w) as int % bits.len() as int,
            true,
        ) =~= bits.update(hash_of(w) as int % bits.len() as int, true),
{
}

/// Law: the set-bit count never decreases as more keys are inserted.
pub proof fn lemma_set_bits_monotonic(bits: Seq<bool>, w: Seq<char>)
    requires
        bits.len() > 0,
    ensures
        count_true(bits.update(hash_of(w) as int % bits.len() as int, true)) >= count_true(bits),
{
    lemma_count_true_update(bits, hash_of(w) as int % bits.len() as int);
}

/// Law: each key sets at most one bit, so the set-bit count never
/// exceeds the number of hashes inserted; any shortfall is collisions.
pub proof fn lemma_set_bits_le_keys(bits_size: int, hashes: Seq<HashType>)
    requires
        bits_size > 0,
    ensures
        count_true(filter_bits(bits_size, hashes)) <= hashes.len(),
    decreases hashes.len(),
{
    let bits = filter_bits(bits_size, hashes);
    if hashes.len() == 0 {
        lemma_count_true_empty(bits);
    } else {
        let prefix = hashes.drop_last();
        lemma_set_bits_le_keys(bits_size, prefix);
        assert(prefix.push(hashes.last()) =~= hashes);
        lemma_filter_bits_push(bits_size, prefix, hashes.last());
        lemma_count_true_update(
            filter_bits(bits_size, prefix),
            hashes.last() as int % bits_size,
        );
    }
}

/// Law: the set-bit count never exceeds the array size, whatever is
/// inserted, so a small array saturates as keys outnumber its bits.
pub proof fn lemma_set_bits_le_size(bits_size: int, hashes: Seq<HashType>)
    requires
        bits_size > 0,
    ensures
        count_true(filter_bits(bits_size, hashes)) <= bits_size,
{
    lemma_count_true_bounds(filter_bits(bits_size, hashes));
}

/// Law: when every hash lands on a distinct offset, every insertion sets
/// a fresh bit, and the estimated collision rate of the population is
/// zero.  An array much larger than the key count approaches this.
pub proof fn lemma_zero_collisions(bits_size: int, hashes: Seq<HashType>)
    requires
        bits_size > 0,
        forall|j1: int, j2: int|
            0 <= j1 < j2 < hashes.len() ==> hashes[j1] as int % bits_size != hashes[j2] as int
                % bits_size,
    ensures
        count_true(filter_bits(bits_size, hashes)) == hashes.len(),
    decreases hashes.len(),
{
    if hashes.len() == 0 {
        lemma_count_true_empty(filter_bits(bits_size, hashes));
    } else {
        let prefix = hashes.drop_last();
        let off = hashes.last() as int % bits_size;
        lemma_zero_collisions(bits_size, prefix);
        assert(prefix.push(hashes.last()) =~= hashes);
        lemma_filter_bits_push(bits_size, prefix, hashes.last());
        assert(!filter_bits(bits_size, prefix)[off]) by {
            if filter_bits(bits_size, prefix)[off] {
                let j = choose|j: int|
                    0 <= j < prefix.len() && prefix[j] as int % bits_size == off;
                assert(hashes[j] == prefix[j]);
            }
        }
        lemma_count_true_update(filter_bits(bits_size, prefix), off);
    }
}

/// Law: the estimated collision rate only grows as the array shrinks.
/// Since at most `bits_size` bits can be set, the rate of any filter of
/// that size is at least the rate of a fully saturated one; as the size
/// shrinks toward or below the key count, that floor climbs toward and
/// past one hundred percent.
pub proof fn lemma_collision_rate_floor(n_words: int, set_bits: int, bits_size: int)
    requires
        1 <= set_bits <= bits_size,
        set_bits <= n_words,
    ensures
        (n_words - set_bits) * 100 / set_bits >= (n_words - bits_size) * 100 / bits_size,
{
    vstd::arithmetic::mul::lemma_mul_inequality(n_words - bits_size, n_words - set_bits, 100);
    vstd::arithmetic::div_mod::lemma_div_is_ordered(
        (n_words - bits_size) * 100,
        (n_words - set_bits) * 100,
        bits_size,
    );
    vstd::arithmetic::div_mod::lemma_div_is_ordered_by_denominator(
        (n_words - set_bits) * 100,
        set_bits,
        bits_size,
    );
}

/// The estimated collision percentage for `n_words` insertions that left
/// `set_bits` bits set.
pub fn collision_percent(n_words: usize, set_bits: usize) -> (r: usize)
    requires
        1 <= set_bits <= n_words,
        (n_words - set_bits) * 100 <= usize::MAX,
    ensures
        r == (n_words - set_bits) * 100 / set_bits as int,
{
    (n_words - set_bits) * 100 / set_bits
}

} // verus!
