//! Bloom filter for fast negative lookups.

use vstd::prelude::*;

verus! {

/// What `u64::rotate_left` returns: the bits of `x` shifted left by `n`
/// (taken modulo 64), with the bits shifted out coming back in at the right.
pub open spec fn rotate_left_spec(x: u64, n: u32) -> u64 {
    (x << (n % 64)) | (x >> ((64 - n % 64) as u32))
}

/// `u64::rotate_left`: the std documentation describes it as shifting the
/// bits left by `n`, wrapping the truncated bits to the end of the result;
/// the contract states exactly that. It never panics.
pub assume_specification[ <u64>::rotate_left ](x: u64, n: u32) -> (r: u64)
    ensures
        r == rotate_left_spec(x, n),
;

/// FNV-1a over the bytes of `data`.
pub open spec fn fnv1a_spec(data: Seq<u8>) -> u64
    decreases data.len(),
{
    if data.len() == 0 {
        0xcbf29ce484222325u64
    } else {
        vstd::wrapping::u64_specs::wrapping_mul(
            fnv1a_spec(data.drop_last()) ^ (data.last() as u64),
            0x100000001b3u64,
        )
    }
}

/// The second hash: xor in each byte, multiply, rotate left by 13.
pub open spec fn murmur_fallback_spec(data: Seq<u8>) -> u64
    decreases data.len(),
{
    if data.len() == 0 {
        0x85ebca6bu64
    } else {
        rotate_left_spec(
            vstd::wrapping::u64_specs::wrapping_mul(
                murmur_fallback_spec(data.drop_last()) ^ (data.last() as u64),
                0xcc9e2d51u64,
            ),
            13,
        )
    }
}

/// The bit that the `i`-th hash function picks for `key` in a filter of
/// `num_bits` bits (double hashing: h1 + i * h2, wrapping).
pub open spec fn hash_index(key: Seq<u8>, i: nat, num_bits: nat) -> nat {
    let h = vstd::wrapping::u64_specs::wrapping_add(
        fnv1a_spec(key),
        vstd::wrapping::u64_specs::wrapping_mul(i as u64, murmur_fallback_spec(key)),
    );
    ((h as usize) as nat) % num_bits
}

/// Whether bit `idx` is set in the words `bits` (bit `idx % 64` of word `idx / 64`).
pub open spec fn bit_is_set(bits: Seq<u64>, idx: nat) -> bool {
    &&& idx / 64 < bits.len()
    &&& bits[(idx / 64) as int] & (1u64 << ((idx % 64) as u64)) != 0
}

/// Number of 64-bit words that hold `num_bits` bits.
pub open spec fn words_for(num_bits: nat) -> nat {
    (num_bits + 63) / 64
}

/// Bits of a filter sized for `n` keys at a one-in-a-hundred false-positive
/// rate: the ceiling of `n * ln(100) / ln(2)^2`, where the ratio is taken as
/// the exact quotient of the two doubles nearest `ln(100)` and `ln(2)^2`,
/// 41479685467187368 / 4327536028902087 (about 9.585 bits per key), and the
/// result is capped at `usize::MAX`.
pub open spec fn one_percent_bits(n: nat) -> nat {
    let exact = (n * 41479685467187368 + 4327536028902086) / 4327536028902087;
    if exact > usize::MAX {
        usize::MAX as nat
    } else {
        exact
    }
}

/// `one_percent_bits(n)` is the least number of bits `m` with
/// `m / n >= 41479685467187368 / 4327536028902087` (the ratio of ln(100) to
/// ln(2)^2), unless that number is past `usize::MAX`, where it is capped.
pub proof fn lemma_one_percent_bits_is_least(n: nat)
    ensures
        one_percent_bits(n) <= usize::MAX,
        one_percent_bits(n) < usize::MAX ==> one_percent_bits(n) * 4327536028902087 >= n
            * 41479685467187368,
        one_percent_bits(n) > 0 ==> (one_percent_bits(n) - 1) * 4327536028902087 < n
            * 41479685467187368,
{
    let a = n * 41479685467187368;
    let b: nat = 4327536028902087;
    let q = (a + 4327536028902086) / b;
    assert(q * b <= a + 4327536028902086 < q * b + b) by (nonlinear_arith)
        requires
            b == 4327536028902087,
            q == (a + 4327536028902086) / b,
    ;
    if one_percent_bits(n) < usize::MAX {
        assert(one_percent_bits(n) == q);
    }
    if one_percent_bits(n) > 0 && q > usize::MAX {
        assert((usize::MAX - 1) * b < (q - 1) * b + 1) by (nonlinear_arith)
            requires
                q > usize::MAX,
                b > 0,
        ;
    }
}

/// A simple bloom filter using multiple hash functions.
#[derive(Debug, Clone)]
pub struct BloomFilter {
    bits: Vec<u64>,
    num_hashes: usize,
    num_bits: usize,
}

impl BloomFilter {
    /// The words of the bit array.
    pub closed spec fn bits_spec(&self) -> Seq<u64> {
        self.bits@
    }

    /// The number of bits of the filter.
    pub closed spec fn num_bits_spec(&self) -> nat {
        self.num_bits as nat
    }

    /// The number of hash functions of the filter.
    pub closed spec fn num_hashes_spec(&self) -> nat {
        self.num_hashes as nat
    }

    /// The bit array has exactly the words that `num_bits` bits need.
    pub open spec fn wf(&self) -> bool {
        self.bits_spec().len() == words_for(self.num_bits_spec())
    }

    /// Lookups and inserts can be made: they take each hash modulo the
    /// number of bits, which must then not be zero.
    pub open spec fn usable(&self) -> bool {
        self.wf() && (self.num_hashes_spec() == 0 || self.num_bits_spec() > 0)
    }

    /// The filter answers "maybe" for `key`: every bit that one of its hash
    /// functions picks for `key` is set.
    pub open spec fn contains_spec(&self, key: Seq<u8>) -> bool {
        forall|i: nat|
            i < self.num_hashes_spec() ==> #[trigger] bit_is_set(
                self.bits_spec(),
                hash_index(key, i, self.num_bits_spec()),
            )
    }

    /// No bit is set.
    pub open spec fn is_clear(&self) -> bool {
        forall|idx: nat| !#[trigger] bit_is_set(self.bits_spec(), idx)
    }

    /// Create with specific parameters.
    pub fn with_params(num_bits: usize, num_hashes: usize) -> (r: BloomFilter)
        ensures
            r.wf(),
            r.num_bits_spec() == num_bits,
            r.num_hashes_spec() == num_hashes,
            r.is_clear(),
    {
        let words = num_bits / 64 + if num_bits % 64 == 0 { 0 } else { 1 };
        let bits = vec![0u64; words];
        let r = BloomFilter { bits, num_hashes, num_bits };
        proof {
            assert(words == words_for(num_bits as nat));
            assert forall|idx: nat| !#[trigger] bit_is_set(r.bits_spec(), idx) by {
                if idx / 64 < r.bits@.len() {
                    let w = r.bits@[(idx / 64) as int];
                    assert(w == 0u64);
                    let b = (idx % 64) as u64;
                    assert(0u64 & (1u64 << b) == 0) by (bit_vector);
                }
            }
        }
        r
    }

    /// Create a filter for `expected_items` keys at a false-positive rate of
    /// one in a hundred: `one_percent_bits(expected_items)` bits and seven
    /// hash functions (for `expected_items == 0`: no bits and one hash
    /// function).
    pub fn for_one_percent(expected_items: usize) -> (r: BloomFilter)
        ensures
            r.wf(),
            r.is_clear(),
            expected_items > 0 ==> r.num_bits_spec() == one_percent_bits(expected_items as nat),
            expected_items > 0 ==> r.num_hashes_spec() == 7,
            expected_items == 0 ==> r.num_bits_spec() == 0 && r.num_hashes_spec() == 1,
    {
        if expected_items == 0 {
            return BloomFilter::with_params(0, 1);
        }
        let n = expected_items as u128;
        assert(n * 41479685467187368 <= 0xFFFF_FFFF_FFFF_FFFFu128 * 41479685467187368) by (nonlinear_arith)
            requires
                n <= 0xFFFF_FFFF_FFFF_FFFFu128,
        ;
        let exact: u128 = (n * 41479685467187368u128 + 4327536028902086u128) / 4327536028902087u128;
        let num_bits: usize = if exact > usize::MAX as u128 {
            usize::MAX
        } else {
            exact as usize
        };
        BloomFilter::with_params(num_bits, 7)
    }

    /// FNV-1a hash of `data`.
    fn fnv1a(data: &[u8]) -> (r: u64)
        ensures
            r == fnv1a_spec(data@),
    {
        let mut hash: u64 = 0xcbf29ce484222325;
        let mut i: usize = 0;
        while i < data.len()
            invariant
                i <= data@.len(),
                hash == fnv1a_spec(data@.take(i as int)),
            decreases data@.len() - i,
        {
            let byte = data[i];
            proof {
                assert(data@.take(i + 1).drop_last() =~= data@.take(i as int));
                assert(data@.take(i + 1).last() == byte);
            }
            hash = hash ^ (byte as u64);
            hash = hash.wrapping_mul(0x100000001b3);
            i = i + 1;
        }
        assert(data@.take(i as int) =~= data@);
        hash
    }

    /// The second hash of `data`.
    fn murmur_fallback(data: &[u8]) -> (r: u64)
        ensures
            r == murmur_fallback_spec(data@),
    {
        let mut hash: u64 = 0x85ebca6b;
        let mut i: usize = 0;
        while i < data.len()
            invariant
                i <= data@.len(),
                hash == murmur_fallback_spec(data@.take(i as int)),
            decreases data@.len() - i,
        {
            let byte = data[i];
            proof {
                assert(data@.take(i + 1).drop_last() =~= data@.take(i as int));
                assert(data@.take(i + 1).last() == byte);
            }
            hash = hash ^ (byte as u64);
            hash = hash.wrapping_mul(0xcc9e2d51);
            hash = hash.rotate_left(13);
            i = i + 1;
        }
        assert(data@.take(i as int) =~= data@);
        hash
    }

    /// The bits that the hash functions pick for `key`, one per hash function.
    fn hash_indices(&self, key: &[u8]) -> (r: Vec<usize>)
        requires
            self.usable(),
        ensures
            r@.len() == self.num_hashes_spec(),
            forall|i: int|
                0 <= i < r@.len() ==> #[trigger] r@[i] as nat == hash_index(
                    key@,
                    i as nat,
                    self.num_bits_spec(),
                ),
            forall|i: int|
                0 <= i < r@.len() ==> #[trigger] r@[i] < self.num_bits_spec() && r@[i] / 64
                    < self.bits_spec().len(),
    {
        let mut indices: Vec<usize> = Vec::with_capacity(self.num_hashes);
        let h1 = Self::fnv1a(key);
        let h2 = Self::murmur_fallback(key);
        let mut i: usize = 0;
        while i < self.num_hashes
            invariant
                self.usable(),
                i <= self.num_hashes,
                h1 == fnv1a_spec(key@),
                h2 == murmur_fallback_spec(key@),
                indices@.len() == i,
                forall|j: int|
                    0 <= j < i ==> #[trigger] indices@[j] as nat == hash_index(
                        key@,
                        j as nat,
                        self.num_bits_spec(),
                    ),
                forall|j: int|
                    0 <= j < i ==> #[trigger] indices@[j] < self.num_bits_spec() && indices@[j] / 64
                        < self.bits_spec().len(),
            decreases self.num_hashes - i,
        {
            let hash = h1.wrapping_add((i as u64).wrapping_mul(h2));
            indices.push((hash as usize) % self.num_bits);
            i = i + 1;
        }
        indices
    }

    /// Insert a key into the bloom filter: the bits that its hash functions
    /// pick are set and no other bit changes.
    pub fn insert(&mut self, key: &[u8])
        requires
            old(self).usable(),
        ensures
            final(self).usable(),
            final(self).num_bits_spec() == old(self).num_bits_spec(),
            final(self).num_hashes_spec() == old(self).num_hashes_spec(),
            forall|idx: nat|
                #[trigger] bit_is_set(final(self).bits_spec(), idx) <==> (bit_is_set(
                    old(self).bits_spec(),
                    idx,
                ) || exists|i: nat|
                    i < old(self).num_hashes_spec() && idx == hash_index(
                        key@,
                        i,
                        old(self).num_bits_spec(),
                    )),
            final(self).contains_spec(key@),
            forall|k: Seq<u8>|
                old(self).contains_spec(k) ==> #[trigger] final(self).contains_spec(k),
    {
        let indices = self.hash_indices(key);
        let ghost old_bits = self.bits@;
        let mut t: usize = 0;
        while t < indices.len()
            invariant
                self.usable(),
                self.num_bits == old(self).num_bits,
                self.num_hashes == old(self).num_hashes,
                old_bits == old(self).bits@,
                t <= indices@.len(),
                indices@.len() == self.num_hashes,
                forall|i: int|
                    0 <= i < indices@.len() ==> #[trigger] indices@[i] as nat == hash_index(
                        key@,
                        i as nat,
                        self.num_bits as nat,
                    ),
                forall|idx: nat|
                    #[trigger] bit_is_set(self.bits@, idx) <==> (bit_is_set(old_bits, idx)
                        || exists|s: int| 0 <= s < t && idx == indices@[s] as nat),
            decreases indices@.len() - t,
        {
            let idx = indices[t];
            proof {
                assert(idx as nat == hash_index(key@, t as nat, self.num_bits as nat));
                assert(idx < self.num_bits);
                assert(self.num_bits <= 64 * self.bits@.len());
            }
            let word = idx / 64;
            let bit = idx % 64;
            let w = self.bits[word];
            let ghost before = self.bits@;
            self.bits.set(word, w | (1u64 << bit));
            proof {
                assert forall|j: nat| #[trigger] bit_is_set(self.bits@, j) <==> (bit_is_set(before, j)
                    || j == idx as nat) by {
                    if j / 64 < self.bits@.len() {
                        let b = (j % 64) as u64;
                        let c = bit as u64;
                        if j / 64 == word as nat {
                            assert(self.bits@[(j / 64) as int] == w | (1u64 << c));
                            assert(before[(j / 64) as int] == w);
                            assert(((w | (1u64 << c)) & (1u64 << b) != 0) == ((w & (1u64 << b) != 0) || c == b)) by (bit_vector)
                                requires
                                    b < 64,
                                    c < 64,
                            ;
                            if c == b {
                                assert(j == idx as nat);
                            }
                        } else {
                            assert(self.bits@[(j / 64) as int] == before[(j / 64) as int]);
                        }
                    }
                }
                assert forall|j: nat| #[trigger] bit_is_set(self.bits@, j) <==> (bit_is_set(old_bits, j)
                    || exists|s: int| 0 <= s < t + 1 && j == indices@[s] as nat) by {
                    if j == idx as nat {
                        assert(indices@[t as int] == idx);
                    }
                    if exists|s: int| 0 <= s < t + 1 && j == indices@[s] as nat {
                        let s = choose|s: int| 0 <= s < t + 1 && j == indices@[s] as nat;
                        if s < t {
                        } else {
                            assert(j == idx as nat);
                        }
                    }
                }
            }
            t = t + 1;
        }
        proof {
            assert forall|idx: nat|
                #[trigger] bit_is_set(self.bits_spec(), idx) <==> (bit_is_set(old(self).bits_spec(), idx)
                    || exists|i: nat|
                    i < old(self).num_hashes_spec() && idx == hash_index(
                        key@,
                        i,
                        old(self).num_bits_spec(),
                    )) by {
                if exists|s: int| 0 <= s < t && idx == indices@[s] as nat {
                    let s = choose|s: int| 0 <= s < t && idx == indices@[s] as nat;
                    assert(idx == hash_index(key@, s as nat, old(self).num_bits_spec()));
                }
                if exists|i: nat| i < old(self).num_hashes_spec() && idx == hash_index(key@, i, old(self).num_bits_spec()) {
                    let i = choose|i: nat| i < old(self).num_hashes_spec() && idx == hash_index(key@, i, old(self).num_bits_spec());
                    assert(indices@[i as int] as nat == idx);
                }
            }
            assert forall|i: nat| i < self.num_hashes_spec() implies #[trigger] bit_is_set(
                self.bits_spec(),
                hash_index(key@, i, self.num_bits_spec()),
            ) by {
                assert(indices@[i as int] as nat == hash_index(key@, i, self.num_bits_spec()));
            }
        }
    }

    /// Check if a key might be in the set.
    /// Returns false if the key is definitely not in the set.
    /// Returns true if the key might be in the set (could be false positive).
    pub fn might_contain(&self, key: &[u8]) -> (r: bool)
        requires
            self.usable(),
        ensures
            r == self.contains_spec(key@),
    {
        let indices = self.hash_indices(key);
        let mut t: usize = 0;
        while t < indices.len()
            invariant
                self.usable(),
                t <= indices@.len(),
                indices@.len() == self.num_hashes,
                forall|i: int|
                    0 <= i < indices@.len() ==> #[trigger] indices@[i] as nat == hash_index(
                        key@,
                        i as nat,
                        self.num_bits as nat,
                    ),
                forall|s: int| 0 <= s < t ==> bit_is_set(self.bits@, #[trigger] indices@[s] as nat),
            decreases indices@.len() - t,
        {
            let idx = indices[t];
            proof {
                assert(idx as nat == hash_index(key@, t as nat, self.num_bits as nat));
                assert(idx < self.num_bits);
            }
            let word = idx / 64;
            let bit = idx % 64;
            if self.bits[word] & (1u64 << bit) == 0 {
                proof {
                    assert(!bit_is_set(self.bits_spec(), hash_index(key@, t as nat, self.num_bits_spec())));
                }
                return false;
            }
            t = t + 1;
        }
        proof {
            assert forall|i: nat| i < self.num_hashes_spec() implies #[trigger] bit_is_set(
                self.bits_spec(),
                hash_index(key@, i, self.num_bits_spec()),
            ) by {
                assert(indices@[i as int] as nat == hash_index(key@, i, self.num_bits_spec()));
            }
        }
        true
    }

    /// Return the number of bits in the filter.
    pub fn num_bits(&self) -> (r: usize)
        ensures
            r == self.num_bits_spec(),
    {
        self.num_bits
    }

    /// Return the number of hash functions.
    pub fn num_hashes(&self) -> (r: usize)
        ensures
            r == self.num_hashes_spec(),
    {
        self.num_hashes
    }
}

} // verus!
