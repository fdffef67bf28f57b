//! Bloom filters over keys.

use vstd::bytes::u32_from_le_bytes;
use vstd::prelude::*;

verus! {

const SEED: u32 = 0xbc9f1d34;

const MULTIPLIER: u32 = 0x5bd1e995;

/// The four bytes of `key` from `pos` on as an integer, zero where the key has ended.
pub open spec fn word(key: Seq<u8>, pos: int) -> u32 {
    vstd::bytes::spec_u32_from_le_bytes(
        Seq::new(
            4,
            |i: int|
                if pos + i < key.len() {
                    key[pos + i]
                } else {
                    0
                },
        ),
    )
}

/// One round of the hash.
pub open spec fn mixed(h: u32, k: u32) -> u32 {
    let m = u32::wrapping_mul(h ^ k, 0x5bd1e995);
    m ^ (m >> 15)
}

/// The hash of the key from `pos` on, when `h` is that of what came before.
pub open spec fn hash_from(key: Seq<u8>, pos: int, h: u32) -> u32
    decreases key.len() + 4 - pos,
{
    if pos >= key.len() {
        h
    } else {
        hash_from(key, pos + 4, mixed(h, word(key, pos)))
    }
}

pub open spec fn key_hash(key: Seq<u8>) -> u32 {
    hash_from(key, 0, 0xbc9f1d34u32 ^ (key.len() as u32))
}

/// The step from one probe of a key to the next.
pub open spec fn stride(h: u32) -> u32 {
    (h << 15) | (h >> 17)
}

/// The hash behind the `j`th probe.
pub open spec fn nth_hash(h: u32, delta: u32, j: nat) -> u32
    decreases j,
{
    if j == 0 {
        h
    } else {
        u32::wrapping_add(nth_hash(h, delta, (j - 1) as nat), delta)
    }
}

/// The bit of the `j`th probe for `key`.
pub open spec fn probe(key: Seq<u8>, num_bits: nat, j: nat) -> int {
    nth_hash(key_hash(key), stride(key_hash(key)), j) as int % num_bits as int
}

pub open spec fn bit_at(bits: Seq<u8>, p: int) -> bool {
    bits[p / 8] & (1u8 << ((p % 8) as u8)) != 0
}

/// A filter as its bytes and the number of probes.
#[verifier::ext_equal]
pub struct FilterView {
    pub bits: Seq<u8>,
    pub num_hashes: u32,
}

impl FilterView {
    pub open spec fn num_bits(self) -> nat {
        self.bits.len() * 8
    }

    /// The bits that are set.
    pub open spec fn marks(self) -> Set<int> {
        Set::new(|p: int| 0 <= p < self.num_bits() && bit_at(self.bits, p))
    }

    /// The bits that `key` sets.
    pub open spec fn probes(self, key: Seq<u8>) -> Set<int> {
        Set::new(
            |p: int|
                exists|j: nat| j < self.num_hashes && #[trigger] probe(key, self.num_bits(), j) == p,
        )
    }

    /// The filter admits `key`.
    pub open spec fn admits(self, key: Seq<u8>) -> bool {
        self.probes(key).subset_of(self.marks())
    }

    /// The filter has a bit to probe.
    pub open spec fn usable(self) -> bool {
        0 < self.bits.len() <= usize::MAX / 8
    }

    /// `self` is what `before` becomes by the insertion of `key`.
    pub open spec fn inserted(self, before: FilterView, key: Seq<u8>) -> bool {
        &&& self.num_hashes == before.num_hashes
        &&& self.bits.len() == before.bits.len()
        &&& self.marks() == before.marks().union(before.probes(key))
    }
}

/// A key that was inserted is admitted, and so is every key that was admitted before.
pub proof fn lemma_no_false_negatives(
    before: FilterView,
    after: FilterView,
    key: Seq<u8>,
    earlier: Seq<u8>,
)
    requires
        after.inserted(before, key),
    ensures
        after.admits(key),
        before.admits(earlier) ==> after.admits(earlier),
{
    assert(after.probes(key) =~= before.probes(key));
    assert(after.probes(earlier) =~= before.probes(earlier));
}

pub struct BloomFilter {
    bits: Vec<u8>,
    num_hashes: u32,
}

impl View for BloomFilter {
    type V = FilterView;

    closed spec fn view(&self) -> FilterView {
        FilterView { bits: self.bits@, num_hashes: self.num_hashes }
    }
}

/// How many bytes a filter of `num_keys` keys has.
pub open spec fn filter_len(num_keys: nat, bits_per_key: nat) -> nat {
    let num_bits = if num_keys * bits_per_key > 64 {
        num_keys * bits_per_key
    } else {
        64
    };
    (num_bits + 7) / 8
}

impl BloomFilter {
    /// An empty filter with `bits_per_key` bits for each of `num_keys` keys, 64 at least.
    pub fn with_density(num_keys: usize, bits_per_key: usize, num_hashes: u32) -> (filter: Self)
        requires
            num_keys * bits_per_key + 7 <= usize::MAX,
        ensures
            filter@.num_hashes == num_hashes,
            filter@.bits == Seq::new(
                filter_len(num_keys as nat, bits_per_key as nat),
                |i: int| 0u8,
            ),
            filter@.usable(),
    {
        let wanted: usize = num_keys * bits_per_key;
        let num_bits: usize = if wanted > 64 {
            wanted
        } else {
            64
        };
        let len: usize = num_bits / 8 + (if num_bits % 8 == 0 {
            0
        } else {
            1
        });
        assert(len == filter_len(num_keys as nat, bits_per_key as nat));
        let bits: Vec<u8> = vec![0u8; len];
        assert(bits@ =~= Seq::new(len as nat, |i: int| 0u8));
        BloomFilter { bits, num_hashes }
    }

    pub fn from_bytes(data: Vec<u8>, num_hashes: u32) -> (filter: Self)
        ensures
            filter@ == (FilterView { bits: data@, num_hashes }),
    {
        BloomFilter { bits: data, num_hashes }
    }

    pub fn insert(&mut self, key: &[u8])
        requires
            old(self)@.usable(),
        ensures
            final(self)@.inserted(old(self)@, key@),
            final(self)@.usable(),
    {
        let num_bits: usize = self.bits.len() * 8;
        let first: u32 = Self::hash(key);
        let mut h: u32 = first;
        let delta: u32 = (h << 15) | (h >> 17);
        let ghost before = self@;
        let ghost mut done: Set<int> = Set::empty();
        let mut i: u32 = 0;
        assert(self@.marks() =~= before.marks().union(done));
        while i < self.num_hashes
            invariant
                i <= self.num_hashes,
                self.num_hashes == before.num_hashes,
                before.usable(),
                num_bits == before.num_bits(),
                self.bits@.len() == before.bits.len(),
                first == key_hash(key@),
                delta == stride(first),
                h == nth_hash(first, delta, i as nat),
                self@.marks() == before.marks().union(done),
                forall|p: int|
                    done.contains(p) <==> (exists|j: nat|
                        j < i && #[trigger] probe(key@, before.num_bits(), j) == p),
            decreases self.num_hashes - i,
        {
            let bit_pos: usize = (h as usize) % num_bits;
            let ghost prev = self@;
            let ghost p0 = bit_pos as int;
            assert(p0 == probe(key@, before.num_bits(), i as nat));
            let byte: u8 = self.bits[bit_pos / 8];
            let shift: u8 = (bit_pos % 8) as u8;
            self.bits.set(bit_pos / 8, byte | (1u8 << shift));
            proof {
                let now = self@;
                assert forall|p: int| 0 <= p < num_bits implies bit_at(now.bits, p) == (bit_at(
                    prev.bits,
                    p,
                ) || p == p0) by {
                    let s = (p % 8) as u8;
                    assert(shift < 8 && s < 8 ==> (((byte | (1u8 << shift)) & (1u8 << s)) != 0) == ((
                    byte & (1u8 << s)) != 0 || s == shift)) by (bit_vector);
                    if p / 8 == p0 / 8 {
                        assert(s == shift <==> p == p0);
                    }
                }
                assert(now.marks() =~= prev.marks().insert(p0));
                let more = done.insert(p0);
                assert forall|p: int|
                    more.contains(p) <==> (exists|j: nat|
                        j < i + 1 && #[trigger] probe(key@, before.num_bits(), j) == p) by {
                    if more.contains(p) {
                        if p == p0 {
                            assert(probe(key@, before.num_bits(), i as nat) == p);
                        }
                    }
                }
                done = more;
                assert(now.marks() =~= before.marks().union(done));
            }
            h = h.wrapping_add(delta);
            i += 1;
        }
        assert(done =~= before.probes(key@));
    }

    /// Whether `key` may have been inserted.
    pub fn may_contain(&self, key: &[u8]) -> (result: bool)
        requires
            self@.usable(),
        ensures
            result == self@.admits(key@),
    {
        let num_bits: usize = self.bits.len() * 8;
        let first: u32 = Self::hash(key);
        let mut h: u32 = first;
        let delta: u32 = (h << 15) | (h >> 17);
        let mut i: u32 = 0;
        while i < self.num_hashes
            invariant
                i <= self.num_hashes,
                self@.usable(),
                num_bits == self@.num_bits(),
                first == key_hash(key@),
                delta == stride(first),
                h == nth_hash(first, delta, i as nat),
                forall|j: nat|
                    j < i ==> self@.marks().contains(#[trigger] probe(key@, self@.num_bits(), j)),
            decreases self.num_hashes - i,
        {
            let bit_pos: usize = (h as usize) % num_bits;
            assert(bit_pos as int == probe(key@, self@.num_bits(), i as nat));
            let shift: u8 = (bit_pos % 8) as u8;
            if self.bits[bit_pos / 8] & (1u8 << shift) == 0 {
                assert(self@.probes(key@).contains(bit_pos as int));
                return false;
            }
            h = h.wrapping_add(delta);
            i += 1;
        }
        true
    }

    fn hash(key: &[u8]) -> (result: u32)
        ensures
            result == key_hash(key@),
    {
        let len: usize = key.len();
        let mut h: u32 = SEED ^ #[verifier::truncate] (len as u32);
        let mut pos: usize = 0;
        while pos < len
            invariant
                pos <= len,
                len == key@.len(),
                hash_from(key@, pos as int, h) == key_hash(key@),
            decreases len - pos,
        {
            let mut k: Vec<u8> = Vec::new();
            k.push(key[pos]);
            let b1: u8 = if len - pos > 1 {
                key[pos + 1]
            } else {
                0
            };
            let b2: u8 = if len - pos > 2 {
                key[pos + 2]
            } else {
                0
            };
            let b3: u8 = if len - pos > 3 {
                key[pos + 3]
            } else {
                0
            };
            k.push(b1);
            k.push(b2);
            k.push(b3);
            let w: u32 = u32_from_le_bytes(k.as_slice());
            proof {
                let padded = Seq::new(
                    4,
                    |i: int|
                        if pos + i < key@.len() {
                            key@[pos + i]
                        } else {
                            0
                        },
                );
                assert(k@ =~= padded);
                assert(w == word(key@, pos as int));
                if len - pos < 4 {
                    assert(hash_from(key@, pos + 4, mixed(h, w)) == mixed(h, w));
                    assert(hash_from(key@, len as int, mixed(h, w)) == mixed(h, w));
                }
            }
            h = (h ^ w).wrapping_mul(MULTIPLIER);
            h = h ^ (h >> 15);
            pos = if len - pos > 4 {
                pos + 4
            } else {
                len
            };
        }
        h
    }

    pub fn bits(&self) -> (bits: &[u8])
        ensures
            bits@ == self@.bits,
    {
        self.bits.as_slice()
    }

    pub fn num_hashes(&self) -> (n: u32)
        ensures
            n == self@.num_hashes,
    {
        self.num_hashes
    }
}

/// A filter into which nothing was put admits nothing.
pub proof fn lemma_blank_admits_nothing(filter: FilterView, key: Seq<u8>)
    requires
        filter.usable(),
        filter.num_hashes > 0,
        forall|i: int| 0 <= i < filter.bits.len() ==> #[trigger] filter.bits[i] == 0,
    ensures
        !filter.admits(key),
{
    let p = probe(key, filter.num_bits(), 0);
    assert(filter.probes(key).contains(p));
    assert(0 <= p < filter.num_bits()) by (nonlinear_arith)
        requires
            p == nth_hash(key_hash(key), stride(key_hash(key)), 0) as int
                % filter.num_bits() as int,
            filter.num_bits() > 0,
    ;
    assert(filter.bits[p / 8] == 0);
    let shift = (p % 8) as u8;
    assert(0u8 & (1u8 << shift) == 0) by (bit_vector);
    assert(!filter.marks().contains(p));
}

/// Which keys a filter admits: exactly those all of whose probes hit a bit that is set.
pub proof fn lemma_admits(filter: FilterView, key: Seq<u8>)
    requires
        filter.usable(),
    ensures
        filter.admits(key) <==> forall|j: nat|
            j < filter.num_hashes ==> bit_at(
                filter.bits,
                #[trigger] probe(key, filter.num_bits(), j),
            ),
{
    assert forall|j: nat| j < filter.num_hashes implies 0 <= #[trigger] probe(
        key,
        filter.num_bits(),
        j,
    ) < filter.num_bits() && filter.probes(key).contains(probe(key, filter.num_bits(), j)) by {
        let h = nth_hash(key_hash(key), stride(key_hash(key)), j) as int;
        let n = filter.num_bits() as int;
        assert(0 <= h % n < n) by (nonlinear_arith)
            requires
                n > 0,
        ;
    }
    if filter.admits(key) {
        assert forall|j: nat| j < filter.num_hashes implies bit_at(
            filter.bits,
            #[trigger] probe(key, filter.num_bits(), j),
        ) by {
            assert(filter.marks().contains(probe(key, filter.num_bits(), j)));
        }
    }
}

} // verus!
