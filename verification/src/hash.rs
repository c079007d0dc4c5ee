//! Hash tables with open addressing.
//!
//! A table has a power-of-two number of buckets. A key's first bucket is found
//! by a prime modulus, the next ones by the probe sequence of [`crate::probe`].
//! A removed entry leaves a tombstone. While every value equals its key, the
//! table stores its values in the key array (set storage).

use vstd::prelude::*;
use crate::notify::{notify_key, notify_value, DestroyNotice};
use crate::ptr_array::GPointer;
use crate::refcount::{Counted, Ref, RefHeap};
use crate::slots::Entry;

verus! {

const HASH_TABLE_MIN_SHIFT: u32 = 3;

const UNUSED_HASH_VALUE: u32 = 0;

const TOMBSTONE_HASH_VALUE: u32 = 1;

const ITER_POSITION_INVALID: u32 = 0xffff_ffff;

/// The modulus for a table of `2^shift` buckets, `shift` below 32: a prime (from `shift` 1 on)
/// that fits the table.
pub open spec fn prime_modulus(shift: nat) -> u32 {
    let moduli: Seq<u32> = seq![
        1, 2, 3, 7, 13, 31, 61, 127, 251, 509, 1021, 2039, 4093, 8191, 16381, 32749, 65521, 131071,
        262139, 524287, 1048573, 2097143, 4194301, 8388593, 16777213, 33554393, 67108859, 134217689,
        268435399, 536870909, 1073741789, 2147483647,
    ];
    moduli[shift as int]
}

fn prime_mod(shift: u32) -> (modulus: u32)
    requires
        shift <= 31,
    ensures
        modulus == prime_modulus(shift as nat),
{
    let moduli: [u32; 32] = [
        1, 2, 3, 7, 13, 31, 61, 127, 251, 509, 1021, 2039, 4093, 8191, 16381, 32749, 65521, 131071,
        262139, 524287, 1048573, 2097143, 4194301, 8388593, 16777213, 33554393, 67108859, 134217689,
        268435399, 536870909, 1073741789, 2147483647,
    ];
    moduli[shift as usize]
}

proof fn lemma_prime_modulus(shift: nat)
    requires
        shift <= 31,
    ensures
        0 < prime_modulus(shift) <= vstd::arithmetic::power2::pow2(shift),
{
    vstd::arithmetic::power2::lemma2_to64();
}

/// The first bucket of a hash value.
pub open spec fn home(hash: u32, shift: nat) -> int {
    (hash * 11) % prime_modulus(shift) as int
}

/// The bucket of the `step`-th probe of a hash value.
pub open spec fn bucket_at(hash: u32, step: nat, shift: nat) -> int {
    crate::probe::probe(home(hash, shift), step, vstd::arithmetic::power2::pow2(shift) as int)
}

/// The `step`-th probe reaches bucket `p`, and every probe before it finds a marked bucket.
pub open spec fn reaches(marks: Seq<bool>, hash: u32, p: int, shift: nat, step: nat) -> bool {
    &&& bucket_at(hash, step, shift) == p
    &&& forall|t: nat| t < step ==> marks[#[trigger] bucket_at(hash, t, shift)]
}

/// Bucket `p` is found by probing over marked buckets only.
pub open spec fn reachable(marks: Seq<bool>, hash: u32, p: int, shift: nat) -> bool {
    exists|step: nat| reaches(marks, hash, p, shift, step)
}

proof fn lemma_bucket_in_range(hash: u32, step: nat, shift: nat)
    requires
        shift <= 31,
    ensures
        0 <= bucket_at(hash, step, shift) < vstd::arithmetic::power2::pow2(shift),
{
    lemma_prime_modulus(shift);
    crate::probe::lemma_probe_in_range(
        home(hash, shift),
        step,
        vstd::arithmetic::power2::pow2(shift) as int,
    );
}

/// Where some bucket is unmarked, some probe finds an unmarked bucket.
proof fn lemma_probe_finds(marks: Seq<bool>, hash: u32, p: int, shift: nat) -> (step: nat)
    requires
        shift <= 31,
        0 <= p < vstd::arithmetic::power2::pow2(shift),
        !marks[p],
    ensures
        step < vstd::arithmetic::power2::pow2(shift),
        !marks[bucket_at(hash, step, shift)],
{
    lemma_bucket_in_range(hash, 0, shift);
    crate::probe::lemma_probe_covers(home(hash, shift), p, shift);
    let size = vstd::arithmetic::power2::pow2(shift) as int;
    choose|step: nat|
        step < vstd::arithmetic::power2::pow2(shift) && #[trigger] crate::probe::probe(
            home(hash, shift),
            step,
            size,
        ) == p
}

proof fn lemma_reachable_more(
    marks: Seq<bool>,
    more: Seq<bool>,
    hash: u32,
    p: int,
    shift: nat,
)
    requires
        shift <= 31,
        reachable(marks, hash, p, shift),
        marks.len() >= vstd::arithmetic::power2::pow2(shift),
        forall|i: int| 0 <= i < marks.len() && marks[i] ==> more[i],
    ensures
        reachable(more, hash, p, shift),
{
    let step = choose|step: nat| reaches(marks, hash, p, shift, step);
    assert forall|t: nat| t < step implies more[#[trigger] bucket_at(hash, t, shift)] by {
        lemma_bucket_in_range(hash, t, shift);
        assert(marks[bucket_at(hash, t, shift)]);
    }
    assert(reaches(more, hash, p, shift, step));
}

/// Hash values 0 and 1 mark unused buckets and tombstones.
pub open spec fn is_real(hash: u32) -> bool {
    hash >= 2
}

pub open spec fn normalized(hash: u32) -> u32 {
    if hash < 2 {
        2
    } else {
        hash
    }
}

fn hash_is_real(h: u32) -> (yes: bool)
    ensures
        yes == is_real(h),
{
    h >= 2
}

fn normalize_hash(hash: u32) -> (kept: u32)
    ensures
        kept == normalized(hash),
{
    if hash < 2 {
        2
    } else {
        hash
    }
}

/// The number of bits of `n`.
fn find_closest_shift(n: u32) -> (shift: u32)
    ensures
        shift <= 32,
        n < vstd::arithmetic::power2::pow2(shift as nat),
        shift > 0 ==> vstd::arithmetic::power2::pow2((shift - 1) as nat) <= n,
{
    let mut rest: u32 = n;
    let mut shift: u32 = 0;
    proof {
        vstd::arithmetic::power2::lemma2_to64();
        vstd::arithmetic::div_mod::lemma_div_basics_2(n as int);
    }
    while rest != 0
        invariant
            shift <= 32,
            rest as int == n as int / vstd::arithmetic::power2::pow2(shift as nat) as int,
            shift > 0 ==> vstd::arithmetic::power2::pow2((shift - 1) as nat) <= n,
        decreases rest,
    {
        proof {
            let size = vstd::arithmetic::power2::pow2(shift as nat) as int;
            vstd::arithmetic::power2::lemma_pow2_pos(shift as nat);
            vstd::arithmetic::power2::lemma2_to64();
            assert(n >= size) by (nonlinear_arith)
                requires
                    n as int / size >= 1,
                    size > 0,
            ;
            assert(shift < 32);
            vstd::arithmetic::power2::lemma_pow2_unfold((shift + 1) as nat);
            vstd::arithmetic::div_mod::lemma_div_denominator(n as int, size, 2);
            assert(size * 2 == 2 * size);
            assert(rest >> 1 == rest / 2) by (bit_vector);
        }
        shift = shift + 1;
        rest = rest >> 1;
    }
    proof {
        let size = vstd::arithmetic::power2::pow2(shift as nat) as int;
        vstd::arithmetic::power2::lemma_pow2_pos(shift as nat);
        assert(n < size) by (nonlinear_arith)
            requires
                n as int / size == 0,
                size > 0,
        ;
    }
    shift
}

fn hash_to_index(modulus: u32, hash: u32) -> (index: u32)
    requires
        modulus > 0,
    ensures
        index == (hash * 11) % modulus as int,
{
    let index: u64 = (hash as u64 * 11) % modulus as u64;
    index as u32
}

/// The buckets of a table.
struct HashTableStorage {
    shift: u32,
    bucket_count: u32,
    modulus: u32,
    mask: u32,
    nnodes: u32,
    noccupied: u32,
    is_set: bool,
    keys: Vec<GPointer>,
    hashes: Vec<u32>,
    values: Vec<GPointer>,
    version: u64,
}

/// The buckets that are not unused.
spec fn occupied(hashes: Seq<u32>) -> Seq<bool> {
    Seq::new(hashes.len(), |p: int| hashes[p] != UNUSED_HASH_VALUE)
}

impl HashTableStorage {
    /// The bucket count is a power of two, and the other sizes belong to it.
    spec fn geometry(&self) -> bool {
        &&& HASH_TABLE_MIN_SHIFT <= self.shift <= 31
        &&& self.bucket_count == vstd::arithmetic::power2::pow2(self.shift as nat)
        &&& self.mask == self.bucket_count - 1
        &&& self.modulus == prime_modulus(self.shift as nat)
    }

    spec fn array_size(&self, n: nat) -> bool {
        &&& self.hashes@.len() == n
        &&& self.keys@.len() == n
        &&& !self.is_set ==> self.values@.len() == n
    }

    spec fn value_at(&self, p: int) -> GPointer {
        if self.is_set {
            self.keys@[p]
        } else {
            self.values@[p]
        }
    }

    spec fn slot(&self, p: int) -> crate::slots::Slot {
        if is_real(self.hashes@[p]) {
            Some(Entry { key: self.keys@[p], value: self.value_at(p) })
        } else {
            None
        }
    }

    spec fn slots(&self) -> Seq<crate::slots::Slot> {
        Seq::new(self.hashes@.len(), |p: int| self.slot(p))
    }

    spec fn map(&self) -> Map<GPointer, GPointer> {
        crate::slots::contents(self.slots())
    }

    /// Every entry has a hash value that belongs to its key.
    spec fn ties(&self, tie: spec_fn(GPointer, u32) -> bool) -> bool {
        forall|p: int|
            0 <= p < self.hashes@.len() && is_real(#[trigger] self.hashes@[p]) ==> tie(
                self.keys@[p],
                self.hashes@[p],
            )
    }

    spec fn counts(&self) -> bool {
        &&& crate::slots::keys_distinct(self.slots())
        &&& self.nnodes == crate::slots::count_true(crate::slots::filled(self.slots()))
        &&& self.noccupied == crate::slots::count_true(occupied(self.hashes@))
    }

    /// Fewer than 16 of 17 buckets are occupied.
    spec fn roomy(&self) -> bool {
        self.noccupied + self.noccupied / 16 < self.bucket_count
    }

    /// The buckets are to be rehashed: there are four times as many as entries, or too few are
    /// unused.
    spec fn due_rehash(&self) -> bool {
        ||| self.bucket_count > 8 && (self.bucket_count - 1) / 4 >= self.nnodes
        ||| !self.roomy()
    }

    /// The buckets are those of a rehash: as many as the entries ask for, and none that was
    /// emptied.
    spec fn fitted(&self) -> bool {
        &&& smallest_shift(self.shift as nat, self.nnodes + self.nnodes as int / 3)
        &&& self.noccupied == self.nnodes
    }

    spec fn probes(&self) -> bool {
        forall|p: int|
            0 <= p < self.hashes@.len() && is_real(#[trigger] self.hashes@[p]) ==> reachable(
                occupied(self.hashes@),
                self.hashes@[p],
                p,
                self.shift as nat,
            )
    }

    spec fn wf(&self, tie: spec_fn(GPointer, u32) -> bool) -> bool {
        &&& self.geometry()
        &&& self.array_size(self.bucket_count as nat)
        &&& self.counts()
        &&& self.roomy()
        &&& self.probes()
        &&& self.ties(tie)
    }
}

/// `shift` is the smallest, from the least allowed on, with more than `target` buckets.
spec fn smallest_shift(shift: nat, target: int) -> bool {
    &&& HASH_TABLE_MIN_SHIFT <= shift
    &&& target < vstd::arithmetic::power2::pow2(shift)
    &&& shift > HASH_TABLE_MIN_SHIFT ==> vstd::arithmetic::power2::pow2((shift - 1) as nat) <= target
}

fn set_shift(storage: &mut HashTableStorage, shift: u32)
    requires
        HASH_TABLE_MIN_SHIFT <= shift <= 31,
    ensures
        final(storage).geometry(),
        *final(storage) == (HashTableStorage {
            shift,
            bucket_count: final(storage).bucket_count,
            mask: final(storage).mask,
            modulus: final(storage).modulus,
            ..*old(storage)
        }),
{
    proof {
        vstd::bits::lemma_u32_pow2_no_overflow(shift as nat);
        vstd::bits::lemma_u32_shl_is_mul(1, shift);
    }
    let bucket_count: u32 = 1u32 << shift;
    storage.shift = shift;
    storage.bucket_count = bucket_count;
    storage.modulus = prime_mod(shift);
    storage.mask = bucket_count - 1;
}

fn set_shift_from_size(storage: &mut HashTableStorage, target: u32)
    requires
        target < 0x8000_0000,
    ensures
        final(storage).geometry(),
        final(storage).bucket_count > target,
        smallest_shift(final(storage).shift as nat, target as int),
        *final(storage) == (HashTableStorage {
            shift: final(storage).shift,
            bucket_count: final(storage).bucket_count,
            mask: final(storage).mask,
            modulus: final(storage).modulus,
            ..*old(storage)
        }),
{
    let closest: u32 = find_closest_shift(target);
    proof {
        vstd::arithmetic::power2::lemma2_to64();
    }
    assert(closest <= 31);
    let shift: u32 = if closest < HASH_TABLE_MIN_SHIFT {
        HASH_TABLE_MIN_SHIFT
    } else {
        closest
    };
    proof {
        if closest < shift {
            vstd::arithmetic::power2::lemma_pow2_strictly_increases(closest as nat, shift as nat);
        }
    }
    set_shift(storage, shift);
}

fn fetch_value(storage: &HashTableStorage, index: u32) -> (value: GPointer)
    requires
        storage.array_size(storage.hashes@.len()),
        index < storage.hashes@.len(),
    ensures
        value == storage.value_at(index as int),
{
    if storage.is_set {
        storage.keys[index as usize]
    } else {
        storage.values[index as usize]
    }
}

spec fn status_bit(bitmap: Seq<u32>, index: int) -> bool {
    (bitmap[index / 32] >> ((index % 32) as u32)) & 1 == 1
}

fn get_status_bit(bitmap: &Vec<u32>, index: u32) -> (set: bool)
    requires
        index as int / 32 < bitmap@.len(),
    ensures
        set == status_bit(bitmap@, index as int),
{
    ((bitmap[(index / 32) as usize] >> (index % 32)) & 1) == 1
}

fn set_status_bit(bitmap: &mut Vec<u32>, index: u32)
    requires
        index as int / 32 < old(bitmap)@.len(),
    ensures
        final(bitmap)@.len() == old(bitmap)@.len(),
        forall|i: int|
            0 <= i && i / 32 < old(bitmap)@.len() ==> #[trigger] status_bit(final(bitmap)@, i) == (i
                == index || status_bit(old(bitmap)@, i)),
{
    let word: usize = (index / 32) as usize;
    let bit: u32 = index % 32;
    let before: u32 = bitmap[word];
    let after: u32 = before | (1u32 << bit);
    bitmap[word] = after;
    proof {
        assert forall|i: int| 0 <= i && i / 32 < old(bitmap)@.len() implies #[trigger] status_bit(
            bitmap@,
            i,
        ) == (i == index || status_bit(old(bitmap)@, i)) by {
            let other = (i % 32) as u32;
            if i / 32 == word {
                assert(((before | (1u32 << bit)) >> other) & 1 == 1 <==> (other == bit || (before
                    >> other) & 1 == 1)) by (bit_vector)
                    requires
                        bit < 32,
                        other < 32,
                ;
            }
        }
    }
}

impl HashTableStorage {
    /// The facts about entries that a rehash has placed for good.
    spec fn placement(&self, placed: Seq<bool>) -> bool {
        &&& placed.len() == self.hashes@.len()
        &&& forall|p: int|
            0 <= p < placed.len() && #[trigger] placed[p] ==> {
                &&& p < self.bucket_count
                &&& is_real(self.hashes@[p])
                &&& reachable(placed, self.hashes@[p], p, self.shift as nat)
            }
    }

    /// The buckets below `n` and from `m` on that were not placed into are unused.
    spec fn swept(&self, placed: Seq<bool>, n: int, m: int) -> bool {
        forall|p: int|
            0 <= p < self.hashes@.len() && (p < n || m <= p) && !placed[p] ==> #[trigger] self.hashes@[p]
                == UNUSED_HASH_VALUE
    }
}

/// Rehash all entries, in place, into a table sized for them.
fn resize(storage: &mut HashTableStorage, Ghost(tie): Ghost<spec_fn(GPointer, u32) -> bool>)
    requires
        old(storage).geometry(),
        old(storage).array_size(old(storage).bucket_count as nat),
        old(storage).counts(),
        old(storage).ties(tie),
        old(storage).nnodes + old(storage).nnodes / 3 < 0x8000_0000,
    ensures
        final(storage).wf(tie),
        final(storage).map() == old(storage).map(),
        final(storage).nnodes == old(storage).nnodes,
        final(storage).version == old(storage).version,
        final(storage).fitted(),
{
    let ghost map = storage.map();
    let ghost count = storage.nnodes;
    let ghost before = *storage;
    let old_size: u32 = storage.bucket_count;
    let target: u32 = storage.nnodes + storage.nnodes / 3;
    set_shift_from_size(storage, target);
    let ghost sized = storage.shift;
    let size: u32 = if storage.bucket_count > old_size {
        storage.bucket_count
    } else {
        old_size
    };
    if storage.bucket_count > old_size {
        storage.keys.resize(storage.bucket_count as usize, 0);
        storage.hashes.resize(storage.bucket_count as usize, UNUSED_HASH_VALUE);
        if !storage.is_set {
            storage.values.resize(storage.bucket_count as usize, 0);
        }
    }
    assert(storage.array_size(size as nat));
    assert(storage.slots().take(old_size as int) =~= before.slots());
    proof {
        assert(crate::slots::keys_distinct(storage.slots())) by {
            let slots = storage.slots();
            assert forall|p: int, q: int|
                0 <= p < q < slots.len() && #[trigger] slots[p] is Some
                    && #[trigger] slots[q] is Some implies slots[p]->0.key != slots[q]->0.key by {
                assert(before.slots()[p] is Some);
                assert(before.slots()[q] is Some);
            }
        }
        crate::slots::lemma_contents_take(storage.slots(), old_size as int);
        assert forall|p: int|
            0 <= p < storage.hashes@.len() && is_real(#[trigger] storage.hashes@[p]) implies tie(
            storage.keys@[p],
            storage.hashes@[p],
        ) by {
            assert(is_real(before.hashes@[p]));
        }
    }
    let mut reallocated: Vec<u32> = vec![0u32; (size as usize / 32) + 1];
    let ghost mut placed: Seq<bool> = Seq::new(size as nat, |p: int| false);
    proof {
        assert forall|p: int| 0 <= p < size implies #[trigger] status_bit(reallocated@, p)
            == placed[p] by {
            let bit = (p % 32) as u32;
            assert((0u32 >> bit) & 1 == 0) by (bit_vector);
        }
    }
    let mut i: u32 = 0;
    while i < old_size
        invariant
            i <= old_size <= size,
            old_size == size || storage.bucket_count == size,
            storage.geometry(),
            storage.bucket_count <= size,
            storage.array_size(size as nat),
            storage.nnodes == count,
            storage.version == before.version,
            storage.shift == sized,
            count + count / 3 < storage.bucket_count,
            reallocated@.len() == size / 32 + 1,
            forall|p: int| 0 <= p < size ==> #[trigger] status_bit(reallocated@, p) == placed[p],
            storage.placement(placed),
            storage.swept(placed, i as int, old_size as int),
            storage.ties(tie),
            crate::slots::keys_distinct(storage.slots()),
            storage.map() == map,
            crate::slots::count_true(crate::slots::filled(storage.slots())) == count,
        decreases old_size - i,
    {
        let node_hash: u32 = storage.hashes[i as usize];
        if !hash_is_real(node_hash) {
            let ghost was = *storage;
            storage.hashes[i as usize] = UNUSED_HASH_VALUE;
            assert(storage.slots() =~= was.slots());
        } else if !get_status_bit(&reallocated, i) {
            let ghost was = *storage;
            storage.hashes[i as usize] = UNUSED_HASH_VALUE;
            let key: GPointer = storage.keys[i as usize];
            let value: GPointer = fetch_value(storage, i);
            storage.keys[i as usize] = 0;
            if !storage.is_set {
                storage.values[i as usize] = 0;
            }
            proof {
                assert(storage.slots() =~= was.slots().update(i as int, None));
                assert(was.slots()[i as int] is Some);
                crate::slots::lemma_clear_slot(was.slots(), i as int);
                crate::slots::lemma_contents_at(was.slots(), i as int);
                crate::slots::lemma_count_update(
                    crate::slots::filled(was.slots()),
                    i as int,
                    false,
                );
                assert(crate::slots::filled(storage.slots()) =~= crate::slots::filled(
                    was.slots(),
                ).update(i as int, false));
                assert(storage.map().insert(key, value) =~= map);
            }
            let mut node_hash: u32 = node_hash;
            let mut evicted_key: GPointer = key;
            let mut evicted_value: GPointer = value;
            let mut done: bool = false;
            while !done
                invariant
                    i < old_size <= size,
                    old_size == size || storage.bucket_count == size,
                    storage.geometry(),
                    storage.bucket_count <= size,
                    storage.array_size(size as nat),
                    storage.nnodes == count,
                    storage.version == before.version,
                    storage.shift == sized,
                    count + count / 3 < storage.bucket_count,
                    reallocated@.len() == size / 32 + 1,
                    forall|p: int|
                        0 <= p < size ==> #[trigger] status_bit(reallocated@, p) == placed[p],
                    storage.placement(placed),
                    storage.swept(placed, i + 1, old_size as int),
                    storage.ties(tie),
                    crate::slots::keys_distinct(storage.slots()),
                    done ==> storage.map() == map,
                    done ==> crate::slots::count_true(crate::slots::filled(storage.slots()))
                        == count,
                    !done ==> {
                        &&& is_real(node_hash)
                        &&& tie(evicted_key, node_hash)
                        &&& !storage.map().contains_key(evicted_key)
                        &&& storage.map().insert(
                            evicted_key,
                            if storage.is_set {
                                evicted_key
                            } else {
                                evicted_value
                            },
                        ) == map
                        &&& crate::slots::count_true(crate::slots::filled(storage.slots())) + 1
                            == count
                    },
                decreases
                        size - crate::slots::count_true(placed) + (if done {
                            0int
                        } else {
                            1int
                        }),
            {
                let ghost was = *storage;
                let ghost placed_was = placed;
                let ghost shift = storage.shift as nat;
                let ghost mut free_step: nat = 0;
                proof {
                    lemma_prime_modulus(shift);
                    crate::slots::lemma_count_bound(placed);
                    if forall|p: int| 0 <= p < storage.bucket_count ==> placed[p] {
                        let marks = crate::slots::filled(storage.slots());
                        assert forall|p: int| 0 <= p < storage.bucket_count implies marks[p] by {
                            assert(placed[p]);
                        }
                        crate::slots::lemma_count_prefix(marks, storage.bucket_count as int);
                    }
                    let free = choose|p: int| 0 <= p < storage.bucket_count && !placed[p];
                    free_step = lemma_probe_finds(placed, node_hash, free, shift);
                }
                let mut hash_val: u32 = hash_to_index(storage.modulus, node_hash);
                let mut step: u32 = 0;
                proof {
                    lemma_bucket_in_range(node_hash, 0, shift);
                }
                while get_status_bit(&reallocated, hash_val)
                    invariant
                        storage.geometry(),
                        shift == storage.shift,
                        storage.bucket_count <= size,
                        placed.len() == size,
                        reallocated@.len() == size / 32 + 1,
                        forall|p: int|
                            0 <= p < size ==> #[trigger] status_bit(reallocated@, p) == placed[p],
                        hash_val < storage.bucket_count,
                        hash_val == bucket_at(node_hash, step as nat, shift),
                        forall|t: nat| t < step ==> placed[#[trigger] bucket_at(node_hash, t, shift)],
                        !placed[bucket_at(node_hash, free_step, shift)],
                        step <= free_step < storage.bucket_count,
                    decreases free_step - step,
                {
                    proof {
                        vstd::arithmetic::power2::lemma2_to64();
                        if shift < 31 {
                            vstd::arithmetic::power2::lemma_pow2_strictly_increases(shift, 31);
                        }
                        vstd::bits::lemma_u32_low_bits_mask_is_mod(
                            (hash_val + step + 1) as u32,
                            shift,
                        );
                    }
                    step = step + 1;
                    hash_val = (hash_val + step) & storage.mask;
                    proof {
                        lemma_bucket_in_range(node_hash, step as nat, shift);
                    }
                }
                set_status_bit(&mut reallocated, hash_val);
                let replaced_hash: u32 = storage.hashes[hash_val as usize];
                storage.hashes[hash_val as usize] = node_hash;
                let prev_key: GPointer = storage.keys[hash_val as usize];
                let prev_value: GPointer = fetch_value(storage, hash_val);
                storage.keys[hash_val as usize] = evicted_key;
                if !storage.is_set {
                    storage.values[hash_val as usize] = evicted_value;
                }
                proof {
                    let at = hash_val as int;
                    let entry_value = if storage.is_set {
                        evicted_key
                    } else {
                        evicted_value
                    };
                    placed = placed.update(at, true);
                    crate::slots::lemma_count_update(placed_was, at, true);
                    crate::slots::lemma_count_bound(placed);
                    assert(storage.slots() =~= was.slots().update(
                        at,
                        Some(Entry { key: evicted_key, value: entry_value }),
                    ));
                    if is_real(replaced_hash) {
                        assert(was.slots()[at] is Some);
                        crate::slots::lemma_refill_slot(was.slots(), at, evicted_key, entry_value);
                        crate::slots::lemma_contents_at(was.slots(), at);
                        assert(storage.map().insert(
                            prev_key,
                            if storage.is_set {
                                prev_key
                            } else {
                                prev_value
                            },
                        ) =~= map);
                        assert(crate::slots::filled(storage.slots()) =~= crate::slots::filled(
                            was.slots(),
                        ));
                    } else {
                        assert(was.slots()[at] is None);
                        crate::slots::lemma_fill_slot(was.slots(), at, evicted_key, entry_value);
                        crate::slots::lemma_count_update(
                            crate::slots::filled(was.slots()),
                            at,
                            true,
                        );
                        assert(crate::slots::filled(storage.slots()) =~= crate::slots::filled(
                            was.slots(),
                        ).update(at, true));
                    }
                    assert(reaches(placed_was, node_hash, at, shift, step as nat));
                    assert forall|p: int| 0 <= p < placed.len() && #[trigger] placed[p] implies {
                        &&& p < storage.bucket_count
                        &&& is_real(storage.hashes@[p])
                        &&& reachable(placed, storage.hashes@[p], p, storage.shift as nat)
                    } by {
                        if p != at {
                            assert(placed_was[p]);
                        }
                        lemma_reachable_more(placed_was, placed, storage.hashes@[p], p, shift);
                    }
                }
                if !hash_is_real(replaced_hash) {
                    done = true;
                } else {
                    node_hash = replaced_hash;
                    evicted_key = prev_key;
                    evicted_value = prev_value;
                }
            }
        }
        i = i + 1;
    }
    truncate_buckets(storage, Ghost(placed), Ghost(tie));
}

/// Give up the buckets past the bucket count, all unused, after a rehash.
fn truncate_buckets(
    storage: &mut HashTableStorage,
    Ghost(placed): Ghost<Seq<bool>>,
    Ghost(tie): Ghost<spec_fn(GPointer, u32) -> bool>,
)
    requires
        old(storage).geometry(),
        old(storage).bucket_count <= old(storage).hashes@.len(),
        old(storage).array_size(old(storage).hashes@.len()),
        old(storage).placement(placed),
        old(storage).swept(placed, old(storage).hashes@.len() as int, 0),
        old(storage).ties(tie),
        crate::slots::keys_distinct(old(storage).slots()),
        old(storage).nnodes == crate::slots::count_true(
            crate::slots::filled(old(storage).slots()),
        ),
        old(storage).nnodes + old(storage).nnodes / 3 < old(storage).bucket_count,
    ensures
        final(storage).wf(tie),
        final(storage).map() == old(storage).map(),
        final(storage).nnodes == old(storage).nnodes,
        final(storage).version == old(storage).version,
        final(storage).shift == old(storage).shift,
        final(storage).noccupied == old(storage).nnodes,
{
    let ghost full = *storage;
    let size: usize = storage.bucket_count as usize;
    storage.keys.truncate(size);
    storage.hashes.truncate(size);
    if !storage.is_set {
        storage.values.truncate(size);
    }
    storage.noccupied = storage.nnodes;
    proof {
        let n = storage.bucket_count as int;
        assert forall|p: int| n <= p < full.slots().len() implies full.slots()[p] is None by {
            assert(!placed[p]);
            assert(full.hashes@[p] == UNUSED_HASH_VALUE);
        }
        crate::slots::lemma_contents_take(full.slots(), n);
        assert(storage.hashes@ =~= full.hashes@.take(n));
        assert(storage.keys@ =~= full.keys@.take(n));
        assert(!storage.is_set ==> storage.values@ =~= full.values@.take(n));
        assert forall|p: int| 0 <= p < n implies #[trigger] storage.slot(p) == full.slot(p) by {
        }
        assert(full.slots().take(n) =~= storage.slots());
        let marks = occupied(storage.hashes@);
        assert forall|p: int| 0 <= p < n implies #[trigger] marks[p] == placed[p] by {
            if !placed[p] {
                assert(full.hashes@[p] == UNUSED_HASH_VALUE);
            }
        }
        assert(crate::slots::filled(storage.slots()) =~= marks) by {
            assert forall|p: int| 0 <= p < n implies crate::slots::filled(storage.slots())[p]
                == marks[p] by {
                assert(marks[p] == placed[p]);
                assert(placed[p] ==> is_real(full.hashes@[p]));
            }
        }
        assert forall|p: int| 0 <= p < n && is_real(#[trigger] storage.hashes@[p]) implies tie(
            storage.keys@[p],
            storage.hashes@[p],
        ) by {
            assert(is_real(full.hashes@[p]));
        }
        assert forall|p: int| 0 <= p < n && is_real(#[trigger] storage.hashes@[p]) implies reachable(
            marks,
            storage.hashes@[p],
            p,
            storage.shift as nat,
        ) by {
            let hash = full.hashes@[p];
            assert(marks[p]);
            assert(placed[p]);
            let shift = storage.shift as nat;
            let step = choose|step: nat| reaches(placed, hash, p, shift, step);
            assert forall|t: nat| t < step implies marks[#[trigger] bucket_at(hash, t, shift)] by {
                lemma_bucket_in_range(hash, t, shift);
            }
            assert(reaches(marks, hash, p, shift, step));
        }
    }
}

fn maybe_resize(storage: &mut HashTableStorage, Ghost(tie): Ghost<spec_fn(GPointer, u32) -> bool>)
    requires
        old(storage).geometry(),
        old(storage).array_size(old(storage).bucket_count as nat),
        old(storage).counts(),
        old(storage).probes(),
        old(storage).ties(tie),
        !old(storage).roomy() ==> old(storage).nnodes + old(storage).nnodes / 3 < 0x8000_0000,
    ensures
        final(storage).wf(tie),
        final(storage).map() == old(storage).map(),
        final(storage).nnodes == old(storage).nnodes,
        final(storage).version == old(storage).version,
        old(storage).due_rehash() ==> final(storage).fitted(),
        !old(storage).due_rehash() ==> *final(storage) == *old(storage),
{
    let noccupied: u32 = storage.noccupied;
    let bucket_count: u32 = storage.bucket_count;
    proof {
        crate::slots::lemma_count_bound(occupied(storage.hashes@));
        vstd::arithmetic::power2::lemma2_to64();
        if storage.shift < 31 {
            vstd::arithmetic::power2::lemma_pow2_strictly_increases(storage.shift as nat, 31);
        }
    }
    if (bucket_count > 8 && (bucket_count - 1) / 4 >= storage.nnodes) || bucket_count <= noccupied
        + noccupied / 16 {
        resize(storage, Ghost(tie));
    }
}

fn bump_version(storage: &mut HashTableStorage)
    ensures
        *final(storage) == (HashTableStorage { version: final(storage).version, ..*old(storage) }),
        final(storage).version == old(storage).version.wrapping_add(1),
{
    storage.version = storage.version.wrapping_add(1);
}

/// What the functions of a table compute: the hash of a key, and whether two keys are equal.
pub struct KeyModel {
    pub hash: spec_fn(GPointer) -> u32,
    pub equal: spec_fn(GPointer, GPointer) -> bool,
}

/// The hash of a key.
pub open spec fn hash_of(model: KeyModel, key: GPointer) -> u32 {
    (model.hash)(key)
}

/// Two keys are equal.
pub open spec fn keys_equal(model: KeyModel, a: GPointer, b: GPointer) -> bool {
    (model.equal)(a, b)
}

/// The functions can be called on every key and compute what the model says. Without a hash
/// function it is that of [`direct_hash`]; without an equality keys are equal as pointers.
pub open spec fn computes<H: Fn(GPointer) -> u32, E: Fn(GPointer, GPointer) -> bool>(
    hash_func: Option<H>,
    key_equal_func: Option<E>,
    model: KeyModel,
) -> bool {
    &&& match hash_func {
        Some(func) => {
            &&& forall|key: GPointer| #[trigger] func.requires((key,))
            &&& forall|key: GPointer, hash: u32| #[trigger]
                func.ensures((key,), hash) ==> hash == hash_of(model, key)
        },
        None => forall|key: GPointer| #[trigger] hash_of(model, key) == direct_hash_value(key),
    }
    &&& match key_equal_func {
        Some(func) => {
            &&& forall|x: GPointer, y: GPointer| #[trigger] func.requires((x, y))
            &&& forall|x: GPointer, y: GPointer, equal: bool| #[trigger]
                func.ensures((x, y), equal) ==> equal == keys_equal(model, x, y)
        },
        None => forall|x: GPointer, y: GPointer| #[trigger] keys_equal(model, x, y) == (x == y),
    }
}

/// What a table asks of its functions: the equality is an equivalence, and equal keys have one
/// hash.
pub open spec fn consistent(model: KeyModel) -> bool {
    &&& forall|x: GPointer| #[trigger] keys_equal(model, x, x)
    &&& forall|x: GPointer, y: GPointer| #[trigger]
        keys_equal(model, x, y) ==> keys_equal(model, y, x)
    &&& forall|x: GPointer, y: GPointer, z: GPointer| #[trigger]
        keys_equal(model, x, y) && #[trigger] keys_equal(model, y, z) ==> keys_equal(model, x, z)
    &&& forall|x: GPointer, y: GPointer| #[trigger]
        keys_equal(model, x, y) ==> hash_of(model, x) == hash_of(model, y)
}

/// Keys that are equal as pointers, with the hash of [`direct_hash`].
pub open spec fn direct_model() -> KeyModel {
    KeyModel {
        hash: |key: GPointer| direct_hash_value(key),
        equal: |a: GPointer, b: GPointer| a == b,
    }
}

/// The functions of a table compute a hash and an equality that go together.
pub open spec fn key_functions<H: Fn(GPointer) -> u32, E: Fn(GPointer, GPointer) -> bool>(
    hash_func: Option<H>,
    key_equal_func: Option<E>,
    model: KeyModel,
) -> bool {
    &&& computes(hash_func, key_equal_func, model)
    &&& consistent(model)
}

/// The key of the map that equals `key`, if there is one.
pub open spec fn stored_key_in(
    model: KeyModel,
    map: Map<GPointer, GPointer>,
    key: GPointer,
) -> Option<GPointer> {
    if exists|stored: GPointer| #[trigger]
        map.dom().contains(stored) && keys_equal(model, stored, key) {
        Some(
            choose|stored: GPointer| #[trigger]
                map.dom().contains(stored) && keys_equal(model, stored, key),
        )
    } else {
        None
    }
}

/// The low 32 bits of an address.
pub open spec fn direct_hash_value(key: GPointer) -> u32 {
    (key as int % 0x1_0000_0000) as u32
}

/// The address itself, cut to 32 bits, as a hash.
pub fn direct_hash(v: GPointer) -> (hash: u32)
    ensures
        hash == direct_hash_value(v),
{
    let wide: u64 = v as u64;
    assert(wide as u32 == wide % 0x1_0000_0000) by (bit_vector);
    wide as u32
}

/// Address equality.
pub fn direct_equal(v1: GPointer, v2: GPointer) -> (equal: bool)
    ensures
        equal == (v1 == v2),
{
    v1 == v2
}

/// Empty buckets of the smallest size.
fn setup_storage(version: u64, Ghost(tie): Ghost<spec_fn(GPointer, u32) -> bool>) -> (storage:
    HashTableStorage)
    ensures
        storage.wf(tie),
        storage.map() == Map::<GPointer, GPointer>::empty(),
        storage.version == version,
        storage.nnodes == 0,
{
    let mut storage = HashTableStorage {
        shift: 0,
        bucket_count: 0,
        modulus: 0,
        mask: 0,
        nnodes: 0,
        noccupied: 0,
        is_set: true,
        keys: Vec::new(),
        hashes: Vec::new(),
        values: Vec::new(),
        version,
    };
    set_shift(&mut storage, HASH_TABLE_MIN_SHIFT);
    storage.keys = vec![0usize; storage.bucket_count as usize];
    storage.hashes = vec![UNUSED_HASH_VALUE; storage.bucket_count as usize];
    proof {
        lemma_all_unused(storage);
        vstd::arithmetic::power2::lemma2_to64();
    }
    storage
}

proof fn lemma_all_unused(storage: HashTableStorage)
    requires
        forall|p: int|
            0 <= p < storage.hashes@.len() ==> storage.hashes@[p] == UNUSED_HASH_VALUE,
    ensures
        storage.map() == Map::<GPointer, GPointer>::empty(),
        crate::slots::keys_distinct(storage.slots()),
        crate::slots::count_true(crate::slots::filled(storage.slots())) == 0,
        crate::slots::count_true(occupied(storage.hashes@)) == 0,
{
    crate::slots::lemma_count_none(crate::slots::filled(storage.slots()));
    crate::slots::lemma_count_none(occupied(storage.hashes@));
    assert(storage.map() =~= Map::<GPointer, GPointer>::empty());
}

/// A hash table from keys to values, both addresses.
///
/// `H` is the type of its hash function, `E` that of its key equality. Destroy
/// functions for keys and values are not held: the table lists their due calls
/// (see [`HashTable::take_notices`]).
pub struct HashTable<H, E> {
    hash_func: Option<H>,
    key_equal_func: Option<E>,
    model: Ghost<KeyModel>,
    key_destroy: bool,
    value_destroy: bool,
    storage: HashTableStorage,
    notices: Vec<DestroyNotice>,
}

struct InsertParams {
    node_index: u32,
    key_hash: u32,
    new_key: GPointer,
    new_value: GPointer,
    keep_new_key: bool,
    reusing_key: bool,
}

/// `predicate` may answer `holds` on an entry.
pub open spec fn entry_test<F: Fn(GPointer, GPointer) -> bool>(predicate: F) -> spec_fn(
    Entry,
    bool,
) -> bool {
    |entry: Entry, holds: bool| predicate.ensures((entry.key, entry.value), holds)
}

/// One call of a function with an entry and the data so far.
pub open spec fn visit<U, F: Fn(GPointer, GPointer, U) -> U>(func: F) -> spec_fn(
    Entry,
    U,
    U,
) -> bool {
    |entry: Entry, before: U, after: U| func.ensures((entry.key, entry.value, before), after)
}

/// `marks` are answers of `predicate` on the entries, in order.
pub open spec fn judged<F: Fn(GPointer, GPointer) -> bool>(
    predicate: F,
    entries: Seq<Entry>,
    marks: Seq<bool>,
) -> bool {
    &&& marks.len() == entries.len()
    &&& forall|i: int|
        0 <= i < entries.len() ==> entry_test(predicate)(#[trigger] entries[i], marks[i])
}

/// The keys of the entries that are marked.
pub open spec fn marked_keys(entries: Seq<Entry>, marks: Seq<bool>) -> Set<GPointer> {
    Set::new(
        |key: GPointer|
            exists|i: int| 0 <= i < entries.len() && marks[i] && #[trigger] entries[i].key == key,
    )
}

/// The entries that are marked, in order.
pub open spec fn marked_entries(entries: Seq<Entry>, marks: Seq<bool>) -> Seq<Entry>
    decreases entries.len(),
{
    if entries.len() == 0 {
        Seq::empty()
    } else {
        let before = marked_entries(entries.drop_last(), marks);
        if marks[entries.len() - 1] {
            before.push(entries.last())
        } else {
            before
        }
    }
}

proof fn lemma_marked_entries_prefix(entries: Seq<Entry>, marks: Seq<bool>, more: Seq<bool>)
    requires
        entries.len() <= marks.len(),
        entries.len() <= more.len(),
        forall|i: int| 0 <= i < entries.len() ==> marks[i] == more[i],
    ensures
        marked_entries(entries, marks) == marked_entries(entries, more),
    decreases entries.len(),
{
    if entries.len() > 0 {
        lemma_marked_entries_prefix(entries.drop_last(), marks, more);
    }
}

/// Two stored keys that are equal are one.
pub open spec fn classes_distinct(model: KeyModel, map: Map<GPointer, GPointer>) -> bool {
    forall|a: GPointer, b: GPointer| #[trigger]
        map.dom().contains(a) && #[trigger] map.dom().contains(b) && keys_equal(model, a, b)
            ==> a == b
}

impl<H: Fn(GPointer) -> u32, E: Fn(GPointer, GPointer) -> bool> View for HashTable<H, E> {
    type V = Map<GPointer, GPointer>;

    /// The stored keys with their values.
    closed spec fn view(&self) -> Map<GPointer, GPointer> {
        self.storage.map()
    }
}

impl<H: Fn(GPointer) -> u32, E: Fn(GPointer, GPointer) -> bool> HashTable<H, E> {
    pub closed spec fn hash_func(&self) -> Option<H> {
        self.hash_func
    }

    pub closed spec fn key_equal_func(&self) -> Option<E> {
        self.key_equal_func
    }

    /// What the functions of the table compute.
    pub closed spec fn model(&self) -> KeyModel {
        self.model@
    }

    /// Whether keys have a destroy function.
    pub closed spec fn destroys_keys(&self) -> bool {
        self.key_destroy
    }

    /// Whether values have a destroy function.
    pub closed spec fn destroys_values(&self) -> bool {
        self.value_destroy
    }

    /// The calls of destroy functions that are due, in order.
    pub closed spec fn notices(&self) -> Seq<DestroyNotice> {
        self.notices@
    }

    /// The buckets in order: iteration goes through them from the first on.
    pub closed spec fn buckets(&self) -> Seq<crate::slots::Slot> {
        self.storage.slots()
    }

    /// The entries in the order of iteration.
    pub open spec fn entries(&self) -> Seq<Entry> {
        crate::slots::entries(self.buckets())
    }

    spec fn tie(&self) -> spec_fn(GPointer, u32) -> bool {
        |key: GPointer, hash: u32| hash == normalized(hash_of(self.model@, key))
    }

    /// The invariant of a table.
    pub closed spec fn wf(&self) -> bool {
        &&& key_functions(self.hash_func, self.key_equal_func, self.model@)
        &&& self.storage.wf(self.tie())
        &&& classes_distinct(self.model@, self.storage.map())
    }

    /// The stored key that equals `key`, if there is one.
    pub open spec fn stored_key(&self, key: GPointer) -> Option<GPointer> {
        stored_key_in(self.model(), self@, key)
    }

    /// One more entry takes no rehash.
    pub closed spec fn has_spare_buckets(&self) -> bool {
        self.storage.noccupied + 1 + (self.storage.noccupied + 1) / 16 < self.storage.bucket_count
    }

    /// There is room for one more entry: with a third as many buckets on top, all entries fit
    /// into a table of at most `2^31` buckets, or no rehash is due.
    pub open spec fn fits_one_more(&self) -> bool {
        self@.dom().len() + 1 + (self@.dom().len() + 1) / 3 < 0x8000_0000
            || self.has_spare_buckets()
    }

    /// The functions and destroy settings are those of `other`.
    pub open spec fn same_setup(&self, other: &Self) -> bool {
        &&& self.hash_func() == other.hash_func()
        &&& self.key_equal_func() == other.key_equal_func()
        &&& self.model() == other.model()
        &&& self.destroys_keys() == other.destroys_keys()
        &&& self.destroys_values() == other.destroys_values()
    }

    fn hash_key(&self, key: GPointer) -> (hash: u32)
        requires
            key_functions(self.hash_func, self.key_equal_func, self.model@),
        ensures
            hash == normalized(hash_of(self.model@, key)),
    {
        let hash: u32 = match &self.hash_func {
            Some(func) => func(key),
            None => direct_hash(key),
        };
        normalize_hash(hash)
    }

    fn equals_key(&self, stored: GPointer, key: GPointer) -> (equal: bool)
        requires
            key_functions(self.hash_func, self.key_equal_func, self.model@),
        ensures
            equal == keys_equal(self.model@, stored, key),
    {
        match &self.key_equal_func {
            Some(func) => func(stored, key),
            None => stored == key,
        }
    }

    proof fn lemma_counts(&self)
        requires
            self.storage.geometry(),
            self.storage.counts(),
            self.storage.array_size(self.storage.bucket_count as nat),
        ensures
            self.storage.nnodes <= self.storage.noccupied <= self.storage.bucket_count
                <= 0x8000_0000,
            self.storage.map().dom().finite(),
            self.storage.map().dom().len() == self.storage.nnodes,
            crate::slots::entries(self.storage.slots()).len() == self.storage.nnodes,
    {
        let storage = self.storage;
        crate::slots::lemma_count_bound(occupied(storage.hashes@));
        crate::slots::lemma_count_monotone(
            crate::slots::filled(storage.slots()),
            occupied(storage.hashes@),
        );
        crate::slots::lemma_contents_len(storage.slots());
        vstd::arithmetic::power2::lemma2_to64();
        if storage.shift < 31 {
            vstd::arithmetic::power2::lemma_pow2_strictly_increases(storage.shift as nat, 31);
        }
    }

    /// The stored key is unique.
    proof fn lemma_stored_key(&self, stored: GPointer, key: GPointer)
        requires
            key_functions(self.hash_func, self.key_equal_func, self.model@),
            classes_distinct(self.model@, self.storage.map()),
            self.storage.map().dom().contains(stored),
            keys_equal(self.model@, stored, key),
        ensures
            self.stored_key(key) == Some(stored),
    {
        let chosen = self.stored_key(key)->0;
        assert(keys_equal(self.model@, chosen, key));
        assert(keys_equal(self.model@, key, stored));
        assert(keys_equal(self.model@, chosen, stored));
    }

    /// The bucket of `key`, or the one it would go to, with its hash.
    fn lookup_node(&self, key: GPointer) -> (found: (u32, u32))
        requires
            self.wf(),
        ensures
            found.0 < self.storage.bucket_count,
            found.1 == normalized(hash_of(self.model@, key)),
            is_real(self.storage.hashes@[found.0 as int]) == self.stored_key(key) is Some,
            is_real(self.storage.hashes@[found.0 as int]) ==> self.stored_key(key) == Some(
                self.storage.keys@[found.0 as int],
            ),
            !is_real(self.storage.hashes@[found.0 as int]) ==> reachable(
                occupied(self.storage.hashes@),
                found.1,
                found.0 as int,
                self.storage.shift as nat,
            ),
    {
        let hash_value: u32 = self.hash_key(key);
        let ghost shift = self.storage.shift as nat;
        let ghost marks = occupied(self.storage.hashes@);
        let ghost mut free_step: nat = 0;
        proof {
            self.lemma_counts();
            lemma_prime_modulus(shift);
            if forall|p: int| 0 <= p < marks.len() ==> marks[p] {
                crate::slots::lemma_count_prefix(marks, marks.len() as int);
            }
            let free = choose|p: int| 0 <= p < marks.len() && !marks[p];
            free_step = lemma_probe_finds(marks, hash_value, free, shift);
            lemma_bucket_in_range(hash_value, 0, shift);
        }
        let mut node_index: u32 = hash_to_index(self.storage.modulus, hash_value);
        let mut node_hash: u32 = self.storage.hashes[node_index as usize];
        let mut first_tombstone: u32 = 0;
        let mut have_tombstone: bool = false;
        let mut step: u32 = 0;
        while node_hash != UNUSED_HASH_VALUE
            invariant
                self.wf(),
                shift == self.storage.shift,
                marks == occupied(self.storage.hashes@),
                self.storage.bucket_count <= 0x8000_0000,
                hash_value == normalized(hash_of(self.model@, key)),
                node_index < self.storage.bucket_count,
                node_hash == self.storage.hashes@[node_index as int],
                node_index == bucket_at(hash_value, step as nat, shift),
                !marks[bucket_at(hash_value, free_step, shift)],
                step <= free_step < self.storage.bucket_count,
                forall|t: nat|
                    t < step ==> {
                        let p = #[trigger] bucket_at(hash_value, t, shift);
                        &&& marks[p]
                        &&& self.storage.hashes@[p] == hash_value ==> !keys_equal(
                            self.model@,
                            self.storage.keys@[p],
                            key,
                        )
                    },
                have_tombstone ==> {
                    &&& first_tombstone < self.storage.bucket_count
                    &&& self.storage.hashes@[first_tombstone as int] == TOMBSTONE_HASH_VALUE
                    &&& reachable(marks, hash_value, first_tombstone as int, shift)
                },
            decreases free_step - step,
        {
            proof {
                lemma_bucket_in_range(hash_value, free_step, shift);
                assert(marks[node_index as int]);
            }
            if node_hash == hash_value {
                let node_key: GPointer = self.storage.keys[node_index as usize];
                if self.equals_key(node_key, key) {
                    proof {
                        assert(self.storage.slots()[node_index as int] is Some);
                        crate::slots::lemma_contents_at(self.storage.slots(), node_index as int);
                        self.lemma_stored_key(node_key, key);
                    }
                    return (node_index, hash_value);
                }
            } else if node_hash == TOMBSTONE_HASH_VALUE && !have_tombstone {
                first_tombstone = node_index;
                have_tombstone = true;
                assert(reaches(marks, hash_value, node_index as int, shift, step as nat));
            }
            proof {
                vstd::bits::lemma_u32_low_bits_mask_is_mod((node_index + step + 1) as u32, shift);
            }
            step = step + 1;
            node_index = (node_index + step) & self.storage.mask;
            proof {
                lemma_bucket_in_range(hash_value, step as nat, shift);
            }
            node_hash = self.storage.hashes[node_index as usize];
        }
        proof {
            assert(reaches(marks, hash_value, node_index as int, shift, step as nat));
            if self.stored_key(key) is Some {
                let stored = self.stored_key(key)->0;
                let p = crate::slots::lemma_contents_slot(self.storage.slots(), stored);
                assert(is_real(self.storage.hashes@[p]));
                assert(self.tie()(self.storage.keys@[p], self.storage.hashes@[p]));
                assert(keys_equal(self.model@, stored, key));
                assert(self.storage.hashes@[p] == hash_value);
                let s = choose|s: nat| reaches(marks, hash_value, p, shift, s);
                if s < step {
                    assert(bucket_at(hash_value, s, shift) == p);
                } else if s > step {
                    assert(marks[bucket_at(hash_value, step as nat, shift)]);
                }
                assert(false);
            }
        }
        if have_tombstone {
            (first_tombstone, hash_value)
        } else {
            (node_index, hash_value)
        }
    }

    /// Put an entry into bucket `node_index`; returns whether the bucket held none.
    fn insert_node(&mut self, params: InsertParams) -> (is_new: bool)
        requires
            old(self).wf(),
            params.node_index < old(self).storage.bucket_count,
            is_real(old(self).storage.hashes@[params.node_index as int]) ==> keys_equal(
                old(self).model@,
                old(self).storage.keys@[params.node_index as int],
                params.new_key,
            ),
            params.reusing_key ==> params.keep_new_key && is_real(
                old(self).storage.hashes@[params.node_index as int],
            ) && params.new_key == old(self).storage.keys@[params.node_index as int],
            !is_real(old(self).storage.hashes@[params.node_index as int]) ==> {
                &&& old(self).stored_key(params.new_key) is None
                &&& old(self).fits_one_more()
                &&& params.key_hash == normalized(hash_of(old(self).model@, params.new_key))
                &&& reachable(
                    occupied(old(self).storage.hashes@),
                    params.key_hash,
                    params.node_index as int,
                    old(self).storage.shift as nat,
                )
            },
        ensures
            final(self).wf(),
            final(self).same_setup(old(self)),
            is_new == !is_real(old(self).storage.hashes@[params.node_index as int]),
            is_new ==> {
                &&& final(self)@ == old(self)@.insert(params.new_key, params.new_value)
                &&& final(self).notices() == old(self).notices()
            },
            !is_new ==> {
                let stored = old(self).storage.keys@[params.node_index as int];
                let kept = if params.keep_new_key {
                    params.new_key
                } else {
                    stored
                };
                let dropped = if params.keep_new_key {
                    stored
                } else {
                    params.new_key
                };
                &&& final(self)@ == old(self)@.remove(stored).insert(kept, params.new_value)
                &&& final(self).notices() == old(self).notices() + crate::notify::key_notice(
                    old(self).destroys_keys() && !params.reusing_key,
                    dropped,
                ) + crate::notify::value_notice(
                    old(self).destroys_values(),
                    old(self).storage.value_at(params.node_index as int),
                )
                &&& final(self).storage.version == old(self).storage.version
                &&& final(self).storage.bucket_count == old(self).storage.bucket_count
                &&& final(self).buckets() == old(self).buckets().update(
                    params.node_index as int,
                    Some(Entry { key: kept, value: params.new_value }),
                )
            },
    {
        let node_index: u32 = params.node_index;
        let new_key: GPointer = params.new_key;
        let new_value: GPointer = params.new_value;
        let ghost before = self.storage;
        let ghost at = node_index as int;
        let ghost tie = self.tie();
        proof {
            self.lemma_counts();
        }
        let old_hash: u32 = self.storage.hashes[node_index as usize];
        let already_exists: bool = hash_is_real(old_hash);
        let mut key_to_free: GPointer = 0;
        let mut key_to_keep: GPointer = new_key;
        let mut value_to_free: GPointer = 0;
        if already_exists {
            value_to_free = fetch_value(&self.storage, node_index);
            if params.keep_new_key {
                key_to_free = self.storage.keys[node_index as usize];
            } else {
                key_to_free = new_key;
                key_to_keep = self.storage.keys[node_index as usize];
            }
        } else {
            self.storage.hashes[node_index as usize] = params.key_hash;
        }
        if self.storage.is_set && key_to_keep != new_value {
            self.storage.values = self.storage.keys.clone();
            self.storage.is_set = false;
        }
        self.storage.keys[node_index as usize] = key_to_keep;
        if !self.storage.is_set {
            self.storage.values[node_index as usize] = new_value;
        }
        proof {
            let entry = Entry { key: key_to_keep, value: new_value };
            assert forall|p: int| 0 <= p < before.hashes@.len() implies #[trigger] self.storage.slot(p)
                == (if p == at {
                Some(entry)
            } else {
                before.slot(p)
            }) by {
            }
            assert(self.storage.slots() =~= before.slots().update(at, Some(entry)));
            let marks = occupied(before.hashes@);
            if already_exists {
                let stored = before.keys@[at];
                assert(before.slots()[at] is Some);
                crate::slots::lemma_contents_at(before.slots(), at);
                if before.map().dom().contains(key_to_keep) {
                    assert(stored == key_to_keep);
                }
                crate::slots::lemma_refill_slot(before.slots(), at, key_to_keep, new_value);
                assert(crate::slots::filled(self.storage.slots()) =~= crate::slots::filled(
                    before.slots(),
                ));
                assert(occupied(self.storage.hashes@) =~= marks);
                assert(tie(stored, before.hashes@[at]));
            } else {
                assert(before.slots()[at] is None);
                if before.map().dom().contains(new_key) {
                    assert(keys_equal(self.model@, new_key, new_key));
                }
                crate::slots::lemma_fill_slot(before.slots(), at, new_key, new_value);
                crate::slots::lemma_count_update(crate::slots::filled(before.slots()), at, true);
                assert(crate::slots::filled(self.storage.slots()) =~= crate::slots::filled(
                    before.slots(),
                ).update(at, true));
                crate::slots::lemma_count_update(marks, at, true);
                assert(occupied(self.storage.hashes@) =~= marks.update(at, true));
                crate::slots::lemma_count_bound(occupied(self.storage.hashes@));
                crate::slots::lemma_count_bound(crate::slots::filled(self.storage.slots()));
            }
            let after = occupied(self.storage.hashes@);
            assert forall|p: int|
                0 <= p < self.storage.hashes@.len() && is_real(
                    #[trigger] self.storage.hashes@[p],
                ) implies reachable(
                after,
                self.storage.hashes@[p],
                p,
                self.storage.shift as nat,
            ) && tie(self.storage.keys@[p], self.storage.hashes@[p]) by {
                if p != at {
                    assert(is_real(before.hashes@[p]));
                } else if already_exists {
                    assert(is_real(before.hashes@[p]));
                }
                lemma_reachable_more(
                    marks,
                    after,
                    self.storage.hashes@[p],
                    p,
                    self.storage.shift as nat,
                );
            }
            assert(classes_distinct(self.model@, self.storage.map())) by {
                let e = self.model@;
                assert forall|a: GPointer, b: GPointer| #[trigger]
                    self.storage.map().dom().contains(a)
                        && #[trigger] self.storage.map().dom().contains(b) && keys_equal(
                        e,
                        a,
                        b,
                    ) implies a == b by {
                    let stored = before.keys@[at];
                    if already_exists && params.keep_new_key {
                        assert(keys_equal(e, new_key, stored));
                        if a == new_key && b != new_key {
                            assert(keys_equal(e, stored, b));
                        }
                        if b == new_key && a != new_key {
                            assert(keys_equal(e, a, stored));
                        }
                    }
                    if !already_exists {
                        if a == new_key && b != new_key {
                            assert(keys_equal(e, b, new_key));
                        }
                    }
                }
            }
        }
        if !already_exists {
            let ghost placed = self.storage;
            self.storage.nnodes = self.storage.nnodes + 1;
            if old_hash == UNUSED_HASH_VALUE {
                self.storage.noccupied = self.storage.noccupied + 1;
                assert(self.storage.slots() =~= placed.slots());
                maybe_resize(&mut self.storage, Ghost(tie));
            } else {
                assert(self.storage.slots() =~= placed.slots());
            }
            let ghost resized = self.storage;
            bump_version(&mut self.storage);
            assert(self.storage.slots() =~= resized.slots());
        }
        if already_exists {
            notify_key(&mut self.notices, self.key_destroy && !params.reusing_key, key_to_free);
            notify_value(&mut self.notices, self.value_destroy, value_to_free);
        }
        assert(self.tie() =~= tie);
        !already_exists
    }

    /// An empty table without destroy functions. The functions compute a hash and an equality
    /// that go together; where it matters which, [`HashTable::new_with_model`] is told.
    pub fn new(hash_func: Option<H>, key_equal_func: Option<E>) -> (table: Self)
        requires
            (hash_func is None && key_equal_func is None) || exists|model: KeyModel| #[trigger]
                key_functions(hash_func, key_equal_func, model),
        ensures
            table.wf(),
            table@ == Map::<GPointer, GPointer>::empty(),
            table.hash_func() == hash_func,
            table.key_equal_func() == key_equal_func,
            key_functions(hash_func, key_equal_func, table.model()),
            !table.destroys_keys(),
            !table.destroys_values(),
            table.notices() == Seq::<DestroyNotice>::empty(),
    {
        Self::new_full(hash_func, key_equal_func, false, false)
    }

    /// An empty table; `key_destroy` and `value_destroy` say whether keys and values have
    /// destroy functions.
    pub fn new_full(
        hash_func: Option<H>,
        key_equal_func: Option<E>,
        key_destroy: bool,
        value_destroy: bool,
    ) -> (table: Self)
        requires
            (hash_func is None && key_equal_func is None) || exists|model: KeyModel| #[trigger]
                key_functions(hash_func, key_equal_func, model),
        ensures
            table.wf(),
            table@ == Map::<GPointer, GPointer>::empty(),
            table.hash_func() == hash_func,
            table.key_equal_func() == key_equal_func,
            key_functions(hash_func, key_equal_func, table.model()),
            table.destroys_keys() == key_destroy,
            table.destroys_values() == value_destroy,
            table.notices() == Seq::<DestroyNotice>::empty(),
    {
        let ghost model = if hash_func is None && key_equal_func is None {
            direct_model()
        } else {
            choose|model: KeyModel| #[trigger] key_functions(hash_func, key_equal_func, model)
        };
        Self::new_with_model(hash_func, key_equal_func, Ghost(model), key_destroy, value_destroy)
    }

    /// An empty table whose functions compute what the model says; `key_destroy` and
    /// `value_destroy` say whether keys and values have destroy functions.
    pub fn new_with_model(
        hash_func: Option<H>,
        key_equal_func: Option<E>,
        model: Ghost<KeyModel>,
        key_destroy: bool,
        value_destroy: bool,
    ) -> (table: Self)
        requires
            key_functions(hash_func, key_equal_func, model@),
        ensures
            table.wf(),
            table@ == Map::<GPointer, GPointer>::empty(),
            table.hash_func() == hash_func,
            table.key_equal_func() == key_equal_func,
            table.model() == model@,
            table.destroys_keys() == key_destroy,
            table.destroys_values() == value_destroy,
            table.notices() == Seq::<DestroyNotice>::empty(),
    {
        let ghost tie = |key: GPointer, hash: u32| hash == normalized(hash_of(model@, key));
        let table = HashTable {
            hash_func,
            key_equal_func,
            model,
            key_destroy,
            value_destroy,
            storage: setup_storage(0, Ghost(tie)),
            notices: Vec::new(),
        };
        assert(table.tie() =~= tie);
        table
    }

    /// Hand over the calls of destroy functions that are due; none is due after it.
    pub fn take_notices(&mut self) -> (due: Vec<DestroyNotice>)
        requires
            old(self).wf(),
        ensures
            due@ == old(self).notices(),
            final(self).notices() == Seq::<DestroyNotice>::empty(),
            final(self).wf(),
            final(self)@ == old(self)@,
            final(self).buckets() == old(self).buckets(),
            final(self).same_setup(old(self)),
    {
        let mut due: Vec<DestroyNotice> = Vec::new();
        core::mem::swap(&mut due, &mut self.notices);
        assert(self.tie() =~= old(self).tie());
        due
    }

    fn insert_internal(&mut self, key: GPointer, value: GPointer, keep_new_key: bool) -> (is_new:
        bool)
        requires
            old(self).wf(),
            old(self).stored_key(key) is Some || old(self).fits_one_more(),
        ensures
            final(self).wf(),
            final(self).same_setup(old(self)),
            is_new == old(self).stored_key(key) is None,
            is_new ==> {
                &&& final(self)@ == old(self)@.insert(key, value)
                &&& final(self).notices() == old(self).notices()
            },
            !is_new ==> {
                let stored = old(self).stored_key(key)->0;
                let kept = if keep_new_key {
                    key
                } else {
                    stored
                };
                let dropped = if keep_new_key {
                    stored
                } else {
                    key
                };
                &&& final(self)@ == old(self)@.remove(stored).insert(kept, value)
                &&& final(self).notices() == old(self).notices() + crate::notify::key_notice(
                    old(self).destroys_keys(),
                    dropped,
                ) + crate::notify::value_notice(old(self).destroys_values(), old(self)@[stored])
            },
    {
        let (node_index, key_hash) = self.lookup_node(key);
        proof {
            if self.stored_key(key) is Some {
                assert(self.storage.slots()[node_index as int] is Some);
                crate::slots::lemma_contents_at(self.storage.slots(), node_index as int);
            }
        }
        self.insert_node(
            InsertParams {
                node_index,
                key_hash,
                new_key: key,
                new_value: value,
                keep_new_key,
                reusing_key: false,
            },
        )
    }

    /// Store `value` under `key`. A stored key that equals `key` stays, takes the new value, and
    /// `key` and the old value are due for destruction. Returns whether the key was new.
    pub fn insert(&mut self, key: GPointer, value: GPointer) -> (is_new: bool)
        requires
            old(self).wf(),
            old(self).stored_key(key) is Some || old(self).fits_one_more(),
        ensures
            final(self).wf(),
            final(self).same_setup(old(self)),
            match old(self).stored_key(key) {
                None => {
                    &&& is_new
                    &&& final(self)@ == old(self)@.insert(key, value)
                    &&& final(self).notices() == old(self).notices()
                },
                Some(stored) => {
                    &&& !is_new
                    &&& final(self)@ == old(self)@.insert(stored, value)
                    &&& final(self).notices() == old(self).notices() + crate::notify::key_notice(
                        old(self).destroys_keys(),
                        key,
                    ) + crate::notify::value_notice(old(self).destroys_values(), old(self)@[stored])
                },
            },
    {
        let is_new: bool = self.insert_internal(key, value, false);
        proof {
            if let Some(stored) = old(self).stored_key(key) {
                assert(old(self)@.remove(stored).insert(stored, value) =~= old(self)@.insert(
                    stored,
                    value,
                ));
            }
        }
        is_new
    }

    /// Store `value` under `key` itself. A stored key that equals it leaves the table, and with
    /// its value is due for destruction. Returns whether the key was new.
    pub fn replace(&mut self, key: GPointer, value: GPointer) -> (is_new: bool)
        requires
            old(self).wf(),
            old(self).stored_key(key) is Some || old(self).fits_one_more(),
        ensures
            final(self).wf(),
            final(self).same_setup(old(self)),
            match old(self).stored_key(key) {
                None => {
                    &&& is_new
                    &&& final(self)@ == old(self)@.insert(key, value)
                    &&& final(self).notices() == old(self).notices()
                },
                Some(stored) => {
                    &&& !is_new
                    &&& final(self)@ == old(self)@.remove(stored).insert(key, value)
                    &&& final(self).notices() == old(self).notices() + crate::notify::key_notice(
                        old(self).destroys_keys(),
                        stored,
                    ) + crate::notify::value_notice(old(self).destroys_values(), old(self)@[stored])
                },
            },
    {
        self.insert_internal(key, value, true)
    }

    /// Store `key` as its own value (the table as a set); as [`HashTable::replace`] otherwise.
    pub fn add(&mut self, key: GPointer) -> (is_new: bool)
        requires
            old(self).wf(),
            old(self).stored_key(key) is Some || old(self).fits_one_more(),
        ensures
            final(self).wf(),
            final(self).same_setup(old(self)),
            match old(self).stored_key(key) {
                None => {
                    &&& is_new
                    &&& final(self)@ == old(self)@.insert(key, key)
                    &&& final(self).notices() == old(self).notices()
                },
                Some(stored) => {
                    &&& !is_new
                    &&& final(self)@ == old(self)@.remove(stored).insert(key, key)
                    &&& final(self).notices() == old(self).notices() + crate::notify::key_notice(
                        old(self).destroys_keys(),
                        stored,
                    ) + crate::notify::value_notice(old(self).destroys_values(), old(self)@[stored])
                },
            },
    {
        self.insert_internal(key, key, true)
    }

    /// The value of `key`, or 0 where the table has no such key.
    pub fn lookup(&self, key: GPointer) -> (value: GPointer)
        requires
            self.wf(),
        ensures
            value == (match self.stored_key(key) {
                Some(stored) => self@[stored],
                None => 0,
            }),
    {
        let (node_index, _) = self.lookup_node(key);
        if hash_is_real(self.storage.hashes[node_index as usize]) {
            proof {
                assert(self.storage.slots()[node_index as int] is Some);
                crate::slots::lemma_contents_at(self.storage.slots(), node_index as int);
            }
            fetch_value(&self.storage, node_index)
        } else {
            0
        }
    }

    /// Whether the table has a key that equals `key`.
    pub fn contains(&self, key: GPointer) -> (found: bool)
        requires
            self.wf(),
        ensures
            found == self.stored_key(key) is Some,
    {
        let (node_index, _) = self.lookup_node(key);
        hash_is_real(self.storage.hashes[node_index as usize])
    }

    /// The stored key that equals `lookup_key` and its value, written where the caller asks for
    /// them (0 where there is none). Returns whether there is one.
    pub fn lookup_extended(
        &self,
        lookup_key: GPointer,
        orig_key: Option<&mut GPointer>,
        value: Option<&mut GPointer>,
    ) -> (found: bool)
        requires
            self.wf(),
        ensures
            found == self.stored_key(lookup_key) is Some,
            orig_key matches Some(k) ==> *final(k) == (match self.stored_key(lookup_key) {
                Some(stored) => stored,
                None => 0,
            }),
            value matches Some(v) ==> *final(v) == (match self.stored_key(lookup_key) {
                Some(stored) => self@[stored],
                None => 0,
            }),
    {
        let (node_index, _) = self.lookup_node(lookup_key);
        if !hash_is_real(self.storage.hashes[node_index as usize]) {
            if let Some(k) = orig_key {
                *k = 0;
            }
            if let Some(v) = value {
                *v = 0;
            }
            return false;
        }
        proof {
            assert(self.storage.slots()[node_index as int] is Some);
            crate::slots::lemma_contents_at(self.storage.slots(), node_index as int);
        }
        if let Some(k) = orig_key {
            *k = self.storage.keys[node_index as usize];
        }
        if let Some(v) = value {
            *v = fetch_value(&self.storage, node_index);
        }
        true
    }

    /// The number of entries.
    pub fn size(&self) -> (size: u32)
        requires
            self.wf(),
        ensures
            size == self@.dom().len(),
            self@.dom().finite(),
    {
        proof {
            self.lemma_counts();
        }
        self.storage.nnodes
    }

    /// Take the entry out of bucket `index`, which becomes a tombstone.
    fn remove_node(&mut self, index: u32, notify: bool)
        requires
            old(self).wf(),
            index < old(self).storage.bucket_count,
            is_real(old(self).storage.hashes@[index as int]),
        ensures
            final(self).wf(),
            final(self).same_setup(old(self)),
            final(self).storage.version == old(self).storage.version,
            final(self).storage.bucket_count == old(self).storage.bucket_count,
            final(self).storage.nnodes == old(self).storage.nnodes - 1,
            final(self).buckets() == old(self).buckets().update(index as int, None),
            final(self)@ == old(self)@.remove(old(self).storage.keys@[index as int]),
            final(self).notices() == old(self).notices() + crate::notify::key_notice(
                notify && old(self).destroys_keys(),
                old(self).storage.keys@[index as int],
            ) + crate::notify::value_notice(
                notify && old(self).destroys_values(),
                old(self).storage.value_at(index as int),
            ),
    {
        let ghost before = self.storage;
        let ghost at = index as int;
        proof {
            self.lemma_counts();
            assert(before.slots()[at] is Some);
            crate::slots::lemma_clear_slot(before.slots(), at);
            crate::slots::lemma_contents_at(before.slots(), at);
            crate::slots::lemma_count_update(crate::slots::filled(before.slots()), at, false);
        }
        let key: GPointer = self.storage.keys[index as usize];
        let value: GPointer = fetch_value(&self.storage, index);
        self.storage.hashes[index as usize] = TOMBSTONE_HASH_VALUE;
        self.storage.keys[index as usize] = 0;
        if !self.storage.is_set {
            self.storage.values[index as usize] = 0;
        }
        self.storage.nnodes = self.storage.nnodes - 1;
        proof {
            assert forall|p: int| 0 <= p < before.hashes@.len() implies #[trigger] self.storage.slot(p)
                == (if p == at {
                None
            } else {
                before.slot(p)
            }) by {
            }
            assert(self.storage.slots() =~= before.slots().update(at, None));
            assert(crate::slots::filled(self.storage.slots()) =~= crate::slots::filled(
                before.slots(),
            ).update(at, false));
            assert(occupied(self.storage.hashes@) =~= occupied(before.hashes@));
            assert forall|p: int|
                0 <= p < self.storage.hashes@.len() && is_real(
                    #[trigger] self.storage.hashes@[p],
                ) implies is_real(before.hashes@[p]) && p != at by {
            }
            assert(self.tie() =~= old(self).tie());
        }
        if notify {
            notify_key(&mut self.notices, self.key_destroy, key);
            notify_value(&mut self.notices, self.value_destroy, value);
        }
        assert(self.tie() =~= old(self).tie());
    }

    /// Bump the version and rehash where the table has become sparse.
    fn after_removal(&mut self)
        requires
            old(self).wf(),
        ensures
            final(self).wf(),
            final(self).same_setup(old(self)),
            final(self)@ == old(self)@,
            final(self).notices() == old(self).notices(),
            final(self).storage.version == old(self).storage.version.wrapping_add(1),
            final(self).storage.nnodes == old(self).storage.nnodes,
            old(self).storage.due_rehash() ==> final(self).storage.fitted(),
            !old(self).storage.due_rehash() ==> final(self).storage == (HashTableStorage {
                version: final(self).storage.version,
                ..old(self).storage
            }),
    {
        let ghost before = self.storage;
        bump_version(&mut self.storage);
        assert(self.storage.slots() =~= before.slots());
        maybe_resize(&mut self.storage, Ghost(old(self).tie()));
        assert(self.tie() =~= old(self).tie());
    }

    fn remove_internal(&mut self, key: GPointer, notify: bool) -> (removed: bool)
        requires
            old(self).wf(),
        ensures
            final(self).wf(),
            final(self).same_setup(old(self)),
            match old(self).stored_key(key) {
                None => {
                    &&& !removed
                    &&& final(self)@ == old(self)@
                    &&& final(self).notices() == old(self).notices()
                },
                Some(stored) => {
                    &&& removed
                    &&& final(self)@ == old(self)@.remove(stored)
                    &&& final(self).notices() == old(self).notices() + crate::notify::key_notice(
                        notify && old(self).destroys_keys(),
                        stored,
                    ) + crate::notify::value_notice(
                        notify && old(self).destroys_values(),
                        old(self)@[stored],
                    )
                },
            },
    {
        let (node_index, _) = self.lookup_node(key);
        if !hash_is_real(self.storage.hashes[node_index as usize]) {
            return false;
        }
        proof {
            assert(self.storage.slots()[node_index as int] is Some);
            crate::slots::lemma_contents_at(self.storage.slots(), node_index as int);
        }
        self.remove_node(node_index, notify);
        self.after_removal();
        true
    }

    /// Remove the key that equals `key`; it and its value are due for destruction. Returns
    /// whether there was one.
    pub fn remove(&mut self, key: GPointer) -> (removed: bool)
        requires
            old(self).wf(),
        ensures
            final(self).wf(),
            final(self).same_setup(old(self)),
            match old(self).stored_key(key) {
                None => {
                    &&& !removed
                    &&& final(self)@ == old(self)@
                    &&& final(self).notices() == old(self).notices()
                },
                Some(stored) => {
                    &&& removed
                    &&& final(self)@ == old(self)@.remove(stored)
                    &&& final(self).notices() == old(self).notices() + crate::notify::key_notice(
                        old(self).destroys_keys(),
                        stored,
                    ) + crate::notify::value_notice(old(self).destroys_values(), old(self)@[stored])
                },
            },
    {
        self.remove_internal(key, true)
    }

    /// Remove the key that equals `key`; nothing is destroyed. Returns whether there was one.
    pub fn steal(&mut self, key: GPointer) -> (removed: bool)
        requires
            old(self).wf(),
        ensures
            final(self).wf(),
            final(self).same_setup(old(self)),
            final(self).notices() == old(self).notices(),
            match old(self).stored_key(key) {
                None => !removed && final(self)@ == old(self)@,
                Some(stored) => removed && final(self)@ == old(self)@.remove(stored),
            },
    {
        self.remove_internal(key, false)
    }

    /// Remove the key that equals `lookup_key` and hand it and its value out where the caller
    /// asks for them (0 where there is none); nothing is destroyed. Returns whether there was one.
    pub fn steal_extended(
        &mut self,
        lookup_key: GPointer,
        stolen_key: Option<&mut GPointer>,
        stolen_value: Option<&mut GPointer>,
    ) -> (found: bool)
        requires
            old(self).wf(),
        ensures
            final(self).wf(),
            final(self).same_setup(old(self)),
            final(self).notices() == old(self).notices(),
            found == old(self).stored_key(lookup_key) is Some,
            final(self)@ == (match old(self).stored_key(lookup_key) {
                Some(stored) => old(self)@.remove(stored),
                None => old(self)@,
            }),
            stolen_key matches Some(k) ==> *final(k) == (match old(self).stored_key(lookup_key) {
                Some(stored) => stored,
                None => 0,
            }),
            stolen_value matches Some(v) ==> *final(v) == (match old(self).stored_key(lookup_key) {
                Some(stored) => old(self)@[stored],
                None => 0,
            }),
    {
        let (node_index, _) = self.lookup_node(lookup_key);
        if !hash_is_real(self.storage.hashes[node_index as usize]) {
            if let Some(k) = stolen_key {
                *k = 0;
            }
            if let Some(v) = stolen_value {
                *v = 0;
            }
            return false;
        }
        proof {
            assert(self.storage.slots()[node_index as int] is Some);
            crate::slots::lemma_contents_at(self.storage.slots(), node_index as int);
        }
        let key: GPointer = self.storage.keys[node_index as usize];
        let value: GPointer = fetch_value(&self.storage, node_index);
        if let Some(k) = stolen_key {
            *k = key;
        }
        if let Some(v) = stolen_value {
            *v = value;
        }
        self.remove_node(node_index, false);
        self.after_removal();
        true
    }

    /// Empty all buckets; with `notify`, all entries are due for destruction, in order.
    fn remove_all_nodes(&mut self, notify: bool)
        requires
            old(self).wf(),
        ensures
            final(self).wf(),
            final(self).same_setup(old(self)),
            final(self)@ == Map::<GPointer, GPointer>::empty(),
            final(self).notices() == old(self).notices() + crate::notify::entry_notices(
                old(self).entries(),
                notify && old(self).destroys_keys(),
                notify && old(self).destroys_values(),
            ),
    {
        let ghost before = self.storage;
        let ghost tie = self.tie();
        proof {
            self.lemma_counts();
        }
        if self.storage.nnodes == 0 {
            proof {
                assert(self.entries() =~= Seq::<Entry>::empty());
                assert(self.storage.map() =~= Map::<GPointer, GPointer>::empty()) by {
                    vstd::set_lib::lemma_set_empty_equivalency_len(self.storage.map().dom());
                }
            }
            return;
        }
        if !notify || (!self.key_destroy && !self.value_destroy) {
            self.storage.nnodes = 0;
            self.storage.noccupied = 0;
            self.storage.hashes = vec![UNUSED_HASH_VALUE; self.storage.bucket_count as usize];
            self.storage.keys = vec![0usize; self.storage.bucket_count as usize];
            if !self.storage.is_set {
                self.storage.values = vec![0usize; self.storage.bucket_count as usize];
            }
            proof {
                lemma_all_unused(self.storage);
                lemma_no_notices(before.slots());
                assert(self.tie() =~= tie);
            }
            return;
        }
        let old_size: u32 = self.storage.bucket_count;
        let mut i: u32 = 0;
        assert(before.slots().take(0) =~= Seq::<crate::slots::Slot>::empty());
        while i < old_size
            invariant
                i <= old_size,
                old_size == before.bucket_count,
                self.storage == before,
                before.array_size(old_size as nat),
                self.same_setup(old(self)),
                notify,
                self.notices@ == old(self).notices@ + crate::notify::entry_notices(
                    crate::slots::entries(before.slots().take(i as int)),
                    self.key_destroy,
                    self.value_destroy,
                ),
            decreases old_size - i,
        {
            proof {
                let now = before.slots().take(i + 1);
                assert(now.drop_last() =~= before.slots().take(i as int));
                assert(now.last() == before.slot(i as int));
                let list = crate::slots::entries(now);
                if now.last() is Some {
                    assert(list.drop_last() =~= crate::slots::entries(now.drop_last()));
                }
            }
            if hash_is_real(self.storage.hashes[i as usize]) {
                let key: GPointer = self.storage.keys[i as usize];
                let value: GPointer = fetch_value(&self.storage, i);
                notify_key(&mut self.notices, self.key_destroy, key);
                notify_value(&mut self.notices, self.value_destroy, value);
                assert(self.notices@ =~= old(self).notices@ + crate::notify::entry_notices(
                    crate::slots::entries(before.slots().take(i + 1)),
                    self.key_destroy,
                    self.value_destroy,
                ));
            }
            i = i + 1;
        }
        assert(before.slots().take(old_size as int) =~= before.slots());
        self.storage = setup_storage(self.storage.version, Ghost(tie));
        assert(self.tie() =~= tie);
    }

    /// Remove all entries; they are due for destruction in the order of iteration, each key
    /// before its value.
    pub fn remove_all(&mut self)
        requires
            old(self).wf(),
        ensures
            final(self).wf(),
            final(self).same_setup(old(self)),
            final(self)@ == Map::<GPointer, GPointer>::empty(),
            final(self).notices() == old(self).notices() + crate::notify::entry_notices(
                old(self).entries(),
                old(self).destroys_keys(),
                old(self).destroys_values(),
            ),
    {
        self.clear(true);
    }

    /// Remove all entries; nothing is destroyed.
    pub fn steal_all(&mut self)
        requires
            old(self).wf(),
        ensures
            final(self).wf(),
            final(self).same_setup(old(self)),
            final(self)@ == Map::<GPointer, GPointer>::empty(),
            final(self).notices() == old(self).notices(),
    {
        proof {
            lemma_no_notices(self.storage.slots());
        }
        self.clear(false);
    }

    fn clear(&mut self, notify: bool)
        requires
            old(self).wf(),
        ensures
            final(self).wf(),
            final(self).same_setup(old(self)),
            final(self)@ == Map::<GPointer, GPointer>::empty(),
            final(self).notices() == old(self).notices() + crate::notify::entry_notices(
                old(self).entries(),
                notify && old(self).destroys_keys(),
                notify && old(self).destroys_values(),
            ),
    {
        let ghost before = self.storage;
        if self.storage.nnodes != 0 {
            bump_version(&mut self.storage);
        }
        assert(self.storage.slots() =~= before.slots());
        assert(self.tie() =~= old(self).tie());
        self.remove_all_nodes(notify);
        maybe_resize(&mut self.storage, Ghost(old(self).tie()));
        assert(self.tie() =~= old(self).tie());
    }

    /// The end of a table: all entries leave it. Returns all due calls.
    pub fn release(self) -> (due: Vec<DestroyNotice>)
        requires
            self.wf(),
        ensures
            due@ == self.notices() + crate::notify::entry_notices(
                self.entries(),
                self.destroys_keys(),
                self.destroys_values(),
            ),
    {
        let mut table = self;
        table.remove_all_nodes(true);
        table.notices
    }

    /// Call `func` with each key, its value and the data so far, in the order of iteration;
    /// the data is what the call before returned, `data` at first. Returns the last data.
    pub fn foreach<U, F: Fn(GPointer, GPointer, U) -> U>(&self, func: F, data: U) -> (result: U)
        requires
            self.wf(),
            forall|key: GPointer, value: GPointer, data: U| #[trigger]
                func.requires((key, value, data)),
        ensures
            crate::callback::folds(
                visit(func),
                self.entries(),
                data,
                result,
            ),
    {
        let ghost step = visit::<U, F>(func);
        let ghost slots = self.storage.slots();
        let mut now: U = data;
        let mut i: u32 = 0;
        proof {
            assert(slots.take(0) =~= Seq::<crate::slots::Slot>::empty());
            crate::callback::lemma_folds_empty::<Entry, U>(step, data);
            assert(crate::slots::entries(slots.take(0)) =~= Seq::<Entry>::empty());
        }
        while i < self.storage.bucket_count
            invariant
                self.wf(),
                slots == self.storage.slots(),
                step == visit::<U, F>(func),
                forall|key: GPointer, value: GPointer, data: U| #[trigger]
                    func.requires((key, value, data)),
                i <= self.storage.bucket_count,
                crate::callback::folds(
                    step,
                    crate::slots::entries(slots.take(i as int)),
                    data,
                    now,
                ),
            decreases self.storage.bucket_count - i,
        {
            proof {
                assert(slots.take(i + 1).drop_last() =~= slots.take(i as int));
                assert(slots.take(i + 1).last() == self.storage.slot(i as int));
            }
            if hash_is_real(self.storage.hashes[i as usize]) {
                let key: GPointer = self.storage.keys[i as usize];
                let value: GPointer = fetch_value(&self.storage, i);
                let ghost before = now;
                now = func(key, value, now);
                proof {
                    let entry = Entry { key, value };
                    assert(step(entry, before, now));
                    crate::callback::lemma_folds_push(
                        step,
                        crate::slots::entries(slots.take(i as int)),
                        entry,
                        data,
                        before,
                        now,
                    );
                }
            }
            i = i + 1;
        }
        assert(slots.take(slots.len() as int) =~= slots);
        now
    }

    /// The value of the first entry, in the order of iteration, on which `predicate` holds; 0
    /// where it holds on none.
    pub fn find<F: Fn(GPointer, GPointer) -> bool>(&self, predicate: F) -> (value: GPointer)
        requires
            self.wf(),
            forall|key: GPointer, value: GPointer| #[trigger] predicate.requires((key, value)),
        ensures
            exists|n: int| #[trigger]
                crate::callback::finds(entry_test(predicate), self.entries(), n) && value == (if n < self.entries().len() {
                    self.entries()[n].value
                } else {
                    0
                }),
            value != 0 ==> exists|key: GPointer| #[trigger]
                self@.contains_key(key) && self@[key] == value && predicate.ensures(
                    (key, value),
                    true,
                ),
            value == 0 ==> {
                ||| forall|key: GPointer| #[trigger]
                    self@.contains_key(key) ==> predicate.ensures((key, self@[key]), false)
                ||| exists|key: GPointer| #[trigger]
                    self@.contains_key(key) && self@[key] == 0 && predicate.ensures((key, 0usize), true)
            },
    {
        let ghost slots = self.storage.slots();
        let ghost all = self.entries();
        let ghost mut seen: int = 0;
        let ghost test = entry_test(predicate);
        let mut i: u32 = 0;
        proof {
            assert(slots.take(0) =~= Seq::<crate::slots::Slot>::empty());
        }
        while i < self.storage.bucket_count
            invariant
                self.wf(),
                slots == self.storage.slots(),
                all == self.entries(),
                forall|key: GPointer, value: GPointer| #[trigger] predicate.requires((key, value)),
                i <= self.storage.bucket_count,
                seen == crate::slots::entries(slots.take(i as int)).len(),
                seen <= all.len(),
                test == entry_test(predicate),
                forall|j: int| 0 <= j < seen ==> test(#[trigger] all[j], false),
            decreases self.storage.bucket_count - i,
        {
            proof {
                assert(slots.take(i + 1).drop_last() =~= slots.take(i as int));
                assert(slots.take(i + 1).last() == self.storage.slot(i as int));
                lemma_entries_prefix(slots, i + 1);
            }
            if hash_is_real(self.storage.hashes[i as usize]) {
                let key: GPointer = self.storage.keys[i as usize];
                let value: GPointer = fetch_value(&self.storage, i);
                assert(all[seen] == crate::slots::entries(slots.take(i + 1))[seen]);
                assert(all[seen] == (Entry { key, value }));
                if predicate(key, value) {
                    assert(crate::callback::finds(test, all, seen));
                    proof {
                        law_find(*self, predicate, seen);
                    }
                    return value;
                }
                proof {
                    seen = seen + 1;
                }
            }
            i = i + 1;
        }
        proof {
            assert(slots.take(slots.len() as int) =~= slots);
            assert(crate::callback::finds(test, all, seen));
            law_find(*self, predicate, seen);
        }
        0
    }

    /// Take out the entries on which `func` holds.
    fn foreach_remove_or_steal<F: Fn(GPointer, GPointer) -> bool>(
        &mut self,
        func: F,
        notify: bool,
    ) -> (deleted: u32)
        requires
            old(self).wf(),
            forall|key: GPointer, value: GPointer| #[trigger] func.requires((key, value)),
        ensures
            final(self).wf(),
            final(self).same_setup(old(self)),
            exists|marks: Seq<bool>| #[trigger]
                judged(func, old(self).entries(), marks) && {
                    &&& deleted == crate::slots::count_true(marks)
                    &&& final(self)@ == old(self)@.remove_keys(
                        marked_keys(old(self).entries(), marks),
                    )
                    &&& final(self).notices() == old(self).notices() + crate::notify::entry_notices(
                        marked_entries(old(self).entries(), marks),
                        notify && old(self).destroys_keys(),
                        notify && old(self).destroys_values(),
                    )
                },
    {
        let ghost slots = self.storage.slots();
        let ghost map = self.storage.map();
        let ghost keys_on = notify && self.key_destroy;
        let ghost values_on = notify && self.value_destroy;
        let ghost mut marks: Seq<bool> = Seq::empty();
        let bucket_count: u32 = self.storage.bucket_count;
        let mut deleted: u32 = 0;
        let mut i: u32 = 0;
        proof {
            self.lemma_counts();
            assert(slots.take(0) =~= Seq::<crate::slots::Slot>::empty());
            assert(map.remove_keys(marked_keys(Seq::<Entry>::empty(), marks)) =~= map);
        }
        while i < bucket_count
            invariant
                i <= bucket_count,
                bucket_count == slots.len(),
                self.wf(),
                self.same_setup(old(self)),
                self.storage.bucket_count == bucket_count,
                slots == old(self).storage.slots(),
                map == old(self).storage.map(),
                crate::slots::keys_distinct(slots),
                map == crate::slots::contents(slots),
                keys_on == (notify && self.key_destroy),
                values_on == (notify && self.value_destroy),
                forall|key: GPointer, value: GPointer| #[trigger] func.requires((key, value)),
                self.storage.slots().len() == slots.len(),
                forall|p: int|
                    i <= p < slots.len() ==> self.storage.slots()[p] == #[trigger] slots[p],
                judged(func, crate::slots::entries(slots.take(i as int)), marks),
                deleted == crate::slots::count_true(marks),
                deleted + self.storage.nnodes == old(self).storage.nnodes,
                self.storage.map() == map.remove_keys(
                    marked_keys(crate::slots::entries(slots.take(i as int)), marks),
                ),
                self.notices@ == old(self).notices@ + crate::notify::entry_notices(
                    marked_entries(crate::slots::entries(slots.take(i as int)), marks),
                    keys_on,
                    values_on,
                ),
            decreases bucket_count - i,
        {
            let ghost done = crate::slots::entries(slots.take(i as int));
            proof {
                assert(slots.take(i + 1).drop_last() =~= slots.take(i as int));
                assert(slots.take(i + 1).last() == slots[i as int]);
                assert(self.storage.slots()[i as int] == self.storage.slot(i as int));
                self.lemma_counts();
            }
            if hash_is_real(self.storage.hashes[i as usize]) {
                let key: GPointer = self.storage.keys[i as usize];
                let value: GPointer = fetch_value(&self.storage, i);
                let ghost entry = Entry { key, value };
                let ghost before = *self;
                let doomed: bool = func(key, value);
                if doomed {
                    self.remove_node(i, notify);
                    deleted = deleted + 1;
                }
                proof {
                    let more = marks.push(doomed);
                    let list = done.push(entry);
                    assert(crate::slots::entries(slots.take(i + 1)) == list);
                    lemma_marked_entries_prefix(done, marks, more);
                    assert(list.drop_last() =~= done);
                    assert(more.drop_last() =~= marks);
                    let removed = marked_keys(done, marks);
                    let removed_now = marked_keys(list, more);
                    assert forall|k: GPointer| removed_now.contains(k) == (removed.contains(k) || (
                    doomed && k == key)) by {
                        if removed.contains(k) {
                            let j = choose|j: int|
                                0 <= j < done.len() && marks[j] && #[trigger] done[j].key == k;
                            assert(list[j].key == k && more[j]);
                        }
                        if doomed && k == key {
                            assert(list[done.len() as int].key == k);
                        }
                        if removed_now.contains(k) {
                            let j = choose|j: int|
                                0 <= j < list.len() && more[j] && #[trigger] list[j].key == k;
                            if j < done.len() {
                                assert(done[j].key == k && marks[j]);
                            }
                        }
                    }
                    assert(self.storage.map() =~= map.remove_keys(removed_now));
                    if doomed {
                        let taken = marked_entries(done, marks);
                        assert(marked_entries(list, more) == taken.push(entry));
                        assert(taken.push(entry).drop_last() =~= taken);
                        assert(self.notices@ =~= old(self).notices@ + crate::notify::entry_notices(
                            taken.push(entry),
                            keys_on,
                            values_on,
                        ));
                    }
                    assert(judged(func, list, more)) by {
                        assert forall|j: int| 0 <= j < list.len() implies entry_test(func)(
                            #[trigger] list[j],
                            more[j],
                        ) by {
                            if j < done.len() {
                                assert(entry_test(func)(done[j], marks[j]));
                            }
                        }
                    }
                    marks = more;
                }
            }
            i = i + 1;
        }
        proof {
            assert(slots.take(slots.len() as int) =~= slots);
        }
        if deleted > 0 {
            self.after_removal();
        } else {
            maybe_resize(&mut self.storage, Ghost(old(self).tie()));
            assert(self.tie() =~= old(self).tie());
        }
        assert(judged(func, old(self).entries(), marks));
        deleted
    }

    /// Remove the entries on which `func` holds; they are due for destruction in the order of
    /// iteration. Returns how many there were.
    pub fn foreach_remove<F: Fn(GPointer, GPointer) -> bool>(&mut self, func: F) -> (deleted: u32)
        requires
            old(self).wf(),
            forall|key: GPointer, value: GPointer| #[trigger] func.requires((key, value)),
        ensures
            final(self).wf(),
            final(self).same_setup(old(self)),
            exists|marks: Seq<bool>| #[trigger]
                judged(func, old(self).entries(), marks) && {
                    &&& deleted == crate::slots::count_true(marks)
                    &&& final(self)@ == old(self)@.remove_keys(
                        marked_keys(old(self).entries(), marks),
                    )
                    &&& final(self).notices() == old(self).notices() + crate::notify::entry_notices(
                        marked_entries(old(self).entries(), marks),
                        old(self).destroys_keys(),
                        old(self).destroys_values(),
                    )
                },
            forall|key: GPointer| #[trigger]
                final(self)@.contains_key(key) ==> old(self)@.contains_key(key) && final(self)@[key]
                    == old(self)@[key] && func.ensures((key, old(self)@[key]), false),
            forall|key: GPointer| #[trigger]
                old(self)@.contains_key(key) && !final(self)@.contains_key(key) ==> func.ensures(
                    (key, old(self)@[key]),
                    true,
                ),
            deleted == old(self)@.dom().len() - final(self)@.dom().len(),
    {
        let deleted: u32 = self.foreach_remove_or_steal(func, true);
        proof {
            let marks = choose|marks: Seq<bool>| #[trigger]
                judged(func, old(self).entries(), marks) && {
                    &&& deleted == crate::slots::count_true(marks)
                    &&& self@ == old(self)@.remove_keys(marked_keys(old(self).entries(), marks))
                    &&& self.notices() == old(self).notices() + crate::notify::entry_notices(
                        marked_entries(old(self).entries(), marks),
                        old(self).destroys_keys(),
                        old(self).destroys_values(),
                    )
                };
            law_removal_by_predicate(*old(self), func, marks);
        }
        deleted
    }

    /// Remove the entries on which `func` holds; nothing is destroyed. Returns how many there
    /// were.
    pub fn foreach_steal<F: Fn(GPointer, GPointer) -> bool>(&mut self, func: F) -> (deleted: u32)
        requires
            old(self).wf(),
            forall|key: GPointer, value: GPointer| #[trigger] func.requires((key, value)),
        ensures
            final(self).wf(),
            final(self).same_setup(old(self)),
            final(self).notices() == old(self).notices(),
            exists|marks: Seq<bool>| #[trigger]
                judged(func, old(self).entries(), marks) && {
                    &&& deleted == crate::slots::count_true(marks)
                    &&& final(self)@ == old(self)@.remove_keys(
                        marked_keys(old(self).entries(), marks),
                    )
                },
            forall|key: GPointer| #[trigger]
                final(self)@.contains_key(key) ==> old(self)@.contains_key(key) && final(self)@[key]
                    == old(self)@[key] && func.ensures((key, old(self)@[key]), false),
            forall|key: GPointer| #[trigger]
                old(self)@.contains_key(key) && !final(self)@.contains_key(key) ==> func.ensures(
                    (key, old(self)@[key]),
                    true,
                ),
            deleted == old(self)@.dom().len() - final(self)@.dom().len(),
    {
        let deleted: u32 = self.foreach_remove_or_steal(func, false);
        proof {
            let marks = choose|marks: Seq<bool>| #[trigger]
                judged(func, old(self).entries(), marks) && {
                    &&& deleted == crate::slots::count_true(marks)
                    &&& self@ == old(self)@.remove_keys(marked_keys(old(self).entries(), marks))
                    &&& self.notices() == old(self).notices() + crate::notify::entry_notices(
                        marked_entries(old(self).entries(), marks),
                        false,
                        false,
                    )
                };
            crate::notify::lemma_no_notices(marked_entries(old(self).entries(), marks));
            assert(self.notices() =~= old(self).notices());
            law_removal_by_predicate(*old(self), func, marks);
        }
        deleted
    }

    /// An iterator before the first entry.
    pub fn iter<'table>(&'table mut self) -> (iter: HashTableIter<'table, H, E>)
        requires
            old(self).wf(),
        ensures
            iter.wf(),
            iter.now() == *old(self),
            iter.position() == -1,
            *final(self) == *final(iter.table),
    {
        let version: u64 = self.storage.version;
        HashTableIter { table: self, position: ITER_POSITION_INVALID, version }
    }
}

proof fn lemma_no_notices(slots: Seq<crate::slots::Slot>)
    ensures
        crate::notify::entry_notices(crate::slots::entries(slots), false, false)
            == Seq::<DestroyNotice>::empty(),
{
    crate::notify::lemma_no_notices(crate::slots::entries(slots));
}

/// The entries of the first buckets come first.
proof fn lemma_entries_prefix(slots: Seq<crate::slots::Slot>, n: int)
    requires
        0 <= n <= slots.len(),
    ensures
        crate::slots::entries(slots.take(n)).len() <= crate::slots::entries(slots).len(),
        forall|i: int|
            0 <= i < crate::slots::entries(slots.take(n)).len() ==> crate::slots::entries(
                slots,
            )[i] == #[trigger] crate::slots::entries(slots.take(n))[i],
    decreases slots.len(),
{
    if n < slots.len() {
        assert(slots.drop_last().take(n) =~= slots.take(n));
        lemma_entries_prefix(slots.drop_last(), n);
    } else {
        assert(slots.take(n) =~= slots);
    }
}

/// What [`HashTable::insert`] stores is what [`HashTable::lookup`] finds, and keys that do not
/// equal the inserted one are found as before.
pub proof fn law_insert_then_lookup<
    H: Fn(GPointer) -> u32,
    E: Fn(GPointer, GPointer) -> bool,
>(
    before: HashTable<H, E>,
    after: HashTable<H, E>,
    key: GPointer,
    value: GPointer,
    other: GPointer,
)
    requires
        before.wf(),
        after.wf(),
        after.same_setup(&before),
        after@ == (match before.stored_key(key) {
            Some(stored) => before@.insert(stored, value),
            None => before@.insert(key, value),
        }),
    ensures
        after.stored_key(key) is Some,
        after@[after.stored_key(key)->0] == value,
        before.stored_key(key) is Some ==> after.stored_key(key) == before.stored_key(key),
        !keys_equal(before.model(), key, other) ==> {
            &&& after.stored_key(other) == before.stored_key(other)
            &&& after.stored_key(other) matches Some(stored) ==> after@[stored] == before@[stored]
        },
{
    let e = before.model@;
    let kept = match before.stored_key(key) {
        Some(stored) => stored,
        None => key,
    };
    assert(keys_equal(e, key, key));
    assert(after@.dom().contains(kept));
    after.lemma_stored_key(kept, key);
    if !keys_equal(e, key, other) {
        if let Some(stored) = after.stored_key(other) {
            if stored == kept {
                assert(keys_equal(e, key, kept));
            }
            assert(before@.dom().contains(stored));
            before.lemma_stored_key(stored, other);
        }
        if let Some(stored) = before.stored_key(other) {
            assert(after@.dom().contains(stored));
            after.lemma_stored_key(stored, other);
        }
    }
}

/// After [`HashTable::replace`] the stored key is the new one itself, with the new value, and keys
/// that do not equal it are found as before.
pub proof fn law_replace_then_lookup<
    H: Fn(GPointer) -> u32,
    E: Fn(GPointer, GPointer) -> bool,
>(
    before: HashTable<H, E>,
    after: HashTable<H, E>,
    key: GPointer,
    value: GPointer,
    other: GPointer,
)
    requires
        before.wf(),
        after.wf(),
        after.same_setup(&before),
        after@ == (match before.stored_key(key) {
            Some(stored) => before@.remove(stored).insert(key, value),
            None => before@.insert(key, value),
        }),
    ensures
        after.stored_key(key) == Some(key),
        after@[key] == value,
        !keys_equal(before.model(), key, other) ==> {
            &&& after.stored_key(other) == before.stored_key(other)
            &&& after.stored_key(other) matches Some(stored) ==> after@[stored] == before@[stored]
        },
{
    let e = before.model@;
    assert(keys_equal(e, key, key));
    assert(after@.dom().contains(key));
    after.lemma_stored_key(key, key);
    if !keys_equal(e, key, other) {
        if let Some(stored) = after.stored_key(other) {
            assert(before@.dom().contains(stored));
            before.lemma_stored_key(stored, other);
        }
        if let Some(stored) = before.stored_key(other) {
            if let Some(dropped) = before.stored_key(key) {
                if dropped == stored {
                    assert(keys_equal(e, key, dropped));
                }
            }
            assert(after@.dom().contains(stored));
            after.lemma_stored_key(stored, other);
        }
    }
}

/// A removed or stolen key is not found any more, and all others are found as before.
pub proof fn law_remove_then_lookup<
    H: Fn(GPointer) -> u32,
    E: Fn(GPointer, GPointer) -> bool,
>(before: HashTable<H, E>, after: HashTable<H, E>, key: GPointer, other: GPointer)
    requires
        before.wf(),
        after.wf(),
        after.same_setup(&before),
        after@ == (match before.stored_key(key) {
            Some(stored) => before@.remove(stored),
            None => before@,
        }),
    ensures
        after.stored_key(key) is None,
        !keys_equal(before.model(), key, other) ==> {
            &&& after.stored_key(other) == before.stored_key(other)
            &&& after.stored_key(other) matches Some(stored) ==> after@[stored] == before@[stored]
        },
{
    let e = before.model@;
    if let Some(stored) = after.stored_key(key) {
        assert(before@.dom().contains(stored));
        before.lemma_stored_key(stored, key);
    }
    if !keys_equal(e, key, other) {
        if let Some(stored) = after.stored_key(other) {
            assert(before@.dom().contains(stored));
            before.lemma_stored_key(stored, other);
        }
        if let Some(stored) = before.stored_key(other) {
            if let Some(dropped) = before.stored_key(key) {
                if dropped == stored {
                    assert(keys_equal(e, key, dropped));
                }
            }
            assert(after@.dom().contains(stored));
            after.lemma_stored_key(stored, other);
        }
    }
}

/// The functions of a table compute its model: an equality that is an equivalence, and a hash that
/// equal keys share.
pub proof fn law_functions_go_together<
    H: Fn(GPointer) -> u32,
    E: Fn(GPointer, GPointer) -> bool,
>(table: HashTable<H, E>)
    requires
        table.wf(),
    ensures
        key_functions(table.hash_func(), table.key_equal_func(), table.model()),
{
}

/// Iteration goes through exactly the entries of the map, each key once; no two stored keys are
/// equal, and a stored key is found as itself.
pub proof fn law_entries<H: Fn(GPointer) -> u32, E: Fn(GPointer, GPointer) -> bool>(
    table: HashTable<H, E>,
)
    requires
        table.wf(),
    ensures
        table.entries().len() == table@.dom().len(),
        forall|i: int|
            0 <= i < table.entries().len() ==> {
                &&& table@.contains_key((#[trigger] table.entries()[i]).key)
                &&& table@[table.entries()[i].key] == table.entries()[i].value
            },
        forall|k: GPointer| #[trigger]
            table@.contains_key(k) ==> table.entries().contains(
                Entry { key: k, value: table@[k] },
            ) && table.stored_key(k) == Some(k),
        forall|i: int, j: int|
            0 <= i < j < table.entries().len() ==> !keys_equal(
                table.model(),
                (#[trigger] table.entries()[i]).key,
                (#[trigger] table.entries()[j]).key,
            ),
{
    table.lemma_counts();
    crate::slots::lemma_entries(table.storage.slots());
    let e = table.model@;
    assert forall|k: GPointer| #[trigger] table@.contains_key(k) implies table.stored_key(k)
        == Some(k) by {
        assert(keys_equal(e, k, k));
        table.lemma_stored_key(k, k);
    }
    assert forall|i: int, j: int| 0 <= i < j < table.entries().len() implies !keys_equal(
        e,
        (#[trigger] table.entries()[i]).key,
        (#[trigger] table.entries()[j]).key,
    ) by {
        assert(table@.contains_key(table.entries()[i].key));
        assert(table@.contains_key(table.entries()[j].key));
    }
}

/// Looking a key up finds the one stored key that the table's equality, asked about the stored key
/// and the one looked for, calls equal; without an equality function, the key itself. Where it finds
/// none, no stored key is equal.
pub proof fn law_lookup_goes_by_equality<
    H: Fn(GPointer) -> u32,
    E: Fn(GPointer, GPointer) -> bool,
>(table: HashTable<H, E>, key: GPointer)
    requires
        table.wf(),
    ensures
        table.stored_key(key) matches Some(stored) ==> {
            &&& table@.contains_key(stored)
            &&& table.key_equal_func() matches Some(func) ==> !func.ensures((stored, key), false)
        },
        table.stored_key(key) is None ==> forall|stored: GPointer| #[trigger]
            table@.contains_key(stored) ==> (match table.key_equal_func() {
                Some(func) => !func.ensures((stored, key), true),
                None => stored != key,
            }),
        table.key_equal_func() is None ==> table.stored_key(key) == (if table@.contains_key(key) {
            Some(key)
        } else {
            None
        }),
        table@.contains_key(key) ==> table.stored_key(key) == Some(key),
{
    let e = table.model@;
    assert(keys_equal(e, key, key));
    if table@.contains_key(key) {
        table.lemma_stored_key(key, key);
    }
    if let Some(stored) = table.stored_key(key) {
        assert(table@.dom().contains(stored) && keys_equal(e, stored, key));
    } else {
        assert forall|stored: GPointer| #[trigger] table@.contains_key(stored) implies !keys_equal(
            e,
            stored,
            key,
        ) by {
            assert(table@.dom().contains(stored));
        }
    }
}

/// What [`HashTable::find`] finds: where the predicate, asked about the entries in the order of
/// iteration, holds first on the `n`-th, the value of a stored key with which it holds; where it
/// holds on none, it fails on every key with its value.
pub proof fn law_find<
    H: Fn(GPointer) -> u32,
    E: Fn(GPointer, GPointer) -> bool,
    F: Fn(GPointer, GPointer) -> bool,
>(table: HashTable<H, E>, predicate: F, n: int)
    requires
        table.wf(),
        crate::callback::finds(entry_test(predicate), table.entries(), n),
    ensures
        0 <= n <= table.entries().len(),
        n < table.entries().len() ==> {
            let found = table.entries()[n];
            &&& table@.contains_key(found.key)
            &&& table@[found.key] == found.value
            &&& predicate.ensures((found.key, found.value), true)
        },
        n == table.entries().len() ==> forall|key: GPointer| #[trigger]
            table@.contains_key(key) ==> predicate.ensures((key, table@[key]), false),
        forall|i: int|
            0 <= i < n ==> predicate.ensures(
                ((#[trigger] table.entries()[i]).key, table.entries()[i].value),
                false,
            ),
{
    law_entries(table);
    let all = table.entries();
    let test = entry_test::<F>(predicate);
    assert forall|i: int| 0 <= i < n implies predicate.ensures(
        ((#[trigger] all[i]).key, all[i].value),
        false,
    ) by {
        assert(test(all[i], false));
    }
    if n == all.len() {
        assert forall|key: GPointer| #[trigger] table@.contains_key(key) implies predicate.ensures(
            (key, table@[key]),
            false,
        ) by {
            let i = choose|i: int|
                0 <= i < all.len() && all[i] == (Entry { key, value: table@[key] });
            assert(predicate.ensures((all[i].key, all[i].value), false));
        }
    }
}

/// What [`HashTable::foreach_remove`] and [`HashTable::foreach_steal`] leave in the table: exactly
/// the keys, with their values, on which the predicate fails.
pub proof fn law_removal_by_predicate<
    H: Fn(GPointer) -> u32,
    E: Fn(GPointer, GPointer) -> bool,
    F: Fn(GPointer, GPointer) -> bool,
>(table: HashTable<H, E>, predicate: F, marks: Seq<bool>)
    requires
        table.wf(),
        judged(predicate, table.entries(), marks),
    ensures
        ({
            let after = table@.remove_keys(marked_keys(table.entries(), marks));
            &&& forall|key: GPointer| #[trigger]
                after.contains_key(key) ==> table@.contains_key(key) && after[key] == table@[key]
                    && predicate.ensures((key, table@[key]), false)
            &&& forall|key: GPointer| #[trigger]
                table@.contains_key(key) && !after.contains_key(key) ==> predicate.ensures(
                    (key, table@[key]),
                    true,
                )
            &&& after.dom().len() + crate::slots::count_true(marks) == table@.dom().len()
        }),
{
    law_entries(table);
    let all = table.entries();
    let gone = marked_keys(all, marks);
    let after = table@.remove_keys(gone);
    let test = entry_test::<F>(predicate);
    assert forall|key: GPointer| #[trigger] table@.contains_key(key) implies predicate.ensures(
        (key, table@[key]),
        gone.contains(key),
    ) by {
        let i = choose|i: int| 0 <= i < all.len() && all[i] == (Entry { key, value: table@[key] });
        assert(test(all[i], marks[i]));
        if gone.contains(key) {
            let j = choose|j: int| 0 <= j < all.len() && marks[j] && #[trigger] all[j].key == key;
            if i != j {
                assert(keys_equal(table.model(), all[i].key, all[j].key));
                assert(keys_equal(table.model(), all[j].key, all[i].key));
            }
        } else {
            assert(!(marks[i] && all[i].key == key));
        }
    }
    table.lemma_counts();
    lemma_marked_count(all, marks, table@.dom());
    assert(marks.take(all.len() as int) =~= marks);
    assert(after.dom() =~= table@.dom().difference(gone));
}

/// As many keys are marked as there are marks.
proof fn lemma_marked_count(list: Seq<Entry>, marks: Seq<bool>, keys: Set<GPointer>)
    requires
        list.len() <= marks.len(),
        keys.finite(),
        forall|i: int| 0 <= i < list.len() ==> keys.contains((#[trigger] list[i]).key),
        forall|i: int, j: int|
            0 <= i < j < list.len() ==> (#[trigger] list[i]).key != (#[trigger] list[j]).key,
    ensures
        keys.difference(marked_keys(list, marks)).finite(),
        keys.difference(marked_keys(list, marks)).len() + crate::slots::count_true(
            marks.take(list.len() as int),
        ) == keys.len(),
    decreases list.len(),
{
    let now = keys.difference(marked_keys(list, marks));
    if list.len() == 0 {
        assert(now =~= keys);
        assert(marks.take(0) =~= Seq::<bool>::empty());
    } else {
        let less = list.drop_last();
        let last = list.last();
        let n = less.len() as int;
        lemma_marked_count(less, marks, keys);
        let before = keys.difference(marked_keys(less, marks));
        assert(marks.take(n + 1).drop_last() =~= marks.take(n));
        assert forall|key: GPointer| marked_keys(list, marks).contains(key) == (marked_keys(
            less,
            marks,
        ).contains(key) || (marks[n] && key == last.key)) by {
            if marked_keys(less, marks).contains(key) {
                let i = choose|i: int| 0 <= i < n && marks[i] && #[trigger] less[i].key == key;
                assert(list[i].key == key);
            }
            if marked_keys(list, marks).contains(key) {
                let i = choose|i: int| 0 <= i < n + 1 && marks[i] && #[trigger] list[i].key == key;
                if i < n {
                    assert(less[i].key == key);
                }
            }
            if marks[n] && key == last.key {
                assert(list[n].key == key);
            }
        }
        if marks[n] {
            assert(!marked_keys(less, marks).contains(last.key)) by {
                if marked_keys(less, marks).contains(last.key) {
                    let i = choose|i: int|
                        0 <= i < n && marks[i] && #[trigger] less[i].key == last.key;
                    assert(list[i].key != list[n].key);
                }
            }
            assert(keys.contains(list[n].key));
            assert(now =~= before.remove(last.key));
        } else {
            assert(now =~= before);
        }
    }
}

/// The entries that leave a table by a predicate, by their positions in the order of iteration: they
/// are those that are marked, in order.
pub proof fn law_marked_entries(list: Seq<Entry>, marks: Seq<bool>) -> (at: Seq<int>)
    requires
        list.len() == marks.len(),
    ensures
        marked_entries(list, marks).len() == at.len(),
        forall|j: int|
            0 <= j < at.len() ==> {
                &&& 0 <= #[trigger] at[j] < list.len()
                &&& marks[at[j]]
                &&& marked_entries(list, marks)[j] == list[at[j]]
            },
        forall|j: int, k: int| 0 <= j < k < at.len() ==> #[trigger] at[j] < #[trigger] at[k],
        forall|i: int| 0 <= i < list.len() && #[trigger] marks[i] ==> at.contains(i),
    decreases list.len(),
{
    if list.len() == 0 {
        Seq::empty()
    } else {
        let n = list.len() - 1;
        let before = law_marked_entries(list.drop_last(), marks.drop_last());
        lemma_marked_entries_prefix(list.drop_last(), marks.drop_last(), marks);
        let at = if marks[n] {
            before.push(n)
        } else {
            before
        };
        assert forall|i: int| 0 <= i < list.len() && #[trigger] marks[i] implies at.contains(i) by {
            if i < n {
                assert(marks.drop_last()[i]);
                let j = choose|j: int| 0 <= j < before.len() && before[j] == i;
                assert(at[j] == i);
            } else {
                assert(at[before.len() as int] == i);
            }
        }
        at
    }
}

/// A walk over a table calls the function with each stored key and its value, once each: one that
/// takes note of the entries it is called with has exactly those of the table in the end.
pub proof fn law_foreach_reaches_all<
    H: Fn(GPointer) -> u32,
    E: Fn(GPointer, GPointer) -> bool,
    U,
    F: Fn(GPointer, GPointer, U) -> U,
>(table: HashTable<H, E>, func: F, first: U, last: U, record: spec_fn(U) -> Seq<Entry>)
    requires
        table.wf(),
        crate::callback::folds(visit(func), table.entries(), first, last),
        forall|key: GPointer, value: GPointer, before: U, after: U| #[trigger]
            func.ensures((key, value, before), after) ==> record(after) == record(before).push(
                Entry { key, value },
            ),
        record(first) == Seq::<Entry>::empty(),
    ensures
        record(last).len() == table@.dom().len(),
        record(last).no_duplicates(),
        forall|key: GPointer, value: GPointer|
            (table@.contains_key(key) && table@[key] == value) == #[trigger] record(last).contains(
                Entry { key, value },
            ),
{
    let step = visit::<U, F>(func);
    let all = table.entries();
    law_entries(table);
    assert forall|x: Entry, before: U, after: U| #[trigger] step(x, before, after) implies record(
        after,
    ) == record(before).push(x) by {
        assert(func.ensures((x.key, x.value, before), after));
    }
    crate::callback::law_folds_reach_all(step, all, first, last, record);
    assert(record(last) =~= all);
    assert forall|key: GPointer, value: GPointer|
        (table@.contains_key(key) && table@[key] == value) == #[trigger] record(last).contains(
            Entry { key, value },
        ) by {
        if all.contains(Entry { key, value }) {
            let i = choose|i: int| 0 <= i < all.len() && all[i] == (Entry { key, value });
            assert(table@.contains_key(all[i].key));
        }
    }
    assert(all.no_duplicates()) by {
        assert forall|i: int, j: int|
            0 <= i < all.len() && 0 <= j < all.len() && i != j implies all[i] != all[j] by {
            if i < j {
                assert(!keys_equal(table.model(), all[i].key, all[j].key));
            } else {
                assert(!keys_equal(table.model(), all[j].key, all[i].key));
            }
            assert(keys_equal(table.model(), all[i].key, all[i].key));
        }
    }
}

/// An iterator over a table. It alone has access to the table while it lives.
pub struct HashTableIter<'table, H, E> {
    pub table: &'table mut HashTable<H, E>,
    pub position: u32,
    pub version: u64,
}

impl<'table, H: Fn(GPointer) -> u32, E: Fn(GPointer, GPointer) -> bool> HashTableIter<
    'table,
    H,
    E,
> {
    /// The table as it is now.
    pub open spec fn now(&self) -> HashTable<H, E> {
        *self.table
    }

    /// The bucket of the current entry; -1 before the first.
    pub closed spec fn position(&self) -> int {
        if self.position == ITER_POSITION_INVALID {
            -1
        } else {
            self.position as int
        }
    }

    /// The invariant of an iterator.
    pub closed spec fn wf(&self) -> bool {
        &&& self.now().wf()
        &&& self.version == self.now().storage.version
    }

    /// The iterator stands on an entry.
    pub open spec fn on_entry(&self) -> bool {
        &&& 0 <= self.position() < self.now().buckets().len()
        &&& self.now().buckets()[self.position()] is Some
    }

    /// The entry that the iterator stands on.
    pub open spec fn current(&self) -> Entry {
        self.now().buckets()[self.position()]->0
    }

    /// The entries up to the current one.
    pub open spec fn visited(&self) -> Seq<Entry> {
        crate::slots::entries(self.now().buckets().take(self.position() + 1))
    }

    /// Go to the next entry and write its key and value where the caller asks for them. Returns
    /// whether there is one.
    pub fn next(&mut self, key: Option<&mut GPointer>, value: Option<&mut GPointer>) -> (found: bool)
        requires
            old(self).wf(),
            old(self).position() < old(self).now().buckets().len(),
        ensures
            final(self).wf(),
            final(self).now() == old(self).now(),
            *final(final(self).table) == *final(old(self).table),
            found ==> {
                &&& final(self).on_entry()
                &&& final(self).position() > old(self).position()
                &&& final(self).visited() == old(self).visited().push(final(self).current())
                &&& key matches Some(k) ==> *final(k) == final(self).current().key
                &&& value matches Some(v) ==> *final(v) == final(self).current().value
            },
            !found ==> {
                &&& old(self).visited() == old(self).now().entries()
                &&& final(self).position() == old(self).now().buckets().len()
                &&& key matches Some(k) ==> *final(k) == *k
                &&& value matches Some(v) ==> *final(v) == *v
            },
    {
        let ghost slots = self.now().buckets();
        let ghost before = self.visited();
        let ghost start = self.position();
        let bucket_count: u32 = self.table.storage.bucket_count;
        proof {
            self.now().lemma_counts();
        }
        let mut position: u32 = self.position.wrapping_add(1);
        assert(position == self.position() + 1);
        while position < bucket_count && !hash_is_real(self.table.storage.hashes[position as usize])
            invariant
                self.wf(),
                slots == self.now().buckets(),
                bucket_count == self.now().storage.bucket_count,
                start < position <= bucket_count,
                0 <= position,
                crate::slots::entries(slots.take(position as int)) == before,
            decreases bucket_count - position,
        {
            proof {
                assert(slots.take(position + 1).drop_last() =~= slots.take(position as int));
                assert(slots.take(position + 1).last() == slots[position as int]);
            }
            position = position + 1;
        }
        self.position = position;
        if position >= bucket_count {
            assert(slots.take(slots.len() as int) =~= slots);
            return false;
        }
        proof {
            assert(slots[position as int] == self.now().storage.slot(position as int));
            assert(slots.take(position + 1).drop_last() =~= slots.take(position as int));
            assert(slots.take(position + 1).last() == slots[position as int]);
        }
        if let Some(k) = key {
            *k = self.table.storage.keys[position as usize];
        }
        if let Some(v) = value {
            *v = fetch_value(&self.table.storage, position);
        }
        true
    }

    /// The table.
    pub fn hash_table(&self) -> (table: &HashTable<H, E>)
        ensures
            *table == self.now(),
    {
        &*self.table
    }

    /// Remove the current entry; its key and value are due for destruction.
    pub fn remove(&mut self)
        requires
            old(self).wf(),
            old(self).on_entry(),
        ensures
            final(self).wf(),
            final(self).position() == old(self).position(),
            *final(final(self).table) == *final(old(self).table),
            final(self).now().same_setup(&old(self).now()),
            final(self).now().buckets() == old(self).now().buckets().update(
                old(self).position(),
                None,
            ),
            final(self).now()@ == old(self).now()@.remove(old(self).current().key),
            final(self).now().notices() == old(self).now().notices() + crate::notify::key_notice(
                old(self).now().destroys_keys(),
                old(self).current().key,
            ) + crate::notify::value_notice(
                old(self).now().destroys_values(),
                old(self).current().value,
            ),
    {
        self.remove_or_steal(true);
    }

    /// Remove the current entry; nothing is destroyed.
    pub fn steal(&mut self)
        requires
            old(self).wf(),
            old(self).on_entry(),
        ensures
            final(self).wf(),
            final(self).position() == old(self).position(),
            *final(final(self).table) == *final(old(self).table),
            final(self).now().same_setup(&old(self).now()),
            final(self).now().buckets() == old(self).now().buckets().update(
                old(self).position(),
                None,
            ),
            final(self).now()@ == old(self).now()@.remove(old(self).current().key),
            final(self).now().notices() == old(self).now().notices(),
    {
        self.remove_or_steal(false);
    }

    fn remove_or_steal(&mut self, notify: bool)
        requires
            old(self).wf(),
            old(self).on_entry(),
        ensures
            final(self).wf(),
            final(self).position() == old(self).position(),
            *final(final(self).table) == *final(old(self).table),
            final(self).now().same_setup(&old(self).now()),
            final(self).now().buckets() == old(self).now().buckets().update(
                old(self).position(),
                None,
            ),
            final(self).now()@ == old(self).now()@.remove(old(self).current().key),
            final(self).now().notices() == old(self).now().notices() + crate::notify::key_notice(
                notify && old(self).now().destroys_keys(),
                old(self).current().key,
            ) + crate::notify::value_notice(
                notify && old(self).now().destroys_values(),
                old(self).current().value,
            ),
    {
        let position: u32 = self.position;
        assert(self.now().buckets()[position as int] == self.now().storage.slot(position as int));
        self.table.remove_node(position, notify);
        let ghost removed = *self.table;
        bump_version(&mut self.table.storage);
        self.version = self.table.storage.version;
        assert(self.now().storage.slots() =~= removed.storage.slots());
        assert(self.now().tie() =~= removed.tie());
    }

    /// Give the current entry a new value; the old one is due for destruction.
    pub fn replace(&mut self, value: GPointer)
        requires
            old(self).wf(),
            old(self).on_entry(),
        ensures
            final(self).wf(),
            final(self).position() == old(self).position(),
            *final(final(self).table) == *final(old(self).table),
            final(self).now().same_setup(&old(self).now()),
            final(self).now().buckets() == old(self).now().buckets().update(
                old(self).position(),
                Some(Entry { key: old(self).current().key, value }),
            ),
            final(self).now()@ == old(self).now()@.insert(old(self).current().key, value),
            final(self).now().notices() == old(self).now().notices()
                + crate::notify::value_notice(
                old(self).now().destroys_values(),
                old(self).current().value,
            ),
    {
        let position: u32 = self.position;
        let ghost before = self.now();
        assert(before.buckets()[position as int] == before.storage.slot(position as int));
        let node_hash: u32 = self.table.storage.hashes[position as usize];
        let key: GPointer = self.table.storage.keys[position as usize];
        self.table.insert_node(
            InsertParams {
                node_index: position,
                key_hash: node_hash,
                new_key: key,
                new_value: value,
                keep_new_key: true,
                reusing_key: true,
            },
        );
        self.version = self.table.storage.version;
        proof {
            assert(before@.remove(key).insert(key, value) =~= before@.insert(key, value));
            assert(before.notices() + Seq::<DestroyNotice>::empty() =~= before.notices());
        }
    }
}

/// The text of a C string: the bytes before the first zero byte.
pub open spec fn c_text(bytes: Seq<u8>) -> Seq<u8>
    decreases bytes.len(),
{
    if bytes.len() == 0 || bytes[0] == 0 {
        Seq::empty()
    } else {
        seq![bytes[0]] + c_text(bytes.skip(1))
    }
}

/// The djb2 hash of a text, its bytes read as signed: from 5381 on, times 33 plus the byte,
/// modulo `2^32`.
pub open spec fn djb2(text: Seq<u8>) -> u32
    decreases text.len(),
{
    if text.len() == 0 {
        5381
    } else {
        ((djb2(text.drop_last()) * 33 + signed(text.last())) % 0x1_0000_0000) as u32
    }
}

/// A byte read as a signed number.
pub open spec fn signed(byte: u8) -> int {
    if byte < 128 {
        byte as int
    } else {
        byte - 256
    }
}

/// The length of the text of a C string.
fn c_text_len(bytes: &[u8]) -> (len: usize)
    ensures
        len <= bytes@.len(),
        bytes@.take(len as int) == c_text(bytes@),
{
    let mut len: usize = 0;
    assert(bytes@.skip(0) =~= bytes@);
    assert(bytes@.take(0) + c_text(bytes@) =~= c_text(bytes@));
    while len < bytes.len() && bytes[len] != 0
        invariant
            len <= bytes@.len(),
            bytes@.take(len as int) + c_text(bytes@.skip(len as int)) == c_text(bytes@),
        decreases bytes@.len() - len,
    {
        proof {
            let rest = bytes@.skip(len as int);
            assert(rest.skip(1) =~= bytes@.skip(len + 1));
            assert(bytes@.take(len + 1) =~= bytes@.take(len as int) + seq![rest[0]]);
            assert(bytes@.take(len + 1) + c_text(rest.skip(1)) =~= bytes@.take(len as int) + (
            seq![rest[0]] + c_text(rest.skip(1))));
        }
        len = len + 1;
    }
    assert(bytes@.take(len as int) + Seq::<u8>::empty() =~= bytes@.take(len as int));
    len
}

/// Whether two C strings have the same text; a missing string equals only a missing string.
pub fn str_equal(v1: Option<&[u8]>, v2: Option<&[u8]>) -> (equal: bool)
    ensures
        equal == (match (v1, v2) {
            (Some(a), Some(b)) => c_text(a@) == c_text(b@),
            (None, None) => true,
            _ => false,
        }),
{
    match (v1, v2) {
        (Some(a), Some(b)) => {
            let len: usize = c_text_len(a);
            let other: usize = c_text_len(b);
            if len != other {
                assert(a@.take(len as int).len() != b@.take(other as int).len());
                return false;
            }
            let mut i: usize = 0;
            while i < len
                invariant
                    v1 == Some(a),
                    v2 == Some(b),
                    i <= len,
                    len == other,
                    len <= a@.len(),
                    other <= b@.len(),
                    a@.take(len as int) == c_text(a@),
                    b@.take(other as int) == c_text(b@),
                    forall|j: int| 0 <= j < i ==> a@[j] == b@[j],
                decreases len - i,
            {
                if a[i] != b[i] {
                    assert(a@.take(len as int)[i as int] != b@.take(other as int)[i as int]);
                    return false;
                }
                i = i + 1;
            }
            assert(a@.take(len as int) =~= b@.take(other as int));
            true
        },
        (None, None) => true,
        _ => false,
    }
}

/// The djb2 hash of a C string; 0 for a missing string.
pub fn str_hash(v: Option<&[u8]>) -> (hash: u32)
    ensures
        hash == (match v {
            Some(bytes) => djb2(c_text(bytes@)),
            None => 0,
        }),
{
    let bytes = match v {
        Some(bytes) => bytes,
        None => return 0,
    };
    let len: usize = c_text_len(bytes);
    let mut h: u32 = 5381;
    let mut i: usize = 0;
    assert(bytes@.take(0) =~= Seq::<u8>::empty());
    while i < len
        invariant
            i <= len <= bytes@.len(),
            h == djb2(bytes@.take(i as int)),
        decreases len - i,
    {
        let byte: u8 = bytes[i];
        let addend: u32 = if byte < 128 {
            byte as u32
        } else {
            0xffff_ff00 + byte as u32
        };
        proof {
            assert(bytes@.take(i + 1).drop_last() =~= bytes@.take(i as int));
            assert(h << 5 == (h * 32) % 0x1_0000_0000) by (bit_vector);
        }
        h = (h << 5).wrapping_add(h).wrapping_add(addend);
        i = i + 1;
    }
    h
}

/// Equality of two 32-bit numbers.
pub fn int_equal(v1: &i32, v2: &i32) -> (equal: bool)
    ensures
        equal == (*v1 == *v2),
{
    *v1 == *v2
}

/// The bits of a 32-bit number, as a hash.
pub fn int_hash(v: &i32) -> (hash: u32)
    ensures
        hash as int == *v as int % 0x1_0000_0000,
{
    let value: i32 = *v;
    assert(value >= 0 ==> value as u32 == value) by (bit_vector);
    assert(value < 0 ==> value as u32 == value + 0x1_0000_0000) by (bit_vector);
    value as u32
}

/// Equality of two 64-bit numbers.
pub fn int64_equal(v1: &i64, v2: &i64) -> (equal: bool)
    ensures
        equal == (*v1 == *v2),
{
    *v1 == *v2
}

/// The two halves of the bits of a 64-bit number, combined by exclusive or.
pub fn int64_hash(v: &i64) -> (hash: u32)
    ensures
        hash == folded_halves((*v as int % 0x1_0000_0000_0000_0000) as u64),
{
    let value: i64 = *v;
    assert(value >= 0 ==> value as u64 == value) by (bit_vector);
    assert(value < 0 ==> value as u64 == value + 0x1_0000_0000_0000_0000) by (bit_vector);
    hash_u64_bits(value as u64)
}

/// The exclusive or of the upper and the lower half.
pub open spec fn folded_halves(bits: u64) -> u32 {
    ((bits / 0x1_0000_0000) as u32) ^ ((bits % 0x1_0000_0000) as u32)
}

/// The exclusive or of the upper and the lower half.
pub fn hash_u64_bits(bits: u64) -> (hash: u32)
    ensures
        hash == folded_halves(bits),
{
    assert(((bits >> 32) ^ (bits & 0xffff_ffff)) as u32 == ((bits / 0x1_0000_0000) as u32) ^ ((bits
        % 0x1_0000_0000) as u32)) by (bit_vector);
    ((bits >> 32) ^ (bits & 0xffff_ffff)) as u32
}

impl<H: Fn(GPointer) -> u32, E: Fn(GPointer, GPointer) -> bool> HashTable<H, E> {
    /// One more reference to a shared table.
    pub fn ref_(heap: &mut RefHeap<Self>, table: &Ref) -> (copy: Ref)
        requires
            old(heap).has(table),
            old(heap).count(table) < u32::MAX,
        ensures
            copy.id() == table.id(),
            final(heap)@ == old(heap)@.insert(
                table.id(),
                Counted {
                    value: old(heap).value(table),
                    count: (old(heap).count(table) + 1) as u32,
                },
            ),
    {
        heap.add_ref(table)
    }

    /// Give up a reference to a shared table. With the last one it ends; returns the calls that
    /// are due then.
    pub fn unref(heap: &mut RefHeap<Self>, table: Ref) -> (due: Vec<DestroyNotice>)
        requires
            old(heap).has(&table),
            old(heap).count(&table) > 0,
            old(heap).value(&table).wf(),
        ensures
            old(heap).count(&table) == 1 ==> {
                &&& final(heap)@ == old(heap)@.remove(table.id())
                &&& due@ == old(heap).value(&table).notices() + crate::notify::entry_notices(
                    old(heap).value(&table).entries(),
                    old(heap).value(&table).destroys_keys(),
                    old(heap).value(&table).destroys_values(),
                )
            },
            old(heap).count(&table) > 1 ==> {
                &&& due@ == Seq::<DestroyNotice>::empty()
                &&& final(heap)@ == old(heap)@.insert(
                    table.id(),
                    Counted {
                        value: old(heap).value(&table),
                        count: (old(heap).count(&table) - 1) as u32,
                    },
                )
            },
    {
        match heap.release(table) {
            Some(last) => last.release(),
            None => Vec::new(),
        }
    }

    /// Remove all entries of a shared table and give up a reference to it.
    pub fn destroy(heap: &mut RefHeap<Self>, table: Ref) -> (due: Vec<DestroyNotice>)
        requires
            old(heap).has(&table),
            old(heap).count(&table) > 0,
            old(heap).value(&table).wf(),
        ensures
            final(heap)@.remove(table.id()) == old(heap)@.remove(table.id()),
            ({
                let before = old(heap).value(&table);
                let after = final(heap).value(&table);
                let notices = before.notices() + crate::notify::entry_notices(
                    before.entries(),
                    before.destroys_keys(),
                    before.destroys_values(),
                );
                &&& final(heap).has(&table) == (old(heap).count(&table) > 1)
                &&& final(heap).has(&table) ==> {
                    &&& final(heap).count(&table) == old(heap).count(&table) - 1
                    &&& after.wf()
                    &&& after.same_setup(&before)
                    &&& after@ == Map::<GPointer, GPointer>::empty()
                    &&& after.notices() == notices
                    &&& due@ == Seq::<DestroyNotice>::empty()
                }
                &&& !final(heap).has(&table) ==> due@ == notices
            }),
    {
        heap.get_mut(&table).remove_all();
        let ghost cleared = *heap;
        let due = Self::unref(heap, table);
        proof {
            let id = table.id();
            assert(heap@.remove(id) =~= cleared@.remove(id));
            assert(cleared@.remove(id) =~= old(heap)@.remove(id));
            let listed = cleared.value(&table).notices();
            assert(listed + Seq::<DestroyNotice>::empty() =~= listed);
            cleared.value(&table).lemma_counts();
            assert(cleared.value(&table).entries() =~= Seq::<Entry>::empty());
        }
        due
    }
}

/// The text of a C string is what stands before its first zero byte, or all of it.
pub proof fn law_c_text(bytes: Seq<u8>)
    ensures
        c_text(bytes).len() <= bytes.len(),
        c_text(bytes) == bytes.take(c_text(bytes).len() as int),
        forall|i: int| 0 <= i < c_text(bytes).len() ==> #[trigger] bytes[i] != 0,
        c_text(bytes).len() < bytes.len() ==> bytes[c_text(bytes).len() as int] == 0,
    decreases bytes.len(),
{
    if bytes.len() > 0 && bytes[0] != 0 {
        let rest = bytes.skip(1);
        law_c_text(rest);
        assert(c_text(bytes) =~= bytes.take(c_text(bytes).len() as int));
        assert forall|i: int| 0 <= i < c_text(bytes).len() implies #[trigger] bytes[i] != 0 by {
            if i > 0 {
                assert(bytes[i] == rest[i - 1]);
            }
        }
    }
}

/// What the hash of a text is built from: 5381 without a byte, and with one byte more 33 times as
/// much plus that byte read as signed, without what goes beyond 32 bits.
pub proof fn law_str_hash(text: Seq<u8>, byte: u8)
    ensures
        djb2(Seq::<u8>::empty()) == 5381,
        exists|k: int|
            djb2(text.push(byte)) == djb2(text) * 33 + (if byte >= 128 {
                byte - 256
            } else {
                byte as int
            }) - #[trigger] (k * 0x1_0000_0000),
{
    assert(text.push(byte).drop_last() =~= text);
    let all = djb2(text) * 33 + signed(byte);
    let k = all / 0x1_0000_0000;
    assert(djb2(text.push(byte)) == all - k * 0x1_0000_0000);
}

/// How the hash of two texts, one behind the other, comes from theirs: the first counts 33 times
/// for each byte of the second, up to a multiple of `2^32`, which is returned.
pub proof fn law_str_hash_of_two(a: Seq<u8>, b: Seq<u8>) -> (k: int)
    ensures
        djb2(a + b) == djb2(b) + (djb2(a) - 5381) * vstd::arithmetic::power::pow(33, b.len()) - k
            * 0x1_0000_0000,
    decreases b.len(),
{
    if b.len() == 0 {
        assert(a + b =~= a);
        vstd::arithmetic::power::lemma_pow0(33);
        0
    } else {
        let c = b.drop_last();
        let before = law_str_hash_of_two(a, c);
        assert((a + b).drop_last() =~= a + c);
        assert((a + b).last() == b.last());
        vstd::arithmetic::power::lemma_pow1(33);
        vstd::arithmetic::power::lemma_pow_adds(33, 1, c.len());
        let p = vstd::arithmetic::power::pow(33, c.len());
        let q = vstd::arithmetic::power::pow(33, b.len());
        assert(q == 33 * p);
        let d = djb2(a) - 5381;
        assert(d * q == 33 * (d * p)) by (nonlinear_arith)
            requires
                q == 33 * p,
        ;
        let x = djb2(a + c) * 33 + signed(b.last());
        let y = djb2(c) * 33 + signed(b.last());
        33 * before + x / 0x1_0000_0000 - y / 0x1_0000_0000
    }
}

/// The hash of 64 bits is the exclusive or of their halves; one that fits in the lower half is its
/// own hash.
pub proof fn law_int64_hash(upper: u32, lower: u32)
    ensures
        folded_halves((upper * 0x1_0000_0000 + lower) as u64) == upper ^ lower,
        folded_halves(lower as u64) == lower,
{
    let bits = (upper * 0x1_0000_0000 + lower) as u64;
    assert(bits / 0x1_0000_0000 == upper);
    assert(bits % 0x1_0000_0000 == lower);
    assert(lower as u64 / 0x1_0000_0000 == 0);
    assert(lower as u64 % 0x1_0000_0000 == lower);
    assert(0u32 ^ lower == lower) by (bit_vector);
}

/// The hash of an address is the address, up to a multiple of `2^32`.
pub proof fn law_direct_hash(key: GPointer)
    ensures
        exists|k: int| key == direct_hash_value(key) + #[trigger] (k * 0x1_0000_0000),
        key < 0x1_0000_0000 ==> direct_hash_value(key) == key,
{
    let k = key as int / 0x1_0000_0000;
    assert(key == direct_hash_value(key) + k * 0x1_0000_0000);
}

/// Where a hash value goes first: to the rest of its elevenfold by a modulus that leaves out less
/// than half of the buckets.
pub proof fn law_first_bucket(hash: u32, shift: nat)
    requires
        0 < shift <= 31,
    ensures
        vstd::arithmetic::power2::pow2((shift - 1) as nat) < prime_modulus(shift)
            <= vstd::arithmetic::power2::pow2(shift),
        0 <= home(hash, shift) < prime_modulus(shift),
        exists|k: int| hash * 11 == home(hash, shift) + #[trigger] (k * prime_modulus(shift)),
{
    vstd::arithmetic::power2::lemma2_to64();
    let m = prime_modulus(shift) as int;
    vstd::arithmetic::div_mod::lemma_fundamental_div_mod(hash * 11, m);
    vstd::arithmetic::div_mod::lemma_mod_bound(hash * 11, m);
    let k = (hash * 11) / m;
    vstd::arithmetic::mul::lemma_mul_is_commutative(k, m);
    assert(hash * 11 == home(hash, shift) + k * m);
}

/// Where an iterator stands: before the first entry it has come by none; on an entry that entry is
/// one of the table, and the last that it has come by; and what it has come by is the table's
/// entries from the first on.
pub proof fn law_iteration<'table, H: Fn(GPointer) -> u32, E: Fn(GPointer, GPointer) -> bool>(
    iter: HashTableIter<'table, H, E>,
)
    requires
        iter.wf(),
        iter.position() < iter.now().buckets().len(),
    ensures
        iter.position() == -1 ==> iter.visited() == Seq::<Entry>::empty(),
        iter.on_entry() ==> {
            &&& iter.now()@.contains_key(iter.current().key)
            &&& iter.now()@[iter.current().key] == iter.current().value
            &&& iter.visited().len() > 0
            &&& iter.visited().last() == iter.current()
        },
        iter.visited().len() <= iter.now().entries().len(),
        iter.visited() == iter.now().entries().take(iter.visited().len() as int),
{
    let slots = iter.now().buckets();
    let n = iter.position() + 1;
    if iter.on_entry() {
        crate::slots::lemma_contents_at(slots, iter.position());
        assert(slots.take(n).last() == slots[n - 1]);
    }
    lemma_entries_start(slots, n);
}

proof fn lemma_entries_start(slots: Seq<crate::slots::Slot>, n: int)
    requires
        0 <= n <= slots.len(),
    ensures
        crate::slots::entries(slots.take(n)).len() <= crate::slots::entries(slots).len(),
        crate::slots::entries(slots.take(n)) == crate::slots::entries(slots).take(
            crate::slots::entries(slots.take(n)).len() as int,
        ),
    decreases slots.len(),
{
    if n == slots.len() {
        assert(slots.take(n) =~= slots);
        let all = crate::slots::entries(slots);
        assert(all.take(all.len() as int) =~= all);
    } else {
        let rest = slots.drop_last();
        lemma_entries_start(rest, n);
        assert(rest.take(n) =~= slots.take(n));
        let len = crate::slots::entries(slots.take(n)).len() as int;
        assert(crate::slots::entries(slots).take(len) =~= crate::slots::entries(rest).take(len));
    }
}

/// The hash value that is kept for a key is never 0 or 1, which are marks, and is the key's own hash
/// unless that is one of these.
pub proof fn law_kept_hash(hash: u32)
    ensures
        normalized(hash) != 0 && normalized(hash) != 1,
        hash != 0 && hash != 1 ==> normalized(hash) == hash,
        is_real(hash) == (hash != 0 && hash != 1),
{
}

} // verus!
