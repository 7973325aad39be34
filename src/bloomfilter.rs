//! A Bloom filter: items are hashed twice with keyed SipHash-1-3 and the two hashes are
//! combined into as many probe positions as the filter has hash functions.
use vstd::prelude::*;
use crate::lock_free_array::{LockFreeBitArray, words_for};

verus! {

/// The SipHash-1-3 hash of `data` under the keys `key0` and `key1`.
pub uninterp spec fn sip13_of(key0: u64, key1: u64, data: Seq<u8>) -> u64;

/// Relies on siphasher's `SipHasher13::new_with_keys` and `SipHasher13::hash`: the
/// result is a function of the two keys and the bytes alone.
#[verifier::external_body]
fn keyed_hash(key0: u64, key1: u64, data: &[u8]) -> (r: u64)
    ensures
        r == sip13_of(key0, key1, data@),
{
    siphasher::sip::SipHasher13::new_with_keys(key0, key1).hash(data)
}

/// Relies on rand's `random`: a `u64` drawn from the thread-local generator, of which
/// nothing is promised.
#[verifier::external_body]
fn random_u64() -> (r: u64) {
    rand::random::<u64>()
}

/// The modulus of wrapping `u64` arithmetic.
pub open spec fn u64_modulus() -> int {
    0x1_0000_0000_0000_0000
}

/// The hash of probe `i` for an item whose two keyed hashes are `h0` and `h1`:
/// the hashes themselves for the first two probes, then `h0 + i * h1` wrapped to 64 bits.
pub open spec fn combined_hash(h0: u64, h1: u64, i: int) -> int {
    if i == 0 {
        h0 as int
    } else if i == 1 {
        h1 as int
    } else {
        (h0 + i * h1) % u64_modulus()
    }
}

/// The `k` probe positions, in a filter of `m` bits, of an item hashed to `h0` and `h1`.
pub open spec fn probes(h0: u64, h1: u64, k: nat, m: nat) -> Seq<int> {
    Seq::new(k, |i: int| combined_hash(h0, h1, i) % (m as int))
}

/// Every position in `ps` is one in `s`.
pub open spec fn all_set(s: Seq<bool>, ps: Seq<int>) -> bool {
    forall|j: int| 0 <= j < ps.len() ==> s[ps[j]]
}

/// `s` with every position in `ps` set to one.
pub open spec fn marked(s: Seq<bool>, ps: Seq<int>) -> Seq<bool> {
    Seq::new(s.len(), |x: int| s[x] || ps.contains(x))
}

/// Every position in `ps` lies in `[0, n)`.
pub open spec fn in_range(ps: Seq<int>, n: nat) -> bool {
    forall|j: int| 0 <= j < ps.len() ==> 0 <= #[trigger] ps[j] < n
}

/// `s` after setting, in order, each item of `items` in a filter configured as `f`.
pub open spec fn set_items(s: Seq<bool>, f: BloomFilter, items: Seq<Seq<u8>>) -> Seq<bool>
    decreases items.len(),
{
    if items.len() == 0 {
        s
    } else {
        marked(set_items(s, f, items.drop_last()), f.item_probes(items.last()))
    }
}

/// Probe positions lie below the number of bits they range over.
pub proof fn lemma_probes_in_range(h0: u64, h1: u64, k: nat, m: nat)
    requires
        0 < m,
    ensures
        in_range(probes(h0, h1, k, m), m),
{
    assert forall|j: int| 0 <= j < k implies 0 <= #[trigger] probes(h0, h1, k, m)[j] < m by {
        assert(combined_hash(h0, h1, j) >= 0);
    }
}

proof fn lemma_set_items_len(s: Seq<bool>, f: BloomFilter, items: Seq<Seq<u8>>)
    ensures
        set_items(s, f, items).len() == s.len(),
    decreases items.len(),
{
    if items.len() > 0 {
        lemma_set_items_len(s, f, items.drop_last());
    }
}

/// No false negatives: after any sequence of `set` calls on a filter, a query for any item
/// among them answers true.
pub proof fn law_no_false_negatives(f: BloomFilter, items: Seq<Seq<u8>>, i: int)
    requires
        f.wf(),
        0 <= i < items.len(),
    ensures
        all_set(set_items(f@, f, items), f.item_probes(items[i])),
    decreases items.len(),
{
    let prev = items.drop_last();
    let ps = f.item_probes(items[i]);
    let qs = f.item_probes(items.last());
    f.lemma_wf_sizes();
    lemma_probes_in_range(
        sip13_of(f.first_seed().0, f.first_seed().1, items[i]),
        sip13_of(f.second_seed().0, f.second_seed().1, items[i]),
        f.num_functions(),
        f.num_bits(),
    );
    lemma_set_items_len(f@, f, prev);
    if i < items.len() - 1 {
        law_no_false_negatives(f, prev, i);
        assert(prev[i] == items[i]);
    } else {
        assert forall|j: int| 0 <= j < ps.len() implies set_items(f@, f, items)[#[trigger] ps[j]] by {
            assert(qs.contains(ps[j]));
        }
    }
}

/// Setting an item a second time, with nothing set in between, reports false and changes
/// no bit.
pub proof fn law_reinsert_reports_false(f: BloomFilter, item: Seq<u8>)
    requires
        f.wf(),
    ensures
        all_set(marked(f@, f.item_probes(item)), f.item_probes(item)),
        marked(marked(f@, f.item_probes(item)), f.item_probes(item)) == marked(
            f@,
            f.item_probes(item),
        ),
{
    let ps = f.item_probes(item);
    f.lemma_wf_sizes();
    lemma_probes_in_range(
        sip13_of(f.first_seed().0, f.first_seed().1, item),
        sip13_of(f.second_seed().0, f.second_seed().1, item),
        f.num_functions(),
        f.num_bits(),
    );
    assert forall|j: int| 0 <= j < ps.len() implies marked(f@, ps)[#[trigger] ps[j]] by {
        assert(ps.contains(ps[j]));
    }
    assert(marked(marked(f@, ps), ps) =~= marked(f@, ps));
}

/// The probe hash for probe `index`, computed from the item's two keyed hashes.
fn bloom_hash(h0: u64, h1: u64, index: u32) -> (r: u64)
    ensures
        r == combined_hash(h0, h1, index as int),
{
    if index == 0 {
        h0
    } else if index == 1 {
        h1
    } else {
        let r = h0.wrapping_add((index as u64).wrapping_mul(h1));
        proof {
            vstd::arithmetic::div_mod::lemma_add_mod_noop_right(
                h0 as int,
                index as int * h1 as int,
                u64_modulus(),
            );
            vstd::arithmetic::div_mod::lemma_small_mod(r as nat, u64_modulus() as nat);
            vstd::arithmetic::div_mod::lemma_mod_bound(index as int * h1 as int, u64_modulus());
            let p = (index as int * h1 as int) % u64_modulus();
            if h0 as int + p >= u64_modulus() {
                vstd::arithmetic::div_mod::lemma_mod_sub_multiples_vanish(
                    h0 as int + p - u64_modulus(),
                    u64_modulus(),
                );
                assert((h0 as int + p - u64_modulus()) % u64_modulus() == (h0 as int + p)
                    % u64_modulus()) by {
                    vstd::arithmetic::div_mod::lemma_add_mod_noop_right(
                        h0 as int + p - u64_modulus(),
                        u64_modulus(),
                        u64_modulus(),
                    );
                    vstd::arithmetic::div_mod::lemma_mod_self_0(u64_modulus());
                }
            }
        }
        r
    }
}

/// A fresh pair of SipHash keys drawn at random.
fn random_seed() -> (r: (u64, u64)) {
    (random_u64(), random_u64())
}

/// A Bloom filter: a bit array, the number of bits its probes range over, the number of
/// probes per item, and the keys of its two hashes, fixed when it is made.
pub struct BloomFilter {
    bitarray: LockFreeBitArray,
    num_of_bits: usize,
    num_of_functions: u32,
    seed0: (u64, u64),
    seed1: (u64, u64),
}

impl View for BloomFilter {
    type V = Seq<bool>;

    /// The bits of the filter's array.
    closed spec fn view(&self) -> Seq<bool> {
        self.bitarray@
    }
}

impl BloomFilter {
    /// The number of bits that probe positions range over.
    pub closed spec fn num_bits(&self) -> nat {
        self.num_of_bits as nat
    }

    /// The number of probe positions of each item.
    pub closed spec fn num_functions(&self) -> nat {
        self.num_of_functions as nat
    }

    /// The keys of the first hash.
    pub closed spec fn first_seed(&self) -> (u64, u64) {
        self.seed0
    }

    /// The keys of the second hash.
    pub closed spec fn second_seed(&self) -> (u64, u64) {
        self.seed1
    }

    /// The filter is well formed: its array is, and probe positions fall inside it.
    pub closed spec fn wf(&self) -> bool {
        &&& self.bitarray.wf()
        &&& 0 < self.num_of_bits <= self@.len()
    }

    /// In a well-formed filter, probe positions range over a nonzero number of bits that
    /// the array holds.
    pub proof fn lemma_wf_sizes(&self)
        requires
            self.wf(),
        ensures
            0 < self.num_bits() <= self@.len(),
    {
    }

    /// Both filters have the same sizes and hash keys.
    pub open spec fn same_config(&self, other: &BloomFilter) -> bool {
        &&& self.num_bits() == other.num_bits()
        &&& self.num_functions() == other.num_functions()
        &&& self.first_seed() == other.first_seed()
        &&& self.second_seed() == other.second_seed()
    }

    /// The probe positions of an item with the bytes `item`.
    pub open spec fn item_probes(&self, item: Seq<u8>) -> Seq<int> {
        probes(
            sip13_of(self.first_seed().0, self.first_seed().1, item),
            sip13_of(self.second_seed().0, self.second_seed().1, item),
            self.num_functions(),
            self.num_bits(),
        )
    }

    /// An empty filter whose probes range over `num_of_bits` bits, with `num_of_functions`
    /// probes per item and two fresh random hash keys.
    pub fn with_size(num_of_bits: usize, num_of_functions: u32) -> (r: BloomFilter)
        requires
            0 < num_of_bits,
            num_of_bits + 63 <= usize::MAX,
        ensures
            r.wf(),
            r.num_bits() == num_of_bits,
            r.num_functions() == num_of_functions,
            r@.len() == 64 * words_for(num_of_bits as int),
            forall|i: int| 0 <= i < r@.len() ==> !r@[i],
    {
        BloomFilter {
            bitarray: LockFreeBitArray::new(num_of_bits),
            num_of_bits,
            num_of_functions,
            seed0: random_seed(),
            seed1: random_seed(),
        }
    }

    /// The bit position of probe `index` for an item whose keyed hashes are `h0` and `h1`.
    fn position(&self, h0: u64, h1: u64, index: u32) -> (r: usize)
        requires
            self.wf(),
            index < self.num_functions(),
        ensures
            r == probes(h0, h1, self.num_functions(), self.num_bits())[index as int],
            r < self.num_bits(),
            r < self@.len(),
    {
        let combined_hash = bloom_hash(h0, h1, index);
        (combined_hash % (self.num_of_bits as u64)) as usize
    }

    /// Sets the probe positions of an item whose keyed hashes are `h0` and `h1`; true when
    /// at least one of them was zero before.
    pub fn set_hashed(&mut self, h0: u64, h1: u64) -> (r: bool)
        requires
            old(self).wf(),
        ensures
            final(self).wf(),
            final(self).same_config(old(self)),
            final(self)@ == marked(
                old(self)@,
                probes(h0, h1, old(self).num_functions(), old(self).num_bits()),
            ),
            r == !all_set(old(self)@, probes(h0, h1, old(self).num_functions(), old(self).num_bits())),
    {
        let ghost start = self@;
        let ghost ps = probes(h0, h1, self.num_functions(), self.num_bits());
        let mut bit_changed = false;
        let mut i: u32 = 0;
        while i < self.num_of_functions
            invariant
                self.wf(),
                self.same_config(old(self)),
                start == old(self)@,
                ps == probes(h0, h1, self.num_functions(), self.num_bits()),
                i <= self.num_functions(),
                self@ == marked(start, ps.take(i as int)),
                bit_changed == !all_set(start, ps.take(i as int)),
            decreases self.num_functions() - i,
        {
            let pos = self.position(h0, h1, i);
            let ghost before = self@;
            let changed = self.bitarray.set(pos);
            bit_changed = bit_changed || changed;
            proof {
                let prev = ps.take(i as int);
                let next = ps.take(i + 1);
                assert(next =~= prev.push(pos as int));
                assert(self@ =~= marked(start, next)) by {
                    assert forall|x: int| 0 <= x < start.len() implies self@[x] == marked(start, next)[x] by {
                        if prev.contains(x) {
                            let j = choose|j: int| 0 <= j < prev.len() && prev[j] == x;
                            assert(next[j] == x);
                        }
                        if next.contains(x) && x != pos {
                            let j = choose|j: int| 0 <= j < next.len() && next[j] == x;
                            assert(prev[j] == x);
                        }
                        if x == pos {
                            assert(next[i as int] == x);
                        }
                    }
                }
                if prev.contains(pos as int) {
                    let j = choose|j: int| 0 <= j < prev.len() && prev[j] == pos;
                    if all_set(start, prev) {
                        assert(start[prev[j]]);
                    }
                }
                if !all_set(start, prev) {
                    let j = choose|j: int| 0 <= j < prev.len() && !start[prev[j]];
                    assert(!start[next[j]]);
                }
                if !start[pos as int] {
                    assert(!start[next[i as int]]);
                }
            }
            i = i + 1;
        }
        proof {
            assert(ps.take(i as int) =~= ps);
        }
        bit_changed
    }

    /// Whether every probe position of an item whose keyed hashes are `h0` and `h1` is one.
    pub fn might_contain_hashed(&self, h0: u64, h1: u64) -> (r: bool)
        requires
            self.wf(),
        ensures
            r == all_set(self@, probes(h0, h1, self.num_functions(), self.num_bits())),
    {
        let ghost ps = probes(h0, h1, self.num_functions(), self.num_bits());
        let mut i: u32 = 0;
        while i < self.num_of_functions
            invariant
                self.wf(),
                ps == probes(h0, h1, self.num_functions(), self.num_bits()),
                i <= self.num_functions(),
                all_set(self@, ps.take(i as int)),
            decreases self.num_functions() - i,
        {
            let pos = self.position(h0, h1, i);
            if !self.bitarray.get(pos) {
                return false;
            }
            proof {
                assert forall|j: int| 0 <= j < i + 1 implies self@[#[trigger] ps.take(i + 1)[j]] by {
                    if j < i {
                        assert(ps.take(i as int)[j] == ps.take(i + 1)[j]);
                    }
                }
            }
            i = i + 1;
        }
        proof {
            assert(ps.take(i as int) =~= ps);
        }
        true
    }

    /// Sets the probe positions of the item with the bytes `item`; true when at least one
    /// of them was zero before, that is when the item was not yet reported present.
    pub fn set(&mut self, item: &[u8]) -> (r: bool)
        requires
            old(self).wf(),
        ensures
            final(self).wf(),
            final(self).same_config(old(self)),
            final(self)@ == marked(old(self)@, old(self).item_probes(item@)),
            r == !all_set(old(self)@, old(self).item_probes(item@)),
    {
        let h0 = keyed_hash(self.seed0.0, self.seed0.1, item);
        let h1 = keyed_hash(self.seed1.0, self.seed1.1, item);
        self.set_hashed(h0, h1)
    }

    /// Whether every probe position of the item with the bytes `item` is one: always true
    /// for an item that was set before.
    pub fn might_contain(&self, item: &[u8]) -> (r: bool)
        requires
            self.wf(),
        ensures
            r == all_set(self@, self.item_probes(item@)),
    {
        let h0 = keyed_hash(self.seed0.0, self.seed0.1, item);
        let h1 = keyed_hash(self.seed1.0, self.seed1.1, item);
        self.might_contain_hashed(h0, h1)
    }
}

} // verus!
