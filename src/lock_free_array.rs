//! A fixed-size array of bits, stored in 64-bit words, that only ever sets bits.
use vstd::prelude::*;

verus! {

/// Whether bit `b` (counted from the least significant end) of `w` is one.
pub open spec fn word_bit(w: u64, b: u64) -> bool {
    (w >> b) & 1u64 == 1u64
}

/// The bits held by `words`, word by word, least significant bit first.
pub open spec fn bits_of(words: Seq<u64>) -> Seq<bool> {
    Seq::new((words.len() * 64) as nat, |i: int| word_bit(words[i / 64], (i % 64) as u64))
}

/// The positions of the ones in `s`.
pub open spec fn ones(s: Seq<bool>) -> Set<int> {
    Set::new(|i: int| 0 <= i < s.len() && s[i])
}

/// The number of 64-bit words needed to hold `n` bits.
pub open spec fn words_for(n: int) -> int {
    (n + 63) / 64
}

proof fn lemma_bit_of_or(w: u64, b: u64, c: u64)
    requires
        b < 64,
        c < 64,
    ensures
        ((w | (1u64 << b)) >> c) & 1u64 == 1u64 <==> (c == b || (w >> c) & 1u64 == 1u64),
{
    assert(((w | (1u64 << b)) >> c) & 1u64 == 1u64 <==> (c == b || (w >> c) & 1u64 == 1u64))
        by (bit_vector)
        requires
            b < 64,
            c < 64,
    ;
}

proof fn lemma_bit_of_and(w: u64, b: u64)
    requires
        b < 64,
    ensures
        (w & (1u64 << b) != 0u64) <==> ((w >> b) & 1u64 == 1u64),
{
    assert((w & (1u64 << b) != 0u64) <==> ((w >> b) & 1u64 == 1u64)) by (bit_vector)
        requires
            b < 64,
    ;
}

proof fn lemma_zero_bit(b: u64)
    requires
        b < 64,
    ensures
        (0u64 >> b) & 1u64 != 1u64,
{
    assert((0u64 >> b) & 1u64 != 1u64) by (bit_vector);
}

/// The ones of a sequence of bits are finite and no more than its length.
pub proof fn lemma_ones_bounded(s: Seq<bool>)
    ensures
        ones(s).finite(),
        ones(s).len() <= s.len(),
{
    let range = Set::new(|i: int| 0 <= i < s.len());
    assert(range =~= vstd::set_lib::set_int_range(0, s.len() as int));
    vstd::set_lib::lemma_int_range(0, s.len() as int);
    assert(ones(s).subset_of(range));
    vstd::set_lib::lemma_len_subset(ones(s), range);
}

/// Setting a bit that was zero adds exactly its position to the ones.
pub proof fn lemma_ones_update(s: Seq<bool>, i: int)
    requires
        0 <= i < s.len(),
    ensures
        ones(s.update(i, true)) == ones(s).insert(i),
        !s[i] ==> ones(s.update(i, true)).len() == ones(s).len() + 1,
        s[i] ==> ones(s.update(i, true)).len() == ones(s).len(),
{
    assert(ones(s.update(i, true)) =~= ones(s).insert(i));
    lemma_ones_bounded(s);
}

/// `s` after a `set` of each index of `idx`, in order.
pub open spec fn set_each(s: Seq<bool>, idx: Seq<int>) -> Seq<bool>
    decreases idx.len(),
{
    if idx.len() == 0 {
        s
    } else {
        set_each(s, idx.drop_last()).update(idx.last(), true)
    }
}

/// Setting bits keeps the length and only ever adds ones: a bit is one afterwards
/// exactly when it was one before or was set.
pub proof fn lemma_set_each(s: Seq<bool>, idx: Seq<int>)
    requires
        forall|j: int| 0 <= j < idx.len() ==> 0 <= #[trigger] idx[j] < s.len(),
    ensures
        set_each(s, idx).len() == s.len(),
        forall|x: int| 0 <= x < s.len() ==> #[trigger] set_each(s, idx)[x] == (s[x] || idx.contains(x)),
    decreases idx.len(),
{
    if idx.len() > 0 {
        let prev = idx.drop_last();
        lemma_set_each(s, prev);
        assert forall|x: int| 0 <= x < s.len() implies #[trigger] set_each(s, idx)[x] == (s[x]
            || idx.contains(x)) by {
            if prev.contains(x) {
                let j = choose|j: int| 0 <= j < prev.len() && prev[j] == x;
                assert(idx[j] == x);
            }
            if idx.contains(x) && x != idx.last() {
                let j = choose|j: int| 0 <= j < idx.len() && idx[j] == x;
                assert(prev[j] == x);
            }
            if x == idx.last() {
                assert(idx[idx.len() - 1] == x);
            }
        }
    }
}

/// A bit that has been set reads as one, a second `set` of it finds it one and changes
/// nothing, and it stays one whatever is set afterwards.
pub proof fn law_set_is_permanent(s: Seq<bool>, i: int, later: Seq<int>)
    requires
        0 <= i < s.len(),
        forall|j: int| 0 <= j < later.len() ==> 0 <= #[trigger] later[j] < s.len(),
    ensures
        s.update(i, true)[i],
        s.update(i, true).update(i, true) == s.update(i, true),
        set_each(s.update(i, true), later)[i],
{
    assert(s.update(i, true).update(i, true) =~= s.update(i, true));
    lemma_set_each(s.update(i, true), later);
}

/// Setting one bit leaves every other bit as it was.
pub proof fn law_set_leaves_others(s: Seq<bool>, i: int, j: int)
    requires
        0 <= i < s.len(),
        0 <= j < s.len(),
        i != j,
    ensures
        s.update(i, true)[j] == s[j],
{
}

/// Setting `n` distinct bits of a fresh array, in any order, leaves a count of exactly `n`,
/// and each of those bits reads as one.
pub proof fn law_distinct_sets_count(size: nat, idx: Seq<int>)
    requires
        idx.no_duplicates(),
        forall|j: int| 0 <= j < idx.len() ==> 0 <= #[trigger] idx[j] < size,
    ensures
        ones(set_each(Seq::new(size, |x: int| false), idx)).len() == idx.len(),
        forall|j: int| 0 <= j < idx.len() ==> set_each(Seq::new(size, |x: int| false), idx)[#[trigger] idx[j]],
{
    let z = Seq::new(size, |x: int| false);
    lemma_set_each(z, idx);
    assert(ones(set_each(z, idx)) =~= idx.to_set());
    idx.unique_seq_to_set();
    assert forall|j: int| 0 <= j < idx.len() implies set_each(z, idx)[#[trigger] idx[j]] by {
        assert(idx.contains(idx[j]));
    }
}

/// An array of bits, rounded up to whole 64-bit words, with a count of the bits that have
/// gone from zero to one. Bits are never cleared.
pub struct LockFreeBitArray {
    bit_count: usize,
    bits: Vec<u64>,
}

impl View for LockFreeBitArray {
    type V = Seq<bool>;

    closed spec fn view(&self) -> Seq<bool> {
        bits_of(self.bits@)
    }
}

impl LockFreeBitArray {
    /// The array is well formed: its size fits a `usize` and the count is the number of ones.
    pub closed spec fn wf(&self) -> bool {
        &&& self.bits.len() * 64 <= usize::MAX
        &&& self.bit_count == ones(self@).len()
    }

    /// An array of `bits` bits rounded up to whole words, all zero.
    pub fn new(bits: usize) -> (r: LockFreeBitArray)
        requires
            0 < bits,
            bits + 63 <= usize::MAX,
        ensures
            r.wf(),
            r@.len() == 64 * words_for(bits as int),
            r@.len() >= bits,
            forall|i: int| 0 <= i < r@.len() ==> !r@[i],
            ones(r@).len() == 0,
    {
        let round_size: usize = bits / 64 + if bits % 64 == 0 { 0 } else { 1 };
        let mut words: Vec<u64> = Vec::new();
        let mut i: usize = 0;
        while i < round_size
            invariant
                i <= round_size,
                words@.len() == i,
                forall|j: int| 0 <= j < i ==> words@[j] == 0u64,
            decreases round_size - i,
        {
            words.push(0u64);
            i = i + 1;
        }
        let r = LockFreeBitArray { bits: words, bit_count: 0 };
        assert forall|k: int| 0 <= k < r@.len() implies !r@[k] by {
            lemma_zero_bit((k % 64) as u64);
        }
        assert(ones(r@) =~= Set::empty());
        r
    }

    /// Sets bit `bit_index`; true when this call turned it from zero to one.
    pub fn set(&mut self, bit_index: usize) -> (r: bool)
        requires
            old(self).wf(),
            bit_index < old(self)@.len(),
        ensures
            final(self).wf(),
            r == !old(self)@[bit_index as int],
            final(self)@ == old(self)@.update(bit_index as int, true),
            forall|j: int| 0 <= j < old(self)@.len() && j != bit_index ==> final(self)@[j] == old(self)@[j],
            ones(final(self)@) == ones(old(self)@).insert(bit_index as int),
            ones(final(self)@).len() == ones(old(self)@).len() + if r { 1int } else { 0int },
    {
        proof {
            lemma_ones_update(self@, bit_index as int);
            lemma_ones_bounded(self@.update(bit_index as int, true));
        }
        if self.get(bit_index) {
            proof {
                assert(self@.update(bit_index as int, true) =~= self@);
            }
            false
        } else {
            let long_index = bit_index / 64;
            let shift = (bit_index % 64) as u64;
            let mask = 1u64 << shift;
            let old_value = self.bits[long_index];
            let new_value = old_value | mask;
            let ghost before = self@;
            self.bits.set(long_index, new_value);
            proof {
                assert forall|k: int| 0 <= k < self@.len() implies self@[k] == before.update(
                    bit_index as int,
                    true,
                )[k] by {
                    if k / 64 == long_index as int {
                        lemma_bit_of_or(old_value, shift, (k % 64) as u64);
                    }
                }
                assert(self@ =~= before.update(bit_index as int, true));
            }
            self.bit_count = self.bit_count + 1;
            true
        }
    }

    /// Whether bit `bit_index` is one.
    pub fn get(&self, bit_index: usize) -> (r: bool)
        requires
            bit_index < self@.len(),
        ensures
            r == self@[bit_index as int],
    {
        let long_index = bit_index / 64;
        let shift = (bit_index % 64) as u64;
        proof {
            lemma_bit_of_and(self.bits@[long_index as int], shift);
        }
        self.bits[long_index] & (1u64 << shift) != 0
    }

    /// The number of bits that have been set.
    pub fn get_bit_count(&self) -> (r: usize)
        requires
            self.wf(),
        ensures
            r == ones(self@).len(),
            r <= self@.len(),
    {
        proof {
            lemma_ones_bounded(self@);
        }
        self.bit_count
    }

    /// The number of bits the array holds: a whole number of words.
    pub fn get_bit_size(&self) -> (r: u64)
        requires
            self.wf(),
        ensures
            r == self@.len(),
            r % 64 == 0,
    {
        self.bits.len() as u64 * 64u64
    }
}

} // verus!
