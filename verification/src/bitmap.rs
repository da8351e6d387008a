//! Bit-vector engine over word storage.
//!
//! A `Bitmap` is a logical sequence of `len` bits packed into `u64` words.
//! Its mathematical view is a `Seq<bool>` of length `len`; every operation's
//! contract is stated over that view. The engine offers point get/set/clear,
//! whole-map fill, a first-fit scan for a run of equal bits, and a range
//! flip that handles partial leading/trailing words and full interior words.

use vstd::prelude::*;

verus! {

/// Bytes per storage word.
pub const WORD_SIZE: usize = 8;

/// Bits per storage word.
pub const WORD_SIZE_BITS: usize = 64;

/// Whether bit `k` of word `w` is set.
pub open spec fn nth_bit(w: u64, k: u64) -> bool {
    (w >> k) & 1u64 == 1u64
}

/// Every bit of `bm` in the window `[start, start + size)` equals `state`.
pub open spec fn window_matches(bm: Seq<bool>, start: int, size: int, state: bool) -> bool {
    forall|i: int| start <= i < start + size ==> bm[i] == state
}

/// Some window of `size` bits equal to `state` fits inside `bm`.
pub open spec fn has_window(bm: Seq<bool>, size: int, state: bool) -> bool {
    exists|s: int|
        0 <= s && s + size <= bm.len() && #[trigger] window_matches(bm, s, size, state)
}

/// All bits of `bm` in `[start, end)` hold one value.
pub open spec fn all_same_in(bm: Seq<bool>, start: int, end: int) -> bool {
    forall|i: int| start <= i < end ==> bm[i] == bm[start]
}

/// `bm` with every bit in `[start, end)` negated.
pub open spec fn flip_seq(bm: Seq<bool>, start: int, end: int) -> Seq<bool> {
    Seq::new(
        bm.len(),
        |i: int|
            if start <= i < end {
                !bm[i]
            } else {
                bm[i]
            },
    )
}

/// Flipping the same range twice restores the original bits exactly.
pub proof fn lemma_flip_involution(bm: Seq<bool>, start: int, end: int)
    ensures
        flip_seq(flip_seq(bm, start, end), start, end) == bm,
{
    assert(flip_seq(flip_seq(bm, start, end), start, end) =~= bm);
}

/// A window as large as the whole map exists exactly when every bit holds
/// the requested state, and a window one bit larger never exists.
pub proof fn lemma_exact_fit_boundary(bm: Seq<bool>, state: bool)
    ensures
        has_window(bm, bm.len() as int, state) <==> (forall|i: int|
            0 <= i < bm.len() ==> bm[i] == state),
        !has_window(bm, bm.len() as int + 1, state),
{
    if has_window(bm, bm.len() as int, state) {
        let s = choose|s: int|
            0 <= s && s + bm.len() <= bm.len() && #[trigger] window_matches(
                bm,
                s,
                bm.len() as int,
                state,
            );
        assert(s == 0);
        assert(forall|i: int| 0 <= i < bm.len() ==> bm[i] == state);
    }
    if forall|i: int| 0 <= i < bm.len() ==> bm[i] == state {
        assert(window_matches(bm, 0, bm.len() as int, state));
    }
}

proof fn lemma_or_bit(w: u64, k: u64)
    by (bit_vector)
    requires
        k < 64,
    ensures
        forall|j: u64| j < 64 ==> #[trigger] nth_bit(w | (1u64 << k), j) == (j == k || nth_bit(w, j)),
{
}

proof fn lemma_and_not_bit(w: u64, k: u64)
    by (bit_vector)
    requires
        k < 64,
    ensures
        forall|j: u64|
            j < 64 ==> #[trigger] nth_bit(w & !(1u64 << k), j) == (j != k && nth_bit(w, j)),
{
}

proof fn lemma_test_bit(w: u64, k: u64)
    by (bit_vector)
    requires
        k < 64,
    ensures
        (w & (1u64 << k) > 0) == nth_bit(w, k),
{
}

proof fn lemma_const_word_bits()
    by (bit_vector)
    ensures
        forall|j: u64| j < 64 ==> !#[trigger] nth_bit(0u64, j),
        forall|j: u64| j < 64 ==> #[trigger] nth_bit(0xffff_ffff_ffff_ffffu64, j),
{
}

proof fn lemma_shift_ge_one(k: u64)
    by (bit_vector)
    requires
        k < 64,
    ensures
        1u64 << k >= 1,
{
}

proof fn lemma_flip_leading(w: u64, sk: u64)
    by (bit_vector)
    requires
        sk < 64,
    ensures
        forall|j: u64|
            j < 64 ==> #[trigger] nth_bit(w ^ !((((1u64 << sk) - 1) as u64)), j) == (nth_bit(w, j) != (j
                >= sk)),
{
}

proof fn lemma_flip_trailing(w: u64, ek: u64)
    by (bit_vector)
    requires
        ek < 64,
    ensures
        forall|j: u64|
            j < 64 ==> #[trigger] nth_bit(w ^ ((((1u64 << ek) - 1) as u64)), j) == (nth_bit(w, j) != (j < ek)),
{
}

proof fn lemma_flip_all(w: u64)
    by (bit_vector)
    ensures
        forall|j: u64|
            j < 64 ==> #[trigger] nth_bit(w ^ 0xffff_ffff_ffff_ffffu64, j) == !nth_bit(w, j),
{
}

proof fn lemma_flip_window(w: u64, sk: u64, ek: u64)
    by (bit_vector)
    requires
        sk < 64,
        ek < 64,
    ensures
        forall|j: u64|
            j < 64 ==> #[trigger] nth_bit(w ^ (!((((1u64 << sk) - 1) as u64)) & (((1u64 << ek) - 1) as u64)), j) == (
            nth_bit(w, j) != (sk <= j && j < ek)),
{
}

/// Decomposes a bit index into its word index and the bit offset inside it.
proof fn lemma_word_index(i: int, n: int)
    requires
        0 <= i,
        i < n * 64,
    ensures
        0 <= i / 64 < n,
        0 <= i % 64 < 64,
        i == 64 * (i / 64) + i % 64,
{
    vstd::arithmetic::div_mod::lemma_fundamental_div_mod(i, 64);
    if i / 64 >= n {
        vstd::arithmetic::mul::lemma_mul_inequality(n, i / 64, 64);
    }
}

/// Decomposes a range end that may lie exactly on the capacity boundary.
proof fn lemma_word_index_end(e: int, n: int)
    requires
        0 <= e,
        e <= n * 64,
    ensures
        0 <= e / 64 <= n,
        0 <= e % 64 < 64,
        e == 64 * (e / 64) + e % 64,
{
    vstd::arithmetic::div_mod::lemma_fundamental_div_mod(e, 64);
    if e / 64 > n {
        vstd::arithmetic::mul::lemma_mul_inequality(n + 1, e / 64, 64);
    }
}

/// The bit-vector over externally supplied word storage: `len` logical bits
/// packed little-endian into `bits`.
pub struct Bitmap {
    bits: Vec<u64>,
    len: usize,
}

impl View for Bitmap {
    type V = Seq<bool>;

    closed spec fn view(&self) -> Seq<bool> {
        Seq::new(self.len as nat, |i: int| nth_bit(self.bits@[i / 64], (i % 64) as u64))
    }
}

/// A half-open range `[start, end)` of bit indices that can act on a bitmap.
pub struct BitmapRange {
    pub start: usize,
    pub end: usize,
}

impl BitmapRange {
    pub fn new(start: usize, end: usize) -> (r: BitmapRange)
        ensures
            r.start == start,
            r.end == end,
    {
        BitmapRange { start, end }
    }
}

impl Bitmap {
    /// The logical length never exceeds the backing capacity in bits.
    pub closed spec fn wf(&self) -> bool {
        self.len <= self.bits@.len() * 64
    }

    /// Builds a bitmap of `len` logical bits over `bits`, zero-filling the
    /// storage so that no bit is ever read uninitialized.
    pub fn new(bits: Vec<u64>, len: usize) -> (r: Bitmap)
        requires
            len <= bits@.len() * 64,
        ensures
            r.wf(),
            r@.len() == len,
            forall|i: int| 0 <= i < len ==> !r@[i],
    {
        let mut bits = bits;
        let n = bits.len();
        let mut w: usize = 0;
        while w < n
            invariant
                bits@.len() == n,
                w <= n,
                forall|k: int| 0 <= k < w ==> bits@[k] == 0u64,
            decreases n - w,
        {
            bits[w] = 0;
            w += 1;
        }
        let r = Bitmap { bits, len };
        proof {
            assert forall|i: int| 0 <= i < len implies !r@[i] by {
                lemma_word_index(i, n as int);
                lemma_const_word_bits();
            }
        }
        r
    }

    /// The number of logical bits.
    pub fn len(&self) -> (r: usize)
        ensures
            r == self@.len(),
    {
        self.len
    }

    /// Sets every bit to `is_set` in one word-filling pass.
    pub fn fill(&mut self, is_set: bool)
        requires
            old(self).wf(),
        ensures
            final(self).wf(),
            final(self)@.len() == old(self)@.len(),
            forall|i: int| 0 <= i < final(self)@.len() ==> final(self)@[i] == is_set,
    {
        let value: u64 = if is_set {
            0xffff_ffff_ffff_ffffu64
        } else {
            0
        };
        let n = self.bits.len();
        let mut w: usize = 0;
        while w < n
            invariant
                self.bits@.len() == n,
                self.len == old(self).len,
                w <= n,
                forall|k: int| 0 <= k < w ==> self.bits@[k] == value,
            decreases n - w,
        {
            self.bits[w] = value;
            w += 1;
        }
        proof {
            assert forall|i: int| 0 <= i < self@.len() implies self@[i] == is_set by {
                lemma_word_index(i, n as int);
                lemma_const_word_bits();
            }
        }
    }

    /// Reads the bit at `idx`.
    pub fn get(&self, idx: usize) -> (r: bool)
        requires
            self.wf(),
            idx < self@.len(),
        ensures
            r == self@[idx as int],
    {
        proof {
            lemma_word_index(idx as int, self.bits@.len() as int);
        }
        let w = self.bits[idx / WORD_SIZE_BITS];
        let r = (w & (1u64 << (idx % WORD_SIZE_BITS))) > 0;
        proof {
            lemma_test_bit(w, (idx % WORD_SIZE_BITS) as u64);
        }
        r
    }

    /// Sets the bit at `idx`.
    pub fn set(&mut self, idx: usize)
        requires
            old(self).wf(),
            idx < old(self)@.len(),
        ensures
            final(self).wf(),
            final(self)@ == old(self)@.update(idx as int, true),
    {
        proof {
            lemma_word_index(idx as int, self.bits@.len() as int);
        }
        let wi = idx / WORD_SIZE_BITS;
        let k = idx % WORD_SIZE_BITS;
        self.bits[wi] = self.bits[wi] | (1u64 << k);
        proof {
            lemma_or_bit(old(self).bits@[wi as int], k as u64);
            assert forall|i: int| 0 <= i < self@.len() implies self@[i] == old(self)@.update(
                idx as int,
                true,
            )[i] by {
                lemma_word_index(i, self.bits@.len() as int);
            }
            assert(self@ =~= old(self)@.update(idx as int, true));
        }
    }

    /// Clears the bit at `idx`.
    pub fn clear(&mut self, idx: usize)
        requires
            old(self).wf(),
            idx < old(self)@.len(),
        ensures
            final(self).wf(),
            final(self)@ == old(self)@.update(idx as int, false),
    {
        proof {
            lemma_word_index(idx as int, self.bits@.len() as int);
        }
        let wi = idx / WORD_SIZE_BITS;
        let k = idx % WORD_SIZE_BITS;
        self.bits[wi] = self.bits[wi] & !(1u64 << k);
        proof {
            lemma_and_not_bit(old(self).bits@[wi as int], k as u64);
            assert forall|i: int| 0 <= i < self@.len() implies self@[i] == old(self)@.update(
                idx as int,
                false,
            )[i] by {
                lemma_word_index(i, self.bits@.len() as int);
            }
            assert(self@ =~= old(self)@.update(idx as int, false));
        }
    }

    /// Whether every bit in `range` currently holds one value.
    pub fn all_same(&self, range: &BitmapRange) -> (r: bool)
        requires
            self.wf(),
            range.start <= range.end,
            range.end <= self@.len(),
        ensures
            r == all_same_in(self@, range.start as int, range.end as int),
    {
        if range.start >= range.end {
            return true;
        }
        let first = self.get(range.start);
        let mut i = range.start + 1;
        while i < range.end
            invariant
                self.wf(),
                range.start < range.end <= self@.len(),
                range.start < i <= range.end,
                first == self@[range.start as int],
                forall|j: int|
                    range.start <= j < i ==> #[trigger] self@[j] == self@[range.start as int],
            decreases range.end - i,
        {
            if self.get(i) != first {
                return false;
            }
            i += 1;
        }
        true
    }

    /// Scans indices left to right for the earliest window of `size` bits all
    /// equal to `is_set`, returning a range of exactly `size` bits anchored at
    /// the earliest index where such a window exists.
    pub fn find_first_fit(&self, size: usize, is_set: bool) -> (r: Option<BitmapRange>)
        requires
            self.wf(),
            1 <= size,
        ensures
            r matches Some(range) ==> range.start + size == range.end && range.end <= self@.len()
                && window_matches(self@, range.start as int, size as int, is_set) && (forall|s: int|
                0 <= s < range.start ==> !window_matches(self@, s, size as int, is_set)),
            r is None ==> !has_window(self@, size as int, is_set),
            size > self@.len() ==> r is None,
            size == self@.len() ==> ((r is Some) <==> window_matches(
                self@,
                0,
                size as int,
                is_set,
            )),
    {
        let n = self.len();
        let mut start: Option<usize> = None;
        let mut end: usize = 0;
        let mut i: usize = 0;
        while i < n
            invariant
                self.wf(),
                n == self@.len(),
                1 <= size,
                i <= n,
                forall|s: int|
                    0 <= s && s + size <= i ==> !window_matches(self@, s, size as int, is_set),
                start matches Some(b) ==> b < i && end == i && i - b < size && (forall|j: int|
                    b <= j < i ==> self@[j] == is_set) && (b == 0 || self@[b - 1] != is_set),
                start is None ==> (i == 0 || self@[i - 1] != is_set),
            decreases n - i,
        {
            if self.get(i) == is_set {
                let beginning = if let Some(val) = start {
                    end = end + 1;
                    val
                } else {
                    start = Some(i);
                    end = i + 1;
                    i
                };
                if end - beginning >= size {
                    proof {
                        assert(window_matches(self@, beginning as int, size as int, is_set));
                        assert forall|s: int| 0 <= s < beginning implies !window_matches(
                            self@,
                            s,
                            size as int,
                            is_set,
                        ) by {
                            assert(s + size <= i);
                        }
                    }
                    return Some(BitmapRange { start: beginning, end });
                }
            } else {
                start = None;
            }
            proof {
                assert forall|s: int| 0 <= s && s + size <= i + 1 implies !window_matches(
                    self@,
                    s,
                    size as int,
                    is_set,
                ) by {
                    if s + size == i + 1 {
                        if self@[i as int] != is_set {
                            assert(!window_matches(self@, s, size as int, is_set));
                        } else {
                            let b = start->Some_0 as int;
                            if b > 0 && s < b {
                                assert(self@[b - 1] != is_set);
                                assert(s <= b - 1 < s + size);
                                assert(!window_matches(self@, s, size as int, is_set));
                            }
                        }
                    }
                }
            }
            i += 1;
        }
        proof {
            if has_window(self@, size as int, is_set) {
                let s = choose|s: int|
                    0 <= s && s + size <= self@.len() && #[trigger] window_matches(
                        self@,
                        s,
                        size as int,
                        is_set,
                    );
                assert(!window_matches(self@, s, size as int, is_set));
            }
        }
        None
    }

    /// XORs every bit in `[range.start, range.end)`, handling the partial
    /// leading and trailing words and the full interior words distinctly,
    /// without touching any word beyond the backing storage. Flipping a
    /// mixed-state range is a contract violation, not a supported operation.
    pub fn flip_range(&mut self, range: &BitmapRange)
        requires
            old(self).wf(),
            range.start < range.end,
            range.end <= old(self)@.len(),
            all_same_in(old(self)@, range.start as int, range.end as int),
        ensures
            final(self).wf(),
            final(self)@ == flip_seq(old(self)@, range.start as int, range.end as int),
    {
        let s = range.start;
        let e = range.end;
        let n = self.bits.len();
        proof {
            lemma_word_index(s as int, n as int);
            lemma_word_index_end(e as int, n as int);
        }
        let start_idx = s / WORD_SIZE_BITS;
        let end_idx = e / WORD_SIZE_BITS;
        proof {
            lemma_shift_ge_one((s % 64) as u64);
            lemma_shift_ge_one((e % 64) as u64);
        }
        let leading_bits: u64 = !((1u64 << (s % WORD_SIZE_BITS)) - 1);
        let trailing_bits: u64 = (1u64 << (e % WORD_SIZE_BITS)) - 1;
        if start_idx == end_idx {
            self.bits[start_idx] = self.bits[start_idx] ^ (leading_bits & trailing_bits);
            proof {
                lemma_flip_window(
                    old(self).bits@[start_idx as int],
                    (s % 64) as u64,
                    (e % 64) as u64,
                );
                assert forall|i: int| 0 <= i < self@.len() implies self@[i] == flip_seq(
                    old(self)@,
                    s as int,
                    e as int,
                )[i] by {
                    lemma_word_index(i, n as int);
                }
                assert(self@ =~= flip_seq(old(self)@, s as int, e as int));
            }
        } else {
            self.bits[start_idx] = self.bits[start_idx] ^ leading_bits;
            let mut wi = start_idx + 1;
            while wi < end_idx
                invariant
                    self.bits@.len() == n,
                    self.len == old(self).len,
                    start_idx < wi <= end_idx,
                    end_idx <= n,
                    self.bits@[start_idx as int] == old(self).bits@[start_idx as int]
                        ^ leading_bits,
                    forall|k: int|
                        start_idx < k < wi ==> self.bits@[k] == old(self).bits@[k]
                            ^ 0xffff_ffff_ffff_ffffu64,
                    forall|k: int|
                        0 <= k < n && !(start_idx <= k < wi) ==> self.bits@[k] == old(
                            self,
                        ).bits@[k],
                decreases end_idx - wi,
            {
                self.bits[wi] = self.bits[wi] ^ 0xffff_ffff_ffff_ffffu64;
                wi += 1;
            }
            if end_idx < n {
                self.bits[end_idx] = self.bits[end_idx] ^ trailing_bits;
            }
            proof {
                assert forall|i: int| 0 <= i < self@.len() implies self@[i] == flip_seq(
                    old(self)@,
                    s as int,
                    e as int,
                )[i] by {
                    lemma_word_index(i, n as int);
                    let k = i / 64;
                    if k == start_idx {
                        lemma_flip_leading(old(self).bits@[k], (s % 64) as u64);
                    } else if k < end_idx {
                        lemma_flip_all(old(self).bits@[k]);
                    } else if k == end_idx {
                        lemma_flip_trailing(old(self).bits@[k], (e % 64) as u64);
                    }
                }
                assert(self@ =~= flip_seq(old(self)@, s as int, e as int));
            }
        }
    }

    /// Couples `find_first_fit` and `flip_range`: finds the earliest window
    /// of `size` bits equal to `is_set`, flips it, and returns its start.
    /// The only entry point that should be used for allocation and
    /// deallocation, so that no other view of the map can change between the
    /// find and the flip.
    pub fn find_and_flip(&mut self, size: usize, is_set: bool) -> (r: Option<usize>)
        requires
            old(self).wf(),
            1 <= size,
        ensures
            final(self).wf(),
            final(self)@.len() == old(self)@.len(),
            r matches Some(start) ==> start + size <= old(self)@.len() && window_matches(
                old(self)@,
                start as int,
                size as int,
                is_set,
            ) && (forall|s: int|
                0 <= s < start ==> !window_matches(old(self)@, s, size as int, is_set))
                && final(self)@ == flip_seq(old(self)@, start as int, start + size) && (forall|
                i: int,
            |
                start <= i < start + size ==> final(self)@[i] == !is_set),
            r is None ==> final(self)@ == old(self)@ && !has_window(
                old(self)@,
                size as int,
                is_set,
            ),
    {
        let found = self.find_first_fit(size, is_set);
        match found {
            Some(range) => {
                self.flip_range(&range);
                Some(range.start)
            },
            None => None,
        }
    }
}

} // verus!
