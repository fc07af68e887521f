use vstd::prelude::*;
use vstd::std_specs::bits::{u64_trailing_zeros, axiom_u64_trailing_zeros};

verus! {

/// Number of 64-bit words in a board mask.
pub const N_WORDS: usize = 7;

/// Number of cells a board mask can hold (7 words of 64 bits).
pub const N_BITS: usize = 448;

/// Whether bit `j` of `w` is set.
pub open spec fn word_bit(w: u64, j: u64) -> bool {
    (w >> j) & 1u64 == 1u64
}

/// The number of `true` entries of `s`.
pub open spec fn count_true(s: Seq<bool>) -> nat
    decreases s.len(),
{
    if s.len() == 0 {
        0
    } else {
        count_true(s.drop_last()) + if s.last() { 1nat } else { 0nat }
    }
}

/// The 64 bits of a word, lowest first.
pub open spec fn word_bits(w: u64) -> Seq<bool> {
    Seq::new(64, |j: int| word_bit(w, j as u64))
}

/// One `pop_first` on the set `before`, leaving `after` and returning `r`: `None` on an empty set,
/// which it leaves as it was; otherwise the lowest member, which it removes.
pub open spec fn pop_step(before: Seq<bool>, after: Seq<bool>, r: Option<usize>) -> bool {
    &&& r.is_none() ==> after == before && forall|i: int| 0 <= i < 448 ==> !#[trigger] before[i]
    &&& r matches Some(idx) ==> {
        &&& idx < 448
        &&& before[idx as int]
        &&& forall|i: int| 0 <= i < idx ==> !#[trigger] before[i]
        &&& after == before.update(idx as int, false)
    }
}

/// Clearing a member removes one from the count.
pub proof fn lemma_count_true_clear(s: Seq<bool>, k: int)
    requires
        0 <= k < s.len(),
        s[k],
    ensures
        count_true(s.update(k, false)) + 1 == count_true(s),
    decreases s.len(),
{
    if k < s.len() - 1 {
        lemma_count_true_clear(s.drop_last(), k);
        assert(s.update(k, false).drop_last() =~= s.drop_last().update(k, false));
    } else {
        assert(s.update(k, false).drop_last() =~= s.drop_last());
    }
}

/// What the first `k` pops of a drain keep: the popped cells rise, each was in the starting set,
/// the set is the starting set less the popped cells, none of which is at or below the last one,
/// and the count fell by `k`.
proof fn lemma_drain_prefix(boards: Seq<Seq<bool>>, popped: Seq<usize>, k: int)
    requires
        boards.len() == popped.len() + 1,
        boards[0].len() == 448,
        forall|j: int| 0 <= j < popped.len() ==> #[trigger] pop_step(boards[j], boards[j + 1], Some(popped[j])),
        0 <= k <= popped.len(),
    ensures
        boards[k].len() == 448,
        forall|a: int, b: int| 0 <= a < b < k ==> popped[a] < popped[b],
        forall|j: int| 0 <= j < k ==> boards[0][#[trigger] popped[j] as int],
        forall|i: int| 0 <= i < 448 ==> (#[trigger] boards[k][i] <==> (boards[0][i] && forall|j: int| 0 <= j < k ==> popped[j] != i)),
        k > 0 ==> forall|i: int| 0 <= i <= popped[k - 1] ==> !#[trigger] boards[k][i],
        count_true(boards[k]) + k == count_true(boards[0]),
    decreases k,
{
    if k > 0 {
        lemma_drain_prefix(boards, popped, k - 1);
        let j = k - 1;
        assert(pop_step(boards[j], boards[j + 1], Some(popped[j])));
        lemma_count_true_clear(boards[j], popped[j] as int);
        if k > 1 {
            assert(popped[k - 2] < popped[j]) by {
                if popped[j] <= popped[k - 2] {
                    assert(!boards[j][popped[j] as int]);
                }
            }
        }
    }
}

/// Draining a set with `pop_first` until it returns `None` yields every member exactly once, in
/// increasing order, one fewer member after each pop, and leaves the set empty.
pub proof fn lemma_drain(boards: Seq<Seq<bool>>, popped: Seq<usize>)
    requires
        boards.len() == popped.len() + 1,
        boards[0].len() == 448,
        forall|j: int| 0 <= j < popped.len() ==> #[trigger] pop_step(boards[j], boards[j + 1], Some(popped[j])),
        pop_step(boards.last(), boards.last(), None),
    ensures
        forall|a: int, b: int| 0 <= a < b < popped.len() ==> popped[a] < popped[b],
        forall|i: int| 0 <= i < 448 ==> (boards[0][i] <==> popped.contains(i as usize)),
        forall|i: int| 0 <= i < 448 ==> !#[trigger] boards.last()[i],
        forall|k: int| 0 <= k <= popped.len() ==> count_true(#[trigger] boards[k]) + k == count_true(boards[0]),
{
    let n = popped.len() as int;
    lemma_drain_prefix(boards, popped, n);
    assert forall|k: int| 0 <= k <= popped.len() implies count_true(#[trigger] boards[k]) + k == count_true(boards[0]) by {
        lemma_drain_prefix(boards, popped, k);
    }
    assert forall|i: int| 0 <= i < 448 implies (boards[0][i] <==> popped.contains(i as usize)) by {
        assert(!boards[n][i]);
        if boards[0][i] {
            let j = choose|j: int| 0 <= j < n && popped[j] == i;
            assert(popped[j] == i as usize);
        }
        if popped.contains(i as usize) {
            let j = choose|j: int| 0 <= j < n && popped[j] == i as usize;
            assert(boards[0][popped[j] as int]);
        }
    }
}

/// A set of board cells, one bit per cell index `y * width + x`.
#[derive(Clone, Copy, PartialEq, Eq, Hash, Default, Debug)]
pub struct BitBoard(pub [u64; 7]);

impl View for BitBoard {
    type V = Seq<bool>;

    /// Bit `i` of the mask, for each of the 448 cell indices.
    open spec fn view(&self) -> Seq<bool> {
        Seq::new(448, |i: int| word_bit(self.0[i / 64], (i % 64) as u64))
    }
}

/// `count_true` splits over a concatenation.
pub proof fn lemma_count_true_concat(a: Seq<bool>, b: Seq<bool>)
    ensures
        count_true(a + b) == count_true(a) + count_true(b),
    decreases b.len(),
{
    if b.len() == 0 {
        assert(a + b =~= a);
    } else {
        lemma_count_true_concat(a, b.drop_last());
        assert((a + b).drop_last() =~= a + b.drop_last());
    }
}

/// `count_true` of a prefix never exceeds its length.
pub proof fn lemma_count_true_le_len(s: Seq<bool>)
    ensures
        count_true(s) <= s.len(),
    decreases s.len(),
{
    if s.len() > 0 {
        lemma_count_true_le_len(s.drop_last());
    }
}

/// Bit facts about single words used throughout.
pub proof fn lemma_word_bit_ops(a: u64, b: u64, j: u64, k: u64)
    requires
        j < 64,
        k < 64,
    ensures
        !word_bit(0u64, j),
        word_bit(a & b, j) == (word_bit(a, j) && word_bit(b, j)),
        word_bit(a | b, j) == (word_bit(a, j) || word_bit(b, j)),
        word_bit(a ^ b, j) == (word_bit(a, j) != word_bit(b, j)),
        word_bit(!a, j) == !word_bit(a, j),
        word_bit(1u64 << k, j) == (j == k),
        word_bit(a | (1u64 << k), j) == (j == k || word_bit(a, j)),
        word_bit(a & !(1u64 << k), j) == (j != k && word_bit(a, j)),
{
    assert(!word_bit(0u64, j)) by (bit_vector) requires j < 64;
    assert(word_bit(a & b, j) == (word_bit(a, j) && word_bit(b, j))) by (bit_vector) requires j < 64;
    assert(word_bit(a | b, j) == (word_bit(a, j) || word_bit(b, j))) by (bit_vector) requires j < 64;
    assert(word_bit(a ^ b, j) == (word_bit(a, j) != word_bit(b, j))) by (bit_vector) requires j < 64;
    assert(word_bit(!a, j) == !word_bit(a, j)) by (bit_vector) requires j < 64;
    assert(word_bit(1u64 << k, j) == (j == k)) by (bit_vector) requires j < 64, k < 64;
    assert(word_bit(a | (1u64 << k), j) == (j == k || word_bit(a, j))) by (bit_vector)
        requires j < 64, k < 64;
    assert(word_bit(a & !(1u64 << k), j) == (j != k && word_bit(a, j))) by (bit_vector)
        requires j < 64, k < 64;
}

/// Bits of a word shifted left or right by `s < 64`.
pub proof fn lemma_word_bit_shift(a: u64, s: u64, j: u64)
    requires
        s < 64,
        j < 64,
    ensures
        word_bit(a << s, j) == (j >= s && word_bit(a, (j - s) as u64)),
        word_bit(a >> s, j) == (j + s < 64 && word_bit(a, (j + s) as u64)),
{
    assert(word_bit(a << s, j) == (j >= s && word_bit(a, (j - s) as u64))) by (bit_vector)
        requires s < 64, j < 64;
    assert(word_bit(a >> s, j) == (j + s < 64 && word_bit(a, (j + s) as u64))) by (bit_vector)
        requires s < 64, j < 64;
}

/// A word is zero exactly when none of its bits is set.
pub proof fn lemma_word_zero(a: u64)
    ensures
        a == 0 <==> (forall|j: u64| j < 64 ==> !#[trigger] word_bit(a, j)),
        a != 0 ==> u64_trailing_zeros(a) < 64 && word_bit(a, u64_trailing_zeros(a) as u64),
        forall|j: u64| j < u64_trailing_zeros(a) ==> !#[trigger] word_bit(a, j),
{
    axiom_u64_trailing_zeros(a);
    if a == 0 {
        assert forall|j: u64| j < 64 implies !#[trigger] word_bit(a, j) by {
            lemma_word_bit_ops(a, a, j, 0);
        }
    }
    assert forall|j: u64| j < u64_trailing_zeros(a) implies !#[trigger] word_bit(a, j) by {
        assert((a >> j) & 1u64 == 0u64);
    }
    if a != 0 {
        let t = u64_trailing_zeros(a) as u64;
        assert(word_bit(a, t));
    }
}

impl BitBoard {
    /// Whether cell `i` is in the set.
    pub open spec fn has(self, i: int) -> bool {
        0 <= i < 448 && self@[i]
    }

    /// The empty set.
    pub fn empty() -> (b: Self)
        ensures
            forall|i: int| 0 <= i < 448 ==> !#[trigger] b@[i],
            b@ == Seq::new(448, |i: int| false),
            b.0@ == Seq::new(7, |k: int| 0u64),
    {
        let b = BitBoard([0u64; 7]);
        proof {
            assert forall|i: int| 0 <= i < 448 implies !#[trigger] b@[i] by {
                lemma_word_bit_ops(0, 0, (i % 64) as u64, 0);
            }
            assert(b@ =~= Seq::new(448, |i: int| false));
            assert(b.0@ =~= Seq::new(7, |k: int| 0u64));
        }
        b
    }

    /// The set holding exactly cell `idx`.
    pub fn with_bit(idx: usize) -> (b: Self)
        requires
            idx < 448,
        ensures
            forall|i: int| 0 <= i < 448 ==> #[trigger] b@[i] == (i == idx),
    {
        let mut b = Self::empty();
        b.set(idx);
        b
    }

    /// Adds cell `idx` to the set.
    pub fn set(&mut self, idx: usize)
        requires
            idx < 448,
        ensures
            final(self)@ == old(self)@.update(idx as int, true),
    {
        let k = idx >> 6;
        let j = idx & 63;
        proof {
            assert(k == idx / 64 && j == idx % 64) by (bit_vector) requires k == idx >> 6, j == idx & 63;
        }
        let w = self.0[k] | (1u64 << (j as u64));
        self.0[k] = w;
        proof {
            assert forall|i: int| 0 <= i < 448 implies #[trigger] self@[i] == old(self)@.update(idx as int, true)[i] by {
                lemma_word_bit_ops(old(self).0[k as int], 0, (i % 64) as u64, j as u64);
            }
            assert(self@ =~= old(self)@.update(idx as int, true));
        }
    }

    /// Removes cell `idx` from the set.
    pub fn unset(&mut self, idx: usize)
        requires
            idx < 448,
        ensures
            final(self)@ == old(self)@.update(idx as int, false),
    {
        let k = idx >> 6;
        let j = idx & 63;
        proof {
            assert(k == idx / 64 && j == idx % 64) by (bit_vector) requires k == idx >> 6, j == idx & 63;
        }
        let w = self.0[k] & !(1u64 << (j as u64));
        self.0[k] = w;
        proof {
            assert forall|i: int| 0 <= i < 448 implies #[trigger] self@[i] == old(self)@.update(idx as int, false)[i] by {
                lemma_word_bit_ops(old(self).0[k as int], 0, (i % 64) as u64, j as u64);
            }
            assert(self@ =~= old(self)@.update(idx as int, false));
        }
    }

    /// Whether cell `idx` is in the set.
    pub fn get(&self, idx: usize) -> (r: bool)
        requires
            idx < 448,
        ensures
            r == self@[idx as int],
    {
        let k = idx >> 6;
        let j = idx & 63;
        proof {
            assert(k == idx / 64 && j == idx % 64) by (bit_vector) requires k == idx >> 6, j == idx & 63;
        }
        (self.0[k] >> (j as u64)) & 1 == 1
    }
}


/// The number of set bits of a word (what std's `u64::count_ones` gives), bit by bit.
fn word_count_ones(w: u64) -> (r: u32)
    ensures
        r as nat == count_true(word_bits(w)),
{
    let mut r: u32 = 0;
    let mut j: u64 = 0;
    while j < 64
        invariant
            j <= 64,
            r as nat == count_true(word_bits(w).take(j as int)),
            r <= j,
        decreases 64 - j,
    {
        let bit = (w >> j) & 1;
        proof {
            assert(bit == 0 || bit == 1) by (bit_vector) requires bit == (w >> j) & 1;
            assert(word_bits(w).take(j + 1).drop_last() =~= word_bits(w).take(j as int));
            assert(word_bits(w).take(j + 1).last() == word_bit(w, j));
        }
        if bit == 1 {
            r += 1;
        }
        j += 1;
    }
    proof {
        assert(word_bits(w).take(64) =~= word_bits(w));
    }
    r
}

/// Cell `64 * k + j` of a mask is bit `j` of word `k`.
pub proof fn lemma_index_split(k: int, j: int)
    requires
        0 <= j < 64,
    ensures
        (64 * k + j) / 64 == k,
        (64 * k + j) % 64 == j,
{
    assert((64 * k + j) / 64 == k && (64 * k + j) % 64 == j) by (nonlinear_arith)
        requires 0 <= j < 64;
}

impl BitBoard {
    /// The number of cells in the set.
    pub fn count_ones(&self) -> (r: u32)
        ensures
            r as nat == count_true(self@),
            r <= 448,
    {
        let mut total: u32 = 0;
        let mut k: usize = 0;
        while k < 7
            invariant
                k <= 7,
                total as nat == count_true(self@.subrange(0, 64 * k as int)),
                total <= 64 * k,
            decreases 7 - k,
        {
            let c = word_count_ones(self.0[k]);
            proof {
                lemma_count_true_le_len(word_bits(self.0[k as int]));
                let a = self@.subrange(0, 64 * k as int);
                let b = word_bits(self.0[k as int]);
                assert forall|j: int| 0 <= j < 64 implies #[trigger] self@.subrange(0, 64 * (k + 1) as int)[64 * k + j] == b[j] by {
                    lemma_index_split(k as int, j);
                }
                assert(self@.subrange(0, 64 * (k + 1) as int) =~= a + b) by {
                    assert forall|i: int| 0 <= i < 64 * (k + 1) implies #[trigger] self@.subrange(0, 64 * (k + 1) as int)[i] == (a + b)[i] by {
                        if i >= 64 * k {
                            let j = i - 64 * k;
                            assert(self@.subrange(0, 64 * (k + 1) as int)[64 * k + j] == b[j]);
                        }
                    }
                }
                lemma_count_true_concat(a, b);
            }
            total = total + c;
            k += 1;
        }
        assert(self@.subrange(0, 448) =~= self@);
        total
    }

    /// Whether the set has no cells.
    pub fn is_empty(&self) -> (r: bool)
        ensures
            r == (forall|i: int| 0 <= i < 448 ==> !#[trigger] self@[i]),
    {
        let w = self.0;
        let r = (w[0] | w[1] | w[2] | w[3] | w[4] | w[5] | w[6]) == 0;
        proof {
            let (a, b, c, d, e, f, g) = (w[0], w[1], w[2], w[3], w[4], w[5], w[6]);
            assert(((a | b | c | d | e | f | g) == 0) == (a == 0 && b == 0 && c == 0 && d == 0 && e == 0 && f == 0 && g == 0)) by (bit_vector);
            if r {
                assert forall|i: int| 0 <= i < 448 implies !#[trigger] self@[i] by {
                    lemma_word_zero(self.0[i / 64]);
                    assert(!word_bit(self.0[i / 64], (i % 64) as u64));
                }
            } else {
                let k: int = choose|k: int| 0 <= k < 7 && self.0[k] != 0;
                lemma_word_zero(self.0[k]);
                let t = u64_trailing_zeros(self.0[k]) as int;
                lemma_index_split(k, t);
                assert(self@[64 * k + t]);
            }
        }
        r
    }

    /// Whether the set has at least one cell.
    pub fn any(&self) -> (r: bool)
        ensures
            r == (exists|i: int| 0 <= i < 448 && #[trigger] self@[i]),
    {
        !self.is_empty()
    }

    /// The lowest cell in the set, or 448 when it is empty.
    pub fn tzcnt(&self) -> (r: u32)
        ensures
            r <= 448,
            r < 448 ==> self@[r as int],
            forall|i: int| 0 <= i < r ==> !#[trigger] self@[i],
    {
        let mut k: usize = 0;
        while k < 7
            invariant
                k <= 7,
                forall|i: int| 0 <= i < 64 * k ==> !#[trigger] self@[i],
            decreases 7 - k,
        {
            let w = self.0[k];
            proof {
                lemma_word_zero(w);
            }
            if w != 0 {
                let t = w.trailing_zeros();
                proof {
                    lemma_index_split(k as int, t as int);
                    assert forall|i: int| 0 <= i < 64 * k + t implies !#[trigger] self@[i] by {
                        if i >= 64 * k {
                            lemma_index_split(k as int, i - 64 * k);
                        }
                    }
                }
                return (64 * k as u32) + t;
            }
            proof {
                assert forall|i: int| 0 <= i < 64 * (k + 1) implies !#[trigger] self@[i] by {
                    if i >= 64 * k {
                        lemma_index_split(k as int, i - 64 * k);
                    }
                }
            }
            k += 1;
        }
        448
    }

    /// Removes the lowest cell of the set and returns it, or `None` when the set is empty.
    pub fn pop_first(&mut self) -> (r: Option<usize>)
        ensures
            pop_step(old(self)@, final(self)@, r),
    {
        let idx = self.tzcnt() as usize;
        if idx >= 448 {
            None
        } else {
            self.unset(idx);
            Some(idx)
        }
    }
}


impl BitBoard {
    /// The complement of the set within the 448 cell indices.
    pub fn not(self) -> (r: Self)
        ensures
            r@ == Seq::new(448, |i: int| !self@[i]),
    {
        let mut w = [0u64; 7];
        let mut k: usize = 0;
        while k < 7
            invariant
                k <= 7,
                forall|m: int| 0 <= m < k ==> #[trigger] w[m] == !self.0[m],
            decreases 7 - k,
        {
            w[k] = !self.0[k];
            k += 1;
        }
        let r = BitBoard(w);
        proof {
            assert forall|i: int| 0 <= i < 448 implies #[trigger] r@[i] == !self@[i] by {
                lemma_word_bit_ops(self.0[i / 64], 0, (i % 64) as u64, 0);
            }
            assert(r@ =~= Seq::new(448, |i: int| !self@[i]));
        }
        r
    }

    /// The intersection of two sets.
    pub fn bitand(self, rhs: Self) -> (r: Self)
        ensures
            r@ == Seq::new(448, |i: int| self@[i] && rhs@[i]),
    {
        let mut w = [0u64; 7];
        let mut k: usize = 0;
        while k < 7
            invariant
                k <= 7,
                forall|m: int| 0 <= m < k ==> #[trigger] w[m] == (self.0[m] & rhs.0[m]),
            decreases 7 - k,
        {
            w[k] = self.0[k] & rhs.0[k];
            k += 1;
        }
        let r = BitBoard(w);
        proof {
            assert forall|i: int| 0 <= i < 448 implies #[trigger] r@[i] == (self@[i] && rhs@[i]) by {
                lemma_word_bit_ops(self.0[i / 64], rhs.0[i / 64], (i % 64) as u64, 0);
            }
            assert(r@ =~= Seq::new(448, |i: int| self@[i] && rhs@[i]));
        }
        r
    }

    /// In-place form of `bitand`.
    pub fn bitand_assign(&mut self, rhs: Self)
        ensures
            final(self)@ == Seq::new(448, |i: int| old(self)@[i] && rhs@[i]),
    {
        *self = self.bitand(rhs);
    }

    /// The union of two sets.
    pub fn bitor(self, rhs: Self) -> (r: Self)
        ensures
            r@ == Seq::new(448, |i: int| self@[i] || rhs@[i]),
    {
        let mut w = [0u64; 7];
        let mut k: usize = 0;
        while k < 7
            invariant
                k <= 7,
                forall|m: int| 0 <= m < k ==> #[trigger] w[m] == (self.0[m] | rhs.0[m]),
            decreases 7 - k,
        {
            w[k] = self.0[k] | rhs.0[k];
            k += 1;
        }
        let r = BitBoard(w);
        proof {
            assert forall|i: int| 0 <= i < 448 implies #[trigger] r@[i] == (self@[i] || rhs@[i]) by {
                lemma_word_bit_ops(self.0[i / 64], rhs.0[i / 64], (i % 64) as u64, 0);
            }
            assert(r@ =~= Seq::new(448, |i: int| self@[i] || rhs@[i]));
        }
        r
    }

    /// In-place form of `bitor`.
    pub fn bitor_assign(&mut self, rhs: Self)
        ensures
            final(self)@ == Seq::new(448, |i: int| old(self)@[i] || rhs@[i]),
    {
        *self = self.bitor(rhs);
    }

    /// The cells in exactly one of two sets.
    pub fn bitxor(self, rhs: Self) -> (r: Self)
        ensures
            r@ == Seq::new(448, |i: int| self@[i] != rhs@[i]),
    {
        let mut w = [0u64; 7];
        let mut k: usize = 0;
        while k < 7
            invariant
                k <= 7,
                forall|m: int| 0 <= m < k ==> #[trigger] w[m] == (self.0[m] ^ rhs.0[m]),
            decreases 7 - k,
        {
            w[k] = self.0[k] ^ rhs.0[k];
            k += 1;
        }
        let r = BitBoard(w);
        proof {
            assert forall|i: int| 0 <= i < 448 implies #[trigger] r@[i] == (self@[i] != rhs@[i]) by {
                lemma_word_bit_ops(self.0[i / 64], rhs.0[i / 64], (i % 64) as u64, 0);
            }
            assert(r@ =~= Seq::new(448, |i: int| self@[i] != rhs@[i]));
        }
        r
    }

    /// In-place form of `bitxor`.
    pub fn bitxor_assign(&mut self, rhs: Self)
        ensures
            final(self)@ == Seq::new(448, |i: int| old(self)@[i] != rhs@[i]),
    {
        *self = self.bitxor(rhs);
    }
}


impl BitBoard {
    /// Every cell index moved up by `rhs`; cells pushed past index 447 are dropped.
    pub fn shl(self, rhs: usize) -> (r: Self)
        ensures
            r@ == Seq::new(448, |i: int| i >= rhs && self@[i - rhs]),
    {
        let ws = rhs >> 6;
        let bs = rhs & 63;
        proof {
            assert(ws == rhs / 64 && bs == rhs % 64) by (bit_vector) requires ws == rhs >> 6, bs == rhs & 63;
        }
        if ws >= 7 {
            let r = Self::empty();
            proof {
                assert(r@ =~= Seq::new(448, |i: int| i >= rhs && self@[i - rhs]));
            }
            return r;
        }
        let mut w = [0u64; 7];
        let mut i: usize = 0;
        while i < 7 - ws
            invariant
                ws < 7,
                bs < 64,
                i <= 7 - ws,
                forall|m: int| 0 <= m < ws ==> #[trigger] w[m] == 0,
                forall|m: int| ws + i <= m < 7 ==> #[trigger] w[m] == 0,
                forall|m: int| ws <= m < ws + i ==> #[trigger] w[m] == if bs == 0 {
                    self.0[m - ws]
                } else {
                    (self.0[m - ws] << (bs as u64)) | (if m - ws > 0 { self.0[m - ws - 1] >> ((64 - bs) as u64) } else { 0u64 })
                },
            decreases 7 - ws - i,
        {
            if bs == 0 {
                w[i + ws] = self.0[i];
            } else {
                let lower = self.0[i] << (bs as u64);
                let carry = if i > 0 { self.0[i - 1] >> ((64 - bs) as u64) } else { 0 };
                w[i + ws] = lower | carry;
            }
            i += 1;
        }
        let r = BitBoard(w);
        proof {
            assert forall|g: int| 0 <= g < 448 implies #[trigger] r@[g] == (g >= rhs && self@[g - rhs]) by {
                let k = g / 64;
                let j = g % 64;
                lemma_index_split(k, j);
                assert(rhs == 64 * ws + bs);
                assert(r@[g] == word_bit(w[k], j as u64));
                if k < ws {
                    lemma_word_bit_ops(0, 0, j as u64, 0);
                    assert(!r@[g]);
                    assert(g < rhs);
                } else {
                    let m = k - ws;
                    if bs == 0 {
                        lemma_index_split(m, j);
                        assert(w[k] == self.0[m]);
                        assert(g - rhs == 64 * m + j);
                        assert(self@[64 * m + j] == word_bit(self.0[m], j as u64));
                    } else {
                        let lower = self.0[m] << (bs as u64);
                        let carry = if m > 0 { self.0[m - 1] >> ((64 - bs) as u64) } else { 0u64 };
                        assert(w[k] == lower | carry);
                        lemma_word_bit_ops(lower, carry, j as u64, 0);
                        lemma_word_bit_shift(self.0[m], bs as u64, j as u64);
                        if j >= bs {
                            lemma_index_split(m, j - bs);
                            assert(g - rhs == 64 * m + (j - bs));
                            assert(self@[64 * m + (j - bs)] == word_bit(self.0[m], (j - bs) as u64));
                            if m > 0 {
                                lemma_word_bit_shift(self.0[m - 1], (64 - bs) as u64, j as u64);
                            } else {
                                lemma_word_bit_ops(0, 0, j as u64, 0);
                            }
                            assert(!word_bit(carry, j as u64));
                        } else if m > 0 {
                            lemma_word_bit_shift(self.0[m - 1], (64 - bs) as u64, j as u64);
                            lemma_index_split(m - 1, j + 64 - bs);
                            assert(g - rhs == 64 * (m - 1) + (j + 64 - bs));
                            assert(self@[64 * (m - 1) + (j + 64 - bs)] == word_bit(self.0[m - 1], (j + 64 - bs) as u64));
                        } else {
                            lemma_word_bit_ops(0, 0, j as u64, 0);
                            assert(g < rhs);
                        }
                    }
                }
            }
            assert(r@ =~= Seq::new(448, |i: int| i >= rhs && self@[i - rhs]));
        }
        r
    }

    /// Every cell index moved down by `rhs`; cells pushed below index 0 are dropped.
    pub fn shr(self, rhs: usize) -> (r: Self)
        ensures
            r@ == Seq::new(448, |i: int| i + rhs < 448 && self@[i + rhs]),
    {
        let ws = rhs >> 6;
        let bs = rhs & 63;
        proof {
            assert(ws == rhs / 64 && bs == rhs % 64) by (bit_vector) requires ws == rhs >> 6, bs == rhs & 63;
        }
        if ws >= 7 {
            let r = Self::empty();
            proof {
                assert(r@ =~= Seq::new(448, |i: int| i + rhs < 448 && self@[i + rhs]));
            }
            return r;
        }
        let mut w = [0u64; 7];
        if bs == 0 {
            let mut i: usize = 0;
            while i < 7 - ws
                invariant
                    ws < 7,
                    bs == 0,
                    i <= 7 - ws,
                    forall|m: int| i <= m < 7 ==> #[trigger] w[m] == 0,
                    forall|m: int| 0 <= m < i ==> #[trigger] w[m] == self.0[m + ws],
                decreases 7 - ws - i,
            {
                w[i] = self.0[i + ws];
                i += 1;
            }
        } else {
            let mut i: usize = 0;
            while i < 6 - ws
                invariant
                    ws < 7,
                    0 < bs < 64,
                    i <= 6 - ws,
                    forall|m: int| i <= m < 7 ==> #[trigger] w[m] == 0,
                    forall|m: int| 0 <= m < i ==> #[trigger] w[m] ==
                        ((self.0[m + ws] >> (bs as u64)) | (self.0[m + ws + 1] << ((64 - bs) as u64))),
                decreases 6 - ws - i,
            {
                let lower = self.0[i + ws] >> (bs as u64);
                let carry = self.0[i + ws + 1] << ((64 - bs) as u64);
                w[i] = lower | carry;
                i += 1;
            }
            w[6 - ws] = self.0[6] >> (bs as u64);
        }
        let r = BitBoard(w);
        proof {
            assert forall|g: int| 0 <= g < 448 implies #[trigger] r@[g] == (g + rhs < 448 && self@[g + rhs]) by {
                let k = g / 64;
                let j = g % 64;
                lemma_index_split(k, j);
                if k > 6 - ws || (bs == 0 && k >= 7 - ws) {
                    lemma_word_bit_ops(0, 0, j as u64, 0);
                } else if bs == 0 {
                    lemma_index_split(k + ws, j);
                } else if k == 6 - ws {
                    lemma_word_bit_shift(self.0[6], bs as u64, j as u64);
                    if j + bs < 64 {
                        lemma_index_split(6, j + bs);
                    }
                } else {
                    let lower = self.0[k + ws] >> (bs as u64);
                    let carry = self.0[k + ws + 1] << ((64 - bs) as u64);
                    lemma_word_bit_ops(lower, carry, j as u64, 0);
                    lemma_word_bit_shift(self.0[k + ws], bs as u64, j as u64);
                    lemma_word_bit_shift(self.0[k + ws + 1], (64 - bs) as u64, j as u64);
                    if j + bs < 64 {
                        lemma_index_split(k + ws, j + bs);
                    } else {
                        lemma_index_split(k + ws + 1, j + bs - 64);
                    }
                }
            }
            assert(r@ =~= Seq::new(448, |i: int| i + rhs < 448 && self@[i + rhs]));
        }
        r
    }
}

} // verus!

verus! {

/// Whether cell index `i` lies on a board of `w` columns and `h` rows.
pub open spec fn on_board(i: int, w: int, h: int) -> bool {
    0 <= i < w * h
}

/// Whether cell index `i` is in the leftmost column (`x == 0`).
pub open spec fn left_edge(i: int, w: int, h: int) -> bool {
    on_board(i, w, h) && i % w == 0
}

/// Whether cell index `i` is in the rightmost column (`x == w - 1`).
pub open spec fn right_edge(i: int, w: int, h: int) -> bool {
    on_board(i, w, h) && i % w == w - 1
}

/// Precomputed masks for one board size.
#[derive(Clone, Debug)]
pub struct SearchContext {
    pub width: u8,
    pub height: u8,
    pub valid_cells: BitBoard,
    pub not_left_edge: BitBoard,
    pub not_right_edge: BitBoard,
}

/// `y * w + x` has quotient `y` and remainder `x` when `0 <= x < w`.
pub proof fn lemma_row_col(w: int, y: int, x: int)
    requires
        0 < w,
        0 <= x < w,
    ensures
        (y * w + x) / w == y,
        (y * w + x) % w == x,
{
    vstd::arithmetic::div_mod::lemma_fundamental_div_mod_converse(y * w + x, w, y, x);
}

impl SearchContext {
    /// The masks agree with the board size they were built for.
    pub open spec fn wf(&self) -> bool {
        let w = self.width as int;
        let h = self.height as int;
        &&& 0 < w < 256
        &&& w * h <= 448
        &&& forall|i: int| 0 <= i < 448 ==> #[trigger] self.valid_cells@[i] == on_board(i, w, h)
        &&& forall|i: int| 0 <= i < 448 ==> #[trigger] self.not_left_edge@[i] == !left_edge(i, w, h)
        &&& forall|i: int| 0 <= i < 448 ==> #[trigger] self.not_right_edge@[i] == !right_edge(i, w, h)
    }

    /// Masks for a board of `width` columns and `height` rows.
    pub fn new(width: i32, height: i32) -> (c: Self)
        requires
            0 < width < 256,
            0 <= height < 256,
            width * height <= 448,
        ensures
            c.wf(),
            c.width == width,
            c.height == height,
    {
        let mut valid = BitBoard::empty();
        let mut not_left = BitBoard::empty().not();
        let mut not_right = BitBoard::empty().not();
        let w = width as usize;
        let h = height as usize;
        let mut y: usize = 0;
        while y < h
            invariant
                0 < w < 256,
                w * h <= 448,
                y <= h,
                forall|i: int| 0 <= i < 448 ==> #[trigger] valid@[i] == (0 <= i < y * w),
                forall|i: int| 0 <= i < 448 ==> #[trigger] not_left@[i] == !(0 <= i < y * w && i % (w as int) == 0),
                forall|i: int| 0 <= i < 448 ==> #[trigger] not_right@[i] == !(0 <= i < y * w && i % (w as int) == w - 1),
            decreases h - y,
        {
            proof {
                assert(y * w + w == (y + 1) * w) by (nonlinear_arith);
                assert((y + 1) * w <= h * w) by (nonlinear_arith) requires y + 1 <= h, w > 0;
                assert(h * w == w * h) by (nonlinear_arith);
            }
            let row = y * w;
            not_left.unset(row);
            not_right.unset(row + w - 1);
            let mut x: usize = 0;
            while x < w
                invariant
                    0 < w < 256,
                    w * h <= 448,
                    y < h,
                    row == y * w,
                    row + w <= 448,
                    x <= w,
                    forall|i: int| 0 <= i < 448 ==> #[trigger] valid@[i] == (0 <= i < row + x),
                decreases w - x,
            {
                valid.set(row + x);
                x += 1;
            }
            proof {
                assert forall|i: int| 0 <= i < 448 implies #[trigger] not_left@[i] == !(0 <= i < (y + 1) * w && i % (w as int) == 0) by {
                    if row <= i < row + w {
                        lemma_row_col(w as int, y as int, i - row);
                    }
                }
                assert forall|i: int| 0 <= i < 448 implies #[trigger] not_right@[i] == !(0 <= i < (y + 1) * w && i % (w as int) == w - 1) by {
                    if row <= i < row + w {
                        lemma_row_col(w as int, y as int, i - row);
                    }
                }
            }
            y += 1;
        }
        proof {
            assert(y * w == w * h) by (nonlinear_arith) requires y == h;
        }
        SearchContext {
            width: width as u8,
            height: height as u8,
            valid_cells: valid,
            not_left_edge: not_left,
            not_right_edge: not_right,
        }
    }

    /// Each cell moved one row up (`y + 1`), kept on the board.
    pub fn up(&self, b: BitBoard) -> (r: BitBoard)
        requires
            self.wf(),
        ensures
            forall|i: int| 0 <= i < 448 ==> #[trigger] r@[i] == (on_board(i, self.width as int, self.height as int) && i >= self.width && b@[i - self.width]),
    {
        b.shl(self.width as usize).bitand(self.valid_cells)
    }

    /// Each cell moved one row down (`y - 1`), kept on the board.
    pub fn down(&self, b: BitBoard) -> (r: BitBoard)
        requires
            self.wf(),
        ensures
            forall|i: int| 0 <= i < 448 ==> #[trigger] r@[i] == (on_board(i, self.width as int, self.height as int) && i + self.width < 448 && b@[i + self.width]),
    {
        b.shr(self.width as usize).bitand(self.valid_cells)
    }

    /// Each cell moved one column left (`x - 1`); cells in the leftmost column are dropped.
    pub fn left(&self, b: BitBoard) -> (r: BitBoard)
        requires
            self.wf(),
        ensures
            forall|i: int| 0 <= i < 448 ==> #[trigger] r@[i] == (i + 1 < 448 && b@[i + 1] && !left_edge(i + 1, self.width as int, self.height as int)),
    {
        b.bitand(self.not_left_edge).shr(1)
    }

    /// Each cell moved one column right (`x + 1`); cells in the rightmost column are dropped.
    pub fn right(&self, b: BitBoard) -> (r: BitBoard)
        requires
            self.wf(),
        ensures
            forall|i: int| 0 <= i < 448 ==> #[trigger] r@[i] == (i >= 1 && b@[i - 1] && !right_edge(i - 1, self.width as int, self.height as int)),
    {
        b.bitand(self.not_right_edge).shl(1)
    }

    /// The cells one step away from a cell of `b` in one of the four directions.
    pub fn expand_neighbors(&self, b: BitBoard) -> (r: BitBoard)
        requires
            self.wf(),
        ensures
            forall|i: int| 0 <= i < 448 ==> #[trigger] r@[i] == (
                (on_board(i, self.width as int, self.height as int) && i >= self.width && b@[i - self.width])
                || (on_board(i, self.width as int, self.height as int) && i + self.width < 448 && b@[i + self.width])
                || (i + 1 < 448 && b@[i + 1] && !left_edge(i + 1, self.width as int, self.height as int))
                || (i >= 1 && b@[i - 1] && !right_edge(i - 1, self.width as int, self.height as int))),
    {
        let u = self.up(b);
        let d = self.down(b);
        let l = self.left(b);
        let r = self.right(b);
        u.bitor(d).bitor(l).bitor(r)
    }
}

} // verus!
