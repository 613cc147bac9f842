use vstd::prelude::*;

verus! {

/// Bit `k` (0 = least significant) of one storage byte.
pub open spec fn byte_bit(b: u8, k: u8) -> bool {
    b & (1u8 << k) != 0u8
}

/// Whether chunk `n` is marked in `bytes`: chunk `n` is bit `n % 8` of byte `n / 8`;
/// chunks beyond the storage are unmarked.
pub open spec fn bit_at(bytes: Seq<u8>, n: int) -> bool {
    0 <= n && n / 8 < bytes.len() && byte_bit(bytes[n / 8], (n % 8) as u8)
}

/// The byte at index `i`, reading bytes past the end as zero.
pub open spec fn byte_or_zero(bytes: Seq<u8>, i: int) -> u8 {
    if 0 <= i < bytes.len() {
        bytes[i]
    } else {
        0u8
    }
}

/// The mask of the bits `0..=k` of a byte.
pub open spec fn low_mask(k: u8) -> u8 {
    if k >= 7 {
        0xFFu8
    } else {
        ((1u8 << ((k + 1) as u8)) - 1u8) as u8
    }
}

/// The storage after marking chunk `n`: long enough to hold it, and otherwise unchanged.
pub open spec fn set_result(bytes: Seq<u8>, n: nat) -> Seq<u8> {
    let len = if bytes.len() > n / 8 { bytes.len() } else { n / 8 + 1 };
    Seq::new(
        len,
        |i: int|
            if i == n / 8 {
                byte_or_zero(bytes, i) | (1u8 << ((n % 8) as u8))
            } else {
                byte_or_zero(bytes, i)
            },
    )
}

/// The storage after keeping chunks `0..=n` only.
pub open spec fn truncate_result(bytes: Seq<u8>, n: nat) -> Seq<u8> {
    if n / 8 < bytes.len() {
        let b = (n / 8) as int;
        bytes.subrange(0, b + 1).update(b, bytes[b] & low_mask((n % 8) as u8))
    } else {
        bytes
    }
}

/// The storage after marking each chunk of `sets`, in order.
pub open spec fn apply_sets(bytes: Seq<u8>, sets: Seq<nat>) -> Seq<u8>
    decreases sets.len(),
{
    if sets.len() == 0 {
        bytes
    } else {
        set_result(apply_sets(bytes, sets.drop_last()), sets.last())
    }
}

/// Whether every chunk below `n` is marked.
pub open spec fn all_below(bytes: Seq<u8>, n: int) -> bool {
    forall|i: int| 0 <= i < n ==> #[trigger] bit_at(bytes, i)
}

proof fn lemma_or_bit(b: u8, k: u8, j: u8)
    requires
        k < 8,
        j < 8,
    ensures
        byte_bit(b | (1u8 << k), j) == (byte_bit(b, j) || j == k),
{
    assert(((b | (1u8 << k)) & (1u8 << j) != 0u8) == ((b & (1u8 << j) != 0u8) || j == k))
        by (bit_vector)
        requires
            k < 8,
            j < 8,
    ;
}

proof fn lemma_zero_byte(j: u8)
    requires
        j < 8,
    ensures
        !byte_bit(0u8, j),
{
    assert(0u8 & (1u8 << j) == 0u8) by (bit_vector);
}

proof fn lemma_mask_bit(b: u8, k: u8, j: u8)
    requires
        k < 8,
        j < 8,
    ensures
        byte_bit(b & low_mask(k), j) == (byte_bit(b, j) && j <= k),
{
    if k >= 7 {
        assert(((b & 0xFFu8) & (1u8 << j) != 0u8) == ((b & (1u8 << j) != 0u8) && j <= k))
            by (bit_vector)
            requires
                k == 7,
                j < 8,
        ;
    } else {
        assert((b & (((1u8 << ((k + 1) as u8)) - 1u8) as u8)) & (1u8 << j) != 0u8 <==> ((b & (1u8
            << j) != 0u8) && j <= k)) by (bit_vector)
            requires
                k < 7,
                j < 8,
        ;
    }
}

proof fn lemma_low_mask_bit(k: u8, j: u8)
    requires
        k < 8,
        j < 8,
    ensures
        byte_bit(low_mask(k), j) == (j <= k),
{
    if k >= 7 {
        assert((0xFFu8 & (1u8 << j) != 0u8) == (j <= k)) by (bit_vector)
            requires
                k == 7,
                j < 8,
        ;
    } else {
        assert(((((1u8 << ((k + 1) as u8)) - 1u8) as u8) & (1u8 << j) != 0u8) == (j <= k))
            by (bit_vector)
            requires
                k < 7,
                j < 8,
        ;
    }
}

/// A byte is full exactly when its eight bits are set.
proof fn lemma_full_byte(b: u8)
    ensures
        (b == 0xFFu8) == (forall|j: u8| j < 8 ==> #[trigger] byte_bit(b, j)),
{
    if b == 0xFFu8 {
        assert forall|j: u8| j < 8 implies #[trigger] byte_bit(b, j) by {
            assert(0xFFu8 & (1u8 << j) != 0u8) by (bit_vector)
                requires
                    j < 8,
            ;
        }
    } else {
        assert(!(byte_bit(b, 0) && byte_bit(b, 1) && byte_bit(b, 2) && byte_bit(b, 3) && byte_bit(
            b,
            4,
        ) && byte_bit(b, 5) && byte_bit(b, 6) && byte_bit(b, 7))) by (bit_vector)
            requires
                b != 0xFFu8,
        ;
    }
}

/// Which chunks are marked after marking `n`.
pub proof fn lemma_set_result_bits(bytes: Seq<u8>, n: nat)
    ensures
        forall|i: int| #[trigger]
            bit_at(set_result(bytes, n), i) == (bit_at(bytes, i) || i == n),
{
    let r = set_result(bytes, n);
    assert forall|i: int| #[trigger] bit_at(r, i) == (bit_at(bytes, i) || i == n) by {
        if 0 <= i {
            let j = (i % 8) as u8;
            let k = (n % 8) as u8;
            if i / 8 == n / 8 {
                lemma_or_bit(byte_or_zero(bytes, i / 8), k, j);
                if i / 8 >= bytes.len() {
                    lemma_zero_byte(j);
                }
                assert(i == n <==> j == k);
            } else if i / 8 < r.len() && i / 8 >= bytes.len() {
                lemma_zero_byte(j);
            }
        }
    }
}

/// Which chunks are marked after keeping chunks `0..=n` only.
pub proof fn lemma_truncate_result_bits(bytes: Seq<u8>, n: nat)
    ensures
        forall|i: int| #[trigger]
            bit_at(truncate_result(bytes, n), i) == (bit_at(bytes, i) && i <= n),
{
    let r = truncate_result(bytes, n);
    assert forall|i: int| #[trigger] bit_at(r, i) == (bit_at(bytes, i) && i <= n) by {
        if 0 <= i && n / 8 < bytes.len() {
            if i / 8 == n / 8 {
                lemma_mask_bit(bytes[i / 8], (n % 8) as u8, (i % 8) as u8);
            }
        }
    }
}

/// Which chunks are marked after a sequence of marks on empty storage: exactly those marked.
pub proof fn lemma_sets_recorded(sets: Seq<nat>, n: nat)
    ensures
        bit_at(apply_sets(Seq::empty(), sets), n as int) == sets.contains(n),
    decreases sets.len(),
{
    if sets.len() == 0 {
    } else {
        let prev = sets.drop_last();
        lemma_sets_recorded(prev, n);
        lemma_set_result_bits(apply_sets(Seq::empty(), prev), sets.last());
        if sets.contains(n) && !prev.contains(n) {
            let w = choose|w: int| 0 <= w < sets.len() && sets[w] == n;
            if w < sets.len() - 1 {
                assert(prev[w] == n);
            }
        }
        if prev.contains(n) {
            let w = choose|w: int| 0 <= w < prev.len() && prev[w] == n;
            assert(sets[w] == n);
        }
        if n == sets.last() {
            assert(sets[sets.len() - 1] == n);
        }
    }
}

/// A growable set of chunk marks, one bit per chunk.
pub trait BitMap: Sized {
    /// The storage bytes.
    spec fn bytes(&self) -> Seq<u8>;

    /// Whether chunk `n` is marked; false beyond the storage.
    fn get_bit(&self, n: usize) -> (r: bool)
        ensures
            r == bit_at(self.bytes(), n as int),
    ;

    /// Marks chunk `n`, growing the storage to the byte that holds it.
    fn set_bit(&mut self, n: usize)
        ensures
            final(self).bytes() == set_result(old(self).bytes(), n as nat),
    ;

    /// Whether every chunk below `n` is marked; false for `n == 0`.
    fn is_set_up_to(&self, n: usize) -> (r: bool)
        ensures
            r == (n > 0 && all_below(self.bytes(), n as int)),
    ;

    /// The first unmarked chunk, or the storage's capacity in bits where every one is marked.
    fn first_unset(&self) -> (r: usize)
        requires
            self.bytes().len() * 8 <= usize::MAX,
        ensures
            r <= self.bytes().len() * 8,
            all_below(self.bytes(), r as int),
            r < self.bytes().len() * 8 ==> !bit_at(self.bytes(), r as int),
    ;

    /// Keeps chunks `0..=n` only, shrinking the storage to the byte that holds chunk `n`.
    fn truncate_to_bit(&mut self, n: usize)
        ensures
            final(self).bytes() == truncate_result(old(self).bytes(), n as nat),
    ;
}

impl BitMap for Vec<u8> {
    open spec fn bytes(&self) -> Seq<u8> {
        self@
    }

    fn get_bit(&self, n: usize) -> (r: bool) {
        let offset_by_byte = n / 8;
        if offset_by_byte >= self.len() {
            return false;
        }
        let offset_in_byte = (n % 8) as u8;
        self[offset_by_byte] & (1u8 << offset_in_byte) != 0
    }

    fn set_bit(&mut self, n: usize) {
        let offset_by_byte = n / 8;
        if offset_by_byte >= self.len() {
            self.resize(offset_by_byte + 1, 0);
        }
        let offset_in_byte = (n % 8) as u8;
        let byte = self[offset_by_byte] | (1u8 << offset_in_byte);
        self[offset_by_byte] = byte;
        proof {
            let expect = set_result(old(self)@, n as nat);
            assert forall|i: int| 0 <= i < self@.len() implies self@[i] == expect[i] by {
                if i >= old(self)@.len() && i != offset_by_byte {
                    assert(self@[i] == 0u8);
                }
            }
            assert(self@ =~= expect);
        }
    }

    fn is_set_up_to(&self, n: usize) -> (r: bool) {
        if n == 0 {
            return false;
        }
        let last = n - 1;
        let offset_by_byte = last / 8;
        assert(offset_by_byte * 8 <= last < offset_by_byte * 8 + 8) by (nonlinear_arith)
            requires
                offset_by_byte == last / 8,
        ;
        if offset_by_byte >= self.len() {
            assert(!bit_at(self@, last as int));
            return false;
        }
        let mut i: usize = 0;
        while i < offset_by_byte
            invariant
                i <= offset_by_byte < self@.len(),
                offset_by_byte * 8 <= last < offset_by_byte * 8 + 8,
                n == last + 1,
                all_below(self@, i * 8),
            decreases offset_by_byte - i,
        {
            let byte = self[i];
            proof {
                lemma_full_byte(byte);
            }
            if byte != 0xFF {
                proof {
                    let j = choose|j: u8| j < 8 && !byte_bit(byte, j);
                    let b = i * 8 + j;
                    assert(b / 8 == i && b % 8 == j);
                    assert(!bit_at(self@, b));
                }
                return false;
            }
            proof {
                assert forall|b: int| 0 <= b < (i + 1) * 8 implies #[trigger] bit_at(self@, b) by {
                    if b >= i * 8 {
                        assert(byte_bit(byte, (b % 8) as u8));
                    }
                }
            }
            i = i + 1;
        }
        let offset_in_byte = (last % 8) as u8;
        let mask: u8 = if offset_in_byte == 7 {
            0xFF
        } else {
            assert((1u8 << ((offset_in_byte + 1) as u8)) >= 1u8) by (bit_vector)
                requires
                    offset_in_byte < 7,
            ;
            (1u8 << (offset_in_byte + 1)) - 1
        };
        let byte = self[offset_by_byte];
        let r = byte & mask == mask;
        proof {
            assert(mask == low_mask(offset_in_byte));
            if r {
                assert forall|b: int| 0 <= b < n implies #[trigger] bit_at(self@, b) by {
                    if b >= offset_by_byte * 8 {
                        assert(b / 8 == offset_by_byte && b % 8 <= offset_in_byte);
                        lemma_mask_bit(byte, offset_in_byte, (b % 8) as u8);
                        lemma_low_mask_bit(offset_in_byte, (b % 8) as u8);
                    }
                }
            } else {
                let k = offset_in_byte;
                assert(!(byte_bit(byte, 0) && (k >= 1 ==> byte_bit(byte, 1)) && (k >= 2 ==> byte_bit(
                    byte,
                    2,
                )) && (k >= 3 ==> byte_bit(byte, 3)) && (k >= 4 ==> byte_bit(byte, 4)) && (k >= 5
                    ==> byte_bit(byte, 5)) && (k >= 6 ==> byte_bit(byte, 6)) && (k >= 7 ==> byte_bit(
                    byte,
                    7,
                )))) by (bit_vector)
                    requires
                        k < 8,
                        mask == low_mask(k),
                        byte & mask != mask,
                ;
                let j = choose|j: u8| j <= k && !byte_bit(byte, j);
                let b = offset_by_byte * 8 + j;
                assert(b / 8 == offset_by_byte && b % 8 == j);
                assert(b < n);
                assert(!bit_at(self@, b));
            }
        }
        r
    }

    fn first_unset(&self) -> (r: usize) {
        let mut i: usize = 0;
        while i < self.len()
            invariant
                i <= self@.len(),
                self@.len() * 8 <= usize::MAX,
                all_below(self@, i * 8),
            decreases self@.len() - i,
        {
            let byte = self[i];
            proof {
                lemma_full_byte(byte);
            }
            if byte != 0xFF {
                let mut k: u8 = 0;
                while k < 8 && byte & (1u8 << k) != 0
                    invariant
                        k <= 8,
                        i < self@.len(),
                        byte == self@[i as int],
                        byte != 0xFFu8,
                        forall|j: u8| j < k ==> #[trigger] byte_bit(byte, j),
                        all_below(self@, i * 8),
                    decreases 8 - k,
                {
                    k = k + 1;
                }
                proof {
                    if k == 8 {
                        assert forall|j: u8| j < 8 implies #[trigger] byte_bit(byte, j) by {}
                    }
                    assert forall|b: int| 0 <= b < i * 8 + k implies #[trigger] bit_at(self@, b) by {
                        if b >= i * 8 {
                            assert(byte_bit(byte, (b % 8) as u8));
                        }
                    }
                }
                return i * 8 + k as usize;
            }
            proof {
                assert forall|b: int| 0 <= b < (i + 1) * 8 implies #[trigger] bit_at(self@, b) by {
                    if b >= i * 8 {
                        assert(byte_bit(byte, (b % 8) as u8));
                    }
                }
            }
            i = i + 1;
        }
        self.len() * 8
    }

    fn truncate_to_bit(&mut self, n: usize) {
        let offset_by_byte = n / 8;
        if offset_by_byte < self.len() {
            self.truncate(offset_by_byte + 1);
            let offset_in_byte = (n % 8) as u8;
            let mask: u8 = if offset_in_byte == 7 {
                0xFF
            } else {
                assert((1u8 << ((offset_in_byte + 1) as u8)) >= 1u8) by (bit_vector)
                    requires
                        offset_in_byte < 7,
                ;
                (1u8 << (offset_in_byte + 1)) - 1
            };
            let byte = self[offset_by_byte] & mask;
            self[offset_by_byte] = byte;
            proof {
                assert(mask == low_mask(offset_in_byte));
                assert(self@ =~= truncate_result(old(self)@, n as nat));
            }
        }
    }
}

} // verus!
