//! A fixed-length sequence of booleans packed eight to a byte.

use crate::codec::{base64_bytes, base64_text, encode_base64};
use vstd::prelude::*;

verus! {

/// Bit `k` of `byte`, counted from the least significant bit.
pub open spec fn bit_of(byte: u8, k: u8) -> bool {
    (byte >> k) & 1u8 == 1u8
}

/// The byte whose bits, from the least significant one up, are `b0` to `b7`.
pub open spec fn byte_of_bits(
    b0: bool,
    b1: bool,
    b2: bool,
    b3: bool,
    b4: bool,
    b5: bool,
    b6: bool,
    b7: bool,
) -> u8 {
    (if b0 { 1u8 } else { 0u8 }) | (if b1 { 2u8 } else { 0u8 }) | (if b2 { 4u8 } else { 0u8 })
        | (if b3 { 8u8 } else { 0u8 }) | (if b4 { 16u8 } else { 0u8 })
        | (if b5 { 32u8 } else { 0u8 }) | (if b6 { 64u8 } else { 0u8 })
        | (if b7 { 128u8 } else { 0u8 })
}

/// Bit `i` of `bits`, and `false` past its end.
pub open spec fn bit_or_pad(bits: Seq<bool>, i: int) -> bool {
    0 <= i < bits.len() && bits[i]
}

/// The packed form of `bits`: bit `i` lives in byte `i / 8` at position
/// `i % 8`, and the unused positions of the last byte are zero.
pub open spec fn packed(bits: Seq<bool>) -> Seq<u8> {
    Seq::new(
        ((bits.len() + 7) / 8) as nat,
        |j: int|
            byte_of_bits(
                bit_or_pad(bits, 8 * j),
                bit_or_pad(bits, 8 * j + 1),
                bit_or_pad(bits, 8 * j + 2),
                bit_or_pad(bits, 8 * j + 3),
                bit_or_pad(bits, 8 * j + 4),
                bit_or_pad(bits, 8 * j + 5),
                bit_or_pad(bits, 8 * j + 6),
                bit_or_pad(bits, 8 * j + 7),
            ),
    )
}

/// The bits held by `bytes`, eight for each byte.
pub open spec fn unpacked(bytes: Seq<u8>) -> Seq<bool> {
    Seq::new((8 * bytes.len()) as nat, |i: int| bit_of(bytes[i / 8], (i % 8) as u8))
}

proof fn lemma_bit_of_byte_of_bits(
    b0: bool,
    b1: bool,
    b2: bool,
    b3: bool,
    b4: bool,
    b5: bool,
    b6: bool,
    b7: bool,
)
    ensures
        bit_of(byte_of_bits(b0, b1, b2, b3, b4, b5, b6, b7), 0) == b0,
        bit_of(byte_of_bits(b0, b1, b2, b3, b4, b5, b6, b7), 1) == b1,
        bit_of(byte_of_bits(b0, b1, b2, b3, b4, b5, b6, b7), 2) == b2,
        bit_of(byte_of_bits(b0, b1, b2, b3, b4, b5, b6, b7), 3) == b3,
        bit_of(byte_of_bits(b0, b1, b2, b3, b4, b5, b6, b7), 4) == b4,
        bit_of(byte_of_bits(b0, b1, b2, b3, b4, b5, b6, b7), 5) == b5,
        bit_of(byte_of_bits(b0, b1, b2, b3, b4, b5, b6, b7), 6) == b6,
        bit_of(byte_of_bits(b0, b1, b2, b3, b4, b5, b6, b7), 7) == b7,
{
    let x = byte_of_bits(b0, b1, b2, b3, b4, b5, b6, b7);
    let v0 = if b0 { 1u8 } else { 0u8 };
    let v1 = if b1 { 2u8 } else { 0u8 };
    let v2 = if b2 { 4u8 } else { 0u8 };
    let v3 = if b3 { 8u8 } else { 0u8 };
    let v4 = if b4 { 16u8 } else { 0u8 };
    let v5 = if b5 { 32u8 } else { 0u8 };
    let v6 = if b6 { 64u8 } else { 0u8 };
    let v7 = if b7 { 128u8 } else { 0u8 };
    assert(x == v0 | v1 | v2 | v3 | v4 | v5 | v6 | v7);
    assert(((x >> 0u8) & 1u8 == 1u8) == (v0 == 1u8) && ((x >> 1u8) & 1u8 == 1u8) == (v1 == 2u8) && ((x
        >> 2u8) & 1u8 == 1u8) == (v2 == 4u8) && ((x >> 3u8) & 1u8 == 1u8) == (v3 == 8u8) && ((x >> 4u8)
        & 1u8 == 1u8) == (v4 == 16u8) && ((x >> 5u8) & 1u8 == 1u8) == (v5 == 32u8) && ((x >> 6u8) & 1u8
        == 1u8) == (v6 == 64u8) && ((x >> 7u8) & 1u8 == 1u8) == (v7 == 128u8)) by (bit_vector)
        requires
            x == v0 | v1 | v2 | v3 | v4 | v5 | v6 | v7,
            v0 == 0u8 || v0 == 1u8,
            v1 == 0u8 || v1 == 2u8,
            v2 == 0u8 || v2 == 4u8,
            v3 == 0u8 || v3 == 8u8,
            v4 == 0u8 || v4 == 16u8,
            v5 == 0u8 || v5 == 32u8,
            v6 == 0u8 || v6 == 64u8,
            v7 == 0u8 || v7 == 128u8,
    ;
}

proof fn lemma_byte_of_its_bits(x: u8)
    ensures
        byte_of_bits(
            bit_of(x, 0),
            bit_of(x, 1),
            bit_of(x, 2),
            bit_of(x, 3),
            bit_of(x, 4),
            bit_of(x, 5),
            bit_of(x, 6),
            bit_of(x, 7),
        ) == x,
{
    assert(byte_of_bits(
        bit_of(x, 0),
        bit_of(x, 1),
        bit_of(x, 2),
        bit_of(x, 3),
        bit_of(x, 4),
        bit_of(x, 5),
        bit_of(x, 6),
        bit_of(x, 7),
    ) == x) by (bit_vector);
}

proof fn lemma_bit_ops(b: u8, k: u8, j: u8)
    requires
        k < 8,
        j < 8,
    ensures
        ((b & (1u8 << k)) != 0) == bit_of(b, k),
        bit_of(b | (1u8 << k), j) == (j == k || bit_of(b, j)),
        bit_of(b & !(1u8 << k), j) == (j != k && bit_of(b, j)),
        !bit_of(0u8, j),
{
    assert(((b & (1u8 << k)) != 0) == ((b >> k) & 1u8 == 1u8)) by (bit_vector)
        requires
            k < 8,
    ;
    assert((((b | (1u8 << k)) >> j) & 1u8 == 1u8) == (j == k || ((b >> j) & 1u8 == 1u8)))
        by (bit_vector)
        requires
            k < 8,
            j < 8,
    ;
    assert((((b & !(1u8 << k)) >> j) & 1u8 == 1u8) == (j != k && ((b >> j) & 1u8 == 1u8)))
        by (bit_vector)
        requires
            k < 8,
            j < 8,
    ;
    assert(!((0u8 >> j) & 1u8 == 1u8)) by (bit_vector);
}

/// How many of the first `n` positions hold different bits in `a` and `b`.
pub open spec fn differing_upto(a: Seq<bool>, b: Seq<bool>, n: nat) -> nat
    decreases n,
{
    if n == 0 {
        0
    } else {
        differing_upto(a, b, (n - 1) as nat) + if a[n - 1] != b[n - 1] {
            1nat
        } else {
            0nat
        }
    }
}

/// The Hamming distance of two bit sequences of one length: the number of
/// positions whose bits differ.
pub open spec fn hamming_distance(a: Seq<bool>, b: Seq<bool>) -> nat {
    differing_upto(a, b, a.len())
}

/// The count of differing positions is at most the number of positions, and
/// it is zero exactly when the bits agree everywhere.
pub proof fn lemma_differing_bounds(a: Seq<bool>, b: Seq<bool>, n: nat)
    ensures
        differing_upto(a, b, n) <= n,
        differing_upto(a, b, n) == 0 <==> forall|i: int| 0 <= i < n ==> a[i] == b[i],
    decreases n,
{
    if n > 0 {
        lemma_differing_bounds(a, b, (n - 1) as nat);
    }
}

/// All bit sequences of length `n`.
pub open spec fn bit_sequences(n: nat) -> Set<Seq<bool>> {
    Set::new(|s: Seq<bool>| s.len() == n)
}

/// There are finitely many bit sequences of one length.
pub proof fn lemma_bit_sequences_finite(n: nat)
    ensures
        bit_sequences(n).finite(),
    decreases n,
{
    if n == 0 {
        let only = Set::<Seq<bool>>::empty().insert(Seq::<bool>::empty());
        assert forall|s: Seq<bool>| bit_sequences(0).contains(s) implies only.contains(s) by {
            assert(s =~= Seq::<bool>::empty());
        }
        assert(bit_sequences(0) =~= only);
    } else {
        let shorter = bit_sequences((n - 1) as nat);
        lemma_bit_sequences_finite((n - 1) as nat);
        let with_off = |s: Seq<bool>| s.push(false);
        let with_on = |s: Seq<bool>| s.push(true);
        shorter.lemma_map_finite(with_off);
        shorter.lemma_map_finite(with_on);
        let both = shorter.map(with_off).union(shorter.map(with_on));
        assert forall|s: Seq<bool>| bit_sequences(n).contains(s) implies both.contains(s) by {
            let front = s.drop_last();
            assert(shorter.contains(front));
            if s.last() {
                assert(s =~= with_on(front));
                assert(shorter.map(with_on).contains(s));
            } else {
                assert(s =~= with_off(front));
                assert(shorter.map(with_off).contains(s));
            }
        }
        assert forall|s: Seq<bool>| both.contains(s) implies bit_sequences(n).contains(s) by {
            if shorter.map(with_off).contains(s) {
                let front = choose|front: Seq<bool>| shorter.contains(front) && s == with_off(front);
                assert(s.len() == n);
            } else {
                let front = choose|front: Seq<bool>| shorter.contains(front) && s == with_on(front);
                assert(s.len() == n);
            }
        }
        assert(bit_sequences(n) =~= both);
    }
}

/// The key that names `bits`: the base64 text of their packed form.
pub open spec fn canonical_key(bits: Seq<bool>) -> Seq<char> {
    base64_text(packed(bits))
}

/// `key` is the canonical key of `bits`, and decodes to their packed form.
pub open spec fn is_key_of(key: Seq<char>, bits: Seq<bool>) -> bool {
    key == canonical_key(bits) && base64_bytes(key) == Some(packed(bits))
}

/// Two bit sequences of one length have the same key exactly when they are
/// equal: equal bits give the same key, and any bit that differs gives another.
pub proof fn lemma_keys_tell_bits_apart(a: Seq<bool>, b: Seq<bool>, key_a: Seq<char>, key_b: Seq<char>)
    requires
        a.len() == b.len(),
        is_key_of(key_a, a),
        is_key_of(key_b, b),
    ensures
        key_a == key_b <==> a == b,
{
    if key_a == key_b {
        lemma_packed_injective(a, b);
    }
}

/// Bit `i` of `bits` is bit `i % 8` of byte `i / 8` of the packed form.
pub proof fn lemma_packed_bit(bits: Seq<bool>, i: int)
    requires
        0 <= i < bits.len(),
    ensures
        i / 8 < packed(bits).len(),
        bit_of(packed(bits)[i / 8], (i % 8) as u8) == bits[i],
{
    let j = i / 8;
    lemma_bit_of_byte_of_bits(
        bit_or_pad(bits, 8 * j),
        bit_or_pad(bits, 8 * j + 1),
        bit_or_pad(bits, 8 * j + 2),
        bit_or_pad(bits, 8 * j + 3),
        bit_or_pad(bits, 8 * j + 4),
        bit_or_pad(bits, 8 * j + 5),
        bit_or_pad(bits, 8 * j + 6),
        bit_or_pad(bits, 8 * j + 7),
    );
}

/// Two bit sequences of one length with the same packed form are equal.
pub proof fn lemma_packed_injective(a: Seq<bool>, b: Seq<bool>)
    requires
        a.len() == b.len(),
        packed(a) == packed(b),
    ensures
        a == b,
{
    assert forall|i: int| 0 <= i < a.len() implies a[i] == b[i] by {
        lemma_packed_bit(a, i);
        lemma_packed_bit(b, i);
    }
    assert(a =~= b);
}

/// A sequence of booleans of fixed length, stored in `ceil(len / 8)` bytes.
#[derive(Debug, PartialEq, Eq, Hash)]
pub struct BitArray {
    bytes: Vec<u8>,
    len: usize,
}

impl View for BitArray {
    type V = Seq<bool>;

    /// The bits, in index order.
    closed spec fn view(&self) -> Seq<bool> {
        Seq::new(self.len as nat, |i: int| bit_of(self.bytes@[i / 8], (i % 8) as u8))
    }
}

impl BitArray {
    /// The buffer has exactly the bytes that the length needs, and the unused
    /// positions of the last byte are zero.
    pub closed spec fn wf(&self) -> bool {
        &&& self.bytes@.len() == (self.len + 7) / 8
        &&& forall|j: int, k: u8|
            0 <= j < self.bytes@.len() && k < 8 && 8 * j + k >= self.len ==> !#[trigger] bit_of(
                self.bytes@[j],
                k,
            )
    }

    /// The byte buffer.
    pub closed spec fn spec_bytes(&self) -> Seq<u8> {
        self.bytes@
    }

    /// A well-formed array stores the packed form of its bits.
    pub proof fn lemma_bytes_are_packed(&self)
        requires
            self.wf(),
        ensures
            self.spec_bytes() == packed(self@),
    {
        let bits = self@;
        let p = packed(bits);
        assert(bits.len() == self.len);
        assert(p.len() == self.bytes@.len());
        assert forall|j: int| 0 <= j < p.len() implies p[j] == self.bytes@[j] by {
            let x = self.bytes@[j];
            lemma_byte_of_its_bits(x);
            assert forall|k: u8| k < 8 implies bit_or_pad(bits, 8 * j + k) == bit_of(x, k) by {
                let i = 8 * j + k;
                if i < self.len {
                    assert(i / 8 == j && i % 8 == k);
                } else {
                    assert(!bit_of(self.bytes@[j], k));
                }
            }
            assert(bit_or_pad(bits, 8 * j + 0u8) == bit_of(x, 0));
            assert(bit_or_pad(bits, 8 * j + 1u8) == bit_of(x, 1));
            assert(bit_or_pad(bits, 8 * j + 2u8) == bit_of(x, 2));
            assert(bit_or_pad(bits, 8 * j + 3u8) == bit_of(x, 3));
            assert(bit_or_pad(bits, 8 * j + 4u8) == bit_of(x, 4));
            assert(bit_or_pad(bits, 8 * j + 5u8) == bit_of(x, 5));
            assert(bit_or_pad(bits, 8 * j + 6u8) == bit_of(x, 6));
            assert(bit_or_pad(bits, 8 * j + 7u8) == bit_of(x, 7));
        }
        assert(p =~= self.bytes@);
    }

    /// An array of `x` bits, all of them off.
    pub fn new(x: usize) -> (result: BitArray)
        ensures
            result.wf(),
            result@ == Seq::new(x as nat, |i: int| false),
    {
        let size: usize = x / 8 + if x % 8 != 0 { 1 } else { 0 };
        let mut bytes: Vec<u8> = Vec::with_capacity(size);
        let mut n: usize = 0;
        while n < size
            invariant
                n <= size,
                bytes@.len() == n,
                forall|j: int| 0 <= j < n ==> bytes@[j] == 0u8,
            decreases size - n,
        {
            bytes.push(0);
            n += 1;
        }
        let result = BitArray { bytes, len: x };
        proof {
            assert forall|j: int, k: u8| 0 <= j < result.bytes@.len() && k < 8 implies !#[trigger] bit_of(
                result.bytes@[j],
                k,
            ) by {
                lemma_bit_ops(0, 0, k);
            }
            assert(result@ =~= Seq::new(x as nat, |i: int| false));
        }
        result
    }

    /// The number of bits.
    pub fn len(&self) -> (n: usize)
        ensures
            n == self@.len(),
    {
        self.len
    }

    /// The array that holds the bits of `r`, eight for each byte.
    pub fn from(r: &[u8]) -> (result: BitArray)
        requires
            r@.len() * 8 <= usize::MAX,
        ensures
            result.wf(),
            result@ == unpacked(r@),
            result.spec_bytes() == r@,
    {
        let result = BitArray { bytes: vstd::slice::slice_to_vec(r), len: r.len() * 8 };
        proof {
            assert(result@ =~= unpacked(r@));
        }
        result
    }

    /// Grows the array to `new_length` bits by appending bits that are off. A
    /// length that is no larger than the present one leaves the array as it is.
    pub fn resize(&mut self, new_length: usize)
        requires
            old(self).wf(),
        ensures
            final(self).wf(),
            new_length > old(self)@.len() ==> final(self)@ == old(self)@ + Seq::new(
                (new_length - old(self)@.len()) as nat,
                |i: int| false,
            ),
            new_length <= old(self)@.len() ==> final(self)@ == old(self)@,
    {
        if new_length > self.len {
            let size: usize = new_length / 8 + if new_length % 8 != 0 { 1 } else { 0 };
            while self.bytes.len() < size
                invariant
                    old(self).bytes@.len() <= self.bytes@.len() <= size,
                    self.len == old(self).len,
                    forall|j: int|
                        0 <= j < old(self).bytes@.len() ==> self.bytes@[j] == old(self).bytes@[j],
                    forall|j: int|
                        old(self).bytes@.len() <= j < self.bytes@.len() ==> self.bytes@[j] == 0u8,
                decreases size - self.bytes@.len(),
            {
                self.bytes.push(0);
            }
            self.len = new_length;
            proof {
                let old_len = old(self).len as int;
                assert forall|j: int, k: u8| 0 <= j < self.bytes@.len() && k < 8 && 8 * j + k
                    >= old_len implies !#[trigger] bit_of(self.bytes@[j], k) by {
                    if j < old(self).bytes@.len() {
                        assert(!bit_of(old(self).bytes@[j], k));
                    } else {
                        lemma_bit_ops(0, 0, k);
                    }
                }
                let grown = old(self)@ + Seq::new((new_length - old_len) as nat, |i: int| false);
                assert forall|i: int| 0 <= i < new_length implies self@[i] == grown[i] by {
                    let j = i / 8;
                    let k = (i % 8) as u8;
                    assert(self@[i] == bit_of(self.bytes@[j], k));
                    if i < old_len {
                        assert(old(self)@[i] == bit_of(old(self).bytes@[j], k));
                    } else {
                        assert(!bit_of(self.bytes@[j], k));
                    }
                }
                assert(self@ =~= grown);
            }
        }
    }

    /// The canonical key of the array: a text that is the same for two arrays
    /// exactly when their bytes are the same.
    pub fn to_base64(&self) -> (key: String)
        requires
            self.wf(),
        ensures
            is_key_of(key@, self@),
    {
        proof {
            self.lemma_bytes_are_packed();
        }
        encode_base64(&self.bytes)
    }

    /// Bit `pos`.
    pub fn get(&self, pos: usize) -> (bit: bool)
        requires
            self.wf(),
            pos < self@.len(),
        ensures
            bit == self@[pos as int],
    {
        let byte_index = pos / 8;
        let bit_pos: u8 = (pos % 8) as u8;
        proof {
            lemma_bit_ops(self.bytes@[byte_index as int], bit_pos, 0);
        }
        (self.bytes[byte_index] & (1u8 << bit_pos)) != 0
    }

    /// Writes `is_on` to bit `pos` and leaves every other bit as it was.
    pub fn set(&mut self, pos: usize, is_on: bool)
        requires
            old(self).wf(),
            pos < old(self)@.len(),
        ensures
            final(self).wf(),
            final(self)@ == old(self)@.update(pos as int, is_on),
    {
        let byte_index = pos / 8;
        let bit_pos: u8 = (pos % 8) as u8;
        let byte = self.bytes[byte_index];
        let new_byte: u8 = if is_on {
            byte | (1u8 << bit_pos)
        } else {
            byte & !(1u8 << bit_pos)
        };
        self.bytes.set(byte_index, new_byte);
        proof {
            assert forall|k: u8| k < 8 implies #[trigger] bit_of(new_byte, k) == (if k == bit_pos {
                is_on
            } else {
                bit_of(byte, k)
            }) by {
                lemma_bit_ops(byte, bit_pos, k);
            }
            assert forall|j: int, k: u8|
                0 <= j < self.bytes@.len() && k < 8 && 8 * j + k >= self.len implies !#[trigger] bit_of(
                self.bytes@[j],
                k,
            ) by {
                assert(!bit_of(old(self).bytes@[j], k));
            }
            assert(self@ =~= old(self)@.update(pos as int, is_on)) by {
                assert forall|i: int| 0 <= i < self.len implies self@[i] == old(self)@.update(
                    pos as int,
                    is_on,
                )[i] by {
                    assert(self@[i] == bit_of(self.bytes@[i / 8], (i % 8) as u8));
                    assert(old(self)@[i] == bit_of(old(self).bytes@[i / 8], (i % 8) as u8));
                }
            }
        }
    }
}

impl Clone for BitArray {
    /// A copy with the same bits.
    fn clone(&self) -> (result: Self)
        ensures
            result@ == self@,
            result.spec_bytes() == self.spec_bytes(),
            self.wf() ==> result.wf(),
    {
        let result = BitArray { bytes: self.bytes.clone(), len: self.len };
        proof {
            assert(result.bytes@ =~= self.bytes@);
        }
        result
    }
}

} // verus!
