//! Little-endian packing of pin levels into a 32-bit word.
//!
//! Bulk pin reads and writes treat an ordered pin window as a word: bit `k`
//! of the word is the level of the window's `k`-th pin.

use vstd::prelude::*;

verus! {

/// Two to the power `k`.
pub open spec fn pow2(k: nat) -> nat
    decreases k,
{
    if k == 0 {
        1
    } else {
        2 * pow2((k - 1) as nat)
    }
}

/// Bit `k` of the word `w`.
pub open spec fn bit_of(w: u32, k: u32) -> bool {
    (w >> k) & 1u32 == 1u32
}

/// The word encoded by a sequence of bits, little-endian: bit `k` of the
/// result is `bits[k]`.
pub open spec fn word_of(bits: Seq<bool>) -> nat
    decreases bits.len(),
{
    if bits.len() == 0 {
        0
    } else {
        (if bits[0] {
            1nat
        } else {
            0nat
        }) + 2 * word_of(bits.drop_first())
    }
}

/// A left shift of one by `k < 32` is the `k`-th power of two.
pub proof fn lemma_shl_pow2(k: u32)
    requires
        k < 32,
    ensures
        (1u32 << k) == pow2(k as nat),
        pow2(k as nat) >= 1,
    decreases k,
{
    if k == 0 {
        assert(1u32 << 0u32 == 1u32) by (bit_vector);
    } else {
        lemma_shl_pow2((k - 1) as u32);
        assert(1u32 << k == 2 * (1u32 << ((k - 1) as u32))) by (bit_vector)
            requires
                0 < k < 32,
        ;
    }
}

/// A word of `n` bits is below the `n`-th power of two.
pub proof fn lemma_word_of_bound(bits: Seq<bool>)
    ensures
        word_of(bits) < pow2(bits.len()),
    decreases bits.len(),
{
    if bits.len() > 0 {
        lemma_word_of_bound(bits.drop_first());
    }
}

/// Appending a bit at the high end adds its weight to the encoded word.
pub proof fn lemma_word_of_push(bits: Seq<bool>, b: bool)
    ensures
        word_of(bits.push(b)) == word_of(bits) + (if b {
            pow2(bits.len())
        } else {
            0nat
        }),
    decreases bits.len(),
{
    if bits.len() == 0 {
        assert(bits.push(b).drop_first() =~= Seq::<bool>::empty());
        assert(bits.push(b)[0] == b);
        assert(word_of(Seq::<bool>::empty()) == 0);
    } else {
        assert(bits.push(b).drop_first() =~= bits.drop_first().push(b));
        assert(bits.push(b)[0] == bits[0]);
        lemma_word_of_push(bits.drop_first(), b);
        assert(word_of(bits.push(b)) == (if bits[0] {
            1nat
        } else {
            0nat
        }) + 2 * word_of(bits.drop_first().push(b)));
        assert(bits.drop_first().len() == bits.len() - 1);
        assert(pow2(bits.len()) == 2 * pow2((bits.len() - 1) as nat));
        assert(word_of(bits.drop_first().push(b)) == word_of(bits.drop_first()) + (if b {
            pow2((bits.len() - 1) as nat)
        } else {
            0nat
        }));
    }
}

/// Round trip from a word to its bits and back: decoding the first `n` bits
/// of a word below the `n`-th power of two yields the word again.
pub proof fn lemma_word_of_bits_of(w: u32, n: nat)
    requires
        n <= 32,
        w < pow2(n),
    ensures
        word_of(Seq::new(n, |k: int| bit_of(w, k as u32))) == w,
    decreases n,
{
    let bits = Seq::new(n, |k: int| bit_of(w, k as u32));
    if n == 0 {
        assert(word_of(bits) == 0);
    } else {
        let half = w >> 1u32;
        assert forall|k: int| 0 <= k < n - 1 implies bit_of(w, (k + 1) as u32) == #[trigger] bit_of(
            half,
            k as u32,
        ) by {
            let kk = k as u32;
            assert((w >> ((kk + 1) as u32)) & 1u32 == ((w >> 1u32) >> kk) & 1u32) by (bit_vector)
                requires
                    kk < 31u32,
            ;
        }
        assert(bits.drop_first() =~= Seq::new((n - 1) as nat, |k: int| bit_of(half, k as u32)));
        assert((w >> 1u32) == w / 2) by (bit_vector);
        assert(w < 2 * pow2((n - 1) as nat));
        assert(half < pow2((n - 1) as nat));
        lemma_word_of_bits_of(half, (n - 1) as nat);
        assert(w == (if (w >> 0u32) & 1u32 == 1u32 {
            1u32
        } else {
            0u32
        }) + 2 * (w >> 1u32)) by (bit_vector);
        assert(word_of(bits) == (if bit_of(w, 0u32) {
            1nat
        } else {
            0nat
        }) + 2 * word_of(bits.drop_first()));
    }
}

} // verus!
