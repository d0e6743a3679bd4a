use vstd::prelude::*;
use bitvec::order::Msb0;
use bitvec::vec::BitVec;
use crate::encoder::{byte_value, pack, zeros};

verus! {

/// A bit vector of bitvec's, bytes most significant bit first; Verus
/// refuses its declaration (its parameters are bound by bitvec's traits),
/// so it is held here.
#[verifier::external_body]
pub struct BitBuffer {
    bits: BitVec<u8, Msb0>,
}

/// The bits a bit vector holds, in order.
pub uninterp spec fn bit_contents(v: BitBuffer) -> Seq<bool>;

/// Relies on bitvec's `BitVec::new`: an empty bit vector.
#[verifier::external_body]
fn empty_bits() -> (r: BitBuffer)
    ensures
        bit_contents(r) == Seq::<bool>::empty(),
{
    BitBuffer { bits: BitVec::new() }
}

/// Relies on bitvec's `BitVec::push`: the bit is appended. It panics only
/// past `usize::MAX >> 3` bits.
#[verifier::external_body]
fn push_bit(v: &mut BitBuffer, bit: bool)
    requires
        bit_contents(*old(v)).len() < 0x1000_0000,
    ensures
        bit_contents(*final(v)) == bit_contents(*old(v)).push(bit),
{
    v.bits.push(bit)
}

/// Relies on bitvec's `BitVec::into_vec`: the backing bytes. A bit vector
/// built from empty by pushes, with a whole number of bytes, holds bit `i`
/// in byte `i / 8`, most significant bit first (`Msb0`).
#[verifier::external_body]
fn into_bytes(v: BitBuffer) -> (r: Vec<u8>)
    requires
        bit_contents(v).len() % 8 == 0,
    ensures
        r@ == pack(bit_contents(v)),
{
    v.bits.into_vec()
}

proof fn lemma_byte_value_zero_tail(a: Seq<bool>, n: nat, p: int, t: int)
    requires
        t <= 8,
        p >= 0,
    ensures
        byte_value(a + zeros(n), p, t) == byte_value(a, p, t),
    decreases t,
{
    if t > 0 {
        lemma_byte_value_zero_tail(a, n, p, t - 1);
        let b = a + zeros(n);
        let q = p + t - 1;
        if 0 <= q < a.len() {
            assert(b[q] == a[q]);
        } else if a.len() <= q < b.len() {
            assert(b[q] == false);
        }
    }
}

/// Packs bits into bytes, most significant bit first, the last byte filled
/// with zeros, through a bit vector.
pub fn pack_bits(bits: &Vec<bool>) -> (r: Vec<u8>)
    requires
        bits@.len() < 0x0FFF_FFF0,
    ensures
        r@ == pack(bits@),
{
    let mut v = empty_bits();
    let mut i: usize = 0;
    while i < bits.len()
        invariant
            i <= bits@.len(),
            bits@.len() < 0x0FFF_FFF0,
            bit_contents(v) == bits@.take(i as int),
        decreases bits@.len() - i,
    {
        push_bit(&mut v, bits[i]);
        proof {
            assert(bits@.take(i + 1) =~= bits@.take(i as int).push(bits@[i as int]));
        }
        i += 1;
    }
    let fill = (8 - bits.len() % 8) % 8;
    let mut k: usize = 0;
    proof {
        assert(bits@.take(bits@.len() as int) =~= bits@);
    }
    while k < fill
        invariant
            k <= fill,
            fill < 8,
            bits@.len() < 0x0FFF_FFF0,
            bit_contents(v) == bits@ + zeros(k as nat),
        decreases fill - k,
    {
        push_bit(&mut v, false);
        proof {
            assert(bits@ + zeros((k + 1) as nat) =~= (bits@ + zeros(k as nat)).push(false));
        }
        k += 1;
    }
    proof {
        let b = bits@ + zeros(fill as nat);
        assert(b.len() % 8 == 0);
        assert((b.len() + 7) / 8 == (bits@.len() + 7) / 8);
        assert forall|j: int| 0 <= j < (bits@.len() + 7) / 8 implies #[trigger] byte_value(b, 8 * j, 8) == byte_value(bits@, 8 * j, 8) by {
            lemma_byte_value_zero_tail(bits@, fill as nat, 8 * j, 8);
        }
        assert(pack(b) =~= pack(bits@));
    }
    into_bytes(v)
}

} // verus!
