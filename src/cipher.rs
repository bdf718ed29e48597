//! The stream cipher that hides a level's leaderboard block.
use vstd::prelude::*;

verus! {

/// Bytes in the leaderboard block: a single-player and a multi-player list.
pub const TOP10_SIZE: usize = 688;

/// One step of the keystream, in 16-bit wraparound arithmetic.
pub open spec fn key_step(k1: u16, k2: u16) -> (u16, u16) {
    let n2 = ((k2 + ((k1 % 0xD3D) * 0xD3D) % 0x10000) % 0x10000) as u16;
    let n1 = (((n2 * 0x1F) % 0x10000 + 0xD3D) % 0x10000) as u16;
    (n1, n2)
}

fn next_key(k1: u16, k2: u16) -> (r: (u16, u16))
    ensures
        r == key_step(k1, k2),
{
    let n2 = k2.wrapping_add((k1 % 0xD3D).wrapping_mul(0xD3D));
    let n1 = n2.wrapping_mul(0x1F).wrapping_add(0xD3D);
    (n1, n2)
}

/// The keystream state `(k1, k2)` before the byte at position `i`.
pub open spec fn key_state(i: nat) -> (u16, u16)
    decreases i,
{
    if i == 0 {
        (0x15u16, 0x2637u16)
    } else {
        let (k1, k2) = key_state((i - 1) as nat);
        key_step(k1, k2)
    }
}

/// The key byte that the byte at position `i` is combined with.
pub open spec fn key_byte(i: nat) -> u8 {
    (key_state(i).0 & 0xFF) as u8
}

/// The block `b` with each byte combined with its key byte.
pub open spec fn crypt(b: Seq<u8>) -> Seq<u8> {
    Seq::new(b.len(), |i: int| b[i] ^ key_byte(i as nat))
}

/// Encrypts or decrypts a leaderboard block; the two are the same operation.
pub fn crypt_top10(top10: Vec<u8>) -> (r: Vec<u8>)
    requires
        top10@.len() == TOP10_SIZE,
    ensures
        r@ == crypt(top10@),
{
    let mut top10 = top10;
    let ghost input = top10@;
    let mut k1: u16 = 0x15;
    let mut k2: u16 = 0x2637;
    let mut i: usize = 0;
    while i < TOP10_SIZE
        invariant
            top10@.len() == TOP10_SIZE,
            input.len() == TOP10_SIZE,
            i <= TOP10_SIZE,
            (k1, k2) == key_state(i as nat),
            forall|j: int| 0 <= j < i ==> top10@[j] == input[j] ^ key_byte(j as nat),
            forall|j: int| i <= j < TOP10_SIZE ==> top10@[j] == input[j],
        decreases TOP10_SIZE - i,
    {
        let t = top10[i] ^ ((k1 & 0xFF) as u8);
        top10.set(i, t);
        let (n1, n2) = next_key(k1, k2);
        k1 = n1;
        k2 = n2;
        i = i + 1;
    }
    assert(top10@ =~= crypt(input));
    top10
}

/// Applying the cipher twice gives back the block.
pub proof fn lemma_crypt_involution(b: Seq<u8>)
    ensures
        crypt(crypt(b)) == b,
{
    assert forall|i: int| 0 <= i < b.len() implies crypt(crypt(b))[i] == b[i] by {
        let x = b[i];
        let k = key_byte(i as nat);
        assert((x ^ k) ^ k == x) by (bit_vector);
    }
    assert(crypt(crypt(b)) =~= b);
}

} // verus!
