//! The keystream cipher that protects the best-times tables of a level.
use vstd::prelude::*;

verus! {

/// Number of bytes of the two best-times tables together.
pub const TOP10_SIZE: usize = 688;

/// Number of bytes of one best-times table.
pub const PLAYER_TOP10_SIZE: usize = 344;

/// The two 16-bit registers of the keystream generator after `i` steps.
pub open spec fn key_state(i: nat) -> (i16, i16)
    decreases i,
{
    if i == 0 {
        (0x15i16, 0x2637i16)
    } else {
        let (ebp8, ebp10) = key_state((i - 1) as nat);
        let rem: i16 = match ebp8.checked_rem(0xD3Di16) {
            Some(r) => r,
            None => 0i16,
        };
        let next10 = ebp10.wrapping_add(rem.wrapping_mul(0xD3Di16));
        (next10.wrapping_mul(0x1Fi16).wrapping_add(0xD3Di16), next10)
    }
}

/// The keystream byte that byte `i` of the tables is combined with.
pub open spec fn key_byte(i: nat) -> u8 {
    (key_state(i).0 & 0xFFi16) as u8
}

/// The tables after encryption or decryption: the first `TOP10_SIZE`
/// bytes are combined with the keystream, any later byte is kept.
pub open spec fn crypt_spec(data: Seq<u8>) -> Seq<u8> {
    Seq::new(
        data.len(),
        |j: int|
            if j < TOP10_SIZE {
                data[j] ^ key_byte(j as nat)
            } else {
                data[j]
            },
    )
}

/// Decrypt and encrypt top10 list data. Same algorithm for both.
pub fn crypt_top10(top10_data: &[u8]) -> (top10: Vec<u8>)
    ensures
        top10@ == crypt_spec(top10_data@),
{
    let mut top10: Vec<u8> = Vec::with_capacity(TOP10_SIZE);
    top10.extend_from_slice(top10_data);
    let mut ebp8: i16 = 0x15;
    let mut ebp10: i16 = 0x2637;
    let n: usize = if top10.len() < TOP10_SIZE {
        top10.len()
    } else {
        TOP10_SIZE
    };
    let mut i: usize = 0;
    while i < n
        invariant
            n <= top10.len(),
            n <= TOP10_SIZE,
            top10.len() == top10_data@.len(),
            i <= n,
            (ebp8, ebp10) == key_state(i as nat),
            forall|j: int|
                0 <= j < top10.len() ==> top10@[j] == if j < i {
                    top10_data@[j] ^ key_byte(j as nat)
                } else {
                    top10_data@[j]
                },
        decreases n - i,
    {
        let t = top10[i] ^ ((ebp8 & 0xFF) as u8);
        top10.set(i, t);
        let rem: i16 = match ebp8.checked_rem(0xD3D) {
            Some(r) => r,
            None => 0,
        };
        ebp10 = ebp10.wrapping_add(rem.wrapping_mul(0xD3D));
        ebp8 = ebp10.wrapping_mul(0x1F).wrapping_add(0xD3D);
        i += 1;
    }
    assert(top10@ =~= crypt_spec(top10_data@));
    top10
}

/// Encrypting twice gives the data back: the same function decrypts
/// what it encrypted.
pub proof fn lemma_crypt_involution(data: Seq<u8>)
    ensures
        crypt_spec(crypt_spec(data)) == data,
{
    assert forall|j: int| 0 <= j < data.len() implies #[trigger] crypt_spec(crypt_spec(data))[j]
        == data[j] by {
        if j < TOP10_SIZE {
            let k = key_byte(j as nat);
            let a = data[j];
            assert((a ^ k) ^ k == a) by (bit_vector);
        }
    }
    assert(crypt_spec(crypt_spec(data)) =~= data);
}

/// The remainder of `x` divided by 0xD3D, truncated toward zero as Rust's
/// `%` and `wrapping_rem` on `i16` give it.
pub open spec fn rem_0xd3d(x: i16) -> int {
    if x >= 0 {
        x as int % 0xD3D
    } else {
        -((-(x as int)) % 0xD3D)
    }
}

/// One step of the keystream generator, from the registers `(ebp8, ebp10)`:
/// `ebp10 += (ebp8 % 0xD3D) * 0xD3D`, then `ebp8 = ebp10 * 0x1F + 0xD3D`,
/// all wrapping in 16 bits.
pub open spec fn key_step(s: (i16, i16)) -> (i16, i16) {
    let next10 = s.1.wrapping_add((rem_0xd3d(s.0) as i16).wrapping_mul(0xD3Di16));
    (next10.wrapping_mul(0x1Fi16).wrapping_add(0xD3Di16), next10)
}

/// The best-times tables are combined with one keystream: the generator
/// starts at `(0x15, 0x2637)` and takes one step for every byte, with no
/// restart anywhere; byte `i` of the first `TOP10_SIZE` bytes is combined
/// with the low byte of the first register after `i` steps, and later bytes
/// are kept.
pub proof fn lemma_crypt_keystream(data: Seq<u8>, i: nat)
    ensures
        key_state(0) == (0x15i16, 0x2637i16),
        key_state(i + 1) == key_step(key_state(i)),
        crypt_spec(data).len() == data.len(),
        i < data.len() ==> crypt_spec(data)[i as int] == if i < TOP10_SIZE {
            data[i as int] ^ ((key_state(i).0 & 0xFFi16) as u8)
        } else {
            data[i as int]
        },
{
    let e8 = key_state(i).0;
    let r = rem_0xd3d(e8);
    assert(-0xD3D < r < 0xD3D);
    assert(e8.checked_rem(0xD3Di16) == Some(r as i16));
}

} // verus!
