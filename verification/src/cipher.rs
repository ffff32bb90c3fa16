//! The chain cipher: a forward sweep in which each output pixel mixes the
//! previous output pixel, the current input pixel and a keystream word, and
//! its algebraic inverse.

use vstd::prelude::*;

verus! {

use crate::perm::lemma_flat_index;
use crate::perm::lemma_flat_bound;
use crate::perm::lemma_flat_split;

/// The byte of rank `i` (little-endian) of a 32-bit word; only ranks `0 .. 4`
/// select a byte lane.
pub open spec fn byte_of(w: u32, i: int) -> u8 {
    (w >> ((8 * i) as u32)) as u8
}

/// Extracts the byte of rank `i` from a 32-bit word.
pub fn byte(num: u32, i: usize) -> (r: u8)
    requires
        i < 4,
    ensures
        r == byte_of(num, i as int),
{
    (num >> ((8 * i) as u32)) as u8
}

/// The ciphertext byte of channel `c` of pixel `i`: pixel 0 mixes the
/// initialization word with the plaintext and the keystream; every later pixel
/// chains in the previous ciphertext pixel instead.
pub open spec fn enc_byte(p: Seq<u8>, channels: nat, init: u32, ks: Seq<u32>, i: int, c: int) -> u8
    decreases i,
{
    if i <= 0 {
        byte_of(init, c) ^ p[c] ^ byte_of(ks[0], c)
    } else {
        enc_byte(p, channels, init, ks, i - 1, c) ^ p[i * (channels as int) + c] ^ byte_of(
            ks[i],
            c,
        )
    }
}

/// The chained ciphertext of a whole (already permuted) plaintext buffer.
pub open spec fn chain_enc(p: Seq<u8>, channels: nat, init: u32, ks: Seq<u32>) -> Seq<u8> {
    Seq::new(
        p.len(),
        |j: int| enc_byte(p, channels, init, ks, j / (channels as int), j % (channels as int)),
    )
}

/// The plaintext byte of channel `c` of pixel `i`, from the ciphertext alone:
/// pixel 0 is undone with the initialization word; every later pixel is undone
/// with the previous ciphertext pixel, which the buffer already holds.
pub open spec fn dec_byte(
    ciph: Seq<u8>,
    channels: nat,
    init: u32,
    ks: Seq<u32>,
    i: int,
    c: int,
) -> u8 {
    if i <= 0 {
        byte_of(init, c) ^ ciph[c] ^ byte_of(ks[0], c)
    } else {
        ciph[(i - 1) * (channels as int) + c] ^ ciph[i * (channels as int) + c] ^ byte_of(ks[i], c)
    }
}

/// The recovered plaintext of a whole ciphertext buffer.
pub open spec fn chain_dec(ciph: Seq<u8>, channels: nat, init: u32, ks: Seq<u32>) -> Seq<u8> {
    Seq::new(
        ciph.len(),
        |j: int| dec_byte(ciph, channels, init, ks, j / (channels as int), j % (channels as int)),
    )
}

/// Encrypts a permuted pixel buffer in one forward sweep: the first pixel is
/// mixed with the initialization word, every later one with the ciphertext
/// pixel just produced.
pub fn chain_encrypt(p: &Vec<u8>, channels: usize, init: u32, ks: &Vec<u32>) -> (r: Vec<u8>)
    requires
        1 <= channels <= 4,
        p@.len() == ks@.len() * channels,
    ensures
        r@ == chain_enc(p@, channels as nat, init, ks@),
{
    let ghost target = chain_enc(p@, channels as nat, init, ks@);
    let n = p.len();
    let mut out: Vec<u8> = Vec::new();
    for j in 0..n
        invariant
            n == p@.len(),
            p@.len() == ks@.len() * channels,
            1 <= channels <= 4,
            target == chain_enc(p@, channels as nat, init, ks@),
            out@.len() == j,
            forall|t: int| 0 <= t < j ==> out@[t] == target[t],
    {
        proof {
            lemma_flat_split(j as int, ks@.len() as int, channels as int);
        }
        let i = j / channels;
        let c = j % channels;
        let k = byte(ks[i], c);
        let b = if j < channels {
            proof {
                assert(i == 0 && c == j);
            }
            byte(init, c) ^ p[j] ^ k
        } else {
            proof {
                lemma_flat_index(i as int - 1, c as int, channels as int);
                assert((i as int - 1) * (channels as int) == i as int * (channels as int)
                    - channels) by (nonlinear_arith);
                assert(j - channels == (i as int - 1) * (channels as int) + c);
                assert(0 <= j - channels < p@.len());
                assert(out@[j - channels] == target[j - channels]);
                assert((j - channels) / (channels as int) == i as int - 1);
                assert((j - channels) % (channels as int) == c as int);
                assert(target[j - channels] == enc_byte(
                    p@,
                    channels as nat,
                    init,
                    ks@,
                    i as int - 1,
                    c as int,
                ));
            }
            out[j - channels] ^ p[j] ^ k
        };
        proof {
            assert(b == enc_byte(p@, channels as nat, init, ks@, i as int, c as int));
        }
        out.push(b);
    }
    proof {
        assert(out@ =~= target);
    }
    out
}

/// Decrypts a chained ciphertext in one forward sweep: the first pixel is
/// undone with the initialization word, every later one with the previous
/// ciphertext pixel, which the input buffer still holds.
pub fn chain_decrypt(ciph: &Vec<u8>, channels: usize, init: u32, ks: &Vec<u32>) -> (r: Vec<u8>)
    requires
        1 <= channels <= 4,
        ciph@.len() == ks@.len() * channels,
    ensures
        r@ == chain_dec(ciph@, channels as nat, init, ks@),
{
    let ghost target = chain_dec(ciph@, channels as nat, init, ks@);
    let n = ciph.len();
    let mut out: Vec<u8> = Vec::new();
    for j in 0..n
        invariant
            n == ciph@.len(),
            ciph@.len() == ks@.len() * channels,
            1 <= channels <= 4,
            target == chain_dec(ciph@, channels as nat, init, ks@),
            out@.len() == j,
            forall|t: int| 0 <= t < j ==> out@[t] == target[t],
    {
        proof {
            lemma_flat_split(j as int, ks@.len() as int, channels as int);
        }
        let i = j / channels;
        let c = j % channels;
        let k = byte(ks[i], c);
        let b = if j < channels {
            proof {
                assert(i == 0 && c == j);
            }
            byte(init, c) ^ ciph[j] ^ k
        } else {
            proof {
                assert((i as int - 1) * (channels as int) == i as int * (channels as int)
                    - channels) by (nonlinear_arith);
                assert(j - channels == (i as int - 1) * (channels as int) + c);
            }
            ciph[j - channels] ^ ciph[j] ^ k
        };
        proof {
            assert(b == dec_byte(ciph@, channels as nat, init, ks@, i as int, c as int));
        }
        out.push(b);
    }
    proof {
        assert(out@ =~= target);
    }
    out
}

/// Decrypting a chained ciphertext with the initialization word and keystream
/// that produced it recovers the plaintext, byte for byte.
pub proof fn lemma_chain_round_trip(p: Seq<u8>, channels: nat, init: u32, ks: Seq<u32>)
    requires
        1 <= channels,
        p.len() == ks.len() * channels,
    ensures
        chain_dec(chain_enc(p, channels, init, ks), channels, init, ks) == p,
{
    let ch = channels as int;
    let e = chain_enc(p, channels, init, ks);
    let d = chain_dec(e, channels, init, ks);
    assert forall|j: int| 0 <= j < p.len() implies d[j] == p[j] by {
        lemma_flat_split(j, ks.len() as int, ch);
        let i = j / ch;
        let c = j % ch;
        if i == 0 {
            lemma_flat_index(0, c, ch);
            assert(j == c);
            let a = byte_of(init, c);
            let k = byte_of(ks[0], c);
            let x = p[c];
            assert(e[c] == enc_byte(p, channels, init, ks, 0, c));
            assert(d[j] == a ^ (a ^ x ^ k) ^ k);
            assert(a ^ (a ^ x ^ k) ^ k == x) by (bit_vector);
        } else {
            lemma_flat_index(i - 1, c, ch);
            lemma_flat_bound(i - 1, c, ks.len() as int, ch);
            assert(e[(i - 1) * ch + c] == enc_byte(p, channels, init, ks, i - 1, c));
            let w = enc_byte(p, channels, init, ks, i - 1, c);
            let k = byte_of(ks[i], c);
            let x = p[i * ch + c];
            assert(e[j] == w ^ x ^ k);
            assert(d[j] == w ^ (w ^ x ^ k) ^ k);
            assert(w ^ (w ^ x ^ k) ^ k == x) by (bit_vector);
        }
    }
    assert(d =~= p);
}

/// Channel coverage: the cipher reads only bytes `0 .. channels` of any
/// keystream word, so two keystreams that agree on those bytes encrypt every
/// buffer alike.
pub proof fn lemma_keystream_bytes(
    p: Seq<u8>,
    channels: nat,
    init: u32,
    ks1: Seq<u32>,
    ks2: Seq<u32>,
)
    requires
        1 <= channels,
        p.len() == ks1.len() * channels,
        ks1.len() == ks2.len(),
        forall|i: int, c: int|
            0 <= i < ks1.len() && 0 <= c < channels ==> #[trigger] byte_of(ks1[i], c) == byte_of(
                ks2[i],
                c,
            ),
    ensures
        chain_enc(p, channels, init, ks1) == chain_enc(p, channels, init, ks2),
{
    let ch = channels as int;
    let e1 = chain_enc(p, channels, init, ks1);
    let e2 = chain_enc(p, channels, init, ks2);
    assert forall|j: int| 0 <= j < p.len() implies e1[j] == e2[j] by {
        lemma_flat_split(j, ks1.len() as int, ch);
        lemma_enc_byte_keystream(p, channels, init, ks1, ks2, j / ch, j % ch);
    }
    assert(e1 =~= e2);
}

/// Channel coverage, inverse direction: undoing the chain also reads only
/// bytes `0 .. channels` of any keystream word.
pub proof fn lemma_keystream_bytes_dec(
    ciph: Seq<u8>,
    channels: nat,
    init: u32,
    ks1: Seq<u32>,
    ks2: Seq<u32>,
)
    requires
        1 <= channels,
        ciph.len() == ks1.len() * channels,
        ks1.len() == ks2.len(),
        forall|i: int, c: int|
            0 <= i < ks1.len() && 0 <= c < channels ==> #[trigger] byte_of(ks1[i], c) == byte_of(
                ks2[i],
                c,
            ),
    ensures
        chain_dec(ciph, channels, init, ks1) == chain_dec(ciph, channels, init, ks2),
{
    let ch = channels as int;
    let d1 = chain_dec(ciph, channels, init, ks1);
    let d2 = chain_dec(ciph, channels, init, ks2);
    assert forall|j: int| 0 <= j < ciph.len() implies d1[j] == d2[j] by {
        lemma_flat_split(j, ks1.len() as int, ch);
        assert(byte_of(ks1[j / ch], j % ch) == byte_of(ks2[j / ch], j % ch));
    }
    assert(d1 =~= d2);
}

proof fn lemma_enc_byte_keystream(
    p: Seq<u8>,
    channels: nat,
    init: u32,
    ks1: Seq<u32>,
    ks2: Seq<u32>,
    i: int,
    c: int,
)
    requires
        1 <= channels,
        ks1.len() == ks2.len(),
        0 <= i < ks1.len(),
        0 <= c < channels,
        forall|t: int, d: int|
            0 <= t < ks1.len() && 0 <= d < channels ==> #[trigger] byte_of(ks1[t], d) == byte_of(
                ks2[t],
                d,
            ),
    ensures
        enc_byte(p, channels, init, ks1, i, c) == enc_byte(p, channels, init, ks2, i, c),
    decreases i,
{
    if i > 0 {
        lemma_enc_byte_keystream(p, channels, init, ks1, ks2, i - 1, c);
    }
}

} // verus!
