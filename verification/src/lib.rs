//! Reversible scrambling of raw image pixel data under a numeric key: a seeded
//! pseudorandom sequence generator, a whole-pixel permutation, and a chained
//! XOR stream cipher, composed into `encrypt_image` and `decrypt_image`.
//!
//! The key is a single 64-bit unsigned integer; it only serves to seed the
//! sequence generator, and the same key recovers what it scrambled.

pub mod cipher;
pub mod perm;
pub mod stream;

use vstd::prelude::*;

verus! {

use crate::cipher::chain_dec;
use crate::cipher::chain_decrypt;
use crate::cipher::chain_enc;
use crate::cipher::chain_encrypt;
use crate::cipher::lemma_chain_round_trip;
use crate::perm::apply_perm;
use crate::perm::apply_permutation;
use crate::perm::inv_perm;
use crate::perm::invert_permutation;
use crate::perm::is_permutation;
use crate::perm::lemma_apply_inverse;
use crate::stream::generate;
use crate::stream::init_word;
use crate::stream::key_perm;
use crate::stream::keystream;
use vstd::arithmetic::div_mod::lemma_div_basics_5;
use vstd::arithmetic::div_mod::lemma_fundamental_div_mod;
use vstd::arithmetic::div_mod::lemma_fundamental_div_mod_converse;

/// An in-memory image: a flat, row-major pixel buffer with interleaved
/// channels, plus the dimensions and the byte count of one pixel.
pub struct Image {
    pub width: u32,
    pub height: u32,
    pub channel_count: u8,
    pub pixels: Vec<u8>,
}

impl Image {
    /// The pixel count.
    pub open spec fn dim(self) -> nat {
        (self.width * self.height) as nat
    }

    /// Well-formed: one to four bytes per pixel, and the buffer holds exactly
    /// one whole pixel per position.
    pub open spec fn wf(self) -> bool {
        &&& 1 <= self.channel_count <= 4
        &&& self.pixels@.len() == self.dim() * self.channel_count
    }
}

/// Whether to scramble an image or to recover a scrambled one.
#[derive(Clone, Copy, Debug)]
pub enum Mode {
    Enc,
    Dec,
}

/// The ciphertext of a pixel buffer under a key: the buffer's pixels are
/// reordered by the key's permutation, then chained through the XOR cipher
/// with the key's initialization word and keystream.
pub open spec fn encrypted(pixels: Seq<u8>, channels: nat, key: u64) -> Seq<u8> {
    let dim = pixels.len() / channels;
    chain_enc(
        apply_perm(pixels, channels, key_perm(key, dim)),
        channels,
        init_word(key),
        keystream(key, dim),
    )
}

/// The plaintext recovered from a ciphertext buffer under a key: the chain is
/// undone with the key's initialization word and keystream, then the pixels
/// are put back with the inverse of the key's permutation.
pub open spec fn decrypted(pixels: Seq<u8>, channels: nat, key: u64) -> Seq<u8> {
    let dim = pixels.len() / channels;
    apply_perm(
        chain_dec(pixels, channels, init_word(key), keystream(key, dim)),
        channels,
        inv_perm(key_perm(key, dim)),
    )
}

/// Round trip: decrypting what encryption produced, under the same key, gives
/// back the original buffer, byte for byte.
pub proof fn lemma_round_trip(pixels: Seq<u8>, channels: nat, key: u64)
    requires
        1 <= channels,
        pixels.len() % channels == 0,
        pixels.len() <= usize::MAX,
        is_permutation(key_perm(key, pixels.len() / channels), pixels.len() / channels),
    ensures
        decrypted(encrypted(pixels, channels, key), channels, key) == pixels,
{
    let ch = channels as int;
    let dim = pixels.len() / channels;
    let p = key_perm(key, dim);
    let ks = keystream(key, dim);
    let start = init_word(key);
    lemma_fundamental_div_mod(pixels.len() as int, ch);
    assert(ch * (dim as int) == (dim as int) * ch) by (nonlinear_arith);
    assert(pixels.len() == dim * channels);
    lemma_div_basics_5(pixels.len() as int, ch);
    assert(p.len() == dim);
    let mid = apply_perm(pixels, channels, p);
    assert(mid.len() == dim * channels);
    let enc = encrypted(pixels, channels, key);
    assert(enc.len() == pixels.len());
    lemma_chain_round_trip(mid, channels, start, ks);
    lemma_apply_inverse(pixels, channels, p);
}

/// Determinism: the ciphertext is a function of the pixel bytes, the channel
/// count and the key alone, so encrypting equal buffers with equal keys twice
/// yields equal ciphertexts.
pub proof fn lemma_encrypt_deterministic(
    p1: Seq<u8>,
    p2: Seq<u8>,
    channels: nat,
    key1: u64,
    key2: u64,
)
    requires
        p1 == p2,
        key1 == key2,
    ensures
        encrypted(p1, channels, key1) == encrypted(p2, channels, key2),
{
}

/// Scrambles the image's pixel buffer under `key`, in place; the dimensions
/// and the channel count stay untouched. An empty image is left as it is.
pub fn encrypt_image(img: &mut Image, key: u64)
    requires
        old(img).wf(),
    ensures
        final(img).wf(),
        final(img).width == old(img).width,
        final(img).height == old(img).height,
        final(img).channel_count == old(img).channel_count,
        final(img).pixels@ == encrypted(old(img).pixels@, old(img).channel_count as nat, key),
        old(img).dim() == 0 ==> final(img).pixels@ == old(img).pixels@,
{
    let ghost d0 = old(img).dim();
    let ghost c0 = old(img).channel_count as nat;
    let n = img.pixels.len();
    let channels = img.channel_count as usize;
    proof {
        assert(d0 <= n) by (nonlinear_arith)
            requires
                n == d0 * c0,
                c0 >= 1,
        ;
    }
    let dim = (img.width as usize) * (img.height as usize);
    let (start, ks, p) = generate(key, dim);
    let permuted = apply_permutation(&img.pixels, channels, &p);
    let scrambled = chain_encrypt(&permuted, channels, start, &ks);
    proof {
        lemma_fundamental_div_mod_converse(n as int, channels as int, dim as int, 0);
        if old(img).dim() == 0 {
            assert(n == 0) by (nonlinear_arith)
                requires
                    n == d0 * c0,
                    d0 == 0,
            ;
            assert(scrambled@ =~= old(img).pixels@);
        }
    }
    img.pixels = scrambled;
}

/// Recovers the image's pixel buffer under `key`, in place; the dimensions and
/// the channel count stay untouched. Feeding back what `encrypt_image`
/// produced under the same key restores the original pixels. An empty image is
/// left as it is.
pub fn decrypt_image(img: &mut Image, key: u64)
    requires
        old(img).wf(),
    ensures
        final(img).wf(),
        final(img).width == old(img).width,
        final(img).height == old(img).height,
        final(img).channel_count == old(img).channel_count,
        final(img).pixels@ == decrypted(old(img).pixels@, old(img).channel_count as nat, key),
        forall|q: Seq<u8>|
            q.len() == old(img).pixels@.len() && old(img).pixels@ == #[trigger] encrypted(
                q,
                old(img).channel_count as nat,
                key,
            ) ==> final(img).pixels@ == q,
        old(img).dim() == 0 ==> final(img).pixels@ == old(img).pixels@,
{
    let ghost d0 = old(img).dim();
    let ghost c0 = old(img).channel_count as nat;
    let n = img.pixels.len();
    let channels = img.channel_count as usize;
    proof {
        assert(d0 <= n) by (nonlinear_arith)
            requires
                n == d0 * c0,
                c0 >= 1,
        ;
    }
    let dim = (img.width as usize) * (img.height as usize);
    let (start, ks, p) = generate(key, dim);
    let unchained = chain_decrypt(&img.pixels, channels, start, &ks);
    let inv = invert_permutation(&p);
    let plain = apply_permutation(&unchained, channels, &inv);
    proof {
        lemma_fundamental_div_mod_converse(n as int, channels as int, dim as int, 0);
        assert(plain@ == decrypted(old(img).pixels@, old(img).channel_count as nat, key));
        assert forall|q: Seq<u8>|
            q.len() == old(img).pixels@.len() && old(img).pixels@ == #[trigger] encrypted(
                q,
                old(img).channel_count as nat,
                key,
            ) implies plain@ == q by {
            lemma_fundamental_div_mod_converse(q.len() as int, channels as int, dim as int, 0);
            lemma_round_trip(q, old(img).channel_count as nat, key);
        }
        if old(img).dim() == 0 {
            assert(n == 0) by (nonlinear_arith)
                requires
                    n == d0 * c0,
                    d0 == 0,
            ;
            assert(plain@ =~= old(img).pixels@);
        }
    }
    img.pixels = plain;
}

/// Runs the operation that `mode` selects on the image, under `key`.
pub fn transform_image(img: &mut Image, mode: Mode, key: u64)
    requires
        old(img).wf(),
    ensures
        final(img).wf(),
        final(img).width == old(img).width,
        final(img).height == old(img).height,
        final(img).channel_count == old(img).channel_count,
        mode is Enc ==> final(img).pixels@ == encrypted(
            old(img).pixels@,
            old(img).channel_count as nat,
            key,
        ),
        mode is Dec ==> final(img).pixels@ == decrypted(
            old(img).pixels@,
            old(img).channel_count as nat,
            key,
        ),
{
    match mode {
        Mode::Enc => encrypt_image(img, key),
        Mode::Dec => decrypt_image(img, key),
    }
}

} // verus!

