//! The sequence generator: one seeded pseudorandom stream per call, consumed
//! in a fixed order to yield the initialization word, the keystream and the
//! pixel permutation.

use vstd::prelude::*;
use rand::Rng;
use rand::SeedableRng;
use rand::seq::SliceRandom;

verus! {

use crate::perm::identity_seq;
use crate::perm::is_permutation;
use crate::perm::lemma_rearranged_identity_is_permutation;

#[verifier::external_type_specification]
#[verifier::external_body]
pub struct ExSmallRng(rand::rngs::SmallRng);

/// The word of rank `idx` in the pseudorandom stream that `key` seeds.
pub uninterp spec fn stream_word(key: u64, idx: nat) -> u32;

/// The reordering of `items` that a shuffle produces when it draws from the
/// stream that `key` seeds, `drawn` words into that stream.
pub uninterp spec fn shuffled(key: u64, drawn: nat, items: Seq<usize>) -> Seq<usize>;

/// One seeded pseudorandom stream, with the key and the count of words drawn
/// so far kept as ghost state.
pub(crate) struct Generator {
    rng: rand::rngs::SmallRng,
    key: Ghost<u64>,
    drawn: Ghost<nat>,
}

impl Generator {
    /// The key this generator was seeded with.
    pub(crate) closed spec fn key(self) -> u64 {
        self.key@
    }

    /// How many words were drawn from the stream so far.
    pub(crate) closed spec fn drawn(self) -> nat {
        self.drawn@
    }

    /// Relies on rand's `SeedableRng::seed_from_u64`: the generator state it
    /// builds is a function of the seed alone.
    #[verifier::external_body]
    pub(crate) fn seed(key: u64) -> (g: Generator)
        ensures
            g.key() == key,
            g.drawn() == 0,
    {
        Generator {
            rng: rand::rngs::SmallRng::seed_from_u64(key),
            key: Ghost(key),
            drawn: Ghost(0),
        }
    }

    /// Relies on rand's `Rng::gen::<u32>`: each call returns the next word of
    /// the generator's deterministic stream, so the word is a function of the
    /// seed and of how many words were drawn before it.
    #[verifier::external_body]
    pub(crate) fn next_word(&mut self) -> (w: u32)
        ensures
            final(self).key() == old(self).key(),
            final(self).drawn() == old(self).drawn() + 1,
            w == stream_word(old(self).key(), old(self).drawn()),
    {
        self.rng.gen()
    }

    /// Relies on rand's `SliceRandom::shuffle`: a Fisher-Yates pass that swaps
    /// the slice's elements in place, drawing only from this generator, so the
    /// reordering it picks is a function of the generator state and of the
    /// contents, and the contents are rearranged, never changed.
    #[verifier::external_body]
    pub(crate) fn shuffle(&mut self, items: &mut Vec<usize>)
        ensures
            final(self).key() == old(self).key(),
            final(items)@ == shuffled(old(self).key(), old(self).drawn(), old(items)@),
            final(items)@.to_multiset() == old(items)@.to_multiset(),
    {
        items.shuffle(&mut self.rng);
    }
}

/// The first word drawn for a key: the chain cipher's initialization word.
pub open spec fn init_word(key: u64) -> u32 {
    stream_word(key, 0)
}

/// The keystream for a key and a pixel count: the `dim` words drawn after the
/// initialization word, in order.
pub open spec fn keystream(key: u64, dim: nat) -> Seq<u32> {
    Seq::new(dim, |i: int| stream_word(key, (i + 1) as nat))
}

/// The pixel permutation for a key and a pixel count: the identity arrangement,
/// shuffled once the initialization word and the keystream were drawn.
pub open spec fn key_perm(key: u64, dim: nat) -> Seq<usize> {
    shuffled(key, dim + 1, identity_seq(dim))
}

/// Draws the whole sequence for one key: the initialization word, one keystream
/// word per pixel, and the pixel permutation, in the fixed order that both
/// encryption and decryption must reproduce.
pub fn generate(key: u64, dim: usize) -> (r: (u32, Vec<u32>, Vec<usize>))
    ensures
        r.0 == init_word(key),
        r.1@ == keystream(key, dim as nat),
        r.2@ == key_perm(key, dim as nat),
        is_permutation(r.2@, dim as nat),
{
    let mut g = Generator::seed(key);
    let start = g.next_word();
    let mut ks: Vec<u32> = Vec::new();
    for i in 0..dim
        invariant
            g.key() == key,
            g.drawn() == i + 1,
            ks@.len() == i,
            forall|j: int| 0 <= j < i ==> ks@[j] == stream_word(key, (j + 1) as nat),
    {
        let w = g.next_word();
        ks.push(w);
    }
    proof {
        assert(ks@ =~= keystream(key, dim as nat));
    }
    let mut ids: Vec<usize> = Vec::new();
    for i in 0..dim
        invariant
            ids@.len() == i,
            forall|j: int| 0 <= j < i ==> ids@[j] == j,
    {
        ids.push(i);
    }
    proof {
        assert(ids@ =~= identity_seq(dim as nat));
    }
    g.shuffle(&mut ids);
    proof {
        lemma_rearranged_identity_is_permutation(ids@, dim as nat);
    }
    (start, ks, ids)
}

} // verus!
