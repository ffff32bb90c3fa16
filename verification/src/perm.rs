//! The permutation engine: whole-pixel gathers and permutation inversion.

use vstd::prelude::*;

verus! {

use vstd::arithmetic::div_mod::lemma_fundamental_div_mod;
use vstd::arithmetic::div_mod::lemma_fundamental_div_mod_converse;
use vstd::arithmetic::div_mod::lemma_div_basics_4;
use vstd::arithmetic::div_mod::lemma_mod_pos_bound;
use vstd::arithmetic::mul::lemma_mul_inequality;
use vstd::seq_lib::group_to_multiset_ensures;

/// The identity arrangement of `dim` pixel indices.
pub open spec fn identity_seq(dim: nat) -> Seq<usize> {
    Seq::new(dim, |i: int| i as usize)
}

/// `p` arranges the pixel indices `0 .. dim`: every index occurs, and none twice.
pub open spec fn is_permutation(p: Seq<usize>, dim: nat) -> bool {
    &&& p.len() == dim
    &&& (forall|i: int| 0 <= i < p.len() ==> (#[trigger] p[i]) < dim)
    &&& p.no_duplicates()
    &&& (forall|v: usize| v < dim ==> #[trigger] p.contains(v))
}

/// A rearrangement of the identity indices is a permutation: holding the same
/// elements as `0 .. dim`, it holds each of them exactly once.
pub proof fn lemma_rearranged_identity_is_permutation(p: Seq<usize>, dim: nat)
    requires
        p.to_multiset() == identity_seq(dim).to_multiset(),
        dim <= usize::MAX,
    ensures
        is_permutation(p, dim),
{
    broadcast use group_to_multiset_ensures;

    let idn = identity_seq(dim);
    assert(p.len() == p.to_multiset().len());
    assert(idn.len() == idn.to_multiset().len());
    assert(p.len() == dim);
    assert forall|i: int| 0 <= i < p.len() implies (#[trigger] p[i]) < dim by {
        assert(p.contains(p[i]));
        assert(p.to_multiset().count(p[i]) > 0);
        assert(idn.to_multiset().count(p[i]) > 0);
        assert(idn.contains(p[i]));
        let j = choose|j: int| 0 <= j < idn.len() && idn[j] == p[i];
        assert(idn[j] == j as usize);
    }
    assert forall|v: usize| v < dim implies #[trigger] p.contains(v) by {
        assert(idn[v as int] == v);
        assert(idn.contains(v));
        assert(idn.to_multiset().count(v) > 0);
        assert(p.to_multiset().count(v) > 0);
    }
    assert(idn.no_duplicates());
    idn.lemma_multiset_has_no_duplicates();
    p.lemma_multiset_has_no_duplicates_conv();
}

/// The flat index of channel `c` of pixel `i` splits back into `i` and `c`.
pub proof fn lemma_flat_index(i: int, c: int, channels: int)
    requires
        0 <= i,
        0 <= c < channels,
    ensures
        (i * channels + c) / channels == i,
        (i * channels + c) % channels == c,
        i * channels + c >= 0,
{
    lemma_fundamental_div_mod_converse(i * channels + c, channels, i, c);
    assert(i * channels >= 0) by (nonlinear_arith)
        requires
            i >= 0,
            channels > 0,
    ;
}

/// The flat index of channel `c` of pixel `i` lies inside a buffer of `n`
/// pixels of `channels` bytes each.
pub proof fn lemma_flat_bound(i: int, c: int, n: int, channels: int)
    requires
        0 <= i < n,
        0 <= c < channels,
    ensures
        0 <= i * channels + c < n * channels,
{
    lemma_mul_inequality(i + 1, n, channels);
    assert((i + 1) * channels == i * channels + channels) by (nonlinear_arith);
    assert(i * channels >= 0) by (nonlinear_arith)
        requires
            i >= 0,
            channels > 0,
    ;
}

/// Every flat index `j` of a buffer of `n` pixels splits into the rank
/// `j / channels` of a pixel and the channel `j % channels` inside it.
pub proof fn lemma_flat_split(j: int, n: int, channels: int)
    requires
        0 <= j < n * channels,
        0 < channels,
    ensures
        0 <= j / channels < n,
        0 <= j % channels < channels,
        j == (j / channels) * channels + (j % channels),
        (j / channels == 0) <==> (j < channels),
        j < channels ==> j % channels == j,
{
    let q = j / channels;
    let r = j % channels;
    lemma_mod_pos_bound(j, channels);
    lemma_fundamental_div_mod(j, channels);
    lemma_div_basics_4(j, channels);
    assert(channels * q == q * channels) by (nonlinear_arith);
    if q >= n {
        lemma_mul_inequality(n, q, channels);
        assert(false);
    }
    if q >= 1 {
        lemma_mul_inequality(1, q, channels);
        assert(1 * channels == channels) by (nonlinear_arith);
    }
    if q == 0 {
        assert(q * channels == 0) by (nonlinear_arith)
            requires
                q == 0,
        ;
    }
}

/// The gather that reorders whole pixels: output pixel `i` is input pixel
/// `p[i]`, its `channels` bytes moved together.
pub open spec fn apply_perm(pixels: Seq<u8>, channels: nat, p: Seq<usize>) -> Seq<u8> {
    Seq::new(
        p.len() * channels,
        |j: int|
            pixels[(p[j / (channels as int)] as int) * (channels as int) + j % (channels as int)],
    )
}

/// Reorders the buffer's pixels with the arrangement `p`: output pixel `i` is
/// input pixel `p[i]`, all `channels` bytes moved together.
pub fn apply_permutation(pixels: &Vec<u8>, channels: usize, p: &Vec<usize>) -> (r: Vec<u8>)
    requires
        1 <= channels,
        pixels@.len() == p@.len() * channels,
        forall|i: int| 0 <= i < p@.len() ==> (#[trigger] p@[i]) < p@.len(),
    ensures
        r@ == apply_perm(pixels@, channels as nat, p@),
{
    let ghost target = apply_perm(pixels@, channels as nat, p@);
    let n = pixels.len();
    let mut out: Vec<u8> = Vec::new();
    for j in 0..n
        invariant
            n == pixels@.len(),
            pixels@.len() == p@.len() * channels,
            1 <= channels,
            forall|i: int| 0 <= i < p@.len() ==> (#[trigger] p@[i]) < p@.len(),
            target == apply_perm(pixels@, channels as nat, p@),
            out@.len() == j,
            forall|t: int| 0 <= t < j ==> out@[t] == target[t],
    {
        proof {
            lemma_flat_split(j as int, p@.len() as int, channels as int);
        }
        let i = j / channels;
        let c = j % channels;
        let src = p[i];
        proof {
            lemma_flat_bound(src as int, c as int, p@.len() as int, channels as int);
        }
        let b = pixels[src * channels + c];
        out.push(b);
    }
    proof {
        assert(out@ =~= target);
    }
    out
}

/// The rank in `p` at which the value `v` stands.
pub open spec fn inv_index(p: Seq<usize>, v: int) -> usize {
    choose|i: usize| i < p.len() && p[i as int] as int == v
}

/// The inverse arrangement of `p`: it sends each value `v` back to the rank at
/// which `p` holds `v`.
pub open spec fn inv_perm(p: Seq<usize>) -> Seq<usize> {
    Seq::new(p.len(), |v: int| inv_index(p, v))
}

/// Inversion undoes the arrangement in both orders: the inverse sends `p[i]`
/// back to `i`, and `p` sends `inv_perm(p)[v]` back to `v`.
pub proof fn lemma_inv_perm(p: Seq<usize>)
    requires
        is_permutation(p, p.len() as nat),
        p.len() <= usize::MAX,
    ensures
        is_permutation(inv_perm(p), p.len() as nat),
        forall|i: int| 0 <= i < p.len() ==> #[trigger] inv_perm(p)[p[i] as int] as int == i,
        forall|v: int| 0 <= v < p.len() ==> #[trigger] p[inv_perm(p)[v] as int] as int == v,
{
    let inv = inv_perm(p);
    assert forall|v: int| 0 <= v < p.len() implies (#[trigger] inv[v]) < p.len()
        && p[inv[v] as int] as int == v by {
        assert(p.contains(v as usize));
        let w = choose|i: int| 0 <= i < p.len() && p[i] == v as usize;
        assert((w as usize) < p.len() && p[(w as usize) as int] as int == v);
        let i = inv_index(p, v);
        assert(i < p.len() && p[i as int] as int == v);
    }
    assert forall|i: int| 0 <= i < p.len() implies #[trigger] inv[p[i] as int] as int == i by {
        let v = p[i] as int;
        assert(p[inv[v] as int] as int == v);
        assert(p[i] == p[inv[v] as int]);
    }
    assert forall|v1: int, v2: int|
        0 <= v1 < inv.len() && 0 <= v2 < inv.len() && v1 != v2 implies inv[v1] != inv[v2] by {
        assert(p[inv[v1] as int] as int == v1);
        assert(p[inv[v2] as int] as int == v2);
    }
    assert forall|v: usize| v < p.len() implies #[trigger] inv.contains(v) by {
        assert(p[v as int] < p.len());
        assert(inv[p[v as int] as int] as int == v as int);
        assert(inv[p[v as int] as int] == v);
    }
}

/// Applying the inverse arrangement undoes applying `p`: a gather by `p`
/// followed by a gather by its inverse gives the buffer back.
pub proof fn lemma_apply_inverse(pixels: Seq<u8>, channels: nat, p: Seq<usize>)
    requires
        1 <= channels,
        is_permutation(p, p.len() as nat),
        p.len() <= usize::MAX,
        pixels.len() == p.len() * channels,
    ensures
        apply_perm(apply_perm(pixels, channels, p), channels, inv_perm(p)) == pixels,
{
    lemma_inv_perm(p);
    let ch = channels as int;
    let n = p.len() as int;
    let mid = apply_perm(pixels, channels, p);
    let fin = apply_perm(mid, channels, inv_perm(p));
    assert(inv_perm(p).len() == n);
    assert forall|j: int| 0 <= j < fin.len() implies fin[j] == pixels[j] by {
        lemma_flat_split(j, n, ch);
        let i = j / ch;
        let c = j % ch;
        let s = inv_perm(p)[i] as int;
        assert(0 <= s < n);
        lemma_flat_index(s, c, ch);
        lemma_flat_bound(s, c, n, ch);
        assert(fin[j] == mid[s * ch + c]);
        assert(mid[s * ch + c] == pixels[(p[s] as int) * ch + c]);
        assert(p[s] as int == i);
    }
    assert(fin =~= pixels);
}

/// Computes the inverse arrangement in one pass: entry `p[i]` of the result is
/// set to `i`, so the result sends each value back to the rank it came from.
pub fn invert_permutation(p: &Vec<usize>) -> (r: Vec<usize>)
    requires
        is_permutation(p@, p@.len() as nat),
    ensures
        r@ == inv_perm(p@),
        is_permutation(r@, p@.len() as nat),
        forall|i: int| 0 <= i < p@.len() ==> #[trigger] r@[p@[i] as int] as int == i,
{
    let dim = p.len();
    let mut inv: Vec<usize> = vec![0; dim];
    for i in 0..dim
        invariant
            is_permutation(p@, p@.len() as nat),
            dim == p@.len(),
            inv@.len() == dim,
            forall|j: int| 0 <= j < i ==> #[trigger] inv@[p@[j] as int] as int == j,
    {
        let v = p[i];
        inv[v] = i;
    }
    proof {
        lemma_inv_perm(p@);
        assert forall|v: int| 0 <= v < dim implies inv@[v] == inv_perm(p@)[v] by {
            assert(p@.contains(v as usize));
            let i = choose|i: int| 0 <= i < p@.len() && p@[i] == v as usize;
            assert(inv@[p@[i] as int] as int == i);
            assert(inv_perm(p@)[p@[i] as int] as int == i);
        }
        assert(inv@ =~= inv_perm(p@));
    }
    inv
}

} // verus!
