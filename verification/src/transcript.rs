//! Fiat-Shamir transcript: every random-oracle call is
//! `Keccak256(tag || 0-pad to 136 bytes || state || msg)`, and its digest becomes
//! the new 32-byte state.
use crate::ext::{Ext, Fp2};
use crate::field::{lemma_fp_view_bound, modp, Fp, P};
use crate::keccak::{keccak256, keccak256_digest};
use vstd::bytes::{spec_u64_from_le_bytes, spec_u64_to_le_bytes, u64_from_le_bytes, u64_to_le_bytes};
use vstd::prelude::*;

verus! {

broadcast use lemma_fp_view_bound;

/// The bytes of "sumcheck-uniskip-v1", absorbed right after the tag.
pub open spec fn domain_label() -> Seq<u8> {
    seq![115u8, 117, 109, 99, 104, 101, 99, 107, 45, 117, 110, 105, 115, 107, 105, 112, 45, 118, 49]
}

/// The bytes of "challenge", absorbed before each sample.
pub open spec fn challenge_label() -> Seq<u8> {
    seq![99u8, 104, 97, 108, 108, 101, 110, 103, 101]
}

/// The tag followed by zeros up to the 136-byte Keccak-256 rate.
pub open spec fn tag_block(tag: Seq<u8>) -> Seq<u8> {
    tag + Seq::new(104, |i: int| 0u8)
}

/// The state after absorbing `msg`.
pub open spec fn ro_state(block: Seq<u8>, state: Seq<u8>, msg: Seq<u8>) -> Seq<u8> {
    keccak256(block + state + msg)
}

/// The little-endian bytes of a canonical field value.
pub open spec fn fe_le(x: nat) -> Seq<u8> {
    spec_u64_to_le_bytes(x as u64)
}

/// The bytes absorbed for a sequence of base-field values.
pub open spec fn fes_bytes(xs: Seq<nat>) -> Seq<u8>
    decreases xs.len(),
{
    if xs.len() == 0 {
        seq![]
    } else {
        fes_bytes(xs.drop_last()) + fe_le(xs.last())
    }
}

/// The bytes absorbed for a sequence of extension values (both coordinates of each).
pub open spec fn exts_bytes(xs: Seq<Ext>) -> Seq<u8>
    decreases xs.len(),
{
    if xs.len() == 0 {
        seq![]
    } else {
        exts_bytes(xs.drop_last()) + fe_le(xs.last().0) + fe_le(xs.last().1)
    }
}

pub open spec fn fp_views(xs: Seq<Fp>) -> Seq<nat> {
    xs.map_values(|x: Fp| x@)
}

pub open spec fn fp2_views(xs: Seq<Fp2>) -> Seq<Ext> {
    xs.map_values(|x: Fp2| x@)
}

/// One sample: absorb the challenge label, read the first 8 bytes of the new
/// state little-endian and reduce modulo P.
pub open spec fn sample(block: Seq<u8>, state: Seq<u8>) -> (Seq<u8>, nat) {
    let s = ro_state(block, state, challenge_label());
    (s, modp(spec_u64_from_le_bytes(s.subrange(0, 8)) as int))
}

/// A challenge in GF(P^2): two samples, giving its two coordinates, and the final state.
pub open spec fn challenge_spec(block: Seq<u8>, state: Seq<u8>) -> (Seq<u8>, Ext) {
    let (s1, c0) = sample(block, state);
    let (s2, c1) = sample(block, s1);
    (s2, (c0, c1))
}

/// The transcript right after it is made for `tag`.
pub open spec fn transcript_init(tag: Seq<u8>) -> (Seq<u8>, Seq<u8>) {
    (tag_block(tag), ro_state(tag_block(tag), Seq::new(32, |i: int| 0u8), domain_label()))
}

/// A Fiat-Shamir transcript bound to a tag.
pub struct Transcript {
    block: Vec<u8>,
    state: [u8; 32],
}

impl View for Transcript {
    /// The tag block and the current state.
    type V = (Seq<u8>, Seq<u8>);

    closed spec fn view(&self) -> (Seq<u8>, Seq<u8>) {
        (self.block@, self.state@)
    }
}

fn append_bytes(buf: &mut Vec<u8>, s: &[u8])
    ensures
        final(buf)@ == old(buf)@ + s@,
{
    let ghost start = buf@;
    let mut i: usize = 0;
    while i < s.len()
        invariant
            i <= s@.len(),
            buf@ == start + s@.subrange(0, i as int),
        decreases s@.len() - i,
    {
        buf.push(s[i]);
        i = i + 1;
        assert(buf@ == start + s@.subrange(0, i as int));
    }
    assert(s@.subrange(0, s@.len() as int) == s@);
}

fn domain_label_bytes() -> (r: Vec<u8>)
    ensures
        r@ == domain_label(),
{
    let r = vec![115u8, 117, 109, 99, 104, 101, 99, 107, 45, 117, 110, 105, 115, 107, 105, 112, 45, 118, 49];
    assert(r@ == domain_label());
    r
}

fn challenge_label_bytes() -> (r: Vec<u8>)
    ensures
        r@ == challenge_label(),
{
    let r = vec![99u8, 104, 97, 108, 108, 101, 110, 103, 101];
    assert(r@ == challenge_label());
    r
}

impl Transcript {
    /// A transcript for `tag`, with the domain label absorbed.
    pub fn new(tag: &[u8; 32]) -> (t: Transcript)
        ensures
            t@ == transcript_init(tag@),
    {
        let mut block: Vec<u8> = Vec::new();
        append_bytes(&mut block, tag);
        let mut i: usize = 0;
        while i < 104
            invariant
                i <= 104,
                block@ == tag@ + Seq::new(i as nat, |j: int| 0u8),
            decreases 104 - i,
        {
            block.push(0u8);
            i = i + 1;
            assert(block@ == tag@ + Seq::new(i as nat, |j: int| 0u8));
        }
        let state = [0u8; 32];
        assert(state@ == Seq::new(32, |j: int| 0u8));
        let mut t = Transcript { block, state };
        let label = domain_label_bytes();
        t.absorb(label.as_slice());
        t
    }

    /// Absorb a message: the state becomes `Keccak256(block || state || msg)`.
    pub fn absorb(&mut self, msg: &[u8])
        ensures
            final(self)@ == (old(self)@.0, ro_state(old(self)@.0, old(self)@.1, msg@)),
    {
        let mut buf: Vec<u8> = Vec::new();
        append_bytes(&mut buf, self.block.as_slice());
        append_bytes(&mut buf, &self.state);
        append_bytes(&mut buf, msg);
        self.state = keccak256_digest(buf.as_slice());
    }

    /// Absorb base-field values as their canonical 8-byte little-endian encodings.
    pub fn absorb_f(&mut self, xs: &[Fp])
        ensures
            final(self)@ == (old(self)@.0, ro_state(old(self)@.0, old(self)@.1, fes_bytes(fp_views(xs@)))),
    {
        let mut b: Vec<u8> = Vec::new();
        let mut i: usize = 0;
        while i < xs.len()
            invariant
                i <= xs@.len(),
                b@ == fes_bytes(fp_views(xs@.subrange(0, i as int))),
            decreases xs@.len() - i,
        {
            let le = u64_to_le_bytes(xs[i].as_canonical_u64());
            append_bytes(&mut b, le.as_slice());
            i = i + 1;
            assert(fp_views(xs@.subrange(0, i as int)).drop_last() == fp_views(
                xs@.subrange(0, i - 1 as int),
            ));
        }
        assert(xs@.subrange(0, xs@.len() as int) == xs@);
        self.absorb(b.as_slice());
    }

    /// Absorb extension values, each as the encodings of its two coordinates.
    pub fn absorb_ef(&mut self, xs: &[Fp2])
        ensures
            final(self)@ == (old(self)@.0, ro_state(old(self)@.0, old(self)@.1, exts_bytes(fp2_views(xs@)))),
    {
        let mut b: Vec<u8> = Vec::new();
        let mut i: usize = 0;
        while i < xs.len()
            invariant
                i <= xs@.len(),
                b@ == exts_bytes(fp2_views(xs@.subrange(0, i as int))),
            decreases xs@.len() - i,
        {
            let (c0, c1) = xs[i].coeffs();
            let le0 = u64_to_le_bytes(c0.as_canonical_u64());
            let le1 = u64_to_le_bytes(c1.as_canonical_u64());
            append_bytes(&mut b, le0.as_slice());
            append_bytes(&mut b, le1.as_slice());
            i = i + 1;
            assert(fp2_views(xs@.subrange(0, i as int)).drop_last() == fp2_views(
                xs@.subrange(0, i - 1 as int),
            ));
        }
        assert(xs@.subrange(0, xs@.len() as int) == xs@);
        self.absorb(b.as_slice());
    }

    fn sample(&mut self) -> (c: Fp)
        ensures
            final(self)@.0 == old(self)@.0,
            (final(self)@.1, c@) == sample(old(self)@.0, old(self)@.1),
    {
        let label = challenge_label_bytes();
        self.absorb(label.as_slice());
        let mut first: Vec<u8> = Vec::new();
        let mut i: usize = 0;
        while i < 8
            invariant
                i <= 8,
                self.state@.len() == 32,
                first@ == self.state@.subrange(0, i as int),
            decreases 8 - i,
        {
            first.push(self.state[i]);
            i = i + 1;
        }
        let w = u64_from_le_bytes(first.as_slice());
        Fp::from_u64(w % P)
    }

    /// Sample a challenge in GF(P^2): two field elements from two oracle calls.
    pub fn challenge(&mut self) -> (c: Fp2)
        ensures
            final(self)@.0 == old(self)@.0,
            (final(self)@.1, c@) == challenge_spec(old(self)@.0, old(self)@.1),
    {
        let c0 = self.sample();
        let c1 = self.sample();
        Fp2::new(c0, c1)
    }
}

/// The encoding of a canonical value is 8 bytes from which it reads back.
pub proof fn lemma_fe_le(x: nat)
    requires
        x < P,
    ensures
        fe_le(x).len() == 8,
        spec_u64_from_le_bytes(fe_le(x)) == x,
{
    vstd::bytes::lemma_auto_spec_u64_to_from_le_bytes();
    assert(spec_u64_to_le_bytes(x as u64).len() == 8);
}

/// The bytes of base-field values: 8 per value, and the bytes of a
/// concatenation are the concatenation of the bytes.
pub proof fn lemma_fes_bytes(xs: Seq<nat>, ys: Seq<nat>)
    ensures
        fes_bytes(xs).len() == 8 * xs.len(),
        fes_bytes(xs + ys) == fes_bytes(xs) + fes_bytes(ys),
    decreases xs.len() + ys.len(),
{
    vstd::bytes::lemma_auto_spec_u64_to_from_le_bytes();
    if xs.len() > 0 {
        assert(spec_u64_to_le_bytes(xs.last() as u64).len() == 8);
        lemma_fes_bytes(xs.drop_last(), seq![]);
    }
    if ys.len() == 0 {
        assert(xs + ys =~= xs);
        assert(fes_bytes(ys) =~= Seq::<u8>::empty());
        assert(fes_bytes(xs) + fes_bytes(ys) =~= fes_bytes(xs));
    } else {
        lemma_fes_bytes(xs, ys.drop_last());
        assert((xs + ys).drop_last() =~= xs + ys.drop_last());
        assert((xs + ys).last() == ys.last());
        assert(fes_bytes(xs) + fes_bytes(ys) =~= fes_bytes(xs) + fes_bytes(ys.drop_last()) + fe_le(ys.last()));
    }
}

/// One base-field value is absorbed as its 8 little-endian bytes.
pub proof fn lemma_fes_bytes_single(x: nat)
    ensures
        fes_bytes(seq![x]) == fe_le(x),
{
    assert(seq![x].drop_last() =~= Seq::<nat>::empty());
    assert(fes_bytes(seq![x].drop_last()) == Seq::<u8>::empty());
    assert(seq![x].last() == x);
    assert(fes_bytes(seq![x]) == fes_bytes(seq![x].drop_last()) + fe_le(x));
    assert(fes_bytes(seq![x]) =~= fe_le(x));
}

/// Distinct canonical messages of one length are absorbed as distinct bytes.
pub proof fn lemma_fes_bytes_injective(xs: Seq<nat>, ys: Seq<nat>)
    requires
        xs.len() == ys.len(),
        forall|i: int| 0 <= i < xs.len() ==> #[trigger] xs[i] < P,
        forall|i: int| 0 <= i < ys.len() ==> #[trigger] ys[i] < P,
        fes_bytes(xs) == fes_bytes(ys),
    ensures
        xs == ys,
    decreases xs.len(),
{
    if xs.len() > 0 {
        let (a, b) = (xs.drop_last(), ys.drop_last());
        lemma_fes_bytes(a, seq![]);
        lemma_fes_bytes(b, seq![]);
        lemma_fe_le(xs.last());
        lemma_fe_le(ys.last());
        let n: int = (8 * a.len()) as int;
        assert(fes_bytes(xs).subrange(0, n) =~= fes_bytes(a));
        assert(fes_bytes(ys).subrange(0, n) =~= fes_bytes(b));
        assert(fes_bytes(xs).subrange(n, n + 8) =~= fe_le(xs.last()));
        assert(fes_bytes(ys).subrange(n, n + 8) =~= fe_le(ys.last()));
        lemma_fes_bytes_injective(a, b);
        assert(xs =~= a.push(xs.last()));
        assert(ys =~= b.push(ys.last()));
    }
}

/// The bytes of extension values: 16 per value (both coordinates), and the
/// bytes of a concatenation are the concatenation of the bytes.
pub proof fn lemma_exts_bytes(xs: Seq<Ext>, ys: Seq<Ext>)
    ensures
        exts_bytes(xs).len() == 16 * xs.len(),
        exts_bytes(xs + ys) == exts_bytes(xs) + exts_bytes(ys),
    decreases xs.len() + ys.len(),
{
    vstd::bytes::lemma_auto_spec_u64_to_from_le_bytes();
    if xs.len() > 0 {
        assert(spec_u64_to_le_bytes(xs.last().0 as u64).len() == 8);
        assert(spec_u64_to_le_bytes(xs.last().1 as u64).len() == 8);
        lemma_exts_bytes(xs.drop_last(), seq![]);
    }
    if ys.len() == 0 {
        assert(xs + ys =~= xs);
        assert(exts_bytes(ys) =~= Seq::<u8>::empty());
        assert(exts_bytes(xs) + exts_bytes(ys) =~= exts_bytes(xs));
    } else {
        lemma_exts_bytes(xs, ys.drop_last());
        assert((xs + ys).drop_last() =~= xs + ys.drop_last());
        assert((xs + ys).last() == ys.last());
        assert(exts_bytes(xs) + exts_bytes(ys) =~= exts_bytes(xs) + exts_bytes(ys.drop_last()) + fe_le(
            ys.last().0,
        ) + fe_le(ys.last().1));
    }
}

/// One extension value is absorbed as the 8 bytes of each coordinate.
pub proof fn lemma_exts_bytes_single(x: Ext)
    ensures
        exts_bytes(seq![x]) == fe_le(x.0) + fe_le(x.1),
{
    assert(seq![x].drop_last() =~= Seq::<Ext>::empty());
    assert(exts_bytes(seq![x].drop_last()) == Seq::<u8>::empty());
    assert(seq![x].last() == x);
    assert(exts_bytes(seq![x]) == exts_bytes(seq![x].drop_last()) + fe_le(x.0) + fe_le(x.1));
    assert(exts_bytes(seq![x]) =~= fe_le(x.0) + fe_le(x.1));
}

/// Distinct canonical messages of one length are absorbed as distinct bytes.
pub proof fn lemma_exts_bytes_injective(xs: Seq<Ext>, ys: Seq<Ext>)
    requires
        xs.len() == ys.len(),
        forall|i: int| 0 <= i < xs.len() ==> (#[trigger] xs[i]).0 < P && xs[i].1 < P,
        forall|i: int| 0 <= i < ys.len() ==> (#[trigger] ys[i]).0 < P && ys[i].1 < P,
        exts_bytes(xs) == exts_bytes(ys),
    ensures
        xs == ys,
    decreases xs.len(),
{
    if xs.len() > 0 {
        let (a, b) = (xs.drop_last(), ys.drop_last());
        lemma_exts_bytes(a, seq![]);
        lemma_exts_bytes(b, seq![]);
        let (x, y) = (xs.last(), ys.last());
        lemma_fe_le(x.0);
        lemma_fe_le(x.1);
        lemma_fe_le(y.0);
        lemma_fe_le(y.1);
        let n: int = (16 * a.len()) as int;
        assert(exts_bytes(xs).subrange(0, n) =~= exts_bytes(a));
        assert(exts_bytes(ys).subrange(0, n) =~= exts_bytes(b));
        assert(exts_bytes(xs).subrange(n, n + 8) =~= fe_le(x.0));
        assert(exts_bytes(ys).subrange(n, n + 8) =~= fe_le(y.0));
        assert(exts_bytes(xs).subrange(n + 8, n + 16) =~= fe_le(x.1));
        assert(exts_bytes(ys).subrange(n + 8, n + 16) =~= fe_le(y.1));
        lemma_exts_bytes_injective(a, b);
        assert(xs =~= a.push(x));
        assert(ys =~= b.push(y));
    }
}

} // verus!
