//! The permutation hash: a two-to-one compression of digests and a single
//! permutation round over the sponge state.

use vstd::prelude::*;
use winterfell::crypto::hashers::Rp64_256;
use winterfell::crypto::Hasher;
use winterfell::math::fields::f64::BaseElement;

verus! {

/// Modulus of the base field in which all hash values live.
pub const FIELD_MODULUS: u64 = 0xffffffff00000001;

/// Width of the sponge state.
pub const STATE_WIDTH: usize = 12;

/// Number of state elements absorbed per permutation.
pub const RATE_WIDTH: usize = 8;

/// Index of the first rate element of the sponge state.
pub const RATE_START: usize = 4;

/// Number of rounds of the permutation.
pub const NUM_HASH_ROUNDS: usize = 7;

/// A digest of the permutation hash: four base-field elements.
#[derive(Clone, Copy, Debug, PartialEq, Eq, Structural)]
pub struct Digest {
    pub e0: u64,
    pub e1: u64,
    pub e2: u64,
    pub e3: u64,
}

impl Digest {
    /// The all-zero digest.
    pub fn zero() -> (r: Digest)
        ensures
            r == Digest::zero_spec(),
    {
        Digest { e0: 0, e1: 0, e2: 0, e3: 0 }
    }

    pub open spec fn zero_spec() -> Digest {
        Digest { e0: 0, e1: 0, e2: 0, e3: 0 }
    }

    /// Every element is a canonical field element.
    pub open spec fn is_canonical(self) -> bool {
        self.e0 < FIELD_MODULUS && self.e1 < FIELD_MODULUS && self.e2 < FIELD_MODULUS
            && self.e3 < FIELD_MODULUS
    }
}

/// The digest that the permutation hash assigns to an ordered pair of digests.
pub uninterp spec fn merge_of(left: Digest, right: Digest) -> Digest;

/// The sponge state after one permutation round with the given round index.
pub uninterp spec fn round_of(state: Seq<u64>, round: nat) -> Seq<u64>;

/// Relies on winterfell's `Rp64_256::merge` (Rescue Prime over the 64-bit field):
/// its result is a function of the two digests, given back as canonical
/// integers (`BaseElement::as_int`).
#[verifier::external_body]
pub(crate) fn merge(left: Digest, right: Digest) -> (r: Digest)
    ensures
        r == merge_of(left, right),
        r.is_canonical(),
{
    let l = [left.e0, left.e1, left.e2, left.e3].map(BaseElement::new);
    let rt = [right.e0, right.e1, right.e2, right.e3].map(BaseElement::new);
    let out = Rp64_256::merge(&[l.into(), rt.into()]);
    let e = out.as_elements();
    Digest { e0: e[0].as_int(), e1: e[1].as_int(), e2: e[2].as_int(), e3: e[3].as_int() }
}

/// Relies on winterfell's `Rp64_256::apply_round`: one round of the permutation,
/// a function of the state and the round index, which must be below the
/// number of rounds (its round constants are indexed by it); elements come
/// back as canonical integers.
#[verifier::external_body]
pub(crate) fn apply_round(state: &mut Vec<u64>, round: usize)
    requires
        old(state)@.len() == STATE_WIDTH,
        round < NUM_HASH_ROUNDS,
    ensures
        final(state)@ == round_of(old(state)@, round as nat),
        final(state)@.len() == STATE_WIDTH,
{
    let mut s = [BaseElement::new(0); 12];
    for (d, v) in s.iter_mut().zip(state.iter()) {
        *d = BaseElement::new(*v);
    }
    Rp64_256::apply_round(&mut s, round);
    for (d, v) in state.iter_mut().zip(s.iter()) {
        *d = v.as_int();
    }
}

} // verus!
