use vstd::prelude::*;

use crate::rng::draw_bool;

verus! {

/// A polarisation basis: rectilinear (Z) or diagonal (X).
#[derive(Debug, Clone, Copy, PartialEq, Eq, Structural)]
pub enum Basis {
    Rectilinear,
    Diagonal,
}

/// A classical bit carried by a photon.
#[derive(Debug, Clone, Copy, PartialEq, Eq, Structural)]
pub enum Bit {
    Zero,
    One,
}

/// The bit that a boolean stands for: `true` is one.
pub open spec fn bit_of_bool(b: bool) -> Bit {
    if b { Bit::One } else { Bit::Zero }
}

impl From<bool> for Bit {
    fn from(b: bool) -> (r: Bit)
        ensures r == bit_of_bool(b),
    {
        if b { Bit::One } else { Bit::Zero }
    }
}

impl vstd::std_specs::convert::FromSpecImpl<bool> for Bit {
    open spec fn obeys_from_spec() -> bool {
        true
    }

    open spec fn from_spec(v: bool) -> Bit {
        bit_of_bool(v)
    }
}

impl Basis {
    /// The symbol of the basis: `Z` for rectilinear, `X` for diagonal.
    pub fn symbol(&self) -> (r: char)
        ensures r == (if *self == Basis::Rectilinear { 'Z' } else { 'X' }),
    {
        match self {
            Basis::Rectilinear => 'Z',
            Basis::Diagonal => 'X',
        }
    }
}

impl Bit {
    /// The symbol of the bit: `0` or `1`.
    pub fn symbol(&self) -> (r: char)
        ensures r == (if *self == Bit::Zero { '0' } else { '1' }),
    {
        match self {
            Bit::Zero => '0',
            Bit::One => '1',
        }
    }
}

/// The basis that a drawn boolean selects: `true` is rectilinear.
pub open spec fn basis_of_draw(d: bool) -> Basis {
    if d { Basis::Rectilinear } else { Basis::Diagonal }
}

/// Selects a basis from a drawn boolean.
pub fn basis_from_draw(d: bool) -> (r: Basis)
    ensures
        r == basis_of_draw(d),
{
    if d { Basis::Rectilinear } else { Basis::Diagonal }
}

/// A single photon pulse: the basis it was prepared in, the bit it encodes,
/// and whether it was lost in the fibre.
#[derive(Debug, Clone, Copy)]
pub struct Photon {
    pub basis: Basis,
    pub bit: Bit,
    pub lost: bool,
}

/// BB84 measurement rule: measuring in the preparation basis yields the
/// encoded bit; measuring in the other basis yields an unbiased coin, here
/// the value `random_bit`.
pub open spec fn measure_rule(photon_basis: Basis, photon_bit: Bit, measurement_basis: Basis, random_bit: bool) -> Bit {
    if photon_basis == measurement_basis {
        photon_bit
    } else {
        bit_of_bool(random_bit)
    }
}

impl Photon {
    /// A photon prepared in `basis` carrying `bit`, not lost.
    pub fn new(basis: Basis, bit: Bit) -> (r: Photon)
        ensures
            r.basis == basis,
            r.bit == bit,
            !r.lost,
    {
        Photon { basis, bit, lost: false }
    }
}

impl Photon {
    /// Measures this photon in `measurement_basis`: nothing if it was lost,
    /// its bit if the bases agree, and otherwise a bit drawn from `rng`.
    pub fn measure(&self, measurement_basis: Basis, rng: &mut rand_chacha::ChaCha8Rng) -> (r: Option<Bit>)
        ensures
            self.lost ==> r is None,
            !self.lost ==> r is Some,
            !self.lost && self.basis == measurement_basis ==> r == Some(self.bit),
            self.lost || self.basis == measurement_basis ==> *final(rng) == *old(rng),
            exists|coin: bool| r == (if self.lost { None } else {
                Some(measure_rule(self.basis, self.bit, measurement_basis, coin))
            }),
    {
        let (r, Ghost(coin)) = self.measure_drawn(measurement_basis, rng);
        r
    }

    /// `measure`, also giving the coin it drew, if any.
    fn measure_drawn(&self, measurement_basis: Basis, rng: &mut rand_chacha::ChaCha8Rng) -> (r: (Option<Bit>, Ghost<bool>))
        ensures
            self.lost ==> r.0 is None,
            !self.lost ==> r.0 == Some(measure_rule(self.basis, self.bit, measurement_basis, r.1@)),
            self.lost || self.basis == measurement_basis ==> *final(rng) == *old(rng),
    {
        if self.lost {
            return (None, Ghost(false));
        }
        if self.basis == measurement_basis {
            (Some(self.bit), Ghost(false))
        } else {
            let coin = draw_bool(rng);
            (Some(Bit::from(coin)), Ghost(coin))
        }
    }
}

/// Measures a photon prepared as (`photon_basis`, `photon_bit`) in
/// `measurement_basis`; a mismatched basis yields a bit drawn from `rng`.
pub fn measure_photon(photon_basis: Basis, photon_bit: Bit, measurement_basis: Basis, rng: &mut rand_chacha::ChaCha8Rng) -> (r: Bit)
    ensures
        photon_basis == measurement_basis ==> r == photon_bit,
        photon_basis == measurement_basis ==> *final(rng) == *old(rng),
        exists|coin: bool| r == measure_rule(photon_basis, photon_bit, measurement_basis, coin),
{
    let (r, Ghost(coin)) = measure_photon_drawn(photon_basis, photon_bit, measurement_basis, rng);
    r
}

/// `measure_photon`, also giving the coin it drew, if any.
fn measure_photon_drawn(photon_basis: Basis, photon_bit: Bit, measurement_basis: Basis,
    rng: &mut rand_chacha::ChaCha8Rng) -> (r: (Bit, Ghost<bool>))
    ensures
        r.0 == measure_rule(photon_basis, photon_bit, measurement_basis, r.1@),
        photon_basis == measurement_basis ==> *final(rng) == *old(rng),
{
    if photon_basis == measurement_basis {
        (photon_bit, Ghost(false))
    } else {
        let coin = draw_bool(rng);
        (Bit::from(coin), Ghost(coin))
    }
}

/// Measures a photon prepared as (`photon_basis`, `photon_bit`) in
/// `measurement_basis`, with `random_bit` as the outcome of a mismatched basis.
pub fn measure_photon_fast(photon_basis: Basis, photon_bit: Bit, measurement_basis: Basis, random_bit: bool) -> (r: Bit)
    ensures r == measure_rule(photon_basis, photon_bit, measurement_basis, random_bit),
{
    if photon_basis == measurement_basis {
        photon_bit
    } else {
        Bit::from(random_bit)
    }
}

} // verus!
