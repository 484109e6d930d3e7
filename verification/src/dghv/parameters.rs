//! The standard DGHV parameter sets, with the bootstrapping parameters.

use vstd::prelude::*;

verus! {

/// Parameters of the scheme.
#[derive(Clone, Copy, Debug, PartialEq, Eq, Structural)]
pub struct Parameters {
    /// Secondary noise parameter (rho prime).
    pub rho_prime: u16,
    /// Bit-length of the noise (rho).
    pub rho: u16,
    /// Bit-length of the generator key (eta).
    pub eta: u32,
    /// Bit-length of the integers in the public key (gamma).
    pub gamma: u32,
    /// Number of integers in the public key (tau).
    pub tau: u32,
    /// General security parameter (lambda).
    pub lambda: u8,
    /// Bit precision of the bootstrapping key elements (kappa).
    pub kappa: u32,
    /// Size of the sparse subset of bootstrapping keys (theta).
    pub theta: u8,
    /// Number of samples of the bootstrapping key (big theta).
    pub theta_big: u32,
}

/// Toy parameter set.
#[allow(non_snake_case)]
pub fn TINY() -> (r: Parameters)
    ensures
        r == (Parameters {
            rho_prime: 52,
            rho: 26,
            eta: 988,
            gamma: 147456,
            tau: 158,
            lambda: 42,
            kappa: 147458,
            theta: 42,
            theta_big: 150,
        }),
{
    Parameters {
        rho_prime: 52,
        rho: 26,
        eta: 988,
        gamma: 147456,
        tau: 158,
        lambda: 42,
        kappa: 147458,
        theta: 42,
        theta_big: 150,
    }
}

/// Parameter set that yields smaller keys.
#[allow(non_snake_case)]
pub fn SMALL() -> (r: Parameters)
    ensures
        r == (Parameters {
            rho_prime: 82,
            rho: 41,
            eta: 1558,
            gamma: 843033,
            tau: 572,
            lambda: 52,
            kappa: 843035,
            theta: 52,
            theta_big: 555,
        }),
{
    Parameters {
        rho_prime: 82,
        rho: 41,
        eta: 1558,
        gamma: 843033,
        tau: 572,
        lambda: 52,
        kappa: 843035,
        theta: 52,
        theta_big: 555,
    }
}

/// Secure parameter set for medium-sized keys.
#[allow(non_snake_case)]
pub fn MEDIUM() -> (r: Parameters)
    ensures
        r == (Parameters {
            rho_prime: 112,
            rho: 56,
            eta: 2128,
            gamma: 4251866,
            tau: 2110,
            lambda: 62,
            kappa: 4251868,
            theta: 62,
            theta_big: 2070,
        }),
{
    Parameters {
        rho_prime: 112,
        rho: 56,
        eta: 2128,
        gamma: 4251866,
        tau: 2110,
        lambda: 62,
        kappa: 4251868,
        theta: 62,
        theta_big: 2070,
    }
}

/// Secure parameter set that yields large keys.
#[allow(non_snake_case)]
pub fn LARGE() -> (r: Parameters)
    ensures
        r == (Parameters {
            rho_prime: 142,
            rho: 71,
            eta: 2698,
            gamma: 19575950,
            tau: 7659,
            lambda: 72,
            kappa: 19575952,
            theta: 72,
            theta_big: 7965,
        }),
{
    Parameters {
        rho_prime: 142,
        rho: 71,
        eta: 2698,
        gamma: 19575950,
        tau: 7659,
        lambda: 72,
        kappa: 19575952,
        theta: 72,
        theta_big: 7965,
    }
}

} // verus!
