//! The DGHV context: the bit-widths and counts that keys and ciphertexts
//! are sampled with, derived from a security level.

use vstd::prelude::*;

verus! {

/// Largest security level whose derived parameters fit in 32 bits.
pub const MAX_SECURITY: u8 = 84;

/// The parameters of the scheme.
#[derive(Clone, Copy, Debug, PartialEq, Eq, Structural)]
pub struct Context {
    /// Secondary noise bit-length (rho prime).
    pub big_noise_width: u16,
    /// Noise bit-length (rho).
    pub noise_width: u16,
    /// Secret key bit-length (eta).
    pub sk_width: u32,
    /// Bit-length of the public key integers (gamma).
    pub pk_width: u32,
    /// Number of public key integers (tau).
    pub pk_count: u32,
    /// Security level (lambda).
    pub security: u8,
}

/// Toy parameters.
#[allow(non_snake_case)]
pub fn DGHV_CTX_TINY() -> (r: Context)
    ensures
        r == (Context {
            big_noise_width: 52,
            noise_width: 26,
            sk_width: 988,
            pk_width: 147456,
            pk_count: 158,
            security: 42,
        }),
{
    Context {
        big_noise_width: 52,
        noise_width: 26,
        sk_width: 988,
        pk_width: 147456,
        pk_count: 158,
        security: 42,
    }
}

/// Parameters for small keys.
#[allow(non_snake_case)]
pub fn DGHV_CTX_SMALL() -> (r: Context)
    ensures
        r == (Context {
            big_noise_width: 82,
            noise_width: 41,
            sk_width: 1558,
            pk_width: 843033,
            pk_count: 572,
            security: 52,
        }),
{
    Context {
        big_noise_width: 82,
        noise_width: 41,
        sk_width: 1558,
        pk_width: 843033,
        pk_count: 572,
        security: 52,
    }
}

/// Parameters for medium-sized keys.
#[allow(non_snake_case)]
pub fn DGHV_CTX_MEDIUM() -> (r: Context)
    ensures
        r == (Context {
            big_noise_width: 112,
            noise_width: 56,
            sk_width: 2128,
            pk_width: 4251866,
            pk_count: 2110,
            security: 62,
        }),
{
    Context {
        big_noise_width: 112,
        noise_width: 56,
        sk_width: 2128,
        pk_width: 4251866,
        pk_count: 2110,
        security: 62,
    }
}

/// Parameters for large keys.
#[allow(non_snake_case)]
pub fn DGHV_CTX_LARGE() -> (r: Context)
    ensures
        r == (Context {
            big_noise_width: 142,
            noise_width: 71,
            sk_width: 2698,
            pk_width: 19575950,
            pk_count: 7659,
            security: 72,
        }),
{
    Context {
        big_noise_width: 142,
        noise_width: 71,
        sk_width: 2698,
        pk_width: 19575950,
        pk_count: 7659,
        security: 72,
    }
}

/// The context recommended for security level `lambda`: noise of `lambda`
/// bits and secondary noise of twice that, a secret key of
/// `lambda^2 + lambda` bits, public key integers of `lambda * eta^2` bits,
/// and `lambda + gamma` of them.
pub open spec fn recommended(lambda: u8) -> Context {
    let eta = lambda * lambda + lambda;
    let gamma = lambda * eta * eta;
    Context {
        security: lambda,
        sk_width: eta as u32,
        pk_width: gamma as u32,
        pk_count: (lambda + gamma) as u32,
        noise_width: lambda as u16,
        big_noise_width: (2 * lambda) as u16,
    }
}

impl Context {
    /// Creates the recommended context for a security level; none above
    /// the largest supported level.
    pub fn create(security: u8) -> (r: Option<Context>)
        ensures
            security > MAX_SECURITY ==> r is None,
            security <= MAX_SECURITY ==> r == Some(recommended(security)),
    {
        if security > MAX_SECURITY {
            return None;
        }
        let lambda: u8 = security;
        let rho: u16 = lambda as u16;
        let big_rho: u16 = 2 * (lambda as u16);
        let l: u32 = lambda as u32;
        assert(l * l + l <= 7140) by (nonlinear_arith)
            requires
                l <= 84,
        ;
        let eta: u32 = l * l + l;
        assert(l * eta <= 599760) by (nonlinear_arith)
            requires
                l <= 84,
                eta <= 7140,
        ;
        assert(l * eta * eta <= 4282286400) by (nonlinear_arith)
            requires
                l <= 84,
                eta == l * l + l,
        ;
        let gamma: u32 = l * eta * eta;
        let tau: u32 = l + gamma;
        Some(Context {
            security: lambda,
            sk_width: eta,
            pk_width: gamma,
            pk_count: tau,
            noise_width: rho,
            big_noise_width: big_rho,
        })
    }
}

} // verus!
