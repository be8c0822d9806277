use rand::distributions::Alphanumeric;
use rand::Rng;
use vstd::prelude::*;

verus! {

/// How the world's edges behave.
#[derive(Clone, Copy, Debug, PartialEq, Eq, Structural)]
pub enum ParticleWrapping {
    /// A bounded plane: particles are clamped at the edges and nothing is
    /// seen across them.
    Barrier,
    /// A torus: each edge is joined to the opposite one.
    Wrap,
}

/// The length of a freshly drawn seed string.
pub const SEED_LENGTH: usize = 16;

/// `c` is an ASCII letter or digit.
pub open spec fn is_alphanumeric(c: char) -> bool {
    ('A' <= c && c <= 'Z') || ('a' <= c && c <= 'z') || ('0' <= c && c <= '9')
}

/// Relies on `rand::thread_rng` sampled through
/// `rand::distributions::Alphanumeric`: `len` characters, each one of
/// `A-Z`, `a-z` and `0-9`.
#[verifier::external_body]
fn alphanumeric_string(len: usize) -> (r: String)
    ensures
        r@.len() == len,
        forall|i: int| 0 <= i < len ==> is_alphanumeric(#[trigger] r@[i]),
{
    rand::thread_rng().sample_iter(&Alphanumeric).take(len).map(char::from).collect()
}

/// A fresh random seed string of letters and digits.
pub fn random_seed() -> (r: String)
    ensures
        r@.len() == SEED_LENGTH,
        forall|i: int| 0 <= i < SEED_LENGTH ==> is_alphanumeric(#[trigger] r@[i]),
{
    alphanumeric_string(SEED_LENGTH)
}

} // verus!
