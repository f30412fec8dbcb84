//! An interactive number-guessing session, specified and verified: a secret
//! in [1, 100] is drawn once, lines of input are trimmed and parsed as
//! decimal guesses, and each valid guess is answered with a three-way
//! verdict until the secret is hit.

pub mod parse;
pub mod rng;
pub mod session;
