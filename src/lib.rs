//! Unauthenticated Diffie-Hellman key exchange: number-theoretic primitives,
//! the handshake wire codec and the two handshake state machines.
//!
//! Big integers come from `num-bigint`; every computation over them that the
//! library performs is stated over the mathematical value of the number.

pub mod bignum;
pub mod crypto;
pub mod codec;
pub mod handshake;
pub mod primality;
