//! Modular exponentiation on multi-limb unsigned integers.
//!
//! A number is a run of 64-bit limbs, least significant first; [`limb`] says
//! what number a run stands for. The entry points are [`modpow::modpow`],
//! which reduces by division, and [`modpow::modpow_by_montgomery`], which
//! reduces by Montgomery's method. Both run one fixed-window driver over a
//! table of the base's first 128 powers, which lives in a scratch arena
//! ([`mem`]) for the length of the call.
//!
//! The limb routines return their results in buffers of their own, so no
//! result overlaps an operand. The accumulator of the exponentiation is the
//! one buffer that is handed in and changed in place.

pub mod limb;
pub mod mem;
pub mod addsub;
pub mod mul;
pub mod base;
pub mod div;
pub mod montgomery;
pub mod power;
pub mod modpow;
pub mod form;
