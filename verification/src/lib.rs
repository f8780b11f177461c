//! Kernels for computing on tensors that are encoded in rings and shared among hosts, and the
//! protocol by which the hosts exchange values.
//!
//! - [`array`] is the mathematical model of tensors, [`array_laws`] says what holds of their
//!   elements, and [`index`] is the arithmetic of their indices.
//! - [`ring`] has the tensors over the integers modulo 2^64 and 2^128, and [`host_ops`] the array
//!   arithmetic underneath.
//! - [`fixedpoint`] encodes real tensors in rings and takes means of them, [`fixedpoint_laws`]
//!   says what holds of that together, and [`ratio`] has exact fractions as the reals.
//! - [`kernels`] has the operations that replicated kernels are written in, [`kernel_laws`] says
//!   what they do to single elements, and [`replicated`] has the kernels.
//! - [`networking`] has the framing of values, the receiving side of a connection, and the setup of
//!   connections to the other hosts.
pub mod array;
pub mod array_laws;
pub mod error;
pub mod fixedpoint;
pub mod fixedpoint_laws;
pub mod host_ops;
pub mod index;
pub mod kernel_laws;
pub mod kernels;
pub mod networking;
pub mod placement;
pub mod ratio;
pub mod replicated;
pub mod ring;
pub mod types;
