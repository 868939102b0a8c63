//! A radix-2 decimation-in-time discrete Fourier transform over two-adic fields.
//!
//! [`radix_2_dit_parallel::Radix2DitParallel`] transforms the columns of a matrix, and extends them
//! from a group of roots of unity to a larger coset. What it computes is stated in [`transform`],
//! and [`laws`] says how these functions are related. What this means for the entries of a matrix
//! as they are stored is said in [`entries`].
//!
//! The layers of the butterfly network are in [`layers`] and [`fused`]. Its two halves are in
//! [`halves`]: with any twiddle factors, each is the composition of its layers, as stated in
//! [`composition`]. That these evaluate polynomials where the twiddle factors are powers of points
//! is shown in [`network`] and [`evaluation`], and what single layers do to single entries in
//! [`steps`].

pub mod algebra;
pub mod bits;
pub mod butterflies;
pub mod chunks;
pub mod composition;
pub mod entries;
pub mod evaluation;
pub mod field;
pub mod fused;
pub mod goldilocks;
pub mod halves;
pub mod integers;
pub mod laws;
pub mod layers;
mod lock;
pub mod matrix;
pub mod network;
pub mod points;
pub mod polynomial;
mod powers;
pub mod radix_2_dit_parallel;
pub mod steps;
pub mod transform;
pub mod twiddles;
