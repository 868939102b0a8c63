# radix_2_dit

A radix-2 decimation-in-time discrete Fourier transform over two-adic fields, with its proof.

`Radix2DitParallel` transforms the columns of a matrix (`dft_batch`), and extends columns of values
from a group of roots of unity to a coset of a larger one (`coset_lde_batch`). Its contracts say
that the results are the values of polynomials at the points of these groups and cosets; the
functions that they use for it are in `src/transform.rs`, and the laws that relate these functions
are in `src/laws.rs`.

The network is divided into two halves. The first works on small blocks of rows; then the rows are
put in bit-reversed order, and the second half again works on small blocks. Twiddle factors are
kept in caches whose entries are proved to belong to their keys, to be there once and to stay.

Layout:

- `src/field.rs`: what is required of a field, and what every field promises. `src/goldilocks.rs`
  implements it with the arithmetic of the `p3-goldilocks` crate.
- `src/algebra.rs`, `src/polynomial.rs`, `src/points.rs`, `src/bits.rs`, `src/integers.rs`: sums,
  powers, polynomials, points, reversed indices and powers of two.
- `src/matrix.rs`, `src/chunks.rs`: matrices stored row by row, and work on chunks of rows.
- `src/butterflies.rs`, `src/layers.rs`, `src/fused.rs`, `src/halves.rs`: the network.
- `src/composition.rs`: layers that are run one after another, on all rows or chunk by chunk.
- `src/network.rs`, `src/evaluation.rs`: what the halves of the network compute where the twiddle
  factors are powers of points.
- `src/powers.rs`, `src/lock.rs`, `src/twiddles.rs`: twiddle factors and their caches.
- `src/radix_2_dit_parallel.rs`: the transforms.
- `app/`: the transforms for matrices of the `p3-matrix` crate.
