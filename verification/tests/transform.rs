use radix_2_dit::field::{Field, TwoAdicField};
use radix_2_dit::goldilocks::{Goldilocks, ORDER};
use radix_2_dit::matrix::{BitReversedMatrixView, RowMajorMatrix};
use radix_2_dit::radix_2_dit_parallel::{coset_dft, coset_dft_oop, Radix2DitParallel};

fn times(a: u64, b: u64) -> u64 {
    ((a as u128 * b as u128) % ORDER as u128) as u64
}

fn plus(a: u64, b: u64) -> u64 {
    ((a as u128 + b as u128) % ORDER as u128) as u64
}

fn power(x: u64, e: usize) -> u64 {
    (0..e).fold(1, |p, _| times(p, x))
}

/// The value of a polynomial, by Horner's rule.
fn value_at(coeffs: &[u64], x: u64) -> u64 {
    coeffs.iter().rev().fold(0, |v, c| plus(times(v, x), *c))
}

fn generator(bits: usize) -> u64 {
    Goldilocks::two_adic_generator(bits).as_canonical_u64()
}

/// Some numbers without a pattern.
fn numbers(n: usize, seed: u64) -> Vec<u64> {
    let mut x = seed;
    (0..n)
        .map(|_| {
            x = x.wrapping_mul(6364136223846793005).wrapping_add(1442695040888963407);
            (x >> 3) % ORDER
        })
        .collect()
}

fn matrix(rows: &[Vec<u64>]) -> RowMajorMatrix<Goldilocks> {
    let width = rows[0].len();
    let values = rows.iter().flatten().map(|x| Goldilocks::new(*x)).collect();
    RowMajorMatrix::new(values, width)
}

fn from_columns(columns: &[Vec<u64>]) -> RowMajorMatrix<Goldilocks> {
    let rows: Vec<Vec<u64>> = (0..columns[0].len())
        .map(|r| columns.iter().map(|c| c[r]).collect())
        .collect();
    matrix(&rows)
}

fn column(view: &BitReversedMatrixView<Goldilocks>, c: usize) -> Vec<u64> {
    (0..view.height()).map(|r| view.get(r, c).as_canonical_u64()).collect()
}

fn naive_dft(coeffs: &[u64]) -> Vec<u64> {
    let n = coeffs.len();
    let g = generator(n.trailing_zeros() as usize);
    let mut x = 1;
    (0..n)
        .map(|_| {
            let v = value_at(coeffs, x);
            x = times(x, g);
            v
        })
        .collect()
}

fn naive_on_coset(coeffs: &[u64], bits: usize, shift: u64) -> Vec<u64> {
    let g = generator(bits);
    let mut x = shift;
    (0..1usize << bits)
        .map(|_| {
            let v = value_at(coeffs, x);
            x = times(x, g);
            v
        })
        .collect()
}

#[test]
fn two_rows() {
    let dft = Radix2DitParallel::default();
    let result = dft.dft_batch(matrix(&[vec![3], vec![5]]));
    assert_eq!(result.height(), 2);
    assert_eq!(result.width(), 1);
    assert_eq!(column(&result, 0), vec![8, ORDER - 2]);
}

#[test]
fn four_rows() {
    let dft = Radix2DitParallel::default();
    let result = dft.dft_batch(matrix(&[vec![1], vec![2], vec![3], vec![4]]));
    assert_eq!(
        column(&result, 0),
        vec![10, 0xfffdfffeffffffff, ORDER - 2, 0x0001fffffffffffe]
    );
}

#[test]
fn rows_are_stored_in_bit_reversed_order() {
    let dft = Radix2DitParallel::default();
    let coeffs = numbers(8, 5);
    let expected = naive_dft(&coeffs);
    let result = dft.dft_batch(from_columns(&[coeffs]));
    let stored = result.bit_reverse_rows();
    let order = [0usize, 4, 2, 6, 1, 5, 3, 7];
    for (r, i) in order.iter().enumerate() {
        assert_eq!(stored.values[r].as_canonical_u64(), expected[*i]);
    }
}

#[test]
fn one_row_is_unchanged() {
    let dft = Radix2DitParallel::default();
    let result = dft.dft_batch(matrix(&[vec![7, 8, 9]]));
    assert_eq!(result.height(), 1);
    assert_eq!(column(&result, 0), vec![7]);
    assert_eq!(column(&result, 1), vec![8]);
    assert_eq!(column(&result, 2), vec![9]);
}

#[test]
fn transforms_evaluate_polynomials() {
    let dft = Radix2DitParallel::default();
    for log_h in 0..10 {
        for width in [1, 2, 5] {
            let columns: Vec<Vec<u64>> =
                (0..width).map(|c| numbers(1 << log_h, 17 * c + log_h + 1)).collect();
            let result = dft.dft_batch(from_columns(&columns));
            for (c, coeffs) in columns.iter().enumerate() {
                assert_eq!(column(&result, c), naive_dft(coeffs));
            }
        }
    }
}

#[test]
fn extension_of_two_values() {
    // The polynomial 3 + 5 * x on the coset of 7.
    let dft = Radix2DitParallel::default();
    let evals = matrix(&[vec![8], vec![ORDER - 2]]);
    let result = dft.coset_lde_batch(evals, 1, Goldilocks::new(7));
    let expected = vec![38, 9851624184872963, ORDER - 32, 18436892445229711364];
    assert_eq!(result.height(), 4);
    assert_eq!(column(&result, 0), expected);
}

#[test]
fn extension_of_one_row_is_constant() {
    let dft = Radix2DitParallel::default();
    let result = dft.coset_lde_batch(matrix(&[vec![11, 12]]), 3, Goldilocks::new(7));
    assert_eq!(result.height(), 8);
    assert_eq!(column(&result, 0), vec![11; 8]);
    assert_eq!(column(&result, 1), vec![12; 8]);
}

#[test]
fn extensions_keep_the_polynomial() {
    let dft = Radix2DitParallel::default();
    for log_h in 0..8 {
        for added_bits in 0..4 {
            for shift in [1, 7, ORDER - 3] {
                let columns: Vec<Vec<u64>> =
                    (0..3).map(|c| numbers(1 << log_h, 31 * c + log_h + shift)).collect();
                let evals: Vec<Vec<u64>> = columns.iter().map(|c| naive_dft(c)).collect();
                let result = dft.coset_lde_batch(
                    from_columns(&evals),
                    added_bits,
                    Goldilocks::new(shift),
                );
                assert_eq!(result.width(), 3);
                for (c, coeffs) in columns.iter().enumerate() {
                    let expected = naive_on_coset(coeffs, log_h as usize + added_bits, shift);
                    assert_eq!(column(&result, c), expected);
                }
            }
        }
    }
}

#[test]
fn inverse_transform_undoes_transform() {
    // The transform of the extension to the same points, with the roles of values and
    // coefficients exchanged twice, is where it started.
    let dft = Radix2DitParallel::default();
    let coeffs = numbers(16, 3);
    let evals = column(&dft.dft_batch(from_columns(&[coeffs.clone()])), 0);
    let shift = 5;
    let on_coset = column(
        &dft.coset_lde_batch(from_columns(&[evals]), 0, Goldilocks::new(shift)),
        0,
    );
    // On the coset, the coefficients are those of the polynomial times powers of the shift.
    let scaled: Vec<u64> =
        coeffs.iter().enumerate().map(|(i, c)| times(*c, power(shift, i))).collect();
    assert_eq!(on_coset, column(&dft.dft_batch(from_columns(&[scaled])), 0));
}

#[test]
fn extension_without_shift_contains_the_values() {
    let dft = Radix2DitParallel::default();
    let evals = numbers(8, 9);
    let result = dft.coset_lde_batch(from_columns(&[evals.clone()]), 2, Goldilocks::one());
    let extended = column(&result, 0);
    assert_eq!(extended.len(), 32);
    for (i, v) in evals.iter().enumerate() {
        assert_eq!(extended[4 * i], *v);
    }
}

#[test]
fn trivial_extension_changes_nothing() {
    let dft = Radix2DitParallel::default();
    let evals = numbers(32, 10);
    let result = dft.coset_lde_batch(from_columns(&[evals.clone()]), 0, Goldilocks::one());
    assert_eq!(column(&result, 0), evals);
}

#[test]
fn a_shift_is_undone_by_its_inverse() {
    let dft = Radix2DitParallel::default();
    let evals = numbers(16, 61);
    let shift = Goldilocks::new(5);
    let there = column(&dft.coset_lde_batch(from_columns(&[evals.clone()]), 0, shift), 0);
    assert_ne!(there, evals);
    let back = shift.try_inverse().unwrap();
    assert_eq!(column(&dft.coset_lde_batch(from_columns(&[there]), 0, back), 0), evals);
}

#[test]
fn transforms_are_linear() {
    let dft = Radix2DitParallel::default();
    let (a, b, t) = (numbers(16, 21), numbers(16, 22), 12345);
    let sum: Vec<u64> = a.iter().zip(&b).map(|(x, y)| plus(*x, times(*y, t))).collect();
    let result = dft.dft_batch(from_columns(&[a.clone(), b.clone(), sum.clone()]));
    let extension =
        dft.coset_lde_batch(from_columns(&[a, b, sum]), 1, Goldilocks::new(7));
    for view in [result, extension] {
        let (a, b, sum) = (column(&view, 0), column(&view, 1), column(&view, 2));
        for i in 0..sum.len() {
            assert_eq!(sum[i], plus(a[i], times(b[i], t)));
        }
    }
}

#[test]
fn kept_twiddle_factors_give_the_same_results() {
    let dft = Radix2DitParallel::default();
    let shared = dft.clone();
    let columns = [numbers(64, 41)];
    let first = column(&dft.dft_batch(from_columns(&columns)), 0);
    assert_eq!(column(&dft.dft_batch(from_columns(&columns)), 0), first);
    assert_eq!(column(&shared.dft_batch(from_columns(&columns)), 0), first);
    for shift in [7, 7 + ORDER, 9, 7] {
        let fresh = Radix2DitParallel::default();
        let shift = Goldilocks::new(shift % ORDER);
        let kept = column(&dft.coset_lde_batch(from_columns(&columns), 1, shift), 0);
        assert_eq!(kept, column(&fresh.coset_lde_batch(from_columns(&columns), 1, shift), 0));
        assert_eq!(kept, column(&shared.coset_lde_batch(from_columns(&columns), 1, shift), 0));
    }
}

#[test]
fn shifts_with_the_same_value_are_the_same_shift() {
    let dft = Radix2DitParallel::default();
    let columns = [numbers(8, 43)];
    let a = dft.coset_lde_batch(from_columns(&columns), 1, Goldilocks::new(5));
    let b = dft.coset_lde_batch(from_columns(&columns), 1, Goldilocks::new(ORDER + 5));
    assert_eq!(column(&a, 0), column(&b, 0));
}

/// The index whose bits are those of `i` in reverse order.
fn reversed(i: usize, bits: usize) -> usize {
    (0..bits).fold(0, |r, b| 2 * r + (i >> b) % 2)
}

#[test]
fn coset_transforms_evaluate_polynomials() {
    // The polynomials 3 + 5 * x and 4 + 6 * x at 7 and -7.
    let dft = Radix2DitParallel::default();
    let mut values = matrix(&[vec![3, 4], vec![5, 6]]).values;
    coset_dft(&dft, &mut values, 2, Goldilocks::new(7));
    let values: Vec<u64> = values.iter().map(|x| x.as_canonical_u64()).collect();
    assert_eq!(values, vec![38, 46, ORDER - 32, ORDER - 38]);
}

#[test]
fn coset_transforms_out_of_place_are_those_in_place() {
    let dft = Radix2DitParallel::default();
    for bits in 0..9 {
        for shift in [1, 7, ORDER - 3] {
            let height = 1usize << bits;
            let columns = [numbers(height, 81 + bits as u64), numbers(height, 82 + shift)];
            let rows: Vec<Vec<u64>> = (0..height)
                .map(|r| columns.iter().map(|c| c[reversed(r, bits)]).collect())
                .collect();
            let src = matrix(&rows).values;
            let mut in_place = src.clone();
            coset_dft(&dft, &mut in_place, 2, Goldilocks::new(shift));
            for filler in [0, 99] {
                let mut dst = vec![Goldilocks::new(filler); 2 * height];
                coset_dft_oop(&dft, &src, &mut dst, 2, Goldilocks::new(shift));
                for i in 0..2 * height {
                    assert_eq!(dst[i].as_canonical_u64(), in_place[i].as_canonical_u64());
                }
            }
            assert_eq!(
                src.iter().map(|x| x.as_canonical_u64()).collect::<Vec<u64>>(),
                rows.concat()
            );
            for (c, coeffs) in columns.iter().enumerate() {
                let expected = naive_on_coset(coeffs, bits, shift);
                for r in 0..height {
                    assert_eq!(
                        in_place[2 * r + c].as_canonical_u64(),
                        expected[reversed(r, bits)]
                    );
                }
            }
        }
    }
}

#[test]
fn columns_do_not_depend_on_each_other() {
    let dft = Radix2DitParallel::default();
    let (a, b) = (numbers(128, 51), numbers(128, 52));
    let together = dft.dft_batch(from_columns(&[a.clone(), b.clone()]));
    assert_eq!(column(&together, 0), column(&dft.dft_batch(from_columns(&[a])), 0));
    assert_eq!(column(&together, 1), column(&dft.dft_batch(from_columns(&[b])), 0));
}

#[test]
fn large_transforms() {
    let dft = Radix2DitParallel::default();
    let log_h = 15;
    let coeffs = numbers(1 << log_h, 71);
    let result = dft.dft_batch(from_columns(&[coeffs.clone()]));
    let g = generator(log_h);
    for i in [0, 1, 2, 1000, 16384, 32767] {
        let expected = value_at(&coeffs, power(g, i));
        assert_eq!(result.get(i, 0).as_canonical_u64(), expected);
    }
    let evals = column(&result, 0);
    let extended = dft.coset_lde_batch(from_columns(&[evals]), 1, Goldilocks::new(7));
    let g = generator(log_h + 1);
    for i in [0, 1, 2, 1001, 32768, 65535] {
        let expected = value_at(&coeffs, times(7, power(g, i)));
        assert_eq!(extended.get(i, 0).as_canonical_u64(), expected);
    }
}
