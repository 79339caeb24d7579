use galois_field::galois::Galois;
use galois_field::matrix::Matrix;
use galois_field::unsigned::Unsigned;

fn byte_field() -> Galois<u16> {
    Galois::irr_poly(0x100, 0x11B)
}

/// Plain carry-less product, with no reduction.
fn clmul(a: u64, b: u64) -> u64 {
    let mut p = 0u64;
    for i in 0..64 {
        if (a >> i) & 1 == 1 {
            p ^= b << i;
        }
    }
    p
}

fn lead(a: u64) -> u32 {
    64 - a.leading_zeros()
}

#[test]
fn known_inverse_pair_multiplies_to_one() {
    let f = byte_field();
    assert_eq!(f.mul(0x53, 0xCA), 0x01);
    assert_eq!(f.mul(0xCA, 0x53), 0x01);
}

#[test]
fn known_product_with_reduction() {
    let f = byte_field();
    assert_eq!(f.mul(0x57, 0x83), 0xC1);
    assert_eq!(f.mul(2, 0x80), 0x1B);
}

#[test]
fn product_below_order_is_not_reduced() {
    let f = byte_field();
    assert_eq!(f.mul(2, 3), 6);
    assert_eq!(f.mul(0x10, 0x08), 0x80);
}

#[test]
fn identities_hold_for_every_byte() {
    let f = byte_field();
    for a in 0u16..0x100 {
        assert_eq!(f.add(a, a), 0);
        assert_eq!(f.add(a, 0), a);
        assert_eq!(f.mul(a, 1), a);
        assert_eq!(f.mul(a, 0), 0);
    }
}

#[test]
fn add_and_mul_commute() {
    let f = byte_field();
    for a in (0u16..0x100).step_by(7) {
        for b in (0u16..0x100).step_by(5) {
            assert_eq!(f.add(a, b), f.add(b, a));
            assert_eq!(f.mul(a, b), f.mul(b, a));
        }
    }
}

#[test]
fn add_is_exclusive_or() {
    let f = byte_field();
    assert_eq!(f.add(0x53, 0xCA), 0x99);
}

#[test]
fn division_reconstructs_the_dividend() {
    let f = byte_field();
    let cases: [(u16, u16); 7] = [
        (0x1234, 0x11B),
        (0xFFFF, 0x11B),
        (0x8000, 3),
        (0xABCD, 0x1),
        (0x53, 0x53),
        (0x7, 0x2),
        (0x100, 0x11B),
    ];
    for (a, b) in cases {
        let (q, r) = f.div(a, b);
        assert!(lead(r as u64) < lead(b as u64));
        assert_eq!(clmul(q as u64, b as u64) ^ r as u64, a as u64);
    }
}

#[test]
fn division_exact_values() {
    let f = byte_field();
    assert_eq!(f.div(0x1234, 0x11B), (19, 169));
    assert_eq!(f.div(4, 2), (2, 0));
    assert_eq!(f.div(6, 3), (2, 0));
}

#[test]
fn division_by_higher_degree_returns_dividend() {
    let f = byte_field();
    assert_eq!(f.div(5, 0x11B), (0, 5));
    assert_eq!(f.div(0, 7), (0, 0));
}

#[test]
fn inverse_of_small_elements() {
    let f = byte_field();
    assert_eq!(f.inv(1), 1);
    assert_eq!(f.inv(2), 0x8D);
    assert_eq!(f.inv(3), 0xF6);
    for a in [1u16, 2, 3, 4, 5, 6, 7, 8, 9, 10] {
        assert_eq!(f.mul(a, f.inv(a)), 1);
    }
}

#[test]
fn inverse_iteration_stops_after_its_step_limit() {
    // The Euclidean iteration is cut off before it reaches 0x53's inverse.
    let f = byte_field();
    assert_eq!(f.inv(0x53), 0x45);
    assert_ne!(f.mul(0x53, f.inv(0x53)), 1);
}

#[test]
fn inverse_of_zero_is_zero() {
    let f = byte_field();
    assert_eq!(f.inv(0), 0);
}

fn solved_pair() -> Matrix<u16> {
    let f = byte_field();
    let mut m = Matrix::from(&[1u16, 2, 3, 4, 5, 6], 2, 3);
    f.solve_linear(&mut m);
    m
}

#[test]
fn solver_finds_known_roots() {
    let f = byte_field();
    let m = solved_pair();
    assert_eq!((m.get(0, 0), m.get(0, 1)), (1, 0));
    assert_eq!((m.get(1, 0), m.get(1, 1)), (0, 1));
    let (x0, x1) = (m.get(0, 2), m.get(1, 2));
    assert_eq!((x0, x1), (56, 144));
    assert_eq!(f.add(f.mul(1, x0), f.mul(2, x1)), 3);
    assert_eq!(f.add(f.mul(4, x0), f.mul(5, x1)), 6);
}

#[test]
fn solving_a_solved_system_changes_nothing() {
    let f = byte_field();
    let mut m = solved_pair();
    f.solve_linear(&mut m);
    let mut got = Vec::new();
    for i in 0..2 {
        for j in 0..3 {
            got.push(m.get(i, j));
        }
    }
    assert_eq!(got, vec![1, 0, 56, 0, 1, 144]);
}

#[test]
fn solver_on_single_equation() {
    let f = byte_field();
    let mut m = Matrix::from(&[2u16, 1], 1, 2);
    f.solve_linear(&mut m);
    assert_eq!(m.get(0, 0), 1);
    assert_eq!(m.get(0, 1), 0x8D);
}

#[test]
fn solver_on_three_unknowns() {
    let f = byte_field();
    let coeffs: [[u16; 3]; 3] = [[1, 1, 1], [1, 2, 4], [1, 3, 5]];
    let xs: [u16; 3] = [0x11, 0x22, 0x33];
    let mut buf = Vec::new();
    for row in coeffs.iter() {
        let mut rhs = 0;
        for (c, x) in row.iter().zip(xs.iter()) {
            rhs = f.add(rhs, f.mul(*c, *x));
        }
        buf.extend_from_slice(row);
        buf.push(rhs);
    }
    let mut m = Matrix::from(&buf, 3, 4);
    f.solve_linear(&mut m);
    for i in 0..3 {
        for j in 0..3 {
            assert_eq!(m.get(i, j), if i == j { 1 } else { 0 });
        }
        assert_eq!(m.get(i, 3), xs[i]);
    }
}

#[test]
fn matrix_dimensions_and_entries() {
    let mut m = Matrix::from(&[1u8, 2, 3, 4, 5, 6], 2, 3);
    assert_eq!(m.row(), 2);
    assert_eq!(m.col(), 3);
    assert_eq!(m.get(1, 0), 4);
    m.set(1, 0, 9);
    assert_eq!(m.get(1, 0), 9);
    assert_eq!(m.get(0, 2), 3);
}

#[test]
fn small_field_in_bytes() {
    let f: Galois<u8> = Galois::irr_poly(16, 0x13);
    assert_eq!(f.mul(7, 9), 0xA);
    assert_eq!(f.mul(0xF, 0xF), 0xA);
    assert_eq!(f.mul(3, 7), 9);
    assert_eq!(f.inv(2), 9);
    assert_eq!(f.div(0xAB, 3), (102, 1));
}

#[test]
fn wide_fields() {
    let f32: Galois<u32> = Galois::irr_poly(0x10000, 0x1002B);
    assert_eq!(f32.mul(0x1234, 0x5678), 0x19A7);
    assert_eq!(f32.mul(2, 0x8000), 0x2B);
    assert_eq!(f32.mul(2, f32.inv(2)), 1);
    let f64: Galois<u64> = Galois::irr_poly(1 << 32, 0x1_0000_00AF);
    assert_eq!(f64.mul(0xDEADBEEF, 0x12345678), 0x30EB793D);
    assert_eq!(f64.inv(2), 0x8000_0057);
}

#[test]
fn element_capabilities() {
    assert!(0b1010u8.isset(1));
    assert!(!0b1010u8.isset(2));
    assert_eq!(0u16.lmb_pos(), 0);
    assert_eq!(1u32.lmb_pos(), 1);
    assert_eq!(0x80u8.lmb_pos(), 8);
    assert_eq!(u64::MAX.lmb_pos(), 64);
    assert_eq!(<u16 as Unsigned>::one(), 1);
    assert_eq!(<u64 as Unsigned>::zero(), 0);
}
