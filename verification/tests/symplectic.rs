use qarrot_optimizer::basis::{
    Basis, Basis128, Basis16, Basis32, Basis64, Basis8, DBasis,
};
use qarrot_optimizer::symplectic::Symplectic;
use std::fmt::Debug;

fn multiplication<B: Basis + PartialEq + Debug>(qbits: usize, spread: usize) {
    // XZIIXXZZ
    let test_1 = Symplectic::<B>::from_indexes(
        qbits,
        false,
        &[0 * spread, 4 * spread, 5 * spread],
        &[1 * spread, 6 * spread, 7 * spread],
    );
    // IIXZXZXZ
    let test_2 = Symplectic::<B>::from_indexes(
        qbits,
        false,
        &[2 * spread, 4 * spread, 6 * spread],
        &[3 * spread, 5 * spread, 7 * spread],
    );

    if !test_1.commutes_with(&test_2) {
        let res = test_1.mul(&test_2);
        assert_eq!(res, Symplectic::from_indexes(8, false, &[0, 2, 5, 6], &[1, 3, 5, 6]));
    }
}

#[test]
fn test_multiplication_8() {
    multiplication::<Basis8>(8, 1);
}

#[test]
fn test_multiplication_16() {
    multiplication::<Basis16>(16, 2);
}

#[test]
fn test_multiplication_32() {
    multiplication::<Basis32>(32, 4);
}

#[test]
fn test_multiplication_64() {
    multiplication::<Basis64>(64, 8);
}

#[test]
fn test_multiplication_128() {
    multiplication::<Basis128>(128, 16);
}

fn pauli<B: Basis>(n: usize, text: &str) -> Symplectic<B> {
    let mut x = Vec::new();
    let mut z = Vec::new();
    let (sign, letters) = match text.strip_prefix('-') {
        Some(rest) => (true, rest),
        None => (false, text),
    };
    for (i, ch) in letters.chars().enumerate() {
        if ch == 'X' || ch == 'Y' {
            x.push(i);
        }
        if ch == 'Z' || ch == 'Y' {
            z.push(i);
        }
    }
    Symplectic::from_indexes(n, sign, &x, &z)
}

#[test]
fn x_times_z_and_z_times_x_differ_by_the_sign() {
    let x = pauli::<Basis8>(1, "X");
    let z = pauli::<Basis8>(1, "Z");
    assert!(!x.commutes_with(&z));
    assert!(!z.commutes_with(&x));
    let xz = x.mul(&z);
    let zx = z.mul(&x);
    assert_eq!(xz.x, zx.x);
    assert_eq!(xz.z, zx.z);
    assert_ne!(xz.sign, zx.sign);
    assert_eq!(xz.count_i(), 1);
    assert!(!xz.sign);
    assert!(zx.sign);
}

#[test]
fn commutation_counts_the_anticommuting_qubits() {
    let a = pauli::<Basis8>(3, "XXI");
    let b = pauli::<Basis8>(3, "ZZI");
    let c = pauli::<Basis8>(3, "ZII");
    assert!(a.commutes_with(&b));
    assert!(b.commutes_with(&a));
    assert!(!a.commutes_with(&c));
    assert!(!c.commutes_with(&a));
    assert!(a.commutes_with(&a));
}

#[test]
fn count_i_counts_the_y_factors() {
    assert_eq!(pauli::<Basis16>(5, "XYZYI").count_i(), 2);
    assert_eq!(pauli::<DBasis>(300, "IIYIY").count_i(), 2);
    let mut p = pauli::<Basis16>(5, "-XYZYI");
    assert!(p.sign);
    p.set_zero();
    assert_eq!(p, Symplectic::zero(5));
}

#[test]
fn from_bitstring_reads_ones() {
    let p = Symplectic::<Basis16>::from_bitstring(9, 1, "1000000010000000", "1001000000000000");
    assert!(p.sign);
    assert!(p.x.get_bit(0));
    assert!(p.x.get_bit(8));
    assert!(!p.x.get_bit(1));
    assert!(p.z.get_bit(0));
    assert!(p.z.get_bit(3));
    assert_eq!(p.x.popcnt(), 2);
    assert_eq!(p.z.popcnt(), 2);
    let q = Symplectic::<Basis16>::from_bitstring(9, 0, "0000000000000000", "0000000000000000");
    assert_eq!(q, Symplectic::zero(9));
}

#[test]
fn xor_assign_and_same() {
    let mut a = pauli::<Basis8>(3, "XZI");
    let b = pauli::<Basis8>(3, "-XXI");
    a.xor_assign(&b);
    assert!(a.same(&pauli::<Basis8>(3, "-IYI")));
    assert!(!a.same(&b));
    assert!(a.duplicate().same(&a));
}

#[test]
fn the_two_products_of_a_pair_differ_by_the_sign_unless_it_commutes() {
    let letters = ["I", "X", "Y", "Z"];
    for a in 0..64usize {
        for b in 0..64usize {
            let text = |v: usize| {
                format!("{}{}{}", letters[v % 4], letters[(v / 4) % 4], letters[(v / 16) % 4])
            };
            let p = pauli::<Basis8>(3, &text(a));
            let q = pauli::<Basis8>(3, &text(b));
            assert_eq!(p.commutes_with(&q), q.commutes_with(&p));
            let pq = p.mul(&q);
            let qp = q.mul(&p);
            assert_eq!(pq.x, qp.x);
            assert_eq!(pq.z, qp.z);
            assert_eq!(pq.sign == qp.sign, p.commutes_with(&q));
            let mut both = p.clone();
            both.xor_assign(&q);
            let sum = both.count_i() + p.count_i() + q.count_i();
            assert_eq!(sum % 2 == 0, p.commutes_with(&q));
        }
    }
}

#[test]
fn the_product_of_a_string_with_itself_holds_no_factor() {
    let p = pauli::<Basis8>(4, "-XZIX");
    assert_eq!(p.mul(&p), Symplectic::zero(4));
    let q = pauli::<Basis8>(4, "XZIX");
    assert_eq!(q.mul(&q), Symplectic::zero(4));
    assert_eq!(q.mul(&p), pauli::<Basis8>(4, "-IIII"));
    let y = pauli::<Basis8>(4, "XYIX");
    assert_eq!(y.mul(&y), pauli::<Basis8>(4, "-IIII"));
    assert_eq!(y.mul(&pauli::<Basis8>(4, "-XYIX")), Symplectic::zero(4));
}
