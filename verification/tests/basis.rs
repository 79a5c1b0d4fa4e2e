use qarrot_optimizer::basis::{
    Basis, Basis128, Basis16, Basis256, Basis32, Basis64, Basis8, BasisCore, BasisSize, DBasis,
    LARGEST_STATIC_BASIS,
};
use qarrot_optimizer::bits::bit_traits::{BitOps, RefAnd, RefOr, RefXor};
use std::fmt::Debug;

fn simple<B: Basis + PartialEq + Debug>(n: usize) {
    let mut b = B::zero(n);
    for i in 0..n {
        assert!(!b.get_bit(i));
    }
    assert_eq!(b.popcnt(), 0);
    assert!(b.is_zero());
    for i in 0..n / 2 {
        b.set_bit(i, true);
        assert_eq!(b.popcnt(), i + 1);
        assert!(b.get_bit(i));
        b.set_bit(i, false);
        assert!(!b.get_bit(i));
        b.set_bit_true(i);
    }
    assert!(!b.is_zero() || n < 2);
    assert_eq!(b.parity(), (n / 2) % 2 == 1);
    let all = B::one(n);
    assert_eq!(all.popcnt(), n);
    let rest = all.xor(&b);
    assert_eq!(rest.popcnt(), n - n / 2);
    assert_eq!(rest.and(&b).popcnt(), 0);
    assert_eq!(rest.or(&b), all);
    assert!(rest.or(&b).same(&all));
    let mut c = b.duplicate();
    c.xor_assign(&all);
    assert_eq!(c, rest);
    c.or_assign(&b);
    assert_eq!(c, all);
    c.and_assign(&b);
    assert_eq!(c, b);
    c.set_zero();
    assert_eq!(c, B::zero(n));
    if n > 0 {
        let k = n - 1;
        assert_eq!(B::one_bit(n, k), B::bit_k(n, k));
        assert_eq!(B::one_bit(n, k), B::with_true_bits(n, &[k]));
        assert_eq!(B::one_bit(n, k).popcnt(), 1);
        let mut d = B::zero(n);
        d.set_bit_true(k);
        assert_eq!(d, B::one_bit(n, k));
        d.set_bit_false(k);
        assert!(d.is_zero());
    }
    assert!(b.bit_capacity() >= n);
    assert_eq!(b.bit_capacity(), b._bit_capacity());
    b.assert_same_length(&all);
    let mut e = b.duplicate();
    e.bitxor_unchecked(&all);
    assert_eq!(e, rest);
    e.bitor_unchecked(&b);
    assert_eq!(e, all);
    e.bitand_unchecked(&b);
    assert_eq!(e, b);
}

#[test]
fn bases_of_every_width() {
    simple::<Basis8>(8);
    simple::<Basis8>(5);
    simple::<Basis16>(16);
    simple::<Basis32>(17);
    simple::<Basis64>(64);
    simple::<Basis128>(100);
    simple::<Basis256>(256);
    simple::<Basis256>(129);
    simple::<DBasis>(0);
    simple::<DBasis>(1);
    simple::<DBasis>(128);
    simple::<DBasis>(129);
    simple::<DBasis>(300);
}

#[test]
fn chunks_of_a_basis() {
    let mut d = DBasis::zero(300);
    assert_eq!(d.n_chunks(), 3);
    assert_eq!(d.len(), 300);
    d.set_bit_true(0);
    d.set_bit_true(129);
    assert_eq!(d.chunk(0), 1u128 << 127);
    assert_eq!(d.chunk(1), 1u128 << 126);
    assert_eq!(d.chunk(2), 0);
    let s = Basis16::one_bit(16, 15);
    assert_eq!(s.n_chunks(), 1);
    assert_eq!(s.chunk(0), 1);
    assert_eq!(Basis16::size_descriptor(), "static 16");
    assert_eq!(DBasis::size_descriptor(), "dynamic");
    assert_eq!(Basis8::default(), Basis8::zero(8));
}

#[test]
fn basis_size_is_the_narrowest_that_fits() {
    assert_eq!(BasisSize::from_size(0), BasisSize::Basis8);
    assert_eq!(BasisSize::from_size(8), BasisSize::Basis8);
    assert_eq!(BasisSize::from_size(9), BasisSize::Basis16);
    assert_eq!(BasisSize::from_size(16), BasisSize::Basis16);
    assert_eq!(BasisSize::from_size(17), BasisSize::Basis32);
    assert_eq!(BasisSize::from_size(33), BasisSize::Basis64);
    assert_eq!(BasisSize::from_size(65), BasisSize::Basis128);
    assert_eq!(BasisSize::from_size(129), BasisSize::Basis256);
    assert_eq!(BasisSize::from_size(256), BasisSize::Basis256);
    assert_eq!(BasisSize::from_size(257), BasisSize::BasisDyn);
    assert_eq!(BasisSize::Basis8.bits(), "8");
    assert_eq!(BasisSize::Basis128.bits(), "128");
    assert_eq!(BasisSize::BasisDyn.bits(), "dyn");
    assert_eq!(LARGEST_STATIC_BASIS, 256);
}

#[test]
fn fixed_bases_order_as_numbers() {
    assert!(Basis8::one_bit(8, 0) > Basis8::one_bit(8, 1));
    assert!(Basis8::zero(8) < Basis8::one_bit(8, 7));
}
