use qarrot_optimizer::bits::b256::clamping_sub;
use qarrot_optimizer::bits::bit_traits::{BitOps, BitSeq, LNeg, RefAnd, RefOr, RefXor};
use qarrot_optimizer::bits::{chunk_bit, n_chunks, Bits, Bits256};
use std::fmt::Debug;

#[test]
fn test_hi_bit() {
    assert_eq!(Bits256::bit_k(255), Bits256::one());
    assert_eq!(<u128 as Bits>::bit_k(127), 1);
    assert_eq!(<u64 as Bits>::bit_k(63), 1);
    assert_eq!(<u32 as Bits>::bit_k(31), 1);
    assert_eq!(<u16 as Bits>::bit_k(15), 1);
    assert_eq!(<u8 as Bits>::bit_k(7), 1);
}

#[test]
fn test_lo_bit() {
    assert_eq!(<u128 as Bits>::bit_k(0), 2u128.pow(127));
    assert_eq!(<u64 as Bits>::bit_k(0), 2u64.pow(63));
    assert_eq!(<u32 as Bits>::bit_k(0), 2u32.pow(31));
    assert_eq!(<u16 as Bits>::bit_k(0), 2u16.pow(15));
    assert_eq!(<u8 as Bits>::bit_k(0), 2u8.pow(7));
}

fn all_bits<T: Bits>() -> T {
    let mut res = T::zero();
    for i in 0..T::BITS {
        res.or_assign(&T::bit_k(i));
    }
    res
}

#[test]
fn test_all_bits() {
    assert_eq!(all_bits::<Bits256>(), Bits256::max_value());
    assert_eq!(all_bits::<u128>(), u128::MAX);
    assert_eq!(all_bits::<u64>(), u64::MAX);
    assert_eq!(all_bits::<u32>(), u32::MAX);
    assert_eq!(all_bits::<u16>(), u16::MAX);
    assert_eq!(all_bits::<u8>(), u8::MAX);
}

#[test]
fn test_mask_first_k() {
    let b = <u8 as Bits>::mask_first_k(3);
    assert_eq!(b, 0b11100000);
    assert_eq!(b.popcnt(), 3);
}

#[test]
fn test_parity_u8() {
    for byte in u8::MIN..=u8::MAX {
        let expected_parity = (byte.count_ones() % 2) != 0;
        assert_eq!(byte.parity(), expected_parity);
    }
}

#[test]
fn test_parity_u16() {
    for byte in u16::MIN..=u16::MAX {
        let expected_parity = (byte.count_ones() % 2) != 0;
        assert_eq!(byte.parity(), expected_parity);
    }
}

fn first_k<B: Bits>() {
    for k in 0..B::BITS {
        let b = B::mask_first_k(k);
        assert_eq!(b.popcnt(), k);
    }
}

fn not_last_k<B: Bits>() {
    for k in 0..B::BITS {
        let b = B::mask_not_last_k(k);
        assert_eq!(b.popcnt(), B::BITS - k);
    }
}

fn bit_k<B: Bits + Debug>() {
    for k in 0..B::BITS {
        let b = B::bit_k(k);
        println!("k={}; b={:?}", k, b);
        assert_eq!(b.popcnt(), 1);
    }
}

#[test]
fn test_first_k_u8() {
    first_k::<u8>();
}

#[test]
fn test_first_k_u16() {
    first_k::<u16>();
}

#[test]
fn test_first_k_u32() {
    first_k::<u32>();
}

#[test]
fn test_first_k_u64() {
    first_k::<u64>();
}

#[test]
fn test_first_k_u128() {
    first_k::<u128>();
}

#[test]
fn test_first_k_u256() {
    first_k::<Bits256>();
}

#[test]
fn test_not_last_k_u8() {
    not_last_k::<u8>();
}

#[test]
fn test_not_last_k_u16() {
    not_last_k::<u16>();
}

#[test]
fn test_not_last_k_u32() {
    not_last_k::<u32>();
}

#[test]
fn test_not_last_k_u64() {
    not_last_k::<u64>();
}

#[test]
fn test_not_last_k_u128() {
    not_last_k::<u128>();
}

#[test]
fn test_not_last_k_u256() {
    not_last_k::<Bits256>();
}

#[test]
fn test_bit_k_u8() {
    bit_k::<u8>();
}

#[test]
fn test_bit_k_u16() {
    bit_k::<u16>();
}

#[test]
fn test_bit_k_u32() {
    bit_k::<u32>();
}

#[test]
fn test_bit_k_u64() {
    bit_k::<u64>();
}

#[test]
fn test_bit_k_u128() {
    bit_k::<u128>();
}

#[test]
fn test_bit_k_u256() {
    bit_k::<Bits256>();
}

#[test]
fn test_clamping_sub() {
    assert_eq!(clamping_sub(5, 4), 1);
    assert_eq!(clamping_sub(5, 5), 0);
    assert_eq!(clamping_sub(5, 6), 0);
}

#[test]
fn mask_first_k_at_both_ends() {
    assert_eq!(<u8 as Bits>::mask_first_k(0), 0);
    assert_eq!(<u8 as Bits>::mask_first_k(8), 0xff);
    assert_eq!(<u128 as Bits>::mask_first_k(128), u128::MAX);
    assert_eq!(Bits256::mask_first_k(256), Bits256::max_value());
    assert_eq!(Bits256::mask_first_k(0), Bits256::zero());
    assert_eq!(Bits256::mask_first_k(65).limbs(), [0, 0, 1 << 63, u64::MAX]);
}

#[test]
fn mask_not_last_k_clears_the_low_bits() {
    assert_eq!(<u8 as Bits>::mask_not_last_k(3), 0b1111_1000);
    assert_eq!(<u8 as Bits>::mask_not_last_k(8), 0);
    assert_eq!(<u8 as Bits>::mask_not_last_k(200), 0);
    assert_eq!(<u16 as Bits>::mask_not_last_k(0), u16::MAX);
    assert_eq!(Bits256::mask_not_last_k(3).limbs(), [u64::MAX << 3, u64::MAX, u64::MAX, u64::MAX]);
    assert_eq!(Bits256::mask_not_last_k(256), Bits256::zero());
}

#[test]
fn popcount_counts_and_parity_is_its_low_bit() {
    assert_eq!(0b1011_0001u8.popcnt(), 4);
    assert!(!0b1011_0001u8.parity());
    assert_eq!(u128::MAX.popcnt(), 128);
    assert_eq!(Bits256::new([1, 3, 7, 15]).popcnt(), 10);
    assert!(!Bits256::new([1, 3, 7, 15]).parity());
    assert!(Bits256::new([1, 0, 0, 0]).parity());
}

#[test]
fn word_operations_are_bitwise() {
    let a: u16 = 0b1100;
    let b: u16 = 0b1010;
    assert_eq!(a.and(&b), 0b1000);
    assert_eq!(a.or(&b), 0b1110);
    assert_eq!(a.xor(&b), 0b0110);
    assert_eq!(Bits::not(a), !a);
    let mut c = a;
    c.lneg();
    assert_eq!(c, !a);
    let mut d = a;
    d.xor_assign(&b);
    assert_eq!(d, 0b0110);
    d.and_assign(&b);
    assert_eq!(d, 0b0010);
    assert!(a.same(&0b1100));
    assert!(!a.same(&b));
    let x = Bits256::new([1, 2, 3, 4]);
    let y = Bits256::new([3, 3, 3, 3]);
    assert_eq!(x.and(&y).limbs(), [1, 2, 3, 0]);
    assert_eq!(x.xor(&y).limbs(), [2, 1, 0, 7]);
    assert_eq!(x.or(&y).limbs(), [3, 3, 3, 7]);
    assert_eq!(Bits::not(x).limbs(), [!1, !2, !3, !4]);
}

#[test]
fn splat_and_constants() {
    assert_eq!(<u32 as Bits>::splat(true), u32::MAX);
    assert_eq!(<u32 as Bits>::splat(false), 0);
    assert_eq!(<u64 as Bits>::one(), 1);
    assert_eq!(<u64 as Bits>::zero(), 0);
    assert_eq!(<u8 as Bits>::BITS, 8);
    assert_eq!(<Bits256 as Bits>::BITS, 256);
    assert_eq!(<u8 as Bits>::SIZE_DESCRIPTOR, "static 8");
    assert_eq!(<Bits256 as Bits>::SIZE_DESCRIPTOR, "static 256");
}

#[test]
fn chunk_arithmetic() {
    assert_eq!(n_chunks::<u128>(0), 0);
    assert_eq!(n_chunks::<u128>(1), 1);
    assert_eq!(n_chunks::<u128>(128), 1);
    assert_eq!(n_chunks::<u128>(129), 2);
    assert_eq!(chunk_bit::<u128>(130), (1, 2));
    assert_eq!(chunk_bit::<u8>(7), (0, 7));
}

#[test]
fn bits256_orders_as_a_number() {
    assert!(Bits256::new([0, 0, 0, 1]) > Bits256::new([u64::MAX, u64::MAX, u64::MAX, 0]));
    assert!(Bits256::new([1, 0, 0, 0]) < Bits256::new([2, 0, 0, 0]));
    assert!(Bits256::bit_k(0) > Bits256::bit_k(1));
}

#[test]
fn class_and_width_of_words_agree() {
    let _ = <u8 as BitSeq>::lemma_class_len;
    assert_eq!(<u16 as Bits>::BITS, 16);
}
