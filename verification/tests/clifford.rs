use qarrot_optimizer::basis::{Basis, Basis128, Basis16, Basis8, DBasis};
use qarrot_optimizer::clifford::{can_conjugate, Clifford};
use qarrot_optimizer::random::rand_basis;
use qarrot_optimizer::symplectic::Symplectic;
use rand::rngs::SmallRng;
use rand::{Rng, SeedableRng};

#[test]
fn test_conj_identity() {
    let mut rng = SmallRng::seed_from_u64(1234);

    let mut rots = vec![
        Symplectic { sign: false, x: Basis8::zero(8), z: Basis8::zero(8) },
        Symplectic { sign: true, x: Basis8::one(8), z: Basis8::one(8) },
    ];

    let mut y = Basis8::zero(8);
    y.set_bit(0, true);

    rots.push(Symplectic { sign: true, x: y.clone(), z: y });

    for _ in 0..64 {
        rots.push(Symplectic {
            sign: rng.gen(),
            x: rand_basis::<Basis8>(8, &mut rng),
            z: rand_basis::<Basis8>(8, &mut rng),
        })
    }

    let ident = Clifford::identity(8);
    for p in &rots {
        println!("-----------\nConjugating {:?}", p);
        let res = ident.conjugate(p.sign, &p.x, &p.z);
        assert_eq!(res.sign, p.sign);
        assert_eq!(res.x, p.x);
        assert_eq!(res.z, p.z);
    }
}

#[test]
fn test_build_pi4() {
    let mut rng = SmallRng::seed_from_u64(13579);
    let mut clifford = Clifford::identity(8);
    for _ in 0..128 {
        let pi4 = Symplectic {
            sign: rng.gen(),
            x: rand_basis::<Basis8>(8, &mut rng),
            z: rand_basis::<Basis8>(8, &mut rng),
        };

        clifford.from_pi4(pi4.sign, &pi4.x, &pi4.z);
    }
}

#[test]
fn test_mul_ident() {
    let ident = Clifford::identity(128);
    let mut pi4 = Clifford::identity(128);
    let mut out;
    let mut rng = SmallRng::seed_from_u64(2468);
    for _ in 0..128 {
        let sign = rng.gen();
        let x = rand_basis::<Basis128>(128, &mut rng);
        let z = rand_basis::<Basis128>(128, &mut rng);
        pi4.from_pi4(sign, &x, &z);
        out = pi4.clone();
        out.mul_assign(&ident);

        assert_eq!(&out, &pi4);
        assert!(out.same(&pi4));
    }
}

#[test]
fn test_dbg() {
    let mut clifford: Clifford<Basis16> = Clifford::identity(9);
    let x_rows = [
        (1, "1000000000000000", "1001000000000000"),
        (0, "0000000000000000", "0110110000000000"),
        (0, "0110000000000000", "0110110000000000"),
        (0, "0000110010000000", "0001101000000000"),
        (1, "0101010010000000", "1110011000000000"),
        (1, "0100010010000000", "0110100010000000"),
        (1, "0001000100000000", "1000100100000000"),
        (1, "0000111010000000", "0000001100000000"),
        (0, "0000000000000000", "0000010010000000"),
    ];
    let z_rows = [
        (0, "0000000000000000", "1000000000000000"),
        (0, "0100000000000000", "0010110000000000"),
        (0, "0000000000000000", "0010000000000000"),
        (0, "0001110010000000", "1001101000000000"),
        (0, "0001001100000000", "1000000100000000"),
        (0, "0001001100000000", "1000110100000000"),
        (1, "0000000100000000", "0000001000000000"),
        (0, "0001000000000000", "1000100000000000"),
        (0, "0001001110000000", "1000110100000000"),
    ];
    for (i, (sign, x, z)) in x_rows.iter().enumerate() {
        clifford.set_x_row(i, Symplectic::from_bitstring(9, *sign, x, z));
    }
    for (i, (sign, x, z)) in z_rows.iter().enumerate() {
        clifford.set_z_row(i, Symplectic::from_bitstring(9, *sign, x, z));
    }

    let measurement: Symplectic<Basis16> =
        Symplectic::from_bitstring(9, 1, "0000110110000000", "0000010000000000");

    let result = clifford.conjugate(measurement.sign, &measurement.x, &measurement.z);

    assert!(!result.sign);
}

fn pauli<B: Basis>(n: usize, text: &str) -> Symplectic<B> {
    let mut x = Vec::new();
    let mut z = Vec::new();
    let (sign, letters) = match text.strip_prefix('-') {
        Some(rest) => (true, rest),
        None => (false, text),
    };
    for (i, ch) in letters.chars().enumerate() {
        if ch == 'X' || ch == 'Y' {
            x.push(i);
        }
        if ch == 'Z' || ch == 'Y' {
            z.push(i);
        }
    }
    Symplectic::from_indexes(n, sign, &x, &z)
}

fn conjugated<B: Basis>(c: &Clifford<B>, p: &Symplectic<B>) -> Symplectic<B> {
    c.conjugate(p.sign, &p.x, &p.z)
}

#[test]
fn a_pi4_rotation_about_z_turns_x_into_y() {
    let mut c = Clifford::<Basis8>::identity(1);
    let z = pauli::<Basis8>(1, "Z");
    c.from_pi4(z.sign, &z.x, &z.z);
    // the rotation leaves its own axis
    assert_eq!(conjugated(&c, &z), z);
    let image = conjugated(&c, &pauli(1, "X"));
    assert_eq!(image.x, pauli::<Basis8>(1, "Y").x);
    assert_eq!(image.z, pauli::<Basis8>(1, "Y").z);
    // twice the rotation is the pi/2 rotation: X changes sign
    let mut twice = c.clone();
    twice.mul_assign(&c);
    let mut half = Clifford::<Basis8>::identity(1);
    half.from_pi2(false, &z.x, &z.z);
    assert_eq!(conjugated(&half, &pauli(1, "X")), pauli(1, "-X"));
    assert_eq!(conjugated(&twice, &pauli(1, "X")), pauli(1, "-X"));
    assert_eq!(conjugated(&twice, &z), z);
}

#[test]
fn the_square_of_a_tableau_conjugates_twice() {
    let mut rng = SmallRng::seed_from_u64(99);
    for _ in 0..32 {
        let mut c = Clifford::<Basis8>::identity(5);
        let x = rand_basis::<Basis8>(5, &mut rng);
        let z = rand_basis::<Basis8>(5, &mut rng);
        c.from_pi4(rng.gen(), &x, &z);
        let mut square = c.clone();
        square.mul_assign(&c);
        let p = Symplectic {
            sign: rng.gen(),
            x: rand_basis::<Basis8>(5, &mut rng),
            z: rand_basis::<Basis8>(5, &mut rng),
        };
        let once = conjugated(&c, &p);
        assert_eq!(conjugated(&square, &p), conjugated(&c, &once));
    }
}

#[test]
fn a_pi4_rotation_leaves_its_axis_on_every_basis() {
    let mut rng = SmallRng::seed_from_u64(7);
    for _ in 0..16 {
        let x = rand_basis::<DBasis>(130, &mut rng);
        let z = rand_basis::<DBasis>(130, &mut rng);
        let mut c = Clifford::<DBasis>::identity(130);
        c.from_pi4(true, &x, &z);
        let image = c.conjugate(true, &x, &z);
        assert_eq!(image, Symplectic { sign: true, x, z });
    }
}

#[test]
fn set_identity_and_set_to() {
    let mut c = Clifford::<Basis16>::identity(9);
    let p = pauli::<Basis16>(9, "XYZIIXYZI");
    c.from_pi4(p.sign, &p.x, &p.z);
    let mut d = Clifford::<Basis16>::identity(9);
    assert!(!c.same(&d));
    d.set_to(&c);
    assert_eq!(c, d);
    c.set_identity();
    assert_eq!(c, Clifford::identity(9));
}

#[test]
fn which_bases_hold_which_circuits() {
    assert!(can_conjugate::<Basis8>(8));
    assert!(!can_conjugate::<Basis8>(9));
    assert!(can_conjugate::<Basis16>(9));
    assert!(can_conjugate::<DBasis>(1000));
    assert!(!can_conjugate::<DBasis>(usize::MAX - 5));
    assert!(Basis8::can_hold(0));
    assert_eq!(DBasis::capacity_for(129), 256);
    assert_eq!(Basis16::capacity_for(3), 16);
}
