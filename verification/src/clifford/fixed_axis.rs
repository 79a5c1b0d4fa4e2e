//! The pi/4 rotation about a Pauli string leaves that string as it is.
use crate::bitseq::{
    count_true, lemma_count_unit, lemma_count_update, lemma_count_xor, lemma_count_zeros, seq_and,
    seq_xor, unit, within, zeros,
};
use crate::clifford::{
    conj_rows, conjugate, identity_x_row, identity_z_row, pi4_row, pi4_view, prefix_bits,
};
use crate::symplectic::{commutes, count_i, pauli_xor, product, SignedPauli};
use vstd::prelude::*;

verus! {

/// A sequence meets the sequence with one bit set in that bit, if it has
/// it.
proof fn lemma_and_unit(s: Seq<bool>, i: int)
    requires
        0 <= i < s.len(),
    ensures
        count_true(seq_and(unit(s.len(), i), s)) == if s[i] { 1nat } else { 0nat },
        count_true(seq_and(s, unit(s.len(), i))) == if s[i] { 1nat } else { 0nat },
        count_true(seq_and(zeros(s.len()), s)) == 0,
        count_true(seq_and(s, zeros(s.len()))) == 0,
        count_true(seq_and(unit(s.len(), i), zeros(s.len()))) == 0,
        count_true(seq_and(zeros(s.len()), unit(s.len(), i))) == 0,
{
    let w = s.len();
    lemma_count_unit(w, i);
    lemma_count_zeros(w);
    if s[i] {
        assert(seq_and(unit(w, i), s) =~= unit(w, i));
        assert(seq_and(s, unit(w, i)) =~= unit(w, i));
    } else {
        assert(seq_and(unit(w, i), s) =~= zeros(w));
        assert(seq_and(s, unit(w, i)) =~= zeros(w));
    }
    assert(seq_and(zeros(w), s) =~= zeros(w));
    assert(seq_and(s, zeros(w)) =~= zeros(w));
    assert(seq_and(unit(w, i), zeros(w)) =~= zeros(w));
    assert(seq_and(zeros(w), unit(w, i)) =~= zeros(w));
}

/// Taking the Y factor at qubit `i` out of a Pauli string, by turning it
/// into a Z or an X, leaves one Y factor less.
proof fn lemma_one_less(p: SignedPauli, i: int)
    requires
        p.x.len() == p.z.len(),
        0 <= i < p.x.len(),
        p.x[i] && p.z[i],
    ensures
        count_true(seq_and(seq_xor(p.x, unit(p.x.len(), i)), p.z)) + 1 == count_i(p),
        count_true(seq_and(p.z, seq_xor(p.x, unit(p.x.len(), i)))) + 1 == count_i(p),
        count_true(seq_and(p.x, seq_xor(p.z, unit(p.x.len(), i)))) + 1 == count_i(p),
{
    let w = p.x.len();
    let both = seq_and(p.x, p.z);
    lemma_count_update(both, i, false);
    assert(seq_and(seq_xor(p.x, unit(w, i)), p.z) =~= both.update(i, false));
    assert(seq_and(p.z, seq_xor(p.x, unit(w, i))) =~= both.update(i, false));
    assert(seq_and(p.x, seq_xor(p.z, unit(w, i))) =~= both.update(i, false));
}

/// The rows of the tableau of the pi/4 rotation about `p` that a
/// conjugation of `p` picks: the image of X_i where `p` has an X or a Y at
/// qubit `i`, the image of Z_i where it has a Z or a Y.
proof fn lemma_rows(p: SignedPauli, i: int)
    requires
        p.x.len() == p.z.len(),
        0 <= i < p.x.len(),
    ensures
        p.x[i] && !p.z[i] ==> pi4_row(p, identity_x_row(p.x.len(), i)) == identity_x_row(
            p.x.len(),
            i,
        ),
        p.x[i] && p.z[i] ==> pi4_row(p, identity_x_row(p.x.len(), i)) == (SignedPauli {
            sign: p.sign,
            x: seq_xor(p.x, unit(p.x.len(), i)),
            z: p.z,
        }),
        p.z[i] && !p.x[i] ==> pi4_row(p, identity_z_row(p.x.len(), i)) == identity_z_row(
            p.x.len(),
            i,
        ),
        p.x[i] && p.z[i] ==> pi4_row(p, identity_z_row(p.x.len(), i)) == (SignedPauli {
            sign: !p.sign,
            x: p.x,
            z: seq_xor(p.z, unit(p.x.len(), i)),
        }),
{
    let w = p.x.len();
    let gx = identity_x_row(w, i);
    let gz = identity_z_row(w, i);
    lemma_and_unit(p.x, i);
    lemma_and_unit(p.z, i);
    assert(commutes(gx, p) == !p.z[i]);
    assert(commutes(gz, p) == !p.x[i]);
    if p.x[i] && p.z[i] {
        lemma_one_less(p, i);
        lemma_count_zeros(w);
        // the image of X_i
        assert(seq_and(seq_and(seq_and(gx.x, p.z), gx.z), p.x) =~= zeros(w));
        assert(seq_xor(p.z, gx.z) =~= p.z);
        assert(seq_and(gx.x, gx.z) =~= zeros(w));
        let rx = pauli_xor(p, gx);
        assert(rx.x == seq_xor(p.x, unit(w, i)));
        assert(rx.z == p.z);
        assert(count_i(rx) + 1 == count_i(p));
        assert(count_i(gx) == 0);
        assert(product(p, gx).sign == p.sign);
        // the image of Z_i
        assert(seq_and(seq_and(seq_and(gz.x, p.z), gz.z), p.x) =~= zeros(w));
        assert(seq_xor(p.x, gz.x) =~= p.x);
        assert(seq_and(gz.x, gz.z) =~= zeros(w));
        let rz = pauli_xor(p, gz);
        assert(rz.x == p.x);
        assert(rz.z == seq_xor(p.z, unit(w, i)));
        assert(count_i(rz) + 1 == count_i(p));
        assert(count_i(gz) == 0);
        assert(product(p, gz).sign == !p.sign);
    }
}

/// The sequence `s` if `on`, else the sequence without a set bit.
pub open spec fn when(on: bool, s: Seq<bool>) -> Seq<bool> {
    if on {
        s
    } else {
        zeros(s.len())
    }
}

/// The number of Y factors of `p` among the first `k` qubits.
pub open spec fn y_before(p: SignedPauli, k: int) -> nat {
    count_true(prefix_bits(seq_and(p.x, p.z), k))
}

/// The Y factors among the first `k + 1` qubits.
proof fn lemma_y_step(p: SignedPauli, k: int)
    requires
        p.x.len() == p.z.len(),
        0 <= k < p.x.len(),
    ensures
        y_before(p, k + 1) == y_before(p, k) + if p.x[k] && p.z[k] { 1nat } else { 0nat },
        y_before(p, k) <= count_i(p),
        p.x[k] && p.z[k] ==> y_before(p, k) < count_i(p),
        count_true(seq_and(seq_xor(prefix_bits(seq_and(p.x, p.z), k), seq_and(p.x, p.z)), p.x))
            + y_before(p, k) == count_i(p),
{
    let both = seq_and(p.x, p.z);
    let before = prefix_bits(both, k);
    lemma_count_update(before, k, true);
    if p.x[k] && p.z[k] {
        assert(prefix_bits(both, k + 1) =~= before.update(k, true));
    } else {
        assert(prefix_bits(both, k + 1) =~= before);
    }
    lemma_count_xor(before, both);
    assert(seq_and(before, both) =~= before);
    let rest = seq_xor(before, both);
    assert(seq_and(rest, p.x) =~= rest);
    if p.x[k] && p.z[k] {
        assert(rest[k]);
        crate::bitseq::lemma_count_zero_iff(rest);
    }
}

/// What the two halves of the conjugation of `p` by the pi/4 rotation
/// about `p` hold after the first `k` qubits.
proof fn lemma_halves(p: SignedPauli, n: nat, k: int)
    requires
        p.x.len() == p.z.len(),
        0 <= k <= n <= p.x.len(),
    ensures
        ({
            let c = pi4_view(n, p);
            let w = p.x.len();
            let odd = y_before(p, k) % 2 == 1;
            let (ax, icx) = conj_rows(c.x_rows, p.x, k, w);
            let (az, icz) = conj_rows(c.z_rows, p.z, k, w);
            &&& ax == SignedPauli {
                sign: odd && p.sign,
                x: seq_xor(prefix_bits(p.x, k), when(odd, p.x)),
                z: when(odd, p.z),
            }
            &&& az == SignedPauli {
                sign: odd && !p.sign,
                x: when(odd, p.x),
                z: seq_xor(prefix_bits(p.z, k), when(odd, p.z)),
            }
            &&& (icx + icz) % 4 == (2 * (count_i(p) - 1) * y_before(p, k)) % 4
        }),
    decreases k,
{
    let c = pi4_view(n, p);
    let w = p.x.len();
    let both = seq_and(p.x, p.z);
    if k == 0 {
        assert(prefix_bits(both, 0) =~= zeros(w));
        assert(prefix_bits(p.x, 0) =~= zeros(w));
        assert(prefix_bits(p.z, 0) =~= zeros(w));
        lemma_count_zeros(w);
        assert(seq_xor(zeros(w), zeros(w)) =~= zeros(w));
        assert(2 * (count_i(p) - 1) * 0 == 0) by (nonlinear_arith);
    } else {
        let i = k - 1;
        lemma_halves(p, n, i);
        lemma_y_step(p, i);
        lemma_rows(p, i);
        lemma_and_unit(p.x, i);
        lemma_and_unit(p.z, i);
        lemma_count_zeros(w);
        let y = y_before(p, i);
        let odd = y % 2 == 1;
        let (ax, icx) = conj_rows(c.x_rows, p.x, i, w);
        let (az, icz) = conj_rows(c.z_rows, p.z, i, w);
        let (bx, jcx) = conj_rows(c.x_rows, p.x, k, w);
        let (bz, jcz) = conj_rows(c.z_rows, p.z, k, w);
        let cnt = count_i(p) as int;
        assert(c.x_rows[i] == pi4_row(p, identity_x_row(w, i)));
        assert(c.z_rows[i] == pi4_row(p, identity_z_row(w, i)));
        if p.x[i] && p.z[i] {
            lemma_one_less(p, i);
            let row_x = c.x_rows[i];
            let row_z = c.z_rows[i];
            let next = !odd;
            assert(y_before(p, k) == y + 1);
            // the x half
            assert(bx.x =~= seq_xor(prefix_bits(p.x, k), when(next, p.x)));
            assert(bx.z =~= when(next, p.z));
            assert(count_true(seq_and(ax.z, row_x.x)) == if odd { cnt - 1 } else { 0 }) by {
                if !odd {
                    assert(seq_and(ax.z, row_x.x) =~= zeros(w));
                }
            }
            assert(jcx == icx + (cnt - 1) + 2 * (if odd { cnt - 1 } else { 0 }));
            // the z half
            assert(bz.x =~= when(next, p.x));
            assert(bz.z =~= seq_xor(prefix_bits(p.z, k), when(next, p.z)));
            assert(count_true(seq_and(az.z, row_z.x)) == if odd { cnt - y } else { y as int }) by {
                if odd {
                    assert(seq_and(az.z, row_z.x) =~= seq_and(
                        seq_xor(prefix_bits(both, i), both),
                        p.x,
                    ));
                } else {
                    assert(seq_xor(prefix_bits(p.z, i), zeros(w)) =~= prefix_bits(p.z, i));
                    assert(seq_and(az.z, row_z.x) =~= prefix_bits(both, i));
                }
            }
            assert(jcz == icz + (cnt - 1) + 2 * (if odd { cnt - y } else { y as int }));
            lemma_quarter(cnt, y as int, (icx + icz) as int, (jcx + jcz) as int);
        } else if p.x[i] {
            assert(bx.x =~= seq_xor(prefix_bits(p.x, k), when(odd, p.x)));
            assert(seq_xor(ax.z, zeros(w)) =~= ax.z);
            assert(seq_and(unit(w, i), zeros(w)) =~= zeros(w));
            assert(seq_and(ax.z, unit(w, i)) =~= zeros(w));
            assert(prefix_bits(p.z, k) =~= prefix_bits(p.z, i));
            assert(jcx == icx);
            assert(bz == az);
        } else if p.z[i] {
            assert(bz.z =~= seq_xor(prefix_bits(p.z, k), when(odd, p.z)));
            assert(seq_xor(az.x, zeros(w)) =~= az.x);
            assert(seq_and(zeros(w), unit(w, i)) =~= zeros(w));
            assert(seq_and(az.z, zeros(w)) =~= zeros(w));
            assert(prefix_bits(p.x, k) =~= prefix_bits(p.x, i));
            assert(jcz == icz);
            assert(bx == ax);
        } else {
            assert(prefix_bits(p.x, k) =~= prefix_bits(p.x, i));
            assert(prefix_bits(p.z, k) =~= prefix_bits(p.z, i));
        }
    }
}

/// The factors of i that a Y factor adds, modulo four.
proof fn lemma_quarter(cnt: int, y: int, before: int, after: int)
    requires
        0 <= y < cnt,
        0 <= before,
        before % 4 == (2 * (cnt - 1) * y) % 4,
        after == before + 2 * (cnt - 1) + 2 * (if y % 2 == 1 { cnt - 1 } else { 0 }) + 2 * (if y % 2
            == 1 {
            cnt - y
        } else {
            y
        }),
    ensures
        after % 4 == (2 * (cnt - 1) * (y + 1)) % 4,
{
    let m = cnt - 1;
    assert(2 * m * (y + 1) == 2 * m * y + 2 * m) by (nonlinear_arith);
    let q = y / 2;
    if y % 2 == 1 {
        assert(y == 2 * q + 1);
        // the increment is 4 * m + 2 * (cnt - y) = 4 * m + 2 * (m - 2 * q) = 6 * m - 4 * q
        assert(after == before + 2 * m + 4 * (m - q));
        assert((before + 2 * m + 4 * (m - q)) % 4 == (before + 2 * m) % 4) by {
            lemma_mod_shift(before + 2 * m, m - q);
        }
    } else {
        assert(y == 2 * q);
        assert(after == before + 2 * m + 4 * q);
        assert((before + 2 * m + 4 * q) % 4 == (before + 2 * m) % 4) by {
            lemma_mod_shift(before + 2 * m, q);
        }
    }
    let target = 2 * m * y;
    assert((before + 2 * m) % 4 == (target + 2 * m) % 4) by {
        lemma_mod_same(before, target, 2 * m);
    }
}

proof fn lemma_mod_shift(a: int, k: int)
    ensures
        (a + 4 * k) % 4 == a % 4,
{
    vstd::arithmetic::div_mod::lemma_mod_multiples_vanish(k, a, 4);
}

proof fn lemma_mod_same(a: int, b: int, c: int)
    requires
        a % 4 == b % 4,
    ensures
        (a + c) % 4 == (b + c) % 4,
{
    vstd::arithmetic::div_mod::lemma_add_mod_noop(a, c, 4);
    vstd::arithmetic::div_mod::lemma_add_mod_noop(b, c, 4);
}

/// The pi/4 rotation about a Pauli string leaves that string as it is:
/// conjugating `p` by the tableau of the rotation about `p` gives `p`.
pub proof fn lemma_pi4_fixes_axis(n: nat, p: SignedPauli)
    requires
        p.x.len() == p.z.len(),
        n <= p.x.len(),
        within(p.x, n as int),
        within(p.z, n as int),
    ensures
        conjugate(pi4_view(n, p), p) == p,
{
    let c = pi4_view(n, p);
    let w = p.x.len();
    let both = seq_and(p.x, p.z);
    let cnt = count_i(p) as int;
    lemma_halves(p, n, n as int);
    assert(prefix_bits(p.x, n as int) =~= p.x);
    assert(prefix_bits(p.z, n as int) =~= p.z);
    assert(prefix_bits(both, n as int) =~= both);
    let odd = cnt % 2 == 1;
    let (rx, icx) = conj_rows(c.x_rows, p.x, n as int, w);
    let (rz, icz) = conj_rows(c.z_rows, p.z, n as int, w);
    let r = pauli_xor(rx, rz);
    assert(r.x =~= p.x);
    assert(r.z =~= p.z);
    assert(r.sign == odd);
    lemma_count_zeros(w);
    assert(count_true(seq_and(rx.z, rz.x)) == if odd { cnt } else { 0 }) by {
        if odd {
            assert(seq_and(rx.z, rz.x) =~= both);
        } else {
            assert(seq_and(rx.z, rz.x) =~= zeros(w));
        }
    }
    let moved = (icx + icz) as int;
    assert(moved % 4 == 0) by {
        let q = cnt / 2;
        if odd {
            assert(cnt == 2 * q + 1);
            assert(2 * (cnt - 1) * cnt == 4 * (q * cnt)) by (nonlinear_arith)
                requires
                    cnt == 2 * q + 1,
            ;
            lemma_mod_shift(0, q * cnt);
        } else {
            assert(cnt == 2 * q);
            assert(2 * (cnt - 1) * cnt == 4 * ((cnt - 1) * q)) by (nonlinear_arith)
                requires
                    cnt == 2 * q,
            ;
            lemma_mod_shift(0, (cnt - 1) * q);
        }
    }
    assert((moved / 2) % 2 == 0);
}

} // verus!
