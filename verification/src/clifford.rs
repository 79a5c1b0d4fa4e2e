//! Clifford operators as tableaus: the images of the generators X_i and Z_i.
use crate::basis::Basis;
use crate::bits::bit_traits::{BitSeq, RefAnd};
use crate::bitseq::{
    count_true, lemma_count_bound, lemma_count_zeros, seq_and, seq_xor, unit, within, zeros,
};
use crate::symplectic::{
    abs_diff, commutes, count_i, pauli_xor, product, zero_pauli, SignedPauli, Symplectic,
};
use vstd::prelude::*;

pub mod fixed_axis;

verus! {

/// The mathematical tableau: row `i` of `x_rows` is the image of X_i, row
/// `i` of `z_rows` the image of Z_i.
pub struct CliffordView {
    pub x_rows: Seq<SignedPauli>,
    pub z_rows: Seq<SignedPauli>,
}

/// The x part or the z part of a conjugation: the exclusive or of the rows
/// picked by the first `n` bits of `old`, and the number of factors of i
/// that come up on the way.
pub open spec fn conj_rows(rows: Seq<SignedPauli>, old: Seq<bool>, n: int, width: nat) -> (
    SignedPauli,
    nat,
)
    decreases n,
{
    if n <= 0 {
        (zero_pauli(width), 0)
    } else {
        let (ans, ic) = conj_rows(rows, old, n - 1, width);
        if !old[n - 1] {
            (ans, ic)
        } else {
            let row = rows[n - 1];
            (pauli_xor(ans, row), ic + count_i(row) + 2 * count_true(seq_and(ans.z, row.x)))
        }
    }
}

/// The conjugated Pauli string `C p C^-1`.
pub open spec fn conjugate(c: CliffordView, p: SignedPauli) -> SignedPauli {
    let n = c.x_rows.len() as int;
    let width = p.x.len();
    let n_i_i = count_true(seq_and(p.x, p.z));
    let (rx, ic_x) = conj_rows(c.x_rows, p.x, n, width);
    let (rz, ic_z) = conj_rows(c.z_rows, p.z, n, width);
    let theta_c = count_true(seq_and(rx.z, rz.x)) % 2 != 0;
    let n_i_m = ic_x + ic_z;
    let r = pauli_xor(rx, rz);
    let n_i_f = count_i(r);
    let delta = abs_diff((n_i_i + n_i_m) as int, n_i_f as int);
    let theta_i = (delta / 2) % 2 != 0;
    SignedPauli { sign: ((r.sign != theta_c) != theta_i) != p.sign, x: r.x, z: r.z }
}

/// The image of X_i under the identity.
pub open spec fn identity_x_row(width: nat, i: int) -> SignedPauli {
    SignedPauli { sign: false, x: unit(width, i), z: zeros(width) }
}

/// The image of Z_i under the identity.
pub open spec fn identity_z_row(width: nat, i: int) -> SignedPauli {
    SignedPauli { sign: false, x: zeros(width), z: unit(width, i) }
}

/// The identity tableau on `n` qubits.
pub open spec fn identity_view(n: nat, width: nat) -> CliffordView {
    CliffordView {
        x_rows: Seq::new(n, |i: int| identity_x_row(width, i)),
        z_rows: Seq::new(n, |i: int| identity_z_row(width, i)),
    }
}

/// The image of a generator under the pi/4 rotation about `p`.
pub open spec fn pi4_row(p: SignedPauli, generator: SignedPauli) -> SignedPauli {
    if commutes(generator, p) {
        generator
    } else {
        product(p, generator)
    }
}

/// The image of a generator under the pi/2 rotation about `p`.
pub open spec fn pi2_row(p: SignedPauli, generator: SignedPauli) -> SignedPauli {
    if commutes(generator, p) {
        generator
    } else {
        SignedPauli { sign: true, ..generator }
    }
}

/// The tableau of the pi/4 rotation about `p` on `n` qubits.
pub open spec fn pi4_view(n: nat, p: SignedPauli) -> CliffordView {
    CliffordView {
        x_rows: Seq::new(n, |i: int| pi4_row(p, identity_x_row(p.x.len(), i))),
        z_rows: Seq::new(n, |i: int| pi4_row(p, identity_z_row(p.x.len(), i))),
    }
}

/// The tableau of the pi/2 rotation about `p` on `n` qubits.
pub open spec fn pi2_view(n: nat, p: SignedPauli) -> CliffordView {
    CliffordView {
        x_rows: Seq::new(n, |i: int| pi2_row(p, identity_x_row(p.x.len(), i))),
        z_rows: Seq::new(n, |i: int| pi2_row(p, identity_z_row(p.x.len(), i))),
    }
}

/// The tableau `c` with every row conjugated by `d`.
pub open spec fn compose(c: CliffordView, d: CliffordView) -> CliffordView {
    CliffordView {
        x_rows: Seq::new(c.x_rows.len(), |i: int| conjugate(d, c.x_rows[i])),
        z_rows: Seq::new(c.z_rows.len(), |i: int| conjugate(d, c.z_rows[i])),
    }
}

/// The bits of `s` below index `k`; the others clear.
pub open spec fn prefix_bits(s: Seq<bool>, k: int) -> Seq<bool> {
    Seq::new(s.len(), |i: int| i < k && s[i])
}

proof fn lemma_identity_conj_x(n: nat, width: nat, x: Seq<bool>, k: int)
    requires
        x.len() == width,
        0 <= k <= n <= width,
    ensures
        conj_rows(identity_view(n, width).x_rows, x, k, width) == (
            SignedPauli { sign: false, x: prefix_bits(x, k), z: zeros(width) },
            0nat,
        ),
    decreases k,
{
    let rows = identity_view(n, width).x_rows;
    if k > 0 {
        lemma_identity_conj_x(n, width, x, k - 1);
        let (ans, ic) = conj_rows(rows, x, k - 1, width);
        let row = rows[k - 1];
        assert(seq_and(row.x, row.z) =~= zeros(width));
        assert(seq_and(ans.z, row.x) =~= zeros(width));
        lemma_count_zeros(width);
        if x[k - 1] {
            assert(seq_xor(ans.x, row.x) =~= prefix_bits(x, k));
            assert(seq_xor(ans.z, row.z) =~= zeros(width));
        } else {
            assert(prefix_bits(x, k - 1) =~= prefix_bits(x, k));
        }
    } else {
        assert(prefix_bits(x, 0) =~= zeros(width));
    }
}

proof fn lemma_identity_conj_z(n: nat, width: nat, z: Seq<bool>, k: int)
    requires
        z.len() == width,
        0 <= k <= n <= width,
    ensures
        conj_rows(identity_view(n, width).z_rows, z, k, width) == (
            SignedPauli { sign: false, x: zeros(width), z: prefix_bits(z, k) },
            0nat,
        ),
    decreases k,
{
    let rows = identity_view(n, width).z_rows;
    if k > 0 {
        lemma_identity_conj_z(n, width, z, k - 1);
        let (ans, ic) = conj_rows(rows, z, k - 1, width);
        let row = rows[k - 1];
        assert(seq_and(row.x, row.z) =~= zeros(width));
        assert(seq_and(ans.z, row.x) =~= zeros(width));
        lemma_count_zeros(width);
        if z[k - 1] {
            assert(seq_xor(ans.z, row.z) =~= prefix_bits(z, k));
            assert(seq_xor(ans.x, row.x) =~= zeros(width));
        } else {
            assert(prefix_bits(z, k - 1) =~= prefix_bits(z, k));
        }
    } else {
        assert(prefix_bits(z, 0) =~= zeros(width));
    }
}

/// Conjugation by the identity tableau leaves every Pauli string on its
/// qubits as it is.
pub proof fn lemma_identity_conjugate(n: nat, p: SignedPauli)
    requires
        p.x.len() == p.z.len(),
        n <= p.x.len(),
        within(p.x, n as int),
        within(p.z, n as int),
    ensures
        conjugate(identity_view(n, p.x.len()), p) == p,
{
    let width = p.x.len();
    lemma_identity_conj_x(n, width, p.x, n as int);
    lemma_identity_conj_z(n, width, p.z, n as int);
    assert(prefix_bits(p.x, n as int) =~= p.x);
    assert(prefix_bits(p.z, n as int) =~= p.z);
    assert(seq_and(zeros(width), zeros(width)) =~= zeros(width));
    assert(seq_xor(p.x, zeros(width)) =~= p.x);
    assert(seq_xor(zeros(width), p.z) =~= p.z);
    lemma_count_zeros(width);
}

/// A Clifford operator on `n_qubits` qubits.
#[derive(Clone, Debug, PartialEq, Eq)]
pub struct Clifford<B: Basis> {
    x_rows: Vec<Symplectic<B>>,
    z_rows: Vec<Symplectic<B>>,
    n_qubits: usize,
}

/// Whether the counters of a conjugation on `n_qubits` qubits fit a machine
/// word.
pub open spec fn counters_fit<B: Basis>(n_qubits: usize) -> bool {
    6 * n_qubits * B::capacity_of(n_qubits) <= usize::MAX
}

/// The mathematical contents of a run of rows.
pub open spec fn row_views<B: Basis>(rows: Seq<Symplectic<B>>) -> Seq<SignedPauli> {
    Seq::new(rows.len(), |i: int| rows[i]@)
}

/// Every row is a well-formed Pauli string for `n_qubits` qubits.
pub open spec fn rows_wf<B: Basis>(rows: Seq<Symplectic<B>>, n_qubits: usize) -> bool {
    forall|i: int| 0 <= i < rows.len() ==> (#[trigger] rows[i]).wf_for(n_qubits)
}

impl<B: Basis> View for Clifford<B> {
    type V = CliffordView;

    closed spec fn view(&self) -> CliffordView {
        CliffordView { x_rows: row_views(self.x_rows@), z_rows: row_views(self.z_rows@) }
    }
}

impl<B: Basis> Clifford<B> {
    /// The number of qubits that the operator acts on.
    pub closed spec fn qubits(&self) -> usize {
        self.n_qubits
    }

    /// The tableau has one well-formed row for each generator.
    pub closed spec fn wf(&self) -> bool {
        &&& self.x_rows@.len() == self.n_qubits
        &&& self.z_rows@.len() == self.n_qubits
        &&& B::fits(self.n_qubits)
        &&& counters_fit::<B>(self.n_qubits)
        &&& rows_wf(self.x_rows@, self.n_qubits)
        &&& rows_wf(self.z_rows@, self.n_qubits)
    }

    /// What a sound tableau holds: a row for each generator, on bases that fit.
    pub proof fn lemma_wf(&self)
        requires
            self.wf(),
        ensures
            self@.x_rows.len() == self.qubits(),
            self@.z_rows.len() == self.qubits(),
            B::fits(self.qubits()),
            counters_fit::<B>(self.qubits()),
    {
    }

    /// Replaces the image of the generator X_i.
    pub fn set_x_row(&mut self, i: usize, row: Symplectic<B>)
        requires
            old(self).wf(),
            i < old(self).qubits(),
            row.wf_for(old(self).qubits()),
        ensures
            final(self).wf(),
            final(self).qubits() == old(self).qubits(),
            final(self)@ == (CliffordView {
                x_rows: old(self)@.x_rows.update(i as int, row@),
                z_rows: old(self)@.z_rows,
            }),
    {
        let ghost before = self@;
        self.x_rows[i] = row;
        assert(self@.x_rows =~= before.x_rows.update(i as int, row@));
        assert(self@.z_rows =~= before.z_rows);
    }

    /// Replaces the image of the generator Z_i.
    pub fn set_z_row(&mut self, i: usize, row: Symplectic<B>)
        requires
            old(self).wf(),
            i < old(self).qubits(),
            row.wf_for(old(self).qubits()),
        ensures
            final(self).wf(),
            final(self).qubits() == old(self).qubits(),
            final(self)@ == (CliffordView {
                x_rows: old(self)@.x_rows,
                z_rows: old(self)@.z_rows.update(i as int, row@),
            }),
    {
        let ghost before = self@;
        self.z_rows[i] = row;
        assert(self@.z_rows =~= before.z_rows.update(i as int, row@));
        assert(self@.x_rows =~= before.x_rows);
    }

    /// Whether two operators on as many qubits have the same rows.
    pub fn same(&self, other: &Self) -> (r: bool)
        requires
            self.wf(),
            other.wf(),
            self.qubits() == other.qubits(),
        ensures
            r == (self@ == other@),
    {
        let n = self.n_qubits;
        let mut i: usize = 0;
        while i < n
            invariant
                i <= n,
                n == self.n_qubits,
                n == other.n_qubits,
                self.wf(),
                other.wf(),
                forall|k: int| 0 <= k < i ==> (#[trigger] self.x_rows@[k])@ == other.x_rows@[k]@,
                forall|k: int| 0 <= k < i ==> (#[trigger] self.z_rows@[k])@ == other.z_rows@[k]@,
            decreases n - i,
        {
            proof {
                assert(self.x_rows@[i as int].wf_for(n));
                assert(other.x_rows@[i as int].wf_for(n));
                assert(self.z_rows@[i as int].wf_for(n));
                assert(other.z_rows@[i as int].wf_for(n));
            }
            if !self.x_rows[i].same(&other.x_rows[i]) || !self.z_rows[i].same(&other.z_rows[i]) {
                proof {
                    assert(self@.x_rows[i as int] == self.x_rows@[i as int]@);
                    assert(other@.x_rows[i as int] == other.x_rows@[i as int]@);
                    assert(self@.z_rows[i as int] == self.z_rows@[i as int]@);
                    assert(other@.z_rows[i as int] == other.z_rows@[i as int]@);
                }
                return false;
            }
            i += 1;
        }
        assert(self@.x_rows =~= other@.x_rows);
        assert(self@.z_rows =~= other@.z_rows);
        true
    }

    /// The identity on `n_qubits` qubits.
    pub fn identity(n_qubits: usize) -> (r: Self)
        requires
            B::fits(n_qubits),
            counters_fit::<B>(n_qubits),
        ensures
            r.wf(),
            r.qubits() == n_qubits,
            r@ == identity_view(n_qubits as nat, B::capacity_of(n_qubits)),
    {
        let mut new = Clifford { x_rows: Vec::new(), z_rows: Vec::new(), n_qubits };
        let ghost width = B::capacity_of(n_qubits);
        let mut i: usize = 0;
        while i < n_qubits
            invariant
                i <= n_qubits,
                B::fits(n_qubits),
                width == B::capacity_of(n_qubits),
                new.n_qubits == n_qubits,
                new.x_rows@.len() == i,
                new.z_rows@.len() == i,
                rows_wf(new.x_rows@, n_qubits),
                rows_wf(new.z_rows@, n_qubits),
                forall|k: int| 0 <= k < i ==> (#[trigger] new.x_rows@[k])@ == identity_x_row(width, k),
                forall|k: int| 0 <= k < i ==> (#[trigger] new.z_rows@[k])@ == identity_z_row(width, k),
            decreases n_qubits - i,
        {
            let mut x = Symplectic::<B>::zero(n_qubits);
            let mut z = x.duplicate();
            proof {
                x.x.lemma_capacity(n_qubits);
                z.z.lemma_capacity(n_qubits);
            }
            x.x.set_bit_true(i);
            z.z.set_bit_true(i);
            assert(x.x.seq() =~= unit(width, i as int));
            assert(z.z.seq() =~= unit(width, i as int));
            new.x_rows.push(x);
            new.z_rows.push(z);
            i += 1;
        }
        assert(new@.x_rows =~= identity_view(n_qubits as nat, width).x_rows);
        assert(new@.z_rows =~= identity_view(n_qubits as nat, width).z_rows);
        new
    }

    /// Resets the operator to the identity.
    pub fn set_identity(&mut self)
        requires
            old(self).wf(),
        ensures
            final(self).wf(),
            final(self).qubits() == old(self).qubits(),
            final(self)@ == identity_view(
                old(self).qubits() as nat,
                B::capacity_of(old(self).qubits()),
            ),
    {
        let n = self.n_qubits;
        let ghost width = B::capacity_of(n);
        let mut i: usize = 0;
        while i < n
            invariant
                i <= n,
                n == self.n_qubits,
                self.wf(),
                width == B::capacity_of(n),
                forall|k: int| 0 <= k < i ==> (#[trigger] self.x_rows@[k])@ == identity_x_row(width, k),
                forall|k: int| 0 <= k < i ==> (#[trigger] self.z_rows@[k])@ == identity_z_row(width, k),
            decreases n - i,
        {
            let mut x = Symplectic::<B>::zero(n);
            let mut z = x.duplicate();
            proof {
                x.x.lemma_capacity(n);
                z.z.lemma_capacity(n);
            }
            x.x.set_bit_true(i);
            z.z.set_bit_true(i);
            assert(x.x.seq() =~= unit(width, i as int));
            assert(z.z.seq() =~= unit(width, i as int));
            self.x_rows[i] = x;
            self.z_rows[i] = z;
            i += 1;
        }
        assert(self@.x_rows =~= identity_view(n as nat, width).x_rows);
        assert(self@.z_rows =~= identity_view(n as nat, width).z_rows);
    }

    /// Makes the operator a copy of `other`, which acts on as many qubits.
    pub fn set_to(&mut self, other: &Self)
        requires
            old(self).wf(),
            other.wf(),
            old(self).qubits() == other.qubits(),
        ensures
            final(self).wf(),
            final(self).qubits() == old(self).qubits(),
            final(self)@ == other@,
    {
        let n = self.n_qubits;
        let mut i: usize = 0;
        while i < n
            invariant
                i <= n,
                n == self.n_qubits,
                n == other.n_qubits,
                self.wf(),
                other.wf(),
                forall|k: int| 0 <= k < i ==> (#[trigger] self.x_rows@[k])@ == other.x_rows@[k]@,
                forall|k: int| 0 <= k < i ==> (#[trigger] self.z_rows@[k])@ == other.z_rows@[k]@,
            decreases n - i,
        {
            let x = other.x_rows[i].duplicate();
            let z = other.z_rows[i].duplicate();
            self.x_rows[i] = x;
            self.z_rows[i] = z;
            i += 1;
        }
        assert(self@.x_rows =~= other@.x_rows);
        assert(self@.z_rows =~= other@.z_rows);
    }

    /// The x part or the z part of a conjugation, and its count of factors
    /// of i.
    fn _conj(rows: &[Symplectic<B>], n_qubits: usize, old: &B) -> (r: (Symplectic<B>, usize))
        requires
            rows@.len() == n_qubits,
            rows_wf(rows@, n_qubits),
            B::fits(n_qubits),
            counters_fit::<B>(n_qubits),
            old.wf(),
            old.class() == B::class_of(n_qubits),
        ensures
            r.0.wf_for(n_qubits),
            (r.0@, r.1 as nat) == conj_rows(
                row_views(rows@),
                old.seq(),
                n_qubits as int,
                B::capacity_of(n_qubits),
            ),
            r.1 <= 3 * n_qubits * B::capacity_of(n_qubits),
    {
        let mut ans: Symplectic<B> = Symplectic::zero(n_qubits);
        let mut i_count: usize = 0;
        let ghost width = B::capacity_of(n_qubits);
        proof {
            old.lemma_capacity(n_qubits);
            assert(3 * 0 * width == 0) by (nonlinear_arith);
        }
        let mut i: usize = 0;
        while i < n_qubits
            invariant
                i <= n_qubits,
                n_qubits <= width,
                rows@.len() == n_qubits,
                rows_wf(rows@, n_qubits),
                B::fits(n_qubits),
                counters_fit::<B>(n_qubits),
                width == B::capacity_of(n_qubits),
                old.wf(),
                old.class() == B::class_of(n_qubits),
                old.seq().len() == width,
                ans.wf_for(n_qubits),
                i_count <= 3 * i * width,
                (ans@, i_count as nat) == conj_rows(row_views(rows@), old.seq(), i as int, width),
            decreases n_qubits - i,
        {
            proof {
                assert(3 * (i + 1) * width <= 3 * n_qubits * width) by (nonlinear_arith)
                    requires
                        i < n_qubits,
                ;
                assert(3 * (i + 1) * width == 3 * i * width + 3 * width) by (nonlinear_arith);
                assert(6 * n_qubits * width == 2 * (3 * n_qubits * width)) by (nonlinear_arith);
            }
            if old.get_bit(i) {
                let xor_with = &rows[i];
                proof {
                    xor_with.lemma_widths();
                    xor_with.x.lemma_capacity(n_qubits);
                    ans.z.lemma_capacity(n_qubits);
                    lemma_count_bound(seq_and(xor_with.x.seq(), xor_with.z.seq()));
                    lemma_count_bound(seq_and(ans.z.seq(), xor_with.x.seq()));
                }
                i_count += xor_with.x.and(&xor_with.z).popcnt();
                let n_commutations = ans.z.and(&xor_with.x).popcnt();
                i_count += 2 * n_commutations;
                ans.xor_assign(xor_with);
            }
            i += 1;
        }
        (ans, i_count)
    }

    /// The conjugated Pauli string `C (sign, x, z) C^-1`.
    pub fn conjugate(&self, sign: bool, x: &B, z: &B) -> (r: Symplectic<B>)
        requires
            self.wf(),
            x.wf(),
            z.wf(),
            x.class() == B::class_of(self.qubits()),
            z.class() == B::class_of(self.qubits()),
        ensures
            r.wf_for(self.qubits()),
            r@ == conjugate(self@, SignedPauli { sign, x: x.seq(), z: z.seq() }),
    {
        let ghost width = B::capacity_of(self.n_qubits);
        proof {
            x.lemma_capacity(self.n_qubits);
            z.lemma_capacity(self.n_qubits);
            assert(6 * self.n_qubits * width == 2 * (3 * self.n_qubits * width))
                by (nonlinear_arith);
        }
        let n_i_i = x.and(z).popcnt();
        let (new_x, new_x_i) = Self::_conj(self.x_rows.as_slice(), self.n_qubits, x);
        let (new_z, new_z_i) = Self::_conj(self.z_rows.as_slice(), self.n_qubits, z);
        let theta_c = new_x.z.and(&new_z.x).parity();
        let n_i_m = new_x_i + new_z_i;

        let mut new = new_x;
        new.xor_assign(&new_z);

        let n_i_f = new.count_i();
        let total: u128 = n_i_i as u128 + n_i_m as u128;
        let last: u128 = n_i_f as u128;
        let n_diff: u128 = if total >= last {
            total - last
        } else {
            last - total
        };
        let theta_i = (n_diff / 2) % 2 != 0;

        new.sign = new.sign != theta_c;
        new.sign = new.sign != theta_i;
        new.sign = new.sign != sign;
        new
    }

    /// Makes the operator the pi/4 rotation about the Pauli string
    /// `(sign, x, z)`.
    pub fn from_pi4(&mut self, sign: bool, x: &B, z: &B)
        requires
            old(self).wf(),
            x.wf(),
            z.wf(),
            x.class() == B::class_of(old(self).qubits()),
            z.class() == B::class_of(old(self).qubits()),
        ensures
            final(self).wf(),
            final(self).qubits() == old(self).qubits(),
            final(self)@ == pi4_view(
                old(self).qubits() as nat,
                SignedPauli { sign, x: x.seq(), z: z.seq() },
            ),
    {
        self.set_identity();
        let input = Symplectic { sign, x: x.duplicate(), z: z.duplicate() };
        let n = self.n_qubits;
        let ghost p = input@;
        let ghost width = B::capacity_of(n);
        proof {
            x.lemma_capacity(n);
            assert forall|k: int| 0 <= k < n implies (#[trigger] self.x_rows@[k])@
                == identity_x_row(width, k) by {
                assert(self@.x_rows[k] == self.x_rows@[k]@);
            }
            assert forall|k: int| 0 <= k < n implies (#[trigger] self.z_rows@[k])@
                == identity_z_row(width, k) by {
                assert(self@.z_rows[k] == self.z_rows@[k]@);
            }
        }
        let mut i: usize = 0;
        while i < n
            invariant
                i <= n,
                n == self.n_qubits,
                self.wf(),
                input.wf_for(n),
                input@ == p,
                p.x.len() == width,
                width == B::capacity_of(n),
                forall|k: int| 0 <= k < i ==> (#[trigger] self.x_rows@[k])@ == pi4_row(p, identity_x_row(width, k)),
                forall|k: int| 0 <= k < i ==> (#[trigger] self.z_rows@[k])@ == pi4_row(p, identity_z_row(width, k)),
                forall|k: int| i <= k < n ==> (#[trigger] self.x_rows@[k])@ == identity_x_row(width, k),
                forall|k: int| i <= k < n ==> (#[trigger] self.z_rows@[k])@ == identity_z_row(width, k),
            decreases n - i,
        {
            if !self.x_rows[i].commutes_with(&input) {
                let mul = input.mul(&self.x_rows[i]);
                self.x_rows[i] = mul;
            }
            if !self.z_rows[i].commutes_with(&input) {
                let mul = input.mul(&self.z_rows[i]);
                self.z_rows[i] = mul;
            }
            i += 1;
        }
        assert(self@.x_rows =~= pi4_view(n as nat, p).x_rows);
        assert(self@.z_rows =~= pi4_view(n as nat, p).z_rows);
    }

    /// Makes the operator the pi/2 rotation about the Pauli string
    /// `(sign, x, z)`: the generators that anticommute with it change sign.
    pub fn from_pi2(&mut self, sign: bool, x: &B, z: &B)
        requires
            old(self).wf(),
            x.wf(),
            z.wf(),
            x.class() == B::class_of(old(self).qubits()),
            z.class() == B::class_of(old(self).qubits()),
        ensures
            final(self).wf(),
            final(self).qubits() == old(self).qubits(),
            final(self)@ == pi2_view(
                old(self).qubits() as nat,
                SignedPauli { sign, x: x.seq(), z: z.seq() },
            ),
    {
        self.set_identity();
        let input = Symplectic { sign, x: x.duplicate(), z: z.duplicate() };
        let n = self.n_qubits;
        let ghost p = input@;
        let ghost width = B::capacity_of(n);
        proof {
            x.lemma_capacity(n);
            assert forall|k: int| 0 <= k < n implies (#[trigger] self.x_rows@[k])@
                == identity_x_row(width, k) by {
                assert(self@.x_rows[k] == self.x_rows@[k]@);
            }
            assert forall|k: int| 0 <= k < n implies (#[trigger] self.z_rows@[k])@
                == identity_z_row(width, k) by {
                assert(self@.z_rows[k] == self.z_rows@[k]@);
            }
        }
        let mut i: usize = 0;
        while i < n
            invariant
                i <= n,
                n == self.n_qubits,
                self.wf(),
                input.wf_for(n),
                input@ == p,
                p.x.len() == width,
                width == B::capacity_of(n),
                forall|k: int| 0 <= k < i ==> (#[trigger] self.x_rows@[k])@ == pi2_row(p, identity_x_row(width, k)),
                forall|k: int| 0 <= k < i ==> (#[trigger] self.z_rows@[k])@ == pi2_row(p, identity_z_row(width, k)),
                forall|k: int| i <= k < n ==> (#[trigger] self.x_rows@[k])@ == identity_x_row(width, k),
                forall|k: int| i <= k < n ==> (#[trigger] self.z_rows@[k])@ == identity_z_row(width, k),
            decreases n - i,
        {
            if !self.x_rows[i].commutes_with(&input) {
                let mut row = self.x_rows[i].duplicate();
                row.sign = true;
                self.x_rows[i] = row;
            }
            if !self.z_rows[i].commutes_with(&input) {
                let mut row = self.z_rows[i].duplicate();
                row.sign = true;
                self.z_rows[i] = row;
            }
            i += 1;
        }
        assert(self@.x_rows =~= pi2_view(n as nat, p).x_rows);
        assert(self@.z_rows =~= pi2_view(n as nat, p).z_rows);
    }

    /// Replaces every row by its conjugation with `rhs`.
    pub fn mul_assign(&mut self, rhs: &Clifford<B>)
        requires
            old(self).wf(),
            rhs.wf(),
            old(self).qubits() == rhs.qubits(),
        ensures
            final(self).wf(),
            final(self).qubits() == old(self).qubits(),
            final(self)@ == compose(old(self)@, rhs@),
    {
        let n = self.n_qubits;
        let ghost before = self@;
        let mut i: usize = 0;
        while i < n
            invariant
                i <= n,
                n == self.n_qubits,
                n == rhs.n_qubits,
                self.wf(),
                rhs.wf(),
                before.x_rows.len() == n,
                before.z_rows.len() == n,
                forall|k: int| 0 <= k < i ==> (#[trigger] self.x_rows@[k])@ == conjugate(rhs@, before.x_rows[k]),
                forall|k: int| 0 <= k < i ==> (#[trigger] self.z_rows@[k])@ == conjugate(rhs@, before.z_rows[k]),
                forall|k: int| i <= k < n ==> (#[trigger] self.x_rows@[k])@ == before.x_rows[k],
                forall|k: int| i <= k < n ==> (#[trigger] self.z_rows@[k])@ == before.z_rows[k],
            decreases n - i,
        {
            let x = rhs.conjugate(self.x_rows[i].sign, &self.x_rows[i].x, &self.x_rows[i].z);
            let z = rhs.conjugate(self.z_rows[i].sign, &self.z_rows[i].x, &self.z_rows[i].z);
            self.x_rows[i] = x;
            self.z_rows[i] = z;
            i += 1;
        }
        assert(self@.x_rows =~= compose(before, rhs@).x_rows);
        assert(self@.z_rows =~= compose(before, rhs@).z_rows);
    }
}

/// A Pauli string of the given width on the first `n` qubits.
pub open spec fn pauli_on(p: SignedPauli, n: int, width: nat) -> bool {
    p.x.len() == width && p.z.len() == width && within(p.x, n) && within(p.z, n)
}

/// A tableau on `n` qubits whose rows are Pauli strings of the given width
/// on those qubits.
pub open spec fn clifford_on(c: CliffordView, n: int, width: nat) -> bool {
    &&& c.x_rows.len() == n
    &&& c.z_rows.len() == n
    &&& forall|i: int| 0 <= i < n ==> pauli_on(#[trigger] c.x_rows[i], n, width)
    &&& forall|i: int| 0 <= i < n ==> pauli_on(#[trigger] c.z_rows[i], n, width)
}

/// The exclusive or of rows on the first `n` qubits lies on them.
pub proof fn lemma_conj_rows_on(rows: Seq<SignedPauli>, old: Seq<bool>, k: int, n: int, width: nat)
    requires
        0 <= k <= rows.len(),
        forall|i: int| 0 <= i < rows.len() ==> pauli_on(#[trigger] rows[i], n, width),
    ensures
        pauli_on(conj_rows(rows, old, k, width).0, n, width),
    decreases k,
{
    if k > 0 {
        lemma_conj_rows_on(rows, old, k - 1, n, width);
        let row = rows[k - 1];
        assert(pauli_on(row, n, width));
        let ans = conj_rows(rows, old, k - 1, width).0;
        let next = pauli_xor(ans, row);
        assert forall|i: int| 0 <= i < next.x.len() && n <= i implies !next.x[i] by {
            assert(!ans.x[i] && !row.x[i]);
        }
        assert forall|i: int| 0 <= i < next.z.len() && n <= i implies !next.z[i] by {
            assert(!ans.z[i] && !row.z[i]);
        }
    } else {
        assert(within(zeros(width), n));
    }
}

/// The conjugation of any Pauli string of the tableau's width lies on the
/// tableau's qubits.
pub proof fn lemma_conjugate_on(c: CliffordView, p: SignedPauli, n: int, width: nat)
    requires
        clifford_on(c, n, width),
        0 <= n,
        p.x.len() == width,
    ensures
        pauli_on(conjugate(c, p), n, width),
{
    lemma_conj_rows_on(c.x_rows, p.x, n, n, width);
    lemma_conj_rows_on(c.z_rows, p.z, n, n, width);
}

/// The identity tableau lies on its qubits.
pub proof fn lemma_identity_on(n: nat, width: nat)
    requires
        n <= width,
    ensures
        clifford_on(identity_view(n, width), n as int, width),
{
}

/// The tableau of a rotation about a Pauli string on the first `n` qubits
/// lies on them.
pub proof fn lemma_rotation_on(n: nat, width: nat, p: SignedPauli)
    requires
        n <= width,
        pauli_on(p, n as int, width),
    ensures
        clifford_on(pi4_view(n, p), n as int, width),
        clifford_on(pi2_view(n, p), n as int, width),
{
    assert forall|i: int| 0 <= i < n implies pauli_on(
        #[trigger] pi4_view(n, p).x_rows[i],
        n as int,
        width,
    ) by {
        assert(pauli_on(identity_x_row(width, i), n as int, width));
    }
    assert forall|i: int| 0 <= i < n implies pauli_on(
        #[trigger] pi4_view(n, p).z_rows[i],
        n as int,
        width,
    ) by {
        assert(pauli_on(identity_z_row(width, i), n as int, width));
    }
    assert forall|i: int| 0 <= i < n implies pauli_on(
        #[trigger] pi2_view(n, p).x_rows[i],
        n as int,
        width,
    ) by {
        assert(pauli_on(identity_x_row(width, i), n as int, width));
    }
    assert forall|i: int| 0 <= i < n implies pauli_on(
        #[trigger] pi2_view(n, p).z_rows[i],
        n as int,
        width,
    ) by {
        assert(pauli_on(identity_z_row(width, i), n as int, width));
    }
}

/// A tableau conjugated row by row with a tableau on `n` qubits lies on
/// them.
pub proof fn lemma_compose_on(c: CliffordView, d: CliffordView, n: int, width: nat)
    requires
        clifford_on(c, n, width),
        clifford_on(d, n, width),
        0 <= n,
    ensures
        clifford_on(compose(c, d), n, width),
{
    assert forall|i: int| 0 <= i < n implies pauli_on(#[trigger] compose(c, d).x_rows[i], n, width) by {
        assert(pauli_on(c.x_rows[i], n, width));
        lemma_conjugate_on(d, c.x_rows[i], n, width);
    }
    assert forall|i: int| 0 <= i < n implies pauli_on(#[trigger] compose(c, d).z_rows[i], n, width) by {
        assert(pauli_on(c.z_rows[i], n, width));
        lemma_conjugate_on(d, c.z_rows[i], n, width);
    }
}

/// Whether a basis type can hold `n_qubits` qubits with counters that fit
/// a machine word.
pub fn can_conjugate<B: Basis>(n_qubits: usize) -> (r: bool)
    ensures
        r == (B::fits(n_qubits) && counters_fit::<B>(n_qubits)),
{
    if !B::can_hold(n_qubits) {
        return false;
    }
    let capacity = B::capacity_for(n_qubits);
    match n_qubits.checked_mul(6) {
        Some(six) => match six.checked_mul(capacity) {
            Some(_) => {
                assert(6 * n_qubits * capacity == (n_qubits * 6) * capacity) by (nonlinear_arith);
                true
            },
            None => {
                assert(6 * n_qubits * capacity == (n_qubits * 6) * capacity) by (nonlinear_arith);
                false
            },
        },
        None => {
            proof {
                B::lemma_fits(n_qubits);
                if n_qubits > 0 {
                    assert(6 * n_qubits * capacity >= 6 * n_qubits) by (nonlinear_arith)
                        requires
                            capacity >= 1,
                            n_qubits > 0,
                    ;
                }
            }
            false
        },
    }
}

} // verus!
