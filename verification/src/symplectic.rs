//! Signed Pauli strings in the symplectic representation.
use crate::basis::Basis;
use crate::bits::bit_traits::{BitOps, BitSeq, RefAnd};
use crate::bitseq::{count_true, seq_and, seq_xor, zeros};
use vstd::prelude::*;
use vstd::string::{StringExecFns, StringSliceAdditionalSpecFns};

verus! {

/// The mathematical Pauli string `(-1)^sign * P`: qubit `i` of `P` is I, X,
/// Z or Y as `(x[i], z[i])` is (0,0), (1,0), (0,1) or (1,1).
pub struct SignedPauli {
    pub sign: bool,
    pub x: Seq<bool>,
    pub z: Seq<bool>,
}

/// The number of Y factors of `p`.
pub open spec fn count_i(p: SignedPauli) -> nat {
    count_true(seq_and(p.x, p.z))
}

/// Whether two Pauli strings commute: they anticommute on an even number
/// of qubits.
pub open spec fn commutes(p: SignedPauli, q: SignedPauli) -> bool {
    (count_true(seq_and(p.z, q.x)) + count_true(seq_and(p.x, q.z))) % 2 == 0
}

/// The componentwise exclusive or of sign, x part and z part.
pub open spec fn pauli_xor(p: SignedPauli, q: SignedPauli) -> SignedPauli {
    SignedPauli { sign: p.sign != q.sign, x: seq_xor(p.x, q.x), z: seq_xor(p.z, q.z) }
}

/// The Pauli string of the given width with no factor and positive sign.
pub open spec fn zero_pauli(width: nat) -> SignedPauli {
    SignedPauli { sign: false, x: zeros(width), z: zeros(width) }
}

/// The distance between two numbers.
pub open spec fn abs_diff(a: int, b: int) -> int {
    if a >= b {
        a - b
    } else {
        b - a
    }
}

/// The product `p * q` of two anticommuting Pauli strings.
pub open spec fn product(p: SignedPauli, q: SignedPauli) -> SignedPauli {
    let theta_c = (count_true(seq_and(p.z, q.x)) + count_true(
        seq_and(seq_and(seq_and(q.x, p.z), q.z), p.x),
    )) % 2 != 0;
    let r = pauli_xor(p, q);
    let delta = abs_diff((count_i(p) + count_i(q) + 1) as int, count_i(r) as int);
    SignedPauli { sign: (r.sign != (delta / 2 != 0)) != theta_c, x: r.x, z: r.z }
}

/// Commutation is symmetric.
pub proof fn lemma_commutes_symmetric(p: SignedPauli, q: SignedPauli)
    requires
        p.x.len() == p.z.len(),
        q.x.len() == q.z.len(),
        p.x.len() == q.x.len(),
    ensures
        commutes(p, q) == commutes(q, p),
{
    assert(seq_and(p.z, q.x) =~= seq_and(q.x, p.z));
    assert(seq_and(p.x, q.z) =~= seq_and(q.z, p.x));
}

/// The two products of a pair of Pauli strings hold the same factors. They
/// have the same sign if the pair commutes, and opposite signs if not.
pub proof fn lemma_product_order(p: SignedPauli, q: SignedPauli)
    requires
        p.x.len() == p.z.len(),
        q.x.len() == q.z.len(),
        p.x.len() == q.x.len(),
    ensures
        product(p, q).x == product(q, p).x,
        product(p, q).z == product(q, p).z,
        commutes(p, q) ==> product(p, q) == product(q, p),
        !commutes(p, q) ==> product(p, q).sign != product(q, p).sign,
{
    assert(seq_xor(p.x, q.x) =~= seq_xor(q.x, p.x));
    assert(seq_xor(p.z, q.z) =~= seq_xor(q.z, p.z));
    assert(seq_and(p.x, q.z) =~= seq_and(q.z, p.x));
    assert(seq_and(seq_and(seq_and(q.x, p.z), q.z), p.x) =~= seq_and(
        seq_and(seq_and(p.x, q.z), p.z),
        q.x,
    ));
    assert(pauli_xor(p, q) == pauli_xor(q, p));
}

/// The product of a Pauli string with itself holds no factor. Its sign is
/// that of the identity if the string has no Y factor, and negative if it
/// has one.
pub proof fn lemma_product_self(p: SignedPauli)
    requires
        p.x.len() == p.z.len(),
    ensures
        product(p, p).x == zeros(p.x.len()),
        product(p, p).z == zeros(p.x.len()),
        product(p, p).sign == (count_i(p) != 0),
        count_i(p) == 0 ==> product(p, p) == zero_pauli(p.x.len()),
        product(p, (SignedPauli { sign: p.sign != (count_i(p) != 0), x: p.x, z: p.z }))
            == zero_pauli(p.x.len()),
{
    let inverse = SignedPauli { sign: p.sign != (count_i(p) != 0), x: p.x, z: p.z };
    assert(seq_xor(p.x, p.x) =~= zeros(p.x.len()));
    assert(seq_xor(p.z, p.z) =~= zeros(p.x.len()));
    assert(seq_and(zeros(p.x.len()), zeros(p.x.len())) =~= zeros(p.x.len()));
    crate::bitseq::lemma_count_zeros(p.x.len());
    assert(seq_and(p.z, p.x) =~= seq_and(p.x, p.z));
    assert(seq_and(seq_and(seq_and(p.x, p.z), p.z), p.x) =~= seq_and(p.x, p.z));
    assert(count_i(pauli_xor(p, p)) == 0);
    assert(count_i(pauli_xor(p, inverse)) == 0);
    assert(count_i(inverse) == count_i(p));
}

/// The Y factors of the two strings and of their exclusive or sum to an
/// even number if the strings commute, and to an odd number if not.
pub proof fn lemma_y_parity(p: SignedPauli, q: SignedPauli)
    requires
        p.x.len() == p.z.len(),
        q.x.len() == q.z.len(),
        p.x.len() == q.x.len(),
    ensures
        commutes(p, q) == ((count_i(pauli_xor(p, q)) + count_i(p) + count_i(q)) % 2 == 0),
        commutes(p, q) ==> (count_i(pauli_xor(p, q)) - count_i(p) - count_i(q)) % 2 == 0,
    decreases p.x.len(),
{
    if p.x.len() > 0 {
        let p0 = SignedPauli { sign: p.sign, x: p.x.drop_last(), z: p.z.drop_last() };
        let q0 = SignedPauli { sign: q.sign, x: q.x.drop_last(), z: q.z.drop_last() };
        lemma_y_parity(p0, q0);
        let r = pauli_xor(p, q);
        let r0 = pauli_xor(p0, q0);
        assert(r.x.drop_last() =~= r0.x);
        assert(r.z.drop_last() =~= r0.z);
        assert(seq_and(r.x, r.z).drop_last() =~= seq_and(r0.x, r0.z));
        assert(seq_and(p.x, p.z).drop_last() =~= seq_and(p0.x, p0.z));
        assert(seq_and(q.x, q.z).drop_last() =~= seq_and(q0.x, q0.z));
        assert(seq_and(p.z, q.x).drop_last() =~= seq_and(p0.z, q0.x));
        assert(seq_and(p.x, q.z).drop_last() =~= seq_and(p0.x, q0.z));
    }
}

/// The decimal digit of a number below ten.
pub open spec fn digit_char(d: nat) -> char {
    if d == 0 {
        '0'
    } else if d == 1 {
        '1'
    } else if d == 2 {
        '2'
    } else if d == 3 {
        '3'
    } else if d == 4 {
        '4'
    } else if d == 5 {
        '5'
    } else if d == 6 {
        '6'
    } else if d == 7 {
        '7'
    } else if d == 8 {
        '8'
    } else {
        '9'
    }
}

/// A number in decimal, without leading zeros.
pub open spec fn decimal(n: nat) -> Seq<char>
    decreases n,
{
    if n < 10 {
        seq![digit_char(n)]
    } else {
        decimal(n / 10).push(digit_char(n % 10))
    }
}

/// The first `n` bits as binary digits.
pub open spec fn bits_text(s: Seq<bool>, n: int) -> Seq<char> {
    Seq::new(
        n as nat,
        |i: int|
            if s[i] {
                '1'
            } else {
                '0'
            },
    )
}

/// A Pauli string on `n` qubits, written out for a reader: the width of
/// its parts, its sign bit, and the bits of its x part and of its z part.
pub open spec fn dbg_text(p: SignedPauli, n: int) -> Seq<char> {
    seq!['S', 'y', 'm', 'p', 'l', 'e', 'c', 't', 'i', 'c'] + decimal(p.x.len()) + seq![' ', '{', ' ']
        + seq![if p.sign { '1' } else { '0' }] + seq![' ', '|', ' ', '0', 'b'] + bits_text(p.x, n)
        + seq![' ', '|', ' ', '0', 'b'] + bits_text(p.z, n) + seq![' ', '}']
}

/// Appends a number in decimal.
fn write_decimal(buf: &mut String, n: usize)
    ensures
        final(buf)@ == old(buf)@ + decimal(n as nat),
    decreases n,
{
    let ghost before = buf@;
    if n >= 10 {
        write_decimal(buf, n / 10);
    }
    let ghost high = buf@;
    let d = n % 10;
    proof {
        reveal_strlit("0");
        reveal_strlit("1");
        reveal_strlit("2");
        reveal_strlit("3");
        reveal_strlit("4");
        reveal_strlit("5");
        reveal_strlit("6");
        reveal_strlit("7");
        reveal_strlit("8");
        reveal_strlit("9");
    }
    if d == 0 {
        buf.append("0");
    } else if d == 1 {
        buf.append("1");
    } else if d == 2 {
        buf.append("2");
    } else if d == 3 {
        buf.append("3");
    } else if d == 4 {
        buf.append("4");
    } else if d == 5 {
        buf.append("5");
    } else if d == 6 {
        buf.append("6");
    } else if d == 7 {
        buf.append("7");
    } else if d == 8 {
        buf.append("8");
    } else {
        buf.append("9");
    }
    assert(buf@ =~= high + seq![digit_char(d as nat)]);
    if n >= 10 {
        assert(buf@ =~= before + decimal(n as nat));
    } else {
        assert(buf@ =~= before + decimal(n as nat));
    }
}

/// Appends the first `n` bits of a basis as binary digits.
fn write_bits<B: Basis>(buf: &mut String, bits: &B, n: usize)
    requires
        bits.wf(),
        n <= bits.seq().len(),
    ensures
        final(buf)@ == old(buf)@ + bits_text(bits.seq(), n as int),
{
    let ghost before = buf@;
    proof {
        reveal_strlit("0");
        reveal_strlit("1");
        assert(before + bits_text(bits.seq(), 0) =~= before);
    }
    let mut bit: usize = 0;
    while bit < n
        invariant
            bit <= n,
            bits.wf(),
            n <= bits.seq().len(),
            "0"@ == seq!['0'],
            "1"@ == seq!['1'],
            buf@ == before + bits_text(bits.seq(), bit as int),
        decreases n - bit,
    {
        if bits.get_bit(bit) {
            buf.append("1");
        } else {
            buf.append("0");
        }
        assert(buf@ =~= before + bits_text(bits.seq(), bit + 1));
        bit += 1;
    }
}

/// A signed Pauli string over a basis type.
#[derive(Clone, Debug, PartialEq, Eq, PartialOrd, Ord)]
pub struct Symplectic<B: Basis> {
    pub sign: bool,
    pub x: B,
    pub z: B,
}

impl<B: Basis> View for Symplectic<B> {
    type V = SignedPauli;

    open spec fn view(&self) -> SignedPauli {
        SignedPauli { sign: self.sign, x: self.x.seq(), z: self.z.seq() }
    }
}

impl<B: Basis> Symplectic<B> {
    /// Both parts are well formed and of one class.
    pub open spec fn wf(&self) -> bool {
        self.x.wf() && self.z.wf() && self.x.class() == self.z.class()
    }

    /// The class of the two parts.
    pub open spec fn class(&self) -> nat {
        self.x.class()
    }

    /// A well-formed Pauli string made for `n_qubits` qubits.
    pub open spec fn wf_for(&self, n_qubits: usize) -> bool {
        self.wf() && B::fits(n_qubits) && self.class() == B::class_of(n_qubits)
    }

    /// The two parts of a well-formed Pauli string are of one width.
    pub proof fn lemma_widths(&self)
        requires
            self.wf(),
        ensures
            self.x.seq().len() == self.z.seq().len(),
    {
        self.x.lemma_class_len(&self.z);
    }

    /// Appends the Pauli string on `n_qubits` qubits to `buf`, written out
    /// for a reader.
    pub fn dbg(&self, buf: &mut String, n_qubits: usize)
        requires
            self.wf(),
            n_qubits <= self.x.seq().len(),
        ensures
            final(buf)@ == old(buf)@ + dbg_text(self@, n_qubits as int),
    {
        let ghost before = buf@;
        proof {
            self.lemma_widths();
            reveal_strlit("Symplectic");
            reveal_strlit(" { ");
            reveal_strlit("0");
            reveal_strlit("1");
            reveal_strlit(" | 0b");
            reveal_strlit(" }");
        }
        buf.append("Symplectic");
        write_decimal(buf, self.x.bit_capacity());
        buf.append(" { ");
        if self.sign {
            buf.append("1");
        } else {
            buf.append("0");
        }
        buf.append(" | 0b");
        write_bits(buf, &self.x, n_qubits);
        buf.append(" | 0b");
        write_bits(buf, &self.z, n_qubits);
        buf.append(" }");
        assert(buf@ =~= before + dbg_text(self@, n_qubits as int));
    }

    /// The Pauli string on `n_qubits` qubits, written out for a reader.
    pub fn dbg_out(&self, n_qubits: usize) -> (r: String)
        requires
            self.wf(),
            n_qubits <= self.x.seq().len(),
        ensures
            r@ == dbg_text(self@, n_qubits as int),
    {
        let mut buf = String::new();
        self.dbg(&mut buf, n_qubits);
        assert(buf@ =~= dbg_text(self@, n_qubits as int));
        buf
    }

    /// The number of Y factors.
    pub fn count_i(&self) -> (r: usize)
        requires
            self.wf(),
        ensures
            r == count_i(self@),
    {
        self.x.and(&self.z).popcnt()
    }

    /// The identity string on `n_qubits` qubits, with positive sign.
    pub fn zero(n_qubits: usize) -> (r: Self)
        requires
            B::fits(n_qubits),
        ensures
            r.wf_for(n_qubits),
            r@ == zero_pauli(B::capacity_of(n_qubits)),
    {
        Self { sign: false, x: B::zero(n_qubits), z: B::zero(n_qubits) }
    }

    /// Resets to the identity string with positive sign.
    pub fn set_zero(&mut self)
        requires
            old(self).wf(),
        ensures
            final(self).wf(),
            final(self).class() == old(self).class(),
            final(self)@ == zero_pauli(old(self).x.seq().len()),
    {
        proof {
            self.lemma_widths();
        }
        self.sign = false;
        self.x.set_zero();
        self.z.set_zero();
    }

    /// The string with the given sign whose x part and z part have exactly
    /// the listed bits set.
    pub fn from_indexes(n_qubits: usize, sign: bool, x_i: &[usize], z_i: &[usize]) -> (r: Self)
        requires
            B::fits(n_qubits),
            forall|j: int| 0 <= j < x_i@.len() ==> x_i@[j] < B::capacity_of(n_qubits),
            forall|j: int| 0 <= j < z_i@.len() ==> z_i@[j] < B::capacity_of(n_qubits),
        ensures
            r.wf_for(n_qubits),
            r.sign == sign,
            r.x.seq() == Seq::new(
                B::capacity_of(n_qubits),
                |i: int| exists|j: int| 0 <= j < x_i@.len() && x_i@[j] == i,
            ),
            r.z.seq() == Seq::new(
                B::capacity_of(n_qubits),
                |i: int| exists|j: int| 0 <= j < z_i@.len() && z_i@[j] == i,
            ),
    {
        Self { sign, x: B::with_true_bits(n_qubits, x_i), z: B::with_true_bits(n_qubits, z_i) }
    }

    /// The string read from two texts of `0` and `1`: bit `i` of a part is
    /// set where byte `i` of its text is `1`. The sign is negative where
    /// `sign` is not zero.
    pub fn from_bitstring(n_qubits: usize, sign: u8, x: &str, z: &str) -> (r: Self)
        requires
            B::fits(n_qubits),
            n_qubits <= x.spec_bytes().len(),
            n_qubits <= z.spec_bytes().len(),
        ensures
            r.wf_for(n_qubits),
            r.sign == (sign > 0),
            r.x.seq() == Seq::new(
                B::capacity_of(n_qubits),
                |i: int| i < n_qubits && x.spec_bytes()[i] == 0x31,
            ),
            r.z.seq() == Seq::new(
                B::capacity_of(n_qubits),
                |i: int| i < n_qubits && z.spec_bytes()[i] == 0x31,
            ),
    {
        let mut new = Self::zero(n_qubits);
        new.sign = sign > 0;
        let xb = x.as_bytes();
        let zb = z.as_bytes();
        proof {
            new.x.lemma_capacity(n_qubits);
            new.z.lemma_capacity(n_qubits);
        }
        let ghost cap = B::capacity_of(n_qubits);
        let mut i: usize = 0;
        while i < n_qubits
            invariant
                i <= n_qubits <= cap,
                n_qubits <= xb@.len(),
                n_qubits <= zb@.len(),
                new.wf_for(n_qubits),
                new.sign == (sign > 0),
                new.x.seq() == Seq::new(cap, |k: int| k < i && xb@[k] == 0x31),
                new.z.seq() == Seq::new(cap, |k: int| k < i && zb@[k] == 0x31),
            decreases n_qubits - i,
        {
            if xb[i] == 0x31 {
                new.x.set_bit_true(i);
            }
            if zb[i] == 0x31 {
                new.z.set_bit_true(i);
            }
            i += 1;
            assert(new.x.seq() =~= Seq::new(cap, |k: int| k < i && xb@[k] == 0x31));
            assert(new.z.seq() =~= Seq::new(cap, |k: int| k < i && zb@[k] == 0x31));
        }
        new
    }

    /// Whether two Pauli strings commute.
    pub fn commutes_with(&self, rhs: &Self) -> (r: bool)
        requires
            self.wf(),
            rhs.wf(),
            self.class() == rhs.class(),
        ensures
            r == commutes(self@, rhs@),
    {
        self.z.and(&rhs.x).parity() == self.x.and(&rhs.z).parity()
    }

    /// Componentwise exclusive or with `rhs`.
    pub fn xor_assign(&mut self, rhs: &Self)
        requires
            old(self).wf(),
            rhs.wf(),
            old(self).class() == rhs.class(),
        ensures
            final(self).wf(),
            final(self).class() == old(self).class(),
            final(self)@ == pauli_xor(old(self)@, rhs@),
    {
        self.sign = self.sign != rhs.sign;
        self.x.xor_assign(&rhs.x);
        self.z.xor_assign(&rhs.z);
    }

    /// Multiplies by `rhs` from the right; the two strings anticommute.
    pub fn mul_by(&mut self, rhs: &Self)
        requires
            old(self).wf(),
            rhs.wf(),
            old(self).class() == rhs.class(),
        ensures
            final(self).wf(),
            final(self).class() == old(self).class(),
            final(self)@ == product(old(self)@, rhs@),
    {
        let p_i = self.count_i();
        let q_i = rhs.count_i();
        let first = self.z.and(&rhs.x).parity();
        let second = rhs.x.and(&self.z).and(&rhs.z).and(&self.x).parity();
        let theta_c = first != second;

        self.xor_assign(rhs);

        let total: u128 = p_i as u128 + q_i as u128 + 1;
        let r_i: u128 = self.count_i() as u128;
        let phase_sum: u128 = if total >= r_i {
            total - r_i
        } else {
            r_i - total
        };
        let half = phase_sum / 2;
        self.sign = self.sign != (half != 0);
        self.sign = self.sign != theta_c;
    }

    /// The product `self * rhs` of two anticommuting strings.
    pub fn mul(&self, rhs: &Self) -> (r: Self)
        requires
            self.wf(),
            rhs.wf(),
            self.class() == rhs.class(),
        ensures
            r.wf(),
            r.class() == self.class(),
            r@ == product(self@, rhs@),
    {
        let mut new = self.duplicate();
        new.mul_by(rhs);
        new
    }

    /// A copy of the string.
    pub fn duplicate(&self) -> (r: Self)
        requires
            self.wf(),
        ensures
            r.wf(),
            r.class() == self.class(),
            r@ == self@,
    {
        Self { sign: self.sign, x: self.x.duplicate(), z: self.z.duplicate() }
    }

    /// Whether two strings of one class are equal.
    pub fn same(&self, rhs: &Self) -> (r: bool)
        requires
            self.wf(),
            rhs.wf(),
            self.class() == rhs.class(),
        ensures
            r == (self@ == rhs@),
    {
        self.sign == rhs.sign && self.x.same(&rhs.x) && self.z.same(&rhs.z)
    }
}

} // verus!
