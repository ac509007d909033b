//! The base field of the circuit: elements kept as canonical 32-byte
//! little-endian encodings, with arithmetic delegated to `halo2curves`.

use halo2curves::bls12381::Fr;
use vstd::prelude::*;

verus! {

/// The order of the base field (the scalar field of BLS12-381).
pub open spec fn modulus() -> nat {
    0x73eda753299d7d483339d80809a1d80553bda402fffe5bfeffffffff00000001nat
}

/// The little-endian value of the eight bytes of `s` that start at `at`.
pub open spec fn le_limb(s: Seq<u8>, at: int) -> nat {
    (s[at] as nat) + 0x100 * (s[at + 1] as nat) + 0x1_0000 * (s[at + 2] as nat) + 0x100_0000 * (s[at
        + 3] as nat) + 0x1_0000_0000 * (s[at + 4] as nat) + 0x100_0000_0000 * (s[at + 5] as nat)
        + 0x1_0000_0000_0000 * (s[at + 6] as nat) + 0x100_0000_0000_0000 * (s[at + 7] as nat)
}

/// The little-endian value of a 32-byte encoding.
pub open spec fn le_value(s: Seq<u8>) -> nat {
    le_limb(s, 0) + 0x1_0000_0000_0000_0000 * le_limb(s, 8)
        + 0x1_0000_0000_0000_0000_0000_0000_0000_0000 * le_limb(s, 16)
        + 0x1_0000_0000_0000_0000_0000_0000_0000_0000_0000_0000_0000_0000 * le_limb(s, 24)
}

/// The representative in `[0, modulus())` of an integer.
pub open spec fn fe(x: int) -> nat {
    (x % (modulus() as int)) as nat
}

/// Field addition on representatives.
pub open spec fn fadd(a: nat, b: nat) -> nat {
    fe(a as int + b as int)
}

/// Field negation on representatives.
pub open spec fn fneg(a: nat) -> nat {
    fe(-(a as int))
}

/// Field subtraction on representatives.
pub open spec fn fsub(a: nat, b: nat) -> nat {
    fadd(a, fneg(b))
}

/// Field multiplication on representatives.
pub open spec fn fmul(a: nat, b: nat) -> nat {
    fe(a as int * b as int)
}

/// Whether `b` is a reduced multiplicative inverse of `a`.
pub open spec fn is_inverse(a: nat, b: nat) -> bool {
    b < modulus() && fmul(a, b) == 1
}

/// The multiplicative inverse of `a`, and zero where `a` has none.
pub open spec fn finv(a: nat) -> nat {
    if exists|b: nat| is_inverse(a, b) {
        choose|b: nat| is_inverse(a, b)
    } else {
        0
    }
}

/// Whether `a` has a multiplicative inverse.
pub open spec fn invertible(a: nat) -> bool {
    is_inverse(a, finv(a))
}

/// Field division `a / b`, with the convention that dividing by a
/// non-invertible element gives zero.
pub open spec fn fdiv(a: nat, b: nat) -> nat {
    fmul(a, finv(b))
}

/// An element of the base field in its canonical little-endian encoding.
#[derive(Clone, Copy, Debug)]
pub struct Fe {
    repr: [u8; 32],
}

impl View for Fe {
    type V = nat;

    /// The little-endian value of the encoding.
    closed spec fn view(&self) -> nat {
        le_value(self.repr@)
    }
}

impl Fe {
    /// The 32 bytes of the encoding.
    pub closed spec fn encoding(&self) -> Seq<u8> {
        self.repr@
    }

    /// The encoding is canonical: its value is below the modulus.
    pub open spec fn wf(&self) -> bool {
        self@ < modulus()
    }
}

/// Whether a string is a decimal numeral: digits only, at least one, and
/// no leading zero but for the numeral `0` itself.
pub open spec fn is_decimal(s: Seq<char>) -> bool {
    &&& s.len() > 0
    &&& forall|i: int| 0 <= i < s.len() ==> 48 <= (#[trigger] s[i]) as u32 <= 57
    &&& s.len() == 1 || s[0] as u32 != 48
}

/// The number a string of digits stands for.
pub open spec fn decimal_value(s: Seq<char>) -> nat
    decreases s.len(),
{
    if s.len() == 0 {
        0
    } else {
        10 * decimal_value(s.drop_last()) + ((s.last() as u32 - 48) as nat)
    }
}

/// Parses a decimal numeral with `ff::PrimeField::from_str_vartime` as
/// `halo2curves` provides it for `Fr`. Taken on trust from that source: it
/// accepts exactly the numerals without needless leading zeros and returns
/// the canonical encoding of their value modulo the field order.
#[verifier::external_body]
fn field_from_decimal(s: &str) -> (r: Option<[u8; 32]>)
    ensures
        r is Some <==> is_decimal(s@),
        r matches Some(v) ==> le_value(v@) == fe(decimal_value(s@) as int),
{
    let parsed: Option<Fr> = halo2curves::ff::PrimeField::from_str_vartime(s);
    match parsed {
        Some(v) => Some(v.to_bytes()),
        None => None,
    }
}

/// Calls `Fr::from_bytes` of `halo2curves` and reports whether it accepted
/// the encoding. Taken on trust from that source: it does so exactly when
/// the little-endian value of the bytes is below the modulus.
#[verifier::external_body]
fn repr_is_canonical(bytes: &[u8; 32]) -> (ok: bool)
    ensures
        ok == (le_value(bytes@) < modulus()),
{
    bool::from(Fr::from_bytes(bytes).is_some())
}

/// Adds two canonical encodings with the `Add` impl of
/// `halo2curves::bls12381::Fr`. Taken on trust from that source: the result
/// is the canonical encoding of the sum modulo the field order.
#[verifier::external_body]
fn field_sum(a: &[u8; 32], b: &[u8; 32]) -> (r: [u8; 32])
    requires
        le_value(a@) < modulus(),
        le_value(b@) < modulus(),
    ensures
        le_value(r@) == fadd(le_value(a@), le_value(b@)),
{
    let x = Fr::from_bytes(a).unwrap();
    let y = Fr::from_bytes(b).unwrap();
    (x + y).to_bytes()
}

/// Multiplies two canonical encodings with the `Mul` impl of
/// `halo2curves::bls12381::Fr`. Taken on trust from that source: the result
/// is the canonical encoding of the product modulo the field order.
#[verifier::external_body]
fn field_product(a: &[u8; 32], b: &[u8; 32]) -> (r: [u8; 32])
    requires
        le_value(a@) < modulus(),
        le_value(b@) < modulus(),
    ensures
        le_value(r@) == fmul(le_value(a@), le_value(b@)),
{
    let x = Fr::from_bytes(a).unwrap();
    let y = Fr::from_bytes(b).unwrap();
    (x * y).to_bytes()
}

/// Negates a canonical encoding with the `Neg` impl of
/// `halo2curves::bls12381::Fr`. Taken on trust from that source: the result
/// is the canonical encoding of the additive inverse.
#[verifier::external_body]
fn field_negation(a: &[u8; 32]) -> (r: [u8; 32])
    requires
        le_value(a@) < modulus(),
    ensures
        le_value(r@) == fneg(le_value(a@)),
{
    let x = Fr::from_bytes(a).unwrap();
    (-x).to_bytes()
}

/// Inverts a canonical encoding with `ff::Field::invert` as `halo2curves`
/// implements it for `Fr`. Taken on trust from that source: it fails exactly
/// on zero, and otherwise returns the canonical encoding of an element
/// whose product with the argument is one.
#[verifier::external_body]
fn field_inverse(a: &[u8; 32]) -> (r: Option<[u8; 32]>)
    requires
        le_value(a@) < modulus(),
    ensures
        r is Some <==> le_value(a@) != 0,
        r matches Some(v) ==> is_inverse(le_value(a@), le_value(v@)),
{
    let x = Fr::from_bytes(a).unwrap();
    match Option::<Fr>::from(halo2curves::ff::Field::invert(&x)) {
        Some(v) => Some(v.to_bytes()),
        None => None,
    }
}

/// A 128-bit integer is the little-endian value of its sixteen bytes.
pub proof fn lemma_u128_bytes(v: u128)
    ensures
        v == (v & 0xff) + 0x100u128 * ((v >> 8) & 0xff) + 0x10000u128 * ((v >> 16) & 0xff)
            + 0x1000000u128 * ((v >> 24) & 0xff) + 0x100000000u128 * ((v >> 32) & 0xff)
            + 0x10000000000u128 * ((v >> 40) & 0xff) + 0x1000000000000u128 * ((v >> 48) & 0xff)
            + 0x100000000000000u128 * ((v >> 56) & 0xff)
            + 0x10000000000000000u128 * ((v >> 64) & 0xff)
            + 0x1000000000000000000u128 * ((v >> 72) & 0xff)
            + 0x100000000000000000000u128 * ((v >> 80) & 0xff)
            + 0x10000000000000000000000u128 * ((v >> 88) & 0xff)
            + 0x1000000000000000000000000u128 * ((v >> 96) & 0xff)
            + 0x100000000000000000000000000u128 * ((v >> 104) & 0xff)
            + 0x10000000000000000000000000000u128 * ((v >> 112) & 0xff)
            + 0x1000000000000000000000000000000u128 * ((v >> 120) & 0xff),
        (v & 0xff) < 0x100,
        ((v >> 8) & 0xff) < 0x100,
        ((v >> 16) & 0xff) < 0x100,
        ((v >> 24) & 0xff) < 0x100,
        ((v >> 32) & 0xff) < 0x100,
        ((v >> 40) & 0xff) < 0x100,
        ((v >> 48) & 0xff) < 0x100,
        ((v >> 56) & 0xff) < 0x100,
        ((v >> 64) & 0xff) < 0x100,
        ((v >> 72) & 0xff) < 0x100,
        ((v >> 80) & 0xff) < 0x100,
        ((v >> 88) & 0xff) < 0x100,
        ((v >> 96) & 0xff) < 0x100,
        ((v >> 104) & 0xff) < 0x100,
        ((v >> 112) & 0xff) < 0x100,
        ((v >> 120) & 0xff) < 0x100,
{
    assert(v == (v & 0xff) + 0x100u128 * ((v >> 8) & 0xff) + 0x10000u128 * ((v >> 16) & 0xff)
        + 0x1000000u128 * ((v >> 24) & 0xff) + 0x100000000u128 * ((v >> 32) & 0xff)
        + 0x10000000000u128 * ((v >> 40) & 0xff) + 0x1000000000000u128 * ((v >> 48) & 0xff)
        + 0x100000000000000u128 * ((v >> 56) & 0xff)
        + 0x10000000000000000u128 * ((v >> 64) & 0xff)
        + 0x1000000000000000000u128 * ((v >> 72) & 0xff)
        + 0x100000000000000000000u128 * ((v >> 80) & 0xff)
        + 0x10000000000000000000000u128 * ((v >> 88) & 0xff)
        + 0x1000000000000000000000000u128 * ((v >> 96) & 0xff)
        + 0x100000000000000000000000000u128 * ((v >> 104) & 0xff)
        + 0x10000000000000000000000000000u128 * ((v >> 112) & 0xff)
        + 0x1000000000000000000000000000000u128 * ((v >> 120) & 0xff)) by (bit_vector);
    assert((v & 0xff) < 0x100 && ((v >> 8) & 0xff) < 0x100 && ((v >> 16) & 0xff) < 0x100
        && ((v >> 24) & 0xff) < 0x100 && ((v >> 32) & 0xff) < 0x100
        && ((v >> 40) & 0xff) < 0x100 && ((v >> 48) & 0xff) < 0x100
        && ((v >> 56) & 0xff) < 0x100 && ((v >> 64) & 0xff) < 0x100
        && ((v >> 72) & 0xff) < 0x100 && ((v >> 80) & 0xff) < 0x100
        && ((v >> 88) & 0xff) < 0x100 && ((v >> 96) & 0xff) < 0x100
        && ((v >> 104) & 0xff) < 0x100 && ((v >> 112) & 0xff) < 0x100
        && ((v >> 120) & 0xff) < 0x100) by (bit_vector);
}

/// A number splits in one way into a digit below 256 and the rest.
proof fn lemma_low_digit(b: nat, rest: nat, c: nat, other: nat)
    requires
        b < 256,
        c < 256,
        b + 256 * rest == c + 256 * other,
    ensures
        b == c,
        rest == other,
{
}

/// Eight little-endian bytes stay below `2^64` and are determined by their
/// value.
pub proof fn lemma_le_limb_injective(s: Seq<u8>, t: Seq<u8>, at: int)
    requires
        0 <= at,
        at + 8 <= s.len(),
        at + 8 <= t.len(),
    ensures
        le_limb(s, at) < 0x1_0000_0000_0000_0000,
        le_limb(s, at) == le_limb(t, at) ==> forall|i: int|
            at <= i < at + 8 ==> s[i] == t[i],
{
    if le_limb(s, at) == le_limb(t, at) {
        let s0: nat = s[at + 0] as nat + 0x100 * (s[at + 1] as nat) + 0x10000 * (s[at
            + 2] as nat) + 0x1000000 * (s[at + 3] as nat) + 0x100000000 * (s[at + 4] as nat)
            + 0x10000000000 * (s[at + 5] as nat) + 0x1000000000000 * (s[at + 6] as nat)
            + 0x100000000000000 * (s[at + 7] as nat);
        let t0: nat = t[at + 0] as nat + 0x100 * (t[at + 1] as nat) + 0x10000 * (t[at
            + 2] as nat) + 0x1000000 * (t[at + 3] as nat) + 0x100000000 * (t[at + 4] as nat)
            + 0x10000000000 * (t[at + 5] as nat) + 0x1000000000000 * (t[at + 6] as nat)
            + 0x100000000000000 * (t[at + 7] as nat);
        let s1: nat = s[at + 1] as nat + 0x100 * (s[at + 2] as nat) + 0x10000 * (s[at
            + 3] as nat) + 0x1000000 * (s[at + 4] as nat) + 0x100000000 * (s[at + 5] as nat)
            + 0x10000000000 * (s[at + 6] as nat) + 0x1000000000000 * (s[at + 7] as nat);
        let t1: nat = t[at + 1] as nat + 0x100 * (t[at + 2] as nat) + 0x10000 * (t[at
            + 3] as nat) + 0x1000000 * (t[at + 4] as nat) + 0x100000000 * (t[at + 5] as nat)
            + 0x10000000000 * (t[at + 6] as nat) + 0x1000000000000 * (t[at + 7] as nat);
        let s2: nat = s[at + 2] as nat + 0x100 * (s[at + 3] as nat) + 0x10000 * (s[at
            + 4] as nat) + 0x1000000 * (s[at + 5] as nat) + 0x100000000 * (s[at + 6] as nat)
            + 0x10000000000 * (s[at + 7] as nat);
        let t2: nat = t[at + 2] as nat + 0x100 * (t[at + 3] as nat) + 0x10000 * (t[at
            + 4] as nat) + 0x1000000 * (t[at + 5] as nat) + 0x100000000 * (t[at + 6] as nat)
            + 0x10000000000 * (t[at + 7] as nat);
        let s3: nat = s[at + 3] as nat + 0x100 * (s[at + 4] as nat) + 0x10000 * (s[at
            + 5] as nat) + 0x1000000 * (s[at + 6] as nat) + 0x100000000 * (s[at + 7] as nat);
        let t3: nat = t[at + 3] as nat + 0x100 * (t[at + 4] as nat) + 0x10000 * (t[at
            + 5] as nat) + 0x1000000 * (t[at + 6] as nat) + 0x100000000 * (t[at + 7] as nat);
        let s4: nat = s[at + 4] as nat + 0x100 * (s[at + 5] as nat) + 0x10000 * (s[at
            + 6] as nat) + 0x1000000 * (s[at + 7] as nat);
        let t4: nat = t[at + 4] as nat + 0x100 * (t[at + 5] as nat) + 0x10000 * (t[at
            + 6] as nat) + 0x1000000 * (t[at + 7] as nat);
        let s5: nat = s[at + 5] as nat + 0x100 * (s[at + 6] as nat) + 0x10000 * (s[at + 7] as nat);
        let t5: nat = t[at + 5] as nat + 0x100 * (t[at + 6] as nat) + 0x10000 * (t[at + 7] as nat);
        let s6: nat = s[at + 6] as nat + 0x100 * (s[at + 7] as nat);
        let t6: nat = t[at + 6] as nat + 0x100 * (t[at + 7] as nat);
        let s7: nat = s[at + 7] as nat;
        let t7: nat = t[at + 7] as nat;
        let s8: nat = 0;
        let t8: nat = 0;
        lemma_low_digit(s[at + 0] as nat, s1, t[at + 0] as nat, t1);
        lemma_low_digit(s[at + 1] as nat, s2, t[at + 1] as nat, t2);
        lemma_low_digit(s[at + 2] as nat, s3, t[at + 2] as nat, t3);
        lemma_low_digit(s[at + 3] as nat, s4, t[at + 3] as nat, t4);
        lemma_low_digit(s[at + 4] as nat, s5, t[at + 4] as nat, t5);
        lemma_low_digit(s[at + 5] as nat, s6, t[at + 5] as nat, t6);
        lemma_low_digit(s[at + 6] as nat, s7, t[at + 6] as nat, t7);
        lemma_low_digit(s[at + 7] as nat, s8, t[at + 7] as nat, t8);
        assert forall|i: int| at <= i < at + 8 implies s[i] == t[i] by {
            assert(i == at || i == at + 1 || i == at + 2 || i == at + 3 || i == at + 4 || i == at
                + 5 || i == at + 6 || i == at + 7);
        }
    }
}

/// Two 32-byte encodings with the same little-endian value are the same
/// bytes.
pub proof fn lemma_le_value_injective(s: Seq<u8>, t: Seq<u8>)
    requires
        s.len() == 32,
        t.len() == 32,
        le_value(s) == le_value(t),
    ensures
        s == t,
{
    lemma_le_limb_injective(s, t, 0);
    lemma_le_limb_injective(s, t, 8);
    lemma_le_limb_injective(s, t, 16);
    lemma_le_limb_injective(s, t, 24);
    lemma_le_limb_injective(t, s, 0);
    lemma_le_limb_injective(t, s, 8);
    lemma_le_limb_injective(t, s, 16);
    lemma_le_limb_injective(t, s, 24);
    assert(le_limb(s, 0) == le_limb(t, 0));
    assert(le_limb(s, 8) == le_limb(t, 8));
    assert(le_limb(s, 16) == le_limb(t, 16));
    assert(le_limb(s, 24) == le_limb(t, 24));
    assert(s =~= t);
}

impl Fe {
    /// The additive identity.
    pub fn zero() -> (r: Fe)
        ensures
            r.wf(),
            r@ == 0,
    {
        Fe { repr: [0u8; 32] }
    }

    /// The multiplicative identity.
    pub fn one() -> (r: Fe)
        ensures
            r.wf(),
            r@ == 1,
    {
        Fe::from_u128(1)
    }

    /// The element that a 128-bit unsigned integer stands for.
    pub fn from_u128(v: u128) -> (r: Fe)
        ensures
            r.wf(),
            r@ == v,
    {
        let bytes: [u8; 32] = [
            (v & 0xff) as u8,
            ((v >> 8) & 0xff) as u8,
            ((v >> 16) & 0xff) as u8,
            ((v >> 24) & 0xff) as u8,
            ((v >> 32) & 0xff) as u8,
            ((v >> 40) & 0xff) as u8,
            ((v >> 48) & 0xff) as u8,
            ((v >> 56) & 0xff) as u8,
            ((v >> 64) & 0xff) as u8,
            ((v >> 72) & 0xff) as u8,
            ((v >> 80) & 0xff) as u8,
            ((v >> 88) & 0xff) as u8,
            ((v >> 96) & 0xff) as u8,
            ((v >> 104) & 0xff) as u8,
            ((v >> 112) & 0xff) as u8,
            ((v >> 120) & 0xff) as u8,
            0u8, 0u8, 0u8, 0u8, 0u8, 0u8, 0u8, 0u8, 0u8, 0u8, 0u8, 0u8, 0u8, 0u8, 0u8, 0u8,
        ];
        proof {
            lemma_u128_bytes(v);
            assert(bytes@[0] == v & 0xff);
            assert(bytes@[1] == (v >> 8) & 0xff);
            assert(bytes@[2] == (v >> 16) & 0xff);
            assert(bytes@[3] == (v >> 24) & 0xff);
            assert(bytes@[4] == (v >> 32) & 0xff);
            assert(bytes@[5] == (v >> 40) & 0xff);
            assert(bytes@[6] == (v >> 48) & 0xff);
            assert(bytes@[7] == (v >> 56) & 0xff);
            assert(bytes@[8] == (v >> 64) & 0xff);
            assert(bytes@[9] == (v >> 72) & 0xff);
            assert(bytes@[10] == (v >> 80) & 0xff);
            assert(bytes@[11] == (v >> 88) & 0xff);
            assert(bytes@[12] == (v >> 96) & 0xff);
            assert(bytes@[13] == (v >> 104) & 0xff);
            assert(bytes@[14] == (v >> 112) & 0xff);
            assert(bytes@[15] == (v >> 120) & 0xff);
            assert(bytes@[16] == 0);
            assert(bytes@[17] == 0);
            assert(bytes@[18] == 0);
            assert(bytes@[19] == 0);
            assert(bytes@[20] == 0);
            assert(bytes@[21] == 0);
            assert(bytes@[22] == 0);
            assert(bytes@[23] == 0);
            assert(bytes@[24] == 0);
            assert(bytes@[25] == 0);
            assert(bytes@[26] == 0);
            assert(bytes@[27] == 0);
            assert(bytes@[28] == 0);
            assert(bytes@[29] == 0);
            assert(bytes@[30] == 0);
            assert(bytes@[31] == 0);
            assert(le_limb(bytes@, 16) == 0);
            assert(le_limb(bytes@, 24) == 0);
        }
        Fe { repr: bytes }
    }

    /// The element that a 64-bit unsigned integer stands for.
    pub fn from_u64(v: u64) -> (r: Fe)
        ensures
            r.wf(),
            r@ == v,
    {
        Fe::from_u128(v as u128)
    }

    /// Decodes a 32-byte little-endian encoding, which succeeds exactly when
    /// it is canonical.
    pub fn from_repr(bytes: [u8; 32]) -> (r: Option<Fe>)
        ensures
            r is Some <==> le_value(bytes@) < modulus(),
            r matches Some(v) ==> v.wf() && v.encoding() == bytes@ && v@ == le_value(bytes@),
    {
        if repr_is_canonical(&bytes) {
            Some(Fe { repr: bytes })
        } else {
            None
        }
    }

    /// The canonical little-endian encoding.
    pub fn to_repr(&self) -> (r: [u8; 32])
        ensures
            r@ == self.encoding(),
            le_value(r@) == self@,
    {
        self.repr
    }

    /// The sum of two elements.
    pub fn plus(&self, other: &Fe) -> (r: Fe)
        requires
            self.wf(),
            other.wf(),
        ensures
            r.wf(),
            r@ == fadd(self@, other@),
    {
        Fe { repr: field_sum(&self.repr, &other.repr) }
    }

    /// The product of two elements.
    pub fn times(&self, other: &Fe) -> (r: Fe)
        requires
            self.wf(),
            other.wf(),
        ensures
            r.wf(),
            r@ == fmul(self@, other@),
    {
        Fe { repr: field_product(&self.repr, &other.repr) }
    }

    /// The additive inverse.
    pub fn negated(&self) -> (r: Fe)
        requires
            self.wf(),
        ensures
            r.wf(),
            r@ == fneg(self@),
    {
        Fe { repr: field_negation(&self.repr) }
    }

    /// The difference of two elements.
    pub fn minus(&self, other: &Fe) -> (r: Fe)
        requires
            self.wf(),
            other.wf(),
        ensures
            r.wf(),
            r@ == fsub(self@, other@),
    {
        self.plus(&other.negated())
    }
    /// Whether two elements are the same field element.
    pub fn is_equal(&self, other: &Fe) -> (r: bool)
        ensures
            r == (self@ == other@),
    {
        let mut i: usize = 0;
        let mut same: bool = true;
        while i < 32
            invariant
                i <= 32,
                same == (forall|j: int| 0 <= j < i ==> self.repr@[j] == other.repr@[j]),
            decreases 32 - i,
        {
            if self.repr[i] != other.repr[i] {
                same = false;
            }
            i = i + 1;
        }
        proof {
            if same {
                assert(self.repr@ =~= other.repr@);
            } else if self@ == other@ {
                lemma_le_value_injective(self.repr@, other.repr@);
            }
        }
        same
    }

    /// Whether the element is zero.
    pub fn is_zero(&self) -> (r: bool)
        ensures
            r == (self@ == 0),
    {
        let zero = Fe::zero();
        self.is_equal(&zero)
    }

    /// The multiplicative inverse, which every element but zero has.
    pub fn inverse(&self) -> (r: Option<Fe>)
        requires
            self.wf(),
        ensures
            r is Some <==> self@ != 0,
            r matches Some(v) ==> v.wf() && v@ == finv(self@) && invertible(self@),
    {
        match field_inverse(&self.repr) {
            Some(bytes) => {
                let v = Fe { repr: bytes };
                proof {
                    crate::algebra::lemma_inverse_unique(self@, v@);
                }
                Some(v)
            },
            None => None,
        }
    }

    /// The multiplicative inverse, and zero for zero.
    pub fn inverse_or_zero(&self) -> (r: Fe)
        requires
            self.wf(),
        ensures
            r.wf(),
            r@ == finv(self@),
            self@ != 0 ==> invertible(self@),
    {
        match self.inverse() {
            Some(v) => v,
            None => {
                proof {
                    crate::algebra::lemma_zero_has_no_inverse();
                }
                Fe::zero()
            },
        }
    }

    /// The quotient of two elements, and zero where the divisor is zero.
    pub fn divided_by(&self, other: &Fe) -> (r: Fe)
        requires
            self.wf(),
            other.wf(),
        ensures
            r.wf(),
            r@ == fdiv(self@, other@),
            other@ != 0 ==> invertible(other@),
    {
        self.times(&other.inverse_or_zero())
    }
    /// The element that a decimal numeral stands for, reduced modulo the
    /// field order; `None` where the string is no numeral or has needless
    /// leading zeros.
    pub fn from_decimal(s: &str) -> (r: Option<Fe>)
        ensures
            r is Some <==> is_decimal(s@),
            r matches Some(v) ==> v.wf() && v@ == fe(decimal_value(s@) as int),
    {
        match field_from_decimal(s) {
            Some(bytes) => Some(Fe { repr: bytes }),
            None => None,
        }
    }
}

} // verus!
