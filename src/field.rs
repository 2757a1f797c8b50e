//! Field elements of the circuit's native field (the BLS12-381 scalar field,
//! over which the JubJub curve is defined), held as 32 canonical
//! little-endian bytes. The arithmetic itself is done by `bls12_381`.
use vstd::prelude::*;
use vstd::arithmetic::power2::{pow2, lemma_pow2_unfold, lemma_pow2_adds, lemma_pow2_pos};
use vstd::arithmetic::div_mod::lemma_small_mod;

verus! {

pub open spec fn limb_base() -> int {
    0x1_0000_0000_0000_0000
}

/// Modulus `p` of the BLS12-381 scalar field, the base field of the embedded curve.
pub open spec fn modulus() -> int {
    ((0x73eda753299d7d48 * limb_base() + 0x3339d80809a1d805) * limb_base() + 0x53bda402fffe5bfe)
        * limb_base() + 0xffffffff00000001
}

/// Number of bits of an element of the native field.
pub const NUM_BITS: usize = 255;

pub proof fn lemma_modulus_bounds()
    ensures
        1 < modulus(),
        modulus() < pow2(255),
{
    vstd::arithmetic::power2::lemma2_to64();
    lemma_pow2_adds(64, 64);
    lemma_pow2_adds(128, 64);
    lemma_pow2_adds(192, 63);
    assert(pow2(64) == limb_base());
    assert(pow2(128) == limb_base() * limb_base());
    assert(pow2(192) == limb_base() * limb_base() * limb_base());
    assert(pow2(255) == pow2(192) * pow2(63));
    assert(pow2(63) == 0x8000_0000_0000_0000) by {
        vstd::arithmetic::power2::lemma2_to64_rest();
    }
}

/// The integer that little-endian bytes denote.
pub open spec fn bytes_val(s: Seq<u8>) -> nat
    decreases s.len(),
{
    if s.len() == 0 {
        0
    } else {
        s[0] as nat + 256 * bytes_val(s.drop_first())
    }
}

/// The integer that little-endian bits denote.
pub open spec fn bits_val(b: Seq<bool>) -> nat
    decreases b.len(),
{
    if b.len() == 0 {
        0
    } else {
        (if b[0] { 1nat } else { 0nat }) + 2 * bits_val(b.drop_first())
    }
}

/// The integer that four little-endian 64-bit limbs denote.
pub open spec fn limbs_val(l: Seq<u64>) -> int {
    ((l[3] * limb_base() + l[2]) * limb_base() + l[1]) * limb_base() + l[0]
}

pub open spec fn fadd(a: int, b: int) -> int {
    (a + b) % modulus()
}

pub open spec fn fsub(a: int, b: int) -> int {
    (a - b) % modulus()
}

pub open spec fn fmul(a: int, b: int) -> int {
    (a * b) % modulus()
}

/// `a` raised to `e` in the field.
pub open spec fn fpow(a: int, e: nat) -> int
    decreases e,
{
    if e == 0 {
        1
    } else {
        fmul(a, fpow(a, (e - 1) as nat))
    }
}

/// Inverse in the field: the element `b` with `b a = 1`; zero, which has
/// none, is mapped to zero.
pub open spec fn finv(a: int) -> int {
    if exists|b: int| is_inverse(b, a) {
        choose|b: int| is_inverse(b, a)
    } else {
        0
    }
}

pub open spec fn is_inverse(b: int, a: int) -> bool {
    0 <= b < modulus() && fmul(b, a) == 1
}

/// An element of the native field.
#[derive(Clone, Copy, Debug, PartialEq, Eq)]
pub struct Fe {
    pub bytes: [u8; 32],
}

impl Fe {
    pub open spec fn val(self) -> int {
        bytes_val(self.bytes@) as int
    }

    /// The bytes hold the canonical encoding of an element, below the modulus.
    pub open spec fn wf(self) -> bool {
        self.val() < modulus()
    }

    pub open spec fn byte_seq(self) -> Seq<u8> {
        self.bytes@
    }

    /// The canonical little-endian encoding.
    pub fn to_bytes(&self) -> (r: [u8; 32])
        ensures
            r@ == self.byte_seq(),
    {
        self.bytes
    }

    /// The element whose canonical encoding is `b`, if `b` is one.
    pub fn from_bytes(b: [u8; 32]) -> (r: Option<Fe>)
        ensures
            r.is_some() <==> bytes_val(b@) < modulus(),
            r matches Some(f) ==> f.wf() && f.byte_seq() == b@,
    {
        fe_from_bytes(b)
    }

    /// The element `n`.
    pub fn from_u64(n: u64) -> (r: Fe)
        ensures
            r.wf(),
            r.val() == n,
    {
        proof {
            lemma_modulus_bounds();
            vstd::arithmetic::power2::lemma2_to64();
            vstd::arithmetic::power2::lemma_pow2_strictly_increases(64, 255);
        }
        fe_from_u64(n)
    }

    pub fn zero() -> (r: Fe)
        ensures
            r.wf(),
            r.val() == 0,
    {
        Fe::from_u64(0)
    }

    pub fn one() -> (r: Fe)
        ensures
            r.wf(),
            r.val() == 1,
    {
        Fe::from_u64(1)
    }
}

/// Relies on `bls12_381::Scalar::from`: the field element of a `u64`.
#[verifier::external_body]
fn fe_from_u64(n: u64) -> (r: Fe)
    requires
        n < modulus(),
    ensures
        r.wf(),
        r.val() == n,
{
    Fe { bytes: bls12_381::Scalar::from(n).to_bytes() }
}

/// Relies on `bls12_381::Scalar::from_raw`: the element congruent to the
/// integer given as four little-endian limbs.
#[verifier::external_body]
pub(crate) fn fe_from_raw(l: [u64; 4]) -> (r: Fe)
    ensures
        r.wf(),
        r.val() == limbs_val(l@) % modulus(),
{
    Fe { bytes: bls12_381::Scalar::from_raw(l).to_bytes() }
}

/// Relies on `bls12_381::Scalar::from_bytes`: accepts exactly the canonical
/// little-endian encodings, those below the modulus.
#[verifier::external_body]
fn fe_from_bytes(b: [u8; 32]) -> (r: Option<Fe>)
    ensures
        r.is_some() <==> bytes_val(b@) < modulus(),
        r matches Some(f) ==> f.wf() && f.byte_seq() == b@,
{
    if bool::from(bls12_381::Scalar::from_bytes(&b).is_some()) {
        Some(Fe { bytes: b })
    } else {
        None
    }
}

/// Relies on `bls12_381::Scalar`'s `Add`: the sum modulo `p`.
#[verifier::external_body]
pub(crate) fn fe_add(a: Fe, b: Fe) -> (r: Fe)
    requires
        a.wf(),
        b.wf(),
    ensures
        r.wf(),
        r.val() == fadd(a.val(), b.val()),
{
    let x = bls12_381::Scalar::from_bytes(&a.bytes).unwrap();
    let y = bls12_381::Scalar::from_bytes(&b.bytes).unwrap();
    Fe { bytes: (x + y).to_bytes() }
}

/// Relies on `bls12_381::Scalar`'s `Sub`: the difference modulo `p`.
#[verifier::external_body]
pub(crate) fn fe_sub(a: Fe, b: Fe) -> (r: Fe)
    requires
        a.wf(),
        b.wf(),
    ensures
        r.wf(),
        r.val() == fsub(a.val(), b.val()),
{
    let x = bls12_381::Scalar::from_bytes(&a.bytes).unwrap();
    let y = bls12_381::Scalar::from_bytes(&b.bytes).unwrap();
    Fe { bytes: (x - y).to_bytes() }
}

/// Relies on `bls12_381::Scalar`'s `Mul`: the product modulo `p`.
#[verifier::external_body]
pub(crate) fn fe_mul(a: Fe, b: Fe) -> (r: Fe)
    requires
        a.wf(),
        b.wf(),
    ensures
        r.wf(),
        r.val() == fmul(a.val(), b.val()),
{
    let x = bls12_381::Scalar::from_bytes(&a.bytes).unwrap();
    let y = bls12_381::Scalar::from_bytes(&b.bytes).unwrap();
    Fe { bytes: (x * y).to_bytes() }
}

/// Relies on `bls12_381::Scalar::pow_vartime`: `a` raised to the exponent
/// given as four little-endian limbs.
#[verifier::external_body]
pub(crate) fn fe_pow(a: Fe, e: [u64; 4]) -> (r: Fe)
    requires
        a.wf(),
    ensures
        r.wf(),
        r.val() == fpow(a.val(), limbs_val(e@) as nat),
{
    let x = bls12_381::Scalar::from_bytes(&a.bytes).unwrap();
    Fe { bytes: x.pow_vartime(&e).to_bytes() }
}

/// Relies on `bls12_381::Scalar::invert`: the multiplicative inverse of a
/// non-zero element; zero has none, and is mapped to zero.
#[verifier::external_body]
pub(crate) fn fe_invert(a: Fe) -> (r: Fe)
    requires
        a.wf(),
    ensures
        r.wf(),
        r.val() == finv(a.val()),
        a.val() != 0 ==> fmul(r.val(), a.val()) == 1,
{
    let x = bls12_381::Scalar::from_bytes(&a.bytes).unwrap();
    Fe { bytes: x.invert().unwrap_or(bls12_381::Scalar::zero()).to_bytes() }
}

/// Relies on `bls12_381::Scalar`'s `PartialEq`: equality of the elements.
#[verifier::external_body]
pub(crate) fn fe_eq(a: Fe, b: Fe) -> (r: bool)
    requires
        a.wf(),
        b.wf(),
    ensures
        r == (a.val() == b.val()),
{
    bls12_381::Scalar::from_bytes(&a.bytes).unwrap() == bls12_381::Scalar::from_bytes(&b.bytes).unwrap()
}

pub proof fn lemma_bits_val_push(b: Seq<bool>, x: bool)
    ensures
        bits_val(b.push(x)) == bits_val(b) + pow2(b.len()) * (if x { 1nat } else { 0nat }),
    decreases b.len(),
{
    let xv: nat = if x { 1nat } else { 0nat };
    if b.len() == 0 {
        assert(b.push(x).drop_first() =~= Seq::<bool>::empty());
        assert(pow2(0) == 1) by { vstd::arithmetic::power2::lemma2_to64(); }
        assert(bits_val(b.push(x)) == xv + 2 * bits_val(b.push(x).drop_first()));
    } else {
        assert(b.push(x).drop_first() =~= b.drop_first().push(x));
        assert(bits_val(b.push(x)) == (if b[0] { 1nat } else { 0nat }) + 2 * bits_val(b.drop_first().push(x)));
        lemma_bits_val_push(b.drop_first(), x);
        let q = pow2((b.len() - 1) as nat);
        lemma_pow2_unfold(b.len());
        assert(pow2(b.len()) == 2 * q);
        assert(2 * (q * xv) == pow2(b.len()) * xv) by (nonlinear_arith)
            requires pow2(b.len()) == 2 * q;
    }
}

pub proof fn lemma_bytes_val_push(s: Seq<u8>, x: u8)
    ensures
        bytes_val(s.push(x)) == bytes_val(s) + pow2(8 * s.len()) * x,
    decreases s.len(),
{
    if s.len() == 0 {
        assert(s.push(x).drop_first() =~= Seq::<u8>::empty());
        assert(pow2(0) == 1) by { vstd::arithmetic::power2::lemma2_to64(); }
        assert(bytes_val(s.push(x)) == x as nat + 256 * bytes_val(s.push(x).drop_first()));
        assert(bytes_val(Seq::<u8>::empty()) == 0);
        assert(bytes_val(s.push(x)) == bytes_val(s) + pow2(8 * s.len()) * x);
    } else {
        assert(s.push(x).drop_first() =~= s.drop_first().push(x));
        lemma_bytes_val_push(s.drop_first(), x);
        let k = (8 * (s.len() - 1)) as nat;
        assert(pow2(8 * s.len()) == 256 * pow2(k)) by {
            vstd::arithmetic::power2::lemma2_to64();
            lemma_pow2_adds(k, 8);
            assert(8 * s.len() == k + 8);
        }
        assert(s.push(x)[0] == s[0]);
        assert(bytes_val(s.push(x)) == s[0] as nat + 256 * bytes_val(s.drop_first().push(x)));
        assert(bytes_val(s.drop_first().push(x)) == bytes_val(s.drop_first()) + pow2(k) * x);
        assert(256 * (pow2(k) * x) == pow2(8 * s.len()) * x) by (nonlinear_arith)
            requires pow2(8 * s.len()) == 256 * pow2(k);
        assert(bytes_val(s) == s[0] as nat + 256 * bytes_val(s.drop_first()));
        assert(256 * (bytes_val(s.drop_first()) + pow2(k) * x) == 256 * bytes_val(s.drop_first()) + 256 * (pow2(k) * x)) by (nonlinear_arith);
        assert(bytes_val(s.push(x)) == bytes_val(s) + pow2(8 * s.len()) * x);
    }
}

pub proof fn lemma_bits_val_bound(b: Seq<bool>)
    ensures
        bits_val(b) < pow2(b.len()),
    decreases b.len(),
{
    if b.len() == 0 {
        assert(pow2(0) == 1) by { vstd::arithmetic::power2::lemma2_to64(); }
    } else {
        lemma_bits_val_bound(b.drop_first());
        lemma_pow2_unfold(b.len());
    }
}

pub proof fn lemma_bits_val_append(a: Seq<bool>, b: Seq<bool>)
    ensures
        bits_val(a + b) == bits_val(a) + pow2(a.len()) * bits_val(b),
    decreases a.len(),
{
    if a.len() == 0 {
        assert(a + b =~= b);
        assert(pow2(0) == 1) by { vstd::arithmetic::power2::lemma2_to64(); }
    } else {
        assert((a + b).drop_first() =~= a.drop_first() + b);
        lemma_bits_val_append(a.drop_first(), b);
        lemma_pow2_unfold(a.len());
        let q = pow2((a.len() - 1) as nat);
        assert(2 * (q * bits_val(b)) == pow2(a.len()) * bits_val(b)) by (nonlinear_arith)
            requires pow2(a.len()) == 2 * q;
    }
}

/// The eight bits of a byte, least significant first.
fn byte_bits(x: u8) -> (r: Vec<bool>)
    ensures
        r.len() == 8,
        bits_val(r@) == x,
{
    let mut r: Vec<bool> = Vec::new();
    let mut cur: u8 = x;
    let mut j: usize = 0;
    proof {
        vstd::arithmetic::power2::lemma2_to64();
    }
    while j < 8
        invariant
            j <= 8,
            r.len() == j,
            x == bits_val(r@) + pow2(j as nat) * cur,
            cur < pow2((8 - j) as nat),
        decreases 8 - j,
    {
        proof {
            lemma_bits_val_push(r@, cur % 2 == 1);
            lemma_pow2_unfold((j + 1) as nat);
            lemma_pow2_unfold((8 - j) as nat);
            assert(cur / 2 < pow2((8 - j - 1) as nat));
            let pj = pow2(j as nat);
            assert(pj * (cur as int) == pj * (cur % 2) + pow2((j + 1) as nat) * (cur / 2))
                by (nonlinear_arith)
                requires pow2((j + 1) as nat) == 2 * pj;
        }
        r.push(cur % 2 == 1);
        cur = cur / 2;
        j = j + 1;
    }
    r
}

/// The low `n` bits of `a`, least significant first; `a` fits in them.
pub(crate) fn fe_to_bits(a: Fe, n: usize) -> (r: Vec<bool>)
    requires
        a.wf(),
        n <= 256,
        a.val() < pow2(n as nat),
    ensures
        r.len() == n,
        bits_val(r@) == a.val(),
{
    let mut out: Vec<bool> = Vec::new();
    let mut i: usize = 0;
    while i < 32
        invariant
            i <= 32,
            out.len() == 8 * i,
            bits_val(out@) == bytes_val(a.bytes@.subrange(0, i as int)),
        decreases 32 - i,
    {
        let bb = byte_bits(a.bytes[i]);
        proof {
            let s = a.bytes@.subrange(0, i as int);
            assert(a.bytes@.subrange(0, i + 1) =~= s.push(a.bytes@[i as int]));
            lemma_bytes_val_push(s, a.bytes@[i as int]);
            lemma_bits_val_append(out@, bb@);
        }
        let mut k: usize = 0;
        let ghost old_out = out@;
        while k < 8
            invariant
                k <= 8,
                bb.len() == 8,
                out@ =~= old_out + bb@.subrange(0, k as int),
            decreases 8 - k,
        {
            out.push(bb[k]);
            k = k + 1;
            proof {
                assert(old_out + bb@.subrange(0, k as int) =~= (old_out + bb@.subrange(0, k - 1)).push(bb@[k - 1]));
            }
        }
        proof {
            assert(bb@.subrange(0, 8) =~= bb@);
        }
        i = i + 1;
    }
    proof {
        assert(a.bytes@.subrange(0, 32) =~= a.bytes@);
    }
    let mut r: Vec<bool> = Vec::new();
    let mut k: usize = 0;
    while k < n
        invariant
            k <= n,
            n <= 256,
            out.len() == 256,
            r@ =~= out@.subrange(0, k as int),
        decreases n - k,
    {
        r.push(out[k]);
        k = k + 1;
        proof {
            assert(out@.subrange(0, k as int) =~= out@.subrange(0, k - 1).push(out@[k - 1]));
        }
    }
    proof {
        let lo = out@.subrange(0, n as int);
        let hi = out@.subrange(n as int, 256);
        assert(out@ =~= lo + hi);
        lemma_bits_val_append(lo, hi);
        lemma_bits_val_bound(lo);
        lemma_pow2_pos(n as nat);
        if bits_val(hi) > 0 {
            assert(pow2(n as nat) * bits_val(hi) >= pow2(n as nat)) by (nonlinear_arith)
                requires bits_val(hi) > 0;
        }
    }
    r
}

/// Facts of field arithmetic on reduced values.
pub proof fn lemma_field_basics(x: int)
    requires
        0 <= x < modulus(),
    ensures
        fadd(x, 0) == x,
        fadd(0, x) == x,
        fmul(1, x) == x,
        fmul(x, 1) == x,
        fmul(0, x) == 0,
        fmul(x, 0) == 0,
        fsub(x, 0) == x,
        fadd(x, fmul(modulus() - 1, x)) == 0,
        fadd(x, fsub(0, x)) == 0,
{
    lemma_modulus_bounds();
    let m = modulus();
    lemma_small_mod(x as nat, m as nat);
    vstd::arithmetic::div_mod::lemma_add_mod_noop_right(x, (m - 1) * x, m);
    assert(x + (m - 1) * x == x * m) by (nonlinear_arith);
    vstd::arithmetic::div_mod::lemma_mod_multiples_basic(x, m);
    assert(0 * x == 0);
    assert(x * 0 == 0);
    lemma_small_mod(0, m as nat);
    vstd::arithmetic::div_mod::lemma_add_mod_noop_right(x, 0 - x, m);
    vstd::arithmetic::div_mod::lemma_mod_self_0(m);
}

/// Adding reduced values reduces the sum.
pub proof fn lemma_fadd_mod(a: int, b: int)
    ensures
        fadd(a % modulus(), b % modulus()) == (a + b) % modulus(),
        fadd(a % modulus(), b) == (a + b) % modulus(),
{
    lemma_modulus_bounds();
    vstd::arithmetic::div_mod::lemma_add_mod_noop(a, b, modulus());
    vstd::arithmetic::div_mod::lemma_add_mod_noop_right(b, a, modulus());
}

/// Multiplying reduced values reduces the product.
pub proof fn lemma_fmul_mod(a: int, b: int)
    ensures
        fmul(a % modulus(), b % modulus()) == (a * b) % modulus(),
        fmul(a % modulus(), b) == (a * b) % modulus(),
{
    lemma_modulus_bounds();
    vstd::arithmetic::div_mod::lemma_mul_mod_noop(a, b, modulus());
    vstd::arithmetic::div_mod::lemma_mul_mod_noop_left(a, b, modulus());
}

/// `a * b * c` in the field does not depend on the grouping or order.
pub proof fn lemma_fmul_assoc(a: int, b: int, c: int)
    ensures
        fmul(fmul(a, b), c) == fmul(a, fmul(b, c)),
        fmul(a, b) == fmul(b, a),
{
    lemma_modulus_bounds();
    let m = modulus();
    vstd::arithmetic::div_mod::lemma_mul_mod_noop_left(a * b, c, m);
    vstd::arithmetic::div_mod::lemma_mul_mod_noop_right(a, b * c, m);
    vstd::arithmetic::div_mod::lemma_mul_mod_noop_left(a, b, m);
    vstd::arithmetic::div_mod::lemma_mul_mod_noop_right(a, b, m);
    vstd::arithmetic::div_mod::lemma_mul_mod_noop_general(a * b, c, m);
    vstd::arithmetic::div_mod::lemma_mul_mod_noop_general(a, b * c, m);
    assert(a * b * c == a * (b * c)) by (nonlinear_arith);
    assert(a * b == b * a) by (nonlinear_arith);
}

/// An element has at most one inverse.
pub proof fn lemma_inverse_unique(a: int, b1: int, b2: int)
    requires
        is_inverse(b1, a),
        is_inverse(b2, a),
    ensures
        b1 == b2,
{
    lemma_modulus_bounds();
    lemma_field_basics(b1);
    lemma_field_basics(b2);
    // b1 = b1 (b2 a) = (b1 a) b2 = b2
    lemma_fmul_assoc(b1, a, b2);
    lemma_fmul_assoc(b2, a, 0);
    lemma_fmul_assoc(a, b2, 0);
    lemma_fmul_assoc(b1, b2, a);
    lemma_fmul_assoc(b1, fmul(b2, a), 0);
    vstd::arithmetic::div_mod::lemma_mul_mod_noop_right(b1, a * b2, modulus());
    vstd::arithmetic::div_mod::lemma_mul_mod_noop_right(b1, b2 * a, modulus());
    assert(a * b2 == b2 * a) by (nonlinear_arith);
    assert(fmul(b1, fmul(b2, a)) == fmul(fmul(b1, a), b2)) by {
        lemma_fmul_assoc(b1, a, b2);
        lemma_fmul_assoc(b1, b2, a);
        lemma_fmul_assoc(b2, a, 1);
        lemma_fmul_assoc(b1, fmul(a, b2), 1);
        assert(fmul(a, b2) == fmul(b2, a));
    }
}

/// An inverse found is the inverse.
pub proof fn lemma_finv_is(a: int, b: int)
    requires
        is_inverse(b, a),
    ensures
        finv(a) == b,
{
    let c = choose|c: int| is_inverse(c, a);
    lemma_inverse_unique(a, b, c);
}

/// The row `x + k - e = 0` holds for `e = x + k`.
pub proof fn lemma_affine_row_zero(x: int, k: int)
    requires
        0 <= x < modulus(),
        0 <= k < modulus(),
    ensures
        fadd(fadd(x, fmul(modulus() - 1, fadd(x, k))), k) == 0,
{
    lemma_modulus_bounds();
    let m = modulus();
    let ev = fadd(x, k);
    let ne = fmul(m - 1, ev);
    vstd::arithmetic::div_mod::lemma_add_mod_noop_right(x, (m - 1) * ev, m);
    assert(fadd(x, ne) == (x + (m - 1) * ev) % m);
    lemma_fadd_mod(x + (m - 1) * ev, k);
    let t = (x + k) / m;
    vstd::arithmetic::div_mod::lemma_fundamental_div_mod(x + k, m);
    assert(x + k == m * t + ev);
    assert(x + (m - 1) * ev + k == (t + ev) * m) by (nonlinear_arith)
        requires x + k == m * t + ev;
    vstd::arithmetic::div_mod::lemma_mod_multiples_basic(t + ev, m);
}

/// Zero bytes at the most significant end do not change the value.
pub proof fn lemma_bytes_val_zero_tail(s: Seq<u8>, k: nat)
    ensures
        bytes_val(s + Seq::new(k, |j: int| 0u8)) == bytes_val(s),
    decreases s.len() + k,
{
    let z = Seq::new(k, |j: int| 0u8);
    if s.len() == 0 {
        assert(s + z =~= z);
        if k > 0 {
            assert(z.drop_first() =~= Seq::new((k - 1) as nat, |j: int| 0u8));
            lemma_bytes_val_zero_tail(s, (k - 1) as nat);
            assert(s + Seq::new((k - 1) as nat, |j: int| 0u8) =~= Seq::new((k - 1) as nat, |j: int| 0u8));
        }
    } else {
        assert((s + z).drop_first() =~= s.drop_first() + z);
        lemma_bytes_val_zero_tail(s.drop_first(), k);
    }
}

} // verus!
