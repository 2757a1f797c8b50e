//! Points of the twisted Edwards curve JubJub, `-x^2 + y^2 = 1 + d x^2 y^2`
//! over the native field, and scalars of its prime-order subgroup. The
//! curve arithmetic outside the circuit is done by `jubjub`.
use vstd::prelude::*;
use crate::field::{Fe, fadd, fsub, fmul, finv, limb_base, limbs_val, modulus, bytes_val, bits_val, fe_from_raw};

verus! {

/// The curve constant `d = -(10240/10241)`.
pub open spec fn edwards_d() -> int {
    ((0x2a9318e74bfa2b48 * limb_base() + 0xf5fd9207e6bd7fd4) * limb_base() + 0x292d7f6d37579d26)
        * limb_base() + 0x01065fd6d6343eb1
}

/// Order `r` of the prime-order subgroup, the modulus of the scalars.
pub open spec fn scalar_modulus() -> int {
    ((0x0e7db4ea6533afa9 * limb_base() + 0x06673b0101343b00) * limb_base() + 0xa6682093ccc81082)
        * limb_base() + 0xd0970e5ed6f72cb7
}

/// Number of bits of a scalar.
pub const SCALAR_NUM_BITS: usize = 252;

/// The curve equation `-x^2 + y^2 = 1 + d x^2 y^2`.
pub open spec fn on_curve_spec(x: int, y: int) -> bool {
    fsub(fmul(y, y), fmul(x, x)) == fadd(1, fmul(fmul(edwards_d(), fmul(x, x)), fmul(y, y)))
}

/// `d x_p x_q y_p y_q`.
pub open spec fn add_lambda(p: (int, int), q: (int, int)) -> int {
    fmul(fmul(fmul(fmul(edwards_d(), p.0), q.0), p.1), q.1)
}

/// The complete addition law:
/// `x_r = (x_p y_q + x_q y_p) / (1 + d x_p x_q y_p y_q)`,
/// `y_r = (x_p x_q + y_p y_q) / (1 - d x_p x_q y_p y_q)`.
pub open spec fn edwards_add(p: (int, int), q: (int, int)) -> (int, int) {
    let lambda = add_lambda(p, q);
    (
        fmul(finv(fadd(1, lambda)), fadd(fmul(p.0, q.1), fmul(q.0, p.1))),
        fmul(finv(fsub(1, lambda)), fadd(fmul(p.0, q.0), fmul(p.1, q.1))),
    )
}

/// The neutral element `(0, 1)`.
pub open spec fn identity_spec() -> (int, int) {
    (0, 1)
}

/// Both denominators of the addition law are non-zero.
pub open spec fn add_defined(p: (int, int), q: (int, int)) -> bool {
    fadd(1, add_lambda(p, q)) != 0 && fsub(1, add_lambda(p, q)) != 0
}

/// Double-and-add over the low `n` bits of `k`, most significant bit first:
/// each step doubles the accumulator, then adds `p` where the bit is set.
pub open spec fn ladder(p: (int, int), k: nat, n: nat) -> (int, int)
    decreases n,
{
    if n == 0 {
        identity_spec()
    } else {
        let a = ladder(p, k / 2, (n - 1) as nat);
        let d = edwards_add(a, a);
        if k % 2 == 1 {
            edwards_add(d, p)
        } else {
            d
        }
    }
}

/// Double-and-add over little-endian bits, the last bit first.
pub open spec fn ladder_bits(p: (int, int), b: Seq<bool>) -> (int, int)
    decreases b.len(),
{
    if b.len() == 0 {
        identity_spec()
    } else {
        let a = ladder_bits(p, b.drop_first());
        let d = edwards_add(a, a);
        if b[0] {
            edwards_add(d, p)
        } else {
            d
        }
    }
}

/// Double-and-add over the bits of a number is double-and-add over the number.
pub proof fn lemma_ladder_bits(p: (int, int), b: Seq<bool>)
    ensures
        ladder_bits(p, b) == ladder(p, bits_val(b), b.len()),
    decreases b.len(),
{
    if b.len() > 0 {
        lemma_ladder_bits(p, b.drop_first());
        let k = bits_val(b);
        let r = bits_val(b.drop_first());
        let b0: nat = if b[0] { 1 } else { 0 };
        assert(k == b0 + 2 * r);
        assert(k / 2 == r && (k % 2 == 1) == b[0]) by (nonlinear_arith)
            requires k == b0 + 2 * r, b0 == (if b[0] { 1nat } else { 0nat });
    }
}

/// An affine point `(x, y)`. Outside the circuit it is always on the curve;
/// inside, the identity may also be written `(0, 0)`.
#[derive(Clone, Copy, Debug)]
pub struct Point {
    pub x: Fe,
    pub y: Fe,
}

impl Point {
    pub open spec fn pv(self) -> (int, int) {
        (self.x.val(), self.y.val())
    }

    pub open spec fn wf(self) -> bool {
        self.x.wf() && self.y.wf()
    }

    pub open spec fn on_curve(self) -> bool {
        self.wf() && on_curve_spec(self.x.val(), self.y.val())
    }

    /// The point with coordinates `(x, y)`, if they satisfy the curve equation.
    pub fn from_coordinates(x: Fe, y: Fe) -> (r: Option<Point>)
        requires
            x.wf(),
            y.wf(),
        ensures
            r is Some <==> on_curve_spec(x.val(), y.val()),
            r matches Some(p) ==> p.x == x && p.y == y,
    {
        if is_on_curve(x, y) {
            Some(Point { x, y })
        } else {
            None
        }
    }

    /// The neutral element `(0, 1)`.
    pub fn identity() -> (r: Point)
        ensures
            r.wf(),
            r.pv() == identity_spec(),
    {
        Point { x: Fe::zero(), y: Fe::one() }
    }
}

/// The constant `d` as a field element.
pub fn edwards_d_fe() -> (r: Fe)
    ensures
        r.wf(),
        r.val() == edwards_d(),
{
    let l: [u64; 4] = [0x01065fd6d6343eb1, 0x292d7f6d37579d26, 0xf5fd9207e6bd7fd4, 0x2a9318e74bfa2b48];
    proof {
        assert(limbs_val(l@) == edwards_d());
        assert(0 <= edwards_d() < modulus());
        vstd::arithmetic::div_mod::lemma_small_mod(edwards_d() as nat, modulus() as nat);
    }
    fe_from_raw(l)
}

/// Whether `(x, y)` satisfies the curve equation.
pub fn is_on_curve(x: Fe, y: Fe) -> (r: bool)
    requires
        x.wf(),
        y.wf(),
    ensures
        r == on_curve_spec(x.val(), y.val()),
{
    let d = edwards_d_fe();
    let xx = crate::field::fe_mul(x, x);
    let yy = crate::field::fe_mul(y, y);
    let lhs = crate::field::fe_sub(yy, xx);
    let rhs = crate::field::fe_add(Fe::one(), crate::field::fe_mul(crate::field::fe_mul(d, xx), yy));
    crate::field::fe_eq(lhs, rhs)
}

/// A scalar of the prime-order subgroup, as 32 canonical little-endian bytes.
#[derive(Clone, Copy, Debug)]
pub struct Scalar {
    pub bytes: [u8; 32],
}

impl Scalar {
    pub open spec fn val(self) -> int {
        bytes_val(self.bytes@) as int
    }

    pub open spec fn wf(self) -> bool {
        self.val() < scalar_modulus()
    }

    /// The scalar `n`.
    pub fn from_u64(n: u64) -> (r: Scalar)
        ensures
            r.wf(),
            r.val() == n,
    {
        scalar_from_u64(n)
    }

    /// The scalar whose canonical encoding is `b`, if `b` is one.
    pub fn from_bytes(b: [u8; 32]) -> (r: Option<Scalar>)
        ensures
            r is Some <==> bytes_val(b@) < scalar_modulus(),
            r matches Some(s) ==> s.wf() && s.bytes@ == b@,
    {
        scalar_from_bytes(b)
    }

    /// The scalar that 64 little-endian bytes denote, reduced modulo `r`,
    /// as a private key is read.
    pub fn from_bytes_wide(b: [u8; 64]) -> (r: Scalar)
        ensures
            r.wf(),
            r.val() == (bytes_val(b@) as int) % scalar_modulus(),
    {
        scalar_from_bytes_wide(b)
    }

    /// The canonical little-endian encoding.
    pub fn to_bytes(&self) -> (r: [u8; 32])
        ensures
            r@ == self.bytes@,
    {
        self.bytes
    }
}

/// Relies on `jubjub::Fr::from`: the scalar of a `u64`.
#[verifier::external_body]
fn scalar_from_u64(n: u64) -> (r: Scalar)
    ensures
        r.wf(),
        r.val() == n,
{
    Scalar { bytes: jubjub::Fr::from(n).to_bytes() }
}

/// Relies on `jubjub::Fr::from_bytes`: accepts exactly the canonical
/// little-endian encodings, those below `r`.
#[verifier::external_body]
fn scalar_from_bytes(b: [u8; 32]) -> (r: Option<Scalar>)
    ensures
        r is Some <==> bytes_val(b@) < scalar_modulus(),
        r matches Some(s) ==> s.wf() && s.bytes@ == b@,
{
    if bool::from(jubjub::Fr::from_bytes(&b).is_some()) {
        Some(Scalar { bytes: b })
    } else {
        None
    }
}

/// Relies on `jubjub::Fr`'s `Add`: the sum modulo `r`.
#[verifier::external_body]
pub(crate) fn scalar_add(a: Scalar, b: Scalar) -> (r: Scalar)
    requires
        a.wf(),
        b.wf(),
    ensures
        r.wf(),
        r.val() == (a.val() + b.val()) % scalar_modulus(),
{
    let x = jubjub::Fr::from_bytes(&a.bytes).unwrap();
    let y = jubjub::Fr::from_bytes(&b.bytes).unwrap();
    Scalar { bytes: (x + y).to_bytes() }
}

/// Relies on `jubjub::Fr`'s `Mul`: the product modulo `r`.
#[verifier::external_body]
pub(crate) fn scalar_mul(a: Scalar, b: Scalar) -> (r: Scalar)
    requires
        a.wf(),
        b.wf(),
    ensures
        r.wf(),
        r.val() == (a.val() * b.val()) % scalar_modulus(),
{
    let x = jubjub::Fr::from_bytes(&a.bytes).unwrap();
    let y = jubjub::Fr::from_bytes(&b.bytes).unwrap();
    Scalar { bytes: (x * y).to_bytes() }
}

/// Relies on `jubjub::Fr::from_bytes_wide`: the 64 little-endian bytes
/// reduced modulo `r`.
#[verifier::external_body]
fn scalar_from_bytes_wide(b: [u8; 64]) -> (r: Scalar)
    ensures
        r.wf(),
        r.val() == (bytes_val(b@) as int) % scalar_modulus(),
{
    Scalar { bytes: jubjub::Fr::from_bytes_wide(&b).to_bytes() }
}

/// A field element as a scalar: its 32 bytes widened with 32 zero bytes,
/// reduced modulo `r`.
pub(crate) fn scalar_from_base(a: Fe) -> (r: Scalar)
    requires
        a.wf(),
    ensures
        r.wf(),
        r.val() == a.val() % scalar_modulus(),
{
    let mut wide = [0u8; 64];
    let mut i: usize = 0;
    while i < 32
        invariant
            i <= 32,
            forall|j: int| 0 <= j < i ==> wide@[j] == a.bytes@[j],
            forall|j: int| i <= j < 64 ==> wide@[j] == 0,
        decreases 32 - i,
    {
        wide[i] = a.bytes[i];
        i = i + 1;
    }
    proof {
        assert(wide@ =~= a.bytes@ + Seq::new(32, |j: int| 0u8));
        crate::field::lemma_bytes_val_zero_tail(a.bytes@, 32);
    }
    scalar_from_bytes_wide(wide)
}

/// Relies on `ff::Field::random` with the operating system's generator: a
/// uniformly random scalar; nothing is known of its value.
#[verifier::external_body]
pub(crate) fn scalar_random() -> (r: Scalar)
    ensures
        r.wf(),
{
    Scalar { bytes: <jubjub::Fr as ff::Field>::random(rand_core::OsRng).to_bytes() }
}

/// Relies on `jubjub::ExtendedPoint`'s `Add` and the conversion to affine
/// coordinates: the complete addition law on points of the curve.
#[verifier::external_body]
pub(crate) fn native_add(a: Point, b: Point) -> (r: Point)
    requires
        a.on_curve(),
        b.on_curve(),
    ensures
        r.on_curve(),
        r.pv() == edwards_add(a.pv(), b.pv()),
{
    let pa = jubjub::AffinePoint::from_raw_unchecked(jubjub::Fq::from_bytes(&a.x.bytes).unwrap(), jubjub::Fq::from_bytes(&a.y.bytes).unwrap());
    let pb = jubjub::AffinePoint::from_raw_unchecked(jubjub::Fq::from_bytes(&b.x.bytes).unwrap(), jubjub::Fq::from_bytes(&b.y.bytes).unwrap());
    let s = jubjub::AffinePoint::from(jubjub::ExtendedPoint::from(pa) + jubjub::ExtendedPoint::from(pb));
    Point { x: Fe { bytes: s.get_u().to_bytes() }, y: Fe { bytes: s.get_v().to_bytes() } }
}

/// Relies on `jubjub::ExtendedPoint::double`: the point added to itself.
#[verifier::external_body]
pub(crate) fn native_double(a: Point) -> (r: Point)
    requires
        a.on_curve(),
    ensures
        r.on_curve(),
        r.pv() == edwards_add(a.pv(), a.pv()),
{
    let pa = jubjub::AffinePoint::from_raw_unchecked(jubjub::Fq::from_bytes(&a.x.bytes).unwrap(), jubjub::Fq::from_bytes(&a.y.bytes).unwrap());
    let s = jubjub::AffinePoint::from(jubjub::ExtendedPoint::from(pa).double());
    Point { x: Fe { bytes: s.get_u().to_bytes() }, y: Fe { bytes: s.get_v().to_bytes() } }
}

/// Relies on `jubjub::ExtendedPoint`'s `Mul<&Fr>`: double-and-add over the
/// low 252 bits of the scalar, most significant first.
#[verifier::external_body]
pub(crate) fn native_mul(a: Point, k: Scalar) -> (r: Point)
    requires
        a.on_curve(),
        k.wf(),
    ensures
        r.on_curve(),
        r.pv() == ladder(a.pv(), k.val() as nat, SCALAR_NUM_BITS as nat),
{
    let pa = jubjub::AffinePoint::from_raw_unchecked(jubjub::Fq::from_bytes(&a.x.bytes).unwrap(), jubjub::Fq::from_bytes(&a.y.bytes).unwrap());
    let s = jubjub::AffinePoint::from(jubjub::ExtendedPoint::from(pa) * jubjub::Fr::from_bytes(&k.bytes).unwrap());
    Point { x: Fe { bytes: s.get_u().to_bytes() }, y: Fe { bytes: s.get_v().to_bytes() } }
}

/// The generator of the whole curve that `jubjub` fixes: the point with the
/// lowest positive `y` and positive `x`, `y = 11`.
pub open spec fn curve_generator() -> (int, int) {
    (
        ((0x62edcbb8bf3787c8 * limb_base() + 0x8b0f03ddd60a8187) * limb_base() + 0xcaf55d1b29bf81af)
            * limb_base() + 0xe4b3d35df1a7adfe,
        11,
    )
}

pub open spec fn double_spec(p: (int, int)) -> (int, int) {
    edwards_add(p, p)
}

/// The standard generator of the prime-order subgroup: the curve's generator
/// with its cofactor 8 cleared, by three doublings.
pub open spec fn generator_spec() -> (int, int) {
    double_spec(double_spec(double_spec(curve_generator())))
}

/// Relies on `group::Group::generator` for `jubjub::SubgroupPoint`, which
/// clears the cofactor of `AffinePoint::generator()` by three doublings.
#[verifier::external_body]
pub(crate) fn generator() -> (r: Point)
    ensures
        r.on_curve(),
        r.pv() == generator_spec(),
{
    let s = jubjub::AffinePoint::from(jubjub::ExtendedPoint::from(<jubjub::SubgroupPoint as group::Group>::generator()));
    Point { x: Fe { bytes: s.get_u().to_bytes() }, y: Fe { bytes: s.get_v().to_bytes() } }
}

/// The 32-byte compressed encoding: the bytes of `y`, with the parity of `x`
/// in the top bit.
pub open spec fn encoding_spec(p: Point) -> Seq<u8> {
    p.y.bytes@.update(31, p.y.bytes@[31] | ((p.x.bytes@[0] & 1) << 7u8))
}

/// Encodes a point of the curve in 32 bytes.
pub fn encode_point(p: &Point) -> (r: [u8; 32])
    ensures
        r@ == encoding_spec(*p),
{
    let mut r = p.y.bytes;
    r[31] = r[31] | ((p.x.bytes[0] & 1) << 7u8);
    r
}

/// The point lies in the prime-order subgroup: `[r] p` is the neutral
/// element, by double-and-add over the 252 bits of `r`.
pub open spec fn in_subgroup(p: Point) -> bool {
    ladder(p.pv(), scalar_modulus() as nat, SCALAR_NUM_BITS as nat) == identity_spec()
}

/// Decodes a 32-byte compressed point of the prime-order subgroup, such as
/// a public key. It returns a point exactly when the bytes are the encoding
/// of a point of the subgroup, and then that point; any other bytes, points
/// of the curve outside the subgroup included, are refused.
pub fn decode_point(b: [u8; 32]) -> (r: Option<Point>)
    ensures
        r matches Some(q) ==> q.on_curve() && in_subgroup(q) && encoding_spec(q) == b@,
        forall|q: Point| q.on_curve() && in_subgroup(q) ==> (encoding_spec(q) == b@ <==> r == Some(q)),
{
    subgroup_point_from_bytes(b)
}

/// Relies on `group::GroupEncoding::from_bytes` for `jubjub::SubgroupPoint`:
/// `AffinePoint::from_bytes`, which accepts exactly the canonical encodings
/// of points of the curve, followed by `is_torsion_free`, which keeps the
/// points whose product by `r` (double-and-add over 252 bits) is the
/// identity.
#[verifier::external_body]
fn subgroup_point_from_bytes(b: [u8; 32]) -> (r: Option<Point>)
    ensures
        r matches Some(q) ==> q.on_curve() && in_subgroup(q) && encoding_spec(q) == b@,
        forall|q: Point| q.on_curve() && in_subgroup(q) ==> (encoding_spec(q) == b@ <==> r == Some(q)),
{
    let p = <jubjub::SubgroupPoint as group::GroupEncoding>::from_bytes(&b);
    if bool::from(p.is_some()) {
        let s = jubjub::AffinePoint::from(jubjub::ExtendedPoint::from(p.unwrap()));
        Some(Point { x: Fe { bytes: s.get_u().to_bytes() }, y: Fe { bytes: s.get_v().to_bytes() } })
    } else {
        None
    }
}

/// Encoding a point of the subgroup and decoding the bytes gives the point
/// back.
pub proof fn lemma_point_round_trip(p: Point, r: Option<Point>)
    requires
        p.on_curve(),
        in_subgroup(p),
        forall|q: Point| q.on_curve() && in_subgroup(q) ==> (encoding_spec(q) == encoding_spec(p) <==> r == Some(q)),
    ensures
        r == Some(p),
{
}

} // verus!
