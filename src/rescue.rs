//! The Rescue permutation over the native field: a fixed-key variant used as
//! a hash, a keyed variant used as a block cipher in counter mode, and a
//! sponge built on the permutation.
use vstd::prelude::*;
use crate::field::{Fe, fadd, fsub, fmul, fpow, modulus, limbs_val, fe_add, fe_sub, fe_mul, fe_pow};
use vstd::arithmetic::div_mod::{lemma_sub_mod_noop, lemma_small_mod, lemma_mod_twice};

verus! {

/// Width of the Rescue state.
pub const STATE_WIDTH: usize = 4;

/// Number of full rounds; 12 rounds give 128 bits of security.
pub const N_ROUNDS: usize = 12;

/// Number of state vectors used by one permutation: an initial one and two per round.
pub const N_CONSTS: usize = 25;

/// A Rescue state: four field elements.
pub type RescueState = [Fe; 4];

pub open spec fn state_wf(s: RescueState) -> bool {
    forall|i: int| 0 <= i < 4 ==> (#[trigger] s[i]).wf()
}

/// The values of a state.
pub open spec fn sv(s: RescueState) -> Seq<int> {
    Seq::new(4, |i: int| s[i].val())
}

pub open spec fn matrix_wf(m: [[Fe; 4]; 4]) -> bool {
    forall|i: int| 0 <= i < 4 ==> state_wf(#[trigger] m[i])
}

pub open spec fn mv(m: [[Fe; 4]; 4]) -> Seq<Seq<int>> {
    Seq::new(4, |i: int| sv(m[i]))
}

/// `sum_{j < n} row[j] * st[j]` in the field.
pub open spec fn inner_product_spec(row: Seq<int>, st: Seq<int>, n: nat) -> int
    decreases n,
{
    if n == 0 {
        0
    } else {
        fadd(inner_product_spec(row, st, (n - 1) as nat), fmul(row[n - 1], st[n - 1]))
    }
}

/// The affine map `st -> M st + c`.
pub open spec fn linear_spec(m: Seq<Seq<int>>, st: Seq<int>, c: Seq<int>) -> Seq<int> {
    Seq::new(4, |i: int| fadd(inner_product_spec(m[i], st, 4), c[i]))
}

/// Every element raised to `e`.
pub open spec fn sbox_spec(st: Seq<int>, e: nat) -> Seq<int> {
    Seq::new(4, |i: int| fpow(st[i], e))
}

pub open spec fn add_spec(a: Seq<int>, b: Seq<int>) -> Seq<int> {
    Seq::new(4, |i: int| fadd(a[i], b[i]))
}

pub open spec fn sub_spec(a: Seq<int>, b: Seq<int>) -> Seq<int> {
    Seq::new(4, |i: int| fsub(a[i], b[i]))
}

/// The `k`-th intermediate state of the core permutation of `inp` with the
/// state vectors `v`: state 0 is `inp + v[0]`; state `2r+1` applies the
/// inverse S-box and `M . + v[2r+1]` to state `2r`; state `2r+2` applies the
/// fifth-power S-box and `M . + v[2r+2]` to state `2r+1`.
pub open spec fn perm_state(inp: Seq<int>, v: Seq<Seq<int>>, m: Seq<Seq<int>>, a_inv: nat, k: nat) -> Seq<int>
    decreases k,
{
    if k == 0 {
        add_spec(inp, v[0])
    } else if k % 2 == 1 {
        linear_spec(m, sbox_spec(perm_state(inp, v, m, a_inv, (k - 1) as nat), a_inv), v[k as int])
    } else {
        linear_spec(m, sbox_spec(perm_state(inp, v, m, a_inv, (k - 1) as nat), 5), v[k as int])
    }
}

/// The inverse S-box undoes the fifth power on every element: `a_inv` is
/// the inverse of 5 modulo `p - 1`.
pub open spec fn sbox_inverts(a_inv: nat) -> bool {
    forall|x: int| 0 <= x < modulus() ==> #[trigger] fpow(fpow(x, a_inv), 5) == x
}

/// All the intermediate states of the core permutation.
pub open spec fn perm_states(inp: Seq<int>, v: Seq<Seq<int>>, m: Seq<Seq<int>>, a_inv: nat) -> Seq<Seq<int>> {
    Seq::new(N_CONSTS as nat, |k: int| perm_state(inp, v, m, a_inv, k as nat))
}

/// Rescue parameters: the exponent of the inverse S-box, the MDS matrix,
/// the key-injection vectors and the round constants of the fixed-key
/// permutation.
pub trait RescueParameters {
    spec fn spec_a_inv(&self) -> nat;

    spec fn spec_mds(&self) -> Seq<Seq<int>>;

    spec fn spec_round_constant(&self, r: int) -> Seq<int>;

    spec fn spec_key_injection_state(&self, r: int) -> Seq<int>;

    spec fn params_wf(&self) -> bool;

    /// Well-formed parameters have an inverse S-box that undoes the fifth
    /// power: `a_inv` is the inverse of 5 modulo `p - 1`.
    proof fn lemma_sbox_inverts(&self)
        requires
            self.params_wf(),
        ensures
            sbox_inverts(self.spec_a_inv());

    /// The exponent `5^-1 mod (p - 1)` in little-endian limbs.
    fn a_inv(&self) -> (r: [u64; 4])
        requires
            self.params_wf(),
        ensures
            limbs_val(r@) == self.spec_a_inv();

    /// The MDS matrix.
    fn mds(&self) -> (r: [[Fe; 4]; 4])
        requires
            self.params_wf(),
        ensures
            matrix_wf(r),
            mv(r) == self.spec_mds();

    /// The `r`-th round-constant vector of the fixed-key permutation.
    fn round_constants_state(&self, r: usize) -> (s: RescueState)
        requires
            self.params_wf(),
            r < N_CONSTS,
        ensures
            state_wf(s),
            sv(s) == self.spec_round_constant(r as int);

    /// The `r`-th key-injection vector.
    fn key_injection_state(&self, r: usize) -> (s: RescueState)
        requires
            self.params_wf(),
            r < N_CONSTS,
        ensures
            state_wf(s),
            sv(s) == self.spec_key_injection_state(r as int);
}

/// The round constants of the fixed-key permutation, in order.
pub open spec fn round_constants_seq<P: RescueParameters>(p: &P) -> Seq<Seq<int>> {
    Seq::new(N_CONSTS as nat, |r: int| p.spec_round_constant(r))
}

/// The key-injection vectors, in order.
pub open spec fn key_injection_seq<P: RescueParameters>(p: &P) -> Seq<Seq<int>> {
    Seq::new(N_CONSTS as nat, |r: int| p.spec_key_injection_state(r))
}

/// A set of Rescue parameters held as values.
#[derive(Debug)]
pub struct RescueConstants {
    pub a_inv: [u64; 4],
    pub mds: [[Fe; 4]; 4],
    pub round_constants: Vec<RescueState>,
    pub key_injection: Vec<RescueState>,
}

pub open spec fn states_wf(v: Seq<RescueState>) -> bool {
    forall|i: int| 0 <= i < v.len() ==> state_wf(#[trigger] v[i])
}

pub open spec fn svs(v: Seq<RescueState>) -> Seq<Seq<int>> {
    Seq::new(v.len(), |i: int| sv(v[i]))
}

impl RescueParameters for RescueConstants {
    open spec fn spec_a_inv(&self) -> nat {
        limbs_val(self.a_inv@) as nat
    }

    open spec fn spec_mds(&self) -> Seq<Seq<int>> {
        mv(self.mds)
    }

    open spec fn spec_round_constant(&self, r: int) -> Seq<int> {
        sv(self.round_constants@[r])
    }

    open spec fn spec_key_injection_state(&self, r: int) -> Seq<int> {
        sv(self.key_injection@[r])
    }

    open spec fn params_wf(&self) -> bool {
        &&& matrix_wf(self.mds)
        &&& self.round_constants.len() == N_CONSTS
        &&& self.key_injection.len() == N_CONSTS
        &&& states_wf(self.round_constants@)
        &&& states_wf(self.key_injection@)
        &&& sbox_inverts(limbs_val(self.a_inv@) as nat)
    }

    proof fn lemma_sbox_inverts(&self) {
    }

    fn a_inv(&self) -> (r: [u64; 4]) {
        self.a_inv
    }

    fn mds(&self) -> (r: [[Fe; 4]; 4]) {
        proof {
            assert(mv(self.mds) =~= self.spec_mds());
        }
        self.mds
    }

    fn round_constants_state(&self, r: usize) -> (s: RescueState) {
        self.round_constants[r]
    }

    fn key_injection_state(&self, r: usize) -> (s: RescueState) {
        self.key_injection[r]
    }
}

/// The inner product of two rows of four elements.
fn inner_product(a: &[Fe; 4], b: &[Fe; 4]) -> (r: Fe)
    requires
        state_wf(*a),
        state_wf(*b),
    ensures
        r.wf(),
        r.val() == inner_product_spec(sv(*a), sv(*b), 4),
{
    let mut acc = Fe::zero();
    let mut i: usize = 0;
    while i < 4
        invariant
            i <= 4,
            state_wf(*a),
            state_wf(*b),
            acc.wf(),
            acc.val() == inner_product_spec(sv(*a), sv(*b), i as nat),
        decreases 4 - i,
    {
        let t = fe_mul(a[i], b[i]);
        acc = fe_add(acc, t);
        i = i + 1;
    }
    acc
}

/// Applies the map `st -> M st + c`.
pub(crate) fn linear_op(state: &mut RescueState, matrix: &[[Fe; 4]; 4], constant: &RescueState)
    requires
        state_wf(*old(state)),
        matrix_wf(*matrix),
        state_wf(*constant),
    ensures
        state_wf(*final(state)),
        sv(*final(state)) == linear_spec(mv(*matrix), sv(*old(state)), sv(*constant)),
{
    let z = Fe::zero();
    let mut new_state: RescueState = [z, z, z, z];
    let mut i: usize = 0;
    while i < 4
        invariant
            i <= 4,
            state_wf(*state),
            matrix_wf(*matrix),
            state_wf(*constant),
            forall|j: int| 0 <= j < 4 ==> (#[trigger] new_state[j]).wf(),
            forall|j: int| 0 <= j < i ==> (#[trigger] new_state[j]).val()
                == fadd(inner_product_spec(sv(matrix[j]), sv(*state), 4), constant[j].val()),
        decreases 4 - i,
    {
        let ip = inner_product(&matrix[i], state);
        new_state[i] = fe_add(ip, constant[i]);
        i = i + 1;
    }
    proof {
        assert(sv(new_state) =~= linear_spec(mv(*matrix), sv(*state), sv(*constant)));
    }
    *state = new_state;
}

/// Raises every element of the state to the exponent given in limbs.
pub(crate) fn sbox(state: &mut RescueState, e: [u64; 4])
    requires
        state_wf(*old(state)),
    ensures
        state_wf(*final(state)),
        sv(*final(state)) == sbox_spec(sv(*old(state)), limbs_val(e@) as nat),
{
    let ghost orig = *state;
    let mut i: usize = 0;
    while i < 4
        invariant
            i <= 4,
            state_wf(*state),
            state_wf(orig),
            forall|j: int| i <= j < 4 ==> state[j] == orig[j],
            forall|j: int| 0 <= j < i ==> (#[trigger] state[j]).val() == fpow(orig[j].val(), limbs_val(e@) as nat),
        decreases 4 - i,
    {
        state[i] = fe_pow(state[i], e);
        i = i + 1;
    }
    proof {
        assert(sv(*state) =~= sbox_spec(sv(orig), limbs_val(e@) as nat));
    }
}

/// Maps every element `s` of the state to `s^5`.
fn sbox_pow5(state: &mut RescueState)
    requires
        state_wf(*old(state)),
    ensures
        state_wf(*final(state)),
        sv(*final(state)) == sbox_spec(sv(*old(state)), 5),
{
    let e: [u64; 4] = [5, 0, 0, 0];
    proof {
        assert(limbs_val(e@) == 5);
    }
    sbox(state, e);
}

/// Maps every element `s` of the state to `s^(5^-1 mod p-1)`, the exponent
/// given in limbs.
fn sbox_pow5_inv(a_inv: [u64; 4], state: &mut RescueState)
    requires
        state_wf(*old(state)),
    ensures
        state_wf(*final(state)),
        sv(*final(state)) == sbox_spec(sv(*old(state)), limbs_val(a_inv@) as nat),
{
    sbox(state, a_inv);
}

/// The element-wise sum of two states.
pub fn state_add(a: &RescueState, b: &RescueState) -> (r: RescueState)
    requires
        state_wf(*a),
        state_wf(*b),
    ensures
        state_wf(r),
        sv(r) == add_spec(sv(*a), sv(*b)),
{
    let r = [fe_add(a[0], b[0]), fe_add(a[1], b[1]), fe_add(a[2], b[2]), fe_add(a[3], b[3])];
    proof {
        assert(sv(r) =~= add_spec(sv(*a), sv(*b)));
    }
    r
}

/// The element-wise difference of two states.
pub fn state_sub(a: &RescueState, b: &RescueState) -> (r: RescueState)
    requires
        state_wf(*a),
        state_wf(*b),
    ensures
        state_wf(r),
        sv(r) == sub_spec(sv(*a), sv(*b)),
{
    let r = [fe_sub(a[0], b[0]), fe_sub(a[1], b[1]), fe_sub(a[2], b[2]), fe_sub(a[3], b[3])];
    proof {
        assert(sv(r) =~= sub_spec(sv(*a), sv(*b)));
    }
    r
}

/// Runs the core algorithm of Rescue on `inp` with the state vectors
/// `vector`, and returns all 25 intermediate states.
pub fn core_permutation(mds: &[[Fe; 4]; 4], a_inv: [u64; 4], inp: &RescueState, vector: &Vec<RescueState>) -> (r: Vec<RescueState>)
    requires
        matrix_wf(*mds),
        state_wf(*inp),
        vector.len() == N_CONSTS,
        states_wf(vector@),
    ensures
        r.len() == N_CONSTS,
        states_wf(r@),
        svs(r@) == perm_states(sv(*inp), svs(vector@), mv(*mds), limbs_val(a_inv@) as nat),
{
    let ghost v = svs(vector@);
    let ghost m = mv(*mds);
    let ghost a = limbs_val(a_inv@) as nat;
    let mut state = state_add(inp, &vector[0]);
    let mut result: Vec<RescueState> = Vec::new();
    result.push(state);
    proof {
        assert(sv(vector@[0]) == v[0]);
    }
    let mut r: usize = 0;
    while r < N_ROUNDS
        invariant
            r <= N_ROUNDS,
            vector.len() == N_CONSTS,
            states_wf(vector@),
            v == svs(vector@),
            a == limbs_val(a_inv@) as nat,
            matrix_wf(*mds),
            mv(*mds) == m,
            result.len() == 2 * r + 1,
            states_wf(result@),
            state_wf(state),
            state == result@[2 * r as int],
            forall|k: int| 0 <= k < result.len() ==> sv(#[trigger] result@[k]) == perm_state(sv(*inp), v, m, a, k as nat),
        decreases N_ROUNDS - r,
    {
        let ghost prev = sv(state);
        proof {
            assert(prev == perm_state(sv(*inp), v, m, a, (2 * r) as nat));
        }
        sbox_pow5_inv(a_inv, &mut state);
        linear_op(&mut state, mds, &vector[2 * r + 1]);
        proof {
            assert(sv(vector@[2 * r + 1]) == v[2 * r + 1]);
            assert((2 * r + 1) as nat % 2 == 1);
            assert(sv(state) == perm_state(sv(*inp), v, m, a, (2 * r + 1) as nat));
        }
        let ghost mid = sv(state);
        result.push(state);
        sbox_pow5(&mut state);
        linear_op(&mut state, mds, &vector[2 * r + 2]);
        proof {
            assert(sv(vector@[2 * r + 2]) == v[2 * r + 2]);
            assert((2 * r + 2) as nat % 2 == 0);
            assert(sv(state) == perm_state(sv(*inp), v, m, a, (2 * r + 2) as nat));
        }
        result.push(state);
        r = r + 1;
    }
    proof {
        assert(svs(result@) =~= perm_states(sv(*inp), v, m, a));
    }
    result
}


/// The round keys of the keyed permutation: the intermediate states of the
/// core permutation of the key with the key-injection vectors.
pub open spec fn keyed_round_keys<P: RescueParameters>(p: &P, key: Seq<int>) -> Seq<Seq<int>> {
    perm_states(key, key_injection_seq(p), p.spec_mds(), p.spec_a_inv())
}

/// The permutation of `inp` under the round keys `rk`.
pub open spec fn permute_spec<P: RescueParameters>(p: &P, rk: Seq<Seq<int>>, inp: Seq<int>) -> Seq<int> {
    perm_state(inp, rk, p.spec_mds(), p.spec_a_inv(), (N_CONSTS - 1) as nat)
}

/// The fixed-key permutation.
pub open spec fn fixed_permute_spec<P: RescueParameters>(p: &P, inp: Seq<int>) -> Seq<int> {
    permute_spec(p, round_constants_seq(p), inp)
}

/// A pseudo-random permutation of Rescue states.
pub trait PseudoRandomPermutation {
    spec fn spec_permute(&self, inp: Seq<int>) -> Seq<int>;

    spec fn prp_wf(&self) -> bool;

    /// Samples a key.
    fn keygen() -> (k: RescueState)
        ensures
            state_wf(k);

    /// The permutation function.
    fn permute(&self, inp: &RescueState) -> (r: RescueState)
        requires
            self.prp_wf(),
            state_wf(*inp),
        ensures
            state_wf(r),
            sv(r) == self.spec_permute(sv(*inp));
}

/// The Rescue permutation, with its round keys computed once.
pub struct RescuePRP {
    pub key: RescueState,
    pub round_keys: Vec<RescueState>,
    pub mds: [[Fe; 4]; 4],
    pub a_inv: [u64; 4],
}

impl RescuePRP {
    /// A permutation under `key`, or the fixed-key permutation (key zero,
    /// with the precomputed round constants) when `key` is `None`.
    pub fn new<P: RescueParameters>(params: &P, key: Option<RescueState>) -> (r: Self)
        requires
            params.params_wf(),
            key matches Some(k) ==> state_wf(k),
        ensures
            r.prp_wf(),
            mv(r.mds) == params.spec_mds(),
            limbs_val(r.a_inv@) == params.spec_a_inv(),
            key matches Some(k) ==> svs(r.round_keys@) == keyed_round_keys(params, sv(k)),
            key is None ==> svs(r.round_keys@) == round_constants_seq(params),
    {
        let mds = params.mds();
        let a_inv = params.a_inv();
        match key {
            Some(k) => {
                let mut ki: Vec<RescueState> = Vec::new();
                let mut i: usize = 0;
                while i < N_CONSTS
                    invariant
                        i <= N_CONSTS,
                        params.params_wf(),
                        ki.len() == i,
                        states_wf(ki@),
                        forall|j: int| 0 <= j < i ==> sv(#[trigger] ki@[j]) == params.spec_key_injection_state(j),
                    decreases N_CONSTS - i,
                {
                    ki.push(params.key_injection_state(i));
                    i = i + 1;
                }
                let round_keys = core_permutation(&mds, a_inv, &k, &ki);
                proof {
                    assert(svs(ki@) =~= key_injection_seq(params));
                }
                RescuePRP { key: k, round_keys, mds, a_inv }
            },
            None => {
                let mut rc: Vec<RescueState> = Vec::new();
                let mut i: usize = 0;
                while i < N_CONSTS
                    invariant
                        i <= N_CONSTS,
                        params.params_wf(),
                        rc.len() == i,
                        states_wf(rc@),
                        forall|j: int| 0 <= j < i ==> sv(#[trigger] rc@[j]) == params.spec_round_constant(j),
                    decreases N_CONSTS - i,
                {
                    rc.push(params.round_constants_state(i));
                    i = i + 1;
                }
                proof {
                    assert(svs(rc@) =~= round_constants_seq(params));
                }
                let z = Fe::zero();
                RescuePRP { key: [z, z, z, z], round_keys: rc, mds, a_inv }
            },
        }
    }
}

impl PseudoRandomPermutation for RescuePRP {
    open spec fn spec_permute(&self, inp: Seq<int>) -> Seq<int> {
        perm_state(inp, svs(self.round_keys@), mv(self.mds), limbs_val(self.a_inv@) as nat, (N_CONSTS - 1) as nat)
    }

    open spec fn prp_wf(&self) -> bool {
        &&& matrix_wf(self.mds)
        &&& self.round_keys.len() == N_CONSTS
        &&& states_wf(self.round_keys@)
    }

    fn keygen() -> (k: RescueState) {
        [fe_random(), fe_random(), fe_random(), fe_random()]
    }

    fn permute(&self, inp: &RescueState) -> (r: RescueState) {
        let all = core_permutation(&self.mds, self.a_inv, inp, &self.round_keys);
        let r = all[N_CONSTS - 1];
        proof {
            assert(svs(all@)[N_CONSTS - 1] == sv(all@[N_CONSTS - 1]));
        }
        r
    }
}

/// The key stream of the block cipher at counter `i`: the keyed permutation
/// of the state `[i, 0, 0, 0]`.
pub open spec fn key_stream<P: RescueParameters>(p: &P, key: Seq<int>, i: int) -> Seq<int> {
    permute_spec(p, keyed_round_keys(p, key), seq![i, 0, 0, 0])
}

/// The counter-mode encryption of `msg`.
pub open spec fn encrypt_spec<P: RescueParameters>(p: &P, msg: Seq<Seq<int>>, key: Seq<int>) -> Seq<Seq<int>> {
    Seq::new(msg.len(), |i: int| add_spec(msg[i], key_stream(p, key, i)))
}

/// The counter-mode decryption of `ctxt`.
pub open spec fn decrypt_spec<P: RescueParameters>(p: &P, ctxt: Seq<Seq<int>>, key: Seq<int>) -> Seq<Seq<int>> {
    Seq::new(ctxt.len(), |i: int| sub_spec(ctxt[i], key_stream(p, key, i)))
}

/// The Rescue block cipher in counter mode.
pub struct RescueBlockCipher;

impl RescueBlockCipher {
    /// Samples a key for the cipher.
    pub fn keygen() -> (k: RescueState)
        ensures
            state_wf(k),
    {
        RescuePRP::keygen()
    }

    fn apply_key_stream<P: RescueParameters>(params: &P, data: Vec<RescueState>, key: RescueState, encrypt: bool) -> (r: Vec<RescueState>)
        requires
            params.params_wf(),
            state_wf(key),
            states_wf(data@),
            data.len() < 0x1_0000_0000_0000_0000,
        ensures
            r.len() == data.len(),
            states_wf(r@),
            encrypt ==> svs(r@) == encrypt_spec(params, svs(data@), sv(key)),
            !encrypt ==> svs(r@) == decrypt_spec(params, svs(data@), sv(key)),
    {
        let prp = RescuePRP::new(params, Some(key));
        let mut output: Vec<RescueState> = Vec::new();
        let mut i: usize = 0;
        while i < data.len()
            invariant
                i <= data.len(),
                data.len() < 0x1_0000_0000_0000_0000,
                prp.prp_wf(),
                mv(prp.mds) == params.spec_mds(),
                limbs_val(prp.a_inv@) == params.spec_a_inv(),
                svs(prp.round_keys@) == keyed_round_keys(params, sv(key)),
                states_wf(data@),
                output.len() == i,
                states_wf(output@),
                forall|j: int| 0 <= j < i ==> sv(#[trigger] output@[j]) == (if encrypt {
                    add_spec(sv(data@[j]), key_stream(params, sv(key), j))
                } else {
                    sub_spec(sv(data@[j]), key_stream(params, sv(key), j))
                }),
            decreases data.len() - i,
        {
            let z = Fe::zero();
            let input: RescueState = [Fe::from_u64(i as u64), z, z, z];
            proof {
                assert(sv(input) =~= seq![i as int, 0, 0, 0]);
            }
            let ks = prp.permute(&input);
            let val = if encrypt {
                state_add(&data[i], &ks)
            } else {
                state_sub(&data[i], &ks)
            };
            output.push(val);
            i = i + 1;
        }
        proof {
            if encrypt {
                assert(svs(output@) =~= encrypt_spec(params, svs(data@), sv(key)));
            } else {
                assert(svs(output@) =~= decrypt_spec(params, svs(data@), sv(key)));
            }
        }
        output
    }

    /// Encrypts a message under a given key.
    pub fn encrypt<P: RescueParameters>(params: &P, msg: Vec<RescueState>, key: RescueState) -> (r: Vec<RescueState>)
        requires
            params.params_wf(),
            state_wf(key),
            states_wf(msg@),
            msg.len() < 0x1_0000_0000_0000_0000,
        ensures
            r.len() == msg.len(),
            states_wf(r@),
            svs(r@) == encrypt_spec(params, svs(msg@), sv(key)),
    {
        Self::apply_key_stream(params, msg, key, true)
    }

    /// Decrypts a ciphertext under a given key.
    pub fn decrypt<P: RescueParameters>(params: &P, ctxt: Vec<RescueState>, key: RescueState) -> (r: Vec<RescueState>)
        requires
            params.params_wf(),
            state_wf(key),
            states_wf(ctxt@),
            ctxt.len() < 0x1_0000_0000_0000_0000,
        ensures
            r.len() == ctxt.len(),
            states_wf(r@),
            svs(r@) == decrypt_spec(params, svs(ctxt@), sv(key)),
    {
        Self::apply_key_stream(params, ctxt, key, false)
    }
}

pub open spec fn vals_in_field(v: Seq<Seq<int>>) -> bool {
    forall|i: int, j: int| 0 <= i < v.len() && 0 <= j < 4 ==> 0 <= #[trigger] v[i][j] < modulus()
}

proof fn lemma_fsub_fadd(a: int, s: int)
    requires
        0 <= a < modulus(),
    ensures
        fsub(fadd(a, s), s) == a,
{
    crate::field::lemma_modulus_bounds();
    let m = modulus();
    lemma_sub_mod_noop(a + s, s, m);
    lemma_sub_mod_noop((a + s) % m, s, m);
    lemma_mod_twice(a + s, m);
    lemma_small_mod(a as nat, m as nat);
    assert(a + s - s == a);
}

/// Decrypting, under the same key, what was encrypted gives the message back.
pub proof fn lemma_decrypt_encrypt<P: RescueParameters>(p: &P, msg: Seq<Seq<int>>, key: Seq<int>)
    requires
        forall|i: int| 0 <= i < msg.len() ==> (#[trigger] msg[i]).len() == 4,
        vals_in_field(msg),
    ensures
        decrypt_spec(p, encrypt_spec(p, msg, key), key) == msg,
{
    let c = encrypt_spec(p, msg, key);
    let d = decrypt_spec(p, c, key);
    assert forall|i: int| 0 <= i < msg.len() implies #[trigger] d[i] == msg[i] by {
        let ks = key_stream(p, key, i);
        assert forall|j: int| 0 <= j < 4 implies #[trigger] d[i][j] == msg[i][j] by {
            assert(0 <= msg[i][j] < modulus());
            lemma_fsub_fadd(msg[i][j], ks[j]);
        }
        assert(d[i] =~= msg[i]);
    }
    assert(d =~= msg);
}

/// The `j`-th block absorbed by the sponge: three inputs, zero-padded, and
/// nothing added to the capacity element.
pub open spec fn sponge_block(inputs: Seq<int>, j: int) -> Seq<int> {
    Seq::new(4, |i: int| if i < 3 && 3 * j + i < inputs.len() { inputs[3 * j + i] } else { 0 })
}

/// The sponge state after absorbing `j` blocks.
pub open spec fn sponge_state<P: RescueParameters>(p: &P, inputs: Seq<int>, tag: int, j: nat) -> Seq<int>
    decreases j,
{
    if j == 0 {
        seq![0, 0, 0, tag]
    } else {
        fixed_permute_spec(p, add_spec(sponge_state(p, inputs, tag, (j - 1) as nat), sponge_block(inputs, j - 1)))
    }
}

pub open spec fn sponge_blocks(n: int) -> nat {
    ((n + 2) / 3) as nat
}

/// The sponge hash of `inputs` with domain tag `tag`: the first element of
/// the state after absorbing every block.
pub open spec fn sponge_hash_spec<P: RescueParameters>(p: &P, inputs: Seq<int>, tag: int) -> int {
    sponge_state(p, inputs, tag, sponge_blocks(inputs.len() as int))[0]
}

pub open spec fn fes_wf(v: Seq<Fe>) -> bool {
    forall|i: int| 0 <= i < v.len() ==> (#[trigger] v[i]).wf()
}

pub open spec fn fes_val(v: Seq<Fe>) -> Seq<int> {
    Seq::new(v.len(), |i: int| v[i].val())
}

/// The Rescue sponge: rate three, capacity one, on the fixed-key permutation.
pub struct RescueSponge;

impl RescueSponge {
    /// Hashes `inputs`, with the domain tag `tag` (zero when `None`) in the
    /// capacity element.
    pub fn hash<P: RescueParameters>(params: &P, inputs: &Vec<Fe>, tag: Option<Fe>) -> (r: Fe)
        requires
            params.params_wf(),
            fes_wf(inputs@),
            tag matches Some(t) ==> t.wf(),
            inputs.len() < 0x1_0000_0000_0000_0000,
        ensures
            r.wf(),
            r.val() == sponge_hash_spec(params, fes_val(inputs@), match tag {
                Some(t) => t.val(),
                None => 0,
            }),
    {
        let ghost tv = match tag {
            Some(t) => t.val(),
            None => 0,
        };
        let ghost iv = fes_val(inputs@);
        let z = Fe::zero();
        let t = match tag {
            Some(t) => t,
            None => z,
        };
        let prp = RescuePRP::new(params, None);
        let mut state: RescueState = [z, z, z, t];
        proof {
            assert(sv(state) =~= sponge_state(params, iv, tv, 0));
        }
        let n = inputs.len();
        let nblocks = n / 3 + if n % 3 == 0 { 0 } else { 1 };
        proof {
            assert(nblocks == sponge_blocks(n as int));
        }
        let mut j: usize = 0;
        while j < nblocks
            invariant
                j <= nblocks,
                z.wf(),
                z.val() == 0,
                nblocks == sponge_blocks(n as int),
                n == inputs.len(),
                n < 0x1_0000_0000_0000_0000,
                prp.prp_wf(),
                params.params_wf(),
                mv(prp.mds) == params.spec_mds(),
                limbs_val(prp.a_inv@) == params.spec_a_inv(),
                svs(prp.round_keys@) == round_constants_seq(params),
                fes_wf(inputs@),
                iv == fes_val(inputs@),
                state_wf(state),
                sv(state) == sponge_state(params, iv, tv, j as nat),
            decreases nblocks - j,
        {
            let mut block: RescueState = [z, z, z, z];
            let mut i: usize = 0;
            while i < 3
                invariant
                    i <= 3,
                    j < nblocks,
                    nblocks == sponge_blocks(n as int),
                    n == inputs.len(),
                    fes_wf(inputs@),
                    iv == fes_val(inputs@),
                    z.val() == 0,
                    z.wf(),
                    state_wf(block),
                    block[3] == z,
                    forall|k: int| 0 <= k < 3 ==> (#[trigger] block[k]).val() == (if k < i && 3 * j + k < n {
                        iv[3 * j + k]
                    } else {
                        0
                    }),
                decreases 3 - i,
            {
                if 3 * j + i < n {
                    block[i] = inputs[3 * j + i];
                }
                i = i + 1;
            }
            proof {
                assert(sv(block) =~= sponge_block(iv, j as int));
            }
            let absorbed = state_add(&state, &block);
            state = prp.permute(&absorbed);
            j = j + 1;
        }
        state[0]
    }
}

/// Relies on `ff::Field::random` with the operating system's generator: a
/// uniformly random element; nothing is known of its value.
#[verifier::external_body]
fn fe_random() -> (r: Fe)
    ensures
        r.wf(),
{
    Fe { bytes: <bls12_381::Scalar as ff::Field>::random(rand_core::OsRng).to_bytes() }
}

} // verus!
