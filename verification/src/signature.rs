//! Assembly of the final signature scalars from nonce shares, key shares and
//! the additive cross terms the share conversion produced.
//!
//! Per party `i`, the signature share is
//! `r * (k_i*w_i + Σ cross terms - Σ masks) + k_i * message` in the scalar
//! field, with the same row/column discipline as the commitment assembly.

use vstd::prelude::*;

verus! {

use vstd::arithmetic::div_mod::{
    lemma_add_mod_noop, lemma_fundamental_div_mod_converse, lemma_mul_mod_noop_general,
    lemma_small_mod,
};

use vstd::arithmetic::mul::lemma_mul_inequality;

use pasta_curves::pallas;

use crate::arith::{lemma_mod_add3, lemma_mod_addl, lemma_mod_subl};
use crate::curve::{
    point_add, point_eq, point_generator, point_log, point_mul, scalar_add, scalar_from_u128,
    scalar_int, scalar_mul, scalar_order,
};
use crate::mta::{
    cross_add_fold, cross_sub_fold, decrypt_step, encrypt_k_step, lemma_cross_add_fold_three,
    lemma_cross_sub_fold_three, mask_step, mta_decryption, mta_trace,
};
use crate::paillier::{paillier_cs, paillier_key_broken, MAX_PAILLIER_N};
use crate::rng::{generate_random_u128_in_range, hash_message_to_u64};
use crate::CoreError;

/// Party `i`'s signature share over the scalar field: the reweighted sum of
/// its own product, its credited cross terms and its debited masks, scaled by
/// the commitment scalar `rr`, plus `k_i * msg`.
pub open spec fn signature_share(
    k: Seq<u128>,
    w: Seq<u128>,
    plain: Seq<u128>,
    neg: Seq<u128>,
    msg: int,
    rr: int,
    i: int,
) -> int {
    let n = k.len() as int;
    let base = (k[i] * w[i]) % scalar_order();
    let v1 = cross_add_fold(base, plain, i, n, plain.len() as int);
    let v2 = cross_sub_fold(v1, neg, i, n, neg.len() as int);
    ((v2 * rr) % scalar_order() + (k[i] * msg) % scalar_order()) % scalar_order()
}

/// The combining step alone: turns the decrypted cross terms and kept masks
/// into one signature share per party.
pub fn combine_signature_step(
    plain_text: &Vec<u128>,
    selfk: &Vec<u128>,
    selfw: &Vec<u128>,
    add_num_neg: &Vec<u128>,
    message: u128,
    r: &pallas::Scalar,
) -> (out: Vec<pallas::Scalar>)
    requires
        selfw@.len() == selfk@.len(),
        plain_text@.len() == selfk@.len() * selfk@.len(),
        add_num_neg@.len() == plain_text@.len(),
    ensures
        out@.len() == selfk@.len(),
        forall|i: int|
            0 <= i < selfk@.len() ==> #[trigger] scalar_int(out@[i]) == signature_share(
                selfk@,
                selfw@,
                plain_text@,
                add_num_neg@,
                message as int,
                scalar_int(*r),
                i,
            ),
{
    let n = selfk.len();
    let msgfq = scalar_from_u128(message);
    let mut shares: Vec<pallas::Scalar> = Vec::new();
    let mut i: usize = 0;
    while i < n
        invariant
            i <= n,
            n == selfk@.len(),
            selfw@.len() == n,
            plain_text@.len() == n * n,
            add_num_neg@.len() == n * n,
            scalar_int(msgfq) == message as int,
            shares@.len() == i as int,
            forall|u: int|
                0 <= u < i ==> #[trigger] scalar_int(shares@[u]) == signature_share(
                    selfk@,
                    selfw@,
                    plain_text@,
                    add_num_neg@,
                    message as int,
                    scalar_int(*r),
                    u,
                ),
        decreases n - i,
    {
        let kfq = scalar_from_u128(selfk[i]);
        let wfq = scalar_from_u128(selfw[i]);
        let mut acc = scalar_mul(&kfq, &wfq);
        let ghost base = (selfk@[i as int] * selfw@[i as int]) % scalar_order();
        proof {
            lemma_small_mod(selfk@[i as int] as nat, scalar_order() as nat);
            lemma_small_mod(selfw@[i as int] as nat, scalar_order() as nat);
        }
        let mut t: usize = 0;
        while t < plain_text.len()
            invariant
                t <= plain_text@.len(),
                i < n,
                n == selfk@.len(),
                plain_text@.len() == n * n,
                scalar_int(acc) == cross_add_fold(base, plain_text@, i as int, n as int, t as int),
            decreases plain_text@.len() - t,
        {
            let player = t % n;
            let raw = t / n;
            if player == i && player != raw {
                let pfq = scalar_from_u128(plain_text[t]);
                acc = scalar_add(&acc, &pfq);
            }
            t = t + 1;
        }
        let ghost mid = cross_add_fold(
            base,
            plain_text@,
            i as int,
            n as int,
            plain_text@.len() as int,
        );
        let mut t2: usize = 0;
        while t2 < add_num_neg.len()
            invariant
                t2 <= add_num_neg@.len(),
                i < n,
                n == selfk@.len(),
                add_num_neg@.len() == n * n,
                scalar_int(acc) == cross_sub_fold(mid, add_num_neg@, i as int, n as int, t2 as int),
            decreases add_num_neg@.len() - t2,
        {
            let player = t2 % n;
            let raw = t2 / n;
            if raw == i && player != raw {
                let nfq = scalar_from_u128(add_num_neg[t2]);
                acc = crate::curve::scalar_sub(&acc, &nfq);
            }
            t2 = t2 + 1;
        }
        let scaled = scalar_mul(&acc, r);
        let mk = scalar_mul(&kfq, &msgfq);
        let share = scalar_add(&scaled, &mk);
        shares.push(share);
        i = i + 1;
    }
    shares
}

/// One signing round over the batched share conversion: every party's nonce
/// share is converted against every other party's key share, and the cross
/// terms are combined into per-party signature shares.
pub struct MakeSignature {
    pub selfk: Vec<u128>,
    pub mta_pub_n: Vec<u128>,
    pub selfw: Vec<u128>,
    pub pri_p: Vec<u128>,
    pub pri_q: Vec<u128>,
    pub message: u128,
    pub r: pallas::Scalar,
}

impl MakeSignature {
    /// Runs the four conversion steps with fresh randomness and combines the
    /// outputs; the exact content of each share is fixed by
    /// `combine_signature_step`, fed with the decrypted cross terms.
    pub fn make_signature(&self) -> (res: Result<Vec<pallas::Scalar>, CoreError>)
        requires
            self.mta_pub_n@.len() == self.selfk@.len(),
            self.selfw@.len() == self.selfk@.len(),
            self.pri_p@.len() == self.selfk@.len(),
            self.pri_q@.len() == self.selfk@.len(),
            self.selfk@.len() >= 1,
            forall|i: int|
                0 <= i < self.selfk@.len() ==> 2 <= #[trigger] self.mta_pub_n@[i]
                    <= MAX_PAILLIER_N,
            forall|i: int| 0 <= i < self.selfk@.len() ==> #[trigger] self.selfk@[i] < self.mta_pub_n@[i],
            forall|i: int| 0 <= i < self.selfk@.len() ==> 1 <= #[trigger] self.selfw@[i],
            forall|i: int| 0 <= i < self.selfk@.len() ==> 2 <= #[trigger] self.pri_p@[i],
            forall|i: int| 0 <= i < self.selfk@.len() ==> 2 <= #[trigger] self.pri_q@[i],
            forall|i: int|
                0 <= i < self.selfk@.len() ==> #[trigger] (self.pri_p@[i] * self.pri_q@[i])
                    <= MAX_PAILLIER_N,
        ensures
            match res {
                Ok(v) => v@.len() == self.selfk@.len() && exists|
                    randr: Seq<u128>,
                    addn: Seq<u128>,
                    rand2: Seq<u128>,
                    ciphers: Seq<u128>,
                    masked: Seq<u128>,
                    plain: Seq<u128>,
                |
                    #![trigger mta_trace(self.selfk@, self.selfw@, self.mta_pub_n@, randr, addn, rand2, ciphers, masked), mta_decryption(self.pri_p@, self.pri_q@, masked, plain)]
                    (mta_trace(
                        self.selfk@,
                        self.selfw@,
                        self.mta_pub_n@,
                        randr,
                        addn,
                        rand2,
                        ciphers,
                        masked,
                    ) && (forall|t: int|
                        0 <= t < addn.len() ==> #[trigger] (addn[t] as int) <= self.selfw@[t % (
                        self.selfk@.len() as int)]) && mta_decryption(
                        self.pri_p@,
                        self.pri_q@,
                        masked,
                        plain,
                    ) && (forall|i: int|
                        0 <= i < self.selfk@.len() ==> #[trigger] scalar_int(v@[i])
                            == signature_share(
                            self.selfk@,
                            self.selfw@,
                            plain,
                            addn,
                            self.message as int,
                            scalar_int(self.r),
                            i,
                        ))),
                Err(e) => {
                    &&& (e == CoreError::InvalidKey ==> exists|i: int|
                        0 <= i < self.selfk@.len() && paillier_key_broken(
                            #[trigger] (self.pri_p@[i] as nat),
                            self.pri_q@[i] as nat,
                        ))
                    &&& (e == CoreError::MalformedCiphertext ==> exists|
                        randr: Seq<u128>,
                        addn: Seq<u128>,
                        rand2: Seq<u128>,
                        ciphers: Seq<u128>,
                        masked: Seq<u128>,
                    |
                        #![trigger mta_trace(self.selfk@, self.selfw@, self.mta_pub_n@, randr, addn, rand2, ciphers, masked)]
                        mta_trace(
                            self.selfk@,
                            self.selfw@,
                            self.mta_pub_n@,
                            randr,
                            addn,
                            rand2,
                            ciphers,
                            masked,
                        ) && exists|t: int|
                            0 <= t < masked.len() && !paillier_key_broken(
                                self.pri_p@[t % (self.selfk@.len() as int)] as nat,
                                self.pri_q@[t % (self.selfk@.len() as int)] as nat,
                            ) && paillier_cs(
                                self.pri_p@[t % (self.selfk@.len() as int)] as nat,
                                self.pri_q@[t % (self.selfk@.len() as int)] as nat,
                                #[trigger] (masked[t] as nat),
                            ) == 0)
                    &&& (e == CoreError::InvalidKey || e == CoreError::MalformedCiphertext)
                },
            },
    {
        let n = self.selfk.len();
        // first step: encrypt every nonce share under its own modulus
        let mut rand_r: Vec<u128> = Vec::new();
        let mut j: usize = 0;
        while j < n
            invariant
                j <= n,
                n == self.mta_pub_n@.len(),
                rand_r@.len() == j as int,
                forall|t: int| 0 <= t < n ==> 2 <= #[trigger] self.mta_pub_n@[t] <= MAX_PAILLIER_N,
                forall|t: int| 0 <= t < j ==> 0 < #[trigger] rand_r@[t] < self.mta_pub_n@[t],
            decreases n - j,
        {
            let rv = generate_random_u128_in_range(1, self.mta_pub_n[j] - 1);
            rand_r.push(rv);
            j = j + 1;
        }
        let cipher_k = match encrypt_k_step(&self.selfk, &self.mta_pub_n, &rand_r) {
            Ok(c) => c,
            Err(e) => {
                return Err(e);
            },
        };
        // second step: every row party rescales every column ciphertext by
        // its key share and masks it
        let mut add_nums: Vec<u128> = Vec::new();
        let mut rand2: Vec<u128> = Vec::new();
        let mut row: usize = 0;
        while row < n
            invariant
                row <= n,
                n == self.selfk@.len(),
                self.selfw@.len() == n,
                self.mta_pub_n@.len() == n,
                add_nums@.len() == row * n,
                rand2@.len() == row * n,
                forall|t: int| 0 <= t < n ==> 2 <= #[trigger] self.mta_pub_n@[t] <= MAX_PAILLIER_N,
                forall|t: int| 0 <= t < n ==> 1 <= #[trigger] self.selfw@[t],
                forall|t: int|
                    0 <= t < add_nums@.len() ==> 1 <= #[trigger] add_nums@[t] && add_nums@[t]
                        <= self.selfw@[t % (n as int)],
                forall|t: int|
                    0 <= t < rand2@.len() ==> 1 <= #[trigger] rand2@[t] < self.mta_pub_n@[t % (
                    n as int)],
            decreases n - row,
        {
            let mut col: usize = 0;
            while col < n
                invariant
                    col <= n,
                    row < n,
                    n == self.selfk@.len(),
                    self.selfw@.len() == n,
                    self.mta_pub_n@.len() == n,
                    add_nums@.len() == row * n + col,
                    rand2@.len() == row * n + col,
                    forall|t: int|
                        0 <= t < n ==> 2 <= #[trigger] self.mta_pub_n@[t] <= MAX_PAILLIER_N,
                    forall|t: int| 0 <= t < n ==> 1 <= #[trigger] self.selfw@[t],
                    forall|t: int|
                        0 <= t < add_nums@.len() ==> 1 <= #[trigger] add_nums@[t] && add_nums@[t]
                            <= self.selfw@[t % (n as int)],
                    forall|t: int|
                        0 <= t < rand2@.len() ==> 1 <= #[trigger] rand2@[t] < self.mta_pub_n@[t % (
                        n as int)],
                decreases n - col,
            {
                proof {
                    assert((row + 1) * n == row * n + n) by (nonlinear_arith);
                    lemma_mul_inequality(row as int + 1, n as int, n as int);
                }
                let w = self.selfw[col];
                let mask = if w >= 2 {
                    generate_random_u128_in_range(1, w - 1)
                } else {
                    // a key share of 1 leaves 1 as the only positive mask
                    1
                };
                add_nums.push(mask);
                rand2.push(generate_random_u128_in_range(1, self.mta_pub_n[col] - 1));
                proof {
                    let t0 = row * n + col;
                    lemma_fundamental_div_mod_converse(t0 as int, n as int, row as int, col as int);
                }
                col = col + 1;
            }
            proof {
                assert((row + 1) * n == row * n + n) by (nonlinear_arith);
            }
            row = row + 1;
        }
        let masked = mask_step(&self.mta_pub_n, &cipher_k, &self.selfw, &add_nums, &rand2);
        proof {
            assert(mta_trace(
                self.selfk@,
                self.selfw@,
                self.mta_pub_n@,
                rand_r@,
                add_nums@,
                rand2@,
                cipher_k@,
                masked@,
            ));
        }
        // third step: the column party decrypts what was built on its
        // ciphertext
        let plain_text = match decrypt_step(&self.pri_p, &self.pri_q, &masked) {
            Ok(v) => v,
            Err(e) => {
                return Err(e);
            },
        };
        // fourth step: combine in the scalar field
        let combined = combine_signature_step(
            &plain_text,
            &self.selfk,
            &self.selfw,
            &add_nums,
            self.message,
            &self.r,
        );
        proof {
            assert(mta_decryption(self.pri_p@, self.pri_q@, masked@, plain_text@));
            assert(forall|i: int|
                0 <= i < self.selfk@.len() ==> #[trigger] scalar_int(combined@[i])
                    == signature_share(
                    self.selfk@,
                    self.selfw@,
                    plain_text@,
                    add_nums@,
                    self.message as int,
                    scalar_int(self.r),
                    i,
                ));
        }
        Ok(combined)
    }
}

/// A single party's signature response from an already-agreed commitment
/// scalar: `k * (message + w * r)`.
pub struct MakeSignature2 {
    pub message: pallas::Scalar,
    pub k: u128,
    pub r: pallas::Scalar,
    pub w: pallas::Scalar,
}

impl MakeSignature2 {
    /// Computes `(message + w*r) * k` in the scalar field.
    pub fn make_signature2(&self) -> (res: pallas::Scalar)
        ensures
            scalar_int(res) == ((scalar_int(self.message) + (scalar_int(self.w) * scalar_int(
                self.r,
            )) % scalar_order()) % scalar_order() * (self.k as int)) % scalar_order(),
    {
        let k = scalar_from_u128(self.k);
        let wr = scalar_mul(&self.w, &self.r);
        let m_plus_wr = scalar_add(&self.message, &wr);
        let k_m_plus_wr = scalar_mul(&m_plus_wr, &k);
        proof {
            lemma_small_mod(self.k as nat, scalar_order() as nat);
        }
        k_m_plus_wr
    }
}

/// An EdDSA-style response: the commitment point `input_r * G` and the
/// scalar `input_r + pri * challenge`.
pub fn eddsa_response(pri: &pallas::Scalar, input_r: &pallas::Scalar, challenge: u64) -> (res: (
    pallas::Affine,
    pallas::Scalar,
))
    ensures
        point_log(res.0) == scalar_int(*input_r) % scalar_order(),
        scalar_int(res.1) == (scalar_int(*input_r) + (scalar_int(*pri) * (challenge as int))
            % scalar_order()) % scalar_order(),
{
    let generator = point_generator();
    let r_point = point_mul(&generator, input_r);
    let hfq = scalar_from_u128(challenge as u128);
    let temp = scalar_mul(pri, &hfq);
    let s = scalar_add(input_r, &temp);
    proof {
        lemma_small_mod(challenge as nat, scalar_order() as nat);
    }
    (r_point, s)
}

/// The EdDSA-style pre-computation: hash the message to a challenge,
/// publish `input_r * G`, and respond with `input_r + pri * challenge`.
pub fn pre_compute(pri: pallas::Scalar, input_r: pallas::Scalar, message: u128) -> (res: (
    pallas::Affine,
    pallas::Scalar,
))
    ensures
        point_log(res.0) == scalar_int(input_r) % scalar_order(),
        exists|h: int|
            0 <= h <= u64::MAX && scalar_int(res.1) == (scalar_int(input_r) + #[trigger] ((
            scalar_int(pri) * h) % scalar_order())) % scalar_order(),
{
    let challenge = hash_message_to_u64(message);
    let res = eddsa_response(&pri, &input_r, challenge);
    proof {
        assert(0 <= challenge as int <= u64::MAX);
    }
    res
}

/// A verification instance of the EdDSA-style equation.
pub struct Eddsa {
    pub response: pallas::Scalar,
    pub commitment: pallas::Affine,
    pub pub_key: pallas::Affine,
    pub e: pallas::Scalar,
}

impl Eddsa {
    /// Checks `response * G == e * pub_key + commitment` on the curve.
    pub fn eddsa(&self) -> (res: bool)
        ensures
            res == (((point_log(self.pub_key) * scalar_int(self.e)) % scalar_order() + point_log(
                self.commitment,
            )) % scalar_order() == scalar_int(self.response) % scalar_order()),
    {
        let generator = point_generator();
        let p1 = point_mul(&self.pub_key, &self.e);
        let p2 = point_add(&p1, &self.commitment);
        let response = point_mul(&generator, &self.response);
        point_eq(&p2, &response)
    }
}

/// Completeness of the EdDSA-style equation: an honestly formed response
/// passes the check.
pub proof fn lemma_eddsa_completeness(pri: int, rr: int, e: int, resp: int, c: int, pk: int)
    requires
        resp % scalar_order() == (rr + pri * e) % scalar_order(),
        c == rr % scalar_order(),
        pk == pri % scalar_order(),
    ensures
        ((pk * e) % scalar_order() + c) % scalar_order() == resp % scalar_order(),
{
    let q = scalar_order();
    lemma_mul_mod_noop_general(pri, e, q);
    assert((pk * e) % q == (pri * e) % q);
    lemma_mod_addl(pri * e, c, q);
    assert(((pri * e) % q + c) % q == (pri * e + c) % q);
    lemma_add_mod_noop(pri * e, rr, q);
    assert(((pri * e) % q + rr % q) % q == (pri * e + rr) % q);
    crate::arith::lemma_mod_addl(pri * e, rr % q, q);
    assert((pri * e + rr % q) % q == ((pri * e) % q + rr % q) % q) by {
        lemma_mod_addl(pri * e, rr % q, q);
    };
}

/// The signature combination identity for three parties: when every cross
/// term carries the product of its column's nonce share and its row's key
/// share plus its mask, the three signature shares sum to
/// `r * (Σk) * (Σw) + (Σk) * message` modulo the scalar-field order.
pub proof fn lemma_signature_combine_identity(
    k: Seq<u128>,
    w: Seq<u128>,
    plain: Seq<u128>,
    neg: Seq<u128>,
    msg: int,
    rr: int,
)
    requires
        k.len() == 3,
        w.len() == 3,
        plain.len() == 9,
        neg.len() == 9,
        forall|t: int|
            0 <= t < 9 && t % 3 != t / 3 ==> #[trigger] (plain[t] as int) == k[t % 3] * w[t / 3]
                + neg[t],
    ensures
        (signature_share(k, w, plain, neg, msg, rr, 0) + signature_share(k, w, plain, neg, msg, rr, 1)
            + signature_share(k, w, plain, neg, msg, rr, 2)) % scalar_order() == (rr * ((k[0] + k[1]
            + k[2]) * (w[0] + w[1] + w[2])) + (k[0] + k[1] + k[2]) * msg) % scalar_order(),
{
    let q = scalar_order();
    let v0 = k[0] as int * w[0] as int + plain[3] + plain[6] - neg[1] - neg[2];
    let v1 = k[1] as int * w[1] as int + plain[1] + plain[7] - neg[3] - neg[5];
    let v2 = k[2] as int * w[2] as int + plain[2] + plain[5] - neg[6] - neg[7];
    lemma_signature_share_value(k, w, plain, neg, msg, rr, 0, v0);
    lemma_signature_share_value(k, w, plain, neg, msg, rr, 1, v1);
    lemma_signature_share_value(k, w, plain, neg, msg, rr, 2, v2);
    lemma_mod_add3(v0 * rr + k[0] * msg, v1 * rr + k[1] * msg, v2 * rr + k[2] * msg, q);
    assert(plain[1] as int == k[1] * w[0] + neg[1]);
    assert(plain[2] as int == k[2] * w[0] + neg[2]);
    assert(plain[3] as int == k[0] * w[1] + neg[3]);
    assert(plain[5] as int == k[2] * w[1] + neg[5]);
    assert(plain[6] as int == k[0] * w[2] + neg[6]);
    assert(plain[7] as int == k[1] * w[2] + neg[7]);
    assert(v0 + v1 + v2 == (k[0] + k[1] + k[2]) * (w[0] + w[1] + w[2])) by (nonlinear_arith)
        requires
            v0 == k[0] as int * w[0] as int + plain[3] + plain[6] - neg[1] - neg[2],
            v1 == k[1] as int * w[1] as int + plain[1] + plain[7] - neg[3] - neg[5],
            v2 == k[2] as int * w[2] as int + plain[2] + plain[5] - neg[6] - neg[7],
            plain[1] as int == k[1] * w[0] + neg[1],
            plain[2] as int == k[2] * w[0] + neg[2],
            plain[3] as int == k[0] * w[1] + neg[3],
            plain[5] as int == k[2] * w[1] + neg[5],
            plain[6] as int == k[0] * w[2] + neg[6],
            plain[7] as int == k[1] * w[2] + neg[7],
    ;
    let sv = v0 + v1 + v2;
    let sk = k[0] as int + k[1] as int + k[2] as int;
    assert((v0 * rr + k[0] * msg) + (v1 * rr + k[1] * msg) + (v2 * rr + k[2] * msg) == rr * sv + sk
        * msg) by (nonlinear_arith)
        requires sv == v0 + v1 + v2 && sk == k[0] as int + k[1] as int + k[2] as int;
    assert(rr * sv + sk * msg == rr * ((k[0] + k[1] + k[2]) * (w[0] + w[1] + w[2])) + (k[0] + k[1]
        + k[2]) * msg);
}

/// One party's signature share reduces to the residue of
/// `v * r + k_i * message`, where `v` is the party's integer cross-term sum.
proof fn lemma_signature_share_value(
    k: Seq<u128>,
    w: Seq<u128>,
    plain: Seq<u128>,
    neg: Seq<u128>,
    msg: int,
    rr: int,
    i: int,
    v: int,
)
    requires
        k.len() == 3,
        w.len() == 3,
        plain.len() == 9,
        neg.len() == 9,
        0 <= i < 3,
        i == 0 ==> v == k[0] as int * w[0] as int + plain[3] + plain[6] - neg[1] - neg[2],
        i == 1 ==> v == k[1] as int * w[1] as int + plain[1] + plain[7] - neg[3] - neg[5],
        i == 2 ==> v == k[2] as int * w[2] as int + plain[2] + plain[5] - neg[6] - neg[7],
    ensures
        signature_share(k, w, plain, neg, msg, rr, i) == (v * rr + k[i] * msg) % scalar_order(),
{
    let q = scalar_order();
    let base = (k[i] * w[i]) % q;
    lemma_cross_add_fold_three(base, plain, i);
    let pa: int = if i == 0 { plain[3] as int } else if i == 1 { plain[1] as int } else { plain[2] as int };
    let pb: int = if i == 0 { plain[6] as int } else if i == 1 { plain[7] as int } else { plain[5] as int };
    let ca: int = if i == 0 { neg[1] as int } else if i == 1 { neg[3] as int } else { neg[6] as int };
    let cb: int = if i == 0 { neg[2] as int } else if i == 1 { neg[5] as int } else { neg[7] as int };
    let kw = k[i] as int * w[i] as int;
    lemma_mod_addl(kw, pa, q);
    lemma_mod_addl(kw + pa, pb, q);
    let f1 = ((base + pa) % q + pb) % q;
    assert(f1 == (kw + pa + pb) % q);
    lemma_cross_sub_fold_three(f1, neg, i);
    lemma_mod_subl(kw + pa + pb, ca, q);
    lemma_mod_subl(kw + pa + pb - ca, cb, q);
    let f2 = ((f1 - ca) % q - cb) % q;
    assert(f2 == v % q);
    // (f2 * rr) % q == (v * rr) % q, and the message term folds in
    lemma_mul_mod_noop_general(v, rr, q);
    assert((f2 * rr) % q == (v * rr) % q);
    lemma_mod_addl(v * rr, (k[i] * msg) % q, q);
    assert(((v * rr) % q + (k[i] * msg) % q) % q == (v * rr + (k[i] * msg) % q) % q);
    lemma_add_mod_noop_right_here(v * rr, k[i] as int * msg, q);
}

/// Reducing the right summand first does not change a sum's residue.
proof fn lemma_add_mod_noop_right_here(x: int, y: int, m: int)
    requires
        1 <= m,
    ensures
        (x + y % m) % m == (x + y) % m,
{
    vstd::arithmetic::div_mod::lemma_add_mod_noop_right(x, y, m);
}

} // verus!
