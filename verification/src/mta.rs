//! Multiplicative-to-additive share conversion, batched over every ordered
//! pair of parties, and the commitment assembly built on it.
//!
//! Party A encrypts its secret under its own Paillier key; party B rescales
//! the ciphertext by its secret and masks it with a fresh random summand,
//! keeping the negated mask; A decrypts the result.  The cross terms are laid
//! out row-major: the term at index `t` of a batch of `n*n` pairs the column
//! party `t % n` (whose key encrypts) with the row party `t / n` (whose
//! secret rescales).

use vstd::prelude::*;

verus! {

use vstd::arithmetic::div_mod::{lemma_fundamental_div_mod_converse, lemma_small_mod};
use vstd::arithmetic::mul::lemma_mul_inequality;

use pasta_curves::pallas;

use crate::arith::lemma_mul_overflow_check;
use crate::curve::{
    point_generator, point_log, point_mul, scalar_add, scalar_from_u128, scalar_int, scalar_mul,
    scalar_order, scalar_sub,
};
use crate::paillier::{
    paillier_cs, paillier_dec, paillier_dec_ok, paillier_enc, paillier_key_broken,
    paillier_mut_add, Decrypt, Encrypt, EncryptAddMut, MAX_PAILLIER_N,
};
use crate::rng::generate_random_u128_in_range;
use crate::CoreError;

/// First step of the batch: each party encrypts its secret under its own
/// public modulus with the given randomizer.
pub fn encrypt_k_step(selfk: &Vec<u128>, mta_pub_n: &Vec<u128>, rand_r: &Vec<u128>) -> (r: Result<
    Vec<u128>,
    CoreError,
>)
    requires
        selfk@.len() == mta_pub_n@.len(),
        rand_r@.len() == mta_pub_n@.len(),
        forall|i: int| 0 <= i < mta_pub_n@.len() ==> #[trigger] mta_pub_n@[i] <= MAX_PAILLIER_N,
    ensures
        match r {
            Ok(c) => c@.len() == selfk@.len() && (forall|i: int|
                0 <= i < c@.len() ==> 0 < #[trigger] rand_r@[i] < mta_pub_n@[i]) && (forall|i: int|
                0 <= i < c@.len() ==> #[trigger] selfk@[i] < mta_pub_n@[i]) && (forall|i: int|
                0 <= i < c@.len() ==> #[trigger] (c@[i] as int) == paillier_enc(
                    mta_pub_n@[i] as nat,
                    rand_r@[i] as nat,
                    selfk@[i] as nat,
                )),
            Err(e) => (e == CoreError::RandomizerOutOfRange || e == CoreError::MessageOutOfRange)
                && exists|i: int|
                0 <= i < mta_pub_n@.len() && (rand_r@[i] == 0 || rand_r@[i] >= mta_pub_n@[i]
                    || #[trigger] selfk@[i] >= mta_pub_n@[i]),
        },
{
    let mut out: Vec<u128> = Vec::new();
    let mut i: usize = 0;
    let len = mta_pub_n.len();
    while i < len
        invariant
            i <= len,
            len == mta_pub_n@.len(),
            selfk@.len() == len,
            rand_r@.len() == len,
            out@.len() == i as int,
            forall|t: int| 0 <= t < len ==> #[trigger] mta_pub_n@[t] <= MAX_PAILLIER_N,
            forall|t: int| 0 <= t < i ==> 0 < #[trigger] rand_r@[t] < mta_pub_n@[t],
            forall|t: int| 0 <= t < i ==> #[trigger] selfk@[t] < mta_pub_n@[t],
            forall|t: int|
                0 <= t < i ==> #[trigger] (out@[t] as int) == paillier_enc(
                    mta_pub_n@[t] as nat,
                    rand_r@[t] as nat,
                    selfk@[t] as nat,
                ),
        decreases len - i,
    {
        let enc = Encrypt {
            mta_pub_n: mta_pub_n[i],
            rand: rand_r[i],
            message: selfk[i],
        };
        let c = match enc.encrypt() {
            Ok(c) => c,
            Err(e) => {
                return Err(e);
            },
        };
        out.push(c);
        proof {
            assert(out@[i as int] as int == paillier_enc(
                mta_pub_n@[i as int] as nat,
                rand_r@[i as int] as nat,
                selfk@[i as int] as nat,
            ));
        }
        i = i + 1;
    }
    Ok(out)
}

/// Second step of the batch: for every row party `row` and column party
/// `col`, rescale the column's ciphertext by the row's secret and mask it
/// with the summand and randomizer at index `row * n + col`.
pub fn mask_step(
    others_mta_pub_n: &Vec<u128>,
    others_cipher_k: &Vec<u128>,
    mut_nums: &Vec<u128>,
    add_nums: &Vec<u128>,
    rand_nums: &Vec<u128>,
) -> (r: Vec<u128>)
    requires
        others_cipher_k@.len() == others_mta_pub_n@.len(),
        add_nums@.len() == mut_nums@.len() * others_mta_pub_n@.len(),
        rand_nums@.len() == add_nums@.len(),
        forall|i: int|
            0 <= i < others_mta_pub_n@.len() ==> 2 <= #[trigger] others_mta_pub_n@[i]
                <= MAX_PAILLIER_N,
    ensures
        r@.len() == add_nums@.len(),
        forall|t: int|
            0 <= t < r@.len() ==> #[trigger] (r@[t] as int) == paillier_mut_add(
                others_mta_pub_n@[t % (others_mta_pub_n@.len() as int)] as nat,
                others_cipher_k@[t % (others_mta_pub_n@.len() as int)] as nat,
                mut_nums@[t / (others_mta_pub_n@.len() as int)] as nat,
                add_nums@[t] as nat,
                rand_nums@[t] as nat,
            ),
{
    let n = others_mta_pub_n.len();
    let rows = mut_nums.len();
    let mut out: Vec<u128> = Vec::new();
    let mut row: usize = 0;
    while row < rows
        invariant
            row <= rows,
            n == others_mta_pub_n@.len(),
            rows == mut_nums@.len(),
            others_cipher_k@.len() == n,
            add_nums@.len() == rows * n,
            rand_nums@.len() == add_nums@.len(),
            out@.len() == row * n,
            forall|i: int| 0 <= i < n ==> 2 <= #[trigger] others_mta_pub_n@[i] <= MAX_PAILLIER_N,
            forall|t: int|
                0 <= t < out@.len() ==> #[trigger] (out@[t] as int) == paillier_mut_add(
                    others_mta_pub_n@[t % (n as int)] as nat,
                    others_cipher_k@[t % (n as int)] as nat,
                    mut_nums@[t / (n as int)] as nat,
                    add_nums@[t] as nat,
                    rand_nums@[t] as nat,
                ),
        decreases rows - row,
    {
        let mut col: usize = 0;
        proof {
            lemma_mul_inequality(row as int + 1, rows as int, n as int);
        }
        while col < n
            invariant
                col <= n,
                row < rows,
                n == others_mta_pub_n@.len(),
                rows == mut_nums@.len(),
                others_cipher_k@.len() == n,
                add_nums@.len() == rows * n,
                rand_nums@.len() == add_nums@.len(),
                (row + 1) * n <= rows * n,
                out@.len() == row * n + col,
                forall|i: int|
                    0 <= i < n ==> 2 <= #[trigger] others_mta_pub_n@[i] <= MAX_PAILLIER_N,
                forall|t: int|
                    0 <= t < out@.len() ==> #[trigger] (out@[t] as int) == paillier_mut_add(
                        others_mta_pub_n@[t % (n as int)] as nat,
                        others_cipher_k@[t % (n as int)] as nat,
                        mut_nums@[t / (n as int)] as nat,
                        add_nums@[t] as nat,
                        rand_nums@[t] as nat,
                    ),
            decreases n - col,
        {
            proof {
                assert((row + 1) * n == row * n + n) by (nonlinear_arith);
            }
            let t = out.len();
            let masked = EncryptAddMut {
                mta_pub_n: others_mta_pub_n[col],
                cipher: others_cipher_k[col],
                add_num: add_nums[t],
                mut_num: mut_nums[row],
                rand: rand_nums[t],
            }.mut_and_add();
            out.push(masked);
            proof {
                lemma_fundamental_div_mod_converse(t as int, n as int, row as int, col as int);
            }
            col = col + 1;
        }
        proof {
            assert((row + 1) * n == row * n + n) by (nonlinear_arith);
        }
        row = row + 1;
    }
    proof {
        assert(out@.len() == rows * n);
    }
    out
}

/// Third step of the batch: decrypt the masked ciphertexts, the ciphertext
/// at index `t` under the key pair at index `t` modulo the key count.
pub fn decrypt_step(pri_p: &Vec<u128>, pri_q: &Vec<u128>, cipher: &Vec<u128>) -> (r: Result<
    Vec<u128>,
    CoreError,
>)
    requires
        pri_q@.len() == pri_p@.len(),
        pri_p@.len() >= 1,
        forall|i: int| 0 <= i < pri_p@.len() ==> 2 <= #[trigger] pri_p@[i],
        forall|i: int| 0 <= i < pri_p@.len() ==> 2 <= #[trigger] pri_q@[i],
        forall|i: int|
            0 <= i < pri_p@.len() ==> #[trigger] (pri_p@[i] * pri_q@[i]) <= MAX_PAILLIER_N,
    ensures
        match r {
            Ok(v) => v@.len() == cipher@.len() && (forall|t: int|
                0 <= t < v@.len() ==> paillier_dec_ok(
                    pri_p@[t % (pri_p@.len() as int)] as nat,
                    pri_q@[t % (pri_p@.len() as int)] as nat,
                    #[trigger] (cipher@[t] as nat),
                )) && (forall|t: int|
                0 <= t < v@.len() ==> #[trigger] (v@[t] as int) == paillier_dec(
                    pri_p@[t % (pri_p@.len() as int)] as nat,
                    pri_q@[t % (pri_p@.len() as int)] as nat,
                    cipher@[t] as nat,
                )),
            Err(e) => (e == CoreError::InvalidKey && exists|i: int|
                0 <= i < pri_p@.len() && paillier_key_broken(
                    #[trigger] (pri_p@[i] as nat),
                    pri_q@[i] as nat,
                )) || (e == CoreError::MalformedCiphertext && exists|t: int|
                0 <= t < cipher@.len() && !paillier_key_broken(
                    pri_p@[t % (pri_p@.len() as int)] as nat,
                    pri_q@[t % (pri_p@.len() as int)] as nat,
                ) && paillier_cs(
                    pri_p@[t % (pri_p@.len() as int)] as nat,
                    pri_q@[t % (pri_p@.len() as int)] as nat,
                    #[trigger] (cipher@[t] as nat),
                ) == 0),
        },
{
    let plen = pri_p.len();
    let mut out: Vec<u128> = Vec::new();
    let mut t: usize = 0;
    while t < cipher.len()
        invariant
            t <= cipher@.len(),
            plen == pri_p@.len(),
            pri_q@.len() == plen,
            plen >= 1,
            out@.len() == t as int,
            forall|i: int| 0 <= i < plen ==> 2 <= #[trigger] pri_p@[i],
            forall|i: int| 0 <= i < plen ==> 2 <= #[trigger] pri_q@[i],
            forall|i: int|
                0 <= i < plen ==> #[trigger] (pri_p@[i] * pri_q@[i]) <= MAX_PAILLIER_N,
            forall|u: int|
                0 <= u < t ==> paillier_dec_ok(
                    pri_p@[u % (plen as int)] as nat,
                    pri_q@[u % (plen as int)] as nat,
                    #[trigger] (cipher@[u] as nat),
                ),
            forall|u: int|
                0 <= u < t ==> #[trigger] (out@[u] as int) == paillier_dec(
                    pri_p@[u % (plen as int)] as nat,
                    pri_q@[u % (plen as int)] as nat,
                    cipher@[u] as nat,
                ),
        decreases cipher@.len() - t,
    {
        let kidx = t % plen;
        let dec = Decrypt { pri_p: pri_p[kidx], pri_q: pri_q[kidx], cipher: cipher[t] };
        match dec.decrypt() {
            Ok(m) => {
                out.push(m);
            },
            Err(e) => {
                return Err(e);
            },
        }
        t = t + 1;
    }
    Ok(out)
}

/// Fold of the cross terms credited to player `i`: the term at `t` is added
/// when its column is `i` and it is not a self pairing.
pub open spec fn cross_add_fold(base: int, v: Seq<u128>, i: int, n: int, upto: int) -> int
    decreases upto,
{
    if upto <= 0 {
        base
    } else {
        let prev = cross_add_fold(base, v, i, n, upto - 1);
        let t = upto - 1;
        if t % n == i && t % n != t / n {
            (prev + v[t]) % scalar_order()
        } else {
            prev
        }
    }
}

/// Fold of the masks debited from player `i`: the term at `t` is subtracted
/// when its row is `i` and it is not a self pairing.
pub open spec fn cross_sub_fold(base: int, v: Seq<u128>, i: int, n: int, upto: int) -> int
    decreases upto,
{
    if upto <= 0 {
        base
    } else {
        let prev = cross_sub_fold(base, v, i, n, upto - 1);
        let t = upto - 1;
        if t / n == i && t % n != t / n {
            (prev - v[t]) % scalar_order()
        } else {
            prev
        }
    }
}

/// Player `i`'s commitment share: its own product `k_i * r_i`, plus every
/// decrypted cross term addressed to it, minus every mask it handed out.
pub open spec fn commitment_share(
    k: Seq<u128>,
    r: Seq<u128>,
    plain: Seq<u128>,
    neg: Seq<u128>,
    i: int,
) -> int {
    let n = k.len() as int;
    cross_sub_fold(
        cross_add_fold((k[i] * r[i]) % scalar_order(), plain, i, n, plain.len() as int),
        neg,
        i,
        n,
        neg.len() as int,
    )
}

/// Fourth step of the batch: combine own products, decrypted cross terms and
/// negated masks into one commitment share per player, and publish each
/// player's verification point `r_i * G`.
pub fn combine_step(
    plain_text: &Vec<u128>,
    selfk: &Vec<u128>,
    selfr: &Vec<u128>,
    add_num_neg: &Vec<u128>,
) -> (r: (Vec<pallas::Scalar>, Vec<pallas::Affine>))
    requires
        selfr@.len() == selfk@.len(),
        plain_text@.len() == selfk@.len() * selfk@.len(),
        add_num_neg@.len() == plain_text@.len(),
    ensures
        r.0@.len() == selfk@.len(),
        r.1@.len() == selfr@.len(),
        forall|i: int|
            0 <= i < selfk@.len() ==> #[trigger] scalar_int(r.0@[i]) == commitment_share(
                selfk@,
                selfr@,
                plain_text@,
                add_num_neg@,
                i,
            ),
        forall|i: int|
            0 <= i < selfr@.len() ==> #[trigger] point_log(r.1@[i]) == selfr@[i] as int,
{
    let n = selfk.len();
    let mut shares: Vec<pallas::Scalar> = Vec::new();
    let mut i: usize = 0;
    while i < n
        invariant
            i <= n,
            n == selfk@.len(),
            selfr@.len() == n,
            plain_text@.len() == n * n,
            add_num_neg@.len() == n * n,
            shares@.len() == i as int,
            forall|u: int|
                0 <= u < i ==> #[trigger] scalar_int(shares@[u]) == commitment_share(
                    selfk@,
                    selfr@,
                    plain_text@,
                    add_num_neg@,
                    u,
                ),
        decreases n - i,
    {
        let kfq = scalar_from_u128(selfk[i]);
        let rfq = scalar_from_u128(selfr[i]);
        let mut acc = scalar_mul(&kfq, &rfq);
        let ghost base = (selfk@[i as int] * selfr@[i as int]) % scalar_order();
        proof {
            lemma_small_mod(selfk@[i as int] as nat, scalar_order() as nat);
            lemma_small_mod(selfr@[i as int] as nat, scalar_order() as nat);
        }
        let mut t: usize = 0;
        while t < plain_text.len()
            invariant
                t <= plain_text@.len(),
                i < n,
                n == selfk@.len(),
                plain_text@.len() == n * n,
                scalar_int(acc) == cross_add_fold(base, plain_text@, i as int, n as int, t as int),
            decreases plain_text@.len() - t,
        {
            let player = t % n;
            let raw = t / n;
            if player == i && player != raw {
                let pfq = scalar_from_u128(plain_text[t]);
                acc = scalar_add(&acc, &pfq);
            }
            t = t + 1;
        }
        let mut t2: usize = 0;
        let ghost mid = cross_add_fold(
            base,
            plain_text@,
            i as int,
            n as int,
            plain_text@.len() as int,
        );
        while t2 < add_num_neg.len()
            invariant
                t2 <= add_num_neg@.len(),
                i < n,
                n == selfk@.len(),
                add_num_neg@.len() == n * n,
                scalar_int(acc) == cross_sub_fold(mid, add_num_neg@, i as int, n as int, t2 as int),
            decreases add_num_neg@.len() - t2,
        {
            let player = t2 % n;
            let raw = t2 / n;
            if raw == i && player != raw {
                let nfq = scalar_from_u128(add_num_neg[t2]);
                acc = scalar_sub(&acc, &nfq);
            }
            t2 = t2 + 1;
        }
        shares.push(acc);
        i = i + 1;
    }
    let generator = point_generator();
    let mut points: Vec<pallas::Affine> = Vec::new();
    let mut j: usize = 0;
    while j < n
        invariant
            j <= n,
            n == selfr@.len(),
            point_log(generator) == 1,
            points@.len() == j as int,
            forall|u: int|
                0 <= u < j ==> #[trigger] point_log(points@[u]) == selfr@[u] as int,
        decreases n - j,
    {
        let rfq = scalar_from_u128(selfr[j]);
        let pt = point_mul(&generator, &rfq);
        proof {
            lemma_small_mod(selfr@[j as int] as nat, scalar_order() as nat);
        }
        points.push(pt);
        j = j + 1;
    }
    (shares, points)
}

/// In a three-party batch, the cross terms credited to player `i` sit at the
/// two indices whose column is `i` and whose row is another party.
pub proof fn lemma_cross_add_fold_three(base: int, v: Seq<u128>, i: int)
    requires
        v.len() == 9,
        0 <= i < 3,
    ensures
        i == 0 ==> cross_add_fold(base, v, i, 3, 9) == ((base + v[3]) % scalar_order() + v[6])
            % scalar_order(),
        i == 1 ==> cross_add_fold(base, v, i, 3, 9) == ((base + v[1]) % scalar_order() + v[7])
            % scalar_order(),
        i == 2 ==> cross_add_fold(base, v, i, 3, 9) == ((base + v[2]) % scalar_order() + v[5])
            % scalar_order(),
{
    reveal_with_fuel(cross_add_fold, 11);
}

/// In a three-party batch, the masks debited from player `i` sit at the two
/// indices whose row is `i` and whose column is another party.
pub proof fn lemma_cross_sub_fold_three(base: int, v: Seq<u128>, i: int)
    requires
        v.len() == 9,
        0 <= i < 3,
    ensures
        i == 0 ==> cross_sub_fold(base, v, i, 3, 9) == ((base - v[1]) % scalar_order() - v[2])
            % scalar_order(),
        i == 1 ==> cross_sub_fold(base, v, i, 3, 9) == ((base - v[3]) % scalar_order() - v[5])
            % scalar_order(),
        i == 2 ==> cross_sub_fold(base, v, i, 3, 9) == ((base - v[6]) % scalar_order() - v[7])
            % scalar_order(),
{
    reveal_with_fuel(cross_sub_fold, 11);
}

/// One player's commitment share reduces to a plain integer residue: its own
/// product, plus its two credited cross terms, minus its two handed-out
/// masks.
pub proof fn lemma_commitment_share_value(
    k: Seq<u128>,
    r: Seq<u128>,
    plain: Seq<u128>,
    neg: Seq<u128>,
    i: int,
)
    requires
        k.len() == 3,
        r.len() == 3,
        plain.len() == 9,
        neg.len() == 9,
        0 <= i < 3,
    ensures
        i == 0 ==> commitment_share(k, r, plain, neg, 0) == (k[0] * r[0] + plain[3] + plain[6]
            - neg[1] - neg[2]) % scalar_order(),
        i == 1 ==> commitment_share(k, r, plain, neg, 1) == (k[1] * r[1] + plain[1] + plain[7]
            - neg[3] - neg[5]) % scalar_order(),
        i == 2 ==> commitment_share(k, r, plain, neg, 2) == (k[2] * r[2] + plain[2] + plain[5]
            - neg[6] - neg[7]) % scalar_order(),
{
    let q = scalar_order();
    let base = (k[i] * r[i]) % q;
    lemma_cross_add_fold_three(base, plain, i);
    let pa: int = if i == 0 { plain[3] as int } else if i == 1 { plain[1] as int } else { plain[2] as int };
    let pb: int = if i == 0 { plain[6] as int } else if i == 1 { plain[7] as int } else { plain[5] as int };
    let ca: int = if i == 0 { neg[1] as int } else if i == 1 { neg[3] as int } else { neg[6] as int };
    let cb: int = if i == 0 { neg[2] as int } else if i == 1 { neg[5] as int } else { neg[7] as int };
    let kr = k[i] as int * r[i] as int;
    crate::arith::lemma_mod_addl(kr, pa, q);
    assert((base + pa) % q == (kr + pa) % q);
    crate::arith::lemma_mod_addl(kr + pa, pb, q);
    let v1 = ((base + pa) % q + pb) % q;
    assert(v1 == (kr + pa + pb) % q);
    lemma_cross_sub_fold_three(v1, neg, i);
    crate::arith::lemma_mod_subl(kr + pa + pb, ca, q);
    assert((v1 - ca) % q == (kr + pa + pb - ca) % q);
    crate::arith::lemma_mod_subl(kr + pa + pb - ca, cb, q);
    assert(((v1 - ca) % q - cb) % q == (kr + pa + pb - ca - cb) % q);
}

/// The combination identity of the batch: when every cross term carries the
/// product of its column's nonce and its row's secret plus its mask, the
/// three commitment shares sum to the product of the summed nonces and the
/// summed secrets, modulo the scalar-field order.
pub proof fn lemma_commitment_combine_identity(
    k: Seq<u128>,
    r: Seq<u128>,
    plain: Seq<u128>,
    neg: Seq<u128>,
)
    requires
        k.len() == 3,
        r.len() == 3,
        plain.len() == 9,
        neg.len() == 9,
        forall|t: int|
            0 <= t < 9 && t % 3 != t / 3 ==> #[trigger] (plain[t] as int) == k[t % 3] * r[t / 3]
                + neg[t],
    ensures
        (commitment_share(k, r, plain, neg, 0) + commitment_share(k, r, plain, neg, 1)
            + commitment_share(k, r, plain, neg, 2)) % scalar_order() == ((k[0] + k[1] + k[2]) * (
        r[0] + r[1] + r[2])) % scalar_order(),
{
    let q = scalar_order();
    lemma_commitment_share_value(k, r, plain, neg, 0);
    lemma_commitment_share_value(k, r, plain, neg, 1);
    lemma_commitment_share_value(k, r, plain, neg, 2);
    let v0 = k[0] as int * r[0] as int + plain[3] + plain[6] - neg[1] - neg[2];
    let v1 = k[1] as int * r[1] as int + plain[1] + plain[7] - neg[3] - neg[5];
    let v2 = k[2] as int * r[2] as int + plain[2] + plain[5] - neg[6] - neg[7];
    crate::arith::lemma_mod_add3(v0, v1, v2, q);
    assert(plain[1] as int == k[1] * r[0] + neg[1]);
    assert(plain[2] as int == k[2] * r[0] + neg[2]);
    assert(plain[3] as int == k[0] * r[1] + neg[3]);
    assert(plain[5] as int == k[2] * r[1] + neg[5]);
    assert(plain[6] as int == k[0] * r[2] + neg[6]);
    assert(plain[7] as int == k[1] * r[2] + neg[7]);
    assert(v0 + v1 + v2 == (k[0] + k[1] + k[2]) * (r[0] + r[1] + r[2])) by (nonlinear_arith)
        requires
            v0 == k[0] as int * r[0] as int + plain[3] + plain[6] - neg[1] - neg[2],
            v1 == k[1] as int * r[1] as int + plain[1] + plain[7] - neg[3] - neg[5],
            v2 == k[2] as int * r[2] as int + plain[2] + plain[5] - neg[6] - neg[7],
            plain[1] as int == k[1] * r[0] + neg[1],
            plain[2] as int == k[2] * r[0] + neg[2],
            plain[3] as int == k[0] * r[1] + neg[3],
            plain[5] as int == k[2] * r[1] + neg[5],
            plain[6] as int == k[0] * r[2] + neg[6],
            plain[7] as int == k[1] * r[2] + neg[7],
    ;
}

/// The first two steps of a batch tied together: each randomizer and
/// re-randomizer lies in its sampled range, each ciphertext is a fresh
/// encryption of the column party's secret under the column modulus, and
/// each masked term rescales the column ciphertext by the row secret with
/// the mask and re-randomizer at its index.
pub open spec fn mta_trace(
    k: Seq<u128>,
    mu: Seq<u128>,
    n: Seq<u128>,
    randr: Seq<u128>,
    addn: Seq<u128>,
    rand2: Seq<u128>,
    ciphers: Seq<u128>,
    masked: Seq<u128>,
) -> bool {
    let nn = k.len() as int;
    &&& randr.len() == nn
    &&& ciphers.len() == nn
    &&& addn.len() == nn * nn
    &&& rand2.len() == nn * nn
    &&& masked.len() == nn * nn
    &&& (forall|i: int| 0 <= i < nn ==> 0 < #[trigger] randr[i] < n[i])
    &&& (forall|i: int|
        0 <= i < nn ==> #[trigger] (ciphers[i] as int) == paillier_enc(
            n[i] as nat,
            randr[i] as nat,
            k[i] as nat,
        ))
    &&& (forall|t: int| 0 <= t < nn * nn ==> 1 <= #[trigger] addn[t])
    &&& (forall|t: int| 0 <= t < nn * nn ==> 1 <= #[trigger] rand2[t] < n[t % nn])
    &&& (forall|t: int|
        0 <= t < nn * nn ==> #[trigger] (masked[t] as int) == paillier_mut_add(
            n[t % nn] as nat,
            ciphers[t % nn] as nat,
            mu[t / nn] as nat,
            addn[t] as nat,
            rand2[t] as nat,
        ))
}

/// The third step of a batch: every masked term decrypts, under the key
/// pair of its column, to the matching plaintext.
pub open spec fn mta_decryption(
    p: Seq<u128>,
    q: Seq<u128>,
    masked: Seq<u128>,
    plain: Seq<u128>,
) -> bool {
    let nn = p.len() as int;
    &&& plain.len() == masked.len()
    &&& (forall|t: int|
        0 <= t < masked.len() ==> paillier_dec_ok(
            p[t % nn] as nat,
            q[t % nn] as nat,
            #[trigger] (masked[t] as nat),
        ))
    &&& (forall|t: int|
        0 <= t < masked.len() ==> #[trigger] (plain[t] as int) == paillier_dec(
            p[t % nn] as nat,
            q[t % nn] as nat,
            masked[t] as nat,
        ))
}

/// The whole batch for one round of commitments: checks the product bound
/// `k_i * r_i < n_i` of every party, samples the randomizers and masks, runs
/// the four steps, and returns each party's commitment share next to its
/// verification point `r_i * G`.  On success the shares are the
/// `commitment_share` folds of a decrypted conversion trace whose sampled
/// values all lie in their stated ranges; each error code carries its own
/// condition.
pub fn make_commitment(
    selfk_vec: Vec<u128>,
    selfr_vec: Vec<u128>,
    mta_pub_n_vec: Vec<u128>,
    mta_pri_p_vec: Vec<u128>,
    mta_pri_q_vec: Vec<u128>,
) -> (r: Result<(Vec<pallas::Scalar>, Vec<pallas::Affine>), CoreError>)
    requires
        selfr_vec@.len() == selfk_vec@.len(),
        mta_pub_n_vec@.len() == selfk_vec@.len(),
        mta_pri_p_vec@.len() == selfk_vec@.len(),
        mta_pri_q_vec@.len() == selfk_vec@.len(),
        selfk_vec@.len() >= 1,
        forall|i: int|
            0 <= i < selfk_vec@.len() ==> 2 <= #[trigger] mta_pub_n_vec@[i] <= MAX_PAILLIER_N,
        forall|i: int| 0 <= i < selfk_vec@.len() ==> 1 <= #[trigger] selfk_vec@[i],
        forall|i: int| 0 <= i < selfk_vec@.len() ==> 1 <= #[trigger] selfr_vec@[i],
        forall|i: int| 0 <= i < selfk_vec@.len() ==> 2 <= #[trigger] mta_pri_p_vec@[i],
        forall|i: int| 0 <= i < selfk_vec@.len() ==> 2 <= #[trigger] mta_pri_q_vec@[i],
        forall|i: int|
            0 <= i < selfk_vec@.len() ==> #[trigger] (mta_pri_p_vec@[i] * mta_pri_q_vec@[i])
                <= MAX_PAILLIER_N,
    ensures
        match r {
            Ok(res) => res.0@.len() == selfk_vec@.len() && res.1@.len() == selfk_vec@.len() && (
            forall|i: int|
                0 <= i < selfk_vec@.len() ==> #[trigger] (selfk_vec@[i] as int) * selfr_vec@[i]
                    < mta_pub_n_vec@[i]) && (forall|i: int|
                0 <= i < selfk_vec@.len() ==> #[trigger] point_log(res.1@[i]) == selfr_vec@[i] as int)
                && exists|
                randr: Seq<u128>,
                addn: Seq<u128>,
                rand2: Seq<u128>,
                ciphers: Seq<u128>,
                masked: Seq<u128>,
                plain: Seq<u128>,
            |
                #![trigger mta_trace(selfk_vec@, selfr_vec@, mta_pub_n_vec@, randr, addn, rand2, ciphers, masked), mta_decryption(mta_pri_p_vec@, mta_pri_q_vec@, masked, plain)]
                (mta_trace(
                    selfk_vec@,
                    selfr_vec@,
                    mta_pub_n_vec@,
                    randr,
                    addn,
                    rand2,
                    ciphers,
                    masked,
                ) && (forall|t: int|
                    0 <= t < addn.len() ==> #[trigger] (addn[t] as int) <= selfk_vec@[t % (
                    selfk_vec@.len() as int)] as int * selfr_vec@[t % (selfk_vec@.len() as int)])
                    && mta_decryption(mta_pri_p_vec@, mta_pri_q_vec@, masked, plain) && (forall|
                    i: int,
                |
                    0 <= i < selfk_vec@.len() ==> #[trigger] scalar_int(res.0@[i])
                        == commitment_share(selfk_vec@, selfr_vec@, plain, addn, i))),
            Err(e) => {
                &&& (e == CoreError::ProductExceedsModulus <==> exists|i: int|
                    0 <= i < selfk_vec@.len() && #[trigger] (selfk_vec@[i] as int) * selfr_vec@[i]
                        >= mta_pub_n_vec@[i])
                &&& (e == CoreError::InvalidKey ==> exists|i: int|
                    0 <= i < selfk_vec@.len() && paillier_key_broken(
                        #[trigger] (mta_pri_p_vec@[i] as nat),
                        mta_pri_q_vec@[i] as nat,
                    ))
                &&& (e == CoreError::MalformedCiphertext ==> exists|
                    randr: Seq<u128>,
                    addn: Seq<u128>,
                    rand2: Seq<u128>,
                    ciphers: Seq<u128>,
                    masked: Seq<u128>,
                |
                    #![trigger mta_trace(selfk_vec@, selfr_vec@, mta_pub_n_vec@, randr, addn, rand2, ciphers, masked)]
                    mta_trace(
                        selfk_vec@,
                        selfr_vec@,
                        mta_pub_n_vec@,
                        randr,
                        addn,
                        rand2,
                        ciphers,
                        masked,
                    ) && exists|t: int|
                        0 <= t < masked.len() && !paillier_key_broken(
                            mta_pri_p_vec@[t % (selfk_vec@.len() as int)] as nat,
                            mta_pri_q_vec@[t % (selfk_vec@.len() as int)] as nat,
                        ) && paillier_cs(
                            mta_pri_p_vec@[t % (selfk_vec@.len() as int)] as nat,
                            mta_pri_q_vec@[t % (selfk_vec@.len() as int)] as nat,
                            #[trigger] (masked[t] as nat),
                        ) == 0)
                &&& (e == CoreError::ProductExceedsModulus || e == CoreError::InvalidKey || e
                    == CoreError::MalformedCiphertext)
            },
        },
{
    let n = selfk_vec.len();
    // the product bound: k * r must stay below the modulus, else decryption
    // would silently wrap
    let mut i: usize = 0;
    while i < n
        invariant
            i <= n,
            n == selfk_vec@.len(),
            selfr_vec@.len() == n,
            mta_pub_n_vec@.len() == n,
            forall|t: int|
                0 <= t < i ==> #[trigger] (selfk_vec@[t] as int) * selfr_vec@[t]
                    < mta_pub_n_vec@[t],
        decreases n - i,
    {
        let k = selfk_vec[i];
        let rr = selfr_vec[i];
        if rr != 0 && k > u128::MAX / rr {
            proof {
                lemma_mul_overflow_check(k as int, rr as int);
            }
            return Err(CoreError::ProductExceedsModulus);
        }
        proof {
            if rr != 0 {
                lemma_mul_overflow_check(k as int, rr as int);
            }
        }
        if k * rr >= mta_pub_n_vec[i] {
            return Err(CoreError::ProductExceedsModulus);
        }
        i = i + 1;
    }
    // first step: every party encrypts its k under its own modulus, with a
    // randomizer drawn from [1, n)
    let mut rand_r: Vec<u128> = Vec::new();
    let mut j: usize = 0;
    while j < n
        invariant
            j <= n,
            n == mta_pub_n_vec@.len(),
            rand_r@.len() == j as int,
            forall|t: int| 0 <= t < n ==> 2 <= #[trigger] mta_pub_n_vec@[t] <= MAX_PAILLIER_N,
            forall|t: int| 0 <= t < j ==> 0 < #[trigger] rand_r@[t] < mta_pub_n_vec@[t],
        decreases n - j,
    {
        let rv = generate_random_u128_in_range(1, mta_pub_n_vec[j] - 1);
        rand_r.push(rv);
        j = j + 1;
    }
    proof {
        assert forall|t: int| 0 <= t < n implies #[trigger] (selfk_vec@[t] as int)
            < mta_pub_n_vec@[t] by {
            lemma_mul_inequality(1, selfr_vec@[t] as int, selfk_vec@[t] as int);
            assert(selfk_vec@[t] as int * 1 == selfk_vec@[t] as int) by (nonlinear_arith);
            assert(selfk_vec@[t] as int * selfr_vec@[t] as int == selfr_vec@[t] as int
                * selfk_vec@[t] as int) by (nonlinear_arith);
        }
    }
    let cipher_k = match encrypt_k_step(&selfk_vec, &mta_pub_n_vec, &rand_r) {
        Ok(c) => c,
        Err(_) => {
            return Err(CoreError::ProductExceedsModulus);
        },
    };
    // second step: every row party rescales every column ciphertext by its
    // own r and masks it; the mask is drawn below the column's product
    // bound and the re-randomizer from [1, n)
    let mut add_nums: Vec<u128> = Vec::new();
    let mut rand2: Vec<u128> = Vec::new();
    let mut row: usize = 0;
    while row < n
        invariant
            row <= n,
            n == selfk_vec@.len(),
            selfr_vec@.len() == n,
            mta_pub_n_vec@.len() == n,
            add_nums@.len() == row * n,
            rand2@.len() == row * n,
            forall|t: int| 0 <= t < n ==> 2 <= #[trigger] mta_pub_n_vec@[t] <= MAX_PAILLIER_N,
            forall|t: int| 0 <= t < n ==> 1 <= #[trigger] selfk_vec@[t],
            forall|t: int| 0 <= t < n ==> 1 <= #[trigger] selfr_vec@[t],
            forall|t: int|
                0 <= t < n ==> #[trigger] (selfk_vec@[t] as int) * selfr_vec@[t]
                    < mta_pub_n_vec@[t],
            forall|t: int|
                0 <= t < add_nums@.len() ==> 1 <= #[trigger] add_nums@[t] && add_nums@[t] as int
                    <= selfk_vec@[t % (n as int)] as int * selfr_vec@[t % (n as int)],
            forall|t: int|
                0 <= t < rand2@.len() ==> 1 <= #[trigger] rand2@[t] < mta_pub_n_vec@[t % (
                n as int)],
        decreases n - row,
    {
        let mut col: usize = 0;
        while col < n
            invariant
                col <= n,
                row < n,
                n == selfk_vec@.len(),
                selfr_vec@.len() == n,
                mta_pub_n_vec@.len() == n,
                add_nums@.len() == row * n + col,
                rand2@.len() == row * n + col,
                forall|t: int| 0 <= t < n ==> 2 <= #[trigger] mta_pub_n_vec@[t] <= MAX_PAILLIER_N,
                forall|t: int| 0 <= t < n ==> 1 <= #[trigger] selfk_vec@[t],
                forall|t: int| 0 <= t < n ==> 1 <= #[trigger] selfr_vec@[t],
                forall|t: int|
                    0 <= t < n ==> #[trigger] (selfk_vec@[t] as int) * selfr_vec@[t]
                        < mta_pub_n_vec@[t],
                forall|t: int|
                    0 <= t < add_nums@.len() ==> 1 <= #[trigger] add_nums@[t] && add_nums@[t] as int
                        <= selfk_vec@[t % (n as int)] as int * selfr_vec@[t % (n as int)],
                forall|t: int|
                    0 <= t < rand2@.len() ==> 1 <= #[trigger] rand2@[t] < mta_pub_n_vec@[t % (
                    n as int)],
            decreases n - col,
        {
            proof {
                assert(selfr_vec@[col as int] as int * selfk_vec@[col as int] as int == selfk_vec@[
                    col as int
                ] as int * selfr_vec@[col as int] as int) by (nonlinear_arith);
                assert((row + 1) * n == row * n + n) by (nonlinear_arith);
                lemma_mul_inequality(row as int + 1, n as int, n as int);
                assert(1 <= selfr_vec@[col as int] as int * selfk_vec@[col as int] as int)
                    by (nonlinear_arith)
                    requires 1 <= selfr_vec@[col as int] && 1 <= selfk_vec@[col as int];
            }
            let bound = selfr_vec[col] * selfk_vec[col];
            let mask = if bound >= 2 {
                generate_random_u128_in_range(1, bound - 1)
            } else {
                // a product bound of 1 leaves 1 as the only positive mask
                1
            };
            add_nums.push(mask);
            rand2.push(generate_random_u128_in_range(1, mta_pub_n_vec[col] - 1));
            proof {
                let t0 = row * n + col;
                lemma_fundamental_div_mod_converse(t0 as int, n as int, row as int, col as int);
            }
            col = col + 1;
        }
        proof {
            assert((row + 1) * n == row * n + n) by (nonlinear_arith);
        }
        row = row + 1;
    }
    let masked = mask_step(&mta_pub_n_vec, &cipher_k, &selfr_vec, &add_nums, &rand2);
    proof {
        assert(mta_trace(
            selfk_vec@,
            selfr_vec@,
            mta_pub_n_vec@,
            rand_r@,
            add_nums@,
            rand2@,
            cipher_k@,
            masked@,
        ));
    }
    // third step: the column party decrypts what was built on its ciphertext
    let plain_text = match decrypt_step(&mta_pri_p_vec, &mta_pri_q_vec, &masked) {
        Ok(v) => v,
        Err(e) => {
            return Err(e);
        },
    };
    // fourth step: assemble the commitment shares and verification points
    proof {
        assert(plain_text@.len() == selfk_vec@.len() * selfk_vec@.len());
    }
    let combined = combine_step(&plain_text, &selfk_vec, &selfr_vec, &add_nums);
    proof {
        assert(mta_decryption(mta_pri_p_vec@, mta_pri_q_vec@, masked@, plain_text@));
        assert(forall|i: int|
            0 <= i < selfk_vec@.len() ==> #[trigger] scalar_int(combined.0@[i])
                == commitment_share(selfk_vec@, selfr_vec@, plain_text@, add_nums@, i));
    }
    Ok(combined)
}

} // verus!
