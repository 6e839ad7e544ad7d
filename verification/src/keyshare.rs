//! Dealer-less distributed key generation.
//!
//! Each dealer expands its secret into one sub-share per player; each player
//! sums the sub-shares addressed to it across all dealers, and a
//! Lagrange-style reweighting turns the raw aggregate into the party's final
//! private-key share.  The matching public-key reconstruction folds the same
//! weights into curve points.

use vstd::prelude::*;

verus! {

use vstd::arithmetic::div_mod::{
    lemma_fundamental_div_mod, lemma_mod_multiples_vanish, lemma_mod_twice,
    lemma_mul_mod_noop_general, lemma_small_mod,
};
use vstd::arithmetic::mul::lemma_mul_is_commutative;
use vstd::arithmetic::power::{lemma0_pow, lemma_pow1, lemma_pow_adds, lemma_pow_positive, pow};

use pasta_curves::pallas;

use crate::arith::{lemma_mod_add3, lemma_mod_inv_unique, lemma_mul_overflow_check, mod_inv};
use crate::curve::{
    point_add, point_generator, point_identity, point_log, point_mul, scalar_from_u128,
    scalar_int, scalar_invert, scalar_mul, scalar_order, scalar_sub,
};
use crate::CoreError;

/// `x + x^2 + ... + x^deg`.
pub open spec fn geom_sum(x: int, deg: nat) -> int
    decreases deg,
{
    if deg == 0 {
        0
    } else {
        geom_sum(x, (deg - 1) as nat) + pow(x, deg)
    }
}

/// The sub-share a dealer with secret `s` and blinding factor `b` addresses
/// to player `i` (0-based): `s + Σ_{j=1}^{min-1} ((i+1)*b)^j`.
pub open spec fn sub_share(s: int, b: int, i: int, min: nat) -> int {
    s + geom_sum((i + 1) * b, (min - 1) as nat)
}

/// Nonnegative bases give nonnegative powers.
proof fn lemma_pow_nonneg(x: int, e: nat)
    requires
        0 <= x,
    ensures
        0 <= pow(x, e),
{
    if e == 0 {
        vstd::arithmetic::power::lemma_pow0(x);
    } else if x > 0 {
        lemma_pow_positive(x, e);
    } else {
        lemma0_pow(e);
    }
}

/// Nonnegative bases give nonnegative geometric sums.
proof fn lemma_geom_sum_nonneg(x: int, deg: nat)
    requires
        0 <= x,
    ensures
        0 <= geom_sum(x, deg),
    decreases deg,
{
    if deg > 0 {
        lemma_geom_sum_nonneg(x, (deg - 1) as nat);
        lemma_pow_nonneg(x, deg);
    }
}

/// For a nonnegative base the geometric sum grows with its length.
proof fn lemma_geom_sum_mono(x: int, d1: nat, d2: nat)
    requires
        0 <= x,
        d1 <= d2,
    ensures
        geom_sum(x, d1) <= geom_sum(x, d2),
    decreases d2,
{
    if d1 < d2 {
        lemma_geom_sum_mono(x, d1, (d2 - 1) as nat);
        lemma_pow_nonneg(x, d2);
    }
}

/// Every term of a geometric sum over a nonnegative base is bounded by the
/// whole sum.
proof fn lemma_geom_sum_term(x: int, j: nat, deg: nat)
    requires
        0 <= x,
        1 <= j <= deg,
    ensures
        pow(x, j) <= geom_sum(x, deg),
{
    lemma_geom_sum_nonneg(x, (j - 1) as nat);
    lemma_geom_sum_mono(x, j, deg);
}

/// One dealer's expansion of its secret into sub-shares.
pub struct Input {
    pub key_share: u128,
    pub rand_num: u128,
    pub output_max: usize,
    pub output_min: usize,
}

/// The sub-share addressed to one player, or `Overflow` exactly when its
/// value exceeds the integer width.
fn sub_share_value(s: u128, b: u128, i: usize, min: usize) -> (r: Result<u128, CoreError>)
    requires
        1 <= min,
    ensures
        match r {
            Ok(v) => v as int == sub_share(s as int, b as int, i as int, min as nat),
            Err(e) => e == CoreError::Overflow && sub_share(s as int, b as int, i as int, min as nat)
                > u128::MAX,
        },
{
    let ghost smin = (min - 1) as nat;
    if min == 1 {
        return Ok(s);
    }
    let i1: u128 = (i as u128) + 1;
    if b != 0 && i1 > u128::MAX / b {
        proof {
            lemma_mul_overflow_check(i1 as int, b as int);
            lemma_pow1(i1 as int * b as int);
            lemma_geom_sum_term(i1 as int * b as int, 1, smin);
        }
        return Err(CoreError::Overflow);
    }
    proof {
        if b != 0 {
            lemma_mul_overflow_check(i1 as int, b as int);
        }
    }
    let x = i1 * b;
    let ghost xi = x as int;
    let mut term = x;
    proof {
        lemma_pow1(xi);
    }
    if s > u128::MAX - term {
        proof {
            lemma_geom_sum_term(xi, 1, smin);
        }
        return Err(CoreError::Overflow);
    }
    let mut acc = s + term;
    let mut j: usize = 1;
    proof {
        assert(geom_sum(xi, 1) == geom_sum(xi, 0) + pow(xi, 1));
        assert(geom_sum(xi, 0) == 0);
    }
    while j < min - 1
        invariant
            1 <= j <= min - 1,
            min >= 2,
            0 <= xi,
            xi == x as int,
            xi == (i as int + 1) * (b as int),
            term as int == pow(xi, j as nat),
            acc as int == s as int + geom_sum(xi, j as nat),
            smin == (min - 1) as nat,
        decreases min - 1 - j,
    {
        if x != 0 && term > u128::MAX / x {
            proof {
                lemma_mul_overflow_check(term as int, xi);
                lemma_pow_adds(xi, j as nat, 1);
                lemma_pow1(xi);
                assert(pow(xi, (j + 1) as nat) == pow(xi, j as nat) * pow(xi, 1));
                lemma_geom_sum_term(xi, (j + 1) as nat, smin);
            }
            return Err(CoreError::Overflow);
        }
        proof {
            if x != 0 {
                lemma_mul_overflow_check(term as int, xi);
            } else {
                lemma0_pow((j + 1) as nat);
            }
            lemma_pow_adds(xi, j as nat, 1);
            lemma_pow1(xi);
        }
        term = term * x;
        proof {
            assert(geom_sum(xi, (j + 1) as nat) == geom_sum(xi, j as nat) + pow(
                xi,
                (j + 1) as nat,
            ));
        }
        if acc > u128::MAX - term {
            proof {
                lemma_geom_sum_mono(xi, (j + 1) as nat, smin);
            }
            return Err(CoreError::Overflow);
        }
        acc = acc + term;
        j = j + 1;
    }
    Ok(acc)
}

impl Input {
    /// One sub-share per player: player `i` (0-based) receives
    /// `key_share + Σ_{j=1}^{output_min - 1} ((i+1) * rand_num)^j`.
    /// `Overflow` is returned exactly when some player's share exceeds the
    /// integer width.
    pub fn output_key_share(&self) -> (r: Result<Vec<u128>, CoreError>)
        requires
            1 <= self.output_min,
        ensures
            match r {
                Ok(v) => v@.len() == self.output_max && forall|i: int|
                    0 <= i < self.output_max ==> #[trigger] v@[i] as int == sub_share(
                        self.key_share as int,
                        self.rand_num as int,
                        i,
                        self.output_min as nat,
                    ),
                Err(e) => e == CoreError::Overflow && exists|i: int|
                    0 <= i < self.output_max && #[trigger] sub_share(
                        self.key_share as int,
                        self.rand_num as int,
                        i,
                        self.output_min as nat,
                    ) > u128::MAX,
            },
    {
        let mut out: Vec<u128> = Vec::new();
        let mut i: usize = 0;
        while i < self.output_max
            invariant
                i <= self.output_max,
                out@.len() == i as int,
                1 <= self.output_min,
                forall|t: int|
                    0 <= t < i ==> #[trigger] out@[t] as int == sub_share(
                        self.key_share as int,
                        self.rand_num as int,
                        t,
                        self.output_min as nat,
                    ),
            decreases self.output_max - i,
        {
            let v = match sub_share_value(self.key_share, self.rand_num, i, self.output_min) {
                Ok(v) => v,
                Err(e) => {
                    return Err(e);
                },
            };
            out.push(v);
            i = i + 1;
        }
        Ok(out)
    }
}

/// Whether the element at 1-based position `c` of the flattened sub-share
/// list is addressed to the player with index `self_num`.
pub open spec fn share_selected(c: int, member: int, self_num: int) -> bool {
    c == self_num || (c + member - self_num) % member == 0
}

/// The sum of the selected elements among the first `upto`.
pub open spec fn collect_sum(s: Seq<u128>, member: int, self_num: int, upto: int) -> int
    decreases upto,
{
    if upto <= 0 {
        0
    } else {
        collect_sum(s, member, self_num, upto - 1) + if share_selected(upto, member, self_num) {
            s[upto - 1] as int
        } else {
            0
        }
    }
}

/// Prefix sums of selected elements never decrease.
proof fn lemma_collect_sum_mono(s: Seq<u128>, member: int, self_num: int, u1: int, u2: int)
    requires
        0 <= u1 <= u2 <= s.len(),
    ensures
        collect_sum(s, member, self_num, u1) <= collect_sum(s, member, self_num, u2),
    decreases u2,
{
    if u1 < u2 {
        lemma_collect_sum_mono(s, member, self_num, u1, u2 - 1);
    }
}

/// One player's view of the flattened sub-share list of all dealers.
pub struct CollectOutputKeyShare {
    pub key_share: Vec<u128>,
    pub member: u128,
    pub self_num: u128,
}

impl CollectOutputKeyShare {
    /// Sums every element whose 1-based position is congruent to `self_num`
    /// modulo `member` (each dealer's block contributes the one sub-share
    /// addressed to this player), and pairs the sum with its public curve
    /// point `sum * G`.  `Overflow` is returned exactly when the sum exceeds
    /// the integer width.
    pub fn collect(&self) -> (r: Result<(u128, pallas::Affine), CoreError>)
        requires
            1 <= self.self_num <= self.member,
            self.member <= 0xffff_ffff_ffff_ffff,
        ensures
            match r {
                Ok(res) => res.0 as int == collect_sum(
                    self.key_share@,
                    self.member as int,
                    self.self_num as int,
                    self.key_share@.len() as int,
                ) && point_log(res.1) == res.0 as int,
                Err(e) => e == CoreError::Overflow && collect_sum(
                    self.key_share@,
                    self.member as int,
                    self.self_num as int,
                    self.key_share@.len() as int,
                ) > u128::MAX,
            },
    {
        let ghost mem = self.member as int;
        let ghost sn = self.self_num as int;
        let ghost s = self.key_share@;
        let len = self.key_share.len();
        let mut sum: u128 = 0;
        let mut idx: usize = 0;
        while idx < len
            invariant
                idx <= len,
                len == s.len(),
                s == self.key_share@,
                mem == self.member as int,
                sn == self.self_num as int,
                1 <= sn <= mem,
                mem <= 0xffff_ffff_ffff_ffff,
                sum as int == collect_sum(s, mem, sn, idx as int),
            decreases len - idx,
        {
            let count: u128 = (idx as u128) + 1;
            let elem = self.key_share[idx];
            if count == self.self_num || (count + self.member - self.self_num) % self.member == 0 {
                if sum > u128::MAX - elem {
                    proof {
                        lemma_collect_sum_mono(s, mem, sn, idx as int + 1, s.len() as int);
                    }
                    return Err(CoreError::Overflow);
                }
                sum = sum + elem;
            }
            idx = idx + 1;
        }
        let key_fq = scalar_from_u128(sum);
        let generator = point_generator();
        let result = point_mul(&generator, &key_fq);
        proof {
            lemma_small_mod(sum as nat, scalar_order() as nat);
        }
        Ok((sum, result))
    }
}

/// One Lagrange-style reweighting step in the scalar field: multiply the
/// running value by the node `c` and by the inverse of `c - self_coeff`.
pub open spec fn lagrange_step(v: int, c: int, self_coeff: int) -> int {
    (((v * c) % scalar_order()) * mod_inv(
        (c - self_coeff) % scalar_order(),
        scalar_order(),
    )) % scalar_order()
}

/// Fold the first `upto` coefficients into `y`, skipping position `num`
/// (a party folds in every node but its own).
pub open spec fn lagrange_fold(y: int, coeffs: Seq<u128>, num: int, upto: int) -> int
    decreases upto,
{
    if upto <= 0 {
        y
    } else {
        let prev = lagrange_fold(y, coeffs, num, upto - 1);
        if upto - 1 == num {
            prev
        } else {
            lagrange_step(prev, coeffs[upto - 1] as int, coeffs[num] as int)
        }
    }
}

/// Fold the first `upto` coefficients into `y` against a fixed own node.
pub open spec fn interp_fold(y: int, coeffs: Seq<u128>, self_coeff: int, upto: int) -> int
    decreases upto,
{
    if upto <= 0 {
        y
    } else {
        lagrange_step(
            interp_fold(y, coeffs, self_coeff, upto - 1),
            coeffs[upto - 1] as int,
            self_coeff,
        )
    }
}

/// The reconstructed public key's logarithm: the Lagrange-weighted shares of
/// the first `upto` players, summed modulo the group order.
pub open spec fn pubkey_fold(pts: Seq<pallas::Affine>, coeffs: Seq<u128>, upto: int) -> int
    decreases upto,
{
    if upto <= 0 {
        0
    } else {
        (pubkey_fold(pts, coeffs, upto - 1) + lagrange_fold(
            point_log(pts[upto - 1]),
            coeffs,
            upto - 1,
            coeffs.len() as int,
        )) % scalar_order()
    }
}

/// Every difference of a node against another party's node is invertible in
/// the scalar field: the condition for the reweighting to go through.
pub open spec fn nodes_invertible(coeffs: Seq<u128>, deg: int) -> bool {
    forall|n: int, it: int|
        0 <= n < deg && 0 <= it < coeffs.len() && it != n ==> ((coeffs[it] - coeffs[n])
            % scalar_order()) != 0
}

/// Every node differs from the fixed own node modulo the scalar order.
pub open spec fn nodes_invertible_against(coeffs: Seq<u128>, self_coeff: int) -> bool {
    forall|it: int|
        0 <= it < coeffs.len() ==> ((coeffs[it] - self_coeff) % scalar_order()) != 0
}

/// Reconstruction of the shared public key from per-party public shares.
pub struct CalculatePubKey {
    pub degree: u128,
    pub coefficient: Vec<u128>,
    pub pub_key: Vec<pallas::Affine>,
}

impl CalculatePubKey {
    /// For each party below `degree`, reweights its public share by the
    /// Lagrange factors built from the interpolation nodes in `coefficient`
    /// (the fixed `1000` offset keeps the intermediate difference
    /// nonnegative before it is cancelled in the field), and sums the
    /// weighted shares.  A repeated node leaves a factor without an inverse
    /// and is rejected.
    pub fn calculate(&self) -> (r: Result<pallas::Affine, CoreError>)
        requires
            self.degree as int <= self.pub_key@.len(),
            self.degree as int <= self.coefficient@.len(),
            forall|t: int|
                0 <= t < self.coefficient@.len() ==> #[trigger] self.coefficient@[t] <= u128::MAX
                    - 1000,
            forall|t: int, u: int|
                #![trigger self.coefficient@[t], self.coefficient@[u]]
                0 <= t < self.coefficient@.len() && 0 <= u < self.coefficient@.len() ==> (
                self.coefficient@[u] as int) <= 1000 + self.coefficient@[t] as int,
        ensures
            match r {
                Ok(pt) => nodes_invertible(self.coefficient@, self.degree as int) && point_log(pt)
                    == pubkey_fold(self.pub_key@, self.coefficient@, self.degree as int),
                Err(e) => e == CoreError::NoInverse && !nodes_invertible(
                    self.coefficient@,
                    self.degree as int,
                ),
            },
    {
        let ghost coeffs = self.coefficient@;
        let ghost pts = self.pub_key@;
        let ghost qq = scalar_order();
        let thousand = scalar_from_u128(1000);
        let clen = self.coefficient.len();
        let mut result = point_identity();
        let mut num: usize = 0;
        while (num as u128) < self.degree
            invariant
                coeffs == self.coefficient@,
                pts == self.pub_key@,
                qq == scalar_order(),
                scalar_int(thousand) == 1000,
                clen == coeffs.len(),
                self.degree as int <= pts.len(),
                self.degree as int <= coeffs.len(),
                num as int <= self.degree as int,
                forall|t: int| 0 <= t < clen ==> #[trigger] coeffs[t] <= u128::MAX - 1000,
                forall|t: int, u: int|
                    #![trigger coeffs[t], coeffs[u]]
                    0 <= t < clen && 0 <= u < clen ==> (coeffs[u] as int) <= 1000
                        + coeffs[t] as int,
                point_log(result) == pubkey_fold(pts, coeffs, num as int),
                forall|n: int, it: int|
                    0 <= n < num && 0 <= it < clen && it != n ==> ((coeffs[it] - coeffs[n]) % qq)
                        != 0,
            decreases self.degree as int - num as int,
        {
            let mut ans: pallas::Affine = self.pub_key[num];
            let cnum = self.coefficient[num];
            let ghost y0 = point_log(pts[num as int]);
            let mut iter: usize = 0;
            while iter < clen
                invariant
                    coeffs == self.coefficient@,
                    pts == self.pub_key@,
                    qq == scalar_order(),
                    scalar_int(thousand) == 1000,
                    clen == coeffs.len(),
                    clen == self.coefficient@.len(),
                    (num as int) < self.degree as int,
                    self.degree as int <= pts.len(),
                    self.degree as int <= coeffs.len(),
                    iter <= clen,
                    cnum == coeffs[num as int],
                    y0 == point_log(pts[num as int]),
                    forall|t: int| 0 <= t < clen ==> #[trigger] coeffs[t] <= u128::MAX - 1000,
                    forall|t: int, u: int|
                        #![trigger coeffs[t], coeffs[u]]
                        0 <= t < clen && 0 <= u < clen ==> (coeffs[u] as int) <= 1000
                            + coeffs[t] as int,
                    point_log(ans) == lagrange_fold(y0, coeffs, num as int, iter as int),
                    forall|it: int|
                        0 <= it < iter && it != num ==> ((coeffs[it] - coeffs[num as int]) % qq)
                            != 0,
                decreases clen - iter,
            {
                if iter != num {
                    let ci = self.coefficient[iter];
                    let mutn = scalar_from_u128(ci);
                    let ans1 = point_mul(&ans, &mutn);
                    let dev: u128 = 1000 + ci - cnum;
                    let dev2 = scalar_from_u128(dev);
                    let dev3 = scalar_sub(&dev2, &thousand);
                    proof {
                        assert(scalar_int(dev3) == (ci as int - cnum as int) % qq);
                    }
                    let dev4 = match scalar_invert(&dev3) {
                        Some(v) => v,
                        None => {
                            proof {
                                assert(!nodes_invertible(coeffs, self.degree as int)) by {
                                    assert(((coeffs[iter as int] - coeffs[num as int]) % qq) == 0);
                                };
                            }
                            return Err(CoreError::NoInverse);
                        },
                    };
                    proof {
                        lemma_mul_is_commutative(scalar_int(dev3), scalar_int(dev4));
                        lemma_mod_inv_unique(scalar_int(dev3), qq, scalar_int(dev4));
                    }
                    ans = point_mul(&ans1, &dev4);
                    proof {
                        assert(point_log(ans) == lagrange_step(
                            lagrange_fold(y0, coeffs, num as int, iter as int),
                            ci as int,
                            cnum as int,
                        ));
                    }
                }
                iter = iter + 1;
            }
            result = point_add(&result, &ans);
            num = num + 1;
            proof {
                assert(point_log(result) == pubkey_fold(pts, coeffs, num as int));
            }
        }
        Ok(result)
    }
}

/// Reweighting of a party's raw aggregated secret share into its final
/// private-key share.
pub struct CalculatePriKey {
    pub self_coefficient: u128,
    pub coefficient: Vec<u128>,
    pub pri_key: u128,
}

impl CalculatePriKey {
    /// Applies to the raw share the same Lagrange factors that
    /// `CalculatePubKey` applies to the public shares, against this party's
    /// own node `self_coefficient`.  A node equal to the party's own leaves
    /// a factor without an inverse and is rejected.
    pub fn calculate(&self) -> (r: Result<pallas::Scalar, CoreError>)
        requires
            forall|t: int|
                0 <= t < self.coefficient@.len() ==> #[trigger] self.coefficient@[t] <= u128::MAX
                    - 1000,
            forall|t: int|
                0 <= t < self.coefficient@.len() ==> self.self_coefficient as int <= 1000
                    + #[trigger] (self.coefficient@[t] as int),
        ensures
            match r {
                Ok(s) => nodes_invertible_against(
                    self.coefficient@,
                    self.self_coefficient as int,
                ) && scalar_int(s) == interp_fold(
                    self.pri_key as int,
                    self.coefficient@,
                    self.self_coefficient as int,
                    self.coefficient@.len() as int,
                ),
                Err(e) => e == CoreError::NoInverse && !nodes_invertible_against(
                    self.coefficient@,
                    self.self_coefficient as int,
                ),
            },
    {
        let ghost coeffs = self.coefficient@;
        let ghost qq = scalar_order();
        let ghost sc = self.self_coefficient as int;
        let thousand = scalar_from_u128(1000);
        let clen = self.coefficient.len();
        let mut ans = scalar_from_u128(self.pri_key);
        let mut iter: usize = 0;
        while iter < clen
            invariant
                coeffs == self.coefficient@,
                qq == scalar_order(),
                sc == self.self_coefficient as int,
                scalar_int(thousand) == 1000,
                clen == coeffs.len(),
                iter <= clen,
                forall|t: int| 0 <= t < clen ==> #[trigger] coeffs[t] <= u128::MAX - 1000,
                forall|t: int| 0 <= t < clen ==> sc <= 1000 + #[trigger] (coeffs[t] as int),
                scalar_int(ans) == interp_fold(self.pri_key as int, coeffs, sc, iter as int),
                forall|it: int| 0 <= it < iter ==> ((coeffs[it] - sc) % qq) != 0,
            decreases clen - iter,
        {
            let ci = self.coefficient[iter];
            let mutn = scalar_from_u128(ci);
            let ans1 = scalar_mul(&ans, &mutn);
            let dev: u128 = 1000 + ci - self.self_coefficient;
            let dev2 = scalar_from_u128(dev);
            let dev3 = scalar_sub(&dev2, &thousand);
            proof {
                assert(scalar_int(dev3) == (ci as int - sc) % qq);
            }
            let dev4 = match scalar_invert(&dev3) {
                Some(v) => v,
                None => {
                    proof {
                        assert(!nodes_invertible_against(coeffs, sc)) by {
                            assert(((coeffs[iter as int] - sc) % qq) == 0);
                        };
                    }
                    return Err(CoreError::NoInverse);
                },
            };
            proof {
                lemma_mul_is_commutative(scalar_int(dev3), scalar_int(dev4));
                lemma_mod_inv_unique(scalar_int(dev3), qq, scalar_int(dev4));
            }
            ans = scalar_mul(&ans1, &dev4);
            iter = iter + 1;
            proof {
                assert(scalar_int(ans) == interp_fold(self.pri_key as int, coeffs, sc, iter as int));
            }
        }
        Ok(ans)
    }
}

/// The concrete inverses, modulo the scalar order, of the differences that
/// arise between the interpolation nodes 1, 2 and 3.
proof fn lemma_scalar_inverses()
    ensures
        mod_inv(1, scalar_order()) == 1,
        mod_inv(2, scalar_order()) == (scalar_order() + 1) / 2,
        mod_inv(scalar_order() - 1, scalar_order()) == scalar_order() - 1,
        mod_inv(scalar_order() - 2, scalar_order()) == (scalar_order() - 1) / 2,
        2 * ((scalar_order() + 1) / 2) == scalar_order() + 1,
        2 * ((scalar_order() - 1) / 2) == scalar_order() - 1,
{
    let q = scalar_order();
    lemma_small_mod(1, q as nat);
    lemma_mod_inv_unique(1, q, 1);
    // q is odd, so (q+1)/2 and (q-1)/2 are exact halves
    assert((q + 1) % 2 == 0 && (q - 1) % 2 == 0);
    let h = (q + 1) / 2;
    let h2 = (q - 1) / 2;
    lemma_fundamental_div_mod(q + 1, 2);
    lemma_fundamental_div_mod(q - 1, 2);
    assert(2 * h == q + 1);
    assert(2 * h2 == q - 1);
    assert((h * 2) % q == 1) by {
        assert(h * 2 == q * 1 + 1) by (nonlinear_arith)
            requires 2 * h == q + 1;
        lemma_mod_multiples_vanish(1, 1, q);
        lemma_small_mod(1, q as nat);
    };
    lemma_mod_inv_unique(2, q, h);
    assert(((q - 1) * (q - 1)) % q == 1) by {
        assert((q - 1) * (q - 1) == q * (q - 2) + 1) by (nonlinear_arith);
        lemma_mod_multiples_vanish(q - 2, 1, q);
        lemma_small_mod(1, q as nat);
    };
    lemma_mod_inv_unique(q - 1, q, q - 1);
    assert((h2 * (q - 2)) % q == 1) by {
        assert(h2 * (q - 2) == q * (h2 - 1) + 1) by (nonlinear_arith)
            requires 2 * h2 == q - 1;
        lemma_mod_multiples_vanish(h2 - 1, 1, q);
        lemma_small_mod(1, q as nat);
    };
    lemma_mod_inv_unique(q - 2, q, h2);
}

/// The fold of node 1 against the other nodes 2 and 3 scales by the
/// Lagrange weight 3.
proof fn lemma_fold_node1(y: int)
    ensures
        interp_fold(y, seq![2u128, 3u128], 1, 2) == (3 * y) % scalar_order(),
{
    let q = scalar_order();
    let cs = seq![2u128, 3u128];
    assert(cs[0] == 2u128 && cs[1] == 3u128 && cs.len() == 2);
    lemma_scalar_inverses();
    let h = (q + 1) / 2;
    lemma_small_mod(1, q as nat);
    lemma_small_mod(2, q as nat);
    let v1 = lagrange_step(y, 2, 1);
    assert(v1 == ((y * 2) % q * 1) % q);
    lemma_mod_twice(y * 2, q);
    assert(v1 == (y * 2) % q);
    let v2 = lagrange_step(v1, 3, 1);
    assert(v2 == ((v1 * 3) % q * h) % q);
    lemma_mul_mod_noop_general(y * 2, 3, q);
    assert((v1 * 3) % q == ((y * 2) * 3) % q);
    lemma_mul_mod_noop_general((y * 2) * 3, h, q);
    assert(((y * 2) * 3 % q * h) % q == ((y * 2) * 3 * h) % q);
    assert((y * 2) * 3 * h == q * (3 * y) + 3 * y) by (nonlinear_arith)
        requires 2 * h == q + 1;
    lemma_mod_multiples_vanish(3 * y, 3 * y, q);
    assert(v2 == (3 * y) % q);
    assert(interp_fold(y, cs, 1, 2) == lagrange_step(interp_fold(y, cs, 1, 1), 3, 1));
    assert(interp_fold(y, cs, 1, 1) == lagrange_step(interp_fold(y, cs, 1, 0), 2, 1));
    assert(interp_fold(y, cs, 1, 0) == y);
}

/// The fold of node 2 against the other nodes 1 and 3 scales by the
/// Lagrange weight -3.
proof fn lemma_fold_node2(y: int)
    ensures
        interp_fold(y, seq![1u128, 3u128], 2, 2) == ((-3) * y) % scalar_order(),
{
    let q = scalar_order();
    let cs = seq![1u128, 3u128];
    assert(cs[0] == 1u128 && cs[1] == 3u128 && cs.len() == 2);
    lemma_scalar_inverses();
    lemma_small_mod(1, q as nat);
    assert((1 - 2) % q == q - 1) by {
        lemma_mod_multiples_vanish(1, -1, q);
        lemma_small_mod((q - 1) as nat, q as nat);
        assert(q * 1 + -1 == q - 1);
    };
    let v1 = lagrange_step(y, 1, 2);
    assert(v1 == ((y * 1) % q * (q - 1)) % q);
    lemma_mul_mod_noop_general(y, q - 1, q);
    assert(v1 == (y * (q - 1)) % q);
    let v2 = lagrange_step(v1, 3, 2);
    assert(v2 == ((v1 * 3) % q * 1) % q);
    lemma_mul_mod_noop_general(y * (q - 1), 3, q);
    assert((v1 * 3) % q == (y * (q - 1) * 3) % q);
    lemma_mod_twice(y * (q - 1) * 3, q);
    assert(v2 == (y * (q - 1) * 3) % q);
    assert(y * (q - 1) * 3 == q * (3 * y) + (-3) * y) by (nonlinear_arith);
    lemma_mod_multiples_vanish(3 * y, (-3) * y, q);
    assert(v2 == ((-3) * y) % q);
    assert(interp_fold(y, cs, 2, 2) == lagrange_step(interp_fold(y, cs, 2, 1), 3, 2));
    assert(interp_fold(y, cs, 2, 1) == lagrange_step(interp_fold(y, cs, 2, 0), 1, 2));
    assert(interp_fold(y, cs, 2, 0) == y);
}

/// The fold of node 3 against the other nodes 1 and 2 scales by the
/// Lagrange weight 1.
proof fn lemma_fold_node3(y: int)
    ensures
        interp_fold(y, seq![1u128, 2u128], 3, 2) == y % scalar_order(),
{
    let q = scalar_order();
    let cs = seq![1u128, 2u128];
    assert(cs[0] == 1u128 && cs[1] == 2u128 && cs.len() == 2);
    lemma_scalar_inverses();
    let h2 = (q - 1) / 2;
    assert((1 - 3) % q == q - 2) by {
        lemma_mod_multiples_vanish(1, -2, q);
        lemma_small_mod((q - 2) as nat, q as nat);
        assert(q * 1 + -2 == q - 2);
    };
    assert((2 - 3) % q == q - 1) by {
        lemma_mod_multiples_vanish(1, -1, q);
        lemma_small_mod((q - 1) as nat, q as nat);
        assert(q * 1 + -1 == q - 1);
    };
    let v1 = lagrange_step(y, 1, 3);
    assert(v1 == ((y * 1) % q * h2) % q);
    lemma_mul_mod_noop_general(y, h2, q);
    assert(v1 == (y * h2) % q);
    let v2 = lagrange_step(v1, 2, 3);
    assert(v2 == ((v1 * 2) % q * (q - 1)) % q);
    lemma_mul_mod_noop_general(y * h2, 2, q);
    assert((v1 * 2) % q == (y * h2 * 2) % q);
    lemma_mul_mod_noop_general(y * h2 * 2, q - 1, q);
    assert(v2 == (y * h2 * 2 * (q - 1)) % q);
    assert(y * h2 * 2 * (q - 1) == q * (y * (q - 2)) + y) by (nonlinear_arith)
        requires 2 * h2 == q - 1;
    lemma_mod_multiples_vanish(y * (q - 2), y, q);
    assert(v2 == y % q);
    assert(interp_fold(y, cs, 3, 2) == lagrange_step(interp_fold(y, cs, 3, 1), 2, 3));
    assert(interp_fold(y, cs, 3, 1) == lagrange_step(interp_fold(y, cs, 3, 0), 1, 3));
    assert(interp_fold(y, cs, 3, 0) == y);
}

/// Key-share reconstruction.  Three dealers expand their secrets with a
/// quadratic expansion (`output_min == 3`); the players at the nodes 1, 2
/// and 3 aggregate the sub-shares addressed to them, and each reweights its
/// aggregate against the other two nodes as `CalculatePriKey` does.  The
/// three final shares sum to the sum of the dealers' secrets modulo the
/// scalar-field order.
pub proof fn lemma_key_share_reconstruction(s1: int, s2: int, s3: int, b1: int, b2: int, b3: int)
    ensures
        ({
            let q = scalar_order();
            let a1 = sub_share(s1, b1, 0, 3) + sub_share(s2, b2, 0, 3) + sub_share(s3, b3, 0, 3);
            let a2 = sub_share(s1, b1, 1, 3) + sub_share(s2, b2, 1, 3) + sub_share(s3, b3, 1, 3);
            let a3 = sub_share(s1, b1, 2, 3) + sub_share(s2, b2, 2, 3) + sub_share(s3, b3, 2, 3);
            (interp_fold(a1, seq![2u128, 3u128], 1, 2) + interp_fold(a2, seq![1u128, 3u128], 2, 2)
                + interp_fold(a3, seq![1u128, 2u128], 3, 2)) % q == (s1 + s2 + s3) % q
        }),
{
    let q = scalar_order();
    let a1 = sub_share(s1, b1, 0, 3) + sub_share(s2, b2, 0, 3) + sub_share(s3, b3, 0, 3);
    let a2 = sub_share(s1, b1, 1, 3) + sub_share(s2, b2, 1, 3) + sub_share(s3, b3, 1, 3);
    let a3 = sub_share(s1, b1, 2, 3) + sub_share(s2, b2, 2, 3) + sub_share(s3, b3, 2, 3);
    lemma_fold_node1(a1);
    lemma_fold_node2(a2);
    lemma_fold_node3(a3);
    lemma_mod_add3(3 * a1, (-3) * a2, a3, q);
    // the integer identity: 3*a1 - 3*a2 + a3 == s1 + s2 + s3
    let ss = s1 + s2 + s3;
    let bb = b1 + b2 + b3;
    let cc = b1 * b1 + b2 * b2 + b3 * b3;
    lemma_sub_share_expand(s1, b1);
    lemma_sub_share_expand(s2, b2);
    lemma_sub_share_expand(s3, b3);
    assert(a1 == ss + bb + cc);
    assert(a2 == ss + 2 * bb + 4 * cc);
    assert(a3 == ss + 3 * bb + 9 * cc);
    assert(3 * a1 + (-3) * a2 + a3 == ss) by (nonlinear_arith)
        requires
            a1 == ss + bb + cc,
            a2 == ss + 2 * bb + 4 * cc,
            a3 == ss + 3 * bb + 9 * cc,
    ;
}

/// The quadratic expansion written out: node `m` receives
/// `s + m*b + (m*b)^2`.
proof fn lemma_sub_share_expand(s: int, b: int)
    ensures
        sub_share(s, b, 0, 3) == s + b + b * b,
        sub_share(s, b, 1, 3) == s + 2 * b + 4 * (b * b),
        sub_share(s, b, 2, 3) == s + 3 * b + 9 * (b * b),
{
    lemma_geom_expand(b);
    lemma_geom_expand(2 * b);
    lemma_geom_expand(3 * b);
    assert((0 + 1) * b == b && (1 + 1) * b == 2 * b && (2 + 1) * b == 3 * b) by (nonlinear_arith);
    assert((2 * b) * (2 * b) == 4 * (b * b)) by (nonlinear_arith);
    assert((3 * b) * (3 * b) == 9 * (b * b)) by (nonlinear_arith);
}

/// `geom_sum(x, 2) == x + x*x`.
proof fn lemma_geom_expand(x: int)
    ensures
        geom_sum(x, 2) == x + x * x,
{
    assert(geom_sum(x, 2) == geom_sum(x, 1) + pow(x, 2));
    assert(geom_sum(x, 1) == geom_sum(x, 0) + pow(x, 1));
    assert(geom_sum(x, 0) == 0);
    lemma_pow1(x);
    lemma_pow_adds(x, 1, 1);
    assert(pow(x, 2) == pow(x, 1) * pow(x, 1));
}

} // verus!
