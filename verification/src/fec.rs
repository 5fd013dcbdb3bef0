//! Encode, recode and decode shards of data with forward error correction.
//!
//! In all the following, $(k, n)$ codes are described, where $k$ is the
//! number of source shards and $n$ is the number of encoded shards.
//!
//! The data is cut into field elements, arranged in an $m \times k$ matrix
//! $S$ (row `i` holds elements `i * k .. (i + 1) * k`), and shard `j` holds
//! column `j` of $S M$ for an encoding matrix $M$. As long as $k$ linearly
//! independent shards are gathered, the data can be decoded back.
use vstd::prelude::*;
use crate::error::KomodoError;
use crate::field::{Scalar, all_wf, values, fadd, fmul, modulus_p, congruent, decimal, lemma_modulus_facts};
use crate::algebra::{lemma_split_fits, split_spec, merge_spec, lemma_split_merge, nb_chunks, padded_len, lemma_padded_len, split_data_into_field_elements, merge_elements_into_bytes};
use crate::algebra::linalg::{Matrix, rows_view, lemma_index_bound};
use crate::algebra::mat::{
    mat_mul, is_mat, identity, transpose, dependent_column, flatten_rows, dot, col_vec, zeros, is_kernel_witness,
    is_inverse, singular, is_first_zero_pivot, lemma_inverse_has_no_dependent_column, lemma_mul_is_mat, lemma_dot_comb, lemma_mul_assoc, lemma_mul_zeros, lemma_mul_identity_left, lemma_flatten_rows,
};
use crate::algebra::sums::{sum, lemma_cong_refl_mod, lemma_cong_add, lemma_cong_mul, lemma_cong_trans, lemma_sum_ext};

verus! {

/// A shard of encoded data.
#[derive(Clone, Debug, PartialEq, Default)]
pub struct Shard {
    /// the code parameter, required to decode
    pub k: u32,
    /// how the shard was built from the $k$ source shards $(s_i)$: the shard
    /// is $\sum_i \alpha_i s_i$ where the $\alpha_i$ are these coefficients.
    pub linear_combination: Vec<Scalar>,
    /// the hash of the original data, used for validation
    pub hash: Vec<u8>,
    /// the shard itself
    pub data: Vec<Scalar>,
    /// the size of the original data, used for padding
    pub size: usize,
}

/// The mathematical content of a [`Shard`].
pub struct ShardView {
    pub k: nat,
    pub linear_combination: Seq<nat>,
    pub hash: Seq<u8>,
    pub data: Seq<nat>,
    pub size: nat,
}

impl View for Shard {
    type V = ShardView;

    open spec fn view(&self) -> ShardView {
        ShardView {
            k: self.k as nat,
            linear_combination: values(self.linear_combination@),
            hash: self.hash@,
            data: values(self.data@),
            size: self.size as nat,
        }
    }
}

impl Shard {
    /// The field elements of the shard are canonical.
    pub open spec fn wf(&self) -> bool {
        &&& all_wf(self.linear_combination@)
        &&& all_wf(self.data@)
    }
}

/// Every element of `v` multiplied by `a`.
pub open spec fn scale_spec(v: Seq<nat>, a: nat) -> Seq<nat> {
    Seq::new(v.len(), |i: int| fmul(v[i], a))
}

/// The element-wise combination $a u + b v$, over the common length of `u`
/// and `v`.
pub open spec fn comb_spec(u: Seq<nat>, a: nat, v: Seq<nat>, b: nat) -> Seq<nat> {
    let n = if u.len() <= v.len() { u.len() } else { v.len() };
    Seq::new(n, |i: int| fadd(fmul(u[i], a), fmul(v[i], b)))
}

/// A shard multiplied by `a`.
pub open spec fn scale_shard(s: ShardView, a: nat) -> ShardView {
    ShardView {
        k: s.k,
        linear_combination: scale_spec(s.linear_combination, a),
        hash: s.hash,
        data: scale_spec(s.data, a),
        size: s.size,
    }
}

/// The vector $a u + b v$: when one coefficient is zero, the other vector
/// alone, scaled; otherwise the element-wise combination.
pub open spec fn recode_vec(u: Seq<nat>, a: nat, v: Seq<nat>, b: nat) -> Seq<nat> {
    if a == 0 {
        scale_spec(v, b)
    } else if b == 0 {
        scale_spec(u, a)
    } else {
        comb_spec(u, a, v, b)
    }
}

/// The shard $a s + b o$. Its parameters (`k`, hash and size) are those of
/// `o` when `a` is zero, and those of `s` otherwise.
pub open spec fn recode_spec(s: ShardView, a: nat, o: ShardView, b: nat) -> ShardView {
    let base = if a == 0 { o } else { s };
    ShardView {
        k: base.k,
        linear_combination: recode_vec(s.linear_combination, a, o.linear_combination, b),
        hash: base.hash,
        data: recode_vec(s.data, a, o.data, b),
        size: base.size,
    }
}

fn copy_bytes(v: &Vec<u8>) -> (r: Vec<u8>)
    ensures
        r@ == v@,
{
    let r = v.clone();
    proof {
        assert(r@ =~= v@);
    }
    r
}

fn scale_vec(v: &Vec<Scalar>, a: Scalar) -> (r: Vec<Scalar>)
    requires
        all_wf(v@),
        a.wf(),
    ensures
        all_wf(r@),
        values(r@) == scale_spec(values(v@), a@),
{
    let mut r: Vec<Scalar> = Vec::new();
    let mut i: usize = 0;
    while i < v.len()
        invariant
            all_wf(v@),
            a.wf(),
            i <= v@.len(),
            r@.len() == i,
            all_wf(r@),
            forall|t: int| 0 <= t < i ==> #[trigger] r@[t]@ == fmul(v@[t]@, a@),
        decreases v@.len() - i,
    {
        r.push(v[i].mul(&a));
        i = i + 1;
    }
    proof {
        assert(values(r@) =~= scale_spec(values(v@), a@));
    }
    r
}

fn comb_vec(u: &Vec<Scalar>, a: Scalar, v: &Vec<Scalar>, b: Scalar) -> (r: Vec<Scalar>)
    requires
        all_wf(u@),
        all_wf(v@),
        a.wf(),
        b.wf(),
    ensures
        all_wf(r@),
        values(r@) == comb_spec(values(u@), a@, values(v@), b@),
{
    let n = if u.len() <= v.len() { u.len() } else { v.len() };
    let mut r: Vec<Scalar> = Vec::new();
    let mut i: usize = 0;
    while i < n
        invariant
            all_wf(u@),
            all_wf(v@),
            a.wf(),
            b.wf(),
            n <= u@.len(),
            n <= v@.len(),
            i <= n,
            r@.len() == i,
            all_wf(r@),
            forall|t: int| 0 <= t < i ==> #[trigger] r@[t]@ == fadd(fmul(u@[t]@, a@), fmul(v@[t]@, b@)),
        decreases n - i,
    {
        let x = u[i].mul(&a);
        let y = v[i].mul(&b);
        r.push(x.add(&y));
        i = i + 1;
    }
    proof {
        assert(values(r@) =~= comb_spec(values(u@), a@, values(v@), b@));
    }
    r
}

impl Shard {
    /// The same shard.
    pub fn clone_shard(&self) -> (r: Shard)
        ensures
            r@ == self@,
            r.wf() == self.wf(),
    {
        Shard {
            k: self.k,
            linear_combination: copy_scalars(&self.linear_combination),
            hash: copy_bytes(&self.hash),
            data: copy_scalars(&self.data),
            size: self.size,
        }
    }

    fn scaled(&self, a: Scalar) -> (r: Shard)
        requires
            self.wf(),
            a.wf(),
        ensures
            r.wf(),
            r@ == scale_shard(self@, a@),
    {
        Shard {
            k: self.k,
            linear_combination: scale_vec(&self.linear_combination, a),
            hash: copy_bytes(&self.hash),
            data: scale_vec(&self.data, a),
            size: self.size,
        }
    }

    /// Computes the linear combination $\alpha s + \beta o$ of the shard
    /// itself $s$ and the other shard $o$.
    pub fn recode_with(&self, alpha: Scalar, other: &Shard, beta: Scalar) -> (r: Shard)
        requires
            self.wf(),
            other.wf(),
            alpha.wf(),
            beta.wf(),
        ensures
            r.wf(),
            r@ == recode_spec(self@, alpha@, other@, beta@),
    {
        if alpha.is_zero() {
            return other.scaled(beta);
        } else if beta.is_zero() {
            return self.scaled(alpha);
        }
        Shard {
            k: self.k,
            linear_combination: comb_vec(&self.linear_combination, alpha, &other.linear_combination, beta),
            hash: copy_bytes(&self.hash),
            data: comb_vec(&self.data, alpha, &other.data, beta),
            size: self.size,
        }
    }
}

/// The views of a sequence of shards.
pub open spec fn shard_views(shards: Seq<Shard>) -> Seq<ShardView> {
    shards.map_values(|s: Shard| s@)
}

/// The shards are all well formed.
pub open spec fn all_shards_wf(shards: Seq<Shard>) -> bool {
    forall|i: int| 0 <= i < shards.len() ==> #[trigger] shards[i].wf()
}

/// The accumulated shard and coefficient after folding over the first `n`
/// shards: the first shard with its coefficient, then at each step the
/// combination of the accumulator and the next shard, with coefficient one.
pub open spec fn fold_shards(shards: Seq<ShardView>, coeffs: Seq<nat>, n: nat) -> (ShardView, nat)
    decreases n,
{
    if n <= 1 {
        (shards[0], coeffs[0])
    } else {
        let acc = fold_shards(shards, coeffs, (n - 1) as nat);
        (recode_spec(acc.0, acc.1, shards[n - 1], coeffs[n - 1]), 1nat)
    }
}

/// The combination of the shards with the coefficients: nothing when the
/// lengths differ or there is no shard, a scaled shard when there is one.
pub open spec fn recode_with_coeffs_spec(shards: Seq<ShardView>, coeffs: Seq<nat>) -> Option<ShardView> {
    if shards.len() != coeffs.len() || shards.len() == 0 {
        None
    } else if shards.len() == 1 {
        Some(scale_shard(shards[0], coeffs[0]))
    } else {
        Some(fold_shards(shards, coeffs, shards.len()).0)
    }
}

/// Computes the linear combination $\sum_i \alpha_i s_i$ of the shards
/// $s_i$ with the coefficients $\alpha_i$.
///
/// Returns `None` when the numbers of shards and coefficients differ, or when
/// there is no shard.
pub fn recode_with_coeffs(shards: &[Shard], coeffs: &[Scalar]) -> (r: Option<Shard>)
    requires
        all_shards_wf(shards@),
        all_wf(coeffs@),
    ensures
        r matches Some(s) ==> s.wf(),
        r is None <==> recode_with_coeffs_spec(shard_views(shards@), values(coeffs@)) is None,
        r matches Some(s) ==> recode_with_coeffs_spec(shard_views(shards@), values(coeffs@)) == Some(s@),
{
    let ghost views = shard_views(shards@);
    let ghost cs = values(coeffs@);
    if shards.len() != coeffs.len() {
        return None;
    }
    if shards.len() == 0 {
        return None;
    }
    if shards.len() == 1 {
        proof {
            assert(views[0] == shards@[0]@);
            assert(cs[0] == coeffs@[0]@);
        }
        return Some(shards[0].scaled(coeffs[0]));
    }
    let mut acc = shards[0].recode_with(coeffs[0], &shards[1], coeffs[1]);
    proof {
        assert(views[0] == shards@[0]@ && views[1] == shards@[1]@);
        assert(cs[0] == coeffs@[0]@ && cs[1] == coeffs@[1]@);
        assert(fold_shards(views, cs, 1) == (views[0], cs[0]));
    }
    let mut i: usize = 2;
    while i < shards.len()
        invariant
            all_shards_wf(shards@),
            all_wf(coeffs@),
            shards@.len() == coeffs@.len(),
            views == shard_views(shards@),
            cs == values(coeffs@),
            2 <= i <= shards@.len(),
            acc.wf(),
            fold_shards(views, cs, i as nat) == (acc@, 1nat),
        decreases shards@.len() - i,
    {
        let one = Scalar::one();
        acc = acc.recode_with(one, &shards[i], coeffs[i]);
        proof {
            assert(views[i as int] == shards@[i as int]@);
            assert(cs[i as int] == coeffs@[i as int]@);
        }
        i = i + 1;
    }
    Some(acc)
}

/// The same fold as [`fold_shards`], on vectors alone.
pub open spec fn fold_vecs(vs: Seq<Seq<nat>>, coeffs: Seq<nat>, n: nat) -> (Seq<nat>, nat)
    decreases n,
{
    if n <= 1 {
        (vs[0], coeffs[0])
    } else {
        let acc = fold_vecs(vs, coeffs, (n - 1) as nat);
        (recode_vec(acc.0, acc.1, vs[n - 1], coeffs[n - 1]), 1nat)
    }
}

/// The linear combinations of the shards' data.
pub open spec fn datas(shards: Seq<ShardView>) -> Seq<Seq<nat>> {
    Seq::new(shards.len(), |i: int| shards[i].data)
}

/// The linear combinations of the shards' coefficients.
pub open spec fn combinations(shards: Seq<ShardView>) -> Seq<Seq<nat>> {
    Seq::new(shards.len(), |i: int| shards[i].linear_combination)
}

/// $\sum_{i < n} c_i v_i$, element-wise over `len` elements, in $\mathbb{F}_p$.
pub open spec fn lin_comb(vs: Seq<Seq<nat>>, cs: Seq<nat>, n: nat, len: nat) -> Seq<nat> {
    Seq::new(len, |j: int| (sum(n, |i: int| (cs[i] * vs[i][j]) as int) % (modulus_p() as int)) as nat)
}

/// The vectors all have length `len` and canonical entries.
pub open spec fn vectors_of(vs: Seq<Seq<nat>>, len: nat) -> bool {
    &&& forall|i: int| 0 <= i < vs.len() ==> #[trigger] vs[i].len() == len
    &&& forall|i: int, j: int| 0 <= i < vs.len() && 0 <= j < len ==> #[trigger] vs[i][j] < modulus_p()
}

proof fn lemma_fold_components(shards: Seq<ShardView>, coeffs: Seq<nat>, n: nat)
    requires
        1 <= n <= shards.len(),
    ensures
        fold_shards(shards, coeffs, n).0.data == fold_vecs(datas(shards), coeffs, n).0,
        fold_shards(shards, coeffs, n).0.linear_combination == fold_vecs(combinations(shards), coeffs, n).0,
        fold_shards(shards, coeffs, n).1 == fold_vecs(datas(shards), coeffs, n).1,
        fold_shards(shards, coeffs, n).1 == fold_vecs(combinations(shards), coeffs, n).1,
    decreases n,
{
    if n > 1 {
        lemma_fold_components(shards, coeffs, (n - 1) as nat);
    }
}

proof fn lemma_fold_vecs(vs: Seq<Seq<nat>>, cs: Seq<nat>, n: nat, len: nat)
    requires
        1 <= n <= vs.len(),
        n <= cs.len(),
        vectors_of(vs, len),
        forall|i: int| 0 <= i < cs.len() ==> #[trigger] cs[i] < modulus_p(),
    ensures
        fold_vecs(vs, cs, n).0.len() == len,
        fold_vecs(vs, cs, n).1 < modulus_p(),
        n >= 2 ==> fold_vecs(vs, cs, n).1 == 1,
        forall|j: int| 0 <= j < len ==> #[trigger] fold_vecs(vs, cs, n).0[j] < modulus_p(),
        forall|j: int| 0 <= j < len ==> congruent(
            (#[trigger] fold_vecs(vs, cs, n).0[j] * fold_vecs(vs, cs, n).1) as int,
            sum(n, |i: int| (cs[i] * vs[i][j]) as int),
        ),
    decreases n,
{
    lemma_modulus_facts();
    let p = modulus_p() as int;
    if n == 1 {
        assert forall|j: int| 0 <= j < len implies congruent(
            (#[trigger] fold_vecs(vs, cs, n).0[j] * fold_vecs(vs, cs, n).1) as int,
            sum(n, |i: int| (cs[i] * vs[i][j]) as int),
        ) by {
            let f = |i: int| (cs[i] * vs[i][j]) as int;
            assert(sum(1, f) == sum(0, f) + f(0));
            assert(vs[0][j] * cs[0] == cs[0] * vs[0][j]) by (nonlinear_arith);
        }
    } else {
        let m = (n - 1) as nat;
        lemma_fold_vecs(vs, cs, m, len);
        let acc = fold_vecs(vs, cs, m);
        let a = acc.1;
        let u = acc.0;
        let v = vs[m as int];
        let b = cs[m as int];
        let r = fold_vecs(vs, cs, n);
        assert(r.0 == recode_vec(u, a, v, b));
        assert(r.1 == 1);
        assert forall|j: int| 0 <= j < len implies #[trigger] r.0[j] < modulus_p() && congruent(
            (r.0[j] * r.1) as int,
            sum(n, |i: int| (cs[i] * vs[i][j]) as int),
        ) by {
            let f = |i: int| (cs[i] * vs[i][j]) as int;
            let prev = sum(m, f);
            assert(sum(n, f) == prev + f(m as int));
            let ua: int = (u[j] * a) as int;
            let vb: int = (v[j] * b) as int;
            assert(congruent(ua, prev));
            assert(v[j] * b == b * v[j]) by (nonlinear_arith);
            if a == 0 {
                assert(u[j] * a == 0) by (nonlinear_arith) requires a == 0;
                assert(r.0[j] == fmul(v[j], b));
                lemma_cong_refl_mod(vb);
                lemma_cong_add(0, prev, vb, f(m as int));
            } else if b == 0 {
                assert(f(m as int) == 0) by (nonlinear_arith) requires b == 0, f(m as int) == b * v[j];
                assert(r.0[j] == fmul(u[j], a));
                lemma_cong_refl_mod(ua);
                lemma_cong_trans(ua % p, ua, prev);
            } else {
                assert(r.0[j] == fadd(fmul(u[j], a), fmul(v[j], b)));
                lemma_cong_refl_mod(ua);
                lemma_cong_refl_mod(vb);
                lemma_cong_add(fmul(u[j], a) as int, ua, fmul(v[j], b) as int, vb);
                lemma_cong_refl_mod((fmul(u[j], a) + fmul(v[j], b)) as int);
                lemma_cong_trans(r.0[j] as int, (fmul(u[j], a) + fmul(v[j], b)) as int, ua + vb);
                lemma_cong_add(ua, prev, vb, f(m as int));
                lemma_cong_trans(r.0[j] as int, ua + vb, prev + f(m as int));
            }
        }
    }
}

/// Recoding with coefficients gives the linear combination
/// $\sum_i \alpha_i s_i$ of the shards, on their data and on their
/// coefficients alike, when all the shards have the same shape.
pub proof fn lemma_recode_with_coeffs_is_linear(shards: Seq<ShardView>, coeffs: Seq<nat>, k: nat, len: nat)
    requires
        shards.len() == coeffs.len(),
        shards.len() > 0,
        vectors_of(datas(shards), len),
        vectors_of(combinations(shards), k),
        forall|i: int| 0 <= i < coeffs.len() ==> #[trigger] coeffs[i] < modulus_p(),
    ensures
        recode_with_coeffs_spec(shards, coeffs) matches Some(r) && {
            &&& r.data == lin_comb(datas(shards), coeffs, shards.len(), len)
            &&& r.linear_combination == lin_comb(combinations(shards), coeffs, shards.len(), k)
        },
{
    lemma_modulus_facts();
    let p = modulus_p() as int;
    let n = shards.len();
    let r = recode_with_coeffs_spec(shards, coeffs)->Some_0;
    if n == 1 {
        assert forall|j: int| 0 <= j < len implies #[trigger] r.data[j] == lin_comb(datas(shards), coeffs, 1, len)[j] by {
            let f = |i: int| (coeffs[i] * datas(shards)[i][j]) as int;
            assert(sum(1, f) == sum(0, f) + f(0));
            assert(datas(shards)[0] == shards[0].data);
            assert(shards[0].data[j] * coeffs[0] == coeffs[0] * shards[0].data[j]) by (nonlinear_arith);
        }
        assert forall|j: int| 0 <= j < k implies #[trigger] r.linear_combination[j] == lin_comb(combinations(shards), coeffs, 1, k)[j] by {
            let f = |i: int| (coeffs[i] * combinations(shards)[i][j]) as int;
            assert(sum(1, f) == sum(0, f) + f(0));
            assert(combinations(shards)[0] == shards[0].linear_combination);
            assert(shards[0].linear_combination[j] * coeffs[0] == coeffs[0] * shards[0].linear_combination[j]) by (nonlinear_arith);
        }
        assert(datas(shards)[0].len() == len);
        assert(combinations(shards)[0].len() == k);
        assert(r.data =~= lin_comb(datas(shards), coeffs, 1, len));
        assert(r.linear_combination =~= lin_comb(combinations(shards), coeffs, 1, k));
    } else {
        lemma_fold_components(shards, coeffs, n);
        lemma_fold_vecs(datas(shards), coeffs, n, len);
        lemma_fold_vecs(combinations(shards), coeffs, n, k);
        let fd = fold_vecs(datas(shards), coeffs, n).0;
        let fl = fold_vecs(combinations(shards), coeffs, n).0;
        assert forall|j: int| 0 <= j < len implies #[trigger] fd[j] == lin_comb(datas(shards), coeffs, n, len)[j] by {
            assert(congruent((fd[j] * 1) as int, sum(n, |i: int| (coeffs[i] * datas(shards)[i][j]) as int)));
            vstd::arithmetic::div_mod::lemma_small_mod(fd[j], modulus_p());
        }
        assert forall|j: int| 0 <= j < k implies #[trigger] fl[j] == lin_comb(combinations(shards), coeffs, n, k)[j] by {
            assert(congruent((fl[j] * 1) as int, sum(n, |i: int| (coeffs[i] * combinations(shards)[i][j]) as int)));
            vstd::arithmetic::div_mod::lemma_small_mod(fl[j], modulus_p());
        }
        assert(r.data =~= lin_comb(datas(shards), coeffs, n, len));
        assert(r.linear_combination =~= lin_comb(combinations(shards), coeffs, n, k));
    }
}

/// The decimal notations of the bytes, each but the first after `, `.
pub open spec fn debug_items(bytes: Seq<u8>) -> Seq<char>
    decreases bytes.len(),
{
    if bytes.len() == 0 {
        Seq::empty()
    } else if bytes.len() == 1 {
        decimal(bytes[0] as nat)
    } else {
        debug_items(bytes.drop_last()) + ", "@ + decimal(bytes.last() as nat)
    }
}

/// What `Debug` writes for a vector of bytes: a list in square brackets, of
/// the decimal notation of each byte, separated by `, `.
pub open spec fn debug_bytes(bytes: Seq<u8>) -> Seq<char> {
    "["@ + debug_items(bytes) + "]"@
}

/// `u32`'s `to_string`: its decimal notation, as `Display` for integers
/// writes it.
#[verifier::external_body]
fn u32_to_string(x: u32) -> (r: String)
    ensures
        r@ == decimal(x as nat),
{
    x.to_string()
}

/// `usize`'s `to_string`: its decimal notation, as `Display` for integers
/// writes it.
#[verifier::external_body]
pub(crate) fn usize_to_string(x: usize) -> (r: String)
    ensures
        r@ == decimal(x as nat),
{
    x.to_string()
}

/// `format!("{:?}", bytes)`: the `Debug` text of a vector of bytes, a list
/// as `Formatter::debug_list` writes it of each byte's `Debug` text, its
/// decimal notation.
#[verifier::external_body]
fn bytes_to_debug_string(bytes: &Vec<u8>) -> (r: String)
    ensures
        r@ == debug_bytes(bytes@),
{
    format!("{:?}", bytes)
}

fn bytes_equal(a: &Vec<u8>, b: &Vec<u8>) -> (r: bool)
    ensures
        r == (a@ == b@),
{
    if a.len() != b.len() {
        return false;
    }
    let mut i: usize = 0;
    while i < a.len()
        invariant
            a@.len() == b@.len(),
            i <= a@.len(),
            forall|t: int| 0 <= t < i ==> a@[t] == b@[t],
        decreases a@.len() - i,
    {
        if a[i] != b[i] {
            return false;
        }
        i = i + 1;
    }
    proof {
        assert(a@ =~= b@);
    }
    true
}

/// Two shards seem to come from the same data: same `k`, hash and size.
pub open spec fn compatible(a: ShardView, b: ShardView) -> bool {
    &&& a.k == b.k
    &&& a.hash == b.hash
    &&& a.size == b.size
}

/// The error that describes how the shards `a` and `b`, at indices `index`
/// and `index + 1`, differ: first by `k`, then by hash, then by size.
pub open spec fn incompatibility(a: ShardView, b: ShardView, index: nat, e: KomodoError) -> bool {
    e matches KomodoError::IncompatibleShards { key, index: i, left, right } && {
        &&& i == index
        &&& if a.k != b.k {
            key@ == "k"@ && left@ == decimal(a.k) && right@ == decimal(b.k)
        } else if a.hash != b.hash {
            key@ == "hash"@ && left@ == debug_bytes(a.hash) && right@ == debug_bytes(b.hash)
        } else {
            key@ == "size"@ && left@ == decimal(a.size) && right@ == decimal(b.size)
        }
    }
}

/// `e` names the first pair of consecutive shards that are not compatible.
pub open spec fn first_incompatibility(shards: Seq<ShardView>, e: KomodoError) -> bool {
    e matches KomodoError::IncompatibleShards { index, .. } && {
        &&& index + 1 < shards.len()
        &&& forall|t: int| 0 <= t < index ==> compatible(#[trigger] shards[t], shards[t + 1])
        &&& !compatible(shards[index as int], shards[index + 1])
        &&& incompatibility(shards[index as int], shards[index + 1], index as nat, e)
    }
}

/// `s` is the combination of the shards with some canonical coefficients,
/// one per shard.
pub open spec fn recoded_from(shards: Seq<ShardView>, s: ShardView) -> bool {
    exists|c: Seq<nat>| #[trigger] recode_with_coeffs_spec(shards, c) == Some(s) && c.len() == shards.len() && (
        forall|i: int| 0 <= i < c.len() ==> #[trigger] c[i] < modulus_p())
}

/// Computes a recoded shard from compatible shards, with coefficients drawn
/// at random, one for each shard.
///
/// If two consecutive shards seem to come from different data (their `k`,
/// hash or size differ), an error names the first such pair.
pub fn recode_random(shards: &[Shard], rng: &mut ark_std::rand::rngs::StdRng) -> (r: Result<Option<Shard>, KomodoError>)
    requires
        all_shards_wf(shards@),
    ensures
        match r {
            Ok(o) => {
                &&& forall|i: int| 0 <= i < shards@.len() - 1 ==> compatible(#[trigger] shard_views(shards@)[i], shard_views(shards@)[i + 1])
                &&& o is None <==> shards@.len() == 0
                &&& o matches Some(s) ==> s.wf() && recoded_from(shard_views(shards@), s@)
            },
            Err(e) => first_incompatibility(shard_views(shards@), e),
        },
        r is Err || shards@.len() == 0 ==> *final(rng) == *old(rng),
{
    let ghost views = shard_views(shards@);
    let n = shards.len();
    let mut i: usize = 0;
    while n > 0 && i < n - 1
        invariant
            n == shards@.len(),
            views == shard_views(shards@),
            i <= n,
            forall|t: int| 0 <= t < i && t + 1 < n ==> compatible(#[trigger] views[t], views[t + 1]),
        decreases n - i,
    {
        let s1 = &shards[i];
        let s2 = &shards[i + 1];
        proof {
            assert(views[i as int] == s1@);
            assert(views[i + 1] == s2@);
        }
        if s1.k != s2.k {
            let e = KomodoError::IncompatibleShards {
                key: "k".to_owned(),
                index: i,
                left: u32_to_string(s1.k),
                right: u32_to_string(s2.k),
            };
            proof {
                assert(incompatibility(views[i as int], views[i + 1], i as nat, e));
            }
            return Err(e);
        }
        if !bytes_equal(&s1.hash, &s2.hash) {
            let e = KomodoError::IncompatibleShards {
                key: "hash".to_owned(),
                index: i,
                left: bytes_to_debug_string(&s1.hash),
                right: bytes_to_debug_string(&s2.hash),
            };
            proof {
                assert(incompatibility(views[i as int], views[i + 1], i as nat, e));
            }
            return Err(e);
        }
        if s1.size != s2.size {
            let e = KomodoError::IncompatibleShards {
                key: "size".to_owned(),
                index: i,
                left: usize_to_string(s1.size),
                right: usize_to_string(s2.size),
            };
            proof {
                assert(incompatibility(views[i as int], views[i + 1], i as nat, e));
            }
            return Err(e);
        }
        i = i + 1;
    }
    let mut coeffs: Vec<Scalar> = Vec::new();
    let mut j: usize = 0;
    while j < n
        invariant
            n == shards@.len(),
            j <= n,
            coeffs@.len() == j,
            all_wf(coeffs@),
            j == 0 ==> *rng == *old(rng),
        decreases n - j,
    {
        coeffs.push(Scalar::rand(rng));
        j = j + 1;
    }
    let o = recode_with_coeffs(shards, &coeffs);
    proof {
        if o is Some {
            let c = values(coeffs@);
            assert(recode_with_coeffs_spec(views, c) == Some(o->Some_0@));
            assert forall|t: int| 0 <= t < c.len() implies #[trigger] c[t] < modulus_p() by {
                assert(coeffs@[t].wf());
            }
        }
    }
    Ok(o)
}

/// The SHA-256 digest of some bytes.
pub uninterp spec fn sha256_digest(data: Seq<u8>) -> Seq<u8>;

/// `rs_merkle`'s `Sha256::hash`: the 32 bytes of the SHA-256 digest of
/// `data`, named [`sha256_digest`].
#[verifier::external_body]
pub(crate) fn sha256(data: &[u8]) -> (r: Vec<u8>)
    ensures
        r@ == sha256_digest(data@),
        r@.len() == 32,
{
    <rs_merkle::algorithms::Sha256 as rs_merkle::Hasher>::hash(data).to_vec()
}

/// The source shards: the field elements of `data`, padded to a multiple of
/// `k` and arranged row by row in a matrix with `k` columns.
pub open spec fn source_matrix(data: Seq<u8>, k: nat) -> Seq<Seq<nat>> {
    let e = split_spec(data, k);
    Seq::new(e.len() / k, |i: int| Seq::new(k, |c: int| e[i * k + c]))
}

/// Column `j` of the matrix `a` with `h` rows.
pub open spec fn column(a: Seq<Seq<nat>>, h: nat, j: int) -> Seq<nat> {
    Seq::new(h, |i: int| a[i][j])
}

/// Shard `j` of the encoding of `data` with the $k \times n$ matrix `m`:
/// column `j` of $S M$, where $S$ is the [`source_matrix`].
pub open spec fn encoded_shard(data: Seq<u8>, m: Seq<Seq<nat>>, k: nat, n: nat, j: int) -> ShardView {
    let s = source_matrix(data, k);
    ShardView {
        k: k,
        linear_combination: column(m, k, j),
        hash: sha256_digest(data),
        data: column(mat_mul(s, m, k, n), s.len(), j),
        size: data.len(),
    }
}

proof fn lemma_source_rows(len: nat, k: nat, q: nat)
    requires
        k > 0,
        q * k == padded_len(nb_chunks(len), k),
    ensures
        len > 0 ==> 1 <= q <= len,
        len == 0 ==> q == 0,
{
    lemma_padded_len(nb_chunks(len), k);
    let nb = nb_chunks(len);
    if len > 0 {
        assert(nb <= len);
        assert(q >= 1) by (nonlinear_arith)
            requires
                q * k >= 1,
        ;
        assert(q <= nb) by (nonlinear_arith)
            requires
                k >= 1,
                q * k < nb + k,
        {
            if q > nb {
                assert(q * k >= (nb + 1) * k);
                assert((nb + 1) * k == nb * k + k);
                assert(nb * k >= nb);
            }
        }
    } else {
        assert(nb == 0);
        assert(padded_len(0, k) == 0);
        assert(q == 0) by (nonlinear_arith)
            requires
                k >= 1,
                q * k == 0,
        ;
    }
}

/// Applies an encoding matrix to some data to generate encoded shards.
///
/// The data is cut into field elements (see
/// [`split_data_into_field_elements`]) arranged in an $m \times k$ matrix
/// $S$, and the encoding matrix $M$ is $k \times n$: the shards are the $n$
/// columns of $S M$. Each shard also holds its column of $M$, the hash and
/// the size of the data.
///
/// An error is returned when there is no data, which gives a source matrix
/// with no column.
pub fn encode(data: &[u8], encoding_mat: &Matrix) -> (r: Result<Vec<Shard>, KomodoError>)
    requires
        encoding_mat.wf(),
        encoding_mat.height > 0,
        encoding_mat.height <= u32::MAX,
        data@.len() + encoding_mat.height <= usize::MAX,
        data@.len() * encoding_mat.width <= usize::MAX,
    ensures
        match r {
            Ok(shards) => {
                &&& data@.len() > 0
                &&& shards@.len() == encoding_mat.width
                &&& all_shards_wf(shards@)
                &&& forall|j: int| 0 <= j < shards@.len() ==> #[trigger] shards@[j]@ == encoded_shard(
                    data@,
                    encoding_mat@,
                    encoding_mat.height as nat,
                    encoding_mat.width as nat,
                    j,
                )
            },
            Err(KomodoError::IncompatibleMatrixShapes { left, right }) => {
                &&& data@.len() == 0
                &&& left == (0usize, 0usize)
                &&& right == (encoding_mat.height, encoding_mat.width)
            },
            Err(_) => false,
        },
{
    let hash = sha256(data);
    let k = encoding_mat.height;
    let n = encoding_mat.width;
    proof { lemma_split_fits(data@.len() as nat, k as nat); }
    let elements = split_data_into_field_elements(data, k);
    let m = elements.len() / k;
    let ghost e = split_spec(data@, k as nat);
    proof {
        let l = elements@.len() as int;
        let kk = k as int;
        vstd::arithmetic::div_mod::lemma_fundamental_div_mod(l, kk);
        assert(m * k == elements@.len()) by (nonlinear_arith)
            requires
                l == kk * (l / kk) + l % kk,
                l % kk == 0,
                m == l / kk,
                l == elements@.len(),
                kk == k,
        ;
        assert(elements@.len() == e.len());
        lemma_source_rows(data@.len() as nat, k as nat, m as nat);
    }
    let mut rows: Vec<Vec<Scalar>> = Vec::new();
    let mut i: usize = 0;
    while i < m
        invariant
            m * k == elements@.len(),
            elements@.len() <= usize::MAX,
            values(elements@) == e,
            all_wf(elements@),
            i <= m,
            rows@.len() == i,
            forall|a: int| 0 <= a < i ==> #[trigger] rows@[a]@.len() == k,
            forall|a: int| 0 <= a < i ==> all_wf(#[trigger] rows@[a]@),
            forall|a: int, c: int| 0 <= a < i && 0 <= c < k ==> #[trigger] rows@[a]@[c]@ == e[a * k + c],
        decreases m - i,
    {
        let mut row: Vec<Scalar> = Vec::new();
        let mut c: usize = 0;
        while c < k
            invariant
                m * k == elements@.len(),
                elements@.len() <= usize::MAX,
                values(elements@) == e,
                all_wf(elements@),
                i < m,
                c <= k,
                row@.len() == c,
                all_wf(row@),
                forall|b: int| 0 <= b < c ==> #[trigger] row@[b]@ == e[i * k + b],
            decreases k - c,
        {
            proof {
                lemma_index_bound(i as int, c as int, m as int, k as int);
                assert(i * k + c < elements@.len());
            }
            row.push(elements[i * k + c]);
            c = c + 1;
        }
        rows.push(row);
        i = i + 1;
    }
    let ghost rows_v = rows@;
    let source = match Matrix::from_vec_vec(rows) {
        Ok(s) => s,
        Err(e) => {
            proof {
                if let KomodoError::InvalidMatrixElements { row, .. } = e {
                    assert(rows_v[row as int]@.len() == k);
                    assert(rows_v[0]@.len() == k);
                }
            }
            return Err(e);
        },
    };
    proof {
        assert(source@ =~= source_matrix(data@, k as nat)) by {
            if m > 0 {
                assert(source.width == k);
                assert forall|a: int| 0 <= a < m implies #[trigger] source@[a] =~= source_matrix(data@, k as nat)[a] by {
                    assert forall|c: int| 0 <= c < k implies source@[a][c] == source_matrix(data@, k as nat)[a][c] by {
                        assert(rows@[a]@[c]@ == e[a * k + c]);
                    }
                }
            }
        }
        assert(source.height * n <= usize::MAX) by (nonlinear_arith)
            requires
                source.height <= data@.len() || source.height == 0,
                data@.len() * n <= usize::MAX,
        ;
    }
    let product = match source.mul(encoding_mat) {
        Ok(p) => p,
        Err(e) => {
            return Err(e);
        },
    };
    let mut shards: Vec<Shard> = Vec::new();
    let mut j: usize = 0;
    while j < n
        invariant
            encoding_mat.wf(),
            product.wf(),
            k == encoding_mat.height,
            n == encoding_mat.width,
            k <= u32::MAX,
            m > 0,
            data@.len() > 0,
            product.height == source.height,
            product.width == n,
            source@ == source_matrix(data@, k as nat),
            source.height == source@.len(),
            product@ == mat_mul(source@, encoding_mat@, k as nat, n as nat),
            hash@ == sha256_digest(data@),
            j <= n,
            shards@.len() == j,
            all_shards_wf(shards@),
            forall|a: int| 0 <= a < j ==> #[trigger] shards@[a]@ == encoded_shard(data@, encoding_mat@, k as nat, n as nat, a),
        decreases n - j,
    {
        let lc = match encoding_mat.get_col(j) {
            Some(c) => c,
            None => Vec::new(),
        };
        let col = match product.get_col(j) {
            Some(c) => c,
            None => Vec::new(),
        };
        let shard = Shard { k: k as u32, linear_combination: lc, hash: copy_bytes(&hash), data: col, size: data.len() };
        proof {
            assert(shard@.linear_combination =~= column(encoding_mat@, k as nat, j as int));
            assert(shard@.data =~= column(product@, source@.len(), j as int));
            assert(shard@ == encoded_shard(data@, encoding_mat@, k as nat, n as nat, j as int));
        }
        shards.push(shard);
        j = j + 1;
    }
    Ok(shards)
}

/// The coefficients of the first `n` shards, as the rows of a matrix.
pub open spec fn lc_rows(shards: Seq<ShardView>, n: nat) -> Seq<Seq<nat>> {
    Seq::new(n, |i: int| shards[i].linear_combination)
}

/// The data of the first `n` shards, as the rows of a matrix.
pub open spec fn data_rows(shards: Seq<ShardView>, n: nat) -> Seq<Seq<nat>> {
    Seq::new(n, |i: int| shards[i].data)
}

/// All the rows have the length of the first one.
pub open spec fn same_lengths(rows: Seq<Seq<nat>>) -> bool {
    forall|i: int| 0 <= i < rows.len() ==> #[trigger] rows[i].len() == rows[0].len()
}

/// `e` names the first row whose length differs from the first row's.
pub open spec fn first_mismatch(rows: Seq<Seq<nat>>, e: KomodoError) -> bool {
    e matches KomodoError::InvalidMatrixElements { expected, found, row } && {
        &&& row < rows.len()
        &&& expected == rows[0].len()
        &&& found == rows[row as int].len()
        &&& found != expected
        &&& forall|i: int| 0 <= i < row ==> #[trigger] rows[i].len() == expected
    }
}

/// `bytes` cut or padded with zeros to `size` bytes.
pub open spec fn resize_spec(bytes: Seq<u8>, size: nat) -> Seq<u8> {
    if size <= bytes.len() {
        bytes.subrange(0, size as int)
    } else {
        bytes + Seq::new((size - bytes.len()) as nat, |i: int| 0u8)
    }
}

/// The bytes that the source shards $M^{-1} D$ hold, where `d` holds the `k`
/// shards of length `len`: the columns of $M^{-1} D$ one after the other,
/// merged into bytes and brought to `size` bytes.
pub open spec fn decoded_bytes(inv: Seq<Seq<nat>>, d: Seq<Seq<nat>>, k: nat, len: nat, size: nat) -> Seq<u8> {
    resize_spec(merge_spec(flatten_rows(transpose(mat_mul(inv, d, k, len), k, len))), size)
}

/// The length of the shards that are decoded together.
pub open spec fn decoded_len(shards: Seq<ShardView>) -> nat {
    if shards[0].k == 0 { 0 } else { shards[0].data.len() }
}

/// The shards can be decoded: there are at least $k$ of them, their
/// coefficients and their data have the same lengths, and the coefficients
/// of the first $k$ shards form a square matrix.
pub open spec fn decodable_shape(shards: Seq<ShardView>) -> bool {
    &&& shards.len() > 0
    &&& shards[0].k <= shards.len()
    &&& same_lengths(lc_rows(shards, shards.len()))
    &&& same_lengths(data_rows(shards, shards[0].k))
    &&& shards[0].linear_combination.len() == shards[0].k
}

/// `bytes` is what decoding the shards gives: the first $k$ shards have an
/// invertible matrix of coefficients $M$, and `bytes` are the
/// [`decoded_bytes`] for $M^{-1}$.
pub open spec fn decode_ok(shards: Seq<ShardView>, bytes: Seq<u8>) -> bool {
    let k = shards[0].k;
    &&& decodable_shape(shards)
    &&& exists|inv: Seq<Seq<nat>>| #[trigger] is_inverse(lc_rows(shards, k), inv, k)
        && bytes == decoded_bytes(inv, data_rows(shards, k), k, decoded_len(shards), shards[0].size)
}

/// `e` is the error that decoding the shards gives.
pub open spec fn decode_err(shards: Seq<ShardView>, e: KomodoError) -> bool {
    let k = shards[0].k;
    if shards.len() == 0 {
        e == KomodoError::TooFewShards(0, 0)
    } else if shards.len() < k {
        e matches KomodoError::TooFewShards(a, b) && a == shards.len() && b == k
    } else if !same_lengths(lc_rows(shards, shards.len())) {
        first_mismatch(lc_rows(shards, shards.len()), e)
    } else if !same_lengths(data_rows(shards, k)) {
        first_mismatch(data_rows(shards, k), e)
    } else if shards[0].linear_combination.len() != k {
        e matches KomodoError::NonSquareMatrix(a, b) && a == k && b == shards[0].linear_combination.len()
    } else {
        &&& e matches KomodoError::NonInvertibleMatrix(i) && is_first_zero_pivot(lc_rows(shards, k), k, i as nat)
        &&& singular(lc_rows(shards, k), k)
    }
}

/// The sizes of the matrices that decoding builds fit in memory.
pub open spec fn decode_fits(shards: Seq<Shard>) -> bool {
    shards.len() > 0 ==> {
        &&& shards.len() * shards[0].linear_combination@.len() <= usize::MAX
        &&& shards.len() * shards[0].data@.len() * 31 <= usize::MAX
    }
}

pub(crate) fn copy_scalars(v: &Vec<Scalar>) -> (r: Vec<Scalar>)
    ensures
        r@ == v@,
{
    let mut r: Vec<Scalar> = Vec::new();
    let mut t: usize = 0;
    while t < v.len()
        invariant
            t <= v@.len(),
            r@ == v@.subrange(0, t as int),
        decreases v@.len() - t,
    {
        r.push(v[t]);
        proof {
            assert(r@ =~= v@.subrange(0, t + 1));
        }
        t = t + 1;
    }
    proof {
        assert(r@ =~= v@);
    }
    r
}

/// Reconstructs the original data from a set of encoded, possibly recoded,
/// shards.
///
/// The coefficients of the first $k$ shards make a square matrix $M$ and
/// their data a matrix $D$; the source shards are then $M^{-1} D$, whose
/// elements give the bytes back, cut to the size of the original data.
///
/// This fails when there are too few shards, when the shards do not have
/// the same shapes, or when the first $k$ shards are linearly dependent.
pub fn decode(shards: Vec<Shard>) -> (r: Result<Vec<u8>, KomodoError>)
    requires
        all_shards_wf(shards@),
        decode_fits(shards@),
    ensures
        match r {
            Ok(bytes) => decode_ok(shard_views(shards@), bytes@),
            Err(e) => decode_err(shard_views(shards@), e),
        },
{
    let ghost views = shard_views(shards@);
    if shards.len() == 0 {
        return Err(KomodoError::TooFewShards(0, 0));
    }
    let k = shards[0].k;
    let np = shards.len();
    proof {
        assert(views[0] == shards@[0]@);
    }
    if np < k as usize {
        return Err(KomodoError::TooFewShards(np, k as usize));
    }
    let ku = k as usize;
    let mut lcs: Vec<Vec<Scalar>> = Vec::new();
    let mut i: usize = 0;
    while i < np
        invariant
            np == shards@.len(),
            views == shard_views(shards@),
            all_shards_wf(shards@),
            i <= np,
            lcs@.len() == i,
            forall|a: int| 0 <= a < i ==> #[trigger] lcs@[a]@ == shards@[a].linear_combination@,
        decreases np - i,
    {
        lcs.push(copy_scalars(&shards[i].linear_combination));
        i = i + 1;
    }
    let ghost lcs_v = lcs@;
    proof {
        assert forall|a: int| 0 <= a < np implies all_wf(#[trigger] lcs_v[a]@) by {
            assert(shards@[a].wf());
        }
        assert forall|a: int| 0 <= a < np implies #[trigger] values(lcs_v[a]@) == lc_rows(views, np as nat)[a] by {
            assert(views[a] == shards@[a]@);
        }
    }
    let lc_mat = match Matrix::from_vec_vec(lcs) {
        Ok(m) => m,
        Err(e) => {
            proof {
                let rows = lc_rows(views, np as nat);
                assert forall|a: int| 0 <= a < np implies #[trigger] rows[a].len() == lcs_v[a]@.len() by {
                    assert(values(lcs_v[a]@) == rows[a]);
                }
                assert(!same_lengths(rows)) by {
                    if let KomodoError::InvalidMatrixElements { row, .. } = e {
                        assert(rows[row as int].len() == lcs_v[row as int]@.len());
                        assert(rows[0].len() == lcs_v[0]@.len());
                    }
                }
            }
            return Err(e);
        },
    };
    let ghost w = lc_mat.width as nat;
    proof {
        let rows = lc_rows(views, np as nat);
        assert forall|a: int| 0 <= a < np implies #[trigger] rows[a] == lc_mat@[a] by {
            assert(values(lcs_v[a]@) == rows[a]);
            assert(lcs_v[a]@.len() == w);
            assert(rows[a] =~= lc_mat@[a]);
        }
        assert(same_lengths(rows));
        assert(views[0].linear_combination.len() == w);
    }
    let encoding_mat = lc_mat.truncate(Some(np - ku), None);
    proof {
        assert forall|a: int| 0 <= a < ku implies #[trigger] encoding_mat@[a] == lc_mat@[a] by {
            assert(encoding_mat@[a] =~= lc_mat@[a]);
        }
    }
    let mut ds: Vec<Vec<Scalar>> = Vec::new();
    let mut i: usize = 0;
    while i < ku
        invariant
            np == shards@.len(),
            ku <= np,
            views == shard_views(shards@),
            all_shards_wf(shards@),
            i <= ku,
            ds@.len() == i,
            forall|a: int| 0 <= a < i ==> #[trigger] ds@[a]@ == shards@[a].data@,
        decreases ku - i,
    {
        ds.push(copy_scalars(&shards[i].data));
        i = i + 1;
    }
    let ghost ds_v = ds@;
    proof {
        assert forall|a: int| 0 <= a < ku implies all_wf(#[trigger] ds_v[a]@) by {
            assert(shards@[a].wf());
        }
        assert forall|a: int| 0 <= a < ku implies #[trigger] values(ds_v[a]@) == data_rows(views, k as nat)[a] by {
            assert(views[a] == shards@[a]@);
        }
        if ku > 0 {
            assert(ku * ds_v[0]@.len() <= usize::MAX) by (nonlinear_arith)
                requires
                    ku <= np,
                    np * ds_v[0]@.len() * 31 <= usize::MAX,
            ;
        }
    }
    let shard_mat = match Matrix::from_vec_vec(ds) {
        Ok(m) => m,
        Err(e) => {
            proof {
                let rows = data_rows(views, k as nat);
                assert forall|a: int| 0 <= a < ku implies #[trigger] rows[a].len() == ds_v[a]@.len() by {
                    assert(values(ds_v[a]@) == rows[a]);
                }
                assert(!same_lengths(rows)) by {
                    if let KomodoError::InvalidMatrixElements { row, .. } = e {
                        assert(rows[row as int].len() == ds_v[row as int]@.len());
                        assert(rows[0].len() == ds_v[0]@.len());
                    }
                }
            }
            return Err(e);
        },
    };
    proof {
        let rows = data_rows(views, k as nat);
        assert forall|a: int| 0 <= a < ku implies #[trigger] rows[a] == shard_mat@[a] by {
            assert(values(ds_v[a]@) == rows[a]);
            assert(ds_v[a]@.len() == shard_mat.width);
            assert(rows[a] =~= shard_mat@[a]);
        }
        assert(same_lengths(rows));
        assert(shard_mat@ =~= rows);
        assert(shard_mat.width == decoded_len(views));
    }
    let inv = match encoding_mat.invert() {
        Ok(m) => m,
        Err(e) => {
            proof {
                if w == ku {
                    assert(encoding_mat@ =~= lc_rows(views, k as nat));
                }
            }
            return Err(e);
        },
    };
    proof {
        assert(encoding_mat@ =~= lc_rows(views, k as nat));
        assert(ku * shard_mat.width <= usize::MAX && ku * shard_mat.width * 31 <= usize::MAX) by (nonlinear_arith)
            requires
                ku <= np,
                shard_mat.width == 0 || shard_mat.width == shards@[0].data@.len(),
                np * shards@[0].data@.len() * 31 <= usize::MAX,
        ;
    }
    let prod = match inv.mul(&shard_mat) {
        Ok(m) => m,
        Err(e) => {
            return Err(e);
        },
    };
    let t = prod.transpose();
    proof {
        t.lemma_elements_are_rows();
        assert(t.elements@.len() * 31 <= usize::MAX) by (nonlinear_arith)
            requires
                t.elements@.len() == t.height * t.width,
                t.height == shard_mat.width,
                t.width == ku,
                ku * shard_mat.width * 31 <= usize::MAX || shard_mat.width == 0,
        ;
    }
    let merged = merge_elements_into_bytes(t.elements.as_slice());
    let size = shards[0].size;
    let mut bytes: Vec<u8> = Vec::new();
    let mut j: usize = 0;
    while j < size
        invariant
            j <= size,
            bytes@ == resize_spec(merged@, j as nat),
        decreases size - j,
    {
        if j < merged.len() {
            bytes.push(merged[j]);
        } else {
            bytes.push(0u8);
        }
        proof {
            assert(bytes@ =~= resize_spec(merged@, (j + 1) as nat));
        }
        j = j + 1;
    }
    proof {
        assert(resize_spec(merged@, 0) =~= Seq::<u8>::empty()) by {
            assert(resize_spec(merged@, 0) == merged@.subrange(0, 0));
        }
        let d = data_rows(views, k as nat);
        assert(is_inverse(lc_rows(views, k as nat), inv@, k as nat)) by {
            inv.lemma_wf_is_mat();
        }
        assert(bytes@ == decoded_bytes(inv@, d, k as nat, decoded_len(views), views[0].size));
    }
    Ok(bytes)
}

/// The shard data that the coefficients `lc` give from the source shards
/// whose transpose is `t` ($k \times m$): element `i` is
/// $\sum_c lc_c S_{i, c}$.
pub open spec fn combine_sources(lc: Seq<nat>, t: Seq<Seq<nat>>, k: nat, m: nat) -> Seq<nat> {
    Seq::new(m, |i: int| (dot(lc, t, i, k) % (modulus_p() as int)) as nat)
}

/// `s` is a valid shard of `data` for the code parameter `k`: its data is the
/// combination of the source shards by its canonical coefficients, and it
/// carries the parameters of `data`.
pub open spec fn is_encoding_of(s: ShardView, data: Seq<u8>, k: nat) -> bool {
    let src = source_matrix(data, k);
    &&& s.k == k
    &&& s.size == data.len()
    &&& s.hash == sha256_digest(data)
    &&& s.linear_combination.len() == k
    &&& forall|c: int| 0 <= c < k ==> #[trigger] s.linear_combination[c] < modulus_p()
    &&& s.data == combine_sources(s.linear_combination, transpose(src, src.len(), k), k, src.len())
}

pub proof fn lemma_source_matrix(data: Seq<u8>, k: nat)
    requires
        k > 0,
    ensures
        is_mat(source_matrix(data, k), source_matrix(data, k).len(), k),
        source_matrix(data, k).len() * k == split_spec(data, k).len(),
        flatten_rows(source_matrix(data, k)) == split_spec(data, k),
{
    lemma_modulus_facts();
    let e = split_spec(data, k);
    let src = source_matrix(data, k);
    let m = src.len();
    lemma_padded_len(nb_chunks(data.len()), k);
    let l = e.len() as int;
    let kk = k as int;
    vstd::arithmetic::div_mod::lemma_fundamental_div_mod(l, kk);
    assert(m * k == l) by (nonlinear_arith)
        requires
            l == kk * (l / kk) + l % kk,
            l % kk == 0,
            m == l / kk,
            kk == k,
    ;
    assert forall|i: int, c: int| 0 <= i < m && 0 <= c < k implies #[trigger] src[i][c] < modulus_p() by {
        crate::algebra::linalg::lemma_index_bound(i, c, m as int, k as int);
        vstd::arithmetic::div_mod::lemma_mod_bound(
            crate::field::le_value(crate::algebra::chunk(data, i * k + c)) as int,
            modulus_p() as int,
        );
    }
    assert forall|i: int| 0 <= i < m implies #[trigger] src[i].len() == k by {}
    lemma_flatten_rows(src, k);
    assert forall|t: int| 0 <= t < l implies #[trigger] flatten_rows(src)[t] == e[t] by {
        let i = t / kk;
        let c = t % kk;
        vstd::arithmetic::div_mod::lemma_fundamental_div_mod(t, kk);
        vstd::arithmetic::div_mod::lemma_mod_bound(t, kk);
        assert(0 <= i < m && t == i * k + c) by (nonlinear_arith)
            requires
                t == kk * i + c,
                0 <= c < kk,
                0 <= t < m * kk,
                kk == k,
        {
            if i >= m {
                assert(kk * i >= kk * m);
            }
            if i < 0 {
                assert(kk * i <= -kk);
            }
        }
    }
    assert(flatten_rows(src) =~= e);
}

/// The shards that [`encode`] builds are valid shards of the data.
pub proof fn lemma_encoded_shard_is_encoding(data: Seq<u8>, m: Seq<Seq<nat>>, k: nat, n: nat, j: int)
    requires
        k > 0,
        is_mat(m, k, n),
        0 <= j < n,
    ensures
        is_encoding_of(encoded_shard(data, m, k, n, j), data, k),
{
    let src = source_matrix(data, k);
    let s = encoded_shard(data, m, k, n, j);
    let t = transpose(src, src.len(), k);
    lemma_source_matrix(data, k);
    lemma_mul_is_mat(src, m, src.len(), k, n);
    assert forall|i: int| 0 <= i < src.len() implies #[trigger] s.data[i] == combine_sources(s.linear_combination, t, k, src.len())[i] by {
        let f = |c: int| (src[i][c] * m[c][j]) as int;
        let g = |c: int| (s.linear_combination[c] * t[c][i]) as int;
        assert forall|c: int| 0 <= c < k implies #[trigger] f(c) == g(c) by {
            assert(s.linear_combination[c] == m[c][j]);
            assert(t[c][i] == src[i][c]);
            assert(src[i][c] * m[c][j] == m[c][j] * src[i][c]) by (nonlinear_arith);
        }
        lemma_sum_ext(k, f, g);
    }
    assert(s.data =~= combine_sources(s.linear_combination, t, k, src.len()));
}

proof fn lemma_recode_vec_cong(x: Seq<nat>, a: nat, y: Seq<nat>, b: nat)
    requires
        x.len() == y.len(),
    ensures
        recode_vec(x, a, y, b).len() == x.len(),
        forall|c: int| 0 <= c < x.len() ==> #[trigger] recode_vec(x, a, y, b)[c] < modulus_p(),
        forall|c: int| 0 <= c < x.len() ==> congruent(#[trigger] recode_vec(x, a, y, b)[c] as int, (a * x[c] + b * y[c]) as int),
{
    lemma_modulus_facts();
    let r = recode_vec(x, a, y, b);
    assert forall|c: int| 0 <= c < x.len() implies #[trigger] r[c] < modulus_p() && congruent(r[c] as int, (a * x[c] + b * y[c]) as int) by {
        let xa = (x[c] * a) as int;
        let yb = (y[c] * b) as int;
        assert(xa == a * x[c] && yb == b * y[c]) by (nonlinear_arith)
            requires
                xa == (x[c] * a) as int,
                yb == (y[c] * b) as int,
        ;
        lemma_cong_refl_mod(xa);
        lemma_cong_refl_mod(yb);
        if a == 0 {
            assert(xa == 0) by (nonlinear_arith) requires a == 0, xa == a * x[c];
            assert(r[c] == fmul(y[c], b));
            lemma_cong_trans(r[c] as int, yb, xa + yb);
        } else if b == 0 {
            assert(yb == 0) by (nonlinear_arith) requires b == 0, yb == b * y[c];
            assert(r[c] == fmul(x[c], a));
            lemma_cong_trans(r[c] as int, xa, xa + yb);
        } else {
            assert(r[c] == fadd(fmul(x[c], a), fmul(y[c], b)));
            lemma_cong_add(fmul(x[c], a) as int, xa, fmul(y[c], b) as int, yb);
            lemma_cong_refl_mod((fmul(x[c], a) + fmul(y[c], b)) as int);
            lemma_cong_trans(r[c] as int, (fmul(x[c], a) + fmul(y[c], b)) as int, xa + yb);
        }
    }
}

/// `s` is the combination $\sum_j c_j S_j$ of the `k` source shards $S_j$
/// (the rows of `sources`, each of `len` elements) by its own coefficients
/// $c_j$, which are canonical.
pub open spec fn is_combination_of(s: ShardView, sources: Seq<Seq<nat>>, k: nat, len: nat) -> bool {
    &&& s.linear_combination.len() == k
    &&& forall|c: int| 0 <= c < k ==> #[trigger] s.linear_combination[c] < modulus_p()
    &&& s.data == combine_sources(s.linear_combination, sources, k, len)
}

/// Recoding two combinations of the same source shards gives a combination
/// of them.
proof fn lemma_recode_keeps_combination(s: ShardView, a: nat, o: ShardView, b: nat, t: Seq<Seq<nat>>, k: nat, m: nat)
    requires
        is_combination_of(s, t, k, m),
        is_combination_of(o, t, k, m),
        a < modulus_p(),
        b < modulus_p(),
    ensures
        is_combination_of(recode_spec(s, a, o, b), t, k, m),
{
    lemma_modulus_facts();
    let p = modulus_p() as int;
    let r = recode_spec(s, a, o, b);
    lemma_recode_vec_cong(s.linear_combination, a, o.linear_combination, b);
    lemma_recode_vec_cong(s.data, a, o.data, b);
    let lc = r.linear_combination;
    assert forall|c: int| 0 <= c < k implies congruent(#[trigger] lc[c] as int, (a * s.linear_combination[c] + b * o.linear_combination[c]) as int) by {}
    assert forall|i: int| 0 <= i < m implies #[trigger] r.data[i] == combine_sources(lc, t, k, m)[i] by {
        lemma_dot_comb(lc, s.linear_combination, o.linear_combination, t, i, k, a as int, b as int);
        let ds = dot(s.linear_combination, t, i, k);
        let dp = dot(o.linear_combination, t, i, k);
        let dl = dot(lc, t, i, k);
        assert(s.data[i] == ds % p);
        assert(o.data[i] == dp % p);
        lemma_cong_refl_mod(ds);
        lemma_cong_refl_mod(dp);
        lemma_cong_mul(s.data[i] as int, ds, a as int);
        lemma_cong_mul(o.data[i] as int, dp, b as int);
        lemma_cong_add((a * s.data[i]) as int, a * ds, (b * o.data[i]) as int, b * dp);
        assert(congruent(r.data[i] as int, (a * s.data[i] + b * o.data[i]) as int));
        lemma_cong_trans(r.data[i] as int, (a * s.data[i] + b * o.data[i]) as int, a * ds + b * dp);
        lemma_cong_trans(r.data[i] as int, a * ds + b * dp, dl);
        vstd::arithmetic::div_mod::lemma_small_mod(r.data[i], modulus_p());
    }
    assert(r.data =~= combine_sources(lc, t, k, m));
}

/// Recoding two valid shards of some data gives a valid shard of the same
/// data.
pub proof fn lemma_recode_keeps_encoding(s: ShardView, a: nat, o: ShardView, b: nat, data: Seq<u8>, k: nat)
    requires
        is_encoding_of(s, data, k),
        is_encoding_of(o, data, k),
        a < modulus_p(),
        b < modulus_p(),
    ensures
        is_encoding_of(recode_spec(s, a, o, b), data, k),
{
    let src = source_matrix(data, k);
    lemma_recode_keeps_combination(s, a, o, b, transpose(src, src.len(), k), k, src.len());
}

/// Folding combinations of the same source shards, which share their
/// parameters, gives a combination of them with the same parameters.
proof fn lemma_fold_keeps_combination(shards: Seq<ShardView>, coeffs: Seq<nat>, n: nat, t: Seq<Seq<nat>>, k: nat, m: nat)
    requires
        1 <= n <= shards.len(),
        n <= coeffs.len(),
        forall|i: int| 0 <= i < shards.len() ==> is_combination_of(#[trigger] shards[i], t, k, m),
        forall|i: int| 0 <= i < shards.len() ==> same_parameters(#[trigger] shards[i], shards[0]),
        forall|i: int| 0 <= i < coeffs.len() ==> #[trigger] coeffs[i] < modulus_p(),
    ensures
        is_combination_of(fold_shards(shards, coeffs, n).0, t, k, m),
        same_parameters(fold_shards(shards, coeffs, n).0, shards[0]),
        fold_shards(shards, coeffs, n).1 < modulus_p(),
    decreases n,
{
    lemma_modulus_facts();
    if n > 1 {
        lemma_fold_keeps_combination(shards, coeffs, (n - 1) as nat, t, k, m);
        let acc = fold_shards(shards, coeffs, (n - 1) as nat);
        assert(same_parameters(shards[n - 1], shards[0]));
        lemma_recode_keeps_combination(acc.0, acc.1, shards[n - 1], coeffs[n - 1], t, k, m);
    }
}

/// `a` and `b` have the same `k`, hash and size.
pub open spec fn same_parameters(a: ShardView, b: ShardView) -> bool {
    a.k == b.k && a.hash == b.hash && a.size == b.size
}

/// Combining, with canonical coefficients, combinations of the same source
/// shards that share their parameters gives a combination of them with the
/// same parameters.
proof fn lemma_recode_with_coeffs_keeps_combination(shards: Seq<ShardView>, coeffs: Seq<nat>, t: Seq<Seq<nat>>, k: nat, m: nat)
    requires
        shards.len() == coeffs.len(),
        shards.len() > 0,
        forall|i: int| 0 <= i < shards.len() ==> is_combination_of(#[trigger] shards[i], t, k, m),
        forall|i: int| 0 <= i < shards.len() ==> same_parameters(#[trigger] shards[i], shards[0]),
        forall|i: int| 0 <= i < coeffs.len() ==> #[trigger] coeffs[i] < modulus_p(),
    ensures
        recode_with_coeffs_spec(shards, coeffs) matches Some(r) && is_combination_of(r, t, k, m) && same_parameters(r, shards[0]),
{
    if shards.len() == 1 {
        lemma_recode_keeps_combination(shards[0], coeffs[0], shards[0], 0, t, k, m);
        assert(scale_shard(shards[0], coeffs[0]) == recode_spec(shards[0], coeffs[0], shards[0], 0));
    } else {
        lemma_fold_keeps_combination(shards, coeffs, shards.len(), t, k, m);
    }
}

/// Recoding keeps the invariant of a shard, whatever the source shards: where
/// the shards share their `k`, hash and size, and each is the combination
/// $\sum_j c_j S_j$ of the same source shards $S_j$ by its own coefficients,
/// a shard recoded from them (as [`recode_random`] gives one) is the
/// combination of the same source shards by its coefficients, with the same
/// `k`, hash and size.
pub proof fn lemma_recoded_from_keeps_combination(shards: Seq<ShardView>, s: ShardView, sources: Seq<Seq<nat>>, k: nat, len: nat)
    requires
        recoded_from(shards, s),
        forall|i: int| 0 <= i < shards.len() ==> is_combination_of(#[trigger] shards[i], sources, k, len),
        forall|i: int| 0 <= i < shards.len() ==> same_parameters(#[trigger] shards[i], shards[0]),
    ensures
        shards.len() > 0,
        is_combination_of(s, sources, k, len),
        same_parameters(s, shards[0]),
{
    let c = choose|c: Seq<nat>| #[trigger] recode_with_coeffs_spec(shards, c) == Some(s) && c.len() == shards.len() && (
        forall|i: int| 0 <= i < c.len() ==> #[trigger] c[i] < modulus_p());
    lemma_recode_with_coeffs_keeps_combination(shards, c, sources, k, len);
}

/// Recoding valid shards of some data with coefficients gives a valid shard
/// of the same data.
pub proof fn lemma_recode_with_coeffs_keeps_encoding(shards: Seq<ShardView>, coeffs: Seq<nat>, data: Seq<u8>, k: nat)
    requires
        shards.len() == coeffs.len(),
        shards.len() > 0,
        forall|i: int| 0 <= i < shards.len() ==> is_encoding_of(#[trigger] shards[i], data, k),
        forall|i: int| 0 <= i < coeffs.len() ==> #[trigger] coeffs[i] < modulus_p(),
    ensures
        recode_with_coeffs_spec(shards, coeffs) matches Some(r) && is_encoding_of(r, data, k),
{
    let src = source_matrix(data, k);
    assert(is_encoding_of(shards[0], data, k));
    assert forall|i: int| 0 <= i < shards.len() implies same_parameters(#[trigger] shards[i], shards[0]) by {
        assert(is_encoding_of(shards[i], data, k));
    }
    lemma_recode_with_coeffs_keeps_combination(shards, coeffs, transpose(src, src.len(), k), k, src.len());
}

proof fn lemma_decoded_is_data(data: Seq<u8>, k: nat, shards: Seq<ShardView>, inv: Seq<Seq<nat>>)
    requires
        k > 0,
        shards.len() >= k,
        forall|r: int| 0 <= r < shards.len() ==> is_encoding_of(#[trigger] shards[r], data, k),
        is_inverse(lc_rows(shards, k), inv, k),
    ensures
        decodable_shape(shards),
        is_mat(lc_rows(shards, k), k, k),
        decoded_bytes(inv, data_rows(shards, k), k, decoded_len(shards), shards[0].size) == data,
{
    lemma_modulus_facts();
    let src = source_matrix(data, k);
    let m = src.len();
    let t = transpose(src, m, k);
    let e = lc_rows(shards, k);
    let d = data_rows(shards, k);
    lemma_source_matrix(data, k);
    assert(shards[0].k == k);
    assert forall|r: int| 0 <= r < shards.len() implies #[trigger] lc_rows(shards, shards.len())[r].len() == lc_rows(shards, shards.len())[0].len() by {
        assert(is_encoding_of(shards[r], data, k));
        assert(is_encoding_of(shards[0], data, k));
    }
    assert forall|r: int| 0 <= r < k implies #[trigger] d[r].len() == d[0].len() && d[r].len() == m by {
        assert(is_encoding_of(shards[r], data, k));
        assert(is_encoding_of(shards[0], data, k));
    }
    assert(decodable_shape(shards));
    assert(is_mat(e, k, k)) by {
        assert forall|r: int, c: int| 0 <= r < k && 0 <= c < k implies #[trigger] e[r][c] < modulus_p() by {
            assert(is_encoding_of(shards[r], data, k));
        }
    }
    assert(is_mat(t, k, m));
    assert(d == mat_mul(e, t, k, m)) by {
        assert forall|r: int| 0 <= r < k implies #[trigger] d[r] =~= mat_mul(e, t, k, m)[r] by {
            assert(is_encoding_of(shards[r], data, k));
        }
        assert(d =~= mat_mul(e, t, k, m));
    }
    lemma_mul_assoc(inv, e, t, k, k, k, m);
    lemma_mul_identity_left(t, k, m);
    assert(mat_mul(inv, d, k, m) == t);
    assert(transpose(t, k, m) =~= src) by {
        assert forall|i: int| 0 <= i < m implies #[trigger] transpose(t, k, m)[i] =~= src[i] by {}
    }
    assert(decoded_len(shards) == m);
    lemma_split_merge(data, k);
    assert(merge_spec(split_spec(data, k)).subrange(0, data.len() as int) == data);
}

/// Decoding at least $k$ valid shards of some data, when the coefficients of
/// the first $k$ make an invertible matrix, gives the data back: decoding
/// succeeds, every result that it may return is the data, and no error
/// applies.
pub proof fn lemma_decode_encodings(data: Seq<u8>, k: nat, shards: Seq<ShardView>, inv: Seq<Seq<nat>>)
    requires
        k > 0,
        shards.len() >= k,
        forall|r: int| 0 <= r < shards.len() ==> is_encoding_of(#[trigger] shards[r], data, k),
        is_inverse(lc_rows(shards, k), inv, k),
    ensures
        decode_ok(shards, data),
        forall|bytes: Seq<u8>| decode_ok(shards, bytes) ==> bytes == data,
        forall|e: KomodoError| !decode_err(shards, e),
{
    lemma_decoded_is_data(data, k, shards, inv);
    assert(is_inverse(lc_rows(shards, k), inv, k));
    assert forall|bytes: Seq<u8>| decode_ok(shards, bytes) implies bytes == data by {
        let inv2 = choose|inv2: Seq<Seq<nat>>| #[trigger] is_inverse(lc_rows(shards, k), inv2, k)
            && bytes == decoded_bytes(inv2, data_rows(shards, k), k, decoded_len(shards), shards[0].size);
        lemma_decoded_is_data(data, k, shards, inv2);
    }
    assert forall|e: KomodoError| !decode_err(shards, e) by {
        if let KomodoError::NonInvertibleMatrix(i) = e {
            if singular(lc_rows(shards, k), k) {
                let c = choose|c: nat| dependent_column(lc_rows(shards, k), k, c);
                lemma_inverse_has_no_dependent_column(lc_rows(shards, k), inv, k, c);
            }
        }
    }
}

/// A shard that [`recode_random`] builds from valid shards of some data is a
/// valid shard of the same data.
pub proof fn lemma_recoded_from_keeps_encoding(shards: Seq<ShardView>, s: ShardView, data: Seq<u8>, k: nat)
    requires
        recoded_from(shards, s),
        forall|i: int| 0 <= i < shards.len() ==> is_encoding_of(#[trigger] shards[i], data, k),
    ensures
        is_encoding_of(s, data, k),
{
    let c = choose|c: Seq<nat>| #[trigger] recode_with_coeffs_spec(shards, c) == Some(s) && c.len() == shards.len() && (
        forall|i: int| 0 <= i < c.len() ==> #[trigger] c[i] < modulus_p());
    lemma_recode_with_coeffs_keeps_encoding(shards, c, data, k);
}

/// The shards at `indices` among those that [`encode`] builds.
pub open spec fn selected_shards(data: Seq<u8>, m: Seq<Seq<nat>>, k: nat, n: nat, indices: Seq<int>) -> Seq<ShardView> {
    Seq::new(indices.len(), |r: int| encoded_shard(data, m, k, n, indices[r]))
}

/// Decoding is the inverse of encoding: taking at least $k$ of the shards
/// that [`encode`] builds from `data` with the $k \times n$ matrix `m`, in
/// any order, when the columns of `m` of the first $k$ of them make an
/// invertible matrix, decoding succeeds and gives `data` back.
pub proof fn lemma_decode_inverts_encode(
    data: Seq<u8>,
    m: Seq<Seq<nat>>,
    k: nat,
    n: nat,
    indices: Seq<int>,
    inv: Seq<Seq<nat>>,
)
    requires
        k > 0,
        is_mat(m, k, n),
        indices.len() >= k,
        forall|r: int| 0 <= r < indices.len() ==> 0 <= #[trigger] indices[r] < n,
        is_inverse(
            lc_rows(selected_shards(data, m, k, n, indices), k),
            inv,
            k,
        ),
    ensures
        decode_ok(selected_shards(data, m, k, n, indices), data),
        forall|bytes: Seq<u8>| #[trigger] decode_ok(selected_shards(data, m, k, n, indices), bytes) ==> bytes == data,
        forall|e: KomodoError| !#[trigger] decode_err(selected_shards(data, m, k, n, indices), e),
{
    let shards = selected_shards(data, m, k, n, indices);
    assert forall|r: int| 0 <= r < shards.len() implies is_encoding_of(#[trigger] shards[r], data, k) by {
        lemma_encoded_shard_is_encoding(data, m, k, n, indices[r]);
    }
    lemma_decode_encodings(data, k, shards, inv);
}

/// `x` contains every element of `y`.
pub open spec fn contains_all(x: Seq<usize>, y: Seq<usize>) -> bool {
    forall|i: int| 0 <= i < y.len() ==> #[trigger] x.contains(y[i])
}

fn contains(x: &[usize], z: usize) -> (r: bool)
    ensures
        r == x@.contains(z),
{
    let mut i: usize = 0;
    while i < x.len()
        invariant
            i <= x@.len(),
            forall|t: int| 0 <= t < i ==> x@[t] != z,
        decreases x@.len() - i,
    {
        if x[i] == z {
            return true;
        }
        i = i + 1;
    }
    false
}

/// Whether `x` fully contains one of the lists of `set`.
pub fn contains_one_of(x: &[usize], set: &[Vec<usize>]) -> (r: bool)
    ensures
        r == exists|k: int| 0 <= k < set@.len() && contains_all(x@, #[trigger] set@[k]@),
{
    let mut k: usize = 0;
    while k < set.len()
        invariant
            k <= set@.len(),
            forall|t: int| 0 <= t < k ==> !contains_all(x@, #[trigger] set@[t]@),
        decreases set@.len() - k,
    {
        let y = &set[k];
        let mut all = true;
        let mut i: usize = 0;
        while i < y.len()
            invariant
                i <= y@.len(),
                all == (forall|t: int| 0 <= t < i ==> #[trigger] x@.contains(y@[t])),
            decreases y@.len() - i,
        {
            if !contains(x, y[i]) {
                all = false;
            }
            i = i + 1;
        }
        if all {
            return true;
        }
        k = k + 1;
    }
    false
}

} // verus!
