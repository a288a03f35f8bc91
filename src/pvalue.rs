use vstd::prelude::*;

verus! {

/// Number of scores in `scores` that are at least `s`.
pub open spec fn count_at_least(scores: Seq<i64>, s: i64) -> nat
    decreases scores.len(),
{
    if scores.len() == 0 {
        0
    } else {
        count_at_least(scores.drop_last(), s) + if scores.last() >= s {
            1nat
        } else {
            0nat
        }
    }
}

/// A conformal p-value held as an exact fraction `num / den`.
#[derive(PartialEq, Eq, Structural, Clone, Copy, Debug)]
pub struct PValue {
    pub num: usize,
    pub den: usize,
}

/// A p-value is a fraction in `[0, 1]`.
pub open spec fn in_unit_interval(p: PValue) -> bool {
    p.den > 0 && p.num <= p.den
}

/// The non-smoothed p-value of the last score of `scores`: the share of
/// all scores (the candidate's own included) that are at least as large.
pub open spec fn pvalue_of(scores: Seq<i64>) -> PValue
    recommends
        scores.len() > 0,
{
    PValue { num: count_at_least(scores, scores.last()) as usize, den: scores.len() as usize }
}

proof fn lemma_count_at_least_bound(scores: Seq<i64>, s: i64)
    ensures
        count_at_least(scores, s) <= scores.len(),
    decreases scores.len(),
{
    if scores.len() > 0 {
        lemma_count_at_least_bound(scores.drop_last(), s);
    }
}

proof fn lemma_count_at_least_self(scores: Seq<i64>, s: i64)
    requires
        scores.len() > 0,
        scores.last() == s,
    ensures
        count_at_least(scores, s) >= 1,
{
}

/// Every non-smoothed p-value lies in `[0, 1]`, and is positive since the
/// candidate's own score always counts.
pub proof fn lemma_pvalue_in_unit_interval(scores: Seq<i64>)
    requires
        0 < scores.len() <= usize::MAX,
    ensures
        in_unit_interval(pvalue_of(scores)),
        pvalue_of(scores).num >= 1,
{
    lemma_count_at_least_bound(scores, scores.last());
    lemma_count_at_least_self(scores, scores.last());
}

/// When all scores tie, the p-value is exactly one.
pub proof fn lemma_all_ties_give_one(scores: Seq<i64>)
    requires
        0 < scores.len() <= usize::MAX,
        forall|k: int| 0 <= k < scores.len() ==> scores[k] == scores.last(),
    ensures
        pvalue_of(scores).num == pvalue_of(scores).den,
{
    lemma_count_all(scores, scores.last());
}

proof fn lemma_count_all(scores: Seq<i64>, s: i64)
    requires
        forall|k: int| 0 <= k < scores.len() ==> scores[k] >= s,
    ensures
        count_at_least(scores, s) == scores.len(),
    decreases scores.len(),
{
    if scores.len() > 0 {
        lemma_count_all(scores.drop_last(), s);
    }
}

/// Computes the non-smoothed p-value of the last score in `scores`.
pub fn pvalue(scores: &Vec<i64>) -> (r: PValue)
    requires
        scores@.len() > 0,
    ensures
        r == pvalue_of(scores@),
        in_unit_interval(r),
{
    let n: usize = scores.len();
    let s: i64 = scores[n - 1];
    let mut count: usize = 0;
    let mut k: usize = 0;
    while k < n
        invariant
            n == scores@.len(),
            s == scores@.last(),
            k <= n,
            count == count_at_least(scores@.take(k as int), s),
        decreases n - k,
    {
        proof {
            assert(scores@.take(k + 1).drop_last() =~= scores@.take(k as int));
            lemma_count_at_least_bound(scores@.take(k as int), s);
        }
        if scores[k] >= s {
            count = count + 1;
        }
        k = k + 1;
    }
    proof {
        assert(scores@.take(n as int) =~= scores@);
        lemma_pvalue_in_unit_interval(scores@);
    }
    PValue { num: count, den: n }
}

/// A significance level held as the fraction `num / den`.
#[derive(PartialEq, Eq, Structural, Clone, Copy, Debug)]
pub struct Significance {
    pub num: u64,
    pub den: u64,
}

/// `p > eps`, compared exactly by cross-multiplication.
pub open spec fn exceeds_spec(p: PValue, eps: Significance) -> bool {
    p.num * eps.den > eps.num * p.den
}

proof fn lemma_product_fits(a: int, b: int)
    requires
        0 <= a <= u64::MAX,
        0 <= b <= u64::MAX,
    ensures
        0 <= a * b <= u128::MAX,
{
    assert(0 <= a * b <= u64::MAX * u64::MAX) by (nonlinear_arith)
        requires
            0 <= a <= u64::MAX,
            0 <= b <= u64::MAX,
    ;
}

/// Whether a label with p-value `p` enters the prediction region at
/// significance `eps`: true iff `p` is strictly greater than `eps`.
pub fn exceeds(p: PValue, eps: Significance) -> (r: bool)
    ensures
        r == exceeds_spec(p, eps),
{
    proof {
        lemma_product_fits(p.num as int, eps.den as int);
        lemma_product_fits(eps.num as int, p.den as int);
    }
    let lhs: u128 = (p.num as u128) * (eps.den as u128);
    let rhs: u128 = (eps.num as u128) * (p.den as u128);
    lhs > rhs
}

} // verus!
