use vstd::prelude::*;
use itertools::Itertools;
use rusty_machine::linalg::Matrix;
use crate::region::{is_region, region_matrix};
use crate::pvalue::{PValue, Significance, pvalue, pvalue_of, in_unit_interval, lemma_pvalue_in_unit_interval};

verus! {

/// Ways in which training or prediction can fail.
#[derive(PartialEq, Eq, Structural, Clone, Copy, Debug)]
pub enum CpError {
    /// Inputs and targets differ in length, or a target lies outside the
    /// dense label range.
    InvalidInput,
    /// Prediction was asked for before any training.
    NotTrained,
    /// A region prediction was asked for without a significance level.
    EpsilonNotSet,
    /// The scorer could not score some position.
    ScoringError,
    /// Smoothed p-values were asked for; they are not provided.
    NotImplemented,
}

/// A nonconformity measure: how atypical the object at position `j` of an
/// ordered pool is with respect to the rest of the pool.
///
/// Scores are integers; a measure with real-valued scores maps them through
/// any order-preserving encoding, since only their order is used.
pub trait NonConformityScorer<T> {
    /// The score of position `j` in `pool`, or `None` where the measure fails.
    /// A measure that states no model of its own leaves it unspecified.
    closed spec fn score_spec(&self, j: int, pool: Seq<T>) -> Option<i64> {
        arbitrary()
    }

    fn score(&self, j: usize, pool: &[T]) -> (r: Option<i64>)
        requires
            j < pool@.len(),
        ensures
            r == self.score_spec(j as int, pool@),
    ;
}

/// A confidence predictor: it learns from labelled objects, then gives each
/// new object a p-value per label and a region prediction.
pub trait ConfidencePredictor<T> {
    /// The predictor is in a state in which prediction may be asked for.
    closed spec fn can_predict(&self) -> bool {
        true
    }

    fn train(&mut self, inputs: &Vec<T>, targets: &Vec<usize>) -> Result<(), CpError>;

    fn predict(&mut self, inputs: &Vec<T>) -> Result<Matrix<bool>, CpError>
        requires
            old(self).can_predict(),
    ;

    fn predict_confidence(&mut self, inputs: &Vec<T>) -> Result<Vec<Vec<PValue>>, CpError>
        requires
            old(self).can_predict(),
    ;

    fn set_epsilon(&mut self, epsilon: Significance);
}

/// Number of distinct labels among `targets`.
pub open spec fn n_distinct(targets: Seq<usize>) -> nat {
    targets.to_set().len()
}

/// Relies on itertools' `unique().count()`: the number of distinct items.
#[verifier::external_body]
fn count_unique(targets: &Vec<usize>) -> (r: usize)
    ensures
        r as nat == targets@.to_set().len(),
{
    targets.iter().unique().count()
}

/// Training data is usable: one target per input, and every target lies in
/// the dense range `0..n_distinct(targets)`.
pub open spec fn valid_training<T>(inputs: Seq<T>, targets: Seq<usize>) -> bool {
    &&& inputs.len() == targets.len()
    &&& forall|k: int| 0 <= k < targets.len() ==> targets[k] < n_distinct(targets)
}

/// The positions `k` with `targets[k] == y`, in increasing order.
pub open spec fn positions(targets: Seq<usize>, y: int) -> Seq<int>
    decreases targets.len(),
{
    if targets.len() == 0 {
        seq![]
    } else {
        let p = positions(targets.drop_last(), y);
        if targets.last() == y {
            p.push(targets.len() - 1)
        } else {
            p
        }
    }
}

/// `part` groups `inputs` by target: pool `y` holds, in their original
/// order, clones of exactly the inputs whose target is `y`.
pub open spec fn grouped<T: Clone>(
    part: Seq<Seq<T>>,
    inputs: Seq<T>,
    targets: Seq<usize>,
    n_labels: nat,
) -> bool {
    &&& part.len() == n_labels
    &&& forall|y: int|
        0 <= y < n_labels ==> {
            &&& #[trigger] part[y].len() == positions(targets, y).len()
            &&& forall|j: int|
                0 <= j < part[y].len() ==> cloned(
                    inputs[positions(targets, y)[j]],
                    #[trigger] part[y][j],
                )
        }
}

/// What `ncm` says of every position of `pool`.
pub open spec fn scores_of<T, S: NonConformityScorer<T>>(ncm: S, pool: Seq<T>) -> Seq<Option<i64>> {
    Seq::new(pool.len(), |j: int| ncm.score_spec(j, pool))
}

/// Every position was scored.
pub open spec fn all_scored(s: Seq<Option<i64>>) -> bool {
    forall|j: int| 0 <= j < s.len() ==> (#[trigger] s[j]) is Some
}

/// The scores themselves, where all positions were scored.
pub open spec fn unwrap_scores(s: Seq<Option<i64>>) -> Seq<i64> {
    Seq::new(s.len(), |j: int| s[j]->0)
}

/// Appending `c` to `pool` and scoring every position yields `r`: the
/// p-value of `c`, or `None` when some position could not be scored.
pub open spec fn candidate_result<T, S: NonConformityScorer<T>>(
    ncm: S,
    pool: Seq<T>,
    c: T,
    r: Option<PValue>,
) -> bool {
    let s = scores_of(ncm, pool.push(c));
    match r {
        Some(p) => all_scored(s) && p == pvalue_of(unwrap_scores(s)),
        None => !all_scored(s),
    }
}

/// `p` is the p-value of label pool `pool` for object `x`.
pub open spec fn entry_ok<T: Clone, S: NonConformityScorer<T>>(
    ncm: S,
    pool: Seq<T>,
    x: T,
    p: PValue,
) -> bool {
    exists|c: T| cloned(x, c) && #[trigger] candidate_result(ncm, pool, c, Some(p))
}

/// `conf` has one row per object of `inputs` and one column per label, and
/// entry `(i, y)` is the p-value of label `y` for object `i`.
pub open spec fn confidence_ok<T: Clone, S: NonConformityScorer<T>>(
    ncm: S,
    part: Seq<Seq<T>>,
    inputs: Seq<T>,
    conf: Seq<Seq<PValue>>,
) -> bool {
    &&& conf.len() == inputs.len()
    &&& forall|i: int| 0 <= i < conf.len() ==> (#[trigger] conf[i]).len() == part.len()
    &&& forall|i: int, y: int|
        0 <= i < conf.len() && 0 <= y < part.len() ==> entry_ok(
            ncm,
            part[y],
            inputs[i],
            #[trigger] conf[i][y],
        )
}

/// Some object of `inputs`, added to some label pool, leaves a position that
/// `ncm` cannot score.
pub open spec fn scoring_fails<T: Clone, S: NonConformityScorer<T>>(
    ncm: S,
    part: Seq<Seq<T>>,
    inputs: Seq<T>,
) -> bool {
    exists|i: int, y: int, c: T|
        0 <= i < inputs.len() && 0 <= y < part.len() && #[trigger] unscorable(
            ncm,
            part[y],
            inputs[i],
            c,
        )
}

/// `c` is a clone of `x`, and with `c` added, `pool` has a position that
/// `ncm` cannot score.
pub open spec fn unscorable<T: Clone, S: NonConformityScorer<T>>(
    ncm: S,
    pool: Seq<T>,
    x: T,
    c: T,
) -> bool {
    cloned(x, c) && !all_scored(scores_of(ncm, pool.push(c)))
}

/// Adds a clone of `x` to `pool`, scores every position, computes the
/// clone's p-value, and takes the clone out again.
fn score_candidate<T: Clone, S: NonConformityScorer<T>>(ncm: &S, pool: &mut Vec<T>, x: &T) -> (r:
    Option<PValue>)
    requires
        old(pool)@.len() < usize::MAX,
    ensures
        final(pool)@ == old(pool)@,
        exists|c: T| cloned(*x, c) && #[trigger] candidate_result(*ncm, old(pool)@, c, r),
        r matches Some(p) ==> in_unit_interval(p),
{
    let c: T = x.clone();
    let ghost cc = c;
    let ghost base = pool@;
    pool.push(c);
    let n: usize = pool.len();
    let mut scores: Vec<i64> = Vec::new();
    let mut j: usize = 0;
    while j < n
        invariant
            pool@ == base.push(cc),
            base == old(pool)@,
            cloned(*x, cc),
            n == pool@.len(),
            j <= n,
            scores@.len() == j,
            forall|k: int| 0 <= k < j ==> Some(#[trigger] scores@[k]) == scores_of(*ncm, pool@)[k],
        decreases n - j,
    {
        match ncm.score(j, pool.as_slice()) {
            Some(s) => {
                scores.push(s);
            },
            None => {
                pool.pop();
                proof {
                    assert(pool@ =~= base);
                    assert(scores_of(*ncm, base.push(cc))[j as int] is None);
                    assert(candidate_result(*ncm, base, cc, None));
                }
                return None;
            },
        }
        j = j + 1;
    }
    let p: PValue = pvalue(&scores);
    pool.pop();
    proof {
        assert(pool@ =~= base);
        let sc = scores_of(*ncm, base.push(cc));
        assert forall|k: int| 0 <= k < sc.len() implies (#[trigger] sc[k]) is Some by {
            assert(Some(scores@[k]) == sc[k]);
        }
        assert(unwrap_scores(sc) =~= scores@);
        assert(candidate_result(*ncm, base, cc, Some(p)));
    }
    Some(p)
}

/// Fills the table of p-values, one row per object of `inputs` and one
/// column per label pool of `part`, leaving `part` as it was.
fn confidence_table<T: Clone, S: NonConformityScorer<T>>(
    ncm: &S,
    part: &mut Vec<Vec<T>>,
    inputs: &Vec<T>,
) -> (r: Result<Vec<Vec<PValue>>, CpError>)
    requires
        forall|y: int| 0 <= y < old(part)@.len() ==> (#[trigger] old(part)@[y])@.len() < usize::MAX,
    ensures
        pools_view(final(part)@) == pools_view(old(part)@),
        r matches Ok(m) ==> confidence_ok(*ncm, pools_view(old(part)@), inputs@, pools_view(m@)),
        r matches Ok(m) ==> forall|i: int, y: int|
            0 <= i < m@.len() && 0 <= y < old(part)@.len() ==> in_unit_interval(
                #[trigger] m@[i]@[y],
            ),
        r matches Err(e) ==> e == CpError::ScoringError && scoring_fails(
            *ncm,
            pools_view(old(part)@),
            inputs@,
        ),
{
    let ghost orig = pools_view(part@);
    let n_labels: usize = part.len();
    let n_test: usize = inputs.len();
    let mut table: Vec<Vec<PValue>> = Vec::new();
    let mut i: usize = 0;
    while i < n_test
        invariant
            i <= n_test,
            table@.len() == i,
            forall|k: int| 0 <= k < i ==> (#[trigger] table@[k])@.len() == n_labels,
        decreases n_test - i,
    {
        let mut row: Vec<PValue> = Vec::new();
        let mut y: usize = 0;
        while y < n_labels
            invariant
                y <= n_labels,
                row@.len() == y,
            decreases n_labels - y,
        {
            row.push(PValue { num: 0, den: 1 });
            y = y + 1;
        }
        table.push(row);
        i = i + 1;
    }
    let mut y: usize = 0;
    while y < n_labels
        invariant
            n_labels == part@.len(),
            n_test == inputs@.len(),
            orig == pools_view(old(part)@),
            orig.len() == n_labels,
            forall|l: int| 0 <= l < n_labels ==> (#[trigger] orig[l]).len() < usize::MAX,
            pools_view(part@) == orig,
            y <= n_labels,
            table@.len() == n_test,
            forall|k: int| 0 <= k < n_test ==> (#[trigger] table@[k])@.len() == n_labels,
            forall|k: int, l: int|
                0 <= k < n_test && 0 <= l < y ==> entry_ok(
                    *ncm,
                    orig[l],
                    inputs@[k],
                    #[trigger] table@[k]@[l],
                ) && in_unit_interval(table@[k]@[l]),
        decreases n_labels - y,
    {
        let mut pool: Vec<T> = Vec::new();
        part.set_and_swap(y, &mut pool);
        assert(pool@ == orig[y as int]);
        let mut i: usize = 0;
        while i < n_test
            invariant
                n_labels == part@.len(),
                n_test == inputs@.len(),
                orig == pools_view(old(part)@),
                orig.len() == n_labels,
                y < n_labels,
                pool@ == orig[y as int],
                pool@.len() < usize::MAX,
                forall|l: int| 0 <= l < n_labels && l != y ==> (#[trigger] part@[l])@ == orig[l],
                i <= n_test,
                table@.len() == n_test,
                forall|k: int| 0 <= k < n_test ==> (#[trigger] table@[k])@.len() == n_labels,
                forall|k: int, l: int|
                    0 <= k < n_test && 0 <= l < n_labels && (l < y || (l == y && k < i))
                        ==> entry_ok(*ncm, orig[l], inputs@[k], #[trigger] table@[k]@[l])
                        && in_unit_interval(table@[k]@[l]),
            decreases n_test - i,
        {
            match score_candidate(ncm, &mut pool, &inputs[i]) {
                Some(p) => {
                    let ghost before = table@;
                    let mut row: Vec<PValue> = Vec::new();
                    table.set_and_swap(i, &mut row);
                    row.set(y, p);
                    table.set_and_swap(i, &mut row);
                    proof {
                        assert(table@ == before.update(i as int, table@[i as int]));
                        assert(table@[i as int]@ == before[i as int]@.update(y as int, p));
                        let c = choose|c: T|
                            cloned(inputs@[i as int], c) && #[trigger] candidate_result(
                                *ncm,
                                orig[y as int],
                                c,
                                Some(p),
                            );
                        assert(entry_ok(*ncm, orig[y as int], inputs@[i as int], p));
                        assert forall|k: int, l: int|
                            0 <= k < n_test && 0 <= l < n_labels && (l < y || (l == y && k
                                < i + 1)) implies entry_ok(
                            *ncm,
                            orig[l],
                            inputs@[k],
                            #[trigger] table@[k]@[l],
                        ) && in_unit_interval(table@[k]@[l]) by {
                            if k != i || l != y {
                                assert(table@[k]@[l] == before[k]@[l]);
                            }
                        }
                    }
                },
                None => {
                    proof {
                        let c = choose|c: T|
                            cloned(inputs@[i as int], c) && #[trigger] candidate_result(
                                *ncm,
                                orig[y as int],
                                c,
                                None,
                            );
                        assert(unscorable(*ncm, orig[y as int], inputs@[i as int], c));
                        assert(scoring_fails(*ncm, orig, inputs@));
                    }
                    part.set_and_swap(y, &mut pool);
                    assert(pools_view(part@) =~= orig);
                    return Err(CpError::ScoringError);
                },
            }
            i = i + 1;
        }
        part.set_and_swap(y, &mut pool);
        assert(pools_view(part@) =~= orig);
        y = y + 1;
    }
    Ok(table)
}

proof fn lemma_positions_len(targets: Seq<usize>, y: int)
    ensures
        positions(targets, y).len() <= targets.len(),
    decreases targets.len(),
{
    if targets.len() > 0 {
        lemma_positions_len(targets.drop_last(), y);
    }
}

/// Transductive conformal predictor over objects of type `T`, scored by `S`.
pub struct CP<T, S> {
    ncm: S,
    epsilon: Option<Significance>,
    smooth: bool,
    train_inputs: Option<Vec<Vec<T>>>,
}

/// The pools of a partition, as sequences.
pub open spec fn pools_view<T>(p: Seq<Vec<T>>) -> Seq<Seq<T>> {
    Seq::new(p.len(), |y: int| p[y]@)
}

impl<T: Clone, S: NonConformityScorer<T>> CP<T, S> {
    /// The training pools by label, if trained.
    pub closed spec fn partition(&self) -> Option<Seq<Seq<T>>> {
        match self.train_inputs {
            Some(p) => Some(pools_view(p@)),
            None => None,
        }
    }

    pub closed spec fn epsilon_spec(&self) -> Option<Significance> {
        self.epsilon
    }

    pub closed spec fn smooth_spec(&self) -> bool {
        self.smooth
    }

    pub closed spec fn scorer(&self) -> S {
        self.ncm
    }

    /// A predictor that is not trained yet.
    pub fn new(ncm: S, epsilon: Option<Significance>, smooth: bool) -> (r: Self)
        ensures
            r.partition() is None,
            r.epsilon_spec() == epsilon,
            r.smooth_spec() == smooth,
            r.scorer() == ncm,
    {
        CP { ncm, epsilon, smooth, train_inputs: None }
    }

    /// Sets the significance level used by region prediction.
    pub fn set_epsilon(&mut self, epsilon: Significance)
        ensures
            final(self).epsilon_spec() == Some(epsilon),
            final(self).smooth_spec() == old(self).smooth_spec(),
            final(self).scorer() == old(self).scorer(),
            final(self).partition() == old(self).partition(),
    {
        self.epsilon = Some(epsilon);
    }

    /// The training pools, indexed by label.
    pub fn train_inputs(&self) -> (r: Option<&Vec<Vec<T>>>)
        ensures
            self.partition() is None <==> r is None,
            r matches Some(p) ==> self.partition() == Some(pools_view(p@)),
    {
        self.train_inputs.as_ref()
    }

    /// Replaces the training state by `inputs` grouped by their targets.
    pub fn train(&mut self, inputs: &Vec<T>, targets: &Vec<usize>) -> (r: Result<(), CpError>)
        ensures
            final(self).epsilon_spec() == old(self).epsilon_spec(),
            final(self).smooth_spec() == old(self).smooth_spec(),
            final(self).scorer() == old(self).scorer(),
            r is Ok <==> valid_training(inputs@, targets@),
            r is Err ==> r == Err::<(), CpError>(CpError::InvalidInput) && final(self).partition()
                == old(self).partition(),
            r is Ok ==> (final(self).partition() matches Some(part) && grouped(
                part,
                inputs@,
                targets@,
                n_distinct(targets@),
            )),
            r is Ok && inputs@.len() < usize::MAX ==> final(self).pools_can_grow(),
    {
        if inputs.len() != targets.len() {
            return Err(CpError::InvalidInput);
        }
        let n_labels: usize = count_unique(targets);
        let n: usize = targets.len();
        let mut k: usize = 0;
        while k < n
            invariant
                n == targets@.len(),
                n_labels == n_distinct(targets@),
                k <= n,
                forall|m: int| 0 <= m < k ==> targets@[m] < n_labels,
            decreases n - k,
        {
            if targets[k] >= n_labels {
                return Err(CpError::InvalidInput);
            }
            k = k + 1;
        }
        let mut part: Vec<Vec<T>> = Vec::new();
        let mut y: usize = 0;
        while y < n_labels
            invariant
                y <= n_labels,
                part@.len() == y,
                forall|l: int| 0 <= l < y ==> (#[trigger] part@[l])@.len() == 0,
            decreases n_labels - y,
        {
            part.push(Vec::new());
            y = y + 1;
        }
        assert(grouped(pools_view(part@), inputs@, targets@.take(0), n_labels as nat));
        k = 0;
        while k < n
            invariant
                n == targets@.len(),
                n == inputs@.len(),
                k <= n,
                n_labels == n_distinct(targets@),
                forall|m: int| 0 <= m < n ==> targets@[m] < n_labels,
                grouped(pools_view(part@), inputs@, targets@.take(k as int), n_labels as nat),
            decreases n - k,
        {
            let t: usize = targets[k];
            let c: T = inputs[k].clone();
            let ghost before = pools_view(part@);
            let mut pool: Vec<T> = Vec::new();
            part.set_and_swap(t, &mut pool);
            pool.push(c);
            part.set_and_swap(t, &mut pool);
            proof {
                assert(pools_view(part@) =~= before.update(t as int, before[t as int].push(c)));
                let tk = targets@.take(k as int);
                let tk1 = targets@.take(k + 1);
                assert(tk1.drop_last() =~= tk);
                assert forall|l: int| 0 <= l < n_labels implies positions(tk1, l) == if l
                    == t {
                    positions(tk, l).push(k as int)
                } else {
                    positions(tk, l)
                } by {}
                assert(cloned(inputs@[k as int], c));
                assert forall|l: int| 0 <= l < n_labels implies {
                    &&& #[trigger] pools_view(part@)[l].len() == positions(tk1, l).len()
                    &&& forall|j: int|
                        0 <= j < pools_view(part@)[l].len() ==> cloned(
                            inputs@[positions(tk1, l)[j]],
                            #[trigger] pools_view(part@)[l][j],
                        )
                } by {
                    if l == t {
                        assert forall|j: int| 0 <= j < pools_view(part@)[l].len() implies cloned(
                            inputs@[positions(tk1, l)[j]],
                            #[trigger] pools_view(part@)[l][j],
                        ) by {
                            if j < positions(tk, l).len() {
                                assert(pools_view(part@)[l][j] == before[l][j]);
                            }
                        }
                    }
                }
                assert(grouped(pools_view(part@), inputs@, tk1, n_labels as nat));
            }
            k = k + 1;
        }
        assert(targets@.take(n as int) =~= targets@);
        proof {
            assert forall|l: int| 0 <= l < n_labels implies positions(targets@, l).len() <= n by {
                lemma_positions_len(targets@, l);
            }
        }
        self.train_inputs = Some(part);
        Ok(())
    }

    /// Every label pool can take one more object.
    pub open spec fn pools_can_grow(&self) -> bool {
        self.partition() matches Some(p) ==> forall|y: int|
            0 <= y < p.len() ==> (#[trigger] p[y]).len() < usize::MAX
    }

    /// The p-value of every label for every object of `inputs`: one row per
    /// object, one column per label.
    pub fn predict_confidence(&mut self, inputs: &Vec<T>) -> (r: Result<Vec<Vec<PValue>>, CpError>)
        requires
            old(self).pools_can_grow(),
        ensures
            final(self).partition() == old(self).partition(),
            final(self).epsilon_spec() == old(self).epsilon_spec(),
            final(self).smooth_spec() == old(self).smooth_spec(),
            final(self).scorer() == old(self).scorer(),
            old(self).partition() is None <==> (r matches Err(CpError::NotTrained)),
            (old(self).partition() is Some && old(self).smooth_spec()) <==> (r matches Err(
                CpError::NotImplemented,
            )),
            r matches Ok(m) ==> (old(self).partition() matches Some(part) && !old(
                self,
            ).smooth_spec() && confidence_ok(old(self).scorer(), part, inputs@, pools_view(m@))
                && forall|i: int, y: int|
                0 <= i < m@.len() && 0 <= y < part.len() ==> in_unit_interval(
                    #[trigger] m@[i]@[y],
                )),
            (r matches Err(CpError::ScoringError)) ==> (old(self).partition() matches Some(part)
                && !old(self).smooth_spec() && scoring_fails(old(self).scorer(), part, inputs@)),
            r matches Err(e) ==> e == CpError::NotTrained || e == CpError::NotImplemented || e
                == CpError::ScoringError,
    {
        let mut part: Vec<Vec<T>> = match self.train_inputs.take() {
            Some(p) => p,
            None => {
                return Err(CpError::NotTrained);
            },
        };
        if self.smooth {
            self.train_inputs = Some(part);
            return Err(CpError::NotImplemented);
        }
        proof {
            assert forall|y: int| 0 <= y < part@.len() implies (#[trigger] part@[y])@.len()
                < usize::MAX by {
                assert(pools_view(part@)[y] == part@[y]@);
            }
        }
        let r = confidence_table(&self.ncm, &mut part, inputs);
        self.train_inputs = Some(part);
        r
    }

    /// `m` is the region prediction of a trained, non-smoothing predictor
    /// with a significance level, for the objects `inputs`.
    pub open spec fn region_ok(&self, inputs: Seq<T>, m: Matrix<bool>) -> bool {
        match (self.partition(), self.epsilon_spec()) {
            (Some(part), Some(eps)) => !self.smooth_spec() && exists|conf: Seq<Seq<PValue>>|
                confidence_ok(self.scorer(), part, inputs, conf) && #[trigger] is_region(
                    m,
                    conf,
                    part.len(),
                    eps,
                ),
            _ => false,
        }
    }

    /// The region prediction for `inputs`: entry `(i, y)` is true iff the
    /// p-value of label `y` for object `i` is strictly greater than the
    /// significance level.
    pub fn predict(&mut self, inputs: &Vec<T>) -> (r: Result<Matrix<bool>, CpError>)
        requires
            old(self).pools_can_grow(),
        ensures
            final(self).partition() == old(self).partition(),
            final(self).epsilon_spec() == old(self).epsilon_spec(),
            final(self).smooth_spec() == old(self).smooth_spec(),
            final(self).scorer() == old(self).scorer(),
            old(self).epsilon_spec() is None <==> (r matches Err(CpError::EpsilonNotSet)),
            (old(self).epsilon_spec() is Some && old(self).partition() is None) <==> (r matches Err(
                CpError::NotTrained,
            )),
            (old(self).epsilon_spec() is Some && old(self).partition() is Some && old(
                self,
            ).smooth_spec()) <==> (r matches Err(CpError::NotImplemented)),
            r matches Ok(m) ==> old(self).region_ok(inputs@, m),
            (r matches Err(CpError::ScoringError)) ==> (old(self).partition() matches Some(part)
                && old(self).epsilon_spec() is Some && !old(self).smooth_spec() && scoring_fails(
                old(self).scorer(),
                part,
                inputs@,
            )),
            r matches Err(e) ==> e == CpError::EpsilonNotSet || e == CpError::NotTrained || e
                == CpError::NotImplemented || e == CpError::ScoringError,
    {
        let epsilon: Significance = match self.epsilon {
            Some(e) => e,
            None => {
                return Err(CpError::EpsilonNotSet);
            },
        };
        let n_labels: usize = match &self.train_inputs {
            Some(p) => p.len(),
            None => 0,
        };
        let ghost before = *self;
        let pvalues = match self.predict_confidence(inputs) {
            Ok(t) => t,
            Err(e) => {
                return Err(e);
            },
        };
        assert(before.partition() matches Some(part) && part.len() == n_labels);
        proof {
            assert forall|i: int| 0 <= i < pvalues@.len() implies (#[trigger] pvalues@[i])@.len()
                == n_labels by {
                assert(pools_view(pvalues@)[i] == pvalues@[i]@);
            }
        }
        let m = region_matrix(&pvalues, n_labels, epsilon);
        proof {
            assert(Seq::new(pvalues@.len(), |i: int| pvalues@[i]@) =~= pools_view(pvalues@));
            assert(is_region(m, pools_view(pvalues@), n_labels as nat, epsilon));
        }
        Ok(m)
    }
}

impl<T: Clone, S: NonConformityScorer<T>> ConfidencePredictor<T> for CP<T, S> {
    closed spec fn can_predict(&self) -> bool {
        self.pools_can_grow()
    }

    fn train(&mut self, inputs: &Vec<T>, targets: &Vec<usize>) -> Result<(), CpError> {
        CP::train(self, inputs, targets)
    }

    fn predict(&mut self, inputs: &Vec<T>) -> Result<Matrix<bool>, CpError> {
        CP::predict(self, inputs)
    }

    fn predict_confidence(&mut self, inputs: &Vec<T>) -> Result<Vec<Vec<PValue>>, CpError> {
        CP::predict_confidence(self, inputs)
    }

    fn set_epsilon(&mut self, epsilon: Significance) {
        CP::set_epsilon(self, epsilon)
    }
}

} // verus!
