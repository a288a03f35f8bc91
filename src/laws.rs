use vstd::prelude::*;
use crate::cp::{
    NonConformityScorer,
    candidate_result,
    confidence_ok,
    entry_ok,
    grouped,
    n_distinct,
    positions,
    scores_of,
    unwrap_scores,
    valid_training,
};
use crate::pvalue::{PValue, lemma_all_ties_give_one};

verus! {

/// Total number of objects over all pools.
pub open spec fn total_len<T>(part: Seq<Seq<T>>) -> nat
    decreases part.len(),
{
    if part.len() == 0 {
        0
    } else {
        total_len(part.drop_last()) + part.last().len()
    }
}

/// Number of targets below `m`, counted label by label.
spec fn sum_positions(targets: Seq<usize>, m: nat) -> nat
    decreases m,
{
    if m == 0 {
        0
    } else {
        sum_positions(targets, (m - 1) as nat) + positions(targets, m - 1).len()
    }
}

proof fn lemma_sum_positions_step(targets: Seq<usize>, m: nat)
    requires
        targets.len() > 0,
    ensures
        sum_positions(targets, m) == sum_positions(targets.drop_last(), m) + if targets.last()
            < m {
            1nat
        } else {
            0nat
        },
    decreases m,
{
    if m > 0 {
        lemma_sum_positions_step(targets, (m - 1) as nat);
    }
}

proof fn lemma_sum_positions_all(targets: Seq<usize>, n: nat)
    requires
        forall|k: int| 0 <= k < targets.len() ==> targets[k] < n,
    ensures
        sum_positions(targets, n) == targets.len(),
    decreases targets.len(),
{
    if targets.len() == 0 {
        lemma_sum_positions_empty(targets, n);
    } else {
        let d = targets.drop_last();
        assert forall|k: int| 0 <= k < d.len() implies d[k] < n by {
            assert(d[k] == targets[k]);
        }
        lemma_sum_positions_all(d, n);
        lemma_sum_positions_step(targets, n);
    }
}

proof fn lemma_sum_positions_empty(targets: Seq<usize>, m: nat)
    requires
        targets.len() == 0,
    ensures
        sum_positions(targets, m) == 0,
    decreases m,
{
    if m > 0 {
        lemma_sum_positions_empty(targets, (m - 1) as nat);
    }
}

proof fn lemma_total_len_prefix<T: Clone>(
    part: Seq<Seq<T>>,
    inputs: Seq<T>,
    targets: Seq<usize>,
    n: nat,
    m: nat,
)
    requires
        grouped(part, inputs, targets, n),
        m <= n,
    ensures
        total_len(part.take(m as int)) == sum_positions(targets, m),
    decreases m,
{
    if m > 0 {
        lemma_total_len_prefix(part, inputs, targets, n, (m - 1) as nat);
        assert(part.take(m as int).drop_last() =~= part.take(m - 1));
        assert(part[m - 1].len() == positions(targets, m - 1).len());
    }
}

/// After training on a valid set, every object lands in exactly one pool:
/// the pool sizes add up to the number of training objects.
pub proof fn lemma_train_counts<T: Clone>(part: Seq<Seq<T>>, inputs: Seq<T>, targets: Seq<usize>)
    requires
        valid_training(inputs, targets),
        grouped(part, inputs, targets, n_distinct(targets)),
    ensures
        total_len(part) == inputs.len(),
{
    let n = n_distinct(targets);
    lemma_total_len_prefix(part, inputs, targets, n, n);
    assert(part.take(n as int) =~= part);
    lemma_sum_positions_all(targets, n);
}

/// Computing the p-values twice for the same objects against the same pools
/// and scorer gives the same table, for a scorer that scores a pool the same
/// whichever clone of an object it holds.
pub proof fn lemma_confidence_deterministic<T: Clone, S: NonConformityScorer<T>>(
    ncm: S,
    part: Seq<Seq<T>>,
    inputs: Seq<T>,
    a: Seq<Seq<PValue>>,
    b: Seq<Seq<PValue>>,
)
    requires
        confidence_ok(ncm, part, inputs, a),
        confidence_ok(ncm, part, inputs, b),
        forall|pool: Seq<T>, x: T, c1: T, c2: T|
            #![trigger cloned(x, c1), cloned(x, c2), scores_of(ncm, pool.push(c1))]
            cloned(x, c1) && cloned(x, c2) ==> scores_of(ncm, pool.push(c1)) == scores_of(
                ncm,
                pool.push(c2),
            ),
    ensures
        a == b,
{
    assert forall|i: int| 0 <= i < a.len() implies #[trigger] a[i] == b[i] by {
        assert forall|y: int| 0 <= y < a[i].len() implies #[trigger] a[i][y] == b[i][y] by {
            assert(entry_ok(ncm, part[y], inputs[i], a[i][y]));
            assert(entry_ok(ncm, part[y], inputs[i], b[i][y]));
            let c1 = choose|c: T|
                cloned(inputs[i], c) && #[trigger] candidate_result(
                    ncm,
                    part[y],
                    c,
                    Some(a[i][y]),
                );
            let c2 = choose|c: T|
                cloned(inputs[i], c) && #[trigger] candidate_result(
                    ncm,
                    part[y],
                    c,
                    Some(b[i][y]),
                );
            assert(scores_of(ncm, part[y].push(c1)) == scores_of(ncm, part[y].push(c2)));
        }
        assert(a[i] =~= b[i]);
    }
    assert(a =~= b);
}

/// With a scorer that gives every position of every pool the same score,
/// every p-value is exactly one.
pub proof fn lemma_constant_scorer_gives_one<T: Clone, S: NonConformityScorer<T>>(
    ncm: S,
    part: Seq<Seq<T>>,
    inputs: Seq<T>,
    conf: Seq<Seq<PValue>>,
    s: i64,
)
    requires
        confidence_ok(ncm, part, inputs, conf),
        forall|j: int, pool: Seq<T>|
            0 <= j < pool.len() ==> #[trigger] ncm.score_spec(j, pool) == Some(s),
        forall|y: int| 0 <= y < part.len() ==> (#[trigger] part[y]).len() < usize::MAX,
    ensures
        forall|i: int, y: int|
            0 <= i < conf.len() && 0 <= y < part.len() ==> #[trigger] conf[i][y].num
                == conf[i][y].den,
{
    assert forall|i: int, y: int| 0 <= i < conf.len() && 0 <= y < part.len() implies #[trigger] conf[i][y].num
        == conf[i][y].den by {
        assert(entry_ok(ncm, part[y], inputs[i], conf[i][y]));
        let c = choose|c: T|
            cloned(inputs[i], c) && #[trigger] candidate_result(ncm, part[y], c, Some(conf[i][y]));
        let pool = part[y].push(c);
        let sc = unwrap_scores(scores_of(ncm, pool));
        assert forall|k: int| 0 <= k < sc.len() implies sc[k] == sc.last() by {
            assert(ncm.score_spec(k, pool) == Some(s));
            assert(ncm.score_spec(sc.len() - 1, pool) == Some(s));
        }
        lemma_all_ties_give_one(sc);
    }
}

} // verus!
