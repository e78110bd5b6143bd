use vstd::prelude::*;

verus! {

/// The number of ways to choose `k` things out of `n`.
pub open spec fn binomial(n: nat, k: nat) -> nat
    decreases n,
{
    if k == 0 {
        1
    } else if n == 0 {
        0
    } else {
        binomial((n - 1) as nat, (k - 1) as nat) + binomial((n - 1) as nat, k)
    }
}

/// There is no way to choose more than there is.
pub proof fn lemma_binomial_none(n: nat, k: nat)
    requires
        n < k,
    ensures
        binomial(n, k) == 0,
    decreases n,
{
    if n > 0 {
        lemma_binomial_none((n - 1) as nat, (k - 1) as nat);
        lemma_binomial_none((n - 1) as nat, k);
    }
}

/// Choosing `k` out of `n` and then one of the `k` is choosing one out of
/// `n` and then `k - 1` of the others.
pub proof fn lemma_binomial_absorb(n: nat, k: nat)
    requires
        n >= 1,
        k >= 1,
    ensures
        k * binomial(n, k) == n * binomial((n - 1) as nat, (k - 1) as nat),
    decreases n,
{
    let m = (n - 1) as nat;
    let j = (k - 1) as nat;
    if m == 0 {
        if j > 0 {
            lemma_binomial_none(0, j);
            lemma_binomial_none(0, k);
        }
        assert(k * binomial(n, k) == n * binomial(m, j)) by (nonlinear_arith)
            requires
                n == 1,
                j == k - 1,
                binomial(n, k) == binomial(m, j) + binomial(m, k),
                binomial(m, k) == 0,
                j > 0 ==> binomial(m, j) == 0,
                j == 0 ==> binomial(m, j) == 1,
        ;
    } else {
        // k * C(n, k) = k * C(m, j) + k * C(m, k)
        lemma_binomial_absorb(m, k);
        // k * C(m, k) == m * C(m - 1, j)
        let a = binomial(m, j);
        let b = binomial(m, k);
        let c = binomial((m - 1) as nat, j);
        if j == 0 {
            assert(a == 1);
            assert(c == 1);
            assert(k * (a + b) == n * a) by (nonlinear_arith)
                requires
                    k == 1,
                    a == 1,
                    c == 1,
                    k * b == m * c,
                    n == m + 1,
            ;
        } else {
            lemma_binomial_absorb(m, j);
            // j * C(m, j) == m * C(m - 1, j - 1)
            let d = binomial((m - 1) as nat, (j - 1) as nat);
            assert(a == d + c);
            assert(k * (a + b) == n * a) by (nonlinear_arith)
                requires
                    k == j + 1,
                    n == m + 1,
                    a == d + c,
                    k * b == m * c,
                    j * a == m * d,
            ;
        }
    }
}

/// Along a diagonal of the triangle the numbers do not fall.
pub proof fn lemma_binomial_diagonal(n: nat, k: nat, steps: nat)
    ensures
        binomial(n, k) <= binomial(n + steps, k + steps),
    decreases steps,
{
    if steps > 0 {
        lemma_binomial_diagonal(n, k, (steps - 1) as nat);
    }
}

/// More things give no fewer ways to choose.
pub proof fn lemma_binomial_grows(n: nat, m: nat, k: nat)
    requires
        n <= m,
    ensures
        binomial(n, k) <= binomial(m, k),
    decreases m,
{
    if n < m {
        lemma_binomial_grows(n, (m - 1) as nat, k);
    }
}

/// The numbers of ways to choose up to seven cards out of a deck of 52.
pub proof fn lemma_binomial_deck()
    ensures
        binomial(52, 0) == 1,
        binomial(52, 1) == 52,
        binomial(52, 2) == 1_326,
        binomial(52, 3) == 22_100,
        binomial(52, 4) == 270_725,
        binomial(52, 5) == 2_598_960,
        binomial(52, 6) == 20_358_520,
        binomial(52, 7) == 133_784_560,
{
    lemma_binomial_next(52, 1, 1, 52);
    lemma_binomial_next(51, 1, 1, 51);
    lemma_binomial_next(52, 2, 51, 1326);
    lemma_binomial_next(50, 1, 1, 50);
    lemma_binomial_next(51, 2, 50, 1275);
    lemma_binomial_next(52, 3, 1275, 22100);
    lemma_binomial_next(49, 1, 1, 49);
    lemma_binomial_next(50, 2, 49, 1225);
    lemma_binomial_next(51, 3, 1225, 20825);
    lemma_binomial_next(52, 4, 20825, 270725);
    lemma_binomial_next(48, 1, 1, 48);
    lemma_binomial_next(49, 2, 48, 1176);
    lemma_binomial_next(50, 3, 1176, 19600);
    lemma_binomial_next(51, 4, 19600, 249900);
    lemma_binomial_next(52, 5, 249900, 2598960);
    lemma_binomial_next(47, 1, 1, 47);
    lemma_binomial_next(48, 2, 47, 1128);
    lemma_binomial_next(49, 3, 1128, 18424);
    lemma_binomial_next(50, 4, 18424, 230300);
    lemma_binomial_next(51, 5, 230300, 2349060);
    lemma_binomial_next(52, 6, 2349060, 20358520);
    lemma_binomial_next(46, 1, 1, 46);
    lemma_binomial_next(47, 2, 46, 1081);
    lemma_binomial_next(48, 3, 1081, 17296);
    lemma_binomial_next(49, 4, 17296, 211876);
    lemma_binomial_next(50, 5, 211876, 2118760);
    lemma_binomial_next(51, 6, 2118760, 18009460);
    lemma_binomial_next(52, 7, 18009460, 133784560);
}

/// One step down a diagonal of the triangle.
proof fn lemma_binomial_next(n: nat, k: nat, before: nat, after: nat)
    requires
        n >= 1,
        k >= 1,
        binomial((n - 1) as nat, (k - 1) as nat) == before,
        k * after == n * before,
    ensures
        binomial(n, k) == after,
{
    lemma_binomial_absorb(n, k);
    let b = binomial(n, k);
    assert(b == after) by (nonlinear_arith)
        requires
            k >= 1,
            k * b == n * before,
            k * after == n * before,
    ;
}

/// The number of ways to choose `r` things out of `n`.
pub fn n_choose_r(n: usize, r: usize) -> (ways: usize)
    requires
        binomial(n as nat, r as nat) <= usize::MAX,
    ensures
        ways == binomial(n as nat, r as nat),
{
    if n < r {
        proof {
            lemma_binomial_none(n as nat, r as nat);
        }
        return 0;
    }
    let base = n - r;
    let mut ways: usize = 1;
    let mut i: usize = 0;
    while i < r
        invariant
            i <= r,
            r <= n,
            base == n - r,
            ways == binomial((base + i) as nat, i as nat),
            binomial(n as nat, r as nat) <= usize::MAX,
        decreases r - i,
    {
        i += 1;
        let m = base + i;
        proof {
            lemma_binomial_absorb(m as nat, i as nat);
            lemma_binomial_diagonal(m as nat, i as nat, (r - i) as nat);
            assert(m + (r - i) == n);
        }
        let ghost next = binomial(m as nat, i as nat);
        assert(ways == binomial((m - 1) as nat, (i - 1) as nat));
        assert(ways * m == i * next) by (nonlinear_arith)
            requires
                i * next == m * ways,
        ;
        assert(ways as u128 * m as u128 <= 0xFFFF_FFFF_FFFF_FFFF_FFFF_FFFF_FFFF_FFFF)
            by (nonlinear_arith)
            requires
                ways <= 0xFFFF_FFFF_FFFF_FFFF,
                m <= 0xFFFF_FFFF_FFFF_FFFF,
        ;
        let product: u128 = (ways as u128) * (m as u128);
        assert(product / (i as u128) == next) by (nonlinear_arith)
            requires
                product == i * next,
                i > 0,
        ;
        ways = (product / (i as u128)) as usize;
    }
    ways
}

/// How many of a number of things satisfy a condition.
#[derive(Debug, PartialEq, Eq, Clone, Copy, Structural)]
pub struct SatisfactionFraction {
    pub satisfying: usize,
    pub total: usize,
}

/// How many of the answers are yes.
pub open spec fn count_true(answers: Seq<bool>) -> nat
    decreases answers.len(),
{
    if answers.len() == 0 {
        0
    } else {
        count_true(answers.drop_last()) + if answers.last() {
            1nat
        } else {
            0nat
        }
    }
}

/// Asks `predicate` of every element of `slice`, from the first to the last,
/// and counts the elements for which it answers yes.
pub fn satisfaction_ratio<T, P: Fn(&T) -> bool>(slice: &[T], predicate: P) -> (ratio:
    SatisfactionFraction)
    requires
        forall|i: int| 0 <= i < slice@.len() ==> call_requires(predicate, (&#[trigger] slice@[i],)),
    ensures
        ratio.total == slice@.len(),
        ratio.satisfying <= ratio.total,
        exists|answers: Seq<bool>|
            {
                &&& answers.len() == slice@.len()
                &&& forall|i: int|
                    0 <= i < slice@.len() ==> call_ensures(
                        predicate,
                        (&#[trigger] slice@[i],),
                        answers[i],
                    )
                &&& ratio.satisfying == count_true(answers)
            },
{
    let mut satisfying: usize = 0;
    let mut i: usize = 0;
    let ghost mut answers = Seq::<bool>::empty();
    while i < slice.len()
        invariant
            i <= slice@.len(),
            answers.len() == i,
            satisfying == count_true(answers),
            satisfying <= i,
            forall|k: int|
                0 <= k < slice@.len() ==> call_requires(predicate, (&#[trigger] slice@[k],)),
            forall|k: int|
                0 <= k < i ==> call_ensures(predicate, (&#[trigger] slice@[k],), answers[k]),
        decreases slice@.len() - i,
    {
        let answer = predicate(&slice[i]);
        proof {
            assert(answers.push(answer).drop_last() =~= answers);
            answers = answers.push(answer);
        }
        if answer {
            satisfying += 1;
        }
        i += 1;
    }
    SatisfactionFraction { satisfying, total: slice.len() }
}

} // verus!
