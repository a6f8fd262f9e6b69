//! Averages of many small numbers, worked out by several tasks at once:
//! the tasks to start, the values each of them averages, and their sum.
use vstd::prelude::*;

verus! {

/// How many tasks work at the same time.
pub const NTASKS: usize = 8;

/// The ids of the tasks to start, one for each of the `NTASKS` workers:
/// 0, 1, ..., `NTASKS - 1`.
pub fn do_in_parallel() -> (tasks: Vec<usize>)
    ensures
        tasks@ == Seq::new(NTASKS as nat, |i: int| i as usize),
{
    let mut tasks: Vec<usize> = Vec::new();
    let mut p: usize = 0;
    while p < NTASKS
        invariant
            p <= NTASKS,
            tasks@ == Seq::new(p as nat, |i: int| i as usize),
        decreases NTASKS - p,
    {
        tasks.push(p);
        p = p + 1;
        assert(tasks@ =~= Seq::new(p as nat, |i: int| i as usize));
    }
    tasks
}

/// The sum of the values.
pub open spec fn total(s: Seq<usize>) -> int
    decreases s.len(),
{
    if s.len() == 0 {
        0
    } else {
        total(s.drop_last()) + s.last()
    }
}

proof fn lemma_total_prefix(s: Seq<usize>, k: int)
    requires
        0 <= k <= s.len(),
    ensures
        0 <= total(s.take(k)) <= total(s),
    decreases s.len(),
{
    if s.len() > 0 {
        if k == s.len() {
            assert(s.take(k) =~= s);
            lemma_total_prefix(s.drop_last(), k - 1);
            assert(s.drop_last().take(k - 1) =~= s.drop_last());
        } else {
            lemma_total_prefix(s.drop_last(), k);
            assert(s.drop_last().take(k) =~= s.take(k));
        }
    }
}

/// The sum of the values, which must fit in a `usize`.
pub fn sum_of(values: &[usize]) -> (sum: usize)
    requires
        total(values@) <= usize::MAX,
    ensures
        sum == total(values@),
{
    let mut sum: usize = 0;
    let mut i: usize = 0;
    while i < values.len()
        invariant
            0 <= i <= values.len(),
            total(values@) <= usize::MAX,
            sum == total(values@.take(i as int)),
        decreases values.len() - i,
    {
        proof {
            assert(values@.take(i + 1).drop_last() =~= values@.take(i as int));
            lemma_total_prefix(values@, i + 1);
        }
        sum = sum + values[i];
        i = i + 1;
    }
    assert(values@.take(values.len() as int) =~= values@);
    sum
}

/// A random number, as `rand::random` draws it. Nothing is stated of it.
#[verifier::external_body]
fn random_word() -> (w: usize) {
    rand::random::<usize>()
}

/// Each word modulo 1000.
pub fn values_below_1000(words: &Vec<usize>) -> (values: Vec<usize>)
    ensures
        values.len() == words.len(),
        forall|i: int| 0 <= i < words.len() ==> #[trigger] values@[i] == words@[i] % 1000,
{
    let mut values: Vec<usize> = Vec::new();
    let mut i: usize = 0;
    while i < words.len()
        invariant
            i <= words.len(),
            values.len() == i,
            forall|k: int| 0 <= k < i ==> #[trigger] values@[k] == words@[k] % 1000,
        decreases words.len() - i,
    {
        values.push(words[i] % 1000);
        i = i + 1;
    }
    values
}

/// `n` random values below 1000: `n` random numbers are drawn, and each is
/// taken modulo 1000 (see `values_below_1000`). Which values come depends
/// on the draw.
pub fn random_values(n: usize) -> (values: Vec<usize>)
    ensures
        values.len() == n,
        forall|i: int| 0 <= i < n ==> #[trigger] values@[i] < 1000,
{
    let mut words: Vec<usize> = Vec::new();
    let mut i: usize = 0;
    while i < n
        invariant
            i <= n,
            words.len() == i,
        decreases n - i,
    {
        words.push(random_word());
        i = i + 1;
    }
    values_below_1000(&words)
}

} // verus!
