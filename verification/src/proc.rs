use vstd::prelude::*;

verus! {

/// `Some(())` if the condition is true, `None` if it is not: a condition
/// that `?` or `ok_or` can act on.
pub fn ensure(condition: bool) -> (r: Option<()>)
    ensures
        r is Some <==> condition,
{
    match condition {
        true => Some(()),
        false => None,
    }
}

/// The views of a list of buffers.
pub open spec fn buffers(channels: Seq<Vec<i32>>) -> Seq<Seq<i32>> {
    Seq::new(channels.len(), |i: int| channels[i]@)
}

/// The length of the longest buffer.
pub open spec fn longest(channels: Seq<Seq<i32>>) -> nat
    decreases channels.len(),
{
    if channels.len() == 0 {
        0
    } else {
        let before = longest(channels.drop_last());
        if before >= channels.last().len() {
            before
        } else {
            channels.last().len()
        }
    }
}

/// The sum of the samples that the buffers hold at index `j`.
pub open spec fn column_sum(channels: Seq<Seq<i32>>, j: int) -> int
    decreases channels.len(),
{
    if channels.len() == 0 {
        0
    } else {
        column_sum(channels.drop_last(), j) + if 0 <= j < channels.last().len() {
            channels.last()[j] as int
        } else {
            0
        }
    }
}

/// Division that rounds towards zero, as the machine divides.
pub open spec fn truncated(a: int, n: int) -> int {
    if a >= 0 {
        a / n
    } else {
        -((-a) / n)
    }
}

/// Every sample of every buffer lies from `low` to `high`.
pub open spec fn within(channels: Seq<Seq<i32>>, low: int, high: int) -> bool {
    forall|i: int, j: int|
        0 <= i < channels.len() && 0 <= j < channels[i].len() ==> low <= #[trigger] channels[i][j]
            <= high
}

/// The sample of the merged channels at index `j`: the sum of what the
/// channels hold there, a channel that has ended counting as silence,
/// divided by the number of channels and rounded towards zero.
pub open spec fn merged(channels: Seq<Seq<i32>>, j: int) -> int {
    truncated(column_sum(channels, j), channels.len() as int)
}

/// A column of samples from `low` to `high` adds up to no less than `low`
/// and no more than `high` for each channel.
pub proof fn lemma_column_bounds(channels: Seq<Seq<i32>>, j: int, low: int, high: int)
    requires
        low <= 0 <= high,
        within(channels, low, high),
    ensures
        low * channels.len() <= column_sum(channels, j) <= high * channels.len(),
    decreases channels.len(),
{
    let n = channels.len() as int;
    if n > 0 {
        let before = channels.drop_last();
        assert(within(before, low, high)) by {
            assert forall|i: int, k: int|
                0 <= i < before.len() && 0 <= k < before[i].len() implies low
                <= #[trigger] before[i][k] <= high by {
                assert(before[i][k] == channels[i][k]);
            }
        }
        lemma_column_bounds(before, j, low, high);
        if 0 <= j < channels.last().len() {
            assert(low <= channels[n - 1][j] <= high);
        }
        assert(low * n == low * (n - 1) + low && high * n == high * (n - 1) + high)
            by (nonlinear_arith);
    } else {
        assert(low * 0 == 0 && high * 0 == 0);
    }
}

/// The mean of a sum that `count` samples from `low` to `high` can reach
/// lies from `low` to `high`.
pub proof fn lemma_mean_bounds(sum: int, count: int, low: int, high: int)
    requires
        count > 0,
        low <= 0 <= high,
        low * count <= sum <= high * count,
    ensures
        low <= truncated(sum, count) <= high,
{
    if sum >= 0 {
        assert(0 <= sum / count <= high) by (nonlinear_arith)
            requires
                count > 0,
                0 <= sum <= high * count,
        ;
    } else {
        assert((-low) * count == -(low * count)) by (nonlinear_arith);
        assert(0 <= (-sum) / count <= -low) by (nonlinear_arith)
            requires
                count > 0,
                0 <= -sum <= (-low) * count,
        ;
    }
}

/// Merging never exceeds the amplitude of what is merged: where every
/// sample of every channel lies from `-amplitude` to `amplitude`, so does
/// every sample of the merged channels.
pub proof fn lemma_merge_keeps_amplitude(channels: Seq<Seq<i32>>, amplitude: nat, j: int)
    requires
        channels.len() > 0,
        within(channels, -(amplitude as int), amplitude as int),
    ensures
        -(amplitude as int) <= merged(channels, j) <= amplitude,
{
    lemma_column_bounds(channels, j, -(amplitude as int), amplitude as int);
    lemma_mean_bounds(
        column_sum(channels, j),
        channels.len() as int,
        -(amplitude as int),
        amplitude as int,
    );
}

/// Merges channels into one, as long as the longest of them: sample by
/// sample, the sum of the channels divided by their number and rounded
/// towards zero. A channel that has ended counts as silence.
pub fn merge(channels: Vec<Vec<i32>>) -> (result: Vec<i32>)
    ensures
        result@.len() == longest(buffers(channels@)),
        forall|j: int|
            0 <= j < result@.len() ==> #[trigger] result@[j] == merged(buffers(channels@), j),
{
    let ghost all = buffers(channels@);
    let n = channels.len();
    let mut len: usize = 0;
    let mut i: usize = 0;
    while i < n
        invariant
            i <= n,
            n == channels@.len(),
            all == buffers(channels@),
            len == longest(all.take(i as int)),
        decreases n - i,
    {
        proof {
            assert(all.take(i + 1).drop_last() =~= all.take(i as int));
        }
        if channels[i].len() > len {
            len = channels[i].len();
        }
        i += 1;
    }
    proof {
        assert(all.take(i as int) =~= all);
    }
    let mut result: Vec<i32> = Vec::new();
    let mut j: usize = 0;
    while j < len
        invariant
            j <= len,
            n == channels@.len(),
            all == buffers(channels@),
            len == longest(all),
            result@.len() == j,
            forall|k: int| 0 <= k < j ==> #[trigger] result@[k] == merged(all, k),
        decreases len - j,
    {
        let mut sum: i128 = 0;
        let mut i: usize = 0;
        while i < n
            invariant
                i <= n,
                n == channels@.len(),
                all == buffers(channels@),
                sum == column_sum(all.take(i as int), j as int),
            decreases n - i,
        {
            proof {
                assert(all.take(i + 1).drop_last() =~= all.take(i as int));
                lemma_samples_within(all.take(i as int));
                lemma_column_bounds(
                    all.take(i as int),
                    j as int,
                    i32::MIN as int,
                    i32::MAX as int,
                );
                assert(i32::MIN * (i as int) >= i32::MIN * usize::MAX && i32::MAX * (i as int)
                    <= i32::MAX * usize::MAX) by (nonlinear_arith)
                    requires
                        0 <= i <= usize::MAX,
                ;
            }
            if j < channels[i].len() {
                sum = sum + channels[i][j] as i128;
            }
            i += 1;
        }
        proof {
            assert(all.take(i as int) =~= all);
            lemma_samples_within(all);
            lemma_column_bounds(all, j as int, i32::MIN as int, i32::MAX as int);
            lemma_mean_bounds(sum as int, n as int, i32::MIN as int, i32::MAX as int);
        }
        let mean = sum / (n as i128);
        result.push(mean as i32);
        j += 1;
    }
    result
}

/// Samples are samples: each lies within the range of its type.
proof fn lemma_samples_within(channels: Seq<Seq<i32>>)
    ensures
        within(channels, i32::MIN as int, i32::MAX as int),
{
}

} // verus!
