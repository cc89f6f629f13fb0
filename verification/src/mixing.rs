use crate::decoder::{generates, keeps_time, raised, rendering, Decoder};
use crate::error::{in_channel, Error};
use crate::flatten::flatten;
use crate::proc::{buffers, longest, truncated, within};
use crate::structure::Notes;
use crate::timing::{finished, fresh, run, stop, total_duration};
use vstd::prelude::*;

verus! {

/// What one sample gives to a mix of `count` channels: its share, rounded
/// towards zero.
pub open spec fn share(sample: i32, count: nat) -> int {
    truncated(sample as int, count as int)
}

/// The sum of the shares that the first `n` buffers give at index `j`. A
/// buffer that ends before `j` gives silence.
pub open spec fn shares_sum(channels: Seq<Seq<i32>>, n: nat, j: int) -> int
    decreases n,
{
    if n == 0 || n > channels.len() {
        0
    } else {
        shares_sum(channels, (n - 1) as nat, j) + if 0 <= j < channels[n - 1].len() {
            share(channels[n - 1][j], channels.len())
        } else {
            0
        }
    }
}

/// The sample of the mix at index `j`: the mean of what the channels hold
/// there, a channel that has ended counting as silence.
pub open spec fn mixed(channels: Seq<Seq<i32>>, j: int) -> int {
    shares_sum(channels, channels.len(), j)
}

proof fn lemma_share_bounds(sample: i32, count: nat, low: int, high: int)
    requires
        count > 0,
        low <= 0 <= high,
        low <= sample <= high,
    ensures
        -((-low) / (count as int)) <= share(sample, count) <= high / (count as int),
{
    let n = count as int;
    let s = sample as int;
    if s >= 0 {
        assert(0 <= s / n <= high / n) by (nonlinear_arith)
            requires
                n > 0,
                0 <= s <= high,
        ;
        assert((-low) / n >= 0) by (nonlinear_arith)
            requires
                n > 0,
                -low >= 0,
        ;
    } else {
        assert(0 <= (-s) / n <= (-low) / n) by (nonlinear_arith)
            requires
                n > 0,
                0 <= -s <= -low,
        ;
        assert(high / n >= 0) by (nonlinear_arith)
            requires
                n > 0,
                high >= 0,
        ;
    }
}

proof fn lemma_share_within(sample: i32, count: nat)
    requires
        count > 0,
    ensures
        i32::MIN <= share(sample, count) <= i32::MAX,
{
    lemma_share_bounds(sample, count, i32::MIN as int, i32::MAX as int);
    let n = count as int;
    assert((i32::MAX as int) / n <= i32::MAX && (-(i32::MIN as int)) / n <= -(i32::MIN as int))
        by (nonlinear_arith)
        requires
            n > 0,
    ;
}

proof fn lemma_shares_sum_bounds(channels: Seq<Seq<i32>>, n: nat, j: int, low: int, high: int)
    requires
        n <= channels.len(),
        low <= 0 <= high,
        within(channels, low, high),
    ensures
        -(n * ((-low) / (channels.len() as int))) <= shares_sum(channels, n, j) <= n * (high / (
        channels.len() as int)),
        low <= shares_sum(channels, n, j) <= high,
    decreases n,
{
    let count = channels.len() as int;
    if n > 0 {
        lemma_shares_sum_bounds(channels, (n - 1) as nat, j, low, high);
        if 0 <= j < channels[n - 1].len() {
            assert(low <= channels[n - 1][j] <= high);
            lemma_share_bounds(channels[n - 1][j], channels.len(), low, high);
        }
        let qh = high / count;
        let ql = (-low) / count;
        assert(0 <= qh && 0 <= ql && count * qh <= high && count * ql <= -low)
            by (nonlinear_arith)
            requires
                count > 0,
                high >= 0,
                -low >= 0,
                qh == high / count,
                ql == (-low) / count,
        ;
        assert(n * qh == (n - 1) * qh + qh && n * ql == (n - 1) * ql + ql) by (nonlinear_arith);
        assert(n * qh <= count * qh && n * ql <= count * ql) by (nonlinear_arith)
            requires
                0 <= n <= count,
                0 <= qh,
                0 <= ql,
        ;
    } else {
        assert(0 * ((-low) / count) == 0 && 0 * (high / count) == 0);
    }
}

/// Mixing never exceeds the amplitude of what is mixed: where every
/// sample of every channel lies from `-amplitude` to `amplitude`, so does
/// every sample of the mix.
pub proof fn lemma_mix_keeps_amplitude(channels: Seq<Seq<i32>>, amplitude: nat, j: int)
    requires
        within(channels, -(amplitude as int), amplitude as int),
    ensures
        -(amplitude as int) <= mixed(channels, j) <= amplitude,
{
    lemma_shares_sum_bounds(channels, channels.len(), j, -(amplitude as int), amplitude as int);
}

/// The sum of shares over the buffers taken in another order.
pub open spec fn ordered_sum(channels: Seq<Seq<i32>>, order: Seq<usize>, n: nat, j: int) -> int
    decreases n,
{
    if n == 0 || n > order.len() {
        0
    } else {
        let i = order[n - 1] as int;
        ordered_sum(channels, order, (n - 1) as nat, j) + if 0 <= i < channels.len() && 0 <= j
            < channels[i].len() {
            share(channels[i][j], channels.len())
        } else {
            0
        }
    }
}

proof fn lemma_ordered_sum_local(
    channels: Seq<Seq<i32>>,
    a: Seq<usize>,
    b: Seq<usize>,
    n: nat,
    j: int,
)
    requires
        n <= a.len(),
        n <= b.len(),
        forall|t: int| 0 <= t < n ==> a[t] == b[t],
    ensures
        ordered_sum(channels, a, n, j) == ordered_sum(channels, b, n, j),
    decreases n,
{
    if n > 0 {
        lemma_ordered_sum_local(channels, a, b, (n - 1) as nat, j);
    }
}

/// Exchanging two neighbours in the order changes no sum.
proof fn lemma_swap_keeps_sum(
    channels: Seq<Seq<i32>>,
    a: Seq<usize>,
    b: Seq<usize>,
    p: int,
    n: nat,
    j: int,
)
    requires
        a.len() == b.len(),
        0 <= p,
        p + 1 < a.len(),
        b[p] == a[p + 1],
        b[p + 1] == a[p],
        forall|t: int| 0 <= t < a.len() && t != p && t != p + 1 ==> a[t] == b[t],
        n <= a.len(),
        n != p + 1,
    ensures
        ordered_sum(channels, a, n, j) == ordered_sum(channels, b, n, j),
    decreases n,
{
    if n <= p {
        lemma_ordered_sum_local(channels, a, b, n, j);
    } else if n == p + 2 {
        lemma_ordered_sum_local(channels, a, b, p as nat, j);
        assert(ordered_sum(channels, a, (p + 1) as nat, j) == ordered_sum(
            channels,
            a,
            p as nat,
            j,
        ) + if 0 <= (a[p] as int) < channels.len() && 0 <= j < channels[a[p] as int].len() {
            share(channels[a[p] as int][j], channels.len())
        } else {
            0
        });
        assert(ordered_sum(channels, b, (p + 1) as nat, j) == ordered_sum(
            channels,
            b,
            p as nat,
            j,
        ) + if 0 <= (b[p] as int) < channels.len() && 0 <= j < channels[b[p] as int].len() {
            share(channels[b[p] as int][j], channels.len())
        } else {
            0
        });
    } else {
        lemma_swap_keeps_sum(channels, a, b, p, (n - 1) as nat, j);
    }
}

/// In the order in which the buffers are given, the ordered sum is the
/// sum.
proof fn lemma_identity_order(channels: Seq<Seq<i32>>, order: Seq<usize>, n: nat, j: int)
    requires
        n <= order.len(),
        n <= channels.len(),
        forall|t: int| 0 <= t < n ==> order[t] == t,
    ensures
        ordered_sum(channels, order, n, j) == shares_sum(channels, n, j),
    decreases n,
{
    if n > 0 {
        lemma_identity_order(channels, order, (n - 1) as nat, j);
    }
}

/// The buffer at place `i` has its turn in the order.
pub open spec fn listed(order: Seq<usize>, i: int) -> bool {
    exists|t: int| 0 <= t < order.len() && #[trigger] order[t] == i
}

/// The buffers in the order in which they are taken.
pub open spec fn reordered(channels: Seq<Seq<i32>>, order: Seq<usize>) -> Seq<Seq<i32>> {
    Seq::new(
        order.len(),
        |t: int|
            if 0 <= (order[t] as int) < channels.len() {
                channels[order[t] as int]
            } else {
                Seq::empty()
            },
    )
}

/// The sum over the buffers taken in an order is the sum over the
/// reordered buffers.
proof fn lemma_ordered_as_shares(channels: Seq<Seq<i32>>, order: Seq<usize>, n: nat, j: int)
    requires
        n <= order.len() == channels.len(),
    ensures
        ordered_sum(channels, order, n, j) == shares_sum(reordered(channels, order), n, j),
    decreases n,
{
    if n > 0 {
        lemma_ordered_as_shares(channels, order, (n - 1) as nat, j);
    }
}

proof fn lemma_ordered_is_sample(channels: Seq<Seq<i32>>, order: Seq<usize>, n: nat, j: int)
    requires
        n <= order.len() == channels.len(),
    ensures
        i32::MIN <= ordered_sum(channels, order, n, j) <= i32::MAX,
{
    lemma_ordered_as_shares(channels, order, n, j);
    lemma_shares_sum_bounds(
        reordered(channels, order),
        n,
        j,
        i32::MIN as int,
        i32::MAX as int,
    );
}

/// No buffer is longer than the longest, and one of them is that long.
pub proof fn lemma_longest(channels: Seq<Seq<i32>>)
    ensures
        forall|i: int|
            0 <= i < channels.len() ==> (#[trigger] channels[i]).len() <= longest(channels),
        channels.len() > 0 ==> exists|i: int|
            0 <= i < channels.len() && (#[trigger] channels[i]).len() == longest(channels),
        channels.len() == 0 ==> longest(channels) == 0,
    decreases channels.len(),
{
    if channels.len() > 0 {
        let before = channels.drop_last();
        lemma_longest(before);
        assert forall|i: int| 0 <= i < channels.len() implies (#[trigger] channels[i]).len()
            <= longest(channels) by {
            if i < before.len() {
                assert(before[i] == channels[i]);
            }
        }
        if before.len() > 0 && longest(before) >= channels.last().len() {
            let i = choose|i: int|
                0 <= i < before.len() && (#[trigger] before[i]).len() == longest(before);
            assert(channels[i] == before[i]);
        } else {
            assert(channels[channels.len() - 1].len() == longest(channels));
        }
    }
}

proof fn lemma_longest_is_last(channels: Seq<Vec<i32>>, order: Seq<usize>)
    requires
        order.len() == channels.len(),
        forall|t: int| 0 <= t < order.len() ==> (#[trigger] order[t]) < channels.len(),
        forall|s: int, t: int|
            0 <= s < t < order.len() ==> taken_before(
                channels,
                #[trigger] order[s],
                #[trigger] order[t],
            ),
        forall|i: int| 0 <= i < channels.len() ==> #[trigger] listed(order, i),
    ensures
        channels.len() > 0 ==> longest(buffers(channels)) == channels[order[order.len() - 1] as int]@
            .len(),
        channels.len() == 0 ==> longest(buffers(channels)) == 0,
{
    let all = buffers(channels);
    lemma_longest(all);
    if channels.len() > 0 {
        let i = choose|i: int| 0 <= i < all.len() && (#[trigger] all[i]).len() == longest(all);
        assert(listed(order, i));
        let t = choose|t: int| 0 <= t < order.len() && #[trigger] order[t] == i;
        let last = order[order.len() - 1] as int;
        if t < order.len() - 1 {
            assert(taken_before(channels, order[t], order[order.len() - 1]));
        }
        assert(all[last].len() <= longest(all));
    }
}

/// The buffer at place `a` is taken before the buffer at place `b`: it is
/// shorter, or as long and given earlier.
pub open spec fn taken_before(channels: Seq<Vec<i32>>, a: usize, b: usize) -> bool {
    channels[a as int]@.len() < channels[b as int]@.len() || (channels[a as int]@.len()
        == channels[b as int]@.len() && a < b)
}

/// The places of the buffers from the shortest to the longest; buffers of
/// one length stay in the order in which they were given.
pub fn by_length(channels: &Vec<Vec<i32>>) -> (order: Vec<usize>)
    ensures
        order@.len() == channels@.len(),
        forall|t: int| 0 <= t < order@.len() ==> (#[trigger] order@[t]) < channels@.len(),
        forall|i: int| 0 <= i < channels@.len() ==> #[trigger] listed(order@, i),
        forall|s: int, t: int|
            0 <= s < t < order@.len() ==> taken_before(
                channels@,
                #[trigger] order@[s],
                #[trigger] order@[t],
            ),
        forall|j: int|
            ordered_sum(buffers(channels@), order@, order@.len(), j) == mixed(
                buffers(channels@),
                j,
            ),
{
    let n = channels.len();
    let ghost all = buffers(channels@);
    let mut order: Vec<usize> = Vec::new();
    let mut i: usize = 0;
    while i < n
        invariant
            i <= n,
            n == channels@.len(),
            order@.len() == i,
            forall|t: int| 0 <= t < i ==> order@[t] == t,
        decreases n - i,
    {
        order.push(i);
        i += 1;
    }
    proof {
        assert forall|j: int| ordered_sum(all, order@, n as nat, j) == mixed(all, j) by {
            lemma_identity_order(all, order@, n as nat, j);
        }
        assert forall|i: int| 0 <= i < n implies #[trigger] listed(order@, i) by {
            assert(order@[i] == i);
        }
    }
    let mut sorted: usize = 0;
    while sorted < n
        invariant
            sorted <= n,
            n == channels@.len(),
            all == buffers(channels@),
            order@.len() == n,
            forall|t: int| 0 <= t < sorted ==> (#[trigger] order@[t]) < sorted,
            forall|t: int| sorted <= t < n ==> (#[trigger] order@[t]) == t,
            forall|s: int, t: int|
                0 <= s < t < sorted ==> taken_before(
                    channels@,
                    #[trigger] order@[s],
                    #[trigger] order@[t],
                ),
            forall|j: int| ordered_sum(all, order@, n as nat, j) == mixed(all, j),
            forall|i: int| 0 <= i < n ==> #[trigger] listed(order@, i),
        decreases n - sorted,
    {
        let mut p: usize = sorted;
        while p > 0 && channels[order[p - 1]].len() > channels[order[p]].len()
            invariant
                p <= sorted < n,
                n == channels@.len(),
                all == buffers(channels@),
                order@.len() == n,
                order@[p as int] == sorted,
                forall|t: int| 0 <= t <= sorted && t != p ==> (#[trigger] order@[t]) < sorted,
                forall|t: int| sorted < t < n ==> (#[trigger] order@[t]) == t,
                forall|s: int, t: int|
                    0 <= s < t <= sorted && s != p && t != p ==> taken_before(
                        channels@,
                        #[trigger] order@[s],
                        #[trigger] order@[t],
                    ),
                forall|t: int|
                    p < t <= sorted ==> channels@[sorted as int]@.len()
                        < channels@[#[trigger] order@[t] as int]@.len(),
                forall|j: int| ordered_sum(all, order@, n as nat, j) == mixed(all, j),
                forall|i: int| 0 <= i < n ==> #[trigger] listed(order@, i),
            decreases p,
        {
            let ghost before = order@;
            let low = order[p - 1];
            let high = order[p];
            order.set(p - 1, high);
            order.set(p, low);
            proof {
                assert forall|j: int| ordered_sum(all, order@, n as nat, j) == mixed(all, j) by {
                    lemma_swap_keeps_sum(all, before, order@, p - 1, n as nat, j);
                }
                assert forall|i: int| 0 <= i < n implies #[trigger] listed(order@, i) by {
                    assert(listed(before, i));
                    let t = choose|t: int| 0 <= t < n && #[trigger] before[t] == i;
                    if t == p - 1 {
                        assert(order@[p as int] == i);
                    } else if t == p {
                        assert(order@[p - 1] == i);
                    } else {
                        assert(order@[t] == i);
                    }
                }
                assert forall|s: int, t: int|
                    0 <= s < t <= sorted && s != p - 1 && t != p - 1 implies taken_before(
                    channels@,
                    #[trigger] order@[s],
                    #[trigger] order@[t],
                ) by {
                    if t == p {
                        assert(order@[t] == before[p - 1]);
                        assert(order@[s] == before[s]);
                        assert(taken_before(channels@, before[s], before[p - 1]));
                    } else if s == p {
                        assert(order@[s] == before[p - 1]);
                        assert(order@[t] == before[t]);
                        assert(taken_before(channels@, before[p - 1], before[t]));
                    } else {
                        assert(order@[s] == before[s] && order@[t] == before[t]);
                    }
                }
            }
            p -= 1;
        }
        proof {
            assert forall|s: int, t: int| 0 <= s < t < sorted + 1 implies taken_before(
                channels@,
                #[trigger] order@[s],
                #[trigger] order@[t],
            ) by {
                if t == p {
                    if s == p - 1 {
                    } else {
                        assert(taken_before(channels@, order@[s], order@[p - 1]));
                    }
                } else if s == p {
                }
            }
        }
        sorted += 1;
    }
    order
}

/// Mixes the buffers of the channels of a track into one buffer, as long
/// as the longest of them. The buffers are taken from the shortest to the
/// longest, and each sample gives its share to the mix: the sample
/// divided by the number of channels. A channel that has ended is silent.
pub fn mix_samples(channels: &Vec<Vec<i32>>) -> (mix: Vec<i32>)
    ensures
        mix@.len() == longest(buffers(channels@)),
        forall|j: int| 0 <= j < mix@.len() ==> #[trigger] mix@[j] == mixed(buffers(channels@), j),
{
    let ghost all = buffers(channels@);
    let n = channels.len();
    let order = by_length(channels);
    let mut acc: Vec<i32> = Vec::new();
    let mut k: usize = 0;
    while k < n
        invariant
            k <= n,
            n == channels@.len(),
            all == buffers(channels@),
            order@.len() == n,
            forall|t: int| 0 <= t < n ==> (#[trigger] order@[t]) < n,
            forall|s: int, t: int|
                0 <= s < t < n ==> taken_before(
                    channels@,
                    #[trigger] order@[s],
                    #[trigger] order@[t],
                ),
            forall|i: int| 0 <= i < n ==> #[trigger] listed(order@, i),
            forall|j: int| ordered_sum(all, order@, n as nat, j) == mixed(all, j),
            k == 0 ==> acc@.len() == 0,
            k > 0 ==> acc@.len() == channels@[order@[k - 1] as int]@.len(),
            forall|j: int|
                0 <= j < acc@.len() ==> #[trigger] acc@[j] == ordered_sum(all, order@, k as nat, j),
            forall|j: int| j >= acc@.len() ==> ordered_sum(all, order@, k as nat, j) == 0,
        decreases n - k,
    {
        let v = &channels[order[k]];
        let ghost i = order@[k as int] as int;
        proof {
            assert(all[i] == v@);
            if k > 0 {
                assert(taken_before(channels@, order@[k - 1], order@[k as int]));
            }
        }
        let ghost done = (k + 1) as nat;
        let mut next: Vec<i32> = Vec::new();
        let mut j: usize = 0;
        while j < v.len()
            invariant
                j <= v@.len(),
                k < n,
                n == channels@.len(),
                all == buffers(channels@),
                order@.len() == n,
                i == order@[k as int],
                0 <= i < n,
                all[i] == v@,
                acc@.len() <= v@.len(),
                next@.len() == j,
                forall|x: int|
                    0 <= x < acc@.len() ==> #[trigger] acc@[x] == ordered_sum(
                        all,
                        order@,
                        k as nat,
                        x,
                    ),
                forall|x: int| x >= acc@.len() ==> ordered_sum(all, order@, k as nat, x) == 0,
                done == k + 1,
                forall|x: int|
                    0 <= x < j ==> #[trigger] next@[x] == ordered_sum(all, order@, done, x),
            decreases v@.len() - j,
        {
            let exact = (v[j] as i128) / (n as i128);
            proof {
                lemma_share_within(v@[j as int], n as nat);
            }
            let part = exact as i32;
            let carried: i32 = if j < acc.len() {
                acc[j]
            } else {
                0
            };
            proof {
                lemma_ordered_is_sample(all, order@, done, j as int);
                assert(part == share(v@[j as int], n as nat));
                assert(carried == ordered_sum(all, order@, k as nat, j as int));
            }
            next.push(carried + part);
            j += 1;
        }
        proof {
            let done = (k + 1) as nat;
            assert forall|x: int| x >= next@.len() implies #[trigger] ordered_sum(
                all,
                order@,
                done,
                x,
            ) == 0 by {
                assert(ordered_sum(all, order@, k as nat, x) == 0);
            }
        }
        acc = next;
        k += 1;
    }
    proof {
        lemma_longest_is_last(channels@, order@);
    }
    acc
}

/// `mix` is the mix of the buffers: as long as the longest, and at each
/// index the mean of what the buffers hold there.
pub open spec fn is_mix(channels: Seq<Seq<i32>>, mix: Seq<i32>) -> bool {
    mix.len() == longest(channels) && forall|j: int|
        0 <= j < mix.len() ==> #[trigger] mix[j] == mixed(channels, j)
}

/// One voice of a track: a score and the generator that gives its notes
/// their sound.
pub struct Channel<G> {
    /// Gives the samples of a note from its number of samples, its index
    /// in the set, its octave and its volume.
    pub generator: G,
    /// The score of the channel.
    pub notes: Notes,
}

/// A track: channels that play together at one tempo.
pub struct Track<G> {
    /// Beats per minute.
    pub bpm: u16,
    /// The voices of the track.
    pub channels: Vec<Channel<G>>,
}

/// How the score of a channel runs through a fresh decoder at a tempo.
pub open spec fn channel_run<G>(channel: Channel<G>, bpm: u16) -> crate::timing::Run {
    run(fresh(bpm), flatten(channel.notes@.score))
}

/// `samples` is what a channel sounds like at a tempo: its score decodes,
/// and the samples render its events with its generator.
pub open spec fn plays<G: Fn(usize, u8, u8, u8) -> Vec<i32>>(
    channel: Channel<G>,
    bpm: u16,
    samples: Seq<i32>,
) -> bool {
    channel_run(channel, bpm).failure is None && rendering(
        finished(channel_run(channel, bpm)),
        channel.generator,
        samples,
    ) && (keeps_time(channel.generator) ==> samples.len() == total_duration(
        finished(channel_run(channel, bpm)),
    ))
}

/// The channel at place `i` fails, and no channel before it does.
pub open spec fn fails_first<G>(channels: Seq<Channel<G>>, bpm: u16, i: int) -> bool {
    0 <= i < channels.len() && channel_run(channels[i], bpm).failure is Some && forall|t: int|
        0 <= t < i ==> (#[trigger] channel_run(channels[t], bpm)).failure is None
}

/// The error is the failure of the first channel that fails.
pub open spec fn first_failure<G, T>(
    channels: Seq<Channel<G>>,
    bpm: u16,
    r: Result<T, Error<'static>>,
) -> bool {
    exists|i: int| #[trigger]
        fails_first(channels, bpm, i) && raised(
            r,
            in_channel(stop(channel_run(channels[i], bpm)), i as usize),
        )
}

/// No channel fails.
pub open spec fn all_decode<G>(channels: Seq<Channel<G>>, bpm: u16) -> bool {
    forall|i: int|
        0 <= i < channels.len() ==> (#[trigger] channel_run(channels[i], bpm)).failure is None
}

impl<G: Fn(usize, u8, u8, u8) -> Vec<i32>> Channel<G> {
    /// A channel that plays `notes` with the sound of `generator`.
    pub fn new(generator: G, notes: Notes) -> (channel: Channel<G>)
        ensures
            channel.generator == generator,
            channel.notes == notes,
    {
        Channel { generator, notes }
    }

    /// Decodes the score of the channel at a tempo, from the default state
    /// of the decoder.
    pub fn process(&self, bpm: u16) -> (r: Result<Vec<i32>, Error<'static>>)
        requires
            bpm > 0,
            generates(self.generator),
        ensures
            match channel_run(*self, bpm).failure {
                Some(_) => raised(r, stop(channel_run(*self, bpm))),
                None => r matches Ok(samples) && plays(*self, bpm, samples@),
            },
    {
        let mut decoder = Decoder::new(bpm);
        decoder.decode(&self.notes, &self.generator)
    }
}

impl<G: Fn(usize, u8, u8, u8) -> Vec<i32>> Track<G> {
    /// A track of `channels` at `bpm` beats per minute.
    pub fn new(bpm: u16, channels: Vec<Channel<G>>) -> (track: Track<G>)
        ensures
            track.bpm == bpm,
            track.channels == channels,
    {
        Track { bpm, channels }
    }

    /// Decodes every channel of the track, one after the other. The first
    /// channel that fails ends the work with its error.
    pub fn process(&self) -> (r: Result<Vec<Vec<i32>>, Error<'static>>)
        requires
            self.bpm > 0,
            forall|i: int|
                0 <= i < self.channels@.len() ==> generates(
                    (#[trigger] self.channels@[i]).generator,
                ),
        ensures
            all_decode(self.channels@, self.bpm) ==> r is Ok,
            match r {
                Ok(decoded) => decoded@.len() == self.channels@.len() && forall|i: int|
                    0 <= i < decoded@.len() ==> plays(
                        self.channels@[i],
                        self.bpm,
                        (#[trigger] decoded@[i])@,
                    ),
                Err(_) => first_failure(self.channels@, self.bpm, r),
            },
    {
        let mut decoded: Vec<Vec<i32>> = Vec::new();
        let mut i: usize = 0;
        while i < self.channels.len()
            invariant
                i <= self.channels@.len(),
                self.bpm > 0,
                forall|t: int|
                    0 <= t < self.channels@.len() ==> generates(
                        (#[trigger] self.channels@[t]).generator,
                    ),
                decoded@.len() == i,
                forall|t: int|
                    0 <= t < i ==> plays(self.channels@[t], self.bpm, (#[trigger] decoded@[t])@),
                forall|t: int|
                    0 <= t < i ==> (#[trigger] channel_run(
                        self.channels@[t],
                        self.bpm,
                    )).failure is None,
            decreases self.channels@.len() - i,
        {
            match self.channels[i].process(self.bpm) {
                Ok(samples) => {
                    decoded.push(samples);
                },
                Err(e) => {
                    let r = Err(e.in_channel(i));
                    assert(first_failure::<G, Vec<Vec<i32>>>(self.channels@, self.bpm, r)) by {
                        assert(fails_first(self.channels@, self.bpm, i as int));
                    }
                    return r;
                },
            }
            i += 1;
        }
        Ok(decoded)
    }

    /// Decodes every channel of the track and mixes what they sound like
    /// into one buffer.
    pub fn mix(&self) -> (r: Result<Vec<i32>, Error<'static>>)
        requires
            self.bpm > 0,
            forall|i: int|
                0 <= i < self.channels@.len() ==> generates(
                    (#[trigger] self.channels@[i]).generator,
                ),
        ensures
            all_decode(self.channels@, self.bpm) ==> r is Ok,
            match r {
                Ok(samples) => exists|decoded: Seq<Vec<i32>>|
                    decoded.len() == self.channels@.len() && is_mix(buffers(decoded), samples@)
                        && forall|i: int|
                        0 <= i < decoded.len() ==> plays(
                            self.channels@[i],
                            self.bpm,
                            (#[trigger] decoded[i])@,
                        ),
                Err(_) => first_failure(self.channels@, self.bpm, r),
            },
    {
        match self.process() {
            Ok(decoded) => {
                let samples = mix_samples(&decoded);
                Ok(samples)
            },
            Err(e) => {
                let r = Err(e);
                assert(first_failure::<G, Vec<i32>>(self.channels@, self.bpm, r)) by {
                    let failed: Result<Vec<Vec<i32>>, Error<'static>> = Err(e);
                    assert(first_failure(self.channels@, self.bpm, failed));
                    let i = choose|i: int| #[trigger]
                        fails_first(self.channels@, self.bpm, i) && raised(
                            failed,
                            in_channel(stop(channel_run(self.channels@[i], self.bpm)), i as usize),
                        );
                    assert(fails_first(self.channels@, self.bpm, i) && raised(
                        r,
                        in_channel(stop(channel_run(self.channels@[i], self.bpm)), i as usize),
                    ));
                }
                r
            },
        }
    }
}

} // verus!
