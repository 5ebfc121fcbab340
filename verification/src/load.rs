//! Congestion estimation: per-channel sample buckets, fed by every
//! access point's own channel and its interfering neighbors, reduced to
//! one robust load value per channel by taking the median.
//!
//! An access point contributes its full quality to its own channel and,
//! to each interfering neighbor, its quality halved once per numeric
//! step of distance.  Loads use the same fixed-point scale as qualities.

use crate::access_point::{AccessPoint, AccessPointView};
use crate::channel::{
    intersected_channels, is_valid_channel, is_valid_channel_spec, lemma_neighbors_consecutive,
    lower_neighbors, upper_neighbors, ChannelId, MAX_CHANNEL, MIN_CHANNEL,
};
use vstd::prelude::*;

verus! {

/// One channel's estimated load, on the fixed-point quality scale.
pub type ChannelLoad = (ChannelId, u64);

/// A quality halved `n` times, by integer division.
pub open spec fn halved(q: u64, n: nat) -> u64
    decreases n,
{
    if n == 0 {
        q
    } else {
        halved(q, (n - 1) as nat) / 2
    }
}

pub proof fn lemma_halved_le(q: u64, n: nat)
    ensures
        halved(q, n) <= q,
    decreases n,
{
    if n > 0 {
        lemma_halved_le(q, (n - 1) as nat);
    }
}

/// What one access point adds to channel `c`'s sample bucket: its full
/// quality on its own channel; on an interfering neighbor, its quality
/// halved once per numeric step of distance; nothing anywhere else, and
/// nothing at all when its own channel is invalid.
pub open spec fn contribution(p: AccessPointView, c: u8) -> Seq<u64> {
    if !is_valid_channel_spec(p.channel) {
        Seq::empty()
    } else if c == p.channel {
        seq![p.quality]
    } else if lower_neighbors(p.channel).contains(c) {
        seq![halved(p.quality, (p.channel - c) as nat)]
    } else if upper_neighbors(p.channel).contains(c) {
        seq![halved(p.quality, (c - p.channel) as nat)]
    } else {
        Seq::empty()
    }
}

/// Channel `c`'s sample bucket over a set of access points, in scan
/// order.
pub open spec fn bucket(points: Seq<AccessPointView>, c: u8) -> Seq<u64>
    decreases points.len(),
{
    if points.len() == 0 {
        Seq::empty()
    } else {
        bucket(points.drop_last(), c) + contribution(points.last(), c)
    }
}

/// The ascending ordering of a sample bucket.
pub open spec fn sorted_u64(s: Seq<u64>) -> Seq<u64> {
    s.sort_by(|a: u64, b: u64| a <= b)
}

/// The median of a bucket: the upper middle element of its ascending
/// ordering; an empty bucket has load zero.
pub open spec fn median_of(s: Seq<u64>) -> u64 {
    if s.len() == 0 {
        0
    } else {
        sorted_u64(s)[s.len() as int / 2]
    }
}

/// The full congestion table: one entry per channel, ascending, each
/// carrying the median of that channel's bucket.
pub open spec fn channels_load_spec(points: Seq<AccessPointView>) -> Seq<ChannelLoad> {
    Seq::new(MAX_CHANNEL as nat, |i: int| ((i + 1) as u8, median_of(bucket(points, (i + 1) as u8))))
}

/// Relies on order_stat::kth: it reorders the slice so that its `k`-th
/// order statistic (the element at index `k` of the ascending sort)
/// stands at index `k`, and returns a reference to it.
#[verifier::external_body]
fn kth_smallest(v: Vec<u64>, k: usize) -> (r: u64)
    requires
        k < v@.len(),
    ensures
        r == sorted_u64(v@)[k as int],
{
    let mut v = v;
    *order_stat::kth(&mut v, k)
}

/// The part of a point's own-channel contribution that names channel `c`.
spec fn own_part(p: AccessPointView, c: u8) -> Seq<u64> {
    if c == p.channel {
        seq![p.quality]
    } else {
        Seq::empty()
    }
}

/// The lower-neighbor contribution to `c` once the `k` nearest lower
/// neighbors have been walked.
spec fn left_part(p: AccessPointView, c: u8, k: int) -> Seq<u64> {
    if lower_neighbors(p.channel).contains(c) && 1 <= p.channel - c <= k {
        seq![halved(p.quality, (p.channel - c) as nat)]
    } else {
        Seq::empty()
    }
}

/// The upper-neighbor contribution to `c` once the `k` nearest upper
/// neighbors have been walked.
spec fn right_part(p: AccessPointView, c: u8, k: int) -> Seq<u64> {
    if upper_neighbors(p.channel).contains(c) && 1 <= c - p.channel <= k {
        seq![halved(p.quality, (c - p.channel) as nat)]
    } else {
        Seq::empty()
    }
}

/// Append one sample to the bucket at `ci`, leaving the others alone.
fn push_sample(channels: &mut Vec<Vec<u64>>, ci: usize, v: u64)
    requires
        ci < old(channels)@.len(),
    ensures
        final(channels)@.len() == old(channels)@.len(),
        final(channels)@[ci as int]@ == old(channels)@[ci as int]@.push(v),
        forall|t: int|
            0 <= t < old(channels)@.len() && t != ci ==> final(channels)@[t] == old(channels)@[t],
{
    let mut b = channels.remove(ci);
    b.push(v);
    channels.insert(ci, b);
    proof {
        assert forall|t: int|
            0 <= t < old(channels)@.len() && t != ci implies final(channels)@[t] == old(
            channels,
        )@[t] by {}
    }
}

/// Estimate every channel's congestion from the access points whose
/// channels overlap it.  Points with an unknown or out-of-band channel
/// contribute nothing; the table covers each channel of the band once,
/// in ascending order.
pub fn compute_channels_load(points: &Vec<AccessPoint>) -> (r: Vec<ChannelLoad>)
    ensures
        r@ == channels_load_spec(points.deep_view()),
{
    let nch: usize = MAX_CHANNEL as usize;
    let mut channels: Vec<Vec<u64>> = Vec::new();
    while channels.len() < nch
        invariant
            channels@.len() <= nch,
            forall|t: int|
                0 <= t < channels@.len() ==> (#[trigger] channels@[t])@ == Seq::<u64>::empty(),
        decreases nch - channels.len(),
    {
        channels.push(Vec::new());
    }

    let ghost full = points.deep_view();
    proof {
        assert forall|t: int| 0 <= t < nch as int implies (#[trigger] channels@[t])@ == bucket(
            full.take(0),
            (t + 1) as u8,
        ) by {}
    }

    let mut idx: usize = 0;
    while idx < points.len()
        invariant
            idx <= points@.len(),
            full == points.deep_view(),
            full.len() == points@.len(),
            channels@.len() == MAX_CHANNEL as int,
            forall|t: int|
                0 <= t < channels@.len() ==> (#[trigger] channels@[t])@ == bucket(
                    full.take(idx as int),
                    (t + 1) as u8,
                ),
        decreases points@.len() - idx,
    {
        let ghost pv = full[idx as int];
        let ghost pre = full.take(idx as int);
        let ch = points[idx].channel;
        let q = points[idx].quality;
        proof {
            assert(pv == points@[idx as int]@);
        }
        if is_valid_channel(ch) {
            proof {
                lemma_neighbors_consecutive(ch);
            }
            push_sample(&mut channels, ch as usize - 1, q);
            proof {
                assert forall|t: int| 0 <= t < MAX_CHANNEL as int implies (
                #[trigger] channels@[t])@ == bucket(pre, (t + 1) as u8) + own_part(
                    pv,
                    (t + 1) as u8,
                ) + left_part(pv, (t + 1) as u8, 0) by {
                    let cc = (t + 1) as u8;
                    if t == ch - 1 {
                        assert(channels@[t]@ =~= bucket(pre, cc) + own_part(pv, cc) + left_part(
                            pv,
                            cc,
                            0,
                        ));
                    } else {
                        assert(channels@[t]@ =~= bucket(pre, cc) + own_part(pv, cc) + left_part(
                            pv,
                            cc,
                            0,
                        ));
                    }
                }
            }

            let lists = intersected_channels(ch);
            let left = lists.0;
            let right = lists.1;
            let mut quality: u64 = q;
            let mut k: usize = 0;
            while k < left.len()
                invariant
                    channels@.len() == MAX_CHANNEL as int,
                    is_valid_channel_spec(ch),
                    pv.channel == ch,
                    pv.quality == q,
                    left@ == lower_neighbors(ch),
                    k <= left@.len(),
                    quality == halved(q, k as nat),
                    forall|t: int|
                        0 <= t < channels@.len() ==> (#[trigger] channels@[t])@ == bucket(
                            pre,
                            (t + 1) as u8,
                        ) + own_part(pv, (t + 1) as u8) + left_part(pv, (t + 1) as u8, k as int),
                decreases left@.len() - k,
            {
                quality = quality / 2;
                let c = left[k];
                proof {
                    lemma_neighbors_consecutive(ch);
                    assert(lower_neighbors(ch)[k as int] == c);
                    assert(c == ch - 1 - k);
                    assert(MIN_CHANNEL <= c < ch);
                }
                push_sample(&mut channels, c as usize - 1, quality);
                k = k + 1;
                proof {
                    assert forall|t: int| 0 <= t < channels@.len() implies (
                    #[trigger] channels@[t])@ == bucket(pre, (t + 1) as u8) + own_part(
                        pv,
                        (t + 1) as u8,
                    ) + left_part(pv, (t + 1) as u8, k as int) by {
                        let cc = (t + 1) as u8;
                        if t == c - 1 {
                            assert(lower_neighbors(ch).contains(c)) by {
                                assert(lower_neighbors(ch)[k - 1] == c);
                            }
                            assert(ch - c == k);
                            assert(left_part(pv, cc, k as int) =~= seq![
                                halved(q, (ch - c) as nat),
                            ]);
                            assert(left_part(pv, cc, k - 1) =~= Seq::<u64>::empty());
                            assert(quality == halved(q, (ch - c) as nat));
                            assert(channels@[t]@ =~= bucket(pre, cc) + own_part(pv, cc)
                                + left_part(pv, cc, k as int));
                        } else {
                            if lower_neighbors(ch).contains(cc) && 1 <= ch - cc <= k {
                                if ch - cc == k {
                                    let i0 = choose|i0: int|
                                        0 <= i0 < lower_neighbors(ch).len() && lower_neighbors(
                                            ch,
                                        )[i0] == cc;
                                    assert(cc == ch - 1 - i0);
                                    assert(i0 == k - 1);
                                    assert(cc == c);
                                    assert(false);
                                }
                            }
                            assert(left_part(pv, cc, k as int) == left_part(pv, cc, k - 1));
                        }
                    }
                }
            }

            let ghost nl = left@.len() as int;
            let mut k: usize = 0;
            quality = q;
            while k < right.len()
                invariant
                    channels@.len() == MAX_CHANNEL as int,
                    is_valid_channel_spec(ch),
                    pv.channel == ch,
                    pv.quality == q,
                    left@ == lower_neighbors(ch),
                    nl == left@.len() as int,
                    right@ == upper_neighbors(ch),
                    k <= right@.len(),
                    quality == halved(q, k as nat),
                    forall|t: int|
                        0 <= t < channels@.len() ==> (#[trigger] channels@[t])@ == bucket(
                            pre,
                            (t + 1) as u8,
                        ) + own_part(pv, (t + 1) as u8) + left_part(pv, (t + 1) as u8, nl)
                            + right_part(pv, (t + 1) as u8, k as int),
                decreases right@.len() - k,
            {
                quality = quality / 2;
                let c = right[k];
                proof {
                    lemma_neighbors_consecutive(ch);
                    assert(upper_neighbors(ch)[k as int] == c);
                    assert(c == ch + 1 + k);
                    assert(ch < c <= MAX_CHANNEL);
                }
                push_sample(&mut channels, c as usize - 1, quality);
                k = k + 1;
                proof {
                    assert forall|t: int| 0 <= t < channels@.len() implies (
                    #[trigger] channels@[t])@ == bucket(pre, (t + 1) as u8) + own_part(
                        pv,
                        (t + 1) as u8,
                    ) + left_part(pv, (t + 1) as u8, nl) + right_part(pv, (t + 1) as u8, k as int)
                        by {
                        let cc = (t + 1) as u8;
                        if t == c - 1 {
                            assert(upper_neighbors(ch).contains(c)) by {
                                assert(upper_neighbors(ch)[k - 1] == c);
                            }
                            assert(c - ch == k);
                            assert(right_part(pv, cc, k as int) =~= seq![
                                halved(q, (c - ch) as nat),
                            ]);
                            assert(right_part(pv, cc, k - 1) =~= Seq::<u64>::empty());
                            assert(quality == halved(q, (c - ch) as nat));
                            assert(channels@[t]@ =~= bucket(pre, cc) + own_part(pv, cc)
                                + left_part(pv, cc, nl) + right_part(pv, cc, k as int));
                        } else {
                            if upper_neighbors(ch).contains(cc) && 1 <= cc - ch <= k {
                                if cc - ch == k {
                                    let i0 = choose|i0: int|
                                        0 <= i0 < upper_neighbors(ch).len() && upper_neighbors(
                                            ch,
                                        )[i0] == cc;
                                    assert(cc == ch + 1 + i0);
                                    assert(i0 == k - 1);
                                    assert(cc == c);
                                    assert(false);
                                }
                            }
                            assert(right_part(pv, cc, k as int) == right_part(pv, cc, k - 1));
                        }
                    }
                }
            }

            proof {
                lemma_neighbors_consecutive(ch);
                let post = full.take(idx + 1);
                assert(post.drop_last() =~= pre);
                assert(post.last() == pv);
                assert forall|t: int| 0 <= t < channels@.len() implies (#[trigger] channels@[t])@
                    == bucket(full.take(idx + 1), (t + 1) as u8) by {
                    let cc = (t + 1) as u8;
                    let lo = lower_neighbors(ch);
                    let up = upper_neighbors(ch);
                    assert(bucket(post, cc) == bucket(pre, cc) + contribution(pv, cc));
                    if cc == ch {
                        assert(!lo.contains(cc));
                        assert(!up.contains(cc));
                        assert(contribution(pv, cc) =~= own_part(pv, cc) + left_part(pv, cc, nl)
                            + right_part(pv, cc, k as int));
                    } else if lo.contains(cc) {
                        let i0 = choose|i0: int| 0 <= i0 < lo.len() && lo[i0] == cc;
                        assert(cc == ch - 1 - i0);
                        assert(1 <= ch - cc <= nl);
                        assert(!up.contains(cc));
                        assert(contribution(pv, cc) =~= own_part(pv, cc) + left_part(pv, cc, nl)
                            + right_part(pv, cc, k as int));
                    } else if up.contains(cc) {
                        let i0 = choose|i0: int| 0 <= i0 < up.len() && up[i0] == cc;
                        assert(cc == ch + 1 + i0);
                        assert(1 <= cc - ch <= k as int);
                        assert(contribution(pv, cc) =~= own_part(pv, cc) + left_part(pv, cc, nl)
                            + right_part(pv, cc, k as int));
                    } else {
                        assert(contribution(pv, cc) =~= own_part(pv, cc) + left_part(pv, cc, nl)
                            + right_part(pv, cc, k as int));
                    }
                    assert(channels@[t]@ =~= bucket(post, cc));
                }
            }
        } else {
            proof {
                let post = full.take(idx + 1);
                assert(post.drop_last() =~= pre);
                assert(post.last() == pv);
                assert forall|t: int| 0 <= t < channels@.len() implies (#[trigger] channels@[t])@
                    == bucket(full.take(idx + 1), (t + 1) as u8) by {
                    let cc = (t + 1) as u8;
                    assert(bucket(post, cc) == bucket(pre, cc) + contribution(pv, cc));
                    assert(contribution(pv, cc) =~= Seq::<u64>::empty());
                    assert(channels@[t]@ =~= bucket(post, cc));
                }
            }
        }
        idx = idx + 1;
    }

    proof {
        assert(full.take(points@.len() as int) =~= full);
        assert forall|t: int| 0 <= t < channels@.len() implies (#[trigger] channels@[t])@
            == bucket(full, (t + 1) as u8) by {}
    }

    let mut result: Vec<ChannelLoad> = Vec::new();
    let mut chs = channels;
    let mut ci: usize = 0;
    while ci < nch
        invariant
            ci <= nch,
            nch == MAX_CHANNEL as int,
            full == points.deep_view(),
            chs@.len() == nch - ci,
            forall|t: int|
                0 <= t < chs@.len() ==> (#[trigger] chs@[t])@ == bucket(full, (ci + t + 1) as u8),
            result@.len() == ci as int,
            forall|t: int|
                0 <= t < ci ==> #[trigger] result@[t] == channels_load_spec(full)[t],
        decreases nch - ci,
    {
        let b = chs.remove(0);
        let ghost bv = b@;
        let blen = b.len();
        let load: u64 = if blen == 0 {
            0
        } else {
            kth_smallest(b, blen / 2)
        };
        proof {
            assert(bv == bucket(full, (ci + 1) as u8));
            assert(load == median_of(bucket(full, (ci + 1) as u8)));
            assert forall|t: int| 0 <= t < chs@.len() implies (#[trigger] chs@[t])@ == bucket(
                full,
                (ci + 1 + t + 1) as u8,
            ) by {}
        }
        result.push((ci as u8 + 1, load));
        ci = ci + 1;
        proof {
            assert forall|t: int| 0 <= t < ci implies #[trigger] result@[t] == channels_load_spec(
                full,
            )[t] by {}
        }
    }
    proof {
        assert(result@ =~= channels_load_spec(full));
    }
    result
}

proof fn lemma_bucket_bounded(points: Seq<AccessPointView>, c: u8, bound: u64)
    requires
        forall|i: int| 0 <= i < points.len() ==> (#[trigger] points[i]).quality <= bound,
    ensures
        forall|j: int| 0 <= j < bucket(points, c).len() ==> #[trigger] bucket(points, c)[j] <= bound,
    decreases points.len(),
{
    if points.len() > 0 {
        let prev = bucket(points.drop_last(), c);
        lemma_bucket_bounded(points.drop_last(), c, bound);
        let p = points.last();
        lemma_halved_le(p.quality, (p.channel - c) as nat);
        lemma_halved_le(p.quality, (c - p.channel) as nat);
        assert(p.quality <= bound);
        assert forall|j: int| 0 <= j < bucket(points, c).len() implies #[trigger] bucket(
            points,
            c,
        )[j] <= bound by {
            if j < prev.len() {
                assert(bucket(points, c)[j] == prev[j]);
            } else {
                assert(bucket(points, c)[j] == contribution(p, c)[j - prev.len()]);
            }
        }
    }
}

proof fn lemma_median_bounded(s: Seq<u64>, bound: u64)
    requires
        forall|j: int| 0 <= j < s.len() ==> #[trigger] s[j] <= bound,
    ensures
        median_of(s) <= bound,
{
    if s.len() > 0 {
        let leq = |a: u64, b: u64| a <= b;
        let sorted = s.sort_by(leq);
        s.lemma_sort_by_ensures(leq);
        s.to_multiset_ensures();
        sorted.to_multiset_ensures();
        assert(sorted.len() == s.len());
        let m = sorted[s.len() as int / 2];
        assert(sorted.contains(m));
        assert(s.contains(m));
        let j = choose|j: int| 0 <= j < s.len() && s[j] == m;
        assert(s[j] <= bound);
    }
}

/// Every load of the congestion table is bounded by any bound on the
/// qualities that feed it: each bucket sample is a quality or a halving
/// of one, and the median is a sample of its bucket.  Loads can never
/// be negative by construction.
pub proof fn lemma_loads_bounded(points: Seq<AccessPointView>, bound: u64)
    requires
        forall|i: int| 0 <= i < points.len() ==> (#[trigger] points[i]).quality <= bound,
    ensures
        forall|t: int|
            0 <= t < channels_load_spec(points).len() ==> (#[trigger] channels_load_spec(
                points,
            )[t]).1 <= bound,
{
    assert forall|t: int| 0 <= t < channels_load_spec(points).len() implies (
    #[trigger] channels_load_spec(points)[t]).1 <= bound by {
        lemma_bucket_bounded(points, (t + 1) as u8, bound);
        lemma_median_bounded(bucket(points, (t + 1) as u8), bound);
    }
}

/// For every set of raw scan records, every load of the congestion
/// table computed over its normalized access points lies on the quality
/// scale: never negative, never above `QUALITY_UNIT`.
pub proof fn lemma_normalized_loads_in_range(s: Seq<crate::access_point::RawAccessPointView>)
    ensures
        forall|t: int|
            0 <= t < channels_load_spec(crate::access_point::normalize_spec(s)).len() ==> (
            #[trigger] channels_load_spec(crate::access_point::normalize_spec(s))[t]).1
                <= crate::quality::QUALITY_UNIT,
{
    crate::access_point::lemma_normalize_quality_bounded(s);
    lemma_loads_bounded(crate::access_point::normalize_spec(s), crate::quality::QUALITY_UNIT);
}

/// The congestion table is a function of the access-point sequence
/// alone: two computations over the same immutable input are bound to
/// the same table, so recomputing is idempotent.
pub proof fn lemma_channels_load_deterministic(
    points: Seq<AccessPointView>,
    r1: Seq<ChannelLoad>,
    r2: Seq<ChannelLoad>,
)
    requires
        r1 == channels_load_spec(points),
        r2 == channels_load_spec(points),
    ensures
        r1 == r2,
{
}

} // verus!
