//! Access points: raw scan records, their canonical typed form, and the
//! normalizer that scores, validates, deduplicates and orders them.

use crate::channel::{parse_channel, parse_channel_spec};
use crate::quality::{
    lemma_signal_quality_within_unit, signal_to_quality, signal_to_quality_spec, QUALITY_UNIT,
};
use itertools::Itertools;
use vstd::prelude::*;
use vstd::string::StringExecFns;

verus! {

/// A raw scan record as an external scanner reports it: every field is
/// free text.
pub struct RawAccessPoint {
    pub ssid: String,
    pub mac: String,
    pub signal_level: String,
    pub channel: String,
}

/// The mathematical content of a raw record.
pub ghost struct RawAccessPointView {
    pub ssid: Seq<char>,
    pub mac: Seq<char>,
    pub signal_level: Seq<char>,
    pub channel: Seq<char>,
}

impl View for RawAccessPoint {
    type V = RawAccessPointView;

    open spec fn view(&self) -> RawAccessPointView {
        RawAccessPointView {
            ssid: self.ssid@,
            mac: self.mac@,
            signal_level: self.signal_level@,
            channel: self.channel@,
        }
    }
}

impl DeepView for RawAccessPoint {
    type V = RawAccessPointView;

    open spec fn deep_view(&self) -> RawAccessPointView {
        self.view()
    }
}

/// A canonical access point: the quality is a fixed-point number in
/// `[0, QUALITY_UNIT]`, the channel a validated id or the unknown
/// sentinel; the hardware address is the record's identity.
#[derive(Debug)]
pub struct AccessPoint {
    pub ssid: String,
    pub mac: String,
    pub quality: u64,
    pub signal: String,
    pub channel: u8,
}

/// The mathematical content of an access point.
pub ghost struct AccessPointView {
    pub ssid: Seq<char>,
    pub mac: Seq<char>,
    pub quality: u64,
    pub signal: Seq<char>,
    pub channel: u8,
}

impl View for AccessPoint {
    type V = AccessPointView;

    open spec fn view(&self) -> AccessPointView {
        AccessPointView {
            ssid: self.ssid@,
            mac: self.mac@,
            quality: self.quality,
            signal: self.signal@,
            channel: self.channel,
        }
    }
}

impl DeepView for AccessPoint {
    type V = AccessPointView;

    open spec fn deep_view(&self) -> AccessPointView {
        self.view()
    }
}

/// The canonical form of one raw record: the signal text scored as a
/// quality, the channel text parsed, and the signal kept readably with
/// its unit.
pub open spec fn point_of_raw(r: RawAccessPointView) -> AccessPointView {
    AccessPointView {
        ssid: r.ssid,
        mac: r.mac,
        quality: signal_to_quality_spec(r.signal_level),
        signal: r.signal_level + " dBm"@,
        channel: parse_channel_spec(r.channel),
    }
}

/// The canonical form of every raw record, in order.
pub open spec fn points_of_raws(s: Seq<RawAccessPointView>) -> Seq<AccessPointView> {
    Seq::new(s.len(), |i: int| point_of_raw(s[i]))
}

/// Map each raw record to its canonical access point.
fn to_access_points(raw: Vec<RawAccessPoint>) -> (r: Vec<AccessPoint>)
    ensures
        r.deep_view() == points_of_raws(raw.deep_view()),
{
    let ghost orig = raw.deep_view();
    let mut raw = raw;
    let mut result: Vec<AccessPoint> = Vec::new();
    while raw.len() > 0
        invariant
            result.deep_view() + points_of_raws(raw.deep_view()) =~= points_of_raws(orig),
        decreases raw.len(),
    {
        let p = raw.remove(0);
        let quality = signal_to_quality(p.signal_level.as_str());
        let channel = parse_channel(p.channel.as_str());
        let signal = p.signal_level.concat(" dBm");
        let point = AccessPoint { ssid: p.ssid, mac: p.mac, quality, signal, channel };
        result.push(point);
        proof {
            assert(result.deep_view() + points_of_raws(raw.deep_view()) =~= points_of_raws(orig));
        }
    }
    proof {
        assert(result.deep_view() =~= points_of_raws(orig));
    }
    result
}

/// Deduplication by hardware address, skipping the addresses in `seen`:
/// of key-sharing records, the first stays, in order.
pub open spec fn dedup_by_mac_from(
    s: Seq<AccessPointView>,
    seen: Set<Seq<char>>,
) -> Seq<AccessPointView>
    decreases s.len(),
{
    if s.len() == 0 {
        Seq::empty()
    } else if seen.contains(s[0].mac) {
        dedup_by_mac_from(s.drop_first(), seen)
    } else {
        seq![s[0]] + dedup_by_mac_from(s.drop_first(), seen.insert(s[0].mac))
    }
}

/// Keep the first record per hardware address, in order.
pub open spec fn dedup_by_mac(s: Seq<AccessPointView>) -> Seq<AccessPointView> {
    dedup_by_mac_from(s, Set::empty())
}

/// Relies on itertools' `unique_by`: the adapted iterator yields only
/// the elements whose key has not been produced before, in order, so of
/// several elements sharing a key the first one is retained.  The key
/// taken here is the hardware address.
#[verifier::external_body]
fn dedup_points_by_mac(points: Vec<AccessPoint>) -> (r: Vec<AccessPoint>)
    ensures
        r.deep_view() == dedup_by_mac(points.deep_view()),
{
    points.into_iter().unique_by(|p| p.mac.clone()).collect()
}

/// Where a record ranks under descending quality: after every record of
/// at least its quality, before the first one of lower quality.
pub open spec fn insert_by_quality(
    p: AccessPointView,
    s: Seq<AccessPointView>,
) -> Seq<AccessPointView>
    decreases s.len(),
{
    if s.len() == 0 {
        seq![p]
    } else if p.quality > s[0].quality {
        seq![p] + s
    } else {
        seq![s[0]] + insert_by_quality(p, s.drop_first())
    }
}

/// Stable sort by descending quality: each record in turn is inserted
/// after the earlier records of at least its quality, so records of
/// equal quality keep their relative order.
pub open spec fn sort_by_quality(s: Seq<AccessPointView>) -> Seq<AccessPointView>
    decreases s.len(),
{
    if s.len() == 0 {
        Seq::empty()
    } else {
        insert_by_quality(s.last(), sort_by_quality(s.drop_last()))
    }
}

proof fn lemma_insert_at(p: AccessPointView, s: Seq<AccessPointView>, j: int)
    requires
        0 <= j <= s.len(),
        forall|t: int| 0 <= t < j ==> s[t].quality >= p.quality,
        j < s.len() ==> p.quality > s[j].quality,
    ensures
        insert_by_quality(p, s) == s.take(j) + seq![p] + s.skip(j),
    decreases s.len(),
{
    if s.len() == 0 {
        assert(insert_by_quality(p, s) =~= s.take(j) + seq![p] + s.skip(j));
    } else if p.quality > s[0].quality {
        assert(j == 0);
        assert(insert_by_quality(p, s) =~= s.take(j) + seq![p] + s.skip(j));
    } else {
        assert(j >= 1);
        lemma_insert_at(p, s.drop_first(), j - 1);
        assert(insert_by_quality(p, s) =~= s.take(j) + seq![p] + s.skip(j));
    }
}

/// Sort access points by descending quality, stably.
fn sort_points_by_quality(points: Vec<AccessPoint>) -> (r: Vec<AccessPoint>)
    ensures
        r.deep_view() == sort_by_quality(points.deep_view()),
{
    let ghost orig = points.deep_view();
    let mut src = points;
    let mut result: Vec<AccessPoint> = Vec::new();
    while src.len() > 0
        invariant
            src@.len() <= orig.len(),
            src.deep_view() =~= orig.skip(orig.len() - src@.len()),
            result.deep_view() == sort_by_quality(orig.take(orig.len() - src@.len())),
        decreases src.len(),
    {
        let ghost k = orig.len() - src@.len();
        let ghost srcv_before = src.deep_view();
        let p = src.remove(0);
        proof {
            assert(0 <= k < orig.len());
            assert(srcv_before[0] == p.deep_view());
            assert(p.deep_view() == orig[k]);
            assert forall|t: int| 0 <= t < src@.len() implies src.deep_view()[t] == orig.skip(
                k + 1,
            )[t] by {
                assert(src.deep_view()[t] == src@[t].deep_view());
                assert(src@[t].deep_view() == srcv_before[t + 1]);
            }
            assert(src.deep_view() =~= orig.skip(k + 1));
        }

        let mut j: usize = 0;
        while j < result.len() && result[j].quality >= p.quality
            invariant
                j <= result.len(),
                result.deep_view().len() == result@.len(),
                forall|t: int|
                    0 <= t < j ==> #[trigger] result.deep_view()[t].quality >= p.deep_view().quality,
            decreases result.len() - j,
        {
            proof {
                assert(result.deep_view()[j as int].quality == result@[j as int]@.quality);
            }
            j = j + 1;
        }
        proof {
            let rv = result.deep_view();
            if j < result.len() {
                assert(rv[j as int].quality == result@[j as int]@.quality);
            }
            lemma_insert_at(p.deep_view(), rv, j as int);
        }
        let ghost before = result.deep_view();
        result.insert(j, p);
        proof {
            assert(result.deep_view() =~= before.take(j as int) + seq![p.deep_view()]
                + before.skip(j as int));
            let done = orig.take(k + 1);
            assert(done.drop_last() =~= orig.take(k));
            assert(done.last() == orig[k]);
            assert(result.deep_view() == insert_by_quality(orig[k], sort_by_quality(orig.take(k))));
            assert(result.deep_view() == sort_by_quality(done));
        }
    }
    proof {
        assert(orig.take(orig.len() - src.len()) =~= orig);
    }
    result
}

/// The whole normalizer: canonical form, first record per hardware
/// address, descending quality.
pub open spec fn normalize_spec(s: Seq<RawAccessPointView>) -> Seq<AccessPointView> {
    sort_by_quality(dedup_by_mac(points_of_raws(s)))
}

/// Normalize raw scan records: score the signal, validate the channel,
/// keep the first record per hardware address, and order by descending
/// quality for display.  The ordering is stable: records of equal
/// quality keep their scan order.
pub fn normalize_access_points(raw: Vec<RawAccessPoint>) -> (r: Vec<AccessPoint>)
    ensures
        r.deep_view() == normalize_spec(raw.deep_view()),
{
    sort_points_by_quality(dedup_points_by_mac(to_access_points(raw)))
}

/// The position of the first access point at or after `from` bearing
/// the hardware address `mac`.
pub open spec fn find_mac(s: Seq<AccessPointView>, mac: Seq<char>, from: int) -> Option<int>
    decreases s.len() - from,
{
    if from < 0 || from >= s.len() {
        None
    } else if s[from].mac == mac {
        Some(from)
    } else {
        find_mac(s, mac, from + 1)
    }
}

pub proof fn lemma_find_mac_props(s: Seq<AccessPointView>, mac: Seq<char>, from: int)
    requires
        0 <= from,
    ensures
        match find_mac(s, mac, from) {
            Some(i) => from <= i < s.len() && s[i].mac == mac && (forall|j: int|
                from <= j < i ==> (#[trigger] s[j]).mac != mac),
            None => forall|j: int| from <= j < s.len() ==> (#[trigger] s[j]).mac != mac,
        },
    decreases s.len() - from,
{
    if from < s.len() && s[from].mac != mac {
        lemma_find_mac_props(s, mac, from + 1);
    }
}

/// The access point the host is associated with, if its resolved
/// hardware address occurs in the set: the first such index.
pub open spec fn get_current_point_spec(
    s: Seq<AccessPointView>,
    mac: Option<Seq<char>>,
) -> Option<int> {
    match mac {
        None => None,
        Some(m) => find_mac(s, m, 0),
    }
}

/// Look up the currently associated access point by its hardware
/// address, by exact equality; `None` when no address was resolved or
/// no point bears it.
pub fn get_current_point(points: &Vec<AccessPoint>, mac: &Option<String>) -> (r: Option<usize>)
    ensures
        match r {
            None => get_current_point_spec(points.deep_view(), mac.deep_view()) is None,
            Some(i) => i < points@.len() && get_current_point_spec(
                points.deep_view(),
                mac.deep_view(),
            ) == Some(i as int),
        },
{
    match mac {
        None => None,
        Some(m) => {
            let mut i: usize = 0;
            while i < points.len()
                invariant
                    i <= points@.len(),
                    mac.deep_view() == Some::<Seq<char>>(m@),
                    forall|t: int| 0 <= t < i ==> (#[trigger] points.deep_view()[t]).mac != m@,
                decreases points@.len() - i,
            {
                proof {
                    assert(points.deep_view()[i as int].mac == points@[i as int]@.mac);
                }
                if points[i].mac == *m {
                    proof {
                        lemma_find_mac_props(points.deep_view(), m@, 0);
                    }
                    return Some(i);
                }
                i = i + 1;
            }
            proof {
                lemma_find_mac_props(points.deep_view(), m@, 0);
            }
            None
        },
    }
}

/// Whether `point` is the current access point: identity is exact
/// hardware-address equality, never object identity.
pub fn is_current_point(point: &AccessPoint, current: Option<&AccessPoint>) -> (r: bool)
    ensures
        r == match current {
            Some(c) => c@.mac == point@.mac,
            None => false,
        },
{
    match current {
        Some(c) => c.mac == point.mac,
        None => false,
    }
}

/// Shifting the search start over a dropped first element: searching the
/// tail from `j` is searching the whole from `j + 1`, one position over.
proof fn lemma_find_mac_shift(s: Seq<AccessPointView>, m: Seq<char>, j: int)
    requires
        0 <= j,
        s.len() > 0,
    ensures
        match find_mac(s.drop_first(), m, j) {
            Some(x) => find_mac(s, m, j + 1) == Some(x + 1),
            None => find_mac(s, m, j + 1) is None,
        },
    decreases s.len() - j,
{
    let rest = s.drop_first();
    if j < rest.len() {
        assert(rest[j] == s[j + 1]);
        if rest[j].mac != m {
            lemma_find_mac_shift(s, m, j + 1);
        }
    }
}

/// The record at the first position bearing `m`, if any position does.
pub open spec fn first_with_mac(s: Seq<AccessPointView>, m: Seq<char>) -> Option<AccessPointView> {
    match find_mac(s, m, 0) {
        None => None,
        Some(k) => Some(s[k]),
    }
}

#[verifier::rlimit(100)]
proof fn lemma_dedup_from_props(s: Seq<AccessPointView>, seen: Set<Seq<char>>)
    ensures
        forall|i: int|
            0 <= i < dedup_by_mac_from(s, seen).len() ==> !seen.contains(
                (#[trigger] dedup_by_mac_from(s, seen)[i]).mac,
            ),
        forall|i: int, j: int|
            0 <= i < j < dedup_by_mac_from(s, seen).len() ==> (#[trigger] dedup_by_mac_from(
                s,
                seen,
            )[i]).mac != (#[trigger] dedup_by_mac_from(s, seen)[j]).mac,
        forall|i: int|
            0 <= i < dedup_by_mac_from(s, seen).len() ==> first_with_mac(
                s,
                (#[trigger] dedup_by_mac_from(s, seen)[i]).mac,
            ) == Some(dedup_by_mac_from(s, seen)[i]),
        forall|k: int|
            0 <= k < s.len() && !seen.contains((#[trigger] s[k]).mac) ==> exists|i: int|
                0 <= i < dedup_by_mac_from(s, seen).len() && (#[trigger] dedup_by_mac_from(
                    s,
                    seen,
                )[i]).mac == s[k].mac,
    decreases s.len(),
{
    if s.len() == 0 {
    } else {
        let d = dedup_by_mac_from(s, seen);
        let rest = s.drop_first();
        if seen.contains(s[0].mac) {
            lemma_dedup_from_props(rest, seen);
            let dr = dedup_by_mac_from(rest, seen);
            assert(d == dr);
            assert forall|i: int| 0 <= i < d.len() implies first_with_mac(
                s,
                (#[trigger] d[i]).mac,
            ) == Some(d[i]) by {
                assert(d[i] == dr[i]);
                assert(!seen.contains(dr[i].mac));
                assert(s[0].mac != dr[i].mac);
                let m = dr[i].mac;
                assert(first_with_mac(rest, m) == Some(dr[i]));
                assert(find_mac(rest, m, 0) is Some);
                let kr = find_mac(rest, m, 0).unwrap();
                lemma_find_mac_props(rest, m, 0);
                assert(0 <= kr < rest.len() && rest[kr] == dr[i]);
                lemma_find_mac_shift(s, m, 0);
                assert(find_mac(s, m, 1) == Some(kr + 1));
                assert(find_mac(s, m, 0) == Some(kr + 1));
                assert(s[kr + 1] == rest[kr]);
                assert(first_with_mac(s, m) == Some(d[i]));
            }
            assert forall|k: int|
                0 <= k < s.len() && !seen.contains((#[trigger] s[k]).mac) implies exists|i: int|
                0 <= i < d.len() && (#[trigger] d[i]).mac == s[k].mac by {
                assert(k >= 1);
                assert(rest[k - 1] == s[k]);
            }
        } else {
            lemma_dedup_from_props(rest, seen.insert(s[0].mac));
            let dr = dedup_by_mac_from(rest, seen.insert(s[0].mac));
            assert(d == seq![s[0]] + dr);
            assert forall|i: int| 0 <= i < d.len() implies !seen.contains(
                (#[trigger] d[i]).mac,
            ) by {
                if i > 0 {
                    assert(d[i] == dr[i - 1]);
                    assert(!seen.insert(s[0].mac).contains(dr[i - 1].mac));
                }
            }
            assert forall|i: int, j: int| 0 <= i < j < d.len() implies (#[trigger] d[i]).mac != (
            #[trigger] d[j]).mac by {
                if i == 0 {
                    assert(d[j] == dr[j - 1]);
                    assert(!seen.insert(s[0].mac).contains(dr[j - 1].mac));
                } else {
                    assert(d[i] == dr[i - 1]);
                    assert(d[j] == dr[j - 1]);
                }
            }
            assert forall|i: int| 0 <= i < d.len() implies first_with_mac(
                s,
                (#[trigger] d[i]).mac,
            ) == Some(d[i]) by {
                if i == 0 {
                    assert(d[0] == s[0]);
                    assert(find_mac(s, s[0].mac, 0) == Some(0int));
                } else {
                    assert(d[i] == dr[i - 1]);
                    assert(!seen.insert(s[0].mac).contains(dr[i - 1].mac));
                    assert(s[0].mac != dr[i - 1].mac);
                    let m = dr[i - 1].mac;
                    assert(first_with_mac(rest, m) == Some(dr[i - 1]));
                    assert(find_mac(rest, m, 0) is Some);
                    let kr = find_mac(rest, m, 0).unwrap();
                    lemma_find_mac_props(rest, m, 0);
                    assert(0 <= kr < rest.len() && rest[kr] == dr[i - 1]);
                    lemma_find_mac_shift(s, m, 0);
                    assert(find_mac(s, m, 1) == Some(kr + 1));
                    assert(find_mac(s, m, 0) == Some(kr + 1));
                    assert(s[kr + 1] == rest[kr]);
                    assert(first_with_mac(s, m) == Some(d[i]));
                }
            }
            assert forall|k: int|
                0 <= k < s.len() && !seen.contains((#[trigger] s[k]).mac) implies exists|i: int|
                0 <= i < d.len() && (#[trigger] d[i]).mac == s[k].mac by {
                if k == 0 {
                    assert(d[0] == s[0]);
                } else {
                    if s[k].mac == s[0].mac {
                        assert(d[0].mac == s[k].mac);
                    } else {
                        assert(rest[k - 1] == s[k]);
                        assert(!seen.insert(s[0].mac).contains(rest[k - 1].mac));
                        let i0 = choose|i0: int|
                            0 <= i0 < dr.len() && (#[trigger] dr[i0]).mac == rest[k - 1].mac;
                        assert(d[i0 + 1] == dr[i0]);
                    }
                }
            }
        }
    }
}

proof fn lemma_insert_by_quality_elements(p: AccessPointView, s: Seq<AccessPointView>)
    ensures
        forall|t: int|
            0 <= t < insert_by_quality(p, s).len() ==> #[trigger] insert_by_quality(p, s)[t] == p
                || exists|u: int| 0 <= u < s.len() && s[u] == insert_by_quality(p, s)[t],
    decreases s.len(),
{
    if s.len() > 0 && !(p.quality > s[0].quality) {
        lemma_insert_by_quality_elements(p, s.drop_first());
        let w = insert_by_quality(p, s.drop_first());
        assert forall|t: int|
            0 <= t < insert_by_quality(p, s).len() implies #[trigger] insert_by_quality(p, s)[t]
            == p || exists|u: int| 0 <= u < s.len() && s[u] == insert_by_quality(p, s)[t] by {
            if t == 0 {
                assert(s[0] == insert_by_quality(p, s)[0]);
            } else {
                assert(insert_by_quality(p, s)[t] == w[t - 1]);
                if w[t - 1] != p {
                    let u0 = choose|u0: int|
                        0 <= u0 < s.drop_first().len() && s.drop_first()[u0] == w[t - 1];
                    assert(s[u0 + 1] == insert_by_quality(p, s)[t]);
                }
            }
        }
    }
}

proof fn lemma_sort_by_quality_elements(s: Seq<AccessPointView>)
    ensures
        forall|t: int|
            0 <= t < sort_by_quality(s).len() ==> exists|u: int|
                0 <= u < s.len() && s[u] == #[trigger] sort_by_quality(s)[t],
    decreases s.len(),
{
    if s.len() > 0 {
        lemma_sort_by_quality_elements(s.drop_last());
        lemma_insert_by_quality_elements(s.last(), sort_by_quality(s.drop_last()));
        let w = sort_by_quality(s);
        assert forall|t: int| 0 <= t < w.len() implies exists|u: int|
            0 <= u < s.len() && s[u] == #[trigger] w[t] by {
            if w[t] == s.last() {
                assert(s[s.len() - 1] == w[t]);
            } else {
                let u0 = choose|u0: int|
                    0 <= u0 < sort_by_quality(s.drop_last()).len() && sort_by_quality(
                        s.drop_last(),
                    )[u0] == w[t];
                let u1 = choose|u1: int|
                    0 <= u1 < s.drop_last().len() && s.drop_last()[u1] == sort_by_quality(
                        s.drop_last(),
                    )[u0];
                assert(s[u1] == w[t]);
            }
        }
    }
}

/// Every normalized access point carries a quality on the scale: the
/// signal mapping is clamped, deduplication only drops records, and the
/// ordering only rearranges them.
pub proof fn lemma_normalize_quality_bounded(s: Seq<RawAccessPointView>)
    ensures
        forall|i: int|
            0 <= i < normalize_spec(s).len() ==> (#[trigger] normalize_spec(s)[i]).quality
                <= QUALITY_UNIT,
{
    let mapped = points_of_raws(s);
    assert forall|k: int| 0 <= k < mapped.len() implies (#[trigger] mapped[k]).quality
        <= QUALITY_UNIT by {
        lemma_signal_quality_within_unit(s[k].signal_level);
    }
    let dd = dedup_by_mac(mapped);
    lemma_dedup_by_mac_first(mapped);
    assert forall|i: int| 0 <= i < dd.len() implies (#[trigger] dd[i]).quality <= QUALITY_UNIT by {
        assert(first_with_mac(mapped, dd[i].mac) == Some(dd[i]));
        lemma_find_mac_props(mapped, dd[i].mac, 0);
        let k = find_mac(mapped, dd[i].mac, 0).unwrap();
        assert(mapped[k] == dd[i]);
    }
    lemma_sort_by_quality_elements(dd);
    assert forall|i: int| 0 <= i < normalize_spec(s).len() implies (#[trigger] normalize_spec(
        s,
    )[i]).quality <= QUALITY_UNIT by {
        let u0 = choose|u0: int| 0 <= u0 < dd.len() && dd[u0] == sort_by_quality(dd)[i];
        assert(dd[u0].quality <= QUALITY_UNIT);
    }
}

/// Deduplication keeps one access point per hardware address: the
/// surviving records bear pairwise distinct addresses, every survivor
/// is the first input record bearing its address (so the first-seen
/// SSID, quality and channel are retained), and every input address is
/// represented.
pub proof fn lemma_dedup_by_mac_first(s: Seq<AccessPointView>)
    ensures
        forall|i: int, j: int|
            0 <= i < j < dedup_by_mac(s).len() ==> (#[trigger] dedup_by_mac(s)[i]).mac != (
            #[trigger] dedup_by_mac(s)[j]).mac,
        forall|i: int|
            0 <= i < dedup_by_mac(s).len() ==> first_with_mac(
                s,
                (#[trigger] dedup_by_mac(s)[i]).mac,
            ) == Some(dedup_by_mac(s)[i]),
        forall|k: int|
            0 <= k < s.len() ==> exists|i: int|
                0 <= i < dedup_by_mac(s).len() && (#[trigger] dedup_by_mac(s)[i]).mac == (
                #[trigger] s[k]).mac,
{
    lemma_dedup_from_props(s, Set::empty());
}

} // verus!
