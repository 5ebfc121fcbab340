//! Suggestion ranking: order the congestion table by ascending load
//! with a deliberate, deterministic tie-break, prefer lightly loaded
//! standard channels, and return a bounded list of channel ids.

use crate::access_point::{find_mac, get_current_point, AccessPoint, AccessPointView};
use crate::channel::{is_priority_channel, least_intersected, ChannelId, MAX_CHANNEL};
use crate::load::{channels_load_spec, compute_channels_load, ChannelLoad};
use core::cmp::Ordering;
use vstd::prelude::*;

verus! {

/// At most this many channels are ever suggested.
pub const MAX_SUGGESTIONS: usize = 5;

/// Loads strictly below this threshold count as light, on the
/// fixed-point quality scale.
pub const LOW_LOAD: u64 = 160000;

/// The ranking order of two table entries: ascending load; entries of
/// equal load put the higher channel id first.  That is deliberately
/// the only tie-break rule.
pub open spec fn cmp_load_spec(a: ChannelLoad, b: ChannelLoad) -> Ordering {
    if a.1 == b.1 {
        if b.0 < a.0 {
            Ordering::Less
        } else if b.0 == a.0 {
            Ordering::Equal
        } else {
            Ordering::Greater
        }
    } else if a.1 < b.1 {
        Ordering::Less
    } else {
        Ordering::Greater
    }
}

/// `a` ranks no worse than `b`.
pub open spec fn load_le(a: ChannelLoad, b: ChannelLoad) -> bool {
    cmp_load_spec(a, b) != Ordering::Greater
}

/// Compare two table entries for ranking: ascending load, equal loads
/// by descending channel id.
pub fn compare_channels_load(a: &ChannelLoad, b: &ChannelLoad) -> (r: Ordering)
    ensures
        r == cmp_load_spec(*a, *b),
{
    if a.1 == b.1 {
        if b.0 < a.0 {
            Ordering::Less
        } else if b.0 == a.0 {
            Ordering::Equal
        } else {
            Ordering::Greater
        }
    } else if a.1 < b.1 {
        Ordering::Less
    } else {
        Ordering::Greater
    }
}

/// Where an entry ranks: after every entry that ranks no worse than it.
pub open spec fn insert_by_load(e: ChannelLoad, s: Seq<ChannelLoad>) -> Seq<ChannelLoad>
    decreases s.len(),
{
    if s.len() == 0 {
        seq![e]
    } else if load_le(s[0], e) {
        seq![s[0]] + insert_by_load(e, s.drop_first())
    } else {
        seq![e] + s
    }
}

/// Insertion sort of the congestion table under the ranking order.
pub open spec fn sort_loads(s: Seq<ChannelLoad>) -> Seq<ChannelLoad>
    decreases s.len(),
{
    if s.len() == 0 {
        Seq::empty()
    } else {
        insert_by_load(s.last(), sort_loads(s.drop_last()))
    }
}

proof fn lemma_insert_by_load_len(e: ChannelLoad, s: Seq<ChannelLoad>)
    ensures
        insert_by_load(e, s).len() == s.len() + 1,
    decreases s.len(),
{
    if s.len() > 0 && load_le(s[0], e) {
        lemma_insert_by_load_len(e, s.drop_first());
    }
}

proof fn lemma_sort_loads_len(s: Seq<ChannelLoad>)
    ensures
        sort_loads(s).len() == s.len(),
    decreases s.len(),
{
    if s.len() > 0 {
        lemma_sort_loads_len(s.drop_last());
        lemma_insert_by_load_len(s.last(), sort_loads(s.drop_last()));
    }
}

proof fn lemma_head_tail_split_len(s: Seq<ChannelLoad>)
    ensures
        head_entries(s).len() + tail_entries(s).len() == s.len(),
    decreases s.len(),
{
    reveal(Seq::filter);
    if s.len() > 0 {
        lemma_head_tail_split_len(s.drop_last());
    }
}

proof fn lemma_insert_load_at(e: ChannelLoad, s: Seq<ChannelLoad>, j: int)
    requires
        0 <= j <= s.len(),
        forall|t: int| 0 <= t < j ==> load_le(#[trigger] s[t], e),
        j < s.len() ==> !load_le(s[j], e),
    ensures
        insert_by_load(e, s) == s.take(j) + seq![e] + s.skip(j),
    decreases s.len(),
{
    if s.len() == 0 {
        assert(insert_by_load(e, s) =~= s.take(j) + seq![e] + s.skip(j));
    } else if load_le(s[0], e) {
        assert(j >= 1);
        lemma_insert_load_at(e, s.drop_first(), j - 1);
        assert(insert_by_load(e, s) =~= s.take(j) + seq![e] + s.skip(j));
    } else {
        assert(j == 0);
        assert(insert_by_load(e, s) =~= s.take(j) + seq![e] + s.skip(j));
    }
}

/// Sort the congestion table under the ranking order.
fn sort_channels_load(table: Vec<ChannelLoad>) -> (r: Vec<ChannelLoad>)
    ensures
        r@ == sort_loads(table@),
{
    let ghost orig = table@;
    let mut src = table;
    let mut result: Vec<ChannelLoad> = Vec::new();
    while src.len() > 0
        invariant
            src@.len() <= orig.len(),
            src@ =~= orig.skip(orig.len() - src@.len()),
            result@ == sort_loads(orig.take(orig.len() - src@.len())),
        decreases src.len(),
    {
        let ghost k = orig.len() - src@.len();
        let e = src.remove(0);
        proof {
            assert(0 <= k < orig.len());
            assert(e == orig[k]);
            assert(src@ =~= orig.skip(k + 1));
        }

        let mut j: usize = 0;
        while j < result.len() && matches!(compare_channels_load(&result[j], &e), Ordering::Less | Ordering::Equal)
            invariant
                j <= result@.len(),
                forall|t: int| 0 <= t < j ==> load_le(#[trigger] result@[t], e),
            decreases result@.len() - j,
        {
            j = j + 1;
        }
        proof {
            lemma_insert_load_at(e, result@, j as int);
        }
        let ghost before = result@;
        result.insert(j, e);
        proof {
            assert(result@ =~= before.take(j as int) + seq![e] + before.skip(j as int));
            let done = orig.take(k + 1);
            assert(done.drop_last() =~= orig.take(k));
            assert(done.last() == orig[k]);
            assert(result@ == sort_loads(done));
        }
    }
    proof {
        assert(orig.take(orig.len() - src@.len()) =~= orig);
    }
    result
}

/// Whether a table entry belongs to the preferred head of the ranking:
/// a standard non-overlapping channel under light load.
pub open spec fn is_head_entry(e: ChannelLoad) -> bool {
    is_priority_channel(e.0) && e.1 < LOW_LOAD
}

/// The preferred entries of a ranking, in their ranking order.
pub open spec fn head_entries(s: Seq<ChannelLoad>) -> Seq<ChannelLoad> {
    s.filter(|e: ChannelLoad| is_head_entry(e))
}

/// The remaining entries of a ranking, in their ranking order.
pub open spec fn tail_entries(s: Seq<ChannelLoad>) -> Seq<ChannelLoad> {
    s.filter(|e: ChannelLoad| !is_head_entry(e))
}

/// The ranked entries, preferred head first, the rest behind it, each
/// side keeping the ranking order.
pub open spec fn ranked_entries(table: Seq<ChannelLoad>) -> Seq<ChannelLoad> {
    head_entries(sort_loads(table)) + tail_entries(sort_loads(table))
}

/// The suggested channels for a set of access points: the best-ranked
/// channel ids, at most `MAX_SUGGESTIONS` of them.
pub open spec fn suggestion_spec(points: Seq<AccessPointView>) -> Seq<ChannelId> {
    ranked_entries(channels_load_spec(points)).map_values(|e: ChannelLoad| e.0).take(
        MAX_SUGGESTIONS as int,
    )
}

/// Suggest channels for the given access points: rank every channel of
/// the band by estimated congestion — lightly loaded standard channels
/// first, then everything else by ascending load, ties to the higher
/// id — and return the best `MAX_SUGGESTIONS` channel ids.  This never
/// fails, whatever the input.
pub fn compute_suggestion(other_points: &Vec<AccessPoint>) -> (r: Vec<ChannelId>)
    ensures
        r@ == suggestion_spec(other_points.deep_view()),
{
    let table = compute_channels_load(other_points);
    let sorted = sort_channels_load(table);
    let ghost sortedv = sorted@;

    let mut head: Vec<ChannelLoad> = Vec::new();
    let mut tail: Vec<ChannelLoad> = Vec::new();
    let mut i: usize = 0;
    while i < sorted.len()
        invariant
            i <= sortedv.len(),
            sorted@ == sortedv,
            head@ == head_entries(sortedv.take(i as int)),
            tail@ == tail_entries(sortedv.take(i as int)),
        decreases sortedv.len() - i,
    {
        let e = sorted[i];
        let keep = least_intersected(e.0) && e.1 < LOW_LOAD;
        if keep {
            head.push(e);
        } else {
            tail.push(e);
        }
        i = i + 1;
        proof {
            reveal(Seq::filter);
            let pre = sortedv.take(i - 1);
            let now = sortedv.take(i as int);
            assert(now.drop_last() =~= pre);
            assert(now.last() == e);
            assert(head@ =~= head_entries(now));
            assert(tail@ =~= tail_entries(now));
        }
    }
    proof {
        assert(sortedv.take(sortedv.len() as int) =~= sortedv);
    }

    let ghost target = ranked_entries(channels_load_spec(other_points.deep_view()));
    proof {
        assert(head@ + tail@ == target);
    }
    let mut ranked = head;
    while tail.len() > 0
        invariant
            ranked@ + tail@ == target,
        decreases tail.len(),
    {
        let e = tail.remove(0);
        ranked.push(e);
        proof {
            assert(ranked@ + tail@ =~= target);
        }
    }

    let mut r: Vec<ChannelId> = Vec::new();
    let mut m: usize = 0;
    let take_n = if ranked.len() < MAX_SUGGESTIONS {
        ranked.len()
    } else {
        MAX_SUGGESTIONS
    };
    while m < take_n
        invariant
            m <= take_n,
            take_n == (if ranked@.len() < MAX_SUGGESTIONS as int {
                ranked@.len() as int
            } else {
                MAX_SUGGESTIONS as int
            }),
            ranked@ + tail@ == target,
            target == ranked_entries(channels_load_spec(other_points.deep_view())),
            tail@.len() == 0,
            r@.len() == m as int,
            forall|t: int| 0 <= t < m ==> #[trigger] r@[t] == ranked@[t].0,
        decreases take_n - m,
    {
        r.push(ranked[m].0);
        m = m + 1;
    }
    proof {
        assert(ranked@ + tail@ =~= ranked@);
        let table = channels_load_spec(other_points.deep_view());
        lemma_sort_loads_len(table);
        lemma_head_tail_split_len(sort_loads(table));
        assert(ranked@.len() == table.len());
        assert(r@ =~= suggestion_spec(other_points.deep_view()));
    }
    r
}

/// How often channel `c` appears in a table.
spec fn count_id(s: Seq<ChannelLoad>, c: u8) -> int
    decreases s.len(),
{
    if s.len() == 0 {
        0
    } else {
        count_id(s.drop_last(), c) + (if s.last().0 == c {
            1int
        } else {
            0int
        })
    }
}

proof fn lemma_count_id_nonneg(s: Seq<ChannelLoad>, c: u8)
    ensures
        count_id(s, c) >= 0,
    decreases s.len(),
{
    if s.len() > 0 {
        lemma_count_id_nonneg(s.drop_last(), c);
    }
}

proof fn lemma_count_id_concat(a: Seq<ChannelLoad>, b: Seq<ChannelLoad>, c: u8)
    ensures
        count_id(a + b, c) == count_id(a, c) + count_id(b, c),
    decreases b.len(),
{
    if b.len() == 0 {
        assert(a + b =~= a);
    } else {
        assert((a + b).drop_last() =~= a + b.drop_last());
        assert((a + b).last() == b.last());
        lemma_count_id_concat(a, b.drop_last(), c);
    }
}

proof fn lemma_count_id_insert(e: ChannelLoad, s: Seq<ChannelLoad>, c: u8)
    ensures
        count_id(insert_by_load(e, s), c) == count_id(s, c) + (if e.0 == c {
            1int
        } else {
            0int
        }),
    decreases s.len(),
{
    if s.len() == 0 {
        assert(count_id(seq![e], c) == (if e.0 == c {
            1int
        } else {
            0int
        })) by {
            assert(seq![e].drop_last() =~= Seq::<ChannelLoad>::empty());
            assert(count_id(Seq::<ChannelLoad>::empty(), c) == 0);
        }
    } else if load_le(s[0], e) {
        lemma_count_id_insert(e, s.drop_first(), c);
        lemma_count_id_concat(seq![s[0]], insert_by_load(e, s.drop_first()), c);
        lemma_count_id_concat(seq![s[0]], s.drop_first(), c);
        assert(seq![s[0]] + s.drop_first() =~= s);
        assert(count_id(seq![s[0]], c) == (if s[0].0 == c {
            1int
        } else {
            0int
        })) by {
            assert(seq![s[0]].drop_last() =~= Seq::<ChannelLoad>::empty());
            assert(count_id(Seq::<ChannelLoad>::empty(), c) == 0);
        }
    } else {
        lemma_count_id_concat(seq![e], s, c);
        assert(count_id(seq![e], c) == (if e.0 == c {
            1int
        } else {
            0int
        })) by {
            assert(seq![e].drop_last() =~= Seq::<ChannelLoad>::empty());
            assert(count_id(Seq::<ChannelLoad>::empty(), c) == 0);
        }
    }
}

proof fn lemma_count_id_sort(s: Seq<ChannelLoad>, c: u8)
    ensures
        count_id(sort_loads(s), c) == count_id(s, c),
    decreases s.len(),
{
    if s.len() > 0 {
        lemma_count_id_sort(s.drop_last(), c);
        lemma_count_id_insert(s.last(), sort_loads(s.drop_last()), c);
    }
}

proof fn lemma_count_id_split(s: Seq<ChannelLoad>, c: u8)
    ensures
        count_id(head_entries(s), c) + count_id(tail_entries(s), c) == count_id(s, c),
    decreases s.len(),
{
    reveal(Seq::filter);
    if s.len() > 0 {
        lemma_count_id_split(s.drop_last(), c);
        if is_head_entry(s.last()) {
            assert(head_entries(s) == head_entries(s.drop_last()).push(s.last()));
            assert(head_entries(s).drop_last() =~= head_entries(s.drop_last()));
        } else {
            assert(tail_entries(s) == tail_entries(s.drop_last()).push(s.last()));
            assert(tail_entries(s).drop_last() =~= tail_entries(s.drop_last()));
        }
    }
}

proof fn lemma_count_id_one(s: Seq<ChannelLoad>, i: int)
    requires
        0 <= i < s.len(),
    ensures
        count_id(s, s[i].0) >= 1,
    decreases s.len(),
{
    if i < s.len() - 1 {
        lemma_count_id_one(s.drop_last(), i);
    } else {
        lemma_count_id_nonneg(s.drop_last(), s[i].0);
    }
}

proof fn lemma_count_id_two(s: Seq<ChannelLoad>, i: int, j: int)
    requires
        0 <= i < j < s.len(),
        s[i].0 == s[j].0,
    ensures
        count_id(s, s[i].0) >= 2,
    decreases s.len(),
{
    if j == s.len() - 1 {
        lemma_count_id_one(s.drop_last(), i);
    } else {
        lemma_count_id_two(s.drop_last(), i, j);
    }
}


proof fn lemma_count_id_table(points: Seq<AccessPointView>, c: u8, n: int)
    requires
        0 <= n <= MAX_CHANNEL,
    ensures
        count_id(channels_load_spec(points).take(n), c) == (if 1 <= c <= n {
            1int
        } else {
            0int
        }),
    decreases n,
{
    let table = channels_load_spec(points);
    if n > 0 {
        lemma_count_id_table(points, c, n - 1);
        assert(table.take(n).drop_last() =~= table.take(n - 1));
        assert(table.take(n).last() == table[n - 1]);
        assert(table[n - 1].0 == n);
    }
}

/// The ranking is total and capped: for every input — including the
/// empty one — the suggestion list holds exactly the smaller of
/// `MAX_SUGGESTIONS` and the number of channels, and no channel id
/// appears in it twice.
pub proof fn lemma_suggestion_total_and_capped(points: Seq<AccessPointView>)
    ensures
        suggestion_spec(points).len() == (if MAX_SUGGESTIONS as int <= MAX_CHANNEL as int {
            MAX_SUGGESTIONS as int
        } else {
            MAX_CHANNEL as int
        }),
        forall|i: int, j: int|
            0 <= i < j < suggestion_spec(points).len() ==> #[trigger] suggestion_spec(points)[i]
                != #[trigger] suggestion_spec(points)[j],
{
    let table = channels_load_spec(points);
    let sorted = sort_loads(table);
    let ranked = ranked_entries(table);
    lemma_sort_loads_len(table);
    lemma_head_tail_split_len(sorted);
    assert(ranked.len() == MAX_CHANNEL as int);
    assert forall|i: int, j: int|
        0 <= i < j < suggestion_spec(points).len() implies #[trigger] suggestion_spec(points)[i]
        != #[trigger] suggestion_spec(points)[j] by {
        if suggestion_spec(points)[i] == suggestion_spec(points)[j] {
            assert(ranked[i].0 == ranked[j].0);
            lemma_count_id_two(ranked, i, j);
            let c = ranked[i].0;
            lemma_count_id_concat(head_entries(sorted), tail_entries(sorted), c);
            lemma_count_id_split(sorted, c);
            lemma_count_id_sort(table, c);
            lemma_count_id_table(points, c, MAX_CHANNEL as int);
            assert(table.take(MAX_CHANNEL as int) =~= table);
            assert(count_id(ranked, c) <= 1);
            assert(false);
        }
    }
}

proof fn lemma_load_le_trans(a: ChannelLoad, b: ChannelLoad, c: ChannelLoad)
    requires
        load_le(a, b),
        load_le(b, c),
    ensures
        load_le(a, c),
{
}

proof fn lemma_insert_elements(e: ChannelLoad, s: Seq<ChannelLoad>)
    ensures
        forall|t: int|
            0 <= t < insert_by_load(e, s).len() ==> #[trigger] insert_by_load(e, s)[t] == e
                || exists|u: int| 0 <= u < s.len() && s[u] == insert_by_load(e, s)[t],
    decreases s.len(),
{
    if s.len() > 0 && load_le(s[0], e) {
        lemma_insert_elements(e, s.drop_first());
        let w = insert_by_load(e, s.drop_first());
        assert forall|t: int|
            0 <= t < insert_by_load(e, s).len() implies #[trigger] insert_by_load(e, s)[t] == e
            || exists|u: int| 0 <= u < s.len() && s[u] == insert_by_load(e, s)[t] by {
            if t == 0 {
                assert(s[0] == insert_by_load(e, s)[0]);
            } else {
                assert(insert_by_load(e, s)[t] == w[t - 1]);
                if w[t - 1] != e {
                    let u0 = choose|u0: int|
                        0 <= u0 < s.drop_first().len() && s.drop_first()[u0] == w[t - 1];
                    assert(s[u0 + 1] == insert_by_load(e, s)[t]);
                }
            }
        }
    }
}

proof fn lemma_insert_preserves_sorted(e: ChannelLoad, s: Seq<ChannelLoad>)
    requires
        forall|i: int, j: int| 0 <= i < j < s.len() ==> load_le(#[trigger] s[i], #[trigger] s[j]),
    ensures
        forall|i: int, j: int|
            0 <= i < j < insert_by_load(e, s).len() ==> load_le(
                #[trigger] insert_by_load(e, s)[i],
                #[trigger] insert_by_load(e, s)[j],
            ),
    decreases s.len(),
{
    let w = insert_by_load(e, s);
    if s.len() == 0 {
    } else if load_le(s[0], e) {
        let rest = s.drop_first();
        lemma_insert_preserves_sorted(e, rest);
        lemma_insert_elements(e, rest);
        let wr = insert_by_load(e, rest);
        assert forall|i: int, j: int| 0 <= i < j < w.len() implies load_le(
            #[trigger] w[i],
            #[trigger] w[j],
        ) by {
            if i == 0 {
                assert(w[0] == s[0]);
                assert(w[j] == wr[j - 1]);
                if wr[j - 1] == e {
                    assert(load_le(s[0], e));
                } else {
                    let u0 = choose|u0: int| 0 <= u0 < rest.len() && rest[u0] == wr[j - 1];
                    assert(load_le(s[0], s[u0 + 1]));
                }
            } else {
                assert(w[i] == wr[i - 1]);
                assert(w[j] == wr[j - 1]);
            }
        }
    } else {
        assert(load_le(e, s[0]));
        assert forall|i: int, j: int| 0 <= i < j < w.len() implies load_le(
            #[trigger] w[i],
            #[trigger] w[j],
        ) by {
            if i == 0 {
                assert(w[j] == s[j - 1]);
                if j > 1 {
                    lemma_load_le_trans(e, s[0], s[j - 1]);
                }
            } else {
                assert(w[i] == s[i - 1]);
                assert(w[j] == s[j - 1]);
            }
        }
    }
}

proof fn lemma_sort_loads_sorted(s: Seq<ChannelLoad>)
    ensures
        forall|i: int, j: int|
            0 <= i < j < sort_loads(s).len() ==> load_le(
                #[trigger] sort_loads(s)[i],
                #[trigger] sort_loads(s)[j],
            ),
    decreases s.len(),
{
    if s.len() > 0 {
        lemma_sort_loads_sorted(s.drop_last());
        lemma_insert_preserves_sorted(s.last(), sort_loads(s.drop_last()));
    }
}

/// The access points that do not bear the given hardware address.
pub open spec fn points_excluding(
    s: Seq<AccessPointView>,
    mac: Seq<char>,
) -> Seq<AccessPointView> {
    s.filter(|p: AccessPointView| p.mac != mac)
}

fn clone_point(p: &AccessPoint) -> (r: AccessPoint)
    ensures
        r.deep_view() == p.deep_view(),
{
    AccessPoint {
        ssid: p.ssid.clone(),
        mac: p.mac.clone(),
        quality: p.quality,
        signal: p.signal.clone(),
        channel: p.channel,
    }
}

/// Keep the access points whose hardware address differs from `mac`.
fn filter_out_mac(points: &Vec<AccessPoint>, mac: &String) -> (r: Vec<AccessPoint>)
    ensures
        r.deep_view() == points_excluding(points.deep_view(), mac@),
{
    let mut r: Vec<AccessPoint> = Vec::new();
    let mut i: usize = 0;
    while i < points.len()
        invariant
            i <= points@.len(),
            r.deep_view() == points_excluding(points.deep_view().take(i as int), mac@),
        decreases points@.len() - i,
    {
        let keep = !(points[i].mac == *mac);
        if keep {
            let c = clone_point(&points[i]);
            r.push(c);
        }
        i = i + 1;
        proof {
            reveal(Seq::filter);
            let pre = points.deep_view().take(i - 1);
            let now = points.deep_view().take(i as int);
            assert(now.drop_last() =~= pre);
            assert(now.last() == points.deep_view()[i - 1]);
            assert(points.deep_view()[i - 1] == points@[i - 1]@);
            assert(r.deep_view() =~= points_excluding(now, mac@));
        }
    }
    proof {
        assert(points.deep_view().take(points@.len() as int) =~= points.deep_view());
    }
    r
}

/// Everything the composer reports for one scan pass.
pub struct SuggestionReport {
    /// The best channels for staying with the current access point,
    /// computed with that access point's own emissions excluded; absent
    /// when no current access point is identified.
    pub current: Option<Vec<ChannelId>>,
    /// The best channels for setting up a brand-new access point,
    /// computed over everything.
    pub new_router: Vec<ChannelId>,
    /// The full congestion table over everything.
    pub channels_load: Vec<ChannelLoad>,
}

/// Run the ranker for both scenarios: once excluding the currently
/// associated access point — identified by exact hardware-address
/// equality — so its suggestion reflects the environment around it, and
/// once over the full set; also emit the full congestion table.  When
/// the resolved address matches no access point, or none was resolved,
/// the current-network suggestion is absent.
pub fn compose_suggestions(points: &Vec<AccessPoint>, current_mac: &Option<String>) -> (r:
    SuggestionReport)
    ensures
        match current_mac.deep_view() {
            None => r.current is None,
            Some(m) => {
                if find_mac(points.deep_view(), m, 0) is Some {
                    r.current matches Some(v) && v@ == suggestion_spec(
                        points_excluding(points.deep_view(), m),
                    )
                } else {
                    r.current is None
                }
            },
        },
        r.new_router@ == suggestion_spec(points.deep_view()),
        r.channels_load@ == channels_load_spec(points.deep_view()),
{
    let current: Option<Vec<ChannelId>> = match current_mac {
        None => None,
        Some(m) => {
            match get_current_point(points, current_mac) {
                None => None,
                Some(_found) => {
                    let filtered = filter_out_mac(points, m);
                    Some(compute_suggestion(&filtered))
                },
            }
        },
    };
    let new_router = compute_suggestion(points);
    let channels_load = compute_channels_load(points);
    SuggestionReport { current, new_router, channels_load }
}

/// Tie-break determinism: in the ranking order, entries of equal load
/// stand with the higher channel id first; for two distinct channels of
/// equal load the one with the higher id strictly precedes the other.
pub proof fn lemma_tie_break_higher_id_first(table: Seq<ChannelLoad>)
    ensures
        forall|i: int, j: int|
            0 <= i < j < sort_loads(table).len() && (#[trigger] sort_loads(table)[i]).1 == (
            #[trigger] sort_loads(table)[j]).1 ==> sort_loads(table)[i].0 >= sort_loads(table)[j].0,
        forall|i: int, j: int|
            0 <= i < j < sort_loads(table).len() && (#[trigger] sort_loads(table)[i]).1 == (
            #[trigger] sort_loads(table)[j]).1 && sort_loads(table)[i].0 != sort_loads(table)[j].0
                ==> sort_loads(table)[i].0 > sort_loads(table)[j].0,
{
    lemma_sort_loads_sorted(table);
}

} // verus!
