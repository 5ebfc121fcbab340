//! Channel identifiers and the adjacent-channel overlap model.
//!
//! Channels are identified by small integers; channels that are numerically
//! close enough share frequency spectrum and therefore interfere.  The top
//! channel of the band sits further from its numeric neighbors than the
//! numbering suggests, which the model accounts for by a shift.

use crate::digits::{all_digits, dec_str_of, dec_val, is_dec_digit};
use vstd::prelude::*;
use vstd::string::StringExecFns;

verus! {

/// Identifier of a wireless radio channel; `0` is reserved for "unknown".
pub type ChannelId = u8;

/// The lowest valid channel of the band.
pub const MIN_CHANNEL: u8 = 1;

/// The highest valid channel of the band.
pub const MAX_CHANNEL: u8 = 14;

/// Sentinel for an unparseable or absent channel number.
pub const UNKNOWN_CHANNEL: u8 = 0;

/// Channels whose shifted ids are closer than this share spectrum.
pub const MIN_CHANNELS_DISTANCE: u8 = 5;

/// The top of the band is non-uniform: for distance purposes the highest
/// channel behaves as if it sat two numbering steps higher than it does.
pub open spec fn shifted(x: u8) -> int {
    if x == MAX_CHANNEL {
        x + 2
    } else {
        x as int
    }
}

/// Two channels interfere when their shifted ids are strictly closer
/// than `MIN_CHANNELS_DISTANCE`.
pub open spec fn channels_intersect_spec(a: u8, b: u8) -> bool {
    let d = if shifted(a) >= shifted(b) {
        shifted(a) - shifted(b)
    } else {
        shifted(b) - shifted(a)
    };
    d < MIN_CHANNELS_DISTANCE
}

/// Whether channels `a` and `b` interfere under the numeric spacing model.
pub fn channels_intersect(a: u8, b: u8) -> (r: bool)
    ensures
        r == channels_intersect_spec(a, b),
{
    let sa: u16 = if a == MAX_CHANNEL {
        a as u16 + 2
    } else {
        a as u16
    };
    let sb: u16 = if b == MAX_CHANNEL {
        b as u16 + 2
    } else {
        b as u16
    };
    let d: u16 = if sa >= sb {
        sa - sb
    } else {
        sb - sa
    };
    d < MIN_CHANNELS_DISTANCE as u16
}

pub open spec fn is_valid_channel_spec(id: u8) -> bool {
    id != UNKNOWN_CHANNEL && id <= MAX_CHANNEL
}

/// A channel is valid when it is neither the unknown sentinel nor above the band.
pub fn is_valid_channel(id: u8) -> (r: bool)
    ensures
        r == is_valid_channel_spec(id),
{
    id != UNKNOWN_CHANNEL && id <= MAX_CHANNEL
}

/// The band's standard non-overlapping channels.
pub open spec fn is_priority_channel(id: u8) -> bool {
    id == 1 || id == 6 || id == 11 || id == 14
}

/// Whether `id` is one of the band's standard non-overlapping channels.
pub fn least_intersected(id: u8) -> (r: bool)
    ensures
        r == is_priority_channel(id),
{
    id == 1 || id == 6 || id == 11 || id == 14
}

/// The channels below `x` that interfere with `x`, nearest first: walk
/// downward from `x` while above `MIN_CHANNEL`, within `fuel` steps,
/// keeping the ids that interfere.
pub open spec fn walk_down(x: u8, y: u8, fuel: nat) -> Seq<u8>
    decreases fuel,
{
    if y > MIN_CHANNEL && fuel > 0 {
        let next = (y - 1) as u8;
        let rest = walk_down(x, next, (fuel - 1) as nat);
        if channels_intersect_spec(next, x) {
            seq![next] + rest
        } else {
            rest
        }
    } else {
        Seq::empty()
    }
}

/// The channels above `x` that interfere with `x`, nearest first: the
/// mirror walk upward while below `MAX_CHANNEL`.
pub open spec fn walk_up(x: u8, y: u8, fuel: nat) -> Seq<u8>
    decreases fuel,
{
    if y < MAX_CHANNEL && fuel > 0 {
        let next = (y + 1) as u8;
        let rest = walk_up(x, next, (fuel - 1) as nat);
        if channels_intersect_spec(next, x) {
            seq![next] + rest
        } else {
            rest
        }
    } else {
        Seq::empty()
    }
}

/// Lower interfering neighbors of `x`, nearest first.
pub open spec fn lower_neighbors(x: u8) -> Seq<u8> {
    walk_down(x, x, MIN_CHANNELS_DISTANCE as nat)
}

/// Upper interfering neighbors of `x`, nearest first.
pub open spec fn upper_neighbors(x: u8) -> Seq<u8> {
    walk_up(x, x, MIN_CHANNELS_DISTANCE as nat)
}

/// Every id produced by the downward walk lies in `MIN_CHANNEL .. y`.
pub proof fn lemma_walk_down_range(x: u8, y: u8, fuel: nat)
    ensures
        forall|i: int|
            0 <= i < walk_down(x, y, fuel).len() ==> MIN_CHANNEL <= #[trigger] walk_down(
                x,
                y,
                fuel,
            )[i] < y,
        walk_down(x, y, fuel).len() <= fuel,
    decreases fuel,
{
    if y > MIN_CHANNEL && fuel > 0 {
        lemma_walk_down_range(x, (y - 1) as u8, (fuel - 1) as nat);
    }
}

/// Every id produced by the upward walk lies in `y + 1 ..= MAX_CHANNEL`.
pub proof fn lemma_walk_up_range(x: u8, y: u8, fuel: nat)
    ensures
        forall|i: int|
            0 <= i < walk_up(x, y, fuel).len() ==> y < #[trigger] walk_up(x, y, fuel)[i]
                <= MAX_CHANNEL,
        walk_up(x, y, fuel).len() <= fuel,
    decreases fuel,
{
    if y < MAX_CHANNEL && fuel > 0 {
        lemma_walk_up_range(x, (y + 1) as u8, (fuel - 1) as nat);
    }
}

/// The interfering channels below and above `x`, each nearest first and
/// bounded to a constant number of steps, so that the search is O(1) in
/// the size of the band.
pub fn intersected_channels(x: u8) -> (r: (Vec<u8>, Vec<u8>))
    ensures
        r.0@ == lower_neighbors(x),
        r.1@ == upper_neighbors(x),
{
    let limit: usize = MIN_CHANNELS_DISTANCE as usize;

    let mut left: Vec<u8> = Vec::new();
    let mut y: u8 = x;
    let mut i: usize = 0;
    while y > MIN_CHANNEL && i < limit
        invariant
            i <= limit,
            left@ + walk_down(x, y, (limit - i) as nat) == lower_neighbors(x),
        decreases limit - i,
    {
        y = y - 1;
        i = i + 1;
        if channels_intersect(y, x) {
            left.push(y);
        }
        proof {
            assert(left@ + walk_down(x, y, (limit - i) as nat) =~= lower_neighbors(x));
        }
    }

    let mut right: Vec<u8> = Vec::new();
    let mut y: u8 = x;
    let mut i: usize = 0;
    while y < MAX_CHANNEL && i < limit
        invariant
            i <= limit,
            right@ + walk_up(x, y, (limit - i) as nat) == upper_neighbors(x),
        decreases limit - i,
    {
        y = y + 1;
        i = i + 1;
        if channels_intersect(y, x) {
            right.push(y);
        }
        proof {
            assert(right@ + walk_up(x, y, (limit - i) as nat) =~= upper_neighbors(x));
        }
    }

    (left, right)
}

/// Below `x`, overlap is downward-bounded: anything overlapping from
/// further away overlaps from nearer too.
proof fn lemma_intersect_monotone_below(x: u8, near: u8, far: u8)
    requires
        x <= MAX_CHANNEL,
        far < near < x,
    ensures
        channels_intersect_spec(far, x) ==> channels_intersect_spec(near, x),
{
}

/// Above `x`, overlap is downward-bounded the same way: the shift keeps
/// the shifted ids strictly increasing.
proof fn lemma_intersect_monotone_above(x: u8, near: u8, far: u8)
    requires
        x < near < far <= MAX_CHANNEL,
    ensures
        channels_intersect_spec(far, x) ==> channels_intersect_spec(near, x),
{
}

proof fn lemma_walk_down_stops(x: u8, y: u8, fuel: nat)
    requires
        forall|c: u8| MIN_CHANNEL <= c < y ==> !channels_intersect_spec(c, x),
    ensures
        walk_down(x, y, fuel).len() == 0,
    decreases fuel,
{
    if y > MIN_CHANNEL && fuel > 0 {
        lemma_walk_down_stops(x, (y - 1) as u8, (fuel - 1) as nat);
    }
}

proof fn lemma_walk_up_stops(x: u8, y: u8, fuel: nat)
    requires
        forall|c: u8| y < c <= MAX_CHANNEL ==> !channels_intersect_spec(c, x),
    ensures
        walk_up(x, y, fuel).len() == 0,
    decreases fuel,
{
    if y < MAX_CHANNEL && fuel > 0 {
        lemma_walk_up_stops(x, (y + 1) as u8, (fuel - 1) as nat);
    }
}

proof fn lemma_walk_down_consecutive(x: u8, y: u8, fuel: nat)
    requires
        x <= MAX_CHANNEL,
        y <= x,
    ensures
        forall|i: int|
            0 <= i < walk_down(x, y, fuel).len() ==> #[trigger] walk_down(x, y, fuel)[i] == y - 1
                - i,
    decreases fuel,
{
    if y > MIN_CHANNEL && fuel > 0 {
        let next = (y - 1) as u8;
        if channels_intersect_spec(next, x) {
            lemma_walk_down_consecutive(x, next, (fuel - 1) as nat);
            let w = walk_down(x, y, fuel);
            let rest = walk_down(x, next, (fuel - 1) as nat);
            assert(w == seq![next] + rest);
            assert forall|i: int| 0 <= i < w.len() implies #[trigger] w[i] == y - 1 - i by {
                if i > 0 {
                    assert(w[i] == rest[i - 1]);
                }
            }
        } else {
            assert forall|c: u8| MIN_CHANNEL <= c < next implies !channels_intersect_spec(
                c,
                x,
            ) by {
                if c < next {
                    lemma_intersect_monotone_below(x, next, c);
                }
            }
            lemma_walk_down_stops(x, next, (fuel - 1) as nat);
        }
    }
}

proof fn lemma_walk_up_consecutive(x: u8, y: u8, fuel: nat)
    requires
        x <= MAX_CHANNEL,
        x <= y,
    ensures
        forall|i: int|
            0 <= i < walk_up(x, y, fuel).len() ==> #[trigger] walk_up(x, y, fuel)[i] == y + 1 + i,
    decreases fuel,
{
    if y < MAX_CHANNEL && fuel > 0 {
        let next = (y + 1) as u8;
        if channels_intersect_spec(next, x) {
            lemma_walk_up_consecutive(x, next, (fuel - 1) as nat);
            let w = walk_up(x, y, fuel);
            let rest = walk_up(x, next, (fuel - 1) as nat);
            assert(w == seq![next] + rest);
            assert forall|i: int| 0 <= i < w.len() implies #[trigger] w[i] == y + 1 + i by {
                if i > 0 {
                    assert(w[i] == rest[i - 1]);
                }
            }
        } else {
            assert forall|c: u8| next < c <= MAX_CHANNEL implies !channels_intersect_spec(
                c,
                x,
            ) by {
                if c > next {
                    lemma_intersect_monotone_above(x, next, c);
                }
            }
            lemma_walk_up_stops(x, next, (fuel - 1) as nat);
        }
    }
}

/// For a valid channel, each neighbor list is the consecutive run of
/// ids next to the channel, nearest first: the id at position `i` sits
/// at numeric distance `i + 1`.
pub proof fn lemma_neighbors_consecutive(x: u8)
    requires
        is_valid_channel_spec(x),
    ensures
        forall|i: int|
            0 <= i < lower_neighbors(x).len() ==> #[trigger] lower_neighbors(x)[i] == x - 1 - i,
        forall|i: int|
            0 <= i < upper_neighbors(x).len() ==> #[trigger] upper_neighbors(x)[i] == x + 1 + i,
        forall|i: int|
            0 <= i < lower_neighbors(x).len() ==> MIN_CHANNEL <= #[trigger] lower_neighbors(
                x,
            )[i] < x,
        forall|i: int|
            0 <= i < upper_neighbors(x).len() ==> x < #[trigger] upper_neighbors(x)[i]
                <= MAX_CHANNEL,
        lower_neighbors(x).len() <= MIN_CHANNELS_DISTANCE,
        upper_neighbors(x).len() <= MIN_CHANNELS_DISTANCE,
{
    lemma_walk_down_consecutive(x, x, MIN_CHANNELS_DISTANCE as nat);
    lemma_walk_up_consecutive(x, x, MIN_CHANNELS_DISTANCE as nat);
    lemma_walk_down_range(x, x, MIN_CHANNELS_DISTANCE as nat);
    lemma_walk_up_range(x, x, MIN_CHANNELS_DISTANCE as nat);
}

/// The channel number a text field stands for: an optional `+` sign and
/// decimal digits, with a value that fits the id type; anything else is
/// the unknown channel.
pub open spec fn parse_channel_spec(s: Seq<char>) -> u8 {
    let body = if s.len() > 0 && s[0] == '+' {
        s.drop_first()
    } else {
        s
    };
    if body.len() > 0 && all_digits(body) && dec_val(body) <= 255 {
        dec_val(body) as u8
    } else {
        UNKNOWN_CHANNEL
    }
}

/// Parse a channel number from text; unparseable text maps to
/// `UNKNOWN_CHANNEL` rather than failing.
pub fn parse_channel(id: &str) -> (r: u8)
    ensures
        r == parse_channel_spec(id@),
{
    let n: usize = id.unicode_len();
    let start: usize = if n > 0 && id.get_char(0) == '+' {
        1
    } else {
        0
    };
    let ghost body = if id@.len() > 0 && id@[0] == '+' {
        id@.drop_first()
    } else {
        id@
    };
    proof {
        assert(body =~= id@.subrange(start as int, n as int));
    }
    if start == n {
        return UNKNOWN_CHANNEL;
    }
    let mut acc: u64 = 0;
    let mut i: usize = start;
    while i < n
        invariant
            start <= i <= n,
            n == id@.len(),
            body =~= id@.subrange(start as int, n as int),
            body == (if id@.len() > 0 && id@[0] == '+' {
                id@.drop_first()
            } else {
                id@
            }),
            all_digits(body.take(i - start)),
            ({
                let v = dec_val(body.take(i - start));
                (v <= 1000 && acc == v) || (v > 1000 && acc == 1000)
            }),
        decreases n - i,
    {
        let c = id.get_char(i);
        let cv: u32 = c as u32;
        proof {
            assert(cv == c as int);
        }
        if cv < 48 || cv > 57 {
            proof {
                assert(body[i - start] == c);
                assert(!is_dec_digit(body[i - start]));
                assert(!all_digits(body));
            }
            return UNKNOWN_CHANNEL;
        }
        let d: u64 = (cv - 48) as u64;
        proof {
            let pre = body.take(i - start);
            let q = pre.push(body[i - start]);
            assert(q.drop_last() =~= pre);
            assert(q.last() == body[i - start]);
            assert(body.take(i + 1 - start) =~= q);
            assert(is_dec_digit(c));
            crate::digits::lemma_dec_val_nonneg(pre);
            assert(dec_val(q) == dec_val(pre) * 10 + crate::digits::digit_val(c));
        }
        acc = acc * 10 + d;
        if acc > 1000 {
            acc = 1000;
        }
        i = i + 1;
    }
    proof {
        assert(body.take(n - start) =~= body);
    }
    if acc <= 255 {
        acc as u8
    } else {
        UNKNOWN_CHANNEL
    }
}

/// The readable form of a channel id: its decimal digits when valid,
/// the word `Unknown` otherwise.
pub open spec fn readable_channel_spec(id: u8) -> Seq<char> {
    if is_valid_channel_spec(id) {
        dec_str_of(id as int)
    } else {
        "Unknown"@
    }
}

/// Render a channel id for display.
pub fn to_readable_channel(id: u8) -> (r: String)
    ensures
        r@ == readable_channel_spec(id),
{
    if is_valid_channel(id) {
        crate::digits::u64_to_string(id as u64)
    } else {
        String::from_str("Unknown")
    }
}

/// Overlap is symmetric in its two channels and reflexive on every channel.
pub proof fn lemma_overlap_symmetric_reflexive(a: u8, b: u8)
    requires
        is_valid_channel_spec(a),
        is_valid_channel_spec(b),
    ensures
        channels_intersect_spec(a, b) == channels_intersect_spec(b, a),
        channels_intersect_spec(a, a),
{
}

/// Overlap holds exactly for the channels whose shifted ids lie within
/// `MIN_CHANNELS_DISTANCE - 1` numeric steps of each other.
pub proof fn lemma_overlap_iff_within_distance(a: u8, b: u8)
    requires
        is_valid_channel_spec(a),
        is_valid_channel_spec(b),
    ensures
        channels_intersect_spec(a, b) <==> (shifted(a) - shifted(b) <= MIN_CHANNELS_DISTANCE - 1
            && shifted(b) - shifted(a) <= MIN_CHANNELS_DISTANCE - 1),
{
}

} // verus!
