//! Signal quality: parsing a textual signal level and rescaling it to a
//! fixed-point quality value.
//!
//! Signal levels arrive as free text in dBm.  They are parsed with
//! millidBm resolution (further fractional digits are dropped), clamped
//! into `[MIN_SIGNAL_MILLI, MAX_SIGNAL_MILLI]` and rescaled linearly to
//! `[0, QUALITY_UNIT]`; unparseable text counts as the weakest possible
//! signal.  The scale of `QUALITY_UNIT` is chosen so that a quality can
//! be halved four times without losing precision.

use crate::digits::{all_digits, dec_val, digit_val, is_dec_digit, lemma_dec_val_nonneg};
use vstd::prelude::*;

verus! {

/// The fixed-point representation of quality `1.0`.
pub const QUALITY_UNIT: u64 = 800000;

/// The weakest signal of interest, in millidBm; anything at or below it
/// has quality `0`.
pub const MIN_SIGNAL_MILLI: i64 = -100000;

/// The strongest signal of interest, in millidBm; anything at or above
/// it has quality `QUALITY_UNIT`.
pub const MAX_SIGNAL_MILLI: i64 = -50000;

/// Clamp a millidBm value into the signal range and rescale it linearly,
/// `MIN_SIGNAL_MILLI` to `0` and `MAX_SIGNAL_MILLI` to `QUALITY_UNIT`.
pub open spec fn quality_of_milli(m: int) -> u64 {
    let c = if m < MIN_SIGNAL_MILLI {
        MIN_SIGNAL_MILLI as int
    } else if m > MAX_SIGNAL_MILLI {
        MAX_SIGNAL_MILLI as int
    } else {
        m
    };
    ((c - MIN_SIGNAL_MILLI) * 16) as u64
}

/// The first position at or after `from` where `c` occurs in `s`.
pub open spec fn first_at(s: Seq<char>, c: char, from: int) -> Option<int>
    decreases s.len() - from,
{
    if from < 0 || from >= s.len() {
        None
    } else if s[from] == c {
        Some(from)
    } else {
        first_at(s, c, from + 1)
    }
}

pub proof fn lemma_first_at_props(s: Seq<char>, c: char, from: int)
    requires
        0 <= from,
    ensures
        match first_at(s, c, from) {
            Some(i) => from <= i < s.len() && s[i] == c && (forall|j: int|
                from <= j < i ==> s[j] != c),
            None => forall|j: int| from <= j < s.len() ==> s[j] != c,
        },
    decreases s.len() - from,
{
    if from < s.len() && s[from] != c {
        lemma_first_at_props(s, c, from + 1);
    }
}

/// The digit string of a signal's text after the optional sign.
pub open spec fn signal_body(s: Seq<char>) -> Seq<char> {
    if s.len() > 0 && (s[0] == '-' || s[0] == '+') {
        s.drop_first()
    } else {
        s
    }
}

pub open spec fn signal_is_negative(s: Seq<char>) -> bool {
    s.len() > 0 && s[0] == '-'
}

/// The millidBm value of a fractional part: its first three digits,
/// padded with zeros on the right.
pub open spec fn frac_milli(f: Seq<char>) -> int {
    let f3 = if f.len() <= 3 {
        f
    } else {
        f.take(3)
    };
    if f3.len() == 0 {
        0
    } else if f3.len() == 1 {
        dec_val(f3) * 100
    } else if f3.len() == 2 {
        dec_val(f3) * 10
    } else {
        dec_val(f3)
    }
}

/// The millidBm value a signal text stands for: an optional sign, then
/// decimal digits with at most one point and at least one digit; further
/// fractional digits beyond the third are dropped.  Text of any other
/// shape has no value.
pub open spec fn parse_signal_milli(s: Seq<char>) -> Option<int> {
    let body = signal_body(s);
    let sign: int = if signal_is_negative(s) {
        -1
    } else {
        1
    };
    match first_at(body, '.', 0) {
        None => if body.len() > 0 && all_digits(body) {
            Some(sign * (dec_val(body) * 1000))
        } else {
            None
        },
        Some(k) => {
            let ip = body.take(k);
            let fp = body.skip(k + 1);
            if (ip.len() > 0 || fp.len() > 0) && all_digits(ip) && all_digits(fp) {
                Some(sign * (dec_val(ip) * 1000 + frac_milli(fp)))
            } else {
                None
            }
        },
    }
}

/// The quality a signal text stands for: its parsed value clamped and
/// rescaled; unparseable text counts as the weakest signal.
pub open spec fn signal_to_quality_spec(s: Seq<char>) -> u64 {
    match parse_signal_milli(s) {
        None => quality_of_milli(MIN_SIGNAL_MILLI as int),
        Some(m) => quality_of_milli(m),
    }
}

/// A signal at or below the weakest bound maps to quality `0`; one at or
/// above the strongest bound maps to the full `QUALITY_UNIT`.
pub proof fn lemma_quality_boundaries(m: int)
    ensures
        m <= MIN_SIGNAL_MILLI ==> quality_of_milli(m) == 0,
        m >= MAX_SIGNAL_MILLI ==> quality_of_milli(m) == QUALITY_UNIT,
{
}

/// Whatever the text, the quality it stands for stays on the scale:
/// clamping keeps every value within `[0, QUALITY_UNIT]`.
pub proof fn lemma_signal_quality_within_unit(s: Seq<char>)
    ensures
        signal_to_quality_spec(s) <= QUALITY_UNIT,
{
}

/// Parse a signal level text and rescale it to a fixed-point quality.
/// This never fails: unparseable text yields quality `0`.
#[verifier::rlimit(100)]
pub fn signal_to_quality(signal_level: &str) -> (q: u64)
    ensures
        q == signal_to_quality_spec(signal_level@),
{
    let s_len: usize = signal_level.unicode_len();
    let mut neg = false;
    let mut start: usize = 0;
    if s_len > 0 {
        let c0 = signal_level.get_char(0);
        if c0 == '-' {
            neg = true;
            start = 1;
        } else if c0 == '+' {
            start = 1;
        }
    }
    let ghost body = signal_body(signal_level@);
    proof {
        assert(body =~= signal_level@.subrange(start as int, s_len as int));
    }

    // Find the first decimal point, if any.
    let mut dot: usize = s_len;
    let mut j: usize = start;
    while j < s_len
        invariant
            start <= j <= s_len,
            s_len == signal_level@.len(),
            (dot == s_len && (forall|t: int| start <= t < j ==> signal_level@[t] != '.')) || (start
                <= dot < j && signal_level@[dot as int] == '.' && (forall|t: int|
                start <= t < dot ==> signal_level@[t] != '.')),
        decreases s_len - j,
    {
        let c = signal_level.get_char(j);
        if c == '.' && dot == s_len {
            dot = j;
        }
        j = j + 1;
    }
    proof {
        lemma_first_at_props(body, '.', 0);
        if dot == s_len {
            assert(first_at(body, '.', 0) is None);
        } else {
            assert(body[dot - start] == '.');
            assert(first_at(body, '.', 0) == Some(dot - start as int));
        }
    }

    // Integer part: digits in `start .. dot`, value capped well past the
    // clamping range.
    let ghost ip = if dot == s_len {
        body
    } else {
        body.take(dot - start as int)
    };
    let mut acc: u64 = 0;
    let mut i: usize = start;
    while i < dot
        invariant
            start <= i <= dot <= s_len,
            s_len == signal_level@.len(),
            body == signal_body(signal_level@),
            body =~= signal_level@.subrange(start as int, s_len as int),
            ip == (if dot == s_len {
                body
            } else {
                body.take(dot - start as int)
            }),
            first_at(body, '.', 0) == (if dot == s_len {
                None::<int>
            } else {
                Some(dot - start as int)
            }),
            all_digits(ip.take(i - start)),
            ({
                let v = dec_val(ip.take(i - start));
                (v <= 1000 && acc == v) || (v > 1000 && acc == 1000)
            }),
        decreases dot - i,
    {
        let c = signal_level.get_char(i);
        let cv: u32 = c as u32;
        proof {
            assert(cv == c as int);
            assert(ip[i - start] == c);
        }
        if cv < 48 || cv > 57 {
            proof {
                assert(!is_dec_digit(ip[i - start]));
                assert(!all_digits(ip));
                if dot == s_len {
                    assert(parse_signal_milli(signal_level@) is None);
                } else {
                    assert(parse_signal_milli(signal_level@) is None);
                }
            }
            return 0;
        }
        let d: u64 = (cv - 48) as u64;
        proof {
            let pre = ip.take(i - start);
            let q = pre.push(ip[i - start]);
            assert(q.drop_last() =~= pre);
            assert(q.last() == ip[i - start]);
            assert(ip.take(i + 1 - start) =~= q);
            assert(is_dec_digit(c));
            lemma_dec_val_nonneg(pre);
            assert(dec_val(q) == dec_val(pre) * 10 + digit_val(c));
        }
        acc = acc * 10 + d;
        if acc > 1000 {
            acc = 1000;
        }
        i = i + 1;
    }
    proof {
        assert(ip.take(dot - start as int) =~= ip);
    }

    // Fractional part: digits after the point; only the first three
    // carry value.
    let ghost fp = if dot == s_len {
        Seq::<char>::empty()
    } else {
        body.skip(dot + 1 - start as int)
    };
    let mut fm: u64 = 0;
    let mut taken: usize = 0;
    if dot < s_len {
        let mut i: usize = dot + 1;
        while i < s_len
            invariant
                dot + 1 <= i <= s_len,
                s_len == signal_level@.len(),
                start <= dot,
                body == signal_body(signal_level@),
                body =~= signal_level@.subrange(start as int, s_len as int),
                fp == body.skip(dot + 1 - start as int),
                first_at(body, '.', 0) == Some(dot - start as int),
                all_digits(fp.take(i - (dot + 1))),
                taken == (if i - (dot + 1) <= 3 {
                    i - (dot + 1)
                } else {
                    3
                }),
                fm == dec_val(fp.take(taken as int)),
                taken <= 3,
                fm <= 999,
                taken == 0 ==> fm == 0,
                taken == 1 ==> fm <= 9,
                taken == 2 ==> fm <= 99,
            decreases s_len - i,
        {
            let c = signal_level.get_char(i);
            let cv: u32 = c as u32;
            proof {
                assert(cv == c as int);
                assert(fp[i - (dot + 1)] == c);
            }
            if cv < 48 || cv > 57 {
                proof {
                    assert(!is_dec_digit(fp[i - (dot + 1)]));
                    assert(!all_digits(fp));
                    assert(parse_signal_milli(signal_level@) is None);
                }
                return 0;
            }
            proof {
                let pre = fp.take(i - (dot + 1));
                let q = pre.push(fp[i - (dot + 1)]);
                assert(q.drop_last() =~= pre);
                assert(q.last() == fp[i - (dot + 1)]);
                assert(fp.take(i + 1 - (dot + 1)) =~= q);
                assert(is_dec_digit(c));
                if taken < 3 {
                    let pt = fp.take(taken as int);
                    let qt = pt.push(fp[taken as int]);
                    assert(qt.drop_last() =~= pt);
                    assert(qt.last() == fp[taken as int]);
                    assert(fp.take(taken + 1) =~= qt);
                    assert(dec_val(qt) == dec_val(pt) * 10 + digit_val(fp[taken as int]));
                }
            }
            if taken < 3 {
                let d: u64 = (cv - 48) as u64;
                fm = fm * 10 + d;
                taken = taken + 1;
            }
            i = i + 1;
        }
        proof {
            assert(fp.take(s_len - (dot + 1)) =~= fp);
        }
    }

    // Emptiness: at least one digit is required around the point.
    if dot == s_len {
        if start == s_len {
            return 0;
        }
    } else {
        if dot == start && dot + 1 == s_len {
            proof {
                assert(ip.len() == 0 && fp.len() == 0);
            }
            return 0;
        }
    }

    let fmilli: u64 = if taken == 0 {
        0
    } else if taken == 1 {
        fm * 100
    } else if taken == 2 {
        fm * 10
    } else {
        fm
    };
    proof {
        if dot < s_len {
            let f3 = if fp.len() <= 3 {
                fp
            } else {
                fp.take(3)
            };
            if fp.len() <= 3 {
                assert(fp.take(taken as int) =~= f3);
            } else {
                assert(fp.take(taken as int) =~= f3);
            }
            lemma_dec_val_nonneg(f3);
            assert(fmilli == frac_milli(fp));
        }
    }

    let mag: u64 = acc * 1000 + fmilli;
    let m: i64 = if neg {
        -(mag as i64)
    } else {
        mag as i64
    };

    let c: i64 = if m < MIN_SIGNAL_MILLI {
        MIN_SIGNAL_MILLI
    } else if m > MAX_SIGNAL_MILLI {
        MAX_SIGNAL_MILLI
    } else {
        m
    };
    let q: u64 = ((c - MIN_SIGNAL_MILLI) * 16) as u64;

    proof {
        let truev = if dot == s_len {
            dec_val(body)
        } else {
            dec_val(ip)
        };
        lemma_dec_val_nonneg(ip);
        assert(neg == signal_is_negative(signal_level@));
        if dot == s_len {
            assert(body.len() > 0);
            assert(all_digits(body));
            assert(fmilli == 0);
            assert(parse_signal_milli(signal_level@) == Some(
                (if signal_is_negative(signal_level@) {
                    -1
                } else {
                    1
                }) * (dec_val(body) * 1000),
            ));
        } else {
            assert(ip.len() > 0 || fp.len() > 0);
            assert(all_digits(ip));
            assert(all_digits(fp));
            assert(fmilli == frac_milli(fp));
            assert(parse_signal_milli(signal_level@) == Some(
                (if signal_is_negative(signal_level@) {
                    -1
                } else {
                    1
                }) * (dec_val(ip) * 1000 + frac_milli(fp)),
            ));
        }
        lemma_scaled_quality(parse_signal_milli(signal_level@), neg, truev, fmilli, mag, m, c, q);
    }
    q
}

/// The clamped rescaling of the computed value agrees with the parsed
/// value's quality, also where the accumulator was capped: a capped
/// magnitude and the true one lie beyond the clamping range on the same
/// side.
proof fn lemma_scaled_quality(
    pm: Option<int>,
    neg: bool,
    truev: int,
    fmilli: u64,
    mag: u64,
    m: i64,
    c: i64,
    q: u64,
)
    requires
        fmilli <= 999,
        truev >= 0,
        pm == Some(
            (if neg {
                -1
            } else {
                1
            }) * (truev * 1000 + fmilli as int),
        ),
        truev <= 1000 ==> mag == truev * 1000 + fmilli,
        truev > 1000 ==> mag >= 1000000,
        neg ==> m as int == -(mag as int),
        !neg ==> m as int == mag as int,
        c as int == (if (m as int) < MIN_SIGNAL_MILLI as int {
            MIN_SIGNAL_MILLI as int
        } else if (m as int) > MAX_SIGNAL_MILLI as int {
            MAX_SIGNAL_MILLI as int
        } else {
            m as int
        }),
        q == (c as int - MIN_SIGNAL_MILLI as int) * 16,
    ensures
        pm matches Some(v) && q == quality_of_milli(v),
{
    let x = truev * 1000 + fmilli as int;
    let v = (if neg {
        -1
    } else {
        1
    }) * x;
    if neg {
        assert(v == -1 * x);
        assert(-1 * x == -x) by (nonlinear_arith);
        assert(v == -x);
    } else {
        assert(v == 1 * x);
        assert(1 * x == x) by (nonlinear_arith);
        assert(v == x);
    }
    if truev <= 1000 {
        assert(m as int == v);
        assert(q == quality_of_milli(v));
    } else {
        if neg {
            assert(v <= -1000000);
            assert(m as int <= -1000000);
            assert(q == quality_of_milli(v));
        } else {
            assert(v >= 1000000);
            assert(m as int >= 1000000);
            assert(q == quality_of_milli(v));
        }
    }
}

} // verus!
