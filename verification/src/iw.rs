//! Extracting values from the text that wireless status commands print:
//! the current interface name from a device listing, and the hardware
//! address of the current association from a link report.
//!
//! Both readings take the text between the first and second occurrence
//! of a marker — or the whole text when the marker is absent — and clip
//! it at a stopper.  Running the commands is a collaborator's concern;
//! only their output text is interpreted here.

use vstd::prelude::*;
use vstd::string::StringExecFns;
use vstd::string::StrSliceExecFns;

verus! {

/// Whether `pat` occurs in `s` starting at position `i`.
pub open spec fn is_match(s: Seq<char>, pat: Seq<char>, i: int) -> bool {
    0 <= i && i + pat.len() <= s.len() && s.subrange(i, i + pat.len()) == pat
}

/// The first position at or after `from` where `pat` occurs in `s`.
pub open spec fn first_match_from(s: Seq<char>, pat: Seq<char>, from: int) -> Option<int>
    decreases s.len() - from,
{
    if from < 0 || pat.len() == 0 || from + pat.len() > s.len() {
        None
    } else if is_match(s, pat, from) {
        Some(from)
    } else {
        first_match_from(s, pat, from + 1)
    }
}

pub proof fn lemma_first_match_props(s: Seq<char>, pat: Seq<char>, from: int)
    requires
        0 <= from,
        pat.len() > 0,
    ensures
        match first_match_from(s, pat, from) {
            Some(i) => from <= i && is_match(s, pat, i) && (forall|j: int|
                from <= j < i ==> !is_match(s, pat, j)),
            None => forall|j: int| from <= j ==> !is_match(s, pat, j),
        },
    decreases s.len() - from,
{
    if from + pat.len() > s.len() {
    } else if !is_match(s, pat, from) {
        lemma_first_match_props(s, pat, from + 1);
    }
}

/// Where the reading starts: right after the first occurrence of the
/// marker, or at the front when the marker is absent.
pub open spec fn seg_start(s: Seq<char>, pat: Seq<char>) -> int {
    match first_match_from(s, pat, 0) {
        Some(i) => i + pat.len(),
        None => 0,
    }
}

/// Where the reading ends at the latest: at the next occurrence of the
/// marker, or at the back.
pub open spec fn seg_end(s: Seq<char>, pat: Seq<char>) -> int {
    match first_match_from(s, pat, seg_start(s, pat)) {
        Some(j) => j,
        None => s.len() as int,
    }
}

/// The text between the first two occurrences of `pat` — or the whole
/// text when `pat` is absent — clipped at the first occurrence of
/// `stop` inside it.
pub open spec fn clipped_segment(s: Seq<char>, pat: Seq<char>, stop: Seq<char>) -> Seq<char> {
    let start = seg_start(s, pat);
    let end0 = seg_end(s, pat);
    let end = match first_match_from(s, stop, start) {
        Some(n) => if n < end0 {
            n
        } else {
            end0
        },
        None => end0,
    };
    s.subrange(start, end)
}

/// The interface name in a device listing: the word after the first
/// interface marker, up to the end of its line.
pub open spec fn interface_of(data: Seq<char>) -> Seq<char> {
    clipped_segment(data, "\tInterface "@, "\n"@)
}

/// The hardware address in a link report: the text after the first
/// association marker, up to the parenthesized interface note.
pub open spec fn current_mac_of(data: Seq<char>) -> Seq<char> {
    clipped_segment(data, "Connected to "@, " (on "@)
}

/// Find the first occurrence of `pat` in `s` at or after `from`.
fn find_pattern(s: &str, pat: &str, from: usize) -> (r: Option<usize>)
    ensures
        match r {
            Some(i) => first_match_from(s@, pat@, from as int) == Some(i as int) && from <= i && i
                + pat@.len() <= s@.len(),
            None => first_match_from(s@, pat@, from as int) is None,
        },
{
    let n: usize = s.unicode_len();
    let m: usize = pat.unicode_len();
    if m == 0 || m > n || from > n - m {
        return None;
    }
    let mut i: usize = from;
    while i <= n - m
        invariant
            from <= i,
            m >= 1,
            m <= n,
            n == s@.len(),
            m == pat@.len(),
            forall|j: int| from <= j < i ==> !is_match(s@, pat@, j),
        decreases n - i,
    {
        let mut k: usize = 0;
        while k < m && s.get_char(i + k) == pat.get_char(k)
            invariant
                k <= m,
                i <= n - m,
                m <= n,
                n == s@.len(),
                m == pat@.len(),
                forall|t: int| 0 <= t < k ==> s@[i + t] == pat@[t],
            decreases m - k,
        {
            k = k + 1;
        }
        if k == m {
            proof {
                assert(s@.subrange(i as int, i + m) =~= pat@);
                assert(is_match(s@, pat@, i as int));
                lemma_first_match_props(s@, pat@, from as int);
            }
            return Some(i);
        }
        proof {
            assert(s@[i + k] != pat@[k as int]);
            assert(!is_match(s@, pat@, i as int)) by {
                if is_match(s@, pat@, i as int) {
                    assert(s@.subrange(i as int, i + m)[k as int] == pat@[k as int]);
                }
            }
        }
        i = i + 1;
    }
    proof {
        lemma_first_match_props(s@, pat@, from as int);
        assert forall|j: int| from <= j implies !is_match(s@, pat@, j) by {
            if j < i {
            } else {
                assert(j + m > n);
            }
        }
    }
    None
}

/// Read the clipped between-markers segment out of `data`.
fn clip_segment(data: &str, pat: &str, stop: &str) -> (r: String)
    ensures
        r@ == clipped_segment(data@, pat@, stop@),
{
    let n: usize = data.unicode_len();
    let start: usize = match find_pattern(data, pat, 0) {
        Some(i) => i + pat.unicode_len(),
        None => 0,
    };
    proof {
        assert(start as int == seg_start(data@, pat@));
        assert(start <= n);
    }

    let end0: usize = match find_pattern(data, pat, start) {
        Some(j) => j,
        None => n,
    };
    proof {
        assert(end0 as int == seg_end(data@, pat@));
        assert(start <= end0 <= n);
    }
    let end: usize = match find_pattern(data, stop, start) {
        Some(sn) => if sn < end0 {
            sn
        } else {
            end0
        },
        None => end0,
    };
    proof {
        assert(start <= end <= n);
    }
    let seg = data.substring_char(start, end);
    String::from_str(seg)
}

/// The name of the current wireless interface, read from a device
/// listing as the text after the first interface marker, up to the end
/// of that line; with no marker, the listing's first line.
pub fn get_current_network_interface(data: &str) -> (r: String)
    ensures
        r@ == interface_of(data@),
{
    clip_segment(data, "\tInterface ", "\n")
}

/// The hardware address of the access point the host is associated
/// with, read from a link report as the text after the first
/// association marker, up to the parenthesized interface note.
pub fn get_current_point_mac(data: &str) -> (r: String)
    ensures
        r@ == current_mac_of(data@),
{
    clip_segment(data, "Connected to ", " (on ")
}

} // verus!
