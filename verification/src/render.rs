//! Rendering values as plain text: a quality as a percentage and the
//! congestion table as a one-line summary.  When more than one channel
//! carries exactly zero load, the zero-load channels collapse into a
//! single closing entry to keep the output short.

use crate::digits::{dec_str_of, digit_char, digit_str, u64_to_string};
use crate::load::ChannelLoad;
use vstd::prelude::*;
use vstd::string::StringExecFns;

verus! {

/// A quality or load as tenths of a percent of the full scale, rounded
/// to nearest with halves up.
pub open spec fn tenths_of_percent(q: u64) -> int {
    q / 800 + if q % 800 >= 400 {
        1int
    } else {
        0int
    }
}

/// The readable form of a quality: a percentage with one decimal digit,
/// as in `12.3%`.
pub open spec fn readable_quality_spec(q: u64) -> Seq<char> {
    dec_str_of(tenths_of_percent(q) / 10) + seq!['.'] + seq![
        digit_char(tenths_of_percent(q) % 10),
    ] + seq!['%']
}

/// Render a quality or load as a percentage of the full scale.
pub fn to_readable_quality(quality: u64) -> (r: String)
    ensures
        r@ == readable_quality_spec(quality),
{
    let t: u64 = quality / 800 + if quality % 800 >= 400 {
        1
    } else {
        0
    };
    let mut s = u64_to_string(t / 10);
    s.append(".");
    s.append(digit_str((t % 10) as u8));
    s.append("%");
    proof {
        reveal_strlit(".");
        reveal_strlit("%");
        assert(s@ =~= readable_quality_spec(quality));
    }
    s
}

/// One congestion-table entry as text: the channel id, the word `is`,
/// and the load as a percentage.
pub open spec fn load_entry_str(e: ChannelLoad) -> Seq<char> {
    dec_str_of(e.0 as int) + " is "@ + readable_quality_spec(e.1)
}

fn render_entry(e: &ChannelLoad) -> (r: String)
    ensures
        r@ == load_entry_str(*e),
{
    let mut s = u64_to_string(e.0 as u64);
    s.append(" is ");
    let q = to_readable_quality(e.1);
    s.append(q.as_str());
    s
}

/// Text parts joined by a comma and a space.
pub open spec fn joined(parts: Seq<Seq<char>>) -> Seq<char>
    decreases parts.len(),
{
    if parts.len() == 0 {
        Seq::empty()
    } else if parts.len() == 1 {
        parts[0]
    } else {
        parts[0] + ", "@ + joined(parts.drop_first())
    }
}

proof fn lemma_joined_push(parts: Seq<Seq<char>>, p: Seq<char>)
    ensures
        joined(parts.push(p)) == if parts.len() == 0 {
            p
        } else {
            joined(parts) + ", "@ + p
        },
    decreases parts.len(),
{
    if parts.len() == 0 {
        assert(parts.push(p) =~= seq![p]);
    } else {
        lemma_joined_push(parts.drop_first(), p);
        assert(parts.push(p).drop_first() =~= parts.drop_first().push(p));
        assert(parts.push(p)[0] == parts[0]);
        if parts.len() == 1 {
            assert(joined(parts.push(p)) =~= joined(parts) + ", "@ + p);
        } else {
            assert(joined(parts.push(p)) =~= joined(parts) + ", "@ + p);
        }
    }
}

/// The table entries that carry exactly zero load.
pub open spec fn zero_entries(s: Seq<ChannelLoad>) -> Seq<ChannelLoad> {
    s.filter(|e: ChannelLoad| e.1 == 0)
}

/// The texts of the entries that carry some load.
pub open spec fn nonzero_parts(s: Seq<ChannelLoad>) -> Seq<Seq<char>> {
    s.filter(|e: ChannelLoad| e.1 != 0).map_values(|e: ChannelLoad| load_entry_str(e))
}

/// The texts of all entries.
pub open spec fn all_parts(s: Seq<ChannelLoad>) -> Seq<Seq<char>> {
    s.map_values(|e: ChannelLoad| load_entry_str(e))
}

/// The readable congestion summary: every entry as text, joined by
/// commas; when more than one channel has exactly zero load, the
/// zero-load entries collapse into one closing `others are 0.0%`.
pub open spec fn readable_channels_load_spec(s: Seq<ChannelLoad>) -> Seq<char> {
    if zero_entries(s).len() > 1 {
        joined(nonzero_parts(s).push("others are 0.0%"@))
    } else {
        joined(all_parts(s))
    }
}

/// Render the congestion table as one line of text.
pub fn to_readable_channels_load(channels_load: &Vec<ChannelLoad>) -> (r: String)
    ensures
        r@ == readable_channels_load_spec(channels_load@),
{
    let ghost table = channels_load@;

    let mut zeros: usize = 0;
    let mut i: usize = 0;
    while i < channels_load.len()
        invariant
            i <= table.len(),
            channels_load@ == table,
            zeros as int == zero_entries(table.take(i as int)).len(),
            zeros <= i,
        decreases table.len() - i,
    {
        if channels_load[i].1 == 0 {
            zeros = zeros + 1;
        }
        i = i + 1;
        proof {
            reveal(Seq::filter);
            let pre = table.take(i - 1);
            let now = table.take(i as int);
            assert(now.drop_last() =~= pre);
            assert(now.last() == table[i - 1]);
            assert(zero_entries(now).len() == zero_entries(pre).len() + (if table[i - 1].1 == 0 {
                1int
            } else {
                0int
            }));
        }
    }
    proof {
        assert(table.take(table.len() as int) =~= table);
    }

    let collapse = zeros > 1;
    let mut out = String::new();
    let mut parts: usize = 0;
    let mut i: usize = 0;
    while i < channels_load.len()
        invariant
            i <= table.len(),
            channels_load@ == table,
            collapse ==> parts as int == nonzero_parts(table.take(i as int)).len() && out@
                == joined(nonzero_parts(table.take(i as int))),
            !collapse ==> parts as int == all_parts(table.take(i as int)).len() && out@ == joined(
                all_parts(table.take(i as int)),
            ),
        decreases table.len() - i,
    {
        let e = channels_load[i];
        let skip_entry = collapse && e.1 == 0;
        if !skip_entry {
            if parts > 0 {
                out.append(", ");
            }
            let t = render_entry(&e);
            out.append(t.as_str());
            parts = parts + 1;
        }
        i = i + 1;
        proof {
            reveal_strlit(", ");
            reveal(Seq::filter);
            let pre = table.take(i - 1);
            let now = table.take(i as int);
            assert(now.drop_last() =~= pre);
            assert(now.last() == e);
            if collapse {
                if e.1 != 0 {
                    assert(nonzero_parts(now) =~= nonzero_parts(pre).push(load_entry_str(e)));
                    lemma_joined_push(nonzero_parts(pre), load_entry_str(e));
                    assert(out@ =~= joined(nonzero_parts(now)));
                } else {
                    assert(nonzero_parts(now) =~= nonzero_parts(pre));
                }
            } else {
                assert(all_parts(now) =~= all_parts(pre).push(load_entry_str(e)));
                lemma_joined_push(all_parts(pre), load_entry_str(e));
                assert(out@ =~= joined(all_parts(now)));
            }
        }
    }
    proof {
        assert(table.take(table.len() as int) =~= table);
    }

    if collapse {
        if parts > 0 {
            out.append(", ");
        }
        out.append("others are 0.0%");
        proof {
            reveal_strlit(", ");
            reveal_strlit("others are 0.0%");
            lemma_joined_push(nonzero_parts(table), "others are 0.0%"@);
            assert(out@ =~= readable_channels_load_spec(table));
        }
    }
    out
}

} // verus!
