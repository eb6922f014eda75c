//! Device identity and the Lamport clock. Both are kept as text in the
//! database's `sync_meta` table; these are the rules for reading and
//! advancing them.
use vstd::prelude::*;
use crate::text::{decimal, lemma_parse_decimal, parse_u64, spec_parse_u64, trim, trimmed, owned, chars_of};

verus! {

pub const DEVICE_ID: &'static str = "device_id";

pub const DEVICE_NAME: &'static str = "device_name";

pub const LAMPORT: &'static str = "lamport";

/// The clock as stored: its value when it reads as a number, else 0.
pub open spec fn spec_stored_clock(stored: Option<Seq<char>>) -> u64 {
    match stored {
        Some(s) => match spec_parse_u64(s) {
            Some(v) => v,
            None => 0,
        },
        None => 0,
    }
}

pub fn stored_clock(stored: &Option<String>) -> (c: u64)
    ensures
        c == spec_stored_clock(match stored {
            Some(s) => Some(s@),
            None => None,
        }),
{
    match stored {
        Some(s) => match parse_u64(s.as_str()) {
            Some(v) => v,
            None => 0,
        },
        None => 0,
    }
}

/// The clock after a local write: one past its current value.
pub fn ticked(clock: u64) -> (next: u64)
    requires
        clock < u64::MAX,
    ensures
        next == clock + 1,
        next > clock,
{
    clock + 1
}

/// The clock after seeing a revision from another device.
pub open spec fn clock_after_observing(clock: u64, remote: u64) -> u64 {
    if remote > clock {
        remote
    } else {
        clock
    }
}

/// The new clock value to store after seeing `remote`, or `None` when the
/// clock is already at or past it and stays as it is.
pub fn observed(clock: u64, remote: u64) -> (r: Option<u64>)
    ensures
        r == (if remote > clock {
            Some(remote)
        } else {
            None
        }),
        clock_after_observing(clock, remote) == match r {
            Some(v) => v,
            None => clock,
        },
{
    if remote > clock {
        Some(remote)
    } else {
        None
    }
}

/// A remote revision pushes the clock forward but never back, and the next
/// local write is stamped above everything seen so far.
pub proof fn clock_moves_forward_only(clock: u64, remote: u64)
    requires
        clock_after_observing(clock, remote) < u64::MAX,
    ensures
        clock_after_observing(clock, remote) >= clock,
        clock_after_observing(clock, remote) >= remote,
        clock_after_observing(clock, remote) + 1 > remote,
        clock_after_observing(clock, remote) + 1 > clock,
{
}

/// The clock is stored as its decimal text, and that text reads back as the
/// value written: after a local write the stored clock is one past what it
/// was, and after observing a revision it is the observed clock, so the
/// clock never falls back between passes.
pub proof fn stored_clock_reads_back(clock: u64, remote: u64)
    ensures
        clock < u64::MAX ==> spec_stored_clock(Some(decimal((clock + 1) as nat))) == clock + 1,
        spec_stored_clock(Some(decimal(clock_after_observing(clock, remote) as nat))) == clock_after_observing(
            clock,
            remote,
        ),
{
    if clock < u64::MAX {
        lemma_parse_decimal((clock + 1) as u64);
    }
    lemma_parse_decimal(clock_after_observing(clock, remote));
}

/// The first candidate name that is not blank, else `fallback`.
pub open spec fn first_named(candidates: Seq<Option<Seq<char>>>, fallback: Seq<char>) -> Seq<char>
    decreases candidates.len(),
{
    if candidates.len() == 0 {
        fallback
    } else {
        match candidates[0] {
            Some(n) => if trim(n).len() > 0 {
                n
            } else {
                first_named(candidates.drop_first(), fallback)
            },
            None => first_named(candidates.drop_first(), fallback),
        }
    }
}

pub open spec fn candidates_view(c: Seq<Option<String>>) -> Seq<Option<Seq<char>>> {
    c.map_values(|o: Option<String>| match o {
        Some(s) => Some(s@),
        None => None,
    })
}

/// Best-effort machine name, used only to label this device: the first of
/// the host-name variables that is set and not blank, else the platform.
pub fn pick_device_name(candidates: &Vec<Option<String>>, platform: &str) -> (name: String)
    ensures
        name@ == first_named(candidates_view(candidates@), platform@),
{
    let ghost c = candidates_view(candidates@);
    let mut i: usize = 0;
    assert(c.skip(0) =~= c);
    while i < candidates.len()
        invariant
            i <= candidates.len(),
            c == candidates_view(candidates@),
            first_named(c, platform@) == first_named(c.skip(i as int), platform@),
        decreases candidates.len() - i,
    {
        assert(c.skip(i as int)[0] == c[i as int]);
        assert(c.skip(i as int).drop_first() =~= c.skip(i + 1));
        match &candidates[i] {
            Some(n) => {
                let t = trimmed(n.as_str());
                if chars_of(t.as_str()).len() > 0 {
                    return n.clone();
                }
            },
            None => {},
        }
        i = i + 1;
    }
    owned(platform)
}

} // verus!
