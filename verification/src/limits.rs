//! Shared `--limit` bookkeeping for the read commands.
//!
//! Every list-shaped read has a default limit and a hard cap, and a response
//! that comes back at that bound looks exactly like a complete one. These
//! helpers resolve the bound that actually applied and phrase the note the
//! commands print when a read came back full.
use vstd::prelude::*;
use crate::text::{decimal, push_decimal};

verus! {

/// The smaller of two limits.
pub open spec fn min_u32(a: u32, b: u32) -> u32 {
    if a <= b { a } else { b }
}

/// The limit that applies: the requested one, or the default when none was
/// requested, never above the cap.
pub open spec fn spec_effective_limit(requested: Option<u32>, default: u32, max: u32) -> u32 {
    match requested {
        Some(r) => min_u32(r, max),
        None => min_u32(default, max),
    }
}

/// Resolve a `--limit` against a command's default and cap.
pub fn effective_limit(requested: Option<u32>, default: u32, max: u32) -> (limit: u32)
    ensures
        limit == spec_effective_limit(requested, default, max),
{
    let wanted = match requested {
        Some(r) => r,
        None => default,
    };
    if wanted <= max { wanted } else { max }
}

/// How the note names the bound that was reached.
pub open spec fn bound_text(requested: Option<u32>, default: u32, max: u32) -> Seq<char> {
    match requested {
        None => "the default limit of "@ + decimal(default as nat),
        Some(r) => if r > max {
            "--limit "@ + decimal(r as nat) + ", capped at "@ + decimal(max as nat)
        } else {
            "--limit "@ + decimal(r as nat)
        },
    }
}

/// What the note advises: raise the limit while the cap allows it, else page.
pub open spec fn advice_text(limit: u32, max: u32) -> Seq<char> {
    if limit < max {
        "pass a larger --limit (max "@ + decimal(max as nat) + ")"@
    } else {
        "narrow the window with --since / --before to page through the rest"@
    }
}

/// The whole note for a read of `returned` results that reached its bound.
pub open spec fn notice_text(returned: usize, requested: Option<u32>, default: u32, max: u32) -> Seq<char> {
    "showing "@ + decimal(returned as nat) + " results \u{2014} "@
        + bound_text(requested, default, max)
        + " was reached, so more may exist; "@
        + advice_text(spec_effective_limit(requested, default, max), max)
}

/// Build the note for a read that came back full.
///
/// A read that returns exactly its limit is indistinguishable from a complete
/// one. There is no total to report, so the note states what bound was hit and
/// how to raise it, and says "may" because a result set exactly the size of
/// the limit is also possible.
///
/// Returns `None` for a short read, which is the only case that is provably
/// complete.
pub fn truncation_notice(
    returned: usize,
    requested: Option<u32>,
    default: u32,
    max: u32,
) -> (notice: Option<String>)
    ensures
        notice is None <==> returned < spec_effective_limit(requested, default, max),
        notice matches Some(text) ==> text@ == notice_text(returned, requested, default, max),
{
    let limit = effective_limit(requested, default, max);
    if returned < limit as usize {
        return None;
    }
    let mut text = String::new();
    text.append("showing ");
    push_decimal(&mut text, returned as u64);
    text.append(" results \u{2014} ");
    match requested {
        None => {
            text.append("the default limit of ");
            push_decimal(&mut text, default as u64);
        },
        Some(r) => {
            text.append("--limit ");
            push_decimal(&mut text, r as u64);
            if r > max {
                text.append(", capped at ");
                push_decimal(&mut text, max as u64);
            }
        },
    }
    text.append(" was reached, so more may exist; ");
    if limit < max {
        text.append("pass a larger --limit (max ");
        push_decimal(&mut text, max as u64);
        text.append(")");
    } else {
        text.append("narrow the window with --since / --before to page through the rest");
    }
    Some(text)
}

/// The limit that applies never exceeds the cap, and is what was asked for
/// (or the default, when nothing was asked for) whenever that is within the
/// cap.
pub proof fn law_effective_limit_within_cap(requested: Option<u32>, default: u32, max: u32)
    ensures
        spec_effective_limit(requested, default, max) <= max,
        requested matches Some(r) ==> (r <= max ==> spec_effective_limit(requested, default, max) == r),
        requested is None && default <= max ==> spec_effective_limit(requested, default, max) == default,
{
}


/// The limit that applies is the smaller of the cap and what was asked for
/// (the request, or the default when nothing was requested): it is at most
/// each of them and equal to one of them. In particular a request above the
/// cap resolves to the cap, never to the default.
pub proof fn law_effective_limit_is_smaller_of_ask_and_cap(requested: Option<u32>, default: u32, max: u32)
    ensures
        ({
            let asked = match requested {
                Some(r) => r,
                None => default,
            };
            let limit = spec_effective_limit(requested, default, max);
            &&& limit <= asked
            &&& limit <= max
            &&& (limit == asked || limit == max)
        }),
        requested matches Some(r) ==> (r > max ==> spec_effective_limit(requested, default, max) == max),
{
}

} // verus!
