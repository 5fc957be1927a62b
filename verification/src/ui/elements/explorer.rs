//! The explorer's file tooltips: when to show a cached modified time, and
//! when to look it up again.
//!
//! Reading a file's metadata can block on a network mount, so the lookup runs
//! in the background and the tooltip shows what the cache holds. The cache,
//! the clock and the lookup are the caller's; this module decides.
use vstd::prelude::*;

verus! {

/// Seconds a looked-up modified time stays fresh.
pub const MODIFIED_TIME_CACHE_TTL_SECS: u64 = 30;

/// What the cache holds for a path.
#[derive(Clone, Debug)]
pub enum CachedModifiedTime {
    /// A lookup is running.
    Loading,
    /// A lookup finished `age_secs` seconds ago with `line` (none when the
    /// file's time could not be read).
    Ready { age_secs: u64, line: Option<String> },
}

/// What to do when a tooltip asks for a path's modified time.
#[derive(Clone, Debug)]
pub enum TooltipLookup {
    /// Show nothing yet: a lookup is under way.
    Wait,
    /// Show this (possibly absent) line.
    Show(Option<String>),
    /// Show nothing, mark the path as loading and start a lookup.
    Fetch,
}

/// The step for a path whose cache entry is `entry`: wait on a running
/// lookup, show a result younger than the time to live, otherwise fetch.
pub fn modified_tooltip_step(entry: Option<&CachedModifiedTime>) -> (step: TooltipLookup)
    ensures
        match entry {
            Some(CachedModifiedTime::Loading) => step is Wait,
            Some(CachedModifiedTime::Ready { age_secs, line }) => if *age_secs < MODIFIED_TIME_CACHE_TTL_SECS {
                step matches TooltipLookup::Show(shown) && match (shown, line) {
                    (Some(a), Some(b)) => a@ == b@,
                    (None, None) => true,
                    _ => false,
                }
            } else {
                step is Fetch
            },
            None => step is Fetch,
        },
{
    match entry {
        Some(CachedModifiedTime::Loading) => TooltipLookup::Wait,
        Some(CachedModifiedTime::Ready { age_secs, line }) => {
            if *age_secs < MODIFIED_TIME_CACHE_TTL_SECS {
                let shown = match line {
                    Some(text) => Some(crate::text::owned(text.as_str())),
                    None => None,
                };
                TooltipLookup::Show(shown)
            } else {
                TooltipLookup::Fetch
            }
        },
        None => TooltipLookup::Fetch,
    }
}

} // verus!
