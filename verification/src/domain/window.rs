//! Live-window ranges and retention arithmetic.
use vstd::prelude::*;

use crate::error::EdamameError;

verus! {

/// Static window settings shared by the core and chosen per channel.
#[derive(Debug, Clone, Copy, PartialEq, Eq, Structural)]
pub struct WindowConfig {
    /// Number of segments kept at the live edge.
    pub window_size: u64,
    /// Distance from the live edge allowed before eviction.
    pub retention_window: u64,
}

impl WindowConfig {
    /// Whether the window and retention sizes fit together.
    pub open spec fn is_valid(&self) -> bool {
        self.window_size > 0 && self.retention_window >= self.window_size
    }

    /// Checks how the window and retention sizes relate.
    pub fn validate(&self) -> (r: Result<(), EdamameError>)
        ensures
            self.window_size == 0 ==> (r matches Err(EdamameError::BadRequest(m))
                && m@ == "live window size must be greater than zero"@),
            self.window_size > 0 && self.retention_window < self.window_size ==> (r matches Err(
                EdamameError::BadRequest(m),
            ) && m@ == "retention window must be at least the live window size"@),
            r is Ok <==> self.is_valid(),
    {
        if self.window_size == 0 {
            return Err(
                EdamameError::BadRequest("live window size must be greater than zero".to_owned()),
            );
        }
        if self.retention_window < self.window_size {
            return Err(
                EdamameError::BadRequest(
                    "retention window must be at least the live window size".to_owned(),
                ),
            );
        }
        Ok(())
    }
}

/// First sequence of the live window that ends at `edge` and spans `size`
/// sequences (saturating at zero).
pub open spec fn live_start_of(edge: u64, size: u64) -> u64 {
    let span: int = if size == 0 {
        0
    } else {
        size - 1
    };
    if edge >= span {
        (edge - span) as u64
    } else {
        0
    }
}

/// The lowest sequence that is still retained when the live edge is `edge`.
pub open spec fn retention_floor(edge: u64, retention: u64) -> u64 {
    if edge >= retention {
        (edge - retention) as u64
    } else {
        0
    }
}

/// With a valid configuration no sequence of the live window is ever old
/// enough to be evicted.
pub proof fn lemma_live_window_retained(config: WindowConfig, edge: u64, sequence: u64)
    requires
        config.is_valid(),
        live_start_of(edge, config.window_size) <= sequence,
    ensures
        !(sequence < retention_floor(edge, config.retention_window)),
{
}

/// A concrete live window anchored at the current live edge.
#[derive(Debug, Clone, Copy, PartialEq, Eq, Structural)]
pub struct LiveWindow {
    pub live_edge: u64,
    pub config: WindowConfig,
}

impl LiveWindow {
    /// The first sequence belonging to the live window.
    pub fn live_start(&self) -> (s: u64)
        ensures
            s == live_start_of(self.live_edge, self.config.window_size),
            s <= self.live_edge,
    {
        self.live_edge.saturating_sub(self.config.window_size.saturating_sub(1))
    }

    /// The inclusive `[live_start, live_edge]` range of live-window sequences.
    pub fn live_range(&self) -> (r: std::ops::RangeInclusive<u64>)
        ensures
            r@.start == live_start_of(self.live_edge, self.config.window_size),
            r@.end == self.live_edge,
            !r@.exhausted,
    {
        std::ops::RangeInclusive::new(self.live_start(), self.live_edge)
    }

    /// Whether `sequence` is older than `live_edge - retention_window`.
    pub fn is_evictable(&self, sequence: u64) -> (b: bool)
        ensures
            b == (sequence < retention_floor(self.live_edge, self.config.retention_window)),
    {
        sequence < self.live_edge.saturating_sub(self.config.retention_window)
    }
}

} // verus!
