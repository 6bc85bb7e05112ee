//! The significance-ranked virtual voice queue.
//!
//! Every request becomes a virtual entry ranked by audible significance, how
//! loud it would be times its priority, and only the top entries ever hold a
//! real voice. When the ranking changes, entries cross the line by fading in
//! and out instead of a hard cut. Entries that do not make the cut wait as
//! silent virtual entries: looping ones indefinitely, one-shots for a while.
//!
//! The decisions are public for hosts that drive pools of their own: the entrance
//! of [`admission`], [`ranking::rank_by_significance`], and
//! [`displacement::displacement_target`] for the question of a single newcomer.

pub mod admission;
pub mod displacement;
pub mod lifecycle;
pub mod ranking;
pub mod requests;
pub mod table;
pub mod voices;

use crate::messages::{SampleId, SpatialPosition};
use crate::single::Single;
use crate::time::Duration;
use vstd::prelude::*;

verus! {

/// A sound tracked by the virtual voice queue.
///
/// It stays for the sound's whole logical life: while it is virtual nothing
/// plays, and while it is audible it owns a real voice.
#[derive(Clone, Copy, Debug)]
pub struct VirtualSound<C> {
    pub handle: SampleId,
    pub category: C,
    pub looping: bool,
    pub parent: Option<u64>,
    pub position: Option<SpatialPosition>,
    /// Request volume before the category multiplier.
    pub base_volume: Single,
    pub priority: Single,
    pub requested_at: Duration,
}

impl<C: Copy> VirtualSound<C> {
    /// The category this sound was requested under.
    pub fn category(&self) -> (r: C)
        ensures
            r == self.category,
    {
        self.category
    }

    /// Whether this sound loops once promoted.
    pub fn looping(&self) -> (r: bool)
        ensures
            r == self.looping,
    {
        self.looping
    }

    /// The sample this sound plays.
    pub fn handle(&self) -> (r: SampleId)
        ensures
            r == self.handle,
    {
        self.handle
    }

    /// The parent entity this sound attaches to, if any.
    pub fn parent(&self) -> (r: Option<u64>)
        ensures
            r == self.parent,
    {
        self.parent
    }

    /// The spatial position this sound was requested at, if any.
    pub fn position(&self) -> (r: Option<SpatialPosition>)
        ensures
            r == self.position,
    {
        self.position
    }
}

} // verus!
