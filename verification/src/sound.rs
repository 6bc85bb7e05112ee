//! One sound of the mix, as plain values.
//!
//! A [`Sound`] stands for one entity of the host: each field holds what one of
//! its components says. A host fills the sounds in before a system runs and
//! carries the changes over afterwards: it plays the ramps, ends the voices
//! that were interrupted and removes the sounds that were despawned.

use crate::baseline::{BasePitch, BaseVolume};
use crate::fade::{FadeInAudio, FadeOutAudio};
use crate::geometry::{Vec2, Vec3};
use crate::messages::SampleId;
use crate::single::Single;
use crate::time::Duration;
use crate::virtual_queue::VirtualSound;
use vstd::prelude::*;

verus! {

/// The level of a volume node.
#[derive(Clone, Copy, Debug, PartialEq)]
pub enum Volume {
    /// A linear gain.
    Linear(Single),
    /// A gain in decibels.
    Decibels(Single),
}

impl Volume {
    pub open spec fn spec_silent() -> Volume {
        Volume::Linear(Single::zero())
    }

    /// Whether two levels are the same number in the same unit.
    pub open spec fn spec_same(self, other: Volume) -> bool {
        match (self, other) {
            (Volume::Linear(a), Volume::Linear(b)) => a.equals(b),
            (Volume::Decibels(a), Volume::Decibels(b)) => a.equals(b),
            _ => false,
        }
    }

    /// Silence.
    #[verifier::when_used_as_spec(spec_silent)]
    pub fn silent() -> (r: Volume)
        ensures
            r == Volume::silent(),
    {
        Volume::Linear(Single::zero())
    }

    /// Whether two levels are the same number in the same unit.
    #[verifier::when_used_as_spec(spec_same)]
    pub fn same(self, other: Volume) -> (r: bool)
        ensures
            r == self.same(other),
    {
        match (self, other) {
            (Volume::Linear(a), Volume::Linear(b)) => a.equals(b),
            (Volume::Decibels(a), Volume::Decibels(b)) => a.equals(b),
            _ => false,
        }
    }
}

/// A ramp of the volume node, for the audio thread to play.
#[derive(Clone, Copy, Debug, PartialEq)]
pub struct Ramp {
    pub to: Volume,
    pub duration: Duration,
}

/// What plays: a sample, once or in a loop.
#[derive(Clone, Copy, Debug, PartialEq, Eq, Structural)]
pub struct Player {
    pub sample: SampleId,
    pub looping: bool,
}

/// What becomes of an entity when its playback ends.
#[derive(Clone, Copy, Debug, PartialEq, Eq, Structural)]
pub enum OnComplete {
    /// The entity goes.
    Despawn,
    /// The entity stays, without its player.
    Remove,
}

/// The playback settings of a sound.
#[derive(Clone, Copy, Debug, PartialEq)]
pub struct Settings {
    pub speed: Single,
    pub on_complete: OnComplete,
}

/// The effects chain of a sound.
#[derive(Clone, Copy, Debug, PartialEq)]
pub struct Effects {
    /// The level of its volume node, if it has one.
    pub volume: Option<Volume>,
    /// The frequency of its low-pass node, if it has one.
    pub cutoff_hz: Option<Single>,
    /// Whether its volume node can be handed ramps yet.
    pub ready: bool,
}

/// Which pool a sound plays in.
#[derive(Clone, Copy, Debug, PartialEq, Eq, Structural)]
pub enum Pool {
    /// The pool of sounds somewhere in the world.
    Spatial,
    /// The pool of sounds played flat.
    Default,
    /// A pool of the host's own, by its number.
    Host(u64),
}

/// Where a sound is placed.
#[derive(Clone, Copy, Debug, PartialEq)]
pub enum Placement {
    /// Nowhere: the sound is played flat.
    Nowhere,
    /// At its parent.
    Under(u64),
    /// At a position of its own.
    At(Vec3),
}

/// One sound of the mix.
#[derive(Clone, Copy, Debug)]
pub struct Sound<C> {
    pub entity: u64,
    pub category: Option<C>,
    pub player: Option<Player>,
    pub settings: Option<Settings>,
    pub priority: Option<i32>,
    /// Whether a sampler plays the sound.
    pub sampling: bool,
    pub pool: Option<Pool>,
    pub placement: Placement,
    /// Where the sound is in the XY plane, if it is placed anywhere.
    pub position: Option<Vec2>,
    pub base_volume: Option<BaseVolume>,
    pub base_pitch: Option<BasePitch>,
    pub effects: Option<Effects>,
    /// The last ramp handed to the audio thread.
    pub ramp: Option<Ramp>,
    pub fade_in: Option<FadeInAudio>,
    pub fade_out: Option<FadeOutAudio>,
    /// No field may touch the sound.
    pub undamped: bool,
    /// The sound's own system writes its volume node.
    pub self_driven_volume: bool,
    /// The sound steps back while the ducking envelope is engaged.
    pub ducks: bool,
    /// The sound's entry in the virtual voice queue.
    pub queued: Option<VirtualSound<C>>,
    /// The entry currently owns a live voice.
    pub audible: bool,
    /// The parent that the entry was requested under is gone.
    pub orphaned: bool,
    /// The entry is fading out after a demotion or a stop.
    pub retiring: bool,
    /// The playback was ended before its time.
    pub interrupted: bool,
    /// The entity is gone.
    pub despawned: bool,
}

impl<C> Sound<C> {
    /// A sound with nothing to it.
    pub open spec fn spec_bare(entity: u64) -> Sound<C> {
        Sound {
            entity,
            category: None,
            player: None,
            settings: None,
            priority: None,
            sampling: false,
            pool: None,
            placement: Placement::Nowhere,
            position: None,
            base_volume: None,
            base_pitch: None,
            effects: None,
            ramp: None,
            fade_in: None,
            fade_out: None,
            undamped: false,
            self_driven_volume: false,
            ducks: false,
            queued: None,
            audible: false,
            orphaned: false,
            retiring: false,
            interrupted: false,
            despawned: false,
        }
    }

    /// A sound with nothing to it.
    #[verifier::when_used_as_spec(spec_bare)]
    pub fn bare(entity: u64) -> (s: Sound<C>)
        ensures
            s == Sound::<C>::bare(entity),
    {
        Sound {
            entity,
            category: None,
            player: None,
            settings: None,
            priority: None,
            sampling: false,
            pool: None,
            placement: Placement::Nowhere,
            position: None,
            base_volume: None,
            base_pitch: None,
            effects: None,
            ramp: None,
            fade_in: None,
            fade_out: None,
            undamped: false,
            self_driven_volume: false,
            ducks: false,
            queued: None,
            audible: false,
            orphaned: false,
            retiring: false,
            interrupted: false,
            despawned: false,
        }
    }

    /// Whether a fade owns the volume node.
    pub open spec fn fading(self) -> bool {
        self.fade_in is Some || self.fade_out is Some
    }

    /// Whether the volume node can be handed ramps.
    pub open spec fn spec_takes_ramps(&self) -> bool {
        self.effects matches Some(effects) && effects.volume is Some && effects.ready
    }

    /// The sound with its volume node at `volume`.
    pub open spec fn with_node_volume(self, volume: Volume) -> Sound<C> {
        match self.effects {
            Some(effects) => Sound {
                effects: Some(Effects { volume: Some(volume), ..effects }),
                ..self
            },
            None => self,
        }
    }

    /// Whether the volume node can be handed ramps.
    #[verifier::when_used_as_spec(spec_takes_ramps)]
    pub fn takes_ramps(&self) -> (r: bool)
        ensures
            r == self.spec_takes_ramps(),
    {
        match &self.effects {
            Some(effects) => effects.volume.is_some() && effects.ready,
            None => false,
        }
    }
}

/// Two levels are the same where they are the same number in the same unit; a level
/// that is no number is the same as none, and a gain is never a level in decibels.
pub proof fn levels_are_the_same_in_number_and_unit(a: Single, b: Single)
    ensures
        Volume::Linear(a).same(Volume::Linear(b)) <==> a.is_at_most(b) && b.is_at_most(a),
        Volume::Decibels(a).same(Volume::Decibels(b)) <==> a.is_at_most(b) && b.is_at_most(a),
        a.is_nan() ==> !Volume::Linear(a).same(Volume::Linear(b)) && !Volume::Decibels(a).same(
            Volume::Decibels(b),
        ),
        !Volume::Linear(a).same(Volume::Decibels(b)),
        !Volume::Decibels(a).same(Volume::Linear(b)),
{
}

/// A bare sound is silent, unplaced and free: nothing plays it, owns it or ends it.
pub proof fn a_bare_sound_has_nothing<C>(entity: u64)
    ensures
        ({
            let s = Sound::<C>::bare(entity);
            &&& s.entity == entity
            &&& s.category is None && s.player is None && s.settings is None && s.priority is None
            &&& s.pool is None && s.placement == Placement::Nowhere && s.position is None
            &&& s.base_volume is None && s.base_pitch is None && s.effects is None
            &&& s.ramp is None && s.fade_in is None && s.fade_out is None && s.queued is None
            &&& !s.sampling && !s.undamped && !s.self_driven_volume && !s.ducks && !s.audible
            &&& !s.orphaned && !s.retiring && !s.interrupted && !s.despawned
        }),
{
}

/// A sound can be handed ramps exactly if it has a volume node and its effects are
/// ready; a write of its node changes nothing else.
pub proof fn ramps_take_a_ready_node<C>(s: Sound<C>, effects: Effects, volume: Volume)
    ensures
        s.effects is None ==> !s.takes_ramps() && s.with_node_volume(volume) == s,
        s.effects == Some(effects) ==> {
            &&& s.takes_ramps() <==> effects.volume is Some && effects.ready
            &&& s.with_node_volume(volume) == (Sound {
                effects: Some(Effects { volume: Some(volume), ..effects }),
                ..s
            })
        },
{
}

} // verus!
