//! The settings of the crate's main plugin.

use crate::device_follow::FollowDefaultAudioDevice;
use crate::geometry::Vec3;
use crate::randomization::{DefaultRandomization, DEFAULT_DEVIATION};
use crate::single::Single;
use crate::time::Duration;
use crate::traits::AudioCategory;
use core::marker::PhantomData;
use vstd::prelude::*;

verus! {

/// The settings of the main plugin for one category type.
pub struct MsgSeedlingPlugin<C: AudioCategory> {
    pub default_randomization: DefaultRandomization,
    pub spatial_scale: Option<Vec3>,
    /// How the default output device is followed; `None` follows none.
    pub device_follow: Option<FollowDefaultAudioDevice>,
    pub _phantom: PhantomData<C>,
}

impl<C: AudioCategory> MsgSeedlingPlugin<C> {
    pub open spec fn spec_new() -> MsgSeedlingPlugin<C> {
        MsgSeedlingPlugin {
            default_randomization: DefaultRandomization {
                volume: Some(Single { bits: DEFAULT_DEVIATION }),
                speed: Some(Single { bits: DEFAULT_DEVIATION }),
            },
            spatial_scale: None,
            device_follow: Some(
                FollowDefaultAudioDevice { poll_interval: Duration::from_secs(1) },
            ),
            _phantom: PhantomData,
        }
    }

    /// The default settings.
    pub fn new() -> (r: MsgSeedlingPlugin<C>)
        ensures
            r == MsgSeedlingPlugin::<C>::spec_new(),
    {
        MsgSeedlingPlugin {
            default_randomization: DefaultRandomization::default(),
            spatial_scale: None,
            device_follow: Some(FollowDefaultAudioDevice::default()),
            _phantom: PhantomData,
        }
    }

    /// Sets the default randomization for all audio.
    pub fn with_default_randomization(self, defaults: DefaultRandomization) -> (r:
        MsgSeedlingPlugin<C>)
        ensures
            r == (MsgSeedlingPlugin { default_randomization: defaults, ..self }),
    {
        MsgSeedlingPlugin { default_randomization: defaults, ..self }
    }

    /// Sets the spatial audio scale.
    pub fn with_spatial_scale(self, scale: Vec3) -> (r: MsgSeedlingPlugin<C>)
        ensures
            r == (MsgSeedlingPlugin { spatial_scale: Some(scale), ..self }),
    {
        MsgSeedlingPlugin { spatial_scale: Some(scale), ..self }
    }

    /// Configures how the default output device is followed.
    pub fn with_device_follow(self, settings: FollowDefaultAudioDevice) -> (r: MsgSeedlingPlugin<C>)
        ensures
            r == (MsgSeedlingPlugin { device_follow: Some(settings), ..self }),
    {
        MsgSeedlingPlugin { device_follow: Some(settings), ..self }
    }

    /// Disables following the default output device.
    pub fn without_device_follow(self) -> (r: MsgSeedlingPlugin<C>)
        ensures
            r == (MsgSeedlingPlugin { device_follow: None, ..self }),
    {
        MsgSeedlingPlugin { device_follow: None, ..self }
    }
}

impl<C: AudioCategory> Default for MsgSeedlingPlugin<C> {
    fn default() -> (r: MsgSeedlingPlugin<C>)
        ensures
            r == MsgSeedlingPlugin::<C>::spec_new(),
    {
        MsgSeedlingPlugin::new()
    }
}

/// The main plugin starts with a fifth of deviation on both axes, no spatial scale,
/// and following the default device once a second.
pub proof fn the_plugin_starts_from_its_defaults<C: AudioCategory>()
    ensures
        ({
            let plugin = MsgSeedlingPlugin::<C>::spec_new();
            let fifth = Some(Single { bits: 0x3e4c_cccd });
            &&& plugin.default_randomization.volume == fifth
            &&& plugin.default_randomization.speed == fifth
            &&& plugin.spatial_scale is None
            &&& plugin.device_follow matches Some(follow) && follow.poll_interval.nanos
                == 1_000_000_000
        }),
{
}

} // verus!
