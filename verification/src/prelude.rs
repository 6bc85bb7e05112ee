//! What a host commonly imports.

pub use crate::baseline::{BasePitch, BaseVolume};
pub use crate::damping::{DampingTargets, SoundDampingField};
pub use crate::device_follow::FollowDefaultAudioDevice;
pub use crate::ducking::DuckingEnvelope;
pub use crate::fade::{FadeInAudio, FadeOutAudio};
pub use crate::geometry::{Vec2, Vec3};
pub use crate::messages::{FadeAudio, PlayAudio, SampleId, SpatialPosition, StopAudio};
pub use crate::mix_fade::{FadeMix, MixFadeState, MixLevel};
pub use crate::plugin::MsgSeedlingPlugin;
pub use crate::randomization::{DefaultRandomization, Randomization};
pub use crate::single::Single;
pub use crate::sound::{Sound, Volume};
pub use crate::time::Duration;
pub use crate::traits::{AudioCategory, AudioConfig};
pub use crate::virtual_queue::requests::{PlayQueuedAudio, StopQueuedAudio, VirtualVoiceBudget};
pub use crate::virtual_queue::VirtualSound;
