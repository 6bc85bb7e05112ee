//! Category-based volume control, sound damping, ducking, fades and a
//! significance-ranked voice queue for game audio.
//!
//! The library decides; a host carries out. Each system is a function over
//! plain values: a host fills a [`sound::Sound`] in for every sound it plays,
//! calls the systems in its own schedule, and carries the changes over to its
//! audio engine.

pub mod audio_systems;
pub mod baseline;
pub mod bevy_audio_guard;
pub mod counting;
pub mod damping;
pub mod device_follow;
pub mod ducking;
pub mod fade;
pub mod geometry;
pub mod handlers;
pub mod messages;
pub mod mix_fade;
pub mod plugin;
pub mod prelude;
pub mod randomization;
pub mod single;
pub mod sound;
pub mod time;
pub mod traits;
pub mod virtual_queue;
pub mod volume;
