//! The systems of the direct playback path, for custom scheduling.

pub use crate::handlers::{handle_fade_audio, handle_play_audio, handle_stop_audio};
pub use crate::volume::{update_category_volumes, update_master_volume};
