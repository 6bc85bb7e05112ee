//! Detection of bevy's own audio stack.

use bevy::app::App;
use bevy::asset::AssetPlugin;
use bevy::ecs::reflect::AppTypeRegistry;
use bevy::reflect::TypeRegistry;
use bevy::MinimalPlugins;
use msg_seedling::bevy_audio_guard::{bevy_audio_is_active, registers_bevy_audio};

#[test]
fn plain_bevy_type_paths_are_not_bevy_audio() {
    assert!(!registers_bevy_audio(&[
        "bevy_transform::components::transform::Transform",
        "bevy_asset::handle::Handle<bevy_seedling::sample::AudioSample>",
    ]));
}

#[test]
fn an_audio_plugin_handle_registration_is_detected() {
    assert!(registers_bevy_audio(&[
        "bevy_transform::components::transform::Transform",
        "bevy_asset::handle::Handle<bevy_audio::audio_source::AudioSource>",
    ]));
}

#[test]
fn no_type_paths_means_no_bevy_audio() {
    assert!(!registers_bevy_audio(&[]));
}

#[test]
fn a_seedling_only_app_stays_quiet() {
    let mut app = App::new();
    app.add_plugins((MinimalPlugins, AssetPlugin::default()));
    app.update();

    let type_registry = app.world().resource::<AppTypeRegistry>().clone();
    assert!(!bevy_audio_is_active(&type_registry.read()));
}

#[test]
fn the_part_is_found_wherever_it_stands() {
    assert!(registers_bevy_audio(&["bevy_audio::"]));
    assert!(registers_bevy_audio(&["x", "ä::bevy_audio::Pitch"]));
    assert!(!registers_bevy_audio(&["bevy_audio:"]));
    assert!(!registers_bevy_audio(&["bevy_audio"]));
    assert!(!registers_bevy_audio(&["bevy_audio_::", "bevy_audi::o::"]));
    assert!(!registers_bevy_audio(&["", ""]));
}

#[test]
fn a_registry_is_searched_for_its_own_types() {
    let mut registry = TypeRegistry::new();
    assert!(!bevy_audio_is_active(&registry));
    registry.register::<u32>();
    registry.register::<String>();
    assert!(!bevy_audio_is_active(&registry));
}
