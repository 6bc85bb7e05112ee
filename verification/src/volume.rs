//! The config-driven volume writes.

use crate::baseline::{base_or_unity, BaseVolume};
use crate::mix_fade::{MixFadeState, MixLevel};
use crate::single::arith::product;
use crate::single::laws::lemma_times_one;
use crate::single::Single;
use crate::sound::{Effects, Sound, Volume};
use crate::traits::{has_effective_volume, has_volume, AudioCategory, AudioConfig};
use vstd::prelude::*;

verus! {

/// Whether a fade of the whole mix owns the main bus.
pub open spec fn mix_is_away(mix_fade: Option<&MixFadeState>) -> bool {
    mix_fade matches Some(state) && state.target == MixLevel::Silent
}

/// Updates the volume of the master bus when the configuration changes.
///
/// While the mix is pointed at silence the fade owns the main bus, so the write
/// is skipped: a change must not snap a silent, or still fading, bus back to
/// full. The deferred level lands with the fade back, which reads the
/// configuration then.
pub fn update_master_volume<C: AudioCategory>(
    config: &C::Config,
    mix_fade: Option<&MixFadeState>,
    master: &mut Volume,
)
    ensures
        mix_is_away(mix_fade) ==> *final(master) == *old(master),
        !mix_is_away(mix_fade) ==> exists|level: Single| #[trigger]
            has_effective_volume(*config, level) && *final(master) == Volume::Linear(level),
{
    if let Some(state) = mix_fade {
        if state.target == MixLevel::Silent {
            return;
        }
    }
    let level: Single = config.effective_volume();
    assert(has_effective_volume(*config, level));
    *master = Volume::Linear(level);
}

/// Whether the config-driven write reaches a sound: it has a category and a
/// volume node, and neither a fade nor a system of its own owns the node.
pub open spec fn follows_config<C>(s: Sound<C>) -> bool {
    !s.despawned && s.category is Some && !s.self_driven_volume && !s.fading() && (
    s.effects matches Some(effects) && effects.volume is Some)
}

/// The sound after a config-driven write at `category_volume`: its node is at
/// the category volume times its own.
pub open spec fn retuned<C>(s: Sound<C>, category_volume: Single) -> Sound<C> {
    if follows_config(s) {
        s.with_node_volume(
            Volume::Linear(base_or_unity(s.base_volume).resolve(category_volume)),
        )
    } else {
        s
    }
}

/// Whether `after` is what a config-driven write makes of `before`.
pub open spec fn is_retuned<C: AudioCategory>(
    before: Sound<C>,
    config: C::Config,
    after: Sound<C>,
) -> bool {
    match before.category {
        Some(category) => exists|volume: Single| #[trigger]
            has_volume(category, config, volume) && after == retuned(before, volume),
        None => after == before,
    }
}

/// Writes the volume node of one sound.
pub fn retune<C: AudioCategory>(s: Sound<C>, config: &C::Config) -> (r: Sound<C>)
    ensures
        is_retuned(s, *config, r),
{
    match s.category {
        Some(category) => {
            let volume: Single = category.volume(config);
            assert(has_volume(category, *config, volume));
            if s.despawned || s.self_driven_volume || s.fade_in.is_some()
                || s.fade_out.is_some() {
                return s;
            }
            match s.effects {
                Some(effects) => {
                    if effects.volume.is_none() {
                        return s;
                    }
                    let base = match s.base_volume {
                        Some(base) => base,
                        None => BaseVolume(Single::one()),
                    };
                    Sound {
                        effects: Some(
                            Effects {
                                volume: Some(Volume::Linear(base.resolve(volume))),
                                ..effects
                            },
                        ),
                        ..s
                    }
                },
                None => s,
            }
        },
        None => s,
    }
}

/// Updates the volume node of each sound when the configuration changes.
///
/// Sounds in the middle of a fade are skipped: the fade owns the node while it
/// lasts. So are those whose volume another system drives: it owns the node for
/// good.
pub fn update_category_volumes<C: AudioCategory>(config: &C::Config, sounds: &mut Vec<Sound<C>>)
    ensures
        final(sounds)@.len() == old(sounds)@.len(),
        forall|i: int|
            0 <= i < old(sounds)@.len() ==> is_retuned(
                old(sounds)@[i],
                *config,
                #[trigger] final(sounds)@[i],
            ),
{
    let mut i: usize = 0;
    while i < sounds.len()
        invariant
            i <= sounds@.len() == old(sounds)@.len(),
            forall|j: int|
                0 <= j < i ==> is_retuned(old(sounds)@[j], *config, #[trigger] sounds@[j]),
            forall|j: int| i <= j < sounds@.len() ==> #[trigger] sounds@[j] == old(sounds)@[j],
        decreases sounds@.len() - i,
    {
        let s = retune(sounds[i], config);
        sounds.set(i, s);
        i = i + 1;
    }
}

/// While a fade owns a sound's node, or a system of its own does, a config-driven
/// write changes nothing of the sound; and it never changes anything but the
/// volume node.
pub proof fn config_writes_touch_only_free_nodes<C>(s: Sound<C>, category_volume: Single)
    ensures
        s.fading() || s.self_driven_volume ==> retuned(s, category_volume) == s,
        retuned(s, category_volume).effects matches Some(after) ==> (s.effects matches Some(
            before,
        ) && after == Effects { volume: after.volume, ..before }),
        retuned(s, category_volume) == (Sound {
            effects: retuned(s, category_volume).effects,
            ..s
        }),
{
}

/// The config-driven write puts every node that is free at the category volume
/// times the sound's own: at the sound's own where the category is at full, at the
/// category's where the sound has no level of its own, and at silence where the
/// sound is silent for good.
pub proof fn config_writes_reach_every_free_node<C>(
    s: Sound<C>,
    category_volume: Single,
    effects: Effects,
)
    requires
        s.category is Some,
        s.effects == Some(effects),
        effects.volume is Some,
        !s.despawned,
        !s.self_driven_volume,
        s.fade_in is None,
        s.fade_out is None,
    ensures
        ({
            let node = (retuned(s, category_volume).effects->0).volume;
            &&& node is Some && node->0 is Linear
            &&& s.base_volume matches Some(base) ==> node == Some(
                Volume::Linear(product(category_volume, base.0)),
            )
            &&& s.base_volume matches Some(base) ==> (category_volume == Single::one()
                && !base.0.is_nan() ==> node == Some(Volume::Linear(base.0)))
            &&& s.base_volume is None && !category_volume.is_nan() ==> node == Some(
                Volume::Linear(category_volume),
            )
        }),
{
    if let Some(base) = s.base_volume {
        if !base.0.is_nan() {
            lemma_times_one(base.0);
        }
    } else if !category_volume.is_nan() {
        lemma_times_one(category_volume);
    }
}

/// A sound without a category or without a volume node, one that is gone, one that
/// fades and one whose own system drives it are left as they are.
pub proof fn config_writes_leave_the_rest_alone<C>(s: Sound<C>, category_volume: Single)
    requires
        s.category is None || s.despawned || s.self_driven_volume || s.fade_in is Some
            || s.fade_out is Some || s.effects is None || (s.effects->0).volume is None,
    ensures
        retuned(s, category_volume) == s,
{
}

/// Only a fade that points the mix at silence holds the main bus: without one, and
/// once it points back to full, the configuration does.
pub proof fn only_silence_holds_the_bus(state: MixFadeState)
    ensures
        !mix_is_away(None),
        mix_is_away(Some(&state)) <==> state.target == MixLevel::Silent,
{
}

/// A config-driven write reads the volume of the sound's own category in the
/// configuration that is, and leaves a sound without one alone.
pub proof fn config_writes_read_the_category<C: AudioCategory>(
    before: Sound<C>,
    config: C::Config,
    after: Sound<C>,
)
    requires
        is_retuned(before, config, after),
    ensures
        before.category is None ==> after == before,
        before.category matches Some(category) ==> exists|volume: Single| #[trigger]
            call_ensures(C::volume, (&category, &config), volume) && after == retuned(
                before,
                volume,
            ),
{
    if let Some(category) = before.category {
        let volume = choose|volume: Single| #[trigger]
            has_volume(category, config, volume) && after == retuned(before, volume);
        assert(call_ensures(C::volume, (&category, &config), volume));
    }
}

} // verus!
