//! What a game provides: its audio categories and its audio configuration.

use crate::single::Single;
use vstd::prelude::*;

verus! {

/// An audio category, which maps to a volume level of the configuration.
///
/// Games implement this for their own category enum.
pub trait AudioCategory: Copy + PartialEq + Eq {
    /// The configuration that provides volume settings.
    type Config: AudioConfig;

    /// The volume multiplier for this category, between zero and one.
    fn volume(&self, config: &Self::Config) -> (volume: Single);

    /// Whether sounds of this category may be damped by a
    /// [`SoundDampingField`](crate::damping::SoundDampingField) at all.
    ///
    /// Interface audio is the classic exemption: a menu click is not an event
    /// in the world, so a field in the world does not get to muffle it.
    /// Defaults to `true`.
    fn is_dampable(&self) -> (dampable: bool)
        default_ensures
            dampable,
    {
        true
    }
}

/// An audio configuration: the master volume and an optional mute toggle.
pub trait AudioConfig: Clone + Default {
    /// The master volume level, between zero and one.
    fn master_volume(&self) -> (volume: Single);

    /// Whether audio is globally muted. Defaults to `false`.
    fn is_muted(&self) -> (muted: bool)
        default_ensures
            !muted,
    {
        false
    }

    /// Zero if muted, otherwise the master volume.
    fn effective_volume(&self) -> (volume: Single)
        default_ensures
            exists|muted: bool| #[trigger]
                call_ensures(Self::is_muted, (self,), muted) && if muted {
                    volume == Single::zero()
                } else {
                    call_ensures(Self::master_volume, (self,), volume)
                },
    {
        if self.is_muted() {
            Single::zero()
        } else {
            self.master_volume()
        }
    }
}

/// Whether `volume` is what the category has as its volume.
pub open spec fn has_volume<C: AudioCategory>(category: C, config: C::Config, volume: Single) -> bool {
    call_ensures(C::volume, (&category, &config), volume)
}

/// Whether `volume` is the level that the configuration makes the mix.
pub open spec fn has_effective_volume<A: AudioConfig>(config: A, volume: Single) -> bool {
    call_ensures(A::effective_volume, (&config,), volume)
}

/// Whether `same` is what comparing two categories with `==` answers.
pub open spec fn says_same<C: AudioCategory>(a: C, b: C, same: bool) -> bool {
    call_ensures(C::eq, (&a, &b), same)
}

/// Whether `same` is what comparing the category of a sound, if it has one, with
/// the one a request asks for, if it asks for one, answers.
pub open spec fn says_asked_for<C: AudioCategory>(
    own: Option<C>,
    asked: Option<C>,
    same: bool,
) -> bool {
    own is Some && asked is Some ==> says_same(own->0, asked->0, same)
}

/// Compares the category of a sound with the one a request asks for; whether
/// both are there and the same.
pub(crate) fn is_asked_for<C: AudioCategory>(own: Option<C>, asked: Option<C>) -> (same: bool)
    ensures
        says_asked_for(own, asked, same),
{
    match (own, asked) {
        (Some(own), Some(asked)) => own == asked,
        _ => false,
    }
}

/// Whether `dampable` is what the category says of being dampable.
pub open spec fn says_dampable<C: AudioCategory>(category: C, dampable: bool) -> bool {
    call_ensures(C::is_dampable, (&category,), dampable)
}

} // verus!
