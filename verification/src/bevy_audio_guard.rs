//! Detection of bevy's own audio stack running alongside this one.
//!
//! Whether it runs is read from the types registered in the app: every type of
//! that stack has its crate's name in its path.

use bevy::reflect::TypeRegistry;
use vstd::prelude::*;
use vstd::string::*;
use vstd::utf8::encode_utf8;

verus! {

/// The bytes of the part that every type path of bevy's audio stack has,
/// `bevy_audio::`.
pub open spec fn bevy_audio_prefix() -> Seq<u8> {
    seq![98, 101, 118, 121, 95, 97, 117, 100, 105, 111, 58, 58]
}

/// Whether `part` stands in `text` at position `i`.
pub open spec fn stands_at(text: Seq<u8>, part: Seq<u8>, i: int) -> bool {
    0 <= i && i + part.len() <= text.len() && text.subrange(i, i + part.len()) == part
}

/// Whether a type path names a type of bevy's audio stack.
pub open spec fn names_bevy_audio(path: Seq<u8>) -> bool {
    exists|i: int| #[trigger] stands_at(path, bevy_audio_prefix(), i)
}

/// Whether the part stands in a path at position `i`.
fn prefix_stands_at(path: &[u8], i: usize) -> (r: bool)
    requires
        i + 12 <= path@.len(),
    ensures
        r == stands_at(path@, bevy_audio_prefix(), i as int),
{
    let prefix: [u8; 12] = [98, 101, 118, 121, 95, 97, 117, 100, 105, 111, 58, 58];
    let ghost here = path@.subrange(i as int, i + 12);
    let len: usize = path.len();
    assert(prefix@ =~= bevy_audio_prefix());
    let mut k: usize = 0;
    while k < 12
        invariant
            k <= 12,
            len == path@.len(),
            i + 12 <= len,
            here == path@.subrange(i as int, i + 12),
            prefix@ == bevy_audio_prefix(),
            forall|j: int| 0 <= j < k ==> here[j] == #[trigger] bevy_audio_prefix()[j],
        decreases 12 - k,
    {
        if path[i + k] != prefix[k] {
            assert(here[k as int] != bevy_audio_prefix()[k as int]);
            return false;
        }
        k = k + 1;
    }
    assert(here =~= bevy_audio_prefix());
    true
}

/// Whether a type path names a type of bevy's audio stack.
fn path_names_bevy_audio(path: &str) -> (r: bool)
    ensures
        r == names_bevy_audio(path.spec_bytes()),
{
    let bytes: &[u8] = path.as_bytes();
    if bytes.len() < 12 {
        return false;
    }
    let last: usize = bytes.len() - 12;
    let mut i: usize = 0;
    while i <= last
        invariant
            bytes@ == path.spec_bytes(),
            last + 12 == bytes@.len(),
            last + 12 <= usize::MAX,
            i <= last + 1,
            forall|j: int| 0 <= j < i ==> !#[trigger] stands_at(bytes@, bevy_audio_prefix(), j),
        decreases last + 1 - i,
    {
        if prefix_stands_at(bytes, i) {
            return true;
        }
        i = i + 1;
    }
    false
}

/// Whether any of `type_paths` names a type of bevy's audio stack.
pub fn registers_bevy_audio(type_paths: &[&str]) -> (r: bool)
    ensures
        r == exists|i: int|
            0 <= i < type_paths@.len() && names_bevy_audio(
                (#[trigger] type_paths@[i]).spec_bytes(),
            ),
{
    let mut i: usize = 0;
    while i < type_paths.len()
        invariant
            i <= type_paths@.len(),
            forall|j: int|
                0 <= j < i ==> !names_bevy_audio((#[trigger] type_paths@[j]).spec_bytes()),
        decreases type_paths@.len() - i,
    {
        if path_names_bevy_audio(type_paths[i]) {
            return true;
        }
        i = i + 1;
    }
    false
}

#[verifier::external_type_specification]
#[verifier::external_body]
pub struct ExTypeRegistry(bevy::reflect::TypeRegistry);

/// The paths of the types that a registry holds.
pub uninterp spec fn registered_paths(registry: TypeRegistry) -> Set<Seq<char>>;

/// `TypeRegistry::iter`, with the `type_path` of each registration's
/// `type_info`: hands out the path of every type that the registry holds, and
/// no other, in no particular order.
#[verifier::external_body]
fn type_paths(registry: &TypeRegistry) -> (r: Vec<String>)
    ensures
        forall|path: Seq<char>| #[trigger]
            registered_paths(*registry).contains(path) <==> exists|i: int|
                0 <= i < r@.len() && (#[trigger] r@[i])@ == path,
{
    registry.iter().map(|registration| registration.type_info().type_path().to_owned()).collect()
}

/// Whether any type of bevy's audio stack reached the registry, which is to say
/// that its plugin was built.
pub fn bevy_audio_is_active(registry: &TypeRegistry) -> (r: bool)
    ensures
        r == exists|path: Seq<char>| #[trigger]
            registered_paths(*registry).contains(path) && names_bevy_audio(encode_utf8(path)),
{
    let paths: Vec<String> = type_paths(registry);
    let mut i: usize = 0;
    while i < paths.len()
        invariant
            i <= paths@.len(),
            forall|path: Seq<char>| #[trigger]
                registered_paths(*registry).contains(path) <==> exists|j: int|
                    0 <= j < paths@.len() && (#[trigger] paths@[j])@ == path,
            forall|j: int|
                0 <= j < i ==> !names_bevy_audio(encode_utf8((#[trigger] paths@[j])@)),
        decreases paths@.len() - i,
    {
        if path_names_bevy_audio(paths[i].as_str()) {
            assert(registered_paths(*registry).contains(paths@[i as int]@));
            return true;
        }
        i = i + 1;
    }
    false
}

/// A path names a type of bevy's audio stack exactly if `bevy_audio::` stands
/// anywhere in it.
pub proof fn the_crate_name_stands_anywhere_in_the_path(path: Seq<u8>, start: Seq<u8>, end: Seq<u8>)
    ensures
        ({
            let name: Seq<u8> = seq![98, 101, 118, 121, 95, 97, 117, 100, 105, 111, 58, 58];
            &&& path == start + name + end ==> names_bevy_audio(path)
            &&& names_bevy_audio(path) ==> exists|i: int|
                0 <= i && i + 12 <= path.len() && #[trigger] path.subrange(i, i + 12) == name
        }),
{
    let name: Seq<u8> = seq![98, 101, 118, 121, 95, 97, 117, 100, 105, 111, 58, 58];
    if path == start + name + end {
        let i: int = start.len() as int;
        assert(path.subrange(i, i + 12) =~= name);
        assert(stands_at(path, bevy_audio_prefix(), i));
    }
    if names_bevy_audio(path) {
        let i = choose|i: int| #[trigger] stands_at(path, bevy_audio_prefix(), i);
        assert(path.subrange(i, i + 12) =~= name);
    }
}

} // verus!
