//! The handle by which a sound source names its playback channel.
//!
//! A handle is the key under which the audio subsystem keeps the channel. It
//! is made once, when the source is made, and never changes.

use vstd::prelude::*;

verus! {

/// Whether `c` is a digit or one of the letters `a` to `f`.
pub open spec fn is_hex_digit(c: char) -> bool {
    ('0' <= c && c <= '9') || ('a' <= c && c <= 'f')
}

/// Whether `s` is the text of a random identifier of 128 bits: 36 characters,
/// hyphens after the 8th, 12th, 16th and 20th digit, lower-case hexadecimal
/// digits elsewhere, the version digit `4` and a variant digit from `8` to `b`.
pub open spec fn is_uuid_text(s: Seq<char>) -> bool {
    &&& s.len() == 36
    &&& forall|i: int|
        0 <= i < 36 ==> if i == 8 || i == 13 || i == 18 || i == 23 {
            #[trigger] s[i] == '-'
        } else {
            is_hex_digit(s[i])
        }
    &&& s[14] == '4'
    &&& (s[19] == '8' || s[19] == '9' || s[19] == 'a' || s[19] == 'b')
}

/// A new random identifier as text.
///
/// Trusted: the body calls `bevy::utils::Uuid::new_v4` and renders the result
/// with `to_string`. The contract claims only the shape of that text, which is
/// the same for every identifier: the hyphenated lower-case form, with the
/// version and variant digits that `new_v4` sets. Nothing is claimed of the
/// random digits, so nothing here shows that two identifiers differ.
#[verifier::external_body]
fn random_id() -> (id: String)
    ensures
        is_uuid_text(id@),
{
    bevy::utils::Uuid::new_v4().to_string()
}

/// The handle of one playback channel.
#[derive(Clone, Debug, PartialEq, Eq, Hash)]
pub struct AudioChannel(String);

impl AudioChannel {
    /// The key that the handle stands for.
    pub closed spec fn view(&self) -> Seq<char> {
        self.0@
    }

    /// A handle for a channel that does not exist yet, under a new random
    /// key. The caller creates the channel under [`AudioChannel::channel`].
    pub fn new() -> (handle: AudioChannel)
        ensures
            is_uuid_text(handle@),
    {
        AudioChannel::with_key(random_id())
    }

    /// The handle that stands for `key`.
    pub fn with_key(key: String) -> (handle: AudioChannel)
        ensures
            handle@ == key@,
    {
        AudioChannel(key)
    }

    /// The key under which the audio subsystem keeps this handle's channel.
    pub fn channel(&self) -> (key: &str)
        ensures
            key@ == self@,
    {
        self.0.as_str()
    }

    /// Whether two handles stand for the same channel.
    pub fn same_channel(&self, other: &AudioChannel) -> (same: bool)
        ensures
            same == (self@ == other@),
    {
        self.0 == other.0
    }
}

} // verus!
