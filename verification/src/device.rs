//! What a device says of itself.

use crate::text;
use crate::text::{chars_of, occurs};
use vstd::prelude::*;
use vstd::string::*;
use vstd::utf8;

verus! {

/// What `str::to_lowercase` makes of a string.
pub uninterp spec fn lowercase(s: Seq<char>) -> Seq<char>;

/// `str::to_lowercase`: the lower-case equivalent of a string, by Unicode's tables. Claimed
/// is that the result depends on the string alone, and that of a string of ASCII
/// characters it turns the capitals into small letters and nothing else.
#[verifier::external_body]
fn to_lowercase(s: &str) -> (l: String)
    ensures
        l@ == lowercase(s@),
        utf8::is_ascii_chars(s@) ==> l@ == text::lowered(s@),
{
    s.to_lowercase()
}

/// A lower-case identity that says Kindle, in one of the two ways devices do.
pub open spec fn says_kindle(identity: Seq<char>) -> bool {
    text::occurs_in(identity, "kindle"@) || text::occurs_in(identity, "amazon"@)
}

/// Whether a lower-case identity says Kindle.
pub fn names_a_kindle(identity: &str) -> (yes: bool)
    ensures
        yes == says_kindle(identity@),
{
    let chars = chars_of(identity);
    occurs(&chars, "kindle") || occurs(&chars, "amazon")
}

/// Does this device's own reported identity say "Kindle"?
///
/// Asked because opening a device and *being on the right device* are different questions:
/// a USB stick in the same machine can be enumerated first. Matched on the strings the
/// device volunteers, by substring: real devices already disagree on which field carries
/// the word. A heuristic that decides whether the user has to opt in before filling, not
/// whether the device may be used at all.
#[must_use]
pub fn looks_like_kindle(manufacturer: &str, model: &str) -> (yes: bool)
    ensures
        yes == says_kindle(lowercase(manufacturer@ + " "@ + model@)),
        utf8::is_ascii_chars(manufacturer@ + " "@ + model@) ==> yes == says_kindle(
            text::lowered(manufacturer@ + " "@ + model@),
        ),
{
    let mut identity = manufacturer.to_owned();
    identity.append(" ");
    identity.append(model);
    names_a_kindle(to_lowercase(identity.as_str()).as_str())
}

/// Why a device has no storage to work on.
#[derive(Debug, Clone, Copy, PartialEq, Eq, Structural)]
pub enum StorageError {
    /// The device exposes none at all.
    NoStorages,
    /// None of them accepts writes.
    NoneWritable,
}

/// Kindles expose one writable storage: the first that accepts writes, given for each
/// whether it does.
pub fn pick_storage(writable: &Vec<bool>) -> (picked: Result<usize, StorageError>)
    ensures
        match picked {
            Ok(i) => {
                &&& i < writable@.len()
                &&& writable@[i as int]
                &&& forall|j: int| 0 <= j < i ==> !#[trigger] writable@[j]
            },
            Err(StorageError::NoStorages) => writable@.len() == 0,
            Err(StorageError::NoneWritable) => {
                &&& writable@.len() > 0
                &&& forall|j: int| 0 <= j < writable@.len() ==> !#[trigger] writable@[j]
            },
        },
{
    if writable.len() == 0 {
        return Err(StorageError::NoStorages);
    }
    let mut i: usize = 0;
    while i < writable.len()
        invariant
            i <= writable.len(),
            forall|j: int| 0 <= j < i ==> !#[trigger] writable@[j],
        decreases writable.len() - i,
    {
        if writable[i] {
            return Ok(i);
        }
        i += 1;
    }
    Err(StorageError::NoneWritable)
}

/// What is said where a device has no storage to work on.
pub open spec fn storage_error_text(error: StorageError) -> Seq<char> {
    match error {
        StorageError::NoStorages => "device exposes no storages"@,
        StorageError::NoneWritable => "no writable storage on this device"@,
    }
}

impl StorageError {
    /// The error in words.
    pub fn message(&self) -> (message: String)
        ensures
            message@ == storage_error_text(*self),
    {
        match self {
            StorageError::NoStorages => "device exposes no storages".to_owned(),
            StorageError::NoneWritable => "no writable storage on this device".to_owned(),
        }
    }
}

/// Recognition does not depend on how the device capitalizes itself: identities that
/// differ in nothing but the case of ASCII letters are recognized alike.
pub proof fn law_recognition_ignores_capitals(a: Seq<char>, b: Seq<char>)
    requires
        a.len() == b.len(),
        forall|i: int| 0 <= i < a.len() ==> text::lower(#[trigger] a[i]) == text::lower(b[i]),
    ensures
        says_kindle(text::lowered(a)) == says_kindle(text::lowered(b)),
{
    assert(text::lowered(a) =~= text::lowered(b));
}

} // verus!
