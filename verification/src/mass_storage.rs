//! Kindle USB mass-storage support for older models the OS mounts directly.
//!
//! Modern Kindles speak MTP; older ones appear as a volume named `Kindle`: a mount point
//! on macOS and Linux, a removable drive letter with that volume label on Windows. The
//! two transports share the filename and confirmation rules, so cleanup is equally narrow
//! in either mode. What is asked of the file system is answered by whoever holds the
//! volume; what the answers mean is decided here.

use crate::events;
use crate::events::{Fault, FillError};
use crate::listing;
use crate::listing::{FillerFolder, RootEntry};
use crate::names;
use crate::names::validate_dir_name;
use crate::order;
use crate::text;
use crate::text::{chars_of, to_lowered};
use crate::token;
use crate::zeros;
use crate::zeros::{StreamState, ZeroStream};
use bytes::Bytes;
use vstd::prelude::*;
use vstd::string::*;

pub use crate::listing::Entry;

verus! {

/// The name of a Kindle's volume.
pub const KINDLE_VOLUME: &'static str = "Kindle";

/// The folder that every Kindle's volume holds.
pub const DOCUMENTS: &'static str = "documents";

/// Capacity as the device reports it.
#[derive(Debug, Clone, Copy, PartialEq, Eq, Structural)]
pub struct Space {
    pub total: u64,
    pub free: u64,
}

/// A Kindle exposed by the OS as a mounted USB mass-storage volume.
#[derive(Debug)]
pub struct MountedKindle {
    root: String,
}

impl Clone for MountedKindle {
    fn clone(&self) -> (copy: Self)
        ensures
            copy@ == self@,
    {
        MountedKindle { root: self.root.clone() }
    }
}

impl View for MountedKindle {
    type V = Seq<char>;

    /// The path of the volume.
    closed spec fn view(&self) -> Seq<char> {
        self.root@
    }
}

/// The path stands on a lettered drive, as in `E:\`, where a backslash separates.
pub open spec fn on_drive(path: Seq<char>) -> bool {
    path.len() >= 3 && path[1] == ':' && path[2] == '\\'
}

/// `name` in the folder at the path `base`; a `name` that is a path from the root is one
/// by itself.
pub open spec fn joined(base: Seq<char>, name: Seq<char>) -> Seq<char> {
    if name.len() > 0 && name[0] == '/' {
        name
    } else if base.len() == 0 || base.last() == '/' {
        base + name
    } else if on_drive(base) {
        if base.last() == '\\' {
            base + name
        } else {
            base + "\\"@ + name
        }
    } else {
        base + "/"@ + name
    }
}

/// `name` in the folder at the path `base`; a `name` that is a path from the root is one
/// by itself.
pub fn join(base: &str, name: &str) -> (path: String)
    ensures
        path@ == joined(base@, name@),
{
    let added = chars_of(name);
    if added.len() > 0 && added[0] == '/' {
        return name.to_owned();
    }
    let chars = chars_of(base);
    let len: usize = chars.len();
    let mut path = base.to_owned();
    if len > 0 && chars[len - 1] != '/' {
        if len >= 3 && chars[1] == ':' && chars[2] == '\\' {
            if chars[len - 1] != '\\' {
                path.append("\\");
            }
        } else {
            path.append("/");
        }
    }
    path.append(name);
    path
}

/// The systems that mount a Kindle under a path that names it.
#[derive(Debug, Clone, Copy, PartialEq, Eq, Structural)]
pub enum System {
    MacOs,
    OtherUnix,
}

/// The folders that mount points are looked for in, in order. On Linux, udisks2 mounts
/// removable media under `/run/media/<user>` or `/media/<user>`; without a user there is
/// nowhere to look.
pub open spec fn mount_bases_of(system: System, user: Option<Seq<char>>) -> Seq<Seq<char>> {
    match (system, user) {
        (System::MacOs, _) => seq!["/Volumes"@],
        (System::OtherUnix, Some(user)) => seq![
            joined("/run/media"@, user),
            joined("/media"@, user),
        ],
        (System::OtherUnix, None) => Seq::empty(),
    }
}

/// The folders that mount points are looked for in, in order.
pub fn mount_bases(system: System, user: Option<&str>) -> (bases: Vec<String>)
    ensures
        bases@.map_values(|b: String| b@) == mount_bases_of(
            system,
            match user {
                Some(u) => Some(u@),
                None => None,
            },
        ),
{
    let mut bases: Vec<String> = Vec::new();
    match (system, user) {
        (System::MacOs, _) => {
            bases.push("/Volumes".to_owned());
        },
        (System::OtherUnix, Some(user)) => {
            bases.push(join("/run/media", user));
            bases.push(join("/media", user));
        },
        (System::OtherUnix, None) => {},
    }
    assert(bases@.map_values(|b: String| b@) =~= mount_bases_of(
        system,
        match user {
            Some(u) => Some(u@),
            None => None,
        },
    ));
    bases
}

/// A volume that might be a Kindle: where it would be mounted, and what is there.
#[derive(Debug)]
pub struct Candidate {
    pub root: String,
    /// There is a folder at that path.
    pub is_dir: bool,
    /// That folder holds a `documents` folder.
    pub has_documents: bool,
}

/// Both signatures: a volume named Kindle, and `documents` on it. A volume merely named
/// Kindle must not become a fill target.
pub open spec fn is_kindle(c: Candidate) -> bool {
    c.is_dir && c.has_documents
}

/// The first candidate that is a Kindle.
pub open spec fn first_kindle(candidates: Seq<Candidate>) -> Option<Seq<char>>
    decreases candidates.len(),
{
    if candidates.len() == 0 {
        None
    } else if is_kindle(candidates[0]) {
        Some(candidates[0].root@)
    } else {
        first_kindle(candidates.drop_first())
    }
}

/// What stands under a name at the root of a volume.
#[derive(Debug)]
pub enum Found {
    Symlink,
    Folder,
    /// Neither a folder nor a link to one.
    Other,
    Missing,
    /// It could not be looked at, for the reason given.
    Unreadable(String),
}

/// What is said of a filler folder that is a link.
pub open spec fn symlink_text() -> Seq<char> {
    "the filler folder is a symlink; refusing to follow it"@
}

/// Why a folder can't be worked in: its name can't be used, it is a link, or it can't be
/// looked at.
pub open spec fn not_a_folder(name: Seq<char>, found: Found, fault: Fault) -> bool {
    ||| !names::usable(name) && fault == events::bad_name(name)
    ||| names::usable(name) && found is Symlink && fault == Fault::Io(symlink_text())
    ||| names::usable(name) && (found matches Found::Unreadable(why) && fault == Fault::Io(why@))
}

impl MountedKindle {
    /// The default, OS-mounted Kindle volume among the candidates, in order, without
    /// considering arbitrary removable drives.
    pub fn find(candidates: &Vec<Candidate>) -> (kindle: Option<MountedKindle>)
        ensures
            match kindle {
                Some(k) => first_kindle(candidates@) == Some(k@),
                None => first_kindle(candidates@) is None,
            },
    {
        let mut i: usize = 0;
        assert(candidates@.skip(0) =~= candidates@);
        while i < candidates.len()
            invariant
                i <= candidates.len(),
                first_kindle(candidates@) == first_kindle(candidates@.skip(i as int)),
            decreases candidates.len() - i,
        {
            assert(candidates@.skip(i as int).drop_first() =~= candidates@.skip(i + 1));
            if candidates[i].is_dir && candidates[i].has_documents {
                return Some(MountedKindle { root: candidates[i].root.clone() });
            }
            i += 1;
        }
        None
    }

    /// The Kindle mounted in the folder `volumes`: `is_dir` is whether a folder named
    /// `Kindle` is there, and `has_documents` whether `documents` is in it.
    pub fn find_in(volumes: &str, is_dir: bool, has_documents: bool) -> (kindle: Option<
        MountedKindle,
    >)
        ensures
            match kindle {
                Some(k) => is_dir && has_documents && k@ == joined(volumes@, KINDLE_VOLUME@),
                None => !(is_dir && has_documents),
            },
    {
        if is_dir && has_documents {
            Some(MountedKindle { root: join(volumes, KINDLE_VOLUME) })
        } else {
            None
        }
    }

    /// The path of the volume.
    #[must_use]
    pub fn root(&self) -> (root: &str)
        ensures
            root@ == self@,
    {
        self.root.as_str()
    }

    /// The space on the volume, given its size and what is available to the caller in
    /// blocks of `block` bytes.
    pub fn space(&self, blocks: u64, available: u64, block: u64) -> (space: Space)
        ensures
            space.total == listing::capped(blocks * block),
            space.free == listing::capped(available * block),
    {
        Space { total: times(blocks, block), free: times(available, block) }
    }

    /// Whether the volume accepts writes, given what `access` returned for it.
    pub fn is_writable(&self, access: i32) -> (yes: bool)
        ensures
            yes == (access == 0),
    {
        access == 0
    }

    /// The path of the folder `name` at the root, given what stands under that name: none
    /// where that is no folder. A name that can't be used is refused, and so is a link,
    /// which could lead anywhere.
    pub fn named_root_dir(&self, name: &str, found: Found) -> (dir: Result<
        Option<String>,
        FillError,
    >)
        ensures
            match dir {
                Ok(Some(path)) => names::usable(name@) && found is Folder && path@ == joined(
                    self@,
                    name@,
                ),
                Ok(None) => names::usable(name@) && (found is Other || found is Missing),
                Err(e) => not_a_folder(name@, found, e@),
            },
    {
        match validate_dir_name(name) {
            Err(e) => {
                return Err(FillError::BadName(e));
            },
            Ok(()) => {},
        }
        match found {
            Found::Symlink => Err(
                FillError::Io("the filler folder is a symlink; refusing to follow it".to_owned()),
            ),
            Found::Folder => Ok(Some(join(self.root.as_str(), name))),
            Found::Other => Ok(None),
            Found::Missing => Ok(None),
            Found::Unreadable(why) => Err(FillError::Io(why)),
        }
    }

    /// The folder `name` at the root, given what stands under that name, the handle it goes
    /// by and its size: none where that is no folder.
    pub fn find_fill_dir(&self, name: &str, found: Found, id: u64, bytes: u64) -> (dir: Result<
        Option<Entry>,
        FillError,
    >)
        ensures
            match dir {
                Ok(Some(e)) => {
                    &&& names::usable(name@) && found is Folder
                    &&& e.id == id && e.name@ == name@ && e.bytes == bytes
                    &&& e.is_dir && !e.is_file
                },
                Ok(None) => names::usable(name@) && (found is Other || found is Missing),
                Err(e) => not_a_folder(name@, found, e@),
            },
    {
        match self.named_root_dir(name, found) {
            Ok(Some(_)) => Ok(
                Some(Entry { id, name: name.to_owned(), bytes, is_dir: true, is_file: false }),
            ),
            Ok(None) => Ok(None),
            Err(e) => Err(e),
        }
    }

    /// Filler in a folder, given its listing; none in a folder that is not there.
    pub fn list_fillers(&self, listing: Option<&Vec<Entry>>) -> (fillers: Vec<Entry>)
        ensures
            fillers@ == match listing {
                Some(l) => listing::fillers_of(l@),
                None => Seq::empty(),
            },
    {
        match listing {
            Some(l) => listing::list_fillers(l),
            None => Vec::new(),
        }
    }

    /// Everything in a folder that is not ours, given its listing.
    pub fn list_foreign(&self, listing: Option<&Vec<Entry>>) -> (foreign: Vec<Entry>)
        ensures
            foreign@ == match listing {
                Some(l) => listing::foreign_of(l@),
                None => Seq::empty(),
            },
    {
        match listing {
            Some(l) => listing::list_foreign(l),
            None => Vec::new(),
        }
    }

    /// The token of what is not ours in the folder `name`, given its listing.
    pub fn overwrite_token(&self, name: &str, listing: Option<&Vec<Entry>>) -> (token: Option<
        String,
    >)
        ensures
            match (token, listing) {
                (Some(t), Some(l)) => token::folder_token(name@, l@) == Some(t@),
                (Some(t), None) => false,
                (None, Some(l)) => token::folder_token(name@, l@) is None,
                (None, None) => true,
            },
    {
        match listing {
            Some(l) => token::current_overwrite_token(name, l),
            None => None,
        }
    }

    /// Staged firmware images at the root, given its listing.
    pub fn list_staged_updates(&self, root: &Vec<Entry>) -> (updates: Vec<Entry>)
        ensures
            updates@ == listing::updates_of(root@),
    {
        listing::list_staged_updates(root)
    }

    /// The folders at the root that hold filler, the fullest first, given the root with
    /// what its folders hold. A folder under a name that could not be asked for, or that
    /// could not be read, counts as holding none: this is advisory breadth, and one bad
    /// folder must not turn a scan into an error.
    pub fn find_filler_folders(&self, root: Vec<RootEntry>) -> (folders: Vec<FillerFolder>)
        ensures
            folders@ == listing::filler_folders_of(askable(root@)),
    {
        let mut rest = root;
        let ghost keep = |r: RootEntry| names::usable(r.entry.name@);
        let mut kept: Vec<RootEntry> = Vec::new();
        let ghost mut k: int = 0;
        proof {
            reveal(Seq::filter);
            assert(root@.skip(0) =~= root@);
        }
        while rest.len() > 0
            invariant
                0 <= k <= root@.len(),
                rest@ == root@.skip(k),
                keep == (|r: RootEntry| names::usable(r.entry.name@)),
                kept@ == root@.take(k).filter(keep),
            decreases rest.len(),
        {
            let here = rest.remove(0);
            proof {
                order::lemma_filter_push(root@.take(k), root@[k], keep);
                assert(root@.take(k + 1) =~= root@.take(k).push(root@[k]));
                assert(rest@ =~= root@.skip(k + 1));
                k = k + 1;
            }
            if validate_dir_name(here.entry.name.as_str()).is_ok() {
                kept.push(here);
            }
        }
        assert(root@.take(k) =~= root@);
        listing::find_filler_folders(&kept)
    }
}

/// The root entries under names that can be asked for.
pub open spec fn askable(root: Seq<RootEntry>) -> Seq<RootEntry> {
    root.filter(|r: RootEntry| names::usable(r.entry.name@))
}

/// A product, as far as it can be counted.
fn times(a: u64, b: u64) -> (r: u64)
    ensures
        r == listing::capped(a * b),
{
    match a.checked_mul(b) {
        Some(r) => r,
        None => u64::MAX,
    }
}

/// What to do next with a file that zeros are written to.
pub enum Piece {
    /// Write this, and ask again.
    Write(Bytes),
    /// Remove the file: the caller has asked to stop. A partial file would take up space.
    Remove,
    /// Finish: every byte is written.
    Finish,
}

/// What to do next with a file that the zeros of `stream` are written to, given whether
/// the caller has asked to stop. Once every byte is written, that wish changes nothing:
/// the file is complete filler either way.
pub fn next_piece(stream: &mut ZeroStream, stop: bool) -> (piece: Piece)
    ensures
        match piece {
            Piece::Finish => old(stream)@.remaining == 0 && final(stream)@ == old(stream)@,
            Piece::Remove => old(stream)@.remaining > 0 && stop && final(stream)@ == old(
                stream,
            )@,
            Piece::Write(part) => {
                let size = zeros::chunk_of(old(stream)@);
                &&& old(stream)@.remaining > 0 && !stop
                &&& zeros::bytes_of(part) == zeros::zeros(size)
                &&& size > 0
                &&& final(stream)@ == (StreamState {
                    remaining: (old(stream)@.remaining - size) as nat,
                    block: old(stream)@.block,
                })
            },
        },
{
    if stream.remaining() > 0 && stop {
        return Piece::Remove;
    }
    match stream.next_chunk() {
        Some(part) => Piece::Write(part),
        None => Piece::Finish,
    }
}

/// A drive letter on Windows that a volume is behind.
#[derive(Debug)]
pub struct Drive {
    pub letter: char,
    pub removable: bool,
    /// The volume's label; `None` where it does not answer.
    pub label: Option<String>,
}

/// The drive is removable and carries the label, whatever the case of its ASCII letters.
/// A fixed partition someone labelled Kindle must not become a fill target.
pub open spec fn carries(d: Drive, label: Seq<char>) -> bool {
    d.removable && (d.label matches Some(l) && text::lowered(l@) == text::lowered(label))
}

/// The root path of a drive.
pub open spec fn drive_root(d: Drive) -> Seq<char> {
    seq![d.letter] + ":\\"@
}

/// The roots of those drives that carry the label.
pub open spec fn labeled_roots(drives: Seq<Drive>, label: Seq<char>) -> Seq<Seq<char>>
    decreases drives.len(),
{
    if drives.len() == 0 {
        Seq::empty()
    } else if carries(drives.last(), label) {
        labeled_roots(drives.drop_last(), label).push(drive_root(drives.last()))
    } else {
        labeled_roots(drives.drop_last(), label)
    }
}

fn equal_chars(a: &Vec<char>, b: &Vec<char>) -> (yes: bool)
    ensures
        yes == (a@ == b@),
{
    if a.len() != b.len() {
        return false;
    }
    let mut i: usize = 0;
    while i < a.len()
        invariant
            i <= a.len(),
            a@.len() == b@.len(),
            forall|j: int| 0 <= j < i ==> a@[j] == b@[j],
        decreases a.len() - i,
    {
        if a[i] != b[i] {
            return false;
        }
        i += 1;
    }
    assert(a@ =~= b@);
    true
}

/// Roots of removable drives whose volume label matches `label`.
pub fn removable_drives_labeled(drives: &Vec<Drive>, label: &str) -> (roots: Vec<String>)
    ensures
        roots@.map_values(|r: String| r@) == labeled_roots(drives@, label@),
{
    let wanted = to_lowered(&chars_of(label));
    let mut roots: Vec<String> = Vec::new();
    let mut i: usize = 0;
    assert(roots@.map_values(|r: String| r@) =~= labeled_roots(drives@.take(0), label@));
    while i < drives.len()
        invariant
            i <= drives.len(),
            wanted@ == text::lowered(label@),
            roots@.map_values(|r: String| r@) == labeled_roots(drives@.take(i as int), label@),
        decreases drives.len() - i,
    {
        let ghost before = roots@;
        assert(drives@.take(i + 1).drop_last() =~= drives@.take(i as int));
        let d: &Drive = &drives[i];
        let matching: bool = match &d.label {
            Some(l) => equal_chars(&to_lowered(&chars_of(l.as_str())), &wanted),
            None => false,
        };
        if d.removable && matching {
            let mut root = String::new();
            root.push(d.letter);
            root.append(":\\");
            assert(root@ =~= drive_root(*d));
            roots.push(root);
            assert(roots@.map_values(|r: String| r@) =~= before.map_values(|r: String| r@).push(
                root@,
            ));
        }
        i += 1;
    }
    assert(drives@.take(i as int) =~= drives@);
    roots
}

/// Bit `bit` of a mask.
pub open spec fn has_bit(mask: u32, bit: nat) -> bool
    decreases bit,
{
    if bit == 0 {
        mask % 2 == 1
    } else {
        has_bit(mask / 2, (bit - 1) as nat)
    }
}

/// The letters of the drives that a mask says are present, from `A` on.
pub open spec fn letters_of(mask: u32, count: nat) -> Seq<char>
    decreases count,
{
    if count == 0 {
        Seq::empty()
    } else if has_bit(mask, (count - 1) as nat) {
        letters_of(mask, (count - 1) as nat).push(('A' as int + count - 1) as char)
    } else {
        letters_of(mask, (count - 1) as nat)
    }
}

const LETTERS: [char; 26] = [
    'A', 'B', 'C', 'D', 'E', 'F', 'G', 'H', 'I', 'J', 'K', 'L', 'M', 'N', 'O', 'P', 'Q', 'R', 'S',
    'T', 'U', 'V', 'W', 'X', 'Y', 'Z',
];

/// The letters of the drives that are present, given the mask Windows answers with.
pub fn drive_letters(mask: u32) -> (letters: Vec<char>)
    ensures
        letters@ == letters_of(mask, 26),
{
    let mut letters: Vec<char> = Vec::new();
    let mut rest: u32 = mask;
    let mut bit: usize = 0;
    while bit < 26
        invariant
            bit <= 26,
            letters@ == letters_of(mask, bit as nat),
            forall|k: nat| has_bit(rest, k) == #[trigger] has_bit(mask, bit as nat + k),
            forall|k: nat|
                #![trigger has_bit(rest, k)]
                has_bit(rest, k) == has_bit(mask, bit as nat + k),
        decreases 26 - bit,
    {
        assert(has_bit(rest, 0) == has_bit(mask, bit as nat + 0));
        assert(LETTERS[bit as int] == ('A' as int + bit) as char);
        if rest % 2 == 1 {
            letters.push(LETTERS[bit]);
        }
        let ghost before = rest;
        rest = rest / 2;
        proof {
            assert forall|k: nat| #![trigger has_bit(rest, k)] has_bit(rest, k) == has_bit(
                mask,
                (bit + 1) as nat + k,
            ) by {
                assert(has_bit(before, k + 1) == has_bit(mask, bit as nat + (k + 1)));
            }
            assert forall|k: nat| has_bit(rest, k) == #[trigger] has_bit(
                mask,
                (bit + 1) as nat + k,
            ) by {
                assert(has_bit(before, k + 1) == has_bit(mask, bit as nat + (k + 1)));
            }
        }
        bit += 1;
    }
    letters
}

/// How much of a buffer comes before its terminating zero; all of it without one.
pub fn until_nul(buffer: &Vec<u16>) -> (len: usize)
    ensures
        len <= buffer@.len(),
        forall|i: int| 0 <= i < len ==> buffer@[i] != 0,
        len < buffer@.len() ==> buffer@[len as int] == 0,
{
    let mut i: usize = 0;
    while i < buffer.len()
        invariant
            i <= buffer.len(),
            forall|j: int| 0 <= j < i ==> buffer@[j] != 0,
        decreases buffer.len() - i,
    {
        if buffer[i] == 0 {
            return i;
        }
        i += 1;
    }
    i
}

/// A path, in UTF-16, as the volume functions of Windows want a root: ended by a
/// backslash, and then by a zero.
pub fn wide_root(path: Vec<u16>) -> (wide: Vec<u16>)
    ensures
        wide@ == (if path@.len() > 0 && path@.last() == 92 {
            path@
        } else {
            path@.push(92)
        }).push(0),
{
    let mut wide = path;
    let len: usize = wide.len();
    if len == 0 || wide[len - 1] != 92 {
        wide.push(92);
    }
    wide.push(0);
    wide
}

/// The error code of the operating system behind a Windows result code: the low half of
/// one that wraps such an error (facility 7).
pub fn os_error(code: u32) -> (os: Option<i32>)
    ensures
        os == (if (code / 65536) % 2048 == 7 {
            Some((code % 65536) as i32)
        } else {
            None
        }),
{
    if (code / 65536) % 2048 == 7 {
        Some((code % 65536) as i32)
    } else {
        None
    }
}

/// The flag of a volume that rejects all writes is its twentieth bit.
pub open spec fn read_only_flag(flags: u32) -> bool {
    (flags / 0x0008_0000) % 2 == 1
}

/// Whether a Windows volume accepts writes, given its flags. One that does not answer is
/// reported unwritable: the same pessimism that a failing `access` produces elsewhere.
pub fn volume_is_writable(flags: Option<u32>) -> (yes: bool)
    ensures
        yes == (flags matches Some(f) && !read_only_flag(f)),
{
    match flags {
        Some(f) => (f / 0x0008_0000) % 2 == 0,
        None => false,
    }
}

} // verus!
