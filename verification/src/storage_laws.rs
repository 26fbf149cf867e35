//! What is taken for a Kindle, where it stands, and what is streamed to it.

use crate::bench;
use crate::device;
use crate::events;
use crate::events::Fault;
use crate::listing::RootEntry;
use crate::mass_storage;
use crate::mass_storage::{Candidate, Drive, Found, System};
use crate::names;
use crate::order;
use crate::text;
use crate::text_laws;
use crate::zeros;
use crate::zeros::StreamState;
use vstd::arithmetic::div_mod;
use vstd::arithmetic::power2;
use vstd::prelude::*;

verus! {

/// An identity says Kindle exactly where `kindle` or `amazon` stands in it, whatever
/// stands before and after.
pub proof fn law_a_kindle_says_so_anywhere(identity: Seq<char>)
    ensures
        device::says_kindle(identity) <==> {
            ||| exists|before: Seq<char>, after: Seq<char>|
                identity == #[trigger] (before + "kindle"@ + after)
            ||| exists|before: Seq<char>, after: Seq<char>|
                identity == #[trigger] (before + "amazon"@ + after)
        },
{
    text_laws::law_occurring_is_standing_between(identity, "kindle"@);
    text_laws::law_occurring_is_standing_between(identity, "amazon"@);
}

/// A path is the folder's, at most one separator, and the name: none where the folder's
/// path ends in one already, a backslash on a lettered drive, and a slash elsewhere. A name
/// that is a path from the root stands by itself, and so does one in no folder.
pub proof fn law_a_path_is_joined_by_one_separator(base: Seq<char>, name: Seq<char>)
    ensures
        base.len() == 0 ==> mass_storage::joined(base, name) == name,
        name.len() > 0 && name[0] == '/' ==> mass_storage::joined(base, name) == name,
        base.len() > 0 && !(name.len() > 0 && name[0] == '/') ==> {
            let path = mass_storage::joined(base, name);
            let lettered = base.len() >= 3 && base[1] == ':' && base[2] == '\\';
            let ended = base.last() == '/' || (lettered && base.last() == '\\');
            &&& path.len() == base.len() + name.len() + if ended {
                0int
            } else {
                1
            }
            &&& path.take(base.len() as int) == base
            &&& path.skip(path.len() - name.len()) == name
            &&& !ended ==> path[base.len() as int] == if lettered {
                '\\'
            } else {
                '/'
            }
        },
{
    reveal_strlit("/");
    reveal_strlit("\\");
    let path = mass_storage::joined(base, name);
    if base.len() == 0 {
        assert(path =~= name);
    } else if !(name.len() > 0 && name[0] == '/') {
        assert(path.take(base.len() as int) =~= base);
        assert(path.skip(path.len() - name.len()) =~= name);
    }
}

/// The Kindle that is found is the first of the candidates that is a folder with
/// `documents` in it; where none is, none is found.
pub proof fn law_the_first_kindle_is_found(candidates: Seq<Candidate>)
    ensures
        match mass_storage::first_kindle(candidates) {
            Some(root) => exists|i: int|
                0 <= i < candidates.len() && (#[trigger] candidates[i]).is_dir
                    && candidates[i].has_documents && candidates[i].root@ == root && forall|j: int|
                    0 <= j < i ==> !((#[trigger] candidates[j]).is_dir
                        && candidates[j].has_documents),
            None => forall|j: int|
                0 <= j < candidates.len() ==> !((#[trigger] candidates[j]).is_dir
                    && candidates[j].has_documents),
        },
    decreases candidates.len(),
{
    if candidates.len() > 0 {
        let rest = candidates.drop_first();
        law_the_first_kindle_is_found(rest);
        assert forall|j: int| 0 <= j < rest.len() implies #[trigger] rest[j] == candidates[j + 1] by {}
        assert forall|j: int| 1 <= j < candidates.len() implies #[trigger] candidates[j] == rest[j
            - 1] by {}
        if candidates[0].is_dir && candidates[0].has_documents {
            assert(mass_storage::first_kindle(candidates) == Some(candidates[0].root@));
        } else if let Some(root) = mass_storage::first_kindle(candidates) {
            let i = choose|i: int|
                0 <= i < rest.len() && (#[trigger] rest[i]).is_dir && rest[i].has_documents
                    && rest[i].root@ == root && forall|j: int|
                    0 <= j < i ==> !((#[trigger] rest[j]).is_dir && rest[j].has_documents);
            assert(candidates[i + 1] == rest[i]);
        }
    }
}

/// Every removable drive under the label counts, by its letter, and no other drive does:
/// one drive more adds its root exactly where it is removable and its label is the same
/// but for the case of ASCII letters.
pub proof fn law_every_removable_drive_of_the_label_counts(
    drives: Seq<Drive>,
    d: Drive,
    label: Seq<char>,
)
    ensures
        mass_storage::labeled_roots(Seq::empty(), label).len() == 0,
        mass_storage::labeled_roots(drives.push(d), label) == if d.removable && (
        d.label matches Some(l) && l@.len() == label.len() && forall|i: int|
            0 <= i < label.len() ==> text::lower(#[trigger] l@[i]) == text::lower(label[i])) {
            mass_storage::labeled_roots(drives, label).push(seq![d.letter, ':', '\\'])
        } else {
            mass_storage::labeled_roots(drives, label)
        },
{
    reveal_strlit(":\\");
    assert(drives.push(d).drop_last() =~= drives);
    assert(mass_storage::drive_root(d) =~= seq![d.letter, ':', '\\']);
    if let Some(l) = d.label {
        if text::lowered(l@) == text::lowered(label) {
            assert(text::lowered(l@).len() == l@.len());
            assert forall|i: int| 0 <= i < label.len() implies text::lower(#[trigger] l@[i])
                == text::lower(label[i]) by {
                assert(text::lowered(l@)[i] == text::lower(l@[i]));
                assert(text::lowered(label)[i] == text::lower(label[i]));
            }
        }
        if l@.len() == label.len() && forall|i: int|
            0 <= i < label.len() ==> text::lower(#[trigger] l@[i]) == text::lower(label[i]) {
            assert(text::lowered(l@) =~= text::lowered(label));
        }
    }
}

/// A mask's bit is what halving it that often leaves odd.
pub proof fn law_a_bit_is_what_halving_leaves(mask: u32, bit: nat)
    ensures
        mass_storage::has_bit(mask, bit) <==> (mask as nat / power2::pow2(bit)) % 2 == 1,
    decreases bit,
{
    power2::lemma2_to64();
    if bit > 0 {
        let less = (bit - 1) as nat;
        law_a_bit_is_what_halving_leaves(mask / 2, less);
        power2::lemma_pow2_unfold(bit);
        power2::lemma_pow2_pos(less);
        let p = power2::pow2(less);
        div_mod::lemma_div_denominator(mask as int, 2, p as int);
        assert(power2::pow2(bit) == 2 * p);
        assert((mask / 2) as nat / p == mask as nat / power2::pow2(bit));
    } else {
        assert(mask as nat / power2::pow2(0) == mask as nat) by {
            div_mod::lemma_div_basics(mask as int);
        }
    }
}

/// A drive is listed exactly where its bit is set: `A` for the lowest bit, and so on in
/// order, each letter once.
pub proof fn law_every_set_bit_is_a_letter(mask: u32, count: nat)
    requires
        count <= 26,
    ensures
        forall|i: nat|
            i < count ==> (#[trigger] mass_storage::has_bit(mask, i) <==> exists|k: int|
                0 <= k < mass_storage::letters_of(mask, count).len()
                    && #[trigger] mass_storage::letters_of(mask, count)[k] as int == 65 + i),
        forall|k: int|
            0 <= k < mass_storage::letters_of(mask, count).len() ==> 65
                <= #[trigger] mass_storage::letters_of(mask, count)[k] as int && (
            mass_storage::letters_of(mask, count)[k] as int) < 65 + count,
        forall|k: int, l: int|
            0 <= k < l < mass_storage::letters_of(mask, count).len() ==> (
            #[trigger] mass_storage::letters_of(mask, count)[k] as int)
                < #[trigger] mass_storage::letters_of(mask, count)[l] as int,
    decreases count,
{
    if count > 0 {
        let less = (count - 1) as nat;
        law_every_set_bit_is_a_letter(mask, less);
        let before = mass_storage::letters_of(mask, less);
        let all = mass_storage::letters_of(mask, count);
        assert forall|i: nat| i < count implies (#[trigger] mass_storage::has_bit(mask, i)
            <==> exists|k: int| 0 <= k < all.len() && #[trigger] all[k] as int == 65 + i) by {
            if i < less {
                assert(mass_storage::has_bit(mask, i) <==> exists|k: int|
                    0 <= k < before.len() && #[trigger] before[k] as int == 65 + i);
                if mass_storage::has_bit(mask, i) {
                    let k = choose|k: int|
                        0 <= k < before.len() && #[trigger] before[k] as int == 65 + i;
                    assert(all[k] == before[k]);
                }
                if exists|k: int| 0 <= k < all.len() && #[trigger] all[k] as int == 65 + i {
                    let k = choose|k: int| 0 <= k < all.len() && #[trigger] all[k] as int == 65 + i;
                    assert(k < before.len());
                    assert(before[k] == all[k]);
                }
            } else {
                if mass_storage::has_bit(mask, i) {
                    assert(all[all.len() - 1] as int == 65 + less);
                }
                if exists|k: int| 0 <= k < all.len() && #[trigger] all[k] as int == 65 + i {
                    let k = choose|k: int| 0 <= k < all.len() && #[trigger] all[k] as int == 65 + i;
                    if k < before.len() {
                        assert(before[k] == all[k]);
                    }
                }
            }
        }
        assert forall|k: int| 0 <= k < all.len() implies 65 <= #[trigger] all[k] as int && (
        all[k] as int) < 65 + count by {
            if k < before.len() {
                assert(before[k] == all[k]);
            }
        }
        assert forall|k: int, l: int| 0 <= k < l < all.len() implies (#[trigger] all[k] as int)
            < #[trigger] all[l] as int by {
            assert(before[k] == all[k]);
            if l < before.len() {
                assert(before[l] == all[l]);
            }
        }
    }
}

/// A folder at the root is asked about exactly where its name can be asked for: one entry
/// more is one more to ask about there, and none elsewhere.
pub proof fn law_usable_folders_are_asked_about(root: Seq<RootEntry>, r: RootEntry)
    ensures
        mass_storage::askable(Seq::empty()).len() == 0,
        mass_storage::askable(root.push(r)) == if names::usable(r.entry.name@) {
            mass_storage::askable(root).push(r)
        } else {
            mass_storage::askable(root)
        },
{
    reveal(Seq::filter);
    order::lemma_filter_push(root, r, |r: RootEntry| names::usable(r.entry.name@));
}

/// The flag of a volume that rejects writes is the one of the value 524288, whatever else
/// is set.
pub proof fn law_the_read_only_flag_is_one_bit(flags: u32)
    ensures
        mass_storage::read_only_flag(flags) <==> flags & 0x8_0000 != 0,
{
    assert((flags / 0x8_0000) % 2 == 1 <==> flags & 0x8_0000 != 0) by (bit_vector);
}

/// A stream is zeros and nothing but zeros. It is cut into mebibytes, and what is shorter
/// than one goes out at once.
pub proof fn law_a_stream_is_cut_into_mebibytes(len: nat, s: StreamState, i: int)
    ensures
        zeros::zeros(len).len() == len,
        0 <= i < len ==> zeros::zeros(len)[i] == 0u8,
        1 <= zeros::block_for(len) <= 1024 * 1024,
        0 < len <= 1024 * 1024 ==> zeros::block_for(len) == len,
        len >= 1024 * 1024 ==> zeros::block_for(len) == 1024 * 1024,
        zeros::chunk_of(s) <= s.remaining && zeros::chunk_of(s) <= s.block,
        zeros::chunk_of(s) == s.remaining || zeros::chunk_of(s) == s.block,
{
}

/// A folder is refused for one reason: a name that can't be used whatever stands under it,
/// else a link, or what could not be looked at, in its own words.
pub proof fn law_a_folder_is_refused_for_a_reason(name: Seq<char>, found: Found, fault: Fault)
    requires
        mass_storage::not_a_folder(name, found, fault),
    ensures
        !names::usable(name) ==> fault == events::bad_name(name),
        names::usable(name) ==> match found {
            Found::Symlink => fault == Fault::Io(
                "the filler folder is a symlink; refusing to follow it"@,
            ),
            Found::Unreadable(why) => fault == Fault::Io(why@),
            _ => false,
        },
{
}

/// Volumes are looked for where the system mounts them: on macOS under `/Volumes`, and
/// elsewhere under the folders of the user, without whom there is nowhere to look.
pub proof fn law_volumes_are_looked_for_where_they_are_mounted(user: Option<Seq<char>>)
    ensures
        mass_storage::mount_bases_of(System::MacOs, user) == seq!["/Volumes"@],
        match user {
            None => mass_storage::mount_bases_of(System::OtherUnix, user).len() == 0,
            Some(name) => name.len() == 0 || name[0] != '/'
                ==> mass_storage::mount_bases_of(System::OtherUnix, user) == seq![
                "/run/media/"@ + name,
                "/media/"@ + name,
            ],
        },
{
    reveal_strlit("/run/media");
    reveal_strlit("/media");
    reveal_strlit("/run/media/");
    reveal_strlit("/media/");
    reveal_strlit("/");
    if let Some(name) = user {
        if name.len() == 0 || name[0] != '/' {
            assert(mass_storage::joined("/run/media"@, name) =~= "/run/media/"@ + name);
            assert(mass_storage::joined("/media"@, name) =~= "/media/"@ + name);
        }
    }
}

/// The names that this tool goes by on a device, which outlive any one run of it.
pub proof fn law_the_names_on_a_device_are_fixed()
    ensures
        names::DEFAULT_FILL_DIR@ == "fill_disk"@,
        names::INFLIGHT_MARKER@ == "kindlefill_inflight.txt"@,
        bench::BENCH_DIR@ == "kindlefill_bench"@,
        mass_storage::KINDLE_VOLUME@ == "Kindle"@,
        mass_storage::DOCUMENTS@ == "documents"@,
{
}

} // verus!
