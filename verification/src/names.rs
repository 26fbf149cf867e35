//! What the names on a device mean: which folder names are usable, which files are
//! filler that this tool wrote, and which look like a staged firmware image.

use crate::text;
use crate::text::{
    chars_of, has_prefix, has_suffix, push_padded, same, slice_of, to_lowered, white_space,
};
use vstd::prelude::*;
use vstd::string::*;

verus! {

/// Default folder to put filler in. Matches the convention the Kindle modding guides
/// use, so a folder left by another tool is recognized and topped up rather than
/// duplicated.
pub const DEFAULT_FILL_DIR: &'static str = "fill_disk";

/// The file that stands in the filler folder while a fill is underway.
pub const INFLIGHT_MARKER: &'static str = "kindlefill_inflight.txt";

/// What that file says.
pub const INFLIGHT_NOTE: &'static str = "kindlefill: a fill was underway in this folder\n";

/// Why a folder name can't be used.
#[derive(Debug, PartialEq, Eq)]
pub enum NameError {
    Empty,
    /// Contains a character that isn't a filename, or a leading or trailing space that
    /// would make the folder impossible to identify on the device.
    Illegal { name: String },
}

impl Clone for NameError {
    fn clone(&self) -> (copy: Self)
        ensures
            copy == *self,
    {
        match self {
            NameError::Empty => NameError::Empty,
            NameError::Illegal { name } => NameError::Illegal { name: name.clone() },
        }
    }
}

/// A Unicode control character.
pub open spec fn is_control(c: char) -> bool {
    c <= '\u{1f}' || '\u{7f}' <= c <= '\u{9f}'
}

/// A character that no folder name may hold.
pub open spec fn is_forbidden(c: char) -> bool {
    ||| is_control(c)
    ||| c == '/'
    ||| c == '\\'
    ||| c == ':'
    ||| c == '*'
    ||| c == '?'
    ||| c == '"'
    ||| c == '<'
    ||| c == '>'
    ||| c == '|'
}

/// A folder name that is not empty, does not begin or end with white space, is not made
/// of dots alone, and holds no forbidden character.
pub open spec fn usable(name: Seq<char>) -> bool {
    &&& name.len() > 0
    &&& !text::is_white_space(name[0])
    &&& !text::is_white_space(name.last())
    &&& exists|i: int| 0 <= i < name.len() && #[trigger] name[i] != '.'
    &&& forall|i: int| 0 <= i < name.len() ==> !is_forbidden(#[trigger] name[i])
}

fn forbidden(c: char) -> (yes: bool)
    ensures
        yes == is_forbidden(c),
{
    c <= '\u{1f}' || (c >= '\u{7f}' && c <= '\u{9f}') || c == '/' || c == '\\' || c == ':' || c
        == '*' || c == '?' || c == '"' || c == '<' || c == '>' || c == '|'
}

/// Check a folder name before it reaches the device.
///
/// A path separator here would be the difference between creating one folder at the
/// root and walking somewhere else entirely, so it is rejected rather than sanitized:
/// silently rewriting a name the user typed would leave them looking for a folder that
/// isn't there.
pub fn validate_dir_name(name: &str) -> (result: Result<(), NameError>)
    ensures
        match result {
            Ok(()) => usable(name@),
            Err(NameError::Empty) => name@.len() == 0,
            Err(NameError::Illegal { name: refused }) => name@.len() > 0 && !usable(name@)
                && refused@ == name@,
        },
{
    let chars = chars_of(name);
    if chars.len() == 0 {
        return Err(NameError::Empty);
    }
    let mut illegal: bool = white_space(chars[0]) || white_space(chars[chars.len() - 1]);
    let mut only_dots: bool = true;
    let mut i: usize = 0;
    while i < chars.len()
        invariant
            i <= chars.len(),
            chars@.len() > 0,
            only_dots == forall|j: int| 0 <= j < i ==> chars@[j] == '.',
            illegal == (text::is_white_space(chars@[0]) || text::is_white_space(chars@.last())
                || exists|j: int| 0 <= j < i && is_forbidden(#[trigger] chars@[j])),
        decreases chars.len() - i,
    {
        if chars[i] != '.' {
            only_dots = false;
        }
        if forbidden(chars[i]) {
            illegal = true;
        }
        i += 1;
    }
    if illegal || only_dots {
        return Err(NameError::Illegal { name: name.to_owned() });
    }
    Ok(())
}

/// A name is refused for one of these reasons and no other: it is empty, it begins or ends
/// with white space, it is nothing but dots, or one of its characters is a control
/// character or one that some file system gives a meaning to. How long it is, and what
/// else is in it, does not matter.
pub proof fn law_names_are_refused_for_these_reasons_only(name: Seq<char>)
    ensures
        !usable(name) <==> {
            ||| name.len() == 0
            ||| text::is_white_space(name[0])
            ||| text::is_white_space(name[name.len() - 1])
            ||| name == text::repeated('.', name.len() as int)
            ||| exists|i: int|
                0 <= i < name.len() && {
                    let c = (#[trigger] name[i]) as int;
                    c < 32 || 127 <= c < 160 || seq![
                        '/',
                        '\\',
                        ':',
                        '*',
                        '?',
                        '"',
                        '<',
                        '>',
                        '|',
                    ].contains(name[i])
                }
        },
{
    let bad = seq!['/', '\\', ':', '*', '?', '"', '<', '>', '|'];
    assert(bad[0] == '/' && bad[1] == '\\' && bad[2] == ':' && bad[3] == '*' && bad[4] == '?'
        && bad[5] == '"' && bad[6] == '<' && bad[7] == '>' && bad[8] == '|');
    assert forall|i: int| 0 <= i < name.len() implies is_forbidden(#[trigger] name[i]) == ({
        let c = name[i] as int;
        c < 32 || 127 <= c < 160 || bad.contains(name[i])
    }) by {}
    let dots = text::repeated('.', name.len() as int);
    if name.len() > 0 {
        if forall|i: int| 0 <= i < name.len() ==> #[trigger] name[i] == '.' {
            assert(name =~= dots);
        }
        if name == dots {
            assert forall|i: int| 0 <= i < name.len() implies #[trigger] name[i] == '.' by {
                assert(dots[i] == '.');
            }
        }
    }
}

/// A usable name stays at the storage root: it holds no separator of any file system,
/// and it is neither the folder itself nor its parent.
pub proof fn law_usable_name_cannot_leave_the_root(name: Seq<char>)
    requires
        usable(name),
    ensures
        forall|i: int|
            0 <= i < name.len() ==> #[trigger] name[i] != '/' && name[i] != '\\' && name[i] != ':',
        name != "."@,
        name != ".."@,
{
    reveal_strlit(".");
    reveal_strlit("..");
}

/// The name of the filler with sequence number `n`.
pub open spec fn filler_name_of(n: nat) -> Seq<char> {
    "fill_"@ + text::padded(n, 4) + ".bin"@
}

/// The sequence number of the filler called `name`, if that is a name this tool would
/// write.
pub open spec fn sequence_of(name: Seq<char>) -> Option<u32> {
    if exists|n: u32| name == #[trigger] filler_name_of(n as nat) {
        Some(choose|n: u32| name == #[trigger] filler_name_of(n as nat))
    } else {
        None
    }
}

/// The digits of a filler's name read back as its sequence number.
proof fn lemma_digits_of_filler_name(n: nat)
    ensures
        filler_name_of(n).len() >= 10,
        filler_name_of(n).subrange(5, filler_name_of(n).len() - 4) == text::padded(n, 4),
        text::value(filler_name_of(n).subrange(5, filler_name_of(n).len() - 4)) == n,
        "fill_"@.is_prefix_of(filler_name_of(n)),
        ".bin"@.is_suffix_of(filler_name_of(n)),
{
    reveal_strlit("fill_");
    reveal_strlit(".bin");
    text::law_padded_reads_back(n, 4);
    let name = filler_name_of(n);
    assert(name.subrange(5, name.len() - 4) =~= text::padded(n, 4));
    assert(name.subrange(0, 5) =~= "fill_"@);
    assert(name.subrange(name.len() - 4, name.len() as int) =~= ".bin"@);
}

/// A name is the filler `n` exactly where it is the name that `n` is written under: the
/// two directions of the round trip. In particular two fillers with different numbers
/// have different names.
pub proof fn law_filler_names_round_trip(name: Seq<char>, n: u32)
    ensures
        sequence_of(name) == Some(n) <==> name == filler_name_of(n as nat),
{
    lemma_digits_of_filler_name(n as nat);
    if let Some(m) = sequence_of(name) {
        lemma_digits_of_filler_name(m as nat);
    }
    if name == filler_name_of(n as nat) {
        let m = sequence_of(name)->0;
        lemma_digits_of_filler_name(m as nat);
    }
}

/// A name is that of filler exactly where it is `fill_`, four digits or more without a
/// needless zero, and `.bin`, and the digits stand for a number that can be counted; that
/// number is its sequence number.
pub proof fn law_filler_names_are_all_of_that_form(name: Seq<char>, n: u32)
    ensures
        sequence_of(name) == Some(n) <==> name == "fill_"@ + text::padded(n as nat, 4) + ".bin"@,
        sequence_of(name) is None <==> forall|k: u32|
            name != "fill_"@ + #[trigger] text::padded(k as nat, 4) + ".bin"@,
{
    law_filler_names_round_trip(name, n);
    if sequence_of(name) is None {
        assert forall|k: u32| name != "fill_"@ + #[trigger] text::padded(k as nat, 4) + ".bin"@ by {
            law_filler_names_round_trip(name, k);
            assert(filler_name_of(k as nat) == "fill_"@ + text::padded(k as nat, 4) + ".bin"@);
        }
    } else {
        let k = sequence_of(name)->0;
        law_filler_names_round_trip(name, k);
        assert(name == "fill_"@ + text::padded(k as nat, 4) + ".bin"@);
    }
}

/// The name that the filler with sequence number `n` is written under.
pub fn filler_name(n: u32) -> (name: String)
    ensures
        name@ == filler_name_of(n as nat),
        name@ == "fill_"@ + text::padded(n as nat, 4) + ".bin"@,
{
    let mut name = "fill_".to_owned();
    push_padded(&mut name, n as u64, 4);
    name.append(".bin");
    name
}

/// The single place that decides whether a filename is filler *this tool wrote*.
///
/// Everything destructive keys off this one answer: the delete set of a clean and the
/// resume sequence both come from here. A name is ours only if writing the number out
/// reproduces it exactly. That rejects `fill_12.bin` and `fill_00000007.bin` (same
/// integer, not a name this tool would ever write) without a fixed digit count that a
/// long-running resume could exceed.
pub fn filler_sequence(filename: &str) -> (sequence: Option<u32>)
    ensures
        sequence == sequence_of(filename@),
{
    let chars = chars_of(filename);
    proof {
        reveal_strlit("fill_");
        reveal_strlit(".bin");
        assert forall|n: u32| filename@ == #[trigger] filler_name_of(n as nat) implies {
            &&& filename@.len() >= 10
            &&& text::padded(n as nat, 4) == filename@.subrange(5, filename@.len() - 4)
            &&& n == text::value(filename@.subrange(5, filename@.len() - 4))
        } by {
            lemma_digits_of_filler_name(n as nat);
        }
    }
    if chars.len() < 10 {
        return None;
    }
    let digits = slice_of(&chars, 5, chars.len() - 4);
    let mut n: u64 = 0;
    let mut i: usize = 0;
    assert(digits@.take(0) =~= Seq::<char>::empty());
    while i < digits.len()
        invariant
            i <= digits.len(),
            n == text::value(digits@.take(i as int)),
            n <= u32::MAX,
            digits@ == filename@.subrange(5, filename@.len() - 4),
            forall|m: u32|
                filename@ == #[trigger] filler_name_of(m as nat) ==> text::padded(m as nat, 4) == digits@
                    && m == text::value(digits@),
        decreases digits.len() - i,
    {
        let c = digits[i];
        assert(digits@.take(i + 1).drop_last() =~= digits@.take(i as int));
        if c < '0' || c > '9' {
            proof {
                assert forall|m: u32| filename@ != #[trigger] filler_name_of(m as nat) by {
                    text::law_padded_reads_back(m as nat, 4);
                    if filename@ == filler_name_of(m as nat) {
                        assert(text::is_digit(text::padded(m as nat, 4)[i as int]));
                    }
                }
            }
            return None;
        }
        n = n * 10 + (c as u64 - 48);
        i += 1;
        if n > u32::MAX as u64 {
            proof {
                lemma_value_grows(digits@, i as int);
            }
            return None;
        }
    }
    assert(digits@.take(digits@.len() as int) =~= digits@);
    let n: u32 = n as u32;
    if same(filler_name(n).as_str(), filename) {
        proof {
            law_filler_names_round_trip(filename@, n);
        }
        Some(n)
    } else {
        None
    }
}

/// More digits never stand for a smaller number.
proof fn lemma_value_grows(digits: Seq<char>, i: int)
    requires
        0 <= i <= digits.len(),
    ensures
        text::value(digits) >= text::value(digits.take(i)),
    decreases digits.len(),
{
    if i < digits.len() {
        lemma_value_grows(digits.drop_last(), i);
        assert(digits.drop_last().take(i) =~= digits.take(i));
    } else {
        assert(digits.take(i) =~= digits);
    }
}

/// Whether a filename is the marker of a fill that is underway or was cut off.
pub fn is_inflight_marker(filename: &str) -> (yes: bool)
    ensures
        yes == (filename@ == INFLIGHT_MARKER@),
        yes == (filename@ == "kindlefill_inflight.txt"@),
{
    same(filename, INFLIGHT_MARKER)
}

/// The shape of a staged over-the-air firmware image: `update_….bin`, whatever the case
/// of its ASCII letters.
pub open spec fn staged_update_shape(name: Seq<char>) -> bool {
    "update_"@.is_prefix_of(text::lowered(name)) && ".bin"@.is_suffix_of(text::lowered(name))
}

/// Whether a root filename looks like a staged firmware image.
///
/// Deliberately a shape rather than a list of known model names: the names vary by
/// device generation, and a new one showing up unrecognized would be the failure that
/// matters. Breadth is safe here only because nothing is deleted without the user
/// seeing the exact filenames first.
pub fn is_staged_update(filename: &str) -> (yes: bool)
    ensures
        yes == staged_update_shape(filename@),
        yes == exists|mid: Seq<char>|
            text::lowered(filename@) == #[trigger] ("update_"@ + mid + ".bin"@),
{
    proof {
        law_staged_updates_are_all_of_that_form(filename@);
    }
    let chars = to_lowered(&chars_of(filename));
    has_prefix(&chars, "update_") && has_suffix(&chars, ".bin")
}

/// The shape is a prefix and a suffix and nothing else: whatever stands between `update_`
/// and `.bin`, and whatever the case of the ASCII letters, a name is that of a staged
/// image; and every such name is of that form.
pub proof fn law_staged_updates_are_all_of_that_form(name: Seq<char>)
    ensures
        staged_update_shape(name) <==> exists|mid: Seq<char>|
            text::lowered(name) == #[trigger] ("update_"@ + mid + ".bin"@),
{
    reveal_strlit("update_");
    reveal_strlit(".bin");
    let low = text::lowered(name);
    if staged_update_shape(name) {
        let n = low.len() as int;
        assert(low.subrange(0, 7) =~= "update_"@);
        assert(low.subrange(n - 4, n) =~= ".bin"@);
        assert(low[n - 4] == '.') by {
            assert(low.subrange(n - 4, n)[0] == low[n - 4]);
        }
        assert(n >= 11) by {
            if n < 11 {
                assert(low.subrange(0, 7)[n - 4] == low[n - 4]);
            }
        }
        let mid = low.subrange(7, n - 4);
        assert forall|i: int| 0 <= i < 7 implies #[trigger] low[i] == "update_"@[i] by {
            assert(low.subrange(0, 7)[i] == low[i]);
        }
        assert forall|i: int| n - 4 <= i < n implies #[trigger] low[i] == ".bin"@[i - (n - 4)] by {
            assert(low.subrange(n - 4, n)[i - (n - 4)] == low[i]);
        }
        assert(low =~= "update_"@ + mid + ".bin"@);
    }
    if exists|mid: Seq<char>| low == #[trigger] ("update_"@ + mid + ".bin"@) {
        let mid = choose|mid: Seq<char>| low == #[trigger] ("update_"@ + mid + ".bin"@);
        assert(low.subrange(0, 7) =~= "update_"@);
        assert(low.subrange(low.len() - 4, low.len() as int) =~= ".bin"@);
    }
}

/// Every name made of that prefix and that suffix, in any case, is one of a staged image.
pub proof fn law_any_update_image_has_the_shape(
    prefix: Seq<char>,
    mid: Seq<char>,
    suffix: Seq<char>,
)
    requires
        text::lowered(prefix) == "update_"@,
        text::lowered(suffix) == ".bin"@,
    ensures
        staged_update_shape(prefix + mid + suffix),
{
    let name = prefix + mid + suffix;
    assert(text::lowered(name) =~= text::lowered(prefix) + text::lowered(mid) + text::lowered(
        suffix,
    ));
    law_staged_updates_are_all_of_that_form(name);
}

/// Filler, the marker and staged updates are three different things: no name is two of
/// them.
pub proof fn law_names_have_one_meaning(name: Seq<char>)
    ensures
        !(sequence_of(name) is Some && name == INFLIGHT_MARKER@),
        !(sequence_of(name) is Some && staged_update_shape(name)),
        !(name == INFLIGHT_MARKER@ && staged_update_shape(name)),
{
    reveal_strlit("kindlefill_inflight.txt");
    reveal_strlit("fill_");
    reveal_strlit(".bin");
    reveal_strlit("update_");
    if sequence_of(name) is Some {
        let n = sequence_of(name)->0;
        lemma_digits_of_filler_name(n as nat);
        assert(name[0] == "fill_"@[0]);
        assert(text::lowered(name)[0] == 'f');
    }
    if staged_update_shape(name) {
        assert("update_"@[0] == text::lowered(name)[0]);
    }
}

} // verus!
