//! What a confirmation is bound to: every byte of what was shown.

use crate::listing;
use crate::listing::Entry;
use crate::text;
use crate::text_laws;
use crate::token;
use vstd::arithmetic::power;
use vstd::prelude::*;
use vstd::relations;
use vstd::seq_lib;
use vstd::utf8;

verus! {

/// A name and a size.
pub type Pair = (Seq<char>, u64);

/// The record of an item: a zero byte, the bytes of its name, and the eight bytes of its
/// size, the lowest first.
pub open spec fn record(item: Pair) -> Seq<u8> {
    seq![0u8] + utf8::encode_utf8(item.0) + Seq::new(
        8,
        |i: int| text_laws::place(item.1 as nat, 256, i as nat) as u8,
    )
}

/// The records of the items, one after another.
pub open spec fn all_records(items: Seq<Pair>) -> Seq<u8>
    decreases items.len(),
{
    if items.len() == 0 {
        Seq::empty()
    } else {
        all_records(items.drop_last()) + record(items.last())
    }
}

/// The text that is digested for a folder of that name with these items.
pub open spec fn digested(dir: Seq<char>, items: Seq<Pair>) -> Seq<u8> {
    utf8::encode_utf8(dir) + all_records(items)
}

/// The items stand in ascending order: by name, and by size under the same name.
pub open spec fn in_ascending_order(items: Seq<Pair>) -> bool {
    forall|i: int, j: int|
        0 <= i < j < items.len() ==> if (#[trigger] items[i]).0 == (#[trigger] items[j]).0 {
            items[i].1 <= items[j].1
        } else {
            text::precedes(items[i].0, items[j].0)
        }
}

/// `items` are the names and sizes of all of the entries, in ascending order.
pub open spec fn arranges(items: Seq<Pair>, entries: Seq<Entry>) -> bool {
    &&& in_ascending_order(items)
    &&& items.to_multiset() == entries.map_values(|e: Entry| (e.name@, e.bytes)).to_multiset()
}

proof fn lemma_size_bytes(n: nat, width: nat)
    ensures
        token::le_bytes(n, width) == Seq::new(
            width,
            |i: int| text_laws::place(n, 256, i as nat) as u8,
        ),
    decreases width,
{
    let digits = Seq::new(width, |i: int| text_laws::place(n, 256, i as nat) as u8);
    if width > 0 {
        lemma_size_bytes(n / 256, (width - 1) as nat);
        assert forall|i: int| 0 <= i < width implies token::le_bytes(n, width)[i] == #[trigger] digits[i] by {
            if i == 0 {
                text_laws::lemma_place(n, 256, 0);
            } else {
                text_laws::lemma_place(n, 256, (i - 1) as nat);
                assert((i - 1) as nat + 1 == i as nat);
            }
        }
    }
    assert(token::le_bytes(n, width) =~= digits);
}

proof fn lemma_records(items: Seq<Pair>)
    ensures
        token::records(items) == all_records(items),
    decreases items.len(),
{
    if items.len() > 0 {
        lemma_records(items.drop_last());
        lemma_size_bytes(items.last().1 as nat, 8);
    }
}

/// The token of a folder is the digest of its name followed by one record for every entry
/// that is not ours, all of them, in ascending order; there is a token exactly where there
/// is such an entry.
pub proof fn law_the_token_digests_every_entry(
    dir: Seq<char>,
    foreign: Seq<Entry>,
    items: Seq<Pair>,
)
    requires
        arranges(items, foreign),
    ensures
        items.len() == foreign.len(),
        foreign.len() == 0 ==> token::token_of(dir, foreign) is None,
        foreign.len() > 0 ==> token::token_of(dir, foreign) == Some(
            text::hex(token::fnv1a(0xcbf2_9ce4_8422_2325, digested(dir, items)) as nat, 16),
        ),
{
    broadcast use seq_lib::group_to_multiset_ensures;

    let pairs = entries_as_pairs(foreign);
    let leq = |a: Pair, b: Pair| token::item_leq(a, b);
    assert(items.len() == items.to_multiset().len());
    assert(pairs.len() == pairs.to_multiset().len());
    token::lemma_items_are_ordered();
    assert(pairs =~= token::items_of(foreign));
    pairs.lemma_sort_by_ensures(leq);
    assert forall|a: int, b: int| 0 <= a < b < items.len() implies #[trigger] leq(
        items[a],
        items[b],
    ) by {}
    assert(relations::sorted_by(items, leq));
    seq_lib::lemma_sorted_unique(items, pairs.sort_by(leq), leq);
    lemma_records(items);
}

spec fn entries_as_pairs(entries: Seq<Entry>) -> Seq<Pair> {
    entries.map_values(|e: Entry| (e.name@, e.bytes))
}

/// FNV-1a: every byte is folded in, one after another, and the state multiplied.
pub proof fn law_every_byte_is_folded_in(state: u64, bytes: Seq<u8>, b: u8)
    ensures
        token::fnv1a(state, Seq::<u8>::empty()) == state,
        token::fnv1a(state, bytes.push(b)) == ((token::fnv1a(state, bytes) ^ (b as u64))
            * 0x0000_0100_0000_01b3) % 0x1_0000_0000_0000_0000,
{
    assert(bytes.push(b).drop_last() =~= bytes);
}

/// An entry more makes the digested text longer by the record of that entry: its name, its
/// size, and one byte between.
pub proof fn law_an_entry_more_makes_the_text_longer(dir: Seq<char>, items: Seq<Pair>, item: Pair)
    ensures
        digested(dir, items.push(item)) == digested(dir, items) + record(item),
        record(item).len() == 9 + utf8::encode_utf8(item.0).len(),
        digested(dir, items.push(item)).len() > digested(dir, items).len(),
{
    assert(items.push(item).drop_last() =~= items);
    assert(digested(dir, items.push(item)) =~= digested(dir, items) + record(item));
}

/// No zero character is in the name.
pub open spec fn without_zero(name: Seq<char>) -> bool {
    forall|i: int| 0 <= i < name.len() ==> #[trigger] name[i] != '\0'
}

/// No zero character is in any of the names.
pub open spec fn all_without_zero(items: Seq<Pair>) -> bool {
    forall|i: int| 0 <= i < items.len() ==> without_zero((#[trigger] items[i]).0)
}

/// The digested text determines the contents: with names that a file can have, the same
/// text is digested only for the same folder with the same items. So a folder in which any
/// name or size has changed, or to which anything came or from which anything went, has
/// another text digested; two such texts have the same token only where their digests
/// happen to coincide.
pub proof fn law_the_digested_text_determines_the_contents(
    dir: Seq<char>,
    items: Seq<Pair>,
    other_dir: Seq<char>,
    other: Seq<Pair>,
)
    requires
        digested(dir, items) == digested(other_dir, other),
        without_zero(dir),
        without_zero(other_dir),
        all_without_zero(items),
        all_without_zero(other),
    ensures
        dir == other_dir,
        items == other,
    decreases items.len() + other.len(),
{
    let d = utf8::encode_utf8(dir);
    let e = utf8::encode_utf8(other_dir);
    lemma_no_zero_bytes(dir);
    lemma_no_zero_bytes(other_dir);
    if items.len() == 0 && other.len() == 0 {
        assert(digested(dir, items) =~= d);
        assert(digested(other_dir, other) =~= e);
        utf8::encode_utf8_decode_utf8(dir);
        utf8::encode_utf8_decode_utf8(other_dir);
        assert(items =~= other);
    } else if items.len() == 0 {
        lemma_leader(other_dir, other);
        assert(digested(dir, items) =~= d);
        assert(false);
    } else if other.len() == 0 {
        lemma_leader(dir, items);
        assert(digested(other_dir, other) =~= e);
        assert(false);
    } else {
        let a = items.last();
        let b = other.last();
        let front = digested(dir, items.drop_last());
        let back = digested(other_dir, other.drop_last());
        let whole = digested(dir, items);
        assert(without_zero(items[items.len() - 1].0));
        assert(without_zero(other[other.len() - 1].0));
        assert(whole =~= front + record(a));
        assert(digested(other_dir, other) =~= back + record(b));
        lemma_last_record(front, a, back, b);
        assert forall|i: int| 0 <= i < items.drop_last().len() implies without_zero(
            (#[trigger] items.drop_last()[i]).0,
        ) by {
            assert(items.drop_last()[i] == items[i]);
        }
        assert forall|i: int| 0 <= i < other.drop_last().len() implies without_zero(
            (#[trigger] other.drop_last()[i]).0,
        ) by {
            assert(other.drop_last()[i] == other[i]);
        }
        law_the_digested_text_determines_the_contents(
            dir,
            items.drop_last(),
            other_dir,
            other.drop_last(),
        );
        assert(items =~= items.drop_last().push(a));
        assert(other =~= other.drop_last().push(b));
    }
}

/// Read from its end, a text tells what its last record is.
proof fn lemma_last_record(front: Seq<u8>, a: Pair, back: Seq<u8>, b: Pair)
    requires
        front + record(a) == back + record(b),
        without_zero(a.0),
        without_zero(b.0),
    ensures
        front == back,
        a == b,
{
    let whole = front + record(a);
    let n = utf8::encode_utf8(a.0);
    let m = utf8::encode_utf8(b.0);
    lemma_no_zero_bytes(a.0);
    lemma_no_zero_bytes(b.0);
    lemma_size_bytes(a.1 as nat, 8);
    lemma_size_bytes(b.1 as nat, 8);
    let x = token::le_bytes(a.1 as nat, 8);
    let y = token::le_bytes(b.1 as nat, 8);
    let end = whole.len() - 8;
    assert(whole == front + (seq![0u8] + n + x));
    assert(whole == back + (seq![0u8] + m + y));
    assert(x =~= whole.subrange(end, end + 8));
    assert(y =~= whole.subrange(end, end + 8));
    assert(power::pow(256, 8) == 0x1_0000_0000_0000_0000) by {
        reveal_with_fuel(power::pow, 9);
    }
    lemma_sizes_differ(a.1 as nat, b.1 as nat, 8);
    assert(whole[end - 1 - n.len()] == 0);
    assert(whole[end - 1 - m.len()] == 0);
    assert(n.len() == m.len()) by {
        if n.len() < m.len() {
            assert(whole[end - 1 - n.len()] == m[m.len() - 1 - n.len()]);
        }
        if m.len() < n.len() {
            assert(whole[end - 1 - m.len()] == n[n.len() - 1 - m.len()]);
        }
    }
    assert(n =~= whole.subrange(end - n.len(), end));
    assert(m =~= whole.subrange(end - n.len(), end));
    utf8::encode_utf8_decode_utf8(a.0);
    utf8::encode_utf8_decode_utf8(b.0);
    assert(front =~= whole.subrange(0, end - 1 - n.len()));
    assert(back =~= whole.subrange(0, end - 1 - n.len()));
}

/// A text with a record in it has a zero byte.
proof fn lemma_leader(dir: Seq<char>, items: Seq<Pair>)
    requires
        items.len() > 0,
    ensures
        exists|i: int| 0 <= i < digested(dir, items).len() && #[trigger] digested(dir, items)[i] == 0,
{
    let front = digested(dir, items.drop_last());
    let whole = digested(dir, items);
    assert(whole =~= front + record(items.last()));
    assert(whole[front.len() as int] == 0);
}

/// A name without a zero character has no zero byte.
proof fn lemma_no_zero_bytes(name: Seq<char>)
    requires
        without_zero(name),
    ensures
        forall|i: int|
            0 <= i < utf8::encode_utf8(name).len() ==> #[trigger] utf8::encode_utf8(name)[i] != 0,
    decreases name.len(),
{
    if name.len() > 0 {
        let rest = name.drop_first();
        assert forall|i: int| 0 <= i < rest.len() implies #[trigger] rest[i] != '\0' by {
            assert(rest[i] == name[i + 1]);
        }
        lemma_no_zero_bytes(rest);
        assert(name[0] != '\0');
        let first = utf8::encode_scalar(name[0] as u32);
        lemma_char_has_no_zero(name[0]);
        assert(utf8::encode_utf8(name) =~= first + utf8::encode_utf8(rest));
    }
}

proof fn lemma_char_has_no_zero(c: char)
    requires
        c != '\0',
    ensures
        forall|i: int|
            0 <= i < utf8::encode_scalar(c as u32).len() ==> #[trigger] utf8::encode_scalar(
                c as u32,
            )[i] != 0,
{
    assert(c as u32 == c as int);
    lemma_scalar_has_no_zero(c as u32);
}

proof fn lemma_scalar_has_no_zero(c: u32)
    requires
        0 < c <= 0x10_ffff,
    ensures
        forall|i: int|
            0 <= i < utf8::encode_scalar(c).len() ==> #[trigger] utf8::encode_scalar(c)[i] != 0,
{
    assert(utf8::last_continuation_byte(c) != 0) by (bit_vector);
    assert(utf8::second_last_continuation_byte(c) != 0) by (bit_vector);
    assert(utf8::third_last_continuation_byte(c) != 0) by (bit_vector);
    assert(utf8::leading_byte_width_2(c) != 0) by (bit_vector);
    assert(utf8::leading_byte_width_3(c) != 0) by (bit_vector);
    assert(utf8::leading_byte_width_4(c) != 0) by (bit_vector);
    assert(c <= 0x7f ==> utf8::leading_byte_width_1(c) != 0) by (bit_vector)
        requires
            0 < c,
    ;
}

/// Sizes that differ have different bytes.
proof fn lemma_sizes_differ(a: nat, b: nat, width: nat)
    requires
        a < power::pow(256, width),
        b < power::pow(256, width),
        token::le_bytes(a, width) == token::le_bytes(b, width),
    ensures
        a == b,
    decreases width,
{
    reveal(power::pow);
    if width > 0 {
        let x = token::le_bytes(a, width);
        let y = token::le_bytes(b, width);
        assert(x[0] == y[0]);
        assert(token::le_bytes(a / 256, (width - 1) as nat) =~= x.drop_first());
        assert(token::le_bytes(b / 256, (width - 1) as nat) =~= y.drop_first());
        lemma_sizes_differ(a / 256, b / 256, (width - 1) as nat);
    }
}

/// A confirmation does not survive the change of a single byte: of two sets of entries
/// whose items, each set in ascending order, agree but for one, and that one in all but a
/// single byte of its name or its size, no token is the same.
pub proof fn law_a_changed_byte_needs_a_new_confirmation(
    dir: Seq<char>,
    foreign: Seq<Entry>,
    items: Seq<Pair>,
    changed: Seq<Entry>,
    changed_items: Seq<Pair>,
    k: int,
    at: int,
)
    requires
        arranges(items, foreign),
        arranges(changed_items, changed),
        items.len() == changed_items.len(),
        0 <= k < items.len(),
        forall|i: int| 0 <= i < items.len() && i != k ==> #[trigger] items[i] == changed_items[i],
        record(items[k]).len() == record(changed_items[k]).len(),
        0 <= at < record(items[k]).len(),
        record(items[k])[at] != record(changed_items[k])[at],
        forall|i: int|
            0 <= i < record(items[k]).len() && i != at ==> #[trigger] record(items[k])[i] == record(
                changed_items[k],
            )[i],
    ensures
        token::token_of(dir, foreign) is Some,
        token::token_of(dir, changed) is Some,
        token::token_of(dir, foreign) != token::token_of(dir, changed),
{
    law_the_token_digests_every_entry(dir, foreign, items);
    law_the_token_digests_every_entry(dir, changed, changed_items);
    let one = digested(dir, items);
    let two = digested(dir, changed_items);
    let d = utf8::encode_utf8(dir).len() as int;
    let p = lemma_one_byte_apart(items, changed_items, k, at);
    assert forall|i: int| 0 <= i < one.len() && i != d + p implies #[trigger] one[i] == two[i] by {
        if i >= d {
            assert(all_records(items)[i - d] == all_records(changed_items)[i - d]);
        }
    }
    token::lemma_fnv1a_tells_apart(0xcbf2_9ce4_8422_2325, one, two, d + p);
    let x = token::fnv1a(0xcbf2_9ce4_8422_2325, one);
    let y = token::fnv1a(0xcbf2_9ce4_8422_2325, two);
    text::law_hex_reads_back(x as nat, 16);
    text::law_hex_reads_back(y as nat, 16);
    assert(power::pow(16, 16) == 0x1_0000_0000_0000_0000) by {
        reveal_with_fuel(power::pow, 17);
    }
}

proof fn lemma_one_byte_apart(items: Seq<Pair>, other: Seq<Pair>, k: int, at: int) -> (p: int)
    requires
        items.len() == other.len(),
        0 <= k < items.len(),
        forall|i: int| 0 <= i < items.len() && i != k ==> #[trigger] items[i] == other[i],
        record(items[k]).len() == record(other[k]).len(),
        0 <= at < record(items[k]).len(),
        record(items[k])[at] != record(other[k])[at],
        forall|i: int|
            0 <= i < record(items[k]).len() && i != at ==> #[trigger] record(items[k])[i] == record(
                other[k],
            )[i],
    ensures
        all_records(items).len() == all_records(other).len(),
        0 <= p < all_records(items).len(),
        all_records(items)[p] != all_records(other)[p],
        forall|i: int|
            0 <= i < all_records(items).len() && i != p ==> #[trigger] all_records(items)[i]
                == all_records(other)[i],
    decreases items.len(),
{
    let a = items.drop_last();
    let b = other.drop_last();
    let front = all_records(a);
    let back = all_records(b);
    if k == items.len() - 1 {
        assert(a =~= b);
        front.len() + at
    } else {
        assert forall|i: int| 0 <= i < a.len() && i != k implies #[trigger] a[i] == b[i] by {
            assert(items[i] == other[i]);
        }
        assert(items[items.len() - 1] == other[items.len() - 1]);
        lemma_one_byte_apart(a, b, k, at)
    }
}

/// The token of a folder is that of the entries in it that are not ours, and of no others.
pub proof fn law_a_confirmation_is_of_what_is_not_ours(dir: Seq<char>, l: Seq<Entry>)
    ensures
        token::folder_token(dir, l) == token::token_of(
            dir,
            l.filter(|e: Entry| !listing::is_filler(e) && !listing::is_marker(e)),
        ),
{
    let a = |e: Entry| listing::is_foreign(e);
    let b = |e: Entry| !listing::is_filler(e) && !listing::is_marker(e);
    lemma_same_filter(l, a, b);
}

proof fn lemma_same_filter(s: Seq<Entry>, a: spec_fn(Entry) -> bool, b: spec_fn(Entry) -> bool)
    requires
        forall|e: Entry| #[trigger] a(e) == b(e),
    ensures
        s.filter(a) == s.filter(b),
{
    assert(a =~= b);
}

} // verus!
