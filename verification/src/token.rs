//! The fingerprint that binds a confirmation to the contents it was given for.

use crate::listing;
use crate::listing::{list_foreign, Entry};
use crate::order;
use crate::order::{sort, Ranked};
use crate::text;
use crate::text::{in_order, push_hex, same};
use vstd::prelude::*;
use vstd::relations;
use vstd::seq_lib;
use vstd::utf8;

verus! {

/// Where FNV-1a starts.
pub const FNV_OFFSET: u64 = 0xcbf2_9ce4_8422_2325;

/// What FNV-1a multiplies by.
pub const FNV_PRIME: u64 = 0x0000_0100_0000_01b3;

/// The 64-bit FNV-1a digest of `bytes`, continuing from `state`.
pub open spec fn fnv1a(state: u64, bytes: Seq<u8>) -> u64
    decreases bytes.len(),
{
    if bytes.len() == 0 {
        state
    } else {
        (fnv1a(state, bytes.drop_last()) ^ (bytes.last() as u64)).wrapping_mul(FNV_PRIME)
    }
}

/// The `width` low bytes of `n`, the lowest first.
pub open spec fn le_bytes(n: nat, width: nat) -> Seq<u8>
    decreases width,
{
    if width == 0 {
        Seq::empty()
    } else {
        seq![(n % 256) as u8] + le_bytes(n / 256, (width - 1) as nat)
    }
}

/// `a` does not come after `b`: by name, then by size.
pub open spec fn item_leq(a: (Seq<char>, u64), b: (Seq<char>, u64)) -> bool {
    if a.0 == b.0 {
        a.1 <= b.1
    } else {
        text::precedes(a.0, b.0)
    }
}

/// The names and sizes of the entries.
pub open spec fn items_of(entries: Seq<Entry>) -> Seq<(Seq<char>, u64)> {
    entries.map_values(|e: Entry| (e.name@, e.bytes))
}

/// The items one after another, each as a zero byte, its name and its size.
pub open spec fn records(items: Seq<(Seq<char>, u64)>) -> Seq<u8>
    decreases items.len(),
{
    if items.len() == 0 {
        Seq::empty()
    } else {
        records(items.drop_last()) + (seq![0u8] + utf8::encode_utf8(items.last().0) + le_bytes(
            items.last().1 as nat,
            8,
        ))
    }
}

/// The digest of a folder's name and of items in it, the items in ascending order.
pub open spec fn digest_of(dir_name: Seq<char>, items: Seq<(Seq<char>, u64)>) -> u64 {
    fnv1a(
        FNV_OFFSET,
        utf8::encode_utf8(dir_name) + records(
            items.sort_by(|a: (Seq<char>, u64), b: (Seq<char>, u64)| item_leq(a, b)),
        ),
    )
}

/// The token for foreign entries of a folder: none without any, else sixteen
/// hexadecimal digits.
pub open spec fn token_of(dir_name: Seq<char>, foreign: Seq<Entry>) -> Option<Seq<char>> {
    if foreign.len() == 0 {
        None
    } else {
        Some(text::hex(digest_of(dir_name, items_of(foreign)) as nat, 16))
    }
}

/// FNV-1a, written out: the token has to mean the same thing to the scan that displayed
/// a listing and the purge that acts on it, so it cannot rest on a hasher that is free
/// to change.
struct Fnv1a {
    state: u64,
}

impl Fnv1a {
    fn write(&mut self, bytes: &[u8])
        ensures
            final(self).state == fnv1a(old(self).state, bytes@),
    {
        let mut i: usize = 0;
        while i < bytes.len()
            invariant
                i <= bytes.len(),
                self.state == fnv1a(old(self).state, bytes@.take(i as int)),
            decreases bytes.len() - i,
        {
            assert(bytes@.take(i + 1).drop_last() =~= bytes@.take(i as int));
            self.state = (self.state ^ (bytes[i] as u64)).wrapping_mul(FNV_PRIME);
            i += 1;
        }
        assert(bytes@.take(i as int) =~= bytes@);
    }
}

/// A digest goes on where that of the first part ended.
pub proof fn lemma_fnv1a_continues(state: u64, a: Seq<u8>, b: Seq<u8>)
    ensures
        fnv1a(state, a + b) == fnv1a(fnv1a(state, a), b),
    decreases b.len(),
{
    if b.len() == 0 {
        assert(a + b =~= a);
    } else {
        lemma_fnv1a_continues(state, a, b.drop_last());
        assert((a + b).drop_last() =~= a + b.drop_last());
    }
}

fn to_le_bytes(n: u64) -> (bytes: Vec<u8>)
    ensures
        bytes@ == le_bytes(n as nat, 8),
{
    let mut bytes: Vec<u8> = Vec::new();
    let mut rest: u64 = n;
    let mut left: usize = 8;
    while left > 0
        invariant
            left <= 8,
            le_bytes(n as nat, 8) == bytes@ + le_bytes(rest as nat, left as nat),
        decreases left,
    {
        let ghost before = bytes@;
        bytes.push((rest % 256) as u8);
        assert(bytes@ + le_bytes((rest / 256) as nat, (left - 1) as nat) =~= before + le_bytes(
            rest as nat,
            left as nat,
        ));
        rest = rest / 256;
        left -= 1;
    }
    assert(bytes@ =~= le_bytes(n as nat, 8));
    bytes
}

/// A name and a size.
struct Item {
    name: String,
    bytes: u64,
}

impl Item {
    spec fn pair(self) -> (Seq<char>, u64) {
        (self.name@, self.bytes)
    }
}

impl Ranked for Item {
    closed spec fn before(self, other: Self) -> bool {
        item_leq(self.pair(), other.pair())
    }

    proof fn ranks_all(a: Self, b: Self) {
        text::lemma_precedes_total(a.name@, b.name@);
    }

    proof fn ranks_through(a: Self, b: Self, c: Self) {
        lemma_items_are_ordered();
        let leq = |a: (Seq<char>, u64), b: (Seq<char>, u64)| item_leq(a, b);
        assert(leq(a.pair(), b.pair()) && leq(b.pair(), c.pair()));
        assert(leq(a.pair(), c.pair()));
    }

    fn is_before(&self, other: &Self) -> (yes: bool) {
        if same(self.name.as_str(), other.name.as_str()) {
            self.bytes <= other.bytes
        } else {
            in_order(self.name.as_str(), other.name.as_str())
        }
    }
}

/// Items stand in a total order.
pub proof fn lemma_items_are_ordered()
    ensures
        relations::total_ordering(|a: (Seq<char>, u64), b: (Seq<char>, u64)| item_leq(a, b)),
{
    let leq = |a: (Seq<char>, u64), b: (Seq<char>, u64)| item_leq(a, b);
    assert forall|a: (Seq<char>, u64), b: (Seq<char>, u64)| #[trigger] leq(a, b) && #[trigger] leq(
        b,
        a,
    ) implies a == b by {
        text::lemma_precedes_total(a.0, b.0);
    }
    assert forall|a: (Seq<char>, u64), b: (Seq<char>, u64), c: (Seq<char>, u64)| #[trigger] leq(
        a,
        b,
    ) && #[trigger] leq(b, c) implies leq(a, c) by {
        if a.0 != b.0 && b.0 != c.0 {
            text::lemma_precedes_transitive(a.0, b.0, c.0);
            text::lemma_precedes_total(a.0, b.0);
            text::lemma_precedes_total(b.0, c.0);
        }
    }
    assert forall|a: (Seq<char>, u64), b: (Seq<char>, u64)| #[trigger] leq(a, b) || #[trigger] leq(
        b,
        a,
    ) by {
        text::lemma_precedes_total(a.0, b.0);
    }
}

/// Rearranging a sequence rearranges what its values are mapped to.
proof fn lemma_map_of_rearranged<A, B>(s: Seq<A>, t: Seq<A>, f: spec_fn(A) -> B)
    requires
        s.to_multiset() == t.to_multiset(),
    ensures
        s.map_values(f).to_multiset() == t.map_values(f).to_multiset(),
    decreases s.len(),
{
    broadcast use seq_lib::group_to_multiset_ensures;

    assert(s.len() == s.to_multiset().len());
    assert(t.len() == t.to_multiset().len());
    if s.len() == 0 {
        assert(s.map_values(f) =~= t.map_values(f));
    } else {
        let x = s.last();
        assert(s.to_multiset().count(x) > 0);
        let i = choose|i: int| 0 <= i < t.len() && t[i] == x;
        let s2 = s.drop_last();
        let t2 = t.remove(i);
        assert(s2.push(x) =~= s);
        s2.to_multiset_ensures();
        t.to_multiset_ensures();
        assert(s2.to_multiset() =~= t2.to_multiset());
        lemma_map_of_rearranged(s2, t2, f);
        assert(s.map_values(f) =~= s2.map_values(f).push(f(x)));
        assert(t.map_values(f).remove(i) =~= t2.map_values(f));
        assert(t.map_values(f)[i] == f(x));
        t.map_values(f).to_multiset_ensures();
        assert(s.map_values(f).to_multiset() =~= s2.map_values(f).to_multiset().insert(f(x)));
        assert(t.map_values(f).to_multiset() =~= t2.map_values(f).to_multiset().insert(f(x)));
    }
}

/// A fingerprint of the content in `dir_name` that this tool didn't write.
///
/// `None` means there is nothing foreign in there: no confirmation is needed for that
/// folder, and none can be given for it. The folder name is folded in deliberately: a
/// confirmation is *for a folder's contents*, and two folders that happen to hold
/// identically named files are still two different decisions. The items are sorted so
/// that the token describes the set, not the order the device happened to list it in.
#[must_use]
pub fn overwrite_token(dir_name: &str, foreign: &Vec<Entry>) -> (token: Option<String>)
    ensures
        match token {
            Some(t) => token_of(dir_name@, foreign@) == Some(t@),
            None => token_of(dir_name@, foreign@) is None,
        },
{
    if foreign.len() == 0 {
        return None;
    }
    let mut items: Vec<Item> = Vec::new();
    let mut i: usize = 0;
    while i < foreign.len()
        invariant
            i <= foreign.len(),
            items@.map_values(|x: Item| x.pair()) == items_of(foreign@.take(i as int)),
        decreases foreign.len() - i,
    {
        let ghost before = items@;
        let ghost taken = foreign@.take(i as int);
        items.push(Item { name: foreign[i].name.clone(), bytes: foreign[i].bytes });
        proof {
            let pair = |x: Item| x.pair();
            assert(items@.map_values(pair) =~= before.map_values(pair).push(items@.last().pair()));
            assert(foreign@.take(i + 1) =~= taken.push(foreign@[i as int]));
            assert(items_of(taken.push(foreign@[i as int])) =~= items_of(taken).push(
                (foreign@[i as int].name@, foreign@[i as int].bytes),
            ));
        }
        i += 1;
    }
    assert(foreign@.take(i as int) =~= foreign@);
    let ghost given = items@;
    let ghost pairs = items_of(foreign@);
    let ghost leq = |a: (Seq<char>, u64), b: (Seq<char>, u64)| item_leq(a, b);
    let items = sort(items);
    let ghost arranged = items@.map_values(|x: Item| x.pair());
    proof {
        order::law_sorted(given);
        lemma_map_of_rearranged(items@, given, |x: Item| x.pair());
        lemma_items_are_ordered();
        pairs.lemma_sort_by_ensures(leq);
        assert forall|a: int, b: int| 0 <= a < b < arranged.len() implies #[trigger] leq(
            arranged[a],
            arranged[b],
        ) by {
            assert(items@[a].before(items@[b]));
        }
        assert(relations::sorted_by(arranged, leq));
        seq_lib::lemma_sorted_unique(arranged, pairs.sort_by(leq), leq);
    }
    let mut digest = Fnv1a { state: FNV_OFFSET };
    digest.write(dir_name.as_bytes());
    let mut i: usize = 0;
    let ghost name = utf8::encode_utf8(dir_name@);
    assert(arranged.take(0) =~= Seq::<(Seq<char>, u64)>::empty());
    assert(name + records(arranged.take(0)) =~= name);
    while i < items.len()
        invariant
            i <= items.len(),
            arranged == items@.map_values(|x: Item| x.pair()),
            digest.state == fnv1a(FNV_OFFSET, name + records(arranged.take(i as int))),
        decreases items.len() - i,
    {
        let ghost before = name + records(arranged.take(i as int));
        let ghost encoded = utf8::encode_utf8(items@[i as int].name@);
        let zero: Vec<u8> = vec![0u8];
        assert(zero@ =~= seq![0u8]);
        digest.write(zero.as_slice());
        digest.write(items[i].name.as_str().as_bytes());
        let size = to_le_bytes(items[i].bytes);
        digest.write(size.as_slice());
        proof {
            lemma_fnv1a_continues(FNV_OFFSET, before, seq![0u8]);
            lemma_fnv1a_continues(FNV_OFFSET, before + seq![0u8], encoded);
            lemma_fnv1a_continues(FNV_OFFSET, before + seq![0u8] + encoded, size@);
            assert(arranged.take(i + 1).drop_last() =~= arranged.take(i as int));
            assert(arranged.take(i + 1).last() == items@[i as int].pair());
            assert(before + seq![0u8] + encoded + size@ =~= name + records(arranged.take(i + 1)));
        }
        i += 1;
    }
    assert(arranged.take(i as int) =~= arranged);
    let mut token = String::new();
    push_hex(&mut token, digest.state, 16);
    assert(token@ =~= text::hex(digest.state as nat, 16));
    Some(token)
}

/// The token describes what is in a folder and not the order it was listed in: two
/// listings with the same names and sizes have the same token.
pub proof fn law_token_ignores_listing_order(dir_name: Seq<char>, a: Seq<Entry>, b: Seq<Entry>)
    requires
        items_of(a).to_multiset() == items_of(b).to_multiset(),
    ensures
        token_of(dir_name, a) == token_of(dir_name, b),
{
    broadcast use seq_lib::group_to_multiset_ensures;

    let leq = |a: (Seq<char>, u64), b: (Seq<char>, u64)| item_leq(a, b);
    lemma_items_are_ordered();
    items_of(a).lemma_sort_by_ensures(leq);
    items_of(b).lemma_sort_by_ensures(leq);
    seq_lib::lemma_sorted_unique(items_of(a).sort_by(leq), items_of(b).sort_by(leq), leq);
    assert(items_of(a).len() == items_of(a).to_multiset().len());
    assert(items_of(b).len() == items_of(b).to_multiset().len());
}

/// One byte of FNV-1a loses nothing: from different states, or by different bytes from
/// the same state, it leads to different states.
proof fn lemma_fnv1a_keeps_apart(s: u64, t: u64, a: u8, b: u8)
    requires
        (s != t && a == b) || (s == t && a != b),
    ensures
        (s ^ (a as u64)).wrapping_mul(FNV_PRIME) != (t ^ (b as u64)).wrapping_mul(FNV_PRIME),
{
    let x = s ^ (a as u64);
    let y = t ^ (b as u64);
    assert(x != y) by {
        if s != t {
            let c = a as u64;
            assert((s ^ c) != (t ^ c)) by (bit_vector)
                requires
                    s != t,
            ;
        } else {
            let c = a as u64;
            let d = b as u64;
            assert((s ^ c) != (s ^ d)) by (bit_vector)
                requires
                    c != d,
            ;
        }
    }
    lemma_prime_is_invertible(x, y);
}

/// Multiplying by the prime can be undone: it is odd, so it has an inverse.
proof fn lemma_prime_is_invertible(x: u64, y: u64)
    requires
        x != y,
    ensures
        x.wrapping_mul(FNV_PRIME) != y.wrapping_mul(FNV_PRIME),
{
    let m: int = 0x1_0000_0000_0000_0000;
    let p: int = 0x0000_0100_0000_01b3;
    // p * inverse == 1 + carry * m
    let inverse: int = 14886173955864302971;
    let carry: int = 887285111055;
    let d = x - y;
    if (x * p) % m == (y * p) % m {
        let t = (x * p) / m - (y * p) / m;
        assert(p * d == m * t) by (nonlinear_arith)
            requires
                d == x - y,
                t == (x * p) / m - (y * p) / m,
                (x * p) % m == (y * p) % m,
                m == 0x1_0000_0000_0000_0000,
        ;
        let q = t * inverse - carry * d;
        assert(d == m * q) by (nonlinear_arith)
            requires
                p * d == m * t,
                q == t * inverse - carry * d,
                p * inverse == 1 + carry * m,
        ;
        assert(q == 0) by (nonlinear_arith)
            requires
                d == m * q,
                -m < d < m,
                m > 0,
        ;
    }
}

/// Texts that differ in a single byte have different digests.
pub proof fn lemma_fnv1a_tells_apart(state: u64, a: Seq<u8>, b: Seq<u8>, k: int)
    requires
        a.len() == b.len(),
        0 <= k < a.len(),
        a[k] != b[k],
        forall|i: int| 0 <= i < a.len() && i != k ==> #[trigger] a[i] == b[i],
    ensures
        fnv1a(state, a) != fnv1a(state, b),
    decreases a.len(),
{
    let s = fnv1a(state, a.drop_last());
    let t = fnv1a(state, b.drop_last());
    if k == a.len() - 1 {
        assert(a.drop_last() =~= b.drop_last());
    } else {
        lemma_fnv1a_tells_apart(state, a.drop_last(), b.drop_last(), k);
        assert(a[a.len() - 1] == b[b.len() - 1]);
    }
    lemma_fnv1a_keeps_apart(s, t, a.last(), b.last());
}

/// Another folder needs its own confirmation: two folders whose names differ in a single
/// byte never share a token, whatever the two hold alike. Names further apart share one
/// only where their digests happen to coincide.
pub proof fn law_another_folder_needs_its_own_confirmation(
    a: Seq<char>,
    b: Seq<char>,
    foreign: Seq<Entry>,
    k: int,
)
    requires
        foreign.len() > 0,
        utf8::encode_utf8(a).len() == utf8::encode_utf8(b).len(),
        0 <= k < utf8::encode_utf8(a).len(),
        utf8::encode_utf8(a)[k] != utf8::encode_utf8(b)[k],
        forall|i: int|
            0 <= i < utf8::encode_utf8(a).len() && i != k ==> #[trigger] utf8::encode_utf8(a)[i]
                == utf8::encode_utf8(b)[i],
    ensures
        token_of(a, foreign) is Some,
        token_of(b, foreign) is Some,
        token_of(a, foreign) != token_of(b, foreign),
{
    let items = items_of(foreign);
    let rest = records(items.sort_by(|a: (Seq<char>, u64), b: (Seq<char>, u64)| item_leq(a, b)));
    let one = utf8::encode_utf8(a) + rest;
    let two = utf8::encode_utf8(b) + rest;
    assert forall|i: int| 0 <= i < one.len() && i != k implies #[trigger] one[i] == two[i] by {
        if i < utf8::encode_utf8(a).len() {
            assert(utf8::encode_utf8(a)[i] == utf8::encode_utf8(b)[i]);
        }
    }
    lemma_fnv1a_tells_apart(FNV_OFFSET, one, two, k);
    text::law_hex_reads_back(digest_of(a, items) as nat, 16);
    text::law_hex_reads_back(digest_of(b, items) as nat, 16);
    assert(vstd::arithmetic::power::pow(16, 16) == 0x1_0000_0000_0000_0000) by {
        reveal_with_fuel(vstd::arithmetic::power::pow, 17);
    }
}

/// The token of a folder given the listing of what it holds.
pub open spec fn folder_token(dir_name: Seq<char>, listing: Seq<Entry>) -> Option<Seq<char>> {
    token_of(dir_name, listing::foreign_of(listing))
}

/// A folder needs a confirmation exactly where it holds something that is not ours: one
/// with nothing but filler in it is a fill to resume, not a conflict.
pub proof fn law_only_foreign_content_needs_a_confirmation(dir_name: Seq<char>, l: Seq<Entry>)
    ensures
        folder_token(dir_name, l) is None <==> forall|i: int|
            0 <= i < l.len() ==> !listing::is_foreign(#[trigger] l[i]),
    decreases l.len(),
{
    let foreign = |e: Entry| listing::is_foreign(e);
    if l.len() == 0 {
        reveal(Seq::filter);
    } else {
        let rest = l.drop_last();
        law_only_foreign_content_needs_a_confirmation(dir_name, rest);
        order::lemma_filter_push(rest, l.last(), foreign);
        assert(rest.push(l.last()) =~= l);
        assert forall|i: int| 0 <= i < rest.len() implies #[trigger] rest[i] == l[i] by {}
        assert(l.last() == l[l.len() - 1]);
        if forall|i: int| 0 <= i < l.len() ==> !listing::is_foreign(#[trigger] l[i]) {
            assert forall|i: int| 0 <= i < rest.len() implies !listing::is_foreign(
                #[trigger] rest[i],
            ) by {
                assert(rest[i] == l[i]);
            }
        }
    }
}

/// [`overwrite_token`] for a folder as it was just listed.
pub fn current_overwrite_token(dir_name: &str, listing: &Vec<Entry>) -> (token: Option<String>)
    ensures
        match token {
            Some(t) => folder_token(dir_name@, listing@) == Some(t@),
            None => folder_token(dir_name@, listing@) is None,
        },
{
    overwrite_token(dir_name, &list_foreign(listing))
}

} // verus!
