//! What the static site is built from: the device order, the name of the
//! stylesheet, and the vendor name shown on a device page.

use vstd::prelude::*;
use crate::hardware::{Device, VendorMap};
use crate::rules::{resolved, Category, Detailed, RuleSet};
use crate::text::{
    all_digits, lemma_hex_padded2_reads_back, numeral_value,
    str_concat, hex_padded2, lemma_seq_lt_irreflexive, lemma_seq_not_lt_transitive, seq_lt, str_lt,
    u32_to_hex_padded2,
};

verus! {

/// The devices of `s` released on `date`, in their order in `s`.
pub open spec fn released_on(s: Seq<Device>, date: Seq<char>) -> Seq<Device>
    decreases s.len(),
{
    if s.len() == 0 {
        Seq::empty()
    } else if s.last().release_date@ == date {
        released_on(s.drop_last(), date).push(s.last())
    } else {
        released_on(s.drop_last(), date)
    }
}

/// Whether the devices are ordered newest first: no device's release date
/// sorts after that of a device before it.
pub open spec fn newest_first(s: Seq<Device>) -> bool {
    forall|i: int, j: int|
        0 <= i < j < s.len() ==> !seq_lt(#[trigger] s[i].release_date@, #[trigger] s[j].release_date@)
}

/// The devices released on a date are the devices of `s` whose release
/// date is that date, in their order: `s` filtered by the date.
pub proof fn lemma_released_on_is_filter(s: Seq<Device>, date: Seq<char>)
    ensures
        released_on(s, date) == s.filter(|d: Device| d.release_date@ == date),
    decreases s.len(),
{
    reveal(Seq::filter);
    if s.len() > 0 {
        lemma_released_on_is_filter(s.drop_last(), date);
    }
}

/// Hashing `a` and then `b` from the state reached is hashing `a + b`, and
/// hashing nothing keeps the state: the hash is computed byte by byte.
pub proof fn lemma_djb2_append(hash: u32, a: Seq<u8>, b: Seq<u8>)
    ensures
        djb2_from(hash, a + b) == djb2_from(djb2_from(hash, a), b),
        djb2_from(hash, Seq::empty()) == hash,
    decreases a.len(),
{
    if a.len() > 0 {
        let h2 = (((hash as int) * 33) % 0x1_0000_0000) as u32 ^ (a[0] as u32);
        lemma_djb2_append(h2, a.drop_first(), b);
        assert((a + b).drop_first() =~= a.drop_first() + b);
        assert((a + b)[0] == a[0]);
    } else {
        assert(a + b =~= b);
    }
}

/// In a newest-first list, a device's release date never sorts after that
/// of a device before it: where the two dates first differ, the later
/// device's character has the smaller code point, and a later date is never
/// a proper extension of an earlier one.
pub proof fn lemma_newest_first_law(s: Seq<Device>, i: int, j: int)
    requires
        newest_first(s),
        0 <= i < j < s.len(),
    ensures
        !seq_lt(s[i].release_date@, s[j].release_date@),
        forall|k: int|
            0 <= k < s[i].release_date@.len() && k < s[j].release_date@.len() && (forall|m: int|
                0 <= m < k ==> s[i].release_date@[m] == s[j].release_date@[m]) && s[i].release_date@[k]
                != s[j].release_date@[k] ==> (#[trigger] s[j].release_date@[k] as int) < (s[i].release_date@[k] as int),
        !(s[i].release_date@.len() < s[j].release_date@.len() && forall|m: int|
            0 <= m < s[i].release_date@.len() ==> s[i].release_date@[m] == s[j].release_date@[m]),
{
    let a = s[i].release_date@;
    let b = s[j].release_date@;
    assert(!seq_lt(a, b));
    assert forall|k: int|
        0 <= k < a.len() && k < b.len() && (forall|m: int| 0 <= m < k ==> a[m] == b[m]) && a[k] != b[k]
            implies (#[trigger] b[k] as int) < (a[k] as int) by {
        crate::text::lemma_seq_lt_first_difference(a, b, k);
    }
    if a.len() < b.len() && forall|m: int| 0 <= m < a.len() ==> a[m] == b[m] {
        crate::text::lemma_seq_lt_proper_prefix(a, b);
    }
}

proof fn lemma_released_on_concat(a: Seq<Device>, b: Seq<Device>, date: Seq<char>)
    ensures
        released_on(a + b, date) == released_on(a, date) + released_on(b, date),
    decreases b.len(),
{
    if b.len() == 0 {
        assert(a + b =~= a);
        assert(released_on(a, date) + released_on(b, date) =~= released_on(a, date));
    } else {
        lemma_released_on_concat(a, b.drop_last(), date);
        assert((a + b).drop_last() =~= a + b.drop_last());
        assert((a + b).last() == b.last());
        if b.last().release_date@ == date {
            assert(released_on(a, date) + released_on(b.drop_last(), date).push(b.last())
                =~= (released_on(a, date) + released_on(b.drop_last(), date)).push(b.last()));
        }
    }
}

proof fn lemma_released_on_none(s: Seq<Device>, date: Seq<char>)
    requires
        forall|i: int| 0 <= i < s.len() ==> (#[trigger] s[i]).release_date@ != date,
    ensures
        released_on(s, date) == Seq::<Device>::empty(),
    decreases s.len(),
{
    if s.len() > 0 {
        lemma_released_on_none(s.drop_last(), date);
    }
}

proof fn lemma_released_on_single(x: Device, date: Seq<char>)
    ensures
        released_on(seq![x], date) == if x.release_date@ == date { seq![x] } else { Seq::<Device>::empty() },
{
    assert(seq![x].drop_last() =~= Seq::<Device>::empty());
    assert(seq![x].last() == x);
    assert(released_on(Seq::<Device>::empty(), date) == Seq::<Device>::empty());
    assert(released_on(seq![x].drop_last(), date) == Seq::<Device>::empty());
    if x.release_date@ == date {
        assert(Seq::<Device>::empty().push(x) =~= seq![x]);
    }
}

/// The devices ordered newest first by release date, devices released on
/// the same date keeping their order (a stable sort by descending date).
pub fn sort_newest_first(devices: Vec<Device>) -> (r: Vec<Device>)
    ensures
        r@.len() == devices@.len(),
        r@.to_multiset() == devices@.to_multiset(),
        newest_first(r@),
        forall|date: Seq<char>| #[trigger] released_on(r@, date) == released_on(devices@, date),
{
    let ghost all = devices@;
    let mut input = devices;
    let mut out: Vec<Device> = Vec::new();
    assert(all.skip(all.len() as int) =~= Seq::<Device>::empty());
    while input.len() > 0
        invariant
            input@ == all.take(input@.len() as int),
            input@.len() <= all.len(),
            out@.len() + input@.len() == all.len(),
            newest_first(out@),
            out@.to_multiset() == all.skip(input@.len() as int).to_multiset(),
            forall|date: Seq<char>| #[trigger] released_on(out@, date) == released_on(all.skip(input@.len() as int), date),
        decreases input.len(),
    {
        let ghost m = input@.len() as int;
        let x = input.pop().unwrap();
        assert(x == all[m - 1]);
        assert(input@ =~= all.take(m - 1));
        assert(all.skip(m - 1) =~= seq![x] + all.skip(m));
        let mut p: usize = 0;
        while p < out.len() && str_lt(x.release_date.as_str(), out[p].release_date.as_str())
            invariant
                p <= out@.len(),
                forall|q: int| 0 <= q < p ==> seq_lt(x.release_date@, (#[trigger] out@[q]).release_date@),
            decreases out.len() - p,
        {
            p += 1;
        }
        let ghost old_out = out@;
        proof {
            if p < old_out.len() {
                assert(!seq_lt(x.release_date@, old_out[p as int].release_date@));
            }
        }
        out.insert(p, x);
        proof {
            let new_out = out@;
            vstd::seq_lib::to_multiset_insert(old_out, p as int, x);
            vstd::seq_lib::to_multiset_insert(all.skip(m), 0, x);
            assert(all.skip(m).insert(0, x) =~= all.skip(m - 1));
            assert(new_out =~= old_out.take(p as int) + seq![x] + old_out.skip(p as int));
            assert(old_out =~= old_out.take(p as int) + old_out.skip(p as int));
            assert forall|i: int, j: int| 0 <= i < j < new_out.len() implies !seq_lt(
                #[trigger] new_out[i].release_date@,
                #[trigger] new_out[j].release_date@,
            ) by {
                if j < p {
                    assert(new_out[i] == old_out[i] && new_out[j] == old_out[j]);
                } else if j == p {
                    assert(new_out[i] == old_out[i]);
                    assert(seq_lt(x.release_date@, old_out[i].release_date@));
                    if seq_lt(old_out[i].release_date@, x.release_date@) {
                        crate::text::lemma_seq_lt_transitive(
                            old_out[i].release_date@,
                            x.release_date@,
                            old_out[i].release_date@,
                        );
                        lemma_seq_lt_irreflexive(old_out[i].release_date@);
                    }
                } else if i == p {
                    assert(new_out[j] == old_out[j - 1]);
                    assert(!seq_lt(x.release_date@, old_out[p as int].release_date@));
                    if j - 1 > p {
                        assert(!seq_lt(old_out[p as int].release_date@, old_out[j - 1].release_date@));
                        lemma_seq_not_lt_transitive(
                            old_out[j - 1].release_date@,
                            old_out[p as int].release_date@,
                            x.release_date@,
                        );
                    }
                } else if i < p {
                    assert(new_out[i] == old_out[i] && new_out[j] == old_out[j - 1]);
                } else {
                    assert(new_out[i] == old_out[i - 1] && new_out[j] == old_out[j - 1]);
                }
            }
            assert forall|date: Seq<char>| #[trigger] released_on(new_out, date) == released_on(all.skip(m - 1), date) by {
                let front = old_out.take(p as int);
                let back = old_out.skip(p as int);
                lemma_released_on_concat(front + seq![x], back, date);
                lemma_released_on_concat(front, seq![x], date);
                lemma_released_on_concat(front, back, date);
                lemma_released_on_concat(seq![x], all.skip(m), date);
                lemma_released_on_single(x, date);
                if x.release_date@ == date {
                    assert forall|q: int| 0 <= q < front.len() implies (#[trigger] front[q]).release_date@ != date by {
                        assert(front[q] == old_out[q]);
                        lemma_seq_lt_irreflexive(x.release_date@);
                    }
                    lemma_released_on_none(front, date);
                    assert(released_on(front, date) + seq![x] + released_on(back, date) =~= seq![x] + (released_on(front, date) + released_on(back, date)));
                } else {
                    assert(released_on(front, date) + Seq::<Device>::empty() =~= released_on(front, date));
                    assert(Seq::<Device>::empty() + released_on(all.skip(m), date) =~= released_on(all.skip(m), date));
                }
            }
        }
    }
    assert(all.skip(0) =~= all);
    assert(out@.to_multiset() == all.to_multiset());
    out
}

/// The devices of a list of detailed devices.
pub open spec fn items_of(s: Seq<Detailed<Device>>) -> Seq<Device> {
    s.map_values(|d: Detailed<Device>| d.item)
}

/// The devices of the site, newest first (a stable sort by descending
/// release date), each with the status that `rules` gives it per category.
pub fn catalogue(rules: &RuleSet, devices: Vec<Device>) -> (r: Vec<Detailed<Device>>)
    ensures
        r@.len() == devices@.len(),
        items_of(r@).to_multiset() == devices@.to_multiset(),
        newest_first(items_of(r@)),
        forall|date: Seq<char>| #[trigger] released_on(items_of(r@), date) == released_on(devices@, date),
        forall|i: int, c: Category|
            0 <= i < r@.len() ==> #[trigger] r@[i].slot(c) == resolved(rules@, r@[i].item.codename@, c),
{
    let sorted = sort_newest_first(devices);
    let mut out: Vec<Detailed<Device>> = Vec::new();
    let mut i: usize = 0;
    while i < sorted.len()
        invariant
            i <= sorted@.len(),
            out@.len() == i,
            forall|k: int| 0 <= k < i ==> (#[trigger] out@[k]).item == sorted@[k],
            forall|k: int, c: Category|
                0 <= k < i ==> #[trigger] out@[k].slot(c) == resolved(rules@, out@[k].item.codename@, c),
        decreases sorted.len() - i,
    {
        let detailed = rules.resolve(sorted[i].duplicate());
        out.push(detailed);
        i += 1;
    }
    assert(items_of(out@) =~= sorted@);
    out
}

/// djb2 (Bernstein's hash, xor variant) of `bytes`, continuing from `hash`:
/// each byte multiplies the hash by 33, wrapping at 2^32, then xors the byte in.
pub open spec fn djb2_from(hash: u32, bytes: Seq<u8>) -> u32
    decreases bytes.len(),
{
    if bytes.len() == 0 {
        hash
    } else {
        djb2_from((((hash as int) * 33) % 0x1_0000_0000) as u32 ^ (bytes[0] as u32), bytes.drop_first())
    }
}

/// Wraps `djb2::hash`; claims that it computes `djb2_from(5381, bytes)`, the
/// loop that the crate's source writes out.
#[verifier::external_body]
fn djb2_hash(bytes: &[u8]) -> (r: u32)
    ensures
        r == djb2_from(5381, bytes@),
{
    djb2::hash(bytes)
}

/// The file name under which a stylesheet with this content is published:
/// `style-`, the djb2 hash of its UTF-8 bytes in lowercase hex (two digits
/// at least), `.css`.
pub open spec fn css_file_name_spec(style: Seq<char>) -> Seq<char> {
    "style-"@ + hex_padded2(djb2_from(5381, vstd::utf8::encode_utf8(style)) as nat) + ".css"@
}

/// The stylesheet's file name is `style-`, then a lowercase hexadecimal
/// numeral of at least two digits whose value is the djb2 hash of the
/// stylesheet's UTF-8 bytes, then `.css`.
pub proof fn lemma_css_file_name_law(style: Seq<char>)
    ensures
        ({
            let name = css_file_name_spec(style);
            let hex = hex_padded2(djb2_from(5381, vstd::utf8::encode_utf8(style)) as nat);
            &&& name == "style-"@ + hex + ".css"@
            &&& numeral_value(hex, 16) == djb2_from(5381, vstd::utf8::encode_utf8(style))
            &&& all_digits(hex, 16)
            &&& hex.len() >= 2
        }),
{
    lemma_hex_padded2_reads_back(djb2_from(5381, vstd::utf8::encode_utf8(style)) as nat);
}

/// The file name under which the stylesheet `style` is published.
pub fn css_file_name(style: &str) -> (r: String)
    ensures
        r@ == css_file_name_spec(style@),
{
    let hash = djb2_hash(style.as_bytes());
    let hex = u32_to_hex_padded2(hash);
    let a = str_concat("style-", hex.as_str());
    str_concat(a.as_str(), ".css")
}

/// The name of the vendor with id `vendor_id`, or the empty string where no
/// such vendor is known.
pub fn vendor_display_name(vendors: &VendorMap, vendor_id: &String) -> (r: String)
    ensures
        r@ == if vendors@.contains_key(vendor_id@) { vendors@[vendor_id@] } else { Seq::<char>::empty() },
{
    vendors.name_of(vendor_id)
}

} // verus!
