//! Maps that keep the order in which their keys came.
//!
//! The maps are `indexmap::IndexMap`s. Verus does not look into them: what a
//! map holds has a name here, and what each method does to it is stated as the
//! crate documents it, without proof.

use crate::action::bandaid::{BandAid, BandAidView};
use crate::span::Range;
use indexmap::IndexMap;
use vstd::prelude::*;

verus! {

/// `indexmap::IndexMap`: a hash map that keeps its keys in the order in which
/// they were put in. Nothing is known of what is inside one but through the
/// names below.
#[verifier::external_type_specification]
#[verifier::external_body]
#[verifier::reject_recursive_types(K)]
#[verifier::reject_recursive_types(V)]
#[verifier::reject_recursive_types(S)]
pub struct ExIndexMap<K, V, S>(IndexMap<K, V, S>);

/// The edits that `map` holds: for each path, in the order in which the paths
/// came, the edits recorded under it.
pub uninterp spec fn edits_of(map: IndexMap<String, Vec<BandAid>>) -> Seq<
    (Seq<char>, Seq<BandAidView>),
>;

/// The first place in `entries` that holds `key`; their number where none
/// does.
pub open spec fn place<K, T>(entries: Seq<(K, T)>, key: K) -> int
    decreases entries.len(),
{
    if entries.len() == 0 {
        0
    } else if entries[0].0 == key {
        0
    } else {
        1 + place(entries.drop_first(), key)
    }
}

/// `entries` with `value` under `key`: in the place of what `key` held, or
/// last where it held nothing.
pub open spec fn upserted<K, T>(entries: Seq<(K, T)>, key: K, value: T) -> Seq<(K, T)> {
    let at = place(entries, key);
    if at < entries.len() {
        entries.update(at, (key, value))
    } else {
        entries.push((key, value))
    }
}

/// What `entries` hold for `path`: nothing where it is none of the paths.
pub open spec fn held<T>(entries: Seq<(Seq<char>, Seq<T>)>, path: Seq<char>) -> Seq<T> {
    let at = place(entries, path);
    if at < entries.len() {
        entries[at].1
    } else {
        Seq::empty()
    }
}

/// `entries` with `items` added behind what `path` holds; a path that was not
/// among the paths becomes the last of them.
pub open spec fn added<T>(entries: Seq<(Seq<char>, Seq<T>)>, path: Seq<char>, items: Seq<T>) -> Seq<
    (Seq<char>, Seq<T>),
> {
    let at = place(entries, path);
    if at < entries.len() {
        entries.update(at, (path, entries[at].1 + items))
    } else {
        entries.push((path, items))
    }
}

/// `place` finds the first entry of `key`, and only that.
pub proof fn lemma_place<K, T>(entries: Seq<(K, T)>, key: K)
    ensures
        0 <= place(entries, key) <= entries.len(),
        place(entries, key) < entries.len() ==> entries[place(entries, key)].0 == key,
        forall|i: int| 0 <= i < place(entries, key) ==> (#[trigger] entries[i]).0 != key,
    decreases entries.len(),
{
    if entries.len() > 0 && entries[0].0 != key {
        let rest = entries.drop_first();
        lemma_place(rest, key);
        assert forall|i: int| 0 <= i < place(entries, key) implies (#[trigger] entries[i]).0
            != key by {
            if i > 0 {
                assert(entries[i] == rest[i - 1]);
            }
        }
    }
}

/// What `upserted` holds: at each old place the old key, with the old value
/// or the new one; and the new pair at the end, or at the place of its key.
pub proof fn lemma_upserted<K, T>(entries: Seq<(K, T)>, key: K, value: T)
    ensures
        entries.len() <= upserted(entries, key, value).len() <= entries.len() + 1,
        forall|k: int|
            0 <= k < entries.len() ==> (#[trigger] upserted(entries, key, value)[k]).0
                == entries[k].0,
        forall|k: int|
            0 <= k < upserted(entries, key, value).len() ==> (#[trigger] upserted(
                entries,
                key,
                value,
            )[k]) == (key, value) || (k < entries.len() && upserted(entries, key, value)[k]
                == entries[k]),
{
    lemma_place(entries, key);
}

/// `place` is the one place before which nothing holds `key` and which holds
/// it, or the end.
pub proof fn lemma_place_is<K, T>(entries: Seq<(K, T)>, key: K, at: int)
    requires
        0 <= at <= entries.len(),
        forall|i: int| 0 <= i < at ==> (#[trigger] entries[i]).0 != key,
        at < entries.len() ==> entries[at].0 == key,
    ensures
        place(entries, key) == at,
{
    lemma_place(entries, key);
}

/// How many items `entries` holds in all.
pub open spec fn total<T>(entries: Seq<(Seq<char>, Seq<T>)>) -> nat
    decreases entries.len(),
{
    if entries.len() == 0 {
        0
    } else {
        total(entries.drop_last()) + entries.last().1.len()
    }
}

/// Adding items adds their number to the total.
pub proof fn lemma_total_added<T>(entries: Seq<(Seq<char>, Seq<T>)>, path: Seq<char>, items: Seq<T>)
    ensures
        total(added(entries, path, items)) == total(entries) + items.len(),
    decreases entries.len(),
{
    lemma_place(entries, path);
    let at = place(entries, path);
    let after = added(entries, path, items);
    if at < entries.len() {
        if at == entries.len() - 1 {
            assert(after.drop_last() == entries.drop_last());
        } else {
            let shorter = entries.drop_last();
            assert(place(shorter, path) == at) by {
                lemma_place_is(shorter, path, at);
            }
            assert(after.drop_last() == added(shorter, path, items));
            lemma_total_added(shorter, path, items);
        }
    } else {
        assert(after.drop_last() == entries);
    }
}

/// `IndexMap::new`: a map that holds nothing.
#[verifier::external_body]
pub(crate) fn no_edits() -> (map: IndexMap<String, Vec<BandAid>>)
    ensures
        edits_of(map) == Seq::<(Seq<char>, Seq<BandAidView>)>::empty(),
{
    IndexMap::new()
}

/// `IndexMap::entry` and `Entry::or_insert_with`: the list that `map` holds
/// for `path`; where it held none, `path` becomes its last key, with an empty
/// list. What the caller makes of the list is what `map` holds for `path`
/// from then on.
#[verifier::external_body]
pub(crate) fn list_of<'a>(map: &'a mut IndexMap<String, Vec<BandAid>>, path: &str) -> (list: &'a mut Vec<
    BandAid,
>)
    ensures
        list.deep_view() == held(edits_of(*old(map)), path@),
        edits_of(*final(map)) == upserted(edits_of(*old(map)), path@, final(list).deep_view()),
{
    map.entry(path.to_owned()).or_insert_with(Vec::new)
}

/// `IndexMap::len`: how many keys `map` holds.
#[verifier::external_body]
pub(crate) fn paths(map: &IndexMap<String, Vec<BandAid>>) -> (n: usize)
    ensures
        n == edits_of(*map).len(),
{
    map.len()
}

/// `IndexMap::get_index`: the key and the list at place `index`, if there is
/// such a place.
#[verifier::external_body]
pub(crate) fn edits_at(map: &IndexMap<String, Vec<BandAid>>, index: usize) -> (found: Option<
    (&String, &Vec<BandAid>),
>)
    ensures
        found is Some <==> index < edits_of(*map).len(),
        found matches Some((path, fixes)) ==> (path@, fixes.deep_view()) == edits_of(
            *map,
        )[index as int],
{
    map.get_index(index)
}

/// The pairs of ranges that `map` holds, in the order in which their keys
/// came.
pub uninterp spec fn ranges_of(map: IndexMap<Range, Range>) -> Seq<(Range, Range)>;

/// `IndexMap::with_capacity`: a map that holds nothing.
#[verifier::external_body]
pub(crate) fn no_ranges(capacity: usize) -> (map: IndexMap<Range, Range>)
    ensures
        ranges_of(map) == Seq::<(Range, Range)>::empty(),
{
    IndexMap::with_capacity(capacity)
}

/// `IndexMap::insert`: where `key` is a key, it stays in its place and holds
/// `value` from now on; where it is none, it becomes the last key.
#[verifier::external_body]
pub(crate) fn insert_range(map: &mut IndexMap<Range, Range>, key: Range, value: Range)
    ensures
        ranges_of(*final(map)) == upserted(ranges_of(*old(map)), key, value),
{
    map.insert(key, value);
}

/// `IndexMap::pop`: takes the last pair out of `map`, if it holds one.
#[verifier::external_body]
pub(crate) fn pop_range(map: &mut IndexMap<Range, Range>) -> (last: Option<(Range, Range)>)
    ensures
        ranges_of(*old(map)).len() == 0 ==> last is None && ranges_of(*final(map)) == ranges_of(
            *old(map),
        ),
        ranges_of(*old(map)).len() > 0 ==> last == Some(ranges_of(*old(map)).last())
            && ranges_of(*final(map)) == ranges_of(*old(map)).drop_last(),
{
    map.pop()
}

/// `IndexMap::iter`: the pairs of `map` in their order.
#[verifier::external_body]
pub(crate) fn ranges(map: &IndexMap<Range, Range>) -> (pairs: Vec<(Range, Range)>)
    ensures
        pairs@ == ranges_of(*map),
{
    map.iter().map(|(plain, raw)| (plain.clone(), raw.clone())).collect()
}

} // verus!
