//! Association lists keyed by text: a sequence of `(key, value)` pairs in which
//! no key occurs twice, read as a finite map that remembers the order in which
//! its keys came.

use vstd::prelude::*;

verus! {

/// No key occurs at two places of `s`.
pub open spec fn keys_distinct<V>(s: Seq<(Seq<char>, V)>) -> bool {
    forall|i: int, j: int| 0 <= i < j < s.len() ==> (#[trigger] s[i]).0 != (#[trigger] s[j]).0
}

/// `key` is the key of the pair at place `i` of `s`.
pub open spec fn key_at<V>(s: Seq<(Seq<char>, V)>, key: Seq<char>, i: int) -> bool {
    0 <= i < s.len() && s[i].0 == key
}

/// Some pair of `s` has the key `key`.
pub open spec fn has_key<V>(s: Seq<(Seq<char>, V)>, key: Seq<char>) -> bool {
    exists|i: int| key_at(s, key, i)
}

/// A place of `s` whose pair has the key `key`, where there is one.
pub open spec fn place_of<V>(s: Seq<(Seq<char>, V)>, key: Seq<char>) -> int {
    choose|i: int| key_at(s, key, i)
}

/// The value that `s` holds for `key`, or `absent` where it holds none.
pub open spec fn value_or<V>(s: Seq<(Seq<char>, V)>, key: Seq<char>, absent: V) -> V {
    if has_key(s, key) {
        s[place_of(s, key)].1
    } else {
        absent
    }
}

/// `s` with `value` for `key`: in the place of the pair that has this key, or
/// as a new last pair where `s` has none.
pub open spec fn with_entry<V>(s: Seq<(Seq<char>, V)>, key: Seq<char>, value: V) -> Seq<
    (Seq<char>, V),
> {
    if has_key(s, key) {
        s.update(place_of(s, key), (key, value))
    } else {
        s.push((key, value))
    }
}

/// The finite map that `s` lists.
pub open spec fn as_map<V>(s: Seq<(Seq<char>, V)>) -> Map<Seq<char>, V> {
    Map::new(|key: Seq<char>| has_key(s, key), |key: Seq<char>| s[place_of(s, key)].1)
}

/// A key that is at no place of the list is not a key of it; the list without
/// pairs has no key.
pub proof fn lemma_no_place_no_key<V>(s: Seq<(Seq<char>, V)>, key: Seq<char>)
    requires
        forall|i: int| 0 <= i < s.len() ==> (#[trigger] s[i]).0 != key,
    ensures
        !has_key(s, key),
{
}

/// Where keys are distinct, the place of a key is the only place that holds it.
pub proof fn lemma_place_of_unique<V>(s: Seq<(Seq<char>, V)>, key: Seq<char>, i: int)
    requires
        keys_distinct(s),
        key_at(s, key, i),
    ensures
        has_key(s, key),
        place_of(s, key) == i,
{
}

/// Setting an entry keeps keys distinct, holds the value set, and leaves the
/// value of every other key as it was.
pub proof fn lemma_with_entry<V>(s: Seq<(Seq<char>, V)>, key: Seq<char>, value: V)
    requires
        keys_distinct(s),
    ensures
        keys_distinct(with_entry(s, key, value)),
        has_key(with_entry(s, key, value), key),
        forall|absent: V| value_or(with_entry(s, key, value), key, absent) == value,
        forall|other: Seq<char>|
            other != key ==> has_key(with_entry(s, key, value), other) == has_key(s, other),
        forall|other: Seq<char>, absent: V|
            other != key ==> #[trigger] value_or(with_entry(s, key, value), other, absent)
                == value_or(s, other, absent),
{
    let t = with_entry(s, key, value);
    let p = if has_key(s, key) { place_of(s, key) } else { s.len() as int };
    assert forall|i: int| 0 <= i < t.len() && i != p implies #[trigger] t[i] == s[i] && t[i].0
        != key by {
        if !has_key(s, key) {
            assert(!key_at(s, key, i));
        }
    }
    lemma_place_of_unique(t, key, p);
    assert forall|other: Seq<char>| other != key implies has_key(t, other) == has_key(
        s,
        other,
    ) by {
        if has_key(s, other) {
            assert(key_at(t, other, place_of(s, other)));
        }
        if has_key(t, other) {
            assert(key_at(s, other, place_of(t, other)));
        }
    }
    assert forall|other: Seq<char>, absent: V| other != key implies #[trigger] value_or(
        t,
        other,
        absent,
    ) == value_or(s, other, absent) by {
        if has_key(s, other) {
            lemma_place_of_unique(t, other, place_of(s, other));
        }
    }
}

/// Setting an entry of the list sets the same entry of the map it lists.
pub proof fn lemma_as_map_with_entry<V>(s: Seq<(Seq<char>, V)>, key: Seq<char>, value: V)
    requires
        keys_distinct(s),
    ensures
        as_map(with_entry(s, key, value)) == as_map(s).insert(key, value),
{
    let t = with_entry(s, key, value);
    lemma_with_entry(s, key, value);
    assert forall|k: Seq<char>| #[trigger] as_map(t).contains_key(k) implies as_map(t)[k]
        == as_map(s).insert(key, value)[k] by {
        assert(value_or(t, k, value) == as_map(s).insert(key, value)[k]);
    }
    assert(as_map(t) =~= as_map(s).insert(key, value));
}

/// Where keys are distinct, the map holds for each key the value at its place,
/// and holds nothing for a key that is at no place.
pub proof fn lemma_as_map_lookup<V>(s: Seq<(Seq<char>, V)>, key: Seq<char>)
    requires
        keys_distinct(s),
    ensures
        as_map(s).contains_key(key) == has_key(s, key),
        forall|i: int|
            key_at(s, key, i) ==> as_map(s).contains_key(key) && as_map(s)[key] == s[i].1,
        (forall|i: int| 0 <= i < s.len() ==> (#[trigger] s[i]).0 != key) ==> !as_map(
            s,
        ).contains_key(key),
{
    assert forall|i: int| key_at(s, key, i) implies as_map(s).contains_key(key) && as_map(s)[key]
        == s[i].1 by {
        lemma_place_of_unique(s, key, i);
    }
}

/// Taking the pair at a place out of the list takes its key out of the map.
pub proof fn lemma_as_map_remove<V>(s: Seq<(Seq<char>, V)>, i: int)
    requires
        keys_distinct(s),
        0 <= i < s.len(),
    ensures
        keys_distinct(s.remove(i)),
        as_map(s.remove(i)) == as_map(s).remove(s[i].0),
{
    let t = s.remove(i);
    let key = s[i].0;
    // The place in `s` of what is at place `a` of `t`.
    let from = |a: int| if a < i { a } else { a + 1 };
    assert forall|a: int| 0 <= a < t.len() implies #[trigger] t[a] == s[from(a)] by {}
    assert forall|k: Seq<char>| #[trigger] as_map(t).contains_key(k) == as_map(s).remove(
        key,
    ).contains_key(k) by {
        if has_key(t, k) {
            assert(key_at(s, k, from(place_of(t, k))));
        }
        if has_key(s, k) && k != key {
            let a = place_of(s, k);
            assert(key_at(t, k, if a < i { a } else { a - 1 }));
        }
    }
    assert forall|k: Seq<char>| #[trigger] as_map(t).contains_key(k) implies as_map(t)[k]
        == as_map(s).remove(key)[k] by {
        lemma_place_of_unique(s, k, from(place_of(t, k)));
    }
    assert(as_map(t) =~= as_map(s).remove(key));
}

/// The place in `entries` of the pair whose key is `key`, if there is one.
pub fn find_key<V>(entries: &Vec<(String, V)>, key: &str) -> (r: Option<usize>)
    ensures
        match r {
            Some(i) => i < entries.len() && entries@[i as int].0@ == key@,
            None => forall|j: int| 0 <= j < entries.len() ==> entries@[j].0@ != key@,
        },
{
    let wanted = key.to_owned();
    let mut i: usize = 0;
    while i < entries.len()
        invariant
            i <= entries.len(),
            wanted@ == key@,
            forall|j: int| 0 <= j < i ==> entries@[j].0@ != key@,
        decreases entries.len() - i,
    {
        if entries[i].0 == wanted {
            return Some(i);
        }
        i += 1;
    }
    None
}

} // verus!
