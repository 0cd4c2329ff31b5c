//! String-keyed association lists with a `Map` view. The theme holds its
//! styles, properties and resources in these; keys are unique by invariant.

use vstd::prelude::*;

verus! {

/// The map an association list denotes; a later entry for a key overrides an
/// earlier one.
pub open spec fn assoc_view<T: View>(entries: Seq<(String, T)>) -> Map<Seq<char>, T::V>
    decreases entries.len(),
{
    if entries.len() == 0 {
        Map::empty()
    } else {
        assoc_view(entries.drop_last()).insert(entries.last().0@, entries.last().1@)
    }
}

/// No two entries share a key.
pub open spec fn distinct_keys<T>(entries: Seq<(String, T)>) -> bool {
    forall|i: int, j: int|
        0 <= i < j < entries.len() ==> entries[i].0@ != entries[j].0@
}

/// Every entry of a list with distinct keys is visible in its map view.
pub proof fn lemma_assoc_view_entry<T: View>(entries: Seq<(String, T)>, i: int)
    requires
        distinct_keys(entries),
        0 <= i < entries.len(),
    ensures
        assoc_view(entries).contains_key(entries[i].0@),
        assoc_view(entries)[entries[i].0@] == entries[i].1@,
    decreases entries.len(),
{
    if i < entries.len() - 1 {
        lemma_assoc_view_entry(entries.drop_last(), i);
    }
}

/// A key no entry carries is not in the map view.
pub proof fn lemma_assoc_view_missing<T: View>(entries: Seq<(String, T)>, key: Seq<char>)
    requires
        forall|i: int| 0 <= i < entries.len() ==> entries[i].0@ != key,
    ensures
        !assoc_view(entries).contains_key(key),
    decreases entries.len(),
{
    if entries.len() > 0 {
        lemma_assoc_view_missing(entries.drop_last(), key);
    }
}

/// Replacing entry `i` with an entry of the same key (by view) updates the
/// map view at that key.
pub proof fn lemma_assoc_view_update<T: View>(entries: Seq<(String, T)>, i: int, entry: (String, T))
    requires
        distinct_keys(entries),
        0 <= i < entries.len(),
        entry.0@ == entries[i].0@,
    ensures
        distinct_keys(entries.update(i, entry)),
        assoc_view(entries.update(i, entry)) == assoc_view(entries).insert(entry.0@, entry.1@),
    decreases entries.len(),
{
    let updated = entries.update(i, entry);
    if i == entries.len() - 1 {
        assert(updated.drop_last() =~= entries.drop_last());
        assert(assoc_view(updated) =~= assoc_view(entries).insert(entry.0@, entry.1@));
    } else {
        lemma_assoc_view_update(entries.drop_last(), i, entry);
        assert(updated.drop_last() =~= entries.drop_last().update(i, entry));
        assert(updated.last() == entries.last());
        assert(assoc_view(updated) =~= assoc_view(entries).insert(entry.0@, entry.1@));
    }
}

/// Appending an entry with a fresh key inserts it into the map view.
pub proof fn lemma_assoc_view_push<T: View>(entries: Seq<(String, T)>, key: String, value: T)
    requires
        distinct_keys(entries),
        forall|i: int| 0 <= i < entries.len() ==> entries[i].0@ != key@,
    ensures
        distinct_keys(entries.push((key, value))),
        assoc_view(entries.push((key, value))) == assoc_view(entries).insert(key@, value@),
{
    let pushed = entries.push((key, value));
    assert(pushed.drop_last() =~= entries);
    assert forall|i: int, j: int| 0 <= i < j < pushed.len() implies pushed[i].0@ != pushed[j].0@ by {
        if j < pushed.len() - 1 {
            assert(pushed[i] == entries[i] && pushed[j] == entries[j]);
        }
    }
}

/// Every key of the map view is carried by some entry, whose value the view
/// reports.
pub proof fn lemma_assoc_view_surjective<T: View>(entries: Seq<(String, T)>, key: Seq<char>)
    requires
        distinct_keys(entries),
        assoc_view(entries).contains_key(key),
    ensures
        exists|i: int|
            0 <= i < entries.len() && (#[trigger] entries[i]).0@ == key && entries[i].1@
                == assoc_view(entries)[key],
    decreases entries.len(),
{
    if entries.len() > 0 {
        if entries.last().0@ == key {
            assert(entries[entries.len() - 1].0@ == key);
        } else {
            lemma_assoc_view_surjective(entries.drop_last(), key);
            let i = choose|i: int|
                0 <= i < entries.drop_last().len() && (#[trigger] entries.drop_last()[i]).0@ == key
                    && entries.drop_last()[i].1@ == assoc_view(entries.drop_last())[key];
            assert(entries[i].0@ == key && entries[i].1@ == assoc_view(entries)[key]);
        }
    }
}

/// With distinct keys the map view has exactly one key per entry.
pub proof fn lemma_assoc_view_len<T: View>(entries: Seq<(String, T)>)
    requires
        distinct_keys(entries),
    ensures
        assoc_view(entries).dom().finite(),
        assoc_view(entries).dom().len() == entries.len(),
    decreases entries.len(),
{
    if entries.len() > 0 {
        lemma_assoc_view_len(entries.drop_last());
        lemma_assoc_view_missing(entries.drop_last(), entries.last().0@);
        assert(assoc_view(entries).dom() =~= assoc_view(entries.drop_last()).dom().insert(
            entries.last().0@,
        ));
    }
}

/// Looks a key up; with distinct keys the answer agrees with the map view.
pub fn assoc_get<'a, T: View>(entries: &'a Vec<(String, T)>, key: &String) -> (r: Option<&'a T>)
    requires
        distinct_keys(entries@),
    ensures
        match r {
            Some(v) => assoc_view(entries@).contains_key(key@) && v@ == assoc_view(entries@)[key@]
                && exists|i: int|
                0 <= i < entries@.len() && (#[trigger] entries@[i]).0@ == key@ && *v == entries@[i].1,
            None => !assoc_view(entries@).contains_key(key@),
        },
{
    let mut i: usize = 0;
    while i < entries.len()
        invariant
            0 <= i <= entries@.len(),
            distinct_keys(entries@),
            forall|j: int| 0 <= j < i ==> entries@[j].0@ != key@,
        decreases entries@.len() - i,
    {
        if entries[i].0 == *key {
            proof {
                lemma_assoc_view_entry(entries@, i as int);
            }
            return Some(&entries[i].1);
        }
        i += 1;
    }
    proof {
        lemma_assoc_view_missing(entries@, key@);
    }
    None
}

/// Whether the list carries the key.
pub fn assoc_contains<T: View>(entries: &Vec<(String, T)>, key: &String) -> (r: bool)
    requires
        distinct_keys(entries@),
    ensures
        r == assoc_view(entries@).contains_key(key@),
{
    assoc_get(entries, key).is_some()
}

/// Binds `key` to `value`, replacing an existing entry for the key.
pub fn assoc_insert<T: View>(entries: &mut Vec<(String, T)>, key: String, value: T)
    requires
        distinct_keys(old(entries)@),
    ensures
        distinct_keys(final(entries)@),
        assoc_view(final(entries)@) == assoc_view(old(entries)@).insert(key@, value@),
        final(entries)@.len() == old(entries)@.len() || final(entries)@.len() == old(entries)@.len()
            + 1,
        forall|i: int|
            0 <= i < final(entries)@.len() ==> (#[trigger] final(entries)@[i] == (key, value)
                || exists|j: int| 0 <= j < old(entries)@.len() && final(entries)@[i] == old(
                entries,
            )@[j]),
{
    let mut i: usize = 0;
    while i < entries.len()
        invariant
            0 <= i <= entries@.len(),
            entries@ == old(entries)@,
            distinct_keys(entries@),
            forall|j: int| 0 <= j < i ==> entries@[j].0@ != key@,
        decreases entries@.len() - i,
    {
        if entries[i].0 == key {
            proof {
                lemma_assoc_view_update(entries@, i as int, (key, value));
            }
            entries[i] = (key, value);
            return ;
        }
        i += 1;
    }
    proof {
        lemma_assoc_view_push(entries@, key, value);
    }
    entries.push((key, value));
}

} // verus!
