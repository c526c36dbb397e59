//! A map from names to values, kept in the order of the names. Two maps that
//! hold the same entries are the same sequence, however they were filled.

use crate::name_order::{
    lemma_name_transitive, lemma_name_trichotomy, name_precedes, place, Placement,
};
use vstd::prelude::*;

verus! {

/// Every entry's name stands strictly before the names behind it.
pub open spec fn sorted_names<V>(entries: Seq<(Seq<char>, V)>) -> bool {
    forall|i: int, j: int|
        0 <= i < j < entries.len() ==> name_precedes(
            (#[trigger] entries[i]).0,
            (#[trigger] entries[j]).0,
        )
}

/// The first index from `i` on whose entry does not stand before `name`.
pub open spec fn slot_from<V>(entries: Seq<(Seq<char>, V)>, name: Seq<char>, i: int) -> int
    decreases entries.len() - i,
{
    if 0 <= i < entries.len() && name_precedes(entries[i].0, name) {
        slot_from(entries, name, i + 1)
    } else {
        i
    }
}

/// The place of `name` among the entries: the index of its entry, or where
/// its entry would stand.
pub open spec fn slot_of<V>(entries: Seq<(Seq<char>, V)>, name: Seq<char>) -> int {
    slot_from(entries, name, 0)
}

/// The entries hold one for `name`.
pub open spec fn holds<V>(entries: Seq<(Seq<char>, V)>, name: Seq<char>) -> bool {
    slot_of(entries, name) < entries.len() && entries[slot_of(entries, name)].0 == name
}

/// The value that the entries hold for `name`, if any.
pub open spec fn value_of<V>(entries: Seq<(Seq<char>, V)>, name: Seq<char>) -> Option<V> {
    if holds(entries, name) {
        Some(entries[slot_of(entries, name)].1)
    } else {
        None
    }
}

/// The entries with `value` for `name`: in place of the value that they held
/// for it, or as a new entry at its place.
pub open spec fn with_entry<V>(entries: Seq<(Seq<char>, V)>, name: Seq<char>, value: V) -> Seq<
    (Seq<char>, V),
> {
    if holds(entries, name) {
        entries.update(slot_of(entries, name), (name, value))
    } else {
        entries.insert(slot_of(entries, name), (name, value))
    }
}

/// The values of the entries, in the order of their names.
pub open spec fn entry_values<V>(entries: Seq<(Seq<char>, V)>) -> Seq<V> {
    entries.map_values(|entry: (Seq<char>, V)| entry.1)
}

/// What `slot_from` returns: every entry from `i` up to it stands before
/// `name`, and the entry there, if there is one, does not.
pub proof fn lemma_slot_from<V>(entries: Seq<(Seq<char>, V)>, name: Seq<char>, i: int)
    requires
        0 <= i <= entries.len(),
    ensures
        i <= slot_from(entries, name, i) <= entries.len(),
        forall|j: int|
            i <= j < slot_from(entries, name, i) ==> name_precedes(
                (#[trigger] entries[j]).0,
                name,
            ),
        slot_from(entries, name, i) == entries.len() || !name_precedes(
            entries[slot_from(entries, name, i)].0,
            name,
        ),
    decreases entries.len() - i,
{
    if i < entries.len() && name_precedes(entries[i].0, name) {
        lemma_slot_from(entries, name, i + 1);
    }
}

/// An index with the properties of `lemma_slot_from` is the one that
/// `slot_from` returns.
pub proof fn lemma_slot_is<V>(entries: Seq<(Seq<char>, V)>, name: Seq<char>, i: int, k: int)
    requires
        0 <= i <= k <= entries.len(),
        forall|j: int| i <= j < k ==> name_precedes((#[trigger] entries[j]).0, name),
        k == entries.len() || !name_precedes(entries[k].0, name),
    ensures
        slot_from(entries, name, i) == k,
    decreases k - i,
{
    if i < k {
        lemma_slot_is(entries, name, i + 1, k);
    }
}

/// In sorted entries a name stands at its slot and nowhere else.
pub proof fn lemma_entry_is_at_its_slot<V>(entries: Seq<(Seq<char>, V)>, i: int)
    requires
        sorted_names(entries),
        0 <= i < entries.len(),
    ensures
        slot_of(entries, entries[i].0) == i,
        holds(entries, entries[i].0),
        value_of(entries, entries[i].0) == Some(entries[i].1),
{
    let name = entries[i].0;
    lemma_name_trichotomy(name, name);
    assert forall|j: int| 0 <= j < i implies name_precedes((#[trigger] entries[j]).0, name) by {}
    lemma_slot_is(entries, name, 0, i);
}

/// Sorted entries stay sorted when an entry is set.
pub proof fn lemma_with_entry_sorted<V>(entries: Seq<(Seq<char>, V)>, name: Seq<char>, value: V)
    requires
        sorted_names(entries),
    ensures
        sorted_names(with_entry(entries, name, value)),
{
    let k = slot_of(entries, name);
    let now = with_entry(entries, name, value);
    lemma_slot_from(entries, name, 0);
    if !holds(entries, name) {
        assert forall|i: int, j: int| 0 <= i < j < now.len() implies name_precedes(
            (#[trigger] now[i]).0,
            (#[trigger] now[j]).0,
        ) by {
            if j == k {
                assert(now[i] == entries[i]);
            } else if i == k {
                assert(now[j] == entries[j - 1]);
                lemma_name_trichotomy(entries[k].0, name);
                if k < j - 1 {
                    assert(name_precedes(entries[k].0, entries[j - 1].0));
                    lemma_name_transitive(name, entries[k].0, entries[j - 1].0);
                }
            } else {
                let i0 = if i < k { i } else { i - 1 };
                let j0 = if j < k { j } else { j - 1 };
                assert(now[i] == entries[i0]);
                assert(now[j] == entries[j0]);
            }
        }
    } else {
        assert forall|i: int, j: int| 0 <= i < j < now.len() implies name_precedes(
            (#[trigger] now[i]).0,
            (#[trigger] now[j]).0,
        ) by {
            assert(now[i].0 == entries[i].0);
            assert(now[j].0 == entries[j].0);
        }
    }
}

/// After an entry is set, its name has the new value and every other name
/// the value that it had.
pub proof fn lemma_value_of_with_entry<V>(
    entries: Seq<(Seq<char>, V)>,
    name: Seq<char>,
    value: V,
    other: Seq<char>,
)
    requires
        sorted_names(entries),
    ensures
        value_of(with_entry(entries, name, value), other) == if other == name {
            Some(value)
        } else {
            value_of(entries, other)
        },
{
    let k = slot_of(entries, name);
    let now = with_entry(entries, name, value);
    lemma_slot_from(entries, name, 0);
    lemma_with_entry_sorted(entries, name, value);
    assert(now[k] == (name, value));
    if other == name {
        lemma_entry_is_at_its_slot(now, k);
    } else {
        let s = slot_of(entries, other);
        lemma_slot_from(entries, other, 0);
        lemma_slot_from(now, other, 0);
        if holds(entries, other) {
            // the entry of `other` is still there, one place further where
            // the new entry went in before it
            let moved = if !holds(entries, name) && k <= s {
                s + 1
            } else {
                s
            };
            assert(now[moved] == entries[s]);
            lemma_entry_is_at_its_slot(now, moved);
        } else if holds(now, other) {
            // an entry of `other` in the new sequence was in the old one
            let t = slot_of(now, other);
            assert(t != k);
            let back = if !holds(entries, name) && k < t {
                t - 1
            } else {
                t
            };
            assert(entries[back] == now[t]);
            lemma_entry_is_at_its_slot(entries, back);
        }
    }
}

/// Sorted entries are told apart by the values that they hold: two that hold
/// the same value for every name are equal.
pub proof fn lemma_same_values_same_entries<V>(a: Seq<(Seq<char>, V)>, b: Seq<(Seq<char>, V)>)
    requires
        sorted_names(a),
        sorted_names(b),
        forall|name: Seq<char>| value_of(a, name) == value_of(b, name),
    ensures
        a == b,
    decreases a.len(),
{
    if a.len() == 0 {
        if b.len() > 0 {
            lemma_entry_is_at_its_slot(b, 0);
            assert(value_of(a, b[0].0) == value_of(b, b[0].0));
        }
        assert(a =~= b);
    } else {
        let last = a.len() - 1;
        let name = a[last].0;
        lemma_entry_is_at_its_slot(a, last);
        assert(value_of(b, name) == value_of(a, name));
        let at = slot_of(b, name);
        lemma_slot_from(b, name, 0);
        assert(holds(b, name));
        assert(b[at].0 == name);
        if at != b.len() - 1 {
            // the last name of `b` would stand behind every name of `a`
            let tail = b[b.len() - 1].0;
            lemma_entry_is_at_its_slot(b, b.len() - 1);
            assert(value_of(a, tail) == value_of(b, tail));
            let i = slot_of(a, tail);
            lemma_slot_from(a, tail, 0);
            assert(holds(a, tail));
            assert(a[i].0 == tail);
            assert(name_precedes(b[at].0, b[b.len() - 1].0));
            lemma_name_trichotomy(name, tail);
            if i < last {
                assert(name_precedes(a[i].0, a[last].0));
            }
        }
        assert(b[b.len() - 1] == a[last]);
        let a0 = a.drop_last();
        let b0 = b.drop_last();
        assert forall|other: Seq<char>| value_of(a0, other) == value_of(b0, other) by {
            lemma_value_without_last(a, other);
            lemma_value_without_last(b, other);
            assert(value_of(a, other) == value_of(b, other));
        }
        lemma_same_values_same_entries(a0, b0);
        assert(a =~= a0.push(a[last]));
        assert(b =~= b0.push(b[b.len() - 1]));
    }
}

/// Without their last entry, sorted entries hold nothing for its name and for
/// every other name what they held.
pub proof fn lemma_value_without_last<V>(entries: Seq<(Seq<char>, V)>, other: Seq<char>)
    requires
        sorted_names(entries),
        entries.len() > 0,
    ensures
        sorted_names(entries.drop_last()),
        value_of(entries.drop_last(), other) == if other == entries.last().0 {
            None
        } else {
            value_of(entries, other)
        },
{
    let shorter = entries.drop_last();
    let last = entries.len() - 1;
    assert forall|i: int, j: int| 0 <= i < j < shorter.len() implies name_precedes(
        (#[trigger] shorter[i]).0,
        (#[trigger] shorter[j]).0,
    ) by {
        assert(shorter[i] == entries[i]);
        assert(shorter[j] == entries[j]);
    }
    lemma_slot_from(entries, other, 0);
    lemma_slot_from(shorter, other, 0);
    if holds(shorter, other) {
        let s = slot_of(shorter, other);
        assert(entries[s] == shorter[s]);
        lemma_entry_is_at_its_slot(entries, s);
        assert(name_precedes(entries[s].0, entries[last].0));
        lemma_name_trichotomy(other, entries[last].0);
    } else if holds(entries, other) {
        let s = slot_of(entries, other);
        if s < last {
            assert(shorter[s] == entries[s]);
            lemma_entry_is_at_its_slot(shorter, s);
        }
    }
}

/// Entries under two different names can be set in either order.
pub proof fn lemma_entries_commute<V>(
    entries: Seq<(Seq<char>, V)>,
    first: Seq<char>,
    first_value: V,
    second: Seq<char>,
    second_value: V,
)
    requires
        sorted_names(entries),
        first != second,
    ensures
        with_entry(with_entry(entries, first, first_value), second, second_value) == with_entry(
            with_entry(entries, second, second_value),
            first,
            first_value,
        ),
{
    let one = with_entry(entries, first, first_value);
    let other = with_entry(entries, second, second_value);
    let a = with_entry(one, second, second_value);
    let b = with_entry(other, first, first_value);
    lemma_with_entry_sorted(entries, first, first_value);
    lemma_with_entry_sorted(entries, second, second_value);
    lemma_with_entry_sorted(one, second, second_value);
    lemma_with_entry_sorted(other, first, first_value);
    assert forall|name: Seq<char>| value_of(a, name) == value_of(b, name) by {
        lemma_value_of_with_entry(entries, first, first_value, name);
        lemma_value_of_with_entry(entries, second, second_value, name);
        lemma_value_of_with_entry(one, second, second_value, name);
        lemma_value_of_with_entry(other, first, first_value, name);
    }
    lemma_same_values_same_entries(a, b);
}

/// A map from names to values. Its view is the sequence of its entries in
/// the order of their names, each name once.
pub struct NameMap<V> {
    names: Vec<String>,
    values: Vec<V>,
}

impl<V> View for NameMap<V> {
    type V = Seq<(Seq<char>, V)>;

    closed spec fn view(&self) -> Seq<(Seq<char>, V)> {
        Seq::new(self.names@.len(), |i: int| (self.names@[i]@, self.values@[i]))
    }
}

impl<V> NameMap<V> {
    #[verifier::type_invariant]
    spec fn well_formed(&self) -> bool {
        self.names@.len() == self.values@.len() && sorted_names(self@)
    }

    /// The empty map.
    pub fn new() -> (map: NameMap<V>)
        ensures
            map@ == Seq::<(Seq<char>, V)>::empty(),
    {
        let map = NameMap { names: Vec::new(), values: Vec::new() };
        assert(map@ =~= Seq::<(Seq<char>, V)>::empty());
        map
    }

    /// The number of entries.
    pub fn len(&self) -> (len: usize)
        ensures
            len == self@.len(),
    {
        self.names.len()
    }

    /// Finds the slot of `name` and whether an entry stands there.
    fn locate(&self, name: &str) -> (found: (usize, bool))
        ensures
            found.0 == slot_of(self@, name@),
            found.1 == holds(self@, name@),
            found.0 <= self@.len(),
    {
        proof {
            use_type_invariant(self);
        }
        let mut lo: usize = 0;
        let mut hi: usize = self.names.len();
        while lo < hi
            invariant
                lo <= hi <= self.names@.len(),
                self@.len() == self.names@.len(),
                sorted_names(self@),
                forall|j: int|
                    0 <= j < self.names@.len() ==> (#[trigger] self@[j]).0 == self.names@[j]@,
                forall|j: int| 0 <= j < lo ==> name_precedes((#[trigger] self@[j]).0, name@),
                forall|j: int|
                    hi <= j < self.names@.len() ==> name_precedes(name@, (#[trigger] self@[j]).0),
            decreases hi - lo,
        {
            let mid = lo + (hi - lo) / 2;
            match place(self.names[mid].as_str(), name) {
                Placement::Before => {
                    proof {
                        assert forall|j: int| 0 <= j <= mid implies name_precedes(
                            (#[trigger] self@[j]).0,
                            name@,
                        ) by {
                            if j < mid {
                                assert(name_precedes(self@[j].0, self@[mid as int].0));
                                lemma_name_transitive(self@[j].0, self@[mid as int].0, name@);
                            }
                        }
                    }
                    lo = mid + 1;
                },
                Placement::Same => {
                    proof {
                        lemma_name_trichotomy(name@, name@);
                        assert forall|j: int| 0 <= j < mid implies name_precedes(
                            (#[trigger] self@[j]).0,
                            name@,
                        ) by {
                            assert(name_precedes(self@[j].0, self@[mid as int].0));
                        }
                        lemma_slot_is(self@, name@, 0, mid as int);
                    }
                    return (mid, true);
                },
                Placement::After => {
                    proof {
                        lemma_name_trichotomy(self@[mid as int].0, name@);
                        assert forall|j: int| mid <= j < self.names@.len() implies name_precedes(
                            name@,
                            (#[trigger] self@[j]).0,
                        ) by {
                            if mid < j {
                                assert(name_precedes(self@[mid as int].0, self@[j].0));
                                lemma_name_transitive(name@, self@[mid as int].0, self@[j].0);
                            }
                        }
                    }
                    hi = mid;
                },
            }
        }
        proof {
            if lo < self.names@.len() {
                lemma_name_trichotomy(name@, self@[lo as int].0);
            }
            lemma_slot_is(self@, name@, 0, lo as int);
        }
        (lo, false)
    }

    /// The map with `value` for `name`: in place of the value that it held
    /// for it, or as a new entry.
    pub fn with_value(self, name: String, value: V) -> (map: NameMap<V>)
        ensures
            map@ == with_entry(self@, name@, value),
            sorted_names(map@),
    {
        proof {
            use_type_invariant(&self);
            lemma_with_entry_sorted(self@, name@, value);
        }
        let ghost before = self@;
        let (k, same) = self.locate(name.as_str());
        let NameMap { names, values } = self;
        let mut names = names;
        let mut values = values;
        if same {
            values.set(k, value);
        } else {
            names.insert(k, name);
            values.insert(k, value);
        }
        let ghost now = Seq::new(names@.len(), |i: int| (names@[i]@, values@[i]));
        proof {
            if same {
                assert(now =~= before.update(k as int, (name@, value)));
            } else {
                assert(now =~= before.insert(k as int, (name@, value)));
            }
        }
        NameMap { names, values }
    }

    /// The value that the map holds for `name`, if any.
    pub fn get(&self, name: &str) -> (value: Option<&V>)
        ensures
            value is Some <==> holds(self@, name@),
            value is Some ==> Some(*value->Some_0) == value_of(self@, name@),
    {
        proof {
            use_type_invariant(self);
        }
        let (k, same) = self.locate(name);
        if same {
            Some(&self.values[k])
        } else {
            None
        }
    }

    /// The name of the entry at `index`, if there is one.
    pub fn name_at(&self, index: usize) -> (name: Option<&String>)
        ensures
            name is Some <==> index < self@.len(),
            name is Some ==> name->Some_0@ == self@[index as int].0,
    {
        if index < self.names.len() {
            Some(&self.names[index])
        } else {
            None
        }
    }

    /// The values of the entries, in the order of their names.
    pub fn values(&self) -> (values: &Vec<V>)
        ensures
            values@ == entry_values(self@),
            sorted_names(self@),
    {
        proof {
            use_type_invariant(self);
            assert(self.values@ =~= entry_values(self@));
        }
        &self.values
    }
}

} // verus!
