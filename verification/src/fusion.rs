//! The two stages of rank fusion that stand around the arithmetic on scores:
//! finding the accumulator slot of every entry of every list, and ordering
//! the accumulated items to keep the best of them.

use crate::name_map::{
    entry_values, holds, lemma_entries_commute, lemma_value_of_with_entry, sorted_names, value_of,
    with_entry, NameMap,
};
use crate::name_order::{
    lemma_name_transitive, lemma_name_trichotomy, name_leq, place, Placement,
};
use vstd::prelude::*;
use vstd::relations::*;
use vstd::seq_lib::*;

verus! {

/// An item with its accumulated score, the score given as a key that orders
/// as the score does: the larger key is the better score.
#[derive(Debug, Clone)]
pub struct ScoredItem {
    pub id: String,
    pub key: i64,
}

impl View for ScoredItem {
    type V = (Seq<char>, i64);

    open spec fn view(&self) -> (Seq<char>, i64) {
        (self.id@, self.key)
    }
}

/// The items of a sequence, each as its identifier's characters and its key.
pub open spec fn item_views(items: Seq<ScoredItem>) -> Seq<(Seq<char>, i64)> {
    items.map_values(|item: ScoredItem| item@)
}

/// `x` is ranked no later than `y`: it has the larger key, or the same key
/// and an identifier that does not come after that of `y`.
pub open spec fn ranks_no_later(x: (Seq<char>, i64), y: (Seq<char>, i64)) -> bool {
    x.1 > y.1 || (x.1 == y.1 && name_leq(x.0, y.0))
}

/// `ranks_no_later` as a relation.
pub open spec fn rank_order() -> spec_fn((Seq<char>, i64), (Seq<char>, i64)) -> bool {
    |x: (Seq<char>, i64), y: (Seq<char>, i64)| ranks_no_later(x, y)
}

/// The items in ranked order: by descending key, and among equal keys by
/// ascending identifier.
pub open spec fn ranking(items: Seq<(Seq<char>, i64)>) -> Seq<(Seq<char>, i64)> {
    items.sort_by(rank_order())
}

/// The first `topn` items of the ranking, or all of them if there are fewer.
pub open spec fn top_n(items: Seq<(Seq<char>, i64)>, topn: nat) -> Seq<(Seq<char>, i64)> {
    if topn <= items.len() {
        ranking(items).take(topn as int)
    } else {
        ranking(items)
    }
}

/// `ranks_no_later` is a total order.
pub proof fn lemma_rank_order_total()
    ensures
        total_ordering(rank_order()),
{
    let r = rank_order();
    assert forall|x: (Seq<char>, i64), y: (Seq<char>, i64)| #[trigger]
        r(x, y) && #[trigger] r(y, x) implies x == y by {
        lemma_name_trichotomy(x.0, y.0);
    }
    assert forall|x: (Seq<char>, i64), y: (Seq<char>, i64), z: (Seq<char>, i64)| #[trigger]
        r(x, y) && #[trigger] r(y, z) implies r(x, z) by {
        if x.1 == y.1 && y.1 == z.1 && x.0 != y.0 && y.0 != z.0 {
            lemma_name_transitive(x.0, y.0, z.0);
        }
    }
    assert forall|x: (Seq<char>, i64), y: (Seq<char>, i64)| #[trigger]
        r(x, y) || #[trigger] r(y, x) by {
        lemma_name_trichotomy(x.0, y.0);
    }
    assert(reflexive(r));
    assert(antisymmetric(r));
    assert(transitive(r));
    assert(strongly_connected(r));
}

/// The ranking holds the items that it was made of, each as often as it was
/// given, and every item in it is ranked no later than those behind it.
pub proof fn lemma_ranking_orders_its_items(items: Seq<(Seq<char>, i64)>)
    ensures
        ranking(items).to_multiset() == items.to_multiset(),
        ranking(items).len() == items.len(),
        forall|i: int, j: int|
            0 <= i < j < items.len() ==> ranks_no_later(
                #[trigger] ranking(items)[i],
                #[trigger] ranking(items)[j],
            ),
{
    broadcast use group_to_multiset_ensures;

    lemma_rank_order_total();
    items.lemma_sort_by_ensures(rank_order());
    assert(ranking(items).to_multiset().len() == items.to_multiset().len());
    assert forall|i: int, j: int| 0 <= i < j < items.len() implies ranks_no_later(
        #[trigger] ranking(items)[i],
        #[trigger] ranking(items)[j],
    ) by {
        assert(rank_order()(ranking(items)[i], ranking(items)[j]));
    }
}

/// The ranking does not depend on the order in which the items are given.
pub proof fn lemma_ranking_ignores_input_order(
    a: Seq<(Seq<char>, i64)>,
    b: Seq<(Seq<char>, i64)>,
)
    requires
        a.to_multiset() == b.to_multiset(),
    ensures
        ranking(a) == ranking(b),
{
    lemma_rank_order_total();
    a.lemma_sort_by_ensures(rank_order());
    b.lemma_sort_by_ensures(rank_order());
    lemma_sorted_unique(ranking(a), ranking(b), rank_order());
}

/// Neither do the items that are kept.
pub proof fn lemma_top_n_ignores_input_order(
    a: Seq<(Seq<char>, i64)>,
    b: Seq<(Seq<char>, i64)>,
    topn: nat,
)
    requires
        a.to_multiset() == b.to_multiset(),
    ensures
        top_n(a, topn) == top_n(b, topn),
{
    broadcast use group_to_multiset_ensures;

    lemma_ranking_ignores_input_order(a, b);
    assert(a.to_multiset().len() == a.len());
    assert(b.to_multiset().len() == b.len());
}

/// Where no two items share an identifier, no two items of the ranking do.
pub proof fn lemma_ranking_keeps_ids_distinct(items: Seq<(Seq<char>, i64)>)
    requires
        forall|i: int, j: int|
            0 <= i < j < items.len() ==> (#[trigger] items[i]).0 != (#[trigger] items[j]).0,
    ensures
        forall|i: int, j: int|
            0 <= i < j < ranking(items).len() ==> (#[trigger] ranking(items)[i]).0 != (
            #[trigger] ranking(items)[j]).0,
{
    broadcast use group_to_multiset_ensures;

    let ranked = ranking(items);
    lemma_ranking_orders_its_items(items);
    assert(items.no_duplicates());
    items.lemma_multiset_has_no_duplicates();
    ranked.lemma_multiset_has_no_duplicates_conv();
    assert forall|i: int, j: int| 0 <= i < j < ranked.len() implies (#[trigger] ranked[i]).0 != (
    #[trigger] ranked[j]).0 by {
        assert(ranked.to_multiset().contains(ranked[i]));
        assert(ranked.to_multiset().contains(ranked[j]));
        assert(items.to_multiset().contains(ranked[i]));
        assert(items.to_multiset().contains(ranked[j]));
        let a = choose|a: int| 0 <= a < items.len() && items[a] == ranked[i];
        let b = choose|b: int| 0 <= b < items.len() && items[b] == ranked[j];
        assert(ranked[i] != ranked[j]);
        assert(a != b);
    }
}

/// Items that already stand in ranked order keep it.
pub proof fn lemma_ranking_keeps_ranked_input(items: Seq<(Seq<char>, i64)>)
    requires
        forall|i: int, j: int|
            0 <= i < j < items.len() ==> ranks_no_later(#[trigger] items[i], #[trigger] items[j]),
    ensures
        ranking(items) == items,
{
    lemma_rank_order_total();
    items.lemma_sort_by_ensures(rank_order());
    assert(sorted_by(items, rank_order()));
    lemma_sorted_unique(ranking(items), items, rank_order());
}

/// Whether `x` is ranked no later than `y`.
pub fn is_ranked_no_later(x: &ScoredItem, y: &ScoredItem) -> (b: bool)
    ensures
        b == ranks_no_later(x@, y@),
{
    if x.key > y.key {
        true
    } else if x.key < y.key {
        false
    } else {
        match place(x.id.as_str(), y.id.as_str()) {
            Placement::After => false,
            _ => true,
        }
    }
}

/// Orders the accumulated items by descending key, equal keys by ascending
/// identifier, and keeps the first `topn` of them. What lies behind them is
/// dropped.
pub fn select_top_n(items: Vec<ScoredItem>, topn: usize) -> (top: Vec<ScoredItem>)
    ensures
        item_views(top@) == top_n(item_views(items@), topn as nat),
        top@.len() == if topn <= items@.len() {
            topn as nat
        } else {
            items@.len()
        },
{
    let ghost given = item_views(items@);
    let mut rest = items;
    let mut sorted: Vec<ScoredItem> = Vec::new();
    proof {
        lemma_rank_order_total();
        assert(item_views(sorted@) =~= Seq::empty());
        assert(item_views(sorted@).to_multiset().add(item_views(rest@).to_multiset())
            =~= given.to_multiset()) by {
            broadcast use group_to_multiset_ensures;

        }
    }
    while rest.len() > 0
        invariant
            total_ordering(rank_order()),
            sorted_by(item_views(sorted@), rank_order()),
            item_views(sorted@).to_multiset().add(item_views(rest@).to_multiset())
                == given.to_multiset(),
        decreases rest.len(),
    {
        let ghost rest_before = item_views(rest@);
        let ghost sorted_before = item_views(sorted@);
        let item = rest.pop().unwrap();
        let mut pos: usize = 0;
        let mut end: usize = sorted.len();
        while pos < end
            invariant
                pos <= end <= sorted@.len(),
                total_ordering(rank_order()),
                sorted_by(item_views(sorted@), rank_order()),
                sorted_before == item_views(sorted@),
                forall|j: int| 0 <= j < pos ==> ranks_no_later(#[trigger] sorted_before[j], item@),
                forall|j: int|
                    end <= j < sorted@.len() ==> !ranks_no_later(
                        #[trigger] sorted_before[j],
                        item@,
                    ),
            decreases end - pos,
        {
            let mid = pos + (end - pos) / 2;
            let ghost r = rank_order();
            if is_ranked_no_later(&sorted[mid], &item) {
                proof {
                    assert(r(sorted_before[mid as int], item@));
                    assert forall|j: int| 0 <= j <= mid implies ranks_no_later(
                        #[trigger] sorted_before[j],
                        item@,
                    ) by {
                        if j < mid {
                            assert(r(sorted_before[j], sorted_before[mid as int]));
                            assert(r(sorted_before[j], item@));
                        }
                    }
                }
                pos = mid + 1;
            } else {
                proof {
                    assert forall|j: int| mid <= j < sorted@.len() implies !ranks_no_later(
                        #[trigger] sorted_before[j],
                        item@,
                    ) by {
                        if mid < j && ranks_no_later(sorted_before[j], item@) {
                            assert(r(sorted_before[mid as int], sorted_before[j]));
                            assert(r(sorted_before[j], item@));
                            assert(r(sorted_before[mid as int], item@));
                        }
                    }
                }
                end = mid;
            }
        }
        sorted.insert(pos, item);
        proof {
            broadcast use group_to_multiset_ensures;

            let r = rank_order();
            let now = item_views(sorted@);
            assert(now =~= sorted_before.insert(pos as int, item@));
            assert(rest_before =~= item_views(rest@).push(item@));
            assert forall|i: int, j: int| 0 <= i < j < now.len() implies #[trigger] r(
                now[i],
                now[j],
            ) by {
                if j == pos {
                    assert(now[i] == sorted_before[i]);
                    assert(r(sorted_before[i], item@));
                } else if i == pos {
                    // the item stands before everything from `pos` on
                    assert(now[j] == sorted_before[j - 1]);
                    assert(r(sorted_before[j - 1], item@) || r(item@, sorted_before[j - 1]));
                } else {
                    let i0 = if i < pos { i } else { i - 1 };
                    let j0 = if j < pos { j } else { j - 1 };
                    assert(now[i] == sorted_before[i0]);
                    assert(now[j] == sorted_before[j0]);
                    assert(r(sorted_before[i0], sorted_before[j0]));
                }
            }
            assert(now.to_multiset().add(item_views(rest@).to_multiset()) =~= given.to_multiset());
        }
    }
    proof {
        broadcast use group_to_multiset_ensures;

        assert(item_views(rest@) =~= Seq::empty());
        assert(item_views(sorted@).to_multiset() =~= given.to_multiset());
        given.lemma_sort_by_ensures(rank_order());
        lemma_sorted_unique(item_views(sorted@), ranking(given), rank_order());
        assert(item_views(sorted@).to_multiset().len() == item_views(sorted@).len());
        assert(given.to_multiset().len() == given.len());
    }
    let ghost whole = item_views(sorted@);
    sorted.truncate(topn);
    proof {
        if topn <= whole.len() {
            assert(item_views(sorted@) =~= whole.take(topn as int));
        } else {
            assert(item_views(sorted@) =~= whole);
        }
    }
    sorted
}

/// Where the entries of the lists are accumulated: one slot for each distinct
/// item, and for every entry of every list the slot of its item.
#[derive(Debug)]
pub struct ItemIndex {
    /// The distinct identifiers, in the order in which a scan of the lists,
    /// list by list and rank by rank, first meets them.
    pub ids: Vec<String>,
    /// For list `l` and rank `r`, `slots[l][r]` is the index in `ids` of the
    /// item that stands there.
    pub slots: Vec<Vec<usize>>,
}

/// The characters of each identifier of a sequence.
pub open spec fn id_views(ids: Seq<String>) -> Seq<Seq<char>> {
    ids.map_values(|id: String| id@)
}

/// The identifiers of a ranked list, in rank order.
pub open spec fn list_ids<S>(list: Seq<(String, S)>) -> Seq<Seq<char>> {
    list.map_values(|entry: (String, S)| entry.0@)
}

/// The identifiers of all the lists in scan order: list by list, and within
/// a list rank by rank.
pub open spec fn all_ids<S>(lists: Seq<Vec<(String, S)>>) -> Seq<Seq<char>>
    decreases lists.len(),
{
    if lists.len() == 0 {
        Seq::empty()
    } else {
        all_ids(lists.drop_last()) + list_ids(lists.last()@)
    }
}

/// The distinct elements of a sequence, each where it first occurs.
pub open spec fn first_seen(scanned: Seq<Seq<char>>) -> Seq<Seq<char>>
    decreases scanned.len(),
{
    if scanned.len() == 0 {
        Seq::empty()
    } else {
        let before = first_seen(scanned.drop_last());
        if before.contains(scanned.last()) {
            before
        } else {
            before.push(scanned.last())
        }
    }
}

/// `first_seen` holds every element of the sequence, once.
pub proof fn lemma_first_seen_is_distinct(scanned: Seq<Seq<char>>)
    ensures
        first_seen(scanned).no_duplicates(),
        first_seen(scanned).to_set() == scanned.to_set(),
        first_seen(scanned).len() == scanned.to_set().len(),
    decreases scanned.len(),
{
    if scanned.len() == 0 {
        assert(first_seen(scanned).to_set() =~= scanned.to_set());
    } else {
        let shorter = scanned.drop_last();
        lemma_first_seen_is_distinct(shorter);
        let before = first_seen(shorter);
        let now = first_seen(scanned);
        assert(scanned =~= shorter.push(scanned.last()));
        assert forall|x: Seq<char>| now.to_set().contains(x) <==> scanned.to_set().contains(
            x,
        ) by {
            assert(before.to_set().contains(x) <==> shorter.to_set().contains(x));
            if now.contains(x) {
                let i = choose|i: int| 0 <= i < now.len() && now[i] == x;
                if i < before.len() {
                    assert(before[i] == x);
                    assert(before.contains(x));
                    let k = choose|k: int| 0 <= k < shorter.len() && shorter[k] == x;
                    assert(scanned[k] == x);
                } else {
                    assert(scanned[scanned.len() - 1] == x);
                }
            }
            if scanned.contains(x) {
                let k = choose|k: int| 0 <= k < scanned.len() && scanned[k] == x;
                if k < shorter.len() {
                    assert(shorter[k] == x);
                    assert(shorter.contains(x));
                    let i = choose|i: int| 0 <= i < before.len() && before[i] == x;
                    assert(now[i] == x);
                } else if before.contains(x) {
                    let i = choose|i: int| 0 <= i < before.len() && before[i] == x;
                    assert(now[i] == x);
                } else {
                    assert(now[now.len() - 1] == x);
                }
            }
        }
        assert(now.to_set() =~= scanned.to_set());
    }
    first_seen(scanned).unique_seq_to_set();
}

/// Gives every distinct item of the lists a slot, in the order in which the
/// scan of the lists first meets it, and tells for every entry the slot of
/// its item: two entries have the same slot where they have the same
/// identifier, and nowhere else. Scores are not looked at.
pub fn index_items<S>(lists: &Vec<Vec<(String, S)>>) -> (index: ItemIndex)
    ensures
        id_views(index.ids@) == first_seen(all_ids(lists@)),
        id_views(index.ids@).no_duplicates(),
        index.slots@.len() == lists@.len(),
        forall|l: int|
            0 <= l < lists@.len() ==> (#[trigger] index.slots@[l])@.len() == lists@[l]@.len(),
        forall|l: int, r: int|
            0 <= l < lists@.len() && 0 <= r < lists@[l]@.len() ==> {
                &&& (#[trigger] index.slots@[l]@[r]) < index.ids@.len()
                &&& index.ids@[index.slots@[l]@[r] as int]@ == lists@[l]@[r].0@
            },
{
    let mut ids: Vec<String> = Vec::new();
    let mut slots: Vec<Vec<usize>> = Vec::new();
    let mut known: NameMap<usize> = NameMap::new();
    let ghost mut scanned: Seq<Seq<char>> = Seq::empty();
    let mut l: usize = 0;
    proof {
        assert(lists@.take(0) =~= Seq::empty());
        assert(id_views(ids@) =~= first_seen(scanned));
    }
    while l < lists.len()
        invariant
            l <= lists@.len(),
            slots@.len() == l,
            scanned == all_ids(lists@.take(l as int)),
            id_views(ids@) == first_seen(scanned),
            sorted_names(known@),
            forall|name: Seq<char>| #[trigger]
                holds(known@, name) ==> id_views(ids@).contains(name),
            forall|j: int|
                0 <= j < ids@.len() ==> value_of(known@, #[trigger] id_views(ids@)[j]) == Some(
                    j as usize,
                ),
            forall|a: int| 0 <= a < l ==> (#[trigger] slots@[a])@.len() == lists@[a]@.len(),
            forall|a: int, r: int|
                0 <= a < l && 0 <= r < lists@[a]@.len() ==> {
                    &&& (#[trigger] slots@[a]@[r]) < ids@.len()
                    &&& ids@[slots@[a]@[r] as int]@ == lists@[a]@[r].0@
                },
        decreases lists@.len() - l,
    {
        let list = &lists[l];
        let ghost base = scanned;
        let mut row: Vec<usize> = Vec::new();
        let mut r: usize = 0;
        proof {
            assert(list_ids(list@).take(0) =~= Seq::empty());
            assert(base + list_ids(list@).take(0) =~= base);
        }
        while r < list.len()
            invariant
                l < lists@.len(),
                list@ == lists@[l as int]@,
                r <= list@.len(),
                row@.len() == r,
                slots@.len() == l,
                scanned == base + list_ids(list@).take(r as int),
                id_views(ids@) == first_seen(scanned),
                sorted_names(known@),
                forall|name: Seq<char>| #[trigger]
                    holds(known@, name) ==> id_views(ids@).contains(name),
                forall|j: int|
                    0 <= j < ids@.len() ==> value_of(known@, #[trigger] id_views(ids@)[j])
                        == Some(j as usize),
                forall|q: int|
                    0 <= q < r ==> {
                        &&& (#[trigger] row@[q]) < ids@.len()
                        &&& ids@[row@[q] as int]@ == list@[q].0@
                    },
                forall|a: int| 0 <= a < l ==> (#[trigger] slots@[a])@.len() == lists@[a]@.len(),
                forall|a: int, q: int|
                    0 <= a < l && 0 <= q < lists@[a]@.len() ==> {
                        &&& (#[trigger] slots@[a]@[q]) < ids@.len()
                        &&& ids@[slots@[a]@[q] as int]@ == lists@[a]@[q].0@
                    },
            decreases list@.len() - r,
        {
            let id = &list[r].0;
            let ghost ids_before = id_views(ids@);
            let ghost known_before = known@;
            proof {
                assert(ids_before.len() == ids.len());
                let next = scanned.push(id@);
                assert(next.drop_last() =~= scanned);
                assert(list_ids(list@).take(r + 1) =~= list_ids(list@).take(r as int).push(id@));
                assert(base + list_ids(list@).take(r + 1) =~= next);
                if ids_before.contains(id@) {
                    let j = choose|j: int| 0 <= j < ids_before.len() && ids_before[j] == id@;
                    assert(value_of(known_before, ids_before[j]) == Some(j as usize));
                }
                scanned = next;
            }
            let slot = match known.get(id.as_str()) {
                Some(slot) => *slot,
                None => {
                    let slot = ids.len();
                    ids.push(id.clone());
                    known = known.with_value(id.clone(), slot);
                    proof {
                        let now = id_views(ids@);
                        assert(now =~= ids_before.push(id@));
                        assert forall|name: Seq<char>| #[trigger]
                            holds(known@, name) implies now.contains(name) by {
                            lemma_value_of_with_entry(known_before, id@, slot, name);
                            if name == id@ {
                                assert(now[slot as int] == name);
                            } else {
                                assert(holds(known_before, name));
                                let j = choose|j: int|
                                    0 <= j < ids_before.len() && ids_before[j] == name;
                                assert(now[j] == name);
                            }
                        }
                        assert forall|j: int| 0 <= j < now.len() implies value_of(
                            known@,
                            #[trigger] now[j],
                        ) == Some(j as usize) by {
                            lemma_value_of_with_entry(known_before, id@, slot, now[j]);
                            if j < slot {
                                assert(now[j] == ids_before[j]);
                                assert(ids_before.contains(ids_before[j]));
                            }
                        }
                    }
                    slot
                },
            };
            proof {
                if ids_before.contains(id@) {
                    let j = choose|j: int| 0 <= j < ids_before.len() && ids_before[j] == id@;
                    assert(slot == j);
                }
                assert(id_views(ids@)[slot as int] == id@);
            }
            row.push(slot);
            r += 1;
        }
        slots.push(row);
        proof {
            assert(list_ids(list@).take(list@.len() as int) =~= list_ids(list@));
            assert(lists@.take(l + 1).drop_last() =~= lists@.take(l as int));
            assert(lists@.take(l + 1).last() == lists@[l as int]);
        }
        l += 1;
    }
    proof {
        assert(lists@.take(lists@.len() as int) =~= lists@);
        lemma_first_seen_is_distinct(scanned);
    }
    ItemIndex { ids, slots }
}

/// Pairs each identifier with the key at its index. There is no result
/// where the two differ in length.
pub fn score_items(ids: &Vec<String>, keys: &Vec<i64>) -> (items: Option<Vec<ScoredItem>>)
    ensures
        items is Some <==> ids@.len() == keys@.len(),
        items is Some ==> item_views(items->Some_0@) == id_views(ids@).zip_with(keys@),
{
    if ids.len() != keys.len() {
        return None;
    }
    let mut items: Vec<ScoredItem> = Vec::new();
    let mut i: usize = 0;
    while i < ids.len()
        invariant
            i <= ids@.len(),
            ids@.len() == keys@.len(),
            items@.len() == i,
            forall|j: int| 0 <= j < i ==> (#[trigger] items@[j])@ == (ids@[j]@, keys@[j]),
        decreases ids@.len() - i,
    {
        items.push(ScoredItem { id: ids[i].clone(), key: keys[i] });
        i += 1;
    }
    assert(item_views(items@) =~= id_views(ids@).zip_with(keys@));
    Some(items)
}

/// The scan of a set of named lists does not depend on the order in which
/// two lists of different names were put into the set: the set holds the
/// same lists at the same places. So the slots of the items, the order in
/// which their contributions are met and the ranking made of them do not
/// depend on it either.
pub proof fn lemma_scan_ignores_insertion_order<S>(
    entries: Seq<(Seq<char>, Vec<(String, S)>)>,
    first: Seq<char>,
    first_list: Vec<(String, S)>,
    second: Seq<char>,
    second_list: Vec<(String, S)>,
)
    requires
        sorted_names(entries),
        first != second,
    ensures
        with_entry(with_entry(entries, first, first_list), second, second_list) == with_entry(
            with_entry(entries, second, second_list),
            first,
            first_list,
        ),
        all_ids(
            entry_values(with_entry(with_entry(entries, first, first_list), second, second_list)),
        ) == all_ids(
            entry_values(with_entry(with_entry(entries, second, second_list), first, first_list)),
        ),
{
    lemma_entries_commute(entries, first, first_list, second, second_list);
}

/// A list in which no identifier occurs twice is met in its own order.
pub proof fn lemma_first_seen_of_distinct(ids: Seq<Seq<char>>)
    requires
        ids.no_duplicates(),
    ensures
        first_seen(ids) == ids,
    decreases ids.len(),
{
    if ids.len() > 0 {
        let shorter = ids.drop_last();
        lemma_first_seen_of_distinct(shorter);
        if shorter.contains(ids.last()) {
            let i = choose|i: int| 0 <= i < shorter.len() && shorter[i] == ids.last();
            assert(ids[i] == ids[ids.len() - 1]);
        }
        assert(ids =~= shorter.push(ids.last()));
    }
}

/// A single list without repeated identifiers whose keys fall strictly with
/// the rank is fused to itself, cut after `topn` items.
pub proof fn lemma_single_list_keeps_its_order(ids: Seq<Seq<char>>, keys: Seq<i64>, topn: nat)
    requires
        ids.no_duplicates(),
        ids.len() == keys.len(),
        forall|i: int, j: int| 0 <= i < j < keys.len() ==> keys[i] > keys[j],
    ensures
        first_seen(ids) == ids,
        top_n(ids.zip_with(keys), topn) == if topn <= ids.len() {
            ids.zip_with(keys).take(topn as int)
        } else {
            ids.zip_with(keys)
        },
{
    lemma_first_seen_of_distinct(ids);
    lemma_ranking_keeps_ranked_input(ids.zip_with(keys));
}

/// As many items are ranked as there are distinct identifiers in the lists,
/// and of those the first `topn` are kept: the fused ranking has `topn` items,
/// or one for each distinct identifier if those are fewer.
pub proof fn lemma_fused_length(
    scanned: Seq<Seq<char>>,
    items: Seq<(Seq<char>, i64)>,
    topn: nat,
)
    requires
        items.len() == first_seen(scanned).len(),
    ensures
        top_n(items, topn).len() == if topn <= scanned.to_set().len() {
            topn
        } else {
            scanned.to_set().len()
        },
{
    lemma_first_seen_is_distinct(scanned);
    lemma_ranking_orders_its_items(items);
}

} // verus!
