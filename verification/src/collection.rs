use vstd::prelude::*;
use vstd::seq_lib::{to_multiset_contains, to_multiset_len, to_multiset_remove};
use vstd::set_lib::lemma_set_disjoint_lens;
use crate::progress::Progress;
use crate::status_map::{count_iterator, keys_with, lemma_keys_with_finite, tally, StatusMap};

verus! {

/// The mappings that a sequence of status maps stands for, in order.
pub open spec fn views(maps: Seq<StatusMap>) -> Seq<Map<Seq<char>, Progress>> {
    Seq::new(maps.len(), |i: int| maps[i]@)
}

/// Each of the mappings of a collection has finitely many keys.
pub proof fn lemma_views_finite(maps: Seq<StatusMap>)
    ensures
        forall|i: int| 0 <= i < maps.len() ==> (#[trigger] views(maps)[i]).dom().finite(),
{
    assert forall|i: int| 0 <= i < maps.len() implies (#[trigger] views(maps)[i]).dom().finite() by {
        maps[i].lemma_view_finite();
    }
}

/// The sum, over every map of the collection, of the number of its keys
/// whose status is `value`.
pub open spec fn tally_all(maps: Seq<Map<Seq<char>, Progress>>, value: Progress) -> nat
    decreases maps.len(),
{
    if maps.len() == 0 {
        0
    } else {
        tally_all(maps.drop_last(), value) + tally(maps.last(), value)
    }
}

/// The number of entries of the collection: the sum of the sizes of its maps.
pub open spec fn total_entries(maps: Seq<Map<Seq<char>, Progress>>) -> nat
    decreases maps.len(),
{
    if maps.len() == 0 {
        0
    } else {
        total_entries(maps.drop_last()) + maps.last().len()
    }
}

/// The tally of a collection made of two parts is the sum of the tallies of
/// the parts.
pub proof fn lemma_tally_all_concat(
    a: Seq<Map<Seq<char>, Progress>>,
    b: Seq<Map<Seq<char>, Progress>>,
    value: Progress,
)
    ensures
        tally_all(a + b, value) == tally_all(a, value) + tally_all(b, value),
    decreases b.len(),
{
    if b.len() == 0 {
        assert(a + b =~= a);
    } else {
        assert((a + b).drop_last() =~= a + b.drop_last());
        lemma_tally_all_concat(a, b.drop_last(), value);
    }
}

/// The number of entries of a collection made of two parts is the sum of
/// the numbers of entries of the parts.
pub proof fn lemma_total_entries_concat(
    a: Seq<Map<Seq<char>, Progress>>,
    b: Seq<Map<Seq<char>, Progress>>,
)
    ensures
        total_entries(a + b) == total_entries(a) + total_entries(b),
    decreases b.len(),
{
    if b.len() == 0 {
        assert(a + b =~= a);
    } else {
        assert((a + b).drop_last() =~= a + b.drop_last());
        lemma_total_entries_concat(a, b.drop_last());
    }
}

/// Taking one map out of a collection lowers the tally by the tally of
/// that map.
pub proof fn lemma_tally_all_remove(
    maps: Seq<Map<Seq<char>, Progress>>,
    at: int,
    value: Progress,
)
    requires
        0 <= at < maps.len(),
    ensures
        tally_all(maps, value) == tally_all(maps.remove(at), value) + tally(maps[at], value),
{
    let head = maps.take(at);
    let one = seq![maps[at]];
    let tail = maps.skip(at + 1);
    assert(one.drop_last() =~= Seq::empty());
    assert(tally_all(one.drop_last(), value) == 0);
    assert(tally_all(one, value) == tally(maps[at], value));
    assert(head + one + tail =~= maps);
    assert(head + tail =~= maps.remove(at));
    lemma_tally_all_concat(head + one, tail, value);
    lemma_tally_all_concat(head, one, value);
    lemma_tally_all_concat(head, tail, value);
}

/// The order of the maps does not matter: two collections that hold the
/// same maps, each as many times in one as in the other, have the same
/// tally.
pub proof fn lemma_tally_all_any_order(
    a: Seq<Map<Seq<char>, Progress>>,
    b: Seq<Map<Seq<char>, Progress>>,
    value: Progress,
)
    requires
        a.to_multiset() == b.to_multiset(),
    ensures
        tally_all(a, value) == tally_all(b, value),
    decreases a.len(),
{
    to_multiset_len(a);
    to_multiset_len(b);
    if a.len() > 0 {
        let last = a.last();
        let front = a.drop_last();
        assert(a.contains(last)) by {
            assert(a[a.len() - 1] == last);
        }
        to_multiset_contains(a, last);
        to_multiset_contains(b, last);
        let at = choose|at: int| 0 <= at < b.len() && b[at] == last;
        assert(front =~= a.remove(a.len() - 1));
        to_multiset_remove(a, a.len() - 1);
        to_multiset_remove(b, at);
        lemma_tally_all_any_order(front, b.remove(at), value);
        lemma_tally_all_remove(b, at, value);
    }
}

/// A collection without maps, or whose maps are all empty, has tally zero
/// for every status.
pub proof fn lemma_tally_all_of_empty_maps(maps: Seq<Map<Seq<char>, Progress>>, value: Progress)
    requires
        forall|i: int| 0 <= i < maps.len() ==> (#[trigger] maps[i]).dom() == Set::<Seq<char>>::empty(),
    ensures
        tally_all(maps, value) == 0,
    decreases maps.len(),
{
    if maps.len() > 0 {
        let front = maps.drop_last();
        assert forall|i: int| 0 <= i < front.len() implies (#[trigger] front[i]).dom() == Set::<
            Seq<char>,
        >::empty() by {
            assert(front[i] == maps[i]);
        }
        lemma_tally_all_of_empty_maps(front, value);
        assert(maps[maps.len() - 1].dom() == Set::<Seq<char>>::empty());
        assert(keys_with(maps.last(), value) =~= Set::<Seq<char>>::empty());
    }
}

/// Every key of a finite map has exactly one of the three statuses: the
/// three tallies of the map add up to its size.
pub proof fn lemma_tallies_cover_map(m: Map<Seq<char>, Progress>)
    requires
        m.dom().finite(),
    ensures
        tally(m, Progress::NotStarted) + tally(m, Progress::Partial) + tally(m, Progress::Complete)
            == m.len(),
{
    let idle = keys_with(m, Progress::NotStarted);
    let partial = keys_with(m, Progress::Partial);
    let complete = keys_with(m, Progress::Complete);
    lemma_keys_with_finite(m, Progress::NotStarted);
    lemma_keys_with_finite(m, Progress::Partial);
    lemma_keys_with_finite(m, Progress::Complete);
    assert(idle.disjoint(partial));
    lemma_set_disjoint_lens(idle, partial);
    assert((idle + partial).disjoint(complete));
    lemma_set_disjoint_lens(idle + partial, complete);
    assert(idle + partial + complete =~= m.dom()) by {
        assert forall|k: Seq<char>| m.dom().contains(k) implies (idle + partial
            + complete).contains(k) by {
            match m[k] {
                Progress::NotStarted => {
                    assert(idle.contains(k));
                },
                Progress::Partial => {
                    assert(partial.contains(k));
                },
                Progress::Complete => {
                    assert(complete.contains(k));
                },
            }
        }
    }
}

/// The three tallies of a collection count every entry exactly once: they
/// add up to the number of entries of the collection.
pub proof fn lemma_tallies_cover_collection(maps: Seq<Map<Seq<char>, Progress>>)
    requires
        forall|i: int| 0 <= i < maps.len() ==> (#[trigger] maps[i]).dom().finite(),
    ensures
        tally_all(maps, Progress::NotStarted) + tally_all(maps, Progress::Partial) + tally_all(
            maps,
            Progress::Complete,
        ) == total_entries(maps),
    decreases maps.len(),
{
    if maps.len() > 0 {
        let front = maps.drop_last();
        assert forall|i: int| 0 <= i < front.len() implies (#[trigger] front[i]).dom().finite() by {
            assert(front[i] == maps[i]);
        }
        lemma_tallies_cover_collection(front);
        assert(maps[maps.len() - 1].dom().finite());
        lemma_tallies_cover_map(maps.last());
    }
}

/// No tally of a collection of finite maps exceeds its number of entries.
pub proof fn lemma_tally_all_bounded(maps: Seq<Map<Seq<char>, Progress>>, value: Progress)
    requires
        forall|i: int| 0 <= i < maps.len() ==> (#[trigger] maps[i]).dom().finite(),
    ensures
        tally_all(maps, value) <= total_entries(maps),
    decreases maps.len(),
{
    if maps.len() > 0 {
        let front = maps.drop_last();
        assert forall|i: int| 0 <= i < front.len() implies (#[trigger] front[i]).dom().finite() by {
            assert(front[i] == maps[i]);
        }
        lemma_tally_all_bounded(front, value);
        assert(maps[maps.len() - 1].dom().finite());
        lemma_keys_with_finite(maps.last(), value);
    }
}

/// Counts, over every map of `collection`, the keys whose status is `value`.
pub fn count_collection(collection: &[StatusMap], value: Progress) -> (total: usize)
    requires
        tally_all(views(collection@), value) <= usize::MAX,
    ensures
        total == tally_all(views(collection@), value),
{
    let ghost maps = views(collection@);
    let mut total: usize = 0;
    let mut i: usize = 0;
    while i < collection.len()
        invariant
            i <= collection.len(),
            maps == views(collection@),
            tally_all(maps, value) <= usize::MAX,
            total == tally_all(maps.take(i as int), value),
        decreases collection.len() - i,
    {
        let count = count_iterator(&collection[i], value);
        proof {
            assert(maps.take(i + 1).drop_last() =~= maps.take(i as int));
            assert(maps.take(i + 1) + maps.skip(i + 1) =~= maps);
            lemma_tally_all_concat(maps.take(i + 1), maps.skip(i + 1), value);
        }
        total += count;
        i += 1;
    }
    proof {
        assert(maps.take(i as int) =~= maps);
    }
    total
}

/// Counts the entries of every map of `collection`. Returns `None` where
/// they are more than a `usize` can count.
pub fn count_entries(collection: &[StatusMap]) -> (total: Option<usize>)
    ensures
        match total {
            Some(n) => n == total_entries(views(collection@)),
            None => total_entries(views(collection@)) > usize::MAX,
        },
{
    let ghost maps = views(collection@);
    let mut total: usize = 0;
    let mut i: usize = 0;
    while i < collection.len()
        invariant
            i <= collection.len(),
            maps == views(collection@),
            total == total_entries(maps.take(i as int)),
        decreases collection.len() - i,
    {
        proof {
            assert(maps.take(i + 1).drop_last() =~= maps.take(i as int));
            assert(maps.take(i + 1) + maps.skip(i + 1) =~= maps);
            lemma_total_entries_concat(maps.take(i + 1), maps.skip(i + 1));
        }
        match total.checked_add(collection[i].len()) {
            Some(sum) => {
                total = sum;
            },
            None => {
                return None;
            },
        }
        i += 1;
    }
    proof {
        assert(maps.take(i as int) =~= maps);
    }
    Some(total)
}

/// Counting is repeatable: any two runs of `count_collection` on one
/// collection and one status give the same number.
pub proof fn lemma_count_collection_repeatable(
    collection: &[StatusMap],
    value: Progress,
    first: usize,
    second: usize,
)
    requires
        call_ensures(count_collection, (collection, value), first),
        call_ensures(count_collection, (collection, value), second),
    ensures
        first == second,
{
}

} // verus!
