use vstd::prelude::*;
use vstd::string::StringExecFns;
use crate::progress::Progress;

verus! {

/// The keys of `m` whose status is `value`.
pub open spec fn keys_with(m: Map<Seq<char>, Progress>, value: Progress) -> Set<Seq<char>> {
    m.dom().filter(|k: Seq<char>| m[k] == value)
}

/// The number of keys of `m` whose status is `value`.
pub open spec fn tally(m: Map<Seq<char>, Progress>, value: Progress) -> nat {
    keys_with(m, value).len()
}

/// Only finitely many keys of a finite map have a given status, and no more
/// than the map has keys.
pub proof fn lemma_keys_with_finite(m: Map<Seq<char>, Progress>, value: Progress)
    requires
        m.dom().finite(),
    ensures
        keys_with(m, value).finite(),
        tally(m, value) <= m.len(),
{
    let pick = |k: Seq<char>| m[k] == value;
    m.dom().lemma_len_filter(pick);
    assert(keys_with(m, value) =~= m.dom().filter(pick));
}

/// A mapping from text keys to completion states.
///
/// A key occurs at most once. The order in which the entries were added is
/// no part of the value: the view is a `Map` from the text of a key to its
/// status.
pub struct StatusMap {
    entries: Vec<(String, Progress)>,
}

/// The mapping that a list of entries stands for.
spec fn map_of(entries: Seq<(String, Progress)>) -> Map<Seq<char>, Progress>
    decreases entries.len(),
{
    if entries.len() == 0 {
        Map::empty()
    } else {
        map_of(entries.drop_last()).insert(entries.last().0@, entries.last().1)
    }
}

/// No two entries share a key.
spec fn distinct_keys(entries: Seq<(String, Progress)>) -> bool {
    forall|i: int, j: int|
        0 <= i < j < entries.len() ==> (#[trigger] entries[i]).0@ != (#[trigger] entries[j]).0@
}

/// Some entry has the key `k`.
spec fn has_key(entries: Seq<(String, Progress)>, k: Seq<char>) -> bool {
    exists|i: int| 0 <= i < entries.len() && (#[trigger] entries[i]).0@ == k
}

/// The number of entries whose status is `value`.
spec fn occurrences(entries: Seq<(String, Progress)>, value: Progress) -> nat
    decreases entries.len(),
{
    if entries.len() == 0 {
        0
    } else {
        occurrences(entries.drop_last(), value) + if entries.last().1 == value {
            1nat
        } else {
            0nat
        }
    }
}

/// The keys of the mapping are the keys of the entries, and they are
/// finitely many.
proof fn lemma_map_of_keys(entries: Seq<(String, Progress)>)
    ensures
        map_of(entries).dom().finite(),
        forall|k: Seq<char>| #[trigger] map_of(entries).contains_key(k) <==> has_key(entries, k),
    decreases entries.len(),
{
    if entries.len() > 0 {
        let front = entries.drop_last();
        lemma_map_of_keys(front);
        assert forall|k: Seq<char>| #[trigger]
            map_of(entries).contains_key(k) <==> has_key(entries, k) by {
            if has_key(entries, k) {
                let i = choose|i: int| 0 <= i < entries.len() && (#[trigger] entries[i]).0@ == k;
                if i < front.len() {
                    assert(front[i].0@ == k);
                }
            }
            if map_of(entries).contains_key(k) {
                if k == entries.last().0@ {
                    assert(entries[entries.len() - 1].0@ == k);
                } else {
                    let i = choose|i: int| 0 <= i < front.len() && (#[trigger] front[i]).0@ == k;
                    assert(entries[i].0@ == k);
                }
            }
        }
    }
}

/// Entries with distinct keys stay so without the last of them, whose key
/// none of the others has.
proof fn lemma_distinct_front(entries: Seq<(String, Progress)>)
    requires
        distinct_keys(entries),
        entries.len() > 0,
    ensures
        distinct_keys(entries.drop_last()),
        !map_of(entries.drop_last()).contains_key(entries.last().0@),
{
    let front = entries.drop_last();
    assert forall|i: int, j: int| 0 <= i < j < front.len() implies (#[trigger] front[i]).0@ != (
    #[trigger] front[j]).0@ by {
        assert(front[i] == entries[i] && front[j] == entries[j]);
    }
    lemma_map_of_keys(front);
    if has_key(front, entries.last().0@) {
        let i = choose|i: int| 0 <= i < front.len() && (#[trigger] front[i]).0@ == entries.last().0@;
        assert(entries[i].0@ == entries[entries.len() - 1].0@);
    }
}

/// With distinct keys, the mapping has one key for each entry and gives
/// each key the status of its entry.
proof fn lemma_map_of_values(entries: Seq<(String, Progress)>)
    requires
        distinct_keys(entries),
    ensures
        map_of(entries).len() == entries.len(),
        forall|i: int|
            0 <= i < entries.len() ==> map_of(entries).contains_key((#[trigger] entries[i]).0@)
                && map_of(entries)[entries[i].0@] == entries[i].1,
    decreases entries.len(),
{
    if entries.len() > 0 {
        let front = entries.drop_last();
        lemma_distinct_front(entries);
        lemma_map_of_values(front);
        lemma_map_of_keys(front);
        assert forall|i: int| 0 <= i < entries.len() implies map_of(entries).contains_key(
            (#[trigger] entries[i]).0@,
        ) && map_of(entries)[entries[i].0@] == entries[i].1 by {
            if i < front.len() {
                assert(front[i] == entries[i]);
            }
        }
    }
}

/// With distinct keys, counting entries is counting keys.
proof fn lemma_occurrences_is_tally(entries: Seq<(String, Progress)>, value: Progress)
    requires
        distinct_keys(entries),
    ensures
        occurrences(entries, value) == tally(map_of(entries), value),
    decreases entries.len(),
{
    let chosen = keys_with(map_of(entries), value);
    if entries.len() == 0 {
        assert(chosen =~= Set::<Seq<char>>::empty());
    } else {
        let front = entries.drop_last();
        let last = entries.last();
        let before = keys_with(map_of(front), value);
        lemma_distinct_front(entries);
        lemma_occurrences_is_tally(front, value);
        lemma_map_of_keys(front);
        lemma_keys_with_finite(map_of(front), value);
        if last.1 == value {
            assert(chosen =~= before.insert(last.0@));
        } else {
            assert(chosen =~= before);
        }
    }
}

/// Putting a new status into the entry at `at` keeps the keys distinct and
/// stores the status under the key of that entry.
proof fn lemma_replace(entries: Seq<(String, Progress)>, at: int, key: String, status: Progress)
    requires
        distinct_keys(entries),
        0 <= at < entries.len(),
        entries[at].0@ == key@,
    ensures
        distinct_keys(entries.update(at, (key, status))),
        map_of(entries.update(at, (key, status))) == map_of(entries).insert(key@, status),
{
    let now = entries.update(at, (key, status));
    assert forall|a: int, b: int| 0 <= a < b < now.len() implies (#[trigger] now[a]).0@ != (
    #[trigger] now[b]).0@ by {
        assert(entries[a].0@ != entries[b].0@);
    }
    lemma_map_of_keys(entries);
    lemma_map_of_values(entries);
    lemma_map_of_keys(now);
    lemma_map_of_values(now);
    let wanted = map_of(entries).insert(key@, status);
    assert forall|k: Seq<char>| #[trigger] map_of(now).contains_key(k) <==> wanted.contains_key(
        k,
    ) by {
        if has_key(now, k) {
            let a = choose|a: int| 0 <= a < now.len() && (#[trigger] now[a]).0@ == k;
            assert(entries[a].0@ == k);
        }
        if has_key(entries, k) {
            let a = choose|a: int| 0 <= a < entries.len() && (#[trigger] entries[a]).0@ == k;
            assert(now[a].0@ == k);
        }
    }
    assert forall|k: Seq<char>| #[trigger] map_of(now).contains_key(k) implies map_of(now)[k]
        == wanted[k] by {
        let a = choose|a: int| 0 <= a < now.len() && (#[trigger] now[a]).0@ == k;
        assert(map_of(now)[now[a].0@] == now[a].1);
        assert(map_of(entries)[entries[a].0@] == entries[a].1);
    }
    assert(map_of(now) =~= wanted);
}

/// Adding an entry under a key that no entry has keeps the keys distinct
/// and stores the status under that key.
proof fn lemma_append(entries: Seq<(String, Progress)>, key: String, status: Progress)
    requires
        distinct_keys(entries),
        !map_of(entries).contains_key(key@),
    ensures
        distinct_keys(entries.push((key, status))),
        map_of(entries.push((key, status))) == map_of(entries).insert(key@, status),
{
    let now = entries.push((key, status));
    lemma_map_of_keys(entries);
    assert(now.drop_last() =~= entries);
    assert forall|a: int, b: int| 0 <= a < b < now.len() implies (#[trigger] now[a]).0@ != (
    #[trigger] now[b]).0@ by {
        if b == entries.len() {
            assert(entries[a].0@ == now[a].0@);
        } else {
            assert(entries[a].0@ != entries[b].0@);
        }
    }
}

impl View for StatusMap {
    type V = Map<Seq<char>, Progress>;

    closed spec fn view(&self) -> Map<Seq<char>, Progress> {
        map_of(self.entries@)
    }
}

impl StatusMap {
    #[verifier::type_invariant]
    spec fn keys_are_distinct(&self) -> bool {
        distinct_keys(self.entries@)
    }

    /// Every status map has finitely many keys.
    pub proof fn lemma_view_finite(&self)
        ensures
            self@.dom().finite(),
    {
        lemma_map_of_keys(self.entries@);
    }

    /// A map without entries.
    pub fn new() -> (map: StatusMap)
        ensures
            map@ == Map::<Seq<char>, Progress>::empty(),
    {
        StatusMap { entries: Vec::new() }
    }

    /// The number of keys.
    pub fn len(&self) -> (n: usize)
        ensures
            n == self@.len(),
    {
        proof {
            use_type_invariant(self);
            lemma_map_of_values(self.entries@);
        }
        self.entries.len()
    }

    /// The status stored under `key`, if the map has that key.
    pub fn get(&self, key: &str) -> (found: Option<Progress>)
        ensures
            match found {
                Some(status) => self@.contains_key(key@) && self@[key@] == status,
                None => !self@.contains_key(key@),
            },
    {
        let wanted = String::from_str(key);
        let mut i: usize = 0;
        while i < self.entries.len()
            invariant
                i <= self.entries.len(),
                wanted@ == key@,
                forall|j: int| 0 <= j < i ==> (#[trigger] self.entries@[j]).0@ != key@,
            decreases self.entries.len() - i,
        {
            if self.entries[i].0 == wanted {
                proof {
                    use_type_invariant(self);
                    lemma_map_of_values(self.entries@);
                }
                return Some(self.entries[i].1);
            }
            i += 1;
        }
        proof {
            lemma_map_of_keys(self.entries@);
        }
        None
    }

    /// Stores `status` under `key`, in place of what was stored there.
    /// Returns the status that was stored there before, if there was one.
    pub fn insert(&mut self, key: String, status: Progress) -> (previous: Option<Progress>)
        ensures
            final(self)@ == old(self)@.insert(key@, status),
            match previous {
                Some(before) => old(self)@.contains_key(key@) && old(self)@[key@] == before,
                None => !old(self)@.contains_key(key@),
            },
    {
        let mut i: usize = 0;
        while i < self.entries.len()
            invariant
                i <= self.entries.len(),
                self.entries@ == old(self).entries@,
                forall|j: int| 0 <= j < i ==> (#[trigger] self.entries@[j]).0@ != key@,
            decreases self.entries.len() - i,
        {
            if self.entries[i].0 == key {
                let before = self.entries[i].1;
                proof {
                    use_type_invariant(&*self);
                    lemma_map_of_values(self.entries@);
                    lemma_replace(self.entries@, i as int, key, status);
                }
                let mut entries: Vec<(String, Progress)> = Vec::new();
                std::mem::swap(&mut self.entries, &mut entries);
                entries[i] = (key, status);
                self.entries = entries;
                return Some(before);
            }
            i += 1;
        }
        proof {
            lemma_map_of_keys(self.entries@);
        }
        self.insert_new(key, status);
        None
    }

    /// Stores `status` under a key that the map does not have yet. Unlike
    /// `insert`, this does not search the map for the key.
    pub(crate) fn insert_new(&mut self, key: String, status: Progress)
        requires
            !old(self)@.contains_key(key@),
        ensures
            final(self)@ == old(self)@.insert(key@, status),
    {
        proof {
            use_type_invariant(&*self);
            lemma_append(self.entries@, key, status);
        }
        let mut entries: Vec<(String, Progress)> = Vec::new();
        std::mem::swap(&mut self.entries, &mut entries);
        entries.push((key, status));
        self.entries = entries;
    }
}

/// Counts the keys of `map` whose status is `value`.
pub fn count_iterator(map: &StatusMap, value: Progress) -> (count: usize)
    ensures
        count == tally(map@, value),
{
    let mut count: usize = 0;
    let mut i: usize = 0;
    while i < map.entries.len()
        invariant
            i <= map.entries.len(),
            count == occurrences(map.entries@.take(i as int), value),
            count <= i,
        decreases map.entries.len() - i,
    {
        proof {
            assert(map.entries@.take(i + 1).drop_last() =~= map.entries@.take(i as int));
        }
        if map.entries[i].1 == value {
            count += 1;
        }
        i += 1;
    }
    proof {
        use_type_invariant(map);
        assert(map.entries@.take(i as int) =~= map.entries@);
        lemma_occurrences_is_tally(map.entries@, value);
    }
    count
}

/// Counting is repeatable: any two runs of `count_iterator` on one map and
/// one status give the same number.
pub proof fn lemma_count_iterator_repeatable(
    map: &StatusMap,
    value: Progress,
    first: usize,
    second: usize,
)
    requires
        call_ensures(count_iterator, (map, value), first),
        call_ensures(count_iterator, (map, value), second),
    ensures
        first == second,
{
}

} // verus!
