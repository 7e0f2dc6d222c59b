use vstd::prelude::*;
use vstd::relations::injective_on;
use vstd::set_lib::{lemma_int_range, lemma_map_size, set_int_range};
use vstd::string::StringExecFns;
use crate::decimal::{decimal, key_name, key_text, lemma_key_text_injective, push_decimal};
use crate::progress::Progress;
use crate::status_map::{tally, keys_with, StatusMap};

verus! {

/// The status of index `i` in a generated map whose last index is `len`:
/// complete above three quarters of `len`, partial above half of it, and
/// not started up to there.
pub open spec fn progress_at(i: nat, len: nat) -> Progress {
    if i > 3 * len / 4 {
        Progress::Complete
    } else if i > len / 2 {
        Progress::Partial
    } else {
        Progress::NotStarted
    }
}

/// `m` holds exactly the generated entries of the indices below `n`: the
/// key of index `i` is `prefix` followed by `i` in decimal, and its status
/// is `progress_at(i, len)`.
pub open spec fn is_generated_below(
    m: Map<Seq<char>, Progress>,
    prefix: Seq<char>,
    len: nat,
    n: nat,
) -> bool {
    &&& forall|k: Seq<char>| #[trigger]
        m.contains_key(k) <==> exists|i: nat| i < n && k == #[trigger] key_text(prefix, i)
    &&& forall|i: nat| i < n ==> m[#[trigger] key_text(prefix, i)] == progress_at(i, len)
}

/// `m` is the generated map for `prefix` and `len`: one entry for each
/// index from 0 to `len`, both included.
pub open spec fn is_generated(m: Map<Seq<char>, Progress>, prefix: Seq<char>, len: nat) -> bool {
    is_generated_below(m, prefix, len, len + 1)
}

/// The prefix shared by the keys of every map of a generated collection.
pub open spec fn collection_prefix(lenx: nat, leny: nat) -> Seq<char> {
    seq!['v', 'e', 'c', ','] + decimal(lenx) + seq![','] + decimal(leny)
}

/// In a generated map, the keys of one status are as many as the indices
/// that get that status, where those indices are the ones from `lo` up to,
/// and without, `hi`.
proof fn lemma_generated_range(
    m: Map<Seq<char>, Progress>,
    prefix: Seq<char>,
    len: nat,
    value: Progress,
    lo: int,
    hi: int,
)
    requires
        is_generated(m, prefix, len),
        0 <= lo <= hi <= len + 1,
        forall|i: nat| i <= len ==> (progress_at(i, len) == value <==> lo <= i < hi),
    ensures
        tally(m, value) == hi - lo,
{
    let indices = set_int_range(lo, hi);
    let name = |i: int| key_text(prefix, i as nat);
    lemma_int_range(lo, hi);
    assert(injective_on(name, indices)) by {
        assert forall|a: int, b: int|
            indices.contains(a) && indices.contains(b) && #[trigger] name(a) == #[trigger] name(
                b,
            ) implies a == b by {
            lemma_key_text_injective(prefix, a as nat, b as nat);
        }
    }
    assert(indices.map(name) =~= keys_with(m, value)) by {
        assert forall|k: Seq<char>| keys_with(m, value).contains(k) implies indices.map(
            name,
        ).contains(k) by {
            let i = choose|i: nat| i < len + 1 && k == #[trigger] key_text(prefix, i);
            assert(indices.contains(i as int) && name(i as int) == k);
        }
        assert forall|k: Seq<char>| indices.map(name).contains(k) implies keys_with(
            m,
            value,
        ).contains(k) by {
            let i = choose|i: int| indices.contains(i) && name(i) == k;
            assert(k == key_text(prefix, i as nat));
            assert(m.contains_key(k));
        }
    }
    lemma_map_size(indices, keys_with(m, value), name);
}

/// The tallies of a generated map: the indices up to half of `len` are not
/// started, those above it up to three quarters of `len` are partial, and
/// the rest are complete.
pub proof fn lemma_generated_tallies(m: Map<Seq<char>, Progress>, prefix: Seq<char>, len: nat)
    requires
        is_generated(m, prefix, len),
    ensures
        tally(m, Progress::NotStarted) == len / 2 + 1,
        tally(m, Progress::Partial) == 3 * len / 4 - len / 2,
        tally(m, Progress::Complete) == len - 3 * len / 4,
{
    let half = (len / 2) as int;
    let upper = (3 * len / 4) as int;
    lemma_generated_range(m, prefix, len, Progress::NotStarted, 0, half + 1);
    lemma_generated_range(m, prefix, len, Progress::Partial, half + 1, upper + 1);
    lemma_generated_range(m, prefix, len, Progress::Complete, upper + 1, len as int + 1);
}

/// The status of index `i` in a generated map whose last index is `len`.
pub fn progress_for(i: usize, len: usize) -> (status: Progress)
    ensures
        status == progress_at(i as nat, len as nat),
{
    let upper: usize = len / 4 * 3 + (len % 4) * 3 / 4;
    assert(upper == 3 * len / 4);
    if i > upper {
        Progress::Complete
    } else if i > len / 2 {
        Progress::Partial
    } else {
        Progress::NotStarted
    }
}

/// Generates the map of `len + 1` entries whose keys are `key` followed by
/// the indices 0 to `len`.
pub fn get_map(key: &str, len: usize) -> (map: StatusMap)
    requires
        len < usize::MAX,
    ensures
        is_generated(map@, key@, len as nat),
        map@.len() == len + 1,
{
    let mut map = StatusMap::new();
    let mut i: usize = 0;
    while i <= len
        invariant
            i <= len + 1,
            len < usize::MAX,
            is_generated_below(map@, key@, len as nat, i as nat),
            map@.len() == i,
        decreases len + 1 - i,
    {
        let name = key_name(key, i);
        let status = progress_for(i, len);
        let ghost before = map@;
        proof {
            map.lemma_view_finite();
            if before.contains_key(name@) {
                let j = choose|j: nat| j < i && name@ == #[trigger] key_text(key@, j);
                lemma_key_text_injective(key@, j, i as nat);
            }
        }
        map.insert_new(name, status);
        proof {
            assert forall|k: Seq<char>| #[trigger]
                map@.contains_key(k) <==> exists|j: nat|
                    j < i + 1 && k == #[trigger] key_text(key@, j) by {
                if k != name@ && before.contains_key(k) {
                    let j = choose|j: nat| j < i && k == #[trigger] key_text(key@, j);
                    assert(j < i + 1 && k == key_text(key@, j));
                }
                if exists|j: nat| j < i + 1 && k == #[trigger] key_text(key@, j) {
                    let j = choose|j: nat| j < i + 1 && k == #[trigger] key_text(key@, j);
                    if j < i {
                        assert(before.contains_key(key_text(key@, j)));
                    }
                }
            }
            assert forall|j: nat| j < i + 1 implies map@[#[trigger] key_text(key@, j)]
                == progress_at(j, len as nat) by {
                if j < i {
                    if key_text(key@, j) == name@ {
                        lemma_key_text_injective(key@, j, i as nat);
                    }
                }
            }
        }
        i += 1;
    }
    map
}

/// Generates `lenx` maps, each the generated map of `leny + 1` entries
/// under the prefix `collection_prefix(lenx, leny)`.
pub fn get_vec_map(lenx: usize, leny: usize) -> (maps: Vec<StatusMap>)
    requires
        leny < usize::MAX,
    ensures
        maps@.len() == lenx,
        forall|j: int|
            0 <= j < lenx ==> is_generated(
                (#[trigger] maps@[j])@,
                collection_prefix(lenx as nat, leny as nat),
                leny as nat,
            ),
{
    let mut prefix = String::from_str("vec,");
    proof {
        reveal_strlit("vec,");
        reveal_strlit(",");
        assert("vec,"@ =~= seq!['v', 'e', 'c', ',']);
        assert(","@ =~= seq![',']);
    }
    push_decimal(&mut prefix, lenx);
    prefix.append(",");
    push_decimal(&mut prefix, leny);
    let mut maps: Vec<StatusMap> = Vec::new();
    let mut j: usize = 0;
    while j < lenx
        invariant
            j <= lenx,
            leny < usize::MAX,
            prefix@ == collection_prefix(lenx as nat, leny as nat),
            maps@.len() == j,
            forall|a: int|
                0 <= a < j ==> is_generated((#[trigger] maps@[a])@, prefix@, leny as nat),
        decreases lenx - j,
    {
        let map = get_map(prefix.as_str(), leny);
        maps.push(map);
        j += 1;
    }
    maps
}

} // verus!
